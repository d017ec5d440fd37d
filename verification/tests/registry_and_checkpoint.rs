use square_dss::codec::{parse_checkpoint, render_checkpoint, u128_to_dec};
use square_dss::health::{health_check, HealthCheck, Status};
use square_dss::register_sm::{RegAction, RegEvent, RegPhase, RegistrationService};
use square_dss::registry::{OpId, Operator, OperatorState};
use square_dss::watcher::{next_checkpoint, TaskEvent};

fn op(hi: u32, lo: u128, url: &str) -> Operator {
    Operator::new(OpId { hi, lo }, String::from(url), None)
}

#[test]
fn register_twice_keeps_one_member() {
    let mut state = OperatorState::new();
    state.register_operator(op(1, 42, "http://operator-a.example/"));
    state.register_operator(op(1, 42, "http://operator-a.example/"));
    assert_eq!(state.len(), 1);
    assert!(state.is_operator_registered(&op(1, 42, "http://operator-a.example/")));
}

#[test]
fn register_distinguishes_identity_and_url() {
    let mut state = OperatorState::new();
    state.register_operator(op(1, 42, "http://operator-a.example/"));
    state.register_operator(op(1, 42, "http://operator-b.example/"));
    state.register_operator(op(2, 42, "http://operator-a.example/"));
    assert_eq!(state.len(), 3);
    assert!(!state.is_operator_registered(&op(2, 42, "http://operator-b.example/")));
}

#[test]
fn snapshot_copies_members() {
    let mut state = OperatorState::new();
    state.register_operator(op(7, 7, "http://operator-a.example/"));
    state.register_operator(op(8, 8, "http://operator-b.example/"));
    let snap = state.snapshot();
    assert_eq!(snap.len(), 2);
    assert_eq!(snap[0].public_key(), OpId { hi: 7, lo: 7 });
    assert_eq!(snap[1].url().as_str(), "http://operator-b.example/");
}

#[test]
fn checkpoint_advances_past_event_block() {
    // A batch spanning blocks [10, 20) with one matching event at block 15
    // persists checkpoint 16, whatever came of the submission.
    let events = vec![TaskEvent { value: 7, block_number: 15 }];
    assert_eq!(next_checkpoint(10, &events), 16);
}

#[test]
fn checkpoint_never_falls_back() {
    let events = vec![TaskEvent { value: 7, block_number: 3 }];
    assert_eq!(next_checkpoint(10, &events), 10);
    let empty: Vec<TaskEvent> = Vec::new();
    assert_eq!(next_checkpoint(10, &empty), 10);
}

#[test]
fn checkpoint_takes_highest_event() {
    let events = vec![
        TaskEvent { value: 1, block_number: 12 },
        TaskEvent { value: 2, block_number: 19 },
        TaskEvent { value: 3, block_number: 14 },
    ];
    assert_eq!(next_checkpoint(10, &events), 20);
}

#[test]
fn checkpoint_document_round_trips() {
    let doc = render_checkpoint(16);
    assert_eq!(doc, b"{\"block_number\":16}".to_vec());
    assert_eq!(parse_checkpoint(&doc), Some(16));
    let doc0 = render_checkpoint(0);
    assert_eq!(doc0, b"{\"block_number\":0}".to_vec());
    assert_eq!(parse_checkpoint(&doc0), Some(0));
    let big = render_checkpoint(u64::MAX);
    assert_eq!(parse_checkpoint(&big), Some(u64::MAX));
}

#[test]
fn checkpoint_parser_rejects_non_canonical_documents() {
    assert_eq!(parse_checkpoint(&b"{\"block_number\":}".to_vec()), None);
    assert_eq!(parse_checkpoint(&b"{\"block_number\":007}".to_vec()), None);
    assert_eq!(parse_checkpoint(&b"{\"block_number\":16".to_vec()), None);
    assert_eq!(parse_checkpoint(&b"{\"block_numbex\":16}".to_vec()), None);
    assert_eq!(parse_checkpoint(&b"{\"block_number\":1x}".to_vec()), None);
    // One past u64::MAX overflows the block number.
    assert_eq!(parse_checkpoint(&b"{\"block_number\":18446744073709551616}".to_vec()), None);
    assert_eq!(parse_checkpoint(&Vec::new()), None);
}

#[test]
fn decimal_rendering_is_plain() {
    assert_eq!(u128_to_dec(0), b"0".to_vec());
    assert_eq!(u128_to_dec(1230), b"1230".to_vec());
    assert_eq!(
        u128_to_dec(u128::MAX),
        b"340282366920938463463374607431768211455".to_vec()
    );
}

#[test]
fn registration_machine_reaches_steady_state() {
    let mut sm = RegistrationService::new();
    assert_eq!(sm.phase, RegPhase::CheckingChain);
    assert_eq!(sm.initial_action(), RegAction::CheckChain);
    // The chain says "not registered": the machine registers.
    assert_eq!(sm.step(RegEvent::ChainStatus(false)), RegAction::RegisterOnChain);
    assert_eq!(sm.phase, RegPhase::RegisteringOnChain);
    // The transaction fails: back to checking.
    assert_eq!(sm.step(RegEvent::RegisterFailed), RegAction::CheckChain);
    assert_eq!(sm.phase, RegPhase::CheckingChain);
    // A failed check retries.
    assert_eq!(sm.step(RegEvent::ChainCheckFailed), RegAction::CheckChain);
    // Registration observed: steady state.
    assert_eq!(sm.step(RegEvent::ChainStatus(false)), RegAction::RegisterOnChain);
    assert_eq!(sm.step(RegEvent::RegisterSucceeded), RegAction::QueryAggregator);
    assert_eq!(sm.phase, RegPhase::Heartbeat);
    // The aggregator forgot this operator: announce, stay in steady state.
    assert_eq!(sm.step(RegEvent::AggregatorStatus(false)), RegAction::Announce);
    assert_eq!(sm.phase, RegPhase::Heartbeat);
    assert_eq!(sm.step(RegEvent::AnnounceDone), RegAction::Wait);
    assert_eq!(sm.step(RegEvent::AggregatorStatus(true)), RegAction::Wait);
    assert_eq!(sm.step(RegEvent::AggregatorCheckFailed), RegAction::Wait);
    assert_eq!(sm.phase, RegPhase::Heartbeat);
}

#[test]
fn health_probe_reports_up() {
    let h = health_check();
    assert_eq!(h.status, Status::Up);
    assert_eq!(h.status_code(), 200);
    assert_eq!(HealthCheck { status: Status::Warn }.status_code(), 200);
    assert_eq!(HealthCheck { status: Status::Fail }.status_code(), 500);
}
