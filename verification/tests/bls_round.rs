use square_dss::bls::{aggregate_responses, verify_message};
use square_dss::codec::encode_abi_word;
use square_dss::crypto::{bls_derive_pubkey, bls_verify, g1_add, g2_add, keccak256};
use square_dss::errors::TaskError;
use square_dss::points::G1Repr;
use square_dss::registry::{BlsPublicKey, OpId, Operator};
use square_dss::task::{Task, TaskResponse, TaskState};

fn secret(seed: u8) -> Vec<u8> {
    let mut s = vec![0u8; 32];
    s[0] = seed;
    s
}

fn operator_state(seed: u8, lo: u128) -> (TaskState, Operator, BlsPublicKey) {
    let sk = secret(seed);
    let pk = bls_derive_pubkey(&sk);
    let id = OpId { hi: 0, lo };
    let st = TaskState::new(sk, pk, id);
    let url = format!("http://operator-{lo}.example/");
    (st, Operator::new(id, url, Some(pk)), pk)
}

fn respond(st: &TaskState, value: u128) -> TaskResponse {
    st.handle_task(Task { value })
}

#[test]
fn authentic_response_verifies_and_tampered_does_not() {
    let (st, _, _) = operator_state(1, 1);
    let mut r = respond(&st, 7);
    assert!(verify_message(&r));
    r.completed_task.response = 50;
    assert!(!verify_message(&r));
}

#[test]
fn five_operators_three_valid_forty_nines_aggregate() {
    // Five registered operators: three sign 49 validly, one signs 50
    // validly, one hands back garbage that fails verification.
    let (st1, op1, _pk1) = operator_state(1, 1);
    let (st2, op2, _pk2) = operator_state(2, 2);
    let (st3, op3, _pk3) = operator_state(3, 3);
    let (st4, op4, pk4) = operator_state(4, 4);
    let (st5, op5, pk5) = operator_state(5, 5);
    let r1 = respond(&st1, 7);
    let r2 = respond(&st2, 7);
    let r3 = respond(&st3, 7);
    let mut r4 = respond(&st4, 7);
    r4.completed_task.response = 50;
    r4.signature = st4.sign_object(&r4.completed_task);
    let mut r5 = respond(&st5, 7);
    r5.signature.x.l[0] ^= 1;
    assert!(!verify_message(&r5));

    let responses = vec![
        r5.clone(),
        r3.clone(),
        r1.clone(),
        r4.clone(),
        r2.clone(),
    ];
    let operators = vec![
        op1.clone(),
        op2.clone(),
        op3.clone(),
        op4.clone(),
        op5.clone(),
    ];
    let decision = aggregate_responses(&responses, &operators).expect("quorum");
    // Winning by count is 49, with three of five signers: 3 > 5/2.
    assert_eq!(decision.response, 49);
    // The aggregated material sums the three winners in ascending identity
    // order.
    let expected_sig = g1_add(&g1_add(&r1.signature, &r2.signature), &r3.signature);
    assert_eq!(decision.agg_signature, expected_sig);
    let expected_key = g2_add(
        &g2_add(&r1.bls_pubkey.g2, &r2.bls_pubkey.g2),
        &r3.bls_pubkey.g2,
    );
    assert_eq!(decision.agg_pubkey, expected_key);
    // The non-signers are the other two operators' G1 keys, in registry
    // order.
    assert_eq!(decision.non_signing_keys, vec![pk4.g1, pk5.g1]);
    // The aggregated signature verifies against the aggregated public key
    // over the same digest the contract rebuilds.
    let digest = keccak256(&encode_abi_word(49));
    assert!(bls_verify(&decision.agg_pubkey, &decision.agg_signature, &digest));
}

#[test]
fn proof_material_ignores_arrival_order() {
    let (st1, op1, _) = operator_state(1, 1);
    let (st2, op2, _) = operator_state(2, 2);
    let (st3, op3, _) = operator_state(3, 3);
    let r1 = respond(&st1, 7);
    let r2 = respond(&st2, 7);
    let r3 = respond(&st3, 7);
    let operators = vec![op1, op2, op3];
    let forward = aggregate_responses(&vec![r1.clone(), r2.clone(), r3.clone()], &operators)
        .expect("quorum");
    let backward = aggregate_responses(&vec![r3, r2, r1], &operators).expect("quorum");
    assert_eq!(forward.response, backward.response);
    assert_eq!(forward.agg_signature, backward.agg_signature);
    assert_eq!(forward.agg_pubkey, backward.agg_pubkey);
    assert_eq!(forward.non_signing_keys, backward.non_signing_keys);
    assert_eq!(forward.non_signing_keys, Vec::<G1Repr>::new());
}

#[test]
fn split_vote_reaches_no_majority() {
    let (st1, op1, _) = operator_state(1, 1);
    let (st2, op2, _) = operator_state(2, 2);
    let (st3, op3, _) = operator_state(3, 3);
    let (_, op4, _) = operator_state(4, 4);
    let r1 = respond(&st1, 7);
    let mut r2 = respond(&st2, 7);
    r2.completed_task.response = 50;
    r2.signature = st2.sign_object(&r2.completed_task);
    let responses = vec![r1, r2, respond(&st3, 7)];
    // Two of four registered vote 49: not a strict majority.
    let operators = vec![op1, op2, op3, op4];
    assert_eq!(
        aggregate_responses(&responses, &operators).err(),
        Some(TaskError::MajorityNotReached)
    );
}

#[test]
fn all_rejected_fails_verification() {
    let (st1, op1, _) = operator_state(1, 1);
    let mut r1 = respond(&st1, 7);
    r1.signature.y.l[2] ^= 0x10;
    let operators = vec![op1];
    assert_eq!(
        aggregate_responses(&vec![r1], &operators).err(),
        Some(TaskError::TaskVerificationFailed)
    );
}

#[test]
fn operator_computes_and_signs_the_square() {
    let (st, _, pk) = operator_state(9, 9);
    let r = st.handle_task(Task { value: 12 });
    assert_eq!(r.completed_task.value, 12);
    assert_eq!(r.completed_task.response, 144);
    assert_eq!(r.bls_pubkey, pk);
    assert!(verify_message(&r));
    // The checked path rejects a value whose square cannot be represented.
    assert!(st.request_task(Task { value: u128::MAX }).is_err());
    assert!(st.request_task(Task { value: 3 }).is_ok());
}
