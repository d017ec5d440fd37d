use square_dss::errors::TaskError;
use square_dss::quorum::{
    decide_by_count, decide_by_stake, dedup_votes, stake_mapping, sum_assets, StakeVote, Vote,
};
use square_dss::registry::OpId;

fn id(n: u128) -> OpId {
    OpId { hi: 0, lo: n }
}

fn vote(n: u128, value: u128) -> Vote {
    Vote { id: id(n), value }
}

fn svote(n: u128, value: u128, stake: u64) -> StakeVote {
    StakeVote { id: id(n), value, stake }
}

#[test]
fn counted_majority_decides() {
    let votes = vec![vote(1, 49), vote(2, 49), vote(3, 49), vote(4, 50)];
    assert_eq!(decide_by_count(&votes, 4), Ok(49));
}

#[test]
fn counted_round_needs_strict_majority() {
    // Two of four registered operators do not clear a strict majority.
    let votes = vec![vote(1, 49), vote(2, 49)];
    assert_eq!(decide_by_count(&votes, 4), Err(TaskError::MajorityNotReached));
    // Three of four do.
    let votes3 = vec![vote(1, 49), vote(2, 49), vote(3, 49)];
    assert_eq!(decide_by_count(&votes3, 4), Ok(49));
}

#[test]
fn counted_round_without_votes_fails_verification() {
    let votes: Vec<Vote> = Vec::new();
    assert_eq!(decide_by_count(&votes, 4), Err(TaskError::TaskVerificationFailed));
}

#[test]
fn counted_tie_breaks_toward_smaller_value() {
    let votes = vec![vote(1, 9), vote(2, 5), vote(3, 9), vote(4, 5)];
    assert_eq!(decide_by_count(&votes, 3), Ok(5));
}

#[test]
fn dedup_overwrites_by_identity() {
    let votes = vec![vote(1, 49), vote(2, 50), vote(1, 51)];
    let d = dedup_votes(&votes);
    assert_eq!(d.len(), 2);
    assert_eq!(d[0], vote(1, 51));
    assert_eq!(d[1], vote(2, 50));
}

#[test]
fn stake_majority_decides() {
    // 70 of 100 eligible stake behind 49.
    let votes = vec![svote(1, 49, 40), svote(2, 49, 30), svote(3, 50, 10)];
    assert_eq!(decide_by_stake(&votes, 100), Ok(49));
}

#[test]
fn no_stake_majority_fails() {
    // No value's weight strictly exceeds half of the eligible total: 60 + 60
    // of 200 eligible; 80 never answered.
    let votes = vec![
        svote(1, 49, 30),
        svote(2, 49, 30),
        svote(3, 50, 40),
        svote(4, 50, 20),
    ];
    assert_eq!(decide_by_stake(&votes, 200), Err(TaskError::MajorityNotReached));
    // Exactly half is still not a majority.
    let half = vec![svote(1, 49, 100)];
    assert_eq!(decide_by_stake(&half, 200), Err(TaskError::MajorityNotReached));
    // One more clears it.
    let over = vec![svote(1, 49, 101)];
    assert_eq!(decide_by_stake(&over, 200), Ok(49));
}

#[test]
fn stake_round_without_votes_fails_verification() {
    let votes: Vec<StakeVote> = Vec::new();
    assert_eq!(decide_by_stake(&votes, 100), Err(TaskError::TaskVerificationFailed));
}

#[test]
fn stake_decision_ignores_arrival_order() {
    let a = vec![svote(1, 49, 40), svote(2, 50, 45), svote(3, 49, 20)];
    let mut b = a.clone();
    b.reverse();
    assert_eq!(decide_by_stake(&a, 100), decide_by_stake(&b, 100));
    assert_eq!(decide_by_stake(&a, 100), Ok(49));
}

#[test]
fn stake_mapping_filters_the_floor() {
    let fetched = vec![(id(1), 100u64), (id(2), 5u64), (id(3), 50u64)];
    let (eligible, total) = stake_mapping(&fetched, 10);
    assert_eq!(eligible, vec![(id(1), 100u64), (id(3), 50u64)]);
    assert_eq!(total, 150u128);
    // The floor is strict: a stake equal to it is excluded.
    let (eligible_eq, total_eq) = stake_mapping(&vec![(id(1), 10u64)], 10);
    assert_eq!(eligible_eq.len(), 0);
    assert_eq!(total_eq, 0u128);
}

#[test]
fn vault_assets_sum() {
    assert_eq!(sum_assets(&vec![1, 2, 3]), 6u128);
    assert_eq!(sum_assets(&Vec::new()), 0u128);
    assert_eq!(sum_assets(&vec![u64::MAX, u64::MAX]), 2 * (u64::MAX as u128));
}
