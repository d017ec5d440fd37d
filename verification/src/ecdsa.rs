use vstd::prelude::*;

use crate::crypto::{ecrecover_message, ecrecover_of};
use crate::errors::TaskError;
use crate::quorum::{
    decide_by_count, decide_by_count_spec, decide_by_stake, decide_by_stake_spec, dedup_votes,
    dedup_votes_spec, StakeVote, Vote,
};
use crate::registry::OpId;
use crate::task::{completed_task_msg, render_completed_task, CompletedTask};

verus! {

/// A completed task as an operator reports it back under the
/// address-recovery strategy: the work, the claimed identity, and a 65-byte
/// signature over the canonical message of the completed task.
pub struct TaskResponse {
    pub completed_task: CompletedTask,
    pub public_key: OpId,
    pub signature: Vec<u8>,
}

impl Clone for TaskResponse {
    fn clone(&self) -> (r: Self)
        ensures
            r.completed_task == self.completed_task,
            r.public_key == self.public_key,
            r.signature@ == self.signature@,
    {
        TaskResponse {
            completed_task: self.completed_task,
            public_key: self.public_key,
            signature: self.signature.clone(),
        }
    }
}

/// A response is authentic when the address recovered from its signature
/// over the canonical message is exactly the claimed identity.
pub open spec fn ecdsa_response_valid(r: TaskResponse) -> bool {
    ecrecover_of(r.signature@, completed_task_msg(r.completed_task)) == Some(
        (r.public_key.hi, r.public_key.lo),
    )
}

/// Checks one response: recovers the signer from the signature and the
/// canonical message, and accepts exactly when it matches the claimed
/// identity. A malformed signature is a rejection, not an error.
pub fn verify_message(r: &TaskResponse) -> (b: bool)
    ensures
        b == ecdsa_response_valid(*r),
{
    let msg = render_completed_task(&r.completed_task);
    match ecrecover_message(&r.signature, &msg) {
        Some(id) => id.hi == r.public_key.hi && id.lo == r.public_key.lo,
        None => false,
    }
}

/// The votes of the authentic responses, in arrival order.
pub open spec fn valid_votes(rs: Seq<TaskResponse>) -> Seq<Vote>
    decreases rs.len(),
{
    if rs.len() == 0 {
        Seq::empty()
    } else {
        let d = valid_votes(rs.drop_last());
        if ecdsa_response_valid(rs.last()) {
            d.push(Vote { id: rs.last().public_key, value: rs.last().completed_task.response })
        } else {
            d
        }
    }
}

/// Filters a round's responses to the authentic ones' votes.
fn collect_verified(responses: &Vec<TaskResponse>) -> (r: Vec<Vote>)
    ensures
        r@ == valid_votes(responses@),
{
    let n = responses.len();
    let mut out: Vec<Vote> = Vec::new();
    let mut k: usize = 0;
    proof {
        assert(out@ =~= valid_votes(responses@.take(0int)));
    }
    while k < n
        invariant
            n == responses@.len(),
            k <= n,
            out@ == valid_votes(responses@.take(k as int)),
        decreases n - k,
    {
        proof {
            assert(responses@.take(k as int + 1).drop_last() =~= responses@.take(k as int));
            assert(responses@.take(k as int + 1).last() == responses@[k as int]);
        }
        let resp = &responses[k];
        if verify_message(resp) {
            out.push(Vote { id: resp.public_key, value: resp.completed_task.response });
        }
        k = k + 1;
    }
    proof {
        assert(responses@.take(n as int) =~= responses@);
    }
    out
}

/// What an equal-weight round over raw responses decides: authentic votes,
/// deduplicated per operator, counted against a strict majority of the full
/// registered set.
pub open spec fn equal_outcome_spec(rs: Seq<TaskResponse>, total: int) -> Result<u128, TaskError> {
    decide_by_count_spec(dedup_votes_spec(valid_votes(rs)), total)
}

/// Runs the equal-weight aggregation over one dispatch round's responses:
/// verifies each signature by address recovery, keeps one vote per operator,
/// and decides by strict majority of all `total_registered` operators.
pub fn aggregate_equal(responses: &Vec<TaskResponse>, total_registered: usize) -> (r: Result<
    u128,
    TaskError,
>)
    ensures
        r == equal_outcome_spec(responses@, total_registered as int),
{
    let votes = collect_verified(responses);
    let deduped = dedup_votes(&votes);
    decide_by_count(&deduped, total_registered)
}

// ---------------------------------------------------------------------------
// The stake-weighted variant: the same authentic votes, weighted by each
// eligible operator's fetched stake.
// ---------------------------------------------------------------------------

/// The stake an identity holds in the eligible mapping, if it is eligible at
/// all: the first matching entry.
pub open spec fn stake_lookup_spec(m: Seq<(OpId, u64)>, id: OpId) -> Option<u64>
    decreases m.len(),
{
    if m.len() == 0 {
        None
    } else if m[0].0 == id {
        Some(m[0].1)
    } else {
        stake_lookup_spec(m.drop_first(), id)
    }
}

/// Looks an identity's stake up in the eligible mapping.
pub fn stake_lookup(m: &Vec<(OpId, u64)>, id: OpId) -> (r: Option<u64>)
    ensures
        r == stake_lookup_spec(m@, id),
{
    let n = m.len();
    let mut k: usize = 0;
    proof {
        assert(m@.skip(0int) =~= m@);
    }
    while k < n
        invariant
            n == m@.len(),
            k <= n,
            stake_lookup_spec(m@, id) == stake_lookup_spec(m@.skip(k as int), id),
        decreases n - k,
    {
        proof {
            assert(m@.skip(k as int)[0] == m@[k as int]);
            assert(m@.skip(k as int).drop_first() =~= m@.skip(k as int + 1));
        }
        let (mid, stake) = m[k];
        if mid == id {
            return Some(stake);
        }
        k = k + 1;
    }
    proof {
        assert(m@.skip(n as int) =~= Seq::<(OpId, u64)>::empty());
    }
    None
}

/// The weighted votes of deduplicated authentic votes: an operator outside
/// the eligible mapping is excluded entirely.
pub open spec fn stake_votes_spec(votes: Seq<Vote>, eligible: Seq<(OpId, u64)>) -> Seq<StakeVote>
    decreases votes.len(),
{
    if votes.len() == 0 {
        Seq::empty()
    } else {
        let d = stake_votes_spec(votes.drop_last(), eligible);
        match stake_lookup_spec(eligible, votes.last().id) {
            Some(st) => d.push(
                StakeVote { id: votes.last().id, value: votes.last().value, stake: st },
            ),
            None => d,
        }
    }
}

/// Attaches each eligible voter's stake to its vote.
fn attach_stakes(votes: &Vec<Vote>, eligible: &Vec<(OpId, u64)>) -> (r: Vec<StakeVote>)
    ensures
        r@ == stake_votes_spec(votes@, eligible@),
{
    let n = votes.len();
    let mut out: Vec<StakeVote> = Vec::new();
    let mut k: usize = 0;
    proof {
        assert(out@ =~= stake_votes_spec(votes@.take(0int), eligible@));
    }
    while k < n
        invariant
            n == votes@.len(),
            k <= n,
            out@ == stake_votes_spec(votes@.take(k as int), eligible@),
        decreases n - k,
    {
        proof {
            assert(votes@.take(k as int + 1).drop_last() =~= votes@.take(k as int));
            assert(votes@.take(k as int + 1).last() == votes@[k as int]);
        }
        let v = votes[k];
        match stake_lookup(eligible, v.id) {
            Some(st) => {
                out.push(StakeVote { id: v.id, value: v.value, stake: st });
            },
            None => (),
        }
        k = k + 1;
    }
    proof {
        assert(votes@.take(n as int) =~= votes@);
    }
    out
}

/// What a stake-weighted round over raw responses decides: authentic votes,
/// one per operator, weighted by eligible stake, against a strict majority
/// of `total_eligible`.
pub open spec fn weighted_outcome_spec(
    rs: Seq<TaskResponse>,
    eligible: Seq<(OpId, u64)>,
    total_eligible: int,
) -> Result<u128, TaskError> {
    decide_by_stake_spec(
        stake_votes_spec(dedup_votes_spec(valid_votes(rs)), eligible),
        total_eligible,
    )
}

/// Runs the stake-weighted aggregation over one dispatch round's responses:
/// verifies each signature by address recovery, keeps one vote per operator,
/// weighs the votes by the eligible mapping, and demands strictly more than
/// half of `total_eligible` — the stake of eligible operators that never
/// answered still counts in the denominator.
pub fn aggregate_weighted(
    responses: &Vec<TaskResponse>,
    eligible: &Vec<(OpId, u64)>,
    total_eligible: u128,
) -> (r: Result<u128, TaskError>)
    ensures
        r == weighted_outcome_spec(responses@, eligible@, total_eligible as int),
{
    let votes = collect_verified(responses);
    let deduped = dedup_votes(&votes);
    let weighted = attach_stakes(&deduped, eligible);
    decide_by_stake(&weighted, total_eligible)
}

// ---------------------------------------------------------------------------
// Laws.
// ---------------------------------------------------------------------------

/// An all-authentic round's votes are its responses' votes, one for one.
proof fn lemma_all_valid_votes(rs: Seq<TaskResponse>)
    requires
        forall|i: int| 0 <= i < rs.len() ==> ecdsa_response_valid(#[trigger] rs[i]),
    ensures
        valid_votes(rs).len() == rs.len(),
        forall|i: int|
            0 <= i < rs.len() ==> #[trigger] valid_votes(rs)[i] == (Vote {
                id: rs[i].public_key,
                value: rs[i].completed_task.response,
            }),
    decreases rs.len(),
{
    if rs.len() > 0 {
        let init = rs.drop_last();
        assert(forall|i: int| 0 <= i < init.len() ==> init[i] == rs[i]);
        lemma_all_valid_votes(init);
        assert(ecdsa_response_valid(rs.last())) by {
            assert(rs[rs.len() - 1] == rs.last());
        }
        assert forall|i: int|
            0 <= i < rs.len() implies #[trigger] valid_votes(rs)[i] == (Vote {
            id: rs[i].public_key,
            value: rs[i].completed_task.response,
        }) by {
            if i < init.len() {
                assert(valid_votes(rs)[i] == valid_votes(init)[i]);
            } else {
                assert(valid_votes(rs)[i] == Vote {
                    id: rs.last().public_key,
                    value: rs.last().completed_task.response,
                });
            }
        }
    }
}

/// When every registered operator answers with a correctly-signed response
/// carrying one value, and the operators clear the quorum threshold, the
/// round decides that value.
pub proof fn lemma_unanimous_round_decides(rs: Seq<TaskResponse>, total: int, val: u128)
    requires
        rs.len() > 0,
        forall|i: int, j: int| 0 <= i < j < rs.len() ==> rs[i].public_key != rs[j].public_key,
        forall|i: int|
            0 <= i < rs.len() ==> ecdsa_response_valid(#[trigger] rs[i])
                && rs[i].completed_task.response == val,
        2 * rs.len() > total,
    ensures
        equal_outcome_spec(rs, total) == Ok::<u128, TaskError>(val),
{
    lemma_all_valid_votes(rs);
    let votes = valid_votes(rs);
    assert(crate::quorum::distinct_vote_ids(votes)) by {
        assert(forall|i: int| 0 <= i < rs.len() ==> #[trigger] votes[i].id == rs[i].public_key);
    }
    crate::quorum::lemma_dedup_votes_identity(votes);
    crate::quorum::lemma_unanimous_count_decides(votes, total, val);
}

// ---------------------------------------------------------------------------
// Order independence of the whole pipeline: every quantity a decision reads
// is a per-response measure summed over the round, and such sums depend only
// on the multiset of responses.
// ---------------------------------------------------------------------------

/// The measure over raw responses that a measure `g` over votes induces:
/// authentic responses contribute their vote's share, the rest nothing.
pub open spec fn valid_vote_measure(g: spec_fn(Vote) -> int) -> spec_fn(TaskResponse) -> int {
    |r: TaskResponse| if ecdsa_response_valid(r) {
        g(Vote { id: r.public_key, value: r.completed_task.response })
    } else {
        0int
    }
}

/// Summing over the authentic votes is summing the induced measure over the
/// raw responses.
proof fn lemma_valid_votes_measure(rs: Seq<TaskResponse>, g: spec_fn(Vote) -> int)
    ensures
        crate::quorum::seq_measure(valid_votes(rs), g) == crate::quorum::seq_measure(
            rs,
            valid_vote_measure(g),
        ),
    decreases rs.len(),
{
    if rs.len() > 0 {
        lemma_valid_votes_measure(rs.drop_last(), g);
        if ecdsa_response_valid(rs.last()) {
            let d = valid_votes(rs.drop_last());
            let vt = Vote {
                id: rs.last().public_key,
                value: rs.last().completed_task.response,
            };
            assert(valid_votes(rs) == d.push(vt));
            assert(d.push(vt).drop_last() =~= d);
            assert(d.push(vt).last() == vt);
        }
    }
}

pub open spec fn one_vote_measure() -> spec_fn(Vote) -> int {
    |x: Vote| 1int
}

proof fn lemma_measure_one_len(s: Seq<Vote>)
    ensures
        crate::quorum::seq_measure(s, one_vote_measure()) == s.len(),
    decreases s.len(),
{
    if s.len() > 0 {
        lemma_measure_one_len(s.drop_last());
    }
}

/// Every authentic vote's identity comes from some arrived response.
proof fn lemma_valid_votes_id_witness(rs: Seq<TaskResponse>)
    ensures
        forall|k: int|
            0 <= k < valid_votes(rs).len() ==> exists|j: int|
                0 <= j < rs.len() && #[trigger] valid_votes(rs)[k].id == rs[j].public_key,
    decreases rs.len(),
{
    if rs.len() > 0 {
        let init = rs.drop_last();
        lemma_valid_votes_id_witness(init);
        let d = valid_votes(init);
        assert forall|k: int|
            0 <= k < valid_votes(rs).len() implies exists|j: int|
            0 <= j < rs.len() && #[trigger] valid_votes(rs)[k].id == rs[j].public_key by {
            if k < d.len() {
                assert(valid_votes(rs)[k] == d[k]);
                let j = choose|j: int|
                    0 <= j < init.len() && #[trigger] d[k].id == init[j].public_key;
                assert(valid_votes(rs)[k].id == rs[j].public_key);
            } else {
                assert(valid_votes(rs)[k].id == rs[rs.len() - 1].public_key);
            }
        }
    }
}

/// One response per operator leaves one vote per operator.
proof fn lemma_valid_votes_distinct(rs: Seq<TaskResponse>)
    requires
        forall|i: int, j: int| 0 <= i < j < rs.len() ==> rs[i].public_key != rs[j].public_key,
    ensures
        crate::quorum::distinct_vote_ids(valid_votes(rs)),
    decreases rs.len(),
{
    if rs.len() > 0 {
        let init = rs.drop_last();
        assert(forall|i: int| 0 <= i < init.len() ==> init[i] == rs[i]);
        lemma_valid_votes_distinct(init);
        if ecdsa_response_valid(rs.last()) {
            let d = valid_votes(init);
            lemma_valid_votes_id_witness(init);
            assert forall|i: int, j: int|
                0 <= i < j < valid_votes(rs).len() implies valid_votes(rs)[i].id != valid_votes(
                rs,
            )[j].id by {
                if j == d.len() {
                    assert(valid_votes(rs)[i] == d[i]);
                    let a = choose|a: int|
                        0 <= a < init.len() && #[trigger] d[i].id == init[a].public_key;
                    assert(rs[a].public_key != rs[rs.len() - 1].public_key);
                    assert(valid_votes(rs)[j].id == rs[rs.len() - 1].public_key);
                }
            }
        }
    }
}

/// The equal-weight outcome is order-independent: two rounds collecting the
/// same responses — one response per operator, in any arrival orders —
/// decide alike.
pub proof fn lemma_equal_outcome_order_independent(
    rs1: Seq<TaskResponse>,
    rs2: Seq<TaskResponse>,
    total: int,
)
    requires
        rs1.to_multiset() == rs2.to_multiset(),
        forall|i: int, j: int| 0 <= i < j < rs1.len() ==> rs1[i].public_key != rs1[j].public_key,
        forall|i: int, j: int| 0 <= i < j < rs2.len() ==> rs2[i].public_key != rs2[j].public_key,
    ensures
        equal_outcome_spec(rs1, total) == equal_outcome_spec(rs2, total),
{
    let v1 = valid_votes(rs1);
    let v2 = valid_votes(rs2);
    assert(v1.len() == v2.len()) by {
        lemma_measure_one_len(v1);
        lemma_measure_one_len(v2);
        lemma_valid_votes_measure(rs1, one_vote_measure());
        lemma_valid_votes_measure(rs2, one_vote_measure());
        crate::quorum::lemma_seq_measure_permutation(
            rs1,
            rs2,
            valid_vote_measure(one_vote_measure()),
        );
    }
    assert forall|v: u128|
        #![trigger crate::quorum::count_votes_for(v1, v)]
        #![trigger crate::quorum::count_votes_for(v2, v)]
        crate::quorum::count_votes_for(v1, v) == crate::quorum::count_votes_for(v2, v) by {
        lemma_valid_votes_measure(rs1, crate::quorum::vote_indicator(v));
        lemma_valid_votes_measure(rs2, crate::quorum::vote_indicator(v));
        crate::quorum::lemma_seq_measure_permutation(
            rs1,
            rs2,
            valid_vote_measure(crate::quorum::vote_indicator(v)),
        );
    }
    lemma_valid_votes_distinct(rs1);
    lemma_valid_votes_distinct(rs2);
    crate::quorum::lemma_dedup_votes_identity(v1);
    crate::quorum::lemma_dedup_votes_identity(v2);
    crate::quorum::lemma_count_decision_equal_counts(v1, v2, total);
}

/// The measure over votes that the eligible stake of value `v` induces.
pub open spec fn eligible_stake_measure(eligible: Seq<(OpId, u64)>, v: u128) -> spec_fn(Vote) -> int {
    |x: Vote| if x.value == v {
        match stake_lookup_spec(eligible, x.id) {
            Some(st) => st as int,
            None => 0int,
        }
    } else {
        0int
    }
}

/// The measure over votes that eligible presence behind value `v` induces.
pub open spec fn eligible_presence_measure(eligible: Seq<(OpId, u64)>, v: u128) -> spec_fn(
    Vote,
) -> int {
    |x: Vote| if x.value == v && stake_lookup_spec(eligible, x.id) is Some {
        1int
    } else {
        0int
    }
}

/// The measure over votes that eligibility itself induces.
pub open spec fn eligible_one_measure(eligible: Seq<(OpId, u64)>) -> spec_fn(Vote) -> int {
    |x: Vote| if stake_lookup_spec(eligible, x.id) is Some {
        1int
    } else {
        0int
    }
}

/// The weighted votes' sums are the induced measures summed over the plain
/// votes.
proof fn lemma_stake_votes_measures(votes: Seq<Vote>, eligible: Seq<(OpId, u64)>, v: u128)
    ensures
        crate::quorum::weight_for(stake_votes_spec(votes, eligible), v) == crate::quorum::seq_measure(
            votes,
            eligible_stake_measure(eligible, v),
        ),
        crate::quorum::stake_count_for(stake_votes_spec(votes, eligible), v)
            == crate::quorum::seq_measure(votes, eligible_presence_measure(eligible, v)),
        stake_votes_spec(votes, eligible).len() == crate::quorum::seq_measure(
            votes,
            eligible_one_measure(eligible),
        ),
    decreases votes.len(),
{
    if votes.len() > 0 {
        lemma_stake_votes_measures(votes.drop_last(), eligible, v);
        let d = stake_votes_spec(votes.drop_last(), eligible);
        match stake_lookup_spec(eligible, votes.last().id) {
            Some(st) => {
                let sv = StakeVote { id: votes.last().id, value: votes.last().value, stake: st };
                assert(stake_votes_spec(votes, eligible) == d.push(sv));
                assert(d.push(sv).drop_last() =~= d);
                assert(d.push(sv).last() == sv);
                assert((crate::quorum::stake_indicator(v))(sv) == if votes.last().value == v {
                    st as int
                } else {
                    0int
                });
                assert((crate::quorum::presence_indicator(v))(sv) == if votes.last().value == v {
                    1int
                } else {
                    0int
                });
            },
            None => (),
        }
    }
}

/// The stake-weighted outcome is order-independent: two rounds collecting
/// the same responses — one response per operator, in any arrival orders —
/// weighed against one eligible mapping decide alike.
pub proof fn lemma_weighted_outcome_order_independent(
    rs1: Seq<TaskResponse>,
    rs2: Seq<TaskResponse>,
    eligible: Seq<(OpId, u64)>,
    total: int,
)
    requires
        rs1.to_multiset() == rs2.to_multiset(),
        forall|i: int, j: int| 0 <= i < j < rs1.len() ==> rs1[i].public_key != rs1[j].public_key,
        forall|i: int, j: int| 0 <= i < j < rs2.len() ==> rs2[i].public_key != rs2[j].public_key,
    ensures
        weighted_outcome_spec(rs1, eligible, total) == weighted_outcome_spec(rs2, eligible, total),
{
    lemma_valid_votes_distinct(rs1);
    lemma_valid_votes_distinct(rs2);
    let v1 = valid_votes(rs1);
    let v2 = valid_votes(rs2);
    crate::quorum::lemma_dedup_votes_identity(v1);
    crate::quorum::lemma_dedup_votes_identity(v2);
    let sv1 = stake_votes_spec(v1, eligible);
    let sv2 = stake_votes_spec(v2, eligible);
    assert(sv1.len() == sv2.len()) by {
        lemma_stake_votes_measures(v1, eligible, 0);
        lemma_stake_votes_measures(v2, eligible, 0);
        lemma_valid_votes_measure(rs1, eligible_one_measure(eligible));
        lemma_valid_votes_measure(rs2, eligible_one_measure(eligible));
        crate::quorum::lemma_seq_measure_permutation(
            rs1,
            rs2,
            valid_vote_measure(eligible_one_measure(eligible)),
        );
    }
    assert forall|v: u128|
        #![trigger crate::quorum::weight_for(sv1, v)]
        #![trigger crate::quorum::weight_for(sv2, v)]
        crate::quorum::weight_for(sv1, v) == crate::quorum::weight_for(sv2, v) by {
        lemma_stake_votes_measures(v1, eligible, v);
        lemma_stake_votes_measures(v2, eligible, v);
        lemma_valid_votes_measure(rs1, eligible_stake_measure(eligible, v));
        lemma_valid_votes_measure(rs2, eligible_stake_measure(eligible, v));
        crate::quorum::lemma_seq_measure_permutation(
            rs1,
            rs2,
            valid_vote_measure(eligible_stake_measure(eligible, v)),
        );
    }
    assert forall|v: u128|
        #![trigger crate::quorum::stake_count_for(sv1, v)]
        #![trigger crate::quorum::stake_count_for(sv2, v)]
        crate::quorum::stake_count_for(sv1, v) == crate::quorum::stake_count_for(sv2, v) by {
        lemma_stake_votes_measures(v1, eligible, v);
        lemma_stake_votes_measures(v2, eligible, v);
        lemma_valid_votes_measure(rs1, eligible_presence_measure(eligible, v));
        lemma_valid_votes_measure(rs2, eligible_presence_measure(eligible, v));
        crate::quorum::lemma_seq_measure_permutation(
            rs1,
            rs2,
            valid_vote_measure(eligible_presence_measure(eligible, v)),
        );
    }
    crate::quorum::lemma_stake_decision_equal_weights(sv1, sv2, total);
}

/// When no value's weight strictly exceeds half of the total eligible
/// weight, the stake-weighted round fails with "majority not reached" (or
/// "verification failed" when nothing was collected at all) and decides
/// nothing, so no submission is issued.
pub proof fn lemma_no_majority_round_fails(
    rs: Seq<TaskResponse>,
    eligible: Seq<(OpId, u64)>,
    total: int,
)
    requires
        forall|v: u128|
            2 * #[trigger] crate::quorum::weight_for(
                stake_votes_spec(dedup_votes_spec(valid_votes(rs)), eligible),
                v,
            ) <= total,
    ensures
        weighted_outcome_spec(rs, eligible, total) == if stake_votes_spec(
            dedup_votes_spec(valid_votes(rs)),
            eligible,
        ).len() == 0 {
            Err::<u128, TaskError>(TaskError::TaskVerificationFailed)
        } else {
            Err::<u128, TaskError>(TaskError::MajorityNotReached)
        },
{
    crate::quorum::lemma_no_stake_majority_fails(
        stake_votes_spec(dedup_votes_spec(valid_votes(rs)), eligible),
        total,
    );
}

/// A response whose signature does not verify against its claimed identity
/// is excluded from the round entirely: it sways neither the counted nor the
/// stake-weighted outcome, whatever result value it claims.
pub proof fn lemma_invalid_response_excluded(
    rs: Seq<TaskResponse>,
    bad: TaskResponse,
    eligible: Seq<(OpId, u64)>,
    total: int,
)
    requires
        !ecdsa_response_valid(bad),
    ensures
        valid_votes(rs.push(bad)) == valid_votes(rs),
        equal_outcome_spec(rs.push(bad), total) == equal_outcome_spec(rs, total),
        weighted_outcome_spec(rs.push(bad), eligible, total) == weighted_outcome_spec(
            rs,
            eligible,
            total,
        ),
{
    assert(rs.push(bad).drop_last() =~= rs);
    assert(rs.push(bad).last() == bad);
}

} // verus!
