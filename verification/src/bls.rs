use vstd::multiset::Multiset;
use vstd::prelude::*;

use crate::crypto::{bls_verifies_of, bls_verify, g1_add, g1_add_of, g2_add, g2_add_of, keccak256};
use crate::errors::TaskError;
use crate::points::{g1_in_range, g1_repr_in_range, g2_in_range, g2_repr_in_range, G1Repr, G2Repr};
use crate::quorum::{decide_by_count, decide_by_count_spec, Vote};
use crate::registry::{OpId, Operator};
use crate::task::{response_digest, TaskResponse};

verus! {

// ---------------------------------------------------------------------------
// Verifying one response.
// ---------------------------------------------------------------------------

/// A response is authentic when its points decode to canonical field
/// elements and the pairing check accepts its signature, against its claimed
/// G2 public key, over the digest of its result's ABI word — the message the
/// settlement contract reconstructs.
pub open spec fn bls_response_valid(r: TaskResponse) -> bool {
    g1_in_range(r.signature) && g2_in_range(r.bls_pubkey.g2) && g1_in_range(r.bls_pubkey.g1)
        && bls_verifies_of(r.bls_pubkey.g2, r.signature, response_digest(
        r.completed_task.response,
    ))
}

pub open spec fn bls_valid_pred() -> spec_fn(TaskResponse) -> bool {
    |r: TaskResponse| bls_response_valid(r)
}

/// Checks one response: malformed point encodings and failed pairing checks
/// are rejections, not errors.
pub fn verify_message(r: &TaskResponse) -> (b: bool)
    ensures
        b == bls_response_valid(*r),
{
    if !g1_repr_in_range(&r.signature) || !g2_repr_in_range(&r.bls_pubkey.g2)
        || !g1_repr_in_range(&r.bls_pubkey.g1) {
        return false;
    }
    let word = crate::codec::encode_abi_word(r.completed_task.response);
    let digest = keccak256(&word);
    bls_verify(&r.bls_pubkey.g2, &r.signature, &digest)
}

/// The authentic responses, in arrival order.
pub open spec fn valid_responses(rs: Seq<TaskResponse>) -> Seq<TaskResponse>
    decreases rs.len(),
{
    if rs.len() == 0 {
        Seq::empty()
    } else {
        let d = valid_responses(rs.drop_last());
        if bls_response_valid(rs.last()) {
            d.push(rs.last())
        } else {
            d
        }
    }
}

/// Every kept response is authentic.
pub proof fn lemma_valid_responses_all_valid(rs: Seq<TaskResponse>)
    ensures
        forall|i: int|
            0 <= i < valid_responses(rs).len() ==> bls_response_valid(
                #[trigger] valid_responses(rs)[i],
            ),
    decreases rs.len(),
{
    if rs.len() > 0 {
        lemma_valid_responses_all_valid(rs.drop_last());
        let d = valid_responses(rs.drop_last());
        assert forall|i: int|
            0 <= i < valid_responses(rs).len() implies bls_response_valid(
            #[trigger] valid_responses(rs)[i],
        ) by {
            if i < d.len() {
                assert(valid_responses(rs)[i] == d[i]);
            } else {
                assert(valid_responses(rs)[i] == rs.last());
            }
        }
    }
}

/// What survives verification is the filter of the arrival multiset.
pub proof fn lemma_valid_responses_multiset(rs: Seq<TaskResponse>)
    ensures
        valid_responses(rs).to_multiset() == rs.to_multiset().filter(bls_valid_pred()),
    decreases rs.len(),
{
    broadcast use vstd::seq_lib::group_to_multiset_ensures;
    broadcast use vstd::multiset::group_multiset_axioms;

    if rs.len() == 0 {
        assert(rs.to_multiset().filter(bls_valid_pred()) =~= Multiset::<TaskResponse>::empty())
            by {
            assert(rs.to_multiset().len() == 0);
        }
        assert(valid_responses(rs).to_multiset() =~= Multiset::<TaskResponse>::empty());
    } else {
        let init = rs.drop_last();
        let x = rs.last();
        lemma_valid_responses_multiset(init);
        assert(rs =~= init.push(x));
        assert(rs.to_multiset() == init.to_multiset().insert(x));
        crate::quorum::lemma_multiset_filter_insert(init.to_multiset(), x, bls_valid_pred());
        if bls_response_valid(x) {
            assert(valid_responses(rs) == valid_responses(init).push(x));
            assert(valid_responses(rs).to_multiset() == valid_responses(init).to_multiset().insert(
                x,
            ));
        }
    }
}

/// Filters a round's responses to the authentic ones.
fn collect_verified(responses: &Vec<TaskResponse>) -> (r: Vec<TaskResponse>)
    ensures
        r@ == valid_responses(responses@),
{
    let n = responses.len();
    let mut out: Vec<TaskResponse> = Vec::new();
    let mut k: usize = 0;
    proof {
        assert(out@ =~= valid_responses(responses@.take(0int)));
    }
    while k < n
        invariant
            n == responses@.len(),
            k <= n,
            out@ == valid_responses(responses@.take(k as int)),
        decreases n - k,
    {
        proof {
            assert(responses@.take(k as int + 1).drop_last() =~= responses@.take(k as int));
            assert(responses@.take(k as int + 1).last() == responses@[k as int]);
        }
        let resp = responses[k];
        if verify_message(&resp) {
            out.push(resp);
        }
        k = k + 1;
    }
    proof {
        assert(responses@.take(n as int) =~= responses@);
    }
    out
}

// ---------------------------------------------------------------------------
// One response per operator: the overwrite collection, keyed by claimed
// identity.
// ---------------------------------------------------------------------------

pub open spec fn distinct_resp_ids(s: Seq<TaskResponse>) -> bool {
    forall|i: int, j: int| 0 <= i < j < s.len() ==> s[i].public_key != s[j].public_key
}

pub open spec fn has_resp_id(s: Seq<TaskResponse>, id: OpId) -> bool {
    exists|i: int| 0 <= i < s.len() && #[trigger] s[i].public_key == id
}

/// The overwrite collection: each response lands at its identity's slot,
/// replacing an earlier response of the same identity.
pub open spec fn dedup_responses_spec(s: Seq<TaskResponse>) -> Seq<TaskResponse>
    decreases s.len(),
{
    if s.len() == 0 {
        Seq::empty()
    } else {
        let d = dedup_responses_spec(s.drop_last());
        let last = s.last();
        if has_resp_id(d, last.public_key) {
            d.update(
                choose|i: int| 0 <= i < d.len() && #[trigger] d[i].public_key == last.public_key,
                last,
            )
        } else {
            d.push(last)
        }
    }
}

pub proof fn lemma_dedup_responses_distinct(s: Seq<TaskResponse>)
    ensures
        distinct_resp_ids(dedup_responses_spec(s)),
    decreases s.len(),
{
    if s.len() > 0 {
        lemma_dedup_responses_distinct(s.drop_last());
        let d = dedup_responses_spec(s.drop_last());
        let last = s.last();
        let out = dedup_responses_spec(s);
        if has_resp_id(d, last.public_key) {
            let i0 = choose|i: int|
                0 <= i < d.len() && #[trigger] d[i].public_key == last.public_key;
            assert(out == d.update(i0, last));
            assert forall|i: int, j: int|
                0 <= i < j < out.len() implies out[i].public_key != out[j].public_key by {
                if i != i0 && j != i0 {
                    assert(out[i] == d[i] && out[j] == d[j]);
                } else if i == i0 {
                    assert(out[j] == d[j]);
                    assert(out[i].public_key == d[i0].public_key);
                } else {
                    assert(out[i] == d[i]);
                    assert(out[j].public_key == d[i0].public_key);
                }
            }
        } else {
            assert forall|i: int, j: int|
                0 <= i < j < out.len() implies out[i].public_key != out[j].public_key by {
                if j == d.len() {
                    assert(out[i] == d[i] && out[j] == last);
                    assert(!has_resp_id(d, last.public_key));
                    assert(d[i].public_key != last.public_key);
                }
            }
        }
    }
}

/// Responses with pairwise-distinct identities — one response per operator —
/// pass through the overwrite collection unchanged.
pub proof fn lemma_dedup_responses_identity(s: Seq<TaskResponse>)
    requires
        distinct_resp_ids(s),
    ensures
        dedup_responses_spec(s) == s,
    decreases s.len(),
{
    if s.len() == 0 {
        assert(dedup_responses_spec(s) =~= s);
    } else {
        let init = s.drop_last();
        assert(distinct_resp_ids(init)) by {
            assert(forall|i: int| 0 <= i < init.len() ==> init[i] == s[i]);
        }
        lemma_dedup_responses_identity(init);
        let last = s.last();
        assert(!has_resp_id(init, last.public_key)) by {
            if has_resp_id(init, last.public_key) {
                let i = choose|i: int|
                    0 <= i < init.len() && #[trigger] init[i].public_key == last.public_key;
                assert(s[i].public_key == s[s.len() - 1].public_key);
            }
        }
        assert(dedup_responses_spec(s) =~= s);
    }
}

/// Every slot of the overwrite collection holds one of the arrived
/// responses.
pub proof fn lemma_dedup_responses_from_input(s: Seq<TaskResponse>)
    ensures
        forall|i: int|
            0 <= i < dedup_responses_spec(s).len() ==> s.contains(
                #[trigger] dedup_responses_spec(s)[i],
            ),
    decreases s.len(),
{
    if s.len() > 0 {
        lemma_dedup_responses_from_input(s.drop_last());
        let d = dedup_responses_spec(s.drop_last());
        let out = dedup_responses_spec(s);
        assert forall|i: int| 0 <= i < out.len() implies s.contains(#[trigger] out[i]) by {
            if out[i] == s.last() {
                assert(s[s.len() - 1] == out[i]);
            } else {
                assert(out[i] == d[i]);
                assert(s.drop_last().contains(d[i]));
                let j = choose|j: int| 0 <= j < s.drop_last().len() && s.drop_last()[j] == d[i];
                assert(s[j] == d[i]);
            }
        }
    }
}

fn find_resp_slot(out: &Vec<TaskResponse>, id: OpId) -> (r: Option<usize>)
    ensures
        match r {
            Some(a) => a < out@.len() && out@[a as int].public_key == id,
            None => forall|b: int| 0 <= b < out@.len() ==> out@[b].public_key != id,
        },
{
    let m = out.len();
    let mut a: usize = 0;
    while a < m
        invariant
            m == out@.len(),
            a <= m,
            forall|b: int| 0 <= b < a ==> out@[b].public_key != id,
        decreases m - a,
    {
        if out[a].public_key.hi == id.hi && out[a].public_key.lo == id.lo {
            return Some(a);
        }
        a = a + 1;
    }
    None
}

/// Builds the overwrite collection over responses.
fn dedup_responses(responses: &Vec<TaskResponse>) -> (r: Vec<TaskResponse>)
    ensures
        r@ == dedup_responses_spec(responses@),
        distinct_resp_ids(r@),
{
    let n = responses.len();
    let mut out: Vec<TaskResponse> = Vec::new();
    let mut k: usize = 0;
    proof {
        assert(out@ =~= dedup_responses_spec(responses@.take(0int)));
    }
    while k < n
        invariant
            n == responses@.len(),
            k <= n,
            out@ == dedup_responses_spec(responses@.take(k as int)),
            distinct_resp_ids(out@),
        decreases n - k,
    {
        let v = responses[k];
        proof {
            assert(responses@.take(k as int + 1).drop_last() =~= responses@.take(k as int));
            assert(responses@.take(k as int + 1).last() == responses@[k as int]);
        }
        match find_resp_slot(&out, v.public_key) {
            Some(i) => {
                proof {
                    assert(out@[i as int].public_key == v.public_key);
                    assert(has_resp_id(out@, v.public_key));
                    let i0 = choose|b: int|
                        0 <= b < out@.len() && #[trigger] out@[b].public_key == v.public_key;
                    assert(i0 == i as int);
                }
                out[i] = v;
            },
            None => {
                proof {
                    assert(!has_resp_id(out@, v.public_key));
                }
                out.push(v);
            },
        }
        proof {
            lemma_dedup_responses_distinct(responses@.take(k as int + 1));
        }
        k = k + 1;
    }
    proof {
        assert(responses@.take(n as int) =~= responses@);
    }
    out
}

// ---------------------------------------------------------------------------
// The decision: one vote per collected response, counted.
// ---------------------------------------------------------------------------

/// The vote a response casts.
pub open spec fn vote_of(r: TaskResponse) -> Vote {
    Vote { id: r.public_key, value: r.completed_task.response }
}

pub open spec fn votes_of(s: Seq<TaskResponse>) -> Seq<Vote>
    decreases s.len(),
{
    if s.len() == 0 {
        Seq::empty()
    } else {
        votes_of(s.drop_last()).push(vote_of(s.last()))
    }
}

fn votes_of_exec(s: &Vec<TaskResponse>) -> (r: Vec<Vote>)
    ensures
        r@ == votes_of(s@),
{
    let n = s.len();
    let mut out: Vec<Vote> = Vec::new();
    let mut k: usize = 0;
    proof {
        assert(out@ =~= votes_of(s@.take(0int)));
    }
    while k < n
        invariant
            n == s@.len(),
            k <= n,
            out@ == votes_of(s@.take(k as int)),
        decreases n - k,
    {
        proof {
            assert(s@.take(k as int + 1).drop_last() =~= s@.take(k as int));
            assert(s@.take(k as int + 1).last() == s@[k as int]);
        }
        out.push(Vote { id: s[k].public_key, value: s[k].completed_task.response });
        k = k + 1;
    }
    proof {
        assert(s@.take(n as int) =~= s@);
    }
    out
}

/// What a threshold-signature round decides: one vote per operator among the
/// authentic responses, counted against a strict majority of the full
/// registered set.
pub open spec fn bls_outcome_spec(rs: Seq<TaskResponse>, total: int) -> Result<u128, TaskError> {
    decide_by_count_spec(votes_of(dedup_responses_spec(valid_responses(rs))), total)
}

// ---------------------------------------------------------------------------
// The winning set in canonical order, and the aggregated proof material.
// ---------------------------------------------------------------------------

pub open spec fn id_lt(a: OpId, b: OpId) -> bool {
    a.hi < b.hi || (a.hi == b.hi && a.lo < b.lo)
}

/// Strictly ascending identities.
pub open spec fn resp_sorted(s: Seq<TaskResponse>) -> bool {
    forall|i: int, j: int| 0 <= i < j < s.len() ==> id_lt(s[i].public_key, s[j].public_key)
}

pub open spec fn winners_pred(v: u128) -> spec_fn(TaskResponse) -> bool {
    |r: TaskResponse| r.completed_task.response == v
}

/// The collected responses that voted for `v`, in collection order.
pub open spec fn winners_spec(d: Seq<TaskResponse>, v: u128) -> Seq<TaskResponse>
    decreases d.len(),
{
    if d.len() == 0 {
        Seq::empty()
    } else {
        let w = winners_spec(d.drop_last(), v);
        if d.last().completed_task.response == v {
            w.push(d.last())
        } else {
            w
        }
    }
}

pub proof fn lemma_winners_multiset(d: Seq<TaskResponse>, v: u128)
    ensures
        winners_spec(d, v).to_multiset() == d.to_multiset().filter(winners_pred(v)),
    decreases d.len(),
{
    broadcast use vstd::seq_lib::group_to_multiset_ensures;
    broadcast use vstd::multiset::group_multiset_axioms;

    if d.len() == 0 {
        assert(d.to_multiset().filter(winners_pred(v)) =~= Multiset::<TaskResponse>::empty()) by {
            assert(d.to_multiset().len() == 0);
        }
        assert(winners_spec(d, v).to_multiset() =~= Multiset::<TaskResponse>::empty());
    } else {
        let init = d.drop_last();
        let x = d.last();
        lemma_winners_multiset(init, v);
        assert(d =~= init.push(x));
        assert(d.to_multiset() == init.to_multiset().insert(x));
        crate::quorum::lemma_multiset_filter_insert(init.to_multiset(), x, winners_pred(v));
        assert((winners_pred(v))(x) == (x.completed_task.response == v));
        if x.completed_task.response == v {
            assert(winners_spec(d, v).to_multiset() == winners_spec(init, v).to_multiset().insert(
                x,
            ));
        }
    }
}

/// The canonically ordered sequence holding the multiset `m`: ascending by
/// identity. Well-defined whenever `m` holds one response per identity.
pub open spec fn canon_of_multiset(m: Multiset<TaskResponse>) -> Seq<TaskResponse> {
    choose|t: Seq<TaskResponse>| resp_sorted(t) && t.to_multiset() == m
}

/// The collected winners in canonical order: a function of the multiset of
/// responses alone.
pub open spec fn canon_order(s: Seq<TaskResponse>) -> Seq<TaskResponse> {
    canon_of_multiset(s.to_multiset())
}

/// The winning set the proof material is aggregated over.
pub open spec fn canon_winners(rs: Seq<TaskResponse>, v: u128) -> Seq<TaskResponse> {
    canon_order(winners_spec(dedup_responses_spec(valid_responses(rs)), v))
}

/// Two strictly sorted sequences holding one multiset are one sequence.
pub proof fn lemma_sorted_unique(a: Seq<TaskResponse>, b: Seq<TaskResponse>)
    requires
        resp_sorted(a),
        resp_sorted(b),
        a.to_multiset() == b.to_multiset(),
    ensures
        a == b,
    decreases a.len(),
{
    broadcast use vstd::seq_lib::group_to_multiset_ensures;

    if a.len() == 0 {
        assert(b.to_multiset().len() == 0);
        assert(a =~= b);
    } else {
        assert(b.len() == a.len()) by {
            assert(a.to_multiset().len() == a.len());
            assert(b.to_multiset().len() == b.len());
        }
        let x = a[0];
        assert(a.contains(x));
        assert(a.to_multiset().count(x) > 0);
        assert(b.contains(x));
        let j = choose|j: int| 0 <= j < b.len() && b[j] == x;
        let y = b[0];
        assert(b.contains(y));
        assert(b.to_multiset().count(y) > 0);
        assert(a.contains(y));
        let i = choose|i: int| 0 <= i < a.len() && a[i] == y;
        assert(a[0] == b[0]) by {
            if i > 0 && j > 0 {
                assert(id_lt(a[0].public_key, a[i].public_key));
                assert(id_lt(b[0].public_key, b[j].public_key));
            }
        }
        assert(a.remove(0).to_multiset() == a.to_multiset().remove(x));
        assert(b.remove(0).to_multiset() == b.to_multiset().remove(x)) by {
            assert(b[0] == x);
        }
        assert(resp_sorted(a.remove(0))) by {
            assert(forall|k: int| 0 <= k < a.remove(0).len() ==> a.remove(0)[k] == a[k + 1]);
        }
        assert(resp_sorted(b.remove(0))) by {
            assert(forall|k: int| 0 <= k < b.remove(0).len() ==> b.remove(0)[k] == b[k + 1]);
        }
        lemma_sorted_unique(a.remove(0), b.remove(0));
        assert(a =~= b) by {
            assert(forall|k: int| 1 <= k < a.len() ==> a[k] == a.remove(0)[k - 1]);
            assert(forall|k: int| 1 <= k < b.len() ==> b[k] == b.remove(0)[k - 1]);
        }
    }
}

/// Sorts responses with pairwise-distinct identities into canonical order.
fn sort_by_id(input: &Vec<TaskResponse>) -> (r: Vec<TaskResponse>)
    requires
        distinct_resp_ids(input@),
    ensures
        r@ == canon_order(input@),
        r@.to_multiset() == input@.to_multiset(),
        resp_sorted(r@),
        r@.len() == input@.len(),
{
    broadcast use vstd::seq_lib::group_to_multiset_ensures;

    let n = input.len();
    let mut rest: Vec<TaskResponse> = Vec::new();
    let mut k: usize = 0;
    proof {
        assert(rest@ =~= input@.take(0int));
    }
    while k < n
        invariant
            n == input@.len(),
            k <= n,
            rest@ == input@.take(k as int),
        decreases n - k,
    {
        rest.push(input[k]);
        proof {
            assert(rest@ =~= input@.take(k as int + 1));
        }
        k = k + 1;
    }
    proof {
        assert(input@.take(n as int) =~= input@);
        assert(rest@ == input@);
    }
    let mut out: Vec<TaskResponse> = Vec::new();
    proof {
        assert(out@.to_multiset().add(rest@.to_multiset()) =~= input@.to_multiset()) by {
            assert(out@.to_multiset().len() == 0);
        }
    }
    while rest.len() > 0
        invariant
            out@.to_multiset().add(rest@.to_multiset()) == input@.to_multiset(),
            resp_sorted(out@),
            distinct_resp_ids(rest@),
            forall|i: int, j: int|
                0 <= i < out@.len() && 0 <= j < rest@.len() ==> id_lt(
                    #[trigger] out@[i].public_key,
                    #[trigger] rest@[j].public_key,
                ),
        decreases rest@.len(),
    {
        let m = rest.len();
        let mut mi: usize = 0;
        let mut a: usize = 1;
        while a < m
            invariant
                m == rest@.len(),
                mi < a <= m,
                forall|b: int|
                    0 <= b < a && b != mi ==> id_lt(
                        rest@[mi as int].public_key,
                        #[trigger] rest@[b].public_key,
                    ) || rest@[mi as int].public_key == rest@[b].public_key,
            decreases m - a,
        {
            let c = rest[a].public_key;
            let best = rest[mi].public_key;
            if c.hi < best.hi || (c.hi == best.hi && c.lo < best.lo) {
                mi = a;
            }
            a = a + 1;
        }
        let oprev = Ghost(out@);
        let rprev = Ghost(rest@);
        let x = rest.remove(mi);
        out.push(x);
        proof {
            broadcast use vstd::seq_lib::group_to_multiset_ensures;

            assert(x == rprev@[mi as int]);
            assert(rest@ == rprev@.remove(mi as int));
            assert(out@ == oprev@.push(x));
            // The minimum is strictly below every other remaining identity.
            assert forall|b: int|
                0 <= b < rprev@.len() && b != mi as int implies id_lt(
                x.public_key,
                #[trigger] rprev@[b].public_key,
            ) by {
                assert(rprev@[mi as int].public_key != rprev@[b].public_key);
            }
            // Multiset bookkeeping.
            assert(out@.to_multiset() == oprev@.to_multiset().insert(x));
            assert(rprev@.remove(mi as int).to_multiset() == rprev@.to_multiset().remove(x));
            assert(out@.to_multiset().add(rest@.to_multiset()) =~= input@.to_multiset()) by {
                broadcast use vstd::multiset::group_multiset_axioms;

                assert(rprev@.to_multiset().count(x) > 0) by {
                    assert(rprev@.contains(x));
                }
            }
            // Sortedness.
            assert forall|i: int, j: int|
                0 <= i < j < out@.len() implies id_lt(out@[i].public_key, out@[j].public_key) by {
                if j == out@.len() - 1 {
                    assert(out@[i] == oprev@[i]);
                    assert(out@[j] == x);
                }
            }
            // Remaining identities stay distinct and above the output.
            assert forall|i: int, j: int|
                0 <= i < j < rest@.len() implies rest@[i].public_key != rest@[j].public_key by {
                let i1 = if i < mi as int {
                    i
                } else {
                    i + 1
                };
                let j1 = if j < mi as int {
                    j
                } else {
                    j + 1
                };
                assert(rest@[i] == rprev@[i1] && rest@[j] == rprev@[j1]);
            }
            assert forall|i: int, j: int|
                0 <= i < out@.len() && 0 <= j < rest@.len() implies id_lt(
                #[trigger] out@[i].public_key,
                #[trigger] rest@[j].public_key,
            ) by {
                let j1 = if j < mi as int {
                    j
                } else {
                    j + 1
                };
                assert(rest@[j] == rprev@[j1]);
                if i < oprev@.len() {
                    assert(out@[i] == oprev@[i]);
                } else {
                    assert(out@[i] == x);
                }
            }
        }
    }
    proof {
        broadcast use vstd::multiset::group_multiset_axioms;

        assert(rest@.to_multiset().len() == 0);
        assert(out@.to_multiset() =~= input@.to_multiset());
        // The canonical order is this very sequence.
        let m = input@.to_multiset();
        assert(resp_sorted(out@) && out@.to_multiset() == m);
        let t = canon_of_multiset(m);
        assert(resp_sorted(t) && t.to_multiset() == m) by {
            assert(exists|t0: Seq<TaskResponse>| resp_sorted(t0) && t0.to_multiset() == m);
        }
        lemma_sorted_unique(t, out@);
        assert(out@.len() == out@.to_multiset().len());
    }
    out
}

// ---------------------------------------------------------------------------
// Folding the winners' points.
// ---------------------------------------------------------------------------

/// The aggregated signature of a non-empty winning set: its signature points
/// summed left to right.
pub open spec fn fold_sigs_spec(s: Seq<TaskResponse>) -> G1Repr
    decreases s.len(),
{
    if s.len() <= 1 {
        s.last().signature
    } else {
        g1_add_of(fold_sigs_spec(s.drop_last()), s.last().signature)
    }
}

/// The aggregated quorum key of a non-empty winning set: its G2 public keys
/// summed left to right.
pub open spec fn fold_keys_spec(s: Seq<TaskResponse>) -> G2Repr
    decreases s.len(),
{
    if s.len() <= 1 {
        s.last().bls_pubkey.g2
    } else {
        g2_add_of(fold_keys_spec(s.drop_last()), s.last().bls_pubkey.g2)
    }
}

/// Sums the winners' signatures by point addition.
fn aggregate_sigs(ws: &Vec<TaskResponse>) -> (r: G1Repr)
    requires
        ws@.len() >= 1,
        forall|i: int| 0 <= i < ws@.len() ==> g1_in_range(#[trigger] ws@[i].signature),
    ensures
        r == fold_sigs_spec(ws@),
        g1_in_range(r),
{
    let mut acc = ws[0].signature;
    proof {
        assert(ws@.take(1int).last() == ws@[0]);
        assert(acc == fold_sigs_spec(ws@.take(1int)));
    }
    let n = ws.len();
    let mut k: usize = 1;
    while k < n
        invariant
            n == ws@.len(),
            1 <= k <= n,
            forall|i: int| 0 <= i < ws@.len() ==> g1_in_range(#[trigger] ws@[i].signature),
            acc == fold_sigs_spec(ws@.take(k as int)),
            g1_in_range(acc),
        decreases n - k,
    {
        proof {
            assert(ws@.take(k as int + 1).drop_last() =~= ws@.take(k as int));
            assert(ws@.take(k as int + 1).last() == ws@[k as int]);
        }
        acc = g1_add(&acc, &ws[k].signature);
        k = k + 1;
    }
    proof {
        assert(ws@.take(n as int) =~= ws@);
    }
    acc
}

/// Sums the winners' G2 public keys by point addition.
fn aggregate_keys(ws: &Vec<TaskResponse>) -> (r: G2Repr)
    requires
        ws@.len() >= 1,
        forall|i: int| 0 <= i < ws@.len() ==> g2_in_range(#[trigger] ws@[i].bls_pubkey.g2),
    ensures
        r == fold_keys_spec(ws@),
        g2_in_range(r),
{
    let mut acc = ws[0].bls_pubkey.g2;
    proof {
        assert(ws@.take(1int).last() == ws@[0]);
        assert(acc == fold_keys_spec(ws@.take(1int)));
    }
    let n = ws.len();
    let mut k: usize = 1;
    while k < n
        invariant
            n == ws@.len(),
            1 <= k <= n,
            forall|i: int| 0 <= i < ws@.len() ==> g2_in_range(#[trigger] ws@[i].bls_pubkey.g2),
            acc == fold_keys_spec(ws@.take(k as int)),
            g2_in_range(acc),
        decreases n - k,
    {
        proof {
            assert(ws@.take(k as int + 1).drop_last() =~= ws@.take(k as int));
            assert(ws@.take(k as int + 1).last() == ws@[k as int]);
        }
        acc = g2_add(&acc, &ws[k].bls_pubkey.g2);
        k = k + 1;
    }
    proof {
        assert(ws@.take(n as int) =~= ws@);
    }
    acc
}

// ---------------------------------------------------------------------------
// Non-signers: the registered operators that contributed no vote for the
// winning value.
// ---------------------------------------------------------------------------

/// The G1 public keys of the registered operators absent from the winning
/// set, in registry order; an operator registered without key material is
/// skipped.
pub open spec fn non_signers_spec(ops: Seq<Operator>, ws: Seq<TaskResponse>) -> Seq<G1Repr>
    decreases ops.len(),
{
    if ops.len() == 0 {
        Seq::empty()
    } else {
        let w = non_signers_spec(ops.drop_last(), ws);
        let o = ops.last();
        if !has_resp_id(ws, o.id) {
            match o.bls {
                Some(pk) => w.push(pk.g1),
                None => w,
            }
        } else {
            w
        }
    }
}

fn id_in_responses(ws: &Vec<TaskResponse>, id: OpId) -> (r: bool)
    ensures
        r == has_resp_id(ws@, id),
{
    let n = ws.len();
    let mut k: usize = 0;
    while k < n
        invariant
            n == ws@.len(),
            k <= n,
            forall|b: int| 0 <= b < k ==> ws@[b].public_key != id,
        decreases n - k,
    {
        if ws[k].public_key.hi == id.hi && ws[k].public_key.lo == id.lo {
            proof {
                assert(ws@[k as int].public_key == id);
            }
            return true;
        }
        k = k + 1;
    }
    proof {
        if has_resp_id(ws@, id) {
            let i = choose|i: int| 0 <= i < ws@.len() && #[trigger] ws@[i].public_key == id;
        }
    }
    false
}

/// Collects the non-signers' G1 public keys from the registry snapshot.
fn collect_non_signers(operators: &Vec<Operator>, ws: &Vec<TaskResponse>) -> (r: Vec<G1Repr>)
    ensures
        r@ == non_signers_spec(operators@, ws@),
{
    let n = operators.len();
    let mut out: Vec<G1Repr> = Vec::new();
    let mut k: usize = 0;
    proof {
        assert(out@ =~= non_signers_spec(operators@.take(0int), ws@));
    }
    while k < n
        invariant
            n == operators@.len(),
            k <= n,
            out@ == non_signers_spec(operators@.take(k as int), ws@),
        decreases n - k,
    {
        proof {
            assert(operators@.take(k as int + 1).drop_last() =~= operators@.take(k as int));
            assert(operators@.take(k as int + 1).last() == operators@[k as int]);
        }
        if !id_in_responses(ws, operators[k].public_key()) {
            match operators[k].bls {
                Some(pk) => {
                    out.push(pk.g1);
                },
                None => (),
            }
        }
        k = k + 1;
    }
    proof {
        assert(operators@.take(n as int) =~= operators@);
    }
    out
}

// ---------------------------------------------------------------------------
// The whole round.
// ---------------------------------------------------------------------------

/// The winning value and the proof material the settlement contract needs:
/// the aggregated signature, the aggregated public key of the signing
/// operators, and the G1 public keys of every registered operator that did
/// not sign for the winning value.
pub struct QuorumDecision {
    pub response: u128,
    pub non_signing_keys: Vec<G1Repr>,
    pub agg_pubkey: G2Repr,
    pub agg_signature: G1Repr,
}

/// Reduces one dispatch round's responses to a quorum decision: verifies
/// every signature, keeps one response per operator, demands a strict
/// majority of the full registered set for the most-voted value, and
/// aggregates the winners' points in canonical (identity-ascending) order —
/// so the outcome and the proof material never depend on arrival order.
pub fn aggregate_responses(responses: &Vec<TaskResponse>, operators: &Vec<Operator>) -> (r: Result<
    QuorumDecision,
    TaskError,
>)
    ensures
        match r {
            Ok(d) => bls_outcome_spec(responses@, operators@.len() as int) == Ok::<
                u128,
                TaskError,
            >(d.response) && d.agg_signature == fold_sigs_spec(
                canon_winners(responses@, d.response),
            ) && d.agg_pubkey == fold_keys_spec(canon_winners(responses@, d.response))
                && d.non_signing_keys@ == non_signers_spec(
                operators@,
                canon_winners(responses@, d.response),
            ) && canon_winners(responses@, d.response).len() >= 1,
            Err(e) => bls_outcome_spec(responses@, operators@.len() as int) == Err::<
                u128,
                TaskError,
            >(e),
        },
{
    let verified = collect_verified(responses);
    let deduped = dedup_responses(&verified);
    let votes = votes_of_exec(&deduped);
    let decision = decide_by_count(&votes, operators.len());
    let value = match decision {
        Ok(v) => v,
        Err(e) => {
            return Err(e);
        },
    };
    // The winners: collected responses that voted for the winning value.
    let n = deduped.len();
    let mut winners: Vec<TaskResponse> = Vec::new();
    let mut k: usize = 0;
    proof {
        assert(winners@ =~= winners_spec(deduped@.take(0int), value));
    }
    while k < n
        invariant
            n == deduped@.len(),
            k <= n,
            winners@ == winners_spec(deduped@.take(k as int), value),
        decreases n - k,
    {
        proof {
            assert(deduped@.take(k as int + 1).drop_last() =~= deduped@.take(k as int));
            assert(deduped@.take(k as int + 1).last() == deduped@[k as int]);
        }
        if deduped[k].completed_task.response == value {
            winners.push(deduped[k]);
        }
        k = k + 1;
    }
    proof {
        assert(deduped@.take(n as int) =~= deduped@);
    }
    proof {
        // The winners inherit distinct identities and validity.
        assert(distinct_resp_ids(winners@)) by {
            lemma_winners_sub_distinct(deduped@, value);
        }
        lemma_winners_all_valid(responses@, value);
        // The winner's count is positive, so the winning set is non-empty.
        lemma_winner_count_is_winner_len(deduped@, votes@, value, operators@.len() as int);
    }
    let sorted = sort_by_id(&winners);
    proof {
        broadcast use vstd::seq_lib::group_to_multiset_ensures;

        assert forall|i: int|
            0 <= i < sorted@.len() implies bls_response_valid(#[trigger] sorted@[i]) by {
            assert(sorted@.to_multiset().count(sorted@[i]) > 0) by {
                assert(sorted@.contains(sorted@[i]));
            }
            assert(winners@.contains(sorted@[i]));
            let j = choose|j: int| 0 <= j < winners@.len() && winners@[j] == sorted@[i];
        }
        assert(sorted@ == canon_winners(responses@, value));
    }
    let agg_signature = aggregate_sigs(&sorted);
    let agg_pubkey = aggregate_keys(&sorted);
    let non_signing_keys = collect_non_signers(operators, &sorted);
    Ok(QuorumDecision { response: value, non_signing_keys, agg_pubkey, agg_signature })
}

/// A kept subset of a distinct-identity collection keeps identities
/// distinct.
proof fn lemma_winners_sub_distinct(d: Seq<TaskResponse>, v: u128)
    requires
        distinct_resp_ids(d),
    ensures
        distinct_resp_ids(winners_spec(d, v)),
    decreases d.len(),
{
    if d.len() > 0 {
        let init = d.drop_last();
        assert(distinct_resp_ids(init)) by {
            assert(forall|i: int| 0 <= i < init.len() ==> init[i] == d[i]);
        }
        lemma_winners_sub_distinct(init, v);
        if d.last().completed_task.response == v {
            let w = winners_spec(init, v);
            lemma_winners_from_input(init, v);
            assert forall|i: int, j: int|
                0 <= i < j < winners_spec(d, v).len() implies winners_spec(d, v)[i].public_key
                != winners_spec(d, v)[j].public_key by {
                if j == w.len() {
                    assert(winners_spec(d, v)[i] == w[i]);
                    assert(init.contains(w[i]));
                    let a = choose|a: int| 0 <= a < init.len() && init[a] == w[i];
                    assert(d[a] == w[i]);
                    assert(d[a].public_key != d[d.len() - 1].public_key);
                }
            }
        }
    }
}

/// Every winner is one of the collected responses.
proof fn lemma_winners_from_input(d: Seq<TaskResponse>, v: u128)
    ensures
        forall|i: int|
            0 <= i < winners_spec(d, v).len() ==> d.contains(#[trigger] winners_spec(d, v)[i]),
    decreases d.len(),
{
    if d.len() > 0 {
        let init = d.drop_last();
        lemma_winners_from_input(init, v);
        assert forall|i: int|
            0 <= i < winners_spec(d, v).len() implies d.contains(
            #[trigger] winners_spec(d, v)[i],
        ) by {
            let w = winners_spec(init, v);
            if i < w.len() {
                assert(winners_spec(d, v)[i] == w[i]);
                assert(init.contains(w[i]));
                let a = choose|a: int| 0 <= a < init.len() && init[a] == w[i];
                assert(d[a] == w[i]);
            } else {
                assert(winners_spec(d, v)[i] == d.last());
                assert(d[d.len() - 1] == d.last());
            }
        }
    }
}

/// Every winner of an authentic collection is authentic.
proof fn lemma_winners_all_valid(rs: Seq<TaskResponse>, v: u128)
    ensures
        forall|i: int|
            0 <= i < winners_spec(dedup_responses_spec(valid_responses(rs)), v).len()
                ==> bls_response_valid(
                #[trigger] winners_spec(dedup_responses_spec(valid_responses(rs)), v)[i],
            ),
{
    let valid = valid_responses(rs);
    let d = dedup_responses_spec(valid);
    let w = winners_spec(d, v);
    lemma_valid_responses_all_valid(rs);
    lemma_dedup_responses_from_input(valid);
    lemma_winners_from_input(d, v);
    assert forall|i: int| 0 <= i < w.len() implies bls_response_valid(#[trigger] w[i]) by {
        assert(d.contains(w[i]));
        let a = choose|a: int| 0 <= a < d.len() && d[a] == w[i];
        assert(valid.contains(d[a]));
        let b = choose|b: int| 0 <= b < valid.len() && valid[b] == d[a];
    }
}

/// The winning value's count is the size of its winning set, so a decided
/// round has at least one winner to aggregate.
proof fn lemma_winner_count_is_winner_len(d: Seq<TaskResponse>, votes: Seq<Vote>, v: u128, total: int)
    requires
        votes == votes_of(d),
        decide_by_count_spec(votes, total) == Ok::<u128, TaskError>(v),
    ensures
        winners_spec(d, v).len() >= 1,
{
    lemma_votes_count_matches_winners(d, v);
    assert(crate::quorum::count_votes_for(votes, v) > 0) by {
        let w = choose|w: u128| crate::quorum::is_count_winner(votes, w);
        assert(crate::quorum::is_count_winner(votes, w));
        assert(w == v);
    }
}

/// Every kept response is one of the arrived ones.
proof fn lemma_valid_from_input(rs: Seq<TaskResponse>)
    ensures
        forall|i: int|
            0 <= i < valid_responses(rs).len() ==> rs.contains(#[trigger] valid_responses(rs)[i]),
    decreases rs.len(),
{
    if rs.len() > 0 {
        let init = rs.drop_last();
        lemma_valid_from_input(init);
        assert forall|i: int|
            0 <= i < valid_responses(rs).len() implies rs.contains(
            #[trigger] valid_responses(rs)[i],
        ) by {
            let d = valid_responses(init);
            if i < d.len() {
                assert(valid_responses(rs)[i] == d[i]);
                assert(init.contains(d[i]));
                let a = choose|a: int| 0 <= a < init.len() && init[a] == d[i];
                assert(rs[a] == d[i]);
            } else {
                assert(valid_responses(rs)[i] == rs.last());
                assert(rs[rs.len() - 1] == rs.last());
            }
        }
    }
}

/// Verification keeps identities distinct.
proof fn lemma_valid_sub_distinct(rs: Seq<TaskResponse>)
    requires
        distinct_resp_ids(rs),
    ensures
        distinct_resp_ids(valid_responses(rs)),
    decreases rs.len(),
{
    if rs.len() > 0 {
        let init = rs.drop_last();
        assert(distinct_resp_ids(init)) by {
            assert(forall|i: int| 0 <= i < init.len() ==> init[i] == rs[i]);
        }
        lemma_valid_sub_distinct(init);
        if bls_response_valid(rs.last()) {
            let d = valid_responses(init);
            lemma_valid_from_input(init);
            assert forall|i: int, j: int|
                0 <= i < j < valid_responses(rs).len() implies valid_responses(
                rs,
            )[i].public_key != valid_responses(rs)[j].public_key by {
                if j == d.len() {
                    assert(valid_responses(rs)[i] == d[i]);
                    assert(init.contains(d[i]));
                    let a = choose|a: int| 0 <= a < init.len() && init[a] == d[i];
                    assert(rs[a] == d[i]);
                    assert(rs[a].public_key != rs[rs.len() - 1].public_key);
                }
            }
        }
    }
}

/// One vote per collected response.
proof fn lemma_votes_of_len(d: Seq<TaskResponse>)
    ensures
        votes_of(d).len() == d.len(),
    decreases d.len(),
{
    if d.len() > 0 {
        lemma_votes_of_len(d.drop_last());
    }
}

/// Aggregation is order-independent: two rounds collecting the same
/// responses — one response per operator, in any arrival orders — decide
/// alike and aggregate identical proof material. The winning sets, and with
/// them the aggregated signature, the aggregated public key and the
/// non-signer list, are functions of the response multiset alone.
pub proof fn lemma_bls_order_independent(
    rs1: Seq<TaskResponse>,
    rs2: Seq<TaskResponse>,
    total: int,
)
    requires
        rs1.to_multiset() == rs2.to_multiset(),
        distinct_resp_ids(rs1),
        distinct_resp_ids(rs2),
    ensures
        bls_outcome_spec(rs1, total) == bls_outcome_spec(rs2, total),
        forall|v: u128| #[trigger] canon_winners(rs1, v) == canon_winners(rs2, v),
{
    broadcast use vstd::seq_lib::group_to_multiset_ensures;

    // The authentic responses of both rounds form one multiset.
    lemma_valid_responses_multiset(rs1);
    lemma_valid_responses_multiset(rs2);
    let m = rs1.to_multiset().filter(bls_valid_pred());
    // With one response per operator the overwrite collection changes
    // nothing.
    lemma_valid_sub_distinct(rs1);
    lemma_valid_sub_distinct(rs2);
    lemma_dedup_responses_identity(valid_responses(rs1));
    lemma_dedup_responses_identity(valid_responses(rs2));
    let d1 = dedup_responses_spec(valid_responses(rs1));
    let d2 = dedup_responses_spec(valid_responses(rs2));
    assert(d1.to_multiset() == m && d2.to_multiset() == m);
    // Each value's winning sets hold one multiset, so counts agree and the
    // canonical orders coincide.
    assert forall|v: u128| #[trigger]
        winners_spec(d1, v).to_multiset() == winners_spec(d2, v).to_multiset() by {
        lemma_winners_multiset(d1, v);
        lemma_winners_multiset(d2, v);
    }
    assert forall|v: u128| #[trigger] canon_winners(rs1, v) == canon_winners(rs2, v) by {
        assert(winners_spec(d1, v).to_multiset() == winners_spec(d2, v).to_multiset());
    }
    let votes1 = votes_of(d1);
    let votes2 = votes_of(d2);
    assert(votes1.len() == votes2.len()) by {
        lemma_votes_of_len(d1);
        lemma_votes_of_len(d2);
        assert(d1.len() == d1.to_multiset().len());
        assert(d2.len() == d2.to_multiset().len());
    }
    assert forall|v: u128|
        #![trigger crate::quorum::count_votes_for(votes1, v)]
        #![trigger crate::quorum::count_votes_for(votes2, v)]
        crate::quorum::count_votes_for(votes1, v) == crate::quorum::count_votes_for(
            votes2,
            v,
        ) by {
        lemma_votes_count_matches_winners(d1, v);
        lemma_votes_count_matches_winners(d2, v);
        assert(winners_spec(d1, v).to_multiset() == winners_spec(d2, v).to_multiset());
        assert(winners_spec(d1, v).len() == winners_spec(d1, v).to_multiset().len());
        assert(winners_spec(d2, v).len() == winners_spec(d2, v).to_multiset().len());
    }
    crate::quorum::lemma_count_decision_equal_counts(votes1, votes2, total);
}

/// An all-authentic round keeps every response, one for one.
proof fn lemma_all_valid_responses(rs: Seq<TaskResponse>)
    requires
        forall|i: int| 0 <= i < rs.len() ==> bls_response_valid(#[trigger] rs[i]),
    ensures
        valid_responses(rs) == rs,
    decreases rs.len(),
{
    if rs.len() > 0 {
        let init = rs.drop_last();
        assert(forall|i: int| 0 <= i < init.len() ==> init[i] == rs[i]);
        lemma_all_valid_responses(init);
        assert(bls_response_valid(rs.last())) by {
            assert(rs[rs.len() - 1] == rs.last());
        }
        assert(valid_responses(rs) =~= rs);
    }
}

/// When every registered operator answers with a correctly-signed response
/// carrying one value, and the operators clear the quorum threshold, the
/// round decides that value.
pub proof fn lemma_bls_unanimous_round_decides(rs: Seq<TaskResponse>, total: int, val: u128)
    requires
        rs.len() > 0,
        distinct_resp_ids(rs),
        forall|i: int|
            0 <= i < rs.len() ==> bls_response_valid(#[trigger] rs[i])
                && rs[i].completed_task.response == val,
        2 * rs.len() > total,
    ensures
        bls_outcome_spec(rs, total) == Ok::<u128, TaskError>(val),
{
    lemma_all_valid_responses(rs);
    lemma_dedup_responses_identity(rs);
    lemma_unanimous_votes(rs, val);
    crate::quorum::lemma_unanimous_count_decides(votes_of(rs), total, val);
    lemma_votes_of_len(rs);
}

/// The votes of unanimous responses are unanimous.
proof fn lemma_unanimous_votes(rs: Seq<TaskResponse>, val: u128)
    requires
        forall|i: int| 0 <= i < rs.len() ==> #[trigger] rs[i].completed_task.response == val,
    ensures
        votes_of(rs).len() == rs.len(),
        forall|i: int| 0 <= i < votes_of(rs).len() ==> #[trigger] votes_of(rs)[i].value == val,
    decreases rs.len(),
{
    if rs.len() > 0 {
        let init = rs.drop_last();
        assert(forall|i: int| 0 <= i < init.len() ==> init[i] == rs[i]);
        lemma_unanimous_votes(init, val);
        assert forall|i: int|
            0 <= i < votes_of(rs).len() implies #[trigger] votes_of(rs)[i].value == val by {
            if i < init.len() {
                assert(votes_of(rs)[i] == votes_of(init)[i]);
            } else {
                assert(votes_of(rs)[i] == vote_of(rs.last()));
                assert(rs[rs.len() - 1] == rs.last());
            }
        }
    }
}

/// A response whose signature does not verify against its claimed public key
/// is excluded from the round entirely: it sways neither the decision nor
/// any winning set, whatever result value it claims.
pub proof fn lemma_bls_invalid_response_excluded(
    rs: Seq<TaskResponse>,
    bad: TaskResponse,
    total: int,
)
    requires
        !bls_response_valid(bad),
    ensures
        valid_responses(rs.push(bad)) == valid_responses(rs),
        bls_outcome_spec(rs.push(bad), total) == bls_outcome_spec(rs, total),
        forall|v: u128| #[trigger] canon_winners(rs.push(bad), v) == canon_winners(rs, v),
{
    assert(rs.push(bad).drop_last() =~= rs);
    assert(rs.push(bad).last() == bad);
}

/// Counting votes for `v` counts the winners for `v`.
proof fn lemma_votes_count_matches_winners(d: Seq<TaskResponse>, v: u128)
    ensures
        crate::quorum::count_votes_for(votes_of(d), v) == winners_spec(d, v).len(),
    decreases d.len(),
{
    if d.len() == 0 {
        assert(votes_of(d) =~= Seq::<Vote>::empty());
    } else {
        lemma_votes_count_matches_winners(d.drop_last(), v);
        assert(votes_of(d).drop_last() =~= votes_of(d.drop_last()));
        assert(votes_of(d).last() == vote_of(d.last()));
        assert((crate::quorum::vote_indicator(v))(vote_of(d.last())) == if d.last().completed_task.response == v {
            1int
        } else {
            0int
        });
    }
}

} // verus!
