use vstd::multiset::Multiset;
use vstd::prelude::*;

use crate::errors::TaskError;
use crate::registry::OpId;

verus! {

/// One operator's contribution to a round decided by counting heads.
#[derive(Clone, Copy, PartialEq, Eq, Structural, Debug)]
pub struct Vote {
    pub id: OpId,
    pub value: u128,
}

/// One operator's contribution to a round decided by stake weight.
#[derive(Clone, Copy, PartialEq, Eq, Structural, Debug)]
pub struct StakeVote {
    pub id: OpId,
    pub value: u128,
    pub stake: u64,
}

// ---------------------------------------------------------------------------
// Sums of a per-element measure over a sequence. Such a sum depends only on
// the multiset of elements, which is what makes every decision below
// independent of arrival order.
// ---------------------------------------------------------------------------

pub open spec fn seq_measure<A>(s: Seq<A>, f: spec_fn(A) -> int) -> int
    decreases s.len(),
{
    if s.len() == 0 {
        0
    } else {
        seq_measure(s.drop_last(), f) + f(s.last())
    }
}

/// Extending a prefix by one element grows its measure by that element's
/// contribution.
pub proof fn lemma_seq_measure_take_step<A>(s: Seq<A>, f: spec_fn(A) -> int, k: int)
    requires
        0 <= k < s.len(),
    ensures
        seq_measure(s.take(k + 1), f) == seq_measure(s.take(k), f) + f(s[k]),
{
    assert(s.take(k + 1).drop_last() =~= s.take(k));
    assert(s.take(k + 1).last() == s[k]);
}

/// A full sequence is its own length-long prefix.
pub proof fn lemma_take_all<A>(s: Seq<A>)
    ensures
        s.take(s.len() as int) =~= s,
{
}

/// Removing one element takes away exactly its contribution.
proof fn lemma_seq_measure_remove<A>(s: Seq<A>, f: spec_fn(A) -> int, j: int)
    requires
        0 <= j < s.len(),
    ensures
        seq_measure(s.remove(j), f) == seq_measure(s, f) - f(s[j]),
    decreases s.len(),
{
    if j == s.len() - 1 {
        assert(s.remove(j) =~= s.drop_last());
    } else {
        assert(s.remove(j).drop_last() =~= s.drop_last().remove(j));
        assert(s.remove(j).last() == s.last());
        lemma_seq_measure_remove(s.drop_last(), f, j);
    }
}

/// The measure of a sequence depends only on its multiset of elements:
/// permuting the sequence never changes the sum.
pub proof fn lemma_seq_measure_permutation<A>(s1: Seq<A>, s2: Seq<A>, f: spec_fn(A) -> int)
    requires
        s1.to_multiset() == s2.to_multiset(),
    ensures
        seq_measure(s1, f) == seq_measure(s2, f),
    decreases s1.len(),
{
    broadcast use vstd::seq_lib::group_to_multiset_ensures;

    if s1.len() == 0 {
        assert(s2.to_multiset().len() == 0);
        assert(s2.len() == 0);
    } else {
        let x = s1.last();
        let n1 = s1.len() - 1;
        assert(s1.to_multiset().count(x) > 0) by {
            assert(s1[n1] == x);
            assert(s1.contains(x));
        }
        assert(s2.to_multiset().count(x) > 0);
        assert(s2.contains(x));
        let j = choose|j: int| 0 <= j < s2.len() && s2[j] == x;
        assert(s1.remove(n1).to_multiset() == s1.to_multiset().remove(x)) by {
            assert(s1[n1] == x);
        }
        assert(s2.remove(j).to_multiset() == s2.to_multiset().remove(x)) by {
            assert(s2[j] == x);
        }
        assert(s1.remove(n1) =~= s1.drop_last());
        lemma_seq_measure_permutation(s1.drop_last(), s2.remove(j), f);
        lemma_seq_measure_remove(s2, f, j);
    }
}

/// Filtering a multiset after inserting one element keeps the element
/// exactly when it satisfies the predicate.
pub proof fn lemma_multiset_filter_insert<A>(m: Multiset<A>, x: A, p: spec_fn(A) -> bool)
    ensures
        p(x) ==> m.insert(x).filter(p) == m.filter(p).insert(x),
        !p(x) ==> m.insert(x).filter(p) == m.filter(p),
{
    broadcast use vstd::multiset::group_multiset_axioms;

    if p(x) {
        assert(m.insert(x).filter(p) =~= m.filter(p).insert(x)) by {
            assert forall|v: A| #[trigger]
                m.insert(x).filter(p).count(v) == m.filter(p).insert(x).count(v) by {
                assert(m.insert(x).count(v) == m.count(v) + if v == x {
                    1int
                } else {
                    0int
                });
            }
        }
    } else {
        assert(m.insert(x).filter(p) =~= m.filter(p)) by {
            assert forall|v: A| #[trigger]
                m.insert(x).filter(p).count(v) == m.filter(p).count(v) by {
                assert(m.insert(x).count(v) == m.count(v) + if v == x {
                    1int
                } else {
                    0int
                });
            }
        }
    }
}

// ---------------------------------------------------------------------------
// Counting votes per candidate value.
// ---------------------------------------------------------------------------

pub open spec fn vote_indicator(v: u128) -> spec_fn(Vote) -> int {
    |x: Vote| if x.value == v {
        1int
    } else {
        0int
    }
}

/// How many of the votes in `s` carry the value `v`.
pub open spec fn count_votes_for(s: Seq<Vote>, v: u128) -> int {
    seq_measure(s, vote_indicator(v))
}

/// The count of any value is non-negative and bounded by the number of votes.
pub proof fn lemma_count_votes_bounds(s: Seq<Vote>, v: u128)
    ensures
        0 <= count_votes_for(s, v) <= s.len(),
    decreases s.len(),
{
    if s.len() > 0 {
        lemma_count_votes_bounds(s.drop_last(), v);
    }
}

/// `v` wins a counted round over `s`: it occurs, every other value occurs at
/// most as often, and among equally-frequent values `v` is the smallest (the
/// documented deterministic tie-break).
pub open spec fn is_count_winner(s: Seq<Vote>, v: u128) -> bool {
    count_votes_for(s, v) > 0 && forall|w: u128|
        #[trigger] count_votes_for(s, w) < count_votes_for(s, v) || (count_votes_for(s, w)
            == count_votes_for(s, v) && v <= w)
}

/// At most one value wins a counted round.
pub proof fn lemma_count_winner_unique(s: Seq<Vote>, v1: u128, v2: u128)
    requires
        is_count_winner(s, v1),
        is_count_winner(s, v2),
    ensures
        v1 == v2,
{
    assert(count_votes_for(s, v2) <= count_votes_for(s, v1));
    assert(count_votes_for(s, v1) <= count_votes_for(s, v2));
}

/// What a counted round over votes `s` decides, with `total` registered
/// operators: the winning value if its count clears a strict majority of
/// `total`; "majority not reached" if not; "verification failed" when no vote
/// is left at all.
pub open spec fn decide_by_count_spec(s: Seq<Vote>, total: int) -> Result<u128, TaskError> {
    if s.len() == 0 {
        Err(TaskError::TaskVerificationFailed)
    } else {
        let v = choose|v: u128| is_count_winner(s, v);
        if is_count_winner(s, v) && 2 * count_votes_for(s, v) > total {
            Ok(v)
        } else {
            Err(TaskError::MajorityNotReached)
        }
    }
}

/// Looks up the group carrying value `v`.
fn find_group(groups: &Vec<(u128, usize)>, v: u128) -> (r: Option<usize>)
    ensures
        match r {
            Some(a) => a < groups@.len() && groups@[a as int].0 == v,
            None => forall|b: int| 0 <= b < groups@.len() ==> groups@[b].0 != v,
        },
{
    let m = groups.len();
    let mut a: usize = 0;
    while a < m
        invariant
            m == groups@.len(),
            a <= m,
            forall|b: int| 0 <= b < a ==> groups@[b].0 != v,
        decreases m - a,
    {
        if groups[a].0 == v {
            return Some(a);
        }
        a = a + 1;
    }
    None
}

/// Decides a counted round: groups the votes by value, picks the value with
/// the most votes (ties broken toward the smallest value), and demands a
/// strict majority of all `total_registered` operators — absent operators
/// count against the quorum.
pub fn decide_by_count(votes: &Vec<Vote>, total_registered: usize) -> (r: Result<u128, TaskError>)
    ensures
        r == decide_by_count_spec(votes@, total_registered as int),
{
    let s = Ghost(votes@);
    let n = votes.len();
    if n == 0 {
        return Err(TaskError::TaskVerificationFailed);
    }
    let mut groups: Vec<(u128, usize)> = Vec::new();
    let mut k: usize = 0;
    while k < n
        invariant
            s@ == votes@,
            n == s@.len(),
            k <= n,
            forall|a: int, b: int|
                0 <= a < b < groups@.len() ==> groups@[a].0 != groups@[b].0,
            forall|a: int|
                0 <= a < groups@.len() ==> #[trigger] groups@[a].1 == count_votes_for(
                    s@.take(k as int),
                    groups@[a].0,
                ) && groups@[a].1 >= 1,
            forall|v: u128|
                #[trigger] count_votes_for(s@.take(k as int), v) > 0 ==> exists|a: int|
                    0 <= a < groups@.len() && #[trigger] groups@[a].0 == v,
        decreases n - k,
    {
        let gprev = Ghost(groups@);
        let v = votes[k].value;
        proof {
            assert forall|w: u128| #[trigger]
                count_votes_for(s@.take(k as int + 1), w) == count_votes_for(s@.take(k as int), w)
                    + (vote_indicator(w))(s@[k as int]) by {
                lemma_seq_measure_take_step(s@, vote_indicator(w), k as int);
            }
            assert((vote_indicator(v))(s@[k as int]) == 1);
        }
        match find_group(&groups, v) {
            Some(a) => {
                let c = groups[a].1;
                proof {
                    lemma_count_votes_bounds(s@.take(k as int + 1), v);
                    assert(c == count_votes_for(s@.take(k as int), v));
                    assert(count_votes_for(s@.take(k as int + 1), v) == c + 1);
                }
                groups[a] = (v, c + 1);
                proof {
                    assert(groups@ == gprev@.update(a as int, (v, (c + 1) as usize)));
                    assert forall|b: int|
                        0 <= b < groups@.len() implies #[trigger] groups@[b].1 == count_votes_for(
                        s@.take(k as int + 1),
                        groups@[b].0,
                    ) && groups@[b].1 >= 1 by {
                        if b != a as int {
                            assert(groups@[b] == gprev@[b]);
                            assert(gprev@[b].0 != v);
                            assert((vote_indicator(gprev@[b].0))(s@[k as int]) == 0);
                        }
                    }
                    assert forall|w: u128|
                        #[trigger] count_votes_for(s@.take(k as int + 1), w) > 0 implies exists|
                        b: int,
                    |
                        0 <= b < groups@.len() && #[trigger] groups@[b].0 == w by {
                        if w == v {
                            assert(groups@[a as int].0 == w);
                        } else {
                            assert((vote_indicator(w))(s@[k as int]) == 0);
                            assert(count_votes_for(s@.take(k as int), w) > 0);
                            let b = choose|b: int|
                                0 <= b < gprev@.len() && #[trigger] gprev@[b].0 == w;
                            assert(groups@[b].0 == w);
                        }
                    }
                }
            },
            None => {
                proof {
                    assert(count_votes_for(s@.take(k as int), v) == 0) by {
                        lemma_count_votes_bounds(s@.take(k as int), v);
                        if count_votes_for(s@.take(k as int), v) > 0 {
                            let b = choose|b: int|
                                0 <= b < gprev@.len() && #[trigger] gprev@[b].0 == v;
                        }
                    }
                }
                groups.push((v, 1));
                proof {
                    assert(groups@ == gprev@.push((v, 1usize)));
                    assert forall|b: int|
                        0 <= b < groups@.len() implies #[trigger] groups@[b].1 == count_votes_for(
                        s@.take(k as int + 1),
                        groups@[b].0,
                    ) && groups@[b].1 >= 1 by {
                        if b < gprev@.len() {
                            assert(groups@[b] == gprev@[b]);
                            assert(gprev@[b].0 != v);
                            assert((vote_indicator(gprev@[b].0))(s@[k as int]) == 0);
                        } else {
                            assert(groups@[b] == (v, 1usize));
                        }
                    }
                    assert forall|w: u128|
                        #[trigger] count_votes_for(s@.take(k as int + 1), w) > 0 implies exists|
                        b: int,
                    |
                        0 <= b < groups@.len() && #[trigger] groups@[b].0 == w by {
                        if w == v {
                            assert(groups@[gprev@.len() as int].0 == w);
                        } else {
                            assert((vote_indicator(w))(s@[k as int]) == 0);
                            assert(count_votes_for(s@.take(k as int), w) > 0);
                            let b = choose|b: int|
                                0 <= b < gprev@.len() && #[trigger] gprev@[b].0 == w;
                            assert(groups@[b].0 == w);
                        }
                    }
                }
            },
        }
        k = k + 1;
    }
    proof {
        lemma_take_all(s@);
    }
    // Scan for the winner: the greatest count, ties broken toward the
    // smallest value.
    let m = groups.len();
    proof {
        assert(count_votes_for(s@, s@[0].value) > 0) by {
            assert forall|w: u128| #[trigger]
                count_votes_for(s@.take(1int), w) == count_votes_for(s@.take(0int), w)
                    + (vote_indicator(w))(s@[0]) by {
                lemma_seq_measure_take_step(s@, vote_indicator(w), 0int);
            }
            lemma_count_votes_bounds(s@, s@[0].value);
            lemma_count_monotone_prefix(s@, 1int, s@[0].value);
        }
        assert(groups@.len() > 0);
    }
    let mut best_v: u128 = groups[0].0;
    let mut best_c: usize = groups[0].1;
    let mut a: usize = 1;
    while a < m
        invariant
            m == groups@.len(),
            1 <= a <= m,
            exists|b: int| 0 <= b < a && groups@[b] == (best_v, best_c),
            forall|b: int|
                0 <= b < a ==> #[trigger] groups@[b].1 < best_c || (groups@[b].1 == best_c && best_v
                    <= groups@[b].0),
        decreases m - a,
    {
        let (gv, gc) = groups[a];
        if gc > best_c || (gc == best_c && gv < best_v) {
            best_v = gv;
            best_c = gc;
        }
        a = a + 1;
    }
    proof {
        assert(count_votes_for(s@, best_v) == best_c as int && best_c >= 1) by {
            let b = choose|b: int| 0 <= b < groups@.len() && groups@[b] == (best_v, best_c);
            assert(groups@[b].0 == best_v && groups@[b].1 == best_c);
        }
        assert(is_count_winner(s@, best_v)) by {
            assert(count_votes_for(s@, best_v) == best_c as int);
            assert(best_c >= 1);
            assert forall|w: u128| #[trigger]
                count_votes_for(s@, w) < count_votes_for(s@, best_v) || (count_votes_for(s@, w)
                    == count_votes_for(s@, best_v) && best_v <= w) by {
                lemma_count_votes_bounds(s@, w);
                if count_votes_for(s@, w) > 0 {
                    let c = choose|c: int| 0 <= c < groups@.len() && #[trigger] groups@[c].0 == w;
                    assert(groups@[c].1 == count_votes_for(s@, w));
                    assert(groups@[c].1 < best_c || (groups@[c].1 == best_c && best_v
                        <= groups@[c].0));
                }
            }
        }
        let vv = choose|v: u128| is_count_winner(s@, v);
        lemma_count_winner_unique(s@, vv, best_v);
    }
    if best_c > total_registered / 2 {
        proof {
            lemma_half_threshold(best_c as int, total_registered as int);
        }
        Ok(best_v)
    } else {
        proof {
            lemma_half_threshold(best_c as int, total_registered as int);
        }
        Err(TaskError::MajorityNotReached)
    }
}

/// Exceeding the integer half is the same as a strict majority.
proof fn lemma_half_threshold(c: int, total: int)
    requires
        total >= 0,
    ensures
        (c > total / 2) <==> (2 * c > total),
{
    assert(total == 2 * (total / 2) + total % 2) by (nonlinear_arith)
        requires
            total >= 0,
    ;
}

/// Counts only grow as the prefix grows.
proof fn lemma_count_monotone_prefix(s: Seq<Vote>, k: int, v: u128)
    requires
        0 <= k <= s.len(),
    ensures
        count_votes_for(s.take(k), v) <= count_votes_for(s, v),
    decreases s.len() - k,
{
    if k < s.len() {
        lemma_seq_measure_take_step(s, vote_indicator(v), k);
        lemma_count_monotone_prefix(s, k + 1, v);
        assert((vote_indicator(v))(s[k]) >= 0);
    } else {
        lemma_take_all(s);
    }
}

// ---------------------------------------------------------------------------
// Stake-weighted decisions.
// ---------------------------------------------------------------------------

pub open spec fn stake_indicator(v: u128) -> spec_fn(StakeVote) -> int {
    |x: StakeVote| if x.value == v {
        x.stake as int
    } else {
        0int
    }
}

pub open spec fn presence_indicator(v: u128) -> spec_fn(StakeVote) -> int {
    |x: StakeVote| if x.value == v {
        1int
    } else {
        0int
    }
}

/// The summed stake behind value `v` among the votes in `s`.
pub open spec fn weight_for(s: Seq<StakeVote>, v: u128) -> int {
    seq_measure(s, stake_indicator(v))
}

/// How many of the votes in `s` carry the value `v`.
pub open spec fn stake_count_for(s: Seq<StakeVote>, v: u128) -> int {
    seq_measure(s, presence_indicator(v))
}

pub proof fn lemma_weight_bounds(s: Seq<StakeVote>, v: u128)
    ensures
        0 <= weight_for(s, v) <= s.len() * (u64::MAX as int),
    decreases s.len(),
{
    if s.len() == 0 {
    } else {
        lemma_weight_bounds(s.drop_last(), v);
        assert((s.len() - 1) * (u64::MAX as int) + (u64::MAX as int) == s.len() * (
        u64::MAX as int)) by (nonlinear_arith);
    }
}

pub proof fn lemma_stake_count_bounds(s: Seq<StakeVote>, v: u128)
    ensures
        0 <= stake_count_for(s, v) <= s.len(),
    decreases s.len(),
{
    if s.len() > 0 {
        lemma_stake_count_bounds(s.drop_last(), v);
    }
}

/// `v` wins a stake-weighted round over `s`: some vote carries it, every
/// value present carries at most as much stake, and among equally-weighted
/// present values `v` is the smallest.
pub open spec fn is_stake_winner(s: Seq<StakeVote>, v: u128) -> bool {
    stake_count_for(s, v) > 0 && forall|w: u128|
        #[trigger] stake_count_for(s, w) <= 0 || weight_for(s, w) < weight_for(s, v) || (weight_for(
            s,
            w,
        ) == weight_for(s, v) && v <= w)
}

/// At most one value wins a stake-weighted round.
pub proof fn lemma_stake_winner_unique(s: Seq<StakeVote>, v1: u128, v2: u128)
    requires
        is_stake_winner(s, v1),
        is_stake_winner(s, v2),
    ensures
        v1 == v2,
{
    assert(stake_count_for(s, v1) > 0);
    assert(stake_count_for(s, v2) > 0);
}

/// What a stake-weighted round decides. `total` is the combined stake of
/// every eligible operator, whether or not it answered; the winner's stake
/// must exceed strictly half of it.
pub open spec fn decide_by_stake_spec(s: Seq<StakeVote>, total: int) -> Result<u128, TaskError> {
    if s.len() == 0 {
        Err(TaskError::TaskVerificationFailed)
    } else {
        let v = choose|v: u128| is_stake_winner(s, v);
        if is_stake_winner(s, v) && 2 * weight_for(s, v) > total {
            Ok(v)
        } else {
            Err(TaskError::MajorityNotReached)
        }
    }
}

/// Looks up the group carrying value `v`.
fn find_stake_group(groups: &Vec<(u128, u128)>, v: u128) -> (r: Option<usize>)
    ensures
        match r {
            Some(a) => a < groups@.len() && groups@[a as int].0 == v,
            None => forall|b: int| 0 <= b < groups@.len() ==> groups@[b].0 != v,
        },
{
    let m = groups.len();
    let mut a: usize = 0;
    while a < m
        invariant
            m == groups@.len(),
            a <= m,
            forall|b: int| 0 <= b < a ==> groups@[b].0 != v,
        decreases m - a,
    {
        if groups[a].0 == v {
            return Some(a);
        }
        a = a + 1;
    }
    None
}

/// Decides a stake-weighted round: sums each candidate value's stake, picks
/// the heaviest (ties broken toward the smallest value), and demands strictly
/// more than half of `total_eligible` — the stake of eligible operators that
/// never answered still counts in the denominator.
#[verifier::rlimit(60)]
pub fn decide_by_stake(votes: &Vec<StakeVote>, total_eligible: u128) -> (r: Result<
    u128,
    TaskError,
>)
    ensures
        r == decide_by_stake_spec(votes@, total_eligible as int),
{
    let s = Ghost(votes@);
    let n = votes.len();
    if n == 0 {
        return Err(TaskError::TaskVerificationFailed);
    }
    let mut groups: Vec<(u128, u128)> = Vec::new();
    let mut k: usize = 0;
    while k < n
        invariant
            s@ == votes@,
            n == s@.len(),
            k <= n,
            forall|a: int, b: int| 0 <= a < b < groups@.len() ==> groups@[a].0 != groups@[b].0,
            forall|a: int|
                0 <= a < groups@.len() ==> #[trigger] groups@[a].1 == weight_for(
                    s@.take(k as int),
                    groups@[a].0,
                ) && stake_count_for(s@.take(k as int), groups@[a].0) >= 1,
            forall|v: u128|
                #[trigger] stake_count_for(s@.take(k as int), v) > 0 ==> exists|a: int|
                    0 <= a < groups@.len() && #[trigger] groups@[a].0 == v,
        decreases n - k,
    {
        let gprev = Ghost(groups@);
        let v = votes[k].value;
        let stake = votes[k].stake;
        proof {
            assert forall|w: u128| #[trigger]
                weight_for(s@.take(k as int + 1), w) == weight_for(s@.take(k as int), w) + (
                stake_indicator(w))(s@[k as int]) by {
                lemma_seq_measure_take_step(s@, stake_indicator(w), k as int);
            }
            assert forall|w: u128| #[trigger]
                stake_count_for(s@.take(k as int + 1), w) == stake_count_for(s@.take(k as int), w)
                    + (presence_indicator(w))(s@[k as int]) by {
                lemma_seq_measure_take_step(s@, presence_indicator(w), k as int);
            }
            assert((stake_indicator(v))(s@[k as int]) == stake as int);
            assert((presence_indicator(v))(s@[k as int]) == 1);
            lemma_weight_bounds(s@.take(k as int + 1), v);
            lemma_weight_no_overflow(s@.take(k as int + 1));
            lemma_stake_count_bounds(s@.take(k as int + 1), v);
        }
        match find_stake_group(&groups, v) {
            Some(a) => {
                let c = groups[a].1;
                proof {
                    assert(c == weight_for(s@.take(k as int), v));
                    assert(weight_for(s@.take(k as int + 1), v) == c + stake);
                }
                groups[a] = (v, c + stake as u128);
                proof {
                    assert(groups@ == gprev@.update(a as int, (v, (c + stake as u128) as u128)));
                    assert(stake_count_for(s@.take(k as int), v) >= 1);
                    assert(stake_count_for(s@.take(k as int + 1), v) >= 1);
                    assert(groups@[a as int].1 == weight_for(s@.take(k as int + 1), v));
                    assert forall|b: int|
                        0 <= b < groups@.len() implies #[trigger] groups@[b].1 == weight_for(
                        s@.take(k as int + 1),
                        groups@[b].0,
                    ) by {
                        if b != a as int {
                            assert(groups@[b] == gprev@[b]);
                            assert(gprev@[a as int].0 == v);
                            assert(gprev@[b].0 != v);
                            assert(gprev@[b].1 == weight_for(s@.take(k as int), gprev@[b].0));
                            assert((stake_indicator(gprev@[b].0))(s@[k as int]) == 0);
                            assert(weight_for(s@.take(k as int + 1), gprev@[b].0) == weight_for(
                                s@.take(k as int),
                                gprev@[b].0,
                            ));
                        } else {
                            assert(groups@[b] == (v, (c + stake as u128) as u128));
                            assert(groups@[b].0 == v);
                            assert(groups@[b].1 == weight_for(s@.take(k as int + 1), v));
                        }
                    }
                    assert forall|b: int|
                        0 <= b < groups@.len() implies stake_count_for(
                        s@.take(k as int + 1),
                        #[trigger] groups@[b].0,
                    ) >= 1 by {
                        if b != a as int {
                            assert(groups@[b] == gprev@[b]);
                            assert(gprev@[a as int].0 == v);
                            assert(gprev@[b].0 != v);
                            assert(gprev@[b].1 == weight_for(s@.take(k as int), gprev@[b].0));
                            assert(stake_count_for(s@.take(k as int), gprev@[b].0) >= 1);
                            assert((presence_indicator(gprev@[b].0))(s@[k as int]) == 0);
                            assert(stake_count_for(s@.take(k as int + 1), gprev@[b].0)
                                == stake_count_for(s@.take(k as int), gprev@[b].0));
                        } else {
                            assert(groups@[b].0 == v);
                            assert(stake_count_for(s@.take(k as int + 1), v) >= 1);
                        }
                    }
                    assert forall|w: u128|
                        #[trigger] stake_count_for(s@.take(k as int + 1), w) > 0 implies exists|
                        b: int,
                    |
                        0 <= b < groups@.len() && #[trigger] groups@[b].0 == w by {
                        if w == v {
                            assert(groups@[a as int].0 == w);
                        } else {
                            assert((presence_indicator(w))(s@[k as int]) == 0);
                            assert(stake_count_for(s@.take(k as int), w) > 0);
                            let b = choose|b: int|
                                0 <= b < gprev@.len() && #[trigger] gprev@[b].0 == w;
                            assert(groups@[b].0 == w);
                        }
                    }
                }
            },
            None => {
                proof {
                    assert(stake_count_for(s@.take(k as int), v) == 0) by {
                        lemma_stake_count_bounds(s@.take(k as int), v);
                        if stake_count_for(s@.take(k as int), v) > 0 {
                            let b = choose|b: int|
                                0 <= b < gprev@.len() && #[trigger] gprev@[b].0 == v;
                        }
                    }
                    assert(weight_for(s@.take(k as int), v) == 0) by {
                        lemma_weight_zero_when_absent(s@.take(k as int), v);
                    }
                }
                groups.push((v, stake as u128));
                proof {
                    assert(groups@ == gprev@.push((v, stake as u128)));
                    assert forall|b: int|
                        0 <= b < groups@.len() implies #[trigger] groups@[b].1 == weight_for(
                        s@.take(k as int + 1),
                        groups@[b].0,
                    ) by {
                        if b < gprev@.len() {
                            assert(groups@[b] == gprev@[b]);
                            assert(gprev@[b].0 != v);
                            assert(gprev@[b].1 == weight_for(s@.take(k as int), gprev@[b].0));
                            assert((stake_indicator(gprev@[b].0))(s@[k as int]) == 0);
                            assert(weight_for(s@.take(k as int + 1), gprev@[b].0) == weight_for(
                                s@.take(k as int),
                                gprev@[b].0,
                            ));
                        } else {
                            assert(groups@[b] == (v, stake as u128));
                            assert(weight_for(s@.take(k as int), v) == 0);
                            assert(weight_for(s@.take(k as int + 1), v) == stake as int);
                        }
                    }
                    assert forall|b: int|
                        0 <= b < groups@.len() implies stake_count_for(
                        s@.take(k as int + 1),
                        #[trigger] groups@[b].0,
                    ) >= 1 by {
                        if b < gprev@.len() {
                            assert(groups@[b] == gprev@[b]);
                            assert(gprev@[b].0 != v);
                            assert(gprev@[b].1 == weight_for(s@.take(k as int), gprev@[b].0));
                            assert(stake_count_for(s@.take(k as int), gprev@[b].0) >= 1);
                            assert((presence_indicator(gprev@[b].0))(s@[k as int]) == 0);
                            assert(stake_count_for(s@.take(k as int + 1), gprev@[b].0)
                                == stake_count_for(s@.take(k as int), gprev@[b].0));
                        } else {
                            assert(groups@[b].0 == v);
                            assert(stake_count_for(s@.take(k as int + 1), v) >= 1);
                        }
                    }
                    assert forall|w: u128|
                        #[trigger] stake_count_for(s@.take(k as int + 1), w) > 0 implies exists|
                        b: int,
                    |
                        0 <= b < groups@.len() && #[trigger] groups@[b].0 == w by {
                        if w == v {
                            assert(groups@[gprev@.len() as int].0 == w);
                        } else {
                            assert((presence_indicator(w))(s@[k as int]) == 0);
                            assert(stake_count_for(s@.take(k as int), w) > 0);
                            let b = choose|b: int|
                                0 <= b < gprev@.len() && #[trigger] gprev@[b].0 == w;
                            assert(groups@[b].0 == w);
                        }
                    }
                }
            },
        }
        k = k + 1;
    }
    proof {
        lemma_take_all(s@);
    }
    let m = groups.len();
    proof {
        assert(stake_count_for(s@, s@[0].value) > 0) by {
            assert forall|w: u128| #[trigger]
                stake_count_for(s@.take(1int), w) == stake_count_for(s@.take(0int), w) + (
                presence_indicator(w))(s@[0]) by {
                lemma_seq_measure_take_step(s@, presence_indicator(w), 0int);
            }
            lemma_stake_count_monotone_prefix(s@, 1int, s@[0].value);
        }
        assert(groups@.len() > 0);
    }
    let mut best_v: u128 = groups[0].0;
    let mut best_w: u128 = groups[0].1;
    let mut a: usize = 1;
    while a < m
        invariant
            m == groups@.len(),
            1 <= a <= m,
            exists|b: int| 0 <= b < a && groups@[b] == (best_v, best_w),
            forall|b: int|
                0 <= b < a ==> #[trigger] groups@[b].1 < best_w || (groups@[b].1 == best_w && best_v
                    <= groups@[b].0),
        decreases m - a,
    {
        let (gv, gw) = groups[a];
        if gw > best_w || (gw == best_w && gv < best_v) {
            best_v = gv;
            best_w = gw;
        }
        a = a + 1;
    }
    proof {
        assert(weight_for(s@, best_v) == best_w as int && stake_count_for(s@, best_v) > 0) by {
            let b = choose|b: int| 0 <= b < groups@.len() && groups@[b] == (best_v, best_w);
            assert(groups@[b].0 == best_v && groups@[b].1 == best_w);
        }
        assert(is_stake_winner(s@, best_v)) by {
            assert forall|w: u128| #[trigger]
                stake_count_for(s@, w) <= 0 || weight_for(s@, w) < weight_for(s@, best_v) || (
                weight_for(s@, w) == weight_for(s@, best_v) && best_v <= w) by {
                if stake_count_for(s@, w) > 0 {
                    let c = choose|c: int| 0 <= c < groups@.len() && #[trigger] groups@[c].0 == w;
                    assert(groups@[c].1 == weight_for(s@, w));
                    assert(groups@[c].1 < best_w || (groups@[c].1 == best_w && best_v
                        <= groups@[c].0));
                }
            }
        }
        let vv = choose|v: u128| is_stake_winner(s@, v);
        lemma_stake_winner_unique(s@, vv, best_v);
    }
    if best_w > total_eligible / 2 {
        proof {
            lemma_half_threshold(best_w as int, total_eligible as int);
        }
        Ok(best_v)
    } else {
        proof {
            lemma_half_threshold(best_w as int, total_eligible as int);
        }
        Err(TaskError::MajorityNotReached)
    }
}

/// No vote of value `v` means no weight behind `v`.
proof fn lemma_weight_zero_when_absent(s: Seq<StakeVote>, v: u128)
    requires
        stake_count_for(s, v) == 0,
    ensures
        weight_for(s, v) == 0,
    decreases s.len(),
{
    if s.len() > 0 {
        lemma_stake_count_bounds(s.drop_last(), v);
        assert((presence_indicator(v))(s.last()) >= 0);
        lemma_weight_zero_when_absent(s.drop_last(), v);
    }
}

/// Presence counts only grow as the prefix grows.
proof fn lemma_stake_count_monotone_prefix(s: Seq<StakeVote>, k: int, v: u128)
    requires
        0 <= k <= s.len(),
    ensures
        stake_count_for(s.take(k), v) <= stake_count_for(s, v),
    decreases s.len() - k,
{
    if k < s.len() {
        lemma_seq_measure_take_step(s, presence_indicator(v), k);
        lemma_stake_count_monotone_prefix(s, k + 1, v);
        assert((presence_indicator(v))(s[k]) >= 0);
    } else {
        lemma_take_all(s);
    }
}

/// A weight sum over at most `usize::MAX` stakes of at most `u64::MAX` each
/// fits the 128-bit accumulator.
proof fn lemma_weight_no_overflow(s: Seq<StakeVote>)
    requires
        s.len() <= usize::MAX,
    ensures
        forall|v: u128| 0 <= #[trigger] weight_for(s, v) <= u128::MAX,
{
    assert forall|v: u128| 0 <= #[trigger] weight_for(s, v) <= u128::MAX by {
        lemma_weight_bounds(s, v);
        assert(s.len() * (u64::MAX as int) <= (usize::MAX as int) * (u64::MAX as int))
            by (nonlinear_arith)
            requires
                s.len() <= usize::MAX,
        ;
        assert((usize::MAX as int) * (u64::MAX as int) <= (u64::MAX as int) * (u64::MAX as int))
            by (nonlinear_arith)
            requires
                usize::MAX <= u64::MAX,
        ;
        assert((u64::MAX as int) * (u64::MAX as int) < u128::MAX as int);
    }
}

// ---------------------------------------------------------------------------
// Shaping fetched stakes: summing one operator's vault assets, and filtering
// the per-operator stakes to the eligible set.
// ---------------------------------------------------------------------------

pub open spec fn asset_sum(s: Seq<u64>) -> int {
    seq_measure(s, |x: u64| x as int)
}

/// Sums the asset totals of the vaults one operator has staked. The 128-bit
/// sum cannot overflow.
pub fn sum_assets(assets: &Vec<u64>) -> (r: u128)
    ensures
        r == asset_sum(assets@),
{
    let n = assets.len();
    let mut total: u128 = 0;
    let mut k: usize = 0;
    while k < n
        invariant
            n == assets@.len(),
            k <= n,
            total == asset_sum(assets@.take(k as int)),
        decreases n - k,
    {
        proof {
            lemma_seq_measure_take_step(assets@, |x: u64| x as int, k as int);
            lemma_asset_sum_bounds(assets@.take(k as int + 1));
            lemma_asset_no_overflow(assets@.take(k as int + 1));
        }
        total = total + assets[k] as u128;
        k = k + 1;
    }
    proof {
        lemma_take_all(assets@);
    }
    total
}

proof fn lemma_asset_sum_bounds(s: Seq<u64>)
    ensures
        0 <= asset_sum(s) <= s.len() * (u64::MAX as int),
    decreases s.len(),
{
    if s.len() > 0 {
        lemma_asset_sum_bounds(s.drop_last());
        assert((s.len() - 1) * (u64::MAX as int) + (u64::MAX as int) == s.len() * (
        u64::MAX as int)) by (nonlinear_arith);
    }
}

proof fn lemma_asset_no_overflow(s: Seq<u64>)
    requires
        s.len() <= usize::MAX,
    ensures
        asset_sum(s) <= u128::MAX,
{
    lemma_asset_sum_bounds(s);
    assert(s.len() * (u64::MAX as int) <= (usize::MAX as int) * (u64::MAX as int))
        by (nonlinear_arith)
        requires
            s.len() <= usize::MAX,
    ;
    assert((usize::MAX as int) * (u64::MAX as int) <= (u64::MAX as int) * (u64::MAX as int))
        by (nonlinear_arith)
        requires
            usize::MAX <= u64::MAX,
    ;
    assert((u64::MAX as int) * (u64::MAX as int) < u128::MAX as int);
}

/// The eligible stake mapping: operators whose fetched stake clears the
/// floor, with the combined eligible stake.
pub fn stake_mapping(fetched: &Vec<(OpId, u64)>, min_stake: u64) -> (r: (Vec<(OpId, u64)>, u128))
    ensures
        r.0@ == fetched@.filter(|p: (OpId, u64)| p.1 > min_stake),
        r.1 == seq_measure(r.0@, |p: (OpId, u64)| p.1 as int),
{
    let n = fetched.len();
    let mut out: Vec<(OpId, u64)> = Vec::new();
    let mut total: u128 = 0;
    let mut k: usize = 0;
    proof {
        assert(fetched@.take(0int).filter(|p: (OpId, u64)| p.1 > min_stake) =~= Seq::<(
            OpId,
            u64,
        )>::empty());
    }
    while k < n
        invariant
            n == fetched@.len(),
            k <= n,
            out@ == fetched@.take(k as int).filter(|p: (OpId, u64)| p.1 > min_stake),
            total == seq_measure(out@, |p: (OpId, u64)| p.1 as int),
        decreases n - k,
    {
        proof {
            reveal_with_fuel(Seq::filter, 2);
            assert(fetched@.take(k as int + 1).drop_last() =~= fetched@.take(k as int));
            assert(fetched@.take(k as int + 1).last() == fetched@[k as int]);
        }
        let (id, stake) = fetched[k];
        if stake > min_stake {
            let oprev = Ghost(out@);
            out.push((id, stake));
            proof {
                assert(out@.drop_last() =~= oprev@);
                assert(out@.last() == (id, stake));
                lemma_pair_no_overflow(out@);
                assert(seq_measure(out@, |p: (OpId, u64)| p.1 as int) == seq_measure(
                    oprev@,
                    |p: (OpId, u64)| p.1 as int,
                ) + stake as int);
            }
            total = total + stake as u128;
        }
        k = k + 1;
    }
    proof {
        lemma_take_all(fetched@);
    }
    (out, total)
}

proof fn lemma_pair_sum_bounds(s: Seq<(OpId, u64)>)
    ensures
        0 <= seq_measure(s, |p: (OpId, u64)| p.1 as int) <= s.len() * (u64::MAX as int),
    decreases s.len(),
{
    if s.len() > 0 {
        lemma_pair_sum_bounds(s.drop_last());
        assert((s.len() - 1) * (u64::MAX as int) + (u64::MAX as int) == s.len() * (
        u64::MAX as int)) by (nonlinear_arith);
    }
}

proof fn lemma_pair_no_overflow(s: Seq<(OpId, u64)>)
    requires
        s.len() <= usize::MAX,
    ensures
        seq_measure(s, |p: (OpId, u64)| p.1 as int) <= u128::MAX,
{
    lemma_pair_sum_bounds(s);
    assert(s.len() * (u64::MAX as int) <= (usize::MAX as int) * (u64::MAX as int))
        by (nonlinear_arith)
        requires
            s.len() <= usize::MAX,
    ;
    assert((usize::MAX as int) * (u64::MAX as int) <= (u64::MAX as int) * (u64::MAX as int))
        by (nonlinear_arith)
        requires
            usize::MAX <= u64::MAX,
    ;
    assert((u64::MAX as int) * (u64::MAX as int) < u128::MAX as int);
}

// ---------------------------------------------------------------------------
// Deduplication by operator identity. A second vote from the same operator
// for the same task overwrites its earlier one in the intermediate
// collection; every operator ends up with at most one vote.
// ---------------------------------------------------------------------------

/// Pairwise-distinct voter identities.
pub open spec fn distinct_vote_ids(s: Seq<Vote>) -> bool {
    forall|i: int, j: int| 0 <= i < j < s.len() ==> s[i].id != s[j].id
}

/// Whether some vote in `s` carries the identity `id`.
pub open spec fn has_vote_id(s: Seq<Vote>, id: OpId) -> bool {
    exists|i: int| 0 <= i < s.len() && #[trigger] s[i].id == id
}

/// The overwrite collection: each vote lands at its identity's slot,
/// replacing an earlier vote of the same identity.
pub open spec fn dedup_votes_spec(s: Seq<Vote>) -> Seq<Vote>
    decreases s.len(),
{
    if s.len() == 0 {
        Seq::empty()
    } else {
        let d = dedup_votes_spec(s.drop_last());
        let last = s.last();
        if has_vote_id(d, last.id) {
            d.update(choose|i: int| 0 <= i < d.len() && #[trigger] d[i].id == last.id, last)
        } else {
            d.push(last)
        }
    }
}

/// The overwrite collection holds one vote per identity.
pub proof fn lemma_dedup_votes_distinct(s: Seq<Vote>)
    ensures
        distinct_vote_ids(dedup_votes_spec(s)),
    decreases s.len(),
{
    if s.len() > 0 {
        lemma_dedup_votes_distinct(s.drop_last());
        let d = dedup_votes_spec(s.drop_last());
        let last = s.last();
        let out = dedup_votes_spec(s);
        if has_vote_id(d, last.id) {
            let i0 = choose|i: int| 0 <= i < d.len() && #[trigger] d[i].id == last.id;
            assert(out == d.update(i0, last));
            assert forall|i: int, j: int| 0 <= i < j < out.len() implies out[i].id != out[j].id by {
                if i != i0 && j != i0 {
                    assert(out[i] == d[i] && out[j] == d[j]);
                } else if i == i0 {
                    assert(out[j] == d[j]);
                    assert(out[i].id == d[i0].id);
                } else {
                    assert(out[i] == d[i]);
                    assert(out[j].id == d[i0].id);
                }
            }
        } else {
            assert forall|i: int, j: int| 0 <= i < j < out.len() implies out[i].id != out[j].id by {
                if j == d.len() {
                    assert(out[i] == d[i] && out[j] == last);
                    assert(!has_vote_id(d, last.id));
                    assert(d[i].id != last.id);
                }
            }
        }
    }
}

/// Votes with pairwise-distinct identities pass through the overwrite
/// collection unchanged.
pub proof fn lemma_dedup_votes_identity(s: Seq<Vote>)
    requires
        distinct_vote_ids(s),
    ensures
        dedup_votes_spec(s) == s,
    decreases s.len(),
{
    if s.len() == 0 {
        assert(dedup_votes_spec(s) =~= s);
    } else {
        let init = s.drop_last();
        assert(distinct_vote_ids(init)) by {
            assert(forall|i: int| 0 <= i < init.len() ==> init[i] == s[i]);
        }
        lemma_dedup_votes_identity(init);
        let last = s.last();
        assert(!has_vote_id(init, last.id)) by {
            if has_vote_id(init, last.id) {
                let i = choose|i: int| 0 <= i < init.len() && #[trigger] init[i].id == last.id;
                assert(s[i].id == s[s.len() - 1].id);
            }
        }
        assert(dedup_votes_spec(s) =~= s);
    }
}

/// Looks up the slot holding identity `id`.
fn find_vote_slot(out: &Vec<Vote>, id: OpId) -> (r: Option<usize>)
    ensures
        match r {
            Some(a) => a < out@.len() && out@[a as int].id == id,
            None => forall|b: int| 0 <= b < out@.len() ==> out@[b].id != id,
        },
{
    let m = out.len();
    let mut a: usize = 0;
    while a < m
        invariant
            m == out@.len(),
            a <= m,
            forall|b: int| 0 <= b < a ==> out@[b].id != id,
        decreases m - a,
    {
        if out[a].id == id {
            return Some(a);
        }
        a = a + 1;
    }
    None
}

/// Builds the overwrite collection: one pass, each vote replacing its
/// identity's earlier slot or taking a new one.
pub fn dedup_votes(votes: &Vec<Vote>) -> (r: Vec<Vote>)
    ensures
        r@ == dedup_votes_spec(votes@),
        distinct_vote_ids(r@),
{
    let n = votes.len();
    let mut out: Vec<Vote> = Vec::new();
    let mut k: usize = 0;
    proof {
        assert(votes@.take(0int) =~= Seq::<Vote>::empty());
        assert(out@ =~= dedup_votes_spec(votes@.take(0int)));
    }
    while k < n
        invariant
            n == votes@.len(),
            k <= n,
            out@ == dedup_votes_spec(votes@.take(k as int)),
            distinct_vote_ids(out@),
        decreases n - k,
    {
        let v = votes[k];
        proof {
            assert(votes@.take(k as int + 1).drop_last() =~= votes@.take(k as int));
            assert(votes@.take(k as int + 1).last() == votes@[k as int]);
        }
        let slot = find_vote_slot(&out, v.id);
        match slot {
            Some(i) => {
                proof {
                    assert(out@[i as int].id == v.id);
                    assert(has_vote_id(out@, v.id));
                    let i0 = choose|b: int| 0 <= b < out@.len() && #[trigger] out@[b].id == v.id;
                    assert(i0 == i as int);
                }
                out[i] = v;
            },
            None => {
                proof {
                    assert(forall|b: int| 0 <= b < out@.len() ==> out@[b].id != v.id);
                    assert(!has_vote_id(out@, v.id));
                }
                out.push(v);
            },
        }
        proof {
            lemma_dedup_votes_distinct(votes@.take(k as int + 1));
        }
        k = k + 1;
    }
    proof {
        assert(votes@.take(n as int) =~= votes@);
    }
    out
}

// ---------------------------------------------------------------------------
// Laws of the decision functions.
// ---------------------------------------------------------------------------

/// When every collected vote carries the same value and the voters clear the
/// quorum threshold, the decision is that value.
pub proof fn lemma_unanimous_count_decides(s: Seq<Vote>, total: int, val: u128)
    requires
        s.len() > 0,
        forall|i: int| 0 <= i < s.len() ==> s[i].value == val,
        2 * s.len() > total,
    ensures
        decide_by_count_spec(s, total) == Ok::<u128, TaskError>(val),
{
    lemma_count_unanimous(s, val);
    assert(is_count_winner(s, val)) by {
        assert forall|w: u128| #[trigger]
            count_votes_for(s, w) < count_votes_for(s, val) || (count_votes_for(s, w)
                == count_votes_for(s, val) && val <= w) by {
            if w != val {
                assert(count_votes_for(s, w) == 0);
            }
        }
    }
    let vv = choose|v: u128| is_count_winner(s, v);
    lemma_count_winner_unique(s, vv, val);
}

/// All votes of a unanimous sequence count toward its value, and nothing
/// else occurs.
proof fn lemma_count_unanimous(s: Seq<Vote>, val: u128)
    requires
        forall|i: int| 0 <= i < s.len() ==> s[i].value == val,
    ensures
        count_votes_for(s, val) == s.len(),
        forall|w: u128| w != val ==> #[trigger] count_votes_for(s, w) == 0,
    decreases s.len(),
{
    if s.len() > 0 {
        assert(forall|i: int|
            0 <= i < s.drop_last().len() ==> #[trigger] s.drop_last()[i].value == val);
        lemma_count_unanimous(s.drop_last(), val);
        assert(s.last().value == val);
        assert(count_votes_for(s, val) == count_votes_for(s.drop_last(), val) + 1);
        assert forall|w: u128| w != val implies #[trigger] count_votes_for(s, w) == 0 by {
            assert(count_votes_for(s.drop_last(), w) == 0);
            assert((vote_indicator(w))(s.last()) == 0);
        }
    }
}

/// When every collected vote carries the same value and its combined stake
/// exceeds half of the eligible stake, the decision is that value.
pub proof fn lemma_unanimous_stake_decides(s: Seq<StakeVote>, total: int, val: u128)
    requires
        s.len() > 0,
        forall|i: int| 0 <= i < s.len() ==> s[i].value == val,
        2 * weight_for(s, val) > total,
    ensures
        decide_by_stake_spec(s, total) == Ok::<u128, TaskError>(val),
{
    lemma_stake_unanimous(s, val);
    assert(stake_count_for(s, val) == s.len());
    assert(is_stake_winner(s, val)) by {
        assert forall|w: u128| #[trigger]
            stake_count_for(s, w) <= 0 || weight_for(s, w) < weight_for(s, val) || (weight_for(
                s,
                w,
            ) == weight_for(s, val) && val <= w) by {
            if w != val {
                assert(stake_count_for(s, w) == 0);
            }
        }
    }
    let vv = choose|v: u128| is_stake_winner(s, v);
    lemma_stake_winner_unique(s, vv, val);
}

proof fn lemma_stake_unanimous(s: Seq<StakeVote>, val: u128)
    requires
        forall|i: int| 0 <= i < s.len() ==> s[i].value == val,
    ensures
        stake_count_for(s, val) == s.len(),
        forall|w: u128| w != val ==> #[trigger] stake_count_for(s, w) == 0,
    decreases s.len(),
{
    if s.len() > 0 {
        assert(forall|i: int|
            0 <= i < s.drop_last().len() ==> #[trigger] s.drop_last()[i].value == val);
        lemma_stake_unanimous(s.drop_last(), val);
        assert(s.last().value == val);
        assert(stake_count_for(s, val) == stake_count_for(s.drop_last(), val) + 1);
        assert forall|w: u128| w != val implies #[trigger] stake_count_for(s, w) == 0 by {
            assert(stake_count_for(s.drop_last(), w) == 0);
            assert((presence_indicator(w))(s.last()) == 0);
        }
    }
}

/// When no value's stake strictly exceeds half of the eligible total, the
/// round fails and decides nothing.
pub proof fn lemma_no_stake_majority_fails(s: Seq<StakeVote>, total: int)
    requires
        forall|v: u128| 2 * #[trigger] weight_for(s, v) <= total,
    ensures
        decide_by_stake_spec(s, total) == if s.len() == 0 {
            Err::<u128, TaskError>(TaskError::TaskVerificationFailed)
        } else {
            Err::<u128, TaskError>(TaskError::MajorityNotReached)
        },
{
    if s.len() > 0 {
        let v = choose|v: u128| is_stake_winner(s, v);
        assert(2 * weight_for(s, v) <= total);
    }
}

/// When no value's count strictly exceeds half of the registered set, the
/// round fails and decides nothing.
pub proof fn lemma_no_count_majority_fails(s: Seq<Vote>, total: int)
    requires
        forall|v: u128| 2 * #[trigger] count_votes_for(s, v) <= total,
    ensures
        decide_by_count_spec(s, total) == if s.len() == 0 {
            Err::<u128, TaskError>(TaskError::TaskVerificationFailed)
        } else {
            Err::<u128, TaskError>(TaskError::MajorityNotReached)
        },
{
    if s.len() > 0 {
        let v = choose|v: u128| is_count_winner(s, v);
        assert(2 * count_votes_for(s, v) <= total);
    }
}

/// Two vote sequences of equal length with equal per-value counts decide
/// alike.
pub proof fn lemma_count_decision_equal_counts(s1: Seq<Vote>, s2: Seq<Vote>, total: int)
    requires
        s1.len() == s2.len(),
        forall|v: u128|
            #![trigger count_votes_for(s1, v)]
            #![trigger count_votes_for(s2, v)]
            count_votes_for(s1, v) == count_votes_for(s2, v),
    ensures
        decide_by_count_spec(s1, total) == decide_by_count_spec(s2, total),
{
    if s1.len() > 0 {
        let v1 = choose|v: u128| is_count_winner(s1, v);
        let v2 = choose|v: u128| is_count_winner(s2, v);
        if is_count_winner(s1, v1) {
            assert(is_count_winner(s2, v1));
            lemma_count_winner_unique(s2, v2, v1);
        } else if is_count_winner(s2, v2) {
            assert(is_count_winner(s1, v2));
            assert(is_count_winner(s1, v1)) by {
                assert(exists|v: u128| is_count_winner(s1, v));
            }
        }
    }
}

/// Counted decisions depend only on the multiset of votes: arrival order
/// never matters.
pub proof fn lemma_count_decision_order_independent(s1: Seq<Vote>, s2: Seq<Vote>, total: int)
    requires
        s1.to_multiset() == s2.to_multiset(),
    ensures
        decide_by_count_spec(s1, total) == decide_by_count_spec(s2, total),
{
    broadcast use vstd::seq_lib::group_to_multiset_ensures;

    assert(s1.len() == s2.len()) by {
        assert(s1.to_multiset().len() == s1.len());
        assert(s2.to_multiset().len() == s2.len());
    }
    assert forall|v: u128|
        #![trigger count_votes_for(s1, v)]
        #![trigger count_votes_for(s2, v)]
        count_votes_for(s1, v) == count_votes_for(s2, v) by {
        lemma_seq_measure_permutation(s1, s2, vote_indicator(v));
    }
    if s1.len() > 0 {
        let v1 = choose|v: u128| is_count_winner(s1, v);
        let v2 = choose|v: u128| is_count_winner(s2, v);
        if is_count_winner(s1, v1) {
            assert(is_count_winner(s2, v1));
            lemma_count_winner_unique(s2, v2, v1);
        } else if is_count_winner(s2, v2) {
            assert(is_count_winner(s1, v2));
            assert(is_count_winner(s1, v1)) by {
                assert(exists|v: u128| is_count_winner(s1, v));
            }
        }
    }
}

/// Two weighted-vote sequences of equal length with equal per-value weights
/// and presence counts decide alike.
pub proof fn lemma_stake_decision_equal_weights(s1: Seq<StakeVote>, s2: Seq<StakeVote>, total: int)
    requires
        s1.len() == s2.len(),
        forall|v: u128|
            #![trigger weight_for(s1, v)]
            #![trigger weight_for(s2, v)]
            weight_for(s1, v) == weight_for(s2, v),
        forall|v: u128|
            #![trigger stake_count_for(s1, v)]
            #![trigger stake_count_for(s2, v)]
            stake_count_for(s1, v) == stake_count_for(s2, v),
    ensures
        decide_by_stake_spec(s1, total) == decide_by_stake_spec(s2, total),
{
    if s1.len() > 0 {
        let v1 = choose|v: u128| is_stake_winner(s1, v);
        let v2 = choose|v: u128| is_stake_winner(s2, v);
        if is_stake_winner(s1, v1) {
            assert(is_stake_winner(s2, v1));
            lemma_stake_winner_unique(s2, v2, v1);
        } else if is_stake_winner(s2, v2) {
            assert(is_stake_winner(s1, v2));
            assert(is_stake_winner(s1, v1)) by {
                assert(exists|v: u128| is_stake_winner(s1, v));
            }
        }
    }
}

/// Stake-weighted decisions depend only on the multiset of votes: arrival
/// order never matters.
pub proof fn lemma_stake_decision_order_independent(
    s1: Seq<StakeVote>,
    s2: Seq<StakeVote>,
    total: int,
)
    requires
        s1.to_multiset() == s2.to_multiset(),
    ensures
        decide_by_stake_spec(s1, total) == decide_by_stake_spec(s2, total),
{
    broadcast use vstd::seq_lib::group_to_multiset_ensures;

    assert(s1.len() == s2.len()) by {
        assert(s1.to_multiset().len() == s1.len());
        assert(s2.to_multiset().len() == s2.len());
    }
    assert forall|v: u128|
        #![trigger weight_for(s1, v)]
        #![trigger weight_for(s2, v)]
        weight_for(s1, v) == weight_for(s2, v) by {
        lemma_seq_measure_permutation(s1, s2, stake_indicator(v));
    }
    assert forall|v: u128|
        #![trigger stake_count_for(s1, v)]
        #![trigger stake_count_for(s2, v)]
        stake_count_for(s1, v) == stake_count_for(s2, v) by {
        lemma_seq_measure_permutation(s1, s2, presence_indicator(v));
    }
    if s1.len() > 0 {
        let v1 = choose|v: u128| is_stake_winner(s1, v);
        let v2 = choose|v: u128| is_stake_winner(s2, v);
        if is_stake_winner(s1, v1) {
            assert(is_stake_winner(s2, v1));
            lemma_stake_winner_unique(s2, v2, v1);
        } else if is_stake_winner(s2, v2) {
            assert(is_stake_winner(s1, v2));
            assert(is_stake_winner(s1, v1)) by {
                assert(exists|v: u128| is_stake_winner(s1, v));
            }
        }
    }
}

} // verus!
