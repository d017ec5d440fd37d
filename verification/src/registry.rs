use vstd::prelude::*;

use crate::points::{G1Repr, G2Repr};

verus! {

/// An operator's account identity: a 160-bit address split into a high and a
/// low part.
#[derive(Clone, Copy, PartialEq, Eq, Structural, Debug)]
pub struct OpId {
    pub hi: u32,
    pub lo: u128,
}

/// The pair of public keys an operator uses in the threshold-signature
/// protocol: a G1 key (listed on-chain for non-signers) and a G2 key (used
/// to check its signatures).
#[derive(Clone, Copy, PartialEq, Eq, Debug)]
pub struct BlsPublicKey {
    pub g1: G1Repr,
    pub g2: G2Repr,
}

/// A registered operator: its identity, its callback endpoint, and — for the
/// threshold-signature protocol — its public-key pair. Registry membership is
/// keyed by the (identity, url) pair alone.
pub struct Operator {
    pub id: OpId,
    pub url: String,
    pub bls: Option<BlsPublicKey>,
}

impl Operator {
    pub fn new(id: OpId, url: String, bls: Option<BlsPublicKey>) -> (r: Operator)
        ensures
            r.id == id,
            r.url@ == url@,
            r.bls == bls,
    {
        Operator { id, url, bls }
    }

    pub fn url(&self) -> (r: &String)
        ensures
            r@ == self.url@,
    {
        &self.url
    }

    pub fn public_key(&self) -> (r: OpId)
        ensures
            r == self.id,
    {
        self.id
    }
}

impl Clone for Operator {
    fn clone(&self) -> (r: Self)
        ensures
            r.id == self.id,
            r.url@ == self.url@,
            r.bls == self.bls,
    {
        Operator { id: self.id, url: self.url.clone(), bls: self.bls }
    }
}

/// Two operators name the same registry member: equal identity and equal
/// callback url. The key deliberately leaves the public-key pair out.
pub open spec fn key_eq(a: Operator, b: Operator) -> bool {
    a.id == b.id && a.url@ == b.url@
}

/// Whether some member of `s` has the same key as `op`.
pub open spec fn has_key(s: Seq<Operator>, op: Operator) -> bool {
    exists|i: int| 0 <= i < s.len() && #[trigger] key_eq(s[i], op)
}

/// How many members of `s` have the same key as `op`.
pub open spec fn count_key(s: Seq<Operator>, op: Operator) -> nat
    decreases s.len(),
{
    if s.len() == 0 {
        0
    } else {
        count_key(s.drop_last(), op) + if key_eq(s.last(), op) {
            1nat
        } else {
            0nat
        }
    }
}

/// A well-formed registry holds at most one member per key.
pub open spec fn distinct_keys(s: Seq<Operator>) -> bool {
    forall|i: int, j: int| 0 <= i < j < s.len() ==> !key_eq(s[i], s[j])
}

/// What registering `op` into the member sequence `s` yields: the sequence
/// unchanged when the key is already present, else the sequence with `op`
/// appended.
pub open spec fn register_spec(s: Seq<Operator>, op: Operator) -> Seq<Operator> {
    if has_key(s, op) {
        s
    } else {
        s.push(op)
    }
}

/// Compares two operators by registry key.
pub fn same_key(a: &Operator, b: &Operator) -> (r: bool)
    ensures
        r == key_eq(*a, *b),
{
    a.id == b.id && a.url == b.url
}

/// The set of operators known to the aggregator. Created once at startup;
/// the hosting process shares it behind its own lock and hands mutable access
/// to one caller at a time.
pub struct OperatorState {
    operators: Vec<Operator>,
}

impl View for OperatorState {
    type V = Seq<Operator>;

    closed spec fn view(&self) -> Seq<Operator> {
        self.operators@
    }
}

impl OperatorState {
    /// The registry invariant: member keys are pairwise distinct.
    pub open spec fn wf(&self) -> bool {
        distinct_keys(self@)
    }

    pub fn new() -> (r: OperatorState)
        ensures
            r@ =~= Seq::<Operator>::empty(),
            r.wf(),
    {
        OperatorState { operators: Vec::new() }
    }

    pub fn len(&self) -> (r: usize)
        ensures
            r == self@.len(),
    {
        self.operators.len()
    }

    /// Looks up the index of the member with `op`'s key, if any.
    fn find_key(&self, op: &Operator) -> (r: Option<usize>)
        ensures
            match r {
                Some(i) => i < self@.len() && key_eq(self@[i as int], *op),
                None => !has_key(self@, *op),
            },
    {
        let n = self.operators.len();
        let mut i: usize = 0;
        while i < n
            invariant
                n == self@.len(),
                i <= n,
                forall|j: int| 0 <= j < i ==> !key_eq(self@[j], *op),
            decreases n - i,
        {
            if same_key(&self.operators[i], op) {
                return Some(i);
            }
            i = i + 1;
        }
        None
    }

    /// Inserts `op` if no member shares its key; a duplicate registration
    /// leaves the registry unchanged and is not an error.
    pub fn register_operator(&mut self, op: Operator)
        requires
            old(self).wf(),
        ensures
            final(self).wf(),
            final(self)@ == register_spec(old(self)@, op),
            has_key(final(self)@, op),
    {
        let found = self.find_key(&op);
        match found {
            Some(i) => {
                proof {
                    assert(key_eq(self@[i as int], op));
                    assert(has_key(self@, op));
                }
            },
            None => {
                self.operators.push(op);
                proof {
                    let s = self@;
                    assert(s == old(self)@.push(op));
                    assert(s[s.len() - 1] == op);
                    assert(key_eq(s[s.len() - 1], op));
                    assert(has_key(s, op));
                }
            },
        }
    }

    /// Membership check by the (identity, url) key.
    pub fn is_operator_registered(&self, op: &Operator) -> (r: bool)
        ensures
            r == has_key(self@, *op),
    {
        self.find_key(op).is_some()
    }

    /// A point-in-time copy of the member set, for one dispatch round.
    pub fn snapshot(&self) -> (r: Vec<Operator>)
        ensures
            r@.len() == self@.len(),
            forall|i: int|
                0 <= i < r@.len() ==> r@[i].id == self@[i].id && r@[i].url@ == self@[i].url@
                    && r@[i].bls == self@[i].bls,
    {
        let n = self.operators.len();
        let mut out: Vec<Operator> = Vec::new();
        let mut i: usize = 0;
        while i < n
            invariant
                n == self@.len(),
                i <= n,
                out@.len() == i,
                forall|j: int|
                    0 <= j < i ==> out@[j].id == self@[j].id && out@[j].url@ == self@[j].url@
                        && out@[j].bls == self@[j].bls,
            decreases n - i,
        {
            out.push(self.operators[i].clone());
            i = i + 1;
        }
        out
    }
}

/// Registering the same operator twice leaves the registry with exactly one
/// member for that key: the second registration is a no-op, and a well-formed
/// registry never holds two members with one key.
pub proof fn lemma_register_twice_one_member(s: Seq<Operator>, op: Operator)
    requires
        distinct_keys(s),
    ensures
        register_spec(register_spec(s, op), op) == register_spec(s, op),
        count_key(register_spec(register_spec(s, op), op), op) == 1,
{
    let s1 = register_spec(s, op);
    if has_key(s, op) {
        assert(s1 == s);
    } else {
        assert(s1 == s.push(op));
        assert(key_eq(s1[s.len() as int], op));
        assert(has_key(s1, op));
    }
    assert(has_key(s1, op));
    assert(register_spec(s1, op) == s1);
    lemma_distinct_register(s, op);
    lemma_count_key_one(s1, op);
}

/// Registration preserves the registry invariant.
pub proof fn lemma_distinct_register(s: Seq<Operator>, op: Operator)
    requires
        distinct_keys(s),
    ensures
        distinct_keys(register_spec(s, op)),
{
    if !has_key(s, op) {
        let t = s.push(op);
        assert forall|i: int, j: int| 0 <= i < j < t.len() implies !key_eq(t[i], t[j]) by {
            if j == s.len() {
                assert(t[j] == op);
                assert(!key_eq(s[i], op));
            }
        }
    }
}

/// In a sequence with pairwise-distinct keys, a key that occurs occurs once.
proof fn lemma_count_key_one(s: Seq<Operator>, op: Operator)
    requires
        distinct_keys(s),
        has_key(s, op),
    ensures
        count_key(s, op) == 1,
{
    lemma_count_key_witness(s, op);
}

/// Counts a key by splitting on the last element.
proof fn lemma_count_key_witness(s: Seq<Operator>, op: Operator)
    requires
        distinct_keys(s),
    ensures
        has_key(s, op) ==> count_key(s, op) == 1,
        !has_key(s, op) ==> count_key(s, op) == 0,
    decreases s.len(),
{
    if s.len() == 0 {
    } else {
        let init = s.drop_last();
        assert(distinct_keys(init)) by {
            assert(forall|i: int, j: int|
                0 <= i < j < init.len() ==> init[i] == s[i] && init[j] == s[j]);
        }
        lemma_count_key_witness(init, op);
        if key_eq(s.last(), op) {
            assert forall|i: int| 0 <= i < init.len() implies !key_eq(init[i], op) by {
                assert(!key_eq(s[i], s[s.len() - 1]));
                lemma_key_eq_trans(s[i], s[s.len() - 1], op);
            }
            assert(!has_key(init, op));
            assert(count_key(s, op) == 1);
            assert(key_eq(s[s.len() - 1], op));
            assert(has_key(s, op));
        } else {
            if has_key(s, op) {
                let i = choose|i: int| 0 <= i < s.len() && key_eq(s[i], op);
                assert(i < init.len() && init[i] == s[i]);
                assert(has_key(init, op));
            }
            if has_key(init, op) {
                let i = choose|i: int| 0 <= i < init.len() && key_eq(init[i], op);
                assert(key_eq(s[i], op));
                assert(has_key(s, op));
            }
        }
    }
}

/// Key equality is transitive through a shared right-hand side.
proof fn lemma_key_eq_trans(a: Operator, b: Operator, c: Operator)
    ensures
        !key_eq(a, b) && key_eq(b, c) ==> !key_eq(a, c),
{
}

} // verus!
