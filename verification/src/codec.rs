use vstd::prelude::*;

verus! {

// ---------------------------------------------------------------------------
// Decimal numerals.
// ---------------------------------------------------------------------------

pub open spec fn is_digit(b: u8) -> bool {
    0x30 <= b <= 0x39
}

/// The canonical decimal numeral of `n`, as ASCII bytes.
pub open spec fn dec_str(n: nat) -> Seq<u8>
    decreases n,
{
    if n < 10 {
        seq![(0x30 + n) as u8]
    } else {
        dec_str(n / 10).push((0x30 + n % 10) as u8)
    }
}

/// The value of a digit string.
pub open spec fn dec_val(ds: Seq<u8>) -> nat
    decreases ds.len(),
{
    if ds.len() == 0 {
        0
    } else {
        dec_val(ds.drop_last()) * 10 + if is_digit(ds.last()) {
            (ds.last() - 0x30) as nat
        } else {
            0
        }
    }
}

/// A canonical numeral: at least one digit, digits only, and no leading
/// zero except in "0" itself.
pub open spec fn is_canon_dec(ds: Seq<u8>) -> bool {
    ds.len() > 0 && (forall|i: int| 0 <= i < ds.len() ==> is_digit(#[trigger] ds[i])) && (ds[0]
        != 0x30 || ds.len() == 1)
}

pub proof fn lemma_dec_str_canon(n: nat)
    ensures
        is_canon_dec(dec_str(n)),
        dec_val(dec_str(n)) == n,
    decreases n,
{
    if n < 10 {
        assert(dec_str(n) == seq![(0x30 + n) as u8]);
        assert(dec_str(n)[0] == (0x30 + n) as u8);
        assert(dec_str(n).drop_last() =~= Seq::<u8>::empty());
        assert(dec_val(Seq::<u8>::empty()) == 0);
        assert(dec_str(n).last() == (0x30 + n) as u8);
        assert(is_digit(dec_str(n).last()));
        assert(dec_val(dec_str(n)) == n);
    } else {
        lemma_dec_str_canon(n / 10);
        let hd = dec_str(n / 10);
        let ds = dec_str(n);
        assert(ds == hd.push((0x30 + n % 10) as u8));
        assert(ds.drop_last() =~= hd);
        assert(ds[0] == hd[0]);
        assert(hd.len() >= 1);
        assert(n / 10 >= 1);
        assert(hd[0] != 0x30 || hd.len() == 1) by {
            if hd.len() == 1 {
                assert(hd == seq![(0x30 + (n / 10)) as u8] || (n / 10) >= 10);
                if n / 10 < 10 {
                    assert(hd[0] == (0x30 + n / 10) as u8);
                }
            }
        }
        assert(ds[0] != 0x30) by {
            if hd.len() == 1 {
                assert(n / 10 < 10 ==> hd[0] == (0x30 + n / 10) as u8 && n / 10 >= 1);
                if n / 10 >= 10 {
                    assert(dec_str(n / 10).len() > 1) by {
                        lemma_dec_str_len_ge2(n / 10);
                    }
                }
            }
        }
        assert forall|i: int| 0 <= i < ds.len() implies is_digit(#[trigger] ds[i]) by {
            if i < hd.len() {
                assert(ds[i] == hd[i]);
            } else {
                assert(ds[i] == (0x30 + n % 10) as u8);
            }
        }
        assert(dec_val(ds) == dec_val(hd) * 10 + n % 10);
        assert(n == (n / 10) * 10 + n % 10);
    }
}

/// Numerals of values ten and up have at least two digits.
proof fn lemma_dec_str_len_ge2(n: nat)
    requires
        n >= 10,
    ensures
        dec_str(n).len() >= 2,
{
    assert(dec_str(n) == dec_str(n / 10).push((0x30 + n % 10) as u8));
    assert(dec_str(n / 10).len() >= 1) by {
        lemma_dec_str_nonempty(n / 10);
    }
}

proof fn lemma_dec_str_nonempty(n: nat)
    ensures
        dec_str(n).len() >= 1,
    decreases n,
{
    if n >= 10 {
        lemma_dec_str_nonempty(n / 10);
    }
}

/// A canonical numeral of two or more digits denotes at least ten.
proof fn lemma_canon_dec_ge10(ds: Seq<u8>)
    requires
        is_canon_dec(ds),
        ds.len() >= 2,
    ensures
        dec_val(ds) >= 10,
    decreases ds.len(),
{
    let hd = ds.drop_last();
    assert(hd[0] == ds[0]);
    assert(forall|i: int| 0 <= i < hd.len() ==> hd[i] == ds[i]);
    assert(is_canon_dec(hd));
    if hd.len() >= 2 {
        lemma_canon_dec_ge10(hd);
    } else {
        assert(hd.len() == 1);
        assert(hd[0] != 0x30);
        assert(is_digit(hd[0]));
        assert(hd.drop_last() =~= Seq::<u8>::empty());
        assert(dec_val(Seq::<u8>::empty()) == 0);
        assert(hd.last() == hd[0]);
        assert(dec_val(hd) == (hd[0] - 0x30) as nat);
        assert(dec_val(hd) >= 1);
    }
    assert(dec_val(ds) == dec_val(hd) * 10 + if is_digit(ds.last()) {
        (ds.last() - 0x30) as nat
    } else {
        0
    });
    assert(dec_val(hd) * 10 >= 10) by (nonlinear_arith)
        requires
            dec_val(hd) >= 1,
    ;
}

/// The canonical numeral of a value is unique: a canonical digit string
/// denoting `n` is `dec_str(n)`.
pub proof fn lemma_canon_dec_unique(ds: Seq<u8>)
    requires
        is_canon_dec(ds),
    ensures
        ds == dec_str(dec_val(ds)),
    decreases ds.len(),
{
    let n = dec_val(ds);
    if ds.len() == 1 {
        assert(ds.drop_last() =~= Seq::<u8>::empty());
        assert(dec_val(Seq::<u8>::empty()) == 0);
        assert(ds.last() == ds[0]);
        assert(is_digit(ds[0]));
        assert(n == (ds[0] - 0x30) as nat);
        assert(n < 10);
        assert(dec_str(n) == seq![(0x30 + n) as u8]);
        assert(ds =~= dec_str(n));
    } else {
        lemma_canon_dec_ge10(ds);
        assert(n >= 10);
        let hd = ds.drop_last();
        assert(forall|i: int| 0 <= i < hd.len() ==> hd[i] == ds[i]);
        assert(is_canon_dec(hd));
        let d = (ds.last() - 0x30) as nat;
        assert(is_digit(ds.last()));
        assert(d < 10);
        assert(n == dec_val(hd) * 10 + d);
        assert(n / 10 == dec_val(hd) && n % 10 == d) by (nonlinear_arith)
            requires
                n == dec_val(hd) * 10 + d,
                0 <= d < 10,
                dec_val(hd) >= 0,
        ;
        lemma_canon_dec_unique(hd);
        assert(hd == dec_str(n / 10));
        assert(dec_str(n) == dec_str(n / 10).push((0x30 + n % 10) as u8));
        assert(ds =~= hd.push(ds.last()));
        assert(ds.last() == (0x30 + n % 10) as u8);
    }
}

/// Numerals are injective.
pub proof fn lemma_dec_str_injective(a: nat, b: nat)
    requires
        dec_str(a) == dec_str(b),
    ensures
        a == b,
{
    lemma_dec_str_canon(a);
    lemma_dec_str_canon(b);
}

/// Renders `n` as its canonical decimal numeral.
pub fn u128_to_dec(n: u128) -> (r: Vec<u8>)
    ensures
        r@ == dec_str(n as nat),
    decreases n,
{
    if n < 10 {
        let mut v: Vec<u8> = Vec::new();
        v.push(0x30 + n as u8);
        proof {
            assert(v@ =~= dec_str(n as nat));
        }
        v
    } else {
        let mut v = u128_to_dec(n / 10);
        v.push(0x30 + (n % 10) as u8);
        v
    }
}

/// Appends `src` to `dst`.
pub fn push_bytes(dst: &mut Vec<u8>, src: &Vec<u8>)
    ensures
        final(dst)@ == old(dst)@ + src@,
{
    let n = src.len();
    let mut i: usize = 0;
    proof {
        assert(dst@ =~= old(dst)@ + src@.take(0int));
    }
    while i < n
        invariant
            n == src@.len(),
            i <= n,
            dst@ == old(dst)@ + src@.take(i as int),
        decreases n - i,
    {
        dst.push(src[i]);
        proof {
            assert(dst@ =~= old(dst)@ + src@.take(i as int + 1));
        }
        i = i + 1;
    }
    proof {
        assert(src@.take(n as int) =~= src@);
    }
}

// ---------------------------------------------------------------------------
// The checkpoint record: one persisted JSON object holding the next block
// number to scan.
// ---------------------------------------------------------------------------

/// The bytes of `{"block_number":`.
pub open spec fn checkpoint_prefix() -> Seq<u8> {
    seq![
        0x7bu8,
        0x22u8,
        0x62u8,
        0x6cu8,
        0x6fu8,
        0x63u8,
        0x6bu8,
        0x5fu8,
        0x6eu8,
        0x75u8,
        0x6du8,
        0x62u8,
        0x65u8,
        0x72u8,
        0x22u8,
        0x3au8,
    ]
}

/// The canonical checkpoint document for block number `n`.
pub open spec fn checkpoint_doc(n: u64) -> Seq<u8> {
    checkpoint_prefix() + dec_str(n as nat) + seq![0x7du8]
}

fn checkpoint_prefix_vec() -> (r: Vec<u8>)
    ensures
        r@ == checkpoint_prefix(),
{
    let mut v: Vec<u8> = Vec::new();
    v.push(0x7b);
    v.push(0x22);
    v.push(0x62);
    v.push(0x6c);
    v.push(0x6f);
    v.push(0x63);
    v.push(0x6b);
    v.push(0x5f);
    v.push(0x6e);
    v.push(0x75);
    v.push(0x6d);
    v.push(0x62);
    v.push(0x65);
    v.push(0x72);
    v.push(0x22);
    v.push(0x3a);
    proof {
        assert(v@ =~= checkpoint_prefix());
    }
    v
}

/// Renders the checkpoint document for block number `n`.
pub fn render_checkpoint(n: u64) -> (r: Vec<u8>)
    ensures
        r@ == checkpoint_doc(n),
{
    let mut out = checkpoint_prefix_vec();
    let digits = u128_to_dec(n as u128);
    push_bytes(&mut out, &digits);
    out.push(0x7d);
    proof {
        assert(out@ =~= checkpoint_doc(n));
    }
    out
}

/// What parsing a checkpoint document yields: the block number whose
/// canonical document the input is, if it is one.
pub open spec fn parse_checkpoint_spec(s: Seq<u8>) -> Option<u64> {
    if exists|n: u64| s == checkpoint_doc(n) {
        Some(choose|n: u64| s == checkpoint_doc(n))
    } else {
        None
    }
}

/// Parses a checkpoint document. Returns the block number exactly when the
/// input is the canonical document for it; anything else is rejected.
pub fn parse_checkpoint(s: &Vec<u8>) -> (r: Option<u64>)
    ensures
        r == parse_checkpoint_spec(s@),
{
    let prefix = checkpoint_prefix_vec();
    if s.len() < 18 {
        proof {
            assert forall|n: u64| s@ != #[trigger] checkpoint_doc(n) by {
                if s@ == checkpoint_doc(n) {
                    lemma_checkpoint_doc_shape(n);
                }
            }
        }
        return None;
    }
    let mut i: usize = 0;
    while i < 16
        invariant
            s@.len() >= 18,
            prefix@ == checkpoint_prefix(),
            i <= 16,
            forall|j: int| 0 <= j < i ==> s@[j] == checkpoint_prefix()[j],
        decreases 16 - i,
    {
        if s[i] != prefix[i] {
            proof {
                assert forall|n: u64| s@ != #[trigger] checkpoint_doc(n) by {
                    if s@ == checkpoint_doc(n) {
                        lemma_checkpoint_doc_shape(n);
                    }
                }
            }
            return None;
        }
        i = i + 1;
    }
    if s[s.len() - 1] != 0x7d {
        proof {
            assert forall|n: u64| s@ != #[trigger] checkpoint_doc(n) by {
                if s@ == checkpoint_doc(n) {
                    lemma_checkpoint_doc_shape(n);
                }
            }
        }
        return None;
    }
    // The digit region runs from the prefix to the closing brace.
    let dend = s.len() - 1;
    let ghost ds = s@.subrange(16, dend as int);
    if s[16] == 0x30 && dend != 17 {
        proof {
            assert forall|n: u64| s@ != #[trigger] checkpoint_doc(n) by {
                if s@ == checkpoint_doc(n) {
                    lemma_checkpoint_doc_shape(n);
                }
            }
        }
        return None;
    }
    let mut acc: u64 = 0;
    let mut k: usize = 16;
    while k < dend
        invariant
            s@.len() >= 18,
            dend == s@.len() - 1,
            16 <= k <= dend,
            ds == s@.subrange(16, dend as int),
            forall|j: int| 16 <= j < k ==> is_digit(#[trigger] s@[j]),
            acc as nat == dec_val(s@.subrange(16, k as int)),
        decreases dend - k,
    {
        let b = s[k];
        if b < 0x30 || b > 0x39 {
            proof {
                assert forall|n: u64| s@ != #[trigger] checkpoint_doc(n) by {
                    if s@ == checkpoint_doc(n) {
                        lemma_checkpoint_doc_shape(n);
                    }
                }
            }
            return None;
        }
        let d = b - 0x30;
        proof {
            assert(s@.subrange(16, k as int + 1).drop_last() =~= s@.subrange(16, k as int));
            assert(s@.subrange(16, k as int + 1).last() == s@[k as int]);
        }
        if acc > (u64::MAX - d as u64) / 10 {
            proof {
                assert(dec_val(s@.subrange(16, k as int + 1)) == acc as nat * 10 + (d as nat));
                assert(acc as nat * 10 + (d as nat) > u64::MAX) by (nonlinear_arith)
                    requires
                        acc as int > ((u64::MAX - d as u64) as int) / 10,
                        0 <= d <= 9,
                ;
                lemma_overflow_not_checkpoint_doc(s@, k as int);
            }
            return None;
        }
        proof {
            let m = u64::MAX as int;
            assert(acc as int <= (m - d) / 10);
            assert(10 * ((m - d) / 10) <= m - d) by (nonlinear_arith)
                requires
                    0 <= m - d,
            ;
            assert(acc as int * 10 + d <= m) by (nonlinear_arith)
                requires
                    acc as int <= (m - d) / 10,
                    10 * ((m - d) / 10) <= m - d,
            ;
        }
        acc = acc * 10 + d as u64;
        k = k + 1;
    }
    proof {
        assert(s@.subrange(16, dend as int) == ds);
        assert(is_canon_dec(ds)) by {
            assert(ds.len() == dend - 16 >= 1);
            assert(forall|i: int| 0 <= i < ds.len() ==> ds[i] == s@[16 + i]);
            assert(ds[0] == s@[16]);
        }
        lemma_canon_dec_unique(ds);
        assert(ds == dec_str(acc as nat));
        assert(s@ =~= checkpoint_doc(acc));
        assert(parse_checkpoint_spec(s@) == Some(acc)) by {
            assert(exists|n: u64| s@ == checkpoint_doc(n));
            let n0 = choose|n: u64| s@ == checkpoint_doc(n);
            lemma_checkpoint_doc_injective(n0, acc);
        }
    }
    Some(acc)
}

/// Two equal checkpoint documents carry one block number.
proof fn lemma_checkpoint_doc_injective(a: u64, b: u64)
    requires
        checkpoint_doc(a) == checkpoint_doc(b),
    ensures
        a == b,
{
    let da = dec_str(a as nat);
    let db = dec_str(b as nat);
    lemma_dec_str_canon(a as nat);
    lemma_dec_str_canon(b as nat);
    let sa = checkpoint_doc(a);
    let sb = checkpoint_doc(b);
    assert(sa.len() == 17 + da.len());
    assert(sb.len() == 17 + db.len());
    assert(da =~= sa.subrange(16, sa.len() - 1)) by {
        assert(forall|i: int| 0 <= i < da.len() ==> sa[16 + i] == da[i]);
    }
    assert(db =~= sb.subrange(16, sb.len() - 1)) by {
        assert(forall|i: int| 0 <= i < db.len() ==> sb[16 + i] == db[i]);
    }
    lemma_dec_str_injective(a as nat, b as nat);
}

/// The shape every checkpoint document has: the fixed prefix, at least one
/// digit, digits only, a leading zero only in the one-digit document, and
/// the closing brace.
proof fn lemma_checkpoint_doc_shape(n: u64)
    ensures
        checkpoint_doc(n).len() >= 18,
        checkpoint_doc(n)[checkpoint_doc(n).len() - 1] == 0x7du8,
        forall|j: int|
            0 <= j < 16 ==> #[trigger] checkpoint_doc(n)[j] == checkpoint_prefix()[j],
        forall|j: int|
            16 <= j < checkpoint_doc(n).len() - 1 ==> is_digit(#[trigger] checkpoint_doc(n)[j]),
        checkpoint_doc(n)[16] == 0x30 ==> checkpoint_doc(n).len() == 18,
{
    lemma_dec_str_canon(n as nat);
    let ds = dec_str(n as nat);
    let doc = checkpoint_doc(n);
    assert(doc.len() == 17 + ds.len());
    assert(forall|j: int| 0 <= j < 16 ==> #[trigger] doc[j] == checkpoint_prefix()[j]);
    assert forall|j: int| 16 <= j < doc.len() - 1 implies is_digit(#[trigger] doc[j]) by {
        assert(doc[j] == ds[j - 16]);
    }
    assert(doc[16] == ds[0]);
    if ds[0] == 0x30 {
        assert(ds.len() == 1);
    }
}

/// An accumulator about to overflow at position `k` contradicts the document
/// shape: a real document's digits denote a value that fits.
proof fn lemma_overflow_not_checkpoint_doc(s: Seq<u8>, k: int)
    requires
        16 <= k < s.len() - 1,
        dec_val(s.subrange(16, k + 1)) > u64::MAX,
    ensures
        forall|n: u64| s != #[trigger] checkpoint_doc(n),
{
    assert forall|n: u64| s != #[trigger] checkpoint_doc(n) by {
        if s == checkpoint_doc(n) {
            let ds = dec_str(n as nat);
            lemma_dec_str_canon(n as nat);
            assert(ds =~= s.subrange(16, s.len() - 1)) by {
                assert(s.len() == 17 + ds.len());
                assert(forall|i: int| 0 <= i < ds.len() ==> s[16 + i] == ds[i]);
            }
            assert(s.subrange(16, k + 1) =~= ds.take(k + 1 - 16));
            lemma_dec_val_take_le(ds, k + 1 - 16);
            assert(dec_val(ds) == n as nat);
        }
    }
}

/// The value of a digit-string prefix never exceeds the whole.
proof fn lemma_dec_val_take_le(ds: Seq<u8>, k: int)
    requires
        0 <= k <= ds.len(),
    ensures
        dec_val(ds.take(k)) <= dec_val(ds),
    decreases ds.len() - k,
{
    if k == ds.len() {
        assert(ds.take(k) =~= ds);
    } else {
        lemma_dec_val_take_le(ds, k + 1);
        let a = ds.take(k + 1);
        assert(a.drop_last() =~= ds.take(k));
        assert(dec_val(a) == dec_val(ds.take(k)) * 10 + if is_digit(a.last()) {
            (a.last() - 0x30) as nat
        } else {
            0
        });
        assert(dec_val(ds.take(k)) * 10 >= dec_val(ds.take(k))) by (nonlinear_arith)
            requires
                dec_val(ds.take(k)) >= 0,
        ;
    }
}

/// Parsing what was rendered yields the block number back: the persisted
/// checkpoint survives a restart unchanged.
pub proof fn lemma_checkpoint_round_trip(n: u64)
    ensures
        parse_checkpoint_spec(checkpoint_doc(n)) == Some(n),
{
    let s = checkpoint_doc(n);
    assert(exists|m: u64| s == checkpoint_doc(m));
    let m = choose|m: u64| s == checkpoint_doc(m);
    lemma_checkpoint_doc_injective(m, n);
}

// ---------------------------------------------------------------------------
// The 32-byte big-endian encoding of a task value, as the settlement
// contract's ABI lays a 256-bit word out. Values here fit 128 bits, so the
// upper half is zero.
// ---------------------------------------------------------------------------

pub open spec fn be_byte(v: u128, i: int) -> u8 {
    (v >> (((15 - i) * 8) as u128) & 0xff) as u8
}

/// The ABI word for `v`: sixteen zero bytes, then the sixteen bytes of `v`,
/// most significant first.
pub open spec fn abi_word(v: u128) -> Seq<u8> {
    Seq::new(32, |i: int| if i < 16 {
        0u8
    } else {
        be_byte(v, i - 16)
    })
}

/// Encodes `v` as the contract's 32-byte ABI word.
pub fn encode_abi_word(v: u128) -> (r: Vec<u8>)
    ensures
        r@ == abi_word(v),
{
    let mut out: Vec<u8> = Vec::new();
    let mut i: usize = 0;
    while i < 16
        invariant
            i <= 16,
            out@.len() == i,
            forall|j: int| 0 <= j < i ==> out@[j] == 0u8,
        decreases 16 - i,
    {
        out.push(0);
        i = i + 1;
    }
    let mut k: usize = 0;
    while k < 16
        invariant
            k <= 16,
            out@.len() == 16 + k,
            forall|j: int| 0 <= j < 16 ==> out@[j] == 0u8,
            forall|j: int| 0 <= j < k ==> out@[16 + j] == be_byte(v, j),
        decreases 16 - k,
    {
        let shift: u128 = ((15 - k) * 8) as u128;
        let b = ((v >> shift) & 0xff) as u8;
        proof {
            assert(b == be_byte(v, k as int));
        }
        out.push(b);
        k = k + 1;
    }
    proof {
        assert(out@ =~= abi_word(v));
    }
    out
}

} // verus!
