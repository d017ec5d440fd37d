use vstd::prelude::*;

use ark_bn254::{Bn254, Fq, Fq2, Fr, G1Affine, G2Affine};
use ark_ec::pairing::Pairing;
use ark_ec::{AffineRepr, CurveGroup};
use ark_ff::{BigInt, PrimeField};

use crate::points::{g1_in_range, g2_in_range, FqRepr, G1Repr, G2Repr};
use crate::registry::{BlsPublicKey, OpId};

verus! {

// ---------------------------------------------------------------------------
// The cryptographic capabilities the pipeline consumes. Each is an outside
// call behind a trusted wrapper; what a call returns is given a name, and
// every verified contract speaks through these names.
// ---------------------------------------------------------------------------

/// The Keccak-256 digest of a byte string.
pub uninterp spec fn keccak_of(bytes: Seq<u8>) -> Seq<u8>;

/// Relies on alloy_primitives::keccak256: the 32-byte Keccak-256 digest of
/// the input, a function of the input bytes alone.
#[verifier::external_body]
pub fn keccak256(bytes: &Vec<u8>) -> (r: Vec<u8>)
    ensures
        r@ == keccak_of(bytes@),
        r@.len() == 32,
{
    alloy_primitives::keccak256(bytes.as_slice()).to_vec()
}

/// The address recovered from a 65-byte signature and a message, under
/// EIP-191 prefixing; nothing when the signature bytes or the recovery fail.
pub uninterp spec fn ecrecover_of(sig: Seq<u8>, msg: Seq<u8>) -> Option<(u32, u128)>;

pub open spec fn opid_parts(r: Option<OpId>) -> Option<(u32, u128)> {
    match r {
        Some(id) => Some((id.hi, id.lo)),
        None => None,
    }
}

/// Relies on alloy_primitives::Signature: from_raw parses the 65 bytes, and
/// recover_address_from_msg recovers the signer of the EIP-191-prefixed
/// message. Both are functions of the two inputs alone; every failure is
/// `None`.
#[verifier::external_body]
pub fn ecrecover_message(sig: &Vec<u8>, msg: &Vec<u8>) -> (r: Option<OpId>)
    ensures
        opid_parts(r) == ecrecover_of(sig@, msg@),
{
    let parsed = match alloy_primitives::Signature::from_raw(sig.as_slice()) {
        Ok(s) => s,
        Err(_) => return None,
    };
    let addr = match parsed.recover_address_from_msg(msg.as_slice()) {
        Ok(a) => a,
        Err(_) => return None,
    };
    let b = addr.into_array();
    let hi = u32::from_be_bytes([b[0], b[1], b[2], b[3]]);
    let mut lo_bytes = [0u8; 16];
    lo_bytes.copy_from_slice(&b[4..20]);
    Some(OpId { hi, lo: u128::from_be_bytes(lo_bytes) })
}

/// The signature the threshold scheme produces from a 32-byte secret and a
/// message hash.
pub uninterp spec fn bls_sign_of(secret: Seq<u8>, hash: Seq<u8>) -> G1Repr;

/// Relies on ark_bn254 and ark_ec: the signature is the G1 generator scaled
/// by the secret scalar and the hash scalar, both read with
/// Fr::from_le_bytes_mod_order; a function of the two inputs alone, and
/// into_bigint returns canonical (in-range) limbs.
#[verifier::external_body]
pub fn bls_sign(secret: &Vec<u8>, hash: &Vec<u8>) -> (r: G1Repr)
    ensures
        r == bls_sign_of(secret@, hash@),
        g1_in_range(r),
{
    let sk = Fr::from_le_bytes_mod_order(secret.as_slice());
    let h = Fr::from_le_bytes_mod_order(hash.as_slice());
    let s = (G1Affine::generator() * (sk * h)).into_affine();
    let out = |f: Fq| FqRepr { l: f.into_bigint().0 };
    G1Repr { x: out(s.x), y: out(s.y) }
}

/// The public-key pair derived from a 32-byte secret.
pub uninterp spec fn bls_pubkey_of(secret: Seq<u8>) -> BlsPublicKey;

/// Relies on ark_bn254 and ark_ec: the G1 and G2 generators scaled by the
/// secret scalar; a function of the secret alone, with canonical limbs.
#[verifier::external_body]
pub fn bls_derive_pubkey(secret: &Vec<u8>) -> (r: BlsPublicKey)
    ensures
        r == bls_pubkey_of(secret@),
        g1_in_range(r.g1),
        g2_in_range(r.g2),
{
    let sk = Fr::from_le_bytes_mod_order(secret.as_slice());
    let p1 = (G1Affine::generator() * sk).into_affine();
    let p2 = (G2Affine::generator() * sk).into_affine();
    let out = |f: Fq| FqRepr { l: f.into_bigint().0 };
    BlsPublicKey {
        g1: G1Repr { x: out(p1.x), y: out(p1.y) },
        g2: G2Repr { x_c0: out(p2.x.c0), x_c1: out(p2.x.c1), y_c0: out(p2.y.c0), y_c1: out(p2.y.c1) },
    }
}

/// Whether a signature point verifies against a G2 public key over a message
/// hash, by the pairing check.
pub uninterp spec fn bls_verifies_of(pk_g2: G2Repr, sig: G1Repr, hash: Seq<u8>) -> bool;

/// Relies on ark_bn254 and ark_ec: both points are decoded from canonical
/// limbs, rejected unless on the curve and in the subgroup, and accepted
/// exactly when e(sig, g2) equals e(h·g1, pk) for the hash scalar h; a
/// function of the three inputs alone.
#[verifier::external_body]
pub fn bls_verify(pk_g2: &G2Repr, sig: &G1Repr, hash: &Vec<u8>) -> (r: bool)
    requires
        g2_in_range(*pk_g2),
        g1_in_range(*sig),
    ensures
        r == bls_verifies_of(*pk_g2, *sig, hash@),
{
    let fq = |v: &FqRepr| Fq::from_bigint(BigInt::new(v.l)).unwrap();
    let s = G1Affine::new_unchecked(fq(&sig.x), fq(&sig.y));
    let p = G2Affine::new_unchecked(
        Fq2::new(fq(&pk_g2.x_c0), fq(&pk_g2.x_c1)),
        Fq2::new(fq(&pk_g2.y_c0), fq(&pk_g2.y_c1)),
    );
    if !s.is_on_curve() || !p.is_on_curve() || !p.is_in_correct_subgroup_assuming_on_curve() {
        return false;
    }
    let h = Fr::from_le_bytes_mod_order(hash.as_slice());
    let hg = (G1Affine::generator() * h).into_affine();
    Bn254::pairing(s, G2Affine::generator()) == Bn254::pairing(hg, p)
}

/// The sum of two G1 points.
pub uninterp spec fn g1_add_of(a: G1Repr, b: G1Repr) -> G1Repr;

/// Relies on ark_bn254 and ark_ec: elliptic-curve point addition in G1, a
/// function of the two operands alone; into_bigint returns canonical limbs.
#[verifier::external_body]
pub fn g1_add(a: &G1Repr, b: &G1Repr) -> (r: G1Repr)
    requires
        g1_in_range(*a),
        g1_in_range(*b),
    ensures
        r == g1_add_of(*a, *b),
        g1_in_range(r),
{
    let fq = |v: &FqRepr| Fq::from_bigint(BigInt::new(v.l)).unwrap();
    let p = G1Affine::new_unchecked(fq(&a.x), fq(&a.y));
    let q = G1Affine::new_unchecked(fq(&b.x), fq(&b.y));
    let s = (p.into_group() + q).into_affine();
    let out = |f: Fq| FqRepr { l: f.into_bigint().0 };
    G1Repr { x: out(s.x), y: out(s.y) }
}

/// The sum of two G2 points.
pub uninterp spec fn g2_add_of(a: G2Repr, b: G2Repr) -> G2Repr;

/// Relies on ark_bn254 and ark_ec: elliptic-curve point addition in G2, a
/// function of the two operands alone; into_bigint returns canonical limbs.
#[verifier::external_body]
pub fn g2_add(a: &G2Repr, b: &G2Repr) -> (r: G2Repr)
    requires
        g2_in_range(*a),
        g2_in_range(*b),
    ensures
        r == g2_add_of(*a, *b),
        g2_in_range(r),
{
    let fq = |v: &FqRepr| Fq::from_bigint(BigInt::new(v.l)).unwrap();
    let pt = |g: &G2Repr| G2Affine::new_unchecked(
        Fq2::new(fq(&g.x_c0), fq(&g.x_c1)),
        Fq2::new(fq(&g.y_c0), fq(&g.y_c1)),
    );
    let s = (pt(a).into_group() + pt(b)).into_affine();
    let out = |f: Fq| FqRepr { l: f.into_bigint().0 };
    G2Repr { x_c0: out(s.x.c0), x_c1: out(s.x.c1), y_c0: out(s.y.c0), y_c1: out(s.y.c1) }
}

/// Relies on chrono::Utc::now: the wall clock's milliseconds since the epoch.
/// Nothing is promised of it; two calls may differ.
#[verifier::external_body]
pub fn utc_now_millis() -> (r: i64) {
    chrono::Utc::now().timestamp_millis()
}

} // verus!
