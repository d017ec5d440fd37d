use vstd::prelude::*;

verus! {

// The BN254 base-field modulus, as four little-endian 64-bit limbs:
// 21888242871839275222246405745257275088696311157297823662689037894645226208583.
pub const FQ_MOD_L0: u64 = 0x3C208C16D87CFD47;
pub const FQ_MOD_L1: u64 = 0x97816A916871CA8D;
pub const FQ_MOD_L2: u64 = 0xB85045B68181585D;
pub const FQ_MOD_L3: u64 = 0x30644E72E131A029;

/// An element of the BN254 base field, as its canonical little-endian limbs.
#[derive(Clone, Copy, PartialEq, Eq, Debug)]
pub struct FqRepr {
    pub l: [u64; 4],
}

/// A point of the BN254 group G1, in affine coordinates.
#[derive(Clone, Copy, PartialEq, Eq, Debug)]
pub struct G1Repr {
    pub x: FqRepr,
    pub y: FqRepr,
}

/// A point of the BN254 group G2, in affine coordinates over the quadratic
/// extension field (each coordinate has two components).
#[derive(Clone, Copy, PartialEq, Eq, Debug)]
pub struct G2Repr {
    pub x_c0: FqRepr,
    pub x_c1: FqRepr,
    pub y_c0: FqRepr,
    pub y_c1: FqRepr,
}

/// Whether `a` holds a canonical field element, that is, limbs strictly
/// below the modulus.
pub open spec fn fq_in_range(a: FqRepr) -> bool {
    a.l[3] < FQ_MOD_L3 || (a.l[3] == FQ_MOD_L3 && (a.l[2] < FQ_MOD_L2 || (a.l[2] == FQ_MOD_L2 && (
    a.l[1] < FQ_MOD_L1 || (a.l[1] == FQ_MOD_L1 && a.l[0] < FQ_MOD_L0)))))
}

pub open spec fn g1_in_range(p: G1Repr) -> bool {
    fq_in_range(p.x) && fq_in_range(p.y)
}

pub open spec fn g2_in_range(p: G2Repr) -> bool {
    fq_in_range(p.x_c0) && fq_in_range(p.x_c1) && fq_in_range(p.y_c0) && fq_in_range(p.y_c1)
}

/// Checks that `a` holds a canonical field element.
pub fn fq_repr_in_range(a: &FqRepr) -> (r: bool)
    ensures
        r == fq_in_range(*a),
{
    a.l[3] < FQ_MOD_L3 || (a.l[3] == FQ_MOD_L3 && (a.l[2] < FQ_MOD_L2 || (a.l[2] == FQ_MOD_L2 && (
    a.l[1] < FQ_MOD_L1 || (a.l[1] == FQ_MOD_L1 && a.l[0] < FQ_MOD_L0)))))
}

/// Checks that both coordinates of a G1 point are canonical field elements.
pub fn g1_repr_in_range(p: &G1Repr) -> (r: bool)
    ensures
        r == g1_in_range(*p),
{
    fq_repr_in_range(&p.x) && fq_repr_in_range(&p.y)
}

/// Checks that all coordinate components of a G2 point are canonical field
/// elements.
pub fn g2_repr_in_range(p: &G2Repr) -> (r: bool)
    ensures
        r == g2_in_range(*p),
{
    fq_repr_in_range(&p.x_c0) && fq_repr_in_range(&p.x_c1) && fq_repr_in_range(&p.y_c0)
        && fq_repr_in_range(&p.y_c1)
}

} // verus!
