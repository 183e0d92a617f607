//! Points of the BN254 groups, held as their uncompressed affine encodings, and evaluation
//! of polynomials "at the secret point" through powers held in the group.
use vstd::prelude::*;
use crate::field::Fe;
use crate::poly::{coeff, Polynomial};
use halo2curves_axiom::bn256::{Fr, G1Affine, G2Affine};
use halo2curves_axiom::group::Curve;
use halo2curves_axiom::serde::SerdeObject;

verus! {

/// Length of the encoding of a point of G1.
pub const G1_BYTES: usize = 64;

/// Length of the encoding of a point of G2.
pub const G2_BYTES: usize = 128;

/// The encoding of the generator of G1 multiplied by the scalar `s`.
pub uninterp spec fn g1_gen_mul(s: int) -> Seq<u8>;

/// The encoding of the generator of G2 multiplied by the scalar `s`.
pub uninterp spec fn g2_gen_mul(s: int) -> Seq<u8>;

/// The encoding of the G1 point encoded by `p` multiplied by the scalar `s`.
pub uninterp spec fn g1_scaled(p: Seq<u8>, s: int) -> Seq<u8>;

/// The encoding of the sum of the G1 points encoded by `a` and `b`.
pub uninterp spec fn g1_sum(a: Seq<u8>, b: Seq<u8>) -> Seq<u8>;

/// A point of G1.
#[derive(Debug, PartialEq, Eq)]
pub struct G1Point {
    bytes: Vec<u8>,
}

/// A point of G2.
#[derive(Debug, PartialEq, Eq)]
pub struct G2Point {
    bytes: Vec<u8>,
}

impl G1Point {
    /// Every point is held as an encoding of the right length.
    #[verifier::type_invariant]
    spec fn inv(&self) -> bool {
        self.bytes@.len() == G1_BYTES
    }
}

impl View for G1Point {
    type V = Seq<u8>;

    closed spec fn view(&self) -> Seq<u8> {
        self.bytes@
    }
}

impl G2Point {
    /// Every point is held as an encoding of the right length.
    #[verifier::type_invariant]
    spec fn inv(&self) -> bool {
        self.bytes@.len() == G2_BYTES
    }
}

impl View for G2Point {
    type V = Seq<u8>;

    closed spec fn view(&self) -> Seq<u8> {
        self.bytes@
    }
}

impl G1Point {
    /// The point's encoding: the affine coordinates, little-endian limbs in Montgomery form.
    pub fn to_bytes(&self) -> (r: Vec<u8>)
        ensures
            r@ == self@,
    {
        let mut out: Vec<u8> = Vec::new();
        let mut i: usize = 0;
        while i < self.bytes.len()
            invariant
                i <= self.bytes@.len(),
                out@ == self.bytes@.subrange(0, i as int),
            decreases self.bytes@.len() - i,
        {
            out.push(self.bytes[i]);
            i = i + 1;
            assert(out@ =~= self.bytes@.subrange(0, i as int));
        }
        assert(self.bytes@.subrange(0, i as int) =~= self.bytes@);
        out
    }

    /// A copy of the point.
    pub fn copy(&self) -> (r: G1Point)
        ensures
            r@ == self@,
    {
        proof {
            use_type_invariant(self);
        }
        G1Point { bytes: self.to_bytes() }
    }
}

impl G2Point {
    /// The point's encoding: the affine coordinates, little-endian limbs in Montgomery form.
    pub fn to_bytes(&self) -> (r: Vec<u8>)
        ensures
            r@ == self@,
    {
        let mut out: Vec<u8> = Vec::new();
        let mut i: usize = 0;
        while i < self.bytes.len()
            invariant
                i <= self.bytes@.len(),
                out@ == self.bytes@.subrange(0, i as int),
            decreases self.bytes@.len() - i,
        {
            out.push(self.bytes[i]);
            i = i + 1;
            assert(out@ =~= self.bytes@.subrange(0, i as int));
        }
        assert(self.bytes@.subrange(0, i as int) =~= self.bytes@);
        out
    }
}

/// Relies on halo2curves' `G1Affine::generator`, scalar multiplication by `Fr` and the raw
/// affine encoding of `SerdeObject` (two 32-byte coordinates).
#[verifier::external_body]
pub(crate) fn g1_gen_times(s: &Fe) -> (r: G1Point)
    ensures
        r@ == g1_gen_mul(s@),
        r@.len() == G1_BYTES,
{
    let p = (G1Affine::generator() * Fr::from_raw(s.limbs)).to_affine();
    G1Point { bytes: p.to_raw_bytes() }
}

/// Relies on halo2curves' `G2Affine::generator`, scalar multiplication by `Fr` and the raw
/// affine encoding of `SerdeObject` (two 64-byte coordinates).
#[verifier::external_body]
pub(crate) fn g2_gen_times(s: &Fe) -> (r: G2Point)
    ensures
        r@ == g2_gen_mul(s@),
        r@.len() == G2_BYTES,
{
    let p = (G2Affine::generator() * Fr::from_raw(s.limbs)).to_affine();
    G2Point { bytes: p.to_raw_bytes() }
}

/// Relies on halo2curves' scalar multiplication of a `G1Affine` by `Fr`; the point is read
/// back with `SerdeObject::from_raw_bytes_unchecked`, which takes exactly 64 bytes.
#[verifier::external_body]
pub(crate) fn g1_mul(p: &G1Point, s: &Fe) -> (r: G1Point)
    requires
        p@.len() == G1_BYTES,
    ensures
        r@ == g1_scaled(p@, s@),
        r@.len() == G1_BYTES,
{
    let a = G1Affine::from_raw_bytes_unchecked(&p.bytes);
    G1Point { bytes: (a * Fr::from_raw(s.limbs)).to_affine().to_raw_bytes() }
}

/// Relies on halo2curves' addition of G1 points.
#[verifier::external_body]
pub(crate) fn g1_add(a: &G1Point, b: &G1Point) -> (r: G1Point)
    requires
        a@.len() == G1_BYTES,
        b@.len() == G1_BYTES,
    ensures
        r@ == g1_sum(a@, b@),
        r@.len() == G1_BYTES,
{
    let x = G1Affine::from_raw_bytes_unchecked(&a.bytes);
    let y = G1Affine::from_raw_bytes_unchecked(&b.bytes);
    G1Point { bytes: (x + y).to_affine().to_raw_bytes() }
}

/// The encodings of a sequence of points.
pub open spec fn encodings(s: Seq<G1Point>) -> Seq<Seq<u8>> {
    s.map_values(|p: G1Point| p@)
}

/// `sum of c[i] * pts[i]` over the coefficients `c` (at least one term: the empty
/// polynomial counts as the constant zero).
pub open spec fn msm(c: Seq<int>, pts: Seq<Seq<u8>>) -> Seq<u8>
    decreases c.len(),
{
    if c.len() <= 1 {
        g1_scaled(pts[0], coeff(c, 0))
    } else {
        g1_sum(msm(c.drop_last(), pts), g1_scaled(pts[c.len() - 1], c.last()))
    }
}

/// The number of powers needed to evaluate `c`.
pub open spec fn terms(c: Seq<int>) -> nat {
    if c.len() == 0 {
        1
    } else {
        c.len()
    }
}

/// Evaluates a polynomial at the secret point hidden in `powers` (`powers[i]` is the
/// generator times the `i`-th power of the secret): the combination
/// `sum of coeffs[i] * powers[i]`. `None` when there are fewer powers than coefficients.
pub fn evaluate_at_srs(p: &Polynomial, powers: &Vec<G1Point>) -> (r: Option<G1Point>)
    ensures
        r is None <==> powers@.len() < terms(p@),
        r matches Some(g) ==> g@ == msm(p@, encodings(powers@)),
{
    let n = p.coeffs.len();
    if powers.len() < n || powers.len() == 0 {
        return None;
    }
    let ghost pts = encodings(powers@);
    let c0 = p.coeff_at(0);
    let first = &powers[0];
    proof {
        use_type_invariant(first);
    }
    let mut acc = g1_mul(first, &c0);
    assert(pts[0] == powers@[0]@);
    if n == 0 {
        return Some(acc);
    }
    assert(msm(p@.subrange(0, 1), pts) == g1_scaled(pts[0], coeff(p@.subrange(0, 1), 0)));
    let mut i: usize = 1;
    while i < n
        invariant
            1 <= i <= n,
            n == p@.len(),
            n <= powers@.len(),
            pts == encodings(powers@),
            acc@.len() == G1_BYTES,
            acc@ == msm(p@.subrange(0, i as int), pts),
        decreases n - i,
    {
        let pt = &powers[i];
        proof {
            use_type_invariant(pt);
        }
        let t = g1_mul(pt, &p.coeffs[i]);
        let ghost prev = acc@;
        acc = g1_add(&acc, &t);
        proof {
            let s = p@.subrange(0, i + 1);
            assert(s.drop_last() =~= p@.subrange(0, i as int));
            assert(pts[i as int] == powers@[i as int]@);
        }
        i = i + 1;
    }
    assert(p@.subrange(0, n as int) =~= p@);
    Some(acc)
}

} // verus!
