//! Elements of the scalar field of BN254, modelled by their integer value.
use vstd::prelude::*;
use vstd::arithmetic::div_mod::*;
use vstd::arithmetic::mul::*;
use vstd::arithmetic::power2::pow2;
use ff::{Field, PrimeField};
use halo2curves_axiom::bn256::Fr;

verus! {

/// The order of the scalar field.
pub open spec fn modulus() -> int {
    21888242871839275222246405745257275088548364400416034343698204186575808495617int
}

/// The largest `s` with `2^s` dividing `modulus() - 1`.
pub const TWO_ADICITY: u32 = 28;

/// Integer value of four little-endian 64-bit limbs.
pub open spec fn limbs_value(l: [u64; 4]) -> int {
    l[0] as int + l[1] as int * 0x1_0000_0000_0000_0000int
        + l[2] as int * 0x1_0000_0000_0000_0000_0000_0000_0000_0000int
        + l[3] as int * 0x1_0000_0000_0000_0000_0000_0000_0000_0000_0000_0000_0000_0000int
}

/// A field element, held as four little-endian limbs; its value is the limbs' integer
/// reduced modulo the field order.
#[derive(Clone, Copy, Debug, PartialEq, Eq)]
pub struct Fe {
    pub limbs: [u64; 4],
}

impl View for Fe {
    type V = int;

    open spec fn view(&self) -> int {
        limbs_value(self.limbs) % modulus()
    }
}

/// The values of a sequence of field elements.
pub open spec fn values(s: Seq<Fe>) -> Seq<int> {
    s.map_values(|f: Fe| f@)
}

/// `b` raised to the power `e` in the field.
pub open spec fn fpow(b: int, e: nat) -> int
    decreases e,
{
    if e == 0 {
        1
    } else {
        (b * fpow(b, (e - 1) as nat)) % modulus()
    }
}

/// `a` and `b` are multiplicative inverses.
pub open spec fn inverse_of(a: int, b: int) -> bool {
    (a * b) % modulus() == 1
}

impl Fe {
    /// The additive identity.
    pub fn zero() -> (r: Fe)
        ensures
            r@ == 0,
    {
        Fe { limbs: [0, 0, 0, 0] }
    }

    /// The multiplicative identity.
    pub fn one() -> (r: Fe)
        ensures
            r@ == 1,
    {
        Fe { limbs: [1, 0, 0, 0] }
    }

    /// The element whose value is `x`.
    pub fn from_u64(x: u64) -> (r: Fe)
        ensures
            r@ == x as int,
    {
        Fe { limbs: [x, 0, 0, 0] }
    }
}

/// Relies on the field addition of halo2curves' `Fr` (`from_raw` reduces limbs to their
/// congruent element, the `[u64; 4]` conversion gives the canonical limbs).
#[verifier::external_body]
pub(crate) fn fe_add(a: &Fe, b: &Fe) -> (r: Fe)
    ensures
        r@ == (a@ + b@) % modulus(),
{
    Fe { limbs: (Fr::from_raw(a.limbs) + Fr::from_raw(b.limbs)).into() }
}

/// Relies on the field subtraction of halo2curves' `Fr`.
#[verifier::external_body]
pub(crate) fn fe_sub(a: &Fe, b: &Fe) -> (r: Fe)
    ensures
        r@ == (a@ - b@) % modulus(),
{
    Fe { limbs: (Fr::from_raw(a.limbs) - Fr::from_raw(b.limbs)).into() }
}

/// Relies on the field multiplication of halo2curves' `Fr`.
#[verifier::external_body]
pub(crate) fn fe_mul(a: &Fe, b: &Fe) -> (r: Fe)
    ensures
        r@ == (a@ * b@) % modulus(),
{
    Fe { limbs: (Fr::from_raw(a.limbs) * Fr::from_raw(b.limbs)).into() }
}

/// Relies on ff's `Field::invert` on halo2curves' `Fr`: it fails exactly on zero.
#[verifier::external_body]
pub(crate) fn fe_invert(a: &Fe) -> (r: Option<Fe>)
    ensures
        r.is_some() <==> a@ != 0,
        r.is_some() ==> inverse_of(a@, r.unwrap()@),
{
    Option::<Fr>::from(Fr::from_raw(a.limbs).invert()).map(|x| Fe { limbs: x.into() })
}

/// Relies on ff's `Field::is_zero` on halo2curves' `Fr`.
#[verifier::external_body]
pub(crate) fn fe_is_zero(a: &Fe) -> (r: bool)
    ensures
        r == (a@ == 0),
{
    bool::from(Fr::from_raw(a.limbs).is_zero())
}

/// The field's two-adic root of unity, of order `2^TWO_ADICITY`.
pub open spec fn two_adic_root() -> int {
    1748695177688661943023146337482803886740723238769601073607632802312037301404int
}

/// The generator of the `2^k`-th roots of unity: `two_adic_root()^(2^(TWO_ADICITY - k))`.
pub open spec fn domain_root(k: nat) -> int {
    fpow(two_adic_root(), pow2((TWO_ADICITY - k) as nat))
}

/// Relies on ff's `PrimeField::ROOT_OF_UNITY` for halo2curves' `Fr`: the generator of the
/// field's multiplicative group raised to the odd part of `modulus() - 1`, so its order is
/// exactly `2^TWO_ADICITY`.
#[verifier::external_body]
pub(crate) fn fe_two_adic_root() -> (r: Fe)
    ensures
        r@ == two_adic_root(),
        fpow(r@, pow2(TWO_ADICITY as nat)) == 1,
        fpow(r@, pow2((TWO_ADICITY - 1) as nat)) == modulus() - 1,
{
    Fe { limbs: Fr::ROOT_OF_UNITY.into() }
}

/// `a` and `b` are congruent modulo the field order.
pub open spec fn cong(a: int, b: int) -> bool {
    a % modulus() == b % modulus()
}

/// A value is congruent to its reduction.
pub proof fn lemma_cong_mod(a: int)
    ensures
        cong(a % modulus(), a),
{
    lemma_mod_twice(a, modulus());
}

/// A reduced value congruent to `b` is `b`'s reduction.
pub proof fn lemma_cong_reduced(a: int, b: int)
    requires
        0 <= a < modulus(),
        cong(a, b),
    ensures
        a == b % modulus(),
{
    lemma_small_mod(a as nat, modulus() as nat);
}

/// Congruence is kept by addition.
pub proof fn lemma_cong_add(a: int, b: int, c: int, d: int)
    requires
        cong(a, b),
        cong(c, d),
    ensures
        cong(a + c, b + d),
{
    lemma_add_mod_noop(a, c, modulus());
    lemma_add_mod_noop(b, d, modulus());
}

/// Congruence is kept by subtraction.
pub proof fn lemma_cong_sub(a: int, b: int, c: int, d: int)
    requires
        cong(a, b),
        cong(c, d),
    ensures
        cong(a - c, b - d),
{
    lemma_sub_mod_noop(a, c, modulus());
    lemma_sub_mod_noop(b, d, modulus());
}

/// Congruence is kept by multiplication.
pub proof fn lemma_cong_mul(a: int, b: int, c: int, d: int)
    requires
        cong(a, b),
        cong(c, d),
    ensures
        cong(a * c, b * d),
{
    lemma_mul_mod_noop(a, c, modulus());
    lemma_mul_mod_noop(b, d, modulus());
}

/// Powers of an element stay reduced.
pub proof fn lemma_fpow_range(b: int, e: nat)
    ensures
        0 <= fpow(b, e) < modulus(),
{
    if e > 0 {
        lemma_mod_bound(b * fpow(b, (e - 1) as nat), modulus());
    }
}

/// `b^(m + n) == b^m * b^n`.
pub proof fn lemma_fpow_add(b: int, m: nat, n: nat)
    ensures
        fpow(b, m + n) == (fpow(b, m) * fpow(b, n)) % modulus(),
    decreases m,
{
    let p = modulus();
    lemma_fpow_range(b, n);
    if m == 0 {
        assert(fpow(b, m + n) == fpow(b, n));
        lemma_small_mod(fpow(b, n) as nat, p as nat);
    } else {
        let m1 = (m - 1) as nat;
        lemma_fpow_add(b, m1, n);
        assert(m1 + n + 1 == m + n);
        assert(fpow(b, m + n) == (b * fpow(b, (m1 + n) as nat)) % p);
        lemma_mul_mod_noop_right(b, fpow(b, m1) * fpow(b, n), p);
        lemma_mul_is_associative(b, fpow(b, m1), fpow(b, n));
        lemma_mul_mod_noop_left(b * fpow(b, m1), fpow(b, n), p);
    }
}

/// `b^(m * n) == (b^m)^n`.
pub proof fn lemma_fpow_mul(b: int, m: nat, n: nat)
    ensures
        fpow(b, m * n) == fpow(fpow(b, m), n),
    decreases n,
{
    if n > 0 {
        let n1 = (n - 1) as nat;
        lemma_fpow_mul(b, m, n1);
        assert(m * n == m + m * n1) by (nonlinear_arith)
            requires
                n1 + 1 == n,
        ;
        lemma_fpow_add(b, m, m * n1);
    } else {
        assert(m * n == 0) by (nonlinear_arith)
            requires
                n == 0,
        ;
    }
}

/// A primitive `2^k`-th root of unity: `r^(2^k) == 1` and, for `k > 0`, `r^(2^(k-1)) == -1`.
pub open spec fn is_primitive_root(r: int, k: nat) -> bool {
    &&& fpow(r, pow2(k)) == 1
    &&& k > 0 ==> fpow(r, pow2((k - 1) as nat)) == modulus() - 1
}

/// Every power of one is one.
pub proof fn lemma_fpow_one(n: nat)
    ensures
        fpow(1, n) == 1,
    decreases n,
{
    if n > 0 {
        lemma_fpow_one((n - 1) as nat);
        lemma_small_mod(1, modulus() as nat);
    }
}

/// Powers of minus one alternate between one and minus one.
pub proof fn lemma_fpow_minus_one(n: nat)
    ensures
        fpow(modulus() - 1, n) == if n % 2 == 0 { 1 } else { modulus() - 1 },
    decreases n,
{
    let p = modulus();
    if n > 0 {
        let n1 = (n - 1) as nat;
        lemma_fpow_minus_one(n1);
        if n1 % 2 == 0 {
            assert((p - 1) * 1 == p - 1);
            lemma_small_mod((p - 1) as nat, p as nat);
        } else {
            assert((p - 1) * (p - 1) == p * (p - 2) + 1) by (nonlinear_arith);
            lemma_mod_multiples_vanish(p - 2, 1, p);
            lemma_small_mod(1, p as nat);
        }
    }
}

/// A primitive `2^k`-th root of unity has no period below `2^k`.
pub proof fn lemma_no_small_period(r: int, k: nat, d: nat)
    requires
        is_primitive_root(r, k),
        0 < d < pow2(k),
    ensures
        fpow(r, d) != 1,
    decreases k,
{
    let p = modulus();
    if fpow(r, d) != 1 {
    } else if k == 0 {
        vstd::arithmetic::power2::lemma2_to64();
    } else {
        let h = pow2((k - 1) as nat);
        vstd::arithmetic::power2::lemma_pow2_unfold(k);
        if d % 2 == 1 {
            lemma_fpow_mul(r, h, d);
            lemma_fpow_mul(r, d, h);
            assert(h * d == d * h) by (nonlinear_arith);
            lemma_fpow_minus_one(d);
            lemma_fpow_one(h);
        } else {
            let d2 = d / 2;
            assert(d == 2 * d2);
            let r2 = fpow(r, 2);
            assert(k >= 2) by {
                if k == 1 {
                    vstd::arithmetic::power2::lemma2_to64();
                }
            }
            let k1 = (k - 1) as nat;
            vstd::arithmetic::power2::lemma_pow2_unfold(k1);
            let h2 = pow2((k1 - 1) as nat);
            lemma_fpow_mul(r, 2, h);
            lemma_fpow_mul(r, 2, h2);
            lemma_fpow_mul(r, 2, d2);
            assert(is_primitive_root(r2, k1));
            lemma_no_small_period(r2, k1, d2);
        }
    }
}

/// The powers `r^i`, `i < 2^k`, of a primitive `2^k`-th root of unity are pairwise distinct.
pub proof fn lemma_root_powers_distinct(r: int, k: nat, i: nat, j: nat)
    requires
        is_primitive_root(r, k),
        i < j < pow2(k),
    ensures
        fpow(r, i) != fpow(r, j),
{
    if fpow(r, i) == fpow(r, j) {
        let p = modulus();
        let d = (j - i) as nat;
        let m = pow2(k);
        let u = fpow(r, i);
        let e = fpow(r, d);
        let v = fpow(r, (m - i) as nat);
        lemma_fpow_add(r, i, d);
        lemma_fpow_add(r, i, (m - i) as nat);
        lemma_fpow_range(r, d);
        // u == u * e, so 1 == u * v == u * e * v == e
        lemma_small_mod(1, p as nat);
        lemma_cong_mod(u * e);
        lemma_cong_mul(u, u * e, v, v);
        assert((u * e) * v == (u * v) * e) by (nonlinear_arith);
        lemma_cong_mod(u * v);
        lemma_cong_mul(u * v, 1, e, e);
        assert(1 * e == e);
        lemma_cong_reduced(e, 1);
        lemma_no_small_period(r, k, d);
    }
}

/// The generator of the `2^k`-th roots of unity: the field's two-adic root raised to
/// `2^(TWO_ADICITY - k)`. `None` when `k` exceeds the two-adicity: there is no such root.
pub fn root_of_unity(k: u32) -> (r: Option<Fe>)
    ensures
        r is None <==> k > TWO_ADICITY,
        r matches Some(w) ==> w@ == domain_root(k as nat) && is_primitive_root(w@, k as nat),
{
    if k > TWO_ADICITY {
        return None;
    }
    let root = fe_two_adic_root();
    let mut r = root;
    let steps: u32 = TWO_ADICITY - k;
    let mut i: u32 = 0;
    proof {
        vstd::arithmetic::power2::lemma2_to64();
        reveal_with_fuel(fpow, 2);
        assert(fpow(root@, 1) == (root@ * 1) % modulus());
    }
    while i < steps
        invariant
            i <= steps,
            steps == TWO_ADICITY - k,
            r@ == fpow(root@, pow2(i as nat)),
        decreases steps - i,
    {
        let ghost before = r@;
        r = fe_mul(&r, &r);
        proof {
            lemma_fpow_add(root@, pow2(i as nat), pow2(i as nat));
            vstd::arithmetic::power2::lemma_pow2_unfold((i + 1) as nat);
        }
        i = i + 1;
    }
    proof {
        let s = steps as nat;
        vstd::arithmetic::power2::lemma_pow2_adds(s, k as nat);
        lemma_fpow_mul(root@, pow2(s), pow2(k as nat));
        if k > 0 {
            vstd::arithmetic::power2::lemma_pow2_adds(s, (k - 1) as nat);
            lemma_fpow_mul(root@, pow2(s), pow2((k - 1) as nat));
        }
    }
    Some(r)
}

/// The generator of the `2^k`-th roots of unity squared is the generator of the
/// `2^(k-1)`-th roots of unity.
pub proof fn lemma_domain_root_square(k: nat)
    requires
        1 <= k <= TWO_ADICITY,
    ensures
        (domain_root(k) * domain_root(k)) % modulus() == domain_root((k - 1) as nat),
{
    let e = pow2((TWO_ADICITY - k) as nat);
    lemma_fpow_add(two_adic_root(), e, e);
    vstd::arithmetic::power2::lemma_pow2_unfold((TWO_ADICITY - k + 1) as nat);
    assert((TWO_ADICITY - (k - 1)) as nat == (TWO_ADICITY - k + 1) as nat);
}

} // verus!
