//! Polynomials in coefficient form over the scalar field.
use vstd::prelude::*;
use vstd::arithmetic::power2::pow2;
use crate::field::{
    fpow, lemma_cong_add, lemma_cong_mod, lemma_cong_mul, lemma_cong_reduced, lemma_cong_sub,
    fe_add, fe_invert, fe_is_zero, fe_mul, fe_sub, inverse_of, is_primitive_root,
    lemma_root_powers_distinct, lemma_fpow_range, modulus, values, Fe,
};

verus! {

/// Coefficient `i` of `c`, zero beyond its end.
pub open spec fn coeff(c: Seq<int>, i: int) -> int {
    if 0 <= i < c.len() {
        c[i]
    } else {
        0
    }
}

/// `c` without its constant term.
pub open spec fn tail(c: Seq<int>) -> Seq<int> {
    if c.len() == 0 {
        c
    } else {
        c.drop_first()
    }
}

/// The value at `x` of the polynomial with coefficients `c` (constant term first).
pub open spec fn peval(c: Seq<int>, x: int) -> int
    decreases c.len(),
{
    if c.len() == 0 {
        0
    } else {
        (c[0] + x * peval(c.drop_first(), x)) % modulus()
    }
}

/// The coefficients of `a + s * b`.
pub open spec fn lin_spec(a: Seq<int>, b: Seq<int>, s: int) -> Seq<int> {
    Seq::new(
        if a.len() >= b.len() { a.len() } else { b.len() },
        |i: int| (coeff(a, i) + s * coeff(b, i)) % modulus(),
    )
}

/// The coefficients of `a + b`.
pub open spec fn add_spec(a: Seq<int>, b: Seq<int>) -> Seq<int> {
    Seq::new(
        if a.len() >= b.len() { a.len() } else { b.len() },
        |i: int| (coeff(a, i) + coeff(b, i)) % modulus(),
    )
}

/// The coefficients of `a - b`.
pub open spec fn sub_spec(a: Seq<int>, b: Seq<int>) -> Seq<int> {
    Seq::new(
        if a.len() >= b.len() { a.len() } else { b.len() },
        |i: int| (coeff(a, i) - coeff(b, i)) % modulus(),
    )
}

/// The coefficients of `s * a`.
pub open spec fn scale_spec(a: Seq<int>, s: int) -> Seq<int> {
    Seq::new(a.len(), |i: int| (s * a[i]) % modulus())
}

/// The coefficients of `X^n * a`.
pub open spec fn shift_spec(a: Seq<int>, n: nat) -> Seq<int> {
    Seq::new(n, |i: int| 0int) + a
}

/// Values of polynomials are reduced.
pub proof fn lemma_peval_range(c: Seq<int>, x: int)
    ensures
        0 <= peval(c, x) < modulus(),
{
    if c.len() > 0 {
        vstd::arithmetic::div_mod::lemma_mod_bound(c[0] + x * peval(c.drop_first(), x), modulus());
    }
}

/// Horner's step, also for the empty polynomial.
pub proof fn lemma_peval_unfold(c: Seq<int>, x: int)
    ensures
        peval(c, x) == (coeff(c, 0) + x * peval(tail(c), x)) % modulus(),
{
}

/// The value of `a + s * b` is `a(x) + s * b(x)`.
pub proof fn lemma_peval_lin(a: Seq<int>, b: Seq<int>, s: int, x: int)
    ensures
        peval(lin_spec(a, b, s), x) == (peval(a, x) + s * peval(b, x)) % modulus(),
    decreases a.len() + b.len(),
{
    let r = lin_spec(a, b, s);
    let pa = peval(a, x);
    let pb = peval(b, x);
    if r.len() == 0 {
        assert(pa == 0 && pb == 0);
        assert(s * 0 == 0);
    } else {
        let ta = tail(a);
        let tb = tail(b);
        assert(r.drop_first() =~= lin_spec(ta, tb, s));
        lemma_peval_lin(ta, tb, s, x);
        let qa = peval(ta, x);
        let qb = peval(tb, x);
        let qr = peval(r.drop_first(), x);
        let a0 = coeff(a, 0);
        let b0 = coeff(b, 0);
        lemma_peval_unfold(a, x);
        lemma_peval_unfold(b, x);
        lemma_peval_range(r, x);
        // r(x) == r0 + x * r'(x)  ~  a0 + s b0 + x (qa + s qb)
        lemma_cong_mod(r[0]);
        lemma_cong_mod(qa + s * qb);
        lemma_cong_mul(x, x, qr, qa + s * qb);
        lemma_cong_add(r[0], a0 + s * b0, x * qr, x * (qa + s * qb));
        lemma_cong_mod(r[0] + x * qr);
        // a(x) + s b(x)  ~  a0 + x qa + s (b0 + x qb)
        lemma_cong_mod(a0 + x * qa);
        lemma_cong_mod(b0 + x * qb);
        lemma_cong_mul(s, s, pb, b0 + x * qb);
        lemma_cong_add(pa, a0 + x * qa, s * pb, s * (b0 + x * qb));
        assert(a0 + s * b0 + x * (qa + s * qb) == a0 + x * qa + s * (b0 + x * qb))
            by (nonlinear_arith);
        lemma_cong_reduced(peval(r, x), pa + s * pb);
    }
}

/// The value of `a + b` is `a(x) + b(x)`.
pub proof fn lemma_peval_add(a: Seq<int>, b: Seq<int>, x: int)
    ensures
        peval(add_spec(a, b), x) == (peval(a, x) + peval(b, x)) % modulus(),
{
    assert(add_spec(a, b) =~= lin_spec(a, b, 1));
    lemma_peval_lin(a, b, 1, x);
}

/// The value of `a - b` is `a(x) - b(x)`.
pub proof fn lemma_peval_sub(a: Seq<int>, b: Seq<int>, x: int)
    ensures
        peval(sub_spec(a, b), x) == (peval(a, x) - peval(b, x)) % modulus(),
{
    assert(sub_spec(a, b) =~= lin_spec(a, b, -1));
    lemma_peval_lin(a, b, -1, x);
}

/// The value of `s * a` is `s * a(x)`.
pub proof fn lemma_peval_scale(a: Seq<int>, s: int, x: int)
    ensures
        peval(scale_spec(a, s), x) == (s * peval(a, x)) % modulus(),
{
    let e = Seq::<int>::empty();
    assert(scale_spec(a, s) =~= lin_spec(e, a, s));
    lemma_peval_lin(e, a, s, x);
}

/// The value of `X^n * a` is `x^n * a(x)`.
pub proof fn lemma_peval_shift(a: Seq<int>, n: nat, x: int)
    ensures
        peval(shift_spec(a, n), x) == (fpow(x, n) * peval(a, x)) % modulus(),
    decreases n,
{
    let pa = peval(a, x);
    lemma_peval_range(a, x);
    if n == 0 {
        assert(shift_spec(a, n) =~= a);
        vstd::arithmetic::div_mod::lemma_small_mod(pa as nat, modulus() as nat);
    } else {
        let n1 = (n - 1) as nat;
        assert(shift_spec(a, n).drop_first() =~= shift_spec(a, n1));
        lemma_peval_shift(a, n1, x);
        let q = peval(shift_spec(a, n1), x);
        lemma_fpow_range(x, n1);
        lemma_cong_mod(fpow(x, n1) * pa);
        lemma_cong_mul(x, x, q, fpow(x, n1) * pa);
        lemma_cong_mod(x * fpow(x, n1));
        lemma_cong_mul(fpow(x, n), x * fpow(x, n1), pa, pa);
        assert(x * (fpow(x, n1) * pa) == (x * fpow(x, n1)) * pa) by (nonlinear_arith);
        assert(peval(shift_spec(a, n), x) == (0 + x * q) % modulus());
        lemma_peval_range(shift_spec(a, n), x);
        lemma_cong_reduced(peval(shift_spec(a, n), x), fpow(x, n) * pa);
    }
}

/// The coefficients of the product of `X - p` over the points `p` of `pts`, multiplied in
/// order.
pub open spec fn vanishing_spec(pts: Seq<int>) -> Seq<int>
    decreases pts.len(),
{
    if pts.len() == 0 {
        seq![1int]
    } else {
        let z = vanishing_spec(pts.drop_last());
        sub_spec(shift_spec(z, 1), scale_spec(z, pts.last()))
    }
}

/// The state of monic long division of `num` by `den` once the quotient coefficients from
/// `i` upward are found: the quotient so far and the remainder so far.
pub open spec fn div_state(num: Seq<int>, den: Seq<int>, i: int) -> (Seq<int>, Seq<int>)
    decreases num.len() - den.len() + 1 - i,
{
    if den.len() == 0 || num.len() < den.len() || i < 0 || i >= num.len() - den.len() + 1 {
        (seq![0int], num)
    } else {
        let (q, r) = div_state(num, den, i + 1);
        let c = r[i + den.len() - 1];
        (add_spec(q, shift_spec(seq![c], i as nat)), sub_spec(r, shift_spec(scale_spec(den, c), i as nat)))
    }
}

/// Quotient and remainder of the long division of `num` by a monic `den`.
pub open spec fn monic_div(num: Seq<int>, den: Seq<int>) -> (Seq<int>, Seq<int>) {
    div_state(num, den, 0)
}

/// The product of `x - p` over the points `p` of `pts`.
pub open spec fn vprod(pts: Seq<int>, x: int) -> int
    decreases pts.len(),
{
    if pts.len() == 0 {
        1
    } else {
        ((x - pts.last()) * vprod(pts.drop_last(), x)) % modulus()
    }
}

/// One more linear factor in a product of linear factors.
proof fn lemma_vprod_step(z: Seq<int>, prev: Seq<int>, pts: Seq<int>, a: int)
    requires
        pts.len() > 0,
        pts.last() == a,
        forall|x: int| peval(z, x) == ((x - a) * peval(prev, x)) % modulus(),
        forall|x: int| peval(prev, x) == vprod(pts.drop_last(), x),
    ensures
        forall|x: int| peval(z, x) == vprod(pts, x),
{
    assert forall|x: int| peval(z, x) == vprod(pts, x) by {
        assert(peval(prev, x) == vprod(pts.drop_last(), x));
    }
}

/// The relation `num == q * den + rem` survives one step of long division.
proof fn lemma_div_eval_step(
    num: Seq<int>,
    den: Seq<int>,
    q0: Seq<int>,
    r0: Seq<int>,
    c: int,
    i: nat,
)
    requires
        forall|x: int|
            peval(num, x) == (peval(q0, x) * peval(den, x) + peval(r0, x)) % modulus(),
    ensures
        forall|x: int|
            peval(num, x) == (peval(add_spec(q0, shift_spec(seq![c], i)), x) * peval(den, x)
                + peval(sub_spec(r0, shift_spec(scale_spec(den, c), i)), x)) % modulus(),
{
    let q1 = add_spec(q0, shift_spec(seq![c], i));
    let r1 = sub_spec(r0, shift_spec(scale_spec(den, c), i));
    assert forall|x: int|
        peval(num, x) == (peval(q1, x) * peval(den, x) + peval(r1, x)) % modulus() by {
        let d = peval(den, x);
        let qa = peval(q0, x);
        let ra = peval(r0, x);
        let w = fpow(x, i);
        let cs = seq![c];
        assert(cs.drop_first() =~= Seq::<int>::empty());
        assert(x * 0 == 0);
        assert(peval(cs.drop_first(), x) == 0);
        assert(peval(cs, x) == (c + x * 0) % modulus());
        lemma_peval_shift(cs, i, x);
        lemma_peval_scale(den, c, x);
        lemma_peval_shift(scale_spec(den, c), i, x);
        lemma_peval_add(q0, shift_spec(cs, i), x);
        lemma_peval_sub(r0, shift_spec(scale_spec(den, c), i), x);
        let m = peval(shift_spec(cs, i), x);
        let t = peval(shift_spec(scale_spec(den, c), i), x);
        // m ~ w * c
        lemma_cong_mod(c);
        lemma_cong_mul(w, w, c % modulus(), c);
        lemma_cong_mod(w * (c % modulus()));
        // t ~ w * (c * d)
        lemma_cong_mod(c * d);
        lemma_cong_mul(w, w, (c * d) % modulus(), c * d);
        lemma_cong_mod(w * ((c * d) % modulus()));
        // q1 ~ qa + w c, r1 ~ ra - w c d
        lemma_cong_add(qa, qa, m, w * c);
        lemma_cong_mod(qa + m);
        lemma_cong_sub(ra, ra, t, w * (c * d));
        lemma_cong_mod(ra - t);
        let q1x = peval(q1, x);
        let r1x = peval(r1, x);
        lemma_cong_mul(q1x, qa + w * c, d, d);
        lemma_cong_add(q1x * d, (qa + w * c) * d, r1x, ra - w * (c * d));
        assert((qa + w * c) * d + (ra - w * (c * d)) == qa * d + ra) by (nonlinear_arith);
        lemma_cong_mod(qa * d + ra);
        lemma_peval_range(num, x);
        lemma_cong_reduced(peval(num, x), q1x * d + r1x);
    }
}

/// One step of long division clears the next coefficient of the remainder.
proof fn lemma_div_coeff_step(r0: Seq<int>, den: Seq<int>, c: int, inv: int, i: int)
    requires
        den.len() > 0,
        0 <= i,
        i + den.len() <= r0.len(),
        forall|j: int| i + den.len() <= j < r0.len() ==> r0[j] == 0,
        forall|j: int| 0 <= j < r0.len() ==> 0 <= #[trigger] r0[j] < modulus(),
        c == (r0[i + den.len() - 1] * inv) % modulus(),
        inverse_of(den.last(), inv),
    ensures
        sub_spec(r0, shift_spec(scale_spec(den, c), i as nat)).len() == r0.len(),
        forall|j: int|
            i + den.len() - 1 <= j < r0.len() ==> #[trigger] sub_spec(
                r0,
                shift_spec(scale_spec(den, c), i as nat),
            )[j] == 0,
{
    let l = den.len() as int;
    let t = shift_spec(scale_spec(den, c), i as nat);
    let r1 = sub_spec(r0, t);
    assert(t.len() == i + l);
    assert forall|j: int| i + l - 1 <= j < r0.len() implies r1[j] == 0 by {
        if j >= i + l {
            assert(coeff(t, j) == 0);
            assert(r1[j] == (0 - 0) % modulus());
        } else {
            let rj = r0[j];
            let lc = den.last();
            assert(t[j] == (c * lc) % modulus());
            lemma_cong_mod(rj * inv);
            lemma_cong_mul(c, rj * inv, lc, lc);
            vstd::arithmetic::div_mod::lemma_small_mod(1, modulus() as nat);
            assert(lc * inv == inv * lc) by (nonlinear_arith);
            lemma_cong_mul(rj, rj, inv * lc, 1);
            assert((rj * inv) * lc == rj * (inv * lc)) by (nonlinear_arith);
            lemma_cong_mod(c * lc);
            lemma_cong_sub(rj, rj, (c * lc) % modulus(), rj);
            assert(r1[j] == (rj - (c * lc) % modulus()) % modulus());
            assert(rj - rj == 0);
        }
    }
}

/// Every entry of `s` is zero.
pub open spec fn all_zero(s: Seq<int>) -> bool {
    forall|j: int| 0 <= j < s.len() ==> s[j] == 0
}

/// Adding a zero multiple to a zero polynomial gives a zero polynomial.
proof fn lemma_zero_sum(acc: Seq<int>, b: Seq<int>, c: int)
    requires
        all_zero(acc),
        c == 0,
    ensures
        all_zero(add_spec(acc, scale_spec(b, c))),
{
    let t = scale_spec(b, c);
    assert forall|j: int| 0 <= j < add_spec(acc, t).len() implies add_spec(acc, t)[j] == 0 by {
        if j < b.len() {
            assert(c * b[j] == 0);
        }
        assert(coeff(acc, j) == 0);
        assert(coeff(t, j) == 0);
    }
}

/// The points of `pts` are pairwise distinct.
pub open spec fn distinct(pts: Seq<int>) -> bool {
    forall|i: int, j: int| 0 <= i < j < pts.len() ==> pts[i] != pts[j]
}

/// The evaluation domain `[r^0, r^1, ..., r^(n-1)]`.
pub open spec fn domain(r: int, n: nat) -> Seq<int> {
    Seq::new(n, |i: int| fpow(r, i as nat))
}

/// `2^k`, or `None` when it does not fit in a `usize`.
pub fn pow2_usize(k: u32) -> (r: Option<usize>)
    ensures
        r matches Some(m) ==> m == pow2(k as nat),
        r is None ==> pow2(k as nat) > usize::MAX,
{
    let mut m: usize = 1;
    let mut t: u32 = 0;
    proof {
        vstd::arithmetic::power2::lemma2_to64();
    }
    while t < k
        invariant
            t <= k,
            m == pow2(t as nat),
        decreases k - t,
    {
        proof {
            vstd::arithmetic::power2::lemma_pow2_unfold((t + 1) as nat);
        }
        if m > usize::MAX / 2 {
            proof {
                if t + 1 < k {
                    vstd::arithmetic::power2::lemma_pow2_strictly_increases(
                        (t + 1) as nat,
                        k as nat,
                    );
                }
            }
            return None;
        }
        m = m * 2;
        t = t + 1;
    }
    Some(m)
}

/// Why an interpolation was refused.
#[derive(Clone, Copy, Debug, PartialEq, Eq)]
pub enum InterpolationError {
    /// There are no points, or not as many values as points.
    LengthMismatch,
    /// Two of the points are equal.
    RepeatedPoint,
}

/// A further factor `(X - xj) / (xi - xj)` keeps the basis polynomial at `xi` equal to one.
proof fn lemma_basis_step(xi: int, xj: int, b: int, inv: int, w: int)
    requires
        (b * inv) % modulus() == 1,
        inverse_of((xi - xj) % modulus(), w),
    ensures
        ((((xi - xj) * b) % modulus()) * ((inv * w) % modulus())) % modulus() == 1,
{
    let d = xi - xj;
    vstd::arithmetic::div_mod::lemma_small_mod(1, modulus() as nat);
    lemma_cong_mod(d * b);
    lemma_cong_mod(inv * w);
    lemma_cong_mul((d * b) % modulus(), d * b, (inv * w) % modulus(), inv * w);
    assert((d * b) * (inv * w) == (b * inv) * (d * w)) by (nonlinear_arith);
    lemma_cong_mod(d);
    lemma_cong_mul(d % modulus(), d, w, w);
    lemma_cong_mul(b * inv, 1, d * w, (d % modulus()) * w);
    assert(1 * ((d % modulus()) * w) == (d % modulus()) * w);
}

/// A further factor `X - pts[j]` makes the basis polynomial vanish at `pts[j]` as well.
proof fn lemma_basis_zeros(old_b: Seq<int>, new_b: Seq<int>, pts: Seq<int>, i: int, j: int)
    requires
        0 <= j < pts.len(),
        forall|x: int| peval(new_b, x) == ((x - pts[j]) * peval(old_b, x)) % modulus(),
        forall|k: int| 0 <= k < j && k != i ==> peval(old_b, #[trigger] pts[k]) == 0,
    ensures
        forall|k: int| 0 <= k < j + 1 && k != i ==> peval(new_b, #[trigger] pts[k]) == 0,
{
    assert forall|k: int| 0 <= k < j + 1 && k != i implies peval(new_b, #[trigger] pts[k])
        == 0 by {
        let xk = pts[k];
        assert(peval(new_b, xk) == ((xk - pts[j]) * peval(old_b, xk)) % modulus());
        if k == j {
            assert(xk - pts[j] == 0);
            assert((xk - pts[j]) * peval(old_b, xk) == 0 * peval(old_b, xk));
        } else {
            assert(peval(old_b, xk) == 0);
            assert((xk - pts[j]) * 0 == 0);
        }
    }
}

/// Adding the weighted basis polynomial of `pts[i]` sets the value at `pts[i]` and keeps the
/// others.
proof fn lemma_lagrange_acc(
    old_acc: Seq<int>,
    basis: Seq<int>,
    pts: Seq<int>,
    vs: Seq<int>,
    i: int,
    c: int,
    inv: int,
)
    requires
        pts.len() == vs.len(),
        0 <= i < pts.len(),
        0 <= vs[i] < modulus(),
        c == (vs[i] * inv) % modulus(),
        (peval(basis, pts[i]) * inv) % modulus() == 1,
        forall|k: int| 0 <= k < pts.len() && k != i ==> peval(basis, #[trigger] pts[k]) == 0,
        forall|k: int|
            0 <= k < pts.len() ==> peval(old_acc, #[trigger] pts[k]) == if k < i {
                vs[k]
            } else {
                0
            },
    ensures
        forall|k: int|
            0 <= k < pts.len() ==> peval(add_spec(old_acc, scale_spec(basis, c)), #[trigger] pts[k])
                == if k < i + 1 {
                vs[k]
            } else {
                0
            },
{
    let term = scale_spec(basis, c);
    lemma_basis_weight(vs[i], inv, peval(basis, pts[i]));
    assert forall|k: int| 0 <= k < pts.len() implies peval(
        add_spec(old_acc, term),
        #[trigger] pts[k],
    ) == if k < i + 1 {
        vs[k]
    } else {
        0
    } by {
        let xk = pts[k];
        lemma_peval_add(old_acc, term, xk);
        lemma_peval_scale(basis, c, xk);
        lemma_peval_range(old_acc, xk);
        vstd::arithmetic::div_mod::lemma_small_mod(peval(old_acc, xk) as nat, modulus() as nat);
        if k != i {
            assert(peval(basis, xk) == 0);
            assert(c * 0 == 0);
        } else {
            assert(peval(old_acc, xk) == 0);
            vstd::arithmetic::div_mod::lemma_small_mod(vs[i] as nat, modulus() as nat);
        }
    }
}

/// A scaled basis polynomial contributes its weight at its own point.
proof fn lemma_basis_weight(v: int, inv: int, b: int)
    requires
        0 <= v < modulus(),
        (b * inv) % modulus() == 1,
    ensures
        (((v * inv) % modulus()) * b) % modulus() == v,
{
    vstd::arithmetic::div_mod::lemma_small_mod(1, modulus() as nat);
    lemma_cong_mod(v * inv);
    lemma_cong_mul((v * inv) % modulus(), v * inv, b, b);
    assert((v * inv) * b == v * (b * inv)) by (nonlinear_arith);
    lemma_cong_mul(v, v, b * inv, 1);
    lemma_cong_mod(((v * inv) % modulus()) * b);
    lemma_cong_reduced(v, ((v * inv) % modulus()) * b);
}

/// Multiplying by `X - a` moves the leading coefficient up by one place.
proof fn lemma_linear_leading(c: Seq<int>, a: int)
    requires
        c.len() > 0,
        0 <= c.last() < modulus(),
    ensures
        sub_spec(shift_spec(c, 1), scale_spec(c, a))[c.len() as int] == c.last(),
{
    let n = c.len() as int;
    let s = shift_spec(c, 1);
    assert(s.len() == n + 1);
    assert(s[n] == c[n - 1]);
    assert(coeff(scale_spec(c, a), n) == 0);
    vstd::arithmetic::div_mod::lemma_small_mod(c.last() as nat, modulus() as nat);
}

/// A polynomial in coefficient form: `coeffs[i]` is the coefficient of `X^i`.
#[derive(Debug, PartialEq, Eq)]
pub struct Polynomial {
    pub coeffs: Vec<Fe>,
}

impl View for Polynomial {
    type V = Seq<int>;

    open spec fn view(&self) -> Seq<int> {
        values(self.coeffs@)
    }
}

impl Polynomial {
    /// The polynomial with the given coefficients, constant term first.
    pub fn new(coeffs: Vec<Fe>) -> (r: Polynomial)
        ensures
            r@ == values(coeffs@),
    {
        Polynomial { coeffs }
    }

    /// The constant polynomial `c`.
    pub fn constant(c: Fe) -> (r: Polynomial)
        ensures
            r@ == seq![c@],
    {
        let r = Polynomial { coeffs: vec![c] };
        assert(r@ =~= seq![c@]);
        r
    }

    /// Coefficient `i`, zero beyond the end.
    pub fn coeff_at(&self, i: usize) -> (r: Fe)
        ensures
            r@ == coeff(self@, i as int),
    {
        if i < self.coeffs.len() {
            self.coeffs[i]
        } else {
            Fe::zero()
        }
    }

    /// The value of the polynomial at `x`, by Horner's rule.
    pub fn evaluate(&self, x: &Fe) -> (r: Fe)
        ensures
            r@ == peval(self@, x@),
    {
        let n = self.coeffs.len();
        let mut acc = Fe::zero();
        let mut i: usize = n;
        assert(self@.subrange(n as int, n as int) =~= Seq::<int>::empty());
        while i > 0
            invariant
                i <= n,
                n == self.coeffs.len(),
                acc@ == peval(self@.subrange(i as int, n as int), x@),
            decreases i,
        {
            i = i - 1;
            let ghost prev = acc@;
            let t = fe_mul(&acc, x);
            acc = fe_add(&t, &self.coeffs[i]);
            proof {
                let s = self@.subrange(i as int, n as int);
                assert(s.drop_first() =~= self@.subrange(i + 1, n as int));
                let c = self@[i as int];
                lemma_cong_mod(prev * x@);
                lemma_cong_add(t@, prev * x@, c, c);
                lemma_cong_mod(t@ + c);
                assert(prev * x@ == x@ * prev) by (nonlinear_arith);
                lemma_peval_range(s, x@);
                lemma_cong_reduced(acc@, c + x@ * prev);
            }
        }
        assert(self@.subrange(0, n as int) =~= self@);
        acc
    }

    /// The sum of two polynomials, coefficient by coefficient.
    pub fn add(&self, other: &Polynomial) -> (r: Polynomial)
        ensures
            r@ == add_spec(self@, other@),
    {
        let n = if self.coeffs.len() >= other.coeffs.len() {
            self.coeffs.len()
        } else {
            other.coeffs.len()
        };
        let mut out: Vec<Fe> = Vec::new();
        let mut i: usize = 0;
        while i < n
            invariant
                i <= n,
                n == if self@.len() >= other@.len() { self@.len() } else { other@.len() },
                out@.len() == i,
                forall|j: int|
                    0 <= j < i ==> out@[j]@ == (coeff(self@, j) + coeff(other@, j)) % modulus(),
            decreases n - i,
        {
            let a = self.coeff_at(i);
            let b = other.coeff_at(i);
            out.push(fe_add(&a, &b));
            i = i + 1;
        }
        let r = Polynomial { coeffs: out };
        assert(r@ =~= add_spec(self@, other@));
        r
    }

    /// The difference of two polynomials, coefficient by coefficient; its length is the
    /// larger of the two (trailing zero coefficients are kept).
    pub fn sub(&self, other: &Polynomial) -> (r: Polynomial)
        ensures
            r@ == sub_spec(self@, other@),
    {
        let n = if self.coeffs.len() >= other.coeffs.len() {
            self.coeffs.len()
        } else {
            other.coeffs.len()
        };
        let mut out: Vec<Fe> = Vec::new();
        let mut i: usize = 0;
        while i < n
            invariant
                i <= n,
                n == if self@.len() >= other@.len() { self@.len() } else { other@.len() },
                out@.len() == i,
                forall|j: int|
                    0 <= j < i ==> out@[j]@ == (coeff(self@, j) - coeff(other@, j)) % modulus(),
            decreases n - i,
        {
            let a = self.coeff_at(i);
            let b = other.coeff_at(i);
            out.push(fe_sub(&a, &b));
            i = i + 1;
        }
        let r = Polynomial { coeffs: out };
        assert(r@ =~= sub_spec(self@, other@));
        r
    }

    /// The polynomial multiplied by the scalar `s`.
    pub fn scale(&self, s: &Fe) -> (r: Polynomial)
        ensures
            r@ == scale_spec(self@, s@),
    {
        let n = self.coeffs.len();
        let mut out: Vec<Fe> = Vec::new();
        let mut i: usize = 0;
        while i < n
            invariant
                i <= n,
                n == self@.len(),
                out@.len() == i,
                forall|j: int| 0 <= j < i ==> out@[j]@ == (s@ * self@[j]) % modulus(),
            decreases n - i,
        {
            out.push(fe_mul(s, &self.coeffs[i]));
            i = i + 1;
        }
        let r = Polynomial { coeffs: out };
        assert(r@ =~= scale_spec(self@, s@));
        r
    }

    /// The polynomial multiplied by `X^n`.
    pub fn shift(&self, n: usize) -> (r: Polynomial)
        ensures
            r@ == shift_spec(self@, n as nat),
    {
        let mut out: Vec<Fe> = Vec::new();
        let mut i: usize = 0;
        while i < n
            invariant
                i <= n,
                out@.len() == i,
                forall|j: int| 0 <= j < i ==> out@[j]@ == 0,
            decreases n - i,
        {
            out.push(Fe::zero());
            i = i + 1;
        }
        let m = self.coeffs.len();
        let mut j: usize = 0;
        while j < m
            invariant
                j <= m,
                m == self@.len(),
                out@.len() == n + j,
                forall|t: int| 0 <= t < n ==> out@[t]@ == 0,
                forall|t: int| 0 <= t < j ==> out@[n + t]@ == self@[t],
            decreases m - j,
        {
            out.push(self.coeffs[j]);
            j = j + 1;
        }
        let r = Polynomial { coeffs: out };
        assert(r@ =~= shift_spec(self@, n as nat));
        r
    }

    /// The polynomial multiplied by `X - a`.
    pub fn mul_linear(&self, a: &Fe) -> (r: Polynomial)
        ensures
            r@.len() == self@.len() + 1,
            self@.len() > 0 ==> r@.last() == self@.last(),
            r@ == sub_spec(shift_spec(self@, 1), scale_spec(self@, a@)),
            forall|x: int| peval(r@, x) == ((x - a@) * peval(self@, x)) % modulus(),
    {
        let r = self.shift(1).sub(&self.scale(a));
        if self.coeffs.len() > 0 {
            proof {
                lemma_linear_leading(self@, a@);
            }
        }
        assert forall|x: int| peval(r@, x) == ((x - a@) * peval(self@, x)) % modulus() by {
            let z = peval(self@, x);
            lemma_peval_sub(shift_spec(self@, 1), scale_spec(self@, a@), x);
            lemma_peval_shift(self@, 1, x);
            lemma_peval_scale(self@, a@, x);
            reveal_with_fuel(fpow, 2);
            let u = peval(shift_spec(self@, 1), x);
            let v = peval(scale_spec(self@, a@), x);
            lemma_cong_mod(x);
            lemma_cong_mul(x % modulus(), x, z, z);
            lemma_cong_mod((x % modulus()) * z);
            lemma_cong_mod(a@ * z);
            lemma_cong_sub(u, x * z, v, a@ * z);
            lemma_cong_mod(u - v);
            assert(x * z - a@ * z == (x - a@) * z) by (nonlinear_arith);
            lemma_peval_range(r@, x);
            lemma_cong_reduced(peval(r@, x), (x - a@) * z);
        }
        r
    }

    /// Lagrange interpolation: the polynomial of degree below `points.len()` that takes
    /// `vals[k]` at `points[k]` for every `k`.
    #[verifier::rlimit(30)]
    pub fn interpolate_lagrange(points: &Vec<Fe>, vals: &Vec<Fe>) -> (r: Result<
        Polynomial,
        InterpolationError,
    >)
        ensures
            r == Err::<Polynomial, _>(InterpolationError::LengthMismatch) <==> (points@.len()
                != vals@.len() || points@.len() == 0),
            r == Err::<Polynomial, _>(InterpolationError::RepeatedPoint) <==> (points@.len()
                == vals@.len() && points@.len() > 0 && !distinct(values(points@))),
            r matches Ok(p) ==> {
                &&& p@.len() == points@.len()
                &&& forall|k: int|
                    0 <= k < points@.len() ==> peval(p@, #[trigger] points@[k]@) == vals@[k]@
                &&& all_zero(values(vals@)) ==> all_zero(p@)
            },
    {
        let n = points.len();
        if n != vals.len() || n == 0 {
            return Err(InterpolationError::LengthMismatch);
        }
        let ghost pts = values(points@);
        let mut acc = Polynomial::constant(Fe::zero());
        proof {
            assert(all_zero(acc@));
            assert forall|x: int| peval(acc@, x) == 0 by {
                assert(acc@.drop_first() =~= Seq::<int>::empty());
                assert(peval(acc@.drop_first(), x) == 0);
                assert(x * 0 == 0);
                assert(peval(acc@, x) == (0 + x * 0) % modulus());
            }
        }
        let ghost vs = values(vals@);
        let mut i: usize = 0;
        while i < n
            invariant
                n == points@.len(),
                n == vals@.len(),
                n > 0,
                i <= n,
                pts == values(points@),
                vs == values(vals@),
                acc@.len() == if i == 0 { 1 } else { n as int },
                forall|k: int|
                    0 <= k < n ==> peval(acc@, #[trigger] pts[k]) == if k < i {
                        vs[k]
                    } else {
                        0
                    },
                forall|a: int, b: int| 0 <= a < i && 0 <= b < n && a != b ==> pts[a] != pts[b],
                all_zero(vs) ==> all_zero(acc@),
            decreases n - i,
        {
            let (basis, inv_acc) = match Polynomial::lagrange_basis(points, i) {
                None => {
                    return Err(InterpolationError::RepeatedPoint);
                },
                Some(bw) => bw,
            };
            let c = fe_mul(&vals[i], &inv_acc);
            let term = basis.scale(&c);
            let ghost old_acc = acc@;
            acc = acc.add(&term);
            proof {
                lemma_lagrange_acc(old_acc, basis@, pts, vs, i as int, c@, inv_acc@);
                if all_zero(vs) {
                    assert(vs[i as int] == 0);
                    assert(0 * inv_acc@ == 0);
                    lemma_zero_sum(old_acc, basis@, c@);
                }
            }
            i = i + 1;
        }
        proof {
            assert forall|k: int| 0 <= k < n implies peval(acc@, #[trigger] points@[k]@)
                == vals@[k]@ by {
                assert(pts[k] == points@[k]@);
                assert(vs[k] == vals@[k]@);
            }
        }
        Ok(acc)
    }

    /// The basis polynomial of `points[i]`, the product of `X - points[j]` over `j != i`,
    /// with the inverse of its value at `points[i]`; `None` when two points are equal.
    #[verifier::rlimit(30)]
    fn lagrange_basis(points: &Vec<Fe>, i: usize) -> (r: Option<(Polynomial, Fe)>)
        requires
            i < points@.len(),
        ensures
            r is None ==> !distinct(values(points@)),
            r matches Some((b, inv)) ==> {
                &&& b@.len() == points@.len()
                &&& forall|k: int|
                    0 <= k < points@.len() && k != i ==> peval(b@, #[trigger] values(points@)[k])
                        == 0
                &&& (peval(b@, values(points@)[i as int]) * inv@) % modulus() == 1
                &&& forall|t: int|
                    0 <= t < points@.len() && t != i ==> #[trigger] values(points@)[t]
                        != values(points@)[i as int]
            },
    {
        let n = points.len();
        let ghost pts = values(points@);
        let mut basis = Polynomial::constant(Fe::one());
        let mut inv_acc = Fe::one();
        proof {
            let x = pts[i as int];
            assert(basis@.drop_first() =~= Seq::<int>::empty());
            assert(peval(basis@.drop_first(), x) == 0);
            assert(x * 0 == 0);
            vstd::arithmetic::div_mod::lemma_small_mod(1, modulus() as nat);
            assert(peval(basis@, x) == (1 + x * 0) % modulus());
            assert(1int * 1 == 1);
        }
        let mut j: usize = 0;
        while j < n
            invariant
                n == points@.len(),
                i < n,
                j <= n,
                pts == values(points@),
                basis@.len() == if j <= i { j as int + 1 } else { j as int },
                forall|k: int| 0 <= k < j && k != i ==> peval(basis@, #[trigger] pts[k]) == 0,
                (peval(basis@, pts[i as int]) * inv_acc@) % modulus() == 1,
                forall|t: int| 0 <= t < j && t != i ==> #[trigger] pts[t] != pts[i as int],
            decreases n - j,
        {
            if j != i {
                let d = fe_sub(&points[i], &points[j]);
                match fe_invert(&d) {
                    None => {
                        proof {
                            let (a, b) = if i < j {
                                (i as int, j as int)
                            } else {
                                (j as int, i as int)
                            };
                            assert(pts[a] == pts[b]);
                        }
                        return None;
                    },
                    Some(w) => {
                        let ghost old_b = basis@;
                        let ghost old_inv = inv_acc@;
                        basis = basis.mul_linear(&points[j]);
                        inv_acc = fe_mul(&inv_acc, &w);
                        proof {
                            let xi = pts[i as int];
                            lemma_basis_step(xi, pts[j as int], peval(old_b, xi), old_inv, w@);
                            lemma_basis_zeros(old_b, basis@, pts, i as int, j as int);
                        }
                    },
                }
            }
            j = j + 1;
        }
        Some((basis, inv_acc))
    }

    /// Interpolation over the `2^k`-th roots of unity: the polynomial of degree below `2^k`
    /// whose value at `root^i` is `vals[i]`. When `root` generates the `2^k`-th roots of
    /// unity and there are `2^k` values, it always succeeds.
    #[verifier::rlimit(30)]
    pub fn interpolate_fft(vals: &Vec<Fe>, root: &Fe, k: u32) -> (r: Result<
        Polynomial,
        InterpolationError,
    >)
        ensures
            r == Err::<Polynomial, _>(InterpolationError::LengthMismatch) <==> vals@.len()
                != pow2(k as nat),
            r == Err::<Polynomial, _>(InterpolationError::RepeatedPoint) <==> (vals@.len()
                == pow2(k as nat) && !distinct(domain(root@, pow2(k as nat)))),
            is_primitive_root(root@, k as nat) && vals@.len() == pow2(k as nat) ==> r is Ok,
            r matches Ok(p) ==> {
                &&& p@.len() == vals@.len()
                &&& forall|i: int|
                    0 <= i < vals@.len() ==> #[trigger] peval(p@, fpow(root@, i as nat))
                        == vals@[i]@
                &&& all_zero(values(vals@)) ==> all_zero(p@)
            },
    {
        let len = vals.len();
        let n = match pow2_usize(k) {
            None => {
                assert(len <= usize::MAX);
                return Err(InterpolationError::LengthMismatch);
            },
            Some(m) => m,
        };
        if len != n {
            return Err(InterpolationError::LengthMismatch);
        }
        proof {
            vstd::arithmetic::power2::lemma_pow2_pos(k as nat);
        }
        let mut pts: Vec<Fe> = Vec::new();
        let mut p = Fe::one();
        let mut i: usize = 0;
        while i < n
            invariant
                i <= n,
                p@ == fpow(root@, i as nat),
                values(pts@) =~= domain(root@, i as nat),
            decreases n - i,
        {
            let ghost old_pts = pts@;
            pts.push(p);
            let ghost before = p@;
            p = fe_mul(&p, root);
            proof {
                assert(before * root@ == root@ * before) by (nonlinear_arith);
                assert(values(pts@) =~= values(old_pts).push(before));
                assert(domain(root@, (i + 1) as nat) =~= domain(root@, i as nat).push(before));
            }
            i = i + 1;
        }
        proof {
            if is_primitive_root(root@, k as nat) {
                assert forall|a: int, b: int|
                    0 <= a < b < values(pts@).len() implies values(pts@)[a] != values(pts@)[b] by {
                    lemma_root_powers_distinct(root@, k as nat, a as nat, b as nat);
                }
            }
        }
        match Polynomial::interpolate_lagrange(&pts, vals) {
            Ok(poly) => {
                proof {
                    assert forall|i: int| 0 <= i < vals@.len() implies #[trigger] peval(
                        poly@,
                        fpow(root@, i as nat),
                    ) == vals@[i]@ by {
                        assert(pts@[i]@ == values(pts@)[i]);
                    }
                }
                Ok(poly)
            },
            Err(e) => Err(InterpolationError::RepeatedPoint),
        }
    }

    /// Every coefficient is zero.
    pub fn is_zero(&self) -> (r: bool)
        ensures
            r == (forall|j: int| 0 <= j < self@.len() ==> self@[j] == 0),
    {
        let mut j: usize = 0;
        while j < self.coeffs.len()
            invariant
                j <= self@.len(),
                forall|t: int| 0 <= t < j ==> self@[t] == 0,
            decreases self@.len() - j,
        {
            if !fe_is_zero(&self.coeffs[j]) {
                assert(self@[j as int] == self.coeffs@[j as int]@);
                return false;
            }
            j = j + 1;
        }
        true
    }

    /// Euclidean division: `(q, rem)` with `self == q * den + rem` and `rem` of degree below
    /// that of `den`. Fails when the leading coefficient of `den` is zero.
    #[verifier::rlimit(60)]
    pub fn divide_euclid(&self, den: &Polynomial) -> (r: Option<(Polynomial, Polynomial)>)
        ensures
            r.is_none() <==> (den@.len() == 0 || den@.last() == 0),
            r matches Some((q, rem)) ==> {
                &&& q@.len() == if self@.len() < den@.len() {
                    1
                } else {
                    (self@.len() - den@.len() + 1) as nat
                }
                &&& forall|x: int|
                    peval(self@, x) == (peval(q@, x) * peval(den@, x) + peval(rem@, x))
                        % modulus()
                &&& forall|j: int| j >= den@.len() - 1 ==> coeff(rem@, j) == 0
                &&& den@.last() == 1 ==> (q@, rem@) == monic_div(self@, den@)
            },
    {
        let l = den.coeffs.len();
        if l == 0 {
            return None;
        }
        let lc = den.coeffs[l - 1];
        let inv = match fe_invert(&lc) {
            None => {
                return None;
            },
            Some(v) => v,
        };
        let n = self.coeffs.len();
        let mut rem = self.shift(0);
        let mut q = Polynomial::constant(Fe::zero());
        assert(rem@ =~= self@);
        assert forall|x: int|
            peval(self@, x) == (peval(q@, x) * peval(den@, x) + peval(rem@, x)) % modulus() by {
            assert(q@.drop_first() =~= Seq::<int>::empty());
            assert(x * 0 == 0);
            assert(peval(q@.drop_first(), x) == 0);
            assert(peval(q@, x) == (0 + x * 0) % modulus());
            assert(0 * peval(den@, x) == 0);
            lemma_peval_range(self@, x);
            vstd::arithmetic::div_mod::lemma_small_mod(peval(self@, x) as nat, modulus() as nat);
        }
        proof {
            if den@.last() == 1 {
                assert(q@ =~= seq![0int]);
                vstd::arithmetic::div_mod::lemma_small_mod(inv@ as nat, modulus() as nat);
            }
        }
        if n < l {
            return Some((q, rem));
        }
        let mut i: usize = n - l + 1;
        while i > 0
            invariant
                l == den@.len(),
                l > 0,
                n == self@.len(),
                n >= l,
                i <= n - l + 1,
                q@.len() == if i == n - l + 1 { 1 } else { n - l + 1 },
                rem@.len() == n,
                inverse_of(den@.last(), inv@),
                den@.last() == 1 ==> inv@ == 1,
                den@.last() == 1 ==> (q@, rem@) == div_state(self@, den@, i as int),
                forall|j: int| i + l - 1 <= j < n ==> rem@[j] == 0,
                forall|x: int|
                    peval(self@, x) == (peval(q@, x) * peval(den@, x) + peval(rem@, x))
                        % modulus(),
            decreases i,
        {
            i = i - 1;
            let c = fe_mul(&rem.coeffs[i + l - 1], &inv);
            let t = den.scale(&c).shift(i);
            let m = Polynomial::constant(c).shift(i);
            proof {
                lemma_div_eval_step(self@, den@, q@, rem@, c@, i as nat);
                lemma_div_coeff_step(rem@, den@, c@, inv@, i as int);
                if den@.last() == 1 {
                    let rj = rem@[i + l - 1];
                    assert(rj * 1 == rj);
                    vstd::arithmetic::div_mod::lemma_small_mod(rj as nat, modulus() as nat);
                    assert(c@ == rj);
                }
            }
            rem = rem.sub(&t);
            q = q.add(&m);
        }
        Some((q, rem))
    }

    /// The monic polynomial whose roots are exactly `points`: the product of `X - p`.
    pub fn vanishing(points: &Vec<Fe>) -> (r: Polynomial)
        ensures
            r@ == vanishing_spec(values(points@)),
            r@.len() == points@.len() + 1,
            r@.last() == 1,
            forall|x: int| peval(r@, x) == vprod(values(points@), x),
    {
        let n = points.len();
        let mut z = Polynomial::constant(Fe::one());
        let mut i: usize = 0;
        proof {
            assert forall|x: int| peval(z@, x) == vprod(values(points@).subrange(0, 0), x) by {
                assert(z@.drop_first() =~= Seq::<int>::empty());
                assert(x * 0 == 0);
                assert(z@[0] == 1);
                assert(peval(z@.drop_first(), x) == 0);
                vstd::arithmetic::div_mod::lemma_small_mod(1, modulus() as nat);
                assert(peval(z@, x) == (z@[0] + x * peval(z@.drop_first(), x)) % modulus());
                assert(values(points@).subrange(0, 0).len() == 0);
            }
        }
        while i < n
            invariant
                i <= n,
                n == points@.len(),
                z@.len() == i + 1,
                z@[i as int] == 1,
                z@ == vanishing_spec(values(points@).subrange(0, i as int)),
                forall|x: int| peval(z@, x) == vprod(values(points@).subrange(0, i as int), x),
            decreases n - i,
        {
            let ghost prev = z@;
            z = z.mul_linear(&points[i]);
            proof {
                let pts = values(points@).subrange(0, i + 1);
                let a = points@[i as int]@;
                assert(pts.drop_last() =~= values(points@).subrange(0, i as int));
                assert(pts.last() == a);
                lemma_vprod_step(z@, prev, pts, a);
            }
            i = i + 1;
        }
        assert(values(points@).subrange(0, n as int) =~= values(points@));
        z
    }
}

} // verus!
