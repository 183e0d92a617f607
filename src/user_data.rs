//! Record ingestion, the (insecure, for testing) trusted setup, and the commitment to a
//! batch of user records with openings of index ranges.
use vstd::prelude::*;
use vstd::arithmetic::power2::pow2;
use crate::field::{
    domain_root, fe_add, fe_is_zero, fe_mul, fe_sub, fpow, is_primitive_root, lemma_cong_add,
    lemma_cong_mod, lemma_cong_mul, lemma_cong_sub, modulus, root_of_unity, values, Fe,
    TWO_ADICITY,
};
use crate::group::{
    encodings, evaluate_at_srs, g1_gen_mul, g1_gen_times, g2_gen_mul, g2_gen_times, msm, terms,
    G1Point, G2Point,
};
use crate::poly::{
    coeff,
    all_zero, lemma_peval_range, monic_div, peval, pow2_usize, vanishing_spec, vprod, Polynomial,
};

verus! {

/// The encodings of a sequence of G2 points.
pub open spec fn g2_encodings(s: Seq<G2Point>) -> Seq<Seq<u8>> {
    s.map_values(|p: G2Point| p@)
}

/// Public parameters: the generators of G1 and G2 multiplied by successive powers of a
/// secret scalar.
#[allow(non_camel_case_types)]
pub struct pp {
    pub ptau_g1: Vec<G1Point>,
    pub ptau_g2: Vec<G2Point>,
}

/// The powers `g1 * tau^i`, `i < n`.
pub open spec fn g1_powers(tau: int, n: nat) -> Seq<Seq<u8>> {
    Seq::new(n, |i: int| g1_gen_mul(fpow(tau, i as nat)))
}

/// The powers `g2 * tau^i`, `i < n`.
pub open spec fn g2_powers(tau: int, n: nat) -> Seq<Seq<u8>> {
    Seq::new(n, |i: int| g2_gen_mul(fpow(tau, i as nat)))
}

/// A user's record: the hash of its leaf, the username's bytes and one balance per asset.
pub struct Record {
    pub hash: Fe,
    pub username: Vec<u8>,
    pub balances: Vec<Fe>,
}

/// The integer whose big-endian bytes are `s`.
pub open spec fn be_value(s: Seq<u8>) -> int
    decreases s.len(),
{
    if s.len() == 0 {
        0
    } else {
        be_value(s.drop_last()) * 256 + s.last()
    }
}

/// The field element that stands for a username: its bytes read as a big-endian integer
/// when that integer is below the field order, zero otherwise.
pub open spec fn username_value(u: Seq<u8>) -> int {
    if be_value(u) < modulus() {
        be_value(u)
    } else {
        0
    }
}

/// `256^n`.
pub open spec fn pow256(n: nat) -> int
    decreases n,
{
    if n == 0 {
        1
    } else {
        256 * pow256((n - 1) as nat)
    }
}

/// Big-endian reading of a concatenation.
proof fn lemma_be_append(a: Seq<u8>, b: Seq<u8>)
    ensures
        be_value(a + b) == be_value(a) * pow256(b.len()) + be_value(b),
    decreases b.len(),
{
    if b.len() == 0 {
        assert(a + b =~= a);
    } else {
        let b1 = b.drop_last();
        lemma_be_append(a, b1);
        assert((a + b).drop_last() =~= a + b1);
        let x = be_value(a);
        let y = pow256(b1.len());
        let z = be_value(b1);
        assert((x * y + z) * 256 == x * (256 * y) + z * 256) by (nonlinear_arith);
    }
}

/// Bounds of a big-endian reading.
proof fn lemma_be_bound(s: Seq<u8>)
    ensures
        0 <= be_value(s) < pow256(s.len()),
        s.len() > 0 && s[0] != 0 ==> be_value(s) >= pow256((s.len() - 1) as nat),
    decreases s.len(),
{
    if s.len() > 0 {
        let s1 = s.drop_last();
        lemma_be_bound(s1);
        let x = be_value(s1);
        let y = pow256(s1.len());
        assert(x * 256 + 255 < 256 * y) by (nonlinear_arith)
            requires
                0 <= x < y,
        ;
        assert(x * 256 >= 0) by (nonlinear_arith)
            requires
                x >= 0,
        ;
        if s[0] != 0 {
            if s1.len() == 0 {
                assert(be_value(s1) == 0);
            } else {
                assert(s1[0] == s[0]);
                let z = pow256((s1.len() - 1) as nat);
                assert(x * 256 >= z * 256) by (nonlinear_arith)
                    requires
                        x >= z,
                ;
            }
        }
    }
}

/// Leading zero bytes do not change a big-endian reading.
proof fn lemma_be_leading_zeros(s: Seq<u8>, f: int)
    requires
        0 <= f <= s.len(),
        forall|j: int| 0 <= j < f ==> s[j] == 0,
    ensures
        be_value(s) == be_value(s.subrange(f, s.len() as int)),
    decreases f,
{
    if f > 0 {
        let z = s.subrange(0, f);
        let rest = s.subrange(f, s.len() as int);
        assert(s =~= z + rest);
        lemma_be_append(z, rest);
        lemma_be_zeros(z);
        assert(0 * pow256(rest.len()) == 0);
    } else {
        assert(s.subrange(f, s.len() as int) =~= s);
    }
}

/// All-zero bytes read as zero.
proof fn lemma_be_zeros(s: Seq<u8>)
    requires
        forall|j: int| 0 <= j < s.len() ==> s[j] == 0,
    ensures
        be_value(s) == 0,
    decreases s.len(),
{
    if s.len() > 0 {
        lemma_be_zeros(s.drop_last());
    }
}

/// `256^n` grows with `n`.
proof fn lemma_pow256_mono(m: nat, n: nat)
    requires
        m <= n,
    ensures
        pow256(m) <= pow256(n),
    decreases n,
{
    if m < n {
        lemma_pow256_mono(m, (n - 1) as nat);
        lemma_pow256_pos((n - 1) as nat);
    }
}

/// `256^n` is positive.
proof fn lemma_pow256_pos(n: nat)
    ensures
        pow256(n) > 0,
    decreases n,
{
    if n > 0 {
        lemma_pow256_pos((n - 1) as nat);
    }
}

/// More than 32 significant bytes read as at least the field order.
proof fn lemma_be_long(s: Seq<u8>)
    requires
        s.len() > 32,
        s[0] != 0,
    ensures
        be_value(s) >= modulus(),
{
    lemma_be_bound(s);
    lemma_pow256_mono(32, (s.len() - 1) as nat);
    reveal_with_fuel(pow256, 33);
}

/// At most sixteen bytes read as less than the field order.
proof fn lemma_be_short(s: Seq<u8>)
    requires
        s.len() <= 16,
    ensures
        be_value(s) < modulus(),
{
    lemma_be_bound(s);
    lemma_pow256_mono(s.len(), 16);
    reveal_with_fuel(pow256, 17);
}

/// The big-endian integer of `u[a..b]`, at most sixteen bytes.
fn be_u128(u: &Vec<u8>, a: usize, b: usize) -> (r: u128)
    requires
        a <= b <= u@.len(),
        b - a <= 16,
    ensures
        r == be_value(u@.subrange(a as int, b as int)),
{
    let mut acc: u128 = 0;
    let mut i: usize = a;
    assert(u@.subrange(a as int, a as int) =~= Seq::<u8>::empty());
    while i < b
        invariant
            a <= i <= b,
            b <= u@.len(),
            b - a <= 16,
            acc == be_value(u@.subrange(a as int, i as int)),
        decreases b - i,
    {
        proof {
            lemma_be_bound(u@.subrange(a as int, i as int));
            lemma_pow256_mono((i - a) as nat, 15);
            reveal_with_fuel(pow256, 16);
            assert((acc as int) * 256 + 255 < 0x1_0000_0000_0000_0000_0000_0000_0000_0000int)
                by (nonlinear_arith)
                requires
                    (acc as int) < pow256(15),
                    pow256(15) == 0x1_0000_0000_0000_0000_0000_0000_0000_00int,
            ;
            assert(u@.subrange(a as int, i + 1).drop_last() =~= u@.subrange(a as int, i as int));
        }
        acc = acc * 256 + u[i] as u128;
        i = i + 1;
    }
    acc
}

/// The username's bytes read as a big-endian integer lie below the field order.
#[verifier::rlimit(30)]
fn username_fits(u: &Vec<u8>) -> (r: bool)
    ensures
        r == (be_value(u@) < modulus()),
{
    let n = u.len();
    let mut f: usize = 0;
    while f < n && u[f] == 0
        invariant
            f <= n,
            n == u@.len(),
            forall|j: int| 0 <= j < f ==> u@[j] == 0,
        decreases n - f,
    {
        f = f + 1;
    }
    proof {
        lemma_be_leading_zeros(u@, f as int);
    }
    let ghost rest = u@.subrange(f as int, n as int);
    let m = n - f;
    if m > 32 {
        proof {
            assert(rest[0] == u@[f as int]);
            lemma_be_long(rest);
        }
        return false;
    }
    if m <= 16 {
        proof {
            lemma_be_short(rest);
        }
        return true;
    }
    let split = n - 16;
    let hi = be_u128(u, f, split);
    let lo = be_u128(u, split, n);
    proof {
        let h = u@.subrange(f as int, split as int);
        let l = u@.subrange(split as int, n as int);
        assert(rest =~= h + l);
        lemma_be_append(h, l);
        reveal_with_fuel(pow256, 17);
        assert(pow256(16) == 0x1_0000_0000_0000_0000_0000_0000_0000_0000int);
    }
    let p_hi: u128 = 64323764613183177041862057485226039389;
    let p_lo: u128 = 53438638232309528389504892708671455233;
    let r = hi < p_hi || (hi == p_hi && lo < p_lo);
    proof {
        let t: int = 0x1_0000_0000_0000_0000_0000_0000_0000_0000int;
        assert(modulus() == p_hi * t + p_lo);
        assert(r == (hi * t + lo < p_hi * t + p_lo)) by (nonlinear_arith)
            requires
                r == (hi < p_hi || (hi == p_hi && lo < p_lo)),
                0 <= lo < t,
                0 <= p_lo < t,
                t > 0,
        ;
    }
    r
}

/// The integer whose little-endian bytes are `s`.
pub open spec fn le_value(s: Seq<u8>) -> int
    decreases s.len(),
{
    if s.len() == 0 {
        0
    } else {
        s[0] + 256 * le_value(s.drop_first())
    }
}

/// The element for an unsigned integer of any size given by its little-endian bytes (as
/// balances are): the integer reduced modulo the field order.
pub fn le_bytes_to_fe(b: &Vec<u8>) -> (r: Fe)
    ensures
        r@ == le_value(b@) % modulus(),
{
    let base = Fe::from_u64(256);
    let mut acc = Fe::zero();
    let n = b.len();
    let mut i: usize = n;
    assert(b@.subrange(n as int, n as int) =~= Seq::<u8>::empty());
    while i > 0
        invariant
            i <= n,
            n == b@.len(),
            base@ == 256,
            acc@ == le_value(b@.subrange(i as int, n as int)) % modulus(),
        decreases i,
    {
        i = i - 1;
        let ghost prev = le_value(b@.subrange(i + 1, n as int));
        let t = fe_mul(&acc, &base);
        let d = Fe::from_u64(b[i] as u64);
        acc = fe_add(&t, &d);
        proof {
            let s = b@.subrange(i as int, n as int);
            assert(s.drop_first() =~= b@.subrange(i + 1, n as int));
            lemma_cong_mod(prev);
            lemma_cong_mul(prev % modulus(), prev, 256, 256);
            lemma_cong_mod((prev % modulus()) * 256);
            lemma_cong_add(t@, prev * 256, d@, b@[i as int] as int);
            lemma_cong_mod(t@ + d@);
            assert(prev * 256 + b@[i as int] == b@[i as int] + 256 * prev);
        }
    }
    assert(b@.subrange(0, n as int) =~= b@);
    acc
}

/// The elements a record contributes: hash, username, then each balance.
pub open spec fn record_fields(r: Record) -> Seq<int> {
    seq![r.hash@, username_value(r.username@)] + values(r.balances@)
}

/// The elements of the records, one record after the other.
pub open spec fn flatten_spec(rs: Seq<Record>) -> Seq<int>
    decreases rs.len(),
{
    if rs.len() == 0 {
        Seq::empty()
    } else {
        flatten_spec(rs.drop_last()) + record_fields(rs.last())
    }
}

/// The elements of the chunks, one chunk after the other.
pub open spec fn concat_spec(chunks: Seq<Vec<Fe>>) -> Seq<int>
    decreases chunks.len(),
{
    if chunks.len() == 0 {
        Seq::empty()
    } else {
        concat_spec(chunks.drop_last()) + values(chunks.last()@)
    }
}

/// The data vector: a zero, then `fields`, then zeros up to length `n`.
pub open spec fn padded(fields: Seq<int>, n: nat) -> Seq<int> {
    (seq![0int] + fields) + Seq::new((n - 1 - fields.len()) as nat, |i: int| 0int)
}

/// Why a data vector could not be laid out.
#[derive(Clone, Copy, Debug, PartialEq, Eq)]
pub enum DataError {
    /// `2^k` is smaller than the sentinel and the records' elements.
    DomainTooSmall,
    /// `k` exceeds the two-adicity of the field.
    DomainTooLarge,
    /// A record does not hold one balance per asset.
    BalanceCount,
}

/// Every record holds exactly `n` balances.
pub open spec fn uniform_balances(rs: Seq<Record>, n: nat) -> bool {
    forall|i: int| 0 <= i < rs.len() ==> (#[trigger] rs[i]).balances@.len() == n
}

/// Every record holds exactly `n` balances.
fn balances_uniform(rs: &Vec<Record>, n: usize) -> (r: bool)
    ensures
        r == uniform_balances(rs@, n as nat),
{
    let mut i: usize = 0;
    while i < rs.len()
        invariant
            i <= rs@.len(),
            forall|j: int| 0 <= j < i ==> (#[trigger] rs@[j]).balances@.len() == n,
        decreases rs@.len() - i,
    {
        if rs[i].balances.len() != n {
            return false;
        }
        i = i + 1;
    }
    true
}

/// The element for a username: its bytes read as a big-endian integer, or zero when that
/// integer does not lie below the field order.
pub fn username_to_fe(u: &Vec<u8>) -> (r: Fe)
    ensures
        r@ == username_value(u@),
{
    if !username_fits(u) {
        return Fe::zero();
    }
    let base = Fe::from_u64(256);
    let mut acc = Fe::zero();
    let mut i: usize = 0;
    assert(u@.subrange(0, 0) =~= Seq::<u8>::empty());
    while i < u.len()
        invariant
            i <= u@.len(),
            base@ == 256,
            acc@ == be_value(u@.subrange(0, i as int)) % modulus(),
        decreases u@.len() - i,
    {
        let ghost prev = be_value(u@.subrange(0, i as int));
        let t = fe_mul(&acc, &base);
        let b = Fe::from_u64(u[i] as u64);
        acc = fe_add(&t, &b);
        proof {
            let s = u@.subrange(0, i + 1);
            assert(s.drop_last() =~= u@.subrange(0, i as int));
            lemma_cong_mod(prev);
            lemma_cong_mul(prev % modulus(), prev, 256, 256);
            lemma_cong_mod((prev % modulus()) * 256);
            lemma_cong_add(t@, prev * 256, b@, u@[i as int] as int);
            lemma_cong_mod(t@ + b@);
        }
        i = i + 1;
    }
    assert(u@.subrange(0, i as int) =~= u@);
    proof {
        lemma_be_bound(u@);
        vstd::arithmetic::div_mod::lemma_small_mod(be_value(u@) as nat, modulus() as nat);
    }
    acc
}

/// The elements of the records, one record after the other: for each record its hash, its
/// username and its balances.
pub fn flatten_records(records: &[Record]) -> (r: Vec<Fe>)
    ensures
        values(r@) == flatten_spec(records@),
{
    let mut out: Vec<Fe> = Vec::new();
    let mut i: usize = 0;
    assert(records@.subrange(0, 0) =~= Seq::<Record>::empty());
    while i < records.len()
        invariant
            i <= records@.len(),
            values(out@) == flatten_spec(records@.subrange(0, i as int)),
        decreases records@.len() - i,
    {
        let rec = &records[i];
        let ghost start = out@;
        let ghost sl: int = start.len() as int;
        out.push(rec.hash);
        out.push(username_to_fe(&rec.username));
        let mut j: usize = 0;
        while j < rec.balances.len()
            invariant
                j <= rec.balances@.len(),
                sl == start.len(),
                out@.len() == sl + 2 + j,
                out@.subrange(0, sl) == start,
                out@[sl] == rec.hash,
                out@[sl + 1]@ == username_value(rec.username@),
                forall|t: int| 0 <= t < j ==> out@[sl + 2 + t] == rec.balances@[t],
            decreases rec.balances@.len() - j,
        {
            out.push(rec.balances[j]);
            j = j + 1;
            assert(out@.subrange(0, sl) =~= start);
        }
        proof {
            let s = records@.subrange(0, i + 1);
            assert(s.drop_last() =~= records@.subrange(0, i as int));
            assert(s.last() == *rec);
            assert(values(out@) =~= values(start) + record_fields(*rec)) by {
                assert forall|t: int| 0 <= t < sl implies out@[t] == start[t] by {
                    assert(out@.subrange(0, sl)[t] == out@[t]);
                }
            }
        }
        i = i + 1;
    }
    assert(records@.subrange(0, i as int) =~= records@);
    out
}

/// A prefix of the chunks and the next chunk hold no more elements than all the chunks.
proof fn lemma_concat_prefix_len(chunks: Seq<Vec<Fe>>, i: int)
    requires
        0 <= i < chunks.len(),
    ensures
        concat_spec(chunks.subrange(0, i)).len() + chunks[i]@.len() <= concat_spec(chunks).len(),
    decreases chunks.len(),
{
    let d = chunks.drop_last();
    if i == chunks.len() - 1 {
        assert(d =~= chunks.subrange(0, i));
    } else {
        assert(d.subrange(0, i) =~= chunks.subrange(0, i));
        lemma_concat_prefix_len(d, i);
    }
}

/// Lays out the data vector: a zero, then the elements of the chunks in chunk order, then
/// zeros up to length `2^k`.
#[verifier::rlimit(30)]
pub fn assemble_data(chunks: &Vec<Vec<Fe>>, k: u32) -> (r: Result<Vec<Fe>, DataError>)
    ensures
        r == Err::<Vec<Fe>, _>(DataError::DomainTooLarge) <==> k > TWO_ADICITY,
        r == Err::<Vec<Fe>, _>(DataError::DomainTooSmall) <==> (k <= TWO_ADICITY && 1
            + concat_spec(chunks@).len() > pow2(k as nat)),
        r matches Ok(d) ==> values(d@) == padded(concat_spec(chunks@), pow2(k as nat)),
        r != Err::<Vec<Fe>, _>(DataError::BalanceCount),
{
    if k > TWO_ADICITY {
        return Err(DataError::DomainTooLarge);
    }
    proof {
        vstd::arithmetic::power2::lemma2_to64();
        if k < TWO_ADICITY {
            vstd::arithmetic::power2::lemma_pow2_strictly_increases(k as nat, TWO_ADICITY as nat);
        }
    }
    let n = match pow2_usize(k) {
        Some(m) => m,
        None => {
            return Err(DataError::DomainTooLarge);
        },
    };
    let mut data: Vec<Fe> = vec![Fe::zero()];
    let mut i: usize = 0;
    assert(chunks@.subrange(0, 0) =~= Seq::<Vec<Fe>>::empty());
    assert(values(data@) =~= seq![0int]);
    while i < chunks.len()
        invariant
            i <= chunks@.len(),
            k <= TWO_ADICITY,
            n == pow2(k as nat),
            data@.len() <= n,
            values(data@) == seq![0int] + concat_spec(chunks@.subrange(0, i as int)),
        decreases chunks@.len() - i,
    {
        let c = &chunks[i];
        let mut j: usize = 0;
        let ghost base = values(data@);
        assert(c@.subrange(0, 0) =~= Seq::<Fe>::empty());
        assert(base + values(c@.subrange(0, 0)) =~= base);
        while j < c.len()
            invariant
                i < chunks@.len(),
                *c == chunks@[i as int],
                j <= c@.len(),
                k <= TWO_ADICITY,
                n == pow2(k as nat),
                data@.len() <= n,
                base == seq![0int] + concat_spec(chunks@.subrange(0, i as int)),
                values(data@) == base + values(c@.subrange(0, j as int)),
            decreases c@.len() - j,
        {
            if data.len() >= n {
                proof {
                    lemma_concat_prefix_len(chunks@, i as int);
                    assert(values(data@).len() == data@.len());
                    assert(values(c@.subrange(0, j as int)).len() == j);
                    assert(base.len() == 1 + concat_spec(chunks@.subrange(0, i as int)).len());
                }
                return Err(DataError::DomainTooSmall);
            }
            let ghost before = values(data@);
            data.push(c[j]);
            j = j + 1;
            assert(values(data@) =~= base + values(c@.subrange(0, j as int))) by {
                assert(values(c@.subrange(0, j as int)) =~= values(c@.subrange(0, j - 1)).push(
                    c@[j - 1]@,
                ));
                assert(values(data@) =~= before.push(c@[j - 1]@));
            }
        }
        proof {
            let s = chunks@.subrange(0, i + 1);
            assert(s.drop_last() =~= chunks@.subrange(0, i as int));
            assert(c@.subrange(0, j as int) =~= c@);
        }
        i = i + 1;
    }
    assert(chunks@.subrange(0, i as int) =~= chunks@);
    let ghost body = values(data@);
    let m = data.len();
    while data.len() < n
        invariant
            m <= data@.len() <= n,
            k <= TWO_ADICITY,
            n == pow2(k as nat),
            values(data@).subrange(0, m as int) == body,
            forall|t: int| m <= t < data@.len() ==> (#[trigger] data@[t])@ == 0,
        decreases n - data@.len(),
    {
        let ghost before = values(data@);
        data.push(Fe::zero());
        assert(values(data@) =~= before.push(0int));
        assert(values(data@).subrange(0, m as int) =~= before.subrange(0, m as int));
    }
    proof {
        let f = concat_spec(chunks@);
        let want = padded(f, n as nat);
        assert(body.len() == 1 + f.len());
        assert forall|t: int| 0 <= t < n implies values(data@)[t] == want[t] by {
            if t < m {
                assert(values(data@).subrange(0, m as int)[t] == values(data@)[t]);
            } else {
                assert(data@[t]@ == 0);
            }
        }
        assert(values(data@) =~= want);
    }
    Ok(data)
}

/// The insecure, testing-only trusted setup: `userdata_len` powers of `tau` in G1 and
/// `n_openings + 1` in G2. A real deployment derives these from a ceremony in
/// which no party learns `tau`.
pub fn mock_trusted_setup(tau: Fe, userdata_len: usize, n_openings: usize) -> (r: pp)
    requires
        n_openings < usize::MAX,
    ensures
        encodings(r.ptau_g1@) == g1_powers(tau@, userdata_len as nat),
        g2_encodings(r.ptau_g2@) == g2_powers(tau@, (n_openings + 1) as nat),
{
    let n1: usize = userdata_len;
    let mut g1: Vec<G1Point> = Vec::new();
    let mut t = Fe::one();
    let mut i: usize = 0;
    while i < n1
        invariant
            i <= n1,
            t@ == fpow(tau@, i as nat),
            encodings(g1@) =~= g1_powers(tau@, i as nat),
        decreases n1 - i,
    {
        let ghost old_g = g1@;
        let ghost prev = t@;
        g1.push(g1_gen_times(&t));
        t = fe_mul(&t, &tau);
        proof {
            assert(prev * tau@ == tau@ * prev) by (nonlinear_arith);
            assert(encodings(g1@) =~= encodings(old_g).push(g1_gen_mul(prev)));
            assert(g1_powers(tau@, (i + 1) as nat) =~= g1_powers(tau@, i as nat).push(
                g1_gen_mul(prev),
            ));
        }
        i = i + 1;
    }
    let n2: usize = n_openings + 1;
    let mut g2: Vec<G2Point> = Vec::new();
    let mut t2 = Fe::one();
    let mut j: usize = 0;
    while j < n2
        invariant
            j <= n2,
            t2@ == fpow(tau@, j as nat),
            g2_encodings(g2@) =~= g2_powers(tau@, j as nat),
        decreases n2 - j,
    {
        let ghost old_g = g2@;
        let ghost prev = t2@;
        g2.push(g2_gen_times(&t2));
        t2 = fe_mul(&t2, &tau);
        proof {
            assert(prev * tau@ == tau@ * prev) by (nonlinear_arith);
            assert(g2_encodings(g2@) =~= g2_encodings(old_g).push(g2_gen_mul(prev)));
            assert(g2_powers(tau@, (j + 1) as nat) =~= g2_powers(tau@, j as nat).push(
                g2_gen_mul(prev),
            ));
        }
        j = j + 1;
    }
    pp { ptau_g1: g1, ptau_g2: g2 }
}

/// The records of a sequence of chunks, one chunk after the other.
pub open spec fn join_chunks(cs: Seq<Seq<Record>>) -> Seq<Record>
    decreases cs.len(),
{
    if cs.len() == 0 {
        Seq::empty()
    } else {
        join_chunks(cs.drop_last()) + cs.last()
    }
}

/// Flattening distributes over concatenation of record sequences.
pub proof fn lemma_flatten_append(a: Seq<Record>, b: Seq<Record>)
    ensures
        flatten_spec(a + b) == flatten_spec(a) + flatten_spec(b),
    decreases b.len(),
{
    if b.len() == 0 {
        assert(a + b =~= a);
        assert(flatten_spec(a) + flatten_spec(b) =~= flatten_spec(a));
    } else {
        let b1 = b.drop_last();
        lemma_flatten_append(a, b1);
        assert((a + b).drop_last() =~= a + b1);
        assert((a + b).last() == b.last());
        assert(flatten_spec(a + b) =~= flatten_spec(a) + flatten_spec(b));
    }
}

/// Ingestion in chunks keeps the order of the records: when each chunk of a contiguous
/// partition is flattened on its own and the results are laid out in chunk order, the
/// elements are those of one pass over all the records.
pub proof fn lemma_chunked_ingestion(cs: Seq<Seq<Record>>, results: Seq<Vec<Fe>>)
    requires
        results.len() == cs.len(),
        forall|i: int| 0 <= i < cs.len() ==> values(#[trigger] results[i]@) == flatten_spec(cs[i]),
    ensures
        concat_spec(results) == flatten_spec(join_chunks(cs)),
    decreases cs.len(),
{
    if cs.len() > 0 {
        let n = cs.len() - 1;
        lemma_chunked_ingestion(cs.drop_last(), results.drop_last());
        lemma_flatten_append(join_chunks(cs.drop_last()), cs.last());
        assert(values(results[n]@) == flatten_spec(cs[n]));
    }
}

/// Each record with `n` balances contributes `n + 2` elements.
pub proof fn lemma_flatten_len(rs: Seq<Record>, n: nat)
    requires
        forall|i: int| 0 <= i < rs.len() ==> (#[trigger] rs[i]).balances@.len() == n,
    ensures
        flatten_spec(rs).len() == rs.len() * (n + 2),
    decreases rs.len(),
{
    if rs.len() > 0 {
        let c = rs.len() - 1;
        lemma_flatten_len(rs.drop_last(), n);
        assert(rs.last() == rs[c]);
        assert(c * (n + 2) + (n + 2) == rs.len() * (n + 2)) by (nonlinear_arith)
            requires
                c == rs.len() - 1,
        ;
    }
}

/// Padding: for `c` records of `n` balances each and `2^k >= c * (n + 2) + 1`, the data
/// vector fits, has length exactly `2^k`, starts with the zero sentinel, and holds zero at
/// every index past the records' elements.
pub proof fn lemma_padding(rs: Seq<Record>, n: nat, k: nat)
    requires
        forall|i: int| 0 <= i < rs.len() ==> (#[trigger] rs[i]).balances@.len() == n,
        pow2(k) >= rs.len() * (n + 2) + 1,
    ensures
        1 + flatten_spec(rs).len() <= pow2(k),
        padded(flatten_spec(rs), pow2(k)).len() == pow2(k),
        padded(flatten_spec(rs), pow2(k))[0] == 0,
        forall|i: int|
            rs.len() * (n + 2) + 1 <= i < pow2(k) ==> #[trigger] padded(flatten_spec(rs), pow2(k))[i]
                == 0,
{
    lemma_flatten_len(rs, n);
}

/// Why an opening proof was not produced.
#[derive(Clone, Copy, Debug, PartialEq, Eq)]
pub enum OpenError {
    /// The range is empty or runs past the data.
    InvalidRange,
    /// The remainder of `p` by the vanishing polynomial misses an opened value: the data and
    /// the polynomial disagree (never so in a well-formed session).
    NotDivisible,
    /// There are fewer powers in G1 than quotient coefficients.
    SrsTooShort,
}

/// The domain points `omega^i` of the indices `from <= i < to`.
pub open spec fn opened_points(omega: int, from: nat, to: nat) -> Seq<int> {
    Seq::new((to - from) as nat, |i: int| fpow(omega, (from + i) as nat))
}

/// The data values at the indices `from <= i < to`.
pub open spec fn opened_values(data: Seq<Fe>, from: nat, to: nat) -> Seq<int> {
    Seq::new((to - from) as nat, |i: int| data[from + i]@)
}

/// `q` is the quotient of `p - r` by the vanishing polynomial of `pts`, and `r`, of degree
/// below the number of points, takes the values `vals` at `pts`.
pub open spec fn is_opening(
    p: Seq<int>,
    q: Seq<int>,
    r: Seq<int>,
    pts: Seq<int>,
    vals: Seq<int>,
) -> bool {
    &&& forall|i: int| 0 <= i < pts.len() ==> #[trigger] peval(r, pts[i]) == vals[i]
    &&& forall|j: int| j >= pts.len() ==> #[trigger] coeff(r, j) == 0
    &&& forall|x: int|
        (#[trigger] peval(p, x) - peval(r, x)) % modulus() == (peval(q, x) * vprod(pts, x))
            % modulus()
}

/// The domain points `omega^i` for `from <= i < to`.
fn domain_points(omega: &Fe, from: usize, to: usize) -> (r: Vec<Fe>)
    requires
        from <= to,
    ensures
        values(r@) == opened_points(omega@, from as nat, to as nat),
{
    let ghost w = omega@;
    let mut cur = Fe::one();
    let mut e: usize = 0;
    proof {
        reveal_with_fuel(fpow, 1);
    }
    while e < from
        invariant
            e <= from,
            w == omega@,
            cur@ == fpow(w, e as nat),
        decreases from - e,
    {
        let ghost prev = cur@;
        cur = fe_mul(&cur, omega);
        proof {
            assert(prev * w == w * prev) by (nonlinear_arith);
        }
        e = e + 1;
    }
    let m = to - from;
    let mut pts: Vec<Fe> = Vec::new();
    let mut i: usize = 0;
    while i < m
        invariant
            from <= to,
            m == to - from,
            i <= m,
            w == omega@,
            cur@ == fpow(w, (from + i) as nat),
            values(pts@) =~= opened_points(w, from as nat, (from + i) as nat),
        decreases m - i,
    {
        let ghost old_pts = values(pts@);
        let ghost prev = cur@;
        pts.push(cur);
        cur = fe_mul(&cur, omega);
        proof {
            assert(prev * w == w * prev) by (nonlinear_arith);
            assert(values(pts@) =~= old_pts.push(prev));
        }
        i = i + 1;
    }
    pts
}

/// The vanishing product is zero at each of its points.
proof fn lemma_vprod_root(pts: Seq<int>, i: int)
    requires
        0 <= i < pts.len(),
    ensures
        vprod(pts, pts[i]) == 0,
    decreases pts.len(),
{
    let x = pts[i];
    let rest = vprod(pts.drop_last(), x);
    if i == pts.len() - 1 {
        assert((x - pts.last()) * rest == 0 * rest);
    } else {
        assert(pts.drop_last()[i] == x);
        lemma_vprod_root(pts.drop_last(), i);
        assert((x - pts.last()) * 0 == 0);
    }
}

/// From `p = q * z + r` with `z` vanishing on `pts`: `p - r = q * z`.
proof fn lemma_opening_relation(p: Seq<int>, q: Seq<int>, rp: Seq<int>, z: Seq<int>, pts: Seq<int>)
    requires
        forall|x: int| peval(z, x) == vprod(pts, x),
        forall|x: int| peval(p, x) == (peval(q, x) * peval(z, x) + peval(rp, x)) % modulus(),
    ensures
        forall|x: int|
            (#[trigger] peval(p, x) - peval(rp, x)) % modulus() == (peval(q, x) * vprod(pts, x))
                % modulus(),
{
    assert forall|x: int|
        (#[trigger] peval(p, x) - peval(rp, x)) % modulus() == (peval(q, x) * vprod(pts, x))
            % modulus() by {
        let a = peval(q, x) * peval(z, x);
        let b = peval(rp, x);
        assert(peval(z, x) == vprod(pts, x));
        lemma_cong_mod(a + b);
        lemma_cong_sub(peval(p, x), a + b, b, b);
    }
}

/// The quotient of `p` by the polynomial vanishing on `pts`.
pub open spec fn opening_quotient(p: Seq<int>, pts: Seq<int>) -> Seq<int> {
    monic_div(p, vanishing_spec(pts)).0
}

/// The remainder of `p` by the polynomial vanishing on `pts`: the polynomial of degree below
/// `pts.len()` that agrees with `p` on `pts`.
pub open spec fn opening_remainder(p: Seq<int>, pts: Seq<int>) -> Seq<int> {
    monic_div(p, vanishing_spec(pts)).1
}

/// The number of quotient coefficients when a polynomial with `n` coefficients is divided
/// by one vanishing on `m` points.
pub open spec fn quotient_len(n: nat, m: nat) -> nat {
    if n < m + 1 {
        1
    } else {
        (n - m) as nat
    }
}

/// One commitment session for records of `N_ASSETS` balances each: the records, the
/// parameters, the padded data vector and the polynomial that takes `data[i]` at `omega^i`.
pub struct UserData<const N_ASSETS: usize> {
    pub k: u32,
    pub pp: pp,
    pub entries: Vec<Record>,
    pub data: Vec<Fe>,
    pub p: Polynomial,
    pub omega: Fe,
}

impl<const N_ASSETS: usize> UserData<N_ASSETS> {
    /// Every record holds `N_ASSETS` balances, `omega` is the generator of the `2^k`-th roots
    /// of unity, the data fills the domain,
    /// and `p`, of degree below `2^k`, interpolates it.
    pub open spec fn wf(&self) -> bool {
        &&& self.k <= TWO_ADICITY
        &&& uniform_balances(self.entries@, N_ASSETS as nat)
        &&& self.omega@ == domain_root(self.k as nat)
        &&& is_primitive_root(self.omega@, self.k as nat)
        &&& self.data@.len() == pow2(self.k as nat)
        &&& self.p@.len() == self.data@.len()
        &&& forall|i: int|
            0 <= i < self.data@.len() ==> #[trigger] peval(self.p@, fpow(self.omega@, i as nat))
                == self.data@[i]@
    }

    /// The generator of the domain, of order `2^k`.
    pub fn root_of_unity(&self) -> (r: Fe)
        ensures
            r == self.omega,
    {
        self.omega
    }

    /// Lays out the records' elements over the domain of size `2^k` and interpolates them.
    #[verifier::rlimit(30)]
    pub fn new(entries: Vec<Record>, pp: pp, k: u32) -> (r: Result<Self, DataError>)
        ensures
            r matches Err(e) ==> e == if !uniform_balances(entries@, N_ASSETS as nat) {
                DataError::BalanceCount
            } else if k > TWO_ADICITY {
                DataError::DomainTooLarge
            } else {
                DataError::DomainTooSmall
            },
            r is Err <==> (!uniform_balances(entries@, N_ASSETS as nat) || k > TWO_ADICITY || 1
                + flatten_spec(entries@).len() > pow2(k as nat)),
            r matches Ok(u) ==> {
                &&& u.wf()
                &&& u.k == k
                &&& u.entries@ == entries@
                &&& u.pp == pp
                &&& values(u.data@) == padded(flatten_spec(entries@), pow2(k as nat))
                &&& entries@.len() == 0 ==> all_zero(u.p@)
            },
    {
        let flat = flatten_records(entries.as_slice());
        let ghost fv = values(flat@);
        let mut chunks: Vec<Vec<Fe>> = Vec::new();
        chunks.push(flat);
        proof {
            assert(fv == flatten_spec(entries@));
            assert(chunks@.drop_last() =~= Seq::<Vec<Fe>>::empty());
            assert(chunks@.last()@ == flat@);
            assert(concat_spec(chunks@) =~= concat_spec(Seq::<Vec<Fe>>::empty()) + fv);
            assert(concat_spec(chunks@) =~= flatten_spec(entries@));
            if entries@.len() == 0 {
                assert(flatten_spec(entries@) =~= Seq::<int>::empty());
            }
        }
        Self::from_chunks(entries, &chunks, pp, k)
    }

    /// Lays out elements already flattened in contiguous chunks of the records (as
    /// `flatten_records` gives them, chunk by chunk) over the domain of size `2^k`, in chunk
    /// order, and interpolates them.
    #[verifier::rlimit(30)]
    pub fn from_chunks(entries: Vec<Record>, chunks: &Vec<Vec<Fe>>, pp: pp, k: u32) -> (r: Result<
        Self,
        DataError,
    >)
        ensures
            r matches Err(e) ==> e == if !uniform_balances(entries@, N_ASSETS as nat) {
                DataError::BalanceCount
            } else if k > TWO_ADICITY {
                DataError::DomainTooLarge
            } else {
                DataError::DomainTooSmall
            },
            r is Err <==> (!uniform_balances(entries@, N_ASSETS as nat) || k > TWO_ADICITY || 1
                + concat_spec(chunks@).len() > pow2(k as nat)),
            r matches Ok(u) ==> {
                &&& u.wf()
                &&& u.k == k
                &&& u.entries@ == entries@
                &&& u.pp == pp
                &&& values(u.data@) == padded(concat_spec(chunks@), pow2(k as nat))
                &&& all_zero(concat_spec(chunks@)) ==> all_zero(u.p@)
            },
    {
        if !balances_uniform(&entries, N_ASSETS) {
            return Err(DataError::BalanceCount);
        }
        let data = match assemble_data(chunks, k) {
            Err(e) => {
                return Err(e);
            },
            Ok(d) => d,
        };
        let omega = match root_of_unity(k) {
            Some(w) => w,
            None => {
                return Err(DataError::DomainTooLarge);
            },
        };
        proof {
            assert(k <= TWO_ADICITY);
            assert(1 + concat_spec(chunks@).len() <= pow2(k as nat));
            assert(values(data@).len() == data@.len());
            assert(data@.len() == pow2(k as nat));
        }
        proof {
            if all_zero(concat_spec(chunks@)) {
                assert(all_zero(values(data@)));
            }
        }
        let p = match Polynomial::interpolate_fft(&data, &omega, k) {
            Ok(p) => p,
            Err(_) => {
                assert(false);
                return Err(DataError::DomainTooSmall);
            },
        };
        Ok(UserData { k, pp, entries, data, p, omega })
    }

    /// The data values at the indices `from <= i < to`.
    fn data_slice(&self, from: usize, to: usize) -> (r: Vec<Fe>)
        requires
            from <= to <= self.data@.len(),
        ensures
            values(r@) == opened_values(self.data@, from as nat, to as nat),
    {
        let mut vals: Vec<Fe> = Vec::new();
        let mut i: usize = from;
        while i < to
            invariant
                from <= i <= to,
                to <= self.data@.len(),
                values(vals@) =~= opened_values(self.data@, from as nat, i as nat),
            decreases to - i,
        {
            let ghost old_vals = values(vals@);
            vals.push(self.data[i]);
            proof {
                assert(values(vals@) =~= old_vals.push(self.data@[i as int]@));
            }
            i = i + 1;
        }
        vals
    }

    /// The commitment: `p` evaluated at the secret point through the G1 powers. `None` when
    /// there are fewer powers than coefficients.
    pub fn commit_vector(&self) -> (r: Option<G1Point>)
        ensures
            r is None <==> self.pp.ptau_g1@.len() < terms(self.p@),
            r matches Some(g) ==> g@ == msm(self.p@, encodings(self.pp.ptau_g1@)),
    {
        evaluate_at_srs(&self.p, &self.pp.ptau_g1)
    }

    /// The opening proof of the indices `from <= i < to`. With `z` the polynomial that
    /// vanishes on the opened points, `p = q * z + r` by Euclidean division, where `r` (of
    /// degree below the number of opened points) takes the opened values there; the proof
    /// is `q` evaluated at the secret point. A remainder that misses an opened value means
    /// the data and the polynomial disagree, and is reported rather than proved.
    #[verifier::rlimit(30)]
    pub fn open_prf(&self, from: usize, to: usize) -> (r: Result<G1Point, OpenError>)
        requires
            self.wf(),
        ensures
            r == Err::<G1Point, _>(OpenError::InvalidRange) <==> !(from < to && to
                <= self.data@.len()),
            from < to && to <= self.data@.len() ==> r != Err::<G1Point, _>(
                OpenError::NotDivisible,
            ),
            r == Err::<G1Point, _>(OpenError::SrsTooShort) <==> (from < to && to
                <= self.data@.len() && self.pp.ptau_g1@.len() < quotient_len(
                self.data@.len(),
                (to - from) as nat,
            )),
            r matches Ok(g) ==> {
                let pts = opened_points(self.omega@, from as nat, to as nat);
                let q = opening_quotient(self.p@, pts);
                &&& is_opening(
                    self.p@,
                    q,
                    opening_remainder(self.p@, pts),
                    pts,
                    opened_values(self.data@, from as nat, to as nat),
                )
                &&& q.len() == quotient_len(self.data@.len(), (to - from) as nat)
                &&& g@ == msm(q, encodings(self.pp.ptau_g1@))
            },
    {
        if !(from < to && to <= self.data.len()) {
            return Err(OpenError::InvalidRange);
        }
        let ghost w = self.omega@;
        let pts = domain_points(&self.omega, from, to);
        let vals = self.data_slice(from, to);
        let ghost opts = opened_points(w, from as nat, to as nat);
        let ghost ovals = opened_values(self.data@, from as nat, to as nat);
        let z = Polynomial::vanishing(&pts);
        let (q, rp) = match self.p.divide_euclid(&z) {
            Some(qr) => qr,
            None => {
                assert(z@.last() == 1);
                return Err(OpenError::NotDivisible);
            },
        };
        let m = to - from;
        let mut t: usize = 0;
        assert(values(pts@).len() == pts@.len());
        assert(values(vals@).len() == vals@.len());
        while t < m
            invariant
                m == to - from,
                from < to <= self.data@.len(),
                t <= m,
                self.wf(),
                w == self.omega@,
                values(pts@) == opts,
                values(vals@) == ovals,
                pts@.len() == m,
                vals@.len() == m,
                opts == opened_points(w, from as nat, to as nat),
                ovals == opened_values(self.data@, from as nat, to as nat),
                forall|x: int| peval(z@, x) == vprod(values(pts@), x),
                forall|x: int|
                    peval(self.p@, x) == (peval(q@, x) * peval(z@, x) + peval(rp@, x))
                        % modulus(),
                forall|j: int| 0 <= j < t ==> #[trigger] peval(rp@, opts[j]) == ovals[j],
            decreases m - t,
        {
            let e = rp.evaluate(&pts[t]);
            let d = fe_sub(&e, &vals[t]);
            proof {
                assert(pts@[t as int]@ == opts[t as int]);
                assert(vals@[t as int]@ == ovals[t as int]);
                lemma_vprod_root(opts, t as int);
                let x = opts[t as int];
                assert(x == fpow(w, (from + t) as nat));
                assert(peval(self.p@, x) == self.data@[from + t]@);
                assert(peval(q@, x) * 0 == 0);
                lemma_peval_range(rp@, x);
                vstd::arithmetic::div_mod::lemma_small_mod(peval(rp@, x) as nat, modulus() as nat);
            }
            if !fe_is_zero(&d) {
                return Err(OpenError::NotDivisible);
            }
            t = t + 1;
        }
        proof {
            lemma_opening_relation(self.p@, q@, rp@, z@, opts);
            assert(is_opening(self.p@, q@, rp@, opts, ovals));
            assert(z@ == vanishing_spec(opts));
            assert(q@ == opening_quotient(self.p@, opts));
            assert(rp@ == opening_remainder(self.p@, opts));
        }
        match evaluate_at_srs(&q, &self.pp.ptau_g1) {
            Some(g) => Ok(g),
            None => Err(OpenError::SrsTooShort),
        }
    }
}

} // verus!
