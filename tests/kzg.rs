use halo2curves_axiom::bn256::{Fr, G1Affine};
use halo2curves_axiom::group::Curve;
use halo2curves_axiom::serde::SerdeObject;
use kzg_mst::field::{root_of_unity, Fe};
use kzg_mst::group::evaluate_at_srs;
use kzg_mst::poly::{pow2_usize, InterpolationError, Polynomial};
use kzg_mst::user_data::{
    assemble_data, flatten_records, le_bytes_to_fe, mock_trusted_setup, username_to_fe,
    DataError, OpenError, Record, UserData,
};
use ff::PrimeField;

const P_MINUS_ONE: [u64; 4] = [
    0x43e1f593f0000000,
    0x2833e84879b97091,
    0xb85045b68181585d,
    0x30644e72e131a029,
];

fn fe(x: u64) -> Fe {
    Fe::from_u64(x)
}

fn fes(xs: &[u64]) -> Vec<Fe> {
    xs.iter().map(|x| fe(*x)).collect()
}

fn power(x: &Fe, n: usize) -> Fe {
    Polynomial::constant(Fe::one()).shift(n).evaluate(x)
}

fn record(i: u64) -> Record {
    Record {
        hash: fe(1000 + i),
        username: format!("user{}", i).into_bytes(),
        balances: vec![fe(10 * i + 1), fe(10 * i + 2)],
    }
}

fn g1_times(s: &Fe) -> Vec<u8> {
    (G1Affine::generator() * Fr::from_raw(s.limbs))
        .to_affine()
        .to_raw_bytes()
}

#[test]
fn evaluate_uses_horner_exactly() {
    let p = Polynomial::new(fes(&[1, 2, 3]));
    assert_eq!(p.evaluate(&fe(2)), fe(17));
    assert_eq!(p.evaluate(&fe(0)), fe(1));
}

#[test]
fn subtraction_wraps_around_the_modulus() {
    let a = Polynomial::new(fes(&[0]));
    let b = Polynomial::new(fes(&[1, 5]));
    let d = a.sub(&b);
    assert_eq!(d.coeffs.len(), 2);
    assert_eq!(d.coeffs[0], Fe { limbs: P_MINUS_ONE });
    assert_eq!(d.add(&b).coeffs, fes(&[0, 0]));
}

#[test]
fn vanishing_is_monic_with_the_given_roots() {
    let pts = fes(&[2, 3]);
    let z = Polynomial::vanishing(&pts);
    // (X - 2)(X - 3) = X^2 - 5X + 6
    assert_eq!(z.coeffs.len(), 3);
    assert_eq!(z.coeffs[0], fe(6));
    assert_eq!(z.coeffs[2], fe(1));
    assert_eq!(z.evaluate(&fe(2)), Fe::zero());
    assert_eq!(z.evaluate(&fe(3)), Fe::zero());
    assert_eq!(z.evaluate(&fe(4)), fe(2));
}

#[test]
fn division_gives_quotient_and_remainder() {
    // X^2 + 3X + 5 = (X + 1)(X + 2) + 3
    let num = Polynomial::new(fes(&[5, 3, 1]));
    let den = Polynomial::new(fes(&[1, 1]));
    let (q, rem) = num.divide_euclid(&den).unwrap();
    assert_eq!(q.evaluate(&fe(7)), fe(9));
    assert_eq!(rem.coeffs[0], fe(3));
    assert!(rem.coeffs[1..].iter().all(|c| *c == Fe::zero()));
}

#[test]
fn division_by_zero_leading_coefficient_is_refused() {
    let num = Polynomial::new(fes(&[5, 3, 1]));
    let den = Polynomial::new(fes(&[1, 0]));
    assert!(num.divide_euclid(&den).is_none());
    assert!(num.divide_euclid(&Polynomial::new(vec![])).is_none());
}

#[test]
fn lagrange_interpolates_the_points() {
    let pts = fes(&[1, 2, 5]);
    let vals = fes(&[7, 11, 4]);
    let p = Polynomial::interpolate_lagrange(&pts, &vals).unwrap();
    assert_eq!(p.coeffs.len(), 3);
    for i in 0..3 {
        assert_eq!(p.evaluate(&pts[i]), vals[i]);
    }
}

#[test]
fn lagrange_refuses_repeated_points() {
    let r = Polynomial::interpolate_lagrange(&fes(&[1, 2, 1]), &fes(&[1, 2, 3]));
    assert_eq!(r, Err(InterpolationError::RepeatedPoint));
}

#[test]
fn lagrange_refuses_mismatched_lengths() {
    let r = Polynomial::interpolate_lagrange(&fes(&[1, 2]), &fes(&[1]));
    assert_eq!(r, Err(InterpolationError::LengthMismatch));
    let e = Polynomial::interpolate_lagrange(&vec![], &vec![]);
    assert_eq!(e, Err(InterpolationError::LengthMismatch));
}

#[test]
fn root_of_unity_has_exact_order() {
    for k in 1..5u32 {
        let w = root_of_unity(k).unwrap();
        let n = 1usize << k;
        assert_eq!(power(&w, n), Fe::one());
        assert_eq!(power(&w, n / 2), Fe { limbs: P_MINUS_ONE });
    }
    assert_eq!(root_of_unity(0), Some(Fe::one()));
    assert_eq!(root_of_unity(29), None);
}

#[test]
fn largest_root_of_unity_is_the_field_constant() {
    let w = root_of_unity(28).unwrap();
    assert_eq!(w, Fe { limbs: Fr::ROOT_OF_UNITY.into() });
    assert_ne!(w, Fe::one());
}

#[test]
fn little_endian_bytes_become_their_integer() {
    assert_eq!(le_bytes_to_fe(&vec![0x01, 0x02]), fe(0x0201));
    assert_eq!(le_bytes_to_fe(&vec![]), Fe::zero());
    assert_eq!(
        le_bytes_to_fe(&vec![0xff; 33]),
        Fe {
            limbs: [
                0xf6e31f8c9ffffab5,
                0x5d7570ac31329fae,
                0x276f48b709e2a349,
                0x0d791464ef86e357
            ]
        }
    );
}

#[test]
fn squared_root_generates_the_smaller_domain() {
    for k in 1..=28u32 {
        let w = root_of_unity(k).unwrap();
        let sq = Polynomial::constant(w).scale(&w).coeffs[0];
        assert_eq!(sq, root_of_unity(k - 1).unwrap());
    }
}

#[test]
fn interpolation_round_trip() {
    let k = 3u32;
    let w = root_of_unity(k).unwrap();
    let v = fes(&[9, 0, 4, 4, 1, 123456789, 0, 77]);
    let p = Polynomial::interpolate_fft(&v, &w, k).unwrap();
    assert_eq!(p.coeffs.len(), 8);
    for i in 0..8 {
        assert_eq!(p.evaluate(&power(&w, i)), v[i]);
    }
}

#[test]
fn interpolation_checks_the_length() {
    let w = root_of_unity(2).unwrap();
    let r = Polynomial::interpolate_fft(&fes(&[1, 2, 3]), &w, 2);
    assert_eq!(r, Err(InterpolationError::LengthMismatch));
}

#[test]
fn interpolation_over_a_bad_root_is_refused() {
    // 1 has order one: all domain points coincide.
    let r = Polynomial::interpolate_fft(&fes(&[1, 2, 3, 4]), &Fe::one(), 2);
    assert_eq!(r, Err(InterpolationError::RepeatedPoint));
}

#[test]
fn pow2_usize_values() {
    assert_eq!(pow2_usize(0), Some(1));
    assert_eq!(pow2_usize(10), Some(1024));
    assert_eq!(pow2_usize(200), None);
}

#[test]
fn username_is_read_big_endian() {
    assert_eq!(username_to_fe(&vec![1, 0]), fe(256));
    assert_eq!(username_to_fe(&b"ab".to_vec()), fe(0x6162));
    assert_eq!(username_to_fe(&vec![]), Fe::zero());
}

fn modulus_be_bytes() -> Vec<u8> {
    let mut v = Vec::new();
    for limb in P_MINUS_ONE.iter().rev() {
        v.extend_from_slice(&limb.to_be_bytes());
    }
    // P = (P - 1) + 1, and P - 1 ends in a zero byte.
    *v.last_mut().unwrap() += 1;
    v
}

#[test]
fn username_at_or_above_the_modulus_falls_back_to_zero() {
    assert_eq!(username_to_fe(&modulus_be_bytes()), Fe::zero());
    assert_eq!(username_to_fe(&vec![0xff; 32]), Fe::zero());
    assert_eq!(username_to_fe(&vec![1u8; 33]), Fe::zero());
}

#[test]
fn username_below_the_modulus_is_kept() {
    let mut below = modulus_be_bytes();
    *below.last_mut().unwrap() -= 1;
    assert_eq!(username_to_fe(&below), Fe { limbs: P_MINUS_ONE });
    assert_eq!(
        username_to_fe(&vec![7u8; 32]),
        Fe { limbs: [0x0707070707070707; 4] }
    );
    let mut padded = vec![0u8; 10];
    padded.extend_from_slice(&[7u8; 32]);
    assert_eq!(username_to_fe(&padded), Fe { limbs: [0x0707070707070707; 4] });
}

#[test]
fn chunked_ingestion_keeps_record_order() {
    let records: Vec<Record> = (0..9).map(record).collect();
    let whole = flatten_records(&records);
    let chunks: Vec<Vec<Fe>> = records.chunks(3).map(|c| flatten_records(c)).collect();
    let joined: Vec<Fe> = chunks.iter().flatten().copied().collect();
    assert_eq!(joined, whole);
    assert_eq!(whole.len(), 36);
    assert_eq!(
        assemble_data(&chunks, 6).unwrap(),
        assemble_data(&vec![whole], 6).unwrap()
    );
}

#[test]
fn padding_fills_the_domain_with_zeros() {
    let records: Vec<Record> = (0..3).map(record).collect();
    let flat = flatten_records(&records);
    let data = assemble_data(&vec![flat.clone()], 4).unwrap();
    assert_eq!(data.len(), 16);
    assert_eq!(data[0], Fe::zero());
    assert_eq!(&data[1..13], &flat[..]);
    assert!(data[13..].iter().all(|x| *x == Fe::zero()));
}

#[test]
fn layout_that_does_not_fit_is_refused() {
    let records: Vec<Record> = (0..4).map(record).collect();
    let flat = flatten_records(&records);
    assert_eq!(assemble_data(&vec![flat.clone()], 4), Err(DataError::DomainTooSmall));
    assert_eq!(assemble_data(&vec![flat], 29), Err(DataError::DomainTooLarge));
}

#[test]
fn four_records_two_assets() {
    let records: Vec<Record> = (0..4).map(record).collect();
    let pp = mock_trusted_setup(fe(111), 17, 8);
    // 4 records of 4 elements and the sentinel need 17 slots: 2^4 is too small.
    assert_eq!(
        UserData::<2>::new((0..4).map(record).collect(), pp, 4).err(),
        Some(DataError::DomainTooSmall)
    );
    let pp = mock_trusted_setup(fe(111), 33, 8);
    let u = UserData::<2>::new(records, pp, 5).unwrap();
    assert_eq!(u.data.len(), 32);
    assert_eq!(u.data[0], Fe::zero());
    let r0 = record(0);
    assert_eq!(
        &u.data[1..5],
        &[r0.hash, username_to_fe(&r0.username), r0.balances[0], r0.balances[1]][..]
    );
    assert!(u.data[17..].iter().all(|x| *x == Fe::zero()));
    for i in 0..32 {
        assert_eq!(u.p.evaluate(&power(&u.root_of_unity(), i)), u.data[i]);
    }
}

#[test]
fn chunk_results_give_the_same_session() {
    let tau = fe(111);
    let records: Vec<Record> = (0..9).map(record).collect();
    let chunks: Vec<Vec<Fe>> = records.chunks(3).map(|c| flatten_records(c)).collect();
    let a = UserData::<2>::from_chunks((0..9).map(record).collect(), &chunks, mock_trusted_setup(tau, 64, 8), 6)
        .unwrap();
    let b = UserData::<2>::new(records, mock_trusted_setup(tau, 64, 8), 6).unwrap();
    assert_eq!(a.data, b.data);
    assert_eq!(a.p, b.p);
    assert_eq!(a.root_of_unity(), root_of_unity(6).unwrap());
    assert_eq!(
        a.open_prf(5, 9).unwrap().to_bytes(),
        b.open_prf(5, 9).unwrap().to_bytes()
    );
}

#[test]
fn empty_batch_is_all_zero() {
    let pp = mock_trusted_setup(fe(5), 2, 1);
    let u = UserData::<2>::new(vec![], pp, 1).unwrap();
    assert_eq!(u.data, vec![Fe::zero(), Fe::zero()]);
    assert!(u.p.is_zero());
    assert_eq!(u.p.coeffs.len(), 2);
}

#[test]
fn records_with_another_balance_count_are_refused() {
    let pp = mock_trusted_setup(fe(5), 16, 1);
    let mut records: Vec<Record> = (0..3).map(record).collect();
    records[1].balances.push(fe(9));
    assert_eq!(
        UserData::<2>::new(records, pp, 4).err(),
        Some(DataError::BalanceCount)
    );
}

#[test]
fn domain_exponent_beyond_two_adicity_is_refused() {
    let pp = mock_trusted_setup(fe(5), 2, 1);
    assert_eq!(
        UserData::<2>::new(vec![], pp, 29).err(),
        Some(DataError::DomainTooLarge)
    );
}

#[test]
fn trusted_setup_holds_powers_of_tau() {
    let tau = fe(111);
    let pp = mock_trusted_setup(tau, 4, 2);
    assert_eq!(pp.ptau_g1.len(), 4);
    assert_eq!(pp.ptau_g2.len(), 3);
    for i in 0..4 {
        assert_eq!(pp.ptau_g1[i].to_bytes(), g1_times(&power(&tau, i)));
    }
    assert_ne!(pp.ptau_g2[1].to_bytes(), pp.ptau_g2[2].to_bytes());
    let empty = mock_trusted_setup(tau, 0, 0);
    assert_eq!(empty.ptau_g1.len(), 0);
    assert_eq!(empty.ptau_g2.len(), 1);
    let small = mock_trusted_setup(tau, 2, 1);
    for i in 0..2 {
        assert_eq!(small.ptau_g1[i].to_bytes(), pp.ptau_g1[i].to_bytes());
        assert_eq!(small.ptau_g2[i].to_bytes(), pp.ptau_g2[i].to_bytes());
    }
}

#[test]
fn evaluation_at_srs_is_evaluation_at_tau() {
    let tau = fe(111);
    let pp = mock_trusted_setup(tau, 4, 1);
    let p = Polynomial::new(fes(&[3, 0, 8, 1]));
    let g = evaluate_at_srs(&p, &pp.ptau_g1).unwrap();
    assert_eq!(g.to_bytes(), g1_times(&p.evaluate(&tau)));
    let long = Polynomial::new(fes(&[1, 2, 3, 4, 5]));
    assert!(evaluate_at_srs(&long, &pp.ptau_g1).is_none());
}

#[test]
fn commitment_is_p_of_tau() {
    let tau = fe(111);
    let pp = mock_trusted_setup(tau, 17, 8);
    let records: Vec<Record> = (0..3).map(record).collect();
    let u = UserData::<2>::new(records, pp, 4).unwrap();
    let c = u.commit_vector().unwrap();
    assert_eq!(c.to_bytes(), g1_times(&u.p.evaluate(&tau)));
}

#[test]
fn commitments_of_distinct_vectors_differ() {
    let tau = fe(987654321);
    let mut seen: Vec<Vec<u8>> = Vec::new();
    for variant in 0..6u64 {
        let pp = mock_trusted_setup(tau, 17, 8);
        let mut records: Vec<Record> = (0..3).map(record).collect();
        records[(variant % 3) as usize].balances[0] = fe(50_000 + variant);
        let u = UserData::<2>::new(records, pp, 4).unwrap();
        let c = u.commit_vector().unwrap().to_bytes();
        assert!(!seen.contains(&c));
        seen.push(c);
    }
}

#[test]
fn opening_quotient_divides_exactly() {
    let tau = fe(111);
    let pp = mock_trusted_setup(tau, 17, 8);
    let records: Vec<Record> = (0..3).map(record).collect();
    let u = UserData::<2>::new(records, pp, 4).unwrap();
    let w = u.root_of_unity();
    let pts: Vec<Fe> = (1..4).map(|i| power(&w, i)).collect();
    let vals: Vec<Fe> = (1..4).map(|i| u.data[i]).collect();
    let r = Polynomial::interpolate_lagrange(&pts, &vals).unwrap();
    let z = Polynomial::vanishing(&pts);
    let (q, rem) = u.p.sub(&r).divide_euclid(&z).unwrap();
    assert!(rem.is_zero());
    // The proof is q(tau) in G1, and q(tau) z(tau) = p(tau) - r(tau).
    let proof = u.open_prf(1, 4).unwrap();
    assert_eq!(proof.to_bytes(), g1_times(&q.evaluate(&tau)));
    let lhs = Polynomial::constant(q.evaluate(&tau)).scale(&z.evaluate(&tau));
    let rhs = Polynomial::constant(u.p.evaluate(&tau)).sub(&Polynomial::constant(r.evaluate(&tau)));
    assert_eq!(lhs, rhs);
}

#[test]
fn repeated_openings_agree() {
    let pp = mock_trusted_setup(fe(111), 17, 8);
    let u = UserData::<2>::new((0..3).map(record).collect(), pp, 4).unwrap();
    let a = u.open_prf(2, 7).unwrap().to_bytes();
    let b = u.open_prf(2, 7).unwrap().to_bytes();
    assert_eq!(a, b);
    assert_ne!(a, u.open_prf(2, 6).unwrap().to_bytes());
}

#[test]
fn opening_needs_one_power_per_quotient_coefficient() {
    // 16 data points, 3 opened: the quotient has 13 coefficients.
    let short = mock_trusted_setup(fe(111), 12, 8);
    let u = UserData::<2>::new((0..3).map(record).collect(), short, 4).unwrap();
    assert_eq!(u.open_prf(1, 4).err(), Some(OpenError::SrsTooShort));
    let exact = mock_trusted_setup(fe(111), 13, 8);
    let v = UserData::<2>::new((0..3).map(record).collect(), exact, 4).unwrap();
    assert!(v.open_prf(1, 4).is_ok());
}

#[test]
fn opening_of_an_invalid_range_is_refused() {
    let pp = mock_trusted_setup(fe(111), 17, 8);
    let u = UserData::<2>::new((0..3).map(record).collect(), pp, 4).unwrap();
    assert_eq!(u.open_prf(4, 4).err(), Some(OpenError::InvalidRange));
    assert_eq!(u.open_prf(5, 3).err(), Some(OpenError::InvalidRange));
    assert_eq!(u.open_prf(10, 17).err(), Some(OpenError::InvalidRange));
    assert!(u.open_prf(0, 16).is_ok());
}

#[test]
fn opening_with_a_short_srs_is_refused() {
    let pp = mock_trusted_setup(fe(111), 2, 1);
    let u = UserData::<2>::new((0..3).map(record).collect(), pp, 4).unwrap();
    assert!(u.commit_vector().is_none());
    assert_eq!(u.open_prf(1, 4).err(), Some(OpenError::SrsTooShort));
}

#[test]
fn opening_of_tampered_data_is_refused() {
    let pp = mock_trusted_setup(fe(111), 17, 8);
    let mut u = UserData::<2>::new((0..3).map(record).collect(), pp, 4).unwrap();
    u.data[2] = fe(424242);
    assert_eq!(u.open_prf(1, 4).err(), Some(OpenError::NotDivisible));
}
