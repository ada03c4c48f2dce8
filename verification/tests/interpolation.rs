use ark_bn254::{g1::Config as BnConfig, Fq, Fr, G1Affine};
use ark_ec::{
    scalar_mul::fixed_base::FixedBase,
    short_weierstrass::{Affine, Projective, SWCurveConfig},
    AffineRepr, CurveGroup, VariableBaseMSM,
};
use ark_ff::{BigInt, Field, PrimeField};
use ark_poly::{EvaluationDomain, Radix2EvaluationDomain};
use ark_std::{rand::RngCore, One, UniformRand, Zero};
use lagrange_srs::curve::{distribute_powers, Point};
use lagrange_srs::error::InterpolationError;
use lagrange_srs::field::{BaseElement, ScalarElement};
use lagrange_srs::round::{batch_inverse, fft_round};
use lagrange_srs::srs_to_lagrange;

fn base(x: Fq) -> BaseElement {
    BaseElement { limbs: x.into_bigint().0 }
}

fn base_back(x: &BaseElement) -> Fq {
    Fq::from_bigint(BigInt::new(x.limbs)).unwrap()
}

fn scalar(x: Fr) -> ScalarElement {
    ScalarElement { limbs: x.into_bigint().0 }
}

fn point(p: &G1Affine) -> Point {
    Point { x: base(p.x), y: base(p.y), infinity: p.infinity }
}

fn affine(p: &Point) -> G1Affine {
    G1Affine { x: base_back(&p.x), y: base_back(&p.y), infinity: p.infinity }
}

fn points(ps: &[G1Affine]) -> Vec<Point> {
    ps.iter().map(point).collect()
}

fn affines(ps: &[Point]) -> Vec<G1Affine> {
    ps.iter().map(affine).collect()
}

fn multiple(k: u64) -> G1Affine {
    (G1Affine::generator() * Fr::from(k)).into_affine()
}

/// We only generate the G1 points for testing purposes.
fn gen_srs_for_testing<E: SWCurveConfig, R: RngCore>(
    rng: &mut R,
    max_degree: usize,
) -> Result<Vec<Affine<E>>, InterpolationError> {
    let beta = E::ScalarField::rand(rng);
    let g = Projective::<E>::rand(rng);

    let mut powers_of_beta = vec![E::ScalarField::one()];

    let mut cur = beta;
    for _ in 0..max_degree {
        powers_of_beta.push(cur);
        cur *= &beta;
    }

    let window_size = FixedBase::get_mul_window_size(max_degree + 1);

    let scalar_bits = E::ScalarField::MODULUS_BIT_SIZE as usize;

    let g_table = FixedBase::get_window_table(scalar_bits, window_size, g);
    let powers_of_g =
        FixedBase::msm::<Projective<E>>(scalar_bits, window_size, &g_table, &powers_of_beta);

    let powers_of_g = Projective::<E>::normalize_batch(&powers_of_g);

    Ok(powers_of_g)
}

fn commit(basis: &[G1Affine], weights: &[Fr]) -> G1Affine {
    Projective::<BnConfig>::msm_bigint(
        basis,
        &weights.iter().map(|x| x.into_bigint()).collect::<Vec<_>>(),
    )
    .into_affine()
}

#[test]
fn test_srs_interpolation() -> Result<(), InterpolationError> {
    test_srs_interpolation_helper();
    Ok(())
}

fn test_srs_interpolation_helper() {
    let rng = &mut ark_std::test_rng();
    for i in 5..10 {
        let max_degree = (1usize << i) - 1;

        let domain = Radix2EvaluationDomain::<Fr>::new(max_degree + 1).unwrap();
        let srs = gen_srs_for_testing::<BnConfig, _>(rng, max_degree).unwrap();

        let evals = (0..(max_degree + 1))
            .map(|_| Fr::rand(rng))
            .collect::<Vec<Fr>>();

        let coeffs = domain.ifft(&evals);

        let coeff_commitment = Projective::<BnConfig>::msm_bigint(
            &srs,
            &coeffs.iter().map(|x| x.into_bigint()).collect::<Vec<_>>(),
        )
        .into_affine();

        let lagrange_srs = affines(&srs_to_lagrange(&points(&srs)).unwrap());

        let lagrange_commitment = Projective::<BnConfig>::msm_bigint(
            &lagrange_srs,
            &evals.iter().map(|x| x.into_bigint()).collect::<Vec<_>>(),
        )
        .into_affine();

        assert_eq!(coeff_commitment, lagrange_commitment);
    }
}

#[test]
fn small_sizes_commit_alike_in_both_bases() {
    let rng = &mut ark_std::test_rng();
    for i in 1..5 {
        let n = 1usize << i;
        let domain = Radix2EvaluationDomain::<Fr>::new(n).unwrap();
        let srs = gen_srs_for_testing::<BnConfig, _>(rng, n - 1).unwrap();
        let evals = (0..n).map(|_| Fr::rand(rng)).collect::<Vec<Fr>>();
        let coeffs = domain.ifft(&evals);
        let basis = affines(&srs_to_lagrange(&points(&srs)).unwrap());
        assert_eq!(basis.len(), n);
        assert_eq!(commit(&srs, &coeffs), commit(&basis, &evals));
    }
}

#[test]
fn size_two_basis_is_half_the_sum_and_half_the_difference() {
    let p = multiple(3);
    let q = multiple(7);
    let basis = affines(&srs_to_lagrange(&points(&[p, q])).unwrap());
    let half = Fr::from(2u64).inverse().unwrap();
    assert_eq!(basis[0], ((p + q) * half).into_affine());
    assert_eq!(basis[1], ((p - q) * half).into_affine());
    assert_eq!(basis[0], multiple(5));
}

#[test]
fn single_point_is_returned_unchanged() {
    let p = multiple(11);
    let out = srs_to_lagrange(&points(&[p])).unwrap();
    assert_eq!(out, points(&[p]));
}

#[test]
fn lengths_that_are_no_power_of_two_are_refused() {
    let srs: Vec<G1Affine> = (1..=9u64).map(multiple).collect();
    for n in [3usize, 5, 6, 7, 9] {
        let r = srs_to_lagrange(&points(&srs[..n]));
        assert!(matches!(r, Err(InterpolationError::SizeError)));
    }
}

#[test]
fn empty_input_is_refused() {
    let r = srs_to_lagrange(&[]);
    assert!(matches!(r, Err(InterpolationError::SizeError)));
}

#[test]
fn repeated_calls_agree() {
    let rng = &mut ark_std::test_rng();
    let srs = points(&gen_srs_for_testing::<BnConfig, _>(rng, 15).unwrap());
    let first = srs_to_lagrange(&srs).unwrap();
    let second = srs_to_lagrange(&srs).unwrap();
    assert_eq!(first, second);
}

#[test]
fn only_one_rescale_by_the_inverse_size_commits_alike() {
    let rng = &mut ark_std::test_rng();
    let n = 8usize;
    let domain = Radix2EvaluationDomain::<Fr>::new(n).unwrap();
    let srs = gen_srs_for_testing::<BnConfig, _>(rng, n - 1).unwrap();
    let evals = (0..n).map(|_| Fr::rand(rng)).collect::<Vec<Fr>>();
    let coeffs = domain.ifft(&evals);
    let expected = commit(&srs, &coeffs);
    let basis = affines(&srs_to_lagrange(&points(&srs)).unwrap());
    assert_eq!(expected, commit(&basis, &evals));

    let size = Fr::from(n as u64);
    let unscaled: Vec<G1Affine> = basis.iter().map(|p| (*p * size).into_affine()).collect();
    assert_ne!(expected, commit(&unscaled, &evals));
    let size_inverse = size.inverse().unwrap();
    let twice: Vec<G1Affine> = basis.iter().map(|p| (*p * size_inverse).into_affine()).collect();
    assert_ne!(expected, commit(&twice, &evals));
}

#[test]
fn equal_x_coordinates_in_a_pair_are_a_field_error() {
    let p = multiple(5);
    let r = srs_to_lagrange(&points(&[p, p]));
    assert!(matches!(r, Err(InterpolationError::FieldError(_))));
    assert_eq!(
        r.unwrap_err().message(),
        "Field error: Could not invert batch inversion accumulator"
    );
    let mut negated = p;
    negated.y = -negated.y;
    let r = srs_to_lagrange(&points(&[p, negated]));
    assert!(matches!(r, Err(InterpolationError::FieldError(_))));
}

#[test]
fn distribute_powers_multiplies_by_ascending_powers() {
    let given: Vec<G1Affine> = (1..=5u64).map(multiple).collect();
    let g = Fr::from(3u64);
    let mut all = points(&given);
    distribute_powers(&mut all, scalar(g));
    let mut power = Fr::one();
    for i in 0..5 {
        assert_eq!(affine(&all[i]), (given[i] * power).into_affine());
        power *= g;
    }
    assert_eq!(affine(&all[3]), multiple(4 * 27));

    let mut part = points(&given);
    distribute_powers(&mut part[2..4], scalar(g));
    assert_eq!(affine(&part[0]), given[0]);
    assert_eq!(affine(&part[1]), given[1]);
    assert_eq!(affine(&part[2]), given[2]);
    assert_eq!(affine(&part[3]), (given[3] * g).into_affine());
    assert_eq!(affine(&part[4]), given[4]);

    let mut none = points(&given);
    distribute_powers(&mut none[3..3], scalar(g));
    assert_eq!(none, points(&given));
}

#[test]
fn first_round_replaces_neighbours_by_sum_and_difference() {
    let given = [multiple(2), multiple(9), multiple(4), multiple(30)];
    let mut work = points(&given);
    fft_round::<true>(&mut work, scalar(Fr::from(12345u64)), 1).unwrap();
    let out = affines(&work);
    assert_eq!(out[0], multiple(11));
    assert_eq!(out[1], (given[0] - given[1]).into_affine());
    assert_eq!(out[2], multiple(34));
    assert_eq!(out[3], (given[2] - given[3]).into_affine());
}

#[test]
fn later_round_twists_the_upper_half_of_each_block() {
    let given = [multiple(2), multiple(9), multiple(4), multiple(30)];
    let g = Fr::from(5u64);
    let mut work = points(&given);
    fft_round::<false>(&mut work, scalar(g), 2).unwrap();
    let out = affines(&work);
    let twisted = (given[3] * g).into_affine();
    assert_eq!(out[0], (given[0] + given[2]).into_affine());
    assert_eq!(out[1], (given[1] + twisted).into_affine());
    assert_eq!(out[2], (given[0] - given[2]).into_affine());
    assert_eq!(out[3], (given[1] - twisted).into_affine());
    assert_eq!(out[1], multiple(159));
}

#[test]
fn a_round_with_equal_x_coordinates_fails() {
    let mut work = points(&[multiple(2), multiple(2)]);
    let r = fft_round::<true>(&mut work, scalar(Fr::one()), 1);
    assert!(matches!(r, Err(InterpolationError::FieldError(_))));
    assert_eq!(work.len(), 2);
}

#[test]
fn batch_inverse_inverts_every_element() {
    let given = [Fq::from(2u64), Fq::from(3u64), -Fq::from(5u64), Fq::from(1u64 << 40)];
    let elements: Vec<BaseElement> = given.iter().map(|x| base(*x)).collect();
    let inverses = batch_inverse(&elements).unwrap();
    assert_eq!(inverses.len(), 4);
    for i in 0..4 {
        assert_eq!(base_back(&inverses[i]) * given[i], Fq::one());
        assert_eq!(base_back(&inverses[i]), given[i].inverse().unwrap());
    }
    assert_eq!(batch_inverse(&Vec::new()), Some(Vec::new()));
}

#[test]
fn batch_inverse_has_no_result_with_a_zero_among_the_elements() {
    let elements = vec![base(Fq::from(2u64)), base(Fq::zero()), base(Fq::from(7u64))];
    assert_eq!(batch_inverse(&elements), None);
}

#[test]
fn elements_are_in_their_field_below_the_modulus_only() {
    assert!(base(Fq::from(0u64)).in_field());
    assert!(base(-Fq::one()).in_field());
    let modulus = BaseElement { limbs: Fq::MODULUS.0 };
    assert!(!modulus.in_field());
    assert!(!BaseElement { limbs: [u64::MAX; 4] }.in_field());
    assert!(scalar(-Fr::one()).in_field());
    assert!(!ScalarElement { limbs: Fr::MODULUS.0 }.in_field());
    assert_eq!(BaseElement::one(), base(Fq::one()));
    assert!(point(&multiple(3)).in_field());
    let outside = Point { x: modulus, y: base(Fq::one()), infinity: false };
    assert!(!outside.in_field());
}

#[test]
fn errors_describe_themselves() {
    assert_eq!(
        InterpolationError::InvalidParameters(String::from("bad index")).message(),
        "Invalid parameters: bad index"
    );
    assert_eq!(
        InterpolationError::FieldError(String::from("no inverse")).message(),
        "Field error: no inverse"
    );
    assert_eq!(
        InterpolationError::SizeError.message(),
        "Size error: the provided SRS size was not a power of two"
    );
}
