use plonky2_prover::field::{primitive_root_of_unity, Field};
use plonky2_prover::goldilocks::GoldilocksField;
use plonky2_prover::polynomial::{PolynomialCoeffs, PolynomialValues};
use plonky2_prover::prime::ORDER;
use plonky2_prover::ring::Ring;
use plonky2_prover::zero_poly_coset::ZeroPolyOnCoset;

fn g(x: u64) -> GoldilocksField {
    GoldilocksField(x)
}

fn elements(xs: &[u64]) -> Vec<GoldilocksField> {
    xs.iter().map(|x| g(*x)).collect()
}

fn numbers(xs: &[GoldilocksField]) -> Vec<u64> {
    xs.iter().map(|x| x.to_canonical_u64()).collect()
}

fn eval(coeffs: &[GoldilocksField], x: GoldilocksField) -> GoldilocksField {
    coeffs.iter().rev().fold(g(0), |acc, c| acc.mul(x).add(*c))
}

#[test]
fn interpolation_on_a_coset() {
    let values = PolynomialValues::new(elements(&[1, 2, 3, 4]));
    let poly = values.coset_ifft(g(7));
    assert_eq!(
        numbers(&poly.coeffs),
        vec![
            9223372034707292163,
            9223392140062771493,
            15623262834300107129,
            10675447688167074730
        ]
    );
}

#[test]
fn interpolated_polynomials_take_the_given_values() {
    for k in 0..6 {
        let n = 1u64 << k;
        let numbers: Vec<u64> = (0..n).map(|i| ORDER - 1 - i * i * 1000).collect();
        let values = PolynomialValues::new(elements(&numbers));
        let shift = GoldilocksField::coset_shift();
        let poly = values.coset_ifft(shift);
        assert_eq!(poly.coeffs.len(), n as usize);
        let w = primitive_root_of_unity::<GoldilocksField>(k);
        let mut x = shift;
        for y in numbers {
            assert_eq!(eval(&poly.coeffs, x).0, y);
            x = x.mul(w);
        }
    }
}

#[test]
fn interpolation_recovers_coefficients() {
    let coeffs = elements(&[5, 0, 7, 1]);
    let w = primitive_root_of_unity::<GoldilocksField>(2);
    let shift = GoldilocksField::coset_shift();
    let mut values = vec![];
    let mut x = shift;
    for _ in 0..4 {
        values.push(eval(&coeffs, x));
        x = x.mul(w);
    }
    let poly = PolynomialValues::new(values).coset_ifft(shift);
    assert_eq!(numbers(&poly.coeffs), vec![5, 0, 7, 1]);
}

#[test]
fn trimming_drops_zeros_only() {
    let mut poly = PolynomialCoeffs::new(elements(&[1, 2, 0, ORDER]));
    assert!(poly.trim_to_len(2));
    assert_eq!(numbers(&poly.coeffs), vec![1, 2]);
    assert!(!poly.trim_to_len(1));
    assert_eq!(numbers(&poly.coeffs), vec![1, 2]);
    assert!(!poly.trim_to_len(3));
    assert_eq!(numbers(&poly.coeffs), vec![1, 2]);
    assert!(poly.trim_to_len(2));
}

#[test]
fn chunks_recombine() {
    let poly = PolynomialCoeffs::new(elements(&[1, 2, 3, 4, 5]));
    let chunks = poly.chunks(2);
    let parts: Vec<Vec<u64>> = chunks.iter().map(|c| numbers(&c.coeffs)).collect();
    assert_eq!(parts, vec![vec![1, 2], vec![3, 4], vec![5]]);
    let x = g(10);
    let mut total = g(0);
    for chunk in chunks.iter().rev() {
        total = total.mul(x.mul(x)).add(eval(&chunk.coeffs, x));
    }
    assert_eq!(total.0, 54321);
    assert_eq!(eval(&poly.coeffs, x).0, 54321);
    assert!(PolynomialCoeffs::<GoldilocksField>::new(vec![]).chunks(3).is_empty());
}

#[test]
fn the_vanishing_polynomial_on_the_coset() {
    let z_h = ZeroPolyOnCoset::<GoldilocksField>::new(1, 1);
    let evals: Vec<u64> = (0..4).map(|i| z_h.eval(i).0).collect();
    assert_eq!(evals, vec![48, ORDER - 50, 48, ORDER - 50]);
    for i in 0..4 {
        assert_eq!(z_h.eval(i).mul(z_h.eval_inverse(i)).0, 1);
    }
}
