use plonky2_prover::extension::QuadraticExtension;
use plonky2_prover::field::{
    batch_multiplicative_inverse, exp_power_of_2, geometric, primitive_root_of_unity,
    two_adic_subgroup, Field, TwoAdicRing,
};
use plonky2_prover::goldilocks::GoldilocksField;
use plonky2_prover::prime::ORDER;
use plonky2_prover::ring::{subtract, Ring};

fn g(x: u64) -> GoldilocksField {
    GoldilocksField(x)
}

fn canonical(xs: &[GoldilocksField]) -> Vec<u64> {
    xs.iter().map(|x| x.to_canonical_u64()).collect()
}

#[test]
fn representations_of_one_element_are_equal() {
    assert!(g(5).equals(g(ORDER + 5)));
    assert!(!g(5).equals(g(6)));
    assert_eq!(g(ORDER + 5).to_canonical_u64(), 5);
    assert_eq!(g(u64::MAX).to_canonical_u64(), u64::MAX - ORDER);
    assert_eq!(g(ORDER).to_canonical_u64(), 0);
}

#[test]
fn sums_and_products_are_reduced() {
    assert_eq!(g(ORDER - 1).add(g(3)).0, 2);
    assert_eq!(g(u64::MAX).add(g(u64::MAX)).0, 8589934588);
    assert_eq!(g(ORDER - 1).mul(g(ORDER - 1)).0, 1);
    assert_eq!(g(1 << 32).mul(g(1 << 32)).0, (1 << 32) - 1);
    assert_eq!(g(0).neg().0, 0);
    assert_eq!(g(1).neg().0, ORDER - 1);
    assert_eq!(subtract(g(3), g(5)).0, ORDER - 2);
}

#[test]
fn the_laws_of_a_ring_hold() {
    let (a, b, c) = (g(u64::MAX), g(123456789), g(ORDER - 42));
    assert!(a.add(b).add(c).equals(a.add(b.add(c))));
    assert!(a.mul(b).mul(c).equals(a.mul(b.mul(c))));
    assert!(a.mul(b.add(c)).equals(a.mul(b).add(a.mul(c))));
    assert!(a.mul(b).equals(b.mul(a)));
    assert!(a.add(a.neg()).equals(GoldilocksField::zero_element()));
    assert!(a.mul(GoldilocksField::one_element()).equals(a));
}

#[test]
fn inverses() {
    assert_eq!(g(3).try_inverse().unwrap().0, 12297829379609722881);
    assert_eq!(g(7).try_inverse().unwrap().0, 2635249152773512046);
    assert_eq!(g(ORDER + 3).try_inverse().unwrap().0, 12297829379609722881);
    assert!(g(0).try_inverse().is_none());
    assert!(g(ORDER).try_inverse().is_none());
}

#[test]
fn batch_inverses() {
    let xs = vec![g(1), g(2), g(3)];
    let inverses = batch_multiplicative_inverse(&xs).unwrap();
    assert_eq!(
        canonical(&inverses),
        vec![1, 9223372034707292161, 12297829379609722881]
    );
    assert!(batch_multiplicative_inverse(&vec![g(1), g(ORDER)]).is_none());
    assert!(batch_multiplicative_inverse::<GoldilocksField>(&vec![])
        .unwrap()
        .is_empty());
}

#[test]
fn roots_of_unity() {
    let roots: Vec<u64> = (0..4)
        .map(|k| primitive_root_of_unity::<GoldilocksField>(k).0)
        .collect();
    assert_eq!(
        roots,
        vec![1, ORDER - 1, 281474976710656, 18446744069397807105]
    );
    assert_eq!(GoldilocksField::two_adicity(), 32);
    let root = GoldilocksField::power_of_two_generator();
    assert_eq!(exp_power_of_2(root, 31).0, ORDER - 1);
    assert_eq!(exp_power_of_2(root, 32).0, 1);
    assert_eq!(exp_power_of_2(g(ORDER + 2), 0).0, ORDER + 2);
    assert_eq!(exp_power_of_2(g(2), 5).0, 1 << 32);
}

#[test]
fn subgroups_list_the_powers_of_their_generator() {
    assert_eq!(
        canonical(&two_adic_subgroup::<GoldilocksField>(2)),
        vec![1, 281474976710656, ORDER - 1, ORDER - 281474976710656]
    );
    assert_eq!(canonical(&geometric(g(3), 4)), vec![1, 3, 9, 27]);
    assert!(geometric(g(3), 0).is_empty());
}

#[test]
fn the_shift_is_in_no_two_power_subgroup() {
    let shift = GoldilocksField::coset_shift();
    assert!(!exp_power_of_2(shift, 32).equals(GoldilocksField::one_element()));
}

#[test]
fn the_extension_multiplies_modulo_its_polynomial() {
    let a = QuadraticExtension(g(1), g(2));
    let b = QuadraticExtension(g(3), g(4));
    let c = a.mul(b);
    assert_eq!((c.0 .0, c.1 .0), (59, 10));
    let d = a.add(b);
    assert_eq!((d.0 .0, d.1 .0), (4, 6));
    let e = a.neg();
    assert_eq!((e.0 .0, e.1 .0), (ORDER - 1, ORDER - 2));
    assert!(a.equals(QuadraticExtension(g(ORDER + 1), g(2))));
    assert!(!a.equals(b));
}

#[test]
fn the_extension_has_one_more_doubling() {
    assert_eq!(QuadraticExtension::two_adicity(), 33);
    let root = QuadraticExtension::power_of_two_generator();
    let square = root.mul(root);
    assert_eq!(square.0 .0, GoldilocksField::power_of_two_generator().0);
    assert_eq!(square.1 .0, 0);
    let half = exp_power_of_2(root, 32);
    assert_eq!((half.0 .0, half.1 .0), (ORDER - 1, 0));
}
