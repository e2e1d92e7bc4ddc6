use field_fft::field::FieldElement;
use field_fft::residue::Residue;

#[test]
fn new_reduces_modulo_the_modulus() {
    assert_eq!(Residue::<5>::new(0).get(), 0);
    assert_eq!(Residue::<5>::new(4).get(), 4);
    assert_eq!(Residue::<5>::new(5).get(), 0);
    assert_eq!(Residue::<5>::new(12).get(), 2);
    assert_eq!(Residue::<17>::new(u64::MAX).get(), u64::MAX % 17);
}

#[test]
fn identities() {
    assert_eq!(Residue::<5>::zero().get(), 0);
    assert_eq!(Residue::<5>::one().get(), 1);
    assert_eq!(Residue::<5>::modulus_word(), 5);
}

#[test]
fn sum_difference_and_product_modulo_five() {
    let three = Residue::<5>::new(3);
    let four = Residue::<5>::new(4);
    assert_eq!(three.add(&four).get(), 2);
    assert_eq!(three.sub(&four).get(), 4);
    assert_eq!(four.sub(&three).get(), 1);
    assert_eq!(three.sub(&three).get(), 0);
    assert_eq!(three.mul(&four).get(), 2);
}

#[test]
fn arithmetic_next_to_the_word_size() {
    const P: u64 = 18446744073709551557;
    let a = Residue::<P>::new(P - 1);
    let b = Residue::<P>::new(P - 2);
    assert_eq!(a.add(&b).get(), P - 3);
    assert_eq!(b.sub(&a).get(), P - 1);
    assert_eq!(a.mul(&b).get(), 2);
    assert_eq!(a.mul(&a).get(), 1);
    assert_eq!(a.pow(u64::MAX).get(), P - 1);
}

#[test]
fn powers() {
    let two = Residue::<5>::new(2);
    assert_eq!(two.pow(0).get(), 1);
    assert_eq!(two.pow(1).get(), 2);
    assert_eq!(two.pow(2).get(), 4);
    assert_eq!(two.pow(3).get(), 3);
    assert_eq!(two.pow(4).get(), 1);
    assert_eq!(two.pow(1_000_003).get(), 3);
    assert_eq!(Residue::<5>::zero().pow(0).get(), 1);
    assert_eq!(Residue::<1000003>::new(2).pow(20).get(), 1048576 % 1000003);
}

#[test]
fn equality_is_that_of_the_residues() {
    assert!(Residue::<5>::new(7).equals(&Residue::<5>::new(2)));
    assert!(!Residue::<5>::new(3).equals(&Residue::<5>::new(2)));
}

#[test]
fn a_modulus_below_two_is_read_as_two() {
    assert_eq!(Residue::<0>::modulus_word(), 2);
    assert_eq!(Residue::<1>::modulus_word(), 2);
    assert_eq!(Residue::<0>::new(7).get(), 1);
    let one = Residue::<1>::one();
    assert_eq!(one.add(&one).get(), 0);
}
