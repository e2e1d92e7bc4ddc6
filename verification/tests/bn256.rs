use field_fft::bn256::Fr;
use field_fft::field::FieldElement;
use field_fft::parallel::parallel_fft;
use field_fft::serial::serial_fft;
use pairing_ce::ff::{Field, PrimeField};

const MODULUS: [u64; 4] =
    [0x43e1f593f0000001, 0x2833e84879b97091, 0xb85045b68181585d, 0x30644e72e131a029];

fn outside(x: &Fr) -> pairing_ce::bn256::Fr {
    pairing_ce::bn256::Fr::from_repr(pairing_ce::bn256::FrRepr(x.to_limbs())).unwrap()
}

fn inside(x: &pairing_ce::bn256::Fr) -> Fr {
    Fr::from_limbs(x.into_repr().0).unwrap()
}

#[test]
fn limbs_at_or_above_the_modulus_are_refused() {
    assert!(Fr::from_limbs(MODULUS).is_none());
    assert!(Fr::from_limbs([u64::MAX; 4]).is_none());
    assert!(Fr::from_limbs([MODULUS[0] + 1, MODULUS[1], MODULUS[2], MODULUS[3]]).is_none());
    assert!(Fr::from_limbs([0, 0, 0, MODULUS[3] + 1]).is_none());
    assert!(Fr::from_limbs([0, MODULUS[1], MODULUS[2] + 1, MODULUS[3]]).is_none());
}

#[test]
fn limbs_below_the_modulus_are_taken_as_they_are() {
    let top = [MODULUS[0] - 1, MODULUS[1], MODULUS[2], MODULUS[3]];
    assert_eq!(Fr::from_limbs(top).unwrap().to_limbs(), top);
    assert_eq!(Fr::from_limbs([0; 4]).unwrap().to_limbs(), [0; 4]);
    let mixed = [u64::MAX, u64::MAX, u64::MAX, MODULUS[3] - 1];
    assert_eq!(Fr::from_limbs(mixed).unwrap().to_limbs(), mixed);
    let low = [u64::MAX, MODULUS[1] - 1, MODULUS[2], MODULUS[3]];
    assert_eq!(Fr::from_limbs(low).unwrap().to_limbs(), low);
}

#[test]
fn identities_and_words() {
    assert_eq!(Fr::zero().to_limbs(), [0, 0, 0, 0]);
    assert_eq!(Fr::one().to_limbs(), [1, 0, 0, 0]);
    assert_eq!(Fr::from_u64(77).to_limbs(), [77, 0, 0, 0]);
    assert_eq!(outside(&Fr::one()), pairing_ce::bn256::Fr::one());
}

#[test]
fn sum_of_small_elements() {
    assert_eq!(Fr::from_u64(5).add(&Fr::from_u64(9)).to_limbs(), [14, 0, 0, 0]);
    assert_eq!(Fr::from_u64(u64::MAX).add(&Fr::one()).to_limbs(), [0, 1, 0, 0]);
}

#[test]
fn sum_wraps_at_the_modulus() {
    let top = Fr::from_limbs([MODULUS[0] - 1, MODULUS[1], MODULUS[2], MODULUS[3]]).unwrap();
    assert_eq!(top.add(&Fr::one()).to_limbs(), [0, 0, 0, 0]);
    assert_eq!(top.add(&Fr::from_u64(3)).to_limbs(), [2, 0, 0, 0]);
}

#[test]
fn difference_wraps_below_zero() {
    assert_eq!(Fr::from_u64(9).sub(&Fr::from_u64(5)).to_limbs(), [4, 0, 0, 0]);
    assert_eq!(
        Fr::zero().sub(&Fr::one()).to_limbs(),
        [MODULUS[0] - 1, MODULUS[1], MODULUS[2], MODULUS[3]]
    );
    assert_eq!(Fr::from_u64(5).sub(&Fr::from_u64(5)).to_limbs(), [0, 0, 0, 0]);
}

#[test]
fn product_of_small_and_large_elements() {
    assert_eq!(Fr::from_u64(6).mul(&Fr::from_u64(7)).to_limbs(), [42, 0, 0, 0]);
    assert_eq!(
        Fr::from_u64(1 << 63).mul(&Fr::from_u64(4)).to_limbs(),
        [0, 2, 0, 0]
    );
    // (-1) * (-1) == 1
    let minus_one = Fr::zero().sub(&Fr::one());
    assert_eq!(minus_one.mul(&minus_one).to_limbs(), [1, 0, 0, 0]);
    assert_eq!(Fr::from_u64(6).mul(&Fr::zero()).to_limbs(), [0, 0, 0, 0]);
}

#[test]
fn powers_of_small_elements() {
    assert_eq!(Fr::from_u64(3).pow(0).to_limbs(), [1, 0, 0, 0]);
    assert_eq!(Fr::from_u64(3).pow(1).to_limbs(), [3, 0, 0, 0]);
    assert_eq!(Fr::from_u64(3).pow(4).to_limbs(), [81, 0, 0, 0]);
    assert_eq!(Fr::from_u64(2).pow(64).to_limbs(), [0, 1, 0, 0]);
    assert_eq!(Fr::from_u64(2).pow(130).to_limbs(), [0, 0, 4, 0]);
    assert_eq!(Fr::zero().pow(0).to_limbs(), [1, 0, 0, 0]);
}

#[test]
fn equality_compares_all_limbs() {
    assert!(Fr::from_u64(5).equals(&Fr::from_u64(5)));
    assert!(!Fr::from_u64(5).equals(&Fr::from_u64(6)));
    let a = Fr::from_limbs([1, 2, 3, 4]).unwrap();
    assert!(a.equals(&Fr::from_limbs([1, 2, 3, 4]).unwrap()));
    assert!(!a.equals(&Fr::from_limbs([1, 2, 3, 5]).unwrap()));
    assert!(!a.equals(&Fr::from_limbs([1, 2, 0, 4]).unwrap()));
    assert!(!a.equals(&Fr::from_limbs([1, 0, 3, 4]).unwrap()));
}

// The root of unity of order 2^log_n that the field is built with.
fn root(log_n: u32) -> Fr {
    let mut w = pairing_ce::bn256::Fr::root_of_unity();
    for _ in log_n..pairing_ce::bn256::Fr::S {
        w.square();
    }
    inside(&w)
}

fn naive(input: &[Fr], omega: &Fr) -> Vec<[u64; 4]> {
    let w = outside(omega);
    (0..input.len())
        .map(|j| {
            let mut acc = pairing_ce::bn256::Fr::zero();
            for (i, x) in input.iter().enumerate() {
                let mut t = w.pow([(i * j) as u64]);
                t.mul_assign(&outside(x));
                acc.add_assign(&t);
            }
            acc.into_repr().0
        })
        .collect()
}

fn sample(n: u64) -> Vec<Fr> {
    (0..n)
        .map(|v| Fr::from_limbs([v * v + 1, 3 * v, v ^ 0x5555, v]).unwrap())
        .collect()
}

#[test]
fn the_root_of_order_two_is_minus_one() {
    assert!(root(1).equals(&Fr::zero().sub(&Fr::one())));
    assert!(root(0).equals(&Fr::one()));
    assert!(root(5).pow(32).equals(&Fr::one()));
    assert!(!root(5).pow(16).equals(&Fr::one()));
}

#[test]
fn serial_transform_over_the_scalar_field_matches_the_defining_sum() {
    let input = sample(16);
    let omega = root(4);
    let mut a = input.clone();
    serial_fft(&mut a[..], &omega, 4);
    let got: Vec<[u64; 4]> = a.iter().map(|x| x.to_limbs()).collect();
    assert_eq!(got, naive(&input, &omega));
}

#[test]
fn parallel_transform_over_the_scalar_field_equals_the_serial_one() {
    let input = sample(16);
    let omega = root(4);
    let mut expected = input.clone();
    serial_fft(&mut expected[..], &omega, 4);
    for log_cpus in 0..=4 {
        let mut a = input.clone();
        parallel_fft(&mut a[..], &omega, 4, log_cpus);
        for (x, y) in a.iter().zip(expected.iter()) {
            assert!(x.equals(y));
        }
    }
}

#[test]
fn round_trip_over_the_scalar_field() {
    let input = sample(8);
    let omega = root(3);
    let omega_inv = inside(&outside(&omega).inverse().unwrap());
    let n_inv = inside(&outside(&Fr::from_u64(8)).inverse().unwrap());
    let mut a = input.clone();
    serial_fft(&mut a[..], &omega, 3);
    serial_fft(&mut a[..], &omega_inv, 3);
    for (x, y) in a.iter().zip(input.iter()) {
        assert!(x.mul(&n_inv).equals(y));
    }
}
