use crate::field::FieldElement;
use pairing_ce::ff::{Field, PrimeField};
use vstd::arithmetic::power::pow;
use vstd::prelude::*;

verus! {

/// The order of the BN256 groups: the modulus of their scalar field.
pub open spec fn scalar_modulus() -> int {
    21888242871839275222246405745257275088548364400416034343698204186575808495617int
}

/// The integer that four 64-bit limbs stand for, least significant first.
pub open spec fn limbs_value(limbs: [u64; 4]) -> int {
    limbs@[0] as int + limbs@[1] as int * 0x1_0000_0000_0000_0000int + limbs@[2] as int
        * 0x1_0000_0000_0000_0000_0000_0000_0000_0000int + limbs@[3] as int
        * 0x1_0000_0000_0000_0000_0000_0000_0000_0000_0000_0000_0000_0000int
}

/// An element of the scalar field of BN256, held as the limbs of its
/// canonical representative.
#[derive(Clone, Copy, Debug)]
pub struct Fr {
    limbs: [u64; 4],
}

/// Adds in the scalar field, by `Field::add_assign` of `pairing_ce::bn256::Fr`.
///
/// Claimed of it: on canonical representations, which `PrimeField::from_repr`
/// accepts, it yields the canonical representation (`PrimeField::into_repr`)
/// of the sum modulo the field's modulus.
#[verifier::external_body]
fn fr_add(a: &[u64; 4], b: &[u64; 4]) -> (r: [u64; 4])
    requires
        limbs_value(*a) < scalar_modulus(),
        limbs_value(*b) < scalar_modulus(),
    ensures
        limbs_value(r) == (limbs_value(*a) + limbs_value(*b)) % scalar_modulus(),
{
    let mut x = pairing_ce::bn256::Fr::from_repr(pairing_ce::bn256::FrRepr(*a)).unwrap();
    let y = pairing_ce::bn256::Fr::from_repr(pairing_ce::bn256::FrRepr(*b)).unwrap();
    x.add_assign(&y);
    x.into_repr().0
}

/// Subtracts in the scalar field, by `Field::sub_assign` of
/// `pairing_ce::bn256::Fr`.
///
/// Claimed of it: on canonical representations it yields the canonical
/// representation of the difference modulo the field's modulus.
#[verifier::external_body]
fn fr_sub(a: &[u64; 4], b: &[u64; 4]) -> (r: [u64; 4])
    requires
        limbs_value(*a) < scalar_modulus(),
        limbs_value(*b) < scalar_modulus(),
    ensures
        limbs_value(r) == (limbs_value(*a) - limbs_value(*b)) % scalar_modulus(),
{
    let mut x = pairing_ce::bn256::Fr::from_repr(pairing_ce::bn256::FrRepr(*a)).unwrap();
    let y = pairing_ce::bn256::Fr::from_repr(pairing_ce::bn256::FrRepr(*b)).unwrap();
    x.sub_assign(&y);
    x.into_repr().0
}

/// Multiplies in the scalar field, by `Field::mul_assign` of
/// `pairing_ce::bn256::Fr`.
///
/// Claimed of it: on canonical representations it yields the canonical
/// representation of the product modulo the field's modulus.
#[verifier::external_body]
fn fr_mul(a: &[u64; 4], b: &[u64; 4]) -> (r: [u64; 4])
    requires
        limbs_value(*a) < scalar_modulus(),
        limbs_value(*b) < scalar_modulus(),
    ensures
        limbs_value(r) == (limbs_value(*a) * limbs_value(*b)) % scalar_modulus(),
{
    let mut x = pairing_ce::bn256::Fr::from_repr(pairing_ce::bn256::FrRepr(*a)).unwrap();
    let y = pairing_ce::bn256::Fr::from_repr(pairing_ce::bn256::FrRepr(*b)).unwrap();
    x.mul_assign(&y);
    x.into_repr().0
}

/// Raises to a power in the scalar field, by `Field::pow` of
/// `pairing_ce::bn256::Fr` with a one-limb exponent.
///
/// Claimed of it: on a canonical representation it yields the canonical
/// representation of the power modulo the field's modulus.
#[verifier::external_body]
fn fr_pow(a: &[u64; 4], exp: u64) -> (r: [u64; 4])
    requires
        limbs_value(*a) < scalar_modulus(),
    ensures
        limbs_value(r) == pow(limbs_value(*a), exp as nat) % scalar_modulus(),
{
    let x = pairing_ce::bn256::Fr::from_repr(pairing_ce::bn256::FrRepr(*a)).unwrap();
    x.pow([exp]).into_repr().0
}

impl Fr {
    /// The element with the given canonical representation, if the limbs are
    /// one: if the integer they stand for is below the modulus.
    pub fn from_limbs(limbs: [u64; 4]) -> (r: Option<Fr>)
        ensures
            r.is_some() <==> limbs_value(limbs) < scalar_modulus(),
            r.is_some() ==> r.unwrap().wf() && r.unwrap().value() == limbs_value(limbs),
    {
        let below: bool = if limbs[3] != 0x30644e72e131a029 {
            limbs[3] < 0x30644e72e131a029
        } else if limbs[2] != 0xb85045b68181585d {
            limbs[2] < 0xb85045b68181585d
        } else if limbs[1] != 0x2833e84879b97091 {
            limbs[1] < 0x2833e84879b97091
        } else {
            limbs[0] < 0x43e1f593f0000001
        };
        if below {
            Some(Fr { limbs })
        } else {
            None
        }
    }

    /// The element that stands for a machine word.
    pub fn from_u64(v: u64) -> (r: Fr)
        ensures
            r.wf(),
            r.value() == v as int,
    {
        Fr { limbs: [v, 0, 0, 0] }
    }

    /// The limbs of the canonical representative, least significant first.
    pub fn to_limbs(&self) -> (limbs: [u64; 4])
        ensures
            limbs_value(limbs) == self.value(),
    {
        self.limbs
    }
}

impl FieldElement for Fr {
    open spec fn modulus() -> int {
        scalar_modulus()
    }

    closed spec fn value(&self) -> int {
        limbs_value(self.limbs)
    }

    closed spec fn wf(&self) -> bool {
        limbs_value(self.limbs) < scalar_modulus()
    }

    proof fn lemma_modulus() {
    }

    proof fn lemma_canonical(&self) {
    }

    fn zero() -> (r: Self) {
        Fr { limbs: [0, 0, 0, 0] }
    }

    fn one() -> (r: Self) {
        Fr { limbs: [1, 0, 0, 0] }
    }

    fn add(&self, rhs: &Self) -> (r: Self) {
        let limbs = fr_add(&self.limbs, &rhs.limbs);
        proof {
            vstd::arithmetic::div_mod::lemma_mod_bound(
                limbs_value(self.limbs) + limbs_value(rhs.limbs),
                scalar_modulus(),
            );
        }
        Fr { limbs }
    }

    fn sub(&self, rhs: &Self) -> (r: Self) {
        let limbs = fr_sub(&self.limbs, &rhs.limbs);
        proof {
            vstd::arithmetic::div_mod::lemma_mod_bound(
                limbs_value(self.limbs) - limbs_value(rhs.limbs),
                scalar_modulus(),
            );
        }
        Fr { limbs }
    }

    fn mul(&self, rhs: &Self) -> (r: Self) {
        let limbs = fr_mul(&self.limbs, &rhs.limbs);
        proof {
            vstd::arithmetic::div_mod::lemma_mod_bound(
                limbs_value(self.limbs) * limbs_value(rhs.limbs),
                scalar_modulus(),
            );
        }
        Fr { limbs }
    }

    fn pow(&self, exp: u64) -> (r: Self) {
        let limbs = fr_pow(&self.limbs, exp);
        proof {
            vstd::arithmetic::div_mod::lemma_mod_bound(
                pow(limbs_value(self.limbs), exp as nat),
                scalar_modulus(),
            );
        }
        Fr { limbs }
    }

    fn equals(&self, rhs: &Self) -> (b: bool) {
        self.limbs[0] == rhs.limbs[0] && self.limbs[1] == rhs.limbs[1] && self.limbs[2]
            == rhs.limbs[2] && self.limbs[3] == rhs.limbs[3]
    }
}

} // verus!
