use crate::field::FieldElement;
use vstd::arithmetic::div_mod::*;
use vstd::arithmetic::mul::*;
use vstd::arithmetic::power::*;
use vstd::prelude::*;

verus! {

/// An integer modulo `P`, for a modulus that fits in a machine word.
///
/// A modulus below two is read as two, so that every instance of the type is
/// a ring with distinct zero and one.
#[derive(Clone, Copy, Debug)]
pub struct Residue<const P: u64> {
    value: u64,
}

impl<const P: u64> Residue<P> {
    /// The modulus in effect, as a machine word.
    pub fn modulus_word() -> (m: u64)
        ensures
            m as int == Self::modulus(),
    {
        if P >= 2 {
            P
        } else {
            2
        }
    }

    /// The residue of `v`.
    pub fn new(v: u64) -> (r: Self)
        ensures
            r.wf(),
            r.value() == (v as int) % Self::modulus(),
    {
        let m: u64 = Self::modulus_word();
        Residue { value: v % m }
    }

    /// The canonical representative, in `[0, modulus)`.
    pub fn get(&self) -> (v: u64)
        ensures
            v as int == self.value(),
    {
        self.value
    }
}

impl<const P: u64> FieldElement for Residue<P> {
    open spec fn modulus() -> int {
        if P >= 2 {
            P as int
        } else {
            2
        }
    }

    closed spec fn value(&self) -> int {
        self.value as int
    }

    closed spec fn wf(&self) -> bool {
        (self.value as int) < Self::modulus()
    }

    proof fn lemma_modulus() {
    }

    proof fn lemma_canonical(&self) {
    }

    fn zero() -> (r: Self) {
        Residue { value: 0 }
    }

    fn one() -> (r: Self) {
        Residue { value: 1 }
    }

    fn add(&self, rhs: &Self) -> (r: Self) {
        let m: u128 = Self::modulus_word() as u128;
        let s: u128 = (self.value as u128 + rhs.value as u128) % m;
        Residue { value: s as u64 }
    }

    fn sub(&self, rhs: &Self) -> (r: Self) {
        let m: u128 = Self::modulus_word() as u128;
        let s: u128 = (self.value as u128 + m - rhs.value as u128) % m;
        proof {
            let a = self.value as int;
            let b = rhs.value as int;
            lemma_mod_add_multiples_vanish(a - b, m as int);
        }
        Residue { value: s as u64 }
    }

    fn mul(&self, rhs: &Self) -> (r: Self) {
        let m: u128 = Self::modulus_word() as u128;
        proof {
            lemma_mul_upper_bound(
                self.value as int,
                u64::MAX as int,
                rhs.value as int,
                u64::MAX as int,
            );
            assert(0xffff_ffff_ffff_ffff * 0xffff_ffff_ffff_ffff < 0xffff_ffff_ffff_ffff_ffff_ffff_ffff_ffff) by (nonlinear_arith);
        }
        let s: u128 = (self.value as u128 * rhs.value as u128) % m;
        Residue { value: s as u64 }
    }

    fn pow(&self, exp: u64) -> (r: Self) {
        let ghost m = Self::modulus();
        let ghost b0 = self.value as int;
        let mut result: Self = Self::one();
        let mut base: Self = *self;
        let mut e: u64 = exp;
        proof {
            lemma_pow0(b0);
            lemma_small_mod(1, m as nat);
            assert(1int * pow(b0, exp as nat) == pow(b0, exp as nat));
        }
        while e > 0
            invariant
                m == Self::modulus(),
                result.wf(),
                base.wf(),
                (result.value() * pow(base.value(), e as nat)) % m == pow(b0, exp as nat) % m,
            decreases e,
        {
            let ghost r0 = result.value();
            let ghost q0 = base.value();
            let ghost e0 = e as nat;
            let ghost half = (e / 2) as nat;
            if e % 2 == 1 {
                result = result.mul(&base);
            }
            let squared: Self = base.mul(&base);
            proof {
                // pow(q0, e0) == pow(q0 * q0, half) * (q0 if e0 is odd else 1)
                lemma_pow_multiplies(q0, 2, half);
                lemma_pow_adds(q0, 2 * half, (e0 % 2) as nat);
                assert(pow(q0, 2) == q0 * q0) by {
                    lemma_pow1(q0);
                    lemma_pow_adds(q0, 1, 1);
                }
                lemma_pow1(q0);
                lemma_pow0(q0);
                let ph = pow(q0 * q0, half);
                assert(pow(q0, 2 * half) == ph);
                lemma_pow_mod_noop(q0 * q0, half, m);
                assert(pow(squared.value(), half) % m == ph % m);
                if e0 % 2 == 1 {
                    assert(pow(q0, e0) == ph * q0);
                    assert(r0 * (ph * q0) == (r0 * q0) * ph) by (nonlinear_arith);
                    lemma_mul_mod_noop_general(r0 * q0, ph, m);
                    lemma_mul_mod_noop_general(result.value(), pow(squared.value(), half), m);
                    lemma_mod_twice(r0 * q0, m);
                } else {
                    assert(pow(q0, e0) == ph * 1);
                    lemma_mul_mod_noop_general(r0, ph, m);
                    lemma_mul_mod_noop_general(r0, pow(squared.value(), half), m);
                }
            }
            base = squared;
            e = e / 2;
        }
        proof {
            lemma_pow0(base.value());
            lemma_small_mod(result.value() as nat, m as nat);
        }
        result
    }

    fn equals(&self, rhs: &Self) -> (b: bool) {
        self.value == rhs.value
    }
}

} // verus!
