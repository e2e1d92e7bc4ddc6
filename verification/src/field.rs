use vstd::arithmetic::power::pow;
use vstd::prelude::*;

verus! {

/// An element of a prime field, seen as its canonical residue.
///
/// Every element stands for an integer `value()` in `[0, modulus())`; the
/// operations are the arithmetic of the integers modulo `modulus()`.
pub trait FieldElement: Sized + Copy {
    /// The characteristic of the field.
    spec fn modulus() -> int;

    /// The canonical residue this element stands for.
    spec fn value(&self) -> int;

    /// The representation invariant of an element.
    spec fn wf(&self) -> bool;

    /// The modulus is at least two.
    proof fn lemma_modulus()
        ensures
            Self::modulus() >= 2,
    ;

    /// A well-formed element is a canonical residue.
    proof fn lemma_canonical(&self)
        requires
            self.wf(),
        ensures
            0 <= self.value() < Self::modulus(),
    ;

    /// The additive identity.
    fn zero() -> (r: Self)
        ensures
            r.wf(),
            r.value() == 0,
    ;

    /// The multiplicative identity.
    fn one() -> (r: Self)
        ensures
            r.wf(),
            r.value() == 1,
    ;

    /// The sum of two elements.
    fn add(&self, rhs: &Self) -> (r: Self)
        requires
            self.wf(),
            rhs.wf(),
        ensures
            r.wf(),
            r.value() == (self.value() + rhs.value()) % Self::modulus(),
    ;

    /// The difference of two elements.
    fn sub(&self, rhs: &Self) -> (r: Self)
        requires
            self.wf(),
            rhs.wf(),
        ensures
            r.wf(),
            r.value() == (self.value() - rhs.value()) % Self::modulus(),
    ;

    /// The product of two elements.
    fn mul(&self, rhs: &Self) -> (r: Self)
        requires
            self.wf(),
            rhs.wf(),
        ensures
            r.wf(),
            r.value() == (self.value() * rhs.value()) % Self::modulus(),
    ;

    /// This element raised to the power `exp`.
    fn pow(&self, exp: u64) -> (r: Self)
        requires
            self.wf(),
        ensures
            r.wf(),
            r.value() == pow(self.value(), exp as nat) % Self::modulus(),
    ;

    /// Whether two elements are the same residue.
    fn equals(&self, rhs: &Self) -> (b: bool)
        requires
            self.wf(),
            rhs.wf(),
        ensures
            b == (self.value() == rhs.value()),
    ;
}

/// The canonical residues of a buffer of field elements.
pub open spec fn values<F: FieldElement>(a: Seq<F>) -> Seq<int> {
    Seq::new(a.len(), |i: int| a[i].value())
}

/// Every element of the buffer is well formed.
pub open spec fn all_wf<F: FieldElement>(a: Seq<F>) -> bool {
    forall|i: int| 0 <= i < a.len() ==> (#[trigger] a[i]).wf()
}

} // verus!
