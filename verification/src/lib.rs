//! Transforms of polynomials over prime fields by roots of unity, on one
//! thread or split into lanes, with the bit-reversal and dispatch rules that
//! go with them; and the verifier of GM17 proofs over BN256.

pub mod bits;
pub mod bn256;
pub mod dispatch;
pub mod field;
pub mod gm17;
pub mod inverse;
pub mod modular;
pub mod parallel;
pub mod residue;
pub mod serial;
pub mod sums;
pub mod transform;
