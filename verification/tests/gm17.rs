use field_fft::bn256::Fr;
use field_fft::field::FieldElement;
use field_fft::gm17::{
    prepare_verifying_key, verify_proof, PreparedVerifyingKey, Proof, SynthesisError, VerifyingKey,
};
use pairing_ce::bn256::{Bn256, FrRepr, G1Affine, G2Affine};
use pairing_ce::ff::{Field, PrimeField};
use pairing_ce::{CurveAffine, CurveProjective, Engine};

fn repr(x: &Fr) -> FrRepr {
    FrRepr(x.to_limbs())
}

fn g1(scalar: &Fr) -> G1Affine {
    G1Affine::one().mul(repr(scalar)).into_affine()
}

fn g2(scalar: &Fr) -> G2Affine {
    G2Affine::one().mul(repr(scalar)).into_affine()
}

const ALPHA: u64 = 3;
const BETA: u64 = 5;
const GAMMA: u64 = 7;
const IC: [u64; 3] = [11, 13, 19];

// A key whose trapdoors are known, so that proofs can be made by hand.
fn key() -> VerifyingKey {
    VerifyingKey {
        h_g2: G2Affine::one(),
        alpha_g1: g1(&Fr::from_u64(ALPHA)),
        beta_g2: g2(&Fr::from_u64(BETA)),
        gamma_g1: g1(&Fr::from_u64(GAMMA)),
        gamma_g2: g2(&Fr::from_u64(GAMMA)),
        ic: IC.iter().map(|s| g1(&Fr::from_u64(*s))).collect(),
    }
}

// The proof for the given inputs with `A = a G` and `B = a H`, for a key
// whose `alpha_g1` is `alpha G`: the exponent of C is
// (a + alpha)(a + beta) - alpha beta - psi gamma.
fn proof_with(inputs: &[Fr], a: u64, alpha: u64) -> Proof {
    let a = Fr::from_u64(a);
    let alpha = Fr::from_u64(alpha);
    let beta = Fr::from_u64(BETA);
    let mut psi = Fr::from_u64(IC[0]);
    for (i, x) in inputs.iter().enumerate() {
        psi = psi.add(&x.mul(&Fr::from_u64(IC[i + 1])));
    }
    let c = a
        .add(&alpha)
        .mul(&a.add(&beta))
        .sub(&alpha.mul(&beta))
        .sub(&psi.mul(&Fr::from_u64(GAMMA)));
    Proof { a: g1(&a), b: g2(&a), c: g1(&c) }
}

fn proof_for(inputs: &[Fr], a: u64) -> Proof {
    proof_with(inputs, a, ALPHA)
}

// The key with the Miller loop of `alpha_g1` and `beta_g2` in the place of
// their pairing, which is what makes the first equation that of the scheme.
fn prepared() -> PreparedVerifyingKey {
    let vk = key();
    let looped = Bn256::miller_loop([(&vk.alpha_g1.prepare(), &vk.beta_g2.prepare())].iter());
    PreparedVerifyingKey {
        h_pc: vk.h_g2.prepare(),
        g_alpha: vk.alpha_g1,
        h_beta: vk.beta_g2,
        g_alpha_h_beta_ml: looped,
        g_gamma_pc: vk.gamma_g1.prepare(),
        h_gamma_pc: vk.gamma_g2.prepare(),
        query: vk.ic,
    }
}

#[test]
fn preparing_keeps_the_points_and_computes_the_pairing() {
    let vk = key();
    let pvk = prepare_verifying_key(&vk).unwrap();
    assert_eq!(pvk.g_alpha, vk.alpha_g1);
    assert_eq!(pvk.h_beta, vk.beta_g2);
    assert_eq!(pvk.query, vk.ic);
    assert_eq!(pvk.g_alpha_h_beta_ml, Bn256::pairing(vk.alpha_g1, vk.beta_g2));
    // e(3 G, 5 H) == e(G, H)^15
    let base = Bn256::pairing(G1Affine::one(), G2Affine::one());
    assert_eq!(pvk.g_alpha_h_beta_ml, base.pow([15u64]));
    assert_ne!(pvk.g_alpha_h_beta_ml, base);
}

#[test]
fn preparing_readies_the_points_of_the_key() {
    // the prepared points are those of the key: with them a proof made for
    // the key passes
    let mut vk = key();
    vk.alpha_g1 = G1Affine::zero();
    let pvk = prepare_verifying_key(&vk).unwrap();
    assert_eq!(pvk.g_alpha_h_beta_ml, pairing_ce::bn256::Fq12::one());
    let inputs = [Fr::from_u64(9), Fr::from_u64(4)];
    assert_eq!(verify_proof(&pvk, &proof_with(&inputs, 17, 0), &inputs), Ok(true));
    assert_eq!(verify_proof(&pvk, &proof_with(&inputs, 17, 1), &inputs), Ok(false));
    // with another gamma the same proof fails
    vk.gamma_g2 = g2(&Fr::from_u64(GAMMA + 1));
    let pvk = prepare_verifying_key(&vk).unwrap();
    assert_eq!(verify_proof(&pvk, &proof_with(&inputs, 17, 0), &inputs), Ok(false));
}

#[test]
fn a_proof_that_meets_both_equations_is_accepted() {
    let inputs = [Fr::from_u64(9), Fr::from_u64(4)];
    let proof = proof_for(&inputs, 17);
    assert_eq!(verify_proof(&prepared(), &proof, &inputs), Ok(true));
}

#[test]
fn a_proof_for_large_inputs_is_accepted() {
    let big = Fr::zero().sub(&Fr::from_u64(2));
    let inputs = [big, Fr::from_limbs([1, 2, 3, 4]).unwrap()];
    let proof = proof_for(&inputs, 123456789);
    assert_eq!(verify_proof(&prepared(), &proof, &inputs), Ok(true));
}

#[test]
fn a_proof_for_other_inputs_is_rejected() {
    let inputs = [Fr::from_u64(9), Fr::from_u64(4)];
    let proof = proof_for(&inputs, 17);
    let other = [Fr::from_u64(9), Fr::from_u64(5)];
    assert_eq!(verify_proof(&prepared(), &proof, &other), Ok(false));
    let swapped = [Fr::from_u64(4), Fr::from_u64(9)];
    assert_eq!(verify_proof(&prepared(), &proof, &swapped), Ok(false));
}

#[test]
fn a_proof_with_a_wrong_element_is_rejected() {
    let inputs = [Fr::from_u64(9), Fr::from_u64(4)];
    let good = proof_for(&inputs, 17);
    // the second equation fails: A and B no longer share their exponent
    let wrong_b = Proof { a: good.a, b: g2(&Fr::from_u64(18)), c: good.c };
    assert_eq!(verify_proof(&prepared(), &wrong_b, &inputs), Ok(false));
    // the first equation fails
    let wrong_c = Proof { a: good.a, b: good.b, c: g1(&Fr::from_u64(1)) };
    assert_eq!(verify_proof(&prepared(), &wrong_c, &inputs), Ok(false));
    let mut negated = good.c;
    negated.negate();
    let wrong_sign = Proof { a: good.a, b: good.b, c: negated };
    assert_eq!(verify_proof(&prepared(), &wrong_sign, &inputs), Ok(false));
}

#[test]
fn the_value_held_in_the_key_enters_the_first_equation() {
    let inputs = [Fr::from_u64(9), Fr::from_u64(4)];
    let proof = proof_for(&inputs, 17);
    let mut pvk = prepared();
    pvk.g_alpha_h_beta_ml = pairing_ce::bn256::Fq12::one();
    assert_eq!(verify_proof(&pvk, &proof, &inputs), Ok(false));
    // a value without an inverse has no final exponentiation
    pvk.g_alpha_h_beta_ml = pairing_ce::bn256::Fq12::zero();
    assert_eq!(verify_proof(&pvk, &proof, &inputs), Ok(false));
}

#[test]
fn a_wrong_number_of_inputs_makes_the_key_malformed() {
    let inputs = [Fr::from_u64(9), Fr::from_u64(4)];
    let proof = proof_for(&inputs, 17);
    let pvk = prepared();
    assert_eq!(
        verify_proof(&pvk, &proof, &inputs[..1]),
        Err(SynthesisError::MalformedVerifyingKey)
    );
    assert_eq!(verify_proof(&pvk, &proof, &[]), Err(SynthesisError::MalformedVerifyingKey));
    let three = [Fr::one(), Fr::one(), Fr::one()];
    assert_eq!(verify_proof(&pvk, &proof, &three), Err(SynthesisError::MalformedVerifyingKey));
}

#[test]
fn a_key_without_query_points_is_malformed() {
    let mut pvk = prepared();
    pvk.query = Vec::new();
    let proof = proof_for(&[], 17);
    assert_eq!(verify_proof(&pvk, &proof, &[]), Err(SynthesisError::MalformedVerifyingKey));
}

#[test]
fn a_statement_without_inputs() {
    let mut pvk = prepared();
    pvk.query.truncate(1);
    let proof = proof_for(&[], 21);
    assert_eq!(verify_proof(&pvk, &proof, &[]), Ok(true));
}
