use crate::bn256::{limbs_value, Fr};
use crate::field::FieldElement;
use pairing_ce::bn256::{Bn256, Fq12, FrRepr, G1Affine, G1Prepared, G2Affine, G2Prepared, G1, G2};
use pairing_ce::ff::Field;
use pairing_ce::{CurveAffine, CurveProjective, Engine};
use vstd::prelude::*;

verus! {

/// A point of the first group of BN256 in affine coordinates, as
/// `pairing_ce` holds it.
#[verifier::external_type_specification]
#[verifier::external_body]
pub struct ExG1Affine(pairing_ce::bn256::G1Affine);

/// A point of the first group in projective coordinates.
#[verifier::external_type_specification]
#[verifier::external_body]
pub struct ExG1(pairing_ce::bn256::G1);

/// A point of the first group, made ready for the Miller loop.
#[verifier::external_type_specification]
#[verifier::external_body]
pub struct ExG1Prepared(pairing_ce::bn256::G1Prepared);

/// A point of the second group of BN256 in affine coordinates.
#[verifier::external_type_specification]
#[verifier::external_body]
pub struct ExG2Affine(pairing_ce::bn256::G2Affine);

/// A point of the second group in projective coordinates.
#[verifier::external_type_specification]
#[verifier::external_body]
pub struct ExG2(pairing_ce::bn256::G2);

/// A point of the second group, made ready for the Miller loop.
#[verifier::external_type_specification]
#[verifier::external_body]
pub struct ExG2Prepared(pairing_ce::bn256::G2Prepared);

/// An element of the field in which the pairing takes its values.
#[verifier::external_type_specification]
#[verifier::external_body]
pub struct ExFq12(pairing_ce::bn256::Fq12);

/// What `CurveAffine::into_projective` yields for a point of the first group.
pub uninterp spec fn g1_projective(p: G1Affine) -> G1;

/// What `CurveAffine::mul` yields for a point of the first group and the
/// scalar with the given representative.
pub uninterp spec fn g1_scalar_mul(p: G1Affine, scalar: int) -> G1;

/// What `CurveProjective::add_assign` leaves in its receiver, for the first group.
pub uninterp spec fn g1_sum(a: G1, b: G1) -> G1;

/// What `CurveProjective::add_assign_mixed` leaves in its receiver, for the
/// first group.
pub uninterp spec fn g1_sum_mixed(a: G1, b: G1Affine) -> G1;

/// What `CurveProjective::into_affine` yields for a point of the first group.
pub uninterp spec fn g1_affine(p: G1) -> G1Affine;

/// What `CurveAffine::negate` leaves in its receiver, for the first group.
pub uninterp spec fn g1_negated(p: G1Affine) -> G1Affine;

/// What `CurveAffine::prepare` yields for a point of the first group.
pub uninterp spec fn g1_prepared(p: G1Affine) -> G1Prepared;

/// What `CurveAffine::into_projective` yields for a point of the second group.
pub uninterp spec fn g2_projective(p: G2Affine) -> G2;

/// What `CurveProjective::add_assign_mixed` leaves in its receiver, for the
/// second group.
pub uninterp spec fn g2_sum_mixed(a: G2, b: G2Affine) -> G2;

/// What `CurveProjective::into_affine` yields for a point of the second group.
pub uninterp spec fn g2_affine(p: G2) -> G2Affine;

/// What `CurveAffine::negate` leaves in its receiver, for the second group.
pub uninterp spec fn g2_negated(p: G2Affine) -> G2Affine;

/// What `CurveAffine::prepare` yields for a point of the second group.
pub uninterp spec fn g2_prepared(p: G2Affine) -> G2Prepared;

/// What `Engine::miller_loop` of BN256 yields for a sequence of pairs.
pub uninterp spec fn miller_loop_value(pairs: Seq<(G1Prepared, G2Prepared)>) -> Fq12;

/// What `Engine::final_exponentiation` of BN256 yields.
pub uninterp spec fn final_exponentiation_value(f: Fq12) -> Option<Fq12>;

/// What `Field::mul_assign` leaves in its receiver, for `Fq12`.
pub uninterp spec fn fq12_product(a: Fq12, b: Fq12) -> Fq12;

/// Whether an element of `Fq12` compares equal to `Field::one()`.
pub uninterp spec fn fq12_is_one(a: Fq12) -> bool;

/// `CurveAffine::into_projective` on `G1Affine`; its result is named, nothing
/// more is claimed.
#[verifier::external_body]
fn g1_into_projective(p: &G1Affine) -> (r: G1)
    ensures
        r == g1_projective(*p),
{
    p.into_projective()
}

/// `CurveAffine::mul` on `G1Affine`, with the scalar given by the limbs of a
/// representation; its result is named by the point and the integer that the
/// limbs stand for.
#[verifier::external_body]
fn g1_mul(p: &G1Affine, scalar: &[u64; 4]) -> (r: G1)
    ensures
        r == g1_scalar_mul(*p, limbs_value(*scalar)),
{
    p.mul(FrRepr(*scalar))
}

/// `CurveProjective::add_assign` on `G1`; the new value of the receiver is
/// named.
#[verifier::external_body]
fn g1_add_assign(acc: &mut G1, other: &G1)
    ensures
        *final(acc) == g1_sum(*old(acc), *other),
{
    acc.add_assign(other)
}

/// `CurveProjective::add_assign_mixed` on `G1`; the new value of the receiver
/// is named.
#[verifier::external_body]
fn g1_add_assign_mixed(acc: &mut G1, other: &G1Affine)
    ensures
        *final(acc) == g1_sum_mixed(*old(acc), *other),
{
    acc.add_assign_mixed(other)
}

/// `CurveProjective::into_affine` on `G1`; its result is named.
#[verifier::external_body]
fn g1_into_affine(p: &G1) -> (r: G1Affine)
    ensures
        r == g1_affine(*p),
{
    p.into_affine()
}

/// `CurveAffine::negate` on `G1Affine`; the new value of the receiver is named.
#[verifier::external_body]
fn g1_negate(p: &mut G1Affine)
    ensures
        *final(p) == g1_negated(*old(p)),
{
    p.negate()
}

/// `CurveAffine::prepare` on `G1Affine`; its result is named.
#[verifier::external_body]
fn g1_prepare(p: &G1Affine) -> (r: G1Prepared)
    ensures
        r == g1_prepared(*p),
{
    p.prepare()
}

/// `CurveAffine::into_projective` on `G2Affine`; its result is named.
#[verifier::external_body]
fn g2_into_projective(p: &G2Affine) -> (r: G2)
    ensures
        r == g2_projective(*p),
{
    p.into_projective()
}

/// `CurveProjective::add_assign_mixed` on `G2`; the new value of the receiver
/// is named.
#[verifier::external_body]
fn g2_add_assign_mixed(acc: &mut G2, other: &G2Affine)
    ensures
        *final(acc) == g2_sum_mixed(*old(acc), *other),
{
    acc.add_assign_mixed(other)
}

/// `CurveProjective::into_affine` on `G2`; its result is named.
#[verifier::external_body]
fn g2_into_affine(p: &G2) -> (r: G2Affine)
    ensures
        r == g2_affine(*p),
{
    p.into_affine()
}

/// `CurveAffine::negate` on `G2Affine`; the new value of the receiver is named.
#[verifier::external_body]
fn g2_negate(p: &mut G2Affine)
    ensures
        *final(p) == g2_negated(*old(p)),
{
    p.negate()
}

/// `CurveAffine::prepare` on `G2Affine`; its result is named.
#[verifier::external_body]
fn g2_prepare(p: &G2Affine) -> (r: G2Prepared)
    ensures
        r == g2_prepared(*p),
{
    p.prepare()
}

/// The pairs that a list of borrowed pairs stands for.
pub open spec fn owned_pairs(pairs: Seq<(&G1Prepared, &G2Prepared)>) -> Seq<
    (G1Prepared, G2Prepared),
> {
    Seq::new(pairs.len(), |i: int| (*pairs[i].0, *pairs[i].1))
}

/// `Engine::miller_loop` of `Bn256` over the pairs in their order; its result
/// is named. The loop walks the coefficients of each prepared point of the
/// second group and counts on their number; `pairing_ce` lets such a point be
/// made by `prepare` only, which gives it that number.
#[verifier::external_body]
fn miller_loop(pairs: &Vec<(&G1Prepared, &G2Prepared)>) -> (r: Fq12)
    ensures
        r == miller_loop_value(owned_pairs(pairs@)),
{
    Bn256::miller_loop(pairs.iter())
}

/// `Engine::final_exponentiation` of `Bn256`; its result is named. It is
/// `None` where the argument has no inverse.
#[verifier::external_body]
fn final_exponentiation(f: &Fq12) -> (r: Option<Fq12>)
    ensures
        r == final_exponentiation_value(*f),
{
    Bn256::final_exponentiation(f)
}

/// `Field::mul_assign` on `Fq12`; the new value of the receiver is named.
#[verifier::external_body]
fn fq12_mul_assign(acc: &mut Fq12, other: &Fq12)
    ensures
        *final(acc) == fq12_product(*old(acc), *other),
{
    acc.mul_assign(other)
}

/// Compares an element of `Fq12` with `Field::one()` by its `==`; the outcome
/// is named.
#[verifier::external_body]
fn fq12_equals_one(a: &Fq12) -> (r: bool)
    ensures
        r == fq12_is_one(*a),
{
    *a == Fq12::one()
}

/// What can go wrong with the material handed to the verifier.
#[derive(Clone, Copy, Debug, PartialEq, Eq, Structural)]
pub enum SynthesisError {
    /// The verifying key does not fit the statement, or its pairing does not
    /// exist.
    MalformedVerifyingKey,
}

/// A proof: three group elements.
#[derive(Debug)]
pub struct Proof {
    pub a: G1Affine,
    pub b: G2Affine,
    pub c: G1Affine,
}

/// A verifying key.
#[derive(Debug)]
pub struct VerifyingKey {
    pub h_g2: G2Affine,
    pub alpha_g1: G1Affine,
    pub beta_g2: G2Affine,
    pub gamma_g1: G1Affine,
    pub gamma_g2: G2Affine,
    pub ic: Vec<G1Affine>,
}

/// A verifying key with all that does not depend on the proof computed ahead.
#[derive(Debug)]
pub struct PreparedVerifyingKey {
    pub h_pc: G2Prepared,
    pub g_alpha: G1Affine,
    pub h_beta: G2Affine,
    pub g_alpha_h_beta_ml: Fq12,
    pub g_gamma_pc: G1Prepared,
    pub h_gamma_pc: G2Prepared,
    pub query: Vec<G1Affine>,
}

/// The pairing of `alpha_g1` and `beta_g2`: the final exponentiation of the
/// Miller loop over the one pair; `None` where it does not exist.
pub open spec fn key_pairing(vk: VerifyingKey) -> Option<Fq12> {
    final_exponentiation_value(
        miller_loop_value(seq![(g1_prepared(vk.alpha_g1), g2_prepared(vk.beta_g2))]),
    )
}

/// Computes ahead what a verifier needs of the key for every proof.
///
/// Fails with `MalformedVerifyingKey` exactly where the pairing of
/// `alpha_g1` and `beta_g2` does not exist.
pub fn prepare_verifying_key(vk: &VerifyingKey) -> (r: Result<PreparedVerifyingKey, SynthesisError>)
    ensures
        match r {
            Ok(pvk) => {
                &&& key_pairing(*vk) == Some(pvk.g_alpha_h_beta_ml)
                &&& pvk.h_pc == g2_prepared(vk.h_g2)
                &&& pvk.g_alpha == vk.alpha_g1
                &&& pvk.h_beta == vk.beta_g2
                &&& pvk.g_gamma_pc == g1_prepared(vk.gamma_g1)
                &&& pvk.h_gamma_pc == g2_prepared(vk.gamma_g2)
                &&& pvk.query@ == vk.ic@
            },
            Err(e) => e == SynthesisError::MalformedVerifyingKey && key_pairing(*vk).is_none(),
        },
{
    let alpha = g1_prepare(&vk.alpha_g1);
    let beta = g2_prepare(&vk.beta_g2);
    let mut pairs: Vec<(&G1Prepared, &G2Prepared)> = Vec::new();
    pairs.push((&alpha, &beta));
    proof {
        assert(owned_pairs(pairs@) =~= seq![(alpha, beta)]);
    }
    let looped = miller_loop(&pairs);
    match final_exponentiation(&looped) {
        None => Err(SynthesisError::MalformedVerifyingKey),
        Some(g_alpha_h_beta_ml) => {
            let mut query: Vec<G1Affine> = Vec::with_capacity(vk.ic.len());
            let mut i: usize = 0;
            while i < vk.ic.len()
                invariant
                    i <= vk.ic@.len(),
                    query@ == vk.ic@.subrange(0, i as int),
                decreases vk.ic@.len() - i,
            {
                query.push(vk.ic[i]);
                proof {
                    assert(query@ =~= vk.ic@.subrange(0, i + 1));
                }
                i = i + 1;
            }
            proof {
                assert(query@ =~= vk.ic@);
            }
            Ok(
                PreparedVerifyingKey {
                    h_pc: g2_prepare(&vk.h_g2),
                    g_alpha: vk.alpha_g1,
                    h_beta: vk.beta_g2,
                    g_alpha_h_beta_ml,
                    g_gamma_pc: g1_prepare(&vk.gamma_g1),
                    h_gamma_pc: g2_prepare(&vk.gamma_g2),
                    query,
                },
            )
        },
    }
}

/// The first query point plus, for each of the first `count` inputs, the
/// next query point multiplied by that input.
pub open spec fn accumulated_inputs(query: Seq<G1Affine>, inputs: Seq<Fr>, count: nat) -> G1
    decreases count,
{
    if count == 0 {
        g1_projective(query[0])
    } else {
        g1_sum(
            accumulated_inputs(query, inputs, (count - 1) as nat),
            g1_scalar_mul(query[count as int], inputs[count - 1].value()),
        )
    }
}

/// The value of the first verification equation, which has to be one:
/// `e(-(A + G^alpha), B + H^beta) * e(G^psi, H^gamma) * e(C, H)`, times the
/// pairing held in the key.
pub open spec fn first_equation(pvk: PreparedVerifyingKey, proof: Proof, inputs: Seq<Fr>) -> Option<
    Fq12,
> {
    let a_alpha = g1_negated(g1_affine(g1_sum_mixed(g1_projective(proof.a), pvk.g_alpha)));
    let b_beta = g2_affine(g2_sum_mixed(g2_projective(proof.b), pvk.h_beta));
    let g_psi = g1_affine(accumulated_inputs(pvk.query@, inputs, inputs.len()));
    final_exponentiation_value(
        fq12_product(
            miller_loop_value(
                seq![
                    (g1_prepared(a_alpha), g2_prepared(b_beta)),
                    (g1_prepared(g_psi), pvk.h_gamma_pc),
                    (g1_prepared(proof.c), pvk.h_pc),
                ],
            ),
            pvk.g_alpha_h_beta_ml,
        ),
    )
}

/// The value of the second verification equation, which has to be one:
/// `e(A, H^gamma) * e(G^gamma, -B)`.
pub open spec fn second_equation(pvk: PreparedVerifyingKey, proof: Proof) -> Option<Fq12> {
    final_exponentiation_value(
        miller_loop_value(
            seq![
                (g1_prepared(proof.a), pvk.h_gamma_pc),
                (pvk.g_gamma_pc, g2_prepared(g2_negated(proof.b))),
            ],
        ),
    )
}

/// Both verification equations have a value, and it is one.
pub open spec fn proof_accepted(pvk: PreparedVerifyingKey, proof: Proof, inputs: Seq<Fr>) -> bool {
    &&& match first_equation(pvk, proof, inputs) {
        Some(value) => fq12_is_one(value),
        None => false,
    }
    &&& match second_equation(pvk, proof) {
        Some(value) => fq12_is_one(value),
        None => false,
    }
}

/// Checks a proof against a prepared key and the public inputs.
///
/// The key is malformed where its query does not hold one point more than
/// there are inputs. Otherwise the proof is accepted exactly where both
/// verification equations hold.
pub fn verify_proof(pvk: &PreparedVerifyingKey, proof: &Proof, public_inputs: &[Fr]) -> (r: Result<
    bool,
    SynthesisError,
>)
    ensures
        r == if public_inputs@.len() + 1 != pvk.query@.len() {
            Err::<bool, SynthesisError>(SynthesisError::MalformedVerifyingKey)
        } else {
            Ok(proof_accepted(*pvk, *proof, public_inputs@))
        },
{
    if pvk.query.len() == 0 || public_inputs.len() != pvk.query.len() - 1 {
        return Err(SynthesisError::MalformedVerifyingKey);
    }
    let mut g_psi: G1 = g1_into_projective(&pvk.query[0]);
    let mut i: usize = 0;
    while i < public_inputs.len()
        invariant
            i <= public_inputs@.len(),
            public_inputs@.len() + 1 == pvk.query@.len(),
            g_psi == accumulated_inputs(pvk.query@, public_inputs@, i as nat),
        decreases public_inputs@.len() - i,
    {
        let scalar: [u64; 4] = public_inputs[i].to_limbs();
        let term: G1 = g1_mul(&pvk.query[i + 1], &scalar);
        g1_add_assign(&mut g_psi, &term);
        i = i + 1;
    }
    let mut test1_a_g_alpha: G1 = g1_into_projective(&proof.a);
    g1_add_assign_mixed(&mut test1_a_g_alpha, &pvk.g_alpha);
    let mut test1_a_g_alpha: G1Affine = g1_into_affine(&test1_a_g_alpha);
    g1_negate(&mut test1_a_g_alpha);

    let mut test1_b_h_beta: G2 = g2_into_projective(&proof.b);
    g2_add_assign_mixed(&mut test1_b_h_beta, &pvk.h_beta);
    let test1_b_h_beta: G2Affine = g2_into_affine(&test1_b_h_beta);

    let first_left = g1_prepare(&test1_a_g_alpha);
    let first_right = g2_prepare(&test1_b_h_beta);
    let psi = g1_prepare(&g1_into_affine(&g_psi));
    let c = g1_prepare(&proof.c);
    let mut pairs: Vec<(&G1Prepared, &G2Prepared)> = Vec::new();
    pairs.push((&first_left, &first_right));
    pairs.push((&psi, &pvk.h_gamma_pc));
    pairs.push((&c, &pvk.h_pc));
    proof {
        assert(owned_pairs(pairs@) =~= seq![
            (first_left, first_right),
            (psi, pvk.h_gamma_pc),
            (c, pvk.h_pc),
        ]);
    }
    let mut test1_r2: Fq12 = miller_loop(&pairs);
    fq12_mul_assign(&mut test1_r2, &pvk.g_alpha_h_beta_ml);
    let test1 = final_exponentiation(&test1_r2);

    let mut neg_b: G2Affine = proof.b;
    g2_negate(&mut neg_b);
    let a = g1_prepare(&proof.a);
    let neg_b = g2_prepare(&neg_b);
    let mut pairs: Vec<(&G1Prepared, &G2Prepared)> = Vec::new();
    pairs.push((&a, &pvk.h_gamma_pc));
    pairs.push((&pvk.g_gamma_pc, &neg_b));
    proof {
        assert(owned_pairs(pairs@) =~= seq![(a, pvk.h_gamma_pc), (pvk.g_gamma_pc, neg_b)]);
    }
    let test2 = final_exponentiation(&miller_loop(&pairs));

    let first_holds: bool = match test1 {
        Some(value) => fq12_equals_one(&value),
        None => false,
    };
    let second_holds: bool = match test2 {
        Some(value) => fq12_equals_one(&value),
        None => false,
    };
    Ok(first_holds && second_holds)
}

} // verus!
