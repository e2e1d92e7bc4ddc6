use vstd::arithmetic::div_mod::*;
use vstd::arithmetic::mul::*;
use vstd::arithmetic::power::*;
use vstd::arithmetic::power2::*;
use vstd::prelude::*;

verus! {

/// `a` and `b` leave the same remainder on division by `p`.
pub open spec fn congruent(a: int, b: int, p: int) -> bool {
    a % p == b % p
}

/// Every entry lies in `[0, p)`.
pub open spec fn is_canonical(x: Seq<int>, p: int) -> bool {
    forall|i: int| 0 <= i < x.len() ==> 0 <= #[trigger] x[i] < p
}

/// `p` has no divisor strictly between one and itself.
pub open spec fn is_prime(p: int) -> bool {
    &&& p >= 2
    &&& forall|d: int| 1 < d < p ==> #[trigger] (p % d) != 0
}

/// `w` has multiplicative order exactly `n` modulo `p`.
pub open spec fn is_root_of_unity(w: int, n: nat, p: int) -> bool {
    &&& pow(w, n) % p == 1
    &&& forall|k: nat| 0 < k < n ==> #[trigger] pow(w, k) % p != 1
}

/// `w` raised to half of `2^log_n` is minus one modulo `p`; nothing is asked
/// of a transform of size one.
pub open spec fn is_principal_root(w: int, log_n: nat, p: int) -> bool {
    log_n >= 1 ==> pow(w, pow2((log_n - 1) as nat)) % p == p - 1
}

/// A number is congruent to its remainder.
pub proof fn lemma_congruent_reduce(a: int, p: int)
    requires
        p > 0,
    ensures
        congruent(a % p, a, p),
{
    lemma_mod_twice(a, p);
}

/// Congruences may be added.
pub proof fn lemma_congruent_add(a: int, b: int, c: int, d: int, p: int)
    requires
        p > 0,
        congruent(a, b, p),
        congruent(c, d, p),
    ensures
        congruent(a + c, b + d, p),
{
    lemma_add_mod_noop(a, c, p);
    lemma_add_mod_noop(b, d, p);
}

/// Congruences may be subtracted.
pub proof fn lemma_congruent_sub(a: int, b: int, c: int, d: int, p: int)
    requires
        p > 0,
        congruent(a, b, p),
        congruent(c, d, p),
    ensures
        congruent(a - c, b - d, p),
{
    lemma_sub_mod_noop(a, c, p);
    lemma_sub_mod_noop(b, d, p);
}

/// Congruences may be multiplied.
pub proof fn lemma_congruent_mul(a: int, b: int, c: int, d: int, p: int)
    requires
        p > 0,
        congruent(a, b, p),
        congruent(c, d, p),
    ensures
        congruent(a * c, b * d, p),
{
    lemma_mul_mod_noop(a, c, p);
    lemma_mul_mod_noop(b, d, p);
}

/// Congruent numbers have congruent powers.
pub proof fn lemma_congruent_pow(a: int, b: int, e: nat, p: int)
    requires
        p > 0,
        congruent(a, b, p),
    ensures
        congruent(pow(a, e), pow(b, e), p),
{
    lemma_pow_mod_noop(a, e, p);
    lemma_pow_mod_noop(b, e, p);
}

/// A power of a square is the power with twice the exponent.
pub proof fn lemma_pow_of_square(w: int, e: nat)
    ensures
        pow(w * w, e) == pow(w, 2 * e),
{
    lemma_pow1(w);
    lemma_pow_adds(w, 1, 1);
    lemma_pow_multiplies(w, 2, e);
}

/// A prime that divides `a * b` with `0 < a < p` divides `b`.
proof fn lemma_euclid_small(p: int, a: int, b: int)
    requires
        is_prime(p),
        0 < a < p,
        (a * b) % p == 0,
    ensures
        b % p == 0,
    decreases a,
{
    if a == 1 {
        assert(a * b == b) by (nonlinear_arith)
            requires
                a == 1,
        ;
    } else {
        let q = p / a;
        let r = p % a;
        lemma_fundamental_div_mod(p, a);
        assert(r != 0);
        lemma_mod_bound(p, a);
        // r * b == p * b - q * (a * b), and both terms are multiples of p
        assert(r * b == p * b - q * (a * b)) by (nonlinear_arith)
            requires
                p == a * q + r,
        ;
        lemma_mod_multiples_basic(b, p);
        lemma_mul_is_commutative(b, p);
        assert(congruent(p * b, 0, p));
        lemma_mul_mod_noop_right(q, a * b, p);
        assert(congruent(q * (a * b), 0, p)) by {
            assert(q * 0 == 0);
        }
        lemma_congruent_sub(p * b, 0, q * (a * b), 0, p);
        lemma_euclid_small(p, r, b);
    }
}

/// A prime that divides a product divides one of its factors.
pub proof fn lemma_euclid(p: int, a: int, b: int)
    requires
        is_prime(p),
        (a * b) % p == 0,
    ensures
        a % p == 0 || b % p == 0,
{
    let r = a % p;
    lemma_mod_bound(a, p);
    if r != 0 {
        lemma_mul_mod_noop_left(a, b, p);
        lemma_euclid_small(p, r, b);
    }
}

/// In a prime field a root of unity of order `2^log_n` has `-1` as the power
/// halfway.
pub proof fn lemma_root_of_unity_is_principal(w: int, log_n: nat, p: int)
    requires
        is_prime(p),
        is_root_of_unity(w, pow2(log_n), p),
    ensures
        is_principal_root(w, log_n, p),
{
    if log_n >= 1 {
        let half = pow2((log_n - 1) as nat);
        let h = pow(w, half);
        lemma_pow2_unfold(log_n);
        lemma_pow2_pos((log_n - 1) as nat);
        lemma_pow_adds(w, half, half);
        assert((h - 1) * (h + 1) == h * h - 1) by (nonlinear_arith);
        lemma_small_mod(1, p as nat);
        assert(congruent(h * h, 1, p));
        lemma_congruent_sub(h * h, 1, 1, 1, p);
        lemma_small_mod(0, p as nat);
        lemma_euclid(p, h - 1, h + 1);
        lemma_mod_bound(h, p);
        if (h - 1) % p == 0 {
            lemma_congruent_add(h - 1, 0, 1, 1, p);
            assert(pow(w, half) % p == 1);
            assert(false);
        }
        lemma_congruent_sub(h + 1, 0, 1, 1, p);
        assert(congruent(h, -1, p));
        lemma_mod_add_multiples_vanish(-1, p);
        lemma_small_mod((p - 1) as nat, p as nat);
    }
}

} // verus!
