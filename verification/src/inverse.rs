use crate::modular::{
    congruent, is_canonical, is_prime, is_root_of_unity, lemma_congruent_add, lemma_congruent_mul,
    lemma_congruent_pow, lemma_congruent_reduce, lemma_congruent_sub, lemma_euclid,
};
use crate::parallel::lemma_dft_partial_as_sum;
use crate::sums::{
    lemma_sum_congruent, lemma_sum_constant, lemma_sum_equal, lemma_sum_scale, lemma_sum_single,
    lemma_sum_swap, sum,
};
use crate::transform::{dft, dft_partial};
use vstd::arithmetic::div_mod::*;
use vstd::arithmetic::mul::*;
use vstd::arithmetic::power::*;
use vstd::arithmetic::power2::*;
use vstd::prelude::*;

verus! {

/// Every entry of `x` multiplied by `c`, modulo `p`.
pub open spec fn scaled(x: Seq<int>, c: int, p: int) -> Seq<int> {
    Seq::new(x.len(), |i: int| (x[i] * c) % p)
}

/// The closed form of a geometric sum, without a division.
proof fn lemma_geometric_sum(r: int, n: nat)
    ensures
        (r - 1) * sum(|j: int| pow(r, j as nat), n) == pow(r, n) - 1,
    decreases n,
{
    let term = |j: int| pow(r, j as nat);
    if n == 0 {
        lemma_pow0(r);
        assert((r - 1) * 0 == 0);
    } else {
        let m = (n - 1) as nat;
        lemma_geometric_sum(r, m);
        lemma_pow_adds(r, m, 1);
        lemma_pow1(r);
        let a = sum(term, m);
        let b = pow(r, m);
        assert(sum(term, n) == a + b);
        assert((r - 1) * (a + b) == (r - 1) * a + (b * r - b)) by (nonlinear_arith);
    }
}

/// The powers of an element that is not one but whose `n`-th power is one
/// add up to zero in a prime field.
proof fn lemma_powers_cancel(r: int, n: nat, p: int)
    requires
        is_prime(p),
        r % p != 1,
        pow(r, n) % p == 1,
    ensures
        sum(|j: int| pow(r, j as nat), n) % p == 0,
{
    let total = sum(|j: int| pow(r, j as nat), n);
    lemma_geometric_sum(r, n);
    lemma_small_mod(1, p as nat);
    lemma_small_mod(0, p as nat);
    lemma_congruent_sub(pow(r, n), 1, 1, 1, p);
    lemma_euclid(p, r - 1, total);
    if (r - 1) % p == 0 {
        lemma_congruent_add(r - 1, 0, 1, 1, p);
        assert(false);
    }
}

/// The inverse of a root of unity is a root of unity of the same order.
proof fn lemma_inverse_root(w: int, w_inv: int, n: nat, p: int)
    requires
        p > 1,
        is_root_of_unity(w, n, p),
        (w * w_inv) % p == 1,
    ensures
        is_root_of_unity(w_inv, n, p),
{
    lemma_small_mod(1, p as nat);
    assert forall|k: nat| #![trigger pow(w_inv, k)] congruent(pow(w, k) * pow(w_inv, k), 1, p) by {
        lemma_pow_distributes(w, w_inv, k);
        lemma_congruent_pow(w * w_inv, 1, k, p);
        lemma1_pow(k);
    }
    assert(pow(w_inv, n) % p == 1) by {
        lemma_congruent_mul(pow(w, n), 1, pow(w_inv, n), pow(w_inv, n), p);
        assert(1 * pow(w_inv, n) == pow(w_inv, n));
    }
    assert forall|k: nat| 0 < k < n implies #[trigger] pow(w_inv, k) % p != 1 by {
        if pow(w_inv, k) % p == 1 {
            lemma_congruent_mul(pow(w, k), pow(w, k), pow(w_inv, k), 1, p);
            assert(pow(w, k) * 1 == pow(w, k));
            assert(pow(w, k) % p == 1);
        }
    }
}

/// `w^i * w_inv^k` is one modulo `p` exactly when `i == k`, for exponents
/// below the order of `w`; and its `n`-th power is one.
proof fn lemma_mixed_power(w: int, w_inv: int, i: nat, k: nat, n: nat, p: int)
    requires
        p > 1,
        is_root_of_unity(w, n, p),
        (w * w_inv) % p == 1,
        i < n,
        k < n,
    ensures
        pow(pow(w, i) * pow(w_inv, k), n) % p == 1,
        (pow(w, i) * pow(w_inv, k)) % p == 1 <==> i == k,
{
    let r = pow(w, i) * pow(w_inv, k);
    lemma_small_mod(1, p as nat);
    lemma_inverse_root(w, w_inv, n, p);
    // the n-th power
    lemma_pow_distributes(pow(w, i), pow(w_inv, k), n);
    lemma_pow_multiplies(w, i, n);
    lemma_pow_multiplies(w, n, i);
    lemma_pow_multiplies(w_inv, k, n);
    lemma_pow_multiplies(w_inv, n, k);
    lemma_mul_is_commutative(i as int, n as int);
    lemma_mul_is_commutative(k as int, n as int);
    lemma_congruent_pow(pow(w, n), 1, i, p);
    lemma_congruent_pow(pow(w_inv, n), 1, k, p);
    lemma1_pow(i);
    lemma1_pow(k);
    lemma_congruent_mul(pow(pow(w, i), n), 1, pow(pow(w_inv, k), n), 1, p);
    // the common part of the two exponents cancels
    let c = if i <= k {
        i
    } else {
        k
    };
    lemma_pow_distributes(w, w_inv, c);
    lemma_congruent_pow(w * w_inv, 1, c, p);
    lemma1_pow(c);
    let common = pow(w, c) * pow(w_inv, c);
    assert(congruent(common, 1, p));
    if i == k {
        assert(r == common);
    } else if i > k {
        let d = (i - k) as nat;
        lemma_pow_adds(w, d, k);
        assert(r == pow(w, d) * common) by (nonlinear_arith)
            requires
                r == pow(w, i) * pow(w_inv, k),
                pow(w, i) == pow(w, d) * pow(w, k),
                common == pow(w, k) * pow(w_inv, k),
        ;
        lemma_congruent_mul(pow(w, d), pow(w, d), common, 1, p);
        assert(pow(w, d) * 1 == pow(w, d));
        assert(pow(w, d) % p != 1);
    } else {
        let d = (k - i) as nat;
        lemma_pow_adds(w_inv, d, i);
        assert(r == pow(w_inv, d) * common) by (nonlinear_arith)
            requires
                r == pow(w, i) * pow(w_inv, k),
                pow(w_inv, k) == pow(w_inv, d) * pow(w_inv, i),
                common == pow(w, i) * pow(w_inv, i),
        ;
        lemma_congruent_mul(pow(w_inv, d), pow(w_inv, d), common, 1, p);
        assert(pow(w_inv, d) * 1 == pow(w_inv, d));
        assert(pow(w_inv, d) % p != 1);
    }
}

/// Transforming with a root of unity `w`, then with its inverse, then
/// multiplying every entry by the inverse of the size gives the input back.
pub proof fn lemma_inverse_round_trip(
    x: Seq<int>,
    w: int,
    w_inv: int,
    n_inv: int,
    log_n: nat,
    p: int,
)
    requires
        is_prime(p),
        x.len() == pow2(log_n),
        is_canonical(x, p),
        is_root_of_unity(w, pow2(log_n), p),
        (w * w_inv) % p == 1,
        (pow2(log_n) * n_inv) % p == 1,
    ensures
        scaled(dft(dft(x, w, p), w_inv, p), n_inv, p) == x,
{
    let n = pow2(log_n);
    let y = dft(x, w, p);
    let z = dft(y, w_inv, p);
    let back = scaled(z, n_inv, p);
    lemma_small_mod(1, p as nat);
    lemma_small_mod(0, p as nat);
    assert forall|k: int| 0 <= k < n implies back[k] == x[k] by {
        let grid = |j: int, i: int| pow(w_inv, (j * k) as nat) * (x[i] * pow(w, (i * j) as nat));
        let outer = |j: int| y[j] * pow(w_inv, (j * k) as nat);
        let by_output = |j: int| sum(|i: int| grid(j, i), n);
        let by_input = |i: int| sum(|j: int| grid(j, i), n);
        let picked = |i: int|
            if i == k {
                x[k] * n
            } else {
                0
            };
        lemma_dft_partial_as_sum(y, w_inv, k as nat, n);
        assert forall|j: int| 0 <= j < n implies congruent(#[trigger] outer(j), by_output(j), p) by {
            let inner = |i: int| x[i] * pow(w, (i * j) as nat);
            let c0 = pow(w_inv, (j * k) as nat);
            lemma_dft_partial_as_sum(x, w, j as nat, n);
            lemma_congruent_reduce(sum(inner, n), p);
            lemma_congruent_mul(y[j], sum(inner, n), c0, c0, p);
            lemma_sum_scale(inner, c0, n);
            lemma_mul_is_commutative(sum(inner, n), c0);
            lemma_sum_equal(|i: int| c0 * inner(i), |i: int| grid(j, i), n);
        }
        lemma_sum_congruent(outer, by_output, n, p);
        lemma_sum_swap(grid, n, n);
        assert forall|i: int| 0 <= i < n implies congruent(#[trigger] by_input(i), picked(i), p) by {
            let r = pow(w, i as nat) * pow(w_inv, k as nat);
            let powers = |j: int| pow(r, j as nat);
            let column = |j: int| grid(j, i);
            let weighted = |j: int| x[i] * powers(j);
            assert forall|j: int| 0 <= j < n implies #[trigger] column(j) == weighted(j) by {
                lemma_pow_multiplies(w, i as nat, j as nat);
                lemma_pow_multiplies(w_inv, k as nat, j as nat);
                lemma_mul_is_commutative(j, k);
                lemma_pow_distributes(pow(w, i as nat), pow(w_inv, k as nat), j as nat);
                let a = pow(w, (i * j) as nat);
                let b = pow(w_inv, (j * k) as nat);
                assert(b * (x[i] * a) == x[i] * (a * b)) by (nonlinear_arith);
            }
            lemma_sum_equal(column, weighted, n);
            lemma_sum_scale(powers, x[i], n);
            lemma_mixed_power(w, w_inv, i as nat, k as nat, n, p);
            if i == k {
                let ones = |j: int| 1int;
                assert forall|j: int| 0 <= j < n implies congruent(
                    #[trigger] powers(j),
                    ones(j),
                    p,
                ) by {
                    lemma_congruent_pow(r, 1, j as nat, p);
                    lemma1_pow(j as nat);
                }
                lemma_sum_congruent(powers, ones, n, p);
                lemma_sum_constant(1, n);
                assert(1 * n == n);
                lemma_congruent_mul(x[i], x[i], sum(powers, n), n as int, p);
            } else {
                lemma_powers_cancel(r, n, p);
                lemma_congruent_mul(x[i], x[i], sum(powers, n), 0, p);
                assert(x[i] * 0 == 0);
            }
        }
        lemma_sum_congruent(by_input, picked, n, p);
        lemma_sum_single(picked, n, k);
        let total = dft_partial(y, w_inv, k as nat, n);
        assert(congruent(total, x[k] * n, p));
        lemma_congruent_reduce(total, p);
        lemma_congruent_mul(z[k], x[k] * n, n_inv, n_inv, p);
        assert((x[k] * n) * n_inv == x[k] * (n * n_inv)) by (nonlinear_arith);
        lemma_congruent_mul(x[k], x[k], n * n_inv, 1, p);
        assert(x[k] * 1 == x[k]);
        lemma_small_mod(x[k] as nat, p as nat);
    }
    assert(back =~= x);
}

} // verus!
