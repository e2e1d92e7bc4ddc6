use crate::field::{all_wf, values, FieldElement};
use crate::modular::{
    congruent, is_canonical, is_prime, is_principal_root, is_root_of_unity, lemma_congruent_add,
    lemma_congruent_mul, lemma_congruent_pow, lemma_congruent_reduce,
    lemma_root_of_unity_is_principal,
};
use crate::serial::serial_fft;
use crate::sums::{
    lemma_sum_chunks, lemma_sum_congruent, lemma_sum_equal, lemma_sum_scale, lemma_sum_swap, sum,
};
use crate::transform::{dft, dft_partial, lemma_radix2_is_dft, radix2};
use vstd::arithmetic::div_mod::*;
use vstd::arithmetic::mul::*;
use vstd::arithmetic::power::*;
use vstd::arithmetic::power2::*;
use vstd::bits::*;
use vstd::prelude::*;

verus! {

/// The exponent of the twiddle factor that lane `j` applies to the entry at
/// offset `i` of stride `s`, as the running product of the scatter phase
/// arrives at it.
pub open spec fn lane_exponent(j: nat, i: nat, s: nat, lanes: nat, len: nat) -> nat {
    j * len * (i * lanes + s) + j * i
}

/// The sum of the first `count` weighted entries that lane `j` gathers for
/// its entry `i`.
pub open spec fn lane_partial(
    x: Seq<int>,
    w: int,
    j: nat,
    i: nat,
    lanes: nat,
    len: nat,
    count: nat,
) -> int
    decreases count,
{
    if count == 0 {
        0
    } else {
        lane_partial(x, w, j, i, lanes, len, (count - 1) as nat) + x[i + (count - 1) * len] * pow(
            w,
            lane_exponent(j, i, (count - 1) as nat, lanes, len),
        )
    }
}

/// The input of the sub-transform of lane `j`: each entry is a weighted sum
/// over all strides of the buffer.
pub open spec fn lane_input(x: Seq<int>, w: int, p: int, j: nat, lanes: nat, len: nat) -> Seq<int> {
    Seq::new(len, |i: int| lane_partial(x, w, j, i as nat, lanes, len, lanes) % p)
}

/// What the four-step decomposition with `lanes` lanes yields, whatever `w`
/// is: entry `idx` is entry `idx / lanes` of the sub-transform of lane
/// `idx % lanes`.
pub open spec fn four_step(x: Seq<int>, w: int, p: int, lanes: nat) -> Seq<int> {
    Seq::new(
        x.len(),
        |idx: int|
            radix2(
                lane_input(x, w, p, (idx % lanes as int) as nat, lanes, x.len() / lanes),
                pow(w, lanes) % p,
                p,
            )[idx / lanes as int],
    )
}

/// The defining sum of the transform, written with `sum`.
pub proof fn lemma_dft_partial_as_sum(x: Seq<int>, w: int, j: nat, count: nat)
    ensures
        dft_partial(x, w, j, count) == sum(|i: int| x[i] * pow(w, (i * j) as nat), count),
    decreases count,
{
    if count > 0 {
        lemma_dft_partial_as_sum(x, w, j, (count - 1) as nat);
    }
}

/// The sum that a lane gathers, written with `sum`.
proof fn lemma_lane_partial_as_sum(
    x: Seq<int>,
    w: int,
    j: nat,
    i: nat,
    lanes: nat,
    len: nat,
    count: nat,
)
    ensures
        lane_partial(x, w, j, i, lanes, len, count) == sum(
            |s: int| x[i + s * len] * pow(w, lane_exponent(j, i, s as nat, lanes, len)),
            count,
        ),
    decreases count,
{
    if count > 0 {
        lemma_lane_partial_as_sum(x, w, j, i, lanes, len, (count - 1) as nat);
    }
}

/// Where `w^n` is one modulo `p`, multiples of `n` in the exponent do not
/// count.
pub proof fn lemma_pow_period(w: int, e: nat, q: nat, n: nat, p: int)
    requires
        p > 1,
        pow(w, n) % p == 1,
    ensures
        congruent(pow(w, e + q * n), pow(w, e), p),
{
    lemma_pow_adds(w, e, q * n);
    lemma_mul_is_commutative(q as int, n as int);
    lemma_pow_multiplies(w, n, q);
    lemma_small_mod(1, p as nat);
    lemma_congruent_pow(pow(w, n), 1, q, p);
    lemma1_pow(q);
    lemma_congruent_mul(pow(w, e), pow(w, e), pow(w, q * n), 1, p);
    assert(pow(w, e) * 1 == pow(w, e));
}

/// A principal root of a transform of size `2^log_n` has order dividing that
/// size, for `log_n >= 1`.
pub proof fn lemma_principal_root_power(w: int, log_n: nat, p: int)
    requires
        p > 1,
        log_n >= 1,
        is_principal_root(w, log_n, p),
    ensures
        pow(w, pow2(log_n)) % p == 1,
{
    let half = pow2((log_n - 1) as nat);
    let wh = pow(w, half);
    lemma_pow2_unfold(log_n);
    lemma_pow_adds(w, half, half);
    lemma_mod_add_multiples_vanish(-1, p);
    lemma_small_mod((p - 1) as nat, p as nat);
    assert(congruent(wh, -1, p));
    lemma_congruent_mul(wh, -1, wh, -1, p);
    assert((-1) * (-1) == 1) by (nonlinear_arith);
    lemma_small_mod(1, p as nat);
}

/// The term that lane `j` weights for offset `i` and stride `s`, times the
/// twiddle of its sub-transform, is the term of the full transform for the
/// entry `i + s * len` and the output index `j + lanes * k`.
proof fn lemma_four_step_term(
    xv: int,
    w: int,
    p: int,
    j: nat,
    k: nat,
    i: nat,
    s: nat,
    lanes: nat,
    len: nat,
)
    requires
        p > 1,
        pow(w, lanes * len) % p == 1,
    ensures
        congruent(
            pow(w, lanes * (i * k)) * (xv * pow(w, lane_exponent(j, i, s, lanes, len))),
            xv * pow(w, (i + s * len) * (j + lanes * k)),
            p,
        ),
{
    let n = lanes * len;
    let base = i * j + lanes * (i * k) + j * (s * len);
    let e = lane_exponent(j, i, s, lanes, len);
    assert(lanes * (i * k) + e == base + (j * i) * n) by {
        let c = (j * len) as int;
        assert(c * (i * lanes + s) == c * (i * lanes) + c * s) by (nonlinear_arith);
        assert(c * (i * lanes) == (j * i) * n) by (nonlinear_arith)
            requires
                c == j * len,
                n == lanes * len,
        ;
        assert(c * s == j * (s * len)) by (nonlinear_arith)
            requires
                c == j * len,
        ;
        assert(j * i == i * j) by (nonlinear_arith);
    }
    assert((i + s * len) * (j + lanes * k) == base + (s * k) * n) by {
        let a = (s * len) as int;
        let b = (lanes * k) as int;
        assert((i + a) * (j + b) == i * j + i * b + a * j + a * b) by (nonlinear_arith);
        assert(i * b == lanes * (i * k)) by (nonlinear_arith)
            requires
                b == lanes * k,
        ;
        assert(a * j == j * (s * len)) by (nonlinear_arith)
            requires
                a == s * len,
        ;
        assert(a * b == (s * k) * n) by (nonlinear_arith)
            requires
                a == s * len,
                b == lanes * k,
                n == lanes * len,
        ;
    }
    lemma_pow_adds(w, lanes * (i * k), e);
    lemma_pow_period(w, base, j * i, n, p);
    lemma_pow_period(w, base, s * k, n, p);
    let lhs_pow = pow(w, lanes * (i * k)) * pow(w, e);
    let rhs_pow = pow(w, (i + s * len) * (j + lanes * k));
    assert(congruent(lhs_pow, rhs_pow, p));
    lemma_congruent_mul(xv, xv, lhs_pow, rhs_pow, p);
    let pa = pow(w, lanes * (i * k));
    let pb = pow(w, e);
    assert(pa * (xv * pb) == xv * (pa * pb)) by (nonlinear_arith);
}

/// With a principal root of unity the four-step decomposition computes the
/// discrete transform, for every number of lanes up to the size of the buffer.
pub proof fn lemma_four_step_is_dft(x: Seq<int>, w: int, p: int, log_n: nat, log_lanes: nat)
    requires
        p > 1,
        log_lanes <= log_n,
        x.len() == pow2(log_n),
        is_canonical(x, p),
        is_principal_root(w, log_n, p),
    ensures
        four_step(x, w, p, pow2(log_lanes)) == dft(x, w, p),
{
    let lanes = pow2(log_lanes);
    let log_len = (log_n - log_lanes) as nat;
    let len = pow2(log_len);
    let n = x.len();
    let root = pow(w, lanes) % p;
    lemma_pow2_pos(log_lanes);
    lemma_pow2_pos(log_len);
    lemma_pow2_adds(log_lanes, log_len);
    assert(n == lanes * len);
    lemma_div_multiples_vanish(len as int, lanes as int);
    assert(n / lanes == len);
    let fs = four_step(x, w, p, lanes);
    let d = dft(x, w, p);
    // the root of the sub-transforms is principal for their size
    assert(is_principal_root(root, log_len, p)) by {
        if log_len >= 1 {
            let h = pow2((log_len - 1) as nat);
            lemma_pow2_adds(log_lanes, (log_len - 1) as nat);
            lemma_pow_mod_noop(pow(w, lanes), h, p);
            lemma_pow_multiplies(w, lanes, h);
        }
    }
    assert forall|idx: int| 0 <= idx < n implies fs[idx] == d[idx] by {
        let j = (idx % lanes as int) as nat;
        let k = (idx / lanes as int) as nat;
        lemma_fundamental_div_mod(idx, lanes as int);
        lemma_mod_bound(idx, lanes as int);
        assert(k < len) by (nonlinear_arith)
            requires
                idx == lanes * k + j,
                idx < lanes * len,
                0 <= j,
        ;
        let lane = lane_input(x, w, p, j, lanes, len);
        assert(is_canonical(lane, p)) by {
            assert forall|i: int| 0 <= i < lane.len() implies 0 <= #[trigger] lane[i] < p by {
                lemma_mod_bound(lane_partial(x, w, j, i as nat, lanes, len, lanes), p);
            }
        }
        lemma_radix2_is_dft(lane, root, log_len, p);
        assert(fs[idx] == dft_partial(lane, root, k, len) % p);
        if log_n == 0 {
            lemma2_to64();
            assert(lanes == 1 && len == 1 && j == 0 && k == 0 && idx == 0);
            lemma_pow0(w);
            lemma_pow0(root);
            assert(lane_exponent(0, 0, 0, 1, 1) == 0);
            assert(lane_partial(x, w, 0, 0, 1, 1, 1) == lane_partial(x, w, 0, 0, 1, 1, 0) + x[0int + 0int
                * 1int] * pow(w, lane_exponent(0, 0, 0, 1, 1)));
            assert(x[0] * 1 == x[0]);
            lemma_small_mod(x[0] as nat, p as nat);
            assert(lane[0] == x[0]);
            assert(dft_partial(lane, root, 0, 1) == dft_partial(lane, root, 0, 0) + lane[0] * pow(
                root,
                (0 * 0) as nat,
            ));
            assert(dft_partial(x, w, 0, 1) == dft_partial(x, w, 0, 0) + x[0] * pow(
                w,
                (0 * 0) as nat,
            ));
        } else {
            lemma_principal_root_power(w, log_n, p);
            let out = (j + lanes * k) as nat;
            assert(out == idx);
            // the sub-transform as a sum over offsets
            lemma_dft_partial_as_sum(lane, root, k, len);
            let sub_term = |i: int| lane[i] * pow(root, (i * k) as nat);
            // the full transform as a sum over offsets of sums over strides
            let full_term = |t: int| x[t] * pow(w, (t * out) as nat);
            let grid = |i: int, s: int| x[i + s * len] * pow(w, ((i + s * len) * out) as nat);
            let by_offset = |i: int| sum(|s: int| grid(i, s), lanes);
            assert forall|i: int| 0 <= i < len implies congruent(
                #[trigger] sub_term(i),
                by_offset(i),
                p,
            ) by {
                let gathered = |s: int|
                    x[i + s * len] * pow(w, lane_exponent(j, i as nat, s as nat, lanes, len));
                let c0 = pow(w, lanes * (i * k) as nat);
                lemma_lane_partial_as_sum(x, w, j, i as nat, lanes, len, lanes);
                lemma_congruent_reduce(sum(gathered, lanes), p);
                assert(congruent(lane[i], sum(gathered, lanes), p));
                lemma_pow_mod_noop(pow(w, lanes), (i * k) as nat, p);
                lemma_pow_multiplies(w, lanes, (i * k) as nat);
                assert(congruent(pow(root, (i * k) as nat), c0, p));
                lemma_congruent_mul(lane[i], sum(gathered, lanes), pow(root, (i * k) as nat), c0, p);
                lemma_sum_scale(gathered, c0, lanes);
                lemma_mul_is_commutative(sum(gathered, lanes), c0);
                let scaled = |s: int| c0 * gathered(s);
                assert forall|s: int| 0 <= s < lanes implies congruent(
                    #[trigger] scaled(s),
                    grid(i, s),
                    p,
                ) by {
                    lemma_four_step_term(
                        x[i + s * len],
                        w,
                        p,
                        j,
                        k,
                        i as nat,
                        s as nat,
                        lanes,
                        len,
                    );
                }
                lemma_sum_congruent(scaled, |s: int| grid(i, s), lanes, p);
            }
            lemma_sum_congruent(sub_term, by_offset, len, p);
            lemma_sum_swap(grid, len, lanes);
            lemma_sum_chunks(full_term, lanes, len);
            let by_stride = |s: int| sum(|i: int| grid(i, s), len);
            let by_row = |s: int| sum(|i: int| full_term(s * len + i), len);
            assert forall|s: int| 0 <= s < lanes implies #[trigger] by_stride(s) == by_row(s) by {
                lemma_sum_equal(|i: int| grid(i, s), |i: int| full_term(s * len + i), len);
            }
            lemma_sum_equal(by_stride, by_row, lanes);
            lemma_dft_partial_as_sum(x, w, out, n);
            assert(sum(by_offset, len) == sum(by_stride, lanes));
            assert(sum(by_row, lanes) == sum(full_term, lanes * len));
            assert(congruent(dft_partial(lane, root, k, len), dft_partial(x, w, out, n), p));
        }
    }
    assert(fs =~= d);
}

/// For a root of unity of order `2^log_n` in a prime field, the four-step
/// decomposition and the radix-two recursion yield the same: the discrete
/// transform, whatever the number of lanes.
pub proof fn lemma_four_step_matches_radix2(
    x: Seq<int>,
    w: int,
    p: int,
    log_n: nat,
    log_lanes: nat,
)
    requires
        is_prime(p),
        log_lanes <= log_n,
        x.len() == pow2(log_n),
        is_canonical(x, p),
        is_root_of_unity(w, pow2(log_n), p),
    ensures
        four_step(x, w, p, pow2(log_lanes)) == radix2(x, w, p),
        radix2(x, w, p) == dft(x, w, p),
{
    lemma_root_of_unity_is_principal(w, log_n, p);
    lemma_four_step_is_dft(x, w, p, log_n, log_lanes);
    lemma_radix2_is_dft(x, w, log_n, p);
}

/// The running sum of a lane after one more weighted entry.
proof fn lemma_scatter_step(partial: int, acc: int, xv: int, elt: int, t: int, e: nat, w: int, p: int)
    requires
        p > 1,
        acc == partial % p,
        elt == pow(w, e) % p,
        t == (xv * elt) % p,
    ensures
        (acc + t) % p == (partial + xv * pow(w, e)) % p,
{
    lemma_congruent_reduce(pow(w, e), p);
    lemma_congruent_mul(xv, xv, elt, pow(w, e), p);
    lemma_congruent_reduce(xv * elt, p);
    lemma_congruent_reduce(partial, p);
    lemma_congruent_add(acc, partial, t, xv * pow(w, e), p);
}

/// The running twiddle factor after one more multiplication.
proof fn lemma_twiddle_advance(elt: int, step: int, e: nat, d: nat, w: int, p: int)
    requires
        p > 1,
        elt == pow(w, e) % p,
        step == pow(w, d) % p,
    ensures
        (elt * step) % p == pow(w, e + d) % p,
{
    lemma_congruent_reduce(pow(w, e), p);
    lemma_congruent_reduce(pow(w, d), p);
    lemma_congruent_mul(elt, pow(w, e), step, pow(w, d), p);
    lemma_pow_adds(w, e, d);
}

/// Builds the input of the sub-transform of lane `j`: for each offset, the
/// sum over all strides of the buffer, each entry weighted by a running
/// twiddle factor. Reads the buffer only.
pub fn scatter_lane<F: FieldElement>(a: &[F], omega: &F, j: usize, log_n: u32, log_cpus: u32) -> (lane:
    Vec<F>)
    requires
        log_cpus <= log_n < 32,
        a.len() == pow2(log_n as nat),
        all_wf(a@),
        omega.wf(),
        j < pow2(log_cpus as nat),
    ensures
        lane@.len() == pow2((log_n - log_cpus) as nat),
        all_wf(lane@),
        values(lane@) == lane_input(
            values(a@),
            omega.value(),
            F::modulus(),
            j as nat,
            pow2(log_cpus as nat),
            pow2((log_n - log_cpus) as nat),
        ),
{
    let log_new_n: u32 = log_n - log_cpus;
    let ghost x = values(a@);
    let ghost w = omega.value();
    let ghost p = F::modulus();
    let ghost lanes = pow2(log_cpus as nat);
    let ghost len_n = pow2(log_new_n as nat);
    proof {
        F::lemma_modulus();
        lemma2_to64();
        lemma_pow2_strictly_increases(log_n as nat, 32);
        lemma_pow2_pos(log_cpus as nat);
        lemma_pow2_pos(log_new_n as nat);
        lemma_pow2_adds(log_cpus as nat, log_new_n as nat);
        assert(lanes * len_n == a.len());
        assert(lanes <= a.len() && len_n <= a.len() && j * len_n < a.len()) by (nonlinear_arith)
            requires
                lanes * len_n == a.len(),
                lanes >= 1,
                len_n >= 1,
                j < lanes,
        ;
        lemma_usize_shl_is_mul(1usize, log_cpus as usize);
        lemma_usize_shl_is_mul(1usize, log_new_n as usize);
        lemma_usize_shl_is_mul(1usize, log_n as usize);
        lemma_u64_shl_is_mul(j as u64, log_new_n as u64);
    }
    let num_cpus: usize = 1usize << log_cpus;
    let len: usize = 1usize << log_new_n;
    let n: usize = 1usize << log_n;
    let omega_j: F = omega.pow(j as u64);
    let omega_step: F = omega.pow((j as u64) << log_new_n);
    let mut elt: F = F::one();
    let mut lane: Vec<F> = Vec::with_capacity(len);
    let mut i: usize = 0;
    proof {
        lemma_pow0(w);
        lemma_small_mod(1, p as nat);
        assert(lane_exponent(j as nat, 0, 0, lanes, len_n) == 0) by (nonlinear_arith);
    }
    while i < len
        invariant
            i <= len,
            len as nat == len_n,
            len_n == pow2(log_new_n as nat),
            num_cpus as nat == lanes,
            n as nat == a.len(),
            lanes * len_n == a.len(),
            a.len() < 0x1_0000_0000,
            j < lanes,
            log_new_n < 32,
            x == values(a@),
            all_wf(a@),
            w == omega.value(),
            p == F::modulus(),
            p > 1,
            omega_j.wf(),
            omega_step.wf(),
            omega_j.value() == pow(w, j as nat) % p,
            omega_step.value() == pow(w, j as nat * len_n) % p,
            elt.wf(),
            elt.value() == pow(w, lane_exponent(j as nat, i as nat, 0, lanes, len_n)) % p,
            lane@.len() == i,
            all_wf(lane@),
            forall|q: int|
                0 <= q < i ==> (#[trigger] lane@[q]).value() == lane_partial(
                    x,
                    w,
                    j as nat,
                    q as nat,
                    lanes,
                    len_n,
                    lanes,
                ) % p,
        decreases len - i,
    {
        let mut acc: F = F::zero();
        let mut s: usize = 0;
        proof {
            lemma_small_mod(0, p as nat);
        }
        while s < num_cpus
            invariant
                s <= num_cpus,
                i < len,
                len as nat == len_n,
                len_n == pow2(log_new_n as nat),
                num_cpus as nat == lanes,
                n as nat == a.len(),
                lanes * len_n == a.len(),
                a.len() < 0x1_0000_0000,
                j < lanes,
                log_new_n < 32,
                x == values(a@),
                all_wf(a@),
                p == F::modulus(),
                p > 1,
                omega_step.wf(),
                omega_step.value() == pow(w, j as nat * len_n) % p,
                elt.wf(),
                elt.value() == pow(w, lane_exponent(j as nat, i as nat, s as nat, lanes, len_n))
                    % p,
                acc.wf(),
                acc.value() == lane_partial(x, w, j as nat, i as nat, lanes, len_n, s as nat) % p,
            decreases num_cpus - s,
        {
            proof {
                assert(i + s * len_n < lanes * len_n && s * len_n >= 0) by (nonlinear_arith)
                    requires
                        i < len_n,
                        s < lanes,
                ;
                lemma_usize_shl_is_mul(s, log_new_n as usize);
                lemma_small_mod((i + s * len_n) as nat, n as nat);
            }
            let idx: usize = (i + (s << log_new_n)) % n;
            let entry: F = a[idx];
            proof {
                assert(a@[idx as int].wf());
                assert(x[idx as int] == entry.value());
            }
            let t: F = entry.mul(&elt);
            let next_acc: F = acc.add(&t);
            let next_elt: F = elt.mul(&omega_step);
            proof {
                let e = lane_exponent(j as nat, i as nat, s as nat, lanes, len_n);
                lemma_scatter_step(
                    lane_partial(x, w, j as nat, i as nat, lanes, len_n, s as nat),
                    acc.value(),
                    entry.value(),
                    elt.value(),
                    t.value(),
                    e,
                    w,
                    p,
                );
                lemma_twiddle_advance(elt.value(), omega_step.value(), e, j as nat * len_n, w, p);
                assert(e + j as nat * len_n == lane_exponent(
                    j as nat,
                    i as nat,
                    (s + 1) as nat,
                    lanes,
                    len_n,
                )) by (nonlinear_arith)
                    requires
                        e == j * len_n * (i * lanes + s) + j * i,
                ;
            }
            acc = next_acc;
            elt = next_elt;
            s = s + 1;
        }
        let next_elt: F = elt.mul(&omega_j);
        proof {
            let e = lane_exponent(j as nat, i as nat, lanes, lanes, len_n);
            lemma_twiddle_advance(elt.value(), omega_j.value(), e, j as nat, w, p);
            assert(e + j as nat == lane_exponent(j as nat, (i + 1) as nat, 0, lanes, len_n))
                by (nonlinear_arith)
                requires
                    e == j * len_n * (i * lanes + lanes) + j * i,
            ;
        }
        lane.push(acc);
        elt = next_elt;
        i = i + 1;
    }
    proof {
        assert(values(lane@) =~= lane_input(x, w, p, j as nat, lanes, len_n));
    }
    lane
}

/// Writes the lane results back: the low `log_cpus` bits of an index select
/// the lane, the other bits the place within it.
pub fn gather_lanes<F: FieldElement>(a: &mut [F], tmp: &Vec<Vec<F>>, log_cpus: u32)
    requires
        log_cpus < 32,
        old(a).len() < 0x1_0000_0000,
        tmp@.len() == pow2(log_cpus as nat),
        forall|j: int|
            0 <= j < tmp@.len() ==> (#[trigger] tmp@[j])@.len() * tmp@.len() == old(a).len(),
    ensures
        final(a)@.len() == old(a)@.len(),
        forall|idx: int|
            0 <= idx < old(a)@.len() ==> #[trigger] final(a)@[idx] == tmp@[idx % (tmp@.len()
                as int)]@[idx / (tmp@.len() as int)],
{
    let ghost lanes = pow2(log_cpus as nat) as int;
    proof {
        lemma2_to64();
        lemma_pow2_strictly_increases(log_cpus as nat, 32);
        lemma_pow2_pos(log_cpus as nat);
        lemma_usize_shl_is_mul(1usize, log_cpus as usize);
    }
    let n: usize = a.len();
    let mask: usize = (1usize << log_cpus) - 1;
    let mut idx: usize = 0;
    while idx < n
        invariant
            idx <= n,
            a@.len() == n,
            log_cpus < 32,
            lanes == pow2(log_cpus as nat),
            1 <= lanes < 0x1_0000_0000,
            tmp@.len() == lanes,
            mask == lanes - 1,
            forall|j: int| 0 <= j < tmp@.len() ==> (#[trigger] tmp@[j])@.len() * lanes == n,
            forall|q: int| 0 <= q < idx ==> #[trigger] a@[q] == tmp@[q % lanes]@[q / lanes],
        decreases n - idx,
    {
        proof {
            lemma_usize_low_bits_mask_is_mod(idx, log_cpus as nat);
            lemma_usize_shr_is_div(idx, log_cpus as usize);
            lemma_fundamental_div_mod(idx as int, lanes);
            lemma_mod_bound(idx as int, lanes);
            let j = idx as int % lanes;
            let k = idx as int / lanes;
            let len = tmp@[j]@.len() as int;
            assert(0 <= k < len) by (nonlinear_arith)
                requires
                    idx as int == lanes * k + j,
                    0 <= j < lanes,
                    0 <= (idx as int) < len * lanes,
            ;
        }
        let lane: usize = idx & mask;
        let place: usize = idx >> log_cpus;
        proof {
            assert(mask == low_bits_mask(log_cpus as nat) as usize);
            assert(lane as int == idx as int % lanes);
            assert(place as int == idx as int / lanes);
        }
        let value: F = tmp[lane][place];
        a[idx] = value;
        idx = idx + 1;
    }
}

/// The transform by the four-step decomposition: `2^log_cpus` lanes, each
/// scattered from the whole buffer and transformed by the serial engine, then
/// gathered back into the buffer.
///
/// For every `omega` the outcome is `four_step` of the input; for a principal
/// root of unity that is the discrete transform, which is what the serial
/// engine yields on the same input.
pub fn parallel_fft<F: FieldElement>(a: &mut [F], omega: &F, log_n: u32, log_cpus: u32)
    requires
        log_cpus <= log_n < 32,
        old(a).len() == pow2(log_n as nat),
        all_wf(old(a)@),
        omega.wf(),
    ensures
        final(a)@.len() == old(a)@.len(),
        all_wf(final(a)@),
        values(final(a)@) == four_step(
            values(old(a)@),
            omega.value(),
            F::modulus(),
            pow2(log_cpus as nat),
        ),
        is_principal_root(omega.value(), log_n as nat, F::modulus()) ==> values(final(a)@) == dft(
            values(old(a)@),
            omega.value(),
            F::modulus(),
        ),
        is_prime(F::modulus()) && is_root_of_unity(
            omega.value(),
            pow2(log_n as nat),
            F::modulus(),
        ) ==> values(final(a)@) == dft(values(old(a)@), omega.value(), F::modulus()),
{
    let ghost x = values(a@);
    let ghost w = omega.value();
    let ghost p = F::modulus();
    let ghost lanes = pow2(log_cpus as nat);
    let ghost len = pow2((log_n - log_cpus) as nat);
    let ghost before = a@;
    proof {
        F::lemma_modulus();
        lemma2_to64();
        lemma_pow2_strictly_increases(log_n as nat, 32);
        lemma_pow2_pos(log_cpus as nat);
        lemma_pow2_pos((log_n - log_cpus) as nat);
        lemma_pow2_adds(log_cpus as nat, (log_n - log_cpus) as nat);
        lemma_mul_is_commutative(lanes as int, len as int);
        lemma_div_multiples_vanish(len as int, lanes as int);
        assert(lanes <= a.len()) by (nonlinear_arith)
            requires
                lanes * len == a.len(),
                lanes >= 1,
                len >= 1,
        ;
        lemma_usize_shl_is_mul(1usize, log_cpus as usize);
    }
    let num_cpus: usize = 1usize << log_cpus;
    let log_new_n: u32 = log_n - log_cpus;
    let new_omega: F = omega.pow(num_cpus as u64);
    let mut tmp: Vec<Vec<F>> = Vec::with_capacity(num_cpus);
    let mut j: usize = 0;
    while j < num_cpus
        invariant
            j <= num_cpus,
            num_cpus as nat == lanes,
            lanes == pow2(log_cpus as nat),
            log_cpus <= log_n < 32,
            log_new_n == log_n - log_cpus,
            len == pow2(log_new_n as nat),
            a@ == before,
            a@.len() == pow2(log_n as nat),
            x == values(a@),
            all_wf(a@),
            omega.wf(),
            new_omega.wf(),
            w == omega.value(),
            p == F::modulus(),
            new_omega.value() == pow(w, lanes) % p,
            tmp@.len() == j,
            forall|q: int|
                0 <= q < j ==> {
                    &&& (#[trigger] tmp@[q])@.len() == len
                    &&& all_wf(tmp@[q]@)
                    &&& values(tmp@[q]@) == radix2(
                        lane_input(x, w, p, q as nat, lanes, len),
                        pow(w, lanes) % p,
                        p,
                    )
                },
        decreases num_cpus - j,
    {
        let mut lane: Vec<F> = scatter_lane(a, omega, j, log_n, log_cpus);
        serial_fft(lane.as_mut_slice(), &new_omega, log_new_n);
        tmp.push(lane);
        j = j + 1;
    }
    gather_lanes(a, &tmp, log_cpus);
    proof {
        let fs = four_step(x, w, p, lanes);
        assert forall|idx: int| 0 <= idx < a@.len() implies values(a@)[idx] == fs[idx] by {
            let q = idx % lanes as int;
            let k = idx / lanes as int;
            lemma_fundamental_div_mod(idx, lanes as int);
            lemma_mod_bound(idx, lanes as int);
            assert(0 <= k < len) by (nonlinear_arith)
                requires
                    idx == lanes * k + q,
                    0 <= q < lanes,
                    0 <= idx < lanes * len,
            ;
            assert(a@[idx] == tmp@[q]@[k]);
            assert(values(tmp@[q]@)[k] == tmp@[q]@[k].value());
        }
        assert(values(a@) =~= fs);
        assert forall|idx: int| 0 <= idx < a@.len() implies (#[trigger] a@[idx]).wf() by {
            let q = idx % lanes as int;
            let k = idx / lanes as int;
            lemma_fundamental_div_mod(idx, lanes as int);
            lemma_mod_bound(idx, lanes as int);
            assert(0 <= k < len) by (nonlinear_arith)
                requires
                    idx == lanes * k + q,
                    0 <= q < lanes,
                    0 <= idx < lanes * len,
            ;
            assert(a@[idx] == tmp@[q]@[k]);
            assert(all_wf(tmp@[q]@));
        }
        if is_prime(p) && is_root_of_unity(w, pow2(log_n as nat), p) {
            lemma_root_of_unity_is_principal(w, log_n as nat, p);
        }
        if is_principal_root(w, log_n as nat, p) {
            assert(is_canonical(x, p)) by {
                assert forall|i: int| 0 <= i < x.len() implies 0 <= #[trigger] x[i] < p by {
                    assert(before[i].wf());
                    before[i].lemma_canonical();
                }
            }
            lemma_four_step_is_dft(x, w, p, log_n as nat, log_cpus as nat);
        }
    }
}

} // verus!
