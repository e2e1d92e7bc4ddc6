use crate::modular::{
    congruent, is_canonical, is_principal_root, lemma_congruent_add, lemma_congruent_mul,
    lemma_congruent_pow, lemma_congruent_reduce, lemma_congruent_sub, lemma_pow_of_square,
};
use vstd::arithmetic::div_mod::*;
use vstd::arithmetic::mul::*;
use vstd::arithmetic::power::*;
use vstd::arithmetic::power2::*;
use vstd::prelude::*;

verus! {

/// The sum of the first `count` terms `x[i] * w^(i*j)`, as an integer.
pub open spec fn dft_partial(x: Seq<int>, w: int, j: nat, count: nat) -> int
    decreases count,
{
    if count == 0 {
        0
    } else {
        dft_partial(x, w, j, (count - 1) as nat) + x[count - 1] * pow(w, ((count - 1) * j) as nat)
    }
}

/// The discrete transform of `x` defined by `w` over the integers modulo `p`:
/// entry `j` is the sum of all `x[i] * w^(i*j)`, reduced modulo `p`.
pub open spec fn dft(x: Seq<int>, w: int, p: int) -> Seq<int> {
    Seq::new(x.len(), |j: int| dft_partial(x, w, j as nat, x.len()) % p)
}

/// The entries of `x` at even indices.
pub open spec fn evens(x: Seq<int>) -> Seq<int> {
    Seq::new(x.len() / 2, |i: int| x[2 * i])
}

/// The entries of `x` at odd indices.
pub open spec fn odds(x: Seq<int>) -> Seq<int> {
    Seq::new(x.len() / 2, |i: int| x[2 * i + 1])
}

/// What the radix-two decimation-in-time recursion yields for a sequence whose
/// length is a power of two, whatever `w` is: the transforms of the even and
/// of the odd entries, combined by butterflies with the powers of `w`.
pub open spec fn radix2(x: Seq<int>, w: int, p: int) -> Seq<int>
    decreases x.len(),
{
    if x.len() <= 1 {
        x
    } else {
        let half = (x.len() / 2) as int;
        let e = radix2(evens(x), w * w, p);
        let o = radix2(odds(x), w * w, p);
        Seq::new(
            x.len(),
            |j: int|
                if j < half {
                    (e[j] + pow(w, j as nat) * o[j]) % p
                } else {
                    (e[j - half] - pow(w, (j - half) as nat) * o[j - half]) % p
                },
        )
    }
}

/// The recursion keeps the length.
pub proof fn lemma_radix2_len(x: Seq<int>, w: int, p: int)
    ensures
        radix2(x, w, p).len() == x.len(),
    decreases x.len(),
{
}

/// Splitting the defining sum into its even and its odd terms.
pub proof fn lemma_dft_partial_split(x: Seq<int>, w: int, j: nat, count: nat)
    requires
        2 * count <= x.len(),
    ensures
        dft_partial(x, w, j, 2 * count) == dft_partial(evens(x), w * w, j, count) + pow(w, j)
            * dft_partial(odds(x), w * w, j, count),
    decreases count,
{
    if count == 0 {
        assert(pow(w, j) * 0 == 0);
    } else {
        let c = (count - 1) as nat;
        let c2 = 2 * c as int;
        lemma_dft_partial_split(x, w, j, c);
        let se = dft_partial(evens(x), w * w, j, c);
        let so = dft_partial(odds(x), w * w, j, c);
        let wj = pow(w, j);
        let t = pow(w * w, (c * j) as nat);
        let xe = x[c2];
        let xo = x[c2 + 1];
        // the two new terms
        assert(dft_partial(x, w, j, (c2 + 2) as nat) == dft_partial(x, w, j, (c2 + 1) as nat) + xo
            * pow(w, ((c2 + 1) * j) as nat));
        assert(dft_partial(x, w, j, (c2 + 1) as nat) == dft_partial(x, w, j, c2 as nat) + xe * pow(
            w,
            (c2 * j) as nat,
        ));
        lemma_pow_of_square(w, (c * j) as nat);
        assert(c2 * j == 2 * (c * j)) by (nonlinear_arith)
            requires
                c2 == 2 * c,
        ;
        assert((c2 + 1) * j == j + 2 * (c * j)) by (nonlinear_arith)
            requires
                c2 == 2 * c,
        ;
        lemma_pow_adds(w, j, (2 * (c * j)) as nat);
        assert(pow(w, (c2 * j) as nat) == t);
        assert(pow(w, ((c2 + 1) * j) as nat) == wj * t);
        assert(evens(x)[c as int] == xe);
        assert(odds(x)[c as int] == xo);
        assert(se + wj * so + xe * t + xo * (wj * t) == (se + xe * t) + wj * (so + xo * t))
            by (nonlinear_arith);
    }
}

/// Where `w^period` is one modulo `p`, the sum depends on `j` modulo `period`
/// only, up to congruence.
pub proof fn lemma_dft_partial_periodic(
    x: Seq<int>,
    w: int,
    j: nat,
    period: nat,
    count: nat,
    p: int,
)
    requires
        p > 1,
        pow(w, period) % p == 1,
    ensures
        congruent(dft_partial(x, w, j + period, count), dft_partial(x, w, j, count), p),
    decreases count,
{
    if count > 0 {
        let c = (count - 1) as nat;
        lemma_dft_partial_periodic(x, w, j, period, c, p);
        // w^(c*(j+period)) == w^(c*j) * (w^period)^c
        assert(c * (j + period) == c * j + period * c) by (nonlinear_arith);
        lemma_pow_adds(w, (c * j) as nat, (period * c) as nat);
        lemma_pow_multiplies(w, period, c);
        lemma_small_mod(1, p as nat);
        lemma_congruent_pow(pow(w, period), 1, c, p);
        lemma1_pow(c);
        let a = pow(w, (c * j) as nat);
        let b = pow(w, (period * c) as nat);
        lemma_congruent_mul(a, a, b, 1, p);
        assert(a * 1 == a);
        lemma_congruent_mul(x[c as int], x[c as int], a * b, a, p);
        lemma_congruent_add(
            dft_partial(x, w, j + period, c),
            dft_partial(x, w, j, c),
            x[c as int] * (a * b),
            x[c as int] * a,
            p,
        );
    }
}

/// With a principal root the radix-two recursion computes the discrete
/// transform.
pub proof fn lemma_radix2_is_dft(x: Seq<int>, w: int, log_n: nat, p: int)
    requires
        p > 1,
        x.len() == pow2(log_n),
        is_canonical(x, p),
        is_principal_root(w, log_n, p),
    ensures
        radix2(x, w, p) == dft(x, w, p),
    decreases log_n,
{
    lemma2_to64();
    let n = x.len();
    if log_n == 0 {
        assert(n == 1);
        assert(dft_partial(x, w, 0, 1) == dft_partial(x, w, 0, 0) + x[0] * pow(w, (0 * 0) as nat));
        lemma_pow0(w);
        lemma_small_mod(x[0] as nat, p as nat);
        assert(x[0] * 1 == x[0]);
        assert(radix2(x, w, p) =~= dft(x, w, p));
    } else {
        let k = (log_n - 1) as nat;
        let half = pow2(k);
        lemma_pow2_unfold(log_n);
        lemma_pow2_pos(k);
        let xe = evens(x);
        let xo = odds(x);
        let ww = w * w;
        let wh = pow(w, half);
        // minus one squared is one
        lemma_pow_adds(w, half, half);
        lemma_mod_add_multiples_vanish(-1, p);
        lemma_small_mod((p - 1) as nat, p as nat);
        assert(congruent(wh, -1, p));
        lemma_congruent_mul(wh, -1, wh, -1, p);
        assert((-1) * (-1) == 1) by (nonlinear_arith);
        lemma_small_mod(1, p as nat);
        assert(pow(w, n) % p == 1);
        lemma_pow_of_square(w, half);
        assert(pow(ww, half) % p == 1);
        if k >= 1 {
            let quarter = pow2((k - 1) as nat);
            lemma_pow2_unfold(k);
            lemma_pow_of_square(w, quarter);
        }
        assert(is_principal_root(ww, k, p));
        lemma_radix2_is_dft(xe, ww, k, p);
        lemma_radix2_is_dft(xo, ww, k, p);
        let e = radix2(xe, ww, p);
        let o = radix2(xo, ww, p);
        let r = radix2(x, w, p);
        let d = dft(x, w, p);
        assert forall|j: int| 0 <= j < n implies r[j] == d[j] by {
            let lo = if j < half {
                j
            } else {
                j - half
            };
            let se = dft_partial(xe, ww, lo as nat, half);
            let so = dft_partial(xo, ww, lo as nat, half);
            let wl = pow(w, lo as nat);
            assert(e[lo] == se % p);
            assert(o[lo] == so % p);
            lemma_congruent_reduce(se, p);
            lemma_congruent_reduce(so, p);
            lemma_congruent_mul(wl, wl, o[lo], so, p);
            lemma_dft_partial_split(x, w, j as nat, half);
            if j < half {
                lemma_congruent_add(e[lo], se, wl * o[lo], wl * so, p);
            } else {
                lemma_congruent_sub(e[lo], se, wl * o[lo], wl * so, p);
                lemma_dft_partial_periodic(xe, ww, lo as nat, half, half, p);
                lemma_dft_partial_periodic(xo, ww, lo as nat, half, half, p);
                let se2 = dft_partial(xe, ww, j as nat, half);
                let so2 = dft_partial(xo, ww, j as nat, half);
                lemma_pow_adds(w, lo as nat, half);
                lemma_congruent_mul(wl, wl, wh, -1, p);
                assert(wl * (-1) == -wl) by (nonlinear_arith);
                lemma_congruent_mul(pow(w, j as nat), -wl, so2, so, p);
                lemma_congruent_add(se2, se, pow(w, j as nat) * so2, (-wl) * so, p);
                assert(se + (-wl) * so == se - wl * so) by (nonlinear_arith);
            }
        }
        lemma_radix2_len(x, w, p);
        assert(r =~= d);
    }
}

} // verus!
