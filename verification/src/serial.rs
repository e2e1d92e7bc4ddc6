use crate::bits::{bit_reverse, bit_reverse_permute, bit_reversed, lemma_bit_reverse_bound};
use crate::field::{all_wf, values, FieldElement};
use crate::modular::{
    congruent, is_canonical, is_prime, is_principal_root, is_root_of_unity, lemma_congruent_add,
    lemma_congruent_mul, lemma_congruent_reduce, lemma_congruent_sub,
    lemma_root_of_unity_is_principal,
};
use crate::transform::{dft, evens, lemma_radix2_is_dft, lemma_radix2_len, odds, radix2};
use vstd::arithmetic::div_mod::*;
use vstd::arithmetic::mul::*;
use vstd::arithmetic::power::*;
use vstd::arithmetic::power2::*;
use vstd::prelude::*;

verus! {

/// The `count` entries of `x` from `start` on, `stride` apart.
pub open spec fn strided(x: Seq<int>, start: int, stride: int, count: nat) -> Seq<int> {
    Seq::new(count, |i: int| x[start + i * stride])
}

/// One pass of butterflies over consecutive blocks of `2 * m` entries: in
/// each block, entry `j` of the lower half is combined with entry `j` of the
/// upper half, which is first multiplied by `wm^j`.
pub open spec fn butterfly_pass(prev: Seq<int>, wm: int, m: int, p: int) -> Seq<int> {
    Seq::new(
        prev.len(),
        |idx: int|
            {
                let j = idx % (2 * m);
                if j < m {
                    (prev[idx] + pow(wm, j as nat) * prev[idx + m]) % p
                } else {
                    (prev[idx - m] - pow(wm, (j - m) as nat) * prev[idx]) % p
                }
            },
    )
}

/// The transform that block `b` holds once the blocks have grown to `2^s`
/// entries: that of the input entries whose index ends in the reversed bits
/// of `b`, with the matching power of `w` as its root.
pub open spec fn block_transform(x: Seq<int>, w: int, p: int, log_n: nat, s: nat, b: nat) -> Seq<
    int,
> {
    radix2(
        strided(
            x,
            bit_reverse(b, (log_n - s) as nat) as int,
            pow2((log_n - s) as nat) as int,
            pow2(s),
        ),
        pow(w, pow2((log_n - s) as nat)),
        p,
    )
}

/// The buffer `cur` is made of the block transforms of size `2^s` of `x`.
pub open spec fn at_level(cur: Seq<int>, x: Seq<int>, w: int, p: int, log_n: nat, s: nat) -> bool {
    &&& cur.len() == x.len()
    &&& forall|idx: int|
        0 <= idx < cur.len() ==> #[trigger] cur[idx] == block_transform(
            x,
            w,
            p,
            log_n,
            s,
            (idx / pow2(s) as int) as nat,
        )[idx % pow2(s) as int]
}

/// After the bit-reversal permutation every entry is a block of size one.
proof fn lemma_level_zero(x: Seq<int>, w: int, p: int, log_n: nat)
    requires
        x.len() == pow2(log_n),
    ensures
        at_level(bit_reversed(x, log_n), x, w, p, log_n, 0),
{
    lemma2_to64();
    let cur = bit_reversed(x, log_n);
    assert forall|idx: int| 0 <= idx < cur.len() implies #[trigger] cur[idx] == block_transform(
        x,
        w,
        p,
        log_n,
        0,
        (idx / pow2(0) as int) as nat,
    )[idx % pow2(0) as int] by {
        let start = bit_reverse(idx as nat, log_n) as int;
        let block = strided(x, start, pow2(log_n) as int, 1);
        assert(block.len() == 1);
        assert(radix2(block, pow(w, pow2(log_n)), p) == block);
        assert(block[0] == x[start + 0 * pow2(log_n) as int]);
        assert(0 * pow2(log_n) as int == 0);
    }
}

/// A butterfly pass doubles the size of the block transforms.
proof fn lemma_level_step(prev: Seq<int>, x: Seq<int>, w: int, p: int, log_n: nat, s: nat)
    requires
        s < log_n,
        x.len() == pow2(log_n),
        at_level(prev, x, w, p, log_n, s),
    ensures
        at_level(
            butterfly_pass(prev, pow(w, pow2((log_n - s - 1) as nat)), pow2(s) as int, p),
            x,
            w,
            p,
            log_n,
            s + 1,
        ),
{
    let l = (log_n - s - 1) as nat;
    let m = pow2(s) as int;
    let big = pow2(s + 1) as int;
    let stride = pow2(l) as int;
    let wm = pow(w, pow2(l));
    let next = butterfly_pass(prev, wm, m, p);
    lemma_pow2_unfold(s + 1);
    lemma_pow2_unfold(l + 1);
    lemma_pow2_pos(s);
    lemma_pow2_pos(l);
    lemma_pow2_adds(s + 1, l);
    assert(x.len() == big * stride);
    lemma_pow_adds(w, pow2(l), pow2(l));
    let ww = pow(w, pow2(l + 1));
    assert(wm * wm == ww);
    assert forall|idx: int| 0 <= idx < next.len() implies #[trigger] next[idx] == block_transform(
        x,
        w,
        p,
        log_n,
        s + 1,
        (idx / pow2(s + 1) as int) as nat,
    )[idx % pow2(s + 1) as int] by {
        let b = idx / big;
        let j = idx % big;
        lemma_fundamental_div_mod(idx, big);
        lemma_mod_bound(idx, big);
        assert(0 <= b < stride) by (nonlinear_arith)
            requires
                idx == big * b + j,
                0 <= j < big,
                0 <= idx < big * stride,
        ;
        let rb = bit_reverse(b as nat, l) as int;
        lemma_bit_reverse_bound(b as nat, l);
        let xb = strided(x, rb, stride, big as nat);
        let xe = strided(x, bit_reverse((2 * b) as nat, l + 1) as int, 2 * stride, m as nat);
        let xo = strided(x, bit_reverse((2 * b + 1) as nat, l + 1) as int, 2 * stride, m as nat);
        assert(bit_reverse((2 * b) as nat, l + 1) == rb) by {
            assert(((2 * b) as nat) % 2 == 0);
            assert(((2 * b) as nat) / 2 == b);
            assert(0 * pow2(l) == 0);
        }
        assert(bit_reverse((2 * b + 1) as nat, l + 1) == stride + rb) by {
            assert(((2 * b + 1) as nat) % 2 == 1);
            assert(((2 * b + 1) as nat) / 2 == b);
            assert(1 * pow2(l) == pow2(l));
        }
        assert(evens(xb) =~= xe) by {
            assert forall|i: int| 0 <= i < m implies evens(xb)[i] == xe[i] by {
                assert((2 * i) * stride == i * (2 * stride)) by (nonlinear_arith);
            }
        }
        assert(odds(xb) =~= xo) by {
            assert forall|i: int| 0 <= i < m implies odds(xb)[i] == xo[i] by {
                assert((2 * i + 1) * stride == stride + i * (2 * stride)) by (nonlinear_arith);
            }
        }
        let e = radix2(xe, ww, p);
        let o = radix2(xo, ww, p);
        let lo = if j < m {
            j
        } else {
            j - m
        };
        let idx_lo = big * b + lo;
        let idx_hi = idx_lo + m;
        assert(idx_lo == m * (2 * b) + lo && idx_hi == m * (2 * b + 1) + lo) by (nonlinear_arith)
            requires
                big == 2 * m,
                idx_lo == big * b + lo,
                idx_hi == idx_lo + m,
        ;
        lemma_fundamental_div_mod_converse(idx_lo, m, 2 * b, lo);
        lemma_fundamental_div_mod_converse(idx_hi, m, 2 * b + 1, lo);
        assert(0 <= idx_lo && idx_hi < prev.len()) by (nonlinear_arith)
            requires
                idx_hi == m * (2 * b + 1) + lo,
                idx_lo == m * (2 * b) + lo,
                0 <= lo < m,
                0 <= b < stride,
                prev.len() == (2 * m) * stride,
        ;
        assert((log_n - s) as nat == l + 1);
        assert(prev[idx_lo] == block_transform(x, w, p, log_n, s, (2 * b) as nat)[lo]);
        assert(prev[idx_hi] == block_transform(x, w, p, log_n, s, (2 * b + 1) as nat)[lo]);
        assert(prev[idx_lo] == e[lo]);
        assert(prev[idx_hi] == o[lo]);
        assert((log_n - (s + 1)) as nat == l);
        assert(block_transform(x, w, p, log_n, s + 1, b as nat) == radix2(xb, wm, p));
        assert(xb.len() == big);
        assert(xb.len() / 2 == m);
        assert(idx % (2 * m) == j);
    }
}

/// Blocks as large as the buffer hold the transform of the whole input.
proof fn lemma_level_top(cur: Seq<int>, x: Seq<int>, w: int, p: int, log_n: nat)
    requires
        x.len() == pow2(log_n),
        at_level(cur, x, w, p, log_n, log_n),
    ensures
        cur == radix2(x, w, p),
{
    lemma2_to64();
    lemma_pow1(w);
    lemma_pow2_pos(log_n);
    let n = pow2(log_n) as int;
    let whole = strided(x, 0, 1, pow2(log_n));
    assert(whole =~= x);
    lemma_radix2_len(x, w, p);
    assert forall|idx: int| 0 <= idx < cur.len() implies cur[idx] == radix2(x, w, p)[idx] by {
        lemma_small_mod(idx as nat, n as nat);
        lemma_basic_div(idx, n);
        assert(cur[idx] == block_transform(x, w, p, log_n, log_n, (idx / n) as nat)[idx % n]);
        assert((log_n - log_n) as nat == 0);
    }
    assert(cur =~= radix2(x, w, p));
}

/// The values that one butterfly writes, given the twiddle factor as the
/// engine holds it.
proof fn lemma_butterfly(lo: int, hi: int, t: int, tw: int, wm_red: int, wm: int, j: nat, p: int)
    requires
        p > 1,
        wm_red == wm % p,
        tw == pow(wm_red, j) % p,
        t == (hi * tw) % p,
    ensures
        (lo + t) % p == (lo + pow(wm, j) * hi) % p,
        (lo - t) % p == (lo - pow(wm, j) * hi) % p,
        (tw * wm_red) % p == pow(wm_red, j + 1) % p,
{
    lemma_pow_mod_noop(wm, j, p);
    lemma_congruent_reduce(pow(wm_red, j), p);
    assert(congruent(tw, pow(wm, j), p));
    lemma_congruent_mul(hi, hi, tw, pow(wm, j), p);
    lemma_congruent_reduce(hi * tw, p);
    lemma_mul_is_commutative(hi, pow(wm, j));
    assert(congruent(t, pow(wm, j) * hi, p));
    lemma_congruent_add(lo, lo, t, pow(wm, j) * hi, p);
    lemma_congruent_sub(lo, lo, t, pow(wm, j) * hi, p);
    lemma_congruent_mul(tw, pow(wm_red, j), wm_red, wm_red, p);
    lemma_pow_adds(wm_red, j, 1);
    lemma_pow1(wm_red);
}

/// The in-place radix-two transform on one thread.
///
/// The buffer is first brought into bit-reversed order; then `log_n` passes
/// of butterflies follow, each doubling the size of the transformed blocks.
/// For every `omega` the outcome is the radix-two recursion on the input; for
/// a principal root of unity that is the discrete transform, in natural order
/// and not scaled.
pub fn serial_fft<F: FieldElement>(a: &mut [F], omega: &F, log_n: u32)
    requires
        log_n < 32,
        old(a).len() == pow2(log_n as nat),
        all_wf(old(a)@),
        omega.wf(),
    ensures
        final(a)@.len() == old(a)@.len(),
        all_wf(final(a)@),
        values(final(a)@) == radix2(values(old(a)@), omega.value(), F::modulus()),
        is_principal_root(omega.value(), log_n as nat, F::modulus()) ==> values(final(a)@) == dft(
            values(old(a)@),
            omega.value(),
            F::modulus(),
        ),
        is_prime(F::modulus()) && is_root_of_unity(
            omega.value(),
            pow2(log_n as nat),
            F::modulus(),
        ) ==> values(final(a)@) == dft(values(old(a)@), omega.value(), F::modulus()),
{
    let ghost input = values(a@);
    let ghost p = F::modulus();
    let ghost w = omega.value();
    let ghost bits = log_n as nat;
    proof {
        F::lemma_modulus();
        lemma2_to64();
        lemma_pow2_strictly_increases(bits, 32);
    }
    let n: u32 = a.len() as u32;
    let ghost before = a@;
    bit_reverse_permute(a, log_n);
    proof {
        assert(values(a@) =~= bit_reversed(input, bits)) by {
            assert forall|i: int| 0 <= i < n implies values(a@)[i] == bit_reversed(input, bits)[i] by {
                lemma_bit_reverse_bound(i as nat, bits);
            }
        }
        assert(all_wf(a@)) by {
            assert forall|i: int| 0 <= i < n implies (#[trigger] a@[i]).wf() by {
                lemma_bit_reverse_bound(i as nat, bits);
                assert(before[bit_reverse(i as nat, bits) as int].wf());
            }
        }
        lemma_level_zero(input, w, p, bits);
    }
    let mut m: u32 = 1;
    let mut s: u32 = 0;
    while s < log_n
        invariant
            s <= log_n < 32,
            bits == log_n as nat,
            m as nat == pow2(s as nat),
            n as nat == pow2(bits),
            a@.len() == n,
            input.len() == n,
            all_wf(a@),
            omega.wf(),
            w == omega.value(),
            p == F::modulus(),
            p > 1,
            at_level(values(a@), input, w, p, bits, s as nat),
        decreases log_n - s,
    {
        let ghost prev = values(a@);
        let ghost l = (bits - s - 1) as nat;
        let ghost wm = pow(w, pow2(l));
        let ghost blocks = pow2(l) as int;
        proof {
            lemma_pow2_unfold((s + 1) as nat);
            lemma_pow2_adds((s + 1) as nat, l);
            lemma_pow2_pos(l);
            lemma_pow2_pos(s as nat);
            lemma_div_multiples_vanish(blocks, 2 * m as int);
            assert(n as int == (2 * m) * blocks);
            assert(2 * m <= n) by (nonlinear_arith)
                requires
                    n as int == (2 * m) * blocks,
                    blocks >= 1,
                    m >= 0,
            ;
        }
        let w_m: F = omega.pow((n / (2 * m)) as u64);
        let ghost wm_red = w_m.value();
        let mut k: u32 = 0;
        let ghost mut blk: int = 0;
        while k < n
            invariant
                k <= n,
                k as int == (2 * m) * blk,
                0 <= blk <= blocks,
                n as int == (2 * m) * blocks,
                m >= 1,
                2 * m <= n,
                n < 0x1_0000_0000,
                a@.len() == n,
                prev.len() == n,
                all_wf(a@),
                w_m.wf(),
                wm_red == w_m.value(),
                wm_red == wm % p,
                p == F::modulus(),
                p > 1,
                forall|idx: int|
                    0 <= idx < n ==> (#[trigger] a@[idx]).value() == if idx < k {
                        butterfly_pass(prev, wm, m as int, p)[idx]
                    } else {
                        prev[idx]
                    },
            decreases n - k,
        {
            proof {
                assert(blk < blocks) by (nonlinear_arith)
                    requires
                        (2 * m) * blk < (2 * m) * blocks,
                        m >= 1,
                ;
                assert(k + 2 * m <= n) by (nonlinear_arith)
                    requires
                        k as int == (2 * m) * blk,
                        n as int == (2 * m) * blocks,
                        blk + 1 <= blocks,
                        m >= 1,
                ;
                lemma_pow0(wm_red);
                lemma_small_mod(1, p as nat);
            }
            let mut tw: F = F::one();
            let mut j: u32 = 0;
            while j < m
                invariant
                    j <= m,
                    k as int == (2 * m) * blk,
                    k + 2 * m <= n,
                    m >= 1,
                    n < 0x1_0000_0000,
                    a@.len() == n,
                    prev.len() == n,
                    all_wf(a@),
                    w_m.wf(),
                    tw.wf(),
                    wm_red == w_m.value(),
                    wm_red == wm % p,
                    tw.value() == pow(wm_red, j as nat) % p,
                    p == F::modulus(),
                    p > 1,
                    forall|idx: int|
                        0 <= idx < n ==> (#[trigger] a@[idx]).value() == if idx < k || (k <= idx < k
                            + j) || (k + m <= idx < k + m + j) {
                            butterfly_pass(prev, wm, m as int, p)[idx]
                        } else {
                            prev[idx]
                        },
                decreases m - j,
            {
                let i_lo: usize = (k + j) as usize;
                let i_hi: usize = (k + j + m) as usize;
                let lo: F = a[i_lo];
                let hi: F = a[i_hi];
                proof {
                    assert(a@[i_lo as int].wf());
                    assert(a@[i_hi as int].wf());
                    assert(a@[i_lo as int].value() == prev[i_lo as int]);
                    assert(a@[i_hi as int].value() == prev[i_hi as int]);
                }
                let t: F = hi.mul(&tw);
                let diff: F = lo.sub(&t);
                let sum: F = lo.add(&t);
                let next_tw: F = tw.mul(&w_m);
                let ghost mid = a@;
                a[i_hi] = diff;
                a[i_lo] = sum;
                proof {
                    lemma_butterfly(
                        lo.value(),
                        hi.value(),
                        t.value(),
                        tw.value(),
                        wm_red,
                        wm,
                        j as nat,
                        p,
                    );
                    lemma_fundamental_div_mod_converse(i_lo as int, 2 * m as int, blk, j as int);
                    lemma_fundamental_div_mod_converse(
                        i_hi as int,
                        2 * m as int,
                        blk,
                        (j + m) as int,
                    );
                    let pass = butterfly_pass(prev, wm, m as int, p);
                    assert(pass[i_lo as int] == sum.value());
                    assert(pass[i_hi as int] == diff.value());
                    assert forall|idx: int| 0 <= idx < n implies (#[trigger] a@[idx]).value()
                        == if idx < k || (k <= idx < k + (j + 1)) || (k + m <= idx < k + m + (j
                        + 1)) {
                        pass[idx]
                    } else {
                        prev[idx]
                    } by {
                        if idx != i_lo && idx != i_hi {
                            assert(a@[idx] == mid[idx]);
                        }
                    }
                    assert forall|idx: int| 0 <= idx < n implies (#[trigger] a@[idx]).wf() by {
                        if idx != i_lo && idx != i_hi {
                            assert(a@[idx] == mid[idx]);
                        }
                    }
                }
                tw = next_tw;
                j = j + 1;
            }
            k = k + 2 * m;
            proof {
                blk = blk + 1;
                assert((2 * m) * (blk - 1) + 2 * m == (2 * m) * blk) by (nonlinear_arith);
            }
        }
        proof {
            assert(k == n);
            assert(values(a@) =~= butterfly_pass(prev, wm, m as int, p));
            lemma_level_step(prev, input, w, p, bits, s as nat);
        }
        m = m * 2;
        s = s + 1;
    }
    proof {
        lemma_level_top(values(a@), input, w, p, bits);
        if is_prime(p) && is_root_of_unity(w, pow2(bits), p) {
            lemma_root_of_unity_is_principal(w, bits, p);
        }
        if is_principal_root(w, bits, p) {
            assert(is_canonical(input, p)) by {
                assert forall|i: int| 0 <= i < input.len() implies 0 <= #[trigger] input[i] < p by {
                    assert(before[i].wf());
                    before[i].lemma_canonical();
                }
            }
            lemma_radix2_is_dft(input, w, bits, p);
        }
    }
}

} // verus!
