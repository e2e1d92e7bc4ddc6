use vstd::arithmetic::div_mod::*;
use vstd::arithmetic::mul::*;
use vstd::arithmetic::power2::*;
use vstd::prelude::*;

verus! {

/// The largest `k` with `2^k <= num`; zero for `num` below two.
pub open spec fn floor_log2(num: nat) -> nat
    decreases num,
{
    if num <= 1 {
        0
    } else {
        1 + floor_log2(num / 2)
    }
}

/// `floor_log2(num)` is the exponent of the greatest power of two that does
/// not exceed `num`.
pub proof fn lemma_floor_log2_bounds(num: nat)
    requires
        num > 0,
    ensures
        pow2(floor_log2(num)) <= num < 2 * pow2(floor_log2(num)),
    decreases num,
{
    if num <= 1 {
        lemma2_to64();
    } else {
        lemma_floor_log2_bounds(num / 2);
        lemma_pow2_unfold(floor_log2(num));
    }
}

/// An exponent whose power of two does not exceed `bound < 2^top` is below `top`.
pub proof fn lemma_pow2_exponent_below(e: nat, top: nat)
    requires
        pow2(e) < pow2(top),
    ensures
        e < top,
{
    if e > top {
        lemma_pow2_strictly_increases(top, e);
    }
}

/// Rounds `num` down to a power of two and returns its exponent.
pub fn log2_floor(num: usize) -> (pow: u32)
    requires
        num > 0,
    ensures
        pow as nat == floor_log2(num as nat),
        pow2(pow as nat) <= num < 2 * pow2(pow as nat),
        pow < 64,
{
    let mut pow: u32 = 0;
    let mut rest: usize = num;
    proof {
        lemma2_to64();
    }
    while rest > 1
        invariant
            rest > 0,
            floor_log2(num as nat) == pow + floor_log2(rest as nat),
            pow2(pow as nat) * rest <= num,
            pow < 64,
        decreases rest,
    {
        proof {
            let p = pow2(pow as nat) as int;
            lemma_pow2_unfold((pow + 1) as nat);
            assert((2 * p) * (rest as int / 2) <= p * rest as int) by (nonlinear_arith)
                requires
                    p >= 0,
                    rest >= 0,
            ;
            assert(p * 2 <= p * rest as int) by (nonlinear_arith)
                requires
                    p >= 0,
                    rest >= 2,
            ;
            lemma2_to64_rest();
            lemma_pow2_exponent_below((pow + 1) as nat, 64);
        }
        rest = rest / 2;
        pow = pow + 1;
    }
    proof {
        lemma_floor_log2_bounds(num as nat);
        lemma2_to64_rest();
        lemma_pow2_exponent_below(pow as nat, 64);
    }
    pow
}

/// The number whose `bits`-bit binary notation is that of `k` read backwards.
/// The lowest bit of `k` becomes the highest of the result.
pub open spec fn bit_reverse(k: nat, bits: nat) -> nat
    decreases bits,
{
    if bits == 0 {
        0
    } else {
        (k % 2) * pow2((bits - 1) as nat) + bit_reverse(k / 2, (bits - 1) as nat)
    }
}

/// A reversed index has `bits` bits.
pub proof fn lemma_bit_reverse_bound(k: nat, bits: nat)
    ensures
        bit_reverse(k, bits) < pow2(bits),
    decreases bits,
{
    if bits == 0 {
        lemma2_to64();
    } else {
        lemma_bit_reverse_bound(k / 2, (bits - 1) as nat);
        lemma_pow2_unfold(bits);
        let h = pow2((bits - 1) as nat) as int;
        assert((k % 2) * h <= h) by (nonlinear_arith)
            requires
                0 <= k % 2 <= 1,
                h >= 0,
        ;
    }
}

/// Taking an even number of low bits apart: the lowest bit and the rest.
proof fn lemma_split_low_bit(k: nat, m: nat)
    requires
        m > 0,
    ensures
        (k % (2 * m)) % 2 == k % 2,
        (k % (2 * m)) / 2 == (k / 2) % m,
        (k / 2) / m == k / (2 * m),
{
    lemma_mod_breakdown(k as int, 2, m as int);
    lemma_div_denominator(k as int, 2, m as int);
    let q = ((k / 2) % m) as int;
    let r = (k % 2) as int;
    assert(k % (2 * m) == 2 * q + r);
    assert((2 * q + r) / 2 == q && (2 * q + r) % 2 == r) by {
        lemma_fundamental_div_mod_converse(2 * q + r, 2, q, r);
    }
}

/// Reversing one more low bit of `k` doubles the reversed number and appends
/// the new bit.
pub proof fn lemma_bit_reverse_push(k: nat, bits: nat)
    ensures
        bit_reverse(k % pow2(bits + 1), bits + 1) == 2 * bit_reverse(k % pow2(bits), bits) + (k
            / pow2(bits)) % 2,
    decreases bits,
{
    lemma2_to64();
    if bits == 0 {
        assert(bit_reverse((k % 2) / 2, 0) == 0);
        assert(bit_reverse(k % 2, 1) == ((k % 2) % 2) * pow2(0) + bit_reverse((k % 2) / 2, 0));
    } else {
        let m = pow2(bits);
        let h = pow2((bits - 1) as nat);
        lemma_pow2_pos(bits);
        lemma_pow2_pos((bits - 1) as nat);
        lemma_pow2_unfold(bits + 1);
        lemma_pow2_unfold(bits);
        lemma_split_low_bit(k, m);
        lemma_split_low_bit(k, h);
        lemma_bit_reverse_push(k / 2, (bits - 1) as nat);
        let low = k % pow2(bits + 1);
        assert(bit_reverse(low, bits + 1) == (low % 2) * m + bit_reverse(low / 2, bits));
        let mid = k % m;
        assert(bit_reverse(mid, bits) == (mid % 2) * h + bit_reverse(mid / 2, (bits - 1) as nat));
        assert((k % 2) * m == 2 * ((k % 2) * h)) by (nonlinear_arith)
            requires
                m == 2 * h,
        ;
    }
}

/// Reversing the bits of an index twice gives the index back.
pub proof fn lemma_bit_reverse_involution(k: nat, bits: nat)
    requires
        k < pow2(bits),
    ensures
        bit_reverse(bit_reverse(k, bits), bits) == k,
    decreases bits,
{
    if bits > 0 {
        let h = pow2((bits - 1) as nat);
        let r = bit_reverse(k / 2, (bits - 1) as nat);
        let y = bit_reverse(k, bits);
        lemma_pow2_unfold(bits);
        lemma_pow2_pos((bits - 1) as nat);
        lemma_bit_reverse_bound(k / 2, (bits - 1) as nat);
        lemma_bit_reverse_bound(k, bits);
        lemma_bit_reverse_involution(k / 2, (bits - 1) as nat);
        lemma_bit_reverse_push(y, (bits - 1) as nat);
        lemma_small_mod(y, pow2(bits));
        assert(y == h * (k % 2) + r) by {
            lemma_mul_is_commutative(h as int, (k % 2) as int);
        }
        lemma_fundamental_div_mod_converse(y as int, h as int, (k % 2) as int, r as int);
        assert(y % h == r && y / h == k % 2);
        assert(bit_reverse(y % pow2(bits), bits) == 2 * bit_reverse(y % h, (bits - 1) as nat) + (y
            / h) % 2);
        assert(bit_reverse(r, (bits - 1) as nat) == k / 2);
    } else {
        lemma2_to64();
    }
}

/// Reverses the lowest `l` bits of `n`.
pub fn bitreverse(n: u32, l: u32) -> (r: u32)
    requires
        l <= 32,
    ensures
        r as nat == bit_reverse(n as nat % pow2(l as nat), l as nat),
{
    let mut r: u32 = 0;
    let mut rest: u32 = n;
    let mut i: u32 = 0;
    proof {
        lemma2_to64();
    }
    while i < l
        invariant
            i <= l <= 32,
            r as nat == bit_reverse(n as nat % pow2(i as nat), i as nat),
            rest as nat == n as nat / pow2(i as nat),
        decreases l - i,
    {
        proof {
            lemma_bit_reverse_bound(n as nat % pow2(i as nat), i as nat);
            lemma_pow2_pos(i as nat);
            if i < 31 {
                lemma_pow2_strictly_increases(i as nat, 31);
            }
            lemma2_to64();
            assert(r < 0x8000_0000u32);
            assert(((r << 1) | (rest & 1)) == r * 2 + rest % 2) by (bit_vector)
                requires
                    r < 0x8000_0000u32,
            ;
            assert(rest >> 1 == rest / 2) by (bit_vector);
            lemma_bit_reverse_push(n as nat, i as nat);
            lemma_div_denominator(n as int, pow2(i as nat) as int, 2);
            lemma_pow2_unfold((i + 1) as nat);
            lemma_mul_is_commutative(pow2(i as nat) as int, 2);
        }
        r = (r << 1) | (rest & 1);
        rest = rest >> 1;
        i = i + 1;
    }
    r
}

/// The sequence whose entry `k` is the entry of `s` at the bit-reversed index.
pub open spec fn bit_reversed<T>(s: Seq<T>, bits: nat) -> Seq<T> {
    Seq::new(s.len(), |k: int| s[bit_reverse(k as nat, bits) as int])
}

/// Applying the bit-reversal permutation twice restores the order.
pub proof fn lemma_bit_reversed_twice<T>(s: Seq<T>, bits: nat)
    requires
        s.len() == pow2(bits),
    ensures
        bit_reversed(bit_reversed(s, bits), bits) == s,
{
    let once = bit_reversed(s, bits);
    let twice = bit_reversed(once, bits);
    assert forall|k: int| 0 <= k < s.len() implies twice[k] == s[k] by {
        lemma_bit_reverse_bound(k as nat, bits);
        lemma_bit_reverse_involution(k as nat, bits);
    }
    assert(twice =~= s);
}

/// Permutes the buffer in place so that the entry at each index moves to the
/// bit-reversed index.
pub fn bit_reverse_permute<T: Copy>(a: &mut [T], log_n: u32)
    requires
        log_n < 32,
        old(a).len() == pow2(log_n as nat),
    ensures
        final(a)@ == bit_reversed(old(a)@, log_n as nat),
{
    let ghost orig = a@;
    let ghost bits = log_n as nat;
    proof {
        lemma2_to64();
        lemma_pow2_strictly_increases(bits, 32);
    }
    let n: u32 = a.len() as u32;
    let mut k: u32 = 0;
    while k < n
        invariant
            k <= n,
            n as nat == pow2(bits),
            bits == log_n as nat,
            log_n < 32,
            a@.len() == n,
            orig.len() == n,
            forall|i: int|
                0 <= i < n ==> #[trigger] a@[i] == if i < k || bit_reverse(i as nat, bits) < k {
                    orig[bit_reverse(i as nat, bits) as int]
                } else {
                    orig[i]
                },
        decreases n - k,
    {
        let rk: u32 = bitreverse(k, log_n);
        proof {
            lemma_small_mod(k as nat, pow2(bits));
            lemma_bit_reverse_bound(k as nat, bits);
            lemma_bit_reverse_involution(k as nat, bits);
        }
        let ghost before = a@;
        if k < rk {
            let lo: T = a[k as usize];
            let hi: T = a[rk as usize];
            a[k as usize] = hi;
            a[rk as usize] = lo;
        }
        proof {
            assert forall|i: int| 0 <= i < n implies #[trigger] a@[i] == if i < k + 1
                || bit_reverse(i as nat, bits) < k + 1 {
                orig[bit_reverse(i as nat, bits) as int]
            } else {
                orig[i]
            } by {
                lemma_bit_reverse_bound(i as nat, bits);
                lemma_bit_reverse_involution(i as nat, bits);
                assert(before[i] == if i < k || bit_reverse(i as nat, bits) < k {
                    orig[bit_reverse(i as nat, bits) as int]
                } else {
                    orig[i]
                });
                assert(before[k as int] == if (k as int) < k || bit_reverse(k as nat, bits) < k {
                    orig[bit_reverse(k as nat, bits) as int]
                } else {
                    orig[k as int]
                });
                assert(before[rk as int] == if (rk as int) < k || bit_reverse(rk as nat, bits)
                    < k {
                    orig[bit_reverse(rk as nat, bits) as int]
                } else {
                    orig[rk as int]
                });
            }
        }
        k = k + 1;
    }
    proof {
        assert(a@ =~= bit_reversed(orig, bits));
    }
}

} // verus!
