use crate::modular::{congruent, lemma_congruent_add};
use vstd::prelude::*;

verus! {

/// The sum of `f(0), ..., f(n - 1)`.
pub open spec fn sum(f: spec_fn(int) -> int, n: nat) -> int
    decreases n,
{
    if n == 0 {
        0
    } else {
        sum(f, (n - 1) as nat) + f(n - 1)
    }
}

/// Sums of termwise equal functions are equal.
pub proof fn lemma_sum_equal(f: spec_fn(int) -> int, g: spec_fn(int) -> int, n: nat)
    requires
        forall|i: int| 0 <= i < n ==> #[trigger] f(i) == g(i),
    ensures
        sum(f, n) == sum(g, n),
    decreases n,
{
    if n > 0 {
        lemma_sum_equal(f, g, (n - 1) as nat);
    }
}

/// Sums of termwise congruent functions are congruent.
pub proof fn lemma_sum_congruent(f: spec_fn(int) -> int, g: spec_fn(int) -> int, n: nat, p: int)
    requires
        p > 0,
        forall|i: int| 0 <= i < n ==> congruent(#[trigger] f(i), g(i), p),
    ensures
        congruent(sum(f, n), sum(g, n), p),
    decreases n,
{
    if n > 0 {
        lemma_sum_congruent(f, g, (n - 1) as nat, p);
        lemma_congruent_add(sum(f, (n - 1) as nat), sum(g, (n - 1) as nat), f(n - 1), g(n - 1), p);
    }
}

/// A sum of zeros is zero.
pub proof fn lemma_sum_zero(f: spec_fn(int) -> int, n: nat)
    requires
        forall|i: int| 0 <= i < n ==> #[trigger] f(i) == 0,
    ensures
        sum(f, n) == 0,
    decreases n,
{
    if n > 0 {
        lemma_sum_zero(f, (n - 1) as nat);
    }
}

/// A constant factor moves out of a sum.
pub proof fn lemma_sum_scale(f: spec_fn(int) -> int, c: int, n: nat)
    ensures
        sum(|i: int| c * f(i), n) == c * sum(f, n),
    decreases n,
{
    if n > 0 {
        lemma_sum_scale(f, c, (n - 1) as nat);
        let a = sum(f, (n - 1) as nat);
        let b = f(n - 1);
        assert(c * a + c * b == c * (a + b)) by (nonlinear_arith);
    } else {
        assert(c * 0 == 0);
    }
}

/// The sum of termwise sums is the sum of the sums.
pub proof fn lemma_sum_add(f: spec_fn(int) -> int, g: spec_fn(int) -> int, n: nat)
    ensures
        sum(|i: int| f(i) + g(i), n) == sum(f, n) + sum(g, n),
    decreases n,
{
    if n > 0 {
        lemma_sum_add(f, g, (n - 1) as nat);
    }
}

/// A sum over `a + b` terms is the sum of the first `a` and of the `b` after them.
pub proof fn lemma_sum_append(f: spec_fn(int) -> int, a: nat, b: nat)
    ensures
        sum(f, a + b) == sum(f, a) + sum(|c: int| f(a + c), b),
    decreases b,
{
    if b > 0 {
        lemma_sum_append(f, a, (b - 1) as nat);
        assert(sum(f, a + b) == sum(f, (a + b - 1) as nat) + f(a + b - 1));
    }
}

/// A sum over `rows * cols` terms, taken row by row.
pub proof fn lemma_sum_chunks(f: spec_fn(int) -> int, rows: nat, cols: nat)
    ensures
        sum(f, rows * cols) == sum(|r: int| sum(|c: int| f(r * cols + c), cols), rows),
    decreases rows,
{
    if rows > 0 {
        let r0 = (rows - 1) as nat;
        lemma_sum_chunks(f, r0, cols);
        lemma_sum_append(f, r0 * cols, cols);
        assert(r0 * cols + cols == rows * cols) by (nonlinear_arith)
            requires
                r0 + 1 == rows,
        ;
        assert((r0 * cols) as int == (r0 as int) * (cols as int)) by (nonlinear_arith);
        lemma_sum_equal(|c: int| f(r0 * cols + c), |c: int| f((r0 as int) * cols + c), cols);
    } else {
        assert(rows * cols == 0) by (nonlinear_arith)
            requires
                rows == 0,
        ;
    }
}

/// A double sum may be taken in either order.
pub proof fn lemma_sum_swap(g: spec_fn(int, int) -> int, rows: nat, cols: nat)
    ensures
        sum(|r: int| sum(|c: int| g(r, c), cols), rows) == sum(
            |c: int| sum(|r: int| g(r, c), rows),
            cols,
        ),
    decreases rows,
{
    if rows == 0 {
        lemma_sum_zero(|c: int| sum(|r: int| g(r, c), 0), cols);
    } else {
        let r0 = (rows - 1) as nat;
        lemma_sum_swap(g, r0, cols);
        let upper = |c: int| sum(|r: int| g(r, c), r0);
        let last = |c: int| g(r0 as int, c);
        lemma_sum_add(upper, last, cols);
        lemma_sum_equal(
            |c: int| sum(|r: int| g(r, c), rows),
            |c: int| upper(c) + last(c),
            cols,
        );
        lemma_sum_equal(|c: int| g(rows - 1, c), last, cols);
    }
}

/// A sum of `n` equal terms.
pub proof fn lemma_sum_constant(c: int, n: nat)
    ensures
        sum(|i: int| c, n) == c * n,
    decreases n,
{
    if n > 0 {
        lemma_sum_constant(c, (n - 1) as nat);
        assert(c * (n - 1) + c == c * n) by (nonlinear_arith);
    } else {
        assert(c * 0 == 0);
    }
}

/// A sum with at most one term that is not zero is that term.
pub proof fn lemma_sum_single(f: spec_fn(int) -> int, n: nat, k: int)
    requires
        0 <= k < n,
        forall|i: int| 0 <= i < n && i != k ==> #[trigger] f(i) == 0,
    ensures
        sum(f, n) == f(k),
    decreases n,
{
    if n - 1 == k {
        lemma_sum_zero(f, (n - 1) as nat);
    } else {
        lemma_sum_single(f, (n - 1) as nat, k);
    }
}

} // verus!
