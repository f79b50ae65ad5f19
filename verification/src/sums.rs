//! Finite sums `sum_{lo <= x < hi} f(x)` and the rules for rearranging them.
use vstd::prelude::*;
use vstd::arithmetic::div_mod::*;
use vstd::arithmetic::mul::*;

verus! {

/// `sum_{lo <= x < hi} f(x)`.
pub open spec fn sum_range(f: spec_fn(int) -> int, lo: int, hi: int) -> int
    decreases hi - lo,
{
    if hi <= lo {
        0
    } else {
        sum_range(f, lo, hi - 1) + f(hi - 1)
    }
}

/// Sums of functions that agree on the range are equal.
pub proof fn lemma_sum_ext(f: spec_fn(int) -> int, g: spec_fn(int) -> int, lo: int, hi: int)
    requires
        forall|x: int| lo <= x < hi ==> #[trigger] f(x) == g(x),
    ensures
        sum_range(f, lo, hi) == sum_range(g, lo, hi),
    decreases hi - lo,
{
    if hi > lo {
        lemma_sum_ext(f, g, lo, hi - 1);
    }
}

/// The sum of a pointwise sum is the sum of the sums.
pub proof fn lemma_sum_add(f: spec_fn(int) -> int, g: spec_fn(int) -> int, h: spec_fn(int) -> int, lo: int, hi: int)
    requires
        forall|x: int| lo <= x < hi ==> #[trigger] h(x) == f(x) + g(x),
    ensures
        sum_range(h, lo, hi) == sum_range(f, lo, hi) + sum_range(g, lo, hi),
    decreases hi - lo,
{
    if hi > lo {
        lemma_sum_add(f, g, h, lo, hi - 1);
    }
}

/// A constant factor comes out of a sum.
pub proof fn lemma_sum_scale(f: spec_fn(int) -> int, g: spec_fn(int) -> int, c: int, lo: int, hi: int)
    requires
        forall|x: int| lo <= x < hi ==> #[trigger] g(x) == c * f(x),
    ensures
        sum_range(g, lo, hi) == c * sum_range(f, lo, hi),
    decreases hi - lo,
{
    if hi > lo {
        lemma_sum_scale(f, g, c, lo, hi - 1);
        lemma_mul_is_distributive_add(c, sum_range(f, lo, hi - 1), f(hi - 1));
    } else {
        lemma_mul_basics(c);
    }
}

/// A sum of zeros is zero.
pub proof fn lemma_sum_zero(f: spec_fn(int) -> int, lo: int, hi: int)
    requires
        forall|x: int| lo <= x < hi ==> #[trigger] f(x) == 0,
    ensures
        sum_range(f, lo, hi) == 0,
    decreases hi - lo,
{
    if hi > lo {
        lemma_sum_zero(f, lo, hi - 1);
    }
}

/// A sum splits at any point of its range.
pub proof fn lemma_sum_split(f: spec_fn(int) -> int, lo: int, mid: int, hi: int)
    requires
        lo <= mid <= hi,
    ensures
        sum_range(f, lo, hi) == sum_range(f, lo, mid) + sum_range(f, mid, hi),
    decreases hi - mid,
{
    if hi > mid {
        lemma_sum_split(f, lo, mid, hi - 1);
    }
}

/// Shifting the summation variable by `d` shifts the range by `d`.
pub proof fn lemma_sum_shift(f: spec_fn(int) -> int, g: spec_fn(int) -> int, d: int, lo: int, hi: int)
    requires
        forall|x: int| lo <= x < hi ==> #[trigger] g(x) == f(x + d),
    ensures
        sum_range(g, lo, hi) == sum_range(f, lo + d, hi + d),
    decreases hi - lo,
{
    if hi > lo {
        lemma_sum_shift(f, g, d, lo, hi - 1);
    }
}

/// Sums of terms that agree modulo `m` agree modulo `m`.
pub proof fn lemma_sum_congruent(f: spec_fn(int) -> int, g: spec_fn(int) -> int, lo: int, hi: int, m: int)
    requires
        m > 0,
        forall|x: int| lo <= x < hi ==> #[trigger] f(x) % m == g(x) % m,
    ensures
        sum_range(f, lo, hi) % m == sum_range(g, lo, hi) % m,
    decreases hi - lo,
{
    if hi > lo {
        lemma_sum_congruent(f, g, lo, hi - 1, m);
        lemma_add_mod_noop(sum_range(f, lo, hi - 1), f(hi - 1), m);
        lemma_add_mod_noop(sum_range(g, lo, hi - 1), g(hi - 1), m);
    }
}

/// A double sum over a rectangle may be taken in either order.
pub proof fn lemma_sum_swap(ff: spec_fn(int, int) -> int, nx: int, ny: int)
    requires
        nx >= 0,
        ny >= 0,
    ensures
        sum_range(|x: int| sum_range(|y: int| ff(x, y), 0, ny), 0, nx) == sum_range(
            |y: int| sum_range(|x: int| ff(x, y), 0, nx),
            0,
            ny,
        ),
    decreases nx,
{
    let inner = |x: int| sum_range(|y: int| ff(x, y), 0, ny);
    if nx > 0 {
        lemma_sum_swap(ff, nx - 1, ny);
        let prev = |y: int| sum_range(|x: int| ff(x, y), 0, nx - 1);
        let last = |y: int| ff(nx - 1, y);
        let cur = |y: int| sum_range(|x: int| ff(x, y), 0, nx);
        assert forall|y: int| 0 <= y < ny implies #[trigger] cur(y) == prev(y) + last(y) by {}
        lemma_sum_add(prev, last, cur, 0, ny);
        assert(sum_range(inner, 0, nx) == sum_range(inner, 0, nx - 1) + inner(nx - 1));
    } else {
        lemma_sum_zero(|y: int| sum_range(|x: int| ff(x, y), 0, nx), 0, ny);
    }
}

/// A sum over `[0, n)` may be taken backwards.
pub proof fn lemma_sum_reverse(f: spec_fn(int) -> int, g: spec_fn(int) -> int, n: int)
    requires
        n >= 0,
        forall|x: int| 0 <= x < n ==> #[trigger] g(x) == f(n - 1 - x),
    ensures
        sum_range(g, 0, n) == sum_range(f, 0, n),
    decreases n,
{
    if n > 0 {
        let f1 = |y: int| f(y + 1);
        assert forall|x: int| 0 <= x < n - 1 implies #[trigger] g(x) == f1(n - 1 - 1 - x) by {}
        lemma_sum_reverse(f1, g, n - 1);
        lemma_sum_shift(f, f1, 1, 0, n - 1);
        lemma_sum_split(f, 0, 1, n);
        assert(sum_range(g, 0, n) == sum_range(g, 0, n - 1) + g(n - 1));
        assert(g(n - 1) == f(0));
        assert(sum_range(f, 0, 0) == 0);
        assert(sum_range(f, 0, 1) == f(0));
    }
}

/// A sum whose terms all vanish modulo `m` vanishes modulo `m`.
pub proof fn lemma_sum_vanishes(f: spec_fn(int) -> int, lo: int, hi: int, m: int)
    requires
        m > 0,
        forall|x: int| lo <= x < hi ==> #[trigger] f(x) % m == 0,
    ensures
        sum_range(f, lo, hi) % m == 0,
{
    let z = |x: int| 0int;
    assert forall|x: int| lo <= x < hi implies #[trigger] f(x) % m == z(x) % m by {
        lemma_small_mod(0, m as nat);
    }
    lemma_sum_congruent(f, z, lo, hi, m);
    lemma_sum_zero(z, lo, hi);
    lemma_small_mod(0, m as nat);
}

} // verus!
