//! Algebra of the polynomial product `conv_coef`: splitting a factor, linearity,
//! commutativity, vanishing outside the product's length and agreement modulo `m`.
use vstd::prelude::*;
use vstd::arithmetic::div_mod::*;
use vstd::arithmetic::mul::*;
use vstd::arithmetic::power::pow;
use crate::convolution::u128::{conv_coef, conv_partial, mp_coef, mp_partial};
use crate::fps::u128::poly_eval;

verus! {

/// The pointwise sum of `a` and `b`, with `b` (the shorter) read as zero past its end.
pub open spec fn padded_sum(a: Seq<int>, b: Seq<int>) -> Seq<int> {
    Seq::new(a.len(), |i: int| a[i] + if i < b.len() { b[i] } else { 0 })
}

/// A partial sum reads only the first `i` coefficients of `a`.
pub proof fn lemma_partial_prefix(a: Seq<int>, b: Seq<int>, k: int, i: nat, m: int)
    requires
        i <= m <= a.len(),
    ensures
        conv_partial(a, b, k, i) == conv_partial(a.subrange(0, m), b, k, i),
    decreases i,
{
    if i > 0 {
        lemma_partial_prefix(a, b, k, (i - 1) as nat, m);
    }
}

/// Splitting the first factor at `n`: `a = lo ++ hi` gives `lo * b + x^n hi * b`.
pub proof fn lemma_conv_split_first(a: Seq<int>, b: Seq<int>, n: int, k: int)
    requires
        0 <= n <= a.len(),
    ensures
        conv_coef(a, b, k) == conv_coef(a.subrange(0, n), b, k) + conv_coef(a.subrange(n, a.len() as int), b, k - n),
{
    lemma_split_first_partial(a, b, n, k, a.len());
}

proof fn lemma_split_first_partial(a: Seq<int>, b: Seq<int>, n: int, k: int, i: nat)
    requires
        0 <= n <= i <= a.len(),
    ensures
        conv_partial(a, b, k, i) == conv_partial(a.subrange(0, n), b, k, n as nat) + conv_partial(
            a.subrange(n, a.len() as int),
            b,
            k - n,
            (i - n) as nat,
        ),
    decreases i,
{
    let hi = a.subrange(n, a.len() as int);
    if i == n {
        lemma_partial_prefix(a, b, k, n as nat, n);
    } else {
        lemma_split_first_partial(a, b, n, k, (i - 1) as nat);
        assert(hi[i - 1 - n] == a[i - 1]);
        assert(conv_partial(hi, b, k - n, (i - n) as nat) == conv_partial(hi, b, k - n, (i - 1 - n) as nat) + if 0 <= (k - n)
            - (i - 1 - n) < b.len() {
            hi[i - 1 - n] * b[(k - n) - (i - 1 - n)]
        } else {
            0
        });
    }
}

/// Splitting the second factor at `n`: `b = lo ++ hi` gives `a * lo + x^n a * hi`.
pub proof fn lemma_conv_split_second(a: Seq<int>, b: Seq<int>, n: int, k: int)
    requires
        0 <= n <= b.len(),
    ensures
        conv_coef(a, b, k) == conv_coef(a, b.subrange(0, n), k) + conv_coef(a, b.subrange(n, b.len() as int), k - n),
{
    lemma_split_second_partial(a, b, n, k, a.len());
}

proof fn lemma_split_second_partial(a: Seq<int>, b: Seq<int>, n: int, k: int, i: nat)
    requires
        0 <= n <= b.len(),
        i <= a.len(),
    ensures
        conv_partial(a, b, k, i) == conv_partial(a, b.subrange(0, n), k, i) + conv_partial(
            a,
            b.subrange(n, b.len() as int),
            k - n,
            i,
        ),
    decreases i,
{
    if i > 0 {
        lemma_split_second_partial(a, b, n, k, (i - 1) as nat);
        let j = k - (i - 1);
        if 0 <= j < n {
            assert(b.subrange(0, n)[j] == b[j]);
        } else if n <= j < b.len() {
            assert(b.subrange(n, b.len() as int)[j - n] == b[j]);
        }
    }
}

/// The product is linear in its first factor.
pub proof fn lemma_conv_linear_first(a1: Seq<int>, a2: Seq<int>, b: Seq<int>, k: int)
    requires
        a2.len() <= a1.len(),
    ensures
        conv_coef(padded_sum(a1, a2), b, k) == conv_coef(a1, b, k) + conv_coef(a2, b, k),
{
    lemma_linear_first_partial(a1, a2, b, k, a1.len());
}

proof fn lemma_linear_first_partial(a1: Seq<int>, a2: Seq<int>, b: Seq<int>, k: int, i: nat)
    requires
        a2.len() <= a1.len(),
        i <= a1.len(),
    ensures
        conv_partial(padded_sum(a1, a2), b, k, i) == conv_partial(a1, b, k, i) + conv_partial(
            a2,
            b,
            k,
            if i < a2.len() { i } else { a2.len() },
        ),
    decreases i,
{
    if i > 0 {
        lemma_linear_first_partial(a1, a2, b, k, (i - 1) as nat);
        let j = k - (i - 1);
        if 0 <= j < b.len() {
            if i - 1 < a2.len() {
                lemma_mul_is_distributive_add_other_way(b[j], a1[i - 1], a2[i - 1]);
            }
        }
    }
}

/// The product is linear in its second factor.
pub proof fn lemma_conv_linear_second(a: Seq<int>, b1: Seq<int>, b2: Seq<int>, k: int)
    requires
        b2.len() <= b1.len(),
    ensures
        conv_coef(a, padded_sum(b1, b2), k) == conv_coef(a, b1, k) + conv_coef(a, b2, k),
{
    lemma_linear_second_partial(a, b1, b2, k, a.len());
}

proof fn lemma_linear_second_partial(a: Seq<int>, b1: Seq<int>, b2: Seq<int>, k: int, i: nat)
    requires
        b2.len() <= b1.len(),
        i <= a.len(),
    ensures
        conv_partial(a, padded_sum(b1, b2), k, i) == conv_partial(a, b1, k, i) + conv_partial(a, b2, k, i),
    decreases i,
{
    if i > 0 {
        lemma_linear_second_partial(a, b1, b2, k, (i - 1) as nat);
        let j = k - (i - 1);
        if 0 <= j < b1.len() {
            if j < b2.len() {
                lemma_mul_is_distributive_add(a[i - 1], b1[j], b2[j]);
            }
        }
    }
}

/// The product with a single coefficient `x`.
proof fn lemma_conv_single(b: Seq<int>, x: int, j: int, i: nat)
    requires
        i <= b.len(),
    ensures
        conv_partial(b, seq![x], j, i) == if 0 <= j < i { b[j] * x } else { 0 },
    decreases i,
{
    if i > 0 {
        lemma_conv_single(b, x, j, (i - 1) as nat);
    }
}

/// The product is commutative.
pub proof fn lemma_conv_commutative(a: Seq<int>, b: Seq<int>, k: int)
    ensures
        conv_coef(a, b, k) == conv_coef(b, a, k),
    decreases a.len(),
{
    if a.len() == 0 {
        lemma_conv_zero_first(b, a, k, b.len());
    } else {
        let n = a.len() - 1;
        let lo = a.subrange(0, n);
        lemma_partial_prefix(a, b, k, n as nat, n);
        lemma_conv_commutative(lo, b, k);
        lemma_conv_split_second(b, a, n, k);
        assert(a.subrange(n, a.len() as int) =~= seq![a[n]]);
        lemma_conv_single(b, a[n], k - n, b.len());
        if 0 <= k - n < b.len() {
            lemma_mul_is_commutative(a[n], b[k - n]);
        }
    }
}

/// A partial sum against an empty second factor vanishes.
proof fn lemma_conv_zero_first(a: Seq<int>, b: Seq<int>, k: int, i: nat)
    requires
        b.len() == 0,
    ensures
        conv_partial(a, b, k, i) == 0,
    decreases i,
{
    if i > 0 {
        lemma_conv_zero_first(a, b, k, (i - 1) as nat);
    }
}

/// Outside `0 <= k < a.len() + b.len() - 1` the coefficient is zero.
pub proof fn lemma_conv_outside(a: Seq<int>, b: Seq<int>, k: int)
    requires
        k < 0 || k >= a.len() + b.len() - 1,
    ensures
        conv_coef(a, b, k) == 0,
{
    lemma_outside_partial(a, b, k, a.len());
}

proof fn lemma_outside_partial(a: Seq<int>, b: Seq<int>, k: int, i: nat)
    requires
        k < 0 || k >= a.len() + b.len() - 1,
        i <= a.len(),
    ensures
        conv_partial(a, b, k, i) == 0,
    decreases i,
{
    if i > 0 {
        lemma_outside_partial(a, b, k, (i - 1) as nat);
    }
}

/// Factors that agree coefficientwise modulo `m` have products that agree modulo `m`.
pub proof fn lemma_conv_congruent(a: Seq<int>, a2: Seq<int>, b: Seq<int>, b2: Seq<int>, k: int, m: int)
    requires
        m > 0,
        a.len() == a2.len(),
        b.len() == b2.len(),
        forall|i: int| 0 <= i < a.len() ==> #[trigger] a[i] % m == a2[i] % m,
        forall|i: int| 0 <= i < b.len() ==> #[trigger] b[i] % m == b2[i] % m,
    ensures
        conv_coef(a, b, k) % m == conv_coef(a2, b2, k) % m,
{
    lemma_congruent_partial(a, a2, b, b2, k, m, a.len());
}

proof fn lemma_congruent_partial(a: Seq<int>, a2: Seq<int>, b: Seq<int>, b2: Seq<int>, k: int, m: int, i: nat)
    requires
        m > 0,
        a.len() == a2.len(),
        b.len() == b2.len(),
        i <= a.len(),
        forall|i: int| 0 <= i < a.len() ==> #[trigger] a[i] % m == a2[i] % m,
        forall|i: int| 0 <= i < b.len() ==> #[trigger] b[i] % m == b2[i] % m,
    ensures
        conv_partial(a, b, k, i) % m == conv_partial(a2, b2, k, i) % m,
    decreases i,
{
    if i > 0 {
        lemma_congruent_partial(a, a2, b, b2, k, m, (i - 1) as nat);
        let j = k - (i - 1);
        let t1 = if 0 <= j < b.len() { a[i - 1] * b[j] } else { 0 };
        let t2 = if 0 <= j < b.len() { a2[i - 1] * b2[j] } else { 0 };
        if 0 <= j < b.len() {
            assert(a[i - 1] % m == a2[i - 1] % m);
            assert(b[j] % m == b2[j] % m);
            lemma_mul_mod_noop(a[i - 1], b[j], m);
            lemma_mul_mod_noop(a2[i - 1], b2[j], m);
        }
        assert(t1 % m == t2 % m);
        let p1 = conv_partial(a, b, k, (i - 1) as nat);
        let p2 = conv_partial(a2, b2, k, (i - 1) as nat);
        lemma_add_mod_noop(p1, t1, m);
        lemma_add_mod_noop(p2, t2, m);
    }
}

/// Karatsuba's recombination: with `a = a0 ++ a1` and `b = b0 ++ b1` split at `n`,
/// `a * b = a0 b0 + x^n ((a0 + a1)(b0 + b1) - a0 b0 - a1 b1) + x^(2n) a1 b1`.
pub proof fn lemma_karatsuba_identity(a: Seq<int>, b: Seq<int>, n: int, k: int)
    requires
        0 <= n <= a.len(),
        n <= b.len(),
        a.len() - n <= n,
        b.len() - n <= n,
    ensures
        ({
            let a0 = a.subrange(0, n);
            let a1 = a.subrange(n, a.len() as int);
            let b0 = b.subrange(0, n);
            let b1 = b.subrange(n, b.len() as int);
            conv_coef(a, b, k) == conv_coef(a0, b0, k) + (conv_coef(padded_sum(a0, a1), padded_sum(b0, b1), k - n)
                - conv_coef(a0, b0, k - n) - conv_coef(a1, b1, k - n)) + conv_coef(a1, b1, k - 2 * n)
        }),
{
    let a0 = a.subrange(0, n);
    let a1 = a.subrange(n, a.len() as int);
    let b0 = b.subrange(0, n);
    let b1 = b.subrange(n, b.len() as int);
    lemma_conv_split_first(a, b, n, k);
    lemma_conv_split_second(a0, b, n, k);
    lemma_conv_split_second(a1, b, n, k - n);
    let pb = padded_sum(b0, b1);
    lemma_conv_linear_first(a0, a1, pb, k - n);
    lemma_conv_linear_second(a0, b0, b1, k - n);
    lemma_conv_linear_second(a1, b0, b1, k - n);
}

/// The first `n` coefficients of the product of `a` and `b`.
pub open spec fn conv_seq(a: Seq<int>, b: Seq<int>, n: nat) -> Seq<int> {
    Seq::new(n, |k: int| conv_coef(a, b, k))
}

/// The zero polynomial evaluates to zero.
pub proof fn lemma_poly_eval_zeros(u: Seq<int>, x: int)
    requires
        forall|i: int| 0 <= i < u.len() ==> #[trigger] u[i] == 0,
    ensures
        poly_eval(u, x) == 0,
    decreases u.len(),
{
    if u.len() > 0 {
        assert forall|i: int| 0 <= i < u.drop_first().len() implies #[trigger] u.drop_first()[i] == 0 by {
            assert(u.drop_first()[i] == u[i + 1]);
        }
        lemma_poly_eval_zeros(u.drop_first(), x);
        lemma_mul_basics(x);
    }
}

/// Evaluation is additive over coefficientwise sums.
pub proof fn lemma_poly_eval_add(u: Seq<int>, v: Seq<int>, w: Seq<int>, x: int)
    requires
        u.len() == v.len(),
        w.len() == u.len(),
        forall|i: int| 0 <= i < w.len() ==> #[trigger] w[i] == u[i] + v[i],
    ensures
        poly_eval(w, x) == poly_eval(u, x) + poly_eval(v, x),
    decreases w.len(),
{
    if w.len() > 0 {
        assert forall|i: int| 0 <= i < w.drop_first().len() implies #[trigger] w.drop_first()[i] == u.drop_first()[i]
            + v.drop_first()[i] by {
            assert(w.drop_first()[i] == w[i + 1]);
        }
        lemma_poly_eval_add(u.drop_first(), v.drop_first(), w.drop_first(), x);
        lemma_mul_is_distributive_add(x, poly_eval(u.drop_first(), x), poly_eval(v.drop_first(), x));
    }
}

/// Evaluation commutes with scaling the coefficients by `c`.
pub proof fn lemma_poly_eval_scale(u: Seq<int>, w: Seq<int>, c: int, x: int)
    requires
        w.len() == u.len(),
        forall|i: int| 0 <= i < w.len() ==> #[trigger] w[i] == c * u[i],
    ensures
        poly_eval(w, x) == c * poly_eval(u, x),
    decreases w.len(),
{
    if w.len() > 0 {
        assert forall|i: int| 0 <= i < w.drop_first().len() implies #[trigger] w.drop_first()[i] == c * u.drop_first()[i] by {
            assert(w.drop_first()[i] == w[i + 1]);
        }
        lemma_poly_eval_scale(u.drop_first(), w.drop_first(), c, x);
        let p = poly_eval(u.drop_first(), x);
        assert(c * u[0] + x * (c * p) == c * (u[0] + x * p)) by (nonlinear_arith);
    }
}

/// The coefficients of a product evaluate to the product of the values: `(a b)(x) = a(x) b(x)`.
pub proof fn lemma_poly_eval_conv(a: Seq<int>, b: Seq<int>, n: nat, x: int)
    requires
        n >= a.len() + b.len() - 1,
    ensures
        poly_eval(conv_seq(a, b, n), x) == poly_eval(a, x) * poly_eval(b, x),
    decreases a.len(),
{
    let cs = conv_seq(a, b, n);
    if a.len() == 0 || b.len() == 0 {
        assert forall|i: int| 0 <= i < cs.len() implies #[trigger] cs[i] == 0 by {
            lemma_conv_outside_empty(a, b, i, a.len());
        }
        lemma_poly_eval_zeros(cs, x);
        if a.len() == 0 {
            assert(poly_eval(a, x) == 0);
            lemma_mul_basics(poly_eval(b, x));
        } else {
            assert(poly_eval(b, x) == 0);
            lemma_mul_basics(poly_eval(a, x));
        }
    } else {
        let n0 = (a.len() - 1) as int;
        let a0 = a.subrange(0, n0);
        let c = a[n0];
        lemma_poly_eval_conv(a0, b, n, x);
        let cs0 = conv_seq(a0, b, n);
        let cb = Seq::new(b.len(), |i: int| c * b[i]);
        let sh = Seq::new(n0 as nat, |i: int| 0int) + cb + Seq::new((n - n0 - b.len()) as nat, |i: int| 0int);
        assert forall|k: int| 0 <= k < cs.len() implies #[trigger] cs[k] == cs0[k] + sh[k] by {
            lemma_partial_prefix(a, b, k, n0 as nat, n0);
            if n0 <= k < n0 + b.len() {
                assert(sh[k] == cb[k - n0]);
            } else {
                assert(sh[k] == 0);
            }
        }
        lemma_poly_eval_add(cs0, sh, cs, x);
        // sh(x) = x^n0 c b(x)
        let zl = Seq::new(n0 as nat, |i: int| 0int);
        let zr = Seq::new((n - n0 - b.len()) as nat, |i: int| 0int);
        assert(sh =~= zl + (cb + zr));
        crate::convolution::u128::ntt_laws::lemma_poly_eval_append(zl, cb + zr, x);
        crate::convolution::u128::ntt_laws::lemma_poly_eval_append(cb, zr, x);
        lemma_poly_eval_zeros(zl, x);
        lemma_poly_eval_zeros(zr, x);
        lemma_poly_eval_scale(b, cb, c, x);
        lemma_mul_basics(pow(x, cb.len()));
        // a(x) = a0(x) + x^n0 c
        assert(a =~= a0 + seq![c]);
        crate::convolution::u128::ntt_laws::lemma_poly_eval_append(a0, seq![c], x);
        assert(seq![c].drop_first().len() == 0);
        assert(poly_eval(seq![c].drop_first(), x) == 0);
        assert(poly_eval(seq![c], x) == c + x * 0);
        let pa0 = poly_eval(a0, x);
        let pb = poly_eval(b, x);
        let xn = pow(x, n0 as nat);
        assert(pa0 * pb + xn * (c * pb) == (pa0 + xn * c) * pb) by (nonlinear_arith);
    }
}

/// With an empty factor every coefficient is zero.
proof fn lemma_conv_outside_empty(a: Seq<int>, b: Seq<int>, k: int, i: nat)
    requires
        a.len() == 0 || b.len() == 0,
        i <= a.len(),
    ensures
        conv_partial(a, b, k, i) == 0,
    decreases i,
{
    if i > 0 {
        lemma_conv_outside_empty(a, b, k, (i - 1) as nat);
    }
}

/// Coefficients in `[0, ba]` and `[0, bb]` give product coefficients in
/// `[0, a.len() ba bb]`.
pub proof fn lemma_conv_bound(a: Seq<int>, b: Seq<int>, k: int, ba: int, bb: int)
    requires
        0 <= ba,
        0 <= bb,
        forall|i: int| 0 <= i < a.len() ==> 0 <= #[trigger] a[i] <= ba,
        forall|i: int| 0 <= i < b.len() ==> 0 <= #[trigger] b[i] <= bb,
    ensures
        0 <= conv_coef(a, b, k) <= a.len() * (ba * bb),
{
    lemma_bound_partial(a, b, k, ba, bb, a.len());
}

proof fn lemma_bound_partial(a: Seq<int>, b: Seq<int>, k: int, ba: int, bb: int, i: nat)
    requires
        0 <= ba,
        0 <= bb,
        i <= a.len(),
        forall|i: int| 0 <= i < a.len() ==> 0 <= #[trigger] a[i] <= ba,
        forall|i: int| 0 <= i < b.len() ==> 0 <= #[trigger] b[i] <= bb,
    ensures
        0 <= conv_partial(a, b, k, i) <= i * (ba * bb),
    decreases i,
{
    if i > 0 {
        lemma_bound_partial(a, b, k, ba, bb, (i - 1) as nat);
        let j = k - (i - 1);
        lemma_mul_nonnegative(ba, bb);
        if 0 <= j < b.len() {
            let x = a[i - 1];
            let y = b[j];
            lemma_mul_upper_bound(x, ba, y, bb);
            lemma_mul_nonnegative(x, y);
        }
        assert((i - 1) * (ba * bb) + ba * bb == i * (ba * bb)) by (nonlinear_arith);
    }
}

/// Folding the upper half onto the lower half keeps the value at an `n`-th root of one:
/// with `r^n = 1`, `(lo + hi)(r) = (lo ++ hi)(r)` modulo `m`.
pub proof fn lemma_poly_eval_fold(full: Seq<int>, x: Seq<int>, n: nat, r: int, m: int)
    requires
        m > 0,
        full.len() == 2 * n,
        x.len() == n,
        forall|k: int| 0 <= k < n ==> #[trigger] x[k] == full[k] + full[k + n],
        pow(r, n) % m == 1,
    ensures
        poly_eval(x, r) % m == poly_eval(full, r) % m,
{
    let lo = full.subrange(0, n as int);
    let hi = full.subrange(n as int, 2 * n as int);
    assert(full =~= lo + hi);
    crate::convolution::u128::ntt_laws::lemma_poly_eval_append(lo, hi, r);
    lemma_poly_eval_add(lo, hi, x, r);
    let ph = poly_eval(hi, r);
    lemma_mul_mod_noop_left(pow(r, n), ph, m);
    lemma_mul_basics(ph);
    lemma_add_mod_noop(poly_eval(lo, r), pow(r, n) * ph, m);
    lemma_add_mod_noop(poly_eval(lo, r), ph, m);
}

/// The product of the reversal of `a` with `c` holds the middle product from index
/// `a.len() - 1` on: `(rev(a) * c)[la - 1 + i] = sum_t a[t] c[i + t]`.
pub proof fn lemma_conv_reverse(a: Seq<int>, ra: Seq<int>, c: Seq<int>, i: int)
    requires
        0 < a.len() <= c.len(),
        0 <= i <= c.len() - a.len(),
        ra.len() == a.len(),
        forall|s: int| 0 <= s < a.len() ==> #[trigger] ra[s] == a[a.len() - 1 - s],
    ensures
        conv_coef(ra, c, a.len() - 1 + i) == mp_coef(a, c, i),
{
    lemma_reverse_partial(a, ra, c, i, a.len());
}

proof fn lemma_reverse_partial(a: Seq<int>, ra: Seq<int>, c: Seq<int>, i: int, s: nat)
    requires
        0 < a.len() <= c.len(),
        0 <= i <= c.len() - a.len(),
        ra.len() == a.len(),
        s <= a.len(),
        forall|s: int| 0 <= s < a.len() ==> #[trigger] ra[s] == a[a.len() - 1 - s],
    ensures
        conv_partial(ra, c, a.len() - 1 + i, s) == mp_coef(a, c, i) - mp_partial(a, c, i, (a.len() - s) as nat),
    decreases s,
{
    if s > 0 {
        lemma_reverse_partial(a, ra, c, i, (s - 1) as nat);
        let la = a.len() as int;
        assert(ra[s - 1] == a[la - s]);
        assert(mp_partial(a, c, i, (la - s + 1) as nat) == mp_partial(a, c, i, (la - s) as nat) + a[la - s] * c[i + la - s]);
    }
}

/// Middle products of sequences that agree modulo `m` agree modulo `m`.
pub proof fn lemma_mp_congruent(a: Seq<int>, a2: Seq<int>, c: Seq<int>, c2: Seq<int>, i: int, m: int, j: nat)
    requires
        m > 0,
        a.len() == a2.len(),
        c.len() == c2.len(),
        j <= a.len(),
        0 <= i,
        i + a.len() <= c.len(),
        forall|t: int| 0 <= t < a.len() ==> #[trigger] a[t] % m == a2[t] % m,
        forall|t: int| 0 <= t < c.len() ==> #[trigger] c[t] % m == c2[t] % m,
    ensures
        mp_partial(a, c, i, j) % m == mp_partial(a2, c2, i, j) % m,
    decreases j,
{
    if j > 0 {
        lemma_mp_congruent(a, a2, c, c2, i, m, (j - 1) as nat);
        let x = a[j - 1];
        let y = c[i + j - 1];
        assert(a[j - 1] % m == a2[j - 1] % m);
        assert(c[i + j - 1] % m == c2[i + j - 1] % m);
        lemma_mul_mod_noop(x, y, m);
        lemma_mul_mod_noop(a2[j - 1], c2[i + j - 1], m);
        lemma_add_mod_noop(mp_partial(a, c, i, (j - 1) as nat), x * y, m);
        lemma_add_mod_noop(mp_partial(a2, c2, i, (j - 1) as nat), a2[j - 1] * c2[i + j - 1], m);
    }
}

/// Entries in `[0, ba]` and `[0, bb]` give middle products in `[0, j ba bb]`.
pub proof fn lemma_mp_bound(a: Seq<int>, c: Seq<int>, i: int, ba: int, bb: int, j: nat)
    requires
        0 <= ba,
        0 <= bb,
        j <= a.len(),
        0 <= i,
        i + a.len() <= c.len(),
        forall|t: int| 0 <= t < a.len() ==> 0 <= #[trigger] a[t] <= ba,
        forall|t: int| 0 <= t < c.len() ==> 0 <= #[trigger] c[t] <= bb,
    ensures
        0 <= mp_partial(a, c, i, j) <= j * (ba * bb),
    decreases j,
{
    if j > 0 {
        lemma_mp_bound(a, c, i, ba, bb, (j - 1) as nat);
        let x = a[j - 1];
        let y = c[i + j - 1];
        lemma_mul_upper_bound(x, ba, y, bb);
        lemma_mul_nonnegative(x, y);
        assert((j - 1) * (ba * bb) + ba * bb == j * (ba * bb)) by (nonlinear_arith);
    }
}

/// A first factor of zeros gives a zero product.
pub proof fn lemma_conv_zero_factor(u: Seq<int>, c: Seq<int>, k: int)
    requires
        forall|i: int| 0 <= i < u.len() ==> #[trigger] u[i] == 0,
    ensures
        conv_coef(u, c, k) == 0,
{
    lemma_zero_factor_partial(u, c, k, u.len());
}

proof fn lemma_zero_factor_partial(u: Seq<int>, c: Seq<int>, k: int, i: nat)
    requires
        i <= u.len(),
        forall|i: int| 0 <= i < u.len() ==> #[trigger] u[i] == 0,
    ensures
        conv_partial(u, c, k, i) == 0,
    decreases i,
{
    if i > 0 {
        lemma_zero_factor_partial(u, c, k, (i - 1) as nat);
        if 0 <= k - (i - 1) < c.len() {
            lemma_mul_basics(c[k - (i - 1)]);
        }
    }
}

/// Scaling the first factor by `x` scales the product.
pub proof fn lemma_conv_scale_first(u: Seq<int>, w: Seq<int>, x: int, c: Seq<int>, k: int)
    requires
        w.len() == u.len(),
        forall|i: int| 0 <= i < u.len() ==> #[trigger] w[i] == x * u[i],
    ensures
        conv_coef(w, c, k) == x * conv_coef(u, c, k),
{
    lemma_scale_partial(u, w, x, c, k, u.len());
}

proof fn lemma_scale_partial(u: Seq<int>, w: Seq<int>, x: int, c: Seq<int>, k: int, i: nat)
    requires
        w.len() == u.len(),
        i <= u.len(),
        forall|i: int| 0 <= i < u.len() ==> #[trigger] w[i] == x * u[i],
    ensures
        conv_partial(w, c, k, i) == x * conv_partial(u, c, k, i),
    decreases i,
{
    if i > 0 {
        lemma_scale_partial(u, w, x, c, k, (i - 1) as nat);
        let p = conv_partial(u, c, k, (i - 1) as nat);
        if 0 <= k - (i - 1) < c.len() {
            let y = c[k - (i - 1)];
            assert(x * p + (x * u[i - 1]) * y == x * (p + u[i - 1] * y)) by (nonlinear_arith);
        } else {
            lemma_mul_basics(x);
        }
    }
}

/// Shifting the first factor up by `n0` places (and padding it) shifts the product.
pub proof fn lemma_conv_shift_first(u: Seq<int>, n0: nat, r: nat, c: Seq<int>, k: int)
    ensures
        conv_coef(Seq::new(n0, |i: int| 0int) + u + Seq::new(r, |i: int| 0int), c, k) == conv_coef(u, c, k - n0),
{
    let zl = Seq::new(n0, |i: int| 0int);
    let zr = Seq::new(r, |i: int| 0int);
    let w = zl + u + zr;
    lemma_conv_split_first(w, c, n0 as int, k);
    assert(w.subrange(0, n0 as int) =~= zl);
    lemma_conv_zero_factor(zl, c, k);
    let rest = w.subrange(n0 as int, w.len() as int);
    assert(rest =~= u + zr);
    lemma_conv_split_first(rest, c, u.len() as int, k - n0);
    assert(rest.subrange(0, u.len() as int) =~= u);
    assert(rest.subrange(u.len() as int, rest.len() as int) =~= zr);
    lemma_conv_zero_factor(zr, c, k - n0 - u.len());
}

/// The product is associative: `a * (b * c) = (a * b) * c`, with the inner products taken
/// to at least their full lengths.
pub proof fn lemma_conv_assoc(a: Seq<int>, b: Seq<int>, c: Seq<int>, n1: nat, n2: nat, k: int)
    requires
        n1 >= b.len() + c.len() - 1,
        n1 >= 0,
        n2 >= a.len() + b.len() - 1,
        n2 >= a.len(),
    ensures
        conv_coef(a, conv_seq(b, c, n1), k) == conv_coef(conv_seq(a, b, n2), c, k),
    decreases a.len(),
{
    let bc = conv_seq(b, c, n1);
    let ab = conv_seq(a, b, n2);
    if a.len() == 0 {
        lemma_conv_outside_empty(a, bc, k, 0);
        assert forall|i: int| 0 <= i < ab.len() implies #[trigger] ab[i] == 0 by {
            lemma_conv_outside_empty(a, b, i, 0);
        }
        lemma_conv_zero_factor(ab, c, k);
    } else {
        let n0 = (a.len() - 1) as int;
        let a0 = a.subrange(0, n0);
        let x = a[n0];
        lemma_conv_assoc(a0, b, c, n1, n2, k);
        // a * bc = a0 * bc + x bc[k - n0]
        lemma_partial_prefix(a, bc, k, n0 as nat, n0);
        // (a * b) = (a0 * b) + x shift(b)
        let ab0 = conv_seq(a0, b, n2);
        if b.len() == 0 {
            assert forall|i: int| 0 <= i < ab.len() implies #[trigger] ab[i] == 0 by {
                lemma_conv_outside_empty(a, b, i, a.len());
            }
            assert forall|i: int| 0 <= i < ab0.len() implies #[trigger] ab0[i] == 0 by {
                lemma_conv_outside_empty(a0, b, i, a0.len());
            }
            lemma_conv_zero_factor(ab, c, k);
            lemma_conv_zero_factor(ab0, c, k);
            assert forall|i: int| 0 <= i < bc.len() implies #[trigger] bc[i] == 0 by {
                lemma_conv_outside_empty(b, c, i, 0);
            }
            lemma_conv_zero_factor(bc, a, k);
            lemma_conv_commutative(a, bc, k);
        } else {
            let xb = Seq::new(b.len(), |i: int| x * b[i]);
            let sh = Seq::new(n0 as nat, |i: int| 0int) + xb + Seq::new((n2 - n0 - b.len()) as nat, |i: int| 0int);
            assert(sh.len() == n2);
            assert forall|i: int| 0 <= i < ab.len() implies #[trigger] ab[i] == padded_sum(ab0, sh)[i] by {
                lemma_partial_prefix(a, b, i, n0 as nat, n0);
                if n0 <= i < n0 + b.len() {
                    assert(sh[i] == xb[i - n0]);
                } else {
                    assert(sh[i] == 0);
                }
            }
            assert(ab =~= padded_sum(ab0, sh));
            lemma_conv_linear_first(ab0, sh, c, k);
            lemma_conv_shift_first(xb, n0 as nat, (n2 - n0 - b.len()) as nat, c, k);
            lemma_conv_scale_first(b, xb, x, c, k - n0);
            // bc[k - n0] is conv_coef(b, c, k - n0), zero outside
            if 0 <= k - n0 < bc.len() {
            } else {
                lemma_conv_outside(b, c, k - n0);
            }
        }
    }
}

/// The coefficient of `x^k` in `u`: `u[k]` inside, zero outside.
pub open spec fn coef(u: Seq<int>, k: int) -> int {
    if 0 <= k < u.len() {
        u[k]
    } else {
        0
    }
}

/// The unit polynomial with `l` coefficients.
pub open spec fn unit_seq(l: nat) -> Seq<int> {
    Seq::new(l, |i: int| if i == 0 { 1int } else { 0 })
}

/// Coefficient `k` of a product reads the second factor only up to `k`.
pub proof fn lemma_conv_prefix_second(a: Seq<int>, u: Seq<int>, v: Seq<int>, k: int)
    requires
        forall|j: int| 0 <= j <= k ==> #[trigger] coef(u, j) == coef(v, j),
    ensures
        conv_coef(a, u, k) == conv_coef(a, v, k),
{
    lemma_prefix_second_partial(a, u, v, k, a.len());
}

proof fn lemma_prefix_second_partial(a: Seq<int>, u: Seq<int>, v: Seq<int>, k: int, i: nat)
    requires
        i <= a.len(),
        forall|j: int| 0 <= j <= k ==> #[trigger] coef(u, j) == coef(v, j),
    ensures
        conv_partial(a, u, k, i) == conv_partial(a, v, k, i),
    decreases i,
{
    if i > 0 {
        lemma_prefix_second_partial(a, u, v, k, (i - 1) as nat);
        let j = k - (i - 1);
        if 0 <= j <= k {
            assert(coef(u, j) == coef(v, j));
        }
        if j < 0 || j > k {
        }
        lemma_mul_basics(a[i - 1]);
    }
}

/// Coefficient `k` of a product reads the first factor only up to `k`.
pub proof fn lemma_conv_prefix_first(a: Seq<int>, a2: Seq<int>, b: Seq<int>, k: int)
    requires
        forall|j: int| 0 <= j <= k ==> #[trigger] coef(a, j) == coef(a2, j),
    ensures
        conv_coef(a, b, k) == conv_coef(a2, b, k),
{
    lemma_conv_commutative(a, b, k);
    lemma_conv_commutative(a2, b, k);
    lemma_conv_prefix_second(b, a, a2, k);
}

/// Multiplying by the unit polynomial keeps a coefficient.
pub proof fn lemma_conv_unit(v: Seq<int>, l: nat, k: int)
    requires
        l >= 1,
    ensures
        conv_coef(v, unit_seq(l), k) == coef(v, k),
        conv_coef(unit_seq(l), v, k) == coef(v, k),
{
    let d = unit_seq(l);
    assert forall|j: int| 0 <= j <= k implies #[trigger] coef(d, j) == coef(seq![1int], j) by {}
    lemma_conv_prefix_second(v, d, seq![1int], k);
    if 0 <= k < v.len() {
        lemma_conv_single_all(v, 1, k);
        lemma_mul_basics(v[k]);
    } else {
        lemma_conv_outside(v, seq![1int], k);
    }
    lemma_conv_commutative(v, d, k);
}

proof fn lemma_conv_single_all(b: Seq<int>, x: int, j: int)
    requires
        0 <= j < b.len(),
    ensures
        conv_coef(b, seq![x], j) == b[j] * x,
{
    lemma_conv_single(b, x, j, b.len());
}

/// Factors whose coefficients below `n` vanish modulo `m` have a product whose coefficients
/// below `2 n` vanish modulo `m`.
pub proof fn lemma_conv_low_zero(u: Seq<int>, v: Seq<int>, n: int, k: int, m: int)
    requires
        m > 0,
        0 <= k < 2 * n,
        forall|i: int| 0 <= i < n && i < u.len() ==> #[trigger] u[i] % m == 0,
        forall|i: int| 0 <= i < n && i < v.len() ==> #[trigger] v[i] % m == 0,
    ensures
        conv_coef(u, v, k) % m == 0,
{
    lemma_low_zero_partial(u, v, n, k, m, u.len());
}

proof fn lemma_low_zero_partial(u: Seq<int>, v: Seq<int>, n: int, k: int, m: int, i: nat)
    requires
        m > 0,
        0 <= k < 2 * n,
        i <= u.len(),
        forall|i: int| 0 <= i < n && i < u.len() ==> #[trigger] u[i] % m == 0,
        forall|i: int| 0 <= i < n && i < v.len() ==> #[trigger] v[i] % m == 0,
    ensures
        conv_partial(u, v, k, i) % m == 0,
    decreases i,
{
    lemma_small_mod(0, m as nat);
    if i > 0 {
        lemma_low_zero_partial(u, v, n, k, m, (i - 1) as nat);
        let j = k - (i - 1);
        let p = conv_partial(u, v, k, (i - 1) as nat);
        let t = if 0 <= j < v.len() { u[i - 1] * v[j] } else { 0 };
        lemma_small_mod(0, m as nat);
        if 0 <= j < v.len() {
            if i - 1 < n {
                assert(u[i - 1] % m == 0);
                lemma_mul_mod_noop_left(u[i - 1], v[j], m);
                lemma_mul_basics(v[j]);
            } else {
                assert(j < n);
                assert(v[j] % m == 0);
                lemma_mul_mod_noop_right(u[i - 1], v[j], m);
                lemma_mul_basics(u[i - 1]);
            }
            assert(t % m == 0);
        } else {
            assert(t == 0);
        }
        assert(conv_partial(u, v, k, i) == p + t);
        lemma_add_mod_noop(p, t, m);
        assert((p % m) + (t % m) == 0);
    }
}

/// Scaling the second factor by `x` scales the product.
pub proof fn lemma_conv_scale_second(a: Seq<int>, u: Seq<int>, w: Seq<int>, x: int, k: int)
    requires
        w.len() == u.len(),
        forall|i: int| 0 <= i < u.len() ==> #[trigger] w[i] == x * u[i],
    ensures
        conv_coef(a, w, k) == x * conv_coef(a, u, k),
{
    lemma_conv_commutative(a, w, k);
    lemma_conv_commutative(a, u, k);
    lemma_conv_scale_first(u, w, x, a, k);
}

/// One Newton step for the inverse of a power series, modulo `m`: if `g` (with `n`
/// coefficients) inverts `f` modulo `x^n`, then `g (2 - f g)`, with `f` cut to `2 n`
/// coefficients and the result cut to `2 n`, inverts `f` modulo `x^(2 n)`.
pub proof fn lemma_newton_step(m: int, fv: Seq<int>, ftr: Seq<int>, g: Seq<int>, hv: Seq<int>, g2: Seq<int>, n: int)
    requires
        m > 1,
        n >= 1,
        g.len() == n,
        ftr.len() == 2 * n,
        forall|j: int| 0 <= j < 2 * n ==> #[trigger] ftr[j] == coef(fv, j),
        forall|k: int| 0 <= k < n ==> #[trigger] conv_coef(fv, g, k) % m == (if k == 0 { 1int } else { 0 }),
        hv.len() >= 2 * n,
        forall|j: int| 0 <= j < 2 * n ==> #[trigger] hv[j] % m == ((if j == 0 { 2int } else { 0 }) - conv_coef(ftr, g, j)) % m,
        g2.len() == 2 * n,
        forall|k: int| 0 <= k < 2 * n ==> #[trigger] g2[k] % m == conv_coef(hv, g, k) % m,
    ensures
        forall|k: int| 0 <= k < 2 * n ==> #[trigger] conv_coef(fv, g2, k) % m == (if k == 0 { 1int } else { 0 }),
{
    assert forall|k: int| 0 <= k < 2 * n implies #[trigger] conv_coef(fv, g2, k) % m == (if k == 0 { 1int } else { 0 }) by {
        lemma_newton_coef(m, fv, ftr, g, hv, g2, n, k);
    }
}

proof fn lemma_newton_coef(m: int, fv: Seq<int>, ftr: Seq<int>, g: Seq<int>, hv: Seq<int>, g2: Seq<int>, n: int, k: int)
    requires
        m > 1,
        n >= 1,
        0 <= k < 2 * n,
        g.len() == n,
        ftr.len() == 2 * n,
        forall|j: int| 0 <= j < 2 * n ==> #[trigger] ftr[j] == coef(fv, j),
        forall|k: int| 0 <= k < n ==> #[trigger] conv_coef(fv, g, k) % m == (if k == 0 { 1int } else { 0 }),
        hv.len() >= 2 * n,
        forall|j: int| 0 <= j < 2 * n ==> #[trigger] hv[j] % m == ((if j == 0 { 2int } else { 0 }) - conv_coef(ftr, g, j)) % m,
        g2.len() == 2 * n,
        forall|k: int| 0 <= k < 2 * n ==> #[trigger] g2[k] % m == conv_coef(hv, g, k) % m,
    ensures
        conv_coef(fv, g2, k) % m == (if k == 0 { 1int } else { 0 }),
{
    let nb = (hv.len() + g.len()) as nat;
    let l = (fv.len() + g.len() + 2 * n) as nat;
    let g2f = conv_seq(hv, g, (2 * n) as nat);
    // g2 agrees with the full product of hv and g modulo m
    lemma_conv_congruent(fv, fv, g2, g2f, k, m);
    let gh = conv_seq(g, hv, nb);
    assert forall|j: int| 0 <= j <= k implies #[trigger] coef(g2f, j) == coef(gh, j) by {
        lemma_conv_commutative(hv, g, j);
    }
    lemma_conv_prefix_second(fv, g2f, gh, k);
    // f (g h) = (f g) h
    lemma_conv_assoc(fv, g, hv, nb, l, k);
    let e = conv_seq(fv, g, l);
    // h agrees modulo m with 2 - f g below 2 n
    let h2 = Seq::new(hv.len(), |j: int| if j < 2 * n { (if j == 0 { 2int } else { 0 }) - e[j] } else { hv[j] });
    assert forall|j: int| 0 <= j < hv.len() implies #[trigger] hv[j] % m == h2[j] % m by {
        if j < 2 * n {
            assert forall|i: int| 0 <= i <= j implies #[trigger] coef(ftr, i) == coef(fv, i) by {}
            lemma_conv_prefix_first(ftr, fv, g, j);
        }
    }
    lemma_conv_congruent(e, e, hv, h2, k, m);
    let d = unit_seq(l);
    let d2 = Seq::new(l, |j: int| 2 * d[j]);
    let en = Seq::new(l, |j: int| -1 * e[j]);
    let h3 = padded_sum(d2, en);
    assert forall|j: int| 0 <= j <= k implies #[trigger] coef(h2, j) == coef(h3, j) by {}
    lemma_conv_prefix_second(e, h2, h3, k);
    lemma_conv_linear_second(e, d2, en, k);
    lemma_conv_scale_second(e, d, d2, 2, k);
    lemma_conv_scale_second(e, e, en, -1, k);
    lemma_conv_unit(e, l, k);
    // e e = e + (e - 1) + (e - 1)^2 around the unit
    let r = Seq::new(l, |i: int| e[i] - d[i]);
    assert(e =~= padded_sum(d, r));
    lemma_conv_linear_first(d, r, e, k);
    lemma_conv_unit(e, l, k);
    lemma_conv_linear_second(r, d, r, k);
    lemma_conv_unit(r, l, k);
    assert forall|i: int| 0 <= i < n && i < r.len() implies #[trigger] r[i] % m == 0 by {
        lemma_sub_mod_noop(e[i], d[i], m);
        lemma_small_mod(1, m as nat);
        lemma_small_mod(0, m as nat);
    }
    lemma_conv_low_zero(r, r, n, k, m);
    let x = conv_coef(r, r, k);
    assert(conv_coef(e, e, k) == e[k] + r[k] + x);
    assert(2 * e[k] - conv_coef(e, e, k) == d[k] - x);
    lemma_sub_mod_noop(d[k], x, m);
    lemma_small_mod(1, m as nat);
    lemma_small_mod(0, m as nat);
}

} // verus!
