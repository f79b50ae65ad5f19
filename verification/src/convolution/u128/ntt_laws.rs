//! What the butterflies of the transforms compute: the levels as functions of residue
//! sequences, their twiddle factors, the evaluation of the input polynomial at powers of a
//! root of unity, and the inverse transform undoing the forward one.
use vstd::prelude::*;
use vstd::arithmetic::div_mod::*;
use vstd::arithmetic::mul::*;
use vstd::arithmetic::power::*;
use vstd::arithmetic::power2::*;
use crate::arith::{lemma_two_adic_divides, spec_gcd, two_adic};
use crate::convolution::u128::{has_power_2_generator, is_butterfly_table, is_inverse_mod, root_value, lemma_least_generator_exists, least_power_2_generator, ntt_point, ntt_ready, ButterflyCache};
use crate::fps::u128::poly_eval;
use crate::modint::u128::{valid_modulus, values, StaticModInt};

verus! {

broadcast use vstd::array::group_array_axioms;

/// The number of trailing one bits of `s`.
pub open spec fn ones_below(s: nat) -> nat
    decreases s,
{
    if s % 2 == 1 {
        1 + ones_below(s / 2)
    } else {
        0
    }
}

/// `r` trailing ones followed by a zero bit: `r` is the number of trailing ones of `x`.
pub proof fn lemma_ones_below(x: nat, r: nat)
    requires
        x % pow2(r) == pow2(r) - 1,
        (x / pow2(r)) % 2 == 0,
    ensures
        ones_below(x) == r,
    decreases r,
{
    lemma_pow2_pos(r);
    if r == 0 {
        lemma2_to64();
        assert(x / 1 == x);
    } else {
        lemma_pow2_unfold(r);
        let q = pow2((r - 1) as nat);
        lemma_pow2_pos((r - 1) as nat);
        // x = 2 (x / 2) + x % 2, and x % (2 q) = 2 q - 1 makes x odd
        lemma_mod_mod(x as int, 2, q as int);
        lemma_mul_is_commutative(2, q as int);
        assert((2 * q - 1) % 2 == 1) by {
            lemma_mod_multiples_vanish(q as int - 1, 1, 2);
        }
        assert(x % 2 == 1);
        // (x / 2) % q == q - 1
        lemma_fundamental_div_mod(x as int, 2);
        lemma_mod_breakdown(x as int, 2, q as int);
        assert((x / 2) % q == q - 1) by {
            lemma_fundamental_div_mod(x as int, 2);
        }
        lemma_div_denominator(x as int, 2, q as int);
        ones_below_step(x);
        lemma_ones_below(x / 2, (r - 1) as nat);
    }
}

proof fn ones_below_step(x: nat)
    requires
        x % 2 == 1,
    ensures
        ones_below(x) == 1 + ones_below(x / 2),
{
}

/// The twiddle factor of block `s`: the product of `f[ones_below(t)]` over `t < s`, modulo `m`.
pub open spec fn twiddle(m: int, f: Seq<int>, s: nat) -> int
    decreases s,
{
    if s == 0 {
        1int % m
    } else {
        (twiddle(m, f, (s - 1) as nat) * f[ones_below((s - 1) as nat) as int]) % m
    }
}

/// One forward level: each block `s < w` of width `2 p` takes its halves `(l, x)` to
/// `(l + x d, l - x d)`, `d` the twiddle factor of `s`; the rest is unchanged.
pub open spec fn fwd_level(m: int, f: Seq<int>, x: Seq<int>, w: nat, p: nat) -> Seq<int> {
    Seq::new(
        x.len(),
        |k: int|
            if 0 < p && k < w * (2 * p) {
                let d = twiddle(m, f, (k / (2 * p as int)) as nat);
                if k % (2 * p as int) < p {
                    (x[k] + x[k + p] * d) % m
                } else {
                    (x[k - p] - x[k] * d) % m
                }
            } else {
                x[k]
            },
    )
}

/// The first `j` forward levels of a transform of length `2^l`: level `i` has `2^i` blocks
/// of width `2^(l - i)`.
pub open spec fn fwd_levels(m: int, f: Seq<int>, x: Seq<int>, l: nat, j: nat) -> Seq<int>
    decreases j,
{
    if j == 0 {
        x
    } else {
        fwd_level(m, f, fwd_levels(m, f, x, l, (j - 1) as nat), pow2((j - 1) as nat), pow2((l - j) as nat))
    }
}

/// Block `s` of width `2 p` starts at `s * 2 p`: index `s * 2 p + i` lies in block `s` at `i`.
pub proof fn lemma_block_index(s: int, p: int, i: int)
    requires
        0 <= s,
        0 <= i < 2 * p,
    ensures
        (s * (2 * p) + i) / (2 * p) == s,
        (s * (2 * p) + i) % (2 * p) == i,
{
    lemma_fundamental_div_mod_converse(s * (2 * p) + i, 2 * p, s, i);
}

/// The low `l` bits of `s` in reverse order.
pub open spec fn bit_rev(l: nat, s: nat) -> nat
    decreases l,
{
    if l == 0 {
        0
    } else {
        (s % 2) * pow2((l - 1) as nat) + bit_rev((l - 1) as nat, s / 2)
    }
}

/// The reversal of `0` is `0`.
proof fn lemma_bit_rev_zero(l: nat)
    ensures
        bit_rev(l, 0) == 0,
    decreases l,
{
    if l > 0 {
        lemma_bit_rev_zero((l - 1) as nat);
        lemma_mul_basics(pow2((l - 1) as nat) as int);
    }
}

/// Below `2^(l - 1)` the top bit is clear: reversing in `l` bits doubles the reversal in
/// `l - 1` bits.
pub proof fn lemma_bit_rev_double(l: nat, s: nat)
    requires
        l >= 1,
        s < pow2((l - 1) as nat),
    ensures
        bit_rev(l, s) == 2 * bit_rev((l - 1) as nat, s),
    decreases l,
{
    if l == 1 {
        lemma2_to64();
        lemma_bit_rev_zero(1);
        lemma_bit_rev_zero(0);
    } else {
        lemma_pow2_unfold((l - 1) as nat);
        lemma_pow2_pos((l - 2) as nat);
        assert(pow2((l - 1) as nat) == 2 * pow2((l - 2) as nat));
        lemma_bit_rev_double((l - 1) as nat, s / 2);
        if s % 2 == 0 {
            lemma_mul_basics(pow2((l - 1) as nat) as int);
            lemma_mul_basics(pow2((l - 2) as nat) as int);
        } else {
            lemma_mul_basics(pow2((l - 1) as nat) as int);
            lemma_mul_basics(pow2((l - 2) as nat) as int);
        }
    }
}

/// Adding one to `s`, whose trailing ones number `t`, moves its reversal on by
/// `3 * 2^(l - 1 - t) - 2^l`.
pub proof fn lemma_bit_rev_step(l: nat, s: nat)
    requires
        s + 1 < pow2(l),
    ensures
        ones_below(s) < l,
        bit_rev(l, s + 1) + pow2(l) == bit_rev(l, s) + 3 * pow2((l - 1 - ones_below(s)) as nat),
    decreases l,
{
    if l == 0 {
        lemma2_to64();
    } else {
        lemma_pow2_unfold(l);
        lemma_mul_basics(pow2((l - 1) as nat) as int);
        if s % 2 == 0 {
            assert((s + 1) % 2 == 1 && (s + 1) / 2 == s / 2);
            assert(ones_below(s) == 0);
        } else {
            if l == 1 {
                lemma2_to64();
                assert(false);
            }
            assert((s + 1) % 2 == 0 && (s + 1) / 2 == s / 2 + 1);
            lemma_pow2_unfold((l - 1) as nat);
            lemma_bit_rev_step((l - 1) as nat, s / 2);
            assert((l - 1 - ones_below(s)) as nat == ((l - 1) as nat - 1 - ones_below(s / 2)) as nat);
        }
    }
}

/// The modular step behind the twiddle recurrence: with `A D = B C`, `D = -1` and
/// `F = -(r1 r2)` where `r1 r2 = C`, multiplying `B` by `F` gives `A`.
proof fn lemma_twiddle_algebra(m: int, a: int, b: int, c: int, d: int, r1: int, r2: int, f: int)
    requires
        m > 1,
        a * d == b * c,
        d % m == m - 1,
        (r1 * r2) % m == c % m,
        f == (0 - r1 * r2) % m,
    ensures
        ((b % m) * f) % m == a % m,
{
    lemma_mul_mod_noop_left(b, f, m);
    lemma_sub_mod_noop(0, r1 * r2, m);
    lemma_sub_mod_noop(0, c, m);
    assert(f == (0 - c) % m);
    lemma_mul_mod_noop_right(b, 0 - c, m);
    assert(b * (0 - c) == a * (0 - d)) by (nonlinear_arith)
        requires
            a * d == b * c,
    ;
    lemma_mul_mod_noop_right(a, 0 - d, m);
    lemma_sub_mod_noop(0, d, m);
    lemma_small_mod(0, m as nat);
    assert((0 - (m - 1)) % m == 1) by {
        lemma_mod_add_multiples_vanish(0 - (m - 1), m);
        lemma_small_mod(1, m as nat);
    }
    assert((0 - d) % m == 1);
    lemma_mul_basics(a);
}

/// The twiddle factors in closed form: with `g^(2^(h-1)) = -1` and the table
/// `f[i] = -(g^(2^(h-i-1)) g^(2^(h-i-2)))`, block `s` gets `g^bit_rev(h - 1, s)`.
pub proof fn lemma_twiddle_power(m: int, g: int, h: nat, f: Seq<int>, s: nat)
    requires
        m > 1,
        h >= 1,
        pow(g, pow2((h - 1) as nat)) % m == m - 1,
        forall|i: int| 0 <= i < h - 1 ==> #[trigger] f[i] == (0 - (pow(g, pow2((h - i - 1) as nat)) % m) * (pow(
            g,
            pow2((h - i - 2) as nat),
        ) % m)) % m,
        s < pow2((h - 1) as nat),
    ensures
        twiddle(m, f, s) == pow(g, bit_rev((h - 1) as nat, s)) % m,
    decreases s,
{
    if s == 0 {
        lemma_bit_rev_zero((h - 1) as nat);
        lemma_pow0(g);
    } else {
        let s0 = (s - 1) as nat;
        lemma_twiddle_power(m, g, h, f, s0);
        lemma_bit_rev_step((h - 1) as nat, s0);
        let t = ones_below(s0);
        let e0 = bit_rev((h - 1) as nat, s0);
        let e1 = bit_rev((h - 1) as nat, s);
        let q = pow2((h - 2 - t) as nat);
        let c = 3 * q;
        lemma_pow2_unfold((h - 1 - t) as nat);
        assert(pow2((h - 1 - t) as nat) == 2 * q);
        lemma_pow_adds(g, e1, pow2((h - 1) as nat));
        lemma_pow_adds(g, e0, c as nat);
        lemma_pow_adds(g, 2 * q, q);
        let r1 = pow(g, pow2((h - 1 - t) as nat)) % m;
        let r2 = pow(g, q) % m;
        lemma_mul_mod_noop(pow(g, 2 * q), pow(g, q), m);
        assert(f[t as int] == (0 - r1 * r2) % m);
        lemma_twiddle_algebra(m, pow(g, e1), pow(g, e0), pow(g, c as nat), pow(g, pow2((h - 1) as nat)), r1, r2, f[t as int]);
    }
}

/// Evaluating a concatenation: `(u ++ v)(x) = u(x) + x^|u| v(x)`.
pub proof fn lemma_poly_eval_append(u: Seq<int>, v: Seq<int>, x: int)
    ensures
        poly_eval(u + v, x) == poly_eval(u, x) + pow(x, u.len()) * poly_eval(v, x),
    decreases u.len(),
{
    if u.len() == 0 {
        assert(u + v =~= v);
        lemma_pow0(x);
    } else {
        assert((u + v).drop_first() =~= u.drop_first() + v);
        lemma_poly_eval_append(u.drop_first(), v, x);
        lemma_pow_positive_unfold(x, u.len());
        let a = poly_eval(u.drop_first(), x);
        let b = pow(x, (u.len() - 1) as nat);
        let c = poly_eval(v, x);
        assert(x * (a + b * c) == x * a + (x * b) * c) by (nonlinear_arith);
    }
}

/// `x^n = x * x^(n - 1)` for `n > 0`.
proof fn lemma_pow_positive_unfold(x: int, n: nat)
    requires
        n > 0,
    ensures
        pow(x, n) == x * pow(x, (n - 1) as nat),
{
    reveal(pow);
}

/// Coefficients `z = u + v d` (modulo `m`) evaluate to `u(x) + d v(x)` (modulo `m`).
pub proof fn lemma_poly_eval_combine(u: Seq<int>, v: Seq<int>, z: Seq<int>, d: int, x: int, m: int)
    requires
        m > 0,
        u.len() == v.len(),
        z.len() == u.len(),
        forall|i: int| 0 <= i < z.len() ==> #[trigger] z[i] % m == (u[i] + v[i] * d) % m,
    ensures
        poly_eval(z, x) % m == (poly_eval(u, x) + d * poly_eval(v, x)) % m,
    decreases z.len(),
{
    if z.len() > 0 {
        let u1 = u.drop_first();
        let v1 = v.drop_first();
        let z1 = z.drop_first();
        assert forall|i: int| 0 <= i < z1.len() implies #[trigger] z1[i] % m == (u1[i] + v1[i] * d) % m by {
            assert(z1[i] == z[i + 1]);
        }
        lemma_poly_eval_combine(u1, v1, z1, d, x, m);
        let pz = poly_eval(z1, x);
        let pu = poly_eval(u1, x);
        let pv = poly_eval(v1, x);
        // z(x) = z0 + x pz, with z0 = u0 + v0 d and pz = pu + d pv, all modulo m
        lemma_add_mod_noop(z[0], x * pz, m);
        lemma_mul_mod_noop_right(x, pz, m);
        lemma_mul_mod_noop_right(x, pu + d * pv, m);
        lemma_add_mod_noop(u[0] + v[0] * d, x * (pu + d * pv), m);
        assert((u[0] + v[0] * d) + x * (pu + d * pv) == (u[0] + x * pu) + d * (v[0] + x * pv)) by (nonlinear_arith);
    }
}

/// One butterfly on a block, seen through evaluation: where `x^p = d` the lower half
/// `l + x d` evaluates as the whole block, and where `x^p = -d` so does `l - x d`.
pub proof fn lemma_butterfly_evaluates(
    blk: Seq<int>,
    lo: Seq<int>,
    hi: Seq<int>,
    d: int,
    r: int,
    m: int,
    p: nat,
)
    requires
        m > 0,
        blk.len() == 2 * p,
        lo.len() == p,
        hi.len() == p,
        forall|i: int| 0 <= i < p ==> #[trigger] lo[i] == (blk[i] + blk[i + p] * d) % m,
        forall|i: int| 0 <= i < p ==> #[trigger] hi[i] == (blk[i] - blk[i + p] * d) % m,
    ensures
        pow(r, p) % m == d % m ==> poly_eval(lo, r) % m == poly_eval(blk, r) % m,
        pow(r, p) % m == (0 - d) % m ==> poly_eval(hi, r) % m == poly_eval(blk, r) % m,
{
    let l = blk.subrange(0, p as int);
    let x = blk.subrange(p as int, 2 * p as int);
    assert(blk =~= l + x);
    lemma_poly_eval_append(l, x, r);
    let pl = poly_eval(l, r);
    let px = poly_eval(x, r);
    let rp = pow(r, p);
    if rp % m == d % m {
        assert forall|i: int| 0 <= i < p implies #[trigger] lo[i] % m == (l[i] + x[i] * d) % m by {
            lemma_mod_twice(blk[i] + blk[i + p] * d, m);
        }
        lemma_poly_eval_combine(l, x, lo, d, r, m);
        lemma_mul_mod_noop_left(d, px, m);
        lemma_mul_mod_noop_left(rp, px, m);
        lemma_add_mod_noop(pl, d * px, m);
        lemma_add_mod_noop(pl, rp * px, m);
    }
    if rp % m == (0 - d) % m {
        assert forall|i: int| 0 <= i < p implies #[trigger] hi[i] % m == (l[i] + x[i] * (0 - d)) % m by {
            lemma_mod_twice(blk[i] - blk[i + p] * d, m);
            assert(blk[i] - blk[i + p] * d == l[i] + x[i] * (0 - d)) by (nonlinear_arith)
                requires
                    l[i] == blk[i],
                    x[i] == blk[i + p],
            ;
        }
        lemma_poly_eval_combine(l, x, hi, 0 - d, r, m);
        lemma_mul_mod_noop_left(0 - d, px, m);
        lemma_mul_mod_noop_left(rp, px, m);
        lemma_add_mod_noop(pl, (0 - d) * px, m);
        lemma_add_mod_noop(pl, rp * px, m);
    }
}

/// Block `s` of width `q` of `y` evaluates, modulo `m`, like `x` at every `r` with
/// `r^q = root`.
pub open spec fn block_evaluates(m: int, x: Seq<int>, y: Seq<int>, q: nat, s: nat, root: int) -> bool {
    forall|r: int| pow(r, q) % m == root % m ==> #[trigger] poly_eval(y.subrange((s * q) as int, (s * q + q) as int), r) % m == poly_eval(x, r) % m
}

/// Squaring `r^p = +-d` gives `r^(2p) = d^2`.
proof fn lemma_square_of_root(r: int, p: nat, m: int, d: int)
    requires
        m > 0,
        pow(r, p) % m == d % m || pow(r, p) % m == (0 - d) % m,
    ensures
        pow(r, 2 * p) % m == (d * d) % m,
{
    lemma_pow_adds(r, p, p);
    let a = pow(r, p);
    lemma_mul_mod_noop(a, a, m);
    lemma_mul_mod_noop(d, d, m);
    lemma_mul_mod_noop(0 - d, 0 - d, m);
    assert((0 - d) * (0 - d) == d * d) by (nonlinear_arith);
}

/// `D = -1` makes `D G = -G`.
proof fn lemma_times_minus_one(m: int, dd: int, gg: int)
    requires
        m > 0,
        dd % m == m - 1,
    ensures
        (dd * gg) % m == (0 - gg) % m,
{
    lemma_mul_mod_noop_left(dd, gg, m);
    assert((m - 1) * gg == (0 - gg) + gg * m) by (nonlinear_arith);
    lemma_mod_multiples_vanish(gg, 0 - gg, m);
}

/// One forward level refines the evaluation property from blocks of width `2^(l - j)` to
/// blocks of width `2^(l - j - 1)`, block `s` evaluating at the roots of `g^bit_rev(h, s)`.
pub proof fn lemma_level_evaluates(m: int, g: int, h: nat, f: Seq<int>, x: Seq<int>, y: Seq<int>, l: nat, j: nat)
    requires
        m > 1,
        1 <= l <= h,
        j < l,
        pow(g, pow2((h - 1) as nat)) % m == m - 1,
        forall|i: int| 0 <= i < h - 1 ==> #[trigger] f[i] == (0 - (pow(g, pow2((h - i - 1) as nat)) % m) * (pow(
            g,
            pow2((h - i - 2) as nat),
        ) % m)) % m,
        y.len() >= pow2(l),
        forall|s: nat| s < pow2(j) ==> #[trigger] block_evaluates(m, x, y, pow2((l - j) as nat), s, pow(g, bit_rev(h, s))),
    ensures
        forall|c: nat| c < pow2(j + 1) ==> #[trigger] block_evaluates(
            m,
            x,
            fwd_level(m, f, y, pow2(j), pow2((l - j - 1) as nat)),
            pow2((l - j - 1) as nat),
            c,
            pow(g, bit_rev(h, c)),
        ),
{
    let p = pow2((l - j - 1) as nat);
    let q = pow2((l - j) as nat);
    let w = pow2(j);
    let y2 = fwd_level(m, f, y, w, p);
    lemma_pow2_unfold((l - j) as nat);
    lemma_pow2_unfold(j + 1);
    lemma_pow2_pos((l - j - 1) as nat);
    lemma_pow2_adds(j, (l - j) as nat);
    assert(q == 2 * p);
    assert(w * q == pow2(l));
    assert forall|c: nat| c < pow2(j + 1) implies #[trigger] block_evaluates(m, x, y2, p, c, pow(g, bit_rev(h, c))) by {
        let s = c / 2;
        assert(s < w);
        assert(block_evaluates(m, x, y, q, s, pow(g, bit_rev(h, s))));
        // s < 2^(h - 1)
        if j < h - 1 {
            lemma_pow2_strictly_increases(j, (h - 1) as nat);
        }
        lemma_twiddle_power(m, g, h, f, s);
        let e = bit_rev((h - 1) as nat, s);
        let d = twiddle(m, f, s);
        assert(d == pow(g, e) % m);
        lemma_bit_rev_double(h, s);
        lemma_pow_adds(g, e, e);
        lemma_mul_mod_noop(pow(g, e), pow(g, e), m);
        assert((d * d) % m == pow(g, bit_rev(h, s)) % m);
        let o = (s * q) as int;
        assert(o + q <= w * q) by (nonlinear_arith)
            requires
                s < w,
                q > 0,
                o == s * q,
        ;
        let blk = y.subrange(o, o + q);
        let lo = y2.subrange(o, o + p);
        let hi = y2.subrange(o + p, o + q);
        assert forall|i: int| 0 <= i < p implies #[trigger] lo[i] == (blk[i] + blk[i + p] * d) % m by {
            lemma_block_index(s as int, p as int, i);
            assert(o + i < w * (2 * p));
        }
        assert forall|i: int| 0 <= i < p implies #[trigger] hi[i] == (blk[i] - blk[i + p] * d) % m by {
            lemma_block_index(s as int, p as int, i + p);
            assert(o + p + i < w * (2 * p));
        }
        let root = pow(g, bit_rev(h, c));
        assert forall|r: int| pow(r, p) % m == root % m implies #[trigger] poly_eval(y2.subrange((c * p) as int, (c * p + p) as int), r) % m
            == poly_eval(x, r) % m by {
            lemma_butterfly_evaluates(blk, lo, hi, d, r, m, p);
            lemma_mod_twice(pow(g, e), m);
            assert(blk == y.subrange((s * q) as int, (s * q + q) as int));
            if c % 2 == 0 {
                assert(c == 2 * s);
                assert(c * p == o) by (nonlinear_arith)
                    requires
                        c == 2 * s,
                        o == s * q,
                        q == 2 * p,
                ;
                lemma_mul_basics(pow2((h - 1) as nat) as int);
                assert(bit_rev(h, c) == e);
                assert(y2.subrange((c * p) as int, (c * p + p) as int) =~= lo);
                lemma_square_of_root(r, p, m, d);
                assert(pow(r, q) % m == pow(g, bit_rev(h, s)) % m);
                assert(poly_eval(y.subrange((s * q) as int, (s * q + q) as int), r) % m == poly_eval(x, r) % m);
            } else {
                assert(c == 2 * s + 1);
                assert(c * p == o + p) by (nonlinear_arith)
                    requires
                        c == 2 * s + 1,
                        o == s * q,
                        q == 2 * p,
                ;
                lemma_mul_basics(pow2((h - 1) as nat) as int);
                assert(bit_rev(h, c) == pow2((h - 1) as nat) + e);
                lemma_pow_adds(g, pow2((h - 1) as nat), e);
                lemma_times_minus_one(m, pow(g, pow2((h - 1) as nat)), pow(g, e));
                lemma_sub_mod_noop(0, pow(g, e), m);
                lemma_sub_mod_noop(0, d, m);
                assert(root % m == (0 - d) % m);
                assert(y2.subrange((c * p) as int, (c * p + p) as int) =~= hi);
                lemma_square_of_root(r, p, m, d);
                assert(pow(r, q) % m == pow(g, bit_rev(h, s)) % m);
                assert(poly_eval(y.subrange((s * q) as int, (s * q + q) as int), r) % m == poly_eval(x, r) % m);
            }
        }
    }
}

/// A level keeps the length.
proof fn lemma_fwd_levels_len(m: int, f: Seq<int>, x: Seq<int>, l: nat, j: nat)
    ensures
        fwd_levels(m, f, x, l, j).len() == x.len(),
    decreases j,
{
    if j > 0 {
        lemma_fwd_levels_len(m, f, x, l, (j - 1) as nat);
    }
}

/// After `j` levels of a transform of length `2^l`, block `s` of width `2^(l - j)` evaluates
/// like the input at every root of `g^bit_rev(h, s)`.
pub proof fn lemma_fwd_levels_evaluate(m: int, g: int, h: nat, f: Seq<int>, x: Seq<int>, l: nat, j: nat)
    requires
        m > 1,
        1 <= l <= h,
        j <= l,
        pow(g, pow2((h - 1) as nat)) % m == m - 1,
        forall|i: int| 0 <= i < h - 1 ==> #[trigger] f[i] == (0 - (pow(g, pow2((h - i - 1) as nat)) % m) * (pow(
            g,
            pow2((h - i - 2) as nat),
        ) % m)) % m,
        x.len() >= pow2(l),
    ensures
        forall|s: nat| s < pow2(j) ==> #[trigger] block_evaluates(
            m,
            x.subrange(0, pow2(l) as int),
            fwd_levels(m, f, x, l, j),
            pow2((l - j) as nat),
            s,
            pow(g, bit_rev(h, s)),
        ),
    decreases j,
{
    let x0 = x.subrange(0, pow2(l) as int);
    if j == 0 {
        lemma2_to64();
        assert forall|s: nat| s < pow2(j) implies #[trigger] block_evaluates(m, x0, x, pow2(l), s, pow(g, bit_rev(h, s))) by {
            assert(s == 0);
            assert(x.subrange((s * pow2(l)) as int, (s * pow2(l) + pow2(l)) as int) =~= x0);
        }
    } else {
        lemma_fwd_levels_evaluate(m, g, h, f, x, l, (j - 1) as nat);
        lemma_fwd_levels_len(m, f, x, l, (j - 1) as nat);
        lemma_level_evaluates(m, g, h, f, x0, fwd_levels(m, f, x, l, (j - 1) as nat), l, (j - 1) as nat);
        assert((l - (j - 1) - 1) as nat == (l - j) as nat);
    }
}

/// The forward transform of length `2^l` evaluates the input polynomial: entry `t` is its
/// value at `g^bit_rev(h, t)`.
pub proof fn lemma_transform_evaluates(m: int, g: int, h: nat, f: Seq<int>, x: Seq<int>, l: nat)
    requires
        m > 1,
        1 <= l <= h,
        pow(g, pow2((h - 1) as nat)) % m == m - 1,
        forall|i: int| 0 <= i < h - 1 ==> #[trigger] f[i] == (0 - (pow(g, pow2((h - i - 1) as nat)) % m) * (pow(
            g,
            pow2((h - i - 2) as nat),
        ) % m)) % m,
        x.len() >= pow2(l),
    ensures
        forall|t: int| 0 <= t < pow2(l) ==> #[trigger] fwd_levels(m, f, x, l, l)[t] % m == poly_eval(
            x.subrange(0, pow2(l) as int),
            pow(g, bit_rev(h, t as nat)) % m,
        ) % m,
{
    lemma_fwd_levels_evaluate(m, g, h, f, x, l, l);
    lemma_fwd_levels_len(m, f, x, l, l);
    lemma2_to64();
    let y = fwd_levels(m, f, x, l, l);
    assert forall|t: int| 0 <= t < pow2(l) implies #[trigger] y[t] % m == poly_eval(
        x.subrange(0, pow2(l) as int),
        pow(g, bit_rev(h, t as nat)) % m,
    ) % m by {
        let s = t as nat;
        let r = pow(g, bit_rev(h, s)) % m;
        assert(block_evaluates(m, x.subrange(0, pow2(l) as int), y, 1, s, pow(g, bit_rev(h, s))));
        lemma_pow1(r);
        lemma_mod_twice(pow(g, bit_rev(h, s)), m);
        let one = y.subrange((s * 1) as int, (s * 1 + 1) as int);
        assert(one.len() == 1 && one[0] == y[t]);
        assert(one.drop_first().len() == 0);
        assert(poly_eval(one.drop_first(), r) == 0);
        assert(poly_eval(one, r) == y[t] + r * 0);
        assert(poly_eval(one, r) % m == poly_eval(x.subrange(0, pow2(l) as int), r) % m);
    }
}

/// The levels of a transform of length `2^l` leave the entries from `2^l` on alone.
pub proof fn lemma_fwd_levels_tail(m: int, f: Seq<int>, x: Seq<int>, l: nat, j: nat, k: int)
    requires
        j <= l,
        pow2(l) <= k < x.len(),
    ensures
        fwd_levels(m, f, x, l, j)[k] == x[k],
    decreases j,
{
    if j > 0 {
        lemma_fwd_levels_tail(m, f, x, l, (j - 1) as nat, k);
        lemma_fwd_levels_len(m, f, x, l, (j - 1) as nat);
        lemma_pow2_unfold((l - j + 1) as nat);
        lemma_pow2_adds((j - 1) as nat, (l - j + 1) as nat);
        assert(pow2((j - 1) as nat) * (2 * pow2((l - j) as nat)) == pow2(l));
    }
}

/// `fin` is the forward transform of `orig`: where `2^l <= orig.len() < 2^(l + 1)` and
/// `2^l` divides `M - 1`, entry `t < 2^l` is the value of the polynomial with coefficients
/// `orig[..2^l]` at `ntt_point(M, t)`, and the entries from `2^l` on are unchanged.
pub open spec fn is_transform<const M: u128>(orig: Seq<StaticModInt<M>>, fin: Seq<StaticModInt<M>>) -> bool {
    forall|l: nat| #![trigger pow2(l)]
        pow2(l) <= orig.len() < pow2(l + 1) && (M - 1) as nat % pow2(l) == 0 ==> {
            &&& forall|t: int| 0 <= t < pow2(l) ==> (#[trigger] fin[t]).value() == poly_eval(
                values(orig).subrange(0, pow2(l) as int),
                ntt_point(M, t),
            ) % (M as int)
            &&& forall|t: int| pow2(l) <= t < orig.len() ==> (#[trigger] fin[t]).value() == orig[t].value()
        }
}

/// The generator behind the table of twiddle factors: `g^(2^(h-1)) = -1` for the least
/// generator `g` of order `2^h`, with `1 <= h < 127`.
proof fn lemma_generator_facts<const M: u128>()
    requires
        valid_modulus(M),
        M >= 3,
        has_power_2_generator(M),
    ensures
        1 <= two_adic((M - 1) as nat) < 127,
        pow(least_power_2_generator(M), pow2((two_adic((M - 1) as nat) - 1) as nat)) % (M as int) == M - 1,
{
    lemma_two_adic_range((M - 1) as nat);
    lemma_least_generator_exists(M);
}

/// For `0 < x < 2^127`, `x` is even exactly when `1 <= two_adic(x)`, and `two_adic(x) < 127`.
proof fn lemma_two_adic_range(x: nat)
    requires
        0 < x < 0x8000_0000_0000_0000_0000_0000_0000_0000,
    ensures
        two_adic(x) < 127,
        x % 2 == 0 ==> 1 <= two_adic(x),
{
    let h = two_adic(x);
    lemma_two_adic_divides(x);
    lemma_pow2_pos(h);
    crate::arith::lemma_divisor_le(pow2(h) as int, x as int);
    lemma2_to64();
    lemma2_to64_rest();
    lemma_pow2_adds(64, 63);
    if h >= 127 {
        if h > 127 {
            lemma_pow2_strictly_increases(127, h);
        }
        assert(false);
    }
    if x % 2 == 0 {
        crate::arith::lemma_two_adic_bound(x, 1);
    }
}

/// The exponent of a power of two within `n`: `2^l <= n < 2^(l + 1)` fixes `l`.
pub proof fn lemma_floor_log_unique(n: nat, l: nat, l2: nat)
    requires
        pow2(l) <= n < pow2(l + 1),
        pow2(l2) <= n < pow2(l2 + 1),
    ensures
        l == l2,
{
    if l2 < l {
        if l2 + 1 < l {
            lemma_pow2_strictly_increases(l2 + 1, l);
        }
        assert(false);
    }
    if l2 > l {
        if l + 1 < l2 {
            lemma_pow2_strictly_increases(l + 1, l2);
        }
        assert(false);
    }
}

/// A sequence of length at most one is its own transform.
pub proof fn lemma_transform_short<const M: u128>(orig: Seq<StaticModInt<M>>)
    requires
        valid_modulus(M),
        orig.len() <= 1,
        forall|k: int| 0 <= k < orig.len() ==> (#[trigger] orig[k]).rep() < M,
    ensures
        is_transform(orig, orig),
{
    lemma2_to64();
    assert forall|l: nat| #![trigger pow2(l)]
        pow2(l) <= orig.len() < pow2(l + 1) && (M - 1) as nat % pow2(l) == 0 implies forall|t: int| 0 <= t < pow2(l)
            ==> (#[trigger] orig[t]).value() == poly_eval(values(orig).subrange(0, pow2(l) as int), ntt_point(M, t)) % (
        M as int) by {
        if l > 0 {
            lemma_pow2_unfold(l);
            lemma_pow2_pos((l - 1) as nat);
        }
        assert forall|t: int| 0 <= t < pow2(l) implies (#[trigger] orig[t]).value() == poly_eval(
            values(orig).subrange(0, pow2(l) as int),
            ntt_point(M, t),
        ) % (M as int) by {
            let one = values(orig).subrange(0, pow2(l) as int);
            assert(t == 0 && one.len() == 1);
            assert(one.drop_first().len() == 0);
            assert(poly_eval(one.drop_first(), ntt_point(M, t)) == 0);
            assert(poly_eval(one, ntt_point(M, t)) == one[0] + ntt_point(M, t) * 0);
            crate::arith::lemma_redc_mod(M as int, orig[0].rep() as int);
            lemma_small_mod(orig[0].value() as nat, M as nat);
        }
    }
}

/// The levels of a transform of length `2^l <= n < 2^(l + 1)`, for `2^l` dividing `M - 1`,
/// evaluate and keep the tail.
proof fn lemma_transform_at<const M: u128>(
    c: ButterflyCache<StaticModInt<M>>,
    orig: Seq<StaticModInt<M>>,
    fin: Seq<StaticModInt<M>>,
    l: nat,
)
    requires
        ntt_ready(M),
        is_butterfly_table(c),
        fin.len() == orig.len(),
        l >= 1,
        pow2(l) <= orig.len(),
        (M - 1) as nat % pow2(l) == 0,
        values(fin) == fwd_levels(M as int, values(c.fore@), values(orig), l, l),
    ensures
        forall|t: int| 0 <= t < pow2(l) ==> (#[trigger] fin[t]).value() == poly_eval(
            values(orig).subrange(0, pow2(l) as int),
            ntt_point(M, t),
        ) % (M as int),
        forall|t: int| pow2(l) <= t < orig.len() ==> (#[trigger] fin[t]).value() == orig[t].value(),
{
    let m = M as int;
    let h = two_adic((M - 1) as nat);
    let g = least_power_2_generator(M);
    let f = values(c.fore@);
    let x = values(orig);
    lemma_generator_facts::<M>();
    crate::arith::lemma_two_adic_bound((M - 1) as nat, l);
    lemma_transform_evaluates(m, g, h, f, x, l);
    assert forall|t: int| 0 <= t < pow2(l) implies (#[trigger] fin[t]).value() == poly_eval(x.subrange(0, pow2(l) as int), ntt_point(M, t)) % m by {
        assert(values(fin)[t] == fin[t].value());
        crate::arith::lemma_redc_mod(m, fin[t].rep() as int);
        lemma_small_mod(fin[t].value() as nat, M as nat);
    }
    assert forall|t: int| pow2(l) <= t < orig.len() implies (#[trigger] fin[t]).value() == orig[t].value() by {
        lemma_fwd_levels_tail(m, f, x, l, l, t);
        assert(values(fin)[t] == fin[t].value());
    }
}

/// The levels of a transform of length `2^l <= n < 2^(l + 1)` give the transform.
pub proof fn lemma_transform_facts<const M: u128>(
    c: ButterflyCache<StaticModInt<M>>,
    orig: Seq<StaticModInt<M>>,
    fin: Seq<StaticModInt<M>>,
    l: nat,
)
    requires
        ntt_ready(M),
        is_butterfly_table(c),
        fin.len() == orig.len(),
        l >= 1,
        pow2(l) <= orig.len() < 2 * pow2(l),
        values(fin) == fwd_levels(M as int, values(c.fore@), values(orig), l, l),
    ensures
        is_transform(orig, fin),
{
    lemma_pow2_unfold(l + 1);
    assert forall|l2: nat| #![trigger pow2(l2)]
        pow2(l2) <= orig.len() < pow2(l2 + 1) && (M - 1) as nat % pow2(l2) == 0 implies {
            &&& forall|t: int| 0 <= t < pow2(l2) ==> (#[trigger] fin[t]).value() == poly_eval(
                values(orig).subrange(0, pow2(l2) as int),
                ntt_point(M, t),
            ) % (M as int)
            &&& forall|t: int| pow2(l2) <= t < orig.len() ==> (#[trigger] fin[t]).value() == orig[t].value()
        } by {
        lemma_floor_log_unique(orig.len(), l, l2);
        lemma_transform_at(c, orig, fin, l);
    }
}

/// One inverse level: each block `s < w` of width `2 p` takes its halves `(u, v)` to
/// `(u + v, (u - v) d)`, `d` the twiddle factor of `s` from the table `b`; the rest is
/// unchanged.
pub open spec fn inv_level(m: int, b: Seq<int>, y: Seq<int>, w: nat, p: nat) -> Seq<int> {
    Seq::new(
        y.len(),
        |k: int|
            if 0 < p && k < w * (2 * p) {
                let d = twiddle(m, b, (k / (2 * p as int)) as nat);
                if k % (2 * p as int) < p {
                    (y[k] + y[k + p]) % m
                } else {
                    ((y[k - p] - y[k]) * d) % m
                }
            } else {
                y[k]
            },
    )
}

/// The inverse levels `l - 1` down to `j` of a transform of length `2^l`: level `i` has
/// `2^i` blocks of width `2^(l - i)`.
pub open spec fn inv_from(m: int, b: Seq<int>, y: Seq<int>, l: nat, j: nat) -> Seq<int>
    decreases l - j,
{
    if j >= l {
        y
    } else {
        inv_level(m, b, inv_from(m, b, y, l, j + 1), pow2(j), pow2((l - 1 - j) as nat))
    }
}

/// With `g ig = 1`, the powers `g^e` and `ig^e` are inverse.
proof fn lemma_power_pair(m: int, g: int, ig: int, e: nat)
    requires
        m > 1,
        (g * ig) % m == 1,
    ensures
        ((pow(g, e) % m) * (pow(ig, e) % m)) % m == 1,
{
    lemma_mul_mod_noop(pow(g, e), pow(ig, e), m);
    lemma_pow_distributes(g, ig, e);
    lemma_pow_mod_noop(g * ig, e, m);
    lemma1_pow(e);
    lemma_small_mod(1, m as nat);
}

/// Tables built from `g` and from its inverse `ig` give inverse twiddle factors.
pub proof fn lemma_twiddle_inverse(m: int, g: int, ig: int, h: nat, f: Seq<int>, b: Seq<int>, s: nat)
    requires
        m > 1,
        h >= 1,
        (g * ig) % m == 1,
        forall|i: int| 0 <= i < h - 1 ==> #[trigger] f[i] == (0 - (pow(g, pow2((h - i - 1) as nat)) % m) * (pow(
            g,
            pow2((h - i - 2) as nat),
        ) % m)) % m,
        forall|i: int| 0 <= i < h - 1 ==> #[trigger] b[i] == (0 - (pow(ig, pow2((h - i - 1) as nat)) % m) * (pow(
            ig,
            pow2((h - i - 2) as nat),
        ) % m)) % m,
        s < pow2((h - 1) as nat),
    ensures
        (twiddle(m, f, s) * twiddle(m, b, s)) % m == 1,
    decreases s,
{
    if s == 0 {
        lemma_small_mod(1, m as nat);
    } else {
        let s0 = (s - 1) as nat;
        lemma_twiddle_inverse(m, g, ig, h, f, b, s0);
        lemma_bit_rev_step((h - 1) as nat, s0);
        let t = ones_below(s0);
        let e1 = pow2((h - t - 1) as nat);
        let e2 = pow2((h - t - 2) as nat);
        let r1 = pow(g, e1) % m;
        let r2 = pow(g, e2) % m;
        let q1 = pow(ig, e1) % m;
        let q2 = pow(ig, e2) % m;
        lemma_power_pair(m, g, ig, e1);
        lemma_power_pair(m, g, ig, e2);
        let tf = twiddle(m, f, s0);
        let tb = twiddle(m, b, s0);
        let ft = f[t as int];
        let bt = b[t as int];
        // ft bt = (r1 r2)(q1 q2) = (r1 q1)(r2 q2) = 1
        lemma_mul_mod_noop(0 - r1 * r2, 0 - q1 * q2, m);
        assert((0 - r1 * r2) * (0 - q1 * q2) == (r1 * q1) * (r2 * q2)) by (nonlinear_arith);
        lemma_mul_mod_noop(r1 * q1, r2 * q2, m);
        lemma_small_mod(1, m as nat);
        assert(ft == (0 - r1 * r2) % m);
        assert(bt == (0 - q1 * q2) % m);
        assert((ft * bt) % m == 1);
        // (tf ft)(tb bt) = (tf tb)(ft bt)
        lemma_mul_mod_noop(tf * ft, tb * bt, m);
        assert((tf * ft) * (tb * bt) == (tf * tb) * (ft * bt)) by (nonlinear_arith);
        lemma_mul_mod_noop(tf * tb, ft * bt, m);
        lemma_mul_basics(1int);
    }
}

/// A unit is coprime to the modulus.
pub proof fn lemma_unit_coprime(x: nat, y: int, m: nat)
    requires
        m > 1,
        (x * y) % (m as int) == 1,
    ensures
        spec_gcd(x, m) == 1,
{
    let d = spec_gcd(x, m);
    crate::arith::lemma_gcd_divides(x, m);
    let q = (x * y) / (m as int);
    lemma_fundamental_div_mod(x * y, m as int);
    lemma_mul_mod_noop_left(x as int, y, d as int);
    lemma_mul_mod_noop_left(m as int, q, d as int);
    lemma_small_mod(0, d);
    lemma_mul_basics(y);
    lemma_mul_basics(q);
    assert((x * y) % (d as int) == 0);
    assert((m as int * q) % (d as int) == 0);
    lemma_sub_mod_noop(x * y, m as int * q, d as int);
    assert(1int % (d as int) == 0);
    crate::arith::lemma_divisor_le(d as int, 1);
}

/// One inverse butterfly undoes one forward butterfly up to a factor `2`: from
/// `z1 = c (xl + xh d)` and `z2 = c (xl - xh d)`, with `d d' = 1`, it recovers `2 c xl` and
/// `2 c xh`.
proof fn lemma_inv_pair(m: int, c: int, xl: int, xh: int, d: int, dp: int, z1: int, z2: int)
    requires
        m > 1,
        z1 % m == (c * ((xl + xh * d) % m)) % m,
        z2 % m == (c * ((xl - xh * d) % m)) % m,
        (d * dp) % m == 1,
    ensures
        (z1 + z2) % m == (2 * c * xl) % m,
        ((z1 - z2) * dp) % m == (2 * c * xh) % m,
{
    let y1 = xl + xh * d;
    let y2 = xl - xh * d;
    lemma_mul_mod_noop_right(c, y1, m);
    lemma_mul_mod_noop_right(c, y2, m);
    lemma_add_mod_noop(z1, z2, m);
    lemma_add_mod_noop(c * y1, c * y2, m);
    assert(c * y1 + c * y2 == 2 * c * xl) by (nonlinear_arith)
        requires
            y1 == xl + xh * d,
            y2 == xl - xh * d,
    ;
    lemma_sub_mod_noop(z1, z2, m);
    lemma_sub_mod_noop(c * y1, c * y2, m);
    assert(c * y1 - c * y2 == (2 * c * xh) * d) by (nonlinear_arith)
        requires
            y1 == xl + xh * d,
            y2 == xl - xh * d,
    ;
    lemma_mul_mod_noop_left(z1 - z2, dp, m);
    lemma_mul_mod_noop_left((2 * c * xh) * d, dp, m);
    assert(((2 * c * xh) * d) * dp == (2 * c * xh) * (d * dp)) by (nonlinear_arith);
    lemma_mul_mod_noop_right(2 * c * xh, d * dp, m);
    lemma_mul_basics(2 * c * xh);
}

/// An inverse level applied to `c` times a forward level gives `2 c` times its input, on
/// the blocks, when the twiddle factors of the two tables are inverse.
pub proof fn lemma_inv_level_scaled(m: int, f: Seq<int>, b: Seq<int>, x: Seq<int>, z: Seq<int>, w: nat, p: nat, c: int)
    requires
        m > 1,
        p > 0,
        w * (2 * p) <= x.len(),
        z.len() == x.len(),
        forall|s: nat| s < w ==> (#[trigger] twiddle(m, f, s) * twiddle(m, b, s)) % m == 1,
        forall|k: int| 0 <= k < w * (2 * p) ==> #[trigger] z[k] % m == (c * fwd_level(m, f, x, w, p)[k]) % m,
    ensures
        inv_level(m, b, z, w, p).len() == z.len(),
        forall|k: int| 0 <= k < w * (2 * p) ==> #[trigger] inv_level(m, b, z, w, p)[k] % m == (2 * c * x[k]) % m,
        forall|k: int| w * (2 * p) <= k < z.len() ==> #[trigger] inv_level(m, b, z, w, p)[k] == z[k],
{
    let y = fwd_level(m, f, x, w, p);
    let v = inv_level(m, b, z, w, p);
    assert forall|k: int| 0 <= k < w * (2 * p) implies #[trigger] v[k] % m == (2 * c * x[k]) % m by {
        let q = 2 * p as int;
        let s = k / q;
        let i = k % q;
        lemma_fundamental_div_mod(k, q);
        lemma_div_pos_is_pos(k, q);
        assert(s < w) by {
            if s >= w {
                lemma_mul_inequality(w as int, s, q);
                lemma_mul_is_commutative(s, q);
            }
        }
        let d = twiddle(m, f, s as nat);
        let dp = twiddle(m, b, s as nat);
        assert((d * dp) % m == 1);
        let k0 = if i < p { k } else { k - p };
        lemma_mul_is_commutative(s, q);
        lemma_mod_bound(k, q);
        assert((s + 1) * q <= w * q) by (nonlinear_arith)
            requires
                s < w,
                q > 0,
        ;
        lemma_block_index(s, p as int, k0 - s * q);
        lemma_block_index(s, p as int, k0 - s * q + p);
        assert(w * (2 * p) == w * q);
        assert((s + 1) * q == s * q + q) by (nonlinear_arith);
        assert(k0 + p < w * (2 * p));
        assert(z[k0] % m == (c * y[k0]) % m);
        assert(z[k0 + p] % m == (c * y[k0 + p]) % m);
        lemma_inv_pair(m, c, x[k0], x[k0 + p], d, dp, z[k0], z[k0 + p]);
        lemma_mod_twice((z[k0] + z[k0 + p]), m);
        lemma_mod_twice(((z[k0] - z[k0 + p]) * dp), m);
    }
}

/// The inverse levels from `l - 1` down to `j`, applied to a sequence that agrees modulo `m`
/// with the forward transform of `x`, give `2^(l - j)` times the first `j` forward levels of `x`.
pub proof fn lemma_inv_from_scaled(m: int, f: Seq<int>, b: Seq<int>, x: Seq<int>, z: Seq<int>, l: nat, j: nat)
    requires
        m > 1,
        l >= 1,
        j <= l,
        x.len() >= pow2(l),
        z.len() == x.len(),
        forall|s: nat| s < pow2((l - 1) as nat) ==> (#[trigger] twiddle(m, f, s) * twiddle(m, b, s)) % m == 1,
        forall|k: int| 0 <= k < pow2(l) ==> #[trigger] z[k] % m == fwd_levels(m, f, x, l, l)[k] % m,
    ensures
        inv_from(m, b, z, l, j).len() == z.len(),
        forall|k: int| 0 <= k < pow2(l) ==> #[trigger] inv_from(m, b, z, l, j)[k] % m == (pow2((l - j) as nat) * fwd_levels(
            m,
            f,
            x,
            l,
            j,
        )[k]) % m,
    decreases l - j,
{
    if j == l {
        lemma2_to64();
        assert forall|k: int| 0 <= k < pow2(l) implies #[trigger] inv_from(m, b, z, l, j)[k] % m == (pow2((l - j) as nat)
            * fwd_levels(m, f, x, l, j)[k]) % m by {
            lemma_mul_basics(fwd_levels(m, f, x, l, j)[k]);
        }
    } else {
        lemma_inv_from_scaled(m, f, b, x, z, l, j + 1);
        let xj = fwd_levels(m, f, x, l, j);
        let zz = inv_from(m, b, z, l, j + 1);
        let w = pow2(j);
        let p = pow2((l - 1 - j) as nat);
        let c = pow2((l - j - 1) as nat);
        lemma_fwd_levels_len(m, f, x, l, j);
        lemma_pow2_unfold((l - j) as nat);
        lemma_pow2_adds(j, (l - j) as nat);
        lemma_pow2_pos((l - 1 - j) as nat);
        assert(w * (2 * p) == pow2(l));
        assert forall|s: nat| s < w implies (#[trigger] twiddle(m, f, s) * twiddle(m, b, s)) % m == 1 by {
            if j < l - 1 {
                lemma_pow2_strictly_increases(j, (l - 1) as nat);
            }
        }
        assert(fwd_levels(m, f, x, l, j + 1) == fwd_level(m, f, xj, w, p));
        lemma_inv_level_scaled(m, f, b, xj, zz, w, p, c as int);
        assert forall|k: int| 0 <= k < pow2(l) implies #[trigger] inv_from(m, b, z, l, j)[k] % m == (pow2((l - j) as nat)
            * xj[k]) % m by {
            assert(2 * c * xj[k] == pow2((l - j) as nat) * xj[k]);
        }
    }
}

/// The inverse levels of a transform of length `2^l` leave the entries from `2^l` on alone.
pub proof fn lemma_inv_from_tail(m: int, b: Seq<int>, y: Seq<int>, l: nat, j: nat, k: int)
    requires
        j <= l,
        pow2(l) <= k < y.len(),
    ensures
        inv_from(m, b, y, l, j).len() == y.len(),
        inv_from(m, b, y, l, j)[k] == y[k],
    decreases l - j,
{
    if j < l {
        lemma_inv_from_tail(m, b, y, l, j + 1, k);
        lemma_pow2_unfold((l - j) as nat);
        lemma_pow2_adds(j, (l - j) as nat);
        assert(pow2(j) * (2 * pow2((l - 1 - j) as nat)) == pow2(l));
    }
}

/// The values of the polynomial with coefficients `x` at the points of the transform of
/// length `x.len()` are `vals[..x.len()]`.
pub open spec fn evaluates_at_points<const M: u128>(vals: Seq<StaticModInt<M>>, x: Seq<int>) -> bool {
    forall|t: int| 0 <= t < x.len() ==> #[trigger] vals[t].value() == poly_eval(x, ntt_point(M, t)) % (M as int)
}

/// `fin` is the inverse transform of `orig`: where `2^l <= n = orig.len() < 2^(l + 1)` and
/// `2^l` divides `M - 1`, for every polynomial `x` with `2^l` coefficients whose values at the
/// points of the transform are `orig[..2^l]`, entry `k < 2^l` is `2^l x[k]`, divided by `n`
/// when `divide_n` (so `x[k]` itself when `n = 2^l`); the entries from `2^l` on are kept,
/// divided by `n` when `divide_n`.
pub open spec fn is_inverse_transform<const M: u128>(orig: Seq<StaticModInt<M>>, fin: Seq<StaticModInt<M>>, divide_n: bool) -> bool {
    let n = orig.len() as int;
    let m = M as int;
    forall|l: nat| #![trigger pow2(l)]
        pow2(l) <= orig.len() < pow2(l + 1) && (M - 1) as nat % pow2(l) == 0 ==> {
            &&& forall|x: Seq<int>| x.len() == pow2(l) && #[trigger] evaluates_at_points(orig, x) ==> forall|k: int|
                0 <= k < pow2(l) ==> {
                    &&& !divide_n ==> (#[trigger] fin[k]).value() == (pow2(l) * x[k]) % m
                    &&& divide_n ==> (fin[k].value() * (n % m)) % m == (pow2(l) * x[k]) % m
                    &&& divide_n && n == pow2(l) ==> fin[k].value() == x[k] % m
                }
            &&& forall|k: int| pow2(l) <= k < n ==> {
                &&& !divide_n ==> (#[trigger] fin[k]).value() == orig[k].value()
                &&& divide_n ==> (fin[k].value() * (n % m)) % m == orig[k].value()
            }
        }
}

/// `g` is a unit modulo `M`: `g * (g^(2^(h-1) - 1) (M - 1)) = 1`.
proof fn lemma_generator_coprime<const M: u128>()
    requires
        valid_modulus(M),
        M >= 3,
        has_power_2_generator(M),
    ensures
        spec_gcd(least_power_2_generator(M) as nat, M as nat) == 1,
{
    let m = M as int;
    let h = two_adic((M - 1) as nat);
    let g = least_power_2_generator(M);
    lemma_generator_facts::<M>();
    lemma_least_generator_exists(M);
    let e = pow2((h - 1) as nat);
    lemma_pow2_pos((h - 1) as nat);
    lemma_pow_adds(g, 1, (e - 1) as nat);
    lemma_pow1(g);
    let y = pow(g, (e - 1) as nat) * (m - 1);
    assert(g * y == pow(g, e) * (m - 1)) by (nonlinear_arith)
        requires
            pow(g, e) == g * pow(g, (e - 1) as nat),
            y == pow(g, (e - 1) as nat) * (m - 1),
    ;
    lemma_mul_mod_noop_left(pow(g, e), m - 1, m);
    assert((m - 1) * (m - 1) == m * (m - 2) + 1) by (nonlinear_arith);
    lemma_mod_multiples_vanish(m - 2, 1, m);
    lemma_small_mod(1, m as nat);
    assert((pow(g, e) * (m - 1)) % m == ((m - 1) * (m - 1)) % m);
    assert((g * y) % m == 1);
    assert((g as nat) as int == g);
    lemma_unit_coprime(g as nat, y, M as nat);
}

/// The twiddle factors of the backward table are inverse to those of the forward table `f`
/// built from the least generator.
#[verifier::spinoff_prover]
#[verifier::rlimit(40)]
proof fn lemma_back_twiddles<const M: u128>(c: ButterflyCache<StaticModInt<M>>, l: nat, f: Seq<int>)
    requires
        valid_modulus(M),
        M >= 3,
        has_power_2_generator(M),
        is_butterfly_table(c),
        1 <= l <= two_adic((M - 1) as nat),
        forall|i: int| 0 <= i < two_adic((M - 1) as nat) - 1 ==> #[trigger] f[i] == (0 - (pow(
            least_power_2_generator(M),
            pow2((two_adic((M - 1) as nat) - i - 1) as nat),
        ) % (M as int)) * (pow(least_power_2_generator(M), pow2((two_adic((M - 1) as nat) - i - 2) as nat)) % (M as int)))
            % (M as int),
    ensures
        forall|s: nat| s < pow2((l - 1) as nat) ==> (#[trigger] twiddle(M as int, f, s) * twiddle(M as int, values(c.back@), s))
            % (M as int) == 1,
{
    let m = M as int;
    let h = two_adic((M - 1) as nat);
    let g = least_power_2_generator(M);
    let b = values(c.back@);
    lemma_generator_facts::<M>();
    lemma_generator_coprime::<M>();
    let ig = choose|ig: int| {
        &&& #[trigger] is_inverse_mod(M, g, ig)
        &&& forall|i: int| 0 <= i < h - 1 ==> (#[trigger] c.back@[i]).value() == (0 - root_value(M, ig, (h - i - 1) as nat)
            * root_value(M, ig, (h - i - 2) as nat)) % (M as int)
    };
    assert(c.back@.len() == 128);
    assert forall|i: int| 0 <= i < h - 1 implies #[trigger] b[i] == (0 - (pow(ig, pow2((h - i - 1) as nat)) % m) * (pow(
        ig,
        pow2((h - i - 2) as nat),
    ) % m)) % m by {
        assert(b[i] == c.back@[i].value());
    }
    assert forall|s: nat| s < pow2((l - 1) as nat) implies (#[trigger] twiddle(m, f, s) * twiddle(m, b, s)) % m == 1 by {
        if l - 1 < h - 1 {
            lemma_pow2_strictly_increases((l - 1) as nat, (h - 1) as nat);
        }
        lemma_twiddle_inverse(m, g, ig, h, f, b, s);
    }
}

/// The inverse levels recover `2^l` times a polynomial `x` from its values at the points
/// `g^bit_rev(h, k)`.
proof fn lemma_inverse_core(m: int, g: int, h: nat, f: Seq<int>, b: Seq<int>, z: Seq<int>, x: Seq<int>, l: nat)
    requires
        m > 1,
        1 <= l <= h,
        pow(g, pow2((h - 1) as nat)) % m == m - 1,
        forall|i: int| 0 <= i < h - 1 ==> #[trigger] f[i] == (0 - (pow(g, pow2((h - i - 1) as nat)) % m) * (pow(
            g,
            pow2((h - i - 2) as nat),
        ) % m)) % m,
        forall|s: nat| s < pow2((l - 1) as nat) ==> (#[trigger] twiddle(m, f, s) * twiddle(m, b, s)) % m == 1,
        z.len() >= pow2(l),
        x.len() == pow2(l),
        forall|k: int| 0 <= k < pow2(l) ==> #[trigger] z[k] == poly_eval(x, pow(g, bit_rev(h, k as nat)) % m) % m,
    ensures
        forall|k: int| 0 <= k < pow2(l) ==> #[trigger] inv_from(m, b, z, l, 0)[k] % m == (pow2(l) * x[k]) % m,
{
    let n = z.len();
    let x2 = x + Seq::new((n - pow2(l)) as nat, |i: int| 0int);
    assert(x2.subrange(0, pow2(l) as int) =~= x);
    lemma_transform_evaluates(m, g, h, f, x2, l);
    assert forall|k: int| 0 <= k < pow2(l) implies #[trigger] z[k] % m == fwd_levels(m, f, x2, l, l)[k] % m by {
        lemma_mod_twice(poly_eval(x, pow(g, bit_rev(h, k as nat)) % m), m);
    }
    lemma_inv_from_scaled(m, f, b, x2, z, l, 0);
    assert forall|k: int| 0 <= k < pow2(l) implies #[trigger] inv_from(m, b, z, l, 0)[k] % m == (pow2(l) * x[k]) % m by {
        assert(x2[k] == x[k]);
    }
}

/// The inverse levels recover `2^l` times any polynomial `x` whose values at the points are
/// the first `2^l` entries.
proof fn lemma_inverse_at<const M: u128>(c: ButterflyCache<StaticModInt<M>>, orig: Seq<StaticModInt<M>>, l: nat, x: Seq<int>)
    requires
        valid_modulus(M),
        M >= 3,
        has_power_2_generator(M),
        is_butterfly_table(c),
        l >= 1,
        pow2(l) <= orig.len(),
        (M - 1) as nat % pow2(l) == 0,
        x.len() == pow2(l),
        evaluates_at_points(orig, x),
    ensures
        forall|k: int| 0 <= k < pow2(l) ==> #[trigger] inv_from(M as int, values(c.back@), values(orig), l, 0)[k] % (M as int)
            == (pow2(l) * x[k]) % (M as int),
{
    let m = M as int;
    let h = two_adic((M - 1) as nat);
    let g = least_power_2_generator(M);
    let z = values(orig);
    lemma_generator_facts::<M>();
    crate::arith::lemma_two_adic_bound((M - 1) as nat, l);
    let f = Seq::new(128, |i: int| (0 - (pow(g, pow2((h - i - 1) as nat)) % m) * (pow(g, pow2((h - i - 2) as nat)) % m)) % m);
    lemma_back_twiddles(c, l, f);
    assert forall|k: int| 0 <= k < pow2(l) implies #[trigger] z[k] == poly_eval(x, pow(g, bit_rev(h, k as nat)) % m) % m by {
        assert(z[k] == orig[k].value());
        assert(orig[k].value() == poly_eval(x, ntt_point(M, k)) % m);
    }
    lemma_inverse_core(m, g, h, f, values(c.back@), z, x, l);
}

/// The inverse levels, followed by the division by the length when `divide_n`, give the
/// inverse transform.
pub proof fn lemma_inverse_facts<const M: u128>(
    c: ButterflyCache<StaticModInt<M>>,
    orig: Seq<StaticModInt<M>>,
    mid: Seq<StaticModInt<M>>,
    fin: Seq<StaticModInt<M>>,
    l: nat,
    divide_n: bool,
)
    requires
        ntt_ready(M),
        is_butterfly_table(c),
        l >= 1,
        pow2(l) <= orig.len() < 2 * pow2(l),
        mid.len() == orig.len(),
        fin.len() == orig.len(),
        values(mid) == inv_from(M as int, values(c.back@), values(orig), l, 0),
        !divide_n ==> fin == mid,
        divide_n ==> forall|k: int| 0 <= k < orig.len() ==> (#[trigger] fin[k]).value() * (orig.len() as int % M as int) % (
        M as int) == mid[k].value(),
        divide_n ==> exists|ni: int| {
            &&& #[trigger] is_inverse_mod(M, orig.len() as int % M as int, ni)
            &&& forall|k: int| 0 <= k < orig.len() ==> (#[trigger] fin[k]).value() == (mid[k].value() * ni) % (M as int)
        },
    ensures
        is_inverse_transform(orig, fin, divide_n),
{
    let m = M as int;
    let n = orig.len() as int;
    let b = values(c.back@);
    let z = values(orig);
    lemma_pow2_unfold(l + 1);
    assert forall|l2: nat| #![trigger pow2(l2)]
        pow2(l2) <= orig.len() < pow2(l2 + 1) && (M - 1) as nat % pow2(l2) == 0 implies {
            &&& forall|x: Seq<int>| x.len() == pow2(l2) && #[trigger] evaluates_at_points(orig, x) ==> forall|k: int|
                0 <= k < pow2(l2) ==> {
                    &&& !divide_n ==> (#[trigger] fin[k]).value() == (pow2(l2) * x[k]) % m
                    &&& divide_n ==> (fin[k].value() * (n % m)) % m == (pow2(l2) * x[k]) % m
                    &&& divide_n && n == pow2(l2) ==> fin[k].value() == x[k] % m
                }
            &&& forall|k: int| pow2(l2) <= k < n ==> {
                &&& !divide_n ==> (#[trigger] fin[k]).value() == orig[k].value()
                &&& divide_n ==> (fin[k].value() * (n % m)) % m == orig[k].value()
            }
        } by {
        lemma_floor_log_unique(orig.len(), l, l2);
        assert forall|x: Seq<int>| x.len() == pow2(l) && #[trigger] evaluates_at_points(orig, x) implies forall|k: int|
            0 <= k < pow2(l) ==> {
                &&& !divide_n ==> (#[trigger] fin[k]).value() == (pow2(l) * x[k]) % m
                &&& divide_n ==> (fin[k].value() * (n % m)) % m == (pow2(l) * x[k]) % m
                &&& divide_n && n == pow2(l) ==> fin[k].value() == x[k] % m
            } by {
            lemma_inverse_at(c, orig, l, x);
            assert forall|k: int| 0 <= k < pow2(l) implies {
                &&& !divide_n ==> (#[trigger] fin[k]).value() == (pow2(l) * x[k]) % m
                &&& divide_n ==> (fin[k].value() * (n % m)) % m == (pow2(l) * x[k]) % m
                &&& divide_n && n == pow2(l) ==> fin[k].value() == x[k] % m
            } by {
                assert(values(mid)[k] == mid[k].value());
                crate::arith::lemma_redc_mod(m, mid[k].rep() as int);
                lemma_small_mod(mid[k].value() as nat, m as nat);
                assert(mid[k].value() == (pow2(l) * x[k]) % m);
                if divide_n && n == pow2(l) {
                    let ni = choose|ni: int| {
                        &&& #[trigger] is_inverse_mod(M, orig.len() as int % M as int, ni)
                        &&& forall|k: int| 0 <= k < orig.len() ==> (#[trigger] fin[k]).value() == (mid[k].value() * ni) % (M as int)
                    };
                    let xv = x[k];
                    lemma_mul_mod_noop_left(n * xv, ni, m);
                    assert((n * xv) * ni == xv * (n * ni)) by (nonlinear_arith);
                    lemma_mul_mod_noop_right(xv, n * ni, m);
                    lemma_mul_mod_noop_left(n, ni, m);
                    lemma_mul_basics(xv);
                }
            }
        }
        assert forall|k: int| pow2(l) <= k < n implies {
            &&& !divide_n ==> (#[trigger] fin[k]).value() == orig[k].value()
            &&& divide_n ==> (fin[k].value() * (n % m)) % m == orig[k].value()
        } by {
            lemma_inv_from_tail(m, b, z, l, 0, k);
            assert(values(mid)[k] == mid[k].value());
            assert(z[k] == orig[k].value());
        }
    }
}

/// A sequence of length at most one is its own inverse transform.
pub proof fn lemma_inverse_short<const M: u128>(orig: Seq<StaticModInt<M>>, divide_n: bool)
    requires
        valid_modulus(M),
        M >= 3,
        orig.len() <= 1,
    ensures
        is_inverse_transform(orig, orig, divide_n),
{
    let m = M as int;
    let n = orig.len() as int;
    lemma2_to64();
    lemma_small_mod(1, M as nat);
    assert forall|l: nat| #![trigger pow2(l)]
        pow2(l) <= orig.len() < pow2(l + 1) && (M - 1) as nat % pow2(l) == 0 implies {
            &&& forall|x: Seq<int>| x.len() == pow2(l) && #[trigger] evaluates_at_points(orig, x) ==> forall|k: int|
                0 <= k < pow2(l) ==> {
                    &&& !divide_n ==> (#[trigger] orig[k]).value() == (pow2(l) * x[k]) % m
                    &&& divide_n ==> (orig[k].value() * (n % m)) % m == (pow2(l) * x[k]) % m
                    &&& divide_n && n == pow2(l) ==> orig[k].value() == x[k] % m
                }
            &&& forall|k: int| pow2(l) <= k < n ==> {
                &&& !divide_n ==> (#[trigger] orig[k]).value() == orig[k].value()
                &&& divide_n ==> (orig[k].value() * (n % m)) % m == orig[k].value()
            }
        } by {
        if l > 0 {
            lemma_pow2_unfold(l);
            lemma_pow2_pos((l - 1) as nat);
        }
        assert(pow2(l) == 1 && n == 1);
        assert forall|x: Seq<int>| x.len() == pow2(l) && #[trigger] evaluates_at_points(orig, x) implies forall|k: int|
            0 <= k < pow2(l) ==> {
                &&& !divide_n ==> (#[trigger] orig[k]).value() == (pow2(l) * x[k]) % m
                &&& divide_n ==> (orig[k].value() * (n % m)) % m == (pow2(l) * x[k]) % m
                &&& divide_n && n == pow2(l) ==> orig[k].value() == x[k] % m
            } by {
            assert forall|k: int| 0 <= k < pow2(l) implies {
                &&& !divide_n ==> (#[trigger] orig[k]).value() == (pow2(l) * x[k]) % m
                &&& divide_n ==> (orig[k].value() * (n % m)) % m == (pow2(l) * x[k]) % m
                &&& divide_n && n == pow2(l) ==> orig[k].value() == x[k] % m
            } by {
                assert(k == 0);
                assert(x.drop_first().len() == 0);
                assert(poly_eval(x.drop_first(), ntt_point(M, 0)) == 0);
                assert(poly_eval(x, ntt_point(M, 0)) == x[0] + ntt_point(M, 0) * 0);
                assert(orig[0].value() == x[0] % m);
                lemma_mod_twice(x[0], m);
                lemma_mul_basics(x[0]);
                lemma_mul_basics(orig[0].value());
            }
        }
    }
}

/// Reversing `t < 2^l` in `h >= l` bits puts the reversal in `l` bits `h - l` places up.
pub proof fn lemma_bit_rev_scale(h: nat, l: nat, t: nat)
    requires
        l <= h,
        t < pow2(l),
    ensures
        bit_rev(h, t) == bit_rev(l, t) * pow2((h - l) as nat),
    decreases l,
{
    if l == 0 {
        lemma2_to64();
        lemma_bit_rev_zero(h);
        lemma_bit_rev_zero(0);
        lemma_mul_basics(pow2(h) as int);
    } else {
        lemma_pow2_unfold(l);
        lemma_bit_rev_scale((h - 1) as nat, (l - 1) as nat, t / 2);
        lemma_pow2_adds((l - 1) as nat, (h - l) as nat);
        let q = pow2((h - l) as nat);
        let r = bit_rev((l - 1) as nat, t / 2);
        assert((t % 2) * pow2((h - 1) as nat) + r * q == ((t % 2) * pow2((l - 1) as nat) + r) * q) by (nonlinear_arith)
            requires
                pow2((h - 1) as nat) == pow2((l - 1) as nat) * q,
        ;
    }
}

/// The points of a transform of length `2^l` dividing `M - 1` are `2^l`-th roots of one.
pub proof fn lemma_point_is_root<const M: u128>(l: nat, t: int)
    requires
        valid_modulus(M),
        M >= 3,
        has_power_2_generator(M),
        l <= two_adic((M - 1) as nat),
        0 <= t < pow2(l),
    ensures
        pow(ntt_point(M, t), pow2(l)) % (M as int) == 1,
{
    let m = M as int;
    let h = two_adic((M - 1) as nat);
    let g = least_power_2_generator(M);
    lemma_generator_facts::<M>();
    lemma_bit_rev_scale(h, l, t as nat);
    let e = bit_rev(l, t as nat);
    lemma_pow_mod_noop(pow(g, bit_rev(h, t as nat)), pow2(l), m);
    lemma_pow_multiplies(g, bit_rev(h, t as nat), pow2(l));
    lemma_pow2_adds((h - l) as nat, l);
    assert(bit_rev(h, t as nat) * pow2(l) == e * pow2(h)) by (nonlinear_arith)
        requires
            bit_rev(h, t as nat) == e * pow2((h - l) as nat),
            pow2(h) == pow2((h - l) as nat) * pow2(l),
    ;
    // g^(2^h) = (g^(2^(h-1)))^2 = 1
    lemma_pow2_unfold(h);
    lemma_pow_multiplies(g, pow2((h - 1) as nat), 2);
    let d = pow(g, pow2((h - 1) as nat));
    lemma_pow_mod_noop(d, 2, m);
    assert(pow(d % m, 2) == (d % m) * (d % m)) by {
        lemma_pow_adds(d % m, 1, 1);
        lemma_pow1(d % m);
    }
    assert((m - 1) * (m - 1) == m * (m - 2) + 1) by (nonlinear_arith);
    lemma_mod_multiples_vanish(m - 2, 1, m);
    lemma_small_mod(1, m as nat);
    assert(pow(g, pow2(h)) % m == 1);
    lemma_mul_is_commutative(e as int, pow2(h) as int);
    lemma_pow_multiplies(g, pow2(h), e);
    lemma_pow_mod_noop(pow(g, pow2(h)), e, m);
    lemma1_pow(e);
}

/// The inverse transform with division undoes the transform: for `a` of length `2^l`
/// dividing `M - 1`, `ntt_inv(ntt(a), true)` is `a`.
pub proof fn lemma_ntt_round_trip<const M: u128>(
    a: Seq<StaticModInt<M>>,
    b: Seq<StaticModInt<M>>,
    c: Seq<StaticModInt<M>>,
    l: nat,
)
    requires
        valid_modulus(M),
        a.len() == pow2(l),
        b.len() == a.len(),
        (M - 1) as nat % pow2(l) == 0,
        is_transform(a, b),
        is_inverse_transform(b, c, true),
    ensures
        forall|k: int| 0 <= k < a.len() ==> (#[trigger] c[k]).value() == a[k].value(),
{
    let x = values(a);
    lemma_pow2_unfold(l + 1);
    lemma_pow2_pos(l);
    assert(pow2(l) <= a.len() < pow2(l + 1));
    assert(x.subrange(0, pow2(l) as int) =~= x);
    assert(evaluates_at_points(b, x));
    assert forall|k: int| 0 <= k < a.len() implies (#[trigger] c[k]).value() == a[k].value() by {
        assert(c[k].value() == x[k] % (M as int));
        crate::arith::lemma_redc_mod(M as int, a[k].rep() as int);
        lemma_small_mod(a[k].value() as nat, M as nat);
    }
}

} // verus!
