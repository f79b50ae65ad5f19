//! Montgomery modular arithmetic on 128-bit words.
use vstd::prelude::*;
use vstd::arithmetic::div_mod::*;
use vstd::arithmetic::mul::*;
use vstd::arithmetic::power::*;
use vstd::std_specs::cmp::PartialEqSpecImpl;
use vstd::std_specs::ops::{AddSpecImpl, DivSpecImpl, MulSpecImpl, NegSpecImpl, SubSpecImpl};
use std::ops::{Add, Div, Mul, Neg, Sub};
use crate::arith::{
    half_radix, lemma_radix_is_pow, lemma_redc_product, lemma_redc_scaled_back, lemma_redc_unique,
    lemma_small_product, radix, redc, spec_gcd,
};
pub use crate::convolution::u128::{power_2_generator, ButterflyCache};

verus! {

/// Montgomery arithmetic modulo an odd `n < 2^127`, with radix `R = 2^128`.
///
/// A residue `x` is held as its Montgomery representation `rx = x * R mod n`.
#[derive(Debug, Clone, Copy)]
pub struct DynamicModInt {
    /// N, modulus
    pub n: u128,
    /// R^1 % N, where R := 2^128
    pub r1: u128,
    /// R^2 % N
    pub r2: u128,
    /// -(N^-1) % R
    pub n_: u128,
}

/// Greatest common divisor of `x` and `y` (`gcd(0, y) = y`).
pub fn gcd(x: u128, y: u128) -> (g: u128)
    ensures
        g == spec_gcd(x as nat, y as nat),
{
    let mut x = x;
    let mut y = y;
    let ghost x0 = x;
    let ghost y0 = y;
    while x != 0
        invariant
            spec_gcd(x as nat, y as nat) == spec_gcd(x0 as nat, y0 as nat),
        decreases x,
    {
        let r = y % x;
        y = x;
        x = r;
    }
    y
}

/// (g, x) s.t.
/// - g = gcd(a, b)
/// - a * x = g (mod b)
/// - 0 <= x < b/g
pub fn inv_gcd(a: u128, b: u128) -> (res: (u128, u128))
    requires
        0 < b < 0x8000_0000_0000_0000_0000_0000_0000_0000,
    ensures
        res.0 == spec_gcd((a % b) as nat, b as nat),
        res.0 > 0,
        res.1 < b / res.0,
        (a as int * res.1 as int) % (b as int) == (res.0 as int) % (b as int),
{
    let ghost bi = b as int;
    let ghost a_orig = a;
    let a = a % b;
    let ghost a_in = a;
    // invariants:
    // [1] a0 = a1 * a (mod b)
    // [2] b0 = b1 * a (mod b)
    // [3] a0 * |b1| + b0 * |a1| <= b
    let mut a0: u128 = a;
    let mut a1: i128 = 1;
    let mut b0: u128 = b;
    let mut b1: i128 = 0;
    let ghost mut prev: int = a as int + 2 * bi;
    proof {
        lemma_mod_bound(a as int, bi);
        lemma_mod_add_multiples_vanish(a as int, bi);
        lemma_mod_add_multiples_vanish(a as int + bi, bi);
        assert(abs(0) == 0 && abs(1) == 1);
        assert(a as int * abs(0) + bi * abs(1) == bi);
        lemma_small_mod(a as nat, b as nat);
        lemma_mul_basics(a as int);
        lemma_small_mod(0, b as nat);
    }
    while a0 > 0
        invariant
            0 < b0 <= b,
            a0 < b0,
            b == bi,
            0 < bi < 0x8000_0000_0000_0000_0000_0000_0000_0000,
            a_in < b,
            spec_gcd(a0 as nat, b0 as nat) == spec_gcd(a_in as nat, b as nat),
            (a1 as int * a_in as int) % bi == (a0 as int) % bi,
            (b1 as int * a_in as int) % bi == (b0 as int) % bi,
            a0 as int * abs(b1 as int) + b0 as int * abs(a1 as int) <= bi,
            prev > b0,
            prev * abs(b1 as int) <= bi,
            a0 as int == prev % (b0 as int),
        decreases a0,
    {
        let q = b0 / a0;
        proof {
            lemma_fundamental_div_mod(b0 as int, a0 as int);
            lemma_mod_bound(b0 as int, a0 as int);
        }
        let r = b0 - a0 * q;
        proof {
            lemma_inv_gcd_step(bi, a_in as int, a0 as int, a1 as int, b0 as int, b1 as int, q as int, r as int);
        }
        let na1 = b1 - a1 * (q as i128);
        proof {
            prev = b0 as int;
        }
        b0 = a0;
        b1 = a1;
        a0 = r;
        a1 = na1;
    }
    let g = b0;
    let x = b1;
    proof {
        lemma_inv_gcd_final(bi, a_in as int, g as int, x as int, prev);
    }
    let xr: u128 = if x >= 0 {
        x as u128
    } else {
        (x + (b / g) as i128) as u128
    };
    proof {
        lemma_mul_mod_noop_left(a_orig as int, xr as int, bi);
    }
    (g, xr)
}

spec fn abs(x: int) -> int {
    if x < 0 { -x } else { x }
}

/// One step of the extended Euclidean algorithm keeps its invariants.
proof fn lemma_inv_gcd_step(b: int, a: int, a0: int, a1: int, b0: int, b1: int, q: int, r: int)
    requires
        0 < b < 0x8000_0000_0000_0000_0000_0000_0000_0000,
        0 <= a < b,
        0 < a0 < b0 <= b,
        q == b0 / a0,
        r == b0 - a0 * q,
        (a1 * a) % b == a0 % b,
        (b1 * a) % b == b0 % b,
        a0 * abs(b1) + b0 * abs(a1) <= b,
    ensures
        r == b0 % a0,
        0 <= r < a0,
        0 <= q <= b0,
        abs(a1 * q) <= b,
        abs(b1) <= b,
        abs(b1 - a1 * q) <= b,
        ((b1 - a1 * q) * a) % b == r % b,
        r * abs(a1) + a0 * abs(b1 - a1 * q) <= b,
        b0 * abs(a1) <= b,
{
    lemma_fundamental_div_mod(b0, a0);
    lemma_mod_bound(b0, a0);
    lemma_div_pos_is_pos(b0, a0);
    lemma_div_is_ordered_by_denominator(b0, 1, a0);
    lemma_div_by_one_helper(b0);
    // |a1 q| <= b0 |a1| <= b since q <= b0
    assert(abs(a1 * q) == abs(a1) * q) by (nonlinear_arith)
        requires
            q >= 0,
    ;
    assert(abs(a1) * q <= abs(a1) * b0) by (nonlinear_arith)
        requires
            0 <= q <= b0,
    ;
    assert(b0 * abs(a1) <= b) by (nonlinear_arith)
        requires
            a0 * abs(b1) + b0 * abs(a1) <= b,
            a0 > 0,
    ;
    lemma_mul_is_commutative(abs(a1), b0);
    assert(abs(b1) <= b) by (nonlinear_arith)
        requires
            a0 * abs(b1) + b0 * abs(a1) <= b,
            a0 > 0,
            b0 > 0,
    ;
    assert(abs(b1 - a1 * q) <= abs(b1) + abs(a1) * q) by (nonlinear_arith)
        requires
            q >= 0,
    ;
    assert(r * abs(a1) + a0 * (abs(b1) + abs(a1) * q) == a0 * abs(b1) + b0 * abs(a1)) by (nonlinear_arith)
        requires
            r == b0 - a0 * q,
    ;
    assert(r * abs(a1) + a0 * abs(b1 - a1 * q) <= b) by (nonlinear_arith)
        requires
            r * abs(a1) + a0 * (abs(b1) + abs(a1) * q) <= b,
            abs(b1 - a1 * q) <= abs(b1) + abs(a1) * q,
            a0 > 0,
    ;
    assert(abs(b1 - a1 * q) <= b) by (nonlinear_arith)
        requires
            r * abs(a1) + a0 * abs(b1 - a1 * q) <= b,
            r >= 0,
            a0 > 0,
    ;
    // Bezout: (b1 - a1 q) a = b1 a - q (a1 a) = b0 - q a0 = r (mod b)
    assert((b1 - a1 * q) * a == b1 * a - q * (a1 * a)) by (nonlinear_arith);
    lemma_sub_mod_noop(b1 * a, q * (a1 * a), b);
    lemma_mul_mod_noop_right(q, a1 * a, b);
    lemma_mul_mod_noop_right(q, a0, b);
    lemma_sub_mod_noop(b0, q * a0, b);
    lemma_mul_is_commutative(q, a0);
}

proof fn lemma_div_by_one_helper(x: int)
    ensures
        x / 1 == x,
{
}

/// The final coefficient of the extended Euclidean algorithm is small enough to normalize.
proof fn lemma_inv_gcd_final(b: int, a: int, g: int, x: int, prev: int)
    requires
        0 < b < 0x8000_0000_0000_0000_0000_0000_0000_0000,
        0 <= a < b,
        0 < g <= b,
        g == spec_gcd(a as nat, b as nat),
        (x * a) % b == g % b,
        prev > g,
        prev * abs(x) <= b,
        prev % g == 0,
    ensures
        g <= b,
        b / g >= 1,
        -(b / g) <= x < b / g,
        x < 0 ==> 0 <= x + b / g < b / g,
        x >= 0 ==> 0 <= x < b / g,
        ({
            let xr = if x >= 0 { x } else { x + b / g };
            (a * xr) % b == g % b
        }),
{
    crate::arith::lemma_gcd_divides(a as nat, b as nat);
    lemma_fundamental_div_mod(b, g);
    lemma_fundamental_div_mod(a, g);
    lemma_fundamental_div_mod(prev, g);
    let k = b / g;
    // prev >= 2 g
    assert(prev >= 2 * g) by {
        let pq = prev / g;
        assert(prev == g * pq);
        if pq <= 1 {
            lemma_mul_left_inequality(g, pq, 1);
            assert(false);
        }
        lemma_mul_left_inequality(g, 2, pq);
    }
    assert(k >= 1) by {
        if k <= 0 {
            lemma_mul_left_inequality(g, k, 0);
            assert(false);
        }
    }
    assert(2 * g * abs(x) <= b) by (nonlinear_arith)
        requires
            prev >= 2 * g,
            prev * abs(x) <= b,
            g > 0,
    ;
    assert(abs(x) <= k) by (nonlinear_arith)
        requires
            2 * g * abs(x) <= b,
            b == g * k,
            g > 0,
    ;
    if x >= 0 {
        assert(x < k) by (nonlinear_arith)
            requires
                2 * g * x <= b,
                b == g * k,
                g > 0,
                x >= 0,
                k >= 1,
        ;
        lemma_mul_is_commutative(x, a);
    } else {
        // a (x + k) = a x + (a / g) b = a x (mod b)
        assert(a * (x + k) == a * x + (a / g) * b) by (nonlinear_arith)
            requires
                a == g * (a / g),
                b == g * k,
        ;
        lemma_mod_multiples_vanish(a / g, a * x, b);
        lemma_mul_is_commutative(a / g, b);
        lemma_mul_is_commutative(x, a);
    }
}

/// One step of square-and-multiply.
proof fn lemma_pow_square_step(a: int, b: int, e: nat, odd: bool)
    requires
        e > 0,
        odd == (e % 2 == 1),
    ensures
        (if odd { a * b } else { a }) * pow(b * b, e / 2) == a * pow(b, e),
{
    lemma_square_is_pow2(b);
    lemma_pow_multiplies(b, 2, e / 2);
    if odd {
        lemma_pow_adds(b, 2 * (e / 2), 1);
        lemma_pow1(b);
        assert(e == 2 * (e / 2) + 1);
        assert((a * b) * pow(b, 2 * (e / 2)) == a * (pow(b, 2 * (e / 2)) * b)) by (nonlinear_arith);
    } else {
        assert(e == 2 * (e / 2));
    }
}

/// `(x * y) >> 128`, computed from 64-bit halves.
pub fn multiply_high(x: u128, y: u128) -> (r: u128)
    ensures
        r == (x as int * y as int) / radix(),
{
    let b: u128 = 0x1_0000_0000_0000_0000;
    let hx = x / b;
    let lx = x % b;
    let hy = y / b;
    let ly = y % b;
    proof {
        lemma_mul_upper_bound(hx as int, (b - 1) as int, hy as int, (b - 1) as int);
        lemma_mul_upper_bound(hx as int, (b - 1) as int, ly as int, (b - 1) as int);
        lemma_mul_upper_bound(lx as int, (b - 1) as int, hy as int, (b - 1) as int);
        lemma_mul_upper_bound(lx as int, (b - 1) as int, ly as int, (b - 1) as int);
    }
    let a1 = hx * ly;
    let a2 = lx * hy;
    let c = lx * ly;
    let hh = hx * hy;
    let mid = a1 % b + a2 % b + c / b;
    proof {
        lemma_multiply_high_identity(x as int, y as int);
    }
    hh + a1 / b + a2 / b + mid / b
}

/// The half-word decomposition behind `multiply_high`.
proof fn lemma_multiply_high_identity(x: int, y: int)
    requires
        0 <= x < radix(),
        0 <= y < radix(),
    ensures
        ({
            let b = half_radix();
            let (hx, lx, hy, ly) = (x / b, x % b, y / b, y % b);
            let (a1, a2, c) = (hx * ly, lx * hy, lx * ly);
            let mid = a1 % b + a2 % b + c / b;
            (x * y) / radix() == hx * hy + a1 / b + a2 / b + mid / b
        }),
{
    let b = half_radix();
    let (hx, lx, hy, ly) = (x / b, x % b, y / b, y % b);
    let (a1, a2, c) = (hx * ly, lx * hy, lx * ly);
    let mid = a1 % b + a2 % b + c / b;
    lemma_fundamental_div_mod(x as int, b as int);
    lemma_fundamental_div_mod(y as int, b as int);
    lemma_fundamental_div_mod(a1 as int, b as int);
    lemma_fundamental_div_mod(a2 as int, b as int);
    lemma_fundamental_div_mod(c as int, b as int);
    lemma_fundamental_div_mod(mid as int, b as int);
    lemma_mod_bound(c as int, b as int);
    lemma_mod_bound(mid as int, b as int);
    let top = hx * hy + a1 / b + a2 / b + mid / b;
    let low = (mid % b) * b + c % b;
    let (a1h, a1l, a2h, a2l, ch, cl) = (a1 / b, a1 % b, a2 / b, a2 % b, c / b, c % b);
    lemma_two_digit_product(x, y, hx, lx, hy, ly, b);
    assert((a1 + a2) * b + c == (a1h + a2h) * (b * b) + mid * b + cl) by (nonlinear_arith)
        requires
            a1 == b * a1h + a1l,
            a2 == b * a2h + a2l,
            c == b * ch + cl,
            mid == a1l + a2l + ch,
    ;
    assert(mid * b == (mid / b) * (b * b) + (mid % b) * b) by (nonlinear_arith)
        requires
            mid == b * (mid / b) + mid % b,
    ;
    assert(radix() == b * b);
    assert(x * y == top * radix() + low) by (nonlinear_arith)
        requires
            x * y == (hx * hy) * (b * b) + (a1h + a2h) * (b * b) + mid * b + cl,
            mid * b == (mid / b) * (b * b) + (mid % b) * b,
            radix() == b * b,
            top == hx * hy + a1h + a2h + mid / b,
            low == (mid % b) * b + cl,
    ;
    assert(low < radix()) by (nonlinear_arith)
        requires
            mid % b < b,
            c % b < b,
            low == (mid % b) * b + c % b,
            radix() == b * b,
    ;
    lemma_fundamental_div_mod_converse((x * y) as int, radix() as int, top as int, low as int);
}

proof fn lemma_two_digit_product(x: int, y: int, hx: int, lx: int, hy: int, ly: int, b: int)
    requires
        x == b * hx + lx,
        y == b * hy + ly,
    ensures
        x * y == (hx * hy) * (b * b) + (hx * ly + lx * hy) * b + lx * ly,
{
    broadcast use vstd::arithmetic::mul::group_mul_properties;
    assert(x * y == (b * hx + lx) * (b * hy + ly));
    assert((b * hx + lx) * (b * hy + ly) == (b * hx) * (b * hy) + (b * hx) * ly + lx * (b * hy) + lx * ly) by {
        lemma_mul_is_distributive_add_other_way(b * hy + ly, b * hx, lx);
        lemma_mul_is_distributive_add(b * hx, b * hy, ly);
        lemma_mul_is_distributive_add(lx, b * hy, ly);
    }
    assert((b * hx) * (b * hy) == (hx * hy) * (b * b)) by (nonlinear_arith);
    assert((b * hx) * ly + lx * (b * hy) == (hx * ly + lx * hy) * b) by (nonlinear_arith);
}

/// The core identity of Montgomery multiplication: with `n * n_ = -1 (mod R)`,
/// `p + t_ n` is a multiple of `R` whose quotient is the returned `t`.
proof fn lemma_montgomery_step(n: int, n_: int, p: int)
    requires
        p >= 0,
        n_ >= 0,
        (n * n_ + 1) % radix() == 0,
        n_ < radix(),
        n > 0,
    ensures
        ({
            let lo = p % radix();
            let tq = (lo * n_) % radix();
            let m = tq * n;
            let c: int = if lo == 0 { 0 } else { 1 };
            &&& (p / radix() + m / radix() + c) * radix() == p + m
            &&& m / radix() < n
        }),
{
    let r = radix();
    let lo = p % r;
    let tq = (lo * n_) % r;
    let m = tq * n;
    let c: int = if lo == 0 { 0 } else { 1 };
    lemma_mod_bound(p as int, r as int);
    lemma_mod_bound((lo * n_) as int, r as int);
    lemma_fundamental_div_mod(p as int, r as int);
    lemma_fundamental_div_mod(m as int, r as int);
    lemma_mod_bound(m as int, r as int);
    // m % r = lo * n_ * n % r
    lemma_mul_mod_noop_left((lo * n_) as int, n as int, r as int);
    // (lo + lo n_ n) % r == lo (1 + n n_) % r == 0
    assert(lo + lo * n_ * n == lo * (n * n_ + 1)) by (nonlinear_arith);
    lemma_mul_mod_noop_right(lo as int, (n * n_ + 1) as int, r as int);
    lemma_add_mod_noop(lo as int, (lo * n_ * n) as int, r as int);
    lemma_add_mod_noop(lo as int, (m % r) as int, r as int);
    lemma_mod_twice((lo * n_ * n) as int, r as int);
    assert((lo + m % r) % r == 0);
    if lo == 0 {
        assert(m % r == 0) by {
            lemma_small_mod((m % r) as nat, r as nat);
        }
    } else {
        assert(lo + m % r == r) by {
            lemma_fundamental_div_mod((lo + m % r) as int, r as int);
            assert((lo + m % r) / r == 1) by {
                lemma_div_is_ordered(r as int, (lo + m % r) as int, r as int);
                lemma_div_by_self(r as int);
                lemma_div_is_strictly_smaller_helper(lo + m % r, r);
            }
        }
    }
    assert((p / r + m / r + c) * r == p + m) by (nonlinear_arith)
        requires
            p == r * (p / r) + lo,
            m == r * (m / r) + m % r,
            lo + m % r == c * r,
    ;
    assert(m / r < n) by {
        assert(m < r * n) by (nonlinear_arith)
            requires
                m == tq * n,
                tq < r,
                n > 0,
        ;
        lemma_div_strictly_bounded_helper(m, r, n);
    }
}

proof fn lemma_div_is_strictly_smaller_helper(x: int, r: int)
    requires
        r > 0,
        0 <= x < 2 * r,
    ensures
        x / r < 2,
{
    lemma_div_strictly_bounded_helper(x, r, 2);
}

proof fn lemma_div_strictly_bounded_helper(x: int, r: int, k: int)
    requires
        x >= 0,
        k >= 0,
        r > 0,
        x < r * k,
    ensures
        x / r < k,
{
    lemma_div_by_multiple(k as int, r as int);
    lemma_mul_is_commutative(k as int, r as int);
    lemma_div_by_multiple_is_strongly_ordered(x as int, (r * k) as int, k as int, r as int);
}

impl DynamicModInt {
    /// The invariant that `new` establishes.
    pub open spec fn wf(&self) -> bool {
        &&& self.n % 2 == 1
        &&& self.n < 0x8000_0000_0000_0000_0000_0000_0000_0000
        &&& self.r1 == radix() % (self.n as int)
        &&& self.r2 == (radix() * radix()) % (self.n as int)
        &&& (self.n as int * self.n_ as int + 1) % radix() == 0
    }

    /// The residue represented by the Montgomery form `rx`.
    pub open spec fn value(&self, rx: int) -> int {
        redc(self.n as int, rx)
    }

    /// Montgomery representation of the residue of `x`.
    pub open spec fn repr(&self, x: int) -> int {
        (x * radix()) % (self.n as int)
    }

    /// The inverse of the residue `Reduce(rx)` in Montgomery form, or `gcd(Reduce(rx), n)`
    /// when there is none.
    pub open spec fn inv_result(&self, rx: u128) -> Result<u128, u128> {
        let n = self.n as int;
        let x = redc(n, rx as int);
        if spec_gcd(x as nat, n as nat) == 1 {
            Ok((choose|ry: u128| ry < self.n && (x * redc(n, ry as int)) % n == 1int % n))
        } else {
            Err(spec_gcd(x as nat, n as nat) as u128)
        }
    }

    pub fn new(n: u128) -> (s: Self)
        requires
            n % 2 == 1,
            n < 0x8000_0000_0000_0000_0000_0000_0000_0000,
        ensures
            s.wf(),
            s.n == n,
    {
        let ghost ni = n as int;
        // n * n == 1 mod 2^3; each Newton step doubles the number of correct bits
        let mut n_inv = n;
        let mut i: u32 = 6;
        proof {
            lemma_odd_square(ni);
        }
        while i > 0
            invariant
                i <= 6,
                (ni * n_inv - 1) % newton_modulus(i as int) == 0,
                n == ni,
            decreases i,
        {
            let w = n_inv.wrapping_mul(n);
            let w2 = 2u128.wrapping_sub(w);
            let y = n_inv.wrapping_mul(w2);
            proof {
                lemma_newton_modulus(i as int);
                lemma_mul_is_commutative(n_inv as int, ni);
                lemma_newton_step(ni, n_inv as int, w as int, w2 as int, y as int,
                    newton_modulus(i as int), newton_modulus(i - 1));
            }
            n_inv = y;
            i -= 1;
        }
        let n_ = 0u128.wrapping_sub(n_inv);
        proof {
            lemma_negated_inverse(ni, n_inv as int, n_ as int);
        }
        let r1 = 0u128.wrapping_sub(n) % n;
        proof {
            lemma_mod_add_multiples_vanish(radix() - ni, ni);
        }
        let mut r2 = r1;
        let mut j: u32 = 128;
        proof {
            lemma_mod_bound(radix(), ni);
            vstd::arithmetic::power::lemma_pow0(2);
            lemma_small_mod(r1 as nat, n as nat);
        }
        while j > 0
            invariant
                j <= 128,
                r2 < n,
                r2 as int == (r1 * pow(2, (128 - j) as nat)) % ni,
                r1 as int == radix() % ni,
                n == ni,
                ni % 2 == 1,
                n < 0x8000_0000_0000_0000_0000_0000_0000_0000,
            decreases j,
        {
            let ghost prev = r2;
            assert(r2 << 1 == r2 * 2) by (bit_vector)
                requires
                    r2 < 0x8000_0000_0000_0000_0000_0000_0000_0000u128,
            ;
            r2 <<= 1;
            if r2 >= n {
                r2 -= n;
            }
            proof {
                lemma_double_mod(ni, r1 as int, (128 - j) as nat, prev as int, r2 as int);
            }
            j -= 1;
        }
        proof {
            lemma_radix_is_pow();
            lemma_mul_mod_noop_left(radix(), radix(), ni);
        }
        Self { n, r1, r2, n_ }
    }

    pub fn mod_n(&self, x: u128) -> (r: u128)
        requires
            self.wf(),
        ensures
            r == x % self.n,
    {
        if x < self.n {
            proof {
                lemma_small_mod(x as nat, self.n as nat);
            }
            x
        } else if x - self.n < self.n {
            proof {
                lemma_mod_sub_multiples_vanish(x as int, self.n as int);
                lemma_small_mod((x - self.n) as nat, self.n as nat);
            }
            x - self.n
        } else if x - self.n * 2 < self.n {
            proof {
                lemma_mod_sub_multiples_vanish(x as int, self.n as int);
                lemma_mod_sub_multiples_vanish(x - self.n, self.n as int);
                lemma_small_mod((x - self.n * 2) as nat, self.n as nat);
            }
            x - self.n * 2
        } else {
            x % self.n
        }
    }

    /// Reduce(rx * ry) = r(xy)
    pub fn multiply_reduce(&self, rx: u128, ry: u128) -> (r: u128)
        requires
            self.wf(),
            rx == self.r1 || ry == self.r1 || (rx as int * ry as int) / radix() + self.n <= u128::MAX,
        ensures
            r == redc(self.n as int, rx as int * ry as int),
    {
        let ghost n = self.n as int;
        if rx == self.r1 {
            proof {
                lemma_redc_shortcut(n, rx as int, ry as int);
            }
            return self.mod_n(ry);
        }
        if ry == self.r1 {
            proof {
                lemma_mul_is_commutative(rx as int, ry as int);
                lemma_redc_shortcut(n, ry as int, rx as int);
            }
            return self.mod_n(rx);
        }
        let lo = rx.wrapping_mul(ry);
        let t_ = lo.wrapping_mul(self.n_);
        proof {
            lemma_montgomery_step(n, self.n_ as int, rx as int * ry as int);
            lemma_mod_bound((rx * ry) as int, radix() as int);
        }
        let h1 = multiply_high(rx, ry);
        let h2 = multiply_high(t_, self.n);
        let c: u128 = if lo == 0 { 0 } else { 1 };
        let t = h1 + h2 + c;
        proof {
            let p = rx as int * ry as int;
            let m = t_ as int * self.n as int;
            // t * R = p + t_ n = p (mod n)
            lemma_mod_multiples_vanish(t_ as int, p as int, n as int);
            lemma_mul_is_commutative(t_ as int, n as int);
            lemma_mul_mod_noop_left(t as int, radix() as int, n as int);
            lemma_mod_bound(t as int, n as int);
            lemma_redc_unique(n, (t % self.n) as int, p);
        }
        self.mod_n(t)
    }

    /// Reduce(x) = x * R^{-1} % N
    pub fn reduce(&self, rx: u128) -> (r: u128)
        requires
            self.wf(),
        ensures
            r == redc(self.n as int, rx as int),
    {
        self.multiply_reduce(rx, 1)
    }

    /// Montgomery representation of x: rx = Reduce(x * R^2) = x * R mod N.
    pub fn mr(&self, x: u128) -> (r: u128)
        requires
            self.wf(),
        ensures
            r == (x as int * radix()) % (self.n as int),
    {
        let xm = self.mod_n(x);
        proof {
            let n = self.n as int;
            lemma_small_product(xm as int, self.r2 as int);
            // xm * r2 = x R R (mod n), and (x R mod n) * R = x R R (mod n)
            lemma_mul_mod_noop_general(x as int, radix() * radix(), n);
            assert(x as int * (radix() * radix()) == (x as int * radix()) * radix()) by (nonlinear_arith);
            lemma_mul_mod_noop_left(x as int * radix(), radix(), n);
            lemma_mod_bound(x as int * radix(), n);
            lemma_redc_unique(n, (x as int * radix()) % n, xm as int * self.r2 as int);
        }
        self.multiply_reduce(xm, self.r2)
    }

    /// x = Reduce(rx)
    pub fn val(&self, rx: u128) -> (r: u128)
        requires
            self.wf(),
        ensures
            r == redc(self.n as int, rx as int),
    {
        self.reduce(rx)
    }

    /// r * 1
    pub fn one(&self) -> (r: u128)
        requires
            self.wf(),
        ensures
            r == radix() % (self.n as int),
    {
        self.r1
    }

    pub fn add(&self, rx: u128, ry: u128) -> (r: u128)
        requires
            self.wf(),
            rx + ry <= u128::MAX,
        ensures
            r == (rx + ry) % (self.n as int),
    {
        self.mod_n(rx + ry)
    }

    pub fn sub(&self, rx: u128, ry: u128) -> (r: u128)
        requires
            self.wf(),
            rx >= ry || (rx + self.n <= u128::MAX && ry <= rx + self.n),
        ensures
            r == (if rx >= ry { rx - ry } else { rx + self.n - ry }),
            r as int % (self.n as int) == (rx - ry) % (self.n as int),
    {
        proof {
            if rx < ry {
                lemma_mod_add_multiples_vanish(rx - ry, self.n as int);
            }
        }
        if rx >= ry {
            rx - ry
        } else {
            rx + self.n - ry
        }
    }

    pub fn neg(&self, rx: u128) -> (r: u128)
        requires
            self.wf(),
            rx <= self.n,
        ensures
            r == (if rx == 0 { 0 } else { self.n - rx }),
            r as int % (self.n as int) == (0 - rx) % (self.n as int),
    {
        self.sub(0, rx)
    }

    pub fn mul(&self, rx: u128, ry: u128) -> (r: u128)
        requires
            self.wf(),
            rx == self.r1 || ry == self.r1 || (rx as int * ry as int) / radix() + self.n <= u128::MAX,
        ensures
            r == redc(self.n as int, rx as int * ry as int),
    {
        self.multiply_reduce(rx, ry)
    }

    /// `rx^e` in Montgomery form: the representation of `x^e` where `x = Reduce(rx)`.
    pub fn pow(&self, rx: u128, e: u128) -> (r: u128)
        requires
            self.wf(),
            e == 0 || rx == self.r1 || (rx as int * rx as int) / radix() + self.n <= u128::MAX,
        ensures
            r == (pow(redc(self.n as int, rx as int), e as nat) * radix()) % (self.n as int),
    {
        let ghost n = self.n as int;
        let ghost x = redc(n, rx as int);
        let ghost e0 = e;
        let mut e = e;
        let mut ans = self.r1;
        let mut b = rx;
        let ghost mut first = true;
        let ghost mut a_val: int = 1;
        let ghost mut b_val: int = x;
        proof {
            lemma_redc_scaled_back(n, rx as int);
            lemma_mul_basics(radix());
            lemma_pow0(x);
            lemma_mul_basics(pow(x, e0 as nat));
        }
        while e > 0
            invariant
                self.wf(),
                n == self.n,
                x == redc(n, rx as int),
                ans < self.n,
                ans as int == (a_val * radix()) % n,
                b as int % n == (b_val * radix()) % n,
                first ==> b == rx && ans == self.r1 && e == e0,
                !first ==> b < self.n,
                e0 == 0 || rx == self.r1 || (rx as int * rx as int) / radix() + self.n <= u128::MAX,
                (a_val * pow(b_val, e as nat)) % n == pow(x, e0 as nat) % n,
            decreases e,
        {
            let ghost e_prev = e;
            let ghost a_prev = a_val;
            proof {
                lemma_mod_bound(radix(), n);
                if !first {
                    lemma_small_product(ans as int, b as int);
                    lemma_small_product(b as int, b as int);
                }
            }
            assert((e & 1 != 0) == (e % 2 == 1)) by (bit_vector);
            let odd = e & 1 != 0;
            if odd {
                proof {
                    lemma_small_mod(ans as nat, n as nat);
                    lemma_redc_product(n, ans as int, b as int, a_val, b_val);
                }
                ans = self.mul(ans, b);
                proof {
                    a_val = a_val * b_val;
                }
            }
            proof {
                lemma_redc_product(n, b as int, b as int, b_val, b_val);
            }
            b = self.mul(b, b);
            assert(e >> 1 == e / 2) by (bit_vector);
            e >>= 1;
            proof {
                let old_b = b_val;
                b_val = b_val * b_val;
                lemma_mod_bound(b as int, n);
                lemma_small_mod(b as nat, n as nat);
                lemma_pow_square_step(a_prev, old_b, e_prev as nat, odd);
                first = false;
            }
        }
        proof {
            lemma_pow0(b_val);
            lemma_mul_basics(a_val);
            lemma_mul_mod_noop_left(a_val, radix(), n);
            lemma_mul_mod_noop_left(pow(x, e0 as nat), radix(), n);
        }
        ans
    }

    /// rx の逆元もしくは gcd(x, n).
    pub fn inv(&self, rx: u128) -> (res: Result<u128, u128>)
        requires
            self.wf(),
        ensures
            ({
                let n = self.n as int;
                let x = redc(n, rx as int);
                match res {
                    Ok(ry) => {
                        &&& spec_gcd(x as nat, n as nat) == 1
                        &&& ry < self.n
                        &&& (x * redc(n, ry as int)) % n == 1int % n
                        &&& redc(n, rx as int * ry as int) == radix() % n
                    },
                    Err(g) => {
                        &&& spec_gcd(x as nat, n as nat) != 1
                        &&& g == spec_gcd(x as nat, n as nat)
                    },
                }
            }),
            res == self.inv_result(rx),
    {
        let ghost n = self.n as int;
        let t = self.reduce(rx);
        proof {
            crate::arith::lemma_redc_mod(n, rx as int);
            lemma_small_mod(t as nat, n as nat);
        }
        let (g, i) = inv_gcd(t, self.n);
        proof {
            lemma_small_mod(t as nat, self.n as nat);
        }
        if g == 1 {
            let ry = self.mr(i);
            proof {
                let x = t as int;
                crate::arith::lemma_redc_of_scaled(n, i as int);
                lemma_mul_mod_noop_right(x, i as int, n);
                lemma_redc_scaled_back(n, rx as int);
                lemma_mod_bound(i as int * radix(), n);
                lemma_small_mod(ry as nat, n as nat);
                crate::arith::lemma_redc_product(n, rx as int, ry as int, x, i as int);
                lemma_mul_mod_noop_left(x * i as int, radix(), n);
                lemma_mul_mod_noop_left(1, radix(), n);
                assert(spec_gcd(x as nat, n as nat) == 1);
                assert(ry < self.n);
                assert((x * redc(n, ry as int)) % n == 1int % n);
                assert(redc(n, rx as int * ry as int) == radix() % n);
                let w = choose|w: u128| w < self.n && (x * redc(n, w as int)) % n == 1int % n;
                lemma_inverse_unique(n, x, ry as int, w as int);
            }
            Ok(ry)
        } else {
            proof {
                assert(spec_gcd(t as nat, n as nat) != 1);
            }
            Err(g)
        }
    }

    pub fn div(&self, rx: u128, ry: u128) -> (res: Result<u128, u128>)
        requires
            self.wf(),
        ensures
            ({
                let n = self.n as int;
                let y = redc(n, ry as int);
                match res {
                    Ok(rz) => {
                        &&& spec_gcd(y as nat, n as nat) == 1
                        &&& rz < self.n
                        &&& (redc(n, rz as int) * y) % n == redc(n, rx as int)
                    },
                    Err(g) => {
                        &&& spec_gcd(y as nat, n as nat) != 1
                        &&& g == spec_gcd(y as nat, n as nat)
                    },
                }
            }),
    {
        let inv_ry = match self.inv(ry) {
            Ok(v) => v,
            Err(g) => return Err(g),
        };
        proof {
            let n = self.n as int;
            crate::arith::lemma_wide_product(rx as int, inv_ry as int);
        }
        let rz = self.mul(rx, inv_ry);
        proof {
            let n = self.n as int;
            let xx = redc(n, rx as int);
            let y = redc(n, ry as int);
            let iv = redc(n, inv_ry as int);
            lemma_redc_scaled_back(n, rx as int);
            lemma_redc_scaled_back(n, inv_ry as int);
            crate::arith::lemma_redc_product(n, rx as int, inv_ry as int, xx, iv);
            crate::arith::lemma_redc_mod(n, rz as int);
            crate::arith::lemma_redc_of_scaled(n, xx * iv);
            lemma_mod_bound(xx * iv * radix(), n);
            crate::arith::lemma_redc_mod(n, rx as int);
            // (x iv mod n) y = x (iv y) = x (mod n)
            lemma_mul_mod_noop_left(xx * iv, y, n);
            assert((xx * iv) * y == xx * (y * iv)) by (nonlinear_arith);
            lemma_mul_mod_noop_right(xx, y * iv, n);
            lemma_mul_is_commutative(y, iv);
            lemma_mul_mod_noop_right(xx, 1, n);
            lemma_small_mod(xx as nat, n as nat);
        }
        Ok(rz)
    }

    /// Same as `reduce`.
    pub fn reduce_const(&self, rx: u128) -> (r: u128)
        requires
            self.wf(),
        ensures
            r == redc(self.n as int, rx as int),
    {
        self.multiply_reduce_const(rx, 1)
    }

    /// Same as `mr`.
    pub fn mr_const(&self, x: u128) -> (r: u128)
        requires
            self.wf(),
        ensures
            r == (x as int * radix()) % (self.n as int),
    {
        self.mr(x)
    }

    /// Same as `val`.
    pub fn val_const(&self, rx: u128) -> (r: u128)
        requires
            self.wf(),
        ensures
            r == redc(self.n as int, rx as int),
    {
        self.reduce_const(rx)
    }

    /// Same as `mul`.
    pub fn mul_const(&self, rx: u128, ry: u128) -> (r: u128)
        requires
            self.wf(),
            rx == self.r1 || ry == self.r1 || (rx as int * ry as int) / radix() + self.n <= u128::MAX,
        ensures
            r == redc(self.n as int, rx as int * ry as int),
    {
        self.multiply_reduce_const(rx, ry)
    }

    /// Same as `pow`.
    pub fn pow_const(&self, rx: u128, e: u128) -> (r: u128)
        requires
            self.wf(),
            e == 0 || rx == self.r1 || (rx as int * rx as int) / radix() + self.n <= u128::MAX,
        ensures
            r == (pow(redc(self.n as int, rx as int), e as nat) * radix()) % (self.n as int),
    {
        self.pow(rx, e)
    }

    /// Same as `inv`.
    pub fn inv_const(&self, rx: u128) -> (res: Result<u128, u128>)
        requires
            self.wf(),
        ensures
            ({
                let n = self.n as int;
                let x = redc(n, rx as int);
                match res {
                    Ok(ry) => {
                        &&& spec_gcd(x as nat, n as nat) == 1
                        &&& ry < self.n
                        &&& (x * redc(n, ry as int)) % n == 1int % n
                        &&& redc(n, rx as int * ry as int) == radix() % n
                    },
                    Err(g) => {
                        &&& spec_gcd(x as nat, n as nat) != 1
                        &&& g == spec_gcd(x as nat, n as nat)
                    },
                }
            }),
            res == self.inv_result(rx),
    {
        self.inv(rx)
    }

    /// Same as `div`.
    pub fn div_const(&self, rx: u128, ry: u128) -> (res: Result<u128, u128>)
        requires
            self.wf(),
        ensures
            ({
                let n = self.n as int;
                let y = redc(n, ry as int);
                match res {
                    Ok(rz) => {
                        &&& spec_gcd(y as nat, n as nat) == 1
                        &&& rz < self.n
                        &&& (redc(n, rz as int) * y) % n == redc(n, rx as int)
                    },
                    Err(g) => {
                        &&& spec_gcd(y as nat, n as nat) != 1
                        &&& g == spec_gcd(y as nat, n as nat)
                    },
                }
            }),
    {
        self.div(rx, ry)
    }

    /// Same as `multiply_reduce`.
    pub fn multiply_reduce_const(&self, rx: u128, ry: u128) -> (r: u128)
        requires
            self.wf(),
            rx == self.r1 || ry == self.r1 || (rx as int * ry as int) / radix() + self.n <= u128::MAX,
        ensures
            r == redc(self.n as int, rx as int * ry as int),
    {
        self.multiply_reduce(rx, ry)
    }
}


/// The modulus up to which the Newton iteration for `n^{-1} mod 2^128` is exact
/// while `i` steps remain.
spec fn newton_modulus(i: int) -> int {
    if i >= 6 {
        0x8
    } else if i == 5 {
        0x40
    } else if i == 4 {
        0x1000
    } else if i == 3 {
        0x100_0000
    } else if i == 2 {
        0x1_0000_0000_0000
    } else if i == 1 {
        0x1_0000_0000_0000_0000_0000_0000
    } else {
        radix()
    }
}

proof fn lemma_newton_modulus(i: int)
    requires
        1 <= i <= 6,
    ensures
        newton_modulus(i) > 0,
        newton_modulus(i - 1) > 0,
        radix() % newton_modulus(i - 1) == 0,
        (newton_modulus(i) * newton_modulus(i)) % newton_modulus(i - 1) == 0,
{
    let a = newton_modulus(i);
    let b = newton_modulus(i - 1);
    if i == 1 {
        assert(a * a == radix() * 0x1_0000_0000_0000_0000int);
        lemma_mod_multiples_basic(0x1_0000_0000_0000_0000int, radix());
        lemma_mod_self_0(radix());
    } else {
        assert(a * a == b);
        lemma_mod_self_0(b);
        assert(radix() == b * (radix() / b));
        lemma_mod_multiples_basic(radix() / b, b);
    }
}

/// An odd square is `1 mod 8`.
proof fn lemma_odd_square(n: int)
    requires
        n % 2 == 1,
        n >= 0,
    ensures
        (n * n - 1) % 8 == 0,
{
    let j = n / 2;
    assert(n == 2 * j + 1);
    assert(n * n - 1 == 4 * (j * (j + 1))) by (nonlinear_arith)
        requires
            n == 2 * j + 1,
    ;
    assert((j * (j + 1)) % 2 == 0) by (nonlinear_arith)
        requires
            j >= 0,
    {
        if j % 2 == 0 {
            lemma_mul_mod_noop_left(j, j + 1, 2);
        } else {
            lemma_mul_mod_noop_right(j, j + 1, 2);
        }
    }
    lemma_fundamental_div_mod(j * (j + 1), 2);
    assert(n * n - 1 == 8 * ((j * (j + 1)) / 2));
    lemma_mod_multiples_basic((j * (j + 1)) / 2, 8);
    lemma_mul_is_commutative((j * (j + 1)) / 2, 8);
}

/// If `d` divides `R` and `R` divides `a - b`, then `d` divides `a - b`.
proof fn lemma_divides_through(a: int, r: int, d: int)
    requires
        d > 0,
        r > 0,
        r % d == 0,
        a % r == 0,
    ensures
        a % d == 0,
{
    lemma_fundamental_div_mod(a, r);
    lemma_fundamental_div_mod(r, d);
    assert(a == d * ((r / d) * (a / r))) by {
        lemma_mul_is_associative(d, r / d, a / r);
    }
    lemma_mod_multiples_basic((r / d) * (a / r), d);
    lemma_mul_is_commutative((r / d) * (a / r), d);
}

/// One Newton step `x <- x (2 - n x) mod R` squares the precision of `n x = 1`.
proof fn lemma_newton_step(n: int, x: int, w: int, w2: int, y: int, m: int, m2: int)
    requires
        m > 0,
        m2 > 0,
        radix() % m2 == 0,
        (m * m) % m2 == 0,
        (n * x - 1) % m == 0,
        w == (n * x) % radix(),
        w2 == (2 - w) % radix(),
        y == (x * w2) % radix(),
    ensures
        (n * y - 1) % m2 == 0,
{
    let r = radix();
    let k = (n * x - 1) / m;
    lemma_fundamental_div_mod(n * x - 1, m);
    // n y = n x w2 = n x (2 - n x) (mod R)
    lemma_fundamental_div_mod(x * w2, r);
    lemma_fundamental_div_mod(2 - w, r);
    lemma_fundamental_div_mod(n * x, r);
    let q1 = (x * w2) / r;
    let q2 = (2 - w) / r;
    let q3 = (n * x) / r;
    let p = n * x;
    let t = n * x * (q3 - q2) - n * q1;
    assert(n * y == n * (x * w2) - r * (n * q1)) by (nonlinear_arith)
        requires
            x * w2 == r * q1 + y,
    ;
    assert(x * w2 == x * (2 - w) - r * (x * q2)) by (nonlinear_arith)
        requires
            2 - w == r * q2 + w2,
    ;
    assert(n * (x * (2 - w)) == p * (2 - p) + r * (p * q3)) by (nonlinear_arith)
        requires
            p == n * x,
            p == r * q3 + w,
    ;
    assert(n * (x * w2) == p * (2 - p) + r * (p * q3) - r * (n * (x * q2))) by (nonlinear_arith)
        requires
            x * w2 == x * (2 - w) - r * (x * q2),
            n * (x * (2 - w)) == p * (2 - p) + r * (p * q3),
    ;
    assert(r * (p * q3) - r * (n * (x * q2)) - r * (n * q1) == r * t) by (nonlinear_arith)
        requires
            p == n * x,
            t == n * x * (q3 - q2) - n * q1,
    ;
    assert(p * (2 - p) - 1 + (p - 1) * (p - 1) == 0) by (nonlinear_arith);
    assert(n * y - 1 + (m * k) * (m * k) == r * t);
    lemma_mod_multiples_basic(n * x * (q3 - q2) - n * q1, r);
    lemma_mul_is_commutative(n * x * (q3 - q2) - n * q1, r);
    lemma_divides_through(n * y - 1 + (m * k) * (m * k), r, m2);
    assert((m * k) * (m * k) == (m * m) * (k * k)) by (nonlinear_arith);
    lemma_mul_mod_noop_left(m * m, k * k, m2);
    assert(((m * m) % m2) * (k * k) == 0);
    lemma_small_mod(0, m2 as nat);
    lemma_mod_sub_eq_zero(n * y - 1 + (m * m) * (k * k), (m * m) * (k * k), m2);
}

/// If `m` divides `a` and `b`, it divides `a - b`.
proof fn lemma_mod_sub_eq_zero(a: int, b: int, m: int)
    requires
        m > 0,
        a % m == 0,
        b % m == 0,
    ensures
        (a - b) % m == 0,
{
    lemma_fundamental_div_mod(a, m);
    lemma_fundamental_div_mod(b, m);
    assert(a - b == m * (a / m - b / m)) by (nonlinear_arith)
        requires
            a == m * (a / m),
            b == m * (b / m),
    ;
    lemma_mod_multiples_basic(a / m - b / m, m);
    lemma_mul_is_commutative(a / m - b / m, m);
}

/// `n (R - x) = -(n x) = 1 (mod R)` when `n x = 1 (mod R)`.
proof fn lemma_negated_inverse(n: int, x: int, n_: int)
    requires
        0 <= x < radix(),
        (n * x - 1) % radix() == 0,
        n_ == (0 - x) % radix(),
    ensures
        (n * n_ + 1) % radix() == 0,
{
    let r = radix();
    lemma_fundamental_div_mod(0 - x, r);
    let q = (0 - x) / r;
    lemma_fundamental_div_mod(n * x - 1, r);
    assert(n * n_ + 1 == r * (n * (0 - q) - (n * x - 1) / r)) by (nonlinear_arith)
        requires
            0 - x == r * q + n_,
            n * x - 1 == r * ((n * x - 1) / r),
    ;
    lemma_mod_multiples_basic(n * (0 - q) - (n * x - 1) / r, r);
    lemma_mul_is_commutative(n * (0 - q) - (n * x - 1) / r, r);
}

/// One doubling step of the `R^2 mod n` computation.
proof fn lemma_double_mod(n: int, r1: int, k: nat, prev: int, next: int)
    requires
        n > 0,
        0 <= prev < n,
        prev == (r1 * pow(2, k)) % n,
        next == (if 2 * prev >= n { 2 * prev - n } else { 2 * prev }),
    ensures
        0 <= next < n,
        next == (r1 * pow(2, k + 1)) % n,
{
    vstd::arithmetic::power::lemma_pow_adds(2, k, 1);
    vstd::arithmetic::power::lemma_pow1(2);
    assert(r1 * pow(2, k + 1) == (r1 * pow(2, k)) * 2) by (nonlinear_arith)
        requires
            pow(2, k + 1) == pow(2, k) * 2,
    ;
    lemma_mul_mod_noop_left(r1 * pow(2, k), 2, n);
    if 2 * prev >= n {
        lemma_mod_sub_multiples_vanish(2 * prev, n);
        lemma_small_mod((2 * prev - n) as nat, n as nat);
    } else {
        lemma_small_mod((2 * prev) as nat, n as nat);
    }
}

/// The Montgomery representation of an inverse is unique.
proof fn lemma_inverse_unique(n: int, x: int, u: int, v: int)
    requires
        n > 0,
        n % 2 == 1,
        0 <= u < n,
        0 <= v < n,
        (x * redc(n, u)) % n == 1int % n,
        (x * redc(n, v)) % n == 1int % n,
    ensures
        u == v,
{
    let a = redc(n, u);
    let b = redc(n, v);
    crate::arith::lemma_redc_mod(n, u);
    crate::arith::lemma_redc_mod(n, v);
    // a = a (x b) = (a x) b = b (mod n)
    lemma_mul_mod_noop_right(a, x * b, n);
    lemma_mul_mod_noop_right(a, 1, n);
    assert(a * (x * b) == (x * a) * b) by (nonlinear_arith);
    lemma_mul_mod_noop_left(x * a, b, n);
    lemma_mul_mod_noop_left(1, b, n);
    lemma_small_mod(a as nat, n as nat);
    lemma_small_mod(b as nat, n as nat);
    lemma_redc_scaled_back(n, u);
    lemma_redc_scaled_back(n, v);
    lemma_small_mod(u as nat, n as nat);
    lemma_small_mod(v as nat, n as nat);
}

/// Multiplying by `r1 = R mod n` and reducing is taking the residue.
proof fn lemma_redc_shortcut(n: int, r1: int, y: int)
    requires
        n > 0,
        n % 2 == 1,
        r1 == radix() % n,
    ensures
        redc(n, r1 * y) == y % n,
{
    lemma_mod_bound(y as int, n as int);
    lemma_mul_mod_noop_left(radix(), y, n);
    lemma_mul_is_commutative(radix(), y);
    lemma_mul_mod_noop_left(y, radix(), n);
    lemma_redc_unique(n, y % n, r1 * y);
}


/// `M` is a modulus for which Montgomery arithmetic is set up: odd and below `2^127`.
pub open spec fn valid_modulus(m: u128) -> bool {
    m % 2 == 1 && m < 0x8000_0000_0000_0000_0000_0000_0000_0000
}

/// A residue modulo the compile-time modulus `M`, held in Montgomery form.
#[derive(Debug, Clone, Copy, Eq, Default, Hash)]
pub struct StaticModInt<const M: u128>(u128);

/// Two elements are equal when their Montgomery forms are.
impl<const M: u128> PartialEq for StaticModInt<M> {
    fn eq(&self, other: &Self) -> (r: bool) {
        self.0 == other.0
    }
}

impl<const M: u128> PartialEqSpecImpl for StaticModInt<M> {
    open spec fn obeys_eq_spec() -> bool {
        true
    }

    open spec fn eq_spec(&self, other: &Self) -> bool {
        self.rep() == other.rep()
    }
}

/// `+` on Montgomery forms, as `StaticModInt::add`.
impl<const M: u128> Add for StaticModInt<M> {
    type Output = Self;

    fn add(self, rhs: Self) -> (r: Self) {
        let r = StaticModInt::<M>::add(self, rhs);
        proof {
            Self::lemma_from_rep(r.rep());
            Self::lemma_rep_injective(r, Self::from_rep(r.rep()));
        }
        r
    }
}

impl<const M: u128> AddSpecImpl for StaticModInt<M> {
    open spec fn obeys_add_spec() -> bool {
        true
    }

    open spec fn add_req(self, rhs: Self) -> bool {
        valid_modulus(M) && self.rep() + rhs.rep() <= u128::MAX
    }

    open spec fn add_spec(self, rhs: Self) -> Self {
        Self::from_rep(((self.rep() + rhs.rep()) % (M as int)) as u128)
    }
}

/// `-` on Montgomery forms, as `StaticModInt::sub`.
impl<const M: u128> Sub for StaticModInt<M> {
    type Output = Self;

    fn sub(self, rhs: Self) -> (r: Self) {
        let r = StaticModInt::<M>::sub(&self, rhs);
        proof {
            Self::lemma_from_rep(r.rep());
            Self::lemma_rep_injective(r, Self::from_rep(r.rep()));
        }
        r
    }
}

impl<const M: u128> SubSpecImpl for StaticModInt<M> {
    open spec fn obeys_sub_spec() -> bool {
        true
    }

    open spec fn sub_req(self, rhs: Self) -> bool {
        valid_modulus(M) && (self.rep() >= rhs.rep() || (self.rep() + M <= u128::MAX && rhs.rep() <= self.rep() + M))
    }

    open spec fn sub_spec(self, rhs: Self) -> Self {
        Self::from_rep(
            (if self.rep() >= rhs.rep() {
                self.rep() - rhs.rep()
            } else {
                self.rep() + M - rhs.rep()
            }) as u128,
        )
    }
}

/// `*` on Montgomery forms, as `StaticModInt::mul`.
impl<const M: u128> Mul for StaticModInt<M> {
    type Output = Self;

    fn mul(self, rhs: Self) -> (r: Self) {
        let r = StaticModInt::<M>::mul(&self, rhs);
        proof {
            Self::lemma_from_rep(r.rep());
            Self::lemma_rep_injective(r, Self::from_rep(r.rep()));
        }
        r
    }
}

impl<const M: u128> MulSpecImpl for StaticModInt<M> {
    open spec fn obeys_mul_spec() -> bool {
        true
    }

    open spec fn mul_req(self, rhs: Self) -> bool {
        valid_modulus(M) && (self.rep() == radix() % (M as int) || rhs.rep() == radix() % (M as int)
            || (self.rep() as int * rhs.rep() as int) / radix() + M <= u128::MAX)
    }

    open spec fn mul_spec(self, rhs: Self) -> Self {
        Self::from_rep(redc(M as int, self.rep() as int * rhs.rep() as int) as u128)
    }
}

/// `r` is a reduced Montgomery form modulo `m` of a residue whose product with `y` is `x`.
pub open spec fn is_quotient_form(m: int, r: u128, x: int, y: int) -> bool {
    r < m && (redc(m, r as int) * y) % m == x
}

/// `/` on Montgomery forms, as `StaticModInt::div`: the quotient, or `Err` of `gcd(rhs, M)`
/// when `rhs` is not invertible.
impl<const M: u128> Div for StaticModInt<M> {
    type Output = Result<Self, u128>;

    fn div(self, rhs: Self) -> (res: Result<Self, u128>) {
        let res = StaticModInt::<M>::div(&self, rhs);
        proof {
            if let Ok(z) = res {
                let m = M as int;
                let y = rhs.value();
                assert(is_quotient_form(m, z.rep(), self.value(), y));
                let w = choose|r: u128| #[trigger] is_quotient_form(m, r, self.value(), y);
                assert(is_quotient_form(m, w, self.value(), y));
                lemma_mod_bound(w as int * crate::arith::r_inv(m), m);
                lemma_mod_bound(z.rep() as int * crate::arith::r_inv(m), m);
                lemma_mod_bound(rhs.rep() as int * crate::arith::r_inv(m), m);
                crate::arith::lemma_unit_cancel(m, y, redc(m, w as int), redc(m, z.rep() as int));
                crate::arith::lemma_redc_scaled_back(m, w as int);
                crate::arith::lemma_redc_scaled_back(m, z.rep() as int);
                lemma_small_mod(w as nat, M as nat);
                lemma_small_mod(z.rep() as nat, M as nat);
                Self::lemma_from_rep(w);
                Self::lemma_rep_injective(z, Self::from_rep(w));
            }
        }
        res
    }
}

impl<const M: u128> DivSpecImpl for StaticModInt<M> {
    open spec fn obeys_div_spec() -> bool {
        true
    }

    open spec fn div_req(self, rhs: Self) -> bool {
        valid_modulus(M)
    }

    open spec fn div_spec(self, rhs: Self) -> Result<Self, u128> {
        if spec_gcd(rhs.value() as nat, M as nat) == 1 {
            Ok(Self::from_rep(choose|r: u128| #[trigger] is_quotient_form(M as int, r, self.value(), rhs.value())))
        } else {
            Err(spec_gcd(rhs.value() as nat, M as nat) as u128)
        }
    }
}

/// Negation on Montgomery forms, as `StaticModInt::neg`.
impl<const M: u128> Neg for StaticModInt<M> {
    type Output = Self;

    fn neg(self) -> (r: Self) {
        let r = StaticModInt::<M>::neg(self);
        proof {
            Self::lemma_from_rep(r.rep());
            Self::lemma_rep_injective(r, Self::from_rep(r.rep()));
        }
        r
    }
}

impl<const M: u128> NegSpecImpl for StaticModInt<M> {
    open spec fn obeys_neg_spec() -> bool {
        true
    }

    open spec fn neg_req(self) -> bool {
        valid_modulus(M) && self.rep() <= M
    }

    open spec fn neg_spec(self) -> Self {
        Self::from_rep((if self.rep() == 0 { 0 } else { M - self.rep() }) as u128)
    }
}

/// Moduli known at compile time.
pub trait Modulus: Sized {
    const MOD: u128;
}

impl<const M: u128> Modulus for StaticModInt<M> {
    const MOD: u128 = M;
}

impl<const M: u128> StaticModInt<M> {
    /// The Montgomery form held.
    pub closed spec fn rep(self) -> u128 {
        self.0
    }

    /// The residue represented.
    pub open spec fn value(self) -> int {
        redc(M as int, self.rep() as int)
    }

    /// The Montgomery context of `M`.
    pub fn mon() -> (m: DynamicModInt)
        requires
            valid_modulus(M),
        ensures
            m.wf(),
            m.n == M,
    {
        DynamicModInt::new(M)
    }

    /// The element held as the Montgomery form `rx`.
    pub closed spec fn from_rep(rx: u128) -> Self {
        StaticModInt(rx)
    }

    /// `from_rep(rx)` holds `rx`, and `from_rep(0)` is zero.
    pub proof fn lemma_from_rep(rx: u128)
        ensures
            Self::from_rep(rx).rep() == rx,
            M > 0 ==> Self::from_rep(0).value() == 0,
    {
        lemma_mul_basics(crate::arith::r_inv(M as int));
        if M > 0 {
            lemma_small_mod(0, M as nat);
        }
    }

    /// An element is determined by its Montgomery form: equal forms are equal elements.
    pub proof fn lemma_rep_injective(a: Self, b: Self)
        requires
            a.rep() == b.rep(),
        ensures
            a == b,
    {
    }

    pub fn raw(rx: u128) -> (r: Self)
        ensures
            r.rep() == rx,
            r == Self::from_rep(rx),
            M > 0 && rx == 0 ==> r.value() == 0,
    {
        proof {
            lemma_mul_basics(crate::arith::r_inv(M as int));
            if M > 0 {
                lemma_small_mod(0, M as nat);
            }
        }
        Self(rx)
    }

    /// The residue of `x`.
    pub fn new(x: u128) -> (r: Self)
        requires
            valid_modulus(M),
        ensures
            r.rep() == (x as int * radix()) % (M as int),
            r.rep() < M,
            r.value() == x % M,
    {
        proof {
            vstd::arithmetic::div_mod::lemma_mod_bound(x as int * radix(), M as int);
            crate::arith::lemma_value_of_repr(M as int, x as int);
        }
        Self::raw(Self::mon().mr(x))
    }

    /// Same as `new`.
    pub fn new_const(x: u128) -> (r: Self)
        requires
            valid_modulus(M),
        ensures
            r.rep() == (x as int * radix()) % (M as int),
            r.rep() < M,
            r.value() == x % M,
    {
        Self::new(x)
    }

    /// The residue `1`.
    pub fn one() -> (r: Self)
        requires
            valid_modulus(M),
        ensures
            r.rep() == radix() % (M as int),
            r.rep() < M,
            r.value() == 1int % (M as int),
    {
        proof {
            lemma_mul_basics(radix());
            crate::arith::lemma_value_of_repr(M as int, 1);
        }
        Self::raw(Self::mon().one())
    }

    /// The residue as an integer in `[0, M)`.
    pub fn val(&self) -> (r: u128)
        requires
            valid_modulus(M),
        ensures
            r == self.value(),
    {
        Self::mon().val(self.0)
    }

    /// Same as `val`.
    pub fn val_const(&self) -> (r: u128)
        requires
            valid_modulus(M),
        ensures
            r == self.value(),
    {
        Self::mon().val_const(self.0)
    }

    pub fn add(self, rhs: Self) -> (r: Self)
        requires
            valid_modulus(M),
            self.rep() + rhs.rep() <= u128::MAX,
        ensures
            r.rep() == (self.rep() + rhs.rep()) % (M as int),
            r.rep() < M,
            r.value() == (self.value() + rhs.value()) % (M as int),
    {
        proof {
            crate::arith::lemma_redc_add(M as int, self.rep() as int, rhs.rep() as int);
            crate::arith::lemma_redc_mod(M as int, self.rep() + rhs.rep());
        }
        Self::raw(Self::mon().add(self.0, rhs.0))
    }

    pub fn sub(&self, rhs: Self) -> (r: Self)
        requires
            valid_modulus(M),
            self.rep() >= rhs.rep() || (self.rep() + M <= u128::MAX && rhs.rep() <= self.rep() + M),
        ensures
            r.rep() == (if self.rep() >= rhs.rep() { self.rep() - rhs.rep() } else { self.rep() + M - rhs.rep() }),
            self.rep() < M && rhs.rep() < M ==> r.rep() < M,
            r.value() == (self.value() - rhs.value()) % (M as int),
    {
        let m = Self::mon();
        let d = m.sub(self.0, rhs.0);
        proof {
            crate::arith::lemma_redc_sub(M as int, self.rep() as int, rhs.rep() as int);
            crate::arith::lemma_redc_mod(M as int, self.rep() - rhs.rep());
            crate::arith::lemma_redc_mod(M as int, d as int);
        }
        Self::raw(d)
    }

    pub fn mul_const(&self, rhs: Self) -> (r: Self)
        requires
            valid_modulus(M),
            self.rep() == radix() % (M as int) || rhs.rep() == radix() % (M as int)
                || (self.rep() as int * rhs.rep() as int) / radix() + M <= u128::MAX,
        ensures
            r.rep() == redc(M as int, self.rep() as int * rhs.rep() as int),
            r.rep() < M,
            r.value() == (self.value() * rhs.value()) % (M as int),
    {
        proof {
            crate::arith::lemma_redc_mul_value(M as int, self.rep() as int, rhs.rep() as int);
        }
        Self::raw(Self::mon().mul_const(self.0, rhs.0))
    }

    /// Multiplication.
    pub fn mul(&self, rhs: Self) -> (r: Self)
        requires
            valid_modulus(M),
            self.rep() == radix() % (M as int) || rhs.rep() == radix() % (M as int)
                || (self.rep() as int * rhs.rep() as int) / radix() + M <= u128::MAX,
        ensures
            r.rep() == redc(M as int, self.rep() as int * rhs.rep() as int),
            r.rep() < M,
            r.value() == (self.value() * rhs.value()) % (M as int),
    {
        proof {
            crate::arith::lemma_redc_mul_value(M as int, self.rep() as int, rhs.rep() as int);
        }
        Self::raw(Self::mon().mul(self.0, rhs.0))
    }

    /// Division: `self * rhs^{-1}`, or `gcd(rhs, M)` when `rhs` is not invertible.
    pub fn div_const(&self, rhs: Self) -> (res: Result<Self, u128>)
        requires
            valid_modulus(M),
        ensures
            match res {
                Ok(z) => {
                    &&& spec_gcd(rhs.value() as nat, M as nat) == 1
                    &&& z.rep() < M
                    &&& (z.value() * rhs.value()) % (M as int) == self.value()
                },
                Err(g) => {
                    &&& spec_gcd(rhs.value() as nat, M as nat) != 1
                    &&& g == spec_gcd(rhs.value() as nat, M as nat)
                },
            },
    {
        match Self::mon().div_const(self.0, rhs.0) {
            Ok(x) => Ok(Self::raw(x)),
            Err(d) => Err(d),
        }
    }

    /// Division, as `div_const`.
    pub fn div(&self, rhs: Self) -> (res: Result<Self, u128>)
        requires
            valid_modulus(M),
        ensures
            match res {
                Ok(z) => {
                    &&& spec_gcd(rhs.value() as nat, M as nat) == 1
                    &&& z.rep() < M
                    &&& (z.value() * rhs.value()) % (M as int) == self.value()
                },
                Err(g) => {
                    &&& spec_gcd(rhs.value() as nat, M as nat) != 1
                    &&& g == spec_gcd(rhs.value() as nat, M as nat)
                },
            },
    {
        match Self::mon().div(self.0, rhs.0) {
            Ok(x) => Ok(Self::raw(x)),
            Err(d) => Err(d),
        }
    }

    pub fn neg(self) -> (r: Self)
        requires
            valid_modulus(M),
            self.rep() <= M,
        ensures
            r.rep() == (if self.rep() == 0 { 0 } else { M - self.rep() }),
            r.rep() < M,
            r.value() == (0 - self.value()) % (M as int),
    {
        let m = Self::mon();
        let d = m.neg(self.0);
        proof {
            crate::arith::lemma_redc_sub(M as int, 0, self.rep() as int);
            crate::arith::lemma_redc_mod(M as int, 0 - self.rep());
            crate::arith::lemma_redc_mod(M as int, d as int);
            lemma_mul_basics(crate::arith::r_inv(M as int));
            lemma_small_mod(0, M as nat);
            assert(redc(M as int, 0) == 0);
        }
        Self::raw(d)
    }

    pub fn pow(&self, e: u128) -> (r: Self)
        requires
            valid_modulus(M),
            e == 0 || self.rep() == radix() % (M as int)
                || (self.rep() as int * self.rep() as int) / radix() + M <= u128::MAX,
        ensures
            r.rep() == (pow(self.value(), e as nat) * radix()) % (M as int),
            r.rep() < M,
            r.value() == pow(self.value(), e as nat) % (M as int),
    {
        proof {
            crate::arith::lemma_redc_pow_value(M as int, self.value(), e as nat);
        }
        Self::raw(Self::mon().pow(self.0, e))
    }

    /// Same as `pow`.
    pub fn pow_const(&self, e: u128) -> (r: Self)
        requires
            valid_modulus(M),
            e == 0 || self.rep() == radix() % (M as int)
                || (self.rep() as int * self.rep() as int) / radix() + M <= u128::MAX,
        ensures
            r.rep() == (pow(self.value(), e as nat) * radix()) % (M as int),
            r.rep() < M,
            r.value() == pow(self.value(), e as nat) % (M as int),
    {
        proof {
            crate::arith::lemma_redc_pow_value(M as int, self.value(), e as nat);
        }
        Self::raw(Self::mon().pow_const(self.0, e))
    }

    /// The inverse, or `gcd(self, M)` when there is none.
    pub fn inv(&self) -> (res: Result<Self, u128>)
        requires
            valid_modulus(M),
        ensures
            match res {
                Ok(y) => {
                    &&& spec_gcd(self.value() as nat, M as nat) == 1
                    &&& y.rep() < M
                    &&& (self.value() * y.value()) % (M as int) == 1int % (M as int)
                },
                Err(g) => {
                    &&& spec_gcd(self.value() as nat, M as nat) != 1
                    &&& g == spec_gcd(self.value() as nat, M as nat)
                },
            },
    {
        match Self::mon().inv(self.0) {
            Ok(ri) => Ok(Self::raw(ri)),
            Err(d) => Err(d),
        }
    }

    /// Same as `inv`.
    pub fn inv_const(&self) -> (res: Result<Self, u128>)
        requires
            valid_modulus(M),
        ensures
            match res {
                Ok(y) => {
                    &&& spec_gcd(self.value() as nat, M as nat) == 1
                    &&& y.rep() < M
                    &&& (self.value() * y.value()) % (M as int) == 1int % (M as int)
                },
                Err(g) => {
                    &&& spec_gcd(self.value() as nat, M as nat) != 1
                    &&& g == spec_gcd(self.value() as nat, M as nat)
                },
            },
    {
        match Self::mon().inv_const(self.0) {
            Ok(ri) => Ok(Self::raw(ri)),
            Err(d) => Err(d),
        }
    }
}


/// Every element of `s` is held in reduced Montgomery form (below the modulus).
pub open spec fn all_reduced<const M: u128>(s: Seq<StaticModInt<M>>) -> bool {
    forall|k: int| 0 <= k < s.len() ==> (#[trigger] s[k]).rep() < M
}

/// The residues represented by the elements of `s`.
pub open spec fn values<const M: u128>(s: Seq<StaticModInt<M>>) -> Seq<int> {
    s.map_values(|x: StaticModInt<M>| x.value())
}

/// Two reduced Montgomery forms can be multiplied without overflow.
pub proof fn lemma_reduced_product(x: u128, y: u128, m: u128)
    requires
        valid_modulus(m),
        x < m,
        y < m,
    ensures
        (x as int * y as int) / radix() + m <= u128::MAX,
{
    crate::arith::lemma_small_product(x as int, y as int);
}

} // verus!
