//! Number-theoretic definitions and lemmas shared by the modular arithmetic.
use vstd::prelude::*;
use vstd::arithmetic::div_mod::*;
use vstd::arithmetic::mul::*;
use vstd::arithmetic::power::*;
use vstd::arithmetic::power2::{lemma_pow2_pos, lemma_pow2_unfold, pow2};

verus! {

/// `2^128`, the Montgomery radix `R` of the 128-bit arithmetic.
pub open spec fn radix() -> int {
    0x1_0000_0000_0000_0000_0000_0000_0000_0000int
}

/// `2^64`, the base of the half-word decomposition.
pub open spec fn half_radix() -> int {
    0x1_0000_0000_0000_0000int
}

/// Greatest common divisor, by Euclid's recursion (`gcd(0, b) = b`).
pub open spec fn spec_gcd(a: nat, b: nat) -> nat
    decreases a,
{
    if a == 0 {
        b
    } else {
        spec_gcd(b % a, a)
    }
}

/// The inverse of `R = 2^128` modulo an odd `n`: `((n + 1) / 2)^128 mod n`,
/// since `(n + 1) / 2` is the inverse of `2`.
pub open spec fn r_inv(n: int) -> int {
    pow((n + 1) / 2, 128) % n
}

/// Montgomery reduction: the residue `x * R^{-1} mod n`.
pub open spec fn redc(n: int, x: int) -> int {
    (x * r_inv(n)) % n
}

pub proof fn lemma_pow_nonneg(x: nat, e: nat)
    ensures
        pow(x as int, e) >= 0,
    decreases e,
{
    reveal(pow);
    if e > 0 {
        lemma_pow_nonneg(x, (e - 1) as nat);
        lemma_mul_nonnegative(x as int, pow(x as int, (e - 1) as nat));
    }
}

pub proof fn lemma_radix_is_pow()
    ensures
        pow(2, 128) == radix(),
{
    vstd::arithmetic::power2::lemma2_to64();
    vstd::arithmetic::power2::lemma2_to64_rest();
    vstd::arithmetic::power2::lemma_pow2(128);
    vstd::arithmetic::power2::lemma_pow2_adds(64, 64);
    vstd::arithmetic::power2::lemma_pow2(64);
    assert(pow2(64) == 0x1_0000_0000_0000_0000nat);
    assert(radix() == 0x1_0000_0000_0000_0000 * 0x1_0000_0000_0000_0000);
}

/// `R * R^{-1} = 1 (mod n)` for odd `n`.
pub proof fn lemma_r_inv(n: int)
    requires
        n > 0,
        n % 2 == 1,
    ensures
        (radix() * r_inv(n)) % n == 1int % n,
        0 <= r_inv(n) < n,
{
    let h = ((n + 1) / 2);
    let ni = n;
    assert(2 * h == ni + 1);
    lemma_pow_distributes(2, h, 128);
    lemma_radix_is_pow();
    lemma_pow_nonneg(h as nat, 128);
    lemma_pow_mod_noop(ni + 1, 128, ni);
    assert((ni + 1) % ni == 1int % ni) by {
        lemma_mod_add_multiples_vanish(1, ni);
    }
    lemma_pow_mod_noop(1, 128, ni);
    lemma1_pow(128);
    // pow(1 % n, 128) % n == pow(1, 128) % n == 1 % n
    assert(pow(ni + 1, 128) % ni == 1int % ni);
    lemma_mul_mod_noop_right(radix(), pow(h, 128), ni);
    lemma_mod_bound(pow(h, 128), ni);
}

/// Montgomery reduction depends only on the residue of its argument.
pub proof fn lemma_redc_mod(n: int, x: int)
    requires
        n > 0,
        n % 2 == 1,
    ensures
        redc(n, x) == redc(n, x % n),
        0 <= redc(n, x) < n,
{
    lemma_mul_mod_noop_left(x, r_inv(n), n);
    lemma_mod_bound((x * r_inv(n)), n);
}

/// The value `t < n` with `t * R = a (mod n)` is `redc(n, a)`.
pub proof fn lemma_redc_unique(n: int, t: int, a: int)
    requires
        n > 0,
        n % 2 == 1,
        0 <= t < n,
        (t * radix()) % n == a % n,
    ensures
        t == redc(n, a),
{
    let ri = r_inv(n);
    lemma_r_inv(n);
    // redc(n, a) = a * ri % n = (a % n) * ri % n = ((t R) % n) * ri % n = t R ri % n
    lemma_mul_mod_noop_left(a, ri, n);
    lemma_mul_mod_noop_left((t * radix()), ri, n);
    lemma_mul_is_associative(t, radix(), ri);
    // t * (R ri) % n = t * ((R ri) % n) % n = t * (1 % n) % n
    lemma_mul_mod_noop_right(t, (radix() * ri), n);
    lemma_mul_mod_noop_right(t, 1, n);
    lemma_small_mod(t as nat, n as nat);
}

/// `redc(n, x * R) = x (mod n)`.
pub proof fn lemma_redc_of_scaled(n: int, x: int)
    requires
        n > 0,
        n % 2 == 1,
    ensures
        redc(n, x * radix()) == x % n,
        redc(n, (x * radix()) % n) == x % n,
{
    lemma_mod_bound(x, n);
    lemma_mul_mod_noop_left(x, radix(), n);
    lemma_redc_unique(n, x % n, x * radix());
    lemma_redc_mod(n, x * radix());
}

/// Montgomery product of two Montgomery representations.
pub proof fn lemma_redc_product(n: int, rx: int, ry: int, a: int, b: int)
    requires
        n > 0,
        n % 2 == 1,
        rx % n == (a * radix()) % n,
        ry % n == (b * radix()) % n,
    ensures
        redc(n, rx * ry) == (a * b * radix()) % n,
{
    let v = (a * b * radix()) % n;
    lemma_mod_bound((a * b * radix()), n);
    // v * R = a b R R = (a R)(b R) = rx ry (mod n)
    lemma_mul_mod_noop_left((a * b * radix()), radix(), n);
    lemma_mul_mod_noop_general(rx, ry, n);
    lemma_mul_mod_noop_general((a * radix()), (b * radix()), n);
    assert((a * b * radix()) * radix() == (a * radix()) * (b * radix())) by (nonlinear_arith);
    lemma_redc_unique(n, v, rx * ry);
}

} // verus!

verus! {

/// `redc(n, a) * R = a (mod n)`.
pub proof fn lemma_redc_scaled_back(n: int, a: int)
    requires
        n > 0,
        n % 2 == 1,
    ensures
        (redc(n, a) * radix()) % n == a % n,
{
    let ri = r_inv(n);
    lemma_r_inv(n);
    lemma_mul_mod_noop_left(a * ri, radix(), n);
    assert((a * ri) * radix() == a * (radix() * ri)) by (nonlinear_arith);
    lemma_mul_mod_noop_right(a, radix() * ri, n);
    lemma_mul_mod_noop_right(a, 1, n);
}

/// The product of two residues below `2^127` is below `2^254`.
pub proof fn lemma_small_product(a: int, b: int)
    requires
        0 <= a < 0x8000_0000_0000_0000_0000_0000_0000_0000,
        0 <= b < 0x8000_0000_0000_0000_0000_0000_0000_0000,
    ensures
        0 <= (a * b) / radix() < 0x4000_0000_0000_0000_0000_0000_0000_0000,
{
    let h = 0x8000_0000_0000_0000_0000_0000_0000_0000int;
    lemma_mul_upper_bound(a, h - 1, b, h - 1);
    lemma_mul_nonnegative(a, b);
    assert((h - 1) * (h - 1) < radix() * 0x4000_0000_0000_0000_0000_0000_0000_0000);
    lemma_div_pos_is_pos(a * b, radix());
    lemma_div_is_ordered(a * b, radix() * 0x4000_0000_0000_0000_0000_0000_0000_0000 - 1, radix());
    lemma_fundamental_div_mod_converse(radix() * 0x4000_0000_0000_0000_0000_0000_0000_0000 - 1, radix(), 0x3fff_ffff_ffff_ffff_ffff_ffff_ffff_ffff, radix() - 1);
}

} // verus!

verus! {

/// `gcd(a, b)` is positive and divides both `a` and `b`.
pub proof fn lemma_gcd_divides(a: nat, b: nat)
    requires
        a > 0 || b > 0,
    ensures
        spec_gcd(a, b) > 0,
        a % spec_gcd(a, b) == 0,
        b % spec_gcd(a, b) == 0,
    decreases a,
{
    if a == 0 {
        lemma_mod_self_0(b as int);
        lemma_small_mod(0, b);
    } else {
        let g = spec_gcd(a, b);
        lemma_gcd_divides(b % a, a);
        lemma_fundamental_div_mod(b as int, a as int);
        // b = a (b / a) + b % a, and g divides a and b % a
        lemma_fundamental_div_mod(a as int, g as int);
        lemma_fundamental_div_mod((b % a) as int, g as int);
        assert(b == g * ((a / g) * (b / a) + (b % a) / g)) by (nonlinear_arith)
            requires
                b == a * (b / a) + b % a,
                a == g * (a / g),
                b % a == g * ((b % a) / g),
        ;
        lemma_mod_multiples_basic(((a / g) * (b / a) + (b % a) / g) as int, g as int);
        lemma_mul_is_commutative(((a / g) * (b / a) + (b % a) / g) as int, g as int);
    }
}

/// Bezout's identity: `x a + y b = gcd(a, b)` for some integers `x` and `y`.
pub proof fn lemma_bezout(a: nat, b: nat) -> (r: (int, int))
    ensures
        r.0 * a + r.1 * b == spec_gcd(a, b),
    decreases a,
{
    if a == 0 {
        (0, 1)
    } else {
        let (x, y) = lemma_bezout(b % a, a);
        lemma_fundamental_div_mod(b as int, a as int);
        let q = b as int / a as int;
        let r = (b % a) as int;
        assert((y - x * q) * a + x * b == x * r + y * a) by (nonlinear_arith)
            requires
                b == a * q + r,
        ;
        (y - x * q, x)
    }
}

/// A common divisor of `a` and `b` divides `gcd(a, b)`.
pub proof fn lemma_common_divisor(a: nat, b: nat, d: nat)
    requires
        d > 0,
        a % d == 0,
        b % d == 0,
    ensures
        spec_gcd(a, b) % d == 0,
{
    let (x, y) = lemma_bezout(a, b);
    let di = d as int;
    lemma_fundamental_div_mod(a as int, di);
    lemma_fundamental_div_mod(b as int, di);
    let ka = a as int / di;
    let kb = b as int / di;
    assert(x * a + y * b == di * (x * ka + y * kb)) by (nonlinear_arith)
        requires
            a == di * ka,
            b == di * kb,
    ;
    lemma_mod_multiples_basic(x * ka + y * kb, di);
    lemma_mul_is_commutative(x * ka + y * kb, di);
}

/// Factors of two do not change the gcd with an odd number: `gcd(2 a, n) = gcd(a, n)`.
pub proof fn lemma_gcd_double(a: nat, n: nat)
    requires
        n % 2 == 1,
    ensures
        spec_gcd(2 * a, n) == spec_gcd(a, n),
{
    let g1 = spec_gcd(2 * a, n);
    let g2 = spec_gcd(a, n);
    lemma_gcd_divides(2 * a, n);
    lemma_gcd_divides(a, n);
    // g2 divides 2 a and n
    lemma_fundamental_div_mod(a as int, g2 as int);
    let k2 = a as int / g2 as int;
    assert(2 * a == g2 * (2 * k2)) by (nonlinear_arith)
        requires
            a == g2 * k2 + 0,
    ;
    lemma_mod_multiples_basic(2 * k2, g2 as int);
    lemma_mul_is_commutative(2 * k2, g2 as int);
    lemma_common_divisor(2 * a, n, g2);
    // g1 is odd, divides 2 a, hence divides a
    lemma_fundamental_div_mod(n as int, g1 as int);
    lemma_fundamental_div_mod((2 * a) as int, g1 as int);
    let kn = n as int / g1 as int;
    let k1 = (2 * a) as int / g1 as int;
    assert(g1 % 2 == 1) by {
        if g1 % 2 == 0 {
            let u = g1 as int / 2;
            assert(n == g1 * kn);
            assert(n == 2 * (u * kn)) by (nonlinear_arith)
                requires
                    n == g1 * kn,
                    g1 == 2 * u,
            ;
        }
    }
    assert(k1 % 2 == 0) by {
        if k1 % 2 != 0 {
            let u = g1 as int / 2;
            let v = k1 / 2;
            assert(g1 * k1 == 2 * (2 * u * v + u + v) + 1) by (nonlinear_arith)
                requires
                    g1 == 2 * u + 1,
                    k1 == 2 * v + 1,
            ;
        }
    }
    assert(a == g1 * (k1 / 2)) by (nonlinear_arith)
        requires
            2 * a == g1 * k1,
            k1 % 2 == 0,
    ;
    lemma_mod_multiples_basic(k1 / 2, g1 as int);
    lemma_mul_is_commutative(k1 / 2, g1 as int);
    lemma_common_divisor(a, n, g1);
    // each divides the other
    lemma_divisor_le(g1 as int, g2 as int);
    lemma_divisor_le(g2 as int, g1 as int);
}

/// The gcd with an odd number ignores the factors of two: `gcd(a, n) = gcd(odd_part(a), n)`.
pub proof fn lemma_gcd_odd_part(a: nat, n: nat)
    requires
        a > 0,
        n % 2 == 1,
    ensures
        spec_gcd(a, n) == spec_gcd(odd_part(a), n),
    decreases a,
{
    if a % 2 == 1 {
        vstd::arithmetic::power2::lemma2_to64();
        assert(two_adic(a) == 0);
        assert(odd_part(a) == a / 1);
    } else {
        let h = a / 2;
        lemma_gcd_odd_part(h, n);
        lemma_fundamental_div_mod(a as int, 2);
        assert(a == 2 * h);
        lemma_gcd_double(h, n);
        let t = two_adic(h);
        assert(two_adic(a) == t + 1);
        lemma_pow2_unfold(t + 1);
        lemma_pow2_pos(t);
        lemma_div_denominator(a as int, 2, pow2(t) as int);
        assert(odd_part(a) == odd_part(h));
    }
}

/// A common divisor `d` of `x` and `n` divides `x y mod n`.
pub proof fn lemma_divides_mod(x: int, y: int, n: int, d: int)
    requires
        n > 0,
        d > 0,
        x % d == 0,
        n % d == 0,
    ensures
        ((x * y) % n) % d == 0,
{
    lemma_fundamental_div_mod(x * y, n);
    lemma_fundamental_div_mod(x, d);
    lemma_fundamental_div_mod(n, d);
    let q = (x * y) / n;
    let kx = x / d;
    let kn = n / d;
    assert((x * y) % n == d * (kx * y - kn * q)) by (nonlinear_arith)
        requires
            x * y == n * q + (x * y) % n,
            x == d * kx + 0,
            n == d * kn + 0,
    ;
    lemma_mod_multiples_basic(kx * y - kn * q, d);
    lemma_mul_is_commutative(kx * y - kn * q, d);
}

/// The Montgomery factor is a unit: `gcd(n, z) = gcd(n, redc(n, z))` for `0 <= z < n`.
pub proof fn lemma_gcd_redc(n: int, z: int)
    requires
        n > 0,
        n % 2 == 1,
        0 <= z < n,
    ensures
        spec_gcd(n as nat, z as nat) == spec_gcd(n as nat, redc(n, z) as nat),
{
    let v = redc(n, z);
    lemma_mod_bound(z * r_inv(n), n);
    let g1 = spec_gcd(n as nat, z as nat);
    let g2 = spec_gcd(n as nat, v as nat);
    lemma_gcd_divides(n as nat, z as nat);
    lemma_gcd_divides(n as nat, v as nat);
    lemma_divides_mod(z, r_inv(n), n, g1 as int);
    lemma_common_divisor(n as nat, v as nat, g1);
    lemma_redc_scaled_back(n, z);
    lemma_small_mod(z as nat, n as nat);
    lemma_divides_mod(v, radix(), n, g2 as int);
    lemma_common_divisor(n as nat, z as nat, g2);
    lemma_divisor_le(g1 as int, g2 as int);
    lemma_divisor_le(g2 as int, g1 as int);
}

/// Multiplying by a unit modulo `n` is injective on residues.
pub proof fn lemma_unit_cancel(n: int, c: int, a: int, b: int)
    requires
        n > 0,
        c >= 0,
        spec_gcd(c as nat, n as nat) == 1,
        0 <= a < n,
        0 <= b < n,
        (a * c) % n == (b * c) % n,
    ensures
        a == b,
{
    let (x, y) = lemma_bezout(c as nat, n as nat);
    lemma_mod_equivalence(a * c, b * c, n);
    let t = a * c - b * c;
    assert(a - b == x * t + n * ((a - b) * y)) by (nonlinear_arith)
        requires
            x * c + y * n == 1,
            t == a * c - b * c,
    ;
    lemma_mod_multiples_vanish((a - b) * y, x * t, n);
    lemma_mul_mod_noop_right(x, t, n);
    lemma_mul_basics(x);
    lemma_small_mod(0, n as nat);
    lemma_mod_equivalence(a, b, n);
    lemma_small_mod(a as nat, n as nat);
    lemma_small_mod(b as nat, n as nat);
}

/// A positive multiple of `d` is at least `d`.
pub proof fn lemma_divisor_le(d: int, x: int)
    requires
        d > 0,
        x > 0,
        x % d == 0,
    ensures
        d <= x,
{
    lemma_fundamental_div_mod(x, d);
    if x / d <= 0 {
        lemma_mul_nonpositive_helper(d, x / d);
    } else {
        lemma_mul_increases(x / d, d);
        lemma_mul_is_commutative(x / d, d);
    }
}

proof fn lemma_mul_nonpositive_helper(d: int, q: int)
    requires
        d > 0,
        q <= 0,
    ensures
        d * q <= 0,
{
    lemma_mul_left_inequality(d, q, 0);
}

} // verus!

verus! {

/// A word times a residue below `2^127` has a high word below `2^127`.
pub proof fn lemma_wide_product(a: int, b: int)
    requires
        0 <= a < radix(),
        0 <= b < 0x8000_0000_0000_0000_0000_0000_0000_0000,
    ensures
        0 <= (a * b) / radix() < 0x8000_0000_0000_0000_0000_0000_0000_0000,
{
    let h = 0x8000_0000_0000_0000_0000_0000_0000_0000int;
    lemma_mul_nonnegative(a, b);
    if b == 0 {
        lemma_mul_basics(a);
        lemma_basic_div(0, radix());
        return;
    }
    lemma_mul_strict_inequality(a, radix(), b);
    lemma_mul_left_inequality(radix(), b, h);
    lemma_div_pos_is_pos(a * b, radix());
    lemma_div_by_multiple(h, radix());
    lemma_mul_is_commutative(h, radix());
    lemma_div_by_multiple_is_strongly_ordered(a * b, radix() * h, h, radix());
}

} // verus!

verus! {

/// Montgomery reduction is additive.
pub proof fn lemma_redc_add(n: int, a: int, b: int)
    requires
        n > 0,
        n % 2 == 1,
    ensures
        redc(n, a + b) == (redc(n, a) + redc(n, b)) % n,
{
    lemma_mul_is_distributive_add_other_way(r_inv(n), a, b);
    lemma_add_mod_noop(a * r_inv(n), b * r_inv(n), n);
}

/// Montgomery reduction is subtractive.
pub proof fn lemma_redc_sub(n: int, a: int, b: int)
    requires
        n > 0,
        n % 2 == 1,
    ensures
        redc(n, a - b) == (redc(n, a) - redc(n, b)) % n,
{
    lemma_mul_is_distributive_sub_other_way(r_inv(n), a, b);
    lemma_sub_mod_noop(a * r_inv(n), b * r_inv(n), n);
}

/// The residue of a Montgomery product is the product of the residues.
pub proof fn lemma_redc_mul_value(n: int, a: int, b: int)
    requires
        n > 0,
        n % 2 == 1,
    ensures
        redc(n, redc(n, a * b)) == (redc(n, a) * redc(n, b)) % n,
{
    lemma_redc_scaled_back(n, a);
    lemma_redc_scaled_back(n, b);
    lemma_redc_product(n, a, b, redc(n, a), redc(n, b));
    lemma_redc_of_scaled(n, redc(n, a) * redc(n, b));
}

/// The residue of a Montgomery power is the power of the residue.
pub proof fn lemma_redc_pow_value(n: int, x: int, e: nat)
    requires
        n > 0,
        n % 2 == 1,
    ensures
        redc(n, (pow(x, e) * radix()) % n) == pow(x, e) % n,
{
    lemma_redc_of_scaled(n, pow(x, e));
}

/// The residue of `x * R mod n` is `x mod n`.
pub proof fn lemma_value_of_repr(n: int, x: int)
    requires
        n > 0,
        n % 2 == 1,
    ensures
        redc(n, (x * radix()) % n) == x % n,
{
    lemma_redc_of_scaled(n, x);
}

} // verus!

verus! {

/// Montgomery representations are equal exactly when the residues are.
pub proof fn lemma_repr_injective(n: int, x: int, y: int)
    requires
        n > 0,
        n % 2 == 1,
    ensures
        ((x * radix()) % n == (y * radix()) % n) == (x % n == y % n),
{
    lemma_redc_of_scaled(n, x);
    lemma_redc_of_scaled(n, y);
    if x % n == y % n {
        lemma_mul_mod_noop_left(x, radix(), n);
        lemma_mul_mod_noop_left(y, radix(), n);
    }
}

/// The exponent of `2` in `m` (`0` for `m = 0`).
pub open spec fn two_adic(m: nat) -> nat
    decreases m,
{
    if m == 0 || m % 2 == 1 {
        0
    } else {
        1 + two_adic(m / 2)
    }
}

/// `m` with all factors `2` removed.
pub open spec fn odd_part(m: nat) -> nat {
    m / pow2(two_adic(m))
}

/// The exponent reported for the lowest set bit is the exponent of `2`.
pub proof fn lemma_two_adic_unique(x: nat, r: nat)
    requires
        x > 0,
        x % pow2(r) == 0,
        (x / pow2(r)) % 2 == 1,
    ensures
        r == two_adic(x),
    decreases r,
{
    reveal(pow);
    if r == 0 {
        vstd::arithmetic::power2::lemma2_to64();
    } else {
        lemma_pow2_unfold(r);
        lemma_pow2_pos((r - 1) as nat);
        let p = pow2((r - 1) as nat);
        // x = 2 p k, so x is even, x / 2 = p k
        lemma_fundamental_div_mod(x as int, (2 * p) as int);
        let k = x / (2 * p);
        assert(x == 2 * (p * k)) by {
            lemma_mul_is_associative(2, p as int, k as int);
        }
        lemma_mod_multiples_basic((p * k) as int, 2);
        lemma_mul_is_commutative((p * k) as int, 2);
        assert(x / 2 == p * k) by {
            lemma_div_multiples_vanish((p * k) as int, 2);
        }
        lemma_mod_multiples_basic(k as int, p as int);
        lemma_mul_is_commutative(k as int, p as int);
        lemma_div_multiples_vanish(k as int, p as int);
        lemma_mul_is_commutative(k as int, p as int);
        assert(x % 2 == 0);
        lemma_two_adic_unique(x / 2, (r - 1) as nat);
    }
}

} // verus!

verus! {

/// The Montgomery representation of the integer `x` modulo `n`.
pub open spec fn rep(n: int, x: int) -> int {
    (x * radix()) % n
}

pub proof fn lemma_rep_bound(n: int, x: int)
    requires
        n > 0,
    ensures
        0 <= rep(n, x) < n,
        rep(n, x) % n == rep(n, x),
{
    lemma_mod_bound(x * radix(), n);
    lemma_small_mod(rep(n, x) as nat, n as nat);
}

/// Montgomery multiplication of representations represents the product.
pub proof fn lemma_rep_mul(n: int, x: int, y: int)
    requires
        n > 0,
        n % 2 == 1,
    ensures
        redc(n, rep(n, x) * rep(n, y)) == rep(n, x * y),
{
    lemma_rep_bound(n, x);
    lemma_rep_bound(n, y);
    lemma_redc_product(n, rep(n, x), rep(n, y), x, y);
}

/// Modular addition of representations represents the sum.
pub proof fn lemma_rep_add(n: int, x: int, y: int)
    requires
        n > 0,
    ensures
        (rep(n, x) + rep(n, y)) % n == rep(n, x + y),
{
    lemma_add_mod_noop(x * radix(), y * radix(), n);
    lemma_mul_is_distributive_add_other_way(radix(), x, y);
}

/// A residue congruent to the difference of representations represents the difference.
pub proof fn lemma_rep_sub(n: int, x: int, y: int, r: int)
    requires
        n > 0,
        0 <= r < n,
        r % n == (rep(n, x) - rep(n, y)) % n,
    ensures
        r == rep(n, x - y),
{
    lemma_sub_mod_noop(x * radix(), y * radix(), n);
    lemma_mul_is_distributive_sub_other_way(radix(), x, y);
    lemma_small_mod(r as nat, n as nat);
}

/// Halving modulo odd `n`: the residue `h < n` with `2 h = rep(2 y)` represents `y`.
pub proof fn lemma_rep_half(n: int, y: int, h: int)
    requires
        n > 0,
        n % 2 == 1,
        0 <= h < n,
        (2 * h) % n == rep(n, 2 * y),
    ensures
        h == rep(n, y),
{
    lemma_rep_bound(n, y);
    let r = rep(n, y);
    // 2 r = rep(2 y) = 2 h (mod n), so 2 (h - r) = 0 (mod n); n odd gives h = r
    lemma_mul_mod_noop_right(2, y * radix(), n);
    assert(2 * (y * radix()) == (2 * y) * radix()) by (nonlinear_arith);
    lemma_fundamental_div_mod(2 * h, n);
    lemma_fundamental_div_mod(2 * r, n);
    let t = (2 * h) / n - (2 * r) / n;
    assert(2 * (h - r) == n * t) by (nonlinear_arith)
        requires
            2 * h == n * ((2 * h) / n) + (2 * h) % n,
            2 * r == n * ((2 * r) / n) + (2 * r) % n,
            (2 * h) % n == (2 * r) % n,
            t == (2 * h) / n - (2 * r) / n,
    ;
    // t must be even: n t is even and n is odd
    if t % 2 != 0 {
        lemma_fundamental_div_mod(t, 2);
        lemma_fundamental_div_mod(n, 2);
        assert(n * t == 2 * (2 * (n / 2) * (t / 2) + n / 2 + t / 2) + 1) by (nonlinear_arith)
            requires
                t == 2 * (t / 2) + 1,
                n == 2 * (n / 2) + 1,
        ;
        assert(false);
    }
    lemma_fundamental_div_mod(t, 2);
    assert(h - r == n * (t / 2)) by (nonlinear_arith)
        requires
            2 * (h - r) == n * t,
            t == 2 * (t / 2),
    ;
    if t / 2 != 0 {
        if t / 2 > 0 {
            lemma_mul_increases(t / 2, n);
            lemma_mul_is_commutative(t / 2, n);
        } else {
            lemma_mul_left_inequality(n, t / 2, -1);
            lemma_mul_unary_negation(n, 1);
        }
        assert(false);
    }
}

/// A power of two dividing `x > 0` is at most `2^two_adic(x)`.
pub proof fn lemma_two_adic_bound(x: nat, l: nat)
    requires
        x > 0,
        x % pow2(l) == 0,
    ensures
        l <= two_adic(x),
    decreases l,
{
    if l > 0 {
        lemma_pow2_unfold(l);
        lemma_pow2_pos((l - 1) as nat);
        let q = pow2((l - 1) as nat);
        lemma_mod_mod(x as int, 2, q as int);
        lemma_mul_is_commutative(2, q as int);
        lemma_small_mod(0, 2);
        assert(x % 2 == 0);
        lemma_mod_breakdown(x as int, 2, q as int);
        assert((x / 2) % q == 0) by {
            lemma_mul_is_commutative(2, q as int);
            lemma_mul_equality_converse(2, (x as int / 2) % q as int, 0);
        }
        lemma_two_adic_bound(x / 2, (l - 1) as nat);
    }
}

/// `2^two_adic(x)` divides `x > 0`.
pub proof fn lemma_two_adic_divides(x: nat)
    requires
        x > 0,
    ensures
        x % pow2(two_adic(x)) == 0,
    decreases x,
{
    if x % 2 == 1 {
        vstd::arithmetic::power2::lemma2_to64();
    } else {
        let t = two_adic(x / 2);
        lemma_two_adic_divides(x / 2);
        lemma_pow2_pos(t);
        lemma_pow2_unfold(t + 1);
        let k = (x / 2) / pow2(t);
        lemma_fundamental_div_mod((x / 2) as int, pow2(t) as int);
        assert(x == k * pow2(t + 1)) by (nonlinear_arith)
            requires
                x / 2 == pow2(t) * k,
                x % 2 == 0,
                pow2(t + 1) == 2 * pow2(t),
        ;
        lemma_mod_multiples_basic(k as int, pow2(t + 1) as int);
    }
}

} // verus!
