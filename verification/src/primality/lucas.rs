//! Jacobi symbols and the strong Lucas probable-prime test.
use vstd::prelude::*;
use vstd::arithmetic::div_mod::*;
use vstd::arithmetic::mul::*;
use vstd::arithmetic::power::*;
use vstd::arithmetic::power2::{lemma_pow2_pos, lemma_pow2_unfold, pow2};
use crate::arith::{
    lemma_redc_product, lemma_rep_add, lemma_rep_bound, lemma_rep_half, lemma_rep_mul,
    lemma_rep_sub, lemma_repr_injective, lemma_small_product, lemma_two_adic_unique, odd_part,
    radix, redc, rep, spec_gcd, two_adic,
};
use crate::bits::leading_zeros;
use crate::fps::u128::poly_eval;
use crate::primality::fermat::{is_prime_number, lemma_euclid, lemma_fermat, lemma_pow_succ, lemma_root_count, lemma_sqrt_one};
use crate::primality::lucas_identities::{lemma_doubling, lucas_u, lucas_v};
use crate::bits::trailing_zeros;
use crate::modint::u128::DynamicModInt as Mint;

verus! {

/// Euler's criterion: `0` when `p | a`, else `1` when `a^((p-1)/2) = 1 (mod p)`, else `-1`.
/// For an odd prime `p` this is the Legendre symbol `(a/p)`.
pub open spec fn euler_criterion(a: nat, p: nat) -> int {
    if a % p == 0 {
        0
    } else if pow(a as int, ((p - 1) / 2) as nat) % (p as int) == 1int % (p as int) {
        1
    } else {
        -1
    }
}

/// Modulo an odd prime `p` that does not divide `a`, `a^((p - 1) / 2)` is `1` or `-1`, so
/// the symbol is `-1` exactly when that power is `-1`.
pub proof fn lemma_euler_criterion_sign(a: nat, p: nat)
    requires
        is_prime_number(p),
        p % 2 == 1,
        a % p != 0,
    ensures
        pow(a as int, ((p - 1) / 2) as nat) % (p as int) == 1 || pow(a as int, ((p - 1) / 2) as nat) % (p as int) == p - 1,
        euler_criterion(a, p) == -1 <==> pow(a as int, ((p - 1) / 2) as nat) % (p as int) == p - 1,
        euler_criterion(a, p) == 1 <==> pow(a as int, ((p - 1) / 2) as nat) % (p as int) == 1,
{
    let h = ((p - 1) / 2) as nat;
    let y = pow(a as int, h);
    lemma_pow_adds(a as int, h, h);
    assert(h + h == (p - 1) as nat);
    lemma_fermat(p, a);
    lemma_sqrt_one(p, y);
    lemma_small_mod(1, p);
}

/// A square whose root an odd prime `p` does not divide has symbol `1`.
pub proof fn lemma_euler_criterion_square(x: nat, p: nat)
    requires
        is_prime_number(p),
        p % 2 == 1,
        x % p != 0,
    ensures
        euler_criterion(x * x, p) == 1,
{
    let h = ((p - 1) / 2) as nat;
    if (x * x) % p == 0 {
        lemma_euclid(p, x as int, x as int);
    }
    lemma_pow_multiplies(x as int, 2, h);
    lemma_pow_adds(x as int, 1, 1);
    lemma_pow1(x as int);
    assert(2 * h == (p - 1) as nat);
    lemma_fermat(p, x);
    lemma_small_mod(1, p);
}

/// The Jacobi symbol modulo an odd `n` is `1` or `-1` when `a` and `n` are coprime, and `0`
/// exactly when they share a factor.
pub proof fn lemma_jacobi_zero(a: nat, n: nat)
    requires
        n % 2 == 1,
    ensures
        jacobi_spec(a, n) == 0 <==> spec_gcd(a, n) != 1,
        jacobi_spec(a, n) == 0 || jacobi_spec(a, n) == 1 || jacobi_spec(a, n) == -1,
    decreases a,
{
    if a == 0 {
        assert(spec_gcd(0, n) == n);
    } else {
        let a1 = odd_part(a);
        let e = two_adic(a);
        lemma_odd_part_bounds(a);
        lemma_mod_bound(n as int, a1 as int);
        lemma_jacobi_zero(n % a1, a1);
        crate::arith::lemma_gcd_odd_part(a, n);
        assert(spec_gcd(a1, n) == spec_gcd(n % a1, a1));
        let j = jacobi_spec(n % a1, a1);
        let s1: int = if e % 2 == 1 && (n % 8 == 3 || n % 8 == 5) { -1 } else { 1 };
        let s2: int = if a1 % 4 == 3 && n % 4 == 3 { -1 } else { 1 };
        assert(jacobi_spec(a, n) == s1 * s2 * j);
        assert(s1 * s2 == 1 || s1 * s2 == -1) by (nonlinear_arith)
            requires
                s1 == 1 || s1 == -1,
                s2 == 1 || s2 == -1,
        ;
        if s1 * s2 == 1 {
            assert(s1 * s2 * j == j) by (nonlinear_arith)
                requires
                    s1 * s2 == 1,
            ;
        } else {
            assert(s1 * s2 * j == -j) by (nonlinear_arith)
                requires
                    s1 * s2 == -1,
            ;
        }
    }
}

/// The polynomial `x^k`: `k` zero coefficients and a one.
spec fn monomial(k: nat) -> Seq<int> {
    Seq::new(k, |i: int| 0int) + seq![1int]
}

proof fn lemma_monomial_eval(k: nat, x: int)
    ensures
        poly_eval(monomial(k), x) == pow(x, k),
    decreases k,
{
    let s = monomial(k);
    if k == 0 {
        assert(s.drop_first().len() == 0);
        assert(poly_eval(s.drop_first(), x) == 0);
        lemma_mul_basics(x);
        lemma_pow0(x);
    } else {
        assert(s.drop_first() =~= monomial((k - 1) as nat));
        assert(s[0] == 0);
        lemma_monomial_eval((k - 1) as nat, x);
        lemma_pow_succ(x, (k - 1) as nat);
    }
}

/// `(u - v) % p == 0` for residues `u`, `v` in `[0, p)` only when they are equal.
proof fn lemma_residues_equal(u: int, v: int, p: int)
    requires
        0 <= u < p,
        0 <= v < p,
        (u - v) % p == 0,
    ensures
        u == v,
{
    lemma_mod_equivalence(u, v, p);
    lemma_small_mod(u as nat, p as nat);
    lemma_small_mod(v as nat, p as nat);
}

/// Euler's criterion: modulo an odd prime `p` that does not divide `a`, the symbol is `1`
/// exactly when `a` is a square modulo `p`.
pub proof fn lemma_euler_criterion(a: nat, p: nat)
    requires
        is_prime_number(p),
        p % 2 == 1,
        a % p != 0,
    ensures
        euler_criterion(a, p) == 1 <==> exists|x: nat| #[trigger] ((x * x) % p) == a % p,
{
    let pi = p as int;
    let h = ((p - 1) / 2) as nat;
    lemma_small_mod(1, p);
    if exists|x: nat| #[trigger] ((x * x) % p) == a % p {
        let x = choose|x: nat| #[trigger] ((x * x) % p) == a % p;
        if x % p == 0 {
            lemma_mul_mod_noop_left(x as int, x as int, pi);
            lemma_mul_basics(x as int);
            lemma_small_mod(0, p);
        }
        lemma_euler_criterion_square(x, p);
        lemma_pow_mod_noop(a as int, h, pi);
        lemma_pow_mod_noop((x * x) as int, h, pi);
    } else if euler_criterion(a, p) == 1 {
        // `x^h - 1` would have the `h` squares `1^2, ..., h^2` and `a` as distinct roots
        let c = monomial(h).update(0, -1int);
        assert(c.drop_first() =~= monomial((h - 1) as nat));
        let roots = Seq::new(h + 1, |i: int| if i < h { ((i + 1) * (i + 1)) % pi } else { (a % p) as int });
        assert forall|i: int| 0 <= i < roots.len() implies #[trigger] poly_eval(c, roots[i]) % pi == 0 by {
            let r = roots[i];
            lemma_monomial_eval((h - 1) as nat, r);
            lemma_pow_succ(r, (h - 1) as nat);
            assert(poly_eval(c, r) == pow(r, h) - 1);
            if i < h {
                let y = i + 1;
                lemma_pow_mod_noop(y * y, h, pi);
                lemma_pow_adds(y, 1, 1);
                lemma_pow1(y);
                lemma_pow_multiplies(y, 2, h);
                assert(2 * h == (p - 1) as nat);
                lemma_small_mod(y as nat, p);
                lemma_fermat(p, y as nat);
            } else {
                lemma_pow_mod_noop(a as int, h, pi);
            }
            lemma_mod_equivalence(pow(r, h), 1, pi);
        }
        assert forall|i: int, j: int| 0 <= i < j < roots.len() implies (#[trigger] roots[i] - #[trigger] roots[j]) % pi != 0 by {
            let u = roots[i];
            let v = roots[j];
            lemma_mod_bound((i + 1) * (i + 1), pi);
            if (u - v) % pi == 0 {
                if j < h {
                    lemma_mod_bound((j + 1) * (j + 1), pi);
                    lemma_residues_equal(u, v, pi);
                    lemma_mod_equivalence((j + 1) * (j + 1), (i + 1) * (i + 1), pi);
                    assert((j + 1) * (j + 1) - (i + 1) * (i + 1) == (j - i) * (i + j + 2)) by (nonlinear_arith);
                    lemma_euclid(p, j - i, i + j + 2);
                    lemma_small_mod((j - i) as nat, p);
                    lemma_small_mod((i + j + 2) as nat, p);
                } else {
                    lemma_mod_bound(a as int, pi);
                    lemma_residues_equal(u, v, pi);
                    let x = (i + 1) as nat;
                    assert(((x * x) % p) == a % p);
                }
            }
        }
        lemma_root_count(p, c, roots);
    }
}

/// Legendre symbol by Euler's criterion: `a^((n-1)/2)` is `1`, `-1` (that is `n - 1`) or
/// anything else, reported as `1`, `-1` and `0`.
pub fn legendre(a: u128, mp: &Mint) -> (r: i8)
    requires
        mp.wf(),
    ensures
        r == euler_criterion(a as nat, mp.n as nat),
{
    let ghost a_orig = a;
    let a = mp.mod_n(a);
    if a == 0 {
        return 0;
    }
    let p = mp.n;
    let ghost pi = p as int;
    let ra = mp.mr(a);
    proof {
        lemma_mod_bound(a as int * radix(), pi);
        lemma_small_product(ra as int, ra as int);
        crate::arith::lemma_redc_of_scaled(pi, a as int);
        lemma_small_mod(a as nat, p as nat);
    }
    assert(p >> 1 == p / 2) by (bit_vector);
    let b = mp.pow(ra, p >> 1);
    proof {
        lemma_mul_basics(radix());
        lemma_repr_injective(pi, pow(a as int, (p / 2) as nat), 1);
        lemma_mod_twice(a as int, pi);
        lemma_mod_bound(radix(), pi);
        lemma_small_mod(b as nat, p as nat);
        lemma_mod_bound(pow(a as int, (p / 2) as nat) * radix(), pi);
        assert((p - 1) / 2 == p / 2);
        lemma_pow_mod_noop(a_orig as int, (p / 2) as nat, pi);
    }
    if b == mp.r1 {
        1
    } else {
        -1
    }
}

/// The Jacobi symbol `(a/n)` for odd `n`, by its reciprocity recursion:
/// `(0/n) = [n = 1]`, `(2/n) = -1` exactly when `n = 3, 5 (mod 8)`, and for odd `a`,
/// `(a/n) = (n mod a / a)`, negated when `a = n = 3 (mod 4)`.
pub open spec fn jacobi_spec(a: nat, n: nat) -> int
    decreases a,
{
    if a == 0 || n == 0 {
        if n == 1 { 1 } else { 0 }
    } else {
        let e = two_adic(a);
        let a1 = odd_part(a);
        let s1: int = if e % 2 == 1 && (n % 8 == 3 || n % 8 == 5) { -1 } else { 1 };
        let s2: int = if a1 % 4 == 3 && n % 4 == 3 { -1 } else { 1 };
        if a1 == 0 || a1 > a {
            0
        } else {
            s1 * s2 * jacobi_spec(n % a1, a1)
        }
    }
}

/// The odd part of a positive number is positive and at most the number.
proof fn lemma_odd_part_bounds(a: nat)
    requires
        a > 0,
    ensures
        0 < odd_part(a) <= a,
        odd_part(a) % 2 == 1,
        a % pow2(two_adic(a)) == 0,
    decreases a,
{
    lemma_pow2_pos(two_adic(a));
    if a % 2 == 1 {
        vstd::arithmetic::power2::lemma2_to64();
        lemma_div_by_one_helper(a);
    } else {
        lemma_odd_part_bounds(a / 2);
        lemma_pow2_unfold(two_adic(a));
        let t = two_adic(a / 2);
        assert(two_adic(a) == t + 1);
        lemma_div_denominator(a as int, 2, pow2(t) as int);
        assert(pow2(t + 1) == 2 * pow2(t));
        lemma_fundamental_div_mod(a as int, 2);
        lemma_fundamental_div_mod((a / 2) as int, pow2(t) as int);
        let k = (a / 2) / pow2(t);
        assert(a == 2 * (pow2(t) * k)) by {
            assert(a / 2 == pow2(t) * k);
        }
        assert(a == (2 * pow2(t)) * k) by {
            lemma_mul_is_associative(2, pow2(t) as int, k as int);
        }
        lemma_mod_multiples_basic(k as int, (2 * pow2(t)) as int);
        lemma_mul_is_commutative(k as int, (2 * pow2(t)) as int);
    }
}

proof fn lemma_div_by_one_helper(x: nat)
    ensures
        x / pow2(0) == x,
{
    vstd::arithmetic::power2::lemma2_to64();
}

/// The residue of `a` that the Jacobi symbol modulo odd `n` starts from: `a mod n`, taken
/// with `n` read as a signed 128-bit number, so that for `n >= 2^127` it is `a` modulo
/// `2^128 - n`.
pub open spec fn jacobi_start(a: int, n: nat) -> nat {
    if n < 0x8000_0000_0000_0000_0000_0000_0000_0000 {
        (a % (n as int)) as nat
    } else {
        (a % (0x1_0000_0000_0000_0000_0000_0000_0000_0000 - n)) as nat
    }
}

/// Jacobi symbol `(a/n)` for odd `n`, starting from `jacobi_start(a, n)`.
pub fn jacobi(a: i128, n: u128) -> (r: i8)
    requires
        n % 2 == 1,
    ensures
        r == jacobi_spec(jacobi_start(a as int, n as nat), n as nat),
        r == 0 <==> spec_gcd(jacobi_start(a as int, n as nat), n as nat) != 1,
        r == 0 || r == 1 || r == -1,
{
    proof {
        lemma_jacobi_zero(jacobi_start(a as int, n as nat), n as nat);
    }
    let ghost n0 = n;
    // the remainder modulo `n` read as `i128`; for `n >= 2^127` that is `-(2^128 - n)`, and a
    // Euclidean remainder depends only on the absolute value of the divisor
    let m: u128 = if n < 0x8000_0000_0000_0000_0000_0000_0000_0000 {
        n
    } else {
        u128::MAX - n + 1
    };
    let mut a: u128 = match a.checked_rem_euclid(m as i128) {
        Some(r) => r as u128,
        None => 0,
    };
    let ghost a0 = a;
    proof {
        lemma_mod_bound(a as int, m as int);
    }
    let mut n = n;
    let mut ans: i8 = 1;
    while a != 0
        invariant
            n % 2 == 1,
            n > 0,
            ans == 1 || ans == -1,
            ans as int * jacobi_spec(a as nat, n as nat) == jacobi_spec(a0 as nat, n0 as nat),
        decreases a,
    {
        let ghost a_prev = a;
        let ghost n_prev = n;
        let ghost ans_prev = ans as int;
        let e = trailing_zeros(a);
        proof {
            lemma_two_adic_unique(a as nat, e as nat);
            lemma_odd_part_bounds(a as nat);
            vstd::bits::lemma_u128_shr_is_div(a, e as u128);
        }
        a >>= e;
        let ghost s1: int = if e % 2 == 1 && (n % 8 == 3 || n % 8 == 5) { -1 } else { 1 };
        assert((n & 7 == 3) == (n % 8 == 3)) by (bit_vector);
        assert((n & 7 == 5) == (n % 8 == 5)) by (bit_vector);
        if e % 2 == 1 && (n & 7 == 3 || n & 7 == 5) {
            ans = -ans;
        }
        let t = a;
        a = n;
        n = t;
        let ghost s2: int = if n % 4 == 3 && a % 4 == 3 { -1 } else { 1 };
        assert((a & 3 == 3) == (a % 4 == 3)) by (bit_vector);
        assert((n & 3 == 3) == (n % 4 == 3)) by (bit_vector);
        if a & 3 == 3 && n & 3 == 3 {
            ans = -ans;
        }
        a %= n;
        proof {
            assert(jacobi_spec(a_prev as nat, n_prev as nat) == s1 * s2 * jacobi_spec(a as nat, n as nat));
            lemma_mod_bound(n_prev as int, n as int);
            assert(ans as int == ans_prev * s1 * s2);
            assert(ans as int * jacobi_spec(a as nat, n as nat) == ans_prev * jacobi_spec(a_prev as nat, n_prev as nat)) by (nonlinear_arith)
                requires
                    ans as int == ans_prev * s1 * s2,
                    jacobi_spec(a_prev as nat, n_prev as nat) == s1 * s2 * jacobi_spec(a as nat, n as nat),
                    s1 == 1 || s1 == -1,
                    s2 == 1 || s2 == -1,
            ;
        }
    }
    // current n == gcd(a, n)
    if n == 1 {
        ans
    } else {
        0
    }
}

/// `x / 2 (mod n)` for a residue `x < n`.
fn half(mo: &Mint, x: u128) -> (h: u128)
    requires
        mo.wf(),
        x < mo.n,
    ensures
        h < mo.n,
        (2 * h) % (mo.n as int) == x as int,
{
    proof {
        lemma_small_mod(x as nat, mo.n as nat);
    }
    assert((x & 1 == 0) == (x % 2 == 0)) by (bit_vector);
    assert(x >> 1 == x / 2) by (bit_vector);
    if x & 1 == 0 {
        x >> 1
    } else {
        let y = x + mo.n;
        assert(y >> 1 == y / 2) by (bit_vector);
        proof {
            lemma_mod_add_multiples_vanish(x as int, mo.n as int);
        }
        y >> 1
    }
}

/// `rx * ry * rz` in Montgomery form.
fn mul3(mo: &Mint, rx: u128, ry: u128, rz: u128) -> (r: u128)
    requires
        mo.wf(),
        rx < mo.n,
        ry < mo.n,
        rz < mo.n,
    ensures
        r == redc(mo.n as int, redc(mo.n as int, rx as int * ry as int) * rz as int),
        r < mo.n,
{
    proof {
        lemma_small_product(rx as int, ry as int);
        crate::arith::lemma_redc_mod(mo.n as int, rx as int * ry as int);
    }
    let t = mo.mul(rx, ry);
    proof {
        lemma_small_product(t as int, rz as int);
        crate::arith::lemma_redc_mod(mo.n as int, t as int * rz as int);
    }
    mo.mul(t, rz)
}

/// The state of the Lucas ladder at index `k`: `U_k, U_{k+1}, V_k, V_{k+1}, 2 Q^k`.
spec fn ladder_state(n: int, p: int, q: int, k: nat, s: (u128, u128, u128, u128, u128)) -> bool {
    &&& s.0 == rep(n, lucas_u(p, q, k))
    &&& s.1 == rep(n, lucas_u(p, q, k + 1))
    &&& s.2 == rep(n, lucas_v(p, q, k))
    &&& s.3 == rep(n, lucas_v(p, q, k + 1))
    &&& s.4 == rep(n, 2 * pow(q, k))
}

/// One ladder step: from index `k` to `2k + bit`.
fn ladder_step(mo: &Mint, rq: u128, rd: u128, s: (u128, u128, u128, u128, u128), bit: bool,
    Ghost(p): Ghost<int>, Ghost(q): Ghost<int>, Ghost(k): Ghost<nat>) -> (t: (u128, u128, u128, u128, u128))
    requires
        mo.wf(),
        rq == rep(mo.n as int, q),
        rd == rep(mo.n as int, p * p - 4 * q),
        ladder_state(mo.n as int, p, q, k, s),
    ensures
        ladder_state(mo.n as int, p, q, 2 * k + (if bit { 1nat } else { 0nat }), t),
{
    let ghost n = mo.n as int;
    let (ru0, ru1, rv0, rv1, rqs2) = s;
    let ghost (u0, u1, v0, v1) = (lucas_u(p, q, k), lucas_u(p, q, k + 1), lucas_v(p, q, k), lucas_v(p, q, k + 1));
    let ghost d = p * p - 4 * q;
    let ghost qk = pow(q, k);
    proof {
        lemma_rep_bound(n, u0);
        lemma_rep_bound(n, u1);
        lemma_rep_bound(n, v0);
        lemma_rep_bound(n, v1);
        lemma_rep_bound(n, 2 * qk);
        lemma_rep_bound(n, q);
        lemma_rep_bound(n, d);
        lemma_doubling(p, q, k);
        lemma_doubling(p, q, k + 1);
        lemma_small_product(ru0 as int, ru0 as int);
        lemma_small_product(ru1 as int, ru1 as int);
        lemma_small_product(rv0 as int, rv0 as int);
        lemma_small_product(rv1 as int, rv1 as int);
        lemma_small_product(rv0 as int, rv1 as int);
        lemma_small_product(ru0 as int, rv0 as int);
        lemma_small_product(ru1 as int, rv1 as int);
        lemma_small_product(rqs2 as int, rq as int);
        lemma_small_product(rqs2 as int, rqs2 as int);
        lemma_rep_mul(n, u1, u1);
        lemma_rep_mul(n, q, u0);
        lemma_rep_mul(n, q * u0, u0);
        lemma_rep_mul(n, v0, v1);
        lemma_rep_mul(n, d, u0);
        lemma_rep_mul(n, d * u0, u1);
        lemma_rep_bound(n, u1 * u1);
        lemma_rep_bound(n, q * u0 * u0);
        lemma_rep_bound(n, v0 * v1);
        lemma_rep_bound(n, d * u0 * u1);
    }
    // index 2k + 1
    let a = mo.mul(ru1, ru1);
    let b = mul3(mo, rq, ru0, ru0);
    let ru3 = mo.sub(a, b);
    let c = mo.mul(rv0, rv1);
    let e = mul3(mo, rd, ru0, ru1);
    let f = mo.add(c, e);
    let rv3 = half(mo, f);
    proof {
        lemma_rep_sub(n, u1 * u1, q * u0 * u0, ru3 as int);
        assert(q * u0 * u0 == q * (u0 * u0)) by (nonlinear_arith);
        lemma_rep_add(n, v0 * v1, d * u0 * u1);
        assert(d * u0 * u1 == d * (u0 * u1)) by (nonlinear_arith);
        lemma_rep_half(n, lucas_v(p, q, 2 * k + 1), rv3 as int);
    }
    if bit {
        // (k, k+1, 2 Q^k) => (2k+1, 2k+2, 2 Q^{2k+1})
        let ru4 = mo.mul(ru1, rv1);
        let g = mo.mul(rv1, rv1);
        let h = mo.mul(rqs2, rq);
        let rv4 = mo.sub(g, h);
        let w = mul3(mo, rqs2, rqs2, rq);
        let nq = half(mo, w);
        proof {
            lemma_rep_mul(n, u1, v1);
            lemma_rep_mul(n, v1, v1);
            lemma_rep_mul(n, 2 * qk, q);
            lemma_rep_bound(n, v1 * v1);
            lemma_rep_bound(n, 2 * qk * q);
            lemma_rep_sub(n, v1 * v1, 2 * qk * q, rv4 as int);
            lemma_pow_adds(q, k, 1);
            lemma_pow1(q);
            assert(2 * qk * q == 2 * pow(q, k + 1)) by (nonlinear_arith)
                requires
                    pow(q, k + 1) == qk * q,
            ;
            lemma_rep_mul(n, 2 * qk, 2 * qk);
            lemma_rep_bound(n, 2 * qk * (2 * qk));
            lemma_rep_mul(n, 2 * qk * (2 * qk), q);
            lemma_pow_adds(q, k, k);
            lemma_pow_adds(q, 2 * k, 1);
            assert(2 * qk * (2 * qk) * q == 2 * (2 * pow(q, 2 * k + 1))) by (nonlinear_arith)
                requires
                    pow(q, 2 * k) == qk * qk,
                    pow(q, 2 * k + 1) == pow(q, 2 * k) * q,
            ;
            lemma_rep_half(n, 2 * pow(q, 2 * k + 1), nq as int);
            assert(2 * k + 1 + 1 == 2 * (k + 1));
        }
        (ru3, ru4, rv3, rv4, nq)
    } else {
        // (k, k+1, 2 Q^k) => (2k, 2k+1, 2 Q^{2k})
        let ru2 = mo.mul(ru0, rv0);
        let g = mo.mul(rv0, rv0);
        let rv2 = mo.sub(g, rqs2);
        let w = mo.mul(rqs2, rqs2);
        let nq = half(mo, w);
        proof {
            lemma_rep_mul(n, u0, v0);
            lemma_rep_mul(n, v0, v0);
            lemma_rep_bound(n, v0 * v0);
            lemma_rep_sub(n, v0 * v0, 2 * qk, rv2 as int);
            lemma_rep_mul(n, 2 * qk, 2 * qk);
            lemma_pow_adds(q, k, k);
            assert(2 * qk * (2 * qk) == 2 * (2 * pow(q, 2 * k))) by (nonlinear_arith)
                requires
                    pow(q, 2 * k) == qk * qk,
            ;
            lemma_rep_half(n, 2 * pow(q, 2 * k), nq as int);
        }
        (ru2, ru3, rv2, rv3, nq)
    }
}

/// Lucas sequence (U(P, Q), V(P, Q)) の n 項目．
///
/// Montgomery form で返す．
pub fn calc_lucas(p: u128, q: u128, n: u128, mo: &Mint) -> (r: (u128, u128))
    requires
        mo.wf(),
    ensures
        r.0 == rep(mo.n as int, lucas_u(p as int, q as int, n as nat)),
        r.1 == rep(mo.n as int, lucas_v(p as int, q as int, n as nat)),
{
    let ghost nn = mo.n as int;
    let ghost (pi, qi) = (p as int, q as int);
    let rp = mo.mr(p);
    let rq = mo.mr(q);
    let four = mo.mr(4);
    proof {
        lemma_rep_bound(nn, pi);
        lemma_rep_bound(nn, qi);
        lemma_rep_bound(nn, 4);
        lemma_small_product(rp as int, rp as int);
        lemma_small_product(rq as int, four as int);
        lemma_rep_mul(nn, pi, pi);
        lemma_rep_mul(nn, qi, 4);
        lemma_rep_bound(nn, pi * pi);
        lemma_rep_bound(nn, qi * 4);
    }
    let pp = mo.mul(rp, rp);
    let q4 = mo.mul(rq, four);
    let rd = mo.sub(pp, q4);
    let z = mo.mr(0);
    let two = mo.mr(2);
    let ru1 = mo.r1;
    let rqs2 = mo.add(mo.r1, mo.r1);
    proof {
        lemma_rep_sub(nn, pi * pi, qi * 4, rd as int);
        assert(qi * 4 == 4 * qi);
        lemma_mul_basics(radix());
        lemma_rep_bound(nn, 1);
        lemma_rep_add(nn, 1, 1);
        lemma_pow0(qi);
        assert(lucas_u(pi, qi, 0) == 0 && lucas_u(pi, qi, 1) == 1);
        assert(lucas_v(pi, qi, 0) == 2 && lucas_v(pi, qi, 1) == pi);
    }
    let mut s = (z, ru1, two, rp, rqs2);
    let lz = leading_zeros(n);
    let mut i: u32 = 128 - lz;
    let ghost mut k: nat = 0;
    proof {
        lemma_pow2_pos(i as nat);
        if n != 0 {
            lemma_small_div_helper(n as nat, pow2(i as nat));
        } else {
            lemma_small_div_helper(0, pow2(i as nat));
        }
    }
    while i > 0
        invariant
            mo.wf(),
            nn == mo.n,
            rq == rep(nn, qi),
            rd == rep(nn, pi * pi - 4 * qi),
            i <= 128,
            k == (n as nat) / pow2(i as nat),
            ladder_state(nn, pi, qi, k, s),
        decreases i,
    {
        i -= 1;
        proof {
            vstd::bits::lemma_u128_shr_is_div(n, i as u128);
            lemma_half_index(n as nat, i as nat);
        }
        let bit = (n >> i) & 1 == 1;
        assert(((n >> i) & 1 == 1) == ((n >> i) % 2 == 1)) by (bit_vector);
        s = ladder_step(mo, rq, rd, s, bit, Ghost(pi), Ghost(qi), Ghost(k));
        proof {
            k = 2 * k + (if bit { 1nat } else { 0nat });
        }
    }
    proof {
        vstd::arithmetic::power2::lemma2_to64();
        lemma_div_by_one_helper(n as nat);
    }
    (s.0, s.2)
}

proof fn lemma_small_div_helper(x: nat, d: nat)
    requires
        d > 0,
        x < d,
    ensures
        x / d == 0,
{
    lemma_basic_div(x as int, d as int);
}

/// `n / 2^i = 2 (n / 2^(i+1)) + (n / 2^i) mod 2`.
proof fn lemma_half_index(n: nat, i: nat)
    ensures
        n / pow2(i) == 2 * (n / pow2(i + 1)) + (n / pow2(i)) % 2,
{
    lemma_pow2_pos(i);
    lemma_pow2_unfold(i + 1);
    lemma_mul_is_commutative(2, pow2(i) as int);
    lemma_div_denominator(n as int, pow2(i) as int, 2);
    lemma_fundamental_div_mod((n / pow2(i)) as int, 2);
}

/// Same as `calc_lucas`.
pub fn calc_lucas_const(p: u128, q: u128, n: u128, mo: &Mint) -> (r: (u128, u128))
    requires
        mo.wf(),
    ensures
        r.0 == rep(mo.n as int, lucas_u(p as int, q as int, n as nat)),
        r.1 == rep(mo.n as int, lucas_v(p as int, q as int, n as nat)),
{
    calc_lucas(p, q, n, mo)
}

/// `M^k` for `M = [[0, 1], [-Q, P]]`, entry by entry: `[[U_{k+1} - P U_k, U_k], [-Q U_k, U_{k+1}]]`.
spec fn lucas_matrix_entry(p: int, q: int, k: nat, i: int, j: int) -> int {
    if i == 0 && j == 0 {
        lucas_u(p, q, k + 1) - p * lucas_u(p, q, k)
    } else if i == 0 {
        lucas_u(p, q, k)
    } else if j == 0 {
        -q * lucas_u(p, q, k)
    } else {
        lucas_u(p, q, k + 1)
    }
}

/// `m` holds `M^k` in Montgomery form.
spec fn is_lucas_matrix(n: int, p: int, q: int, k: nat, m: [[u128; 2]; 2]) -> bool {
    forall|i: int, j: int| 0 <= i < 2 && 0 <= j < 2 ==> #[trigger] m[i][j] == rep(n, lucas_matrix_entry(p, q, k, i, j))
}

/// `U_{A+B} = (U_{A+1} - P U_A) U_B + U_A U_{B+1}`.
proof fn lemma_u_add_shifted(p: int, q: int, a: nat, b: nat)
    ensures
        lucas_u(p, q, a + b) == (lucas_u(p, q, a + 1) - p * lucas_u(p, q, a)) * lucas_u(p, q, b) + lucas_u(p, q, a) * lucas_u(p, q, b + 1),
{
    if a == 0 {
        assert(lucas_u(p, q, 0) == 0 && lucas_u(p, q, 1) == 1);
        assert((lucas_u(p, q, 1) - p * lucas_u(p, q, 0)) * lucas_u(p, q, b) == lucas_u(p, q, b)) by (nonlinear_arith)
            requires
                lucas_u(p, q, 0) == 0 && lucas_u(p, q, 1) == 1,
        ;
        assert(lucas_u(p, q, 0) * lucas_u(p, q, b + 1) == 0) by (nonlinear_arith)
            requires
                lucas_u(p, q, 0) == 0,
        ;
    } else {
        crate::primality::lucas_identities::lemma_u_add(p, q, (a - 1) as nat, b);
        crate::primality::lucas_identities::lemma_u_step_back(p, q, a);
        assert((a - 1 + b + 1) as nat == a + b);
        let (ua, ub, ub1, uam1) = (lucas_u(p, q, a), lucas_u(p, q, b), lucas_u(p, q, b + 1), lucas_u(p, q, (a - 1) as nat));
        assert(-q * uam1 * ub == (-q * uam1) * ub);
        assert(ua * ub1 - q * uam1 * ub == (-q * uam1) * ub + ua * ub1) by (nonlinear_arith);
    }
}

/// `M^A M^B = M^(A+B)`, entry by entry.
proof fn lemma_lucas_matrix_mul(p: int, q: int, a: nat, b: nat)
    ensures
        forall|i: int, j: int| 0 <= i < 2 && 0 <= j < 2 ==>
            lucas_matrix_entry(p, q, a, i, 0) * lucas_matrix_entry(p, q, b, 0, j)
                + lucas_matrix_entry(p, q, a, i, 1) * lucas_matrix_entry(p, q, b, 1, j)
                == #[trigger] lucas_matrix_entry(p, q, a + b, i, j),
{
    lemma_u_add_shifted(p, q, a, b);
    lemma_u_add_shifted(p, q, b, a);
    lemma_u_add_shifted(p, q, a, b + 1);
    crate::primality::lucas_identities::lemma_u_add(p, q, a, b);
    let (ua, ua1, ub, ub1) = (lucas_u(p, q, a), lucas_u(p, q, a + 1), lucas_u(p, q, b), lucas_u(p, q, b + 1));
    let (uab, uab1) = (lucas_u(p, q, a + b), lucas_u(p, q, a + b + 1));
    let (aa, ab) = (ua1 - p * ua, ub1 - p * ub);
    assert(uab == aa * ub + ua * ub1);
    assert(uab == ab * ua + ub * ua1);
    assert(uab1 == ua1 * ub1 - q * ua * ub);
    // [0][0]
    assert(p * uab == p * (aa * ub) + p * (ua * ub1)) by (nonlinear_arith)
        requires
            uab == aa * ub + ua * ub1,
    ;
    assert(ua1 * ub1 - p * (ua * ub1) == aa * ub1) by (nonlinear_arith)
        requires
            aa == ua1 - p * ua,
    ;
    assert(aa * ub1 - p * (aa * ub) == aa * ab) by (nonlinear_arith)
        requires
            ab == ub1 - p * ub,
    ;
    assert(ua * (-q * ub) == -(q * ua * ub)) by (nonlinear_arith);
    assert(aa * ab + ua * (-q * ub) == uab1 - p * uab);
    // [1][0]
    assert((-q * ua) * ab + ua1 * (-q * ub) == -q * uab) by (nonlinear_arith)
        requires
            uab == ab * ua + ub * ua1,
    ;
    // [1][1]
    assert((-q * ua) * ub + ua1 * ub1 == uab1) by (nonlinear_arith)
        requires
            uab1 == ua1 * ub1 - q * ua * ub,
    ;
    assert(aa * ub + ua * ub1 == uab);
}

/// 2x2 matrix product in Montgomery form.
fn mat_mul(mo: &Mint, a: [[u128; 2]; 2], b: [[u128; 2]; 2], Ghost(p): Ghost<int>, Ghost(q): Ghost<int>,
    Ghost(ka): Ghost<nat>, Ghost(kb): Ghost<nat>) -> (c: [[u128; 2]; 2])
    requires
        mo.wf(),
        is_lucas_matrix(mo.n as int, p, q, ka, a),
        is_lucas_matrix(mo.n as int, p, q, kb, b),
    ensures
        is_lucas_matrix(mo.n as int, p, q, ka + kb, c),
{
    let ghost n = mo.n as int;
    proof {
        lemma_lucas_matrix_mul(p, q, ka, kb);
        assert forall|i: int, j: int| 0 <= i < 2 && 0 <= j < 2 implies {
            &&& a[i][j] < mo.n && b[i][j] < mo.n
            &&& redc(n, a[i][0] as int * b[0][j] as int) == rep(n, lucas_matrix_entry(p, q, ka, i, 0) * lucas_matrix_entry(p, q, kb, 0, j))
            &&& redc(n, a[i][1] as int * b[1][j] as int) == rep(n, lucas_matrix_entry(p, q, ka, i, 1) * lucas_matrix_entry(p, q, kb, 1, j))
            &&& 0 <= rep(n, lucas_matrix_entry(p, q, ka, i, 0) * lucas_matrix_entry(p, q, kb, 0, j)) < n
            &&& 0 <= rep(n, lucas_matrix_entry(p, q, ka, i, 1) * lucas_matrix_entry(p, q, kb, 1, j)) < n
            &&& (rep(n, lucas_matrix_entry(p, q, ka, i, 0) * lucas_matrix_entry(p, q, kb, 0, j))
                + rep(n, lucas_matrix_entry(p, q, ka, i, 1) * lucas_matrix_entry(p, q, kb, 1, j))) % n
                == rep(n, lucas_matrix_entry(p, q, ka + kb, i, j))
        } by {
            lemma_rep_bound(n, lucas_matrix_entry(p, q, ka, i, j));
            lemma_rep_bound(n, lucas_matrix_entry(p, q, kb, i, j));
            lemma_rep_mul(n, lucas_matrix_entry(p, q, ka, i, 0), lucas_matrix_entry(p, q, kb, 0, j));
            lemma_rep_mul(n, lucas_matrix_entry(p, q, ka, i, 1), lucas_matrix_entry(p, q, kb, 1, j));
            lemma_rep_bound(n, lucas_matrix_entry(p, q, ka, i, 0) * lucas_matrix_entry(p, q, kb, 0, j));
            lemma_rep_bound(n, lucas_matrix_entry(p, q, ka, i, 1) * lucas_matrix_entry(p, q, kb, 1, j));
            lemma_rep_add(n, lucas_matrix_entry(p, q, ka, i, 0) * lucas_matrix_entry(p, q, kb, 0, j),
                lucas_matrix_entry(p, q, ka, i, 1) * lucas_matrix_entry(p, q, kb, 1, j));
            assert(a[i][0] < mo.n && a[i][1] < mo.n && b[0][j] < mo.n && b[1][j] < mo.n);
        }
        assert forall|i: int, j: int| 0 <= i < 2 && 0 <= j < 2 implies
            a[i][j] < mo.n && b[i][j] < mo.n by {
        }
    }
    let c00 = mo.add(mul_small(mo, a[0][0], b[0][0]), mul_small(mo, a[0][1], b[1][0]));
    let c01 = mo.add(mul_small(mo, a[0][0], b[0][1]), mul_small(mo, a[0][1], b[1][1]));
    let c10 = mo.add(mul_small(mo, a[1][0], b[0][0]), mul_small(mo, a[1][1], b[1][0]));
    let c11 = mo.add(mul_small(mo, a[1][0], b[0][1]), mul_small(mo, a[1][1], b[1][1]));
    let c = [[c00, c01], [c10, c11]];
    proof {
        assert forall|i: int, j: int| 0 <= i < 2 && 0 <= j < 2 implies
            #[trigger] c[i][j] == rep(n, lucas_matrix_entry(p, q, ka + kb, i, j)) by {
            if i == 0 && j == 0 {
            } else if i == 0 {
            } else if j == 0 {
            } else {
            }
        }
    }
    c
}

/// Montgomery product of two residues.
fn mul_small(mo: &Mint, rx: u128, ry: u128) -> (r: u128)
    requires
        mo.wf(),
        rx < mo.n,
        ry < mo.n,
    ensures
        r == redc(mo.n as int, rx as int * ry as int),
        r < mo.n,
{
    proof {
        lemma_small_product(rx as int, ry as int);
        crate::arith::lemma_redc_mod(mo.n as int, rx as int * ry as int);
    }
    mo.mul(rx, ry)
}

/// Lucas sequence (U(P, Q), V(P, Q)) の n 項目．
///
/// Montgomery form で返す．
pub fn calc_lucas_with_matrix(p: u128, q: u128, n: u128, mo: &Mint) -> (r: (u128, u128))
    requires
        mo.wf(),
    ensures
        r.0 == rep(mo.n as int, lucas_u(p as int, q as int, n as nat)),
        r.1 == rep(mo.n as int, lucas_v(p as int, q as int, n as nat)),
{
    let ghost nn = mo.n as int;
    let ghost (pi, qi) = (p as int, q as int);
    let rp = mo.mr(p);
    let rq = mo.mr(q);
    proof {
        lemma_rep_bound(nn, qi);
        lemma_rep_bound(nn, pi);
        lemma_mul_basics(radix());
        lemma_small_mod(0, mo.n as nat);
    }
    let nq = mo.neg(rq);
    let mut total = [[mo.r1, 0], [0, mo.r1]];
    let mut m = [[0, mo.r1], [nq, rp]];
    proof {
        assert(lucas_u(pi, qi, 0) == 0 && lucas_u(pi, qi, 1) == 1 && lucas_u(pi, qi, 2) == pi);
        lemma_rep_sub(nn, 0, qi, nq as int);
        assert(rep(nn, 0) == 0) by {
            lemma_small_mod(0, mo.n as nat);
        }
        assert(rep(nn, 1) == mo.r1);
        assert(-qi * 0 == 0);
        assert(-qi * 1 == 0 - qi);
        assert(1 - pi * 0 == 1);
        assert(pi - pi * 1 == 0);
        assert forall|i: int, j: int| 0 <= i < 2 && 0 <= j < 2 implies
            #[trigger] total[i][j] == rep(nn, lucas_matrix_entry(pi, qi, 0, i, j)) by {
        }
        assert forall|i: int, j: int| 0 <= i < 2 && 0 <= j < 2 implies
            #[trigger] m[i][j] == rep(nn, lucas_matrix_entry(pi, qi, 1, i, j)) by {
        }
    }
    let mut e = n;
    let ghost mut ka: nat = 0;
    let ghost mut kb: nat = 1;
    while e > 0
        invariant
            mo.wf(),
            nn == mo.n,
            is_lucas_matrix(nn, pi, qi, ka, total),
            is_lucas_matrix(nn, pi, qi, kb, m),
            ka + kb * e == n,
        decreases e,
    {
        assert((e & 1 == 1) == (e % 2 == 1)) by (bit_vector);
        if e & 1 == 1 {
            total = mat_mul(mo, total, m, Ghost(pi), Ghost(qi), Ghost(ka), Ghost(kb));
            proof {
                ka = ka + kb;
            }
        }
        m = mat_mul(mo, m, m, Ghost(pi), Ghost(qi), Ghost(kb), Ghost(kb));
        assert(e >> 1 == e / 2) by (bit_vector);
        proof {
            let e0 = e as int;
            assert(ka + 2 * kb * (e0 / 2) == n) by (nonlinear_arith)
                requires
                    e0 % 2 == 1 ==> ka == (n - kb * e0) + kb,
                    e0 % 2 == 0 ==> ka + kb * e0 == n,
                    e0 % 2 == 1 ==> (ka - kb) + kb * e0 == n,
                    e0 == 2 * (e0 / 2) + e0 % 2,
                    e0 % 2 == 0 || e0 % 2 == 1,
            ;
            kb = kb + kb;
        }
        e >>= 1;
    }
    // total[0][0] * 0 + total[0][1] * 1
    let ru = total[0][1];
    let t00 = total[0][0];
    let t01 = total[0][1];
    proof {
        assert(total[0][0] == rep(nn, lucas_matrix_entry(pi, qi, ka, 0, 0)));
        assert(total[0][1] == rep(nn, lucas_matrix_entry(pi, qi, ka, 0, 1)));
        assert(ka == n);
        let a_n = lucas_u(pi, qi, ka + 1) - pi * lucas_u(pi, qi, ka);
        lemma_rep_bound(nn, a_n);
        lemma_rep_bound(nn, lucas_u(pi, qi, ka));
        lemma_rep_add(nn, a_n, a_n);
        lemma_rep_mul(nn, lucas_u(pi, qi, ka), pi);
        lemma_rep_bound(nn, a_n + a_n);
        lemma_rep_bound(nn, lucas_u(pi, qi, ka) * pi);
        lemma_rep_add(nn, a_n + a_n, lucas_u(pi, qi, ka) * pi);
        crate::primality::lucas_identities::lemma_v_by_u(pi, qi, ka);
        assert(a_n + a_n + lucas_u(pi, qi, ka) * pi == lucas_v(pi, qi, ka)) by (nonlinear_arith)
            requires
                lucas_v(pi, qi, ka) == 2 * lucas_u(pi, qi, ka + 1) - pi * lucas_u(pi, qi, ka),
                a_n == lucas_u(pi, qi, ka + 1) - pi * lucas_u(pi, qi, ka),
        ;
    }
    // total[0][0] * 2 + total[0][1] * P
    let rv = mo.add(mo.add(t00, t00), mul_small(mo, t01, rp));
    (ru, rv)
}

/// The magnitude at which the search for Selfridge's `D` stops (where `i128` would overflow).
pub open spec fn selfridge_limit() -> int {
    0x4000_0000_0000_0000_0000_0000_0000_0000
}

/// `n` is a perfect square.
pub open spec fn is_square(n: nat) -> bool {
    exists|r: nat| #[trigger] square(r) == n
}

pub open spec fn square(r: nat) -> nat {
    r * r
}

/// The next candidate after `d` in `5, -7, 9, -11, ...`.
pub open spec fn selfridge_next(d: int) -> int {
    (if d > 0 { -2int } else { 2int }) - d
}

/// Selfridge's Method A from candidate `d` on: the first `D` with `(D/n) = -1`, or `None` when
/// some `D` with `|D| < n` shares a factor with `n`, when `n` is a perfect square, or when the
/// candidates reach `selfridge_limit()`.
pub open spec fn selfridge_search(n: nat, d: int) -> Option<int>
    decreases selfridge_limit() + 2 - abs(d),
{
    if abs(d) >= selfridge_limit() || abs(selfridge_next(d)) <= abs(d) {
        None
    } else {
        let j = jacobi_spec(jacobi_start(d, n), n);
        if j == -1 {
            Some(d)
        } else if j == 0 && n > abs(d) {
            None
        } else if d == -15 && is_square(n) {
            None
        } else {
            selfridge_search(n, selfridge_next(d))
        }
    }
}

pub open spec fn abs(x: int) -> int {
    if x < 0 { -x } else { x }
}

/// The outcome of the strong Lucas test of odd `n > 1` with `P = 1`, `Q = (1 - D)/4`
/// for Selfridge's `D`: with `n + 1 = o 2^e`, `o` odd, `U_o = 0` or `V_(o 2^r) = 0 (mod n)`
/// for some `r < e`.
pub open spec fn lucas_sprp_spec(n: nat) -> bool {
    if n % 2 == 0 || n == 1 {
        false
    } else {
        match selfridge_search(n, 5) {
            None => false,
            Some(d) => {
                let q = ((1 - d) / 4) % (n as int);
                let e = two_adic(n + 1);
                let o = odd_part(n + 1);
                ||| lucas_u(1, q, o) % (n as int) == 0
                ||| lucas_v(1, q, o) % (n as int) == 0
                ||| exists|r: nat| 1 <= r < e && #[trigger] (lucas_v(1, q, o * pow2(r)) % (n as int)) == 0
            },
        }
    }
}

/// `rep(x) == 0` exactly when `x = 0 (mod n)`.
proof fn lemma_rep_zero(n: int, x: int)
    requires
        n > 0,
        n % 2 == 1,
    ensures
        (rep(n, x) == 0) == (x % n == 0),
{
    lemma_repr_injective(n, x, 0);
    lemma_small_mod(0, n as nat);
    lemma_mul_basics(radix());
}

/// Strong Lucas primality test with parameters (P, Q) defined by Selfridge's Method A.
pub fn is_lucas_sprp(n: u128) -> (res: bool)
    requires
        n % 2 == 0 || n == 1 || n < 0x8000_0000_0000_0000_0000_0000_0000_0000 || selfridge_search(n as nat, 5) is None,
    ensures
        res == lucas_sprp_spec(n as nat),
{
    if n % 2 == 0 || n == 1 {
        return false;
    }
    let ghost ni = n as int;
    let mut d: i128 = 5;
    let det: Option<i128>;
    loop
        invariant
            n % 2 == 1,
            n > 1,
            abs(d as int) >= 5,
            (d as int) % 4 == 1,
            selfridge_search(n as nat, d as int) == selfridge_search(n as nat, 5),
        ensures
            det is None ==> selfridge_search(n as nat, 5) is None,
            det matches Some(v) ==> selfridge_search(n as nat, 5) == Some(v as int) && (v as int) % 4 == 1 && abs(v as int) < selfridge_limit(),
        decreases selfridge_limit() + 2 - abs(d as int),
    {
        if d >= 0x4000_0000_0000_0000_0000_0000_0000_0000 || d <= -0x4000_0000_0000_0000_0000_0000_0000_0000 {
            det = None;
            break;
        }
        let j = jacobi(d, n);
        if j == -1 {
            det = Some(d);
            break;
        }
        let ad: u128 = if d < 0 { (-d) as u128 } else { d as u128 };
        if j == 0 && n > ad {
            det = None;
            break;
        }
        if d == -15 {
            let r = crate::bits::isqrt(n);
            proof {
                lemma_square_by_root(n as nat, r as nat);
            }
            if r * r == n {
                det = None;
                break;
            }
        }
        d = if d > 0 { -2 } else { 2 } - d;
    }
    let det = match det {
        Some(v) => v,
        None => return false,
    };
    let ghost di = det as int;
    let p: u128 = 1;
    let q0: i128 = (1 - det) / 4;
    let q: u128 = match q0.checked_rem_euclid(n as i128) {
        Some(r) => r as u128,
        None => 0,
    };
    assert(q0 as int == (1 - di) / 4);
    let mo = Mint::new(n);
    // n - (D/n) = n + 1
    let n1 = n + 1;
    let e = trailing_zeros(n1);
    proof {
        lemma_two_adic_unique(n1 as nat, e as nat);
        lemma_pow2_pos(e as nat);
        vstd::bits::lemma_u128_shr_is_div(n1, e as u128);
    }
    let o = n1 >> e;
    let ghost qi = q as int;
    let (ru0, rv0) = calc_lucas(p, q, o, &mo);
    let mut ru = ru0;
    let mut rv = rv0;
    let rq0 = mo.mr(q);
    proof {
        lemma_mod_bound(q0 as int, ni);
        lemma_small_mod(q as nat, n as nat);
        lemma_rep_bound(ni, qi);
        lemma_small_product(rq0 as int, rq0 as int);
        crate::arith::lemma_redc_of_scaled(ni, qi);
    }
    let mut rq = mo.pow(rq0, o);
    proof {
        lemma_rep_zero(ni, lucas_u(1, qi, o as nat));
        lemma_rep_zero(ni, lucas_v(1, qi, o as nat));
        vstd::arithmetic::power2::lemma2_to64();
        lemma_mul_basics(o as int);
    }
    if ru == 0 || rv == 0 {
        return true;
    }
    let mut i: u32 = 1;
    while i < e
        invariant
            mo.wf(),
            mo.n == n,
            ni == n,
            n % 2 == 1,
            1 <= i <= e,
            e == two_adic((n + 1) as nat),
            o == odd_part((n + 1) as nat),
            qi == ((1 - di) / 4) % ni,
            selfridge_search(n as nat, 5) == Some(di),
            ru == rep(ni, lucas_u(1, qi, o as nat * pow2((i - 1) as nat))),
            rv == rep(ni, lucas_v(1, qi, o as nat * pow2((i - 1) as nat))),
            rq == rep(ni, pow(qi, o as nat * pow2((i - 1) as nat))),
            lucas_u(1, qi, o as nat) % ni != 0,
            lucas_v(1, qi, o as nat) % ni != 0,
            forall|r: nat| 1 <= r < i ==> #[trigger] (lucas_v(1, qi, o as nat * pow2(r)) % ni) != 0,
        decreases e - i,
    {
        let ghost k = o as nat * pow2((i - 1) as nat);
        let ghost (uk, vk, qk) = (lucas_u(1, qi, k), lucas_v(1, qi, k), pow(qi, k));
        proof {
            lemma_rep_bound(ni, uk);
            lemma_rep_bound(ni, vk);
            lemma_rep_bound(ni, qk);
            lemma_small_product(ru as int, rv as int);
            lemma_small_product(rv as int, rv as int);
            lemma_small_product(rq as int, rq as int);
            lemma_rep_mul(ni, uk, vk);
            lemma_rep_mul(ni, vk, vk);
            lemma_rep_mul(ni, qk, qk);
            lemma_rep_add(ni, qk, qk);
            lemma_rep_bound(ni, vk * vk);
            lemma_rep_bound(ni, qk + qk);
            crate::primality::lucas_identities::lemma_doubling(1, qi, k);
            lemma_pow_adds(qi, k, k);
            lemma_pow2_unfold(i as nat);
            assert(o as nat * pow2(i as nat) == 2 * k) by (nonlinear_arith)
                requires
                    pow2(i as nat) == 2 * pow2((i - 1) as nat),
                    k == o as nat * pow2((i - 1) as nat),
            ;
        }
        let nu = mo.mul(ru, rv);
        let vv = mo.mul(rv, rv);
        let q2 = mo.add(rq, rq);
        let nv = mo.sub(vv, q2);
        ru = nu;
        rv = nv;
        rq = mo.mul(rq, rq);
        proof {
            lemma_rep_sub(ni, vk * vk, qk + qk, rv as int);
            assert(vk * vk - (qk + qk) == vk * vk - 2 * qk);
            lemma_rep_zero(ni, lucas_v(1, qi, 2 * k));
        }
        if rv == 0 {
            proof {
                assert(lucas_v(1, qi, o as nat * pow2(i as nat)) % ni == 0);
            }
            return true;
        }
        i += 1;
    }
    proof {
        assert forall|r: nat| 1 <= r < e implies #[trigger] (lucas_v(1, qi, o as nat * pow2(r)) % ni) != 0 by {
        }
    }
    false
}

/// `r = isqrt(n)`: `r * r == n` exactly when `n` is a perfect square.
proof fn lemma_square_by_root(n: nat, r: nat)
    requires
        r * r <= n,
        n < (r + 1) * (r + 1),
    ensures
        (r * r == n) == is_square(n),
{
    assert(square(r) == r * r);
    if is_square(n) {
        let s = choose|s: nat| square(s) == n;
        if s < r {
            assert(s * s < r * r) by (nonlinear_arith)
                requires
                    s < r,
            ;
        } else if s > r {
            assert((r + 1) * (r + 1) <= s * s) by (nonlinear_arith)
                requires
                    s >= r + 1,
            ;
        }
    }
}

/// Same as `is_lucas_sprp`.
pub fn is_lucas_sprp_const(n: u128) -> (res: bool)
    requires
        n % 2 == 0 || n == 1 || n < 0x8000_0000_0000_0000_0000_0000_0000_0000 || selfridge_search(n as nat, 5) is None,
    ensures
        res == lucas_sprp_spec(n as nat),
{
    is_lucas_sprp(n)
}

} // verus!
