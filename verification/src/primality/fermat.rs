//! Arithmetic modulo a prime: Euclid's lemma, Fermat's little theorem (through the binomial
//! theorem), the square roots of one, and Lagrange's bound on the number of roots of a
//! polynomial.
use vstd::prelude::*;
use vstd::arithmetic::div_mod::*;
use vstd::arithmetic::mul::*;
use vstd::arithmetic::power::*;
use crate::arith::{lemma_bezout, lemma_divisor_le, lemma_gcd_divides, spec_gcd};
use crate::fps::u128::poly_eval;
use crate::wrapper::has_no_proper_divisor;

verus! {

/// `p` is a prime number.
pub open spec fn is_prime_number(p: nat) -> bool {
    p >= 2 && has_no_proper_divisor(p)
}

/// Euclid's lemma: a prime that divides a product divides one of the factors.
pub proof fn lemma_euclid(p: nat, a: int, b: int)
    requires
        is_prime_number(p),
        (a * b) % (p as int) == 0,
    ensures
        a % (p as int) == 0 || b % (p as int) == 0,
{
    let pi = p as int;
    let r = a % pi;
    if r != 0 {
        lemma_mod_bound(a, pi);
        let rn = r as nat;
        lemma_gcd_divides(rn, p);
        let g = spec_gcd(rn, p);
        lemma_divisor_le(g as int, r);
        if g != 1 {
            assert(p % g != 0);
        }
        let (x, y) = lemma_bezout(rn, p);
        assert(b == x * (r * b) + pi * (y * b)) by (nonlinear_arith)
            requires
                x * r + y * pi == 1,
        ;
        lemma_mul_mod_noop_left(a, b, pi);
        lemma_mod_multiples_vanish(y * b, x * (r * b), pi);
        lemma_mul_mod_noop_right(x, r * b, pi);
        lemma_mul_basics(x);
        lemma_small_mod(0, p);
    }
}

/// The binomial coefficient `C(n, k)`, by Pascal's rule.
pub open spec fn binom(n: nat, k: nat) -> nat
    decreases n,
{
    if k == 0 {
        1
    } else if n == 0 {
        0
    } else {
        binom((n - 1) as nat, (k - 1) as nat) + binom((n - 1) as nat, k)
    }
}

/// `C(n, k) = 0` for `k > n`.
proof fn lemma_binom_above(n: nat, k: nat)
    requires
        k > n,
    ensures
        binom(n, k) == 0,
    decreases n,
{
    if n > 0 {
        lemma_binom_above((n - 1) as nat, (k - 1) as nat);
        lemma_binom_above((n - 1) as nat, k);
    }
}

/// `C(n, n) = 1`.
proof fn lemma_binom_diag(n: nat)
    ensures
        binom(n, n) == 1,
    decreases n,
{
    if n > 0 {
        lemma_binom_diag((n - 1) as nat);
        lemma_binom_above((n - 1) as nat, n);
    }
}

/// `k C(n, k) = n C(n - 1, k - 1)`.
proof fn lemma_binom_absorb(n: nat, k: nat)
    requires
        n >= 1,
        k >= 1,
    ensures
        k * binom(n, k) == n * binom((n - 1) as nat, (k - 1) as nat),
    decreases n,
{
    let n1 = (n - 1) as nat;
    let k1 = (k - 1) as nat;
    if n == 1 {
        assert(binom(n, k) == binom(0, k1) + binom(0, k));
        assert(binom(0, k) == 0);
        if k >= 2 {
            assert(binom(0, k1) == 0);
            lemma_mul_basics(k as int);
            lemma_mul_basics(n as int);
        } else {
            assert(binom(0, 0) == 1);
            assert(binom(n, k) == 1);
        }
    } else if k == 1 {
        lemma_binom_absorb(n1, 1);
        assert(binom(n1, 0) == 1);
        assert(binom((n1 - 1) as nat, 0) == 1);
        assert(binom(n, 1) == binom(n1, 0) + binom(n1, 1));
        lemma_mul_basics(binom(n1, 1) as int);
        lemma_mul_basics(n1 as int);
        lemma_mul_basics(n as int);
        assert(binom(n1, 1) == n1);
        assert(binom(n, 1) == n);
    } else {
        let n2 = (n - 2) as nat;
        let k2 = (k - 2) as nat;
        lemma_binom_absorb(n1, k);
        lemma_binom_absorb(n1, k1);
        assert(binom(n, k) == binom(n1, k1) + binom(n1, k));
        assert(binom(n1, k1) == binom(n2, k2) + binom(n2, k1));
        let a = binom(n1, k1) as int;
        let b = binom(n1, k) as int;
        let c = binom(n2, k2) as int;
        let d = binom(n2, k1) as int;
        assert(k * (a + b) == n * a) by (nonlinear_arith)
            requires
                k * b == n1 * d,
                k1 * a == n1 * c,
                a == c + d,
                k == k1 + 1,
                n == n1 + 1,
        ;
    }
}

/// `b^(e + 1) = b b^e`.
pub proof fn lemma_pow_succ(b: int, e: nat)
    ensures
        pow(b, e + 1) == b * pow(b, e),
{
    reveal(pow);
}

/// The binomial theorem for `(x + 1)^n`.
proof fn lemma_binomial(x: int, n: nat)
    ensures
        pow(x + 1, n) == crate::sums::sum_range(|k: int| binom(n, k as nat) * pow(x, k as nat), 0, n as int + 1),
    decreases n,
{
    let t = |k: int| binom(n, k as nat) * pow(x, k as nat);
    if n == 0 {
        lemma_pow0(x + 1);
        lemma_pow0(x);
        assert(crate::sums::sum_range(t, 0, 0) == 0);
    } else {
        let m = (n - 1) as nat;
        lemma_binomial(x, m);
        let s = |k: int| binom(m, k as nat) * pow(x, k as nat);
        let sm = crate::sums::sum_range(s, 0, n as int);
        lemma_pow_succ(x + 1, m);
        let u = |k: int| binom(m, k as nat) * pow(x, k as nat);
        let v = |k: int| if k >= 1 { binom(m, (k - 1) as nat) * pow(x, k as nat) } else { 0 };
        assert forall|k: int| 0 <= k < n + 1 implies #[trigger] t(k) == u(k) + v(k) by {
            if k >= 1 {
                assert(binom(n, k as nat) == binom(m, (k - 1) as nat) + binom(m, k as nat));
                lemma_mul_is_distributive_add_other_way(pow(x, k as nat), binom(m, (k - 1) as nat) as int, binom(m, k as nat) as int);
            } else {
                assert(binom(n, 0) == 1 && binom(m, 0) == 1);
            }
        }
        crate::sums::lemma_sum_add(u, v, t, 0, n as int + 1);
        // the u part is the expansion for m
        lemma_binom_above(m, n);
        lemma_mul_basics(pow(x, n));
        assert(crate::sums::sum_range(u, 0, n as int + 1) == crate::sums::sum_range(u, 0, n as int) + u(n as int));
        crate::sums::lemma_sum_ext(u, s, 0, n as int);
        // the v part is x times the expansion for m
        crate::sums::lemma_sum_split(v, 0, 1, n as int + 1);
        assert(crate::sums::sum_range(v, 0, 0) == 0);
        assert(crate::sums::sum_range(v, 0, 1) == 0);
        let w = |k: int| v(k + 1);
        crate::sums::lemma_sum_shift(v, w, 1, 0, n as int);
        assert forall|k: int| 0 <= k < n implies #[trigger] w(k) == x * s(k) by {
            lemma_pow_succ(x, k as nat);
            assert((k + 1 - 1) as nat == k as nat);
            lemma_mul_is_associative(binom(m, k as nat) as int, x, pow(x, k as nat));
            lemma_mul_is_associative(x, binom(m, k as nat) as int, pow(x, k as nat));
            lemma_mul_is_commutative(x, binom(m, k as nat) as int);
        }
        crate::sums::lemma_sum_scale(s, w, x, 0, n as int);
        lemma_mul_is_distributive_add_other_way(sm, x, 1);
    }
}

/// A prime `p` divides `C(p, k)` for `0 < k < p`.
proof fn lemma_prime_divides_binom(p: nat, k: nat)
    requires
        is_prime_number(p),
        0 < k < p,
    ensures
        binom(p, k) % p == 0,
{
    lemma_binom_absorb(p, k);
    let c = binom((p - 1) as nat, (k - 1) as nat) as int;
    lemma_mul_is_commutative(p as int, c);
    lemma_mod_multiples_basic(c, p as int);
    lemma_euclid(p, k as int, binom(p, k) as int);
    lemma_small_mod(k, p);
}

/// `(x + 1)^p = x^p + 1` modulo a prime `p`.
proof fn lemma_freshman(x: int, p: nat)
    requires
        is_prime_number(p),
    ensures
        pow(x + 1, p) % (p as int) == (pow(x, p) + 1) % (p as int),
{
    let pi = p as int;
    let t = |k: int| binom(p, k as nat) * pow(x, k as nat);
    lemma_binomial(x, p);
    crate::sums::lemma_sum_split(t, 0, 1, pi + 1);
    crate::sums::lemma_sum_split(t, 1, pi, pi + 1);
    assert(crate::sums::sum_range(t, 0, 0) == 0);
    assert(crate::sums::sum_range(t, 0, 1) == 1) by {
        lemma_pow0(x);
    }
    assert(crate::sums::sum_range(t, pi, pi) == 0);
    assert(crate::sums::sum_range(t, pi, pi + 1) == pow(x, p)) by {
        lemma_binom_diag(p);
    }
    assert forall|k: int| 1 <= k < pi implies #[trigger] t(k) % pi == 0 by {
        lemma_prime_divides_binom(p, k as nat);
        lemma_mul_mod_noop_left(binom(p, k as nat) as int, pow(x, k as nat), pi);
        lemma_mul_basics(pow(x, k as nat));
        lemma_small_mod(0, p);
    }
    crate::sums::lemma_sum_vanishes(t, 1, pi, pi);
    let mid = crate::sums::sum_range(t, 1, pi);
    lemma_add_mod_noop(1 + pow(x, p), mid, pi);
    lemma_small_mod(0, p);
    lemma_mod_twice(1 + pow(x, p), pi);
}

/// `x^p = x` modulo a prime `p`.
proof fn lemma_pow_prime(x: nat, p: nat)
    requires
        is_prime_number(p),
    ensures
        pow(x as int, p) % (p as int) == (x as int) % (p as int),
    decreases x,
{
    let pi = p as int;
    if x == 0 {
        lemma_pow_succ(0, (p - 1) as nat);
        assert(pow(0, p) == 0);
    } else {
        let y = (x - 1) as nat;
        lemma_pow_prime(y, p);
        lemma_freshman(y as int, p);
        lemma_add_mod_noop(pow(y as int, p), 1, pi);
        lemma_add_mod_noop(y as int, 1, pi);
    }
}

/// Fermat's little theorem: `b^(p - 1) = 1` modulo a prime `p` not dividing `b`.
pub proof fn lemma_fermat(p: nat, b: nat)
    requires
        is_prime_number(p),
        b % p != 0,
    ensures
        pow(b as int, (p - 1) as nat) % (p as int) == 1,
{
    let pi = p as int;
    let q = pow(b as int, (p - 1) as nat);
    lemma_pow_prime(b, p);
    lemma_pow_succ(b as int, (p - 1) as nat);
    assert(((p - 1) as nat + 1) as nat == p);
    // b q = b, so b (q - 1) = 0 modulo p
    lemma_mod_equivalence(b * q, b as int, pi);
    assert(b * q - b == b * (q - 1)) by (nonlinear_arith);
    lemma_euclid(p, b as int, q - 1);
    lemma_mod_equivalence(q, 1, pi);
    lemma_small_mod(1, p);
}

/// The square roots of one modulo a prime are `1` and `-1`.
pub proof fn lemma_sqrt_one(p: nat, x: int)
    requires
        is_prime_number(p),
        (x * x) % (p as int) == 1,
    ensures
        x % (p as int) == 1 || x % (p as int) == p - 1,
{
    let pi = p as int;
    lemma_small_mod(1, p);
    lemma_mod_equivalence(x * x, 1, pi);
    assert((x - 1) * (x + 1) == x * x - 1) by (nonlinear_arith);
    lemma_euclid(p, x - 1, x + 1);
    if (x - 1) % pi == 0 {
        lemma_mod_equivalence(x, 1, pi);
    } else {
        lemma_mod_equivalence(x, -1, pi);
        lemma_mod_sub_multiples_vanish(pi - 1, pi);
        lemma_small_mod((p - 1) as nat, p);
    }
}

/// The quotient of the polynomial `c` by `x - r` (synthetic division).
pub open spec fn synthetic_quotient(c: Seq<int>, r: int) -> Seq<int>
    decreases c.len(),
{
    if c.len() <= 1 {
        Seq::empty()
    } else {
        seq![poly_eval(c.drop_first(), r)] + synthetic_quotient(c.drop_first(), r)
    }
}

/// The factor theorem: `c(x) = (x - r) q(x) + c(r)` for the synthetic quotient `q`, which has
/// one coefficient less and the same leading coefficient.
proof fn lemma_factor(c: Seq<int>, r: int, x: int)
    requires
        c.len() >= 1,
    ensures
        synthetic_quotient(c, r).len() == c.len() - 1,
        c.len() >= 2 ==> synthetic_quotient(c, r)[c.len() - 2] == c[c.len() - 1],
        poly_eval(c, x) == (x - r) * poly_eval(synthetic_quotient(c, r), x) + poly_eval(c, r),
    decreases c.len(),
{
    let q = synthetic_quotient(c, r);
    if c.len() == 1 {
        assert(c.drop_first().len() == 0);
        assert(poly_eval(c.drop_first(), x) == 0);
        assert(poly_eval(c.drop_first(), r) == 0);
        assert(poly_eval(c, x) == c[0] + x * 0);
        assert(poly_eval(c, r) == c[0] + r * 0);
        lemma_mul_basics(x);
        lemma_mul_basics(r);
        lemma_mul_basics(x - r);
    } else {
        let c1 = c.drop_first();
        let q1 = synthetic_quotient(c1, r);
        lemma_factor(c1, r, x);
        let v = poly_eval(c1, r);
        assert(q.drop_first() =~= q1);
        assert(q[0] == v);
        if c.len() >= 3 {
            assert(q[c.len() - 2] == q1[c.len() - 3]);
        } else {
            assert(c1.drop_first().len() == 0);
            assert(poly_eval(c1.drop_first(), r) == 0);
            lemma_mul_basics(r);
            assert(v == c1[0]);
        }
        let pq1 = poly_eval(q1, x);
        let pc1 = poly_eval(c1, x);
        assert(poly_eval(q, x) == v + x * pq1);
        assert(poly_eval(c, x) == c[0] + x * pc1);
        assert(poly_eval(c, r) == c[0] + r * v);
        assert(c[0] + x * pc1 == (x - r) * (v + x * pq1) + (c[0] + r * v)) by (nonlinear_arith)
            requires
                pc1 == (x - r) * pq1 + v,
        ;
    }
}

/// Lagrange's theorem: a polynomial whose leading coefficient a prime `p` does not divide has
/// no more roots modulo `p`, pairwise distinct modulo `p`, than its degree.
pub proof fn lemma_root_count(p: nat, c: Seq<int>, roots: Seq<int>)
    requires
        is_prime_number(p),
        c.len() >= 1,
        c[c.len() - 1] % (p as int) != 0,
        forall|i: int| 0 <= i < roots.len() ==> #[trigger] poly_eval(c, roots[i]) % (p as int) == 0,
        forall|i: int, j: int| 0 <= i < j < roots.len() ==> (#[trigger] roots[i] - #[trigger] roots[j]) % (p as int) != 0,
    ensures
        roots.len() <= c.len() - 1,
    decreases c.len(),
{
    let pi = p as int;
    if roots.len() > 0 {
        let r0 = roots[0];
        lemma_factor(c, r0, r0);
        if c.len() == 1 {
            assert(poly_eval(c, r0) == c[0] + r0 * poly_eval(c.drop_first(), r0));
            assert(poly_eval(c.drop_first(), r0) == 0);
            lemma_mul_basics(r0);
            assert(poly_eval(c, r0) % pi == 0);
        } else {
            let q = synthetic_quotient(c, r0);
            let rest = roots.drop_first();
            assert forall|i: int| 0 <= i < rest.len() implies #[trigger] poly_eval(q, rest[i]) % pi == 0 by {
                let s = rest[i];
                assert(s == roots[i + 1]);
                lemma_factor(c, r0, s);
                assert(poly_eval(c, s) % pi == 0);
                assert(poly_eval(c, r0) % pi == 0);
                lemma_mod_equivalence(poly_eval(c, s), poly_eval(c, r0), pi);
                assert((s - r0) * poly_eval(q, s) == poly_eval(c, s) - poly_eval(c, r0));
                lemma_euclid(p, s - r0, poly_eval(q, s));
                assert((roots[0] - roots[i + 1]) % pi != 0);
                if (s - r0) % pi == 0 {
                    lemma_mod_equivalence(s, r0, pi);
                    lemma_mod_equivalence(r0, s, pi);
                }
            }
            assert forall|i: int, j: int| 0 <= i < j < rest.len() implies (#[trigger] rest[i] - #[trigger] rest[j]) % pi != 0 by {
                assert(rest[i] == roots[i + 1] && rest[j] == roots[j + 1]);
            }
            lemma_root_count(p, q, rest);
        }
    }
}

} // verus!
