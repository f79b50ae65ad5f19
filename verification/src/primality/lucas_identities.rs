//! The Lucas sequences `U(P, Q)` and `V(P, Q)` and the identities behind their fast evaluation.
use vstd::prelude::*;
use vstd::arithmetic::mul::*;
use vstd::arithmetic::power::*;

verus! {

/// `U_0 = 0`, `U_1 = 1`, `U_{k+2} = P U_{k+1} - Q U_k`.
pub open spec fn lucas_u(p: int, q: int, k: nat) -> int
    decreases k,
{
    if k == 0 {
        0
    } else if k == 1 {
        1
    } else {
        p * lucas_u(p, q, (k - 1) as nat) - q * lucas_u(p, q, (k - 2) as nat)
    }
}

/// `V_0 = 2`, `V_1 = P`, `V_{k+2} = P V_{k+1} - Q V_k`.
pub open spec fn lucas_v(p: int, q: int, k: nat) -> int
    decreases k,
{
    if k == 0 {
        2
    } else if k == 1 {
        p
    } else {
        p * lucas_v(p, q, (k - 1) as nat) - q * lucas_v(p, q, (k - 2) as nat)
    }
}

/// `V_k = 2 U_{k+1} - P U_k`.
pub proof fn lemma_v_by_u(p: int, q: int, k: nat)
    ensures
        lucas_v(p, q, k) == 2 * lucas_u(p, q, k + 1) - p * lucas_u(p, q, k),
    decreases k,
{
    if k >= 2 {
        lemma_v_by_u(p, q, (k - 1) as nat);
        lemma_v_by_u(p, q, (k - 2) as nat);
        let (u0, u1, u2, u3) = (
            lucas_u(p, q, (k - 2) as nat),
            lucas_u(p, q, (k - 1) as nat),
            lucas_u(p, q, k),
            lucas_u(p, q, k + 1),
        );
        assert(u2 == p * u1 - q * u0);
        assert(u3 == p * u2 - q * u1);
        assert(p * (2 * u2 - p * u1) - q * (2 * u1 - p * u0) == 2 * u3 - p * u2) by (nonlinear_arith)
            requires
                u2 == p * u1 - q * u0,
                u3 == p * u2 - q * u1,
        ;
    } else if k == 1 {
        assert(lucas_u(p, q, 1) == 1);
        assert(lucas_u(p, q, 0) == 0);
        assert(lucas_u(p, q, 2) == p * 1 - q * 0);
    } else {
        assert(lucas_u(p, q, 1) == 1);
        assert(lucas_u(p, q, 0) == 0);
    }
}

/// `U_{k+1} - P U_k = -Q U_{k-1}` for `k >= 1`.
pub proof fn lemma_u_step_back(p: int, q: int, k: nat)
    requires
        k >= 1,
    ensures
        lucas_u(p, q, k + 1) - p * lucas_u(p, q, k) == -q * lucas_u(p, q, (k - 1) as nat),
{
    assert(lucas_u(p, q, k + 1) == p * lucas_u(p, q, k) - q * lucas_u(p, q, (k - 1) as nat));
    lemma_mul_unary_negation(q, lucas_u(p, q, (k - 1) as nat));
}

/// `U_{m+n+1} = U_{m+1} U_{n+1} - Q U_m U_n`.
pub proof fn lemma_u_add(p: int, q: int, m: nat, n: nat)
    ensures
        lucas_u(p, q, m + n + 1) == lucas_u(p, q, m + 1) * lucas_u(p, q, n + 1) - q * lucas_u(p, q, m) * lucas_u(p, q, n),
    decreases m,
{
    let u = |k: nat| lucas_u(p, q, k);
    if m == 0 {
        assert(lucas_u(p, q, 1) == 1);
        assert(lucas_u(p, q, 0) == 0);
        assert(lucas_u(p, q, 1) * lucas_u(p, q, n + 1) == lucas_u(p, q, n + 1));
        assert(q * lucas_u(p, q, 0) * lucas_u(p, q, n) == 0) by (nonlinear_arith)
            requires
                lucas_u(p, q, 0) == 0,
        ;
    } else if m == 1 {
        assert(lucas_u(p, q, 1) == 1);
        assert(lucas_u(p, q, 0) == 0);
        assert(lucas_u(p, q, 2) == p);
        assert(lucas_u(p, q, n + 2) == p * lucas_u(p, q, n + 1) - q * lucas_u(p, q, n));
        assert(q * lucas_u(p, q, 1) * lucas_u(p, q, n) == q * lucas_u(p, q, n)) by (nonlinear_arith)
            requires
                lucas_u(p, q, 1) == 1,
        ;
    } else {
        lemma_u_add(p, q, (m - 1) as nat, n);
        lemma_u_add(p, q, (m - 2) as nat, n);
        let (a1, a0) = (lucas_u(p, q, m + n), lucas_u(p, q, (m + n - 1) as nat));
        let (um1, um, ump1, umm1) = (lucas_u(p, q, (m - 1) as nat), lucas_u(p, q, m), lucas_u(p, q, m + 1), lucas_u(p, q, (m - 2) as nat));
        let (un, un1) = (lucas_u(p, q, n), lucas_u(p, q, n + 1));
        assert(lucas_u(p, q, m + n + 1) == p * a1 - q * a0);
        assert(ump1 == p * um - q * um1);
        assert(um == p * um1 - q * umm1);
        assert(a1 == um * un1 - q * um1 * un);
        assert(a0 == um1 * un1 - q * umm1 * un);
        let (x, y, z, w) = (um * un1, um1 * un, um1 * un1, umm1 * un);
        assert(ump1 * un1 == p * x - q * z) by (nonlinear_arith)
            requires
                ump1 == p * um - q * um1,
                x == um * un1,
                z == um1 * un1,
        ;
        assert(um * un == p * y - q * w) by {
            lemma_mul_is_distributive_sub_other_way(un, p * um1, q * umm1);
            lemma_mul_is_associative(p, um1, un);
            lemma_mul_is_associative(q, umm1, un);
        }
        assert(q * um * un == q * (p * y - q * w)) by {
            lemma_mul_is_associative(q, um, un);
        }
        assert(q * um1 * un == q * y) by (nonlinear_arith)
            requires
                y == um1 * un,
        ;
        assert(q * umm1 * un == q * w) by (nonlinear_arith)
            requires
                w == umm1 * un,
        ;
        assert(p * (x - q * y) - q * (z - q * w) == p * x - q * z - q * (p * y - q * w)) by (nonlinear_arith);
    }
}

/// `2 V_{m+n} = V_m V_n + D U_m U_n` with `D = P^2 - 4Q`.
pub proof fn lemma_v_add(p: int, q: int, m: nat, n: nat)
    ensures
        2 * lucas_v(p, q, m + n) == lucas_v(p, q, m) * lucas_v(p, q, n) + (p * p - 4 * q) * lucas_u(p, q, m) * lucas_u(p, q, n),
    decreases m,
{
    let d = p * p - 4 * q;
    if m == 0 {
        assert(lucas_v(p, q, 0) == 2 && lucas_u(p, q, 0) == 0);
        assert(d * lucas_u(p, q, 0) * lucas_u(p, q, n) == 0) by (nonlinear_arith)
            requires
                lucas_u(p, q, 0) == 0,
        ;
    } else if m == 1 {
        lemma_v_by_u(p, q, n);
        lemma_v_by_u(p, q, n + 1);
        let (un, un1, un2) = (lucas_u(p, q, n), lucas_u(p, q, n + 1), lucas_u(p, q, n + 2));
        assert(un2 == p * un1 - q * un);
        assert(lucas_v(p, q, 1) == p && lucas_u(p, q, 1) == 1);
        assert(2 * (2 * un2 - p * un1) == p * (2 * un1 - p * un) + d * 1 * un) by (nonlinear_arith)
            requires
                un2 == p * un1 - q * un,
                d == p * p - 4 * q,
        ;
    } else {
        lemma_v_add(p, q, (m - 1) as nat, n);
        lemma_v_add(p, q, (m - 2) as nat, n);
        let (vm, vm1, vm2) = (lucas_v(p, q, m), lucas_v(p, q, (m - 1) as nat), lucas_v(p, q, (m - 2) as nat));
        let (um, um1, um2) = (lucas_u(p, q, m), lucas_u(p, q, (m - 1) as nat), lucas_u(p, q, (m - 2) as nat));
        let (vn, un) = (lucas_v(p, q, n), lucas_u(p, q, n));
        let (s, s1, s2) = (lucas_v(p, q, m + n), lucas_v(p, q, (m + n - 1) as nat), lucas_v(p, q, (m + n - 2) as nat));
        assert(s == p * s1 - q * s2);
        assert(vm == p * vm1 - q * vm2);
        assert(um == p * um1 - q * um2);
        let (x1, x2, y1, y2) = (vm1 * vn, vm2 * vn, d * um1 * un, d * um2 * un);
        assert(vm * vn == p * x1 - q * x2) by (nonlinear_arith)
            requires
                vm == p * vm1 - q * vm2,
                x1 == vm1 * vn,
                x2 == vm2 * vn,
        ;
        assert(d * um == p * (d * um1) - q * (d * um2)) by {
            lemma_mul_is_distributive_sub(d, p * um1, q * um2);
            lemma_mul_is_associative(d, p, um1);
            lemma_mul_is_associative(d, q, um2);
            lemma_mul_is_associative(p, d, um1);
            lemma_mul_is_associative(q, d, um2);
            lemma_mul_is_commutative(d, p);
            lemma_mul_is_commutative(d, q);
        }
        assert(d * um * un == p * y1 - q * y2) by {
            lemma_mul_is_distributive_sub_other_way(un, p * (d * um1), q * (d * um2));
            lemma_mul_is_associative(p, d * um1, un);
            lemma_mul_is_associative(q, d * um2, un);
        }
        assert(2 * s == p * (2 * s1) - q * (2 * s2)) by (nonlinear_arith)
            requires
                s == p * s1 - q * s2,
        ;
        assert(p * (x1 + y1) - q * (x2 + y2) == (p * x1 - q * x2) + (p * y1 - q * y2)) by (nonlinear_arith);
    }
}

/// `U_{k+1}^2 - P U_{k+1} U_k + Q U_k^2 = Q^k`.
pub proof fn lemma_u_cassini(p: int, q: int, k: nat)
    ensures
        lucas_u(p, q, k + 1) * lucas_u(p, q, k + 1) - p * lucas_u(p, q, k + 1) * lucas_u(p, q, k)
            + q * lucas_u(p, q, k) * lucas_u(p, q, k) == pow(q, k),
    decreases k,
{
    reveal(pow);
    if k == 0 {
        assert(lucas_u(p, q, 1) == 1 && lucas_u(p, q, 0) == 0);
        assert(p * lucas_u(p, q, 1) * lucas_u(p, q, 0) == 0) by (nonlinear_arith)
            requires
                lucas_u(p, q, 0) == 0,
        ;
        assert(q * lucas_u(p, q, 0) * lucas_u(p, q, 0) == 0) by (nonlinear_arith)
            requires
                lucas_u(p, q, 0) == 0,
        ;
    } else {
        lemma_u_cassini(p, q, (k - 1) as nat);
        let (a, b, c) = (lucas_u(p, q, (k - 1) as nat), lucas_u(p, q, k), lucas_u(p, q, k + 1));
        assert(c == p * b - q * a);
        assert(c * (c - p * b) == (p * b - q * a) * (-q * a)) by (nonlinear_arith)
            requires
                c == p * b - q * a,
        ;
        assert((p * b - q * a) * (-q * a) == q * (q * a * a - p * b * a)) by (nonlinear_arith);
        assert(c * c - p * c * b == c * (c - p * b)) by (nonlinear_arith);
        assert(q * (q * a * a - p * b * a) + q * b * b == q * (b * b - p * b * a + q * a * a)) by (nonlinear_arith);
        assert(q * (b * b - p * b * a + q * a * a) == q * pow(q, (k - 1) as nat));
    }
}

/// `V_k^2 - D U_k^2 = 4 Q^k`.
pub proof fn lemma_v_square(p: int, q: int, k: nat)
    ensures
        lucas_v(p, q, k) * lucas_v(p, q, k) - (p * p - 4 * q) * lucas_u(p, q, k) * lucas_u(p, q, k) == 4 * pow(q, k),
{
    lemma_v_by_u(p, q, k);
    lemma_u_cassini(p, q, k);
    let (u, u1) = (lucas_u(p, q, k), lucas_u(p, q, k + 1));
    assert((2 * u1 - p * u) * (2 * u1 - p * u) - (p * p - 4 * q) * u * u == 4 * (u1 * u1 - p * u1 * u + q * u * u)) by (nonlinear_arith);
}

/// The doubling formulas:
/// `U_{2k} = U_k V_k`, `V_{2k} = V_k^2 - 2 Q^k`,
/// `U_{2k+1} = U_{k+1}^2 - Q U_k^2`, `2 V_{2k+1} = V_k V_{k+1} + D U_k U_{k+1}`.
pub proof fn lemma_doubling(p: int, q: int, k: nat)
    ensures
        lucas_u(p, q, 2 * k) == lucas_u(p, q, k) * lucas_v(p, q, k),
        lucas_v(p, q, 2 * k) == lucas_v(p, q, k) * lucas_v(p, q, k) - 2 * pow(q, k),
        lucas_u(p, q, 2 * k + 1) == lucas_u(p, q, k + 1) * lucas_u(p, q, k + 1) - q * lucas_u(p, q, k) * lucas_u(p, q, k),
        2 * lucas_v(p, q, 2 * k + 1) == lucas_v(p, q, k) * lucas_v(p, q, k + 1) + (p * p - 4 * q) * lucas_u(p, q, k) * lucas_u(p, q, k + 1),
{
    lemma_u_add(p, q, k, k);
    lemma_v_add(p, q, k, k + 1);
    lemma_v_add(p, q, k, k);
    lemma_v_square(p, q, k);
    let (u, v) = (lucas_u(p, q, k), lucas_v(p, q, k));
    let d = p * p - 4 * q;
    assert(2 * lucas_v(p, q, 2 * k) == v * v + d * u * u);
    assert(lucas_v(p, q, 2 * k) == v * v - 2 * pow(q, k)) by (nonlinear_arith)
        requires
            2 * lucas_v(p, q, 2 * k) == v * v + d * u * u,
            v * v - d * u * u == 4 * pow(q, k),
    ;
    if k == 0 {
        assert(lucas_u(p, q, 0) == 0);
        assert(lucas_u(p, q, 0) * lucas_v(p, q, 0) == 0) by (nonlinear_arith)
            requires
                lucas_u(p, q, 0) == 0,
        ;
    } else {
        lemma_u_add(p, q, k, (k - 1) as nat);
        lemma_v_by_u(p, q, k);
        lemma_u_step_back(p, q, k);
        let (um1, u1) = (lucas_u(p, q, (k - 1) as nat), lucas_u(p, q, k + 1));
        assert((k + (k - 1) + 1) as nat == 2 * k);
        assert(lucas_u(p, q, 2 * k) == u1 * u - q * u * um1);
        assert(u1 * u - q * u * um1 == u * v) by (nonlinear_arith)
            requires
                v == 2 * u1 - p * u,
                u1 - p * u == -q * um1,
        ;
    }
}

} // verus!
