//! Lenstra's elliptic curve method on Montgomery curves with Suyama's parametrization.
use vstd::prelude::*;
use vstd::arithmetic::div_mod::*;
use vstd::arithmetic::mul::*;
use vstd::arithmetic::power::pow;
use vstd::arithmetic::power2::pow2;
use crate::arith::{
    lemma_divisor_le, lemma_gcd_divides, lemma_redc_add, lemma_redc_mod, lemma_redc_mul_value, lemma_redc_of_scaled, lemma_redc_sub,
    radix, redc, spec_gcd,
};
use crate::bits::{isqrt, leading_zeros, lemma_sqrt_floor, sqrt_floor, usize_top_bit};
use crate::convolution::u128::{all_below, DynamicConvolution};
use crate::modint::u128::{gcd, lemma_reduced_product, DynamicModInt as Mint};
use crate::multipoint_evaluation::u128::DynamicMultipointEvaluation;
use std::collections::VecDeque;
use crate::utility::{bisect_left, Sfc64, Sieve};
use crate::wrapper::{is_factor_found, is_factor_input, is_proper_divisor, smallest_factor, Factorize};

verus! {

/// The point `(X : Z)` in projective coordinates, both in Montgomery form.
pub type Point = (u128, u128);

/// Doubling on the curve with `a24 = (A + 2) / 4`, on residues: with `s = X + Z`,
/// `d = X - Z` and `t = s^2 - d^2 = 4 X Z`, the point `(s^2 d^2 : t (d^2 + a24 t))`.
pub open spec fn xdbl(n: int, a24: int, x: int, z: int) -> (int, int) {
    let s = x + z;
    let d = x - z;
    let t = s * s - d * d;
    ((s * s * (d * d)) % n, (t * (d * d + a24 * t)) % n)
}

/// Differential addition on residues: `P + Q` from `P`, `Q` and `P - Q`, with
/// `u = (P.X + P.Z)(Q.X - Q.Z)` and `v = (P.X - P.Z)(Q.X + Q.Z)`, the point
/// `(diff.Z (u + v)^2 : diff.X (u - v)^2)`.
pub open spec fn xadd(n: int, p: (int, int), q: (int, int), diff: (int, int)) -> (int, int) {
    let u = (p.0 + p.1) * (q.0 - q.1);
    let v = (p.0 - p.1) * (q.0 + q.1);
    ((diff.1 * ((u + v) * (u + v))) % n, (diff.0 * ((u - v) * (u - v))) % n)
}

/// The Montgomery ladder on residues: `([j] P, [j + 1] P)`, from `(O, P)` with `O = (1 : 0)`
/// through the bits of `j`, most significant first; each bit `b` takes `(R0, R1)` to
/// `(R0 + R1, [2] R1)` when set and to `([2] R0, R0 + R1)` when clear, the sums taken with
/// the difference `P`.
pub open spec fn ladder(n: int, a24: int, p: (int, int), j: nat) -> ((int, int), (int, int))
    decreases j,
{
    if j == 0 {
        ((1int % n, 0int), p)
    } else {
        let r = ladder(n, a24, p, j / 2);
        let s = xadd(n, r.1, r.0, p);
        if j % 2 == 1 {
            (s, xdbl(n, a24, r.1.0, r.1.1))
        } else {
            (xdbl(n, a24, r.0.0, r.0.1), s)
        }
    }
}

/// Montgomery curve `B y^2 = x^3 + A x^2 + x` modulo `n`; points are handled as `(X : Z)` in
/// Montgomery form.
#[derive(Debug, Clone, Copy)]
pub struct Curve {
    a24: u128,
    mo: Mint,
}

impl Curve {
    /// The modulus.
    pub closed spec fn modulus(&self) -> Mint {
        self.mo
    }

    /// `(A + 2) / 4` in Montgomery form.
    pub closed spec fn a24_form(&self) -> u128 {
        self.a24
    }

    /// The modulus is set up and `a24` is a reduced Montgomery form.
    pub open spec fn wf(&self) -> bool {
        self.modulus().wf() && self.a24_form() < self.modulus().n
    }

    /// The residue of a Montgomery form.
    pub open spec fn val(&self, rx: u128) -> int {
        redc(self.modulus().n as int, rx as int)
    }

    /// The residues of a point.
    pub open spec fn point_val(&self, p: Point) -> (int, int) {
        (self.val(p.0), self.val(p.1))
    }

    /// The coordinates of `p` are reduced Montgomery forms.
    pub open spec fn is_point(&self, p: Point) -> bool {
        p.0 < self.modulus().n && p.1 < self.modulus().n
    }

    fn _add(&self, rx: u128, ry: u128) -> (r: u128)
        requires
            self.wf(),
            rx < self.modulus().n,
            ry < self.modulus().n,
        ensures
            r < self.modulus().n,
            self.val(r) == (self.val(rx) + self.val(ry)) % (self.modulus().n as int),
    {
        proof {
            let n = self.mo.n as int;
            lemma_redc_mod(n, rx + ry);
            lemma_redc_add(n, rx as int, ry as int);
        }
        self.mo.add(rx, ry)
    }

    fn _sub(&self, rx: u128, ry: u128) -> (r: u128)
        requires
            self.wf(),
            rx < self.modulus().n,
            ry < self.modulus().n,
        ensures
            r < self.modulus().n,
            self.val(r) == (self.val(rx) - self.val(ry)) % (self.modulus().n as int),
    {
        let r = self.mo.sub(rx, ry);
        proof {
            let n = self.mo.n as int;
            lemma_redc_mod(n, r as int);
            lemma_redc_mod(n, rx - ry);
            lemma_redc_sub(n, rx as int, ry as int);
        }
        r
    }

    fn _mul(&self, rx: u128, ry: u128) -> (r: u128)
        requires
            self.wf(),
            rx < self.modulus().n,
            ry < self.modulus().n,
        ensures
            r < self.modulus().n,
            self.val(r) == (self.val(rx) * self.val(ry)) % (self.modulus().n as int),
    {
        proof {
            lemma_reduced_product(rx, ry, self.mo.n);
            lemma_redc_mul_value(self.mo.n as int, rx as int, ry as int);
            lemma_redc_mod(self.mo.n as int, rx as int * ry as int);
        }
        self.mo.mul(rx, ry)
    }

    /// The curve with `a24 = (A + 2) / 4` given in Montgomery form.
    pub fn new(a24: u128, mo: Mint) -> (c: Self)
        ensures
            c.modulus() == mo,
            c.a24_form() == a24,
    {
        Self { a24, mo }
    }

    /// The neutral element `(1 : 0)`.
    pub fn zero(&self) -> (p: Point)
        requires
            self.wf(),
        ensures
            self.is_point(p),
            p == (self.modulus().r1, 0u128),
    {
        proof {
            vstd::arithmetic::div_mod::lemma_mod_bound(radix(), self.mo.n as int);
        }
        (self.mo.r1, 0)
    }

    /// `[2] P`.
    pub fn double(&self, p: Point) -> (r: Point)
        requires
            self.wf(),
            self.is_point(p),
        ensures
            self.is_point(r),
            self.point_val(r) == xdbl(self.modulus().n as int, self.val(self.a24_form()), self.val(p.0), self.val(p.1)),
    {
        let (x, z) = p;
        let add = self._add(x, z);
        let sub = self._sub(x, z);
        let add2 = self._mul(add, add);
        let sub2 = self._mul(sub, sub);
        let nx = self._mul(add2, sub2);
        let xz4 = self._sub(add2, sub2);
        let c1 = self._mul(self.a24, xz4);
        let c2 = self._add(sub2, c1);
        let nz = self._mul(xz4, c2);
        proof {
            let n = self.mo.n as int;
            lemma_redc_mod(n, self.a24 as int);
            lemma_xdbl_chain(n, self.val(x), self.val(z), self.val(self.a24), self.val(add), self.val(sub), self.val(add2),
                self.val(sub2), self.val(nx), self.val(xz4), self.val(c1), self.val(c2), self.val(nz));
        }
        (nx, nz)
    }

    /// `P + Q`, given `diff = P - Q`.
    pub fn add(&self, p: Point, q: Point, diff: Point) -> (r: Point)
        requires
            self.wf(),
            self.is_point(p),
            self.is_point(q),
            self.is_point(diff),
        ensures
            self.is_point(r),
            self.point_val(r) == xadd(self.modulus().n as int, self.point_val(p), self.point_val(q), self.point_val(diff)),
    {
        let v0 = self._add(p.0, p.1);
        let v1 = self._sub(q.0, q.1);
        let t1 = self._mul(v0, v1);
        let w0 = self._sub(p.0, p.1);
        let w1 = self._add(q.0, q.1);
        let t2 = self._mul(w0, w1);
        let add = self._add(t1, t2);
        let add2 = self._mul(add, add);
        let sub = self._sub(t1, t2);
        let sub2 = self._mul(sub, sub);
        let rx = self._mul(diff.1, add2);
        let rz = self._mul(diff.0, sub2);
        proof {
            let n = self.mo.n as int;
            lemma_redc_mod(n, diff.0 as int);
            lemma_redc_mod(n, diff.1 as int);
            lemma_xadd_chain(n, self.val(p.0), self.val(p.1), self.val(q.0), self.val(q.1), self.val(diff.0), self.val(diff.1),
                self.val(v0), self.val(v1), self.val(t1), self.val(w0), self.val(w1), self.val(t2), self.val(add),
                self.val(add2), self.val(sub), self.val(sub2), self.val(rx), self.val(rz));
        }
        (rx, rz)
    }

    /// `[m] P` by the Montgomery ladder over the bits of `m - 1`.
    pub fn scale(&self, p: Point, m: u128) -> (r: Point)
        requires
            self.wf(),
            self.is_point(p),
        ensures
            self.is_point(r),
            m == 0 ==> r == (self.modulus().r1, 0u128),
            m == 1 ==> r == p,
            m == 2 ==> self.point_val(r) == xdbl(self.modulus().n as int, self.val(self.a24_form()), self.val(p.0), self.val(p.1)),
            m >= 3 && p.1 == 0 ==> r == (self.modulus().r1, 0u128),
            m >= 3 && p.1 != 0 ==> self.point_val(r) == ladder(
                self.modulus().n as int,
                self.val(self.a24_form()),
                self.point_val(p),
                (m - 1) as nat,
            ).1,
    {
        if m == 0 {
            return self.zero();
        }
        if m == 1 {
            return p;
        }
        if m == 2 {
            return self.double(p);
        }
        if p.1 == 0 {
            return self.zero();
        }
        let ghost n = self.mo.n as int;
        let ghost a24v = self.val(self.a24);
        let ghost pv = self.point_val(p);
        let m1 = m - 1;
        let mut p0 = self.zero();
        let mut p1 = p;
        let mut i: u32 = 128 - leading_zeros(m1);
        let ghost i0 = i;
        proof {
            vstd::arithmetic::power2::lemma_pow2_pos(i as nat);
            lemma_basic_div(m1 as int, pow2(i as nat) as int);
            lemma_redc_of_scaled(n, 1);
            lemma_mul_basics(crate::arith::r_inv(n));
            lemma_small_mod(0, n as nat);
        }
        let ghost mut j: nat = 0;
        while i > 0
            invariant
                i <= 128,
                self.wf(),
                self.is_point(p),
                self.is_point(p0),
                self.is_point(p1),
                n == self.modulus().n,
                a24v == self.val(self.a24_form()),
                pv == self.point_val(p),
                j == m1 as int / pow2(i as nat) as int,
                j >= 1 || i == i0,
                i <= i0,
                1 <= i0 <= 128,
                pow2((i0 - 1) as nat) <= m1,
                (self.point_val(p0), self.point_val(p1)) == ladder(n, a24v, pv, j),
            decreases i,
        {
            i -= 1;
            let p3 = self.add(p1, p0, p);
            let bit = (m1 >> i) & 1;
            proof {
                let q = m1 as int / pow2(i as nat) as int;
                vstd::bits::lemma_u128_shr_is_div(m1, i as u128);
                let y = m1 >> i;
                assert(y & 1 == y % 2) by (bit_vector);
                vstd::arithmetic::power2::lemma_pow2_pos(i as nat);
                vstd::arithmetic::power2::lemma_pow2_unfold((i + 1) as nat);
                lemma_div_denominator(m1 as int, pow2(i as nat) as int, 2);
                lemma_mul_is_commutative(pow2(i as nat) as int, 2);
                if i + 1 < i0 {
                    vstd::arithmetic::power2::lemma_pow2_strictly_increases(i as nat, (i0 - 1) as nat);
                }
                lemma_fundamental_div_mod(m1 as int, pow2(i as nat) as int);
                assert(pow2(i as nat) <= m1);
                let d = pow2(i as nat) as int;
                assert(q >= 1) by (nonlinear_arith)
                    requires
                        m1 == d * q + m1 as int % d,
                        0 <= m1 as int % d < d,
                        d <= m1,
                ;
                assert(q / 2 == j);
                assert(q % 2 == bit);
                j = q as nat;
            }
            if bit == 1 {
                let d = self.double(p1);
                p0 = p3;
                p1 = d;
            } else {
                let d = self.double(p0);
                p0 = d;
                p1 = p3;
            }
        }
        proof {
            vstd::arithmetic::power2::lemma2_to64();
            assert(i == 0);
            assert(pow2(0) == 1);
            assert(m1 as int / 1 == m1 as int);
            assert(j == m1);
        }
        p1
    }

    /// Suyama's parametrization for the seed `s`: the curve with
    /// `(A + 2) / 4 = (u - v)^3 (3 u + v) / (16 u^3 v)` and the point `(u^3 : v^3)`, where
    /// `u = s^2 - 5` and `v = 4 s`; or `gcd(16 u^3 v, n)` when that is not invertible.
    pub fn init_suyama(s: u128, mo: Mint) -> (res: Result<(Self, Point), u128>)
        requires
            mo.wf(),
        ensures
            ({
                let n = mo.n as int;
                let u = (s * s - 5) % n;
                let v = (4 * s) % n;
                let den = (16 * (u * u * u) * v) % n;
                let num = ((u - v) * (u - v) * (u - v) * (3 * u + v)) % n;
                match res {
                    Ok((c, p)) => {
                        &&& c.wf()
                        &&& c.modulus() == mo
                        &&& c.is_point(p)
                        &&& spec_gcd(den as nat, mo.n as nat) == 1
                        &&& (c.val(c.a24_form()) * den) % n == num
                        &&& c.point_val(p) == ((u * u * u) % n, (v * v * v) % n)
                    },
                    Err(d) => {
                        &&& spec_gcd(den as nat, mo.n as nat) != 1
                        &&& d == spec_gcd(den as nat, mo.n as nat)
                    },
                }
            }),
    {
        let c0 = Self { a24: 0, mo };
        let rs = mo.mr(s);
        let r5 = mo.mr(5);
        let r4 = mo.mr(4);
        let r3 = mo.mr(3);
        let r16 = mo.mr(16);
        proof {
            let n = mo.n as int;
            lemma_mod_bound(s as int * radix(), n);
            lemma_mod_bound(5 * radix(), n);
            lemma_mod_bound(4 * radix(), n);
            lemma_mod_bound(3 * radix(), n);
            lemma_mod_bound(16 * radix(), n);
            crate::arith::lemma_value_of_repr(n, s as int);
            crate::arith::lemma_value_of_repr(n, 5);
            crate::arith::lemma_value_of_repr(n, 4);
            crate::arith::lemma_value_of_repr(n, 3);
            crate::arith::lemma_value_of_repr(n, 16);
        }
        let rs2 = c0._mul(rs, rs);
        let u = c0._sub(rs2, r5);
        let v = c0._mul(rs, r4);
        let uv = c0._sub(u, v);
        let uv2 = c0._mul(uv, uv);
        let t1 = c0._mul(uv2, uv);
        let u3r = c0._mul(u, r3);
        let t2 = c0._add(u3r, v);
        let u2 = c0._mul(u, u);
        let u3 = c0._mul(u2, u);
        let t3 = c0._mul(u3, v);
        let num = c0._mul(t1, t2);
        let den = c0._mul(r16, t3);
        let v2 = c0._mul(v, v);
        let v3 = c0._mul(v2, v);
        proof {
            lemma_suyama_values(mo.n as int, s as int, c0.val(rs), c0.val(rs2), c0.val(u), c0.val(v), c0.val(uv), c0.val(uv2),
                c0.val(t1), c0.val(u3r), c0.val(t2), c0.val(u2), c0.val(u3), c0.val(t3), c0.val(num), c0.val(den), c0.val(v2), c0.val(v3));
        }
        let a24 = match mo.div(num, den) {
            Ok(a) => a,
            Err(d) => return Err(d),
        };
        Ok((Self::new(a24, mo), (u3, v3)))
    }
}

/// The residues computed by Suyama's parametrization step by step are the closed forms.
proof fn lemma_suyama_values(n: int, s: int, rs: int, rs2: int, u: int, v: int, uv: int, uv2: int, t1: int, u3r: int,
    t2: int, u2: int, u3: int, t3: int, num: int, den: int, v2: int, v3: int)
    requires
        n > 0,
        rs == s % n,
        rs2 == (rs * rs) % n,
        u == (rs2 - 5int % n) % n,
        v == (rs * (4int % n)) % n,
        uv == (u - v) % n,
        uv2 == (uv * uv) % n,
        t1 == (uv2 * uv) % n,
        u3r == (u * (3int % n)) % n,
        t2 == (u3r + v) % n,
        u2 == (u * u) % n,
        u3 == (u2 * u) % n,
        t3 == (u3 * v) % n,
        num == (t1 * t2) % n,
        den == ((16int % n) * t3) % n,
        v2 == (v * v) % n,
        v3 == (v2 * v) % n,
    ensures
        u == (s * s - 5) % n,
        v == (4 * s) % n,
        u3 == (u * u * u) % n,
        v3 == (v * v * v) % n,
        den == (16 * (u * u * u) * v) % n,
        num == ((u - v) * (u - v) * (u - v) * (3 * u + v)) % n,
{
    lemma_mul_mod_noop(s, s, n);
    lemma_sub_mod_noop(s * s, 5, n);
    lemma_mul_mod_noop(s, 4, n);
    lemma_mul_is_commutative(s, 4);
    lemma_mod_bound(s * s - 5, n);
    lemma_mod_bound(4 * s, n);
    lemma_small_mod(u as nat, n as nat);
    lemma_small_mod(v as nat, n as nat);
    // u^3 and v^3
    lemma_mul_mod_noop_left(u * u, u, n);
    lemma_mul_mod_noop_left(v * v, v, n);
    // (u - v)^3
    lemma_mul_mod_noop(u - v, u - v, n);
    lemma_mul_mod_noop((u - v) * (u - v), u - v, n);
    lemma_mod_twice((u - v) * (u - v), n);
    lemma_mod_twice(u - v, n);
    // 3 u + v
    lemma_mul_mod_noop(u, 3, n);
    lemma_add_mod_noop(u * 3, v, n);
    lemma_mod_twice(u * 3, n);
    lemma_mul_is_commutative(u, 3);
    // t3 and den
    lemma_mul_mod_noop_left(u * u * u, v, n);
    lemma_mul_mod_noop(16, (u * u * u) * v, n);
    lemma_mod_twice((u * u * u) * v, n);
    lemma_mul_is_associative(16, u * u * u, v);
    // num
    lemma_mul_mod_noop((u - v) * (u - v) * (u - v), 3 * u + v, n);
    lemma_mod_twice((u - v) * (u - v) * (u - v), n);
    lemma_mod_twice(3 * u + v, n);
}


/// The residues computed by `double` step by step give `xdbl`.
proof fn lemma_xdbl_chain(n: int, x: int, z: int, a: int, sa: int, sd: int, add2: int, sub2: int, nx: int, xz4: int, c1: int,
    c2: int, nz: int)
    requires
        n > 0,
        0 <= a < n,
        sa == (x + z) % n,
        sd == (x - z) % n,
        add2 == (sa * sa) % n,
        sub2 == (sd * sd) % n,
        nx == (add2 * sub2) % n,
        xz4 == (add2 - sub2) % n,
        c1 == (a * xz4) % n,
        c2 == (sub2 + c1) % n,
        nz == (xz4 * c2) % n,
    ensures
        (nx, nz) == xdbl(n, a, x, z),
{
    let s = x + z;
    let d = x - z;
    let t = s * s - d * d;
    lemma_mul_mod_noop(s, s, n);
    lemma_mul_mod_noop(d, d, n);
    assert(add2 == (s * s) % n);
    assert(sub2 == (d * d) % n);
    lemma_mul_mod_noop(s * s, d * d, n);
    assert(nx == (s * s * (d * d)) % n);
    lemma_sub_mod_noop(s * s, d * d, n);
    assert(xz4 == t % n);
    lemma_mul_mod_noop_right(a, t, n);
    assert(c1 == (a * t) % n);
    lemma_add_mod_noop(d * d, a * t, n);
    assert(c2 == (d * d + a * t) % n);
    lemma_mul_mod_noop(t, d * d + a * t, n);
    assert(nz == (t * (d * d + a * t)) % n);
}

/// The residues computed by `add` step by step give `xadd`.
proof fn lemma_xadd_chain(n: int, p0: int, p1: int, q0: int, q1: int, d0: int, d1: int, v0: int, v1: int, t1: int, w0: int,
    w1: int, t2: int, sa: int, sa2: int, sd: int, sd2: int, rx: int, rz: int)
    requires
        n > 0,
        0 <= d0 < n,
        0 <= d1 < n,
        v0 == (p0 + p1) % n,
        v1 == (q0 - q1) % n,
        t1 == (v0 * v1) % n,
        w0 == (p0 - p1) % n,
        w1 == (q0 + q1) % n,
        t2 == (w0 * w1) % n,
        sa == (t1 + t2) % n,
        sa2 == (sa * sa) % n,
        sd == (t1 - t2) % n,
        sd2 == (sd * sd) % n,
        rx == (d1 * sa2) % n,
        rz == (d0 * sd2) % n,
    ensures
        (rx, rz) == xadd(n, (p0, p1), (q0, q1), (d0, d1)),
{
    let u = (p0 + p1) * (q0 - q1);
    let v = (p0 - p1) * (q0 + q1);
    lemma_mul_mod_noop(p0 + p1, q0 - q1, n);
    lemma_mul_mod_noop(p0 - p1, q0 + q1, n);
    assert(t1 == u % n);
    assert(t2 == v % n);
    lemma_add_mod_noop(u, v, n);
    lemma_sub_mod_noop(u, v, n);
    assert(sa == (u + v) % n);
    assert(sd == (u - v) % n);
    lemma_mul_mod_noop(u + v, u + v, n);
    lemma_mul_mod_noop(u - v, u - v, n);
    assert(sa2 == ((u + v) * (u + v)) % n);
    assert(sd2 == ((u - v) * (u - v)) % n);
    lemma_mul_mod_noop_right(d1, (u + v) * (u + v), n);
    lemma_mul_mod_noop_right(d0, (u - v) * (u - v), n);
}

/// The bounds of the two stages.
#[derive(Debug, Clone, Copy, PartialEq, Eq)]
pub struct EcmBound {
    pub b1: u128,
    pub b2: u128,
}


/// A schedule of bounds: round `k` uses a bound for a number of curves.
pub trait BoundStrategy: Clone {
    /// The bound of round `round` and the number of curves to try with it, or `None` when the
    /// schedule has ended.
    fn generate_bound(&self, n: u128, round: usize) -> Option<(EcmBound, usize)>;
}

/// The second stage run on a curve after the first.
pub trait Stage2Strategy {
    /// What the second stage reports within `bound` for the point with residues `p` on the
    /// curve with `(A + 2) / 4 = a24` modulo `n`.
    spec fn stage2_value(&self, bound: EcmBound, n: int, a24: int, p: (int, int)) -> Option<u128>;

    /// The bounds on which this second stage runs: those for which its tables fit in memory
    /// and its index arithmetic does not fail.
    spec fn accepts(&self, bound: EcmBound) -> bool;

    /// Whether this second stage runs on `bound`, decided at run time.
    fn bound_fits(&self, bound: EcmBound) -> (r: bool)
        ensures
            r == self.accepts(bound),
    ;

    /// A divisor of `mo.n` found from `point` on `c` within `bound`, if any.
    fn check_stage2(&self, bound: EcmBound, mo: Mint, c: &Curve, point: Point) -> (r: Option<u128>)
        requires
            mo.wf(),
            mo.n >= 3,
            c.wf(),
            c.modulus() == mo,
            c.is_point(point),
            self.accepts(bound),
        ensures
            r matches Some(d) ==> d >= 1 && mo.n % d == 0,
            r == self.stage2_value(bound, mo.n as int, c.val(c.a24_form()), c.point_val(point)),
    ;
}

/// Bounds growing geometrically: `initial * rate^k`, each used `rep` times.
#[derive(Debug, Clone, Copy, PartialEq, Eq)]
pub struct ExponentialBound {
    initial: EcmBound,
    rate: u128,
    rep: usize,
}

impl ExponentialBound {
    /// The first bound.
    pub closed spec fn initial(&self) -> EcmBound {
        self.initial
    }

    /// The growth factor.
    pub closed spec fn rate(&self) -> u128 {
        self.rate
    }

    /// The number of curves per bound.
    pub closed spec fn rep(&self) -> usize {
        self.rep
    }

    pub fn new(initial: EcmBound, rate: u128, rep: usize) -> (r: Self)
        ensures
            r.initial() == initial,
            r.rate() == rate,
            r.rep() == rep,
    {
        Self { initial, rate, rep }
    }
}

impl BoundStrategy for ExponentialBound {
    /// `(initial * rate^round, rep)`, or `None` once that leaves 128 bits.
    fn generate_bound(&self, n: u128, round: usize) -> (r: Option<(EcmBound, usize)>)
        ensures
            match r {
                Some((b, k)) => {
                    &&& k == self.rep()
                    &&& b.b1 == self.initial().b1 * pow(self.rate() as int, round as nat)
                    &&& b.b2 == self.initial().b2 * pow(self.rate() as int, round as nat)
                },
                None => self.initial().b1 * pow(self.rate() as int, round as nat) > u128::MAX
                    || self.initial().b2 * pow(self.rate() as int, round as nat) > u128::MAX,
            },
    {
        let mut b1 = self.initial.b1;
        let mut b2 = self.initial.b2;
        let mut k: usize = 0;
        proof {
            vstd::arithmetic::power::lemma_pow0(self.rate as int);
        }
        while k < round
            invariant
                k <= round,
                b1 == self.initial.b1 * pow(self.rate as int, k as nat),
                b2 == self.initial.b2 * pow(self.rate as int, k as nat),
            decreases round - k,
        {
            proof {
                vstd::arithmetic::power::lemma_pow_adds(self.rate as int, k as nat, 1);
                vstd::arithmetic::power::lemma_pow1(self.rate as int);
                lemma_mul_is_associative(self.initial.b1 as int, pow(self.rate as int, k as nat), self.rate as int);
                lemma_mul_is_associative(self.initial.b2 as int, pow(self.rate as int, k as nat), self.rate as int);
            }
            match (b1.checked_mul(self.rate), b2.checked_mul(self.rate)) {
                (Some(x), Some(y)) => {
                    b1 = x;
                    b2 = y;
                },
                _ => {
                    proof {
                        lemma_exp_bound_stays_over(self.initial.b1 as int, self.initial.b2 as int, self.rate as int, k as nat, round as nat);
                    }
                    return None;
                },
            }
            k += 1;
        }
        Some((EcmBound { b1, b2 }, self.rep))
    }
}

/// Once `i * r^(k+1)` or `j * r^(k+1)` exceeds 128 bits, so do the later ones.
proof fn lemma_exp_bound_stays_over(i: int, j: int, r: int, k: nat, round: nat)
    requires
        i >= 0,
        j >= 0,
        r >= 0,
        k < round,
        i * pow(r, k) <= u128::MAX,
        j * pow(r, k) <= u128::MAX,
        i * pow(r, k + 1) > u128::MAX || j * pow(r, k + 1) > u128::MAX,
    ensures
        i * pow(r, round) > u128::MAX || j * pow(r, round) > u128::MAX,
{
    // r >= 2 here: with r <= 1 the powers do not grow
    if r <= 1 {
        lemma_pow_le_one(r, k);
        vstd::arithmetic::power::lemma_pow_adds(r, k, 1);
        vstd::arithmetic::power::lemma_pow1(r);
        let pk = pow(r, k);
        assert(false) by (nonlinear_arith)
            requires
                i * (pk * r) > u128::MAX || j * (pk * r) > u128::MAX,
                i * pk <= u128::MAX,
                j * pk <= u128::MAX,
                0 <= pk <= 1,
                0 <= r <= 1,
                i >= 0,
                j >= 0,
        ;
    }
    vstd::arithmetic::power::lemma_pow_increases(r as nat, k + 1, round);
    assert(i * pow(r, k + 1) <= i * pow(r, round)) by (nonlinear_arith)
        requires
            pow(r, k + 1) <= pow(r, round),
            i >= 0,
    ;
    assert(j * pow(r, k + 1) <= j * pow(r, round)) by (nonlinear_arith)
        requires
            pow(r, k + 1) <= pow(r, round),
            j >= 0,
    ;
}

proof fn lemma_pow_le_one(r: int, e: nat)
    requires
        0 <= r <= 1,
    ensures
        0 <= pow(r, e) <= 1,
    decreases e,
{
    vstd::arithmetic::power::lemma_pow0(r);
    if e > 0 {
        lemma_pow_le_one(r, (e - 1) as nat);
        vstd::arithmetic::power::lemma_pow_adds(r, (e - 1) as nat, 1);
        vstd::arithmetic::power::lemma_pow1(r);
        assert(0 <= pow(r, (e - 1) as nat) * r <= 1) by (nonlinear_arith)
            requires
                0 <= pow(r, (e - 1) as nat) <= 1,
                0 <= r <= 1,
        ;
    }
}

/// No second stage.
#[derive(Debug, Clone, Copy, PartialEq, Eq)]
pub struct Stage1Only;

impl Stage2Strategy for Stage1Only {
    open spec fn stage2_value(&self, bound: EcmBound, n: int, a24: int, p: (int, int)) -> Option<u128> {
        None
    }

    /// Every bound: there are no tables.
    open spec fn accepts(&self, bound: EcmBound) -> bool {
        true
    }

    fn bound_fits(&self, bound: EcmBound) -> (r: bool) {
        true
    }

    /// Never a divisor: there is no second stage.
    fn check_stage2(&self, bound: EcmBound, mo: Mint, c: &Curve, point: Point) -> (r: Option<u128>)
        ensures
            r is None,
    {
        None
    }
}

/// `gcd(n, x)` for `n >= 1` divides `n`.
proof fn lemma_gcd_divides_n(n: u128, x: u128)
    requires
        n >= 1,
    ensures
        spec_gcd(n as nat, x as nat) >= 1,
        (n as nat) % spec_gcd(n as nat, x as nat) == 0,
{
    lemma_gcd_divides(n as nat, x as nat);
}

/// The second stage over the primes `b1 < q <= b2` prime to `210`: the `Z` coordinates of
/// `[b1' + r + 210 i] P` multiplied up, where `b1'` is `b1` rounded down to a multiple of
/// `210`.
#[derive(Debug, Clone, Copy, PartialEq, Eq)]
pub struct CheckOdd;

/// The number of giant steps past the first two for each residue: the bounds divided by `210`,
/// taken as `usize` values as the second stage computes them.
pub open spec fn check_odd_steps(bound: EcmBound) -> nat {
    ((bound.b2 as usize) / 210 - (bound.b1 as usize) / 210) as nat
}

/// The residues below `210` prime to `210`, in increasing order.
pub open spec fn stage2_residues() -> Seq<usize> {
    seq![
        1usize, 11, 13, 17, 19, 23, 29, 31, 37, 41, 43, 47, 53, 59, 61, 67, 71, 73, 79, 83, 89, 97, 101, 103, 107,
        109, 113, 121, 127, 131, 137, 139, 143, 149, 151, 157, 163, 167, 169, 173, 179, 181, 187, 191, 193,
        197, 199, 209,
    ]
}

/// The second stage's multiples of the point, as residues: entry `k` (odd, below `420`) is
/// `[b + k] P`, from `[b + 1] P`, `[b + 3] P` and differential additions of `[2] P`; other
/// entries are the neutral element.
pub open spec fn check_odd_rem(n: int, a24: int, p: (int, int), b: nat, k: nat) -> (int, int)
    decreases k,
{
    if k == 1 {
        scale_value(n, a24, p, b + 1)
    } else if k == 3 {
        scale_value(n, a24, p, b + 3)
    } else if k >= 5 && k % 2 == 1 && k < 420 {
        xadd(n, check_odd_rem(n, a24, p, b, (k - 2) as nat), xdbl(n, a24, p.0, p.1), check_odd_rem(n, a24, p, b, (k - 4) as nat))
    } else {
        (1int % n, 0)
    }
}

/// The walk from `[b + r] P` in steps of `[210] P`: `[b + r + 210 t] P`.
pub open spec fn check_odd_walk(n: int, a24: int, p: (int, int), b: nat, r: nat, t: nat) -> (int, int)
    decreases t,
{
    if t == 0 {
        check_odd_rem(n, a24, p, b, r)
    } else if t == 1 {
        check_odd_rem(n, a24, p, b, 210 + r)
    } else {
        xadd(
            n,
            check_odd_walk(n, a24, p, b, r, (t - 1) as nat),
            scale_value(n, a24, p, 210),
            check_odd_walk(n, a24, p, b, r, (t - 2) as nat),
        )
    }
}

/// The `Z` residue of the `i`-th multiple multiplied in: `w2 + 2` steps of the walk for each
/// residue in turn.
pub open spec fn check_odd_z(n: int, a24: int, p: (int, int), b: nat, w2: nat, i: nat) -> int {
    check_odd_walk(n, a24, p, b, stage2_residues()[(i / (w2 + 2)) as int] as nat, i % (w2 + 2)).1
}

/// The running product (in Montgomery form) after `i` factors.
pub open spec fn check_odd_acc(n: int, a24: int, p: (int, int), b: nat, w2: nat, i: nat) -> int
    decreases i,
{
    if i == 0 {
        1
    } else {
        redc(
            n,
            check_odd_acc(n, a24, p, b, w2, (i - 1) as nat) * ((check_odd_z(n, a24, p, b, w2, (i - 1) as nat) * radix()) % n),
        )
    }
}

/// The running product after `i` factors shares a factor with `n`.
pub open spec fn check_odd_shares(n: int, a24: int, p: (int, int), b: nat, w2: nat, i: nat) -> bool {
    spec_gcd(check_odd_acc(n, a24, p, b, w2, i) as nat, n as nat) > 1
}

/// `i` is the first point, among the `len` running products, that shares a factor with `n`.
pub open spec fn check_odd_first(n: int, a24: int, p: (int, int), b: nat, w2: nat, len: nat, i: nat) -> bool {
    &&& i < len
    &&& check_odd_shares(n, a24, p, b, w2, i)
    &&& forall|j: nat| j < i ==> !#[trigger] check_odd_shares(n, a24, p, b, w2, j)
}

/// What the second stage that checks odd multiples reports: the gcd of `n` with the product
/// of all the `Z` residues when it is a proper divisor; else, when that gcd is `n`, the gcd at
/// the first running product that shares a factor with `n`, when that one is proper.
pub open spec fn check_odd_result(n: int, a24: int, p: (int, int), b: nat, w2: nat) -> Option<u128> {
    let len = 1 + 48 * (w2 + 2);
    let gl = spec_gcd(check_odd_acc(n, a24, p, b, w2, (len - 1) as nat) as nat, n as nat);
    if 1 < gl < n {
        Some(gl as u128)
    } else if gl <= 1 {
        None
    } else {
        let i = choose|i: nat| #[trigger] check_odd_first(n, a24, p, b, w2, len, i);
        let g = spec_gcd(check_odd_acc(n, a24, p, b, w2, i) as nat, n as nat);
        if g < n {
            Some(g as u128)
        } else {
            None
        }
    }
}

/// The running products are Montgomery forms below `n` (after the first, which is `1`).
proof fn lemma_odd_acc_bound(n: int, a24: int, p: (int, int), b: nat, w2: nat, i: nat)
    requires
        n >= 3,
    ensures
        0 <= check_odd_acc(n, a24, p, b, w2, i) < n,
{
    if i > 0 {
        let x = check_odd_acc(n, a24, p, b, w2, (i - 1) as nat) * ((check_odd_z(n, a24, p, b, w2, (i - 1) as nat) * radix()) % n);
        lemma_mod_bound(x * crate::arith::r_inv(n), n);
    }
}

/// Once a running product shares a factor with `n`, so do all later ones.
proof fn lemma_odd_shares_later(n: int, a24: int, p: (int, int), b: nat, w2: nat, i: nat, j: nat)
    requires
        n >= 3,
        i <= j,
        check_odd_shares(n, a24, p, b, w2, i),
    ensures
        check_odd_shares(n, a24, p, b, w2, j),
    decreases j - i,
{
    if i < j {
        let x = check_odd_acc(n, a24, p, b, w2, i);
        let zr = (check_odd_z(n, a24, p, b, w2, i) * radix()) % n;
        let y = check_odd_acc(n, a24, p, b, w2, i + 1);
        lemma_odd_acc_bound(n, a24, p, b, w2, i);
        lemma_odd_acc_bound(n, a24, p, b, w2, i + 1);
        let d = spec_gcd(x as nat, n as nat);
        lemma_gcd_divides(x as nat, n as nat);
        assert((x * zr) * crate::arith::r_inv(n) == x * (zr * crate::arith::r_inv(n))) by (nonlinear_arith);
        crate::arith::lemma_divides_mod(x, zr * crate::arith::r_inv(n), n, d as int);
        assert(y == (x * (zr * crate::arith::r_inv(n))) % n);
        crate::arith::lemma_common_divisor(y as nat, n as nat, d);
        lemma_gcd_divides(y as nat, n as nat);
        lemma_divisor_le(d as int, spec_gcd(y as nat, n as nat) as int);
        lemma_odd_shares_later(n, a24, p, b, w2, i + 1, j);
    }
}

/// `(k m + t) / m = k` and `(k m + t) % m = t` for `t < m`.
proof fn lemma_index_split(k: int, m: int, t: int)
    requires
        k >= 0,
        0 <= t < m,
    ensures
        (k * m + t) / m == k,
        (k * m + t) % m == t,
{
    lemma_fundamental_div_mod_converse(k * m + t, m, k, t);
}

/// The residues of the neutral element `(1 : 0)`.
proof fn lemma_zero_value(c: Curve)
    requires
        c.wf(),
    ensures
        c.point_val((c.modulus().r1, 0u128)) == (1int % (c.modulus().n as int), 0int),
{
    let n = c.modulus().n as int;
    lemma_mul_basics(radix());
    crate::arith::lemma_value_of_repr(n, 1);
    lemma_mul_basics(crate::arith::r_inv(n));
    lemma_small_mod(0, n as nat);
}

/// One more factor of the running product: the Montgomery product with the `Z` coordinate of
/// a point whose residue is the next `Z` residue.
proof fn lemma_odd_acc_push(c: Curve, a24: int, p: (int, int), b: nat, w2: nat, i: nat, last: u128, q: Point)
    requires
        c.wf(),
        c.is_point(q),
        last as int == check_odd_acc(c.modulus().n as int, a24, p, b, w2, i),
        c.point_val(q).1 == check_odd_z(c.modulus().n as int, a24, p, b, w2, i),
    ensures
        redc(c.modulus().n as int, last as int * q.1 as int) == check_odd_acc(c.modulus().n as int, a24, p, b, w2, i + 1),
{
    let n = c.modulus().n as int;
    crate::arith::lemma_redc_scaled_back(n, q.1 as int);
    lemma_small_mod(q.1 as nat, n as nat);
    assert((check_odd_z(n, a24, p, b, w2, i) * radix()) % n == q.1 as int);
}

/// The `Z` residue at position `k (w2 + 2) + j` is that of the `j`-th step of the walk from
/// the `k`-th residue.
proof fn lemma_odd_z_index(n: int, a24: int, p: (int, int), b: nat, w2: nat, k: nat, j: nat)
    requires
        j < w2 + 2,
    ensures
        check_odd_z(n, a24, p, b, w2, k * (w2 + 2) + j) == check_odd_walk(n, a24, p, b, stage2_residues()[k as int] as nat, j).1,
{
    lemma_index_split(k as int, (w2 + 2) as int, j as int);
}

/// The first running product that shares a factor with `n`, found by bisection, is the one
/// that `check_odd_result` names.
proof fn lemma_odd_first_unique(n: int, a24: int, p: (int, int), b: nat, w2: nat, len: nat, i: nat)
    requires
        check_odd_first(n, a24, p, b, w2, len, i),
    ensures
        (choose|j: nat| #[trigger] check_odd_first(n, a24, p, b, w2, len, j)) == i,
{
    let j = choose|j: nat| #[trigger] check_odd_first(n, a24, p, b, w2, len, j);
    assert(check_odd_first(n, a24, p, b, w2, len, j));
    if j < i {
        assert(!check_odd_shares(n, a24, p, b, w2, j));
    } else if i < j {
        assert(!check_odd_shares(n, a24, p, b, w2, i));
    }
}

/// The residues below `210` prime to `210`.
fn coprime_residues() -> (r: [usize; 48])
    ensures
        r@ == stage2_residues(),
{
    let r: [usize; 48] = [
        1, 11, 13, 17, 19, 23, 29, 31, 37, 41, 43, 47, 53, 59, 61, 67, 71, 73, 79, 83, 89, 97, 101, 103, 107,
        109, 113, 121, 127, 131, 137, 139, 143, 149, 151, 157, 163, 167, 169, 173, 179, 181, 187, 191, 193,
        197, 199, 209,
    ];
    proof {
        assert(r@ =~= stage2_residues()) by {
            reveal_with_fuel(vstd::array::array_view, 1);
        }
    }
    r
}

impl Stage2Strategy for CheckOdd {
    open spec fn stage2_value(&self, bound: EcmBound, n: int, a24: int, p: (int, int)) -> Option<u128> {
        check_odd_result(n, a24, p, (bound.b1 - bound.b1 % 210) as nat, check_odd_steps(bound))
    }

    /// The bounds whose giant steps, counted in a `usize`, do not go backwards, and whose
    /// `48 (w2 + 2)` running products fit in an allocation.
    open spec fn accepts(&self, bound: EcmBound) -> bool {
        &&& (bound.b1 as usize) / 210 <= (bound.b2 as usize) / 210
        &&& (check_odd_steps(bound) + 2) * 768 <= isize::MAX
    }

    fn bound_fits(&self, bound: EcmBound) -> (r: bool) {
        let w1: usize = (bound.b1 as usize) / 210;
        let w2: usize = (bound.b2 as usize) / 210;
        if w1 > w2 {
            return false;
        }
        let cap: usize = (isize::MAX as usize) / 768;
        w2 - w1 + 2 <= cap
    }

    /// A proper divisor: the gcd of `n` with the running product of the `Z` coordinates of the
    /// multiples checked, at the end or, when that is `n`, at the first place where it exceeds
    /// one.
    fn check_stage2(&self, bound: EcmBound, mo: Mint, c: &Curve, point: Point) -> (r: Option<u128>)
        ensures
            r matches Some(d) ==> 1 < d < mo.n && mo.n % d == 0,
            r == check_odd_result(
                mo.n as int,
                c.val(c.a24_form()),
                c.point_val(point),
                (bound.b1 - bound.b1 % 210) as nat,
                check_odd_steps(bound),
            ),
    {
        let ghost n = mo.n as int;
        let ghost a24 = c.val(c.a24_form());
        let ghost pv = c.point_val(point);
        let d_step: usize = 210;
        let rs = coprime_residues();
        let b1 = bound.b1 - bound.b1 % 210;
        let ghost b = b1 as nat;
        let zero = c.zero();
        proof {
            lemma_zero_value(*c);
        }
        let mut rem: Vec<Point> = Vec::new();
        while rem.len() < 2 * d_step
            invariant
                c.wf(),
                c.is_point(zero),
                rem@.len() <= 2 * d_step,
                d_step == 210,
                forall|k: int| 0 <= k < rem@.len() ==> #[trigger] rem@[k] == zero,
            decreases 2 * d_step - rem@.len(),
        {
            rem.push(zero);
        }
        let m1 = b1 + 1;
        let s1 = c.scale(point, m1);
        proof {
            lemma_scale_value(*c, point, m1, s1);
        }
        rem.set(1, s1);
        let m3 = b1 + 3;
        let s3 = c.scale(point, m3);
        proof {
            lemma_scale_value(*c, point, m3, s3);
        }
        rem.set(3, s3);
        let p2 = c.double(point);
        let mut i: usize = 2;
        while i < d_step
            invariant
                c.wf(),
                c.modulus() == mo,
                n == mo.n,
                a24 == c.val(c.a24_form()),
                pv == c.point_val(point),
                c.is_point(p2),
                c.point_val(p2) == xdbl(n, a24, pv.0, pv.1),
                2 <= i <= d_step,
                d_step == 210,
                rem@.len() == 2 * d_step,
                forall|k: int| 0 <= k < rem@.len() ==> c.is_point(#[trigger] rem@[k]),
                forall|k: int|
                    0 <= k < rem@.len() ==> c.point_val(#[trigger] rem@[k]) == if k % 2 == 1 && k >= 2 * i {
                        (1int % n, 0int)
                    } else {
                        check_odd_rem(n, a24, pv, b, k as nat)
                    },
            decreases d_step - i,
        {
            let q = c.add(rem[2 * i - 1], p2, rem[2 * i - 3]);
            proof {
                assert(c.point_val(rem@[2 * i - 1]) == check_odd_rem(n, a24, pv, b, (2 * i - 1) as nat));
                assert(c.point_val(rem@[2 * i - 3]) == check_odd_rem(n, a24, pv, b, (2 * i - 3) as nat));
                assert(c.point_val(q) == check_odd_rem(n, a24, pv, b, (2 * i + 1) as nat));
            }
            rem.set(2 * i + 1, q);
            i += 1;
        }
        let pd = c.scale(point, 210);
        proof {
            lemma_scale_value(*c, point, 210, pd);
        }
        let w2u: usize = (bound.b2 as usize) / 210 - (bound.b1 as usize) / 210;
        let w2: u128 = w2u as u128;
        let ghost m = w2 as nat + 2;
        let mut acc: Vec<u128> = Vec::new();
        acc.push(1);
        let mut k: usize = 0;
        while k < 48
            invariant
                mo.wf(),
                mo.n >= 3,
                c.wf(),
                c.modulus() == mo,
                n == mo.n,
                a24 == c.val(c.a24_form()),
                pv == c.point_val(point),
                m == w2 + 2,
                k <= 48,
                c.is_point(pd),
                c.point_val(pd) == scale_value(n, a24, pv, 210),
                d_step == 210,
                rs@ == stage2_residues(),
                rem@.len() == 2 * d_step,
                forall|j: int| 0 <= j < rem@.len() ==> c.is_point(#[trigger] rem@[j]),
                forall|j: int| 0 <= j < rem@.len() ==> c.point_val(#[trigger] rem@[j]) == check_odd_rem(n, a24, pv, b, j as nat),
                acc@.len() == 1 + k * m,
                all_below(acc@, mo.n),
                forall|j: int| 0 <= j < acc@.len() ==> #[trigger] acc@[j] as int == check_odd_acc(n, a24, pv, b, w2 as nat, j as nat),
            decreases 48 - k,
        {
            let r = rs[k];
            proof {
                assert(stage2_residues()[k as int] < 210);
            }
            let mut p0 = rem[r];
            let mut p1 = rem[d_step + r];
            let ghost rr = r as nat;
            proof {
                assert(c.point_val(p0) == check_odd_walk(n, a24, pv, b, rr, 0));
                assert(c.point_val(p1) == check_odd_walk(n, a24, pv, b, rr, 1));
                lemma_odd_z_index(n, a24, pv, b, w2 as nat, k as nat, 0);
                lemma_odd_z_index(n, a24, pv, b, w2 as nat, k as nat, 1);
                lemma_odd_acc_push(*c, a24, pv, b, w2 as nat, (k * m) as nat, acc@[k * m], p0);
            }
            let last = acc[acc.len() - 1];
            acc.push(mul_below(&mo, last, p0.1));
            proof {
                lemma_odd_acc_push(*c, a24, pv, b, w2 as nat, (k * m + 1) as nat, acc@[k * m + 1], p1);
            }
            let last = acc[acc.len() - 1];
            acc.push(mul_below(&mo, last, p1.1));
            let mut t: u128 = 0;
            while t < w2
                invariant
                    mo.wf(),
                    mo.n >= 3,
                    c.wf(),
                    c.modulus() == mo,
                    n == mo.n,
                    m == w2 + 2,
                    k < 48,
                    t <= w2,
                    rr < 210,
                    rr == stage2_residues()[k as int],
                    c.is_point(pd),
                    c.point_val(pd) == scale_value(n, a24, pv, 210),
                    c.is_point(p0),
                    c.is_point(p1),
                    c.point_val(p0) == check_odd_walk(n, a24, pv, b, rr, t as nat),
                    c.point_val(p1) == check_odd_walk(n, a24, pv, b, rr, t as nat + 1),
                    acc@.len() == 1 + k * m + 2 + t,
                    all_below(acc@, mo.n),
                    forall|j: int| 0 <= j < acc@.len() ==> #[trigger] acc@[j] as int == check_odd_acc(n, a24, pv, b, w2 as nat, j as nat),
                decreases w2 - t,
            {
                let np = c.add(p1, pd, p0);
                proof {
                    assert(c.point_val(np) == check_odd_walk(n, a24, pv, b, rr, t as nat + 2));
                    lemma_odd_z_index(n, a24, pv, b, w2 as nat, k as nat, t as nat + 2);
                    lemma_odd_acc_push(*c, a24, pv, b, w2 as nat, (k * m + 2 + t) as nat, acc@[k * m + 2 + t], np);
                }
                p0 = p1;
                p1 = np;
                let last = acc[acc.len() - 1];
                acc.push(mul_below(&mo, last, p1.1));
                t += 1;
            }
            proof {
                assert((k + 1) * m == k * m + m) by (nonlinear_arith);
            }
            k += 1;
        }
        let ghost len = (1 + 48 * m) as nat;
        let ghost w = w2 as nat;
        proof {
            assert(acc@.len() == len);
            assert(acc@[len - 1] as int == check_odd_acc(n, a24, pv, b, w, (len - 1) as nat));
        }
        let g = gcd(acc[acc.len() - 1], mo.n);
        proof {
            lemma_gcd_divides(acc@[acc@.len() - 1] as nat, mo.n as nat);
        }
        if 1 < g && g < mo.n {
            return Some(g);
        }
        let n_ = mo.n;
        let pred = |i: usize| -> (res: bool)
            requires
                i < acc@.len(),
            ensures
                res == (spec_gcd(acc@[i as int] as nat, n_ as nat) > 1),
        {
            gcd(acc[i], n_) > 1
        };
        let i = bisect_left(acc.len(), pred);
        proof {
            if i < len {
                assert(check_odd_shares(n, a24, pv, b, w, i as nat));
                assert forall|j: nat| j < i implies !#[trigger] check_odd_shares(n, a24, pv, b, w, j) by {
                    if check_odd_shares(n, a24, pv, b, w, j) {
                        lemma_odd_shares_later(n, a24, pv, b, w, j, (i - 1) as nat);
                        assert(!check_odd_shares(n, a24, pv, b, w, (i - 1) as nat));
                    }
                }
                assert(check_odd_first(n, a24, pv, b, w, len, i as nat));
                lemma_odd_first_unique(n, a24, pv, b, w, len, i as nat);
                lemma_odd_shares_later(n, a24, pv, b, w, i as nat, (len - 1) as nat);
            } else {
                if check_odd_shares(n, a24, pv, b, w, (len - 1) as nat) {
                    assert(!check_odd_shares(n, a24, pv, b, w, (len - 1) as nat));
                }
            }
            lemma_divisor_le(g as int, n);
        }
        if i < acc.len() {
            let g = gcd(acc[i], n_);
            proof {
                lemma_gcd_divides(acc@[i as int] as nat, n_ as nat);
            }
            if g < n_ {
                return Some(g);
            }
        }
        None
    }
}

/// The Montgomery product of two forms below the modulus.
fn mul_below(mo: &Mint, x: u128, y: u128) -> (r: u128)
    requires
        mo.wf(),
        x < mo.n,
        y < mo.n,
    ensures
        r < mo.n,
        r == redc(mo.n as int, x as int * y as int),
{
    proof {
        lemma_reduced_product(x, y, mo.n);
        lemma_mod_bound(x as int * y as int * crate::arith::r_inv(mo.n as int), mo.n as int);
    }
    mo.mul(x, y)
}

/// The second stage by baby steps and giant steps: the product of `(x - baby)` evaluated at
/// the giant steps with multipoint evaluation.
#[derive(Debug, Clone, Copy, PartialEq, Eq)]
pub struct UseMultiEval;

/// The total number of coefficients held in `q`.
pub open spec fn total_len(q: Seq<Vec<u128>>) -> int
    decreases q.len(),
{
    if q.len() == 0 {
        0
    } else {
        q[0]@.len() + total_len(q.drop_first())
    }
}

proof fn lemma_total_len_push(q: Seq<Vec<u128>>, x: Vec<u128>)
    ensures
        total_len(q.push(x)) == total_len(q) + x@.len(),
    decreases q.len(),
{
    let t = q.push(x);
    assert(total_len(t) == t[0]@.len() + total_len(t.drop_first()));
    if q.len() > 0 {
        assert(t.drop_first() =~= q.drop_first().push(x));
        assert(t[0] == q[0]);
        lemma_total_len_push(q.drop_first(), x);
        assert(total_len(q) == q[0]@.len() + total_len(q.drop_first()));
    } else {
        assert(t.drop_first() =~= Seq::<Vec<u128>>::empty());
        assert(total_len(t.drop_first()) == 0);
        assert(total_len(q) == 0);
    }
}

proof fn lemma_total_len_bounds(q: Seq<Vec<u128>>, k: int)
    requires
        0 <= k < q.len(),
        forall|j: int| 0 <= j < q.len() ==> #[trigger] q[j]@.len() >= 0,
    ensures
        q[k]@.len() <= total_len(q),
    decreases q.len(),
{
    if k > 0 {
        lemma_total_len_bounds(q.drop_first(), k - 1);
    }
    lemma_total_len_nonneg(q.drop_first());
}

proof fn lemma_total_len_nonneg(q: Seq<Vec<u128>>)
    ensures
        total_len(q) >= 0,
    decreases q.len(),
{
    if q.len() > 0 {
        lemma_total_len_nonneg(q.drop_first());
    }
}

impl Mint {
    /// The affine `X / Z` of each point, or `gcd(Z, n)` for the first `Z` that is not
    /// invertible.
    pub fn batch_div(&self, points: &[Point]) -> (res: Result<Vec<u128>, u128>)
        requires
            self.wf(),
            forall|k: int| 0 <= k < points@.len() ==> (#[trigger] points@[k]).0 < self.n && points@[k].1 < self.n,
        ensures
            match res {
                Ok(v) => {
                    &&& v@.len() == points@.len()
                    &&& all_below(v@, self.n)
                    &&& forall|k: int| 0 <= k < v@.len() ==> (self.value((#[trigger] v@[k]) as int) * self.value(points@[k].1 as int))
                        % (self.n as int) == self.value(points@[k].0 as int)
                    &&& forall|k: int| 0 <= k < points@.len() ==> spec_gcd(self.value(#[trigger] points@[k].1 as int) as nat, self.n as nat) == 1
                },
                Err(d) => {
                    &&& d != 1
                    &&& (self.n as nat) % (d as nat) == 0
                    &&& exists|k: int| {
                        &&& 0 <= k < points@.len()
                        &&& d == spec_gcd(self.value(#[trigger] points@[k].1 as int) as nat, self.n as nat)
                        &&& forall|j: int| 0 <= j < k ==> spec_gcd(self.value(#[trigger] points@[j].1 as int) as nat, self.n as nat) == 1
                    }
                },
            },
    {
        let mut v: Vec<u128> = Vec::new();
        let mut k: usize = 0;
        while k < points.len()
            invariant
                self.wf(),
                forall|j: int| 0 <= j < points@.len() ==> (#[trigger] points@[j]).0 < self.n && points@[j].1 < self.n,
                k <= points@.len(),
                v@.len() == k,
                all_below(v@, self.n),
                forall|j: int| 0 <= j < k ==> (self.value((#[trigger] v@[j]) as int) * self.value(points@[j].1 as int))
                    % (self.n as int) == self.value(points@[j].0 as int),
                forall|j: int| 0 <= j < k ==> spec_gcd(self.value(#[trigger] points@[j].1 as int) as nat, self.n as nat) == 1,
            decreases points@.len() - k,
        {
            let (x, z) = points[k];
            match self.div(x, z) {
                Ok(q) => {
                    v.push(q);
                },
                Err(d) => {
                    proof {
                        lemma_gcd_divides(self.value(z as int) as nat, self.n as nat);
                        lemma_mod_bound(z as int * crate::arith::r_inv(self.n as int), self.n as int);
                        assert(d == spec_gcd(self.value(points@[k as int].1 as int) as nat, self.n as nat));
                    }
                    return Err(d);
                },
            }
            k += 1;
        }
        Ok(v)
    }
}

impl Stage2Strategy for UseMultiEval {
    open spec fn stage2_value(&self, bound: EcmBound, n: int, a24: int, p: (int, int)) -> Option<u128> {
        None
    }

    /// The bounds with `d = isqrt(b2)`, taken as a `usize`, at least `2` (the baby steps
    /// `[1] P` and `[2] P` are set) and with `d + 1` points fitting in an allocation.
    open spec fn accepts(&self, bound: EcmBound) -> bool {
        let d = sqrt_floor(bound.b2 as nat) as usize;
        &&& 2 <= d
        &&& (d + 1) * 32 <= isize::MAX
    }

    fn bound_fits(&self, bound: EcmBound) -> (r: bool) {
        let d0 = isqrt(bound.b2);
        proof {
            lemma_sqrt_floor(bound.b2 as nat, d0 as nat);
        }
        let d = d0 as usize;
        let cap: usize = (isize::MAX as usize) / 32;
        2 <= d && d < cap
    }

    /// A divisor other than one: from the first `Z` coordinate that is not invertible among the
    /// baby and giant steps, or from the first value of the product of the `(x - baby)` at the
    /// giant steps that is not invertible.  The baby steps start with the point at infinity,
    /// whose `Z` is zero: the division of the baby steps fails there with `n` itself, which is
    /// no proper divisor, so this stage reports none.
    #[verifier::loop_isolation(false)]
    fn check_stage2(&self, bound: EcmBound, mo: Mint, c: &Curve, point: Point) -> (r: Option<u128>)
        ensures
            r is None,
    {
        let d0 = isqrt(bound.b2);
        proof {
            lemma_sqrt_floor(bound.b2 as nat, d0 as nat);
            crate::bits::lemma_isize_max();
        }
        let d = d0 as usize;
        let zero = c.zero();
        let mut baby: Vec<Point> = Vec::new();
        let mut giant: Vec<Point> = Vec::new();
        while baby.len() < d + 1
            invariant
                c.wf(),
                c.is_point(zero),
                baby@.len() <= d + 1,
                giant@.len() == baby@.len(),
                (d + 1) * 32 <= isize::MAX,
                isize::MAX == usize_top_bit() - 1,
                forall|k: int| 0 <= k < baby@.len() ==> c.is_point(#[trigger] baby@[k]),
                forall|k: int| 0 <= k < giant@.len() ==> c.is_point(#[trigger] giant@[k]),
                forall|k: int| 0 <= k < baby@.len() ==> #[trigger] baby@[k] == zero,
            decreases d + 1 - baby@.len(),
        {
            baby.push(zero);
            giant.push(zero);
        }
        baby.set(1, point);
        baby.set(2, c.double(point));
        let mut i: usize = 3;
        while i <= d
            invariant
                c.wf(),
                3 <= i <= d + 1,
                (d + 1) * 32 <= isize::MAX,
                isize::MAX == usize_top_bit() - 1,
                baby@.len() == d + 1,
                baby@[0] == zero,
                forall|k: int| 0 <= k < baby@.len() ==> c.is_point(#[trigger] baby@[k]),
            decreases d + 1 - i,
        {
            let q = c.add(baby[i - 1], baby[1], baby[i - 2]);
            baby.set(i, q);
            i += 1;
        }
        giant.set(1, baby[d]);
        giant.set(2, c.double(baby[d]));
        let mut i: usize = 3;
        while i <= d
            invariant
                c.wf(),
                3 <= i <= d + 1,
                (d + 1) * 32 <= isize::MAX,
                isize::MAX == usize_top_bit() - 1,
                giant@.len() == d + 1,
                forall|k: int| 0 <= k < giant@.len() ==> c.is_point(#[trigger] giant@[k]),
            decreases d + 1 - i,
        {
            let q = c.add(giant[i - 1], giant[1], giant[i - 2]);
            giant.set(i, q);
            i += 1;
        }
        proof {
            assert(baby@[0] == zero);
            crate::arith::lemma_gcd_divides(0, mo.n as nat);
            vstd::arithmetic::mul::lemma_mul_basics(crate::arith::r_inv(mo.n as int));
            vstd::arithmetic::div_mod::lemma_small_mod(0, mo.n as nat);
            assert(mo.value(0) == 0);
            assert(spec_gcd(0, mo.n as nat) == mo.n);
        }
        let baby = match mo.batch_div(baby.as_slice()) {
            Ok(e) => {
                proof {
                    assert(spec_gcd(mo.value(baby@[0].1 as int) as nat, mo.n as nat) == 1);
                }
                e
            },
            Err(g) => {
                return if 1 < g && g < mo.n {
                    Some(g)
                } else {
                    None
                };
            },
        };
        let giant = match mo.batch_div(giant.as_slice()) {
            Ok(e) => e,
            Err(g) => {
                return if 1 < g && g < mo.n {
                    Some(g)
                } else {
                    None
                };
            },
        };
        // the product of (x - b) over the baby steps, multiplied pairwise in a queue
        let mut q: VecDeque<Vec<u128>> = VecDeque::new();
        let mut k: usize = 0;
        while k < baby.len()
            invariant
                mo.wf(),
                all_below(baby@, mo.n),
                baby@.len() == d + 1,
                (d + 1) * 32 <= isize::MAX,
                isize::MAX == usize_top_bit() - 1,
                k <= baby@.len(),
                q@.len() == k,
                total_len(q@) == 2 * k,
                forall|j: int| 0 <= j < q@.len() ==> all_below((#[trigger] q@[j])@, mo.n) && q@[j]@.len() >= 1,
            decreases baby@.len() - k,
        {
            let f = vec![mo.neg(baby[k]), mo.one()];
            proof {
                lemma_total_len_push(q@, f);
                lemma_mod_bound(radix(), mo.n as int);
            }
            q.push_back(f);
            k += 1;
        }
        let one = vec![mo.one()];
        proof {
            lemma_total_len_push(q@, one);
            lemma_mod_bound(radix(), mo.n as int);
        }
        q.push_back(one);
        while q.len() >= 2
            invariant
                mo.wf(),
                (d + 1) * 32 <= isize::MAX,
                isize::MAX == usize_top_bit() - 1,
                q@.len() >= 1,
                total_len(q@) <= 2 * d + 3,
                forall|j: int| 0 <= j < q@.len() ==> all_below((#[trigger] q@[j])@, mo.n) && q@[j]@.len() >= 1,
            decreases q@.len(),
        {
            let ghost q0 = q@;
            proof {
                assert(q0.drop_first()[0] == q0[1]);
                lemma_total_len_nonneg(q0.drop_first().drop_first());
                assert(total_len(q0) == q0[0]@.len() + total_len(q0.drop_first()));
                assert(total_len(q0.drop_first()) == q0.drop_first()[0]@.len() + total_len(q0.drop_first().drop_first()));
            }
            let f1 = q.pop_front().unwrap();
            let f2 = q.pop_front().unwrap();
            proof {
                assert(q@ =~= q0.drop_first().drop_first());
                assert(f1 == q0[0]);
                assert(f2 == q0[1]);
            }
            let f = mo.convolution_arbitrary(f1.as_slice(), f2.as_slice());
            proof {
                lemma_total_len_push(q@, f);
            }
            q.push_back(f);
        }
        let ghost q0 = q@;
        let f_baby = q.pop_front().unwrap();
        proof {
            lemma_total_len_bounds(q0, 0);
            assert(f_baby == q0[0]);
            assert(f_baby@.len() <= 2 * d + 3);
        }
        let me = DynamicMultipointEvaluation::new(mo, giant);
        let vals = match me.eval(f_baby.as_slice()) {
            Ok(e) => e,
            Err(g) => {
                return if 1 < g && g < mo.n {
                    Some(g)
                } else {
                    None
                };
            },
        };
        let mut k: usize = 0;
        while k < vals.len()
            invariant
                mo.wf(),
                all_below(vals@, mo.n),
            decreases vals@.len() - k,
        {
            match mo.inv(vals[k]) {
                Ok(_) => {},
                Err(g) => {
                    proof {
                        lemma_gcd_divides(mo.value(vals@[k as int] as int) as nat, mo.n as nat);
                        lemma_mod_bound(vals@[k as int] as int * crate::arith::r_inv(mo.n as int), mo.n as int);
                    }
                    return Some(g);
                },
            }
            k += 1;
        }
        None
    }
}

/// The largest power `p^k`, `k >= 1`, below `b1` reached by multiplying `pe` by `p` (`pe`
/// itself when the next power is not below `b1`).
pub open spec fn power_below(p: nat, b1: nat, pe: nat) -> nat
    decreases b1 - pe,
{
    if pe * p < b1 && pe * p > pe {
        power_below(p, b1, pe * p)
    } else {
        pe
    }
}

/// `[m] P` on residues, as `Curve::scale` computes it.
pub open spec fn scale_value(n: int, a24: int, p: (int, int), m: nat) -> (int, int) {
    if m == 0 {
        (1int % n, 0)
    } else if m == 1 {
        p
    } else if m == 2 {
        xdbl(n, a24, p.0, p.1)
    } else if p.1 == 0 {
        (1int % n, 0)
    } else {
        ladder(n, a24, p, (m - 1) as nat).1
    }
}

/// The point after stage one over the first `k` primes: each prime `p` scales it by the
/// largest power of `p` below `b1`.
pub open spec fn stage1_value(n: int, a24: int, p: (int, int), primes: Seq<u128>, b1: nat, k: nat) -> (int, int)
    decreases k,
{
    if k == 0 {
        p
    } else {
        let q = stage1_value(n, a24, p, primes, b1, (k - 1) as nat);
        scale_value(n, a24, q, power_below(primes[k - 1] as nat, b1, primes[k - 1] as nat))
    }
}

/// `a` is a residue modulo `n` with `a den = num`.
pub open spec fn is_quotient(n: int, den: int, num: int, a: int) -> bool {
    0 <= a < n && (a * den) % n == num
}

/// The `(A + 2) / 4` of Suyama's curve for the seed `s`, as a residue modulo `n`.
pub open spec fn suyama_a24(n: int, s: int) -> int {
    let u = (s * s - 5) % n;
    let v = (4 * s) % n;
    let den = (16 * (u * u * u) * v) % n;
    let num = ((u - v) * (u - v) * (u - v) * (3 * u + v)) % n;
    choose|a: int| #[trigger] is_quotient(n, den, num, a)
}

/// The residues of what `Curve::scale` returns, from its postconditions.
proof fn lemma_scale_value(c: Curve, p: Point, m: u128, r: Point)
    requires
        c.wf(),
        c.is_point(p),
        c.is_point(r),
        m == 0 ==> r == (c.modulus().r1, 0u128),
        m == 1 ==> r == p,
        m == 2 ==> c.point_val(r) == xdbl(c.modulus().n as int, c.val(c.a24_form()), c.val(p.0), c.val(p.1)),
        m >= 3 && p.1 == 0 ==> r == (c.modulus().r1, 0u128),
        m >= 3 && p.1 != 0 ==> c.point_val(r) == ladder(
            c.modulus().n as int,
            c.val(c.a24_form()),
            c.point_val(p),
            (m - 1) as nat,
        ).1,
    ensures
        c.point_val(r) == scale_value(c.modulus().n as int, c.val(c.a24_form()), c.point_val(p), m as nat),
{
    let n = c.modulus().n as int;
    lemma_mul_basics(radix());
    crate::arith::lemma_value_of_repr(n, 1);
    lemma_mul_basics(crate::arith::r_inv(n));
    lemma_small_mod(0, n as nat);
    assert(c.val(0) == 0);
    assert(c.val(c.modulus().r1) == 1int % n);
    crate::arith::lemma_redc_scaled_back(n, p.1 as int);
    lemma_small_mod(p.1 as nat, n as nat);
    if p.1 != 0 {
        assert(c.val(p.1) != 0);
    }
}

/// The elliptic curve method with a schedule of bounds `T` and a second stage `U`.
#[derive(Debug, Clone)]
pub struct Ecm<T, U> {
    rng: Sfc64,
    sieve: Sieve,
    bound_strategy: T,
    stage2_strategy: U,
}

impl<T: BoundStrategy, U: Stage2Strategy> Ecm<T, U> {
    /// The state of the generator that draws the curves.
    pub closed spec fn generator_state(&self) -> (u64, u64, u64, u64) {
        self.rng.state()
    }

    /// The schedule of bounds.
    pub closed spec fn bounds(&self) -> T {
        self.bound_strategy
    }

    /// The second stage.
    pub closed spec fn second_stage(&self) -> U {
        self.stage2_strategy
    }

    /// The primes of the sieve that stage one goes through.
    pub closed spec fn sieve_primes(&self) -> Seq<u128> {
        self.sieve.prime@
    }

    /// The method with curves drawn from a generator seeded with `seed`.
    pub fn new(seed: u64, bound_strategy: T, stage2_strategy: U) -> (r: Self)
        ensures
            r.generator_state() == crate::utility::sfc_iterate((seed, seed, seed, 1), 12),
            r.bounds() == bound_strategy,
            r.second_stage() == stage2_strategy,
    {
        Self { rng: Sfc64::new(seed), sieve: Sieve::new(1), bound_strategy, stage2_strategy }
    }

    /// Tries the curve of Suyama's seed `s`: stage one multiplies the point by every prime
    /// power below `b1` (for the primes of the sieve), then stage two.  A divisor of `n` found
    /// on the way, if any.
    pub fn check_curve(&mut self, bound: EcmBound, mo: Mint, s: u128) -> (r: Option<u128>)
        requires
            mo.wf(),
            mo.n >= 3,
            old(self).second_stage().accepts(bound),
        ensures
            *final(self) == *old(self),
            r matches Some(d) ==> d >= 1 && mo.n % d == 0,
            ({
                let n = mo.n as int;
                let u = (s * s - 5) % n;
                let v = (4 * s) % n;
                let den = (16 * (u * u * u) * v) % n;
                let a24 = suyama_a24(n, s as int);
                let q = stage1_value(
                    n,
                    a24,
                    ((u * u * u) % n, (v * v * v) % n),
                    old(self).sieve_primes(),
                    bound.b1 as nat,
                    old(self).sieve_primes().len(),
                );
                let g = spec_gcd(mo.n as nat, q.1 as nat);
                &&& spec_gcd(den as nat, mo.n as nat) != 1 ==> r == Some(spec_gcd(den as nat, mo.n as nat) as u128)
                &&& spec_gcd(den as nat, mo.n as nat) == 1 && 1 < g < mo.n ==> r == Some(g as u128)
                &&& spec_gcd(den as nat, mo.n as nat) == 1 && !(1 < g < mo.n) ==> r == old(self).second_stage().stage2_value(
                    bound,
                    n,
                    a24,
                    q,
                )
            }),
    {
        let ghost n = mo.n as int;
        let ghost u = (s * s - 5) % n;
        let ghost v = (4 * s) % n;
        let ghost den = (16 * (u * u * u) * v) % n;
        let ghost num = ((u - v) * (u - v) * (u - v) * (3 * u + v)) % n;
        let (c, mut point) = match Curve::init_suyama(s, mo) {
            Ok(t) => t,
            Err(d) => {
                proof {
                    lemma_gcd_divides(den as nat, mo.n as nat);
                }
                return Some(d);
            },
        };
        let ghost a = c.val(c.a24_form());
        let ghost p0 = c.point_val(point);
        proof {
            lemma_redc_mod(n, c.a24_form() as int);
            assert(is_quotient(n, den, num, a));
            let sa = suyama_a24(n, s as int);
            assert(is_quotient(n, den, num, sa));
            lemma_mod_bound(16 * (u * u * u) * v, n);
            crate::arith::lemma_unit_cancel(n, den, a, sa);
        }
        let mut k: usize = 0;
        while k < self.sieve.prime.len()
            invariant
                c.wf(),
                c.modulus() == mo,
                c.is_point(point),
                n == mo.n as int,
                a == c.val(c.a24_form()),
                *self == *old(self),
                k <= self.sieve.prime@.len(),
                c.point_val(point) == stage1_value(n, a, p0, self.sieve.prime@, bound.b1 as nat, k as nat),
            decreases self.sieve.prime@.len() - k,
        {
            let p = self.sieve.prime[k];
            let mut pe = p;
            loop
                invariant
                    power_below(p as nat, bound.b1 as nat, pe as nat) == power_below(p as nat, bound.b1 as nat, p as nat),
                ensures
                    pe == power_below(p as nat, bound.b1 as nat, p as nat),
                decreases u128::MAX - pe,
            {
                match pe.checked_mul(p) {
                    Some(q) => {
                        if q < bound.b1 && q > pe {
                            pe = q;
                        } else {
                            break;
                        }
                    },
                    None => {
                        break;
                    },
                }
            }
            let ghost before = point;
            point = c.scale(point, pe);
            proof {
                lemma_scale_value(c, before, pe, point);
            }
            k += 1;
        }
        let g = gcd(mo.n, point.1);
        proof {
            lemma_gcd_divides_n(mo.n, point.1);
            crate::arith::lemma_gcd_redc(n, point.1 as int);
        }
        if 1 < g && g < mo.n {
            return Some(g);
        }
        self.stage2_strategy.check_stage2(bound, mo, &c, point)
    }
}

impl<T: BoundStrategy, U: Stage2Strategy> Factorize for Ecm<T, U> {
    /// Always `Some` of what `find_factor` returns.
    fn try_find_factor(&mut self, n: u128) -> (r: Option<u128>)
        ensures
            r matches Some(d) && is_factor_found(n as nat, d as nat),
    {
        Some(self.find_factor(n))
    }

    /// Curves with seeds drawn from `[6, n - 5)`, round after round of the bound schedule;
    /// trial division once the schedule ends without a divisor, or reaches a bound on which the
    /// second stage cannot run (one whose tables would not fit in memory).
    fn find_factor(&mut self, n: u128) -> (d: u128) {
        if n <= 11 {
            return smallest_factor(n);
        }
        let mo = Mint::new(n);
        let mut round: usize = 0;
        while round < usize::MAX
            invariant
                is_factor_input(n),
                n > 11,
                mo.wf(),
                mo.n == n,
            decreases usize::MAX - round,
        {
            let (bound, rep) = match self.bound_strategy.generate_bound(n, round) {
                Some(t) => t,
                None => {
                    break;
                },
            };
            if !self.stage2_strategy.bound_fits(bound) {
                break;
            }
            if bound.b1 as usize > self.sieve.lpf.len() && (bound.b1 as usize) < usize::MAX {
                self.sieve = Sieve::new(bound.b1 as usize);
            }
            let mut t: usize = 0;
            while t < rep
                invariant
                    is_factor_input(n),
                    n > 11,
                    mo.wf(),
                    mo.n == n,
                    self.stage2_strategy.accepts(bound),
                decreases rep - t,
            {
                let s = self.rng.next_range(6..n - 5);
                if let Some(d) = self.check_curve(bound, mo, s) {
                    if 1 < d && d < n {
                        return d;
                    }
                }
                t += 1;
            }
            round += 1;
        }
        smallest_factor(n)
    }
}
} // verus!
