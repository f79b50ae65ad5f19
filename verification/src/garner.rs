//! Reconstruction of a residue from its residues modulo three NTT primes (Garner's algorithm).
use vstd::prelude::*;
use vstd::arithmetic::div_mod::*;
use vstd::arithmetic::mul::*;
use crate::arith::{lemma_rep_add, lemma_rep_bound, lemma_rep_mul, lemma_small_product, radix, rep};
use crate::modint::u128::{DynamicModInt, StaticModInt};

verus! {

/// The first NTT prime, `7 * 2^120 + 1`.
pub const M1: u128 = 0x0700_0000_0000_0000_0000_0000_0000_0001;
/// The second NTT prime, `51 * 2^119 + 1`.
pub const M2: u128 = 0x1980_0000_0000_0000_0000_0000_0000_0001;
/// The third NTT prime, `71 * 2^119 + 1`.
pub const M3: u128 = 0x2380_0000_0000_0000_0000_0000_0000_0001;

pub type Mint1 = StaticModInt<M1>;
pub type Mint2 = StaticModInt<M2>;
pub type Mint3 = StaticModInt<M3>;

/// `M1^{-1} mod M2`.
pub const M1_INV_M2: u128 = 6412626952638040089549447574595716402;
/// `(M1 M2)^{-1} mod M3`.
pub const M1M2_INV_M3: u128 = 36052977406725869515896637024033679358;

/// The second Garner digit: `(c2 - c1) / M1 mod M2`.
pub open spec fn garner_x2(c1: int, c2: int) -> int {
    ((c2 - c1) * M1_INV_M2) % (M2 as int)
}

/// The third Garner digit: `(c3 - c1 - x2 M1) / (M1 M2) mod M3`.
pub open spec fn garner_x3(c1: int, c2: int, c3: int) -> int {
    ((c3 - c1 - garner_x2(c1, c2) * M1) * M1M2_INV_M3) % (M3 as int)
}

/// The number `c1 + M1 x2 + M1 M2 x3` that Garner's algorithm builds from the residues.
pub open spec fn garner_value(c1: int, c2: int, c3: int) -> int {
    c1 + M1 * garner_x2(c1, c2) + M1 * M2 * garner_x3(c1, c2, c3)
}

/// The number built from residues `c1, c2, c3` is congruent to `ci` modulo `Mi`, and lies in
/// `[0, M1 M2 M3)` when `c1 < M1`.
pub proof fn lemma_garner_crt(c1: int, c2: int, c3: int)
    requires
        0 <= c1,
    ensures
        garner_value(c1, c2, c3) % (M1 as int) == c1 % (M1 as int),
        garner_value(c1, c2, c3) % (M2 as int) == c2 % (M2 as int),
        garner_value(c1, c2, c3) % (M3 as int) == c3 % (M3 as int),
        c1 < M1 ==> 0 <= garner_value(c1, c2, c3) < M1 * M2 * M3,
{
    let m1 = M1 as int;
    let m2 = M2 as int;
    let m3 = M3 as int;
    let x2 = garner_x2(c1, c2);
    let x3 = garner_x3(c1, c2, c3);
    let v = garner_value(c1, c2, c3);
    lemma_mod_bound((c2 - c1) * M1_INV_M2, m2);
    lemma_mod_bound((c3 - c1 - x2 * M1) * M1M2_INV_M3, m3);
    assert((M1 as int * M1_INV_M2 as int) % m2 == 1);
    assert((M1 as int * M2 as int * M1M2_INV_M3 as int) % m3 == 1);
    // modulo M1
    assert(v == c1 + m1 * (x2 + m2 * x3)) by (nonlinear_arith)
        requires
            v == c1 + m1 * x2 + m1 * m2 * x3,
    ;
    lemma_mod_multiples_vanish(x2 + m2 * x3, c1, m1);
    // modulo M2: M1 x2 = (c2 - c1) (M1 M1^{-1}) = c2 - c1
    let k2 = ((c2 - c1) * M1_INV_M2) / m2;
    lemma_fundamental_div_mod((c2 - c1) * M1_INV_M2, m2);
    let e2 = (m1 * M1_INV_M2) / m2;
    lemma_fundamental_div_mod(m1 * M1_INV_M2, m2);
    assert(v == c2 + m2 * ((c2 - c1) * e2 - m1 * k2 + m1 * x3)) by (nonlinear_arith)
        requires
            v == c1 + m1 * x2 + m1 * m2 * x3,
            (c2 - c1) * M1_INV_M2 == m2 * k2 + x2,
            m1 * M1_INV_M2 == m2 * e2 + 1,
    ;
    lemma_mod_multiples_vanish((c2 - c1) * e2 - m1 * k2 + m1 * x3, c2, m2);
    // modulo M3: M1 M2 x3 = c3 - c1 - M1 x2
    let d3 = c3 - c1 - x2 * m1;
    let k3 = (d3 * M1M2_INV_M3) / m3;
    lemma_fundamental_div_mod(d3 * M1M2_INV_M3, m3);
    let e3 = (m1 * m2 * M1M2_INV_M3) / m3;
    lemma_fundamental_div_mod(m1 * m2 * M1M2_INV_M3, m3);
    assert(v == c3 + m3 * (d3 * e3 - m1 * m2 * k3)) by (nonlinear_arith)
        requires
            v == c1 + m1 * x2 + m1 * m2 * x3,
            d3 == c3 - c1 - x2 * m1,
            d3 * M1M2_INV_M3 == m3 * k3 + x3,
            m1 * m2 * M1M2_INV_M3 == m3 * e3 + 1,
    ;
    lemma_mod_multiples_vanish(d3 * e3 - m1 * m2 * k3, c3, m3);
    if c1 < M1 {
        assert(0 <= v < m1 * m2 * m3) by (nonlinear_arith)
            requires
                v == c1 + m1 * x2 + m1 * m2 * x3,
                0 <= c1 < m1,
                0 <= x2 < m2,
                0 <= x3 < m3,
                m1 > 0,
                m2 > 0,
        ;
    }
}

/// `x = (y M1) M1^{-1} mod M2` recovers a digit `y < M2`, and likewise modulo `M3`.
proof fn lemma_cancel_digit(a: int, y: int, f: int, inv: int, m: int)
    requires
        m > 0,
        0 <= y < m,
        a % m == (f * y) % m,
        (f * inv) % m == 1,
    ensures
        (a * inv) % m == y,
{
    lemma_mul_mod_noop_left(a, inv, m);
    lemma_mul_mod_noop_left(f * y, inv, m);
    assert((f * y) * inv == y * (f * inv)) by (nonlinear_arith);
    lemma_mul_mod_noop_right(y, f * inv, m);
    lemma_mul_basics(y);
    lemma_small_mod(y as nat, m as nat);
}

/// Garner's reconstruction is exact on `[0, M1 M2 M3)`: the number built from the residues
/// of `v` is `v`.
pub proof fn lemma_garner_unique(v: int)
    requires
        0 <= v < M1 * M2 * M3,
    ensures
        garner_value(v % (M1 as int), v % (M2 as int), v % (M3 as int)) == v,
{
    let m1 = M1 as int;
    let m2 = M2 as int;
    let m3 = M3 as int;
    let y1 = v % m1;
    let q1 = v / m1;
    let y2 = q1 % m2;
    let y3 = q1 / m2;
    lemma_fundamental_div_mod(v, m1);
    lemma_fundamental_div_mod(q1, m2);
    lemma_mod_bound(v, m1);
    lemma_mod_bound(q1, m2);
    lemma_div_pos_is_pos(v, m1);
    lemma_div_pos_is_pos(q1, m2);
    assert(v == y1 + m1 * y2 + m1 * m2 * y3) by (nonlinear_arith)
        requires
            v == m1 * q1 + y1,
            q1 == m2 * y3 + y2,
    ;
    assert(y3 < m3) by (nonlinear_arith)
        requires
            v == y1 + m1 * y2 + m1 * m2 * y3,
            v < m1 * m2 * m3,
            0 <= y1,
            0 <= y2,
            m1 > 0,
            m2 > 0,
    ;
    assert((M1 as int * M1_INV_M2 as int) % m2 == 1);
    assert((M1 as int * M2 as int * M1M2_INV_M3 as int) % m3 == 1);
    // the second digit
    let a2 = v % m2 - y1;
    lemma_mod_multiples_vanish(y2 + m2 * y3, y1, m1);
    assert(v == (y1 + m1 * y2) + m2 * (m1 * y3)) by (nonlinear_arith)
        requires
            v == y1 + m1 * y2 + m1 * m2 * y3,
    ;
    lemma_mod_multiples_vanish(m1 * y3, y1 + m1 * y2, m2);
    lemma_sub_mod_noop(v, y1, m2);
    lemma_mod_twice(v, m2);
    lemma_sub_mod_noop(y1 + m1 * y2, y1, m2);
    assert(a2 % m2 == (m1 * y2) % m2) by {
        lemma_sub_mod_noop(v % m2, y1, m2);
        lemma_mod_twice(v, m2);
    }
    lemma_cancel_digit(a2, y2, m1, M1_INV_M2 as int, m2);
    assert(garner_x2(y1, v % m2) == y2);
    // the third digit
    let a3 = v % m3 - y1 - y2 * m1;
    assert(v - y1 - y2 * m1 == (m1 * m2) * y3) by (nonlinear_arith)
        requires
            v == y1 + m1 * y2 + m1 * m2 * y3,
    ;
    lemma_sub_mod_noop(v % m3, y1 + y2 * m1, m3);
    lemma_sub_mod_noop(v, y1 + y2 * m1, m3);
    lemma_mod_twice(v, m3);
    assert(a3 % m3 == ((m1 * m2) * y3) % m3);
    lemma_cancel_digit(a3, y3, m1 * m2, M1M2_INV_M3 as int, m3);
    assert(garner_x3(y1, v % m2, v % m3) == y3);
}

/// The Garner digits `(c1, x2, x3)` of the residues `c1, c2, c3`, with `x2 < M2` and `x3 < M3`.
pub fn garner_digits(c1: u128, c2: u128, c3: u128) -> (r: (u128, u128, u128))
    ensures
        r.0 == c1,
        r.1 == garner_x2(c1 as int, c2 as int),
        r.2 == garner_x3(c1 as int, c2 as int, c3 as int),
        r.1 < M2,
        r.2 < M3,
{
    let x1 = c1;
    let a2 = Mint2::new(c2);
    let b2 = Mint2::new(x1);
    let i2 = Mint2::new(M1_INV_M2);
    let d2 = a2.sub(b2);
    proof {
        lemma_small_product(d2.rep() as int, i2.rep() as int);
    }
    let x2 = d2.mul(i2).val();
    proof {
        lemma_garner_x2(c1 as int, c2 as int, d2.value(), x2 as int);
    }
    let a3 = Mint3::new(c3);
    let b3 = Mint3::new(x1);
    let p3 = Mint3::new(x2);
    let q3 = Mint3::new(M1);
    let i3 = Mint3::new(M1M2_INV_M3);
    proof {
        lemma_small_product(p3.rep() as int, q3.rep() as int);
    }
    let s3 = a3.sub(b3);
    let t3 = p3.mul(q3);
    let d3 = s3.sub(t3);
    proof {
        lemma_small_product(d3.rep() as int, i3.rep() as int);
    }
    let x3 = d3.mul(i3).val();
    proof {
        lemma_garner_x3(c1 as int, c2 as int, c3 as int, x2 as int, s3.value(), t3.value(), d3.value(), x3 as int);
    }
    (x1, x2, x3)
}

/// Garner reconstruction into a modulus `mo`.
pub struct Garner3 {
    mo: DynamicModInt,
    m1: u128,
    m2: u128,
}

impl Garner3 {
    /// The modulus into which results are reduced.
    pub closed spec fn modulus(&self) -> DynamicModInt {
        self.mo
    }

    /// The modulus is set up and the two products are its Montgomery forms of `M1` and `M2`.
    pub closed spec fn wf(&self) -> bool {
        &&& self.mo.wf()
        &&& self.m1 == self.mo.repr(M1 as int)
        &&& self.m2 == self.mo.repr(M2 as int)
    }

    pub fn new(mo: DynamicModInt) -> (g: Self)
        requires
            mo.wf(),
        ensures
            g.wf(),
            g.modulus() == mo,
    {
        Self { mo, m1: mo.mr_const(M1), m2: mo.mr_const(M2) }
    }

    /// The Montgomery form, modulo the modulus, of the number `x` in `[0, M1 M2 M3)` with
    /// `x mod Mi = ci` (see `lemma_garner_crt`).  The inputs are plain residues.
    pub fn reconstruct(&self, c1: u128, c2: u128, c3: u128) -> (r: u128)
        requires
            self.wf(),
        ensures
            r == self.modulus().repr(garner_value(c1 as int, c2 as int, c3 as int)),
    {
        let (x1, x2, x3) = garner_digits(c1, c2, c3);
        let mo = &self.mo;
        let ghost n = mo.n as int;
        let rx1 = mo.mr(x1);
        let rx2 = mo.mr(x2);
        let rx3 = mo.mr(x3);
        proof {
            lemma_rep_bound(n, x1 as int);
            lemma_rep_bound(n, x2 as int);
            lemma_rep_bound(n, x3 as int);
            lemma_rep_bound(n, M1 as int);
            lemma_rep_bound(n, M2 as int);
            lemma_small_product(self.m1 as int, rx2 as int);
            lemma_small_product(self.m2 as int, rx3 as int);
            lemma_rep_mul(n, M1 as int, x2 as int);
            lemma_rep_mul(n, M2 as int, x3 as int);
        }
        let y2 = mo.mul(self.m1, rx2);
        let z3 = mo.mul(self.m2, rx3);
        proof {
            lemma_rep_bound(n, M2 * x3);
            lemma_small_product(self.m1 as int, z3 as int);
            lemma_rep_mul(n, M1 as int, M2 * x3);
            lemma_rep_bound(n, M1 * x2);
        }
        let y3 = mo.mul(self.m1, z3);
        let s = mo.add(rx1, y2);
        proof {
            lemma_rep_add(n, x1 as int, M1 * x2);
            lemma_rep_bound(n, x1 + M1 * x2);
            lemma_rep_bound(n, M1 * (M2 * x3));
            lemma_rep_add(n, x1 + M1 * x2, M1 * (M2 * x3));
            assert(M1 * (M2 * x3) == M1 * M2 * x3) by (nonlinear_arith);
        }
        mo.add(s, y3)
    }

    /// `reconstruct` applied to the corresponding entries of the three vectors, as far as the
    /// shortest of them reaches.
    pub fn reconstruct_vector(&self, c1: Vec<u128>, c2: Vec<u128>, c3: Vec<u128>) -> (r: Vec<u128>)
        requires
            self.wf(),
        ensures
            r.len() == vstd::math::min(vstd::math::min(c1.len() as int, c2.len() as int), c3.len() as int),
            forall|i: int| 0 <= i < r.len() ==> #[trigger] r[i] == self.modulus().repr(
                garner_value(c1[i] as int, c2[i] as int, c3[i] as int),
            ),
    {
        let mut len = c1.len();
        if c2.len() < len {
            len = c2.len();
        }
        if c3.len() < len {
            len = c3.len();
        }
        let mut r: Vec<u128> = Vec::new();
        let mut i: usize = 0;
        while i < len
            invariant
                self.wf(),
                len <= c1.len(),
                len <= c2.len(),
                len <= c3.len(),
                i <= len,
                r.len() == i,
                forall|k: int| 0 <= k < i ==> #[trigger] r[k] == self.modulus().repr(
                    garner_value(c1[k] as int, c2[k] as int, c3[k] as int),
                ),
            decreases len - i,
        {
            r.push(self.reconstruct(c1[i], c2[i], c3[i]));
            i += 1;
        }
        r
    }
}

/// The second digit computed with Montgomery residues is `garner_x2`.
proof fn lemma_garner_x2(c1: int, c2: int, d: int, x2: int)
    requires
        d == (c2 % (M2 as int) - c1 % (M2 as int)) % (M2 as int),
        x2 == (d * (M1_INV_M2 as int % (M2 as int))) % (M2 as int),
    ensures
        x2 == garner_x2(c1, c2),
{
    let m = M2 as int;
    lemma_sub_mod_noop(c2, c1, m);
    lemma_mul_mod_noop(c2 - c1, M1_INV_M2 as int, m);
    lemma_mod_twice(c2 - c1, m);
}

/// The third digit computed with Montgomery residues is `garner_x3`.
proof fn lemma_garner_x3(c1: int, c2: int, c3: int, x2: int, s: int, t: int, d: int, x3: int)
    requires
        x2 == garner_x2(c1, c2),
        s == (c3 % (M3 as int) - c1 % (M3 as int)) % (M3 as int),
        t == ((x2 % (M3 as int)) * (M1 as int % (M3 as int))) % (M3 as int),
        d == (s - t) % (M3 as int),
        x3 == (d * (M1M2_INV_M3 as int % (M3 as int))) % (M3 as int),
    ensures
        x3 == garner_x3(c1, c2, c3),
{
    let m = M3 as int;
    lemma_sub_mod_noop(c3, c1, m);
    lemma_mul_mod_noop(x2, M1 as int, m);
    lemma_sub_mod_noop(c3 - c1, x2 * M1, m);
    lemma_mod_twice(c3 - c1, m);
    lemma_mod_twice(x2 * M1, m);
    lemma_sub_mod_noop(s, t, m);
    lemma_mul_mod_noop(c3 - c1 - x2 * M1, M1M2_INV_M3 as int, m);
    lemma_mod_twice(c3 - c1 - x2 * M1, m);
    lemma_sub_mod_noop((c3 - c1) % m, (x2 * M1) % m, m);
}

} // verus!
