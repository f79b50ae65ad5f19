//! Formal power series: coefficient sequences with truncated arithmetic.
use vstd::prelude::*;
use vstd::arithmetic::div_mod::*;
use vstd::arithmetic::mul::*;
use vstd::std_specs::iter::IteratorSpec;
use crate::arith::{redc, spec_gcd};
use crate::convolution::u128::product_laws::{
    coef, lemma_conv_congruent, lemma_conv_prefix_second, lemma_conv_scale_first, lemma_newton_step,
};
use crate::convolution::u128::{
    all_below, conv_coef, conv_len, conv_partial, convolution_arbitrary, mont_values, DynamicConvolution,
};
use crate::modint::u128::{all_reduced, lemma_reduced_product, valid_modulus, values, DynamicModInt, StaticModInt};

verus! {

broadcast use vstd::std_specs::slice::axiom_spec_slice_iter;

/// The value at `x` of the polynomial with coefficients `c` (constant term first).
pub open spec fn poly_eval(c: Seq<int>, x: int) -> int
    decreases c.len(),
{
    if c.len() == 0 {
        0
    } else {
        c[0] + x * poly_eval(c.drop_first(), x)
    }
}

/// A formal power series, by its coefficients (constant term first).
#[derive(Debug, Clone, PartialEq, Eq, Default)]
pub struct Fps<T>(Vec<T>);

impl<T> View for Fps<T> {
    type V = Seq<T>;

    closed spec fn view(&self) -> Seq<T> {
        self.0@
    }
}

impl<T> Fps<T> {
    pub fn new(a: Vec<T>) -> (f: Self)
        ensures
            f@ == a@,
    {
        Self(a)
    }

    /// The number of coefficients.
    pub fn len(&self) -> (n: usize)
        ensures
            n == self@.len(),
    {
        self.0.len()
    }

    /// Whether there are no coefficients.
    pub fn is_empty(&self) -> (b: bool)
        ensures
            b == (self@.len() == 0),
    {
        self.0.len() == 0
    }

    /// Reverses the coefficients in place: for `N > 0` coefficients, `F` becomes
    /// `F(1/X) X^(N - 1)` (trailing zeros are not checked).
    pub fn reverse(&mut self)
        ensures
            final(self)@ == old(self)@.reverse(),
    {
        let ghost v0 = self.0@;
        let mut r: Vec<T> = Vec::new();
        while self.0.len() > 0
            invariant
                self.0@.len() <= v0.len(),
                self.0@ == v0.subrange(0, self.0@.len() as int),
                r@ == v0.subrange(self.0@.len() as int, v0.len() as int).reverse(),
            decreases self.0@.len(),
        {
            let ghost before = self.0@;
            let x = self.0.pop().unwrap();
            r.push(x);
            proof {
                assert(self.0@ =~= v0.subrange(0, self.0@.len() as int));
                assert(r@ =~= v0.subrange(self.0@.len() as int, v0.len() as int).reverse());
            }
        }
        self.0 = r;
    }

    /// Iterates over the coefficients.
    pub fn iter(&self) -> (it: std::slice::Iter<'_, T>)
        ensures
            IteratorSpec::remaining(&it) == self@.as_ref(),
    {
        self.0.as_slice().iter()
    }

    /// The coefficients.
    pub fn as_slice(&self) -> (s: &[T])
        ensures
            s@ == self@,
    {
        self.0.as_slice()
    }

    /// The coefficient of `X^i`.
    pub fn get(&self, i: usize) -> (r: &T)
        requires
            i < self@.len(),
        ensures
            *r == self@[i as int],
    {
        &self.0[i]
    }

    /// Replaces the coefficient of `X^i` by `x`.
    pub fn set(&mut self, i: usize, x: T)
        requires
            i < old(self)@.len(),
        ensures
            final(self)@ == old(self)@.update(i as int, x),
    {
        self.0.set(i, x);
    }
}


/// The first `len` entries of `c`, extended by zeros where `c` is shorter.
pub open spec fn prefix_spec<T>(c: Seq<T>, len: int, zero: T) -> Seq<T> {
    Seq::new(len as nat, |i: int| if i < c.len() { c[i] } else { zero })
}

impl<const M: u128> Fps<StaticModInt<M>> {
    /// Extends with zeros or cuts to `len` coefficients.
    pub fn resize(&mut self, len: usize)
        requires
            valid_modulus(M),
            all_reduced(old(self)@),
        ensures
            final(self)@ == prefix_spec(old(self)@, len as int, StaticModInt::<M>::from_rep(0)),
            all_reduced(final(self)@),
    {
        let ghost v0 = self.0@;
        let zero = StaticModInt::<M>::raw(0);
        if len <= self.0.len() {
            self.0.truncate(len);
        } else {
            while self.0.len() < len
                invariant
                    v0.len() <= self.0@.len() <= len,
                    zero == StaticModInt::<M>::from_rep(0),
                    forall|k: int| 0 <= k < v0.len() ==> #[trigger] self.0@[k] == v0[k],
                    forall|k: int| v0.len() <= k < self.0@.len() ==> #[trigger] self.0@[k] == zero,
                decreases len - self.0@.len(),
            {
                self.0.push(zero);
            }
        }
        proof {
            assert(self.0@ =~= prefix_spec(v0, len as int, StaticModInt::<M>::from_rep(0)));
        }
    }

    /// The first `len` coefficients, extended with zeros where there are fewer.
    pub fn prefix(&self, len: usize) -> (f: Self)
        requires
            valid_modulus(M),
            all_reduced(self@),
        ensures
            f@ == prefix_spec(self@, len as int, StaticModInt::<M>::from_rep(0)),
            all_reduced(f@),
    {
        let mut v: Vec<StaticModInt<M>> = Vec::new();
        let zero = StaticModInt::<M>::raw(0);
        let mut k: usize = 0;
        while k < len
            invariant
                valid_modulus(M),
                all_reduced(self@),
                zero == StaticModInt::<M>::from_rep(0),
                k <= len,
                v@ == prefix_spec(self@, k as int, zero),
            decreases len - k,
        {
            if k < self.0.len() {
                v.push(self.0[k]);
            } else {
                v.push(zero);
            }
            k += 1;
            proof {
                assert(v@ =~= prefix_spec(self@, k as int, zero));
            }
        }
        Self(v)
    }

    /// A reversed copy: for `N > 0` coefficients, `F(1/X) X^(N - 1)`.
    pub fn reversed(&self) -> (f: Self)
        requires
            valid_modulus(M),
            all_reduced(self@),
        ensures
            f@ == self@.reverse(),
    {
        let mut f = self.prefix(self.len());
        proof {
            assert(f@ =~= self@);
        }
        f.reverse();
        f
    }

    /// Drops all trailing coefficients whose Montgomery form is zero.
    pub fn shrink(&mut self)
        ensures
            final(self)@ == old(self)@.subrange(0, final(self)@.len() as int),
            final(self)@.len() == 0 || final(self)@[final(self)@.len() - 1].rep() != 0,
            forall|j: int| final(self)@.len() <= j < old(self)@.len() ==> (#[trigger] old(self)@[j]).rep() == 0,
    {
        let ghost v0 = self.0@;
        let zero = StaticModInt::<M>::raw(0);
        while self.0.len() > 0 && self.0[self.0.len() - 1] == zero
            invariant
                zero.rep() == 0,
                self.0@.len() <= v0.len(),
                self.0@ == v0.subrange(0, self.0@.len() as int),
                forall|j: int| self.0@.len() <= j < v0.len() ==> (#[trigger] v0[j]).rep() == 0,
            decreases self.0@.len(),
        {
            self.0.pop();
            proof {
                assert(self.0@ =~= v0.subrange(0, self.0@.len() as int));
            }
        }
    }

    /// The value at `x` (Horner's rule).
    pub fn eval(&self, x: StaticModInt<M>) -> (r: StaticModInt<M>)
        requires
            valid_modulus(M),
            all_reduced(self@),
            x.rep() < M,
        ensures
            r.rep() < M,
            r.value() == poly_eval(values(self@), x.value()) % (M as int),
    {
        let mut acc = StaticModInt::<M>::raw(0);
        let ghost c = values(self@);
        let ghost xv = x.value();
        proof {
            lemma_mul_basics(crate::arith::r_inv(M as int));
            lemma_small_mod(0, M as nat);
            assert(c.subrange(c.len() as int, c.len() as int) =~= Seq::<int>::empty());
        }
        let mut i = self.0.len();
        while i > 0
            invariant
                valid_modulus(M),
                all_reduced(self@),
                c == values(self@),
                xv == x.value(),
                x.rep() < M,
                i <= self@.len(),
                acc.rep() < M,
                acc.value() == poly_eval(c.subrange(i as int, c.len() as int), xv) % (M as int),
            decreases i,
        {
            i -= 1;
            let ci = self.0[i];
            proof {
                assert(self@[i as int].rep() < M);
                lemma_reduced_product(acc.rep(), x.rep(), M);
                lemma_horner_step(c, i as int, xv, acc.value(), M as int);
            }
            acc = acc.mul(x).add(ci);
        }
        proof {
            assert(c.subrange(0, c.len() as int) =~= c);
        }
        acc
    }

    /// `-f`.
    pub fn neg(&self) -> (g: Self)
        requires
            valid_modulus(M),
            all_reduced(self@),
        ensures
            g@.len() == self@.len(),
            all_reduced(g@),
            forall|k: int| 0 <= k < self@.len() ==> (#[trigger] g@[k]).value() == (0 - self@[k].value()) % (M as int),
    {
        let mut v: Vec<StaticModInt<M>> = Vec::new();
        let mut k: usize = 0;
        while k < self.0.len()
            invariant
                valid_modulus(M),
                all_reduced(self@),
                k <= self@.len(),
                v@.len() == k,
                all_reduced(v@),
                forall|j: int| 0 <= j < k ==> (#[trigger] v@[j]).value() == (0 - self@[j].value()) % (M as int),
            decreases self@.len() - k,
        {
            proof {
                assert(self@[k as int].rep() < M);
            }
            v.push(self.0[k].neg());
            k += 1;
        }
        Self(v)
    }

    /// The product `f g`.
    pub fn mul(&self, rhs: &Self) -> (h: Self)
        requires
            valid_modulus(M),
            all_reduced(self@),
            all_reduced(rhs@),
            self@.len() + rhs@.len() <= usize::MAX,
        ensures
            h@.len() == conv_len(self@.len() as int, rhs@.len() as int),
            all_reduced(h@),
            forall|k: int| 0 <= k < h@.len() ==> (#[trigger] h@[k]).value() == conv_coef(values(self@), values(rhs@), k) % (M as int),
    {
        Self(convolution_arbitrary(self.0.as_slice(), rhs.0.as_slice()))
    }

    /// `f += g`, extending `f` with zeros first where it is shorter.
    pub fn add_assign(&mut self, rhs: &Self)
        requires
            valid_modulus(M),
            all_reduced(old(self)@),
            all_reduced(rhs@),
        ensures
            final(self)@.len() == vstd::math::max(old(self)@.len() as int, rhs@.len() as int),
            all_reduced(final(self)@),
            forall|k: int| 0 <= k < final(self)@.len() ==> (#[trigger] final(self)@[k]).value() == (
            (if k < old(self)@.len() { old(self)@[k].value() } else { 0 }) + (if k < rhs@.len() { rhs@[k].value() } else { 0 }))
                % (M as int),
    {
        let ghost v0 = self.0@;
        if self.0.len() < rhs.0.len() {
            self.resize(rhs.0.len());
        }
        proof {
            StaticModInt::<M>::lemma_from_rep(0);
            assert forall|k: int| 0 <= k < self@.len() implies (#[trigger] self@[k]).value() == (if k < v0.len() { v0[k].value() } else { 0 }) by {
                if k >= v0.len() {
                    assert(self@[k] == StaticModInt::<M>::from_rep(0));
                }
            }
        }
        let n = self.0.len();
        let mut k: usize = 0;
        while k < rhs.0.len()
            invariant
                valid_modulus(M),
                all_reduced(self@),
                all_reduced(rhs@),
                self@.len() == n,
                n >= rhs@.len(),
                n == vstd::math::max(v0.len() as int, rhs@.len() as int),
                k <= rhs@.len(),
                forall|j: int| 0 <= j < k ==> (#[trigger] self@[j]).value() == ((if j < v0.len() { v0[j].value() } else { 0 }) + rhs@[j].value()) % (M as int),
                forall|j: int| k <= j < n ==> (#[trigger] self@[j]).value() == (if j < v0.len() { v0[j].value() } else { 0 }),
            decreases rhs@.len() - k,
        {
            let x = self.0[k];
            let y = rhs.0[k];
            proof {
                assert(self@[k as int].rep() < M);
                assert(rhs@[k as int].rep() < M);
            }
            self.0.set(k, x.add(y));
            k += 1;
        }
        proof {
            assert forall|j: int| 0 <= j < n implies (#[trigger] self@[j]).value() == ((if j < v0.len() { v0[j].value() } else { 0 })
                + (if j < rhs@.len() { rhs@[j].value() } else { 0 })) % (M as int) by {
                if j >= rhs@.len() {
                    if j < v0.len() {
                        lemma_small_mod(v0[j].value() as nat, M as nat);
                    }
                }
            }
        }
    }

    /// `f -= g`, extending `f` with zeros first where it is shorter.
    pub fn sub_assign(&mut self, rhs: &Self)
        requires
            valid_modulus(M),
            all_reduced(old(self)@),
            all_reduced(rhs@),
        ensures
            final(self)@.len() == vstd::math::max(old(self)@.len() as int, rhs@.len() as int),
            all_reduced(final(self)@),
            forall|k: int| 0 <= k < final(self)@.len() ==> (#[trigger] final(self)@[k]).value() == (
            (if k < old(self)@.len() { old(self)@[k].value() } else { 0 }) - (if k < rhs@.len() { rhs@[k].value() } else { 0 }))
                % (M as int),
    {
        let ghost v0 = self.0@;
        if self.0.len() < rhs.0.len() {
            self.resize(rhs.0.len());
        }
        proof {
            StaticModInt::<M>::lemma_from_rep(0);
            assert forall|k: int| 0 <= k < self@.len() implies (#[trigger] self@[k]).value() == (if k < v0.len() { v0[k].value() } else { 0 }) by {
                if k >= v0.len() {
                    assert(self@[k] == StaticModInt::<M>::from_rep(0));
                }
            }
        }
        let n = self.0.len();
        let mut k: usize = 0;
        while k < rhs.0.len()
            invariant
                valid_modulus(M),
                all_reduced(self@),
                all_reduced(rhs@),
                self@.len() == n,
                n >= rhs@.len(),
                n == vstd::math::max(v0.len() as int, rhs@.len() as int),
                k <= rhs@.len(),
                forall|j: int| 0 <= j < k ==> (#[trigger] self@[j]).value() == ((if j < v0.len() { v0[j].value() } else { 0 }) - rhs@[j].value()) % (M as int),
                forall|j: int| k <= j < n ==> (#[trigger] self@[j]).value() == (if j < v0.len() { v0[j].value() } else { 0 }),
            decreases rhs@.len() - k,
        {
            let x = self.0[k];
            let y = rhs.0[k];
            proof {
                assert(self@[k as int].rep() < M);
                assert(rhs@[k as int].rep() < M);
            }
            self.0.set(k, x.sub(y));
            k += 1;
        }
        proof {
            assert forall|j: int| 0 <= j < n implies (#[trigger] self@[j]).value() == ((if j < v0.len() { v0[j].value() } else { 0 })
                - (if j < rhs@.len() { rhs@[j].value() } else { 0 })) % (M as int) by {
                if j >= rhs@.len() {
                    if j < v0.len() {
                        crate::arith::lemma_redc_mod(M as int, v0[j].rep() as int);
                        lemma_small_mod(v0[j].value() as nat, M as nat);
                    }
                }
            }
        }
    }

    /// `f - c` for a constant `c` (a zero series becomes `-c`).
    pub fn sub_constant(&mut self, rhs: StaticModInt<M>)
        requires
            valid_modulus(M),
            all_reduced(old(self)@),
            rhs.rep() < M,
        ensures
            final(self)@.len() == vstd::math::max(old(self)@.len() as int, 1),
            all_reduced(final(self)@),
            forall|k: int| 1 <= k < final(self)@.len() ==> #[trigger] final(self)@[k] == old(self)@[k],
            final(self)@[0].value() == ((if old(self)@.len() > 0 { old(self)@[0].value() } else { 0 }) - rhs.value()) % (M as int),
    {
        let ghost v0 = self.0@;
        if self.0.len() == 0 {
            self.resize(1);
        }
        proof {
            StaticModInt::<M>::lemma_from_rep(0);
            assert(self@[0].rep() < M);
        }
        let x = self.0[0];
        self.0.set(0, x.sub(rhs));
    }

    /// `f + c` for a constant `c` (a zero series becomes `c`).
    pub fn add_constant(&mut self, rhs: StaticModInt<M>)
        requires
            valid_modulus(M),
            all_reduced(old(self)@),
            rhs.rep() < M,
        ensures
            final(self)@.len() == vstd::math::max(old(self)@.len() as int, 1),
            all_reduced(final(self)@),
            forall|k: int| 1 <= k < final(self)@.len() ==> #[trigger] final(self)@[k] == old(self)@[k],
            final(self)@[0].value() == ((if old(self)@.len() > 0 { old(self)@[0].value() } else { 0 }) + rhs.value()) % (M as int),
    {
        let ghost v0 = self.0@;
        if self.0.len() == 0 {
            self.resize(1);
        }
        proof {
            StaticModInt::<M>::lemma_from_rep(0);
            assert(self@[0].rep() < M);
        }
        let x = self.0[0];
        self.0.set(0, x.add(rhs));
    }

    /// The inverse modulo `X^len` by Newton's iteration `g <- (2 - f g) g`; `self[0]` must be
    /// invertible.
    pub fn inv_until(&self, len: usize) -> (g: Self)
        requires
            valid_modulus(M),
            all_reduced(self@),
            self@.len() > 0,
            spec_gcd(self@[0].value() as nat, M as nat) == 1,
            len <= usize::MAX / 4,
        ensures
            g@.len() == len,
            all_reduced(g@),
            forall|k: int| 0 <= k < len ==> #[trigger] conv_coef(values(self@), values(g@), k) % (M as int) == (if k == 0 {
                1int
            } else {
                0
            }) % (M as int),
    {
        let ghost fv = values(self@);
        let ghost mm = M as int;
        let g0 = match self.0[0].inv() {
            Ok(g0) => g0,
            Err(_) => {
                proof {
                    assert(false);
                }
                return Self(Vec::new());
            },
        };
        let mut g = Self(vec![g0]);
        proof {
            reveal_with_fuel(conv_partial, 2);
            assert(g@.len() == 1 && g@[0] == g0);
            assert(values(g@)[0] == g0.value());
            crate::convolution::u128::product_laws::lemma_conv_commutative(fv, values(g@), 0);
            assert(conv_coef(values(g@), fv, 0) == g0.value() * fv[0]);
            lemma_mul_is_commutative(g0.value(), fv[0]);
        }
        let two = StaticModInt::<M>::new(2);
        while g.len() < len
            invariant
                valid_modulus(M),
                fv == values(self@),
                mm == M as int,
                self@.len() > 0,
                all_reduced(self@),
                all_reduced(g@),
                1 <= g@.len() <= 2 * len + 1,
                len <= usize::MAX / 4,
                two.rep() < M,
                two.value() == 2int % mm,
                forall|k: int| 0 <= k < g@.len() ==> #[trigger] conv_coef(fv, values(g@), k) % mm == (if k == 0 {
                    1int
                } else {
                    0
                }) % mm,
            decreases 2 * len + 1 - g@.len(),
        {
            let m = g.len();
            let ghost gv = values(g@);
            let f = self.prefix(m * 2);
            proof {
                StaticModInt::<M>::lemma_from_rep(0);
                assert forall|j: int| 0 <= j < 2 * m implies #[trigger] values(f@)[j] == coef(fv, j) by {}
            }
            let nf = f.neg();
            let mut h = nf.mul(&g);
            let ghost h0 = h@;
            h.add_constant(two);
            let ghost hv = values(h@);
            let g2 = h.mul(&g);
            let ghost g2f = g2@;
            g = g2;
            g.resize(m * 2);
            proof {
                lemma_inverse_step(M as int, fv, values(f@), values(nf@), gv, values(h0), hv, values(g2f), values(g@), m as int);
            }
        }
        let ghost gl = values(g@);
        g.resize(len);
        proof {
            assert forall|k: int| 0 <= k < len implies #[trigger] conv_coef(fv, values(g@), k) % mm == (if k == 0 {
                1int
            } else {
                0
            }) % mm by {
                assert forall|j: int| 0 <= j <= k implies #[trigger] coef(values(g@), j) == coef(gl, j) by {}
                lemma_conv_prefix_second(fv, values(g@), gl, k);
            }
        }
        g
    }

    /// The inverse modulo `X^N` for `N` coefficients.
    pub fn inv(&self) -> (g: Self)
        requires
            valid_modulus(M),
            all_reduced(self@),
            self@.len() > 0,
            spec_gcd(self@[0].value() as nat, M as nat) == 1,
            self@.len() <= usize::MAX / 4,
        ensures
            g@.len() == self@.len(),
            all_reduced(g@),
            forall|k: int| 0 <= k < self@.len() ==> #[trigger] conv_coef(values(self@), values(g@), k) % (M as int) == (if k == 0 {
                1int
            } else {
                0
            }) % (M as int),
    {
        self.inv_until(self.len())
    }
}

/// The bookkeeping of one Newton step of `inv_until`: the cut `f`, its negation, the
/// product with `g` plus two, and the cut product, turn an inverse modulo `x^n` into one modulo
/// `x^(2 n)`.
proof fn lemma_inverse_step(
    m: int,
    fv: Seq<int>,
    ftr: Seq<int>,
    nf: Seq<int>,
    g: Seq<int>,
    h0: Seq<int>,
    hv: Seq<int>,
    g2f: Seq<int>,
    g2: Seq<int>,
    n: int,
)
    requires
        m > 0,
        m % 2 == 1,
        n >= 1,
        g.len() == n,
        ftr.len() == 2 * n,
        forall|j: int| 0 <= j < 2 * n ==> #[trigger] ftr[j] == coef(fv, j),
        forall|k: int| 0 <= k < n ==> #[trigger] conv_coef(fv, g, k) % m == (if k == 0 { 1int } else { 0 }) % m,
        nf.len() == ftr.len(),
        forall|j: int| 0 <= j < nf.len() ==> #[trigger] nf[j] == (0 - ftr[j]) % m,
        h0.len() == conv_len(nf.len() as int, g.len() as int),
        forall|j: int| 0 <= j < h0.len() ==> #[trigger] h0[j] == conv_coef(nf, g, j) % m,
        hv.len() == h0.len(),
        forall|j: int| 1 <= j < hv.len() ==> #[trigger] hv[j] == h0[j],
        hv[0] == (h0[0] + 2int % m) % m,
        g2f.len() == conv_len(hv.len() as int, g.len() as int),
        forall|j: int| 0 <= j < g2f.len() ==> #[trigger] g2f[j] == conv_coef(hv, g, j) % m,
        g2.len() == 2 * n,
        forall|j: int| 0 <= j < 2 * n ==> #[trigger] g2[j] == g2f[j],
    ensures
        forall|k: int| 0 <= k < 2 * n ==> #[trigger] conv_coef(fv, g2, k) % m == (if k == 0 { 1int } else { 0 }) % m,
{
    if m == 1 {
        assert forall|k: int| 0 <= k < 2 * n implies #[trigger] conv_coef(fv, g2, k) % m == (if k == 0 { 1int } else { 0 }) % m by {
            lemma_mod_bound(conv_coef(fv, g2, k), m);
            lemma_mod_bound(if k == 0 { 1int } else { 0 }, m);
        }
    } else {
        lemma_small_mod(1, m as nat);
        lemma_small_mod(0, m as nat);
        lemma_small_mod(2, m as nat);
        // -f * g = -(f * g), modulo m
        let negf = Seq::new(ftr.len(), |j: int| -1 * ftr[j]);
        assert forall|i: int| 0 <= i < nf.len() implies #[trigger] nf[i] % m == negf[i] % m by {
            lemma_mod_twice(0 - ftr[i], m);
        }
        assert forall|j: int| 0 <= j < 2 * n implies #[trigger] hv[j] % m == ((if j == 0 { 2int } else { 0 }) - conv_coef(ftr, g, j))
            % m by {
            lemma_conv_congruent(nf, negf, g, g, j, m);
            lemma_conv_scale_first(ftr, negf, -1, g, j);
            let c = conv_coef(nf, g, j);
            let t = conv_coef(ftr, g, j);
            assert(c % m == (0 - t) % m);
            assert(j < h0.len());
            if j == 0 {
                lemma_mod_twice(c, m);
                lemma_add_mod_noop(c % m, 2, m);
                lemma_add_mod_noop(c, 2, m);
                lemma_add_mod_noop(0 - t, 2, m);
                assert(hv[0] == (c % m + 2) % m);
                lemma_mod_twice(c % m + 2, m);
                assert((c % m + 2) % m == (c + 2) % m);
                assert((c + 2) % m == ((c % m) + (2int % m)) % m);
                assert(((0 - t) + 2) % m == (((0 - t) % m) + (2int % m)) % m);
            } else {
                lemma_mod_twice(c, m);
            }
        }
        assert forall|k: int| 0 <= k < 2 * n implies #[trigger] g2[k] % m == conv_coef(hv, g, k) % m by {
            lemma_mod_twice(conv_coef(hv, g, k), m);
        }
        lemma_newton_step(m, fv, ftr, g, hv, g2, n);
    }
}

/// One step of Horner's rule: `c[i] + x poly(c[i+1..])` is `poly(c[i..])`.
proof fn lemma_horner_step(c: Seq<int>, i: int, x: int, acc: int, m: int)
    requires
        0 <= i < c.len(),
        m > 0,
        acc == poly_eval(c.subrange(i + 1, c.len() as int), x) % m,
    ensures
        (((acc * x) % m) + c[i]) % m == poly_eval(c.subrange(i, c.len() as int), x) % m,
{
    let t = c.subrange(i, c.len() as int);
    assert(t.drop_first() =~= c.subrange(i + 1, c.len() as int));
    let p = poly_eval(c.subrange(i + 1, c.len() as int), x);
    lemma_mul_mod_noop_left(p, x, m);
    lemma_add_mod_noop(p * x, c[i], m);
    lemma_mod_twice(p * x, m);
    lemma_add_mod_noop((p * x) % m, c[i], m);
    lemma_mul_is_commutative(p, x);
    lemma_mod_bound(c[i], m);
}

/// Power series arithmetic on coefficient vectors in Montgomery form modulo a run-time modulus.
#[derive(Debug, Clone, Copy)]
pub struct DynamicFps(pub DynamicModInt);

impl DynamicFps {
    pub fn new(mo: DynamicModInt) -> (d: Self)
        ensures
            d.0 == mo,
    {
        Self(mo)
    }

    /// Drops all trailing zeros of `f`.
    pub fn shrink(&self, f: &mut Vec<u128>)
        ensures
            final(f)@ == old(f)@.subrange(0, final(f)@.len() as int),
            final(f)@.len() == 0 || final(f)@[final(f)@.len() - 1] != 0,
            forall|j: int| final(f)@.len() <= j < old(f)@.len() ==> #[trigger] old(f)@[j] == 0,
    {
        let ghost v0 = f@;
        while f.len() > 0 && f[f.len() - 1] == 0
            invariant
                f@.len() <= v0.len(),
                f@ == v0.subrange(0, f@.len() as int),
                forall|j: int| f@.len() <= j < v0.len() ==> #[trigger] v0[j] == 0,
            decreases f@.len(),
        {
            f.pop();
            proof {
                assert(f@ =~= v0.subrange(0, f@.len() as int));
            }
        }
    }

    /// The first `len` coefficients of `f`, extended with zeros where there are fewer.
    pub fn prefix(&self, f: &[u128], len: usize) -> (g: Vec<u128>)
        ensures
            g@ == prefix_spec(f@, len as int, 0u128),
    {
        let mut g: Vec<u128> = Vec::new();
        let mut k: usize = 0;
        while k < len
            invariant
                k <= len,
                g@ == prefix_spec(f@, k as int, 0u128),
            decreases len - k,
        {
            if k < f.len() {
                g.push(f[k]);
            } else {
                g.push(0);
            }
            k += 1;
            proof {
                assert(g@ =~= prefix_spec(f@, k as int, 0u128));
            }
        }
        g
    }

    /// `a += b` coefficientwise, extending `a` with zeros first where it is shorter.
    pub fn add_assign(&self, a: &mut Vec<u128>, b: &[u128])
        requires
            self.0.wf(),
            all_below(old(a)@, self.0.n),
            all_below(b@, self.0.n),
        ensures
            final(a)@.len() == vstd::math::max(old(a)@.len() as int, b@.len() as int),
            all_below(final(a)@, self.0.n),
            forall|k: int| 0 <= k < final(a)@.len() ==> #[trigger] final(a)@[k] == (
            (if k < old(a)@.len() { old(a)@[k] as int } else { 0 }) + (if k < b@.len() { b@[k] as int } else { 0 }))
                % (self.0.n as int),
    {
        let ghost v0 = a@;
        let ghost n = self.0.n as int;
        while a.len() < b.len()
            invariant
                v0.len() <= a@.len() <= b@.len() || (a@.len() == v0.len() && v0.len() >= b@.len()),
                forall|k: int| 0 <= k < v0.len() ==> #[trigger] a@[k] == v0[k],
                forall|k: int| v0.len() <= k < a@.len() ==> #[trigger] a@[k] == 0,
            decreases b@.len() - a@.len(),
        {
            a.push(0);
        }
        let len = a.len();
        let mut k: usize = 0;
        while k < b.len()
            invariant
                self.0.wf(),
                n == self.0.n,
                a@.len() == len,
                len == vstd::math::max(v0.len() as int, b@.len() as int),
                all_below(v0, self.0.n),
                all_below(b@, self.0.n),
                k <= b@.len(),
                forall|j: int| 0 <= j < k ==> #[trigger] a@[j] == ((if j < v0.len() { v0[j] as int } else { 0 }) + b@[j] as int) % n,
                forall|j: int| k <= j < len ==> #[trigger] a@[j] == (if j < v0.len() { v0[j] } else { 0 }),
            decreases b@.len() - k,
        {
            let x = a[k];
            let y = b[k];
            a.set(k, self.0.add(x, y));
            k += 1;
        }
        proof {
            assert forall|j: int| 0 <= j < len implies #[trigger] a@[j] == ((if j < v0.len() { v0[j] as int } else { 0 })
                + (if j < b@.len() { b@[j] as int } else { 0 })) % n by {
                if j >= b@.len() && j < v0.len() {
                    lemma_small_mod(v0[j] as nat, n as nat);
                }
                if j >= b@.len() && j >= v0.len() {
                    lemma_small_mod(0, n as nat);
                }
            }
        }
    }

    /// The product `a b`.
    pub fn mul(&self, a: &[u128], b: &[u128]) -> (c: Vec<u128>)
        requires
            self.0.accepts(a@),
            self.0.accepts(b@),
            a@.len() + b@.len() <= usize::MAX,
        ensures
            c@.len() == conv_len(a@.len() as int, b@.len() as int),
            self.0.accepts(c@),
            forall|k: int| 0 <= k < c@.len() ==> self.0.value((#[trigger] c@[k]) as int) == conv_coef(
                mont_values(self.0, a@),
                mont_values(self.0, b@),
                k,
            ) % (self.0.n as int),
    {
        self.0.convolution_arbitrary(a, b)
    }

    /// `-a` coefficientwise.
    pub fn neg(&self, a: &[u128]) -> (c: Vec<u128>)
        requires
            self.0.wf(),
            all_below(a@, self.0.n),
        ensures
            c@.len() == a@.len(),
            all_below(c@, self.0.n),
            forall|k: int| 0 <= k < a@.len() ==> #[trigger] c@[k] == (if a@[k] == 0 { 0 } else { self.0.n - a@[k] }),
    {
        let mut c: Vec<u128> = Vec::new();
        let mut k: usize = 0;
        while k < a.len()
            invariant
                self.0.wf(),
                all_below(a@, self.0.n),
                k <= a@.len(),
                c@.len() == k,
                forall|j: int| 0 <= j < k ==> #[trigger] c@[j] == (if a@[j] == 0 { 0 } else { self.0.n - a@[j] }),
            decreases a@.len() - k,
        {
            c.push(self.0.neg(a[k]));
            k += 1;
        }
        c
    }

    /// The value at `rc` of the polynomial `f` (Horner's rule), all in Montgomery form.
    pub fn eval(&self, f: &[u128], rc: u128) -> (r: u128)
        requires
            self.0.wf(),
            all_below(f@, self.0.n),
            rc < self.0.n,
        ensures
            r < self.0.n,
            self.0.value(r as int) == poly_eval(mont_values(self.0, f@), self.0.value(rc as int)) % (self.0.n as int),
    {
        let mo = &self.0;
        let ghost n = mo.n as int;
        let ghost c = mont_values(*mo, f@);
        let ghost x = mo.value(rc as int);
        let mut acc: u128 = 0;
        proof {
            lemma_mul_basics(crate::arith::r_inv(n));
            lemma_small_mod(0, n as nat);
            assert(c.subrange(c.len() as int, c.len() as int) =~= Seq::<int>::empty());
        }
        let mut i = f.len();
        while i > 0
            invariant
                mo.wf(),
                n == mo.n,
                c == mont_values(*mo, f@),
                x == mo.value(rc as int),
                all_below(f@, mo.n),
                rc < mo.n,
                i <= f@.len(),
                acc < mo.n,
                mo.value(acc as int) == poly_eval(c.subrange(i as int, c.len() as int), x) % n,
            decreases i,
        {
            i -= 1;
            let fi = f[i];
            proof {
                lemma_reduced_product(acc, rc, mo.n);
            }
            let t = mo.mul(acc, rc);
            proof {
                lemma_mod_bound(acc as int * rc as int * crate::arith::r_inv(n), n);
                crate::arith::lemma_redc_mul_value(n, acc as int, rc as int);
                crate::arith::lemma_redc_mod(n, t as int);
                crate::arith::lemma_redc_add(n, t as int, fi as int);
                crate::arith::lemma_redc_mod(n, t as int + fi as int);
                lemma_horner_step(c, i as int, x, mo.value(acc as int), n);
                lemma_mul_mod_noop(mo.value(acc as int), x, n);
                lemma_mod_twice(mo.value(acc as int), n);
                lemma_add_mod_noop((mo.value(acc as int) * x) % n, c[i as int], n);
                lemma_mod_twice((mo.value(acc as int) * x) % n, n);
            }
            acc = mo.add(t, fi);
        }
        proof {
            assert(c.subrange(0, c.len() as int) =~= c);
        }
        acc
    }

    /// The inverse of `f` modulo `X^len` by Newton's iteration, or `gcd(f[0], n)` when `f[0]` is
    /// not invertible.
    pub fn inv_until(&self, f: &[u128], len: usize) -> (res: Result<Vec<u128>, u128>)
        requires
            self.0.wf(),
            all_below(f@, self.0.n),
            f@.len() > 0,
            len <= usize::MAX / 4,
        ensures
            match res {
                Ok(g) => {
                    &&& spec_gcd(self.0.value(f@[0] as int) as nat, self.0.n as nat) == 1
                    &&& g@.len() == len
                    &&& all_below(g@, self.0.n)
                    &&& forall|k: int| 0 <= k < len ==> #[trigger] conv_coef(mont_values(self.0, f@), mont_values(self.0, g@), k) % (
                    self.0.n as int) == (if k == 0 { 1int } else { 0 }) % (self.0.n as int)
                },
                Err(d) => {
                    &&& spec_gcd(self.0.value(f@[0] as int) as nat, self.0.n as nat) != 1
                    &&& d == spec_gcd(self.0.value(f@[0] as int) as nat, self.0.n as nat)
                },
            },
    {
        let ghost nn = self.0.n as int;
        let ghost fv = mont_values(self.0, f@);
        let g0 = match self.0.inv(f[0]) {
            Ok(g0) => g0,
            Err(d) => return Err(d),
        };
        let mut g: Vec<u128> = vec![g0];
        let two = self.0.mr(2);
        proof {
            lemma_mod_bound(2 * crate::arith::radix(), self.0.n as int);
            reveal_with_fuel(conv_partial, 2);
            assert(g@.len() == 1 && g@[0] == g0);
            let gs = mont_values(self.0, g@);
            assert(gs[0] == self.0.value(g0 as int));
            crate::convolution::u128::product_laws::lemma_conv_commutative(fv, gs, 0);
            assert(conv_coef(gs, fv, 0) == gs[0] * fv[0]);
            lemma_mul_is_commutative(gs[0], fv[0]);
            crate::arith::lemma_value_of_repr(nn, 2);
        }
        while g.len() < len
            invariant
                self.0.wf(),
                nn == self.0.n,
                fv == mont_values(self.0, f@),
                f@.len() > 0,
                all_below(f@, self.0.n),
                all_below(g@, self.0.n),
                1 <= g@.len() <= 2 * len + 1,
                len <= usize::MAX / 4,
                two < self.0.n,
                self.0.value(two as int) == 2int % nn,
                forall|k: int| 0 <= k < g@.len() ==> #[trigger] conv_coef(fv, mont_values(self.0, g@), k) % nn == (if k == 0 {
                    1int
                } else {
                    0
                }) % nn,
            decreases 2 * len + 1 - g@.len(),
        {
            let m = g.len();
            let ghost gv = mont_values(self.0, g@);
            let f_ = self.prefix(f, m * 2);
            proof {
                assert forall|k: int| 0 <= k < f_@.len() implies #[trigger] f_@[k] < self.0.n by {}
                lemma_mul_basics(crate::arith::r_inv(nn));
                lemma_small_mod(0, nn as nat);
                assert forall|j: int| 0 <= j < 2 * m implies #[trigger] mont_values(self.0, f_@)[j] == coef(fv, j) by {}
            }
            let nf = self.neg(f_.as_slice());
            proof {
                assert forall|j: int| 0 <= j < nf@.len() implies #[trigger] mont_values(self.0, nf@)[j] == (0 - mont_values(
                    self.0,
                    f_@,
                )[j]) % nn by {
                    if f_@[j] != 0 {
                        crate::arith::lemma_redc_sub(nn, nn, f_@[j] as int);
                        lemma_mod_multiples_basic(crate::arith::r_inv(nn), nn);
                        lemma_mul_is_commutative(nn, crate::arith::r_inv(nn));
                        lemma_sub_mod_noop(0, self.0.value(f_@[j] as int), nn);
                        lemma_small_mod(0, nn as nat);
                    }
                }
            }
            let mut h = self.mul(nf.as_slice(), g.as_slice());
            let ghost h0s = mont_values(self.0, h@);
            proof {
                assert(h@.len() > 0);
                assert(h@[0] < self.0.n);
            }
            let h0 = h[0];
            h.set(0, self.0.add(h0, two));
            proof {
                lemma_mod_bound(h0 as int + two as int, self.0.n as int);
                crate::arith::lemma_redc_mod(nn, h0 as int + two as int);
                crate::arith::lemma_redc_add(nn, h0 as int, two as int);
            }
            let ghost hs = mont_values(self.0, h@);
            g = self.mul(g.as_slice(), h.as_slice());
            let ghost graw = g@;
            let ghost gp = mont_values(self.0, g@);
            proof {
                assert forall|j: int| 0 <= j < gp.len() implies #[trigger] gp[j] == conv_coef(hs, gv, j) % nn by {
                    crate::convolution::u128::product_laws::lemma_conv_commutative(gv, hs, j);
                }
            }
            let m2 = m * 2;
            let mut k = g.len();
            if k > m2 {
                g.truncate(m2);
            } else {
                while k < m2
                    invariant
                        self.0.wf(),
                        all_below(g@, self.0.n),
                        g@.len() == k,
                        k <= m2,
                        m2 == 2 * m,
                        m >= 1,
                        k == 4 * m - 2,
                        g@ == graw,
                    decreases m2 - k,
                {
                    g.push(0);
                    k += 1;
                }
            }
            proof {
                assert forall|j: int| 0 <= j < 2 * m implies #[trigger] mont_values(self.0, g@)[j] == gp[j] by {
                    assert(g@[j] == graw[j]);
                }
                lemma_inverse_step(
                    nn,
                    fv,
                    mont_values(self.0, f_@),
                    mont_values(self.0, nf@),
                    gv,
                    h0s,
                    hs,
                    gp,
                    mont_values(self.0, g@),
                    m as int,
                );
            }
        }
        let ghost gl = mont_values(self.0, g@);
        if g.len() > len {
            g.truncate(len);
        } else {
            while g.len() < len
                invariant
                    self.0.wf(),
                    all_below(g@, self.0.n),
                    g@.len() == len,
                    mont_values(self.0, g@) == gl,
                decreases len - g@.len(),
            {
                g.push(0);
            }
        }
        proof {
            assert forall|k: int| 0 <= k < len implies #[trigger] conv_coef(fv, mont_values(self.0, g@), k) % nn == (if k == 0 {
                1int
            } else {
                0
            }) % nn by {
                assert forall|j: int| 0 <= j <= k implies #[trigger] coef(mont_values(self.0, g@), j) == coef(gl, j) by {}
                lemma_conv_prefix_second(fv, mont_values(self.0, g@), gl, k);
            }
        }
        Ok(g)
    }

    /// The inverse modulo `X^N` for `N` coefficients, or `gcd(f[0], n)`.
    pub fn inv(&self, f: &[u128]) -> (res: Result<Vec<u128>, u128>)
        requires
            self.0.wf(),
            all_below(f@, self.0.n),
            f@.len() > 0,
            f@.len() <= usize::MAX / 4,
        ensures
            match res {
                Ok(g) => {
                    &&& spec_gcd(self.0.value(f@[0] as int) as nat, self.0.n as nat) == 1
                    &&& g@.len() == f@.len()
                    &&& all_below(g@, self.0.n)
                    &&& forall|k: int| 0 <= k < f@.len() ==> #[trigger] conv_coef(mont_values(self.0, f@), mont_values(self.0, g@), k)
                        % (self.0.n as int) == (if k == 0 { 1int } else { 0 }) % (self.0.n as int)
                },
                Err(d) => {
                    &&& spec_gcd(self.0.value(f@[0] as int) as nat, self.0.n as nat) != 1
                    &&& d == spec_gcd(self.0.value(f@[0] as int) as nat, self.0.n as nat)
                },
            },
    {
        self.inv_until(f, f.len())
    }
}
} // verus!
