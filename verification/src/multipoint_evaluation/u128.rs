//! Evaluation of one polynomial at many points, by a subproduct tree and transposed
//! multiplication.
pub mod tree_laws;

use vstd::prelude::*;
use vstd::arithmetic::power2::{lemma_pow2_pos, lemma_pow2_unfold, pow2};
use crate::arith::{radix, spec_gcd};
use crate::bits::{lemma_ceil_pow2, lemma_ceil_pow2_exp, lemma_ceil_pow2_le, lemma_usize_top_bit, next_power_of_two, usize_top_bit};
use crate::convolution::u128::{all_below, conv_coef, middle_product_arbitrary, mont_values, mp_coef, DynamicConvolution};
use crate::convolution::u128::product_laws::coef;
use crate::fps::u128::{poly_eval, DynamicFps, Fps};
use crate::modint::u128::{all_reduced, valid_modulus, values, DynamicModInt, StaticModInt};

verus! {

/// `floor(log2(i))` for `i >= 1` (`0` below `2`).
pub open spec fn lg(i: nat) -> nat
    decreases i,
{
    if i < 2 {
        0
    } else {
        1 + lg(i / 2)
    }
}

/// The children `2 i` and `2 i + 1` of node `i` lie one level deeper.
proof fn lemma_lg_children(i: nat)
    requires
        i >= 1,
    ensures
        lg(2 * i) == lg(i) + 1,
        lg(2 * i + 1) == lg(i) + 1,
{
    assert((2 * i) / 2 == i);
    assert((2 * i + 1) / 2 == i);
}

/// `lg(i) == h` on `[2^h, 2^(h+1))`.
proof fn lemma_lg_range(i: nat, h: nat)
    requires
        pow2(h) <= i < pow2(h + 1),
    ensures
        lg(i) == h,
    decreases h,
{
    lemma_pow2_unfold(h + 1);
    if h == 0 {
        vstd::arithmetic::power2::lemma2_to64();
    } else {
        lemma_pow2_unfold(h);
        lemma_lg_range(i / 2, (h - 1) as nat);
    }
}

/// `lg(i) < h` below `2^h`.
proof fn lemma_lg_below(i: nat, h: nat)
    requires
        1 <= i < pow2(h),
    ensures
        lg(i) < h,
    decreases h,
{
    if h == 0 {
        vstd::arithmetic::power2::lemma2_to64();
    } else {
        lemma_pow2_unfold(h);
        if i >= 2 {
            lemma_lg_below(i / 2, (h - 1) as nat);
        }
    }
}

/// The number of leaves under node `i` of a tree with `2^h` leaves.
pub open spec fn width(h: nat, i: nat) -> nat {
    pow2((h - lg(i)) as nat)
}

/// A node above the leaves is twice as wide as each child.
proof fn lemma_width_children(h: nat, i: nat)
    requires
        1 <= i < pow2(h),
    ensures
        width(h, i) == 2 * width(h, 2 * i),
        width(h, 2 * i) == width(h, 2 * i + 1),
        width(h, 2 * i) >= 1,
{
    lemma_lg_children(i);
    lemma_lg_below(i, h);
    lemma_pow2_unfold((h - lg(i)) as nat);
    lemma_pow2_pos((h - lg(i) - 1) as nat);
}

/// A leaf has width one.
proof fn lemma_width_leaf(h: nat, i: nat)
    requires
        pow2(h) <= i < 2 * pow2(h),
    ensures
        width(h, i) == 1,
{
    lemma_pow2_unfold(h + 1);
    lemma_lg_range(i, h);
    vstd::arithmetic::power2::lemma2_to64();
}

fn middle_product<const M: u128>(a: &Fps<StaticModInt<M>>, c: &Fps<StaticModInt<M>>) -> (b: Fps<StaticModInt<M>>)
    requires
        valid_modulus(M),
        0 < a@.len() <= c@.len(),
        all_reduced(a@),
        all_reduced(c@),
    ensures
        b@.len() == c@.len() - a@.len() + 1,
        all_reduced(b@),
        forall|i: int| 0 <= i < b@.len() ==> (#[trigger] b@[i]).value() == mp_coef(values(a@), values(c@), i) % (M as int),
{
    Fps::new(middle_product_arbitrary(a.as_slice(), c.as_slice()))
}

/// `gcd(1 mod m, m) = 1`.
proof fn lemma_gcd_unit(m: nat)
    requires
        m >= 1,
    ensures
        spec_gcd(1nat % m, m) == 1,
{
    reveal_with_fuel(spec_gcd, 3);
    if m > 1 {
        vstd::arithmetic::div_mod::lemma_small_mod(1, m);
    }
}

/// Point `k` of `points`, the padding points past its end being zero.
pub open spec fn padded_point<const M: u128>(points: Seq<StaticModInt<M>>, k: int) -> int {
    if k < points.len() {
        points[k].value()
    } else {
        0
    }
}

/// Node `i` of the tree `sp` is the product of nodes `2 i` and `2 i + 1`.
#[verifier::opaque]
spec fn is_product_node<const M: u128>(sp: Seq<Fps<StaticModInt<M>>>, i: int) -> bool {
    forall|k: int| 0 <= k < sp[i]@.len() ==> (#[trigger] sp[i]@[k]).value() == conv_coef(values(sp[2 * i]@), values(sp[2 * i + 1]@), k) % (M as int)
}

/// Multipoint evaluation for a fixed list of points, with a subproduct tree prepared once.
pub struct MultipointEvaluation<T> {
    m0: usize,
    m: usize,
    sub_prods: Vec<Fps<T>>,
    points: Ghost<Seq<T>>,
}

impl<const M: u128> MultipointEvaluation<StaticModInt<M>> {
    /// The points.
    pub closed spec fn points(&self) -> Seq<StaticModInt<M>> {
        self.points@
    }

    /// The tree is complete: `m = 2^h >= m0` leaves, leaf `m + k` is `x - p_k` (`p_k = 0`
    /// past the given points), and each node above is the product of its children, monic with
    /// `width(h, i) + 1` coefficients.
    pub closed spec fn wf(&self) -> bool {
        let h = lg(self.m as nat);
        let mm = M as int;
        &&& valid_modulus(M)
        &&& self.points@.len() == self.m0
        &&& all_reduced(self.points@)
        &&& self.m == pow2(h)
        &&& self.m0 <= self.m <= usize_top_bit() / 2
        &&& self.sub_prods@.len() == 2 * self.m
        &&& forall|i: int| 1 <= i < 2 * self.m ==> (#[trigger] self.sub_prods@[i])@.len() == width(h, i as nat) + 1
        &&& forall|i: int| 1 <= i < 2 * self.m ==> all_reduced((#[trigger] self.sub_prods@[i])@)
        &&& forall|i: int| 1 <= i < 2 * self.m ==> (#[trigger] self.sub_prods@[i])@[width(h, i as nat) as int].value() == 1int % mm
        &&& forall|j: int| self.m <= j < 2 * self.m ==> (#[trigger] self.sub_prods@[j])@[0].value() == (0 - padded_point(self.points@, j - self.m)) % mm
        &&& forall|i: int| 1 <= i < self.m ==> #[trigger] is_product_node(self.sub_prods@, i)
    }

    /// Builds the subproduct tree of `points`: `m` leaves for the power of two `m` at least
    /// the number of points, and `2 m` nodes, a count that must fit a `usize`.
    pub fn new(points: Vec<StaticModInt<M>>) -> (r: Self)
        requires
            valid_modulus(M),
            all_reduced(points@),
            points@.len() <= usize_top_bit() / 2,
        ensures
            r.wf(),
            r.points() == points@,
    {
        let ghost mm = M as int;
        let m0 = points.len();
        let m = next_power_of_two(m0);
        let ghost h = lemma_ceil_pow2_exp(m0 as nat);
        proof {
            lemma_ceil_pow2(m0 as nat);
            lemma_pow2_unfold(h + 1);
            lemma_pow2_pos(h);
            lemma_lg_range(m as nat, h);
            vstd::arithmetic::power2::lemma2_to64();
            let t = lemma_usize_top_bit();
            lemma_pow2_unfold(t);
            lemma_ceil_pow2_le(m0 as nat, (t - 1) as nat);
        }
        let one = StaticModInt::<M>::new(1);
        let zero = StaticModInt::<M>::new(0);
        let mut sub_prods: Vec<Fps<StaticModInt<M>>> = Vec::new();
        let mut k: usize = 0;
        while k < m
            invariant
                k <= m,
                sub_prods@.len() == k,
            decreases m - k,
        {
            sub_prods.push(Fps::new(Vec::new()));
            k += 1;
        }
        let mut k: usize = 0;
        while k < m
            invariant
                valid_modulus(M),
                mm == M as int,
                all_reduced(points@),
                points@.len() == m0,
                m == pow2(h),
                m0 <= m <= usize_top_bit() / 2,
                one.rep() < M,
                zero.rep() < M,
                one.value() == 1int % mm,
                zero.value() == 0,
                k <= m,
                sub_prods@.len() == m + k,
                forall|i: int| m <= i < m + k ==> (#[trigger] sub_prods@[i])@.len() == 2,
                forall|i: int| m <= i < m + k ==> all_reduced((#[trigger] sub_prods@[i])@),
                forall|i: int| m <= i < m + k ==> (#[trigger] sub_prods@[i])@[0].value() == (0 - padded_point(points@, i - m)) % mm,
                forall|i: int| m <= i < m + k ==> (#[trigger] sub_prods@[i])@[1].value() == 1int % mm,
            decreases m - k,
        {
            let p = if k < m0 {
                proof {
                    assert(points@[k as int].rep() < M);
                }
                points[k]
            } else {
                zero
            };
            assert(p.value() == padded_point(points@, k as int));
            let leaf = Fps::new(vec![p.neg(), one]);
            proof {
                assert(all_reduced(leaf@));
            }
            sub_prods.push(leaf);
            k += 1;
        }
        proof {
            assert forall|j: int| m <= j < 2 * m implies (#[trigger] sub_prods@[j])@.len() == width(h, j as nat) + 1 by {
                lemma_width_leaf(h, j as nat);
            }
        }
        let mut i = m;
        while i > 1
            invariant
                valid_modulus(M),
                mm == M as int,
                m == pow2(h),
                m <= usize_top_bit() / 2,
                1 <= i <= m,
                sub_prods@.len() == 2 * m,
                forall|j: int| i <= j < 2 * m ==> (#[trigger] sub_prods@[j])@.len() == width(h, j as nat) + 1,
                forall|j: int| i <= j < 2 * m ==> all_reduced((#[trigger] sub_prods@[j])@),
                forall|j: int| i <= j < 2 * m ==> (#[trigger] sub_prods@[j])@[width(h, j as nat) as int].value() == 1int % mm,
                forall|j: int| m <= j < 2 * m ==> (#[trigger] sub_prods@[j])@[0].value() == (0 - padded_point(points@, j - m)) % mm,
                forall|j: int| i <= j < m ==> #[trigger] is_product_node(sub_prods@, j),
            decreases i,
        {
            i -= 1;
            proof {
                lemma_width_children(h, i as nat);
                if 2 * i >= m {
                    lemma_width_leaf(h, (2 * i) as nat);
                    lemma_width_leaf(h, (2 * i + 1) as nat);
                }
                assert(width(h, i as nat) <= m) by {
                    lemma_lg_below(i as nat, h);
                    if lg(i as nat) > 0 {
                        vstd::arithmetic::power2::lemma_pow2_strictly_increases((h - lg(i as nat)) as nat, h);
                    }
                }
            }
            let ghost vl = values(sub_prods@[2 * i as int]@);
            let ghost vr = values(sub_prods@[2 * i + 1]@);
            let prod = sub_prods[2 * i].mul(&sub_prods[2 * i + 1]);
            proof {
                let wl = width(h, (2 * i) as nat) as int;
                let wr = width(h, (2 * i + 1) as nat) as int;
                tree_laws::lemma_conv_top(vl, vr);
                assert(vl[wl] == 1int % mm);
                assert(vr[wr] == 1int % mm);
                vstd::arithmetic::div_mod::lemma_mul_mod_noop(1, 1, mm);
                assert(prod@[wl + wr].value() == 1int % mm);
            }
            let ghost before = sub_prods@;
            sub_prods.set(i, prod);
            proof {
                reveal(is_product_node);
                assert(is_product_node(sub_prods@, i as int));
                assert forall|j: int| i < j < m implies #[trigger] is_product_node(sub_prods@, j) by {
                    assert(is_product_node(before, j));
                    assert(sub_prods@[j] == before[j]);
                    assert(sub_prods@[2 * j] == before[2 * j]);
                    assert(sub_prods@[2 * j + 1] == before[2 * j + 1]);
                }
            }
        }
        proof {
            assert forall|j: int| 1 <= j < 2 * m implies (#[trigger] sub_prods@[j])@.len() == width(h, j as nat) + 1 by {
                if j >= m {
                    lemma_width_leaf(h, j as nat);
                }
            }
        }
        Self { m0, m, sub_prods, points: Ghost(points@) }
    }

    /// Node `i` above the leaves is the product of its two monic children.
    proof fn lemma_node(&self, i: int)
        requires
            self.wf(),
            1 <= i < self.m,
        ensures
            values(self.sub_prods@[i]@).len() == values(self.sub_prods@[2 * i]@).len() + values(self.sub_prods@[2 * i + 1]@).len() - 1,
            values(self.sub_prods@[2 * i]@).len() >= 2,
            values(self.sub_prods@[2 * i + 1]@).len() >= 2,
            values(self.sub_prods@[2 * i]@)[values(self.sub_prods@[2 * i]@).len() - 1] == 1int % (M as int),
            values(self.sub_prods@[2 * i + 1]@)[values(self.sub_prods@[2 * i + 1]@).len() - 1] == 1int % (M as int),
            forall|k: int| 0 <= k < values(self.sub_prods@[i]@).len() ==> #[trigger] values(self.sub_prods@[i]@)[k] == conv_coef(
                values(self.sub_prods@[2 * i]@),
                values(self.sub_prods@[2 * i + 1]@),
                k,
            ) % (M as int),
    {
        let h = lg(self.m as nat);
        lemma_width_children(h, i as nat);
        assert(self.sub_prods@[2 * i]@[width(h, (2 * i) as nat) as int].value() == 1int % (M as int));
        assert(self.sub_prods@[2 * i + 1]@[width(h, (2 * i + 1) as nat) as int].value() == 1int % (M as int));
        assert(is_product_node(self.sub_prods@, i));
        reveal(is_product_node);
        assert forall|k: int| 0 <= k < values(self.sub_prods@[i]@).len() implies #[trigger] values(self.sub_prods@[i]@)[k] == conv_coef(
            values(self.sub_prods@[2 * i]@),
            values(self.sub_prods@[2 * i + 1]@),
            k,
        ) % (M as int) by {
            assert(self.sub_prods@[i]@[k].value() == conv_coef(values(self.sub_prods@[2 * i]@), values(self.sub_prods@[2 * i + 1]@), k) % (M as int));
        }
    }

    /// The root's entries: the middle product of the inverse `g` of the reversed root with `f`
    /// (padded), read backwards.
    proof fn lemma_root(
        &self,
        f: Seq<StaticModInt<M>>,
        rt: Seq<StaticModInt<M>>,
        g: Seq<StaticModInt<M>>,
        fp: Seq<StaticModInt<M>>,
        mpr: Seq<StaticModInt<M>>,
        f0: Seq<StaticModInt<M>>,
    )
        requires
            self.wf(),
            f.len() >= 1,
            rt == self.sub_prods@[1]@.reverse(),
            g.len() == f.len(),
            forall|k: int| 0 <= k < f.len() ==> #[trigger] conv_coef(values(rt), values(g), k) % (M as int) == (if k == 0 {
                1int
            } else {
                0
            }) % (M as int),
            fp == crate::fps::u128::prefix_spec(f, self.m + f.len() - 1, StaticModInt::<M>::from_rep(0)),
            mpr.len() == fp.len() - g.len() + 1,
            forall|i: int| 0 <= i < mpr.len() ==> (#[trigger] mpr[i]).value() == mp_coef(values(g), values(fp), i) % (M as int),
            f0 == mpr.reverse(),
        ensures
            tree_laws::node_ok(
                M as int,
                values(f),
                values(self.sub_prods@[1]@),
                Seq::new((self.m - 1) as nat, |i: int| 0int) + values(g),
                values(f0),
            ),
    {
        let mm = M as int;
        let h = lg(self.m as nat);
        let fv = values(f);
        let t = values(self.sub_prods@[1]@);
        let rtv = values(rt);
        let gv = values(g);
        let fpv = values(fp);
        let d = values(f0);
        vstd::arithmetic::power2::lemma2_to64();
        assert(lg(1) == 0);
        assert(t.len() == self.m + 1);
        StaticModInt::<M>::lemma_from_rep(0);
        assert forall|x: int| 0 <= x < fpv.len() implies #[trigger] fpv[x] == coef(fv, x) by {}
        assert forall|j: int| 0 <= j < d.len() implies #[trigger] d[j] % mm == mp_coef(gv, fpv, d.len() - 1 - j) % mm by {
            assert(f0[j] == mpr[mpr.len() - 1 - j]);
            vstd::arithmetic::div_mod::lemma_mod_twice(mp_coef(gv, fpv, d.len() - 1 - j), mm);
        }
        assert forall|i: int| 0 <= i < t.len() implies #[trigger] rtv[i] == t[t.len() - 1 - i] by {}
        assert(self.sub_prods@[1]@[width(h, 1) as int].value() == 1int % mm);
        assert(t[t.len() - 1] % mm == 1int % mm) by {
            vstd::arithmetic::div_mod::lemma_mod_twice(1, mm);
        }
        tree_laws::lemma_root_ok(mm, fv, t, rtv, gv, fpv, d);
    }

    /// The root's entries for `f` (with `n >= 1` coefficients): the remainder of `f` modulo
    /// the root product, as the coefficients of `x^(-1), ..., x^(-m)` in `f / T_1`.
    fn root_entries(&self, f: &Fps<StaticModInt<M>>) -> (r: (Fps<StaticModInt<M>>, Ghost<Seq<int>>))
        requires
            self.wf(),
            all_reduced(f@),
            1 <= f@.len() <= usize::MAX / 8,
        ensures
            r.0@.len() == self.m,
            all_reduced(r.0@),
            tree_laws::node_ok(M as int, values(f@), values(self.sub_prods@[1]@), r.1@, values(r.0@)),
    {
        let m = self.m;
        let n = f.len();
        let ghost h = lg(m as nat);
        let ghost mm = M as int;
        proof {
            vstd::arithmetic::power2::lemma2_to64();
            assert(self.sub_prods@[1]@.len() == width(h, 1) + 1);
            assert(lg(1) == 0);
        }
        let r_t1 = self.sub_prods[1].reversed();
        proof {
            assert(r_t1@[0] == self.sub_prods@[1]@[m as int]);
            assert(r_t1@[0].rep() < M);
            assert(r_t1@[0].value() == 1int % mm);
            lemma_gcd_unit(M as nat);
        }
        let inv_rt1 = r_t1.inv_until(n);
        let fp = f.prefix(m + n - 1);
        let mut f0 = middle_product(&inv_rt1, &fp);
        let ghost mpr = f0@;
        f0.reverse();
        proof {
            assert(all_reduced(f0@)) by {
                assert forall|k: int| 0 <= k < f0@.len() implies (#[trigger] f0@[k]).rep() < M by {}
            }
            self.lemma_root(f@, r_t1@, inv_rt1@, fp@, mpr, f0@);
        }
        (f0, Ghost(Seq::new((m - 1) as nat, |i: int| 0int) + values(inv_rt1@)))
    }

    /// The entries of every node, each child's from its parent's by a middle product with the
    /// sibling.
    fn push_down(&self, fv: Ghost<Seq<int>>, f0: Fps<StaticModInt<M>>, s1: Ghost<Seq<int>>) -> (r: (
        Vec<Fps<StaticModInt<M>>>,
        Ghost<Seq<Seq<int>>>,
    ))
        requires
            self.wf(),
            fv@.len() >= 1,
            f0@.len() == self.m,
            all_reduced(f0@),
            tree_laws::node_ok(M as int, fv@, values(self.sub_prods@[1]@), s1@, values(f0@)),
        ensures
            r.0@.len() == 2 * self.m,
            r.1@.len() == 2 * self.m,
            forall|j: int| 1 <= j < 2 * self.m ==> (#[trigger] r.0@[j])@.len() == width(lg(self.m as nat), j as nat),
            forall|j: int| 1 <= j < 2 * self.m ==> all_reduced((#[trigger] r.0@[j])@),
            forall|j: int| 1 <= j < 2 * self.m ==> tree_laws::node_ok(M as int, fv@, values(self.sub_prods@[j]@), #[trigger] r.1@[j], values(r.0@[j]@)),
    {
        let m = self.m;
        let ghost h = lg(m as nat);
        let ghost mm = M as int;
        let mut dp: Vec<Fps<StaticModInt<M>>> = Vec::new();
        while dp.len() < 2 * m
            invariant
                dp@.len() <= 2 * m,
                m <= usize_top_bit() / 2,
                forall|j: int| 0 <= j < dp@.len() ==> (#[trigger] dp@[j])@.len() == 0,
            decreases 2 * m - dp@.len(),
        {
            dp.push(Fps::new(Vec::new()));
        }
        let ghost mut ss: Seq<Seq<int>> = Seq::new((2 * m) as nat, |j: int| s1@);
        proof {
            vstd::arithmetic::power2::lemma2_to64();
            assert(lg(1) == 0);
        }
        dp.set(1, f0);
        let mut i: usize = 1;
        while i < m
            invariant
                self.wf(),
                h == lg(m as nat),
                mm == M as int,
                m == self.m,
                m == pow2(h),
                1 <= i <= m,
                fv@.len() >= 1,
                dp@.len() == 2 * m,
                ss.len() == 2 * m,
                forall|j: int| 1 <= j < 2 * i ==> (#[trigger] dp@[j])@.len() == width(h, j as nat),
                forall|j: int| 1 <= j < 2 * i ==> all_reduced((#[trigger] dp@[j])@),
                forall|j: int| 2 * i <= j < 2 * m ==> (#[trigger] dp@[j])@.len() == 0,
                forall|j: int| 1 <= j < 2 * i ==> tree_laws::node_ok(mm, fv@, values(self.sub_prods@[j]@), #[trigger] ss[j], values(dp@[j]@)),
            decreases m - i,
        {
            proof {
                lemma_width_children(h, i as nat);
                assert(self.sub_prods@[2 * i + 1]@.len() == width(h, (2 * i + 1) as nat) + 1);
                assert(self.sub_prods@[2 * i as int]@.len() == width(h, (2 * i) as nat) + 1);
                assert(dp@[i as int]@.len() == width(h, i as nat));
            }
            let g1 = middle_product(&self.sub_prods[2 * i + 1], &dp[i]);
            let g0 = middle_product(&self.sub_prods[2 * i], &dp[i]);
            let ghost tl = values(self.sub_prods@[2 * i as int]@);
            let ghost tr = values(self.sub_prods@[2 * i + 1]@);
            proof {
                self.lemma_node(i as int);
                let d = values(dp@[i as int]@);
                assert(tree_laws::node_ok(mm, fv@, values(self.sub_prods@[i as int]@), ss[i as int], d));
                tree_laws::lemma_children_ok(mm, fv@, values(self.sub_prods@[i as int]@), tl, tr, ss[i as int], d, values(g1@), values(g0@));
            }
            dp.set(2 * i, g1);
            dp.set(2 * i + 1, g0);
            proof {
                let si = ss[i as int];
                ss = ss.update(2 * i as int, tree_laws::mp_seq(tr, si)).update(2 * i + 1, tree_laws::mp_seq(tl, si));
            }
            i += 1;
        }
        (dp, Ghost(ss))
    }

    /// The values of `f` at the points: the remainder of `f` modulo the root product, pushed
    /// down the tree by transposed multiplications.
    pub fn eval(&self, f: &Fps<StaticModInt<M>>) -> (r: Vec<StaticModInt<M>>)
        requires
            self.wf(),
            all_reduced(f@),
            f@.len() <= usize::MAX / 8,
        ensures
            r@.len() == self.points().len(),
            all_reduced(r@),
            forall|k: int| 0 <= k < r@.len() ==> (#[trigger] r@[k]).value() == poly_eval(values(f@), self.points()[k].value())
                % (M as int),
    {
        let m0 = self.m0;
        let m = self.m;
        let ghost h = lg(m as nat);
        let ghost mm = M as int;
        let ghost fv = values(f@);
        let n = f.len();
        if m0 == 0 {
            return Vec::new();
        }
        if n == 0 {
            let zero = StaticModInt::<M>::new(0);
            let mut r: Vec<StaticModInt<M>> = Vec::new();
            while r.len() < m0
                invariant
                    zero.rep() < M,
                    zero.value() == 0,
                    fv.len() == 0,
                    mm == M as int,
                    r@.len() <= m0,
                    all_reduced(r@),
                    forall|k: int| 0 <= k < r@.len() ==> (#[trigger] r@[k]).value() == poly_eval(fv, self.points()[k].value()) % mm,
                decreases m0 - r@.len(),
            {
                proof {
                    vstd::arithmetic::div_mod::lemma_small_mod(0, M as nat);
                    assert forall|x: int| poly_eval(fv, x) == 0 by {}
                    assert(0int % mm == 0);
                }
                r.push(zero);
            }
            return r;
        }
        let (f0, s1) = self.root_entries(f);
        let (dp, ss) = self.push_down(Ghost(fv), f0, s1);
        let ghost ss = ss@;
        let mut r: Vec<StaticModInt<M>> = Vec::new();
        let mut k: usize = 0;
        while k < m0
            invariant
                self.wf(),
                h == lg(m as nat),
                mm == M as int,
                m == pow2(h),
                m == self.m,
                m0 == self.m0,
                m0 <= m,
                fv == values(f@),
                fv.len() >= 1,
                dp@.len() == 2 * m,
                ss.len() == 2 * m,
                forall|j: int| 1 <= j < 2 * m ==> (#[trigger] dp@[j])@.len() == width(h, j as nat),
                forall|j: int| 1 <= j < 2 * m ==> all_reduced((#[trigger] dp@[j])@),
                forall|j: int| 1 <= j < 2 * m ==> tree_laws::node_ok(mm, fv, values(self.sub_prods@[j]@), #[trigger] ss[j], values(dp@[j]@)),
                k <= m0,
                r@.len() == k,
                all_reduced(r@),
                forall|j: int| 0 <= j < k ==> (#[trigger] r@[j]).value() == poly_eval(fv, self.points()[j].value()) % mm,
            decreases m0 - k,
        {
            proof {
                let j = (m + k) as int;
                lemma_width_leaf(h, j as nat);
                assert(dp@[j]@.len() == 1);
                assert(dp@[j]@[0].rep() < M);
                let t = values(self.sub_prods@[j]@);
                let p = self.points@[k as int].value();
                assert(self.sub_prods@[j]@[0].value() == (0 - padded_point(self.points@, j - m)) % mm);
                assert(padded_point(self.points@, j - m) == p);
                vstd::arithmetic::div_mod::lemma_mod_twice(0 - p, mm);
                tree_laws::lemma_leaf_value(mm, fv, t, ss[j], values(dp@[j]@), p);
                crate::arith::lemma_redc_mod(mm, dp@[j]@[0].rep() as int);
                vstd::arithmetic::div_mod::lemma_small_mod(dp@[j]@[0].value() as nat, M as nat);
            }
            r.push(dp[m + k].as_slice()[0]);
            k += 1;
        }
        r
    }
}

/// The residue of a Montgomery form `0`, and of its negation, is zero; `one()` is one.
proof fn lemma_mont_basics(mo: DynamicModInt)
    requires
        mo.wf(),
    ensures
        mo.value(0) == 0,
        mo.value(radix() % (mo.n as int)) == 1int % (mo.n as int),
{
    let n = mo.n as int;
    vstd::arithmetic::mul::lemma_mul_basics(crate::arith::r_inv(n));
    vstd::arithmetic::div_mod::lemma_small_mod(0, n as nat);
    vstd::arithmetic::mul::lemma_mul_basics(radix());
    crate::arith::lemma_value_of_repr(n, 1);
}

/// The residue of `mo.neg(rx)` is minus that of `rx`.
proof fn lemma_mont_neg(mo: DynamicModInt, rx: int, r: int)
    requires
        mo.wf(),
        r % (mo.n as int) == (0 - rx) % (mo.n as int),
    ensures
        mo.value(r) == (0 - mo.value(rx)) % (mo.n as int),
{
    let n = mo.n as int;
    lemma_mont_basics(mo);
    crate::arith::lemma_redc_mod(n, r);
    crate::arith::lemma_redc_mod(n, 0 - rx);
    crate::arith::lemma_redc_sub(n, 0, rx);
}

/// Point `k`, the padding points past the given ones being zero.
pub open spec fn padded_value(points: Seq<int>, k: int) -> int {
    if k < points.len() {
        points[k]
    } else {
        0
    }
}

/// Node `i` of the tree `sp` is the product of nodes `2 i` and `2 i + 1`, modulo `mo.n`.
#[verifier::opaque]
spec fn is_dyn_product_node(mo: DynamicModInt, sp: Seq<Vec<u128>>, i: int) -> bool {
    forall|k: int| 0 <= k < sp[i]@.len() ==> mo.value((#[trigger] sp[i]@[k]) as int) == conv_coef(
        mont_values(mo, sp[2 * i]@),
        mont_values(mo, sp[2 * i + 1]@),
        k,
    ) % (mo.n as int)
}

/// Multipoint evaluation for a fixed list of points modulo a run-time modulus, with a subproduct
/// tree prepared once.
pub struct DynamicMultipointEvaluation {
    df: DynamicFps,
    m0: usize,
    m: usize,
    sub_prods: Vec<Vec<u128>>,
    points: Ghost<Seq<int>>,
}

impl DynamicMultipointEvaluation {
    /// The modulus.
    pub closed spec fn modulus(&self) -> DynamicModInt {
        self.df.0
    }

    /// The number of points.
    pub closed spec fn num_points(&self) -> nat {
        self.m0 as nat
    }

    /// The points, as residues.
    pub closed spec fn point_values(&self) -> Seq<int> {
        self.points@
    }

    /// The tree is complete, as for `MultipointEvaluation`, in Montgomery form.
    pub closed spec fn wf(&self) -> bool {
        let h = lg(self.m as nat);
        let mo = self.df.0;
        let n = mo.n as int;
        &&& mo.wf()
        &&& self.points@.len() == self.m0
        &&& self.m == pow2(h)
        &&& self.m0 <= self.m <= usize_top_bit() / 2
        &&& self.sub_prods@.len() == 2 * self.m
        &&& forall|i: int| 1 <= i < 2 * self.m ==> (#[trigger] self.sub_prods@[i])@.len() == width(h, i as nat) + 1
        &&& forall|i: int| 1 <= i < 2 * self.m ==> all_below((#[trigger] self.sub_prods@[i])@, mo.n)
        &&& forall|i: int| 1 <= i < 2 * self.m ==> mo.value((#[trigger] self.sub_prods@[i])@[width(h, i as nat) as int] as int) == 1int % n
        &&& forall|j: int| self.m <= j < 2 * self.m ==> mo.value((#[trigger] self.sub_prods@[j])@[0] as int) == (0 - padded_value(self.points@, j - self.m)) % n
        &&& forall|i: int| 1 <= i < self.m ==> #[trigger] is_dyn_product_node(mo, self.sub_prods@, i)
    }

    /// Builds the subproduct tree of `points` (in Montgomery form): `m` leaves for the power of
    /// two `m` at least the number of points, and `2 m` nodes, a count that must fit a `usize`.
    pub fn new(mo: DynamicModInt, points: Vec<u128>) -> (r: Self)
        requires
            mo.wf(),
            all_below(points@, mo.n),
            points@.len() <= usize_top_bit() / 2,
        ensures
            r.wf(),
            r.modulus() == mo,
            r.num_points() == points@.len(),
            r.point_values() == mont_values(mo, points@),
    {
        let ghost n = mo.n as int;
        let ghost pv = mont_values(mo, points@);
        let m0 = points.len();
        let m = next_power_of_two(m0);
        let ghost h = lemma_ceil_pow2_exp(m0 as nat);
        proof {
            lemma_ceil_pow2(m0 as nat);
            lemma_pow2_unfold(h + 1);
            lemma_pow2_pos(h);
            lemma_lg_range(m as nat, h);
            vstd::arithmetic::power2::lemma2_to64();
            let t = lemma_usize_top_bit();
            lemma_pow2_unfold(t);
            lemma_ceil_pow2_le(m0 as nat, (t - 1) as nat);
            lemma_mont_basics(mo);
        }
        let mut sub_prods: Vec<Vec<u128>> = Vec::new();
        let mut k: usize = 0;
        while k < m
            invariant
                k <= m,
                sub_prods@.len() == k,
            decreases m - k,
        {
            sub_prods.push(Vec::new());
            k += 1;
        }
        let mut k: usize = 0;
        while k < m
            invariant
                mo.wf(),
                n == mo.n as int,
                pv == mont_values(mo, points@),
                mo.value(0) == 0,
                mo.value(radix() % (mo.n as int)) == 1int % n,
                all_below(points@, mo.n),
                points@.len() == m0,
                m == pow2(h),
                m0 <= m <= usize_top_bit() / 2,
                k <= m,
                sub_prods@.len() == m + k,
                forall|i: int| m <= i < m + k ==> (#[trigger] sub_prods@[i])@.len() == 2,
                forall|i: int| m <= i < m + k ==> all_below((#[trigger] sub_prods@[i])@, mo.n),
                forall|i: int| m <= i < m + k ==> mo.value((#[trigger] sub_prods@[i])@[0] as int) == (0 - padded_value(pv, i - m)) % n,
                forall|i: int| m <= i < m + k ==> mo.value((#[trigger] sub_prods@[i])@[1] as int) == 1int % n,
            decreases m - k,
        {
            let p = if k < m0 {
                points[k]
            } else {
                0
            };
            assert(mo.value(p as int) == padded_value(pv, k as int));
            let np = mo.neg(p);
            proof {
                lemma_mont_neg(mo, p as int, np as int);
            }
            let leaf = vec![np, mo.one()];
            proof {
                assert(all_below(leaf@, mo.n));
            }
            sub_prods.push(leaf);
            k += 1;
        }
        let df = DynamicFps::new(mo);
        proof {
            assert forall|j: int| m <= j < 2 * m implies (#[trigger] sub_prods@[j])@.len() == width(h, j as nat) + 1 by {
                lemma_width_leaf(h, j as nat);
            }
        }
        let mut i = m;
        while i > 1
            invariant
                mo.wf(),
                n == mo.n as int,
                df.0 == mo,
                m == pow2(h),
                m <= usize_top_bit() / 2,
                1 <= i <= m,
                sub_prods@.len() == 2 * m,
                forall|j: int| i <= j < 2 * m ==> (#[trigger] sub_prods@[j])@.len() == width(h, j as nat) + 1,
                forall|j: int| i <= j < 2 * m ==> all_below((#[trigger] sub_prods@[j])@, mo.n),
                forall|j: int| i <= j < 2 * m ==> mo.value((#[trigger] sub_prods@[j])@[width(h, j as nat) as int] as int) == 1int % n,
                forall|j: int| m <= j < 2 * m ==> mo.value((#[trigger] sub_prods@[j])@[0] as int) == (0 - padded_value(pv, j - m)) % n,
                forall|j: int| i <= j < m ==> #[trigger] is_dyn_product_node(mo, sub_prods@, j),
            decreases i,
        {
            i -= 1;
            proof {
                lemma_width_children(h, i as nat);
                if 2 * i >= m {
                    lemma_width_leaf(h, (2 * i) as nat);
                    lemma_width_leaf(h, (2 * i + 1) as nat);
                }
                assert(width(h, i as nat) <= m) by {
                    lemma_lg_below(i as nat, h);
                    if lg(i as nat) > 0 {
                        vstd::arithmetic::power2::lemma_pow2_strictly_increases((h - lg(i as nat)) as nat, h);
                    }
                }
            }
            let ghost vl = mont_values(mo, sub_prods@[2 * i as int]@);
            let ghost vr = mont_values(mo, sub_prods@[2 * i + 1]@);
            let prod = df.mul(sub_prods[2 * i].as_slice(), sub_prods[2 * i + 1].as_slice());
            proof {
                let wl = width(h, (2 * i) as nat) as int;
                let wr = width(h, (2 * i + 1) as nat) as int;
                tree_laws::lemma_conv_top(vl, vr);
                assert(vl[wl] == 1int % n);
                assert(vr[wr] == 1int % n);
                vstd::arithmetic::div_mod::lemma_mul_mod_noop(1, 1, n);
                assert(mo.value(prod@[wl + wr] as int) == 1int % n);
            }
            let ghost before = sub_prods@;
            sub_prods.set(i, prod);
            proof {
                reveal(is_dyn_product_node);
                assert(is_dyn_product_node(mo, sub_prods@, i as int));
                assert forall|j: int| i < j < m implies #[trigger] is_dyn_product_node(mo, sub_prods@, j) by {
                    assert(is_dyn_product_node(mo, before, j));
                    assert(sub_prods@[j] == before[j]);
                    assert(sub_prods@[2 * j] == before[2 * j]);
                    assert(sub_prods@[2 * j + 1] == before[2 * j + 1]);
                }
            }
        }
        proof {
            assert forall|j: int| 1 <= j < 2 * m implies (#[trigger] sub_prods@[j])@.len() == width(h, j as nat) + 1 by {
                if j >= m {
                    lemma_width_leaf(h, j as nat);
                }
            }
        }
        Self { df, m0, m, sub_prods, points: Ghost(pv) }
    }

    /// Node `i` above the leaves is the product of its two monic children.
    proof fn lemma_node(&self, i: int)
        requires
            self.wf(),
            1 <= i < self.m,
        ensures
            mont_values(self.df.0, self.sub_prods@[i]@).len() == mont_values(self.df.0, self.sub_prods@[2 * i]@).len() + mont_values(
                self.df.0,
                self.sub_prods@[2 * i + 1]@,
            ).len() - 1,
            mont_values(self.df.0, self.sub_prods@[2 * i]@).len() >= 2,
            mont_values(self.df.0, self.sub_prods@[2 * i + 1]@).len() >= 2,
            mont_values(self.df.0, self.sub_prods@[2 * i]@)[mont_values(self.df.0, self.sub_prods@[2 * i]@).len() - 1] == 1int % (
            self.df.0.n as int),
            mont_values(self.df.0, self.sub_prods@[2 * i + 1]@)[mont_values(self.df.0, self.sub_prods@[2 * i + 1]@).len() - 1] == 1int
                % (self.df.0.n as int),
            forall|k: int| 0 <= k < mont_values(self.df.0, self.sub_prods@[i]@).len() ==> #[trigger] mont_values(
                self.df.0,
                self.sub_prods@[i]@,
            )[k] == conv_coef(mont_values(self.df.0, self.sub_prods@[2 * i]@), mont_values(self.df.0, self.sub_prods@[2 * i + 1]@), k)
                % (self.df.0.n as int),
    {
        let h = lg(self.m as nat);
        let mo = self.df.0;
        lemma_width_children(h, i as nat);
        assert(mo.value(self.sub_prods@[2 * i]@[width(h, (2 * i) as nat) as int] as int) == 1int % (mo.n as int));
        assert(mo.value(self.sub_prods@[2 * i + 1]@[width(h, (2 * i + 1) as nat) as int] as int) == 1int % (mo.n as int));
        assert(is_dyn_product_node(mo, self.sub_prods@, i));
        reveal(is_dyn_product_node);
        assert forall|k: int| 0 <= k < mont_values(mo, self.sub_prods@[i]@).len() implies #[trigger] mont_values(mo, self.sub_prods@[i]@)[k]
            == conv_coef(mont_values(mo, self.sub_prods@[2 * i]@), mont_values(mo, self.sub_prods@[2 * i + 1]@), k) % (mo.n as int) by {
            assert(mo.value(self.sub_prods@[i]@[k] as int) == conv_coef(
                mont_values(mo, self.sub_prods@[2 * i]@),
                mont_values(mo, self.sub_prods@[2 * i + 1]@),
                k,
            ) % (mo.n as int));
        }
    }

    /// The root's entries: the middle product of the inverse `g` of the reversed root with `f`
    /// (padded), read backwards.
    proof fn lemma_root(&self, f: Seq<u128>, rt: Seq<u128>, g: Seq<u128>, fp: Seq<u128>, mpr: Seq<u128>, f0: Seq<u128>)
        requires
            self.wf(),
            f.len() >= 1,
            rt == self.sub_prods@[1]@.reverse(),
            g.len() == f.len(),
            forall|k: int| 0 <= k < f.len() ==> #[trigger] conv_coef(mont_values(self.df.0, rt), mont_values(self.df.0, g), k) % (
            self.df.0.n as int) == (if k == 0 { 1int } else { 0 }) % (self.df.0.n as int),
            fp == crate::fps::u128::prefix_spec(f, self.m + f.len() - 1, 0u128),
            mpr.len() == fp.len() - g.len() + 1,
            forall|i: int| 0 <= i < mpr.len() ==> self.df.0.value((#[trigger] mpr[i]) as int) == mp_coef(
                mont_values(self.df.0, g),
                mont_values(self.df.0, fp),
                i,
            ) % (self.df.0.n as int),
            f0 == mpr.reverse(),
        ensures
            tree_laws::node_ok(
                self.df.0.n as int,
                mont_values(self.df.0, f),
                mont_values(self.df.0, self.sub_prods@[1]@),
                Seq::new((self.m - 1) as nat, |i: int| 0int) + mont_values(self.df.0, g),
                mont_values(self.df.0, f0),
            ),
    {
        let mo = self.df.0;
        let mm = mo.n as int;
        let h = lg(self.m as nat);
        let fv = mont_values(mo, f);
        let t = mont_values(mo, self.sub_prods@[1]@);
        let rtv = mont_values(mo, rt);
        let gv = mont_values(mo, g);
        let fpv = mont_values(mo, fp);
        let d = mont_values(mo, f0);
        vstd::arithmetic::power2::lemma2_to64();
        assert(lg(1) == 0);
        assert(t.len() == self.m + 1);
        lemma_mont_basics(mo);
        assert forall|x: int| 0 <= x < fpv.len() implies #[trigger] fpv[x] == coef(fv, x) by {}
        assert forall|j: int| 0 <= j < d.len() implies #[trigger] d[j] % mm == mp_coef(gv, fpv, d.len() - 1 - j) % mm by {
            assert(f0[j] == mpr[mpr.len() - 1 - j]);
            vstd::arithmetic::div_mod::lemma_mod_twice(mp_coef(gv, fpv, d.len() - 1 - j), mm);
        }
        assert forall|i: int| 0 <= i < t.len() implies #[trigger] rtv[i] == t[t.len() - 1 - i] by {}
        assert(mo.value(self.sub_prods@[1]@[width(h, 1) as int] as int) == 1int % mm);
        assert(t[t.len() - 1] % mm == 1int % mm) by {
            vstd::arithmetic::div_mod::lemma_mod_twice(1, mm);
        }
        tree_laws::lemma_root_ok(mm, fv, t, rtv, gv, fpv, d);
    }

    /// The root's entries for `f` (with `n >= 1` coefficients).
    fn root_entries(&self, f: &[u128]) -> (r: (Vec<u128>, Ghost<Seq<int>>))
        requires
            self.wf(),
            all_below(f@, self.df.0.n),
            1 <= f@.len() <= usize::MAX / 8,
        ensures
            r.0@.len() == self.m,
            all_below(r.0@, self.df.0.n),
            tree_laws::node_ok(self.df.0.n as int, mont_values(self.df.0, f@), mont_values(self.df.0, self.sub_prods@[1]@), r.1@, mont_values(self.df.0, r.0@)),
    {
        let m = self.m;
        let n = f.len();
        let mo = self.df.0;
        let ghost h = lg(m as nat);
        let ghost mm = mo.n as int;
        proof {
            vstd::arithmetic::power2::lemma2_to64();
            assert(self.sub_prods@[1]@.len() == width(h, 1) + 1);
            assert(lg(1) == 0);
        }
        let t1 = self.df.prefix(self.sub_prods[1].as_slice(), m + 1);
        proof {
            assert(t1@ =~= self.sub_prods@[1]@);
        }
        let mut t1f = Fps::new(t1);
        t1f.reverse();
        let t1r = t1f.as_slice();
        proof {
            assert(all_below(t1r@, mo.n)) by {
                assert forall|k: int| 0 <= k < t1r@.len() implies #[trigger] t1r@[k] < mo.n by {
                    assert(t1r@[k] == self.sub_prods@[1]@[m - k]);
                }
            }
            assert(t1r@[0] == self.sub_prods@[1]@[m as int]);
            assert(mo.value(t1r@[0] as int) == 1int % mm);
            lemma_gcd_unit(mo.n as nat);
        }
        let inv_rt1 = match self.df.inv_until(t1r, n) {
            Ok(g) => g,
            Err(d) => {
                proof {
                    assert(false);
                }
                return (Vec::new(), Ghost(Seq::empty()));
            },
        };
        let fp = self.df.prefix(f, m + n - 1);
        proof {
            assert(all_below(fp@, mo.n)) by {
                assert forall|k: int| 0 <= k < fp@.len() implies #[trigger] fp@[k] < mo.n by {}
            }
        }
        let f0v = mo.middle_product_arbitrary(inv_rt1.as_slice(), fp.as_slice());
        let mut f0 = Fps::new(f0v);
        f0.reverse();
        let f0s = self.df.prefix(f0.as_slice(), f0.len());
        proof {
            assert(f0s@ =~= f0@);
            assert(all_below(f0s@, mo.n)) by {
                assert forall|k: int| 0 <= k < f0s@.len() implies #[trigger] f0s@[k] < mo.n by {
                    assert(f0s@[k] == f0v@[f0v@.len() - 1 - k]);
                }
            }
            self.lemma_root(f@, t1r@, inv_rt1@, fp@, f0v@, f0s@);
        }
        (f0s, Ghost(Seq::new((m - 1) as nat, |i: int| 0int) + mont_values(mo, inv_rt1@)))
    }

    /// The entries of every node, each child's from its parent's by a middle product with the
    /// sibling.
    fn push_down(&self, fv: Ghost<Seq<int>>, f0: Vec<u128>, s1: Ghost<Seq<int>>) -> (r: (Vec<Vec<u128>>, Ghost<Seq<Seq<int>>>))
        requires
            self.wf(),
            fv@.len() >= 1,
            f0@.len() == self.m,
            all_below(f0@, self.df.0.n),
            tree_laws::node_ok(self.df.0.n as int, fv@, mont_values(self.df.0, self.sub_prods@[1]@), s1@, mont_values(self.df.0, f0@)),
        ensures
            r.0@.len() == 2 * self.m,
            r.1@.len() == 2 * self.m,
            forall|j: int| 1 <= j < 2 * self.m ==> (#[trigger] r.0@[j])@.len() == width(lg(self.m as nat), j as nat),
            forall|j: int| 1 <= j < 2 * self.m ==> all_below((#[trigger] r.0@[j])@, self.df.0.n),
            forall|j: int| 1 <= j < 2 * self.m ==> tree_laws::node_ok(
                self.df.0.n as int,
                fv@,
                mont_values(self.df.0, self.sub_prods@[j]@),
                #[trigger] r.1@[j],
                mont_values(self.df.0, r.0@[j]@),
            ),
    {
        let m = self.m;
        let mo = self.df.0;
        let ghost h = lg(m as nat);
        let ghost mm = mo.n as int;
        let mut dp: Vec<Vec<u128>> = Vec::new();
        while dp.len() < 2 * m
            invariant
                dp@.len() <= 2 * m,
                m <= usize_top_bit() / 2,
                forall|j: int| 0 <= j < dp@.len() ==> (#[trigger] dp@[j])@.len() == 0,
            decreases 2 * m - dp@.len(),
        {
            dp.push(Vec::new());
        }
        let ghost mut ss: Seq<Seq<int>> = Seq::new((2 * m) as nat, |j: int| s1@);
        proof {
            vstd::arithmetic::power2::lemma2_to64();
            assert(lg(1) == 0);
        }
        dp.set(1, f0);
        let mut i: usize = 1;
        while i < m
            invariant
                self.wf(),
                mo == self.df.0,
                h == lg(m as nat),
                mm == mo.n as int,
                m == self.m,
                m == pow2(h),
                1 <= i <= m,
                fv@.len() >= 1,
                dp@.len() == 2 * m,
                ss.len() == 2 * m,
                forall|j: int| 1 <= j < 2 * i ==> (#[trigger] dp@[j])@.len() == width(h, j as nat),
                forall|j: int| 1 <= j < 2 * i ==> all_below((#[trigger] dp@[j])@, mo.n),
                forall|j: int| 2 * i <= j < 2 * m ==> (#[trigger] dp@[j])@.len() == 0,
                forall|j: int| 1 <= j < 2 * i ==> tree_laws::node_ok(mm, fv@, mont_values(mo, self.sub_prods@[j]@), #[trigger] ss[j], mont_values(mo, dp@[j]@)),
            decreases m - i,
        {
            proof {
                lemma_width_children(h, i as nat);
                assert(self.sub_prods@[2 * i + 1]@.len() == width(h, (2 * i + 1) as nat) + 1);
                assert(self.sub_prods@[2 * i as int]@.len() == width(h, (2 * i) as nat) + 1);
                assert(dp@[i as int]@.len() == width(h, i as nat));
            }
            let g1 = mo.middle_product_arbitrary(self.sub_prods[2 * i + 1].as_slice(), dp[i].as_slice());
            let g0 = mo.middle_product_arbitrary(self.sub_prods[2 * i].as_slice(), dp[i].as_slice());
            let ghost tl = mont_values(mo, self.sub_prods@[2 * i as int]@);
            let ghost tr = mont_values(mo, self.sub_prods@[2 * i + 1]@);
            proof {
                self.lemma_node(i as int);
                let d = mont_values(mo, dp@[i as int]@);
                assert(tree_laws::node_ok(mm, fv@, mont_values(mo, self.sub_prods@[i as int]@), ss[i as int], d));
                tree_laws::lemma_children_ok(
                    mm,
                    fv@,
                    mont_values(mo, self.sub_prods@[i as int]@),
                    tl,
                    tr,
                    ss[i as int],
                    d,
                    mont_values(mo, g1@),
                    mont_values(mo, g0@),
                );
            }
            dp.set(2 * i, g1);
            dp.set(2 * i + 1, g0);
            proof {
                let si = ss[i as int];
                ss = ss.update(2 * i as int, tree_laws::mp_seq(tr, si)).update(2 * i + 1, tree_laws::mp_seq(tl, si));
            }
            i += 1;
        }
        (dp, Ghost(ss))
    }

    /// The values (in Montgomery form) of `f` at the points.  The root product is monic, so
    /// the inverse of its reversal always exists and the result is always `Ok`.
    pub fn eval(&self, f: &[u128]) -> (res: Result<Vec<u128>, u128>)
        requires
            self.wf(),
            all_below(f@, self.modulus().n),
            f@.len() <= usize::MAX / 8,
        ensures
            res matches Ok(v) && v@.len() == self.num_points() && all_below(v@, self.modulus().n) && forall|k: int|
                0 <= k < v@.len() ==> self.modulus().value((#[trigger] v@[k]) as int) == poly_eval(
                    mont_values(self.modulus(), f@),
                    self.point_values()[k],
                ) % (self.modulus().n as int),
    {
        let m0 = self.m0;
        let m = self.m;
        let ghost h = lg(m as nat);
        let mo = self.df.0;
        let ghost mm = mo.n as int;
        let ghost fv = mont_values(mo, f@);
        let n = f.len();
        if m0 == 0 {
            return Ok(Vec::new());
        }
        if n == 0 {
            let mut r: Vec<u128> = Vec::new();
            proof {
                lemma_mont_basics(mo);
            }
            while r.len() < m0
                invariant
                    mo.wf(),
                    mo == self.df.0,
                    mo.value(0) == 0,
                    fv.len() == 0,
                    mm == mo.n as int,
                    r@.len() <= m0,
                    all_below(r@, mo.n),
                    forall|k: int| 0 <= k < r@.len() ==> mo.value((#[trigger] r@[k]) as int) == poly_eval(fv, self.point_values()[k]) % mm,
                decreases m0 - r@.len(),
            {
                proof {
                    vstd::arithmetic::div_mod::lemma_small_mod(0, mm as nat);
                    assert forall|x: int| poly_eval(fv, x) == 0 by {}
                    assert(0int % mm == 0);
                }
                r.push(0);
            }
            return Ok(r);
        }
        let (f0, s1) = self.root_entries(f);
        let (dp, ss) = self.push_down(Ghost(fv), f0, s1);
        let ghost ss = ss@;
        let mut r: Vec<u128> = Vec::new();
        let mut k: usize = 0;
        while k < m0
            invariant
                self.wf(),
                mo == self.df.0,
                h == lg(m as nat),
                mm == mo.n as int,
                m == pow2(h),
                m == self.m,
                m0 == self.m0,
                m0 <= m,
                fv == mont_values(mo, f@),
                fv.len() >= 1,
                dp@.len() == 2 * m,
                ss.len() == 2 * m,
                forall|j: int| 1 <= j < 2 * m ==> (#[trigger] dp@[j])@.len() == width(h, j as nat),
                forall|j: int| 1 <= j < 2 * m ==> all_below((#[trigger] dp@[j])@, mo.n),
                forall|j: int| 1 <= j < 2 * m ==> tree_laws::node_ok(mm, fv, mont_values(mo, self.sub_prods@[j]@), #[trigger] ss[j], mont_values(mo, dp@[j]@)),
                k <= m0,
                r@.len() == k,
                all_below(r@, mo.n),
                forall|j: int| 0 <= j < k ==> mo.value((#[trigger] r@[j]) as int) == poly_eval(fv, self.point_values()[j]) % mm,
            decreases m0 - k,
        {
            proof {
                let j = (m + k) as int;
                lemma_width_leaf(h, j as nat);
                assert(dp@[j]@.len() == 1);
                assert(dp@[j]@[0] < mo.n);
                let t = mont_values(mo, self.sub_prods@[j]@);
                let p = self.points@[k as int];
                assert(mo.value(self.sub_prods@[j]@[0] as int) == (0 - padded_value(self.points@, j - m)) % mm);
                assert(padded_value(self.points@, j - m) == p);
                vstd::arithmetic::div_mod::lemma_mod_twice(0 - p, mm);
                tree_laws::lemma_leaf_value(mm, fv, t, ss[j], mont_values(mo, dp@[j]@), p);
                crate::arith::lemma_redc_mod(mm, dp@[j]@[0] as int);
                vstd::arithmetic::div_mod::lemma_small_mod(mo.value(dp@[j]@[0] as int) as nat, mm as nat);
            }
            r.push(dp[m + k][0]);
            k += 1;
        }
        Ok(r)
    }
}

/// Multipoint evaluation point by point.
pub struct MultipointEvaluationNaive<T> {
    points: Vec<T>,
}

impl<const M: u128> MultipointEvaluationNaive<StaticModInt<M>> {
    /// The points.
    pub closed spec fn points(&self) -> Seq<StaticModInt<M>> {
        self.points@
    }

    pub fn new(points: Vec<StaticModInt<M>>) -> (r: Self)
        ensures
            r.points() == points@,
    {
        Self { points }
    }

    /// The value of `f` at each point.
    pub fn eval(&self, f: &Fps<StaticModInt<M>>) -> (r: Vec<StaticModInt<M>>)
        requires
            valid_modulus(M),
            all_reduced(self.points()),
            all_reduced(f@),
        ensures
            r@.len() == self.points().len(),
            all_reduced(r@),
            forall|k: int| 0 <= k < r@.len() ==> (#[trigger] r@[k]).value() == poly_eval(values(f@), self.points()[k].value())
                % (M as int),
    {
        let mut r: Vec<StaticModInt<M>> = Vec::new();
        let mut k: usize = 0;
        while k < self.points.len()
            invariant
                valid_modulus(M),
                all_reduced(self.points@),
                all_reduced(f@),
                k <= self.points@.len(),
                r@.len() == k,
                all_reduced(r@),
                forall|j: int| 0 <= j < k ==> (#[trigger] r@[j]).value() == poly_eval(values(f@), self.points@[j].value())
                    % (M as int),
            decreases self.points@.len() - k,
        {
            proof {
                assert(self.points@[k as int].rep() < M);
            }
            r.push(f.eval(self.points[k]));
            k += 1;
        }
        r
    }
}

/// Multipoint evaluation point by point, modulo a run-time modulus.
pub struct DynamicMultipointEvaluationNaive {
    df: DynamicFps,
    points: Vec<u128>,
}

impl DynamicMultipointEvaluationNaive {
    /// The modulus.
    pub closed spec fn modulus(&self) -> DynamicModInt {
        self.df.0
    }

    /// The points, in Montgomery form.
    pub closed spec fn points(&self) -> Seq<u128> {
        self.points@
    }

    pub fn new(mo: DynamicModInt, points: Vec<u128>) -> (r: Self)
        ensures
            r.modulus() == mo,
            r.points() == points@,
    {
        let df = DynamicFps::new(mo);
        Self { df, points }
    }

    /// The value of `f` at each point, in Montgomery form (always `Ok`).
    pub fn eval(&self, f: &[u128]) -> (res: Result<Vec<u128>, u128>)
        requires
            self.modulus().wf(),
            all_below(self.points(), self.modulus().n),
            all_below(f@, self.modulus().n),
        ensures
            res matches Ok(v) && v@.len() == self.points().len() && all_below(v@, self.modulus().n)
                && forall|k: int| 0 <= k < v@.len() ==> self.modulus().value((#[trigger] v@[k]) as int) == poly_eval(
                mont_values(self.modulus(), f@),
                self.modulus().value(self.points()[k] as int),
            ) % (self.modulus().n as int),
    {
        let mo = self.df.0;
        let mut r: Vec<u128> = Vec::new();
        let mut k: usize = 0;
        while k < self.points.len()
            invariant
                mo == self.df.0,
                mo.wf(),
                all_below(self.points@, mo.n),
                all_below(f@, mo.n),
                k <= self.points@.len(),
                r@.len() == k,
                all_below(r@, mo.n),
                forall|j: int| 0 <= j < k ==> mo.value((#[trigger] r@[j]) as int) == poly_eval(mont_values(mo, f@), mo.value(self.points@[j] as int))
                    % (mo.n as int),
            decreases self.points@.len() - k,
        {
            r.push(self.df.eval(f, self.points[k]));
            k += 1;
        }
        Ok(r)
    }
}
} // verus!
