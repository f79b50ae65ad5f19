//! The sequences that a transposed product pushes down a subproduct tree.
//!
//! For a monic `T` of degree `w`, let `s_T(e)` be the coefficient of `x^(-1)` in `x^e / T`:
//! zero below `w - 1`, one at `w - 1`, and annihilated by `T` (`sum_q T[q] s_T(e + q) = 0`).
//! For `T = L R`, `s_L(e) = sum_t R[t] s_T(e + t)`, a middle product; for `T = x - p`,
//! `s_T(e) = p^e`.  So `sum_k f[k] s_T(k + j)` is the coefficient of `x^(-1-j)` in `f / T`, and
//! at a leaf `x - p` it is `f(p)`.
use vstd::prelude::*;
use vstd::arithmetic::div_mod::*;
use vstd::arithmetic::mul::*;
use crate::convolution::u128::{conv_coef, conv_partial, mp_coef, mp_partial};
use crate::convolution::u128::product_laws::{coef, conv_seq};
use crate::sums::{
    lemma_sum_ext, lemma_sum_reverse, lemma_sum_scale, lemma_sum_shift, lemma_sum_split, lemma_sum_swap, lemma_sum_vanishes,
    lemma_sum_zero, sum_range,
};

verus! {

/// The middle product `sum_t a[t] c[i + t]` as a sum.
proof fn lemma_mp_sum(a: Seq<int>, c: Seq<int>, i: int, j: nat)
    ensures
        mp_partial(a, c, i, j) == sum_range(|t: int| a[t] * c[i + t], 0, j as int),
    decreases j,
{
    if j > 0 {
        lemma_mp_sum(a, c, i, (j - 1) as nat);
    }
}

/// The product coefficient `sum_j a[j] b[k - j]` as a sum.
proof fn lemma_conv_sum(a: Seq<int>, b: Seq<int>, k: int, i: nat)
    ensures
        conv_partial(a, b, k, i) == sum_range(|j: int| a[j] * coef(b, k - j), 0, i as int),
    decreases i,
{
    if i > 0 {
        lemma_conv_sum(a, b, k, (i - 1) as nat);
        lemma_mul_basics(a[i - 1]);
    }
}

/// All the entries `mp_coef(a, s, x)` of the middle product of `a` and `s`.
pub open spec fn mp_seq(a: Seq<int>, s: Seq<int>) -> Seq<int> {
    Seq::new((s.len() - a.len() + 1) as nat, |x: int| mp_coef(a, s, x))
}

/// Middle products compose as the product of their first factors:
/// `mp(a, mp(b, s)) = mp(a b, s)`.
pub proof fn lemma_mp_regroup(a: Seq<int>, b: Seq<int>, s: Seq<int>, e: int)
    requires
        a.len() >= 1,
        b.len() >= 1,
        0 <= e,
        e + a.len() + b.len() - 1 <= s.len(),
    ensures
        mp_coef(a, mp_seq(b, s), e) == mp_coef(conv_seq(a, b, (a.len() + b.len() - 1) as nat), s, e),
{
    let la = a.len() as int;
    let lb = b.len() as int;
    let nq = la + lb - 1;
    let y = mp_seq(b, s);
    let ff = |t: int, q: int| a[t] * (coef(b, q - t) * s[e + q]);
    // each term of the outer sum is a sum over `q`
    assert forall|t: int| 0 <= t < la implies #[trigger] (a[t] * y[e + t]) == sum_range(|q: int| ff(t, q), 0, nq) by {
        lemma_mp_sum(b, s, e + t, lb as nat);
        let inner = |u: int| b[u] * s[e + t + u];
        let wide = |q: int| coef(b, q - t) * s[e + q];
        lemma_sum_shift(wide, inner, t, 0, lb);
        lemma_sum_split(wide, 0, t, nq);
        lemma_sum_split(wide, t, t + lb, nq);
        lemma_sum_zero(wide, 0, t);
        lemma_sum_zero(wide, t + lb, nq);
        assert forall|q: int| t + lb <= q < nq implies #[trigger] wide(q) == 0 by {}
        lemma_sum_scale(wide, |q: int| ff(t, q), a[t], 0, nq);
    }
    lemma_mp_sum(a, y, e, la as nat);
    lemma_sum_ext(|t: int| a[t] * y[e + t], |t: int| sum_range(|q: int| ff(t, q), 0, nq), 0, la);
    lemma_sum_swap(ff, la, nq);
    let cs = conv_seq(a, b, nq as nat);
    assert forall|q: int| 0 <= q < nq implies #[trigger] (cs[q] * s[e + q]) == sum_range(|t: int| ff(t, q), 0, la) by {
        lemma_conv_sum(a, b, q, la as nat);
        let cterm = |t: int| a[t] * coef(b, q - t);
        assert forall|t: int| 0 <= t < la implies #[trigger] ff(t, q) == s[e + q] * cterm(t) by {
            lemma_mul_is_associative(a[t], coef(b, q - t), s[e + q]);
            lemma_mul_is_commutative(a[t] * coef(b, q - t), s[e + q]);
        }
        lemma_sum_scale(cterm, |t: int| ff(t, q), s[e + q], 0, la);
        lemma_mul_is_commutative(cs[q], s[e + q]);
    }
    lemma_mp_sum(cs, s, e, nq as nat);
    lemma_sum_ext(|q: int| cs[q] * s[e + q], |q: int| sum_range(|t: int| ff(t, q), 0, la), 0, nq);
}

/// Two middle products may be taken in either order: `mp(a, mp(c, s)) = mp(c, mp(a, s))`.
pub proof fn lemma_mp_swap(a: Seq<int>, c: Seq<int>, s: Seq<int>, l: int)
    requires
        a.len() >= 1,
        c.len() >= 1,
        0 <= l,
        l + a.len() + c.len() - 1 <= s.len(),
    ensures
        mp_coef(a, mp_seq(c, s), l) == mp_coef(c, mp_seq(a, s), l),
{
    let la = a.len() as int;
    let lc = c.len() as int;
    let ya = mp_seq(a, s);
    let yc = mp_seq(c, s);
    let ff = |t: int, k: int| a[t] * (c[k] * s[l + t + k]);
    assert forall|t: int| 0 <= t < la implies #[trigger] (a[t] * yc[l + t]) == sum_range(|k: int| ff(t, k), 0, lc) by {
        lemma_mp_sum(c, s, l + t, lc as nat);
        let inner = |k: int| c[k] * s[l + t + k];
        lemma_sum_scale(inner, |k: int| ff(t, k), a[t], 0, lc);
    }
    lemma_mp_sum(a, yc, l, la as nat);
    lemma_sum_ext(|t: int| a[t] * yc[l + t], |t: int| sum_range(|k: int| ff(t, k), 0, lc), 0, la);
    lemma_sum_swap(ff, la, lc);
    assert forall|k: int| 0 <= k < lc implies #[trigger] (c[k] * ya[l + k]) == sum_range(|t: int| ff(t, k), 0, la) by {
        lemma_mp_sum(a, s, l + k, la as nat);
        let inner = |t: int| a[t] * s[l + k + t];
        assert forall|t: int| 0 <= t < la implies #[trigger] ff(t, k) == c[k] * inner(t) by {
            assert(l + t + k == l + k + t);
            lemma_mul_is_associative(a[t], c[k], s[l + t + k]);
            lemma_mul_is_associative(c[k], a[t], s[l + t + k]);
            lemma_mul_is_commutative(a[t], c[k]);
        }
        lemma_sum_scale(inner, |t: int| ff(t, k), c[k], 0, la);
    }
    lemma_mp_sum(c, ya, l, lc as nat);
    lemma_sum_ext(|k: int| c[k] * ya[l + k], |k: int| sum_range(|t: int| ff(t, k), 0, la), 0, lc);
}

/// Reversing both factors reverses their product:
/// `(rev a * rev b)[x] = (a * b)[la + lb - 2 - x]`.
pub proof fn lemma_conv_rev(a: Seq<int>, ra: Seq<int>, b: Seq<int>, rb: Seq<int>, x: int)
    requires
        ra.len() == a.len(),
        rb.len() == b.len(),
        forall|i: int| 0 <= i < a.len() ==> #[trigger] ra[i] == a[a.len() - 1 - i],
        forall|i: int| 0 <= i < b.len() ==> #[trigger] rb[i] == b[b.len() - 1 - i],
    ensures
        conv_coef(ra, rb, x) == conv_coef(a, b, a.len() + b.len() - 2 - x),
{
    let la = a.len() as int;
    let lb = b.len() as int;
    let k = la + lb - 2 - x;
    lemma_conv_sum(ra, rb, x, ra.len());
    lemma_conv_sum(a, b, k, a.len());
    let g = |i: int| ra[i] * coef(rb, x - i);
    let f = |j: int| a[j] * coef(b, k - j);
    assert forall|i: int| 0 <= i < la implies #[trigger] g(i) == f(la - 1 - i) by {
        assert(coef(rb, x - i) == coef(b, k - (la - 1 - i)));
    }
    lemma_sum_reverse(f, g, la);
}

/// The top coefficient of a product is the product of the top coefficients.
pub proof fn lemma_conv_top(a: Seq<int>, b: Seq<int>)
    requires
        a.len() >= 1,
        b.len() >= 1,
    ensures
        conv_coef(a, b, a.len() + b.len() - 2) == a[a.len() - 1] * b[b.len() - 1],
{
    let la = a.len() as int;
    let lb = b.len() as int;
    let k = la + lb - 2;
    lemma_conv_sum(a, b, k, a.len());
    let term = |j: int| a[j] * coef(b, k - j);
    assert forall|j: int| 0 <= j < la - 1 implies #[trigger] term(j) == 0 by {
        lemma_mul_basics(a[j]);
    }
    lemma_sum_zero(term, 0, la - 1);
    assert(sum_range(term, 0, la) == sum_range(term, 0, la - 1) + term(la - 1));
}

/// `s` holds the first `s.len()` entries of the sequence `e -> [x^(-1)] x^e / t` of the monic
/// `t` (of degree `t.len() - 1 >= 1`), modulo `m`: zero below `deg t - 1`, one at `deg t - 1`,
/// and annihilated by `t` wherever `t` fits.
pub closed spec fn is_rem_seq(m: int, t: Seq<int>, s: Seq<int>) -> bool {
    let w = t.len() - 1;
    &&& t.len() >= 2
    &&& t[w] % m == 1int % m
    &&& s.len() >= w
    &&& forall|e: int| 0 <= e < w - 1 ==> #[trigger] s[e] % m == 0
    &&& s[w - 1] % m == 1int % m
    &&& forall|e: int| 0 <= e && e + w + 1 <= s.len() ==> #[trigger] mp_coef(t, s, e) % m == 0
}

/// Node `t` of the tree, for the polynomial `fv`: `s` is its sequence, taken as far as the
/// evaluation reads it, and `d` holds `sum_k fv[k] s[k + j]` modulo `m` for `j < deg t`, that
/// is, the coefficients of `x^(-1), ..., x^(-deg t)` in `fv / t`.
pub closed spec fn node_ok(m: int, fv: Seq<int>, t: Seq<int>, s: Seq<int>, d: Seq<int>) -> bool {
    &&& is_rem_seq(m, t, s)
    &&& s.len() == t.len() - 2 + fv.len()
    &&& d.len() == t.len() - 1
    &&& forall|j: int| 0 <= j < d.len() ==> #[trigger] d[j] % m == mp_coef(fv, s, j) % m
}

/// The child `tc` of a node `t = tc tsib` (both factors monic): its sequence is the middle
/// product of the sibling with the node's, and its entries are the sibling's middle product
/// with the node's entries.
pub proof fn lemma_child_ok(
    m: int,
    fv: Seq<int>,
    t: Seq<int>,
    tc: Seq<int>,
    tsib: Seq<int>,
    s: Seq<int>,
    d: Seq<int>,
    dc: Seq<int>,
)
    requires
        m > 0,
        fv.len() >= 1,
        node_ok(m, fv, t, s, d),
        tc.len() >= 2,
        tsib.len() >= 2,
        t.len() == tc.len() + tsib.len() - 1,
        tc[tc.len() - 1] % m == 1int % m,
        tsib[tsib.len() - 1] % m == 1int % m,
        forall|k: int| 0 <= k < t.len() ==> #[trigger] t[k] % m == conv_coef(tc, tsib, k) % m,
        dc.len() == tc.len() - 1,
        forall|x: int| 0 <= x < dc.len() ==> #[trigger] dc[x] % m == mp_coef(tsib, d, x) % m,
    ensures
        node_ok(m, fv, tc, mp_seq(tsib, s), dc),
{
    let wc = tc.len() - 1;
    let ws = tsib.len() - 1;
    let w = t.len() - 1;
    let n = fv.len() as int;
    let sc = mp_seq(tsib, s);
    assert(sc.len() == wc + n - 1);
    // below the degree
    assert forall|e: int| 0 <= e < wc - 1 implies #[trigger] sc[e] % m == 0 by {
        lemma_mp_sum(tsib, s, e, tsib.len());
        let term = |u: int| tsib[u] * s[e + u];
        assert forall|u: int| 0 <= u < ws + 1 implies #[trigger] term(u) % m == 0 by {
            assert(s[e + u] % m == 0);
            lemma_mul_mod_noop_right(tsib[u], s[e + u], m);
            lemma_mul_basics(tsib[u]);
            lemma_small_mod(0, m as nat);
        }
        lemma_sum_vanishes(term, 0, ws + 1, m);
    }
    // at the degree
    assert(sc[wc - 1] % m == 1int % m) by {
        let e = wc - 1;
        lemma_mp_sum(tsib, s, e, tsib.len());
        let term = |u: int| tsib[u] * s[e + u];
        assert forall|u: int| 0 <= u < ws implies #[trigger] term(u) % m == 0 by {
            assert(s[e + u] % m == 0);
            lemma_mul_mod_noop_right(tsib[u], s[e + u], m);
            lemma_mul_basics(tsib[u]);
            lemma_small_mod(0, m as nat);
        }
        lemma_sum_vanishes(term, 0, ws, m);
        assert(sum_range(term, 0, ws + 1) == sum_range(term, 0, ws) + term(ws));
        assert(e + ws == w - 1);
        lemma_mul_mod_noop(tsib[ws], s[w - 1], m);
        lemma_mul_mod_noop(1, 1, m);
        lemma_add_mod_noop(sum_range(term, 0, ws), term(ws), m);
        lemma_mod_twice(1, m);
        lemma_small_mod(0, m as nat);
    }
    // annihilated by the child
    assert forall|e: int| 0 <= e && e + wc + 1 <= sc.len() implies #[trigger] mp_coef(tc, sc, e) % m == 0 by {
        lemma_mp_regroup(tc, tsib, s, e);
        let cs = conv_seq(tc, tsib, (tc.len() + tsib.len() - 1) as nat);
        assert forall|k: int| 0 <= k < cs.len() implies #[trigger] cs[k] % m == t[k] % m by {}
        crate::convolution::u128::product_laws::lemma_mp_congruent(cs, t, s, s, e, m, cs.len());
        assert(mp_coef(t, s, e) % m == 0);
    }
    // the entries
    assert forall|x: int| 0 <= x < dc.len() implies #[trigger] dc[x] % m == mp_coef(fv, sc, x) % m by {
        let ds = mp_seq(fv, s);
        assert(ds.len() == d.len());
        assert forall|j: int| 0 <= j < d.len() implies #[trigger] d[j] % m == ds[j] % m by {}
        crate::convolution::u128::product_laws::lemma_mp_congruent(tsib, tsib, d, ds, x, m, tsib.len());
        lemma_mp_swap(tsib, fv, s, x);
    }
}

/// The root `t` (degree `w`), with `g` the inverse of its reversal `rt` modulo `x^n`: its
/// sequence is `w - 1` zeros followed by `g`, and its entries are the middle product of `g`
/// with `fv` padded to `w + n - 1` coefficients, read backwards.
pub proof fn lemma_root_ok(m: int, fv: Seq<int>, t: Seq<int>, rt: Seq<int>, g: Seq<int>, fp: Seq<int>, d: Seq<int>)
    requires
        m > 0,
        fv.len() >= 1,
        t.len() >= 2,
        t[t.len() - 1] % m == 1int % m,
        rt.len() == t.len(),
        forall|i: int| 0 <= i < t.len() ==> #[trigger] rt[i] == t[t.len() - 1 - i],
        g.len() == fv.len(),
        forall|k: int| 0 <= k < g.len() ==> #[trigger] conv_coef(rt, g, k) % m == (if k == 0 { 1int } else { 0 }) % m,
        fp.len() == t.len() - 2 + fv.len(),
        forall|x: int| 0 <= x < fp.len() ==> #[trigger] fp[x] == coef(fv, x),
        d.len() == t.len() - 1,
        forall|j: int| 0 <= j < d.len() ==> #[trigger] d[j] % m == mp_coef(g, fp, d.len() - 1 - j) % m,
    ensures
        node_ok(m, fv, t, Seq::new((t.len() - 2) as nat, |i: int| 0int) + g, d),
{
    let w = t.len() - 1;
    let n = fv.len() as int;
    let zl = Seq::new((t.len() - 2) as nat, |i: int| 0int);
    let zr = Seq::new(0, |i: int| 0int);
    let s = zl + g;
    assert(s =~= zl + g + zr);
    lemma_small_mod(0, m as nat);
    // the leading one
    assert(g[0] % m == 1int % m) by {
        lemma_conv_sum(rt, g, 0, rt.len());
        let term = |j: int| rt[j] * coef(g, 0 - j);
        lemma_sum_split(term, 0, 1, rt.len() as int);
        assert forall|j: int| 1 <= j < rt.len() implies #[trigger] term(j) == 0 by {
            lemma_mul_basics(rt[j]);
        }
        lemma_sum_zero(term, 1, rt.len() as int);
        assert(sum_range(term, 0, 0) == 0);
        assert(conv_coef(rt, g, 0) == t[w] * g[0]);
        lemma_mul_mod_noop_left(t[w], g[0], m);
        lemma_mul_mod_noop_left(1, g[0], m);
    }
    assert(s[w - 1] == g[0]);
    // annihilated by the root
    assert forall|e: int| 0 <= e && e + w + 1 <= s.len() implies #[trigger] mp_coef(t, s, e) % m == 0 by {
        crate::convolution::u128::product_laws::lemma_conv_reverse(t, rt, s, e);
        crate::convolution::u128::product_laws::lemma_conv_commutative(rt, s, w + e);
        crate::convolution::u128::product_laws::lemma_conv_shift_first(g, zl.len(), 0, rt, w + e);
        crate::convolution::u128::product_laws::lemma_conv_commutative(g, rt, e + 1);
        assert(conv_coef(rt, g, e + 1) % m == 0);
    }
    // the entries
    let rg = g.reverse();
    let rf = fv.reverse();
    assert forall|j: int| 0 <= j < d.len() implies #[trigger] d[j] % m == mp_coef(fv, s, j) % m by {
        let k = n + w - 2 - j;
        crate::convolution::u128::product_laws::lemma_conv_reverse(g, rg, fp, w - 1 - j);
        assert forall|x: int| 0 <= x <= k implies #[trigger] coef(fp, x) == coef(fv, x) by {}
        crate::convolution::u128::product_laws::lemma_conv_prefix_second(rg, fp, fv, k);
        crate::convolution::u128::product_laws::lemma_conv_reverse(fv, rf, s, j);
        crate::convolution::u128::product_laws::lemma_conv_commutative(rf, s, n - 1 + j);
        crate::convolution::u128::product_laws::lemma_conv_shift_first(g, zl.len(), 0, rf, n - 1 + j);
        assert forall|i: int| 0 <= i < n implies #[trigger] fv[i] == rf[n - 1 - i] by {}
        lemma_conv_rev(g, rg, rf, fv, k);
        assert(d.len() - 1 - j == w - 1 - j);
    }
}

/// Both children of a node `t = tl tr` (monic factors, reduced modulo `m`), with entries the
/// middle products of the node's entries by the siblings.
pub proof fn lemma_children_ok(
    m: int,
    fv: Seq<int>,
    t: Seq<int>,
    tl: Seq<int>,
    tr: Seq<int>,
    s: Seq<int>,
    d: Seq<int>,
    dl: Seq<int>,
    dr: Seq<int>,
)
    requires
        m > 0,
        fv.len() >= 1,
        node_ok(m, fv, t, s, d),
        tl.len() >= 2,
        tr.len() >= 2,
        t.len() == tl.len() + tr.len() - 1,
        tl[tl.len() - 1] == 1int % m,
        tr[tr.len() - 1] == 1int % m,
        forall|k: int| 0 <= k < t.len() ==> #[trigger] t[k] == conv_coef(tl, tr, k) % m,
        dl.len() == tl.len() - 1,
        forall|x: int| 0 <= x < dl.len() ==> #[trigger] dl[x] == mp_coef(tr, d, x) % m,
        dr.len() == tr.len() - 1,
        forall|x: int| 0 <= x < dr.len() ==> #[trigger] dr[x] == mp_coef(tl, d, x) % m,
    ensures
        node_ok(m, fv, tl, mp_seq(tr, s), dl),
        node_ok(m, fv, tr, mp_seq(tl, s), dr),
{
    lemma_mod_twice(1, m);
    assert forall|k: int| 0 <= k < t.len() implies #[trigger] t[k] % m == conv_coef(tl, tr, k) % m by {
        lemma_mod_twice(conv_coef(tl, tr, k), m);
    }
    assert forall|k: int| 0 <= k < t.len() implies #[trigger] t[k] % m == conv_coef(tr, tl, k) % m by {
        lemma_mod_twice(conv_coef(tl, tr, k), m);
        crate::convolution::u128::product_laws::lemma_conv_commutative(tl, tr, k);
    }
    assert forall|x: int| 0 <= x < dl.len() implies #[trigger] dl[x] % m == mp_coef(tr, d, x) % m by {
        lemma_mod_twice(mp_coef(tr, d, x), m);
    }
    assert forall|x: int| 0 <= x < dr.len() implies #[trigger] dr[x] % m == mp_coef(tl, d, x) % m by {
        lemma_mod_twice(mp_coef(tl, d, x), m);
    }
    lemma_child_ok(m, fv, t, tl, tr, s, d, dl);
    lemma_child_ok(m, fv, t, tr, tl, s, d, dr);
}

/// `sum_i c[i] s[base + i]` for a geometric `s` (ratio `p` modulo `m`) is `c(p) s[base]`.
proof fn lemma_geometric_sum(c: Seq<int>, s: Seq<int>, base: int, p: int, m: int)
    requires
        m > 0,
        0 <= base,
        base + c.len() <= s.len(),
        forall|e: int| base <= e && e + 1 < base + c.len() ==> #[trigger] s[e + 1] % m == (p * s[e]) % m,
    ensures
        sum_range(|i: int| c[i] * s[base + i], 0, c.len() as int) % m == (crate::fps::u128::poly_eval(c, p) * s[base]) % m,
    decreases c.len(),
{
    let len = c.len() as int;
    let term = |i: int| c[i] * s[base + i];
    lemma_small_mod(0, m as nat);
    if len == 0 {
        lemma_mul_basics(s[base]);
    } else {
        let c1 = c.drop_first();
        let term1 = |i: int| c1[i] * s[base + 1 + i];
        lemma_geometric_sum(c1, s, base + 1, p, m);
        lemma_sum_split(term, 0, 1, len);
        assert(sum_range(term, 0, 0) == 0);
        assert(sum_range(term, 0, 1) == c[0] * s[base]);
        assert forall|x: int| 0 <= x < len - 1 implies #[trigger] term1(x) == term(x + 1) by {
            assert(c1[x] == c[x + 1]);
            assert(base + 1 + x == base + (x + 1));
        }
        lemma_sum_shift(term, term1, 1, 0, len - 1);
        let pe = crate::fps::u128::poly_eval(c1, p);
        assert(crate::fps::u128::poly_eval(c, p) == c[0] + p * pe);
        let rest = sum_range(term1, 0, len - 1);
        assert(sum_range(term, 0, len) == c[0] * s[base] + rest);
        assert(rest % m == (pe * s[base + 1]) % m);
        if len > 1 {
            assert(s[base + 1] % m == (p * s[base]) % m);
            lemma_mul_mod_noop_right(pe, s[base + 1], m);
            lemma_mul_mod_noop_right(pe, p * s[base], m);
        } else {
            assert(pe == 0);
            lemma_mul_basics(s[base + 1]);
            lemma_mul_basics(p * s[base]);
        }
        assert(rest % m == (pe * (p * s[base])) % m);
        lemma_mul_is_associative(pe, p, s[base]);
        lemma_mul_is_commutative(pe, p);
        assert(pe * (p * s[base]) == (p * pe) * s[base]);
        lemma_add_mod_noop(c[0] * s[base], rest, m);
        lemma_add_mod_noop(c[0] * s[base], (p * pe) * s[base], m);
        lemma_mul_is_distributive_add_other_way(s[base], c[0], p * pe);
    }
}

/// At a leaf `x - p`, the entry is `fv(p)` modulo `m`.
pub proof fn lemma_leaf_value(m: int, fv: Seq<int>, t: Seq<int>, s: Seq<int>, d: Seq<int>, p: int)
    requires
        m > 0,
        fv.len() >= 1,
        node_ok(m, fv, t, s, d),
        t.len() == 2,
        t[0] % m == (0 - p) % m,
    ensures
        d[0] % m == crate::fps::u128::poly_eval(fv, p) % m,
{
    let n = fv.len() as int;
    assert forall|e: int| 0 <= e && e + 1 < 0 + n implies #[trigger] s[e + 1] % m == (p * s[e]) % m by {
        assert(mp_coef(t, s, e) % m == 0);
        assert(mp_partial(t, s, e, 0) == 0);
        assert(mp_partial(t, s, e, 1) == t[0] * s[e]);
        assert(mp_coef(t, s, e) == t[0] * s[e] + t[1] * s[e + 1]);
        lemma_mul_mod_noop(t[0], s[e], m);
        lemma_mul_mod_noop(0 - p, s[e], m);
        lemma_mul_mod_noop(t[1], s[e + 1], m);
        lemma_mul_mod_noop(1, s[e + 1], m);
        lemma_mod_twice(1, m);
        lemma_add_mod_noop(t[0] * s[e], t[1] * s[e + 1], m);
        lemma_add_mod_noop((0 - p) * s[e], 1 * s[e + 1], m);
        assert(((0 - p) * s[e] + 1 * s[e + 1]) % m == 0);
        assert((0 - p) * s[e] + 1 * s[e + 1] == s[e + 1] - p * s[e]) by (nonlinear_arith);
        lemma_mod_equivalence(s[e + 1], p * s[e], m);
    }
    let pe = crate::fps::u128::poly_eval(fv, p);
    lemma_geometric_sum(fv, s, 0, p, m);
    lemma_mp_sum(fv, s, 0, fv.len());
    lemma_sum_ext(|t: int| fv[t] * s[0 + t], |i: int| fv[i] * s[0 + i], 0, n);
    assert(mp_coef(fv, s, 0) % m == (pe * s[0]) % m);
    assert(d[0] % m == mp_coef(fv, s, 0) % m);
    assert(s[0] % m == 1int % m);
    lemma_mul_mod_noop_right(pe, s[0], m);
    lemma_mul_mod_noop_right(pe, 1, m);
    lemma_mul_basics(pe);
}

} // verus!
