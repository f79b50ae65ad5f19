//! Number-theoretic transforms, convolutions and middle products of residue sequences.
pub mod ntt_laws;
pub mod product_laws;
pub mod transpose;

use vstd::prelude::*;
use vstd::arithmetic::div_mod::*;
use vstd::arithmetic::mul::*;
use vstd::arithmetic::power::*;
use vstd::arithmetic::power2::{lemma_pow2_pos, lemma_pow2_unfold, pow2};
use crate::arith::{lemma_two_adic_unique, radix, spec_gcd, two_adic};
use crate::bits::{
    ceil_pow2, lemma_ceil_pow2, lemma_ceil_pow2_exp, lemma_shl_one, next_power_of_two, trailing_ones, trailing_zeros, usize_top_bit,
};
use crate::fps::u128::poly_eval;
use crate::garner::{garner_value, Garner3, M1, M2, M3};
use crate::modint::u128::{
    all_reduced, lemma_reduced_product, valid_modulus, values, DynamicModInt, StaticModInt,
};
use crate::primality::{bpsw_spec, is_prime, is_prime_const};
use self::ntt_laws::{
    bit_rev, fwd_level, fwd_levels, inv_from, inv_level, is_inverse_transform, is_transform, lemma_block_index, twiddle,
};
use self::product_laws::{
    lemma_conv_commutative, lemma_conv_congruent, lemma_conv_outside, lemma_conv_split_second,
    lemma_karatsuba_identity, padded_sum,
};

verus! {

broadcast use vstd::array::group_array_axioms;

/// `2^(h - 1)`, where `2^h` is the largest power of two dividing `m - 1`.
pub open spec fn half_order(m: u128) -> nat {
    pow2((two_adic((m - 1) as nat) - 1) as nat)
}

/// `g` has order `2^h` modulo `m`: its `2^(h - 1)`-th power is `-1`.
pub open spec fn is_power_2_generator(m: u128, g: int) -> bool {
    2 <= g < m && pow(g, half_order(m)) % (m as int) == m - 1
}

/// Some residue of order `2^h` exists (true for every prime `m >= 3`).
pub open spec fn has_power_2_generator(m: u128) -> bool {
    exists|g: int| is_power_2_generator(m, g)
}

/// The least residue of order `2^h`.
pub open spec fn least_power_2_generator(m: u128) -> int {
    choose|g: int| is_power_2_generator(m, g) && forall|x: int| 2 <= x < g ==> !#[trigger] is_power_2_generator(m, x)
}

/// `g^(2^k) mod m`.
pub open spec fn root_value(m: u128, g: int, k: nat) -> int {
    pow(g, pow2(k)) % (m as int)
}

/// The moduli on which the transforms run: the arithmetic is set up, the primality test passes
/// and a residue of order `2^h` exists.
pub open spec fn ntt_ready(m: u128) -> bool {
    &&& valid_modulus(m)
    &&& m >= 3
    &&& bpsw_spec(m as nat)
    &&& has_power_2_generator(m)
}

/// The least `g >= 2` of order `2^h` modulo `M` (where `2^h` is the largest power of two
/// dividing `M - 1`), or `None` when there is none below `M`.
pub fn find_power_2_generator<const M: u128>() -> (r: Option<StaticModInt<M>>)
    requires
        valid_modulus(M),
        M >= 3,
    ensures
        match r {
            Some(g) => {
                &&& g.rep() < M
                &&& is_power_2_generator(M, g.value())
                &&& forall|x: int| 2 <= x < g.value() ==> !#[trigger] is_power_2_generator(M, x)
            },
            None => !has_power_2_generator(M),
        },
{
    let one = StaticModInt::<M>::one();
    let h = trailing_zeros(M - 1);
    proof {
        lemma_two_adic_unique((M - 1) as nat, h as nat);
        if h == 0 {
            vstd::arithmetic::power2::lemma2_to64();
        }
        lemma_small_mod(1, M as nat);
    }
    let e: u128 = 1u128 << (h - 1);
    proof {
        lemma_shl_one((h - 1) as u32);
    }
    let mut g = one;
    let mut k: u128 = 1;
    while k < M - 1
        invariant
            valid_modulus(M),
            M >= 3,
            1 <= k <= M - 1,
            g.rep() < M,
            g.value() == k,
            one.rep() < M,
            one.value() == 1,
            e == half_order(M),
            forall|x: int| 2 <= x <= k ==> !#[trigger] is_power_2_generator(M, x),
        decreases M - k,
    {
        g = g.add(one);
        k = k + 1;
        proof {
            lemma_small_mod(k as nat, M as nat);
            lemma_reduced_product(g.rep(), g.rep(), M);
        }
        if g.pow_const(e).val_const() == M - 1 {
            return Some(g);
        }
    }
    None
}

/// The least `g >= 2` of order `2^h` modulo `M`, where `2^h` is the largest power of two
/// dividing `M - 1`.
pub fn power_2_generator<const M: u128>() -> (g: StaticModInt<M>)
    requires
        valid_modulus(M),
        M >= 3,
        has_power_2_generator(M),
    ensures
        g.rep() < M,
        is_power_2_generator(M, g.value()),
        g.value() == least_power_2_generator(M),
{
    match find_power_2_generator::<M>() {
        Some(g) => {
            proof {
                lemma_least_generator(M, g.value());
            }
            g
        },
        None => {
            proof {
                assert(false);
            }
            StaticModInt::one()
        },
    }
}

/// Some generator at or below `g` has no smaller one.
proof fn lemma_least_below(m: u128, g: int)
    requires
        is_power_2_generator(m, g),
    ensures
        exists|l: int| is_power_2_generator(m, l) && forall|x: int| 2 <= x < l ==> !#[trigger] is_power_2_generator(m, x),
    decreases g,
{
    if exists|x: int| 2 <= x < g && #[trigger] is_power_2_generator(m, x) {
        let x = choose|x: int| 2 <= x < g && #[trigger] is_power_2_generator(m, x);
        lemma_least_below(m, x);
    } else {
        assert(is_power_2_generator(m, g) && forall|x: int| 2 <= x < g ==> !#[trigger] is_power_2_generator(m, x));
    }
}

/// Where a generator exists, the least one is a generator.
pub proof fn lemma_least_generator_exists(m: u128)
    requires
        has_power_2_generator(m),
    ensures
        is_power_2_generator(m, least_power_2_generator(m)),
{
    let g = choose|g: int| is_power_2_generator(m, g);
    lemma_least_below(m, g);
}

/// The point at which the transform of length `2^l` evaluates entry `t`: `g^bit_rev(h, t)`
/// for the least generator `g` of order `2^h`.
pub open spec fn ntt_point(m: u128, t: int) -> int {
    pow(least_power_2_generator(m), bit_rev(two_adic((m - 1) as nat), t as nat)) % (m as int)
}

/// A generator with no smaller one is the least generator.
proof fn lemma_least_generator(m: u128, g: int)
    requires
        is_power_2_generator(m, g),
        forall|x: int| 2 <= x < g ==> !#[trigger] is_power_2_generator(m, x),
    ensures
        least_power_2_generator(m) == g,
{
    let l = least_power_2_generator(m);
    assert(is_power_2_generator(m, l) && forall|x: int| 2 <= x < l ==> !#[trigger] is_power_2_generator(m, x));
    if l < g {
        assert(!is_power_2_generator(m, l));
    }
    if g < l {
        assert(!is_power_2_generator(m, g));
    }
}

/// Twiddle factors of the transforms: `fore[i] = -w^(3 * 2^(h-i-2))` for the root `w` of order
/// `2^h`, and `back` the same for its inverse; the entries from `h - 1` on are zero.
#[derive(Debug, Clone, Copy)]
pub struct ButterflyCache<T> {
    pub fore: [T; 128],
    pub back: [T; 128],
}

/// What `ButterflyCache::new` builds for modulus `m` with generator `g` of order `2^h`.
pub open spec fn is_butterfly_table<const M: u128>(c: ButterflyCache<StaticModInt<M>>) -> bool {
    let g = least_power_2_generator(M);
    let h = two_adic((M - 1) as nat);
    &&& all_reduced(c.fore@)
    &&& all_reduced(c.back@)
    &&& forall|i: int| 0 <= i < h - 1 ==> (#[trigger] c.fore@[i]).value() == (0 - root_value(M, g, (h - i - 1) as nat)
        * root_value(M, g, (h - i - 2) as nat)) % (M as int)
    &&& forall|i: int| h - 1 <= i < 128 ==> (#[trigger] c.fore@[i]).rep() == 0 && c.back@[i].rep() == 0
    &&& spec_gcd(g as nat, M as nat) == 1 ==> exists|ig: int| {
        &&& #[trigger] is_inverse_mod(M, g, ig)
        &&& forall|i: int| 0 <= i < h - 1 ==> (#[trigger] c.back@[i]).value() == (0 - root_value(M, ig, (h - i - 1) as nat)
            * root_value(M, ig, (h - i - 2) as nat)) % (M as int)
    }
}

/// `ig` is the inverse of `g` modulo `m`.
pub open spec fn is_inverse_mod(m: u128, g: int, ig: int) -> bool {
    0 <= ig < m && (g * ig) % (m as int) == 1
}

/// Squaring the `2^k`-th power gives the `2^(k+1)`-th power.
proof fn lemma_root_square(m: u128, g: int, k: nat)
    requires
        m > 0,
    ensures
        (root_value(m, g, k) * root_value(m, g, k)) % (m as int) == root_value(m, g, k + 1),
{
    lemma_pow2_unfold(k + 1);
    lemma_pow_adds(g, pow2(k), pow2(k));
    lemma_mul_mod_noop(pow(g, pow2(k)), pow(g, pow2(k)), m as int);
}

/// `[g^(2^h), ..., g^2, g, 0, ...]`: entry `j <= h` holds `g^(2^(h - j))`.
fn square_chain<const M: u128>(g: StaticModInt<M>, h: usize) -> (r: [StaticModInt<M>; 128])
    requires
        valid_modulus(M),
        1 <= h < 128,
        g.rep() < M,
    ensures
        all_reduced(r@),
        forall|j: int| 0 <= j <= h ==> (#[trigger] r@[j]).value() == root_value(M, g.value(), (h - j) as nat),
{
    let ghost gv = g.value();
    let zero = StaticModInt::<M>::raw(0);
    let mut roots: [StaticModInt<M>; 128] = vstd::array::array_fill_for_copy_types(zero);
    proof {
        assert(forall|k: int| 0 <= k < 128 ==> #[trigger] roots@[k] == zero);
    }
    roots[h] = g;
    proof {
        vstd::arithmetic::power2::lemma2_to64();
        lemma_pow1(gv);
        lemma_small_mod(gv as nat, M as nat);
    }
    let mut i = h;
    while i > 0
        invariant
            valid_modulus(M),
            1 <= h < 128,
            i <= h,
            all_reduced(roots@),
            forall|j: int| i <= j <= h ==> (#[trigger] roots@[j]).value() == root_value(M, gv, (h - j) as nat),
        decreases i,
    {
        i -= 1;
        let r = roots[i + 1];
        proof {
            lemma_reduced_product(r.rep(), r.rep(), M);
            lemma_root_square(M, gv, (h - i - 1) as nat);
        }
        roots[i] = r.mul_const(r);
    }
    roots
}

/// Entry `i < h - 1` holds `-(roots[i + 1] roots[i + 2])`; the others are `0`.
fn twiddle_table<const M: u128>(roots: &[StaticModInt<M>; 128], h: usize, Ghost(gv): Ghost<int>) -> (r: [StaticModInt<M>; 128])
    requires
        valid_modulus(M),
        1 <= h < 128,
        all_reduced(roots@),
        forall|j: int| 0 <= j <= h ==> (#[trigger] roots@[j]).value() == root_value(M, gv, (h - j) as nat),
    ensures
        all_reduced(r@),
        forall|j: int| 0 <= j < h - 1 ==> (#[trigger] r@[j]).value() == (0 - root_value(M, gv, (h - j - 1) as nat)
            * root_value(M, gv, (h - j - 2) as nat)) % (M as int),
        forall|j: int| h - 1 <= j < 128 ==> (#[trigger] r@[j]).rep() == 0,
{
    let zero = StaticModInt::<M>::raw(0);
    let mut fore: [StaticModInt<M>; 128] = vstd::array::array_fill_for_copy_types(zero);
    proof {
        assert(forall|k: int| 0 <= k < 128 ==> #[trigger] fore@[k] == zero);
    }
    let mut i = h - 1;
    while i > 0
        invariant
            valid_modulus(M),
            1 <= h < 128,
            i < h,
            all_reduced(roots@),
            all_reduced(fore@),
            forall|j: int| 0 <= j <= h ==> (#[trigger] roots@[j]).value() == root_value(M, gv, (h - j) as nat),
            forall|j: int| i <= j < h - 1 ==> (#[trigger] fore@[j]).value() == (0 - root_value(M, gv, (h - j - 1) as nat)
                * root_value(M, gv, (h - j - 2) as nat)) % (M as int),
            forall|j: int| h - 1 <= j < 128 ==> (#[trigger] fore@[j]).rep() == 0,
        decreases i,
    {
        i -= 1;
        let r1 = roots[i + 1];
        let r2 = roots[i + 2];
        proof {
            lemma_reduced_product(r1.rep(), r2.rep(), M);
            assert(roots@[i + 1].value() == root_value(M, gv, (h - i - 1) as nat));
            assert(roots@[i + 2].value() == root_value(M, gv, (h - i - 2) as nat));
            let p = root_value(M, gv, (h - i - 1) as nat) * root_value(M, gv, (h - i - 2) as nat);
            lemma_sub_mod_noop(0, p, M as int);
            lemma_mod_twice(p, M as int);
            lemma_small_mod(0, M as nat);
        }
        fore[i] = r1.mul_const(r2).neg();
    }
    fore
}

impl<const M: u128> ButterflyCache<StaticModInt<M>> {
    #[verifier::rlimit(40)]
    pub fn new() -> (c: Self)
        requires
            valid_modulus(M),
            M >= 3,
            has_power_2_generator(M),
        ensures
            is_butterfly_table(c),
    {
        let g = power_2_generator::<M>();
        let ghost gv = g.value();
        let hh = trailing_zeros(M - 1);
        proof {
            lemma_two_adic_unique((M - 1) as nat, hh as nat);
            if hh == 0 {
                vstd::arithmetic::power2::lemma2_to64();
            }
        }
        let h = hh as usize;
        let roots = square_chain(g, h);
        let fore = twiddle_table(&roots, h, Ghost(gv));
        let (inv_roots, Ghost(igv)) = match g.inv_const() {
            Ok(ig) => (square_chain(ig, h), Ghost(ig.value())),
            Err(_) => {
                let zero = StaticModInt::<M>::raw(0);
                (square_chain(zero, h), Ghost(zero.value()))
            },
        };
        let back = twiddle_table(&inv_roots, h, Ghost(igv));
        proof {
            if spec_gcd(gv as nat, M as nat) == 1 {
                lemma_small_mod(1, M as nat);
                assert(is_inverse_mod(M, gv, igv));
            }
        }
        Self { fore, back }
    }
}

/// Moduli that carry a table of twiddle factors.
pub trait HaveCache: Sized {
    /// The table, when the modulus allows one.
    fn cache() -> Option<ButterflyCache<Self>>;
}

impl<const M: u128> HaveCache for StaticModInt<M> {
    /// The table of `ButterflyCache::new` when `M` is an odd prime (by the primality test) with
    /// a residue of order `2^h`, else `None`.
    fn cache() -> (r: Option<ButterflyCache<Self>>)
        ensures
            r is Some <==> ntt_ready(M),
            r matches Some(c) ==> is_butterfly_table(c),
    {
        if M % 2 == 1 && M < 0x8000_0000_0000_0000_0000_0000_0000_0000 && M >= 3 && is_prime_const(M) {
            match find_power_2_generator::<M>() {
                Some(_) => Some(ButterflyCache::new()),
                None => None,
            }
        } else {
            None
        }
    }
}


/// The largest power of two that is at most `n`.
fn floor_power_of_two(n: usize) -> (size: usize)
    requires
        n >= 1,
    ensures
        1 <= size <= n,
        n < 2 * size,
        exists|l: nat| size == pow2(l),
{
    let mut size: usize = 1;
    let ghost mut l: nat = 0;
    proof {
        vstd::arithmetic::power2::lemma2_to64();
    }
    while size <= n / 2
        invariant
            1 <= size <= n,
            size == pow2(l),
        decreases n - size,
    {
        size = size * 2;
        proof {
            lemma_pow2_unfold(l + 1);
            l = l + 1;
        }
    }
    size
}

/// Step bounds of the butterfly loops: a block of width `2 p` at `s < w` lies inside `w 2 p`.
proof fn lemma_block_in_range(s: int, w: int, p: int, size: int)
    requires
        0 <= s < w,
        p >= 1,
        w * 2 * p <= size,
    ensures
        s * (2 * p) + 2 * p <= size,
        0 <= s * (2 * p),
{
    assert(s * (2 * p) + 2 * p <= w * 2 * p) by (nonlinear_arith)
        requires
            0 <= s < w,
            p >= 1,
    ;
    lemma_mul_nonnegative(s, 2 * p);
}

/// The number-theoretic transform in place, decimation in frequency: the input in natural
/// order, the output in bit-reversed order.
pub fn ntt<const M: u128>(a: &mut Vec<StaticModInt<M>>)
    requires
        ntt_ready(M),
        all_reduced(old(a)@),
    ensures
        final(a)@.len() == old(a)@.len(),
        all_reduced(final(a)@),
        old(a)@.len() <= 1 ==> final(a)@ == old(a)@,
        is_transform(old(a)@, final(a)@),
{
    let n = a.len();
    if n <= 1 {
        proof {
            self::ntt_laws::lemma_transform_short(a@);
        }
        return;
    }
    let size = floor_power_of_two(n);
    let ghost l: nat = choose|l: nat| size == pow2(l);
    let c = match StaticModInt::<M>::cache() {
        Some(c) => c,
        None => {
            proof {
                assert(false);
            }
            return;
        },
    };
    let fore = c.fore;
    let ghost fv = values(fore@);
    let ghost mm = M as int;
    let ghost a0 = values(a@);
    let mut w: usize = 1;
    let mut p: usize = size / 2;
    let ghost mut j: nat = 0;
    proof {
        vstd::arithmetic::power2::lemma2_to64();
        if l == 0 {
            assert(false);
        }
        lemma_pow2_unfold(l);
        assert(values(a@) =~= fwd_levels(mm, fv, a0, l, 0));
    }
    while p >= 1
        invariant
            valid_modulus(M),
            mm == M as int,
            fv == values(fore@),
            a.len() == n,
            all_reduced(a@),
            all_reduced(fore@),
            size <= n,
            size == pow2(l),
            l >= 1,
            j <= l,
            w == pow2(j),
            j < l ==> p == pow2((l - 1 - j) as nat),
            j == l ==> p == 0,
            w >= 1,
            w * 2 * p <= size,
            a0.len() == n,
            values(a@) == fwd_levels(mm, fv, a0, l, j),
        decreases p,
    {
        ntt_level(a, &fore, w, p);
        proof {
            vstd::arithmetic::power2::lemma2_to64();
            lemma_pow2_unfold(j + 1);
            if j + 1 < l {
                lemma_pow2_unfold((l - 1 - j) as nat);
            }
            assert((2 * w) * 2 * (p / 2) <= w * 2 * p) by (nonlinear_arith)
                requires
                    w >= 1,
                    p >= 1,
            ;
            assert(w * 2 <= w * 2 * p) by (nonlinear_arith)
                requires
                    w >= 1,
                    p >= 1,
            ;
        }
        w = w * 2;
        p = p / 2;
        proof {
            j = j + 1;
        }
    }
    proof {
        if j < l {
            lemma_pow2_pos((l - 1 - j) as nat);
        }
        assert(j == l);
        self::ntt_laws::lemma_transform_facts(c, old(a)@, a@, l);
    }
}

/// One forward level: the `w` blocks of width `2 p` at the front of `a`.
fn ntt_level<const M: u128>(a: &mut Vec<StaticModInt<M>>, fore: &[StaticModInt<M>; 128], w: usize, p: usize)
    requires
        valid_modulus(M),
        all_reduced(old(a)@),
        all_reduced(fore@),
        p >= 1,
        w * 2 * p <= old(a)@.len(),
    ensures
        final(a)@.len() == old(a)@.len(),
        all_reduced(final(a)@),
        values(final(a)@) == fwd_level(M as int, values(fore@), values(old(a)@), w as nat, p as nat),
{
    let n = a.len();
    let ghost mm = M as int;
    let ghost fv = values(fore@);
    let ghost x0 = values(a@);
    let ghost lvl = fwd_level(mm, fv, x0, w as nat, p as nat);
    let mut now = StaticModInt::<M>::one();
    let mut s: usize = 0;
    while s < w
        invariant
            valid_modulus(M),
            mm == M as int,
            fv == values(fore@),
            a.len() == n,
            all_reduced(a@),
            all_reduced(fore@),
            now.rep() < M,
            p >= 1,
            s <= w,
            w * 2 * p <= n,
            x0.len() == n,
            lvl == fwd_level(mm, fv, x0, w as nat, p as nat),
            now.value() == twiddle(mm, fv, s as nat),
            forall|k: int| 0 <= k < n ==> #[trigger] a@[k].value() == if k < s * (2 * p) { lvl[k] } else { x0[k] },
        decreases w - s,
    {
        proof {
            lemma_block_in_range(s as int, w as int, p as int, n as int);
        }
        let offset = s * (2 * p);
        let ghost before = a@;
        ntt_block(a, offset, p, now);
        proof {
            assert(s * (2 * p) + 2 * p <= w * (2 * p)) by (nonlinear_arith)
                requires
                    s < w,
            ;
            assert forall|k: int| 0 <= k < n implies #[trigger] a@[k].value() == if k < (s + 1) * (2 * p) {
                lvl[k]
            } else {
                x0[k]
            } by {
                assert((s + 1) * (2 * p) == offset + 2 * p) by (nonlinear_arith)
                    requires
                        offset == s * (2 * p),
                ;
                if offset <= k < offset + 2 * p {
                    let d = twiddle(mm, fv, s as nat);
                    let i = k - offset;
                    lemma_block_index(s as int, p as int, i);
                    if i < p {
                        assert(before[k + p].value() == x0[k + p]);
                        assert(before[k].value() == x0[k]);
                    } else {
                        assert(before[k - p].value() == x0[k - p]);
                        assert(before[k].value() == x0[k]);
                    }
                }
            }
        }
        let t = trailing_ones(s);
        let f = fore[t as usize];
        proof {
            assert(fore@[t as int].rep() < M);
            lemma_reduced_product(now.rep(), f.rep(), M);
            self::ntt_laws::lemma_ones_below(s as nat, t as nat);
        }
        now = now.mul(f);
        s += 1;
    }
    proof {
        assert forall|k: int| 0 <= k < n implies #[trigger] a@[k].value() == lvl[k] by {
            assert(w * (2 * p) == w * 2 * p) by (nonlinear_arith);
        }
        assert(values(a@) =~= lvl);
    }
}

/// One butterfly block of the forward transform: `(l, x)` to `(l + x d, l - x d)` on the
/// halves of `a[offset .. offset + 2 p]`.
fn ntt_block<const M: u128>(a: &mut Vec<StaticModInt<M>>, offset: usize, p: usize, d: StaticModInt<M>)
    requires
        valid_modulus(M),
        all_reduced(old(a)@),
        d.rep() < M,
        offset + 2 * p <= old(a)@.len(),
    ensures
        final(a)@.len() == old(a)@.len(),
        all_reduced(final(a)@),
        forall|k: int| 0 <= k < old(a)@.len() ==> (#[trigger] final(a)@[k]).value() == if offset <= k < offset + p {
            (old(a)@[k].value() + old(a)@[k + p].value() * d.value()) % (M as int)
        } else if offset + p <= k < offset + 2 * p {
            (old(a)@[k - p].value() - old(a)@[k].value() * d.value()) % (M as int)
        } else {
            old(a)@[k].value()
        },
{
    let n = a.len();
    let ghost a0 = a@;
    let ghost mm = M as int;
    let mut i: usize = 0;
    while i < p
        invariant
            valid_modulus(M),
            mm == M as int,
            a.len() == n,
            a0.len() == n,
            all_reduced(a@),
            d.rep() < M,
            offset + 2 * p <= n,
            i <= p,
            forall|k: int| 0 <= k < n ==> (#[trigger] a@[k]).value() == if offset <= k < offset + i {
                (a0[k].value() + a0[k + p].value() * d.value()) % mm
            } else if offset + p <= k < offset + p + i {
                (a0[k - p].value() - a0[k].value() * d.value()) % mm
            } else {
                a0[k].value()
            },
            forall|k: int| 0 <= k < n && !(offset <= k < offset + i) && !(offset + p <= k < offset + p + i) ==> #[trigger] a@[k]
                == a0[k],
        decreases p - i,
    {
        let l = a[offset + i];
        let x = a[offset + i + p];
        proof {
            assert(a@[offset + i as int].rep() < M);
            assert(a@[offset + i + p].rep() < M);
            lemma_reduced_product(x.rep(), d.rep(), M);
        }
        let r = x.mul(d);
        a[offset + i] = l.add(r);
        a[offset + i + p] = l.sub(r);
        proof {
            let xv = a0[offset + i + p].value();
            let lv = a0[offset + i as int].value();
            lemma_add_mod_noop(lv, xv * d.value(), mm);
            lemma_sub_mod_noop(lv, xv * d.value(), mm);
            crate::arith::lemma_redc_mod(mm, a0[offset + i as int].rep() as int);
            lemma_small_mod(lv as nat, M as nat);
            lemma_mod_twice(xv * d.value(), mm);
        }
        i += 1;
    }
}

/// The inverse transform in place, decimation in time: the input in bit-reversed order, the
/// output in natural order; with `divide_n` the result is divided by the length.
pub fn ntt_inv<const M: u128>(a: &mut Vec<StaticModInt<M>>, divide_n: bool)
    requires
        ntt_ready(M),
        all_reduced(old(a)@),
        divide_n && old(a)@.len() > 1 ==> spec_gcd((old(a)@.len() as int % M as int) as nat, M as nat) == 1,
    ensures
        final(a)@.len() == old(a)@.len(),
        all_reduced(final(a)@),
        old(a)@.len() <= 1 ==> final(a)@ == old(a)@,
        is_inverse_transform(old(a)@, final(a)@, divide_n),
{
    let n = a.len();
    if n <= 1 {
        proof {
            self::ntt_laws::lemma_inverse_short(a@, divide_n);
        }
        return;
    }
    let size = floor_power_of_two(n);
    let ghost l: nat = choose|l: nat| size == pow2(l);
    let c = match StaticModInt::<M>::cache() {
        Some(c) => c,
        None => {
            proof {
                assert(false);
            }
            return;
        },
    };
    let back = c.back;
    let ghost bv = values(back@);
    let ghost mm = M as int;
    let ghost y0 = values(a@);
    let mut w: usize = size / 2;
    let mut p: usize = 1;
    let ghost mut j: nat = l;
    proof {
        vstd::arithmetic::power2::lemma2_to64();
        if l == 0 {
            assert(false);
        }
        lemma_pow2_unfold(l);
        assert(values(a@) =~= inv_from(mm, bv, y0, l, l));
    }
    while w >= 1
        invariant
            valid_modulus(M),
            mm == M as int,
            bv == values(back@),
            a.len() == n,
            all_reduced(a@),
            all_reduced(back@),
            size <= n,
            size == pow2(l),
            l >= 1,
            j <= l,
            p == pow2((l - j) as nat),
            j >= 1 ==> w == pow2((j - 1) as nat),
            j == 0 ==> w == 0,
            p >= 1,
            w * 2 * p <= size,
            y0.len() == n,
            values(a@) == inv_from(mm, bv, y0, l, j),
        decreases w,
    {
        ntt_inv_level(a, &back, w, p);
        proof {
            vstd::arithmetic::power2::lemma2_to64();
            lemma_pow2_unfold((l - j + 1) as nat);
            if j >= 2 {
                lemma_pow2_unfold((j - 1) as nat);
            }
            assert((w / 2) * 2 * (2 * p) <= w * 2 * p) by (nonlinear_arith)
                requires
                    w >= 1,
                    p >= 1,
            ;
            assert(2 * p <= w * 2 * p) by (nonlinear_arith)
                requires
                    w >= 1,
                    p >= 1,
            ;
            assert(inv_from(mm, bv, y0, l, (j - 1) as nat) == inv_level(mm, bv, inv_from(mm, bv, y0, l, j), pow2((j - 1) as nat), pow2((l - 1 - (j - 1)) as nat)));
        }
        w = w / 2;
        p = p * 2;
        proof {
            j = (j - 1) as nat;
        }
    }
    let ghost mid = a@;
    if divide_n {
        divide_by_length(a);
    }
    proof {
        if j >= 1 {
            lemma_pow2_pos((j - 1) as nat);
        }
        assert(j == 0);
        self::ntt_laws::lemma_inverse_facts(c, old(a)@, mid, a@, l, divide_n);
    }
}

/// One inverse level: the `w` blocks of width `2 p` at the front of `a`.
fn ntt_inv_level<const M: u128>(a: &mut Vec<StaticModInt<M>>, back: &[StaticModInt<M>; 128], w: usize, p: usize)
    requires
        valid_modulus(M),
        all_reduced(old(a)@),
        all_reduced(back@),
        p >= 1,
        w * 2 * p <= old(a)@.len(),
    ensures
        final(a)@.len() == old(a)@.len(),
        all_reduced(final(a)@),
        values(final(a)@) == inv_level(M as int, values(back@), values(old(a)@), w as nat, p as nat),
{
    let n = a.len();
    let ghost mm = M as int;
    let ghost bv = values(back@);
    let ghost y0 = values(a@);
    let ghost lvl = inv_level(mm, bv, y0, w as nat, p as nat);
    let mut now = StaticModInt::<M>::one();
    let mut s: usize = 0;
    while s < w
        invariant
            valid_modulus(M),
            mm == M as int,
            bv == values(back@),
            a.len() == n,
            all_reduced(a@),
            all_reduced(back@),
            now.rep() < M,
            p >= 1,
            s <= w,
            w * 2 * p <= n,
            y0.len() == n,
            lvl == inv_level(mm, bv, y0, w as nat, p as nat),
            now.value() == twiddle(mm, bv, s as nat),
            forall|k: int| 0 <= k < n ==> #[trigger] a@[k].value() == if k < s * (2 * p) { lvl[k] } else { y0[k] },
        decreases w - s,
    {
        proof {
            lemma_block_in_range(s as int, w as int, p as int, n as int);
        }
        let offset = s * (2 * p);
        let ghost before = a@;
        ntt_inv_block(a, offset, p, now);
        proof {
            assert(s * (2 * p) + 2 * p <= w * (2 * p)) by (nonlinear_arith)
                requires
                    s < w,
            ;
            assert forall|k: int| 0 <= k < n implies #[trigger] a@[k].value() == if k < (s + 1) * (2 * p) {
                lvl[k]
            } else {
                y0[k]
            } by {
                assert((s + 1) * (2 * p) == offset + 2 * p) by (nonlinear_arith)
                    requires
                        offset == s * (2 * p),
                ;
                if offset <= k < offset + 2 * p {
                    let i = k - offset;
                    lemma_block_index(s as int, p as int, i);
                    if i < p {
                        assert(before[k + p].value() == y0[k + p]);
                        assert(before[k].value() == y0[k]);
                    } else {
                        assert(before[k - p].value() == y0[k - p]);
                        assert(before[k].value() == y0[k]);
                    }
                }
            }
        }
        let t = trailing_ones(s);
        let b = back[t as usize];
        proof {
            assert(back@[t as int].rep() < M);
            lemma_reduced_product(now.rep(), b.rep(), M);
            self::ntt_laws::lemma_ones_below(s as nat, t as nat);
        }
        now = now.mul(b);
        s += 1;
    }
    proof {
        assert forall|k: int| 0 <= k < n implies #[trigger] a@[k].value() == lvl[k] by {
            assert(w * (2 * p) == w * 2 * p) by (nonlinear_arith);
        }
        assert(values(a@) =~= lvl);
    }
}

/// One butterfly block of the inverse transform: `(u, v)` to `(u + v, (u - v) d)` on the
/// halves of `a[offset .. offset + 2 p]`.
fn ntt_inv_block<const M: u128>(a: &mut Vec<StaticModInt<M>>, offset: usize, p: usize, d: StaticModInt<M>)
    requires
        valid_modulus(M),
        all_reduced(old(a)@),
        d.rep() < M,
        offset + 2 * p <= old(a)@.len(),
    ensures
        final(a)@.len() == old(a)@.len(),
        all_reduced(final(a)@),
        forall|k: int| 0 <= k < old(a)@.len() ==> (#[trigger] final(a)@[k]).value() == if offset <= k < offset + p {
            (old(a)@[k].value() + old(a)@[k + p].value()) % (M as int)
        } else if offset + p <= k < offset + 2 * p {
            ((old(a)@[k - p].value() - old(a)@[k].value()) * d.value()) % (M as int)
        } else {
            old(a)@[k].value()
        },
{
    let n = a.len();
    let ghost a0 = a@;
    let ghost mm = M as int;
    let mut i: usize = 0;
    while i < p
        invariant
            valid_modulus(M),
            mm == M as int,
            a.len() == n,
            a0.len() == n,
            all_reduced(a@),
            d.rep() < M,
            offset + 2 * p <= n,
            i <= p,
            forall|k: int| 0 <= k < n ==> (#[trigger] a@[k]).value() == if offset <= k < offset + i {
                (a0[k].value() + a0[k + p].value()) % mm
            } else if offset + p <= k < offset + p + i {
                ((a0[k - p].value() - a0[k].value()) * d.value()) % mm
            } else {
                a0[k].value()
            },
            forall|k: int| 0 <= k < n && !(offset <= k < offset + i) && !(offset + p <= k < offset + p + i) ==> #[trigger] a@[k]
                == a0[k],
        decreases p - i,
    {
        let l = a[offset + i];
        let r = a[offset + i + p];
        proof {
            assert(a@[offset + i as int].rep() < M);
            assert(a@[offset + i + p].rep() < M);
        }
        let dd = l.sub(r);
        proof {
            lemma_reduced_product(dd.rep(), d.rep(), M);
        }
        a[offset + i] = l.add(r);
        a[offset + i + p] = dd.mul(d);
        proof {
            let lv = a0[offset + i as int].value();
            let rv = a0[offset + i + p].value();
            lemma_mul_mod_noop_left(lv - rv, d.value(), mm);
        }
        i += 1;
    }
}

/// Multiplies every element by the inverse of the length.
pub(crate) fn divide_by_length<const M: u128>(a: &mut Vec<StaticModInt<M>>)
    requires
        valid_modulus(M),
        M >= 3,
        all_reduced(old(a)@),
        spec_gcd((old(a)@.len() as int % M as int) as nat, M as nat) == 1,
    ensures
        final(a)@.len() == old(a)@.len(),
        all_reduced(final(a)@),
        forall|k: int| 0 <= k < old(a)@.len() ==> (#[trigger] final(a)@[k]).value()
            * (old(a)@.len() as int % M as int) % (M as int) == old(a)@[k].value(),
        exists|ni: int| {
            &&& #[trigger] is_inverse_mod(M, old(a)@.len() as int % M as int, ni)
            &&& forall|k: int| 0 <= k < old(a)@.len() ==> (#[trigger] final(a)@[k]).value() == (old(a)@[k].value() * ni) % (M as int)
        },
{
    let n = a.len();
    let ghost a0 = a@;
    let ni = match StaticModInt::<M>::new(n as u128).inv() {
        Ok(ni) => ni,
        Err(_) => {
            proof {
                assert(false);
            }
            return;
        },
    };
    let mut k: usize = 0;
    while k < n
        invariant
            valid_modulus(M),
            M >= 3,
            a.len() == n,
            n == a0.len(),
            all_reduced(a@),
            ni.rep() < M,
            ((n as int % M as int) * ni.value()) % (M as int) == 1int % (M as int),
            k <= n,
            forall|j: int| k <= j < n ==> a@[j] == a0[j],
            forall|j: int| 0 <= j < k ==> (#[trigger] a@[j]).value() * (n as int % M as int) % (M as int) == a0[j].value(),
            forall|j: int| 0 <= j < k ==> (#[trigger] a@[j]).value() == (a0[j].value() * ni.value()) % (M as int),
        decreases n - k,
    {
        let x = a[k];
        proof {
            assert(a@[k as int].rep() < M);
            lemma_reduced_product(x.rep(), ni.rep(), M);
        }
        let y = x.mul(ni);
        proof {
            lemma_div_inverse(x.value(), ni.value(), n as int % M as int, M as int);
        }
        a[k] = y;
        k += 1;
    }
    proof {
        lemma_small_mod(1, M as nat);
        let w = ni.value();
        crate::arith::lemma_redc_mod(M as int, ni.rep() as int);
        assert(is_inverse_mod(M, n as int % M as int, w));
        assert(forall|k: int| 0 <= k < n ==> (#[trigger] a@[k]).value() == (a0[k].value() * w) % (M as int));
    }
}

/// `((x y mod m) c) mod m = x mod m` when `c y = 1 (mod m)`, for a residue `x`.
proof fn lemma_div_inverse(x: int, y: int, c: int, m: int)
    requires
        m > 1,
        0 <= x < m,
        (c * y) % m == 1int % m,
    ensures
        ((x * y) % m) * c % m == x,
{
    lemma_mul_mod_noop_left(x * y, c, m);
    assert((x * y) * c == x * (c * y)) by (nonlinear_arith);
    lemma_mul_mod_noop_right(x, c * y, m);
    lemma_small_mod(1, m as nat);
    lemma_small_mod(x as nat, m as nat);
}

/// `sum_{j < i} a[j] b[k - j]` over the `j` for which `k - j` indexes `b`.
pub open spec fn conv_partial(a: Seq<int>, b: Seq<int>, k: int, i: nat) -> int
    decreases i,
{
    if i == 0 {
        0
    } else {
        conv_partial(a, b, k, (i - 1) as nat) + if 0 <= k - (i - 1) < b.len() {
            a[i - 1] * b[k - (i - 1)]
        } else {
            0
        }
    }
}

/// The coefficient of `x^k` in the product of the polynomials with coefficients `a` and `b`.
pub open spec fn conv_coef(a: Seq<int>, b: Seq<int>, k: int) -> int {
    conv_partial(a, b, k, a.len())
}

/// The length of the product of polynomials with `la` and `lb` coefficients (`0` when either
/// is empty).
pub open spec fn conv_len(la: int, lb: int) -> int {
    if la == 0 || lb == 0 {
        0
    } else {
        la + lb - 1
    }
}

/// The partial sums after the first `i` rows and `j` columns of the schoolbook product.
pub open spec fn schoolbook_sum(a: Seq<int>, b: Seq<int>, k: int, i: nat, j: int) -> int {
    conv_partial(a, b, k, i) + if 0 <= k - i < j && i < a.len() {
        a[i as int] * b[k - i]
    } else {
        0
    }
}

/// Adding the term `a[i] b[j]` at `k = i + j` moves the schoolbook sum one column on.
proof fn lemma_schoolbook_step(a: Seq<int>, b: Seq<int>, k: int, i: nat, j: int, m: int)
    requires
        m > 0,
        i < a.len(),
        0 <= j < b.len(),
    ensures
        k == i + j ==> ((schoolbook_sum(a, b, k, i, j) % m) + (a[i as int] * b[j]) % m) % m
            == schoolbook_sum(a, b, k, i, j + 1) % m,
        k != i + j ==> schoolbook_sum(a, b, k, i, j) == schoolbook_sum(a, b, k, i, j + 1),
{
    lemma_add_mod_noop(schoolbook_sum(a, b, k, i, j), a[i as int] * b[j], m);
}

/// A finished row of the schoolbook product is the next partial sum.
proof fn lemma_schoolbook_row(a: Seq<int>, b: Seq<int>, k: int, i: nat)
    requires
        i < a.len(),
    ensures
        schoolbook_sum(a, b, k, i, b.len() as int) == conv_partial(a, b, k, i + 1),
        schoolbook_sum(a, b, k, i + 1, 0) == conv_partial(a, b, k, i + 1),
{
}

/// The schoolbook product of residue sequences.
pub fn convolution_naive<const M: u128>(a: &[StaticModInt<M>], b: &[StaticModInt<M>]) -> (c: Vec<StaticModInt<M>>)
    requires
        valid_modulus(M),
        all_reduced(a@),
        all_reduced(b@),
        a@.len() + b@.len() <= usize::MAX,
    ensures
        c@.len() == conv_len(a@.len() as int, b@.len() as int),
        all_reduced(c@),
        forall|k: int| 0 <= k < c@.len() ==> (#[trigger] c@[k]).value() == conv_coef(values(a@), values(b@), k)
            % (M as int),
{
    if a.len() == 0 || b.len() == 0 {
        return Vec::new();
    }
    let la = a.len();
    let lb = b.len();
    let lc = la + lb - 1;
    let ghost va = values(a@);
    let ghost vb = values(b@);
    let zero = StaticModInt::<M>::raw(0);
    let mut c: Vec<StaticModInt<M>> = Vec::new();
    while c.len() < lc
        invariant
            valid_modulus(M),
            c.len() <= lc,
            forall|k: int| 0 <= k < c.len() ==> #[trigger] c@[k] == zero,
        decreases lc - c.len(),
    {
        c.push(zero);
    }
    proof {
        lemma_mul_basics(crate::arith::r_inv(M as int));
        lemma_small_mod(0, M as nat);
        assert(zero.value() == 0);
    }
    let mut i: usize = 0;
    while i < la
        invariant
            valid_modulus(M),
            la == a@.len(),
            lb == b@.len(),
            lc == la + lb - 1,
            va == values(a@),
            vb == values(b@),
            all_reduced(a@),
            all_reduced(b@),
            c@.len() == lc,
            all_reduced(c@),
            i <= la,
            forall|k: int| 0 <= k < lc ==> (#[trigger] c@[k]).value() == conv_partial(va, vb, k, i as nat) % (M as int),
        decreases la - i,
    {
        let mut j: usize = 0;
        while j < lb
            invariant
                valid_modulus(M),
                la == a@.len(),
                lb == b@.len(),
                lc == la + lb - 1,
                va == values(a@),
                vb == values(b@),
                all_reduced(a@),
                all_reduced(b@),
                c@.len() == lc,
                all_reduced(c@),
                i < la,
                j <= lb,
                forall|k: int| 0 <= k < lc ==> (#[trigger] c@[k]).value() == schoolbook_sum(va, vb, k, i as nat, j as int)
                    % (M as int),
            decreases lb - j,
        {
            let x = a[i];
            let y = b[j];
            let z = c[i + j];
            proof {
                assert(a@[i as int].rep() < M);
                assert(b@[j as int].rep() < M);
                assert(c@[i + j].rep() < M);
                lemma_reduced_product(x.rep(), y.rep(), M);
            }
            let t = x.mul(y);
            let ghost old_c = c@;
            c[i + j] = z.add(t);
            proof {
                assert forall|k: int| 0 <= k < lc implies (#[trigger] c@[k]).value() == schoolbook_sum(va, vb, k, i as nat, j + 1)
                    % (M as int) by {
                    lemma_schoolbook_step(va, vb, k, i as nat, j as int, M as int);
                    if k != i + j {
                        assert(c@[k] == old_c[k]);
                    }
                }
            }
            j += 1;
        }
        proof {
            assert forall|k: int| 0 <= k < lc implies (#[trigger] c@[k]).value() == conv_partial(va, vb, k, (i + 1) as nat)
                % (M as int) by {
                lemma_schoolbook_row(va, vb, k, i as nat);
            }
        }
        i += 1;
    }
    c
}

/// A length `n` that divides `m - 1` is below `m` and coprime to it.
proof fn lemma_divisor_of_pred_coprime(n: nat, m: nat)
    requires
        n >= 1,
        m >= 3,
        (m - 1) as nat % n == 0,
    ensures
        n < m,
        n % m == n,
        spec_gcd(n % m, m) == 1,
{
    crate::arith::lemma_divisor_le(n as int, (m - 1) as int);
    lemma_small_mod(n, m);
    crate::arith::lemma_gcd_divides(n, m);
    let g = spec_gcd(n, m);
    lemma_fundamental_div_mod((m - 1) as int, n as int);
    lemma_fundamental_div_mod(n as int, g as int);
    lemma_fundamental_div_mod(m as int, g as int);
    let q = (m - 1) as int / n as int;
    let r = n as int / g as int;
    let t = m as int / g as int;
    // g divides m and m - 1 = n q = g r q, hence g divides 1
    assert(g * (t - r * q) == 1) by (nonlinear_arith)
        requires
            m - 1 == n * q,
            n == g * r,
            m == g * t,
    ;
    let y = t - r * q;
    assert(g == 1) by (nonlinear_arith)
        requires
            g * y == 1,
            g >= 1,
    ;
}

/// Reverses `v[lo..]` in place.
pub(crate) fn reverse_from<T: Copy>(v: &mut Vec<T>, lo: usize)
    requires
        lo <= old(v)@.len(),
    ensures
        final(v)@ == old(v)@.subrange(0, lo as int) + old(v)@.subrange(lo as int, old(v)@.len() as int).reverse(),
{
    let ghost v0 = v@;
    let len = v.len();
    let mut i = lo;
    let mut j = len;
    while j - i > 1
        invariant
            v@.len() == len,
            len == v0.len(),
            lo <= i <= j <= len,
            i - lo == len - j,
            forall|k: int| 0 <= k < lo ==> #[trigger] v@[k] == v0[k],
            forall|k: int| i <= k < j ==> #[trigger] v@[k] == v0[k],
            forall|k: int| lo <= k < i ==> #[trigger] v@[k] == v0[len - 1 - (k - lo)],
            forall|k: int| j <= k < len ==> #[trigger] v@[k] == v0[lo + (len - 1 - k)],
        decreases j - i,
    {
        j -= 1;
        let x = v[i];
        let y = v[j];
        v[i] = y;
        v[j] = x;
        i += 1;
    }
    proof {
        let r = v0.subrange(0, lo as int) + v0.subrange(lo as int, len as int).reverse();
        assert(v@ =~= r);
    }
}

/// Copies `v[lo..hi]`.
fn copy_range<T: Copy>(v: &Vec<T>, lo: usize, hi: usize) -> (r: Vec<T>)
    requires
        lo <= hi <= v@.len(),
    ensures
        r@ == v@.subrange(lo as int, hi as int),
{
    let mut r: Vec<T> = Vec::new();
    let mut k = lo;
    while k < hi
        invariant
            lo <= k <= hi <= v@.len(),
            r@ == v@.subrange(lo as int, k as int),
        decreases hi - k,
    {
        r.push(v[k]);
        k += 1;
        proof {
            assert(r@ =~= v@.subrange(lo as int, k as int));
        }
    }
    r
}

/// `v` extended or cut to length `len`, extended with `zero`.
fn resized<const M: u128>(v: &[StaticModInt<M>], len: usize) -> (r: Vec<StaticModInt<M>>)
    requires
        valid_modulus(M),
        all_reduced(v@),
    ensures
        r@.len() == len,
        all_reduced(r@),
        forall|k: int| 0 <= k < len && k < v@.len() ==> #[trigger] r@[k] == v@[k],
        forall|k: int| v@.len() <= k < len ==> (#[trigger] r@[k]).rep() == 0,
{
    let mut r: Vec<StaticModInt<M>> = Vec::new();
    let mut k: usize = 0;
    while k < len
        invariant
            valid_modulus(M),
            all_reduced(v@),
            k <= len,
            r@.len() == k,
            all_reduced(r@),
            forall|i: int| 0 <= i < k && i < v@.len() ==> #[trigger] r@[i] == v@[i],
            forall|i: int| v@.len() <= i < k ==> (#[trigger] r@[i]).rep() == 0,
        decreases len - k,
    {
        if k < v.len() {
            proof {
                assert(v@[k as int].rep() < M);
            }
            r.push(v[k]);
        } else {
            r.push(StaticModInt::raw(0));
        }
        k += 1;
    }
    r
}

/// Pointwise product `a[i] * b[i]` into `a`.
fn pointwise_mul<const M: u128>(a: &mut Vec<StaticModInt<M>>, b: &Vec<StaticModInt<M>>)
    requires
        valid_modulus(M),
        old(a)@.len() == b@.len(),
        all_reduced(old(a)@),
        all_reduced(b@),
    ensures
        final(a)@.len() == old(a)@.len(),
        all_reduced(final(a)@),
        forall|k: int| 0 <= k < b@.len() ==> (#[trigger] final(a)@[k]).value() == (old(a)@[k].value() * b@[k].value()) % (M as int),
{
    let ghost a0 = a@;
    let n = a.len();
    let mut k: usize = 0;
    while k < n
        invariant
            valid_modulus(M),
            a@.len() == n,
            n == b@.len(),
            n == a0.len(),
            all_reduced(a@),
            all_reduced(b@),
            k <= n,
            forall|i: int| k <= i < n ==> a@[i] == a0[i],
            forall|i: int| 0 <= i < k ==> (#[trigger] a@[i]).value() == (a0[i].value() * b@[i].value()) % (M as int),
        decreases n - k,
    {
        let x = a[k];
        let y = b[k];
        proof {
            assert(a@[k as int].rep() < M);
            assert(b@[k as int].rep() < M);
            lemma_reduced_product(x.rep(), y.rep(), M);
        }
        a[k] = x.mul(y);
        k += 1;
    }
}

/// The transforms can run on a product of length `len`: the least power of two at least
/// `len` fits a `usize` and divides `m - 1`.
pub open spec fn ntt_length_ok(m: u128, len: int) -> bool {
    len <= usize_top_bit() && (m - 1) as nat % ceil_pow2(len as nat) == 0
}

/// The product of `a` and `b` by transforms of length a power of two that divides `M - 1`.
pub fn convolution_proth<const M: u128>(a: &[StaticModInt<M>], b: &[StaticModInt<M>]) -> (c: Vec<StaticModInt<M>>)
    requires
        ntt_ready(M),
        all_reduced(a@),
        all_reduced(b@),
        a@.len() + b@.len() <= usize::MAX,
        a@.len() > 0 && b@.len() > 0 ==> ntt_length_ok(M, a@.len() + b@.len() - 1),
    ensures
        c@.len() == conv_len(a@.len() as int, b@.len() as int),
        all_reduced(c@),
        forall|k: int| 0 <= k < c@.len() ==> (#[trigger] c@[k]).value() == conv_coef(values(a@), values(b@), k) % (M as int),
{
    if a.len() == 0 || b.len() == 0 {
        return Vec::new();
    }
    let lc = a.len() + b.len() - 1;
    let n = next_power_of_two(lc);
    let ghost l = lemma_ceil_pow2_exp(lc as nat);
    proof {
        lemma_ceil_pow2(lc as nat);
        lemma_divisor_of_pred_coprime(n as nat, M as nat);
        lemma_pow2_unfold(l + 1);
        lemma_pow2_pos(l);
    }
    let mut fa = resized(a, n);
    let fb = resized(b, n);
    let mut fb = fb;
    let ghost fa0 = fa@;
    let ghost fb0 = fb@;
    ntt(&mut fa);
    ntt(&mut fb);
    let ghost fa1 = fa@;
    let ghost fb1 = fb@;
    pointwise_mul(&mut fa, &fb);
    let ghost prod = fa@;
    ntt_inv(&mut fa, true);
    proof {
        let cs = self::product_laws::conv_seq(values(a@), values(b@), n as nat);
        lemma_proth_product(a@, b@, fa0, fb0, fa1, fb1, prod, n as nat, l);
        lemma_proth_result(prod, fa@, cs, l);
    }
    let c = copy_range(&fa, 0, lc);
    proof {
        assert(forall|k: int| 0 <= k < c@.len() ==> #[trigger] c@[k] == fa@[k]);
    }
    c
}

/// The pointwise product of the transforms of the zero-padded `a` and `b` holds the values
/// of their product at the points of the transform.
proof fn lemma_proth_product<const M: u128>(
    a: Seq<StaticModInt<M>>,
    b: Seq<StaticModInt<M>>,
    fa0: Seq<StaticModInt<M>>,
    fb0: Seq<StaticModInt<M>>,
    fa1: Seq<StaticModInt<M>>,
    fb1: Seq<StaticModInt<M>>,
    prod: Seq<StaticModInt<M>>,
    n: nat,
    l: nat,
)
    requires
        valid_modulus(M),
        n == pow2(l),
        (M - 1) as nat % n == 0,
        a.len() + b.len() - 1 <= n,
        a.len() <= n,
        b.len() <= n,
        fa0.len() == n,
        fb0.len() == n,
        forall|k: int| 0 <= k < n && k < a.len() ==> #[trigger] fa0[k] == a[k],
        forall|k: int| a.len() <= k < n ==> (#[trigger] fa0[k]).rep() == 0,
        forall|k: int| 0 <= k < n && k < b.len() ==> #[trigger] fb0[k] == b[k],
        forall|k: int| b.len() <= k < n ==> (#[trigger] fb0[k]).rep() == 0,
        is_transform(fa0, fa1),
        is_transform(fb0, fb1),
        prod.len() == n,
        forall|k: int| 0 <= k < n ==> (#[trigger] prod[k]).value() == (fa1[k].value() * fb1[k].value()) % (M as int),
    ensures
        self::ntt_laws::evaluates_at_points(prod, self::product_laws::conv_seq(values(a), values(b), n)),
{
    let va = values(a);
    let vb = values(b);
    let cs = self::product_laws::conv_seq(va, vb, n);
    lemma_pow2_unfold(l + 1);
    lemma_pow2_pos(l);
    assert(pow2(l) <= fa0.len() < pow2(l + 1));
    assert forall|t: int| 0 <= t < cs.len() implies #[trigger] prod[t].value() == poly_eval(cs, ntt_point(M, t)) % (M as int) by {
        let x = ntt_point(M, t);
        lemma_padded_eval(a, fa0, n, x);
        lemma_padded_eval(b, fb0, n, x);
        assert(fa1[t].value() == poly_eval(values(fa0).subrange(0, pow2(l) as int), x) % (M as int));
        assert(fb1[t].value() == poly_eval(values(fb0).subrange(0, pow2(l) as int), x) % (M as int));
        lemma_mul_mod_noop(poly_eval(va, x), poly_eval(vb, x), M as int);
        self::product_laws::lemma_poly_eval_conv(va, vb, n, x);
    }
}

/// The inverse transform, divided by the length, of the values of `cs` at the points is `cs`.
proof fn lemma_proth_result<const M: u128>(prod: Seq<StaticModInt<M>>, fin: Seq<StaticModInt<M>>, cs: Seq<int>, l: nat)
    requires
        prod.len() == pow2(l),
        cs.len() == pow2(l),
        (M - 1) as nat % pow2(l) == 0,
        self::ntt_laws::evaluates_at_points(prod, cs),
        is_inverse_transform(prod, fin, true),
    ensures
        forall|k: int| 0 <= k < pow2(l) ==> (#[trigger] fin[k]).value() == cs[k] % (M as int),
{
    lemma_pow2_unfold(l + 1);
    lemma_pow2_pos(l);
    assert(pow2(l) <= prod.len() < pow2(l + 1));
}

/// The zero-padded copy `v` of `a` evaluates like `a`.
proof fn lemma_padded_eval<const M: u128>(a: Seq<StaticModInt<M>>, v: Seq<StaticModInt<M>>, n: nat, x: int)
    requires
        valid_modulus(M),
        a.len() <= n,
        v.len() == n,
        forall|k: int| 0 <= k < n && k < a.len() ==> #[trigger] v[k] == a[k],
        forall|k: int| a.len() <= k < n ==> (#[trigger] v[k]).rep() == 0,
    ensures
        poly_eval(values(v).subrange(0, n as int), x) == poly_eval(values(a), x),
{
    let z = Seq::new((n - a.len()) as nat, |i: int| 0int);
    lemma_mul_basics(crate::arith::r_inv(M as int));
    lemma_small_mod(0, M as nat);
    assert(values(v).subrange(0, n as int) =~= values(a) + z);
    self::ntt_laws::lemma_poly_eval_append(values(a), z, x);
    self::product_laws::lemma_poly_eval_zeros(z, x);
    lemma_mul_basics(pow(x, a.len()));
}

/// Whether the transforms modulo `M` are available, decided at run time by the primality test
/// and a search for a residue of order `2^h`.
pub fn ntt_available<const M: u128>() -> (r: bool)
    ensures
        r == ntt_ready(M),
{
    M % 2 == 1 && M < 0x8000_0000_0000_0000_0000_0000_0000_0000 && M >= 3 && is_prime(M)
        && find_power_2_generator::<M>().is_some()
}

/// Whether a product of length `len` fits the transforms modulo `M`, decided at run time.
pub(crate) fn ntt_length_fits<const M: u128>(len: usize) -> (r: bool)
    requires
        M >= 1,
    ensures
        r == ntt_length_ok(M, len as int),
{
    if len > usize::MAX / 2 + 1 {
        return false;
    }
    let n = next_power_of_two(len);
    proof {
        lemma_ceil_pow2(len as nat);
    }
    (M - 1) % (n as u128) == 0
}

/// The residues of `x` as elements modulo `M`.
pub(crate) fn to_residues<const M: u128>(x: &[u128]) -> (r: Vec<StaticModInt<M>>)
    requires
        valid_modulus(M),
    ensures
        r@.len() == x@.len(),
        all_reduced(r@),
        forall|k: int| 0 <= k < x@.len() ==> (#[trigger] r@[k]).value() == x@[k] as int % (M as int),
{
    let mut r: Vec<StaticModInt<M>> = Vec::new();
    let mut k: usize = 0;
    while k < x.len()
        invariant
            valid_modulus(M),
            k <= x@.len(),
            r@.len() == k,
            all_reduced(r@),
            forall|i: int| 0 <= i < k ==> (#[trigger] r@[i]).value() == x@[i] as int % (M as int),
        decreases x@.len() - k,
    {
        r.push(StaticModInt::<M>::new(x[k]));
        k += 1;
    }
    r
}

/// The plain residues in `[0, M)` of the elements of `x`.
pub(crate) fn to_plain<const M: u128>(x: &[StaticModInt<M>]) -> (r: Vec<u128>)
    requires
        valid_modulus(M),
    ensures
        r@.len() == x@.len(),
        forall|k: int| 0 <= k < x@.len() ==> #[trigger] r@[k] == x@[k].value(),
        forall|k: int| 0 <= k < x@.len() ==> #[trigger] r@[k] < M,
{
    let mut r: Vec<u128> = Vec::new();
    let mut k: usize = 0;
    while k < x.len()
        invariant
            valid_modulus(M),
            k <= x@.len(),
            r@.len() == k,
            forall|i: int| 0 <= i < k ==> #[trigger] r@[i] == x@[i].value(),
            forall|i: int| 0 <= i < k ==> #[trigger] r@[i] < M,
        decreases x@.len() - k,
    {
        let v = x[k].val();
        proof {
            lemma_mod_bound(x@[k as int].rep() as int * crate::arith::r_inv(M as int), M as int);
        }
        r.push(v);
        k += 1;
    }
    r
}

/// The integers held by `s`.
pub open spec fn as_ints(s: Seq<u128>) -> Seq<int> {
    s.map_values(|x: u128| x as int)
}

/// `convolution_proth` on plain residues (not in Montgomery form), in and out.
pub fn convolution_raw<const M: u128>(a: &[u128], b: &[u128]) -> (c: Vec<u128>)
    requires
        ntt_ready(M),
        a@.len() + b@.len() <= usize::MAX,
        a@.len() > 0 && b@.len() > 0 ==> ntt_length_ok(M, a@.len() + b@.len() - 1),
    ensures
        c@.len() == conv_len(a@.len() as int, b@.len() as int),
        forall|k: int| 0 <= k < c@.len() ==> #[trigger] c@[k] < M,
        forall|k: int| 0 <= k < c@.len() ==> #[trigger] c@[k] == conv_coef(as_ints(a@), as_ints(b@), k) % (M as int),
{
    if a.len() == 0 || b.len() == 0 {
        return Vec::new();
    }
    let ma = to_residues::<M>(a);
    let mb = to_residues::<M>(b);
    let mc = convolution_proth(ma.as_slice(), mb.as_slice());
    let c = to_plain(mc.as_slice());
    proof {
        assert forall|k: int| 0 <= k < c@.len() implies #[trigger] c@[k] == conv_coef(as_ints(a@), as_ints(b@), k) % (M as int) by {
            assert forall|i: int| 0 <= i < a@.len() implies #[trigger] values(ma@)[i] % (M as int) == as_ints(a@)[i] % (M as int) by {
                lemma_mod_twice(a@[i] as int, M as int);
            }
            assert forall|i: int| 0 <= i < b@.len() implies #[trigger] values(mb@)[i] % (M as int) == as_ints(b@)[i] % (M as int) by {
                lemma_mod_twice(b@[i] as int, M as int);
            }
            self::product_laws::lemma_conv_congruent(values(ma@), as_ints(a@), values(mb@), as_ints(b@), k, M as int);
            lemma_mod_twice(conv_coef(values(ma@), values(mb@), k), M as int);
        }
    }
    c
}

/// The modulus `M` and the product length suit the transforms, and so do the three NTT primes.
pub(crate) fn garner_lengths_fit(len: usize) -> (r: bool)
    ensures
        r == (ntt_ready(M1) && ntt_ready(M2) && ntt_ready(M3) && ntt_length_ok(M1, len as int)
            && ntt_length_ok(M2, len as int) && ntt_length_ok(M3, len as int)),
{
    ntt_available::<M1>() && ntt_available::<M2>() && ntt_available::<M3>() && ntt_length_fits::<M1>(len)
        && ntt_length_fits::<M2>(len) && ntt_length_fits::<M3>(len)
}

/// The product of `a` and `b` modulo any `M`: by transforms modulo `M` where they apply, else by
/// transforms modulo the three NTT primes and Garner reconstruction (by the schoolbook product
/// should those primes fail their run-time checks).
pub fn convolution_arbitrary<const M: u128>(a: &[StaticModInt<M>], b: &[StaticModInt<M>]) -> (c: Vec<StaticModInt<M>>)
    requires
        valid_modulus(M),
        all_reduced(a@),
        all_reduced(b@),
        a@.len() + b@.len() <= usize::MAX,
    ensures
        c@.len() == conv_len(a@.len() as int, b@.len() as int),
        all_reduced(c@),
        forall|k: int| 0 <= k < c@.len() ==> (#[trigger] c@[k]).value() == conv_coef(values(a@), values(b@), k) % (M as int),
{
    if a.len() == 0 || b.len() == 0 {
        return Vec::new();
    }
    let lc = a.len() + b.len() - 1;
    if M >= 3 && is_prime(M) {
        if ntt_length_fits::<M>(lc) && find_power_2_generator::<M>().is_some() {
            return convolution_proth(a, b);
        }
    }
    if !garner_lengths_fit(lc) {
        return convolution_naive(a, b);
    }
    let pa = to_plain(a);
    let pb = to_plain(b);
    let c1 = convolution_raw::<M1>(pa.as_slice(), pb.as_slice());
    let c2 = convolution_raw::<M2>(pa.as_slice(), pb.as_slice());
    let c3 = convolution_raw::<M3>(pa.as_slice(), pb.as_slice());
    let g = Garner3::new(StaticModInt::<M>::mon());
    let r = g.reconstruct_vector(c1, c2, c3);
    let ghost va = values(a@);
    let ghost vb = values(b@);
    proof {
        assert(as_ints(pa@) =~= va);
        assert(as_ints(pb@) =~= vb);
        assert forall|i: int| 0 <= i < va.len() implies 0 <= #[trigger] va[i] < M by {
            lemma_mod_bound(a@[i].rep() as int * crate::arith::r_inv(M as int), M as int);
        }
        assert forall|i: int| 0 <= i < vb.len() implies 0 <= #[trigger] vb[i] < M by {
            lemma_mod_bound(b@[i].rep() as int * crate::arith::r_inv(M as int), M as int);
        }
        assert forall|k: int| 0 <= k < r@.len() implies #[trigger] r@[k] == (conv_coef(va, vb, k) * radix()) % (M as int) by {
            lemma_garner_coefficient(va, vb, k, M as int, lc as int);
        }
    }
    let mut c: Vec<StaticModInt<M>> = Vec::new();
    let mut k: usize = 0;
    while k < r.len()
        invariant
            valid_modulus(M),
            g.wf(),
            g.modulus().n == M,
            r@.len() == lc,
            forall|i: int| 0 <= i < r@.len() ==> #[trigger] r@[i] == (conv_coef(va, vb, i) * radix()) % (M as int),
            k <= r@.len(),
            c@.len() == k,
            all_reduced(c@),
            forall|i: int| 0 <= i < k ==> (#[trigger] c@[i]).value() == conv_coef(va, vb, i) % (M as int),
        decreases r@.len() - k,
    {
        proof {
            lemma_mod_bound(conv_coef(va, vb, k as int) * radix(), M as int);
            crate::arith::lemma_value_of_repr(M as int, conv_coef(va, vb, k as int));
        }
        c.push(StaticModInt::raw(r[k]));
        k += 1;
    }
    c
}

/// A coefficient of the product of residue sequences modulo `m < 2^127`, of a length that a
/// `usize` holds, is below `M1 M2 M3`, so Garner's reconstruction from its residues is exact.
proof fn lemma_garner_coefficient(va: Seq<int>, vb: Seq<int>, k: int, m: int, lc: int)
    requires
        0 < m < 0x8000_0000_0000_0000_0000_0000_0000_0000,
        va.len() <= lc <= usize_top_bit(),
        forall|i: int| 0 <= i < va.len() ==> 0 <= #[trigger] va[i] < m,
        forall|i: int| 0 <= i < vb.len() ==> 0 <= #[trigger] vb[i] < m,
    ensures
        ({
            let v = conv_coef(va, vb, k);
            &&& 0 <= v < M1 * M2 * M3
            &&& garner_value(v % (M1 as int), v % (M2 as int), v % (M3 as int)) == v
        }),
{
    let v = conv_coef(va, vb, k);
    let top = 0x8000_0000_0000_0000_0000_0000_0000_0000int;
    self::product_laws::lemma_conv_bound(va, vb, k, m - 1, m - 1);
    assert(va.len() * ((m - 1) * (m - 1)) < M1 * M2 * M3) by (nonlinear_arith)
        requires
            0 <= va.len() <= usize_top_bit(),
            0 <= m - 1 < top,
            top == 0x8000_0000_0000_0000_0000_0000_0000_0000int,
    ;
    crate::garner::lemma_garner_unique(v);
}

/// The transpose of `ntt` in place: the inverse transform without division, followed by
/// reversing all entries but the first.
pub fn ntt_transpose<const M: u128>(a: &mut Vec<StaticModInt<M>>)
    requires
        ntt_ready(M),
        all_reduced(old(a)@),
    ensures
        final(a)@.len() == old(a)@.len(),
        all_reduced(final(a)@),
        old(a)@.len() <= 1 ==> final(a)@ == old(a)@,
        old(a)@.len() > 1 ==> exists|mid: Seq<StaticModInt<M>>| #[trigger] is_inverse_transform(old(a)@, mid, false)
            && final(a)@ == rev_tail(mid),
{
    let n = a.len();
    if n <= 1 {
        return;
    }
    ntt_inv(a, false);
    let ghost mid = a@;
    reverse_from(a, 1);
    proof {
        assert(is_inverse_transform(old(a)@, mid, false) && a@ == rev_tail(mid));
    }
}

/// `s` with all entries but the first reversed.
pub open spec fn rev_tail<T>(s: Seq<T>) -> Seq<T> {
    s.subrange(0, 1) + s.subrange(1, s.len() as int).reverse()
}

/// `y` is `x` divided by the length `n`: `y[k] n = x[k]` modulo `M`.
pub open spec fn divided_by_length<const M: u128>(x: Seq<StaticModInt<M>>, y: Seq<StaticModInt<M>>) -> bool {
    &&& y.len() == x.len()
    &&& forall|k: int| 0 <= k < x.len() ==> (#[trigger] y[k]).value() * (x.len() as int % M as int) % (M as int) == x[k].value()
}

/// The transpose of `ntt_inv` in place: reversing all entries but the first, the transform, and
/// with `divide_n` division by the length.
pub fn ntt_inv_transpose<const M: u128>(a: &mut Vec<StaticModInt<M>>, divide_n: bool)
    requires
        ntt_ready(M),
        all_reduced(old(a)@),
        divide_n && old(a)@.len() > 1 ==> spec_gcd((old(a)@.len() as int % M as int) as nat, M as nat) == 1,
    ensures
        final(a)@.len() == old(a)@.len(),
        all_reduced(final(a)@),
        old(a)@.len() <= 1 ==> final(a)@ == old(a)@,
        old(a)@.len() > 1 ==> exists|mid: Seq<StaticModInt<M>>| #[trigger] is_transform(rev_tail(old(a)@), mid) && (if divide_n {
            divided_by_length(mid, final(a)@)
        } else {
            final(a)@ == mid
        }),
{
    let n = a.len();
    if n <= 1 {
        return;
    }
    reverse_from(a, 1);
    let ghost rev = a@;
    ntt(a);
    let ghost mid = a@;
    if divide_n {
        divide_by_length(a);
    }
    proof {
        assert(rev == rev_tail(old(a)@));
        assert(is_transform(rev_tail(old(a)@), mid));
    }
}

/// `sum_{t < j} a[t] c[i + t]`.
pub open spec fn mp_partial(a: Seq<int>, c: Seq<int>, i: int, j: nat) -> int
    decreases j,
{
    if j == 0 {
        0
    } else {
        mp_partial(a, c, i, (j - 1) as nat) + a[j - 1] * c[i + j - 1]
    }
}

/// Entry `i` of the middle product: `sum_{t < la} a[t] c[i + t]`.
pub open spec fn mp_coef(a: Seq<int>, c: Seq<int>, i: int) -> int {
    mp_partial(a, c, i, a.len())
}

/// The middle product by its definition: `b[i] = sum_{t < la} a[t] c[i + t]` for
/// `i < lc - la + 1`.
pub fn middle_product_naive<const M: u128>(a: &[StaticModInt<M>], c: &[StaticModInt<M>]) -> (b: Vec<StaticModInt<M>>)
    requires
        valid_modulus(M),
        0 < a@.len() <= c@.len(),
        all_reduced(a@),
        all_reduced(c@),
    ensures
        b@.len() == c@.len() - a@.len() + 1,
        all_reduced(b@),
        forall|i: int| 0 <= i < b@.len() ==> (#[trigger] b@[i]).value() == mp_coef(values(a@), values(c@), i) % (M as int),
{
    let la = a.len();
    let lb = c.len() - la + 1;
    let ghost va = values(a@);
    let ghost vc = values(c@);
    let mut b: Vec<StaticModInt<M>> = Vec::new();
    let mut i: usize = 0;
    proof {
        lemma_mul_basics(crate::arith::r_inv(M as int));
        lemma_small_mod(0, M as nat);
    }
    while i < lb
        invariant
            valid_modulus(M),
            la == a@.len(),
            lb == c@.len() - la + 1,
            va == values(a@),
            vc == values(c@),
            all_reduced(a@),
            all_reduced(c@),
            i <= lb,
            b@.len() == i,
            all_reduced(b@),
            forall|k: int| 0 <= k < i ==> (#[trigger] b@[k]).value() == mp_coef(va, vc, k) % (M as int),
        decreases lb - i,
    {
        let mut acc = StaticModInt::<M>::raw(0);
        let mut t: usize = 0;
        while t < la
            invariant
                valid_modulus(M),
                la == a@.len(),
                lb == c@.len() - la + 1,
                va == values(a@),
                vc == values(c@),
                all_reduced(a@),
                all_reduced(c@),
                i < lb,
                t <= la,
                acc.rep() < M,
                acc.value() == mp_partial(va, vc, i as int, t as nat) % (M as int),
            decreases la - t,
        {
            let x = a[t];
            assert(i + t < c@.len());
            assert(c@.len() == c.len());
            let y = c[i + t];
            proof {
                assert(a@[t as int].rep() < M);
                assert(c@[i + t].rep() < M);
                lemma_reduced_product(x.rep(), y.rep(), M);
                lemma_add_mod_noop(mp_partial(va, vc, i as int, t as nat), va[t as int] * vc[i + t], M as int);
            }
            acc = acc.add(x.mul(y));
            t += 1;
        }
        b.push(acc);
        i += 1;
    }
    b
}

/// The middle product by transforms: `b[i] = sum_{t < la} a[t] c[i + t]`, the transpose of
/// multiplication by `a`.
pub fn middle_product_proth<const M: u128>(a: &[StaticModInt<M>], c: &[StaticModInt<M>]) -> (b: Vec<StaticModInt<M>>)
    requires
        ntt_ready(M),
        0 < a@.len() <= c@.len(),
        all_reduced(a@),
        all_reduced(c@),
        ntt_length_ok(M, c@.len() as int),
    ensures
        b@.len() == c@.len() - a@.len() + 1,
        all_reduced(b@),
        forall|i: int| 0 <= i < b@.len() ==> (#[trigger] b@[i]).value() == mp_coef(values(a@), values(c@), i) % (M as int),
{
    let la = a.len();
    let lc = c.len();
    let n = next_power_of_two(lc);
    let ghost l = lemma_ceil_pow2_exp(lc as nat);
    proof {
        lemma_ceil_pow2(lc as nat);
        lemma_divisor_of_pred_coprime(n as nat, M as nat);
    }
    let mut ra = vstd::slice::slice_to_vec(a);
    reverse_from(&mut ra, 0);
    proof {
        assert forall|k: int| 0 <= k < ra@.len() implies (#[trigger] ra@[k]).rep() < M by {
            assert(ra@[k] == a@[la - 1 - k]);
        }
    }
    let mut fa = resized(ra.as_slice(), n);
    let mut fc = resized(c, n);
    let ghost fa0 = fa@;
    let ghost fc0 = fc@;
    ntt(&mut fa);
    ntt(&mut fc);
    let ghost fa1 = fa@;
    let ghost fc1 = fc@;
    pointwise_mul(&mut fa, &fc);
    let ghost prod = fa@;
    ntt_inv(&mut fa, true);
    proof {
        let va = values(a@);
        let vc = values(c@);
        let vra = values(ra@);
        let full = self::product_laws::conv_seq(vra, vc, 2 * n as nat);
        let x = Seq::new(n as nat, |k: int| full[k] + full[k + n]);
        lemma_mp_product(ra@, c@, fa0, fc0, fa1, fc1, prod, n as nat, l);
        lemma_proth_result(prod, fa@, x, l);
        assert forall|i: int| 0 <= i < lc - la + 1 implies (#[trigger] fa@[la - 1 + i]).value() == mp_coef(va, vc, i) % (M as int) by {
            assert forall|s: int| 0 <= s < la implies #[trigger] vra[s] == va[la - 1 - s] by {
                assert(ra@[s] == a@[la - 1 - s]);
            }
            self::product_laws::lemma_conv_reverse(va, vra, vc, i);
            self::product_laws::lemma_conv_outside(vra, vc, la - 1 + i + n);
        }
    }
    let b = copy_range(&fa, la - 1, lc);
    proof {
        assert(forall|k: int| 0 <= k < b@.len() ==> #[trigger] b@[k] == fa@[la - 1 + k]);
    }
    b
}

/// The pointwise product of the transforms of the zero-padded `ra` and `c` holds the values,
/// at the points of the transform, of their product folded modulo `x^n - 1`.
proof fn lemma_mp_product<const M: u128>(
    ra: Seq<StaticModInt<M>>,
    c: Seq<StaticModInt<M>>,
    fa0: Seq<StaticModInt<M>>,
    fc0: Seq<StaticModInt<M>>,
    fa1: Seq<StaticModInt<M>>,
    fc1: Seq<StaticModInt<M>>,
    prod: Seq<StaticModInt<M>>,
    n: nat,
    l: nat,
)
    requires
        ntt_ready(M),
        n == pow2(l),
        (M - 1) as nat % n == 0,
        ra.len() <= n,
        c.len() <= n,
        fa0.len() == n,
        fc0.len() == n,
        forall|k: int| 0 <= k < n && k < ra.len() ==> #[trigger] fa0[k] == ra[k],
        forall|k: int| ra.len() <= k < n ==> (#[trigger] fa0[k]).rep() == 0,
        forall|k: int| 0 <= k < n && k < c.len() ==> #[trigger] fc0[k] == c[k],
        forall|k: int| c.len() <= k < n ==> (#[trigger] fc0[k]).rep() == 0,
        is_transform(fa0, fa1),
        is_transform(fc0, fc1),
        prod.len() == n,
        forall|k: int| 0 <= k < n ==> (#[trigger] prod[k]).value() == (fa1[k].value() * fc1[k].value()) % (M as int),
    ensures
        ({
            let full = self::product_laws::conv_seq(values(ra), values(c), 2 * n);
            self::ntt_laws::evaluates_at_points(prod, Seq::new(n, |k: int| full[k] + full[k + n]))
        }),
{
    let va = values(ra);
    let vc = values(c);
    let full = self::product_laws::conv_seq(va, vc, 2 * n);
    let x = Seq::new(n, |k: int| full[k] + full[k + n]);
    lemma_pow2_unfold(l + 1);
    lemma_pow2_pos(l);
    crate::arith::lemma_two_adic_bound((M - 1) as nat, l);
    assert(pow2(l) <= fa0.len() < pow2(l + 1));
    assert forall|t: int| 0 <= t < x.len() implies #[trigger] prod[t].value() == poly_eval(x, ntt_point(M, t)) % (M as int) by {
        let r = ntt_point(M, t);
        lemma_padded_eval(ra, fa0, n, r);
        lemma_padded_eval(c, fc0, n, r);
        assert(fa1[t].value() == poly_eval(values(fa0).subrange(0, pow2(l) as int), r) % (M as int));
        assert(fc1[t].value() == poly_eval(values(fc0).subrange(0, pow2(l) as int), r) % (M as int));
        lemma_mul_mod_noop(poly_eval(va, r), poly_eval(vc, r), M as int);
        self::product_laws::lemma_poly_eval_conv(va, vc, 2 * n, r);
        self::ntt_laws::lemma_point_is_root::<M>(l, t);
        self::product_laws::lemma_poly_eval_fold(full, x, n, r, M as int);
    }
}

/// `middle_product_proth` on plain residues (not in Montgomery form), in and out.
pub fn middle_product_raw<const M: u128>(a: &[u128], c: &[u128]) -> (b: Vec<u128>)
    requires
        ntt_ready(M),
        0 < a@.len() <= c@.len(),
        ntt_length_ok(M, c@.len() as int),
    ensures
        b@.len() == c@.len() - a@.len() + 1,
        forall|k: int| 0 <= k < b@.len() ==> #[trigger] b@[k] < M,
        forall|k: int| 0 <= k < b@.len() ==> #[trigger] b@[k] == mp_coef(as_ints(a@), as_ints(c@), k) % (M as int),
{
    let ma = to_residues::<M>(a);
    let mc = to_residues::<M>(c);
    let mb = middle_product_proth(ma.as_slice(), mc.as_slice());
    let b = to_plain(mb.as_slice());
    proof {
        assert forall|k: int| 0 <= k < b@.len() implies #[trigger] b@[k] == mp_coef(as_ints(a@), as_ints(c@), k) % (M as int) by {
            assert forall|i: int| 0 <= i < a@.len() implies #[trigger] values(ma@)[i] % (M as int) == as_ints(a@)[i] % (M as int) by {
                lemma_mod_twice(a@[i] as int, M as int);
            }
            assert forall|i: int| 0 <= i < c@.len() implies #[trigger] values(mc@)[i] % (M as int) == as_ints(c@)[i] % (M as int) by {
                lemma_mod_twice(c@[i] as int, M as int);
            }
            self::product_laws::lemma_mp_congruent(values(ma@), as_ints(a@), values(mc@), as_ints(c@), k, M as int, a@.len());
            lemma_mod_twice(mp_coef(values(ma@), values(mc@), k), M as int);
        }
    }
    b
}

/// The middle product modulo any `M`: by transforms modulo `M` where they apply, else by
/// transforms modulo the three NTT primes and Garner reconstruction (by the definition should
/// those primes fail their run-time checks).
pub fn middle_product_arbitrary<const M: u128>(a: &[StaticModInt<M>], c: &[StaticModInt<M>]) -> (b: Vec<StaticModInt<M>>)
    requires
        valid_modulus(M),
        0 < a@.len() <= c@.len(),
        all_reduced(a@),
        all_reduced(c@),
    ensures
        b@.len() == c@.len() - a@.len() + 1,
        all_reduced(b@),
        forall|i: int| 0 <= i < b@.len() ==> (#[trigger] b@[i]).value() == mp_coef(values(a@), values(c@), i) % (M as int),
{
    let lc = c.len();
    if M >= 3 && is_prime_const(M) {
        if ntt_length_fits::<M>(lc) && find_power_2_generator::<M>().is_some() {
            return middle_product_proth(a, c);
        }
    }
    if !garner_lengths_fit(lc) {
        return middle_product_naive(a, c);
    }
    let pa = to_plain(a);
    let pc = to_plain(c);
    let c1 = middle_product_raw::<M1>(pa.as_slice(), pc.as_slice());
    let c2 = middle_product_raw::<M2>(pa.as_slice(), pc.as_slice());
    let c3 = middle_product_raw::<M3>(pa.as_slice(), pc.as_slice());
    let g = Garner3::new(StaticModInt::<M>::mon());
    let r = g.reconstruct_vector(c1, c2, c3);
    let ghost va = values(a@);
    let ghost vc = values(c@);
    proof {
        assert(as_ints(pa@) =~= va);
        assert(as_ints(pc@) =~= vc);
        assert forall|i: int| 0 <= i < va.len() implies 0 <= #[trigger] va[i] < M by {
            lemma_mod_bound(a@[i].rep() as int * crate::arith::r_inv(M as int), M as int);
        }
        assert forall|i: int| 0 <= i < vc.len() implies 0 <= #[trigger] vc[i] < M by {
            lemma_mod_bound(c@[i].rep() as int * crate::arith::r_inv(M as int), M as int);
        }
        assert forall|k: int| 0 <= k < r@.len() implies #[trigger] r@[k] == (mp_coef(va, vc, k) * radix()) % (M as int) by {
            lemma_garner_mp_coefficient(va, vc, k, M as int, lc as int);
        }
    }
    let mut b: Vec<StaticModInt<M>> = Vec::new();
    let mut k: usize = 0;
    while k < r.len()
        invariant
            valid_modulus(M),
            r@.len() == lc - a@.len() + 1,
            forall|i: int| 0 <= i < r@.len() ==> #[trigger] r@[i] == (mp_coef(va, vc, i) * radix()) % (M as int),
            k <= r@.len(),
            b@.len() == k,
            all_reduced(b@),
            forall|i: int| 0 <= i < k ==> (#[trigger] b@[i]).value() == mp_coef(va, vc, i) % (M as int),
        decreases r@.len() - k,
    {
        proof {
            lemma_mod_bound(mp_coef(va, vc, k as int) * radix(), M as int);
            crate::arith::lemma_value_of_repr(M as int, mp_coef(va, vc, k as int));
        }
        b.push(StaticModInt::raw(r[k]));
        k += 1;
    }
    b
}

/// An entry of the middle product of residue sequences modulo `m < 2^127`, with as many terms
/// as a `usize` holds, is below `M1 M2 M3`, so Garner's reconstruction from its residues is
/// exact.
pub(crate) proof fn lemma_garner_mp_coefficient(va: Seq<int>, vc: Seq<int>, k: int, m: int, lc: int)
    requires
        0 < m < 0x8000_0000_0000_0000_0000_0000_0000_0000,
        0 < va.len() <= vc.len(),
        vc.len() <= lc <= usize_top_bit(),
        0 <= k <= vc.len() - va.len(),
        forall|i: int| 0 <= i < va.len() ==> 0 <= #[trigger] va[i] < m,
        forall|i: int| 0 <= i < vc.len() ==> 0 <= #[trigger] vc[i] < m,
    ensures
        ({
            let v = mp_coef(va, vc, k);
            &&& 0 <= v < M1 * M2 * M3
            &&& garner_value(v % (M1 as int), v % (M2 as int), v % (M3 as int)) == v
        }),
{
    let v = mp_coef(va, vc, k);
    let top = 0x8000_0000_0000_0000_0000_0000_0000_0000int;
    self::product_laws::lemma_mp_bound(va, vc, k, m - 1, m - 1, va.len());
    assert(va.len() * ((m - 1) * (m - 1)) < M1 * M2 * M3) by (nonlinear_arith)
        requires
            0 <= va.len() <= usize_top_bit(),
            0 <= m - 1 < top,
            top == 0x8000_0000_0000_0000_0000_0000_0000_0000int,
    ;
    crate::garner::lemma_garner_unique(v);
}

/// Every entry of `s` is below `n`.
pub open spec fn all_below(s: Seq<u128>, n: u128) -> bool {
    forall|k: int| 0 <= k < s.len() ==> #[trigger] s[k] < n
}

/// The residues represented by Montgomery forms modulo `mo.n`.
pub open spec fn mont_values(mo: DynamicModInt, s: Seq<u128>) -> Seq<int> {
    s.map_values(|x: u128| mo.value(x as int))
}

/// Convolutions and middle products of sequences in Montgomery form, modulo a run-time modulus.
pub trait DynamicConvolution {
    /// The sequences the methods take: reduced Montgomery forms.
    spec fn accepts(&self, a: Seq<u128>) -> bool;

    /// The schoolbook product.
    fn convolution_naive(&self, a: &[u128], b: &[u128]) -> (c: Vec<u128>)
        requires
            self.accepts(a@),
            self.accepts(b@),
            a@.len() + b@.len() <= usize::MAX,
        ensures
            c@.len() == conv_len(a@.len() as int, b@.len() as int),
            self.accepts(c@),
    ;

    /// The product by Karatsuba's method.
    fn convolution_karatsuba(&self, a: &[u128], b: &[u128]) -> (c: Vec<u128>)
        requires
            self.accepts(a@),
            self.accepts(b@),
            a@.len() + b@.len() <= usize::MAX,
        ensures
            c@.len() == conv_len(a@.len() as int, b@.len() as int),
            self.accepts(c@),
    ;

    /// The product by transforms modulo three NTT primes and Garner reconstruction.
    fn convolution_arbitrary(&self, a: &[u128], b: &[u128]) -> (c: Vec<u128>)
        requires
            self.accepts(a@),
            self.accepts(b@),
            a@.len() + b@.len() <= usize::MAX,
        ensures
            c@.len() == conv_len(a@.len() as int, b@.len() as int),
            self.accepts(c@),
    ;

    /// The middle product `b[i] = sum_{t < la} a[t] c[i + t]`.
    fn middle_product_arbitrary(&self, a: &[u128], c: &[u128]) -> (b: Vec<u128>)
        requires
            self.accepts(a@),
            self.accepts(c@),
            0 < a@.len() <= c@.len(),
        ensures
            b@.len() == c@.len() - a@.len() + 1,
            self.accepts(b@),
    ;
}

/// Appends zeros up to length `len`.
fn pad_zeros(v: &mut Vec<u128>, len: usize)
    ensures
        final(v)@.len() == if old(v)@.len() < len { len as int } else { old(v)@.len() as int },
        forall|k: int| 0 <= k < old(v)@.len() ==> #[trigger] final(v)@[k] == old(v)@[k],
        forall|k: int| old(v)@.len() <= k < final(v)@.len() ==> #[trigger] final(v)@[k] == 0,
{
    let ghost v0 = v@;
    while v.len() < len
        invariant
            v0.len() <= v@.len(),
            v0.len() >= len ==> v@.len() == v0.len(),
            v0.len() < len ==> v@.len() <= len,
            forall|k: int| 0 <= k < v0.len() ==> #[trigger] v@[k] == v0[k],
            forall|k: int| v0.len() <= k < v@.len() ==> #[trigger] v@[k] == 0,
        decreases len - v@.len(),
    {
        v.push(0);
    }
}

/// `a[lo..hi]` as a vector.
fn slice_range(a: &[u128], lo: usize, hi: usize) -> (r: Vec<u128>)
    requires
        lo <= hi <= a@.len(),
    ensures
        r@ == a@.subrange(lo as int, hi as int),
{
    vstd::slice::slice_to_vec(vstd::slice::slice_subrange(a, lo, hi))
}

impl DynamicConvolution for DynamicModInt {
    open spec fn accepts(&self, a: Seq<u128>) -> bool {
        self.wf() && all_below(a, self.n)
    }

    fn convolution_naive(&self, a: &[u128], b: &[u128]) -> (c: Vec<u128>)
        ensures
            forall|k: int| 0 <= k < c@.len() ==> self.value((#[trigger] c@[k]) as int) == conv_coef(
                mont_values(*self, a@),
                mont_values(*self, b@),
                k,
            ) % (self.n as int),
    {
        if a.len() == 0 || b.len() == 0 {
            return Vec::new();
        }
        let la = a.len();
        let lb = b.len();
        let lc = la + lb - 1;
        let ghost n = self.n as int;
        let ghost va = mont_values(*self, a@);
        let ghost vb = mont_values(*self, b@);
        let mut c: Vec<u128> = Vec::new();
        while c.len() < lc
            invariant
                c.len() <= lc,
                forall|k: int| 0 <= k < c.len() ==> #[trigger] c@[k] == 0,
            decreases lc - c.len(),
        {
            c.push(0);
        }
        proof {
            lemma_mul_basics(crate::arith::r_inv(n));
            lemma_small_mod(0, n as nat);
        }
        let mut i: usize = 0;
        while i < la
            invariant
                self.wf(),
                n == self.n,
                la == a@.len(),
                lb == b@.len(),
                lc == la + lb - 1,
                va == mont_values(*self, a@),
                vb == mont_values(*self, b@),
                all_below(a@, self.n),
                all_below(b@, self.n),
                c@.len() == lc,
                all_below(c@, self.n),
                i <= la,
                forall|k: int| 0 <= k < lc ==> self.value((#[trigger] c@[k]) as int) == conv_partial(va, vb, k, i as nat) % n,
            decreases la - i,
        {
            let mut j: usize = 0;
            while j < lb
                invariant
                    self.wf(),
                    n == self.n,
                    la == a@.len(),
                    lb == b@.len(),
                    lc == la + lb - 1,
                    va == mont_values(*self, a@),
                    vb == mont_values(*self, b@),
                    all_below(a@, self.n),
                    all_below(b@, self.n),
                    c@.len() == lc,
                    all_below(c@, self.n),
                    i < la,
                    j <= lb,
                    forall|k: int| 0 <= k < lc ==> self.value((#[trigger] c@[k]) as int) == schoolbook_sum(va, vb, k, i as nat, j as int) % n,
                decreases lb - j,
            {
                let x = a[i];
                let y = b[j];
                let z = c[i + j];
                proof {
                    assert(a@[i as int] < self.n);
                    assert(b@[j as int] < self.n);
                    assert(c@[i + j] < self.n);
                    lemma_reduced_product(x, y, self.n);
                }
                let t = self.mul(x, y);
                proof {
                    crate::arith::lemma_redc_mod(n, t as int);
                    lemma_mod_bound(x as int * y as int * crate::arith::r_inv(n), n);
                    crate::arith::lemma_redc_mul_value(n, x as int, y as int);
                    crate::arith::lemma_redc_add(n, z as int, t as int);
                    crate::arith::lemma_redc_mod(n, z as int + t as int);
                }
                let ghost old_c = c@;
                c[i + j] = self.add(z, t);
                proof {
                    assert forall|k: int| 0 <= k < lc implies self.value((#[trigger] c@[k]) as int) == schoolbook_sum(va, vb, k, i as nat, j + 1)
                        % n by {
                        lemma_schoolbook_step(va, vb, k, i as nat, j as int, n);
                        if k != i + j {
                            assert(c@[k] == old_c[k]);
                        } else {
                            lemma_mod_bound(self.value(z as int) + self.value(t as int), n);
                            lemma_add_mod_noop(schoolbook_sum(va, vb, k, i as nat, j as int), va[i as int] * vb[j as int], n);
                        }
                    }
                }
                j += 1;
            }
            proof {
                assert forall|k: int| 0 <= k < lc implies self.value((#[trigger] c@[k]) as int) == conv_partial(va, vb, k, (i + 1) as nat)
                    % n by {
                    lemma_schoolbook_row(va, vb, k, i as nat);
                }
            }
            i += 1;
        }
        c
    }

    #[verifier::spinoff_prover]
    #[verifier::rlimit(60)]
    fn convolution_karatsuba(&self, a: &[u128], b: &[u128]) -> (c: Vec<u128>)
        ensures
            forall|k: int| 0 <= k < c@.len() ==> self.value((#[trigger] c@[k]) as int) == conv_coef(
                mont_values(*self, a@),
                mont_values(*self, b@),
                k,
            ) % (self.n as int),
        decreases a@.len() + b@.len(),
    {
        if a.len() == 0 || b.len() == 0 {
            return Vec::new();
        }
        let ghost nn = self.n as int;
        let ghost va0 = mont_values(*self, a@);
        let ghost vb0 = mont_values(*self, b@);
        let (a, b) = if a.len() > b.len() {
            (b, a)
        } else {
            (a, b)
        };
        let ghost va = mont_values(*self, a@);
        let ghost vb = mont_values(*self, b@);
        proof {
            assert forall|k: int| #[trigger] conv_coef(va, vb, k) == conv_coef(va0, vb0, k) by {
                lemma_conv_commutative(va0, vb0, k);
            }
        }
        if b.len() == 1 {
            proof {
                lemma_reduced_product(a@[0], b@[0], self.n);
            }
            let r = self.mul(a[0], b[0]);
            let c = vec![r];
            proof {
                crate::arith::lemma_redc_mul_value(nn, a@[0] as int, b@[0] as int);
                reveal_with_fuel(conv_partial, 2);
                assert(c@[0] == r);
                assert(conv_coef(va, vb, 0) == va[0] * vb[0]);
            }
            return c;
        }
        let la = a.len();
        let lb = b.len();
        let n = (lb + 1) / 2;
        let cl = la + lb - 1;
        proof {
            lemma_mul_basics(crate::arith::r_inv(nn));
            lemma_small_mod(0, nn as nat);
        }
        if la <= n {
            let b_lo = slice_range(b, 0, n);
            let b_hi = slice_range(b, n, lb);
            let mut c0 = self.convolution_karatsuba(a, b_lo.as_slice());
            let c1 = self.convolution_karatsuba(a, b_hi.as_slice());
            let ghost c0r = c0@;
            pad_zeros(&mut c0, cl);
            let ghost c0p = c0@;
            self.add_at(&mut c0, c1.as_slice(), n);
            proof {
                assert(mont_values(*self, b_lo@) =~= vb.subrange(0, n as int));
                assert(mont_values(*self, b_hi@) =~= vb.subrange(n as int, lb as int));
                self.lemma_karatsuba_short(va, vb, n as int, c0r, c0p, c1@, c0@);
            }
            c0
        } else {
            let a_lo = slice_range(a, 0, n);
            let a_hi = slice_range(a, n, la);
            let b_lo = slice_range(b, 0, n);
            let b_hi = slice_range(b, n, lb);
            let ghost alo = mont_values(*self, a_lo@);
            let ghost ahi = mont_values(*self, a_hi@);
            let ghost blo = mont_values(*self, b_lo@);
            let ghost bhi = mont_values(*self, b_hi@);
            let mut c0 = self.convolution_karatsuba(a_lo.as_slice(), b_lo.as_slice());
            let c2 = self.convolution_karatsuba(a_hi.as_slice(), b_hi.as_slice());
            let ghost c0r = c0@;
            let mut da = a_lo;
            self.add_at(&mut da, a_hi.as_slice(), 0);
            let mut db = b_lo;
            self.add_at(&mut db, b_hi.as_slice(), 0);
            let ghost pa = padded_sum(alo, ahi);
            let ghost pb = padded_sum(blo, bhi);
            proof {
                self.lemma_padded_values(a_lo@, a_hi@, da@);
                self.lemma_padded_values(b_lo@, b_hi@, db@);
            }
            let mut c1 = self.convolution_karatsuba(da.as_slice(), db.as_slice());
            let ghost c1r = c1@;
            let mut m = c1.len();
            if c0.len() > m {
                m = c0.len();
            }
            if c2.len() > m {
                m = c2.len();
            }
            pad_zeros(&mut c1, m);
            self.sub_prefix(&mut c1, c0.as_slice());
            let ghost c1s = c1@;
            self.sub_prefix(&mut c1, c2.as_slice());
            let ghost c1t = c1@;
            pad_zeros(&mut c0, cl);
            let ghost c0p = c0@;
            self.add_at(&mut c0, c1.as_slice(), n);
            let ghost c0q = c0@;
            self.add_at(&mut c0, c2.as_slice(), 2 * n);
            proof {
                assert(alo =~= va.subrange(0, n as int));
                assert(ahi =~= va.subrange(n as int, la as int));
                assert(blo =~= vb.subrange(0, n as int));
                assert(bhi =~= vb.subrange(n as int, lb as int));
                assert forall|j: int| 0 <= j < c1r.len() implies self.value(#[trigger] c1r[j] as int) % nn == conv_coef(pa, pb, j) % nn by {
                    lemma_conv_congruent(mont_values(*self, da@), pa, mont_values(*self, db@), pb, j, nn);
                    crate::arith::lemma_redc_mod(nn, c1r[j] as int);
                    lemma_small_mod(self.value(c1r[j] as int) as nat, nn as nat);
                }
                self.lemma_karatsuba_middle(alo, ahi, blo, bhi, c0r, c1r, c1s, c1t, c2@);
                self.lemma_karatsuba_long(va, vb, n as int, c0r, c0p, c1t, c0q, c2@, c0@);
            }
            c0
        }
    }

    fn convolution_arbitrary(&self, a: &[u128], b: &[u128]) -> (c: Vec<u128>)
        ensures
            forall|k: int| 0 <= k < c@.len() ==> self.value((#[trigger] c@[k]) as int) == conv_coef(
                mont_values(*self, a@),
                mont_values(*self, b@),
                k,
            ) % (self.n as int),
    {
        if a.len() == 0 || b.len() == 0 {
            return Vec::new();
        }
        let lc = a.len() + b.len() - 1;
        if !garner_lengths_fit(lc) {
            return self.convolution_naive(a, b);
        }
        let pa = self.plain_values(a);
        let pb = self.plain_values(b);
        let c1 = convolution_raw::<M1>(pa.as_slice(), pb.as_slice());
        let c2 = convolution_raw::<M2>(pa.as_slice(), pb.as_slice());
        let c3 = convolution_raw::<M3>(pa.as_slice(), pb.as_slice());
        let g = Garner3::new(*self);
        let r = g.reconstruct_vector(c1, c2, c3);
        proof {
            let nn = self.n as int;
            let va = mont_values(*self, a@);
            let vb = mont_values(*self, b@);
            assert(as_ints(pa@) =~= va);
            assert(as_ints(pb@) =~= vb);
            assert forall|i: int| 0 <= i < va.len() implies 0 <= #[trigger] va[i] < self.n by {
                crate::arith::lemma_redc_mod(nn, a@[i] as int);
            }
            assert forall|i: int| 0 <= i < vb.len() implies 0 <= #[trigger] vb[i] < self.n by {
                crate::arith::lemma_redc_mod(nn, b@[i] as int);
            }
            assert forall|k: int| 0 <= k < r@.len() implies #[trigger] r@[k] < self.n && self.value(r@[k] as int) == conv_coef(va, vb, k)
                % nn by {
                lemma_garner_coefficient(va, vb, k, nn, lc as int);
                lemma_mod_bound(conv_coef(va, vb, k) * radix(), nn);
                crate::arith::lemma_value_of_repr(nn, conv_coef(va, vb, k));
            }
        }
        r
    }

    fn middle_product_arbitrary(&self, a: &[u128], c: &[u128]) -> (b: Vec<u128>)
        ensures
            forall|i: int| 0 <= i < b@.len() ==> self.value((#[trigger] b@[i]) as int) == mp_coef(
                mont_values(*self, a@),
                mont_values(*self, c@),
                i,
            ) % (self.n as int),
    {
        let lc = c.len();
        if !garner_lengths_fit(lc) {
            return self.middle_product_naive(a, c);
        }
        let pa = self.plain_values(a);
        let pc = self.plain_values(c);
        let c1 = middle_product_raw::<M1>(pa.as_slice(), pc.as_slice());
        let c2 = middle_product_raw::<M2>(pa.as_slice(), pc.as_slice());
        let c3 = middle_product_raw::<M3>(pa.as_slice(), pc.as_slice());
        let g = Garner3::new(*self);
        let r = g.reconstruct_vector(c1, c2, c3);
        proof {
            let nn = self.n as int;
            let va = mont_values(*self, a@);
            let vc = mont_values(*self, c@);
            assert(as_ints(pa@) =~= va);
            assert(as_ints(pc@) =~= vc);
            assert forall|i: int| 0 <= i < va.len() implies 0 <= #[trigger] va[i] < self.n by {
                crate::arith::lemma_redc_mod(nn, a@[i] as int);
            }
            assert forall|i: int| 0 <= i < vc.len() implies 0 <= #[trigger] vc[i] < self.n by {
                crate::arith::lemma_redc_mod(nn, c@[i] as int);
            }
            assert forall|k: int| 0 <= k < r@.len() implies #[trigger] r@[k] < self.n && self.value(r@[k] as int) == mp_coef(va, vc, k)
                % nn by {
                lemma_garner_mp_coefficient(va, vc, k, nn, lc as int);
                lemma_mod_bound(mp_coef(va, vc, k) * radix(), nn);
                crate::arith::lemma_value_of_repr(nn, mp_coef(va, vc, k));
            }
        }
        r
    }
}

impl DynamicModInt {
    /// The residue of a sum of Montgomery forms reduced modulo `n`.
    proof fn lemma_value_sum(&self, y: int, z: int)
        requires
            self.wf(),
        ensures
            self.value((y + z) % (self.n as int)) == (self.value(y) + self.value(z)) % (self.n as int),
    {
        crate::arith::lemma_redc_mod(self.n as int, y + z);
        crate::arith::lemma_redc_add(self.n as int, y, z);
    }

    /// The residue of a difference of Montgomery forms reduced modulo `n`.
    proof fn lemma_value_diff(&self, y: int, z: int)
        requires
            self.wf(),
        ensures
            self.value((y - z) % (self.n as int)) == (self.value(y) - self.value(z)) % (self.n as int),
    {
        crate::arith::lemma_redc_mod(self.n as int, y - z);
        crate::arith::lemma_redc_sub(self.n as int, y, z);
    }

    /// `s` is `lo` with `hi` added from the start: its residues agree modulo `n` with the
    /// padded sum of the residues of `lo` and `hi`.
    proof fn lemma_padded_values(&self, lo: Seq<u128>, hi: Seq<u128>, s: Seq<u128>)
        requires
            self.wf(),
            hi.len() <= lo.len(),
            s.len() == lo.len(),
            forall|k: int| 0 <= k < lo.len() ==> #[trigger] s[k] as int == if k < hi.len() {
                (lo[k] + hi[k]) % (self.n as int)
            } else {
                lo[k] as int
            },
        ensures
            mont_values(*self, s).len() == padded_sum(mont_values(*self, lo), mont_values(*self, hi)).len(),
            forall|k: int| 0 <= k < s.len() ==> #[trigger] mont_values(*self, s)[k] % (self.n as int)
                == padded_sum(mont_values(*self, lo), mont_values(*self, hi))[k] % (self.n as int),
    {
        let nn = self.n as int;
        assert forall|k: int| 0 <= k < s.len() implies #[trigger] mont_values(*self, s)[k] % nn == padded_sum(
            mont_values(*self, lo),
            mont_values(*self, hi),
        )[k] % nn by {
            crate::arith::lemma_redc_mod(nn, s[k] as int);
            crate::arith::lemma_redc_mod(nn, lo[k] as int);
            lemma_small_mod(self.value(s[k] as int) as nat, nn as nat);
            if k < hi.len() {
                self.lemma_value_sum(lo[k] as int, hi[k] as int);
            } else {
                lemma_small_mod(self.value(lo[k] as int) as nat, nn as nat);
            }
        }
    }

    /// The product when `a` is no longer than the lower half `b[..n]`: `a * b[..n]`
    /// plus `x^n a * b[n..]`.
    proof fn lemma_karatsuba_short(
        &self,
        va: Seq<int>,
        vb: Seq<int>,
        n: int,
        c0r: Seq<u128>,
        c0p: Seq<u128>,
        c1: Seq<u128>,
        c: Seq<u128>,
    )
        requires
            self.wf(),
            0 < n < vb.len(),
            0 < va.len(),
            c1.len() == conv_len(va.len() as int, vb.len() - n),
            c0p.len() == va.len() + vb.len() - 1,
            c.len() == c0p.len(),
            c0r.len() <= c0p.len(),
            c0r.len() == conv_len(va.len() as int, n),
            forall|k: int| 0 <= k < c0r.len() ==> self.value((#[trigger] c0r[k]) as int) == conv_coef(va, vb.subrange(0, n), k)
                % (self.n as int),
            forall|k: int| 0 <= k < c1.len() ==> self.value((#[trigger] c1[k]) as int) == conv_coef(
                va,
                vb.subrange(n, vb.len() as int),
                k,
            ) % (self.n as int),
            forall|k: int| 0 <= k < c0p.len() ==> #[trigger] c0p[k] == if k < c0r.len() { c0r[k] } else { 0 },
            forall|k: int| 0 <= k < c.len() ==> #[trigger] c[k] as int == if n <= k < n + c1.len() {
                (c0p[k] + c1[k - n]) % (self.n as int)
            } else {
                c0p[k] as int
            },
        ensures
            forall|k: int| 0 <= k < c.len() ==> self.value((#[trigger] c[k]) as int) == conv_coef(va, vb, k) % (self.n as int),
    {
        let nn = self.n as int;
        let vlo = vb.subrange(0, n);
        let vhi = vb.subrange(n, vb.len() as int);
        lemma_mul_basics(crate::arith::r_inv(nn));
        lemma_small_mod(0, nn as nat);
        assert forall|k: int| 0 <= k < c.len() implies self.value((#[trigger] c[k]) as int) == conv_coef(va, vb, k) % nn by {
            lemma_conv_split_second(va, vb, n, k);
            if k >= c0r.len() {
                lemma_conv_outside(va, vlo, k);
            }
            assert(self.value(c0p[k] as int) == conv_coef(va, vlo, k) % nn);
            if n <= k < n + c1.len() {
                self.lemma_value_sum(c0p[k] as int, c1[k - n] as int);
                lemma_add_mod_noop(conv_coef(va, vlo, k), conv_coef(va, vhi, k - n), nn);
            } else {
                lemma_conv_outside(va, vhi, k - n);
            }
        }
    }

    /// The middle term of Karatsuba's method: the product of the half sums less the
    /// products of the halves.
    proof fn lemma_karatsuba_middle(
        &self,
        alo: Seq<int>,
        ahi: Seq<int>,
        blo: Seq<int>,
        bhi: Seq<int>,
        c0: Seq<u128>,
        c1r: Seq<u128>,
        c1s: Seq<u128>,
        c1t: Seq<u128>,
        c2: Seq<u128>,
    )
        requires
            self.wf(),
            c1s.len() == c1r.len(),
            c1t.len() == c1r.len(),
            c0.len() == c1r.len(),
            c2.len() <= c1r.len(),
            0 < ahi.len(),
            0 < bhi.len(),
            c2.len() == conv_len(ahi.len() as int, bhi.len() as int),
            forall|j: int| 0 <= j < c0.len() ==> self.value((#[trigger] c0[j]) as int) == conv_coef(alo, blo, j) % (self.n as int),
            forall|j: int| 0 <= j < c2.len() ==> self.value((#[trigger] c2[j]) as int) == conv_coef(ahi, bhi, j) % (self.n as int),
            forall|j: int| 0 <= j < c1r.len() ==> self.value(#[trigger] c1r[j] as int) % (self.n as int) == conv_coef(
                padded_sum(alo, ahi),
                padded_sum(blo, bhi),
                j,
            ) % (self.n as int),
            forall|j: int| 0 <= j < c1s.len() ==> #[trigger] c1s[j] as int == (c1r[j] - c0[j]) % (self.n as int),
            forall|j: int| 0 <= j < c1t.len() ==> #[trigger] c1t[j] as int == if j < c2.len() {
                (c1s[j] - c2[j]) % (self.n as int)
            } else {
                c1s[j] as int
            },
        ensures
            forall|j: int| 0 <= j < c1t.len() ==> self.value(#[trigger] c1t[j] as int) == (conv_coef(
                padded_sum(alo, ahi),
                padded_sum(blo, bhi),
                j,
            ) - conv_coef(alo, blo, j) - conv_coef(ahi, bhi, j)) % (self.n as int),
    {
        let nn = self.n as int;
        let pa = padded_sum(alo, ahi);
        let pb = padded_sum(blo, bhi);
        assert forall|j: int| 0 <= j < c1t.len() implies self.value(#[trigger] c1t[j] as int) == (conv_coef(pa, pb, j)
            - conv_coef(alo, blo, j) - conv_coef(ahi, bhi, j)) % nn by {
            crate::arith::lemma_redc_mod(nn, c1r[j] as int);
            lemma_small_mod(self.value(c1r[j] as int) as nat, nn as nat);
            self.lemma_value_diff(c1r[j] as int, c0[j] as int);
            lemma_sub_mod_noop(conv_coef(pa, pb, j), conv_coef(alo, blo, j), nn);
            if j < c2.len() {
                self.lemma_value_diff(c1s[j] as int, c2[j] as int);
                lemma_sub_mod_noop(conv_coef(pa, pb, j) - conv_coef(alo, blo, j), conv_coef(ahi, bhi, j), nn);
            } else {
                lemma_conv_outside(ahi, bhi, j);
            }
        }
    }

    /// Karatsuba's recombination on Montgomery forms: `c0 + x^n c1 + x^(2n) c2`.
    proof fn lemma_karatsuba_long(
        &self,
        va: Seq<int>,
        vb: Seq<int>,
        n: int,
        c0r: Seq<u128>,
        c0p: Seq<u128>,
        c1: Seq<u128>,
        c0q: Seq<u128>,
        c2: Seq<u128>,
        c: Seq<u128>,
    )
        requires
            self.wf(),
            0 < n < va.len(),
            va.len() <= vb.len(),
            vb.len() <= 2 * n,
            c0r.len() == 2 * n - 1,
            c1.len() == 2 * n - 1,
            c2.len() == va.len() + vb.len() - 2 * n - 1,
            c0p.len() == va.len() + vb.len() - 1,
            c0q.len() == c0p.len(),
            c.len() == c0p.len(),
            ({
                let alo = va.subrange(0, n);
                let ahi = va.subrange(n, va.len() as int);
                let blo = vb.subrange(0, n);
                let bhi = vb.subrange(n, vb.len() as int);
                &&& forall|k: int| 0 <= k < c0r.len() ==> self.value((#[trigger] c0r[k]) as int) == conv_coef(alo, blo, k)
                    % (self.n as int)
                &&& forall|k: int| 0 <= k < c2.len() ==> self.value((#[trigger] c2[k]) as int) == conv_coef(ahi, bhi, k)
                    % (self.n as int)
                &&& forall|j: int| 0 <= j < c1.len() ==> self.value(#[trigger] c1[j] as int) == (conv_coef(
                    padded_sum(alo, ahi),
                    padded_sum(blo, bhi),
                    j,
                ) - conv_coef(alo, blo, j) - conv_coef(ahi, bhi, j)) % (self.n as int)
            }),
            forall|k: int| 0 <= k < c0p.len() ==> #[trigger] c0p[k] == if k < c0r.len() { c0r[k] } else { 0 },
            forall|k: int| 0 <= k < c0q.len() ==> #[trigger] c0q[k] as int == if n <= k < n + c1.len() {
                (c0p[k] + c1[k - n]) % (self.n as int)
            } else {
                c0p[k] as int
            },
            forall|k: int| 0 <= k < c.len() ==> #[trigger] c[k] as int == if 2 * n <= k < 2 * n + c2.len() {
                (c0q[k] + c2[k - 2 * n]) % (self.n as int)
            } else {
                c0q[k] as int
            },
        ensures
            forall|k: int| 0 <= k < c.len() ==> self.value((#[trigger] c[k]) as int) == conv_coef(va, vb, k) % (self.n as int),
    {
        let nn = self.n as int;
        let alo = va.subrange(0, n);
        let ahi = va.subrange(n, va.len() as int);
        let blo = vb.subrange(0, n);
        let bhi = vb.subrange(n, vb.len() as int);
        let pa = padded_sum(alo, ahi);
        let pb = padded_sum(blo, bhi);
        lemma_mul_basics(crate::arith::r_inv(nn));
        lemma_small_mod(0, nn as nat);
        assert forall|k: int| 0 <= k < c.len() implies self.value((#[trigger] c[k]) as int) == conv_coef(va, vb, k) % nn by {
            lemma_karatsuba_identity(va, vb, n, k);
            let x = conv_coef(pa, pb, k - n) - conv_coef(alo, blo, k - n) - conv_coef(ahi, bhi, k - n);
            if k >= c0r.len() {
                lemma_conv_outside(alo, blo, k);
            }
            assert(self.value(c0p[k] as int) == conv_coef(alo, blo, k) % nn);
            if n <= k < n + c1.len() {
                self.lemma_value_sum(c0p[k] as int, c1[k - n] as int);
                lemma_add_mod_noop(conv_coef(alo, blo, k), x, nn);
            } else {
                lemma_conv_outside(pa, pb, k - n);
                lemma_conv_outside(alo, blo, k - n);
                lemma_conv_outside(ahi, bhi, k - n);
            }
            assert(self.value(c0q[k] as int) == (conv_coef(alo, blo, k) + x) % nn);
            if 2 * n <= k {
                self.lemma_value_sum(c0q[k] as int, c2[k - 2 * n] as int);
                lemma_add_mod_noop(conv_coef(alo, blo, k) + x, conv_coef(ahi, bhi, k - 2 * n), nn);
            } else {
                lemma_conv_outside(ahi, bhi, k - 2 * n);
            }
        }
    }

    /// Adds `w` into `v` from position `off` on, modulo `n`.
    fn add_at(&self, v: &mut Vec<u128>, w: &[u128], off: usize)
        requires
            self.wf(),
            all_below(old(v)@, self.n),
            all_below(w@, self.n),
            off + w@.len() <= old(v)@.len(),
        ensures
            final(v)@.len() == old(v)@.len(),
            all_below(final(v)@, self.n),
            forall|k: int| 0 <= k < old(v)@.len() ==> #[trigger] final(v)@[k] as int == if off <= k < off + w@.len() {
                (old(v)@[k] + w@[k - off]) % (self.n as int)
            } else {
                old(v)@[k] as int
            },
    {
        let ghost v0 = v@;
        let vl = v.len();
        let mut i: usize = 0;
        while i < w.len()
            invariant
                self.wf(),
                v@.len() == v0.len(),
                vl == v0.len(),
                all_below(v0, self.n),
                all_below(v@, self.n),
                all_below(w@, self.n),
                off + w@.len() <= v0.len(),
                i <= w@.len(),
                forall|k: int| 0 <= k < v0.len() ==> #[trigger] v@[k] as int == if off <= k < off + i {
                    (v0[k] + w@[k - off]) % (self.n as int)
                } else {
                    v0[k] as int
                },
            decreases w@.len() - i,
        {
            let x = v[off + i];
            let y = w[i];
            v[off + i] = self.add(x, y);
            i += 1;
        }
    }

    /// Subtracts `w` from the front of `v`, modulo `n`.
    fn sub_prefix(&self, v: &mut Vec<u128>, w: &[u128])
        requires
            self.wf(),
            all_below(old(v)@, self.n),
            all_below(w@, self.n),
            w@.len() <= old(v)@.len(),
        ensures
            final(v)@.len() == old(v)@.len(),
            all_below(final(v)@, self.n),
            forall|k: int| 0 <= k < old(v)@.len() ==> #[trigger] final(v)@[k] as int == if k < w@.len() {
                (old(v)@[k] - w@[k]) % (self.n as int)
            } else {
                old(v)@[k] as int
            },
    {
        let ghost v0 = v@;
        let mut i: usize = 0;
        while i < w.len()
            invariant
                self.wf(),
                v@.len() == v0.len(),
                all_below(v0, self.n),
                all_below(v@, self.n),
                all_below(w@, self.n),
                w@.len() <= v0.len(),
                i <= w@.len(),
                forall|k: int| 0 <= k < v0.len() ==> #[trigger] v@[k] as int == if k < i {
                    (v0[k] - w@[k]) % (self.n as int)
                } else {
                    v0[k] as int
                },
            decreases w@.len() - i,
        {
            let x = v[i];
            let y = w[i];
            let r = self.sub(x, y);
            proof {
                lemma_small_mod(r as nat, self.n as nat);
            }
            v[i] = r;
            i += 1;
        }
    }

    /// The plain residues of Montgomery forms.
    fn plain_values(&self, a: &[u128]) -> (r: Vec<u128>)
        requires
            self.wf(),
        ensures
            r@.len() == a@.len(),
            forall|k: int| 0 <= k < a@.len() ==> #[trigger] r@[k] == self.value(a@[k] as int),
    {
        let mut r: Vec<u128> = Vec::new();
        let mut k: usize = 0;
        while k < a.len()
            invariant
                self.wf(),
                k <= a@.len(),
                r@.len() == k,
                forall|i: int| 0 <= i < k ==> #[trigger] r@[i] == self.value(a@[i] as int),
            decreases a@.len() - k,
        {
            r.push(self.val(a[k]));
            k += 1;
        }
        r
    }

    /// The middle product by its definition, in Montgomery form.
    fn middle_product_naive(&self, a: &[u128], c: &[u128]) -> (b: Vec<u128>)
        requires
            self.wf(),
            all_below(a@, self.n),
            all_below(c@, self.n),
            0 < a@.len() <= c@.len(),
        ensures
            b@.len() == c@.len() - a@.len() + 1,
            all_below(b@, self.n),
            forall|i: int| 0 <= i < b@.len() ==> self.value((#[trigger] b@[i]) as int) == mp_coef(
                mont_values(*self, a@),
                mont_values(*self, c@),
                i,
            ) % (self.n as int),
    {
        let la = a.len();
        let lc = c.len();
        let lb = lc - la + 1;
        let ghost nn = self.n as int;
        let ghost va = mont_values(*self, a@);
        let ghost vc = mont_values(*self, c@);
        let mut b: Vec<u128> = Vec::new();
        let mut i: usize = 0;
        proof {
            lemma_mul_basics(crate::arith::r_inv(nn));
            lemma_small_mod(0, nn as nat);
        }
        while i < lb
            invariant
                self.wf(),
                nn == self.n,
                va == mont_values(*self, a@),
                vc == mont_values(*self, c@),
                la == a@.len(),
                lc == c@.len(),
                lb == lc - la + 1,
                all_below(a@, self.n),
                all_below(c@, self.n),
                i <= lb,
                b@.len() == i,
                all_below(b@, self.n),
                forall|j: int| 0 <= j < i ==> self.value((#[trigger] b@[j]) as int) == mp_coef(va, vc, j) % nn,
            decreases lb - i,
        {
            let mut acc: u128 = 0;
            let mut t: usize = 0;
            while t < la
                invariant
                    self.wf(),
                    nn == self.n,
                    va == mont_values(*self, a@),
                    vc == mont_values(*self, c@),
                    la == a@.len(),
                    lc == c@.len(),
                    lb == lc - la + 1,
                    all_below(a@, self.n),
                    all_below(c@, self.n),
                    i < lb,
                    t <= la,
                    acc < self.n,
                    self.value(acc as int) == mp_partial(va, vc, i as int, t as nat) % nn,
                decreases la - t,
            {
                let x = a[t];
                let y = c[i + t];
                proof {
                    lemma_reduced_product(x, y, self.n);
                }
                let p = self.mul(x, y);
                proof {
                    lemma_mod_bound(x as int * y as int * crate::arith::r_inv(self.n as int), self.n as int);
                    crate::arith::lemma_redc_mul_value(nn, x as int, y as int);
                    self.lemma_value_sum(acc as int, p as int);
                    lemma_add_mod_noop(mp_partial(va, vc, i as int, t as nat), va[t as int] * vc[i + t], nn);
                    crate::arith::lemma_redc_mod(nn, p as int);
                    lemma_mod_twice(va[t as int] * vc[i + t], nn);
                }
                acc = self.add(acc, p);
                t += 1;
            }
            b.push(acc);
            i += 1;
        }
        b
    }
}
} // verus!
