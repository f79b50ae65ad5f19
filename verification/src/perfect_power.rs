//! Integer `n`-th roots and perfect-power detection.
use vstd::prelude::*;
use vstd::arithmetic::mul::*;
use vstd::arithmetic::power::*;
use vstd::arithmetic::power2::{lemma_pow2, pow2};
use crate::bits::{checked_pow, ilog2, isqrt, lemma_shl_one, unbounded_shr};

verus! {

/// `a <= b` implies `a^e <= b^e` for non-negative `a`.
pub proof fn lemma_pow_base_mono(a: int, b: int, e: nat)
    requires
        0 <= a <= b,
    ensures
        0 <= pow(a, e) <= pow(b, e),
    decreases e,
{
    reveal(pow);
    if e > 0 {
        lemma_pow_base_mono(a, b, (e - 1) as nat);
        lemma_mul_le(a, b, pow(a, (e - 1) as nat), pow(b, (e - 1) as nat));
        lemma_mul_nonnegative(a, pow(a, (e - 1) as nat));
    }
}

proof fn lemma_mul_le(a: int, b: int, c: int, d: int)
    requires
        0 <= a <= b,
        0 <= c <= d,
    ensures
        a * c <= b * d,
{
    lemma_mul_upper_bound(a, b, c, d);
}

/// `x >= 1` and `e >= 1` imply `x^e >= x`.
proof fn lemma_pow_ge_base(x: int, e: nat)
    requires
        x >= 1,
        e >= 1,
    ensures
        pow(x, e) >= x,
    decreases e,
{
    reveal(pow);
    if e > 1 {
        lemma_pow_ge_base(x, (e - 1) as nat);
        lemma_mul_increases(pow(x, (e - 1) as nat) - 1 + 1, x);
        lemma_mul_le(1, x, x, pow(x, (e - 1) as nat));
    } else {
        assert(pow(x, 0) == 1);
        lemma_mul_basics(x);
    }
}

/// `2^k` as a power of two.
proof fn lemma_pow_two(k: nat)
    ensures
        pow(2, k) == pow2(k),
        pow(2, k) > 0,
{
    lemma_pow2(k);
    lemma_pow_positive(2, k);
}

/// `x` is the integer `n`-th root of `y`: `x^n <= y < (x + 1)^n`.
pub open spec fn is_nth_root_floor(y: int, n: nat, x: int) -> bool {
    0 <= x && pow(x, n) <= y < pow(x + 1, n)
}

/// `floor(y^(1/n))` for `n > 0`.
pub fn nth_root_floor(y: u128, n: u32) -> (x: u128)
    requires
        n > 0,
    ensures
        is_nth_root_floor(y as int, n as nat, x as int),
{
    if n == 1 || y <= 1 {
        proof {
            lemma_pow1(y as int);
            if y <= 1 {
                if y == 0 {
                    lemma0_pow(n as nat);
                } else {
                    lemma1_pow(n as nat);
                }
                lemma_pow_ge_base(y + 1, n as nat);
            } else {
                lemma_pow1(y + 1);
            }
        }
        return y;
    }
    if n == 2 {
        let r = isqrt(y);
        proof {
            lemma_square_is_pow2(r as int);
            lemma_square_is_pow2(r + 1);
        }
        return r;
    }
    // y < 2^n exactly when the root is 1
    if unbounded_shr(y, n) == 0 {
        proof {
            lemma_pow_two(n as nat);
            vstd::arithmetic::div_mod::lemma_fundamental_div_mod(y as int, pow2(n as nat) as int);
            lemma1_pow(n as nat);
        }
        return 1;
    }
    // n >= 3 here, so the root is below 2^43
    let i0: u32 = 128 / n + if 128 % n == 0 { 0 } else { 1 };
    proof {
        assert(i0 * n >= 128) by (nonlinear_arith)
            requires
                i0 == 128u32 / n + if 128u32 % n == 0 { 0int } else { 1int },
                n > 0,
        ;
        assert(i0 <= 43) by (nonlinear_arith)
            requires
                i0 == 128u32 / n + if 128u32 % n == 0 { 0int } else { 1int },
                n >= 3,
        ;
        // y < 2^128 <= 2^(i0 n) = (2^i0)^n
        lemma_pow_two(i0 as nat);
        lemma_pow_multiplies(2, i0 as nat, n as nat);
        lemma_pow_increases(2, 128, (i0 * n) as nat);
        lemma_pow_two(128);
        vstd::arithmetic::power2::lemma2_to64();
        vstd::arithmetic::power2::lemma_pow2_adds(64, 64);
        lemma0_pow(n as nat);
        vstd::bits::lemma_u64_pow2_no_overflow(i0 as nat);
    }
    let mut x: u128 = 0;
    let mut i: u32 = i0;
    while i > 0
        invariant
            n >= 3,
            i <= i0 <= 43,
            pow2(i0 as nat) <= u64::MAX,
            x + pow2(i as nat) <= pow2(i0 as nat),
            pow(x as int, n as nat) <= y,
            y < pow(x + pow2(i as nat), n as nat),
        decreases i,
    {
        i -= 1;
        proof {
            vstd::arithmetic::power2::lemma_pow2_unfold((i + 1) as nat);
            lemma_shl_one(i);
        }
        let nx: u128 = x + (1u128 << i);
        match checked_pow(nx, n) {
            Some(ny) => {
                if ny <= y {
                    x = nx;
                }
            },
            None => {},
        }
    }
    x
}

/// `y` is an `n`-th power.
pub open spec fn is_nth_power(y: int, n: nat) -> bool {
    exists|x: nat| pow(x as int, n) == y
}

/// `Some((x, n))` with `x^n == y`, `x >= 2`, `n >= 2` and `n` as large as possible; `None` when
/// `y` is no such power.
pub fn find_perfect_power(y: u128) -> (res: Option<(u128, u32)>)
    ensures
        match res {
            Some((x, n)) => {
                &&& x >= 2
                &&& n >= 2
                &&& pow(x as int, n as nat) == y
                &&& forall|m: nat| m > n ==> !is_nth_power(y as int, m)
            },
            None => forall|m: nat| m >= 2 ==> !(#[trigger] is_nth_power(y as int, m))
                || y < 2,
        },
{
    if y < 4 {
        proof {
            assert forall|m: nat| m >= 2 && y >= 2 implies !(#[trigger] is_nth_power(y as int, m)) by {
                if is_nth_power(y as int, m) {
                    let z = choose|z: nat| pow(z as int, m) == y;
                    lemma_no_small_power(y as int, z as int, m);
                }
            }
        }
        return None;
    }
    let l = ilog2(y);
    let mut n: u32 = l + 1;
    proof {
        vstd::arithmetic::power2::lemma2_to64();
        if l < 1 {
            assert(pow2(l as nat + 1) <= 2);
        }
        lemma_pow_two(l as nat + 1);
        assert forall|m: nat| m > l implies !(#[trigger] is_nth_power(y as int, m)) by {
            if is_nth_power(y as int, m) {
                let z = choose|z: nat| pow(z as int, m) == y;
                lemma_power_too_large(y as int, z as int, m, l as nat);
            }
        }
    }
    while n > 2
        invariant
            y >= 4,
            2 <= n <= l + 1,
            l < 128,
            forall|m: nat| m >= n ==> !(#[trigger] is_nth_power(y as int, m)),
        decreases n,
    {
        n -= 1;
        let x = nth_root_floor(y, n);
        match checked_pow(x, n) {
            Some(ny) => {
                if ny == y {
                    proof {
                        if x < 2 {
                            lemma_pow_base_mono(x as int, 1, n as nat);
                            lemma1_pow(n as nat);
                        }
                    }
                    return Some((x, n));
                }
            },
            None => {},
        }
        proof {
            // no z has z^n == y: the root would lie strictly between x and x + 1
            if is_nth_power(y as int, n as nat) {
                let z = choose|z: nat| pow(z as int, n as nat) == y;
                if z <= x {
                    lemma_pow_base_mono(z as int, x as int, n as nat);
                } else {
                    lemma_pow_base_mono(x + 1, z as int, n as nat);
                }
            }
            assert forall|m: nat| m >= n implies !(#[trigger] is_nth_power(y as int, m)) by {
                if m > n {
                    assert(m >= n + 1);
                }
            }
        }
    }
    proof {
        assert forall|m: nat| m >= 2 implies !(#[trigger] is_nth_power(y as int, m)) by {}
    }
    None
}

/// Below `4` only `0` and `1` are powers with exponent at least `2`.
proof fn lemma_no_small_power(y: int, z: int, m: nat)
    requires
        2 <= y < 4,
        z >= 0,
        m >= 2,
    ensures
        pow(z, m) != y,
{
    if z <= 1 {
        lemma_pow_base_mono(z, 1, m);
        lemma1_pow(m);
        if z == 0 {
            lemma0_pow(m);
        }
    } else {
        lemma_pow_base_mono(2, z, m);
        lemma_pow_increases(2, 2, m);
        reveal_with_fuel(pow, 3);
    }
}

/// A power `z^m` with `m > log2(y)` cannot equal `y >= 2`.
proof fn lemma_power_too_large(y: int, z: int, m: nat, l: nat)
    requires
        y >= 2,
        z >= 0,
        m > l,
        y < pow2(l + 1),
    ensures
        pow(z, m) != y,
{
    if z <= 1 {
        lemma_pow_base_mono(z, 1, m);
        lemma1_pow(m);
    } else {
        lemma_pow_base_mono(2, z, m);
        lemma_pow_increases(2, l + 1, m);
        lemma_pow_two(l + 1);
    }
}

} // verus!
