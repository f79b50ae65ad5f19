//! Bit-level operations on `u128` and `usize`: counts of zero and one bits, integer square
//! roots and logarithms, powers and shifts, each verified against its documented behavior.
use vstd::prelude::*;
use vstd::arithmetic::power::pow;
use vstd::arithmetic::power2::pow2;

verus! {

/// The number of trailing zero bits of `x` (`128` for `0`).
pub(crate) fn trailing_zeros(x: u128) -> (r: u32)
    ensures
        x == 0 ==> r == 128,
        x != 0 ==> r < 128 && (x as nat) % pow2(r as nat) == 0 && ((x as nat) / pow2(r as nat)) % 2 == 1,
{
    if x == 0 {
        return 128;
    }
    let mut y = x;
    let mut r: u32 = 0;
    proof {
        vstd::arithmetic::power2::lemma2_to64();
    }
    while y % 2 == 0
        invariant
            x > 0,
            y > 0,
            r < 128,
            y as nat == (x as nat) / pow2(r as nat),
            (x as nat) % pow2(r as nat) == 0,
            pow2(r as nat) <= x,
        decreases y,
    {
        proof {
            let p: int = pow2(r as nat) as int;
            vstd::arithmetic::power2::lemma_pow2_pos(r as nat);
            vstd::arithmetic::power2::lemma_pow2_unfold(r as nat + 1);
            vstd::arithmetic::div_mod::lemma_mod_breakdown(x as int, p, 2);
            vstd::arithmetic::div_mod::lemma_div_denominator(x as int, p, 2);
            vstd::arithmetic::mul::lemma_mul_is_commutative(p, 2);
            vstd::arithmetic::div_mod::lemma_fundamental_div_mod(x as int, 2 * p);
            assert((x as int / p) % 2 == 0);
            assert(x as int % (p * 2) == p * ((x as int / p) % 2) + x as int % p);
            assert(x as int % (p * 2) == 0) by (nonlinear_arith)
                requires
                    x as int % (p * 2) == p * ((x as int / p) % 2) + x as int % p,
                    (x as int / p) % 2 == 0,
                    x as int % p == 0,
            ;
            assert(pow2(r as nat + 1) == 2 * p);
            assert(2 * p <= x) by (nonlinear_arith)
                requires
                    x as int == (2 * p) * (x as int / (2 * p)) + x as int % (2 * p),
                    x as int / (2 * p) >= 1,
                    x as int % (2 * p) >= 0,
                    p > 0,
            ;
            if r + 1 >= 128 {
                vstd::arithmetic::power2::lemma2_to64_rest();
                vstd::arithmetic::power2::lemma_pow2_adds(64, 64);
                if r + 1 > 128 {
                    vstd::arithmetic::power2::lemma_pow2_strictly_increases(128, r as nat + 1);
                }
                assert(false);
            }
        }
        y = y / 2;
        r += 1;
    }
    r
}

/// `2^128`.
proof fn lemma_pow2_128()
    ensures
        pow2(128) == 0x1_0000_0000_0000_0000_0000_0000_0000_0000int,
{
    vstd::arithmetic::power2::lemma2_to64();
    vstd::arithmetic::power2::lemma2_to64_rest();
    vstd::arithmetic::power2::lemma_pow2_adds(64, 64);
}

/// The number of leading zero bits of `x` (`128` for `0`).
pub(crate) fn leading_zeros(x: u128) -> (r: u32)
    ensures
        x == 0 ==> r == 128,
        x != 0 ==> r < 128 && pow2((127 - r) as nat) <= x < pow2((128 - r) as nat),
{
    if x == 0 {
        return 128;
    }
    let mut y = x;
    let mut k: u32 = 0;
    proof {
        vstd::arithmetic::power2::lemma2_to64();
    }
    while y > 0
        invariant
            x > 0,
            k <= 128,
            y as nat == (x as nat) / pow2(k as nat),
            k > 0 ==> pow2((k - 1) as nat) <= x,
            k == 0 ==> y == x,
        decreases y,
    {
        proof {
            let p: int = pow2(k as nat) as int;
            vstd::arithmetic::power2::lemma_pow2_pos(k as nat);
            vstd::arithmetic::power2::lemma_pow2_unfold(k as nat + 1);
            vstd::arithmetic::div_mod::lemma_div_denominator(x as int, p, 2);
            vstd::arithmetic::div_mod::lemma_fundamental_div_mod(x as int, p);
            assert(p <= x) by (nonlinear_arith)
                requires
                    x as int == p * (x as int / p) + x as int % p,
                    x as int / p >= 1,
                    x as int % p >= 0,
                    p > 0,
            ;
            if k >= 128 {
                lemma_pow2_128();
                if k > 128 {
                    vstd::arithmetic::power2::lemma_pow2_strictly_increases(128, k as nat);
                }
                assert(false);
            }
        }
        y = y / 2;
        k += 1;
    }
    proof {
        let p: int = pow2(k as nat) as int;
        vstd::arithmetic::power2::lemma_pow2_pos(k as nat);
        vstd::arithmetic::div_mod::lemma_fundamental_div_mod(x as int, p);
        vstd::arithmetic::div_mod::lemma_mod_bound(x as int, p);
        assert(x as int / p == 0);
        assert(p * (x as int / p) == 0) by (nonlinear_arith)
            requires
                x as int / p == 0,
        ;
        assert(x < p);
        assert(k > 0);
        assert((128 - (128 - k)) as nat == k as nat);
        assert((127 - (128 - k)) as nat == (k - 1) as nat);
    }
    128 - k
}

/// The integer square root `floor(sqrt(x))`, by bisection.
pub(crate) fn isqrt(x: u128) -> (r: u128)
    ensures
        r * r <= x,
        x < (r + 1) * (r + 1),
{
    let mut lo: u128 = 0;
    let mut hi: u128 = 0x1_0000_0000_0000_0000;
    while hi - lo > 1
        invariant
            lo < hi <= 0x1_0000_0000_0000_0000,
            lo * lo <= x,
            x < hi * hi,
        decreases hi - lo,
    {
        let mid = lo + (hi - lo) / 2;
        assert(mid * mid < 0x1_0000_0000_0000_0000_0000_0000_0000_0000) by (nonlinear_arith)
            requires
                mid < 0x1_0000_0000_0000_0000,
        ;
        if mid * mid <= x {
            lo = mid;
        } else {
            hi = mid;
        }
    }
    lo
}

/// `r = floor(sqrt(x))`.
pub open spec fn is_sqrt_floor(x: nat, r: nat) -> bool {
    r * r <= x < (r + 1) * (r + 1)
}

/// `floor(sqrt(x))`.
pub open spec fn sqrt_floor(x: nat) -> nat {
    choose|r: nat| #[trigger] is_sqrt_floor(x, r)
}

/// The integer square root is the one `sqrt_floor` names.
pub proof fn lemma_sqrt_floor(x: nat, r: nat)
    requires
        r * r <= x < (r + 1) * (r + 1),
    ensures
        sqrt_floor(x) == r,
{
    assert(is_sqrt_floor(x, r));
    let q = sqrt_floor(x);
    assert(q * q <= x < (q + 1) * (q + 1));
    if q < r {
        assert((q + 1) * (q + 1) <= r * r) by (nonlinear_arith)
            requires
                q + 1 <= r,
        ;
    } else if r < q {
        assert((r + 1) * (r + 1) <= q * q) by (nonlinear_arith)
            requires
                r + 1 <= q,
        ;
    }
}

/// `x^e`, or `None` when it exceeds `u128::MAX`.
pub(crate) fn checked_pow(x: u128, e: u32) -> (r: Option<u128>)
    ensures
        match r {
            Some(v) => v == pow(x as int, e as nat),
            None => pow(x as int, e as nat) > u128::MAX,
        },
{
    if x <= 1 {
        proof {
            vstd::arithmetic::power::lemma_pow0(x as int);
            vstd::arithmetic::power::lemma1_pow(e as nat);
            if e > 0 {
                vstd::arithmetic::power::lemma0_pow(e as nat);
            }
        }
        return if x == 0 && e > 0 {
            Some(0)
        } else {
            Some(1)
        };
    }
    let mut acc: u128 = 1;
    let mut i: u32 = 0;
    proof {
        vstd::arithmetic::power::lemma_pow0(x as int);
    }
    while i < e
        invariant
            x >= 2,
            i <= e,
            acc == pow(x as int, i as nat),
        decreases e - i,
    {
        proof {
            vstd::arithmetic::power::lemma_pow_adds(x as int, i as nat, 1);
            vstd::arithmetic::power::lemma_pow1(x as int);
        }
        match acc.checked_mul(x) {
            Some(v) => {
                acc = v;
            },
            None => {
                proof {
                    vstd::arithmetic::power::lemma_pow_increases(x as nat, i as nat + 1, e as nat);
                }
                return None;
            },
        }
        i += 1;
    }
    Some(acc)
}

/// `floor(log2(x))` for `x > 0`.
pub(crate) fn ilog2(x: u128) -> (r: u32)
    requires
        x > 0,
    ensures
        r < 128,
        pow2(r as nat) <= x < pow2(r as nat + 1),
{
    127 - leading_zeros(x)
}

/// `x >> s`, which is `0` for shifts of `128` and more.
pub(crate) fn unbounded_shr(x: u128, s: u32) -> (r: u128)
    ensures
        r == (x as nat) / pow2(s as nat),
{
    if s >= 128 {
        proof {
            vstd::arithmetic::power2::lemma2_to64();
            vstd::arithmetic::power2::lemma2_to64_rest();
            vstd::arithmetic::power2::lemma_pow2_adds(64, 64);
            if s > 128 {
                vstd::arithmetic::power2::lemma_pow2_strictly_increases(128, s as nat);
            }
            vstd::arithmetic::div_mod::lemma_basic_div(x as int, pow2(s as nat) as int);
        }
        return 0;
    }
    proof {
        vstd::bits::lemma_u128_shr_is_div(x, s as u128);
    }
    x >> (s as u128)
}


/// The number `r` of trailing one bits of `x` (at most the width of `usize`): the low `r` bits
/// are ones and bit `r` is zero.
pub(crate) fn trailing_ones(x: usize) -> (r: u32)
    ensures
        r <= 64,
        (x as nat) % pow2(r as nat) == pow2(r as nat) - 1,
        ((x as nat) / pow2(r as nat)) % 2 == 0,
{
    let mut y = x;
    let mut r: u32 = 0;
    proof {
        vstd::arithmetic::power2::lemma2_to64();
    }
    while y % 2 == 1
        invariant
            r <= 64,
            y as nat == (x as nat) / pow2(r as nat),
            (x as nat) % pow2(r as nat) == pow2(r as nat) - 1,
            pow2(r as nat) - 1 <= x,
        decreases y,
    {
        proof {
            let p: int = pow2(r as nat) as int;
            vstd::arithmetic::power2::lemma_pow2_pos(r as nat);
            vstd::arithmetic::power2::lemma_pow2_unfold(r as nat + 1);
            vstd::arithmetic::div_mod::lemma_mod_breakdown(x as int, p, 2);
            vstd::arithmetic::div_mod::lemma_div_denominator(x as int, p, 2);
            vstd::arithmetic::mul::lemma_mul_is_commutative(p, 2);
            vstd::arithmetic::div_mod::lemma_fundamental_div_mod(x as int, 2 * p);
            assert(2 * p - 1 <= x) by (nonlinear_arith)
                requires
                    x as int == (2 * p) * (x as int / (2 * p)) + x as int % (2 * p),
                    x as int % (2 * p) == 2 * p - 1,
                    x as int / (2 * p) >= 0,
            ;
            if r == 64 {
                vstd::arithmetic::power2::lemma2_to64_rest();
                assert(false) by (nonlinear_arith)
                    requires
                        2 * p - 1 <= x,
                        p == 0x1_0000_0000_0000_0000int,
                        x <= usize::MAX,
                        usize::MAX <= 0xffff_ffff_ffff_ffffint,
                ;
            }
        }
        y = y / 2;
        r += 1;
    }
    r
}

/// The least power of two that is at least `x`.
pub open spec fn ceil_pow2(x: nat) -> nat
    decreases x,
{
    if x <= 1 {
        1
    } else {
        2 * ceil_pow2(((x + 1) / 2) as nat)
    }
}

pub proof fn lemma_ceil_pow2(x: nat)
    ensures
        x <= ceil_pow2(x),
        1 <= ceil_pow2(x),
    decreases x,
{
    if x > 1 {
        lemma_ceil_pow2(((x + 1) / 2) as nat);
    }
}

/// `ceil_pow2(x)` is a power of two, `2^k` for the returned `k`.
pub proof fn lemma_ceil_pow2_exp(x: nat) -> (k: nat)
    ensures
        ceil_pow2(x) == pow2(k),
    decreases x,
{
    if x <= 1 {
        vstd::arithmetic::power2::lemma2_to64();
        0
    } else {
        let j = lemma_ceil_pow2_exp(((x + 1) / 2) as nat);
        vstd::arithmetic::power2::lemma_pow2_unfold(j + 1);
        j + 1
    }
}

/// `ceil_pow2(x)` stays below any power of two that is at least `x`.
pub proof fn lemma_ceil_pow2_le(x: nat, k: nat)
    requires
        x <= pow2(k),
    ensures
        ceil_pow2(x) <= pow2(k),
    decreases x,
{
    vstd::arithmetic::power2::lemma_pow2_pos(k);
    if x > 1 {
        if k == 0 {
            vstd::arithmetic::power2::lemma2_to64();
        } else {
            vstd::arithmetic::power2::lemma_pow2_unfold(k);
            lemma_ceil_pow2_le(((x + 1) / 2) as nat, (k - 1) as nat);
        }
    }
}

/// `ceil_pow2(x)` is the power of two `p` with `x <= p` and, unless `p = 1`, `p / 2 < x`.
proof fn lemma_ceil_pow2_is(x: nat, p: nat, k: nat)
    requires
        p == pow2(k),
        x <= p,
        p == 1 || p / 2 < x,
    ensures
        ceil_pow2(x) == p,
    decreases x,
{
    vstd::arithmetic::power2::lemma_pow2_pos(k);
    if x <= 1 {
        if k > 0 {
            vstd::arithmetic::power2::lemma_pow2_unfold(k);
        }
    } else {
        if k == 0 {
            vstd::arithmetic::power2::lemma2_to64();
        }
        vstd::arithmetic::power2::lemma_pow2_unfold(k);
        let q = pow2((k - 1) as nat);
        vstd::arithmetic::power2::lemma_pow2_pos((k - 1) as nat);
        lemma_ceil_pow2_is(((x + 1) / 2) as nat, q, (k - 1) as nat);
    }
}

/// The largest power of two that a `usize` holds: `2^(usize::BITS - 1)`.
pub open spec fn usize_top_bit() -> nat {
    (usize::MAX as nat + 1) / 2
}

/// `usize_top_bit()` is `2^k` for `k = usize::BITS - 1`, which is `31` or `63`.
pub proof fn lemma_usize_top_bit() -> (k: nat)
    ensures
        usize_top_bit() == pow2(k),
        k == 31 || k == 63,
        k >= 1,
{
    vstd::arithmetic::power2::lemma2_to64();
    vstd::arithmetic::power2::lemma2_to64_rest();
    if usize::MAX == 0xffff_ffff {
        31
    } else {
        63
    }
}

/// `isize::MAX` is one less than the largest power of two that a `usize` holds.
pub proof fn lemma_isize_max()
    ensures
        isize::MAX == usize_top_bit() - 1,
{
}

/// The least power of two that is at least `x` (while that fits a `usize`).
pub(crate) fn next_power_of_two(x: usize) -> (r: usize)
    requires
        x <= usize_top_bit(),
    ensures
        r == ceil_pow2(x as nat),
{
    let mut p: usize = 1;
    let ghost mut k: nat = 0;
    let ghost t = lemma_usize_top_bit();
    proof {
        vstd::arithmetic::power2::lemma2_to64();
    }
    while p < x
        invariant
            x <= usize_top_bit(),
            usize_top_bit() == pow2(t),
            p == pow2(k),
            1 <= p <= usize_top_bit(),
            p == 1 || p / 2 < x,
        decreases usize_top_bit() - p,
    {
        proof {
            vstd::arithmetic::power2::lemma_pow2_unfold(k + 1);
            if k >= t {
                if k > t {
                    vstd::arithmetic::power2::lemma_pow2_strictly_increases(t, k);
                }
                assert(false);
            }
            if k + 1 < t {
                vstd::arithmetic::power2::lemma_pow2_strictly_increases(k + 1, t);
            }
        }
        p = p * 2;
        proof {
            k = k + 1;
        }
    }
    proof {
        lemma_ceil_pow2_is(x as nat, p as nat, k);
    }
    p
}

/// `1 << i` is `2^i`.
pub proof fn lemma_shl_one(i: u32)
    requires
        i < 128,
    ensures
        (1u128 << i) as nat == pow2(i as nat),
    decreases i,
{
    if i == 0 {
        assert(1u128 << 0u32 == 1) by (bit_vector);
        vstd::arithmetic::power2::lemma2_to64();
    } else {
        lemma_shl_one((i - 1) as u32);
        let j: u32 = (i - 1) as u32;
        assert((1u128 << j) * 2 == (1u128 << i)) by (bit_vector)
            requires
                j < 127,
                i == j + 1,
        ;
        vstd::arithmetic::power2::lemma_pow2_unfold(i as nat);
    }
}
} // verus!
