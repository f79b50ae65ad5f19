//! Pollard's rho method with Floyd's or Brent's cycle detection.
use vstd::prelude::*;
use crate::arith::{lemma_divisor_le, lemma_gcd_divides, redc, spec_gcd};
use crate::bits::{isqrt, leading_zeros, lemma_shl_one, lemma_sqrt_floor, sqrt_floor};
use vstd::arithmetic::power2::{pow2, lemma_pow2_strictly_increases};
use crate::modint::u128::{gcd, lemma_reduced_product, DynamicModInt as Mint};
use crate::wrapper::{is_factor_found, is_factor_input, is_proper_divisor, smallest_factor, Factorize};

verus! {

/// Floyd's cycle detection for Pollard's rho.
#[derive(Debug, Clone, Copy, PartialEq, Eq, Default)]
pub struct Floyd;

/// Brent's cycle detection for Pollard's rho.
#[derive(Debug, Clone, Copy, PartialEq, Eq, Default)]
pub struct Brent;

/// Pollard's rho method with cycle detection `T`, optionally combining the differences of a
/// batch of steps into one `gcd`.
#[derive(Debug, Clone, Copy)]
pub struct PollardRho<T> {
    cycle_detection: T,
    pub batch_gcd: bool,
}

impl<T> PollardRho<T> {
    /// Whether the differences of a batch of steps share one `gcd`.
    pub closed spec fn batches(&self) -> bool {
        self.batch_gcd
    }

    pub fn new(cycle_detection: T, batch_gcd: bool) -> (r: Self)
        ensures
            r.batches() == batch_gcd,
    {
        Self { cycle_detection, batch_gcd }
    }
}

/// One step `x^2 + c` of the pseudo-random walk, in Montgomery form.
fn walk(mo: &Mint, rx: u128, rc: u128) -> (r: u128)
    requires
        mo.wf(),
        rx < mo.n,
        rc < mo.n,
    ensures
        r < mo.n,
        r == (redc(mo.n as int, rx as int * rx as int) + rc) % (mo.n as int),
{
    proof {
        lemma_reduced_product(rx, rx, mo.n);
        vstd::arithmetic::div_mod::lemma_mod_bound(rx as int * rx as int * crate::arith::r_inv(mo.n as int), mo.n as int);
    }
    let s = mo.mul(rx, rx);
    mo.add(s, rc)
}

/// `|x - y|`.
fn abs_diff(x: u128, y: u128) -> (r: u128)
    ensures
        r == if x >= y { x - y } else { y - x },
{
    if x >= y {
        x - y
    } else {
        y - x
    }
}

/// `gcd(n, x)` is a proper divisor of `n` when it is neither `1` nor `n`.
proof fn lemma_gcd_proper(n: u128, x: u128)
    requires
        n >= 2,
        spec_gcd(n as nat, x as nat) != 1,
        spec_gcd(n as nat, x as nat) != n,
    ensures
        is_proper_divisor(n as nat, spec_gcd(n as nat, x as nat)),
{
    lemma_gcd_divides(n as nat, x as nat);
    lemma_divisor_le(spec_gcd(n as nat, x as nat) as int, n as int);
}

/// Montgomery product of an accumulator and a difference, both below `n`.
fn accumulate(mo: &Mint, acc: u128, d: u128) -> (r: u128)
    requires
        mo.wf(),
        acc < mo.n,
        d < mo.n,
    ensures
        r < mo.n,
        r == redc(mo.n as int, acc as int * d as int),
{
    proof {
        lemma_reduced_product(acc, d, mo.n);
        vstd::arithmetic::div_mod::lemma_mod_bound(acc as int * d as int * crate::arith::r_inv(mo.n as int), mo.n as int);
    }
    mo.mul(acc, d)
}

/// The walk of the constant `c`: `x_0 = c` and `x_{i+1} = x_i^2 + c`, on Montgomery forms
/// modulo `n`.
pub open spec fn rho_walk(n: int, c: int, i: nat) -> int
    decreases i,
{
    if i == 0 {
        c
    } else {
        let x = rho_walk(n, c, (i - 1) as nat);
        (redc(n, x * x) + c) % n
    }
}

/// `|x - y|`.
pub open spec fn dist(x: int, y: int) -> int {
    if x >= y {
        x - y
    } else {
        y - x
    }
}

/// The gcd of `n` with `|x_s - x_{2s}|`.
pub open spec fn floyd_gcd(n: int, c: int, s: nat) -> nat {
    spec_gcd(n as nat, dist(rho_walk(n, c, s), rho_walk(n, c, 2 * s)) as nat)
}

/// Floyd's comparisons one at a time from step `s` to step `n`: the first gcd other than
/// one, when it is a proper divisor; nothing when it is `n` or when there is none.
pub open spec fn floyd_scan(n: int, c: int, s: nat) -> Option<u128>
    decreases n + 1 - s,
{
    if s > n {
        None
    } else {
        let g = floyd_gcd(n, c, s);
        if g != 1 && g != n {
            Some(g as u128)
        } else if g != 1 {
            None
        } else {
            floyd_scan(n, c, s + 1)
        }
    }
}

/// Floyd's comparisons one at a time from step `s` to step `e`: the first gcd that is a
/// proper divisor, if any.
pub open spec fn floyd_replay(n: int, c: int, s: nat, e: nat) -> Option<u128>
    decreases e + 1 - s,
{
    if s > e {
        None
    } else {
        let g = floyd_gcd(n, c, s);
        if g != 1 && g != n {
            Some(g as u128)
        } else {
            floyd_replay(n, c, s + 1, e)
        }
    }
}

/// The Montgomery product of the differences `|x_s - x_{2s}|` for the `k` steps after `start`.
pub open spec fn floyd_comb(n: int, c: int, start: nat, k: nat) -> int
    decreases k,
{
    if k == 0 {
        1
    } else {
        let s = start + k;
        redc(n, floyd_comb(n, c, start, (k - 1) as nat) * dist(rho_walk(n, c, s), rho_walk(n, c, 2 * s)))
    }
}

/// Floyd's comparisons in rounds of `b` steps from round `r` (rounds below `n`): a round whose
/// combined gcd is one passes; one whose gcd is a proper divisor gives it; one whose gcd is
/// `n`, or the round after the last, is replayed step by step.
pub open spec fn floyd_rounds(n: int, c: int, b: nat, r: nat) -> Option<u128>
    decreases n - r,
{
    if r >= n {
        floyd_replay(n, c, r * b + 1, r * b + b)
    } else {
        let d = spec_gcd(n as nat, floyd_comb(n, c, r * b, b) as nat);
        if d == 1 {
            floyd_rounds(n, c, b, r + 1)
        } else if d != n {
            Some(d as u128)
        } else {
            floyd_replay(n, c, r * b + 1, r * b + b)
        }
    }
}

/// The number of steps in a round: `floor(n^(1/8))`, as three integer square roots.
pub open spec fn floyd_batch_len(n: nat) -> nat {
    sqrt_floor(sqrt_floor(sqrt_floor(n)))
}

/// What Floyd's search with the constant `c` gives.
pub open spec fn floyd_try(n: int, c: int, batch: bool) -> Option<u128> {
    if batch {
        floyd_rounds(n, c, floyd_batch_len(n as nat), 0)
    } else {
        floyd_scan(n, c, 1)
    }
}

/// The first divisor that Floyd's search finds over the constants from `c` to `n - 1`.
pub open spec fn floyd_from(n: int, batch: bool, c: nat) -> Option<u128>
    decreases n - c,
{
    if c >= n {
        None
    } else {
        match floyd_try(n, c as int, batch) {
            Some(d) => Some(d),
            None => floyd_from(n, batch, c + 1),
        }
    }
}

/// Two steps of the walk.
proof fn lemma_rho_two(n: int, c: int, i: nat)
    ensures
        rho_walk(n, c, i + 2) == (redc(n, rho_walk(n, c, i + 1) * rho_walk(n, c, i + 1)) + c) % n,
        rho_walk(n, c, i + 1) == (redc(n, rho_walk(n, c, i) * rho_walk(n, c, i)) + c) % n,
{
}

/// Floyd's comparisons one at a time for the `b` steps after `start`, from the walk's points
/// `rx = x_start` and `ry = x_{2 start}`.
fn floyd_replay_steps(mo: &Mint, rc: u128, rx: u128, ry: u128, b: u128, Ghost(start): Ghost<nat>) -> (r: Option<u128>)
    requires
        mo.wf(),
        is_factor_input(mo.n),
        rc < mo.n,
        rx < mo.n,
        ry < mo.n,
        rx == rho_walk(mo.n as int, rc as int, start),
        ry == rho_walk(mo.n as int, rc as int, 2 * start),
    ensures
        r == floyd_replay(mo.n as int, rc as int, start + 1, (start + b) as nat),
        r matches Some(d) ==> is_proper_divisor(mo.n as nat, d as nat),
{
    let ghost n = mo.n as int;
    let ghost c = rc as int;
    let mut rx = rx;
    let mut ry = ry;
    let mut k: u128 = 0;
    while k < b
        invariant
            mo.wf(),
            is_factor_input(mo.n),
            n == mo.n,
            c == rc,
            rc < mo.n,
            k <= b,
            rx < mo.n,
            ry < mo.n,
            rx == rho_walk(n, c, (start + k) as nat),
            ry == rho_walk(n, c, (2 * (start + k)) as nat),
            floyd_replay(n, c, start + 1, (start + b) as nat) == floyd_replay(n, c, (start + k + 1) as nat, (start + b) as nat),
        decreases b - k,
    {
        proof {
            lemma_rho_two(n, c, (start + k) as nat);
            lemma_rho_two(n, c, (2 * (start + k)) as nat);
        }
        rx = walk(mo, rx, rc);
        ry = walk(mo, walk(mo, ry, rc), rc);
        k += 1;
        let diff = abs_diff(rx, ry);
        let d = gcd(mo.n, diff);
        if d != 1 && d != mo.n {
            proof {
                lemma_gcd_proper(mo.n, diff);
            }
            return Some(d);
        }
    }
    None
}

/// Floyd's search with the constant `rc`: the walk's points `x_i` against `x_{2i}`, one at a
/// time or in rounds combined into one gcd.
fn floyd_attempt(mo: &Mint, rc: u128, batch_gcd: bool) -> (r: Option<u128>)
    requires
        mo.wf(),
        is_factor_input(mo.n),
        rc < mo.n,
    ensures
        r == floyd_try(mo.n as int, rc as int, batch_gcd),
        r matches Some(d) ==> is_proper_divisor(mo.n as nat, d as nat),
{
    let n = mo.n;
    let ghost ni = n as int;
    let ghost c = rc as int;
    if batch_gcd {
        let r1 = isqrt(n);
        let r2 = isqrt(r1);
        let batch = isqrt(r2);
        proof {
            lemma_sqrt_floor(n as nat, r1 as nat);
            lemma_sqrt_floor(r1 as nat, r2 as nat);
            lemma_sqrt_floor(r2 as nat, batch as nat);
        }
        let ghost b = batch as nat;
        let mut rx = rc;
        let mut ry = rc;
        let mut rounds: u128 = 0;
        while rounds < n
            invariant
                mo.wf(),
                is_factor_input(mo.n),
                n == mo.n,
                ni == n,
                c == rc,
                rc < n,
                b == batch,
                b == floyd_batch_len(n as nat),
                rounds <= n,
                batch_gcd,
                rx < n,
                ry < n,
                rx == rho_walk(ni, c, (rounds * b) as nat),
                ry == rho_walk(ni, c, (2 * (rounds * b)) as nat),
                floyd_rounds(ni, c, b, 0) == floyd_rounds(ni, c, b, rounds as nat),
            decreases n - rounds,
        {
            let mut px = rx;
            let mut py = ry;
            let mut combined: u128 = 1;
            let mut k: u128 = 0;
            while k < batch
                invariant
                    mo.wf(),
                    n == mo.n,
                    ni == n,
                    n >= 3,
                    c == rc,
                    rc < n,
                    k <= batch,
                    px < n,
                    py < n,
                    combined < n,
                    px == rho_walk(ni, c, (rounds * b + k) as nat),
                    py == rho_walk(ni, c, (2 * (rounds * b + k)) as nat),
                    combined == floyd_comb(ni, c, (rounds * b) as nat, k as nat),
                decreases batch - k,
            {
                proof {
                    lemma_rho_two(ni, c, (rounds * b + k) as nat);
                    lemma_rho_two(ni, c, (2 * (rounds * b + k)) as nat);
                }
                px = walk(mo, px, rc);
                py = walk(mo, walk(mo, py, rc), rc);
                combined = accumulate(mo, combined, abs_diff(px, py));
                k += 1;
            }
            let d = gcd(n, combined);
            if d == 1 {
                rx = px;
                ry = py;
                rounds += 1;
                proof {
                    assert((rounds - 1) * b + b == rounds * b) by (nonlinear_arith);
                }
            } else if d != n {
                proof {
                    lemma_gcd_proper(n, combined);
                }
                return Some(d);
            } else {
                return floyd_replay_steps(mo, rc, rx, ry, batch, Ghost((rounds * b) as nat));
            }
        }
        floyd_replay_steps(mo, rc, rx, ry, batch, Ghost((rounds * b) as nat))
    } else {
        let mut rx = rc;
        let mut ry = rc;
        let mut steps: u128 = 0;
        while steps < n
            invariant
                mo.wf(),
                is_factor_input(mo.n),
                n == mo.n,
                ni == n,
                c == rc,
                rc < n,
                steps <= n,
                !batch_gcd,
                rx < n,
                ry < n,
                rx == rho_walk(ni, c, steps as nat),
                ry == rho_walk(ni, c, (2 * steps) as nat),
                floyd_scan(ni, c, 1) == floyd_scan(ni, c, steps as nat + 1),
            decreases n - steps,
        {
            proof {
                lemma_rho_two(ni, c, steps as nat);
                lemma_rho_two(ni, c, (2 * steps) as nat);
            }
            steps += 1;
            rx = walk(mo, rx, rc);
            ry = walk(mo, walk(mo, ry, rc), rc);
            let diff = abs_diff(rx, ry);
            let d = gcd(n, diff);
            if d != 1 && d != n {
                proof {
                    lemma_gcd_proper(n, diff);
                }
                return Some(d);
            }
            if d != 1 {
                return None;
            }
        }
        None
    }
}

impl Factorize for PollardRho<Floyd> {
    /// Always `Some` of what `find_factor` returns.
    fn try_find_factor(&mut self, n: u128) -> (r: Option<u128>)
        ensures
            r matches Some(d) && is_factor_found(n as nat, d as nat),
    {
        Some(self.find_factor(n))
    }

    /// Floyd's walk `x_i` against `x_{2i}` for the constants `c = 1, 2, ...`: the first divisor
    /// found; trial division once every constant below `n` has failed.
    fn find_factor(&mut self, n: u128) -> (d: u128)
        ensures
            *final(self) == *old(self),
            floyd_from(n as int, old(self).batches(), 1) matches Some(g) ==> d == g,
            floyd_from(n as int, old(self).batches(), 1) is None ==> 2 <= d <= n && n % d == 0 && forall|j: nat|
                1 < j < d ==> #[trigger] (n as nat % j) != 0,
    {
        let mo = Mint::new(n);
        let mut rc: u128 = 0;
        while rc < n - 1
            invariant
                is_factor_input(n),
                mo.wf(),
                mo.n == n,
                rc < n,
                floyd_from(n as int, self.batch_gcd, 1) == floyd_from(n as int, self.batch_gcd, rc as nat + 1),
            decreases n - rc,
        {
            rc += 1;
            if let Some(d) = floyd_attempt(&mo, rc, self.batch_gcd) {
                return d;
            }
        }
        smallest_factor(n)
    }
}

/// `k` is the bit length of `n`: `2^(k-1) <= n < 2^k`.
pub open spec fn is_bit_len(n: nat, k: nat) -> bool {
    k >= 1 && pow2((k - 1) as nat) <= n < pow2(k)
}

/// The bit length of `n >= 1`.
pub open spec fn bit_len(n: nat) -> nat {
    choose|k: nat| #[trigger] is_bit_len(n, k)
}

/// The bit length is the one `bit_len` names.
proof fn lemma_bit_len(n: nat, k: nat)
    requires
        is_bit_len(n, k),
    ensures
        bit_len(n) == k,
{
    let q = bit_len(n);
    assert(is_bit_len(n, q));
    if q < k {
        if q < (k - 1) as nat {
            lemma_pow2_strictly_increases(q, (k - 1) as nat);
        }
    } else if k < q {
        if k < (q - 1) as nat {
            lemma_pow2_strictly_increases(k, (q - 1) as nat);
        }
    }
}

/// The gcd of `n` with `|x_a - x_b|`.
pub open spec fn pair_gcd(n: int, c: int, a: nat, b: nat) -> nat {
    spec_gcd(n as nat, dist(rho_walk(n, c, a), rho_walk(n, c, b)) as nat)
}

/// Brent's comparisons one at a time of `x_a` with `x_{e+1}`, ..., `x_{e+m}`: the first gcd
/// that is a proper divisor, if any.
pub open spec fn brent_replay(n: int, c: int, a: nat, e: nat, m: nat) -> Option<u128>
    decreases m,
{
    if m == 0 {
        None
    } else {
        let g = pair_gcd(n, c, a, e + 1);
        if g != 1 && g != n {
            Some(g as u128)
        } else {
            brent_replay(n, c, a, e + 1, (m - 1) as nat)
        }
    }
}

/// Brent's windows `i` to `w - 1` one comparison at a time: `x_{2^i - 1}` against the next
/// `2^i` points.
pub open spec fn brent_scan(n: int, c: int, i: nat, w: nat) -> Option<u128>
    decreases w - i,
{
    if i >= w {
        None
    } else {
        match brent_replay(n, c, (pow2(i) - 1) as nat, (pow2(i) - 1) as nat, pow2(i)) {
            Some(d) => Some(d),
            None => brent_scan(n, c, i + 1, w),
        }
    }
}

/// `init` multiplied, in Montgomery form, by `|x_a - x_{e+1}|`, ..., `|x_a - x_{e+m}|`.
pub open spec fn brent_comb(n: int, c: int, init: int, a: nat, e: nat, m: nat) -> int
    decreases m,
{
    if m == 0 {
        init
    } else {
        redc(n, brent_comb(n, c, init, a, e, (m - 1) as nat) * dist(rho_walk(n, c, a), rho_walk(n, c, e + m)))
    }
}

/// The product over the first `i` windows.
pub open spec fn brent_head(n: int, c: int, i: nat) -> int
    decreases i,
{
    if i == 0 {
        1
    } else {
        let j = (i - 1) as nat;
        brent_comb(n, c, brent_head(n, c, j), (pow2(j) - 1) as nat, (pow2(j) - 1) as nat, pow2(j))
    }
}

/// Brent's windows from `i` (below `w`) in batches of `2^bb` comparisons from batch `t`, the
/// last batch whose gcd was one ending at `(x_cpa, x_cpe)`: a batch with gcd one passes, one
/// with a proper divisor gives it, one with gcd `n`, or the end of the windows, replays the
/// batch after that checkpoint one comparison at a time.
pub open spec fn brent_batches(n: int, c: int, bb: nat, w: nat, i: nat, t: nat, cpa: nat, cpe: nat) -> Option<u128>
    decreases w - i, pow2((i - bb) as nat) - t,
{
    if i >= w {
        brent_replay(n, c, cpa, cpe, pow2(bb))
    } else if t >= pow2((i - bb) as nat) {
        brent_batches(n, c, bb, w, i + 1, 0, cpa, cpe)
    } else {
        let s = (pow2(i) - 1) as nat;
        let d = spec_gcd(n as nat, brent_comb(n, c, 1, s, s + t * pow2(bb), pow2(bb)) as nat);
        if d == n {
            brent_replay(n, c, cpa, cpe, pow2(bb))
        } else if d != 1 {
            Some(d as u128)
        } else {
            brent_batches(n, c, bb, w, i, t + 1, s, s + (t + 1) * pow2(bb))
        }
    }
}

/// What Brent's search with the constant `c` gives: with `k` the bit length of `n`, windows
/// `0` to `k`; in batches, the first `k / 8` windows combined into one gcd and the rest in
/// batches of `2^(k/8)` comparisons.
pub open spec fn brent_try(n: int, c: int, batch: bool) -> Option<u128> {
    let k = bit_len(n as nat);
    let bb = k / 8;
    if !batch {
        brent_scan(n, c, 0, k + 1)
    } else {
        let d = spec_gcd(n as nat, brent_head(n, c, bb) as nat);
        if d == n {
            brent_scan(n, c, 0, k + 1)
        } else if d != 1 {
            Some(d as u128)
        } else {
            brent_batches(n, c, bb, k + 1, bb, 0, (pow2(bb) - 1) as nat, (pow2(bb) - 1) as nat)
        }
    }
}

/// The first divisor that Brent's search finds over the constants from `c` to `n - 1`.
pub open spec fn brent_from(n: int, batch: bool, c: nat) -> Option<u128>
    decreases n - c,
{
    if c >= n {
        None
    } else {
        match brent_try(n, c as int, batch) {
            Some(d) => Some(d),
            None => brent_from(n, batch, c + 1),
        }
    }
}

/// One step of the walk.
proof fn lemma_rho_one(n: int, c: int, i: nat)
    ensures
        rho_walk(n, c, i + 1) == (redc(n, rho_walk(n, c, i) * rho_walk(n, c, i)) + c) % n,
{
}

/// Brent's comparisons one at a time of `rx = x_a` with the `m` points after `ry = x_e`; the
/// last point reached.
fn brent_replay_steps(mo: &Mint, rc: u128, rx: u128, ry: u128, m: u128, Ghost(a): Ghost<nat>, Ghost(e): Ghost<nat>) -> (r: (
    Option<u128>,
    u128,
))
    requires
        mo.wf(),
        is_factor_input(mo.n),
        rc < mo.n,
        rx < mo.n,
        ry < mo.n,
        rx == rho_walk(mo.n as int, rc as int, a),
        ry == rho_walk(mo.n as int, rc as int, e),
    ensures
        r.0 == brent_replay(mo.n as int, rc as int, a, e, m as nat),
        r.0 matches Some(d) ==> is_proper_divisor(mo.n as nat, d as nat),
        r.1 < mo.n,
        r.0 is None ==> r.1 == rho_walk(mo.n as int, rc as int, (e + m) as nat),
{
    let ghost n = mo.n as int;
    let ghost c = rc as int;
    let mut ry = ry;
    let mut j: u128 = 0;
    while j < m
        invariant
            mo.wf(),
            is_factor_input(mo.n),
            n == mo.n,
            c == rc,
            rc < mo.n,
            j <= m,
            rx < mo.n,
            ry < mo.n,
            rx == rho_walk(n, c, a),
            ry == rho_walk(n, c, (e + j) as nat),
            brent_replay(n, c, a, e, m as nat) == brent_replay(n, c, a, (e + j) as nat, (m - j) as nat),
        decreases m - j,
    {
        proof {
            lemma_rho_one(n, c, (e + j) as nat);
        }
        ry = walk(mo, ry, rc);
        let diff = abs_diff(rx, ry);
        let d = gcd(mo.n, diff);
        if d != 1 && d != mo.n {
            proof {
                lemma_gcd_proper(mo.n, diff);
            }
            return (Some(d), ry);
        }
        j += 1;
    }
    (None, ry)
}

/// Brent's windows `0` to `w - 1` of the constant `rc`, one comparison at a time.
fn brent_scan_windows(mo: &Mint, rc: u128, w: u32) -> (r: Option<u128>)
    requires
        mo.wf(),
        is_factor_input(mo.n),
        rc < mo.n,
        w <= 128,
    ensures
        r == brent_scan(mo.n as int, rc as int, 0, w as nat),
        r matches Some(d) ==> is_proper_divisor(mo.n as nat, d as nat),
{
    let ghost n = mo.n as int;
    let ghost c = rc as int;
    let mut rx = rc;
    let mut i: u32 = 0;
    proof {
        vstd::arithmetic::power2::lemma2_to64();
    }
    while i < w
        invariant
            mo.wf(),
            is_factor_input(mo.n),
            n == mo.n,
            c == rc,
            rc < mo.n,
            w <= 128,
            i <= w,
            rx < mo.n,
            rx == rho_walk(n, c, (pow2(i as nat) - 1) as nat),
            brent_scan(n, c, 0, w as nat) == brent_scan(n, c, i as nat, w as nat),
        decreases w - i,
    {
        let span: u128 = 1u128 << i;
        proof {
            lemma_shl_one(i);
            vstd::arithmetic::power2::lemma_pow2_pos(i as nat);
        }
        let (res, ry) = brent_replay_steps(
            mo,
            rc,
            rx,
            rx,
            span,
            Ghost((pow2(i as nat) - 1) as nat),
            Ghost((pow2(i as nat) - 1) as nat),
        );
        if res.is_some() {
            return res;
        }
        proof {
            vstd::arithmetic::power2::lemma_pow2_unfold(i as nat + 1);
        }
        rx = ry;
        i += 1;
    }
    None
}

/// Brent's search with the constant `rc`: one comparison at a time, or in batches combined
/// into one gcd.
fn brent_attempt(mo: &Mint, rc: u128, batch_gcd: bool) -> (r: Option<u128>)
    requires
        mo.wf(),
        is_factor_input(mo.n),
        rc < mo.n,
    ensures
        r == brent_try(mo.n as int, rc as int, batch_gcd),
        r matches Some(d) ==> is_proper_divisor(mo.n as nat, d as nat),
{
    let n = mo.n;
    let ghost ni = n as int;
    let ghost c = rc as int;
    let lz = leading_zeros(n);
    proof {
        if lz == 0 {
            vstd::arithmetic::power2::lemma2_to64();
            vstd::arithmetic::power2::lemma2_to64_rest();
            vstd::arithmetic::power2::lemma_pow2_adds(64, 63);
        }
        lemma_bit_len(n as nat, (128 - lz) as nat);
    }
    let k: u32 = 128 - lz;
    let window_bits: u32 = k + 1;
    if !batch_gcd {
        return brent_scan_windows(mo, rc, window_bits);
    }
    let batch_bit: u32 = k / 8;
    let batch: u128 = 1u128 << batch_bit;
    let ghost bb = batch_bit as nat;
    let ghost bl = pow2(bb);
    proof {
        lemma_shl_one(batch_bit);
        vstd::arithmetic::power2::lemma2_to64();
    }
    let mut rx = rc;
    let mut combined: u128 = 1;
    let mut i: u32 = 0;
    while i < batch_bit
        invariant
            mo.wf(),
            is_factor_input(mo.n),
            n == mo.n,
            ni == n,
            c == rc,
            rc < n,
            batch_bit <= 16,
            i <= batch_bit,
            rx < n,
            combined < n,
            rx == rho_walk(ni, c, (pow2(i as nat) - 1) as nat),
            combined == brent_head(ni, c, i as nat),
        decreases batch_bit - i,
    {
        let ghost s = (pow2(i as nat) - 1) as nat;
        let mut ry = rx;
        let span: u128 = 1u128 << i;
        proof {
            lemma_shl_one(i);
            vstd::arithmetic::power2::lemma_pow2_pos(i as nat);
        }
        let mut j: u128 = 0;
        while j < span
            invariant
                mo.wf(),
                n == mo.n,
                ni == n,
                n >= 3,
                c == rc,
                rc < n,
                j <= span,
                rx < n,
                ry < n,
                combined < n,
                rx == rho_walk(ni, c, s),
                ry == rho_walk(ni, c, (s + j) as nat),
                combined == brent_comb(ni, c, brent_head(ni, c, i as nat), s, s, j as nat),
            decreases span - j,
        {
            proof {
                lemma_rho_one(ni, c, (s + j) as nat);
            }
            ry = walk(mo, ry, rc);
            combined = accumulate(mo, combined, abs_diff(rx, ry));
            j += 1;
        }
        proof {
            vstd::arithmetic::power2::lemma_pow2_unfold(i as nat + 1);
        }
        rx = ry;
        i += 1;
    }
    let d = gcd(n, combined);
    if d == n {
        return brent_scan_windows(mo, rc, window_bits);
    } else if d != 1 {
        proof {
            lemma_gcd_proper(n, combined);
        }
        return Some(d);
    }
    proof {
        assert(window_bits == bit_len(n as nat) + 1);
        assert(brent_try(ni, c, batch_gcd) == brent_batches(
            ni,
            c,
            bb,
            window_bits as nat,
            bb,
            0,
            (pow2(bb) - 1) as nat,
            (pow2(bb) - 1) as nat,
        ));
    }
    let mut cpx = rx;
    let mut cpy = rx;
    let ghost mut cpa = (pow2(bb) - 1) as nat;
    let ghost mut cpe = (pow2(bb) - 1) as nat;
    let mut i: u32 = batch_bit;
    while i < window_bits
        invariant
            mo.wf(),
            is_factor_input(mo.n),
            n == mo.n,
            ni == n,
            c == rc,
            rc < n,
            batch_bit <= 16,
            bb == batch_bit,
            bl == pow2(bb),
            batch == bl,
            window_bits <= 128,
            batch_bit <= i <= window_bits,
            rx < n,
            cpx < n,
            cpy < n,
            rx == rho_walk(ni, c, (pow2(i as nat) - 1) as nat),
            cpx == rho_walk(ni, c, cpa),
            cpy == rho_walk(ni, c, cpe),
            brent_try(ni, c, batch_gcd) == brent_batches(ni, c, bb, window_bits as nat, i as nat, 0, cpa, cpe),
        decreases window_bits - i,
    {
        let ghost s = (pow2(i as nat) - 1) as nat;
        let mut ry = rx;
        let rounds: u128 = 1u128 << (i - batch_bit);
        proof {
            lemma_shl_one((i - batch_bit) as u32);
        }
        let mut t: u128 = 0;
        while t < rounds
            invariant
                mo.wf(),
                is_factor_input(mo.n),
                n == mo.n,
                ni == n,
                c == rc,
                rc < n,
                bb == batch_bit,
                bl == pow2(bb),
                batch == bl,
                batch_bit <= i < window_bits,
                rounds == pow2((i - batch_bit) as nat),
                t <= rounds,
                rx < n,
                ry < n,
                cpx < n,
                cpy < n,
                s == (pow2(i as nat) - 1) as nat,
                rx == rho_walk(ni, c, s),
                ry == rho_walk(ni, c, (s + t * bl) as nat),
                cpx == rho_walk(ni, c, cpa),
                cpy == rho_walk(ni, c, cpe),
                brent_try(ni, c, batch_gcd) == brent_batches(ni, c, bb, window_bits as nat, i as nat, t as nat, cpa, cpe),
            decreases rounds - t,
        {
            let ghost e = (s + t * bl) as nat;
            let mut combined: u128 = 1;
            let mut k: u128 = 0;
            while k < batch
                invariant
                    mo.wf(),
                    n == mo.n,
                    ni == n,
                    n >= 3,
                    c == rc,
                    rc < n,
                    k <= batch,
                    rx < n,
                    ry < n,
                    combined < n,
                    rx == rho_walk(ni, c, s),
                    ry == rho_walk(ni, c, (e + k) as nat),
                    combined == brent_comb(ni, c, 1, s, e, k as nat),
                decreases batch - k,
            {
                proof {
                    lemma_rho_one(ni, c, (e + k) as nat);
                }
                ry = walk(mo, ry, rc);
                combined = accumulate(mo, combined, abs_diff(rx, ry));
                k += 1;
            }
            let d = gcd(n, combined);
            if d == n {
                let (res, _) = brent_replay_steps(mo, rc, cpx, cpy, batch, Ghost(cpa), Ghost(cpe));
                return res;
            } else if d != 1 {
                proof {
                    lemma_gcd_proper(n, combined);
                }
                return Some(d);
            }
            cpx = rx;
            cpy = ry;
            proof {
                cpa = s;
                cpe = (s + (t + 1) * bl) as nat;
                assert(e + bl == s + (t + 1) * bl) by (nonlinear_arith)
                    requires
                        e == s + t * bl,
                ;
            }
            t += 1;
        }
        proof {
            vstd::arithmetic::power2::lemma_pow2_adds((i - batch_bit) as nat, bb);
            vstd::arithmetic::power2::lemma_pow2_unfold(i as nat + 1);
            assert(rounds * bl == pow2(i as nat));
        }
        rx = ry;
        i += 1;
    }
    let (res, _) = brent_replay_steps(mo, rc, cpx, cpy, batch, Ghost(cpa), Ghost(cpe));
    res
}

impl Factorize for PollardRho<Brent> {
    /// Always `Some` of what `find_factor` returns.
    fn try_find_factor(&mut self, n: u128) -> (r: Option<u128>)
        ensures
            r matches Some(d) && is_factor_found(n as nat, d as nat),
    {
        Some(self.find_factor(n))
    }

    /// Brent's walk, comparing `x_{2^i - 1}` with the next `2^i` points, for the constants
    /// `c = 1, 2, ...`: the first divisor found; a constant is given up once the window
    /// exceeds `n` (by then the walk has entered its cycle and every offset within one period
    /// has been compared), and trial division follows once every constant below `n` has been
    /// given up.
    fn find_factor(&mut self, n: u128) -> (d: u128)
        ensures
            *final(self) == *old(self),
            brent_from(n as int, old(self).batches(), 1) matches Some(g) ==> d == g,
            brent_from(n as int, old(self).batches(), 1) is None ==> 2 <= d <= n && n % d == 0 && forall|j: nat|
                1 < j < d ==> #[trigger] (n as nat % j) != 0,
    {
        let mo = Mint::new(n);
        let mut rc: u128 = 0;
        while rc < n - 1
            invariant
                is_factor_input(n),
                mo.wf(),
                mo.n == n,
                rc < n,
                brent_from(n as int, self.batch_gcd, 1) == brent_from(n as int, self.batch_gcd, rc as nat + 1),
            decreases n - rc,
        {
            rc += 1;
            if let Some(d) = brent_attempt(&mo, rc, self.batch_gcd) {
                return d;
            }
        }
        smallest_factor(n)
    }
}

} // verus!
