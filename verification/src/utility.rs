//! Small helpers: greatest common divisor, a small fast PRNG and a binary search.
use vstd::prelude::*;
use crate::arith::spec_gcd;
use crate::wrapper::{has_no_proper_divisor, smallest_factor};

verus! {

/// Greatest common divisor of `x` and `y` (`gcd(0, y) = y`).
pub fn gcd(x: u128, y: u128) -> (g: u128)
    ensures
        g == spec_gcd(x as nat, y as nat),
{
    let mut x = x;
    let mut y = y;
    let ghost x0 = x;
    let ghost y0 = y;
    while x != 0
        invariant
            spec_gcd(x as nat, y as nat) == spec_gcd(x0 as nat, y0 as nat),
        decreases x,
    {
        let r = y % x;
        y = x;
        x = r;
    }
    y
}

/// `x + y` modulo `2^64`.
pub open spec fn wadd(x: u64, y: u64) -> u64 {
    vstd::wrapping::u64_specs::wrapping_add(x, y)
}

/// `x` rotated left by 24 bits.
pub open spec fn rotl24(x: u64) -> u64 {
    (x << 24u64) | (x >> 40u64)
}

/// The state of the SFC64 generator: three words and a counter.
#[derive(Debug, Clone)]
pub struct Sfc64 {
    a: u64,
    b: u64,
    c: u64,
    counter: u64,
}

impl Sfc64 {
    /// The state as a tuple `(a, b, c, counter)`.
    pub closed spec fn state(&self) -> (u64, u64, u64, u64) {
        (self.a, self.b, self.c, self.counter)
    }
}

/// The word that the generator in state `s` hands out next.
pub open spec fn sfc_output(s: (u64, u64, u64, u64)) -> u64 {
    wadd(wadd(s.0, s.1), s.3)
}

/// The state that follows `s`.
pub open spec fn sfc_next(s: (u64, u64, u64, u64)) -> (u64, u64, u64, u64) {
    (s.1 ^ (s.1 >> 11u64), wadd(s.2, s.2 << 3u64), wadd(rotl24(s.2), sfc_output(s)), wadd(s.3, 1))
}

/// The state after `k` steps from `s`.
pub open spec fn sfc_iterate(s: (u64, u64, u64, u64), k: nat) -> (u64, u64, u64, u64)
    decreases k,
{
    if k == 0 {
        s
    } else {
        sfc_next(sfc_iterate(s, (k - 1) as nat))
    }
}

/// The 128-bit number made of two consecutive outputs from state `s`, the first one high.
pub open spec fn sfc_wide_output(s: (u64, u64, u64, u64)) -> int {
    sfc_output(s) as int * 0x1_0000_0000_0000_0000 + sfc_output(sfc_next(s)) as int
}

impl Sfc64 {
    /// The generator seeded with `seed`: all three words set to it, the counter to `1`, and
    /// twelve outputs discarded.
    pub fn new(seed: u64) -> (r: Self)
        ensures
            r.state() == sfc_iterate((seed, seed, seed, 1), 12),
    {
        let mut r = Sfc64 { a: seed, b: seed, c: seed, counter: 1 };
        let mut i: u32 = 0;
        while i < 12
            invariant
                i <= 12,
                r.state() == sfc_iterate((seed, seed, seed, 1), i as nat),
            decreases 12 - i,
        {
            r.next_u64();
            i += 1;
        }
        r
    }

    /// The next 64-bit output.
    pub fn next_u64(&mut self) -> (out: u64)
        ensures
            out == sfc_output(old(self).state()),
            final(self).state() == sfc_next(old(self).state()),
    {
        let tmp = self.a.wrapping_add(self.b).wrapping_add(self.counter);
        self.counter = self.counter.wrapping_add(1);
        self.a = self.b ^ (self.b >> 11u64);
        self.b = self.c.wrapping_add(self.c << 3u64);
        self.c = ((self.c << 24u64) | (self.c >> 40u64)).wrapping_add(tmp);
        tmp
    }

    /// A number in `range`: `start` plus two outputs, taken as one 128-bit number, modulo the
    /// width of the range.
    pub fn next_range(&mut self, range: std::ops::Range<u128>) -> (r: u128)
        requires
            range.start < range.end,
        ensures
            range.start <= r < range.end,
            r == range.start + sfc_wide_output(old(self).state()) % (range.end - range.start),
            final(self).state() == sfc_next(sfc_next(old(self).state())),
    {
        let hi = self.next_u64();
        let lo = self.next_u64();
        let x: u128 = hi as u128 * 0x1_0000_0000_0000_0000u128 + lo as u128;
        let w = range.end - range.start;
        range.start + x % w
    }

    /// `len` numbers drawn one after the other by `next_range`: the `i`-th from the state
    /// `2 i` steps on.
    pub fn next_vector(&mut self, range: std::ops::Range<u128>, len: usize) -> (v: Vec<u128>)
        requires
            range.start < range.end,
        ensures
            v.len() == len,
            forall|i: int| 0 <= i < len ==> range.start <= #[trigger] v[i] < range.end,
            forall|i: int| 0 <= i < len ==> #[trigger] v[i] == range.start + sfc_wide_output(
                sfc_iterate(old(self).state(), (2 * i) as nat),
            ) % (range.end - range.start),
            final(self).state() == sfc_iterate(old(self).state(), (2 * len) as nat),
    {
        let ghost s0 = self.state();
        let mut v: Vec<u128> = Vec::new();
        let mut i: usize = 0;
        while i < len
            invariant
                range.start < range.end,
                i <= len,
                v.len() == i,
                self.state() == sfc_iterate(s0, (2 * i) as nat),
                forall|k: int| 0 <= k < i ==> range.start <= #[trigger] v[k] < range.end,
                forall|k: int| 0 <= k < i ==> #[trigger] v[k] == range.start + sfc_wide_output(sfc_iterate(s0, (2 * k) as nat)) % (
                range.end - range.start),
            decreases len - i,
        {
            let r = self.next_range(range.start..range.end);
            proof {
                assert(sfc_iterate(s0, (2 * i + 1) as nat) == sfc_next(sfc_iterate(s0, (2 * i) as nat)));
                assert(sfc_iterate(s0, (2 * i + 2) as nat) == sfc_next(sfc_iterate(s0, (2 * i + 1) as nat)));
            }
            v.push(r);
            i += 1;
        }
        v
    }
}

/// The least `i < len` at which `pred` holds, for a predicate that is false and then true
/// along `0..len` (`len` when it holds nowhere).  Whatever `pred` is, the result is `len` or a
/// point where `pred` was found true, and `0` or a point just after one where it was found
/// false.
pub fn bisect_left<F: Fn(usize) -> bool>(len: usize, pred: F) -> (r: usize)
    requires
        forall|i: usize| i < len ==> call_requires(pred, (i,)),
    ensures
        r <= len,
        r < len ==> call_ensures(pred, (r,), true),
        r > 0 ==> call_ensures(pred, ((r - 1) as usize,), false),
{
    let mut lo: usize = 0;
    let mut hi: usize = len;
    while lo < hi
        invariant
            lo <= hi <= len,
            forall|i: usize| i < len ==> call_requires(pred, (i,)),
            hi < len ==> call_ensures(pred, (hi,), true),
            lo > 0 ==> call_ensures(pred, ((lo - 1) as usize,), false),
        decreases hi - lo,
    {
        let mid = lo + (hi - lo) / 2;
        if pred(mid) {
            hi = mid;
        } else {
            lo = mid + 1;
        }
    }
    lo
}


/// The least factor `>= 2` of each number up to a bound, and the primes up to it.
#[derive(Debug, Clone)]
pub struct Sieve {
    /// The primes up to the bound, in increasing order.
    pub prime: Vec<u128>,
    /// Entry `i` is the least factor `>= 2` of `i` (`0` and `1` map to `0`).
    pub lpf: Vec<usize>,
}

/// `d` is the least factor `>= 2` of `i`.
pub open spec fn is_least_factor(i: nat, d: nat) -> bool {
    2 <= d <= i && i % d == 0 && forall|j: nat| 1 < j < d ==> #[trigger] (i % j) != 0
}

impl Sieve {
    /// The sieve up to `n`.
    pub fn new(n: usize) -> (s: Self)
        requires
            n < usize::MAX,
        ensures
            s.lpf@.len() == n + 1,
            forall|i: int| 2 <= i <= n ==> is_least_factor(i as nat, #[trigger] s.lpf@[i] as nat),
            forall|k: int| 0 <= k < s.prime@.len() ==> 2 <= #[trigger] s.prime@[k] <= n && has_no_proper_divisor(s.prime@[k] as nat),
            forall|k: int, l: int| 0 <= k < l < s.prime@.len() ==> s.prime@[k] < s.prime@[l],
            forall|p: int| 2 <= p <= n && #[trigger] has_no_proper_divisor(p as nat) ==> s.prime@.contains(p as u128),
    {
        let mut lpf: Vec<usize> = Vec::new();
        let mut prime: Vec<u128> = Vec::new();
        lpf.push(0);
        if n >= 1 {
            lpf.push(0);
        }
        let mut i: usize = 2;
        while i <= n
            invariant
                n < usize::MAX,
                2 <= i,
                n >= 1 ==> i <= n + 1,
                n >= 1 ==> lpf@.len() == i,
                n == 0 ==> lpf@.len() == 1 && i == 2,
                forall|j: int| 2 <= j < i ==> is_least_factor(j as nat, #[trigger] lpf@[j] as nat),
                forall|k: int| 0 <= k < prime@.len() ==> 2 <= #[trigger] prime@[k] < i && has_no_proper_divisor(prime@[k] as nat),
                forall|k: int, l: int| 0 <= k < l < prime@.len() ==> prime@[k] < prime@[l],
                forall|p: int| 2 <= p < i && #[trigger] has_no_proper_divisor(p as nat) ==> prime@.contains(p as u128),
            decreases n + 1 - i,
        {
            let d = smallest_factor(i as u128);
            let ghost old_prime = prime@;
            lpf.push(d as usize);
            if d == i as u128 {
                prime.push(d);
                proof {
                    assert(prime@[prime@.len() - 1] == i);
                }
            }
            proof {
                assert forall|p: int| 2 <= p < i + 1 && #[trigger] has_no_proper_divisor(p as nat) implies prime@.contains(p as u128) by {
                    if p == i {
                        if d != i {
                            assert((i as nat) % (d as nat) == 0);
                        }
                        assert(prime@[prime@.len() - 1] == p);
                    } else {
                        assert(old_prime.contains(p as u128));
                        let k = choose|k: int| 0 <= k < old_prime.len() && old_prime[k] == p as u128;
                        assert(prime@[k] == p as u128);
                    }
                }
            }
            i += 1;
        }
        Sieve { prime, lpf }
    }
}
} // verus!
