//! Integer factorization on top of a divisor-finding strategy.
use vstd::prelude::*;
use vstd::arithmetic::div_mod::*;
use vstd::arithmetic::mul::*;
use vstd::arithmetic::power2::pow2;
use crate::arith::{lemma_divisor_le, lemma_two_adic_unique, odd_part, two_adic};
use crate::bits::trailing_zeros;
use crate::primality::{bpsw_spec, is_prime};

verus! {

/// `d` divides `n` and lies strictly between `1` and `n`.
pub open spec fn is_proper_divisor(n: nat, d: nat) -> bool {
    1 < d < n && n % d == 0
}

/// `n` has no divisor strictly between `1` and `n`.
pub open spec fn has_no_proper_divisor(n: nat) -> bool {
    forall|d: nat| 1 < d < n ==> #[trigger] (n % d) != 0
}

/// What a search for a divisor of `n` hands back: a proper divisor, or `n` itself exactly when
/// `n` has none.
pub open spec fn is_factor_found(n: nat, d: nat) -> bool {
    is_proper_divisor(n, d) || (d == n && has_no_proper_divisor(n))
}

/// The inputs of the divisor searches: odd numbers from `3` below `2^127`.
pub open spec fn is_factor_input(n: u128) -> bool {
    3 <= n && n % 2 == 1 && n < 0x8000_0000_0000_0000_0000_0000_0000_0000
}

/// The product of the entries of `s`.
pub open spec fn seq_product(s: Seq<u128>) -> int
    decreases s.len(),
{
    if s.len() == 0 {
        1
    } else {
        seq_product(s.drop_last()) * s.last()
    }
}

/// `s` is in non-decreasing order.
pub open spec fn is_sorted(s: Seq<u128>) -> bool {
    forall|i: int, j: int| 0 <= i < j < s.len() ==> s[i] <= s[j]
}

/// A prime factor as `factorize` reports it: at least `2`, and passing the primality test or
/// shown to have no proper divisor.
pub open spec fn is_reported_prime(p: u128) -> bool {
    p >= 2 && (bpsw_spec(p as nat) || has_no_proper_divisor(p as nat))
}

/// The least divisor `d >= 2` of `n >= 2`, by trial division (`n` itself when it has no proper
/// divisor).
pub fn smallest_factor(n: u128) -> (d: u128)
    requires
        n >= 2,
    ensures
        is_factor_found(n as nat, d as nat),
        2 <= d <= n,
        n % d == 0,
        forall|j: nat| 1 < j < d ==> #[trigger] (n as nat % j) != 0,
{
    let mut k: u128 = 2;
    while k <= n / k
        invariant
            n >= 2,
            2 <= k,
            forall|j: nat| 1 < j < k ==> #[trigger] (n as nat % j) != 0,
        decreases n - k,
    {
        if n % k == 0 {
            proof {
                lemma_fundamental_div_mod(n as int, k as int);
                assert(k <= n) by (nonlinear_arith)
                    requires
                        k <= n / k,
                        k >= 2,
                        n == k * (n / k) + n % k,
                        n % k >= 0,
                ;
                if k == n {
                    // k <= n / k = 1 is impossible
                    assert(false) by (nonlinear_arith)
                        requires
                            k <= n / k,
                            k == n,
                            n >= 2,
                    ;
                }
            }
            return k;
        }
        proof {
            assert(k < n) by (nonlinear_arith)
                requires
                    k <= n / k,
                    k >= 2,
            ;
        }
        k += 1;
    }
    proof {
        assert forall|a: nat| 1 < a < n implies #[trigger] (n as nat % a) != 0 by {
            if n as nat % a == 0 {
                lemma_fundamental_div_mod(n as int, a as int);
                let b = n as int / a as int;
                assert(n == a * b);
                if a < k {
                } else {
                    // then b < k, and b divides n with 1 < b
                    assert(b < k) by (nonlinear_arith)
                        requires
                            n == a * b,
                            a >= k,
                            k > n / k,
                            k >= 2,
                            a > 1,
                    ;
                    assert(b > 1) by (nonlinear_arith)
                        requires
                            n == a * b,
                            a < n,
                            a > 1,
                    ;
                    lemma_mod_multiples_basic(a as int, b);
                    lemma_mul_is_commutative(a as int, b);
                    assert((n as nat % (b as nat)) == 0);
                }
            }
        }
    }
    n
}

/// Searching for divisors of odd numbers, and factorization built on it.
pub trait Factorize {
    /// Searches for a divisor of an odd `n >= 3`: `Some` of a proper divisor (or of `n` when it
    /// has none), or `None`.
    fn try_find_factor(&mut self, n: u128) -> (r: Option<u128>)
        requires
            is_factor_input(n),
        ensures
            r matches Some(d) ==> is_factor_found(n as nat, d as nat),
        default_ensures
            r matches Some(d) && is_factor_found(n as nat, d as nat),
    {
        Some(self.find_factor(n))
    }

    /// A proper divisor of an odd `n >= 3`, or `n` itself when it has none.
    fn find_factor(&mut self, n: u128) -> (d: u128)
        requires
            is_factor_input(n),
        ensures
            is_factor_found(n as nat, d as nat),
    ;

    /// A prime factor of `n >= 2`.
    fn find_prime_factor(&mut self, n: u128) -> (p: u128)
        requires
            n >= 2,
            n % 2 == 0 || n < 0x8000_0000_0000_0000_0000_0000_0000_0000,
        ensures
            is_reported_prime(p),
            n % p == 0,
    {
        if n % 2 == 0 {
            return 2;
        }
        let mut m = n;
        proof {
            lemma_mod_self_0(n as int);
        }
        while !is_prime(m)
            invariant
                3 <= m <= n,
                m % 2 == 1,
                m < 0x8000_0000_0000_0000_0000_0000_0000_0000,
                n % m == 0,
            decreases m,
        {
            let d = self.find_factor(m);
            if d == m {
                return m;
            }
            let e = m / d;
            proof {
                lemma_fundamental_div_mod(m as int, d as int);
                lemma_cofactor(m as int, d as int);
                lemma_odd_divisor(m as int, d as int);
                lemma_odd_divisor(m as int, e as int);
                lemma_divides_trans(n as int, m as int, d as int);
                lemma_divides_trans(n as int, m as int, e as int);
            }
            m = if is_prime(d) {
                d
            } else if is_prime(e) {
                e
            } else if d < e {
                d
            } else {
                e
            };
        }
        m
    }

    /// The prime factorization of `n >= 1`, in non-decreasing order.
    fn factorize(&mut self, n: u128) -> (r: Vec<u128>)
        requires
            n >= 1,
            odd_part(n as nat) < 0x8000_0000_0000_0000_0000_0000_0000_0000,
        ensures
            seq_product(r@) == n,
            is_sorted(r@),
            forall|k: int| 0 <= k < r@.len() ==> is_reported_prime(#[trigger] r@[k]),
    {
        let tz = trailing_zeros(n);
        proof {
            lemma_two_adic_unique(n as nat, tz as nat);
            vstd::bits::lemma_u128_shr_is_div(n, tz as u128);
        }
        let mut ans: Vec<u128> = Vec::new();
        let mut k: u32 = 0;
        proof {
            vstd::arithmetic::power2::lemma2_to64();
        }
        while k < tz
            invariant
                k <= tz < 128,
                ans@.len() == k,
                forall|j: int| 0 <= j < k ==> #[trigger] ans@[j] == 2,
                seq_product(ans@) == pow2(k as nat),
            decreases tz - k,
        {
            let ghost before = ans@;
            ans.push(2);
            proof {
                assert(ans@.drop_last() =~= before);
                assert(seq_product(ans@) == seq_product(before) * 2);
                vstd::arithmetic::power2::lemma_pow2_unfold(k as nat + 1);
                assert(pow2(k as nat + 1) == 2 * pow2(k as nat));
            }
            k += 1;
        }
        let mut m = n >> (tz as u128);
        proof {
            vstd::arithmetic::power2::lemma_pow2_pos(tz as nat);
            lemma_fundamental_div_mod(n as int, pow2(tz as nat) as int);
            assert(seq_product(ans@) * m == n);
            assert(m >= 1) by (nonlinear_arith)
                requires
                    n == pow2(tz as nat) * m,
                    n >= 1,
                    m >= 0,
            ;
        }
        while m > 1
            invariant
                seq_product(ans@) * m == n,
                m % 2 == 1,
                1 <= m < 0x8000_0000_0000_0000_0000_0000_0000_0000,
                forall|j: int| 0 <= j < ans@.len() ==> is_reported_prime(#[trigger] ans@[j]),
            decreases m,
        {
            let p = self.find_prime_factor(m);
            let ghost m0 = m;
            while m % p == 0
                invariant
                    seq_product(ans@) * m == n,
                    1 <= m <= m0,
                    m0 % 2 == 1,
                    m % 2 == 1,
                    is_reported_prime(p),
                    forall|j: int| 0 <= j < ans@.len() ==> is_reported_prime(#[trigger] ans@[j]),
                decreases m,
            {
                let ghost before = ans@;
                let ghost old_m = m;
                proof {
                    lemma_quotient_divides(m as int, p as int);
                    lemma_odd_divisor(m as int, (m / p) as int);
                }
                m = m / p;
                ans.push(p);
                proof {
                    assert(ans@.drop_last() =~= before);
                    assert(seq_product(ans@) == seq_product(before) * p);
                    assert(old_m == m * p);
                    assert(seq_product(ans@) * m == n) by (nonlinear_arith)
                        requires
                            seq_product(ans@) == seq_product(before) * p,
                            seq_product(before) * old_m == n,
                            old_m == m * p,
                    ;
                    assert(m >= 1) by (nonlinear_arith)
                        requires
                            m * p >= 1,
                            p >= 2,
                    ;
                    assert(m < m * p) by (nonlinear_arith)
                        requires
                            m >= 1,
                            p >= 2,
                    ;
                }
            }
        }
        sort_factors(ans)
    }
}

impl<T0: Factorize> Factorize for (T0,) {
    /// The result of the first strategy, in order, that returns `Some`.
    fn try_find_factor(&mut self, n: u128) -> (r: Option<u128>) {
        let r = self.0.try_find_factor(n);
        r
    }

    fn find_factor(&mut self, n: u128) -> (d: u128) {
        let mut tries: u64 = 0;
        while tries < u64::MAX
            invariant
                is_factor_input(n),
            decreases u64::MAX - tries,
        {
            if let Some(d) = self.try_find_factor(n) {
                if 1 < d && d < n {
                    return d;
                }
            }
            tries += 1;
        }
        smallest_factor(n)
    }
}

impl<T0: Factorize, T1: Factorize> Factorize for (T0, T1) {
    /// The result of the first strategy, in order, that returns `Some`.
    fn try_find_factor(&mut self, n: u128) -> (r: Option<u128>) {
        let r = self.0.try_find_factor(n);
        if r.is_some() {
            return r;
        }
        let r = self.1.try_find_factor(n);
        r
    }

    fn find_factor(&mut self, n: u128) -> (d: u128) {
        let mut tries: u64 = 0;
        while tries < u64::MAX
            invariant
                is_factor_input(n),
            decreases u64::MAX - tries,
        {
            if let Some(d) = self.try_find_factor(n) {
                if 1 < d && d < n {
                    return d;
                }
            }
            tries += 1;
        }
        smallest_factor(n)
    }
}

impl<T0: Factorize, T1: Factorize, T2: Factorize> Factorize for (T0, T1, T2) {
    /// The result of the first strategy, in order, that returns `Some`.
    fn try_find_factor(&mut self, n: u128) -> (r: Option<u128>) {
        let r = self.0.try_find_factor(n);
        if r.is_some() {
            return r;
        }
        let r = self.1.try_find_factor(n);
        if r.is_some() {
            return r;
        }
        let r = self.2.try_find_factor(n);
        r
    }

    fn find_factor(&mut self, n: u128) -> (d: u128) {
        let mut tries: u64 = 0;
        while tries < u64::MAX
            invariant
                is_factor_input(n),
            decreases u64::MAX - tries,
        {
            if let Some(d) = self.try_find_factor(n) {
                if 1 < d && d < n {
                    return d;
                }
            }
            tries += 1;
        }
        smallest_factor(n)
    }
}

impl<T0: Factorize, T1: Factorize, T2: Factorize, T3: Factorize> Factorize for (T0, T1, T2, T3) {
    /// The result of the first strategy, in order, that returns `Some`.
    fn try_find_factor(&mut self, n: u128) -> (r: Option<u128>) {
        let r = self.0.try_find_factor(n);
        if r.is_some() {
            return r;
        }
        let r = self.1.try_find_factor(n);
        if r.is_some() {
            return r;
        }
        let r = self.2.try_find_factor(n);
        if r.is_some() {
            return r;
        }
        let r = self.3.try_find_factor(n);
        r
    }

    fn find_factor(&mut self, n: u128) -> (d: u128) {
        let mut tries: u64 = 0;
        while tries < u64::MAX
            invariant
                is_factor_input(n),
            decreases u64::MAX - tries,
        {
            if let Some(d) = self.try_find_factor(n) {
                if 1 < d && d < n {
                    return d;
                }
            }
            tries += 1;
        }
        smallest_factor(n)
    }
}

impl<T0: Factorize, T1: Factorize, T2: Factorize, T3: Factorize, T4: Factorize> Factorize for (T0, T1, T2, T3, T4) {
    /// The result of the first strategy, in order, that returns `Some`.
    fn try_find_factor(&mut self, n: u128) -> (r: Option<u128>) {
        let r = self.0.try_find_factor(n);
        if r.is_some() {
            return r;
        }
        let r = self.1.try_find_factor(n);
        if r.is_some() {
            return r;
        }
        let r = self.2.try_find_factor(n);
        if r.is_some() {
            return r;
        }
        let r = self.3.try_find_factor(n);
        if r.is_some() {
            return r;
        }
        let r = self.4.try_find_factor(n);
        r
    }

    fn find_factor(&mut self, n: u128) -> (d: u128) {
        let mut tries: u64 = 0;
        while tries < u64::MAX
            invariant
                is_factor_input(n),
            decreases u64::MAX - tries,
        {
            if let Some(d) = self.try_find_factor(n) {
                if 1 < d && d < n {
                    return d;
                }
            }
            tries += 1;
        }
        smallest_factor(n)
    }
}

impl<T0: Factorize, T1: Factorize, T2: Factorize, T3: Factorize, T4: Factorize, T5: Factorize> Factorize for (T0, T1, T2, T3, T4, T5) {
    /// The result of the first strategy, in order, that returns `Some`.
    fn try_find_factor(&mut self, n: u128) -> (r: Option<u128>) {
        let r = self.0.try_find_factor(n);
        if r.is_some() {
            return r;
        }
        let r = self.1.try_find_factor(n);
        if r.is_some() {
            return r;
        }
        let r = self.2.try_find_factor(n);
        if r.is_some() {
            return r;
        }
        let r = self.3.try_find_factor(n);
        if r.is_some() {
            return r;
        }
        let r = self.4.try_find_factor(n);
        if r.is_some() {
            return r;
        }
        let r = self.5.try_find_factor(n);
        r
    }

    fn find_factor(&mut self, n: u128) -> (d: u128) {
        let mut tries: u64 = 0;
        while tries < u64::MAX
            invariant
                is_factor_input(n),
            decreases u64::MAX - tries,
        {
            if let Some(d) = self.try_find_factor(n) {
                if 1 < d && d < n {
                    return d;
                }
            }
            tries += 1;
        }
        smallest_factor(n)
    }
}

impl<T0: Factorize, T1: Factorize, T2: Factorize, T3: Factorize, T4: Factorize, T5: Factorize, T6: Factorize> Factorize for (T0, T1, T2, T3, T4, T5, T6) {
    /// The result of the first strategy, in order, that returns `Some`.
    fn try_find_factor(&mut self, n: u128) -> (r: Option<u128>) {
        let r = self.0.try_find_factor(n);
        if r.is_some() {
            return r;
        }
        let r = self.1.try_find_factor(n);
        if r.is_some() {
            return r;
        }
        let r = self.2.try_find_factor(n);
        if r.is_some() {
            return r;
        }
        let r = self.3.try_find_factor(n);
        if r.is_some() {
            return r;
        }
        let r = self.4.try_find_factor(n);
        if r.is_some() {
            return r;
        }
        let r = self.5.try_find_factor(n);
        if r.is_some() {
            return r;
        }
        let r = self.6.try_find_factor(n);
        r
    }

    fn find_factor(&mut self, n: u128) -> (d: u128) {
        let mut tries: u64 = 0;
        while tries < u64::MAX
            invariant
                is_factor_input(n),
            decreases u64::MAX - tries,
        {
            if let Some(d) = self.try_find_factor(n) {
                if 1 < d && d < n {
                    return d;
                }
            }
            tries += 1;
        }
        smallest_factor(n)
    }
}

impl<T0: Factorize, T1: Factorize, T2: Factorize, T3: Factorize, T4: Factorize, T5: Factorize, T6: Factorize, T7: Factorize> Factorize for (T0, T1, T2, T3, T4, T5, T6, T7) {
    /// The result of the first strategy, in order, that returns `Some`.
    fn try_find_factor(&mut self, n: u128) -> (r: Option<u128>) {
        let r = self.0.try_find_factor(n);
        if r.is_some() {
            return r;
        }
        let r = self.1.try_find_factor(n);
        if r.is_some() {
            return r;
        }
        let r = self.2.try_find_factor(n);
        if r.is_some() {
            return r;
        }
        let r = self.3.try_find_factor(n);
        if r.is_some() {
            return r;
        }
        let r = self.4.try_find_factor(n);
        if r.is_some() {
            return r;
        }
        let r = self.5.try_find_factor(n);
        if r.is_some() {
            return r;
        }
        let r = self.6.try_find_factor(n);
        if r.is_some() {
            return r;
        }
        let r = self.7.try_find_factor(n);
        r
    }

    fn find_factor(&mut self, n: u128) -> (d: u128) {
        let mut tries: u64 = 0;
        while tries < u64::MAX
            invariant
                is_factor_input(n),
            decreases u64::MAX - tries,
        {
            if let Some(d) = self.try_find_factor(n) {
                if 1 < d && d < n {
                    return d;
                }
            }
            tries += 1;
        }
        smallest_factor(n)
    }
}

impl<T0: Factorize, T1: Factorize, T2: Factorize, T3: Factorize, T4: Factorize, T5: Factorize, T6: Factorize, T7: Factorize, T8: Factorize> Factorize for (T0, T1, T2, T3, T4, T5, T6, T7, T8) {
    /// The result of the first strategy, in order, that returns `Some`.
    fn try_find_factor(&mut self, n: u128) -> (r: Option<u128>) {
        let r = self.0.try_find_factor(n);
        if r.is_some() {
            return r;
        }
        let r = self.1.try_find_factor(n);
        if r.is_some() {
            return r;
        }
        let r = self.2.try_find_factor(n);
        if r.is_some() {
            return r;
        }
        let r = self.3.try_find_factor(n);
        if r.is_some() {
            return r;
        }
        let r = self.4.try_find_factor(n);
        if r.is_some() {
            return r;
        }
        let r = self.5.try_find_factor(n);
        if r.is_some() {
            return r;
        }
        let r = self.6.try_find_factor(n);
        if r.is_some() {
            return r;
        }
        let r = self.7.try_find_factor(n);
        if r.is_some() {
            return r;
        }
        let r = self.8.try_find_factor(n);
        r
    }

    fn find_factor(&mut self, n: u128) -> (d: u128) {
        let mut tries: u64 = 0;
        while tries < u64::MAX
            invariant
                is_factor_input(n),
            decreases u64::MAX - tries,
        {
            if let Some(d) = self.try_find_factor(n) {
                if 1 < d && d < n {
                    return d;
                }
            }
            tries += 1;
        }
        smallest_factor(n)
    }
}

impl<T0: Factorize, T1: Factorize, T2: Factorize, T3: Factorize, T4: Factorize, T5: Factorize, T6: Factorize, T7: Factorize, T8: Factorize, T9: Factorize> Factorize for (T0, T1, T2, T3, T4, T5, T6, T7, T8, T9) {
    /// The result of the first strategy, in order, that returns `Some`.
    fn try_find_factor(&mut self, n: u128) -> (r: Option<u128>) {
        let r = self.0.try_find_factor(n);
        if r.is_some() {
            return r;
        }
        let r = self.1.try_find_factor(n);
        if r.is_some() {
            return r;
        }
        let r = self.2.try_find_factor(n);
        if r.is_some() {
            return r;
        }
        let r = self.3.try_find_factor(n);
        if r.is_some() {
            return r;
        }
        let r = self.4.try_find_factor(n);
        if r.is_some() {
            return r;
        }
        let r = self.5.try_find_factor(n);
        if r.is_some() {
            return r;
        }
        let r = self.6.try_find_factor(n);
        if r.is_some() {
            return r;
        }
        let r = self.7.try_find_factor(n);
        if r.is_some() {
            return r;
        }
        let r = self.8.try_find_factor(n);
        if r.is_some() {
            return r;
        }
        let r = self.9.try_find_factor(n);
        r
    }

    fn find_factor(&mut self, n: u128) -> (d: u128) {
        let mut tries: u64 = 0;
        while tries < u64::MAX
            invariant
                is_factor_input(n),
            decreases u64::MAX - tries,
        {
            if let Some(d) = self.try_find_factor(n) {
                if 1 < d && d < n {
                    return d;
                }
            }
            tries += 1;
        }
        smallest_factor(n)
    }
}

/// `d` dividing `m` leaves an odd cofactor when `m` is odd.
proof fn lemma_odd_divisor(m: int, d: int)
    requires
        m % 2 == 1,
        d > 0,
        m % d == 0,
    ensures
        d % 2 == 1,
{
    lemma_fundamental_div_mod(m, d);
    let q = m / d;
    if d % 2 == 0 {
        lemma_fundamental_div_mod(d, 2);
        assert(m == 2 * ((d / 2) * q)) by (nonlinear_arith)
            requires
                m == d * q + 0,
                d == 2 * (d / 2),
        ;
        lemma_mod_multiples_basic((d / 2) * q, 2);
        lemma_mul_is_commutative((d / 2) * q, 2);
    }
}

/// The quotient by a divisor is a positive divisor.
proof fn lemma_quotient_divides(m: int, p: int)
    requires
        m > 0,
        p > 0,
        m % p == 0,
    ensures
        m / p > 0,
        m == (m / p) * p,
        m % (m / p) == 0,
{
    lemma_fundamental_div_mod(m, p);
    let q = m / p;
    assert(q > 0) by (nonlinear_arith)
        requires
            m == p * q,
            m > 0,
            p > 0,
    ;
    lemma_mul_is_commutative(p, q);
    lemma_mod_multiples_basic(p, q);
}

/// A proper divisor `d` of `m` has a proper cofactor `m / d`.
proof fn lemma_cofactor(m: int, d: int)
    requires
        1 < d < m,
        m % d == 0,
    ensures
        1 < m / d < m,
        m % (m / d) == 0,
        m / (m / d) == d,
{
    lemma_fundamental_div_mod(m, d);
    let q = m / d;
    assert(m == d * q);
    assert(1 < q < m) by (nonlinear_arith)
        requires
            m == d * q,
            1 < d < m,
    ;
    lemma_mod_multiples_basic(d, q);
    lemma_div_multiples_vanish(d, q);
    lemma_mul_is_commutative(d, q);
}

/// Divisibility is transitive.
proof fn lemma_divides_trans(n: int, m: int, d: int)
    requires
        n > 0,
        m > 0,
        d > 0,
        n % m == 0,
        m % d == 0,
    ensures
        n % d == 0,
{
    lemma_fundamental_div_mod(n, m);
    lemma_fundamental_div_mod(m, d);
    let a = n / m;
    let b = m / d;
    assert(n == d * (b * a)) by (nonlinear_arith)
        requires
            n == m * a,
            m == d * b,
    ;
    lemma_mod_multiples_basic(b * a, d);
    lemma_mul_is_commutative(b * a, d);
}

/// Inserting `x` anywhere multiplies the product by `x`.
proof fn lemma_product_insert(s: Seq<u128>, i: int, x: u128)
    requires
        0 <= i <= s.len(),
    ensures
        seq_product(s.insert(i, x)) == seq_product(s) * x,
    decreases s.len(),
{
    let t = s.insert(i, x);
    if i == s.len() {
        assert(t.drop_last() =~= s);
    } else {
        assert(t.drop_last() =~= s.drop_last().insert(i, x));
        lemma_product_insert(s.drop_last(), i, x);
        assert(seq_product(t) == seq_product(s.drop_last()) * x * s.last()) by (nonlinear_arith)
            requires
                seq_product(t) == seq_product(s.drop_last().insert(i, x)) * t.last(),
                seq_product(s.drop_last().insert(i, x)) == seq_product(s.drop_last()) * x,
                t.last() == s.last(),
        ;
        assert(seq_product(s.drop_last()) * x * s.last() == seq_product(s.drop_last()) * s.last() * x) by (nonlinear_arith);
    }
}

/// The entries of `v` in non-decreasing order (insertion sort).
fn sort_factors(v: Vec<u128>) -> (r: Vec<u128>)
    ensures
        is_sorted(r@),
        seq_product(r@) == seq_product(v@),
        r@.len() == v@.len(),
        forall|k: int| 0 <= k < r@.len() ==> exists|j: int| 0 <= j < v@.len() && #[trigger] r@[k] == v@[j],
{
    let mut r: Vec<u128> = Vec::new();
    let mut i: usize = 0;
    while i < v.len()
        invariant
            i <= v@.len(),
            r@.len() == i,
            is_sorted(r@),
            seq_product(r@) == seq_product(v@.subrange(0, i as int)),
            forall|k: int| 0 <= k < r@.len() ==> exists|j: int| 0 <= j < v@.len() && #[trigger] r@[k] == v@[j],
        decreases v@.len() - i,
    {
        let x = v[i];
        let mut pos: usize = 0;
        while pos < r.len() && r[pos] <= x
            invariant
                pos <= r@.len(),
                forall|k: int| 0 <= k < pos ==> #[trigger] r@[k] <= x,
            decreases r@.len() - pos,
        {
            pos += 1;
        }
        let ghost before = r@;
        proof {
            lemma_product_insert(before, pos as int, x);
            assert(v@.subrange(0, i + 1) =~= v@.subrange(0, i as int).push(x));
            assert(v@.subrange(0, i + 1).drop_last() =~= v@.subrange(0, i as int));
        }
        r.insert(pos, x);
        proof {
            assert forall|a: int, b: int| 0 <= a < b < r@.len() implies r@[a] <= r@[b] by {
                if b < pos {
                } else if b == pos {
                } else if a < pos {
                    assert(r@[b] == before[b - 1]);
                    if pos < before.len() {
                        assert(before[pos as int] > x);
                    }
                } else if a == pos {
                    assert(r@[b] == before[b - 1]);
                    assert(before[pos as int] > x);
                } else {
                    assert(r@[a] == before[a - 1]);
                    assert(r@[b] == before[b - 1]);
                }
            }
            assert forall|k: int| 0 <= k < r@.len() implies exists|j: int| 0 <= j < v@.len() && #[trigger] r@[k] == v@[j] by {
                if k < pos {
                    assert(r@[k] == before[k]);
                } else if k == pos {
                    assert(r@[k] == v@[i as int]);
                } else {
                    assert(r@[k] == before[k - 1]);
                }
            }
        }
        i += 1;
    }
    proof {
        assert(v@.subrange(0, v@.len() as int) =~= v@);
    }
    r
}

} // verus!
