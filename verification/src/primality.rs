pub mod fermat;
pub mod lucas;
pub mod lucas_identities;
pub mod miller_rabin;
pub mod small_range;

use vstd::prelude::*;
use crate::primality::lucas::{is_lucas_sprp, is_lucas_sprp_const, lucas_sprp_spec};
use crate::primality::miller_rabin::{is_sprp, sprp_spec};

verus! {

/// The primes below 50 tried by trial division.
pub open spec fn small_primes() -> Seq<u128> {
    seq![2, 3, 5, 7, 11, 13, 17, 19, 23, 29, 31, 37, 41, 43, 47]
}

/// The outcome of the Baillie–PSW test: trial division by the primes below 50, then a strong
/// probable-prime test to base 2 and a strong Lucas probable-prime test.
pub open spec fn bpsw_spec(n: nat) -> bool {
    if n <= 2 {
        n == 2
    } else if n % 2 == 0 {
        false
    } else if small_primes().contains(n as u128) {
        true
    } else if exists|i: int| 0 <= i < 15 && n % (#[trigger] small_primes()[i] as nat) == 0 {
        false
    } else {
        sprp_spec(n, seq![2u128]) && lucas_sprp_spec(n)
    }
}

/// The inputs on which the test runs without overflow: those ruled out before the Montgomery
/// arithmetic (which needs `n < 2^127`) is set up.
pub open spec fn bpsw_domain(n: u128) -> bool {
    ||| n < 0x8000_0000_0000_0000_0000_0000_0000_0000
    ||| n % 2 == 0
    ||| exists|i: int| 0 <= i < 15 && n % #[trigger] small_primes()[i] == 0
}

/// Baillie–PSW primality test.
pub fn is_prime(n: u128) -> (res: bool)
    requires
        bpsw_domain(n),
    ensures
        res == bpsw_spec(n as nat),
{
    if n <= 2 {
        return n == 2;
    }
    assert((n & 1 == 0) == (n % 2 == 0)) by (bit_vector);
    if n & 1 == 0 {
        return false;
    }
    let ps: [u128; 15] = [2, 3, 5, 7, 11, 13, 17, 19, 23, 29, 31, 37, 41, 43, 47];
    assert(ps@ == small_primes());
    let mut i: usize = 0;
    while i < 15
        invariant
            ps@ == small_primes(),
            n > 2,
            n % 2 == 1,
            bpsw_domain(n),
            i <= 15,
            forall|k: int| 0 <= k < i ==> n != #[trigger] ps@[k] && n % ps@[k] != 0,
        decreases 15 - i,
    {
        let p = ps[i];
        if n == p {
            proof {
                assert(small_primes()[i as int] == n);
            }
            return true;
        }
        if n % p == 0 {
            proof {
                assert(small_primes().contains(n as u128) ==> exists|k: int| 0 <= k < 15 && small_primes()[k] == n);
                assert((n as nat) % (small_primes()[i as int] as nat) == 0);
                if small_primes().contains(n as u128) {
                    let k = choose|k: int| 0 <= k < 15 && small_primes()[k] == n;
                    assert(n % ps@[k] == 0);
                    assert(false);
                }
            }
            return false;
        }
        i += 1;
    }
    proof {
        assert(!small_primes().contains(n as u128)) by {
            if small_primes().contains(n as u128) {
                let k = choose|k: int| 0 <= k < small_primes().len() && small_primes()[k] == n;
                assert(n != ps@[k]);
            }
        }
        assert(!(exists|k: int| 0 <= k < 15 && (n as nat) % (#[trigger] small_primes()[k] as nat) == 0));
        assert(n < 0x8000_0000_0000_0000_0000_0000_0000_0000);
    }
    let b: [u128; 1] = [2];
    assert(b@ == seq![2u128]);
    is_sprp(n, &b) && is_lucas_sprp(n)
}

/// Baillie–PSW primality test (trial division in the other order; the outcome is the same).
pub fn is_prime_const(n: u128) -> (res: bool)
    requires
        bpsw_domain(n),
    ensures
        res == bpsw_spec(n as nat),
{
    if n <= 2 {
        return n == 2;
    }
    assert((n & 1 == 0) == (n % 2 == 0)) by (bit_vector);
    if n & 1 == 0 {
        return false;
    }
    let ps: [u128; 15] = [2, 3, 5, 7, 11, 13, 17, 19, 23, 29, 31, 37, 41, 43, 47];
    assert(ps@ == small_primes());
    let mut i: usize = ps.len();
    while i > 0
        invariant
            ps@ == small_primes(),
            n > 2,
            n % 2 == 1,
            bpsw_domain(n),
            i <= 15,
            forall|k: int| i <= k < 15 ==> n != #[trigger] ps@[k] && n % ps@[k] != 0,
        decreases i,
    {
        i -= 1;
        let p = ps[i];
        if n == p {
            proof {
                assert(small_primes()[i as int] == n);
            }
            return true;
        }
        if n % p == 0 {
            proof {
                assert((n as nat) % (small_primes()[i as int] as nat) == 0);
                if small_primes().contains(n as u128) {
                    let k = choose|k: int| 0 <= k < small_primes().len() && small_primes()[k] == n;
                    // a prime below 50 divides only itself among these primes
                    assert(ps@[k] == n);
                    assert(n % ps@[i as int] == 0);
                    assert(false);
                }
            }
            return false;
        }
    }
    proof {
        assert(!small_primes().contains(n as u128)) by {
            if small_primes().contains(n as u128) {
                let k = choose|k: int| 0 <= k < small_primes().len() && small_primes()[k] == n;
                assert(n != ps@[k]);
            }
        }
        assert(!(exists|k: int| 0 <= k < 15 && (n as nat) % (#[trigger] small_primes()[k] as nat) == 0));
        assert(n < 0x8000_0000_0000_0000_0000_0000_0000_0000);
    }
    let b: [u128; 1] = [2];
    assert(b@ == seq![2u128]);
    is_sprp(n, &b) && is_lucas_sprp_const(n)
}

} // verus!
