//! Miller–Rabin primality test.
use vstd::prelude::*;
use vstd::arithmetic::div_mod::*;
use vstd::arithmetic::mul::*;
use vstd::arithmetic::power::*;
use vstd::arithmetic::power2::{lemma_pow2_pos, lemma_pow2_unfold, pow2};
use crate::arith::{
    lemma_redc_product, lemma_repr_injective, lemma_small_product, lemma_two_adic_divides, lemma_two_adic_unique, odd_part,
    radix, redc, two_adic,
};
use crate::bits::trailing_zeros;
use crate::primality::fermat::{is_prime_number, lemma_fermat, lemma_sqrt_one};
use crate::modint::u128::DynamicModInt as ModInt;

verus! {

/// Odd `n > 1` is a strong probable prime to base `b`: with `n - 1 = o * 2^e`, `o` odd,
/// either `b^o = 1 (mod n)` or `b^(o 2^r) = -1 (mod n)` for some `r < e`.
pub open spec fn strong_probable_prime(n: nat, b: nat) -> bool {
    let e = two_adic((n - 1) as nat);
    let o = odd_part((n - 1) as nat);
    ||| pow(b as int, o) % (n as int) == 1
    ||| exists|r: nat| r < e && #[trigger] (pow(b as int, o * pow2(r)) % (n as int)) == n - 1
}

/// The outcome of the Miller–Rabin test of `n` with the given bases.
pub open spec fn sprp_spec(n: nat, bases: Seq<u128>) -> bool {
    &&& n > 1
    &&& n % 2 == 1
    &&& forall|i: int| 0 <= i < bases.len() ==> strong_probable_prime(n, #[trigger] bases[i] as nat)
}

/// `(n >> e) = (n - 1) / 2^e` for odd `n` when `2^e` divides `n - 1` and `e >= 1`.
proof fn lemma_odd_shift(n: nat, e: nat)
    requires
        n % 2 == 1,
        e >= 1,
        ((n - 1) as nat) % pow2(e) == 0,
    ensures
        n / pow2(e) == ((n - 1) as nat) / pow2(e),
{
    let p = pow2(e);
    lemma_pow2_unfold(e);
    lemma_pow2_pos((e - 1) as nat);
    lemma_fundamental_div_mod((n - 1) as int, p as int);
    let k = ((n - 1) as nat) / p;
    assert(p >= 2);
    assert(n == p * k + 1);
    lemma_mul_is_commutative(p as int, k as int);
    lemma_fundamental_div_mod_converse(n as int, p as int, k as int, 1);
}

/// Squaring `b^(o 2^j)` gives `b^(o 2^(j+1))`.
proof fn lemma_pow_double(b: int, o: nat, j: nat)
    ensures
        pow(b, o * pow2(j)) * pow(b, o * pow2(j)) == pow(b, o * pow2(j + 1)),
{
    lemma_pow_adds(b, o * pow2(j), o * pow2(j));
    lemma_pow2_unfold(j + 1);
    assert(o * pow2(j) + o * pow2(j) == o * pow2(j + 1)) by (nonlinear_arith)
        requires
            pow2(j + 1) == 2 * pow2(j),
    ;
}

/// Miller–Rabin primality test.
pub fn is_sprp(n: u128, bases: &[u128]) -> (res: bool)
    requires
        n % 2 == 0 || n == 1 || n < 0x8000_0000_0000_0000_0000_0000_0000_0000,
    ensures
        res == sprp_spec(n as nat, bases@),
{
    if n % 2 == 0 || n == 1 {
        return false;
    }
    let ghost ni = n as int;
    let mont = ModInt::new(n);
    let one = mont.r1;
    let neg_one = mont.neg(one);
    let e = trailing_zeros(n - 1);
    proof {
        lemma_two_adic_unique((n - 1) as nat, e as nat);
        lemma_pow2_pos(e as nat);
        vstd::bits::lemma_u128_shr_is_div(n, e as u128);
        lemma_odd_shift(n as nat, e as nat);
        lemma_mul_basics(radix());
        lemma_mod_bound(radix(), ni);
        lemma_small_mod(neg_one as nat, n as nat);
        lemma_mod_add_multiples_vanish(0 - radix(), ni);
        assert((ni - 1) * radix() == ni * radix() + (0 - radix())) by (nonlinear_arith);
        lemma_mod_multiples_vanish(radix(), 0 - radix(), ni);
        lemma_sub_mod_noop(0, radix(), ni);
    }
    let o = n >> e;
    assert(o == odd_part((n - 1) as nat));
    assert(one == (1 * radix()) % ni);
    assert(neg_one == ((ni - 1) * radix()) % ni);
    let mut i: usize = 0;
    while i < bases.len()
        invariant
            mont.wf(),
            mont.n == n,
            ni == n,
            n % 2 == 1,
            n > 1,
            i <= bases.len(),
            one == (1 * radix()) % ni,
            neg_one == ((ni - 1) * radix()) % ni,
            e == two_adic((n - 1) as nat),
            e >= 1,
            e < 128,
            o == odd_part((n - 1) as nat),
            forall|k: int| 0 <= k < i ==> strong_probable_prime(n as nat, #[trigger] bases@[k] as nat),
        decreases bases.len() - i,
    {
        let b = bases[i];
        let ghost bb = b as int;
        let rb = mont.mr(b);
        proof {
            lemma_mod_bound(bb * radix(), ni);
            lemma_small_product(rb as int, rb as int);
            crate::arith::lemma_redc_of_scaled(ni, bb);
        }
        let mut rx = mont.pow(rb, o);
        proof {
            lemma_pow_mod_noop(bb, o as nat, ni);
            lemma_mul_mod_noop_left(pow(bb % ni, o as nat), radix(), ni);
            lemma_mul_mod_noop_left(pow(bb, o as nat), radix(), ni);
            lemma_repr_injective(ni, pow(bb, o as nat), 1);
            lemma_repr_injective(ni, pow(bb, o as nat), ni - 1);
            lemma_small_mod(1, n as nat);
            lemma_small_mod((ni - 1) as nat, n as nat);
            lemma2_pow0_helper();
            lemma_mul_basics(o as int);
        }
        if rx == one || rx == neg_one {
            proof {
                if rx == neg_one {
                    assert(pow(bb, o as nat * pow2(0)) % ni == ni - 1);
                }
            }
            i += 1;
            continue;
        }
        let mut j: u32 = 1;
        while j < e && rx != neg_one
            invariant
                mont.wf(),
                mont.n == n,
                ni == n,
                n % 2 == 1,
                n > 1,
                1 <= j <= e,
                e < 128,
                bb == b,
                neg_one == ((ni - 1) * radix()) % ni,
                rx < n,
                rx == (pow(bb, o as nat * pow2((j - 1) as nat)) * radix()) % ni,
                pow(bb, o as nat) % ni != 1,
                forall|k: nat| k < j - 1 ==> #[trigger] (pow(bb, o as nat * pow2(k)) % ni) != ni - 1,
            decreases e - j,
        {
            let ghost x = pow(bb, o as nat * pow2((j - 1) as nat));
            proof {
                lemma_small_product(rx as int, rx as int);
                lemma_small_mod(rx as nat, n as nat);
                lemma_redc_product(ni, rx as int, rx as int, x, x);
                lemma_pow_double(bb, o as nat, (j - 1) as nat);
                lemma_repr_injective(ni, x, ni - 1);
                lemma_small_mod((ni - 1) as nat, n as nat);
                lemma_mul_is_associative(x, x, radix());
            }
            rx = mont.mul(rx, rx);
            proof {
                crate::arith::lemma_redc_mod(ni, rx as int * rx as int);
            }
            j += 1;
        }
        proof {
            let x = pow(bb, o as nat * pow2((j - 1) as nat));
            lemma_repr_injective(ni, x, ni - 1);
            lemma_small_mod((ni - 1) as nat, n as nat);
        }
        if rx != neg_one {
            proof {
                assert forall|r: nat| r < e implies #[trigger] (pow(bb, o as nat * pow2(r)) % ni) != ni - 1 by {
                    if r < j - 1 {
                    } else {
                        assert(r == j - 1);
                    }
                }
                assert(!strong_probable_prime(n as nat, bases@[i as int] as nat));
            }
            return false;
        }
        proof {
            assert(pow(bb, o as nat * pow2((j - 1) as nat)) % ni == ni - 1);
            assert(strong_probable_prime(n as nat, bases@[i as int] as nat));
        }
        i += 1;
    }
    true
}

proof fn lemma2_pow0_helper()
    ensures
        pow2(0) == 1,
{
    vstd::arithmetic::power2::lemma2_to64();
}

/// The bases used for `n`: deterministic below `3317044064679887385961981`,
/// the first 20 primes above.
pub open spec fn mr_bases(n: nat) -> Seq<u128> {
    if n < 2047 {
        seq![2]
    } else if n < 9080191 {
        seq![31, 73]
    } else if n < 4759123141 {
        seq![2, 7, 61]
    } else if n < 1122004669633 {
        seq![2, 13, 23, 1662803]
    } else if n < 3770579582154547 {
        seq![2, 880937, 2570940, 610386380, 4130785767]
    } else if n < 18446744073709551616 {
        seq![2, 325, 9375, 28178, 450775, 9780504, 1795265022]
    } else if n < 318665857834031151167461 {
        seq![2, 3, 5, 7, 11, 13, 17, 19, 23, 29, 31, 37]
    } else if n < 3317044064679887385961981 {
        seq![2, 3, 5, 7, 11, 13, 17, 19, 23, 29, 31, 37, 41]
    } else {
        seq![2, 3, 5, 7, 11, 13, 17, 19, 23, 29, 31, 37, 41, 43, 47, 53, 59, 61, 67, 71]
    }
}

/// The outcome of the Miller–Rabin primality test of `n`.
pub open spec fn mr_is_prime_spec(n: nat) -> bool {
    if n <= 2 {
        n == 2
    } else if n % 2 == 0 {
        false
    } else {
        sprp_spec(n, mr_bases(n))
    }
}

/// Primality test based on Miller–Rabin primality test.
pub fn is_prime(n: u128) -> (res: bool)
    requires
        n % 2 == 0 || n < 0x8000_0000_0000_0000_0000_0000_0000_0000,
    ensures
        res == mr_is_prime_spec(n as nat),
{
    if n <= 2 {
        return n == 2;
    }
    if n % 2 == 0 {
        return false;
    }
    if n < 2047 {
        let b: [u128; 1] = [2];
        proof { assert(b@ == mr_bases(n as nat)); }
        is_sprp(n, &b)
    } else if n < 9080191 {
        let b: [u128; 2] = [31, 73];
        proof { assert(b@ == mr_bases(n as nat)); }
        is_sprp(n, &b)
    } else if n < 4759123141 {
        let b: [u128; 3] = [2, 7, 61];
        proof { assert(b@ == mr_bases(n as nat)); }
        is_sprp(n, &b)
    } else if n < 1122004669633 {
        let b: [u128; 4] = [2, 13, 23, 1662803];
        proof { assert(b@ == mr_bases(n as nat)); }
        is_sprp(n, &b)
    } else if n < 3770579582154547 {
        let b: [u128; 5] = [2, 880937, 2570940, 610386380, 4130785767];
        proof { assert(b@ == mr_bases(n as nat)); }
        is_sprp(n, &b)
    } else if n < 18446744073709551616 {
        let b: [u128; 7] = [2, 325, 9375, 28178, 450775, 9780504, 1795265022];
        proof { assert(b@ == mr_bases(n as nat)); }
        is_sprp(n, &b)
    } else if n < 318665857834031151167461 {
        let b: [u128; 12] = [2, 3, 5, 7, 11, 13, 17, 19, 23, 29, 31, 37];
        proof { assert(b@ == mr_bases(n as nat)); }
        is_sprp(n, &b)
    } else if n < 3317044064679887385961981 {
        let b: [u128; 13] = [2, 3, 5, 7, 11, 13, 17, 19, 23, 29, 31, 37, 41];
        proof { assert(b@ == mr_bases(n as nat)); }
        is_sprp(n, &b)
    } else {
        // first 20 primes (not known to be deterministic here)
        let b: [u128; 20] = [
            2, 3, 5, 7, 11, 13, 17, 19, 23, 29, 31, 37, 41, 43, 47, 53, 59, 61, 67, 71,
        ];
        proof { assert(b@ == mr_bases(n as nat)); }
        is_sprp(n, &b)
    }
}

/// Descending from `b^(o 2^j) = 1` modulo a prime: unless `b^o = 1`, some `b^(o 2^r)` with
/// `r < j` is `-1`.
proof fn lemma_descent(p: nat, b: int, o: nat, j: nat)
    requires
        is_prime_number(p),
        pow(b, o * pow2(j)) % (p as int) == 1,
        pow(b, o) % (p as int) != 1,
    ensures
        exists|r: nat| r < j && #[trigger] (pow(b, o * pow2(r)) % (p as int)) == p - 1,
    decreases j,
{
    if j == 0 {
        lemma2_pow0_helper();
        lemma_mul_basics(o as int);
    } else {
        let j1 = (j - 1) as nat;
        let y = pow(b, o * pow2(j1));
        lemma_pow_double(b, o, j1);
        assert(j1 + 1 == j);
        lemma_sqrt_one(p, y);
        if y % (p as int) == p - 1 {
            assert(pow(b, o * pow2(j1)) % (p as int) == p - 1);
        } else {
            lemma_descent(p, b, o, j1);
        }
    }
}

/// Every odd prime is a strong probable prime to each base that it does not divide.
pub proof fn lemma_prime_is_strong_probable_prime(p: nat, b: nat)
    requires
        is_prime_number(p),
        p % 2 == 1,
        b % p != 0,
    ensures
        strong_probable_prime(p, b),
{
    let pi = p as int;
    let n1 = (p - 1) as nat;
    let e = two_adic(n1);
    let o = odd_part(n1);
    lemma_two_adic_divides(n1);
    lemma_pow2_pos(e);
    lemma_fundamental_div_mod(n1 as int, pow2(e) as int);
    lemma_mul_is_commutative(o as int, pow2(e) as int);
    assert(n1 == o * pow2(e));
    lemma_fermat(p, b);
    if pow(b as int, o) % pi != 1 {
        lemma_descent(p, b as int, o, e);
    }
}

/// The bases tried for `n >= 3` are positive and below `n`.
proof fn lemma_bases_below(n: nat)
    requires
        n >= 3,
    ensures
        forall|i: int| 0 <= i < mr_bases(n).len() ==> 0 < #[trigger] mr_bases(n)[i] < n,
{
    let b = mr_bases(n);
    if n < 2047 {
    } else if n < 9080191 {
        assert(forall|i: int| 0 <= i < b.len() ==> #[trigger] b[i] < 2047);
    } else if n < 4759123141 {
        assert(forall|i: int| 0 <= i < b.len() ==> #[trigger] b[i] < 2047);
    } else if n < 1122004669633 {
        assert(forall|i: int| 0 <= i < b.len() ==> 0 < #[trigger] b[i] < 4759123141);
    } else if n < 3770579582154547 {
        assert(forall|i: int| 0 <= i < b.len() ==> 0 < #[trigger] b[i] < 1122004669633);
    } else if n < 18446744073709551616 {
        assert(forall|i: int| 0 <= i < b.len() ==> 0 < #[trigger] b[i] < 3770579582154547);
    } else {
        assert(forall|i: int| 0 <= i < b.len() ==> 0 < #[trigger] b[i] < 2047);
    }
}

/// Every prime passes the Miller–Rabin test: the test reports no prime as composite.
pub proof fn lemma_primes_pass_miller_rabin(p: nat)
    requires
        is_prime_number(p),
    ensures
        mr_is_prime_spec(p),
{
    if p > 2 {
        assert(p % 2 != 0);
        let bases = mr_bases(p);
        lemma_bases_below(p);
        assert forall|i: int| 0 <= i < bases.len() implies strong_probable_prime(p, #[trigger] bases[i] as nat) by {
            lemma_small_mod(bases[i] as nat, p);
            lemma_prime_is_strong_probable_prime(p, bases[i] as nat);
        }
    }
}

/// The Miller–Rabin test accepts `2`, rejects `0`, `1` and the other even numbers, and for odd
/// `n > 2` checks exactly the bases of the published
/// deterministic tables for each range of `n` (base `2` below `2047`, `31, 73` below
/// `9080191`, `2, 7, 61` below `4759123141`, and so on), and the first 20 primes above
/// `3317044064679887385961981`: `n` passes exactly when it is a strong probable prime to each
/// of them.
pub proof fn lemma_miller_rabin_bases(n: nat)
    ensures
        mr_is_prime_spec(2),
        n < 2 ==> !mr_is_prime_spec(n),
        n > 2 && n % 2 == 0 ==> !mr_is_prime_spec(n),
        n > 2 && n % 2 == 1 && n < 2047 ==> (mr_is_prime_spec(n) <==> strong_probable_prime(n, 2)),
        n > 2 && n % 2 == 1 && 2047 <= n < 9080191 ==> (mr_is_prime_spec(n) <==> strong_probable_prime(n, 31) && strong_probable_prime(n, 73)),
        n > 2 && n % 2 == 1 && 9080191 <= n < 4759123141 ==> (mr_is_prime_spec(n) <==> strong_probable_prime(n, 2) && strong_probable_prime(n, 7) && strong_probable_prime(n, 61)),
        n > 2 && n % 2 == 1 && 4759123141 <= n < 1122004669633 ==> (mr_is_prime_spec(n) <==> strong_probable_prime(n, 2) && strong_probable_prime(n, 13) && strong_probable_prime(n, 23) && strong_probable_prime(n, 1662803)),
        n > 2 && n % 2 == 1 && 1122004669633 <= n < 3770579582154547 ==> (mr_is_prime_spec(n) <==> strong_probable_prime(n, 2) && strong_probable_prime(n, 880937) && strong_probable_prime(n, 2570940) && strong_probable_prime(n, 610386380) && strong_probable_prime(n, 4130785767)),
        n > 2 && n % 2 == 1 && 3770579582154547 <= n < 18446744073709551616 ==> (mr_is_prime_spec(n) <==> strong_probable_prime(n, 2) && strong_probable_prime(n, 325) && strong_probable_prime(n, 9375) && strong_probable_prime(n, 28178) && strong_probable_prime(n, 450775) && strong_probable_prime(n, 9780504) && strong_probable_prime(n, 1795265022)),
        n > 2 && n % 2 == 1 && 18446744073709551616 <= n < 318665857834031151167461 ==> (mr_is_prime_spec(n) <==> strong_probable_prime(n, 2) && strong_probable_prime(n, 3) && strong_probable_prime(n, 5) && strong_probable_prime(n, 7) && strong_probable_prime(n, 11) && strong_probable_prime(n, 13) && strong_probable_prime(n, 17) && strong_probable_prime(n, 19) && strong_probable_prime(n, 23) && strong_probable_prime(n, 29) && strong_probable_prime(n, 31) && strong_probable_prime(n, 37)),
        n > 2 && n % 2 == 1 && 318665857834031151167461 <= n < 3317044064679887385961981 ==> (mr_is_prime_spec(n) <==> strong_probable_prime(n, 2) && strong_probable_prime(n, 3) && strong_probable_prime(n, 5) && strong_probable_prime(n, 7) && strong_probable_prime(n, 11) && strong_probable_prime(n, 13) && strong_probable_prime(n, 17) && strong_probable_prime(n, 19) && strong_probable_prime(n, 23) && strong_probable_prime(n, 29) && strong_probable_prime(n, 31) && strong_probable_prime(n, 37) && strong_probable_prime(n, 41)),
        n > 2 && n % 2 == 1 && 3317044064679887385961981 <= n ==> (mr_is_prime_spec(n) <==> strong_probable_prime(n, 2) && strong_probable_prime(n, 3) && strong_probable_prime(n, 5) && strong_probable_prime(n, 7) && strong_probable_prime(n, 11) && strong_probable_prime(n, 13) && strong_probable_prime(n, 17) && strong_probable_prime(n, 19) && strong_probable_prime(n, 23) && strong_probable_prime(n, 29) && strong_probable_prime(n, 31) && strong_probable_prime(n, 37) && strong_probable_prime(n, 41) && strong_probable_prime(n, 43) && strong_probable_prime(n, 47) && strong_probable_prime(n, 53) && strong_probable_prime(n, 59) && strong_probable_prime(n, 61) && strong_probable_prime(n, 67) && strong_probable_prime(n, 71)),
{
    if n > 2 && n % 2 == 1 {
        if n < 2047 {
            let b = mr_bases(n);
            assert(b.len() == 1);
            assert(b[0] == 2);
            if strong_probable_prime(n, 2) {
                assert forall|i: int| 0 <= i < b.len() implies strong_probable_prime(n, #[trigger] b[i] as nat) by {
                    assert(i == 0);
                }
            }
            if mr_is_prime_spec(n) {
                assert(strong_probable_prime(n, b[0] as nat));
            }
        }
        if 2047 <= n < 9080191 {
            let b = mr_bases(n);
            assert(b.len() == 2);
            assert(b[0] == 31);
            assert(b[1] == 73);
            if strong_probable_prime(n, 31) && strong_probable_prime(n, 73) {
                assert forall|i: int| 0 <= i < b.len() implies strong_probable_prime(n, #[trigger] b[i] as nat) by {
                    assert(i == 0 || i == 1);
                }
            }
            if mr_is_prime_spec(n) {
                assert(strong_probable_prime(n, b[0] as nat));
                assert(strong_probable_prime(n, b[1] as nat));
            }
        }
        if 9080191 <= n < 4759123141 {
            let b = mr_bases(n);
            assert(b.len() == 3);
            assert(b[0] == 2);
            assert(b[1] == 7);
            assert(b[2] == 61);
            if strong_probable_prime(n, 2) && strong_probable_prime(n, 7) && strong_probable_prime(n, 61) {
                assert forall|i: int| 0 <= i < b.len() implies strong_probable_prime(n, #[trigger] b[i] as nat) by {
                    assert(i == 0 || i == 1 || i == 2);
                }
            }
            if mr_is_prime_spec(n) {
                assert(strong_probable_prime(n, b[0] as nat));
                assert(strong_probable_prime(n, b[1] as nat));
                assert(strong_probable_prime(n, b[2] as nat));
            }
        }
        if 4759123141 <= n < 1122004669633 {
            let b = mr_bases(n);
            assert(b.len() == 4);
            assert(b[0] == 2);
            assert(b[1] == 13);
            assert(b[2] == 23);
            assert(b[3] == 1662803);
            if strong_probable_prime(n, 2) && strong_probable_prime(n, 13) && strong_probable_prime(n, 23) && strong_probable_prime(n, 1662803) {
                assert forall|i: int| 0 <= i < b.len() implies strong_probable_prime(n, #[trigger] b[i] as nat) by {
                    assert(i == 0 || i == 1 || i == 2 || i == 3);
                }
            }
            if mr_is_prime_spec(n) {
                assert(strong_probable_prime(n, b[0] as nat));
                assert(strong_probable_prime(n, b[1] as nat));
                assert(strong_probable_prime(n, b[2] as nat));
                assert(strong_probable_prime(n, b[3] as nat));
            }
        }
        if 1122004669633 <= n < 3770579582154547 {
            let b = mr_bases(n);
            assert(b.len() == 5);
            assert(b[0] == 2);
            assert(b[1] == 880937);
            assert(b[2] == 2570940);
            assert(b[3] == 610386380);
            assert(b[4] == 4130785767);
            if strong_probable_prime(n, 2) && strong_probable_prime(n, 880937) && strong_probable_prime(n, 2570940) && strong_probable_prime(n, 610386380) && strong_probable_prime(n, 4130785767) {
                assert forall|i: int| 0 <= i < b.len() implies strong_probable_prime(n, #[trigger] b[i] as nat) by {
                    assert(i == 0 || i == 1 || i == 2 || i == 3 || i == 4);
                }
            }
            if mr_is_prime_spec(n) {
                assert(strong_probable_prime(n, b[0] as nat));
                assert(strong_probable_prime(n, b[1] as nat));
                assert(strong_probable_prime(n, b[2] as nat));
                assert(strong_probable_prime(n, b[3] as nat));
                assert(strong_probable_prime(n, b[4] as nat));
            }
        }
        if 3770579582154547 <= n < 18446744073709551616 {
            let b = mr_bases(n);
            assert(b.len() == 7);
            assert(b[0] == 2);
            assert(b[1] == 325);
            assert(b[2] == 9375);
            assert(b[3] == 28178);
            assert(b[4] == 450775);
            assert(b[5] == 9780504);
            assert(b[6] == 1795265022);
            if strong_probable_prime(n, 2) && strong_probable_prime(n, 325) && strong_probable_prime(n, 9375) && strong_probable_prime(n, 28178) && strong_probable_prime(n, 450775) && strong_probable_prime(n, 9780504) && strong_probable_prime(n, 1795265022) {
                assert forall|i: int| 0 <= i < b.len() implies strong_probable_prime(n, #[trigger] b[i] as nat) by {
                    assert(i == 0 || i == 1 || i == 2 || i == 3 || i == 4 || i == 5 || i == 6);
                }
            }
            if mr_is_prime_spec(n) {
                assert(strong_probable_prime(n, b[0] as nat));
                assert(strong_probable_prime(n, b[1] as nat));
                assert(strong_probable_prime(n, b[2] as nat));
                assert(strong_probable_prime(n, b[3] as nat));
                assert(strong_probable_prime(n, b[4] as nat));
                assert(strong_probable_prime(n, b[5] as nat));
                assert(strong_probable_prime(n, b[6] as nat));
            }
        }
        if 18446744073709551616 <= n < 318665857834031151167461 {
            let b = mr_bases(n);
            assert(b.len() == 12);
            assert(b[0] == 2);
            assert(b[1] == 3);
            assert(b[2] == 5);
            assert(b[3] == 7);
            assert(b[4] == 11);
            assert(b[5] == 13);
            assert(b[6] == 17);
            assert(b[7] == 19);
            assert(b[8] == 23);
            assert(b[9] == 29);
            assert(b[10] == 31);
            assert(b[11] == 37);
            if strong_probable_prime(n, 2) && strong_probable_prime(n, 3) && strong_probable_prime(n, 5) && strong_probable_prime(n, 7) && strong_probable_prime(n, 11) && strong_probable_prime(n, 13) && strong_probable_prime(n, 17) && strong_probable_prime(n, 19) && strong_probable_prime(n, 23) && strong_probable_prime(n, 29) && strong_probable_prime(n, 31) && strong_probable_prime(n, 37) {
                assert forall|i: int| 0 <= i < b.len() implies strong_probable_prime(n, #[trigger] b[i] as nat) by {
                    assert(i == 0 || i == 1 || i == 2 || i == 3 || i == 4 || i == 5 || i == 6 || i == 7 || i == 8 || i == 9 || i == 10 || i == 11);
                }
            }
            if mr_is_prime_spec(n) {
                assert(strong_probable_prime(n, b[0] as nat));
                assert(strong_probable_prime(n, b[1] as nat));
                assert(strong_probable_prime(n, b[2] as nat));
                assert(strong_probable_prime(n, b[3] as nat));
                assert(strong_probable_prime(n, b[4] as nat));
                assert(strong_probable_prime(n, b[5] as nat));
                assert(strong_probable_prime(n, b[6] as nat));
                assert(strong_probable_prime(n, b[7] as nat));
                assert(strong_probable_prime(n, b[8] as nat));
                assert(strong_probable_prime(n, b[9] as nat));
                assert(strong_probable_prime(n, b[10] as nat));
                assert(strong_probable_prime(n, b[11] as nat));
            }
        }
        if 318665857834031151167461 <= n < 3317044064679887385961981 {
            let b = mr_bases(n);
            assert(b.len() == 13);
            assert(b[0] == 2);
            assert(b[1] == 3);
            assert(b[2] == 5);
            assert(b[3] == 7);
            assert(b[4] == 11);
            assert(b[5] == 13);
            assert(b[6] == 17);
            assert(b[7] == 19);
            assert(b[8] == 23);
            assert(b[9] == 29);
            assert(b[10] == 31);
            assert(b[11] == 37);
            assert(b[12] == 41);
            if strong_probable_prime(n, 2) && strong_probable_prime(n, 3) && strong_probable_prime(n, 5) && strong_probable_prime(n, 7) && strong_probable_prime(n, 11) && strong_probable_prime(n, 13) && strong_probable_prime(n, 17) && strong_probable_prime(n, 19) && strong_probable_prime(n, 23) && strong_probable_prime(n, 29) && strong_probable_prime(n, 31) && strong_probable_prime(n, 37) && strong_probable_prime(n, 41) {
                assert forall|i: int| 0 <= i < b.len() implies strong_probable_prime(n, #[trigger] b[i] as nat) by {
                    assert(i == 0 || i == 1 || i == 2 || i == 3 || i == 4 || i == 5 || i == 6 || i == 7 || i == 8 || i == 9 || i == 10 || i == 11 || i == 12);
                }
            }
            if mr_is_prime_spec(n) {
                assert(strong_probable_prime(n, b[0] as nat));
                assert(strong_probable_prime(n, b[1] as nat));
                assert(strong_probable_prime(n, b[2] as nat));
                assert(strong_probable_prime(n, b[3] as nat));
                assert(strong_probable_prime(n, b[4] as nat));
                assert(strong_probable_prime(n, b[5] as nat));
                assert(strong_probable_prime(n, b[6] as nat));
                assert(strong_probable_prime(n, b[7] as nat));
                assert(strong_probable_prime(n, b[8] as nat));
                assert(strong_probable_prime(n, b[9] as nat));
                assert(strong_probable_prime(n, b[10] as nat));
                assert(strong_probable_prime(n, b[11] as nat));
                assert(strong_probable_prime(n, b[12] as nat));
            }
        }
        if 3317044064679887385961981 <= n {
            let b = mr_bases(n);
            assert(b.len() == 20);
            assert(b[0] == 2);
            assert(b[1] == 3);
            assert(b[2] == 5);
            assert(b[3] == 7);
            assert(b[4] == 11);
            assert(b[5] == 13);
            assert(b[6] == 17);
            assert(b[7] == 19);
            assert(b[8] == 23);
            assert(b[9] == 29);
            assert(b[10] == 31);
            assert(b[11] == 37);
            assert(b[12] == 41);
            assert(b[13] == 43);
            assert(b[14] == 47);
            assert(b[15] == 53);
            assert(b[16] == 59);
            assert(b[17] == 61);
            assert(b[18] == 67);
            assert(b[19] == 71);
            if strong_probable_prime(n, 2) && strong_probable_prime(n, 3) && strong_probable_prime(n, 5) && strong_probable_prime(n, 7) && strong_probable_prime(n, 11) && strong_probable_prime(n, 13) && strong_probable_prime(n, 17) && strong_probable_prime(n, 19) && strong_probable_prime(n, 23) && strong_probable_prime(n, 29) && strong_probable_prime(n, 31) && strong_probable_prime(n, 37) && strong_probable_prime(n, 41) && strong_probable_prime(n, 43) && strong_probable_prime(n, 47) && strong_probable_prime(n, 53) && strong_probable_prime(n, 59) && strong_probable_prime(n, 61) && strong_probable_prime(n, 67) && strong_probable_prime(n, 71) {
                assert forall|i: int| 0 <= i < b.len() implies strong_probable_prime(n, #[trigger] b[i] as nat) by {
                    assert(i == 0 || i == 1 || i == 2 || i == 3 || i == 4 || i == 5 || i == 6 || i == 7 || i == 8 || i == 9 || i == 10 || i == 11 || i == 12 || i == 13 || i == 14 || i == 15 || i == 16 || i == 17 || i == 18 || i == 19);
                }
            }
            if mr_is_prime_spec(n) {
                assert(strong_probable_prime(n, b[0] as nat));
                assert(strong_probable_prime(n, b[1] as nat));
                assert(strong_probable_prime(n, b[2] as nat));
                assert(strong_probable_prime(n, b[3] as nat));
                assert(strong_probable_prime(n, b[4] as nat));
                assert(strong_probable_prime(n, b[5] as nat));
                assert(strong_probable_prime(n, b[6] as nat));
                assert(strong_probable_prime(n, b[7] as nat));
                assert(strong_probable_prime(n, b[8] as nat));
                assert(strong_probable_prime(n, b[9] as nat));
                assert(strong_probable_prime(n, b[10] as nat));
                assert(strong_probable_prime(n, b[11] as nat));
                assert(strong_probable_prime(n, b[12] as nat));
                assert(strong_probable_prime(n, b[13] as nat));
                assert(strong_probable_prime(n, b[14] as nat));
                assert(strong_probable_prime(n, b[15] as nat));
                assert(strong_probable_prime(n, b[16] as nat));
                assert(strong_probable_prime(n, b[17] as nat));
                assert(strong_probable_prime(n, b[18] as nat));
                assert(strong_probable_prime(n, b[19] as nat));
            }
        }
    }
}

/// `1` and `-1` square to `1` modulo `n > 2`.
proof fn lemma_square_of_sign(n: int, x: int)
    requires
        n > 2,
        x % n == 1 || x % n == n - 1,
    ensures
        (x * x) % n == 1,
{
    lemma_mul_mod_noop(x, x, n);
    lemma_small_mod(1, n as nat);
    if x % n == n - 1 {
        assert((n - 1) * (n - 1) == n * (n - 2) + 1) by (nonlinear_arith);
        lemma_fundamental_div_mod_converse((n - 1) * (n - 1), n, n - 2, 1);
    }
}

/// Once `b^(o 2^r) = 1 (mod n)`, every later square is `1` too.
proof fn lemma_stays_one(n: int, b: int, o: nat, r: nat, j: nat)
    requires
        n > 2,
        r <= j,
        pow(b, o * pow2(r)) % n == 1,
    ensures
        pow(b, o * pow2(j)) % n == 1,
    decreases j - r,
{
    if r < j {
        lemma_pow_double(b, o, r);
        lemma_square_of_sign(n, pow(b, o * pow2(r)));
        lemma_stays_one(n, b, o, r + 1, j);
    }
}

/// A strong probable prime to base `b` satisfies Fermat's congruence `b^(n-1) = 1 (mod n)`:
/// each base that the Miller–Rabin test passes is a Fermat witness of nothing.
pub proof fn lemma_strong_probable_prime_fermat(n: nat, b: nat)
    requires
        n > 2,
        n % 2 == 1,
        strong_probable_prime(n, b),
    ensures
        pow(b as int, (n - 1) as nat) % (n as int) == 1,
{
    let ni = n as int;
    let n1 = (n - 1) as nat;
    let e = two_adic(n1);
    let o = odd_part(n1);
    lemma_two_adic_divides(n1);
    lemma_pow2_pos(e);
    lemma_fundamental_div_mod(n1 as int, pow2(e) as int);
    lemma_mul_is_commutative(o as int, pow2(e) as int);
    assert(n1 == o * pow2(e));
    if pow(b as int, o) % ni == 1 {
        lemma2_pow0_helper();
        lemma_mul_basics(o as int);
        assert(o * pow2(0) == o);
        lemma_stays_one(ni, b as int, o, 0, e);
    } else {
        let r = choose|r: nat| r < e && #[trigger] (pow(b as int, o * pow2(r)) % ni) == n - 1;
        lemma_pow_double(b as int, o, r);
        lemma_square_of_sign(ni, pow(b as int, o * pow2(r)));
        lemma_stays_one(ni, b as int, o, r + 1, e);
    }
}

} // verus!
