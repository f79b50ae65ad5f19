//! What the Baillie–PSW test guarantees: below `8321` it accepts only primes, the primes up to
//! `47` pass, their other multiples fail, and every larger accepted number satisfies Fermat's
//! congruence to base `2`.
use vstd::prelude::*;
use vstd::arithmetic::div_mod::*;
use vstd::arithmetic::mul::*;
use vstd::arithmetic::power::*;
use vstd::arithmetic::power2::pow2;
use crate::arith::{lemma_two_adic_unique, odd_part};
use crate::primality::fermat::is_prime_number;
use crate::primality::miller_rabin::{sprp_spec, strong_probable_prime};
use crate::primality::{bpsw_spec, small_primes};
use crate::wrapper::has_no_proper_divisor;

verus! {

/// `b^(2k)` and `b^(2k+1)` modulo `n`, from `b^k` modulo `n`.
proof fn lemma_pow_mod_step(b: int, k: nat, n: int, v: int)
    requires
        n > 0,
        pow(b, k) % n == v,
    ensures
        pow(b, 2 * k) % n == (v * v) % n,
        pow(b, 2 * k + 1) % n == (v * v * b) % n,
{
    lemma_pow_adds(b, k, k);
    assert(k + k == 2 * k);
    lemma_mul_mod_noop(pow(b, k), pow(b, k), n);
    lemma_pow_adds(b, 2 * k, 1);
    lemma_pow1(b);
    lemma_mul_mod_noop(pow(b, 2 * k), b, n);
    lemma_mul_mod_noop(v * v, b, n);
    lemma_mod_twice(v * v, n);
}

/// A divisor of a divisor of `n` divides `n`.
proof fn lemma_divides_trans(p: nat, a: nat, n: nat)
    requires
        p > 0,
        a > 0,
        a % p == 0,
        n % a == 0,
    ensures
        n % p == 0,
{
    lemma_fundamental_div_mod(a as int, p as int);
    lemma_fundamental_div_mod(n as int, a as int);
    let j = (a / p) as int;
    let k = (n / a) as int;
    assert(n == p * (j * k)) by (nonlinear_arith)
        requires
            a == p * j,
            n == a * k,
    ;
    lemma_mul_is_commutative(p as int, j * k);
    lemma_mod_multiples_basic(j * k, p as int);
}

/// `n >= 2` without a divisor from `2` to `k`, where `(k + 1)^2 > n`, is prime.
proof fn lemma_prime_by_trial(n: nat, k: nat)
    requires
        n >= 2,
        (k + 1) * (k + 1) > n,
        forall|d: nat| 2 <= d <= k && d < n ==> #[trigger] (n % d) != 0,
    ensures
        is_prime_number(n),
{
    assert forall|d: nat| 1 < d < n implies #[trigger] (n % d) != 0 by {
        if n % d == 0 {
            lemma_fundamental_div_mod(n as int, d as int);
            let e = n / d;
            assert(n == d * e);
            assert(e >= 2) by (nonlinear_arith)
                requires
                    n == d * e,
                    d < n,
            ;
            assert(e < n) by (nonlinear_arith)
                requires
                    n == d * e,
                    d >= 2,
                    n >= 2,
            ;
            if d <= k {
            } else if e <= k {
                lemma_mul_is_commutative(d as int, e as int);
                lemma_mod_multiples_basic(d as int, e as int);
                assert(n % e == 0);
            } else {
                assert(d * e >= (k + 1) * (k + 1)) by (nonlinear_arith)
                    requires
                        d >= k + 1,
                        e >= k + 1,
                ;
            }
        }
    }
}

/// `2809` is not a strong probable prime to base `2`.
proof fn lemma_not_spp2_2809()
    ensures
        !strong_probable_prime(2809, 2),
{
    vstd::arithmetic::power2::lemma2_to64();
    lemma_two_adic_unique(2808, 3);
    assert(odd_part(2808) == 351);
    lemma_pow1(2);
    lemma_pow_mod_step(2, 1, 2809, 2);
    assert(pow(2, 2) % 2809 == 4);
    lemma_pow_mod_step(2, 2, 2809, 4);
    assert(pow(2, 5) % 2809 == 32);
    lemma_pow_mod_step(2, 5, 2809, 32);
    assert(pow(2, 10) % 2809 == 1024);
    lemma_pow_mod_step(2, 10, 2809, 1024);
    assert(pow(2, 21) % 2809 == 1638);
    lemma_pow_mod_step(2, 21, 2809, 1638);
    assert(pow(2, 43) % 2809 == 898);
    lemma_pow_mod_step(2, 43, 2809, 898);
    assert(pow(2, 87) % 2809 == 442);
    lemma_pow_mod_step(2, 87, 2809, 442);
    assert(pow(2, 175) % 2809 == 277);
    lemma_pow_mod_step(2, 175, 2809, 277);
    assert(pow(2, 351) % 2809 == 1772);
    lemma_pow_mod_step(2, 351, 2809, 1772);
    assert(pow(2, 702) % 2809 == 2331);
    lemma_pow_mod_step(2, 702, 2809, 2331);
    assert(pow(2, 1404) % 2809 == 955);
    assert forall|r: nat| r < 3 implies #[trigger] (pow(2, 351 * pow2(r)) % 2809) != 2808 by {
        assert(r == 0 || r == 1 || r == 2);
        if r == 0 {
            assert(351 * pow2(0) == 351);
        }
        if r == 1 {
            assert(351 * pow2(1) == 702);
        }
        if r == 2 {
            assert(351 * pow2(2) == 1404);
        }
    }
}

/// `3127` is not a strong probable prime to base `2`.
proof fn lemma_not_spp2_3127()
    ensures
        !strong_probable_prime(3127, 2),
{
    vstd::arithmetic::power2::lemma2_to64();
    lemma_two_adic_unique(3126, 1);
    assert(odd_part(3126) == 1563);
    lemma_pow1(2);
    lemma_pow_mod_step(2, 1, 3127, 2);
    assert(pow(2, 3) % 3127 == 8);
    lemma_pow_mod_step(2, 3, 3127, 8);
    assert(pow(2, 6) % 3127 == 64);
    lemma_pow_mod_step(2, 6, 3127, 64);
    assert(pow(2, 12) % 3127 == 969);
    lemma_pow_mod_step(2, 12, 3127, 969);
    assert(pow(2, 24) % 3127 == 861);
    lemma_pow_mod_step(2, 24, 3127, 861);
    assert(pow(2, 48) % 3127 == 222);
    lemma_pow_mod_step(2, 48, 3127, 222);
    assert(pow(2, 97) % 3127 == 1631);
    lemma_pow_mod_step(2, 97, 3127, 1631);
    assert(pow(2, 195) % 3127 == 1295);
    lemma_pow_mod_step(2, 195, 3127, 1295);
    assert(pow(2, 390) % 3127 == 953);
    lemma_pow_mod_step(2, 390, 3127, 953);
    assert(pow(2, 781) % 3127 == 2758);
    lemma_pow_mod_step(2, 781, 3127, 2758);
    assert(pow(2, 1563) % 3127 == 273);
    assert forall|r: nat| r < 1 implies #[trigger] (pow(2, 1563 * pow2(r)) % 3127) != 3126 by {
        assert(r == 0);
        if r == 0 {
            assert(1563 * pow2(0) == 1563);
        }
    }
}

/// `3233` is not a strong probable prime to base `2`.
proof fn lemma_not_spp2_3233()
    ensures
        !strong_probable_prime(3233, 2),
{
    vstd::arithmetic::power2::lemma2_to64();
    lemma_two_adic_unique(3232, 5);
    assert(odd_part(3232) == 101);
    lemma_pow1(2);
    lemma_pow_mod_step(2, 1, 3233, 2);
    assert(pow(2, 3) % 3233 == 8);
    lemma_pow_mod_step(2, 3, 3233, 8);
    assert(pow(2, 6) % 3233 == 64);
    lemma_pow_mod_step(2, 6, 3233, 64);
    assert(pow(2, 12) % 3233 == 863);
    lemma_pow_mod_step(2, 12, 3233, 863);
    assert(pow(2, 25) % 3233 == 2358);
    lemma_pow_mod_step(2, 25, 3233, 2358);
    assert(pow(2, 50) % 3233 == 2637);
    lemma_pow_mod_step(2, 50, 3233, 2637);
    assert(pow(2, 101) % 3233 == 2405);
    lemma_pow_mod_step(2, 101, 3233, 2405);
    assert(pow(2, 202) % 3233 == 188);
    lemma_pow_mod_step(2, 202, 3233, 188);
    assert(pow(2, 404) % 3233 == 3014);
    lemma_pow_mod_step(2, 404, 3233, 3014);
    assert(pow(2, 808) % 3233 == 2699);
    lemma_pow_mod_step(2, 808, 3233, 2699);
    assert(pow(2, 1616) % 3233 == 652);
    assert forall|r: nat| r < 5 implies #[trigger] (pow(2, 101 * pow2(r)) % 3233) != 3232 by {
        assert(r == 0 || r == 1 || r == 2 || r == 3 || r == 4);
        if r == 0 {
            assert(101 * pow2(0) == 101);
        }
        if r == 1 {
            assert(101 * pow2(1) == 202);
        }
        if r == 2 {
            assert(101 * pow2(2) == 404);
        }
        if r == 3 {
            assert(101 * pow2(3) == 808);
        }
        if r == 4 {
            assert(101 * pow2(4) == 1616);
        }
    }
}

/// `3481` is not a strong probable prime to base `2`.
proof fn lemma_not_spp2_3481()
    ensures
        !strong_probable_prime(3481, 2),
{
    vstd::arithmetic::power2::lemma2_to64();
    lemma_two_adic_unique(3480, 3);
    assert(odd_part(3480) == 435);
    lemma_pow1(2);
    lemma_pow_mod_step(2, 1, 3481, 2);
    assert(pow(2, 3) % 3481 == 8);
    lemma_pow_mod_step(2, 3, 3481, 8);
    assert(pow(2, 6) % 3481 == 64);
    lemma_pow_mod_step(2, 6, 3481, 64);
    assert(pow(2, 13) % 3481 == 1230);
    lemma_pow_mod_step(2, 13, 3481, 1230);
    assert(pow(2, 27) % 3481 == 811);
    lemma_pow_mod_step(2, 27, 3481, 811);
    assert(pow(2, 54) % 3481 == 3293);
    lemma_pow_mod_step(2, 54, 3481, 3293);
    assert(pow(2, 108) % 3481 == 534);
    lemma_pow_mod_step(2, 108, 3481, 534);
    assert(pow(2, 217) % 3481 == 2909);
    lemma_pow_mod_step(2, 217, 3481, 2909);
    assert(pow(2, 435) % 3481 == 3421);
    lemma_pow_mod_step(2, 435, 3481, 3421);
    assert(pow(2, 870) % 3481 == 119);
    lemma_pow_mod_step(2, 870, 3481, 119);
    assert(pow(2, 1740) % 3481 == 237);
    assert forall|r: nat| r < 3 implies #[trigger] (pow(2, 435 * pow2(r)) % 3481) != 3480 by {
        assert(r == 0 || r == 1 || r == 2);
        if r == 0 {
            assert(435 * pow2(0) == 435);
        }
        if r == 1 {
            assert(435 * pow2(1) == 870);
        }
        if r == 2 {
            assert(435 * pow2(2) == 1740);
        }
    }
}

/// `3551` is not a strong probable prime to base `2`.
proof fn lemma_not_spp2_3551()
    ensures
        !strong_probable_prime(3551, 2),
{
    vstd::arithmetic::power2::lemma2_to64();
    lemma_two_adic_unique(3550, 1);
    assert(odd_part(3550) == 1775);
    lemma_pow1(2);
    lemma_pow_mod_step(2, 1, 3551, 2);
    assert(pow(2, 3) % 3551 == 8);
    lemma_pow_mod_step(2, 3, 3551, 8);
    assert(pow(2, 6) % 3551 == 64);
    lemma_pow_mod_step(2, 6, 3551, 64);
    assert(pow(2, 13) % 3551 == 1090);
    lemma_pow_mod_step(2, 13, 3551, 1090);
    assert(pow(2, 27) % 3551 == 581);
    lemma_pow_mod_step(2, 27, 3551, 581);
    assert(pow(2, 55) % 3551 == 432);
    lemma_pow_mod_step(2, 55, 3551, 432);
    assert(pow(2, 110) % 3551 == 1972);
    lemma_pow_mod_step(2, 110, 3551, 1972);
    assert(pow(2, 221) % 3551 == 878);
    lemma_pow_mod_step(2, 221, 3551, 878);
    assert(pow(2, 443) % 3551 == 634);
    lemma_pow_mod_step(2, 443, 3551, 634);
    assert(pow(2, 887) % 3551 == 1386);
    lemma_pow_mod_step(2, 887, 3551, 1386);
    assert(pow(2, 1775) % 3551 == 3361);
    assert forall|r: nat| r < 1 implies #[trigger] (pow(2, 1775 * pow2(r)) % 3551) != 3550 by {
        assert(r == 0);
        if r == 0 {
            assert(1775 * pow2(0) == 1775);
        }
    }
}

/// `3599` is not a strong probable prime to base `2`.
proof fn lemma_not_spp2_3599()
    ensures
        !strong_probable_prime(3599, 2),
{
    vstd::arithmetic::power2::lemma2_to64();
    lemma_two_adic_unique(3598, 1);
    assert(odd_part(3598) == 1799);
    lemma_pow1(2);
    lemma_pow_mod_step(2, 1, 3599, 2);
    assert(pow(2, 3) % 3599 == 8);
    lemma_pow_mod_step(2, 3, 3599, 8);
    assert(pow(2, 7) % 3599 == 128);
    lemma_pow_mod_step(2, 7, 3599, 128);
    assert(pow(2, 14) % 3599 == 1988);
    lemma_pow_mod_step(2, 14, 3599, 1988);
    assert(pow(2, 28) % 3599 == 442);
    lemma_pow_mod_step(2, 28, 3599, 442);
    assert(pow(2, 56) % 3599 == 1018);
    lemma_pow_mod_step(2, 56, 3599, 1018);
    assert(pow(2, 112) % 3599 == 3411);
    lemma_pow_mod_step(2, 112, 3599, 3411);
    assert(pow(2, 224) % 3599 == 2953);
    lemma_pow_mod_step(2, 224, 3599, 2953);
    assert(pow(2, 449) % 3599 == 3263);
    lemma_pow_mod_step(2, 449, 3599, 3263);
    assert(pow(2, 899) % 3599 == 2654);
    lemma_pow_mod_step(2, 899, 3599, 2654);
    assert(pow(2, 1799) % 3599 == 946);
    assert forall|r: nat| r < 1 implies #[trigger] (pow(2, 1799 * pow2(r)) % 3599) != 3598 by {
        assert(r == 0);
        if r == 0 {
            assert(1799 * pow2(0) == 1799);
        }
    }
}

/// `3721` is not a strong probable prime to base `2`.
proof fn lemma_not_spp2_3721()
    ensures
        !strong_probable_prime(3721, 2),
{
    vstd::arithmetic::power2::lemma2_to64();
    lemma_two_adic_unique(3720, 3);
    assert(odd_part(3720) == 465);
    lemma_pow1(2);
    lemma_pow_mod_step(2, 1, 3721, 2);
    assert(pow(2, 3) % 3721 == 8);
    lemma_pow_mod_step(2, 3, 3721, 8);
    assert(pow(2, 7) % 3721 == 128);
    lemma_pow_mod_step(2, 7, 3721, 128);
    assert(pow(2, 14) % 3721 == 1500);
    lemma_pow_mod_step(2, 14, 3721, 1500);
    assert(pow(2, 29) % 3721 == 1311);
    lemma_pow_mod_step(2, 29, 3721, 1311);
    assert(pow(2, 58) % 3721 == 3340);
    lemma_pow_mod_step(2, 58, 3721, 3340);
    assert(pow(2, 116) % 3721 == 42);
    lemma_pow_mod_step(2, 116, 3721, 42);
    assert(pow(2, 232) % 3721 == 1764);
    lemma_pow_mod_step(2, 232, 3721, 1764);
    assert(pow(2, 465) % 3721 == 1880);
    lemma_pow_mod_step(2, 465, 3721, 1880);
    assert(pow(2, 930) % 3721 == 3171);
    lemma_pow_mod_step(2, 930, 3721, 3171);
    assert(pow(2, 1860) % 3721 == 1099);
    assert forall|r: nat| r < 3 implies #[trigger] (pow(2, 465 * pow2(r)) % 3721) != 3720 by {
        assert(r == 0 || r == 1 || r == 2);
        if r == 0 {
            assert(465 * pow2(0) == 465);
        }
        if r == 1 {
            assert(465 * pow2(1) == 930);
        }
        if r == 2 {
            assert(465 * pow2(2) == 1860);
        }
    }
}

/// `3763` is not a strong probable prime to base `2`.
proof fn lemma_not_spp2_3763()
    ensures
        !strong_probable_prime(3763, 2),
{
    vstd::arithmetic::power2::lemma2_to64();
    lemma_two_adic_unique(3762, 1);
    assert(odd_part(3762) == 1881);
    lemma_pow1(2);
    lemma_pow_mod_step(2, 1, 3763, 2);
    assert(pow(2, 3) % 3763 == 8);
    lemma_pow_mod_step(2, 3, 3763, 8);
    assert(pow(2, 7) % 3763 == 128);
    lemma_pow_mod_step(2, 7, 3763, 128);
    assert(pow(2, 14) % 3763 == 1332);
    lemma_pow_mod_step(2, 14, 3763, 1332);
    assert(pow(2, 29) % 3763 == 3702);
    lemma_pow_mod_step(2, 29, 3763, 3702);
    assert(pow(2, 58) % 3763 == 3721);
    lemma_pow_mod_step(2, 58, 3763, 3721);
    assert(pow(2, 117) % 3763 == 3528);
    lemma_pow_mod_step(2, 117, 3763, 3528);
    assert(pow(2, 235) % 3763 == 1323);
    lemma_pow_mod_step(2, 235, 3763, 1323);
    assert(pow(2, 470) % 3763 == 534);
    lemma_pow_mod_step(2, 470, 3763, 534);
    assert(pow(2, 940) % 3763 == 2931);
    lemma_pow_mod_step(2, 940, 3763, 2931);
    assert(pow(2, 1881) % 3763 == 3427);
    assert forall|r: nat| r < 1 implies #[trigger] (pow(2, 1881 * pow2(r)) % 3763) != 3762 by {
        assert(r == 0);
        if r == 0 {
            assert(1881 * pow2(0) == 1881);
        }
    }
}

/// `3869` is not a strong probable prime to base `2`.
proof fn lemma_not_spp2_3869()
    ensures
        !strong_probable_prime(3869, 2),
{
    vstd::arithmetic::power2::lemma2_to64();
    lemma_two_adic_unique(3868, 2);
    assert(odd_part(3868) == 967);
    lemma_pow1(2);
    lemma_pow_mod_step(2, 1, 3869, 2);
    assert(pow(2, 3) % 3869 == 8);
    lemma_pow_mod_step(2, 3, 3869, 8);
    assert(pow(2, 7) % 3869 == 128);
    lemma_pow_mod_step(2, 7, 3869, 128);
    assert(pow(2, 15) % 3869 == 1816);
    lemma_pow_mod_step(2, 15, 3869, 1816);
    assert(pow(2, 30) % 3869 == 1468);
    lemma_pow_mod_step(2, 30, 3869, 1468);
    assert(pow(2, 60) % 3869 == 3860);
    lemma_pow_mod_step(2, 60, 3869, 3860);
    assert(pow(2, 120) % 3869 == 81);
    lemma_pow_mod_step(2, 120, 3869, 81);
    assert(pow(2, 241) % 3869 == 1515);
    lemma_pow_mod_step(2, 241, 3869, 1515);
    assert(pow(2, 483) % 3869 == 1816);
    lemma_pow_mod_step(2, 483, 3869, 1816);
    assert(pow(2, 967) % 3869 == 2936);
    lemma_pow_mod_step(2, 967, 3869, 2936);
    assert(pow(2, 1934) % 3869 == 3833);
    assert forall|r: nat| r < 2 implies #[trigger] (pow(2, 967 * pow2(r)) % 3869) != 3868 by {
        assert(r == 0 || r == 1);
        if r == 0 {
            assert(967 * pow2(0) == 967);
        }
        if r == 1 {
            assert(967 * pow2(1) == 1934);
        }
    }
}

/// `3953` is not a strong probable prime to base `2`.
proof fn lemma_not_spp2_3953()
    ensures
        !strong_probable_prime(3953, 2),
{
    vstd::arithmetic::power2::lemma2_to64();
    lemma_two_adic_unique(3952, 4);
    assert(odd_part(3952) == 247);
    lemma_pow1(2);
    lemma_pow_mod_step(2, 1, 3953, 2);
    assert(pow(2, 3) % 3953 == 8);
    lemma_pow_mod_step(2, 3, 3953, 8);
    assert(pow(2, 7) % 3953 == 128);
    lemma_pow_mod_step(2, 7, 3953, 128);
    assert(pow(2, 15) % 3953 == 1144);
    lemma_pow_mod_step(2, 15, 3953, 1144);
    assert(pow(2, 30) % 3953 == 293);
    lemma_pow_mod_step(2, 30, 3953, 293);
    assert(pow(2, 61) % 3953 == 1719);
    lemma_pow_mod_step(2, 61, 3953, 1719);
    assert(pow(2, 123) % 3953 == 187);
    lemma_pow_mod_step(2, 123, 3953, 187);
    assert(pow(2, 247) % 3953 == 2737);
    lemma_pow_mod_step(2, 247, 3953, 2737);
    assert(pow(2, 494) % 3953 == 234);
    lemma_pow_mod_step(2, 494, 3953, 234);
    assert(pow(2, 988) % 3953 == 3367);
    lemma_pow_mod_step(2, 988, 3953, 3367);
    assert(pow(2, 1976) % 3953 == 3438);
    assert forall|r: nat| r < 4 implies #[trigger] (pow(2, 247 * pow2(r)) % 3953) != 3952 by {
        assert(r == 0 || r == 1 || r == 2 || r == 3);
        if r == 0 {
            assert(247 * pow2(0) == 247);
        }
        if r == 1 {
            assert(247 * pow2(1) == 494);
        }
        if r == 2 {
            assert(247 * pow2(2) == 988);
        }
        if r == 3 {
            assert(247 * pow2(3) == 1976);
        }
    }
}

/// `4087` is not a strong probable prime to base `2`.
proof fn lemma_not_spp2_4087()
    ensures
        !strong_probable_prime(4087, 2),
{
    vstd::arithmetic::power2::lemma2_to64();
    lemma_two_adic_unique(4086, 1);
    assert(odd_part(4086) == 2043);
    lemma_pow1(2);
    lemma_pow_mod_step(2, 1, 4087, 2);
    assert(pow(2, 3) % 4087 == 8);
    lemma_pow_mod_step(2, 3, 4087, 8);
    assert(pow(2, 7) % 4087 == 128);
    lemma_pow_mod_step(2, 7, 4087, 128);
    assert(pow(2, 15) % 4087 == 72);
    lemma_pow_mod_step(2, 15, 4087, 72);
    assert(pow(2, 31) % 4087 == 2194);
    lemma_pow_mod_step(2, 31, 4087, 2194);
    assert(pow(2, 63) % 4087 == 2387);
    lemma_pow_mod_step(2, 63, 4087, 2387);
    assert(pow(2, 127) % 4087 == 982);
    lemma_pow_mod_step(2, 127, 4087, 982);
    assert(pow(2, 255) % 4087 == 3671);
    lemma_pow_mod_step(2, 255, 4087, 3671);
    assert(pow(2, 510) % 4087 == 1402);
    lemma_pow_mod_step(2, 510, 4087, 1402);
    assert(pow(2, 1021) % 4087 == 3601);
    lemma_pow_mod_step(2, 1021, 4087, 3601);
    assert(pow(2, 2043) % 4087 == 2387);
    assert forall|r: nat| r < 1 implies #[trigger] (pow(2, 2043 * pow2(r)) % 4087) != 4086 by {
        assert(r == 0);
        if r == 0 {
            assert(2043 * pow2(0) == 2043);
        }
    }
}

/// `4187` is not a strong probable prime to base `2`.
proof fn lemma_not_spp2_4187()
    ensures
        !strong_probable_prime(4187, 2),
{
    vstd::arithmetic::power2::lemma2_to64();
    lemma_two_adic_unique(4186, 1);
    assert(odd_part(4186) == 2093);
    lemma_pow1(2);
    lemma_pow_mod_step(2, 1, 4187, 2);
    assert(pow(2, 2) % 4187 == 4);
    lemma_pow_mod_step(2, 2, 4187, 4);
    assert(pow(2, 4) % 4187 == 16);
    lemma_pow_mod_step(2, 4, 4187, 16);
    assert(pow(2, 8) % 4187 == 256);
    lemma_pow_mod_step(2, 8, 4187, 256);
    assert(pow(2, 16) % 4187 == 2731);
    lemma_pow_mod_step(2, 16, 4187, 2731);
    assert(pow(2, 32) % 4187 == 1314);
    lemma_pow_mod_step(2, 32, 4187, 1314);
    assert(pow(2, 65) % 4187 == 3104);
    lemma_pow_mod_step(2, 65, 4187, 3104);
    assert(pow(2, 130) % 4187 == 529);
    lemma_pow_mod_step(2, 130, 4187, 529);
    assert(pow(2, 261) % 4187 == 2811);
    lemma_pow_mod_step(2, 261, 4187, 2811);
    assert(pow(2, 523) % 4187 == 1704);
    lemma_pow_mod_step(2, 523, 4187, 1704);
    assert(pow(2, 1046) % 4187 == 2025);
    lemma_pow_mod_step(2, 1046, 4187, 2025);
    assert(pow(2, 2093) % 4187 == 3104);
    assert forall|r: nat| r < 1 implies #[trigger] (pow(2, 2093 * pow2(r)) % 4187) != 4186 by {
        assert(r == 0);
        if r == 0 {
            assert(2093 * pow2(0) == 2093);
        }
    }
}

/// `4189` is not a strong probable prime to base `2`.
proof fn lemma_not_spp2_4189()
    ensures
        !strong_probable_prime(4189, 2),
{
    vstd::arithmetic::power2::lemma2_to64();
    lemma_two_adic_unique(4188, 2);
    assert(odd_part(4188) == 1047);
    lemma_pow1(2);
    lemma_pow_mod_step(2, 1, 4189, 2);
    assert(pow(2, 2) % 4189 == 4);
    lemma_pow_mod_step(2, 2, 4189, 4);
    assert(pow(2, 4) % 4189 == 16);
    lemma_pow_mod_step(2, 4, 4189, 16);
    assert(pow(2, 8) % 4189 == 256);
    lemma_pow_mod_step(2, 8, 4189, 256);
    assert(pow(2, 16) % 4189 == 2701);
    lemma_pow_mod_step(2, 16, 4189, 2701);
    assert(pow(2, 32) % 4189 == 2352);
    lemma_pow_mod_step(2, 32, 4189, 2352);
    assert(pow(2, 65) % 4189 == 659);
    lemma_pow_mod_step(2, 65, 4189, 659);
    assert(pow(2, 130) % 4189 == 2814);
    lemma_pow_mod_step(2, 130, 4189, 2814);
    assert(pow(2, 261) % 4189 == 2772);
    lemma_pow_mod_step(2, 261, 4189, 2772);
    assert(pow(2, 523) % 4189 == 2716);
    lemma_pow_mod_step(2, 523, 4189, 2716);
    assert(pow(2, 1047) % 4189 == 3843);
    lemma_pow_mod_step(2, 1047, 4189, 3843);
    assert(pow(2, 2094) % 4189 == 2424);
    assert forall|r: nat| r < 2 implies #[trigger] (pow(2, 1047 * pow2(r)) % 4189) != 4188 by {
        assert(r == 0 || r == 1);
        if r == 0 {
            assert(1047 * pow2(0) == 1047);
        }
        if r == 1 {
            assert(1047 * pow2(1) == 2094);
        }
    }
}

/// `4307` is not a strong probable prime to base `2`.
proof fn lemma_not_spp2_4307()
    ensures
        !strong_probable_prime(4307, 2),
{
    vstd::arithmetic::power2::lemma2_to64();
    lemma_two_adic_unique(4306, 1);
    assert(odd_part(4306) == 2153);
    lemma_pow1(2);
    lemma_pow_mod_step(2, 1, 4307, 2);
    assert(pow(2, 2) % 4307 == 4);
    lemma_pow_mod_step(2, 2, 4307, 4);
    assert(pow(2, 4) % 4307 == 16);
    lemma_pow_mod_step(2, 4, 4307, 16);
    assert(pow(2, 8) % 4307 == 256);
    lemma_pow_mod_step(2, 8, 4307, 256);
    assert(pow(2, 16) % 4307 == 931);
    lemma_pow_mod_step(2, 16, 4307, 931);
    assert(pow(2, 33) % 4307 == 2108);
    lemma_pow_mod_step(2, 33, 4307, 2108);
    assert(pow(2, 67) % 4307 == 1987);
    lemma_pow_mod_step(2, 67, 4307, 1987);
    assert(pow(2, 134) % 4307 == 2957);
    lemma_pow_mod_step(2, 134, 4307, 2957);
    assert(pow(2, 269) % 4307 == 1278);
    lemma_pow_mod_step(2, 269, 4307, 1278);
    assert(pow(2, 538) % 4307 == 931);
    lemma_pow_mod_step(2, 538, 4307, 931);
    assert(pow(2, 1076) % 4307 == 1054);
    lemma_pow_mod_step(2, 1076, 4307, 1054);
    assert(pow(2, 2153) % 4307 == 3727);
    assert forall|r: nat| r < 1 implies #[trigger] (pow(2, 2153 * pow2(r)) % 4307) != 4306 by {
        assert(r == 0);
        if r == 0 {
            assert(2153 * pow2(0) == 2153);
        }
    }
}

/// `4331` is not a strong probable prime to base `2`.
proof fn lemma_not_spp2_4331()
    ensures
        !strong_probable_prime(4331, 2),
{
    vstd::arithmetic::power2::lemma2_to64();
    lemma_two_adic_unique(4330, 1);
    assert(odd_part(4330) == 2165);
    lemma_pow1(2);
    lemma_pow_mod_step(2, 1, 4331, 2);
    assert(pow(2, 2) % 4331 == 4);
    lemma_pow_mod_step(2, 2, 4331, 4);
    assert(pow(2, 4) % 4331 == 16);
    lemma_pow_mod_step(2, 4, 4331, 16);
    assert(pow(2, 8) % 4331 == 256);
    lemma_pow_mod_step(2, 8, 4331, 256);
    assert(pow(2, 16) % 4331 == 571);
    lemma_pow_mod_step(2, 16, 4331, 571);
    assert(pow(2, 33) % 4331 == 2432);
    lemma_pow_mod_step(2, 33, 4331, 2432);
    assert(pow(2, 67) % 4331 == 1287);
    lemma_pow_mod_step(2, 67, 4331, 1287);
    assert(pow(2, 135) % 4331 == 3854);
    lemma_pow_mod_step(2, 135, 4331, 3854);
    assert(pow(2, 270) % 4331 == 2317);
    lemma_pow_mod_step(2, 270, 4331, 2317);
    assert(pow(2, 541) % 4331 == 429);
    lemma_pow_mod_step(2, 541, 4331, 429);
    assert(pow(2, 1082) % 4331 == 2139);
    lemma_pow_mod_step(2, 1082, 4331, 2139);
    assert(pow(2, 2165) % 4331 == 3570);
    assert forall|r: nat| r < 1 implies #[trigger] (pow(2, 2165 * pow2(r)) % 4331) != 4330 by {
        assert(r == 0);
        if r == 0 {
            assert(2165 * pow2(0) == 2165);
        }
    }
}

/// `4399` is not a strong probable prime to base `2`.
proof fn lemma_not_spp2_4399()
    ensures
        !strong_probable_prime(4399, 2),
{
    vstd::arithmetic::power2::lemma2_to64();
    lemma_two_adic_unique(4398, 1);
    assert(odd_part(4398) == 2199);
    lemma_pow1(2);
    lemma_pow_mod_step(2, 1, 4399, 2);
    assert(pow(2, 2) % 4399 == 4);
    lemma_pow_mod_step(2, 2, 4399, 4);
    assert(pow(2, 4) % 4399 == 16);
    lemma_pow_mod_step(2, 4, 4399, 16);
    assert(pow(2, 8) % 4399 == 256);
    lemma_pow_mod_step(2, 8, 4399, 256);
    assert(pow(2, 17) % 4399 == 3501);
    lemma_pow_mod_step(2, 17, 4399, 3501);
    assert(pow(2, 34) % 4399 == 1387);
    lemma_pow_mod_step(2, 34, 4399, 1387);
    assert(pow(2, 68) % 4399 == 1406);
    lemma_pow_mod_step(2, 68, 4399, 1406);
    assert(pow(2, 137) % 4399 == 3370);
    lemma_pow_mod_step(2, 137, 4399, 3370);
    assert(pow(2, 274) % 4399 == 3081);
    lemma_pow_mod_step(2, 274, 4399, 3081);
    assert(pow(2, 549) % 4399 == 3437);
    lemma_pow_mod_step(2, 549, 4399, 3437);
    assert(pow(2, 1099) % 4399 == 3308);
    lemma_pow_mod_step(2, 1099, 4399, 3308);
    assert(pow(2, 2199) % 4399 == 703);
    assert forall|r: nat| r < 1 implies #[trigger] (pow(2, 2199 * pow2(r)) % 4399) != 4398 by {
        assert(r == 0);
        if r == 0 {
            assert(2199 * pow2(0) == 2199);
        }
    }
}

/// `4453` is not a strong probable prime to base `2`.
proof fn lemma_not_spp2_4453()
    ensures
        !strong_probable_prime(4453, 2),
{
    vstd::arithmetic::power2::lemma2_to64();
    lemma_two_adic_unique(4452, 2);
    assert(odd_part(4452) == 1113);
    lemma_pow1(2);
    lemma_pow_mod_step(2, 1, 4453, 2);
    assert(pow(2, 2) % 4453 == 4);
    lemma_pow_mod_step(2, 2, 4453, 4);
    assert(pow(2, 4) % 4453 == 16);
    lemma_pow_mod_step(2, 4, 4453, 16);
    assert(pow(2, 8) % 4453 == 256);
    lemma_pow_mod_step(2, 8, 4453, 256);
    assert(pow(2, 17) % 4453 == 1935);
    lemma_pow_mod_step(2, 17, 4453, 1935);
    assert(pow(2, 34) % 4453 == 3705);
    lemma_pow_mod_step(2, 34, 4453, 3705);
    assert(pow(2, 69) % 4453 == 1305);
    lemma_pow_mod_step(2, 69, 4453, 1305);
    assert(pow(2, 139) % 4453 == 3958);
    lemma_pow_mod_step(2, 139, 4453, 3958);
    assert(pow(2, 278) % 4453 == 110);
    lemma_pow_mod_step(2, 278, 4453, 110);
    assert(pow(2, 556) % 4453 == 3194);
    lemma_pow_mod_step(2, 556, 4453, 3194);
    assert(pow(2, 1113) % 4453 == 4079);
    lemma_pow_mod_step(2, 1113, 4453, 4079);
    assert(pow(2, 2226) % 4453 == 1833);
    assert forall|r: nat| r < 2 implies #[trigger] (pow(2, 1113 * pow2(r)) % 4453) != 4452 by {
        assert(r == 0 || r == 1);
        if r == 0 {
            assert(1113 * pow2(0) == 1113);
        }
        if r == 1 {
            assert(1113 * pow2(1) == 2226);
        }
    }
}

/// `4489` is not a strong probable prime to base `2`.
proof fn lemma_not_spp2_4489()
    ensures
        !strong_probable_prime(4489, 2),
{
    vstd::arithmetic::power2::lemma2_to64();
    lemma_two_adic_unique(4488, 3);
    assert(odd_part(4488) == 561);
    lemma_pow1(2);
    lemma_pow_mod_step(2, 1, 4489, 2);
    assert(pow(2, 2) % 4489 == 4);
    lemma_pow_mod_step(2, 2, 4489, 4);
    assert(pow(2, 4) % 4489 == 16);
    lemma_pow_mod_step(2, 4, 4489, 16);
    assert(pow(2, 8) % 4489 == 256);
    lemma_pow_mod_step(2, 8, 4489, 256);
    assert(pow(2, 17) % 4489 == 891);
    lemma_pow_mod_step(2, 17, 4489, 891);
    assert(pow(2, 35) % 4489 == 3145);
    lemma_pow_mod_step(2, 35, 4489, 3145);
    assert(pow(2, 70) % 4489 == 1758);
    lemma_pow_mod_step(2, 70, 4489, 1758);
    assert(pow(2, 140) % 4489 == 2132);
    lemma_pow_mod_step(2, 140, 4489, 2132);
    assert(pow(2, 280) % 4489 == 2556);
    lemma_pow_mod_step(2, 280, 4489, 2556);
    assert(pow(2, 561) % 4489 == 3282);
    lemma_pow_mod_step(2, 561, 4489, 3282);
    assert(pow(2, 1122) % 4489 == 2413);
    lemma_pow_mod_step(2, 1122, 4489, 2413);
    assert(pow(2, 2244) % 4489 == 336);
    assert forall|r: nat| r < 3 implies #[trigger] (pow(2, 561 * pow2(r)) % 4489) != 4488 by {
        assert(r == 0 || r == 1 || r == 2);
        if r == 0 {
            assert(561 * pow2(0) == 561);
        }
        if r == 1 {
            assert(561 * pow2(1) == 1122);
        }
        if r == 2 {
            assert(561 * pow2(2) == 2244);
        }
    }
}

/// `4661` is not a strong probable prime to base `2`.
proof fn lemma_not_spp2_4661()
    ensures
        !strong_probable_prime(4661, 2),
{
    vstd::arithmetic::power2::lemma2_to64();
    lemma_two_adic_unique(4660, 2);
    assert(odd_part(4660) == 1165);
    lemma_pow1(2);
    lemma_pow_mod_step(2, 1, 4661, 2);
    assert(pow(2, 2) % 4661 == 4);
    lemma_pow_mod_step(2, 2, 4661, 4);
    assert(pow(2, 4) % 4661 == 16);
    lemma_pow_mod_step(2, 4, 4661, 16);
    assert(pow(2, 9) % 4661 == 512);
    lemma_pow_mod_step(2, 9, 4661, 512);
    assert(pow(2, 18) % 4661 == 1128);
    lemma_pow_mod_step(2, 18, 4661, 1128);
    assert(pow(2, 36) % 4661 == 4592);
    lemma_pow_mod_step(2, 36, 4661, 4592);
    assert(pow(2, 72) % 4661 == 100);
    lemma_pow_mod_step(2, 72, 4661, 100);
    assert(pow(2, 145) % 4661 == 1356);
    lemma_pow_mod_step(2, 145, 4661, 1356);
    assert(pow(2, 291) % 4661 == 4604);
    lemma_pow_mod_step(2, 291, 4661, 4604);
    assert(pow(2, 582) % 4661 == 3249);
    lemma_pow_mod_step(2, 582, 4661, 3249);
    assert(pow(2, 1165) % 4661 == 2333);
    lemma_pow_mod_step(2, 1165, 4661, 2333);
    assert(pow(2, 2330) % 4661 == 3502);
    assert forall|r: nat| r < 2 implies #[trigger] (pow(2, 1165 * pow2(r)) % 4661) != 4660 by {
        assert(r == 0 || r == 1);
        if r == 0 {
            assert(1165 * pow2(0) == 1165);
        }
        if r == 1 {
            assert(1165 * pow2(1) == 2330);
        }
    }
}

/// `4717` is not a strong probable prime to base `2`.
proof fn lemma_not_spp2_4717()
    ensures
        !strong_probable_prime(4717, 2),
{
    vstd::arithmetic::power2::lemma2_to64();
    lemma_two_adic_unique(4716, 2);
    assert(odd_part(4716) == 1179);
    lemma_pow1(2);
    lemma_pow_mod_step(2, 1, 4717, 2);
    assert(pow(2, 2) % 4717 == 4);
    lemma_pow_mod_step(2, 2, 4717, 4);
    assert(pow(2, 4) % 4717 == 16);
    lemma_pow_mod_step(2, 4, 4717, 16);
    assert(pow(2, 9) % 4717 == 512);
    lemma_pow_mod_step(2, 9, 4717, 512);
    assert(pow(2, 18) % 4717 == 2709);
    lemma_pow_mod_step(2, 18, 4717, 2709);
    assert(pow(2, 36) % 4717 == 3746);
    lemma_pow_mod_step(2, 36, 4717, 3746);
    assert(pow(2, 73) % 4717 == 3599);
    lemma_pow_mod_step(2, 73, 4717, 3599);
    assert(pow(2, 147) % 4717 == 4555);
    lemma_pow_mod_step(2, 147, 4717, 4555);
    assert(pow(2, 294) % 4717 == 2659);
    lemma_pow_mod_step(2, 294, 4717, 2659);
    assert(pow(2, 589) % 4717 == 3713);
    lemma_pow_mod_step(2, 589, 4717, 3713);
    assert(pow(2, 1179) % 4717 == 1873);
    lemma_pow_mod_step(2, 1179, 4717, 1873);
    assert(pow(2, 2358) % 4717 == 3398);
    assert forall|r: nat| r < 2 implies #[trigger] (pow(2, 1179 * pow2(r)) % 4717) != 4716 by {
        assert(r == 0 || r == 1);
        if r == 0 {
            assert(1179 * pow2(0) == 1179);
        }
        if r == 1 {
            assert(1179 * pow2(1) == 2358);
        }
    }
}

/// `4757` is not a strong probable prime to base `2`.
proof fn lemma_not_spp2_4757()
    ensures
        !strong_probable_prime(4757, 2),
{
    vstd::arithmetic::power2::lemma2_to64();
    lemma_two_adic_unique(4756, 2);
    assert(odd_part(4756) == 1189);
    lemma_pow1(2);
    lemma_pow_mod_step(2, 1, 4757, 2);
    assert(pow(2, 2) % 4757 == 4);
    lemma_pow_mod_step(2, 2, 4757, 4);
    assert(pow(2, 4) % 4757 == 16);
    lemma_pow_mod_step(2, 4, 4757, 16);
    assert(pow(2, 9) % 4757 == 512);
    lemma_pow_mod_step(2, 9, 4757, 512);
    assert(pow(2, 18) % 4757 == 509);
    lemma_pow_mod_step(2, 18, 4757, 509);
    assert(pow(2, 37) % 4757 == 4406);
    lemma_pow_mod_step(2, 37, 4757, 4406);
    assert(pow(2, 74) % 4757 == 4276);
    lemma_pow_mod_step(2, 74, 4757, 4276);
    assert(pow(2, 148) % 4757 == 3025);
    lemma_pow_mod_step(2, 148, 4757, 3025);
    assert(pow(2, 297) % 4757 == 1071);
    lemma_pow_mod_step(2, 297, 4757, 1071);
    assert(pow(2, 594) % 4757 == 604);
    lemma_pow_mod_step(2, 594, 4757, 604);
    assert(pow(2, 1189) % 4757 == 1811);
    lemma_pow_mod_step(2, 1189, 4757, 1811);
    assert(pow(2, 2378) % 4757 == 2148);
    assert forall|r: nat| r < 2 implies #[trigger] (pow(2, 1189 * pow2(r)) % 4757) != 4756 by {
        assert(r == 0 || r == 1);
        if r == 0 {
            assert(1189 * pow2(0) == 1189);
        }
        if r == 1 {
            assert(1189 * pow2(1) == 2378);
        }
    }
}

/// `4819` is not a strong probable prime to base `2`.
proof fn lemma_not_spp2_4819()
    ensures
        !strong_probable_prime(4819, 2),
{
    vstd::arithmetic::power2::lemma2_to64();
    lemma_two_adic_unique(4818, 1);
    assert(odd_part(4818) == 2409);
    lemma_pow1(2);
    lemma_pow_mod_step(2, 1, 4819, 2);
    assert(pow(2, 2) % 4819 == 4);
    lemma_pow_mod_step(2, 2, 4819, 4);
    assert(pow(2, 4) % 4819 == 16);
    lemma_pow_mod_step(2, 4, 4819, 16);
    assert(pow(2, 9) % 4819 == 512);
    lemma_pow_mod_step(2, 9, 4819, 512);
    assert(pow(2, 18) % 4819 == 1918);
    lemma_pow_mod_step(2, 18, 4819, 1918);
    assert(pow(2, 37) % 4819 == 3654);
    lemma_pow_mod_step(2, 37, 4819, 3654);
    assert(pow(2, 75) % 4819 == 1353);
    lemma_pow_mod_step(2, 75, 4819, 1353);
    assert(pow(2, 150) % 4819 == 4208);
    lemma_pow_mod_step(2, 150, 4819, 4208);
    assert(pow(2, 301) % 4819 == 4516);
    lemma_pow_mod_step(2, 301, 4819, 4516);
    assert(pow(2, 602) % 4819 == 248);
    lemma_pow_mod_step(2, 602, 4819, 248);
    assert(pow(2, 1204) % 4819 == 3676);
    lemma_pow_mod_step(2, 1204, 4819, 3676);
    assert(pow(2, 2409) % 4819 == 1000);
    assert forall|r: nat| r < 1 implies #[trigger] (pow(2, 2409 * pow2(r)) % 4819) != 4818 by {
        assert(r == 0);
        if r == 0 {
            assert(2409 * pow2(0) == 2409);
        }
    }
}

/// `4891` is not a strong probable prime to base `2`.
proof fn lemma_not_spp2_4891()
    ensures
        !strong_probable_prime(4891, 2),
{
    vstd::arithmetic::power2::lemma2_to64();
    lemma_two_adic_unique(4890, 1);
    assert(odd_part(4890) == 2445);
    lemma_pow1(2);
    lemma_pow_mod_step(2, 1, 4891, 2);
    assert(pow(2, 2) % 4891 == 4);
    lemma_pow_mod_step(2, 2, 4891, 4);
    assert(pow(2, 4) % 4891 == 16);
    lemma_pow_mod_step(2, 4, 4891, 16);
    assert(pow(2, 9) % 4891 == 512);
    lemma_pow_mod_step(2, 9, 4891, 512);
    assert(pow(2, 19) % 4891 == 951);
    lemma_pow_mod_step(2, 19, 4891, 951);
    assert(pow(2, 38) % 4891 == 4457);
    lemma_pow_mod_step(2, 38, 4891, 4457);
    assert(pow(2, 76) % 4891 == 2498);
    lemma_pow_mod_step(2, 76, 4891, 2498);
    assert(pow(2, 152) % 4891 == 3979);
    lemma_pow_mod_step(2, 152, 4891, 3979);
    assert(pow(2, 305) % 4891 == 548);
    lemma_pow_mod_step(2, 305, 4891, 548);
    assert(pow(2, 611) % 4891 == 3906);
    lemma_pow_mod_step(2, 611, 4891, 3906);
    assert(pow(2, 1222) % 4891 == 1807);
    lemma_pow_mod_step(2, 1222, 4891, 1807);
    assert(pow(2, 2445) % 4891 == 1013);
    assert forall|r: nat| r < 1 implies #[trigger] (pow(2, 2445 * pow2(r)) % 4891) != 4890 by {
        assert(r == 0);
        if r == 0 {
            assert(2445 * pow2(0) == 2445);
        }
    }
}

/// `4897` is not a strong probable prime to base `2`.
proof fn lemma_not_spp2_4897()
    ensures
        !strong_probable_prime(4897, 2),
{
    vstd::arithmetic::power2::lemma2_to64();
    lemma_two_adic_unique(4896, 5);
    assert(odd_part(4896) == 153);
    lemma_pow1(2);
    lemma_pow_mod_step(2, 1, 4897, 2);
    assert(pow(2, 2) % 4897 == 4);
    lemma_pow_mod_step(2, 2, 4897, 4);
    assert(pow(2, 4) % 4897 == 16);
    lemma_pow_mod_step(2, 4, 4897, 16);
    assert(pow(2, 9) % 4897 == 512);
    lemma_pow_mod_step(2, 9, 4897, 512);
    assert(pow(2, 19) % 4897 == 309);
    lemma_pow_mod_step(2, 19, 4897, 309);
    assert(pow(2, 38) % 4897 == 2438);
    lemma_pow_mod_step(2, 38, 4897, 2438);
    assert(pow(2, 76) % 4897 == 3783);
    lemma_pow_mod_step(2, 76, 4897, 3783);
    assert(pow(2, 153) % 4897 == 4110);
    lemma_pow_mod_step(2, 153, 4897, 4110);
    assert(pow(2, 306) % 4897 == 2347);
    lemma_pow_mod_step(2, 306, 4897, 2347);
    assert(pow(2, 612) % 4897 == 4181);
    lemma_pow_mod_step(2, 612, 4897, 4181);
    assert(pow(2, 1224) % 4897 == 3368);
    lemma_pow_mod_step(2, 1224, 4897, 3368);
    assert(pow(2, 2448) % 4897 == 1972);
    assert forall|r: nat| r < 5 implies #[trigger] (pow(2, 153 * pow2(r)) % 4897) != 4896 by {
        assert(r == 0 || r == 1 || r == 2 || r == 3 || r == 4);
        if r == 0 {
            assert(153 * pow2(0) == 153);
        }
        if r == 1 {
            assert(153 * pow2(1) == 306);
        }
        if r == 2 {
            assert(153 * pow2(2) == 612);
        }
        if r == 3 {
            assert(153 * pow2(3) == 1224);
        }
        if r == 4 {
            assert(153 * pow2(4) == 2448);
        }
    }
}

/// `5041` is not a strong probable prime to base `2`.
proof fn lemma_not_spp2_5041()
    ensures
        !strong_probable_prime(5041, 2),
{
    vstd::arithmetic::power2::lemma2_to64();
    lemma_two_adic_unique(5040, 4);
    assert(odd_part(5040) == 315);
    lemma_pow1(2);
    lemma_pow_mod_step(2, 1, 5041, 2);
    assert(pow(2, 2) % 5041 == 4);
    lemma_pow_mod_step(2, 2, 5041, 4);
    assert(pow(2, 4) % 5041 == 16);
    lemma_pow_mod_step(2, 4, 5041, 16);
    assert(pow(2, 9) % 5041 == 512);
    lemma_pow_mod_step(2, 9, 5041, 512);
    assert(pow(2, 19) % 5041 == 24);
    lemma_pow_mod_step(2, 19, 5041, 24);
    assert(pow(2, 39) % 5041 == 1152);
    lemma_pow_mod_step(2, 39, 5041, 1152);
    assert(pow(2, 78) % 5041 == 1321);
    lemma_pow_mod_step(2, 78, 5041, 1321);
    assert(pow(2, 157) % 5041 == 1710);
    lemma_pow_mod_step(2, 157, 5041, 1710);
    assert(pow(2, 315) % 5041 == 640);
    lemma_pow_mod_step(2, 315, 5041, 640);
    assert(pow(2, 630) % 5041 == 1279);
    lemma_pow_mod_step(2, 630, 5041, 1279);
    assert(pow(2, 1260) % 5041 == 2557);
    lemma_pow_mod_step(2, 1260, 5041, 2557);
    assert(pow(2, 2520) % 5041 == 72);
    assert forall|r: nat| r < 4 implies #[trigger] (pow(2, 315 * pow2(r)) % 5041) != 5040 by {
        assert(r == 0 || r == 1 || r == 2 || r == 3);
        if r == 0 {
            assert(315 * pow2(0) == 315);
        }
        if r == 1 {
            assert(315 * pow2(1) == 630);
        }
        if r == 2 {
            assert(315 * pow2(2) == 1260);
        }
        if r == 3 {
            assert(315 * pow2(3) == 2520);
        }
    }
}

/// `5063` is not a strong probable prime to base `2`.
proof fn lemma_not_spp2_5063()
    ensures
        !strong_probable_prime(5063, 2),
{
    vstd::arithmetic::power2::lemma2_to64();
    lemma_two_adic_unique(5062, 1);
    assert(odd_part(5062) == 2531);
    lemma_pow1(2);
    lemma_pow_mod_step(2, 1, 5063, 2);
    assert(pow(2, 2) % 5063 == 4);
    lemma_pow_mod_step(2, 2, 5063, 4);
    assert(pow(2, 4) % 5063 == 16);
    lemma_pow_mod_step(2, 4, 5063, 16);
    assert(pow(2, 9) % 5063 == 512);
    lemma_pow_mod_step(2, 9, 5063, 512);
    assert(pow(2, 19) % 5063 == 2799);
    lemma_pow_mod_step(2, 19, 5063, 2799);
    assert(pow(2, 39) % 5063 == 3880);
    lemma_pow_mod_step(2, 39, 5063, 3880);
    assert(pow(2, 79) % 5063 == 4202);
    lemma_pow_mod_step(2, 79, 5063, 4202);
    assert(pow(2, 158) % 5063 == 2123);
    lemma_pow_mod_step(2, 158, 5063, 2123);
    assert(pow(2, 316) % 5063 == 1059);
    lemma_pow_mod_step(2, 316, 5063, 1059);
    assert(pow(2, 632) % 5063 == 2558);
    lemma_pow_mod_step(2, 632, 5063, 2558);
    assert(pow(2, 1265) % 5063 == 3936);
    lemma_pow_mod_step(2, 1265, 5063, 3936);
    assert(pow(2, 2531) % 5063 == 3695);
    assert forall|r: nat| r < 1 implies #[trigger] (pow(2, 2531 * pow2(r)) % 5063) != 5062 by {
        assert(r == 0);
        if r == 0 {
            assert(2531 * pow2(0) == 2531);
        }
    }
}

/// `5141` is not a strong probable prime to base `2`.
proof fn lemma_not_spp2_5141()
    ensures
        !strong_probable_prime(5141, 2),
{
    vstd::arithmetic::power2::lemma2_to64();
    lemma_two_adic_unique(5140, 2);
    assert(odd_part(5140) == 1285);
    lemma_pow1(2);
    lemma_pow_mod_step(2, 1, 5141, 2);
    assert(pow(2, 2) % 5141 == 4);
    lemma_pow_mod_step(2, 2, 5141, 4);
    assert(pow(2, 5) % 5141 == 32);
    lemma_pow_mod_step(2, 5, 5141, 32);
    assert(pow(2, 10) % 5141 == 1024);
    lemma_pow_mod_step(2, 10, 5141, 1024);
    assert(pow(2, 20) % 5141 == 4953);
    lemma_pow_mod_step(2, 20, 5141, 4953);
    assert(pow(2, 40) % 5141 == 4498);
    lemma_pow_mod_step(2, 40, 5141, 4498);
    assert(pow(2, 80) % 5141 == 2169);
    lemma_pow_mod_step(2, 80, 5141, 2169);
    assert(pow(2, 160) % 5141 == 546);
    lemma_pow_mod_step(2, 160, 5141, 546);
    assert(pow(2, 321) % 5141 == 5017);
    lemma_pow_mod_step(2, 321, 5141, 5017);
    assert(pow(2, 642) % 5141 == 5094);
    lemma_pow_mod_step(2, 642, 5141, 5094);
    assert(pow(2, 1285) % 5141 == 4418);
    lemma_pow_mod_step(2, 1285, 5141, 4418);
    assert(pow(2, 2570) % 5141 == 3488);
    assert forall|r: nat| r < 2 implies #[trigger] (pow(2, 1285 * pow2(r)) % 5141) != 5140 by {
        assert(r == 0 || r == 1);
        if r == 0 {
            assert(1285 * pow2(0) == 1285);
        }
        if r == 1 {
            assert(1285 * pow2(1) == 2570);
        }
    }
}

/// `5183` is not a strong probable prime to base `2`.
proof fn lemma_not_spp2_5183()
    ensures
        !strong_probable_prime(5183, 2),
{
    vstd::arithmetic::power2::lemma2_to64();
    lemma_two_adic_unique(5182, 1);
    assert(odd_part(5182) == 2591);
    lemma_pow1(2);
    lemma_pow_mod_step(2, 1, 5183, 2);
    assert(pow(2, 2) % 5183 == 4);
    lemma_pow_mod_step(2, 2, 5183, 4);
    assert(pow(2, 5) % 5183 == 32);
    lemma_pow_mod_step(2, 5, 5183, 32);
    assert(pow(2, 10) % 5183 == 1024);
    lemma_pow_mod_step(2, 10, 5183, 1024);
    assert(pow(2, 20) % 5183 == 1610);
    lemma_pow_mod_step(2, 20, 5183, 1610);
    assert(pow(2, 40) % 5183 == 600);
    lemma_pow_mod_step(2, 40, 5183, 600);
    assert(pow(2, 80) % 5183 == 2373);
    lemma_pow_mod_step(2, 80, 5183, 2373);
    assert(pow(2, 161) % 5183 == 4782);
    lemma_pow_mod_step(2, 161, 5183, 4782);
    assert(pow(2, 323) % 5183 == 256);
    lemma_pow_mod_step(2, 323, 5183, 256);
    assert(pow(2, 647) % 5183 == 1497);
    lemma_pow_mod_step(2, 647, 5183, 1497);
    assert(pow(2, 1295) % 5183 == 3906);
    lemma_pow_mod_step(2, 1295, 5183, 3906);
    assert(pow(2, 2591) % 5183 == 1351);
    assert forall|r: nat| r < 1 implies #[trigger] (pow(2, 2591 * pow2(r)) % 5183) != 5182 by {
        assert(r == 0);
        if r == 0 {
            assert(2591 * pow2(0) == 2591);
        }
    }
}

/// `5251` is not a strong probable prime to base `2`.
proof fn lemma_not_spp2_5251()
    ensures
        !strong_probable_prime(5251, 2),
{
    vstd::arithmetic::power2::lemma2_to64();
    lemma_two_adic_unique(5250, 1);
    assert(odd_part(5250) == 2625);
    lemma_pow1(2);
    lemma_pow_mod_step(2, 1, 5251, 2);
    assert(pow(2, 2) % 5251 == 4);
    lemma_pow_mod_step(2, 2, 5251, 4);
    assert(pow(2, 5) % 5251 == 32);
    lemma_pow_mod_step(2, 5, 5251, 32);
    assert(pow(2, 10) % 5251 == 1024);
    lemma_pow_mod_step(2, 10, 5251, 1024);
    assert(pow(2, 20) % 5251 == 3627);
    lemma_pow_mod_step(2, 20, 5251, 3627);
    assert(pow(2, 41) % 5251 == 2748);
    lemma_pow_mod_step(2, 41, 5251, 2748);
    assert(pow(2, 82) % 5251 == 566);
    lemma_pow_mod_step(2, 82, 5251, 566);
    assert(pow(2, 164) % 5251 == 45);
    lemma_pow_mod_step(2, 164, 5251, 45);
    assert(pow(2, 328) % 5251 == 2025);
    lemma_pow_mod_step(2, 328, 5251, 2025);
    assert(pow(2, 656) % 5251 == 4845);
    lemma_pow_mod_step(2, 656, 5251, 4845);
    assert(pow(2, 1312) % 5251 == 2055);
    lemma_pow_mod_step(2, 1312, 5251, 2055);
    assert(pow(2, 2625) % 5251 == 2442);
    assert forall|r: nat| r < 1 implies #[trigger] (pow(2, 2625 * pow2(r)) % 5251) != 5250 by {
        assert(r == 0);
        if r == 0 {
            assert(2625 * pow2(0) == 2625);
        }
    }
}

/// `5293` is not a strong probable prime to base `2`.
proof fn lemma_not_spp2_5293()
    ensures
        !strong_probable_prime(5293, 2),
{
    vstd::arithmetic::power2::lemma2_to64();
    lemma_two_adic_unique(5292, 2);
    assert(odd_part(5292) == 1323);
    lemma_pow1(2);
    lemma_pow_mod_step(2, 1, 5293, 2);
    assert(pow(2, 2) % 5293 == 4);
    lemma_pow_mod_step(2, 2, 5293, 4);
    assert(pow(2, 5) % 5293 == 32);
    lemma_pow_mod_step(2, 5, 5293, 32);
    assert(pow(2, 10) % 5293 == 1024);
    lemma_pow_mod_step(2, 10, 5293, 1024);
    assert(pow(2, 20) % 5293 == 562);
    lemma_pow_mod_step(2, 20, 5293, 562);
    assert(pow(2, 41) % 5293 == 1821);
    lemma_pow_mod_step(2, 41, 5293, 1821);
    assert(pow(2, 82) % 5293 == 2623);
    lemma_pow_mod_step(2, 82, 5293, 2623);
    assert(pow(2, 165) % 5293 == 3751);
    lemma_pow_mod_step(2, 165, 5293, 3751);
    assert(pow(2, 330) % 5293 == 1207);
    lemma_pow_mod_step(2, 330, 5293, 1207);
    assert(pow(2, 661) % 5293 == 2548);
    lemma_pow_mod_step(2, 661, 5293, 2548);
    assert(pow(2, 1323) % 5293 == 879);
    lemma_pow_mod_step(2, 1323, 5293, 879);
    assert(pow(2, 2646) % 5293 == 5156);
    assert forall|r: nat| r < 2 implies #[trigger] (pow(2, 1323 * pow2(r)) % 5293) != 5292 by {
        assert(r == 0 || r == 1);
        if r == 0 {
            assert(1323 * pow2(0) == 1323);
        }
        if r == 1 {
            assert(1323 * pow2(1) == 2646);
        }
    }
}

/// `5329` is not a strong probable prime to base `2`.
proof fn lemma_not_spp2_5329()
    ensures
        !strong_probable_prime(5329, 2),
{
    vstd::arithmetic::power2::lemma2_to64();
    lemma_two_adic_unique(5328, 4);
    assert(odd_part(5328) == 333);
    lemma_pow1(2);
    lemma_pow_mod_step(2, 1, 5329, 2);
    assert(pow(2, 2) % 5329 == 4);
    lemma_pow_mod_step(2, 2, 5329, 4);
    assert(pow(2, 5) % 5329 == 32);
    lemma_pow_mod_step(2, 5, 5329, 32);
    assert(pow(2, 10) % 5329 == 1024);
    lemma_pow_mod_step(2, 10, 5329, 1024);
    assert(pow(2, 20) % 5329 == 4092);
    lemma_pow_mod_step(2, 20, 5329, 4092);
    assert(pow(2, 41) % 5329 == 1492);
    lemma_pow_mod_step(2, 41, 5329, 1492);
    assert(pow(2, 83) % 5329 == 2413);
    lemma_pow_mod_step(2, 83, 5329, 2413);
    assert(pow(2, 166) % 5329 == 3301);
    lemma_pow_mod_step(2, 166, 5329, 3301);
    assert(pow(2, 333) % 5329 == 2921);
    lemma_pow_mod_step(2, 333, 5329, 2921);
    assert(pow(2, 666) % 5329 == 512);
    lemma_pow_mod_step(2, 666, 5329, 512);
    assert(pow(2, 1332) % 5329 == 1023);
    lemma_pow_mod_step(2, 1332, 5329, 1023);
    assert(pow(2, 2664) % 5329 == 2045);
    assert forall|r: nat| r < 4 implies #[trigger] (pow(2, 333 * pow2(r)) % 5329) != 5328 by {
        assert(r == 0 || r == 1 || r == 2 || r == 3);
        if r == 0 {
            assert(333 * pow2(0) == 333);
        }
        if r == 1 {
            assert(333 * pow2(1) == 666);
        }
        if r == 2 {
            assert(333 * pow2(2) == 1332);
        }
        if r == 3 {
            assert(333 * pow2(3) == 2664);
        }
    }
}

/// `5353` is not a strong probable prime to base `2`.
proof fn lemma_not_spp2_5353()
    ensures
        !strong_probable_prime(5353, 2),
{
    vstd::arithmetic::power2::lemma2_to64();
    lemma_two_adic_unique(5352, 3);
    assert(odd_part(5352) == 669);
    lemma_pow1(2);
    lemma_pow_mod_step(2, 1, 5353, 2);
    assert(pow(2, 2) % 5353 == 4);
    lemma_pow_mod_step(2, 2, 5353, 4);
    assert(pow(2, 5) % 5353 == 32);
    lemma_pow_mod_step(2, 5, 5353, 32);
    assert(pow(2, 10) % 5353 == 1024);
    lemma_pow_mod_step(2, 10, 5353, 1024);
    assert(pow(2, 20) % 5353 == 4741);
    lemma_pow_mod_step(2, 20, 5353, 4741);
    assert(pow(2, 41) % 5353 == 5021);
    lemma_pow_mod_step(2, 41, 5353, 5021);
    assert(pow(2, 83) % 5353 == 975);
    lemma_pow_mod_step(2, 83, 5353, 975);
    assert(pow(2, 167) % 5353 == 935);
    lemma_pow_mod_step(2, 167, 5353, 935);
    assert(pow(2, 334) % 5353 == 1686);
    lemma_pow_mod_step(2, 334, 5353, 1686);
    assert(pow(2, 669) % 5353 == 306);
    lemma_pow_mod_step(2, 669, 5353, 306);
    assert(pow(2, 1338) % 5353 == 2635);
    lemma_pow_mod_step(2, 1338, 5353, 2635);
    assert(pow(2, 2676) % 5353 == 384);
    assert forall|r: nat| r < 3 implies #[trigger] (pow(2, 669 * pow2(r)) % 5353) != 5352 by {
        assert(r == 0 || r == 1 || r == 2);
        if r == 0 {
            assert(669 * pow2(0) == 669);
        }
        if r == 1 {
            assert(669 * pow2(1) == 1338);
        }
        if r == 2 {
            assert(669 * pow2(2) == 2676);
        }
    }
}

/// `5429` is not a strong probable prime to base `2`.
proof fn lemma_not_spp2_5429()
    ensures
        !strong_probable_prime(5429, 2),
{
    vstd::arithmetic::power2::lemma2_to64();
    lemma_two_adic_unique(5428, 2);
    assert(odd_part(5428) == 1357);
    lemma_pow1(2);
    lemma_pow_mod_step(2, 1, 5429, 2);
    assert(pow(2, 2) % 5429 == 4);
    lemma_pow_mod_step(2, 2, 5429, 4);
    assert(pow(2, 5) % 5429 == 32);
    lemma_pow_mod_step(2, 5, 5429, 32);
    assert(pow(2, 10) % 5429 == 1024);
    lemma_pow_mod_step(2, 10, 5429, 1024);
    assert(pow(2, 21) % 5429 == 1558);
    lemma_pow_mod_step(2, 21, 5429, 1558);
    assert(pow(2, 42) % 5429 == 601);
    lemma_pow_mod_step(2, 42, 5429, 601);
    assert(pow(2, 84) % 5429 == 2887);
    lemma_pow_mod_step(2, 84, 5429, 2887);
    assert(pow(2, 169) % 5429 == 2508);
    lemma_pow_mod_step(2, 169, 5429, 2508);
    assert(pow(2, 339) % 5429 == 1135);
    lemma_pow_mod_step(2, 339, 5429, 1135);
    assert(pow(2, 678) % 5429 == 1552);
    lemma_pow_mod_step(2, 678, 5429, 1552);
    assert(pow(2, 1357) % 5429 == 1885);
    lemma_pow_mod_step(2, 1357, 5429, 1885);
    assert(pow(2, 2714) % 5429 == 2659);
    assert forall|r: nat| r < 2 implies #[trigger] (pow(2, 1357 * pow2(r)) % 5429) != 5428 by {
        assert(r == 0 || r == 1);
        if r == 0 {
            assert(1357 * pow2(0) == 1357);
        }
        if r == 1 {
            assert(1357 * pow2(1) == 2714);
        }
    }
}

/// `5459` is not a strong probable prime to base `2`.
proof fn lemma_not_spp2_5459()
    ensures
        !strong_probable_prime(5459, 2),
{
    vstd::arithmetic::power2::lemma2_to64();
    lemma_two_adic_unique(5458, 1);
    assert(odd_part(5458) == 2729);
    lemma_pow1(2);
    lemma_pow_mod_step(2, 1, 5459, 2);
    assert(pow(2, 2) % 5459 == 4);
    lemma_pow_mod_step(2, 2, 5459, 4);
    assert(pow(2, 5) % 5459 == 32);
    lemma_pow_mod_step(2, 5, 5459, 32);
    assert(pow(2, 10) % 5459 == 1024);
    lemma_pow_mod_step(2, 10, 5459, 1024);
    assert(pow(2, 21) % 5459 == 896);
    lemma_pow_mod_step(2, 21, 5459, 896);
    assert(pow(2, 42) % 5459 == 343);
    lemma_pow_mod_step(2, 42, 5459, 343);
    assert(pow(2, 85) % 5459 == 561);
    lemma_pow_mod_step(2, 85, 5459, 561);
    assert(pow(2, 170) % 5459 == 3558);
    lemma_pow_mod_step(2, 170, 5459, 3558);
    assert(pow(2, 341) % 5459 == 5345);
    lemma_pow_mod_step(2, 341, 5459, 5345);
    assert(pow(2, 682) % 5459 == 2078);
    lemma_pow_mod_step(2, 682, 5459, 2078);
    assert(pow(2, 1364) % 5459 == 15);
    lemma_pow_mod_step(2, 1364, 5459, 15);
    assert(pow(2, 2729) % 5459 == 450);
    assert forall|r: nat| r < 1 implies #[trigger] (pow(2, 2729 * pow2(r)) % 5459) != 5458 by {
        assert(r == 0);
        if r == 0 {
            assert(2729 * pow2(0) == 2729);
        }
    }
}

/// `5561` is not a strong probable prime to base `2`.
proof fn lemma_not_spp2_5561()
    ensures
        !strong_probable_prime(5561, 2),
{
    vstd::arithmetic::power2::lemma2_to64();
    lemma_two_adic_unique(5560, 3);
    assert(odd_part(5560) == 695);
    lemma_pow1(2);
    lemma_pow_mod_step(2, 1, 5561, 2);
    assert(pow(2, 2) % 5561 == 4);
    lemma_pow_mod_step(2, 2, 5561, 4);
    assert(pow(2, 5) % 5561 == 32);
    lemma_pow_mod_step(2, 5, 5561, 32);
    assert(pow(2, 10) % 5561 == 1024);
    lemma_pow_mod_step(2, 10, 5561, 1024);
    assert(pow(2, 21) % 5561 == 655);
    lemma_pow_mod_step(2, 21, 5561, 655);
    assert(pow(2, 43) % 5561 == 1656);
    lemma_pow_mod_step(2, 43, 5561, 1656);
    assert(pow(2, 86) % 5561 == 763);
    lemma_pow_mod_step(2, 86, 5561, 763);
    assert(pow(2, 173) % 5561 == 2089);
    lemma_pow_mod_step(2, 173, 5561, 2089);
    assert(pow(2, 347) % 5561 == 2633);
    lemma_pow_mod_step(2, 347, 5561, 2633);
    assert(pow(2, 695) % 5561 == 1805);
    lemma_pow_mod_step(2, 695, 5561, 1805);
    assert(pow(2, 1390) % 5561 == 4840);
    lemma_pow_mod_step(2, 1390, 5561, 4840);
    assert(pow(2, 2780) % 5561 == 2668);
    assert forall|r: nat| r < 3 implies #[trigger] (pow(2, 695 * pow2(r)) % 5561) != 5560 by {
        assert(r == 0 || r == 1 || r == 2);
        if r == 0 {
            assert(695 * pow2(0) == 695);
        }
        if r == 1 {
            assert(695 * pow2(1) == 1390);
        }
        if r == 2 {
            assert(695 * pow2(2) == 2780);
        }
    }
}

/// `5609` is not a strong probable prime to base `2`.
proof fn lemma_not_spp2_5609()
    ensures
        !strong_probable_prime(5609, 2),
{
    vstd::arithmetic::power2::lemma2_to64();
    lemma_two_adic_unique(5608, 3);
    assert(odd_part(5608) == 701);
    lemma_pow1(2);
    lemma_pow_mod_step(2, 1, 5609, 2);
    assert(pow(2, 2) % 5609 == 4);
    lemma_pow_mod_step(2, 2, 5609, 4);
    assert(pow(2, 5) % 5609 == 32);
    lemma_pow_mod_step(2, 5, 5609, 32);
    assert(pow(2, 10) % 5609 == 1024);
    lemma_pow_mod_step(2, 10, 5609, 1024);
    assert(pow(2, 21) % 5609 == 4995);
    lemma_pow_mod_step(2, 21, 5609, 4995);
    assert(pow(2, 43) % 5609 == 2386);
    lemma_pow_mod_step(2, 43, 5609, 2386);
    assert(pow(2, 87) % 5609 == 5331);
    lemma_pow_mod_step(2, 87, 5609, 5331);
    assert(pow(2, 175) % 5609 == 3125);
    lemma_pow_mod_step(2, 175, 5609, 3125);
    assert(pow(2, 350) % 5609 == 356);
    lemma_pow_mod_step(2, 350, 5609, 356);
    assert(pow(2, 701) % 5609 == 1067);
    lemma_pow_mod_step(2, 701, 5609, 1067);
    assert(pow(2, 1402) % 5609 == 5471);
    lemma_pow_mod_step(2, 1402, 5609, 5471);
    assert(pow(2, 2804) % 5609 == 2217);
    assert forall|r: nat| r < 3 implies #[trigger] (pow(2, 701 * pow2(r)) % 5609) != 5608 by {
        assert(r == 0 || r == 1 || r == 2);
        if r == 0 {
            assert(701 * pow2(0) == 701);
        }
        if r == 1 {
            assert(701 * pow2(1) == 1402);
        }
        if r == 2 {
            assert(701 * pow2(2) == 2804);
        }
    }
}

/// `5671` is not a strong probable prime to base `2`.
proof fn lemma_not_spp2_5671()
    ensures
        !strong_probable_prime(5671, 2),
{
    vstd::arithmetic::power2::lemma2_to64();
    lemma_two_adic_unique(5670, 1);
    assert(odd_part(5670) == 2835);
    lemma_pow1(2);
    lemma_pow_mod_step(2, 1, 5671, 2);
    assert(pow(2, 2) % 5671 == 4);
    lemma_pow_mod_step(2, 2, 5671, 4);
    assert(pow(2, 5) % 5671 == 32);
    lemma_pow_mod_step(2, 5, 5671, 32);
    assert(pow(2, 11) % 5671 == 2048);
    lemma_pow_mod_step(2, 11, 5671, 2048);
    assert(pow(2, 22) % 5671 == 3435);
    lemma_pow_mod_step(2, 22, 5671, 3435);
    assert(pow(2, 44) % 5671 == 3545);
    lemma_pow_mod_step(2, 44, 5671, 3545);
    assert(pow(2, 88) % 5671 == 89);
    lemma_pow_mod_step(2, 88, 5671, 89);
    assert(pow(2, 177) % 5671 == 4500);
    lemma_pow_mod_step(2, 177, 5671, 4500);
    assert(pow(2, 354) % 5671 == 4530);
    lemma_pow_mod_step(2, 354, 5671, 4530);
    assert(pow(2, 708) % 5671 == 3222);
    lemma_pow_mod_step(2, 708, 5671, 3222);
    assert(pow(2, 1417) % 5671 == 1037);
    lemma_pow_mod_step(2, 1417, 5671, 1037);
    assert(pow(2, 2835) % 5671 == 1429);
    assert forall|r: nat| r < 1 implies #[trigger] (pow(2, 2835 * pow2(r)) % 5671) != 5670 by {
        assert(r == 0);
        if r == 0 {
            assert(2835 * pow2(0) == 2835);
        }
    }
}

/// `5723` is not a strong probable prime to base `2`.
proof fn lemma_not_spp2_5723()
    ensures
        !strong_probable_prime(5723, 2),
{
    vstd::arithmetic::power2::lemma2_to64();
    lemma_two_adic_unique(5722, 1);
    assert(odd_part(5722) == 2861);
    lemma_pow1(2);
    lemma_pow_mod_step(2, 1, 5723, 2);
    assert(pow(2, 2) % 5723 == 4);
    lemma_pow_mod_step(2, 2, 5723, 4);
    assert(pow(2, 5) % 5723 == 32);
    lemma_pow_mod_step(2, 5, 5723, 32);
    assert(pow(2, 11) % 5723 == 2048);
    lemma_pow_mod_step(2, 11, 5723, 2048);
    assert(pow(2, 22) % 5723 == 5068);
    lemma_pow_mod_step(2, 22, 5723, 5068);
    assert(pow(2, 44) % 5723 == 5523);
    lemma_pow_mod_step(2, 44, 5723, 5523);
    assert(pow(2, 89) % 5723 == 5601);
    lemma_pow_mod_step(2, 89, 5723, 5601);
    assert(pow(2, 178) % 5723 == 3438);
    lemma_pow_mod_step(2, 178, 5723, 3438);
    assert(pow(2, 357) % 5723 == 3698);
    lemma_pow_mod_step(2, 357, 5723, 3698);
    assert(pow(2, 715) % 5723 == 191);
    lemma_pow_mod_step(2, 715, 5723, 191);
    assert(pow(2, 1430) % 5723 == 2143);
    lemma_pow_mod_step(2, 1430, 5723, 2143);
    assert(pow(2, 2861) % 5723 == 5206);
    assert forall|r: nat| r < 1 implies #[trigger] (pow(2, 2861 * pow2(r)) % 5723) != 5722 by {
        assert(r == 0);
        if r == 0 {
            assert(2861 * pow2(0) == 2861);
        }
    }
}

/// `5767` is not a strong probable prime to base `2`.
proof fn lemma_not_spp2_5767()
    ensures
        !strong_probable_prime(5767, 2),
{
    vstd::arithmetic::power2::lemma2_to64();
    lemma_two_adic_unique(5766, 1);
    assert(odd_part(5766) == 2883);
    lemma_pow1(2);
    lemma_pow_mod_step(2, 1, 5767, 2);
    assert(pow(2, 2) % 5767 == 4);
    lemma_pow_mod_step(2, 2, 5767, 4);
    assert(pow(2, 5) % 5767 == 32);
    lemma_pow_mod_step(2, 5, 5767, 32);
    assert(pow(2, 11) % 5767 == 2048);
    lemma_pow_mod_step(2, 11, 5767, 2048);
    assert(pow(2, 22) % 5767 == 1695);
    lemma_pow_mod_step(2, 22, 5767, 1695);
    assert(pow(2, 45) % 5767 == 2118);
    lemma_pow_mod_step(2, 45, 5767, 2118);
    assert(pow(2, 90) % 5767 == 4965);
    lemma_pow_mod_step(2, 90, 5767, 4965);
    assert(pow(2, 180) % 5767 == 3067);
    lemma_pow_mod_step(2, 180, 5767, 3067);
    assert(pow(2, 360) % 5767 == 512);
    lemma_pow_mod_step(2, 360, 5767, 512);
    assert(pow(2, 720) % 5767 == 2629);
    lemma_pow_mod_step(2, 720, 5767, 2629);
    assert(pow(2, 1441) % 5767 == 5550);
    lemma_pow_mod_step(2, 1441, 5767, 5550);
    assert(pow(2, 2883) % 5767 == 1906);
    assert forall|r: nat| r < 1 implies #[trigger] (pow(2, 2883 * pow2(r)) % 5767) != 5766 by {
        assert(r == 0);
        if r == 0 {
            assert(2883 * pow2(0) == 2883);
        }
    }
}

/// `5777` is not a strong probable prime to base `2`.
proof fn lemma_not_spp2_5777()
    ensures
        !strong_probable_prime(5777, 2),
{
    vstd::arithmetic::power2::lemma2_to64();
    lemma_two_adic_unique(5776, 4);
    assert(odd_part(5776) == 361);
    lemma_pow1(2);
    lemma_pow_mod_step(2, 1, 5777, 2);
    assert(pow(2, 2) % 5777 == 4);
    lemma_pow_mod_step(2, 2, 5777, 4);
    assert(pow(2, 5) % 5777 == 32);
    lemma_pow_mod_step(2, 5, 5777, 32);
    assert(pow(2, 11) % 5777 == 2048);
    lemma_pow_mod_step(2, 11, 5777, 2048);
    assert(pow(2, 22) % 5777 == 202);
    lemma_pow_mod_step(2, 22, 5777, 202);
    assert(pow(2, 45) % 5777 == 730);
    lemma_pow_mod_step(2, 45, 5777, 730);
    assert(pow(2, 90) % 5777 == 1416);
    lemma_pow_mod_step(2, 90, 5777, 1416);
    assert(pow(2, 180) % 5777 == 437);
    lemma_pow_mod_step(2, 180, 5777, 437);
    assert(pow(2, 361) % 5777 == 656);
    lemma_pow_mod_step(2, 361, 5777, 656);
    assert(pow(2, 722) % 5777 == 2838);
    lemma_pow_mod_step(2, 722, 5777, 2838);
    assert(pow(2, 1444) % 5777 == 1106);
    lemma_pow_mod_step(2, 1444, 5777, 1106);
    assert(pow(2, 2888) % 5777 == 4289);
    assert forall|r: nat| r < 4 implies #[trigger] (pow(2, 361 * pow2(r)) % 5777) != 5776 by {
        assert(r == 0 || r == 1 || r == 2 || r == 3);
        if r == 0 {
            assert(361 * pow2(0) == 361);
        }
        if r == 1 {
            assert(361 * pow2(1) == 722);
        }
        if r == 2 {
            assert(361 * pow2(2) == 1444);
        }
        if r == 3 {
            assert(361 * pow2(3) == 2888);
        }
    }
}

/// `5893` is not a strong probable prime to base `2`.
proof fn lemma_not_spp2_5893()
    ensures
        !strong_probable_prime(5893, 2),
{
    vstd::arithmetic::power2::lemma2_to64();
    lemma_two_adic_unique(5892, 2);
    assert(odd_part(5892) == 1473);
    lemma_pow1(2);
    lemma_pow_mod_step(2, 1, 5893, 2);
    assert(pow(2, 2) % 5893 == 4);
    lemma_pow_mod_step(2, 2, 5893, 4);
    assert(pow(2, 5) % 5893 == 32);
    lemma_pow_mod_step(2, 5, 5893, 32);
    assert(pow(2, 11) % 5893 == 2048);
    lemma_pow_mod_step(2, 11, 5893, 2048);
    assert(pow(2, 23) % 5893 == 2869);
    lemma_pow_mod_step(2, 23, 5893, 2869);
    assert(pow(2, 46) % 5893 == 4533);
    lemma_pow_mod_step(2, 46, 5893, 4533);
    assert(pow(2, 92) % 5893 == 5091);
    lemma_pow_mod_step(2, 92, 5893, 5091);
    assert(pow(2, 184) % 5893 == 867);
    lemma_pow_mod_step(2, 184, 5893, 867);
    assert(pow(2, 368) % 5893 == 3278);
    lemma_pow_mod_step(2, 368, 5893, 3278);
    assert(pow(2, 736) % 5893 == 2345);
    lemma_pow_mod_step(2, 736, 5893, 2345);
    assert(pow(2, 1473) % 5893 == 1712);
    lemma_pow_mod_step(2, 1473, 5893, 1712);
    assert(pow(2, 2946) % 5893 == 2123);
    assert forall|r: nat| r < 2 implies #[trigger] (pow(2, 1473 * pow2(r)) % 5893) != 5892 by {
        assert(r == 0 || r == 1);
        if r == 0 {
            assert(1473 * pow2(0) == 1473);
        }
        if r == 1 {
            assert(1473 * pow2(1) == 2946);
        }
    }
}

/// `5917` is not a strong probable prime to base `2`.
proof fn lemma_not_spp2_5917()
    ensures
        !strong_probable_prime(5917, 2),
{
    vstd::arithmetic::power2::lemma2_to64();
    lemma_two_adic_unique(5916, 2);
    assert(odd_part(5916) == 1479);
    lemma_pow1(2);
    lemma_pow_mod_step(2, 1, 5917, 2);
    assert(pow(2, 2) % 5917 == 4);
    lemma_pow_mod_step(2, 2, 5917, 4);
    assert(pow(2, 5) % 5917 == 32);
    lemma_pow_mod_step(2, 5, 5917, 32);
    assert(pow(2, 11) % 5917 == 2048);
    lemma_pow_mod_step(2, 11, 5917, 2048);
    assert(pow(2, 23) % 5917 == 4219);
    lemma_pow_mod_step(2, 23, 5917, 4219);
    assert(pow(2, 46) % 5917 == 1625);
    lemma_pow_mod_step(2, 46, 5917, 1625);
    assert(pow(2, 92) % 5917 == 1643);
    lemma_pow_mod_step(2, 92, 5917, 1643);
    assert(pow(2, 184) % 5917 == 1297);
    lemma_pow_mod_step(2, 184, 5917, 1297);
    assert(pow(2, 369) % 5917 == 3562);
    lemma_pow_mod_step(2, 369, 5917, 3562);
    assert(pow(2, 739) % 5917 == 3592);
    lemma_pow_mod_step(2, 739, 5917, 3592);
    assert(pow(2, 1479) % 5917 == 891);
    lemma_pow_mod_step(2, 1479, 5917, 891);
    assert(pow(2, 2958) % 5917 == 1003);
    assert forall|r: nat| r < 2 implies #[trigger] (pow(2, 1479 * pow2(r)) % 5917) != 5916 by {
        assert(r == 0 || r == 1);
        if r == 0 {
            assert(1479 * pow2(0) == 1479);
        }
        if r == 1 {
            assert(1479 * pow2(1) == 2958);
        }
    }
}

/// `5959` is not a strong probable prime to base `2`.
proof fn lemma_not_spp2_5959()
    ensures
        !strong_probable_prime(5959, 2),
{
    vstd::arithmetic::power2::lemma2_to64();
    lemma_two_adic_unique(5958, 1);
    assert(odd_part(5958) == 2979);
    lemma_pow1(2);
    lemma_pow_mod_step(2, 1, 5959, 2);
    assert(pow(2, 2) % 5959 == 4);
    lemma_pow_mod_step(2, 2, 5959, 4);
    assert(pow(2, 5) % 5959 == 32);
    lemma_pow_mod_step(2, 5, 5959, 32);
    assert(pow(2, 11) % 5959 == 2048);
    lemma_pow_mod_step(2, 11, 5959, 2048);
    assert(pow(2, 23) % 5959 == 4295);
    lemma_pow_mod_step(2, 23, 5959, 4295);
    assert(pow(2, 46) % 5959 == 3920);
    lemma_pow_mod_step(2, 46, 5959, 3920);
    assert(pow(2, 93) % 5959 == 2237);
    lemma_pow_mod_step(2, 93, 5959, 2237);
    assert(pow(2, 186) % 5959 == 4568);
    lemma_pow_mod_step(2, 186, 5959, 4568);
    assert(pow(2, 372) % 5959 == 4165);
    lemma_pow_mod_step(2, 372, 5959, 4165);
    assert(pow(2, 744) % 5959 == 576);
    lemma_pow_mod_step(2, 744, 5959, 576);
    assert(pow(2, 1489) % 5959 == 2103);
    lemma_pow_mod_step(2, 1489, 5959, 2103);
    assert(pow(2, 2979) % 5959 == 2062);
    assert forall|r: nat| r < 1 implies #[trigger] (pow(2, 2979 * pow2(r)) % 5959) != 5958 by {
        assert(r == 0);
        if r == 0 {
            assert(2979 * pow2(0) == 2979);
        }
    }
}

/// `5963` is not a strong probable prime to base `2`.
proof fn lemma_not_spp2_5963()
    ensures
        !strong_probable_prime(5963, 2),
{
    vstd::arithmetic::power2::lemma2_to64();
    lemma_two_adic_unique(5962, 1);
    assert(odd_part(5962) == 2981);
    lemma_pow1(2);
    lemma_pow_mod_step(2, 1, 5963, 2);
    assert(pow(2, 2) % 5963 == 4);
    lemma_pow_mod_step(2, 2, 5963, 4);
    assert(pow(2, 5) % 5963 == 32);
    lemma_pow_mod_step(2, 5, 5963, 32);
    assert(pow(2, 11) % 5963 == 2048);
    lemma_pow_mod_step(2, 11, 5963, 2048);
    assert(pow(2, 23) % 5963 == 4630);
    lemma_pow_mod_step(2, 23, 5963, 4630);
    assert(pow(2, 46) % 5963 == 5878);
    lemma_pow_mod_step(2, 46, 5963, 5878);
    assert(pow(2, 93) % 5963 == 2524);
    lemma_pow_mod_step(2, 93, 5963, 2524);
    assert(pow(2, 186) % 5963 == 2092);
    lemma_pow_mod_step(2, 186, 5963, 2092);
    assert(pow(2, 372) % 5963 == 5585);
    lemma_pow_mod_step(2, 372, 5963, 5585);
    assert(pow(2, 745) % 5963 == 5507);
    lemma_pow_mod_step(2, 745, 5963, 5507);
    assert(pow(2, 1490) % 5963 == 5194);
    lemma_pow_mod_step(2, 1490, 5963, 5194);
    assert(pow(2, 2981) % 5963 == 2048);
    assert forall|r: nat| r < 1 implies #[trigger] (pow(2, 2981 * pow2(r)) % 5963) != 5962 by {
        assert(r == 0);
        if r == 0 {
            assert(2981 * pow2(0) == 2981);
        }
    }
}

/// `5989` is not a strong probable prime to base `2`.
proof fn lemma_not_spp2_5989()
    ensures
        !strong_probable_prime(5989, 2),
{
    vstd::arithmetic::power2::lemma2_to64();
    lemma_two_adic_unique(5988, 2);
    assert(odd_part(5988) == 1497);
    lemma_pow1(2);
    lemma_pow_mod_step(2, 1, 5989, 2);
    assert(pow(2, 2) % 5989 == 4);
    lemma_pow_mod_step(2, 2, 5989, 4);
    assert(pow(2, 5) % 5989 == 32);
    lemma_pow_mod_step(2, 5, 5989, 32);
    assert(pow(2, 11) % 5989 == 2048);
    lemma_pow_mod_step(2, 11, 5989, 2048);
    assert(pow(2, 23) % 5989 == 4008);
    lemma_pow_mod_step(2, 23, 5989, 4008);
    assert(pow(2, 46) % 5989 == 1566);
    lemma_pow_mod_step(2, 46, 5989, 1566);
    assert(pow(2, 93) % 5989 == 5710);
    lemma_pow_mod_step(2, 93, 5989, 5710);
    assert(pow(2, 187) % 5989 == 5957);
    lemma_pow_mod_step(2, 187, 5989, 5957);
    assert(pow(2, 374) % 5989 == 1024);
    lemma_pow_mod_step(2, 374, 5989, 1024);
    assert(pow(2, 748) % 5989 == 501);
    lemma_pow_mod_step(2, 748, 5989, 501);
    assert(pow(2, 1497) % 5989 == 4915);
    lemma_pow_mod_step(2, 1497, 5989, 4915);
    assert(pow(2, 2994) % 5989 == 3588);
    assert forall|r: nat| r < 2 implies #[trigger] (pow(2, 1497 * pow2(r)) % 5989) != 5988 by {
        assert(r == 0 || r == 1);
        if r == 0 {
            assert(1497 * pow2(0) == 1497);
        }
        if r == 1 {
            assert(1497 * pow2(1) == 2994);
        }
    }
}

/// `6059` is not a strong probable prime to base `2`.
proof fn lemma_not_spp2_6059()
    ensures
        !strong_probable_prime(6059, 2),
{
    vstd::arithmetic::power2::lemma2_to64();
    lemma_two_adic_unique(6058, 1);
    assert(odd_part(6058) == 3029);
    lemma_pow1(2);
    lemma_pow_mod_step(2, 1, 6059, 2);
    assert(pow(2, 2) % 6059 == 4);
    lemma_pow_mod_step(2, 2, 6059, 4);
    assert(pow(2, 5) % 6059 == 32);
    lemma_pow_mod_step(2, 5, 6059, 32);
    assert(pow(2, 11) % 6059 == 2048);
    lemma_pow_mod_step(2, 11, 6059, 2048);
    assert(pow(2, 23) % 6059 == 2952);
    lemma_pow_mod_step(2, 23, 6059, 2952);
    assert(pow(2, 47) % 6059 == 2924);
    lemma_pow_mod_step(2, 47, 6059, 2924);
    assert(pow(2, 94) % 6059 == 527);
    lemma_pow_mod_step(2, 94, 6059, 527);
    assert(pow(2, 189) % 6059 == 4089);
    lemma_pow_mod_step(2, 189, 6059, 4089);
    assert(pow(2, 378) % 6059 == 3140);
    lemma_pow_mod_step(2, 378, 6059, 3140);
    assert(pow(2, 757) % 6059 == 3214);
    lemma_pow_mod_step(2, 757, 6059, 3214);
    assert(pow(2, 1514) % 6059 == 5260);
    lemma_pow_mod_step(2, 1514, 6059, 5260);
    assert(pow(2, 3029) % 6059 == 4412);
    assert forall|r: nat| r < 1 implies #[trigger] (pow(2, 3029 * pow2(r)) % 6059) != 6058 by {
        assert(r == 0);
        if r == 0 {
            assert(3029 * pow2(0) == 3029);
        }
    }
}

/// `6077` is not a strong probable prime to base `2`.
proof fn lemma_not_spp2_6077()
    ensures
        !strong_probable_prime(6077, 2),
{
    vstd::arithmetic::power2::lemma2_to64();
    lemma_two_adic_unique(6076, 2);
    assert(odd_part(6076) == 1519);
    lemma_pow1(2);
    lemma_pow_mod_step(2, 1, 6077, 2);
    assert(pow(2, 2) % 6077 == 4);
    lemma_pow_mod_step(2, 2, 6077, 4);
    assert(pow(2, 5) % 6077 == 32);
    lemma_pow_mod_step(2, 5, 6077, 32);
    assert(pow(2, 11) % 6077 == 2048);
    lemma_pow_mod_step(2, 11, 6077, 2048);
    assert(pow(2, 23) % 6077 == 2348);
    lemma_pow_mod_step(2, 23, 6077, 2348);
    assert(pow(2, 47) % 6077 == 2530);
    lemma_pow_mod_step(2, 47, 6077, 2530);
    assert(pow(2, 94) % 6077 == 1819);
    lemma_pow_mod_step(2, 94, 6077, 1819);
    assert(pow(2, 189) % 6077 == 5746);
    lemma_pow_mod_step(2, 189, 6077, 5746);
    assert(pow(2, 379) % 6077 == 350);
    lemma_pow_mod_step(2, 379, 6077, 350);
    assert(pow(2, 759) % 6077 == 1920);
    lemma_pow_mod_step(2, 759, 6077, 1920);
    assert(pow(2, 1519) % 6077 == 1399);
    lemma_pow_mod_step(2, 1519, 6077, 1399);
    assert(pow(2, 3038) % 6077 == 407);
    assert forall|r: nat| r < 2 implies #[trigger] (pow(2, 1519 * pow2(r)) % 6077) != 6076 by {
        assert(r == 0 || r == 1);
        if r == 0 {
            assert(1519 * pow2(0) == 1519);
        }
        if r == 1 {
            assert(1519 * pow2(1) == 3038);
        }
    }
}

/// `6161` is not a strong probable prime to base `2`.
proof fn lemma_not_spp2_6161()
    ensures
        !strong_probable_prime(6161, 2),
{
    vstd::arithmetic::power2::lemma2_to64();
    lemma_two_adic_unique(6160, 4);
    assert(odd_part(6160) == 385);
    lemma_pow1(2);
    lemma_pow_mod_step(2, 1, 6161, 2);
    assert(pow(2, 3) % 6161 == 8);
    lemma_pow_mod_step(2, 3, 6161, 8);
    assert(pow(2, 6) % 6161 == 64);
    lemma_pow_mod_step(2, 6, 6161, 64);
    assert(pow(2, 12) % 6161 == 4096);
    lemma_pow_mod_step(2, 12, 6161, 4096);
    assert(pow(2, 24) % 6161 == 813);
    lemma_pow_mod_step(2, 24, 6161, 813);
    assert(pow(2, 48) % 6161 == 1742);
    lemma_pow_mod_step(2, 48, 6161, 1742);
    assert(pow(2, 96) % 6161 == 3352);
    lemma_pow_mod_step(2, 96, 6161, 3352);
    assert(pow(2, 192) % 6161 == 4401);
    lemma_pow_mod_step(2, 192, 6161, 4401);
    assert(pow(2, 385) % 6161 == 3395);
    lemma_pow_mod_step(2, 385, 6161, 3395);
    assert(pow(2, 770) % 6161 == 4955);
    lemma_pow_mod_step(2, 770, 6161, 4955);
    assert(pow(2, 1540) % 6161 == 440);
    lemma_pow_mod_step(2, 1540, 6161, 440);
    assert(pow(2, 3080) % 6161 == 2609);
    assert forall|r: nat| r < 4 implies #[trigger] (pow(2, 385 * pow2(r)) % 6161) != 6160 by {
        assert(r == 0 || r == 1 || r == 2 || r == 3);
        if r == 0 {
            assert(385 * pow2(0) == 385);
        }
        if r == 1 {
            assert(385 * pow2(1) == 770);
        }
        if r == 2 {
            assert(385 * pow2(2) == 1540);
        }
        if r == 3 {
            assert(385 * pow2(3) == 3080);
        }
    }
}

/// `6241` is not a strong probable prime to base `2`.
proof fn lemma_not_spp2_6241()
    ensures
        !strong_probable_prime(6241, 2),
{
    vstd::arithmetic::power2::lemma2_to64();
    lemma_two_adic_unique(6240, 5);
    assert(odd_part(6240) == 195);
    lemma_pow1(2);
    lemma_pow_mod_step(2, 1, 6241, 2);
    assert(pow(2, 3) % 6241 == 8);
    lemma_pow_mod_step(2, 3, 6241, 8);
    assert(pow(2, 6) % 6241 == 64);
    lemma_pow_mod_step(2, 6, 6241, 64);
    assert(pow(2, 12) % 6241 == 4096);
    lemma_pow_mod_step(2, 12, 6241, 4096);
    assert(pow(2, 24) % 6241 == 1408);
    lemma_pow_mod_step(2, 24, 6241, 1408);
    assert(pow(2, 48) % 6241 == 4067);
    lemma_pow_mod_step(2, 48, 6241, 4067);
    assert(pow(2, 97) % 6241 == 3678);
    lemma_pow_mod_step(2, 97, 6241, 3678);
    assert(pow(2, 195) % 6241 == 633);
    lemma_pow_mod_step(2, 195, 6241, 633);
    assert(pow(2, 390) % 6241 == 1265);
    lemma_pow_mod_step(2, 390, 6241, 1265);
    assert(pow(2, 780) % 6241 == 2529);
    lemma_pow_mod_step(2, 780, 6241, 2529);
    assert(pow(2, 1560) % 6241 == 5057);
    lemma_pow_mod_step(2, 1560, 6241, 5057);
    assert(pow(2, 3120) % 6241 == 3872);
    assert forall|r: nat| r < 5 implies #[trigger] (pow(2, 195 * pow2(r)) % 6241) != 6240 by {
        assert(r == 0 || r == 1 || r == 2 || r == 3 || r == 4);
        if r == 0 {
            assert(195 * pow2(0) == 195);
        }
        if r == 1 {
            assert(195 * pow2(1) == 390);
        }
        if r == 2 {
            assert(195 * pow2(2) == 780);
        }
        if r == 3 {
            assert(195 * pow2(3) == 1560);
        }
        if r == 4 {
            assert(195 * pow2(4) == 3120);
        }
    }
}

/// `6283` is not a strong probable prime to base `2`.
proof fn lemma_not_spp2_6283()
    ensures
        !strong_probable_prime(6283, 2),
{
    vstd::arithmetic::power2::lemma2_to64();
    lemma_two_adic_unique(6282, 1);
    assert(odd_part(6282) == 3141);
    lemma_pow1(2);
    lemma_pow_mod_step(2, 1, 6283, 2);
    assert(pow(2, 3) % 6283 == 8);
    lemma_pow_mod_step(2, 3, 6283, 8);
    assert(pow(2, 6) % 6283 == 64);
    lemma_pow_mod_step(2, 6, 6283, 64);
    assert(pow(2, 12) % 6283 == 4096);
    lemma_pow_mod_step(2, 12, 6283, 4096);
    assert(pow(2, 24) % 6283 == 1606);
    lemma_pow_mod_step(2, 24, 6283, 1606);
    assert(pow(2, 49) % 6283 == 129);
    lemma_pow_mod_step(2, 49, 6283, 129);
    assert(pow(2, 98) % 6283 == 4075);
    lemma_pow_mod_step(2, 98, 6283, 4075);
    assert(pow(2, 196) % 6283 == 5939);
    lemma_pow_mod_step(2, 196, 6283, 5939);
    assert(pow(2, 392) % 6283 == 5242);
    lemma_pow_mod_step(2, 392, 6283, 5242);
    assert(pow(2, 785) % 6283 == 6010);
    lemma_pow_mod_step(2, 785, 6283, 6010);
    assert(pow(2, 1570) % 6283 == 5416);
    lemma_pow_mod_step(2, 1570, 6283, 5416);
    assert(pow(2, 3141) % 6283 == 1741);
    assert forall|r: nat| r < 1 implies #[trigger] (pow(2, 3141 * pow2(r)) % 6283) != 6282 by {
        assert(r == 0);
        if r == 0 {
            assert(3141 * pow2(0) == 3141);
        }
    }
}

/// `6313` is not a strong probable prime to base `2`.
proof fn lemma_not_spp2_6313()
    ensures
        !strong_probable_prime(6313, 2),
{
    vstd::arithmetic::power2::lemma2_to64();
    lemma_two_adic_unique(6312, 3);
    assert(odd_part(6312) == 789);
    lemma_pow1(2);
    lemma_pow_mod_step(2, 1, 6313, 2);
    assert(pow(2, 3) % 6313 == 8);
    lemma_pow_mod_step(2, 3, 6313, 8);
    assert(pow(2, 6) % 6313 == 64);
    lemma_pow_mod_step(2, 6, 6313, 64);
    assert(pow(2, 12) % 6313 == 4096);
    lemma_pow_mod_step(2, 12, 6313, 4096);
    assert(pow(2, 24) % 6313 == 3575);
    lemma_pow_mod_step(2, 24, 6313, 3575);
    assert(pow(2, 49) % 6313 == 6226);
    lemma_pow_mod_step(2, 49, 6313, 6226);
    assert(pow(2, 98) % 6313 == 1256);
    lemma_pow_mod_step(2, 98, 6313, 1256);
    assert(pow(2, 197) % 6313 == 4885);
    lemma_pow_mod_step(2, 197, 6313, 4885);
    assert(pow(2, 394) % 6313 == 85);
    lemma_pow_mod_step(2, 394, 6313, 85);
    assert(pow(2, 789) % 6313 == 1824);
    lemma_pow_mod_step(2, 789, 6313, 1824);
    assert(pow(2, 1578) % 6313 == 25);
    lemma_pow_mod_step(2, 1578, 6313, 25);
    assert(pow(2, 3156) % 6313 == 625);
    assert forall|r: nat| r < 3 implies #[trigger] (pow(2, 789 * pow2(r)) % 6313) != 6312 by {
        assert(r == 0 || r == 1 || r == 2);
        if r == 0 {
            assert(789 * pow2(0) == 789);
        }
        if r == 1 {
            assert(789 * pow2(1) == 1578);
        }
        if r == 2 {
            assert(789 * pow2(2) == 3156);
        }
    }
}

/// `6319` is not a strong probable prime to base `2`.
proof fn lemma_not_spp2_6319()
    ensures
        !strong_probable_prime(6319, 2),
{
    vstd::arithmetic::power2::lemma2_to64();
    lemma_two_adic_unique(6318, 1);
    assert(odd_part(6318) == 3159);
    lemma_pow1(2);
    lemma_pow_mod_step(2, 1, 6319, 2);
    assert(pow(2, 3) % 6319 == 8);
    lemma_pow_mod_step(2, 3, 6319, 8);
    assert(pow(2, 6) % 6319 == 64);
    lemma_pow_mod_step(2, 6, 6319, 64);
    assert(pow(2, 12) % 6319 == 4096);
    lemma_pow_mod_step(2, 12, 6319, 4096);
    assert(pow(2, 24) % 6319 == 271);
    lemma_pow_mod_step(2, 24, 6319, 271);
    assert(pow(2, 49) % 6319 == 1545);
    lemma_pow_mod_step(2, 49, 6319, 1545);
    assert(pow(2, 98) % 6319 == 4762);
    lemma_pow_mod_step(2, 98, 6319, 4762);
    assert(pow(2, 197) % 6319 == 1825);
    lemma_pow_mod_step(2, 197, 6319, 1825);
    assert(pow(2, 394) % 6319 == 512);
    lemma_pow_mod_step(2, 394, 6319, 512);
    assert(pow(2, 789) % 6319 == 6130);
    lemma_pow_mod_step(2, 789, 6319, 6130);
    assert(pow(2, 1579) % 6319 == 1933);
    lemma_pow_mod_step(2, 1579, 6319, 1933);
    assert(pow(2, 3159) % 6319 == 3920);
    assert forall|r: nat| r < 1 implies #[trigger] (pow(2, 3159 * pow2(r)) % 6319) != 6318 by {
        assert(r == 0);
        if r == 0 {
            assert(3159 * pow2(0) == 3159);
        }
    }
}

/// `6431` is not a strong probable prime to base `2`.
proof fn lemma_not_spp2_6431()
    ensures
        !strong_probable_prime(6431, 2),
{
    vstd::arithmetic::power2::lemma2_to64();
    lemma_two_adic_unique(6430, 1);
    assert(odd_part(6430) == 3215);
    lemma_pow1(2);
    lemma_pow_mod_step(2, 1, 6431, 2);
    assert(pow(2, 3) % 6431 == 8);
    lemma_pow_mod_step(2, 3, 6431, 8);
    assert(pow(2, 6) % 6431 == 64);
    lemma_pow_mod_step(2, 6, 6431, 64);
    assert(pow(2, 12) % 6431 == 4096);
    lemma_pow_mod_step(2, 12, 6431, 4096);
    assert(pow(2, 25) % 6431 == 3905);
    lemma_pow_mod_step(2, 25, 6431, 3905);
    assert(pow(2, 50) % 6431 == 1124);
    lemma_pow_mod_step(2, 50, 6431, 1124);
    assert(pow(2, 100) % 6431 == 2900);
    lemma_pow_mod_step(2, 100, 6431, 2900);
    assert(pow(2, 200) % 6431 == 4683);
    lemma_pow_mod_step(2, 200, 6431, 4683);
    assert(pow(2, 401) % 6431 == 1558);
    lemma_pow_mod_step(2, 401, 6431, 1558);
    assert(pow(2, 803) % 6431 == 5754);
    lemma_pow_mod_step(2, 803, 6431, 5754);
    assert(pow(2, 1607) % 6431 == 3456);
    lemma_pow_mod_step(2, 1607, 6431, 3456);
    assert(pow(2, 3215) % 6431 == 3138);
    assert forall|r: nat| r < 1 implies #[trigger] (pow(2, 3215 * pow2(r)) % 6431) != 6430 by {
        assert(r == 0);
        if r == 0 {
            assert(3215 * pow2(0) == 3215);
        }
    }
}

/// `6497` is not a strong probable prime to base `2`.
proof fn lemma_not_spp2_6497()
    ensures
        !strong_probable_prime(6497, 2),
{
    vstd::arithmetic::power2::lemma2_to64();
    lemma_two_adic_unique(6496, 5);
    assert(odd_part(6496) == 203);
    lemma_pow1(2);
    lemma_pow_mod_step(2, 1, 6497, 2);
    assert(pow(2, 3) % 6497 == 8);
    lemma_pow_mod_step(2, 3, 6497, 8);
    assert(pow(2, 6) % 6497 == 64);
    lemma_pow_mod_step(2, 6, 6497, 64);
    assert(pow(2, 12) % 6497 == 4096);
    lemma_pow_mod_step(2, 12, 6497, 4096);
    assert(pow(2, 25) % 6497 == 3924);
    lemma_pow_mod_step(2, 25, 6497, 3924);
    assert(pow(2, 50) % 6497 == 6383);
    lemma_pow_mod_step(2, 50, 6497, 6383);
    assert(pow(2, 101) % 6497 == 4);
    lemma_pow_mod_step(2, 101, 6497, 4);
    assert(pow(2, 203) % 6497 == 32);
    lemma_pow_mod_step(2, 203, 6497, 32);
    assert(pow(2, 406) % 6497 == 1024);
    lemma_pow_mod_step(2, 406, 6497, 1024);
    assert(pow(2, 812) % 6497 == 2559);
    lemma_pow_mod_step(2, 812, 6497, 2559);
    assert(pow(2, 1624) % 6497 == 6002);
    lemma_pow_mod_step(2, 1624, 6497, 6002);
    assert(pow(2, 3248) % 6497 == 4636);
    assert forall|r: nat| r < 5 implies #[trigger] (pow(2, 203 * pow2(r)) % 6497) != 6496 by {
        assert(r == 0 || r == 1 || r == 2 || r == 3 || r == 4);
        if r == 0 {
            assert(203 * pow2(0) == 203);
        }
        if r == 1 {
            assert(203 * pow2(1) == 406);
        }
        if r == 2 {
            assert(203 * pow2(2) == 812);
        }
        if r == 3 {
            assert(203 * pow2(3) == 1624);
        }
        if r == 4 {
            assert(203 * pow2(4) == 3248);
        }
    }
}

/// `6499` is not a strong probable prime to base `2`.
proof fn lemma_not_spp2_6499()
    ensures
        !strong_probable_prime(6499, 2),
{
    vstd::arithmetic::power2::lemma2_to64();
    lemma_two_adic_unique(6498, 1);
    assert(odd_part(6498) == 3249);
    lemma_pow1(2);
    lemma_pow_mod_step(2, 1, 6499, 2);
    assert(pow(2, 3) % 6499 == 8);
    lemma_pow_mod_step(2, 3, 6499, 8);
    assert(pow(2, 6) % 6499 == 64);
    lemma_pow_mod_step(2, 6, 6499, 64);
    assert(pow(2, 12) % 6499 == 4096);
    lemma_pow_mod_step(2, 12, 6499, 4096);
    assert(pow(2, 25) % 6499 == 95);
    lemma_pow_mod_step(2, 25, 6499, 95);
    assert(pow(2, 50) % 6499 == 2526);
    lemma_pow_mod_step(2, 50, 6499, 2526);
    assert(pow(2, 101) % 6499 == 3815);
    lemma_pow_mod_step(2, 101, 6499, 3815);
    assert(pow(2, 203) % 6499 == 5928);
    lemma_pow_mod_step(2, 203, 6499, 5928);
    assert(pow(2, 406) % 6499 == 1091);
    lemma_pow_mod_step(2, 406, 6499, 1091);
    assert(pow(2, 812) % 6499 == 964);
    lemma_pow_mod_step(2, 812, 6499, 964);
    assert(pow(2, 1624) % 6499 == 6438);
    lemma_pow_mod_step(2, 1624, 6499, 6438);
    assert(pow(2, 3249) % 6499 == 943);
    assert forall|r: nat| r < 1 implies #[trigger] (pow(2, 3249 * pow2(r)) % 6499) != 6498 by {
        assert(r == 0);
        if r == 0 {
            assert(3249 * pow2(0) == 3249);
        }
    }
}

/// `6527` is not a strong probable prime to base `2`.
proof fn lemma_not_spp2_6527()
    ensures
        !strong_probable_prime(6527, 2),
{
    vstd::arithmetic::power2::lemma2_to64();
    lemma_two_adic_unique(6526, 1);
    assert(odd_part(6526) == 3263);
    lemma_pow1(2);
    lemma_pow_mod_step(2, 1, 6527, 2);
    assert(pow(2, 3) % 6527 == 8);
    lemma_pow_mod_step(2, 3, 6527, 8);
    assert(pow(2, 6) % 6527 == 64);
    lemma_pow_mod_step(2, 6, 6527, 64);
    assert(pow(2, 12) % 6527 == 4096);
    lemma_pow_mod_step(2, 12, 6527, 4096);
    assert(pow(2, 25) % 6527 == 5652);
    lemma_pow_mod_step(2, 25, 6527, 5652);
    assert(pow(2, 50) % 6527 == 1966);
    lemma_pow_mod_step(2, 50, 6527, 1966);
    assert(pow(2, 101) % 6527 == 2344);
    lemma_pow_mod_step(2, 101, 6527, 2344);
    assert(pow(2, 203) % 6527 == 3731);
    lemma_pow_mod_step(2, 203, 6527, 3731);
    assert(pow(2, 407) % 6527 == 3067);
    lemma_pow_mod_step(2, 407, 6527, 3067);
    assert(pow(2, 815) % 6527 == 2164);
    lemma_pow_mod_step(2, 815, 6527, 2164);
    assert(pow(2, 1631) % 6527 == 6074);
    lemma_pow_mod_step(2, 1631, 6527, 6074);
    assert(pow(2, 3263) % 6527 == 5744);
    assert forall|r: nat| r < 1 implies #[trigger] (pow(2, 3263 * pow2(r)) % 6527) != 6526 by {
        assert(r == 0);
        if r == 0 {
            assert(3263 * pow2(0) == 3263);
        }
    }
}

/// `6557` is not a strong probable prime to base `2`.
proof fn lemma_not_spp2_6557()
    ensures
        !strong_probable_prime(6557, 2),
{
    vstd::arithmetic::power2::lemma2_to64();
    lemma_two_adic_unique(6556, 2);
    assert(odd_part(6556) == 1639);
    lemma_pow1(2);
    lemma_pow_mod_step(2, 1, 6557, 2);
    assert(pow(2, 3) % 6557 == 8);
    lemma_pow_mod_step(2, 3, 6557, 8);
    assert(pow(2, 6) % 6557 == 64);
    lemma_pow_mod_step(2, 6, 6557, 64);
    assert(pow(2, 12) % 6557 == 4096);
    lemma_pow_mod_step(2, 12, 6557, 4096);
    assert(pow(2, 25) % 6557 == 2263);
    lemma_pow_mod_step(2, 25, 6557, 2263);
    assert(pow(2, 51) % 6557 == 304);
    lemma_pow_mod_step(2, 51, 6557, 304);
    assert(pow(2, 102) % 6557 == 618);
    lemma_pow_mod_step(2, 102, 6557, 618);
    assert(pow(2, 204) % 6557 == 1618);
    lemma_pow_mod_step(2, 204, 6557, 1618);
    assert(pow(2, 409) % 6557 == 3362);
    lemma_pow_mod_step(2, 409, 6557, 3362);
    assert(pow(2, 819) % 6557 == 4109);
    lemma_pow_mod_step(2, 819, 6557, 4109);
    assert(pow(2, 1639) % 6557 == 5769);
    lemma_pow_mod_step(2, 1639, 6557, 5769);
    assert(pow(2, 3278) % 6557 == 4586);
    assert forall|r: nat| r < 2 implies #[trigger] (pow(2, 1639 * pow2(r)) % 6557) != 6556 by {
        assert(r == 0 || r == 1);
        if r == 0 {
            assert(1639 * pow2(0) == 1639);
        }
        if r == 1 {
            assert(1639 * pow2(1) == 3278);
        }
    }
}

/// `6649` is not a strong probable prime to base `2`.
proof fn lemma_not_spp2_6649()
    ensures
        !strong_probable_prime(6649, 2),
{
    vstd::arithmetic::power2::lemma2_to64();
    lemma_two_adic_unique(6648, 3);
    assert(odd_part(6648) == 831);
    lemma_pow1(2);
    lemma_pow_mod_step(2, 1, 6649, 2);
    assert(pow(2, 3) % 6649 == 8);
    lemma_pow_mod_step(2, 3, 6649, 8);
    assert(pow(2, 6) % 6649 == 64);
    lemma_pow_mod_step(2, 6, 6649, 64);
    assert(pow(2, 12) % 6649 == 4096);
    lemma_pow_mod_step(2, 12, 6649, 4096);
    assert(pow(2, 25) % 6649 == 3578);
    lemma_pow_mod_step(2, 25, 6649, 3578);
    assert(pow(2, 51) % 6649 == 5518);
    lemma_pow_mod_step(2, 51, 6649, 5518);
    assert(pow(2, 103) % 6649 == 5106);
    lemma_pow_mod_step(2, 103, 6649, 5106);
    assert(pow(2, 207) % 6649 == 1014);
    lemma_pow_mod_step(2, 207, 6649, 1014);
    assert(pow(2, 415) % 6649 == 1851);
    lemma_pow_mod_step(2, 415, 6649, 1851);
    assert(pow(2, 831) % 6649 == 3932);
    lemma_pow_mod_step(2, 831, 6649, 3932);
    assert(pow(2, 1662) % 6649 == 1699);
    lemma_pow_mod_step(2, 1662, 6649, 1699);
    assert(pow(2, 3324) % 6649 == 935);
    assert forall|r: nat| r < 3 implies #[trigger] (pow(2, 831 * pow2(r)) % 6649) != 6648 by {
        assert(r == 0 || r == 1 || r == 2);
        if r == 0 {
            assert(831 * pow2(0) == 831);
        }
        if r == 1 {
            assert(831 * pow2(1) == 1662);
        }
        if r == 2 {
            assert(831 * pow2(2) == 3324);
        }
    }
}

/// `6667` is not a strong probable prime to base `2`.
proof fn lemma_not_spp2_6667()
    ensures
        !strong_probable_prime(6667, 2),
{
    vstd::arithmetic::power2::lemma2_to64();
    lemma_two_adic_unique(6666, 1);
    assert(odd_part(6666) == 3333);
    lemma_pow1(2);
    lemma_pow_mod_step(2, 1, 6667, 2);
    assert(pow(2, 3) % 6667 == 8);
    lemma_pow_mod_step(2, 3, 6667, 8);
    assert(pow(2, 6) % 6667 == 64);
    lemma_pow_mod_step(2, 6, 6667, 64);
    assert(pow(2, 13) % 6667 == 1525);
    lemma_pow_mod_step(2, 13, 6667, 1525);
    assert(pow(2, 26) % 6667 == 5509);
    lemma_pow_mod_step(2, 26, 6667, 5509);
    assert(pow(2, 52) % 6667 == 897);
    lemma_pow_mod_step(2, 52, 6667, 897);
    assert(pow(2, 104) % 6667 == 4569);
    lemma_pow_mod_step(2, 104, 6667, 4569);
    assert(pow(2, 208) % 6667 == 1384);
    lemma_pow_mod_step(2, 208, 6667, 1384);
    assert(pow(2, 416) % 6667 == 2027);
    lemma_pow_mod_step(2, 416, 6667, 2027);
    assert(pow(2, 833) % 6667 == 3714);
    lemma_pow_mod_step(2, 833, 6667, 3714);
    assert(pow(2, 1666) % 6667 == 6440);
    lemma_pow_mod_step(2, 1666, 6667, 6440);
    assert(pow(2, 3333) % 6667 == 3053);
    assert forall|r: nat| r < 1 implies #[trigger] (pow(2, 3333 * pow2(r)) % 6667) != 6666 by {
        assert(r == 0);
        if r == 0 {
            assert(3333 * pow2(0) == 3333);
        }
    }
}

/// `6731` is not a strong probable prime to base `2`.
proof fn lemma_not_spp2_6731()
    ensures
        !strong_probable_prime(6731, 2),
{
    vstd::arithmetic::power2::lemma2_to64();
    lemma_two_adic_unique(6730, 1);
    assert(odd_part(6730) == 3365);
    lemma_pow1(2);
    lemma_pow_mod_step(2, 1, 6731, 2);
    assert(pow(2, 3) % 6731 == 8);
    lemma_pow_mod_step(2, 3, 6731, 8);
    assert(pow(2, 6) % 6731 == 64);
    lemma_pow_mod_step(2, 6, 6731, 64);
    assert(pow(2, 13) % 6731 == 1461);
    lemma_pow_mod_step(2, 13, 6731, 1461);
    assert(pow(2, 26) % 6731 == 794);
    lemma_pow_mod_step(2, 26, 6731, 794);
    assert(pow(2, 52) % 6731 == 4453);
    lemma_pow_mod_step(2, 52, 6731, 4453);
    assert(pow(2, 105) % 6731 == 6097);
    lemma_pow_mod_step(2, 105, 6731, 6097);
    assert(pow(2, 210) % 6731 == 4827);
    lemma_pow_mod_step(2, 210, 6731, 4827);
    assert(pow(2, 420) % 6731 == 3938);
    lemma_pow_mod_step(2, 420, 6731, 3938);
    assert(pow(2, 841) % 6731 == 5971);
    lemma_pow_mod_step(2, 841, 6731, 5971);
    assert(pow(2, 1682) % 6731 == 5465);
    lemma_pow_mod_step(2, 1682, 6731, 5465);
    assert(pow(2, 3365) % 6731 == 1556);
    assert forall|r: nat| r < 1 implies #[trigger] (pow(2, 3365 * pow2(r)) % 6731) != 6730 by {
        assert(r == 0);
        if r == 0 {
            assert(3365 * pow2(0) == 3365);
        }
    }
}

/// `6767` is not a strong probable prime to base `2`.
proof fn lemma_not_spp2_6767()
    ensures
        !strong_probable_prime(6767, 2),
{
    vstd::arithmetic::power2::lemma2_to64();
    lemma_two_adic_unique(6766, 1);
    assert(odd_part(6766) == 3383);
    lemma_pow1(2);
    lemma_pow_mod_step(2, 1, 6767, 2);
    assert(pow(2, 3) % 6767 == 8);
    lemma_pow_mod_step(2, 3, 6767, 8);
    assert(pow(2, 6) % 6767 == 64);
    lemma_pow_mod_step(2, 6, 6767, 64);
    assert(pow(2, 13) % 6767 == 1425);
    lemma_pow_mod_step(2, 13, 6767, 1425);
    assert(pow(2, 26) % 6767 == 525);
    lemma_pow_mod_step(2, 26, 6767, 525);
    assert(pow(2, 52) % 6767 == 4945);
    lemma_pow_mod_step(2, 52, 6767, 4945);
    assert(pow(2, 105) % 6767 == 941);
    lemma_pow_mod_step(2, 105, 6767, 941);
    assert(pow(2, 211) % 6767 == 4775);
    lemma_pow_mod_step(2, 211, 6767, 4775);
    assert(pow(2, 422) % 6767 == 2602);
    lemma_pow_mod_step(2, 422, 6767, 2602);
    assert(pow(2, 845) % 6767 == 41);
    lemma_pow_mod_step(2, 845, 6767, 41);
    assert(pow(2, 1691) % 6767 == 3362);
    lemma_pow_mod_step(2, 1691, 6767, 3362);
    assert(pow(2, 3383) % 6767 == 4308);
    assert forall|r: nat| r < 1 implies #[trigger] (pow(2, 3383 * pow2(r)) % 6767) != 6766 by {
        assert(r == 0);
        if r == 0 {
            assert(3383 * pow2(0) == 3383);
        }
    }
}

/// `6887` is not a strong probable prime to base `2`.
proof fn lemma_not_spp2_6887()
    ensures
        !strong_probable_prime(6887, 2),
{
    vstd::arithmetic::power2::lemma2_to64();
    lemma_two_adic_unique(6886, 1);
    assert(odd_part(6886) == 3443);
    lemma_pow1(2);
    lemma_pow_mod_step(2, 1, 6887, 2);
    assert(pow(2, 3) % 6887 == 8);
    lemma_pow_mod_step(2, 3, 6887, 8);
    assert(pow(2, 6) % 6887 == 64);
    lemma_pow_mod_step(2, 6, 6887, 64);
    assert(pow(2, 13) % 6887 == 1305);
    lemma_pow_mod_step(2, 13, 6887, 1305);
    assert(pow(2, 26) % 6887 == 1936);
    lemma_pow_mod_step(2, 26, 6887, 1936);
    assert(pow(2, 53) % 6887 == 3136);
    lemma_pow_mod_step(2, 53, 6887, 3136);
    assert(pow(2, 107) % 6887 == 6607);
    lemma_pow_mod_step(2, 107, 6887, 6607);
    assert(pow(2, 215) % 6887 == 5286);
    lemma_pow_mod_step(2, 215, 6887, 5286);
    assert(pow(2, 430) % 6887 == 1237);
    lemma_pow_mod_step(2, 430, 6887, 1237);
    assert(pow(2, 860) % 6887 == 1255);
    lemma_pow_mod_step(2, 860, 6887, 1255);
    assert(pow(2, 1721) % 6887 == 2691);
    lemma_pow_mod_step(2, 1721, 6887, 2691);
    assert(pow(2, 3443) % 6887 == 6488);
    assert forall|r: nat| r < 1 implies #[trigger] (pow(2, 3443 * pow2(r)) % 6887) != 6886 by {
        assert(r == 0);
        if r == 0 {
            assert(3443 * pow2(0) == 3443);
        }
    }
}

/// `6889` is not a strong probable prime to base `2`.
proof fn lemma_not_spp2_6889()
    ensures
        !strong_probable_prime(6889, 2),
{
    vstd::arithmetic::power2::lemma2_to64();
    lemma_two_adic_unique(6888, 3);
    assert(odd_part(6888) == 861);
    lemma_pow1(2);
    lemma_pow_mod_step(2, 1, 6889, 2);
    assert(pow(2, 3) % 6889 == 8);
    lemma_pow_mod_step(2, 3, 6889, 8);
    assert(pow(2, 6) % 6889 == 64);
    lemma_pow_mod_step(2, 6, 6889, 64);
    assert(pow(2, 13) % 6889 == 1303);
    lemma_pow_mod_step(2, 13, 6889, 1303);
    assert(pow(2, 26) % 6889 == 3115);
    lemma_pow_mod_step(2, 26, 6889, 3115);
    assert(pow(2, 53) % 6889 == 137);
    lemma_pow_mod_step(2, 53, 6889, 137);
    assert(pow(2, 107) % 6889 == 3093);
    lemma_pow_mod_step(2, 107, 6889, 3093);
    assert(pow(2, 215) % 6889 == 2545);
    lemma_pow_mod_step(2, 215, 6889, 2545);
    assert(pow(2, 430) % 6889 == 1365);
    lemma_pow_mod_step(2, 430, 6889, 1365);
    assert(pow(2, 861) % 6889 == 6390);
    lemma_pow_mod_step(2, 861, 6889, 6390);
    assert(pow(2, 1722) % 6889 == 997);
    lemma_pow_mod_step(2, 1722, 6889, 997);
    assert(pow(2, 3444) % 6889 == 1993);
    assert forall|r: nat| r < 3 implies #[trigger] (pow(2, 861 * pow2(r)) % 6889) != 6888 by {
        assert(r == 0 || r == 1 || r == 2);
        if r == 0 {
            assert(861 * pow2(0) == 861);
        }
        if r == 1 {
            assert(861 * pow2(1) == 1722);
        }
        if r == 2 {
            assert(861 * pow2(2) == 3444);
        }
    }
}

/// `6893` is not a strong probable prime to base `2`.
proof fn lemma_not_spp2_6893()
    ensures
        !strong_probable_prime(6893, 2),
{
    vstd::arithmetic::power2::lemma2_to64();
    lemma_two_adic_unique(6892, 2);
    assert(odd_part(6892) == 1723);
    lemma_pow1(2);
    lemma_pow_mod_step(2, 1, 6893, 2);
    assert(pow(2, 3) % 6893 == 8);
    lemma_pow_mod_step(2, 3, 6893, 8);
    assert(pow(2, 6) % 6893 == 64);
    lemma_pow_mod_step(2, 6, 6893, 64);
    assert(pow(2, 13) % 6893 == 1299);
    lemma_pow_mod_step(2, 13, 6893, 1299);
    assert(pow(2, 26) % 6893 == 5509);
    lemma_pow_mod_step(2, 26, 6893, 5509);
    assert(pow(2, 53) % 6893 == 5297);
    lemma_pow_mod_step(2, 53, 6893, 5297);
    assert(pow(2, 107) % 6893 == 505);
    lemma_pow_mod_step(2, 107, 6893, 505);
    assert(pow(2, 215) % 6893 == 6861);
    lemma_pow_mod_step(2, 215, 6893, 6861);
    assert(pow(2, 430) % 6893 == 1024);
    lemma_pow_mod_step(2, 430, 6893, 1024);
    assert(pow(2, 861) % 6893 == 1680);
    lemma_pow_mod_step(2, 861, 6893, 1680);
    assert(pow(2, 1723) % 6893 == 6326);
    lemma_pow_mod_step(2, 1723, 6893, 6326);
    assert(pow(2, 3446) % 6893 == 4411);
    assert forall|r: nat| r < 2 implies #[trigger] (pow(2, 1723 * pow2(r)) % 6893) != 6892 by {
        assert(r == 0 || r == 1);
        if r == 0 {
            assert(1723 * pow2(0) == 1723);
        }
        if r == 1 {
            assert(1723 * pow2(1) == 3446);
        }
    }
}

/// `6901` is not a strong probable prime to base `2`.
proof fn lemma_not_spp2_6901()
    ensures
        !strong_probable_prime(6901, 2),
{
    vstd::arithmetic::power2::lemma2_to64();
    lemma_two_adic_unique(6900, 2);
    assert(odd_part(6900) == 1725);
    lemma_pow1(2);
    lemma_pow_mod_step(2, 1, 6901, 2);
    assert(pow(2, 3) % 6901 == 8);
    lemma_pow_mod_step(2, 3, 6901, 8);
    assert(pow(2, 6) % 6901 == 64);
    lemma_pow_mod_step(2, 6, 6901, 64);
    assert(pow(2, 13) % 6901 == 1291);
    lemma_pow_mod_step(2, 13, 6901, 1291);
    assert(pow(2, 26) % 6901 == 3540);
    lemma_pow_mod_step(2, 26, 6901, 3540);
    assert(pow(2, 53) % 6901 == 5669);
    lemma_pow_mod_step(2, 53, 6901, 5669);
    assert(pow(2, 107) % 6901 == 6109);
    lemma_pow_mod_step(2, 107, 6901, 6109);
    assert(pow(2, 215) % 6901 == 5447);
    lemma_pow_mod_step(2, 215, 6901, 5447);
    assert(pow(2, 431) % 6901 == 4820);
    lemma_pow_mod_step(2, 431, 6901, 4820);
    assert(pow(2, 862) % 6901 == 3634);
    lemma_pow_mod_step(2, 862, 6901, 3634);
    assert(pow(2, 1725) % 6901 == 1785);
    lemma_pow_mod_step(2, 1725, 6901, 1785);
    assert(pow(2, 3450) % 6901 == 4864);
    assert forall|r: nat| r < 2 implies #[trigger] (pow(2, 1725 * pow2(r)) % 6901) != 6900 by {
        assert(r == 0 || r == 1);
        if r == 0 {
            assert(1725 * pow2(0) == 1725);
        }
        if r == 1 {
            assert(1725 * pow2(1) == 3450);
        }
    }
}

/// `6943` is not a strong probable prime to base `2`.
proof fn lemma_not_spp2_6943()
    ensures
        !strong_probable_prime(6943, 2),
{
    vstd::arithmetic::power2::lemma2_to64();
    lemma_two_adic_unique(6942, 1);
    assert(odd_part(6942) == 3471);
    lemma_pow1(2);
    lemma_pow_mod_step(2, 1, 6943, 2);
    assert(pow(2, 3) % 6943 == 8);
    lemma_pow_mod_step(2, 3, 6943, 8);
    assert(pow(2, 6) % 6943 == 64);
    lemma_pow_mod_step(2, 6, 6943, 64);
    assert(pow(2, 13) % 6943 == 1249);
    lemma_pow_mod_step(2, 13, 6943, 1249);
    assert(pow(2, 27) % 6943 == 2595);
    lemma_pow_mod_step(2, 27, 6943, 2595);
    assert(pow(2, 54) % 6943 == 6258);
    lemma_pow_mod_step(2, 54, 6943, 6258);
    assert(pow(2, 108) % 6943 == 4044);
    lemma_pow_mod_step(2, 108, 6943, 4044);
    assert(pow(2, 216) % 6943 == 3171);
    lemma_pow_mod_step(2, 216, 6943, 3171);
    assert(pow(2, 433) % 6943 == 3554);
    lemma_pow_mod_step(2, 433, 6943, 3554);
    assert(pow(2, 867) % 6943 == 3198);
    lemma_pow_mod_step(2, 867, 6943, 3198);
    assert(pow(2, 1735) % 6943 == 330);
    lemma_pow_mod_step(2, 1735, 6943, 330);
    assert(pow(2, 3471) % 6943 == 2567);
    assert forall|r: nat| r < 1 implies #[trigger] (pow(2, 3471 * pow2(r)) % 6943) != 6942 by {
        assert(r == 0);
        if r == 0 {
            assert(3471 * pow2(0) == 3471);
        }
    }
}

/// `7031` is not a strong probable prime to base `2`.
proof fn lemma_not_spp2_7031()
    ensures
        !strong_probable_prime(7031, 2),
{
    vstd::arithmetic::power2::lemma2_to64();
    lemma_two_adic_unique(7030, 1);
    assert(odd_part(7030) == 3515);
    lemma_pow1(2);
    lemma_pow_mod_step(2, 1, 7031, 2);
    assert(pow(2, 3) % 7031 == 8);
    lemma_pow_mod_step(2, 3, 7031, 8);
    assert(pow(2, 6) % 7031 == 64);
    lemma_pow_mod_step(2, 6, 7031, 64);
    assert(pow(2, 13) % 7031 == 1161);
    lemma_pow_mod_step(2, 13, 7031, 1161);
    assert(pow(2, 27) % 7031 == 2969);
    lemma_pow_mod_step(2, 27, 7031, 2969);
    assert(pow(2, 54) % 7031 == 5118);
    lemma_pow_mod_step(2, 54, 7031, 5118);
    assert(pow(2, 109) % 7031 == 6898);
    lemma_pow_mod_step(2, 109, 7031, 6898);
    assert(pow(2, 219) % 7031 == 223);
    lemma_pow_mod_step(2, 219, 7031, 223);
    assert(pow(2, 439) % 7031 == 1024);
    lemma_pow_mod_step(2, 439, 7031, 1024);
    assert(pow(2, 878) % 7031 == 957);
    lemma_pow_mod_step(2, 878, 7031, 957);
    assert(pow(2, 1757) % 7031 == 3638);
    lemma_pow_mod_step(2, 1757, 7031, 3638);
    assert(pow(2, 3515) % 7031 == 5404);
    assert forall|r: nat| r < 1 implies #[trigger] (pow(2, 3515 * pow2(r)) % 7031) != 7030 by {
        assert(r == 0);
        if r == 0 {
            assert(3515 * pow2(0) == 3515);
        }
    }
}

/// `7081` is not a strong probable prime to base `2`.
proof fn lemma_not_spp2_7081()
    ensures
        !strong_probable_prime(7081, 2),
{
    vstd::arithmetic::power2::lemma2_to64();
    lemma_two_adic_unique(7080, 3);
    assert(odd_part(7080) == 885);
    lemma_pow1(2);
    lemma_pow_mod_step(2, 1, 7081, 2);
    assert(pow(2, 3) % 7081 == 8);
    lemma_pow_mod_step(2, 3, 7081, 8);
    assert(pow(2, 6) % 7081 == 64);
    lemma_pow_mod_step(2, 6, 7081, 64);
    assert(pow(2, 13) % 7081 == 1111);
    lemma_pow_mod_step(2, 13, 7081, 1111);
    assert(pow(2, 27) % 7081 == 4454);
    lemma_pow_mod_step(2, 27, 7081, 4454);
    assert(pow(2, 55) % 7081 == 1389);
    lemma_pow_mod_step(2, 55, 7081, 1389);
    assert(pow(2, 110) % 7081 == 3289);
    lemma_pow_mod_step(2, 110, 7081, 3289);
    assert(pow(2, 221) % 7081 == 2587);
    lemma_pow_mod_step(2, 221, 7081, 2587);
    assert(pow(2, 442) % 7081 == 1024);
    lemma_pow_mod_step(2, 442, 7081, 1024);
    assert(pow(2, 885) % 7081 == 1176);
    lemma_pow_mod_step(2, 885, 7081, 1176);
    assert(pow(2, 1770) % 7081 == 2181);
    lemma_pow_mod_step(2, 1770, 7081, 2181);
    assert(pow(2, 3540) % 7081 == 5410);
    assert forall|r: nat| r < 3 implies #[trigger] (pow(2, 885 * pow2(r)) % 7081) != 7080 by {
        assert(r == 0 || r == 1 || r == 2);
        if r == 0 {
            assert(885 * pow2(0) == 885);
        }
        if r == 1 {
            assert(885 * pow2(1) == 1770);
        }
        if r == 2 {
            assert(885 * pow2(2) == 3540);
        }
    }
}

/// `7169` is not a strong probable prime to base `2`.
proof fn lemma_not_spp2_7169()
    ensures
        !strong_probable_prime(7169, 2),
{
    vstd::arithmetic::power2::lemma2_to64();
    lemma_two_adic_unique(7168, 10);
    assert(odd_part(7168) == 7);
    lemma_pow1(2);
    lemma_pow_mod_step(2, 1, 7169, 2);
    assert(pow(2, 3) % 7169 == 8);
    lemma_pow_mod_step(2, 3, 7169, 8);
    assert(pow(2, 7) % 7169 == 128);
    lemma_pow_mod_step(2, 7, 7169, 128);
    assert(pow(2, 14) % 7169 == 2046);
    lemma_pow_mod_step(2, 14, 7169, 2046);
    assert(pow(2, 28) % 7169 == 6589);
    lemma_pow_mod_step(2, 28, 7169, 6589);
    assert(pow(2, 56) % 7169 == 6626);
    lemma_pow_mod_step(2, 56, 7169, 6626);
    assert(pow(2, 112) % 7169 == 920);
    lemma_pow_mod_step(2, 112, 7169, 920);
    assert(pow(2, 224) % 7169 == 458);
    lemma_pow_mod_step(2, 224, 7169, 458);
    assert(pow(2, 448) % 7169 == 1863);
    lemma_pow_mod_step(2, 448, 7169, 1863);
    assert(pow(2, 896) % 7169 == 973);
    lemma_pow_mod_step(2, 896, 7169, 973);
    assert(pow(2, 1792) % 7169 == 421);
    lemma_pow_mod_step(2, 1792, 7169, 421);
    assert(pow(2, 3584) % 7169 == 5185);
    assert forall|r: nat| r < 10 implies #[trigger] (pow(2, 7 * pow2(r)) % 7169) != 7168 by {
        assert(r == 0 || r == 1 || r == 2 || r == 3 || r == 4 || r == 5 || r == 6 || r == 7 || r == 8 || r == 9);
        if r == 0 {
            assert(7 * pow2(0) == 7);
        }
        if r == 1 {
            assert(7 * pow2(1) == 14);
        }
        if r == 2 {
            assert(7 * pow2(2) == 28);
        }
        if r == 3 {
            assert(7 * pow2(3) == 56);
        }
        if r == 4 {
            assert(7 * pow2(4) == 112);
        }
        if r == 5 {
            assert(7 * pow2(5) == 224);
        }
        if r == 6 {
            assert(7 * pow2(6) == 448);
        }
        if r == 7 {
            assert(7 * pow2(7) == 896);
        }
        if r == 8 {
            assert(7 * pow2(8) == 1792);
        }
        if r == 9 {
            assert(7 * pow2(9) == 3584);
        }
    }
}

/// `7171` is not a strong probable prime to base `2`.
proof fn lemma_not_spp2_7171()
    ensures
        !strong_probable_prime(7171, 2),
{
    vstd::arithmetic::power2::lemma2_to64();
    lemma_two_adic_unique(7170, 1);
    assert(odd_part(7170) == 3585);
    lemma_pow1(2);
    lemma_pow_mod_step(2, 1, 7171, 2);
    assert(pow(2, 3) % 7171 == 8);
    lemma_pow_mod_step(2, 3, 7171, 8);
    assert(pow(2, 7) % 7171 == 128);
    lemma_pow_mod_step(2, 7, 7171, 128);
    assert(pow(2, 14) % 7171 == 2042);
    lemma_pow_mod_step(2, 14, 7171, 2042);
    assert(pow(2, 28) % 7171 == 3413);
    lemma_pow_mod_step(2, 28, 7171, 3413);
    assert(pow(2, 56) % 7171 == 2865);
    lemma_pow_mod_step(2, 56, 7171, 2865);
    assert(pow(2, 112) % 7171 == 4601);
    lemma_pow_mod_step(2, 112, 7171, 4601);
    assert(pow(2, 224) % 7171 == 409);
    lemma_pow_mod_step(2, 224, 7171, 409);
    assert(pow(2, 448) % 7171 == 2348);
    lemma_pow_mod_step(2, 448, 7171, 2348);
    assert(pow(2, 896) % 7171 == 5776);
    lemma_pow_mod_step(2, 896, 7171, 5776);
    assert(pow(2, 1792) % 7171 == 2684);
    lemma_pow_mod_step(2, 1792, 7171, 2684);
    assert(pow(2, 3585) % 7171 == 1173);
    assert forall|r: nat| r < 1 implies #[trigger] (pow(2, 3585 * pow2(r)) % 7171) != 7170 by {
        assert(r == 0);
        if r == 0 {
            assert(3585 * pow2(0) == 3585);
        }
    }
}

/// `7261` is not a strong probable prime to base `2`.
proof fn lemma_not_spp2_7261()
    ensures
        !strong_probable_prime(7261, 2),
{
    vstd::arithmetic::power2::lemma2_to64();
    lemma_two_adic_unique(7260, 2);
    assert(odd_part(7260) == 1815);
    lemma_pow1(2);
    lemma_pow_mod_step(2, 1, 7261, 2);
    assert(pow(2, 3) % 7261 == 8);
    lemma_pow_mod_step(2, 3, 7261, 8);
    assert(pow(2, 7) % 7261 == 128);
    lemma_pow_mod_step(2, 7, 7261, 128);
    assert(pow(2, 14) % 7261 == 1862);
    lemma_pow_mod_step(2, 14, 7261, 1862);
    assert(pow(2, 28) % 7261 == 3547);
    lemma_pow_mod_step(2, 28, 7261, 3547);
    assert(pow(2, 56) % 7261 == 5157);
    lemma_pow_mod_step(2, 56, 7261, 5157);
    assert(pow(2, 113) % 7261 == 2473);
    lemma_pow_mod_step(2, 113, 7261, 2473);
    assert(pow(2, 226) % 7261 == 1967);
    lemma_pow_mod_step(2, 226, 7261, 1967);
    assert(pow(2, 453) % 7261 == 5213);
    lemma_pow_mod_step(2, 453, 7261, 5213);
    assert(pow(2, 907) % 7261 == 2153);
    lemma_pow_mod_step(2, 907, 7261, 2153);
    assert(pow(2, 1815) % 7261 == 5782);
    lemma_pow_mod_step(2, 1815, 7261, 5782);
    assert(pow(2, 3630) % 7261 == 1880);
    assert forall|r: nat| r < 2 implies #[trigger] (pow(2, 1815 * pow2(r)) % 7261) != 7260 by {
        assert(r == 0 || r == 1);
        if r == 0 {
            assert(1815 * pow2(0) == 1815);
        }
        if r == 1 {
            assert(1815 * pow2(1) == 3630);
        }
    }
}

/// `7303` is not a strong probable prime to base `2`.
proof fn lemma_not_spp2_7303()
    ensures
        !strong_probable_prime(7303, 2),
{
    vstd::arithmetic::power2::lemma2_to64();
    lemma_two_adic_unique(7302, 1);
    assert(odd_part(7302) == 3651);
    lemma_pow1(2);
    lemma_pow_mod_step(2, 1, 7303, 2);
    assert(pow(2, 3) % 7303 == 8);
    lemma_pow_mod_step(2, 3, 7303, 8);
    assert(pow(2, 7) % 7303 == 128);
    lemma_pow_mod_step(2, 7, 7303, 128);
    assert(pow(2, 14) % 7303 == 1778);
    lemma_pow_mod_step(2, 14, 7303, 1778);
    assert(pow(2, 28) % 7303 == 6388);
    lemma_pow_mod_step(2, 28, 7303, 6388);
    assert(pow(2, 57) % 7303 == 2063);
    lemma_pow_mod_step(2, 57, 7303, 2063);
    assert(pow(2, 114) % 7303 == 5623);
    lemma_pow_mod_step(2, 114, 7303, 5623);
    assert(pow(2, 228) % 7303 == 3442);
    lemma_pow_mod_step(2, 228, 7303, 3442);
    assert(pow(2, 456) % 7303 == 1898);
    lemma_pow_mod_step(2, 456, 7303, 1898);
    assert(pow(2, 912) % 7303 == 2025);
    lemma_pow_mod_step(2, 912, 7303, 2025);
    assert(pow(2, 1825) % 7303 == 7284);
    lemma_pow_mod_step(2, 1825, 7303, 7284);
    assert(pow(2, 3651) % 7303 == 722);
    assert forall|r: nat| r < 1 implies #[trigger] (pow(2, 3651 * pow2(r)) % 7303) != 7302 by {
        assert(r == 0);
        if r == 0 {
            assert(3651 * pow2(0) == 3651);
        }
    }
}

/// `7313` is not a strong probable prime to base `2`.
proof fn lemma_not_spp2_7313()
    ensures
        !strong_probable_prime(7313, 2),
{
    vstd::arithmetic::power2::lemma2_to64();
    lemma_two_adic_unique(7312, 4);
    assert(odd_part(7312) == 457);
    lemma_pow1(2);
    lemma_pow_mod_step(2, 1, 7313, 2);
    assert(pow(2, 3) % 7313 == 8);
    lemma_pow_mod_step(2, 3, 7313, 8);
    assert(pow(2, 7) % 7313 == 128);
    lemma_pow_mod_step(2, 7, 7313, 128);
    assert(pow(2, 14) % 7313 == 1758);
    lemma_pow_mod_step(2, 14, 7313, 1758);
    assert(pow(2, 28) % 7313 == 4478);
    lemma_pow_mod_step(2, 28, 7313, 4478);
    assert(pow(2, 57) % 7313 == 476);
    lemma_pow_mod_step(2, 57, 7313, 476);
    assert(pow(2, 114) % 7313 == 7186);
    lemma_pow_mod_step(2, 114, 7313, 7186);
    assert(pow(2, 228) % 7313 == 1503);
    lemma_pow_mod_step(2, 228, 7313, 1503);
    assert(pow(2, 457) % 7313 == 5897);
    lemma_pow_mod_step(2, 457, 7313, 5897);
    assert(pow(2, 914) % 7313 == 1294);
    lemma_pow_mod_step(2, 914, 7313, 1294);
    assert(pow(2, 1828) % 7313 == 7072);
    lemma_pow_mod_step(2, 1828, 7313, 7072);
    assert(pow(2, 3656) % 7313 == 6890);
    assert forall|r: nat| r < 4 implies #[trigger] (pow(2, 457 * pow2(r)) % 7313) != 7312 by {
        assert(r == 0 || r == 1 || r == 2 || r == 3);
        if r == 0 {
            assert(457 * pow2(0) == 457);
        }
        if r == 1 {
            assert(457 * pow2(1) == 914);
        }
        if r == 2 {
            assert(457 * pow2(2) == 1828);
        }
        if r == 3 {
            assert(457 * pow2(3) == 3656);
        }
    }
}

/// `7367` is not a strong probable prime to base `2`.
proof fn lemma_not_spp2_7367()
    ensures
        !strong_probable_prime(7367, 2),
{
    vstd::arithmetic::power2::lemma2_to64();
    lemma_two_adic_unique(7366, 1);
    assert(odd_part(7366) == 3683);
    lemma_pow1(2);
    lemma_pow_mod_step(2, 1, 7367, 2);
    assert(pow(2, 3) % 7367 == 8);
    lemma_pow_mod_step(2, 3, 7367, 8);
    assert(pow(2, 7) % 7367 == 128);
    lemma_pow_mod_step(2, 7, 7367, 128);
    assert(pow(2, 14) % 7367 == 1650);
    lemma_pow_mod_step(2, 14, 7367, 1650);
    assert(pow(2, 28) % 7367 == 4077);
    lemma_pow_mod_step(2, 28, 7367, 4077);
    assert(pow(2, 57) % 7367 == 3954);
    lemma_pow_mod_step(2, 57, 7367, 3954);
    assert(pow(2, 115) % 7367 == 2684);
    lemma_pow_mod_step(2, 115, 7367, 2684);
    assert(pow(2, 230) % 7367 == 6297);
    lemma_pow_mod_step(2, 230, 7367, 6297);
    assert(pow(2, 460) % 7367 == 3015);
    lemma_pow_mod_step(2, 460, 7367, 3015);
    assert(pow(2, 920) % 7367 == 6714);
    lemma_pow_mod_step(2, 920, 7367, 6714);
    assert(pow(2, 1841) % 7367 == 5613);
    lemma_pow_mod_step(2, 1841, 7367, 5613);
    assert(pow(2, 3683) % 7367 == 1587);
    assert forall|r: nat| r < 1 implies #[trigger] (pow(2, 3683 * pow2(r)) % 7367) != 7366 by {
        assert(r == 0);
        if r == 0 {
            assert(3683 * pow2(0) == 3683);
        }
    }
}

/// `7373` is not a strong probable prime to base `2`.
proof fn lemma_not_spp2_7373()
    ensures
        !strong_probable_prime(7373, 2),
{
    vstd::arithmetic::power2::lemma2_to64();
    lemma_two_adic_unique(7372, 2);
    assert(odd_part(7372) == 1843);
    lemma_pow1(2);
    lemma_pow_mod_step(2, 1, 7373, 2);
    assert(pow(2, 3) % 7373 == 8);
    lemma_pow_mod_step(2, 3, 7373, 8);
    assert(pow(2, 7) % 7373 == 128);
    lemma_pow_mod_step(2, 7, 7373, 128);
    assert(pow(2, 14) % 7373 == 1638);
    lemma_pow_mod_step(2, 14, 7373, 1638);
    assert(pow(2, 28) % 7373 == 6645);
    lemma_pow_mod_step(2, 28, 7373, 6645);
    assert(pow(2, 57) % 7373 == 5629);
    lemma_pow_mod_step(2, 57, 7373, 5629);
    assert(pow(2, 115) % 7373 == 347);
    lemma_pow_mod_step(2, 115, 7373, 347);
    assert(pow(2, 230) % 7373 == 2441);
    lemma_pow_mod_step(2, 230, 7373, 2441);
    assert(pow(2, 460) % 7373 == 1097);
    lemma_pow_mod_step(2, 460, 7373, 1097);
    assert(pow(2, 921) % 7373 == 3220);
    lemma_pow_mod_step(2, 921, 7373, 3220);
    assert(pow(2, 1843) % 7373 == 3924);
    lemma_pow_mod_step(2, 1843, 7373, 3924);
    assert(pow(2, 3686) % 7373 == 2952);
    assert forall|r: nat| r < 2 implies #[trigger] (pow(2, 1843 * pow2(r)) % 7373) != 7372 by {
        assert(r == 0 || r == 1);
        if r == 0 {
            assert(1843 * pow2(0) == 1843);
        }
        if r == 1 {
            assert(1843 * pow2(1) == 3686);
        }
    }
}

/// `7387` is not a strong probable prime to base `2`.
proof fn lemma_not_spp2_7387()
    ensures
        !strong_probable_prime(7387, 2),
{
    vstd::arithmetic::power2::lemma2_to64();
    lemma_two_adic_unique(7386, 1);
    assert(odd_part(7386) == 3693);
    lemma_pow1(2);
    lemma_pow_mod_step(2, 1, 7387, 2);
    assert(pow(2, 3) % 7387 == 8);
    lemma_pow_mod_step(2, 3, 7387, 8);
    assert(pow(2, 7) % 7387 == 128);
    lemma_pow_mod_step(2, 7, 7387, 128);
    assert(pow(2, 14) % 7387 == 1610);
    lemma_pow_mod_step(2, 14, 7387, 1610);
    assert(pow(2, 28) % 7387 == 6650);
    lemma_pow_mod_step(2, 28, 7387, 6650);
    assert(pow(2, 57) % 7387 == 449);
    lemma_pow_mod_step(2, 57, 7387, 449);
    assert(pow(2, 115) % 7387 == 4304);
    lemma_pow_mod_step(2, 115, 7387, 4304);
    assert(pow(2, 230) % 7387 == 5207);
    lemma_pow_mod_step(2, 230, 7387, 5207);
    assert(pow(2, 461) % 7387 == 5118);
    lemma_pow_mod_step(2, 461, 7387, 5118);
    assert(pow(2, 923) % 7387 == 6631);
    lemma_pow_mod_step(2, 923, 7387, 6631);
    assert(pow(2, 1846) % 7387 == 2737);
    lemma_pow_mod_step(2, 1846, 7387, 2737);
    assert(pow(2, 3693) % 7387 == 1502);
    assert forall|r: nat| r < 1 implies #[trigger] (pow(2, 3693 * pow2(r)) % 7387) != 7386 by {
        assert(r == 0);
        if r == 0 {
            assert(3693 * pow2(0) == 3693);
        }
    }
}

/// `7493` is not a strong probable prime to base `2`.
proof fn lemma_not_spp2_7493()
    ensures
        !strong_probable_prime(7493, 2),
{
    vstd::arithmetic::power2::lemma2_to64();
    lemma_two_adic_unique(7492, 2);
    assert(odd_part(7492) == 1873);
    lemma_pow1(2);
    lemma_pow_mod_step(2, 1, 7493, 2);
    assert(pow(2, 3) % 7493 == 8);
    lemma_pow_mod_step(2, 3, 7493, 8);
    assert(pow(2, 7) % 7493 == 128);
    lemma_pow_mod_step(2, 7, 7493, 128);
    assert(pow(2, 14) % 7493 == 1398);
    lemma_pow_mod_step(2, 14, 7493, 1398);
    assert(pow(2, 29) % 7493 == 4955);
    lemma_pow_mod_step(2, 29, 7493, 4955);
    assert(pow(2, 58) % 7493 == 4957);
    lemma_pow_mod_step(2, 58, 7493, 4957);
    assert(pow(2, 117) % 7493 == 4604);
    lemma_pow_mod_step(2, 117, 7493, 4604);
    assert(pow(2, 234) % 7493 == 6612);
    lemma_pow_mod_step(2, 234, 7493, 6612);
    assert(pow(2, 468) % 7493 == 4382);
    lemma_pow_mod_step(2, 468, 7493, 4382);
    assert(pow(2, 936) % 7493 == 4858);
    lemma_pow_mod_step(2, 936, 7493, 4858);
    assert(pow(2, 1873) % 7493 == 1921);
    lemma_pow_mod_step(2, 1873, 7493, 1921);
    assert(pow(2, 3746) % 7493 == 3685);
    assert forall|r: nat| r < 2 implies #[trigger] (pow(2, 1873 * pow2(r)) % 7493) != 7492 by {
        assert(r == 0 || r == 1);
        if r == 0 {
            assert(1873 * pow2(0) == 1873);
        }
        if r == 1 {
            assert(1873 * pow2(1) == 3746);
        }
    }
}

/// `7519` is not a strong probable prime to base `2`.
proof fn lemma_not_spp2_7519()
    ensures
        !strong_probable_prime(7519, 2),
{
    vstd::arithmetic::power2::lemma2_to64();
    lemma_two_adic_unique(7518, 1);
    assert(odd_part(7518) == 3759);
    lemma_pow1(2);
    lemma_pow_mod_step(2, 1, 7519, 2);
    assert(pow(2, 3) % 7519 == 8);
    lemma_pow_mod_step(2, 3, 7519, 8);
    assert(pow(2, 7) % 7519 == 128);
    lemma_pow_mod_step(2, 7, 7519, 128);
    assert(pow(2, 14) % 7519 == 1346);
    lemma_pow_mod_step(2, 14, 7519, 1346);
    assert(pow(2, 29) % 7519 == 6793);
    lemma_pow_mod_step(2, 29, 7519, 6793);
    assert(pow(2, 58) % 7519 == 746);
    lemma_pow_mod_step(2, 58, 7519, 746);
    assert(pow(2, 117) % 7519 == 220);
    lemma_pow_mod_step(2, 117, 7519, 220);
    assert(pow(2, 234) % 7519 == 3286);
    lemma_pow_mod_step(2, 234, 7519, 3286);
    assert(pow(2, 469) % 7519 == 1024);
    lemma_pow_mod_step(2, 469, 7519, 1024);
    assert(pow(2, 939) % 7519 == 6870);
    lemma_pow_mod_step(2, 939, 7519, 6870);
    assert(pow(2, 1879) % 7519 == 274);
    lemma_pow_mod_step(2, 1879, 7519, 274);
    assert(pow(2, 3759) % 7519 == 7291);
    assert forall|r: nat| r < 1 implies #[trigger] (pow(2, 3759 * pow2(r)) % 7519) != 7518 by {
        assert(r == 0);
        if r == 0 {
            assert(3759 * pow2(0) == 3759);
        }
    }
}

/// `7571` is not a strong probable prime to base `2`.
proof fn lemma_not_spp2_7571()
    ensures
        !strong_probable_prime(7571, 2),
{
    vstd::arithmetic::power2::lemma2_to64();
    lemma_two_adic_unique(7570, 1);
    assert(odd_part(7570) == 3785);
    lemma_pow1(2);
    lemma_pow_mod_step(2, 1, 7571, 2);
    assert(pow(2, 3) % 7571 == 8);
    lemma_pow_mod_step(2, 3, 7571, 8);
    assert(pow(2, 7) % 7571 == 128);
    lemma_pow_mod_step(2, 7, 7571, 128);
    assert(pow(2, 14) % 7571 == 1242);
    lemma_pow_mod_step(2, 14, 7571, 1242);
    assert(pow(2, 29) % 7571 == 3731);
    lemma_pow_mod_step(2, 29, 7571, 3731);
    assert(pow(2, 59) % 7571 == 2155);
    lemma_pow_mod_step(2, 59, 7571, 2155);
    assert(pow(2, 118) % 7571 == 3002);
    lemma_pow_mod_step(2, 118, 7571, 3002);
    assert(pow(2, 236) % 7571 == 2514);
    lemma_pow_mod_step(2, 236, 7571, 2514);
    assert(pow(2, 473) % 7571 == 4393);
    lemma_pow_mod_step(2, 473, 7571, 4393);
    assert(pow(2, 946) % 7571 == 7541);
    lemma_pow_mod_step(2, 946, 7571, 7541);
    assert(pow(2, 1892) % 7571 == 900);
    lemma_pow_mod_step(2, 1892, 7571, 900);
    assert(pow(2, 3785) % 7571 == 7377);
    assert forall|r: nat| r < 1 implies #[trigger] (pow(2, 3785 * pow2(r)) % 7571) != 7570 by {
        assert(r == 0);
        if r == 0 {
            assert(3785 * pow2(0) == 3785);
        }
    }
}

/// `7597` is not a strong probable prime to base `2`.
proof fn lemma_not_spp2_7597()
    ensures
        !strong_probable_prime(7597, 2),
{
    vstd::arithmetic::power2::lemma2_to64();
    lemma_two_adic_unique(7596, 2);
    assert(odd_part(7596) == 1899);
    lemma_pow1(2);
    lemma_pow_mod_step(2, 1, 7597, 2);
    assert(pow(2, 3) % 7597 == 8);
    lemma_pow_mod_step(2, 3, 7597, 8);
    assert(pow(2, 7) % 7597 == 128);
    lemma_pow_mod_step(2, 7, 7597, 128);
    assert(pow(2, 14) % 7597 == 1190);
    lemma_pow_mod_step(2, 14, 7597, 1190);
    assert(pow(2, 29) % 7597 == 6116);
    lemma_pow_mod_step(2, 29, 7597, 6116);
    assert(pow(2, 59) % 7597 == 3253);
    lemma_pow_mod_step(2, 59, 7597, 3253);
    assert(pow(2, 118) % 7597 == 6985);
    lemma_pow_mod_step(2, 118, 7597, 6985);
    assert(pow(2, 237) % 7597 == 4582);
    lemma_pow_mod_step(2, 237, 7597, 4582);
    assert(pow(2, 474) % 7597 == 4213);
    lemma_pow_mod_step(2, 474, 7597, 4213);
    assert(pow(2, 949) % 7597 == 5554);
    lemma_pow_mod_step(2, 949, 7597, 5554);
    assert(pow(2, 1899) % 7597 == 6192);
    lemma_pow_mod_step(2, 1899, 7597, 6192);
    assert(pow(2, 3798) % 7597 == 6402);
    assert forall|r: nat| r < 2 implies #[trigger] (pow(2, 1899 * pow2(r)) % 7597) != 7596 by {
        assert(r == 0 || r == 1);
        if r == 0 {
            assert(1899 * pow2(0) == 1899);
        }
        if r == 1 {
            assert(1899 * pow2(1) == 3798);
        }
    }
}

/// `7663` is not a strong probable prime to base `2`.
proof fn lemma_not_spp2_7663()
    ensures
        !strong_probable_prime(7663, 2),
{
    vstd::arithmetic::power2::lemma2_to64();
    lemma_two_adic_unique(7662, 1);
    assert(odd_part(7662) == 3831);
    lemma_pow1(2);
    lemma_pow_mod_step(2, 1, 7663, 2);
    assert(pow(2, 3) % 7663 == 8);
    lemma_pow_mod_step(2, 3, 7663, 8);
    assert(pow(2, 7) % 7663 == 128);
    lemma_pow_mod_step(2, 7, 7663, 128);
    assert(pow(2, 14) % 7663 == 1058);
    lemma_pow_mod_step(2, 14, 7663, 1058);
    assert(pow(2, 29) % 7663 == 1132);
    lemma_pow_mod_step(2, 29, 7663, 1132);
    assert(pow(2, 59) % 7663 == 3406);
    lemma_pow_mod_step(2, 59, 7663, 3406);
    assert(pow(2, 119) % 7663 == 5771);
    lemma_pow_mod_step(2, 119, 7663, 5771);
    assert(pow(2, 239) % 7663 == 2086);
    lemma_pow_mod_step(2, 239, 7663, 2086);
    assert(pow(2, 478) % 7663 == 6475);
    lemma_pow_mod_step(2, 478, 7663, 6475);
    assert(pow(2, 957) % 7663 == 2704);
    lemma_pow_mod_step(2, 957, 7663, 2704);
    assert(pow(2, 1915) % 7663 == 2228);
    lemma_pow_mod_step(2, 1915, 7663, 2228);
    assert(pow(2, 3831) % 7663 == 4383);
    assert forall|r: nat| r < 1 implies #[trigger] (pow(2, 3831 * pow2(r)) % 7663) != 7662 by {
        assert(r == 0);
        if r == 0 {
            assert(3831 * pow2(0) == 3831);
        }
    }
}

/// `7729` is not a strong probable prime to base `2`.
proof fn lemma_not_spp2_7729()
    ensures
        !strong_probable_prime(7729, 2),
{
    vstd::arithmetic::power2::lemma2_to64();
    lemma_two_adic_unique(7728, 4);
    assert(odd_part(7728) == 483);
    lemma_pow1(2);
    lemma_pow_mod_step(2, 1, 7729, 2);
    assert(pow(2, 3) % 7729 == 8);
    lemma_pow_mod_step(2, 3, 7729, 8);
    assert(pow(2, 7) % 7729 == 128);
    lemma_pow_mod_step(2, 7, 7729, 128);
    assert(pow(2, 15) % 7729 == 1852);
    lemma_pow_mod_step(2, 15, 7729, 1852);
    assert(pow(2, 30) % 7729 == 5957);
    lemma_pow_mod_step(2, 30, 7729, 5957);
    assert(pow(2, 60) % 7729 == 2010);
    lemma_pow_mod_step(2, 60, 7729, 2010);
    assert(pow(2, 120) % 7729 == 5562);
    lemma_pow_mod_step(2, 120, 7729, 5562);
    assert(pow(2, 241) % 7729 == 1043);
    lemma_pow_mod_step(2, 241, 7729, 1043);
    assert(pow(2, 483) % 7729 == 3849);
    lemma_pow_mod_step(2, 483, 7729, 3849);
    assert(pow(2, 966) % 7729 == 6037);
    lemma_pow_mod_step(2, 966, 7729, 6037);
    assert(pow(2, 1932) % 7729 == 3134);
    lemma_pow_mod_step(2, 1932, 7729, 3134);
    assert(pow(2, 3864) % 7729 == 6126);
    assert forall|r: nat| r < 4 implies #[trigger] (pow(2, 483 * pow2(r)) % 7729) != 7728 by {
        assert(r == 0 || r == 1 || r == 2 || r == 3);
        if r == 0 {
            assert(483 * pow2(0) == 483);
        }
        if r == 1 {
            assert(483 * pow2(1) == 966);
        }
        if r == 2 {
            assert(483 * pow2(2) == 1932);
        }
        if r == 3 {
            assert(483 * pow2(3) == 3864);
        }
    }
}

/// `7739` is not a strong probable prime to base `2`.
proof fn lemma_not_spp2_7739()
    ensures
        !strong_probable_prime(7739, 2),
{
    vstd::arithmetic::power2::lemma2_to64();
    lemma_two_adic_unique(7738, 1);
    assert(odd_part(7738) == 3869);
    lemma_pow1(2);
    lemma_pow_mod_step(2, 1, 7739, 2);
    assert(pow(2, 3) % 7739 == 8);
    lemma_pow_mod_step(2, 3, 7739, 8);
    assert(pow(2, 7) % 7739 == 128);
    lemma_pow_mod_step(2, 7, 7739, 128);
    assert(pow(2, 15) % 7739 == 1812);
    lemma_pow_mod_step(2, 15, 7739, 1812);
    assert(pow(2, 30) % 7739 == 2008);
    lemma_pow_mod_step(2, 30, 7739, 2008);
    assert(pow(2, 60) % 7739 == 45);
    lemma_pow_mod_step(2, 60, 7739, 45);
    assert(pow(2, 120) % 7739 == 2025);
    lemma_pow_mod_step(2, 120, 7739, 2025);
    assert(pow(2, 241) % 7739 == 5649);
    lemma_pow_mod_step(2, 241, 7739, 5649);
    assert(pow(2, 483) % 7739 == 6608);
    lemma_pow_mod_step(2, 483, 7739, 6608);
    assert(pow(2, 967) % 7739 == 4452);
    lemma_pow_mod_step(2, 967, 7739, 4452);
    assert(pow(2, 1934) % 7739 == 725);
    lemma_pow_mod_step(2, 1934, 7739, 725);
    assert(pow(2, 3869) % 7739 == 6485);
    assert forall|r: nat| r < 1 implies #[trigger] (pow(2, 3869 * pow2(r)) % 7739) != 7738 by {
        assert(r == 0);
        if r == 0 {
            assert(3869 * pow2(0) == 3869);
        }
    }
}

/// `7747` is not a strong probable prime to base `2`.
proof fn lemma_not_spp2_7747()
    ensures
        !strong_probable_prime(7747, 2),
{
    vstd::arithmetic::power2::lemma2_to64();
    lemma_two_adic_unique(7746, 1);
    assert(odd_part(7746) == 3873);
    lemma_pow1(2);
    lemma_pow_mod_step(2, 1, 7747, 2);
    assert(pow(2, 3) % 7747 == 8);
    lemma_pow_mod_step(2, 3, 7747, 8);
    assert(pow(2, 7) % 7747 == 128);
    lemma_pow_mod_step(2, 7, 7747, 128);
    assert(pow(2, 15) % 7747 == 1780);
    lemma_pow_mod_step(2, 15, 7747, 1780);
    assert(pow(2, 30) % 7747 == 7624);
    lemma_pow_mod_step(2, 30, 7747, 7624);
    assert(pow(2, 60) % 7747 == 7382);
    lemma_pow_mod_step(2, 60, 7747, 7382);
    assert(pow(2, 121) % 7747 == 3052);
    lemma_pow_mod_step(2, 121, 7747, 3052);
    assert(pow(2, 242) % 7747 == 2810);
    lemma_pow_mod_step(2, 242, 7747, 2810);
    assert(pow(2, 484) % 7747 == 1907);
    lemma_pow_mod_step(2, 484, 7747, 1907);
    assert(pow(2, 968) % 7747 == 3306);
    lemma_pow_mod_step(2, 968, 7747, 3306);
    assert(pow(2, 1936) % 7747 == 6366);
    lemma_pow_mod_step(2, 1936, 7747, 6366);
    assert(pow(2, 3873) % 7747 == 2798);
    assert forall|r: nat| r < 1 implies #[trigger] (pow(2, 3873 * pow2(r)) % 7747) != 7746 by {
        assert(r == 0);
        if r == 0 {
            assert(3873 * pow2(0) == 3873);
        }
    }
}

/// `7811` is not a strong probable prime to base `2`.
proof fn lemma_not_spp2_7811()
    ensures
        !strong_probable_prime(7811, 2),
{
    vstd::arithmetic::power2::lemma2_to64();
    lemma_two_adic_unique(7810, 1);
    assert(odd_part(7810) == 3905);
    lemma_pow1(2);
    lemma_pow_mod_step(2, 1, 7811, 2);
    assert(pow(2, 3) % 7811 == 8);
    lemma_pow_mod_step(2, 3, 7811, 8);
    assert(pow(2, 7) % 7811 == 128);
    lemma_pow_mod_step(2, 7, 7811, 128);
    assert(pow(2, 15) % 7811 == 1524);
    lemma_pow_mod_step(2, 15, 7811, 1524);
    assert(pow(2, 30) % 7811 == 2709);
    lemma_pow_mod_step(2, 30, 7811, 2709);
    assert(pow(2, 61) % 7811 == 493);
    lemma_pow_mod_step(2, 61, 7811, 493);
    assert(pow(2, 122) % 7811 == 908);
    lemma_pow_mod_step(2, 122, 7811, 908);
    assert(pow(2, 244) % 7811 == 4309);
    lemma_pow_mod_step(2, 244, 7811, 4309);
    assert(pow(2, 488) % 7811 == 734);
    lemma_pow_mod_step(2, 488, 7811, 734);
    assert(pow(2, 976) % 7811 == 7608);
    lemma_pow_mod_step(2, 976, 7811, 7608);
    assert(pow(2, 1952) % 7811 == 2154);
    lemma_pow_mod_step(2, 1952, 7811, 2154);
    assert(pow(2, 3905) % 7811 == 7775);
    assert forall|r: nat| r < 1 implies #[trigger] (pow(2, 3905 * pow2(r)) % 7811) != 7810 by {
        assert(r == 0);
        if r == 0 {
            assert(3905 * pow2(0) == 3905);
        }
    }
}

/// `7897` is not a strong probable prime to base `2`.
proof fn lemma_not_spp2_7897()
    ensures
        !strong_probable_prime(7897, 2),
{
    vstd::arithmetic::power2::lemma2_to64();
    lemma_two_adic_unique(7896, 3);
    assert(odd_part(7896) == 987);
    lemma_pow1(2);
    lemma_pow_mod_step(2, 1, 7897, 2);
    assert(pow(2, 3) % 7897 == 8);
    lemma_pow_mod_step(2, 3, 7897, 8);
    assert(pow(2, 7) % 7897 == 128);
    lemma_pow_mod_step(2, 7, 7897, 128);
    assert(pow(2, 15) % 7897 == 1180);
    lemma_pow_mod_step(2, 15, 7897, 1180);
    assert(pow(2, 30) % 7897 == 2528);
    lemma_pow_mod_step(2, 30, 7897, 2528);
    assert(pow(2, 61) % 7897 == 4222);
    lemma_pow_mod_step(2, 61, 7897, 4222);
    assert(pow(2, 123) % 7897 == 3510);
    lemma_pow_mod_step(2, 123, 7897, 3510);
    assert(pow(2, 246) % 7897 == 780);
    lemma_pow_mod_step(2, 246, 7897, 780);
    assert(pow(2, 493) % 7897 == 662);
    lemma_pow_mod_step(2, 493, 7897, 662);
    assert(pow(2, 987) % 7897 == 7818);
    lemma_pow_mod_step(2, 987, 7897, 7818);
    assert(pow(2, 1974) % 7897 == 6241);
    lemma_pow_mod_step(2, 1974, 7897, 6241);
    assert(pow(2, 3948) % 7897 == 2077);
    assert forall|r: nat| r < 3 implies #[trigger] (pow(2, 987 * pow2(r)) % 7897) != 7896 by {
        assert(r == 0 || r == 1 || r == 2);
        if r == 0 {
            assert(987 * pow2(0) == 987);
        }
        if r == 1 {
            assert(987 * pow2(1) == 1974);
        }
        if r == 2 {
            assert(987 * pow2(2) == 3948);
        }
    }
}

/// `7921` is not a strong probable prime to base `2`.
proof fn lemma_not_spp2_7921()
    ensures
        !strong_probable_prime(7921, 2),
{
    vstd::arithmetic::power2::lemma2_to64();
    lemma_two_adic_unique(7920, 4);
    assert(odd_part(7920) == 495);
    lemma_pow1(2);
    lemma_pow_mod_step(2, 1, 7921, 2);
    assert(pow(2, 3) % 7921 == 8);
    lemma_pow_mod_step(2, 3, 7921, 8);
    assert(pow(2, 7) % 7921 == 128);
    lemma_pow_mod_step(2, 7, 7921, 128);
    assert(pow(2, 15) % 7921 == 1084);
    lemma_pow_mod_step(2, 15, 7921, 1084);
    assert(pow(2, 30) % 7921 == 2748);
    lemma_pow_mod_step(2, 30, 7921, 2748);
    assert(pow(2, 61) % 7921 == 5582);
    lemma_pow_mod_step(2, 61, 7921, 5582);
    assert(pow(2, 123) % 7921 == 2941);
    lemma_pow_mod_step(2, 123, 7921, 2941);
    assert(pow(2, 247) % 7921 == 7419);
    lemma_pow_mod_step(2, 247, 7921, 7419);
    assert(pow(2, 495) % 7921 == 4985);
    lemma_pow_mod_step(2, 495, 7921, 4985);
    assert(pow(2, 990) % 7921 == 2048);
    lemma_pow_mod_step(2, 990, 7921, 2048);
    assert(pow(2, 1980) % 7921 == 4095);
    lemma_pow_mod_step(2, 1980, 7921, 4095);
    assert(pow(2, 3960) % 7921 == 268);
    assert forall|r: nat| r < 4 implies #[trigger] (pow(2, 495 * pow2(r)) % 7921) != 7920 by {
        assert(r == 0 || r == 1 || r == 2 || r == 3);
        if r == 0 {
            assert(495 * pow2(0) == 495);
        }
        if r == 1 {
            assert(495 * pow2(1) == 990);
        }
        if r == 2 {
            assert(495 * pow2(2) == 1980);
        }
        if r == 3 {
            assert(495 * pow2(3) == 3960);
        }
    }
}

/// `7957` is not a strong probable prime to base `2`.
proof fn lemma_not_spp2_7957()
    ensures
        !strong_probable_prime(7957, 2),
{
    vstd::arithmetic::power2::lemma2_to64();
    lemma_two_adic_unique(7956, 2);
    assert(odd_part(7956) == 1989);
    lemma_pow1(2);
    lemma_pow_mod_step(2, 1, 7957, 2);
    assert(pow(2, 3) % 7957 == 8);
    lemma_pow_mod_step(2, 3, 7957, 8);
    assert(pow(2, 7) % 7957 == 128);
    lemma_pow_mod_step(2, 7, 7957, 128);
    assert(pow(2, 15) % 7957 == 940);
    lemma_pow_mod_step(2, 15, 7957, 940);
    assert(pow(2, 31) % 7957 == 746);
    lemma_pow_mod_step(2, 31, 7957, 746);
    assert(pow(2, 62) % 7957 == 7483);
    lemma_pow_mod_step(2, 62, 7957, 7483);
    assert(pow(2, 124) % 7957 == 1880);
    lemma_pow_mod_step(2, 124, 7957, 1880);
    assert(pow(2, 248) % 7957 == 1492);
    lemma_pow_mod_step(2, 248, 7957, 1492);
    assert(pow(2, 497) % 7957 == 4165);
    lemma_pow_mod_step(2, 497, 7957, 4165);
    assert(pow(2, 994) % 7957 == 965);
    lemma_pow_mod_step(2, 994, 7957, 965);
    assert(pow(2, 1989) % 7957 == 512);
    lemma_pow_mod_step(2, 1989, 7957, 512);
    assert(pow(2, 3978) % 7957 == 7520);
    assert forall|r: nat| r < 2 implies #[trigger] (pow(2, 1989 * pow2(r)) % 7957) != 7956 by {
        assert(r == 0 || r == 1);
        if r == 0 {
            assert(1989 * pow2(0) == 1989);
        }
        if r == 1 {
            assert(1989 * pow2(1) == 3978);
        }
    }
}

/// `7979` is not a strong probable prime to base `2`.
proof fn lemma_not_spp2_7979()
    ensures
        !strong_probable_prime(7979, 2),
{
    vstd::arithmetic::power2::lemma2_to64();
    lemma_two_adic_unique(7978, 1);
    assert(odd_part(7978) == 3989);
    lemma_pow1(2);
    lemma_pow_mod_step(2, 1, 7979, 2);
    assert(pow(2, 3) % 7979 == 8);
    lemma_pow_mod_step(2, 3, 7979, 8);
    assert(pow(2, 7) % 7979 == 128);
    lemma_pow_mod_step(2, 7, 7979, 128);
    assert(pow(2, 15) % 7979 == 852);
    lemma_pow_mod_step(2, 15, 7979, 852);
    assert(pow(2, 31) % 7979 == 7609);
    lemma_pow_mod_step(2, 31, 7979, 7609);
    assert(pow(2, 62) % 7979 == 1257);
    lemma_pow_mod_step(2, 62, 7979, 1257);
    assert(pow(2, 124) % 7979 == 207);
    lemma_pow_mod_step(2, 124, 7979, 207);
    assert(pow(2, 249) % 7979 == 5908);
    lemma_pow_mod_step(2, 249, 7979, 5908);
    assert(pow(2, 498) % 7979 == 4318);
    lemma_pow_mod_step(2, 498, 7979, 4318);
    assert(pow(2, 997) % 7979 == 4381);
    lemma_pow_mod_step(2, 997, 7979, 4381);
    assert(pow(2, 1994) % 7979 == 3666);
    lemma_pow_mod_step(2, 1994, 7979, 3666);
    assert(pow(2, 3989) % 7979 == 5840);
    assert forall|r: nat| r < 1 implies #[trigger] (pow(2, 3989 * pow2(r)) % 7979) != 7978 by {
        assert(r == 0);
        if r == 0 {
            assert(3989 * pow2(0) == 3989);
        }
    }
}

/// `7991` is not a strong probable prime to base `2`.
proof fn lemma_not_spp2_7991()
    ensures
        !strong_probable_prime(7991, 2),
{
    vstd::arithmetic::power2::lemma2_to64();
    lemma_two_adic_unique(7990, 1);
    assert(odd_part(7990) == 3995);
    lemma_pow1(2);
    lemma_pow_mod_step(2, 1, 7991, 2);
    assert(pow(2, 3) % 7991 == 8);
    lemma_pow_mod_step(2, 3, 7991, 8);
    assert(pow(2, 7) % 7991 == 128);
    lemma_pow_mod_step(2, 7, 7991, 128);
    assert(pow(2, 15) % 7991 == 804);
    lemma_pow_mod_step(2, 15, 7991, 804);
    assert(pow(2, 31) % 7991 == 6281);
    lemma_pow_mod_step(2, 31, 7991, 6281);
    assert(pow(2, 62) % 7991 == 7385);
    lemma_pow_mod_step(2, 62, 7991, 7385);
    assert(pow(2, 124) % 7991 == 7641);
    lemma_pow_mod_step(2, 124, 7991, 7641);
    assert(pow(2, 249) % 7991 == 5270);
    lemma_pow_mod_step(2, 249, 7991, 5270);
    assert(pow(2, 499) % 7991 == 359);
    lemma_pow_mod_step(2, 499, 7991, 359);
    assert(pow(2, 998) % 7991 == 1025);
    lemma_pow_mod_step(2, 998, 7991, 1025);
    assert(pow(2, 1997) % 7991 == 7608);
    lemma_pow_mod_step(2, 1997, 7991, 7608);
    assert(pow(2, 3995) % 7991 == 5702);
    assert forall|r: nat| r < 1 implies #[trigger] (pow(2, 3995 * pow2(r)) % 7991) != 7990 by {
        assert(r == 0);
        if r == 0 {
            assert(3995 * pow2(0) == 3995);
        }
    }
}

/// `8003` is not a strong probable prime to base `2`.
proof fn lemma_not_spp2_8003()
    ensures
        !strong_probable_prime(8003, 2),
{
    vstd::arithmetic::power2::lemma2_to64();
    lemma_two_adic_unique(8002, 1);
    assert(odd_part(8002) == 4001);
    lemma_pow1(2);
    lemma_pow_mod_step(2, 1, 8003, 2);
    assert(pow(2, 3) % 8003 == 8);
    lemma_pow_mod_step(2, 3, 8003, 8);
    assert(pow(2, 7) % 8003 == 128);
    lemma_pow_mod_step(2, 7, 8003, 128);
    assert(pow(2, 15) % 8003 == 756);
    lemma_pow_mod_step(2, 15, 8003, 756);
    assert(pow(2, 31) % 8003 == 6646);
    lemma_pow_mod_step(2, 31, 8003, 6646);
    assert(pow(2, 62) % 8003 == 759);
    lemma_pow_mod_step(2, 62, 8003, 759);
    assert(pow(2, 125) % 8003 == 7733);
    lemma_pow_mod_step(2, 125, 8003, 7733);
    assert(pow(2, 250) % 8003 == 873);
    lemma_pow_mod_step(2, 250, 8003, 873);
    assert(pow(2, 500) % 8003 == 1844);
    lemma_pow_mod_step(2, 500, 8003, 1844);
    assert(pow(2, 1000) % 8003 == 7064);
    lemma_pow_mod_step(2, 1000, 8003, 7064);
    assert(pow(2, 2000) % 8003 == 1391);
    lemma_pow_mod_step(2, 2000, 8003, 1391);
    assert(pow(2, 4001) % 8003 == 4313);
    assert forall|r: nat| r < 1 implies #[trigger] (pow(2, 4001 * pow2(r)) % 8003) != 8002 by {
        assert(r == 0);
        if r == 0 {
            assert(4001 * pow2(0) == 4001);
        }
    }
}

/// `8023` is not a strong probable prime to base `2`.
proof fn lemma_not_spp2_8023()
    ensures
        !strong_probable_prime(8023, 2),
{
    vstd::arithmetic::power2::lemma2_to64();
    lemma_two_adic_unique(8022, 1);
    assert(odd_part(8022) == 4011);
    lemma_pow1(2);
    lemma_pow_mod_step(2, 1, 8023, 2);
    assert(pow(2, 3) % 8023 == 8);
    lemma_pow_mod_step(2, 3, 8023, 8);
    assert(pow(2, 7) % 8023 == 128);
    lemma_pow_mod_step(2, 7, 8023, 128);
    assert(pow(2, 15) % 8023 == 676);
    lemma_pow_mod_step(2, 15, 8023, 676);
    assert(pow(2, 31) % 8023 == 7353);
    lemma_pow_mod_step(2, 31, 8023, 7353);
    assert(pow(2, 62) % 8023 == 7635);
    lemma_pow_mod_step(2, 62, 8023, 7635);
    assert(pow(2, 125) % 8023 == 4237);
    lemma_pow_mod_step(2, 125, 8023, 4237);
    assert(pow(2, 250) % 8023 == 4718);
    lemma_pow_mod_step(2, 250, 8023, 4718);
    assert(pow(2, 501) % 8023 == 7444);
    lemma_pow_mod_step(2, 501, 8023, 7444);
    assert(pow(2, 1002) % 8023 == 6298);
    lemma_pow_mod_step(2, 1002, 8023, 6298);
    assert(pow(2, 2005) % 8023 == 6207);
    lemma_pow_mod_step(2, 2005, 8023, 6207);
    assert(pow(2, 4011) % 8023 == 806);
    assert forall|r: nat| r < 1 implies #[trigger] (pow(2, 4011 * pow2(r)) % 8023) != 8022 by {
        assert(r == 0);
        if r == 0 {
            assert(4011 * pow2(0) == 4011);
        }
    }
}

/// `8051` is not a strong probable prime to base `2`.
proof fn lemma_not_spp2_8051()
    ensures
        !strong_probable_prime(8051, 2),
{
    vstd::arithmetic::power2::lemma2_to64();
    lemma_two_adic_unique(8050, 1);
    assert(odd_part(8050) == 4025);
    lemma_pow1(2);
    lemma_pow_mod_step(2, 1, 8051, 2);
    assert(pow(2, 3) % 8051 == 8);
    lemma_pow_mod_step(2, 3, 8051, 8);
    assert(pow(2, 7) % 8051 == 128);
    lemma_pow_mod_step(2, 7, 8051, 128);
    assert(pow(2, 15) % 8051 == 564);
    lemma_pow_mod_step(2, 15, 8051, 564);
    assert(pow(2, 31) % 8051 == 163);
    lemma_pow_mod_step(2, 31, 8051, 163);
    assert(pow(2, 62) % 8051 == 2416);
    lemma_pow_mod_step(2, 62, 8051, 2416);
    assert(pow(2, 125) % 8051 == 162);
    lemma_pow_mod_step(2, 125, 8051, 162);
    assert(pow(2, 251) % 8051 == 4182);
    lemma_pow_mod_step(2, 251, 8051, 4182);
    assert(pow(2, 503) % 8051 == 4704);
    lemma_pow_mod_step(2, 503, 8051, 4704);
    assert(pow(2, 1006) % 8051 == 3468);
    lemma_pow_mod_step(2, 1006, 8051, 3468);
    assert(pow(2, 2012) % 8051 == 6881);
    lemma_pow_mod_step(2, 2012, 8051, 6881);
    assert(pow(2, 4025) % 8051 == 460);
    assert forall|r: nat| r < 1 implies #[trigger] (pow(2, 4025 * pow2(r)) % 8051) != 8050 by {
        assert(r == 0);
        if r == 0 {
            assert(4025 * pow2(0) == 4025);
        }
    }
}

/// `8083` is not a strong probable prime to base `2`.
proof fn lemma_not_spp2_8083()
    ensures
        !strong_probable_prime(8083, 2),
{
    vstd::arithmetic::power2::lemma2_to64();
    lemma_two_adic_unique(8082, 1);
    assert(odd_part(8082) == 4041);
    lemma_pow1(2);
    lemma_pow_mod_step(2, 1, 8083, 2);
    assert(pow(2, 3) % 8083 == 8);
    lemma_pow_mod_step(2, 3, 8083, 8);
    assert(pow(2, 7) % 8083 == 128);
    lemma_pow_mod_step(2, 7, 8083, 128);
    assert(pow(2, 15) % 8083 == 436);
    lemma_pow_mod_step(2, 15, 8083, 436);
    assert(pow(2, 31) % 8083 == 291);
    lemma_pow_mod_step(2, 31, 8083, 291);
    assert(pow(2, 63) % 8083 == 7702);
    lemma_pow_mod_step(2, 63, 8083, 7702);
    assert(pow(2, 126) % 8083 == 7750);
    lemma_pow_mod_step(2, 126, 8083, 7750);
    assert(pow(2, 252) % 8083 == 5810);
    lemma_pow_mod_step(2, 252, 8083, 5810);
    assert(pow(2, 505) % 8083 == 2984);
    lemma_pow_mod_step(2, 505, 8083, 2984);
    assert(pow(2, 1010) % 8083 == 4873);
    lemma_pow_mod_step(2, 1010, 8083, 4873);
    assert(pow(2, 2020) % 8083 == 6358);
    lemma_pow_mod_step(2, 2020, 8083, 6358);
    assert(pow(2, 4041) % 8083 == 2162);
    assert forall|r: nat| r < 1 implies #[trigger] (pow(2, 4041 * pow2(r)) % 8083) != 8082 by {
        assert(r == 0);
        if r == 0 {
            assert(4041 * pow2(0) == 4041);
        }
    }
}

/// `8137` is not a strong probable prime to base `2`.
proof fn lemma_not_spp2_8137()
    ensures
        !strong_probable_prime(8137, 2),
{
    vstd::arithmetic::power2::lemma2_to64();
    lemma_two_adic_unique(8136, 3);
    assert(odd_part(8136) == 1017);
    lemma_pow1(2);
    lemma_pow_mod_step(2, 1, 8137, 2);
    assert(pow(2, 3) % 8137 == 8);
    lemma_pow_mod_step(2, 3, 8137, 8);
    assert(pow(2, 7) % 8137 == 128);
    lemma_pow_mod_step(2, 7, 8137, 128);
    assert(pow(2, 15) % 8137 == 220);
    lemma_pow_mod_step(2, 15, 8137, 220);
    assert(pow(2, 31) % 8137 == 7293);
    lemma_pow_mod_step(2, 31, 8137, 7293);
    assert(pow(2, 63) % 8137 == 697);
    lemma_pow_mod_step(2, 63, 8137, 697);
    assert(pow(2, 127) % 8137 == 3315);
    lemma_pow_mod_step(2, 127, 8137, 3315);
    assert(pow(2, 254) % 8137 == 4275);
    lemma_pow_mod_step(2, 254, 8137, 4275);
    assert(pow(2, 508) % 8137 == 8060);
    lemma_pow_mod_step(2, 508, 8137, 8060);
    assert(pow(2, 1017) % 8137 == 3721);
    lemma_pow_mod_step(2, 1017, 8137, 3721);
    assert(pow(2, 2034) % 8137 == 4804);
    lemma_pow_mod_step(2, 2034, 8137, 4804);
    assert(pow(2, 4068) % 8137 == 1884);
    assert forall|r: nat| r < 3 implies #[trigger] (pow(2, 1017 * pow2(r)) % 8137) != 8136 by {
        assert(r == 0 || r == 1 || r == 2);
        if r == 0 {
            assert(1017 * pow2(0) == 1017);
        }
        if r == 1 {
            assert(1017 * pow2(1) == 2034);
        }
        if r == 2 {
            assert(1017 * pow2(2) == 4068);
        }
    }
}

/// `8201` is not a strong probable prime to base `2`.
proof fn lemma_not_spp2_8201()
    ensures
        !strong_probable_prime(8201, 2),
{
    vstd::arithmetic::power2::lemma2_to64();
    lemma_two_adic_unique(8200, 3);
    assert(odd_part(8200) == 1025);
    lemma_pow1(2);
    lemma_pow_mod_step(2, 1, 8201, 2);
    assert(pow(2, 2) % 8201 == 4);
    lemma_pow_mod_step(2, 2, 8201, 4);
    assert(pow(2, 4) % 8201 == 16);
    lemma_pow_mod_step(2, 4, 8201, 16);
    assert(pow(2, 8) % 8201 == 256);
    lemma_pow_mod_step(2, 8, 8201, 256);
    assert(pow(2, 16) % 8201 == 8129);
    lemma_pow_mod_step(2, 16, 8201, 8129);
    assert(pow(2, 32) % 8201 == 5184);
    lemma_pow_mod_step(2, 32, 8201, 5184);
    assert(pow(2, 64) % 8201 == 7380);
    lemma_pow_mod_step(2, 64, 8201, 7380);
    assert(pow(2, 128) % 8201 == 1559);
    lemma_pow_mod_step(2, 128, 8201, 1559);
    assert(pow(2, 256) % 8201 == 2985);
    lemma_pow_mod_step(2, 256, 8201, 2985);
    assert(pow(2, 512) % 8201 == 3939);
    lemma_pow_mod_step(2, 512, 8201, 3939);
    assert(pow(2, 1025) % 8201 == 7059);
    lemma_pow_mod_step(2, 1025, 8201, 7059);
    assert(pow(2, 2050) % 8201 == 205);
    lemma_pow_mod_step(2, 2050, 8201, 205);
    assert(pow(2, 4100) % 8201 == 1020);
    assert forall|r: nat| r < 3 implies #[trigger] (pow(2, 1025 * pow2(r)) % 8201) != 8200 by {
        assert(r == 0 || r == 1 || r == 2);
        if r == 0 {
            assert(1025 * pow2(0) == 1025);
        }
        if r == 1 {
            assert(1025 * pow2(1) == 2050);
        }
        if r == 2 {
            assert(1025 * pow2(2) == 4100);
        }
    }
}

/// `8249` is not a strong probable prime to base `2`.
proof fn lemma_not_spp2_8249()
    ensures
        !strong_probable_prime(8249, 2),
{
    vstd::arithmetic::power2::lemma2_to64();
    lemma_two_adic_unique(8248, 3);
    assert(odd_part(8248) == 1031);
    lemma_pow1(2);
    lemma_pow_mod_step(2, 1, 8249, 2);
    assert(pow(2, 2) % 8249 == 4);
    lemma_pow_mod_step(2, 2, 8249, 4);
    assert(pow(2, 4) % 8249 == 16);
    lemma_pow_mod_step(2, 4, 8249, 16);
    assert(pow(2, 8) % 8249 == 256);
    lemma_pow_mod_step(2, 8, 8249, 256);
    assert(pow(2, 16) % 8249 == 7793);
    lemma_pow_mod_step(2, 16, 8249, 7793);
    assert(pow(2, 32) % 8249 == 1711);
    lemma_pow_mod_step(2, 32, 8249, 1711);
    assert(pow(2, 64) % 8249 == 7375);
    lemma_pow_mod_step(2, 64, 8249, 7375);
    assert(pow(2, 128) % 8249 == 4968);
    lemma_pow_mod_step(2, 128, 8249, 4968);
    assert(pow(2, 257) % 8249 == 32);
    lemma_pow_mod_step(2, 257, 8249, 32);
    assert(pow(2, 515) % 8249 == 2048);
    lemma_pow_mod_step(2, 515, 8249, 2048);
    assert(pow(2, 1031) % 8249 == 7624);
    lemma_pow_mod_step(2, 1031, 8249, 7624);
    assert(pow(2, 2062) % 8249 == 2922);
    lemma_pow_mod_step(2, 2062, 8249, 2922);
    assert(pow(2, 4124) % 8249 == 369);
    assert forall|r: nat| r < 3 implies #[trigger] (pow(2, 1031 * pow2(r)) % 8249) != 8248 by {
        assert(r == 0 || r == 1 || r == 2);
        if r == 0 {
            assert(1031 * pow2(0) == 1031);
        }
        if r == 1 {
            assert(1031 * pow2(1) == 2062);
        }
        if r == 2 {
            assert(1031 * pow2(2) == 4124);
        }
    }
}

/// A divisor `a >= 2` of a number with no prime factor below `50` is at least `157` or a
/// prime from `53` to `151`.
proof fn lemma_large_divisor(a: nat, n: nat)
    requires
        a >= 2,
        n % a == 0,
        forall|i: int| 0 <= i < 15 ==> n % (#[trigger] small_primes()[i] as nat) != 0,
    ensures
        a >= 157 || a == 53 || a == 59 || a == 61 || a == 67 || a == 71 || a == 73 || a == 79 || a == 83 || a == 89 || a == 97 || a == 101 || a == 103 || a == 107 || a == 109 || a == 113 || a == 127 || a == 131 || a == 137 || a == 139 || a == 149 || a == 151,
{
    if !(a >= 157 || a == 53 || a == 59 || a == 61 || a == 67 || a == 71 || a == 73 || a == 79 || a == 83 || a == 89 || a == 97 || a == 101 || a == 103 || a == 107 || a == 109 || a == 113 || a == 127 || a == 131 || a == 137 || a == 139 || a == 149 || a == 151) {
        assert(a == 2 || a == 3 || a == 4 || a == 5 || a == 6 || a == 7 || a == 8 || a == 9 || a == 10 || a == 11 || a == 12 || a == 13 || a == 14 || a == 15 || a == 16 || a == 17 || a == 18 || a == 19 || a == 20 || a == 21 || a == 22 || a == 23 || a == 24 || a == 25 || a == 26 || a == 27 || a == 28 || a == 29 || a == 30 || a == 31 || a == 32 || a == 33 || a == 34 || a == 35 || a == 36 || a == 37 || a == 38 || a == 39 || a == 40 || a == 41 || a == 42 || a == 43 || a == 44 || a == 45 || a == 46 || a == 47 || a == 48 || a == 49 || a == 50 || a == 51 || a == 52 || a == 54 || a == 55 || a == 56 || a == 57 || a == 58 || a == 60 || a == 62 || a == 63 || a == 64 || a == 65 || a == 66 || a == 68 || a == 69 || a == 70 || a == 72 || a == 74 || a == 75 || a == 76 || a == 77 || a == 78 || a == 80 || a == 81 || a == 82 || a == 84 || a == 85 || a == 86 || a == 87 || a == 88 || a == 90 || a == 91 || a == 92 || a == 93 || a == 94 || a == 95 || a == 96 || a == 98 || a == 99 || a == 100 || a == 102 || a == 104 || a == 105 || a == 106 || a == 108 || a == 110 || a == 111 || a == 112 || a == 114 || a == 115 || a == 116 || a == 117 || a == 118 || a == 119 || a == 120 || a == 121 || a == 122 || a == 123 || a == 124 || a == 125 || a == 126 || a == 128 || a == 129 || a == 130 || a == 132 || a == 133 || a == 134 || a == 135 || a == 136 || a == 138 || a == 140 || a == 141 || a == 142 || a == 143 || a == 144 || a == 145 || a == 146 || a == 147 || a == 148 || a == 150 || a == 152 || a == 153 || a == 154 || a == 155 || a == 156);
        if a == 2 {
            lemma_divides_trans(2, 2, n);
            assert(small_primes()[0] == 2);
        }
        if a == 3 {
            lemma_divides_trans(3, 3, n);
            assert(small_primes()[1] == 3);
        }
        if a == 4 {
            lemma_divides_trans(2, 4, n);
            assert(small_primes()[0] == 2);
        }
        if a == 5 {
            lemma_divides_trans(5, 5, n);
            assert(small_primes()[2] == 5);
        }
        if a == 6 {
            lemma_divides_trans(2, 6, n);
            assert(small_primes()[0] == 2);
        }
        if a == 7 {
            lemma_divides_trans(7, 7, n);
            assert(small_primes()[3] == 7);
        }
        if a == 8 {
            lemma_divides_trans(2, 8, n);
            assert(small_primes()[0] == 2);
        }
        if a == 9 {
            lemma_divides_trans(3, 9, n);
            assert(small_primes()[1] == 3);
        }
        if a == 10 {
            lemma_divides_trans(2, 10, n);
            assert(small_primes()[0] == 2);
        }
        if a == 11 {
            lemma_divides_trans(11, 11, n);
            assert(small_primes()[4] == 11);
        }
        if a == 12 {
            lemma_divides_trans(2, 12, n);
            assert(small_primes()[0] == 2);
        }
        if a == 13 {
            lemma_divides_trans(13, 13, n);
            assert(small_primes()[5] == 13);
        }
        if a == 14 {
            lemma_divides_trans(2, 14, n);
            assert(small_primes()[0] == 2);
        }
        if a == 15 {
            lemma_divides_trans(3, 15, n);
            assert(small_primes()[1] == 3);
        }
        if a == 16 {
            lemma_divides_trans(2, 16, n);
            assert(small_primes()[0] == 2);
        }
        if a == 17 {
            lemma_divides_trans(17, 17, n);
            assert(small_primes()[6] == 17);
        }
        if a == 18 {
            lemma_divides_trans(2, 18, n);
            assert(small_primes()[0] == 2);
        }
        if a == 19 {
            lemma_divides_trans(19, 19, n);
            assert(small_primes()[7] == 19);
        }
        if a == 20 {
            lemma_divides_trans(2, 20, n);
            assert(small_primes()[0] == 2);
        }
        if a == 21 {
            lemma_divides_trans(3, 21, n);
            assert(small_primes()[1] == 3);
        }
        if a == 22 {
            lemma_divides_trans(2, 22, n);
            assert(small_primes()[0] == 2);
        }
        if a == 23 {
            lemma_divides_trans(23, 23, n);
            assert(small_primes()[8] == 23);
        }
        if a == 24 {
            lemma_divides_trans(2, 24, n);
            assert(small_primes()[0] == 2);
        }
        if a == 25 {
            lemma_divides_trans(5, 25, n);
            assert(small_primes()[2] == 5);
        }
        if a == 26 {
            lemma_divides_trans(2, 26, n);
            assert(small_primes()[0] == 2);
        }
        if a == 27 {
            lemma_divides_trans(3, 27, n);
            assert(small_primes()[1] == 3);
        }
        if a == 28 {
            lemma_divides_trans(2, 28, n);
            assert(small_primes()[0] == 2);
        }
        if a == 29 {
            lemma_divides_trans(29, 29, n);
            assert(small_primes()[9] == 29);
        }
        if a == 30 {
            lemma_divides_trans(2, 30, n);
            assert(small_primes()[0] == 2);
        }
        if a == 31 {
            lemma_divides_trans(31, 31, n);
            assert(small_primes()[10] == 31);
        }
        if a == 32 {
            lemma_divides_trans(2, 32, n);
            assert(small_primes()[0] == 2);
        }
        if a == 33 {
            lemma_divides_trans(3, 33, n);
            assert(small_primes()[1] == 3);
        }
        if a == 34 {
            lemma_divides_trans(2, 34, n);
            assert(small_primes()[0] == 2);
        }
        if a == 35 {
            lemma_divides_trans(5, 35, n);
            assert(small_primes()[2] == 5);
        }
        if a == 36 {
            lemma_divides_trans(2, 36, n);
            assert(small_primes()[0] == 2);
        }
        if a == 37 {
            lemma_divides_trans(37, 37, n);
            assert(small_primes()[11] == 37);
        }
        if a == 38 {
            lemma_divides_trans(2, 38, n);
            assert(small_primes()[0] == 2);
        }
        if a == 39 {
            lemma_divides_trans(3, 39, n);
            assert(small_primes()[1] == 3);
        }
        if a == 40 {
            lemma_divides_trans(2, 40, n);
            assert(small_primes()[0] == 2);
        }
        if a == 41 {
            lemma_divides_trans(41, 41, n);
            assert(small_primes()[12] == 41);
        }
        if a == 42 {
            lemma_divides_trans(2, 42, n);
            assert(small_primes()[0] == 2);
        }
        if a == 43 {
            lemma_divides_trans(43, 43, n);
            assert(small_primes()[13] == 43);
        }
        if a == 44 {
            lemma_divides_trans(2, 44, n);
            assert(small_primes()[0] == 2);
        }
        if a == 45 {
            lemma_divides_trans(3, 45, n);
            assert(small_primes()[1] == 3);
        }
        if a == 46 {
            lemma_divides_trans(2, 46, n);
            assert(small_primes()[0] == 2);
        }
        if a == 47 {
            lemma_divides_trans(47, 47, n);
            assert(small_primes()[14] == 47);
        }
        if a == 48 {
            lemma_divides_trans(2, 48, n);
            assert(small_primes()[0] == 2);
        }
        if a == 49 {
            lemma_divides_trans(7, 49, n);
            assert(small_primes()[3] == 7);
        }
        if a == 50 {
            lemma_divides_trans(2, 50, n);
            assert(small_primes()[0] == 2);
        }
        if a == 51 {
            lemma_divides_trans(3, 51, n);
            assert(small_primes()[1] == 3);
        }
        if a == 52 {
            lemma_divides_trans(2, 52, n);
            assert(small_primes()[0] == 2);
        }
        if a == 54 {
            lemma_divides_trans(2, 54, n);
            assert(small_primes()[0] == 2);
        }
        if a == 55 {
            lemma_divides_trans(5, 55, n);
            assert(small_primes()[2] == 5);
        }
        if a == 56 {
            lemma_divides_trans(2, 56, n);
            assert(small_primes()[0] == 2);
        }
        if a == 57 {
            lemma_divides_trans(3, 57, n);
            assert(small_primes()[1] == 3);
        }
        if a == 58 {
            lemma_divides_trans(2, 58, n);
            assert(small_primes()[0] == 2);
        }
        if a == 60 {
            lemma_divides_trans(2, 60, n);
            assert(small_primes()[0] == 2);
        }
        if a == 62 {
            lemma_divides_trans(2, 62, n);
            assert(small_primes()[0] == 2);
        }
        if a == 63 {
            lemma_divides_trans(3, 63, n);
            assert(small_primes()[1] == 3);
        }
        if a == 64 {
            lemma_divides_trans(2, 64, n);
            assert(small_primes()[0] == 2);
        }
        if a == 65 {
            lemma_divides_trans(5, 65, n);
            assert(small_primes()[2] == 5);
        }
        if a == 66 {
            lemma_divides_trans(2, 66, n);
            assert(small_primes()[0] == 2);
        }
        if a == 68 {
            lemma_divides_trans(2, 68, n);
            assert(small_primes()[0] == 2);
        }
        if a == 69 {
            lemma_divides_trans(3, 69, n);
            assert(small_primes()[1] == 3);
        }
        if a == 70 {
            lemma_divides_trans(2, 70, n);
            assert(small_primes()[0] == 2);
        }
        if a == 72 {
            lemma_divides_trans(2, 72, n);
            assert(small_primes()[0] == 2);
        }
        if a == 74 {
            lemma_divides_trans(2, 74, n);
            assert(small_primes()[0] == 2);
        }
        if a == 75 {
            lemma_divides_trans(3, 75, n);
            assert(small_primes()[1] == 3);
        }
        if a == 76 {
            lemma_divides_trans(2, 76, n);
            assert(small_primes()[0] == 2);
        }
        if a == 77 {
            lemma_divides_trans(7, 77, n);
            assert(small_primes()[3] == 7);
        }
        if a == 78 {
            lemma_divides_trans(2, 78, n);
            assert(small_primes()[0] == 2);
        }
        if a == 80 {
            lemma_divides_trans(2, 80, n);
            assert(small_primes()[0] == 2);
        }
        if a == 81 {
            lemma_divides_trans(3, 81, n);
            assert(small_primes()[1] == 3);
        }
        if a == 82 {
            lemma_divides_trans(2, 82, n);
            assert(small_primes()[0] == 2);
        }
        if a == 84 {
            lemma_divides_trans(2, 84, n);
            assert(small_primes()[0] == 2);
        }
        if a == 85 {
            lemma_divides_trans(5, 85, n);
            assert(small_primes()[2] == 5);
        }
        if a == 86 {
            lemma_divides_trans(2, 86, n);
            assert(small_primes()[0] == 2);
        }
        if a == 87 {
            lemma_divides_trans(3, 87, n);
            assert(small_primes()[1] == 3);
        }
        if a == 88 {
            lemma_divides_trans(2, 88, n);
            assert(small_primes()[0] == 2);
        }
        if a == 90 {
            lemma_divides_trans(2, 90, n);
            assert(small_primes()[0] == 2);
        }
        if a == 91 {
            lemma_divides_trans(7, 91, n);
            assert(small_primes()[3] == 7);
        }
        if a == 92 {
            lemma_divides_trans(2, 92, n);
            assert(small_primes()[0] == 2);
        }
        if a == 93 {
            lemma_divides_trans(3, 93, n);
            assert(small_primes()[1] == 3);
        }
        if a == 94 {
            lemma_divides_trans(2, 94, n);
            assert(small_primes()[0] == 2);
        }
        if a == 95 {
            lemma_divides_trans(5, 95, n);
            assert(small_primes()[2] == 5);
        }
        if a == 96 {
            lemma_divides_trans(2, 96, n);
            assert(small_primes()[0] == 2);
        }
        if a == 98 {
            lemma_divides_trans(2, 98, n);
            assert(small_primes()[0] == 2);
        }
        if a == 99 {
            lemma_divides_trans(3, 99, n);
            assert(small_primes()[1] == 3);
        }
        if a == 100 {
            lemma_divides_trans(2, 100, n);
            assert(small_primes()[0] == 2);
        }
        if a == 102 {
            lemma_divides_trans(2, 102, n);
            assert(small_primes()[0] == 2);
        }
        if a == 104 {
            lemma_divides_trans(2, 104, n);
            assert(small_primes()[0] == 2);
        }
        if a == 105 {
            lemma_divides_trans(3, 105, n);
            assert(small_primes()[1] == 3);
        }
        if a == 106 {
            lemma_divides_trans(2, 106, n);
            assert(small_primes()[0] == 2);
        }
        if a == 108 {
            lemma_divides_trans(2, 108, n);
            assert(small_primes()[0] == 2);
        }
        if a == 110 {
            lemma_divides_trans(2, 110, n);
            assert(small_primes()[0] == 2);
        }
        if a == 111 {
            lemma_divides_trans(3, 111, n);
            assert(small_primes()[1] == 3);
        }
        if a == 112 {
            lemma_divides_trans(2, 112, n);
            assert(small_primes()[0] == 2);
        }
        if a == 114 {
            lemma_divides_trans(2, 114, n);
            assert(small_primes()[0] == 2);
        }
        if a == 115 {
            lemma_divides_trans(5, 115, n);
            assert(small_primes()[2] == 5);
        }
        if a == 116 {
            lemma_divides_trans(2, 116, n);
            assert(small_primes()[0] == 2);
        }
        if a == 117 {
            lemma_divides_trans(3, 117, n);
            assert(small_primes()[1] == 3);
        }
        if a == 118 {
            lemma_divides_trans(2, 118, n);
            assert(small_primes()[0] == 2);
        }
        if a == 119 {
            lemma_divides_trans(7, 119, n);
            assert(small_primes()[3] == 7);
        }
        if a == 120 {
            lemma_divides_trans(2, 120, n);
            assert(small_primes()[0] == 2);
        }
        if a == 121 {
            lemma_divides_trans(11, 121, n);
            assert(small_primes()[4] == 11);
        }
        if a == 122 {
            lemma_divides_trans(2, 122, n);
            assert(small_primes()[0] == 2);
        }
        if a == 123 {
            lemma_divides_trans(3, 123, n);
            assert(small_primes()[1] == 3);
        }
        if a == 124 {
            lemma_divides_trans(2, 124, n);
            assert(small_primes()[0] == 2);
        }
        if a == 125 {
            lemma_divides_trans(5, 125, n);
            assert(small_primes()[2] == 5);
        }
        if a == 126 {
            lemma_divides_trans(2, 126, n);
            assert(small_primes()[0] == 2);
        }
        if a == 128 {
            lemma_divides_trans(2, 128, n);
            assert(small_primes()[0] == 2);
        }
        if a == 129 {
            lemma_divides_trans(3, 129, n);
            assert(small_primes()[1] == 3);
        }
        if a == 130 {
            lemma_divides_trans(2, 130, n);
            assert(small_primes()[0] == 2);
        }
        if a == 132 {
            lemma_divides_trans(2, 132, n);
            assert(small_primes()[0] == 2);
        }
        if a == 133 {
            lemma_divides_trans(7, 133, n);
            assert(small_primes()[3] == 7);
        }
        if a == 134 {
            lemma_divides_trans(2, 134, n);
            assert(small_primes()[0] == 2);
        }
        if a == 135 {
            lemma_divides_trans(3, 135, n);
            assert(small_primes()[1] == 3);
        }
        if a == 136 {
            lemma_divides_trans(2, 136, n);
            assert(small_primes()[0] == 2);
        }
        if a == 138 {
            lemma_divides_trans(2, 138, n);
            assert(small_primes()[0] == 2);
        }
        if a == 140 {
            lemma_divides_trans(2, 140, n);
            assert(small_primes()[0] == 2);
        }
        if a == 141 {
            lemma_divides_trans(3, 141, n);
            assert(small_primes()[1] == 3);
        }
        if a == 142 {
            lemma_divides_trans(2, 142, n);
            assert(small_primes()[0] == 2);
        }
        if a == 143 {
            lemma_divides_trans(11, 143, n);
            assert(small_primes()[4] == 11);
        }
        if a == 144 {
            lemma_divides_trans(2, 144, n);
            assert(small_primes()[0] == 2);
        }
        if a == 145 {
            lemma_divides_trans(5, 145, n);
            assert(small_primes()[2] == 5);
        }
        if a == 146 {
            lemma_divides_trans(2, 146, n);
            assert(small_primes()[0] == 2);
        }
        if a == 147 {
            lemma_divides_trans(3, 147, n);
            assert(small_primes()[1] == 3);
        }
        if a == 148 {
            lemma_divides_trans(2, 148, n);
            assert(small_primes()[0] == 2);
        }
        if a == 150 {
            lemma_divides_trans(2, 150, n);
            assert(small_primes()[0] == 2);
        }
        if a == 152 {
            lemma_divides_trans(2, 152, n);
            assert(small_primes()[0] == 2);
        }
        if a == 153 {
            lemma_divides_trans(3, 153, n);
            assert(small_primes()[1] == 3);
        }
        if a == 154 {
            lemma_divides_trans(2, 154, n);
            assert(small_primes()[0] == 2);
        }
        if a == 155 {
            lemma_divides_trans(5, 155, n);
            assert(small_primes()[2] == 5);
        }
        if a == 156 {
            lemma_divides_trans(2, 156, n);
            assert(small_primes()[0] == 2);
        }
    }
}

/// The primes from `3` to `47` have no proper divisor.
proof fn lemma_small_primes_prime(n: nat)
    requires
        small_primes().contains(n as u128),
        2 < n < 8321,
    ensures
        is_prime_number(n),
{
    let i = choose|i: int| 0 <= i < small_primes().len() && small_primes()[i] == n as u128;
    assert(0 <= i < 15 && small_primes()[i] == n);
    assert(i == 0 || i == 1 || i == 2 || i == 3 || i == 4 || i == 5 || i == 6 || i == 7 || i == 8 || i == 9 || i == 10
        || i == 11 || i == 12 || i == 13 || i == 14);
    assert((6nat + 1) * (6nat + 1) == 49nat) by (nonlinear_arith);
    assert(n == 3 || n == 5 || n == 7 || n == 11 || n == 13 || n == 17 || n == 19 || n == 23 || n == 29 || n == 31
        || n == 37 || n == 41 || n == 43 || n == 47);
    if n == 3 {
        assert forall|d: nat| 2 <= d <= 6 && d < 3 implies #[trigger] (3nat % d) != 0 by {
            assert(d == 2 || d == 3 || d == 4 || d == 5 || d == 6);
        }
        lemma_prime_by_trial(3, 6);
    }
    if n == 5 {
        assert forall|d: nat| 2 <= d <= 6 && d < 5 implies #[trigger] (5nat % d) != 0 by {
            assert(d == 2 || d == 3 || d == 4 || d == 5 || d == 6);
        }
        lemma_prime_by_trial(5, 6);
    }
    if n == 7 {
        assert forall|d: nat| 2 <= d <= 6 && d < 7 implies #[trigger] (7nat % d) != 0 by {
            assert(d == 2 || d == 3 || d == 4 || d == 5 || d == 6);
        }
        lemma_prime_by_trial(7, 6);
    }
    if n == 11 {
        assert forall|d: nat| 2 <= d <= 6 && d < 11 implies #[trigger] (11nat % d) != 0 by {
            assert(d == 2 || d == 3 || d == 4 || d == 5 || d == 6);
        }
        lemma_prime_by_trial(11, 6);
    }
    if n == 13 {
        assert forall|d: nat| 2 <= d <= 6 && d < 13 implies #[trigger] (13nat % d) != 0 by {
            assert(d == 2 || d == 3 || d == 4 || d == 5 || d == 6);
        }
        lemma_prime_by_trial(13, 6);
    }
    if n == 17 {
        assert forall|d: nat| 2 <= d <= 6 && d < 17 implies #[trigger] (17nat % d) != 0 by {
            assert(d == 2 || d == 3 || d == 4 || d == 5 || d == 6);
        }
        lemma_prime_by_trial(17, 6);
    }
    if n == 19 {
        assert forall|d: nat| 2 <= d <= 6 && d < 19 implies #[trigger] (19nat % d) != 0 by {
            assert(d == 2 || d == 3 || d == 4 || d == 5 || d == 6);
        }
        lemma_prime_by_trial(19, 6);
    }
    if n == 23 {
        assert forall|d: nat| 2 <= d <= 6 && d < 23 implies #[trigger] (23nat % d) != 0 by {
            assert(d == 2 || d == 3 || d == 4 || d == 5 || d == 6);
        }
        lemma_prime_by_trial(23, 6);
    }
    if n == 29 {
        assert forall|d: nat| 2 <= d <= 6 && d < 29 implies #[trigger] (29nat % d) != 0 by {
            assert(d == 2 || d == 3 || d == 4 || d == 5 || d == 6);
        }
        lemma_prime_by_trial(29, 6);
    }
    if n == 31 {
        assert forall|d: nat| 2 <= d <= 6 && d < 31 implies #[trigger] (31nat % d) != 0 by {
            assert(d == 2 || d == 3 || d == 4 || d == 5 || d == 6);
        }
        lemma_prime_by_trial(31, 6);
    }
    if n == 37 {
        assert forall|d: nat| 2 <= d <= 6 && d < 37 implies #[trigger] (37nat % d) != 0 by {
            assert(d == 2 || d == 3 || d == 4 || d == 5 || d == 6);
        }
        lemma_prime_by_trial(37, 6);
    }
    if n == 41 {
        assert forall|d: nat| 2 <= d <= 6 && d < 41 implies #[trigger] (41nat % d) != 0 by {
            assert(d == 2 || d == 3 || d == 4 || d == 5 || d == 6);
        }
        lemma_prime_by_trial(41, 6);
    }
    if n == 43 {
        assert forall|d: nat| 2 <= d <= 6 && d < 43 implies #[trigger] (43nat % d) != 0 by {
            assert(d == 2 || d == 3 || d == 4 || d == 5 || d == 6);
        }
        lemma_prime_by_trial(43, 6);
    }
    if n == 47 {
        assert forall|d: nat| 2 <= d <= 6 && d < 47 implies #[trigger] (47nat % d) != 0 by {
            assert(d == 2 || d == 3 || d == 4 || d == 5 || d == 6);
        }
        lemma_prime_by_trial(47, 6);
    }
}

/// Below `8321`, the Baillie–PSW test accepts only primes: every composite below `8321` is
/// caught by trial division up to `47` or fails the strong test to base `2`.  (`8321 = 53 * 157`
/// is the first composite without a factor below `50` that is a strong probable prime to
/// base `2`.)
pub proof fn lemma_bpsw_exact_below_8321(n: nat)
    requires
        n < 8321,
        bpsw_spec(n),
    ensures
        is_prime_number(n),
{
    if n <= 2 {
        assert(n == 2);
        assert(has_no_proper_divisor(2));
    } else if small_primes().contains(n as u128) {
        lemma_small_primes_prime(n);
    } else {
        assert(n % 2 == 1);
        assert(!(exists|i: int| 0 <= i < 15 && n % (#[trigger] small_primes()[i] as nat) == 0));
        assert(sprp_spec(n, seq![2u128]));
        assert(seq![2u128][0] == 2);
        assert(strong_probable_prime(n, 2));
        assert forall|d: nat| 1 < d < n implies #[trigger] (n % d) != 0 by {
            if n % d == 0 {
                lemma_fundamental_div_mod(n as int, d as int);
                let a = d;
                let b = n / d;
                assert(n == a * b);
                assert(b >= 2) by (nonlinear_arith)
                    requires
                        n == a * b,
                        a < n,
                ;
                lemma_mul_is_commutative(a as int, b as int);
                lemma_mod_multiples_basic(a as int, b as int);
                assert(n % b == 0);
                lemma_large_divisor(a, n);
                lemma_large_divisor(b, n);
                assert(a < 157 && b < 157) by (nonlinear_arith)
                    requires
                        n == a * b,
                        n < 8321,
                        a >= 53,
                        b >= 53,
                ;
                if a == 53 && b == 53 {
                    assert(n == 2809);
                    lemma_not_spp2_2809();
                }
                if a == 53 && b == 59 {
                    assert(n == 3127);
                    lemma_not_spp2_3127();
                }
                if a == 53 && b == 61 {
                    assert(n == 3233);
                    lemma_not_spp2_3233();
                }
                if a == 53 && b == 67 {
                    assert(n == 3551);
                    lemma_not_spp2_3551();
                }
                if a == 53 && b == 71 {
                    assert(n == 3763);
                    lemma_not_spp2_3763();
                }
                if a == 53 && b == 73 {
                    assert(n == 3869);
                    lemma_not_spp2_3869();
                }
                if a == 53 && b == 79 {
                    assert(n == 4187);
                    lemma_not_spp2_4187();
                }
                if a == 53 && b == 83 {
                    assert(n == 4399);
                    lemma_not_spp2_4399();
                }
                if a == 53 && b == 89 {
                    assert(n == 4717);
                    lemma_not_spp2_4717();
                }
                if a == 53 && b == 97 {
                    assert(n == 5141);
                    lemma_not_spp2_5141();
                }
                if a == 53 && b == 101 {
                    assert(n == 5353);
                    lemma_not_spp2_5353();
                }
                if a == 53 && b == 103 {
                    assert(n == 5459);
                    lemma_not_spp2_5459();
                }
                if a == 53 && b == 107 {
                    assert(n == 5671);
                    lemma_not_spp2_5671();
                }
                if a == 53 && b == 109 {
                    assert(n == 5777);
                    lemma_not_spp2_5777();
                }
                if a == 53 && b == 113 {
                    assert(n == 5989);
                    lemma_not_spp2_5989();
                }
                if a == 53 && b == 127 {
                    assert(n == 6731);
                    lemma_not_spp2_6731();
                }
                if a == 53 && b == 131 {
                    assert(n == 6943);
                    lemma_not_spp2_6943();
                }
                if a == 53 && b == 137 {
                    assert(n == 7261);
                    lemma_not_spp2_7261();
                }
                if a == 53 && b == 139 {
                    assert(n == 7367);
                    lemma_not_spp2_7367();
                }
                if a == 53 && b == 149 {
                    assert(n == 7897);
                    lemma_not_spp2_7897();
                }
                if a == 53 && b == 151 {
                    assert(n == 8003);
                    lemma_not_spp2_8003();
                }
                if a == 59 && b == 53 {
                    assert(n == 3127);
                    lemma_not_spp2_3127();
                }
                if a == 59 && b == 59 {
                    assert(n == 3481);
                    lemma_not_spp2_3481();
                }
                if a == 59 && b == 61 {
                    assert(n == 3599);
                    lemma_not_spp2_3599();
                }
                if a == 59 && b == 67 {
                    assert(n == 3953);
                    lemma_not_spp2_3953();
                }
                if a == 59 && b == 71 {
                    assert(n == 4189);
                    lemma_not_spp2_4189();
                }
                if a == 59 && b == 73 {
                    assert(n == 4307);
                    lemma_not_spp2_4307();
                }
                if a == 59 && b == 79 {
                    assert(n == 4661);
                    lemma_not_spp2_4661();
                }
                if a == 59 && b == 83 {
                    assert(n == 4897);
                    lemma_not_spp2_4897();
                }
                if a == 59 && b == 89 {
                    assert(n == 5251);
                    lemma_not_spp2_5251();
                }
                if a == 59 && b == 97 {
                    assert(n == 5723);
                    lemma_not_spp2_5723();
                }
                if a == 59 && b == 101 {
                    assert(n == 5959);
                    lemma_not_spp2_5959();
                }
                if a == 59 && b == 103 {
                    assert(n == 6077);
                    lemma_not_spp2_6077();
                }
                if a == 59 && b == 107 {
                    assert(n == 6313);
                    lemma_not_spp2_6313();
                }
                if a == 59 && b == 109 {
                    assert(n == 6431);
                    lemma_not_spp2_6431();
                }
                if a == 59 && b == 113 {
                    assert(n == 6667);
                    lemma_not_spp2_6667();
                }
                if a == 59 && b == 127 {
                    assert(n == 7493);
                    lemma_not_spp2_7493();
                }
                if a == 59 && b == 131 {
                    assert(n == 7729);
                    lemma_not_spp2_7729();
                }
                if a == 59 && b == 137 {
                    assert(n == 8083);
                    lemma_not_spp2_8083();
                }
                if a == 59 && b == 139 {
                    assert(n == 8201);
                    lemma_not_spp2_8201();
                }
                if a == 61 && b == 53 {
                    assert(n == 3233);
                    lemma_not_spp2_3233();
                }
                if a == 61 && b == 59 {
                    assert(n == 3599);
                    lemma_not_spp2_3599();
                }
                if a == 61 && b == 61 {
                    assert(n == 3721);
                    lemma_not_spp2_3721();
                }
                if a == 61 && b == 67 {
                    assert(n == 4087);
                    lemma_not_spp2_4087();
                }
                if a == 61 && b == 71 {
                    assert(n == 4331);
                    lemma_not_spp2_4331();
                }
                if a == 61 && b == 73 {
                    assert(n == 4453);
                    lemma_not_spp2_4453();
                }
                if a == 61 && b == 79 {
                    assert(n == 4819);
                    lemma_not_spp2_4819();
                }
                if a == 61 && b == 83 {
                    assert(n == 5063);
                    lemma_not_spp2_5063();
                }
                if a == 61 && b == 89 {
                    assert(n == 5429);
                    lemma_not_spp2_5429();
                }
                if a == 61 && b == 97 {
                    assert(n == 5917);
                    lemma_not_spp2_5917();
                }
                if a == 61 && b == 101 {
                    assert(n == 6161);
                    lemma_not_spp2_6161();
                }
                if a == 61 && b == 103 {
                    assert(n == 6283);
                    lemma_not_spp2_6283();
                }
                if a == 61 && b == 107 {
                    assert(n == 6527);
                    lemma_not_spp2_6527();
                }
                if a == 61 && b == 109 {
                    assert(n == 6649);
                    lemma_not_spp2_6649();
                }
                if a == 61 && b == 113 {
                    assert(n == 6893);
                    lemma_not_spp2_6893();
                }
                if a == 61 && b == 127 {
                    assert(n == 7747);
                    lemma_not_spp2_7747();
                }
                if a == 61 && b == 131 {
                    assert(n == 7991);
                    lemma_not_spp2_7991();
                }
                if a == 67 && b == 53 {
                    assert(n == 3551);
                    lemma_not_spp2_3551();
                }
                if a == 67 && b == 59 {
                    assert(n == 3953);
                    lemma_not_spp2_3953();
                }
                if a == 67 && b == 61 {
                    assert(n == 4087);
                    lemma_not_spp2_4087();
                }
                if a == 67 && b == 67 {
                    assert(n == 4489);
                    lemma_not_spp2_4489();
                }
                if a == 67 && b == 71 {
                    assert(n == 4757);
                    lemma_not_spp2_4757();
                }
                if a == 67 && b == 73 {
                    assert(n == 4891);
                    lemma_not_spp2_4891();
                }
                if a == 67 && b == 79 {
                    assert(n == 5293);
                    lemma_not_spp2_5293();
                }
                if a == 67 && b == 83 {
                    assert(n == 5561);
                    lemma_not_spp2_5561();
                }
                if a == 67 && b == 89 {
                    assert(n == 5963);
                    lemma_not_spp2_5963();
                }
                if a == 67 && b == 97 {
                    assert(n == 6499);
                    lemma_not_spp2_6499();
                }
                if a == 67 && b == 101 {
                    assert(n == 6767);
                    lemma_not_spp2_6767();
                }
                if a == 67 && b == 103 {
                    assert(n == 6901);
                    lemma_not_spp2_6901();
                }
                if a == 67 && b == 107 {
                    assert(n == 7169);
                    lemma_not_spp2_7169();
                }
                if a == 67 && b == 109 {
                    assert(n == 7303);
                    lemma_not_spp2_7303();
                }
                if a == 67 && b == 113 {
                    assert(n == 7571);
                    lemma_not_spp2_7571();
                }
                if a == 71 && b == 53 {
                    assert(n == 3763);
                    lemma_not_spp2_3763();
                }
                if a == 71 && b == 59 {
                    assert(n == 4189);
                    lemma_not_spp2_4189();
                }
                if a == 71 && b == 61 {
                    assert(n == 4331);
                    lemma_not_spp2_4331();
                }
                if a == 71 && b == 67 {
                    assert(n == 4757);
                    lemma_not_spp2_4757();
                }
                if a == 71 && b == 71 {
                    assert(n == 5041);
                    lemma_not_spp2_5041();
                }
                if a == 71 && b == 73 {
                    assert(n == 5183);
                    lemma_not_spp2_5183();
                }
                if a == 71 && b == 79 {
                    assert(n == 5609);
                    lemma_not_spp2_5609();
                }
                if a == 71 && b == 83 {
                    assert(n == 5893);
                    lemma_not_spp2_5893();
                }
                if a == 71 && b == 89 {
                    assert(n == 6319);
                    lemma_not_spp2_6319();
                }
                if a == 71 && b == 97 {
                    assert(n == 6887);
                    lemma_not_spp2_6887();
                }
                if a == 71 && b == 101 {
                    assert(n == 7171);
                    lemma_not_spp2_7171();
                }
                if a == 71 && b == 103 {
                    assert(n == 7313);
                    lemma_not_spp2_7313();
                }
                if a == 71 && b == 107 {
                    assert(n == 7597);
                    lemma_not_spp2_7597();
                }
                if a == 71 && b == 109 {
                    assert(n == 7739);
                    lemma_not_spp2_7739();
                }
                if a == 71 && b == 113 {
                    assert(n == 8023);
                    lemma_not_spp2_8023();
                }
                if a == 73 && b == 53 {
                    assert(n == 3869);
                    lemma_not_spp2_3869();
                }
                if a == 73 && b == 59 {
                    assert(n == 4307);
                    lemma_not_spp2_4307();
                }
                if a == 73 && b == 61 {
                    assert(n == 4453);
                    lemma_not_spp2_4453();
                }
                if a == 73 && b == 67 {
                    assert(n == 4891);
                    lemma_not_spp2_4891();
                }
                if a == 73 && b == 71 {
                    assert(n == 5183);
                    lemma_not_spp2_5183();
                }
                if a == 73 && b == 73 {
                    assert(n == 5329);
                    lemma_not_spp2_5329();
                }
                if a == 73 && b == 79 {
                    assert(n == 5767);
                    lemma_not_spp2_5767();
                }
                if a == 73 && b == 83 {
                    assert(n == 6059);
                    lemma_not_spp2_6059();
                }
                if a == 73 && b == 89 {
                    assert(n == 6497);
                    lemma_not_spp2_6497();
                }
                if a == 73 && b == 97 {
                    assert(n == 7081);
                    lemma_not_spp2_7081();
                }
                if a == 73 && b == 101 {
                    assert(n == 7373);
                    lemma_not_spp2_7373();
                }
                if a == 73 && b == 103 {
                    assert(n == 7519);
                    lemma_not_spp2_7519();
                }
                if a == 73 && b == 107 {
                    assert(n == 7811);
                    lemma_not_spp2_7811();
                }
                if a == 73 && b == 109 {
                    assert(n == 7957);
                    lemma_not_spp2_7957();
                }
                if a == 73 && b == 113 {
                    assert(n == 8249);
                    lemma_not_spp2_8249();
                }
                if a == 79 && b == 53 {
                    assert(n == 4187);
                    lemma_not_spp2_4187();
                }
                if a == 79 && b == 59 {
                    assert(n == 4661);
                    lemma_not_spp2_4661();
                }
                if a == 79 && b == 61 {
                    assert(n == 4819);
                    lemma_not_spp2_4819();
                }
                if a == 79 && b == 67 {
                    assert(n == 5293);
                    lemma_not_spp2_5293();
                }
                if a == 79 && b == 71 {
                    assert(n == 5609);
                    lemma_not_spp2_5609();
                }
                if a == 79 && b == 73 {
                    assert(n == 5767);
                    lemma_not_spp2_5767();
                }
                if a == 79 && b == 79 {
                    assert(n == 6241);
                    lemma_not_spp2_6241();
                }
                if a == 79 && b == 83 {
                    assert(n == 6557);
                    lemma_not_spp2_6557();
                }
                if a == 79 && b == 89 {
                    assert(n == 7031);
                    lemma_not_spp2_7031();
                }
                if a == 79 && b == 97 {
                    assert(n == 7663);
                    lemma_not_spp2_7663();
                }
                if a == 79 && b == 101 {
                    assert(n == 7979);
                    lemma_not_spp2_7979();
                }
                if a == 79 && b == 103 {
                    assert(n == 8137);
                    lemma_not_spp2_8137();
                }
                if a == 83 && b == 53 {
                    assert(n == 4399);
                    lemma_not_spp2_4399();
                }
                if a == 83 && b == 59 {
                    assert(n == 4897);
                    lemma_not_spp2_4897();
                }
                if a == 83 && b == 61 {
                    assert(n == 5063);
                    lemma_not_spp2_5063();
                }
                if a == 83 && b == 67 {
                    assert(n == 5561);
                    lemma_not_spp2_5561();
                }
                if a == 83 && b == 71 {
                    assert(n == 5893);
                    lemma_not_spp2_5893();
                }
                if a == 83 && b == 73 {
                    assert(n == 6059);
                    lemma_not_spp2_6059();
                }
                if a == 83 && b == 79 {
                    assert(n == 6557);
                    lemma_not_spp2_6557();
                }
                if a == 83 && b == 83 {
                    assert(n == 6889);
                    lemma_not_spp2_6889();
                }
                if a == 83 && b == 89 {
                    assert(n == 7387);
                    lemma_not_spp2_7387();
                }
                if a == 83 && b == 97 {
                    assert(n == 8051);
                    lemma_not_spp2_8051();
                }
                if a == 89 && b == 53 {
                    assert(n == 4717);
                    lemma_not_spp2_4717();
                }
                if a == 89 && b == 59 {
                    assert(n == 5251);
                    lemma_not_spp2_5251();
                }
                if a == 89 && b == 61 {
                    assert(n == 5429);
                    lemma_not_spp2_5429();
                }
                if a == 89 && b == 67 {
                    assert(n == 5963);
                    lemma_not_spp2_5963();
                }
                if a == 89 && b == 71 {
                    assert(n == 6319);
                    lemma_not_spp2_6319();
                }
                if a == 89 && b == 73 {
                    assert(n == 6497);
                    lemma_not_spp2_6497();
                }
                if a == 89 && b == 79 {
                    assert(n == 7031);
                    lemma_not_spp2_7031();
                }
                if a == 89 && b == 83 {
                    assert(n == 7387);
                    lemma_not_spp2_7387();
                }
                if a == 89 && b == 89 {
                    assert(n == 7921);
                    lemma_not_spp2_7921();
                }
                if a == 97 && b == 53 {
                    assert(n == 5141);
                    lemma_not_spp2_5141();
                }
                if a == 97 && b == 59 {
                    assert(n == 5723);
                    lemma_not_spp2_5723();
                }
                if a == 97 && b == 61 {
                    assert(n == 5917);
                    lemma_not_spp2_5917();
                }
                if a == 97 && b == 67 {
                    assert(n == 6499);
                    lemma_not_spp2_6499();
                }
                if a == 97 && b == 71 {
                    assert(n == 6887);
                    lemma_not_spp2_6887();
                }
                if a == 97 && b == 73 {
                    assert(n == 7081);
                    lemma_not_spp2_7081();
                }
                if a == 97 && b == 79 {
                    assert(n == 7663);
                    lemma_not_spp2_7663();
                }
                if a == 97 && b == 83 {
                    assert(n == 8051);
                    lemma_not_spp2_8051();
                }
                if a == 101 && b == 53 {
                    assert(n == 5353);
                    lemma_not_spp2_5353();
                }
                if a == 101 && b == 59 {
                    assert(n == 5959);
                    lemma_not_spp2_5959();
                }
                if a == 101 && b == 61 {
                    assert(n == 6161);
                    lemma_not_spp2_6161();
                }
                if a == 101 && b == 67 {
                    assert(n == 6767);
                    lemma_not_spp2_6767();
                }
                if a == 101 && b == 71 {
                    assert(n == 7171);
                    lemma_not_spp2_7171();
                }
                if a == 101 && b == 73 {
                    assert(n == 7373);
                    lemma_not_spp2_7373();
                }
                if a == 101 && b == 79 {
                    assert(n == 7979);
                    lemma_not_spp2_7979();
                }
                if a == 103 && b == 53 {
                    assert(n == 5459);
                    lemma_not_spp2_5459();
                }
                if a == 103 && b == 59 {
                    assert(n == 6077);
                    lemma_not_spp2_6077();
                }
                if a == 103 && b == 61 {
                    assert(n == 6283);
                    lemma_not_spp2_6283();
                }
                if a == 103 && b == 67 {
                    assert(n == 6901);
                    lemma_not_spp2_6901();
                }
                if a == 103 && b == 71 {
                    assert(n == 7313);
                    lemma_not_spp2_7313();
                }
                if a == 103 && b == 73 {
                    assert(n == 7519);
                    lemma_not_spp2_7519();
                }
                if a == 103 && b == 79 {
                    assert(n == 8137);
                    lemma_not_spp2_8137();
                }
                if a == 107 && b == 53 {
                    assert(n == 5671);
                    lemma_not_spp2_5671();
                }
                if a == 107 && b == 59 {
                    assert(n == 6313);
                    lemma_not_spp2_6313();
                }
                if a == 107 && b == 61 {
                    assert(n == 6527);
                    lemma_not_spp2_6527();
                }
                if a == 107 && b == 67 {
                    assert(n == 7169);
                    lemma_not_spp2_7169();
                }
                if a == 107 && b == 71 {
                    assert(n == 7597);
                    lemma_not_spp2_7597();
                }
                if a == 107 && b == 73 {
                    assert(n == 7811);
                    lemma_not_spp2_7811();
                }
                if a == 109 && b == 53 {
                    assert(n == 5777);
                    lemma_not_spp2_5777();
                }
                if a == 109 && b == 59 {
                    assert(n == 6431);
                    lemma_not_spp2_6431();
                }
                if a == 109 && b == 61 {
                    assert(n == 6649);
                    lemma_not_spp2_6649();
                }
                if a == 109 && b == 67 {
                    assert(n == 7303);
                    lemma_not_spp2_7303();
                }
                if a == 109 && b == 71 {
                    assert(n == 7739);
                    lemma_not_spp2_7739();
                }
                if a == 109 && b == 73 {
                    assert(n == 7957);
                    lemma_not_spp2_7957();
                }
                if a == 113 && b == 53 {
                    assert(n == 5989);
                    lemma_not_spp2_5989();
                }
                if a == 113 && b == 59 {
                    assert(n == 6667);
                    lemma_not_spp2_6667();
                }
                if a == 113 && b == 61 {
                    assert(n == 6893);
                    lemma_not_spp2_6893();
                }
                if a == 113 && b == 67 {
                    assert(n == 7571);
                    lemma_not_spp2_7571();
                }
                if a == 113 && b == 71 {
                    assert(n == 8023);
                    lemma_not_spp2_8023();
                }
                if a == 113 && b == 73 {
                    assert(n == 8249);
                    lemma_not_spp2_8249();
                }
                if a == 127 && b == 53 {
                    assert(n == 6731);
                    lemma_not_spp2_6731();
                }
                if a == 127 && b == 59 {
                    assert(n == 7493);
                    lemma_not_spp2_7493();
                }
                if a == 127 && b == 61 {
                    assert(n == 7747);
                    lemma_not_spp2_7747();
                }
                if a == 131 && b == 53 {
                    assert(n == 6943);
                    lemma_not_spp2_6943();
                }
                if a == 131 && b == 59 {
                    assert(n == 7729);
                    lemma_not_spp2_7729();
                }
                if a == 131 && b == 61 {
                    assert(n == 7991);
                    lemma_not_spp2_7991();
                }
                if a == 137 && b == 53 {
                    assert(n == 7261);
                    lemma_not_spp2_7261();
                }
                if a == 137 && b == 59 {
                    assert(n == 8083);
                    lemma_not_spp2_8083();
                }
                if a == 139 && b == 53 {
                    assert(n == 7367);
                    lemma_not_spp2_7367();
                }
                if a == 139 && b == 59 {
                    assert(n == 8201);
                    lemma_not_spp2_8201();
                }
                if a == 149 && b == 53 {
                    assert(n == 7897);
                    lemma_not_spp2_7897();
                }
                if a == 151 && b == 53 {
                    assert(n == 8003);
                    lemma_not_spp2_8003();
                }
            }
        }
    }
}

/// The trial division of the Baillie–PSW test: the primes up to `47` pass, and no other
/// multiple of one of them does.
pub proof fn lemma_bpsw_trial_division(n: nat, p: nat)
    requires
        small_primes().contains(p as u128),
        p < 48,
        n <= u128::MAX,
    ensures
        bpsw_spec(p),
        bpsw_spec(n) && n % p == 0 ==> n == p,
        bpsw_spec(n) ==> n >= 2,
{
    let i = choose|i: int| 0 <= i < small_primes().len() && small_primes()[i] == p as u128;
    assert(0 <= i < 15 && small_primes()[i] == p);
    assert(i == 0 || i == 1 || i == 2 || i == 3 || i == 4 || i == 5 || i == 6 || i == 7 || i == 8 || i == 9 || i == 10
        || i == 11 || i == 12 || i == 13 || i == 14);
    assert(p >= 2);
    if p > 2 {
        assert(small_primes().contains(p as u128));
    }
    if bpsw_spec(n) && n % p == 0 {
        if n <= 2 {
            assert(n == 2);
            assert(p <= 2) by {
                if p > 2 {
                    lemma_small_mod(n, p);
                }
            }
        } else if small_primes().contains(n as u128) {
            let j = choose|j: int| 0 <= j < small_primes().len() && small_primes()[j] == n as u128;
            assert(0 <= j < 15 && small_primes()[j] == n);
            assert(j == 0 || j == 1 || j == 2 || j == 3 || j == 4 || j == 5 || j == 6 || j == 7 || j == 8 || j == 9
                || j == 10 || j == 11 || j == 12 || j == 13 || j == 14);
            lemma_small_primes_prime(n);
            if p != n {
                assert(p < n) by {
                    if p > n {
                        lemma_small_mod(n, p);
                    }
                }
                assert(n % p != 0);
            }
        } else {
            assert(n % (small_primes()[i] as nat) == 0);
        }
    }
}

/// Every number above `47` that the Baillie–PSW test accepts satisfies Fermat's congruence
/// `2^(n-1) = 1 (mod n)`: no composite with a Fermat witness `2` is reported prime.
pub proof fn lemma_bpsw_fermat(n: nat)
    requires
        47 < n <= u128::MAX,
        bpsw_spec(n),
    ensures
        n % 2 == 1,
        pow(2, (n - 1) as nat) % (n as int) == 1,
{
    assert(n % 2 == 1);
    assert(!small_primes().contains(n as u128)) by {
        if small_primes().contains(n as u128) {
            let j = choose|j: int| 0 <= j < small_primes().len() && small_primes()[j] == n as u128;
            assert(0 <= j < 15 && small_primes()[j] == n);
            assert(j == 0 || j == 1 || j == 2 || j == 3 || j == 4 || j == 5 || j == 6 || j == 7 || j == 8 || j == 9
                || j == 10 || j == 11 || j == 12 || j == 13 || j == 14);
        }
    }
    assert(sprp_spec(n, seq![2u128]));
    assert(seq![2u128][0] == 2);
    assert(strong_probable_prime(n, 2));
    crate::primality::miller_rabin::lemma_strong_probable_prime_fermat(n, 2);
}

} // verus!
