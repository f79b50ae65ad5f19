use factor::modint::u128::DynamicModInt as Mint;
use factor::primality::lucas::{
    calc_lucas, calc_lucas_const, calc_lucas_with_matrix, is_lucas_sprp, is_lucas_sprp_const, jacobi,
    legendre,
};
use factor::primality::miller_rabin::{is_prime, is_sprp};
use factor::primality::{is_prime as bpsw, is_prime_const as bpsw_const};

#[test]
fn test_legendre() {
    for n in (3..60).filter(|n| is_prime(*n)) {
        let mp = Mint::new(n);
        for a in 0..100 {
            assert_eq!(legendre(a, &mp), jacobi(a as _, n), "check ({a}/{n})");
        }
    }
}

#[test]
fn small_jacobi() {
    // check (a/n) for n <= 59 odd, a <= 30
    let table = (1..60)
        .filter(|x| x % 2 == 1)
        .map(|n| {
            let s = (1..31)
                .map(|k| format!("{}", jacobi(k, n)))
                .collect::<Vec<_>>()
                .join("\t");
            format!("{n}\t{s}")
        })
        .collect::<Vec<_>>()
        .join("\n");
    let expected = "1	1	1	1	1	1	1	1	1	1	1	1	1	1	1	1	1	1	1	1	1	1	1	1	1	1	1	1	1	1	1
3	1	-1	0	1	-1	0	1	-1	0	1	-1	0	1	-1	0	1	-1	0	1	-1	0	1	-1	0	1	-1	0	1	-1	0
5	1	-1	-1	1	0	1	-1	-1	1	0	1	-1	-1	1	0	1	-1	-1	1	0	1	-1	-1	1	0	1	-1	-1	1	0
7	1	1	-1	1	-1	-1	0	1	1	-1	1	-1	-1	0	1	1	-1	1	-1	-1	0	1	1	-1	1	-1	-1	0	1	1
9	1	1	0	1	1	0	1	1	0	1	1	0	1	1	0	1	1	0	1	1	0	1	1	0	1	1	0	1	1	0
11	1	-1	1	1	1	-1	-1	-1	1	-1	0	1	-1	1	1	1	-1	-1	-1	1	-1	0	1	-1	1	1	1	-1	-1	-1
13	1	-1	1	1	-1	-1	-1	-1	1	1	-1	1	0	1	-1	1	1	-1	-1	-1	-1	1	1	-1	1	0	1	-1	1	1
15	1	1	0	1	0	0	-1	1	0	0	-1	0	-1	-1	0	1	1	0	1	0	0	-1	1	0	0	-1	0	-1	-1	0
17	1	1	-1	1	-1	-1	-1	1	1	-1	-1	-1	1	-1	1	1	0	1	1	-1	1	-1	-1	-1	1	1	-1	-1	-1	1
19	1	-1	-1	1	1	1	1	-1	1	-1	1	-1	-1	-1	-1	1	1	-1	0	1	-1	-1	1	1	1	1	-1	1	-1	1
21	1	-1	0	1	1	0	0	-1	0	-1	-1	0	-1	0	0	1	1	0	-1	1	0	1	-1	0	1	1	0	0	-1	0
23	1	1	1	1	-1	1	-1	1	1	-1	-1	1	1	-1	-1	1	-1	1	-1	-1	-1	-1	0	1	1	1	1	-1	1	-1
25	1	1	1	1	0	1	1	1	1	0	1	1	1	1	0	1	1	1	1	0	1	1	1	1	0	1	1	1	1	0
27	1	-1	0	1	-1	0	1	-1	0	1	-1	0	1	-1	0	1	-1	0	1	-1	0	1	-1	0	1	-1	0	1	-1	0
29	1	-1	-1	1	1	1	1	-1	1	-1	-1	-1	1	-1	-1	1	-1	-1	-1	1	-1	1	1	1	1	-1	-1	1	0	1
31	1	1	-1	1	1	-1	1	1	1	1	-1	-1	-1	1	-1	1	-1	1	1	1	-1	-1	-1	-1	1	-1	-1	1	-1	-1
33	1	1	0	1	-1	0	-1	1	0	-1	0	0	-1	-1	0	1	1	0	-1	-1	0	0	-1	0	1	-1	0	-1	1	0
35	1	-1	1	1	0	-1	0	-1	1	0	1	1	1	0	0	1	1	-1	-1	0	0	-1	-1	-1	0	-1	1	0	1	0
37	1	-1	1	1	-1	-1	1	-1	1	1	1	1	-1	-1	-1	1	-1	-1	-1	-1	1	-1	-1	-1	1	1	1	1	-1	1
39	1	1	0	1	1	0	-1	1	0	1	1	0	0	-1	0	1	-1	0	-1	1	0	1	-1	0	1	0	0	-1	-1	0
41	1	1	-1	1	1	-1	-1	1	1	1	-1	-1	-1	-1	-1	1	-1	1	-1	1	1	-1	1	-1	1	-1	-1	-1	-1	-1
43	1	-1	-1	1	-1	1	-1	-1	1	1	1	-1	1	1	1	1	1	-1	-1	-1	1	-1	1	1	1	-1	-1	-1	-1	-1
45	1	-1	0	1	0	0	-1	-1	0	0	1	0	-1	1	0	1	-1	0	1	0	0	-1	-1	0	0	1	0	-1	1	0
47	1	1	1	1	-1	1	1	1	1	-1	-1	1	-1	1	-1	1	1	1	-1	-1	1	-1	-1	1	1	-1	1	1	-1	-1
49	1	1	1	1	1	1	0	1	1	1	1	1	1	0	1	1	1	1	1	1	0	1	1	1	1	1	1	0	1	1
51	1	-1	0	1	1	0	-1	-1	0	-1	1	0	1	1	0	1	0	0	1	1	0	-1	1	0	1	-1	0	-1	1	0
53	1	-1	-1	1	-1	1	1	-1	1	1	1	-1	1	-1	1	1	1	-1	-1	-1	-1	-1	-1	1	1	-1	-1	1	1	-1
55	1	1	-1	1	0	-1	1	1	1	0	0	-1	1	1	0	1	1	1	-1	0	-1	0	-1	-1	0	1	-1	1	-1	0
57	1	1	0	1	-1	0	1	1	0	-1	-1	0	-1	1	0	1	-1	0	0	-1	0	-1	-1	0	1	-1	0	1	1	0
59	1	-1	1	1	1	-1	1	-1	1	-1	-1	1	-1	-1	1	1	1	-1	1	1	1	1	-1	-1	1	1	1	1	1	-1";
    assert_eq!(table, expected);
}

#[test]
fn small_lucas() {
    let spsp = (1..100000)
        .filter(|&n| n % 2 == 1 && is_lucas_sprp(n) && !is_prime(n))
        .collect::<Vec<_>>();
    // https://oeis.org/A217255
    assert_eq!(
        spsp,
        vec![5459, 5777, 10877, 16109, 18971, 22499, 24569, 25199, 40309, 58519, 75077, 97439]
    );
}

#[test]
fn lucas_sequence() {
    let nn = (1 << 61) - 1;
    let mo = Mint::new(nn);
    println!("{mo:?}");
    let p = 1;
    for qi in -10..10 {
        let q = if qi >= 0 { qi } else { qi + nn as i128 } as _;
        for n in 0..100 {
            assert_eq!(
                calc_lucas(p, q, n, &mo),
                calc_lucas_with_matrix(p, q, n, &mo),
                "({p}, {qi})_{n}"
            );
        }
    }
}

#[test]
fn check_small_spsp() {
    let composites = (3..10000)
        .filter(|n| n % 2 == 1 && !is_prime(*n))
        .collect::<Vec<_>>();
    let spsp = |bases: &[u128]| {
        composites
            .iter()
            .copied()
            .filter(|n| is_sprp(*n, bases))
            .collect::<Vec<_>>()
    };
    // https://oeis.org/A001262
    assert_eq!(spsp(&[2]), vec![2047, 3277, 4033, 4681, 8321]);
    // https://oeis.org/A020229
    assert_eq!(spsp(&[3]), vec![121, 703, 1891, 3281, 8401, 8911]);
    // https://oeis.org/A020231
    assert_eq!(spsp(&[5]), vec![781, 1541, 5461, 5611, 7813]);
    // https://oeis.org/A020233
    assert_eq!(spsp(&[7]), vec![25, 325, 703, 2101, 2353, 4525]);
    // https://oeis.org/A020236
    assert_eq!(spsp(&[10]), vec![9, 91, 1729, 4187, 6533, 8149, 8401]);
}

#[test]
fn check_spsp() {
    assert!(!is_sprp(1, &[2]));
    assert!(is_sprp(2047, &[2]));
    assert!(is_sprp(2047, &[2047 + 2]));
    assert!(is_sprp(9080191, &[31, 73]));
    assert!(is_sprp(4759123141, &[2, 7, 61]));
    assert!(is_sprp(1122004669633, &[2, 13, 23, 1662803]));
    assert!(is_sprp(
        3770579582154547,
        &[2, 880937, 2570940, 610386380, 4130785767]
    ));
    assert!(is_sprp(
        318665857834031151167461,
        &[2, 3, 5, 7, 11, 13, 17, 19, 23, 29, 31, 37]
    ));
    assert!(is_sprp(
        3317044064679887385961981,
        &[2, 3, 5, 7, 11, 13, 17, 19, 23, 29, 31, 37, 41]
    ));
}

#[test]
fn bpsw_small_values() {
    let primes_below_60 = [2u128, 3, 5, 7, 11, 13, 17, 19, 23, 29, 31, 37, 41, 43, 47, 53, 59];
    for n in 0..60u128 {
        assert_eq!(bpsw(n), primes_below_60.contains(&n), "{n}");
        assert_eq!(bpsw_const(n), bpsw(n), "{n}");
    }
    // Mersenne prime 2^61 - 1, and 2^61 + 1 (divisible by 3)
    assert!(bpsw((1 << 61) - 1));
    assert!(!bpsw((1 << 61) + 1));
    // the NTT primes
    assert!(bpsw(7 << 120 | 1));
    assert!(bpsw(51 << 119 | 1));
    assert!(bpsw(71 << 119 | 1));
    // strong pseudoprimes to base 2 and strong Lucas pseudoprimes are rejected
    assert!(!bpsw(2047) && !bpsw(3277) && !bpsw(5459) && !bpsw(5777));
}

#[test]
fn lucas_small_terms() {
    // P = 1, Q = -1 gives Fibonacci and Lucas numbers
    let mo = Mint::new(1_000_000_007);
    let q = 1_000_000_006;
    let (ru, rv) = calc_lucas(1, q, 10, &mo);
    assert_eq!((mo.val(ru), mo.val(rv)), (55, 123));
    assert_eq!(calc_lucas_const(1, q, 10, &mo), (ru, rv));
    assert!(is_lucas_sprp_const(5459) && !is_lucas_sprp_const(5461));
}

#[test]
fn primes_pass_miller_rabin() {
    // every prime is accepted, whatever its size range (and with it every base tried)
    let mut checked = 0;
    for n in 2..20000u128 {
        if (2..n).take_while(|d| d * d <= n).all(|d| n % d != 0) {
            assert!(is_prime(n), "{n}");
            checked += 1;
        }
    }
    assert_eq!(checked, 2262);
    let large = [
        1_000_000_007u128,
        1_000_000_000_039,
        1_000_000_000_000_037,
        1_000_000_000_000_000_003,
        (1 << 61) - 1,
        (1 << 89) - 1,
        (1 << 127) - 1,
        7 << 120 | 1,
        71 << 119 | 1,
    ];
    for p in large {
        assert!(is_prime(p), "{p}");
    }
}

#[test]
fn legendre_of_squares() {
    for p in [3u128, 5, 7, 11, 13, 101, 998244353] {
        let mp = Mint::new(p);
        for x in 1..60u128 {
            if x % p != 0 {
                assert_eq!(legendre(x * x, &mp), 1, "({x}^2/{p})");
            }
        }
        assert_eq!(legendre(p, &mp), 0);
    }
    // -1 is not a square modulo primes of the form 4 k + 3
    for p in [3u128, 7, 11, 19, 23] {
        assert_eq!(legendre(p - 1, &Mint::new(p)), -1);
    }
    // the symbol is 1 on the squares and -1 off them
    for p in [3u128, 5, 7, 11, 13, 17, 19, 23, 29, 31, 37, 41, 43, 47, 53, 59, 61] {
        let mp = Mint::new(p);
        for a in 1..p {
            let square = (1..p).any(|x| x * x % p == a);
            assert_eq!(legendre(a, &mp), if square { 1 } else { -1 }, "({a}/{p})");
        }
    }
}

#[test]
fn jacobi_vanishes_on_common_factors() {
    for n in (1..200u128).filter(|n| n % 2 == 1) {
        for a in 0..200i128 {
            let j = jacobi(a, n);
            let g = factor::utility::gcd(a as u128, n);
            assert_eq!(j == 0, g != 1, "({a}/{n})");
            assert!(j == 0 || j == 1 || j == -1);
        }
    }
}

#[test]
fn lucas_above_two_to_127() {
    // the modulus read as i128: `a` is reduced modulo 2^128 - n
    assert_eq!(jacobi(2, u128::MAX - 4), -1);
    assert_eq!(jacobi(5, u128::MAX - 4), 0);
    assert_eq!(jacobi(5, u128::MAX), 0);
    // the Selfridge search stops before any Montgomery arithmetic
    assert!(!is_lucas_sprp(u128::MAX - 4));
    assert!(!is_lucas_sprp_const(u128::MAX - 4));
    assert!(!is_lucas_sprp(u128::MAX));
}
