use factor::ecm::{Curve, CheckOdd, Ecm, EcmBound, ExponentialBound, Stage1Only, Stage2Strategy, UseMultiEval};
use factor::fps::u128::{DynamicFps, Fps};
use factor::garner::{garner_digits, Garner3, M1, M2, M3};
use factor::modint::u128::{DynamicModInt as Mint, StaticModInt};
use factor::multipoint_evaluation::u128::{
    DynamicMultipointEvaluation, DynamicMultipointEvaluationNaive, MultipointEvaluation,
    MultipointEvaluationNaive,
};
use factor::perfect_power::{find_perfect_power, nth_root_floor};
use factor::pollard_rho::{Brent, Floyd, PollardRho};
use factor::utility::{bisect_left, gcd, Sfc64, Sieve};
use factor::wrapper::{smallest_factor, Factorize};

/// check x^n <= y < (x+1)^n.
fn check_nth_root(y: u128, n: u32) {
    let x = nth_root_floor(y, n);
    assert!(
        x.checked_pow(n).is_some_and(|ny| ny <= y),
        "{:?} => {x}, {:?}",
        (y, n),
        x.overflowing_pow(n)
    );
    if x < !0 {
        assert!(
            (x + 1).checked_pow(n).is_none_or(|ny| ny > y),
            "{:?} => {x}, {:?}",
            (y, n),
            (x + 1).overflowing_pow(n)
        );
    }
}
fn check_root(y: u128) {
    for n in 1..u128::BITS * 2 {
        check_nth_root(y, n);
    }
}

#[test]
fn test_nth_root() {
    for y in 0..1000 {
        check_root(y);
        check_root(!y);
    }
    for n in 1..=u128::BITS {
        let x0 = nth_root_floor(!0, n);
        for x in (0..=x0).take(100).chain((0..=x0).rev().take(100)) {
            let y0 = x.checked_pow(n).unwrap();
            for i in -5..=5 {
                let y = y0.saturating_add_signed(i);
                check_root(y);
            }
        }
    }
}

#[test]
fn test_perfect_power() {
    for n in 2..u128::BITS {
        let x0 = nth_root_floor(!0, n);
        for x in (2..=x0).take(100).chain((2..=x0).rev().take(100)) {
            let y0 = x.checked_pow(n).unwrap();
            assert_ne!(find_perfect_power(y0), None, "{x}^{n}");
        }
    }
}

#[test]
fn perfect_power_largest_exponent() {
    assert_eq!(find_perfect_power(64), Some((2, 6)));
    assert_eq!(find_perfect_power(1 << 127), Some((2, 127)));
    assert_eq!(find_perfect_power(3u128.pow(40)), Some((3, 40)));
    assert_eq!(find_perfect_power(12), None);
    assert_eq!(find_perfect_power(3), None);
    assert_eq!(nth_root_floor(80, 4), 2);
    assert_eq!(nth_root_floor(81, 4), 3);
    assert_eq!(nth_root_floor(u128::MAX, 2), u64::MAX as u128);
}

fn check(n: u128, batch_gcd: bool) {
    let mut f1 = PollardRho::new(Floyd, batch_gcd);
    let mut f2 = PollardRho::new(Brent, batch_gcd);
    let ans1 = f1.factorize(n);
    let ans2 = f2.factorize(n);
    assert_eq!(ans1, ans2);
    let prod = ans1.iter().product::<u128>();
    assert_eq!(prod, n);
}

#[test]
fn factor_small() {
    for n in [
        12345701 * 12345709,
        1234567891 * 1234567907,
        123456789059 * 123456789061,
    ] {
        check(n, true);
        check(n, false);
    }
}

#[test]
fn factorize_with_powers_of_two_and_repeats() {
    let mut f = PollardRho::new(Brent, false);
    assert_eq!(f.factorize(1), Vec::<u128>::new());
    assert_eq!(f.factorize(360), vec![2, 2, 2, 3, 3, 5]);
    assert_eq!(f.factorize(97 * 97 * 101), vec![97, 97, 101]);
    assert_eq!(f.find_prime_factor(91) % 7 == 0 || f.find_prime_factor(91) % 13 == 0, true);
    assert_eq!(smallest_factor(91), 7);
    assert_eq!(smallest_factor(97), 97);
}

#[test]
fn ecm_and_tuples_find_factors() {
    let bound = EcmBound { b1: 100, b2: 10000 };
    let mut e1 = Ecm::new(1, ExponentialBound::new(bound, 2, 50), Stage1Only);
    let mut e2 = Ecm::new(2, ExponentialBound::new(bound, 2, 50), CheckOdd);
    let mut e3 = Ecm::new(3, ExponentialBound::new(bound, 2, 50), UseMultiEval);
    let n = 1000003u128 * 1000033;
    for d in [e1.find_factor(n), e2.find_factor(n), e3.find_factor(n)] {
        assert!(d == 1000003 || d == 1000033, "{d}");
    }
    let mut both = (PollardRho::new(Floyd, true), Ecm::new(4, ExponentialBound::new(bound, 2, 10), CheckOdd));
    assert_eq!(both.factorize(n * 3), vec![3, 1000003, 1000033]);
}

#[test]
fn test_scale() {
    let n = (1 << 61) - 1;
    let mo = Mint::new(n);
    let mut rng = Sfc64::new(n as _);
    let d = 100;
    let same = |p: (u128, u128), q: (u128, u128)| mo.mul(p.0, q.1) == mo.mul(p.1, q.0);
    for _ in 0..100 {
        let s = rng.next_range(6..n - 6);
        let Ok((c, p)) = Curve::init_suyama(s, mo) else {
            continue;
        };
        assert!(same(c.double(p), c.scale(p, 2)));
        let (mut p0, mut p1) = (c.zero(), p);
        for i in 2..d {
            let p2 = c.add(p1, p, p0);
            assert!(same(p2, c.scale(p, i as u128)), "s = {s}, {p:?} * {i}");
            assert!(
                same(c.double(p2), c.scale(p, 2 * i as u128)),
                "s = {s}, {p:?} * {i} * 2"
            );
            (p0, p1) = (p1, p2);
        }
    }
}

type Mint9 = StaticModInt<998244353>;

fn fps9(v: &[u128]) -> Fps<Mint9> {
    Fps::new(v.iter().map(|&x| Mint9::new(x)).collect())
}

#[test]
fn test_inv() {
    let f = fps9(&[1; 10]);
    let mut g = f.inv();
    g.shrink();
    assert_eq!(g, fps9(&[1, 998244353 - 1]));

    let f = fps9(&[5, 4, 3, 2, 1]);
    assert_eq!(
        f.inv(),
        fps9(&[598946612, 718735934, 862483121, 635682004, 163871793])
    );
}

#[test]
fn dynamic_fps_operations() {
    let mo = Mint::new(998244353);
    let df = DynamicFps::new(mo);
    let f: Vec<u128> = [5u128, 4, 3, 2, 1].iter().map(|&x| mo.mr(x)).collect();
    let g = df.inv(&f).unwrap();
    let vals: Vec<u128> = g.iter().map(|&x| mo.val(x)).collect();
    assert_eq!(vals, vec![598946612, 718735934, 862483121, 635682004, 163871793]);
    // f(2) = 5 + 8 + 12 + 16 + 16 = 57
    assert_eq!(mo.val(df.eval(&f, mo.mr(2))), 57);
    let mut h = vec![mo.mr(1), 0, 0];
    df.shrink(&mut h);
    assert_eq!(h, vec![mo.mr(1)]);
    assert_eq!(df.prefix(&h, 3), vec![mo.mr(1), 0, 0]);
    assert_eq!(df.inv(&[0, mo.mr(1)]), Err(998244353));
    let mo15 = Mint::new(15);
    let df15 = DynamicFps::new(mo15);
    assert_eq!(df15.inv(&[mo15.mr(6)]), Err(3));
}

fn verify_general<const M: u128>(f: &Fps<StaticModInt<M>>, p: &[StaticModInt<M>]) {
    let expected: Vec<_> = p.iter().map(|pi| f.eval(*pi)).collect();
    let me = MultipointEvaluation::new(p.to_owned());
    let found = me.eval(f);
    assert_eq!(found, expected, "failed for f = {f:?}, p = {p:?}");
    let naive = MultipointEvaluationNaive::new(p.to_owned()).eval(f);
    assert_eq!(naive, expected);
}

#[test]
fn handmade() {
    const M: u128 = 998244353;
    let p: Vec<StaticModInt<M>> = (1..5).map(StaticModInt::new).collect();
    let fm = |v: Vec<u128>| Fps::new(v.into_iter().map(StaticModInt::<M>::new).collect());
    verify_general(&fm(vec![1, 0, 1]), &p);
    verify_general(&fm(vec![1, 2, 3]), &p);
    verify_general(&fm(vec![4, 5, 6]), &p);
    verify_general(&fm(vec![4]), &p);
    verify_general(&Fps::default(), &p);
    verify_general(&fm(vec![1, 2, 3, 4]), &p);
    verify_general(&fm((1..20).collect()), &p);
    verify_general(&fm((1..20).rev().collect()), &p);
}

#[test]
fn dynamic_multipoint_matches_naive() {
    let mo = Mint::new(1001001001);
    let mut rng = Sfc64::new(7);
    for _ in 0..20 {
        let n = rng.next_range(0..20) as usize;
        let f: Vec<u128> = rng.next_vector(0..mo.n, n).into_iter().map(|x| mo.mr(x)).collect();
        let n = rng.next_range(0..20) as usize;
        let p: Vec<u128> = rng.next_vector(0..mo.n, n).into_iter().map(|x| mo.mr(x)).collect();
        let expected = DynamicMultipointEvaluationNaive::new(mo, p.clone()).eval(&f);
        let found = DynamicMultipointEvaluation::new(mo, p.clone()).eval(&f);
        assert!(found.is_ok());
        assert_eq!(found, expected);
    }
}

#[test]
fn dynamic_multipoint_composite_modulus() {
    // 1001 = 7 * 11 * 13: the root product is monic, so no inverse ever fails
    let mo = Mint::new(1001);
    let f: Vec<u128> = [3u128, 0, 5, 1].iter().map(|&x| mo.mr(x)).collect();
    let p: Vec<u128> = [0u128, 1, 7, 11, 1000].iter().map(|&x| mo.mr(x)).collect();
    let found = DynamicMultipointEvaluation::new(mo, p.clone()).eval(&f).unwrap();
    let vals: Vec<u128> = found.iter().map(|&v| mo.val(v)).collect();
    // f(x) = 3 + 5 x^2 + x^3 modulo 1001
    let expected: Vec<u128> = [0u128, 1, 7, 11, 1000]
        .iter()
        .map(|&x| (3 + 5 * x * x + x * x * x) % 1001)
        .collect();
    assert_eq!(vals, expected);
}

#[test]
fn garner_reconstructs_residues() {
    let mo = Mint::new(1_000_000_007);
    let g = Garner3::new(mo);
    // x = 10^40 reduced modulo the three primes
    let x: u128 = 10u128.pow(38);
    let (c1, c2, c3) = (x % M1, x % M2, x % M3);
    assert_eq!(mo.val(g.reconstruct(c1, c2, c3)), x % 1_000_000_007);
    assert_eq!(garner_digits(5, 5, 5), (5, 0, 0));
    let v = g.reconstruct_vector(vec![1, 2, 3], vec![1, 2], vec![1, 2, 3, 4]);
    assert_eq!(v.iter().map(|&r| mo.val(r)).collect::<Vec<_>>(), vec![1, 2]);
}

#[test]
fn utility_helpers() {
    assert_eq!(gcd(0, 7), 7);
    assert_eq!(gcd(84, 36), 12);
    let acc = [1u128, 1, 4, 6, 10];
    assert_eq!(bisect_left(acc.len(), |i| acc[i] > 3), 2);
    assert_eq!(bisect_left(acc.len(), |i| acc[i] > 100), 5);
    let s = Sieve::new(30);
    assert_eq!(s.prime, vec![2, 3, 5, 7, 11, 13, 17, 19, 23, 29]);
    assert_eq!(s.lpf[15], 3);
    assert_eq!(s.lpf[29], 29);
    let mut r1 = Sfc64::new(42);
    let mut r2 = Sfc64::new(42);
    assert_eq!(r1.next_u64(), r2.next_u64());
    let v = r1.next_vector(10..20, 50);
    assert!(v.iter().all(|&x| (10..20).contains(&x)));
}

#[test]
fn fps_subtraction() {
    let mut f = fps9(&[5, 7]);
    f.sub_assign(&fps9(&[1, 2, 3]));
    assert_eq!(f, fps9(&[4, 5, 998244353 - 3]));
    f.sub_constant(Mint9::new(10));
    assert_eq!(f, fps9(&[998244353 - 6, 5, 998244353 - 3]));
}

#[test]
fn multipoint_composite_modulus() {
    const M: u128 = 1001;
    let xs = [0u128, 1, 7, 11, 1000, 500];
    let p: Vec<StaticModInt<M>> = xs.iter().map(|&x| StaticModInt::new(x)).collect();
    let f = Fps::new([3u128, 0, 5, 1].iter().map(|&x| StaticModInt::<M>::new(x)).collect());
    let found: Vec<u128> = MultipointEvaluation::new(p).eval(&f).iter().map(|v| v.val()).collect();
    // f(x) = 3 + 5 x^2 + x^3 modulo 1001
    let expected: Vec<u128> = xs.iter().map(|&x| (3 + 5 * x * x + x * x * x) % 1001).collect();
    assert_eq!(found, expected);
}

fn gen_vector<const M: u128>(rng: &mut Sfc64, n: usize) -> Vec<StaticModInt<M>> {
    rng.next_vector(0..M, n).into_iter().map(StaticModInt::new).collect()
}

#[test]
fn multipoint_random_small() {
    let mut rng = Sfc64::new(0);
    for _ in 0..20 {
        const M: u128 = 998244353;
        let n = rng.next_range(0..20) as usize;
        let f = Fps::new(gen_vector(&mut rng, n));
        let n = rng.next_range(0..20) as usize;
        let p = gen_vector(&mut rng, n);
        verify_general::<M>(&f, &p);
    }
    for _ in 0..20 {
        const M: u128 = 1001001001;
        let n = rng.next_range(0..20) as usize;
        let f = Fps::new(gen_vector(&mut rng, n));
        let n = rng.next_range(0..20) as usize;
        let p = gen_vector(&mut rng, n);
        verify_general::<M>(&f, &p);
    }
}

#[test]
fn floyd_first_divisor_of_walk() {
    for batch_gcd in [false, true] {
        let mut f = PollardRho::new(Floyd, batch_gcd);
        assert_eq!(f.find_factor(85), 5);
        assert_eq!(f.find_factor(8051), 83);
        assert_eq!(f.find_factor(10403), 103);
        assert_eq!(f.find_factor(1000000016000000063), 1000000007);
    }
}

#[test]
fn brent_first_divisor_of_walk() {
    for batch_gcd in [false, true] {
        let mut f = PollardRho::new(Brent, batch_gcd);
        assert_eq!(f.find_factor(85), 5);
        assert_eq!(f.find_factor(8051), 83);
        assert_eq!(f.find_factor(10403), 103);
        assert_eq!(f.find_factor(1000000016000000063), 1000000007);
    }
}

#[test]
fn fps_coefficient_access_and_shrink() {
    let mut f = fps9(&[1, 2, 0, 0]);
    assert_eq!(*f.get(1), Mint9::new(2));
    f.set(2, Mint9::new(7));
    assert_eq!(f, fps9(&[1, 2, 7, 0]));
    f.shrink();
    assert_eq!(f, fps9(&[1, 2, 7]));
    // any representative other than zero stays, whatever the modulus
    let mut g: Fps<StaticModInt<10>> = Fps::new(vec![StaticModInt::raw(3), StaticModInt::raw(10), StaticModInt::raw(0)]);
    g.shrink();
    assert_eq!(g.len(), 2);
    let mut z = fps9(&[0, 0]);
    z.shrink();
    assert!(z.is_empty());
}

#[test]
fn second_stages_accept_their_bounds() {
    let huge = EcmBound { b1: 1 << 100, b2: 1 << 120 };
    assert!(Stage1Only.bound_fits(huge));
    assert!(!CheckOdd.bound_fits(EcmBound { b1: 10000, b2: 100 }));
    assert!(CheckOdd.bound_fits(EcmBound { b1: 100, b2: 10000 }));
    assert!(CheckOdd.bound_fits(EcmBound { b1: 1 << 60, b2: 1 << 60 }));
    assert!(!UseMultiEval.bound_fits(EcmBound { b1: 1, b2: 3 }));
    assert!(UseMultiEval.bound_fits(EcmBound { b1: 100, b2: 10000 }));
    // stage one alone runs with bounds far past any second stage's tables
    let n = 1000003u128 * 1000033;
    let mo = Mint::new(n);
    let mut e = Ecm::new(7, ExponentialBound::new(EcmBound { b1: 100, b2: 1 << 100 }, 2, 50), Stage1Only);
    for s in 6..40u128 {
        if let Some(d) = e.check_curve(EcmBound { b1: 1000, b2: 1 << 100 }, mo, s) {
            assert!(n % d == 0, "{d}");
        }
    }
    let d = e.find_factor(n);
    assert!(d == 1000003 || d == 1000033, "{d}");
}
