use factor::add;
use factor::modint::u128::{multiply_high, DynamicModInt, Modulus, StaticModInt};

#[test]
fn it_works() {
    let result = add(2, 2);
    assert_eq!(result, 4);
}

#[test]
fn op() {
    type Mint = StaticModInt<97>;
    for a in 0..Mint::MOD {
        let ma = Mint::new(a);
        for b in 0..Mint::MOD {
            let mb = Mint::new(b);
            assert_eq!(ma.add(mb), Mint::new(a + b));
            assert_eq!(Mint::add(ma, mb), Mint::new(a + b));
        }
    }
}

fn check_eq<const M: u128>(a: StaticModInt<M>, b: StaticModInt<M>) {
    assert!(a == b);
}

#[test]
fn op_const() {
    type Mint = StaticModInt<97>;
    let mut a = 0;
    while a < Mint::MOD {
        let ma = Mint::new_const(a);
        let mut b = 0;
        while b < Mint::MOD {
            let mb = Mint::new_const(b);
            assert!(ma.add(mb) == Mint::new_const(a + b));
            check_eq(ma.add(mb), Mint::new_const(a + b));
            b += 1;
        }
        a += 1;
    }
}

/// The Montgomery constants of `n`: `n`, `R mod n`, `R^2 mod n` and `-n^{-1} mod R`.
fn check1(n0: u128) {
    let DynamicModInt { n, r1, r2, n_ } = DynamicModInt::new(n0);
    assert_eq!(n, n0, "ModInt({n}): n");
    // R = 2^128 = u128::MAX + 1
    let true_r1 = (u128::MAX % n0 + 1) % n0;
    assert_eq!(r1, true_r1, "ModInt({n}): r1");
    assert_eq!(r2, true_r1 * true_r1 % n0, "ModInt({n}): r2");
    assert_eq!(
        n_.wrapping_mul(n0),
        u128::MAX,
        "ModInt({n}): n_({n_}) * N should be -1 mod R"
    );
}

#[test]
fn check_modint() {
    for n in (1..1u128 << 15).filter(|n| n % 2 == 1) {
        check1(n);
    }
}

/// The high word of the full 256-bit product, by 64-bit schoolbook multiplication.
fn high_word(x: u128, y: u128) -> u128 {
    let m = u64::MAX as u128;
    let (hx, lx) = (x >> 64, x & m);
    let (hy, ly) = (y >> 64, y & m);
    let ll = lx * ly;
    let lh = lx * hy;
    let hl = hx * ly;
    let hh = hx * hy;
    let mid = (ll >> 64) + (lh & m) + (hl & m);
    hh + (lh >> 64) + (hl >> 64) + (mid >> 64)
}

#[test]
fn check_multiply_high() {
    for x in (1..1000).map(|x| u128::MAX / x) {
        for y in (1..1000).map(|x| u128::MAX / x) {
            let true_ans = high_word(x, y);
            assert_eq!(multiply_high(x, y), true_ans, "check for {x} * {y}");
        }
    }
}

#[test]
fn montgomery_round_trip() {
    let mo = DynamicModInt::new(1_000_000_007);
    for x in [0u128, 1, 2, 12345, 1_000_000_006] {
        let rx = mo.mr(x);
        assert_eq!(mo.val(rx), x);
        assert_eq!(mo.val(mo.mul(rx, mo.one())), x);
    }
    // 3 * 5 = 15, 3^10 = 59049, 3 / 3 = 1
    let (r3, r5) = (mo.mr(3), mo.mr(5));
    assert_eq!(mo.val(mo.mul(r3, r5)), 15);
    assert_eq!(mo.val(mo.pow(r3, 10)), 59049);
    assert_eq!(mo.val(mo.div(r3, r3).unwrap()), 1);
    assert_eq!(mo.val(mo.sub(r3, r5)), 1_000_000_005);
    assert_eq!(mo.val(mo.neg(r3)), 1_000_000_004);
}

#[test]
fn inverse_or_gcd() {
    let mo = DynamicModInt::new(15);
    assert_eq!(mo.inv(mo.mr(3)), Err(3));
    assert_eq!(mo.inv(mo.mr(10)), Err(5));
    assert_eq!(mo.val(mo.inv(mo.mr(7)).unwrap()), 13);
    assert_eq!(factor::modint::u128::gcd(12, 18), 6);
    assert_eq!(factor::modint::u128::inv_gcd(3, 7), (1, 5));
    assert_eq!(factor::modint::u128::inv_gcd(6, 9), (3, 2));
}



#[test]
fn static_modint_operators() {
    type M97 = StaticModInt<97>;
    let a = M97::new(50);
    let b = M97::new(60);
    assert_eq!((a + b).val(), 13);
    assert_eq!((a - b).val(), 87);
    assert_eq!((a * b).val(), 3000 % 97);
    assert_eq!((-a).val(), 47);
    assert_eq!(a + b, M97::new(110));
    assert_eq!(a * b, a.mul(b));
    let q = (a / b).unwrap();
    assert_eq!((q * b).val(), 50);
    assert_eq!(a / M97::new(0), Err(97));
    type M15 = StaticModInt<15>;
    assert_eq!(M15::new(4) / M15::new(6), Err(3));
}
