use factor::convolution::u128::transpose::{butterfly, butterfly_inv};
use factor::convolution::u128::{
    convolution_arbitrary, convolution_naive, convolution_proth, middle_product_arbitrary,
    middle_product_proth, ntt, ntt_inv, ntt_inv_transpose, ntt_transpose, power_2_generator,
    DynamicConvolution,
};
use factor::convolution::u128::transpose as tr;
use factor::modint::u128::{DynamicModInt, Modulus, StaticModInt};
use factor::utility::Sfc64;

fn gen_vector<const M: u128>(rng: &mut Sfc64, n: usize) -> Vec<StaticModInt<M>> {
    rng.next_vector(0..M, n)
        .into_iter()
        .map(StaticModInt::new)
        .collect()
}

#[test]
fn test_ntt_small() {
    type Mint = StaticModInt<97>;
    let g = power_2_generator::<{ Mint::MOD }>();

    for h in 1..6 {
        let rev = (0u8..1 << h)
            .map(|i| (i.reverse_bits() >> 3) as u128)
            .collect::<Vec<_>>();
        for i in 0..1 << h {
            let mut a = vec![Mint::new(0); 1 << h];
            a[i] = Mint::new(1);
            ntt(&mut a);
            let b = (0..1 << h)
                .map(|j| g.pow(i as u128 * rev[j]))
                .collect::<Vec<_>>();
            assert_eq!(a, b, "h = {h}, i = {i}");

            ntt_inv(&mut a, true);
            for (j, aj) in a.iter().enumerate() {
                assert_eq!(*aj, Mint::new(if j == i { 1 } else { 0 }));
            }
        }
    }
}

#[test]
fn test_ntt_identity() {
    type Mint = StaticModInt<97>;
    let mut rng = Sfc64::new(0);
    for h in 0..6 {
        for _ in 0..100 {
            let a: Vec<Mint> = gen_vector(&mut rng, 1 << h);

            let mut a_ = a.clone();
            ntt(&mut a_);
            ntt_inv(&mut a_, true);
            assert_eq!(a_, a);

            let mut a_ = a.clone();
            ntt_inv(&mut a_, true);
            ntt(&mut a_);
            assert_eq!(a_, a);
        }
    }
}

#[test]
fn test_convolution_proth() {
    type Mint = StaticModInt<65537>;
    let mut rng = Sfc64::new(0);
    for _ in 0..100 {
        let n1 = rng.next_range(0..100) as usize;
        let a: Vec<Mint> = gen_vector(&mut rng, n1);
        let n2 = rng.next_range(0..100) as usize;
        let b: Vec<Mint> = gen_vector(&mut rng, n2);
        assert_eq!(convolution_proth(&a, &b), convolution_naive(&a, &b));
    }
}

#[test]
fn test_convolution_arbitrary() {
    let mut rng = Sfc64::new(0);
    for _ in 0..100 {
        type Mint = StaticModInt<65537>;
        let n1 = rng.next_range(0..100) as usize;
        let a: Vec<Mint> = gen_vector(&mut rng, n1);
        let n2 = rng.next_range(0..100) as usize;
        let b: Vec<Mint> = gen_vector(&mut rng, n2);
        assert_eq!(convolution_arbitrary(&a, &b), convolution_naive(&a, &b));
    }
    for _ in 0..100 {
        type Mint = StaticModInt<{ 1 << 126 | 1 }>;
        let n1 = rng.next_range(0..100) as usize;
        let a: Vec<Mint> = gen_vector(&mut rng, n1);
        let n2 = rng.next_range(0..100) as usize;
        let b: Vec<Mint> = gen_vector(&mut rng, n2);
        assert_eq!(convolution_arbitrary(&a, &b), convolution_naive(&a, &b));
    }
}

#[test]
fn test_dynamic_convolution_arbitrary() {
    let mut rng = Sfc64::new(0);
    for mo in [
        DynamicModInt::new(998244353),
        DynamicModInt::new(1001001001),
        DynamicModInt::new(1 << 126 | 1),
        DynamicModInt::new((1 << 127) - 1),
    ] {
        for _ in 0..100 {
            let n1 = rng.next_range(0..100) as usize;
            let a = rng
                .next_vector(0..mo.n, n1)
                .into_iter()
                .map(|x| mo.mr(x))
                .collect::<Vec<_>>();
            let n2 = rng.next_range(0..100) as usize;
            let b = rng
                .next_vector(0..mo.n, n2)
                .into_iter()
                .map(|x| mo.mr(x))
                .collect::<Vec<_>>();
            assert_eq!(
                mo.convolution_arbitrary(&a, &b),
                mo.convolution_naive(&a, &b)
            );
            assert_eq!(
                mo.convolution_karatsuba(&a, &b),
                mo.convolution_naive(&a, &b)
            );
        }
    }
}

#[test]
fn check_matrix_ntt() {
    type Mint = StaticModInt<97>;
    // ntt
    for h in 1..6 {
        let n = 1 << h;
        let mut m_primal = vec![vec![Mint::default(); n]; n];
        for i in 0..n {
            let mut a = vec![Mint::default(); n];
            a[i] = Mint::new(1);
            ntt(&mut a);
            m_primal[i] = a;
        }
        let mut m_transposed = vec![vec![Mint::default(); n]; n];
        for i in 0..n {
            let mut a = vec![Mint::default(); n];
            a[i] = Mint::new(1);
            ntt_transpose(&mut a);
            for j in 0..n {
                m_transposed[j][i] = a[j];
            }
        }
        assert_eq!(m_primal, m_transposed);
    }
    // ntt_inv, true
    for h in 1..6 {
        let n = 1 << h;
        let mut m_primal = vec![vec![Mint::default(); n]; n];
        for i in 0..n {
            let mut a = vec![Mint::default(); n];
            a[i] = Mint::new(1);
            ntt_inv(&mut a, true);
            m_primal[i] = a;
        }
        let mut m_transposed = vec![vec![Mint::default(); n]; n];
        for i in 0..n {
            let mut a = vec![Mint::default(); n];
            a[i] = Mint::new(1);
            ntt_inv_transpose(&mut a, true);
            for j in 0..n {
                m_transposed[j][i] = a[j];
            }
        }
        assert_eq!(m_primal, m_transposed);
    }
    // ntt_inv, false
    for h in 1..6 {
        let n = 1 << h;
        let mut m_primal = vec![vec![Mint::default(); n]; n];
        for i in 0..n {
            let mut a = vec![Mint::default(); n];
            a[i] = Mint::new(1);
            ntt_inv(&mut a, false);
            m_primal[i] = a;
        }
        let mut m_transposed = vec![vec![Mint::default(); n]; n];
        for i in 0..n {
            let mut a = vec![Mint::default(); n];
            a[i] = Mint::new(1);
            ntt_inv_transpose(&mut a, false);
            for j in 0..n {
                m_transposed[j][i] = a[j];
            }
        }
        assert_eq!(m_primal, m_transposed);
    }
}

#[test]
fn u128_check_matrix_middle_product() {
    type Mint = StaticModInt<65537>;
    let mut rng = Sfc64::new(0);
    for _ in 0..100 {
        let la = rng.next_range(1..10) as usize;
        let a: Vec<Mint> = gen_vector(&mut rng, la);
        let lb = rng.next_range(1..10) as usize;
        let lc = la + lb - 1;
        let mut m_primal = vec![vec![Mint::default(); lc]; lb];
        for i in 0..lb {
            let mut b = vec![Mint::default(); lb];
            b[i] = Mint::new(1);
            let c = convolution_proth(&a, &b);
            m_primal[i] = c;
        }
        let mut m_transposed = vec![vec![Mint::default(); lc]; lb];
        for i in 0..lc {
            let mut c = vec![Mint::default(); lc];
            c[i] = Mint::new(1);
            let b = middle_product_proth(&a, &c);
            for j in 0..lb {
                m_transposed[j][i] = b[j];
            }
        }
        assert_eq!(m_primal, m_transposed);
    }
}

#[test]
fn u128_test_middle_product() {
    let mut rng = Sfc64::new(0);
    for _ in 0..100 {
        type Mint = StaticModInt<65537>;
        let la = rng.next_range(1..10) as usize;
        let mut a: Vec<Mint> = gen_vector(&mut rng, la);
        let lc = la + rng.next_range(0..10) as usize;
        let c: Vec<Mint> = gen_vector(&mut rng, lc);

        let b1 = middle_product_proth(&a, &c);
        a.reverse();
        let b2 = convolution_proth(&a, &c)[la - 1..lc].to_owned();
        assert_eq!(b1, b2);
    }
    for _ in 0..100 {
        type Mint = StaticModInt<65537>;
        let la = rng.next_range(1..10) as usize;
        let mut a: Vec<Mint> = gen_vector(&mut rng, la);
        let lc = la + rng.next_range(0..10) as usize;
        let c: Vec<Mint> = gen_vector(&mut rng, lc);

        let b1 = middle_product_arbitrary(&a, &c);
        a.reverse();
        let b2 = convolution_arbitrary(&a, &c)[la - 1..lc].to_owned();
        assert_eq!(b1, b2);
    }
    for _ in 0..100 {
        type Mint = StaticModInt<{ 1 << 126 | 1 }>;
        let la = rng.next_range(1..10) as usize;
        let mut a: Vec<Mint> = gen_vector(&mut rng, la);
        let lc = la + rng.next_range(0..10) as usize;
        let c: Vec<Mint> = gen_vector(&mut rng, lc);

        let b1 = middle_product_arbitrary(&a, &c);
        a.reverse();
        let b2 = convolution_arbitrary(&a, &c)[la - 1..lc].to_owned();
        assert_eq!(b1, b2);
    }
}

#[test]
fn check_matrix_butterfly() {
    type Mint = StaticModInt<97>;
    // butterfly
    for h in 1..6 {
        let n = 1 << h;
        let mut m_primal = vec![vec![Mint::default(); n]; n];
        for i in 0..n {
            let mut a = vec![Mint::default(); n];
            a[i] = Mint::new(1);
            ntt(&mut a);
            m_primal[i] = a;
        }
        let mut m_transposed = vec![vec![Mint::default(); n]; n];
        for i in 0..n {
            let mut a = vec![Mint::default(); n];
            a[i] = Mint::new(1);
            butterfly(&mut a);
            for j in 0..n {
                m_transposed[j][i] = a[j];
            }
        }
        assert_eq!(m_primal, m_transposed);
    }
    // butterfly_inv, true
    for h in 1..6 {
        let n = 1 << h;
        let mut m_primal = vec![vec![Mint::default(); n]; n];
        for i in 0..n {
            let mut a = vec![Mint::default(); n];
            a[i] = Mint::new(1);
            ntt_inv(&mut a, true);
            m_primal[i] = a;
        }
        let mut m_transposed = vec![vec![Mint::default(); n]; n];
        for i in 0..n {
            let mut a = vec![Mint::default(); n];
            a[i] = Mint::new(1);
            butterfly_inv(&mut a, true);
            for j in 0..n {
                m_transposed[j][i] = a[j];
            }
        }
        assert_eq!(m_primal, m_transposed);
    }
    // butterfly_inv, false
    for h in 1..6 {
        let n = 1 << h;
        let mut m_primal = vec![vec![Mint::default(); n]; n];
        for i in 0..n {
            let mut a = vec![Mint::default(); n];
            a[i] = Mint::new(1);
            ntt_inv(&mut a, false);
            m_primal[i] = a;
        }
        let mut m_transposed = vec![vec![Mint::default(); n]; n];
        for i in 0..n {
            let mut a = vec![Mint::default(); n];
            a[i] = Mint::new(1);
            butterfly_inv(&mut a, false);
            for j in 0..n {
                m_transposed[j][i] = a[j];
            }
        }
        assert_eq!(m_primal, m_transposed);
    }
}

fn gen_vector_filled<const M: u128>(rng: &mut Sfc64, n: usize) -> Vec<StaticModInt<M>> {
    let mut a = vec![StaticModInt::new(0); n];
    for ai in a.iter_mut() {
        *ai = StaticModInt::new(rng.next_range(0..M));
    }
    a
}

#[test]
fn transpose_check_matrix_middle_product() {
    type Mint = StaticModInt<65537>;
    let mut rng = Sfc64::new(0);
    for _ in 0..100 {
        let la = rng.next_range(1..10) as usize;
        let a: Vec<Mint> = gen_vector_filled(&mut rng, la);
        let lb = rng.next_range(1..10) as usize;
        let lc = la + lb - 1;
        let mut m_primal = vec![vec![Mint::default(); lc]; lb];
        for i in 0..lb {
            let mut b = vec![Mint::default(); lb];
            b[i] = Mint::new(1);
            let c = convolution_proth(&a, &b);
            m_primal[i] = c;
        }
        let mut m_transposed = vec![vec![Mint::default(); lc]; lb];
        for i in 0..lc {
            let mut c = vec![Mint::default(); lc];
            c[i] = Mint::new(1);
            let b = tr::middle_product_proth(&a, &c);
            for j in 0..lb {
                m_transposed[j][i] = b[j];
            }
        }
        assert_eq!(m_primal, m_transposed);
    }
}

#[test]
fn transpose_test_middle_product() {
    let mut rng = Sfc64::new(0);
    for _ in 0..100 {
        type Mint = StaticModInt<65537>;
        let la = rng.next_range(1..10) as usize;
        let mut a: Vec<Mint> = gen_vector_filled(&mut rng, la);
        let lc = la + rng.next_range(0..10) as usize;
        let c: Vec<Mint> = gen_vector_filled(&mut rng, lc);

        let b1 = tr::middle_product_proth(&a, &c);
        a.reverse();
        let b2 = convolution_proth(&a, &c)[la - 1..lc].to_owned();
        assert_eq!(b1, b2);
    }
    for _ in 0..100 {
        type Mint = StaticModInt<{ 1 << 126 | 1 }>;
        let la = rng.next_range(1..10) as usize;
        let mut a: Vec<Mint> = gen_vector_filled(&mut rng, la);
        let lc = la + rng.next_range(0..10) as usize;
        let c: Vec<Mint> = gen_vector_filled(&mut rng, lc);

        let b1 = tr::middle_product_arbitrary(&a, &c);
        a.reverse();
        let b2 = convolution_arbitrary(&a, &c)[la - 1..lc].to_owned();
        assert_eq!(b1, b2);
    }
}

#[test]
fn convolution_commutes_and_associates() {
    type Mint = StaticModInt<998244353>;
    let mut rng = Sfc64::new(7);
    for _ in 0..50 {
        let la = 1 + rng.next_range(0..20) as usize;
        let lb = 1 + rng.next_range(0..20) as usize;
        let lc = 1 + rng.next_range(0..20) as usize;
        let a: Vec<Mint> = gen_vector(&mut rng, la);
        let b: Vec<Mint> = gen_vector(&mut rng, lb);
        let c: Vec<Mint> = gen_vector(&mut rng, lc);
        assert_eq!(convolution_naive(&a, &b), convolution_naive(&b, &a));
        assert_eq!(
            convolution_naive(&convolution_naive(&a, &b), &c),
            convolution_naive(&a, &convolution_naive(&b, &c))
        );
        assert_eq!(convolution_proth(&a, &b), convolution_naive(&a, &b));
    }
}

#[test]
fn ntt_round_trip_with_division() {
    type Mint = StaticModInt<998244353>;
    let mut rng = Sfc64::new(11);
    for h in 0..8 {
        let a: Vec<Mint> = gen_vector(&mut rng, 1 << h);
        let mut b = a.clone();
        ntt(&mut b);
        ntt_inv(&mut b, true);
        assert_eq!(b, a);
    }
}

#[test]
fn u128_test_power_2_generator() {
    assert_eq!(power_2_generator::<3>().val(), 2);
    assert_eq!(power_2_generator::<5>().val(), 2);
    assert_eq!(power_2_generator::<7>().val(), 6);
    assert_eq!(power_2_generator::<11>().val(), 10);
    assert_eq!(power_2_generator::<13>().val(), 5);
    assert_eq!(power_2_generator::<17>().val(), 3);
    assert_eq!(power_2_generator::<19>().val(), 18);
    assert_eq!(power_2_generator::<23>().val(), 22);
    assert_eq!(power_2_generator::<29>().val(), 12);
    assert_eq!(power_2_generator::<31>().val(), 30);
    assert_eq!(power_2_generator::<37>().val(), 6);
    assert_eq!(power_2_generator::<41>().val(), 3);
    assert_eq!(power_2_generator::<43>().val(), 42);
    assert_eq!(power_2_generator::<47>().val(), 46);
    assert_eq!(power_2_generator::<53>().val(), 23);
    assert_eq!(power_2_generator::<59>().val(), 58);
    assert_eq!(power_2_generator::<61>().val(), 11);
    assert_eq!(power_2_generator::<67>().val(), 66);
    assert_eq!(power_2_generator::<71>().val(), 70);
    assert_eq!(power_2_generator::<73>().val(), 10);
    assert_eq!(power_2_generator::<79>().val(), 78);
    assert_eq!(power_2_generator::<83>().val(), 82);
    assert_eq!(power_2_generator::<89>().val(), 12);
    assert_eq!(power_2_generator::<97>().val(), 19);
}
