//! Transposed transforms and middle products built on them.
use vstd::prelude::*;
use vstd::arithmetic::div_mod::*;
use crate::arith::spec_gcd;
use crate::convolution::u128::ntt_laws::{is_inverse_transform, is_transform};
use crate::convolution::u128::{
    self as primal, as_ints, divided_by_length, rev_tail, divide_by_length, garner_lengths_fit, middle_product_naive, mp_coef, ntt_length_fits,
    ntt_length_ok, ntt_ready, reverse_from, to_plain,
};
use crate::garner::{garner_digits, garner_value, M1, M2, M3};
use crate::modint::u128::{all_reduced, lemma_reduced_product, valid_modulus, values, StaticModInt};
use crate::primality::is_prime_const;

verus! {

/// The transpose of the forward transform in place: the inverse transform without division,
/// followed by reversing all entries but the first.
pub fn butterfly<const M: u128>(a: &mut Vec<StaticModInt<M>>)
    requires
        ntt_ready(M),
        all_reduced(old(a)@),
    ensures
        final(a)@.len() == old(a)@.len(),
        all_reduced(final(a)@),
        old(a)@.len() <= 1 ==> final(a)@ == old(a)@,
        old(a)@.len() > 1 ==> exists|mid: Seq<StaticModInt<M>>| #[trigger] is_inverse_transform(old(a)@, mid, false)
            && final(a)@ == rev_tail(mid),
{
    let n = a.len();
    if n <= 1 {
        return;
    }
    primal::ntt_inv(a, false);
    let ghost mid = a@;
    reverse_from(a, 1);
    proof {
        assert(is_inverse_transform(old(a)@, mid, false) && a@ == rev_tail(mid));
    }
}

/// The transpose of the inverse transform in place: reversing all entries but the first, the
/// forward transform, and with `divide_n` division by the length.
pub fn butterfly_inv<const M: u128>(a: &mut Vec<StaticModInt<M>>, divide_n: bool)
    requires
        ntt_ready(M),
        all_reduced(old(a)@),
        divide_n && old(a)@.len() > 1 ==> spec_gcd((old(a)@.len() as int % M as int) as nat, M as nat) == 1,
    ensures
        final(a)@.len() == old(a)@.len(),
        all_reduced(final(a)@),
        old(a)@.len() <= 1 ==> final(a)@ == old(a)@,
        old(a)@.len() > 1 ==> exists|mid: Seq<StaticModInt<M>>| #[trigger] is_transform(rev_tail(old(a)@), mid) && (if divide_n {
            divided_by_length(mid, final(a)@)
        } else {
            final(a)@ == mid
        }),
{
    let n = a.len();
    if n <= 1 {
        return;
    }
    reverse_from(a, 1);
    let ghost rev = a@;
    primal::ntt(a);
    let ghost mid = a@;
    if divide_n {
        divide_by_length(a);
    }
    proof {
        assert(rev == rev_tail(old(a)@));
        assert(is_transform(rev_tail(old(a)@), mid));
    }
}

/// The middle product `b[i] = sum_{t < la} a[t] c[i + t]` by transforms.
pub fn middle_product_proth<const M: u128>(a: &[StaticModInt<M>], c: &[StaticModInt<M>]) -> (b: Vec<StaticModInt<M>>)
    requires
        ntt_ready(M),
        0 < a@.len() <= c@.len(),
        all_reduced(a@),
        all_reduced(c@),
        ntt_length_ok(M, c@.len() as int),
    ensures
        b@.len() == c@.len() - a@.len() + 1,
        all_reduced(b@),
        forall|i: int| 0 <= i < b@.len() ==> (#[trigger] b@[i]).value() == mp_coef(values(a@), values(c@), i) % (M as int),
{
    primal::middle_product_proth(a, c)
}

/// `middle_product_proth` on plain residues, in and out.
pub fn middle_product_raw<const M: u128>(a: &[u128], c: &[u128]) -> (b: Vec<u128>)
    requires
        ntt_ready(M),
        0 < a@.len() <= c@.len(),
        ntt_length_ok(M, c@.len() as int),
    ensures
        b@.len() == c@.len() - a@.len() + 1,
        forall|k: int| 0 <= k < b@.len() ==> #[trigger] b@[k] < M,
        forall|k: int| 0 <= k < b@.len() ==> #[trigger] b@[k] == mp_coef(as_ints(a@), as_ints(c@), k) % (M as int),
{
    primal::middle_product_raw::<M>(a, c)
}

/// The number with Garner digits of `c1, c2, c3` as an element modulo `M`.
fn garner_in<const M: u128>(c1: u128, c2: u128, c3: u128) -> (r: StaticModInt<M>)
    requires
        valid_modulus(M),
    ensures
        r.rep() < M,
        r.value() == garner_value(c1 as int, c2 as int, c3 as int) % (M as int),
{
    let (x1, x2, x3) = garner_digits(c1, c2, c3);
    let e1 = StaticModInt::<M>::new(x1);
    let f1 = StaticModInt::<M>::new(M1);
    let f2 = StaticModInt::<M>::new(M2);
    let e2 = StaticModInt::<M>::new(x2);
    let e3 = StaticModInt::<M>::new(x3);
    proof {
        lemma_reduced_product(f1.rep(), e2.rep(), M);
        lemma_reduced_product(f1.rep(), f2.rep(), M);
    }
    let t2 = f1.mul(e2);
    let f12 = f1.mul(f2);
    proof {
        lemma_reduced_product(f12.rep(), e3.rep(), M);
    }
    let t3 = f12.mul(e3);
    let s = e1.add(t2);
    proof {
        lemma_garner_in_value(M as int, x1 as int, x2 as int, x3 as int);
    }
    s.add(t3)
}

/// Reducing each term and product modulo `m` gives `x1 + M1 x2 + M1 M2 x3` modulo `m`.
proof fn lemma_garner_in_value(m: int, x1: int, x2: int, x3: int)
    requires
        m > 0,
    ensures
        ((x1 % m + (M1 as int % m) * (x2 % m) % m) % m + ((M1 as int % m) * (M2 as int % m) % m) * (x3 % m) % m) % m
            == (x1 + M1 * x2 + M1 * M2 * x3) % m,
{
    let a = M1 as int;
    let b = M2 as int;
    lemma_mul_mod_noop(a, x2, m);
    lemma_mul_mod_noop(a, b, m);
    lemma_mul_mod_noop(a * b, x3, m);
    lemma_mul_mod_noop_left(a * b, x3, m);
    lemma_mul_mod_noop_right((a * b) % m, x3, m);
    lemma_add_mod_noop(x1, a * x2, m);
    lemma_add_mod_noop(x1 + a * x2, a * b * x3, m);
    lemma_mod_twice(a * b, m);
    lemma_mul_mod_noop(a % m, b % m, m);
    lemma_mul_mod_noop(a % m * (b % m) % m, x3 % m, m);
    lemma_mod_twice(x3, m);
}

/// The middle product modulo any `M`: by transforms modulo `M` where they apply, else by
/// transforms modulo the three NTT primes and Garner reconstruction carried out modulo `M`
/// (by the definition should those primes fail their run-time checks).
pub fn middle_product_arbitrary<const M: u128>(a: &[StaticModInt<M>], c: &[StaticModInt<M>]) -> (b: Vec<StaticModInt<M>>)
    requires
        valid_modulus(M),
        0 < a@.len() <= c@.len(),
        all_reduced(a@),
        all_reduced(c@),
    ensures
        b@.len() == c@.len() - a@.len() + 1,
        all_reduced(b@),
        forall|i: int| 0 <= i < b@.len() ==> (#[trigger] b@[i]).value() == mp_coef(values(a@), values(c@), i) % (M as int),
{
    let lc = c.len();
    if M >= 3 && is_prime_const(M) {
        if ntt_length_fits::<M>(lc) && primal::find_power_2_generator::<M>().is_some() {
            return middle_product_proth(a, c);
        }
    }
    if !garner_lengths_fit(lc) {
        return middle_product_naive(a, c);
    }
    let pa = to_plain(a);
    let pc = to_plain(c);
    let c1 = middle_product_raw::<M1>(pa.as_slice(), pc.as_slice());
    let c2 = middle_product_raw::<M2>(pa.as_slice(), pc.as_slice());
    let c3 = middle_product_raw::<M3>(pa.as_slice(), pc.as_slice());
    let ghost va = values(a@);
    let ghost vc = values(c@);
    proof {
        assert(as_ints(pa@) =~= va);
        assert(as_ints(pc@) =~= vc);
        assert forall|i: int| 0 <= i < va.len() implies 0 <= #[trigger] va[i] < M by {
            lemma_mod_bound(a@[i].rep() as int * crate::arith::r_inv(M as int), M as int);
        }
        assert forall|i: int| 0 <= i < vc.len() implies 0 <= #[trigger] vc[i] < M by {
            lemma_mod_bound(c@[i].rep() as int * crate::arith::r_inv(M as int), M as int);
        }
        assert forall|i: int| 0 <= i < c1@.len() implies garner_value(#[trigger] c1@[i] as int, c2@[i] as int, c3@[i] as int)
            == mp_coef(va, vc, i) by {
            primal::lemma_garner_mp_coefficient(va, vc, i, M as int, lc as int);
        }
    }
    let len = c1.len();
    let mut b: Vec<StaticModInt<M>> = Vec::new();
    let mut k: usize = 0;
    while k < len
        invariant
            valid_modulus(M),
            len == c1@.len(),
            c1@.len() == c2@.len(),
            c2@.len() == c3@.len(),
            k <= len,
            b@.len() == k,
            all_reduced(b@),
            forall|i: int| 0 <= i < len ==> garner_value(#[trigger] c1@[i] as int, c2@[i] as int, c3@[i] as int) == mp_coef(va, vc, i),
            forall|i: int| 0 <= i < k ==> (#[trigger] b@[i]).value() == mp_coef(va, vc, i) % (M as int),
        decreases len - k,
    {
        b.push(garner_in::<M>(c1[k], c2[k], c3[k]));
        k += 1;
    }
    b
}

} // verus!
