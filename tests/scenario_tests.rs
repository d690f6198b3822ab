use rust_ntt::math::{
    find_first_prime_down, find_first_prime_up, find_generator, find_next_prime_down,
    find_next_prime_up, find_primitive_root, modmul_naive, root_from_factors,
};
use rust_ntt::{CongruenceClass, NttContext, NttError, NttPolynomial, PolyRing};
use std::sync::Arc;

fn poly(ctx: &Arc<NttContext>, c: &[u64]) -> NttPolynomial {
    NttPolynomial::from_coeffs(c.to_vec(), Arc::clone(ctx)).unwrap()
}

#[test]
fn square_of_one_plus_x_mod_17() {
    let ctx = NttContext::new(17, 4).unwrap();
    let a = poly(&ctx, &[1, 1, 0, 0]);
    let b = poly(&ctx, &[1, 1, 0, 0]);
    assert_eq!(a.negacyclic_convolution(&b).unwrap().coeffs(), &[1, 2, 1, 0]);
    assert_eq!(a.negacyclic_convolution_shoup(&b).unwrap().coeffs(), &[1, 2, 1, 0]);
    assert_eq!(a.naive_negacyclic_convolution(&b).unwrap().coeffs(), &[1, 2, 1, 0]);
}

#[test]
fn barrett_matches_wide_reference() {
    let q = 741507920154517877u64;
    let a = 280429249880250689u64;
    let b = 530127388764165774u64;
    let class = CongruenceClass::new(q);
    let reference = ((a as u128 * b as u128) % q as u128) as u64;
    assert_eq!(reference, 227723816755466178);
    assert_eq!(class.modmul(a, b), reference);
    assert_eq!(class.modmul_shoup(a, b, class.precompute_shoup(b)), reference);
}

#[test]
fn barrett_needs_second_correction() {
    // the quotient estimate falls two short here
    let class = CongruenceClass::new(491);
    assert_eq!(class.modmul(483, 490), 8);
    assert_eq!(class.modsquare(490), 1);
}

#[test]
fn wraparound_flips_sign_mod_17() {
    let ctx = NttContext::new(17, 4).unwrap();
    let x3 = poly(&ctx, &[0, 0, 0, 1]);
    let x = poly(&ctx, &[0, 1, 0, 0]);
    assert_eq!(x3.mul(&x).unwrap().coeffs(), &[16, 0, 0, 0]);
    assert_eq!(x3.naive_negacyclic_convolution(&x).unwrap().coeffs(), &[16, 0, 0, 0]);
}

#[test]
fn forward_transform_values_mod_17() {
    let ctx = NttContext::new(17, 4).unwrap();
    let mut a = poly(&ctx, &[1, 2, 3, 4]);
    a.ntt_forward();
    assert_eq!(a.coeffs(), &[16, 13, 11, 15]);
    let mut b = poly(&ctx, &[1, 2, 3, 4]);
    b.ntt_forward_shoup();
    assert_eq!(b.coeffs(), &[16, 13, 11, 15]);
    a.ntt_inverse();
    b.ntt_inverse_shoup();
    assert_eq!(a.coeffs(), &[1, 2, 3, 4]);
    assert_eq!(b.coeffs(), &[1, 2, 3, 4]);
}

#[test]
fn round_trip_on_larger_degree() {
    let q = find_first_prime_up(30, 64).unwrap();
    let ctx = NttContext::new(q, 64).unwrap();
    let c: Vec<u64> = (0..64u64).map(|i| (i * 7919 + 11) % q).collect();
    let mut p = NttPolynomial::from_coeffs(c.clone(), Arc::clone(&ctx)).unwrap();
    p.ntt_forward_shoup();
    assert_ne!(p.coeffs(), &c);
    p.ntt_inverse();
    assert_eq!(p.coeffs(), &c);
}

#[test]
fn convolutions_agree_on_larger_degree() {
    let q = find_first_prime_up(40, 32).unwrap();
    let ctx = NttContext::new(q, 32).unwrap();
    let a: Vec<u64> = (0..32u64).map(|i| (i * i * 1_000_003 + 5) % q).collect();
    let b: Vec<u64> = (0..32u64).map(|i| (q - 1 - i * 12345) % q).collect();
    let pa = NttPolynomial::from_coeffs(a, Arc::clone(&ctx)).unwrap();
    let pb = NttPolynomial::from_coeffs(b, Arc::clone(&ctx)).unwrap();
    let naive = pa.naive_negacyclic_convolution(&pb).unwrap();
    assert_eq!(pa.negacyclic_convolution(&pb).unwrap().coeffs(), naive.coeffs());
    assert_eq!(pa.negacyclic_convolution_shoup(&pb).unwrap().coeffs(), naive.coeffs());
}

#[test]
fn twiddle_products_are_one() {
    let q = find_first_prime_up(20, 16).unwrap();
    let ctx = NttContext::new(q, 16).unwrap();
    for i in 0..16 {
        assert_eq!(modmul_naive(ctx.tf()[i], ctx.itf()[i], q), 1);
    }
}

#[test]
fn generator_has_order_2n() {
    let ctx = NttContext::new(97, 16).unwrap();
    let g = ctx.generator();
    assert_eq!(ctx.class().modexp(g, 16), 96);
    assert_eq!(ctx.class().modexp(g, 32), 1);
}

#[test]
fn ring_addition_laws() {
    let ctx = NttContext::new(17, 4).unwrap();
    let a = poly(&ctx, &[16, 5, 0, 9]);
    let b = poly(&ctx, &[3, 12, 7, 8]);
    let c = poly(&ctx, &[1, 16, 16, 0]);
    let zero = NttPolynomial::zero(Arc::clone(&ctx));
    assert_eq!(a.add(&b).unwrap().coeffs(), &[2, 0, 7, 0]);
    assert_eq!(a.add(&b).unwrap().coeffs(), b.add(&a).unwrap().coeffs());
    let left = a.add(&b).unwrap().add(&c).unwrap();
    let right = a.add(&b.add(&c).unwrap()).unwrap();
    assert_eq!(left.coeffs(), right.coeffs());
    assert_eq!(a.add(&zero).unwrap().coeffs(), a.coeffs());
    assert_eq!(zero.add(&a).unwrap().coeffs(), a.coeffs());
    assert_eq!(a.neg().coeffs(), &[1, 12, 0, 8]);
    assert_eq!(a.neg().neg().coeffs(), a.coeffs());
    assert_eq!(a.sub(&b).unwrap().coeffs(), &[13, 10, 10, 1]);
}

#[test]
fn mismatched_moduli_are_reported() {
    let c17 = NttContext::new(17, 4).unwrap();
    let c41 = NttContext::new(41, 4).unwrap();
    let mut a = poly(&c17, &[1, 2, 3, 4]);
    let b = poly(&c41, &[1, 2, 3, 4]);
    assert_eq!(a.add(&b).err(), Some(NttError::ModulusMismatch));
    assert_eq!(a.sub(&b).err(), Some(NttError::ModulusMismatch));
    assert_eq!(a.mul(&b).err(), Some(NttError::ModulusMismatch));
    assert_eq!(a.negacyclic_convolution_shoup(&b).err(), Some(NttError::ModulusMismatch));
    assert_eq!(a.naive_negacyclic_convolution(&b).err(), Some(NttError::ModulusMismatch));
    assert_eq!(a.add_assign(&b), Err(NttError::ModulusMismatch));
    assert_eq!(a.coeffs(), &[1, 2, 3, 4]);
}

#[test]
fn raw_coefficients_are_checked() {
    let ctx = NttContext::new(17, 4).unwrap();
    let long = NttPolynomial::from_coeffs(vec![1, 2, 3], Arc::clone(&ctx));
    assert_eq!(long.err(), Some(NttError::PreconditionViolation));
    let big = NttPolynomial::from_coeffs(vec![1, 2, 17, 4], Arc::clone(&ctx));
    assert_eq!(big.err(), Some(NttError::PreconditionViolation));
}

#[test]
fn prime_searches_on_small_values() {
    assert_eq!(find_first_prime_up(5, 4), Some(41));
    assert_eq!(find_first_prime_down(5, 4), Some(17));
    assert_eq!(find_next_prime_up(17, 4), Some(41));
    assert_eq!(find_next_prime_down(41, 4), Some(17));
    assert_eq!(find_next_prime_down(17, 4), None);
    assert_eq!(find_primitive_root(17), Some(3));
    assert_eq!(find_primitive_root(41), Some(6));
    assert_eq!(find_generator(17, 4), Some(9));
}

#[test]
fn scalar_edge_cases() {
    let class = CongruenceClass::new(17);
    assert_eq!(class.modadd(9, 8), 0);
    assert_eq!(class.modadd(16, 16), 15);
    assert_eq!(class.modsub(3, 5), 15);
    assert_eq!(class.modneg(0), 0);
    let mut z = 0u64;
    class.modneg_eq(&mut z);
    assert_eq!(z, 0);
    assert_eq!(class.modexp(3, 16), 1);
    assert_eq!(class.modexp(5, 0), 1);
    assert_eq!(class.modinv(3), 6);
    let mut x = 4u64;
    class.modinv_eq(&mut x);
    assert_eq!(x, 13);
    let mut y = 5u64;
    class.modsquare_eq(&mut y);
    assert_eq!(y, 8);
    let mut e = 2u64;
    class.modexp_eq(&mut e, 10);
    assert_eq!(e, 4);
    assert_eq!(class.q(), 17);
    assert_eq!(class.precompute_shoup(1), 1085102592571150095);
}

#[test]
fn poly_ring_operations() {
    let ring = PolyRing::new(17, 4).unwrap();
    let a = vec![1u64, 1, 0, 0];
    let b = vec![0u64, 0, 0, 1];
    assert_eq!(ring.add(&a, &b), vec![1, 1, 0, 1]);
    assert_eq!(ring.sub(&a, &b), vec![1, 1, 0, 16]);
    assert_eq!(ring.neg(&a), vec![16, 16, 0, 0]);
    assert_eq!(ring.mul(&a, &vec![2, 3, 4, 5]), vec![2, 3, 0, 0]);
    assert_eq!(ring.naive_negacyclic_convolution(&a, &a), vec![1, 2, 1, 0]);
    assert_eq!(ring.ntt_negacyclic_convolution(&a, &b), vec![16, 0, 0, 1]);
    assert_eq!(ring.ntt_negacyclic_convolution_shoup(&a, &b), vec![16, 0, 0, 1]);
    let mut c = vec![1u64, 2, 3, 4];
    ring.ntt_forward(&mut c);
    assert_eq!(c, vec![16, 13, 11, 15]);
    ring.ntt_inverse_shoup(&mut c);
    assert_eq!(c, vec![1, 2, 3, 4]);
    ring.ntt_forward_shoup(&mut c);
    ring.ntt_inverse(&mut c);
    assert_eq!(c, vec![1, 2, 3, 4]);
    let mut d = a.clone();
    ring.add_eq(&mut d, &b);
    ring.sub_eq(&mut d, &b);
    assert_eq!(d, a);
    ring.neg_eq(&mut d);
    assert_eq!(d, vec![16, 16, 0, 0]);
    ring.mul_eq(&mut d, &vec![1, 2, 3, 4]);
    assert_eq!(d, vec![16, 15, 0, 0]);
    let r = ring.sample_random();
    assert_eq!(r.len(), 4);
    assert!(r.iter().all(|&x| 1 <= x && x < 17));
    assert_eq!(ring.class().modmul(16, 16), 1);
    assert_eq!(PolyRing::new(17, 3).err(), Some(NttError::InvalidDegree));
}

#[test]
fn least_root_from_given_factors() {
    assert_eq!(root_from_factors(17, &vec![(2, 4)]), Some(3));
    assert_eq!(root_from_factors(41, &vec![(2, 3), (5, 1)]), Some(6));
    // with no factors listed only r^20 = -1 (mod 41) counts: 2^20 = 1, 3^20 = 40
    assert_eq!(root_from_factors(41, &vec![]), Some(3));
    // against the factor 2 alone: 2^3 = 1 (mod 7) fails, 3^3 = 6 passes
    assert_eq!(root_from_factors(7, &vec![(2, 1)]), Some(3));
    // against the factor 3 alone 2^2 = 4 passes, but 2^3 = 1 is not -1
    assert_eq!(root_from_factors(7, &vec![(3, 1)]), Some(3));
}
