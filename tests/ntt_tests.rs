use rust_ntt::math::find_first_prime_up;
use rust_ntt::{NttContext, NttPolynomial};
use std::sync::Arc;

#[test]
fn test_polynomial_creation() {
    const N: usize = 4;
    let q = find_first_prime_up(10, N).unwrap();
    let ctx = NttContext::new(q, N).unwrap();

    let zero = NttPolynomial::zero(Arc::clone(&ctx));
    assert_eq!(zero.coeffs(), &[0u64; N]);

    let coeffs = [1, 2, 3, 4];
    let poly = NttPolynomial::from_coeffs(coeffs.to_vec(), ctx).unwrap();
    assert_eq!(poly.coeffs(), &coeffs);
}

#[test]
fn test_basic_arithmetic() {
    const N: usize = 4;
    let q = find_first_prime_up(10, N).unwrap();
    let ctx = NttContext::new(q, N).unwrap();

    let a = NttPolynomial::from_coeffs(vec![1, 2, 3, 4], Arc::clone(&ctx)).unwrap();
    let b = NttPolynomial::from_coeffs(vec![2, 3, 4, 5], Arc::clone(&ctx)).unwrap();

    let c = a.add(&b).unwrap();
    let expected_add = [3, 5, 7, 9];
    assert_eq!(c.coeffs(), &expected_add);

    let d = b.sub(&a).unwrap();
    let expected_sub = [1, 1, 1, 1];
    assert_eq!(d.coeffs(), &expected_sub);

    let neg_a = a.neg();
    for i in 0..N {
        let expected = if a.coeffs()[i] == 0 { 0 } else { q - a.coeffs()[i] };
        assert_eq!(neg_a.coeffs()[i], expected);
    }
}

#[test]
fn test_assign_operations() {
    const N: usize = 4;
    let q = find_first_prime_up(10, N).unwrap();
    let ctx = NttContext::new(q, N).unwrap();

    let mut a = NttPolynomial::from_coeffs(vec![1, 2, 3, 4], Arc::clone(&ctx)).unwrap();
    let b = NttPolynomial::from_coeffs(vec![2, 3, 4, 5], Arc::clone(&ctx)).unwrap();

    let original_a = a.clone();
    a.add_assign(&b).unwrap();
    let expected = [3, 5, 7, 9];
    assert_eq!(a.coeffs(), &expected);

    a.sub_assign(&b).unwrap();
    assert_eq!(a.coeffs(), original_a.coeffs());

    let mut simple = NttPolynomial::from_coeffs(vec![1, 0, 0, 0], Arc::clone(&ctx)).unwrap();
    let identity = simple.clone();
    simple.mul_assign(&identity).unwrap();
    assert_eq!(simple.coeffs(), &[1, 0, 0, 0]);
}

#[test]
fn test_ntt_forward_inverse() {
    const N: usize = 4;
    let q = find_first_prime_up(10, N).unwrap();
    let ctx = NttContext::new(q, N).unwrap();

    let original = NttPolynomial::sample_random(Arc::clone(&ctx));
    let mut test_poly = original.clone();

    test_poly.ntt_forward();
    test_poly.ntt_inverse();

    assert_eq!(test_poly.coeffs(), original.coeffs());
}

#[test]
fn test_ntt_shoup_forward_inverse() {
    const N: usize = 4;
    let q = find_first_prime_up(10, N).unwrap();
    let ctx = NttContext::new(q, N).unwrap();

    let original = NttPolynomial::sample_random(Arc::clone(&ctx));
    let mut test_poly = original.clone();

    test_poly.ntt_forward_shoup();
    test_poly.ntt_inverse_shoup();

    assert_eq!(test_poly.coeffs(), original.coeffs());
}

#[test]
fn test_convolution_consistency() {
    const N: usize = 4;
    let q = find_first_prime_up(10, N).unwrap();
    let ctx = NttContext::new(q, N).unwrap();

    let a = NttPolynomial::sample_random(Arc::clone(&ctx));
    let b = NttPolynomial::sample_random(Arc::clone(&ctx));

    let result1 = a.negacyclic_convolution(&b).unwrap();
    let result2 = a.negacyclic_convolution_shoup(&b).unwrap();

    assert_eq!(result1.coeffs(), result2.coeffs());
}

#[test]
fn test_multiplication_via_convolution() {
    const N: usize = 4;
    let q = find_first_prime_up(10, N).unwrap();
    let ctx = NttContext::new(q, N).unwrap();

    let poly1 = NttPolynomial::from_coeffs(vec![1, 1, 0, 0], Arc::clone(&ctx)).unwrap();
    let poly2 = poly1.clone();

    let result = poly1.mul(&poly2).unwrap();

    let expected = [1, 2, 1, 0];
    assert_eq!(result.coeffs(), &expected);
}

#[test]
fn test_negacyclic_property() {
    const N: usize = 4;
    let q = find_first_prime_up(10, N).unwrap();
    let ctx = NttContext::new(q, N).unwrap();

    let x_to_n_minus_1 = NttPolynomial::from_coeffs(vec![0, 0, 0, 1], Arc::clone(&ctx)).unwrap();
    let x = NttPolynomial::from_coeffs(vec![0, 1, 0, 0], Arc::clone(&ctx)).unwrap();

    let result = x_to_n_minus_1.mul(&x).unwrap();

    let expected = [q - 1, 0, 0, 0];
    assert_eq!(result.coeffs(), &expected);
}

#[test]
fn test_zero_properties() {
    const N: usize = 4;
    let q = find_first_prime_up(10, N).unwrap();
    let ctx = NttContext::new(q, N).unwrap();

    let zero = NttPolynomial::zero(Arc::clone(&ctx));
    let a = NttPolynomial::sample_random(Arc::clone(&ctx));

    let a_plus_zero = a.add(&zero).unwrap();
    assert_eq!(a_plus_zero.coeffs(), a.coeffs());

    let a_times_zero = a.mul(&zero).unwrap();
    assert_eq!(a_times_zero.coeffs(), &[0u64; N]);

    let neg_zero = zero.neg();
    assert_eq!(neg_zero.coeffs(), &[0u64; N]);
}

#[test]
fn test_sample_random() {
    const N: usize = 8;
    let q = find_first_prime_up(10, N).unwrap();
    let ctx = NttContext::new(q, N).unwrap();

    let poly1 = NttPolynomial::sample_random(Arc::clone(&ctx));
    let poly2 = NttPolynomial::sample_random(Arc::clone(&ctx));

    assert_ne!(poly1.coeffs(), poly2.coeffs());

    for &coeff in poly1.coeffs() {
        assert!(coeff > 0 && coeff < q);
    }
}
