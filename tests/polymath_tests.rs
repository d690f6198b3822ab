use rand::{rngs::StdRng, Rng, SeedableRng};
use rust_ntt::math::{find_first_prime_down, find_first_prime_up, modadd_naive, modmul_naive};
use rust_ntt::{NttContext, NttPolynomial};
use std::sync::Arc;

const N: usize = 1usize << 2;

fn sample(ctx: &Arc<NttContext>, rng: &mut StdRng) -> NttPolynomial {
    let q = ctx.modulus();
    let coeffs: Vec<u64> = (0..ctx.degree()).map(|_| rng.random_range(1..q)).collect();
    NttPolynomial::from_coeffs(coeffs, Arc::clone(ctx)).unwrap()
}

#[test]
fn test_polynomial_addition() {
    let q = find_first_prime_up(20, N).unwrap();
    let ctx = NttContext::new(q, N).unwrap();
    let mut rng = StdRng::seed_from_u64(42);

    let ax = sample(&ctx, &mut rng);
    let bx = sample(&ctx, &mut rng);

    let result = ax.add(&bx).unwrap();

    let mut expected = [0u64; N];
    for i in 0..N {
        expected[i] = modadd_naive(ax.coeffs()[i], bx.coeffs()[i], q);
    }

    assert_eq!(result.coeffs(), &expected);
}

#[test]
fn test_polynomial_addition_assign() {
    let q = find_first_prime_up(20, N).unwrap();
    let ctx = NttContext::new(q, N).unwrap();
    let mut rng = StdRng::seed_from_u64(42);

    let mut ax = sample(&ctx, &mut rng);
    let bx = sample(&ctx, &mut rng);

    let mut expected = [0u64; N];
    for i in 0..N {
        expected[i] = modadd_naive(ax.coeffs()[i], bx.coeffs()[i], q);
    }

    ax.add_assign(&bx).unwrap();

    assert_eq!(ax.coeffs(), &expected);
}

#[test]
fn test_polynomial_pointwise_multiplication() {
    let q = find_first_prime_up(20, N).unwrap();
    let ctx = NttContext::new(q, N).unwrap();
    let mut rng = StdRng::seed_from_u64(42);

    let mut ax = sample(&ctx, &mut rng);
    let mut bx = sample(&ctx, &mut rng);

    ax.ntt_forward();
    bx.ntt_forward();

    let mut result = ax.clone();
    for i in 0..N {
        result.coeffs_mut()[i] = ctx.class().modmul(ax.coeffs()[i], bx.coeffs()[i]);
    }

    let mut expected = [0u64; N];
    for i in 0..N {
        expected[i] = modmul_naive(ax.coeffs()[i], bx.coeffs()[i], q);
    }

    assert_eq!(result.coeffs(), &expected);
}

#[test]
fn test_ntt_inverse_is_identity() {
    let q = find_first_prime_down(58, N).unwrap();
    let ctx = NttContext::new(q, N).unwrap();
    let mut rng = StdRng::seed_from_u64(42);

    for _ in 0..10 {
        let original = sample(&ctx, &mut rng);
        let mut test_poly = original.clone();

        test_poly.ntt_forward();
        test_poly.ntt_inverse();

        assert_eq!(original.coeffs(), test_poly.coeffs());
    }
}

#[test]
fn test_negacyclic_convolution() {
    let q = find_first_prime_down(58, N).unwrap();
    let ctx = NttContext::new(q, N).unwrap();
    let mut rng = StdRng::seed_from_u64(42);

    for _ in 0..10 {
        let ax = sample(&ctx, &mut rng);
        let bx = sample(&ctx, &mut rng);

        let cx_ntt = ax.negacyclic_convolution(&bx).unwrap();

        let cx_naive = ax.naive_negacyclic_convolution(&bx).unwrap();

        assert_eq!(cx_ntt.coeffs(), cx_naive.coeffs());
    }
}

#[test]
fn test_ntt_shoup_inverse_is_identity() {
    let q = find_first_prime_down(58, N).unwrap();
    let ctx = NttContext::new(q, N).unwrap();
    let mut rng = StdRng::seed_from_u64(42);

    for _ in 0..10 {
        let original = sample(&ctx, &mut rng);
        let mut test_poly = original.clone();

        test_poly.ntt_forward_shoup();
        test_poly.ntt_inverse_shoup();

        assert_eq!(original.coeffs(), test_poly.coeffs());
    }
}

#[test]
fn test_negacyclic_convolution_shoup() {
    let q = find_first_prime_down(58, N).unwrap();
    let ctx = NttContext::new(q, N).unwrap();
    let mut rng = StdRng::seed_from_u64(42);

    for _ in 0..10 {
        let ax = sample(&ctx, &mut rng);
        let bx = sample(&ctx, &mut rng);

        let cx_shoup = ax.negacyclic_convolution_shoup(&bx).unwrap();

        let cx_naive = ax.naive_negacyclic_convolution(&bx).unwrap();

        assert_eq!(cx_shoup.coeffs(), cx_naive.coeffs());
    }
}

#[test]
fn test_convolution_methods_equivalent() {
    let q = find_first_prime_down(58, N).unwrap();
    let ctx = NttContext::new(q, N).unwrap();
    let mut rng = StdRng::seed_from_u64(42);

    for _ in 0..5 {
        let ax = sample(&ctx, &mut rng);
        let bx = sample(&ctx, &mut rng);

        let cx_naive = ax.naive_negacyclic_convolution(&bx).unwrap();
        let cx_ntt = ax.negacyclic_convolution(&bx).unwrap();
        let cx_shoup = ax.negacyclic_convolution_shoup(&bx).unwrap();
        let cx_mul_op = ax.mul(&bx).unwrap();

        assert_eq!(cx_ntt.coeffs(), cx_naive.coeffs());
        assert_eq!(cx_shoup.coeffs(), cx_naive.coeffs());
        assert_eq!(cx_mul_op.coeffs(), cx_naive.coeffs());
    }
}
