use rust_ntt::context::bit_reverse;
use rust_ntt::math::{find_first_prime_down, find_first_prime_up};
use rust_ntt::{NttContext, NttError};

#[test]
fn test_context_creation() {
    const N: usize = 4;
    let q = find_first_prime_up(5, N).unwrap();
    let ctx = NttContext::new(q, N).unwrap();

    assert_eq!(ctx.modulus(), q);
    assert_eq!(ctx.degree(), N);
    assert!(ctx.tf().len() == N);
    assert!(ctx.itf().len() == N);
}

#[test]
fn test_context_larger_degree() {
    const N: usize = 1024;
    let q = find_first_prime_down(58, N).unwrap();
    let ctx = NttContext::new(q, N).unwrap();

    assert_eq!(ctx.modulus(), q);
    assert_eq!(ctx.degree(), N);
}

#[test]
fn test_invalid_degree_is_rejected() {
    let q = 17;
    assert_eq!(NttContext::new(q, 6).err(), Some(NttError::InvalidDegree));
    assert_eq!(NttContext::new(q, 0).err(), Some(NttError::InvalidDegree));
}

#[test]
fn test_invalid_modulus_is_rejected() {
    // 19 = 3 (mod 8)
    assert_eq!(NttContext::new(19, 4).err(), Some(NttError::InvalidModulus));
    // 1 (mod 8) but composite
    assert_eq!(NttContext::new(25, 4).err(), Some(NttError::InvalidModulus));
    // out of range
    assert_eq!(NttContext::new(1u64 << 63, 4).err(), Some(NttError::InvalidModulus));
    assert_eq!(NttContext::new(2, 1).err(), Some(NttError::InvalidModulus));
}

#[test]
fn test_twiddle_factors_properties() {
    const N: usize = 8;
    let q = find_first_prime_up(10, N).unwrap();
    let ctx = NttContext::new(q, N).unwrap();

    assert_eq!(ctx.tf()[0], 1);
    assert_eq!(ctx.itf()[0], 1);

    let g = ctx.generator();
    let g_to_2n = ctx.class().modexp(g, (2 * N) as u64);
    assert_eq!(g_to_2n, 1);

    let g_to_n = ctx.class().modexp(g, N as u64);
    assert_eq!(g_to_n, q - 1);
}

#[test]
fn test_bit_reverse() {
    assert_eq!(bit_reverse(0, 3), 0);
    assert_eq!(bit_reverse(1, 3), 4);
    assert_eq!(bit_reverse(2, 3), 2);
    assert_eq!(bit_reverse(3, 3), 6);
    assert_eq!(bit_reverse(4, 3), 1);
    assert_eq!(bit_reverse(5, 3), 5);
    assert_eq!(bit_reverse(6, 3), 3);
    assert_eq!(bit_reverse(7, 3), 7);
}

#[test]
fn bit_reverse_over_a_full_word() {
    assert_eq!(bit_reverse(1, 64), 1usize << 63);
    assert_eq!(bit_reverse(6, 64), 3usize << 61);
}

#[test]
fn test_inverse_relationship() {
    const N: usize = 4;
    let q = find_first_prime_up(10, N).unwrap();
    let ctx = NttContext::new(q, N).unwrap();

    for i in 0..N {
        let forward_power = ctx.tf()[i];
        let inverse_power = ctx.itf()[i];

        let product = ctx.class().modmul(forward_power, inverse_power);
        assert_eq!(product, 1, "tf[{}] * itf[{}] should equal 1", i, i);
    }
}

#[test]
fn test_twiddle_tables_for_q17() {
    // q = 17, N = 4: least primitive root 3, g = 3^2 = 9, g^-1 = 2
    let ctx = NttContext::new(17, 4).unwrap();
    assert_eq!(ctx.generator(), 9);
    // bit-reversed powers of 9: 9^0, 9^2, 9^1, 9^3
    assert_eq!(ctx.tf(), &vec![1, 13, 9, 15]);
    assert_eq!(ctx.itf(), &vec![1, 4, 2, 8]);
}
