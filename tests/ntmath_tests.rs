use rand::{rng, Rng};
use rust_ntt::math::{
    find_first_prime_up, find_generator, find_next_prime_up, modadd, modadd_naive, modmul_naive,
    modnegate, modsub,
};
use rust_ntt::CongruenceClass;

const Q: u64 = 1u64 << 62 - 1;

#[test]
fn test_modadd_simple() {
    let mut generator = rng();

    let a: u64 = generator.random_range(1..Q);
    let b: u64 = generator.random_range(1..Q);

    let expected = modadd_naive(a, b, Q);

    assert_eq!(modadd(a, b, Q), expected);
}

#[test]
fn test_modadd_zero() {
    let mut generator = rng();
    let a: u64 = generator.random_range(1..Q);

    assert_eq!(modadd(a, 0, Q), a);
    assert_eq!(modadd(0, a, Q), a);
}

#[test]
fn test_modadd_one() {
    let mut generator = rng();
    let a: u64 = generator.random_range(1..Q);

    assert_eq!(modadd(a, Q - 1, Q), a - 1);
    assert_eq!(modadd(Q - 1, a, Q), a - 1);
}

#[test]
fn test_modsub_simple() {
    let mut generator = rng();
    let a: u64 = generator.random_range(1..Q);
    let b: u64 = generator.random_range(1..Q);

    let expected = (Q + a - b) % Q;

    assert_eq!(modsub(a, b, Q), expected);
}

#[test]
fn test_modsub_zero() {
    let mut generator = rng();
    let a: u64 = generator.random_range(1..Q);

    assert_eq!(modsub(a, 0, Q), a);
    assert_eq!(modsub(0, a, Q), Q - a);
}

#[test]
fn test_modsub_one() {
    let mut generator = rng();
    let a: u64 = generator.random_range(1..Q);

    assert_eq!(modsub(a, Q - 1, Q), (a + 1) % Q);
    assert_eq!(modsub(Q - 1, a, Q), Q - (a + 1));
}

#[test]
fn test_modmul_naive() {
    let mut generator = rng();

    let a: u64 = generator.random_range(1..Q);

    assert_eq!(modmul_naive(a, 2, Q), (a * 2) % Q);
    assert_eq!(modmul_naive(a, 1, Q), a);
    assert_eq!(modmul_naive(2, a, Q), (a * 2) % Q);
    assert_eq!(modmul_naive(1, a, Q), a);
    assert_eq!(modmul_naive(a, 0, Q), 0);
    assert_eq!(modmul_naive(0, a, Q), 0);
    assert_eq!(modmul_naive(a, Q - 1, Q), modnegate(a, Q));
    assert_eq!(modmul_naive(Q - 1, a, Q), modnegate(a, Q));
}

#[test]
fn test_modmul_barrett_struct() {
    let mut generator = rng();

    let a: u64 = generator.random_range(1..Q);
    let b: u64 = generator.random_range(1..Q);

    let barrett64 = CongruenceClass::new(Q);

    let expected = modmul_naive(a, b, Q);

    assert_eq!(barrett64.modmul(a, b), expected);
    assert_eq!(barrett64.modmul(b, a), expected);
    assert_eq!(barrett64.modmul(a, 2), (a * 2) % Q);
    assert_eq!(barrett64.modmul(a, 1), a);
    assert_eq!(barrett64.modmul(2, a), (a * 2) % Q);
    assert_eq!(barrett64.modmul(1, a), a);
    assert_eq!(barrett64.modmul(a, 0), 0);
    assert_eq!(barrett64.modmul(0, a), 0);
    assert_eq!(barrett64.modmul(a, Q - 1), modnegate(a, Q));
    assert_eq!(barrett64.modmul(Q - 1, a), modnegate(a, Q));
}

#[test]
fn test_modmul_struct_vs_naive() {
    let mut rng = rng();
    let q = 741507920154517877;
    let class = CongruenceClass::new(q);

    for _ in 0..1000 {
        let a: u64 = rng.random_range(1..q);
        let b: u64 = rng.random_range(1..q);

        let fast = class.modmul(a, b);
        let slow = modmul_naive(a, b, q);

        assert_eq!(fast, slow, "a = {}, b = {}, got {}, expected {}", a, b, fast, slow);
    }
}

#[test]
fn test_modmul_eq_struct_vs_naive() {
    let mut rng = rng();
    let q = 741507920154517877;
    let class = CongruenceClass::new(q);

    for _ in 0..1000 {
        let mut a: u64 = rng.random_range(1..q);
        let b: u64 = rng.random_range(1..q);

        let a_copy = a;

        let slow = modmul_naive(a, b, q);
        class.modmul_eq(&mut a, b);

        assert_eq!(a, slow, "a = {}, b = {}, got {}, expected {}", a_copy, b, a, slow);
    }
}

#[test]
fn test_generator() {
    let n = 1usize << 10;
    let mut q = find_first_prime_up(52, n).unwrap();

    for _ in 1..10 {
        q = find_next_prime_up(q, n).unwrap();

        let class = CongruenceClass::new(q);

        let g = find_generator(q, n).unwrap();

        let check1 = class.modexp(g, n as u64);
        let check2 = class.modexp(g, (n << 1) as u64);

        assert_eq!(
            check1,
            q - 1,
            "power n g = {}, got {}, expected {}, q = {}",
            g,
            check1,
            q - 1,
            q
        );
        assert_eq!(check2, 1, "power 2n g = {}, got {}, expected {}, q = {}", g, check2, 1, q);
    }
}

#[test]
fn test_modmul_shoup_struct() {
    let mut generator = rng();

    let class = CongruenceClass::new(Q);

    for _ in 0..100 {
        let a: u64 = generator.random_range(1..Q);
        let b: u64 = generator.random_range(1..Q);

        let expected = modmul_naive(a, b, Q);

        let prec = class.precompute_shoup(b);

        assert_eq!(class.modmul_shoup(a, b, prec), expected);
    }
}

#[test]
fn test_modmul_shoup_eq_struct() {
    let mut generator = rng();

    let class = CongruenceClass::new(Q);

    for _ in 0..100 {
        let mut a: u64 = generator.random_range(1..Q);
        let b: u64 = generator.random_range(1..Q);

        let expected = modmul_naive(a, b, Q);

        let prec = class.precompute_shoup(b);

        class.modmul_shoup_eq(&mut a, b, prec);

        assert_eq!(a, expected);
    }
}

#[test]
fn test_modmul_shoup_as64_struct() {
    let mut generator = rng();

    let class = CongruenceClass::new(Q);

    for _ in 0..100 {
        let a: u64 = generator.random_range(1..Q);
        let b: u64 = generator.random_range(1..Q);

        let expected = modmul_naive(a, b, Q);

        let prec = class.precompute_shoup(b);

        assert_eq!(class.modmul_shoup_as64(a, b, prec), expected);
    }
}
