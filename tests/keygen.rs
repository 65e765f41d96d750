use rand::rngs::StdRng;
use rand::SeedableRng;
use rlwe_keygen::keys::{digit_base, digit_count, KeyGenError, SecretKey};
use rlwe_keygen::poly::Poly;
use rlwe_keygen::sampling::{ternary_poly, uniform_poly};

fn rng(seed: u64) -> StdRng {
    StdRng::seed_from_u64(seed)
}

fn reduced(p: &Poly) -> Vec<i64> {
    p.coeffs.iter().map(|c| c.rem_euclid(p.q)).collect()
}

/// `k0 + k1*s` next to `f * s^2 - e`, both under the modulus of `k1`.
fn reconstruct(k0: &Poly, k1: &Poly, sk: &SecretKey, e: &[i64], f: i64) -> (Vec<i64>, Vec<i64>) {
    let q = k1.q;
    let s = Poly { coeffs: sk.poly.coeffs.clone(), q };
    let noise = Poly { coeffs: e.to_vec(), q };
    let lhs = k0.plus(&k1.times(&s));
    let rhs = s.times(&s).scale(f).plus(&noise.negate());
    (reduced(&lhs), reduced(&rhs))
}

fn secret(dimension: usize, q: i64, seed: u64) -> SecretKey {
    SecretKey::generate(dimension, q, &mut rng(seed)).unwrap()
}

#[test]
fn base_and_digits_for_seventeen() {
    assert_eq!(digit_base(17), Ok(5));
    assert_eq!(digit_count(17, 5), Ok(1));
}

#[test]
fn base_and_digits_for_large_prime() {
    assert_eq!(digit_base(1_000_000_007), Ok(31623));
    assert_eq!(digit_count(1_000_000_007, 31623), Ok(1));
}

#[test]
fn base_and_digits_at_exact_power() {
    assert_eq!(digit_base(10_000), Ok(100));
    assert_eq!(digit_count(10_000, 100), Ok(2));
    assert_eq!(digit_base(9), Ok(3));
    assert_eq!(digit_count(9, 3), Ok(2));
    assert_eq!(digit_base(2), Ok(2));
    assert_eq!(digit_count(2, 2), Ok(1));
    assert_eq!(digit_base(i64::MAX), Ok(3_037_000_500));
    assert_eq!(digit_count(i64::MAX, 3_037_000_500), Ok(1));
}

#[test]
fn small_moduli_are_configuration_errors() {
    assert_eq!(digit_base(1), Err(KeyGenError::ConfigurationError));
    assert_eq!(digit_base(0), Err(KeyGenError::ConfigurationError));
    assert_eq!(digit_count(17, 1), Err(KeyGenError::ConfigurationError));
    for q in [0i64, 1] {
        let sk = SecretKey { poly: Poly { coeffs: vec![1, 0, -1, 1], q } };
        let r = sk.relinearization_key_gen_1(&vec![], &mut rng(1));
        assert_eq!(r.err(), Some(KeyGenError::ConfigurationError));
    }
}

#[test]
fn ring_operations_exact() {
    // (1 + x) * x = x + x^2 = -1 + x modulo x^2 + 1.
    let a = Poly { coeffs: vec![1, 1], q: 17 };
    let b = Poly { coeffs: vec![0, 1], q: 17 };
    assert_eq!(a.times(&b).coeffs, vec![16, 1]);
    let c = Poly { coeffs: vec![3, -5, 20], q: 7 };
    assert_eq!(c.negate().coeffs, vec![4, 5, 1]);
    assert_eq!(c.plus(&c).coeffs, vec![6, 4, 5]);
    assert_eq!(c.scale(-2).coeffs, vec![1, 3, 2]);
    // (2 + 3x + x^2)(1 + x^2) = 2 + 3x + 3x^2 + 3x^3 + x^4 = -1 + 2x + 3x^2 modulo x^3 + 1.
    let d = Poly { coeffs: vec![2, 3, 1], q: 11 };
    let e = Poly { coeffs: vec![1, 0, 1], q: 11 };
    assert_eq!(d.times(&e).coeffs, vec![10, 2, 3]);
    assert_eq!(d.dimension(), 3);
}

#[test]
fn secret_key_is_ternary() {
    let sk = secret(64, 97, 3);
    assert_eq!(sk.poly.q, 97);
    assert_eq!(sk.poly.coeffs.len(), 64);
    assert!(sk.poly.coeffs.iter().all(|c| (-1..=1).contains(c)));
}

#[test]
fn secret_key_configuration_errors() {
    assert_eq!(SecretKey::generate(0, 97, &mut rng(1)).err(), Some(KeyGenError::ConfigurationError));
    assert_eq!(SecretKey::generate(8, 1, &mut rng(1)).err(), Some(KeyGenError::ConfigurationError));
    assert_eq!(SecretKey::generate(8, 0, &mut rng(1)).err(), Some(KeyGenError::ConfigurationError));
}

#[test]
fn secret_coefficients_spread_over_three_values() {
    let p = ternary_poly(3000, 97, &mut rng(11));
    for v in [-1i64, 0, 1] {
        let n = p.coeffs.iter().filter(|c| **c == v).count();
        assert!(n > 850 && n < 1150, "value {} drawn {} times", v, n);
    }
}

#[test]
fn uniform_coefficients_below_modulus() {
    let p = uniform_poly(4000, 5, &mut rng(5));
    assert_eq!(p.q, 5);
    assert!(p.coeffs.iter().all(|c| (0..5).contains(c)));
    for v in 0..5i64 {
        let n = p.coeffs.iter().filter(|c| **c == v).count();
        assert!(n > 650 && n < 950, "value {} drawn {} times", v, n);
    }
}

#[test]
fn public_key_hides_secret() {
    let sk = secret(8, 97, 7);
    let e = vec![1i64, -2, 0, 3, 0, 0, -1, 2];
    let pk = sk.public_key_gen(97, &e, &mut rng(8)).unwrap();
    assert_eq!(pk.p_1.q, 97);
    assert!(pk.p_1.coeffs.iter().all(|c| (0..97).contains(c)));
    let s = Poly { coeffs: sk.poly.coeffs.clone(), q: 97 };
    let sum = pk.p_0.plus(&pk.p_1.times(&s));
    let minus_e = Poly { coeffs: e.clone(), q: 97 }.negate();
    assert_eq!(sum.coeffs, minus_e.coeffs);
}

#[test]
fn public_key_errors() {
    let sk = secret(4, 97, 7);
    assert_eq!(sk.public_key_gen(1, &vec![0; 4], &mut rng(1)).err(), Some(KeyGenError::ConfigurationError));
    assert_eq!(sk.public_key_gen(97, &vec![0; 3], &mut rng(1)).err(), Some(KeyGenError::DimensionMismatch));
}

#[test]
fn digit_key_for_seventeen() {
    let sk = secret(4, 17, 21);
    let k = sk.relinearization_key_gen_1(&vec![vec![0; 4]], &mut rng(22)).unwrap();
    assert_eq!(k.base, 5);
    assert_eq!(k.l, 1);
    assert_eq!(k.rlk.len(), 1);
    let (lhs, rhs) = reconstruct(&k.rlk[0].0, &k.rlk[0].1, &sk, &[0; 4], 1);
    assert_eq!(lhs, rhs);
}

#[test]
fn digit_key_reconstructs_every_digit() {
    let q = 10_000;
    let sk = secret(16, q, 31);
    let noise = vec![vec![2i64; 16], vec![-1i64; 16]];
    let k = sk.relinearization_key_gen_1(&noise, &mut rng(32)).unwrap();
    assert_eq!((k.base, k.l), (100, 2));
    assert_eq!(k.rlk.len(), 2);
    let mut f = 1;
    for i in 0..2 {
        let (lhs, rhs) = reconstruct(&k.rlk[i].0, &k.rlk[i].1, &sk, &noise[i], f);
        assert_eq!(lhs, rhs);
        f *= 100;
    }
}

#[test]
fn digit_key_large_prime_zero_noise() {
    let q = 1_000_000_007;
    let sk = secret(1024, q, 41);
    let k = sk.relinearization_key_gen_1(&vec![vec![0; 1024]], &mut rng(42)).unwrap();
    assert_eq!((k.base, k.l), (31623, 1));
    let (lhs, rhs) = reconstruct(&k.rlk[0].0, &k.rlk[0].1, &sk, &[0; 1024], 1);
    assert_eq!(lhs, rhs);
}

#[test]
fn digit_key_noise_mismatch() {
    let sk = secret(4, 17, 21);
    let r = sk.relinearization_key_gen_1(&vec![vec![0; 4], vec![0; 4]], &mut rng(1));
    assert_eq!(r.err(), Some(KeyGenError::DimensionMismatch));
    let r = sk.relinearization_key_gen_1(&vec![vec![0; 5]], &mut rng(1));
    assert_eq!(r.err(), Some(KeyGenError::DimensionMismatch));
}

#[test]
fn simple_key_reconstructs_square() {
    let sk = secret(8, 257, 51);
    let e = vec![0i64, 1, -1, 2, 0, 0, 3, -2];
    let k = sk.relinearization_key_gen_simple(&e, &mut rng(52)).unwrap();
    assert_eq!(k.ek_1.q, 257);
    let (lhs, rhs) = reconstruct(&k.ek_0, &k.ek_1, &sk, &e, 1);
    assert_eq!(lhs, rhs);
    let (lhs, rhs) = reconstruct(&k.ek_0, &k.ek_1, &sk, &[0; 8], 1);
    assert_ne!(lhs, rhs);
}

#[test]
fn simple_key_errors() {
    let sk = secret(8, 257, 51);
    let r = sk.relinearization_key_gen_simple(&vec![0; 7], &mut rng(1));
    assert_eq!(r.err(), Some(KeyGenError::DimensionMismatch));
    let bad = SecretKey { poly: Poly { coeffs: vec![], q: 257 } };
    let r = bad.relinearization_key_gen_simple(&vec![], &mut rng(1));
    assert_eq!(r.err(), Some(KeyGenError::ConfigurationError));
}

#[test]
fn raised_key_works_modulo_pq() {
    let sk = secret(8, 17, 61);
    let e = vec![1i64, 0, 0, -1, 2, 0, 0, 1];
    let k = sk.relinearization_key_gen_2(&e, &mut rng(62), 3).unwrap();
    assert_eq!(k.p, 3);
    assert_eq!(k.rlk_1.q, 51);
    assert_eq!(k.rlk_0.q, 51);
    assert!(k.rlk_1.coeffs.iter().all(|c| (0..51).contains(c)));
    let (lhs, rhs) = reconstruct(&k.rlk_0, &k.rlk_1, &sk, &e, 3);
    assert_eq!(lhs, rhs);
}

#[test]
fn raised_key_errors() {
    let sk = secret(8, 17, 61);
    let e = vec![0i64; 8];
    assert_eq!(sk.relinearization_key_gen_2(&e, &mut rng(1), 0).err(), Some(KeyGenError::ConfigurationError));
    assert_eq!(sk.relinearization_key_gen_2(&e, &mut rng(1), -4).err(), Some(KeyGenError::ConfigurationError));
    assert_eq!(
        sk.relinearization_key_gen_2(&e, &mut rng(1), i64::MAX / 10).err(),
        Some(KeyGenError::ArithmeticRangeError)
    );
    assert_eq!(sk.relinearization_key_gen_2(&vec![0; 9], &mut rng(1), 3).err(), Some(KeyGenError::DimensionMismatch));
}

#[test]
fn fresh_randomness_gives_distinct_valid_keys() {
    let sk = secret(16, 257, 71);
    let e = vec![0i64; 16];
    let k1 = sk.relinearization_key_gen_simple(&e, &mut rng(72)).unwrap();
    let k2 = sk.relinearization_key_gen_simple(&e, &mut rng(73)).unwrap();
    assert_ne!(k1.ek_1.coeffs, k2.ek_1.coeffs);
    for k in [&k1, &k2] {
        let (lhs, rhs) = reconstruct(&k.ek_0, &k.ek_1, &sk, &e, 1);
        assert_eq!(lhs, rhs);
    }
    let mut r = rng(74);
    let d1 = sk.relinearization_key_gen_1(&vec![e.clone()], &mut r).unwrap();
    let d2 = sk.relinearization_key_gen_1(&vec![e.clone()], &mut r).unwrap();
    assert_ne!(d1.rlk[0].1.coeffs, d2.rlk[0].1.coeffs);
}

#[test]
fn digit_key_at_exact_square_modulus() {
    let sk = secret(8, 16, 81);
    let noise = vec![vec![0i64; 8], vec![0i64; 8]];
    let k = sk.relinearization_key_gen_1(&noise, &mut rng(82)).unwrap();
    assert_eq!((k.base, k.l), (4, 2));
    assert_eq!(k.rlk.len(), 2);
    let (lhs, rhs) = reconstruct(&k.rlk[1].0, &k.rlk[1].1, &sk, &noise[1], 4);
    assert_eq!(lhs, rhs);
}

#[test]
fn digit_key_with_chosen_base() {
    let sk = secret(8, 17, 91);
    let noise = vec![vec![1i64; 8]; 4];
    let k = sk.relinearization_key_gen_1_with_base(2, &noise, &mut rng(92)).unwrap();
    assert_eq!((k.base, k.l), (2, 4));
    assert_eq!(k.rlk.len(), 4);
    let mut f = 1;
    for i in 0..4 {
        let (lhs, rhs) = reconstruct(&k.rlk[i].0, &k.rlk[i].1, &sk, &noise[i], f);
        assert_eq!(lhs, rhs);
        assert!(k.rlk[i].0.coeffs.iter().all(|c| (0..17).contains(c)));
        f *= 2;
    }
}

#[test]
fn digit_key_with_chosen_base_errors() {
    let sk = secret(8, 17, 91);
    let noise = vec![vec![0i64; 8]; 4];
    for base in [-3i64, 0, 1, 18] {
        let r = sk.relinearization_key_gen_1_with_base(base, &noise, &mut rng(1));
        assert_eq!(r.err(), Some(KeyGenError::ConfigurationError));
    }
    let r = sk.relinearization_key_gen_1_with_base(2, &vec![vec![0i64; 8]; 3], &mut rng(1));
    assert_eq!(r.err(), Some(KeyGenError::DimensionMismatch));
}

#[test]
fn failed_calls_draw_no_randomness() {
    let sk = secret(8, 17, 95);
    let mut r = rng(96);
    let before = r.clone();
    assert!(SecretKey::generate(0, 17, &mut r).is_err());
    assert!(sk.public_key_gen(1, &vec![0; 8], &mut r).is_err());
    assert!(sk.relinearization_key_gen_simple(&vec![0; 7], &mut r).is_err());
    assert!(sk.relinearization_key_gen_1(&vec![], &mut r).is_err());
    assert!(sk.relinearization_key_gen_2(&vec![0; 8], &mut r, i64::MAX).is_err());
    assert!(r == before);
}
