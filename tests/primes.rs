use knapsack::primes::{gcd_of, is_prime, modinv};

#[test]
fn lib_modular_inverse() {
    let a = 588;
    let n = 881;

    assert_eq!(modinv(a, n), 442);
}

#[test]
fn lib_prime() {
    assert!(is_prime(607));
}

#[test]
fn lib_not_prime() {
    assert!(!is_prime(420));
}

#[test]
fn primes_modular_inverse() {
    let a = 588;
    let n = 881;

    assert_eq!(modinv(a, n), 442);
}

#[test]
fn primes_prime() {
    assert!(is_prime(607));
}

#[test]
fn primes_not_prime() {
    assert!(!is_prime(420));
}

#[test]
fn modinv_of_multiplier_larger_than_modulus() {
    // 1000 = 6 (mod 7) and 6 * 6 = 36 = 1 (mod 7)
    assert_eq!(modinv(1000, 7), 6);
    assert_eq!(modinv(3, 7), 5);
}

#[test]
fn modinv_results_are_inverses() {
    for n in [2u32, 3, 5, 97, 881, 2297] {
        for a in 1..n {
            if gcd_of(a, n) == 1 {
                let r = modinv(a, n);
                assert!(r < n);
                assert_eq!((a as u64 * r as u64) % n as u64, 1);
            }
        }
    }
}

#[test]
fn modinv_modulus_one() {
    assert_eq!(modinv(5, 1), 0);
}

#[test]
fn small_primes() {
    let primes: Vec<u32> = (2..30).filter(|&n| is_prime(n)).collect();
    assert_eq!(primes, vec![2, 3, 5, 7, 11, 13, 17, 19, 23, 29]);
    assert!(is_prime(2297));
    assert!(!is_prime(2295));
}

#[test]
fn gcd_values() {
    assert_eq!(gcd_of(12, 18), 6);
    assert_eq!(gcd_of(588, 881), 1);
    assert_eq!(gcd_of(0, 7), 7);
    assert_eq!(gcd_of(7, 0), 7);
}
