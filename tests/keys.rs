use knapsack::keys::{
    generate_keys, generate_private_key, multiplier_from_draw, generate_public_key, generate_superincreasing_sequence,
    is_superincreasing, superincreasing_from_draws, KeyPair,
};
use knapsack::primes::{gcd_of, is_prime, modinv};

#[test]
fn keys_check_superincreasing() {
    let sequence = vec![2, 3, 6, 13, 27, 52, 105, 210];
    assert!(is_superincreasing(&sequence));
}

#[test]
fn keys_check_not_superincreasing() {
    let sequence = vec![1, 3, 4, 9, 15, 25, 48, 76];
    assert!(!is_superincreasing(&sequence));
}

#[test]
fn keys_generate_sequence() {
    let sequence = generate_superincreasing_sequence(8);
    assert!(is_superincreasing(&sequence));
}

#[test]
fn keys_public_key_from_private() {
    let private_key = vec![2, 3, 6, 13, 27, 52, 105, 210];
    let expected = vec![62, 93, 186, 403, 417, 352, 315, 210];

    assert_eq!(generate_public_key(&private_key, 31, 420), expected);
}

#[test]
fn lib_check_superincreasing() {
    let sequence = vec![2, 3, 6, 13, 27, 52, 105, 210];
    assert!(is_superincreasing(&sequence));
}

#[test]
fn lib_check_not_superincreasing() {
    let sequence = vec![1, 3, 4, 9, 15, 25, 48, 76];
    assert!(!is_superincreasing(&sequence));
}

#[test]
fn lib_generate_sequence() {
    let sequence = generate_superincreasing_sequence(8);
    assert!(is_superincreasing(&sequence));
}

#[test]
fn lib_public_key_from_private() {
    let private_key = vec![2, 3, 6, 13, 27, 52, 105, 210];
    let expected = vec![62, 93, 186, 403, 417, 352, 315, 210];

    assert_eq!(generate_public_key(&private_key, 31, 420), expected);
}

#[test]
fn superincreasing_is_strict() {
    assert!(!is_superincreasing(&[2, 2]));
    assert!(is_superincreasing(&[2, 3]));
    assert!(!is_superincreasing(&[0]));
    assert!(is_superincreasing(&[]));
    assert!(is_superincreasing(&[u32::MAX]));
    assert!(!is_superincreasing(&[u32::MAX, u32::MAX]));
}

#[test]
fn sequence_from_draws() {
    assert_eq!(
        superincreasing_from_draws(2, &[1, 1, 1, 1, 1, 1, 1]),
        vec![2, 3, 6, 12, 24, 48, 96, 192]
    );
    assert_eq!(
        superincreasing_from_draws(9, &[9, 9, 9, 9, 9, 9, 9]),
        vec![9, 18, 36, 72, 144, 288, 576, 1152]
    );
    assert_eq!(superincreasing_from_draws(5, &[]), vec![5]);
}

fn sum(s: &[u32]) -> u32 {
    s.iter().sum()
}

#[test]
fn generated_sequence_shape() {
    for length in 1..=8 {
        let s = generate_superincreasing_sequence(length);
        assert_eq!(s.len(), length);
        assert!((2..10).contains(&s[0]));
        for i in 1..s.len() {
            let before = sum(&s[..i]);
            assert!(s[i] > before && s[i] - before < 10);
        }
    }
}

#[test]
fn generated_private_key_modulus() {
    for _ in 0..50 {
        let (private_key, a, n) = generate_private_key(8);
        assert!(is_superincreasing(&private_key));
        let total = sum(&private_key);
        assert!(is_prime(n) && n > total);
        assert!((total + 1..n).all(|m| !is_prime(m)));
        assert!((2..1000).contains(&a));
        assert_eq!(gcd_of(a, n), 1);
    }
}

#[test]
fn generated_keys_fit_together() {
    for _ in 0..50 {
        let (private_key, a, n, public_key) = generate_keys(8);
        assert_eq!(public_key, generate_public_key(&private_key, a, n));
        assert_eq!((a as u64 * modinv(a, n) as u64) % n as u64, 1);
    }
}

#[test]
fn key_pair_invariants() {
    for _ in 0..50 {
        let keys = KeyPair::new(8);
        let private_key = keys.private_key();
        assert_eq!(private_key.len(), 8);
        assert!(is_superincreasing(private_key));
        assert!(is_prime(keys.n()));
        assert!(keys.n() > sum(private_key));
        assert!((2..1000).contains(&keys.a()));
        assert_eq!(
            keys.public_key().to_vec(),
            generate_public_key(private_key, keys.a(), keys.n())
        );
        let inverse = modinv(keys.a(), keys.n());
        assert_eq!((keys.a() as u64 * inverse as u64) % keys.n() as u64, 1);
    }
}

#[test]
fn key_pair_of_one_element() {
    let keys = KeyPair::new(1);
    assert_eq!(keys.private_key().len(), 1);
    assert_eq!(keys.public_key().len(), 1);
}

#[test]
fn multiplier_draws() {
    assert_eq!(multiplier_from_draw(31, 421), 31);
    assert_eq!(multiplier_from_draw(389, 389), 388);
    assert_eq!(multiplier_from_draw(778, 389), 777);
    assert_eq!(multiplier_from_draw(3, 3), 2);
    assert_eq!(multiplier_from_draw(999, 3), 998);
    assert_eq!(multiplier_from_draw(2, 3), 2);
}

#[test]
fn key_pair_of_one_element_has_usable_multiplier() {
    for _ in 0..50 {
        let keys = KeyPair::new(1);
        let total = sum(keys.private_key());
        assert!(keys.n() > total && keys.n() >= 3);
        assert!(keys.a() >= 2 && keys.a() % keys.n() != 0);
    }
}
