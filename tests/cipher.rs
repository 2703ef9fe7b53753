use knapsack::keys::{superincreasing_from_draws, KeyPair};
use knapsack::merkle_hellman_knapsack::{decrypt, encrypt, try_decrypt, try_encrypt, CipherError};

#[test]
fn lib_encryption() {
    let public_key = vec![295, 592, 301, 14, 28, 353, 120, 236];
    let message = "a";

    let cipher = encrypt(message, &public_key);
    assert_eq!(cipher, vec![1129]);
}

#[test]
fn lib_decryption() {
    let private_key = vec![2, 7, 11, 21, 42, 89, 180, 354];
    let a = 588;
    let n = 881;
    let cipher = vec![1129];

    let message = decrypt(&cipher, &private_key, a, n);
    assert_eq!(message, "a");
}

#[test]
fn merkle_hellman_knapsack_encryption() {
    let public_key = vec![295, 592, 301, 14, 28, 353, 120, 236];
    let message = "a";

    let cipher = encrypt(message, &public_key);
    assert_eq!(cipher, vec![1129]);
}

#[test]
fn merkle_hellman_knapsack_decryption() {
    let private_key = vec![2, 7, 11, 21, 42, 89, 180, 354];
    let a = 588;
    let n = 881;
    let cipher = vec![1129];

    let message = decrypt(&cipher, &private_key, a, n);
    assert_eq!(message, "a");
}

#[test]
fn decrypt_word() {
    let message = "word";
    let keys = KeyPair::new(8);

    let encrypted = encrypt(message, keys.public_key());
    let decrypted = decrypt(&encrypted, keys.private_key(), keys.a(), keys.n());

    assert_eq!(decrypted, message);
}

#[test]
fn decrypt_phrase() {
    let message = "attack at dawn";
    let keys = KeyPair::new(8);

    let encrypted = encrypt(message, keys.public_key());
    let decrypted = decrypt(&encrypted, keys.private_key(), keys.a(), keys.n());

    assert_eq!(decrypted, message);
}

#[test]
fn decrypt_uppercase() {
    let message = "ATTACK AT DAWN";
    let keys = KeyPair::new(8);

    let encrypted = encrypt(message, keys.public_key());
    let decrypted = decrypt(&encrypted, keys.private_key(), keys.a(), keys.n());

    assert_eq!(decrypted, message);
}

#[test]
fn encryption_bit_order() {
    let public_key = vec![1, 2, 4, 8, 16, 32, 64, 128];
    // 'a' is 0b0110_0001: positions 1, 2 and 7 are set
    assert_eq!(encrypt("a", &public_key), vec![2 + 4 + 128]);
    assert_eq!(encrypt("\u{0}", &public_key), vec![0]);
    assert_eq!(encrypt("\u{ff}", &public_key), vec![255]);
    assert_eq!(encrypt("", &public_key), Vec::<u32>::new());
}

#[test]
fn encryption_is_deterministic() {
    let public_key = vec![62, 93, 186, 403, 417, 352, 315, 210];
    let first = encrypt("attack at dawn", &public_key);
    let second = encrypt("attack at dawn", &public_key);
    assert_eq!(first, second);
    assert_eq!(first.len(), 14);
}

#[test]
fn round_trip_all_bytes() {
    let message: String = (0u8..=255).map(char::from).collect();
    for _ in 0..50 {
        let keys = KeyPair::new(8);
        let total: u32 = keys.private_key().iter().sum();
        assert!(keys.n() > total);
        let encrypted = encrypt(&message, keys.public_key());
        let decrypted = decrypt(&encrypted, keys.private_key(), keys.a(), keys.n());
        assert_eq!(decrypted, message);
    }
}

#[test]
fn round_trip_full_byte_when_sum_is_prime() {
    // the key sums to 383, which is prime: the modulus is the next prime, 389
    let private_key = superincreasing_from_draws(2, &[1, 1, 1, 1, 1, 1, 1]);
    let total: u32 = private_key.iter().sum();
    assert_eq!(total, 383);
    let (a, n) = (5, 389);
    let public_key: Vec<u32> = private_key.iter().map(|x| x * a % n).collect();
    let encrypted = encrypt("\u{ff}\u{fe}\u{0}", &public_key);
    assert_eq!(decrypt(&encrypted, &private_key, a, n), "\u{ff}\u{fe}\u{0}");
}

#[test]
fn try_encrypt_errors() {
    let public_key = vec![295, 592, 301, 14, 28, 353, 120, 236];
    assert_eq!(try_encrypt("a", &public_key[..7]), Err(CipherError::KeyLength));
    assert_eq!(try_encrypt("a\u{100}", &public_key), Err(CipherError::CodePointOutOfRange));
    let large = vec![u32::MAX, 1, 0, 0, 0, 0, 0, 0];
    assert_eq!(try_encrypt("\u{80}", &large), Ok(vec![u32::MAX]));
    assert_eq!(try_encrypt("\u{c0}", &large), Err(CipherError::Overflow));
    assert_eq!(try_encrypt("a", &public_key), Ok(vec![1129]));
}

#[test]
fn try_decrypt_errors() {
    let private_key = vec![2, 7, 11, 21, 42, 89, 180, 354];
    assert_eq!(try_decrypt(&[1129], &private_key[..7], 588, 881), Err(CipherError::KeyLength));
    assert_eq!(try_decrypt(&[1129], &private_key, 6, 9), Err(CipherError::NotInvertible));
    assert_eq!(try_decrypt(&[1129], &private_key, 1, 0), Err(CipherError::NotInvertible));
    assert_eq!(try_decrypt(&[1129], &private_key, 588, 881), Ok("a".to_string()));
}
