use textbook_crypto::error::RsaError;
use textbook_crypto::number_theory::{egcd, gcd, is_prime, mod_inverse, mod_pow};
use textbook_crypto::rsa::{
    decrypt, encrypt, generate_keypair, generate_keypair_with_exponent, KeyPair,
};

#[test]
fn rsa_test2() {
    // Start with a basic message
    let msg: u64 = 19;

    // Initialize p and q (starting small for now)
    let (p, q): (u64, u64) = (3, 7);

    // Initialize the totient
    let totient = (p - 1) * (q - 1);

    // Public key: the first value from two up that is coprime with the totient
    let mut e: u64 = 2;
    for _ in 2..totient {
        if gcd(e, totient) == 1 {
            break;
        }
        e += 1;
    }

    // Private key: the first 1 + i * totient that the public key divides
    let mut d: u64 = 0;
    for i in 0..=9u64 {
        let x = 1 + (i * totient);
        if x % e == 0 {
            d = x / e;
            break;
        }
    }

    let encrypted = mod_pow(msg, e, p * q).unwrap();
    let decrypted = mod_pow(encrypted, d, p * q).unwrap();

    println!("E = {e}, D = {d}, Phi(p*q) = {totient}");
    println!("Encrypted: {encrypted}\nDecrypted: {decrypted}");

    assert_eq!(e, 5);
    assert_eq!(d, 5);
    assert_eq!(encrypted, 10);
    assert_eq!(decrypted, msg);
}

#[test]
fn gcd_values() {
    assert_eq!(gcd(0, 7), 7);
    assert_eq!(gcd(7, 0), 7);
    assert_eq!(gcd(0, 0), 0);
    assert_eq!(gcd(12, 18), 6);
    assert_eq!(gcd(17, 3120), 1);
    assert_eq!(gcd(u64::MAX, u64::MAX - 1), 1);
}

#[test]
fn egcd_bezout() {
    let (g, x, y) = egcd(240, 46);
    assert_eq!(g, 2);
    assert_eq!(240 * x + 46 * y, 2);
    let (g, x, y) = egcd(17, 3120);
    assert_eq!(g, 1);
    assert_eq!(17 * x + 3120 * y, 1);
    assert_eq!(egcd(5, 0), (5, 1, 0));
    assert_eq!(egcd(0, 5), (5, 0, 1));
    let (a, b) = (u64::MAX, u64::MAX - 2);
    let (g, x, y) = egcd(a, b);
    assert_eq!(g, 1);
    assert_eq!((a as i128) * x + (b as i128) * y, 1);
}

#[test]
fn mod_inverse_values() {
    assert_eq!(mod_inverse(17, 3120), Ok(2753));
    assert_eq!(mod_inverse(3, 11), Ok(4));
    assert_eq!(mod_inverse(7, 3120), Ok(1783));
}

#[test]
fn mod_inverse_failures() {
    assert_eq!(mod_inverse(4, 8), Err(RsaError::NoInverseExists));
    assert_eq!(mod_inverse(6, 9), Err(RsaError::NoInverseExists));
    assert_eq!(mod_inverse(3, 1), Err(RsaError::NoInverseExists));
    assert_eq!(mod_inverse(3, 0), Err(RsaError::DivisionByZero));
}

#[test]
fn mod_pow_values() {
    assert_eq!(mod_pow(4, 13, 497), Ok(445));
    assert_eq!(mod_pow(65, 17, 3233), Ok(2790));
    assert_eq!(mod_pow(2790, 2753, 3233), Ok(65));
    assert_eq!(mod_pow(5, 0, 7), Ok(1));
    assert_eq!(mod_pow(5, 0, 1), Ok(0));
    assert_eq!(mod_pow(0, 0, 7), Ok(1));
    assert_eq!(mod_pow(u64::MAX, 2, u64::MAX - 1), Ok(1));
    assert_eq!(mod_pow(3, 5, 0), Err(RsaError::DivisionByZero));
}

#[test]
fn primality() {
    assert!(!is_prime(0));
    assert!(!is_prime(1));
    assert!(is_prime(2));
    assert!(is_prime(3));
    assert!(!is_prime(4));
    assert!(!is_prime(9));
    assert!(is_prime(61));
    assert!(is_prime(53));
    assert!(!is_prime(3233));
    assert!(is_prime(4294967291));
    assert!(!is_prime(4294967297));
}

#[test]
fn scenario_textbook_key() {
    let key = generate_keypair_with_exponent(61, 53, 17).unwrap();
    assert_eq!(key.modulus, 3233);
    assert_eq!(key.totient, 3120);
    assert_eq!(key.public_exponent, 17);
    assert_eq!(key.private_exponent, 2753);
    assert_eq!(encrypt(&key, &[65]), Ok(vec![2790]));
    assert_eq!(decrypt(&key, &[2790]), Ok(vec![65]));
}

#[test]
fn generated_key_smallest_exponent() {
    let key = generate_keypair(61, 53).unwrap();
    assert_eq!(key.modulus, 3233);
    assert_eq!(key.totient, 3120);
    assert_eq!(key.public_exponent, 7);
    assert_eq!(key.private_exponent, 1783);
    assert_eq!((key.public_exponent * key.private_exponent) % key.totient, 1);
}

#[test]
fn keygen_rejects_non_primes() {
    assert_eq!(generate_keypair(4, 9), Err(RsaError::InvalidPrime));
    assert_eq!(generate_keypair(61, 9), Err(RsaError::InvalidPrime));
    assert_eq!(generate_keypair(1, 53), Err(RsaError::InvalidPrime));
}

#[test]
fn keygen_rejects_equal_primes() {
    assert_eq!(generate_keypair(61, 61), Err(RsaError::DegenerateModulus));
}

#[test]
fn keygen_without_exponent() {
    assert_eq!(generate_keypair(2, 3), Err(RsaError::NoValidExponent));
    assert_eq!(
        generate_keypair_with_exponent(61, 53, 6),
        Err(RsaError::NoValidExponent)
    );
    assert_eq!(
        generate_keypair_with_exponent(61, 53, 1),
        Err(RsaError::NoValidExponent)
    );
    assert_eq!(
        generate_keypair_with_exponent(61, 53, 3120),
        Err(RsaError::NoValidExponent)
    );
    assert_eq!(generate_keypair(2, 5).unwrap().public_exponent, 3);
}

#[test]
fn rsa_round_trip_all_bytes() {
    let key = generate_keypair(61, 53).unwrap();
    let message: Vec<u8> = (0..=255u8).collect();
    let cipher = encrypt(&key, &message).unwrap();
    assert_eq!(cipher.len(), message.len());
    assert_eq!(decrypt(&key, &cipher), Ok(message));
}

#[test]
fn rsa_round_trip_large_primes() {
    let key = generate_keypair(4294967291, 4294967279).unwrap();
    let message = b"based64".to_vec();
    let cipher = encrypt(&key, &message).unwrap();
    assert_eq!(decrypt(&key, &cipher), Ok(message));
}

#[test]
fn encrypt_message_too_large() {
    let key = generate_keypair(5, 7).unwrap();
    assert_eq!(key.modulus, 35);
    assert_eq!(encrypt(&key, &[1, 34, 35]), Err(RsaError::MessageTooLarge));
    assert_eq!(encrypt(&key, &[]), Ok(vec![]));
}

#[test]
fn decrypt_failures() {
    let zero = KeyPair { modulus: 0, public_exponent: 3, private_exponent: 3, totient: 4 };
    assert_eq!(decrypt(&zero, &[1]), Err(RsaError::DivisionByZero));
    assert_eq!(decrypt(&zero, &[]), Ok(vec![]));
    let key = generate_keypair(61, 53).unwrap();
    assert_eq!(encrypt(&key, &[65]), Ok(vec![1317]));
    assert_eq!(decrypt(&key, &[1317]), Ok(vec![65]));
    assert_eq!(decrypt(&key, &[2790]), Err(RsaError::MessageTooLarge));
    let wide = KeyPair { modulus: 3233, public_exponent: 1, private_exponent: 1, totient: 3120 };
    assert_eq!(decrypt(&wide, &[300]), Err(RsaError::MessageTooLarge));
}
