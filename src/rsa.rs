use vstd::arithmetic::div_mod::lemma_small_mod;
use vstd::arithmetic::power::{lemma_pow_mod_noop, lemma_pow_multiplies, pow};
use vstd::prelude::*;

use crate::error::RsaError;
use crate::fermat::lemma_exponent_cancels;
use crate::number_theory::{gcd, gcd_spec, is_mod_inverse, is_prime, is_prime_spec, mod_inverse, mod_pow};

verus! {

/// A textbook RSA keypair.
#[derive(Debug, Clone, Copy, PartialEq, Eq, Structural)]
pub struct KeyPair {
    pub modulus: u64,
    pub public_exponent: u64,
    pub private_exponent: u64,
    pub totient: u64,
}

impl KeyPair {
    /// The keypair invariant: the exponents are inverse modulo the totient,
    /// and the public exponent lies strictly between one and the totient.
    pub open spec fn wf(self) -> bool {
        &&& 1 < self.public_exponent < self.totient
        &&& gcd_spec(self.public_exponent as nat, self.totient as nat) == 1
        &&& (self.public_exponent * self.private_exponent) % (self.totient as int) == 1
    }
}

/// `e` is the smallest exponent of at least three, below `totient`, coprime with it.
pub open spec fn is_least_exponent(e: nat, totient: nat) -> bool {
    &&& 3 <= e < totient
    &&& gcd_spec(e, totient) == 1
    &&& forall|k: nat| 3 <= k < e ==> #[trigger] gcd_spec(k, totient) != 1
}

/// Some exponent of at least three, below `totient`, is coprime with it.
pub open spec fn has_exponent(totient: nat) -> bool {
    exists|k: nat| 3 <= k < totient && #[trigger] gcd_spec(k, totient) == 1
}

/// What encrypting one unit `m` gives under `key`.
pub open spec fn encrypt_unit(key: KeyPair, m: int) -> int {
    pow(m, key.public_exponent as nat) % (key.modulus as int)
}

/// What decrypting one unit `c` gives under `key`.
pub open spec fn decrypt_unit(key: KeyPair, c: int) -> int {
    pow(c, key.private_exponent as nat) % (key.modulus as int)
}

/// Builds a keypair from two distinct primes and a caller-supplied public
/// exponent, which must lie strictly between one and the totient and be
/// coprime with it.
pub fn generate_keypair_with_exponent(p: u32, q: u32, e: u64) -> (r: Result<KeyPair, RsaError>)
    ensures
        r == Err::<KeyPair, RsaError>(RsaError::InvalidPrime) <==> !is_prime_spec(p as nat)
            || !is_prime_spec(q as nat),
        r == Err::<KeyPair, RsaError>(RsaError::DegenerateModulus) <==> is_prime_spec(p as nat)
            && is_prime_spec(q as nat) && p == q,
        r == Err::<KeyPair, RsaError>(RsaError::NoValidExponent) <==> is_prime_spec(p as nat)
            && is_prime_spec(q as nat) && p != q && !(1 < e < (p - 1) * (q - 1) && gcd_spec(
            e as nat,
            ((p - 1) * (q - 1)) as nat,
        ) == 1),
        r is Ok <==> is_prime_spec(p as nat) && is_prime_spec(q as nat) && p != q && 1 < e < (p
            - 1) * (q - 1) && gcd_spec(e as nat, ((p - 1) * (q - 1)) as nat) == 1,
        r matches Ok(k) ==> {
            &&& k.modulus == p * q
            &&& k.totient == (p - 1) * (q - 1)
            &&& k.public_exponent == e
            &&& is_mod_inverse(e as nat, k.totient as nat, k.private_exponent as nat)
            &&& k.wf()
        },
{
    if !is_prime(p as u64) || !is_prime(q as u64) {
        return Err(RsaError::InvalidPrime);
    }
    if p == q {
        return Err(RsaError::DegenerateModulus);
    }
    assert((p as u64) * (q as u64) <= u64::MAX && (p - 1) * (q - 1) <= p * q)
        by (nonlinear_arith)
        requires p <= u32::MAX, q <= u32::MAX, p >= 2, q >= 2;
    let modulus: u64 = (p as u64) * (q as u64);
    let totient: u64 = ((p - 1) as u64) * ((q - 1) as u64);
    if e <= 1 || e >= totient || gcd(e, totient) != 1 {
        return Err(RsaError::NoValidExponent);
    }
    match mod_inverse(e, totient) {
        Ok(d) => Ok(KeyPair { modulus, public_exponent: e, private_exponent: d, totient }),
        Err(err) => Err(err),
    }
}

/// Builds a keypair from two distinct primes, with the smallest usable public exponent.
pub fn generate_keypair(p: u32, q: u32) -> (r: Result<KeyPair, RsaError>)
    ensures
        r == Err::<KeyPair, RsaError>(RsaError::InvalidPrime) <==> !is_prime_spec(p as nat)
            || !is_prime_spec(q as nat),
        r == Err::<KeyPair, RsaError>(RsaError::DegenerateModulus) <==> is_prime_spec(p as nat)
            && is_prime_spec(q as nat) && p == q,
        r == Err::<KeyPair, RsaError>(RsaError::NoValidExponent) <==> is_prime_spec(p as nat)
            && is_prime_spec(q as nat) && p != q && !has_exponent(
            ((p - 1) * (q - 1)) as nat,
        ),
        r is Ok <==> is_prime_spec(p as nat) && is_prime_spec(q as nat) && p != q && has_exponent(
            ((p - 1) * (q - 1)) as nat,
        ),
        r matches Ok(k) ==> {
            &&& k.modulus == p * q
            &&& k.totient == (p - 1) * (q - 1)
            &&& is_least_exponent(k.public_exponent as nat, k.totient as nat)
            &&& is_mod_inverse(
                k.public_exponent as nat,
                k.totient as nat,
                k.private_exponent as nat,
            )
            &&& k.wf()
        },
{
    if !is_prime(p as u64) || !is_prime(q as u64) {
        return Err(RsaError::InvalidPrime);
    }
    if p == q {
        return Err(RsaError::DegenerateModulus);
    }
    assert((p - 1) * (q - 1) <= u64::MAX) by (nonlinear_arith)
        requires p <= u32::MAX, q <= u32::MAX, p >= 2, q >= 2;
    let totient: u64 = ((p - 1) as u64) * ((q - 1) as u64);
    let mut e: u64 = 3;
    while e < totient
        invariant
            3 <= e,
            is_prime_spec(p as nat),
            is_prime_spec(q as nat),
            p != q,
            totient == (p - 1) * (q - 1),
            forall|k: nat| 3 <= k < e ==> #[trigger] gcd_spec(k, totient as nat) != 1,
        decreases totient - e,
    {
        if gcd(e, totient) == 1 {
            assert(has_exponent(totient as nat)) by {
                assert(3 <= e < totient && gcd_spec(e as nat, totient as nat) == 1);
            }
            return generate_keypair_with_exponent(p, q, e);
        }
        e = e + 1;
    }
    assert(!has_exponent(totient as nat));
    Err(RsaError::NoValidExponent)
}

/// Encrypts each byte as one unit: `m^public_exponent mod modulus`.
pub fn encrypt(key: &KeyPair, plaintext: &[u8]) -> (r: Result<Vec<u64>, RsaError>)
    ensures
        r is Err <==> exists|i: int|
            0 <= i < plaintext@.len() && #[trigger] plaintext@[i] >= key.modulus,
        r is Err ==> r == Err::<Vec<u64>, RsaError>(RsaError::MessageTooLarge),
        r matches Ok(c) ==> {
            &&& c@.len() == plaintext@.len()
            &&& forall|i: int|
                0 <= i < c@.len() ==> #[trigger] c@[i] == encrypt_unit(*key, plaintext@[i] as int)
        },
{
    let mut out: Vec<u64> = Vec::new();
    let mut i: usize = 0;
    while i < plaintext.len()
        invariant
            0 <= i <= plaintext@.len(),
            out@.len() == i,
            forall|j: int| 0 <= j < i ==> #[trigger] plaintext@[j] < key.modulus,
            forall|j: int|
                0 <= j < i ==> #[trigger] out@[j] == encrypt_unit(*key, plaintext@[j] as int),
        decreases plaintext@.len() - i,
    {
        let m: u8 = plaintext[i];
        if (m as u64) >= key.modulus {
            return Err(RsaError::MessageTooLarge);
        }
        let c: u64 = match mod_pow(m as u64, key.public_exponent, key.modulus) {
            Ok(c) => c,
            Err(err) => {
                return Err(err);
            },
        };
        out.push(c);
        i = i + 1;
    }
    Ok(out)
}

/// Decrypts each unit as `c^private_exponent mod modulus`, which must fit a byte.
pub fn decrypt(key: &KeyPair, ciphertext: &[u64]) -> (r: Result<Vec<u8>, RsaError>)
    ensures
        r == Err::<Vec<u8>, RsaError>(RsaError::DivisionByZero) <==> ciphertext@.len() > 0
            && key.modulus == 0,
        r == Err::<Vec<u8>, RsaError>(RsaError::MessageTooLarge) <==> key.modulus > 0 && exists|
            i: int,
        |
            0 <= i < ciphertext@.len() && #[trigger] decrypt_unit(*key, ciphertext@[i] as int)
                > 255,
        r is Err ==> r == Err::<Vec<u8>, RsaError>(RsaError::DivisionByZero) || r == Err::<
            Vec<u8>,
            RsaError,
        >(RsaError::MessageTooLarge),
        r matches Ok(m) ==> {
            &&& m@.len() == ciphertext@.len()
            &&& forall|i: int|
                0 <= i < m@.len() ==> #[trigger] m@[i] == decrypt_unit(*key, ciphertext@[i] as int)
        },
{
    if ciphertext.len() > 0 && key.modulus == 0 {
        return Err(RsaError::DivisionByZero);
    }
    let mut out: Vec<u8> = Vec::new();
    let mut i: usize = 0;
    while i < ciphertext.len()
        invariant
            0 <= i <= ciphertext@.len(),
            ciphertext@.len() > 0 ==> key.modulus > 0,
            out@.len() == i,
            forall|j: int|
                0 <= j < i ==> #[trigger] out@[j] == decrypt_unit(*key, ciphertext@[j] as int),
        decreases ciphertext@.len() - i,
    {
        let m: u64 = match mod_pow(ciphertext[i], key.private_exponent, key.modulus) {
            Ok(m) => m,
            Err(err) => {
                return Err(err);
            },
        };
        if m > 255 {
            assert(decrypt_unit(*key, ciphertext@[i as int] as int) > 255);
            return Err(RsaError::MessageTooLarge);
        }
        out.push(m as u8);
        i = i + 1;
    }
    proof {
        if key.modulus > 0 {
            assert forall|j: int| 0 <= j < ciphertext@.len() implies #[trigger] decrypt_unit(
                *key,
                ciphertext@[j] as int,
            ) <= 255 by {
                assert(out@[j] == decrypt_unit(*key, ciphertext@[j] as int));
            }
        }
    }
    Ok(out)
}

/// Decrypting the encryption of any unit below the modulus gives that unit
/// back, for every keypair built from two distinct primes `p` and `q`.
pub proof fn lemma_rsa_round_trip(p: nat, q: nat, key: KeyPair, m: nat)
    requires
        is_prime_spec(p),
        is_prime_spec(q),
        p != q,
        key.modulus == p * q,
        key.totient == (p - 1) * (q - 1),
        key.wf(),
        m < key.modulus,
    ensures
        decrypt_unit(key, encrypt_unit(key, m as int)) == m,
{
    let n = key.modulus as int;
    let e = key.public_exponent as nat;
    let d = key.private_exponent as nat;
    lemma_pow_mod_noop(pow(m as int, e), d, n);
    lemma_pow_multiplies(m as int, e, d);
    lemma_exponent_cancels(p, q, e, d, m);
    lemma_small_mod(m, n as nat);
}

} // verus!
