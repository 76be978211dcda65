use vstd::prelude::*;

verus! {

/// Failures of the number-theoretic routines, key generation and the cipher.
#[derive(Debug, Clone, Copy, PartialEq, Eq, Structural)]
pub enum RsaError {
    /// A modulus or divisor of zero.
    DivisionByZero,
    /// The operand has no inverse for the given modulus.
    NoInverseExists,
    /// A key-generation input is not prime.
    InvalidPrime,
    /// Both key-generation inputs are the same prime.
    DegenerateModulus,
    /// No public exponent in range is coprime with the totient.
    NoValidExponent,
    /// A message unit does not lie below the modulus (or a decrypted unit does not fit a byte).
    MessageTooLarge,
}

/// Failures of base64 decoding.
#[derive(Debug, Clone, Copy, PartialEq, Eq, Structural)]
pub enum DecodeError {
    /// The text length is not a multiple of four.
    InvalidLength,
    /// A byte outside the alphabet, or padding out of place.
    InvalidCharacter,
}

} // verus!
