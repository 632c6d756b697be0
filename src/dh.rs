//! Diffie-Hellman key exchange over a fixed 64-bit prime.

use crate::net::{be_bytes, be_value, decode_be, encode_be};
use crate::random::random_u64;
use vstd::arithmetic::div_mod::{lemma_mul_mod_noop_general, lemma_small_mod};
use vstd::arithmetic::power::{
    lemma0_pow, lemma_pow0, lemma_pow1, lemma_pow_adds, lemma_pow_mod_noop, lemma_pow_multiplies,
    lemma_square_is_pow2, pow,
};
use vstd::prelude::*;

verus! {

/// The public 64-bit prime modulus.
pub const P: u64 = 0xD87F_A3E2_91B4_C7F3;

/// The public generator.
pub const G: u64 = 2;

/// `base` raised to `exp`, reduced modulo `modulus`.
pub open spec fn mod_pow(base: int, exp: nat, modulus: int) -> int {
    pow(base, exp) % modulus
}

/// One square-and-multiply step keeps `r * b^e` unchanged modulo `m`.
proof fn lemma_square_multiply_step(r: int, b: int, e: nat, m: int)
    requires
        m > 0,
    ensures
        (r * pow(b, e)) % m == ((if e % 2 == 1 { (r * b) % m } else { r }) * pow((b * b) % m, e / 2)) % m,
{
    let h = e / 2;
    let low = e % 2;
    assert(e == low + 2 * h);
    lemma_pow_adds(b, low, 2 * h);
    lemma_pow_multiplies(b, 2, h);
    lemma_square_is_pow2(b);
    lemma_pow_mod_noop(b * b, h, m);
    let q = pow(b * b, h);
    assert(pow(b, e) == pow(b, low) * q);
    if low == 1 {
        lemma_pow1(b);
        assert(r * pow(b, e) == (r * b) * q) by (nonlinear_arith)
            requires pow(b, e) == b * q;
        lemma_mul_mod_noop_general(r * b, q, m);
        lemma_mul_mod_noop_general((r * b) % m, pow((b * b) % m, h), m);
        lemma_mul_mod_noop_general((r * b) % m, q, m);
    } else {
        lemma_pow0(b);
        assert(pow(b, e) == q);
        lemma_mul_mod_noop_general(r, q, m);
        lemma_mul_mod_noop_general(r, pow((b * b) % m, h), m);
    }
}

/// Modular exponentiation by square-and-multiply: `base^exp mod modulus`.
///
/// Intermediate products are taken in 128 bits, so the modulus is at most 2^64.
pub fn modular_pow(base: u128, exp: u128, modulus: u128) -> (r: u128)
    requires
        0 < modulus <= 0x1_0000_0000_0000_0000,
    ensures
        r == mod_pow(base as int, exp as nat, modulus as int),
        r < modulus,
{
    if modulus == 1 {
        return 0;
    }
    let m = modulus;
    let mut result: u128 = 1;
    let mut b: u128 = base % m;
    let mut e: u128 = exp;
    proof {
        lemma_pow_mod_noop(base as int, exp as nat, m as int);
        lemma_small_mod(1, m as nat);
    }
    while e > 0
        invariant
            1 < m <= 0x1_0000_0000_0000_0000,
            result < m,
            b < m,
            (result * pow(b as int, e as nat)) % (m as int) == mod_pow(base as int, exp as nat, m as int),
        decreases e,
    {
        proof {
            lemma_square_multiply_step(result as int, b as int, e as nat, m as int);
        }
        assert((result as int) * (b as int) <= u128::MAX) by (nonlinear_arith)
            requires result < m, b < m, m <= 0x1_0000_0000_0000_0000;
        assert((b as int) * (b as int) <= u128::MAX) by (nonlinear_arith)
            requires b < m, m <= 0x1_0000_0000_0000_0000;
        assert(e & 1 == e % 2) by (bit_vector);
        assert(e >> 1 == e / 2) by (bit_vector);
        if e & 1 == 1 {
            result = (result * b) % m;
        }
        b = (b * b) % m;
        e = e >> 1;
    }
    proof {
        lemma_pow0(b as int);
        lemma_small_mod(result as nat, m as nat);
    }
    result
}

/// The public value that belongs to a private exponent: `G^private mod P`.
pub open spec fn public_of(private: u64) -> int {
    mod_pow(G as int, private as nat, P as int)
}

/// The secret that a party holding `own_private` derives from `peer_public`.
pub open spec fn shared_secret_of(own_private: u64, peer_public: u64) -> int {
    mod_pow(peer_public as int, own_private as nat, P as int)
}

/// A party's key pair: a private exponent and the public value it yields.
#[derive(Debug, Clone, Copy)]
pub struct KeyPair {
    pub private: u64,
    pub public: u64,
}

impl KeyPair {
    /// The key pair is consistent: its public value is `G^private mod P`.
    pub open spec fn wf(self) -> bool {
        self.public as int == public_of(self.private)
    }

    /// The key pair whose private exponent is `private`.
    pub fn from_private(private: u64) -> (r: KeyPair)
        ensures
            r.private == private,
            r.public as int == public_of(private),
            r.wf(),
    {
        let public = modular_pow(G as u128, private as u128, P as u128) as u64;
        KeyPair { private, public }
    }

    /// A fresh key pair with a private exponent drawn uniformly from the 64-bit range.
    pub fn generate() -> (r: KeyPair)
        ensures
            r.wf(),
    {
        KeyPair::from_private(random_u64())
    }
}

/// The shared secret: the peer's public value raised to our private exponent, modulo `P`.
pub fn compute_shared_secret(our_private: u64, their_public: u64) -> (r: u64)
    ensures
        r as int == shared_secret_of(our_private, their_public),
        r < P,
{
    modular_pow(their_public as u128, our_private as u128, P as u128) as u64
}

/// The handshake message that carries our public value: eight bytes, big-endian.
pub fn handshake_message(kp: &KeyPair) -> (r: Vec<u8>)
    ensures
        r@ == be_bytes(kp.public as nat, 8),
{
    encode_be(kp.public, 8)
}

/// The shared secret, from our key pair and the peer's 8-byte handshake message.
pub fn handshake_secret(kp: &KeyPair, peer_message: &[u8]) -> (r: u64)
    requires
        peer_message@.len() == 8,
    ensures
        r as int == mod_pow(be_value(peer_message@) as int, kp.private as nat, P as int),
{
    let peer_public = decode_be(peer_message);
    compute_shared_secret(kp.private, peer_public)
}

/// Both parties of an exchange derive the same secret: for all private
/// exponents `a` and `b`, `(G^a mod P)^b mod P == (G^b mod P)^a mod P`.
pub proof fn lemma_shared_secret_agrees(a: u64, b: u64)
    ensures
        mod_pow(public_of(a), b as nat, P as int) == mod_pow(public_of(b), a as nat, P as int),
{
    let g = G as int;
    let m = P as int;
    lemma_pow_mod_noop(pow(g, a as nat), b as nat, m);
    lemma_pow_mod_noop(pow(g, b as nat), a as nat, m);
    lemma_pow_multiplies(g, a as nat, b as nat);
    lemma_pow_multiplies(g, b as nat, a as nat);
    assert((a as nat) * (b as nat) == (b as nat) * (a as nat)) by (nonlinear_arith);
}

/// For every modulus above one, any base to the power zero is one, and zero to
/// any positive power is zero.
pub proof fn lemma_mod_pow_edges(base: int, e: nat, m: int)
    requires
        m > 1,
    ensures
        mod_pow(base, 0, m) == 1,
        e > 0 ==> mod_pow(0, e, m) == 0,
{
    lemma_pow0(base);
    lemma_small_mod(1, m as nat);
    if e > 0 {
        lemma0_pow(e);
    }
}

} // verus!
