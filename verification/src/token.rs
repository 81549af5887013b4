//! The entries of the list that the players hand round.
//!
//! An entry is an ElGamal ciphertext of the plaintext one. Blinding it with
//! an exponent `y` raises both halves to the power `y`; the relation between
//! the halves, that the second is the first raised to the owner's secret,
//! survives this, which is what lets the owner find her entry again.

use crate::arith::{
    lemma_mod_exp_bound, lemma_mod_exp_commute, lemma_mod_exp_compose, mod_exp, power_mod,
};
use crate::group::GroupParams;
use crate::number::Number;
use vstd::arithmetic::div_mod::{lemma_mod_bound, lemma_mul_mod_noop_general, lemma_small_mod};
use vstd::arithmetic::mul::lemma_mul_is_commutative;
use vstd::arithmetic::power::{lemma_pow_distributes, lemma_pow_mod_noop, lemma_pow_multiplies, pow};
use vstd::prelude::*;

verus! {

/// What a `Token` stands for: the two halves of a ciphertext, as numbers.
pub struct Cipher {
    pub c1: nat,
    pub c2: nat,
}

/// One entry of the list: a ciphertext `(c1, c2)` over the group.
#[derive(Debug)]
pub struct Token {
    pub c1: Number,
    pub c2: Number,
}

impl View for Token {
    type V = Cipher;

    open spec fn view(&self) -> Cipher {
        Cipher { c1: self.c1@, c2: self.c2@ }
    }
}

/// The ciphertext of the plaintext one under the public key `public` with
/// the randomness `r`: `(g^r mod p, public^r mod p)`.
pub open spec fn encryption(g: nat, public: nat, r: nat, p: nat) -> Cipher {
    Cipher { c1: mod_exp(g, r, p), c2: mod_exp(public, r, p) }
}

/// The ciphertext `c` with both halves raised to the power `y` modulo `p`.
pub open spec fn blind(c: Cipher, y: nat, p: nat) -> Cipher {
    Cipher { c1: mod_exp(c.c1, y, p), c2: mod_exp(c.c2, y, p) }
}

/// Whether `c` hides the plaintext one for the holder of the secret `x`: its
/// second half is its first half raised to `x`.
pub open spec fn hides_one(c: Cipher, x: nat, p: nat) -> bool {
    c.c2 == mod_exp(c.c1, x, p)
}

/// Whether `m` is what the holder of the secret `x` reads out of `c`: a
/// number below `p` with `m * c1^x = c2` modulo `p`.
pub open spec fn decrypts_to(c: Cipher, x: nat, p: nat, m: nat) -> bool {
    m < p && (m * pow(c.c1 as int, x)) % (p as int) == (c.c2 % p) as int
}

/// Blinding commutes with reading: if the holder of `x` reads `m` out of
/// `c`, she reads `m^y mod p` out of `c` blinded with `y`.
pub proof fn lemma_blind_round_trip(c: Cipher, x: nat, p: nat, m: nat, y: nat)
    requires
        p > 0,
        decrypts_to(c, x, p, m),
    ensures
        decrypts_to(blind(c, y, p), x, p, mod_exp(m, y, p)),
{
    let pi = p as int;
    let a = pow(c.c1 as int, x);
    let my = pow(m as int, y);
    let b = blind(c, y, p);
    lemma_mod_exp_bound(m, y, p);
    lemma_mod_exp_bound(c.c1, y, p);
    lemma_mod_exp_bound(c.c2, y, p);
    // (c1^y mod p)^x and (c1^x)^y agree modulo p.
    assert(pow(b.c1 as int, x) % pi == pow(a, y) % pi) by {
        lemma_pow_mod_noop(pow(c.c1 as int, y), x, pi);
        lemma_pow_multiplies(c.c1 as int, y, x);
        lemma_pow_multiplies(c.c1 as int, x, y);
        lemma_mul_is_commutative(x as int, y as int);
    }
    // The product of the two reduced powers is the reduced power of the product.
    assert((mod_exp(m, y, p) * pow(b.c1 as int, x)) % pi == pow(m * a, y) % pi) by {
        lemma_mul_mod_noop_general(mod_exp(m, y, p) as int, pow(b.c1 as int, x), pi);
        lemma_mul_mod_noop_general(my, pow(a, y), pi);
        lemma_mod_bound(my, pi);
        lemma_small_mod(mod_exp(m, y, p), p);
        lemma_pow_distributes(m as int, a, y);
    }
    // And m * c1^x is c2 modulo p.
    assert(pow(m * a, y) % pi == pow(c.c2 as int, y) % pi) by {
        lemma_pow_mod_noop(m * a, y, pi);
        lemma_pow_mod_noop(c.c2 as int, y, pi);
    }
    lemma_small_mod(b.c2, p);
}

/// An entry that hides the plaintext one still does so after blinding.
pub proof fn lemma_blind_keeps_one(c: Cipher, x: nat, p: nat, y: nat)
    requires
        p > 0,
        hides_one(c, x, p),
    ensures
        hides_one(blind(c, y, p), x, p),
{
    lemma_mod_exp_commute(c.c1, x, y, p);
}

/// Blinding with `y1` and then with `y2` is blinding with `y1 * y2`.
pub proof fn lemma_blind_twice(c: Cipher, y1: nat, y2: nat, p: nat)
    requires
        p > 0,
    ensures
        blind(blind(c, y1, p), y2, p) == blind(c, y1 * y2, p),
{
    lemma_mod_exp_compose(c.c1, y1, y2, p);
    lemma_mod_exp_compose(c.c2, y1, y2, p);
}

/// Encrypts the plaintext one under `public` with the given randomness.
pub fn encrypt_one(params: &GroupParams, public: &Number, randomness: &Number) -> (r: Token)
    ensures
        r@ == encryption(params.generator(), public@, randomness@, params.modulus()),
{
    let p = params.p();
    let c1 = power_mod(params.g(), randomness, p);
    let c2 = power_mod(public, randomness, p);
    Token { c1, c2 }
}

/// Blinds a ciphertext of the plaintext one with the exponent `y`. The
/// result hides the same plaintext for the same owner, and cannot be told
/// from a fresh ciphertext without her secret.
pub fn rerandomise(c: &Token, y: &Number, params: &GroupParams) -> (r: Token)
    ensures
        r@ == blind(c@, y@, params.modulus()),
{
    let p = params.p();
    let c1 = power_mod(&c.c1, y, p);
    let c2 = power_mod(&c.c2, y, p);
    Token { c1, c2 }
}

} // verus!
