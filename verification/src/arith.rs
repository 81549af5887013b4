//! Modular powers and random scalars, computed by the big-integer library.

use crate::error::CryptoFailure;
use crate::number::{be_value, Number};
use curv::arithmetic::traits::{Converter, Modulo, Samplable};
use curv::BigInt;
use vstd::arithmetic::div_mod::{lemma_mod_bound, lemma_small_mod};
use vstd::arithmetic::mul::lemma_mul_is_commutative;
use vstd::arithmetic::power::{lemma_pow1, lemma_pow_mod_noop, lemma_pow_multiplies, pow};
use vstd::prelude::*;

verus! {

/// `base` to the power `exp`, reduced modulo `m`.
pub open spec fn mod_exp(base: nat, exp: nat, m: nat) -> nat {
    (pow(base as int, exp) % (m as int)) as nat
}

/// A modular power is below its modulus.
pub proof fn lemma_mod_exp_bound(base: nat, exp: nat, m: nat)
    requires
        m > 0,
    ensures
        mod_exp(base, exp, m) < m,
        mod_exp(base, exp, m) as int == pow(base as int, exp) % (m as int),
{
    lemma_mod_bound(pow(base as int, exp), m as int);
}

/// The power one only reduces the base.
pub proof fn lemma_mod_exp_one(base: nat, m: nat)
    requires
        m > 0,
    ensures
        mod_exp(base, 1, m) == base % m,
{
    lemma_pow1(base as int);
}

/// A power of a power is the power by the product of the exponents, also
/// when the inner power was reduced first.
pub proof fn lemma_mod_exp_compose(base: nat, e1: nat, e2: nat, m: nat)
    requires
        m > 0,
    ensures
        mod_exp(mod_exp(base, e1, m), e2, m) == mod_exp(base, e1 * e2, m),
{
    let inner = pow(base as int, e1);
    lemma_mod_exp_bound(base, e1, m);
    lemma_pow_mod_noop(inner, e2, m as int);
    lemma_pow_multiplies(base as int, e1, e2);
}

/// Two exponents may be applied in either order.
pub proof fn lemma_mod_exp_commute(base: nat, e1: nat, e2: nat, m: nat)
    requires
        m > 0,
    ensures
        mod_exp(mod_exp(base, e1, m), e2, m) == mod_exp(mod_exp(base, e2, m), e1, m),
{
    lemma_mod_exp_compose(base, e1, e2, m);
    lemma_mod_exp_compose(base, e2, e1, m);
    lemma_mul_is_commutative(e1 as int, e2 as int);
}

/// The power one leaves a number below the modulus as it is.
pub proof fn lemma_mod_exp_one_small(base: nat, m: nat)
    requires
        base < m,
    ensures
        mod_exp(base, 1, m) == base,
{
    lemma_mod_exp_one(base, m);
    lemma_small_mod(base, m);
}

/// Calls `BigInt::mod_pow` of curv on the numbers that the three byte strings
/// spell (`BigInt::from_bytes` reads them most significant byte first) and
/// hands back the bytes of the result (`BigInt::to_bytes`). Taken on trust:
/// for a modulus above zero the result is the power reduced modulo `m`.
#[verifier::external_body]
fn big_mod_pow(base: &[u8], exp: &[u8], m: &[u8]) -> (r: Vec<u8>)
    requires
        be_value(m@) > 0,
    ensures
        be_value(r@) == mod_exp(be_value(base@), be_value(exp@), be_value(m@)),
{
    let b = BigInt::from_bytes(base);
    let e = BigInt::from_bytes(exp);
    let modulus = BigInt::from_bytes(m);
    BigInt::mod_pow(&b, &e, &modulus).to_bytes()
}

/// Calls `BigInt::sample_below` of curv on the number that `upper` spells and
/// hands back the bytes of the result. Taken on trust: for a bound above zero
/// the result is below the bound. Which number comes is left open.
#[verifier::external_body]
fn big_sample_below(upper: &[u8]) -> (r: Vec<u8>)
    requires
        be_value(upper@) > 0,
    ensures
        be_value(r@) < be_value(upper@),
{
    BigInt::sample_below(&BigInt::from_bytes(upper)).to_bytes()
}

/// `base` to the power `exp` modulo a modulus that is known not to be zero.
pub(crate) fn power_mod(base: &Number, exp: &Number, m: &Number) -> (r: Number)
    requires
        m@ > 0,
    ensures
        r@ == mod_exp(base@, exp@, m@),
{
    let b = base.to_bytes();
    let e = exp.to_bytes();
    let modulus = m.to_bytes();
    let out = big_mod_pow(b.as_slice(), e.as_slice(), modulus.as_slice());
    Number::from_bytes(out.as_slice())
}

/// A random number below a bound that is known not to be zero.
pub(crate) fn random_below(upper: &Number) -> (r: Number)
    requires
        upper@ > 0,
    ensures
        r@ < upper@,
{
    let bound = upper.to_bytes();
    let out = big_sample_below(bound.as_slice());
    Number::from_bytes(out.as_slice())
}

/// `base` to the power `exp` modulo `m`. Fails exactly when `m` is zero.
pub fn mod_pow(base: &Number, exp: &Number, m: &Number) -> (r: Result<Number, CryptoFailure>)
    ensures
        m@ == 0 ==> r == Err::<Number, CryptoFailure>(CryptoFailure::ZeroModulus),
        m@ > 0 ==> r is Ok && r->Ok_0@ == mod_exp(base@, exp@, m@),
{
    if m.is_zero() {
        Err(CryptoFailure::ZeroModulus)
    } else {
        Ok(power_mod(base, exp, m))
    }
}

/// A random number below `upper`. Fails exactly when `upper` is zero.
pub fn sample_below(upper: &Number) -> (r: Result<Number, CryptoFailure>)
    ensures
        upper@ == 0 ==> r == Err::<Number, CryptoFailure>(CryptoFailure::EmptyRange),
        upper@ > 0 ==> r is Ok && r->Ok_0@ < upper@,
{
    if upper.is_zero() {
        Err(CryptoFailure::EmptyRange)
    } else {
        Ok(random_below(upper))
    }
}

} // verus!
