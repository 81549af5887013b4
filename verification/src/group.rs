//! The group that one draw is played in, and the players' key pairs.

use crate::arith::{mod_exp, power_mod, random_below};
use crate::error::CryptoFailure;
use crate::number::Number;
use vstd::prelude::*;

verus! {

/// A cyclic group inside the integers modulo `p`: the modulus `p`, the order
/// `q` of the subgroup, and the generator `g` of that subgroup. Nothing in it
/// changes once it is made. The modulus is at least two and the order at
/// least one; that `p` and `q` are prime is the caller's business.
#[derive(Debug)]
pub struct GroupParams {
    p: Number,
    q: Number,
    g: Number,
}

impl GroupParams {
    /// The modulus `p`.
    pub closed spec fn modulus(&self) -> nat {
        self.p@
    }

    /// The order `q` of the subgroup.
    pub closed spec fn order(&self) -> nat {
        self.q@
    }

    /// The generator `g`.
    pub closed spec fn generator(&self) -> nat {
        self.g@
    }

    /// Whether a modulus and an order can serve in a group: `p >= 2` and
    /// `q >= 1`.
    pub open spec fn acceptable(p: nat, q: nat) -> bool {
        p >= 2 && q >= 1
    }

    /// What holds of every group: its modulus and order are acceptable.
    #[verifier::type_invariant]
    pub open spec fn well_formed(self) -> bool {
        Self::acceptable(self.modulus(), self.order())
    }

    /// The group with modulus `p`, order `q` and generator `g`. Fails with
    /// `BadGroup` exactly when `p < 2` or `q == 0`.
    pub fn new(p: Number, q: Number, g: Number) -> (r: Result<GroupParams, CryptoFailure>)
        ensures
            !Self::acceptable(p@, q@) ==> r == Err::<GroupParams, CryptoFailure>(
                CryptoFailure::BadGroup,
            ),
            Self::acceptable(p@, q@) ==> r is Ok && r->Ok_0.modulus() == p@ && r->Ok_0.order()
                == q@ && r->Ok_0.generator() == g@,
    {
        let one = Number::one();
        if p.is_zero() || p.equals(&one) || q.is_zero() {
            return Err(CryptoFailure::BadGroup);
        }
        Ok(GroupParams { p, q, g })
    }

    /// The modulus `p`, which is at least two.
    pub fn p(&self) -> (r: &Number)
        ensures
            r@ == self.modulus(),
            r@ >= 2,
    {
        proof {
            use_type_invariant(self);
        }
        &self.p
    }

    /// The order `q` of the subgroup, which is at least one.
    pub fn q(&self) -> (r: &Number)
        ensures
            r@ == self.order(),
            r@ >= 1,
    {
        proof {
            use_type_invariant(self);
        }
        &self.q
    }

    /// The generator `g`.
    pub fn g(&self) -> (r: &Number)
        ensures
            r@ == self.generator(),
    {
        &self.g
    }
}

/// A player's secret exponent `x` and her public key `g^x mod p`.
#[derive(Debug)]
pub struct KeyPair {
    pub secret: Number,
    pub public: Number,
}

impl KeyPair {
    /// Whether the public key is the generator raised to the secret.
    pub open spec fn belongs_to(&self, params: &GroupParams) -> bool {
        self.public@ == mod_exp(params.generator(), self.secret@, params.modulus())
    }

    /// The key pair with the given secret.
    pub fn from_secret(params: &GroupParams, secret: Number) -> (r: KeyPair)
        ensures
            r.secret@ == secret@,
            r.belongs_to(params),
    {
        let public = power_mod(params.g(), &secret, params.p());
        KeyPair { secret, public }
    }

    /// A fresh key pair: the secret is drawn at random below the order `q`.
    pub fn generate(params: &GroupParams) -> (r: KeyPair)
        ensures
            r.secret@ < params.order(),
            r.belongs_to(params),
    {
        let secret = random_below(params.q());
        KeyPair::from_secret(params, secret)
    }
}

} // verus!
