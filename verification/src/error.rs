//! What can go wrong in a draw.

use vstd::prelude::*;

verus! {

/// A primitive of the cryptosystem could not complete.
#[derive(Clone, Copy, Debug, PartialEq, Eq, Structural)]
pub enum CryptoFailure {
    /// A modular power was asked for with the modulus zero.
    ZeroModulus,
    /// A random number below zero was asked for.
    EmptyRange,
    /// The group's modulus is below two, or its subgroup order is zero.
    BadGroup,
    /// A player did not find her own entry in the list that was handed round.
    TokenMissing,
}

/// The draw was set up for fewer than two players.
#[derive(Clone, Copy, Debug, PartialEq, Eq, Structural)]
pub enum ConfigError {
    /// With fewer than two players nobody can give to somebody else.
    TooFewPlayers,
}

/// Why one pass of the protocol gave no assignment.
#[derive(Clone, Copy, Debug, PartialEq, Eq, Structural)]
pub enum AttemptError {
    /// A player drew herself: the whole pass is void.
    SelfAssignment,
    /// A primitive failed: there is nothing to recover.
    Crypto(CryptoFailure),
}

} // verus!
