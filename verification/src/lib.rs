//! A secret-santa draw that nobody has to oversee.
//!
//! The players hand a list of ciphertexts round the table, one entry for
//! each of them. Each player in turn shuffles the list and blinds every
//! entry with a private exponent. At the end every player finds her own
//! entry again with her secret key, and the place where it came to rest
//! names the player she gives a present to. A pass in which somebody finds
//! herself is void as a whole, and the players start again with fresh keys.
//!
//! What is proved here is the arithmetic of the protocol: that blinding
//! keeps every entry readable for its owner, that every player therefore
//! finds her entry whatever the others did to the list, and that what the
//! players read off is a permutation of them without a fixed point. What is
//! not proved, because it is not a property of a single run, is that the
//! permutation is uniformly random and that a pass is accepted after a few
//! tries. Nor does the protocol let anybody check that a player has shuffled
//! honestly: a player who leaves the list in its order goes unnoticed. The
//! players have to trust each other in this.
//!
//! The big-integer arithmetic and the random choices are the work of the
//! `curv` and `rand` crates; see `arith` and `board` for what is taken on
//! trust about them.

pub mod arith;
pub mod attempt;
pub mod board;
pub mod derangement;
pub mod error;
pub mod extract;
pub mod group;
pub mod number;
pub mod santa;
pub mod token;
