//! The game itself: it runs passes until one is accepted, and then tells
//! each player whom she gives to.

use crate::attempt::{
    draw_within, lemma_accepted_is_derangement, lemma_accepted_recipient, Draw,
};
use crate::board::ciphers;
use crate::derangement::{distinct_seconds, is_derangement};
use crate::error::ConfigError;
use crate::group::GroupParams;
use vstd::prelude::*;

verus! {

/// A secret santa among a fixed number of players, in a fixed group. It is
/// either still running, and then holds nothing but these two, or done, and
/// then holds the accepted draw.
#[derive(Debug)]
pub struct SecretSanta {
    params: GroupParams,
    n_players: usize,
    outcome: Option<Draw>,
}

impl SecretSanta {
    /// The group that the game is played in.
    pub closed spec fn group(&self) -> GroupParams {
        self.params
    }

    /// The number of players.
    pub closed spec fn players(&self) -> nat {
        self.n_players as nat
    }

    /// The accepted draw; `None` while the game is running.
    pub closed spec fn outcome(&self) -> Option<Draw> {
        self.outcome
    }

    /// What holds of every game: there are at least two players, and a game
    /// that is done holds an accepted draw for its players in its group.
    pub open spec fn wf(&self) -> bool {
        &&& self.players() >= 2
        &&& self.group().well_formed()
        &&& self.outcome() matches Some(d) ==> d.players() == self.players() && d.accepted(
            &self.group(),
        )
    }

    /// A game among `n_players` players in the group `params`, running.
    /// Fails with `TooFewPlayers` exactly when there are fewer than two.
    pub fn new(n_players: usize, params: GroupParams) -> (r: Result<SecretSanta, ConfigError>)
        ensures
            n_players < 2 ==> r == Err::<SecretSanta, ConfigError>(ConfigError::TooFewPlayers),
            n_players >= 2 ==> r is Ok && r->Ok_0.wf() && r->Ok_0.players() == n_players
                && r->Ok_0.group() == params && r->Ok_0.outcome() is None,
    {
        if n_players < 2 {
            return Err(ConfigError::TooFewPlayers);
        }
        proof {
            use_type_invariant(&params);
        }
        Ok(SecretSanta { params, n_players, outcome: None })
    }

    /// Runs passes until one is accepted, but no more than `attempts` of
    /// them, and says whether the game is done. A game that is done stays as
    /// it is. A game that is still running afterwards holds nothing of the
    /// passes that were void: no key, no list and no recipient.
    ///
    /// A pass is accepted with a chance of about one in three, however many
    /// players there are, so a game is done after a few passes. There is no
    /// number of void passes after which the game has failed: a caller who
    /// wants the game done calls this again for as long as it says `false`.
    pub fn assign(&mut self, attempts: usize) -> (done: bool)
        requires
            old(self).wf(),
        ensures
            final(self).wf(),
            final(self).group() == old(self).group(),
            final(self).players() == old(self).players(),
            done == final(self).outcome() is Some,
            old(self).outcome() is Some || attempts == 0 ==> final(self).outcome() == old(
                self,
            ).outcome(),
    {
        if self.outcome.is_none() {
            self.outcome = draw_within(&self.params, self.n_players, attempts);
        }
        self.outcome.is_some()
    }

    /// Whether the game is done.
    pub fn is_done(&self) -> (r: bool)
        ensures
            r == self.outcome() is Some,
    {
        self.outcome.is_some()
    }

    /// The number of players.
    pub fn n_players(&self) -> (n: usize)
        ensures
            n == self.players(),
    {
        self.n_players
    }

    /// The accepted draw, once the game is done.
    pub fn draw(&self) -> (r: Option<&Draw>)
        ensures
            r.is_some() == self.outcome().is_some(),
            r matches Some(d) ==> self.outcome() == Some(*d),
    {
        self.outcome.as_ref()
    }

    /// The recipient of the player `id`, for her eyes only: `None` while the
    /// game is running, and for an `id` that is no player's.
    pub fn gives_to(&self, id: usize) -> (r: Option<usize>)
        requires
            self.wf(),
        ensures
            r is Some <==> self.outcome() is Some && 1 <= id <= self.players(),
            r matches Some(to) ==> to == self.outcome()->Some_0.gives_to@[id - 1] && 1 <= to
                <= self.players() && to != id,
    {
        match &self.outcome {
            None => None,
            Some(d) => {
                if id == 0 || id > self.n_players {
                    return None;
                }
                proof {
                    lemma_accepted_recipient(*d, self.params, id - 1);
                }
                Some(d.gives_to[id - 1])
            },
        }
    }

    /// The whole assignment, for checking a finished game: at place `i` the
    /// recipient of player `i + 1`. It is a derangement of the players
    /// whenever the entries of the final list are pairwise different.
    pub fn mapping(&self) -> (r: Option<Vec<usize>>)
        requires
            self.wf(),
        ensures
            r is Some <==> self.outcome() is Some,
            r matches Some(m) ==> m@ == self.outcome()->Some_0.gives_to@ && m@.len()
                == self.players() && (distinct_seconds(ciphers(self.outcome()->Some_0.board@))
                ==> is_derangement(m@)),
    {
        match &self.outcome {
            None => None,
            Some(d) => {
                let n: usize = d.gives_to.len();
                let mut m: Vec<usize> = Vec::new();
                let mut i: usize = 0;
                while i < n
                    invariant
                        n == d.gives_to@.len(),
                        i <= n,
                        m@ == d.gives_to@.subrange(0, i as int),
                    decreases n - i,
                {
                    m.push(d.gives_to[i]);
                    i = i + 1;
                    assert(m@ =~= d.gives_to@.subrange(0, i as int));
                }
                proof {
                    assert(m@ =~= d.gives_to@);
                    if distinct_seconds(ciphers(d.board@)) {
                        lemma_accepted_is_derangement(*d, self.params);
                    }
                }
                Some(m)
            },
        }
    }
}

} // verus!
