//! One pass of the protocol, from fresh keys to the players' readings.

use crate::arith::mod_exp;
use crate::board::{
    blind_all, ciphers, is_mix_of, lemma_mix_of_mix, lemma_opening_is_mix, opening,
    opening_tokens, publics_of, shuffle_round,
};
use crate::derangement::{
    distinct_seconds, is_derangement, keys_match, lemma_owner_finds_entry,
    lemma_reading_is_derangement, lemma_shared_first_half,
};
use crate::error::AttemptError;
use crate::extract::{is_reading, read_assignments, recipient, secrets_of, spoils};
use crate::group::{GroupParams, KeyPair};
use crate::token::Token;
use vstd::prelude::*;
use vstd::seq_lib::to_multiset_len;

verus! {

/// What a pass leaves behind when nobody drew herself: the players' key
/// pairs, the list as it stood after the last turn, and each player's
/// recipient, all in the players' order.
#[derive(Debug)]
pub struct Draw {
    pub keys: Vec<KeyPair>,
    pub board: Vec<Token>,
    pub gives_to: Vec<usize>,
}

impl Draw {
    /// The number of players.
    pub open spec fn players(&self) -> nat {
        self.keys@.len()
    }

    /// Whether this is the outcome of an honest pass in the group `params`:
    /// the key pairs belong to the group, the list came out of the players'
    /// opening list by turns, and the recipients are what the players read
    /// off it, none of them finding herself.
    pub open spec fn accepted(&self, params: &GroupParams) -> bool {
        let g = params.generator();
        let p = params.modulus();
        &&& keys_match(g, secrets_of(self.keys@), publics_of(self.keys@), p)
        &&& exists|e: nat| #[trigger]
            is_mix_of(ciphers(self.board@), opening(g, publics_of(self.keys@), p), e, p)
        &&& is_reading(ciphers(self.board@), secrets_of(self.keys@), p, self.gives_to@)
    }
}

/// An accepted draw is a derangement of the players, provided no two entries
/// of its list have the same second half.
pub proof fn lemma_accepted_is_derangement(d: Draw, params: GroupParams)
    requires
        params.well_formed(),
        d.accepted(&params),
        distinct_seconds(ciphers(d.board@)),
    ensures
        is_derangement(d.gives_to@),
        d.gives_to@.len() == d.players(),
{
    let g = params.generator();
    let p = params.modulus();
    let e = choose|e: nat| #[trigger]
        is_mix_of(ciphers(d.board@), opening(g, publics_of(d.keys@), p), e, p);
    lemma_reading_is_derangement(
        g,
        secrets_of(d.keys@),
        publics_of(d.keys@),
        p,
        ciphers(d.board@),
        e,
        d.gives_to@,
    );
}

/// An accepted draw has one key pair, one entry of the list and one
/// recipient for each player.
pub proof fn lemma_accepted_sizes(d: Draw, params: GroupParams)
    requires
        d.accepted(&params),
    ensures
        d.board@.len() == d.players(),
        d.gives_to@.len() == d.players(),
{
    let g = params.generator();
    let p = params.modulus();
    let publics = publics_of(d.keys@);
    let e = choose|e: nat| #[trigger] is_mix_of(ciphers(d.board@), opening(g, publics, p), e, p);
    to_multiset_len(ciphers(d.board@));
    to_multiset_len(blind_all(opening(g, publics, p), e, p));
}

/// In an accepted draw every player's recipient is a player, and not
/// herself.
pub proof fn lemma_accepted_recipient(d: Draw, params: GroupParams, i: int)
    requires
        params.well_formed(),
        d.accepted(&params),
        0 <= i < d.players(),
    ensures
        1 <= d.gives_to@[i] <= d.players(),
        d.gives_to@[i] != i + 1,
{
    let g = params.generator();
    let p = params.modulus();
    let publics = publics_of(d.keys@);
    let secrets = secrets_of(d.keys@);
    let e = choose|e: nat| #[trigger] is_mix_of(ciphers(d.board@), opening(g, publics, p), e, p);
    assert(publics[i] == mod_exp(g, secrets[i], p));
    lemma_owner_finds_entry(g, publics, p, ciphers(d.board@), e, i, secrets[i]);
    lemma_shared_first_half(g, publics, p, ciphers(d.board@), e, 0);
}

/// A fresh key pair for each of `n` players.
pub fn deal_keys(params: &GroupParams, n: usize) -> (keys: Vec<KeyPair>)
    ensures
        keys@.len() == n,
        forall|i: int|
            0 <= i < n ==> (#[trigger] keys@[i]).belongs_to(params) && keys@[i].secret@
                < params.order(),
{
    let mut keys: Vec<KeyPair> = Vec::new();
    let mut i: usize = 0;
    while i < n
        invariant
            i <= n,
            keys@.len() == i,
            forall|k: int|
                0 <= k < i ==> (#[trigger] keys@[k]).belongs_to(params) && keys@[k].secret@
                    < params.order(),
        decreases n - i,
    {
        keys.push(KeyPair::generate(params));
        i = i + 1;
    }
    keys
}

/// One pass for `n` players: every player gets a fresh key pair and puts
/// her opening entry on the list; every player takes her turn on the list,
/// one after the other; then every player reads off her recipient. The pass
/// is void, with `SelfAssignment`, when a player finds herself; it never
/// fails otherwise, since every player finds her entry.
///
/// Whether a pass for two or more players is void is a matter of the
/// shuffles. A pass for nobody is always accepted, since nobody is there to
/// find herself; a pass for one player is always void, since her entry has
/// no other place to go.
pub fn run_attempt(params: &GroupParams, n: usize) -> (r: Result<Draw, AttemptError>)
    ensures
        r matches Ok(d) ==> d.players() == n && d.accepted(params) && forall|i: int|
            0 <= i < n ==> (#[trigger] d.keys@[i]).secret@ < params.order(),
        r matches Err(e) ==> e == AttemptError::SelfAssignment,
        n == 0 ==> r is Ok,
        n == 1 ==> r is Err,
{
    let keys = deal_keys(params, n);
    let mut board = opening_tokens(params, &keys);
    let ghost g = params.generator();
    let ghost p = params.modulus();
    let ghost start = opening(g, publics_of(keys@), p);
    proof {
        use_type_invariant(params);
        lemma_opening_is_mix(g, publics_of(keys@), p);
        assert(keys_match(g, secrets_of(keys@), publics_of(keys@), p)) by {
            assert forall|i: int| 0 <= i < keys@.len() implies #[trigger] publics_of(keys@)[i]
                == mod_exp(g, secrets_of(keys@)[i], p) by {
                assert(keys@[i].belongs_to(params));
            }
        }
    }
    let mut turn: usize = 0;
    while turn < n
        invariant
            turn <= n,
            p > 0,
            p == params.modulus(),
            exists|e: nat| #[trigger] is_mix_of(ciphers(board@), start, e, p),
        decreases n - turn,
    {
        let ghost before = ciphers(board@);
        shuffle_round(&mut board, params);
        proof {
            let e = choose|e: nat| #[trigger] is_mix_of(before, start, e, p);
            let y = choose|y: nat|
                y < params.order() && #[trigger] is_mix_of(ciphers(board@), before, y, p);
            lemma_mix_of_mix(start, before, ciphers(board@), e, y, p);
        }
        turn = turn + 1;
    }
    proof {
        if n == 1 {
            // The only player's entry is the only entry: she finds herself.
            let mixed = choose|e: nat| #[trigger] is_mix_of(ciphers(board@), start, e, p);
            let xs = secrets_of(keys@);
            assert(publics_of(keys@)[0] == mod_exp(g, xs[0], p));
            lemma_owner_finds_entry(g, publics_of(keys@), p, ciphers(board@), mixed, 0, xs[0]);
            lemma_shared_first_half(g, publics_of(keys@), p, ciphers(board@), mixed, 0);
            assert(spoils(ciphers(board@), xs, p, 0));
        }
    }
    match read_assignments(&board, &keys, params) {
        Ok(gives_to) => Ok(Draw { keys, board, gives_to }),
        Err(e) => {
            proof {
                let mixed = choose|e: nat| #[trigger] is_mix_of(ciphers(board@), start, e, p);
                let xs = secrets_of(keys@);
                assert forall|i: int| 0 <= i < xs.len() && spoils(
                    ciphers(board@),
                    xs,
                    p,
                    i,
                ) implies recipient(ciphers(board@), xs[i], p) is Some by {
                    assert(publics_of(keys@)[i] == mod_exp(g, xs[i], p));
                    lemma_owner_finds_entry(
                        g,
                        publics_of(keys@),
                        p,
                        ciphers(board@),
                        mixed,
                        i,
                        xs[i],
                    );
                }
            }
            Err(e)
        },
    }
}

/// Passes, one after the other, until one is accepted or `attempts` of them
/// were void. Nothing of a void pass is kept: the next one starts from fresh
/// keys and a fresh list.
///
/// With no attempts there is no draw. With nobody to play, the first pass
/// is accepted; with one player every pass is void, and there is no draw
/// however many are allowed. For two or more players the shuffles decide.
pub fn draw_within(params: &GroupParams, n: usize, attempts: usize) -> (r: Option<Draw>)
    ensures
        r matches Some(d) ==> d.players() == n && d.accepted(params) && forall|i: int|
            0 <= i < n ==> (#[trigger] d.keys@[i]).secret@ < params.order(),
        attempts == 0 ==> r is None,
        n == 1 ==> r is None,
        n == 0 && attempts > 0 ==> r is Some,
{
    let mut left: usize = attempts;
    while left > 0
        invariant
            left <= attempts,
            n == 0 ==> left == attempts,
        decreases left,
    {
        match run_attempt(params, n) {
            Ok(d) => {
                return Some(d);
            },
            Err(_) => {},
        }
        left = left - 1;
    }
    None
}

} // verus!
