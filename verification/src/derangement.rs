//! Why the players' readings fit together.
//!
//! After any number of turns the list holds the opening entries, each
//! blinded with one and the same exponent. From that alone it follows that
//! every player finds her own entry, and that the places they find form a
//! permutation of the players, provided no two entries look alike.

use crate::arith::{lemma_mod_exp_commute, mod_exp};
use crate::board::{blind_all, is_mix_of, opening};
use crate::extract::{
    is_reading, lemma_first_place_exists, lemma_recipient_is_first_place, recipient, target,
};
use crate::token::{blind, hides_one, lemma_blind_keeps_one, Cipher};
use vstd::prelude::*;
use vstd::seq_lib::{to_multiset_contains, to_multiset_len};

verus! {

/// Whether every public key is the generator raised to the secret at the
/// same place.
pub open spec fn keys_match(g: nat, secrets: Seq<nat>, publics: Seq<nat>, p: nat) -> bool {
    &&& secrets.len() == publics.len()
    &&& forall|i: int| 0 <= i < secrets.len() ==> #[trigger] publics[i] == mod_exp(g, secrets[i], p)
}

/// Whether no two entries of the list have the same second half.
pub open spec fn distinct_seconds(board: Seq<Cipher>) -> bool {
    forall|j: int, k: int|
        0 <= j < k < board.len() ==> (#[trigger] board[j]).c2 != (#[trigger] board[k]).c2
}

/// Whether some player gives to the player `r`.
pub open spec fn is_given_to(gives_to: Seq<usize>, r: int) -> bool {
    exists|i: int| 0 <= i < gives_to.len() && #[trigger] gives_to[i] == r
}

/// Whether `gives_to`, which names the recipient of player `i + 1` at place
/// `i`, is a derangement of the players `1..=n`: every recipient is a
/// player, nobody gives to herself, no two give to the same player, and
/// every player is given to.
pub open spec fn is_derangement(gives_to: Seq<usize>) -> bool {
    &&& forall|i: int| 0 <= i < gives_to.len() ==> 1 <= #[trigger] gives_to[i] <= gives_to.len()
    &&& forall|i: int| 0 <= i < gives_to.len() ==> #[trigger] gives_to[i] != i + 1
    &&& forall|i: int, k: int|
        0 <= i < k < gives_to.len() ==> #[trigger] gives_to[i] != #[trigger] gives_to[k]
    &&& forall|r: int| 1 <= r <= gives_to.len() ==> #[trigger] is_given_to(gives_to, r)
}

/// Every entry of a list that came out of the opening list by turns has the
/// same first half: the generator raised to the turns' exponent.
pub proof fn lemma_shared_first_half(
    g: nat,
    publics: Seq<nat>,
    p: nat,
    board: Seq<Cipher>,
    e: nat,
    j: int,
)
    requires
        is_mix_of(board, opening(g, publics, p), e, p),
        0 <= j < board.len(),
    ensures
        board.len() == publics.len(),
        board[j].c1 == mod_exp(mod_exp(g, 1, p), e, p),
        exists|i: int|
            0 <= i < publics.len() && board[j] == #[trigger] blind(
                opening(g, publics, p)[i],
                e,
                p,
            ),
{
    let blinded = blind_all(opening(g, publics, p), e, p);
    to_multiset_len(board);
    to_multiset_len(blinded);
    assert(board.contains(board[j]));
    to_multiset_contains(board, board[j]);
    to_multiset_contains(blinded, board[j]);
    let i = choose|i: int| 0 <= i < blinded.len() && blinded[i] == board[j];
    assert(board[j] == blind(opening(g, publics, p)[i], e, p));
}

/// Every player finds her own entry. If the list came out of the opening
/// list by turns with the exponent `e`, the player at place `i`, whose
/// public key is the generator raised to her secret `x`, reads off a
/// recipient, and the entry at that place is her opening entry blinded
/// with `e`.
pub proof fn lemma_owner_finds_entry(
    g: nat,
    publics: Seq<nat>,
    p: nat,
    board: Seq<Cipher>,
    e: nat,
    i: int,
    x: nat,
)
    requires
        p > 0,
        0 <= i < publics.len(),
        publics[i] == mod_exp(g, x, p),
        is_mix_of(board, opening(g, publics, p), e, p),
    ensures
        recipient(board, x, p) matches Some(r) && 1 <= r <= board.len() && board[r - 1] == blind(
            opening(g, publics, p)[i],
            e,
            p,
        ),
{
    let start = opening(g, publics, p);
    let blinded = blind_all(start, e, p);
    let own = blind(start[i], e, p);
    to_multiset_len(board);
    to_multiset_len(blinded);
    lemma_shared_first_half(g, publics, p, board, e, 0);
    // Her opening entry hides the plaintext one for her, and so does the blinded one.
    assert(hides_one(start[i], x, p)) by {
        lemma_mod_exp_commute(g, x, 1, p);
    }
    lemma_blind_keeps_one(start[i], x, p, e);
    assert(own.c2 == target(board, x, p));
    // The blinded entry is somewhere in the list.
    assert(blinded[i] == own);
    assert(blinded.contains(own));
    to_multiset_contains(blinded, own);
    to_multiset_contains(board, own);
    let j = choose|j: int| 0 <= j < board.len() && board[j] == own;
    let f = lemma_first_place_exists(board, target(board, x, p), j);
    lemma_recipient_is_first_place(board, x, p, f);
    lemma_shared_first_half(g, publics, p, board, e, f);
}

/// What the players read off is a derangement. If the list came out of the
/// opening list by turns, no two of its entries have the same second half,
/// and `gives_to` is what the players read off it, none of them finding
/// herself, then `gives_to` is a permutation of the players without a fixed
/// point.
pub proof fn lemma_reading_is_derangement(
    g: nat,
    secrets: Seq<nat>,
    publics: Seq<nat>,
    p: nat,
    board: Seq<Cipher>,
    e: nat,
    gives_to: Seq<usize>,
)
    requires
        p > 0,
        keys_match(g, secrets, publics, p),
        is_mix_of(board, opening(g, publics, p), e, p),
        distinct_seconds(board),
        is_reading(board, secrets, p, gives_to),
    ensures
        is_derangement(gives_to),
{
    let n = gives_to.len() as int;
    let start = opening(g, publics, p);
    to_multiset_len(board);
    to_multiset_len(blind_all(start, e, p));
    assert(board.len() == n);
    assert forall|i: int| 0 <= i < n implies 1 <= #[trigger] gives_to[i] <= n && board[gives_to[i]
        - 1] == blind(start[i], e, p) by {
        assert(publics[i] == mod_exp(g, secrets[i], p));
        lemma_owner_finds_entry(g, publics, p, board, e, i, secrets[i]);
    }
    // No two players' entries are the same: two equal entries would sit at
    // two places of the list, which has no two entries alike.
    assert forall|i: int, k: int| 0 <= i < k < n implies #[trigger] gives_to[i]
        != #[trigger] gives_to[k] by {
        if gives_to[i] == gives_to[k] {
            lemma_blinded_entries_differ(start, e, p, board, i, k);
        }
    }
    assert forall|r: int| 1 <= r <= n implies #[trigger] is_given_to(gives_to, r) by {
        lemma_shared_first_half(g, publics, p, board, e, r - 1);
        let i = choose|i: int|
            0 <= i < publics.len() && board[r - 1] == #[trigger] blind(start[i], e, p);
        let found = gives_to[i] - 1;
        assert(board[found] == board[r - 1]);
        if found < r - 1 {
            assert(board[found].c2 != board[r - 1].c2);
        } else if r - 1 < found {
            assert(board[r - 1].c2 != board[found].c2);
        }
        assert(gives_to[i] == r);
    }
}

/// In a list without two entries alike, the entries that it came from are
/// pairwise different after blinding too.
proof fn lemma_blinded_entries_differ(
    start: Seq<Cipher>,
    e: nat,
    p: nat,
    board: Seq<Cipher>,
    i: int,
    k: int,
)
    requires
        is_mix_of(board, start, e, p),
        distinct_seconds(board),
        0 <= i < k < start.len(),
    ensures
        blind(start[i], e, p) != blind(start[k], e, p),
{
    let blinded = blind_all(start, e, p);
    assert(board.no_duplicates()) by {
        assert forall|a: int, b: int|
            0 <= a < board.len() && 0 <= b < board.len() && a != b implies board[a]
            != board[b] by {
            if a < b {
                assert(board[a].c2 != board[b].c2);
            } else {
                assert(board[b].c2 != board[a].c2);
            }
        }
    }
    board.lemma_multiset_has_no_duplicates();
    blinded.lemma_multiset_has_no_duplicates_conv();
    assert(blinded[i] != blinded[k]);
}

} // verus!
