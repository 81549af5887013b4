//! How a player reads her recipient off the list at the end.
//!
//! Every entry's first half is the same number by then. A player raises it to
//! her secret and looks for the entry whose second half is the result: that
//! entry is her own, and its place, counted from one, names her recipient.

use crate::arith::{mod_exp, power_mod};
use crate::error::{AttemptError, CryptoFailure};
use crate::group::{GroupParams, KeyPair};
use crate::number::Number;
use crate::token::{Cipher, Token};
use crate::board::ciphers;
use vstd::prelude::*;

verus! {

/// The number a player with the secret `x` looks for: the first half of the
/// list's first entry, raised to `x`.
pub open spec fn target(board: Seq<Cipher>, x: nat, p: nat) -> nat {
    mod_exp(board[0].c1, x, p)
}

/// Whether `j` is the first place of the list whose second half is `v`.
pub open spec fn is_first_place(board: Seq<Cipher>, v: nat, j: int) -> bool {
    &&& 0 <= j < board.len()
    &&& board[j].c2 == v
    &&& forall|k: int| 0 <= k < j ==> (#[trigger] board[k]).c2 != v
}

/// Whether no second half of the list is `v`.
pub open spec fn is_absent(board: Seq<Cipher>, v: nat) -> bool {
    forall|k: int| 0 <= k < board.len() ==> (#[trigger] board[k]).c2 != v
}

/// The recipient that a player with the secret `x` reads off the list: the
/// first place, counted from one, whose second half is her target. `None`
/// where there is no such place.
pub open spec fn recipient(board: Seq<Cipher>, x: nat, p: nat) -> Option<nat> {
    let v = target(board, x, p);
    if exists|j: int| is_first_place(board, v, j) {
        Some(((choose|j: int| is_first_place(board, v, j)) + 1) as nat)
    } else {
        None
    }
}

/// A list has at most one first place for a number.
pub proof fn lemma_first_place_unique(board: Seq<Cipher>, v: nat, j1: int, j2: int)
    requires
        is_first_place(board, v, j1),
        is_first_place(board, v, j2),
    ensures
        j1 == j2,
{
    if j1 < j2 {
        assert(board[j1].c2 != v);
    } else if j2 < j1 {
        assert(board[j2].c2 != v);
    }
}

/// A number that is some entry's second half has a first place, at or before
/// that entry.
pub proof fn lemma_first_place_exists(board: Seq<Cipher>, v: nat, j: int) -> (f: int)
    requires
        0 <= j < board.len(),
        board[j].c2 == v,
    ensures
        is_first_place(board, v, f),
        f <= j,
    decreases j,
{
    if forall|k: int| 0 <= k < j ==> (#[trigger] board[k]).c2 != v {
        j
    } else {
        let k = choose|k: int| 0 <= k < j && (#[trigger] board[k]).c2 == v;
        lemma_first_place_exists(board, v, k)
    }
}

/// The place `j` is what `recipient` gives, less one, when it is the first
/// place of the player's target.
pub proof fn lemma_recipient_is_first_place(board: Seq<Cipher>, x: nat, p: nat, j: int)
    requires
        is_first_place(board, target(board, x, p), j),
    ensures
        recipient(board, x, p) == Some((j + 1) as nat),
{
    let v = target(board, x, p);
    let c = choose|j: int| is_first_place(board, v, j);
    lemma_first_place_unique(board, v, c, j);
}

/// Where the target is no entry's second half, `recipient` gives nothing.
pub proof fn lemma_recipient_absent(board: Seq<Cipher>, x: nat, p: nat)
    requires
        is_absent(board, target(board, x, p)),
    ensures
        recipient(board, x, p) is None,
{
    let v = target(board, x, p);
    if exists|j: int| is_first_place(board, v, j) {
        let c = choose|j: int| is_first_place(board, v, j);
        assert(board[c].c2 != v);
    }
}

/// Reads the recipient of the player with the given secret off the list:
/// the first place, counted from one, whose second half is the list's shared
/// first half raised to the secret. `None` where no entry is hers, and on an
/// empty list.
pub fn find_recipient(board: &Vec<Token>, secret: &Number, params: &GroupParams) -> (r: Option<
    usize,
>)
    ensures
        r matches Some(id) ==> recipient(ciphers(board@), secret@, params.modulus()) == Some(
            id as nat,
        ),
        r is None ==> recipient(ciphers(board@), secret@, params.modulus()) is None,
{
    let n: usize = board.len();
    let ghost cs = ciphers(board@);
    let ghost p = params.modulus();
    if n == 0 {
        proof {
            lemma_recipient_absent(cs, secret@, p);
        }
        return None;
    }
    let wanted = power_mod(&board[0].c1, secret, params.p());
    assert(wanted@ == target(cs, secret@, p));
    let mut j: usize = 0;
    while j < n
        invariant
            n == board@.len(),
            cs == ciphers(board@),
            p == params.modulus(),
            j <= n,
            wanted@ == target(cs, secret@, p),
            forall|k: int| 0 <= k < j ==> (#[trigger] cs[k]).c2 != wanted@,
        decreases n - j,
    {
        if board[j].c2.equals(&wanted) {
            proof {
                assert(cs[j as int].c2 == wanted@);
                lemma_recipient_is_first_place(cs, secret@, p, j as int);
            }
            return Some(j + 1);
        }
        j = j + 1;
    }
    proof {
        lemma_recipient_absent(cs, secret@, p);
    }
    None
}

/// The secrets of a list of key pairs.
pub open spec fn secrets_of(keys: Seq<KeyPair>) -> Seq<nat> {
    keys.map_values(|k: KeyPair| k.secret@)
}

/// Whether the player at place `i` brings the pass down: she finds no entry
/// of hers, or finds it at her own place.
pub open spec fn spoils(board: Seq<Cipher>, secrets: Seq<nat>, p: nat, i: int) -> bool {
    recipient(board, secrets[i], p) is None || recipient(board, secrets[i], p) == Some(
        (i + 1) as nat,
    )
}

/// Whether no player brings the pass down.
pub open spec fn nobody_spoils(board: Seq<Cipher>, secrets: Seq<nat>, p: nat) -> bool {
    forall|i: int| 0 <= i < secrets.len() ==> !#[trigger] spoils(board, secrets, p, i)
}

/// Whether `gives_to` is what the players read off the list, none of them
/// finding herself.
pub open spec fn is_reading(
    board: Seq<Cipher>,
    secrets: Seq<nat>,
    p: nat,
    gives_to: Seq<usize>,
) -> bool {
    &&& gives_to.len() == secrets.len()
    &&& forall|i: int|
        0 <= i < secrets.len() ==> recipient(board, #[trigger] secrets[i], p) == Some(
            gives_to[i] as nat,
        ) && gives_to[i] != i + 1
}

/// Whether the pass fails with `e`: the first player who brings it down
/// either finds no entry of hers (`TokenMissing`) or finds herself
/// (`SelfAssignment`).
pub open spec fn fails_with(
    board: Seq<Cipher>,
    secrets: Seq<nat>,
    p: nat,
    e: AttemptError,
) -> bool {
    exists|i: int|
        {
            &&& 0 <= i < secrets.len()
            &&& #[trigger] spoils(board, secrets, p, i)
            &&& forall|k: int| 0 <= k < i ==> !#[trigger] spoils(board, secrets, p, k)
            &&& e == if recipient(board, secrets[i], p) is None {
                AttemptError::Crypto(CryptoFailure::TokenMissing)
            } else {
                AttemptError::SelfAssignment
            }
        }
}

/// Lets every player, in the players' order, read her recipient off the
/// list. The pass is void as soon as one of them finds herself, and fails
/// where one of them finds no entry of hers; otherwise the result names each
/// player's recipient, in the players' order.
pub fn read_assignments(board: &Vec<Token>, keys: &Vec<KeyPair>, params: &GroupParams) -> (r:
    Result<Vec<usize>, AttemptError>)
    ensures
        r is Ok <==> nobody_spoils(ciphers(board@), secrets_of(keys@), params.modulus()),
        r matches Ok(gives_to) ==> is_reading(
            ciphers(board@),
            secrets_of(keys@),
            params.modulus(),
            gives_to@,
        ),
        r matches Err(e) ==> fails_with(ciphers(board@), secrets_of(keys@), params.modulus(), e),
{
    let n: usize = keys.len();
    let ghost cs = ciphers(board@);
    let ghost xs = secrets_of(keys@);
    let ghost p = params.modulus();
    let mut gives_to: Vec<usize> = Vec::new();
    let mut i: usize = 0;
    while i < n
        invariant
            n == keys@.len(),
            cs == ciphers(board@),
            xs == secrets_of(keys@),
            p == params.modulus(),
            i <= n,
            gives_to@.len() == i,
            forall|k: int|
                0 <= k < i ==> recipient(cs, #[trigger] xs[k], p) == Some(gives_to@[k] as nat)
                    && gives_to@[k] != k + 1,
            forall|k: int| 0 <= k < i ==> !#[trigger] spoils(cs, xs, p, k),
        decreases n - i,
    {
        assert(xs[i as int] == keys@[i as int].secret@);
        match find_recipient(board, &keys[i].secret, params) {
            None => {
                assert(spoils(cs, xs, p, i as int));
                return Err(AttemptError::Crypto(CryptoFailure::TokenMissing));
            },
            Some(id) => {
                if id == i + 1 {
                    assert(spoils(cs, xs, p, i as int));
                    return Err(AttemptError::SelfAssignment);
                }
                gives_to.push(id);
            },
        }
        i = i + 1;
    }
    Ok(gives_to)
}

} // verus!
