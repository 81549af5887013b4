//! The list that is handed round, and one player's turn on it.
//!
//! A turn shuffles the list and blinds every entry with one exponent. What a
//! turn does to the places is open; what it does to the entries is not: the
//! list after the turn holds exactly the blinded entries of the list before.

use crate::arith::{lemma_mod_exp_one_small, lemma_mod_exp_bound, random_below};
use crate::group::{GroupParams, KeyPair};
use crate::number::Number;
use crate::token::{blind, encrypt_one, encryption, lemma_blind_twice, rerandomise, Cipher, Token};
use rand::seq::SliceRandom;
use vstd::prelude::*;
use vstd::seq_lib::{to_multiset_build, to_multiset_contains, to_multiset_len, to_multiset_remove};

verus! {

/// The ciphertexts that a list of tokens stands for, place by place.
pub open spec fn ciphers(tokens: Seq<Token>) -> Seq<Cipher> {
    tokens.map_values(|t: Token| t@)
}

/// Every entry of `cs` blinded with the exponent `y`.
pub open spec fn blind_all(cs: Seq<Cipher>, y: nat, p: nat) -> Seq<Cipher> {
    cs.map_values(|c: Cipher| blind(c, y, p))
}

/// Whether `after` holds the entries of `before`, each blinded with `y`, in
/// some order.
pub open spec fn is_mix_of(after: Seq<Cipher>, before: Seq<Cipher>, y: nat, p: nat) -> bool {
    after.to_multiset() == blind_all(before, y, p).to_multiset()
}

/// The list that a draw starts from: for each public key, in the players'
/// order, the plaintext one encrypted with the randomness one.
pub open spec fn opening(g: nat, publics: Seq<nat>, p: nat) -> Seq<Cipher> {
    publics.map_values(|h: nat| encryption(g, h, 1, p))
}

/// The public keys of a list of key pairs.
pub open spec fn publics_of(keys: Seq<KeyPair>) -> Seq<nat> {
    keys.map_values(|k: KeyPair| k.public@)
}

/// Two lists with the same entries still have the same entries after one
/// function was applied to every entry of both.
pub proof fn lemma_map_keeps_entries<A, B>(a: Seq<A>, b: Seq<A>, f: spec_fn(A) -> B)
    requires
        a.to_multiset() == b.to_multiset(),
    ensures
        a.map_values(f).to_multiset() == b.map_values(f).to_multiset(),
    decreases a.len(),
{
    broadcast use vstd::multiset::group_multiset_axioms;

    to_multiset_len(a);
    to_multiset_len(b);
    if a.len() == 0 {
        assert(a.map_values(f) =~= b.map_values(f));
    } else {
        let x = a.last();
        let a1 = a.drop_last();
        assert(a =~= a1.push(x));
        to_multiset_build(a1, x);
        to_multiset_contains(b, x);
        let k = choose|k: int| 0 <= k < b.len() && b[k] == x;
        let b1 = b.remove(k);
        to_multiset_remove(b, k);
        assert(a1.to_multiset() =~= b1.to_multiset());
        lemma_map_keeps_entries(a1, b1, f);
        let fa = a.map_values(f);
        let fb = b.map_values(f);
        assert(fa =~= a1.map_values(f).push(f(x)));
        to_multiset_build(a1.map_values(f), f(x));
        assert(fb.remove(k) =~= b1.map_values(f));
        to_multiset_remove(fb, k);
        assert(fb[k] == f(x));
        to_multiset_contains(fb, f(x));
        assert(fb.to_multiset() =~= fb.remove(k).to_multiset().insert(f(x)));
        assert(fa.to_multiset() =~= fb.to_multiset());
    }
}

/// Blinding a whole list with `y1` and then with `y2` is blinding it with
/// `y1 * y2`.
pub proof fn lemma_blind_all_twice(cs: Seq<Cipher>, y1: nat, y2: nat, p: nat)
    requires
        p > 0,
    ensures
        blind_all(blind_all(cs, y1, p), y2, p) == blind_all(cs, y1 * y2, p),
{
    assert forall|i: int| 0 <= i < cs.len() implies blind(blind(cs[i], y1, p), y2, p) == blind(
        cs[i],
        y1 * y2,
        p,
    ) by {
        lemma_blind_twice(cs[i], y1, y2, p);
    }
    assert(blind_all(blind_all(cs, y1, p), y2, p) =~= blind_all(cs, y1 * y2, p));
}

/// Two turns in a row are one turn with the product of the exponents.
pub proof fn lemma_mix_of_mix(
    first: Seq<Cipher>,
    second: Seq<Cipher>,
    third: Seq<Cipher>,
    y1: nat,
    y2: nat,
    p: nat,
)
    requires
        p > 0,
        is_mix_of(second, first, y1, p),
        is_mix_of(third, second, y2, p),
    ensures
        is_mix_of(third, first, y1 * y2, p),
{
    lemma_map_keeps_entries(second, blind_all(first, y1, p), |c: Cipher| blind(c, y2, p));
    lemma_blind_all_twice(first, y1, y2, p);
}

/// The opening list is a turn of itself with the exponent one: nothing has
/// been moved and nothing blinded yet.
pub proof fn lemma_opening_is_mix(g: nat, publics: Seq<nat>, p: nat)
    requires
        p > 0,
    ensures
        is_mix_of(opening(g, publics, p), opening(g, publics, p), 1, p),
{
    let o = opening(g, publics, p);
    assert forall|i: int| 0 <= i < o.len() implies blind(o[i], 1, p) == o[i] by {
        lemma_mod_exp_bound(g, 1, p);
        lemma_mod_exp_bound(publics[i], 1, p);
        lemma_mod_exp_one_small(o[i].c1, p);
        lemma_mod_exp_one_small(o[i].c2, p);
    }
    assert(blind_all(o, 1, p) =~= o);
}

/// Calls `SliceRandom::shuffle` of rand on the list, with the generator that
/// `rand::thread_rng` hands out. Taken on trust: the shuffle only swaps
/// entries, so the list holds the same entries afterwards, each as often as
/// before. Where each of them lands is left open.
#[verifier::external_body]
fn shuffle_tokens(tokens: &mut Vec<Token>)
    ensures
        final(tokens)@.to_multiset() == old(tokens)@.to_multiset(),
{
    tokens.shuffle(&mut rand::thread_rng());
}

/// The list that a draw starts from: each player's public key, encrypted as
/// the plaintext one with the randomness one, in the players' order.
pub fn opening_tokens(params: &GroupParams, keys: &Vec<KeyPair>) -> (r: Vec<Token>)
    ensures
        ciphers(r@) == opening(params.generator(), publics_of(keys@), params.modulus()),
{
    let one = Number::one();
    let n: usize = keys.len();
    let mut out: Vec<Token> = Vec::new();
    let mut i: usize = 0;
    while i < n
        invariant
            n == keys@.len(),
            i <= n,
            one@ == 1,
            out@.len() == i,
            forall|k: int|
                0 <= k < i ==> (#[trigger] out@[k])@ == encryption(
                    params.generator(),
                    keys@[k].public@,
                    1,
                    params.modulus(),
                ),
        decreases n - i,
    {
        let t = encrypt_one(params, &keys[i].public, &one);
        out.push(t);
        i = i + 1;
    }
    assert(ciphers(out@) =~= opening(
        params.generator(),
        publics_of(keys@),
        params.modulus(),
    ));
    out
}

/// Blinds every entry of the list with the exponent `y`, leaving each in its
/// place.
pub fn rerandomise_all(tokens: &Vec<Token>, y: &Number, params: &GroupParams) -> (r: Vec<Token>)
    ensures
        ciphers(r@) == blind_all(ciphers(tokens@), y@, params.modulus()),
{
    let n: usize = tokens.len();
    let mut out: Vec<Token> = Vec::new();
    let mut i: usize = 0;
    while i < n
        invariant
            n == tokens@.len(),
            i <= n,
            out@.len() == i,
            forall|k: int|
                0 <= k < i ==> (#[trigger] out@[k])@ == blind(
                    tokens@[k]@,
                    y@,
                    params.modulus(),
                ),
        decreases n - i,
    {
        let t = rerandomise(&tokens[i], y, params);
        out.push(t);
        i = i + 1;
    }
    assert(ciphers(out@) =~= blind_all(ciphers(tokens@), y@, params.modulus()));
    out
}

/// One player's turn: she draws an exponent below the order `q`, shuffles
/// the list, and blinds every entry with that exponent. The list keeps its
/// length, and holds afterwards the entries it held before, each blinded
/// with the one exponent.
///
/// The turns are taken one after the other, each on the whole list that
/// the turn before left. Nothing here shows the other players that the
/// shuffle was a random one.
pub fn shuffle_round(tokens: &mut Vec<Token>, params: &GroupParams)
    ensures
        final(tokens)@.len() == old(tokens)@.len(),
        exists|y: nat|
            y < params.order() && #[trigger] is_mix_of(
                ciphers(final(tokens)@),
                ciphers(old(tokens)@),
                y,
                params.modulus(),
            ),
{
    let ghost before = tokens@;
    let y = random_below(params.q());
    shuffle_tokens(tokens);
    let ghost shuffled = tokens@;
    let blinded = rerandomise_all(tokens, &y, params);
    *tokens = blinded;
    proof {
        let p = params.modulus();
        lemma_map_keeps_entries(shuffled, before, |t: Token| t@);
        lemma_map_keeps_entries(ciphers(shuffled), ciphers(before), |c: Cipher| blind(c, y@, p));
        to_multiset_len(ciphers(tokens@));
        to_multiset_len(blind_all(ciphers(before), y@, p));
        assert(is_mix_of(ciphers(tokens@), ciphers(before), y@, p));
    }
}

} // verus!
