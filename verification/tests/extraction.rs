use secret_santa::error::{AttemptError, CryptoFailure};
use secret_santa::extract::{find_recipient, read_assignments};
use secret_santa::group::{GroupParams, KeyPair};
use secret_santa::number::Number;
use secret_santa::token::Token;

fn nb(v: u64) -> Number {
    Number::from_bytes(&v.to_be_bytes())
}

fn tk(c1: u64, c2: u64) -> Token {
    Token { c1: nb(c1), c2: nb(c2) }
}

fn group23() -> GroupParams {
    GroupParams::new(nb(23), nb(11), nb(4)).unwrap()
}

// Secrets 3, 5 and 7: public keys 18, 12 and 8. Blinded with the exponent
// two, the three opening entries are (16, 2), (16, 6) and (16, 18).
fn three_keys(g: &GroupParams) -> Vec<KeyPair> {
    vec![
        KeyPair::from_secret(g, nb(3)),
        KeyPair::from_secret(g, nb(5)),
        KeyPair::from_secret(g, nb(7)),
    ]
}

#[test]
fn player_finds_her_entry_at_its_new_place() {
    let g = group23();
    let board = vec![tk(16, 6), tk(16, 18), tk(16, 2)];
    assert_eq!(find_recipient(&board, &nb(3), &g), Some(3));
    assert_eq!(find_recipient(&board, &nb(5), &g), Some(1));
    assert_eq!(find_recipient(&board, &nb(7), &g), Some(2));
}

#[test]
fn player_without_entry_finds_nothing() {
    let g = group23();
    let board = vec![tk(16, 6), tk(16, 18), tk(16, 2)];
    // 16^2 = 3 modulo 23 is no entry's second half
    assert_eq!(find_recipient(&board, &nb(2), &g), None);
}

#[test]
fn nothing_is_found_on_an_empty_list() {
    let g = group23();
    assert_eq!(find_recipient(&Vec::new(), &nb(3), &g), None);
}

#[test]
fn first_of_two_equal_entries_is_found() {
    let g = group23();
    let board = vec![tk(16, 18), tk(16, 2), tk(16, 2)];
    assert_eq!(find_recipient(&board, &nb(3), &g), Some(2));
}

#[test]
fn target_comes_from_the_first_entry() {
    let g = group23();
    // first halves differ: the one at the front counts, 4^3 = 18
    let board = vec![tk(4, 1), tk(16, 2), tk(16, 18)];
    assert_eq!(find_recipient(&board, &nb(3), &g), Some(3));
}

#[test]
fn readings_of_a_three_cycle() {
    let g = group23();
    let keys = three_keys(&g);
    let board = vec![tk(16, 6), tk(16, 18), tk(16, 2)];
    assert_eq!(read_assignments(&board, &keys, &g), Ok(vec![3, 1, 2]));
    let other = vec![tk(16, 18), tk(16, 2), tk(16, 6)];
    assert_eq!(read_assignments(&other, &keys, &g), Ok(vec![2, 3, 1]));
}

#[test]
fn identity_is_void() {
    let g = group23();
    let keys = three_keys(&g);
    let board = vec![tk(16, 2), tk(16, 6), tk(16, 18)];
    assert_eq!(read_assignments(&board, &keys, &g), Err(AttemptError::SelfAssignment));
}

#[test]
fn transposition_with_fixed_point_is_void() {
    let g = group23();
    let keys = three_keys(&g);
    // players one and two swap, player three finds herself
    let board = vec![tk(16, 6), tk(16, 2), tk(16, 18)];
    assert_eq!(read_assignments(&board, &keys, &g), Err(AttemptError::SelfAssignment));
    // player one finds herself, the others swap
    let board = vec![tk(16, 2), tk(16, 18), tk(16, 6)];
    assert_eq!(read_assignments(&board, &keys, &g), Err(AttemptError::SelfAssignment));
}

#[test]
fn missing_entry_fails() {
    let g = group23();
    let keys = three_keys(&g);
    let board = vec![tk(16, 6), tk(16, 18), tk(16, 5)];
    assert_eq!(
        read_assignments(&board, &keys, &g),
        Err(AttemptError::Crypto(CryptoFailure::TokenMissing))
    );
}

#[test]
fn first_spoiler_decides() {
    let g = group23();
    let keys = three_keys(&g);
    // player one finds herself before player two misses her entry
    let board = vec![tk(16, 2), tk(16, 5), tk(16, 18)];
    assert_eq!(read_assignments(&board, &keys, &g), Err(AttemptError::SelfAssignment));
    // player one misses her entry before player two finds herself
    let board = vec![tk(16, 5), tk(16, 6), tk(16, 18)];
    assert_eq!(
        read_assignments(&board, &keys, &g),
        Err(AttemptError::Crypto(CryptoFailure::TokenMissing))
    );
}

#[test]
fn swap_of_two() {
    let g = group23();
    let keys = vec![KeyPair::from_secret(&g, nb(3)), KeyPair::from_secret(&g, nb(5))];
    assert_eq!(read_assignments(&vec![tk(16, 6), tk(16, 2)], &keys, &g), Ok(vec![2, 1]));
    assert_eq!(
        read_assignments(&vec![tk(16, 2), tk(16, 6)], &keys, &g),
        Err(AttemptError::SelfAssignment)
    );
}

#[test]
fn equal_keys_give_equal_readings() {
    // Two players with the same secret find the same entry: what is read
    // off is then no permutation, though nobody finds herself.
    let g = group23();
    let keys = vec![
        KeyPair::from_secret(&g, nb(3)),
        KeyPair::from_secret(&g, nb(5)),
        KeyPair::from_secret(&g, nb(5)),
    ];
    let board = vec![tk(16, 6), tk(16, 6), tk(16, 2)];
    assert_eq!(read_assignments(&board, &keys, &g), Ok(vec![3, 1, 1]));
}

#[test]
fn nobody_reads_nothing() {
    let g = group23();
    assert_eq!(read_assignments(&vec![tk(16, 2)], &Vec::new(), &g), Ok(Vec::new()));
}
