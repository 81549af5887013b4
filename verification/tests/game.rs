use secret_santa::attempt::{deal_keys, draw_within, run_attempt};
use secret_santa::error::{AttemptError, ConfigError};
use secret_santa::extract::read_assignments;
use secret_santa::group::GroupParams;
use secret_santa::number::Number;
use secret_santa::santa::SecretSanta;

// The prime of the 2048-bit finite-field group "ffdhe2048"; its generator
// is 2 and the order of the subgroup is (p - 1) / 2.
const FFDHE2048_P: &str = "FFFFFFFFFFFFFFFFADF85458A2BB4A9AAFDC5620273D3CF1D8B9C583CE2D3695A9E13641146433FBCC939DCE249B3EF97D2FE363630C75D8F681B202AEC4617AD3DF1ED5D5FD65612433F51F5F066ED0856365553DED1AF3B557135E7F57C935984F0C70E0E68B77E2A689DAF3EFE8721DF158A136ADE73530ACCA4F483A797ABC0AB182B324FB61D108A94BB2C8E3FBB96ADAB760D7F4681D4F42A3DE394DF4AE56EDE76372BB190B07A7C8EE0A6D709E02FCE1CDF7E2ECC03404CD28342F619172FE9CE98583FF8E4F1232EEF28183C3FE3B1B4C6FAD733BB5FCBC2EC22005C58EF1837D1683B2C6F34A26C1B2EFFA886B423861285C97FFFFFFFFFFFFFFFF";
const FFDHE2048_Q: &str = "7FFFFFFFFFFFFFFFD6FC2A2C515DA54D57EE2B10139E9E78EC5CE2C1E7169B4AD4F09B208A3219FDE649CEE7124D9F7CBE97F1B1B1863AEC7B40D901576230BD69EF8F6AEAFEB2B09219FA8FAF83376842B1B2AA9EF68D79DAAB89AF3FABE49ACC278638707345BBF15344ED79F7F4390EF8AC509B56F39A98566527A41D3CBD5E0558C159927DB0E88454A5D96471FDDCB56D5BB06BFA340EA7A151EF1CA6FA572B76F3B1B95D8C8583D3E4770536B84F017E70E6FBF176601A0266941A17B0C8B97F4E74C2C1FFC7278919777940C1E1FF1D8DA637D6B99DDAFE5E17611002E2C778C1BE8B41D96379A51360D977FD4435A11C30942E4BFFFFFFFFFFFFFFFF";

fn from_hex(s: &str) -> Number {
    let digits: Vec<u8> = s.bytes().map(|c| (c as char).to_digit(16).unwrap() as u8).collect();
    let mut bytes: Vec<u8> = Vec::new();
    let mut i = digits.len() % 2;
    if i == 1 {
        bytes.push(digits[0]);
    }
    while i < digits.len() {
        bytes.push(digits[i] * 16 + digits[i + 1]);
        i += 2;
    }
    Number::from_bytes(&bytes)
}

fn big_group() -> GroupParams {
    let p = from_hex(FFDHE2048_P);
    let q = from_hex(FFDHE2048_Q);
    GroupParams::new(p, q, Number::from_bytes(&[2])).unwrap()
}

// The integers modulo the prime 2^127 - 1, with the generator 3: small
// enough for many games, large enough that no two entries ever look alike.
fn fast_group() -> GroupParams {
    let p = from_hex("7FFFFFFFFFFFFFFFFFFFFFFFFFFFFFFF");
    let q = from_hex("3FFFFFFFFFFFFFFFFFFFFFFFFFFFFFFF");
    GroupParams::new(p, q, Number::from_bytes(&[3])).unwrap()
}

fn play(n: usize, params: GroupParams) -> SecretSanta {
    let mut game = SecretSanta::new(n, params).unwrap();
    let mut passes = 0;
    while !game.assign(1) {
        assert!(!game.is_done());
        assert!(game.draw().is_none());
        assert_eq!(game.mapping(), None);
        for id in 0..n + 2 {
            assert_eq!(game.gives_to(id), None);
        }
        passes += 1;
        assert!(passes < 10_000);
    }
    game
}

fn is_derangement(m: &[usize]) -> bool {
    let n = m.len();
    let mut seen = vec![false; n];
    for (i, &to) in m.iter().enumerate() {
        if to < 1 || to > n || to == i + 1 || seen[to - 1] {
            return false;
        }
        seen[to - 1] = true;
    }
    true
}

#[test]
fn new_refuses_fewer_than_two_players() {
    assert_eq!(SecretSanta::new(0, fast_group()).err(), Some(ConfigError::TooFewPlayers));
    assert_eq!(SecretSanta::new(1, fast_group()).err(), Some(ConfigError::TooFewPlayers));
    assert!(SecretSanta::new(2, fast_group()).is_ok());
}

#[test]
fn new_game_is_running() {
    let game = SecretSanta::new(10, fast_group()).unwrap();
    assert_eq!(game.n_players(), 10);
    assert!(!game.is_done());
    assert!(game.draw().is_none());
    assert_eq!(game.mapping(), None);
    assert_eq!(game.gives_to(1), None);
}

#[test]
fn no_attempts_change_nothing() {
    let mut game = SecretSanta::new(4, fast_group()).unwrap();
    assert!(!game.assign(0));
    assert!(!game.is_done());
    assert!(game.draw().is_none());
    assert_eq!(game.mapping(), None);
}

#[test]
fn two_players_always_swap() {
    for _ in 0..10 {
        let game = play(2, big_group());
        assert_eq!(game.mapping(), Some(vec![2, 1]));
        assert_eq!(game.gives_to(1), Some(2));
        assert_eq!(game.gives_to(2), Some(1));
    }
    for _ in 0..200 {
        assert_eq!(play(2, fast_group()).mapping(), Some(vec![2, 1]));
    }
}

#[test]
fn three_players_always_cycle() {
    for _ in 0..5 {
        let m = play(3, big_group()).mapping().unwrap();
        assert!(m == vec![2, 3, 1] || m == vec![3, 1, 2]);
    }
    for _ in 0..200 {
        let m = play(3, fast_group()).mapping().unwrap();
        assert!(m == vec![2, 3, 1] || m == vec![3, 1, 2]);
    }
}

#[test]
fn both_three_cycles_occur_about_equally() {
    let mut forward = 0;
    let mut backward = 0;
    for _ in 0..400 {
        let m = play(3, fast_group()).mapping().unwrap();
        if m == vec![2, 3, 1] {
            forward += 1;
        } else {
            assert_eq!(m, vec![3, 1, 2]);
            backward += 1;
        }
    }
    // 200 each are expected, with a standard deviation of 10
    assert!(forward >= 120);
    assert!(backward >= 120);
}

#[test]
fn all_nine_derangements_of_four_occur() {
    let mut seen: Vec<Vec<usize>> = Vec::new();
    for _ in 0..600 {
        let m = play(4, fast_group()).mapping().unwrap();
        assert!(is_derangement(&m));
        if !seen.contains(&m) {
            seen.push(m);
        }
    }
    assert_eq!(seen.len(), 9);
}

#[test]
fn accepted_draw_is_a_derangement() {
    for n in 2..8 {
        let game = play(n, big_group());
        let m = game.mapping().unwrap();
        assert_eq!(m.len(), n);
        assert!(is_derangement(&m));
    }
    for n in 2..30 {
        let m = play(n, fast_group()).mapping().unwrap();
        assert_eq!(m.len(), n);
        assert!(is_derangement(&m));
    }
}

#[test]
fn each_player_learns_her_own_edge() {
    let game = play(6, fast_group());
    let m = game.mapping().unwrap();
    assert_eq!(game.gives_to(0), None);
    assert_eq!(game.gives_to(7), None);
    for id in 1..=6 {
        assert_eq!(game.gives_to(id), Some(m[id - 1]));
        assert_ne!(game.gives_to(id), Some(id));
    }
}

#[test]
fn done_game_stays_as_it_is() {
    let mut game = play(5, fast_group());
    let m = game.mapping().unwrap();
    let board: Vec<Vec<u8>> = game.draw().unwrap().board.iter().map(|t| t.c2.to_bytes()).collect();
    assert!(game.assign(3));
    assert!(game.assign(0));
    assert!(game.is_done());
    assert_eq!(game.mapping(), Some(m));
    let after: Vec<Vec<u8>> = game.draw().unwrap().board.iter().map(|t| t.c2.to_bytes()).collect();
    assert_eq!(after, board);
}

#[test]
fn draw_can_be_read_again() {
    let params = fast_group();
    let game = play(7, fast_group());
    let d = game.draw().unwrap();
    assert_eq!(d.keys.len(), 7);
    assert_eq!(d.board.len(), 7);
    assert_eq!(read_assignments(&d.board, &d.keys, &params), Ok(d.gives_to.clone()));
    // every entry has the same first half, and no two the same second half
    for t in &d.board {
        assert!(t.c1.equals(&d.board[0].c1));
    }
    for i in 0..7 {
        for k in 0..i {
            assert!(!d.board[i].c2.equals(&d.board[k].c2));
        }
    }
    // every key pair belongs to the group
    for k in &d.keys {
        let h = secret_santa::arith::mod_pow(params.g(), &k.secret, params.p()).unwrap();
        assert!(h.equals(&k.public));
    }
}

#[test]
fn a_pass_is_void_only_for_self_assignment() {
    let params = fast_group();
    let mut void = 0;
    let mut good = 0;
    for _ in 0..300 {
        match run_attempt(&params, 3) {
            Ok(d) => {
                assert_eq!(d.keys.len(), 3);
                assert_eq!(d.board.len(), 3);
                assert!(is_derangement(&d.gives_to));
                good += 1;
            }
            Err(e) => {
                assert_eq!(e, AttemptError::SelfAssignment);
                void += 1;
            }
        }
    }
    // a third of the permutations of three players are derangements
    assert!(good >= 40);
    assert!(void >= 120);
}

#[test]
fn a_pass_for_nobody_is_empty() {
    let d = run_attempt(&fast_group(), 0).unwrap();
    assert!(d.keys.is_empty());
    assert!(d.board.is_empty());
    assert!(d.gives_to.is_empty());
}

#[test]
fn a_pass_for_one_player_is_always_void() {
    for _ in 0..20 {
        assert_eq!(run_attempt(&fast_group(), 1).err(), Some(AttemptError::SelfAssignment));
    }
}

#[test]
fn draw_within_no_attempts_is_nothing() {
    assert!(draw_within(&fast_group(), 3, 0).is_none());
}

#[test]
fn draw_within_for_nobody_is_empty() {
    let d = draw_within(&fast_group(), 0, 1).unwrap();
    assert!(d.keys.is_empty());
    assert!(d.board.is_empty());
    assert!(d.gives_to.is_empty());
}

#[test]
fn draw_within_gives_up_for_one_player() {
    assert!(draw_within(&fast_group(), 1, 25).is_none());
}

#[test]
fn deal_keys_gives_each_player_a_pair() {
    let params = fast_group();
    let keys = deal_keys(&params, 5);
    assert_eq!(keys.len(), 5);
    for i in 0..5 {
        for k in 0..i {
            assert!(!keys[i].secret.equals(&keys[k].secret));
        }
    }
    assert!(deal_keys(&params, 0).is_empty());
}
