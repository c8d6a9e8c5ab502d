use stellar_poker::host::{Address, Bytes32};
use stellar_poker::player_rating::{apply_delta, elo_delta, PlayerRatingContract, RatingError};

fn account(n: u64) -> Address {
    Address::Account(Bytes32 { w0: n, w1: 1, w2: 2, w3: 3 })
}

fn setup() -> (Address, PlayerRatingContract) {
    let mut c = PlayerRatingContract::new();
    let admin = account(1);
    c.initialize(admin, 10, 32, 1500).unwrap();
    (admin, c)
}

#[test]
fn initialize_and_default_rating() {
    let (_admin, c) = setup();
    let r = c.get_rating(account(5)).unwrap();
    assert_eq!(r.rating, 1500);
    assert_eq!(r.hands_played, 0);
}

#[test]
fn record_hand_updates_elo_and_counts() {
    let (admin, mut c) = setup();
    let (a, b) = (account(2), account(3));
    c.record_hand(admin, &vec![a, b], 0, 7).unwrap();
    let ra = c.get_rating(a).unwrap();
    let rb = c.get_rating(b).unwrap();
    assert_eq!(ra.hands_played, 1);
    assert_eq!(ra.hands_won, 1);
    assert_eq!(rb.hands_played, 1);
    assert_eq!(rb.hands_won, 0);
    assert!(ra.rating > 1500);
    assert!(rb.rating < 1500);
}

#[test]
fn min_hands_gates_leaderboard() {
    let (admin, mut c) = setup();
    let (a, b) = (account(2), account(3));
    for _ in 0..9 {
        c.record_hand(admin, &vec![a, b], 0, 0).unwrap();
    }
    assert_eq!(c.leaderboard_size(), Ok(0));
    c.record_hand(admin, &vec![a, b], 0, 0).unwrap();
    assert_eq!(c.leaderboard_size(), Ok(2));

    let board = c.get_leaderboard(0, 10).unwrap();
    assert_eq!(board.len(), 2);
    assert_eq!(board[0].address, a);
    assert!(board[0].rating >= board[1].rating);
}

#[test]
fn unauthorized_recorder_rejected() {
    let (_admin, mut c) = setup();
    let result = c.record_hand(account(8), &vec![account(2), account(3)], 0, 0);
    assert!(result.is_err());
    assert_eq!(result, Err(RatingError::Unauthorized));
}

#[test]
fn authorized_recorder_can_update() {
    let (admin, mut c) = setup();
    let recorder = account(7);
    c.add_recorder(admin, recorder).unwrap();
    let a = account(2);
    c.record_hand(recorder, &vec![a, account(3)], 0, 0).unwrap();
    assert_eq!(c.get_rating(a).unwrap().hands_played, 1);
}

#[test]
fn set_config_and_pause() {
    let (admin, mut c) = setup();
    c.set_config(admin, 5, 24).unwrap();
    let cfg = c.get_config().unwrap();
    assert_eq!(cfg.min_hands, 5);
    assert_eq!(cfg.k_factor, 24);

    c.pause(admin).unwrap();
    let parts = vec![account(2), account(3)];
    assert!(c.record_hand(admin, &parts, 0, 0).is_err());

    c.unpause(admin).unwrap();
    assert!(c.record_hand(admin, &parts, 0, 0).is_ok());
}

#[test]
fn even_match_moves_half_of_k() {
    assert_eq!(elo_delta(1500, 1500, true, 32), 16);
    assert_eq!(elo_delta(1500, 1500, false, 32), -16);
    assert_eq!(apply_delta(110, -50), 100);
    assert_eq!(apply_delta(3990, 50), 4000);
    assert_eq!(apply_delta(1500, 16), 1516);
}

#[test]
fn rating_requests_are_checked() {
    let (admin, mut c) = setup();
    assert_eq!(
        c.initialize(admin, 10, 32, 1500),
        Err(RatingError::AlreadyInitialized)
    );
    assert_eq!(c.record_hand(admin, &Vec::new(), 0, 0), Err(RatingError::EmptyResults));
    assert_eq!(c.get_leaderboard(0, 51), Err(RatingError::LimitTooLarge));
    c.remove_recorder(admin, admin).unwrap();
    assert_eq!(
        PlayerRatingContract::new().get_config(),
        Err(RatingError::NotInitialized)
    );
}

#[test]
fn board_holds_only_players_with_enough_hands() {
    let (admin, mut c) = setup();
    let (a, b, d) = (account(2), account(3), account(4));
    for _ in 0..10 {
        c.record_hand(admin, &vec![a, b], 0, 0).unwrap();
    }
    for _ in 0..5 {
        c.record_hand(admin, &vec![a, d], 0, 0).unwrap();
    }
    assert_eq!(c.leaderboard_size(), Ok(2));
    c.set_config(admin, 12, 32).unwrap();
    let board = c.get_leaderboard(0, 10).unwrap();
    assert_eq!(board.len(), 1);
    assert_eq!(board[0].address, a);
    assert_eq!(board[0].hands_played, 15);
    assert_eq!(c.get_rating(b).unwrap().hands_played, 10);
    assert_eq!(c.set_config(admin, 1, 0), Err(RatingError::InvalidConfig));
    c.set_config(admin, 6, 32).unwrap();
    c.record_hand(admin, &vec![b, d], 1, 0).unwrap();
    assert_eq!(c.leaderboard_size(), Ok(3));
}
