use soroban_sdk::testutils::EnvTestConfig;
use soroban_sdk::Env;
use stellar_poker::host::{Address, Bytes32};
use stellar_poker::jackpot_verifier::{
    JackpotConfig, JackpotError, JackpotHandData, JackpotType, JackpotVerifierContract,
};

fn env() -> Env {
    Env::new_with_config(EnvTestConfig { capture_snapshot_at_drop: false })
}

fn account(n: u64) -> Address {
    Address::Account(Bytes32 { w0: n, w1: 1, w2: 2, w3: 3 })
}

fn hand_data(category: u32, rank: u32, score: u32, is_losing: bool) -> JackpotHandData {
    JackpotHandData {
        claimant_seat: 0,
        opponent_seat: 1,
        hand_category: category,
        hand_rank: rank,
        kicker_rank: 0,
        board_cards: vec![0, 1, 2, 3, 4],
        hole_cards: vec![5, 6],
        hand_score: score,
        deck_root: Bytes32::splat(0x0101_0101_0101_0101),
        hand_commitment: Bytes32::splat(0x0202_0202_0202_0202),
        is_losing_hand: is_losing,
    }
}

fn public_inputs(hand: &JackpotHandData) -> Vec<u8> {
    let mut bytes = Vec::new();
    bytes.extend_from_slice(&[1u8; 32]);
    bytes.extend_from_slice(&[2u8; 32]);
    for val in [
        hand.hand_category,
        hand.hand_rank,
        hand.hand_score,
        hand.claimant_seat,
        hand.opponent_seat,
    ] {
        let mut field = [0u8; 32];
        field[28..32].copy_from_slice(&val.to_be_bytes());
        bytes.extend_from_slice(&field);
    }
    let mut field = [0u8; 32];
    field[31] = if hand.is_losing_hand { 1 } else { 0 };
    bytes.extend_from_slice(&field);
    for _ in 8..10 {
        bytes.extend_from_slice(&[0u8; 32]);
    }
    bytes
}

fn setup() -> (Env, JackpotVerifierContract, Address) {
    let mut c = JackpotVerifierContract::new();
    let admin = account(1);
    let config = JackpotConfig {
        min_bad_beat_category: 7,
        min_bad_beat_rank: 0,
        min_straight_flush_category: 8,
        royal_flush_enabled: true,
        min_hand_score: 0,
        verifier: None,
        jackpot_pool: 0,
    };
    c.initialize(admin, config).unwrap();
    (env(), c, admin)
}

#[test]
fn test_royal_flush_qualifies() {
    let (env, mut c, _admin) = setup();
    let hd = hand_data(9, 12, (9 << 28) | (12 << 4), false);
    let pi = public_inputs(&hd);
    let proof = Vec::new();
    let res = c.verify_jackpot(&env, &hd, &proof, &pi, JackpotType::RoyalFlush).unwrap();
    assert!(res.qualifies);
}

#[test]
fn test_bad_beat_requires_losing() {
    let (env, mut c, _admin) = setup();
    let score = (7 << 28) | (0 << 4);
    let hd_win = hand_data(7, 10, score, false);
    let pi = public_inputs(&hd_win);
    let proof = Vec::new();
    let res = c.verify_jackpot(&env, &hd_win, &proof, &pi, JackpotType::BadBeat).unwrap();
    assert!(!res.qualifies);
    let hd_lose = hand_data(7, 10, score, true);
    let pi2 = public_inputs(&hd_lose);
    let res2 = c.verify_jackpot(&env, &hd_lose, &proof, &pi2, JackpotType::BadBeat).unwrap();
    assert!(res2.qualifies);
}

#[test]
fn test_straight_flush_qualifies() {
    let (env, mut c, _admin) = setup();
    let hd = hand_data(8, 5, (8 << 28) | (5 << 4), false);
    let pi = public_inputs(&hd);
    let proof = Vec::new();
    let res = c
        .verify_jackpot(&env, &hd, &proof, &pi, JackpotType::StraightFlush)
        .unwrap();
    assert!(res.qualifies);
}

#[test]
fn public_inputs_must_bind_the_hand() {
    let (env, mut c, _admin) = setup();
    let hd = hand_data(9, 12, (9 << 28) | (12 << 4), false);
    let mut pi = public_inputs(&hd);
    pi[95] = 3;
    let proof = Vec::new();
    assert_eq!(
        c.verify_jackpot(&env, &hd, &proof, &pi, JackpotType::RoyalFlush),
        Err(JackpotError::VerificationFailed)
    );
    pi.push(0);
    assert_eq!(
        c.verify_jackpot(&env, &hd, &proof, &pi, JackpotType::RoyalFlush),
        Err(JackpotError::PublicInputSizeError)
    );
}

#[test]
fn jackpot_is_claimed_once_and_empties_the_pool() {
    let (env, mut c, _admin) = setup();
    assert_eq!(c.fund_pool(900), Ok(900));
    assert_eq!(c.fund_pool(0), Err(JackpotError::HandDataInvalid));
    let hd = hand_data(9, 12, (9 << 28) | (12 << 4), false);
    let pi = public_inputs(&hd);
    let proof = Vec::new();
    let paid = c.claim_jackpot(&env, account(4), 3, 8, &hd, &proof, &pi, JackpotType::RoyalFlush);
    assert!(paid.unwrap().qualifies);
    assert_eq!(c.get_pool(), 0);
    assert!(c.is_claimed(3, 8));
    let again = c.claim_jackpot(&env, account(4), 3, 8, &hd, &proof, &pi, JackpotType::RoyalFlush);
    assert_eq!(again, Err(JackpotError::AlreadyClaimed));
}

#[test]
fn jackpot_settings_are_the_admins() {
    let (env, mut c, admin) = setup();
    assert_eq!(c.set_paused(&env, account(8), true), Err(JackpotError::NotAdmin));
    c.set_paused(&env, admin, true).unwrap();
    let hd = hand_data(9, 12, (9 << 28) | (12 << 4), false);
    let pi = public_inputs(&hd);
    assert!(c
        .verify_jackpot(&env, &hd, &Vec::new(), &pi, JackpotType::RoyalFlush)
        .is_err());
}

#[test]
fn seats_and_losing_flag_are_bound() {
    let (env, mut c, _admin) = setup();
    let hd = hand_data(7, 10, (7 << 28) | (10 << 4), true);
    let proof = Vec::new();
    for at in [6 * 32 + 31, 7 * 32 + 31] {
        let mut pi = public_inputs(&hd);
        pi[at] ^= 1;
        assert_eq!(
            c.verify_jackpot(&env, &hd, &proof, &pi, JackpotType::BadBeat),
            Err(JackpotError::VerificationFailed)
        );
    }
    let pi = public_inputs(&hd);
    assert!(c.verify_jackpot(&env, &hd, &proof, &pi, JackpotType::BadBeat).unwrap().qualifies);
}

#[test]
fn scores_below_the_threshold_do_not_qualify() {
    let (env, mut c, _admin) = setup();
    let proof = Vec::new();
    for (category, kind) in [
        (8, JackpotType::StraightFlush),
        (7, JackpotType::FourOfAKind),
        (6, JackpotType::FullHouse),
        (5, JackpotType::Flush),
        (4, JackpotType::Straight),
    ] {
        let low = hand_data(category, 3, (category << 28) - 1, false);
        let pi = public_inputs(&low);
        assert!(!c.verify_jackpot(&env, &low, &proof, &pi, kind).unwrap().qualifies);
        let fit = hand_data(category, 3, category << 28, false);
        let pi = public_inputs(&fit);
        assert!(c.verify_jackpot(&env, &fit, &proof, &pi, kind).unwrap().qualifies);
    }
    let low = hand_data(9, 12, 9 << 28, false);
    let pi = public_inputs(&low);
    assert!(!c.verify_jackpot(&env, &low, &proof, &pi, JackpotType::RoyalFlush).unwrap().qualifies);
}
