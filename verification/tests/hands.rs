use soroban_sdk::testutils::EnvTestConfig;
use soroban_sdk::Env;
use stellar_poker::host::{Address, Bytes32, Party, Symbol};
use stellar_poker::poker_table::anti_cheat::{
    detect_chip_dumping, record_hand_outcome, ChipDumpingReason, PlayerInteractionStats,
};
use stellar_poker::poker_table::commit_reveal::{action_preimage, compute_action_hash};
use stellar_poker::poker_table::contract::dead_chips::reclaim_message;
use stellar_poker::poker_table::contract::jackpot::HandClaim;
use stellar_poker::poker_table::contract::PokerTableContract;
use stellar_poker::poker_table::hand_cancellation::CancellationReason;
use stellar_poker::poker_table::perm;
use stellar_poker::poker_table::run_it_twice::{compute_rit_board_indices, RitChoice};
use stellar_poker::poker_table::session::derive_session_id;
use stellar_poker::poker_table::showdown::extract_u32_from_public_inputs;
use stellar_poker::poker_table::types::{
    Action, BettingStructure, BlindsSchedule, GamePhase, PokerTableError, StraddlePosition,
    TableConfig, TimeBankConfig, VarianceConfig,
};

const TOKEN: Address = Address::Contract(Bytes32 { w0: 1, w1: 1, w2: 1, w3: 1 });
const ADMIN: Address = Address::Account(Bytes32 { w0: 2, w1: 2, w2: 2, w3: 2 });
const COMMITTEE: Address = Address::Account(Bytes32 { w0: 3, w1: 3, w2: 3, w3: 3 });
const HUB: Address = Address::Contract(Bytes32 { w0: 5, w1: 5, w2: 5, w3: 5 });
const TREASURY: Address = Address::Contract(Bytes32 { w0: 6, w1: 6, w2: 6, w3: 6 });

fn player(n: u64) -> Address {
    Address::Account(Bytes32 { w0: 100 + n, w1: n, w2: 0, w3: 9 })
}

fn env() -> Env {
    Env::new_with_config(EnvTestConfig { capture_snapshot_at_drop: false })
}

fn config() -> TableConfig {
    TableConfig {
        token: TOKEN,
        min_buy_in: 100,
        max_buy_in: 1000,
        betting_structure: BettingStructure::NoLimit,
        blinds_schedule: BlindsSchedule::fixed(5, 10),
        min_players: 2,
        max_players: 6,
        timeout_ledgers: 100,
        committee: COMMITTEE,
        verifier: HUB,
        game_hub: HUB,
        rake_bps: 500,
        max_rebuys: 0,
        jackpot_rake_share_bps: 5_000,
        min_bad_beat_category: 7,
        min_bad_beat_rank: 12,
        street_time_limit: None,
        treasury: Some(TREASURY),
        dead_chip_timeout_ledgers: 50,
        reclaim_period_ledgers: 20,
    }
}

fn table(n: u64) -> (Env, PokerTableContract, u32) {
    let env = env();
    let mut c = PokerTableContract::new();
    let id = c.create_table(ADMIN, config(), 0, 0).unwrap();
    for i in 0..n {
        c.join_table(&env, id, &player(i), 500, 0).unwrap();
    }
    (env, c, id)
}

fn deal(env: &Env, c: &mut PokerTableContract, id: u32) {
    let n = c.get_table(id).unwrap().players.len();
    c.commit_deal(
        env,
        id,
        &COMMITTEE,
        Bytes32::splat(1),
        vec![Bytes32::splat(2); n],
        (0..2 * n as u32).collect(),
        true,
        0,
    )
    .unwrap();
}

fn preflop(n: u64) -> (Env, PokerTableContract, u32) {
    let (env, mut c, id) = table(n);
    c.start_hand(id, 0, 0).unwrap();
    deal(&env, &mut c, id);
    (env, c, id)
}

fn turn(c: &PokerTableContract, id: u32) -> Address {
    let t = c.get_table(id).unwrap();
    t.players[t.current_turn as usize].address
}

#[test]
fn test_action_hash_fold() {
    let env = env();
    let hash = compute_action_hash(&env, &Action::Fold, 0, &vec![1u8; 32]);
    let words = [hash.w0, hash.w1, hash.w2, hash.w3];
    assert_eq!(words.iter().map(|w| w.to_be_bytes().len()).sum::<usize>(), 32);
}

#[test]
fn test_action_hash_consistency() {
    let env = env();
    let nonce = vec![2u8; 32];
    let hash1 = compute_action_hash(&env, &Action::Check, 0, &nonce);
    let hash2 = compute_action_hash(&env, &Action::Check, 0, &nonce);
    assert_eq!(hash1, hash2);
}

#[test]
fn test_action_hash_different_actions() {
    let env = env();
    let nonce = vec![3u8; 32];
    let hash_fold = compute_action_hash(&env, &Action::Fold, 0, &nonce);
    let hash_check = compute_action_hash(&env, &Action::Check, 0, &nonce);
    assert_ne!(hash_fold, hash_check);
}

#[test]
fn action_hash_is_the_digest_of_its_preimage() {
    let env = env();
    let nonce = vec![9u8; 4];
    let data = action_preimage(&Action::Bet(258), 258, &nonce);
    assert_eq!(data.len(), 1 + 16 + 4);
    assert_eq!(data[1..4], [2, 1, 0]);
    let digest = env
        .crypto()
        .keccak256(&soroban_sdk::Bytes::from_slice(&env, &data))
        .to_array();
    let hash = compute_action_hash(&env, &Action::Bet(258), 258, &nonce);
    assert_eq!(hash.w1.to_be_bytes(), digest[8..16]);
}

fn bytes_of(h: Bytes32) -> Vec<u8> {
    [h.w0, h.w1, h.w2, h.w3].iter().flat_map(|w| w.to_be_bytes()).collect()
}

#[test]
fn committed_actions_are_revealed_once() {
    let (env, mut c, id) = preflop(3);
    let p = turn(&c, id);
    let nonce = vec![7u8; 32];
    let hash = compute_action_hash(&env, &Action::Call, 0, &nonce);
    let short = vec![0u8; 31];
    assert_eq!(
        c.commit_action(&env, id, &p, &short, &nonce),
        Err(PokerTableError::InvalidAction)
    );
    assert_eq!(
        c.reveal_action(&env, id, &p, 1, &Action::Call, 0, &nonce, 0).unwrap_err(),
        PokerTableError::ActionCommitmentNotFound
    );
    c.commit_action(&env, id, &p, &bytes_of(hash), &nonce).unwrap();
    assert_eq!(
        c.commit_action(&env, id, &p, &bytes_of(hash), &nonce),
        Err(PokerTableError::ActionAlreadyCommitted)
    );
    assert_eq!(
        c.reveal_action(&env, id, &p, 1, &Action::Fold, 0, &nonce, 0).unwrap_err(),
        PokerTableError::InvalidActionReveal
    );
    for n in 0..3 {
        if player(n) != p {
            assert_eq!(
                c.reveal_action(&env, id, &p, 1, &Action::Call, 0, &nonce, 0).unwrap_err(),
                PokerTableError::ActionCommitmentNotFound
            );
            c.commit_action(&env, id, &player(n), &bytes_of(hash), &nonce).unwrap();
        }
    }
    assert_eq!(
        c.reveal_action(&env, id, &p, 5, &Action::Call, 0, &nonce, 0).unwrap_err(),
        PokerTableError::StaleActionSequence
    );
    c.reveal_action(&env, id, &p, 1, &Action::Call, 0, &nonce, 0).unwrap();
    assert_eq!(c.get_table(id).unwrap().pot, 25);
    assert_eq!(
        c.reveal_action(&env, id, &p, 2, &Action::Call, 0, &nonce, 0).unwrap_err(),
        PokerTableError::ActionCommitmentNotFound
    );
}

#[test]
fn a_committed_raise_is_opened_by_its_amount() {
    let (env, mut c, id) = preflop(2);
    let p = turn(&c, id);
    let q = if p == player(0) { player(1) } else { player(0) };
    let nonce = vec![9u8; 32];
    let hash = compute_action_hash(&env, &Action::Raise(100), 100, &nonce);
    assert_eq!(hash, compute_action_hash(&env, &Action::Raise(300), 100, &nonce));
    c.commit_action(&env, id, &p, &bytes_of(hash), &nonce).unwrap();
    c.commit_action(&env, id, &q, &bytes_of(hash), &nonce).unwrap();
    assert_eq!(
        c.reveal_action(&env, id, &p, 1, &Action::Raise(300), 100, &nonce, 0).unwrap_err(),
        PokerTableError::InvalidActionReveal
    );
    c.reveal_action(&env, id, &p, 1, &Action::Raise(100), 100, &nonce, 0).unwrap();
    assert_eq!(c.get_table(id).unwrap().last_raise_size, 100);
}

#[test]
fn sessions_are_numbered_by_table_and_hand() {
    assert_ne!(derive_session_id(0, 1), derive_session_id(0, 2));
    assert_ne!(derive_session_id(0, 1), derive_session_id(1, 1));
    assert_eq!(derive_session_id(0, 0), 0);
    let mut x = 3u32 ^ 5u32.rotate_left(16);
    x = x.wrapping_mul(0x9E37_79B1);
    x ^= x >> 16;
    x = x.wrapping_mul(0x85EB_CA6B);
    x ^= x >> 13;
    assert_eq!(derive_session_id(3, 5), x);
    let (_, mut c, id) = table(2);
    c.start_hand(id, 0, 0).unwrap();
    assert_eq!(c.get_table(id).unwrap().session_id, derive_session_id(id, 1));
}

#[test]
fn two_boards_take_the_next_free_cards() {
    let dealt = vec![0, 1, 2, 3, 10, 11, 12];
    let (a, b) = compute_rit_board_indices(&dealt, 3);
    assert_eq!(a, vec![10, 11, 12, 7, 8]);
    assert_eq!(b, vec![10, 11, 12, 15, 16]);
    let (a, b) = compute_rit_board_indices(&dealt, 0);
    assert_eq!(a, vec![4, 5, 6, 7, 8]);
    assert_eq!(b, vec![9, 13, 14, 15, 16]);
}

#[test]
fn two_runs_are_refused_outside_their_phase() {
    let (env, mut c, id) = preflop(2);
    assert_eq!(
        c.rit_opt_in(&env, id, &player(0), true, 0),
        Err(PokerTableError::NotInRitPhase)
    );
    assert_ne!(RitChoice::Declined, RitChoice::Activated);
}

fn showdown_inputs(winner: u32, tie: u32) -> Vec<u8> {
    let mut v = vec![0u8; 27 * 32];
    let mut put = |field: usize, x: u32| {
        v[field * 32 + 28..field * 32 + 32].copy_from_slice(&x.to_be_bytes());
    };
    for seat in 0..2 {
        put(13 + seat, 30 + seat as u32);
        put(19 + seat, 40 + seat as u32);
    }
    put(25, winner);
    put(26, tie);
    v
}

#[test]
fn showdowns_are_held_against_their_proof() {
    let (env, mut c, id) = preflop(2);
    let p = turn(&c, id);
    c.player_action(&env, id, &p, 1, &Action::AllIn, 0).unwrap();
    let q = turn(&c, id);
    c.player_action(&env, id, &q, 1, &Action::Call, 0).unwrap();
    for (cards, at) in [(3u32, 4u32), (1, 7), (1, 8)] {
        let v: Vec<u32> = (at..at + cards).collect();
        c.reveal_board(&env, id, &COMMITTEE, &v, &v, true, 0).unwrap();
    }
    assert_eq!(c.get_table(id).unwrap().phase, GamePhase::Showdown);
    let pi = showdown_inputs(1, 0);
    assert_eq!(extract_u32_from_public_inputs(&pi, 25), 1);
    let cards = vec![(30, 40), (31, 41)];
    let mut submit = |who: Address, cards: &Vec<(u32, u32)>, ok: bool| {
        c.submit_showdown(&env, id, &who, cards, &pi, &Vec::new(), ok, 0)
    };
    assert_eq!(
        submit(ADMIN, &cards, true),
        Err(PokerTableError::NotAuthorizedCommittee)
    );
    assert_eq!(
        submit(COMMITTEE, &cards, false),
        Err(PokerTableError::ShowdownProofVerificationFailed)
    );
    assert_eq!(
        submit(COMMITTEE, &vec![(30, 40), (31, 42)], true),
        Err(PokerTableError::HoleCardMismatch)
    );
    assert_eq!(
        submit(COMMITTEE, &vec![(30, 40)], true),
        Err(PokerTableError::InvalidHoleCards)
    );
    let result = submit(COMMITTEE, &cards, true).unwrap();
    assert_eq!(result.winner_index, 1);
    assert_eq!(result.tie_mask, 0);
    let t = c.get_table(id).unwrap();
    assert_eq!(t.phase, GamePhase::Settlement);
    assert_eq!(t.pot, 0);
    assert_eq!(t.players[1].stack, 950);
    assert_eq!(t.players[0].stack, 0);
    assert_eq!(t.rake_balance + t.jackpot_balance, 50);
    let record = c.get_hand(id, 1).unwrap();
    assert!(record.showdown);
    assert_eq!(record.payouts.len(), 1);
    assert_eq!((record.payouts[0].seat, record.payouts[0].amount), (1, 950));
}

#[test]
fn showdowns_wait_for_their_phase() {
    let (env, mut c, id) = preflop(2);
    assert_eq!(
        c.submit_showdown(&env, id, &COMMITTEE, &Vec::new(), &Vec::new(), &Vec::new(), true, 0),
        Err(PokerTableError::NotInShowdownPhase)
    );
}

#[test]
fn volunteers_post_a_straddle() {
    let (env, mut c, id) = table(3);
    assert_eq!(
        c.configure_straddle(id, 4, StraddlePosition::Utg),
        Err(PokerTableError::InvalidStraddleConfig)
    );
    assert_eq!(
        c.post_mississippi_straddle(&env, id, &player(1)),
        Err(PokerTableError::InvalidStraddleConfig)
    );
    c.configure_straddle(id, 2, StraddlePosition::Utg).unwrap();
    assert_eq!(
        c.post_mississippi_straddle(&env, id, &player(1)),
        Err(PokerTableError::StraddleNotAllowed)
    );
    c.configure_straddle_extended(id, 3, StraddlePosition::Any, true, 25, false).unwrap();
    assert_eq!(
        c.post_mississippi_straddle(&env, id, &player(9)),
        Err(PokerTableError::PlayerNotAtTable)
    );
    c.post_mississippi_straddle(&env, id, &player(1)).unwrap();
    assert_eq!(
        c.post_mississippi_straddle(&env, id, &player(2)),
        Err(PokerTableError::MississippiStraddleAlreadyPosted)
    );
    assert_eq!(c.get_mississippi_pending(id).unwrap().amount, 25);
    assert_eq!(
        c.cancel_mississippi_straddle(&env, id, &player(2)),
        Err(PokerTableError::NotAuthorizedCommittee)
    );
    c.start_hand(id, 0, 0).unwrap();
    assert!(c.get_mississippi_pending(id).is_none());
    let active = c.get_active_straddle(id).unwrap();
    assert_eq!((active.seat, active.amount), (1, 25));
    assert_eq!(c.get_table(id).unwrap().pot, 40);
    deal(&env, &mut c, id);
    assert_eq!(c.get_table(id).unwrap().current_turn, 2);
    assert_eq!(
        c.cancel_mississippi_straddle(&env, id, &player(1)),
        Err(PokerTableError::NoMississippiStraddle)
    );
}

#[test]
fn stuck_hands_are_paid_out_by_majority() {
    let (env, mut c, id) = preflop(3);
    let early = c.approve_emergency_withdrawal(&env, id, &player(0), 199).unwrap_err();
    assert_eq!(early, PokerTableError::EmergencyTimelockActive);
    let stranger = c.approve_emergency_withdrawal(&env, id, &player(9), 200).unwrap_err();
    assert_eq!(stranger, PokerTableError::PlayerNotAtTable);
    let (done, _) = c.approve_emergency_withdrawal(&env, id, &player(0), 200).unwrap();
    assert!(!done);
    let again = c.approve_emergency_withdrawal(&env, id, &player(0), 200).unwrap_err();
    assert_eq!(again, PokerTableError::AlreadyApprovedEmergencyWithdrawal);
    let (done, transfers) = c.approve_emergency_withdrawal(&env, id, &player(1), 200).unwrap();
    assert!(done);
    assert_eq!(transfers.len(), 3);
    assert_eq!(transfers.iter().map(|t| t.amount).sum::<i128>(), 1500);
    assert_eq!(c.get_table(id).unwrap().phase, GamePhase::Settlement);
    assert_eq!(c.get_table(id).unwrap().pot, 0);
    assert_eq!(
        c.admin_emergency_withdrawal(id, 900).unwrap_err(),
        PokerTableError::EmergencyWithdrawalNotApplicable
    );
}

#[test]
fn hands_are_called_off_by_the_committee() {
    let (_env, mut c, id) = preflop(2);
    assert_eq!(
        c.cancel_hand(id, &player(0), 7).unwrap_err(),
        PokerTableError::NotAuthorizedCommittee
    );
    let (sum, transfers) = c.cancel_hand(id, &COMMITTEE, 7).unwrap();
    assert_eq!(sum, 1000);
    assert_eq!(transfers[0].to, Party::Wallet(player(0)));
    assert_eq!(c.cancel_hand(id, &ADMIN, 8).unwrap_err(), PokerTableError::InvalidAction);
    assert_eq!(CancellationReason::MpcFailure.event_name(), "hand_cancelled_mpc_failure");
}

#[test]
fn tables_are_closed_after_a_day() {
    let (_env, mut c, id) = table(2);
    assert_eq!(
        c.propose_table_closure(id, &player(0), 100),
        Err(PokerTableError::NotAuthorizedCommittee)
    );
    assert_eq!(
        c.execute_table_closure(id, 1, 100).unwrap_err(),
        PokerTableError::TableClosureNotProposed
    );
    assert_eq!(c.propose_table_closure(id, &HUB, 100), Ok(86_500));
    assert_eq!(
        c.propose_table_closure(id, &ADMIN, 100),
        Err(PokerTableError::TableClosureInProgress)
    );
    assert_eq!(
        c.execute_table_closure(id, 1, 86_499).unwrap_err(),
        PokerTableError::TableClosureNotReady
    );
    let (sum, transfers) = c.execute_table_closure(id, 1, 86_500).unwrap();
    assert_eq!(sum, 1000);
    assert_eq!(transfers.len(), 2);
    assert_eq!(c.get_table_closure(id), Ok(None));
}

#[test]
fn dead_chips_are_swept_and_claimed_back() {
    let (env, mut c, id) = preflop(2);
    assert_eq!(c.sweep_dead_chips(id, 60).unwrap_err(), PokerTableError::DeadChipsNotSweepable);
    let p = turn(&c, id);
    c.player_action(&env, id, &p, 1, &Action::Fold, 10).unwrap();
    assert_eq!(
        c.sweep_dead_chips(id, 59).unwrap_err(),
        PokerTableError::DeadChipTimeoutNotReached
    );
    let stacks: i128 = c.get_table(id).unwrap().players.iter().map(|p| p.stack).sum();
    assert_eq!(
        c.reclaim_dead_chips(&env, id, &player(0), 60).unwrap_err(),
        PokerTableError::DeadChipsNotSwept
    );
    let (sum, transfers) = c.sweep_dead_chips(id, 60).unwrap();
    assert_eq!(sum, stacks);
    assert_eq!(transfers[0].to, Party::Wallet(TREASURY));
    assert_eq!(c.sweep_dead_chips(id, 61).unwrap_err(), PokerTableError::DeadChipsAlreadySwept);
    let state = c.get_dead_chip_sweep_state(id).unwrap();
    let first = state.swept_amounts[0];
    let claim = c.reclaim_dead_chips(&env, id, &first.player, 80).unwrap();
    assert_eq!(claim.amount, first.amount);
    assert_eq!(claim.transfer.from, Party::Wallet(TREASURY));
    assert_eq!(claim.message, reclaim_message(id, first.amount, 60));
    assert_eq!(
        c.reclaim_dead_chips(&env, id, &first.player, 81).unwrap_err(),
        PokerTableError::ReclaimPeriodElapsed
    );
    assert_eq!(
        c.reclaim_dead_chips(&env, id, &player(9), 70).unwrap_err(),
        PokerTableError::NoDeadChipsToReclaim
    );
}

#[test]
fn claims_are_signed_as_bytes() {
    let mut want = b"reclaim_dead_chips:".to_vec();
    want.extend_from_slice(&7u32.to_be_bytes());
    want.push(b':');
    want.extend_from_slice(&123_456_789_012_345i128.to_be_bytes());
    want.push(b':');
    want.extend_from_slice(&99u32.to_be_bytes());
    assert_eq!(reclaim_message(7, 123_456_789_012_345, 99), want);
    assert_eq!(reclaim_message(7, -5, 99)[24..40], (-5i128).to_be_bytes());
}

#[test]
fn jackpots_are_fed_by_the_rake_and_paid_once() {
    let (env, mut c, id) = preflop(2);
    let claim = HandClaim {
        hand_category: 9,
        hand_rank: 12,
        hand_score: 0,
        is_losing_hand: false,
        jackpot_type: Symbol::from_bytes(&b"RoyalFlush".to_vec()),
    };
    assert_eq!(
        c.claim_jackpot_with_proof(&env, id, &player(0), &claim, false),
        Err(PokerTableError::JackpotNotEnabled)
    );
    let p = turn(&c, id);
    c.player_action(&env, id, &p, 1, &Action::Raise(200), 0).unwrap();
    let q = turn(&c, id);
    c.player_action(&env, id, &q, 1, &Action::Fold, 0).unwrap();
    assert_eq!(c.get_rake_balance(id), Ok(6));
    assert_eq!(c.get_jackpot_balance(id), Ok(5));
    let weak = HandClaim { hand_rank: 11, ..claim };
    assert_eq!(c.verify_jackpot_with_proof(&env, id, &player(0), &weak, false), Ok(false));
    assert_eq!(
        c.verify_jackpot_with_proof(&env, id, &player(9), &claim, false),
        Err(PokerTableError::PlayerNotAtTable)
    );
    let before = c.get_table(id).unwrap().players[0].stack;
    assert_eq!(c.claim_jackpot_with_proof(&env, id, &player(0), &claim, false), Ok(5));
    assert_eq!(c.get_table(id).unwrap().players[0].stack, before + 5);
    assert_eq!(
        c.claim_jackpot_with_proof(&env, id, &player(0), &claim, false),
        Err(PokerTableError::JackpotNotEnabled)
    );
    let bad_beat = HandClaim {
        hand_category: 7,
        hand_score: (7 << 28) | (12 << 4),
        is_losing_hand: true,
        jackpot_type: Symbol::from_bytes(&b"BadBeat".to_vec()),
        ..claim
    };
    assert_eq!(c.verify_jackpot_with_proof(&env, id, &player(1), &bad_beat, false), Ok(true));
    let winning = HandClaim { is_losing_hand: false, ..bad_beat };
    assert_eq!(c.verify_jackpot_with_proof(&env, id, &player(1), &winning, false), Ok(false));
    c.set_jackpot_verifier(id, TREASURY).unwrap();
    assert_eq!(c.verify_jackpot_with_proof(&env, id, &player(1), &winning, true), Ok(true));
    assert_eq!(c.verify_jackpot_with_proof(&env, id, &player(1), &bad_beat, false), Ok(false));
}

#[test]
fn time_is_bought_from_a_reserve() {
    let (env, mut c, id) = table(2);
    let cfg = TimeBankConfig::default_config();
    c.configure_time_bank(id, &cfg).unwrap();
    let too_long = TimeBankConfig { max_seconds: 3601, ..cfg };
    assert_eq!(
        c.configure_time_bank(id, &too_long),
        Err(PokerTableError::InvalidTimeBankConfig)
    );
    c.start_hand(id, 0, 0).unwrap();
    assert_eq!(
        c.configure_time_bank(id, &cfg),
        Err(PokerTableError::HandAlreadyInProgress)
    );
    deal(&env, &mut c, id);
    let p = turn(&c, id);
    let other = if p == player(0) { player(1) } else { player(0) };
    assert_eq!(
        c.use_time_bank(&env, id, &other, 0),
        Err(PokerTableError::NotYourTurnForTimeBank)
    );
    assert_eq!(c.should_enforce_timeout(id, 100), Ok(false));
    assert_eq!(c.claim_timeout(id, 100), Err(PokerTableError::TimeoutNotReached));
    assert_eq!(c.use_time_bank(&env, id, &p, 0), Ok(30));
    assert_eq!(c.get_table(id).unwrap().action_deadline, 106);
    assert_eq!(c.use_time_bank(&env, id, &p, 0), Ok(30));
    assert_eq!(
        c.use_time_bank(&env, id, &p, 0),
        Err(PokerTableError::TimeBankExhausted)
    );
    assert_eq!(c.get_time_bank(id, &p).unwrap().remaining_seconds, 10);
    assert_eq!(c.should_enforce_timeout(id, 111), Ok(false));
    assert_eq!(c.should_enforce_timeout(id, 112), Ok(true));
}

#[test]
fn permissions_fall_back_to_the_admin() {
    let (_env, mut c, id) = table(2);
    let who = player(0);
    assert_eq!(c.check_permission(id, &ADMIN, perm::pause_table(), None), Ok(true));
    assert_eq!(c.check_permission(id, &HUB, perm::pause_table(), None), Ok(true));
    assert_eq!(c.check_permission(id, &who, perm::pause_table(), None), Ok(false));
    assert_eq!(c.check_permission(id, &who, perm::create_table(), None), Ok(true));
    assert_eq!(c.check_permission(id, &who, perm::pause_table(), Some(true)), Ok(false));
    assert_eq!(perm::pause_table(), Symbol::from_bytes(&b"PauseTable".to_vec()));
    c.set_auth_manager(id, TREASURY).unwrap();
    assert_eq!(c.get_auth_manager(id), Some(TREASURY));
    assert_eq!(c.check_permission(id, &who, perm::pause_table(), Some(true)), Ok(true));
    assert_eq!(c.check_permission(id, &ADMIN, perm::pause_table(), Some(false)), Ok(false));
    assert_eq!(c.check_permission(id, &ADMIN, perm::pause_table(), None), Ok(false));
    c.clear_auth_manager(id).unwrap();
    assert_eq!(c.get_auth_manager(id), None);
    assert_eq!(
        c.flag_chip_dumping(id, &who),
        Err(PokerTableError::NotAuthorizedCommittee)
    );
    assert_eq!(c.flag_chip_dumping(id, &COMMITTEE), Ok(()));
}

#[test]
fn outcomes_are_counted_by_seat() {
    let (_env, mut c, id) = table(2);
    let default_config = VarianceConfig { threshold_bps: 100, extra_jackpot_share_bps: 7 };
    assert_eq!(c.get_variance_stats(id).unwrap().winner_counts.len(), 0);
    let f = c.record_outcome(id, 2, 99, default_config).unwrap();
    assert!(!f.triggered);
    let f = c.record_outcome(id, 2, 100, default_config).unwrap();
    assert!(f.triggered);
    assert_eq!(f.extra_jackpot_share_bps, 7);
    assert_eq!(c.get_variance_stats(id).unwrap().winner_counts, vec![0, 0, 2, 0, 0, 0]);
    assert_eq!(
        c.record_outcome(id, 6, 0, default_config),
        Err(PokerTableError::InvalidPlayerIndex)
    );
    assert_eq!(
        c.set_variance_config(id, 10_001, 0),
        Err(PokerTableError::InvalidVarianceConfig)
    );
    c.set_variance_config(id, 200, 9).unwrap();
    assert_eq!(c.get_variance_config(id, default_config).unwrap().threshold_bps, 200);
}

#[test]
fn repeated_losses_raise_suspicion() {
    let mut stats = PlayerInteractionStats::new();
    assert!(!stats.is_suspicious());
    assert_eq!(stats.fold_rate(), 0);
    for _ in 0..20 {
        record_hand_outcome(&mut stats, false, true, 100);
    }
    assert_eq!(stats.fold_rate(), 100);
    assert!(stats.is_suspicious());
    assert!(detect_chip_dumping(&player(0), &player(1), &stats).is_none());
    let mut stats = PlayerInteractionStats::new();
    for _ in 0..10 {
        record_hand_outcome(&mut stats, false, false, 100);
    }
    assert_eq!(stats.avg_loss_amount, 100);
    let flag = detect_chip_dumping(&player(0), &player(1), &stats).unwrap();
    assert_eq!(flag.suspected_dumper, player(0));
    assert_eq!(flag.suspected_receiver, player(1));
    assert_eq!(flag.confidence, 65);
    assert_eq!(flag.reason, ChipDumpingReason::RepeatedLosses);
}

#[test]
fn settings_are_changed_by_table() {
    let (_env, mut c, id) = table(2);
    c.set_hub(id, TREASURY).unwrap();
    assert_eq!(c.get_hub(id), Ok(TREASURY));
    c.set_jackpot_config(id, 1_000, 8, 3).unwrap();
    assert_eq!(c.get_jackpot_config(id), Ok((1_000, 8, 3)));
    c.set_jackpot_verifier(id, HUB).unwrap();
    assert_eq!(c.get_jackpot_verifier(id), Some(HUB));
    assert_eq!(c.set_hub(9, HUB), Err(PokerTableError::TableNotFound));
    assert_eq!(
        c.set_min_players(id, 7),
        Err(PokerTableError::InvalidPlayerCount)
    );
}
