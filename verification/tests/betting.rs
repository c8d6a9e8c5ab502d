use soroban_sdk::testutils::EnvTestConfig;
use soroban_sdk::Env;
use stellar_poker::host::{Address, Bytes32};
use stellar_poker::poker_table::betting::{
    current_bet, is_round_complete, process_action, reset_round,
};
use stellar_poker::poker_table::types::{
    Action, BettingStructure, BlindsSchedule, GamePhase, PlayerState, PokerTableError, TableConfig,
    TableState,
};

fn env() -> Env {
    Env::new_with_config(EnvTestConfig { capture_snapshot_at_drop: false })
}

fn account(n: u64) -> Address {
    Address::Account(Bytes32 { w0: n, w1: 0, w2: 0, w3: 1 })
}

fn two_player_table(stack: i128, big_blind: i128) -> (TableState, Address, Address) {
    let small_blind = big_blind / 2;
    let (p0, p1) = (account(10), account(11));
    let admin = account(1);
    let seat = |address, i, bet: i128| PlayerState {
        address,
        stack: stack - bet,
        bet_this_round: bet,
        committed: bet,
        folded: false,
        all_in: false,
        sitting_out: false,
        seat_index: i,
        total_buy_in: stack,
        rebuy_count: 0,
    };
    let table = TableState {
        id: 0,
        admin,
        config: TableConfig {
            token: admin,
            min_buy_in: 0,
            max_buy_in: i128::MAX,
            betting_structure: BettingStructure::NoLimit,
            blinds_schedule: BlindsSchedule::fixed(small_blind, big_blind),
            min_players: 2,
            max_players: 6,
            timeout_ledgers: 0,
            committee: admin,
            verifier: admin,
            game_hub: account(2),
            rake_bps: 0,
            max_rebuys: 0,
            jackpot_rake_share_bps: 0,
            min_bad_beat_category: 7,
            min_bad_beat_rank: 12,
            street_time_limit: None,
            treasury: None,
            dead_chip_timeout_ledgers: 0,
            reclaim_period_ledgers: 0,
        },
        phase: GamePhase::Preflop,
        players: vec![seat(p0, 0, small_blind), seat(p1, 1, big_blind)],
        dealer_seat: 0,
        current_turn: 0,
        pot: small_blind + big_blind,
        side_pots: Vec::new(),
        deck_root: Bytes32::splat(0),
        hand_commitments: Vec::new(),
        board_cards: Vec::new(),
        dealt_indices: Vec::new(),
        hand_number: 1,
        last_action_ledger: 0,
        committee: admin,
        session_id: 0,
        rake_balance: 0,
        jackpot_balance: 0,
        action_deadline: 0,
        hand_actions: Vec::new(),
        rit_state: None,
        last_raise_size: big_blind,
        current_blind_level: 0,
        level_started_at: 0,
        break_ends_at: 0,
        settlement_entered_ledger: 0,
    };
    (table, p0, p1)
}

#[test]
fn raise_below_big_blind_rejected() {
    let (mut table, p0, _p1) = two_player_table(1_000, 20);
    let err = process_action(&env(), &mut table, &p0, &Action::Raise(5), 0).unwrap_err();
    assert_eq!(err, PokerTableError::RaiseTooSmall);
}

#[test]
fn raise_equal_to_big_blind_accepted() {
    let (mut table, p0, _p1) = two_player_table(1_000, 20);
    process_action(&env(), &mut table, &p0, &Action::Raise(20), 0).unwrap();
    assert_eq!(table.last_raise_size, 20);
}

#[test]
fn re_raise_must_match_prior_raise_size() {
    let env = env();
    let (mut table, p0, p1) = two_player_table(2_000, 10);
    process_action(&env, &mut table, &p0, &Action::Raise(40), 0).unwrap();
    assert_eq!(table.last_raise_size, 40);
    let err = process_action(&env, &mut table, &p1, &Action::Raise(20), 0).unwrap_err();
    assert_eq!(err, PokerTableError::RaiseTooSmall);
}

#[test]
fn re_raise_matching_prior_size_accepted() {
    let env = env();
    let (mut table, p0, p1) = two_player_table(2_000, 10);
    process_action(&env, &mut table, &p0, &Action::Raise(40), 0).unwrap();
    process_action(&env, &mut table, &p1, &Action::Raise(40), 0).unwrap();
    assert_eq!(table.last_raise_size, 40);
}

#[test]
fn reset_round_restores_last_raise_size_to_big_blind() {
    let (mut table, _p0, _p1) = two_player_table(2_000, 10);
    table.last_raise_size = 200;
    reset_round(&mut table, 0).unwrap();
    assert_eq!(table.last_raise_size, 10);
}

#[test]
fn bet_sets_last_raise_size() {
    let (mut table, p0, _p1) = two_player_table(2_000, 10);
    for p in table.players.iter_mut() {
        p.bet_this_round = 0;
    }
    table.pot = 0;
    table.current_turn = 0;
    process_action(&env(), &mut table, &p0, &Action::Bet(50), 0).unwrap();
    assert_eq!(table.last_raise_size, 50);
}

#[test]
fn rounds_complete_once_bets_match() {
    let (mut table, p0, _p1) = two_player_table(2_000, 10);
    assert_eq!(current_bet(&table), 10);
    assert!(!is_round_complete(&table));
    process_action(&env(), &mut table, &p0, &Action::Call, 3).unwrap();
    assert!(is_round_complete(&table));
    assert_eq!(table.phase, GamePhase::DealingFlop);
    assert_eq!(table.last_action_ledger, 3);
}

#[test]
fn going_all_in_keeps_the_last_raise() {
    let env = env();
    let (mut table, p0, p1) = two_player_table(100, 10);
    process_action(&env, &mut table, &p0, &Action::AllIn, 0).unwrap();
    assert_eq!(table.last_raise_size, 10);
    assert!(table.players[0].all_in);
    process_action(&env, &mut table, &p1, &Action::Call, 0).unwrap();
    assert!(table.players[1].all_in);
    assert_eq!(table.pot, 200);
    assert_eq!(table.phase, GamePhase::DealingFlop);
    table.phase = GamePhase::Flop;
    reset_round(&mut table, 0).unwrap();
    assert_eq!(table.phase, GamePhase::DealingTurn);
}
