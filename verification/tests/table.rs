use soroban_sdk::testutils::EnvTestConfig;
use soroban_sdk::Env;
use stellar_poker::host::{Address, Bytes32, Party, Transfer};
use stellar_poker::poker_table::contract::PokerTableContract;
use stellar_poker::poker_table::types::{
    Action, ActionKind, BettingStructure, BlindsSchedule, GamePhase, PokerTableError, TableConfig,
    TableState,
};

const TOKEN: Address = Address::Contract(Bytes32 { w0: 1, w1: 1, w2: 1, w3: 1 });
const ADMIN: Address = Address::Account(Bytes32 { w0: 2, w1: 2, w2: 2, w3: 2 });
const COMMITTEE: Address = Address::Account(Bytes32 { w0: 3, w1: 3, w2: 3, w3: 3 });
const VERIFIER: Address = Address::Contract(Bytes32 { w0: 4, w1: 4, w2: 4, w3: 4 });
const HUB: Address = Address::Contract(Bytes32 { w0: 5, w1: 5, w2: 5, w3: 5 });

fn player(n: u64) -> Address {
    Address::Account(Bytes32 { w0: 100 + n, w1: n, w2: 0, w3: 9 })
}

struct Setup {
    env: Env,
    c: PokerTableContract,
    balances: Vec<(Party, i128)>,
    seqs: Vec<(u32, Address, u32)>,
    now: u32,
}

fn setup() -> Setup {
    Setup {
        env: Env::new_with_config(EnvTestConfig { capture_snapshot_at_drop: false }),
        c: PokerTableContract::new(),
        balances: Vec::new(),
        seqs: Vec::new(),
        now: 0,
    }
}

fn default_config() -> TableConfig {
    TableConfig {
        token: TOKEN,
        min_buy_in: 100,
        max_buy_in: 1000,
        betting_structure: BettingStructure::NoLimit,
        blinds_schedule: BlindsSchedule::fixed(5, 10),
        min_players: 2,
        max_players: 6,
        timeout_ledgers: 100,
        committee: COMMITTEE,
        verifier: VERIFIER,
        game_hub: HUB,
        rake_bps: 0,
        max_rebuys: 0,
        jackpot_rake_share_bps: 0,
        min_bad_beat_category: 7,
        min_bad_beat_rank: 12,
        street_time_limit: None,
        treasury: None,
        dead_chip_timeout_ledgers: 0,
        reclaim_period_ledgers: 0,
    }
}

fn rake_config(rake_bps: u32) -> TableConfig {
    TableConfig {
        max_buy_in: 100_000,
        blinds_schedule: BlindsSchedule::fixed(100, 200),
        rake_bps,
        ..default_config()
    }
}

impl Setup {
    fn add(&mut self, p: Party, amount: i128) {
        match self.balances.iter_mut().find(|b| b.0 == p) {
            Some(b) => b.1 += amount,
            None => self.balances.push((p, amount)),
        }
    }

    fn mint(&mut self, a: Address, amount: i128) {
        self.add(Party::Wallet(a), amount);
    }

    fn apply(&mut self, t: Transfer) {
        assert_eq!(t.token, TOKEN);
        self.add(t.from, -t.amount);
        self.add(t.to, t.amount);
    }

    fn balance(&self, p: Party) -> i128 {
        self.balances.iter().find(|b| b.0 == p).map(|b| b.1).unwrap_or(0)
    }

    fn create(&mut self, config: TableConfig) -> u32 {
        self.c.create_table(ADMIN, config, self.now, 0).unwrap()
    }

    fn create_default(&mut self) -> u32 {
        self.create(default_config())
    }

    fn join(&mut self, id: u32, p: Address, buy_in: i128) -> u32 {
        self.mint(p, buy_in);
        let j = self.c.join_table(&self.env, id, &p, buy_in, self.now).unwrap();
        self.apply(j.transfer);
        j.position
    }

    fn start(&mut self, id: u32) {
        self.c.start_hand(id, self.now, 0).unwrap();
    }

    fn deal(&mut self, id: u32, n: u32) {
        let commitments = vec![Bytes32::splat(0x0202_0202_0202_0202); n as usize];
        let indices = (0..n * 2).collect();
        self.c
            .commit_deal(
                &self.env,
                id,
                &COMMITTEE,
                Bytes32::splat(0x0101_0101_0101_0101),
                commitments,
                indices,
                true,
                self.now,
            )
            .unwrap();
    }

    fn act(&mut self, id: u32, p: Address, action: Action) {
        let seq = match self.seqs.iter_mut().find(|s| s.0 == id && s.1 == p) {
            Some(s) => {
                s.2 += 1;
                s.2
            }
            None => {
                self.seqs.push((id, p, 1));
                1
            }
        };
        self.c.player_action(&self.env, id, &p, seq, &action, self.now).unwrap();
    }

    fn table(&self, id: u32) -> &TableState {
        self.c.get_table(id).unwrap()
    }

    fn turn(&self, id: u32) -> Address {
        let t = self.table(id);
        t.players[t.current_turn as usize].address
    }

    fn play_fold_hand(&mut self, id: u32) {
        self.start(id);
        let n = self.table(id).players.len() as u32;
        self.deal(id, n);
        let folder = self.turn(id);
        self.act(id, folder, Action::Fold);
    }

    fn rebuy(&mut self, id: u32, p: Address, amount: i128) -> i128 {
        self.mint(p, amount);
        let (stack, t) = self.c.rebuy(&self.env, id, &p, amount).unwrap();
        self.apply(t);
        stack
    }

    fn leave(&mut self, id: u32, p: Address) -> i128 {
        let (stack, ts) = self.c.leave_table(&self.env, id, &p).unwrap();
        for t in ts {
            self.apply(t);
        }
        stack
    }
}

fn preflop_3p() -> (Setup, u32) {
    let mut s = setup();
    let id = s.create_default();
    for n in 0..3 {
        s.join(id, player(n), 500);
    }
    s.start(id);
    s.deal(id, 3);
    (s, id)
}

fn heads_up(config: TableConfig, buy_in: i128) -> (Setup, u32) {
    let mut s = setup();
    let id = s.create(config);
    s.join(id, player(0), buy_in);
    s.join(id, player(1), buy_in);
    s.start(id);
    s.deal(id, 2);
    (s, id)
}

#[test]
fn test_create_table() {
    let mut s = setup();
    let id = s.create_default();
    assert_eq!(id, 0);
    let table = s.table(id);
    assert_eq!(table.id, 0);
    assert_eq!(table.admin, ADMIN);
    assert_eq!(table.config.min_buy_in, 100);
    assert_eq!(table.config.max_buy_in, 1000);
    let level = table.config.blinds_schedule.levels[0];
    assert_eq!(level.small_blind, 5);
    assert_eq!(level.big_blind, 10);
    assert_eq!(table.config.min_players, 2);
    assert_eq!(table.config.max_players, 6);
    assert_eq!(table.phase, GamePhase::Waiting);
    assert_eq!(table.players.len(), 0);
    assert_eq!(table.pot, 0);
}

#[test]
fn test_create_multiple_tables() {
    let mut s = setup();
    assert_eq!(s.create_default(), 0);
    assert_eq!(s.create_default(), 1);
    assert_eq!(s.create_default(), 2);
}

#[test]
fn test_join_table() {
    let mut s = setup();
    let id = s.create_default();
    let seat = s.join(id, player(0), 500);
    assert_eq!(seat, 0);
    let table = s.table(id);
    assert_eq!(table.players.len(), 1);
    let p = table.players[0];
    assert_eq!(p.address, player(0));
    assert_eq!(p.stack, 500);
    assert_eq!(p.seat_index, 0);
    assert!(!p.folded);
    assert!(!p.all_in);
    assert_eq!(s.balance(Party::Wallet(player(0))), 0);
    assert_eq!(s.balance(Party::This), 500);
}

#[test]
fn test_join_multiple_players() {
    let mut s = setup();
    let id = s.create_default();
    assert_eq!(s.join(id, player(1), 200), 0);
    assert_eq!(s.join(id, player(2), 300), 1);
    assert_eq!(s.join(id, player(3), 500), 2);
    assert_eq!(s.table(id).players.len(), 3);
    assert_eq!(s.balance(Party::This), 1000);
}

#[test]
fn test_join_table_buy_in_too_low() {
    let mut s = setup();
    let id = s.create_default();
    assert_eq!(
        s.c.join_table(&s.env, id, &player(0), 50, 0),
        Err(PokerTableError::InvalidBuyIn)
    );
}

#[test]
fn test_join_table_buy_in_too_high() {
    let mut s = setup();
    let id = s.create_default();
    assert_eq!(
        s.c.join_table(&s.env, id, &player(0), 2000, 0),
        Err(PokerTableError::InvalidBuyIn)
    );
}

#[test]
fn test_join_table_already_seated() {
    let mut s = setup();
    let id = s.create_default();
    s.join(id, player(0), 500);
    assert_eq!(
        s.c.join_table(&s.env, id, &player(0), 500, 0),
        Err(PokerTableError::AlreadySeated)
    );
}

#[test]
fn test_join_table_above_max_players_queues_instead_of_erroring() {
    let mut s = setup();
    let id = s.create(TableConfig { max_players: 2, ..default_config() });
    for n in 0..2 {
        s.join(id, player(n), 500);
    }
    let extra = player(9);
    let position = s.join(id, extra, 500);
    assert_eq!(position, 0);
    assert_eq!(s.table(id).players.len(), 2);
    let queue = s.c.get_queue(id);
    assert_eq!(queue.len(), 1);
    assert_eq!(queue[0].player, extra);
}

#[test]
fn test_start_hand() {
    let mut s = setup();
    let id = s.create_default();
    s.join(id, player(0), 500);
    s.join(id, player(1), 500);
    s.start(id);
    let table = s.table(id);
    assert_eq!(table.phase, GamePhase::Dealing);
    assert_eq!(table.hand_number, 1);
    let sb_player = table.players[0];
    let bb_player = table.players[1];
    assert_eq!(sb_player.bet_this_round, 5);
    assert_eq!(sb_player.stack, 495);
    assert_eq!(bb_player.bet_this_round, 10);
    assert_eq!(bb_player.stack, 490);
    assert_eq!(table.pot, 15);
}

#[test]
fn test_start_hand_exactly_min_players_allowed() {
    let mut s = setup();
    let id = s.create(TableConfig { min_players: 3, max_players: 3, ..default_config() });
    for n in 0..3 {
        s.join(id, player(n), 500);
    }
    s.start(id);
    assert_eq!(s.table(id).phase, GamePhase::Dealing);
}

#[test]
fn test_start_hand_not_enough_players() {
    let mut s = setup();
    let id = s.create(TableConfig { min_players: 3, max_players: 6, ..default_config() });
    s.join(id, player(0), 500);
    s.join(id, player(1), 500);
    assert_eq!(s.c.start_hand(id, 0, 0), Err(PokerTableError::NotEnoughPlayers));
}

#[test]
fn test_admin_can_change_min_players_between_hands() {
    let mut s = setup();
    let id = s.create_default();
    s.c.set_min_players(id, 3).unwrap();
    assert_eq!(s.table(id).config.min_players, 3);
}

#[test]
fn test_admin_cannot_change_min_players_mid_hand() {
    let mut s = setup();
    let id = s.create_default();
    s.join(id, player(0), 500);
    s.join(id, player(1), 500);
    s.start(id);
    assert_eq!(
        s.c.set_min_players(id, 3),
        Err(PokerTableError::CannotChangeMinPlayersMidHand)
    );
}

#[test]
fn test_commit_deal_transitions_to_preflop() {
    let (s, id) = preflop_3p();
    assert_eq!(s.table(id).phase, GamePhase::Preflop);
}

#[test]
fn test_player_fold() {
    let (mut s, id) = preflop_3p();
    let current = s.table(id).current_turn as usize;
    let p = s.turn(id);
    s.act(id, p, Action::Fold);
    assert!(s.table(id).players[current].folded);
}

#[test]
fn test_player_call() {
    let (mut s, id) = preflop_3p();
    let current = s.table(id).current_turn as usize;
    let acting = s.table(id).players[current];
    let pot_before = s.table(id).pot;
    let max_bet = s.table(id).players.iter().map(|p| p.bet_this_round).max().unwrap();
    let to_call = max_bet - acting.bet_this_round;
    s.act(id, acting.address, Action::Call);
    let after = s.table(id);
    assert_eq!(after.players[current].stack, acting.stack - to_call);
    assert_eq!(after.pot, pot_before + to_call);
}

#[test]
fn test_player_bet() {
    let (mut s, id) = heads_up(default_config(), 500);
    let p = s.turn(id);
    s.act(id, p, Action::Call);
    assert_eq!(s.table(id).phase, GamePhase::DealingFlop);
    s.c.reveal_board(&s.env, id, &COMMITTEE, &vec![10, 20, 30], &vec![4, 5, 6], true, 0).unwrap();
    assert_eq!(s.table(id).phase, GamePhase::Flop);

    let current = s.table(id).current_turn as usize;
    let acting = s.table(id).players[current];
    let pot_before = s.table(id).pot;
    let bet_amount: i128 = 20;
    s.act(id, acting.address, Action::Bet(bet_amount));
    let table = s.table(id);
    let after = table.players[current];
    assert_eq!(after.stack, acting.stack - bet_amount);
    assert_eq!(after.bet_this_round, bet_amount);
    assert_eq!(table.pot, pot_before + bet_amount);
}

#[test]
fn test_fold_wins_pot() {
    let (mut s, id) = heads_up(default_config(), 500);
    let pot = s.table(id).pot;
    assert_eq!(pot, 15);
    let current = s.table(id).current_turn as usize;
    let other = 1 - current;
    let before = s.table(id).players[other].stack;
    let folder = s.turn(id);
    s.act(id, folder, Action::Fold);
    let table = s.table(id);
    assert_eq!(table.phase, GamePhase::Settlement);
    assert_eq!(table.pot, 0);
    assert_eq!(table.players[other].stack, before + pot);
}

#[test]
fn test_full_preflop_round_call_call() {
    let (mut s, id) = preflop_3p();
    assert_eq!(s.table(id).pot, 15);
    assert_eq!(s.table(id).current_turn, 1);
    let p1 = s.turn(id);
    s.act(id, p1, Action::Call);
    assert_eq!(s.table(id).current_turn, 2);
    let p2 = s.turn(id);
    s.act(id, p2, Action::Call);
    assert_eq!(s.table(id).phase, GamePhase::DealingFlop);
    assert_eq!(s.table(id).pot, 30);
}

#[test]
fn test_raise_and_call_sequence() {
    let (mut s, id) = heads_up(default_config(), 500);
    let raiser = s.turn(id);
    s.act(id, raiser, Action::Raise(20));
    let caller = s.turn(id);
    s.act(id, caller, Action::Call);
    assert_eq!(s.table(id).phase, GamePhase::DealingFlop);
}

#[test]
fn test_all_in_action() {
    let (mut s, id) = heads_up(default_config(), 200);
    let current = s.table(id).current_turn as usize;
    let p = s.turn(id);
    s.act(id, p, Action::AllIn);
    let p = s.table(id).players[current];
    assert!(p.all_in);
    assert_eq!(p.stack, 0);
}

#[test]
fn test_leave_table_waiting_phase() {
    let mut s = setup();
    let id = s.create_default();
    let p = player(0);
    s.join(id, p, 500);
    assert_eq!(s.balance(Party::Wallet(p)), 0);
    let withdrawn = s.leave(id, p);
    assert_eq!(withdrawn, 500);
    assert_eq!(s.balance(Party::Wallet(p)), 500);
    assert_eq!(s.balance(Party::This), 0);
    assert_eq!(s.table(id).players.len(), 0);
}

#[test]
fn test_leave_table_settlement_phase() {
    let (mut s, id) = heads_up(default_config(), 500);
    let current = s.table(id).current_turn as usize;
    let folder = s.turn(id);
    s.act(id, folder, Action::Fold);
    assert_eq!(s.table(id).phase, GamePhase::Settlement);
    let winner = s.table(id).players[1 - current];
    let withdrawn = s.leave(id, winner.address);
    assert_eq!(withdrawn, winner.stack);
    assert_eq!(s.balance(Party::Wallet(winner.address)), winner.stack);
}

#[test]
fn test_cannot_leave_during_active_hand() {
    let (mut s, id) = heads_up(default_config(), 500);
    let r = s.c.leave_table(&s.env, id, &player(0));
    assert_eq!(r.unwrap_err(), PokerTableError::CannotLeaveDuringActiveHand);
}

#[test]
fn test_leave_table_not_seated() {
    let mut s = setup();
    let id = s.create_default();
    let r = s.c.leave_table(&s.env, id, &player(7));
    assert_eq!(r.unwrap_err(), PokerTableError::PlayerNotAtTable);
}

#[test]
fn test_reveal_board_flop() {
    let (mut s, id) = heads_up(default_config(), 500);
    let actor = s.turn(id);
    s.act(id, actor, Action::Call);
    assert_eq!(s.table(id).phase, GamePhase::DealingFlop);
    s.c.reveal_board(&s.env, id, &COMMITTEE, &vec![10, 20, 30], &vec![4, 5, 6], true, 0).unwrap();
    let table = s.table(id);
    assert_eq!(table.phase, GamePhase::Flop);
    assert_eq!(table.board_cards.len(), 3);
    assert_eq!(table.board_cards[0], 10);
    assert_eq!(table.board_cards[1], 20);
    assert_eq!(table.board_cards[2], 30);
    for p in &table.players {
        assert_eq!(p.bet_this_round, 0);
    }
}

#[test]
fn test_timeout_auto_folds_player() {
    let (mut s, id) = preflop_3p();
    assert_eq!(s.table(id).phase, GamePhase::Preflop);
    let seat = s.table(id).current_turn;
    let stalling = s.table(id).players[seat as usize];
    let new_seq = s.table(id).last_action_ledger + s.table(id).config.timeout_ledgers;
    s.c.claim_timeout(id, new_seq).unwrap();
    let table = s.table(id);
    let folded = table.players[seat as usize];
    assert!(folded.folded);
    assert_ne!(table.current_turn, seat);
    assert_eq!(folded.address, stalling.address);
}

#[test]
fn test_second_hand_after_settlement() {
    let (mut s, id) = heads_up(default_config(), 500);
    let folder = s.turn(id);
    s.act(id, folder, Action::Fold);
    assert_eq!(s.table(id).phase, GamePhase::Settlement);
    assert_eq!(s.table(id).hand_number, 1);
    s.start(id);
    let table = s.table(id);
    assert_eq!(table.phase, GamePhase::Dealing);
    assert_eq!(table.hand_number, 2);
    assert_eq!(table.pot, 15);
    for p in &table.players {
        assert!(!p.folded);
        assert!(!p.all_in);
    }
}

#[test]
fn test_create_table_rejects_rake_above_max() {
    let mut s = setup();
    assert_eq!(
        s.c.create_table(ADMIN, rake_config(501), 0, 0),
        Err(PokerTableError::RakeBpsExceedsMax)
    );
}

#[test]
fn test_create_table_accepts_max_rake() {
    let mut s = setup();
    let id = s.create(rake_config(500));
    assert_eq!(s.table(id).config.rake_bps, 500);
    assert_eq!(s.table(id).rake_balance, 0);
}

#[test]
fn test_fold_win_deducts_rake() {
    let (mut s, id) = heads_up(rake_config(500), 5000);
    let pot = s.table(id).pot;
    assert_eq!(pot, 300);
    let other = 1 - s.table(id).current_turn as usize;
    let before = s.table(id).players[other].stack;
    let folder = s.turn(id);
    s.act(id, folder, Action::Fold);
    let expected_rake = 15;
    assert_eq!(s.table(id).rake_balance, expected_rake);
    assert_eq!(s.table(id).players[other].stack, before + pot - expected_rake);
    assert_eq!(s.c.get_rake_balance(id), Ok(expected_rake));
}

#[test]
fn test_fold_win_rake_rounds_down_on_small_pot() {
    let config = TableConfig { blinds_schedule: BlindsSchedule::fixed(1, 2), ..rake_config(100) };
    let (mut s, id) = heads_up(config, 5000);
    assert_eq!(s.table(id).pot, 3);
    let other = 1 - s.table(id).current_turn as usize;
    let before = s.table(id).players[other].stack;
    let folder = s.turn(id);
    s.act(id, folder, Action::Fold);
    assert_eq!(s.table(id).rake_balance, 0);
    assert_eq!(s.table(id).players[other].stack, before + 3);
}

#[test]
fn test_withdraw_rake_transfers_to_admin() {
    let (mut s, id) = heads_up(rake_config(500), 5000);
    let folder = s.turn(id);
    s.act(id, folder, Action::Fold);
    assert_eq!(s.c.get_rake_balance(id), Ok(15));
    assert_eq!(s.balance(Party::Wallet(ADMIN)), 0);

    let (withdrawn, transfer) = s.c.withdraw_rake(id).unwrap();
    s.apply(transfer.unwrap());
    assert_eq!(withdrawn, 15);
    assert_eq!(s.balance(Party::Wallet(ADMIN)), 15);
    assert_eq!(s.c.get_rake_balance(id), Ok(0));

    let (again, transfer) = s.c.withdraw_rake(id).unwrap();
    assert_eq!(again, 0);
    assert!(transfer.is_none());
    assert_eq!(s.balance(Party::Wallet(ADMIN)), 15);
}

#[test]
fn test_set_rake_bps_updates_config() {
    let mut s = setup();
    let id = s.create_default();
    s.c.set_rake_bps(id, 250).unwrap();
    assert_eq!(s.table(id).config.rake_bps, 250);
}

#[test]
fn test_set_rake_bps_rejects_above_max() {
    let mut s = setup();
    let id = s.create_default();
    assert_eq!(s.c.set_rake_bps(id, 501), Err(PokerTableError::RakeBpsExceedsMax));
}

#[test]
fn test_test_pause_and_unpause() {
    let mut s = setup();
    let id = s.create_default();
    assert!(!s.c.is_paused(id));
    s.c.pause(id).unwrap();
    assert!(s.c.is_paused(id));
    s.c.unpause(id).unwrap();
    assert!(!s.c.is_paused(id));
}

#[test]
fn test_paused_blocks_join_table() {
    let mut s = setup();
    let id = s.create_default();
    s.c.pause(id).unwrap();
    assert_eq!(
        s.c.join_table(&s.env, id, &player(0), 500, 0),
        Err(PokerTableError::ContractPaused)
    );
}

#[test]
fn test_paused_blocks_start_hand() {
    let mut s = setup();
    let id = s.create_default();
    s.join(id, player(0), 500);
    s.join(id, player(1), 500);
    s.c.pause(id).unwrap();
    assert_eq!(s.c.start_hand(id, 0, 0), Err(PokerTableError::ContractPaused));
}

#[test]
fn test_paused_blocks_player_action() {
    let (mut s, id) = heads_up(default_config(), 500);
    s.c.pause(id).unwrap();
    let actor = s.turn(id);
    let r = s.c.player_action(&s.env, id, &actor, 1, &Action::Fold, 0);
    assert_eq!(r.unwrap_err(), PokerTableError::ContractPaused);
}

#[test]
fn test_test_admin_can_read_while_paused() {
    let mut s = setup();
    let id = s.create_default();
    s.join(id, player(0), 500);
    s.join(id, player(1), 500);
    s.c.pause(id).unwrap();
    assert_eq!(s.table(id).players.len(), 2);
    assert_eq!(s.c.get_admin(id), Ok(ADMIN));
    assert_eq!(s.c.get_rake_balance(id), Ok(0));
}

#[test]
fn test_test_unpause_allows_operations_again() {
    let mut s = setup();
    let id = s.create_default();
    s.c.pause(id).unwrap();
    s.c.unpause(id).unwrap();
    assert_eq!(s.join(id, player(0), 500), 0);
}

#[test]
fn test_hand_history_records_settled_hand() {
    let mut s = setup();
    let id = s.create_default();
    s.join(id, player(0), 500);
    s.join(id, player(1), 500);
    assert_eq!(s.c.get_hand_history(id, 0).len(), 0);
    s.play_fold_hand(id);
    let history = s.c.get_hand_history(id, 0);
    assert_eq!(history.len(), 1);
    let record = &history[0];
    assert_eq!(record.hand_number, 1);
    assert_eq!(record.players.len(), 2);
    assert!(!record.showdown);
    assert_eq!(record.total_pot, 15);
    assert_eq!(record.rake, 0);
    assert_eq!(record.payouts.len(), 1);
    assert_eq!(record.payouts[0].amount, 15);
    assert_eq!(record.actions.len(), 1);
    let action = record.actions[0];
    assert_eq!(action.kind, ActionKind::Fold);
    assert_eq!(action.amount, 0);
    assert_eq!(action.phase, GamePhase::Preflop);
}

#[test]
fn test_hand_history_is_newest_first_and_queryable_by_number() {
    let mut s = setup();
    let id = s.create_default();
    s.join(id, player(0), 500);
    s.join(id, player(1), 500);
    for _ in 0..3 {
        s.play_fold_hand(id);
    }
    let history = s.c.get_hand_history(id, 0);
    assert_eq!(history.len(), 3);
    assert_eq!(history[0].hand_number, 3);
    assert_eq!(history[1].hand_number, 2);
    assert_eq!(history[2].hand_number, 1);

    let latest = s.c.get_hand_history(id, 2);
    assert_eq!(latest.len(), 2);
    assert_eq!(latest[0].hand_number, 3);

    assert_eq!(s.c.get_hand(id, 2).unwrap().hand_number, 2);
    assert!(s.c.get_hand(id, 99).is_none());

    let meta = s.c.get_hand_history_meta(id);
    assert_eq!(meta.stored, 3);
    assert_eq!(meta.total_archived, 3);
}

#[test]
fn test_hand_history_buffer_evicts_oldest() {
    let mut s = setup();
    let id = s.create_default();
    s.join(id, player(0), 500);
    s.join(id, player(1), 500);
    let capacity = PokerTableContract::hand_history_capacity();
    for _ in 0..capacity + 2 {
        s.play_fold_hand(id);
    }
    let meta = s.c.get_hand_history_meta(id);
    assert_eq!(meta.stored, capacity);
    assert_eq!(meta.total_archived, capacity + 2);
    let history = s.c.get_hand_history(id, 0);
    assert_eq!(history.len(), capacity as usize);
    assert_eq!(history[0].hand_number, capacity + 2);
    assert!(s.c.get_hand(id, 1).is_none());
    assert!(s.c.get_hand(id, 2).is_none());
    assert!(s.c.get_hand(id, 3).is_some());
    assert_eq!(s.c.get_hand_history_chunk(id, 1, 2)[0].hand_number, capacity + 1);
}

#[test]
fn test_hand_history_records_bets_and_rake() {
    let (mut s, id) = heads_up(rake_config(500), 5000);
    let raiser = s.turn(id);
    s.act(id, raiser, Action::Raise(200));
    let folder = s.turn(id);
    s.act(id, folder, Action::Fold);
    let record = s.c.get_hand(id, 1).unwrap();
    assert_eq!(record.actions.len(), 2);
    assert_eq!(record.actions[0].kind, ActionKind::Raise);
    assert_eq!(record.actions[0].amount, 300);
    assert_eq!(record.actions[1].kind, ActionKind::Fold);
    assert_eq!(record.actions[1].amount, 0);
    assert_eq!(record.total_pot, 600);
    assert_eq!(record.rake, 30);
    assert_eq!(record.payouts[0].amount, 570);
}

fn rebuy_table(s: &mut Setup, max_rebuys: u32) -> u32 {
    s.create(TableConfig { max_rebuys, ..default_config() })
}

#[test]
fn test_rebuy_tops_up_a_partial_amount() {
    let mut s = setup();
    let id = rebuy_table(&mut s, 0);
    let p = player(0);
    s.join(id, p, 200);
    assert_eq!(s.rebuy(id, p, 150), 350);
    let seat = s.table(id).players[0];
    assert_eq!(seat.stack, 350);
    assert_eq!(seat.total_buy_in, 350);
    assert_eq!(seat.rebuy_count, 1);
    assert_eq!(s.balance(Party::Wallet(p)), 0);
    let (total, count) = s.c.get_player_buy_in(&s.env, id, &p).unwrap();
    assert_eq!(total, 350);
    assert_eq!(count, 1);
}

#[test]
fn test_rebuy_allows_repeated_partial_top_ups() {
    let mut s = setup();
    let id = rebuy_table(&mut s, 0);
    let p = player(0);
    s.join(id, p, 100);
    assert_eq!(s.rebuy(id, p, 50), 150);
    assert_eq!(s.rebuy(id, p, 50), 200);
    assert_eq!(s.rebuy(id, p, 800), 1000);
    let (total, count) = s.c.get_player_buy_in(&s.env, id, &p).unwrap();
    assert_eq!(total, 1000);
    assert_eq!(count, 3);
}

#[test]
fn test_rebuy_respects_the_per_session_limit() {
    let mut s = setup();
    let id = rebuy_table(&mut s, 2);
    let p = player(0);
    s.join(id, p, 200);
    s.rebuy(id, p, 100);
    s.rebuy(id, p, 100);
    assert_eq!(
        s.c.rebuy(&s.env, id, &p, 100),
        Err(PokerTableError::RebuyLimitReached)
    );
}

#[test]
fn test_rebuy_cannot_exceed_max_buy_in() {
    let mut s = setup();
    let id = rebuy_table(&mut s, 0);
    let p = player(0);
    s.join(id, p, 900);
    assert_eq!(
        s.c.rebuy(&s.env, id, &p, 200),
        Err(PokerTableError::InvalidRebuyAmount)
    );
    assert_eq!(s.rebuy(id, p, 100), 1000);
}

#[test]
fn test_rebuy_must_reach_min_buy_in() {
    let mut s = setup();
    let id = rebuy_table(&mut s, 0);
    s.join(id, player(0), 100);
    s.join(id, player(1), 500);
    s.start(id);
    s.deal(id, 2);
    let folder = s.turn(id);
    s.act(id, folder, Action::Fold);
    let short = *s.table(id).players.iter().find(|p| p.stack < 100).unwrap();
    let needed = 100 - short.stack;
    assert!(needed > 1);
    assert_eq!(
        s.c.rebuy(&s.env, id, &short.address, needed - 1),
        Err(PokerTableError::InvalidRebuyAmount)
    );
    assert_eq!(s.rebuy(id, short.address, needed), 100);
}

#[test]
fn test_rebuy_rejects_non_positive_amount() {
    let mut s = setup();
    let id = rebuy_table(&mut s, 0);
    s.join(id, player(0), 500);
    assert_eq!(
        s.c.rebuy(&s.env, id, &player(0), 0),
        Err(PokerTableError::InvalidRebuyAmount)
    );
}

#[test]
fn test_rebuy_rejected_during_an_active_hand() {
    let mut s = setup();
    let id = rebuy_table(&mut s, 0);
    s.join(id, player(0), 200);
    s.join(id, player(1), 200);
    s.start(id);
    s.deal(id, 2);
    assert_eq!(
        s.c.rebuy(&s.env, id, &player(0), 100),
        Err(PokerTableError::CannotRebuyDuringActiveHand)
    );
}

#[test]
fn test_rebuy_allowed_in_settlement_between_hands() {
    let mut s = setup();
    let id = rebuy_table(&mut s, 0);
    s.join(id, player(0), 200);
    s.join(id, player(1), 200);
    s.play_fold_hand(id);
    assert_eq!(s.table(id).phase, GamePhase::Settlement);
    let before = s.table(id).players[0].stack;
    assert_eq!(s.rebuy(id, player(0), 100), before + 100);
}

#[test]
fn test_rebuy_requires_a_seat() {
    let mut s = setup();
    let id = rebuy_table(&mut s, 0);
    assert_eq!(
        s.c.rebuy(&s.env, id, &player(8), 500),
        Err(PokerTableError::PlayerNotAtTable)
    );
}

#[test]
fn test_rebuy_preserves_chip_conservation() {
    let mut s = setup();
    let id = rebuy_table(&mut s, 0);
    s.join(id, player(0), 200);
    s.join(id, player(1), 300);
    assert_eq!(s.balance(Party::This), 500);
    s.rebuy(id, player(0), 250);
    assert_eq!(s.balance(Party::This), 750);
    let table = s.table(id);
    let stacks: i128 = table.players.iter().map(|p| p.stack).sum();
    assert_eq!(s.balance(Party::This), stacks + table.pot + table.rake_balance);
}

#[test]
fn test_set_max_rebuys_updates_the_limit() {
    let mut s = setup();
    let id = rebuy_table(&mut s, 1);
    let p = player(0);
    s.join(id, p, 200);
    s.rebuy(id, p, 100);
    assert_eq!(
        s.c.rebuy(&s.env, id, &p, 100),
        Err(PokerTableError::RebuyLimitReached)
    );
    s.c.set_max_rebuys(id, 3).unwrap();
    assert_eq!(s.rebuy(id, p, 100), 400);
    assert_eq!(s.table(id).config.max_rebuys, 3);
}

#[test]
fn test_rebuy_counter_resets_after_rejoining() {
    let mut s = setup();
    let id = rebuy_table(&mut s, 1);
    let p = player(0);
    s.join(id, p, 200);
    s.rebuy(id, p, 100);
    assert_eq!(s.c.get_player_buy_in(&s.env, id, &p).unwrap().1, 1);
    s.leave(id, p);
    s.join(id, p, 300);
    let (total, count) = s.c.get_player_buy_in(&s.env, id, &p).unwrap();
    assert_eq!(total, 300);
    assert_eq!(count, 0);
}

#[test]
fn test_one_wallet_can_sit_at_many_tables_at_once() {
    let mut s = setup();
    let p = player(0);
    let mut ids = Vec::new();
    for _ in 0..8 {
        let id = s.create_default();
        s.join(id, p, 300);
        ids.push(id);
    }
    let seated = s.c.get_player_tables(&p);
    assert_eq!(seated.len(), 8);
    assert_eq!(s.c.get_player_table_count(&p), 8);
    for i in 0..8 {
        assert_eq!(seated[i], ids[i]);
        assert_eq!(s.table(ids[i]).players[0].address, p);
    }
}

#[test]
fn test_player_table_index_is_empty_by_default() {
    let s = setup();
    assert_eq!(s.c.get_player_tables(&player(0)).len(), 0);
    assert_eq!(s.c.get_player_table_count(&player(0)), 0);
}

#[test]
fn test_leaving_one_table_keeps_the_others() {
    let mut s = setup();
    let p = player(0);
    let a = s.create_default();
    let b = s.create_default();
    let c = s.create_default();
    for id in [a, b, c] {
        s.join(id, p, 300);
    }
    s.leave(b, p);
    assert_eq!(s.c.get_player_tables(&p), vec![a, c]);
}

#[test]
fn test_leaving_the_last_table_clears_the_index() {
    let mut s = setup();
    let p = player(0);
    let id = s.create_default();
    s.join(id, p, 300);
    s.leave(id, p);
    assert_eq!(s.c.get_player_tables(&p).len(), 0);
}

#[test]
fn test_tables_stay_independent_across_concurrent_seats() {
    let mut s = setup();
    let (hero, va, vb) = (player(0), player(1), player(2));
    let a = s.create_default();
    let b = s.create_default();
    s.join(a, hero, 400);
    s.join(a, va, 400);
    s.join(b, hero, 400);
    s.join(b, vb, 400);
    s.play_fold_hand(a);
    assert_eq!(s.table(a).phase, GamePhase::Settlement);
    assert_eq!(s.table(b).phase, GamePhase::Waiting);
    assert_eq!(s.c.get_hand_history(a, 0).len(), 1);
    assert_eq!(s.c.get_hand_history(b, 0).len(), 0);
    assert_eq!(s.c.get_player_tables(&hero).len(), 2);
}

#[test]
fn test_rejoining_does_not_duplicate_the_index_entry() {
    let mut s = setup();
    let p = player(0);
    let id = s.create_default();
    s.join(id, p, 300);
    s.leave(id, p);
    s.join(id, p, 300);
    assert_eq!(s.c.get_player_tables(&p), vec![id]);
}

#[test]
fn test_hand_history_is_per_table() {
    let mut s = setup();
    let a = s.create_default();
    let b = s.create_default();
    let mut n = 0;
    for id in [a, b] {
        s.join(id, player(n), 500);
        s.join(id, player(n + 1), 500);
        n += 2;
    }
    s.play_fold_hand(a);
    s.play_fold_hand(a);
    s.play_fold_hand(b);
    assert_eq!(s.c.get_hand_history(a, 0).len(), 2);
    assert_eq!(s.c.get_hand_history(b, 0).len(), 1);
}

#[test]
fn actions_must_carry_the_next_number() {
    let (mut s, id) = preflop_3p();
    let p = s.turn(id);
    let stale = |s: &mut Setup, seq: u32| {
        s.c.player_action(&s.env, id, &p, seq, &Action::Call, 0).unwrap_err()
    };
    assert_eq!(stale(&mut s, 0), PokerTableError::StaleActionSequence);
    assert_eq!(stale(&mut s, 2), PokerTableError::StaleActionSequence);
    s.act(id, p, Action::Call);
    assert_eq!(stale(&mut s, 1), PokerTableError::StaleActionSequence);
    assert_eq!(stale(&mut s, 2), PokerTableError::NotYourTurn);
}

#[test]
fn chips_are_conserved_through_a_hand() {
    let (mut s, id) = heads_up(rake_config(500), 5000);
    let total = |s: &Setup| {
        let t = s.table(id);
        let stacks: i128 = t.players.iter().map(|p| p.stack).sum();
        stacks + t.pot + t.rake_balance + t.jackpot_balance
    };
    let committed = |s: &Setup| s.table(id).players.iter().map(|p| p.committed).sum::<i128>();
    assert_eq!(total(&s), 10_000);
    assert_eq!(s.table(id).pot, committed(&s));
    let p = s.turn(id);
    s.act(id, p, Action::Raise(400));
    assert_eq!(total(&s), 10_000);
    assert_eq!(s.table(id).pot, committed(&s));
    let p = s.turn(id);
    s.act(id, p, Action::Call);
    assert_eq!(total(&s), 10_000);
    s.c.reveal_board(&s.env, id, &COMMITTEE, &vec![1, 2, 3], &vec![4, 5, 6], true, 1).unwrap();
    let p = s.turn(id);
    s.act(id, p, Action::AllIn);
    let p = s.turn(id);
    s.act(id, p, Action::Fold);
    assert_eq!(total(&s), 10_000);
    assert_eq!(s.table(id).phase, GamePhase::Settlement);
}

#[test]
fn betting_rules_are_enforced() {
    let (mut s, id) = preflop_3p();
    let p = s.turn(id);
    let mut refuse = |a: Action| s.c.player_action(&s.env, id, &p, 1, &a, 0).unwrap_err();
    assert_eq!(refuse(Action::Check), PokerTableError::MustCallOrFold);
    assert_eq!(refuse(Action::Bet(50)), PokerTableError::CannotBetWhenOutstandingBet);
    assert_eq!(refuse(Action::Raise(9)), PokerTableError::RaiseTooSmall);
    assert_eq!(refuse(Action::Raise(600)), PokerTableError::NotEnoughChips);
    let other = player(0);
    let r = s.c.player_action(&s.env, id, &other, 1, &Action::Fold, 0).unwrap_err();
    assert_eq!(r, PokerTableError::NotYourTurn);
    let r = s.c.player_action(&s.env, id, &player(9), 1, &Action::Fold, 0).unwrap_err();
    assert_eq!(r, PokerTableError::PlayerNotAtTable);
}

#[test]
fn seats_are_renumbered_when_a_player_leaves() {
    let mut s = setup();
    let id = s.create_default();
    for n in 0..4 {
        s.join(id, player(n), 200);
    }
    s.leave(id, player(1));
    let t = s.table(id);
    assert_eq!(t.players.len(), 3);
    for (i, p) in t.players.iter().enumerate() {
        assert_eq!(p.seat_index, i as u32);
    }
    assert_eq!(t.players[1].address, player(2));
}

#[test]
fn players_are_listed_page_by_page() {
    let mut s = setup();
    let id = s.create_default();
    for n in 0..5 {
        s.join(id, player(n), 200);
    }
    assert_eq!(s.c.get_player_count(id), Ok(5));
    let page = s.c.get_players_paginated(id, 1, 2).unwrap();
    assert_eq!(page.len(), 2);
    assert_eq!(page[0].address, player(1));
    assert_eq!(s.c.get_players_paginated(id, 4, 9).unwrap().len(), 1);
    assert_eq!(s.c.get_players_paginated(id, 5, 1).unwrap().len(), 0);
    assert_eq!(s.c.get_players_paginated(7, 0, 1).unwrap_err(), PokerTableError::TableNotFound);
}

#[test]
fn only_the_committee_deals() {
    let mut s = setup();
    let id = s.create_default();
    s.join(id, player(0), 500);
    s.join(id, player(1), 500);
    let root = Bytes32::splat(1);
    let two = vec![Bytes32::splat(2); 2];
    let mut deal = |s: &mut Setup, who: Address, comms: Vec<Bytes32>, ok: bool| {
        s.c.commit_deal(&s.env, id, &who, root, comms, vec![0, 1, 2, 3], ok, 0)
    };
    assert_eq!(
        deal(&mut s, COMMITTEE, two.clone(), true),
        Err(PokerTableError::NotInDealingPhase)
    );
    s.start(id);
    assert_eq!(
        deal(&mut s, ADMIN, two.clone(), true),
        Err(PokerTableError::NotAuthorizedCommittee)
    );
    assert_eq!(
        deal(&mut s, COMMITTEE, vec![root], true),
        Err(PokerTableError::WrongCommitmentCount)
    );
    assert_eq!(
        deal(&mut s, COMMITTEE, two.clone(), false),
        Err(PokerTableError::DealProofVerificationFailed)
    );
    assert_eq!(deal(&mut s, COMMITTEE, two, true), Ok(()));
    assert_eq!(
        s.c.reveal_board(&s.env, id, &COMMITTEE, &vec![1, 2, 3], &vec![4, 5, 6], true, 0),
        Err(PokerTableError::NotInRevealPhase)
    );
}

#[test]
fn stalling_players_are_folded_by_force() {
    let (mut s, id) = preflop_3p();
    let seat = s.table(id).current_turn;
    let other = s.table(id).players[((seat + 1) % 3) as usize].address;
    let early = s.c.force_fold(&s.env, id, &other, seat, 99).unwrap_err();
    assert_eq!(early, PokerTableError::TimeoutNotReached);
    let own = s.table(id).players[seat as usize].address;
    let r = s.c.force_fold(&s.env, id, &own, seat, 100).unwrap_err();
    assert_eq!(r, PokerTableError::NotYourTurn);
    s.c.force_fold(&s.env, id, &other, seat, 100).unwrap();
    assert!(s.table(id).players[seat as usize].folded);
    assert_eq!(s.table(id).action_deadline, 200);
}

#[test]
fn a_stalled_deal_is_refunded() {
    let (mut s, id) = heads_up(default_config(), 500);
    let p = s.turn(id);
    s.act(id, p, Action::Call);
    assert_eq!(s.table(id).phase, GamePhase::DealingFlop);
    s.c.claim_timeout(id, 100).unwrap();
    let t = s.table(id);
    assert_eq!(t.phase, GamePhase::Settlement);
    assert_eq!(t.pot, 0);
    assert_eq!(t.players[0].stack, 500);
    assert_eq!(t.players[1].stack, 500);
}
