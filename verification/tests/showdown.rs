use soroban_sdk::testutils::EnvTestConfig;
use soroban_sdk::Env;
use stellar_poker::host::{Address, Bytes32, Party, Transfer};
use stellar_poker::poker_table::contract::PokerTableContract;
use stellar_poker::poker_table::settlement::{distribute, Named};
use stellar_poker::poker_table::tournament::prize_for_place;
use stellar_poker::poker_table::types::{
    Action, BettingStructure, BlindsSchedule, GamePhase, PlayerState, PokerTableError,
    StraddlePosition, StreetTimeLimit, TableConfig, TableState,
};

const TOKEN: Address = Address::Contract(Bytes32 { w0: 1, w1: 1, w2: 1, w3: 1 });
const ADMIN: Address = Address::Account(Bytes32 { w0: 2, w1: 2, w2: 2, w3: 2 });
const COMMITTEE: Address = Address::Account(Bytes32 { w0: 3, w1: 3, w2: 3, w3: 3 });
const HUB: Address = Address::Contract(Bytes32 { w0: 5, w1: 5, w2: 5, w3: 5 });

fn player(n: u64) -> Address {
    Address::Account(Bytes32 { w0: 100 + n, w1: n, w2: 0, w3: 9 })
}

fn config(max_players: u32, rake_bps: u32) -> TableConfig {
    TableConfig {
        token: TOKEN,
        min_buy_in: 100,
        max_buy_in: 2_000,
        betting_structure: BettingStructure::NoLimit,
        blinds_schedule: BlindsSchedule::fixed(5, 10),
        min_players: 2,
        max_players,
        timeout_ledgers: 200,
        committee: COMMITTEE,
        verifier: HUB,
        game_hub: HUB,
        rake_bps,
        max_rebuys: 0,
        jackpot_rake_share_bps: 0,
        min_bad_beat_category: 7,
        min_bad_beat_rank: 12,
        street_time_limit: None,
        treasury: None,
        dead_chip_timeout_ledgers: 0,
        reclaim_period_ledgers: 0,
    }
}

struct Setup {
    env: Env,
    c: PokerTableContract,
    id: u32,
    held: i128,
    seqs: Vec<(Address, u32)>,
}

impl Setup {
    fn new(max_players: u32, rake_bps: u32) -> Setup {
        let env = Env::new_with_config(EnvTestConfig { capture_snapshot_at_drop: false });
        let mut c = PokerTableContract::new();
        let id = c.create_table(ADMIN, config(max_players, rake_bps), 0, 0).unwrap();
        Setup { env, c, id, held: 0, seqs: Vec::new() }
    }

    fn table(&self) -> &TableState {
        self.c.get_table(self.id).unwrap()
    }

    fn apply(&mut self, t: Transfer) {
        assert_eq!(t.token, TOKEN);
        if t.to == Party::This {
            self.held += t.amount;
        }
        if t.from == Party::This {
            self.held -= t.amount;
        }
    }

    fn join(&mut self, p: Address, buy_in: i128) {
        let t = self.c.join_table(&self.env, self.id, &p, buy_in, 0).unwrap().transfer;
        self.apply(t);
    }

    fn deal(&mut self) {
        self.c.start_hand(self.id, 0, 0).unwrap();
        let n = self.table().players.len();
        self.c
            .commit_deal(
                &self.env,
                self.id,
                &COMMITTEE,
                Bytes32::splat(1),
                vec![Bytes32::splat(2); n],
                (0..2 * n as u32).collect(),
                true,
                0,
            )
            .unwrap();
    }

    fn actor(&self) -> PlayerState {
        let t = self.table();
        t.players[t.current_turn as usize]
    }

    fn act(&mut self, action: Action) -> Address {
        let p = self.actor().address;
        let seq = match self.seqs.iter_mut().find(|e| e.0 == p) {
            Some(e) => {
                e.1 += 1;
                e.1
            }
            None => {
                self.seqs.push((p, 1));
                1
            }
        };
        self.c.player_action(&self.env, self.id, &p, seq, &action, 0).unwrap();
        p
    }

    fn turn_up(&mut self, cards: u32) {
        let t = self.table();
        let at = 2 * t.players.len() as u32 + t.board_cards.len() as u32;
        let v: Vec<u32> = (at..at + cards).collect();
        self.c.reveal_board(&self.env, self.id, &COMMITTEE, &v, &v, true, 0).unwrap();
    }

    fn show(&mut self, winner: u32, tie_mask: u32) -> Result<(), PokerTableError> {
        self.show_scored(winner, tie_mask, &Vec::new())
    }

    fn show_scored(
        &mut self,
        winner: u32,
        tie_mask: u32,
        scores: &Vec<(u32, u32)>,
    ) -> Result<(), PokerTableError> {
        let mut pi = vec![0u8; 27 * 32];
        let mut cards = Vec::new();
        for p in &self.table().players {
            if !p.folded {
                put(&mut pi, 13 + p.seat_index, 30 + p.seat_index);
                put(&mut pi, 19 + p.seat_index, 40 + p.seat_index);
                cards.push((30 + p.seat_index, 40 + p.seat_index));
            }
        }
        put(&mut pi, 25, winner);
        put(&mut pi, 26, tie_mask);
        self.c
            .submit_showdown(&self.env, self.id, &COMMITTEE, &cards, &pi, scores, true, 0)
            .map(|_| ())
    }

    fn drive_to_settlement(&mut self, winner: u32) {
        for _ in 0..20 {
            match self.table().phase {
                GamePhase::Settlement => return,
                GamePhase::Showdown => self.show(winner, 0).unwrap(),
                GamePhase::DealingFlop => self.turn_up(3),
                GamePhase::DealingTurn => self.turn_up(1),
                GamePhase::DealingRiver => self.turn_up(1),
                GamePhase::Flop | GamePhase::Turn | GamePhase::River => {
                    let p = self.actor();
                    if !p.all_in && !p.folded {
                        self.act(Action::Check);
                    }
                }
                _ => {}
            }
        }
    }

    fn leave(&mut self, p: Address) {
        let (_, transfers) = self.c.leave_table(&self.env, self.id, &p).unwrap();
        for t in transfers {
            self.apply(t);
        }
    }

    fn assert_chip_conservation(&self, expected_total: i128) {
        let t = self.table();
        let stacks: i128 = t.players.iter().map(|p| p.stack).sum();
        assert_eq!(stacks + t.pot + t.rake_balance, expected_total);
    }

    fn assert_invariants(&self, initial_total: i128, rake_bps: u32) {
        let t = self.table();
        let mut committed = 0i128;
        for p in &t.players {
            assert!(p.stack >= 0);
            assert!(p.committed >= 0);
            assert!(p.bet_this_round >= 0);
            committed += p.committed;
        }
        assert!(t.pot >= 0);
        assert!(t.rake_balance >= 0);
        self.assert_chip_conservation(initial_total);
        assert_eq!(self.held, initial_total);
        if t.phase == GamePhase::Settlement {
            assert_eq!(t.pot, 0);
            assert!(t.rake_balance <= committed * rake_bps as i128 / 10_000);
            let mut net_side_pots = 0i128;
            for pot in &t.side_pots {
                assert!(pot.amount >= 0);
                net_side_pots += pot.amount;
            }
            if t.side_pots.len() > 0 {
                assert_eq!(net_side_pots + t.rake_balance, committed);
            }
        }
    }
}

fn put(pi: &mut [u8], field: u32, x: u32) {
    let at = field as usize * 32 + 28;
    pi[at..at + 4].copy_from_slice(&x.to_be_bytes());
}

#[test]
fn test_tournament_lifecycle_4_players() {
    let mut s = Setup::new(4, 0);
    let buy_in: i128 = 500;
    let n_players: usize = 4;
    let prize_pool: i128 = buy_in * n_players as i128;
    for i in 0..n_players {
        s.join(player(i as u64), buy_in);
    }
    s.assert_chip_conservation(prize_pool);
    let mut finish_order: Vec<Address> = vec![];

    s.deal();
    assert_eq!(s.table().phase, GamePhase::Preflop);
    let p0_seat = s.table().current_turn;
    s.act(Action::AllIn);
    let p1_seat = s.table().current_turn;
    let p1_addr = s.act(Action::AllIn);
    s.act(Action::Fold);
    s.act(Action::Fold);
    s.drive_to_settlement(p0_seat);
    s.assert_chip_conservation(prize_pool);
    assert_eq!(s.table().phase, GamePhase::Settlement);
    let p1 = s.table().players[p1_seat as usize];
    assert_eq!(p1.stack, 0, "P1 should be eliminated after losing the all-in");
    finish_order.push(p1.address);
    s.leave(p1_addr);
    s.assert_chip_conservation(prize_pool);
    assert_eq!(s.table().players.len(), 3);

    s.deal();
    assert_eq!(s.table().phase, GamePhase::Preflop);
    let utg_seat = s.table().current_turn;
    s.act(Action::AllIn);
    while s.table().phase == GamePhase::Preflop && !s.actor().all_in {
        s.act(Action::Fold);
    }
    if s.table().phase == GamePhase::Showdown {
        s.drive_to_settlement(utg_seat);
    }
    s.assert_chip_conservation(prize_pool);

    s.deal();
    assert_eq!(s.table().phase, GamePhase::Preflop);
    let utg_seat = s.table().current_turn;
    s.act(Action::AllIn);
    let mut caller: Option<(u32, Address)> = None;
    while s.table().phase == GamePhase::Preflop && !s.actor().all_in {
        if caller.is_none() {
            let seat = s.table().current_turn;
            let addr = s.act(Action::Call);
            caller = Some((seat, addr));
        } else {
            s.act(Action::Fold);
        }
    }
    s.drive_to_settlement(utg_seat);
    s.assert_chip_conservation(prize_pool);
    assert_eq!(s.table().phase, GamePhase::Settlement);
    if let Some((seat, addr)) = caller {
        let loser = s.table().players[seat as usize];
        if loser.stack == 0 {
            finish_order.push(loser.address);
            s.leave(addr);
        }
    }
    s.assert_chip_conservation(prize_pool);

    let mut final_hand_attempts = 0;
    while s.table().players.len() > 1 {
        final_hand_attempts += 1;
        assert!(final_hand_attempts <= 10, "tournament stalled");
        s.deal();
        let first_seat = s.table().current_turn;
        s.act(Action::AllIn);
        if s.table().phase == GamePhase::Preflop {
            let p = s.actor();
            if !p.all_in && !p.folded {
                s.act(Action::Call);
            }
        }
        s.drive_to_settlement(first_seat);
        s.assert_chip_conservation(prize_pool);
        if s.table().phase != GamePhase::Settlement {
            continue;
        }
        let out: Vec<Address> =
            s.table().players.iter().filter(|p| p.stack == 0).map(|p| p.address).collect();
        for addr in out {
            finish_order.push(addr);
            s.leave(addr);
        }
        s.assert_chip_conservation(prize_pool);
    }

    assert_eq!(s.table().players.len(), 1, "exactly one champion remains");
    assert_eq!(s.table().players[0].stack, prize_pool, "champion holds all chips");
    let all_places = finish_order.len() + 1;
    assert_eq!(all_places, n_players, "all players accounted for in finish order");
    let mut payout_sum = prize_for_place(prize_pool, 0);
    for i in 0..finish_order.len() {
        payout_sum += prize_for_place(prize_pool, i + 1);
    }
    let rounding_slack = n_players as i128;
    assert!(
        (payout_sum - prize_pool).abs() <= rounding_slack,
        "prize payouts should sum to prize pool (within rounding): sum={} pool={}",
        payout_sum,
        prize_pool
    );
    assert_eq!(s.held, prize_pool);
}

fn next(seed: &mut u64) -> u64 {
    *seed = seed.wrapping_mul(6_364_136_223_846_793_005).wrapping_add(1_442_695_040_888_963_407);
    *seed >> 33
}

fn choose_action(t: &TableState, mv: u64) -> Action {
    let p = t.players[t.current_turn as usize];
    let current_bet = t.players.iter().map(|q| q.bet_this_round).max().unwrap();
    let to_call = current_bet - p.bet_this_round;
    let active = t.players.iter().filter(|q| !q.folded).count();
    let passive = if to_call > 0 { Action::Call } else { Action::Check };
    match mv % 4 {
        0 => passive,
        1 => {
            if to_call > 0 && p.stack > to_call + 10 {
                Action::Raise(10)
            } else if to_call > 0 {
                Action::Call
            } else if p.stack >= 10 {
                Action::Bet(10)
            } else {
                Action::AllIn
            }
        }
        2 => Action::AllIn,
        _ => {
            if active > 2 {
                Action::Fold
            } else {
                passive
            }
        }
    }
}

#[test]
fn prop_full_lifecycle_preserves_chip_accounting() {
    let mut seed: u64 = 7;
    for round in 0..96u64 {
        let player_count = 2 + (next(&mut seed) % 5) as u32;
        let rake_bps = (next(&mut seed) % 501) as u32;
        let mut s = Setup::new(player_count, rake_bps);
        let mut total = 0i128;
        for i in 0..player_count {
            let buy_in = 100 + (next(&mut seed) % 1_901) as i128;
            total += buy_in;
            s.join(player(i as u64), buy_in);
        }
        s.assert_invariants(total, rake_bps);
        s.deal();
        s.assert_invariants(total, rake_bps);
        for _ in 0..80 {
            match s.table().phase {
                GamePhase::Preflop | GamePhase::Flop | GamePhase::Turn | GamePhase::River => {
                    let action = choose_action(s.table(), next(&mut seed));
                    s.act(action);
                }
                GamePhase::DealingFlop => s.turn_up(3),
                GamePhase::DealingTurn | GamePhase::DealingRiver => s.turn_up(1),
                GamePhase::Showdown => {
                    let winner = s.table().players.iter().position(|p| !p.folded).unwrap();
                    s.show(winner as u32, (round % 3) as u32 * 7).unwrap();
                }
                _ => break,
            }
            s.assert_invariants(total, rake_bps);
        }
    }
}

fn seat(n: u32, committed: i128, folded: bool) -> PlayerState {
    PlayerState {
        address: player(n as u64),
        stack: 0,
        bet_this_round: 0,
        committed,
        folded,
        all_in: true,
        sitting_out: false,
        seat_index: n,
        total_buy_in: committed,
        rebuy_count: 0,
    }
}

fn sole(winner: u32) -> Named {
    Named { first: winner, second: winner, tie_mask: 0 }
}

#[test]
fn short_winners_take_the_main_pot() {
    let ps = vec![seat(0, 50, false), seat(1, 100, false), seat(2, 200, false), seat(3, 30, true)];
    let (won, rake) = distribute(&ps, 380, &sole(0), 0);
    assert_eq!(won, vec![180, 50, 150, 0]);
    assert_eq!(rake, 0);
    let (won, rake) = distribute(&ps, 380, &sole(2), 0);
    assert_eq!(won, vec![0, 0, 380, 0]);
    assert_eq!(rake, 0);
}

#[test]
fn ties_share_evenly_and_the_first_takes_the_rest() {
    let ps = vec![seat(0, 5, true), seat(1, 50, false), seat(2, 50, false), seat(3, 50, false)];
    let named = Named { first: 2, second: 2, tie_mask: 0b1100 };
    let (won, _) = distribute(&ps, 155, &named, 0);
    assert_eq!(won, vec![0, 0, 78, 77]);
    let two_runs = Named { first: 3, second: 1, tie_mask: 0 };
    let (won, _) = distribute(&ps, 155, &two_runs, 0);
    assert_eq!(won, vec![0, 78, 0, 77]);
}

#[test]
fn rake_is_taken_from_every_pot() {
    let ps = vec![seat(0, 33, false), seat(1, 100, false), seat(2, 100, false)];
    let (won, rake) = distribute(&ps, 233, &sole(0), 500);
    assert_eq!(rake, 4 + 6);
    assert_eq!(won, vec![95, 64, 64]);
    assert_eq!(won.iter().sum::<i128>() + rake, 233);
}

#[test]
fn folded_winners_are_refused() {
    let mut s = Setup::new(4, 0);
    for i in 0..3 {
        s.join(player(i), 500);
    }
    s.deal();
    let folded = s.table().current_turn;
    s.act(Action::Fold);
    s.act(Action::AllIn);
    s.act(Action::Call);
    for cards in [3, 1, 1] {
        s.turn_up(cards);
    }
    assert_eq!(s.table().phase, GamePhase::Showdown);
    assert_eq!(s.show(folded, 0), Err(PokerTableError::WinnerNotEligibleForPot));
    assert_eq!(s.show(3, 0), Err(PokerTableError::InvalidPlayerIndex));
    s.show((folded + 1) % 3, 0).unwrap();
    assert_eq!(s.table().players[((folded + 1) % 3) as usize].stack, 1_000);
    assert_eq!(s.table().players[((folded + 2) % 3) as usize].stack, 0);
}

/// Two players all in before the flop.
fn all_in(s: &mut Setup) {
    for i in 0..2 {
        s.join(player(i), 500);
    }
    s.deal();
    s.act(Action::AllIn);
    s.act(Action::Call);
    assert_eq!(s.table().phase, GamePhase::DealingFlop);
}

#[test]
fn bad_beats_are_paid_the_pool() {
    let mut s = Setup::new(4, 500);
    s.c.set_jackpot_config(s.id, 5_000, 7, 12).unwrap();
    all_in(&mut s);
    for cards in [3, 1, 1] {
        s.turn_up(cards);
    }
    let least = (7 << 28) | (12 << 4);
    s.show_scored(0, 0, &vec![(0, u32::MAX), (1, least - 1)]).unwrap();
    assert_eq!(s.table().jackpot_balance, 25);
    assert_eq!(s.table().players[0].stack, 950);

    let (_, t) = s.c.rebuy(&s.env, s.id, &player(1), 400).unwrap();
    s.apply(t);
    s.deal();
    s.act(Action::AllIn);
    s.act(Action::Call);
    while s.table().phase != GamePhase::Showdown {
        match s.table().phase {
            GamePhase::DealingFlop => s.turn_up(3),
            GamePhase::DealingTurn | GamePhase::DealingRiver => s.turn_up(1),
            _ => {
                s.act(Action::Check);
            }
        }
    }
    s.show_scored(0, 0, &vec![(1, least)]).unwrap();
    assert_eq!(s.table().players[1].stack, 25);
    let house = s.table().rake_balance - 25;
    assert!(house > 0);
    assert!(s.table().jackpot_balance == house || s.table().jackpot_balance + 1 == house);
    let stacks: i128 = s.table().players.iter().map(|p| p.stack).sum();
    assert_eq!(stacks + s.table().rake_balance + s.table().jackpot_balance, 1_400);
}

#[test]
fn the_board_is_run_twice() {
    let mut s = Setup::new(2, 0);
    all_in(&mut s);
    s.turn_up(3);
    assert_eq!(s.table().phase, GamePhase::DealingTurn);
    let (env, id) = (s.env.clone(), s.id);
    for opt_in in [false, true] {
        assert_eq!(
            s.c.rit_opt_in(&env, id, &player(0), opt_in, 0),
            Err(PokerTableError::NotInRitPhase)
        );
    }
    assert_eq!(
        s.c.offer_run_it_twice(&env, id, &player(5), 0),
        Err(PokerTableError::PlayerNotAtTable)
    );
    s.c.offer_run_it_twice(&env, id, &player(0), 0).unwrap();
    assert_eq!(s.table().phase, GamePhase::AwaitingRunItTwice);
    s.c.rit_opt_in(&env, id, &player(1), true, 0).unwrap();
    assert_eq!(s.table().phase, GamePhase::AwaitingRunItTwice);
    assert_eq!(
        s.c.rit_opt_in(&env, id, &player(1), true, 0),
        Err(PokerTableError::RitAlreadyDecided)
    );
    s.c.rit_opt_in(&env, id, &player(0), true, 0).unwrap();
    assert_eq!(s.table().phase, GamePhase::DealingTurn);
    s.turn_up(1);
    s.turn_up(1);
    assert_eq!(s.table().phase, GamePhase::ShowdownRun1);
    s.show(0, 0).unwrap();
    assert_eq!(s.table().phase, GamePhase::DealingTurn);
    assert_eq!(s.table().board_cards.len(), 3);
    s.turn_up(1);
    s.turn_up(1);
    assert_eq!(s.table().phase, GamePhase::ShowdownRun2);
    s.show(1, 0).unwrap();
    assert_eq!(s.table().phase, GamePhase::Settlement);
    assert_eq!(s.table().players[0].stack, 500);
    assert_eq!(s.table().players[1].stack, 500);
}

#[test]
fn a_second_run_can_be_declined_or_time_out() {
    let mut s = Setup::new(2, 0);
    all_in(&mut s);
    let (env, id) = (s.env.clone(), s.id);
    s.c.offer_run_it_twice(&env, id, &player(0), 7).unwrap();
    s.c.rit_opt_in(&env, id, &player(1), false, 7).unwrap();
    assert_eq!(s.table().phase, GamePhase::DealingFlop);
    assert_eq!(
        s.c.rit_opt_in(&env, id, &player(1), true, 7),
        Err(PokerTableError::NotInRitPhase)
    );
    assert_eq!(
        s.c.offer_run_it_twice(&env, id, &player(0), 7),
        Err(PokerTableError::RitAlreadyDecided)
    );
    s.drive_to_settlement(1);
    assert_eq!(s.table().phase, GamePhase::Settlement);
    let mut s = Setup::new(2, 0);
    all_in(&mut s);
    s.c.offer_run_it_twice(&s.env, s.id, &player(0), 7).unwrap();
    s.c.rit_opt_in(&s.env, s.id, &player(0), true, 7).unwrap();
    assert_eq!(s.c.claim_timeout(s.id, 206), Err(PokerTableError::TimeoutNotReached));
    s.c.claim_timeout(s.id, 207).unwrap();
    assert_eq!(s.table().phase, GamePhase::DealingFlop);
}

#[test]
fn a_stalled_committee_is_timed_out() {
    let mut s = Setup::new(2, 0);
    for i in 0..2 {
        s.join(player(i), 500);
    }
    s.c.start_hand(s.id, 10, 0).unwrap();
    assert_eq!(s.table().action_deadline, 0);
    assert_eq!(s.c.claim_timeout(s.id, 209), Err(PokerTableError::TimeoutNotReached));
    s.c.claim_timeout(s.id, 210).unwrap();
    let t = s.table();
    assert_eq!(t.phase, GamePhase::Settlement);
    assert_eq!(t.pot, 0);
    assert_eq!(t.players[0].stack + t.players[1].stack, 1_000);
}

#[test]
fn streets_have_their_own_time() {
    let env = Env::new_with_config(EnvTestConfig { capture_snapshot_at_drop: false });
    let mut c = PokerTableContract::new();
    let mut cfg = config(2, 0);
    cfg.street_time_limit = Some(StreetTimeLimit::standard());
    let id = c.create_table(ADMIN, cfg, 0, 0).unwrap();
    let mut s = Setup { env, c, id, held: 0, seqs: Vec::new() };
    for i in 0..2 {
        s.join(player(i), 500);
    }
    s.deal();
    assert_eq!(s.table().action_deadline, 6);
    s.act(Action::Call);
    s.turn_up(3);
    assert_eq!(s.table().phase, GamePhase::Flop);
    assert_eq!(s.table().action_deadline, 12);
}

#[test]
fn no_hand_starts_in_a_break() {
    let env = Env::new_with_config(EnvTestConfig { capture_snapshot_at_drop: false });
    let mut c = PokerTableContract::new();
    let mut cfg = config(2, 0);
    let mut first = cfg.blinds_schedule.levels[0];
    first.duration_seconds = 100;
    first.break_seconds = 30;
    cfg.blinds_schedule.levels.insert(0, first);
    let id = c.create_table(ADMIN, cfg, 0, 1_000).unwrap();
    let mut s = Setup { env, c, id, held: 0, seqs: Vec::new() };
    for i in 0..2 {
        s.join(player(i), 500);
    }
    for at in [1_100, 1_129] {
        assert_eq!(s.c.start_hand(s.id, 0, at), Err(PokerTableError::TimeoutNotReached));
    }
    let mut again = Setup::new(2, 0);
    for i in 0..2 {
        again.join(player(i), 500);
    }
    again.c.start_hand(again.id, 0, 1_100).unwrap();
    assert_eq!(again.table().break_ends_at, 0);
    s.c.start_hand(s.id, 0, 1_099).unwrap();
    assert_eq!(s.table().break_ends_at, 1_130);
    assert_eq!(s.table().current_blind_level, 0);
}

#[test]
fn straddlers_can_be_kept_from_raising() {
    let mut s = Setup::new(2, 0);
    for i in 0..2 {
        s.join(player(i), 500);
    }
    s.c.configure_straddle_extended(s.id, 2, StraddlePosition::Button, false, 0, false).unwrap();
    s.deal();
    let straddler = s.c.get_active_straddle(s.id).unwrap().seat;
    let other = 1 - straddler;
    assert_eq!(s.table().current_turn, other);
    s.act(Action::Raise(20));
    assert_eq!(s.table().current_turn, straddler);
    s.act(Action::Raise(20));
    assert_eq!(s.table().phase, GamePhase::Preflop);
}

#[test]
fn closing_pays_stacks_and_what_was_put_in() {
    let mut s = Setup::new(2, 0);
    all_in(&mut s);
    s.drive_to_settlement(0);
    s.c.propose_table_closure(s.id, &ADMIN, 0).unwrap();
    s.c.pause(s.id).unwrap();
    assert_eq!(
        s.c.execute_table_closure(s.id, 1, 86_400).unwrap_err(),
        PokerTableError::ContractPaused
    );
    assert_eq!(s.c.sweep_dead_chips(s.id, 1).unwrap_err(), PokerTableError::ContractPaused);
    assert_eq!(
        s.c.reclaim_dead_chips(&s.env, s.id, &player(0), 1).unwrap_err(),
        PokerTableError::ContractPaused
    );
    s.c.unpause(s.id).unwrap();
    let (sum, transfers) = s.c.execute_table_closure(s.id, 1, 86_400).unwrap();
    assert_eq!(sum, 2_000);
    assert_eq!(transfers.iter().map(|t| t.amount).collect::<Vec<i128>>(), vec![1_500, 500]);
    let mut s = Setup::new(2, 0);
    all_in(&mut s);
    s.c.propose_table_closure(s.id, &ADMIN, 0).unwrap();
    let (sum, transfers) = s.c.execute_table_closure(s.id, 1, 86_400).unwrap();
    assert_eq!(sum, 1_000);
    assert_eq!(transfers.iter().map(|t| t.amount).collect::<Vec<i128>>(), vec![500, 500]);
}
