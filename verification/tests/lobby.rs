use soroban_sdk::testutils::EnvTestConfig;
use soroban_sdk::xdr::{FromXdr, ToXdr};
use soroban_sdk::Env;
use stellar_poker::host::{address_xdr, digest_of_address, Address, Bytes32, Party, Symbol, Transfer};
use stellar_poker::poker_table::contract::PokerTableContract;
use stellar_poker::poker_table::multi_currency::Rate;
use stellar_poker::poker_table::types::{
    Action, AnteMode, BettingStructure, BlindLevel, BlindsSchedule, GamePhase, PokerTableError,
    TableConfig,
};

const PAR: Rate = Rate { base: 1, per: 1 };
const TOKEN: Address = Address::Contract(Bytes32 { w0: 1, w1: 1, w2: 1, w3: 1 });
const ADMIN: Address = Address::Account(Bytes32 { w0: 2, w1: 2, w2: 2, w3: 2 });
const COMMITTEE: Address = Address::Account(Bytes32 { w0: 3, w1: 3, w2: 3, w3: 3 });
const HUB: Address = Address::Contract(Bytes32 { w0: 5, w1: 5, w2: 5, w3: 5 });

fn player(n: u64) -> Address {
    Address::Account(Bytes32 { w0: 100 + n, w1: n, w2: 0, w3: 9 })
}

fn config(schedule: BlindsSchedule, max_players: u32) -> TableConfig {
    TableConfig {
        token: TOKEN,
        min_buy_in: 100,
        max_buy_in: 1000,
        betting_structure: BettingStructure::NoLimit,
        blinds_schedule: schedule,
        min_players: 2,
        max_players,
        timeout_ledgers: 100,
        committee: COMMITTEE,
        verifier: HUB,
        game_hub: HUB,
        rake_bps: 0,
        max_rebuys: 0,
        jackpot_rake_share_bps: 0,
        min_bad_beat_category: 7,
        min_bad_beat_rank: 12,
        street_time_limit: None,
        treasury: None,
        dead_chip_timeout_ledgers: 0,
        reclaim_period_ledgers: 0,
    }
}

struct Setup {
    env: Env,
    c: PokerTableContract,
    balances: Vec<(Party, i128)>,
    seqs: Vec<(Address, u32)>,
    time: u64,
}

fn setup() -> Setup {
    Setup {
        env: Env::new_with_config(EnvTestConfig { capture_snapshot_at_drop: false }),
        c: PokerTableContract::new(),
        balances: Vec::new(),
        seqs: Vec::new(),
        time: 0,
    }
}

impl Setup {
    fn add(&mut self, p: Party, amount: i128) {
        match self.balances.iter_mut().find(|b| b.0 == p) {
            Some(b) => b.1 += amount,
            None => self.balances.push((p, amount)),
        }
    }

    fn apply(&mut self, t: Transfer) {
        self.add(t.from, -t.amount);
        self.add(t.to, t.amount);
    }

    fn balance(&self, a: Address) -> i128 {
        self.balances.iter().find(|b| b.0 == Party::Wallet(a)).map(|b| b.1).unwrap_or(0)
    }

    fn small_table(&mut self) -> u32 {
        self.c.create_table(ADMIN, config(BlindsSchedule::fixed(5, 10), 2), 0, 0).unwrap()
    }

    fn join(&mut self, id: u32, p: Address, buy_in: i128) -> u32 {
        self.add(Party::Wallet(p), buy_in);
        let j = self.c.join_table(&self.env, id, &p, buy_in, 0).unwrap();
        self.apply(j.transfer);
        j.position
    }

    fn start_and_deal(&mut self, id: u32, n: u32) {
        self.c.start_hand(id, 0, self.time).unwrap();
        self.c
            .commit_deal(
                &self.env,
                id,
                &COMMITTEE,
                Bytes32::splat(1),
                vec![Bytes32::splat(2); n as usize],
                (0..2 * n).collect(),
                true,
                0,
            )
            .unwrap();
    }

    fn fold(&mut self, id: u32) {
        let t = self.c.get_table(id).unwrap();
        let p = t.players[t.current_turn as usize].address;
        let seq = match self.seqs.iter_mut().find(|s| s.0 == p) {
            Some(s) => {
                s.1 += 1;
                s.1
            }
            None => {
                self.seqs.push((p, 1));
                1
            }
        };
        self.c.player_action(&self.env, id, &p, seq, &Action::Fold, 0).unwrap();
    }
}

#[test]
fn join_full_table_enqueues_and_escrows_buy_in() {
    let mut s = setup();
    let id = s.small_table();
    s.join(id, player(1), 500);
    s.join(id, player(2), 500);
    let p3 = player(3);
    assert_eq!(s.join(id, p3, 300), 0);
    let queue = s.c.get_queue(id);
    assert_eq!(queue.len(), 1);
    assert_eq!(queue[0].player, p3);
    assert_eq!(queue[0].buy_in, 300);
    assert_eq!(s.balance(p3), 0);
    assert_eq!(s.c.get_table(id).unwrap().players.len(), 2);
}

#[test]
fn leave_table_auto_seats_next_queued_player() {
    let mut s = setup();
    let id = s.small_table();
    s.join(id, player(1), 500);
    s.join(id, player(2), 500);
    let p3 = player(3);
    s.join(id, p3, 300);
    s.c.leave_table(&s.env, id, &player(1)).unwrap();
    let table = s.c.get_table(id).unwrap();
    assert_eq!(table.players.len(), 2);
    let found = table.players.iter().find(|p| p.address == p3).map(|p| p.stack);
    assert_eq!(found, Some(300));
    assert_eq!(s.c.get_queue(id).len(), 0);
    assert_eq!(s.c.get_player_tables(&p3), vec![id]);
}

#[test]
fn leave_queue_refunds_escrowed_buy_in() {
    let mut s = setup();
    let id = s.small_table();
    s.join(id, player(1), 500);
    s.join(id, player(2), 500);
    let p3 = player(3);
    s.join(id, p3, 300);
    assert_eq!(s.balance(p3), 0);
    let (refunded, transfer) = s.c.leave_queue(&s.env, id, &p3).unwrap();
    s.apply(transfer.unwrap());
    assert_eq!(refunded, 300);
    assert_eq!(s.balance(p3), 300);
    assert_eq!(s.c.get_queue(id).len(), 0);
}

#[test]
fn join_table_rejects_duplicate_queue_entry() {
    let mut s = setup();
    let id = s.small_table();
    s.join(id, player(1), 500);
    s.join(id, player(2), 500);
    s.join(id, player(3), 300);
    assert_eq!(
        s.c.join_table(&s.env, id, &player(3), 300, 0),
        Err(PokerTableError::AlreadyQueued)
    );
}

#[test]
fn leave_queue_rejects_non_queued_player() {
    let mut s = setup();
    let id = s.small_table();
    assert_eq!(
        s.c.leave_queue(&s.env, id, &player(9)),
        Err(PokerTableError::NotQueued)
    );
}

#[test]
fn join_table_rejects_beyond_max_queue_size() {
    let mut s = setup();
    let id = s.small_table();
    s.join(id, player(1), 500);
    s.join(id, player(2), 500);
    for n in 0..12 {
        s.join(id, player(10 + n), 300);
    }
    assert_eq!(
        s.c.join_table(&s.env, id, &player(50), 300, 0),
        Err(PokerTableError::QueueFull)
    );
}

#[test]
fn the_queue_is_served_in_order() {
    let mut s = setup();
    let id = s.small_table();
    for n in 1..6 {
        s.join(id, player(n), 200);
    }
    s.c.leave_table(&s.env, id, &player(2)).unwrap();
    s.c.leave_table(&s.env, id, &player(1)).unwrap();
    let t = s.c.get_table(id).unwrap();
    assert_eq!(t.players[0].address, player(3));
    assert_eq!(t.players[1].address, player(4));
    assert_eq!(s.c.get_queue(id)[0].player, player(5));
}

#[test]
fn fixed_single_level_blinds_never_advance() {
    let mut s = setup();
    let id = s.c.create_table(ADMIN, config(BlindsSchedule::fixed(5, 10), 6), 0, 0).unwrap();
    s.join(id, player(1), 1000);
    s.join(id, player(2), 1000);
    s.start_and_deal(id, 2);
    s.fold(id);
    assert_eq!(s.c.get_table(id).unwrap().phase, GamePhase::Settlement);
    assert_eq!(s.c.get_table(id).unwrap().current_blind_level, 0);
    s.time = 1_000_000;
    s.start_and_deal(id, 2);
    s.fold(id);
    assert_eq!(s.c.get_table(id).unwrap().current_blind_level, 0);
}

fn level(small_blind: i128, big_blind: i128, ante: AnteMode, duration_seconds: u64) -> BlindLevel {
    BlindLevel { small_blind, big_blind, ante, duration_seconds, break_seconds: 0 }
}

#[test]
fn escalating_blinds_advance_after_level_duration_elapses() {
    let mut s = setup();
    let levels = vec![level(5, 10, AnteMode::NoAnte, 100), level(10, 20, AnteMode::NoAnte, 0)];
    let id = s.c.create_table(ADMIN, config(BlindsSchedule { levels }, 6), 0, 0).unwrap();
    s.join(id, player(1), 1000);
    s.join(id, player(2), 1000);
    s.start_and_deal(id, 2);
    assert_eq!(s.c.get_table(id).unwrap().current_blind_level, 0);
    assert_eq!(s.c.get_table(id).unwrap().pot, 15);
    s.fold(id);
    s.start_and_deal(id, 2);
    assert_eq!(s.c.get_table(id).unwrap().current_blind_level, 0);
    s.fold(id);
    s.time = 150;
    s.start_and_deal(id, 2);
    assert_eq!(s.c.get_table(id).unwrap().current_blind_level, 1);
    assert_eq!(s.c.get_table(id).unwrap().pot, 30);
}

#[test]
fn ante_collected_from_every_player_without_affecting_bet_this_round() {
    let mut s = setup();
    let levels = vec![level(5, 10, AnteMode::Fixed(2), 0)];
    let id = s.c.create_table(ADMIN, config(BlindsSchedule { levels }, 6), 0, 0).unwrap();
    for n in 1..4 {
        s.join(id, player(n), 1000);
    }
    s.c.start_hand(id, 0, 0).unwrap();
    let table = s.c.get_table(id).unwrap();
    assert_eq!(table.pot, 21);
    let total_deducted: i128 = table.players.iter().map(|p| 1000 - p.stack).sum();
    assert_eq!(total_deducted, 21);
    let n = table.players.len();
    let sb_seat = (table.dealer_seat as usize + 1) % n;
    let bb_seat = (table.dealer_seat as usize + 2) % n;
    for (i, p) in table.players.iter().enumerate() {
        let expected_bet = if i == sb_seat {
            5
        } else if i == bb_seat {
            10
        } else {
            0
        };
        assert_eq!(p.bet_this_round, expected_bet, "seat {i}");
        assert_eq!(p.committed, expected_bet + 2, "seat {i}");
    }
}

#[test]
fn a_percentage_ante_is_a_part_of_the_big_blind() {
    let mut s = setup();
    let levels = vec![level(5, 10, AnteMode::Percentage(50), 0)];
    let id = s.c.create_table(ADMIN, config(BlindsSchedule { levels }, 6), 0, 0).unwrap();
    s.join(id, player(1), 1000);
    s.join(id, player(2), 1000);
    s.c.start_hand(id, 0, 0).unwrap();
    assert_eq!(s.c.get_table(id).unwrap().pot, 25);
}

fn refused(levels: Vec<BlindLevel>) -> PokerTableError {
    let mut s = setup();
    s.c.create_table(ADMIN, config(BlindsSchedule { levels }, 6), 0, 0).unwrap_err()
}

#[test]
fn create_table_rejects_empty_blinds_schedule() {
    assert_eq!(refused(Vec::new()), PokerTableError::EmptyBlindsSchedule);
}

#[test]
fn create_table_rejects_level_with_small_blind_gte_big_blind() {
    assert_eq!(
        refused(vec![level(10, 10, AnteMode::NoAnte, 0)]),
        PokerTableError::InvalidBlindLevel
    );
}

#[test]
fn create_table_rejects_nonfinal_level_with_zero_duration() {
    assert_eq!(
        refused(vec![level(5, 10, AnteMode::NoAnte, 0), level(10, 20, AnteMode::NoAnte, 0)]),
        PokerTableError::InvalidBlindLevel
    );
}

#[test]
fn create_table_rejects_a_negative_ante_and_bad_seat_counts() {
    assert_eq!(
        refused(vec![level(5, 10, AnteMode::Fixed(-1), 0)]),
        PokerTableError::InvalidBlindLevel
    );
    let mut s = setup();
    for n in [0, 1, 7] {
        assert_eq!(
            s.c.create_table(ADMIN, config(BlindsSchedule::fixed(5, 10), n), 0, 0),
            Err(PokerTableError::InvalidPlayerCount)
        );
    }
}

#[test]
fn test_create_table_with_custom_sac() {
    let mut s = setup();
    let id = s.small_table();
    let table = s.c.get_table(id).unwrap();
    assert_eq!(table.config.token, TOKEN);
    assert_eq!(table.config.min_buy_in, 100);
}

#[test]
fn test_join_table_escrow_with_sac() {
    let mut s = setup();
    let id = s.small_table();
    let seat = s.join(id, player(1), 500);
    assert_eq!(seat, 0);
    assert_eq!(s.c.get_table(id).unwrap().players[0].stack, 500);
}

#[test]
fn banned_players_cannot_join() {
    let mut s = setup();
    let id = s.small_table();
    let reason = Symbol::from_bytes(&b"collusion".to_vec());
    s.c.ban_player(id, player(1), reason).unwrap();
    assert!(s.c.is_player_banned(id, &player(1)));
    assert_eq!(s.c.get_banned_players(id)[0].reason, reason);
    assert_eq!(
        s.c.join_table(&s.env, id, &player(1), 500, 0),
        Err(PokerTableError::PlayerNotAtTable)
    );
    s.c.unban_player(id, &player(1)).unwrap();
    assert_eq!(s.join(id, player(1), 500), 0);
    assert_eq!(
        s.c.ban_player(77, player(1), reason),
        Err(PokerTableError::TableNotFound)
    );
}

#[test]
fn other_currencies_are_accepted_once_listed() {
    let mut s = setup();
    let id = s.small_table();
    let euro = Address::Contract(Bytes32::splat(42));
    assert_eq!(
        s.c.buy_in_with_currency(&s.env, id, &player(1), &euro, 300, &PAR, 0),
        Err(PokerTableError::InvalidBuyIn)
    );
    s.c.whitelist_currency(id, euro, HUB).unwrap();
    assert!(s.c.is_currency_whitelisted(id, &euro));
    assert_eq!(s.c.get_currency_oracle(id, &euro), Some(HUB));
    let joined = s.c.buy_in_with_currency(&s.env, id, &player(1), &euro, 300, &PAR, 0).unwrap();
    assert_eq!(joined.position, 0);
    assert_eq!(joined.transfer.token, euro);
    assert_eq!(joined.transfer.amount, 300);
    assert_eq!(s.c.get_table(id).unwrap().players[0].stack, 300);
    let half = Rate { base: 1, per: 2 };
    assert_eq!(
        s.c.buy_in_with_currency(&s.env, id, &player(2), &euro, 199, &half, 0),
        Err(PokerTableError::InvalidBuyIn)
    );
    let joined = s.c.buy_in_with_currency(&s.env, id, &player(2), &euro, 601, &half, 0).unwrap();
    assert_eq!(joined.transfer.amount, 601);
    assert_eq!(s.c.get_table(id).unwrap().players[1].stack, 300);
    s.c.remove_whitelisted_currency(id, &euro).unwrap();
    assert!(!s.c.is_currency_whitelisted(id, &euro));
}

#[test]
fn a_paused_table_lets_nobody_out_of_its_queue() {
    let mut s = setup();
    let id = s.small_table();
    for n in 1..4 {
        s.join(id, player(n), 200);
    }
    s.c.pause(id).unwrap();
    assert_eq!(
        s.c.leave_queue(&s.env, id, &player(3)),
        Err(PokerTableError::ContractPaused)
    );
    assert_eq!(
        s.c.leave_table(&s.env, id, &player(1)).unwrap_err(),
        PokerTableError::ContractPaused
    );
    assert_eq!(
        s.c.rebuy(&s.env, id, &player(1), 10),
        Err(PokerTableError::ContractPaused)
    );
}

#[test]
fn addresses_are_compared_by_the_digest_of_their_xdr() {
    let s = setup();
    let id = Bytes32 { w0: 0x0102_0304_0506_0708, w1: 9, w2: 10, w3: 0xff00_0000_0000_0001 };
    let mut bytes = Vec::new();
    for w in [id.w0, id.w1, id.w2, id.w3] {
        bytes.extend_from_slice(&w.to_be_bytes());
    }
    let mut account = vec![0, 0, 0, 18, 0, 0, 0, 0, 0, 0, 0, 0];
    account.extend_from_slice(&bytes);
    let mut contract = vec![0, 0, 0, 18, 0, 0, 0, 1];
    contract.extend_from_slice(&bytes);
    for (a, xdr) in [(Address::Account(id), account), (Address::Contract(id), contract)] {
        let want =
            s.env.crypto().keccak256(&soroban_sdk::Bytes::from_slice(&s.env, &xdr)).to_array();
        let host = soroban_sdk::Address::from_xdr(
            &s.env,
            &soroban_sdk::Bytes::from_slice(&s.env, &xdr),
        )
        .unwrap();
        assert_eq!(host.to_xdr(&s.env).iter().collect::<Vec<u8>>(), address_xdr(&a));
        let got = digest_of_address(&s.env, &a);
        let mut have = Vec::new();
        for w in [got.w0, got.w1, got.w2, got.w3] {
            have.extend_from_slice(&w.to_be_bytes());
        }
        assert_eq!(have, want.to_vec());
    }
}
