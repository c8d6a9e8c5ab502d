//! Reserves of time that players can spend on hard decisions.

use crate::assoc::{AssocMap, Key};
use crate::host::{address_digest, address_eq, Address};
use crate::poker_table::types::{
    PlayerState, PokerTableError, TableState, TimeBank, TimeBankConfig,
};
use soroban_sdk::Env;
use vstd::prelude::*;

verus! {

/// How long a ledger takes, in seconds.
pub const SECONDS_PER_LEDGER: u64 = 5;

/// A player at a table.
#[derive(Clone, Copy, Debug, PartialEq, Eq, Structural)]
pub struct SeatKey {
    pub table_id: u32,
    pub player: Address,
}

impl Key for SeatKey {
    fn same(&self, other: &Self) -> (r: bool) {
        *self == *other
    }
}

/// The reserves of all tables, and how they are kept.
#[verifier::ext_equal]
pub struct TimeBanksView {
    pub configs: Map<u32, TimeBankConfig>,
    pub banks: Map<SeatKey, TimeBank>,
}

/// Whether a configuration is acceptable.
pub open spec fn valid_config(cfg: TimeBankConfig) -> bool {
    cfg.max_seconds <= 3600 && cfg.extension_seconds <= 300
}

/// A new reserve.
pub open spec fn new_bank(cfg: TimeBankConfig, now: u32) -> TimeBank {
    TimeBank {
        remaining_seconds: cfg.initial_seconds,
        last_replenish_ledger: now,
        extensions_used_this_hand: 0,
        active_extension: false,
        active_extension_seconds: 0,
    }
}

/// A sum of seconds, no larger than `cap`.
pub open spec fn capped(seconds: int, cap: u64) -> u64 {
    if seconds > cap {
        cap
    } else {
        seconds as u64
    }
}

/// A reserve at the start of a hand: more by the hand and by the ledgers since the last time, up
/// to its cap, with no extension used.
pub open spec fn replenished(bank: TimeBank, cfg: TimeBankConfig, now: u32) -> TimeBank {
    let by_hand = capped(bank.remaining_seconds + cfg.replenish_per_hand, cfg.max_seconds);
    let elapsed = if now > bank.last_replenish_ledger {
        now - bank.last_replenish_ledger
    } else {
        0
    };
    TimeBank {
        remaining_seconds: if cfg.replenish_per_ledger > 0 {
            capped(by_hand + elapsed * cfg.replenish_per_ledger, cfg.max_seconds)
        } else {
            by_hand
        },
        last_replenish_ledger: now,
        extensions_used_this_hand: 0,
        active_extension: false,
        active_extension_seconds: 0,
    }
}

/// The ledgers that an extension adds, rounded up.
pub open spec fn extension_ledgers(cfg: TimeBankConfig) -> int {
    (cfg.extension_seconds + 4) / 5
}

/// The seat number of the first player with the digest of `a`.
pub open spec fn seat_by_digest(players: Seq<PlayerState>, a: Address) -> Option<u32>
    decreases players.len(),
{
    if players.len() == 0 {
        None
    } else if seat_by_digest(players.drop_last(), a) is Some {
        seat_by_digest(players.drop_last(), a)
    } else if address_digest(players.last().address) == address_digest(a) {
        Some(players.last().seat_index)
    } else {
        None
    }
}

/// Finds the seat number of a player.
pub fn find_seat_number(env: &Env, table: &TableState, player: &Address) -> (r: Option<u32>)
    ensures
        r == seat_by_digest(table.players@, *player),
{
    let ghost ps = table.players@;
    let mut i: usize = 0;
    while i < table.players.len()
        invariant
            i <= ps.len(),
            ps == table.players@,
            seat_by_digest(ps.take(i as int), *player) is None,
        decreases ps.len() - i,
    {
        proof {
            lemma_seat_step(ps, *player, i as int);
        }
        let address: Address = table.players[i].address;
        if address_eq(env, &address, player) {
            return Some(table.players[i].seat_index);
        }
        i += 1;
    }
    assert(ps.take(i as int) =~= ps);
    None
}

proof fn lemma_seat_step(ps: Seq<PlayerState>, a: Address, i: int)
    requires
        0 <= i < ps.len(),
    ensures
        ps.take(i + 1).drop_last() == ps.take(i),
        ps.take(i + 1).last() == ps[i],
        seat_by_digest(ps.take(i + 1), a) matches Some(s) ==> seat_by_digest(ps, a) == Some(s),
    decreases ps.len() - i,
{
    assert(ps.take(i + 1).drop_last() =~= ps.take(i));
    if i + 1 < ps.len() {
        lemma_seat_step(ps, a, i + 1);
    } else {
        assert(ps.take(i + 1) =~= ps);
    }
}

impl TimeBanksView {
    /// Every stored configuration is acceptable.
    pub open spec fn wf(self) -> bool {
        forall|id: u32| #[trigger] self.configs.contains_key(id) ==> valid_config(self.configs[id])
    }

    /// The configuration of a table, where reserves are in use.
    pub open spec fn config_of(self, table_id: u32) -> Option<TimeBankConfig> {
        if self.configs.contains_key(table_id) && self.configs[table_id].enabled() {
            Some(self.configs[table_id])
        } else {
            None
        }
    }

    /// A player's reserve, or a new one.
    pub open spec fn bank_or_new(
        self,
        table_id: u32,
        player: Address,
        cfg: TimeBankConfig,
        now: u32,
    ) -> TimeBank {
        let k = SeatKey { table_id, player };
        if self.banks.contains_key(k) {
            self.banks[k]
        } else {
            new_bank(cfg, now)
        }
    }

    /// The reserves after those of `players` are replenished.
    pub open spec fn replenished_all(
        self,
        table_id: u32,
        players: Seq<PlayerState>,
        cfg: TimeBankConfig,
        now: u32,
    ) -> Self
        decreases players.len(),
    {
        if players.len() == 0 {
            self
        } else {
            let s = self.replenished_all(table_id, players.drop_last(), cfg, now);
            let p = players.last().address;
            TimeBanksView {
                banks: s.banks.insert(
                    SeatKey { table_id, player: p },
                    replenished(s.bank_or_new(table_id, p, cfg, now), cfg, now),
                ),
                ..s
            }
        }
    }

    /// Why a player cannot extend their time, if they cannot. `seat` is the player's seat number.
    pub open spec fn extension_refusal(
        self,
        table: TableState,
        player: Address,
        seat: Option<u32>,
        now: u32,
    ) -> Option<PokerTableError> {
        match self.config_of(table.id) {
            None => Some(PokerTableError::TimeBankNotConfigured),
            Some(cfg) => {
                let bank = self.bank_or_new(table.id, player, cfg, now);
                if !table.phase.betting() {
                    Some(PokerTableError::NotInBettingPhase)
                } else if seat is None {
                    Some(PokerTableError::PlayerNotAtTable)
                } else if seat->0 != table.current_turn {
                    Some(PokerTableError::NotYourTurnForTimeBank)
                } else if bank.extensions_used_this_hand >= cfg.max_extensions_per_hand
                    || bank.remaining_seconds < cfg.extension_seconds {
                    Some(PokerTableError::TimeBankExhausted)
                } else {
                    None
                }
            },
        }
    }

    /// Whether the player whose turn it is could still extend their time.
    pub open spec fn rescue_left(self, table: TableState, now: u32) -> bool {
        match self.config_of(table.id) {
            None => false,
            Some(cfg) => table.current_turn < table.players@.len() && {
                let bank = self.bank_or_new(
                    table.id,
                    table.players@[table.current_turn as int].address,
                    cfg,
                    now,
                );
                &&& bank.extensions_used_this_hand < cfg.max_extensions_per_hand
                &&& bank.remaining_seconds >= cfg.extension_seconds
            },
        }
    }

    /// Whether the deadline of the current player is over for good.
    pub open spec fn enforced(self, table: TableState, now: u32) -> bool {
        table.action_deadline != 0 && now >= table.action_deadline && !self.rescue_left(table, now)
    }

    /// The reserves after an extension.
    pub open spec fn extended(self, table_id: u32, player: Address, now: u32) -> Self {
        let cfg = self.configs[table_id];
        let b = self.bank_or_new(table_id, player, cfg, now);
        TimeBanksView {
            banks: self.banks.insert(
                SeatKey { table_id, player },
                TimeBank {
                    remaining_seconds: (b.remaining_seconds - cfg.extension_seconds) as u64,
                    extensions_used_this_hand: (b.extensions_used_this_hand + 1) as u32,
                    active_extension: true,
                    active_extension_seconds: cfg.extension_seconds,
                    ..b
                },
            ),
            ..self
        }
    }
}

/// The later of the deadline and the current ledger.
pub open spec fn deadline_base(table: TableState, now: u32) -> u32 {
    if table.action_deadline > now {
        table.action_deadline
    } else {
        now
    }
}

/// The reserves of time.
pub struct TimeBanks {
    configs: AssocMap<u32, TimeBankConfig>,
    banks: AssocMap<SeatKey, TimeBank>,
}

impl View for TimeBanks {
    type V = TimeBanksView;

    closed spec fn view(&self) -> TimeBanksView {
        TimeBanksView { configs: self.configs@, banks: self.banks@ }
    }
}

/// A deadline at the start of a betting round. Reserves are spent only on request.
pub fn apply_initial_deadline(_table_id: u32, _seat: u32, base_deadline: u32) -> (r: u32)
    ensures
        r == base_deadline,
{
    base_deadline
}

/// Whether the deadline of the current player is over and the player has no reserve left that
/// could put it off.
pub fn should_enforce_timeout(banks: &TimeBanks, table: &TableState, now: u32) -> (r: bool)
    ensures
        r == banks@.enforced(*table, now),
{
    if table.action_deadline == 0 || now < table.action_deadline {
        return false;
    }
    let cfg = match banks.load_config(table.id) {
        Some(c) => c,
        None => {
            return true;
        },
    };
    let seat: usize = table.current_turn as usize;
    if seat >= table.players.len() {
        return true;
    }
    let key = SeatKey { table_id: table.id, player: table.players[seat].address };
    let (used, left): (u32, u64) = match banks.banks.get(&key) {
        Some(b) => (b.extensions_used_this_hand, b.remaining_seconds),
        None => (0, cfg.initial_seconds),
    };
    !(used < cfg.max_extensions_per_hand && left >= cfg.extension_seconds)
}

impl TimeBanks {
    /// No reserves.
    pub fn new() -> (r: Self)
        ensures
            r@ == (TimeBanksView { configs: Map::empty(), banks: Map::empty() }),
            r@.wf(),
    {
        TimeBanks { configs: AssocMap::new(), banks: AssocMap::new() }
    }

    /// The configuration of a table, where reserves are in use.
    fn load_config(&self, table_id: u32) -> (r: Option<TimeBankConfig>)
        ensures
            r == self@.config_of(table_id),
    {
        match self.configs.get(&table_id) {
            Some(cfg) => if cfg.is_enabled() {
                Some(*cfg)
            } else {
                None
            },
            None => None,
        }
    }

    /// The stored configuration of a table.
    pub fn get_config_for_table(&self, table_id: u32) -> (r: Option<TimeBankConfig>)
        ensures
            r == self@.configs.index_opt(table_id),
    {
        match self.configs.get(&table_id) {
            Some(cfg) => Some(*cfg),
            None => None,
        }
    }

    /// A player's reserve; a new one is stored where there is none.
    pub fn load_or_init(&mut self, table_id: u32, player: &Address, cfg: &TimeBankConfig, now: u32) -> (r:
        TimeBank)
        ensures
            r == old(self)@.bank_or_new(table_id, *player, *cfg, now),
            final(self)@ == (TimeBanksView {
                banks: old(self)@.banks.insert(SeatKey { table_id, player: *player }, r),
                ..old(self)@
            }),
    {
        let key = SeatKey { table_id, player: *player };
        let bank = match self.banks.get(&key) {
            Some(b) => *b,
            None => TimeBank {
                remaining_seconds: cfg.initial_seconds,
                last_replenish_ledger: now,
                extensions_used_this_hand: 0,
                active_extension: false,
                active_extension_seconds: 0,
            },
        };
        self.banks.insert(key, bank);
        bank
    }

    /// A player's reserve.
    pub fn get_bank(&self, table_id: u32, player: &Address) -> (r: Option<TimeBank>)
        ensures
            r == self@.banks.index_opt(SeatKey { table_id, player: *player }),
    {
        match self.banks.get(&SeatKey { table_id, player: *player }) {
            Some(b) => Some(*b),
            None => None,
        }
    }

    /// Replenishes the reserves of all players at the start of a hand.
    pub fn replenish_all(&mut self, table: &TableState, now: u32)
        ensures
            final(self)@ == (match old(self)@.config_of(table.id) {
                Some(cfg) => old(self)@.replenished_all(table.id, table.players@, cfg, now),
                None => old(self)@,
            }),
            old(self)@.wf() ==> final(self)@.wf(),
    {
        let ghost st = self@;
        let cfg = match self.load_config(table.id) {
            Some(c) => c,
            None => {
                return;
            },
        };
        let ghost ps = table.players@;
        let mut i: usize = 0;
        while i < table.players.len()
            invariant
                i <= ps.len(),
                ps == table.players@,
                self@ == st.replenished_all(table.id, ps.take(i as int), cfg, now),
                self@.configs == st.configs,
            decreases ps.len() - i,
        {
            assert(ps.take(i + 1).drop_last() =~= ps.take(i as int));
            let key = SeatKey { table_id: table.id, player: table.players[i].address };
            let bank = match self.banks.get(&key) {
                Some(b) => *b,
                None => TimeBank {
                    remaining_seconds: cfg.initial_seconds,
                    last_replenish_ledger: now,
                    extensions_used_this_hand: 0,
                    active_extension: false,
                    active_extension_seconds: 0,
                },
            };
            let next = Self::replenish(&bank, &cfg, now);
            self.banks.insert(key, next);
            i += 1;
        }
        assert(ps.take(i as int) =~= ps);
    }

    /// One reserve at the start of a hand.
    fn replenish(bank: &TimeBank, cfg: &TimeBankConfig, now: u32) -> (r: TimeBank)
        ensures
            r == replenished(*bank, *cfg, now),
    {
        let by_hand: u64 = bank.remaining_seconds.saturating_add(cfg.replenish_per_hand);
        let mut remaining: u64 = if by_hand > cfg.max_seconds {
            cfg.max_seconds
        } else {
            by_hand
        };
        if cfg.replenish_per_ledger > 0 {
            let elapsed: u64 = now.saturating_sub(bank.last_replenish_ledger) as u64;
            let by_ledger: u64 = match elapsed.checked_mul(cfg.replenish_per_ledger) {
                Some(x) => x,
                None => u64::MAX,
            };
            let sum: u64 = remaining.saturating_add(by_ledger);
            remaining = if sum > cfg.max_seconds {
                cfg.max_seconds
            } else {
                sum
            };
        }
        TimeBank {
            remaining_seconds: remaining,
            last_replenish_ledger: now,
            extensions_used_this_hand: 0,
            active_extension: false,
            active_extension_seconds: 0,
        }
    }

    /// Spends time from a player's reserve on the deadline of their turn, at ledger `now`, and
    /// returns the seconds spent.
    pub fn use_time_bank(&mut self, env: &Env, table: &mut TableState, player: &Address, now: u32) -> (r:
        Result<u64, PokerTableError>)
        requires
            old(self)@.wf(),
            deadline_base(*old(table), now) + 60 <= u32::MAX,
        ensures
            ({
                let seat = seat_by_digest(old(table).players@, *player);
                match old(self)@.extension_refusal(*old(table), *player, seat, now) {
                    Some(e) => r == Err::<u64, _>(e) && final(self)@ == old(self)@ && *final(table)
                        == *old(table),
                    None => {
                        let cfg = old(self)@.configs[old(table).id];
                        &&& r == Ok::<_, PokerTableError>(cfg.extension_seconds)
                        &&& final(self)@ == old(self)@.extended(old(table).id, *player, now)
                        &&& *final(table) == (TableState {
                            action_deadline: (deadline_base(*old(table), now) + extension_ledgers(
                                cfg,
                            )) as u32,
                            ..*old(table)
                        })
                    },
                }
            }),
            final(self)@.wf(),
    {
        let seat = find_seat_number(env, table, player);
        self.use_time_bank_at(table, player, seat, now)
    }

    /// The same, for a player whose seat number is known.
    pub fn use_time_bank_at(
        &mut self,
        table: &mut TableState,
        player: &Address,
        seat: Option<u32>,
        now: u32,
    ) -> (r: Result<u64, PokerTableError>)
        requires
            old(self)@.wf(),
            deadline_base(*old(table), now) + 60 <= u32::MAX,
        ensures
            match old(self)@.extension_refusal(*old(table), *player, seat, now) {
                Some(e) => r == Err::<u64, _>(e) && final(self)@ == old(self)@ && *final(table)
                    == *old(table),
                None => {
                    let cfg = old(self)@.configs[old(table).id];
                    &&& r == Ok::<_, PokerTableError>(cfg.extension_seconds)
                    &&& final(self)@ == old(self)@.extended(old(table).id, *player, now)
                    &&& *final(table) == (TableState {
                        action_deadline: (deadline_base(*old(table), now) + extension_ledgers(
                            cfg,
                        )) as u32,
                        ..*old(table)
                    })
                },
            },
            final(self)@.wf(),
            r is Ok ==> final(table).action_deadline > now && final(table).action_deadline
                >= old(table).action_deadline + (r->Ok_0) as int / 5,
    {
        let cfg = match self.load_config(table.id) {
            Some(c) => c,
            None => {
                return Err(PokerTableError::TimeBankNotConfigured);
            },
        };
        if !table.phase.is_betting() {
            return Err(PokerTableError::NotInBettingPhase);
        }
        match seat {
            None => {
                return Err(PokerTableError::PlayerNotAtTable);
            },
            Some(s) => {
                if s != table.current_turn {
                    return Err(PokerTableError::NotYourTurnForTimeBank);
                }
            },
        }
        let key = SeatKey { table_id: table.id, player: *player };
        let bank = match self.banks.get(&key) {
            Some(b) => *b,
            None => TimeBank {
                remaining_seconds: cfg.initial_seconds,
                last_replenish_ledger: now,
                extensions_used_this_hand: 0,
                active_extension: false,
                active_extension_seconds: 0,
            },
        };
        if bank.extensions_used_this_hand >= cfg.max_extensions_per_hand {
            return Err(PokerTableError::TimeBankExhausted);
        }
        if bank.remaining_seconds < cfg.extension_seconds {
            return Err(PokerTableError::TimeBankExhausted);
        }
        self.banks.insert(
            key,
            TimeBank {
                remaining_seconds: bank.remaining_seconds - cfg.extension_seconds,
                last_replenish_ledger: bank.last_replenish_ledger,
                extensions_used_this_hand: bank.extensions_used_this_hand + 1,
                active_extension: true,
                active_extension_seconds: cfg.extension_seconds,
            },
        );
        let added: u64 = (cfg.extension_seconds + SECONDS_PER_LEDGER - 1) / SECONDS_PER_LEDGER;
        let base: u32 = if table.action_deadline > now {
            table.action_deadline
        } else {
            now
        };
        table.action_deadline = base + added as u32;
        Ok(cfg.extension_seconds)
    }

    /// Gives a new player a reserve, by the given configuration or else by that of the table.
    pub fn init_for_player(
        &mut self,
        table_id: u32,
        player: &Address,
        cfg_opt: Option<TimeBankConfig>,
        now: u32,
    )
        ensures
            ({
                let cfg = if cfg_opt is Some {
                    cfg_opt
                } else {
                    old(self)@.configs.index_opt(table_id)
                };
                let k = SeatKey { table_id, player: *player };
                final(self)@ == (if cfg is Some && (cfg->0).enabled()
                    && !old(self)@.banks.contains_key(k) {
                    TimeBanksView {
                        banks: old(self)@.banks.insert(k, new_bank(cfg->0, now)),
                        ..old(self)@
                    }
                } else {
                    old(self)@
                })
            }),
            old(self)@.wf() ==> final(self)@.wf(),
    {
        let cfg = match cfg_opt {
            Some(c) => c,
            None => match self.get_config_for_table(table_id) {
                Some(c) => c,
                None => {
                    return;
                },
            },
        };
        if !cfg.is_enabled() {
            return;
        }
        let key = SeatKey { table_id, player: *player };
        if self.banks.contains(&key) {
            return;
        }
        self.banks.insert(
            key,
            TimeBank {
                remaining_seconds: cfg.initial_seconds,
                last_replenish_ledger: now,
                extensions_used_this_hand: 0,
                active_extension: false,
                active_extension_seconds: 0,
            },
        );
    }

    /// Sets the configuration of a table.
    pub fn configure(&mut self, table_id: u32, cfg: &TimeBankConfig) -> (r: Result<
        (),
        PokerTableError,
    >)
        ensures
            valid_config(*cfg) ==> r is Ok && final(self)@ == (TimeBanksView {
                configs: old(self)@.configs.insert(table_id, *cfg),
                ..old(self)@
            }),
            !valid_config(*cfg) ==> r == Err::<(), _>(PokerTableError::InvalidTimeBankConfig)
                && final(self)@ == old(self)@,
            old(self)@.wf() ==> final(self)@.wf(),
    {
        if cfg.max_seconds > 3600 || cfg.extension_seconds > 300 {
            return Err(PokerTableError::InvalidTimeBankConfig);
        }
        self.configs.insert(table_id, *cfg);
        assert forall|id: u32| old(self)@.wf() && #[trigger]
            self@.configs.contains_key(id) implies valid_config(self@.configs[id]) by {
            if id != table_id {
                assert(old(self)@.configs.contains_key(id));
            }
        }
        Ok(())
    }
}

/// A replenished reserve is never above its cap.
pub proof fn reserve_stays_capped(bank: TimeBank, cfg: TimeBankConfig, now: u32)
    ensures
        replenished(bank, cfg, now).remaining_seconds <= cfg.max_seconds,
        bank.remaining_seconds <= cfg.max_seconds ==> replenished(bank, cfg, now).remaining_seconds
            >= bank.remaining_seconds,
{
    let elapsed = if now > bank.last_replenish_ledger {
        now - bank.last_replenish_ledger
    } else {
        0
    };
    assert(elapsed * cfg.replenish_per_ledger >= 0) by (nonlinear_arith)
        requires
            elapsed >= 0,
            cfg.replenish_per_ledger >= 0,
    ;
}

/// An extension spends exactly what it grants, and a hand never grants more extensions than it
/// may.
pub proof fn extension_is_paid_for(
    st: TimeBanksView,
    table: TableState,
    player: Address,
    seat: Option<u32>,
    now: u32,
)
    requires
        st.extension_refusal(table, player, seat, now) is None,
    ensures
        ({
            let k = SeatKey { table_id: table.id, player };
            let cfg = st.configs[table.id];
            let before = st.bank_or_new(table.id, player, cfg, now);
            let after = st.extended(table.id, player, now).banks[k];
            &&& before.remaining_seconds == after.remaining_seconds + cfg.extension_seconds
            &&& after.extensions_used_this_hand <= cfg.max_extensions_per_hand
        }),
{
}

/// A reserve grows by what a hand brings and by what the ledgers since the last time bring, up to the
/// most that it may hold, and the extensions of the last hand are forgotten.
pub proof fn reserves_grow_to_their_cap(bank: TimeBank, cfg: TimeBankConfig, now: u32)
    ensures
        ({
            let n = replenished(bank, cfg, now);
            let elapsed = if now > bank.last_replenish_ledger {
                now - bank.last_replenish_ledger
            } else {
                0
            };
            let all = bank.remaining_seconds + cfg.replenish_per_hand + elapsed
                * cfg.replenish_per_ledger;
            &&& all <= cfg.max_seconds ==> n.remaining_seconds == all
            &&& all > cfg.max_seconds ==> n.remaining_seconds == cfg.max_seconds
            &&& n.extensions_used_this_hand == 0 && !n.active_extension
                && n.active_extension_seconds == 0
            &&& n.last_replenish_ledger == now
        }),
{
    let elapsed = if now > bank.last_replenish_ledger {
        now - bank.last_replenish_ledger
    } else {
        0
    };
    assert(elapsed * cfg.replenish_per_ledger >= 0) by (nonlinear_arith)
        requires
            elapsed >= 0,
            cfg.replenish_per_ledger >= 0,
    ;
    if cfg.replenish_per_ledger == 0 {
        assert(elapsed * cfg.replenish_per_ledger == 0) by (nonlinear_arith)
            requires
                cfg.replenish_per_ledger == 0,
    ;
    }
}

/// A new reserve holds the initial seconds and no extension has been taken. A configuration is
/// accepted up to an hour in reserve and five minutes for an extension, and it is in force where
/// both are positive.
pub proof fn reserves_start_as_configured(cfg: TimeBankConfig, now: u32)
    ensures
        new_bank(cfg, now).remaining_seconds == cfg.initial_seconds,
        new_bank(cfg, now).extensions_used_this_hand == 0,
        new_bank(cfg, now).last_replenish_ledger == now,
        valid_config(cfg) <==> cfg.max_seconds <= 60 * 60 && cfg.extension_seconds <= 5 * 60,
        cfg.enabled() <==> cfg.max_seconds > 0 && cfg.extension_seconds > 0,
{
}

/// An extension is granted to the player in turn while players bet, as long as extensions are left
/// in the hand and the reserve holds one; and every such request is granted. It costs the seconds of
/// an extension and counts as one, and the reserves of everyone else stay. The deadline moves by the
/// extension, rounded up to whole ledgers of five seconds, from where it is or from now if it has
/// passed.
pub proof fn extensions_are_for_the_player_in_turn(
    st: TimeBanksView,
    table: TableState,
    player: Address,
    seat: Option<u32>,
    now: u32,
    other: SeatKey,
)
    requires
        other != (SeatKey { table_id: table.id, player }),
        st.configs.contains_key(table.id),
        st.configs[table.id].max_seconds > 0 && st.configs[table.id].extension_seconds > 0,
    ensures
        ({
            let cfg = st.configs[table.id];
            let b = st.bank_or_new(table.id, player, cfg, now);
            let n = st.extended(table.id, player, now);
            let c = n.banks[SeatKey { table_id: table.id, player }];
            let ledgers = extension_ledgers(cfg);
            &&& st.extension_refusal(table, player, seat, now) is None <==> {
                &&& table.phase is Preflop || table.phase is Flop || table.phase is Turn
                    || table.phase is River
                &&& seat == Some(table.current_turn)
                &&& b.extensions_used_this_hand < cfg.max_extensions_per_hand
                &&& b.remaining_seconds >= cfg.extension_seconds
            }
            &&& st.extension_refusal(table, player, seat, now) is None ==> c.remaining_seconds
                == b.remaining_seconds - cfg.extension_seconds && c.extensions_used_this_hand
                == b.extensions_used_this_hand + 1 && c.active_extension
                && c.active_extension_seconds == cfg.extension_seconds
            &&& n.banks.contains_key(other) == st.banks.contains_key(other)
            &&& n.banks[other] == st.banks[other]
            &&& n.configs == st.configs
            &&& 5 * ledgers >= cfg.extension_seconds && 5 * (ledgers - 1) < cfg.extension_seconds
            &&& deadline_base(table, now) >= now && deadline_base(table, now)
                >= table.action_deadline && (deadline_base(table, now) == now || deadline_base(
                table,
                now,
            ) == table.action_deadline)
        }),
{
}

/// A player is found by the digest of their address, and the first place counts where several have
/// it; a player who is not at the table is not found.
pub proof fn players_are_found_by_digest(players: Seq<PlayerState>, a: Address)
    ensures
        match seat_by_digest(players, a) {
            Some(s) => exists|i: int|
                {
                    &&& 0 <= i < players.len()
                    &&& (#[trigger] players[i]).seat_index == s
                    &&& address_digest(players[i].address) == address_digest(a)
                    &&& forall|j: int|
                        0 <= j < i ==> address_digest((#[trigger] players[j]).address)
                            != address_digest(a)
                },
            None => forall|i: int|
                0 <= i < players.len() ==> address_digest((#[trigger] players[i]).address)
                    != address_digest(a),
        },
    decreases players.len(),
{
    if players.len() > 0 {
        let d = players.drop_last();
        let last = players.len() - 1;
        players_are_found_by_digest(d, a);
        if let Some(s) = seat_by_digest(d, a) {
            let i = choose|i: int|
                {
                    &&& 0 <= i < d.len()
                    &&& (#[trigger] d[i]).seat_index == s
                    &&& address_digest(d[i].address) == address_digest(a)
                    &&& forall|j: int|
                        0 <= j < i ==> address_digest((#[trigger] d[j]).address) != address_digest(
                            a,
                        )
                };
            assert(players[i] == d[i]);
            assert forall|j: int| 0 <= j < i implies address_digest(
                (#[trigger] players[j]).address,
            ) != address_digest(a) by {
                assert(d[j] == players[j]);
            }
        } else {
            assert forall|j: int| 0 <= j < last implies address_digest(
                (#[trigger] players[j]).address,
            ) != address_digest(a) by {
                assert(d[j] == players[j]);
            }
            assert(players[last] == players.last());
        }
    }
}

/// With each hand every player at the table has their reserve replenished once, and nobody else.
pub proof fn replenishing_is_for_the_table(
    st: TimeBanksView,
    table_id: u32,
    players: Seq<PlayerState>,
    cfg: TimeBankConfig,
    now: u32,
    k: SeatKey,
)
    requires
        forall|i: int, j: int|
            0 <= i < j < players.len() ==> (#[trigger] players[i]).address != (
            #[trigger] players[j]).address,
    ensures
        ({
            let n = st.replenished_all(table_id, players, cfg, now);
            let here = k.table_id == table_id && exists|i: int|
                0 <= i < players.len() && (#[trigger] players[i]).address == k.player;
            &&& n.configs == st.configs
            &&& here ==> n.banks.contains_key(k) && n.banks[k] == replenished(
                st.bank_or_new(table_id, k.player, cfg, now),
                cfg,
                now,
            )
            &&& !here ==> n.banks.contains_key(k) == st.banks.contains_key(k) && n.banks[k]
                == st.banks[k]
        }),
    decreases players.len(),
{
    if players.len() > 0 {
        let d = players.drop_last();
        let last = players.len() - 1;
        assert forall|i: int, j: int| 0 <= i < j < d.len() implies (#[trigger] d[i]).address != (
        #[trigger] d[j]).address by {
            assert(d[i] == players[i] && d[j] == players[j]);
        }
        replenishing_is_for_the_table(st, table_id, d, cfg, now, k);
        if exists|i: int| 0 <= i < d.len() && (#[trigger] d[i]).address == k.player {
            let i = choose|i: int| 0 <= i < d.len() && (#[trigger] d[i]).address == k.player;
            assert(players[i].address == k.player);
            assert(players[i].address != players[last].address);
        } else if exists|i: int|
            0 <= i < players.len() && (#[trigger] players[i]).address == k.player {
            let i = choose|i: int|
                0 <= i < players.len() && (#[trigger] players[i]).address == k.player;
            if i < last {
                assert(d[i].address == k.player);
            }
        } else {
            assert(players[last].address != k.player);
        }
    }
}

/// A timeout is enforced once the deadline has passed and no time bank can save the player in turn:
/// none is configured, their extensions are used up, or their reserve does not hold another.
pub proof fn timeouts_wait_for_the_reserve(st: TimeBanksView, table: TableState, now: u32)
    requires
        table.current_turn < table.players@.len(),
    ensures
        ({
            let p = table.players@[table.current_turn as int].address;
            let cfg = st.configs[table.id];
            let b = st.bank_or_new(table.id, p, cfg, now);
            let saved = st.configs.contains_key(table.id) && cfg.max_seconds > 0
                && cfg.extension_seconds > 0 && b.extensions_used_this_hand
                < cfg.max_extensions_per_hand && b.remaining_seconds >= cfg.extension_seconds;
            &&& st.rescue_left(table, now) <==> saved
            &&& st.enforced(table, now) <==> table.action_deadline != 0 && now
                >= table.action_deadline && !saved
        }),
{
}

/// A player keeps the reserve that they have, and gets a new one where they have none.
pub proof fn reserves_are_kept(
    st: TimeBanksView,
    table_id: u32,
    player: Address,
    cfg: TimeBankConfig,
    now: u32,
)
    ensures
        ({
            let k = SeatKey { table_id, player };
            let b = st.bank_or_new(table_id, player, cfg, now);
            &&& st.banks.contains_key(k) ==> b == st.banks[k]
            &&& !st.banks.contains_key(k) ==> b.remaining_seconds == cfg.initial_seconds
                && b.extensions_used_this_hand == 0
        }),
{
}

} // verus!
