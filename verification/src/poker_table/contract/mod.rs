//! All tables together: who sits where, who waits, and what is stored beside the tables.

pub mod admin;
pub mod dead_chips;
pub mod governed;
pub mod laws;
pub mod lobby;
pub mod jackpot;
pub mod play;
pub mod recovery;
pub mod rules;
pub mod straddles;
pub mod streets;

use crate::assoc::{value_or, AssocMap, Key};
use crate::host::{Address, Bytes32};
use crate::poker_table::ban_list;
use crate::poker_table::ban_list::{Ban, BanList};
use crate::poker_table::game::committed_total;
use crate::poker_table::governance::{GovernanceView, UpgradeGovernance};
use crate::poker_table::history::{HandHistory, HistoryView};
use crate::poker_table::multi_currency::{CurrencyBook, CurrencyInfo, CurrencyKey};
use crate::poker_table::seating::{
    config_refusal, is_new_table, new_table, seats_numbered, validate_config, MAX_QUEUE_SIZE,
};
use crate::poker_table::straddle::valid_straddle;
use crate::poker_table::time_bank::{SeatKey, TimeBanks, TimeBanksView};
use crate::poker_table::types::{
    ActiveStraddle, GamePhase, MississippiStraddle, PokerTableError, QueueEntry, StraddleConfig, SweepState,
    SweepView, TableClosureProposal, TableConfig, TableState, VarianceConfig, VarianceStats,
    VarianceView,
};
use crate::poker_table::upgrade::{Upgrades, UpgradesView};
use crate::seqs::{sum_by, Dup};
use vstd::prelude::*;

verus! {

/// A hand of a table.
#[derive(Clone, Copy, Debug, PartialEq, Eq, Structural)]
pub struct HandKey {
    pub table_id: u32,
    pub hand_number: u32,
}

impl Key for HandKey {
    fn same(&self, other: &Self) -> (r: bool) {
        *self == *other
    }
}

/// A seat in a hand of a table.
#[derive(Clone, Copy, Debug, PartialEq, Eq, Structural)]
pub struct CommitKey {
    pub table_id: u32,
    pub hand_number: u32,
    pub seat: u32,
}

impl Key for CommitKey {
    fn same(&self, other: &Self) -> (r: bool) {
        *self == *other
    }
}

/// What is stored of all tables.
#[verifier::ext_equal]
pub struct ContractView {
    /// The number of the next table.
    pub next_id: u32,
    pub tables: Map<u32, TableState>,
    pub paused: Map<u32, bool>,
    /// The tables at which each wallet sits.
    pub player_tables: Map<Address, Seq<u32>>,
    pub queues: Map<u32, Seq<QueueEntry>>,
    /// The number of the last action of each player at each table.
    pub counters: Map<SeatKey, u32>,
    pub bans: Map<u32, Seq<Ban>>,
    pub banks: TimeBanksView,
    pub history: HistoryView,
    pub currencies: Map<CurrencyKey, CurrencyInfo>,
    pub governance: GovernanceView,
    pub upgrades: UpgradesView,
    /// Who has approved an emergency withdrawal.
    pub approvals: Map<u32, Seq<Address>>,
    pub closures: Map<u32, TableClosureProposal>,
    pub straddles: Map<u32, StraddleConfig>,
    /// Straddles that players have volunteered for the next hand.
    pub volunteers: Map<u32, MississippiStraddle>,
    /// The straddles of the current hands.
    pub active_straddles: Map<u32, ActiveStraddle>,
    pub sweeps: Map<u32, SweepView>,
    pub auth_managers: Map<u32, Address>,
    pub jackpot_verifiers: Map<u32, Address>,
    pub jackpot_claims: Map<HandKey, Address>,
    /// Actions that players have committed to.
    pub commitments: Map<CommitKey, Bytes32>,
    pub nonce_hashes: Map<CommitKey, Bytes32>,
    pub variance_configs: Map<u32, VarianceConfig>,
    pub variance_stats: Map<u32, VarianceView>,
}

/// Whether a board of `n` cards is one of the phase: none before the flop, three after it, four
/// after the turn and five after the river. While two players choose, cards are to come.
pub open spec fn board_fits(phase: GamePhase, n: int) -> bool {
    match phase {
        GamePhase::Dealing | GamePhase::Preflop | GamePhase::DealingFlop => n == 0,
        GamePhase::Flop | GamePhase::DealingTurn => n == 3,
        GamePhase::Turn | GamePhase::DealingRiver => n == 4,
        GamePhase::River
        | GamePhase::Showdown
        | GamePhase::ShowdownRun1
        | GamePhase::ShowdownRun2 => n == 5,
        GamePhase::AwaitingRunItTwice => n == 0 || n == 3 || n == 4,
        _ => true,
    }
}

/// The board of a table is one of its phase, all its cards have been dealt, and two runs share the
/// cards of a street.
pub open spec fn board_wf(t: TableState) -> bool {
    &&& board_fits(t.phase, t.board_cards@.len() as int)
    &&& !t.phase.between_hands() ==> t.board_cards@.len() <= t.dealt_indices@.len()
    &&& t.rit_state matches Some(r) ==> r.shared_board_count == 0 || r.shared_board_count == 3
        || r.shared_board_count == 4
}

/// A table between any two calls: its configuration is one that a table can have, its seats are
/// numbered in order, the button is on the table, a hand is played by at least two
/// with a pot that is what they have put in and the board of its phase, and there is no pot between
/// hands.
pub open spec fn table_wf(t: TableState) -> bool {
    &&& t.hand().wf()
    &&& config_refusal(t.config) is None
    &&& t.config.blinds_schedule.levels@.len() <= u32::MAX
    &&& t.current_blind_level < t.config.blinds_schedule.levels@.len()
    &&& t.players@.len() <= t.config.max_players
    &&& seats_numbered(t.players@)
    &&& t.dealer_seat == 0 || t.dealer_seat < t.players@.len()
    &&& t.phase.between_hands() ==> t.pot == 0
    &&& !t.phase.between_hands() ==> t.players@.len() >= 2 && t.pot == committed_total(t.players@)
    &&& t.last_raise_size >= 0
    &&& !t.phase.between_hands() ==> t.last_raise_size > 0
    &&& board_wf(t)
}

/// Every table is stored under its number, which is one that was given out.
pub open spec fn tables_wf(tables: Map<u32, TableState>, next_id: u32) -> bool {
    forall|id: u32| #[trigger]
        tables.contains_key(id) ==> table_wf(tables[id]) && tables[id].id == id && id < next_id
}

/// No queue is longer than it may be, and nobody waits with less than nothing.
pub open spec fn queue_wf(queue: Seq<QueueEntry>) -> bool {
    &&& queue.len() <= MAX_QUEUE_SIZE
    &&& forall|i: int| 0 <= i < queue.len() ==> (#[trigger] queue[i]).buy_in >= 0
}

/// Every queue is one that there can be, and belongs to a table that was set up.
pub open spec fn queues_wf(queues: Map<u32, Seq<QueueEntry>>, next_id: u32) -> bool {
    forall|id: u32| #[trigger] queues.contains_key(id) ==> queue_wf(queues[id]) && id < next_id
}

/// What a player in a queue has paid.
pub open spec fn paid_in() -> spec_fn(QueueEntry) -> int {
    |e: QueueEntry| e.buy_in as int
}

/// Every wallet that has an entry sits at some table, and no table is listed twice.
pub open spec fn index_wf(player_tables: Map<Address, Seq<u32>>) -> bool {
    forall|p: Address| #[trigger]
        player_tables.contains_key(p) ==> player_tables[p].len() > 0
            && player_tables[p].no_duplicates()
}

/// Every straddle is one that can be set up, and nobody volunteers less than nothing.
pub open spec fn straddles_wf(
    straddles: Map<u32, StraddleConfig>,
    volunteers: Map<u32, MississippiStraddle>,
) -> bool {
    &&& forall|id: u32| #[trigger]
        straddles.contains_key(id) ==> valid_straddle(
            straddles[id].multiplier,
            straddles[id].amount_cap,
        )
    &&& forall|id: u32| #[trigger] volunteers.contains_key(id) ==> volunteers[id].amount >= 0
}

impl ContractView {
    pub open spec fn wf(self) -> bool {
        &&& tables_wf(self.tables, self.next_id)
        &&& self.funds_wf()
        &&& queues_wf(self.queues, self.next_id)
        &&& index_wf(self.player_tables)
        &&& straddles_wf(self.straddles, self.volunteers)
        &&& ban_list::wf(self.bans)
        &&& self.banks.wf()
        &&& self.history.wf()
        &&& self.governance.wf()
    }

    /// All that is held for a table: its chips and what the players in its queue have paid.
    pub open spec fn funds(self, table_id: u32) -> int {
        self.tables[table_id].hand().chips() + sum_by(self.queue_of(table_id), paid_in())
    }

    /// What is held for a table is a number that a balance can hold.
    pub open spec fn funds_wf(self) -> bool {
        forall|id: u32| #[trigger] self.tables.contains_key(id) ==> self.funds(id) <= i128::MAX
    }

    /// Whether a table is paused.
    pub open spec fn paused_at(self, table_id: u32) -> bool {
        value_or(self.paused, table_id, false)
    }

    /// The players who wait for a seat.
    pub open spec fn queue_of(self, table_id: u32) -> Seq<QueueEntry> {
        value_or(self.queues, table_id, Seq::empty())
    }

    /// The tables at which a wallet sits.
    pub open spec fn tables_of(self, player: Address) -> Seq<u32> {
        value_or(self.player_tables, player, Seq::empty())
    }

    /// The state with one table changed.
    pub open spec fn with_table(self, table_id: u32, t: TableState) -> Self {
        ContractView { tables: self.tables.insert(table_id, t), ..self }
    }

    /// Why a table that has to run cannot be used, if it cannot: it is paused or does not exist.
    pub open spec fn closed_to_play(self, table_id: u32) -> Option<PokerTableError> {
        if self.paused_at(table_id) {
            Some(PokerTableError::ContractPaused)
        } else if !self.tables.contains_key(table_id) {
            Some(PokerTableError::TableNotFound)
        } else {
            None
        }
    }
}

/// Changing one table keeps everything well-formed if the new table is.
pub proof fn lemma_with_table(st: ContractView, table_id: u32, t: TableState)
    requires
        st.wf(),
        st.tables.contains_key(table_id),
        table_wf(t),
        t.id == table_id,
        st.with_table(table_id, t).funds(table_id) <= i128::MAX,
    ensures
        st.with_table(table_id, t).wf(),
{
    let n = st.with_table(table_id, t);
    assert forall|id: u32| #[trigger] n.tables.contains_key(id) implies n.funds(id)
        <= i128::MAX by {
        assert(st.tables.contains_key(id));
        assert(n.queue_of(id) == st.queue_of(id));
    }
    assert forall|id: u32| #[trigger] n.tables.contains_key(id) implies table_wf(n.tables[id])
        && n.tables[id].id == id && id < n.next_id by {
        assert(st.tables.contains_key(id));
    }
}

/// All tables.
pub struct PokerTableContract {
    next_id: u32,
    tables: AssocMap<u32, TableState>,
    paused: AssocMap<u32, bool>,
    player_tables: AssocMap<Address, Vec<u32>>,
    queues: AssocMap<u32, Vec<QueueEntry>>,
    counters: AssocMap<SeatKey, u32>,
    bans: BanList,
    banks: TimeBanks,
    history: HandHistory,
    currencies: CurrencyBook,
    governance: UpgradeGovernance,
    upgrades: Upgrades,
    approvals: AssocMap<u32, Vec<Address>>,
    closures: AssocMap<u32, TableClosureProposal>,
    straddles: AssocMap<u32, StraddleConfig>,
    volunteers: AssocMap<u32, MississippiStraddle>,
    active_straddles: AssocMap<u32, ActiveStraddle>,
    sweeps: AssocMap<u32, SweepState>,
    auth_managers: AssocMap<u32, Address>,
    jackpot_verifiers: AssocMap<u32, Address>,
    jackpot_claims: AssocMap<HandKey, Address>,
    commitments: AssocMap<CommitKey, Bytes32>,
    nonce_hashes: AssocMap<CommitKey, Bytes32>,
    variance_configs: AssocMap<u32, VarianceConfig>,
    variance_stats: AssocMap<u32, VarianceStats>,
}

impl View for PokerTableContract {
    type V = ContractView;

    closed spec fn view(&self) -> ContractView {
        ContractView {
            next_id: self.next_id,
            tables: self.tables@,
            paused: self.paused@,
            player_tables: self.player_tables@,
            queues: self.queues@,
            counters: self.counters@,
            bans: self.bans@,
            banks: self.banks@,
            history: self.history@,
            currencies: self.currencies@,
            governance: self.governance@,
            upgrades: self.upgrades@,
            approvals: self.approvals@,
            closures: self.closures@,
            straddles: self.straddles@,
            volunteers: self.volunteers@,
            active_straddles: self.active_straddles@,
            sweeps: self.sweeps@,
            auth_managers: self.auth_managers@,
            jackpot_verifiers: self.jackpot_verifiers@,
            jackpot_claims: self.jackpot_claims@,
            commitments: self.commitments@,
            nonce_hashes: self.nonce_hashes@,
            variance_configs: self.variance_configs@,
            variance_stats: self.variance_stats@,
        }
    }
}

impl PokerTableContract {
    /// No tables.
    pub fn new() -> (r: Self)
        ensures
            r@.wf(),
            r@ == (ContractView {
                next_id: 0,
                tables: Map::empty(),
                paused: Map::empty(),
                player_tables: Map::empty(),
                queues: Map::empty(),
                counters: Map::empty(),
                bans: Map::empty(),
                banks: TimeBanksView { configs: Map::empty(), banks: Map::empty() },
                history: HistoryView { records: Map::empty(), metas: Map::empty() },
                currencies: Map::empty(),
                governance: GovernanceView {
                    signers: Map::empty(),
                    thresholds: Map::empty(),
                    delays: Map::empty(),
                    pending: Map::empty(),
                },
                upgrades: UpgradesView { proposals: Map::empty(), last: Map::empty() },
                approvals: Map::empty(),
                closures: Map::empty(),
                straddles: Map::empty(),
                volunteers: Map::empty(),
                active_straddles: Map::empty(),
                sweeps: Map::empty(),
                auth_managers: Map::empty(),
                jackpot_verifiers: Map::empty(),
                jackpot_claims: Map::empty(),
                commitments: Map::empty(),
                nonce_hashes: Map::empty(),
                variance_configs: Map::empty(),
                variance_stats: Map::empty(),
            }),
    {
        PokerTableContract {
            next_id: 0,
            tables: AssocMap::new(),
            paused: AssocMap::new(),
            player_tables: AssocMap::new(),
            queues: AssocMap::new(),
            counters: AssocMap::new(),
            bans: BanList::new(),
            banks: TimeBanks::new(),
            history: HandHistory::new(),
            currencies: CurrencyBook::new(),
            governance: UpgradeGovernance::new(),
            upgrades: Upgrades::new(),
            approvals: AssocMap::new(),
            closures: AssocMap::new(),
            straddles: AssocMap::new(),
            volunteers: AssocMap::new(),
            active_straddles: AssocMap::new(),
            sweeps: AssocMap::new(),
            auth_managers: AssocMap::new(),
            jackpot_verifiers: AssocMap::new(),
            jackpot_claims: AssocMap::new(),
            commitments: AssocMap::new(),
            nonce_hashes: AssocMap::new(),
            variance_configs: AssocMap::new(),
            variance_stats: AssocMap::new(),
        }
    }

    /// Sets up a table at ledger `now` and time `timestamp`, and returns its number.
    pub fn create_table(&mut self, admin: Address, config: TableConfig, now: u32, timestamp: u64) -> (r:
        Result<u32, PokerTableError>)
        requires
            old(self)@.wf(),
            old(self)@.next_id < u32::MAX,
            config.blinds_schedule.levels@.len() <= u32::MAX,
        ensures
            match config_refusal(config) {
                Some(e) => r == Err::<u32, _>(e) && final(self)@ == old(self)@,
                None => {
                    let id = old(self)@.next_id;
                    &&& r == Ok::<_, PokerTableError>(id)
                    &&& is_new_table(final(self)@.tables[id], id, admin, config, now, timestamp)
                    &&& final(self)@ == (ContractView {
                        next_id: (id + 1) as u32,
                        ..old(self)@.with_table(id, final(self)@.tables[id])
                    })
                },
            },
            final(self)@.wf(),
            r matches Ok(id) ==> id == old(self)@.next_id && final(self)@.next_id == id + 1
                && final(self)@.tables[id].players@.len() == 0 && final(self)@.tables[id].admin
                == admin,
    {
        match validate_config(&config) {
            Ok(()) => {},
            Err(e) => {
                return Err(e);
            },
        }
        let id: u32 = self.next_id;
        let t = new_table(id, admin, config, now, timestamp);
        let ghost t0 = t;
        self.tables.insert(id, t);
        self.next_id = id + 1;
        proof {
            assert(t0.players@ =~= Seq::empty());
            assert(t0.hand().chips() == 0);
            assert(table_wf(t0));
            assert forall|k: u32| #[trigger] self@.tables.contains_key(k) implies table_wf(
                self@.tables[k],
            ) && self@.tables[k].id == k && k < self@.next_id by {
                if k != id {
                    assert(old(self)@.tables.contains_key(k));
                }
            }
            assert forall|k: u32| #[trigger] self@.tables.contains_key(k) implies self@.funds(k)
                <= i128::MAX by {
                assert(self@.queue_of(k) == old(self)@.queue_of(k));
                if k != id {
                    assert(old(self)@.tables.contains_key(k));
                } else {
                    assert(!old(self)@.queues.contains_key(id));
                }
            }
            assert forall|k: u32| #[trigger] self@.queues.contains_key(k) implies queue_wf(
                self@.queues[k],
            ) && k < self@.next_id by {
                assert(old(self)@.queues.contains_key(k));
            }
        }
        Ok(id)
    }

    /// How many tables have been set up.
    pub fn table_count(&self) -> (r: u32)
        ensures
            r == self@.next_id,
    {
        self.next_id
    }

    /// The table with the given number.
    pub fn get_table(&self, table_id: u32) -> (r: Result<&TableState, PokerTableError>)
        ensures
            match r {
                Ok(t) => self@.tables.contains_key(table_id) && *t == self@.tables[table_id],
                Err(e) => e == PokerTableError::TableNotFound && !self@.tables.contains_key(
                    table_id,
                ),
            },
    {
        match self.tables.get(&table_id) {
            Some(t) => Ok(t),
            None => Err(PokerTableError::TableNotFound),
        }
    }

    /// Whether a table is paused.
    pub fn is_paused(&self, table_id: u32) -> (r: bool)
        ensures
            r == self@.paused_at(table_id),
    {
        match self.paused.get(&table_id) {
            Some(b) => *b,
            None => false,
        }
    }

    /// Refuses a table that is paused or does not exist.
    fn open_to_play(&self, table_id: u32) -> (r: Result<&TableState, PokerTableError>)
        ensures
            match self@.closed_to_play(table_id) {
                Some(e) => r == Err::<&TableState, _>(e),
                None => r is Ok && *r->Ok_0 == self@.tables[table_id],
            },
    {
        if self.is_paused(table_id) {
            return Err(PokerTableError::ContractPaused);
        }
        self.get_table(table_id)
    }

    /// Takes a table out of the store, to be put back.
    fn take_table(&mut self, table_id: u32) -> (r: TableState)
        requires
            old(self)@.tables.contains_key(table_id),
        ensures
            r == old(self)@.tables[table_id],
            final(self)@ == (ContractView {
                tables: old(self)@.tables.remove(table_id),
                ..old(self)@
            }),
    {
        self.tables.remove(&table_id).unwrap()
    }

    /// Puts a table back into the store.
    fn put_table(&mut self, table_id: u32, t: TableState)
        ensures
            final(self)@ == old(self)@.with_table(table_id, t),
    {
        self.tables.insert(table_id, t);
    }

    /// The players who wait for a seat.
    pub fn get_queue(&self, table_id: u32) -> (r: Vec<QueueEntry>)
        ensures
            r@ == self@.queue_of(table_id),
    {
        match self.queues.get(&table_id) {
            Some(q) => q.dup(),
            None => Vec::new(),
        }
    }

    /// The tables at which a wallet sits.
    pub fn get_player_tables(&self, player: &Address) -> (r: Vec<u32>)
        ensures
            r@ == self@.tables_of(*player),
    {
        match self.player_tables.get(player) {
            Some(v) => v.dup(),
            None => Vec::new(),
        }
    }

    /// At how many tables a wallet sits.
    pub fn get_player_table_count(&self, player: &Address) -> (r: u32)
        requires
            self@.tables_of(*player).len() <= u32::MAX,
        ensures
            r == self@.tables_of(*player).len(),
    {
        let v = self.get_player_tables(player);
        v.len() as u32
    }
}

} // verus!
