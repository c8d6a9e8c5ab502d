//! Running the tables: pausing, settings, bans, currencies and what a table is wired to.

use super::streets::lemma_same_funds;
use super::{lemma_with_table, table_wf, ContractView, PokerTableContract};
use crate::assoc::value_or;
use crate::host::{Address, Party, Symbol, Transfer};
use crate::poker_table::auth::{permitted, require_permission};
use crate::poker_table::ban_list;
use crate::poker_table::ban_list::{ban_set, bans_of, listed, Ban};
use crate::poker_table::game::MAX_RAKE_BPS;
use crate::poker_table::history::{slot_back, SlotKey, HAND_HISTORY_CAPACITY};
use crate::poker_table::multi_currency::{accepted, CurrencyInfo, CurrencyKey};
use crate::poker_table::seating::MAX_PLAYERS_PER_TABLE;
use crate::poker_table::time_bank::{valid_config, SeatKey, TimeBanksView};
use crate::poker_table::types::{
    HandHistoryMeta, HandRecord, PokerTableError, TableConfig, TableState, TimeBank, TimeBankConfig,
    VarianceConfig, VarianceStats, VarianceView,
};
use crate::seqs::Dup;
use vstd::prelude::*;

verus! {

/// What the variance of a table's outcomes means for the jackpot.
#[derive(Clone, Copy, Debug, PartialEq, Eq, Structural)]
pub struct VarianceFunding {
    pub variance_bps: u32,
    pub extra_jackpot_share_bps: u32,
    /// Whether the variance has reached the threshold.
    pub triggered: bool,
}

impl ContractView {
    /// The state with the configuration of a table changed.
    pub open spec fn reconfigured(self, table_id: u32, config: TableConfig) -> Self {
        self.with_table(table_id, TableState { config, ..self.tables[table_id] })
    }

    /// Why a table that is set up between hands cannot be changed, if it cannot.
    pub open spec fn setup_refusal(self, table_id: u32) -> Option<PokerTableError> {
        if !self.tables.contains_key(table_id) {
            Some(PokerTableError::TableNotFound)
        } else if !self.tables[table_id].phase.between_hands() {
            Some(PokerTableError::HandAlreadyInProgress)
        } else {
            None
        }
    }

    /// Who has won the hands of a table; nobody at first.
    pub open spec fn outcomes(self, table_id: u32) -> VarianceView {
        value_or(
            self.variance_stats,
            table_id,
            VarianceView { hands: 0, winner_counts: Seq::new(6, |i: int| 0u32), variance_bps: 0 },
        )
    }
}

/// One more, unless there is no larger number.
pub open spec fn one_more(x: u32) -> u32 {
    if x == u32::MAX {
        x
    } else {
        (x + 1) as u32
    }
}

impl PokerTableContract {
    /// Changes the configuration of a table in a way that keeps it one that a table can have.
    fn put_config(&mut self, table_id: u32, table: TableState)
        requires
            old(self)@.next_id > table_id,
            table_wf(table),
            table.id == table_id,
        ensures
            final(self)@ == old(self)@.with_table(table_id, table),
    {
        self.put_table(table_id, table);
    }

    /// Pauses a table.
    pub fn pause(&mut self, table_id: u32) -> (r: Result<(), PokerTableError>)
        requires
            old(self)@.wf(),
        ensures
            old(self)@.tables.contains_key(table_id) ==> r is Ok && final(self)@ == (ContractView {
                paused: old(self)@.paused.insert(table_id, true),
                ..old(self)@
            }),
            !old(self)@.tables.contains_key(table_id) ==> r == Err::<(), _>(
                PokerTableError::TableNotFound,
            ) && final(self)@ == old(self)@,
            final(self)@.wf(),
            r is Ok ==> final(self)@.paused_at(table_id),
    {
        self.set_paused(table_id, true)
    }

    /// Resumes a table.
    pub fn unpause(&mut self, table_id: u32) -> (r: Result<(), PokerTableError>)
        requires
            old(self)@.wf(),
        ensures
            old(self)@.tables.contains_key(table_id) ==> r is Ok && final(self)@ == (ContractView {
                paused: old(self)@.paused.insert(table_id, false),
                ..old(self)@
            }),
            !old(self)@.tables.contains_key(table_id) ==> r == Err::<(), _>(
                PokerTableError::TableNotFound,
            ) && final(self)@ == old(self)@,
            final(self)@.wf(),
            r is Ok ==> !final(self)@.paused_at(table_id),
    {
        self.set_paused(table_id, false)
    }

    fn set_paused(&mut self, table_id: u32, paused: bool) -> (r: Result<(), PokerTableError>)
        requires
            old(self)@.wf(),
        ensures
            old(self)@.tables.contains_key(table_id) ==> r is Ok && final(self)@ == (ContractView {
                paused: old(self)@.paused.insert(table_id, paused),
                ..old(self)@
            }),
            !old(self)@.tables.contains_key(table_id) ==> r == Err::<(), _>(
                PokerTableError::TableNotFound,
            ) && final(self)@ == old(self)@,
            final(self)@.wf(),
    {
        let ghost st = self@;
        if !self.tables.contains(&table_id) {
            return Err(PokerTableError::TableNotFound);
        }
        self.paused.insert(table_id, paused);
        proof {
            lemma_same_funds(st, self@);
        }
        Ok(())
    }

    /// The administrator of a table.
    pub fn get_admin(&self, table_id: u32) -> (r: Result<Address, PokerTableError>)
        ensures
            r == (if self@.tables.contains_key(table_id) {
                Ok(self@.tables[table_id].admin)
            } else {
                Err(PokerTableError::TableNotFound)
            }),
    {
        match self.get_table(table_id) {
            Ok(t) => Ok(t.admin),
            Err(e) => Err(e),
        }
    }

    /// The game hub of a table.
    pub fn get_hub(&self, table_id: u32) -> (r: Result<Address, PokerTableError>)
        ensures
            r == (if self@.tables.contains_key(table_id) {
                Ok(self@.tables[table_id].config.game_hub)
            } else {
                Err(PokerTableError::TableNotFound)
            }),
    {
        match self.get_table(table_id) {
            Ok(t) => Ok(t.config.game_hub),
            Err(e) => Err(e),
        }
    }

    /// Sets the game hub of a table.
    pub fn set_hub(&mut self, table_id: u32, new_hub: Address) -> (r: Result<(), PokerTableError>)
        requires
            old(self)@.wf(),
        ensures
            old(self)@.tables.contains_key(table_id) ==> r is Ok && final(self)@
                == old(self)@.reconfigured(
                table_id,
                TableConfig { game_hub: new_hub, ..old(self)@.tables[table_id].config },
            ),
            !old(self)@.tables.contains_key(table_id) ==> r == Err::<(), _>(
                PokerTableError::TableNotFound,
            ) && final(self)@ == old(self)@,
            final(self)@.wf(),
    {
        let ghost st = self@;
        if !self.tables.contains(&table_id) {
            return Err(PokerTableError::TableNotFound);
        }
        let mut table = self.take_table(table_id);
        table.config.game_hub = new_hub;
        proof {
            lemma_settings(st, table_id, table);
        }
        self.put_config(table_id, table);
        assert(self@ =~= st.with_table(table_id, table));
        Ok(())
    }

    /// Sets how often a player may rebuy in one session; zero for no limit.
    pub fn set_max_rebuys(&mut self, table_id: u32, max_rebuys: u32) -> (r: Result<
        (),
        PokerTableError,
    >)
        requires
            old(self)@.wf(),
        ensures
            old(self)@.tables.contains_key(table_id) ==> r is Ok && final(self)@
                == old(self)@.reconfigured(
                table_id,
                TableConfig { max_rebuys, ..old(self)@.tables[table_id].config },
            ),
            !old(self)@.tables.contains_key(table_id) ==> r == Err::<(), _>(
                PokerTableError::TableNotFound,
            ) && final(self)@ == old(self)@,
            final(self)@.wf(),
    {
        let ghost st = self@;
        if !self.tables.contains(&table_id) {
            return Err(PokerTableError::TableNotFound);
        }
        let mut table = self.take_table(table_id);
        table.config.max_rebuys = max_rebuys;
        proof {
            lemma_settings(st, table_id, table);
        }
        self.put_config(table_id, table);
        assert(self@ =~= st.with_table(table_id, table));
        Ok(())
    }

    /// Sets the rake, in basis points of the pot.
    pub fn set_rake_bps(&mut self, table_id: u32, rake_bps: u32) -> (r: Result<
        (),
        PokerTableError,
    >)
        requires
            old(self)@.wf(),
        ensures
            if rake_bps > MAX_RAKE_BPS {
                r == Err::<(), _>(PokerTableError::RakeBpsExceedsMax) && final(self)@ == old(self)@
            } else if !old(self)@.tables.contains_key(table_id) {
                r == Err::<(), _>(PokerTableError::TableNotFound) && final(self)@ == old(self)@
            } else {
                r is Ok && final(self)@ == old(self)@.reconfigured(
                    table_id,
                    TableConfig { rake_bps, ..old(self)@.tables[table_id].config },
                )
            },
            final(self)@.wf(),
            r is Ok <==> rake_bps <= 500 && old(self)@.tables.contains_key(table_id),
            r is Ok ==> final(self)@.tables[table_id].config.rake_bps == rake_bps,
    {
        let ghost st = self@;
        if rake_bps > MAX_RAKE_BPS {
            return Err(PokerTableError::RakeBpsExceedsMax);
        }
        if !self.tables.contains(&table_id) {
            return Err(PokerTableError::TableNotFound);
        }
        let mut table = self.take_table(table_id);
        table.config.rake_bps = rake_bps;
        proof {
            lemma_settings(st, table_id, table);
        }
        self.put_config(table_id, table);
        assert(self@ =~= st.with_table(table_id, table));
        Ok(())
    }

    /// Sets with how many seated players a hand can start. This can only change between hands.
    pub fn set_min_players(&mut self, table_id: u32, min_players: u32) -> (r: Result<
        (),
        PokerTableError,
    >)
        requires
            old(self)@.wf(),
        ensures
            ({
                let t = old(self)@.tables[table_id];
                if !old(self)@.tables.contains_key(table_id) {
                    r == Err::<(), _>(PokerTableError::TableNotFound) && final(self)@ == old(self)@
                } else if !t.phase.between_hands() {
                    r == Err::<(), _>(PokerTableError::CannotChangeMinPlayersMidHand)
                        && final(self)@ == old(self)@
                } else if min_players < 2 || min_players > t.config.max_players {
                    r == Err::<(), _>(PokerTableError::InvalidPlayerCount) && final(self)@
                        == old(self)@
                } else {
                    r is Ok && final(self)@ == old(self)@.reconfigured(
                        table_id,
                        TableConfig { min_players, ..t.config },
                    )
                }
            }),
            final(self)@.wf(),
            r is Ok ==> 2 <= min_players <= old(self)@.tables[table_id].config.max_players
                && final(self)@.tables[table_id].config.min_players == min_players,
    {
        let ghost st = self@;
        match self.get_table(table_id) {
            Ok(t) => {
                if !t.phase.is_between_hands() {
                    return Err(PokerTableError::CannotChangeMinPlayersMidHand);
                }
                if min_players < 2 || min_players > t.config.max_players {
                    return Err(PokerTableError::InvalidPlayerCount);
                }
            },
            Err(e) => {
                return Err(e);
            },
        }
        let mut table = self.take_table(table_id);
        table.config.min_players = min_players;
        proof {
            lemma_settings(st, table_id, table);
        }
        self.put_config(table_id, table);
        assert(self@ =~= st.with_table(table_id, table));
        Ok(())
    }

    /// Sets the jackpot's share of the rake and the least hand that makes a bad beat.
    pub fn set_jackpot_config(
        &mut self,
        table_id: u32,
        jackpot_rake_share_bps: u32,
        min_category: u32,
        min_rank: u32,
    ) -> (r: Result<(), PokerTableError>)
        requires
            old(self)@.wf(),
        ensures
            old(self)@.tables.contains_key(table_id) ==> r is Ok && final(self)@
                == old(self)@.reconfigured(
                table_id,
                TableConfig {
                    jackpot_rake_share_bps,
                    min_bad_beat_category: min_category,
                    min_bad_beat_rank: min_rank,
                    ..old(self)@.tables[table_id].config
                },
            ),
            !old(self)@.tables.contains_key(table_id) ==> r == Err::<(), _>(
                PokerTableError::TableNotFound,
            ) && final(self)@ == old(self)@,
            final(self)@.wf(),
    {
        let ghost st = self@;
        if !self.tables.contains(&table_id) {
            return Err(PokerTableError::TableNotFound);
        }
        let mut table = self.take_table(table_id);
        table.config.jackpot_rake_share_bps = jackpot_rake_share_bps;
        table.config.min_bad_beat_category = min_category;
        table.config.min_bad_beat_rank = min_rank;
        proof {
            lemma_settings(st, table_id, table);
        }
        self.put_config(table_id, table);
        assert(self@ =~= st.with_table(table_id, table));
        Ok(())
    }

    /// The rake that a table has collected.
    pub fn get_rake_balance(&self, table_id: u32) -> (r: Result<i128, PokerTableError>)
        ensures
            r == (if self@.tables.contains_key(table_id) {
                Ok(self@.tables[table_id].rake_balance)
            } else {
                Err(PokerTableError::TableNotFound)
            }),
    {
        match self.get_table(table_id) {
            Ok(t) => Ok(t.rake_balance),
            Err(e) => Err(e),
        }
    }

    /// The jackpot of a table.
    pub fn get_jackpot_balance(&self, table_id: u32) -> (r: Result<i128, PokerTableError>)
        ensures
            r == (if self@.tables.contains_key(table_id) {
                Ok(self@.tables[table_id].jackpot_balance)
            } else {
                Err(PokerTableError::TableNotFound)
            }),
    {
        match self.get_table(table_id) {
            Ok(t) => Ok(t.jackpot_balance),
            Err(e) => Err(e),
        }
    }

    /// The jackpot's share of the rake, and the category and rank of the least bad beat.
    pub fn get_jackpot_config(&self, table_id: u32) -> (r: Result<(u32, u32, u32), PokerTableError>)
        ensures
            r == (if self@.tables.contains_key(table_id) {
                let c = self@.tables[table_id].config;
                Ok((c.jackpot_rake_share_bps, c.min_bad_beat_category, c.min_bad_beat_rank))
            } else {
                Err(PokerTableError::TableNotFound)
            }),
    {
        match self.get_table(table_id) {
            Ok(t) => Ok(
                (
                    t.config.jackpot_rake_share_bps,
                    t.config.min_bad_beat_category,
                    t.config.min_bad_beat_rank,
                ),
            ),
            Err(e) => Err(e),
        }
    }

    /// Pays the collected rake to the administrator. Returns the amount and the transfer.
    pub fn withdraw_rake(&mut self, table_id: u32) -> (r: Result<
        (i128, Option<Transfer>),
        PokerTableError,
    >)
        requires
            old(self)@.wf(),
        ensures
            ({
                let t = old(self)@.tables[table_id];
                if !old(self)@.tables.contains_key(table_id) {
                    r == Err::<(i128, Option<Transfer>), _>(PokerTableError::TableNotFound)
                        && final(self)@ == old(self)@
                } else {
                    &&& r == Ok::<_, PokerTableError>(
                        (
                            t.rake_balance,
                            if t.rake_balance > 0 {
                                Some(
                                    Transfer {
                                        token: t.config.token,
                                        from: Party::This,
                                        to: Party::Wallet(t.admin),
                                        amount: t.rake_balance,
                                    },
                                )
                            } else {
                                None
                            },
                        ),
                    )
                    &&& final(self)@ == old(self)@.with_table(
                        table_id,
                        TableState { rake_balance: 0, ..t },
                    )
                    &&& final(self)@.funds(table_id) == old(self)@.funds(table_id) - t.rake_balance
                }
            }),
            final(self)@.wf(),
            r matches Ok((amount, t)) ==> {
                &&& amount == old(self)@.tables[table_id].rake_balance
                &&& final(self)@.tables[table_id].rake_balance == 0
                &&& final(self)@.tables[table_id].jackpot_balance
                    == old(self)@.tables[table_id].jackpot_balance
                &&& amount > 0 ==> t is Some && (t->0).amount == amount && (t->0).to
                    == Party::Wallet(old(self)@.tables[table_id].admin)
            },
    {
        let ghost st = self@;
        if !self.tables.contains(&table_id) {
            return Err(PokerTableError::TableNotFound);
        }
        let ghost t = st.tables[table_id];
        let mut table = self.take_table(table_id);
        let amount: i128 = table.rake_balance;
        let transfer: Option<Transfer> = if amount > 0 {
            Some(
                Transfer {
                    token: table.config.token,
                    from: Party::This,
                    to: Party::Wallet(table.admin),
                    amount,
                },
            )
        } else {
            None
        };
        table.rake_balance = 0;
        let ghost u = table;
        self.put_table(table_id, table);
        proof {
            assert(self@ =~= st.with_table(table_id, u));
            assert(u.hand().chips() == t.hand().chips() - t.rake_balance);
            assert(u.hand().wf());
            assert(table_wf(u));
            assert(self@.queue_of(table_id) == st.queue_of(table_id));
            assert(st.funds(table_id) <= i128::MAX);
            lemma_with_table(st, table_id, u);
        }
        Ok((amount, transfer))
    }

    /// Who has won the hands of a table.
    pub fn get_variance_stats(&self, table_id: u32) -> (r: Result<VarianceStats, PokerTableError>)
        ensures
            match r {
                Ok(v) => self@.tables.contains_key(table_id) && v@ == value_or(
                    self@.variance_stats,
                    table_id,
                    VarianceView { hands: 0, winner_counts: Seq::empty(), variance_bps: 0 },
                ),
                Err(e) => e == PokerTableError::TableNotFound && !self@.tables.contains_key(
                    table_id,
                ),
            },
    {
        if !self.tables.contains(&table_id) {
            return Err(PokerTableError::TableNotFound);
        }
        match self.variance_stats.get(&table_id) {
            Some(v) => Ok(v.dup()),
            None => {
                let v = VarianceStats { hands: 0, winner_counts: Vec::new(), variance_bps: 0 };
                assert(v@.winner_counts =~= Seq::empty());
                Ok(v)
            },
        }
    }

    /// When outcomes feed the jackpot of a table, by the table's own configuration or else by
    /// `default_config`.
    pub fn get_variance_config(&self, table_id: u32, default_config: VarianceConfig) -> (r: Result<
        VarianceConfig,
        PokerTableError,
    >)
        ensures
            r == (if self@.tables.contains_key(table_id) {
                Ok(value_or(self@.variance_configs, table_id, default_config))
            } else {
                Err(PokerTableError::TableNotFound)
            }),
    {
        if !self.tables.contains(&table_id) {
            return Err(PokerTableError::TableNotFound);
        }
        match self.variance_configs.get(&table_id) {
            Some(c) => Ok(*c),
            None => Ok(default_config),
        }
    }

    /// Sets when outcomes feed the jackpot of a table.
    pub fn set_variance_config(
        &mut self,
        table_id: u32,
        threshold_bps: u32,
        extra_jackpot_share_bps: u32,
    ) -> (r: Result<(), PokerTableError>)
        requires
            old(self)@.wf(),
        ensures
            if threshold_bps > 10_000 || extra_jackpot_share_bps > 10_000 {
                r == Err::<(), _>(PokerTableError::InvalidVarianceConfig) && final(self)@
                    == old(self)@
            } else if !old(self)@.tables.contains_key(table_id) {
                r == Err::<(), _>(PokerTableError::TableNotFound) && final(self)@ == old(self)@
            } else {
                r is Ok && final(self)@ == (ContractView {
                    variance_configs: old(self)@.variance_configs.insert(
                        table_id,
                        VarianceConfig { threshold_bps, extra_jackpot_share_bps },
                    ),
                    ..old(self)@
                })
            },
            final(self)@.wf(),
            r is Ok ==> threshold_bps <= 10_000 && extra_jackpot_share_bps <= 10_000,
    {
        let ghost st = self@;
        if threshold_bps > 10_000 || extra_jackpot_share_bps > 10_000 {
            return Err(PokerTableError::InvalidVarianceConfig);
        }
        if !self.tables.contains(&table_id) {
            return Err(PokerTableError::TableNotFound);
        }
        self.variance_configs.insert(
            table_id,
            VarianceConfig { threshold_bps, extra_jackpot_share_bps },
        );
        proof {
            lemma_same_funds(st, self@);
        }
        Ok(())
    }

    /// Counts the winner of a hand. `variance_bps` is the variance of the counts with this hand,
    /// and `default_config` the configuration of a table without its own.
    pub fn record_outcome(
        &mut self,
        table_id: u32,
        winner_seat: u32,
        variance_bps: u32,
        default_config: VarianceConfig,
    ) -> (r: Result<VarianceFunding, PokerTableError>)
        requires
            old(self)@.wf(),
        ensures
            ({
                let v = old(self)@.outcomes(table_id);
                let c = value_or(old(self)@.variance_configs, table_id, default_config);
                if winner_seat >= v.winner_counts.len() {
                    r == Err::<VarianceFunding, _>(PokerTableError::InvalidPlayerIndex)
                        && final(self)@ == old(self)@
                } else {
                    &&& r == Ok::<_, PokerTableError>(
                        VarianceFunding {
                            variance_bps,
                            extra_jackpot_share_bps: c.extra_jackpot_share_bps,
                            triggered: variance_bps >= c.threshold_bps,
                        },
                    )
                    &&& final(self)@ == (ContractView {
                        variance_stats: old(self)@.variance_stats.insert(
                            table_id,
                            VarianceView {
                                hands: one_more(v.hands),
                                winner_counts: v.winner_counts.update(
                                    winner_seat as int,
                                    one_more(v.winner_counts[winner_seat as int]),
                                ),
                                variance_bps,
                            },
                        ),
                        ..old(self)@
                    })
                }
            }),
            final(self)@.wf(),
            r matches Ok(f) ==> {
                let v = old(self)@.outcomes(table_id);
                let w = final(self)@.outcomes(table_id);
                &&& f.variance_bps == variance_bps
                &&& old(self)@.variance_configs.contains_key(table_id) ==> (f.triggered
                    <==> variance_bps >= old(self)@.variance_configs[table_id].threshold_bps)
                &&& !old(self)@.variance_configs.contains_key(table_id) ==> (f.triggered
                    <==> variance_bps >= default_config.threshold_bps)
                &&& v.hands < u32::MAX ==> w.hands == v.hands + 1
                &&& w.winner_counts.len() == v.winner_counts.len()
            },
    {
        let ghost st = self@;
        let mut stats: VarianceStats = match self.variance_stats.get(&table_id) {
            Some(v) => v.dup(),
            None => {
                let mut winner_counts: Vec<u32> = Vec::new();
                let mut i: u32 = 0;
                while i < MAX_PLAYERS_PER_TABLE
                    invariant
                        i <= MAX_PLAYERS_PER_TABLE,
                        winner_counts@ == Seq::new(i as nat, |j: int| 0u32),
                    decreases MAX_PLAYERS_PER_TABLE - i,
                {
                    winner_counts.push(0);
                    assert(winner_counts@ =~= Seq::new((i + 1) as nat, |j: int| 0u32));
                    i += 1;
                }
                VarianceStats { hands: 0, winner_counts, variance_bps: 0 }
            },
        };
        assert(stats@ == st.outcomes(table_id));
        let seat: usize = winner_seat as usize;
        if seat >= stats.winner_counts.len() {
            return Err(PokerTableError::InvalidPlayerIndex);
        }
        let count: u32 = stats.winner_counts[seat];
        stats.winner_counts.set(seat, count.saturating_add(1));
        stats.hands = stats.hands.saturating_add(1);
        stats.variance_bps = variance_bps;
        self.variance_stats.insert(table_id, stats);
        let config: VarianceConfig = match self.variance_configs.get(&table_id) {
            Some(c) => *c,
            None => default_config,
        };
        proof {
            lemma_same_funds(st, self@);
        }
        Ok(
            VarianceFunding {
                variance_bps,
                extra_jackpot_share_bps: config.extra_jackpot_share_bps,
                triggered: variance_bps >= config.threshold_bps,
            },
        )
    }

    /// Accepts a currency for buy-ins at a table.
    pub fn whitelist_currency(&mut self, table_id: u32, currency: Address, oracle_address: Address) -> (r:
        Result<(), PokerTableError>)
        requires
            old(self)@.wf(),
        ensures
            old(self)@.tables.contains_key(table_id) ==> r is Ok && final(self)@ == (ContractView {
                currencies: old(self)@.currencies.insert(
                    CurrencyKey { table_id, token: currency },
                    CurrencyInfo { token_address: currency, enabled: true, oracle_address },
                ),
                ..old(self)@
            }),
            !old(self)@.tables.contains_key(table_id) ==> r == Err::<(), _>(
                PokerTableError::TableNotFound,
            ) && final(self)@ == old(self)@,
            final(self)@.wf(),
    {
        let ghost st = self@;
        if !self.tables.contains(&table_id) {
            return Err(PokerTableError::TableNotFound);
        }
        self.currencies.whitelist_currency(table_id, currency, oracle_address);
        proof {
            lemma_same_funds(st, self@);
        }
        Ok(())
    }

    /// No longer accepts a currency for buy-ins at a table.
    pub fn remove_whitelisted_currency(&mut self, table_id: u32, currency: &Address) -> (r: Result<
        (),
        PokerTableError,
    >)
        requires
            old(self)@.wf(),
        ensures
            old(self)@.tables.contains_key(table_id) ==> r is Ok && final(self)@ == (ContractView {
                currencies: old(self)@.currencies.remove(
                    CurrencyKey { table_id, token: *currency },
                ),
                ..old(self)@
            }),
            !old(self)@.tables.contains_key(table_id) ==> r == Err::<(), _>(
                PokerTableError::TableNotFound,
            ) && final(self)@ == old(self)@,
            final(self)@.wf(),
    {
        let ghost st = self@;
        if !self.tables.contains(&table_id) {
            return Err(PokerTableError::TableNotFound);
        }
        self.currencies.remove_currency(table_id, currency);
        proof {
            lemma_same_funds(st, self@);
        }
        Ok(())
    }

    /// The oracle that prices a currency of a table.
    pub fn get_currency_oracle(&self, table_id: u32, currency: &Address) -> (r: Option<Address>)
        ensures
            r == (match self@.currencies.index_opt(CurrencyKey { table_id, token: *currency }) {
                Some(info) => Some(info.oracle_address),
                None => None,
            }),
    {
        self.currencies.get_currency_oracle(table_id, currency)
    }

    /// Whether a currency is accepted for buy-ins at a table.
    pub fn is_currency_whitelisted(&self, table_id: u32, currency: &Address) -> (r: bool)
        ensures
            r == accepted(self@.currencies, table_id, *currency),
    {
        self.currencies.is_whitelisted(table_id, currency)
    }

    /// Bans a player from a table.
    pub fn ban_player(&mut self, table_id: u32, player: Address, reason: Symbol) -> (r: Result<
        (),
        PokerTableError,
    >)
        requires
            old(self)@.wf(),
        ensures
            ({
                let n = final(self)@;
                if !old(self)@.tables.contains_key(table_id) {
                    r == Err::<(), _>(PokerTableError::TableNotFound) && n == old(self)@
                } else {
                    &&& r is Ok
                    &&& n == (ContractView {
                        bans: old(self)@.bans.insert(table_id, n.bans[table_id]),
                        ..old(self)@
                    })
                    &&& ban_set(
                        bans_of(old(self)@.bans, table_id),
                        bans_of(n.bans, table_id),
                        player,
                        Some(reason),
                    )
                }
            }),
            final(self)@.wf(),
    {
        let ghost st = self@;
        if !self.tables.contains(&table_id) {
            return Err(PokerTableError::TableNotFound);
        }
        self.bans.ban_player(table_id, player, reason);
        proof {
            lemma_bans_changed(st, self@);
        }
        Ok(())
    }

    /// Lifts the ban of a player.
    pub fn unban_player(&mut self, table_id: u32, player: &Address) -> (r: Result<
        (),
        PokerTableError,
    >)
        requires
            old(self)@.wf(),
        ensures
            ({
                let n = final(self)@;
                if !old(self)@.tables.contains_key(table_id) {
                    r == Err::<(), _>(PokerTableError::TableNotFound) && n == old(self)@
                } else {
                    &&& r is Ok
                    &&& n == (ContractView {
                        bans: old(self)@.bans.insert(table_id, n.bans[table_id]),
                        ..old(self)@
                    })
                    &&& ban_set(
                        bans_of(old(self)@.bans, table_id),
                        bans_of(n.bans, table_id),
                        *player,
                        None,
                    )
                }
            }),
            final(self)@.wf(),
    {
        let ghost st = self@;
        if !self.tables.contains(&table_id) {
            return Err(PokerTableError::TableNotFound);
        }
        self.bans.unban_player(table_id, player);
        proof {
            lemma_bans_changed(st, self@);
        }
        Ok(())
    }

    /// Whether a player is banned from a table.
    pub fn is_player_banned(&self, table_id: u32, player: &Address) -> (r: bool)
        requires
            self@.wf(),
        ensures
            r == listed(bans_of(self@.bans, table_id), *player),
    {
        self.bans.is_banned(table_id, player)
    }

    /// The bans of a table, in the order of the players.
    pub fn get_banned_players(&self, table_id: u32) -> (r: Vec<Ban>)
        ensures
            r@ == bans_of(self@.bans, table_id),
    {
        self.bans.get_banned_players(table_id)
    }

    /// Lets the committee or the administrator of a table flag chip dumping.
    pub fn flag_chip_dumping(&self, table_id: u32, caller: &Address) -> (r: Result<
        (),
        PokerTableError,
    >)
        ensures
            r == (if !self@.tables.contains_key(table_id) {
                Err::<(), _>(PokerTableError::TableNotFound)
            } else if *caller != self@.tables[table_id].committee && *caller
                != self@.tables[table_id].admin {
                Err(PokerTableError::NotAuthorizedCommittee)
            } else {
                Ok(())
            }),
    {
        match self.get_table(table_id) {
            Ok(t) => {
                if *caller != t.committee && *caller != t.admin {
                    return Err(PokerTableError::NotAuthorizedCommittee);
                }
                Ok(())
            },
            Err(e) => Err(e),
        }
    }

    /// Sets the authorization manager of a table, between hands.
    pub fn set_auth_manager(&mut self, table_id: u32, auth_manager: Address) -> (r: Result<
        (),
        PokerTableError,
    >)
        requires
            old(self)@.wf(),
        ensures
            match old(self)@.setup_refusal(table_id) {
                Some(e) => r == Err::<(), _>(e) && final(self)@ == old(self)@,
                None => r is Ok && final(self)@ == (ContractView {
                    auth_managers: old(self)@.auth_managers.insert(table_id, auth_manager),
                    ..old(self)@
                }),
            },
            final(self)@.wf(),
    {
        let ghost st = self@;
        match self.open_to_setup(table_id) {
            Ok(()) => {},
            Err(e) => {
                return Err(e);
            },
        }
        self.auth_managers.insert(table_id, auth_manager);
        proof {
            lemma_same_funds(st, self@);
        }
        Ok(())
    }

    pub(super) fn open_to_setup(&self, table_id: u32) -> (r: Result<(), PokerTableError>)
        ensures
            r == (match self@.setup_refusal(table_id) {
                Some(e) => Err::<(), _>(e),
                None => Ok(()),
            }),
    {
        match self.get_table(table_id) {
            Ok(t) => if t.phase.is_between_hands() {
                Ok(())
            } else {
                Err(PokerTableError::HandAlreadyInProgress)
            },
            Err(e) => Err(e),
        }
    }

    /// The authorization manager of a table.
    pub fn get_auth_manager(&self, table_id: u32) -> (r: Option<Address>)
        ensures
            r == self@.auth_managers.index_opt(table_id),
    {
        match self.auth_managers.get(&table_id) {
            Some(a) => Some(*a),
            None => None,
        }
    }

    /// Removes the authorization manager of a table.
    pub fn clear_auth_manager(&mut self, table_id: u32) -> (r: Result<(), PokerTableError>)
        requires
            old(self)@.wf(),
        ensures
            old(self)@.tables.contains_key(table_id) ==> r is Ok && final(self)@ == (ContractView {
                auth_managers: old(self)@.auth_managers.remove(table_id),
                ..old(self)@
            }),
            !old(self)@.tables.contains_key(table_id) ==> r == Err::<(), _>(
                PokerTableError::TableNotFound,
            ) && final(self)@ == old(self)@,
            final(self)@.wf(),
    {
        let ghost st = self@;
        if !self.tables.contains(&table_id) {
            return Err(PokerTableError::TableNotFound);
        }
        let _ = self.auth_managers.remove(&table_id);
        proof {
            lemma_same_funds(st, self@);
        }
        Ok(())
    }

    /// Whether a user has a permission at a table. Where the table has an authorization manager,
    /// its answer `manager_says` decides, and no answer is a refusal; where it has none, the rule
    /// of the table does.
    pub fn check_permission(
        &self,
        table_id: u32,
        user: &Address,
        permission: Symbol,
        manager_says: Option<bool>,
    ) -> (r: Result<bool, PokerTableError>)
        ensures
            r == (if self@.tables.contains_key(table_id) {
                Ok(
                    if self@.auth_managers.contains_key(table_id) {
                        manager_says == Some(true)
                    } else {
                        permitted(self@.tables[table_id], *user, permission, None)
                    },
                )
            } else {
                Err(PokerTableError::TableNotFound)
            }),
    {
        let answer: Option<bool> = if self.auth_managers.contains(&table_id) {
            match manager_says {
                Some(has) => Some(has),
                None => Some(false),
            }
        } else {
            None
        };
        match self.get_table(table_id) {
            Ok(t) => match require_permission(t, user, permission, answer) {
                Ok(()) => Ok(true),
                Err(_) => Ok(false),
            },
            Err(e) => Err(e),
        }
    }

    /// Sets how reserves of time are kept at a table, between hands.
    pub fn configure_time_bank(&mut self, table_id: u32, cfg: &TimeBankConfig) -> (r: Result<
        (),
        PokerTableError,
    >)
        requires
            old(self)@.wf(),
        ensures
            match old(self)@.setup_refusal(table_id) {
                Some(e) => r == Err::<(), _>(e) && final(self)@ == old(self)@,
                None => if valid_config(*cfg) {
                    r is Ok && final(self)@ == (ContractView {
                        banks: TimeBanksView {
                            configs: old(self)@.banks.configs.insert(table_id, *cfg),
                            ..old(self)@.banks
                        },
                        ..old(self)@
                    })
                } else {
                    r == Err::<(), _>(PokerTableError::InvalidTimeBankConfig) && final(self)@
                        == old(self)@
                },
            },
            final(self)@.wf(),
    {
        let ghost st = self@;
        match self.open_to_setup(table_id) {
            Ok(()) => {},
            Err(e) => {
                return Err(e);
            },
        }
        let result = self.banks.configure(table_id, cfg);
        proof {
            if result is Err {
                assert(self@ =~= st);
            } else {
                lemma_banks_changed(st, self@);
            }
        }
        result
    }

    /// How reserves of time are kept at a table.
    pub fn get_time_bank_config(&self, table_id: u32) -> (r: Option<TimeBankConfig>)
        ensures
            r == self@.banks.configs.index_opt(table_id),
    {
        self.banks.get_config_for_table(table_id)
    }

    /// A player's reserve of time at a table.
    pub fn get_time_bank(&self, table_id: u32, player: &Address) -> (r: Option<TimeBank>)
        ensures
            r == self@.banks.banks.index_opt(SeatKey { table_id, player: *player }),
    {
        self.banks.get_bank(table_id, player)
    }

    /// Sets the jackpot verifier of a table, between hands.
    pub fn set_jackpot_verifier(&mut self, table_id: u32, verifier: Address) -> (r: Result<
        (),
        PokerTableError,
    >)
        requires
            old(self)@.wf(),
        ensures
            match old(self)@.setup_refusal(table_id) {
                Some(e) => r == Err::<(), _>(e) && final(self)@ == old(self)@,
                None => r is Ok && final(self)@ == (ContractView {
                    jackpot_verifiers: old(self)@.jackpot_verifiers.insert(table_id, verifier),
                    ..old(self)@
                }),
            },
            final(self)@.wf(),
    {
        let ghost st = self@;
        match self.open_to_setup(table_id) {
            Ok(()) => {},
            Err(e) => {
                return Err(e);
            },
        }
        self.jackpot_verifiers.insert(table_id, verifier);
        proof {
            lemma_same_funds(st, self@);
        }
        Ok(())
    }

    /// The jackpot verifier of a table.
    pub fn get_jackpot_verifier(&self, table_id: u32) -> (r: Option<Address>)
        ensures
            r == self@.jackpot_verifiers.index_opt(table_id),
    {
        match self.jackpot_verifiers.get(&table_id) {
            Some(a) => Some(*a),
            None => None,
        }
    }

    /// The last hands of a table, newest first: at most `limit` of them, or all that are kept
    /// where `limit` is zero.
    pub fn get_hand_history(&self, table_id: u32, limit: u32) -> (r: Vec<HandRecord>)
        requires
            self@.wf(),
        ensures
            r@.len() == (if limit == 0 || limit > self@.history.hands(table_id).len() {
                self@.history.hands(table_id).len()
            } else {
                limit as nat
            }),
            forall|i: int|
                0 <= i < r@.len() ==> (#[trigger] r@[i])@ == self@.history.hands(table_id)[i],
    {
        self.history.get_history(table_id, limit)
    }

    /// At most `limit` of the last hands of a table, newest first, without the newest `offset`.
    pub fn get_hand_history_chunk(&self, table_id: u32, offset: u32, limit: u32) -> (r: Vec<
        HandRecord,
    >)
        requires
            self@.wf(),
        ensures
            ({
                let hands = self@.history.hands(table_id);
                &&& r@.len() == (if offset >= hands.len() {
                    0
                } else if offset + limit > hands.len() {
                    (hands.len() - offset) as nat
                } else {
                    limit as nat
                })
                &&& forall|i: int|
                    0 <= i < r@.len() ==> (#[trigger] r@[i])@ == hands[offset + i]
            }),
    {
        self.history.get_history_chunk(table_id, offset, limit)
    }

    /// The hand of a table with the given number, while it is kept.
    pub fn get_hand(&self, table_id: u32, hand_number: u32) -> (r: Option<HandRecord>)
        requires
            self@.wf(),
        ensures
            match r {
                Some(h) => h@.hand_number == hand_number && self@.history.hands(table_id).contains(
                    h@,
                ),
                None => forall|i: int|
                    0 <= i < self@.history.hands(table_id).len() ==> (
                    #[trigger] self@.history.hands(table_id)[i]).hand_number != hand_number,
            },
    {
        let found = self.history.get_hand(table_id, hand_number);
        proof {
            let m = self@.history.meta(table_id);
            let hands = self@.history.hands(table_id);
            if found is Some {
                let h = found->0;
                let s = choose|s: u32|
                    s < m.stored && h@ == #[trigger] self@.history.records[SlotKey {
                        table_id,
                        slot: s,
                    }];
                let i: int = if s < m.next_slot {
                    m.next_slot - 1 - s
                } else {
                    m.next_slot + 15 - s
                };
                assert(slot_back(m.next_slot, i) == s);
                assert(hands[i] == h@);
            } else {
                assert forall|i: int| 0 <= i < hands.len() implies (
                #[trigger] hands[i]).hand_number != hand_number by {
                    let s = slot_back(m.next_slot, i) as u32;
                    assert(s < m.stored);
                    assert(hands[i] == self@.history.records[SlotKey { table_id, slot: s }]);
                }
            }
        }
        found
    }

    /// Where the history of a table stands.
    pub fn get_hand_history_meta(&self, table_id: u32) -> (r: HandHistoryMeta)
        ensures
            r == self@.history.meta(table_id),
    {
        self.history.load_meta(table_id)
    }

    /// How many hands of a table are kept.
    pub fn hand_history_capacity() -> (r: u32)
        ensures
            r == 16,
    {
        HAND_HISTORY_CAPACITY
    }
}

/// A table with other settings.
proof fn lemma_settings(st: ContractView, table_id: u32, u: TableState)
    requires
        st.wf(),
        st.tables.contains_key(table_id),
        u == (TableState { config: u.config, ..st.tables[table_id] }),
        crate::poker_table::seating::config_refusal(u.config) is None,
        u.config.max_players == st.tables[table_id].config.max_players,
        u.config.blinds_schedule == st.tables[table_id].config.blinds_schedule,
    ensures
        table_wf(u),
        u.id == table_id,
        table_id < st.next_id,
        st.with_table(table_id, u).wf(),
{
    let t = st.tables[table_id];
    assert(u.hand() == t.hand());
    assert(st.funds(table_id) <= i128::MAX);
    assert(st.with_table(table_id, u).queue_of(table_id) == st.queue_of(table_id));
    assert(st.with_table(table_id, u).funds(table_id) == st.funds(table_id));
    lemma_with_table(st, table_id, u);
}

proof fn lemma_bans_changed(st: ContractView, n: ContractView)
    requires
        st.wf(),
        n == (ContractView { bans: n.bans, ..st }),
        ban_list::wf(n.bans),
    ensures
        n.wf(),
{
    lemma_same_funds(st, ContractView { bans: st.bans, ..n });
    assert forall|id: u32| #[trigger] n.tables.contains_key(id) implies n.funds(id)
        <= i128::MAX by {
        assert(st.tables.contains_key(id));
        assert(n.funds(id) == st.funds(id));
    }
}

proof fn lemma_banks_changed(st: ContractView, n: ContractView)
    requires
        st.wf(),
        n == (ContractView { banks: n.banks, ..st }),
        n.banks.wf(),
    ensures
        n.wf(),
{
    assert forall|id: u32| #[trigger] n.tables.contains_key(id) implies n.funds(id)
        <= i128::MAX by {
        assert(st.tables.contains_key(id));
        assert(n.funds(id) == st.funds(id));
    }
}

/// A table is set up between hands, and its settings change without touching what is on it.
pub proof fn settings_leave_the_table_alone(
    st: ContractView,
    table_id: u32,
    config: TableConfig,
    other: u32,
)
    requires
        st.tables.contains_key(table_id),
        other != table_id,
    ensures
        st.setup_refusal(table_id) is None <==> st.tables[table_id].phase is Waiting
            || st.tables[table_id].phase is Settlement,
        ({
            let (t, u) = (
                st.tables[table_id],
                st.reconfigured(table_id, config).tables[table_id],
            );
            &&& u.config == config
            &&& u.players == t.players && u.pot == t.pot && u.phase == t.phase && u.admin
                == t.admin && u.rake_balance == t.rake_balance && u.jackpot_balance
                == t.jackpot_balance
            &&& st.reconfigured(table_id, config).tables[other] == st.tables[other]
        }),
{
}

} // verus!
