//! Playing hands: dealing, betting, timeouts and the showdown.

use super::{board_fits, lemma_with_table, table_wf, ContractView, PokerTableContract};
use crate::assoc::value_or;
use crate::host::{address_digest, address_eq, Address, Bytes32};
use crate::poker_table::betting::{
    action_result, current_bet, highest_bet, play_fits, process_action_at, turn_refusal,
};
use crate::poker_table::dealing::{deal_refusal, opening_turn, take_deal};
use crate::poker_table::game::{
    ante_amount, break_in_progress, committed_total, count_active, current_blind_level,
    first_active, hand_started, in_break, lemma_committed_update, lemma_stack_bounds, level_at, new_hand, new_hand_pot_is_committed,
    payable, start_new_hand, win_of, FoldWin, Hand,
};
use crate::poker_table::history::{record_of, HistoryView};
use crate::poker_table::seating::{level_valid, seats_numbered};
use crate::poker_table::session::{derive_session_id, session_id};
use crate::poker_table::straddle::{by_volunteers, choose_straddle, post_straddle, straddle_of};
use crate::poker_table::time_bank::{
    find_seat_number, players_are_found_by_digest, seat_by_digest, SeatKey,
};
use crate::poker_table::types::{
    Action, ActiveStraddle, AnteMode, BlindLevel, GamePhase, MississippiStraddle, PlayerState,
    PokerTableError, StraddleConfig, StraddlePosition, TableState, turns_fit};
use soroban_sdk::Env;
use vstd::prelude::*;

verus! {

/// Whether the players sit where they sat.
pub open spec fn same_seats(a: Seq<PlayerState>, b: Seq<PlayerState>) -> bool {
    &&& a.len() == b.len()
    &&& forall|i: int|
        0 <= i < a.len() ==> (#[trigger] a[i]).seat_index == b[i].seat_index && a[i].address
            == b[i].address
}

/// The numbers of a table allow a hand to start: antes that are a part of the big blind, straddles
/// of three big blinds and the count of hands stay within what a number can hold.
pub open spec fn start_fits(t: TableState) -> bool {
    &&& t.hand_number < u32::MAX
    &&& forall|i: int|
        0 <= i < t.config.blinds_schedule.levels@.len() ==> {
            let l = #[trigger] t.config.blinds_schedule.levels@[i];
            &&& l.big_blind * 3 <= i128::MAX
            &&& l.ante matches AnteMode::Percentage(p) ==> l.big_blind * p <= i128::MAX
        }
}

impl ContractView {
    /// Why a hand cannot start, if it cannot.
    pub open spec fn start_refusal(self, table_id: u32, timestamp: u64) -> Option<PokerTableError> {
        let t = self.tables[table_id];
        if self.closed_to_play(table_id) is Some {
            self.closed_to_play(table_id)
        } else if !t.phase.between_hands() {
            Some(PokerTableError::HandAlreadyInProgress)
        } else if t.players@.len() < t.config.min_players {
            Some(PokerTableError::NotEnoughPlayers)
        } else if in_break(t, timestamp) {
            Some(PokerTableError::TimeoutNotReached)
        } else {
            None
        }
    }

    /// The blind level of a hand that starts at time `timestamp`.
    pub open spec fn next_level(self, table_id: u32, timestamp: u64) -> BlindLevel {
        let t = self.tables[table_id];
        let levels = t.config.blinds_schedule.levels@;
        levels[level_at(levels, t.current_blind_level, t.level_started_at, timestamp)]
    }

    /// The straddle of a hand that starts at time `timestamp`.
    pub open spec fn next_straddle(self, table_id: u32, timestamp: u64) -> Option<(int, int)> {
        let t = self.tables[table_id];
        let n = t.players@.len() as int;
        straddle_of(
            self.straddles.index_opt(table_id),
            self.volunteers.index_opt(table_id),
            n,
            (t.dealer_seat + 1) % n,
            self.next_level(table_id, timestamp).big_blind,
        )
    }

    /// The record of the straddle of a hand that starts at time `timestamp`.
    pub open spec fn next_active_straddle(self, table_id: u32, timestamp: u64) -> Option<
        ActiveStraddle,
    > {
        let t = self.tables[table_id];
        let cfg = self.straddles[table_id];
        let by_choice = by_volunteers(cfg.position) && self.volunteers.contains_key(table_id);
        match self.next_straddle(table_id, timestamp) {
            Some((seat, amount)) => {
                let (ps, _, _) = new_hand(
                    t.players@,
                    t.dealer_seat as int,
                    self.next_level(table_id, timestamp),
                );
                Some(
                    ActiveStraddle {
                        seat: seat as u32,
                        amount: payable(ps[seat].stack as int, amount) as i128,
                        live_only: if by_choice {
                            self.volunteers[table_id].live_only
                        } else {
                            cfg.live_only
                        },
                        allow_reraise: if by_choice {
                            self.volunteers[table_id].allow_reraise
                        } else {
                            cfg.allow_reraise
                        },
                        position: cfg.position,
                    },
                )
            },
            None => None,
        }
    }

    /// Whether `next` is the state after a hand has started.
    pub open spec fn started(self, next: ContractView, table_id: u32, now: u32, timestamp: u64) -> bool {
        let t = self.tables[table_id];
        let u = next.tables[table_id];
        &&& hand_started(
            TableState { settlement_entered_ledger: 0, ..t },
            TableState { session_id: t.session_id, ..u },
            self.next_straddle(table_id, timestamp),
            now,
            timestamp,
        )
        &&& u.session_id == session_id(t.id, u.hand_number)
        &&& next == (ContractView {
            tables: self.tables.insert(table_id, u),
            banks: match self.banks.config_of(table_id) {
                Some(cfg) => self.banks.replenished_all(table_id, u.players@, cfg, now),
                None => self.banks,
            },
            volunteers: self.volunteers.remove(table_id),
            active_straddles: match self.next_active_straddle(table_id, timestamp) {
                Some(a) => self.active_straddles.insert(table_id, a),
                None => self.active_straddles.remove(table_id),
            },
            ..self
        })
    }
}

/// The seats of a new hand are those of the players.
proof fn lemma_new_hand_seats(players: Seq<PlayerState>, dealer: int, level: BlindLevel)
    requires
        players.len() >= 1,
    ensures
        same_seats(players, new_hand(players, dealer, level).0),
{
}

/// A table after something has happened in its hand.
pub(super) proof fn lemma_played(t: TableState, u: TableState)
    requires
        table_wf(t),
        t.same_but_hand(u),
        u.hand().wf(),
        same_seats(t.players@, u.players@),
        u.last_raise_size > 0,
        board_fits(u.phase, t.board_cards@.len() as int),
        !t.phase.between_hands(),
        u.phase.between_hands() ==> u.pot == 0,
        !u.phase.between_hands() ==> u.pot == committed_total(u.players@),
        t.players@.len() >= 2,
    ensures
        table_wf(u),
{
    assert forall|i: int| 0 <= i < u.players@.len() implies (
    #[trigger] u.players@[i]).seat_index == i by {
        assert(t.players@[i].seat_index == i);
    }
}

/// The state after one table has changed without a change of its chips.
pub(super) proof fn lemma_table_changed(st: ContractView, n: ContractView, table_id: u32, u: TableState)
    requires
        st.wf(),
        st.tables.contains_key(table_id),
        table_wf(u),
        u.id == table_id,
        u.hand().chips() == st.tables[table_id].hand().chips(),
        n.tables == st.tables.insert(table_id, u),
        n.next_id == st.next_id,
        n.queues == st.queues,
        n.player_tables == st.player_tables,
        n.straddles == st.straddles,
        n.volunteers == st.volunteers,
        n.bans == st.bans,
        n.banks.wf(),
        n.history.wf(),
        n.governance == st.governance,
    ensures
        n.wf(),
        n.funds(table_id) == st.funds(table_id),
{
    let m = st.with_table(table_id, u);
    assert(st.funds(table_id) <= i128::MAX);
    assert(m.queue_of(table_id) == st.queue_of(table_id));
    lemma_with_table(st, table_id, u);
    assert forall|id: u32| #[trigger] n.tables.contains_key(id) implies n.funds(id)
        <= i128::MAX by {
        assert(m.tables.contains_key(id));
        assert(m.funds(id) == n.funds(id));
    }
    assert(n.queue_of(table_id) == st.queue_of(table_id));
}

impl ContractView {
    /// Why a deal is refused, if it is.
    pub open spec fn deal_refused(
        self,
        table_id: u32,
        by_committee: bool,
        commitments: int,
        proof_valid: bool,
    ) -> Option<PokerTableError> {
        if self.closed_to_play(table_id) is Some {
            self.closed_to_play(table_id)
        } else {
            deal_refusal(self.tables[table_id], by_committee, commitments, proof_valid)
        }
    }

    /// The state after a deal at ledger `now`.
    pub open spec fn dealt(
        self,
        table_id: u32,
        deck_root: Bytes32,
        hand_commitments: Vec<Bytes32>,
        dealt_indices: Vec<u32>,
        now: u32,
    ) -> Self {
        let t = self.tables[table_id];
        let straddle_seat = if self.active_straddles.contains_key(table_id) {
            Some(self.active_straddles[table_id].seat)
        } else {
            None
        };
        self.with_table(
            table_id,
            TableState {
                deck_root,
                hand_commitments,
                dealt_indices,
                phase: GamePhase::Preflop,
                last_action_ledger: now,
                current_turn: opening_turn(t, straddle_seat) as u32,
                action_deadline: (now + t.config.turn_ledgers(GamePhase::Preflop)) as u32,
                ..t
            },
        )
    }

    /// The history after a hand that everybody else has folded is won, if it is. `u` is the table
    /// after it.
    pub open spec fn history_with(self, u: TableState, win: Option<FoldWin>, now: u32) -> HistoryView {
        match win {
            Some(w) => self.history.archived(
                u.id,
                record_of(u, seq![(w.seat, w.amount)], w.total_pot, w.rake, false, now),
            ),
            None => self.history,
        }
    }

    /// The number of a player's last action at a table.
    pub open spec fn last_seq(self, table_id: u32, player: Address) -> u32 {
        value_or(self.counters, SeatKey { table_id, player }, 0)
    }

    /// Whether `seq` is the number of the player's next action.
    pub open spec fn seq_due(self, table_id: u32, player: Address, seq: u32) -> bool {
        seq == (self.last_seq(table_id, player) + 1) % 0x1_0000_0000
    }

    /// Whether a player may not raise because they have straddled: the straddle allows no raise
    /// of its own, and the player is on turn before the flop with nothing to call.
    pub open spec fn reraise_barred(self, table_id: u32, seat: Option<u32>, action: Action) -> bool {
        let t = self.tables[table_id];
        let s = self.active_straddles[table_id];
        &&& action is Raise || action is AllIn
        &&& self.active_straddles.contains_key(table_id)
        &&& !s.allow_reraise
        &&& t.phase is Preflop
        &&& seat == Some(s.seat)
        &&& turn_refusal(t.hand(), seat) is None
        &&& t.players@[s.seat as int].bet_this_round == highest_bet(t.players@)
    }

    /// The result of an action at a table, or why it is refused.
    pub open spec fn action_outcome(self, table_id: u32, seat: Option<u32>, action: Action) -> Result<
        (PlayerState, int, int),
        PokerTableError,
    > {
        if self.reraise_barred(table_id, seat, action) {
            Err(PokerTableError::InvalidAction)
        } else {
            action_result(self.tables[table_id], seat, action)
        }
    }

    /// Why an action is refused, if it is. `seat` is the seat number of the player.
    pub open spec fn action_refusal(
        self,
        table_id: u32,
        player: Address,
        seat: Option<u32>,
        seq: u32,
        action: Action,
    ) -> Option<PokerTableError> {
        let t = self.tables[table_id];
        if self.paused_at(table_id) {
            Some(PokerTableError::ContractPaused)
        } else if !self.seq_due(table_id, player, seq) {
            Some(PokerTableError::StaleActionSequence)
        } else if !self.tables.contains_key(table_id) {
            Some(PokerTableError::TableNotFound)
        } else if !t.phase.betting() || (t.rit_state matches Some(r) && r.active) {
            Some(PokerTableError::NotInBettingPhase)
        } else {
            match self.action_outcome(table_id, seat, action) {
                Err(e) => Some(e),
                Ok(_) => None,
            }
        }
    }

    /// Whether `next` is the state after an action with the number `seq` has been taken at ledger
    /// `now`, but for the store of commitments.
    pub open spec fn action_taken(
        self,
        next: ContractView,
        table_id: u32,
        player: Address,
        seat: Option<u32>,
        seq: u32,
        action: Action,
        now: u32,
    ) -> bool {
        let t = self.tables[table_id];
        let u = next.tables[table_id];
        let s = seat->0 as int;
        let h = t.hand().with_action_taken(s, action, action_result(t, seat, action)->Ok_0);
        &&& t.same_but_hand(u)
        &&& u.hand() == h.moved_on(
            s,
            t.config.rake_bps,
            t.config.jackpot_rake_share_bps,
            t.config.turn_ledgers(t.phase),
            now,
        )
        &&& next == (ContractView {
            tables: self.tables.insert(table_id, u),
            counters: self.counters.insert(SeatKey { table_id, player }, seq),
            history: self.history_with(u, win_of(h, t.config.rake_bps), now),
            commitments: next.commitments,
            ..self
        })
    }

    /// What the player of an action that has been taken wins by it.
    pub open spec fn action_answer(self, table_id: u32, seat: Option<u32>, action: Action) -> Option<
        FoldWin,
    > {
        let t = self.tables[table_id];
        win_of(
            t.hand().with_action_taken(
                seat->0 as int,
                action,
                action_result(t, seat, action)->Ok_0,
            ),
            t.config.rake_bps,
        )
    }
}

/// An action moves no player to another seat.
proof fn lemma_action_seats(t: TableState, seat: Option<u32>, action: Action, now: u32)
    requires
        action_result(t, seat, action) is Ok,
        t.hand().wf(),
        t.phase.betting(),
        t.pot == committed_total(t.players@),
        t.last_raise_size > 0,
        t.config.blinds_schedule.levels@[t.current_blind_level as int].big_blind > 0,
    ensures
        same_seats(
            t.players@,
            t.hand().with_action_taken(
                seat->0 as int,
                action,
                action_result(t, seat, action)->Ok_0,
            ).moved_on(
                seat->0 as int,
                t.config.rake_bps,
                t.config.jackpot_rake_share_bps,
                t.config.turn_ledgers(t.phase),
                now,
            ).players,
        ),
        ({
            let h = t.hand().with_action_taken(
                seat->0 as int,
                action,
                action_result(t, seat, action)->Ok_0,
            );
            let n = h.moved_on(
                seat->0 as int,
                t.config.rake_bps,
                t.config.jackpot_rake_share_bps,
                t.config.turn_ledgers(t.phase),
                now,
            );
            &&& n.phase.between_hands() ==> n.pot == 0
            &&& !n.phase.between_hands() ==> n.pot == committed_total(n.players)
            &&& n.last_raise_size > 0
        }),
{
    let s = seat->0 as int;
    let h = t.hand().with_action_taken(s, action, action_result(t, seat, action)->Ok_0);
    assert(h.players[s].seat_index == t.players@[s].seat_index);
    assert(h.players[s].address == t.players@[s].address);
    lemma_first_active_bounds(h.players);
    lemma_stack_bounds(t.players@, s);
    lemma_bets(t.players@, s);
    lemma_committed_update(t.players@, s, h.players[s]);
}

/// No bet is above the highest.
proof fn lemma_bets(players: Seq<PlayerState>, i: int)
    requires
        0 <= i < players.len(),
    ensures
        players[i].bet_this_round <= highest_bet(players),
    decreases players.len(),
{
    if i < players.len() - 1 {
        lemma_bets(players.drop_last(), i);
    }
}

pub(super) proof fn lemma_first_active_bounds(players: Seq<PlayerState>)
    ensures
        0 <= first_active(players) <= players.len(),
        count_active(players) > 0 ==> first_active(players) < players.len(),
    decreases players.len(),
{
    if players.len() > 0 {
        lemma_first_active_bounds(players.drop_last());
    }
}

impl PokerTableContract {
    /// Keeps a hand that everybody else has folded.
    pub(super) fn archive_win(&mut self, table: &TableState, win: &Option<FoldWin>, now: u32)
        requires
            old(self)@.history.wf(),
            win matches Some(w) ==> w.seat < table.players@.len(),
        ensures
            final(self)@ == (ContractView {
                history: old(self)@.history_with(*table, *win, now),
                ..old(self)@
            }),
            final(self)@.history.wf(),
    {
        if let Some(w) = win {
            let mut payouts: Vec<(u32, i128)> = Vec::new();
            payouts.push((w.seat, w.amount));
            assert(payouts@ =~= seq![(w.seat, w.amount)]);
            let result = self.history.archive_hand(
                table,
                &payouts,
                w.total_pot,
                w.rake,
                false,
                now,
            );
            assert(result is Ok);
        }
    }

    /// Takes the deal of the committee at ledger `now`. `proof_valid` is the answer of the
    /// verifier.
    pub fn commit_deal(
        &mut self,
        env: &Env,
        table_id: u32,
        committee: &Address,
        deck_root: Bytes32,
        hand_commitments: Vec<Bytes32>,
        dealt_indices: Vec<u32>,
        proof_valid: bool,
        now: u32,
    ) -> (r: Result<(), PokerTableError>)
        requires
            old(self)@.wf(),
            old(self)@.tables.contains_key(table_id) ==> turns_fit(old(self)@.tables[table_id].config, now),
        ensures
            match old(self)@.deal_refused(
                table_id,
                address_digest(*committee) == address_digest(old(self)@.tables[table_id].committee),
                hand_commitments@.len() as int,
                proof_valid,
            ) {
                Some(e) => r == Err::<(), _>(e) && final(self)@ == old(self)@,
                None => {
                    &&& r is Ok
                    &&& final(self)@ == old(self)@.dealt(
                        table_id,
                        deck_root,
                        hand_commitments,
                        dealt_indices,
                        now,
                    )
                    &&& final(self)@.funds(table_id) == old(self)@.funds(table_id)
                },
            },
            final(self)@.wf(),
            r is Ok ==> proof_valid && address_digest(*committee) == address_digest(
                old(self)@.tables[table_id].committee,
            ),
    {
        let by_committee: bool = match self.open_to_play(table_id) {
            Ok(t) => address_eq(env, committee, &t.committee),
            Err(e) => {
                return Err(e);
            },
        };
        self.commit_deal_as(
            table_id,
            by_committee,
            deck_root,
            hand_commitments,
            dealt_indices,
            proof_valid,
            now,
        )
    }

    /// The same, where it is known whether the caller is the committee of the table.
    pub fn commit_deal_as(
        &mut self,
        table_id: u32,
        by_committee: bool,
        deck_root: Bytes32,
        hand_commitments: Vec<Bytes32>,
        dealt_indices: Vec<u32>,
        proof_valid: bool,
        now: u32,
    ) -> (r: Result<(), PokerTableError>)
        requires
            old(self)@.wf(),
            old(self)@.tables.contains_key(table_id) ==> turns_fit(old(self)@.tables[table_id].config, now),
        ensures
            match old(self)@.deal_refused(
                table_id,
                by_committee,
                hand_commitments@.len() as int,
                proof_valid,
            ) {
                Some(e) => r == Err::<(), _>(e) && final(self)@ == old(self)@,
                None => {
                    &&& r is Ok
                    &&& final(self)@ == old(self)@.dealt(
                        table_id,
                        deck_root,
                        hand_commitments,
                        dealt_indices,
                        now,
                    )
                    &&& final(self)@.funds(table_id) == old(self)@.funds(table_id)
                },
            },
            final(self)@.wf(),
    {
        let ghost st = self@;
        match self.open_to_play(table_id) {
            Ok(_) => {},
            Err(e) => {
                return Err(e);
            },
        }
        let straddle_seat: Option<u32> = match self.active_straddles.get(&table_id) {
            Some(a) => Some(a.seat),
            None => None,
        };
        let ghost t = st.tables[table_id];
        let mut table = self.take_table(table_id);
        let result = take_deal(
            &mut table,
            by_committee,
            deck_root,
            hand_commitments,
            dealt_indices,
            proof_valid,
            straddle_seat,
            now,
        );
        let ghost u = table;
        self.put_table(table_id, table);
        proof {
            assert(self@.tables =~= st.tables.insert(table_id, u));
            if result is Err {
                assert(self@ =~= st);
            } else {
                assert(u.hand().chips() == t.hand().chips());
                assert(u.hand().wf());
                assert(table_wf(u));
                lemma_table_changed(st, self@, table_id, u);
                assert(self@ =~= st.with_table(table_id, u));
            }
        }
        result
    }

    /// Takes a player's action with the number `seq` at ledger `now`. Returns what was won where
    /// the others have all folded.
    pub fn player_action(
        &mut self,
        env: &Env,
        table_id: u32,
        player: &Address,
        seq: u32,
        action: &Action,
        now: u32,
    ) -> (r: Result<Option<FoldWin>, PokerTableError>)
        requires
            old(self)@.wf(),
            old(self)@.tables.contains_key(table_id) ==> play_fits(old(self)@.tables[table_id])
                && turns_fit(old(self)@.tables[table_id].config, now),
        ensures
            ({
                let seat = seat_by_digest(old(self)@.tables[table_id].players@, *player);
                match old(self)@.action_refusal(table_id, *player, seat, seq, *action) {
                    Some(e) => r == Err::<Option<FoldWin>, _>(e) && final(self)@ == old(self)@,
                    None => {
                        &&& r == Ok::<_, PokerTableError>(
                            old(self)@.action_answer(table_id, seat, *action),
                        )
                        &&& old(self)@.action_taken(
                            final(self)@,
                            table_id,
                            *player,
                            seat,
                            seq,
                            *action,
                            now,
                        )
                        &&& final(self)@.commitments == old(self)@.commitments
                        &&& final(self)@.funds(table_id) == old(self)@.funds(table_id)
                    },
                }
            }),
            final(self)@.wf(),
            r is Ok ==> {
                let t = old(self)@.tables[table_id];
                address_digest(t.players@[t.current_turn as int].address) == address_digest(*player)
            },
    {
        let seat: Option<u32> = match self.tables.get(&table_id) {
            Some(t) => find_seat_number(env, t, player),
            None => None,
        };
        proof {
            if self@.tables.contains_key(table_id) {
                assert(table_wf(self@.tables[table_id]));
                players_are_found_by_digest(self@.tables[table_id].players@, *player);
            }
        }
        self.player_action_as(table_id, player, seat, seq, action, now)
    }

    /// The same, for a player whose seat number is known.
    pub fn player_action_as(
        &mut self,
        table_id: u32,
        player: &Address,
        seat: Option<u32>,
        seq: u32,
        action: &Action,
        now: u32,
    ) -> (r: Result<Option<FoldWin>, PokerTableError>)
        requires
            old(self)@.wf(),
            old(self)@.tables.contains_key(table_id) ==> play_fits(old(self)@.tables[table_id])
                && turns_fit(old(self)@.tables[table_id].config, now),
        ensures
            match old(self)@.action_refusal(table_id, *player, seat, seq, *action) {
                Some(e) => r == Err::<Option<FoldWin>, _>(e) && final(self)@ == old(self)@,
                None => {
                    &&& r == Ok::<_, PokerTableError>(
                        old(self)@.action_answer(table_id, seat, *action),
                    )
                    &&& old(self)@.action_taken(
                        final(self)@,
                        table_id,
                        *player,
                        seat,
                        seq,
                        *action,
                        now,
                    )
                    &&& final(self)@.commitments == old(self)@.commitments
                    &&& final(self)@.funds(table_id) == old(self)@.funds(table_id)
                },
            },
            final(self)@.wf(),
    {
        if self.is_paused(table_id) {
            return Err(PokerTableError::ContractPaused);
        }
        let last: u32 = match self.counters.get(&SeatKey { table_id, player: *player }) {
            Some(x) => *x,
            None => 0,
        };
        if seq != last.wrapping_add(1) {
            return Err(PokerTableError::StaleActionSequence);
        }
        match self.tables.get(&table_id) {
            None => {
                return Err(PokerTableError::TableNotFound);
            },
            Some(t) => {
                let twice: bool = match &t.rit_state {
                    Some(r) => r.active,
                    None => false,
                };
                if !t.phase.is_betting() || twice {
                    return Err(PokerTableError::NotInBettingPhase);
                }
            },
        }
        self.take_action(table_id, player, seat, seq, action, now)
    }

    /// Whether a player may not raise because they have straddled.
    fn raise_is_barred(&self, table_id: u32, seat: Option<u32>, action: &Action) -> (r: bool)
        requires
            self@.wf(),
            self@.tables.contains_key(table_id),
        ensures
            r == self@.reraise_barred(table_id, seat, *action),
    {
        let raises: bool = match action {
            Action::Raise(_) => true,
            Action::AllIn => true,
            _ => false,
        };
        if !raises {
            return false;
        }
        match (self.active_straddles.get(&table_id), self.tables.get(&table_id), seat) {
            (Some(s), Some(t), Some(i)) => {
                if s.allow_reraise || t.phase != GamePhase::Preflop || i != s.seat || i
                    != t.current_turn || i as usize >= t.players.len() {
                    return false;
                }
                let p = t.players[i as usize];
                !p.folded && !p.all_in && p.bet_this_round == current_bet(t)
            },
            _ => false,
        }
    }

    /// Takes an action at a table where one can be taken, and counts it.
    pub(super) fn take_action(
        &mut self,
        table_id: u32,
        player: &Address,
        seat: Option<u32>,
        seq: u32,
        action: &Action,
        now: u32,
    ) -> (r: Result<Option<FoldWin>, PokerTableError>)
        requires
            old(self)@.wf(),
            old(self)@.tables.contains_key(table_id),
            old(self)@.tables[table_id].phase.betting(),
            play_fits(old(self)@.tables[table_id]),
            turns_fit(old(self)@.tables[table_id].config, now),
        ensures
            match old(self)@.action_outcome(table_id, seat, *action) {
                Err(e) => r == Err::<Option<FoldWin>, _>(e) && final(self)@ == old(self)@,
                Ok(_) => {
                    &&& r == Ok::<_, PokerTableError>(
                        old(self)@.action_answer(table_id, seat, *action),
                    )
                    &&& old(self)@.action_taken(
                        final(self)@,
                        table_id,
                        *player,
                        seat,
                        seq,
                        *action,
                        now,
                    )
                    &&& final(self)@.commitments == old(self)@.commitments
                    &&& final(self)@.funds(table_id) == old(self)@.funds(table_id)
                },
            },
            final(self)@.wf(),
    {
        let ghost st = self@;
        let ghost t = st.tables[table_id];
        if self.raise_is_barred(table_id, seat, action) {
            return Err(PokerTableError::InvalidAction);
        }
        let mut table = self.take_table(table_id);
        proof {
            assert forall|i: int| 0 <= i < t.config.blinds_schedule.levels@.len() implies (
            #[trigger] t.config.blinds_schedule.levels@[i]).big_blind >= 0 by {
                assert(level_valid(
                    t.config.blinds_schedule.levels@[i],
                    i == t.config.blinds_schedule.levels@.len() - 1,
                ));
            }
        }
        let result = process_action_at(&mut table, seat, action, now);
        let ghost u = table;
        match result {
            Err(e) => {
                self.put_table(table_id, table);
                proof {
                    assert(self@.tables =~= st.tables);
                    assert(self@ =~= st);
                }
                Err(e)
            },
            Ok(win) => {
                proof {
                    lemma_action_seats(t, seat, *action, now);
                    lemma_played(t, u);
                    let h = t.hand().with_action_taken(
                        seat->0 as int,
                        *action,
                        action_result(t, seat, *action)->Ok_0,
                    );
                    lemma_first_active_bounds(h.players);
                }
                self.archive_win(&table, &win, now);
                self.counters.insert(SeatKey { table_id, player: *player }, seq);
                self.put_table(table_id, table);
                proof {
                    assert(self@.tables =~= st.tables.insert(table_id, u));
                    lemma_table_changed(st, self@, table_id, u);
                    assert(st.action_taken(self@, table_id, *player, seat, seq, *action, now));
                }
                Ok(win)
            },
        }
    }

    /// Starts a hand at ledger `now` and time `timestamp`. No hand starts in the break after a
    /// blind level.
    #[verifier::rlimit(60)]
    pub fn start_hand(&mut self, table_id: u32, now: u32, timestamp: u64) -> (r: Result<
        (),
        PokerTableError,
    >)
        requires
            old(self)@.wf(),
            old(self)@.tables.contains_key(table_id) ==> start_fits(old(self)@.tables[table_id]),
        ensures
            match old(self)@.start_refusal(table_id, timestamp) {
                Some(e) => r == Err::<(), _>(e) && final(self)@ == old(self)@,
                None => {
                    &&& r is Ok
                    &&& old(self)@.started(final(self)@, table_id, now, timestamp)
                    &&& final(self)@.funds(table_id) == old(self)@.funds(table_id)
                },
            },
            final(self)@.wf(),
    {
        let ghost st = self@;
        match self.open_to_play(table_id) {
            Ok(t) => {
                if !t.phase.is_between_hands() {
                    return Err(PokerTableError::HandAlreadyInProgress);
                }
                if (t.players.len() as u64) < t.config.min_players as u64 {
                    return Err(PokerTableError::NotEnoughPlayers);
                }
                if break_in_progress(t, timestamp) {
                    return Err(PokerTableError::TimeoutNotReached);
                }
            },
            Err(e) => {
                return Err(e);
            },
        }
        let ghost t = st.tables[table_id];
        let ghost levels = t.config.blinds_schedule.levels@;
        let ghost k = level_at(levels, t.current_blind_level, t.level_started_at, timestamp);
        let mut table = self.take_table(table_id);
        table.settlement_entered_ledger = 0;
        proof {
            assert(table.hand() =~= (Hand { settlement_entered_ledger: 0, ..t.hand() }));
            assert(table.hand().chips() == t.hand().chips());
            assert(table.hand().wf());
            assert forall|i: int| 0 <= i < levels.len() implies {
                let l = #[trigger] levels[i];
                &&& 0 <= l.small_blind
                &&& 0 <= l.big_blind
                &&& 0 <= ante_amount(l) <= i128::MAX
                &&& l.ante matches AnteMode::Percentage(p) ==> l.big_blind * p <= i128::MAX
            } by {
                let l = levels[i];
                if let AnteMode::Percentage(p) = l.ante {
                    assert(l.big_blind * p >= 0) by (nonlinear_arith)
                        requires
                            l.big_blind >= 0,
                            p >= 0,
                    ;
                }
            }
        }
        match start_new_hand(&mut table, now, timestamp) {
            Ok(()) => {},
            Err(e) => {
                assert(false);
                return Err(e);
            },
        }
        let ghost v = table;
        proof {
            lemma_new_hand_seats(t.players@, t.dealer_seat as int, levels[k]);
        }
        let cfg: Option<StraddleConfig> = match self.straddles.get(&table_id) {
            Some(c) => Some(*c),
            None => None,
        };
        let volunteer: Option<MississippiStraddle> = self.volunteers.remove(&table_id);
        let n: u32 = table.players.len() as u32;
        let straddle = choose_straddle(
            &cfg,
            &volunteer,
            n,
            table.dealer_seat,
            table.last_raise_size,
        );
        match straddle {
            Some((seat, amount)) => {
                let paid: i128 = post_straddle(&mut table, seat as usize, amount);
                if let Some(c) = cfg {
                    let by_choice: bool = c.position == StraddlePosition::Mississippi || c.position
                        == StraddlePosition::Any;
                    let (live_only, allow_reraise): (bool, bool) = match volunteer {
                        Some(x) => if by_choice {
                            (x.live_only, x.allow_reraise)
                        } else {
                            (c.live_only, c.allow_reraise)
                        },
                        None => (c.live_only, c.allow_reraise),
                    };
                    self.active_straddles.insert(
                        table_id,
                        ActiveStraddle {
                            seat,
                            amount: paid,
                            live_only,
                            allow_reraise,
                            position: c.position,
                        },
                    );
                }
            },
            None => {
                let _ = self.active_straddles.remove(&table_id);
            },
        }
        table.session_id = derive_session_id(table.id, table.hand_number);
        self.banks.replenish_all(&table, now);
        let ghost u = table;
        self.put_table(table_id, table);
        proof {
            assert(u.hand().chips() == t.hand().chips());
            assert(u.hand().wf());
            new_hand_pot_is_committed(
                t.players@,
                t.dealer_seat as int,
                levels[k],
                st.next_straddle(table_id, timestamp),
            );
            assert(same_seats(t.players@, u.players@));
            assert(seats_numbered(u.players@)) by {
                assert forall|i: int| 0 <= i < u.players@.len() implies (
                #[trigger] u.players@[i]).seat_index == i by {
                    assert(t.players@[i].seat_index == i);
                }
            }
            assert(table_wf(u));
            lemma_with_table(st, table_id, u);
            let m = st.with_table(table_id, u);
            assert(self@.tables =~= m.tables);
            assert(self@.queue_of(table_id) == st.queue_of(table_id));
            assert forall|id: u32| #[trigger] self@.tables.contains_key(id) implies self@.funds(id)
                <= i128::MAX by {
                assert(m.tables.contains_key(id));
                assert(m.funds(id) == self@.funds(id));
            }
            assert forall|id: u32| #[trigger]
                self@.volunteers.contains_key(id) implies self@.volunteers[id].amount >= 0 by {
                assert(st.volunteers.contains_key(id));
            }
            assert(TableState { session_id: t.session_id, ..u } == (TableState {
                players: u.players,
                pot: u.pot,
                ..v
            }));
            assert(st.started(self@, table_id, now, timestamp));
        }
        Ok(())
    }
}

} // verus!
