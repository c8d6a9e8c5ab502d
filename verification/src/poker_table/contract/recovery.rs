//! Getting chips out of a table that is stuck, called off or abandoned.

use super::streets::lemma_same_funds;
use super::{lemma_with_table, table_wf, ContractView, PokerTableContract};
use crate::assoc::value_or;
use crate::host::{address_listed, digest_listed, Address, Transfer};
use crate::poker_table::game::{committed_total, lemma_stack_bounds, stack_of, Hand};
use crate::poker_table::hand_cancellation::{cancel_hand, cancellable};
use crate::poker_table::refunds::{
    all_paid_out, refund_moves_its_total, refund_table_players, refund_total, refund_transfers,
    refunds_fit,
    transfer_total,
};
use crate::poker_table::seating::{find_matches, first_marked, matches_of};
use crate::poker_table::types::{GamePhase, PlayerState, PokerTableError, TableState};
use crate::seqs::{sum_by, Dup};
use soroban_sdk::Env;
use vstd::prelude::*;

verus! {

/// Whether `u` is the table `t` after every player has been paid out at ledger `now`.
pub open spec fn paid_out_table(t: TableState, u: TableState, now: u32) -> bool {
    &&& u.players@ == all_paid_out(t.players@)
    &&& u.side_pots@.len() == 0
    &&& u == (TableState {
        players: u.players,
        side_pots: u.side_pots,
        pot: 0,
        phase: GamePhase::Settlement,
        settlement_entered_ledger: now,
        last_action_ledger: now,
        ..t
    })
}

proof fn lemma_nothing_left(players: Seq<PlayerState>)
    ensures
        sum_by(all_paid_out(players), stack_of()) == 0,
    decreases players.len(),
{
    if players.len() > 0 {
        let d = players.drop_last();
        lemma_nothing_left(d);
        assert(all_paid_out(players).drop_last() =~= all_paid_out(d));
    } else {
        assert(all_paid_out(players) =~= Seq::empty());
    }
}

/// A table that is paid out keeps its rake and its jackpot, and nothing else.
pub(super) proof fn lemma_paid_out(st: ContractView, table_id: u32, u: TableState, now: u32)
    requires
        st.wf(),
        st.tables.contains_key(table_id),
        paid_out_table(st.tables[table_id], u, now),
    ensures
        st.with_table(table_id, u).wf(),
        table_wf(u),
        u.hand().chips() == u.rake_balance + u.jackpot_balance,
{
    let t = st.tables[table_id];
    lemma_nothing_left(t.players@);
    lemma_stack_bounds(t.players@, 0);
    assert forall|i: int| 0 <= i < u.players@.len() implies {
        let p = #[trigger] u.players@[i];
        &&& 0 <= p.stack
        &&& 0 <= p.bet_this_round <= p.committed
        &&& p.seat_index == i
    } by {
        assert(t.players@[i].seat_index == i);
    }
    assert(st.funds(table_id) <= i128::MAX);
    assert(st.with_table(table_id, u).queue_of(table_id) == st.queue_of(table_id));
    lemma_with_table(st, table_id, u);
}

/// What the players of a running hand are paid out is their stacks and the pot.
pub proof fn running_hand_pays_out_exactly(t: TableState)
    requires
        table_wf(t),
        !t.phase.between_hands(),
    ensures
        refunds_fit(t.players@),
        refund_total(t.players@) == sum_by(t.players@, stack_of()) + t.pot,
        refund_total(t.players@) == t.hand().chips() - t.rake_balance - t.jackpot_balance,
{
    assert forall|i: int| 0 <= i < t.players@.len() implies 0 <= (#[trigger] t.players@[i]).stack
        && 0 <= t.players@[i].committed && t.players@[i].stack + t.players@[i].committed
        <= i128::MAX by {
        lemma_stack_bounds(t.players@, i);
    }
    lemma_refund_sum(t.players@);
}

/// What the players of a table had put into the last pot, which was paid already.
pub open spec fn paid_twice(t: TableState) -> int {
    if t.phase.between_hands() {
        committed_total(t.players@)
    } else {
        0
    }
}

/// What the players of a table are paid out is all its chips but for the rake and the jackpot,
/// and between hands what they had put into the last pot once more.
pub proof fn pay_out_is_stacks_and_pot(t: TableState)
    requires
        table_wf(t),
    ensures
        refund_total(t.players@) == t.hand().chips() - t.rake_balance - t.jackpot_balance
            + paid_twice(t),
{
    assert forall|i: int| 0 <= i < t.players@.len() implies 0 <= (#[trigger] t.players@[i]).stack
        && 0 <= t.players@[i].committed by {
        assert(t.hand().players[i].stack >= 0);
    }
    lemma_refund_sum(t.players@);
}

proof fn lemma_refund_sum(players: Seq<PlayerState>)
    requires
        forall|i: int|
            0 <= i < players.len() ==> 0 <= (#[trigger] players[i]).stack && 0
                <= players[i].committed,
    ensures
        refund_total(players) == sum_by(players, stack_of()) + committed_total(players),
    decreases players.len(),
{
    if players.len() > 0 {
        let d = players.drop_last();
        assert forall|i: int| 0 <= i < d.len() implies 0 <= (#[trigger] d[i]).stack && 0
            <= d[i].committed by {
            assert(d[i] == players[i]);
        }
        lemma_refund_sum(d);
        assert(players[players.len() - 1].stack >= 0);
    }
}

/// The ledger from which a stuck hand can be paid out: two timeouts after the last action.
pub open spec fn unlock_ledger(t: TableState) -> int {
    let wait = if t.config.timeout_ledgers * 2 > u32::MAX {
        u32::MAX as int
    } else {
        t.config.timeout_ledgers * 2
    };
    if t.last_action_ledger + wait > u32::MAX {
        u32::MAX as int
    } else {
        t.last_action_ledger + wait
    }
}

/// Why a hand cannot be paid out as stuck at ledger `now`, if it cannot.
pub open spec fn timelock_refusal(t: TableState, now: u32) -> Option<PokerTableError> {
    if t.phase.between_hands() {
        Some(PokerTableError::EmergencyWithdrawalNotApplicable)
    } else if now < unlock_ledger(t) {
        Some(PokerTableError::EmergencyTimelockActive)
    } else {
        None
    }
}

/// Refuses a table that has no hand or whose hand is not stuck yet at ledger `now`.
pub fn require_emergency_timelock(table: &TableState, now: u32) -> (r: Result<(), PokerTableError>)
    ensures
        r == (match timelock_refusal(*table, now) {
            Some(e) => Err::<(), _>(e),
            None => Ok(()),
        }),
{
    if table.phase.is_between_hands() {
        return Err(PokerTableError::EmergencyWithdrawalNotApplicable);
    }
    let wait: u32 = table.config.timeout_ledgers.saturating_add(table.config.timeout_ledgers);
    let unlock: u32 = table.last_action_ledger.saturating_add(wait);
    if now < unlock {
        return Err(PokerTableError::EmergencyTimelockActive);
    }
    Ok(())
}

impl ContractView {
    /// Who has approved paying out the hand of a table.
    pub open spec fn approvals_of(self, table_id: u32) -> Seq<Address> {
        value_or(self.approvals, table_id, Seq::empty())
    }

    /// Why an approval is refused, if it is. `at_table` says whether the player is seated, and
    /// `already` whether they have approved before.
    pub open spec fn approval_refusal(
        self,
        table_id: u32,
        at_table: bool,
        already: bool,
        now: u32,
    ) -> Option<PokerTableError> {
        if self.closed_to_play(table_id) is Some {
            self.closed_to_play(table_id)
        } else if timelock_refusal(self.tables[table_id], now) is Some {
            timelock_refusal(self.tables[table_id], now)
        } else if !at_table {
            Some(PokerTableError::PlayerNotAtTable)
        } else if already {
            Some(PokerTableError::AlreadyApprovedEmergencyWithdrawal)
        } else {
            None
        }
    }

    /// Whether one more approval makes more than half of the seated players.
    pub open spec fn approval_decides(self, table_id: u32) -> bool {
        (self.approvals_of(table_id).len() + 1) * 2 > self.tables[table_id].players@.len()
    }

    /// Whether `next` is the state after the hand of a table is paid out at ledger `now`.
    pub open spec fn paid_out(self, next: ContractView, table_id: u32, now: u32) -> bool {
        let u = next.tables[table_id];
        &&& paid_out_table(self.tables[table_id], u, now)
        &&& next == (ContractView {
            approvals: self.approvals.remove(table_id),
            ..self.with_table(table_id, u)
        })
    }

    /// Why a hand cannot be called off, if it cannot.
    pub open spec fn cancel_refusal(self, table_id: u32, caller: Address) -> Option<
        PokerTableError,
    > {
        let t = self.tables[table_id];
        if self.closed_to_play(table_id) is Some {
            self.closed_to_play(table_id)
        } else if caller != t.committee && caller != t.admin {
            Some(PokerTableError::NotAuthorizedCommittee)
        } else if !cancellable(t.phase) {
            Some(PokerTableError::InvalidAction)
        } else {
            None
        }
    }
}

/// Whether `u` is the table `t` after its hand is called off at ledger `now`.
pub open spec fn called_off(t: TableState, u: TableState, now: u32) -> bool {
    &&& u.players@ == all_paid_out(t.players@)
    &&& u.side_pots@.len() == 0
    &&& u.board_cards@.len() == 0
    &&& u.dealt_indices@.len() == 0
    &&& u.hand_commitments@.len() == 0
    &&& u == (TableState {
        players: u.players,
        side_pots: u.side_pots,
        board_cards: u.board_cards,
        dealt_indices: u.dealt_indices,
        hand_commitments: u.hand_commitments,
        pot: 0,
        phase: GamePhase::Settlement,
        settlement_entered_ledger: now,
        last_action_ledger: now,
        last_raise_size: 0,
        rit_state: None,
        ..t
    })
}

impl PokerTableContract {
    /// Approves in a player's name, at ledger `now`, that everybody is paid out of a stuck hand.
    /// Once more than half of the seated players have approved, they are. Returns whether they
    /// were, and the transfers.
    pub fn approve_emergency_withdrawal(
        &mut self,
        env: &Env,
        table_id: u32,
        player: &Address,
        now: u32,
    ) -> (r: Result<(bool, Vec<Transfer>), PokerTableError>)
        requires
            old(self)@.wf(),
        ensures
            ({
                let t = old(self)@.tables[table_id];
                let approvals = old(self)@.approvals_of(table_id);
                match old(self)@.approval_refusal(
                    table_id,
                    matches_of(t.players@, *player).contains(true),
                    digest_listed(*player, approvals),
                    now,
                ) {
                    Some(e) => r == Err::<(bool, Vec<Transfer>), _>(e) && final(self)@ == old(self)@,
                    None => if old(self)@.approval_decides(table_id) {
                        &&& r matches Ok((done, transfers)) && done && transfers@
                            == refund_transfers(t.config.token, t.players@)
                        &&& old(self)@.paid_out(final(self)@, table_id, now)
                        &&& final(self)@.funds(table_id) == old(self)@.funds(table_id)
                            - transfer_total((r->Ok_0).1@)
                    } else {
                        &&& r matches Ok((done, transfers)) && !done && transfers@.len() == 0
                        &&& final(self)@ == (ContractView {
                            approvals: old(self)@.approvals.insert(
                                table_id,
                                approvals.push(*player),
                            ),
                            ..old(self)@
                        })
                    },
                }
            }),
            final(self)@.wf(),
    {
        let at_table: bool = match self.open_to_play(table_id) {
            Ok(t) => {
                let marks = find_matches(env, &t.players, player);
                first_marked(&marks) < marks.len()
            },
            Err(e) => {
                return Err(e);
            },
        };
        let already: bool = match self.approvals.get(&table_id) {
            Some(v) => address_listed(env, player, v),
            None => false,
        };
        self.approve_emergency_withdrawal_as(table_id, player, at_table, already, now)
    }

    /// The same, where it is known whether the player is seated and has approved before.
    pub fn approve_emergency_withdrawal_as(
        &mut self,
        table_id: u32,
        player: &Address,
        at_table: bool,
        already: bool,
        now: u32,
    ) -> (r: Result<(bool, Vec<Transfer>), PokerTableError>)
        requires
            old(self)@.wf(),
        ensures
            ({
                let t = old(self)@.tables[table_id];
                let approvals = old(self)@.approvals_of(table_id);
                match old(self)@.approval_refusal(table_id, at_table, already, now) {
                    Some(e) => r == Err::<(bool, Vec<Transfer>), _>(e) && final(self)@ == old(self)@,
                    None => if old(self)@.approval_decides(table_id) {
                        &&& r matches Ok((done, transfers)) && done && transfers@
                            == refund_transfers(t.config.token, t.players@)
                        &&& old(self)@.paid_out(final(self)@, table_id, now)
                        &&& final(self)@.funds(table_id) == old(self)@.funds(table_id)
                            - transfer_total((r->Ok_0).1@)
                    } else {
                        &&& r matches Ok((done, transfers)) && !done && transfers@.len() == 0
                        &&& final(self)@ == (ContractView {
                            approvals: old(self)@.approvals.insert(
                                table_id,
                                approvals.push(*player),
                            ),
                            ..old(self)@
                        })
                    },
                }
            }),
            final(self)@.wf(),
    {
        let ghost st = self@;
        let seats: usize = match self.open_to_play(table_id) {
            Ok(t) => {
                match require_emergency_timelock(t, now) {
                    Ok(()) => {},
                    Err(e) => {
                        return Err(e);
                    },
                }
                t.players.len()
            },
            Err(e) => {
                return Err(e);
            },
        };
        if !at_table {
            return Err(PokerTableError::PlayerNotAtTable);
        }
        if already {
            return Err(PokerTableError::AlreadyApprovedEmergencyWithdrawal);
        }
        let mut approvals: Vec<Address> = match self.approvals.get(&table_id) {
            Some(v) => v.dup(),
            None => Vec::new(),
        };
        assert(approvals@ =~= st.approvals_of(table_id));
        approvals.push(*player);
        if approvals.len() > seats / 2 {
            let transfers = self.execute_emergency_withdrawal(table_id, now);
            return Ok((true, transfers));
        }
        self.approvals.insert(table_id, approvals);
        proof {
            lemma_same_funds(st, self@);
        }
        Ok((false, Vec::new()))
    }

    /// Pays everybody out of a stuck hand at ledger `now`.
    fn execute_emergency_withdrawal(&mut self, table_id: u32, now: u32) -> (r: Vec<Transfer>)
        requires
            old(self)@.wf(),
            old(self)@.tables.contains_key(table_id),
            !old(self)@.tables[table_id].phase.between_hands(),
        ensures
            ({
                let t = old(self)@.tables[table_id];
                &&& r@ == refund_transfers(t.config.token, t.players@)
                &&& old(self)@.paid_out(final(self)@, table_id, now)
                &&& final(self)@.funds(table_id) == old(self)@.funds(table_id) - transfer_total(r@)
            }),
            final(self)@.wf(),
    {
        let ghost st = self@;
        let ghost t = st.tables[table_id];
        let mut table = self.take_table(table_id);
        proof {
            running_hand_pays_out_exactly(t);
            refund_moves_its_total(t.config.token, t.players@);
        }
        let (_, transfers) = refund_table_players(&mut table, now);
        let ghost u = table;
        let _ = self.approvals.remove(&table_id);
        self.put_table(table_id, table);
        proof {
            lemma_paid_out(st, table_id, u, now);
            let m = st.with_table(table_id, u);
            assert(self@.tables =~= m.tables);
            lemma_same_funds(m, self@);
            assert(self@.queue_of(table_id) == st.queue_of(table_id));
        }
        transfers
    }

    /// Pays everybody out of a stuck hand at ledger `now`, at the administrator's word.
    pub fn admin_emergency_withdrawal(&mut self, table_id: u32, now: u32) -> (r: Result<
        Vec<Transfer>,
        PokerTableError,
    >)
        requires
            old(self)@.wf(),
        ensures
            ({
                let t = old(self)@.tables[table_id];
                if !old(self)@.tables.contains_key(table_id) {
                    r == Err::<Vec<Transfer>, _>(PokerTableError::TableNotFound) && final(self)@
                        == old(self)@
                } else {
                    match timelock_refusal(t, now) {
                        Some(e) => r == Err::<Vec<Transfer>, _>(e) && final(self)@ == old(self)@,
                        None => {
                            &&& r matches Ok(transfers) && transfers@ == refund_transfers(
                                t.config.token,
                                t.players@,
                            )
                            &&& old(self)@.paid_out(final(self)@, table_id, now)
                            &&& final(self)@.funds(table_id) == old(self)@.funds(table_id)
                                - transfer_total((r->Ok_0)@)
                        },
                    }
                }
            }),
            final(self)@.wf(),
    {
        match self.get_table(table_id) {
            Ok(t) => match require_emergency_timelock(t, now) {
                Ok(()) => {},
                Err(e) => {
                    return Err(e);
                },
            },
            Err(e) => {
                return Err(e);
            },
        }
        Ok(self.execute_emergency_withdrawal(table_id, now))
    }

    /// Calls off a hand at ledger `now` in the name of the committee or of the administrator, and
    /// pays every player out. Returns the sum and the transfers.
    pub fn cancel_hand(&mut self, table_id: u32, caller: &Address, now: u32) -> (r: Result<
        (i128, Vec<Transfer>),
        PokerTableError,
    >)
        requires
            old(self)@.wf(),
        ensures
            ({
                let t = old(self)@.tables[table_id];
                let u = final(self)@.tables[table_id];
                match old(self)@.cancel_refusal(table_id, *caller) {
                    Some(e) => r == Err::<(i128, Vec<Transfer>), _>(e) && final(self)@ == old(self)@,
                    None => {
                        &&& r matches Ok((sum, transfers)) && sum == refund_total(t.players@)
                            && transfers@ == refund_transfers(t.config.token, t.players@)
                        &&& called_off(t, u, now)
                        &&& final(self)@ == old(self)@.with_table(table_id, u)
                        &&& final(self)@.funds(table_id) == old(self)@.funds(table_id)
                            - transfer_total((r->Ok_0).1@)
                    },
                }
            }),
            final(self)@.wf(),
    {
        let ghost st = self@;
        match self.open_to_play(table_id) {
            Ok(t) => {
                if *caller != t.committee && *caller != t.admin {
                    return Err(PokerTableError::NotAuthorizedCommittee);
                }
            },
            Err(e) => {
                return Err(e);
            },
        }
        let ghost t = st.tables[table_id];
        let mut table = self.take_table(table_id);
        proof {
            if cancellable(t.phase) {
                running_hand_pays_out_exactly(t);
                refund_moves_its_total(t.config.token, t.players@);
            }
        }
        let result = cancel_hand(&mut table, now);
        let ghost u = table;
        self.put_table(table_id, table);
        proof {
            assert(self@.tables =~= st.tables.insert(table_id, u));
            if result is Err {
                assert(self@ =~= st);
            } else {
                let v = TableState {
                    board_cards: t.board_cards,
                    dealt_indices: t.dealt_indices,
                    hand_commitments: t.hand_commitments,
                    last_raise_size: t.last_raise_size,
                    rit_state: t.rit_state,
                    ..u
                };
                lemma_paid_out(st, table_id, v, now);
                assert(u.hand() =~= (Hand { last_raise_size: 0, ..v.hand() }));
                assert(u.hand().chips() == v.hand().chips());
                assert(u.hand().wf());
                assert(table_wf(u));
                lemma_stack_bounds(t.players@, 0);
                assert(st.funds(table_id) <= i128::MAX);
                assert(st.with_table(table_id, u).queue_of(table_id) == st.queue_of(table_id));
                lemma_with_table(st, table_id, u);
                assert(self@ =~= st.with_table(table_id, u));
            }
        }
        result
    }
}

/// A stuck hand is paid out only to the word of more than half of the players, and never within
/// two timeouts of the last action.
pub proof fn withdrawal_needs_majority_and_time(
    st: ContractView,
    table_id: u32,
    at_table: bool,
    already: bool,
    now: u32,
)
    requires
        st.approval_refusal(table_id, at_table, already, now) is None,
    ensures
        st.approval_decides(table_id) <==> (st.approvals_of(table_id).len() + 1) * 2
            > st.tables[table_id].players@.len(),
        st.tables[table_id].last_action_ledger + 2 * st.tables[table_id].config.timeout_ledgers
            <= u32::MAX ==> now >= st.tables[table_id].last_action_ledger + 2
            * st.tables[table_id].config.timeout_ledgers,
        at_table && !already,
{
}

/// A running hand can be abandoned once twice the timeout has passed since the last action, with the
/// approval of more than half of those at the table, each of whom counts once. At the open table
/// every request of that kind is taken.
pub proof fn stalled_hands_can_be_abandoned(
    st: ContractView,
    table_id: u32,
    at_table: bool,
    already: bool,
    now: u32,
)
    requires
        st.tables.contains_key(table_id),
        st.tables[table_id].last_action_ledger + 2 * st.tables[table_id].config.timeout_ledgers
            <= u32::MAX,
    ensures
        ({
            let t = st.tables[table_id];
            &&& st.approval_refusal(table_id, at_table, already, now) is None <==> {
                &&& !(st.paused.contains_key(table_id) && st.paused[table_id])
                &&& !(t.phase is Waiting || t.phase is Settlement)
                &&& now >= t.last_action_ledger + 2 * t.config.timeout_ledgers
                &&& at_table && !already
            }
            &&& st.approval_decides(table_id) <==> 2 * (st.approvals_of(table_id).len() + 1)
                > t.players@.len()
            &&& timelock_refusal(t, now) is None <==> !(t.phase is Waiting
                || t.phase is Settlement) && now >= t.last_action_ledger + 2
                * t.config.timeout_ledgers
        }),
{
}

/// After everyone is paid out nobody has chips at the table and nothing is in the pot; what the table
/// has taken stays, and the approvals are forgotten.
pub proof fn paid_out_tables_are_empty(
    st: ContractView,
    next: ContractView,
    table_id: u32,
    now: u32,
    i: int,
)
    requires
        st.tables.contains_key(table_id),
        st.paid_out(next, table_id, now),
        0 <= i < st.tables[table_id].players@.len(),
    ensures
        ({
            let t = st.tables[table_id];
            let u = next.tables[table_id];
            &&& u.players@.len() == t.players@.len()
            &&& u.players@[i].stack == 0 && u.players@[i].committed == 0 && u.players@[i].address
                == t.players@[i].address
            &&& u.pot == 0 && u.phase is Settlement
            &&& u.rake_balance == t.rake_balance && u.jackpot_balance == t.jackpot_balance
            &&& u.settlement_entered_ledger == now
            &&& next.approvals_of(table_id).len() == 0
        }),
{
}

/// The committee and the administrator alone call a running hand off, at an open table.
pub proof fn hands_are_called_off_by_the_entitled(
    st: ContractView,
    table_id: u32,
    caller: Address,
)
    ensures
        st.cancel_refusal(table_id, caller) is None <==> {
            let t = st.tables[table_id];
            &&& !(st.paused.contains_key(table_id) && st.paused[table_id])
            &&& st.tables.contains_key(table_id)
            &&& caller == t.committee || caller == t.admin
            &&& !(t.phase is Waiting || t.phase is WaitingForPlayers || t.phase is Settlement)
        },
{
}

/// A hand that is called off leaves the table settled and empty of cards and chips; what the table has
/// taken stays.
pub proof fn called_off_tables_are_empty(t: TableState, u: TableState, now: u32, i: int)
    requires
        called_off(t, u, now),
        0 <= i < t.players@.len(),
    ensures
        u.players@.len() == t.players@.len(),
        u.players@[i].stack == 0 && u.players@[i].committed == 0 && u.players@[i].address
            == t.players@[i].address,
        u.pot == 0 && u.phase is Settlement && u.settlement_entered_ledger == now,
        u.board_cards@.len() == 0 && u.dealt_indices@.len() == 0 && u.hand_commitments@.len() == 0,
        u.rit_state is None,
        u.rake_balance == t.rake_balance && u.jackpot_balance == t.jackpot_balance,
        u.hand_number == t.hand_number,
{
}

/// An approval that cannot be taken is refused for a reason.
pub proof fn approvals_are_refused_for_a_reason(
    st: ContractView,
    table_id: u32,
    at_table: bool,
    already: bool,
    now: u32,
)
    ensures
        ({
            let r = st.approval_refusal(table_id, at_table, already, now);
            let t = st.tables[table_id];
            &&& r == Some(PokerTableError::ContractPaused)
                ==> st.paused.contains_key(table_id) && st.paused[table_id]
            &&& r == Some(PokerTableError::TableNotFound) ==> !st.tables.contains_key(table_id)
            &&& r == Some(PokerTableError::EmergencyWithdrawalNotApplicable)
                ==> t.phase is Waiting || t.phase is Settlement
            &&& r == Some(PokerTableError::EmergencyTimelockActive)
                ==> now < t.last_action_ledger + 2 * t.config.timeout_ledgers
            &&& r == Some(PokerTableError::PlayerNotAtTable) ==> !at_table
            &&& r == Some(PokerTableError::AlreadyApprovedEmergencyWithdrawal) ==> already
        }),
{
}

} // verus!
