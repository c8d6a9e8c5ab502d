//! What happens when a player or the committee stalls.

use crate::host::Address;
use crate::poker_table::game::{
    active_player_count, can_act, count_active, first_active, first_active_seat, fold_and_advance,
    last_player_standing_takes_the_pot,
    lemma_one_left, lemma_stack_bounds, lemma_stack_update, pot_goes_to, settlement_fits,
    stack_of, stalling_player_is_folded, win_of, FoldWin, Hand,
};
use crate::poker_table::time_bank::{
    find_seat_number, seat_by_digest, should_enforce_timeout, TimeBanks,
};
use crate::poker_table::types::{GamePhase, PlayerState, PokerTableError, TableState, turns_fit};
use crate::seqs::sum_by;
use soroban_sdk::Env;
use vstd::prelude::*;

verus! {

/// What a timeout has done.
#[derive(Clone, Copy, Debug, PartialEq, Eq, Structural)]
pub enum TimeoutOutcome {
    /// The player whose turn it was cannot act anyway.
    Nothing,
    /// The stalling player was folded and the turn passed on.
    Folded,
    /// The stalling player was folded, and the last player standing won.
    FoldWon(FoldWin),
    /// The board is dealt once.
    RunItTwiceDeclined,
    /// The pot was shared out because the committee stalled.
    Refunded,
}

/// The phase that deals the next cards of a board of `n` cards.
pub open spec fn dealing_phase(n: int) -> GamePhase {
    if n == 0 {
        GamePhase::DealingFlop
    } else if n == 3 {
        GamePhase::DealingTurn
    } else if n == 4 {
        GamePhase::DealingRiver
    } else {
        GamePhase::Showdown
    }
}

/// The phase that deals the next cards of a board of `n` cards.
pub fn next_dealing_phase(n: usize) -> (r: GamePhase)
    ensures
        r == dealing_phase(n as int),
{
    if n == 0 {
        GamePhase::DealingFlop
    } else if n == 3 {
        GamePhase::DealingTurn
    } else if n == 4 {
        GamePhase::DealingRiver
    } else {
        GamePhase::Showdown
    }
}

/// The players after each who has not folded is given `share`.
pub open spec fn shared_out(players: Seq<PlayerState>, share: int) -> Seq<PlayerState> {
    Seq::new(
        players.len(),
        |i: int|
            if players[i].folded {
                players[i]
            } else {
                PlayerState { stack: (players[i].stack + share) as i128, ..players[i] }
            },
    )
}

impl Hand {
    /// The hand after the pot is shared out evenly among the players who have not folded. What
    /// does not divide goes to the first of them.
    pub open spec fn refunded(self, now: u32) -> Hand {
        let n = count_active(self.players) as int;
        if n == 0 {
            self
        } else {
            let share = self.pot / n;
            let rest = self.pot - share * n;
            let players = shared_out(self.players, share);
            let first = first_active(self.players);
            Hand {
                players: players.update(
                    first,
                    PlayerState { stack: (players[first].stack + rest) as i128, ..players[first] },
                ),
                pot: 0,
                phase: GamePhase::Settlement,
                settlement_entered_ledger: now,
                ..self
            }
        }
    }

    /// Whether the time to act is over. Where there is a deadline it must have passed, and a
    /// player must have no reserve left; where there is none, the timeout must have passed since
    /// the last action.
    pub open spec fn time_is_up(self, timeout_ledgers: u32, rescue: bool, now: u32) -> bool {
        if self.action_deadline == 0 {
            now >= self.last_action_ledger + timeout_ledgers
        } else {
            now >= self.action_deadline && !(self.phase.betting() && rescue)
        }
    }

    /// The hand after a timeout, or why there is none. `board` is the number of board cards, and
    /// `rescue` says whether the player whose turn it is has a reserve of time left.
    pub open spec fn timed_out(
        self,
        board: int,
        rake_bps: u32,
        share_bps: u32,
        timeout_ledgers: u32,
        rescue: bool,
        now: u32,
    ) -> Result<Hand, PokerTableError> {
        if !self.time_is_up(timeout_ledgers, rescue, now) {
            Err(PokerTableError::TimeoutNotReached)
        } else {
            match self.phase {
                GamePhase::Preflop | GamePhase::Flop | GamePhase::Turn | GamePhase::River => {
                    if self.current_turn >= self.players.len() {
                        Err(PokerTableError::InvalidPlayerIndex)
                    } else if can_act(self.players[self.current_turn as int]) {
                        Ok(self.after_fold(self.current_turn as int, rake_bps, share_bps, now))
                    } else {
                        Ok(self)
                    }
                },
                GamePhase::AwaitingRunItTwice => Ok(
                    Hand {
                        phase: dealing_phase(board),
                        last_action_ledger: now,
                        action_deadline: 0,
                        ..self
                    },
                ),
                GamePhase::Dealing
                | GamePhase::DealingFlop
                | GamePhase::DealingTurn
                | GamePhase::DealingRiver
                | GamePhase::Showdown => Ok(
                    Hand {
                        phase: GamePhase::Dispute,
                        last_action_ledger: now,
                        ..self
                    }.refunded(now),
                ),
                _ => Err(PokerTableError::TimeoutNotApplicable),
            }
        }
    }

    /// Why a player cannot be folded by force, if they cannot. `caller_seat` is the seat number
    /// of the caller.
    pub open spec fn force_fold_refusal(self, caller_seat: Option<u32>, target_seat: u32, now: u32) -> Option<
        PokerTableError,
    > {
        if !self.phase.betting() {
            Some(PokerTableError::ForceFoldNotAvailable)
        } else if self.action_deadline == 0 || now < self.action_deadline {
            Some(PokerTableError::TimeoutNotReached)
        } else if target_seat != self.current_turn {
            Some(PokerTableError::TargetNotActive)
        } else if caller_seat is None {
            Some(PokerTableError::PlayerNotAtTable)
        } else if caller_seat->0 == target_seat {
            Some(PokerTableError::NotYourTurn)
        } else if target_seat >= self.players.len() {
            Some(PokerTableError::InvalidPlayerIndex)
        } else if !can_act(self.players[target_seat as int]) {
            Some(PokerTableError::TargetNotActive)
        } else {
            None
        }
    }

    /// The hand after a forced fold: the next player gets a new deadline.
    pub open spec fn force_folded(
        self,
        seat: int,
        rake_bps: u32,
        share_bps: u32,
        timeout_ledgers: u32,
        now: u32,
    ) -> Hand {
        let h = self.after_fold(seat, rake_bps, share_bps, now);
        if count_active(self.folded_at(seat).players) == 1 {
            h
        } else {
            Hand { action_deadline: (now + timeout_ledgers) as u32, ..h }
        }
    }
}

/// What a timeout comes to.
pub open spec fn outcome_of(h: Hand, rake_bps: u32) -> TimeoutOutcome {
    let seat = h.current_turn as int;
    if h.phase.betting() {
        if !can_act(h.players[seat]) {
            TimeoutOutcome::Nothing
        } else {
            match win_of(h.folded_at(seat), rake_bps) {
                Some(w) => TimeoutOutcome::FoldWon(w),
                None => TimeoutOutcome::Folded,
            }
        }
    } else if h.phase is AwaitingRunItTwice {
        TimeoutOutcome::RunItTwiceDeclined
    } else {
        TimeoutOutcome::Refunded
    }
}

/// Giving each active player a share adds it to the sum of stacks once for each.
proof fn lemma_shared_out(players: Seq<PlayerState>, share: int)
    requires
        share >= 0,
        forall|i: int|
            0 <= i < players.len() ==> (#[trigger] players[i]).stack >= 0 && players[i].stack
                + share <= i128::MAX,
    ensures
        sum_by(shared_out(players, share), stack_of()) == sum_by(players, stack_of()) + share
            * count_active(players),
    decreases players.len(),
{
    if players.len() > 0 {
        let d = players.drop_last();
        assert forall|i: int| 0 <= i < d.len() implies (#[trigger] d[i]).stack >= 0 && d[i].stack
            + share <= i128::MAX by {
            assert(d[i] == players[i]);
        }
        lemma_shared_out(d, share);
        assert(shared_out(players, share).drop_last() =~= shared_out(d, share));
        let n = count_active(d) as int;
        assert(players[players.len() - 1] == players.last());
        assert(share * (n + 1) == share * n + share) by (nonlinear_arith);
    } else {
        assert(share * 0 == 0);
        assert(shared_out(players, share) =~= players);
    }
}

/// Sharing out the pot conserves all chips.
pub proof fn refund_conserves_chips(h: Hand, now: u32)
    requires
        h.wf(),
    ensures
        h.refunded(now).chips() == h.chips(),
        h.refunded(now).wf(),
{
    let n = count_active(h.players) as int;
    if n > 0 {
        let share = h.pot / n;
        let rest = h.pot - share * n;
        assert(0 <= share <= h.pot && 0 <= share * n <= h.pot && 0 <= rest) by (nonlinear_arith)
            requires
                n > 0,
                h.pot >= 0,
                share == h.pot / n,
                rest == h.pot - share * n,
        ;
        let shared = shared_out(h.players, share);
        assert forall|i: int| 0 <= i < h.players.len() implies (#[trigger] h.players[i]).stack >= 0
            && h.players[i].stack + share <= i128::MAX by {
            lemma_stack_bounds(h.players, i);
        }
        lemma_shared_out(h.players, share);
        lemma_first_is_active(h.players);
        let first = first_active(h.players);
        lemma_stack_bounds(shared, first);
        let last = PlayerState { stack: (shared[first].stack + rest) as i128, ..shared[first] };
        lemma_stack_update(shared, first, last);
        assert(share * count_active(h.players) == share * n);
        let r = h.refunded(now);
        assert forall|i: int| 0 <= i < r.players.len() implies {
            let p = #[trigger] r.players[i];
            &&& 0 <= p.stack
            &&& 0 <= p.bet_this_round <= p.committed
            &&& !r.phase.between_hands() ==> p.committed <= r.pot
        } by {
            let p0 = h.players[i];
            assert(shared[i].committed == p0.committed);
        }
    }
}

proof fn lemma_first_is_active(players: Seq<PlayerState>)
    ensures
        count_active(players) > 0 ==> 0 <= first_active(players) < players.len()
            && !players[first_active(players)].folded,
        0 <= first_active(players) <= players.len(),
        count_active(players) > 0 <==> first_active(players) < players.len(),
    decreases players.len(),
{
    if players.len() > 0 {
        let d = players.drop_last();
        lemma_first_is_active(d);
        if first_active(d) < d.len() {
            assert(d[first_active(d)] == players[first_active(d)]);
        }
    }
}

/// Shares the pot out among the players who have not folded.
#[verifier::rlimit(40)]
fn emergency_refund(table: &mut TableState, now: u32)
    requires
        old(table).hand().wf(),
    ensures
        final(table).hand() == old(table).hand().refunded(now),
        old(table).same_but_hand(*final(table)),
{
    let ghost h = table.hand();
    let ghost ps = table.players@;
    let active: u32 = active_player_count(table);
    if active == 0 {
        return;
    }
    let n: i128 = active as i128;
    let pot: i128 = table.pot;
    let share: i128 = pot / n;
    proof {
        assert(0 <= share <= pot && 0 <= share * n <= pot) by (nonlinear_arith)
            requires
                n > 0,
                pot >= 0,
                share == pot / n,
        ;
    }
    let mut distributed: i128 = 0;
    let mut i: usize = 0;
    assert(ps.take(0) =~= Seq::empty());
    assert(share * 0 == 0);
    assert(table.players@ =~= shared_out(ps, share as int).take(0) + ps.skip(0));
    while i < table.players.len()
        invariant
            h.wf(),
            h == old(table).hand(),
            ps == h.players,
            pot == h.pot,
            table.players@.len() == ps.len(),
            i <= ps.len(),
            n == count_active(ps),
            0 <= share <= pot,
            0 <= share * n <= pot,
            distributed == share * count_active(ps.take(i as int)),
            count_active(ps.take(i as int)) <= n,
            table.players@ == shared_out(ps, share as int).take(i as int) + ps.skip(i as int),
            old(table).same_but_hand(*table),
            table.hand() == (Hand { players: table.players@, ..h }),
        decreases ps.len() - i,
    {
        let p = table.players[i];
        proof {
            assert(p == ps[i as int]);
            assert(ps.take(i + 1).drop_last() =~= ps.take(i as int));
            lemma_stack_bounds(ps, i as int);
            lemma_count_prefix(ps, i + 1);
            let c = count_active(ps.take(i as int)) as int;
            assert(share * (c + 1) == share * c + share) by (nonlinear_arith);
            let c1 = count_active(ps.take(i + 1)) as int;
            assert(share * c1 <= share * n) by (nonlinear_arith)
                requires
                    share >= 0,
                    c1 <= n,
            ;
        }
        if !p.folded {
            let paid = PlayerState {
                address: p.address,
                stack: p.stack + share,
                bet_this_round: p.bet_this_round,
                committed: p.committed,
                folded: p.folded,
                all_in: p.all_in,
                sitting_out: p.sitting_out,
                seat_index: p.seat_index,
                total_buy_in: p.total_buy_in,
                rebuy_count: p.rebuy_count,
            };
            table.players.set(i, paid);
            distributed = distributed + share;
        }
        assert(table.players@ =~= shared_out(ps, share as int).take(i + 1) + ps.skip(i + 1));
        i += 1;
    }
    proof {
        assert(ps.take(i as int) =~= ps);
        assert(table.players@ =~= shared_out(ps, share as int));
        lemma_first_is_active(ps);
    }
    let remainder: i128 = pot - distributed;
    let ghost shared = shared_out(ps, share as int);
    let first: usize = first_active_seat(table);
    proof {
        lemma_same_folds(ps, shared);
        lemma_shared_out_bounds(h, share as int);
    }
    let p = table.players[first];
    let paid = PlayerState {
        address: p.address,
        stack: p.stack + remainder,
        bet_this_round: p.bet_this_round,
        committed: p.committed,
        folded: p.folded,
        all_in: p.all_in,
        sitting_out: p.sitting_out,
        seat_index: p.seat_index,
        total_buy_in: p.total_buy_in,
        rebuy_count: p.rebuy_count,
    };
    table.players.set(first, paid);
    table.pot = 0;
    table.phase = GamePhase::Settlement;
    table.settlement_entered_ledger = now;
    assert(table.hand() =~= h.refunded(now));
}

proof fn lemma_count_prefix(ps: Seq<PlayerState>, i: int)
    requires
        0 <= i <= ps.len(),
    ensures
        count_active(ps.take(i)) <= count_active(ps),
    decreases ps.len(),
{
    if i == ps.len() {
        assert(ps.take(i) =~= ps);
    } else {
        assert(ps.drop_last().take(i) =~= ps.take(i));
        lemma_count_prefix(ps.drop_last(), i);
    }
}

proof fn lemma_same_folds(a: Seq<PlayerState>, b: Seq<PlayerState>)
    requires
        a.len() == b.len(),
        forall|i: int| 0 <= i < a.len() ==> (#[trigger] a[i]).folded == b[i].folded,
    ensures
        first_active(a) == first_active(b),
        count_active(a) == count_active(b),
    decreases a.len(),
{
    if a.len() > 0 {
        let d = a.drop_last();
        let e = b.drop_last();
        assert forall|i: int| 0 <= i < d.len() implies (#[trigger] d[i]).folded == e[i].folded by {
            assert(d[i] == a[i] && e[i] == b[i]);
        }
        lemma_same_folds(d, e);
        assert(a[a.len() - 1].folded == b[b.len() - 1].folded);
    }
}

/// A share and what does not divide fit on any stack.
proof fn lemma_shared_out_bounds(h: Hand, share: int)
    requires
        h.wf(),
        count_active(h.players) > 0,
        share == h.pot / (count_active(h.players) as int),
    ensures
        ({
            let n = count_active(h.players) as int;
            let s = shared_out(h.players, share);
            let first = first_active(h.players);
            &&& 0 <= first < s.len()
            &&& 0 <= h.pot - share * n
            &&& s[first].stack + (h.pot - share * n) <= i128::MAX
            &&& s[first].stack >= 0
        }),
{
    let n = count_active(h.players) as int;
    let first = first_active(h.players);
    lemma_first_is_active(h.players);
    lemma_stack_bounds(h.players, first);
    assert(0 <= share && 0 <= h.pot - share * n && share + (h.pot - share * n) <= h.pot)
        by (nonlinear_arith)
        requires
            n > 0,
            h.pot >= 0,
            share == h.pot / n,
    ;
}

/// Acts on a timeout at ledger `now`. A stalling player is folded, a pending choice falls back to
/// one board, and a stalling committee has the pot shared out.
pub fn process_timeout(table: &mut TableState, banks: &TimeBanks, now: u32) -> (r: Result<
    TimeoutOutcome,
    PokerTableError,
>)
    requires
        old(table).hand().wf(),
        outcome_of(old(table).hand(), old(table).config.rake_bps) is FoldWon ==> settlement_fits(
            *old(table),
        ),
    ensures
        match old(table).hand().timed_out(
            old(table).board_cards@.len() as int,
            old(table).config.rake_bps,
            old(table).config.jackpot_rake_share_bps,
            old(table).config.timeout_ledgers,
            banks@.rescue_left(*old(table), now),
            now,
        ) {
            Err(e) => r == Err::<TimeoutOutcome, _>(e) && *final(table) == *old(table),
            Ok(h) => {
                &&& r == Ok::<_, PokerTableError>(
                    outcome_of(old(table).hand(), old(table).config.rake_bps),
                )
                &&& final(table).hand() == h
                &&& old(table).same_but_hand(*final(table))
            },
        },
        final(table).hand().chips() == old(table).hand().chips(),
        final(table).hand().wf(),
{
    let ghost h = table.hand();
    if table.action_deadline == 0 {
        if (now as u64) < table.last_action_ledger as u64 + table.config.timeout_ledgers as u64 {
            return Err(PokerTableError::TimeoutNotReached);
        }
    } else if table.phase.is_betting() {
        if !should_enforce_timeout(banks, table, now) {
            return Err(PokerTableError::TimeoutNotReached);
        }
    } else if now < table.action_deadline {
        return Err(PokerTableError::TimeoutNotReached);
    }
    match table.phase {
        GamePhase::Preflop | GamePhase::Flop | GamePhase::Turn | GamePhase::River => {
            let seat: usize = table.current_turn as usize;
            if seat >= table.players.len() {
                return Err(PokerTableError::InvalidPlayerIndex);
            }
            let p = table.players[seat];
            if !p.folded && !p.all_in {
                match fold_and_advance(table, seat, now) {
                    Some(w) => Ok(TimeoutOutcome::FoldWon(w)),
                    None => Ok(TimeoutOutcome::Folded),
                }
            } else {
                Ok(TimeoutOutcome::Nothing)
            }
        },
        GamePhase::AwaitingRunItTwice => {
            table.phase = next_dealing_phase(table.board_cards.len());
            table.last_action_ledger = now;
            table.action_deadline = 0;
            Ok(TimeoutOutcome::RunItTwiceDeclined)
        },
        GamePhase::Dealing
        | GamePhase::DealingFlop
        | GamePhase::DealingTurn
        | GamePhase::DealingRiver
        | GamePhase::Showdown => {
            table.phase = GamePhase::Dispute;
            table.last_action_ledger = now;
            let ghost d = table.hand();
            assert(d.wf());
            proof {
                refund_conserves_chips(d, now);
            }
            emergency_refund(table, now);
            Ok(TimeoutOutcome::Refunded)
        },
        _ => Err(PokerTableError::TimeoutNotApplicable),
    }
}

/// Folds the stalling player at `target_seat` at the request of another seated player, at ledger
/// `now`.
pub fn force_fold(env: &Env, table: &mut TableState, caller: &Address, target_seat: u32, now: u32) -> (r:
    Result<Option<FoldWin>, PokerTableError>)
    requires
        old(table).hand().wf(),
        win_of(
            old(table).hand().folded_at(target_seat as int),
            old(table).config.rake_bps,
        ) is Some ==> settlement_fits(*old(table)),
        turns_fit(old(table).config, now),
    ensures
        ({
            let seat = seat_by_digest(old(table).players@, *caller);
            match old(table).hand().force_fold_refusal(seat, target_seat, now) {
                Some(e) => r == Err::<Option<FoldWin>, _>(e) && *final(table) == *old(table),
                None => {
                    &&& r == Ok::<_, PokerTableError>(
                        win_of(
                            old(table).hand().folded_at(target_seat as int),
                            old(table).config.rake_bps,
                        ),
                    )
                    &&& final(table).hand() == old(table).hand().force_folded(
                        target_seat as int,
                        old(table).config.rake_bps,
                        old(table).config.jackpot_rake_share_bps,
                        old(table).config.turn_ledgers(old(table).phase),
                        now,
                    )
                    &&& old(table).same_but_hand(*final(table))
                },
            }
        }),
        final(table).hand().chips() == old(table).hand().chips(),
        final(table).hand().wf(),
{
    let seat = find_seat_number(env, table, caller);
    force_fold_at(table, seat, target_seat, now)
}

/// The same, for a caller whose seat number is known.
pub fn force_fold_at(
    table: &mut TableState,
    caller_seat: Option<u32>,
    target_seat: u32,
    now: u32,
) -> (r: Result<Option<FoldWin>, PokerTableError>)
    requires
        old(table).hand().wf(),
        win_of(
            old(table).hand().folded_at(target_seat as int),
            old(table).config.rake_bps,
        ) is Some ==> settlement_fits(*old(table)),
        turns_fit(old(table).config, now),
    ensures
        match old(table).hand().force_fold_refusal(caller_seat, target_seat, now) {
            Some(e) => r == Err::<Option<FoldWin>, _>(e) && *final(table) == *old(table),
            None => {
                &&& r == Ok::<_, PokerTableError>(
                    win_of(
                        old(table).hand().folded_at(target_seat as int),
                        old(table).config.rake_bps,
                    ),
                )
                &&& final(table).hand() == old(table).hand().force_folded(
                    target_seat as int,
                    old(table).config.rake_bps,
                    old(table).config.jackpot_rake_share_bps,
                    old(table).config.turn_ledgers(old(table).phase),
                    now,
                )
                &&& old(table).same_but_hand(*final(table))
            },
        },
        final(table).hand().chips() == old(table).hand().chips(),
        final(table).hand().wf(),
{
    if !table.phase.is_betting() {
        return Err(PokerTableError::ForceFoldNotAvailable);
    }
    if table.action_deadline == 0 || now < table.action_deadline {
        return Err(PokerTableError::TimeoutNotReached);
    }
    if target_seat != table.current_turn {
        return Err(PokerTableError::TargetNotActive);
    }
    match caller_seat {
        None => {
            return Err(PokerTableError::PlayerNotAtTable);
        },
        Some(s) => {
            if s == target_seat {
                return Err(PokerTableError::NotYourTurn);
            }
        },
    }
    let seat: usize = target_seat as usize;
    if seat >= table.players.len() {
        return Err(PokerTableError::InvalidPlayerIndex);
    }
    let target = table.players[seat];
    if target.folded || target.all_in {
        return Err(PokerTableError::TargetNotActive);
    }
    let won = fold_and_advance(table, seat, now);
    if won.is_none() {
        table.action_deadline = now + table.config.turn_time(&table.phase);
    }
    Ok(won)
}

/// Whether the committee is to act in this phase.
pub open spec fn committee_acts(phase: GamePhase) -> bool {
    phase is Dealing || phase is DealingFlop || phase is DealingTurn || phase is DealingRiver
        || phase is Showdown
}

/// A committee that has let the timeout pass since the last action can be timed out, deadline or
/// no deadline: the pot goes back to the players, and no chip is lost.
pub proof fn stalled_committee_is_timed_out(
    h: Hand,
    board: int,
    rake_bps: u32,
    share_bps: u32,
    timeout_ledgers: u32,
    rescue: bool,
    now: u32,
)
    requires
        h.wf(),
        committee_acts(h.phase),
        count_active(h.players) > 0,
        h.action_deadline == 0 ==> now >= h.last_action_ledger + timeout_ledgers,
        h.action_deadline != 0 ==> now >= h.action_deadline,
    ensures
        h.timed_out(board, rake_bps, share_bps, timeout_ledgers, rescue, now) matches Ok(n) && {
            &&& n.phase is Settlement
            &&& n.pot == 0
            &&& sum_by(n.players, stack_of()) == sum_by(h.players, stack_of()) + h.pot
            &&& n.chips() == h.chips()
        },
{
    let d = Hand { phase: GamePhase::Dispute, last_action_ledger: now, ..h };
    assert(d.chips() == h.chips());
    assert(d.wf());
    refund_conserves_chips(d, now);
}

/// A player with a reserve of time left is not folded for a deadline that has passed.
pub proof fn reserve_puts_the_timeout_off(
    h: Hand,
    board: int,
    rake_bps: u32,
    share_bps: u32,
    timeout_ledgers: u32,
    now: u32,
)
    requires
        h.phase.betting(),
        h.action_deadline != 0,
    ensures
        h.timed_out(board, rake_bps, share_bps, timeout_ledgers, true, now) == Err::<Hand, _>(
            PokerTableError::TimeoutNotReached,
        ),
{
}

/// A refund shares the pot among the players who have not folded: each two of them get the same up
/// to the chips that cannot be shared, which are fewer than they are and go to the first of them.
/// Players who have folded get nothing, and no rake is taken.
pub proof fn refunds_are_even(h: Hand, now: u32, a: int, b: int)
    requires
        h.wf(),
        0 <= a < h.players.len(),
        0 <= b < h.players.len(),
        !h.players[a].folded,
    ensures
        ({
            let n = h.refunded(now);
            let left = count_active(h.players) as int;
            let gain_a = n.players[a].stack - h.players[a].stack;
            let gain_b = n.players[b].stack - h.players[b].stack;
            &&& n.players.len() == h.players.len()
            &&& gain_a >= 0
            &&& h.players[b].folded ==> gain_b == 0
            &&& !h.players[b].folded ==> -left < gain_a - gain_b < left
            &&& !h.players[b].folded && a < b ==> gain_a >= gain_b
            &&& left * gain_b <= h.pot || b == first_active(h.players)
            &&& n.pot == 0 && n.phase is Settlement && n.settlement_entered_ledger == now
            &&& n.rake_balance == h.rake_balance && n.jackpot_balance == h.jackpot_balance
        }),
{
    let left = count_active(h.players) as int;
    lemma_one_left(h.players, a);
    refund_conserves_chips(h, now);
    let (share, rest) = (h.pot / left, h.pot - h.pot / left * left);
    assert(0 <= share && 0 <= rest < left && share * left + rest == h.pot && left * share <= h.pot
        && share + rest <= h.pot) by (nonlinear_arith)
        requires
            left > 0,
            h.pot >= 0,
            share == h.pot / left,
            rest == h.pot - h.pot / left * left,
    ;
    let first = first_active(h.players);
    lemma_first_unfolded(h.players);
    lemma_stack_bounds(h.players, a);
    lemma_stack_bounds(h.players, b);
    lemma_stack_bounds(h.players, first);
    assert(left * 0 == 0) by (nonlinear_arith);
}

/// A hand times out at its deadline, or without one when the timeout has passed since the last
/// action; not sooner. Time bank that is left puts it off while players bet.
pub proof fn time_runs_out_at_the_deadline(
    h: Hand,
    timeout_ledgers: u32,
    rescue: bool,
    now: u32,
    later: u32,
)
    requires
        now <= later,
    ensures
        h.action_deadline == 0 ==> (h.time_is_up(timeout_ledgers, rescue, now) <==> now
            >= h.last_action_ledger + timeout_ledgers),
        h.action_deadline != 0 && !rescue ==> (h.time_is_up(timeout_ledgers, rescue, now) <==> now
            >= h.action_deadline),
        h.action_deadline != 0 && rescue ==> (h.time_is_up(timeout_ledgers, rescue, now) <==> now
            >= h.action_deadline && !h.phase.betting()),
        h.time_is_up(timeout_ledgers, rescue, now) ==> h.time_is_up(timeout_ledgers, rescue, later),
{
}

/// What a timeout does. While players bet it folds the player in turn: where one other player `w` is
/// left the pot goes to them, otherwise no chips move. A choice that is not made is taken as
/// declined, and play goes on with one board.
pub proof fn timeout_folds_the_player_in_turn(
    h: Hand,
    board: int,
    rake_bps: u32,
    share_bps: u32,
    timeout_ledgers: u32,
    rescue: bool,
    now: u32,
    w: int,
)
    requires
        h.wf(),
        rake_bps <= 10_000,
        h.time_is_up(timeout_ledgers, rescue, now),
        h.current_turn < h.players.len(),
        0 <= w < h.players.len(),
        w != h.current_turn,
        !h.players[w].folded,
    ensures
        ({
            let seat = h.current_turn as int;
            let r = h.timed_out(board, rake_bps, share_bps, timeout_ledgers, rescue, now);
            let active = !h.players[seat].folded && !h.players[seat].all_in;
            let alone = forall|i: int|
                0 <= i < h.players.len() && i != w && i != seat ==> (
                #[trigger] h.players[i]).folded;
            &&& h.phase.betting() && active ==> {
                &&& r matches Ok(n)
                &&& n.players[seat].folded
                &&& alone ==> pot_goes_to(h, n, w, rake_bps, share_bps, now)
                &&& !alone ==> n.pot == h.pot && n.phase == h.phase && n.players[w].stack
                    == h.players[w].stack && !n.players[w].folded
            }
            &&& h.phase.betting() && !active ==> r == Ok::<Hand, PokerTableError>(h)
            &&& h.phase is AwaitingRunItTwice ==> {
                &&& r matches Ok(n)
                &&& n.players == h.players && n.pot == h.pot
                &&& board == 0 ==> n.phase is DealingFlop
                &&& board == 3 ==> n.phase is DealingTurn
                &&& board == 4 ==> n.phase is DealingRiver
            }
            &&& h.phase is Waiting || h.phase is Settlement ==> r is Err
        }),
{
    let seat = h.current_turn as int;
    stalling_player_is_folded(h, seat, w, rake_bps, share_bps, now);
}

/// A player at the table may fold the player in turn once their deadline has passed, while players
/// bet, and not themselves; and every such request is granted.
pub proof fn force_folds_wait_for_the_deadline(
    h: Hand,
    caller_seat: Option<u32>,
    target_seat: u32,
    now: u32,
)
    ensures
        h.force_fold_refusal(caller_seat, target_seat, now) is None <==> {
            &&& h.phase is Preflop || h.phase is Flop || h.phase is Turn || h.phase is River
            &&& h.action_deadline != 0 && now >= h.action_deadline
            &&& target_seat == h.current_turn && target_seat < h.players.len()
            &&& !h.players[target_seat as int].folded && !h.players[target_seat as int].all_in
            &&& caller_seat is Some && caller_seat->0 != target_seat
        },
{
}

/// Folding a player by force folds that player: where one other player `w` is left the pot goes to
/// them; otherwise no chips move, the phase stays, and the next player has the time to act anew.
pub proof fn force_folds_pass_the_turn(
    h: Hand,
    seat: int,
    w: int,
    rake_bps: u32,
    share_bps: u32,
    timeout_ledgers: u32,
    now: u32,
)
    requires
        h.wf(),
        rake_bps <= 10_000,
        0 <= seat < h.players.len(),
        0 <= w < h.players.len(),
        w != seat,
        !h.players[w].folded,
        now + timeout_ledgers <= u32::MAX,
    ensures
        ({
            let n = h.force_folded(seat, rake_bps, share_bps, timeout_ledgers, now);
            let alone = forall|i: int|
                0 <= i < h.players.len() && i != w && i != seat ==> (
                #[trigger] h.players[i]).folded;
            &&& n.players[seat].folded
            &&& alone ==> pot_goes_to(h, n, w, rake_bps, share_bps, now)
            &&& !alone ==> n.pot == h.pot && n.phase == h.phase && n.players[w].stack
                == h.players[w].stack && n.action_deadline == now + timeout_ledgers
                && n.last_action_ledger == now
        }),
{
    stalling_player_is_folded(h, seat, w, rake_bps, share_bps, now);
    let f = h.folded_at(seat);
    lemma_one_left(f.players, w);
    let alone = forall|i: int|
        0 <= i < h.players.len() && i != w && i != seat ==> (#[trigger] h.players[i]).folded;
    if alone {
        assert forall|i: int| 0 <= i < f.players.len() && i != w implies (
        #[trigger] f.players[i]).folded by {
            if i != seat {
                assert(h.players[i].folded);
            }
        }
    } else {
        let i = choose|i: int|
            0 <= i < h.players.len() && i != w && i != seat && !(#[trigger] h.players[i]).folded;
        assert(!f.players[i].folded);
    }
}

proof fn lemma_first_unfolded(players: Seq<PlayerState>)
    requires
        count_active(players) > 0,
    ensures
        0 <= first_active(players) < players.len(),
        !players[first_active(players)].folded,
        forall|i: int| 0 <= i < first_active(players) ==> (#[trigger] players[i]).folded,
    decreases players.len(),
{
    let d = players.drop_last();
    if count_active(d) > 0 {
        lemma_first_unfolded(d);
        assert(d[first_active(d)] == players[first_active(d)]);
        assert forall|i: int| 0 <= i < first_active(players) implies (
        #[trigger] players[i]).folded by {
            assert(d[i] == players[i]);
        }
    } else {
        lemma_all_folded(d);
        assert forall|i: int| 0 <= i < d.len() implies (#[trigger] players[i]).folded by {
            assert(d[i] == players[i]);
        }
    }
}

proof fn lemma_all_folded(players: Seq<PlayerState>)
    requires
        count_active(players) == 0,
    ensures
        first_active(players) == players.len(),
        forall|i: int| 0 <= i < players.len() ==> (#[trigger] players[i]).folded,
    decreases players.len(),
{
    if players.len() > 0 {
        let d = players.drop_last();
        lemma_all_folded(d);
        assert forall|i: int| 0 <= i < players.len() implies (#[trigger] players[i]).folded by {
            if i < d.len() {
                assert(d[i] == players[i]);
            }
        }
    }
}

/// What a timeout is said to have done is what it has done: where the pot was won the named seat has
/// it and the hand is settled; where a player was folded they are, and play goes on; where nothing is
/// said nothing has changed; and a refund settles the hand without a rake.
#[verifier::rlimit(30)]
pub proof fn timeouts_are_told(
    h: Hand,
    board: int,
    rake_bps: u32,
    share_bps: u32,
    timeout_ledgers: u32,
    rescue: bool,
    now: u32,
)
    requires
        h.wf(),
        rake_bps <= 10_000,
        h.current_turn < h.players.len(),
        count_active(h.players) >= 1,
        h.timed_out(board, rake_bps, share_bps, timeout_ledgers, rescue, now) is Ok,
    ensures
        ({
            let n = h.timed_out(board, rake_bps, share_bps, timeout_ledgers, rescue, now)->Ok_0;
            let turn = h.current_turn as int;
            match outcome_of(h, rake_bps) {
                TimeoutOutcome::Nothing => n == h,
                TimeoutOutcome::Folded => n.players[turn].folded && n.phase == h.phase && n.pot
                    == h.pot,
                TimeoutOutcome::FoldWon(w) => {
                    &&& n.players[turn].folded
                    &&& n.phase is Settlement && n.pot == 0
                    &&& w.seat < h.players.len()
                    &&& n.players[w.seat as int].stack == h.players[w.seat as int].stack + w.amount
                    &&& w.total_pot == h.pot && w.amount + w.rake == h.pot
                },
                TimeoutOutcome::RunItTwiceDeclined => h.phase is AwaitingRunItTwice && n.pot == h.pot
                    && n.players == h.players,
                TimeoutOutcome::Refunded => n.phase is Settlement && n.pot == 0 && n.rake_balance
                    == h.rake_balance,
            }
        }),
{
    let turn = h.current_turn as int;
    let f = h.folded_at(turn);
    if h.phase.betting() && can_act(h.players[turn]) && count_active(f.players) == 1 {
        lemma_first_unfolded(f.players);
        let w = first_active(f.players);
        lemma_stack_update(h.players, turn, f.players[turn]);
        assert(f.wf());
        lemma_one_left(f.players, w);
        last_player_standing_takes_the_pot(f, w, rake_bps, share_bps, now);
    }
}

/// A force fold that cannot be made is refused for a reason.
pub proof fn force_folds_are_refused_for_a_reason(
    h: Hand,
    caller_seat: Option<u32>,
    target_seat: u32,
    now: u32,
)
    ensures
        ({
            let r = h.force_fold_refusal(caller_seat, target_seat, now);
            &&& r == Some(PokerTableError::ForceFoldNotAvailable)
                ==> !(h.phase is Preflop || h.phase is Flop || h.phase is Turn || h.phase is River)
            &&& r == Some(PokerTableError::TimeoutNotReached)
                ==> h.action_deadline == 0 || now < h.action_deadline
            &&& r == Some(PokerTableError::PlayerNotAtTable) ==> caller_seat is None
            &&& r == Some(PokerTableError::NotYourTurn) ==> caller_seat == Some(target_seat)
            &&& r == Some(PokerTableError::TargetNotActive)
                ==> target_seat != h.current_turn || h.players[target_seat as int].folded
                || h.players[target_seat as int].all_in
        }),
{
}

} // verus!
