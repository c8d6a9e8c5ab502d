//! Betting: what each action does, and when a round ends.

use crate::host::Address;
use crate::poker_table::game::{
    active_player_count, can_act, count_active, current_blind_level,
    last_player_standing_takes_the_pot, lemma_one_left, lemma_stack_bounds, lemma_stack_update,
    next_turn, pot_goes_to, seat_after, settle_fold_win, stack_of, steps_to, turn_after,
    turn_passes_to_the_nearest, win_of, FoldWin, Hand,
};
use crate::poker_table::history::{kind_of, record_action, with_action};
use crate::poker_table::time_bank::{find_seat_number, seat_by_digest};
use crate::poker_table::types::{
    Action, ActionRecord, BlindLevel, GamePhase, PlayerState, PokerTableError, TableState, turns_fit};
use crate::seqs::sum_by;
use soroban_sdk::Env;
use vstd::prelude::*;

verus! {

/// The bet that has to be matched.
pub open spec fn highest_bet(players: Seq<PlayerState>) -> int
    decreases players.len(),
{
    if players.len() == 0 {
        0
    } else {
        let rest = highest_bet(players.drop_last());
        let b = players.last().bet_this_round as int;
        if b > rest {
            b
        } else {
            rest
        }
    }
}

/// Whether everyone who can act has matched the highest bet.
pub open spec fn round_complete(players: Seq<PlayerState>) -> bool {
    forall|i: int|
        0 <= i < players.len() && can_act(#[trigger] players[i]) ==> players[i].bet_this_round
            == highest_bet(players)
}

/// A player who has put `x` chips into the pot. One without chips left is all in.
pub open spec fn put_in(p: PlayerState, x: int) -> PlayerState {
    PlayerState {
        stack: (p.stack - x) as i128,
        bet_this_round: (p.bet_this_round + x) as i128,
        committed: (p.committed + x) as i128,
        all_in: p.all_in || p.stack == x,
        ..p
    }
}

/// What an action does: the player after it, the chips it puts into the pot and the size of the
/// last bet or raise, which going all in leaves as it is; or why it is refused. `bet` is the bet to
/// match, `last_raise` the size of the last bet or raise, and `big_blind` the least bet.
pub open spec fn acted(p: PlayerState, action: Action, bet: int, last_raise: int, big_blind: int) -> Result<
    (PlayerState, int, int),
    PokerTableError,
> {
    let to_call = bet - p.bet_this_round;
    match action {
        Action::Fold => Ok((PlayerState { folded: true, ..p }, 0, last_raise)),
        Action::Check => if to_call > 0 {
            Err(PokerTableError::MustCallOrFold)
        } else {
            Ok((p, 0, last_raise))
        },
        Action::Call => if to_call <= 0 {
            Err(PokerTableError::NothingToCall)
        } else {
            let x = if p.stack < to_call {
                p.stack as int
            } else {
                to_call
            };
            Ok((put_in(p, x), x, last_raise))
        },
        Action::Bet(x) => if bet > 0 {
            Err(PokerTableError::CannotBetWhenOutstandingBet)
        } else if x < big_blind {
            Err(PokerTableError::BetTooSmall)
        } else if x > p.stack {
            Err(PokerTableError::NotEnoughChips)
        } else {
            Ok((put_in(p, x as int), x as int, x as int))
        },
        Action::Raise(x) => if x < last_raise {
            Err(PokerTableError::RaiseTooSmall)
        } else if to_call + x > p.stack {
            Err(PokerTableError::NotEnoughChips)
        } else {
            Ok((put_in(p, to_call + x), to_call + x, x as int))
        },
        Action::AllIn => if p.stack <= 0 {
            Err(PokerTableError::NotEnoughChips)
        } else {
            Ok((put_in(p, p.stack as int), p.stack as int, last_raise))
        },
    }
}

/// The phase after a betting round.
pub open spec fn phase_after(phase: GamePhase) -> GamePhase {
    match phase {
        GamePhase::Preflop => GamePhase::DealingFlop,
        GamePhase::Flop => GamePhase::DealingTurn,
        GamePhase::Turn => GamePhase::DealingRiver,
        GamePhase::River => GamePhase::Showdown,
        other => other,
    }
}

/// Why the player with seat number `seat` cannot act, if they cannot.
pub open spec fn turn_refusal(h: Hand, seat: Option<u32>) -> Option<PokerTableError> {
    match seat {
        None => Some(PokerTableError::PlayerNotAtTable),
        Some(s) => if s != h.current_turn {
            Some(PokerTableError::NotYourTurn)
        } else if s >= h.players.len() {
            Some(PokerTableError::InvalidPlayerIndex)
        } else if h.players[s as int].folded {
            Some(PokerTableError::PlayerAlreadyFolded)
        } else if h.players[s as int].all_in {
            Some(PokerTableError::PlayerAlreadyAllIn)
        } else {
            None
        },
    }
}

impl Hand {
    /// The hand with an action taken, before anything follows from it.
    pub open spec fn with_action_taken(
        self,
        seat: int,
        action: Action,
        outcome: (PlayerState, int, int),
    ) -> Hand {
        let (p, x, raise) = outcome;
        Hand {
            players: self.players.update(seat, p),
            pot: self.pot + x,
            last_raise_size: raise,
            actions: with_action(
                self.actions,
                ActionRecord {
                    seat: seat as u32,
                    phase: self.phase,
                    kind: kind_of(action),
                    amount: x as i128,
                },
            ),
            ..self
        }
    }

    /// What follows from an action: the last player standing wins, the round ends once all bets
    /// match, or the turn passes on with a new deadline.
    pub open spec fn moved_on(
        self,
        seat: int,
        rake_bps: u32,
        share_bps: u32,
        timeout_ledgers: u32,
        now: u32,
    ) -> Hand {
        if count_active(self.players) == 1 {
            self.fold_won(rake_bps, share_bps, now)
        } else if round_complete(self.players) {
            Hand {
                phase: phase_after(self.phase),
                last_action_ledger: now,
                action_deadline: 0,
                ..self
            }
        } else {
            Hand {
                current_turn: turn_after(self.players, seat) as u32,
                last_action_ledger: now,
                action_deadline: (now + timeout_ledgers) as u32,
                ..self
            }
        }
    }
}

proof fn lemma_highest_bet(players: Seq<PlayerState>)
    requires
        forall|i: int| 0 <= i < players.len() ==> (#[trigger] players[i]).bet_this_round >= 0,
    ensures
        0 <= highest_bet(players) <= i128::MAX,
        forall|i: int|
            0 <= i < players.len() ==> (#[trigger] players[i]).bet_this_round <= highest_bet(
                players,
            ),
    decreases players.len(),
{
    if players.len() > 0 {
        let d = players.drop_last();
        assert forall|i: int| 0 <= i < d.len() implies (#[trigger] d[i]).bet_this_round >= 0 by {
            assert(d[i] == players[i]);
        }
        lemma_highest_bet(d);
        assert(players[players.len() - 1].bet_this_round >= 0);
        assert forall|i: int| 0 <= i < players.len() implies (#[trigger] players[i]).bet_this_round
            <= highest_bet(players) by {
            if i < d.len() {
                assert(d[i] == players[i]);
            }
        }
    }
}

/// The bet that has to be matched.
pub fn current_bet(table: &TableState) -> (r: i128)
    requires
        table.hand().wf(),
    ensures
        r == highest_bet(table.players@),
        r >= 0,
{
    let ghost ps = table.players@;
    proof {
        assert forall|i: int| 0 <= i < ps.len() implies (#[trigger] ps[i]).bet_this_round >= 0 by {
            assert(table.hand().players[i].bet_this_round >= 0);
        }
        lemma_highest_bet(ps);
    }
    let mut max: i128 = 0;
    let mut i: usize = 0;
    while i < table.players.len()
        invariant
            i <= ps.len(),
            ps == table.players@,
            max == highest_bet(ps.take(i as int)),
            max >= 0,
        decreases ps.len() - i,
    {
        assert(ps.take(i + 1).drop_last() =~= ps.take(i as int));
        let b: i128 = table.players[i].bet_this_round;
        if b > max {
            max = b;
        }
        i += 1;
    }
    assert(ps.take(i as int) =~= ps);
    max
}

/// Whether everyone who can act has matched the highest bet.
pub fn is_round_complete(table: &TableState) -> (r: bool)
    requires
        table.hand().wf(),
    ensures
        r == round_complete(table.players@),
{
    let bet: i128 = current_bet(table);
    let mut i: usize = 0;
    while i < table.players.len()
        invariant
            i <= table.players@.len(),
            bet == highest_bet(table.players@),
            forall|j: int|
                0 <= j < i && can_act(#[trigger] table.players@[j])
                    ==> table.players@[j].bet_this_round == bet,
        decreases table.players@.len() - i,
    {
        let p = table.players[i];
        if !p.folded && !p.all_in && p.bet_this_round != bet {
            assert(can_act(table.players@[i as int]));
            return false;
        }
        i += 1;
    }
    true
}

/// A player with chips put into the pot.
fn pay(p: &PlayerState, x: i128) -> (r: PlayerState)
    requires
        0 <= x <= p.stack,
        0 <= p.bet_this_round,
        0 <= p.committed,
        p.committed + x <= i128::MAX,
        p.bet_this_round + x <= i128::MAX,
    ensures
        r == put_in(*p, x as int),
{
    PlayerState {
        address: p.address,
        stack: p.stack - x,
        bet_this_round: p.bet_this_round + x,
        committed: p.committed + x,
        folded: p.folded,
        all_in: p.all_in || p.stack == x,
        sitting_out: p.sitting_out,
        seat_index: p.seat_index,
        total_buy_in: p.total_buy_in,
        rebuy_count: p.rebuy_count,
    }
}

/// What an action does to the player who takes it.
pub fn apply_action(p: &PlayerState, action: &Action, bet: i128, last_raise: i128, big_blind: i128) -> (r:
    Result<(PlayerState, i128, i128), PokerTableError>)
    requires
        0 <= p.stack,
        0 <= p.bet_this_round <= p.committed,
        p.bet_this_round <= bet,
        p.committed + p.stack <= i128::MAX,
        0 <= big_blind,
        0 <= last_raise,
    ensures
        match acted(*p, *action, bet as int, last_raise as int, big_blind as int) {
            Err(e) => r == Err::<(PlayerState, i128, i128), _>(e),
            Ok((q, x, raise)) => r is Ok && (r->Ok_0).0 == q && (r->Ok_0).1 == x && (r->Ok_0).2
                == raise && 0 <= x <= p.stack && 0 <= raise,
        },
{
    let to_call: i128 = bet - p.bet_this_round;
    match action {
        Action::Fold => Ok(
            (
                PlayerState {
                    address: p.address,
                    stack: p.stack,
                    bet_this_round: p.bet_this_round,
                    committed: p.committed,
                    folded: true,
                    all_in: p.all_in,
                    sitting_out: p.sitting_out,
                    seat_index: p.seat_index,
                    total_buy_in: p.total_buy_in,
                    rebuy_count: p.rebuy_count,
                },
                0,
                last_raise,
            ),
        ),
        Action::Check => {
            if to_call > 0 {
                return Err(PokerTableError::MustCallOrFold);
            }
            Ok((*p, 0, last_raise))
        },
        Action::Call => {
            if to_call <= 0 {
                return Err(PokerTableError::NothingToCall);
            }
            let x: i128 = if p.stack < to_call {
                p.stack
            } else {
                to_call
            };
            Ok((pay(p, x), x, last_raise))
        },
        Action::Bet(x) => {
            let x: i128 = *x;
            if bet > 0 {
                return Err(PokerTableError::CannotBetWhenOutstandingBet);
            }
            if x < big_blind {
                return Err(PokerTableError::BetTooSmall);
            }
            if x > p.stack {
                return Err(PokerTableError::NotEnoughChips);
            }
            Ok((pay(p, x), x, x))
        },
        Action::Raise(x) => {
            let x: i128 = *x;
            if x < last_raise {
                return Err(PokerTableError::RaiseTooSmall);
            }
            if x > p.stack || to_call > p.stack - x {
                return Err(PokerTableError::NotEnoughChips);
            }
            Ok((pay(p, to_call + x), to_call + x, x))
        },
        Action::AllIn => {
            if p.stack <= 0 {
                return Err(PokerTableError::NotEnoughChips);
            }
            Ok((pay(p, p.stack), p.stack, last_raise))
        },
    }
}

/// The rake of a table is at most the whole, and all its chips can be multiplied by a rate.
pub open spec fn play_fits(table: TableState) -> bool {
    &&& table.config.rake_bps <= 10_000
    &&& table.hand().chips() * 10_000 <= i128::MAX
}

/// The result of an action at the table, or why it is refused.
pub open spec fn action_result(table: TableState, seat: Option<u32>, action: Action) -> Result<
    (PlayerState, int, int),
    PokerTableError,
> {
    let h = table.hand();
    let levels = table.config.blinds_schedule.levels@;
    if turn_refusal(h, seat) is Some {
        Err(turn_refusal(h, seat)->0)
    } else if table.current_blind_level >= levels.len() {
        Err(PokerTableError::InvalidBlindLevel)
    } else {
        acted(
            h.players[seat->0 as int],
            action,
            highest_bet(h.players),
            h.last_raise_size,
            levels[table.current_blind_level as int].big_blind as int,
        )
    }
}

/// Takes a player's action at ledger `now`. Returns what was won where the others have all
/// folded.
pub fn process_action(env: &Env, table: &mut TableState, player: &Address, action: &Action, now: u32) -> (r:
    Result<Option<FoldWin>, PokerTableError>)
    requires
        old(table).hand().wf(),
        old(table).phase.betting(),
        play_fits(*old(table)),
        old(table).last_raise_size >= 0,
        turns_fit(old(table).config, now),
        forall|i: int|
            0 <= i < old(table).config.blinds_schedule.levels@.len() ==> (#[trigger] old(table).config.blinds_schedule.levels@[i]).big_blind >= 0,
    ensures
        ({
            let seat = seat_by_digest(old(table).players@, *player);
            match action_result(*old(table), seat, *action) {
                Err(e) => r == Err::<Option<FoldWin>, _>(e) && *final(table) == *old(table),
                Ok(outcome) => {
                    let h = old(table).hand().with_action_taken(seat->0 as int, *action, outcome);
                    &&& r == Ok::<_, PokerTableError>(win_of(h, old(table).config.rake_bps))
                    &&& final(table).hand() == h.moved_on(
                        seat->0 as int,
                        old(table).config.rake_bps,
                        old(table).config.jackpot_rake_share_bps,
                        old(table).config.turn_ledgers(old(table).phase),
                        now,
                    )
                    &&& old(table).same_but_hand(*final(table))
                },
            }
        }),
        final(table).hand().chips() == old(table).hand().chips(),
        final(table).hand().wf(),
        final(table).last_raise_size >= 0,
{
    let seat = find_seat_number(env, table, player);
    process_action_at(table, seat, action, now)
}

/// The same, for a player whose seat number is known.
#[verifier::rlimit(60)]
pub fn process_action_at(table: &mut TableState, seat: Option<u32>, action: &Action, now: u32) -> (r:
    Result<Option<FoldWin>, PokerTableError>)
    requires
        old(table).hand().wf(),
        old(table).phase.betting(),
        play_fits(*old(table)),
        old(table).last_raise_size >= 0,
        turns_fit(old(table).config, now),
        forall|i: int|
            0 <= i < old(table).config.blinds_schedule.levels@.len() ==> (#[trigger] old(table).config.blinds_schedule.levels@[i]).big_blind >= 0,
    ensures
        match action_result(*old(table), seat, *action) {
            Err(e) => r == Err::<Option<FoldWin>, _>(e) && *final(table) == *old(table),
            Ok(outcome) => {
                let h = old(table).hand().with_action_taken(seat->0 as int, *action, outcome);
                &&& r == Ok::<_, PokerTableError>(win_of(h, old(table).config.rake_bps))
                &&& final(table).hand() == h.moved_on(
                    seat->0 as int,
                    old(table).config.rake_bps,
                    old(table).config.jackpot_rake_share_bps,
                    old(table).config.turn_ledgers(old(table).phase),
                    now,
                )
                &&& old(table).same_but_hand(*final(table))
            },
        },
        final(table).hand().chips() == old(table).hand().chips(),
        final(table).hand().wf(),
        final(table).last_raise_size >= 0,
{
    let ghost h0 = table.hand();
    let s: u32 = match seat {
        None => {
            return Err(PokerTableError::PlayerNotAtTable);
        },
        Some(x) => x,
    };
    if s != table.current_turn {
        return Err(PokerTableError::NotYourTurn);
    }
    let i: usize = s as usize;
    if i >= table.players.len() {
        return Err(PokerTableError::InvalidPlayerIndex);
    }
    let p = table.players[i];
    if p.folded {
        return Err(PokerTableError::PlayerAlreadyFolded);
    }
    if p.all_in {
        return Err(PokerTableError::PlayerAlreadyAllIn);
    }
    let level: BlindLevel = match current_blind_level(table) {
        Ok(l) => l,
        Err(e) => {
            return Err(e);
        },
    };
    let bet: i128 = current_bet(table);
    proof {
        assert(h0.players[i as int] == p);
        lemma_stack_bounds(h0.players, i as int);
        assert forall|j: int| 0 <= j < h0.players.len() implies (#[trigger] h0.players[j]).bet_this_round
            >= 0 by {}
        lemma_highest_bet(h0.players);
    }
    let (q, x, raise): (PlayerState, i128, i128) = match apply_action(
        &p,
        action,
        bet,
        table.last_raise_size,
        level.big_blind,
    ) {
        Ok(o) => o,
        Err(e) => {
            return Err(e);
        },
    };
    let ghost outcome = (q, x as int, raise as int);
    proof {
        lemma_stack_update(h0.players, i as int, q);
    }
    record_action(table, s, action, x);
    table.players.set(i, q);
    table.pot = table.pot + x;
    table.last_raise_size = raise;
    let ghost h1 = table.hand();
    assert(h1 =~= h0.with_action_taken(s as int, *action, outcome));
    assert(h1.chips() == h0.chips());
    assert(h1.wf()) by {
        assert forall|j: int| 0 <= j < h1.players.len() implies {
            let w = #[trigger] h1.players[j];
            &&& 0 <= w.stack
            &&& 0 <= w.bet_this_round <= w.committed
            &&& !h1.phase.between_hands() ==> w.committed <= h1.pot
        } by {
            let w0 = h0.players[j];
        }
    }
    proof {
        lemma_stack_bounds(h1.players, 0);
    }
    if active_player_count(table) == 1 {
        Ok(Some(settle_fold_win(table, now)))
    } else if is_round_complete(table) {
        table.phase = match table.phase {
            GamePhase::Preflop => GamePhase::DealingFlop,
            GamePhase::Flop => GamePhase::DealingTurn,
            GamePhase::Turn => GamePhase::DealingRiver,
            GamePhase::River => GamePhase::Showdown,
            other => other,
        };
        table.last_action_ledger = now;
        table.action_deadline = 0;
        Ok(None)
    } else {
        let next: usize = seat_after(table, i);
        table.current_turn = next as u32;
        table.last_action_ledger = now;
        table.action_deadline = now + table.config.turn_time(&table.phase);
        Ok(None)
    }
}

/// The players with their bets of the round cleared.
pub open spec fn bets_cleared(players: Seq<PlayerState>) -> Seq<PlayerState> {
    Seq::new(players.len(), |i: int| PlayerState { bet_this_round: 0, ..players[i] })
}

/// Whether some player can act.
pub open spec fn anyone_can_act(players: Seq<PlayerState>) -> bool {
    exists|i: int| 0 <= i < players.len() && can_act(#[trigger] players[i])
}

/// Clears the bets of the round, and says whether some player can act.
fn clear_bets(table: &mut TableState) -> (some: bool)
    ensures
        final(table).players@ == bets_cleared(old(table).players@),
        *final(table) == (TableState { players: final(table).players, ..*old(table) }),
        some == anyone_can_act(bets_cleared(old(table).players@)),
{
    let ghost ps = table.players@;
    let mut some: bool = false;
    let mut i: usize = 0;
    assert(table.players@ =~= bets_cleared(ps).take(0) + ps.skip(0));
    while i < table.players.len()
        invariant
            i <= ps.len(),
            table.players@.len() == ps.len(),
            table.players@ == bets_cleared(ps).take(i as int) + ps.skip(i as int),
            some == exists|j: int| 0 <= j < i && can_act(#[trigger] bets_cleared(ps)[j]),
            *table == (TableState { players: table.players, ..*old(table) }),
        decreases ps.len() - i,
    {
        let p = table.players[i];
        let next = PlayerState {
            address: p.address,
            stack: p.stack,
            bet_this_round: 0,
            committed: p.committed,
            folded: p.folded,
            all_in: p.all_in,
            sitting_out: p.sitting_out,
            seat_index: p.seat_index,
            total_buy_in: p.total_buy_in,
            rebuy_count: p.rebuy_count,
        };
        table.players.set(i, next);
        assert(next == bets_cleared(ps)[i as int]);
        assert(table.players@ =~= bets_cleared(ps).take(i + 1) + ps.skip(i + 1));
        let can: bool = !p.folded && !p.all_in;
        proof {
            let c = bets_cleared(ps);
            assert(can == can_act(c[i as int]));
            if some {
                let j = choose|j: int| 0 <= j < i && can_act(#[trigger] c[j]);
                assert(can_act(c[j]));
            }
        }
        some = some || can;
        i += 1;
    }
    let ghost c = bets_cleared(ps);
    assert(table.players@ =~= c);
    assert(some == anyone_can_act(c));
    some
}

/// Starts a betting round at ledger `now`: no bets are outstanding and the first player left of
/// the button who can act is next. Where nobody can act, the round is over at once.
#[verifier::rlimit(40)]
pub fn reset_round(table: &mut TableState, now: u32) -> (r: Result<(), PokerTableError>)
    requires
        old(table).hand().wf(),
        old(table).phase.betting(),
        old(table).dealer_seat < old(table).players@.len(),
        turns_fit(old(table).config, now),
    ensures
        ({
            let t0 = *old(table);
            let levels = t0.config.blinds_schedule.levels@;
            let ps = bets_cleared(t0.players@);
            if t0.current_blind_level >= levels.len() {
                r == Err::<(), _>(PokerTableError::InvalidBlindLevel) && *final(table) == t0
            } else {
                &&& r is Ok
                &&& t0.same_but_hand(*final(table))
                &&& final(table).hand() == (Hand {
                    players: ps,
                    last_raise_size: levels[t0.current_blind_level as int].big_blind as int,
                    current_turn: turn_after(ps, t0.dealer_seat as int) as u32,
                    phase: if anyone_can_act(ps) {
                        t0.phase
                    } else {
                        phase_after(t0.phase)
                    },
                    action_deadline: if anyone_can_act(ps) {
                        (now + t0.config.turn_ledgers(t0.phase)) as u32
                    } else {
                        0
                    },
                    ..t0.hand()
                })
            }
        }),
        final(table).hand().chips() == old(table).hand().chips(),
        final(table).hand().wf(),
{
    let ghost h0 = table.hand();
    let ghost ps = table.players@;
    let level: BlindLevel = match current_blind_level(table) {
        Ok(l) => l,
        Err(e) => {
            return Err(e);
        },
    };
    let some: bool = clear_bets(table);
    let ghost c = bets_cleared(ps);
    proof {
        lemma_cleared_sum(ps);
    }
    table.last_raise_size = level.big_blind;
    let next: usize = seat_after(table, table.dealer_seat as usize);
    table.current_turn = next as u32;
    table.action_deadline = now + table.config.turn_time(&table.phase);
    if !some {
        table.action_deadline = 0;
        table.phase = match table.phase {
            GamePhase::Preflop => GamePhase::DealingFlop,
            GamePhase::Flop => GamePhase::DealingTurn,
            GamePhase::Turn => GamePhase::DealingRiver,
            GamePhase::River => GamePhase::Showdown,
            other => other,
        };
    }
    assert(table.hand().wf()) by {
        assert forall|j: int| 0 <= j < c.len() implies {
            let w = #[trigger] table.hand().players[j];
            &&& 0 <= w.stack
            &&& 0 <= w.bet_this_round <= w.committed
            &&& !table.hand().phase.between_hands() ==> w.committed <= table.hand().pot
        } by {
            let w0 = h0.players[j];
        }
    }
    Ok(())
}

proof fn lemma_cleared_sum(ps: Seq<PlayerState>)
    ensures
        sum_by(bets_cleared(ps), stack_of()) == sum_by(ps, stack_of()),
    decreases ps.len(),
{
    if ps.len() > 0 {
        lemma_cleared_sum(ps.drop_last());
        assert(bets_cleared(ps).drop_last() =~= bets_cleared(ps.drop_last()));
    } else {
        assert(bets_cleared(ps) =~= ps);
    }
}

/// A raise is at least as large as the one before it.
pub proof fn raise_matches_last(p: PlayerState, x: i128, bet: int, last_raise: int, big_blind: int)
    ensures
        x < last_raise ==> acted(p, Action::Raise(x), bet, last_raise, big_blind) == Err::<
            (PlayerState, int, int),
            _,
        >(PokerTableError::RaiseTooSmall),
        acted(p, Action::Raise(x), bet, last_raise, big_blind) matches Ok((_, _, raise)) ==> raise
            == x && x >= last_raise,
{
}

/// The place of a phase in a hand.
pub open spec fn phase_rank(phase: GamePhase) -> int {
    match phase {
        GamePhase::Waiting | GamePhase::WaitingForPlayers => 0,
        GamePhase::Dealing => 1,
        GamePhase::Preflop => 2,
        GamePhase::DealingFlop => 3,
        GamePhase::Flop => 4,
        GamePhase::DealingTurn => 5,
        GamePhase::Turn => 6,
        GamePhase::DealingRiver => 7,
        GamePhase::River => 8,
        GamePhase::Showdown
        | GamePhase::AwaitingRunItTwice
        | GamePhase::ShowdownRun1
        | GamePhase::ShowdownRun2 => 9,
        GamePhase::Settlement | GamePhase::RitSettlement => 10,
        GamePhase::Dispute => 255,
    }
}

/// A hand never goes back to an earlier phase, and it leaves a betting round only when all bets
/// match or one player is left.
pub proof fn betting_moves_forward(
    h: Hand,
    seat: int,
    rake_bps: u32,
    share_bps: u32,
    timeout_ledgers: u32,
    now: u32,
)
    requires
        h.phase.betting(),
    ensures
        ({
            let n = h.moved_on(seat, rake_bps, share_bps, timeout_ledgers, now);
            &&& phase_rank(n.phase) >= phase_rank(h.phase)
            &&& n.phase != h.phase ==> count_active(h.players) == 1 || round_complete(h.players)
        }),
{
}

/// While a round goes on, the turn is with a player who can act, as long as there is one.
pub proof fn turn_is_with_an_active_player(players: Seq<PlayerState>, seat: int)
    requires
        0 <= seat < players.len(),
        anyone_can_act(players),
    ensures
        0 <= turn_after(players, seat) < players.len(),
        can_act(players[turn_after(players, seat)]),
{
    let n = players.len() as int;
    let start = (seat + 1) % n;
    let i = choose|i: int| 0 <= i < players.len() && can_act(#[trigger] players[i]);
    let d = if i >= start {
        i - start
    } else {
        i + n - start
    };
    assert((start + d) % n == i) by {
        if i >= start {
            assert(i % n == i) by (nonlinear_arith)
                requires
                    0 <= i < n,
            ;
        } else {
            assert((i + n) % n == i) by (nonlinear_arith)
                requires
                    0 <= i < n,
            ;
        }
    }
    lemma_search(players, start, players.len(), d);
}

proof fn lemma_search(players: Seq<PlayerState>, s: int, left: nat, d: int)
    requires
        0 <= s < players.len(),
        0 <= d < left,
        left <= players.len(),
        can_act(players[(s + d) % (players.len() as int)]),
    ensures
        0 <= next_turn(players, s, left) < players.len(),
        can_act(players[next_turn(players, s, left)]),
    decreases left,
{
    let n = players.len() as int;
    if !can_act(players[s]) {
        assert(s % n == s) by (nonlinear_arith)
            requires
                0 <= s < n,
        ;
        assert(d > 0) by {
            if d == 0 {
                assert((s + d) % n == s);
            }
        }
        let t = (s + 1) % n;
        assert(0 <= t < n && (t + (d - 1)) % n == (s + d) % n) by (nonlinear_arith)
            requires
                t == (s + 1) % n,
                0 <= s < n,
                0 < d < n,
        ;
        lemma_search(players, t, (left - 1) as nat, d - 1);
    }
}

/// Whether a player's numbers and the bet to match are those of a running hand.
pub open spec fn bets_fit(p: PlayerState, bet: int, last_raise: int, big_blind: int) -> bool {
    &&& 0 <= p.stack
    &&& 0 <= p.bet_this_round <= p.committed
    &&& p.bet_this_round <= bet
    &&& p.committed + p.stack <= i128::MAX
    &&& 0 <= big_blind
    &&& 0 <= last_raise
}

/// Whatever the action, the chips that it puts into the pot are those that leave the player's
/// stack, and they count as bet in the round and as committed in the hand. Only a fold folds, and
/// only a player whose last chip has gone becomes all in. Nothing else of the player changes.
pub proof fn chips_go_from_the_stack_to_the_pot(
    p: PlayerState,
    action: Action,
    bet: int,
    last_raise: int,
    big_blind: int,
)
    requires
        bets_fit(p, bet, last_raise, big_blind),
    ensures
        acted(p, action, bet, last_raise, big_blind) matches Ok((q, x, _)) ==> {
            &&& 0 <= x <= p.stack
            &&& q.stack == p.stack - x
            &&& q.bet_this_round == p.bet_this_round + x
            &&& q.committed == p.committed + x
            &&& q.folded <==> p.folded || action is Fold
            &&& x > 0 ==> (q.all_in <==> p.all_in || x == p.stack)
            &&& action is Fold || action is Check ==> q.all_in == p.all_in && x == 0
            &&& q.address == p.address && q.seat_index == p.seat_index && q.sitting_out
                == p.sitting_out && q.total_buy_in == p.total_buy_in && q.rebuy_count
                == p.rebuy_count
        },
{
}

/// A raise by `x` brings the raiser's bet to the bet that was to match plus `x`, whatever they had
/// bet before, for exactly the difference. It is accepted if and only if `x` is at least the last
/// raise and the player can pay it, and it sets the size of the last raise.
pub proof fn raise_goes_on_top_of_the_bet(
    p: PlayerState,
    x: i128,
    bet: int,
    last_raise: int,
    big_blind: int,
)
    requires
        bets_fit(p, bet, last_raise, big_blind),
    ensures
        ({
            let r = acted(p, Action::Raise(x), bet, last_raise, big_blind);
            let owed = bet + x - p.bet_this_round;
            &&& r is Ok <==> x >= last_raise && owed <= p.stack
            &&& r matches Ok((q, paid, raise)) ==> {
                &&& q.bet_this_round == bet + x
                &&& paid == owed
                &&& q.stack == p.stack - owed
                &&& q.committed == p.committed + owed
                &&& raise == x
            }
            &&& r matches Err(e) ==> e == (if x < last_raise {
                PokerTableError::RaiseTooSmall
            } else {
                PokerTableError::NotEnoughChips
            })
        }),
{
}

/// A call brings the caller's bet up to the bet to match, or as far as their stack goes. There must
/// be something to call. The size of the last raise stays.
pub proof fn call_matches_the_bet(p: PlayerState, bet: int, last_raise: int, big_blind: int)
    requires
        bets_fit(p, bet, last_raise, big_blind),
    ensures
        ({
            let r = acted(p, Action::Call, bet, last_raise, big_blind);
            &&& r is Ok <==> p.bet_this_round < bet
            &&& r matches Ok((q, paid, raise)) ==> {
                &&& q.bet_this_round <= bet
                &&& q.bet_this_round == bet || (q.stack == 0 && q.all_in)
                &&& q.stack == p.stack - (q.bet_this_round - p.bet_this_round)
                &&& paid == q.bet_this_round - p.bet_this_round
                &&& q.stack == 0 ==> q.all_in
                &&& raise == last_raise
            }
            &&& r matches Err(e) ==> e == PokerTableError::NothingToCall
        }),
{
}

/// A check is for a player who has matched the bet, and changes nothing; a fold is always open, and
/// costs nothing more.
pub proof fn check_and_fold_are_free(p: PlayerState, bet: int, last_raise: int, big_blind: int)
    ensures
        ({
            let r = acted(p, Action::Check, bet, last_raise, big_blind);
            &&& r is Ok <==> p.bet_this_round >= bet
            &&& r matches Ok((q, paid, raise)) ==> q == p && paid == 0 && raise == last_raise
            &&& r matches Err(e) ==> e == PokerTableError::MustCallOrFold
        }),
        acted(p, Action::Fold, bet, last_raise, big_blind) matches Ok((q, paid, raise)) ==> q.folded
            && paid == 0 && raise == last_raise && q.stack == p.stack && q.committed
            == p.committed && q.bet_this_round == p.bet_this_round,
        acted(p, Action::Fold, bet, last_raise, big_blind) is Ok,
{
}

/// A bet opens the betting: it is accepted if and only if nobody has bet, it is at least the big
/// blind and the player can pay it. The bettor's bet and the size of the last raise are then what
/// was bet.
pub proof fn bet_opens_the_betting(
    p: PlayerState,
    x: i128,
    bet: int,
    last_raise: int,
    big_blind: int,
)
    requires
        bets_fit(p, bet, last_raise, big_blind),
    ensures
        ({
            let r = acted(p, Action::Bet(x), bet, last_raise, big_blind);
            &&& r is Ok <==> bet == 0 && big_blind <= x <= p.stack
            &&& r matches Ok((q, paid, raise)) ==> {
                &&& q.bet_this_round == x
                &&& q.stack == p.stack - x
                &&& paid == x
                &&& raise == x
            }
            &&& r matches Err(e) ==> {
                &&& bet > 0 <==> e == PokerTableError::CannotBetWhenOutstandingBet
                &&& bet == 0 && x < big_blind <==> e == PokerTableError::BetTooSmall
            }
        }),
{
}

/// Going all in puts in the whole stack, and leaves the size of the last raise as it is.
pub proof fn all_in_bets_the_stack(p: PlayerState, bet: int, last_raise: int, big_blind: int)
    requires
        bets_fit(p, bet, last_raise, big_blind),
    ensures
        ({
            let r = acted(p, Action::AllIn, bet, last_raise, big_blind);
            &&& r is Ok <==> p.stack > 0
            &&& r matches Ok((q, paid, raise)) ==> {
                &&& q.stack == 0 && q.all_in
                &&& paid == p.stack
                &&& q.bet_this_round == p.bet_this_round + p.stack
                &&& q.committed == p.committed + p.stack
                &&& raise == last_raise
            }
            &&& r matches Err(e) ==> e == PokerTableError::NotEnoughChips
        }),
{
}

/// The bet to match is the most that somebody has bet in the round: nobody has bet more, and
/// somebody has bet as much, unless nobody has bet.
pub proof fn bet_to_match_is_the_highest(players: Seq<PlayerState>)
    requires
        forall|i: int| 0 <= i < players.len() ==> (#[trigger] players[i]).bet_this_round >= 0,
    ensures
        forall|i: int|
            0 <= i < players.len() ==> (#[trigger] players[i]).bet_this_round <= highest_bet(
                players,
            ),
        highest_bet(players) == 0 || exists|i: int|
            0 <= i < players.len() && (#[trigger] players[i]).bet_this_round == highest_bet(
                players,
            ),
    decreases players.len(),
{
    lemma_highest_bet(players);
    if players.len() > 0 {
        let d = players.drop_last();
        assert forall|i: int| 0 <= i < d.len() implies (#[trigger] d[i]).bet_this_round >= 0 by {
            assert(d[i] == players[i]);
        }
        bet_to_match_is_the_highest(d);
        if highest_bet(players) == highest_bet(d) && highest_bet(d) != 0 {
            let i = choose|i: int|
                0 <= i < d.len() && (#[trigger] d[i]).bet_this_round == highest_bet(d);
            assert(players[i].bet_this_round == highest_bet(players));
        } else if highest_bet(players) != 0 {
            assert(players[players.len() - 1].bet_this_round == highest_bet(players));
        }
    }
}

/// A betting round is over exactly when no player who can still act has bet less than somebody
/// else.
pub proof fn round_ends_when_nobody_is_behind(players: Seq<PlayerState>)
    requires
        forall|i: int| 0 <= i < players.len() ==> (#[trigger] players[i]).bet_this_round >= 0,
    ensures
        round_complete(players) <==> forall|i: int, j: int|
            0 <= i < players.len() && 0 <= j < players.len() && !players[i].folded
                && !players[i].all_in ==> (#[trigger] players[j]).bet_this_round <= (
            #[trigger] players[i]).bet_this_round,
{
    bet_to_match_is_the_highest(players);
    if forall|i: int, j: int|
        0 <= i < players.len() && 0 <= j < players.len() && !players[i].folded
            && !players[i].all_in ==> (#[trigger] players[j]).bet_this_round <= (
        #[trigger] players[i]).bet_this_round {
        assert forall|i: int| 0 <= i < players.len() && can_act(#[trigger] players[i]) implies 
            players[i].bet_this_round == highest_bet(players) by {
            if highest_bet(players) != 0 {
                let j = choose|j: int|
                    0 <= j < players.len() && (#[trigger] players[j]).bet_this_round
                        == highest_bet(players);
                assert(players[j].bet_this_round <= players[i].bet_this_round);
            }
        }
    }
}

/// A player acts in turn, while they have neither folded nor gone all in, and only then.
pub proof fn players_act_in_turn(h: Hand, seat: Option<u32>)
    ensures
        turn_refusal(h, seat) is None <==> seat is Some && seat->0 == h.current_turn && seat->0
            < h.players.len() && !h.players[seat->0 as int].folded
            && !h.players[seat->0 as int].all_in,
        seat is None ==> turn_refusal(h, seat) == Some(PokerTableError::PlayerNotAtTable),
        seat is Some && seat->0 != h.current_turn ==> turn_refusal(h, seat) == Some(
            PokerTableError::NotYourTurn,
        ),
{
}

/// An action changes its player, and adds to the pot what that player pays. No other player, no
/// balance and no deadline moves with it, and it is noted at the end of the hand's actions.
pub proof fn action_concerns_its_player(h: Hand, seat: int, action: Action, bet: int, big_blind: int)
    requires
        h.wf(),
        0 <= seat < h.players.len(),
        h.phase.betting(),
        bets_fit(h.players[seat], bet, h.last_raise_size, big_blind),
        acted(h.players[seat], action, bet, h.last_raise_size, big_blind) is Ok,
    ensures
        ({
            let n = h.with_action_taken(
                seat,
                action,
                acted(h.players[seat], action, bet, h.last_raise_size, big_blind)->Ok_0,
            );
            &&& n.players.len() == h.players.len()
            &&& forall|i: int|
                0 <= i < h.players.len() && i != seat ==> #[trigger] n.players[i] == h.players[i]
            &&& n.pot - h.pot == h.players[seat].stack - n.players[seat].stack
            &&& n.pot - h.pot == n.players[seat].bet_this_round - h.players[seat].bet_this_round
            &&& h.actions.len() < 64 ==> n.actions.len() == h.actions.len() + 1
                && n.actions.last().seat == seat && n.actions.last().phase == h.phase
                && n.actions.last().amount == n.pot - h.pot && n.actions.last().kind == kind_of(
                action,
            )
            &&& n.phase == h.phase && n.current_turn == h.current_turn && n.action_deadline
                == h.action_deadline && n.rake_balance == h.rake_balance && n.jackpot_balance
                == h.jackpot_balance
        }),
{
    chips_go_from_the_stack_to_the_pot(
        h.players[seat],
        action,
        bet,
        h.last_raise_size,
        big_blind,
    );
}

/// After an action the last player standing takes the pot. While two are left no chips move: once
/// nobody who can act is behind, the next street follows, or the showdown after the river;
/// otherwise the phase stays and the turn passes on, with the time to act running anew.
pub proof fn what_follows_an_action(
    h: Hand,
    seat: int,
    w: int,
    rake_bps: u32,
    share_bps: u32,
    timeout_ledgers: u32,
    now: u32,
)
    requires
        h.wf(),
        h.phase.betting(),
        0 <= seat < h.players.len(),
        0 <= w < h.players.len(),
        !h.players[w].folded,
        rake_bps <= 10_000,
        now + timeout_ledgers <= u32::MAX,
    ensures
        ({
            let n = h.moved_on(seat, rake_bps, share_bps, timeout_ledgers, now);
            let alone = forall|i: int|
                0 <= i < h.players.len() && i != w ==> (#[trigger] h.players[i]).folded;
            let matched = forall|i: int, j: int|
                0 <= i < h.players.len() && 0 <= j < h.players.len() && !h.players[i].folded
                    && !h.players[i].all_in ==> (#[trigger] h.players[j]).bet_this_round <= (
                #[trigger] h.players[i]).bet_this_round;
            &&& alone ==> pot_goes_to(h, n, w, rake_bps, share_bps, now)
            &&& !alone ==> n.players == h.players && n.pot == h.pot && n.rake_balance
                == h.rake_balance && n.jackpot_balance == h.jackpot_balance
                && n.last_action_ledger == now
            &&& !alone && matched ==> {
                &&& h.phase is Preflop ==> n.phase is DealingFlop
                &&& h.phase is Flop ==> n.phase is DealingTurn
                &&& h.phase is Turn ==> n.phase is DealingRiver
                &&& h.phase is River ==> n.phase is Showdown
                &&& n.action_deadline == 0
            }
            &&& !alone && !matched ==> {
                &&& n.phase == h.phase
                &&& n.action_deadline == now + timeout_ledgers
                &&& n.current_turn < h.players.len()
                &&& !h.players[n.current_turn as int].folded
                    && !h.players[n.current_turn as int].all_in
                &&& forall|i: int|
                    0 <= i < h.players.len() && !(#[trigger] h.players[i]).folded
                        && !h.players[i].all_in ==> steps_to(
                        h.players.len() as int,
                        seat,
                        n.current_turn as int,
                    ) <= steps_to(h.players.len() as int, seat, i)
            }
        }),
{
    lemma_one_left(h.players, w);
    assert forall|i: int| 0 <= i < h.players.len() implies (
    #[trigger] h.players[i]).bet_this_round >= 0 by {
    }
    round_ends_when_nobody_is_behind(h.players);
    if count_active(h.players) == 1 {
        last_player_standing_takes_the_pot(h, w, rake_bps, share_bps, now);
    } else if !round_complete(h.players) {
        let k = choose|i: int|
            0 <= i < h.players.len() && can_act(#[trigger] h.players[i])
                && h.players[i].bet_this_round != highest_bet(h.players);
        turn_passes_to_the_nearest(h.players, seat, k);
        assert forall|i: int|
            0 <= i < h.players.len() && !(#[trigger] h.players[i]).folded
                && !h.players[i].all_in implies steps_to(
            h.players.len() as int,
            seat,
            turn_after(h.players, seat),
        ) <= steps_to(h.players.len() as int, seat, i) by {
            turn_passes_to_the_nearest(h.players, seat, i);
        }
    }
}

/// Clearing the bets of a round moves no chips: only what was bet in the round is forgotten.
pub proof fn cleared_bets_stay_in_the_pot(players: Seq<PlayerState>, i: int)
    requires
        0 <= i < players.len(),
    ensures
        bets_cleared(players).len() == players.len(),
        ({
            let (p, q) = (players[i], bets_cleared(players)[i]);
            &&& q.bet_this_round == 0
            &&& q.stack == p.stack && q.committed == p.committed && q.folded == p.folded
                && q.all_in == p.all_in && q.address == p.address
        }),
{
}

} // verus!
