//! What a request does to a table, told by its seats, its chips and its clock.

use super::play::start_fits;
use super::{table_wf, ContractView};
use crate::host::{be_u32, Address, Bytes32};
use crate::poker_table::betting::{
    action_concerns_its_player, action_result, all_in_bets_the_stack, bet_opens_the_betting,
    bet_to_match_is_the_highest, bets_fit, call_matches_the_bet, check_and_fold_are_free,
    chips_go_from_the_stack_to_the_pot, highest_bet, raise_goes_on_top_of_the_bet,
    what_follows_an_action,
};
use crate::poker_table::game::{
    ante_amount, blinds_are_left_of_the_button, hands_start_afresh, left_of,
    last_player_standing_takes_the_pot, lemma_one_left, lemma_stack_bounds, lemma_stack_update, level_at, new_hand, pot_goes_to,
    straddle_is_paid_by_its_seat, FoldWin,
};
use crate::poker_table::bad_beat::{bad_beat_threshold, bad_beats_are_strong_losing_hands};
use crate::poker_table::dealing::first_to_act_is_left_of_the_blinds;
use crate::poker_table::history::{archive_keeps_newest, record_of};
use crate::poker_table::settlement::{payouts_of, rake_above, showdown_conserves_chips};
use crate::poker_table::seating::level_valid;
use crate::poker_table::session::session_id;
use crate::poker_table::showdown::{
    named_by, showdowns_are_proved, sole_winner_gains_the_pot, ties_share_the_pot, ShowdownResult,
};
use crate::poker_table::time_bank::SeatKey;
use crate::poker_table::types::{
    turns_fit, Action, AnteMode, GamePhase, PokerTableError, TableState,
};
use vstd::prelude::*;

verus! {

/// The numbers of a running hand are such that the player at `seat` can bet.
proof fn lemma_seat_fits(t: TableState, seat: int)
    requires
        table_wf(t),
        t.phase.betting(),
        0 <= seat < t.players@.len(),
    ensures
        ({
            let levels = t.config.blinds_schedule.levels@;
            bets_fit(
                t.players@[seat],
                highest_bet(t.players@),
                t.last_raise_size as int,
                levels[t.current_blind_level as int].big_blind as int,
            )
        }),
{
    let h = t.hand();
    let levels = t.config.blinds_schedule.levels@;
    let k = t.current_blind_level as int;
    assert forall|i: int| 0 <= i < t.players@.len() implies (
    #[trigger] t.players@[i]).bet_this_round >= 0 by {
        assert(h.players[i].bet_this_round >= 0);
    }
    assert forall|i: int| 0 <= i < t.players@.len() implies (#[trigger] t.players@[i]).stack
        >= 0 by {
        assert(h.players[i].stack >= 0);
    }
    bet_to_match_is_the_highest(t.players@);
    lemma_stack_bounds(t.players@, seat);
    assert(h.players[seat].committed <= h.pot);
    assert(level_valid(levels[k], k == levels.len() - 1));
}

/// What an accepted action does, told by the stacks, the bets and the pot. As long as another player
/// is left besides the one who acts and `w`, or the action is no fold, nobody else's chips move, and
/// what leaves the stack of the player goes to the pot and to their bet. A raise brings their bet to
/// the amount of the raise above the highest bet; a call to the highest bet, or all in; a bet opens
/// the betting; going all in leaves nothing; a check and a fold cost nothing. A fold that leaves `w`
/// alone gives them the pot less the rake.
#[verifier::rlimit(40)]
pub proof fn actions_move_the_own_chips(
    st: ContractView,
    next: ContractView,
    table_id: u32,
    player: Address,
    seat: u32,
    seq: u32,
    action: Action,
    now: u32,
    w: int,
    other: u32,
)
    requires
        st.wf(),
        st.tables.contains_key(table_id),
        st.action_refusal(table_id, player, Some(seat), seq, action) is None,
        st.action_taken(next, table_id, player, Some(seat), seq, action, now),
        turns_fit(st.tables[table_id].config, now),
        0 <= w < st.tables[table_id].players@.len(),
        w != seat,
        !st.tables[table_id].players@[w].folded,
        other != table_id,
    ensures
        ({
            let t = st.tables[table_id];
            let u = next.tables[table_id];
            let s = seat as int;
            let (p, q) = (t.players@[s], u.players@[s]);
            let paid = p.stack - q.stack;
            let alone = action is Fold && forall|i: int|
                0 <= i < t.players@.len() && i != w && i != s ==> (
                #[trigger] t.players@[i]).folded;
            &&& s < t.players@.len() && u.players@.len() == t.players@.len()
            &&& !p.folded && !p.all_in && t.current_turn == seat
            &&& !alone ==> {
                &&& 0 <= paid <= p.stack
                &&& u.pot - t.pot == paid
                &&& q.bet_this_round - p.bet_this_round == paid
                &&& q.committed - p.committed == paid
                &&& forall|i: int|
                    0 <= i < t.players@.len() && i != s ==> #[trigger] u.players@[i]
                        == t.players@[i]
                &&& u.rake_balance == t.rake_balance && u.jackpot_balance == t.jackpot_balance
                &&& u.last_action_ledger == now
                &&& u.phase == t.phase ==> u.action_deadline == now + t.config.turn_ledgers(
                    t.phase,
                )
            }
            &&& action is Fold ==> q.folded && (!alone ==> paid == 0)
            &&& action is Check ==> paid == 0 && (forall|i: int|
                0 <= i < t.players@.len() ==> (#[trigger] t.players@[i]).bet_this_round
                    <= p.bet_this_round)
            &&& action is Call ==> {
                &&& q.stack == 0 || (forall|i: int|
                    0 <= i < t.players@.len() ==> (#[trigger] t.players@[i]).bet_this_round
                        <= q.bet_this_round)
                &&& exists|i: int|
                    0 <= i < t.players@.len() && q.bet_this_round <= (
                    #[trigger] t.players@[i]).bet_this_round
            }
            &&& action matches Action::Bet(x) ==> q.bet_this_round == x && (forall|i: int|
                0 <= i < t.players@.len() ==> (#[trigger] t.players@[i]).bet_this_round <= 0)
            &&& action matches Action::Raise(x) ==> {
                &&& forall|i: int|
                    0 <= i < t.players@.len() ==> (#[trigger] t.players@[i]).bet_this_round + x
                        <= q.bet_this_round
                &&& q.bet_this_round == x || exists|i: int|
                    0 <= i < t.players@.len() && (#[trigger] t.players@[i]).bet_this_round + x
                        == q.bet_this_round
                &&& x >= t.last_raise_size
                &&& u.last_raise_size == x
            }
            &&& action is AllIn ==> q.stack == 0 && paid == p.stack && paid > 0
            &&& action matches Action::Bet(x) ==> u.last_raise_size == x
            &&& action is Fold || action is Check || action is Call || action is AllIn
                ==> u.last_raise_size == t.last_raise_size
            &&& alone ==> pot_goes_to(
                t.hand(),
                u.hand(),
                w,
                t.config.rake_bps,
                t.config.jackpot_rake_share_bps,
                now,
            )
            &&& next.tables.contains_key(other) == st.tables.contains_key(other)
            &&& next.tables[other] == st.tables[other]
            &&& next.counters[SeatKey { table_id, player }] == seq
            &&& st.action_answer(table_id, Some(seat), action) is Some <==> alone
            &&& st.action_answer(table_id, Some(seat), action) matches Some(win) ==> win.seat == w
                && win.amount == u.players@[w].stack - t.players@[w].stack && win.total_pot == t.pot
                && win.amount + win.rake == t.pot
        }),
{
    let t = st.tables[table_id];
    let u = next.tables[table_id];
    let h = t.hand();
    let s = seat as int;
    let levels = t.config.blinds_schedule.levels@;
    let bb = levels[t.current_blind_level as int].big_blind as int;
    let bet = highest_bet(t.players@);
    assert(table_wf(t));
    assert(action_result(t, Some(seat), action) is Ok);
    lemma_seat_fits(t, s);
    let p = t.players@[s];
    let outcome = action_result(t, Some(seat), action)->Ok_0;
    let g = h.with_action_taken(s, action, outcome);
    let q = g.players[s];
    chips_go_from_the_stack_to_the_pot(p, action, bet, h.last_raise_size, bb);
    action_concerns_its_player(h, s, action, bet, bb);
    assert forall|i: int| 0 <= i < t.players@.len() implies (
    #[trigger] t.players@[i]).bet_this_round >= 0 by {
        assert(h.players[i].bet_this_round >= 0);
    }
    bet_to_match_is_the_highest(t.players@);
    lemma_stack_update(h.players, s, q);
    assert(g.chips() == h.chips());
    assert(g.wf()) by {
        assert forall|i: int| 0 <= i < g.players.len() implies {
            let x = #[trigger] g.players[i];
            &&& 0 <= x.stack
            &&& 0 <= x.bet_this_round <= x.committed
            &&& !g.phase.between_hands() ==> x.committed <= g.pot
        } by {
            let y = h.players[i];
            assert(y.committed <= h.pot);
        }
    }
    assert(g.players[w] == h.players[w]);
    what_follows_an_action(
        g,
        s,
        w,
        t.config.rake_bps,
        t.config.jackpot_rake_share_bps,
        t.config.turn_ledgers(t.phase),
        now,
    );
    let alone = action is Fold && forall|i: int|
        0 <= i < t.players@.len() && i != w && i != s ==> (#[trigger] t.players@[i]).folded;
    let lone = forall|i: int|
        0 <= i < g.players.len() && i != w ==> (#[trigger] g.players[i]).folded;
    assert(alone == lone) by {
        if alone {
            assert forall|i: int| 0 <= i < g.players.len() && i != w implies (
            #[trigger] g.players[i]).folded by {
                if i != s {
                    assert(t.players@[i].folded);
                }
            }
        }
        if lone {
            assert(g.players[s].folded);
            assert forall|i: int| 0 <= i < t.players@.len() && i != w && i != s implies (
            #[trigger] t.players@[i]).folded by {
                assert(g.players[i].folded);
            }
        }
    }
    assert(u.hand().players == u.players@);
    lemma_one_left(g.players, w);
    match action {
        Action::Fold => {
            check_and_fold_are_free(p, bet, h.last_raise_size, bb);
        },
        Action::Check => {
            check_and_fold_are_free(p, bet, h.last_raise_size, bb);
        },
        Action::Call => {
            call_matches_the_bet(p, bet, h.last_raise_size, bb);
            let i = choose|i: int|
                0 <= i < t.players@.len() && (#[trigger] t.players@[i]).bet_this_round == bet;
            assert(q.bet_this_round <= t.players@[i].bet_this_round);
        },
        Action::Bet(x) => {
            bet_opens_the_betting(p, x, bet, h.last_raise_size, bb);
        },
        Action::Raise(x) => {
            raise_goes_on_top_of_the_bet(p, x, bet, h.last_raise_size, bb);
            if bet != 0 {
                let i = choose|i: int|
                    0 <= i < t.players@.len() && (#[trigger] t.players@[i]).bet_this_round == bet;
                assert(t.players@[i].bet_this_round + x == q.bet_this_round);
            }
        },
        Action::AllIn => {
            all_in_bets_the_stack(p, bet, h.last_raise_size, bb);
        },
    }
    if alone {
        assert(q.stack == p.stack);
        let n = u.hand();
        assert forall|i: int| 0 <= i < h.players.len() && i != w implies (
        #[trigger] n.players[i]).stack == h.players[i].stack by {
            assert(n.players[i].stack == g.players[i].stack);
        }
        last_player_standing_takes_the_pot(
            g,
            w,
            t.config.rake_bps,
            t.config.jackpot_rake_share_bps,
            now,
        );
    }
}

/// The number of an action is one more than that of the last, from one on, and after the last number
/// there is comes zero.
pub proof fn action_numbers_count_up(st: ContractView, table_id: u32, player: Address, seq: u32)
    ensures
        ({
            let k = SeatKey { table_id, player };
            let last = if st.counters.contains_key(k) {
                st.counters[k] as int
            } else {
                0
            };
            st.seq_due(table_id, player, seq) <==> seq == (if last == u32::MAX {
                0
            } else {
                last + 1
            })
        }),
{
}

/// An action is taken when the table is open and betting with one board to come, the number of the
/// action is due and the hand accepts it, unless it would raise a straddle that its own seat may not
/// raise; and every such action is.
pub proof fn actions_need_an_open_table(
    st: ContractView,
    table_id: u32,
    player: Address,
    seat: Option<u32>,
    seq: u32,
    action: Action,
)
    requires
        st.wf(),
    ensures
        st.action_refusal(table_id, player, seat, seq, action) is None <==> {
            let t = st.tables[table_id];
            &&& !(st.paused.contains_key(table_id) && st.paused[table_id])
            &&& st.tables.contains_key(table_id)
            &&& st.seq_due(table_id, player, seq)
            &&& t.phase is Preflop || t.phase is Flop || t.phase is Turn || t.phase is River
            &&& !(t.rit_state is Some && (t.rit_state->0).active)
            &&& action_result(t, seat, action) is Ok
            &&& !st.reraise_barred(table_id, seat, action)
        },
        st.reraise_barred(table_id, seat, action) ==> {
            &&& action is Raise || action is AllIn
            &&& st.active_straddles.contains_key(table_id)
            &&& !st.active_straddles[table_id].allow_reraise
            &&& st.tables[table_id].phase is Preflop
            &&& seat == Some(st.active_straddles[table_id].seat)
        },
        st.active_straddles.contains_key(table_id) && st.active_straddles[table_id].allow_reraise
            ==> !st.reraise_barred(table_id, seat, action),
{
}

/// A hand starts at an open table between hands, with enough players, and not in a break; and then
/// it does.
pub proof fn hands_start_between_hands(st: ContractView, table_id: u32, timestamp: u64)
    requires
        st.wf(),
    ensures
        st.start_refusal(table_id, timestamp) is None <==> {
            let t = st.tables[table_id];
            let l = t.config.blinds_schedule.levels@[t.current_blind_level as int];
            &&& !(st.paused.contains_key(table_id) && st.paused[table_id])
            &&& st.tables.contains_key(table_id)
            &&& t.phase is Waiting || t.phase is Settlement
            &&& t.players@.len() >= t.config.min_players
            &&& !(t.current_blind_level + 1 < t.config.blinds_schedule.levels@.len()
                && l.duration_seconds > 0 && t.level_started_at + l.duration_seconds <= timestamp
                < t.level_started_at + l.duration_seconds + l.break_seconds)
        },
{
}

/// What a new hand costs whom, where nobody straddles: everyone owes the ante, the seat left of the
/// button the small blind and the next seat the big blind as well, and each pays that or all they
/// have. The pot is what they have paid. The button has moved one seat to the left, the hand has the
/// next number and a session of its own, and the committee deals.
#[verifier::rlimit(30)]
pub proof fn starting_a_hand_posts_the_blinds(
    st: ContractView,
    next: ContractView,
    table_id: u32,
    now: u32,
    timestamp: u64,
    i: int,
    other: u32,
)
    requires
        st.wf(),
        st.start_refusal(table_id, timestamp) is None,
        st.tables.contains_key(table_id),
        start_fits(st.tables[table_id]),
        st.started(next, table_id, now, timestamp),
        !st.straddles.contains_key(table_id),
        0 <= i < st.tables[table_id].players@.len(),
        other != table_id,
    ensures
        ({
            let t = st.tables[table_id];
            let u = next.tables[table_id];
            let n = t.players@.len() as int;
            let level = u.config.blinds_schedule.levels@[u.current_blind_level as int];
            let button = u.dealer_seat as int;
            let owed = ante_amount(level) + (if i == left_of(n, button) {
                level.small_blind as int
            } else if i == left_of(n, left_of(n, button)) {
                level.big_blind as int
            } else {
                0
            });
            let (p, q) = (t.players@[i], u.players@[i]);
            &&& u.players@.len() == t.players@.len()
            &&& button == left_of(n, t.dealer_seat as int)
            &&& q.committed == if p.stack < owed {
                p.stack as int
            } else {
                owed
            }
            &&& q.stack == p.stack - q.committed
            &&& q.all_in <==> p.stack < owed
            &&& !q.folded && q.address == p.address
            &&& u.hand_number == t.hand_number + 1
            &&& u.phase is Dealing
            &&& u.board_cards@.len() == 0 && u.dealt_indices@.len() == 0
            &&& u.session_id == session_id(t.id, u.hand_number)
            &&& u.rake_balance == t.rake_balance && u.jackpot_balance == t.jackpot_balance
            &&& u.last_raise_size == level.big_blind
            &&& next.tables[other] == st.tables[other]
        }),
{
    let t = st.tables[table_id];
    let u = next.tables[table_id];
    assert(table_wf(t));
    let t0 = TableState { settlement_entered_ledger: 0, ..t };
    let t1 = TableState { session_id: t.session_id, ..u };
    let n = t.players@.len() as int;
    let levels = t.config.blinds_schedule.levels@;
    let k = level_at(levels, t.current_blind_level, t.level_started_at, timestamp);
    assert(st.next_straddle(table_id, timestamp) is None);
    hands_start_afresh(t0, t1, None, now, timestamp);
    assert(u.current_blind_level == k);
    assert(level_valid(levels[k], k == levels.len() - 1));
    assert(0 <= ante_amount(levels[k])) by {
        if let AnteMode::Percentage(p) = levels[k].ante {
            assert(levels[k].big_blind * p >= 0) by (nonlinear_arith)
                requires
                    levels[k].big_blind >= 0,
                    p >= 0,
            ;
        }
    }
    assert forall|j: int| 0 <= j < t.players@.len() implies (#[trigger] t.players@[j]).stack
        >= 0 by {
        assert(t.hand().players[j].stack >= 0);
    }
    blinds_are_left_of_the_button(t.players@, t.dealer_seat as int, levels[k], i);
    let (ps, pot, button) = new_hand(t.players@, t.dealer_seat as int, levels[k]);
    assert(u.players@ == ps);
}

/// A deal opens the first betting round: the hands are committed to, no chips move, the first to act
/// sits left of the straddle or else of the big blind, and has the time of the street to act.
pub proof fn dealing_opens_the_betting(
    st: ContractView,
    table_id: u32,
    deck_root: Bytes32,
    hand_commitments: Vec<Bytes32>,
    dealt_indices: Vec<u32>,
    now: u32,
)
    requires
        st.wf(),
        st.tables.contains_key(table_id),
        st.tables[table_id].players@.len() >= 2,
        turns_fit(st.tables[table_id].config, now),
        st.active_straddles.contains_key(table_id) ==> st.active_straddles[table_id].seat
            < st.tables[table_id].players@.len(),
    ensures
        ({
            let t = st.tables[table_id];
            let u = st.dealt(
                table_id,
                deck_root,
                hand_commitments,
                dealt_indices,
                now,
            ).tables[table_id];
            let n = t.players@.len() as int;
            &&& u.phase is Preflop
            &&& u.players == t.players && u.pot == t.pot && u.board_cards == t.board_cards
            &&& u.deck_root == deck_root && u.hand_commitments == hand_commitments
                && u.dealt_indices == dealt_indices
            &&& u.current_turn == (if st.active_straddles.contains_key(table_id) {
                left_of(n, st.active_straddles[table_id].seat as int)
            } else {
                left_of(n, left_of(n, left_of(n, t.dealer_seat as int)))
            })
            &&& u.action_deadline == now + t.config.turn_ledgers(GamePhase::Preflop)
            &&& u.last_action_ledger == now
        }),
{
    let t = st.tables[table_id];
    assert(table_wf(t));
    let seat = if st.active_straddles.contains_key(table_id) {
        Some(st.active_straddles[table_id].seat)
    } else {
        None
    };
    first_to_act_is_left_of_the_blinds(t, seat);
}

/// A showdown of one board that is taken, seen on the stacks of the table. The winner and the ties
/// are those of the proof's public inputs: two of them who have put in the same gain the same up to
/// the odd chips, and a player who is neither gains nothing where one of them has put in as much.
pub proof fn proved_ties_share_the_pot(
    st: ContractView,
    n: ContractView,
    table_id: u32,
    by_committee: bool,
    hole_cards: Seq<(u32, u32)>,
    public_inputs: Seq<u8>,
    o: ShowdownResult,
    now: u32,
    a: int,
    b: int,
)
    requires
        st.wf(),
        st.tables.contains_key(table_id),
        st.tables[table_id].phase is Showdown,
        st.showdown_refused(table_id, by_committee, hole_cards, public_inputs, true) is None,
        st.shown(n, table_id, public_inputs, Seq::empty(), o, now),
        0 <= a < st.tables[table_id].players@.len(),
        0 <= b < st.tables[table_id].players@.len(),
        !st.tables[table_id].players@[a].folded,
        ({
            let ties = be_u32(public_inputs, 860) as u32;
            a == be_u32(public_inputs, 828) || (a < 32 && (ties >> (a as u32)) & 1u32 == 1u32)
        }),
    ensures
        ({
            let t = st.tables[table_id];
            let u = n.tables[table_id];
            let ties = be_u32(public_inputs, 860) as u32;
            let size = t.players@.len();
            let (p, q) = (t.players@[a], t.players@[b]);
            let gain_a = u.players@[a].stack - p.stack;
            let gain_b = u.players@[b].stack - q.stack;
            let b_ties = b == be_u32(public_inputs, 828) || (b < 32 && (ties >> (b as u32)) & 1u32
                == 1u32);
            let rake = u.rake_balance + u.jackpot_balance - t.rake_balance - t.jackpot_balance;
            &&& by_committee
            &&& u.pot == 0 && u.phase is Settlement
            &&& gain_a >= 0 && gain_b >= 0
            &&& b_ties && !q.folded && q.committed == p.committed ==> -(size * size) <= gain_a
                - gain_b <= size * size
            &&& b_ties && !q.folded && (forall|i: int|
                0 <= i < size && !(#[trigger] t.players@[i]).folded ==> t.players@[i].committed
                    == p.committed) ==> -size < gain_a - gain_b < size
            &&& !b_ties && q.committed <= p.committed ==> gain_b == 0
            &&& 10_000 * rake <= t.pot * t.config.rake_bps < 10_000 * (rake + size)
        }),
{
    let t = st.tables[table_id];
    let u = n.tables[table_id];
    assert(table_wf(t));
    showdowns_are_proved(t, by_committee, hole_cards, public_inputs, true);
    lemma_word_fits(public_inputs, 828);
    lemma_word_fits(public_inputs, 860);
    ties_share_the_pot(
        t,
        u,
        o.winner_index,
        o.tie_mask,
        Seq::empty(),
        now,
        a,
        b,
    );
}

proof fn lemma_word_fits(s: Seq<u8>, at: int)
    ensures
        0 <= be_u32(s, at) <= u32::MAX,
{
}

/// A showdown of one board without a tie that is taken, seen on the stacks of the table: the proved
/// winner, whom nobody still in the hand has outbid, gains the pot less the rake, and nobody else
/// gains or loses anything. The hand goes into the history with its pot and its rake.
#[verifier::rlimit(30)]
pub proof fn proved_winner_gains_the_pot(
    st: ContractView,
    n: ContractView,
    table_id: u32,
    by_committee: bool,
    hole_cards: Seq<(u32, u32)>,
    public_inputs: Seq<u8>,
    o: ShowdownResult,
    now: u32,
    other: int,
)
    requires
        st.wf(),
        st.tables.contains_key(table_id),
        st.tables[table_id].phase is Showdown,
        st.showdown_refused(table_id, by_committee, hole_cards, public_inputs, true) is None,
        st.shown(n, table_id, public_inputs, Seq::empty(), o, now),
        0 <= other < st.tables[table_id].players@.len(),
        other != be_u32(public_inputs, 828),
        forall|i: int|
            0 <= i < st.tables[table_id].players@.len() && !(
            #[trigger] st.tables[table_id].players@[i]).folded
                ==> st.tables[table_id].players@[i].committed
                <= st.tables[table_id].players@[be_u32(public_inputs, 828)].committed,
        forall|s: u32|
            s < 32 && s < st.tables[table_id].players@.len() && s != be_u32(public_inputs, 828)
                ==> #[trigger] (be_u32(public_inputs, 860) as u32 >> s) & 1u32 != 1u32,
    ensures
        ({
            let t = st.tables[table_id];
            let u = n.tables[table_id];
            let w = be_u32(public_inputs, 828);
            let r = n.history.hands(table_id)[0];
            let rake = u.rake_balance + u.jackpot_balance - t.rake_balance - t.jackpot_balance;
            &&& u.players@[w].stack == t.players@[w].stack + t.pot - rake
            &&& u.players@[other].stack == t.players@[other].stack
            &&& 10_000 * rake <= t.pot * t.config.rake_bps < 10_000 * (rake + t.players@.len())
            &&& u.pot == 0 && u.phase is Settlement
            &&& r.hand_number == t.hand_number && r.total_pot == t.pot && r.rake == rake
                && r.showdown && r.settled_ledger == now
        }),
{
    let t = st.tables[table_id];
    let u = n.tables[table_id];
    assert(table_wf(t));
    showdowns_are_proved(t, by_committee, hole_cards, public_inputs, true);
    lemma_word_fits(public_inputs, 828);
    lemma_word_fits(public_inputs, 860);
    let named = named_by(t, o.winner_index, o.tie_mask);
    let all = rake_above(t.players@, t.pot as int, t.config.rake_bps, -1);
    archive_keeps_newest(
        st.history,
        table_id,
        record_of(
            u,
            payouts_of(t.hand(), named, t.config.rake_bps),
            t.pot,
            all as i128,
            true,
            now,
        ),
    );
    showdown_conserves_chips(
        t.hand(),
        named,
        t.config.rake_bps,
        t.config.jackpot_rake_share_bps,
        now,
        o.winner_index as int,
    );
    bad_beats_are_strong_losing_hands(
        t.players@,
        named,
        Seq::empty(),
        bad_beat_threshold(t.config),
        0,
    );
    let ties = be_u32(public_inputs, 860) as u32;
    assert(ties == o.tie_mask);
    assert forall|s: u32| s < 32 && s < t.players@.len() && s != o.winner_index implies (
    #[trigger] (o.tie_mask >> s)) & 1u32 != 1u32 by {
        assert((be_u32(public_inputs, 860) as u32 >> s) & 1u32 != 1u32);
    }
    sole_winner_gains_the_pot(
        t,
        u,
        o.winner_index,
        o.tie_mask,
        Seq::empty(),
        now,
        other,
    );
}

/// A hand that cannot start is refused for a reason.
pub proof fn starts_are_refused_for_a_reason(
    st: ContractView,
    table_id: u32,
    timestamp: u64,
)
    ensures
        ({
            let r = st.start_refusal(table_id, timestamp);
            let t = st.tables[table_id];
            &&& r == Some(PokerTableError::ContractPaused)
                ==> st.paused.contains_key(table_id) && st.paused[table_id]
            &&& r == Some(PokerTableError::TableNotFound) ==> !st.tables.contains_key(table_id)
            &&& r == Some(PokerTableError::HandAlreadyInProgress)
                ==> !(t.phase is Waiting || t.phase is Settlement)
            &&& r == Some(PokerTableError::NotEnoughPlayers)
                ==> t.players@.len() < t.config.min_players
            &&& r == Some(PokerTableError::TimeoutNotReached) ==> t.level_started_at <= timestamp
        }),
{
}

/// An action that cannot be taken is refused for a reason: the table is closed to it, its number is not
/// due, players do not bet, it is not the player's turn, or the betting does not allow it.
pub proof fn actions_are_refused_for_a_reason(
    st: ContractView,
    table_id: u32,
    player: Address,
    seat: Option<u32>,
    seq: u32,
    action: Action,
)
    requires
        st.wf(),
    ensures
        ({
            let r = st.action_refusal(table_id, player, seat, seq, action);
            let t = st.tables[table_id];
            &&& r == Some(PokerTableError::ContractPaused)
                ==> st.paused.contains_key(table_id) && st.paused[table_id]
            &&& r == Some(PokerTableError::StaleActionSequence)
                ==> !st.seq_due(table_id, player, seq)
            &&& r == Some(PokerTableError::TableNotFound) ==> !st.tables.contains_key(table_id)
            &&& r == Some(PokerTableError::NotInBettingPhase)
                ==> !(t.phase is Preflop || t.phase is Flop || t.phase is Turn
                || t.phase is River) || (t.rit_state is Some && (t.rit_state->0).active)
            &&& r == Some(PokerTableError::PlayerNotAtTable) ==> seat is None
            &&& r == Some(PokerTableError::NotYourTurn)
                ==> seat is Some && seat->0 != t.current_turn
            &&& r == Some(PokerTableError::PlayerAlreadyFolded)
                ==> t.players@[t.current_turn as int].folded
            &&& r == Some(PokerTableError::PlayerAlreadyAllIn)
                ==> t.players@[t.current_turn as int].all_in
            &&& r == Some(PokerTableError::MustCallOrFold) ==> action is Check
            &&& r == Some(PokerTableError::NothingToCall) ==> action is Call
            &&& r == Some(PokerTableError::CannotBetWhenOutstandingBet) ==> action is Bet
            &&& r == Some(PokerTableError::BetTooSmall) ==> action is Bet
            &&& r == Some(PokerTableError::RaiseTooSmall) ==> (
            action matches Action::Raise(x) && x < t.last_raise_size)
            &&& r == Some(PokerTableError::NotEnoughChips)
                ==> action is Bet || action is Raise || action is AllIn
            &&& r == Some(PokerTableError::InvalidAction)
                ==> st.reraise_barred(table_id, seat, action)
        }),
{
}

/// What a straddle costs when a hand starts: the straddler pays its amount on top of the blinds, or all
/// that is left, into the pot, and everyone else pays what they owe without it. The straddle is on
/// record with what was paid, and a volunteer has to volunteer anew for the next hand.
#[verifier::rlimit(30)]
pub proof fn starting_a_hand_posts_the_straddle(
    st: ContractView,
    next: ContractView,
    table_id: u32,
    now: u32,
    timestamp: u64,
    seat: int,
    amount: int,
    i: int,
)
    requires
        st.wf(),
        st.start_refusal(table_id, timestamp) is None,
        st.tables.contains_key(table_id),
        start_fits(st.tables[table_id]),
        st.started(next, table_id, now, timestamp),
        st.next_straddle(table_id, timestamp) == Some((seat, amount)),
        0 <= seat < st.tables[table_id].players@.len(),
        0 <= amount <= i128::MAX,
        0 <= i < st.tables[table_id].players@.len(),
    ensures
        ({
            let t = st.tables[table_id];
            let u = next.tables[table_id];
            let (ps, pot, _) = new_hand(
                t.players@,
                t.dealer_seat as int,
                t.config.blinds_schedule.levels@[u.current_blind_level as int],
            );
            let paid = u.pot - pot;
            let a = next.active_straddles[table_id];
            &&& paid == amount || (paid == ps[seat].stack && paid < amount)
            &&& u.players@[seat].stack == ps[seat].stack - paid
            &&& u.players@[seat].bet_this_round == ps[seat].bet_this_round + paid
            &&& u.players@[seat].committed == ps[seat].committed + paid
            &&& i != seat ==> u.players@[i] == ps[i]
            &&& next.active_straddles.contains_key(table_id)
            &&& a.seat == seat && a.amount == paid
            &&& a.position == st.straddles[table_id].position
            &&& !st.volunteers.contains_key(table_id) ==> a.live_only
                == st.straddles[table_id].live_only && a.allow_reraise
                == st.straddles[table_id].allow_reraise
            &&& st.volunteers.contains_key(table_id) && (a.position is Mississippi
                || a.position is Any) ==> a.live_only == st.volunteers[table_id].live_only
                && a.allow_reraise == st.volunteers[table_id].allow_reraise
            &&& !next.volunteers.contains_key(table_id)
        }),
{
    let t = st.tables[table_id];
    let u = next.tables[table_id];
    assert(table_wf(t));
    let t0 = TableState { settlement_entered_ledger: 0, ..t };
    let t1 = TableState { session_id: t.session_id, ..u };
    let levels = t.config.blinds_schedule.levels@;
    let k = level_at(levels, t.current_blind_level, t.level_started_at, timestamp);
    hands_start_afresh(t0, t1, Some((seat, amount)), now, timestamp);
    assert(u.current_blind_level == k);
    assert(level_valid(levels[k], k == levels.len() - 1));
    assert(0 <= ante_amount(levels[k])) by {
        if let AnteMode::Percentage(p) = levels[k].ante {
            assert(levels[k].big_blind * p >= 0) by (nonlinear_arith)
                requires
                    levels[k].big_blind >= 0,
                    p >= 0,
            ;
        }
    }
    assert forall|j: int| 0 <= j < t.players@.len() implies (#[trigger] t.players@[j]).stack
        >= 0 by {
        assert(t.hand().players[j].stack >= 0);
    }
    blinds_are_left_of_the_button(t.players@, t.dealer_seat as int, levels[k], seat);
    let (ps, pot, _) = new_hand(t.players@, t.dealer_seat as int, levels[k]);
    straddle_is_paid_by_its_seat(ps, pot, seat, amount);
}

/// A hand that is won by folding goes into the history first, with the winner, what they were paid, the
/// pot and the rake, and as a hand without a showdown; while nobody has won, nothing goes in.
pub proof fn fold_wins_go_into_the_history(
    st: ContractView,
    u: TableState,
    win: FoldWin,
    now: u32,
)
    requires
        st.wf(),
        win.seat < u.players@.len(),
    ensures
        st.history_with(u, None, now) == st.history,
        ({
            let r = st.history_with(u, Some(win), now).hands(u.id)[0];
            &&& r.hand_number == u.hand_number
            &&& r.payouts.len() == 1 && r.payouts[0].seat == win.seat && r.payouts[0].amount
                == win.amount && r.payouts[0].address == u.players@[win.seat as int].address
            &&& r.total_pot == win.total_pot && r.rake == win.rake
            &&& !r.showdown && r.settled_ledger == now
        }),
{
    let record = record_of(
        u,
        seq![(win.seat, win.amount)],
        win.total_pot,
        win.rake,
        false,
        now,
    );
    archive_keeps_newest(st.history, u.id, record);
}

/// A straddle that may not be raised again bars its own seat from raising or going all in before the
/// flop, in its turn, as long as nobody has bet more; and it bars nothing else.
pub proof fn straddles_bar_their_own_raise(
    st: ContractView,
    table_id: u32,
    seat: Option<u32>,
    action: Action,
)
    requires
        st.wf(),
        st.tables.contains_key(table_id),
        st.tables[table_id].phase is Preflop,
        seat is Some,
        seat->0 == st.tables[table_id].current_turn,
        seat->0 < st.tables[table_id].players@.len(),
        !st.tables[table_id].players@[seat->0 as int].folded,
        !st.tables[table_id].players@[seat->0 as int].all_in,
    ensures
        st.reraise_barred(table_id, seat, action) <==> {
            let t = st.tables[table_id];
            let a = st.active_straddles[table_id];
            &&& action is Raise || action is AllIn
            &&& st.active_straddles.contains_key(table_id)
            &&& a.seat == seat->0
            &&& !a.allow_reraise
            &&& forall|i: int|
                0 <= i < t.players@.len() ==> (#[trigger] t.players@[i]).bet_this_round
                    <= t.players@[a.seat as int].bet_this_round
        },
{
    let t = st.tables[table_id];
    assert(table_wf(t));
    assert forall|i: int| 0 <= i < t.players@.len() implies (
    #[trigger] t.players@[i]).bet_this_round >= 0 by {
        assert(t.hand().players[i].bet_this_round >= 0);
    }
    bet_to_match_is_the_highest(t.players@);
    let s = seat->0 as int;
    let bet = highest_bet(t.players@);
    if forall|i: int|
        0 <= i < t.players@.len() ==> (#[trigger] t.players@[i]).bet_this_round
            <= t.players@[s].bet_this_round {
        if bet != 0 {
            let i = choose|i: int|
                0 <= i < t.players@.len() && (#[trigger] t.players@[i]).bet_this_round == bet;
            assert(t.players@[i].bet_this_round <= t.players@[s].bet_this_round);
        }
    }
}

/// Storing a table leaves all others as they are.
pub proof fn tables_are_separate(st: ContractView, table_id: u32, t: TableState, other: u32)
    requires
        other != table_id,
    ensures
        st.with_table(table_id, t).tables[table_id] == t,
        st.with_table(table_id, t).tables.contains_key(other) == st.tables.contains_key(other),
        st.with_table(table_id, t).tables[other] == st.tables[other],
        st.with_table(table_id, t).queues == st.queues,
        st.with_table(table_id, t).counters == st.counters,
{
}

} // verus!
