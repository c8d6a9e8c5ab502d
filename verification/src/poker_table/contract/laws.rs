//! What holds of hands and tables over many calls.

use super::jackpot::HandClaim;
use super::lobby::{indexed, unindexed};
use super::{table_wf, ContractView};
use crate::assoc::value_or;
use crate::host::{Address, Bytes32};
use crate::poker_table::multi_currency::Rate;
use crate::poker_table::betting::{action_result, highest_bet, phase_after, round_complete};
use crate::poker_table::game::{
    can_act, count_active, lemma_stack_bounds, lemma_stack_update, next_turn, stack_of, turn_after,
    Hand,
};
use crate::poker_table::seating::{level_valid, seated, without_marked};
use crate::poker_table::types::{Action, PlayerState, PokerTableError, TableState};
use crate::seqs::{lemma_with_member, lemma_without, sum_by, with_member, without};
use vstd::prelude::*;

verus! {

/// How many players can still act.
pub open spec fn able_count(players: Seq<PlayerState>) -> nat
    decreases players.len(),
{
    if players.len() == 0 {
        0
    } else {
        able_count(players.drop_last()) + if can_act(players.last()) {
            1nat
        } else {
            0
        }
    }
}

/// Whether a player has yet to match a bet.
pub open spec fn unmatched(p: PlayerState, bet: int) -> bool {
    can_act(p) && p.bet_this_round != bet
}

/// Whether one of the next `left` seats, from `seat` on, has yet to match a bet.
pub open spec fn due_within(players: Seq<PlayerState>, bet: int, seat: int, left: nat) -> bool
    decreases left,
{
    left > 0 && (unmatched(players[seat], bet) || due_within(
        players,
        bet,
        (seat + 1) % (players.len() as int),
        (left - 1) as nat,
    ))
}

/// How many seats, from `seat` on, come before the first that has yet to match a bet.
pub open spec fn seats_before_due(players: Seq<PlayerState>, bet: int, seat: int, left: nat) -> nat
    decreases left,
{
    if left == 0 || unmatched(players[seat], bet) {
        0
    } else {
        1 + seats_before_due(players, bet, (seat + 1) % (players.len() as int), (left - 1) as nat)
    }
}

proof fn lemma_due_exists(players: Seq<PlayerState>, bet: int, seat: int, target: int, left: nat)
    requires
        0 <= seat < players.len(),
        0 <= target < players.len(),
        unmatched(players[target], bet),
        left > (if target >= seat {
            target - seat
        } else {
            target + players.len() - seat
        }),
    ensures
        due_within(players, bet, seat, left),
    decreases left,
{
    if target != seat {
        let n = players.len() as int;
        let s = if seat + 1 == n {
            0
        } else {
            seat + 1
        };
        assert((seat + 1) % n == s) by {
            if seat + 1 == n {
                vstd::arithmetic::div_mod::lemma_mod_self_0(n);
            } else {
                vstd::arithmetic::div_mod::lemma_small_mod((seat + 1) as nat, n as nat);
            }
        }
        lemma_due_exists(players, bet, s, target, (left - 1) as nat);
    }
}

proof fn lemma_more_room(players: Seq<PlayerState>, bet: int, seat: int, left: nat, more: nat)
    requires
        due_within(players, bet, seat, left),
        left <= more,
    ensures
        seats_before_due(players, bet, seat, more) == seats_before_due(players, bet, seat, left),
        next_turn(players, seat, more) == next_turn(players, seat, left),
    decreases left,
{
    if !unmatched(players[seat], bet) {
        lemma_more_room(
            players,
            bet,
            (seat + 1) % (players.len() as int),
            (left - 1) as nat,
            (more - 1) as nat,
        );
    }
}

proof fn lemma_turn_reaches_due(players: Seq<PlayerState>, bet: int, seat: int, left: nat, room: nat)
    requires
        0 <= seat < players.len(),
        due_within(players, bet, seat, left),
        left <= room,
    ensures
        ({
            let y = next_turn(players, seat, left);
            &&& 0 <= y < players.len()
            &&& seats_before_due(players, bet, y, room) <= seats_before_due(
                players,
                bet,
                seat,
                left,
            )
        }),
    decreases left,
{
    if can_act(players[seat]) {
        lemma_more_room(players, bet, seat, left, room);
    } else {
        lemma_turn_reaches_due(
            players,
            bet,
            (seat + 1) % (players.len() as int),
            (left - 1) as nat,
            room,
        );
    }
}

/// Where somebody has yet to match the bet, passing the turn on brings it closer to them.
proof fn lemma_turn_comes_closer(players: Seq<PlayerState>, bet: int, seat: int, target: int)
    requires
        0 <= seat < players.len(),
        0 <= target < players.len(),
        unmatched(players[target], bet),
        !unmatched(players[seat], bet),
    ensures
        seats_before_due(players, bet, turn_after(players, seat), players.len())
            < seats_before_due(players, bet, seat, players.len()),
{
    let n = players.len();
    lemma_due_exists(players, bet, seat, target, n);
    let s = (seat + 1) % (n as int);
    assert(due_within(players, bet, s, (n - 1) as nat));
    lemma_turn_reaches_due(players, bet, s, (n - 1) as nat, n);
    lemma_more_room(players, bet, s, (n - 1) as nat, n);
}

proof fn lemma_able_update(players: Seq<PlayerState>, i: int, p: PlayerState)
    requires
        0 <= i < players.len(),
    ensures
        able_count(players.update(i, p)) == able_count(players) - (if can_act(players[i]) {
            1int
        } else {
            0
        }) + (if can_act(p) {
            1int
        } else {
            0
        }),
    decreases players.len(),
{
    let d = players.drop_last();
    let u = players.update(i, p);
    if i == players.len() - 1 {
        assert(u.drop_last() =~= d);
    } else {
        assert(u.drop_last() =~= d.update(i, p));
        lemma_able_update(d, i, p);
    }
}

/// The hand after an action and what follows from it.
pub open spec fn hand_after(t: TableState, seat: u32, action: Action, now: u32) -> Hand {
    t.hand().with_action_taken(
        seat as int,
        action,
        action_result(t, Some(seat), action)->Ok_0,
    ).moved_on(
        seat as int,
        t.config.rake_bps,
        t.config.jackpot_rake_share_bps,
        t.config.turn_ledgers(t.phase),
        now,
    )
}

/// A betting round comes to an end: every action that is accepted ends the round, or takes chips
/// out of the stacks, or leaves fewer players who can act, or else brings the turn closer to a
/// player who has yet to match the bet.
pub proof fn betting_comes_to_an_end(t: TableState, seat: u32, action: Action, now: u32)
    requires
        table_wf(t),
        t.phase.betting(),
        action_result(t, Some(seat), action) is Ok,
    ensures
        ({
            let h = t.hand();
            let n = hand_after(t, seat, action, now);
            let size = h.players.len();
            ||| n.phase != h.phase
            ||| sum_by(n.players, stack_of()) < sum_by(h.players, stack_of())
            ||| sum_by(n.players, stack_of()) == sum_by(h.players, stack_of()) && able_count(
                n.players,
            ) < able_count(h.players)
            ||| n.players == h.players && seats_before_due(
                n.players,
                highest_bet(n.players),
                n.current_turn as int,
                size,
            ) < seats_before_due(
                h.players,
                highest_bet(h.players),
                h.current_turn as int,
                size,
            )
        }),
{
    let h = t.hand();
    let s = seat as int;
    let p = h.players[s];
    let outcome = action_result(t, Some(seat), action)->Ok_0;
    let g = h.with_action_taken(s, action, outcome);
    let q = outcome.0;
    let n = hand_after(t, seat, action, now);
    let levels = t.config.blinds_schedule.levels@;
    assert(level_valid(
        levels[t.current_blind_level as int],
        t.current_blind_level == levels.len() - 1,
    ));
    lemma_stack_update(h.players, s, q);
    lemma_able_update(h.players, s, q);
    lemma_stack_bounds(h.players, s);
    lemma_highest(h.players, s);
    if n.phase == h.phase {
        assert(n.players == g.players);
        assert(!round_complete(g.players));
        if action is Check {
            assert(g.players =~= h.players);
            let target = choose|i: int|
                0 <= i < g.players.len() && can_act(#[trigger] g.players[i])
                    && g.players[i].bet_this_round != highest_bet(g.players);
            lemma_turn_comes_closer(h.players, highest_bet(h.players), s, target);
            lemma_turn_in_range(h.players, s);
        }
    }
}

proof fn lemma_turn_in_range(players: Seq<PlayerState>, seat: int)
    requires
        0 <= seat < players.len(),
        players.len() <= u32::MAX,
    ensures
        0 <= turn_after(players, seat) < players.len(),
{
    lemma_next_in_range(players, (seat + 1) % (players.len() as int), players.len());
}

proof fn lemma_next_in_range(players: Seq<PlayerState>, seat: int, left: nat)
    requires
        0 <= seat < players.len(),
    ensures
        0 <= next_turn(players, seat, left) < players.len(),
    decreases left,
{
    if left > 0 && !can_act(players[seat]) {
        lemma_next_in_range(players, (seat + 1) % (players.len() as int), (left - 1) as nat);
    }
}

/// No bet is above the highest.
proof fn lemma_highest(players: Seq<PlayerState>, i: int)
    requires
        0 <= i < players.len(),
    ensures
        players[i].bet_this_round <= highest_bet(players),
    decreases players.len(),
{
    if i < players.len() - 1 {
        lemma_highest(players.drop_last(), i);
    }
}

/// A street ends only once every player who can act has matched the bet, or only one player is
/// left; and until then the turn is with a player who can act.
pub proof fn street_ends_when_matched(t: TableState, seat: u32, action: Action, now: u32)
    requires
        table_wf(t),
        t.phase.betting(),
        action_result(t, Some(seat), action) is Ok,
    ensures
        ({
            let g = t.hand().with_action_taken(
                seat as int,
                action,
                action_result(t, Some(seat), action)->Ok_0,
            );
            let n = hand_after(t, seat, action, now);
            &&& n.phase is Settlement <==> count_active(g.players) == 1
            &&& n.phase != t.phase && !(n.phase is Settlement) ==> round_complete(g.players)
                && n.phase == phase_after(t.phase)
            &&& n.phase == t.phase ==> !round_complete(g.players) && n.current_turn
                < n.players.len() && can_act(n.players[n.current_turn as int])
        }),
{
    let s = seat as int;
    let g = t.hand().with_action_taken(
        s,
        action,
        action_result(t, Some(seat), action)->Ok_0,
    );
    let n = hand_after(t, seat, action, now);
    if n.phase == t.phase {
        let target = choose|i: int|
            0 <= i < g.players.len() && can_act(#[trigger] g.players[i])
                && g.players[i].bet_this_round != highest_bet(g.players);
        lemma_turn_in_range(g.players, s);
        lemma_due_exists(
            g.players,
            highest_bet(g.players),
            (s + 1) % (g.players.len() as int),
            target,
            g.players.len(),
        );
        lemma_turn_is_able(
            g.players,
            highest_bet(g.players),
            (s + 1) % (g.players.len() as int),
            g.players.len(),
        );
    }
}

proof fn lemma_turn_is_able(players: Seq<PlayerState>, bet: int, seat: int, left: nat)
    requires
        0 <= seat < players.len(),
        due_within(players, bet, seat, left),
    ensures
        can_act(players[next_turn(players, seat, left)]),
    decreases left,
{
    if !can_act(players[seat]) {
        lemma_turn_is_able(players, bet, (seat + 1) % (players.len() as int), (left - 1) as nat);
    }
}

/// Whether an address has a seat at a table.
pub open spec fn sits_at(st: ContractView, player: Address, table_id: u32) -> bool {
    st.tables.contains_key(table_id) && sits_among(st.tables[table_id].players@, player)
}

/// Whether an address is that of one of the players.
pub open spec fn sits_among(players: Seq<PlayerState>, player: Address) -> bool {
    exists|i: int| 0 <= i < players.len() && (#[trigger] players[i]).address == player
}

/// The index lists for every wallet the tables at which it has a seat, and no others.
pub open spec fn index_is_exact(st: ContractView) -> bool {
    forall|player: Address, table_id: u32| #[trigger]
        st.tables_of(player).contains(table_id) <==> sits_at(st, player, table_id)
}

proof fn lemma_index_joined(
    index: Map<Address, Seq<u32>>,
    player: Address,
    table_id: u32,
    other: Address,
    id: u32,
)
    ensures
        value_or(indexed(index, player, table_id), other, Seq::empty()).contains(id) <==> value_or(
            index,
            other,
            Seq::empty(),
        ).contains(id) || (other == player && id == table_id),
{
    lemma_with_member(value_or(index, player, Seq::empty()), table_id);
    if other == player {
        assert(with_member(value_or(index, player, Seq::empty()), table_id).contains(id)
            <==> value_or(index, player, Seq::empty()).contains(id) || id == table_id);
    }
}

proof fn lemma_index_left(
    index: Map<Address, Seq<u32>>,
    player: Address,
    table_id: u32,
    other: Address,
    id: u32,
)
    ensures
        value_or(unindexed(index, player, table_id), other, Seq::empty()).contains(id)
            <==> value_or(index, other, Seq::empty()).contains(id) && !(other == player && id
            == table_id),
{
    let list = value_or(index, player, Seq::empty());
    lemma_without(list, table_id);
    assert(without(list, table_id).contains(id) <==> list.contains(id) && id != table_id);
    if without(list, table_id).len() == 0 {
        assert(!without(list, table_id).contains(id));
        assert(!Seq::<u32>::empty().contains(id));
    }
}

proof fn lemma_sits_pushed(players: Seq<PlayerState>, p: PlayerState, a: Address)
    ensures
        sits_among(players.push(p), a) <==> sits_among(players, a) || p.address == a,
{
    let u = players.push(p);
    if sits_among(players, a) {
        let i = choose|i: int| 0 <= i < players.len() && (#[trigger] players[i]).address == a;
        assert(u[i].address == a);
    }
    if p.address == a {
        assert(u[players.len() as int].address == a);
    }
    if sits_among(u, a) {
        let i = choose|i: int| 0 <= i < u.len() && (#[trigger] u[i]).address == a;
        if i < players.len() {
            assert(players[i].address == a);
        }
    }
}

proof fn lemma_sits_kept(players: Seq<PlayerState>, marks: Seq<bool>, player: Address, a: Address)
    requires
        marks.len() == players.len(),
        forall|i: int|
            0 <= i < players.len() ==> (#[trigger] marks[i] <==> players[i].address == player),
    ensures
        sits_among(without_marked(players, marks), a) <==> sits_among(players, a) && a != player,
    decreases players.len(),
{
    if players.len() > 0 {
        let d = players.drop_last();
        let m = marks.drop_last();
        assert forall|i: int| 0 <= i < d.len() implies (#[trigger] m[i] <==> d[i].address
            == player) by {
            assert(m[i] == marks[i]);
        }
        lemma_sits_kept(d, m, player, a);
        assert(marks[marks.len() - 1] <==> players.last().address == player);
        assert(d.push(players.last()) =~= players);
        lemma_sits_pushed(d, players.last(), a);
        let rest = without_marked(d, m);
        lemma_sits_pushed(
            rest,
            PlayerState { seat_index: rest.len() as u32, ..players.last() },
            a,
        );
    }
}

/// The index stays exact when a player joins a table.
pub proof fn joining_keeps_index_exact(
    st: ContractView,
    next: ContractView,
    table_id: u32,
    player: Address,
    buy_in: i128,
    now: u32,
)
    requires
        index_is_exact(st),
        st.tables.contains_key(table_id),
        st.joined(next, table_id, player, buy_in, now),
    ensures
        index_is_exact(next),
{
    let t = st.tables[table_id];
    assert forall|a: Address, id: u32| #[trigger]
        next.tables_of(a).contains(id) <==> sits_at(next, a, id) by {
        assert(st.tables_of(a).contains(id) <==> sits_at(st, a, id));
        if !st.full(table_id) {
            lemma_index_joined(st.player_tables, player, table_id, a, id);
            lemma_sits_pushed(
                t.players@,
                seated(player, buy_in, t.players@.len() as u32),
                a,
            );
        }
    }
}

/// The index stays exact when a player leaves a table, where no other player at the table has the
/// same digest, and the first in the queue is seated.
pub proof fn leaving_keeps_index_exact(
    st: ContractView,
    next: ContractView,
    table_id: u32,
    player: Address,
    marks: Seq<bool>,
)
    requires
        index_is_exact(st),
        st.tables.contains_key(table_id),
        marks.len() == st.tables[table_id].players@.len(),
        forall|i: int|
            0 <= i < marks.len() ==> (#[trigger] marks[i]
                <==> st.tables[table_id].players@[i].address == player),
        st.left(next, table_id, player, marks),
    ensures
        index_is_exact(next),
{
    let t = st.tables[table_id];
    let rest = without_marked(t.players@, marks);
    let queue = st.queue_of(table_id);
    let index = unindexed(st.player_tables, player, table_id);
    assert forall|a: Address, id: u32| #[trigger]
        next.tables_of(a).contains(id) <==> sits_at(next, a, id) by {
        assert(st.tables_of(a).contains(id) <==> sits_at(st, a, id));
        lemma_index_left(st.player_tables, player, table_id, a, id);
        lemma_sits_kept(t.players@, marks, player, a);
        if !(queue.len() == 0 || rest.len() >= t.config.max_players) {
            lemma_index_joined(index, queue[0].player, table_id, a, id);
            lemma_sits_pushed(
                rest,
                seated(queue[0].player, queue[0].buy_in, rest.len() as u32),
                a,
            );
        }
    }
}

/// The players of a queue are seated in the order in which they came: the first is seated and the
/// others move up by one place.
pub proof fn queue_is_served_in_order(
    st: ContractView,
    next: ContractView,
    table_id: u32,
    player: Address,
    marks: Seq<bool>,
    i: int,
)
    requires
        st.left(next, table_id, player, marks),
        st.queue_of(table_id).len() > 0,
        without_marked(st.tables[table_id].players@, marks).len()
            < st.tables[table_id].config.max_players,
        1 <= i < st.queue_of(table_id).len(),
    ensures
        next.tables[table_id].players@.last().address == st.queue_of(table_id)[0].player,
        next.tables[table_id].players@.last().stack == st.queue_of(table_id)[0].buy_in,
        next.queue_of(table_id)[i - 1] == st.queue_of(table_id)[i],
        next.queue_of(table_id).len() == st.queue_of(table_id).len() - 1,
{
}

/// A replayed action is refused: once an action with a number is taken, no other with the same
/// number is.
pub proof fn action_numbers_are_used_once(
    st: ContractView,
    next: ContractView,
    table_id: u32,
    player: Address,
    seat: Option<u32>,
    seq: u32,
    action: Action,
    now: u32,
    other: Action,
    other_seat: Option<u32>,
)
    requires
        st.action_refusal(table_id, player, seat, seq, action) is None,
        st.action_taken(next, table_id, player, seat, seq, action, now),
    ensures
        next.action_refusal(table_id, player, other_seat, seq, other) is Some,
{
    assert(next.last_seq(table_id, player) == seq);
}

/// A paused table refuses its players and its committee whatever they ask for, with the same
/// answer.
pub proof fn paused_table_refuses_play(
    st: ContractView,
    table_id: u32,
    player: Address,
    other: Address,
    amount: i128,
    rate: Rate,
    yes: bool,
    no: bool,
    marks: Seq<bool>,
    place: int,
    seat: Option<u32>,
    target: u32,
    seq: u32,
    action: Action,
    hash: Bytes32,
    cards: Seq<(u32, u32)>,
    inputs: Seq<u8>,
    claim: HandClaim,
    now: u32,
    time: u64,
)
    requires
        st.paused_at(table_id),
    ensures
        ({
            let paused = Some(PokerTableError::ContractPaused);
            &&& st.join_refusal(table_id, player, amount, yes, no) == paused
            &&& st.currency_refusal(table_id, player, other, amount, rate, yes, no) == paused
            &&& st.leave_refusal(table_id, yes) == paused
            &&& st.queue_refusal(table_id, marks) == paused
            &&& st.rebuy_refused(table_id, place, amount) == paused
            &&& st.start_refusal(table_id, time) == paused
            &&& st.deal_refused(table_id, yes, place, no) == paused
            &&& st.action_refusal(table_id, player, seat, seq, action) == paused
            &&& st.commitment_refusal(table_id, seat, place, place) == paused
            &&& st.action_reveal_refusal(table_id, player, seat, seq, action, amount, hash) == paused
            &&& st.choice_refused(table_id, place) == paused
            &&& st.offer_refused(table_id, place) == paused
            &&& st.reveal_refused(table_id, yes, place, place, no) == paused
            &&& st.showdown_refused(table_id, yes, cards, inputs, no) == paused
            &&& st.timeout_result(table_id, now) == Err::<Hand, _>(PokerTableError::ContractPaused)
            &&& st.force_fold_refused(table_id, seat, target, now) == paused
            &&& st.extension_refused(table_id, player, seat, now) == paused
            &&& st.approval_refusal(table_id, yes, no, now) == paused
            &&& st.cancel_refusal(table_id, player) == paused
            &&& st.jackpot_refusal(table_id, place, claim, yes) == paused
            &&& st.sweep_refusal(table_id, now) == paused
            &&& st.reclaim_refusal(table_id, amount, now) == paused
            &&& st.closing_refusal(table_id, time) == paused
            &&& st.volunteer_refusal(table_id, place) == paused
        }),
{
}

} // verus!
