//! Prizes and blinds of a single-table tournament.

use crate::poker_table::types::{PlayerState, TableState};
use vstd::prelude::*;

verus! {

/// The share of a place in the prize pool, in basis points.
pub open spec fn prize_bps(place: int) -> int {
    if place == 0 {
        6000
    } else if place == 1 {
        3000
    } else if place == 2 {
        1000
    } else {
        0
    }
}

/// The prize of a place, counted from zero, rounded down.
pub fn prize_for_place(total_chips: i128, place: usize) -> (r: i128)
    requires
        0 <= total_chips,
        total_chips * 6000 <= i128::MAX,
    ensures
        r == total_chips * prize_bps(place as int) / 10_000,
        place == 0 ==> 5 * r <= 3 * total_chips < 5 * (r + 1),
        place == 1 ==> 10 * r <= 3 * total_chips < 10 * (r + 1),
        place == 2 ==> 10 * r <= total_chips < 10 * (r + 1),
        place > 2 ==> r == 0,
{
    let bps: i128 = if place == 0 {
        6000
    } else if place == 1 {
        3000
    } else if place == 2 {
        1000
    } else {
        0
    };
    total_chips * bps / 10_000
}

/// The seats of the players who have not folded.
pub open spec fn seats_in_hand(players: Seq<PlayerState>) -> Seq<u32>
    decreases players.len(),
{
    if players.len() == 0 {
        Seq::empty()
    } else {
        let rest = seats_in_hand(players.drop_last());
        if players.last().folded {
            rest
        } else {
            rest.push(players.last().seat_index)
        }
    }
}

/// The seats of the players who have not folded.
pub fn active_seats_t(table: &TableState) -> (r: Vec<u32>)
    ensures
        r@ == seats_in_hand(table.players@),
{
    let mut seats: Vec<u32> = Vec::new();
    let mut i: usize = 0;
    while i < table.players.len()
        invariant
            i <= table.players@.len(),
            seats@ == seats_in_hand(table.players@.take(i as int)),
        decreases table.players@.len() - i,
    {
        assert(table.players@.take(i + 1).drop_last() =~= table.players@.take(i as int));
        if !table.players[i].folded {
            seats.push(table.players[i].seat_index);
        }
        i += 1;
    }
    assert(table.players@.take(i as int) =~= table.players@);
    seats
}

/// A range of hands and its blinds.
#[derive(Clone, Copy, Debug, PartialEq, Eq, Structural)]
pub struct BlindRange {
    pub first_hand: u32,
    pub last_hand: u32,
    pub small_blind: i128,
    pub big_blind: i128,
}

/// The first range that a hand falls into, or the last range.
pub open spec fn range_of(schedule: Seq<BlindRange>, hand: u32, from: int) -> BlindRange
    decreases schedule.len() - from,
{
    if from >= schedule.len() {
        schedule.last()
    } else if schedule[from].first_hand <= hand <= schedule[from].last_hand {
        schedule[from]
    } else {
        range_of(schedule, hand, from + 1)
    }
}

/// The blinds of a hand.
pub fn blind_level_for_hand(hand: u32, schedule: &Vec<BlindRange>) -> (r: (i128, i128))
    requires
        schedule@.len() > 0,
    ensures
        r == (range_of(schedule@, hand, 0).small_blind, range_of(schedule@, hand, 0).big_blind),
{
    let mut i: usize = 0;
    while i < schedule.len()
        invariant
            i <= schedule@.len(),
            schedule@.len() > 0,
            range_of(schedule@, hand, i as int) == range_of(schedule@, hand, 0),
        decreases schedule@.len() - i,
    {
        let x = schedule[i];
        if hand >= x.first_hand && hand <= x.last_hand {
            return (x.small_blind, x.big_blind);
        }
        i += 1;
    }
    let x = schedule[schedule.len() - 1];
    (x.small_blind, x.big_blind)
}

/// The prizes of all places are at most the pool, fall short of it by less than one chip for each
/// of the first three places, and never grow from one place to the next.
pub proof fn prizes_share_the_pool(pool: int, place: int)
    requires
        pool >= 0,
        place >= 0,
    ensures
        ({
            let sum = pool * prize_bps(0) / 10_000 + pool * prize_bps(1) / 10_000 + pool
                * prize_bps(2) / 10_000;
            pool - 3 < sum <= pool
        }),
        pool * prize_bps(place) / 10_000 >= pool * prize_bps(place + 1) / 10_000,
{
    let a = prize_bps(place);
    let b = prize_bps(place + 1);
    assert(pool * a >= pool * b) by (nonlinear_arith)
        requires
            a >= b,
            pool >= 0,
    ;
}

/// The winner gets three fifths of the pool, the second three tenths, the third a tenth, with
/// fractions dropped, and the others nothing.
pub proof fn prizes_by_place(pool: int, place: int)
    requires
        pool >= 0,
        place >= 0,
    ensures
        ({
            let prize = pool * prize_bps(place) / 10_000;
            &&& place == 0 ==> 5 * prize <= 3 * pool < 5 * (prize + 1)
            &&& place == 1 ==> 10 * prize <= 3 * pool < 10 * (prize + 1)
            &&& place == 2 ==> 10 * prize <= pool < 10 * (prize + 1)
            &&& place > 2 ==> prize == 0
        }),
{
}

/// The blinds of a hand are those of the first range that the hand is in, and of the last range
/// where it is in none.
pub proof fn blinds_follow_the_schedule(schedule: Seq<BlindRange>, hand: u32, from: int)
    requires
        0 <= from,
        schedule.len() > 0,
    ensures
        (exists|i: int|
            {
                &&& from <= i < schedule.len()
                &&& (#[trigger] schedule[i]).first_hand <= hand <= schedule[i].last_hand
                &&& range_of(schedule, hand, from) == schedule[i]
                &&& forall|j: int|
                    from <= j < i ==> !((#[trigger] schedule[j]).first_hand <= hand
                        <= schedule[j].last_hand)
            }) || (range_of(schedule, hand, from) == schedule[schedule.len() - 1] && forall|j: int|
            from <= j < schedule.len() ==> !((#[trigger] schedule[j]).first_hand <= hand
                <= schedule[j].last_hand)),
    decreases schedule.len() - from,
{
    if from < schedule.len() {
        if schedule[from].first_hand <= hand <= schedule[from].last_hand {
            assert(range_of(schedule, hand, from) == schedule[from]);
        } else {
            blinds_follow_the_schedule(schedule, hand, from + 1);
        }
    }
}

/// A seat is in the hand exactly when its player has not folded.
pub proof fn seats_in_hand_have_not_folded(players: Seq<PlayerState>, seat: u32)
    ensures
        seats_in_hand(players).contains(seat) <==> exists|i: int|
            0 <= i < players.len() && !(#[trigger] players[i]).folded && players[i].seat_index
                == seat,
    decreases players.len(),
{
    if players.len() > 0 {
        let d = players.drop_last();
        let last = players.len() - 1;
        let (a, b) = (seats_in_hand(d), seats_in_hand(players));
        seats_in_hand_have_not_folded(d, seat);
        if a.contains(seat) {
            let i = choose|i: int|
                0 <= i < d.len() && !(#[trigger] d[i]).folded && d[i].seat_index == seat;
            assert(players[i] == d[i]);
            let k = a.index_of(seat);
            assert(b[k] == seat);
        }
        if b.contains(seat) {
            let k = b.index_of(seat);
            if k < a.len() {
                assert(a[k] == seat);
            } else {
                assert(players[last].seat_index == seat && !players[last].folded);
            }
        }
        if exists|i: int|
            0 <= i < players.len() && !(#[trigger] players[i]).folded && players[i].seat_index
                == seat {
            let i = choose|i: int|
                0 <= i < players.len() && !(#[trigger] players[i]).folded && players[i].seat_index
                    == seat;
            if i < last {
                assert(d[i] == players[i]);
            } else {
                assert(b[b.len() - 1] == seat);
            }
        }
    } else {
        assert(!seats_in_hand(players).contains(seat));
    }
}

} // verus!
