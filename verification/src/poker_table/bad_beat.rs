//! The bad-beat jackpot of a table: a hand strong enough that loses at a showdown is paid the
//! pool.

use crate::poker_table::contract::jackpot::{min_bad_beat_qualifying_score, qualifying_score};
use crate::poker_table::game::{lemma_stack_bounds, lemma_stack_update, Hand};
use crate::poker_table::settlement::Named;
use crate::poker_table::types::{PlayerState, TableConfig, TableState};
use vstd::prelude::*;

verus! {

/// The score that was submitted for a seat, by its last entry.
pub open spec fn score_of(scores: Seq<(u32, u32)>, seat: u32) -> Option<u32>
    decreases scores.len(),
{
    if scores.len() == 0 {
        None
    } else if scores.last().0 == seat {
        Some(scores.last().1)
    } else {
        score_of(scores.drop_last(), seat)
    }
}

/// The least score of a bad beat at a table.
pub open spec fn bad_beat_threshold(config: TableConfig) -> u32 {
    qualifying_score(config.min_bad_beat_category, config.min_bad_beat_rank)
}

/// Whether the player at `seat` has a bad beat: still in the hand, not named by the showdown, and
/// with a score of at least `threshold`.
pub open spec fn has_bad_beat(
    players: Seq<PlayerState>,
    named: Named,
    scores: Seq<(u32, u32)>,
    threshold: u32,
    seat: int,
) -> bool {
    &&& 0 <= seat < players.len()
    &&& !players[seat].folded
    &&& !named.has(seat as u32)
    &&& score_of(scores, seat as u32) matches Some(x) && x >= threshold
}

/// Which of the first `k` seats is paid for a bad beat: the one with the best score, and the first
/// of several.
pub open spec fn bad_beat_before(
    players: Seq<PlayerState>,
    named: Named,
    scores: Seq<(u32, u32)>,
    threshold: u32,
    k: int,
) -> Option<int>
    decreases k,
{
    if k <= 0 {
        None
    } else {
        let rest = bad_beat_before(players, named, scores, threshold, k - 1);
        if has_bad_beat(players, named, scores, threshold, k - 1) && (rest is None || score_of(
            scores,
            (k - 1) as u32,
        )->0 > score_of(scores, rest->0 as u32)->0) {
            Some(k - 1)
        } else {
            rest
        }
    }
}

/// Which seat is paid for a bad beat, if any is.
pub open spec fn bad_beat_seat(
    players: Seq<PlayerState>,
    named: Named,
    scores: Seq<(u32, u32)>,
    threshold: u32,
) -> Option<int> {
    bad_beat_before(players, named, scores, threshold, players.len() as int)
}

impl Hand {
    /// The hand after `amount` of the jackpot pool is paid to a seat, if there is one to pay.
    pub open spec fn jackpot_paid(self, seat: Option<int>, amount: int) -> Hand {
        match seat {
            None => self,
            Some(s) => Hand {
                players: self.players.update(
                    s,
                    PlayerState {
                        stack: (self.players[s].stack + amount) as i128,
                        ..self.players[s]
                    },
                ),
                jackpot_balance: self.jackpot_balance - amount,
                ..self
            },
        }
    }
}

proof fn lemma_bad_beat_before(
    players: Seq<PlayerState>,
    named: Named,
    scores: Seq<(u32, u32)>,
    threshold: u32,
    k: int,
)
    requires
        0 <= k <= players.len(),
    ensures
        match bad_beat_before(players, named, scores, threshold, k) {
            Some(s) => {
                &&& s < k
                &&& has_bad_beat(players, named, scores, threshold, s)
                &&& forall|t: int|
                    t < k && #[trigger] has_bad_beat(players, named, scores, threshold, t)
                        ==> score_of(scores, t as u32)->0 <= score_of(scores, s as u32)->0
            },
            None => forall|t: int|
                t < k ==> !#[trigger] has_bad_beat(players, named, scores, threshold, t),
        },
    decreases k,
{
    if k > 0 {
        lemma_bad_beat_before(players, named, scores, threshold, k - 1);
    }
}

/// The pool is paid to someone exactly when someone has a bad beat, and then to one with the best
/// score among them.
pub proof fn bad_beat_is_paid(
    players: Seq<PlayerState>,
    named: Named,
    scores: Seq<(u32, u32)>,
    threshold: u32,
)
    ensures
        match bad_beat_seat(players, named, scores, threshold) {
            Some(s) => {
                &&& has_bad_beat(players, named, scores, threshold, s)
                &&& forall|t: int| #[trigger]
                    has_bad_beat(players, named, scores, threshold, t) ==> score_of(
                        scores,
                        t as u32,
                    )->0 <= score_of(scores, s as u32)->0
            },
            None => forall|t: int| !#[trigger] has_bad_beat(players, named, scores, threshold, t),
        },
{
    lemma_bad_beat_before(players, named, scores, threshold, players.len() as int);
}

/// Paying the jackpot moves chips from the pool to a player and leaves all others where they are.
pub proof fn jackpot_conserves_chips(h: Hand, seat: Option<int>, amount: int)
    requires
        h.wf(),
        0 <= amount <= h.jackpot_balance,
        seat matches Some(s) ==> 0 <= s < h.players.len(),
    ensures
        h.jackpot_paid(seat, amount).chips() == h.chips(),
        h.jackpot_paid(seat, amount).wf(),
        seat matches Some(s) ==> h.players[s].stack + amount <= i128::MAX,
{
    if let Some(s) = seat {
        lemma_stack_bounds(h.players, s);
        let p = PlayerState { stack: (h.players[s].stack + amount) as i128, ..h.players[s] };
        lemma_stack_update(h.players, s, p);
        let n = h.jackpot_paid(seat, amount);
        assert forall|i: int| 0 <= i < n.players.len() implies {
            let q = #[trigger] n.players[i];
            &&& 0 <= q.stack
            &&& 0 <= q.bet_this_round <= q.committed
            &&& !n.phase.between_hands() ==> q.committed <= n.pot
        } by {
            let q0 = h.players[i];
        }
    }
}

/// The score that was submitted for a seat.
fn score_at(scores: &Vec<(u32, u32)>, seat: u32) -> (r: Option<u32>)
    ensures
        r == score_of(scores@, seat),
{
    let mut found: Option<u32> = None;
    let mut i: usize = 0;
    while i < scores.len()
        invariant
            i <= scores@.len(),
            found == score_of(scores@.take(i as int), seat),
        decreases scores@.len() - i,
    {
        assert(scores@.take(i + 1).drop_last() =~= scores@.take(i as int));
        if scores[i].0 == seat {
            found = Some(scores[i].1);
        }
        i += 1;
    }
    assert(scores@.take(i as int) =~= scores@);
    found
}

/// Finds the seat that is paid for a bad beat.
pub fn find_bad_beat(table: &TableState, named: &Named, scores: &Vec<(u32, u32)>) -> (r: Option<
    usize,
>)
    requires
        table.players@.len() <= u32::MAX,
    ensures
        match bad_beat_seat(table.players@, *named, scores@, bad_beat_threshold(table.config)) {
            Some(s) => r is Some && r->0 == s && s < table.players@.len(),
            None => r is None,
        },
{
    let ghost ps = table.players@;
    let threshold: u32 = min_bad_beat_qualifying_score(
        table.config.min_bad_beat_category,
        table.config.min_bad_beat_rank,
    );
    let mut best: Option<(usize, u32)> = None;
    let mut i: usize = 0;
    while i < table.players.len()
        invariant
            i <= ps.len() <= u32::MAX,
            ps == table.players@,
            threshold == bad_beat_threshold(table.config),
            match bad_beat_before(ps, *named, scores@, threshold, i as int) {
                Some(s) => best matches Some((b, x)) && b == s && s < i && score_of(
                    scores@,
                    s as u32,
                ) == Some(x),
                None => best is None,
            },
        decreases ps.len() - i,
    {
        if !table.players[i].folded && !named.names(i as u32) {
            if let Some(x) = score_at(scores, i as u32) {
                if x >= threshold {
                    assert(has_bad_beat(ps, *named, scores@, threshold, i as int));
                    let better: bool = match best {
                        Some((_, y)) => x > y,
                        None => true,
                    };
                    if better {
                        best = Some((i, x));
                    }
                }
            }
        }
        i += 1;
    }
    match best {
        Some((b, _)) => Some(b),
        None => None,
    }
}

/// Pays `amount` of the jackpot pool to a seat, if there is one to pay.
pub fn pay_jackpot(table: &mut TableState, seat: Option<usize>, amount: i128)
    requires
        old(table).hand().wf(),
        0 <= amount <= old(table).jackpot_balance,
        seat matches Some(s) ==> s < old(table).players@.len(),
    ensures
        final(table).hand() == old(table).hand().jackpot_paid(
            match seat {
                Some(s) => Some(s as int),
                None => None,
            },
            amount as int,
        ),
        old(table).same_but_hand(*final(table)),
        final(table).hand().chips() == old(table).hand().chips(),
        final(table).hand().wf(),
{
    let ghost h = table.hand();
    if let Some(s) = seat {
        proof {
            jackpot_conserves_chips(h, Some(s as int), amount as int);
        }
        let p = table.players[s];
        let paid = PlayerState {
            address: p.address,
            stack: p.stack + amount,
            bet_this_round: p.bet_this_round,
            committed: p.committed,
            folded: p.folded,
            all_in: p.all_in,
            sitting_out: p.sitting_out,
            seat_index: p.seat_index,
            total_buy_in: p.total_buy_in,
            rebuy_count: p.rebuy_count,
        };
        table.players.set(s, paid);
        table.jackpot_balance = table.jackpot_balance - amount;
        assert(table.hand() =~= h.jackpot_paid(Some(s as int), amount as int));
    }
}

/// The score of a seat is the one that was submitted last for it, and none where none was.
pub proof fn last_score_counts(scores: Seq<(u32, u32)>, seat: u32)
    ensures
        match score_of(scores, seat) {
            Some(x) => exists|i: int|
                {
                    &&& 0 <= i < scores.len()
                    &&& #[trigger] scores[i] == (seat, x)
                    &&& forall|j: int| i < j < scores.len() ==> (#[trigger] scores[j]).0 != seat
                },
            None => forall|i: int| 0 <= i < scores.len() ==> (#[trigger] scores[i]).0 != seat,
        },
    decreases scores.len(),
{
    if scores.len() > 0 {
        let d = scores.drop_last();
        let last = scores.len() - 1;
        if scores[last].0 == seat {
            assert(scores[last] == (seat, scores[last].1));
        } else {
            last_score_counts(d, seat);
            match score_of(d, seat) {
                Some(x) => {
                    let i = choose|i: int|
                        {
                            &&& 0 <= i < d.len()
                            &&& #[trigger] d[i] == (seat, x)
                            &&& forall|j: int| i < j < d.len() ==> (#[trigger] d[j]).0 != seat
                        };
                    assert(scores[i] == (seat, x));
                    assert forall|j: int| i < j < scores.len() implies (#[trigger] scores[j]).0
                        != seat by {
                        if j < d.len() {
                            assert(d[j] == scores[j]);
                        }
                    }
                },
                None => {
                    assert forall|i: int| 0 <= i < scores.len() implies (#[trigger] scores[i]).0
                        != seat by {
                        if i < d.len() {
                            assert(d[i] == scores[i]);
                        }
                    }
                },
            }
        }
    }
}

/// A bad beat is a hand that went to the showdown, lost, and was strong enough: its player has not
/// folded, neither wins nor ties, and has a score of at least the least qualifying hand. Where
/// there is one, at least its score is paid for.
pub proof fn bad_beats_are_strong_losing_hands(
    players: Seq<PlayerState>,
    named: Named,
    scores: Seq<(u32, u32)>,
    threshold: u32,
    t: int,
)
    ensures
        bad_beat_seat(players, named, scores, threshold) matches Some(s) ==> {
            &&& 0 <= s < players.len()
            &&& !players[s].folded
            &&& s as u32 != named.first && s as u32 != named.second
            &&& (s as u32) < 32 ==> (named.tie_mask >> (s as u32)) & 1u32 != 1u32
            &&& score_of(scores, s as u32) matches Some(x) && x >= threshold
        },
        ({
            &&& 0 <= t < players.len()
            &&& !players[t].folded
            &&& t as u32 != named.first && t as u32 != named.second
            &&& (t as u32) < 32 ==> (named.tie_mask >> (t as u32)) & 1u32 != 1u32
            &&& score_of(scores, t as u32) matches Some(x) && x >= threshold
        }) ==> {
            &&& bad_beat_seat(players, named, scores, threshold) matches Some(s)
            &&& score_of(scores, s as u32) matches Some(y)
            &&& y >= score_of(scores, t as u32)->0
        },
        scores.len() == 0 ==> bad_beat_seat(players, named, scores, threshold) is None,
{
    bad_beat_is_paid(players, named, scores, threshold);
    if 0 <= t < players.len() && !players[t].folded && !named.has(t as u32) {
        assert(score_of(scores, t as u32) matches Some(x) && x >= threshold ==> has_bad_beat(
            players,
            named,
            scores,
            threshold,
            t,
        ));
    }
    if scores.len() == 0 {
        if let Some(s) = bad_beat_seat(players, named, scores, threshold) {
            assert(has_bad_beat(players, named, scores, threshold, s));
        }
    }
}

/// The jackpot is paid to its seat alone, from the pool, to the last chip of the amount.
pub proof fn jackpot_goes_to_its_seat(h: Hand, s: int, amount: int, i: int)
    requires
        h.wf(),
        0 <= amount <= h.jackpot_balance,
        0 <= s < h.players.len(),
        0 <= i < h.players.len(),
    ensures
        ({
            let n = h.jackpot_paid(Some(s), amount);
            &&& n.players.len() == h.players.len()
            &&& n.players[s].stack == h.players[s].stack + amount
            &&& i != s ==> n.players[i] == h.players[i]
            &&& n.jackpot_balance == h.jackpot_balance - amount
            &&& n.rake_balance == h.rake_balance && n.pot == h.pot && n.phase == h.phase
        }),
        h.jackpot_paid(None, amount) == h,
{
    jackpot_conserves_chips(h, Some(s), amount);
    lemma_stack_bounds(h.players, s);
}

/// The least score of a bad beat is that of the configured hand: its category in the top four bits, and
/// its rank above the lowest four.
pub proof fn bad_beats_start_at_the_configured_hand(config: TableConfig)
    ensures
        bad_beat_threshold(config) == (config.min_bad_beat_category << 28u32) | (
        config.min_bad_beat_rank << 4u32),
{
}

} // verus!
