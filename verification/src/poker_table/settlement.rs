//! How the pot is shared out after a showdown: side pots, their winners and the rake.

use crate::poker_table::game::{
    committed_total, jackpot_share_of, lemma_stack_bounds, settlement_fits, share_within_rake,
    stack_of, Hand,
};
use crate::poker_table::types::{GamePhase, PlayerState, TableState};
use crate::seqs::{lemma_sum_agree, sum_by};
use vstd::prelude::*;

verus! {

/// Who wins by the showdown: the seat of the winner, the seat of the winner of a second run (the
/// same where there is none), and the seats that tie, as bits.
#[derive(Clone, Copy, Debug, PartialEq, Eq, Structural)]
pub struct Named {
    pub first: u32,
    pub second: u32,
    pub tie_mask: u32,
}

impl Named {
    /// Whether the showdown names a seat.
    pub open spec fn has(self, seat: u32) -> bool {
        seat == self.first || seat == self.second || (seat < 32 && (self.tie_mask >> seat) & 1u32
            == 1u32)
    }

    /// Whether the showdown names a seat.
    pub fn names(&self, seat: u32) -> (r: bool)
        ensures
            r == self.has(seat),
    {
        seat == self.first || seat == self.second || (seat < 32 && (self.tie_mask >> seat) & 1u32
            == 1u32)
    }
}

/// Whether the player at `seat` has a claim on the chips up to `level`.
pub open spec fn in_pot(players: Seq<PlayerState>, level: i128, seat: int) -> bool {
    0 <= seat < players.len() && !players[seat].folded && players[seat].committed >= level
}

/// Whether the showdown names anyone with a claim on the chips up to `level`.
pub open spec fn pot_is_named(players: Seq<PlayerState>, named: Named, level: i128) -> bool {
    exists|t: int| #[trigger] in_pot(players, level, t) && named.has(t as u32)
}

/// Whether the player at `seat` wins the chips up to `level`: of those with a claim on them, one
/// whom the showdown names. Where it names none of them, they all do.
pub open spec fn wins_pot(
    players: Seq<PlayerState>,
    named: Named,
    level: i128,
    seat: int,
) -> bool {
    in_pot(players, level, seat) && (pot_is_named(players, named, level) ==> named.has(
        seat as u32,
    ))
}

/// How many of the first `k` seats win the chips up to `level`.
pub open spec fn winners_before(
    players: Seq<PlayerState>,
    named: Named,
    level: i128,
    k: int,
) -> int
    decreases k,
{
    if k <= 0 {
        0
    } else {
        winners_before(players, named, level, k - 1) + (if wins_pot(
            players,
            named,
            level,
            k - 1,
        ) {
            1int
        } else {
            0
        })
    }
}

/// What the player at `seat` gets of a pot of `net` chips: the winners share it evenly, and what
/// cannot be shared goes to the first of them.
pub open spec fn share_of_pot(
    players: Seq<PlayerState>,
    named: Named,
    level: i128,
    net: int,
    seat: int,
) -> int {
    if wins_pot(players, named, level, seat) {
        let n = winners_before(players, named, level, players.len() as int);
        net / n + (if winners_before(players, named, level, seat) == 0 {
            net % n
        } else {
            0
        })
    } else {
        0
    }
}

/// The least that a player still in the hand has put in above `prev`.
pub open spec fn level_above(players: Seq<PlayerState>, prev: int) -> Option<i128>
    decreases players.len(),
{
    if players.len() == 0 {
        None
    } else {
        let rest = level_above(players.drop_last(), prev);
        let p = players.last();
        if p.folded || p.committed <= prev || (rest matches Some(l) && l <= p.committed) {
            rest
        } else {
            Some(p.committed)
        }
    }
}

/// How many players still in the hand have put in more than `prev`.
pub open spec fn count_above(players: Seq<PlayerState>, prev: int) -> nat
    decreases players.len(),
{
    if players.len() == 0 {
        0
    } else {
        count_above(players.drop_last(), prev) + (if !players.last().folded
            && players.last().committed > prev {
            1nat
        } else {
            0
        })
    }
}

/// What of a player's chips in the pot counts up to `level`.
pub open spec fn up_to(level: int) -> spec_fn(PlayerState) -> int {
    |p: PlayerState|
        if level <= 0 {
            0
        } else if p.committed <= level {
            p.committed as int
        } else {
            level
        }
}

/// The chips in the pot up to `level` of each player.
pub open spec fn reach(players: Seq<PlayerState>, level: int) -> int {
    sum_by(players, up_to(level))
}

/// The side pot between `prev` and the next level: the chips between the two, or all that is left
/// where there is no level above.
pub open spec fn side_pot(players: Seq<PlayerState>, pot: int, prev: int, level: i128) -> int {
    (if level_above(players, level as int) is None {
        pot
    } else {
        reach(players, level as int)
    }) - reach(players, prev)
}

/// What the table takes of a pot.
pub open spec fn rake_on(amount: int, rake_bps: u32) -> int {
    amount * rake_bps / 10_000
}

/// What the player at `seat` wins of the side pots above `prev`.
pub open spec fn winnings(
    players: Seq<PlayerState>,
    pot: int,
    named: Named,
    rake_bps: u32,
    prev: int,
    seat: int,
) -> int
    decreases count_above(players, prev),
    via winnings_end
{
    match level_above(players, prev) {
        None => 0,
        Some(level) => {
            let amount = side_pot(players, pot, prev, level);
            let net = amount - rake_on(amount, rake_bps);
            share_of_pot(players, named, level, net, seat) + winnings(
                players,
                pot,
                named,
                rake_bps,
                level as int,
                seat,
            )
        },
    }
}

#[via_fn]
proof fn winnings_end(
    players: Seq<PlayerState>,
    pot: int,
    named: Named,
    rake_bps: u32,
    prev: int,
    seat: int,
) {
    lemma_level_above(players, prev);
}

/// What the table takes of the side pots above `prev`.
pub open spec fn rake_above(players: Seq<PlayerState>, pot: int, rake_bps: u32, prev: int) -> int
    decreases count_above(players, prev),
    via rake_above_end
{
    match level_above(players, prev) {
        None => 0,
        Some(level) => rake_on(side_pot(players, pot, prev, level), rake_bps) + rake_above(
            players,
            pot,
            rake_bps,
            level as int,
        ),
    }
}

#[via_fn]
proof fn rake_above_end(players: Seq<PlayerState>, pot: int, rake_bps: u32, prev: int) {
    lemma_level_above(players, prev);
}

/// The level above is the least of its kind, and fewer have put in more than it.
proof fn lemma_level_above(players: Seq<PlayerState>, prev: int)
    ensures
        match level_above(players, prev) {
            Some(l) => {
                &&& l > prev
                &&& count_above(players, l as int) < count_above(players, prev)
                &&& exists|i: int|
                    0 <= i < players.len() && !(#[trigger] players[i]).folded
                        && players[i].committed == l
                &&& forall|i: int|
                    0 <= i < players.len() && !(#[trigger] players[i]).folded
                        && players[i].committed > prev ==> players[i].committed >= l
            },
            None => forall|i: int|
                0 <= i < players.len() && !(#[trigger] players[i]).folded
                    ==> players[i].committed <= prev,
        },
    decreases players.len(),
{
    if players.len() > 0 {
        let d = players.drop_last();
        let p = players.last();
        lemma_level_above(d, prev);
        assert forall|i: int| 0 <= i < d.len() implies d[i] == #[trigger] players[i] by {}
        match level_above(players, prev) {
            Some(l) => {
                lemma_count_above_falls(d, prev, l as int);
                if level_above(d, prev) == Some(l) {
                    let i = choose|i: int|
                        0 <= i < d.len() && !(#[trigger] d[i]).folded && d[i].committed == l;
                    assert(players[i] == d[i]);
                } else {
                    assert(players[players.len() - 1] == p);
                }
                assert forall|i: int|
                    0 <= i < players.len() && !(#[trigger] players[i]).folded
                        && players[i].committed > prev implies players[i].committed >= l by {
                    if i < d.len() {
                        assert(d[i] == players[i]);
                    }
                }
            },
            None => {
                assert forall|i: int|
                    0 <= i < players.len() && !(#[trigger] players[i]).folded implies players[i].committed
                    <= prev by {
                    if i < d.len() {
                        assert(d[i] == players[i]);
                    }
                }
            },
        }
    }
}

proof fn lemma_count_above_falls(players: Seq<PlayerState>, low: int, high: int)
    requires
        low <= high,
    ensures
        count_above(players, high) <= count_above(players, low),
    decreases players.len(),
{
    if players.len() > 0 {
        lemma_count_above_falls(players.drop_last(), low, high);
    }
}

/// What the first `k` seats get together of a pot of `net` chips.
pub open spec fn shares_before(
    players: Seq<PlayerState>,
    named: Named,
    level: i128,
    net: int,
    k: int,
) -> int
    decreases k,
{
    if k <= 0 {
        0
    } else {
        shares_before(players, named, level, net, k - 1) + share_of_pot(
            players,
            named,
            level,
            net,
            k - 1,
        )
    }
}

/// What the first `k` seats win together of the side pots above `prev`.
pub open spec fn winnings_before(
    players: Seq<PlayerState>,
    pot: int,
    named: Named,
    rake_bps: u32,
    prev: int,
    k: int,
) -> int
    decreases k,
{
    if k <= 0 {
        0
    } else {
        winnings_before(players, pot, named, rake_bps, prev, k - 1) + winnings(
            players,
            pot,
            named,
            rake_bps,
            prev,
            k - 1,
        )
    }
}

proof fn lemma_winners_grow(
    players: Seq<PlayerState>,
    named: Named,
    level: i128,
    j: int,
    k: int,
)
    requires
        0 <= j <= k,
    ensures
        0 <= winners_before(players, named, level, j) <= winners_before(
            players,
            named,
            level,
            k,
        ) <= k,
    decreases k,
{
    if j < k {
        lemma_winners_grow(players, named, level, j, k - 1);
    } else if k > 0 {
        lemma_winners_grow(players, named, level, k - 1, k - 1);
    }
}

/// A pot that someone has a claim on has a winner.
proof fn lemma_pot_has_winner(
    players: Seq<PlayerState>,
    named: Named,
    level: i128,
    claim: int,
)
    requires
        in_pot(players, level, claim),
    ensures
        winners_before(players, named, level, players.len() as int) > 0,
{
    let n = players.len() as int;
    let w = if pot_is_named(players, named, level) {
        choose|t: int| #[trigger] in_pot(players, level, t) && named.has(t as u32)
    } else {
        claim
    };
    assert(wins_pot(players, named, level, w));
    lemma_winners_grow(players, named, level, w, w);
    lemma_winners_grow(players, named, level, w + 1, n);
}

/// The shares of the first `k` seats are even ones, and the rest for the first winner.
proof fn lemma_shares_before(
    players: Seq<PlayerState>,
    named: Named,
    level: i128,
    net: int,
    k: int,
)
    requires
        0 <= k <= players.len(),
    ensures
        ({
            let n = winners_before(players, named, level, players.len() as int);
            let m = winners_before(players, named, level, k);
            shares_before(players, named, level, net, k) == m * (net / n) + (if m > 0 {
                net % n
            } else {
                0
            })
        }),
    decreases k,
{
    let n = winners_before(players, named, level, players.len() as int);
    let q = net / n;
    if k > 0 {
        lemma_shares_before(players, named, level, net, k - 1);
        let m = winners_before(players, named, level, k - 1);
        lemma_winners_grow(players, named, level, k - 1, k - 1);
        assert((m + 1) * q == m * q + q) by (nonlinear_arith);
    } else {
        assert(0 * q == 0);
    }
}

/// A pot is shared out to the last chip, and nobody gets less than nothing.
proof fn lemma_pot_is_shared(
    players: Seq<PlayerState>,
    named: Named,
    level: i128,
    net: int,
    claim: int,
)
    requires
        in_pot(players, level, claim),
        net >= 0,
    ensures
        shares_before(players, named, level, net, players.len() as int) == net,
        forall|s: int| #[trigger] share_of_pot(players, named, level, net, s) >= 0,
{
    let n = winners_before(players, named, level, players.len() as int);
    lemma_pot_has_winner(players, named, level, claim);
    lemma_shares_before(players, named, level, net, players.len() as int);
    assert(n * (net / n) + net % n == net && net / n >= 0 && net % n >= 0) by (nonlinear_arith)
        requires
            n > 0,
            net >= 0,
    ;
}

/// Chips up to a level grow with it, and are at most all.
proof fn lemma_reach(players: Seq<PlayerState>, low: int, high: int)
    requires
        low <= high,
        forall|i: int| 0 <= i < players.len() ==> (#[trigger] players[i]).committed >= 0,
    ensures
        0 <= reach(players, low) <= reach(players, high) <= committed_total(players),
        low <= 0 ==> reach(players, low) == 0,
    decreases players.len(),
{
    if players.len() > 0 {
        let d = players.drop_last();
        assert forall|i: int| 0 <= i < d.len() implies (#[trigger] d[i]).committed >= 0 by {
            assert(d[i] == players[i]);
        }
        lemma_reach(d, low, high);
        assert(players[players.len() - 1].committed >= 0);
    }
}

proof fn lemma_winnings_unfold(
    players: Seq<PlayerState>,
    pot: int,
    named: Named,
    rake_bps: u32,
    prev: int,
    k: int,
)
    ensures
        match level_above(players, prev) {
            None => winnings_before(players, pot, named, rake_bps, prev, k) == 0,
            Some(level) => {
                let amount = side_pot(players, pot, prev, level);
                let net = amount - rake_on(amount, rake_bps);
                winnings_before(players, pot, named, rake_bps, prev, k) == shares_before(
                    players,
                    named,
                    level,
                    net,
                    k,
                ) + winnings_before(players, pot, named, rake_bps, level as int, k)
            },
        },
    decreases k,
{
    if k > 0 {
        lemma_winnings_unfold(players, pot, named, rake_bps, prev, k - 1);
    }
}

/// The side pot above `prev` is not negative, and its rake is within it.
proof fn lemma_side_pot(players: Seq<PlayerState>, pot: int, rake_bps: u32, prev: int)
    requires
        forall|i: int| 0 <= i < players.len() ==> (#[trigger] players[i]).committed >= 0,
        pot >= committed_total(players),
        rake_bps <= 10_000,
    ensures
        level_above(players, prev) matches Some(level) ==> {
            let amount = side_pot(players, pot, prev, level);
            &&& 0 <= amount <= pot - reach(players, prev)
            &&& 0 <= rake_on(amount, rake_bps) <= amount
            &&& 0 <= reach(players, prev)
        },
{
    lemma_level_above(players, prev);
    if let Some(level) = level_above(players, prev) {
        lemma_reach(players, prev, level as int);
        let amount = side_pot(players, pot, prev, level);
        assert(0 <= amount * rake_bps <= amount * 10_000) by (nonlinear_arith)
            requires
                amount >= 0,
                0 <= rake_bps <= 10_000,
        ;
    }
}

/// The side pots above `prev` are paid out in full, to the players and in rake.
pub proof fn side_pots_are_paid_in_full(
    players: Seq<PlayerState>,
    pot: int,
    named: Named,
    rake_bps: u32,
    prev: int,
)
    requires
        forall|i: int| 0 <= i < players.len() ==> (#[trigger] players[i]).committed >= 0,
        pot >= committed_total(players),
        rake_bps <= 10_000,
    ensures
        winnings_before(players, pot, named, rake_bps, prev, players.len() as int)
            + rake_above(players, pot, rake_bps, prev) == (if level_above(players, prev) is Some {
            pot - reach(players, prev)
        } else {
            0
        }),
        rake_above(players, pot, rake_bps, prev) >= 0,
        forall|s: int| #[trigger]
            winnings(players, pot, named, rake_bps, prev, s) >= 0,
    decreases count_above(players, prev),
{
    let n = players.len() as int;
    lemma_level_above(players, prev);
    lemma_winnings_unfold(players, pot, named, rake_bps, prev, n);
    if let Some(level) = level_above(players, prev) {
        side_pots_are_paid_in_full(players, pot, named, rake_bps, level as int);
        lemma_side_pot(players, pot, rake_bps, prev);
        let amount = side_pot(players, pot, prev, level);
        let net = amount - rake_on(amount, rake_bps);
        let i = choose|i: int|
            0 <= i < players.len() && !(#[trigger] players[i]).folded && players[i].committed
                == level;
        assert(in_pot(players, level, i));
        lemma_pot_is_shared(players, named, level, net, i);
        assert forall|s: int| #[trigger]
            winnings(players, pot, named, rake_bps, prev, s) >= 0 by {
            assert(share_of_pot(players, named, level, net, s) >= 0);
            assert(winnings(players, pot, named, rake_bps, level as int, s) >= 0);
        }
    }
}

/// A share of a pot is at most the pot, and nothing for anyone without a claim.
proof fn lemma_share_bound(
    players: Seq<PlayerState>,
    named: Named,
    level: i128,
    net: int,
    seat: int,
)
    requires
        net >= 0,
    ensures
        0 <= share_of_pot(players, named, level, net, seat) <= net,
        !in_pot(players, level, seat) ==> share_of_pot(players, named, level, net, seat)
            == 0,
{
    if wins_pot(players, named, level, seat) {
        let n = winners_before(players, named, level, players.len() as int);
        lemma_pot_has_winner(players, named, level, seat);
        let (q, m) = (net / n, net % n);
        assert(0 <= q && 0 <= m && q + m <= net) by (nonlinear_arith)
            requires
                n > 0,
                net >= 0,
                q == net / n,
                m == net % n,
        ;
    }
}

proof fn lemma_winnings_bound(
    players: Seq<PlayerState>,
    pot: int,
    named: Named,
    rake_bps: u32,
    prev: int,
    seat: int,
    top: int,
)
    requires
        forall|i: int| 0 <= i < players.len() ==> (#[trigger] players[i]).committed >= 0,
        pot == committed_total(players),
        rake_bps <= 10_000,
        0 <= top < players.len(),
        !players[top].folded,
        forall|i: int|
            0 <= i < players.len() ==> (#[trigger] players[i]).committed <= players[top].committed,
        0 <= seat < players.len(),
    ensures
        0 <= winnings(players, pot, named, rake_bps, prev, seat),
        players[seat].folded || players[seat].committed <= prev ==> winnings(
            players,
            pot,
            named,
            rake_bps,
            prev,
            seat,
        ) == 0,
        players[seat].committed >= prev ==> winnings(
            players,
            pot,
            named,
            rake_bps,
            prev,
            seat,
        ) <= reach(players, players[seat].committed as int) - reach(players, prev),
    decreases count_above(players, prev),
{
    let c = players[seat].committed;
    lemma_level_above(players, prev);
    if c >= prev {
        lemma_reach(players, prev, c as int);
    }
    if let Some(level) = level_above(players, prev) {
        lemma_winnings_bound(players, pot, named, rake_bps, level as int, seat, top);
        lemma_side_pot(players, pot, rake_bps, prev);
        let amount = side_pot(players, pot, prev, level);
        let net = amount - rake_on(amount, rake_bps);
        lemma_share_bound(players, named, level, net, seat);
        lemma_level_above(players, level as int);
        if level_above(players, level as int) is None {
            assert forall|i: int| 0 <= i < players.len() implies (#[trigger] players[i]).committed
                <= level by {
                assert(players[top].committed <= level);
            }
            lemma_reach_all(players, level as int);
        }
        assert(in_pot(players, level, seat) ==> c >= level);
    }
}

/// Where nobody has put in more than `level`, all chips are up to it.
proof fn lemma_reach_all(players: Seq<PlayerState>, level: int)
    requires
        forall|i: int| 0 <= i < players.len() ==> 0 <= (#[trigger] players[i]).committed <= level,
    ensures
        reach(players, level) == committed_total(players),
    decreases players.len(),
{
    if players.len() > 0 {
        let d = players.drop_last();
        assert forall|i: int| 0 <= i < d.len() implies 0 <= (#[trigger] d[i]).committed
            <= level by {
            assert(d[i] == players[i]);
        }
        lemma_reach_all(d, level);
        assert(0 <= players[players.len() - 1].committed <= level);
    }
}

/// A player can only win the chips they have matched: of every player's chips in the pot, as many
/// as they have put in themselves. One who has folded wins nothing. The player at `top` is still in
/// the hand and nobody has put in more.
pub proof fn winnings_are_matched(
    players: Seq<PlayerState>,
    named: Named,
    rake_bps: u32,
    seat: int,
    top: int,
)
    requires
        0 <= seat < players.len(),
        forall|i: int| 0 <= i < players.len() ==> (#[trigger] players[i]).committed >= 0,
        rake_bps <= 10_000,
        0 <= top < players.len(),
        !players[top].folded,
        forall|i: int|
            0 <= i < players.len() ==> (#[trigger] players[i]).committed <= players[top].committed,
    ensures
        ({
            let won = winnings(
                players,
                committed_total(players),
                named,
                rake_bps,
                -1,
                seat,
            );
            &&& 0 <= won <= reach(players, players[seat].committed as int)
            &&& players[seat].folded ==> won == 0
        }),
{
    lemma_winnings_bound(
        players,
        committed_total(players),
        named,
        rake_bps,
        -1,
        seat,
        top,
    );
    lemma_reach(players, -1, 0);
}

proof fn lemma_top_winner(
    players: Seq<PlayerState>,
    pot: int,
    named: Named,
    rake_bps: u32,
    prev: int,
    winner: int,
    seat: int,
)
    requires
        0 <= winner < players.len() <= u32::MAX,
        0 <= seat < players.len(),
        !players[winner].folded,
        forall|i: int|
            0 <= i < players.len() && !(#[trigger] players[i]).folded ==> players[i].committed
                <= players[winner].committed,
        forall|i: int|
            0 <= i < players.len() ==> (#[trigger] named.has(i as u32) <==> i == winner),
    ensures
        seat != winner ==> winnings(players, pot, named, rake_bps, prev, seat) == 0,
    decreases count_above(players, prev),
{
    lemma_level_above(players, prev);
    if let Some(level) = level_above(players, prev) {
        lemma_top_winner(
            players,
            pot,
            named,
            rake_bps,
            level as int,
            winner,
            seat,
        );
        assert(in_pot(players, level, winner));
        assert(named.has(winner as u32));
        assert(pot_is_named(players, named, level));
        assert(named.has(seat as u32) <==> seat == winner);
    }
}

/// A sole winner whom nobody still in the hand has outbid takes the whole pot, less the rake.
pub proof fn top_winner_takes_the_pot(
    players: Seq<PlayerState>,
    pot: int,
    named: Named,
    rake_bps: u32,
    winner: int,
)
    requires
        0 <= winner < players.len() <= u32::MAX,
        forall|i: int| 0 <= i < players.len() ==> (#[trigger] players[i]).committed >= 0,
        pot >= committed_total(players),
        rake_bps <= 10_000,
        !players[winner].folded,
        forall|i: int|
            0 <= i < players.len() && !(#[trigger] players[i]).folded ==> players[i].committed
                <= players[winner].committed,
        forall|i: int|
            0 <= i < players.len() ==> (#[trigger] named.has(i as u32) <==> i == winner),
    ensures
        winnings(players, pot, named, rake_bps, -1, winner) == pot - rake_above(
            players,
            pot,
            rake_bps,
            -1,
        ),
        forall|s: int|
            0 <= s < players.len() && s != winner ==> #[trigger] winnings(
                players,
                pot,
                named,
                rake_bps,
                -1,
                s,
            ) == 0,
{
    assert forall|s: int| 0 <= s < players.len() && s != winner implies #[trigger] winnings(
        players,
        pot,
        named,
        rake_bps,
        -1,
        s,
    ) == 0 by {
        lemma_top_winner(players, pot, named, rake_bps, -1, winner, s);
    }
    side_pots_are_paid_in_full(players, pot, named, rake_bps, -1);
    lemma_level_above(players, -1);
    assert(players[winner].committed >= 0);
    lemma_reach(players, -1, 0);
    lemma_only_winner(
        players,
        pot,
        named,
        rake_bps,
        winner,
        players.len() as int,
    );
}

proof fn lemma_only_winner(
    players: Seq<PlayerState>,
    pot: int,
    named: Named,
    rake_bps: u32,
    winner: int,
    k: int,
)
    requires
        0 <= winner,
        0 <= k <= players.len(),
        forall|s: int|
            0 <= s < players.len() && s != winner ==> #[trigger] winnings(
                players,
                pot,
                named,
                rake_bps,
                -1,
                s,
            ) == 0,
    ensures
        winnings_before(players, pot, named, rake_bps, -1, k) == (if winner < k {
            winnings(players, pot, named, rake_bps, -1, winner)
        } else {
            0
        }),
    decreases k,
{
    if k > 0 {
        lemma_only_winner(players, pot, named, rake_bps, winner, k - 1);
    }
}

/// The least that a player still in the hand has put in above `prev`.
fn next_level(players: &Vec<PlayerState>, prev: i128) -> (r: Option<i128>)
    ensures
        r == level_above(players@, prev as int),
{
    let mut best: Option<i128> = None;
    let mut i: usize = 0;
    while i < players.len()
        invariant
            i <= players@.len(),
            best == level_above(players@.take(i as int), prev as int),
        decreases players@.len() - i,
    {
        assert(players@.take(i + 1).drop_last() =~= players@.take(i as int));
        let p = players[i];
        if !p.folded && p.committed > prev {
            match best {
                Some(l) => {
                    if p.committed < l {
                        best = Some(p.committed);
                    }
                },
                None => {
                    best = Some(p.committed);
                },
            }
        }
        i += 1;
    }
    assert(players@.take(i as int) =~= players@);
    best
}

/// What the first players have put in is at most what all have.
proof fn lemma_committed_prefix(players: Seq<PlayerState>, k: int)
    requires
        0 <= k <= players.len(),
        forall|i: int| 0 <= i < players.len() ==> (#[trigger] players[i]).committed >= 0,
    ensures
        0 <= committed_total(players.take(k)) <= committed_total(players),
    decreases players.len(),
{
    if k < players.len() {
        let d = players.drop_last();
        assert forall|i: int| 0 <= i < d.len() implies (#[trigger] d[i]).committed >= 0 by {
            assert(d[i] == players[i]);
        }
        assert(d.take(k) =~= players.take(k));
        lemma_committed_prefix(d, k);
        assert(players[players.len() - 1].committed >= 0);
    } else {
        assert(players.take(k) =~= players);
        lemma_reach(players, 0, 0);
    }
}

/// The chips in the pot up to `level` of each player.
fn chips_up_to(players: &Vec<PlayerState>, level: i128) -> (r: i128)
    requires
        forall|i: int| 0 <= i < players@.len() ==> (#[trigger] players@[i]).committed >= 0,
        committed_total(players@) <= i128::MAX,
    ensures
        r == reach(players@, level as int),
{
    let mut sum: i128 = 0;
    let mut i: usize = 0;
    while i < players.len()
        invariant
            i <= players@.len(),
            forall|j: int| 0 <= j < players@.len() ==> (#[trigger] players@[j]).committed >= 0,
            committed_total(players@) <= i128::MAX,
            sum == reach(players@.take(i as int), level as int),
        decreases players@.len() - i,
    {
        let ghost next = players@.take(i + 1);
        proof {
            assert(next.drop_last() =~= players@.take(i as int));
            assert forall|j: int| 0 <= j < next.len() implies (#[trigger] next[j]).committed
                >= 0 by {
                assert(next[j] == players@[j]);
            }
            lemma_reach(next, level as int, level as int);
            lemma_committed_prefix(players@, i + 1);
        }
        let c: i128 = players[i].committed;
        assert(next.last() == players@[i as int]);
        if level > 0 {
            if c <= level {
                sum = sum + c;
            } else {
                sum = sum + level;
            }
        }
        i += 1;
    }
    assert(players@.take(i as int) =~= players@);
    sum
}

/// Which seats win the chips up to `level`, and how many they are.
fn pot_winners(players: &Vec<PlayerState>, named: &Named, level: i128) -> (r: (Vec<bool>, usize))
    requires
        players@.len() <= u32::MAX,
    ensures
        r.0@.len() == players@.len(),
        forall|s: int|
            0 <= s < players@.len() ==> #[trigger] r.0@[s] == wins_pot(players@, *named, level, s),
        r.1 == winners_before(players@, *named, level, players@.len() as int),
{
    let mut by_name: bool = false;
    let mut i: usize = 0;
    while i < players.len()
        invariant
            i <= players@.len() <= u32::MAX,
            by_name <==> exists|t: int|
                t < i && #[trigger] in_pot(players@, level, t) && named.has(t as u32),
        decreases players@.len() - i,
    {
        let p = players[i];
        let ghost before = by_name;
        if !p.folded && p.committed >= level {
            assert(in_pot(players@, level, i as int));
            if named.names(i as u32) {
                by_name = true;
            }
        }
        proof {
            if before {
                let t = choose|t: int|
                    t < i && #[trigger] in_pot(players@, level, t) && named.has(t as u32);
                assert(in_pot(players@, level, t) && t < i + 1);
            }
        }
        i += 1;
    }
    proof {
        assert(pot_is_named(players@, *named, level) == by_name) by {
            if pot_is_named(players@, *named, level) {
                let t = choose|t: int| #[trigger] in_pot(players@, level, t) && named.has(t as u32);
                assert(t < i);
            }
        }
    }
    let mut wins: Vec<bool> = Vec::new();
    let mut n: usize = 0;
    let mut j: usize = 0;
    while j < players.len()
        invariant
            players@.len() <= u32::MAX,
            j <= players@.len(),
            n <= j,
            by_name == pot_is_named(players@, *named, level),
            wins@.len() == j,
            forall|s: int|
                0 <= s < j ==> #[trigger] wins@[s] == wins_pot(players@, *named, level, s),
            n == winners_before(players@, *named, level, j as int),
        decreases players@.len() - j,
    {
        let p = players[j];
        let claim: bool = !p.folded && p.committed >= level;
        let wins_here: bool = claim && (!by_name || named.names(j as u32));
        assert(claim == in_pot(players@, level, j as int));
        wins.push(wins_here);
        if wins_here {
            n += 1;
        }
        j += 1;
    }
    (wins, n)
}

/// One seat wins at most what all win together.
proof fn lemma_one_of_all(
    players: Seq<PlayerState>,
    pot: int,
    named: Named,
    rake_bps: u32,
    prev: int,
    seat: int,
    k: int,
)
    requires
        forall|s: int| #[trigger] winnings(players, pot, named, rake_bps, prev, s) >= 0,
    ensures
        0 <= winnings_before(players, pot, named, rake_bps, prev, k),
        0 <= seat < k ==> winnings(players, pot, named, rake_bps, prev, seat)
            <= winnings_before(players, pot, named, rake_bps, prev, k),
    decreases k,
{
    if k > 0 {
        lemma_one_of_all(players, pot, named, rake_bps, prev, seat, k - 1);
        assert(winnings(players, pot, named, rake_bps, prev, k - 1) >= 0);
    }
}

/// What every seat wins lies between nothing and the pot.
proof fn lemma_winnings_range(
    players: Seq<PlayerState>,
    pot: int,
    named: Named,
    rake_bps: u32,
    prev: int,
)
    requires
        forall|i: int| 0 <= i < players.len() ==> (#[trigger] players[i]).committed >= 0,
        pot >= committed_total(players),
        rake_bps <= 10_000,
    ensures
        forall|s: int|
            0 <= s < players.len() ==> 0 <= #[trigger] winnings(
                players,
                pot,
                named,
                rake_bps,
                prev,
                s,
            ) <= pot,
        0 <= rake_above(players, pot, rake_bps, prev) <= pot,
{
    let n = players.len() as int;
    side_pots_are_paid_in_full(players, pot, named, rake_bps, prev);
    lemma_reach(players, prev, prev);
    lemma_one_of_all(players, pot, named, rake_bps, prev, 0, n);
    assert forall|s: int| 0 <= s < players.len() implies 0 <= #[trigger] winnings(
        players,
        pot,
        named,
        rake_bps,
        prev,
        s,
    ) <= pot by {
        lemma_one_of_all(players, pot, named, rake_bps, prev, s, n);
    }
}

/// Adds to what each seat has won its share of a pot of `net` chips.
fn share_out(
    won: &mut Vec<i128>,
    players: &Vec<PlayerState>,
    named: &Named,
    level: i128,
    net: i128,
)
    requires
        players@.len() <= u32::MAX,
        old(won)@.len() == players@.len(),
        exists|t: int| #[trigger] in_pot(players@, level, t),
        net >= 0,
        forall|s: int|
            0 <= s < players@.len() ==> 0 <= #[trigger] old(won)@[s] <= i128::MAX - share_of_pot(
                players@,
                *named,
                level,
                net as int,
                s,
            ),
    ensures
        final(won)@.len() == players@.len(),
        forall|s: int|
            0 <= s < players@.len() ==> #[trigger] final(won)@[s] == old(won)@[s] + share_of_pot(
                players@,
                *named,
                level,
                net as int,
                s,
            ),
{
    let (wins, n) = pot_winners(players, named, level);
    proof {
        let t = choose|t: int| #[trigger] in_pot(players@, level, t);
        lemma_pot_has_winner(players@, *named, level, t);
    }
    let each: i128 = net / n as i128;
    let rest: i128 = net % n as i128;
    let ghost w0 = won@;
    let mut first: bool = true;
    let mut i: usize = 0;
    while i < players.len()
        invariant
            i <= players@.len(),
            won@.len() == players@.len(),
            w0 == old(won)@,
            w0.len() == players@.len(),
            wins@.len() == players@.len(),
            net >= 0,
            n > 0,
            n == winners_before(players@, *named, level, players@.len() as int),
            each == net as int / n as int,
            rest == net as int % n as int,
            first <==> winners_before(players@, *named, level, i as int) == 0,
            forall|s: int|
                0 <= s < players@.len() ==> #[trigger] wins@[s] == wins_pot(
                    players@,
                    *named,
                    level,
                    s,
                ),
            forall|s: int|
                0 <= s < players@.len() ==> 0 <= #[trigger] w0[s] <= i128::MAX - share_of_pot(
                    players@,
                    *named,
                    level,
                    net as int,
                    s,
                ),
            forall|s: int|
                0 <= s < i ==> #[trigger] won@[s] == w0[s] + share_of_pot(
                    players@,
                    *named,
                    level,
                    net as int,
                    s,
                ),
            forall|s: int| i <= s < players@.len() ==> #[trigger] won@[s] == w0[s],
        decreases players@.len() - i,
    {
        proof {
            lemma_winners_grow(players@, *named, level, i as int, i as int);
            lemma_share_bound(players@, *named, level, net as int, i as int);
            assert(w0[i as int] == won@[i as int]);
        }
        if wins[i] {
            let share: i128 = if first {
                each + rest
            } else {
                each
            };
            assert(share == share_of_pot(
                players@,
                *named,
                level,
                net as int,
                i as int,
            ));
            won.set(i, won[i] + share);
            first = false;
        }
        i += 1;
    }
}

/// What each seat wins of the pot, and what the table takes of it.
#[verifier::rlimit(40)]
pub fn distribute(
    players: &Vec<PlayerState>,
    pot: i128,
    named: &Named,
    rake_bps: u32,
) -> (r: (Vec<i128>, i128))
    requires
        players@.len() <= u32::MAX,
        forall|i: int| 0 <= i < players@.len() ==> (#[trigger] players@[i]).committed >= 0,
        pot >= committed_total(players@),
        pot * 10_000 <= i128::MAX,
        rake_bps <= 10_000,
    ensures
        r.0@.len() == players@.len(),
        forall|s: int|
            0 <= s < players@.len() ==> #[trigger] r.0@[s] == winnings(
                players@,
                pot as int,
                *named,
                rake_bps,
                -1,
                s,
            ),
        r.1 == rake_above(players@, pot as int, rake_bps, -1),
{
    let ghost ps = players@;
    let mut won: Vec<i128> = Vec::new();
    while won.len() < players.len()
        invariant
            won@.len() <= players@.len(),
            forall|s: int| 0 <= s < won@.len() ==> #[trigger] won@[s] == 0,
        decreases players@.len() - won@.len(),
    {
        won.push(0);
    }
    let mut rake: i128 = 0;
    let mut prev: i128 = -1;
    let mut done: i128 = 0;
    proof {
        lemma_reach(ps, -1, 0);
        lemma_winnings_range(ps, pot as int, *named, rake_bps, -1);
    }
    let mut next: Option<i128> = next_level(players, prev);
    while next.is_some()
        invariant
            ps == players@,
            ps.len() <= u32::MAX,
            forall|i: int| 0 <= i < ps.len() ==> (#[trigger] ps[i]).committed >= 0,
            pot >= committed_total(ps),
            committed_total(ps) >= 0,
            pot * 10_000 <= i128::MAX,
            rake_bps <= 10_000,
            won@.len() == ps.len(),
            next == level_above(ps, prev as int),
            done == reach(ps, prev as int),
            forall|s: int|
                0 <= s < ps.len() ==> 0 <= #[trigger] winnings(
                    ps,
                    pot as int,
                    *named,
                    rake_bps,
                    -1,
                    s,
                ) <= pot,
            0 <= rake_above(ps, pot as int, rake_bps, -1) <= pot,
            forall|s: int|
                0 <= s < ps.len() ==> #[trigger] won@[s] + winnings(
                    ps,
                    pot as int,
                    *named,
                    rake_bps,
                    prev as int,
                    s,
                ) == winnings(ps, pot as int, *named, rake_bps, -1, s),
            forall|s: int| 0 <= s < ps.len() ==> 0 <= #[trigger] won@[s],
            rake >= 0,
            rake + rake_above(ps, pot as int, rake_bps, prev as int) == rake_above(
                ps,
                pot as int,
                rake_bps,
                -1,
            ),
        decreases count_above(ps, prev as int),
    {
        let level: i128 = next.unwrap();
        let above: Option<i128> = next_level(players, level);
        let upto: i128 = chips_up_to(players, level);
        proof {
            lemma_level_above(ps, prev as int);
            lemma_side_pot(ps, pot as int, rake_bps, prev as int);
            lemma_winnings_range(ps, pot as int, *named, rake_bps, level as int);
        }
        let amount: i128 = if above.is_none() {
            pot - done
        } else {
            upto - done
        };
        assert(amount == side_pot(ps, pot as int, prev as int, level));
        proof {
            assert(0 <= amount * rake_bps <= pot * 10_000) by (nonlinear_arith)
                requires
                    0 <= amount <= pot,
                    0 <= rake_bps <= 10_000,
            ;
        }
        let taken: i128 = amount * rake_bps as i128 / 10_000;
        let net: i128 = amount - taken;
        let ghost w0 = won@;
        proof {
            let i = choose|i: int|
                0 <= i < ps.len() && !(#[trigger] ps[i]).folded && ps[i].committed == level;
            assert(in_pot(ps, level, i));
            assert forall|s: int| 0 <= s < ps.len() implies 0 <= #[trigger] won@[s] <= i128::MAX
                - share_of_pot(ps, *named, level, net as int, s) by {
                lemma_share_bound(ps, *named, level, net as int, s);
                assert(won@[s] + winnings(
                    ps,
                    pot as int,
                    *named,
                    rake_bps,
                    prev as int,
                    s,
                ) == winnings(ps, pot as int, *named, rake_bps, -1, s));
                assert(winnings(ps, pot as int, *named, rake_bps, level as int, s) >= 0);
            }
        }
        share_out(&mut won, players, named, level, net);
        rake = rake + taken;
        proof {
            assert forall|s: int| 0 <= s < ps.len() implies #[trigger] won@[s] + winnings(
                ps,
                pot as int,
                *named,
                rake_bps,
                level as int,
                s,
            ) == winnings(ps, pot as int, *named, rake_bps, -1, s) && 0 <= won@[s] by {
                lemma_share_bound(ps, *named, level, net as int, s);
                assert(w0[s] + winnings(
                    ps,
                    pot as int,
                    *named,
                    rake_bps,
                    prev as int,
                    s,
                ) == winnings(ps, pot as int, *named, rake_bps, -1, s));
            }
        }
        prev = level;
        done = upto;
        next = above;
    }
    (won, rake)
}

/// The players with what they have won added to their stacks.
pub open spec fn paid_out(
    players: Seq<PlayerState>,
    pot: int,
    named: Named,
    rake_bps: u32,
) -> Seq<PlayerState> {
    Seq::new(
        players.len(),
        |i: int|
            PlayerState {
                stack: (players[i].stack + winnings(
                    players,
                    pot,
                    named,
                    rake_bps,
                    -1,
                    i,
                )) as i128,
                ..players[i]
            },
    )
}

/// What is paid to those of the first `k` seats that win anything, in order.
pub open spec fn payouts_before(
    players: Seq<PlayerState>,
    pot: int,
    named: Named,
    rake_bps: u32,
    k: int,
) -> Seq<(u32, i128)>
    decreases k,
{
    if k <= 0 {
        Seq::empty()
    } else {
        let rest = payouts_before(players, pot, named, rake_bps, k - 1);
        let won = winnings(players, pot, named, rake_bps, -1, k - 1);
        if won > 0 {
            rest.push(((k - 1) as u32, won as i128))
        } else {
            rest
        }
    }
}

/// All payouts of a hand.
pub open spec fn payouts_of(h: Hand, named: Named, rake_bps: u32) -> Seq<
    (u32, i128),
> {
    payouts_before(h.players, h.pot, named, rake_bps, h.players.len() as int)
}

impl Hand {
    /// The hand after the pot is shared out at a showdown.
    pub open spec fn showdown_won(
        self,
        named: Named,
        rake_bps: u32,
        share_bps: u32,
        now: u32,
    ) -> Hand {
        let rake = rake_above(self.players, self.pot, rake_bps, -1);
        let fed = Hand::jackpot_share(rake, share_bps);
        Hand {
            players: paid_out(self.players, self.pot, named, rake_bps),
            pot: 0,
            phase: GamePhase::Settlement,
            rake_balance: self.rake_balance + rake - fed,
            jackpot_balance: self.jackpot_balance + fed,
            settlement_entered_ledger: now,
            ..self
        }
    }
}

/// Stacks grow by what is won.
proof fn lemma_paid_stacks(
    players: Seq<PlayerState>,
    paid: Seq<PlayerState>,
    pot: int,
    named: Named,
    rake_bps: u32,
    k: int,
)
    requires
        0 <= k <= players.len() == paid.len(),
        forall|i: int|
            0 <= i < k ==> (#[trigger] paid[i]).stack == players[i].stack + winnings(
                players,
                pot,
                named,
                rake_bps,
                -1,
                i,
            ),
    ensures
        sum_by(paid.take(k), stack_of()) == sum_by(players.take(k), stack_of()) + winnings_before(
            players,
            pot,
            named,
            rake_bps,
            -1,
            k,
        ),
    decreases k,
{
    if k > 0 {
        lemma_paid_stacks(players, paid, pot, named, rake_bps, k - 1);
        assert(paid.take(k).drop_last() =~= paid.take(k - 1));
        assert(players.take(k).drop_last() =~= players.take(k - 1));
        assert(paid[k - 1].stack == players[k - 1].stack + winnings(
            players,
            pot,
            named,
            rake_bps,
            -1,
            k - 1,
        ));
    } else {
        assert(paid.take(k) =~= Seq::empty());
        assert(players.take(k) =~= Seq::empty());
    }
}

/// Sharing the pot out at a showdown neither makes nor loses a chip.
pub proof fn showdown_conserves_chips(
    h: Hand,
    named: Named,
    rake_bps: u32,
    share_bps: u32,
    now: u32,
    active: int,
)
    requires
        h.wf(),
        h.pot == committed_total(h.players),
        rake_bps <= 10_000,
        0 <= active < h.players.len(),
        !h.players[active].folded,
    ensures
        h.showdown_won(named, rake_bps, share_bps, now).chips() == h.chips(),
        h.showdown_won(named, rake_bps, share_bps, now).wf(),
        forall|i: int|
            0 <= i < h.players.len() ==> 0 <= #[trigger] winnings(
                h.players,
                h.pot,
                named,
                rake_bps,
                -1,
                i,
            ) && h.players[i].stack + winnings(h.players, h.pot, named, rake_bps, -1, i)
                <= i128::MAX,
        0 <= rake_above(h.players, h.pot, rake_bps, -1) <= h.pot,
{
    let (ps, pot) = (h.players, h.pot);
    let n = h.showdown_won(named, rake_bps, share_bps, now);
    let rake = rake_above(ps, pot, rake_bps, -1);
    assert forall|i: int| 0 <= i < ps.len() implies (#[trigger] ps[i]).committed >= 0 && ps[i].stack
        >= 0 by {}
    lemma_winnings_range(ps, pot, named, rake_bps, -1);
    side_pots_are_paid_in_full(ps, pot, named, rake_bps, -1);
    lemma_level_above(ps, -1);
    assert(ps[active].committed >= 0);
    lemma_reach(ps, -1, 0);
    share_within_rake(rake, share_bps);
    assert forall|i: int| 0 <= i < ps.len() implies 0 <= #[trigger] winnings(
        ps,
        pot,
        named,
        rake_bps,
        -1,
        i,
    ) && ps[i].stack + winnings(ps, pot, named, rake_bps, -1, i) <= i128::MAX by {
        lemma_stack_bounds(ps, i);
    }
    lemma_paid_stacks(ps, n.players, pot, named, rake_bps, ps.len() as int);
    assert(n.players.take(ps.len() as int) =~= n.players);
    assert(ps.take(ps.len() as int) =~= ps);
    assert forall|i: int| 0 <= i < n.players.len() implies {
        let p = #[trigger] n.players[i];
        &&& 0 <= p.stack
        &&& 0 <= p.bet_this_round <= p.committed
    } by {
        let p0 = ps[i];
        assert(winnings(ps, pot, named, rake_bps, -1, i) >= 0);
    }
}

/// Payouts go to seats that there are.
pub proof fn lemma_payout_seats(
    h: Hand,
    named: Named,
    rake_bps: u32,
    k: int,
)
    requires
        0 <= k <= h.players.len() <= u32::MAX,
    ensures
        ({
            let paid = payouts_before(h.players, h.pot, named, rake_bps, k);
            forall|i: int| 0 <= i < paid.len() ==> (#[trigger] paid[i]).0 < k
        }),
    decreases k,
{
    if k > 0 {
        lemma_payout_seats(h, named, rake_bps, k - 1);
        let rest = payouts_before(h.players, h.pot, named, rake_bps, k - 1);
        let paid = payouts_before(h.players, h.pot, named, rake_bps, k);
        assert forall|i: int| 0 <= i < paid.len() implies (#[trigger] paid[i]).0 < k by {
            if i < rest.len() {
                assert(paid[i] == rest[i]);
            }
        }
    }
}

/// What a settled showdown took and paid.
#[derive(Debug)]
pub struct Settled {
    pub payouts: Vec<(u32, i128)>,
    pub total_pot: i128,
    pub rake: i128,
}

/// Shares the pot out among the winners of a showdown at ledger `now`, less the rake.
#[verifier::rlimit(40)]
pub fn settle_showdown(table: &mut TableState, named: &Named, now: u32) -> (r:
    Settled)
    requires
        old(table).hand().wf(),
        old(table).pot == committed_total(old(table).players@),
        settlement_fits(*old(table)),
        exists|i: int|
            0 <= i < old(table).players@.len() && !(#[trigger] old(table).players@[i]).folded,
    ensures
        final(table).hand() == old(table).hand().showdown_won(
            *named,
            old(table).config.rake_bps,
            old(table).config.jackpot_rake_share_bps,
            now,
        ),
        old(table).same_but_hand(*final(table)),
        final(table).hand().chips() == old(table).hand().chips(),
        final(table).hand().wf(),
        r.payouts@ == payouts_of(old(table).hand(), *named, old(table).config.rake_bps),
        final(table).jackpot_balance >= old(table).jackpot_balance,
        r.total_pot == old(table).pot,
        r.rake == rake_above(
            old(table).players@,
            old(table).pot as int,
            old(table).config.rake_bps,
            -1,
        ),
{
    let ghost h = table.hand();
    let ghost ps = table.players@;
    let pot: i128 = table.pot;
    let rake_bps: u32 = table.config.rake_bps;
    proof {
        let i = choose|i: int| 0 <= i < ps.len() && !(#[trigger] ps[i]).folded;
        showdown_conserves_chips(
            h,
            *named,
            rake_bps,
            table.config.jackpot_rake_share_bps,
            now,
            i,
        );
        assert forall|j: int| 0 <= j < ps.len() implies (#[trigger] ps[j]).committed >= 0 by {}
    }
    let (won, rake) = distribute(&table.players, pot, named, rake_bps);
    let ghost paid = paid_out(ps, pot as int, *named, rake_bps);
    let mut payouts: Vec<(u32, i128)> = Vec::new();
    let mut i: usize = 0;
    assert(table.players@ =~= paid.take(0) + ps.skip(0));
    while i < table.players.len()
        invariant
            i <= ps.len() <= u32::MAX,
            ps == h.players,
            pot == h.pot,
            h == old(table).hand(),
            paid == paid_out(ps, pot as int, *named, rake_bps),
            table.players@.len() == ps.len(),
            table.players@ == paid.take(i as int) + ps.skip(i as int),
            won@.len() == ps.len(),
            forall|s: int|
                0 <= s < ps.len() ==> #[trigger] won@[s] == winnings(
                    ps,
                    pot as int,
                    *named,
                    rake_bps,
                    -1,
                    s,
                ),
            forall|s: int|
                0 <= s < ps.len() ==> 0 <= #[trigger] winnings(
                    ps,
                    pot as int,
                    *named,
                    rake_bps,
                    -1,
                    s,
                ) && ps[s].stack + winnings(ps, pot as int, *named, rake_bps, -1, s)
                    <= i128::MAX,
            payouts@ == payouts_before(ps, pot as int, *named, rake_bps, i as int),
            h.wf(),
            old(table).same_but_hand(*table),
            table.hand() == (Hand { players: table.players@, ..h }),
        decreases ps.len() - i,
    {
        let p = table.players[i];
        let amount: i128 = won[i];
        assert(p == ps[i as int]);
        assert(amount == winnings(ps, pot as int, *named, rake_bps, -1, i as int));
        assert(0 <= ps[i as int].stack);
        let next = PlayerState {
            address: p.address,
            stack: p.stack + amount,
            bet_this_round: p.bet_this_round,
            committed: p.committed,
            folded: p.folded,
            all_in: p.all_in,
            sitting_out: p.sitting_out,
            seat_index: p.seat_index,
            total_buy_in: p.total_buy_in,
            rebuy_count: p.rebuy_count,
        };
        assert(next == paid[i as int]);
        table.players.set(i, next);
        if amount > 0 {
            payouts.push((i as u32, amount));
        }
        assert(table.players@ =~= paid.take(i + 1) + ps.skip(i + 1));
        i += 1;
    }
    assert(table.players@ =~= paid);
    proof {
        lemma_stack_bounds(ps, 0);
    }
    let fed: i128 = jackpot_share_of(rake, table.config.jackpot_rake_share_bps);
    table.pot = 0;
    table.rake_balance = table.rake_balance + (rake - fed);
    table.jackpot_balance = table.jackpot_balance + fed;
    table.phase = GamePhase::Settlement;
    table.settlement_entered_ledger = now;
    assert(table.hand() =~= h.showdown_won(
        *named,
        rake_bps,
        table.config.jackpot_rake_share_bps,
        now,
    ));
    Settled { payouts, total_pot: pot, rake }
}

/// The showdown names the winners of its runs and the seats whose bit is set among the ties, and
/// nobody else.
pub proof fn winners_and_ties_are_named(named: Named, seat: u32)
    ensures
        named.has(seat) <==> seat == named.first || seat == named.second || (seat < 32 && (
        named.tie_mask >> seat) & 1u32 == 1u32),
{
}

proof fn lemma_even_shares(
    players: Seq<PlayerState>,
    named: Named,
    level: i128,
    net: int,
    a: int,
    b: int,
)
    requires
        net >= 0,
        0 <= a < players.len() <= u32::MAX,
        0 <= b < players.len(),
        players[a].folded == players[b].folded,
        players[a].committed == players[b].committed,
        named.has(a as u32) == named.has(b as u32),
    ensures
        ({
            let d = share_of_pot(players, named, level, net, a) - share_of_pot(
                players,
                named,
                level,
                net,
                b,
            );
            -players.len() < d < players.len() && (a < b ==> d >= 0)
        }),
{
    assert(in_pot(players, level, a) == in_pot(players, level, b));
    assert(wins_pot(players, named, level, a) == wins_pot(players, named, level, b));
    if wins_pot(players, named, level, a) {
        let n = winners_before(players, named, level, players.len() as int);
        lemma_pot_has_winner(players, named, level, a);
        lemma_winners_grow(players, named, level, 0, players.len() as int);
        if a < b {
            lemma_winners_grow(players, named, level, a, a);
            lemma_winners_grow(players, named, level, a + 1, b);
        }
        assert(0 <= net % n < n) by (nonlinear_arith)
            requires
                n > 0,
        ;
    }
}

proof fn lemma_even_winnings(
    players: Seq<PlayerState>,
    pot: int,
    named: Named,
    rake_bps: u32,
    prev: int,
    a: int,
    b: int,
)
    requires
        forall|i: int| 0 <= i < players.len() ==> (#[trigger] players[i]).committed >= 0,
        pot >= committed_total(players),
        rake_bps <= 10_000,
        0 <= a < players.len() <= u32::MAX,
        0 <= b < players.len(),
        players[a].folded == players[b].folded,
        players[a].committed == players[b].committed,
        named.has(a as u32) == named.has(b as u32),
    ensures
        ({
            let d = winnings(players, pot, named, rake_bps, prev, a) - winnings(
                players,
                pot,
                named,
                rake_bps,
                prev,
                b,
            );
            let most = count_above(players, prev) * players.len();
            -most <= d <= most && (a < b ==> d >= 0)
        }),
    decreases count_above(players, prev),
{
    let n = players.len();
    lemma_level_above(players, prev);
    if let Some(level) = level_above(players, prev) {
        lemma_even_winnings(players, pot, named, rake_bps, level as int, a, b);
        lemma_side_pot(players, pot, rake_bps, prev);
        let amount = side_pot(players, pot, prev, level);
        lemma_even_shares(players, named, level, amount - rake_on(amount, rake_bps), a, b);
        let (c, d) = (count_above(players, level as int), count_above(players, prev));
        assert(c * n + n <= d * n) by (nonlinear_arith)
            requires
                c < d,
        ;
    } else {
        assert(0 <= count_above(players, prev) * n) by (nonlinear_arith);
    }
}

proof fn lemma_count_above_bound(players: Seq<PlayerState>, prev: int)
    ensures
        count_above(players, prev) <= players.len(),
    decreases players.len(),
{
    if players.len() > 0 {
        lemma_count_above_bound(players.drop_last(), prev);
    }
}

/// Two players who have put in the same and whom the showdown both names, or both does not, win the
/// same up to the odd chips: fewer than there are players in each side pot. Where all who are still
/// in the hand have put in the same there is one pot, and the two differ by fewer chips than there
/// are players. The odd chips are for the first in the order of the seats.
pub proof fn equals_win_alike(
    players: Seq<PlayerState>,
    pot: int,
    named: Named,
    rake_bps: u32,
    a: int,
    b: int,
)
    requires
        forall|i: int| 0 <= i < players.len() ==> (#[trigger] players[i]).committed >= 0,
        pot >= committed_total(players),
        rake_bps <= 10_000,
        0 <= a < players.len() <= u32::MAX,
        0 <= b < players.len(),
        players[a].folded == players[b].folded,
        players[a].committed == players[b].committed,
        named.has(a as u32) == named.has(b as u32),
    ensures
        ({
            let d = winnings(players, pot, named, rake_bps, -1, a) - winnings(
                players,
                pot,
                named,
                rake_bps,
                -1,
                b,
            );
            &&& -(players.len() * players.len()) <= d <= players.len() * players.len()
            &&& a < b ==> d >= 0
            &&& (forall|i: int|
                0 <= i < players.len() && !(#[trigger] players[i]).folded ==> players[i].committed
                    == players[a].committed) ==> -players.len() < d < players.len()
        }),
{
    let n = players.len();
    lemma_even_winnings(players, pot, named, rake_bps, -1, a, b);
    lemma_count_above_bound(players, -1);
    let c = count_above(players, -1);
    assert(c * n <= n * n) by (nonlinear_arith)
        requires
            0 <= c <= n,
    ;
    if forall|i: int|
        0 <= i < players.len() && !(#[trigger] players[i]).folded ==> players[i].committed
            == players[a].committed {
        lemma_level_above(players, -1);
        if let Some(level) = level_above(players, -1) {
            lemma_side_pot(players, pot, rake_bps, -1);
            let amount = side_pot(players, pot, -1, level);
            lemma_even_shares(players, named, level, amount - rake_on(amount, rake_bps), a, b);
            lemma_level_above(players, level as int);
            assert(level_above(players, level as int) is None);
            assert(winnings(players, pot, named, rake_bps, level as int, a) == 0);
            assert(winnings(players, pot, named, rake_bps, level as int, b) == 0);
        }
    }
}

proof fn lemma_beaten(
    players: Seq<PlayerState>,
    pot: int,
    named: Named,
    rake_bps: u32,
    prev: int,
    w: int,
    seat: int,
)
    requires
        0 <= w < players.len() <= u32::MAX,
        0 <= seat < players.len(),
        !players[w].folded,
        named.has(w as u32),
        !named.has(seat as u32),
        players[seat].committed <= players[w].committed,
    ensures
        winnings(players, pot, named, rake_bps, prev, seat) == 0,
    decreases count_above(players, prev),
{
    lemma_level_above(players, prev);
    if let Some(level) = level_above(players, prev) {
        lemma_beaten(players, pot, named, rake_bps, level as int, w, seat);
        if in_pot(players, level, seat) {
            assert(in_pot(players, level, w));
            assert(pot_is_named(players, named, level));
        }
    }
}

/// A player whom the showdown does not name wins nothing where a player whom it names, still in the
/// hand, has put in at least as much.
pub proof fn beaten_players_win_nothing(
    players: Seq<PlayerState>,
    pot: int,
    named: Named,
    rake_bps: u32,
    w: int,
    seat: int,
)
    requires
        0 <= w < players.len() <= u32::MAX,
        0 <= seat < players.len(),
        !players[w].folded,
        named.has(w as u32),
        !named.has(seat as u32),
        players[seat].committed <= players[w].committed,
    ensures
        winnings(players, pot, named, rake_bps, -1, seat) == 0,
{
    lemma_beaten(players, pot, named, rake_bps, -1, w, seat);
}

/// One winner alone is one winner.
proof fn lemma_lone_winner(
    players: Seq<PlayerState>,
    named: Named,
    level: i128,
    w: int,
    k: int,
)
    requires
        0 <= k,
        0 <= w,
        forall|s: int| #[trigger] wins_pot(players, named, level, s) <==> s == w,
    ensures
        winners_before(players, named, level, k) == (if w < k {
            1int
        } else {
            0
        }),
    decreases k,
{
    if k > 0 {
        lemma_lone_winner(players, named, level, w, k - 1);
        assert(wins_pot(players, named, level, k - 1) <==> k - 1 == w);
    }
}

proof fn lemma_lone_share(
    players: Seq<PlayerState>,
    named: Named,
    level: i128,
    net: int,
    w: int,
)
    requires
        0 <= w < players.len(),
        forall|s: int| #[trigger] wins_pot(players, named, level, s) <==> s == w,
    ensures
        share_of_pot(players, named, level, net, w) == net,
{
    lemma_lone_winner(players, named, level, w, w);
    lemma_lone_winner(players, named, level, w, players.len() as int);
    assert(wins_pot(players, named, level, w));
    assert(net / 1 == net && net % 1 == 0);
}

/// What is left of an amount after its rake.
proof fn lemma_net(amount: int, rake_bps: u32)
    ensures
        amount * (10_000 - rake_bps) <= 10_000 * (amount - rake_on(amount, rake_bps)) < amount * (
        10_000 - rake_bps) + 10_000,
{
    assert(amount * (10_000 - rake_bps) == 10_000 * amount - amount * rake_bps)
        by (nonlinear_arith);
}

proof fn lemma_sole_winner(
    players: Seq<PlayerState>,
    pot: int,
    named: Named,
    rake_bps: u32,
    prev: int,
    w: int,
    matched: int,
)
    requires
        forall|i: int| 0 <= i < players.len() ==> (#[trigger] players[i]).committed >= 0,
        pot >= committed_total(players),
        rake_bps <= 10_000,
        0 <= w < players.len() <= u32::MAX,
        !players[w].folded,
        prev <= players[w].committed,
        prev < players[w].committed ==> matched == (if level_above(
            players,
            players[w].committed as int,
        ) is None {
            pot
        } else {
            reach(players, players[w].committed as int)
        }) - reach(players, prev),
        prev == players[w].committed ==> matched == 0,
        forall|i: int|
            0 <= i < players.len() ==> (#[trigger] named.has(i as u32) <==> i == w),
    ensures
        ({
            let won = winnings(players, pot, named, rake_bps, prev, w);
            matched * (10_000 - rake_bps) <= 10_000 * won <= matched * (10_000 - rake_bps) + 10_000
                * count_above(players, prev)
        }),
    decreases count_above(players, prev),
{
    let c = players[w].committed;
    lemma_level_above(players, prev);
    if prev == c {
        lemma_uncommitted(players, pot, named, rake_bps, prev, w);
        assert(0 * (10_000 - rake_bps) == 0) by (nonlinear_arith);
    } else {
        let level = level_above(players, prev)->0;
        let amount = side_pot(players, pot, prev, level);
        let net = amount - rake_on(amount, rake_bps);
        assert(level <= c);
        lemma_level_above(players, level as int);
        let rest = if level == c {
            0
        } else {
            (if level_above(players, c as int) is None {
                pot
            } else {
                reach(players, c as int)
            }) - reach(players, level as int)
        };
        if level < c {
            assert(level_above(players, level as int) is Some);
        }
        lemma_sole_winner(players, pot, named, rake_bps, level as int, w, rest);
        assert forall|s: int| #[trigger] wins_pot(players, named, level, s) <==> s == w by {
            assert(in_pot(players, level, w));
            assert(named.has(w as u32));
            if 0 <= s < players.len() {
                assert(named.has(s as u32) <==> s == w);
            }
        }
        lemma_lone_share(players, named, level, net, w);
        lemma_net(amount, rake_bps);
        assert(matched == amount + rest);
        assert(matched * (10_000 - rake_bps) == amount * (10_000 - rake_bps) + rest * (10_000
            - rake_bps)) by (nonlinear_arith)
            requires
                matched == amount + rest,
        ;
    }
}

proof fn lemma_uncommitted(
    players: Seq<PlayerState>,
    pot: int,
    named: Named,
    rake_bps: u32,
    prev: int,
    seat: int,
)
    requires
        0 <= seat < players.len(),
        players[seat].committed <= prev,
    ensures
        winnings(players, pot, named, rake_bps, prev, seat) == 0,
    decreases count_above(players, prev),
{
    lemma_level_above(players, prev);
    if let Some(level) = level_above(players, prev) {
        lemma_uncommitted(players, pot, named, rake_bps, level as int, seat);
    }
}

/// A sole winner collects from every player as many chips as they have put in themselves, or the
/// whole pot where nobody still in the hand has put in more. The rake comes off: of what is
/// collected it is the configured part, with fractions dropped in each side pot.
pub proof fn sole_winner_collects_what_they_match(
    players: Seq<PlayerState>,
    pot: int,
    named: Named,
    rake_bps: u32,
    w: int,
)
    requires
        forall|i: int| 0 <= i < players.len() ==> (#[trigger] players[i]).committed >= 0,
        pot >= committed_total(players),
        rake_bps <= 10_000,
        0 <= w < players.len() <= u32::MAX,
        !players[w].folded,
        players[w].committed > 0,
        forall|i: int|
            0 <= i < players.len() ==> (#[trigger] named.has(i as u32) <==> i == w),
    ensures
        ({
            let c = players[w].committed;
            let won = winnings(players, pot, named, rake_bps, -1, w);
            let covered = exists|i: int|
                0 <= i < players.len() && !(#[trigger] players[i]).folded && players[i].committed
                    > c;
            let matched = if covered {
                sum_by(
                    players,
                    |p: PlayerState|
                        if p.committed < c {
                            p.committed as int
                        } else {
                            c as int
                        },
                )
            } else {
                pot
            };
            matched * (10_000 - rake_bps) <= 10_000 * won <= matched * (10_000 - rake_bps) + 10_000
                * players.len()
        }),
{
    let c = players[w].committed;
    let f = |p: PlayerState|
        if p.committed < c {
            p.committed as int
        } else {
            c as int
        };
    lemma_sum_agree(players, f, up_to(c as int));
    assert(reach(players, c as int) == sum_by(players, f));
    lemma_level_above(players, c as int);
    lemma_reach(players, -1, c as int);
    let matched = (if level_above(players, c as int) is None {
        pot
    } else {
        reach(players, c as int)
    }) - reach(players, -1);
    lemma_sole_winner(players, pot, named, rake_bps, -1, w, matched);
    lemma_count_above_bound(players, -1);
}

proof fn lemma_uncalled(
    players: Seq<PlayerState>,
    pot: int,
    named: Named,
    rake_bps: u32,
    prev: int,
    seat: int,
    c: int,
)
    requires
        forall|i: int| 0 <= i < players.len() ==> (#[trigger] players[i]).committed >= 0,
        pot >= committed_total(players),
        rake_bps <= 10_000,
        0 <= seat < players.len() <= u32::MAX,
        !players[seat].folded,
        prev <= c < players[seat].committed,
        forall|i: int|
            0 <= i < players.len() && i != seat && !(#[trigger] players[i]).folded
                ==> players[i].committed <= c,
    ensures
        10_000 * winnings(players, pot, named, rake_bps, prev, seat) >= (pot - reach(players, c))
            * (10_000 - rake_bps),
    decreases count_above(players, prev),
{
    lemma_level_above(players, prev);
    let level = level_above(players, prev)->0;
    lemma_side_pot(players, pot, rake_bps, prev);
    let amount = side_pot(players, pot, prev, level);
    let net = amount - rake_on(amount, rake_bps);
    lemma_share_bound(players, named, level, net, seat);
    if level <= c {
        lemma_uncalled(players, pot, named, rake_bps, level as int, seat, c);
    } else {
        assert(level == players[seat].committed);
        lemma_level_above(players, level as int);
        assert(level_above(players, level as int) is None);
        assert forall|s: int| #[trigger] wins_pot(players, named, level, s) <==> s == seat by {
            assert(in_pot(players, level, seat));
            assert(in_pot(players, level, s) ==> s == seat);
            if pot_is_named(players, named, level) {
                let t = choose|t: int| #[trigger]
                    in_pot(players, level, t) && named.has(t as u32);
                assert(t == seat);
            }
        }
        lemma_lone_share(players, named, level, net, seat);
        lemma_net(amount, rake_bps);
        lemma_reach(players, prev, c);
        assert(winnings(players, pot, named, rake_bps, level as int, seat) == 0);
        let least = pot - reach(players, c);
        assert(amount * (10_000 - rake_bps) >= least * (10_000 - rake_bps)) by (nonlinear_arith)
            requires
                amount >= least,
                rake_bps <= 10_000,
        ;
    }
}

/// Chips that nobody has matched come back: a player still in the hand wins at least what the pot
/// holds above the most that another has put in, less the rake on it, whoever wins the showdown.
pub proof fn unmatched_chips_come_back(
    players: Seq<PlayerState>,
    pot: int,
    named: Named,
    rake_bps: u32,
    seat: int,
    c: i128,
)
    requires
        forall|i: int| 0 <= i < players.len() ==> (#[trigger] players[i]).committed >= 0,
        pot >= committed_total(players),
        rake_bps <= 10_000,
        0 <= seat < players.len() <= u32::MAX,
        !players[seat].folded,
        0 <= c < players[seat].committed,
        forall|i: int|
            0 <= i < players.len() && i != seat ==> (#[trigger] players[i]).committed <= c,
    ensures
        10_000 * winnings(players, pot, named, rake_bps, -1, seat) >= (players[seat].committed - c)
            * (10_000 - rake_bps),
{
    lemma_uncalled(players, pot, named, rake_bps, -1, seat, c as int);
    lemma_reach_short(players, seat, c as int);
    let (least, more) = (players[seat].committed - c, pot - reach(players, c as int));
    assert(more * (10_000 - rake_bps) >= least * (10_000 - rake_bps)) by (nonlinear_arith)
        requires
            more >= least,
            rake_bps <= 10_000,
    ;
}

proof fn lemma_reach_short(players: Seq<PlayerState>, seat: int, c: int)
    requires
        0 <= seat < players.len(),
        0 <= c < players[seat].committed,
        forall|i: int| 0 <= i < players.len() ==> (#[trigger] players[i]).committed >= 0,
    ensures
        committed_total(players) - reach(players, c) >= players[seat].committed - c,
    decreases players.len(),
{
    let d = players.drop_last();
    assert forall|i: int| 0 <= i < d.len() implies (#[trigger] d[i]).committed >= 0 by {
        assert(d[i] == players[i]);
    }
    assert(players[players.len() - 1].committed >= 0);
    if seat < d.len() {
        assert(d[seat] == players[seat]);
        lemma_reach_short(d, seat, c);
    } else {
        lemma_reach(d, c, c);
    }
}

proof fn lemma_rake_above(players: Seq<PlayerState>, pot: int, rake_bps: u32, prev: int)
    ensures
        level_above(players, prev) is Some ==> {
            let (rake, all) = (
                rake_above(players, pot, rake_bps, prev),
                (pot - reach(players, prev)) * rake_bps,
            );
            10_000 * rake <= all < 10_000 * (rake + count_above(players, prev))
        },
        level_above(players, prev) is None ==> rake_above(players, pot, rake_bps, prev) == 0,
    decreases count_above(players, prev),
{
    lemma_level_above(players, prev);
    if let Some(level) = level_above(players, prev) {
        lemma_rake_above(players, pot, rake_bps, level as int);
        lemma_level_above(players, level as int);
        let amount = side_pot(players, pot, prev, level);
        let rest = pot - reach(players, level as int);
        if level_above(players, level as int) is Some {
            assert((pot - reach(players, prev)) * rake_bps == amount * rake_bps + rest * rake_bps)
                by (nonlinear_arith)
                requires
                    pot - reach(players, prev) == amount + rest,
            ;
        }
    }
}

/// The rake of a showdown is the configured part of the pot, with fractions dropped in each side
/// pot: never more, and less by fewer chips than there are players.
pub proof fn showdown_rake_is_its_part_of_the_pot(
    players: Seq<PlayerState>,
    pot: int,
    rake_bps: u32,
    active: int,
)
    requires
        0 <= active < players.len(),
        !players[active].folded,
        forall|i: int| 0 <= i < players.len() ==> (#[trigger] players[i]).committed >= 0,
    ensures
        ({
            let rake = rake_above(players, pot, rake_bps, -1);
            10_000 * rake <= pot * rake_bps < 10_000 * (rake + players.len())
        }),
{
    lemma_level_above(players, -1);
    assert(players[active].committed >= 0);
    lemma_rake_above(players, pot, rake_bps, -1);
    lemma_reach(players, -1, -1);
    lemma_count_above_bound(players, -1);
}

/// After a showdown every stack has grown by what its player has won, the pot is empty, and what
/// was not won is in the rake and the jackpot, which takes its part of the rake. What players have
/// put in, and whether they have folded, stays on record.
pub proof fn showdown_adds_winnings_to_stacks(
    h: Hand,
    named: Named,
    rake_bps: u32,
    share_bps: u32,
    now: u32,
    active: int,
    i: int,
)
    requires
        h.wf(),
        h.pot == committed_total(h.players),
        rake_bps <= 10_000,
        0 <= active < h.players.len(),
        !h.players[active].folded,
        0 <= i < h.players.len(),
    ensures
        ({
            let n = h.showdown_won(named, rake_bps, share_bps, now);
            let rake = n.rake_balance + n.jackpot_balance - h.rake_balance - h.jackpot_balance;
            let fed = n.jackpot_balance - h.jackpot_balance;
            &&& n.players.len() == h.players.len()
            &&& n.players[i].stack - h.players[i].stack == winnings(
                h.players,
                h.pot,
                named,
                rake_bps,
                -1,
                i,
            )
            &&& n.players[i].folded == h.players[i].folded && n.players[i].committed
                == h.players[i].committed && n.players[i].address == h.players[i].address
            &&& n.pot == 0
            &&& n.phase is Settlement
            &&& n.settlement_entered_ledger == now
            &&& 10_000 * rake <= h.pot * rake_bps < 10_000 * (rake + h.players.len())
            &&& share_bps >= 10_000 ==> fed == rake
            &&& share_bps < 10_000 ==> 10_000 * fed <= rake * share_bps < 10_000 * (fed + 1)
        }),
{
    showdown_conserves_chips(h, named, rake_bps, share_bps, now, active);
    assert(0 <= winnings(h.players, h.pot, named, rake_bps, -1, i));
    assert forall|j: int| 0 <= j < h.players.len() implies (#[trigger] h.players[j]).committed
        >= 0 by {}
    showdown_rake_is_its_part_of_the_pot(h.players, h.pot, rake_bps, active);
}

proof fn lemma_payout_amounts(
    players: Seq<PlayerState>,
    pot: int,
    named: Named,
    rake_bps: u32,
    k: int,
    seat: int,
)
    requires
        0 <= k <= players.len() <= u32::MAX,
        0 <= seat < k,
        forall|i: int|
            0 <= i < players.len() ==> 0 <= #[trigger] winnings(
                players,
                pot,
                named,
                rake_bps,
                -1,
                i,
            ) <= i128::MAX,
    ensures
        ({
            let paid = payouts_before(players, pot, named, rake_bps, k);
            let won = winnings(players, pot, named, rake_bps, -1, seat);
            &&& won > 0 ==> paid.contains((seat as u32, won as i128))
            &&& forall|j: int| 0 <= j < paid.len() ==> (#[trigger] paid[j]).1 > 0
            &&& forall|j: int|
                0 <= j < paid.len() && (#[trigger] paid[j]).0 == seat ==> paid[j].1 == won
            &&& forall|j: int, l: int|
                0 <= j < l < paid.len() ==> (#[trigger] paid[j]).0 < (#[trigger] paid[l]).0
            &&& forall|j: int| 0 <= j < paid.len() ==> (#[trigger] paid[j]).0 < k
        }),
    decreases k,
{
    let rest = payouts_before(players, pot, named, rake_bps, k - 1);
    let paid = payouts_before(players, pot, named, rake_bps, k);
    let last = winnings(players, pot, named, rake_bps, -1, k - 1);
    let won = winnings(players, pot, named, rake_bps, -1, seat);
    assert(0 <= last <= i128::MAX);
    if k > 1 {
        lemma_payout_amounts(
            players,
            pot,
            named,
            rake_bps,
            k - 1,
            if seat < k - 1 {
                seat
            } else {
                0
            },
        );
    } else {
        assert(payouts_before(players, pot, named, rake_bps, 0).len() == 0);
    }
    if seat < k - 1 && won > 0 {
        let j = rest.index_of((seat as u32, won as i128));
        assert(paid[j] == (seat as u32, won as i128));
    } else if seat == k - 1 && won > 0 {
        assert(paid[paid.len() - 1] == (seat as u32, won as i128));
    }
}

/// The payouts of a showdown list every player who has won something, once, in the order of the
/// seats, with what they have won; and nobody else.
pub proof fn payouts_list_the_winners(
    h: Hand,
    named: Named,
    rake_bps: u32,
    active: int,
    seat: int,
)
    requires
        h.wf(),
        h.pot == committed_total(h.players),
        rake_bps <= 10_000,
        0 <= active < h.players.len(),
        !h.players[active].folded,
        0 <= seat < h.players.len(),
    ensures
        ({
            let paid = payouts_of(h, named, rake_bps);
            let won = winnings(h.players, h.pot, named, rake_bps, -1, seat);
            &&& won > 0 ==> paid.contains((seat as u32, won as i128))
            &&& forall|j: int|
                0 <= j < paid.len() && (#[trigger] paid[j]).0 == seat ==> paid[j].1 == won
                    && won > 0
            &&& forall|j: int, l: int|
                0 <= j < l < paid.len() ==> (#[trigger] paid[j]).0 < (#[trigger] paid[l]).0
        }),
{
    showdown_conserves_chips(h, named, rake_bps, 0, 0, active);
    assert forall|i: int| 0 <= i < h.players.len() implies 0 <= #[trigger] winnings(
        h.players,
        h.pot,
        named,
        rake_bps,
        -1,
        i,
    ) <= i128::MAX by {
        assert(h.players[i].stack >= 0);
    }
    lemma_payout_amounts(h.players, h.pot, named, rake_bps, h.players.len() as int, seat);
}

} // verus!
