//! Straddles: a third blind that a player may post before the cards are dealt.

use crate::poker_table::game::{
    left_of, lemma_stack_bounds, lemma_stack_update, payable, straddle_posted,
};
use crate::poker_table::types::{
    uncapped_straddle, MississippiStraddle, PlayerState, StraddleConfig, StraddlePosition,
    TableState,
};
use vstd::prelude::*;

verus! {

/// Whether a straddle can be set up so: none, or two or three big blinds, with a cap that is not
/// negative.
pub open spec fn valid_straddle(multiplier: u32, amount_cap: i128) -> bool {
    (multiplier == 0 || multiplier == 2 || multiplier == 3) && amount_cap >= 0
}

/// Whether players volunteer for a straddle, at any seat.
pub open spec fn by_volunteers(position: StraddlePosition) -> bool {
    position is Mississippi || position is Any
}

/// A straddle, no larger than its cap.
pub open spec fn capped_straddle(cfg: StraddleConfig, big_blind: i128, on_big_blind: bool) -> int {
    let raw = uncapped_straddle(cfg.multiplier, big_blind, on_big_blind);
    if cfg.amount_cap > 0 && raw > cfg.amount_cap {
        cfg.amount_cap as int
    } else {
        raw
    }
}

/// The seat and the amount of the straddle of a hand of `n` players with the given button, if
/// there is one. Without a volunteer it falls to the button.
pub open spec fn straddle_of(
    cfg: Option<StraddleConfig>,
    volunteer: Option<MississippiStraddle>,
    n: int,
    button: int,
    big_blind: i128,
) -> Option<(int, int)> {
    if cfg is None || (cfg->0).multiplier == 0 {
        None
    } else {
        let c = cfg->0;
        match c.position {
            StraddlePosition::BigBlind => Some(
                ((button + 2) % n, capped_straddle(c, big_blind, true)),
            ),
            StraddlePosition::Utg => Some(((button + 3) % n, capped_straddle(c, big_blind, false))),
            StraddlePosition::Button => Some((button, capped_straddle(c, big_blind, false))),
            StraddlePosition::Custom(seat) => if seat < n {
                Some((seat as int, capped_straddle(c, big_blind, false)))
            } else {
                None
            },
            StraddlePosition::Mississippi | StraddlePosition::Any => match volunteer {
                Some(v) => if v.seat < n {
                    Some((v.seat as int, v.amount as int))
                } else {
                    None
                },
                None => Some((button, capped_straddle(c, big_blind, false))),
            },
        }
    }
}

/// Finds the seat and the amount of the straddle of a hand.
pub fn choose_straddle(
    cfg: &Option<StraddleConfig>,
    volunteer: &Option<MississippiStraddle>,
    n: u32,
    button: u32,
    big_blind: i128,
) -> (r: Option<(u32, i128)>)
    requires
        0 < n <= 6,
        button < n,
        big_blind >= 0,
        cfg matches Some(c) ==> valid_straddle(c.multiplier, c.amount_cap),
        big_blind * 3 <= i128::MAX,
        volunteer matches Some(v) ==> v.amount >= 0,
    ensures
        match (r, straddle_of(*cfg, *volunteer, n as int, button as int, big_blind)) {
            (Some((s, a)), Some((s2, a2))) => s == s2 && a == a2 && s < n && a >= 0,
            (None, None) => true,
            _ => false,
        },
{
    let c = match cfg {
        Some(c) => *c,
        None => {
            return None;
        },
    };
    if c.multiplier == 0 {
        return None;
    }
    let on_blind: bool = c.position == StraddlePosition::BigBlind;
    let amount: i128 = c.effective_amount(big_blind, on_blind);
    match c.position {
        StraddlePosition::BigBlind => Some(((button + 2) % n, amount)),
        StraddlePosition::Utg => Some(((button + 3) % n, amount)),
        StraddlePosition::Button => Some((button, amount)),
        StraddlePosition::Custom(seat) => if seat < n {
            Some((seat, amount))
        } else {
            None
        },
        StraddlePosition::Mississippi | StraddlePosition::Any => match volunteer {
            Some(v) => if v.seat < n {
                Some((v.seat, v.amount))
            } else {
                None
            },
            None => Some((button, amount)),
        },
    }
}

/// Posts a straddle at a seat and returns what was paid.
pub fn post_straddle(table: &mut TableState, seat: usize, amount: i128) -> (r: i128)
    requires
        old(table).hand().wf(),
        !old(table).phase.between_hands(),
        seat < old(table).players@.len(),
        amount >= 0,
    ensures
        r == payable(old(table).players@[seat as int].stack as int, amount as int),
        final(table).players@ == old(table).players@.update(
            seat as int,
            straddle_posted(old(table).players@[seat as int], amount as int),
        ),
        final(table).pot == old(table).pot + r,
        *final(table) == (TableState {
            players: final(table).players,
            pot: final(table).pot,
            ..*old(table)
        }),
        final(table).hand().wf(),
        final(table).hand().chips() == old(table).hand().chips(),
        ({
            let (p, q) = (old(table).players@[seat as int], final(table).players@[seat as int]);
            &&& r == amount || (r == p.stack && p.stack < amount)
            &&& p.stack - q.stack == r
            &&& q.committed - p.committed == r
            &&& q.bet_this_round - p.bet_this_round == r
        }),
{
    let ghost h = table.hand();
    let p = table.players[seat];
    proof {
        lemma_stack_bounds(table.players@, seat as int);
    }
    let short: bool = p.stack < amount;
    let paid: i128 = if short {
        p.stack
    } else {
        amount
    };
    let next = PlayerState {
        address: p.address,
        stack: p.stack - paid,
        bet_this_round: p.bet_this_round + paid,
        committed: p.committed + paid,
        folded: p.folded,
        all_in: p.all_in || short,
        sitting_out: p.sitting_out,
        seat_index: p.seat_index,
        total_buy_in: p.total_buy_in,
        rebuy_count: p.rebuy_count,
    };
    proof {
        lemma_stack_update(table.players@, seat as int, next);
    }
    table.players.set(seat, next);
    table.pot = table.pot + paid;
    assert forall|i: int| 0 <= i < table.players@.len() implies {
        let q = #[trigger] table.players@[i];
        &&& 0 <= q.stack
        &&& 0 <= q.bet_this_round <= q.committed
        &&& q.committed <= table.pot
    } by {
        assert(h.players[i].committed <= h.pot);
    }
    paid
}

/// A straddle is never larger than its cap.
pub proof fn straddle_within_cap(cfg: StraddleConfig, big_blind: i128, on_big_blind: bool)
    requires
        cfg.amount_cap > 0,
    ensures
        capped_straddle(cfg, big_blind, on_big_blind) <= cfg.amount_cap,
{
}

/// Who straddles and for how much. On the big blind, two seats left of the button, a straddle makes
/// up the multiple of the big blind together with the blind; under the gun, three seats left of the
/// button, on the button and at a chosen seat it is the whole multiple; and it is never more than
/// its cap where there is one. A volunteer straddles for their own amount, and without a volunteer
/// the button does. Without a straddle there is none.
pub proof fn straddles_are_posted_in_place(
    c: StraddleConfig,
    volunteer: Option<MississippiStraddle>,
    n: int,
    button: int,
    big_blind: i128,
)
    requires
        n >= 2,
        0 <= button < n,
        big_blind >= 0,
    ensures
        ({
            let s = straddle_of(Some(c), volunteer, n, button, big_blind);
            let whole = c.multiplier * big_blind;
            let top_up = whole - big_blind;
            let amount = if c.amount_cap > 0 && c.amount_cap < whole {
                c.amount_cap as int
            } else {
                whole
            };
            let on_blind = if c.amount_cap > 0 && c.amount_cap < top_up {
                c.amount_cap as int
            } else {
                top_up
            };
            &&& c.multiplier == 0 ==> s is None
            &&& c.multiplier > 0 ==> match c.position {
                StraddlePosition::BigBlind => s == Some(
                    (left_of(n, left_of(n, button)), on_blind),
                ),
                StraddlePosition::Utg => s == Some(
                    (left_of(n, left_of(n, left_of(n, button))), amount),
                ),
                StraddlePosition::Button => s == Some((button, amount)),
                StraddlePosition::Custom(seat) => s == (if seat < n {
                    Some((seat as int, amount))
                } else {
                    None
                }),
                StraddlePosition::Mississippi | StraddlePosition::Any => match volunteer {
                    Some(v) => s == (if v.seat < n {
                        Some((v.seat as int, v.amount as int))
                    } else {
                        None
                    }),
                    None => s == Some((button, amount)),
                },
            }
        }),
        straddle_of(None, volunteer, n, button, big_blind) is None,
{
    assert(forall|x: int| 0 <= x < n ==> #[trigger] (x % n) == x) by (nonlinear_arith)
        requires
            n > 0,
    ;
    assert(forall|x: int| n <= x < 2 * n ==> #[trigger] (x % n) == x - n) by (nonlinear_arith)
        requires
            n > 0,
    ;
    assert(forall|x: int| 2 * n <= x < 3 * n ==> #[trigger] (x % n) == x - 2 * n)
        by (nonlinear_arith)
        requires
            n > 0,
    ;
    let m = c.multiplier as int;
    assert(big_blind * m == m * big_blind && big_blind * (m - 1) == m * big_blind - big_blind)
        by (nonlinear_arith);
}

} // verus!
