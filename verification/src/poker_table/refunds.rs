//! Paying all players out of a table at once.

use crate::host::{Address, Party, Transfer};
use crate::poker_table::types::{GamePhase, PlayerState, TableState};
use vstd::prelude::*;

verus! {

/// What a player is paid out: the stack and what is in the pot.
pub open spec fn refund_of(p: PlayerState) -> int {
    p.stack + p.committed
}

/// A player after being paid out.
pub open spec fn paid_out(p: PlayerState) -> PlayerState {
    PlayerState { stack: 0, committed: 0, bet_this_round: 0, folded: true, ..p }
}

/// The players after being paid out.
pub open spec fn all_paid_out(players: Seq<PlayerState>) -> Seq<PlayerState> {
    Seq::new(players.len(), |i: int| paid_out(players[i]))
}

/// The sum of what is paid out; nothing is paid where there is nothing to pay.
pub open spec fn refund_total(players: Seq<PlayerState>) -> int
    decreases players.len(),
{
    if players.len() == 0 {
        0
    } else {
        refund_total(players.drop_last()) + (if refund_of(players.last()) > 0 {
            refund_of(players.last())
        } else {
            0
        })
    }
}

/// The transfers that pay the players out, in order of their seats.
pub open spec fn refund_transfers(token: Address, players: Seq<PlayerState>) -> Seq<Transfer>
    decreases players.len(),
{
    if players.len() == 0 {
        Seq::empty()
    } else {
        let rest = refund_transfers(token, players.drop_last());
        let p = players.last();
        if refund_of(p) > 0 {
            rest.push(
                Transfer {
                    token,
                    from: Party::This,
                    to: Party::Wallet(p.address),
                    amount: refund_of(p) as i128,
                },
            )
        } else {
            rest
        }
    }
}

/// The sums of a pay-out stay within the numbers there are.
pub open spec fn refunds_fit(players: Seq<PlayerState>) -> bool {
    &&& forall|i: int|
        0 <= i < players.len() ==> i128::MIN <= refund_of(#[trigger] players[i]) <= i128::MAX
    &&& refund_total(players) <= i128::MAX
}

proof fn lemma_refund_prefix(players: Seq<PlayerState>, i: int)
    requires
        0 <= i <= players.len(),
    ensures
        0 <= refund_total(players.take(i)) <= refund_total(players),
    decreases players.len(),
{
    if i == players.len() {
        assert(players.take(i) =~= players);
        if players.len() > 0 {
            lemma_refund_prefix(players.drop_last(), players.len() - 1);
            assert(players.drop_last().take(players.len() - 1) =~= players.drop_last());
        }
    } else {
        assert(players.drop_last().take(i) =~= players.take(i));
        lemma_refund_prefix(players.drop_last(), i);
    }
}

/// Pays every player the stack and what they have in the pot, at ledger `now`, and ends the hand.
/// Returns the sum and the transfers.
pub fn refund_table_players(table: &mut TableState, now: u32) -> (r: (i128, Vec<Transfer>))
    requires
        refunds_fit(old(table).players@),
    ensures
        r.0 == refund_total(old(table).players@),
        r.1@ == refund_transfers(old(table).config.token, old(table).players@),
        final(table).players@ == all_paid_out(old(table).players@),
        final(table).side_pots@.len() == 0,
        *final(table) == (TableState {
            players: final(table).players,
            side_pots: final(table).side_pots,
            pot: 0,
            phase: GamePhase::Settlement,
            settlement_entered_ledger: now,
            last_action_ledger: now,
            ..*old(table)
        }),
{
    let ghost ps = table.players@;
    let token: Address = table.config.token;
    let mut refunded: i128 = 0;
    let mut out: Vec<Transfer> = Vec::new();
    let mut i: usize = 0;
    assert(table.players@ =~= all_paid_out(ps).take(0) + ps.skip(0));
    while i < table.players.len()
        invariant
            i <= ps.len(),
            ps == old(table).players@,
            refunds_fit(ps),
            token == old(table).config.token,
            table.players@.len() == ps.len(),
            table.players@ == all_paid_out(ps).take(i as int) + ps.skip(i as int),
            *table == (TableState { players: table.players, ..*old(table) }),
            refunded == refund_total(ps.take(i as int)),
            out@ == refund_transfers(token, ps.take(i as int)),
        decreases ps.len() - i,
    {
        let p = table.players[i];
        proof {
            assert(p == ps[i as int]);
            assert(ps.take(i + 1).drop_last() =~= ps.take(i as int));
            lemma_refund_prefix(ps, i + 1);
        }
        let refund: i128 = p.stack + p.committed;
        if refund > 0 {
            out.push(
                Transfer {
                    token,
                    from: Party::This,
                    to: Party::Wallet(p.address),
                    amount: refund,
                },
            );
            refunded = refunded + refund;
        }
        let paid = PlayerState {
            address: p.address,
            stack: 0,
            bet_this_round: 0,
            committed: 0,
            folded: true,
            all_in: p.all_in,
            sitting_out: p.sitting_out,
            seat_index: p.seat_index,
            total_buy_in: p.total_buy_in,
            rebuy_count: p.rebuy_count,
        };
        table.players.set(i, paid);
        assert(table.players@ =~= all_paid_out(ps).take(i + 1) + ps.skip(i + 1));
        i += 1;
    }
    assert(ps.take(i as int) =~= ps);
    assert(table.players@ =~= all_paid_out(ps));
    table.pot = 0;
    table.side_pots = Vec::new();
    table.phase = GamePhase::Settlement;
    table.settlement_entered_ledger = now;
    table.last_action_ledger = now;
    (refunded, out)
}

/// The sum of the transfers in `ts`.
pub open spec fn transfer_total(ts: Seq<Transfer>) -> int
    decreases ts.len(),
{
    if ts.len() == 0 {
        0
    } else {
        transfer_total(ts.drop_last()) + ts.last().amount
    }
}

/// What is reported as paid out is what the transfers move, and nobody has anything left.
pub proof fn refund_moves_its_total(token: Address, players: Seq<PlayerState>)
    requires
        refunds_fit(players),
    ensures
        transfer_total(refund_transfers(token, players)) == refund_total(players),
        forall|i: int|
            0 <= i < players.len() ==> refund_of(#[trigger] all_paid_out(players)[i]) == 0,
    decreases players.len(),
{
    if players.len() > 0 {
        let d = players.drop_last();
        lemma_refund_prefix(players, players.len() - 1);
        assert(players.take(players.len() - 1) =~= d);
        assert forall|i: int| 0 <= i < d.len() implies i128::MIN <= refund_of(#[trigger] d[i])
            <= i128::MAX by {
            assert(d[i] == players[i]);
        }
        refund_moves_its_total(token, d);
        let rest = refund_transfers(token, d);
        let p = players[players.len() - 1];
        let t = Transfer {
            token,
            from: Party::This,
            to: Party::Wallet(p.address),
            amount: refund_of(p) as i128,
        };
        assert(rest.push(t).drop_last() =~= rest);
    }
}

/// Every player who has chips in front of them or in the pot is paid both, in one transfer of the
/// table's token to their own address; nobody else is paid.
pub proof fn everyone_is_paid_their_chips(token: Address, players: Seq<PlayerState>, i: int)
    requires
        refunds_fit(players),
        0 <= i < players.len(),
    ensures
        players[i].stack + players[i].committed > 0 ==> exists|k: int|
            {
                &&& 0 <= k < refund_transfers(token, players).len()
                &&& (#[trigger] refund_transfers(token, players)[k]).to == Party::Wallet(
                    players[i].address,
                )
                &&& refund_transfers(token, players)[k].amount == players[i].stack
                    + players[i].committed
            },
        forall|k: int|
            0 <= k < refund_transfers(token, players).len() ==> (
            #[trigger] refund_transfers(token, players)[k]).token == token && refund_transfers(
                token,
                players,
            )[k].from == Party::This && refund_transfers(token, players)[k].amount > 0,
        all_paid_out(players).len() == players.len(),
        all_paid_out(players)[i].stack == 0 && all_paid_out(players)[i].committed == 0
            && all_paid_out(players)[i].address == players[i].address,
    decreases players.len(),
{
    let d = players.drop_last();
    let last = players[players.len() - 1];
    assert(refunds_fit(d)) by {
        assert forall|j: int| 0 <= j < d.len() implies i128::MIN <= refund_of(#[trigger] d[j])
            <= i128::MAX by {
            assert(d[j] == players[j]);
        }
    }
    let (ts, us) = (refund_transfers(token, d), refund_transfers(token, players));
    assert(i128::MIN <= refund_of(last) <= i128::MAX);
    if i < d.len() {
        assert(d[i] == players[i]);
        everyone_is_paid_their_chips(token, d, i);
        if players[i].stack + players[i].committed > 0 {
            let k = choose|k: int|
                {
                    &&& 0 <= k < ts.len()
                    &&& (#[trigger] ts[k]).to == Party::Wallet(d[i].address)
                    &&& ts[k].amount == d[i].stack + d[i].committed
                };
            assert(us[k] == ts[k]);
        }
    } else {
        if d.len() > 0 {
            everyone_is_paid_their_chips(token, d, 0);
        } else {
            assert(ts.len() == 0);
        }
        if last.stack + last.committed > 0 {
            assert(us[us.len() - 1].to == Party::Wallet(last.address));
        }
    }
    assert forall|k: int| 0 <= k < us.len() implies (#[trigger] us[k]).token == token && us[k].from
        == Party::This && us[k].amount > 0 by {
        if k < ts.len() {
            assert(us[k] == ts[k]);
        }
    }
}

} // verus!
