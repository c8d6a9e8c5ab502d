//! Calling off a hand that cannot be finished.

use crate::host::Transfer;
use crate::poker_table::refunds::{
    all_paid_out, refund_table_players, refund_total, refund_transfers, refunds_fit,
};
use crate::poker_table::types::{GamePhase, PlayerState, PokerTableError, TableState};
use vstd::prelude::*;

verus! {

#[derive(Clone, Copy, Debug, PartialEq, Eq, Structural)]
pub enum CancellationReason {
    InvalidProof,
    MpcFailure,
    PlayerDisconnect,
    Timeout,
}

impl CancellationReason {
    /// The name of the event that reports the cancellation.
    pub fn event_name(&self) -> (r: &'static str)
        ensures
            r@ == (match *self {
                CancellationReason::InvalidProof => "hand_cancelled_invalid_proof"@,
                CancellationReason::MpcFailure => "hand_cancelled_mpc_failure"@,
                CancellationReason::PlayerDisconnect => "hand_cancelled_disconnect"@,
                CancellationReason::Timeout => "hand_cancelled_timeout"@,
            }),
    {
        match *self {
            CancellationReason::InvalidProof => "hand_cancelled_invalid_proof",
            CancellationReason::MpcFailure => "hand_cancelled_mpc_failure",
            CancellationReason::PlayerDisconnect => "hand_cancelled_disconnect",
            CancellationReason::Timeout => "hand_cancelled_timeout",
        }
    }
}

/// Whether there is a hand to call off.
pub open spec fn cancellable(phase: GamePhase) -> bool {
    !(phase is Settlement) && !(phase is Waiting) && !(phase is WaitingForPlayers)
}

/// Calls off the hand at ledger `now` and pays every player out. Returns the sum and the
/// transfers.
pub fn cancel_hand(table: &mut TableState, now: u32) -> (r: Result<
    (i128, Vec<Transfer>),
    PokerTableError,
>)
    requires
        cancellable(old(table).phase) ==> refunds_fit(old(table).players@),
    ensures
        match r {
            Ok((refunded, transfers)) => {
                &&& cancellable(old(table).phase)
                &&& refunded == refund_total(old(table).players@)
                &&& transfers@ == refund_transfers(old(table).config.token, old(table).players@)
                &&& final(table).players@ == all_paid_out(old(table).players@)
                &&& final(table).side_pots@.len() == 0
                &&& final(table).board_cards@.len() == 0
                &&& final(table).dealt_indices@.len() == 0
                &&& final(table).hand_commitments@.len() == 0
                &&& *final(table) == (TableState {
                    players: final(table).players,
                    side_pots: final(table).side_pots,
                    board_cards: final(table).board_cards,
                    dealt_indices: final(table).dealt_indices,
                    hand_commitments: final(table).hand_commitments,
                    pot: 0,
                    phase: GamePhase::Settlement,
                    settlement_entered_ledger: now,
                    last_action_ledger: now,
                    last_raise_size: 0,
                    rit_state: None,
                    ..*old(table)
                })
            },
            Err(e) => e == PokerTableError::InvalidAction && !cancellable(old(table).phase)
                && *final(table) == *old(table),
        },
        r matches Ok((_, ts)) ==> forall|i: int|
            0 <= i < final(table).players@.len() ==> (#[trigger] final(table).players@[i]).stack
                == 0 && final(table).players@[i].committed == 0,
        r is Ok <==> !(old(table).phase is Waiting || old(table).phase is WaitingForPlayers
            || old(table).phase is Settlement),
        r is Ok ==> final(table).pot == 0 && final(table).phase is Settlement
            && final(table).rake_balance == old(table).rake_balance,
{
    if table.phase == GamePhase::Settlement || table.phase == GamePhase::Waiting || table.phase
        == GamePhase::WaitingForPlayers {
        return Err(PokerTableError::InvalidAction);
    }
    let result = refund_table_players(table, now);
    table.last_raise_size = 0;
    table.board_cards = Vec::new();
    table.dealt_indices = Vec::new();
    table.hand_commitments = Vec::new();
    table.side_pots = Vec::new();
    table.rit_state = None;
    Ok(result)
}

/// How many players have not folded and have chips left.
pub open spec fn count_with_chips(players: Seq<PlayerState>) -> nat
    decreases players.len(),
{
    if players.len() == 0 {
        0
    } else {
        count_with_chips(players.drop_last()) + (if !players.last().folded && players.last().stack
            > 0 {
            1nat
        } else {
            0
        })
    }
}

/// Whether a hand is stuck: nothing has happened for more than sixty ledgers, or fewer than two
/// players with chips are left in it.
pub fn should_cancel_hand(table: &TableState, current_ledger: u32) -> (r: bool)
    requires
        table.last_action_ledger + 60 <= u32::MAX,
        table.players@.len() <= u32::MAX,
    ensures
        r == (current_ledger > table.last_action_ledger + 60 || (!(table.phase is Settlement)
            && count_with_chips(table.players@) < 2)),
        current_ledger - table.last_action_ledger > 60 ==> r,
        r && current_ledger - table.last_action_ledger <= 60 ==> !(table.phase is Settlement)
            && count_with_chips(table.players@) <= 1,
{
    if current_ledger > table.last_action_ledger + 60 {
        return true;
    }
    let mut active: u32 = 0;
    let mut i: usize = 0;
    while i < table.players.len()
        invariant
            i <= table.players@.len() <= u32::MAX,
            active <= i,
            active == count_with_chips(table.players@.take(i as int)),
        decreases table.players@.len() - i,
    {
        assert(table.players@.take(i + 1).drop_last() =~= table.players@.take(i as int));
        if !table.players[i].folded && table.players[i].stack > 0 {
            active = active + 1;
        }
        i += 1;
    }
    assert(table.players@.take(i as int) =~= table.players@);
    table.phase != GamePhase::Settlement && active < 2
}

/// Every hand that is running can be cancelled, and nothing else.
pub proof fn running_hands_can_be_cancelled(phase: GamePhase)
    ensures
        cancellable(phase) <==> !(phase is Waiting || phase is WaitingForPlayers
            || phase is Settlement),
{
}

/// Those who count are the players with chips who have not folded: two such players are enough for
/// the hand to go on, and one is not.
pub proof fn two_players_with_chips_play_on(players: Seq<PlayerState>, a: int, b: int)
    requires
        0 <= a < b < players.len(),
    ensures
        !players[a].folded && players[a].stack > 0 && !players[b].folded && players[b].stack > 0
            ==> count_with_chips(players) >= 2,
        (forall|i: int|
            0 <= i < players.len() && i != a ==> (#[trigger] players[i]).folded || players[i].stack
                <= 0) ==> count_with_chips(players) < 2,
{
    lemma_with_chips(players, a);
    lemma_with_chips_two(players, a, b);
    if forall|i: int|
        0 <= i < players.len() && i != a ==> (#[trigger] players[i]).folded || players[i].stack
            <= 0 {
        lemma_with_chips_one(players, a);
    }
}

proof fn lemma_with_chips(players: Seq<PlayerState>, a: int)
    requires
        0 <= a < players.len(),
    ensures
        !players[a].folded && players[a].stack > 0 ==> count_with_chips(players) >= 1,
    decreases players.len(),
{
    if a < players.len() - 1 {
        assert(players.drop_last()[a] == players[a]);
        lemma_with_chips(players.drop_last(), a);
    }
}

proof fn lemma_with_chips_two(players: Seq<PlayerState>, a: int, b: int)
    requires
        0 <= a < b < players.len(),
    ensures
        !players[a].folded && players[a].stack > 0 && !players[b].folded && players[b].stack > 0
            ==> count_with_chips(players) >= 2,
    decreases players.len(),
{
    let d = players.drop_last();
    assert(d[a] == players[a]);
    if b < d.len() {
        assert(d[b] == players[b]);
        lemma_with_chips_two(d, a, b);
    } else {
        lemma_with_chips(d, a);
    }
}

proof fn lemma_with_chips_one(players: Seq<PlayerState>, a: int)
    requires
        forall|i: int|
            0 <= i < players.len() && i != a ==> (#[trigger] players[i]).folded || players[i].stack
                <= 0,
    ensures
        count_with_chips(players) <= (if a < players.len() {
            1int
        } else {
            0
        }),
    decreases players.len(),
{
    if players.len() > 0 {
        let d = players.drop_last();
        assert forall|i: int| 0 <= i < d.len() && i != a implies (#[trigger] d[i]).folded
            || d[i].stack <= 0 by {
            assert(d[i] == players[i]);
        }
        lemma_with_chips_one(d, a);
        assert(players[players.len() - 1] == players.last());
    }
}

} // verus!
