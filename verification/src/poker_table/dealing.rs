//! What the committee deals: the cards of a hand and the cards of the board.

use crate::host::Bytes32;
use crate::poker_table::betting::{anyone_can_act, bets_cleared, phase_after, reset_round};
use crate::poker_table::game::{
    can_act, left_of, steps_to, turn_after, turn_passes_to_the_nearest, Hand,
};
use crate::poker_table::time_bank::apply_initial_deadline;
use crate::poker_table::types::{GamePhase, PokerTableError, RitState, TableState, turns_fit};
use vstd::prelude::*;

verus! {

/// Why a deal is refused, if it is. `proof_valid` is the answer of the verifier.
pub open spec fn deal_refusal(
    table: TableState,
    by_committee: bool,
    commitments: int,
    proof_valid: bool,
) -> Option<PokerTableError> {
    if !(table.phase is Dealing) {
        Some(PokerTableError::NotInDealingPhase)
    } else if !by_committee {
        Some(PokerTableError::NotAuthorizedCommittee)
    } else if commitments != table.players@.len() {
        Some(PokerTableError::WrongCommitmentCount)
    } else if !proof_valid {
        Some(PokerTableError::DealProofVerificationFailed)
    } else if table.players@.len() < 2 {
        Some(PokerTableError::NotEnoughPlayers)
    } else {
        None
    }
}

/// The seat that acts first: left of the straddle, or else left of the big blind.
pub open spec fn opening_turn(table: TableState, straddle_seat: Option<u32>) -> int {
    let n = table.players@.len() as int;
    match straddle_seat {
        Some(s) => (s + 1) % n,
        None => (table.dealer_seat + 3) % n,
    }
}

/// Takes the committee's deal at ledger `now`. `by_committee` says whether the caller is the
/// committee of the table, and `proof_valid` is the answer of the verifier.
pub fn take_deal(
    table: &mut TableState,
    by_committee: bool,
    deck_root: Bytes32,
    hand_commitments: Vec<Bytes32>,
    dealt_indices: Vec<u32>,
    proof_valid: bool,
    straddle_seat: Option<u32>,
    now: u32,
) -> (r: Result<(), PokerTableError>)
    requires
        old(table).players@.len() <= u32::MAX,
        turns_fit(old(table).config, now),
    ensures
        match deal_refusal(*old(table), by_committee, hand_commitments@.len() as int, proof_valid) {
            Some(e) => r == Err::<(), _>(e) && *final(table) == *old(table),
            None => r is Ok && *final(table) == (TableState {
                deck_root,
                hand_commitments,
                dealt_indices,
                phase: GamePhase::Preflop,
                last_action_ledger: now,
                current_turn: opening_turn(*old(table), straddle_seat) as u32,
                action_deadline: (now + old(table).config.turn_ledgers(GamePhase::Preflop)) as u32,
                ..*old(table)
            }),
        },
{
    if table.phase != GamePhase::Dealing {
        return Err(PokerTableError::NotInDealingPhase);
    }
    if !by_committee {
        return Err(PokerTableError::NotAuthorizedCommittee);
    }
    if hand_commitments.len() != table.players.len() {
        return Err(PokerTableError::WrongCommitmentCount);
    }
    if !proof_valid {
        return Err(PokerTableError::DealProofVerificationFailed);
    }
    let n: u64 = table.players.len() as u64;
    if n < 2 {
        return Err(PokerTableError::NotEnoughPlayers);
    }
    let turn: u64 = match straddle_seat {
        Some(s) => (s as u64 + 1) % n,
        None => (table.dealer_seat as u64 + 3) % n,
    };
    table.deck_root = deck_root;
    table.hand_commitments = hand_commitments;
    table.dealt_indices = dealt_indices;
    table.phase = GamePhase::Preflop;
    table.last_action_ledger = now;
    table.current_turn = turn as u32;
    let base: u32 = now + table.config.turn_time(&GamePhase::Preflop);
    table.action_deadline = apply_initial_deadline(table.id, table.current_turn, base);
    Ok(())
}

/// How many cards the committee reveals in a phase.
pub open spec fn expected_cards(phase: GamePhase) -> Option<nat> {
    match phase {
        GamePhase::DealingFlop => Some(3nat),
        GamePhase::DealingTurn => Some(1nat),
        GamePhase::DealingRiver => Some(1nat),
        _ => None,
    }
}

/// The street that a dealing phase opens.
pub open spec fn street_after(phase: GamePhase) -> GamePhase {
    match phase {
        GamePhase::DealingFlop => GamePhase::Flop,
        GamePhase::DealingTurn => GamePhase::Turn,
        GamePhase::DealingRiver => GamePhase::River,
        other => other,
    }
}

/// Why a reveal is refused, if it is. `proof_valid` is the answer of the verifier.
pub open spec fn reveal_refusal(
    table: TableState,
    by_committee: bool,
    cards: int,
    indices: int,
    proof_valid: bool,
) -> Option<PokerTableError> {
    if !by_committee {
        Some(PokerTableError::NotAuthorizedCommittee)
    } else if expected_cards(table.phase) is None {
        Some(PokerTableError::NotInRevealPhase)
    } else if cards != expected_cards(table.phase)->0 || indices != expected_cards(table.phase)->0 {
        Some(PokerTableError::WrongCardCount)
    } else if !proof_valid {
        Some(PokerTableError::RevealProofVerificationFailed)
    } else if table.current_blind_level >= table.config.blinds_schedule.levels@.len() {
        Some(PokerTableError::InvalidBlindLevel)
    } else {
        None
    }
}

/// The showdown that a full board leads to: that of the run where the board is run twice. Any
/// other phase stays as it is.
pub open spec fn run_phase(phase: GamePhase, rit: Option<RitState>) -> GamePhase {
    match rit {
        Some(r) => if phase is Showdown && r.active {
            if r.current_run == 2 {
                GamePhase::ShowdownRun2
            } else {
                GamePhase::ShowdownRun1
            }
        } else {
            phase
        },
        None => phase,
    }
}

/// Whether `u` is the table `t` after a reveal at ledger `now`: the cards are on the board and the
/// betting round of the street begins. The deck positions of two runs stay as they were laid down.
pub open spec fn board_revealed(
    t: TableState,
    u: TableState,
    cards: Seq<u32>,
    indices: Seq<u32>,
    now: u32,
) -> bool {
    let ps = bets_cleared(t.players@);
    let street = street_after(t.phase);
    &&& u.board_cards@ == t.board_cards@ + cards
    &&& u.dealt_indices@ == t.dealt_indices@ + indices
    &&& u.hand() == (Hand {
        players: ps,
        phase: if anyone_can_act(ps) {
            street
        } else {
            run_phase(phase_after(street), t.rit_state)
        },
        last_action_ledger: now,
        last_raise_size:
            t.config.blinds_schedule.levels@[t.current_blind_level as int].big_blind as int,
        current_turn: turn_after(ps, t.dealer_seat as int) as u32,
        action_deadline: if anyone_can_act(ps) {
            (now + t.config.turn_ledgers(street)) as u32
        } else {
            0
        },
        ..t.hand()
    })
    &&& TableState {
        board_cards: u.board_cards,
        dealt_indices: u.dealt_indices,
        ..t
    }.same_but_hand(u)
}

fn append(to: &mut Vec<u32>, from: &Vec<u32>)
    ensures
        final(to)@ == old(to)@ + from@,
{
    let mut i: usize = 0;
    assert(to@ =~= old(to)@ + from@.take(0));
    while i < from.len()
        invariant
            i <= from@.len(),
            to@ == old(to)@ + from@.take(i as int),
        decreases from@.len() - i,
    {
        to.push(from[i]);
        assert(old(to)@ + from@.take(i + 1) =~= (old(to)@ + from@.take(i as int)).push(
            from@[i as int],
        ));
        i += 1;
    }
    assert(from@.take(i as int) =~= from@);
}

/// Takes the committee's board cards at ledger `now`. `by_committee` says whether the caller is
/// the committee of the table, and `proof_valid` is the answer of the verifier.
#[verifier::rlimit(40)]
pub fn take_reveal(
    table: &mut TableState,
    by_committee: bool,
    cards: &Vec<u32>,
    indices: &Vec<u32>,
    proof_valid: bool,
    now: u32,
) -> (r: Result<(), PokerTableError>)
    requires
        old(table).hand().wf(),
        old(table).dealer_seat < old(table).players@.len(),
        turns_fit(old(table).config, now),
    ensures
        match reveal_refusal(
            *old(table),
            by_committee,
            cards@.len() as int,
            indices@.len() as int,
            proof_valid,
        ) {
            Some(e) => r == Err::<(), _>(e) && *final(table) == *old(table),
            None => r is Ok && board_revealed(*old(table), *final(table), cards@, indices@, now),
        },
        final(table).hand().chips() == old(table).hand().chips(),
        final(table).hand().wf(),
{
    if !by_committee {
        return Err(PokerTableError::NotAuthorizedCommittee);
    }
    let (expected, street): (usize, GamePhase) = match table.phase {
        GamePhase::DealingFlop => (3, GamePhase::Flop),
        GamePhase::DealingTurn => (1, GamePhase::Turn),
        GamePhase::DealingRiver => (1, GamePhase::River),
        _ => {
            return Err(PokerTableError::NotInRevealPhase);
        },
    };
    if cards.len() != expected || indices.len() != expected {
        return Err(PokerTableError::WrongCardCount);
    }
    if !proof_valid {
        return Err(PokerTableError::RevealProofVerificationFailed);
    }
    if table.current_blind_level as u64 >= table.config.blinds_schedule.levels.len() as u64 {
        return Err(PokerTableError::InvalidBlindLevel);
    }
    let ghost t = *table;
    append(&mut table.dealt_indices, indices);
    append(&mut table.board_cards, cards);
    table.phase = street;
    table.last_action_ledger = now;
    assert(table.hand() =~= (Hand { phase: street, last_action_ledger: now, ..t.hand() }));
    assert(table.hand().chips() == t.hand().chips());
    assert(table.hand().wf());
    match reset_round(table, now) {
        Ok(()) => {},
        Err(e) => {
            return Err(e);
        },
    }
    let ghost h = table.hand();
    if table.phase == GamePhase::Showdown {
        if let Some(r) = &table.rit_state {
            if r.active {
                table.phase = if r.current_run == 2 {
                    GamePhase::ShowdownRun2
                } else {
                    GamePhase::ShowdownRun1
                };
            }
        }
    }
    assert(table.hand() =~= (Hand { phase: table.phase, ..h }));
    assert(table.hand().chips() == h.chips());
    Ok(())
}

/// The player left of the straddle acts first, or without one the player left of the big blind, who
/// sits left of the small blind, who sits left of the button.
pub proof fn first_to_act_is_left_of_the_blinds(table: TableState, straddle_seat: Option<u32>)
    requires
        table.players@.len() >= 2,
        table.dealer_seat < table.players@.len(),
        straddle_seat matches Some(s) ==> s < table.players@.len(),
    ensures
        ({
            let n = table.players@.len() as int;
            opening_turn(table, straddle_seat) == match straddle_seat {
                Some(s) => left_of(n, s as int),
                None => left_of(n, left_of(n, left_of(n, table.dealer_seat as int))),
            }
        }),
{
    let n = table.players@.len() as int;
    let d = table.dealer_seat as int;
    assert(forall|x: int| 0 <= x < n ==> #[trigger] (x % n) == x) by (nonlinear_arith)
        requires
            n > 0,
    ;
    assert(forall|x: int| n <= x < 2 * n ==> #[trigger] (x % n) == x - n) by (nonlinear_arith)
        requires
            n > 0,
    ;
    assert(forall|x: int| 2 * n <= x < 3 * n ==> #[trigger] (x % n) == x - 2 * n)
        by (nonlinear_arith)
        requires
            n > 0,
    ;
}

/// Cards are taken from the committee alone, with a proof that holds, and only when they are due: a
/// deal with a commitment for each player, a flop of three cards, and a turn and a river of one,
/// each with as many deck positions.
pub proof fn cards_come_from_the_committee(
    table: TableState,
    by_committee: bool,
    commitments: int,
    cards: int,
    indices: int,
    proof_valid: bool,
)
    ensures
        deal_refusal(table, by_committee, commitments, proof_valid) is None <==> table.phase is Dealing
            && by_committee && proof_valid && commitments == table.players@.len() && commitments
            >= 2,
        reveal_refusal(table, by_committee, cards, indices, proof_valid) is None <==> by_committee
            && proof_valid && cards == indices && ((table.phase is DealingFlop && cards == 3) || (
        (table.phase is DealingTurn || table.phase is DealingRiver) && cards == 1))
            && table.current_blind_level < table.config.blinds_schedule.levels@.len(),
        !by_committee && table.phase is Dealing ==> deal_refusal(
            table,
            by_committee,
            commitments,
            proof_valid,
        ) == Some(PokerTableError::NotAuthorizedCommittee),
        !by_committee ==> reveal_refusal(table, by_committee, cards, indices, proof_valid) == Some(
            PokerTableError::NotAuthorizedCommittee,
        ),
{
}

/// A reveal puts its cards behind those on the board and moves no chips: what was bet in the last
/// round stays in the pot and the new round starts without bets, with the big blind as the least
/// raise. Where somebody can act, the street of the cards is played, and the first to act is the
/// nearest to the left of the button who can; where nobody can, the hand goes on to the next cards
/// or to the showdown, which is that of a run where the board is run twice.
pub proof fn reveals_open_their_street(
    t: TableState,
    u: TableState,
    cards: Seq<u32>,
    indices: Seq<u32>,
    now: u32,
    i: int,
)
    requires
        board_revealed(t, u, cards, indices, now),
        t.phase is DealingFlop || t.phase is DealingTurn || t.phase is DealingRiver,
        t.dealer_seat < t.players@.len(),
        t.players@.len() <= u32::MAX,
        turns_fit(t.config, now),
        0 <= i < t.players@.len(),
    ensures
        u.board_cards@ == t.board_cards@ + cards,
        u.dealt_indices@ == t.dealt_indices@ + indices,
        u.players@.len() == t.players@.len(),
        u.pot == t.pot,
        u.rake_balance == t.rake_balance && u.jackpot_balance == t.jackpot_balance,
        u.players@[i].bet_this_round == 0,
        u.players@[i].stack == t.players@[i].stack && u.players@[i].committed
            == t.players@[i].committed && u.players@[i].folded == t.players@[i].folded
            && u.players@[i].all_in == t.players@[i].all_in,
        u.last_raise_size
            == t.config.blinds_schedule.levels@[t.current_blind_level as int].big_blind,
        u.last_action_ledger == now,
        !t.players@[i].folded && !t.players@[i].all_in ==> {
            &&& t.phase is DealingFlop ==> u.phase is Flop
            &&& t.phase is DealingTurn ==> u.phase is Turn
            &&& t.phase is DealingRiver ==> u.phase is River
            &&& u.current_turn < t.players@.len()
            &&& !t.players@[u.current_turn as int].folded
                && !t.players@[u.current_turn as int].all_in
            &&& steps_to(t.players@.len() as int, t.dealer_seat as int, u.current_turn as int)
                <= steps_to(t.players@.len() as int, t.dealer_seat as int, i)
            &&& u.action_deadline == now + t.config.turn_ledgers(u.phase)
        },
        (forall|j: int|
            0 <= j < t.players@.len() ==> (#[trigger] t.players@[j]).folded
                || t.players@[j].all_in) ==> {
            &&& t.phase is DealingFlop ==> u.phase is DealingTurn
            &&& t.phase is DealingTurn ==> u.phase is DealingRiver
            &&& t.phase is DealingRiver ==> match t.rit_state {
                Some(r) => if !r.active {
                    u.phase is Showdown
                } else if r.current_run == 2 {
                    u.phase is ShowdownRun2
                } else {
                    u.phase is ShowdownRun1
                },
                None => u.phase is Showdown,
            }
            &&& u.action_deadline == 0
        },
{
    let ps = bets_cleared(t.players@);
    assert(u.hand().players == ps);
    assert(u.players@ == ps);
    if can_act(t.players@[i]) {
        assert(can_act(ps[i]));
        assert(anyone_can_act(ps));
        turn_passes_to_the_nearest(ps, t.dealer_seat as int, i);
        let k = turn_after(ps, t.dealer_seat as int);
        assert(ps[k].folded == t.players@[k].folded && ps[k].all_in == t.players@[k].all_in);
    }
    if forall|j: int|
        0 <= j < t.players@.len() ==> (#[trigger] t.players@[j]).folded || t.players@[j].all_in {
        if anyone_can_act(ps) {
            let j = choose|j: int| 0 <= j < ps.len() && can_act(#[trigger] ps[j]);
            assert(t.players@[j].folded || t.players@[j].all_in);
        }
    }
    assert(u.hand().pot == t.hand().pot);
}

/// A deal that cannot be taken is refused for a reason.
pub proof fn deals_are_refused_for_a_reason(
    t: TableState,
    by_committee: bool,
    commitments: int,
    proof_valid: bool,
)
    ensures
        ({
            let r = deal_refusal(t, by_committee, commitments, proof_valid);
            &&& r == Some(PokerTableError::NotInDealingPhase) ==> !(t.phase is Dealing)
            &&& r == Some(PokerTableError::NotAuthorizedCommittee) ==> !by_committee
            &&& r == Some(PokerTableError::WrongCommitmentCount) ==> commitments != t.players@.len()
            &&& r == Some(PokerTableError::DealProofVerificationFailed) ==> !proof_valid
            &&& r == Some(PokerTableError::NotEnoughPlayers) ==> t.players@.len() < 2
        }),
{
}

/// A reveal that cannot be taken is refused for a reason.
pub proof fn reveals_are_refused_for_a_reason(
    t: TableState,
    by_committee: bool,
    cards: int,
    indices: int,
    proof_valid: bool,
)
    ensures
        ({
            let r = reveal_refusal(t, by_committee, cards, indices, proof_valid);
            &&& r == Some(PokerTableError::NotAuthorizedCommittee) ==> !by_committee
            &&& r == Some(PokerTableError::NotInRevealPhase)
                ==> !(t.phase is DealingFlop || t.phase is DealingTurn || t.phase is DealingRiver)
            &&& r == Some(PokerTableError::WrongCardCount) ==> if t.phase is DealingFlop {
                cards != 3 || indices != 3
            } else {
                cards != 1 || indices != 1
            }
            &&& r == Some(PokerTableError::RevealProofVerificationFailed) ==> !proof_valid
        }),
{
}

} // verus!
