//! What a proof of the showdown says, held against the table.

use crate::host::{be_u32, read_u32_be};
use crate::poker_table::bad_beat::{
    bad_beat_seat, bad_beat_threshold, bad_beats_are_strong_losing_hands, find_bad_beat,
    jackpot_goes_to_its_seat, pay_jackpot,
};
use crate::poker_table::game::{
    committed_total, count_active, settlement_fits, share_within_rake, Hand,
};
use crate::poker_table::run_it_twice::{first_run_phase, start_of_run};
use crate::poker_table::settlement::{
    beaten_players_win_nothing, equals_win_alike, payouts_list_the_winners, payouts_of, rake_above,
    settle_showdown, showdown_adds_winnings_to_stacks, showdown_conserves_chips,
    showdown_rake_is_its_part_of_the_pot, top_winner_takes_the_pot, winnings, Named, Settled,
};
use crate::poker_table::types::{GamePhase, PlayerState, PokerTableError, TableState};
use crate::seqs::Dup;
use vstd::prelude::*;

verus! {

/// The number in the last four bytes of a field of 32 bytes.
pub open spec fn field_u32(public_inputs: Seq<u8>, field_index: int) -> int {
    be_u32(public_inputs, field_index * 32 + 28)
}

/// The number in the last four bytes of a field of the public inputs. Bytes past the end count as
/// zero.
pub fn extract_u32_from_public_inputs(public_inputs: &Vec<u8>, field_index: u32) -> (r: u32)
    requires
        field_index * 32 + 31 <= u32::MAX,
    ensures
        r == field_u32(public_inputs@, field_index as int),
{
    read_u32_be(public_inputs, field_index as usize * 32 + 28)
}

/// The first fault in the hole cards of the players, if there is one. The cards stand in the order
/// of the seats of those who have not folded; the proof has them by seat, the first cards from
/// field 13 on and the second from field 19 on.
pub open spec fn hole_card_fault(
    players: Seq<PlayerState>,
    public_inputs: Seq<u8>,
    hole_cards: Seq<(u32, u32)>,
) -> Option<PokerTableError>
    decreases players.len(),
{
    if players.len() == 0 {
        None
    } else {
        let before = hole_card_fault(players.drop_last(), public_inputs, hole_cards);
        let p = players.last();
        let k = count_active(players.drop_last()) as int;
        if before is Some || p.folded {
            before
        } else if k >= hole_cards.len() {
            Some(PokerTableError::InvalidHoleCards)
        } else if field_u32(public_inputs, 13 + p.seat_index) != hole_cards[k].0 || field_u32(
            public_inputs,
            19 + p.seat_index,
        ) != hole_cards[k].1 {
            Some(PokerTableError::HoleCardMismatch)
        } else {
            None
        }
    }
}

/// Why hole cards are refused, if they are.
pub open spec fn hole_card_refusal(
    players: Seq<PlayerState>,
    public_inputs: Seq<u8>,
    hole_cards: Seq<(u32, u32)>,
) -> Option<PokerTableError> {
    if hole_card_fault(players, public_inputs, hole_cards) is Some {
        hole_card_fault(players, public_inputs, hole_cards)
    } else if count_active(players) == 0 {
        Some(PokerTableError::InvalidHoleCards)
    } else {
        None
    }
}

proof fn lemma_fault_stays(ps: Seq<PlayerState>, pi: Seq<u8>, cards: Seq<(u32, u32)>, i: int)
    requires
        0 <= i <= ps.len(),
    ensures
        hole_card_fault(ps.take(i), pi, cards) matches Some(e) ==> hole_card_fault(ps, pi, cards)
            == Some(e),
    decreases ps.len() - i,
{
    if i == ps.len() {
        assert(ps.take(i) =~= ps);
    } else {
        assert(ps.take(i + 1).drop_last() =~= ps.take(i));
        lemma_fault_stays(ps, pi, cards, i + 1);
    }
}

/// Holds the submitted hole cards against those of the proof.
pub fn verify_hole_cards_against_proof(
    table: &TableState,
    public_inputs: &Vec<u8>,
    hole_cards: &Vec<(u32, u32)>,
) -> (r: Result<(), PokerTableError>)
    requires
        table.players@.len() <= u32::MAX,
        forall|i: int| 0 <= i < table.players@.len() ==> (#[trigger] table.players@[i]).seat_index
            < 0x100_0000,
    ensures
        r == (match hole_card_refusal(table.players@, public_inputs@, hole_cards@) {
            Some(e) => Err::<(), _>(e),
            None => Ok(()),
        }),
{
    let ghost ps = table.players@;
    let mut k: usize = 0;
    let mut i: usize = 0;
    while i < table.players.len()
        invariant
            i <= ps.len(),
            k <= i,
            ps == table.players@,
            forall|j: int| 0 <= j < ps.len() ==> (#[trigger] ps[j]).seat_index < 0x100_0000,
            k == count_active(ps.take(i as int)),
            hole_card_fault(ps.take(i as int), public_inputs@, hole_cards@) is None,
        decreases ps.len() - i,
    {
        assert(ps.take(i + 1).drop_last() =~= ps.take(i as int));
        proof {
            lemma_fault_stays(ps, public_inputs@, hole_cards@, i + 1);
        }
        let p = table.players[i];
        if !p.folded {
            let c1: u32 = extract_u32_from_public_inputs(public_inputs, 13 + p.seat_index);
            let c2: u32 = extract_u32_from_public_inputs(public_inputs, 19 + p.seat_index);
            if k >= hole_cards.len() {
                return Err(PokerTableError::InvalidHoleCards);
            }
            let (s1, s2): (u32, u32) = hole_cards[k];
            if c1 != s1 || c2 != s2 {
                return Err(PokerTableError::HoleCardMismatch);
            }
            k += 1;
        }
        i += 1;
    }
    assert(ps.take(i as int) =~= ps);
    if k == 0 {
        return Err(PokerTableError::InvalidHoleCards);
    }
    Ok(())
}

/// Whether a showdown can be submitted in this phase.
pub open spec fn in_showdown(phase: GamePhase) -> bool {
    phase is Showdown || phase is ShowdownRun1 || phase is ShowdownRun2
}

/// The deck positions of the board that a showdown is about: those of the run, or the last five
/// that were dealt.
pub open spec fn showdown_board(table: TableState) -> Seq<u32> {
    let dealt = table.dealt_indices@;
    match (table.phase, table.rit_state) {
        (GamePhase::ShowdownRun1, Some(r)) => r.run1_board_indices@,
        (GamePhase::ShowdownRun2, Some(r)) => r.run2_board_indices@,
        (GamePhase::Showdown, _) => if dealt.len() < 5 {
            Seq::empty()
        } else {
            dealt.skip(dealt.len() - 5)
        },
        _ => Seq::empty(),
    }
}

/// The deck positions of the board that a showdown is about.
pub fn board_for_showdown(table: &TableState) -> (r: Result<Vec<u32>, PokerTableError>)
    requires
        in_showdown(table.phase),
    ensures
        match r {
            Ok(v) => v@ == showdown_board(*table) && v@.len() == 5,
            Err(e) => e == PokerTableError::BoardNotComplete && showdown_board(*table).len() != 5,
        },
{
    let board: Vec<u32> = match table.phase {
        GamePhase::ShowdownRun1 => match &table.rit_state {
            Some(r) => r.run1_board_indices.dup(),
            None => {
                return Err(PokerTableError::BoardNotComplete);
            },
        },
        GamePhase::ShowdownRun2 => match &table.rit_state {
            Some(r) => r.run2_board_indices.dup(),
            None => {
                return Err(PokerTableError::BoardNotComplete);
            },
        },
        _ => {
            let n: usize = table.dealt_indices.len();
            if n < 5 {
                return Err(PokerTableError::BoardNotComplete);
            }
            let mut out: Vec<u32> = Vec::new();
            let mut i: usize = n - 5;
            while i < n
                invariant
                    n == table.dealt_indices@.len(),
                    n >= 5,
                    n - 5 <= i <= n,
                    out@ == table.dealt_indices@.subrange(n - 5, i as int),
                decreases n - i,
            {
                out.push(table.dealt_indices[i]);
                assert(table.dealt_indices@.subrange(n - 5, i + 1)
                    =~= table.dealt_indices@.subrange(n - 5, i as int).push(
                    table.dealt_indices@[i as int],
                ));
                i += 1;
            }
            assert(out@ =~= table.dealt_indices@.skip(n - 5));
            out
        },
    };
    if board.len() != 5 {
        return Err(PokerTableError::BoardNotComplete);
    }
    Ok(board)
}

/// What a proved showdown decides.
#[derive(Clone, Copy, Debug, PartialEq, Eq, Structural)]
pub struct ShowdownResult {
    /// The phase in which it was submitted.
    pub phase: GamePhase,
    /// The seat that wins.
    pub winner_index: u32,
    /// The seats that tie, as bits.
    pub tie_mask: u32,
}

/// Why a showdown is refused, if it is. `proof_valid` is the answer of the verifier.
pub open spec fn showdown_refusal(
    table: TableState,
    by_committee: bool,
    hole_cards: Seq<(u32, u32)>,
    public_inputs: Seq<u8>,
    proof_valid: bool,
) -> Option<PokerTableError> {
    if !in_showdown(table.phase) {
        Some(PokerTableError::NotInShowdownPhase)
    } else if !by_committee {
        Some(PokerTableError::NotAuthorizedCommittee)
    } else if showdown_board(table).len() != 5 {
        Some(PokerTableError::BoardNotComplete)
    } else if !proof_valid {
        Some(PokerTableError::ShowdownProofVerificationFailed)
    } else if hole_card_refusal(table.players@, public_inputs, hole_cards) is Some {
        hole_card_refusal(table.players@, public_inputs, hole_cards)
    } else if field_u32(public_inputs, 25) >= table.players@.len() {
        Some(PokerTableError::InvalidPlayerIndex)
    } else if table.players@[field_u32(public_inputs, 25)].folded {
        Some(PokerTableError::WinnerNotEligibleForPot)
    } else {
        None
    }
}

/// The first `n` cards, or all where there are fewer.
pub open spec fn first_cards(cards: Seq<u32>, n: int) -> Seq<u32> {
    if n < cards.len() {
        cards.take(n)
    } else {
        cards
    }
}

/// Whether `u` is the table `t` after a showdown is accepted at ledger `now`, before the pot is
/// paid. After the first of two runs, the shared cards stay on the board and the others are dealt
/// again for the second.
pub open spec fn showdown_accepted(t: TableState, u: TableState, winner: u32, now: u32) -> bool {
    match t.phase {
        GamePhase::ShowdownRun1 => {
            &&& u.rit_state matches Some(r) && r == (crate::poker_table::types::RitState {
                run1_winner: winner,
                current_run: 2,
                ..t.rit_state->0
            })
            &&& u.board_cards@ == first_cards(
                t.board_cards@,
                (t.rit_state->0).shared_board_count as int,
            )
            &&& u == (TableState {
                rit_state: u.rit_state,
                board_cards: u.board_cards,
                phase: first_run_phase((t.rit_state->0).shared_board_count as int),
                last_action_ledger: now,
                action_deadline: 0,
                ..t
            })
        },
        GamePhase::ShowdownRun2 => {
            &&& u.rit_state matches Some(r) && r == (crate::poker_table::types::RitState {
                run2_winner: winner,
                ..t.rit_state->0
            })
            &&& u == (TableState {
                rit_state: u.rit_state,
                phase: GamePhase::RitSettlement,
                last_action_ledger: now,
                ..t
            })
        },
        _ => u == t,
    }
}

/// Takes a showdown at ledger `now`. `by_committee` says whether the caller is the committee of
/// the table, and `proof_valid` is the answer of the verifier. The pot is not paid yet.
pub fn accept_showdown(
    table: &mut TableState,
    by_committee: bool,
    hole_cards: &Vec<(u32, u32)>,
    public_inputs: &Vec<u8>,
    proof_valid: bool,
    now: u32,
) -> (r: Result<ShowdownResult, PokerTableError>)
    requires
        old(table).players@.len() <= u32::MAX,
        forall|i: int|
            0 <= i < old(table).players@.len() ==> (#[trigger] old(table).players@[i]).seat_index
                < 0x100_0000,
    ensures
        match showdown_refusal(*old(table), by_committee, hole_cards@, public_inputs@, proof_valid) {
            Some(e) => r == Err::<ShowdownResult, _>(e) && *final(table) == *old(table),
            None => {
                &&& r matches Ok(o) && o.phase == old(table).phase && o.winner_index == field_u32(
                    public_inputs@,
                    25,
                ) && o.tie_mask == field_u32(public_inputs@, 26)
                &&& showdown_accepted(*old(table), *final(table), (r->Ok_0).winner_index, now)
            },
        },
{
    let phase = table.phase;
    if phase != GamePhase::Showdown && phase != GamePhase::ShowdownRun1 && phase
        != GamePhase::ShowdownRun2 {
        return Err(PokerTableError::NotInShowdownPhase);
    }
    if !by_committee {
        return Err(PokerTableError::NotAuthorizedCommittee);
    }
    match board_for_showdown(table) {
        Ok(_) => {},
        Err(e) => {
            return Err(e);
        },
    }
    if !proof_valid {
        return Err(PokerTableError::ShowdownProofVerificationFailed);
    }
    let winner_index: u32 = extract_u32_from_public_inputs(public_inputs, 25);
    let tie_mask: u32 = extract_u32_from_public_inputs(public_inputs, 26);
    match verify_hole_cards_against_proof(table, public_inputs, hole_cards) {
        Ok(()) => {},
        Err(e) => {
            return Err(e);
        },
    }
    if winner_index as usize >= table.players.len() {
        return Err(PokerTableError::InvalidPlayerIndex);
    }
    if table.players[winner_index as usize].folded {
        return Err(PokerTableError::WinnerNotEligibleForPot);
    }
    let ghost t = *table;
    if phase == GamePhase::ShowdownRun1 {
        let mut shared: usize = 0;
        let rit = table.rit_state.take();
        if let Some(mut r) = rit {
            r.run1_winner = winner_index;
            r.current_run = 2;
            shared = r.shared_board_count as usize;
            table.rit_state = Some(r);
        }
        if shared < table.board_cards.len() {
            table.board_cards.truncate(shared);
        }
        assert(table.board_cards@ =~= first_cards(t.board_cards@, shared as int));
        table.phase = start_of_run(shared);
        table.last_action_ledger = now;
        table.action_deadline = 0;
    } else if phase == GamePhase::ShowdownRun2 {
        let rit = table.rit_state.take();
        if let Some(mut r) = rit {
            r.run2_winner = winner_index;
            table.rit_state = Some(r);
        }
        table.phase = GamePhase::RitSettlement;
        table.last_action_ledger = now;
    }
    Ok(ShowdownResult { phase, winner_index, tie_mask })
}

/// Whom the showdown of a table names. After a second run these are the winners of the two runs.
pub open spec fn named_by(t: TableState, winner: u32, tie_mask: u32) -> Named {
    match t.phase {
        GamePhase::ShowdownRun2 => Named {
            first: (t.rit_state->0).run1_winner,
            second: winner,
            tie_mask: 0,
        },
        _ => Named { first: winner, second: winner, tie_mask },
    }
}

/// The hand of a table whose showdown is accepted at ledger `now`, before the pot is paid.
pub open spec fn shown_hand(t: TableState, now: u32) -> Hand {
    match t.phase {
        GamePhase::ShowdownRun2 => Hand {
            phase: GamePhase::RitSettlement,
            last_action_ledger: now,
            ..t.hand()
        },
        _ => t.hand(),
    }
}

/// Whether `u` is the table `t` after its last showdown is accepted and the pot is paid at ledger
/// `now`. What the jackpot pool held before is paid for a bad beat, if there is one.
pub open spec fn showdown_settled(
    t: TableState,
    u: TableState,
    winner: u32,
    tie_mask: u32,
    scores: Seq<(u32, u32)>,
    now: u32,
) -> bool {
    let named = named_by(t, winner, tie_mask);
    &&& u.hand() == shown_hand(t, now).showdown_won(
        named,
        t.config.rake_bps,
        t.config.jackpot_rake_share_bps,
        now,
    ).jackpot_paid(
        bad_beat_seat(t.players@, named, scores, bad_beat_threshold(t.config)),
        t.jackpot_balance as int,
    )
    &&& (TableState { rit_state: u.rit_state, ..t }).same_but_hand(u)
    &&& if t.phase is ShowdownRun2 {
        u.rit_state matches Some(r) && r == (crate::poker_table::types::RitState {
            run2_winner: winner,
            ..t.rit_state->0
        })
    } else {
        u.rit_state == t.rit_state
    }
}

/// Takes a showdown at ledger `now`, and pays the pot unless another run follows. `scores` are the
/// scores of the hands by seat, for the bad-beat jackpot; without any it is not looked at. Returns
/// what the showdown decides, and what was paid of the pot.
pub fn take_showdown(
    table: &mut TableState,
    by_committee: bool,
    hole_cards: &Vec<(u32, u32)>,
    public_inputs: &Vec<u8>,
    proof_valid: bool,
    scores: &Vec<(u32, u32)>,
    now: u32,
) -> (r: Result<(ShowdownResult, Option<Settled>), PokerTableError>)
    requires
        old(table).hand().wf(),
        !old(table).phase.between_hands() ==> old(table).pot == committed_total(
            old(table).players@,
        ),
        settlement_fits(*old(table)),
        forall|i: int|
            0 <= i < old(table).players@.len() ==> (#[trigger] old(table).players@[i]).seat_index
                < 0x100_0000,
    ensures
        match showdown_refusal(*old(table), by_committee, hole_cards@, public_inputs@, proof_valid) {
            Some(e) => r == Err::<(ShowdownResult, Option<Settled>), _>(e) && *final(table)
                == *old(table),
            None => {
                &&& r is Ok
                &&& (r->Ok_0).0.phase == old(table).phase
                &&& (r->Ok_0).0.winner_index == field_u32(public_inputs@, 25)
                &&& (r->Ok_0).0.tie_mask == field_u32(public_inputs@, 26)
                &&& if old(table).phase is ShowdownRun1 {
                    (r->Ok_0).1 is None && showdown_accepted(
                        *old(table),
                        *final(table),
                        (r->Ok_0).0.winner_index,
                        now,
                    )
                } else {
                    let (w, m) = ((r->Ok_0).0.winner_index, (r->Ok_0).0.tie_mask);
                    &&& showdown_settled(*old(table), *final(table), w, m, scores@, now)
                    &&& (r->Ok_0).1 matches Some(s) && settlement_of(
                        *old(table),
                        named_by(*old(table), w, m),
                        s,
                    )
                }
            },
        },
        r is Ok ==> final(table).hand().chips() == old(table).hand().chips(),
        r is Ok ==> final(table).hand().wf(),
        r matches Ok((o, _)) ==> o.winner_index == be_u32(public_inputs@, 828) && o.tie_mask
            == be_u32(public_inputs@, 860),
{
    let ghost t = *table;
    let result: ShowdownResult = match accept_showdown(
        table,
        by_committee,
        hole_cards,
        public_inputs,
        proof_valid,
        now,
    ) {
        Ok(o) => o,
        Err(e) => {
            return Err(e);
        },
    };
    if result.phase == GamePhase::ShowdownRun1 {
        return Ok((result, None));
    }
    let ghost mid = *table;
    let named: Named = match &table.rit_state {
        Some(rit) if result.phase == GamePhase::ShowdownRun2 => Named {
            first: rit.run1_winner,
            second: result.winner_index,
            tie_mask: 0,
        },
        _ => Named {
            first: result.winner_index,
            second: result.winner_index,
            tie_mask: result.tie_mask,
        },
    };
    assert(mid.hand() =~= shown_hand(t, now));
    assert(mid.hand().chips() == t.hand().chips());
    assert(!mid.players@[result.winner_index as int].folded);
    let lucky: Option<usize> = find_bad_beat(table, &named, scores);
    let pool: i128 = table.jackpot_balance;
    let settled = settle_showdown(table, &named, now);
    pay_jackpot(table, lucky, pool);
    Ok((result, Some(settled)))
}

/// Whether `s` says what the settlement of a table took and paid.
pub open spec fn settlement_of(
    t: TableState,
    named: Named,
    s: Settled,
) -> bool {
    &&& s.payouts@ == payouts_of(t.hand(), named, t.config.rake_bps)
    &&& s.total_pot == t.pot
    &&& s.rake == rake_above(t.players@, t.pot as int, t.config.rake_bps, -1)
}

/// The first of two runs pays nothing: the pot and the players stay as they are, the cards that
/// the runs do not share come off the board, and the second run is dealt.
pub proof fn first_run_keeps_the_pot(t: TableState, u: TableState, winner: u32, now: u32)
    requires
        t.phase is ShowdownRun1,
        t.rit_state is Some,
        showdown_accepted(t, u, winner, now),
    ensures
        u.pot == t.pot,
        u.players == t.players,
        u.rit_state matches Some(r) && r.current_run == 2 && r.run1_winner == winner,
        u.phase is DealingFlop || u.phase is DealingTurn || u.phase is DealingRiver,
{
}

/// Where the winners of two runs differ, both are named, and nobody else is.
pub proof fn both_runs_count(t: TableState, winner: u32, tie_mask: u32, seat: u32)
    requires
        t.phase is ShowdownRun2,
        t.rit_state is Some,
    ensures
        named_by(t, winner, tie_mask).has(seat) <==> seat == winner || seat == (
        t.rit_state->0).run1_winner,
{
    assert(forall|s: u32| s < 32 ==> (0u32 >> s) & 1u32 != 1u32) by (bit_vector);
}

/// At a showdown of one board a seat is named exactly when it is the proved winner or its bit is set
/// in the proved tie mask.
pub proof fn winner_and_ties_are_named(t: TableState, winner: u32, tie_mask: u32, seat: u32)
    requires
        t.phase is Showdown,
    ensures
        named_by(t, winner, tie_mask).has(seat) <==> seat == winner || (seat < 32 && (tie_mask
            >> seat) & 1u32 == 1u32),
{
}

/// A showdown of one board, seen on the stacks. The proved winner and every seat whose bit is set in
/// the proved tie mask share the pot: two of them who have put in the same gain the same up to the
/// odd chips, fewer than there are players where there is one pot. A player who is neither gains
/// nothing where one of them has put in as much. All that is gained is the pot less the rake, which
/// is the configured part of the pot.
pub proof fn ties_share_the_pot(
    t: TableState,
    u: TableState,
    winner: u32,
    tie_mask: u32,
    scores: Seq<(u32, u32)>,
    now: u32,
    a: int,
    b: int,
)
    requires
        t.phase is Showdown,
        t.hand().wf(),
        t.pot == committed_total(t.players@),
        t.config.rake_bps <= 10_000,
        winner < t.players@.len(),
        !t.players@[winner as int].folded,
        scores.len() == 0,
        showdown_settled(t, u, winner, tie_mask, scores, now),
        0 <= a < t.players@.len(),
        0 <= b < t.players@.len(),
        !t.players@[a].folded,
        a == winner || (a < 32 && (tie_mask >> (a as u32)) & 1u32 == 1u32),
    ensures
        ({
            let (p, q) = (t.players@[a], t.players@[b]);
            let n = t.players@.len();
            let gain_a = u.players@[a].stack - p.stack;
            let gain_b = u.players@[b].stack - q.stack;
            let b_ties = b == winner || (b < 32 && (tie_mask >> (b as u32)) & 1u32 == 1u32);
            let rake = u.rake_balance + u.jackpot_balance - t.rake_balance - t.jackpot_balance;
            &&& u.pot == 0 && u.phase is Settlement
            &&& gain_a >= 0 && gain_b >= 0
            &&& b_ties && !q.folded && q.committed == p.committed ==> -(n * n) <= gain_a - gain_b
                <= n * n
            &&& b_ties && !q.folded && (forall|i: int|
                0 <= i < n && !(#[trigger] t.players@[i]).folded ==> t.players@[i].committed
                    == p.committed) ==> -n < gain_a - gain_b < n
            &&& !b_ties && q.committed <= p.committed ==> gain_b == 0
            &&& 10_000 * rake <= t.pot * t.config.rake_bps < 10_000 * (rake + n)
        }),
{
    let h = t.hand();
    let named = named_by(t, winner, tie_mask);
    let w = winner as int;
    let (bps, share) = (t.config.rake_bps, t.config.jackpot_rake_share_bps);
    assert(shown_hand(t, now) == h);
    bad_beats_are_strong_losing_hands(t.players@, named, scores, bad_beat_threshold(t.config), 0);
    showdown_adds_winnings_to_stacks(h, named, bps, share, now, w, a);
    showdown_adds_winnings_to_stacks(h, named, bps, share, now, w, b);
    showdown_conserves_chips(h, named, bps, share, now, w);
    let n = h.showdown_won(named, bps, share, now);
    assert(u.hand() == n);
    assert(u.hand().players == u.players@);
    assert forall|i: int| 0 <= i < h.players.len() implies (#[trigger] h.players[i]).committed
        >= 0 by {}
    assert(0 <= winnings(h.players, h.pot, named, bps, -1, a));
    assert(0 <= winnings(h.players, h.pot, named, bps, -1, b));
    winner_and_ties_are_named(t, winner, tie_mask, a as u32);
    winner_and_ties_are_named(t, winner, tie_mask, b as u32);
    if named.has(b as u32) {
        if !t.players@[b].folded && t.players@[b].committed == t.players@[a].committed {
            equals_win_alike(h.players, h.pot, named, bps, a, b);
        }
    } else if t.players@[b].committed <= t.players@[a].committed {
        beaten_players_win_nothing(h.players, h.pot, named, bps, a, b);
    }
}

/// A showdown of one board without a tie, seen on the stacks: a winner whom nobody still in the
/// hand has outbid gains the pot less the rake, and nobody else gains or loses anything.
pub proof fn sole_winner_gains_the_pot(
    t: TableState,
    u: TableState,
    winner: u32,
    tie_mask: u32,
    scores: Seq<(u32, u32)>,
    now: u32,
    other: int,
)
    requires
        t.phase is Showdown,
        t.hand().wf(),
        t.pot == committed_total(t.players@),
        t.config.rake_bps <= 10_000,
        winner < t.players@.len(),
        !t.players@[winner as int].folded,
        forall|i: int|
            0 <= i < t.players@.len() && !(#[trigger] t.players@[i]).folded
                ==> t.players@[i].committed <= t.players@[winner as int].committed,
        forall|s: u32|
            s < 32 && s < t.players@.len() && s != winner ==> (tie_mask >> s) & 1u32 != 1u32,
        scores.len() == 0,
        showdown_settled(t, u, winner, tie_mask, scores, now),
        0 <= other < t.players@.len(),
        other != winner,
    ensures
        ({
            let rake = u.rake_balance + u.jackpot_balance - t.rake_balance - t.jackpot_balance;
            &&& u.players@[winner as int].stack == t.players@[winner as int].stack + t.pot - rake
            &&& u.players@[other].stack == t.players@[other].stack
            &&& 10_000 * rake <= t.pot * t.config.rake_bps < 10_000 * (rake + t.players@.len())
            &&& u.pot == 0 && u.phase is Settlement
        }),
{
    let h = t.hand();
    let named = named_by(t, winner, tie_mask);
    let w = winner as int;
    let (bps, share) = (t.config.rake_bps, t.config.jackpot_rake_share_bps);
    assert(shown_hand(t, now) == h);
    bad_beats_are_strong_losing_hands(t.players@, named, scores, bad_beat_threshold(t.config), 0);
    showdown_adds_winnings_to_stacks(h, named, bps, share, now, w, w);
    showdown_adds_winnings_to_stacks(h, named, bps, share, now, w, other);
    let n = h.showdown_won(named, bps, share, now);
    assert(u.hand() == n);
    assert(u.hand().players == u.players@);
    assert forall|i: int| 0 <= i < h.players.len() implies (#[trigger] h.players[i]).committed
        >= 0 by {}
    assert forall|i: int| 0 <= i < h.players.len() implies (#[trigger] named.has(i as u32) <==> i
        == winner) by {
        winner_and_ties_are_named(t, winner, tie_mask, i as u32);
    }
    top_winner_takes_the_pot(h.players, h.pot, named, bps, w);
}

/// Two runs with different winners, seen on the stacks: the two share the pot as in a tie, whatever
/// the tie mask, and a third player gains nothing where one of the two has put in as much.
pub proof fn two_runs_share_the_pot(
    t: TableState,
    u: TableState,
    winner: u32,
    tie_mask: u32,
    scores: Seq<(u32, u32)>,
    now: u32,
    other: int,
)
    requires
        t.phase is ShowdownRun2,
        t.rit_state is Some,
        t.hand().wf(),
        t.pot == committed_total(t.players@),
        t.config.rake_bps <= 10_000,
        winner < t.players@.len(),
        (t.rit_state->0).run1_winner < t.players@.len(),
        !t.players@[winner as int].folded,
        !t.players@[(t.rit_state->0).run1_winner as int].folded,
        scores.len() == 0,
        showdown_settled(t, u, winner, tie_mask, scores, now),
        0 <= other < t.players@.len(),
        other != winner && other != (t.rit_state->0).run1_winner,
    ensures
        ({
            let (a, b) = ((t.rit_state->0).run1_winner as int, winner as int);
            let n = t.players@.len();
            let (p, q) = (t.players@[a], t.players@[b]);
            let gap = (u.players@[a].stack - p.stack) - (u.players@[b].stack - q.stack);
            &&& p.committed == q.committed ==> -(n * n) <= gap <= n * n
            &&& (forall|i: int|
                0 <= i < n && !(#[trigger] t.players@[i]).folded ==> t.players@[i].committed
                    == p.committed) ==> -n < gap < n
            &&& t.players@[other].committed <= p.committed || t.players@[other].committed
                <= q.committed ==> u.players@[other].stack == t.players@[other].stack
            &&& u.pot == 0 && u.phase is Settlement
            &&& u.rit_state matches Some(r) && r.run2_winner == winner && r.run1_winner == a
        }),
{
    let h = shown_hand(t, now);
    let named = named_by(t, winner, tie_mask);
    let (a, b) = ((t.rit_state->0).run1_winner as int, winner as int);
    let (bps, share) = (t.config.rake_bps, t.config.jackpot_rake_share_bps);
    assert(h.chips() == t.hand().chips());
    assert(h.wf());
    bad_beats_are_strong_losing_hands(t.players@, named, scores, bad_beat_threshold(t.config), 0);
    showdown_adds_winnings_to_stacks(h, named, bps, share, now, b, a);
    showdown_adds_winnings_to_stacks(h, named, bps, share, now, b, b);
    showdown_adds_winnings_to_stacks(h, named, bps, share, now, b, other);
    assert(u.hand() == h.showdown_won(named, bps, share, now));
    assert(u.hand().players == u.players@);
    assert forall|i: int| 0 <= i < h.players.len() implies (#[trigger] h.players[i]).committed
        >= 0 by {}
    both_runs_count(t, winner, tie_mask, a as u32);
    both_runs_count(t, winner, tie_mask, b as u32);
    both_runs_count(t, winner, tie_mask, other as u32);
    if t.players@[a].committed == t.players@[b].committed {
        equals_win_alike(h.players, h.pot, named, bps, a, b);
    }
    if t.players@[other].committed <= t.players@[a].committed {
        beaten_players_win_nothing(h.players, h.pot, named, bps, a, other);
    } else if t.players@[other].committed <= t.players@[b].committed {
        beaten_players_win_nothing(h.players, h.pot, named, bps, b, other);
    }
}

/// A showdown is taken from the committee alone, with a proof that holds, at a showdown with five
/// cards on the board, for a winner who is at the table and has not folded. The winner and the ties
/// are the last four bytes of the 26th and the 27th field of 32 bytes.
pub proof fn showdowns_are_proved(
    table: TableState,
    by_committee: bool,
    hole_cards: Seq<(u32, u32)>,
    public_inputs: Seq<u8>,
    proof_valid: bool,
)
    ensures
        ({
            let winner = be_u32(public_inputs, 828);
            showdown_refusal(table, by_committee, hole_cards, public_inputs, proof_valid) is None
                <==> {
                &&& table.phase is Showdown || table.phase is ShowdownRun1
                    || table.phase is ShowdownRun2
                &&& by_committee
                &&& proof_valid
                &&& showdown_board(table).len() == 5
                &&& hole_card_refusal(table.players@, public_inputs, hole_cards) is None
                &&& winner < table.players@.len()
                &&& !table.players@[winner].folded
            }
        }),
        field_u32(public_inputs, 25) == be_u32(public_inputs, 828),
        field_u32(public_inputs, 26) == be_u32(public_inputs, 860),
        forall|f: int| #[trigger] field_u32(public_inputs, f) == be_u32(public_inputs, 32 * f + 28),
{
}

/// The board of a showdown is that of its run, or the five cards that were dealt last.
pub proof fn showdowns_are_about_their_board(table: TableState, i: int)
    requires
        0 <= i < 5,
    ensures
        table.phase is Showdown && table.dealt_indices@.len() >= 5 ==> showdown_board(table).len()
            == 5 && showdown_board(table)[i] == table.dealt_indices@[table.dealt_indices@.len() - 5
            + i],
        table.phase is ShowdownRun1 && table.rit_state is Some ==> showdown_board(table) == (
        table.rit_state->0).run1_board_indices@,
        table.phase is ShowdownRun2 && table.rit_state is Some ==> showdown_board(table) == (
        table.rit_state->0).run2_board_indices@,
{
}

proof fn lemma_hole_cards(
    players: Seq<PlayerState>,
    public_inputs: Seq<u8>,
    hole_cards: Seq<(u32, u32)>,
    i: int,
)
    requires
        0 <= i < players.len(),
        !players[i].folded,
        hole_card_fault(players, public_inputs, hole_cards) is None,
    ensures
        ({
            let k = count_active(players.take(i)) as int;
            &&& k < hole_cards.len()
            &&& hole_cards[k].0 == field_u32(public_inputs, 13 + players[i].seat_index)
            &&& hole_cards[k].1 == field_u32(public_inputs, 19 + players[i].seat_index)
        }),
    decreases players.len(),
{
    let d = players.drop_last();
    if i == d.len() {
        assert(players.take(i) =~= d);
    } else {
        assert(d.take(i) =~= players.take(i));
        assert(d[i] == players[i]);
        lemma_hole_cards(d, public_inputs, hole_cards, i);
    }
}

/// Hole cards that are taken are those of the proof: for each player who has not folded, in the
/// order of the seats, the first card from the field of the seat among those from 13 on and the
/// second among those from 19 on. Somebody must be in the hand.
pub proof fn hole_cards_are_those_of_the_proof(
    players: Seq<PlayerState>,
    public_inputs: Seq<u8>,
    hole_cards: Seq<(u32, u32)>,
    i: int,
)
    requires
        0 <= i < players.len(),
        !players[i].folded,
        hole_card_refusal(players, public_inputs, hole_cards) is None,
    ensures
        ({
            let k = count_active(players.take(i)) as int;
            &&& k < hole_cards.len()
            &&& hole_cards[k].0 == be_u32(public_inputs, 32 * (13 + players[i].seat_index) + 28)
            &&& hole_cards[k].1 == be_u32(public_inputs, 32 * (19 + players[i].seat_index) + 28)
        }),
{
    lemma_hole_cards(players, public_inputs, hole_cards, i);
}

/// A showdown that cannot be taken is refused for a reason.
pub proof fn showdowns_are_refused_for_a_reason(
    t: TableState,
    by_committee: bool,
    hole_cards: Seq<(u32, u32)>,
    public_inputs: Seq<u8>,
    proof_valid: bool,
)
    ensures
        ({
            let r = showdown_refusal(t, by_committee, hole_cards, public_inputs, proof_valid);
            &&& r == Some(PokerTableError::NotInShowdownPhase)
                ==> !(t.phase is Showdown || t.phase is ShowdownRun1 || t.phase is ShowdownRun2)
            &&& r == Some(PokerTableError::NotAuthorizedCommittee) ==> !by_committee
            &&& r == Some(PokerTableError::BoardNotComplete) ==> showdown_board(t).len() != 5
            &&& r == Some(PokerTableError::ShowdownProofVerificationFailed) ==> !proof_valid
            &&& r == Some(PokerTableError::WinnerNotEligibleForPot)
                ==> t.players@[be_u32(public_inputs, 828)].folded
        }),
{
    lemma_fault_kind(t.players@, public_inputs, hole_cards);
}

/// A winner who is not at the table is refused, and hole cards other than those of the proof are.
pub proof fn wrong_hands_are_refused(
    t: TableState,
    hole_cards: Seq<(u32, u32)>,
    public_inputs: Seq<u8>,
)
    requires
        t.phase is Showdown,
        showdown_board(t).len() == 5,
    ensures
        ({
            let r = showdown_refusal(t, true, hole_cards, public_inputs, true);
            let cards = hole_card_refusal(t.players@, public_inputs, hole_cards);
            &&& cards is Some ==> r == cards
            &&& cards is None && be_u32(public_inputs, 828) >= t.players@.len() ==> r == Some(
                PokerTableError::InvalidPlayerIndex,
            )
            &&& cards is Some ==> cards == Some(PokerTableError::InvalidHoleCards) || cards == Some(
                PokerTableError::HoleCardMismatch,
            )
        }),
{
    lemma_fault_kind(t.players@, public_inputs, hole_cards);
}

proof fn lemma_fault_kind(
    players: Seq<PlayerState>,
    public_inputs: Seq<u8>,
    hole_cards: Seq<(u32, u32)>,
)
    ensures
        hole_card_fault(players, public_inputs, hole_cards) matches Some(e) ==> e
            == PokerTableError::InvalidHoleCards || e == PokerTableError::HoleCardMismatch,
    decreases players.len(),
{
    if players.len() > 0 {
        lemma_fault_kind(players.drop_last(), public_inputs, hole_cards);
    }
}

/// After the first of two runs the cards that both share stay on the board, in their order, and the
/// next cards of the second run are dealt: the turn after three shared cards, the river after four,
/// and the flop otherwise.
pub proof fn second_run_starts_from_the_shared_cards(
    t: TableState,
    u: TableState,
    winner: u32,
    now: u32,
    i: int,
)
    requires
        t.phase is ShowdownRun1,
        t.rit_state is Some,
        showdown_accepted(t, u, winner, now),
        (t.rit_state->0).shared_board_count <= t.board_cards@.len(),
        0 <= i < (t.rit_state->0).shared_board_count,
    ensures
        u.board_cards@.len() == (t.rit_state->0).shared_board_count,
        u.board_cards@[i] == t.board_cards@[i],
        u.dealt_indices == t.dealt_indices,
        (t.rit_state->0).shared_board_count == 3 ==> u.phase is DealingTurn,
        (t.rit_state->0).shared_board_count == 4 ==> u.phase is DealingRiver,
        u.last_action_ledger == now && u.action_deadline == 0,
        (u.rit_state->0).run1_board_indices == (t.rit_state->0).run1_board_indices
            && (u.rit_state->0).run2_board_indices == (t.rit_state->0).run2_board_indices,
{
}

/// A bad beat, seen on the stacks: whoever has it gains all that the jackpot held before the showdown,
/// on top of what they win of the pot, and the jackpot keeps only its part of this hand's rake. Nobody
/// else gains by it, and without a bad beat the jackpot only grows.
#[verifier::rlimit(30)]
pub proof fn bad_beats_are_paid_the_pool(
    t: TableState,
    u: TableState,
    winner: u32,
    tie_mask: u32,
    scores: Seq<(u32, u32)>,
    now: u32,
    i: int,
)
    requires
        t.phase is Showdown,
        t.hand().wf(),
        t.pot == committed_total(t.players@),
        t.config.rake_bps <= 10_000,
        winner < t.players@.len(),
        !t.players@[winner as int].folded,
        showdown_settled(t, u, winner, tie_mask, scores, now),
        0 <= i < t.players@.len(),
    ensures
        ({
            let named = named_by(t, winner, tie_mask);
            let lucky = bad_beat_seat(t.players@, named, scores, bad_beat_threshold(t.config));
            let won = winnings(t.players@, t.pot as int, named, t.config.rake_bps, -1, i);
            let gain = u.players@[i].stack - t.players@[i].stack;
            let rake = rake_above(t.players@, t.pot as int, t.config.rake_bps, -1);
            let share = t.config.jackpot_rake_share_bps;
            let fed = u.jackpot_balance - (if lucky is Some {
                0
            } else {
                t.jackpot_balance as int
            });
            &&& lucky == Some(i) ==> gain == won + t.jackpot_balance
            &&& lucky != Some(i) ==> gain == won
            &&& share >= 10_000 ==> fed == rake
            &&& share < 10_000 ==> 10_000 * fed <= rake * share < 10_000 * (fed + 1)
            &&& u.rake_balance - t.rake_balance == rake - fed
        }),
{
    let h = t.hand();
    let named = named_by(t, winner, tie_mask);
    let (bps, share) = (t.config.rake_bps, t.config.jackpot_rake_share_bps);
    let lucky = bad_beat_seat(t.players@, named, scores, bad_beat_threshold(t.config));
    assert(shown_hand(t, now) == h);
    bad_beats_are_strong_losing_hands(t.players@, named, scores, bad_beat_threshold(t.config), 0);
    showdown_adds_winnings_to_stacks(h, named, bps, share, now, winner as int, i);
    showdown_conserves_chips(h, named, bps, share, now, winner as int);
    let n = h.showdown_won(named, bps, share, now);
    let rake = rake_above(h.players, h.pot, bps, -1);
    share_within_rake(rake, share);
    if let Some(s) = lucky {
        jackpot_goes_to_its_seat(n, s, t.jackpot_balance as int, i);
    }
    assert(u.hand().players == u.players@);
    assert(u.hand().jackpot_balance == u.jackpot_balance);
    assert(u.hand().rake_balance == u.rake_balance);
}

/// What a settlement is said to have taken and paid is what it has: the pot as it was, the configured
/// part of it as the rake, and payouts in the order of the seats.
pub proof fn settlements_are_told(t: TableState, named: Named, s: Settled, active: int)
    requires
        t.hand().wf(),
        t.pot == committed_total(t.players@),
        t.config.rake_bps <= 10_000,
        0 <= active < t.players@.len(),
        !t.players@[active].folded,
        settlement_of(t, named, s),
    ensures
        s.total_pot == t.pot,
        10_000 * s.rake <= t.pot * t.config.rake_bps < 10_000 * (s.rake + t.players@.len()),
        forall|j: int, l: int|
            0 <= j < l < s.payouts@.len() ==> (#[trigger] s.payouts@[j]).0 < (
            #[trigger] s.payouts@[l]).0,
        forall|j: int|
            0 <= j < s.payouts@.len() && (#[trigger] s.payouts@[j]).0 == active ==> s.payouts@[j].1
                == winnings(t.players@, t.pot as int, named, t.config.rake_bps, -1, active),
{
    let h = t.hand();
    assert forall|j: int| 0 <= j < h.players.len() implies (#[trigger] h.players[j]).committed
        >= 0 by {}
    showdown_rake_is_its_part_of_the_pot(h.players, h.pot, t.config.rake_bps, active);
    payouts_list_the_winners(h, named, t.config.rake_bps, active, active);
}

} // verus!
