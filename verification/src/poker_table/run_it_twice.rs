//! Running the board twice for two players who are all in.

use crate::poker_table::game::{active_player_count, count_active};
use crate::poker_table::timeout::{dealing_phase, next_dealing_phase};
use crate::poker_table::types::{GamePhase, PlayerState, PokerTableError, RitState, TableState};
use crate::seqs::contains_item;
use vstd::prelude::*;

verus! {

/// The number of cards on a full board.
pub const BOARD_INDICES_COUNT: u32 = 5;

/// The deck positions below `n` that have not been dealt, in order.
pub open spec fn undealt(dealt: Seq<u32>, n: nat) -> Seq<u32>
    decreases n,
{
    if n == 0 {
        Seq::empty()
    } else {
        let rest = undealt(dealt, (n - 1) as nat);
        if dealt.contains((n - 1) as u32) {
            rest
        } else {
            rest.push((n - 1) as u32)
        }
    }
}

/// The deck positions of a board that starts at the undealt position number `from`. The first
/// `shared` cards are those that were dealt last.
pub open spec fn board_of_run(dealt: Seq<u32>, shared: int, from: int) -> Seq<u32> {
    let free = undealt(dealt, 52);
    Seq::new(
        5,
        |i: int|
            if i < shared {
                dealt[dealt.len() - shared + i]
            } else if from + i < free.len() {
                free[from + i]
            } else {
                0
            },
    )
}

/// The deck positions of one run.
fn run_indices(dealt: &Vec<u32>, free: &Vec<u32>, shared: usize, from: usize) -> (r: Vec<u32>)
    requires
        free@ == undealt(dealt@, 52),
        shared <= 5,
        shared <= dealt@.len(),
        from <= 5,
    ensures
        r@ == board_of_run(dealt@, shared as int, from as int),
{
    let ghost all = board_of_run(dealt@, shared as int, from as int);
    let mut out: Vec<u32> = Vec::new();
    let mut i: usize = 0;
    while i < 5
        invariant
            i <= 5,
            shared <= 5,
            shared <= dealt@.len(),
            from <= 5,
            free@ == undealt(dealt@, 52),
            all == board_of_run(dealt@, shared as int, from as int),
            out@ == all.take(i as int),
        decreases 5 - i,
    {
        let x: u32 = if i < shared {
            dealt[dealt.len() - shared + i]
        } else if from + i < free.len() {
            free[from + i]
        } else {
            0
        };
        out.push(x);
        assert(all.take(i + 1) =~= all.take(i as int).push(all[i as int]));
        i += 1;
    }
    assert(out@ =~= all);
    out
}

/// The deck positions of the boards of both runs. The first takes the next five positions that
/// have not been dealt and the second the five after those, but for the cards that both share.
pub fn compute_rit_board_indices(dealt: &Vec<u32>, shared: usize) -> (r: (Vec<u32>, Vec<u32>))
    requires
        shared <= 5,
        shared <= dealt@.len(),
    ensures
        r.0@ == board_of_run(dealt@, shared as int, 0),
        r.1@ == board_of_run(dealt@, shared as int, 5),
{
    let mut free: Vec<u32> = Vec::new();
    let mut i: u32 = 0;
    while i < 52
        invariant
            i <= 52,
            free@ == undealt(dealt@, i as nat),
        decreases 52 - i,
    {
        if !contains_item(dealt, &i) {
            free.push(i);
        }
        i += 1;
    }
    (run_indices(dealt, &free, shared, 0), run_indices(dealt, &free, shared, 5))
}

proof fn lemma_undealt(dealt: Seq<u32>, n: nat)
    requires
        n <= 52,
    ensures
        undealt(dealt, n).len() <= n,
        forall|i: int|
            0 <= i < undealt(dealt, n).len() ==> {
                &&& #[trigger] undealt(dealt, n)[i] < n
                &&& !dealt.contains(undealt(dealt, n)[i])
            },
        undealt(dealt, n).no_duplicates(),
    decreases n,
{
    if n > 0 {
        lemma_undealt(dealt, (n - 1) as nat);
        let a = undealt(dealt, (n - 1) as nat);
        let b = undealt(dealt, n);
        assert forall|i: int| 0 <= i < b.len() implies b[i] < n && !dealt.contains(
            #[trigger] b[i],
        ) by {
            if i < a.len() {
                assert(b[i] == a[i]);
            }
        }
        assert forall|i: int, j: int|
            0 <= i < b.len() && 0 <= j < b.len() && i != j implies b[i] != b[j] by {
            if i < a.len() && j < a.len() {
                assert(a[i] != a[j]);
            } else if i < a.len() {
                assert(a[i] < n - 1);
            } else if j < a.len() {
                assert(a[j] < n - 1);
            }
        }
    }
}

/// Where the deck holds out, the cards that the two runs do not share are dealt to neither
/// before, and no card is dealt twice.
pub proof fn runs_use_fresh_cards(dealt: Seq<u32>, shared: int, i: int, j: int)
    requires
        undealt(dealt, 52).len() >= 10,
        0 <= shared <= 5,
        shared <= dealt.len(),
        shared <= i < 5,
        shared <= j < 5,
    ensures
        ({
            let a = board_of_run(dealt, shared, 0);
            let b = board_of_run(dealt, shared, 5);
            &&& a[i] < 52 && !dealt.contains(a[i])
            &&& b[j] < 52 && !dealt.contains(b[j])
            &&& a[i] != b[j]
            &&& i != j ==> a[i] != a[j] && b[i] != b[j]
        }),
{
    lemma_undealt(dealt, 52);
    let free = undealt(dealt, 52);
    assert(free[i] < 52 && free[j + 5] < 52);
}

/// The seats of the players who are all in and have not folded.
pub open spec fn all_in_seats(players: Seq<PlayerState>) -> Seq<u32>
    decreases players.len(),
{
    if players.len() == 0 {
        Seq::empty()
    } else {
        let rest = all_in_seats(players.drop_last());
        let p = players.last();
        if !p.folded && p.all_in {
            rest.push(p.seat_index)
        } else {
            rest
        }
    }
}

fn find_all_in_seats(table: &TableState) -> (r: Vec<u32>)
    ensures
        r@ == all_in_seats(table.players@),
{
    let mut out: Vec<u32> = Vec::new();
    let mut i: usize = 0;
    while i < table.players.len()
        invariant
            i <= table.players@.len(),
            out@ == all_in_seats(table.players@.take(i as int)),
        decreases table.players@.len() - i,
    {
        assert(table.players@.take(i + 1).drop_last() =~= table.players@.take(i as int));
        if !table.players[i].folded && table.players[i].all_in {
            out.push(table.players[i].seat_index);
        }
        i += 1;
    }
    assert(table.players@.take(i as int) =~= table.players@);
    out
}

/// Whether the first and the second of the two players have opted in so far.
pub open spec fn opted_in(table: TableState) -> (bool, bool) {
    match table.rit_state {
        Some(r) => (r.player1_opted_in, r.player2_opted_in),
        None => (false, false),
    }
}

/// Why the player at place `seat` cannot offer to run the board twice, if they cannot. Cards must
/// be to come, nothing of the kind may have been offered in this hand, and the player must be one
/// of the only two who are left, both all in.
pub open spec fn offer_refusal(table: TableState, seat: int) -> Option<PokerTableError> {
    let seats = all_in_seats(table.players@);
    if !(table.phase is DealingFlop || table.phase is DealingTurn || table.phase is DealingRiver) {
        Some(PokerTableError::NotInRitPhase)
    } else if table.rit_state is Some {
        Some(PokerTableError::RitAlreadyDecided)
    } else if seat >= table.players@.len() {
        Some(PokerTableError::PlayerNotAtTable)
    } else if count_active(table.players@) != 2 || seats.len() != 2 || (seat != seats[0] && seat
        != seats[1]) {
        Some(PokerTableError::NotHeadsUpAllIn)
    } else {
        None
    }
}

/// Whether `u` is the table `t` after running the board twice is offered at ledger `now`: the hand
/// waits for both players, neither of whom has chosen.
pub open spec fn offered(t: TableState, u: TableState, now: u32) -> bool {
    let seats = all_in_seats(t.players@);
    &&& u.rit_state matches Some(r) && {
        &&& r.run1_board_indices@ == Seq::<u32>::empty()
        &&& r.run2_board_indices@ == Seq::<u32>::empty()
        &&& r == (RitState {
            active: false,
            player1_seat: seats[0],
            player2_seat: seats[1],
            player1_opted_in: false,
            player2_opted_in: false,
            shared_board_count: t.board_cards@.len() as u32,
            current_run: 0,
            run1_board_indices: r.run1_board_indices,
            run2_board_indices: r.run2_board_indices,
            run1_winner: 0,
            run2_winner: 0,
        })
    }
    &&& u == (TableState {
        phase: GamePhase::AwaitingRunItTwice,
        last_action_ledger: now,
        action_deadline: 0,
        rit_state: u.rit_state,
        ..t
    })
}

/// Offers to run the board twice in the name of the player at place `seat`, at ledger `now`.
pub fn open_choice(table: &mut TableState, seat: usize, now: u32) -> (r: Result<
    (),
    PokerTableError,
>)
    requires
        old(table).players@.len() <= u32::MAX,
        old(table).board_cards@.len() <= u32::MAX,
    ensures
        match offer_refusal(*old(table), seat as int) {
            Some(e) => r == Err::<(), _>(e) && *final(table) == *old(table),
            None => r is Ok && offered(*old(table), *final(table), now),
        },
{
    if table.phase != GamePhase::DealingFlop && table.phase != GamePhase::DealingTurn && table.phase
        != GamePhase::DealingRiver {
        return Err(PokerTableError::NotInRitPhase);
    }
    if table.rit_state.is_some() {
        return Err(PokerTableError::RitAlreadyDecided);
    }
    if seat >= table.players.len() {
        return Err(PokerTableError::PlayerNotAtTable);
    }
    let seats = find_all_in_seats(table);
    if active_player_count(table) != 2 || seats.len() != 2 {
        return Err(PokerTableError::NotHeadsUpAllIn);
    }
    let (p1, p2): (u32, u32) = (seats[0], seats[1]);
    if seat as u64 != p1 as u64 && seat as u64 != p2 as u64 {
        return Err(PokerTableError::NotHeadsUpAllIn);
    }
    let run1: Vec<u32> = Vec::new();
    let run2: Vec<u32> = Vec::new();
    assert(run1@ =~= Seq::<u32>::empty() && run2@ =~= Seq::<u32>::empty());
    table.rit_state = Some(
        RitState {
            active: false,
            player1_seat: p1,
            player2_seat: p2,
            player1_opted_in: false,
            player2_opted_in: false,
            shared_board_count: table.board_cards.len() as u32,
            current_run: 0,
            run1_board_indices: run1,
            run2_board_indices: run2,
            run1_winner: 0,
            run2_winner: 0,
        },
    );
    table.phase = GamePhase::AwaitingRunItTwice;
    table.last_action_ledger = now;
    table.action_deadline = 0;
    Ok(())
}

/// Why the player at place `seat` cannot choose, if they cannot. A place past the last stands for
/// a player who is not at the table.
pub open spec fn choice_refusal(table: TableState, seat: int) -> Option<PokerTableError> {
    let seats = all_in_seats(table.players@);
    if !(table.phase is AwaitingRunItTwice) {
        Some(PokerTableError::NotInRitPhase)
    } else if table.rit_state matches Some(r) && r.active {
        Some(PokerTableError::RitAlreadyDecided)
    } else if seat >= table.players@.len() {
        Some(PokerTableError::PlayerNotAtTable)
    } else if seats.len() != 2 || (seat != seats[0] && seat != seats[1]) {
        Some(PokerTableError::NotHeadsUpAllIn)
    } else if (seat == seats[0] && opted_in(table).0) || (seat != seats[0] && opted_in(table).1) {
        Some(PokerTableError::RitAlreadyDecided)
    } else {
        None
    }
}

/// The dealing phase that the two runs start with.
pub open spec fn first_run_phase(shared: int) -> GamePhase {
    if shared == 3 {
        GamePhase::DealingTurn
    } else if shared == 4 {
        GamePhase::DealingRiver
    } else {
        GamePhase::DealingFlop
    }
}

/// The dealing phase that a run starts with.
pub fn start_of_run(shared: usize) -> (r: GamePhase)
    ensures
        r == first_run_phase(shared as int),
{
    if shared == 3 {
        GamePhase::DealingTurn
    } else if shared == 4 {
        GamePhase::DealingRiver
    } else {
        GamePhase::DealingFlop
    }
}

/// Whether `u` is the table `t` after the player at place `seat` has chosen at ledger `now`. Where
/// a player declines, play goes on with one board, and the choice is not offered again. Where both
/// have opted in, the boards of both runs are laid down.
pub open spec fn chosen(t: TableState, u: TableState, seat: int, opt_in: bool, now: u32) -> bool {
    let seats = all_in_seats(t.players@);
    let shared = t.board_cards@.len() as int;
    let first = opted_in(t).0 || seat == seats[0];
    let second = opted_in(t).1 || seat != seats[0];
    if !opt_in {
        u == (TableState {
            phase: dealing_phase(shared),
            last_action_ledger: now,
            action_deadline: 0,
            ..t
        })
    } else {
        &&& u.rit_state matches Some(r) && {
            &&& r.run1_board_indices@ == if first && second {
                board_of_run(t.dealt_indices@, shared, 0)
            } else {
                Seq::empty()
            }
            &&& r.run2_board_indices@ == if first && second {
                board_of_run(t.dealt_indices@, shared, 5)
            } else {
                Seq::empty()
            }
            &&& r == (RitState {
                active: first && second,
                player1_seat: seats[0],
                player2_seat: seats[1],
                player1_opted_in: first,
                player2_opted_in: second,
                shared_board_count: shared as u32,
                current_run: 1,
                run1_board_indices: r.run1_board_indices,
                run2_board_indices: r.run2_board_indices,
                run1_winner: 0,
                run2_winner: 0,
            })
        }
        &&& u == if first && second {
            TableState {
                phase: first_run_phase(shared),
                last_action_ledger: now,
                action_deadline: 0,
                rit_state: u.rit_state,
                ..t
            }
        } else {
            TableState { rit_state: u.rit_state, ..t }
        }
    }
}

/// What has come of a player's choice.
#[derive(Clone, Copy, Debug, PartialEq, Eq, Structural)]
pub enum RitChoice {
    Declined,
    /// The other player has yet to choose.
    OptedIn,
    Activated,
}

/// Takes the choice of the player at place `seat`, at ledger `now`.
pub fn choose_run_it_twice(table: &mut TableState, seat: usize, opt_in: bool, now: u32) -> (r: Result<
    RitChoice,
    PokerTableError,
>)
    requires
        old(table).phase is AwaitingRunItTwice ==> old(table).board_cards@.len() <= 5
            && old(table).board_cards@.len() <= old(table).dealt_indices@.len(),
    ensures
        match choice_refusal(*old(table), seat as int) {
            Some(e) => r == Err::<RitChoice, _>(e) && *final(table) == *old(table),
            None => {
                &&& chosen(*old(table), *final(table), seat as int, opt_in, now)
                &&& r == Ok::<_, PokerTableError>(
                    if !opt_in {
                        RitChoice::Declined
                    } else if (final(table).rit_state->0).active {
                        RitChoice::Activated
                    } else {
                        RitChoice::OptedIn
                    },
                )
            },
        },
{
    if table.phase != GamePhase::AwaitingRunItTwice {
        return Err(PokerTableError::NotInRitPhase);
    }
    let (active, one, two): (bool, bool, bool) = match &table.rit_state {
        Some(r) => (r.active, r.player1_opted_in, r.player2_opted_in),
        None => (false, false, false),
    };
    if active {
        return Err(PokerTableError::RitAlreadyDecided);
    }
    if seat >= table.players.len() {
        return Err(PokerTableError::PlayerNotAtTable);
    }
    let seats = find_all_in_seats(table);
    if seats.len() != 2 {
        return Err(PokerTableError::NotHeadsUpAllIn);
    }
    let (p1, p2): (u32, u32) = (seats[0], seats[1]);
    if seat as u64 != p1 as u64 && seat as u64 != p2 as u64 {
        return Err(PokerTableError::NotHeadsUpAllIn);
    }
    let is_first: bool = seat as u64 == p1 as u64;
    if (is_first && one) || (!is_first && two) {
        return Err(PokerTableError::RitAlreadyDecided);
    }
    let shared: usize = table.board_cards.len();
    if !opt_in {
        table.phase = next_dealing_phase(shared);
        table.last_action_ledger = now;
        table.action_deadline = 0;
        return Ok(RitChoice::Declined);
    }
    let first: bool = one || is_first;
    let second: bool = two || !is_first;
    let both: bool = first && second;
    let (run1, run2): (Vec<u32>, Vec<u32>) = if both {
        compute_rit_board_indices(&table.dealt_indices, shared)
    } else {
        (Vec::new(), Vec::new())
    };
    assert(!both ==> run1@ =~= Seq::empty() && run2@ =~= Seq::empty());
    table.rit_state = Some(
        RitState {
            active: both,
            player1_seat: p1,
            player2_seat: p2,
            player1_opted_in: first,
            player2_opted_in: second,
            shared_board_count: shared as u32,
            current_run: 1,
            run1_board_indices: run1,
            run2_board_indices: run2,
            run1_winner: 0,
            run2_winner: 0,
        },
    );
    if both {
        table.phase = start_of_run(shared);
        table.last_action_ledger = now;
        table.action_deadline = 0;
        return Ok(RitChoice::Activated);
    }
    Ok(RitChoice::OptedIn)
}

/// Two players who are all in with cards to come can run the board twice: either offers it, and
/// once both have opted in two boards are laid down, with the cards that are there already on
/// both.
pub proof fn two_opt_ins_start_two_runs(
    s: TableState,
    t: TableState,
    u: TableState,
    v: TableState,
    offerer: int,
    first: int,
    second: int,
    now: u32,
    later: u32,
)
    requires
        offer_refusal(s, offerer) is None,
        offered(s, t, now),
        seats_in_order(s.players@),
        first == all_in_seats(t.players@)[0] && second == all_in_seats(t.players@)[1] || first
            == all_in_seats(t.players@)[1] && second == all_in_seats(t.players@)[0],
        chosen(t, u, first, true, now),
        chosen(u, v, second, true, later),
    ensures
        choice_refusal(t, first) is None,
        u.phase is AwaitingRunItTwice,
        choice_refusal(u, second) is None,
        v.rit_state matches Some(r) && r.active && r.current_run == 1,
        v.phase == first_run_phase(t.board_cards@.len() as int),
        (v.rit_state->0).run1_board_indices@ == board_of_run(
            t.dealt_indices@,
            t.board_cards@.len() as int,
            0,
        ),
        (v.rit_state->0).run2_board_indices@ == board_of_run(
            t.dealt_indices@,
            t.board_cards@.len() as int,
            5,
        ),
{
    lemma_all_in_seats(t.players@);
}

/// Players are numbered by their places.
pub open spec fn seats_in_order(players: Seq<PlayerState>) -> bool {
    forall|i: int| 0 <= i < players.len() ==> (#[trigger] players[i]).seat_index == i
}

proof fn lemma_all_in_seats(players: Seq<PlayerState>)
    requires
        seats_in_order(players),
    ensures
        forall|i: int|
            0 <= i < all_in_seats(players).len() ==> (#[trigger] all_in_seats(players)[i])
                < players.len(),
        forall|i: int, j: int|
            0 <= i < j < all_in_seats(players).len() ==> (#[trigger] all_in_seats(players)[i]) < (
            #[trigger] all_in_seats(players)[j]),
    decreases players.len(),
{
    if players.len() > 0 {
        let d = players.drop_last();
        assert forall|i: int| 0 <= i < d.len() implies (#[trigger] d[i]).seat_index == i by {
            assert(d[i] == players[i]);
        }
        lemma_all_in_seats(d);
        let a = all_in_seats(d);
        let b = all_in_seats(players);
        assert(players[players.len() - 1].seat_index == players.len() - 1);
        assert forall|i: int| 0 <= i < b.len() implies (#[trigger] b[i]) < players.len() by {
            if i < a.len() {
                assert(b[i] == a[i]);
            }
        }
        assert forall|i: int, j: int| 0 <= i < j < b.len() implies (#[trigger] b[i]) < (
        #[trigger] b[j]) by {
            assert(b[i] == a[i]);
            if j < a.len() {
                assert(b[j] == a[j]);
            }
        }
    }
}

/// The board is run twice only once both players have opted in.
pub proof fn both_must_opt_in(t: TableState, u: TableState, seat: int, opt_in: bool, now: u32)
    requires
        choice_refusal(t, seat) is None,
        chosen(t, u, seat, opt_in, now),
    ensures
        u.rit_state matches Some(r) ==> r.active ==> opt_in && r.player1_opted_in
            && r.player2_opted_in && (opted_in(t).0 || opted_in(t).1),
{
}

proof fn lemma_undealt_order(dealt: Seq<u32>, n: nat)
    requires
        n <= 52,
    ensures
        forall|i: int, j: int|
            0 <= i < j < undealt(dealt, n).len() ==> (#[trigger] undealt(dealt, n)[i]) < (
            #[trigger] undealt(dealt, n)[j]),
        forall|c: u32| c < n && !dealt.contains(c) ==> #[trigger] undealt(dealt, n).contains(c),
    decreases n,
{
    if n > 0 {
        lemma_undealt_order(dealt, (n - 1) as nat);
        lemma_undealt(dealt, (n - 1) as nat);
        let a = undealt(dealt, (n - 1) as nat);
        let b = undealt(dealt, n);
        assert forall|i: int, j: int| 0 <= i < j < b.len() implies (#[trigger] b[i]) < (
        #[trigger] b[j]) by {
            assert(b[i] == a[i]);
            if j < a.len() {
                assert(b[j] == a[j]);
            } else {
                assert(a[i] < n - 1);
            }
        }
        assert forall|c: u32| c < n && !dealt.contains(c) implies #[trigger] b.contains(c) by {
            if c < n - 1 {
                let k = a.index_of(c);
                assert(a.contains(c));
                assert(b[k] == c);
            } else {
                assert(b[b.len() - 1] == c);
            }
        }
    }
}

/// The two boards share the cards that were dealt last, in their order. Behind those each board
/// goes through the positions that have not been dealt from the lowest up, leaving none out, and
/// the second board is five positions behind the first.
pub proof fn runs_share_the_board_so_far(dealt: Seq<u32>, shared: int, c: u32)
    requires
        0 <= shared <= 5,
        shared <= dealt.len(),
        undealt(dealt, 52).len() >= 10,
    ensures
        ({
            let a = board_of_run(dealt, shared, 0);
            let b = board_of_run(dealt, shared, 5);
            let free = undealt(dealt, 52);
            &&& a.len() == 5 && b.len() == 5
            &&& forall|i: int|
                0 <= i < shared ==> #[trigger] a[i] == dealt[dealt.len() - shared + i] && b[i]
                    == a[i]
            &&& forall|i: int| shared <= i < 5 ==> #[trigger] a[i] == free[i] && b[i] == free[i + 5]
            &&& forall|i: int, j: int|
                0 <= i < j < free.len() ==> (#[trigger] free[i]) < (#[trigger] free[j])
            &&& free.contains(c) <==> c < 52 && !dealt.contains(c)
        }),
{
    lemma_undealt_order(dealt, 52);
    lemma_undealt(dealt, 52);
    let free = undealt(dealt, 52);
    if free.contains(c) {
        let k = free.index_of(c);
        assert(free[k] == c);
    }
}

/// Running the board twice is offered by a player who is all in against one other, who is all in
/// too, with all others folded, while cards are to come, and once in a hand.
pub proof fn offers_are_heads_up(table: TableState, seat: int)
    requires
        offer_refusal(table, seat) is None,
        seats_in_order(table.players@),
        0 <= seat,
    ensures
        table.phase is DealingFlop || table.phase is DealingTurn || table.phase is DealingRiver,
        table.rit_state is None,
        seat < table.players@.len(),
        !table.players@[seat].folded && table.players@[seat].all_in,
        exists|other: int|
            {
                &&& 0 <= other < table.players@.len() && other != seat
                &&& !(#[trigger] table.players@[other]).folded && table.players@[other].all_in
            },
{
    let ps = table.players@;
    let seats = all_in_seats(ps);
    lemma_all_in_seats(ps);
    lemma_all_in_are(ps, 0);
    lemma_all_in_are(ps, 1);
    assert(seats[0] < seats[1]);
    let other = if seat == seats[0] {
        seats[1] as int
    } else {
        seats[0] as int
    };
    assert(!ps[other].folded && ps[other].all_in);
}

proof fn lemma_all_in_are(players: Seq<PlayerState>, i: int)
    requires
        seats_in_order(players),
    ensures
        0 <= i < all_in_seats(players).len() ==> {
            let s = all_in_seats(players)[i] as int;
            0 <= s < players.len() && !players[s].folded && players[s].all_in
        },
    decreases players.len(),
{
    if players.len() > 0 {
        let d = players.drop_last();
        assert forall|j: int| 0 <= j < d.len() implies (#[trigger] d[j]).seat_index == j by {
            assert(d[j] == players[j]);
        }
        lemma_all_in_are(d, i);
        let a = all_in_seats(d);
        if 0 <= i < a.len() {
            assert(all_in_seats(players)[i] == a[i]);
            assert(d[a[i] as int] == players[a[i] as int]);
        }
        assert(players[players.len() - 1].seat_index == players.len() - 1);
    }
}

/// A player who declines sends the hand on with one board: no run is laid down, and no chips move
/// whichever way the choice goes. A board of three cards goes on with the turn and one of four with
/// the river.
pub proof fn declining_plays_one_board(
    t: TableState,
    u: TableState,
    seat: int,
    opt_in: bool,
    now: u32,
)
    requires
        chosen(t, u, seat, opt_in, now),
    ensures
        u.players == t.players && u.pot == t.pot && u.board_cards == t.board_cards
            && u.dealt_indices == t.dealt_indices,
        !opt_in ==> {
            &&& u.rit_state == t.rit_state
            &&& t.board_cards@.len() == 0 ==> u.phase is DealingFlop
            &&& t.board_cards@.len() == 3 ==> u.phase is DealingTurn
            &&& t.board_cards@.len() == 4 ==> u.phase is DealingRiver
        },
        opt_in && u.phase != t.phase ==> {
            &&& t.board_cards@.len() == 0 ==> u.phase is DealingFlop
            &&& t.board_cards@.len() == 3 ==> u.phase is DealingTurn
            &&& t.board_cards@.len() == 4 ==> u.phase is DealingRiver
        },
{
}

/// The choice is open while the hand waits for it, to each of the two players who are all in, until
/// they have opted in or it is decided; and every such choice is taken.
pub proof fn choices_are_for_the_two(table: TableState, seat: int)
    requires
        all_in_seats(table.players@).len() == 2,
        seats_in_order(table.players@),
        0 <= seat < table.players@.len(),
    ensures
        ({
            let seats = all_in_seats(table.players@);
            &&& choice_refusal(table, seat) is None <==> {
                &&& table.phase is AwaitingRunItTwice
                &&& seat == seats[0] || seat == seats[1]
                &&& table.rit_state matches Some(r) ==> !r.active && (seat == seats[0]
                    ==> !r.player1_opted_in) && (seat == seats[1] ==> !r.player2_opted_in)
            }
            &&& offer_refusal(table, seat) is None <==> {
                &&& table.phase is DealingFlop || table.phase is DealingTurn
                    || table.phase is DealingRiver
                &&& table.rit_state is None
                &&& count_active(table.players@) == 2
                &&& seat == seats[0] || seat == seats[1]
            }
        }),
{
    lemma_all_in_seats(table.players@);
}

/// An offer waits for both players, none of whom has chosen, with the board as it is and no chips
/// moved. An opt-in is noted for the player who made it alone.
pub proof fn offers_and_choices_are_noted(
    t: TableState,
    u: TableState,
    v: TableState,
    seat: int,
    now: u32,
    later: u32,
)
    requires
        offered(t, u, now),
        all_in_seats(t.players@).len() == 2,
        seats_in_order(t.players@),
        seat == all_in_seats(t.players@)[0] || seat == all_in_seats(t.players@)[1],
        chosen(u, v, seat, true, later),
    ensures
        u.phase is AwaitingRunItTwice && u.players == t.players && u.pot == t.pot && u.board_cards
            == t.board_cards,
        u.rit_state is Some && !(u.rit_state->0).active && !(u.rit_state->0).player1_opted_in
            && !(u.rit_state->0).player2_opted_in,
        v.phase is AwaitingRunItTwice,
        v.rit_state is Some && !(v.rit_state->0).active,
        (v.rit_state->0).player1_opted_in <==> seat == all_in_seats(t.players@)[0],
        (v.rit_state->0).player2_opted_in <==> seat == all_in_seats(t.players@)[1],
{
    lemma_all_in_seats(t.players@);
}

/// A choice to run the board twice that cannot be taken is refused for a reason.
pub proof fn choices_are_refused_for_a_reason(
    table: TableState,
    seat: int,
)
    ensures
        ({
            let r = choice_refusal(table, seat);
            &&& r == Some(PokerTableError::NotInRitPhase) ==> !(table.phase is AwaitingRunItTwice)
            &&& r == Some(PokerTableError::PlayerNotAtTable) ==> seat >= table.players@.len()
            &&& r == Some(PokerTableError::RitAlreadyDecided) ==> table.rit_state is Some
            &&& r == Some(PokerTableError::NotHeadsUpAllIn)
                ==> table.phase is AwaitingRunItTwice && seat < table.players@.len()
        }),
{
}

} // verus!
