//! Setting up a table, and players who come, wait, rebuy and go.

use crate::host::{
    address_digest, address_eq, Address, Bytes32, Party, Transfer,
};
use crate::poker_table::game::{stack_of, MAX_RAKE_BPS};
use crate::poker_table::refunds::transfer_total;
use crate::poker_table::types::{
    AnteMode, BlindLevel, GamePhase, PlayerState, PokerTableError, QueueEntry, TableConfig,
    TableState,
};
use crate::seqs::sum_by;
use soroban_sdk::Env;
use vstd::prelude::*;

verus! {

/// The most players of any table.
pub const MAX_PLAYERS_PER_TABLE: u32 = 6;

/// The most players that can wait for a seat.
pub const MAX_QUEUE_SIZE: u32 = 12;

/// Whether a level of a schedule is valid. Every level but the last must come to an end.
pub open spec fn level_valid(level: BlindLevel, is_last: bool) -> bool {
    &&& level.small_blind > 0
    &&& level.big_blind > level.small_blind
    &&& level.ante matches AnteMode::Fixed(x) ==> x >= 0
    &&& is_last || level.duration_seconds > 0
}

/// Whether all levels of a schedule are valid.
pub open spec fn levels_valid(levels: Seq<BlindLevel>) -> bool {
    forall|i: int|
        0 <= i < levels.len() ==> level_valid(#[trigger] levels[i], i == levels.len() - 1)
}

/// Why a schedule is refused, if it is.
pub open spec fn schedule_refusal(levels: Seq<BlindLevel>) -> Option<PokerTableError> {
    if levels.len() == 0 {
        Some(PokerTableError::EmptyBlindsSchedule)
    } else if !levels_valid(levels) {
        Some(PokerTableError::InvalidBlindLevel)
    } else {
        None
    }
}

/// Why a table cannot be set up, if it cannot.
pub open spec fn config_refusal(config: TableConfig) -> Option<PokerTableError> {
    if config.rake_bps > MAX_RAKE_BPS {
        Some(PokerTableError::RakeBpsExceedsMax)
    } else if config.min_players < 2 || config.max_players < config.min_players
        || config.max_players > MAX_PLAYERS_PER_TABLE {
        Some(PokerTableError::InvalidPlayerCount)
    } else {
        schedule_refusal(config.blinds_schedule.levels@)
    }
}

/// Refuses a schedule that is empty or has an invalid level.
pub fn validate_blinds_schedule(levels: &Vec<BlindLevel>) -> (r: Result<(), PokerTableError>)
    ensures
        r == (match schedule_refusal(levels@) {
            Some(e) => Err::<(), _>(e),
            None => Ok(()),
        }),
{
    let n: usize = levels.len();
    if n == 0 {
        return Err(PokerTableError::EmptyBlindsSchedule);
    }
    let mut i: usize = 0;
    while i < n
        invariant
            i <= n,
            n == levels@.len(),
            n > 0,
            forall|j: int| 0 <= j < i ==> level_valid(#[trigger] levels@[j], j == n - 1),
        decreases n - i,
    {
        let level = levels[i];
        let bad_ante: bool = match level.ante {
            AnteMode::Fixed(x) => x < 0,
            _ => false,
        };
        if level.small_blind <= 0 || level.big_blind <= level.small_blind || bad_ante {
            assert(!level_valid(levels@[i as int], i == n - 1));
            return Err(PokerTableError::InvalidBlindLevel);
        }
        if i + 1 < n && level.duration_seconds == 0 {
            assert(!level_valid(levels@[i as int], i == n - 1));
            return Err(PokerTableError::InvalidBlindLevel);
        }
        i += 1;
    }
    Ok(())
}

/// Refuses a configuration that a table cannot have.
pub fn validate_config(config: &TableConfig) -> (r: Result<(), PokerTableError>)
    ensures
        r == (match config_refusal(*config) {
            Some(e) => Err::<(), _>(e),
            None => Ok(()),
        }),
{
    if config.rake_bps > MAX_RAKE_BPS {
        return Err(PokerTableError::RakeBpsExceedsMax);
    }
    if config.min_players < 2 || config.max_players < config.min_players || config.max_players
        > MAX_PLAYERS_PER_TABLE {
        return Err(PokerTableError::InvalidPlayerCount);
    }
    validate_blinds_schedule(&config.blinds_schedule.levels)
}

/// A new table without players.
pub open spec fn is_new_table(
    t: TableState,
    id: u32,
    admin: Address,
    config: TableConfig,
    now: u32,
    timestamp: u64,
) -> bool {
    &&& t.players@.len() == 0
    &&& t.side_pots@.len() == 0
    &&& t.hand_commitments@.len() == 0
    &&& t.board_cards@.len() == 0
    &&& t.dealt_indices@.len() == 0
    &&& t.hand_actions@.len() == 0
    &&& t == (TableState {
        id,
        admin,
        config,
        phase: GamePhase::Waiting,
        players: t.players,
        dealer_seat: 0,
        current_turn: 0,
        pot: 0,
        side_pots: t.side_pots,
        deck_root: Bytes32 { w0: 0, w1: 0, w2: 0, w3: 0 },
        hand_commitments: t.hand_commitments,
        board_cards: t.board_cards,
        dealt_indices: t.dealt_indices,
        hand_number: 0,
        last_action_ledger: now,
        committee: config.committee,
        session_id: 0,
        rake_balance: 0,
        jackpot_balance: 0,
        action_deadline: 0,
        hand_actions: t.hand_actions,
        rit_state: None,
        last_raise_size: config.blinds_schedule.levels@[0].big_blind,
        current_blind_level: 0,
        level_started_at: timestamp,
        break_ends_at: 0,
        settlement_entered_ledger: 0,
    })
}

/// Sets up a table at ledger `now` and time `timestamp`.
pub fn new_table(id: u32, admin: Address, config: TableConfig, now: u32, timestamp: u64) -> (r:
    TableState)
    requires
        config.blinds_schedule.levels@.len() > 0,
    ensures
        is_new_table(r, id, admin, config, now, timestamp),
{
    let committee = config.committee;
    let last_raise_size: i128 = config.blinds_schedule.levels[0].big_blind;
    TableState {
        id,
        admin,
        config,
        phase: GamePhase::Waiting,
        players: Vec::new(),
        dealer_seat: 0,
        current_turn: 0,
        pot: 0,
        side_pots: Vec::new(),
        deck_root: Bytes32::splat(0),
        hand_commitments: Vec::new(),
        board_cards: Vec::new(),
        dealt_indices: Vec::new(),
        hand_number: 0,
        last_action_ledger: now,
        committee,
        session_id: 0,
        rake_balance: 0,
        jackpot_balance: 0,
        action_deadline: 0,
        hand_actions: Vec::new(),
        rit_state: None,
        last_raise_size,
        current_blind_level: 0,
        level_started_at: timestamp,
        break_ends_at: 0,
        settlement_entered_ledger: 0,
    }
}

/// A player who has just sat down.
pub open spec fn seated(player: Address, buy_in: i128, seat: u32) -> PlayerState {
    PlayerState {
        address: player,
        stack: buy_in,
        bet_this_round: 0,
        committed: 0,
        folded: false,
        all_in: false,
        sitting_out: false,
        seat_index: seat,
        total_buy_in: buy_in,
        rebuy_count: 0,
    }
}

/// Seats a player at the next seat.
pub fn sit_down(table: &mut TableState, player: Address, buy_in: i128) -> (r: u32)
    requires
        old(table).players@.len() < u32::MAX,
    ensures
        r == old(table).players@.len(),
        final(table).players@ == old(table).players@.push(seated(player, buy_in, r)),
        *final(table) == (TableState { players: final(table).players, ..*old(table) }),
{
    let seat: u32 = table.players.len() as u32;
    table.players.push(
        PlayerState {
            address: player,
            stack: buy_in,
            bet_this_round: 0,
            committed: 0,
            folded: false,
            all_in: false,
            sitting_out: false,
            seat_index: seat,
            total_buy_in: buy_in,
            rebuy_count: 0,
        },
    );
    seat
}

/// Which players have the digest of `a`.
pub open spec fn matches_of(players: Seq<PlayerState>, a: Address) -> Seq<bool> {
    Seq::new(
        players.len(),
        |i: int| address_digest(players[i].address) == address_digest(a),
    )
}

/// Which entries of a queue have the digest of `a`.
pub open spec fn queue_matches(queue: Seq<QueueEntry>, a: Address) -> Seq<bool> {
    Seq::new(queue.len(), |i: int| address_digest(queue[i].player) == address_digest(a))
}

/// The first mark, or the number of marks.
pub open spec fn first_mark(marks: Seq<bool>) -> int
    decreases marks.len(),
{
    if marks.len() == 0 {
        0
    } else {
        let k = first_mark(marks.drop_last());
        if k < marks.len() - 1 {
            k
        } else if marks.last() {
            marks.len() - 1
        } else {
            marks.len() as int
        }
    }
}

/// Finds which players have the digest of `a`.
pub fn find_matches(env: &Env, players: &Vec<PlayerState>, a: &Address) -> (r: Vec<bool>)
    ensures
        r@ == matches_of(players@, *a),
{
    let ghost all = matches_of(players@, *a);
    let mut out: Vec<bool> = Vec::new();
    let mut i: usize = 0;
    while i < players.len()
        invariant
            i <= players@.len(),
            all == matches_of(players@, *a),
            out@ == all.take(i as int),
        decreases players@.len() - i,
    {
        let m: bool = address_eq(env, &players[i].address, a);
        out.push(m);
        assert(all.take(i + 1) =~= all.take(i as int).push(all[i as int]));
        i += 1;
    }
    assert(out@ =~= all);
    out
}

/// Finds which entries of a queue have the digest of `a`.
pub fn find_queue_matches(env: &Env, queue: &Vec<QueueEntry>, a: &Address) -> (r: Vec<bool>)
    ensures
        r@ == queue_matches(queue@, *a),
{
    let ghost all = queue_matches(queue@, *a);
    let mut out: Vec<bool> = Vec::new();
    let mut i: usize = 0;
    while i < queue.len()
        invariant
            i <= queue@.len(),
            all == queue_matches(queue@, *a),
            out@ == all.take(i as int),
        decreases queue@.len() - i,
    {
        let m: bool = address_eq(env, &queue[i].player, a);
        out.push(m);
        assert(all.take(i + 1) =~= all.take(i as int).push(all[i as int]));
        i += 1;
    }
    assert(out@ =~= all);
    out
}

/// The first mark, or the number of marks.
pub fn first_marked(marks: &Vec<bool>) -> (r: usize)
    ensures
        r == first_mark(marks@),
        r <= marks@.len(),
        r < marks@.len() <==> marks@.contains(true),
        r < marks@.len() ==> marks@[r as int],
{
    proof {
        lemma_first_mark(marks@);
    }
    let mut i: usize = 0;
    while i < marks.len()
        invariant
            i <= marks@.len(),
            forall|j: int| 0 <= j < i ==> !#[trigger] marks@[j],
            0 <= first_mark(marks@) <= marks@.len(),
            forall|j: int| 0 <= j < first_mark(marks@) ==> !#[trigger] marks@[j],
            first_mark(marks@) < marks@.len() ==> marks@[first_mark(marks@)],
        decreases marks@.len() - i,
    {
        if marks[i] {
            assert(marks@.contains(true));
            return i;
        }
        i += 1;
    }
    assert(!marks@.contains(true));
    i
}

proof fn lemma_first_mark(marks: Seq<bool>)
    ensures
        0 <= first_mark(marks) <= marks.len(),
        forall|j: int| 0 <= j < first_mark(marks) ==> !#[trigger] marks[j],
        first_mark(marks) < marks.len() ==> marks[first_mark(marks)],
    decreases marks.len(),
{
    if marks.len() > 0 {
        let d = marks.drop_last();
        lemma_first_mark(d);
        let k = first_mark(marks);
        assert forall|j: int| 0 <= j < k implies !#[trigger] marks[j] by {
            if j < d.len() {
                assert(d[j] == marks[j]);
            }
        }
        if k < d.len() {
            assert(d[k] == marks[k]);
        }
    }
}

/// The players without those that are marked, with their seats numbered anew.
pub open spec fn without_marked(players: Seq<PlayerState>, marks: Seq<bool>) -> Seq<PlayerState>
    decreases players.len(),
{
    if players.len() == 0 {
        Seq::empty()
    } else {
        let rest = without_marked(players.drop_last(), marks.drop_last());
        if marks.last() {
            rest
        } else {
            rest.push(PlayerState { seat_index: rest.len() as u32, ..players.last() })
        }
    }
}

/// What the last of those that are marked takes along.
pub open spec fn marked_stack(players: Seq<PlayerState>, marks: Seq<bool>) -> i128
    decreases players.len(),
{
    if players.len() == 0 {
        0
    } else if marks.last() {
        players.last().stack
    } else {
        marked_stack(players.drop_last(), marks.drop_last())
    }
}

/// The transfers that pay out those that are marked.
pub open spec fn marked_transfers(
    token: Address,
    player: Address,
    players: Seq<PlayerState>,
    marks: Seq<bool>,
) -> Seq<Transfer>
    decreases players.len(),
{
    if players.len() == 0 {
        Seq::empty()
    } else {
        let rest = marked_transfers(token, player, players.drop_last(), marks.drop_last());
        if marks.last() && players.last().stack > 0 {
            rest.push(
                Transfer {
                    token,
                    from: Party::This,
                    to: Party::Wallet(player),
                    amount: players.last().stack,
                },
            )
        } else {
            rest
        }
    }
}

/// A place at the table after it has shrunk to `n` players.
pub open spec fn wrapped(x: u32, n: int) -> u32 {
    if n == 0 {
        0
    } else {
        (x as int % n) as u32
    }
}

/// Takes the marked players off the table, and keeps the button and the turn on it.
pub fn stand_up(table: &mut TableState, player: Address, marks: &Vec<bool>) -> (r: (
    i128,
    Vec<Transfer>,
))
    requires
        marks@.len() == old(table).players@.len(),
        old(table).players@.len() <= u32::MAX,
    ensures
        r.0 == marked_stack(old(table).players@, marks@),
        r.1@ == marked_transfers(
            old(table).config.token,
            player,
            old(table).players@,
            marks@,
        ),
        ({
            let ps = without_marked(old(table).players@, marks@);
            &&& final(table).players@ == ps
            &&& *final(table) == (TableState {
                players: final(table).players,
                dealer_seat: wrapped(old(table).dealer_seat, ps.len() as int),
                current_turn: wrapped(old(table).current_turn, ps.len() as int),
                ..*old(table)
            })
        }),
{
    let ghost ps = table.players@;
    let ghost ms = marks@;
    let token: Address = table.config.token;
    let mut withdrawn: i128 = 0;
    let mut transfers: Vec<Transfer> = Vec::new();
    let mut kept: Vec<PlayerState> = Vec::new();
    let mut i: usize = 0;
    while i < table.players.len()
        invariant
            i <= ps.len(),
            ps == table.players@,
            ms == marks@,
            ps.len() == ms.len(),
            ps.len() <= u32::MAX,
            *table == *old(table),
            token == table.config.token,
            kept@ == without_marked(ps.take(i as int), ms.take(i as int)),
            kept@.len() <= i,
            withdrawn == marked_stack(ps.take(i as int), ms.take(i as int)),
            transfers@ == marked_transfers(token, player, ps.take(i as int), ms.take(i as int)),
        decreases ps.len() - i,
    {
        assert(ps.take(i + 1).drop_last() =~= ps.take(i as int));
        assert(ms.take(i + 1).drop_last() =~= ms.take(i as int));
        assert(ms.take(i + 1).last() == ms[i as int]);
        assert(ps.take(i + 1).last() == ps[i as int]);
        let p = table.players[i];
        if marks[i] {
            withdrawn = p.stack;
            if p.stack > 0 {
                transfers.push(
                    Transfer {
                        token,
                        from: Party::This,
                        to: Party::Wallet(player),
                        amount: p.stack,
                    },
                );
            }
        } else {
            let seat: u32 = kept.len() as u32;
            kept.push(
                PlayerState {
                    address: p.address,
                    stack: p.stack,
                    bet_this_round: p.bet_this_round,
                    committed: p.committed,
                    folded: p.folded,
                    all_in: p.all_in,
                    sitting_out: p.sitting_out,
                    seat_index: seat,
                    total_buy_in: p.total_buy_in,
                    rebuy_count: p.rebuy_count,
                },
            );
        }
        i += 1;
    }
    assert(ps.take(i as int) =~= ps);
    assert(ms.take(i as int) =~= ms);
    let n: u32 = kept.len() as u32;
    table.players = kept;
    if n == 0 {
        table.dealer_seat = 0;
        table.current_turn = 0;
    } else {
        table.dealer_seat = table.dealer_seat % n;
        table.current_turn = table.current_turn % n;
    }
    (withdrawn, transfers)
}

/// Every player sits where their seat number says.
pub open spec fn seats_numbered(players: Seq<PlayerState>) -> bool {
    forall|i: int| 0 <= i < players.len() ==> (#[trigger] players[i]).seat_index == i
}

/// Seats stay numbered in order when someone sits down and when someone leaves.
pub proof fn seats_stay_numbered(
    players: Seq<PlayerState>,
    marks: Seq<bool>,
    player: Address,
    buy_in: i128,
)
    requires
        seats_numbered(players),
        marks.len() == players.len(),
        players.len() < u32::MAX,
    ensures
        seats_numbered(players.push(seated(player, buy_in, players.len() as u32))),
        seats_numbered(without_marked(players, marks)),
{
    lemma_renumbered(players, marks);
}

/// Those who stay are numbered in order, and are no more than before.
pub proof fn lemma_renumbered(players: Seq<PlayerState>, marks: Seq<bool>)
    requires
        marks.len() == players.len(),
        players.len() < u32::MAX,
    ensures
        seats_numbered(without_marked(players, marks)),
        without_marked(players, marks).len() <= players.len(),
    decreases players.len(),
{
    if players.len() > 0 {
        lemma_renumbered(players.drop_last(), marks.drop_last());
    }
}

/// What the players who leave are paid is what their stacks held, and nobody who stays has their
/// stack changed.
pub proof fn leaving_conserves_chips(
    token: Address,
    player: Address,
    players: Seq<PlayerState>,
    marks: Seq<bool>,
)
    requires
        marks.len() == players.len(),
        forall|i: int| 0 <= i < players.len() ==> (#[trigger] players[i]).stack >= 0,
    ensures
        sum_by(players, stack_of()) == sum_by(without_marked(players, marks), stack_of())
            + transfer_total(marked_transfers(token, player, players, marks)),
    decreases players.len(),
{
    if players.len() > 0 {
        let d = players.drop_last();
        let m = marks.drop_last();
        assert forall|i: int| 0 <= i < d.len() implies (#[trigger] d[i]).stack >= 0 by {
            assert(d[i] == players[i]);
        }
        leaving_conserves_chips(token, player, d, m);
        assert(players[players.len() - 1].stack >= 0);
        let rest = without_marked(d, m);
        if marks.last() {
            let ts = marked_transfers(token, player, d, m);
            let t = Transfer {
                token,
                from: Party::This,
                to: Party::Wallet(player),
                amount: players.last().stack,
            };
            assert(ts.push(t).drop_last() =~= ts);
        } else {
            let p = PlayerState { seat_index: rest.len() as u32, ..players.last() };
            assert(rest.push(p).drop_last() =~= rest);
        }
    }
}

/// The queue without the entries that are marked.
pub open spec fn queue_without(queue: Seq<QueueEntry>, marks: Seq<bool>) -> Seq<QueueEntry>
    decreases queue.len(),
{
    if queue.len() == 0 {
        Seq::empty()
    } else {
        let rest = queue_without(queue.drop_last(), marks.drop_last());
        if marks.last() {
            rest
        } else {
            rest.push(queue.last())
        }
    }
}

/// What the last of the marked entries is refunded.
pub open spec fn marked_buy_in(queue: Seq<QueueEntry>, marks: Seq<bool>) -> i128
    decreases queue.len(),
{
    if queue.len() == 0 {
        0
    } else if marks.last() {
        queue.last().buy_in
    } else {
        marked_buy_in(queue.drop_last(), marks.drop_last())
    }
}

/// The queue without the entries that are marked, and the refund of the last of them.
pub fn step_out(queue: &Vec<QueueEntry>, marks: &Vec<bool>) -> (r: (Vec<QueueEntry>, i128))
    requires
        queue@.len() == marks@.len(),
    ensures
        r.0@ == queue_without(queue@, marks@),
        r.1 == marked_buy_in(queue@, marks@),
{
    let ghost qs = queue@;
    let ghost ms = marks@;
    let mut out: Vec<QueueEntry> = Vec::new();
    let mut refund: i128 = 0;
    let mut i: usize = 0;
    while i < queue.len()
        invariant
            i <= qs.len(),
            qs == queue@,
            ms == marks@,
            qs.len() == ms.len(),
            out@ == queue_without(qs.take(i as int), ms.take(i as int)),
            refund == marked_buy_in(qs.take(i as int), ms.take(i as int)),
        decreases qs.len() - i,
    {
        assert(qs.take(i + 1).drop_last() =~= qs.take(i as int));
        assert(ms.take(i + 1).drop_last() =~= ms.take(i as int));
        assert(ms.take(i + 1).last() == ms[i as int]);
        assert(qs.take(i + 1).last() == qs[i as int]);
        if marks[i] {
            refund = queue[i].buy_in;
        } else {
            out.push(queue[i]);
        }
        i += 1;
    }
    assert(qs.take(i as int) =~= qs);
    assert(ms.take(i as int) =~= ms);
    (out, refund)
}

/// Why the player at `seat` cannot rebuy, if they cannot.
pub open spec fn rebuy_refusal(table: TableState, seat: int, amount: i128) -> Option<PokerTableError> {
    let p = table.players@[seat];
    if !table.phase.between_hands() {
        Some(PokerTableError::CannotRebuyDuringActiveHand)
    } else if !(0 <= seat < table.players@.len()) {
        Some(PokerTableError::PlayerNotAtTable)
    } else if table.config.max_rebuys > 0 && p.rebuy_count >= table.config.max_rebuys {
        Some(PokerTableError::RebuyLimitReached)
    } else if amount <= 0 || amount > table.config.max_buy_in || p.stack + amount
        > table.config.max_buy_in || p.stack + amount < table.config.min_buy_in {
        Some(PokerTableError::InvalidRebuyAmount)
    } else {
        None
    }
}

/// A player after a rebuy.
pub open spec fn rebought(p: PlayerState, amount: i128) -> PlayerState {
    PlayerState {
        stack: (p.stack + amount) as i128,
        total_buy_in: (p.total_buy_in + amount) as i128,
        rebuy_count: (p.rebuy_count + 1) as u32,
        ..p
    }
}

/// Tops up the stack of the player at `seat`, and returns it. A seat number past the last one
/// stands for a player who is not at the table.
pub fn top_up(table: &mut TableState, seat: usize, amount: i128) -> (r: Result<i128, PokerTableError>)
    requires
        seat < old(table).players@.len() && old(table).phase.between_hands() ==> {
            let p = old(table).players@[seat as int];
            &&& i128::MIN <= p.stack + amount <= i128::MAX
            &&& rebuy_refusal(*old(table), seat as int, amount) is None ==> p.total_buy_in + amount
                <= i128::MAX && p.rebuy_count < u32::MAX
        },
    ensures
        match rebuy_refusal(*old(table), seat as int, amount) {
            Some(e) => r == Err::<i128, _>(e) && *final(table) == *old(table),
            None => {
                let p = rebought(old(table).players@[seat as int], amount);
                &&& r == Ok::<_, PokerTableError>(p.stack)
                &&& final(table).players@ == old(table).players@.update(seat as int, p)
                &&& *final(table) == (TableState { players: final(table).players, ..*old(table) })
            },
        },
{
    if !table.phase.is_between_hands() {
        return Err(PokerTableError::CannotRebuyDuringActiveHand);
    }
    if seat >= table.players.len() {
        return Err(PokerTableError::PlayerNotAtTable);
    }
    let p = table.players[seat];
    if table.config.max_rebuys > 0 && p.rebuy_count >= table.config.max_rebuys {
        return Err(PokerTableError::RebuyLimitReached);
    }
    let new_stack: i128 = p.stack + amount;
    if amount <= 0 || amount > table.config.max_buy_in || new_stack > table.config.max_buy_in
        || new_stack < table.config.min_buy_in {
        return Err(PokerTableError::InvalidRebuyAmount);
    }
    let next = PlayerState {
        address: p.address,
        stack: new_stack,
        bet_this_round: p.bet_this_round,
        committed: p.committed,
        folded: p.folded,
        all_in: p.all_in,
        sitting_out: p.sitting_out,
        seat_index: p.seat_index,
        total_buy_in: p.total_buy_in + amount,
        rebuy_count: p.rebuy_count + 1,
    };
    table.players.set(seat, next);
    Ok(new_stack)
}

/// A rebuy leaves a stack within the limits of the table.
pub proof fn rebuy_stays_in_band(table: TableState, seat: int, amount: i128)
    requires
        rebuy_refusal(table, seat, amount) is None,
        table.players@[seat].stack + amount <= i128::MAX,
    ensures
        table.config.min_buy_in <= rebought(table.players@[seat], amount).stack
            <= table.config.max_buy_in,
{
}

/// A table can be set up with a rake of five percent at most, two to six players, and blinds that
/// are positive, the big one above the small one, with a duration for every level but the last; and
/// every such table can.
pub proof fn sound_tables_can_be_set_up(config: TableConfig)
    ensures
        config_refusal(config) is None <==> {
            let levels = config.blinds_schedule.levels@;
            &&& config.rake_bps <= 500
            &&& 2 <= config.min_players <= config.max_players <= 6
            &&& levels.len() > 0
            &&& forall|i: int|
                0 <= i < levels.len() ==> {
                    let l = #[trigger] levels[i];
                    &&& 0 < l.small_blind < l.big_blind
                    &&& l.ante matches AnteMode::Fixed(x) ==> x >= 0
                    &&& l.duration_seconds > 0 || i == levels.len() - 1
                }
        },
{
    let levels = config.blinds_schedule.levels@;
    if levels_valid(levels) {
        assert forall|i: int| 0 <= i < levels.len() implies {
            let l = #[trigger] levels[i];
            &&& 0 < l.small_blind < l.big_blind
            &&& l.ante matches AnteMode::Fixed(x) ==> x >= 0
            &&& l.duration_seconds > 0 || i == levels.len() - 1
        } by {
            assert(level_valid(levels[i], i == levels.len() - 1));
        }
    }
}

/// A new table has nobody and nothing on it, waits at the first blind level, and belongs to its
/// administrator and committee.
pub proof fn new_tables_are_empty(
    t: TableState,
    id: u32,
    admin: Address,
    config: TableConfig,
    now: u32,
    timestamp: u64,
)
    requires
        is_new_table(t, id, admin, config, now, timestamp),
    ensures
        t.id == id && t.admin == admin && t.config == config && t.committee == config.committee,
        t.players@.len() == 0 && t.pot == 0 && t.rake_balance == 0 && t.jackpot_balance == 0,
        t.phase is Waiting,
        t.hand_number == 0 && t.current_blind_level == 0,
        t.level_started_at == timestamp,
        t.last_action_ledger == now,
{
}

/// A newcomer has their buy-in in front of them and nothing in the pot, and is in play.
pub proof fn newcomers_have_their_buy_in(player: Address, buy_in: i128, seat: u32)
    ensures
        ({
            let p = seated(player, buy_in, seat);
            &&& p.address == player && p.seat_index == seat
            &&& p.stack == buy_in && p.total_buy_in == buy_in
            &&& p.committed == 0 && p.bet_this_round == 0 && p.rebuy_count == 0
            &&& !p.folded && !p.all_in && !p.sitting_out
        }),
{
}

proof fn lemma_nobody_marked(
    token: Address,
    player: Address,
    players: Seq<PlayerState>,
    marks: Seq<bool>,
)
    requires
        marks.len() == players.len() <= u32::MAX,
        forall|j: int| 0 <= j < marks.len() ==> !#[trigger] marks[j],
    ensures
        without_marked(players, marks).len() == players.len(),
        forall|i: int|
            0 <= i < players.len() ==> #[trigger] without_marked(players, marks)[i] == (
            PlayerState { seat_index: i as u32, ..players[i] }),
        marked_stack(players, marks) == 0,
        marked_transfers(token, player, players, marks).len() == 0,
    decreases players.len(),
{
    if players.len() > 0 {
        let (d, m) = (players.drop_last(), marks.drop_last());
        assert forall|j: int| 0 <= j < m.len() implies !#[trigger] m[j] by {
            assert(m[j] == marks[j]);
        }
        lemma_nobody_marked(token, player, d, m);
        assert(!marks[marks.len() - 1]);
        let r = without_marked(players, marks);
        assert forall|i: int| 0 <= i < players.len() implies #[trigger] r[i] == (PlayerState {
            seat_index: i as u32,
            ..players[i]
        }) by {
            if i < d.len() {
                assert(without_marked(d, m)[i] == (PlayerState { seat_index: i as u32, ..d[i] }));
            }
        }
    }
}

/// A player who leaves takes their stack, in one transfer to them, and nothing else. The others move
/// up in their order, with all that is theirs.
pub proof fn leaving_takes_the_own_stack(
    token: Address,
    player: Address,
    players: Seq<PlayerState>,
    marks: Seq<bool>,
    k: int,
)
    requires
        marks.len() == players.len() <= u32::MAX,
        0 <= k < players.len(),
        forall|j: int| 0 <= j < marks.len() ==> (#[trigger] marks[j] <==> j == k),
    ensures
        without_marked(players, marks).len() == players.len() - 1,
        forall|i: int|
            0 <= i < players.len() - 1 ==> #[trigger] without_marked(players, marks)[i] == (
            PlayerState {
                seat_index: i as u32,
                ..players[if i < k {
                    i
                } else {
                    i + 1
                }]
            }),
        marked_stack(players, marks) == players[k].stack,
        ({
            let ts = marked_transfers(token, player, players, marks);
            &&& players[k].stack <= 0 ==> ts.len() == 0
            &&& players[k].stack > 0 ==> ts.len() == 1 && ts[0].amount == players[k].stack
                && ts[0].to == Party::Wallet(player) && ts[0].from == Party::This && ts[0].token
                == token
        }),
    decreases players.len(),
{
    let (d, m) = (players.drop_last(), marks.drop_last());
    let last = players.len() - 1;
    let r = without_marked(players, marks);
    if k == last {
        assert forall|j: int| 0 <= j < m.len() implies !#[trigger] m[j] by {
            assert(m[j] == marks[j]);
        }
        lemma_nobody_marked(token, player, d, m);
        assert(marks[last]);
        assert(r == without_marked(d, m));
        assert forall|i: int| 0 <= i < last implies #[trigger] r[i] == (PlayerState {
            seat_index: i as u32,
            ..players[i]
        }) by {
            assert(d[i] == players[i]);
        }
    } else {
        assert forall|j: int| 0 <= j < m.len() implies (#[trigger] m[j] <==> j == k) by {
            assert(m[j] == marks[j]);
        }
        leaving_takes_the_own_stack(token, player, d, m, k);
        assert(d[k] == players[k]);
        assert(!marks[last]);
        let e = without_marked(d, m);
        assert forall|i: int| 0 <= i < last implies #[trigger] r[i] == (PlayerState {
            seat_index: i as u32,
            ..players[if i < k {
                i
            } else {
                i + 1
            }]
        }) by {
            if i < last - 1 {
                assert(r[i] == e[i]);
                let x = if i < k {
                    i
                } else {
                    i + 1
                };
                assert(d[x] == players[x]);
            }
        }
    }
}

proof fn lemma_nobody_steps_out(queue: Seq<QueueEntry>, marks: Seq<bool>)
    requires
        marks.len() == queue.len(),
        forall|j: int| 0 <= j < marks.len() ==> !#[trigger] marks[j],
    ensures
        queue_without(queue, marks) == queue,
        marked_buy_in(queue, marks) == 0,
    decreases queue.len(),
{
    if queue.len() > 0 {
        let (d, m) = (queue.drop_last(), marks.drop_last());
        assert forall|j: int| 0 <= j < m.len() implies !#[trigger] m[j] by {
            assert(m[j] == marks[j]);
        }
        lemma_nobody_steps_out(d, m);
        assert(!marks[marks.len() - 1]);
        assert(d.push(queue.last()) =~= queue);
    }
}

/// Someone who leaves the queue is out of it and gets their own buy-in back; the others keep their
/// order.
pub proof fn stepping_out_returns_the_buy_in(queue: Seq<QueueEntry>, marks: Seq<bool>, k: int)
    requires
        marks.len() == queue.len(),
        0 <= k < queue.len(),
        forall|j: int| 0 <= j < marks.len() ==> (#[trigger] marks[j] <==> j == k),
    ensures
        queue_without(queue, marks) == queue.remove(k),
        marked_buy_in(queue, marks) == queue[k].buy_in,
    decreases queue.len(),
{
    let (d, m) = (queue.drop_last(), marks.drop_last());
    let last = queue.len() - 1;
    if k == last {
        assert forall|j: int| 0 <= j < m.len() implies !#[trigger] m[j] by {
            assert(m[j] == marks[j]);
        }
        lemma_nobody_steps_out(d, m);
        assert(marks[last]);
        assert(d =~= queue.remove(k));
    } else {
        assert forall|j: int| 0 <= j < m.len() implies (#[trigger] m[j] <==> j == k) by {
            assert(m[j] == marks[j]);
        }
        stepping_out_returns_the_buy_in(d, m, k);
        assert(d[k] == queue[k]);
        assert(!marks[last]);
        assert(d.remove(k).push(queue[last]) =~= queue.remove(k));
    }
}

/// A player can buy in again between hands, as often as the table allows, for a positive amount that
/// leaves the stack between the least and the most buy-in; and every such request is granted. The
/// amount goes on the stack and on what was bought in altogether, and nothing else changes.
pub proof fn rebuys_are_within_the_limits(table: TableState, seat: int, amount: i128)
    requires
        0 <= seat < table.players@.len(),
        table.players@[seat].stack >= 0,
    ensures
        ({
            let p = table.players@[seat];
            &&& rebuy_refusal(table, seat, amount) is None <==> {
                &&& table.phase is Waiting || table.phase is Settlement
                &&& table.config.max_rebuys == 0 || p.rebuy_count < table.config.max_rebuys
                &&& amount > 0
                &&& table.config.min_buy_in <= p.stack + amount <= table.config.max_buy_in
            }
            &&& rebuy_refusal(table, seat, amount) is None && p.total_buy_in + amount <= i128::MAX
                && p.rebuy_count < u32::MAX ==> {
                let q = rebought(p, amount);
                &&& q.stack == p.stack + amount
                &&& q.total_buy_in == p.total_buy_in + amount
                &&& q.rebuy_count == p.rebuy_count + 1
                &&& q.committed == p.committed && q.folded == p.folded && q.address == p.address
                    && q.seat_index == p.seat_index
            }
        }),
{
}

/// A player is found by the digest of their address, at the first place that has it.
pub proof fn places_are_found_by_digest(players: Seq<PlayerState>, a: Address)
    ensures
        ({
            let marks = matches_of(players, a);
            let k = first_mark(marks);
            &&& 0 <= k <= players.len()
            &&& k < players.len() ==> address_digest(players[k].address) == address_digest(a)
            &&& forall|j: int|
                0 <= j < k && j < players.len() ==> address_digest((#[trigger] players[j]).address)
                    != address_digest(a)
        }),
{
    let marks = matches_of(players, a);
    lemma_first_mark_is_first(marks);
    let k = first_mark(marks);
    if k < players.len() {
        assert(marks[k]);
    }
    assert forall|j: int| 0 <= j < k && j < players.len() implies address_digest(
        (#[trigger] players[j]).address,
    ) != address_digest(a) by {
        assert(!marks[j]);
    }
}

proof fn lemma_first_mark_is_first(marks: Seq<bool>)
    ensures
        0 <= first_mark(marks) <= marks.len(),
        first_mark(marks) < marks.len() ==> marks[first_mark(marks)],
        forall|j: int| 0 <= j < first_mark(marks) ==> !#[trigger] marks[j],
    decreases marks.len(),
{
    if marks.len() > 0 {
        let d = marks.drop_last();
        lemma_first_mark_is_first(d);
        let k = first_mark(marks);
        if k < d.len() {
            assert(d[k] == marks[k]);
        }
        assert forall|j: int| 0 <= j < k implies !#[trigger] marks[j] by {
            if j < d.len() {
                assert(d[j] == marks[j]);
            }
        }
    }
}

/// A seat number that still has a seat stays, and one that is left over goes round to the front.
pub proof fn seat_numbers_go_round(x: u32, n: int)
    requires
        0 <= n,
    ensures
        x < n ==> wrapped(x, n) == x,
        x == n && n > 0 ==> wrapped(x, n) == 0,
        n > 0 ==> wrapped(x, n) < n,
        n == 0 ==> wrapped(x, n) == 0,
{
    if n > 0 {
        let r = x as int % n;
        assert(0 <= r < n && (x < n ==> r == x) && (x == n ==> r == 0)) by (nonlinear_arith)
            requires
                n > 0,
                r == x as int % n,
                x >= 0,
        ;
    }
}

/// A rebuy that cannot be taken is refused for a reason.
pub proof fn rebuys_are_refused_for_a_reason(
    table: TableState,
    seat: int,
    amount: i128,
)
    requires
        0 <= seat < table.players@.len(),
    ensures
        ({
            let r = rebuy_refusal(table, seat, amount);
            let p = table.players@[seat];
            &&& r == Some(PokerTableError::CannotRebuyDuringActiveHand)
                ==> !(table.phase is Waiting || table.phase is Settlement)
            &&& r == Some(PokerTableError::RebuyLimitReached)
                ==> 0 < table.config.max_rebuys <= p.rebuy_count
            &&& r == Some(PokerTableError::InvalidRebuyAmount)
                ==> amount <= 0 || amount > table.config.max_buy_in || !(
            table.config.min_buy_in <= p.stack + amount <= table.config.max_buy_in)
        }),
{
}

/// A table that cannot be set up is refused for a reason.
pub proof fn tables_are_refused_for_a_reason(
    config: TableConfig,
)
    ensures
        ({
            let r = config_refusal(config);
            &&& r == Some(PokerTableError::RakeBpsExceedsMax) ==> config.rake_bps > 500
            &&& r == Some(PokerTableError::InvalidPlayerCount)
                ==> !(2 <= config.min_players <= config.max_players <= 6)
            &&& r == Some(PokerTableError::EmptyBlindsSchedule)
                ==> config.blinds_schedule.levels@.len() == 0
            &&& r == Some(PokerTableError::InvalidBlindLevel)
                ==> config.blinds_schedule.levels@.len() > 0
        }),
{
}

/// Those in the queue are found by the digest of their address.
pub proof fn waiting_players_are_found_by_digest(queue: Seq<QueueEntry>, a: Address, i: int)
    requires
        0 <= i < queue.len(),
    ensures
        queue_matches(queue, a).len() == queue.len(),
        queue_matches(queue, a)[i] <==> address_digest(queue[i].player) == address_digest(a),
{
}

} // verus!
