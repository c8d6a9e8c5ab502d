//! Sitting down, waiting for a seat, buying more chips and leaving.

use super::{
    index_wf, lemma_with_table, paid_in, queue_wf, table_wf, ContractView, PokerTableContract,
};
use crate::assoc::value_or;
use crate::host::{address_digest, Address, Party, Transfer};
use crate::poker_table::ban_list::{bans_of, listed};
use crate::poker_table::game::{lemma_stack_update, stack_of};
use crate::poker_table::multi_currency::{
    accepted, amounts_convert_at_the_rate, converts, worth, Rate,
};
use crate::poker_table::refunds::transfer_total;
use crate::poker_table::seating::{
    find_matches, find_queue_matches, first_mark, first_marked, leaving_conserves_chips,
    leaving_takes_the_own_stack, lemma_renumbered, marked_buy_in, marked_stack, marked_transfers,
    matches_of, queue_matches, queue_without, rebought, rebuy_refusal, seated, sit_down, stand_up,
    step_out, stepping_out_returns_the_buy_in, top_up, without_marked, wrapped, MAX_QUEUE_SIZE,
};
use crate::poker_table::time_bank::{new_bank, SeatKey, TimeBanksView};
use crate::poker_table::types::{GamePhase, PlayerState, PokerTableError, QueueEntry, TableState};
use crate::seqs::{
    contains_item, copy_without, lemma_sum_first, lemma_sum_push, lemma_with_member, lemma_without,
    sum_by, with_member, without,
};
use soroban_sdk::Env;
use vstd::prelude::*;

verus! {

/// Where a player has been placed.
#[derive(Clone, Copy, Debug, PartialEq, Eq, Structural)]
pub struct Joined {
    /// The seat, or the place in the queue.
    pub position: u32,
    pub queued: bool,
    /// The buy-in.
    pub transfer: Transfer,
}

/// The index with a table added to those of a player.
pub open spec fn indexed(index: Map<Address, Seq<u32>>, player: Address, table_id: u32) -> Map<
    Address,
    Seq<u32>,
> {
    index.insert(player, with_member(value_or(index, player, Seq::empty()), table_id))
}

/// The index with a table taken from those of a player.
pub open spec fn unindexed(index: Map<Address, Seq<u32>>, player: Address, table_id: u32) -> Map<
    Address,
    Seq<u32>,
> {
    let rest = without(value_or(index, player, Seq::empty()), table_id);
    if rest.len() == 0 {
        index.remove(player)
    } else {
        index.insert(player, rest)
    }
}

/// The reserves of time with one for a new player, where the table has them.
pub open spec fn with_reserve(banks: TimeBanksView, table_id: u32, player: Address, now: u32) -> TimeBanksView {
    let k = SeatKey { table_id, player };
    if banks.configs.contains_key(table_id) && banks.configs[table_id].enabled()
        && !banks.banks.contains_key(k) {
        TimeBanksView { banks: banks.banks.insert(k, new_bank(banks.configs[table_id], now)), ..banks }
    } else {
        banks
    }
}

impl ContractView {
    /// Whether a table has no seat left.
    pub open spec fn full(self, table_id: u32) -> bool {
        self.tables[table_id].players@.len() >= self.tables[table_id].config.max_players
    }

    /// Why a player cannot join a table, if they cannot. `at_table` and `in_queue` say whether
    /// they sit there or wait there already.
    pub open spec fn join_refusal(
        self,
        table_id: u32,
        player: Address,
        buy_in: i128,
        at_table: bool,
        in_queue: bool,
    ) -> Option<PokerTableError> {
        let t = self.tables[table_id];
        if self.paused_at(table_id) {
            Some(PokerTableError::ContractPaused)
        } else if listed(bans_of(self.bans, table_id), player) {
            Some(PokerTableError::PlayerNotAtTable)
        } else if !self.tables.contains_key(table_id) {
            Some(PokerTableError::TableNotFound)
        } else if !(t.phase is Waiting) {
            Some(PokerTableError::TableNotAcceptingPlayers)
        } else if buy_in < t.config.min_buy_in || buy_in > t.config.max_buy_in {
            Some(PokerTableError::InvalidBuyIn)
        } else if at_table {
            Some(PokerTableError::AlreadySeated)
        } else if self.full(table_id) && self.queue_of(table_id).len() >= MAX_QUEUE_SIZE {
            Some(PokerTableError::QueueFull)
        } else if self.full(table_id) && in_queue {
            Some(PokerTableError::AlreadyQueued)
        } else {
            None
        }
    }

    /// Why a player cannot join a table with another currency, if they cannot.
    pub open spec fn currency_refusal(
        self,
        table_id: u32,
        player: Address,
        currency: Address,
        amount: i128,
        rate: Rate,
        at_table: bool,
        in_queue: bool,
    ) -> Option<PokerTableError> {
        let t = self.tables[table_id];
        if self.closed_to_play(table_id) is Some {
            self.closed_to_play(table_id)
        } else if !accepted(self.currencies, table_id, currency) || !converts(amount, rate)
            || worth(amount, rate) < t.config.min_buy_in || worth(amount, rate)
            > t.config.max_buy_in {
            Some(PokerTableError::InvalidBuyIn)
        } else {
            self.join_refusal(table_id, player, worth(amount, rate) as i128, at_table, in_queue)
        }
    }

    /// Whether `next` is the state after a player has joined a table: seated where there is a
    /// seat left, else at the end of the queue.
    pub open spec fn joined(
        self,
        next: ContractView,
        table_id: u32,
        player: Address,
        buy_in: i128,
        now: u32,
    ) -> bool {
        let t = self.tables[table_id];
        let u = next.tables[table_id];
        if self.full(table_id) {
            next == (ContractView {
                queues: self.queues.insert(
                    table_id,
                    self.queue_of(table_id).push(QueueEntry { player, buy_in }),
                ),
                ..self
            })
        } else {
            &&& u.players@ == t.players@.push(seated(player, buy_in, t.players@.len() as u32))
            &&& u == (TableState { players: u.players, ..t })
            &&& next == (ContractView {
                tables: self.tables.insert(table_id, u),
                player_tables: indexed(self.player_tables, player, table_id),
                banks: with_reserve(self.banks, table_id, player, now),
                ..self
            })
        }
    }

    /// What a player is told who has joined.
    pub open spec fn join_answer(self, table_id: u32, player: Address, buy_in: i128) -> Joined {
        Joined {
            position: if self.full(table_id) {
                self.queue_of(table_id).len() as u32
            } else {
                self.tables[table_id].players@.len() as u32
            },
            queued: self.full(table_id),
            transfer: Transfer {
                token: self.tables[table_id].config.token,
                from: Party::Wallet(player),
                to: Party::This,
                amount: buy_in,
            },
        }
    }

    /// Why a player cannot leave a table, if they cannot. `at_table` says whether they sit there.
    pub open spec fn leave_refusal(self, table_id: u32, at_table: bool) -> Option<PokerTableError> {
        if self.closed_to_play(table_id) is Some {
            self.closed_to_play(table_id)
        } else if !self.tables[table_id].phase.between_hands() {
            Some(PokerTableError::CannotLeaveDuringActiveHand)
        } else if !at_table {
            Some(PokerTableError::PlayerNotAtTable)
        } else {
            None
        }
    }

    /// Whether `next` is the state after the marked players have left a table and the first in
    /// the queue, if there is one, has been seated.
    pub open spec fn left(
        self,
        next: ContractView,
        table_id: u32,
        player: Address,
        marks: Seq<bool>,
    ) -> bool {
        let t = self.tables[table_id];
        let u = next.tables[table_id];
        let rest = without_marked(t.players@, marks);
        let queue = self.queue_of(table_id);
        let index = unindexed(self.player_tables, player, table_id);
        let n = rest.len() as int;
        &&& u == (TableState {
            players: u.players,
            dealer_seat: wrapped(t.dealer_seat, n),
            current_turn: wrapped(t.current_turn, n),
            ..t
        })
        &&& if queue.len() == 0 || n >= t.config.max_players {
            &&& u.players@ == rest
            &&& next == (ContractView {
                tables: self.tables.insert(table_id, u),
                player_tables: index,
                ..self
            })
        } else {
            &&& u.players@ == rest.push(seated(queue[0].player, queue[0].buy_in, n as u32))
            &&& next == (ContractView {
                tables: self.tables.insert(table_id, u),
                player_tables: indexed(index, queue[0].player, table_id),
                queues: self.queues.insert(table_id, queue.skip(1)),
                ..self
            })
        }
    }

    /// Why a player cannot leave a queue, if they cannot.
    pub open spec fn queue_refusal(self, table_id: u32, marks: Seq<bool>) -> Option<PokerTableError> {
        if self.paused_at(table_id) {
            Some(PokerTableError::ContractPaused)
        } else if !marks.contains(true) {
            Some(PokerTableError::NotQueued)
        } else if marked_buy_in(self.queue_of(table_id), marks) > 0 && !self.tables.contains_key(
            table_id,
        ) {
            Some(PokerTableError::TableNotFound)
        } else {
            None
        }
    }

    /// The state after the marked entries have left a queue.
    pub open spec fn queue_left(self, table_id: u32, marks: Seq<bool>) -> Self {
        ContractView {
            queues: self.queues.insert(table_id, queue_without(self.queue_of(table_id), marks)),
            ..self
        }
    }

    /// Why a player cannot rebuy, if they cannot. `seat` is the place of the player at the table,
    /// or one past the last.
    pub open spec fn rebuy_refused(self, table_id: u32, seat: int, amount: i128) -> Option<
        PokerTableError,
    > {
        if self.closed_to_play(table_id) is Some {
            self.closed_to_play(table_id)
        } else {
            rebuy_refusal(self.tables[table_id], seat, amount)
        }
    }
}

proof fn lemma_indexed(index: Map<Address, Seq<u32>>, player: Address, table_id: u32)
    requires
        index_wf(index),
    ensures
        index_wf(indexed(index, player, table_id)),
        index_wf(unindexed(index, player, table_id)),
{
    let list = value_or(index, player, Seq::empty());
    lemma_with_member(list, table_id);
    lemma_without(list, table_id);
    let a = indexed(index, player, table_id);
    let b = unindexed(index, player, table_id);
    assert forall|p: Address| #[trigger] a.contains_key(p) implies a[p].len() > 0
        && a[p].no_duplicates() by {
        if p != player {
            assert(index.contains_key(p));
        } else {
            assert(with_member(list, table_id).contains(table_id));
        }
    }
    assert forall|p: Address| #[trigger] b.contains_key(p) implies b[p].len() > 0
        && b[p].no_duplicates() by {
        assert(index.contains_key(p));
    }
}

/// A table with one more player, seated after the others.
proof fn lemma_seated(t: TableState, u: TableState, player: Address, buy_in: i128)
    requires
        table_wf(t),
        t.phase.between_hands(),
        buy_in >= 0,
        t.hand().chips() + buy_in <= i128::MAX,
        t.players@.len() < t.config.max_players,
        u.players@ == t.players@.push(seated(player, buy_in, t.players@.len() as u32)),
        u == (TableState { players: u.players, ..t }),
    ensures
        table_wf(u),
        u.hand().chips() == t.hand().chips() + buy_in,
{
    lemma_sum_push(t.players@, seated(player, buy_in, t.players@.len() as u32), stack_of());
    assert forall|i: int| 0 <= i < u.players@.len() implies {
        let p = #[trigger] u.players@[i];
        &&& 0 <= p.stack
        &&& 0 <= p.bet_this_round <= p.committed
        &&& p.seat_index == i
    } by {
        if i < t.players@.len() {
            assert(u.players@[i] == t.players@[i]);
        }
    }
}

proof fn lemma_kept(players: Seq<PlayerState>, marks: Seq<bool>)
    requires
        marks.len() == players.len(),
        forall|i: int|
            0 <= i < players.len() ==> {
                let p = #[trigger] players[i];
                0 <= p.stack && 0 <= p.bet_this_round <= p.committed
            },
    ensures
        forall|i: int|
            0 <= i < without_marked(players, marks).len() ==> {
                let p = #[trigger] without_marked(players, marks)[i];
                0 <= p.stack && 0 <= p.bet_this_round <= p.committed
            },
    decreases players.len(),
{
    if players.len() > 0 {
        let d = players.drop_last();
        assert forall|i: int| 0 <= i < d.len() implies {
            let p = #[trigger] d[i];
            0 <= p.stack && 0 <= p.bet_this_round <= p.committed
        } by {
            assert(d[i] == players[i]);
        }
        lemma_kept(d, marks.drop_last());
        assert(players[players.len() - 1] == players.last());
    }
}

/// A table that the marked players have left.
proof fn lemma_stood_up(t: TableState, u: TableState, token: Address, player: Address, marks: Seq<bool>)
    requires
        table_wf(t),
        t.phase.between_hands(),
        marks.len() == t.players@.len(),
        u.players@ == without_marked(t.players@, marks),
        u == (TableState {
            players: u.players,
            dealer_seat: wrapped(t.dealer_seat, u.players@.len() as int),
            current_turn: wrapped(t.current_turn, u.players@.len() as int),
            ..t
        }),
    ensures
        table_wf(u),
        u.hand().chips() == t.hand().chips() - transfer_total(
            marked_transfers(token, player, t.players@, marks),
        ),
        0 <= transfer_total(marked_transfers(token, player, t.players@, marks)),
{
    assert(t.players@.len() <= t.config.max_players);
    assert forall|i: int| 0 <= i < t.players@.len() implies {
        let p = #[trigger] t.players@[i];
        0 <= p.stack && 0 <= p.bet_this_round <= p.committed
    } by {}
    lemma_renumbered(t.players@, marks);
    lemma_kept(t.players@, marks);
    leaving_conserves_chips(token, player, t.players@, marks);
    lemma_paid_nonneg(token, player, t.players@, marks);
}

proof fn lemma_paid_nonneg(token: Address, player: Address, players: Seq<PlayerState>, marks: Seq<bool>)
    requires
        marks.len() == players.len(),
    ensures
        0 <= transfer_total(marked_transfers(token, player, players, marks)),
    decreases players.len(),
{
    if players.len() > 0 {
        let d = players.drop_last();
        let m = marks.drop_last();
        lemma_paid_nonneg(token, player, d, m);
        let ts = marked_transfers(token, player, d, m);
        let t = Transfer {
            token,
            from: Party::This,
            to: Party::Wallet(player),
            amount: players.last().stack,
        };
        assert(ts.push(t).drop_last() =~= ts);
    }
}

/// What the marked entries of a queue have paid.
pub open spec fn marked_total(queue: Seq<QueueEntry>, marks: Seq<bool>) -> int
    decreases queue.len(),
{
    if queue.len() == 0 {
        0
    } else {
        marked_total(queue.drop_last(), marks.drop_last()) + if marks.last() {
            queue.last().buy_in as int
        } else {
            0
        }
    }
}

proof fn lemma_queue_without(queue: Seq<QueueEntry>, marks: Seq<bool>)
    requires
        queue_wf(queue),
        marks.len() == queue.len(),
    ensures
        queue_wf(queue_without(queue, marks)),
        queue_without(queue, marks).len() <= queue.len(),
        sum_by(queue_without(queue, marks), paid_in()) == sum_by(queue, paid_in()) - marked_total(
            queue,
            marks,
        ),
        marked_total(queue, marks) >= 0,
    decreases queue.len(),
{
    if queue.len() > 0 {
        let d = queue.drop_last();
        let m = marks.drop_last();
        assert forall|i: int| 0 <= i < d.len() implies (#[trigger] d[i]).buy_in >= 0 by {
            assert(d[i] == queue[i]);
        }
        lemma_queue_without(d, m);
        assert(queue[queue.len() - 1].buy_in >= 0);
        let rest = queue_without(d, m);
        assert(rest.push(queue.last()).drop_last() =~= rest);
    }
}

/// Where one entry is marked, its refund is all that it has paid.
pub proof fn queue_refund_is_whole(queue: Seq<QueueEntry>, marks: Seq<bool>, k: int)
    requires
        marks.len() == queue.len(),
        0 <= k < marks.len(),
        marks[k],
        forall|i: int| 0 <= i < marks.len() && i != k ==> !#[trigger] marks[i],
    ensures
        marked_buy_in(queue, marks) == queue[k].buy_in,
        marked_total(queue, marks) == queue[k].buy_in,
    decreases queue.len(),
{
    let d = queue.drop_last();
    let m = marks.drop_last();
    if k < d.len() {
        assert(m[k] == marks[k]);
        assert forall|i: int| 0 <= i < m.len() && i != k implies !#[trigger] m[i] by {
            assert(m[i] == marks[i]);
        }
        queue_refund_is_whole(d, m, k);
        assert(!marks[marks.len() - 1]);
    } else {
        assert forall|i: int| 0 <= i < m.len() implies !#[trigger] m[i] by {
            assert(m[i] == marks[i]);
        }
        lemma_no_marks(d, m);
    }
}

proof fn lemma_no_marks(queue: Seq<QueueEntry>, marks: Seq<bool>)
    requires
        marks.len() == queue.len(),
        forall|i: int| 0 <= i < marks.len() ==> !#[trigger] marks[i],
    ensures
        marked_total(queue, marks) == 0,
    decreases queue.len(),
{
    if queue.len() > 0 {
        let m = marks.drop_last();
        assert forall|i: int| 0 <= i < m.len() implies !#[trigger] m[i] by {
            assert(m[i] == marks[i]);
        }
        lemma_no_marks(queue.drop_last(), m);
        assert(!marks[marks.len() - 1]);
    }
}

impl PokerTableContract {
    fn index_player_table(&mut self, player: &Address, table_id: u32)
        ensures
            final(self)@ == (ContractView {
                player_tables: indexed(old(self)@.player_tables, *player, table_id),
                ..old(self)@
            }),
    {
        let mut list = self.get_player_tables(player);
        if contains_item(&list, &table_id) {
            assert(self@.player_tables =~= indexed(self@.player_tables, *player, table_id));
            return;
        }
        list.push(table_id);
        self.player_tables.insert(*player, list);
    }

    fn unindex_player_table(&mut self, player: &Address, table_id: u32)
        ensures
            final(self)@ == (ContractView {
                player_tables: unindexed(old(self)@.player_tables, *player, table_id),
                ..old(self)@
            }),
    {
        let list = self.get_player_tables(player);
        let rest = copy_without(&list, &table_id);
        if rest.len() == 0 {
            let _ = self.player_tables.remove(player);
        } else {
            self.player_tables.insert(*player, rest);
        }
    }

    /// Seats a player at a table with a buy-in at ledger `now`, or puts them into the queue of a
    /// full table.
    pub fn join_table(&mut self, env: &Env, table_id: u32, player: &Address, buy_in: i128, now: u32) -> (r:
        Result<Joined, PokerTableError>)
        requires
            old(self)@.wf(),
            old(self)@.tables.contains_key(table_id) ==> {
                &&& buy_in >= 0 || buy_in < old(self)@.tables[table_id].config.min_buy_in
                &&& old(self)@.funds(table_id) + buy_in <= i128::MAX
            },
        ensures
            match old(self)@.join_refusal(
                table_id,
                *player,
                buy_in,
                matches_of(old(self)@.tables[table_id].players@, *player).contains(true),
                queue_matches(old(self)@.queue_of(table_id), *player).contains(true),
            ) {
                Some(e) => r == Err::<Joined, _>(e) && final(self)@ == old(self)@,
                None => {
                    &&& r == Ok::<_, PokerTableError>(
                        old(self)@.join_answer(table_id, *player, buy_in),
                    )
                    &&& old(self)@.joined(final(self)@, table_id, *player, buy_in, now)
                    &&& final(self)@.funds(table_id) == old(self)@.funds(table_id) + buy_in
                },
            },
            final(self)@.wf(),
            r is Ok ==> forall|i: int|
                0 <= i < old(self)@.tables[table_id].players@.len() ==> address_digest(
                    (#[trigger] old(self)@.tables[table_id].players@[i]).address,
                ) != address_digest(*player),
    {
        let queue = self.get_queue(table_id);
        let queue_marks = find_queue_matches(env, &queue, player);
        let in_queue: bool = first_marked(&queue_marks) < queue_marks.len();
        let at_table: bool = match self.tables.get(&table_id) {
            Some(t) => {
                let marks = find_matches(env, &t.players, player);
                first_marked(&marks) < marks.len()
            },
            None => false,
        };
        proof {
            let ps = self@.tables[table_id].players@;
            if self@.tables.contains_key(table_id) && !at_table {
                assert forall|i: int| 0 <= i < ps.len() implies address_digest(
                    (#[trigger] ps[i]).address,
                ) != address_digest(*player) by {
                    if matches_of(ps, *player)[i] {
                        assert(matches_of(ps, *player).contains(true));
                    }
                }
            }
        }
        self.join_table_as(table_id, player, buy_in, now, at_table, in_queue)
    }

    /// The same, where it is known whether the player sits at the table or waits for it.
    pub fn join_table_as(
        &mut self,
        table_id: u32,
        player: &Address,
        buy_in: i128,
        now: u32,
        at_table: bool,
        in_queue: bool,
    ) -> (r: Result<Joined, PokerTableError>)
        requires
            old(self)@.wf(),
            old(self)@.tables.contains_key(table_id) ==> {
                &&& buy_in >= 0 || buy_in < old(self)@.tables[table_id].config.min_buy_in
                &&& old(self)@.funds(table_id) + buy_in <= i128::MAX
            },
        ensures
            match old(self)@.join_refusal(table_id, *player, buy_in, at_table, in_queue) {
                Some(e) => r == Err::<Joined, _>(e) && final(self)@ == old(self)@,
                None => {
                    &&& r == Ok::<_, PokerTableError>(
                        old(self)@.join_answer(table_id, *player, buy_in),
                    )
                    &&& old(self)@.joined(final(self)@, table_id, *player, buy_in, now)
                    &&& final(self)@.funds(table_id) == old(self)@.funds(table_id) + buy_in
                },
            },
            final(self)@.wf(),
    {
        let ghost st = self@;
        if self.is_paused(table_id) {
            return Err(PokerTableError::ContractPaused);
        }
        if self.bans.is_banned(table_id, player) {
            return Err(PokerTableError::PlayerNotAtTable);
        }
        let (token, full): (Address, bool) = match self.tables.get(&table_id) {
            None => {
                return Err(PokerTableError::TableNotFound);
            },
            Some(t) => {
                if t.phase != GamePhase::Waiting {
                    return Err(PokerTableError::TableNotAcceptingPlayers);
                }
                if buy_in < t.config.min_buy_in || buy_in > t.config.max_buy_in {
                    return Err(PokerTableError::InvalidBuyIn);
                }
                if at_table {
                    return Err(PokerTableError::AlreadySeated);
                }
                (t.config.token, t.players.len() as u64 >= t.config.max_players as u64)
            },
        };
        let transfer = Transfer {
            token,
            from: Party::Wallet(*player),
            to: Party::This,
            amount: buy_in,
        };
        let ghost t = st.tables[table_id];
        if full {
            let position: u32 = match self.join_queue(table_id, player, buy_in, in_queue) {
                Ok(p) => p,
                Err(e) => {
                    return Err(e);
                },
            };
            return Ok(Joined { position, queued: true, transfer });
        }
        let mut table = self.take_table(table_id);
        let seat: u32 = sit_down(&mut table, *player, buy_in);
        let ghost u = table;
        self.put_table(table_id, table);
        proof {
            lemma_sum_nonneg(st.queue_of(table_id));
            lemma_seated(t, u, *player, buy_in);
            assert(self@ =~= st.with_table(table_id, u));
            assert(self@.queue_of(table_id) == st.queue_of(table_id));
            lemma_with_table(st, table_id, u);
            lemma_indexed(st.player_tables, *player, table_id);
        }
        let ghost s1 = self@;
        self.index_player_table(player, table_id);
        self.banks.init_for_player(table_id, player, None, now);
        proof {
            assert(self@.queue_of(table_id) == st.queue_of(table_id));
            assert(self@.funds_wf()) by {
                assert forall|id: u32| #[trigger] self@.tables.contains_key(id) implies self@.funds(
                    id,
                ) <= i128::MAX by {
                    assert(s1.tables.contains_key(id));
                    assert(s1.funds(id) == self@.funds(id));
                }
            }
        }
        Ok(Joined { position: seat, queued: false, transfer })
    }

    /// Puts a player at the end of a queue.
    fn join_queue(&mut self, table_id: u32, player: &Address, buy_in: i128, in_queue: bool) -> (r: Result<
        u32,
        PokerTableError,
    >)
        requires
            old(self)@.wf(),
            buy_in >= 0,
            old(self)@.tables.contains_key(table_id),
            old(self)@.funds(table_id) + buy_in <= i128::MAX,
        ensures
            ({
                let queue = old(self)@.queue_of(table_id);
                if queue.len() >= MAX_QUEUE_SIZE {
                    r == Err::<u32, _>(PokerTableError::QueueFull) && final(self)@ == old(self)@
                } else if in_queue {
                    r == Err::<u32, _>(PokerTableError::AlreadyQueued) && final(self)@ == old(self)@
                } else {
                    &&& r == Ok::<_, PokerTableError>(queue.len() as u32)
                    &&& final(self)@ == (ContractView {
                        queues: old(self)@.queues.insert(
                            table_id,
                            queue.push(QueueEntry { player: *player, buy_in }),
                        ),
                        ..old(self)@
                    })
                    &&& final(self)@.funds(table_id) == old(self)@.funds(table_id) + buy_in
                }
            }),
            final(self)@.wf(),
    {
        let ghost st = self@;
        let mut queue = self.get_queue(table_id);
        if queue.len() >= MAX_QUEUE_SIZE as usize {
            return Err(PokerTableError::QueueFull);
        }
        if in_queue {
            return Err(PokerTableError::AlreadyQueued);
        }
        let entry = QueueEntry { player: *player, buy_in };
        let ghost q0 = queue@;
        queue.push(entry);
        let position: u32 = queue.len() as u32 - 1;
        let ghost q = queue@;
        self.queues.insert(table_id, queue);
        proof {
            lemma_sum_push(q0, entry, paid_in());
            assert(queue_wf(q)) by {
                assert forall|i: int| 0 <= i < q.len() implies (#[trigger] q[i]).buy_in >= 0 by {
                    if i < q0.len() {
                        assert(q[i] == q0[i]);
                    }
                }
            }
            lemma_queue_changed(st, self@, table_id, q);
        }
        Ok(position)
    }

    /// Takes a player off a table between hands, and seats the first player of the queue. Returns
    /// the stack and the transfers that pay it out.
    pub fn leave_table(&mut self, env: &Env, table_id: u32, player: &Address) -> (r: Result<
        (i128, Vec<Transfer>),
        PokerTableError,
    >)
        requires
            old(self)@.wf(),
        ensures
            ({
                let players = old(self)@.tables[table_id].players@;
                let marks = matches_of(players, *player);
                match old(self)@.leave_refusal(table_id, marks.contains(true)) {
                    Some(e) => r == Err::<(i128, Vec<Transfer>), _>(e) && final(self)@ == old(self)@,
                    None => {
                        &&& r matches Ok((amount, transfers)) && amount == marked_stack(
                            players,
                            marks,
                        ) && transfers@ == marked_transfers(
                            old(self)@.tables[table_id].config.token,
                            *player,
                            players,
                            marks,
                        )
                        &&& old(self)@.left(final(self)@, table_id, *player, marks)
                        &&& final(self)@.funds(table_id) == old(self)@.funds(table_id)
                            - transfer_total((r->Ok_0).1@)
                    },
                }
            }),
            final(self)@.wf(),
    {
        match self.open_to_play(table_id) {
            Ok(t) => {
                let marks = find_matches(env, &t.players, player);
                self.leave_table_as(table_id, player, &marks)
            },
            Err(e) => Err(e),
        }
    }

    /// The same, where it is known which of the players leave.
    pub fn leave_table_as(&mut self, table_id: u32, player: &Address, marks: &Vec<bool>) -> (r: Result<
        (i128, Vec<Transfer>),
        PokerTableError,
    >)
        requires
            old(self)@.wf(),
            old(self)@.tables.contains_key(table_id) ==> marks@.len()
                == old(self)@.tables[table_id].players@.len(),
        ensures
            ({
                let players = old(self)@.tables[table_id].players@;
                match old(self)@.leave_refusal(table_id, marks@.contains(true)) {
                    Some(e) => r == Err::<(i128, Vec<Transfer>), _>(e) && final(self)@ == old(self)@,
                    None => {
                        &&& r matches Ok((amount, transfers)) && amount == marked_stack(
                            players,
                            marks@,
                        ) && transfers@ == marked_transfers(
                            old(self)@.tables[table_id].config.token,
                            *player,
                            players,
                            marks@,
                        )
                        &&& old(self)@.left(final(self)@, table_id, *player, marks@)
                        &&& final(self)@.funds(table_id) == old(self)@.funds(table_id)
                            - transfer_total((r->Ok_0).1@)
                    },
                }
            }),
            final(self)@.wf(),
    {
        let ghost st = self@;
        let between: bool = match self.open_to_play(table_id) {
            Ok(t) => t.phase.is_between_hands(),
            Err(e) => {
                return Err(e);
            },
        };
        if !between {
            return Err(PokerTableError::CannotLeaveDuringActiveHand);
        }
        if first_marked(marks) >= marks.len() {
            return Err(PokerTableError::PlayerNotAtTable);
        }
        let ghost t = st.tables[table_id];
        let mut table = self.take_table(table_id);
        let paid = stand_up(&mut table, *player, marks);
        let ghost u = table;
        proof {
            lemma_stood_up(t, u, t.config.token, *player, marks@);
        }
        self.put_table(table_id, table);
        proof {
            assert(self@ =~= st.with_table(table_id, u));
            assert(self@.queue_of(table_id) == st.queue_of(table_id));
            lemma_with_table(st, table_id, u);
            lemma_indexed(st.player_tables, *player, table_id);
        }
        let ghost s1 = self@;
        self.unindex_player_table(player, table_id);
        proof {
            assert(self@.funds_wf()) by {
                assert forall|id: u32| #[trigger] self@.tables.contains_key(id) implies self@.funds(
                    id,
                ) <= i128::MAX by {
                    assert(s1.tables.contains_key(id));
                    assert(s1.funds(id) == self@.funds(id));
                }
            }
            assert(self@.wf());
        }
        let ghost s2 = self@;
        self.seat_next_from_queue(table_id);
        proof {
            assert(s2.queue_of(table_id) == st.queue_of(table_id));
            assert(s2.funds(table_id) == s1.funds(table_id));
            let w = self@.tables[table_id];
            assert(self@.tables =~= st.tables.insert(table_id, w));
            assert(st.left(self@, table_id, *player, marks@));
        }
        Ok(paid)
    }

    /// Seats the first player of a queue, where there is one and a seat is left.
    fn seat_next_from_queue(&mut self, table_id: u32)
        requires
            old(self)@.wf(),
            old(self)@.tables.contains_key(table_id),
            old(self)@.tables[table_id].phase.between_hands(),
        ensures
            ({
                let t = old(self)@.tables[table_id];
                let u = final(self)@.tables[table_id];
                let queue = old(self)@.queue_of(table_id);
                if queue.len() == 0 || old(self)@.full(table_id) {
                    final(self)@ == old(self)@
                } else {
                    &&& u.players@ == t.players@.push(
                        seated(queue[0].player, queue[0].buy_in, t.players@.len() as u32),
                    )
                    &&& u == (TableState { players: u.players, ..t })
                    &&& final(self)@ == (ContractView {
                        tables: old(self)@.tables.insert(table_id, u),
                        player_tables: indexed(
                            old(self)@.player_tables,
                            queue[0].player,
                            table_id,
                        ),
                        queues: old(self)@.queues.insert(table_id, queue.skip(1)),
                        ..old(self)@
                    })
                }
            }),
            final(self)@.funds(table_id) == old(self)@.funds(table_id),
            final(self)@.wf(),
    {
        let ghost st = self@;
        let mut queue = self.get_queue(table_id);
        if queue.len() == 0 {
            return;
        }
        let full: bool = match self.tables.get(&table_id) {
            Some(t) => t.players.len() as u64 >= t.config.max_players as u64,
            None => true,
        };
        if full {
            return;
        }
        let ghost q0 = queue@;
        let ghost t = st.tables[table_id];
        let next: QueueEntry = queue.remove(0);
        let ghost q = queue@;
        let mut table = self.take_table(table_id);
        let _ = sit_down(&mut table, next.player, next.buy_in);
        let ghost u = table;
        proof {
            assert(q =~= q0.skip(1));
            lemma_sum_first(q0, paid_in());
            assert(st.queues.contains_key(table_id));
            assert(queue_wf(q0));
            assert(next == q0[0]);
            assert(queue_wf(q)) by {
                assert forall|i: int| 0 <= i < q.len() implies (#[trigger] q[i]).buy_in >= 0 by {
                    assert(q[i] == q0[i + 1]);
                }
            }
            lemma_sum_nonneg(q);
            lemma_seated(t, u, next.player, next.buy_in);
        }
        self.queues.insert(table_id, queue);
        let ghost s1 = self@;
        self.put_table(table_id, table);
        self.index_player_table(&next.player, table_id);
        proof {
            lemma_indexed(st.player_tables, next.player, table_id);
            let n = self@;
            assert(n.tables =~= st.tables.insert(table_id, u));
            assert(n.queue_of(table_id) == q);
            assert forall|id: u32| #[trigger] n.tables.contains_key(id) implies table_wf(
                n.tables[id],
            ) && n.tables[id].id == id && id < n.next_id && n.funds(id) <= i128::MAX by {
                assert(st.tables.contains_key(id));
                assert(st.funds(id) <= i128::MAX);
                if id != table_id {
                    assert(n.queue_of(id) == st.queue_of(id));
                }
            }
            assert forall|id: u32| #[trigger] n.queues.contains_key(id) implies queue_wf(
                n.queues[id],
            ) && id < n.next_id by {
                assert(st.queues.contains_key(id));
            }
        }
    }

    /// Takes a player out of a queue, and returns the buy-in and the transfer that refunds it.
    pub fn leave_queue(&mut self, env: &Env, table_id: u32, player: &Address) -> (r: Result<
        (i128, Option<Transfer>),
        PokerTableError,
    >)
        requires
            old(self)@.wf(),
        ensures
            ({
                let queue = old(self)@.queue_of(table_id);
                let marks = queue_matches(queue, *player);
                match old(self)@.queue_refusal(table_id, marks) {
                    Some(e) => r == Err::<(i128, Option<Transfer>), _>(e) && final(self)@
                        == old(self)@,
                    None => {
                        &&& r == Ok::<_, PokerTableError>(
                            (
                                marked_buy_in(queue, marks),
                                refund_transfer(
                                    old(self)@.tables[table_id].config.token,
                                    *player,
                                    marked_buy_in(queue, marks),
                                ),
                            ),
                        )
                        &&& final(self)@ == old(self)@.queue_left(table_id, marks)
                        &&& final(self)@.funds(table_id) == old(self)@.funds(table_id)
                            - marked_total(queue, marks)
                    },
                }
            }),
            final(self)@.wf(),
    {
        let queue = self.get_queue(table_id);
        let marks = find_queue_matches(env, &queue, player);
        self.leave_queue_as(table_id, player, &marks)
    }

    /// The same, where it is known which entries are the player's.
    pub fn leave_queue_as(&mut self, table_id: u32, player: &Address, marks: &Vec<bool>) -> (r: Result<
        (i128, Option<Transfer>),
        PokerTableError,
    >)
        requires
            old(self)@.wf(),
            marks@.len() == old(self)@.queue_of(table_id).len(),
        ensures
            ({
                let queue = old(self)@.queue_of(table_id);
                match old(self)@.queue_refusal(table_id, marks@) {
                    Some(e) => r == Err::<(i128, Option<Transfer>), _>(e) && final(self)@
                        == old(self)@,
                    None => {
                        &&& r == Ok::<_, PokerTableError>(
                            (
                                marked_buy_in(queue, marks@),
                                refund_transfer(
                                    old(self)@.tables[table_id].config.token,
                                    *player,
                                    marked_buy_in(queue, marks@),
                                ),
                            ),
                        )
                        &&& final(self)@ == old(self)@.queue_left(table_id, marks@)
                        &&& final(self)@.funds(table_id) == old(self)@.funds(table_id)
                            - marked_total(queue, marks@)
                    },
                }
            }),
            final(self)@.wf(),
    {
        let ghost st = self@;
        if self.is_paused(table_id) {
            return Err(PokerTableError::ContractPaused);
        }
        if first_marked(marks) >= marks.len() {
            return Err(PokerTableError::NotQueued);
        }
        let queue = self.get_queue(table_id);
        let (rest, refund) = step_out(&queue, marks);
        let transfer: Option<Transfer> = if refund > 0 {
            match self.tables.get(&table_id) {
                Some(t) => Some(
                    Transfer {
                        token: t.config.token,
                        from: Party::This,
                        to: Party::Wallet(*player),
                        amount: refund,
                    },
                ),
                None => {
                    return Err(PokerTableError::TableNotFound);
                },
            }
        } else {
            None
        };
        let ghost q = rest@;
        self.queues.insert(table_id, rest);
        proof {
            assert(st.queues.contains_key(table_id));
            lemma_queue_without(queue@, marks@);
            if st.tables.contains_key(table_id) {
                assert(st.funds(table_id) <= i128::MAX);
            }
            lemma_queue_changed(st, self@, table_id, q);
        }
        Ok((refund, transfer))
    }

    /// Tops up the stack of a seated player between hands. Returns the new stack and the transfer
    /// of the chips.
    pub fn rebuy(&mut self, env: &Env, table_id: u32, player: &Address, amount: i128) -> (r: Result<
        (i128, Transfer),
        PokerTableError,
    >)
        requires
            old(self)@.wf(),
            old(self)@.tables.contains_key(table_id) ==> {
                let t = old(self)@.tables[table_id];
                &&& i128::MIN <= old(self)@.funds(table_id) + amount <= i128::MAX
                &&& forall|i: int|
                    0 <= i < t.players@.len() ==> {
                        let p = #[trigger] t.players@[i];
                        p.total_buy_in + amount <= i128::MAX && p.rebuy_count < u32::MAX
                    }
            },
        ensures
            ({
                let t = old(self)@.tables[table_id];
                let seat = first_mark(matches_of(t.players@, *player));
                let u = final(self)@.tables[table_id];
                match old(self)@.rebuy_refused(table_id, seat, amount) {
                    Some(e) => r == Err::<(i128, Transfer), _>(e) && final(self)@ == old(self)@,
                    None => {
                        let p = rebought(t.players@[seat], amount);
                        &&& r == Ok::<_, PokerTableError>(
                            (
                                p.stack,
                                Transfer {
                                    token: t.config.token,
                                    from: Party::Wallet(*player),
                                    to: Party::This,
                                    amount,
                                },
                            ),
                        )
                        &&& u.players@ == t.players@.update(seat, p)
                        &&& u == (TableState { players: u.players, ..t })
                        &&& final(self)@ == old(self)@.with_table(table_id, u)
                        &&& final(self)@.funds(table_id) == old(self)@.funds(table_id) + amount
                    },
                }
            }),
            final(self)@.wf(),
    {
        match self.open_to_play(table_id) {
            Ok(t) => {
                let marks = find_matches(env, &t.players, player);
                let seat: usize = first_marked(&marks);
                self.rebuy_as(table_id, player, seat, amount)
            },
            Err(e) => Err(e),
        }
    }

    /// The same, where the place of the player at the table is known; one past the last stands
    /// for a player who is not there.
    pub fn rebuy_as(&mut self, table_id: u32, player: &Address, seat: usize, amount: i128) -> (r: Result<
        (i128, Transfer),
        PokerTableError,
    >)
        requires
            old(self)@.wf(),
            old(self)@.tables.contains_key(table_id) ==> {
                let t = old(self)@.tables[table_id];
                &&& i128::MIN <= old(self)@.funds(table_id) + amount <= i128::MAX
                &&& forall|i: int|
                    0 <= i < t.players@.len() ==> {
                        let p = #[trigger] t.players@[i];
                        p.total_buy_in + amount <= i128::MAX && p.rebuy_count < u32::MAX
                    }
            },
        ensures
            ({
                let t = old(self)@.tables[table_id];
                let u = final(self)@.tables[table_id];
                match old(self)@.rebuy_refused(table_id, seat as int, amount) {
                    Some(e) => r == Err::<(i128, Transfer), _>(e) && final(self)@ == old(self)@,
                    None => {
                        let p = rebought(t.players@[seat as int], amount);
                        &&& r == Ok::<_, PokerTableError>(
                            (
                                p.stack,
                                Transfer {
                                    token: t.config.token,
                                    from: Party::Wallet(*player),
                                    to: Party::This,
                                    amount,
                                },
                            ),
                        )
                        &&& u.players@ == t.players@.update(seat as int, p)
                        &&& u == (TableState { players: u.players, ..t })
                        &&& final(self)@ == old(self)@.with_table(table_id, u)
                        &&& final(self)@.funds(table_id) == old(self)@.funds(table_id) + amount
                    },
                }
            }),
            final(self)@.wf(),
    {
        let ghost st = self@;
        let token: Address = match self.open_to_play(table_id) {
            Ok(t) => t.config.token,
            Err(e) => {
                return Err(e);
            },
        };
        let ghost t = st.tables[table_id];
        let mut table = self.take_table(table_id);
        proof {
            lemma_funds_bounds(st, table_id);
        }
        let result = top_up(&mut table, seat, amount);
        let ghost u = table;
        self.put_table(table_id, table);
        assert(self@.tables =~= st.tables.insert(table_id, u));
        match result {
            Ok(stack) => {
                proof {
                    lemma_stack_update(t.players@, seat as int, u.players@[seat as int]);
                    assert forall|i: int| 0 <= i < u.players@.len() implies {
                        let p = #[trigger] u.players@[i];
                        &&& 0 <= p.stack
                        &&& 0 <= p.bet_this_round <= p.committed
                        &&& p.seat_index == i
                    } by {
                        assert(t.players@[i].seat_index == i);
                    }
                    lemma_sum_nonneg(st.queue_of(table_id));
                    assert(u.hand().chips() == t.hand().chips() + amount);
                    assert(self@.queue_of(table_id) == st.queue_of(table_id));
                    assert(table_wf(u));
                    lemma_with_table(st, table_id, u);
                    assert(self@ =~= st.with_table(table_id, u));
                }
                Ok(
                    (
                        stack,
                        Transfer {
                            token,
                            from: Party::Wallet(*player),
                            to: Party::This,
                            amount,
                        },
                    ),
                )
            },
            Err(e) => {
                assert(self@ =~= st);
                Err(e)
            },
        }
    }

    /// Joins a table with a buy-in in another currency that the table accepts, at ledger `now`.
    /// The player is placed with what the amount is worth at the rate of the currency's oracle,
    /// and pays the amount in that currency.
    pub fn buy_in_with_currency(
        &mut self,
        env: &Env,
        table_id: u32,
        player: &Address,
        currency: &Address,
        currency_amount: i128,
        rate: &Rate,
        now: u32,
    ) -> (r: Result<Joined, PokerTableError>)
        requires
            old(self)@.wf(),
            old(self)@.tables.contains_key(table_id) && converts(currency_amount, *rate) ==> old(self)@.funds(table_id)
                + worth(currency_amount, *rate) <= i128::MAX,
        ensures
            match old(self)@.currency_refusal(
                table_id,
                *player,
                *currency,
                currency_amount,
                *rate,
                matches_of(old(self)@.tables[table_id].players@, *player).contains(true),
                queue_matches(old(self)@.queue_of(table_id), *player).contains(true),
            ) {
                Some(e) => r == Err::<Joined, _>(e) && final(self)@ == old(self)@,
                None => {
                    let base = worth(currency_amount, *rate) as i128;
                    &&& r == Ok::<_, PokerTableError>(
                        (Joined {
                            transfer: Transfer {
                                token: *currency,
                                from: Party::Wallet(*player),
                                to: Party::This,
                                amount: currency_amount,
                            },
                            ..old(self)@.join_answer(table_id, *player, base)
                        }),
                    )
                    &&& old(self)@.joined(final(self)@, table_id, *player, base, now)
                },
            },
            final(self)@.wf(),
    {
        match self.open_to_play(table_id) {
            Ok(_) => {},
            Err(e) => {
                return Err(e);
            },
        }
        let base: i128 = match self.currencies.convert_to_base_token(
            table_id,
            currency,
            currency_amount,
            rate,
        ) {
            Ok(x) => x,
            Err(e) => {
                return Err(e);
            },
        };
        match self.get_table(table_id) {
            Ok(t) => {
                if base < t.config.min_buy_in || base > t.config.max_buy_in {
                    return Err(PokerTableError::InvalidBuyIn);
                }
            },
            Err(e) => {
                return Err(e);
            },
        }
        let transfer = Transfer {
            token: *currency,
            from: Party::Wallet(*player),
            to: Party::This,
            amount: currency_amount,
        };
        match self.join_table(env, table_id, player, base, now) {
            Ok(j) => Ok(Joined { position: j.position, queued: j.queued, transfer }),
            Err(e) => Err(e),
        }
    }

    /// What a seated player has deposited in this session, and how often they have rebought.
    pub fn get_player_buy_in(&self, env: &Env, table_id: u32, player: &Address) -> (r: Result<
        (i128, u32),
        PokerTableError,
    >)
        ensures
            ({
                let ps = self@.tables[table_id].players@;
                let seat = first_mark(matches_of(ps, *player));
                r == (if !self@.tables.contains_key(table_id) {
                    Err(PokerTableError::TableNotFound)
                } else if seat >= ps.len() {
                    Err(PokerTableError::PlayerNotAtTable)
                } else {
                    Ok((ps[seat].total_buy_in, ps[seat].rebuy_count))
                })
            }),
    {
        match self.get_table(table_id) {
            Ok(t) => {
                let marks = find_matches(env, &t.players, player);
                let seat: usize = first_marked(&marks);
                if seat >= t.players.len() {
                    return Err(PokerTableError::PlayerNotAtTable);
                }
                Ok((t.players[seat].total_buy_in, t.players[seat].rebuy_count))
            },
            Err(e) => Err(e),
        }
    }

    /// The number of seated players.
    pub fn get_player_count(&self, table_id: u32) -> (r: Result<u32, PokerTableError>)
        requires
            self@.wf(),
        ensures
            r == (if self@.tables.contains_key(table_id) {
                Ok(self@.tables[table_id].players@.len() as u32)
            } else {
                Err(PokerTableError::TableNotFound)
            }),
    {
        match self.get_table(table_id) {
            Ok(t) => Ok(t.players.len() as u32),
            Err(e) => Err(e),
        }
    }

    /// At most `limit` players from the seat `offset` on.
    pub fn get_players_paginated(&self, table_id: u32, offset: u32, limit: u32) -> (r: Result<
        Vec<PlayerState>,
        PokerTableError,
    >)
        requires
            self@.wf(),
        ensures
            match r {
                Err(e) => e == PokerTableError::TableNotFound && !self@.tables.contains_key(
                    table_id,
                ),
                Ok(v) => {
                    let ps = self@.tables[table_id].players@;
                    &&& self@.tables.contains_key(table_id)
                    &&& v@ == (if offset >= ps.len() {
                        Seq::empty()
                    } else if offset + limit >= ps.len() {
                        ps.skip(offset as int)
                    } else {
                        ps.subrange(offset as int, offset + limit)
                    })
                },
            },
            r matches Ok(v) ==> v@.len() <= limit && forall|i: int|
                0 <= i < v@.len() ==> #[trigger] v@[i] == self@.tables[table_id].players@[offset
                    + i],
            r matches Ok(v) ==> v@.len() < limit && offset <= self@.tables[table_id].players@.len()
                ==> v@.len() == self@.tables[table_id].players@.len() - offset,
    {
        let t = match self.get_table(table_id) {
            Ok(t) => t,
            Err(e) => {
                return Err(e);
            },
        };
        let total: u32 = t.players.len() as u32;
        let mut out: Vec<PlayerState> = Vec::new();
        if offset >= total || limit == 0 {
            proof {
                let ps = t.players@;
                if offset < ps.len() {
                    assert(ps.subrange(offset as int, offset + limit) =~= Seq::empty());
                }
            }
            return Ok(out);
        }
        let sum: u32 = offset.saturating_add(limit);
        let end: u32 = if sum < total {
            sum
        } else {
            total
        };
        let mut i: u32 = offset;
        while i < end
            invariant
                offset <= i <= end <= t.players@.len(),
                out@ == t.players@.subrange(offset as int, i as int),
            decreases end - i,
        {
            out.push(t.players[i as usize]);
            assert(t.players@.subrange(offset as int, i + 1) =~= t.players@.subrange(
                offset as int,
                i as int,
            ).push(t.players@[i as int]));
            i += 1;
        }
        assert(t.players@.skip(offset as int) =~= t.players@.subrange(
            offset as int,
            t.players@.len() as int,
        ));
        Ok(out)
    }
}

/// The transfer of a refund, where there is anything to refund.
pub open spec fn refund_transfer(token: Address, player: Address, amount: i128) -> Option<Transfer> {
    if amount > 0 {
        Some(Transfer { token, from: Party::This, to: Party::Wallet(player), amount })
    } else {
        None
    }
}

proof fn lemma_sum_nonneg(queue: Seq<QueueEntry>)
    requires
        queue_wf(queue),
    ensures
        sum_by(queue, paid_in()) >= 0,
    decreases queue.len(),
{
    if queue.len() > 0 {
        let d = queue.drop_last();
        assert forall|i: int| 0 <= i < d.len() implies (#[trigger] d[i]).buy_in >= 0 by {
            assert(d[i] == queue[i]);
        }
        lemma_sum_nonneg(d);
        assert(queue[queue.len() - 1].buy_in >= 0);
    }
}

/// The chips of a table and each of its stacks are within what is held for it.
proof fn lemma_funds_bounds(st: ContractView, table_id: u32)
    requires
        st.wf(),
        st.tables.contains_key(table_id),
    ensures
        0 <= st.tables[table_id].hand().chips() <= st.funds(table_id),
        forall|i: int|
            0 <= i < st.tables[table_id].players@.len() ==> 0
                <= (#[trigger] st.tables[table_id].players@[i]).stack
                <= st.tables[table_id].hand().chips(),
{
    let t = st.tables[table_id];
    lemma_sum_nonneg(st.queue_of(table_id));
    crate::poker_table::game::lemma_stack_bounds(t.players@, 0);
    assert forall|i: int| 0 <= i < t.players@.len() implies 0 <= (#[trigger] t.players@[i]).stack
        <= t.hand().chips() by {
        crate::poker_table::game::lemma_stack_bounds(t.players@, i);
    }
}

/// Changing the queue of a table keeps everything well-formed if the new queue is.
proof fn lemma_queue_changed(st: ContractView, n: ContractView, table_id: u32, q: Seq<QueueEntry>)
    requires
        st.wf(),
        queue_wf(q),
        st.tables.contains_key(table_id) || st.queues.contains_key(table_id),
        n == (ContractView { queues: st.queues.insert(table_id, q), ..st }),
        st.tables.contains_key(table_id) ==> st.tables[table_id].hand().chips() + sum_by(
            q,
            paid_in(),
        ) <= i128::MAX,
    ensures
        n.wf(),
        n.funds(table_id) == st.funds(table_id) - sum_by(st.queue_of(table_id), paid_in())
            + sum_by(q, paid_in()),
{
    assert forall|id: u32| #[trigger] n.tables.contains_key(id) implies n.funds(id)
        <= i128::MAX by {
        assert(st.tables.contains_key(id));
        if id != table_id {
            assert(n.queue_of(id) == st.queue_of(id));
        }
    }
    assert forall|id: u32| #[trigger] n.queues.contains_key(id) implies queue_wf(n.queues[id])
        && id < n.next_id by {
        if id != table_id {
            assert(st.queues.contains_key(id));
        }
    }
}

/// A player may join an open table that is waiting, for a buy-in within its limits, unless they are
/// banned from it or sit there already; where the table is full they may queue, once, while fewer
/// than twelve wait. Every such request is granted.
pub proof fn joining_is_open_to_newcomers(
    st: ContractView,
    table_id: u32,
    player: Address,
    buy_in: i128,
    at_table: bool,
    in_queue: bool,
)
    ensures
        st.join_refusal(table_id, player, buy_in, at_table, in_queue) is None <==> {
            let t = st.tables[table_id];
            let free = t.players@.len() < t.config.max_players;
            &&& !(st.paused.contains_key(table_id) && st.paused[table_id])
            &&& !listed(bans_of(st.bans, table_id), player)
            &&& st.tables.contains_key(table_id)
            &&& t.phase is Waiting
            &&& t.config.min_buy_in <= buy_in <= t.config.max_buy_in
            &&& !at_table
            &&& free || (!in_queue && st.queue_of(table_id).len() < 12)
        },
{
}

/// A player who joins pays the buy-in and has it in front of them, in the next seat; where the table
/// is full they wait at the end of the queue with it. Nobody else is touched.
pub proof fn joining_seats_or_queues(
    st: ContractView,
    next: ContractView,
    table_id: u32,
    player: Address,
    buy_in: i128,
    now: u32,
    other: u32,
)
    requires
        st.wf(),
        st.tables.contains_key(table_id),
        st.joined(next, table_id, player, buy_in, now),
        other != table_id,
    ensures
        ({
            let t = st.tables[table_id];
            let u = next.tables[table_id];
            let n = t.players@.len() as int;
            let answer = st.join_answer(table_id, player, buy_in);
            &&& n < t.config.max_players ==> {
                &&& u.players@.len() == n + 1
                &&& forall|i: int| 0 <= i < n ==> #[trigger] u.players@[i] == t.players@[i]
                &&& u.players@[n].address == player && u.players@[n].stack == buy_in
                    && u.players@[n].total_buy_in == buy_in && u.players@[n].seat_index == n
                    && u.players@[n].committed == 0 && !u.players@[n].folded
                &&& u.pot == t.pot && u.phase == t.phase
                &&& next.queues == st.queues
                &&& !answer.queued && answer.position == n
            }
            &&& n >= t.config.max_players ==> {
                &&& u == t
                &&& next.queue_of(table_id).len() == st.queue_of(table_id).len() + 1
                &&& next.queue_of(table_id).last().player == player
                &&& next.queue_of(table_id).last().buy_in == buy_in
                &&& answer.queued && answer.position == st.queue_of(table_id).len()
            }
            &&& answer.transfer.amount == buy_in && answer.transfer.from == Party::Wallet(player)
                && answer.transfer.to == Party::This && answer.transfer.token == t.config.token
            &&& next.tables[other] == st.tables[other] && next.queue_of(other) == st.queue_of(
                other,
            )
        }),
{
    assert(table_wf(st.tables[table_id]));
    assert(st.queues.contains_key(table_id) ==> queue_wf(st.queues[table_id]));
}

/// A player may leave an open table between hands.
pub proof fn leaving_is_open_between_hands(st: ContractView, table_id: u32, at_table: bool)
    ensures
        st.leave_refusal(table_id, at_table) is None <==> {
            let t = st.tables[table_id];
            &&& !(st.paused.contains_key(table_id) && st.paused[table_id])
            &&& st.tables.contains_key(table_id)
            &&& t.phase is Waiting || t.phase is Settlement
            &&& at_table
        },
{
}

/// When the player in seat `k` leaves, the others move up in their order with all that is theirs, and
/// the first in the queue takes the last seat with their buy-in.
pub proof fn leaving_makes_room(
    st: ContractView,
    next: ContractView,
    table_id: u32,
    player: Address,
    marks: Seq<bool>,
    k: int,
    i: int,
)
    requires
        st.wf(),
        st.tables.contains_key(table_id),
        marks.len() == st.tables[table_id].players@.len(),
        0 <= k < marks.len(),
        forall|j: int| 0 <= j < marks.len() ==> (#[trigger] marks[j] <==> j == k),
        st.left(next, table_id, player, marks),
        0 <= i < st.tables[table_id].players@.len() - 1,
    ensures
        ({
            let t = st.tables[table_id];
            let u = next.tables[table_id];
            let n = t.players@.len();
            let p = t.players@[if i < k {
                i
            } else {
                i + 1
            }];
            let q = u.players@[i];
            let queue = st.queue_of(table_id);
            &&& q.address == p.address && q.stack == p.stack && q.committed == p.committed
                && q.total_buy_in == p.total_buy_in && q.rebuy_count == p.rebuy_count
                && q.seat_index == i
            &&& u.pot == t.pot && u.rake_balance == t.rake_balance && u.jackpot_balance
                == t.jackpot_balance && u.phase == t.phase
            &&& queue.len() == 0 ==> u.players@.len() == n - 1
            &&& queue.len() > 0 ==> u.players@.len() == n && u.players@[n - 1].address
                == queue[0].player && u.players@[n - 1].stack == queue[0].buy_in
                && next.queue_of(table_id) == queue.skip(1)
        }),
{
    let t = st.tables[table_id];
    assert(table_wf(t));
    leaving_takes_the_own_stack(t.config.token, player, t.players@, marks, k);
}

/// Someone may leave the queue of an open table while they are in it, and gets back what they paid.
pub proof fn leaving_the_queue_pays_back(
    st: ContractView,
    table_id: u32,
    player: Address,
    marks: Seq<bool>,
    k: int,
)
    requires
        st.tables.contains_key(table_id),
        marks.len() == st.queue_of(table_id).len(),
        0 <= k < marks.len(),
        forall|j: int| 0 <= j < marks.len() ==> (#[trigger] marks[j] <==> j == k),
    ensures
        st.queue_refusal(table_id, marks) is None <==> !(st.paused.contains_key(table_id)
            && st.paused[table_id]),
        st.queue_left(table_id, marks).queue_of(table_id) == st.queue_of(table_id).remove(k),
        st.queue_left(table_id, marks).tables == st.tables,
        ({
            let entry = st.queue_of(table_id)[k];
            refund_transfer(
                st.tables[table_id].config.token,
                player,
                marked_buy_in(st.queue_of(table_id), marks),
            ) matches Some(t) ==> t.amount == entry.buy_in && t.to == Party::Wallet(player)
                && t.from == Party::This
        }),
        st.queue_of(table_id)[k].buy_in > 0 ==> refund_transfer(
            st.tables[table_id].config.token,
            player,
            marked_buy_in(st.queue_of(table_id), marks),
        ) is Some,
{
    stepping_out_returns_the_buy_in(st.queue_of(table_id), marks, k);
    assert(marks[k]);
    assert(marks.contains(true));
}

/// A buy-in in another currency is judged by what it is worth: that is what counts against the
/// limits of the table. The currency must be listed for the table.
pub proof fn currencies_count_by_their_worth(
    st: ContractView,
    table_id: u32,
    player: Address,
    currency: Address,
    amount: i128,
    rate: Rate,
    at_table: bool,
    in_queue: bool,
)
    requires
        converts(amount, rate),
        worth(amount, rate) <= i128::MAX,
    ensures
        st.currency_refusal(table_id, player, currency, amount, rate, at_table, in_queue) is None
            <==> accepted(st.currencies, table_id, currency) && st.join_refusal(
            table_id,
            player,
            worth(amount, rate) as i128,
            at_table,
            in_queue,
        ) is None,
{
    amounts_convert_at_the_rate(amount, amount, rate);
}

/// A player who cannot join is told why: the table is paused, gone or not waiting, they are banned,
/// the buy-in is outside the limits, they sit or wait there already, or the queue is full.
pub proof fn joining_is_refused_for_a_reason(
    st: ContractView,
    table_id: u32,
    player: Address,
    buy_in: i128,
    at_table: bool,
    in_queue: bool,
)
    ensures
        ({
            let r = st.join_refusal(table_id, player, buy_in, at_table, in_queue);
            let t = st.tables[table_id];
            &&& r == Some(PokerTableError::ContractPaused)
                ==> st.paused.contains_key(table_id) && st.paused[table_id]
            &&& r == Some(PokerTableError::PlayerNotAtTable)
                ==> listed(bans_of(st.bans, table_id), player)
            &&& r == Some(PokerTableError::TableNotFound) ==> !st.tables.contains_key(table_id)
            &&& r == Some(PokerTableError::TableNotAcceptingPlayers) ==> !(t.phase is Waiting)
            &&& r == Some(PokerTableError::InvalidBuyIn)
                ==> !(t.config.min_buy_in <= buy_in <= t.config.max_buy_in)
            &&& r == Some(PokerTableError::AlreadySeated) ==> at_table
            &&& r == Some(PokerTableError::QueueFull)
                ==> t.players@.len() >= t.config.max_players && st.queue_of(
                table_id,
            ).len() >= 12
            &&& r == Some(PokerTableError::AlreadyQueued)
                ==> t.players@.len() >= t.config.max_players && in_queue
        }),
{
}

/// A player who cannot leave is told why.
pub proof fn leaving_is_refused_for_a_reason(
    st: ContractView,
    table_id: u32,
    at_table: bool,
)
    ensures
        ({
            let r = st.leave_refusal(table_id, at_table);
            let t = st.tables[table_id];
            &&& r == Some(PokerTableError::ContractPaused)
                ==> st.paused.contains_key(table_id) && st.paused[table_id]
            &&& r == Some(PokerTableError::TableNotFound) ==> !st.tables.contains_key(table_id)
            &&& r == Some(PokerTableError::CannotLeaveDuringActiveHand)
                ==> !(t.phase is Waiting || t.phase is Settlement)
            &&& r == Some(PokerTableError::PlayerNotAtTable) ==> !at_table
        }),
{
}

/// A newcomer gets a time bank where the table has one configured and they have none yet; a bank that
/// is there stays, and nobody else's is touched.
pub proof fn newcomers_get_a_time_bank(
    banks: TimeBanksView,
    table_id: u32,
    player: Address,
    now: u32,
    other: SeatKey,
)
    requires
        other != (SeatKey { table_id, player }),
    ensures
        ({
            let n = with_reserve(banks, table_id, player, now);
            let k = SeatKey { table_id, player };
            let cfg = banks.configs[table_id];
            &&& n.configs == banks.configs
            &&& banks.banks.contains_key(k) ==> n.banks[k] == banks.banks[k]
            &&& !banks.banks.contains_key(k) && banks.configs.contains_key(table_id)
                && cfg.max_seconds > 0 && cfg.extension_seconds > 0 ==> n.banks.contains_key(k)
                && n.banks[k].remaining_seconds == cfg.initial_seconds
            &&& n.banks.contains_key(other) == banks.banks.contains_key(other)
            &&& n.banks[other] == banks.banks[other]
        }),
{
}

} // verus!
