//! The last hands of every table, in a ring of fixed size.

use crate::assoc::{value_or, AssocMap, Key};
use crate::poker_table::types::{
    Action, ActionKind, ActionRecord, HandHistoryMeta, HandRecord, HandRecordView, Payout,
    PlayerState, PokerTableError, TableState,
};
use crate::host::Address;
use crate::seqs::Dup;
use vstd::prelude::*;

verus! {

/// How many hands of a table are kept.
pub const HAND_HISTORY_CAPACITY: u32 = 16;

/// How many actions of a hand are kept.
pub const MAX_ACTIONS_PER_HAND: u32 = 64;

/// A slot in the ring of a table.
#[derive(Clone, Copy, Debug, PartialEq, Eq, Structural)]
pub struct SlotKey {
    pub table_id: u32,
    pub slot: u32,
}

impl Key for SlotKey {
    fn same(&self, other: &Self) -> (r: bool) {
        *self == *other
    }
}

/// The kind of an action.
pub open spec fn kind_of(action: Action) -> ActionKind {
    match action {
        Action::Fold => ActionKind::Fold,
        Action::Check => ActionKind::Check,
        Action::Call => ActionKind::Call,
        Action::Bet(_) => ActionKind::Bet,
        Action::Raise(_) => ActionKind::Raise,
        Action::AllIn => ActionKind::AllIn,
    }
}

/// The actions of a hand with one more, as far as they are kept.
pub open spec fn with_action(actions: Seq<ActionRecord>, a: ActionRecord) -> Seq<ActionRecord> {
    if actions.len() >= MAX_ACTIONS_PER_HAND {
        actions
    } else {
        actions.push(a)
    }
}

/// Notes an action of the current hand. Beyond the number that is kept, nothing is noted.
pub fn record_action(table: &mut TableState, seat: u32, action: &Action, amount: i128)
    ensures
        final(table).hand_actions@ == with_action(
            old(table).hand_actions@,
            ActionRecord { seat, phase: old(table).phase, kind: kind_of(*action), amount },
        ),
        *final(table) == (TableState { hand_actions: final(table).hand_actions, ..*old(table) }),
{
    if table.hand_actions.len() >= MAX_ACTIONS_PER_HAND as usize {
        return;
    }
    let kind = match action {
        Action::Fold => ActionKind::Fold,
        Action::Check => ActionKind::Check,
        Action::Call => ActionKind::Call,
        Action::Bet(_) => ActionKind::Bet,
        Action::Raise(_) => ActionKind::Raise,
        Action::AllIn => ActionKind::AllIn,
    };
    let record = ActionRecord { seat, phase: table.phase, kind, amount };
    table.hand_actions.push(record);
}

/// Forgets the actions of the current hand.
pub fn reset_actions(table: &mut TableState)
    ensures
        final(table).hand_actions@.len() == 0,
        *final(table) == (TableState { hand_actions: final(table).hand_actions, ..*old(table) }),
{
    table.hand_actions = Vec::new();
}

/// The addresses of the players.
pub open spec fn addresses_of(players: Seq<PlayerState>) -> Seq<Address> {
    Seq::new(players.len(), |i: int| players[i].address)
}

/// The payouts by seat, with the addresses of the seats.
pub open spec fn resolved(players: Seq<PlayerState>, payouts: Seq<(u32, i128)>) -> Seq<Payout> {
    Seq::new(
        payouts.len(),
        |i: int|
            Payout {
                seat: payouts[i].0,
                address: players[payouts[i].0 as int].address,
                amount: payouts[i].1,
            },
    )
}

/// Whether every payout goes to a seat at the table.
pub open spec fn seats_valid(players: Seq<PlayerState>, payouts: Seq<(u32, i128)>) -> bool {
    forall|i: int| 0 <= i < payouts.len() ==> (#[trigger] payouts[i]).0 < players.len()
}

/// The record of a settled hand.
pub open spec fn record_of(
    table: TableState,
    payouts: Seq<(u32, i128)>,
    total_pot: i128,
    rake: i128,
    showdown: bool,
    now: u32,
) -> HandRecordView {
    HandRecordView {
        hand_number: table.hand_number,
        players: addresses_of(table.players@),
        board: table.board_cards@,
        actions: table.hand_actions@,
        payouts: resolved(table.players@, payouts),
        total_pot,
        rake,
        showdown,
        settled_ledger: now,
    }
}

/// The slot that was filled `back` hands before the last one.
pub open spec fn slot_back(next_slot: u32, back: int) -> int {
    (next_slot + 15 - back) % 16
}

/// The rings of all tables.
#[verifier::ext_equal]
pub struct HistoryView {
    pub records: Map<SlotKey, HandRecordView>,
    pub metas: Map<u32, HandHistoryMeta>,
}

impl HistoryView {
    /// Where the ring of a table stands.
    pub open spec fn meta(self, table_id: u32) -> HandHistoryMeta {
        value_or(
            self.metas,
            table_id,
            HandHistoryMeta { next_slot: 0, stored: 0, total_archived: 0 },
        )
    }

    /// The hands of a table that are kept, newest first.
    pub open spec fn hands(self, table_id: u32) -> Seq<HandRecordView> {
        let m = self.meta(table_id);
        Seq::new(
            m.stored as nat,
            |i: int|
                self.records[SlotKey { table_id, slot: slot_back(m.next_slot, i) as u32 }],
        )
    }

    /// Every ring has as many filled slots as it says; it fills them in order and then starts
    /// over.
    pub open spec fn wf(self) -> bool {
        forall|id: u32|
            #![trigger self.meta(id)]
            {
                let m = self.meta(id);
                &&& m.stored <= 16
                &&& m.next_slot < 16
                &&& m.stored < 16 ==> m.next_slot == m.stored
                &&& forall|s: u32|
                    s < m.stored ==> #[trigger] self.records.contains_key(
                        SlotKey { table_id: id, slot: s },
                    )
            }
    }

    /// The rings with one more hand of a table.
    pub open spec fn archived(self, table_id: u32, record: HandRecordView) -> Self {
        let m = self.meta(table_id);
        HistoryView {
            records: self.records.insert(SlotKey { table_id, slot: m.next_slot }, record),
            metas: self.metas.insert(
                table_id,
                HandHistoryMeta {
                    next_slot: ((m.next_slot + 1) % 16) as u32,
                    stored: if m.stored < 16 {
                        (m.stored + 1) as u32
                    } else {
                        m.stored
                    },
                    total_archived: if m.total_archived == u32::MAX {
                        u32::MAX
                    } else {
                        (m.total_archived + 1) as u32
                    },
                },
            ),
        }
    }
}

/// The history of all tables.
pub struct HandHistory {
    records: AssocMap<SlotKey, HandRecord>,
    metas: AssocMap<u32, HandHistoryMeta>,
}

impl View for HandHistory {
    type V = HistoryView;

    closed spec fn view(&self) -> HistoryView {
        HistoryView { records: self.records@, metas: self.metas@ }
    }
}

impl HandHistory {
    /// No hands.
    pub fn new() -> (r: Self)
        ensures
            r@ == (HistoryView { records: Map::empty(), metas: Map::empty() }),
            r@.wf(),
    {
        HandHistory { records: AssocMap::new(), metas: AssocMap::new() }
    }

    /// Where the ring of a table stands.
    pub fn load_meta(&self, table_id: u32) -> (r: HandHistoryMeta)
        ensures
            r == self@.meta(table_id),
    {
        match self.metas.get(&table_id) {
            Some(m) => *m,
            None => HandHistoryMeta { next_slot: 0, stored: 0, total_archived: 0 },
        }
    }

    /// Keeps a settled hand at ledger `now`, in place of the oldest where the ring is full.
    pub fn archive_hand(
        &mut self,
        table: &TableState,
        payouts: &Vec<(u32, i128)>,
        total_pot: i128,
        rake: i128,
        showdown: bool,
        now: u32,
    ) -> (r: Result<(), PokerTableError>)
        requires
            old(self)@.wf(),
        ensures
            match r {
                Ok(_) => seats_valid(table.players@, payouts@) && final(self)@ == old(self)@.archived(
                    table.id,
                    record_of(*table, payouts@, total_pot, rake, showdown, now),
                ),
                Err(e) => e == PokerTableError::InvalidPlayerIndex && !seats_valid(
                    table.players@,
                    payouts@,
                ) && final(self)@ == old(self)@,
            },
            final(self)@.wf(),
    {
        let mut players: Vec<Address> = Vec::new();
        let ghost all = addresses_of(table.players@);
        let mut i: usize = 0;
        while i < table.players.len()
            invariant
                i <= table.players@.len(),
                all == addresses_of(table.players@),
                players@ == all.take(i as int),
            decreases table.players@.len() - i,
        {
            players.push(table.players[i].address);
            assert(all.take(i + 1) =~= all.take(i as int).push(all[i as int]));
            i += 1;
        }
        assert(players@ =~= all);
        let mut paid: Vec<Payout> = Vec::new();
        let ghost want = resolved(table.players@, payouts@);
        let mut j: usize = 0;
        while j < payouts.len()
            invariant
                j <= payouts@.len(),
                want == resolved(table.players@, payouts@),
                paid@ == want.take(j as int),
                forall|k: int| 0 <= k < j ==> (#[trigger] payouts@[k]).0 < table.players@.len(),
                self@ == old(self)@,
                old(self)@.wf(),
            decreases payouts@.len() - j,
        {
            let seat: u32 = payouts[j].0;
            let amount: i128 = payouts[j].1;
            if seat as usize >= table.players.len() {
                assert(payouts@[j as int].0 >= table.players@.len());
                return Err(PokerTableError::InvalidPlayerIndex);
            }
            let p = Payout { seat, address: table.players[seat as usize].address, amount };
            assert(p == want[j as int]);
            paid.push(p);
            assert(want.take(j + 1) =~= want.take(j as int).push(want[j as int]));
            j += 1;
        }
        assert(paid@ =~= want);
        let record = HandRecord {
            hand_number: table.hand_number,
            players,
            board: table.board_cards.dup(),
            actions: table.hand_actions.dup(),
            payouts: paid,
            total_pot,
            rake,
            showdown,
            settled_ledger: now,
        };
        let ghost view = record_of(*table, payouts@, total_pot, rake, showdown, now);
        assert(record@ =~= view);
        let meta = self.load_meta(table.id);
        self.records.insert(SlotKey { table_id: table.id, slot: meta.next_slot }, record);
        let next = HandHistoryMeta {
            next_slot: (meta.next_slot + 1) % HAND_HISTORY_CAPACITY,
            stored: if meta.stored < HAND_HISTORY_CAPACITY {
                meta.stored + 1
            } else {
                meta.stored
            },
            total_archived: meta.total_archived.saturating_add(1),
        };
        self.metas.insert(table.id, next);
        proof {
            archive_keeps_newest(old(self)@, table.id, view);
        }
        Ok(())
    }

    /// Copies `take` hands of a table, from `offset` hands before the last one backwards.
    fn copy_hands(&self, table_id: u32, offset: u32, take: u32) -> (r: Vec<HandRecord>)
        requires
            self@.wf(),
            offset + take <= self@.meta(table_id).stored,
        ensures
            r@.len() == take,
            forall|i: int| 0 <= i < take ==> (#[trigger] r@[i])@ == self@.hands(table_id)[offset + i],
    {
        let meta = self.load_meta(table_id);
        let mut out: Vec<HandRecord> = Vec::new();
        let mut k: u32 = 0;
        while k < take
            invariant
                k <= take,
                self@.wf(),
                meta == self@.meta(table_id),
                offset + take <= meta.stored,
                meta.stored <= 16,
                meta.next_slot < 16,
                out@.len() == k,
                forall|i: int|
                    0 <= i < k ==> (#[trigger] out@[i])@ == self@.hands(table_id)[offset + i],
            decreases take - k,
        {
            let slot: u32 = (meta.next_slot + HAND_HISTORY_CAPACITY - 1 - offset - k)
                % HAND_HISTORY_CAPACITY;
            proof {
                assert(slot == slot_back(meta.next_slot, offset + k));
                lemma_slot_filled(self@, table_id, offset + k);
            }
            let key = SlotKey { table_id, slot };
            let rec = self.records.get(&key).unwrap().dup();
            out.push(rec);
            k += 1;
        }
        out
    }

    /// Up to `limit` hands of a table, newest first; all of them where the limit is zero or more
    /// than there are.
    pub fn get_history(&self, table_id: u32, limit: u32) -> (r: Vec<HandRecord>)
        requires
            self@.wf(),
        ensures
            ({
                let all = self@.hands(table_id);
                let n = if limit == 0 || limit > all.len() {
                    all.len() as int
                } else {
                    limit as int
                };
                r@.len() == n && forall|i: int| 0 <= i < n ==> (#[trigger] r@[i])@ == all[i]
            }),
            limit == 0 ==> r@.len() == self@.meta(table_id).stored,
            limit > 0 ==> r@.len() <= limit,
    {
        let meta = self.load_meta(table_id);
        let take: u32 = if limit == 0 || limit > meta.stored {
            meta.stored
        } else {
            limit
        };
        self.copy_hands(table_id, 0, take)
    }

    /// Up to `limit` hands of a table, newest first, without the newest `offset`.
    pub fn get_history_chunk(&self, table_id: u32, offset: u32, limit: u32) -> (r: Vec<HandRecord>)
        requires
            self@.wf(),
        ensures
            ({
                let all = self@.hands(table_id);
                let n = if offset >= all.len() {
                    0
                } else if limit < all.len() - offset {
                    limit as int
                } else {
                    all.len() - offset
                };
                r@.len() == n && forall|i: int| 0 <= i < n ==> (#[trigger] r@[i])@ == all[offset
                    + i]
            }),
    {
        let meta = self.load_meta(table_id);
        if offset >= meta.stored {
            return Vec::new();
        }
        let left: u32 = meta.stored - offset;
        let take: u32 = if limit < left {
            limit
        } else {
            left
        };
        self.copy_hands(table_id, offset, take)
    }

    /// The hand of a table with a given number, where it is still kept.
    pub fn get_hand(&self, table_id: u32, hand_number: u32) -> (r: Option<HandRecord>)
        requires
            self@.wf(),
        ensures
            match r {
                Some(h) => exists|s: u32|
                    s < self@.meta(table_id).stored && h@ == self@.records[SlotKey {
                        table_id,
                        slot: s,
                    }] && h@.hand_number == hand_number && forall|q: u32|
                        q < s ==> (#[trigger] self@.records[SlotKey {
                            table_id,
                            slot: q,
                        }]).hand_number != hand_number,
                None => forall|s: u32|
                    s < self@.meta(table_id).stored ==> (#[trigger] self@.records[SlotKey {
                        table_id,
                        slot: s,
                    }]).hand_number != hand_number,
            },
    {
        let meta = self.load_meta(table_id);
        let mut slot: u32 = 0;
        while slot < meta.stored
            invariant
                slot <= meta.stored,
                self@.wf(),
                meta == self@.meta(table_id),
                forall|q: u32|
                    q < slot ==> (#[trigger] self@.records[SlotKey {
                        table_id,
                        slot: q,
                    }]).hand_number != hand_number,
            decreases meta.stored - slot,
        {
            let key = SlotKey { table_id, slot };
            assert(self@.records.contains_key(key));
            let rec = self.records.get(&key).unwrap();
            if rec.hand_number == hand_number {
                let found = rec.dup();
                assert(found@ == self@.records[SlotKey { table_id, slot }]);
                return Some(found);
            }
            slot += 1;
        }
        None
    }
}

proof fn lemma_slot_filled(st: HistoryView, table_id: u32, back: int)
    requires
        st.wf(),
        0 <= back < st.meta(table_id).stored,
    ensures
        ({
            let m = st.meta(table_id);
            let s = slot_back(m.next_slot, back);
            &&& 0 <= s < m.stored
            &&& st.records.contains_key(SlotKey { table_id, slot: s as u32 })
        }),
{
    let m = st.meta(table_id);
    let s = slot_back(m.next_slot, back);
    assert(0 <= s < m.stored);
    assert(st.records.contains_key(SlotKey { table_id, slot: s as u32 }));
}

/// A settled hand becomes the newest, the others follow in their order, and beyond the capacity
/// the oldest is gone. No other table is touched.
pub proof fn archive_keeps_newest(st: HistoryView, table_id: u32, record: HandRecordView)
    requires
        st.wf(),
    ensures
        st.archived(table_id, record).wf(),
        ({
            let before = st.hands(table_id);
            let after = st.archived(table_id, record).hands(table_id);
            &&& after.len() == (if before.len() < 16 {
                before.len() + 1
            } else {
                16
            })
            &&& after[0] == record
            &&& forall|i: int| 1 <= i < after.len() ==> #[trigger] after[i] == before[i - 1]
        }),
        forall|other: u32|
            other != table_id ==> #[trigger] st.archived(table_id, record).hands(other)
                == st.hands(other),
{
    let n = st.archived(table_id, record);
    let m = st.meta(table_id);
    let m2 = n.meta(table_id);
    assert forall|id: u32|
        #![trigger n.meta(id)]
        {
            let x = n.meta(id);
            &&& x.stored <= 16
            &&& x.next_slot < 16
            &&& x.stored < 16 ==> x.next_slot == x.stored
            &&& forall|s: u32|
                s < x.stored ==> #[trigger] n.records.contains_key(SlotKey { table_id: id, slot: s })
        } by {
        let y = st.meta(id);
        if id != table_id {
            assert(n.meta(id) == y);
        }
        assert forall|s: u32| s < n.meta(id).stored implies #[trigger] n.records.contains_key(
            SlotKey { table_id: id, slot: s },
        ) by {
            if s < y.stored {
                assert(st.records.contains_key(SlotKey { table_id: id, slot: s }));
            }
        }
    }
    let before = st.hands(table_id);
    let after = n.hands(table_id);
    assert(slot_back(m2.next_slot, 0) == m.next_slot);
    assert forall|i: int| 1 <= i < after.len() implies #[trigger] after[i] == before[i - 1] by {
        assert(slot_back(m2.next_slot, i) == slot_back(m.next_slot, i - 1));
        assert(slot_back(m.next_slot, i - 1) != m.next_slot);
    }
    assert forall|other: u32| other != table_id implies #[trigger] n.hands(other) == st.hands(
        other,
    ) by {
        assert(n.meta(other) == st.meta(other));
        assert(n.hands(other) =~= st.hands(other));
    }
}

/// Actions are kept in their order, up to sixty-four in a hand; later ones are not kept.
pub proof fn actions_are_kept_in_order(actions: Seq<ActionRecord>, a: ActionRecord)
    ensures
        actions.len() < 64 ==> with_action(actions, a).len() == actions.len() + 1 && with_action(
            actions,
            a,
        ).last() == a && forall|i: int|
            0 <= i < actions.len() ==> #[trigger] with_action(actions, a)[i] == actions[i],
        actions.len() >= 64 ==> with_action(actions, a) == actions,
{
}

/// A record says of a hand its number, who was at the table, the board, the actions, what was paid
/// to whom, the pot, the rake, whether there was a showdown, and when it was settled.
pub proof fn records_tell_the_hand(
    table: TableState,
    payouts: Seq<(u32, i128)>,
    total_pot: i128,
    rake: i128,
    showdown: bool,
    now: u32,
    i: int,
    k: int,
)
    requires
        seats_valid(table.players@, payouts),
        0 <= i < table.players@.len(),
        0 <= k < payouts.len(),
    ensures
        ({
            let r = record_of(table, payouts, total_pot, rake, showdown, now);
            &&& r.hand_number == table.hand_number && r.board == table.board_cards@ && r.actions
                == table.hand_actions@
            &&& r.players.len() == table.players@.len() && r.players[i]
                == table.players@[i].address
            &&& r.payouts.len() == payouts.len()
            &&& r.payouts[k].seat == payouts[k].0 && r.payouts[k].amount == payouts[k].1
                && r.payouts[k].address == table.players@[payouts[k].0 as int].address
            &&& r.total_pot == total_pot && r.rake == rake && r.showdown == showdown
                && r.settled_ledger == now
        }),
{
    assert(payouts[k].0 < table.players@.len());
}

/// Every archived hand is counted, also past those that are kept, and other tables are not.
pub proof fn archived_hands_are_counted(
    st: HistoryView,
    table_id: u32,
    other: u32,
    record: HandRecordView,
)
    requires
        other != table_id,
    ensures
        ({
            let n = st.archived(table_id, record);
            &&& st.meta(table_id).total_archived < u32::MAX ==> n.meta(table_id).total_archived
                == st.meta(table_id).total_archived + 1
            &&& n.meta(other) == st.meta(other)
        }),
{
}

/// An action is noted under its own kind.
pub proof fn actions_are_noted_by_kind(action: Action)
    ensures
        action is Fold <==> kind_of(action) is Fold,
        action is Check <==> kind_of(action) is Check,
        action is Call <==> kind_of(action) is Call,
        action is Bet <==> kind_of(action) is Bet,
        action is Raise <==> kind_of(action) is Raise,
        action is AllIn <==> kind_of(action) is AllIn,
{
}

} // verus!
