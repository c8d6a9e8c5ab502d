//! Players who are banned from a table.

use crate::assoc::{value_or, AssocMap};
use crate::host::{Address, Bytes32, Symbol};
use crate::seqs::Dup;
use vstd::prelude::*;

verus! {

/// A ban and its reason.
#[derive(Clone, Copy, Debug, PartialEq, Eq, Structural)]
pub struct Ban {
    pub player: Address,
    pub reason: Symbol,
}

/// The order of 32-byte values, as of their bytes.
pub open spec fn bytes32_lt(a: Bytes32, b: Bytes32) -> bool {
    ||| a.w0 < b.w0
    ||| a.w0 == b.w0 && a.w1 < b.w1
    ||| a.w0 == b.w0 && a.w1 == b.w1 && a.w2 < b.w2
    ||| a.w0 == b.w0 && a.w1 == b.w1 && a.w2 == b.w2 && a.w3 < b.w3
}

/// The order of addresses: accounts before contracts, then by their bytes.
pub open spec fn address_lt(a: Address, b: Address) -> bool {
    match (a, b) {
        (Address::Account(_), Address::Contract(_)) => true,
        (Address::Contract(_), Address::Account(_)) => false,
        _ => bytes32_lt(a.id(), b.id()),
    }
}

fn bytes32_before(a: &Bytes32, b: &Bytes32) -> (r: bool)
    ensures
        r == bytes32_lt(*a, *b),
{
    a.w0 < b.w0 || (a.w0 == b.w0 && (a.w1 < b.w1 || (a.w1 == b.w1 && (a.w2 < b.w2 || (a.w2 == b.w2
        && a.w3 < b.w3)))))
}

fn address_before(a: &Address, b: &Address) -> (r: bool)
    ensures
        r == address_lt(*a, *b),
{
    match (a, b) {
        (Address::Account(_), Address::Contract(_)) => true,
        (Address::Contract(_), Address::Account(_)) => false,
        (Address::Account(x), Address::Account(y)) => bytes32_before(x, y),
        (Address::Contract(x), Address::Contract(y)) => bytes32_before(x, y),
    }
}

/// The bans are in the order of the players, none of them twice.
pub open spec fn in_order(bans: Seq<Ban>) -> bool {
    forall|i: int, j: int|
        0 <= i < j < bans.len() ==> address_lt(
            (#[trigger] bans[i]).player,
            (#[trigger] bans[j]).player,
        )
}

/// Whether a player is among the bans.
pub open spec fn listed(bans: Seq<Ban>, player: Address) -> bool {
    exists|i: int| 0 <= i < bans.len() && (#[trigger] bans[i]).player == player
}

/// Whether `after` is `before` with the ban of one player set to `reason`, or lifted.
pub open spec fn ban_set(before: Seq<Ban>, after: Seq<Ban>, player: Address, reason: Option<Symbol>) -> bool {
    forall|b: Ban| #[trigger]
        after.contains(b) <==> (b.player != player && before.contains(b)) || (b.player == player
            && reason == Some(b.reason))
}

/// The bans of all tables.
pub struct BanList {
    bans: AssocMap<u32, Vec<Ban>>,
}

impl View for BanList {
    type V = Map<u32, Seq<Ban>>;

    closed spec fn view(&self) -> Map<u32, Seq<Ban>> {
        self.bans@
    }
}

/// The bans of one table.
pub open spec fn bans_of(bans: Map<u32, Seq<Ban>>, table_id: u32) -> Seq<Ban> {
    value_or(bans, table_id, Seq::empty())
}

/// Every table lists its bans in order.
pub open spec fn wf(bans: Map<u32, Seq<Ban>>) -> bool {
    forall|id: u32| #[trigger] bans.contains_key(id) ==> in_order(bans[id])
}

impl BanList {
    /// No bans.
    pub fn new() -> (r: Self)
        ensures
            r@ == Map::<u32, Seq<Ban>>::empty(),
            wf(r@),
    {
        BanList { bans: AssocMap::new() }
    }

    /// The first place in the list that is not before `player`.
    fn place(list: &Vec<Ban>, player: &Address) -> (r: usize)
        requires
            in_order(list@),
        ensures
            r <= list@.len(),
            forall|i: int| 0 <= i < r ==> address_lt((#[trigger] list@[i]).player, *player),
            r < list@.len() ==> !address_lt(list@[r as int].player, *player),
    {
        let mut i: usize = 0;
        while i < list.len()
            invariant
                i <= list@.len(),
                forall|j: int| 0 <= j < i ==> address_lt((#[trigger] list@[j]).player, *player),
            decreases list@.len() - i,
        {
            if !address_before(&list[i].player, player) {
                return i;
            }
            i += 1;
        }
        i
    }

    /// Bans a player from a table, or changes the reason of the ban.
    pub fn ban_player(&mut self, table_id: u32, player: Address, reason: Symbol)
        requires
            wf(old(self)@),
        ensures
            wf(final(self)@),
            final(self)@ == old(self)@.insert(table_id, final(self)@[table_id]),
            ban_set(
                bans_of(old(self)@, table_id),
                bans_of(final(self)@, table_id),
                player,
                Some(reason),
            ),
    {
        let mut list = self.get_banned_players(table_id);
        let ghost s0 = list@;
        let k: usize = Self::place(&list, &player);
        let ban = Ban { player, reason };
        if k < list.len() && list[k].player == player {
            list.set(k, ban);
            proof {
                lemma_replace(s0, list@, k as int, ban);
            }
        } else {
            list.insert(k, ban);
            proof {
                lemma_insert(s0, list@, k as int, ban);
            }
        }
        self.bans.insert(table_id, list);
        assert(self@ =~= old(self)@.insert(table_id, self@[table_id]));
    }

    /// Lifts the ban of a player.
    pub fn unban_player(&mut self, table_id: u32, player: &Address)
        requires
            wf(old(self)@),
        ensures
            wf(final(self)@),
            final(self)@ == old(self)@.insert(table_id, final(self)@[table_id]),
            ban_set(
                bans_of(old(self)@, table_id),
                bans_of(final(self)@, table_id),
                *player,
                None,
            ),
    {
        let mut list = self.get_banned_players(table_id);
        let ghost s0 = list@;
        let k: usize = Self::place(&list, player);
        if k < list.len() && list[k].player == *player {
            let _ = list.remove(k);
            proof {
                lemma_remove(s0, list@, k as int, *player);
            }
        } else {
            proof {
                lemma_absent(s0, k as int, *player);
            }
        }
        self.bans.insert(table_id, list);
        assert(self@ =~= old(self)@.insert(table_id, self@[table_id]));
    }

    /// Whether a player is banned from a table.
    pub fn is_banned(&self, table_id: u32, player: &Address) -> (r: bool)
        requires
            wf(self@),
        ensures
            r == listed(bans_of(self@, table_id), *player),
    {
        let list = self.get_banned_players(table_id);
        let k: usize = Self::place(&list, player);
        if k < list.len() && list[k].player == *player {
            assert(list@[k as int].player == *player);
            true
        } else {
            proof {
                lemma_absent(list@, k as int, *player);
            }
            false
        }
    }

    /// The bans of a table, in the order of the players.
    pub fn get_banned_players(&self, table_id: u32) -> (r: Vec<Ban>)
        ensures
            r@ == bans_of(self@, table_id),
            wf(self@) ==> in_order(r@),
    {
        match self.bans.get(&table_id) {
            Some(v) => v.dup(),
            None => Vec::new(),
        }
    }
}

/// Nobody is banned from all tables at once.
pub fn is_player_banned(_player: &Address) -> (r: bool)
    ensures
        !r,
{
    false
}

/// There are no bans that hold for all tables at once.
pub fn get_banned_players_map() -> (r: Vec<Ban>)
    ensures
        r@.len() == 0,
{
    Vec::new()
}

proof fn lemma_order_total(a: Address, b: Address, c: Address)
    ensures
        address_lt(a, b) || address_lt(b, a) || a == b,
        !(address_lt(a, b) && address_lt(b, a)),
        !address_lt(a, a),
        address_lt(a, b) && address_lt(b, c) ==> address_lt(a, c),
{
}

proof fn lemma_absent(s: Seq<Ban>, k: int, player: Address)
    requires
        in_order(s),
        0 <= k <= s.len(),
        forall|i: int| 0 <= i < k ==> address_lt((#[trigger] s[i]).player, player),
        k < s.len() ==> !address_lt(s[k].player, player) && s[k].player != player,
    ensures
        forall|i: int| 0 <= i < s.len() ==> (#[trigger] s[i]).player != player,
        !listed(s, player),
        ban_set(s, s, player, None),
        forall|i: int| k <= i < s.len() ==> address_lt(player, (#[trigger] s[i]).player),
{
    assert forall|i: int| k <= i < s.len() implies address_lt(player, (#[trigger] s[i]).player) by {
        lemma_order_total(player, s[k].player, s[i].player);
        if i > k {
            assert(address_lt(s[k].player, s[i].player));
        }
    }
    assert forall|i: int| 0 <= i < s.len() implies (#[trigger] s[i]).player != player by {
        lemma_order_total(player, player, player);
        if i < k {
            assert(address_lt(s[i].player, player));
        }
    }
    assert forall|b: Ban| #[trigger] s.contains(b) <==> (b.player != player && s.contains(b)) || (
    b.player == player && None::<Symbol> == Some(b.reason)) by {
        if s.contains(b) {
            let i = choose|i: int| 0 <= i < s.len() && s[i] == b;
            assert(s[i].player != player);
        }
    }
}

proof fn lemma_insert(s: Seq<Ban>, t: Seq<Ban>, k: int, ban: Ban)
    requires
        in_order(s),
        0 <= k <= s.len(),
        t == s.insert(k, ban),
        forall|i: int| 0 <= i < k ==> address_lt((#[trigger] s[i]).player, ban.player),
        k < s.len() ==> !address_lt(s[k].player, ban.player) && s[k].player != ban.player,
    ensures
        in_order(t),
        ban_set(s, t, ban.player, Some(ban.reason)),
{
    lemma_absent(s, k, ban.player);
    assert(t[k] == ban);
    assert forall|i: int, j: int| 0 <= i < j < t.len() implies address_lt(
        (#[trigger] t[i]).player,
        (#[trigger] t[j]).player,
    ) by {
        let si = if i < k {
            i
        } else {
            i - 1
        };
        let sj = if j < k {
            j
        } else {
            j - 1
        };
        if i != k {
            assert(t[i] == s[si]);
        }
        if j != k {
            assert(t[j] == s[sj]);
        }
    }
    assert forall|b: Ban| #[trigger]
        t.contains(b) <==> (b.player != ban.player && s.contains(b)) || (b.player == ban.player
            && Some(ban.reason) == Some(b.reason)) by {
        if t.contains(b) {
            let i = choose|i: int| 0 <= i < t.len() && t[i] == b;
            if i < k {
                assert(s[i] == b);
                assert(s[i].player != ban.player);
            } else if i > k {
                assert(s[i - 1] == b);
                assert(s[i - 1].player != ban.player);
            }
        }
        if b.player != ban.player && s.contains(b) {
            let i = choose|i: int| 0 <= i < s.len() && s[i] == b;
            if i < k {
                assert(t[i] == b);
            } else {
                assert(t[i + 1] == b);
            }
        }
        if b.player == ban.player && ban.reason == b.reason {
            assert(t[k] == b);
        }
    }
}

proof fn lemma_replace(s: Seq<Ban>, t: Seq<Ban>, k: int, ban: Ban)
    requires
        in_order(s),
        0 <= k < s.len(),
        s[k].player == ban.player,
        t == s.update(k, ban),
    ensures
        in_order(t),
        ban_set(s, t, ban.player, Some(ban.reason)),
{
    assert forall|i: int, j: int| 0 <= i < j < t.len() implies address_lt(
        (#[trigger] t[i]).player,
        (#[trigger] t[j]).player,
    ) by {
        assert(t[i].player == s[i].player && t[j].player == s[j].player);
    }
    assert forall|b: Ban| #[trigger]
        t.contains(b) <==> (b.player != ban.player && s.contains(b)) || (b.player == ban.player
            && Some(ban.reason) == Some(b.reason)) by {
        if t.contains(b) {
            let i = choose|i: int| 0 <= i < t.len() && t[i] == b;
            if i != k {
                assert(s[i] == b);
                lemma_order_total(s[i].player, s[k].player, s[k].player);
                lemma_order_total(s[k].player, s[k].player, s[k].player);
                if i < k {
                    assert(address_lt(s[i].player, s[k].player));
                } else {
                    assert(address_lt(s[k].player, s[i].player));
                }
            }
        }
        if b.player != ban.player && s.contains(b) {
            let i = choose|i: int| 0 <= i < s.len() && s[i] == b;
            assert(t[i] == b);
        }
        if b.player == ban.player && ban.reason == b.reason {
            assert(t[k] == b);
        }
    }
}

proof fn lemma_remove(s: Seq<Ban>, t: Seq<Ban>, k: int, player: Address)
    requires
        in_order(s),
        0 <= k < s.len(),
        s[k].player == player,
        t == s.remove(k),
    ensures
        in_order(t),
        ban_set(s, t, player, None),
{
    assert forall|i: int, j: int| 0 <= i < j < t.len() implies address_lt(
        (#[trigger] t[i]).player,
        (#[trigger] t[j]).player,
    ) by {
        let si = if i < k {
            i
        } else {
            i + 1
        };
        let sj = if j < k {
            j
        } else {
            j + 1
        };
        assert(t[i] == s[si] && t[j] == s[sj]);
    }
    assert forall|b: Ban| #[trigger] t.contains(b) <==> (b.player != player && s.contains(b)) || (
    b.player == player && None::<Symbol> == Some(b.reason)) by {
        if t.contains(b) {
            let i = choose|i: int| 0 <= i < t.len() && t[i] == b;
            let si = if i < k {
                i
            } else {
                i + 1
            };
            assert(s[si] == b);
            lemma_order_total(s[si].player, s[k].player, s[k].player);
            if si < k {
                assert(address_lt(s[si].player, s[k].player));
            } else {
                assert(address_lt(s[k].player, s[si].player));
            }
            lemma_order_total(player, player, player);
        }
        if b.player != player && s.contains(b) {
            let i = choose|i: int| 0 <= i < s.len() && s[i] == b;
            if i < k {
                assert(t[i] == b);
            } else {
                assert(t[i - 1] == b);
            }
        }
    }
}

/// A banned player is banned until the ban is lifted, and a lifted ban is gone.
pub proof fn ban_then_listed(before: Seq<Ban>, after: Seq<Ban>, player: Address, reason: Symbol)
    requires
        ban_set(before, after, player, Some(reason)),
    ensures
        listed(after, player),
        forall|last: Seq<Ban>| #[trigger] ban_set(after, last, player, None) ==> !listed(last, player),
{
    let b = Ban { player, reason };
    assert(after.contains(b));
    let i = choose|i: int| 0 <= i < after.len() && after[i] == b;
    assert(after[i].player == player);
    assert forall|last: Seq<Ban>| #[trigger] ban_set(after, last, player, None) implies !listed(
        last,
        player,
    ) by {
        if listed(last, player) {
            let j = choose|j: int| 0 <= j < last.len() && (#[trigger] last[j]).player == player;
            assert(last.contains(last[j]));
        }
    }
}

/// Addresses are totally ordered: of two that differ one comes first, and the order carries over.
/// Accounts come before contracts.
pub proof fn addresses_are_in_order(a: Address, b: Address, c: Address)
    ensures
        a != b ==> (address_lt(a, b) <==> !address_lt(b, a)),
        !address_lt(a, a),
        address_lt(a, b) && address_lt(b, c) ==> address_lt(a, c),
        a is Account && b is Contract ==> address_lt(a, b),
{
}

/// A ban or its lifting concerns one player: for every other player it is as it was.
pub proof fn bans_are_separate(
    before: Seq<Ban>,
    after: Seq<Ban>,
    player: Address,
    reason: Option<Symbol>,
    other: Address,
)
    requires
        ban_set(before, after, player, reason),
        other != player,
    ensures
        listed(after, other) <==> listed(before, other),
        listed(after, player) <==> reason is Some,
{
    if listed(before, other) {
        let i = choose|i: int| 0 <= i < before.len() && (#[trigger] before[i]).player == other;
        assert(before.contains(before[i]));
        assert(after.contains(before[i]));
        let j = after.index_of(before[i]);
        assert(after[j].player == other);
    }
    if listed(after, other) {
        let i = choose|i: int| 0 <= i < after.len() && (#[trigger] after[i]).player == other;
        assert(after.contains(after[i]));
        assert(before.contains(after[i]));
        let j = before.index_of(after[i]);
        assert(before[j].player == other);
    }
    if listed(after, player) {
        let i = choose|i: int| 0 <= i < after.len() && (#[trigger] after[i]).player == player;
        assert(after.contains(after[i]));
    }
    if let Some(r) = reason {
        ban_then_listed(before, after, player, r);
    }
}

} // verus!
