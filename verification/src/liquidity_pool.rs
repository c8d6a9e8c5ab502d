//! A bankroll shared across tables: deposits, per-table allocations, hand settlement and the
//! emergency release of funds held at an idle table.

use crate::assoc::{value_or, AssocMap, Key};
use crate::host::{Address, Party, Transfer};
use crate::seqs::{
    contains_item, copy_without, lemma_sum_agree, lemma_sum_bounds, lemma_sum_change,
    lemma_sum_push, lemma_sum_without, lemma_with_member, lemma_without, sum_by, with_member,
    without, Dup,
};
use vstd::prelude::*;

verus! {

/// Ledgers of inactivity after which locked funds can be reclaimed, unless set otherwise: about
/// a day at five seconds each.
pub const DEFAULT_EMERGENCY_TIMEOUT_LEDGERS: u32 = 17_280;

/// What a player holds in the pool in one token.
#[derive(Clone, Copy, Debug, PartialEq, Eq, Structural)]
pub struct PlayerBalance {
    pub total_deposited: i128,
    pub available_balance: i128,
    pub locked_balance: i128,
}

impl View for PlayerBalance {
    type V = PlayerBalance;

    open spec fn view(&self) -> PlayerBalance {
        *self
    }
}

impl Dup for PlayerBalance {
    fn dup(&self) -> (r: Self) {
        *self
    }
}

/// A player's allocation at one table.
#[derive(Clone, Copy, Debug, PartialEq, Eq, Structural)]
pub struct TableSubAllocation {
    pub table_id: u32,
    pub allocated_amount: i128,
    pub last_action_ledger: u32,
}

/// Why a request to the pool is refused.
#[derive(Clone, Copy, Debug, PartialEq, Eq, Structural)]
pub enum LiquidityPoolError {
    NotInitialized,
    AlreadyInitialized,
    Unauthorized,
    InsufficientAvailableBalance,
    InsufficientTableAllocation,
    InvalidAmount,
    TableNotFound,
    SettlementMismatch,
    EmergencyTimeoutNotElapsed,
}

/// A player's account in one token.
#[derive(Clone, Copy, Debug, PartialEq, Eq, Structural)]
pub struct AccountKey {
    pub player: Address,
    pub token: Address,
}

impl Key for AccountKey {
    fn same(&self, other: &Self) -> (r: bool) {
        *self == *other
    }
}

/// A player's stake at one table, in one token.
#[derive(Clone, Copy, Debug, PartialEq, Eq, Structural)]
pub struct AllocationKey {
    pub player: Address,
    pub token: Address,
    pub table_id: u32,
}

impl Key for AllocationKey {
    fn same(&self, other: &Self) -> (r: bool) {
        *self == *other
    }
}

/// A table, in one token.
#[derive(Clone, Copy, Debug, PartialEq, Eq, Structural)]
pub struct TableKey {
    pub token: Address,
    pub table_id: u32,
}

impl Key for TableKey {
    fn same(&self, other: &Self) -> (r: bool) {
        *self == *other
    }
}

/// The contents of the pool.
#[verifier::ext_equal]
pub struct PoolState {
    pub admin: Option<Address>,
    pub timeout: Option<u32>,
    pub authorized: Map<Address, bool>,
    pub balances: Map<AccountKey, PlayerBalance>,
    pub allocations: Map<AllocationKey, i128>,
    pub player_tables: Map<AccountKey, Seq<u32>>,
    pub table_players: Map<TableKey, Seq<Address>>,
    pub table_totals: Map<TableKey, i128>,
    pub last_activity: Map<u32, u32>,
}

/// A balance with nothing in it.
pub open spec fn empty_balance() -> PlayerBalance {
    PlayerBalance { total_deposited: 0, available_balance: 0, locked_balance: 0 }
}

impl PoolState {
    /// The balance of `player` in `token`.
    pub open spec fn balance(self, player: Address, token: Address) -> PlayerBalance {
        value_or(self.balances, AccountKey { player, token }, empty_balance())
    }

    /// What `player` has at the table.
    pub open spec fn allocation(self, player: Address, token: Address, table_id: u32) -> i128 {
        value_or(self.allocations, AllocationKey { player, token, table_id }, 0)
    }

    /// The tables at which `player` has something.
    pub open spec fn tables_of(self, player: Address, token: Address) -> Seq<u32> {
        value_or(self.player_tables, AccountKey { player, token }, Seq::empty())
    }

    /// The players who have something at the table.
    pub open spec fn players_at(self, token: Address, table_id: u32) -> Seq<Address> {
        value_or(self.table_players, TableKey { token, table_id }, Seq::empty())
    }

    /// What all players together have at the table.
    pub open spec fn table_total(self, token: Address, table_id: u32) -> i128 {
        value_or(self.table_totals, TableKey { token, table_id }, 0)
    }

    /// Whether `caller` may act for players: an authorized caller, or the administrator.
    pub open spec fn may_operate(self, caller: Address) -> bool {
        value_or(self.authorized, caller, false) || self.admin == Some(caller)
    }

    /// What a table of `player` holds, as a function of the table.
    pub open spec fn stake_at(self, player: Address, token: Address) -> spec_fn(u32) -> int {
        |id: u32| self.allocation(player, token, id) as int
    }

    /// What a player has at a table, as a function of the player.
    pub open spec fn stake_of(self, token: Address, table_id: u32) -> spec_fn(Address) -> int {
        |player: Address| self.allocation(player, token, table_id) as int
    }

    /// Every balance splits into an available and a locked part. The locked part is the sum of
    /// the player's allocations, each positive. The two indexes list exactly the allocations. The
    /// total of a table is the sum of what its players have there.
    pub open spec fn wf(self) -> bool {
        &&& forall|player: Address, token: Address|
            #![trigger self.balance(player, token)]
            {
                let b = self.balance(player, token);
                &&& b.total_deposited == b.available_balance + b.locked_balance
                &&& b.available_balance >= 0
                &&& b.locked_balance == sum_by(
                    self.tables_of(player, token),
                    self.stake_at(player, token),
                )
            }
        &&& forall|k: AllocationKey| #[trigger]
            self.allocations.contains_key(k) ==> self.allocations[k] > 0
        &&& forall|player: Address, token: Address|
            #![trigger self.tables_of(player, token)]
            self.tables_of(player, token).no_duplicates()
        &&& forall|token: Address, table_id: u32|
            #![trigger self.players_at(token, table_id)]
            self.players_at(token, table_id).no_duplicates()
        &&& forall|player: Address, token: Address, table_id: u32|
            #![trigger self.tables_of(player, token).contains(table_id)]
            self.tables_of(player, token).contains(table_id) <==> self.allocations.contains_key(
                AllocationKey { player, token, table_id },
            )
        &&& forall|player: Address, token: Address, table_id: u32|
            #![trigger self.players_at(token, table_id).contains(player)]
            self.players_at(token, table_id).contains(player) <==> self.allocations.contains_key(
                AllocationKey { player, token, table_id },
            )
        &&& forall|token: Address, table_id: u32|
            #![trigger self.table_total(token, table_id)]
            self.table_total(token, table_id) == sum_by(
                self.players_at(token, table_id),
                self.stake_of(token, table_id),
            )
    }

    /// The pool with `table_id` listed among the player's tables.
    pub open spec fn list_player_table(self, player: Address, token: Address, table_id: u32) -> Self {
        if self.tables_of(player, token).contains(table_id) {
            self
        } else {
            PoolState {
                player_tables: self.player_tables.insert(
                    AccountKey { player, token },
                    self.tables_of(player, token).push(table_id),
                ),
                ..self
            }
        }
    }

    /// The pool with `table_id` struck from the player's tables.
    pub open spec fn strike_player_table(
        self,
        player: Address,
        token: Address,
        table_id: u32,
    ) -> Self {
        PoolState {
            player_tables: self.player_tables.insert(
                AccountKey { player, token },
                without(self.tables_of(player, token), table_id),
            ),
            ..self
        }
    }

    /// The pool with `player` listed among the players of the table.
    pub open spec fn list_table_player(self, token: Address, table_id: u32, player: Address) -> Self {
        if self.players_at(token, table_id).contains(player) {
            self
        } else {
            PoolState {
                table_players: self.table_players.insert(
                    TableKey { token, table_id },
                    self.players_at(token, table_id).push(player),
                ),
                ..self
            }
        }
    }

    /// The pool with `player` struck from the players of the table.
    pub open spec fn strike_table_player(
        self,
        token: Address,
        table_id: u32,
        player: Address,
    ) -> Self {
        PoolState {
            table_players: self.table_players.insert(
                TableKey { token, table_id },
                without(self.players_at(token, table_id), player),
            ),
            ..self
        }
    }

    /// The pool with the player's allocation at the table set to `amount`. An allocation of zero
    /// leaves no entry and is in neither index; any other is in both.
    pub open spec fn with_allocation(
        self,
        player: Address,
        token: Address,
        table_id: u32,
        amount: i128,
    ) -> Self {
        let k = AllocationKey { player, token, table_id };
        if amount == 0 {
            PoolState { allocations: self.allocations.remove(k), ..self }.strike_player_table(
                player,
                token,
                table_id,
            ).strike_table_player(token, table_id, player)
        } else {
            PoolState {
                allocations: self.allocations.insert(k, amount),
                ..self
            }.list_player_table(player, token, table_id).list_table_player(token, table_id, player)
        }
    }

    /// The pool with the player's balance replaced.
    pub open spec fn with_balance(self, player: Address, token: Address, b: PlayerBalance) -> Self {
        PoolState { balances: self.balances.insert(AccountKey { player, token }, b), ..self }
    }

    /// The pool with the total of the table replaced.
    pub open spec fn with_table_total(self, token: Address, table_id: u32, total: i128) -> Self {
        PoolState { table_totals: self.table_totals.insert(TableKey { token, table_id }, total), ..self }
    }

    /// The pool with activity at the table noted at ledger `now`.
    pub open spec fn touched(self, table_id: u32, now: u32) -> Self {
        PoolState { last_activity: self.last_activity.insert(table_id, now), ..self }
    }

    /// `amount` added to what the player has deposited and can use.
    pub open spec fn deposited(self, player: Address, token: Address, amount: i128) -> Self {
        let b = self.balance(player, token);
        self.with_balance(
            player,
            token,
            PlayerBalance {
                total_deposited: (b.total_deposited + amount) as i128,
                available_balance: (b.available_balance + amount) as i128,
                ..b
            },
        )
    }

    /// `amount` moved from the player's available balance to the table.
    pub open spec fn allocated(
        self,
        player: Address,
        token: Address,
        table_id: u32,
        amount: i128,
        now: u32,
    ) -> Self {
        let b = self.balance(player, token);
        self.with_balance(
            player,
            token,
            PlayerBalance {
                available_balance: (b.available_balance - amount) as i128,
                locked_balance: (b.locked_balance + amount) as i128,
                ..b
            },
        ).with_allocation(
            player,
            token,
            table_id,
            (self.allocation(player, token, table_id) + amount) as i128,
        ).with_table_total(
            token,
            table_id,
            (self.table_total(token, table_id) + amount) as i128,
        ).touched(table_id, now)
    }

    /// `amount` moved from the table back to the player's available balance.
    pub open spec fn deallocated(
        self,
        player: Address,
        token: Address,
        table_id: u32,
        amount: i128,
        now: u32,
    ) -> Self {
        let b = self.balance(player, token);
        self.with_balance(
            player,
            token,
            PlayerBalance {
                available_balance: (b.available_balance + amount) as i128,
                locked_balance: (b.locked_balance - amount) as i128,
                ..b
            },
        ).with_allocation(
            player,
            token,
            table_id,
            (self.allocation(player, token, table_id) - amount) as i128,
        ).with_table_total(
            token,
            table_id,
            (self.table_total(token, table_id) - amount) as i128,
        ).touched(table_id, now)
    }

    /// `amount` added to what the player has at the table; taken away where it is negative.
    pub open spec fn shifted(
        self,
        player: Address,
        token: Address,
        table_id: u32,
        amount: int,
    ) -> Self {
        let b = self.balance(player, token);
        self.with_allocation(
            player,
            token,
            table_id,
            (self.allocation(player, token, table_id) + amount) as i128,
        ).with_balance(
            player,
            token,
            PlayerBalance {
                locked_balance: (b.locked_balance + amount) as i128,
                total_deposited: (b.total_deposited + amount) as i128,
                ..b
            },
        ).with_table_total(
            token,
            table_id,
            (self.table_total(token, table_id) + amount) as i128,
        )
    }

    /// The pool after the losses of a hand, and their sum; or why they are refused. Entries that
    /// are not positive count for nothing.
    pub open spec fn after_losses(
        self,
        token: Address,
        table_id: u32,
        losers: Seq<(Address, i128)>,
    ) -> Result<(PoolState, i128), LiquidityPoolError>
        decreases losers.len(),
    {
        if losers.len() == 0 {
            Ok((self, 0i128))
        } else {
            match self.after_losses(token, table_id, losers.drop_last()) {
                Err(e) => Err(e),
                Ok((st, lost)) => {
                    let (loser, loss) = losers.last();
                    if loss <= 0 {
                        Ok((st, lost))
                    } else if lost + loss > i128::MAX {
                        Err(LiquidityPoolError::InvalidAmount)
                    } else if st.allocation(loser, token, table_id) < loss {
                        Err(LiquidityPoolError::InsufficientTableAllocation)
                    } else {
                        Ok((st.shifted(loser, token, table_id, -loss), (lost + loss) as i128))
                    }
                },
            }
        }
    }

    /// The pool after the wins of a hand, and their sum; or why they are refused. Entries that
    /// are not positive count for nothing.
    pub open spec fn after_wins(
        self,
        token: Address,
        table_id: u32,
        winners: Seq<(Address, i128)>,
    ) -> Result<(PoolState, i128), LiquidityPoolError>
        decreases winners.len(),
    {
        if winners.len() == 0 {
            Ok((self, 0i128))
        } else {
            match self.after_wins(token, table_id, winners.drop_last()) {
                Err(e) => Err(e),
                Ok((st, won)) => {
                    let (winner, win) = winners.last();
                    if win <= 0 {
                        Ok((st, won))
                    } else if won + win > i128::MAX {
                        Err(LiquidityPoolError::InvalidAmount)
                    } else {
                        Ok((st.shifted(winner, token, table_id, win as int), (won + win) as i128))
                    }
                },
            }
        }
    }

    /// No win lifts a winner's balance, or the total of the table, above what it can hold.
    pub open spec fn wins_fit(self, token: Address, table_id: u32, winners: Seq<(Address, i128)>) -> bool {
        forall|i: int|
            #![trigger winners[i]]
            0 <= i < winners.len() ==> match self.after_wins(token, table_id, winners.take(i)) {
                Err(_) => true,
                Ok((st, won)) => winners[i].1 <= 0 || won + winners[i].1 > i128::MAX || {
                    &&& st.balance(winners[i].0, token).total_deposited + winners[i].1 <= i128::MAX
                    &&& st.table_total(token, table_id) + winners[i].1 <= i128::MAX
                },
            }
    }

    /// The pool after a settled hand, or why the settlement is refused: the losses, then the
    /// wins, and what was lost must be what was won and the rake together.
    pub open spec fn settled(
        self,
        token: Address,
        table_id: u32,
        winners: Seq<(Address, i128)>,
        losers: Seq<(Address, i128)>,
        rake: i128,
        now: u32,
    ) -> Result<PoolState, LiquidityPoolError> {
        match self.after_losses(token, table_id, losers) {
            Err(e) => Err(e),
            Ok((st1, lost)) => match st1.after_wins(token, table_id, winners) {
                Err(e) => Err(e),
                Ok((st2, won)) => if !(i128::MIN <= won + rake <= i128::MAX) {
                    Err(LiquidityPoolError::InvalidAmount)
                } else if lost != won + rake {
                    Err(LiquidityPoolError::SettlementMismatch)
                } else {
                    Ok(st2.touched(table_id, now))
                },
            },
        }
    }

    /// The ledger from which the player can reclaim what is locked at the table.
    pub open spec fn unlock_ledger(self, table_id: u32) -> int {
        let due = value_or(self.last_activity, table_id, 0) + (match self.timeout {
            Some(t) => t,
            None => DEFAULT_EMERGENCY_TIMEOUT_LEDGERS,
        });
        if due > u32::MAX {
            u32::MAX as int
        } else {
            due as int
        }
    }
}

/// Setting one allocation and moving the player's locked balance and the total of the table by
/// as much keeps the pool well formed.
proof fn lemma_reallocate(
    st: PoolState,
    player: Address,
    token: Address,
    table_id: u32,
    amount: i128,
    b: PlayerBalance,
    total: i128,
)
    requires
        st.wf(),
        amount >= 0,
        b.total_deposited == b.available_balance + b.locked_balance,
        b.available_balance >= 0,
        b.locked_balance == st.balance(player, token).locked_balance + amount - st.allocation(
            player,
            token,
            table_id,
        ),
        total == st.table_total(token, table_id) + amount - st.allocation(player, token, table_id),
    ensures
        st.with_allocation(player, token, table_id, amount).with_balance(
            player,
            token,
            b,
        ).with_table_total(token, table_id, total).wf(),
        st.with_balance(player, token, b).with_allocation(player, token, table_id, amount)
            == st.with_allocation(player, token, table_id, amount).with_balance(player, token, b),
{
    let n = st.with_allocation(player, token, table_id, amount).with_balance(
        player,
        token,
        b,
    ).with_table_total(token, table_id, total);
    let k = AllocationKey { player, token, table_id };
    let ak = AccountKey { player, token };
    let tk = TableKey { token, table_id };
    let ts = st.tables_of(player, token);
    let ps = st.players_at(token, table_id);
    lemma_without(ts, table_id);
    lemma_without(ps, player);
    lemma_with_member(ts, table_id);
    lemma_with_member(ps, player);
    let nts = if amount == 0 {
        without(ts, table_id)
    } else {
        with_member(ts, table_id)
    };
    let nps = if amount == 0 {
        without(ps, player)
    } else {
        with_member(ps, player)
    };
    assert(ts.contains(table_id) == st.allocations.contains_key(k));
    assert(ps.contains(player) == st.allocations.contains_key(k));
    assert(n.tables_of(player, token) == nts);
    assert(n.players_at(token, table_id) == nps);
    assert forall|p: Address, t: Address, id: u32|
        AllocationKey { player: p, token: t, table_id: id } != k implies n.allocation(p, t, id)
        == st.allocation(p, t, id) by {}
    assert(n.allocation(player, token, table_id) == amount);
    assert forall|p: Address, t: Address| AccountKey { player: p, token: t } != ak implies n.tables_of(p, t)
        == st.tables_of(p, t) by {}
    assert forall|t: Address, id: u32| TableKey { token: t, table_id: id } != tk implies n.players_at(t, id)
        == st.players_at(t, id) by {}
    assert forall|p: Address, t: Address|
        #![trigger n.balance(p, t)]
        {
            let b1 = n.balance(p, t);
            &&& b1.total_deposited == b1.available_balance + b1.locked_balance
            &&& b1.available_balance >= 0
            &&& b1.locked_balance == sum_by(n.tables_of(p, t), n.stake_at(p, t))
        } by {
        let f = st.stake_at(p, t);
        let g = n.stake_at(p, t);
        let b0 = st.balance(p, t);
        if (AccountKey { player: p, token: t }) == ak {
            assert(n.balance(p, t) == b);
            lemma_sum_without(ts, table_id, f);
            if amount == 0 {
                lemma_sum_agree(nts, f, g);
                if !ts.contains(table_id) {
                    assert(st.allocation(player, token, table_id) == 0);
                }
            } else if ts.contains(table_id) {
                lemma_sum_change(ts, table_id, f, g);
            } else {
                lemma_sum_push(ts, table_id, g);
                lemma_sum_agree(ts, f, g);
            }
        } else {
            assert(n.balance(p, t) == b0);
            lemma_sum_agree(st.tables_of(p, t), f, g);
        }
    }
    assert forall|p: Address, t: Address, id: u32|
        #![trigger n.tables_of(p, t).contains(id)]
        n.tables_of(p, t).contains(id) <==> n.allocations.contains_key(
            AllocationKey { player: p, token: t, table_id: id },
        ) by {
        assert(st.tables_of(p, t).contains(id) == st.allocations.contains_key(
            AllocationKey { player: p, token: t, table_id: id },
        ));
        if (AccountKey { player: p, token: t }) == ak {
            assert(nts.contains(id) == n.tables_of(p, t).contains(id));
        }
    }
    assert forall|p: Address, t: Address, id: u32|
        #![trigger n.players_at(t, id).contains(p)]
        n.players_at(t, id).contains(p) <==> n.allocations.contains_key(
            AllocationKey { player: p, token: t, table_id: id },
        ) by {
        assert(st.players_at(t, id).contains(p) == st.allocations.contains_key(
            AllocationKey { player: p, token: t, table_id: id },
        ));
        if (TableKey { token: t, table_id: id }) == tk {
            assert(nps.contains(p) == n.players_at(t, id).contains(p));
        }
    }
    assert forall|t: Address, id: u32|
        #![trigger n.table_total(t, id)]
        n.table_total(t, id) == sum_by(n.players_at(t, id), n.stake_of(t, id)) by {
        let f = st.stake_of(t, id);
        let g = n.stake_of(t, id);
        let t0 = st.table_total(t, id);
        if (TableKey { token: t, table_id: id }) == tk {
            lemma_sum_without(ps, player, f);
            if amount == 0 {
                lemma_sum_agree(nps, f, g);
                if !ps.contains(player) {
                    assert(st.allocation(player, token, table_id) == 0);
                }
            } else if ps.contains(player) {
                lemma_sum_change(ps, player, f, g);
            } else {
                lemma_sum_push(ps, player, g);
                lemma_sum_agree(ps, f, g);
            }
        } else {
            assert(n.table_total(t, id) == t0);
            lemma_sum_agree(st.players_at(t, id), f, g);
        }
    }
    assert(st.with_balance(player, token, b).with_allocation(player, token, table_id, amount)
        =~= st.with_allocation(player, token, table_id, amount).with_balance(player, token, b));
}

/// What a player has at a table is part of what is locked for that player, and part of the total
/// of the table.
pub proof fn allocation_is_locked(st: PoolState, player: Address, token: Address, table_id: u32)
    requires
        st.wf(),
    ensures
        0 <= st.allocation(player, token, table_id) <= st.balance(player, token).locked_balance,
        st.balance(player, token).locked_balance <= st.balance(player, token).total_deposited,
        st.allocation(player, token, table_id) > 0 ==> st.balances.contains_key(
            AccountKey { player, token },
        ),
        st.allocation(player, token, table_id) <= st.table_total(token, table_id),
{
    let ts = st.tables_of(player, token);
    let f = st.stake_at(player, token);
    let b = st.balance(player, token);
    assert forall|id: u32| #[trigger] ts.contains(id) implies f(id) >= 0 by {}
    lemma_sum_bounds(ts, f);
    if st.allocations.contains_key(AllocationKey { player, token, table_id }) {
        assert(ts.contains(table_id));
        assert(f(table_id) <= b.locked_balance);
    }
    let ps = st.players_at(token, table_id);
    let g = st.stake_of(token, table_id);
    let total = st.table_total(token, table_id);
    assert forall|p: Address| #[trigger] ps.contains(p) implies g(p) >= 0 by {}
    lemma_sum_bounds(ps, g);
    if st.allocations.contains_key(AllocationKey { player, token, table_id }) {
        assert(ps.contains(player));
        assert(g(player) <= total);
    }
}

/// The shared pool.
pub struct CrossTableLiquidityPool {
    admin: Option<Address>,
    timeout: Option<u32>,
    authorized: AssocMap<Address, bool>,
    balances: AssocMap<AccountKey, PlayerBalance>,
    allocations: AssocMap<AllocationKey, i128>,
    player_tables: AssocMap<AccountKey, Vec<u32>>,
    table_players: AssocMap<TableKey, Vec<Address>>,
    table_totals: AssocMap<TableKey, i128>,
    last_activity: AssocMap<u32, u32>,
}

impl View for CrossTableLiquidityPool {
    type V = PoolState;

    closed spec fn view(&self) -> PoolState {
        PoolState {
            admin: self.admin,
            timeout: self.timeout,
            authorized: self.authorized@,
            balances: self.balances@,
            allocations: self.allocations@,
            player_tables: self.player_tables@,
            table_players: self.table_players@,
            table_totals: self.table_totals@,
            last_activity: self.last_activity@,
        }
    }
}

impl Dup for CrossTableLiquidityPool {
    fn dup(&self) -> (r: Self) {
        CrossTableLiquidityPool {
            admin: self.admin,
            timeout: self.timeout,
            authorized: self.authorized.dup(),
            balances: self.balances.dup(),
            allocations: self.allocations.dup(),
            player_tables: self.player_tables.dup(),
            table_players: self.table_players.dup(),
            table_totals: self.table_totals.dup(),
            last_activity: self.last_activity.dup(),
        }
    }
}

impl CrossTableLiquidityPool {
    /// A pool that nobody has set up yet.
    pub fn new() -> (r: Self)
        ensures
            r@ == (PoolState {
                admin: None,
                timeout: None,
                authorized: Map::empty(),
                balances: Map::empty(),
                allocations: Map::empty(),
                player_tables: Map::empty(),
                table_players: Map::empty(),
                table_totals: Map::empty(),
                last_activity: Map::empty(),
            }),
            r@.wf(),
    {
        CrossTableLiquidityPool {
            admin: None,
            timeout: None,
            authorized: AssocMap::new(),
            balances: AssocMap::new(),
            allocations: AssocMap::new(),
            player_tables: AssocMap::new(),
            table_players: AssocMap::new(),
            table_totals: AssocMap::new(),
            last_activity: AssocMap::new(),
        }
    }

    /// Sets the administrator and the emergency timeout, once.
    pub fn initialize(&mut self, admin: Address, emergency_timeout_ledgers: Option<u32>) -> (r:
        Result<(), LiquidityPoolError>)
        ensures
            old(self)@.admin is None ==> r is Ok && final(self)@ == (PoolState {
                admin: Some(admin),
                timeout: Some(
                    match emergency_timeout_ledgers {
                        Some(t) => t,
                        None => DEFAULT_EMERGENCY_TIMEOUT_LEDGERS,
                    },
                ),
                ..old(self)@
            }),
            old(self)@.admin is Some ==> r == Err::<(), _>(LiquidityPoolError::AlreadyInitialized)
                && final(self)@ == old(self)@,
            old(self)@.wf() ==> final(self)@.wf(),
    {
        if self.admin.is_some() {
            return Err(LiquidityPoolError::AlreadyInitialized);
        }
        let timeout: u32 = match emergency_timeout_ledgers {
            Some(t) => t,
            None => DEFAULT_EMERGENCY_TIMEOUT_LEDGERS,
        };
        self.admin = Some(admin);
        self.timeout = Some(timeout);
        proof {
            lemma_wf_frame(old(self)@, self@);
        }
        Ok(())
    }

    /// Lets a table contract or coordinator allocate and settle funds, or no longer lets it.
    pub fn set_authorized_caller(&mut self, admin: Address, caller: Address, authorized: bool) -> (r:
        Result<(), LiquidityPoolError>)
        ensures
            match r {
                Ok(_) => old(self)@.admin == Some(admin) && final(self)@ == (PoolState {
                    authorized: if authorized {
                        old(self)@.authorized.insert(caller, true)
                    } else {
                        old(self)@.authorized.remove(caller)
                    },
                    ..old(self)@
                }),
                Err(e) => final(self)@ == old(self)@ && e == (if old(self)@.admin is None {
                    LiquidityPoolError::NotInitialized
                } else {
                    LiquidityPoolError::Unauthorized
                }) && old(self)@.admin != Some(admin),
            },
            old(self)@.wf() ==> final(self)@.wf(),
    {
        match self.require_admin(&admin) {
            Ok(_) => {},
            Err(e) => {
                return Err(e);
            },
        }
        if authorized {
            self.authorized.insert(caller, true);
        } else {
            let _ = self.authorized.remove(&caller);
        }
        proof {
            lemma_wf_frame(old(self)@, self@);
        }
        Ok(())
    }

    /// Whether `caller` is among the authorized callers.
    pub fn is_authorized_caller(&self, caller: Address) -> (r: bool)
        ensures
            r == value_or(self@.authorized, caller, false),
    {
        match self.authorized.get(&caller) {
            Some(a) => *a,
            None => false,
        }
    }

    /// Adds `amount` to the player's bankroll. The tokens come from the player.
    pub fn deposit(&mut self, player: Address, token: Address, amount: i128) -> (r: Result<
        Transfer,
        LiquidityPoolError,
    >)
        requires
            old(self)@.wf(),
        ensures
            match r {
                Ok(t) => amount > 0 && old(self)@.balance(player, token).total_deposited + amount
                    <= i128::MAX && t == (Transfer {
                    token,
                    from: Party::Wallet(player),
                    to: Party::This,
                    amount,
                }) && final(self)@ == old(self)@.deposited(player, token, amount),
                Err(e) => e == LiquidityPoolError::InvalidAmount && final(self)@ == old(self)@ && (
                amount <= 0 || old(self)@.balance(player, token).total_deposited + amount
                    > i128::MAX),
            },
            final(self)@.wf(),
            r is Ok ==> {
                let (b, c) = (old(self)@.balance(player, token), final(self)@.balance(player, token));
                &&& c.available_balance - b.available_balance == amount
                &&& c.total_deposited - b.total_deposited == amount
                &&& c.locked_balance == b.locked_balance
            },
            r is Ok <==> amount > 0 && old(self)@.balance(player, token).total_deposited + amount
                <= i128::MAX,
    {
        if amount <= 0 {
            return Err(LiquidityPoolError::InvalidAmount);
        }
        let bal = self.get_player_balance(player, token);
        proof {
            allocation_is_locked(self@, player, token, 0);
        }
        let total: i128 = match bal.total_deposited.checked_add(amount) {
            Some(x) => x,
            None => {
                return Err(LiquidityPoolError::InvalidAmount);
            },
        };
        let available: i128 = match bal.available_balance.checked_add(amount) {
            Some(x) => x,
            None => {
                return Err(LiquidityPoolError::InvalidAmount);
            },
        };
        let next = PlayerBalance {
            total_deposited: total,
            available_balance: available,
            locked_balance: bal.locked_balance,
        };
        self.balances.insert(AccountKey { player, token }, next);
        proof {
            lemma_rebalance(old(self)@, player, token, next);
        }
        Ok(Transfer { token, from: Party::Wallet(player), to: Party::This, amount })
    }

    /// Takes `amount` out of the player's available bankroll. The tokens go to the player.
    pub fn withdraw(&mut self, player: Address, token: Address, amount: i128) -> (r: Result<
        Transfer,
        LiquidityPoolError,
    >)
        requires
            old(self)@.wf(),
        ensures
            match r {
                Ok(t) => 0 < amount <= old(self)@.balance(player, token).available_balance && t == (
                Transfer { token, from: Party::This, to: Party::Wallet(player), amount })
                    && final(self)@ == old(self)@.deposited(player, token, (-amount) as i128),
                Err(e) => final(self)@ == old(self)@ && if amount <= 0 {
                    e == LiquidityPoolError::InvalidAmount
                } else {
                    e == LiquidityPoolError::InsufficientAvailableBalance && old(self)@.balance(
                        player,
                        token,
                    ).available_balance < amount
                },
            },
            final(self)@.wf(),
            r is Ok ==> {
                let (b, c) = (old(self)@.balance(player, token), final(self)@.balance(player, token));
                &&& b.available_balance - c.available_balance == amount
                &&& b.total_deposited - c.total_deposited == amount
                &&& c.locked_balance == b.locked_balance
            },
            r is Ok <==> 0 < amount <= old(self)@.balance(player, token).available_balance,
    {
        if amount <= 0 {
            return Err(LiquidityPoolError::InvalidAmount);
        }
        let bal: PlayerBalance = match self.balances.get(&AccountKey { player, token }) {
            Some(b) => *b,
            None => {
                return Err(LiquidityPoolError::InsufficientAvailableBalance);
            },
        };
        assert(bal == self@.balance(player, token));
        if bal.available_balance < amount {
            return Err(LiquidityPoolError::InsufficientAvailableBalance);
        }
        proof {
            allocation_is_locked(self@, player, token, 0);
        }
        let next = PlayerBalance {
            total_deposited: bal.total_deposited - amount,
            available_balance: bal.available_balance - amount,
            locked_balance: bal.locked_balance,
        };
        self.balances.insert(AccountKey { player, token }, next);
        proof {
            lemma_rebalance(old(self)@, player, token, next);
        }
        Ok(Transfer { token, from: Party::This, to: Party::Wallet(player), amount })
    }

    /// Moves `amount` from the player's available bankroll to a table, at ledger `now`.
    pub fn allocate_to_table(
        &mut self,
        caller: Address,
        player: Address,
        token: Address,
        table_id: u32,
        amount: i128,
        now: u32,
    ) -> (r: Result<(), LiquidityPoolError>)
        requires
            old(self)@.wf(),
            (caller == player || old(self)@.may_operate(caller)) && 0 < amount <= old(self)@.balance(
                player,
                token,
            ).available_balance ==> old(self)@.table_total(token, table_id) + amount <= i128::MAX,
        ensures
            match r {
                Ok(_) => (caller == player || old(self)@.may_operate(caller)) && 0 < amount
                    <= old(self)@.balance(player, token).available_balance && final(self)@ == old(self)@.allocated(player, token, table_id, amount, now),
                Err(e) => final(self)@ == old(self)@ && if caller != player && !old(self)@.may_operate(caller) {
                    e == LiquidityPoolError::Unauthorized
                } else if amount <= 0 {
                    e == LiquidityPoolError::InvalidAmount
                } else {
                    e == LiquidityPoolError::InsufficientAvailableBalance && old(self)@.balance(
                        player,
                        token,
                    ).available_balance < amount
                },
            },
            final(self)@.wf(),
            r is Ok ==> {
                let (b, c) = (old(self)@.balance(player, token), final(self)@.balance(player, token));
                &&& b.available_balance - c.available_balance == amount
                &&& c.total_deposited == b.total_deposited
                &&& final(self)@.allocation(player, token, table_id) - old(self)@.allocation(
                    player,
                    token,
                    table_id,
                ) == amount
            },
            r is Ok <==> (caller == player || old(self)@.may_operate(caller)) && 0 < amount
                <= old(self)@.balance(player, token).available_balance,
    {
        match self.require_player_or_authorized(&caller, &player) {
            Ok(_) => {},
            Err(e) => {
                return Err(e);
            },
        }
        if amount <= 0 {
            return Err(LiquidityPoolError::InvalidAmount);
        }
        let key = AccountKey { player, token };
        let bal: PlayerBalance = match self.balances.get(&key) {
            Some(b) => *b,
            None => {
                return Err(LiquidityPoolError::InsufficientAvailableBalance);
            },
        };
        assert(bal == self@.balance(player, token));
        if bal.available_balance < amount {
            return Err(LiquidityPoolError::InsufficientAvailableBalance);
        }
        proof {
            allocation_is_locked(self@, player, token, table_id);
        }
        let next = PlayerBalance {
            total_deposited: bal.total_deposited,
            available_balance: bal.available_balance - amount,
            locked_balance: bal.locked_balance + amount,
        };
        let new_alloc: i128 = self.get_table_allocation(player, token, table_id) + amount;
        let total: i128 = self.get_table_total_allocation(token, table_id) + amount;
        self.balances.insert(key, next);
        self.store_allocation(player, token, table_id, new_alloc);
        self.table_totals.insert(TableKey { token, table_id }, total);
        self.last_activity.insert(table_id, now);
        proof {
            lemma_reallocate(old(self)@, player, token, table_id, new_alloc, next, total);
            lemma_wf_frame(
                old(self)@.with_allocation(player, token, table_id, new_alloc).with_balance(
                    player,
                    token,
                    next,
                ).with_table_total(token, table_id, total),
                self@,
            );
        }
        Ok(())
    }

    /// Moves `amount` from a table back to the player's available bankroll, at ledger `now`.
    pub fn deallocate_from_table(
        &mut self,
        caller: Address,
        player: Address,
        token: Address,
        table_id: u32,
        amount: i128,
        now: u32,
    ) -> (r: Result<(), LiquidityPoolError>)
        requires
            old(self)@.wf(),
        ensures
            match r {
                Ok(_) => (caller == player || old(self)@.may_operate(caller)) && 0 < amount
                    <= old(self)@.allocation(player, token, table_id) && final(self)@ == old(self)@.deallocated(player, token, table_id, amount, now),
                Err(e) => final(self)@ == old(self)@ && if caller != player && !old(self)@.may_operate(caller) {
                    e == LiquidityPoolError::Unauthorized
                } else if amount <= 0 {
                    e == LiquidityPoolError::InvalidAmount
                } else {
                    e == LiquidityPoolError::InsufficientTableAllocation && old(self)@.allocation(
                        player,
                        token,
                        table_id,
                    ) < amount
                },
            },
            final(self)@.wf(),
            r is Ok ==> {
                let (b, c) = (old(self)@.balance(player, token), final(self)@.balance(player, token));
                &&& c.available_balance - b.available_balance == amount
                &&& c.total_deposited == b.total_deposited
                &&& old(self)@.allocation(player, token, table_id) - final(self)@.allocation(
                    player,
                    token,
                    table_id,
                ) == amount
            },
            r is Ok <==> (caller == player || old(self)@.may_operate(caller)) && 0 < amount
                <= old(self)@.allocation(player, token, table_id),
    {
        match self.require_player_or_authorized(&caller, &player) {
            Ok(_) => {},
            Err(e) => {
                return Err(e);
            },
        }
        if amount <= 0 {
            return Err(LiquidityPoolError::InvalidAmount);
        }
        let cur_alloc: i128 = self.get_table_allocation(player, token, table_id);
        if cur_alloc < amount {
            return Err(LiquidityPoolError::InsufficientTableAllocation);
        }
        proof {
            allocation_is_locked(self@, player, token, table_id);
        }
        let bal = self.get_player_balance(player, token);
        let next = PlayerBalance {
            total_deposited: bal.total_deposited,
            available_balance: bal.available_balance + amount,
            locked_balance: bal.locked_balance - amount,
        };
        let new_alloc: i128 = cur_alloc - amount;
        let total: i128 = self.get_table_total_allocation(token, table_id) - amount;
        self.balances.insert(AccountKey { player, token }, next);
        self.store_allocation(player, token, table_id, new_alloc);
        self.table_totals.insert(TableKey { token, table_id }, total);
        self.last_activity.insert(table_id, now);
        proof {
            lemma_reallocate(old(self)@, player, token, table_id, new_alloc, next, total);
            lemma_wf_frame(
                old(self)@.with_allocation(player, token, table_id, new_alloc).with_balance(
                    player,
                    token,
                    next,
                ).with_table_total(token, table_id, total),
                self@,
            );
        }
        Ok(())
    }

    /// Settles a hand at a table, at ledger `now`: the losses leave the losers' allocations, the
    /// wins enter the winners', and what is lost must be what is won and the rake together. A
    /// positive rake goes to its recipient where one is named. A refused settlement changes
    /// nothing.
    pub fn settle_table_hand(
        &mut self,
        caller: Address,
        token: Address,
        table_id: u32,
        winners: &Vec<(Address, i128)>,
        losers: &Vec<(Address, i128)>,
        rake: i128,
        rake_recipient: Option<Address>,
        now: u32,
    ) -> (r: Result<Option<Transfer>, LiquidityPoolError>)
        requires
            old(self)@.wf(),
            old(self)@.may_operate(caller) ==> match old(self)@.after_losses(
                token,
                table_id,
                losers@,
            ) {
                Ok((st, _)) => st.wins_fit(token, table_id, winners@),
                Err(_) => true,
            },
        ensures
            !old(self)@.may_operate(caller) ==> r == Err::<Option<Transfer>, _>(
                LiquidityPoolError::Unauthorized,
            ),
            old(self)@.may_operate(caller) ==> match old(self)@.settled(
                token,
                table_id,
                winners@,
                losers@,
                rake,
                now,
            ) {
                Ok(st) => final(self)@ == st && r == Ok::<_, LiquidityPoolError>(
                    if rake > 0 && rake_recipient is Some {
                        Some(
                            Transfer {
                                token,
                                from: Party::This,
                                to: Party::Wallet(rake_recipient->0),
                                amount: rake,
                            },
                        )
                    } else {
                        None
                    },
                ),
                Err(e) => r == Err::<Option<Transfer>, _>(e),
            },
            r is Err ==> final(self)@ == old(self)@,
            final(self)@.wf(),
            r matches Ok(Some(t)) ==> t.amount == rake && rake > 0 && rake_recipient is Some && t.to
                == Party::Wallet(rake_recipient->0) && t.from == Party::This,
            r matches Ok(None) ==> rake <= 0 || rake_recipient is None,
            r is Ok ==> old(self)@.table_total(token, table_id) - final(self)@.table_total(
                token,
                table_id,
            ) == rake,
    {
        proof {
            if self@.may_operate(caller) && self@.settled(
                token,
                table_id,
                winners@,
                losers@,
                rake,
                now,
            ) is Ok {
                settlement_conserves_chips(
                    self@,
                    token,
                    table_id,
                    winners@,
                    losers@,
                    rake,
                    now,
                );
            }
        }
        match self.require_authorized(&caller) {
            Ok(_) => {},
            Err(e) => {
                return Err(e);
            },
        }
        let mut work = self.dup();
        let lost: i128 = match work.apply_losses(token, table_id, losers) {
            Ok(x) => x,
            Err(e) => {
                return Err(e);
            },
        };
        let won: i128 = match work.apply_wins(token, table_id, winners) {
            Ok(x) => x,
            Err(e) => {
                return Err(e);
            },
        };
        let owed: i128 = match won.checked_add(rake) {
            Some(x) => x,
            None => {
                return Err(LiquidityPoolError::InvalidAmount);
            },
        };
        if lost != owed {
            return Err(LiquidityPoolError::SettlementMismatch);
        }
        let ghost st2 = work@;
        work.last_activity.insert(table_id, now);
        proof {
            lemma_wf_frame(st2, work@);
        }
        *self = work;
        if rake > 0 {
            if let Some(recipient) = rake_recipient {
                return Ok(
                    Some(
                        Transfer {
                            token,
                            from: Party::This,
                            to: Party::Wallet(recipient),
                            amount: rake,
                        },
                    ),
                );
            }
        }
        Ok(None)
    }

    /// Takes the losses of a hand and returns their sum. A refusal leaves the pool anywhere
    /// between: the caller works on a copy.
    #[verifier::rlimit(40)]
    fn apply_losses(
        &mut self,
        token: Address,
        table_id: u32,
        losers: &Vec<(Address, i128)>,
    ) -> (r: Result<i128, LiquidityPoolError>)
        requires
            old(self)@.wf(),
        ensures
            match old(self)@.after_losses(token, table_id, losers@) {
                Ok((st, lost)) => r == Ok::<_, LiquidityPoolError>(lost) && final(self)@ == st
                    && final(self)@.wf(),
                Err(e) => r == Err::<i128, _>(e),
            },
    {
        let ghost st0 = self@;
        let mut lost: i128 = 0;
        let mut i: usize = 0;
        while i < losers.len()
            invariant
                i <= losers@.len(),
                st0 == old(self)@,
                self@.wf(),
                lost >= 0,
                st0.after_losses(token, table_id, losers@.take(i as int)) == Ok::<
                    (PoolState, i128),
                    LiquidityPoolError,
                >((self@, lost)),
            decreases losers@.len() - i,
        {
            let ghost st = self@;
            let loser: Address = losers[i].0;
            let loss: i128 = losers[i].1;
            proof {
                lemma_losses_step(st0, token, table_id, losers@, i as int);
            }
            if loss > 0 {
                let sum: i128 = match lost.checked_add(loss) {
                    Some(x) => x,
                    None => {
                        return Err(LiquidityPoolError::InvalidAmount);
                    },
                };
                let cur_alloc: i128 = self.get_table_allocation(loser, token, table_id);
                if cur_alloc < loss {
                    return Err(LiquidityPoolError::InsufficientTableAllocation);
                }
                lost = sum;
                proof {
                    allocation_is_locked(st, loser, token, table_id);
                }
                let next_alloc: i128 = cur_alloc - loss;
                self.store_allocation(loser, token, table_id, next_alloc);
                let bal = self.get_player_balance(loser, token);
                assert(bal == st.balance(loser, token));
                let next = PlayerBalance {
                    total_deposited: bal.total_deposited - loss,
                    available_balance: bal.available_balance,
                    locked_balance: bal.locked_balance - loss,
                };
                self.balances.insert(AccountKey { player: loser, token }, next);
                let total: i128 = self.get_table_total_allocation(token, table_id) - loss;
                self.table_totals.insert(TableKey { token, table_id }, total);
                proof {
                    lemma_reallocate(st, loser, token, table_id, next_alloc, next, total);
                    assert(self@ =~= st.shifted(loser, token, table_id, -loss));
                }
            }
            i += 1;
        }
        assert(losers@.take(i as int) =~= losers@);
        Ok(lost)
    }

    /// Adds the wins of a hand and returns their sum. A refusal leaves the pool anywhere
    /// between: the caller works on a copy.
    #[verifier::rlimit(40)]
    fn apply_wins(
        &mut self,
        token: Address,
        table_id: u32,
        winners: &Vec<(Address, i128)>,
    ) -> (r: Result<i128, LiquidityPoolError>)
        requires
            old(self)@.wf(),
            old(self)@.wins_fit(token, table_id, winners@),
        ensures
            match old(self)@.after_wins(token, table_id, winners@) {
                Ok((st, won)) => r == Ok::<_, LiquidityPoolError>(won) && final(self)@ == st
                    && final(self)@.wf(),
                Err(e) => r == Err::<i128, _>(e),
            },
    {
        let ghost st0 = self@;
        let mut won: i128 = 0;
        let mut i: usize = 0;
        while i < winners.len()
            invariant
                i <= winners@.len(),
                st0 == old(self)@,
                self@.wf(),
                won >= 0,
                st0.wins_fit(token, table_id, winners@),
                st0.after_wins(token, table_id, winners@.take(i as int)) == Ok::<
                    (PoolState, i128),
                    LiquidityPoolError,
                >((self@, won)),
            decreases winners@.len() - i,
        {
            let ghost st = self@;
            let winner: Address = winners[i].0;
            let win: i128 = winners[i].1;
            proof {
                lemma_wins_step(st0, token, table_id, winners@, i as int);
            }
            if win > 0 {
                won = match won.checked_add(win) {
                    Some(x) => x,
                    None => {
                        return Err(LiquidityPoolError::InvalidAmount);
                    },
                };
                proof {
                    allocation_is_locked(st, winner, token, table_id);
                    assert(winners@[i as int].1 == win);
                }
                let next_alloc: i128 = self.get_table_allocation(winner, token, table_id) + win;
                self.store_allocation(winner, token, table_id, next_alloc);
                let bal = self.get_player_balance(winner, token);
                assert(bal == st.balance(winner, token));
                let next = PlayerBalance {
                    total_deposited: bal.total_deposited + win,
                    available_balance: bal.available_balance,
                    locked_balance: bal.locked_balance + win,
                };
                self.balances.insert(AccountKey { player: winner, token }, next);
                let total: i128 = self.get_table_total_allocation(token, table_id) + win;
                self.table_totals.insert(TableKey { token, table_id }, total);
                proof {
                    lemma_reallocate(st, winner, token, table_id, next_alloc, next, total);
                    assert(self@ =~= st.shifted(winner, token, table_id, win as int));
                }
            }
            i += 1;
        }
        assert(winners@.take(i as int) =~= winners@);
        Ok(won)
    }

    /// Gives a player back what is locked at a table that has been idle for the emergency
    /// timeout.
    pub fn emergency_unlock(&mut self, player: Address, token: Address, table_id: u32, now: u32) -> (r:
        Result<(), LiquidityPoolError>)
        requires
            old(self)@.wf(),
        ensures
            match r {
                Ok(_) => {
                    let b = old(self)@.balance(player, token);
                    let a = old(self)@.allocation(player, token, table_id);
                    &&& a != 0
                    &&& now >= old(self)@.unlock_ledger(table_id)
                    &&& final(self)@ == old(self)@.with_allocation(
                        player,
                        token,
                        table_id,
                        0,
                    ).with_balance(
                        player,
                        token,
                        (PlayerBalance {
                            available_balance: (b.available_balance + a) as i128,
                            locked_balance: (b.locked_balance - a) as i128,
                            ..b
                        }),
                    ).with_table_total(
                        token,
                        table_id,
                        (old(self)@.table_total(token, table_id) - a) as i128,
                    )
                },
                Err(e) => final(self)@ == old(self)@ && if old(self)@.allocation(
                    player,
                    token,
                    table_id,
                ) == 0 {
                    e == LiquidityPoolError::InsufficientTableAllocation
                } else {
                    e == LiquidityPoolError::EmergencyTimeoutNotElapsed && now < old(self)@.unlock_ledger(table_id)
                },
            },
            final(self)@.wf(),
            r is Ok ==> {
                let (b, c) = (old(self)@.balance(player, token), final(self)@.balance(player, token));
                let freed = old(self)@.allocation(player, token, table_id);
                &&& freed > 0
                &&& final(self)@.allocation(player, token, table_id) == 0
                &&& c.available_balance - b.available_balance == freed
                &&& c.total_deposited == b.total_deposited
                &&& old(self)@.last_activity.contains_key(table_id) && old(self)@.timeout is Some
                    ==> now >= old(self)@.last_activity[table_id] + (old(self)@.timeout->0) || now
                    == u32::MAX
            },
            r is Ok <==> old(self)@.allocation(player, token, table_id) != 0 && now
                >= old(self)@.unlock_ledger(table_id),
    {
        let cur_alloc: i128 = self.get_table_allocation(player, token, table_id);
        if cur_alloc == 0 {
            return Err(LiquidityPoolError::InsufficientTableAllocation);
        }
        let last: u32 = match self.last_activity.get(&table_id) {
            Some(x) => *x,
            None => 0,
        };
        let timeout: u32 = match self.timeout {
            Some(t) => t,
            None => DEFAULT_EMERGENCY_TIMEOUT_LEDGERS,
        };
        if now < last.saturating_add(timeout) {
            return Err(LiquidityPoolError::EmergencyTimeoutNotElapsed);
        }
        proof {
            allocation_is_locked(self@, player, token, table_id);
        }
        self.store_allocation(player, token, table_id, 0);
        let bal = self.get_player_balance(player, token);
        assert(bal == old(self)@.balance(player, token));
        let next = PlayerBalance {
            total_deposited: bal.total_deposited,
            available_balance: bal.available_balance + cur_alloc,
            locked_balance: bal.locked_balance - cur_alloc,
        };
        self.balances.insert(AccountKey { player, token }, next);
        let total: i128 = self.get_table_total_allocation(token, table_id) - cur_alloc;
        self.table_totals.insert(TableKey { token, table_id }, total);
        proof {
            lemma_reallocate(old(self)@, player, token, table_id, 0, next, total);
        }
        Ok(())
    }

    /// The player's balance in `token`.
    pub fn get_player_balance(&self, player: Address, token: Address) -> (r: PlayerBalance)
        ensures
            r == self@.balance(player, token),
    {
        match self.balances.get(&AccountKey { player, token }) {
            Some(b) => *b,
            None => PlayerBalance { total_deposited: 0, available_balance: 0, locked_balance: 0 },
        }
    }

    /// What the player has at the table.
    pub fn get_table_allocation(&self, player: Address, token: Address, table_id: u32) -> (r: i128)
        ensures
            r == self@.allocation(player, token, table_id),
    {
        match self.allocations.get(&AllocationKey { player, token, table_id }) {
            Some(a) => *a,
            None => 0,
        }
    }

    /// The tables at which the player has something.
    pub fn get_player_tables(&self, player: Address, token: Address) -> (r: Vec<u32>)
        ensures
            r@ == self@.tables_of(player, token),
    {
        match self.player_tables.get(&AccountKey { player, token }) {
            Some(v) => v.dup(),
            None => Vec::new(),
        }
    }

    /// What all players together have at the table.
    pub fn get_table_total_allocation(&self, token: Address, table_id: u32) -> (r: i128)
        ensures
            r == self@.table_total(token, table_id),
    {
        match self.table_totals.get(&TableKey { token, table_id }) {
            Some(a) => *a,
            None => 0,
        }
    }

    fn require_admin(&self, admin: &Address) -> (r: Result<(), LiquidityPoolError>)
        ensures
            r == (if self@.admin == Some(*admin) {
                Ok(())
            } else if self@.admin is None {
                Err(LiquidityPoolError::NotInitialized)
            } else {
                Err(LiquidityPoolError::Unauthorized)
            }),
    {
        match self.admin {
            None => Err(LiquidityPoolError::NotInitialized),
            Some(a) => if a == *admin {
                Ok(())
            } else {
                Err(LiquidityPoolError::Unauthorized)
            },
        }
    }

    fn require_authorized(&self, caller: &Address) -> (r: Result<(), LiquidityPoolError>)
        ensures
            r == (if self@.may_operate(*caller) {
                Ok(())
            } else {
                Err(LiquidityPoolError::Unauthorized)
            }),
    {
        if self.is_authorized_caller(*caller) {
            return Ok(());
        }
        if let Some(a) = self.admin {
            if a == *caller {
                return Ok(());
            }
        }
        Err(LiquidityPoolError::Unauthorized)
    }

    fn require_player_or_authorized(&self, caller: &Address, player: &Address) -> (r: Result<
        (),
        LiquidityPoolError,
    >)
        ensures
            r == (if *caller == *player || self@.may_operate(*caller) {
                Ok(())
            } else {
                Err(LiquidityPoolError::Unauthorized)
            }),
    {
        if *caller == *player {
            return Ok(());
        }
        self.require_authorized(caller)
    }

    fn add_player_table(&mut self, player: Address, token: Address, table_id: u32)
        ensures
            final(self)@ == old(self)@.list_player_table(player, token, table_id),
    {
        let mut tables = self.get_player_tables(player, token);
        if contains_item(&tables, &table_id) {
            return;
        }
        tables.push(table_id);
        self.player_tables.insert(AccountKey { player, token }, tables);
    }

    fn remove_player_table(&mut self, player: Address, token: Address, table_id: u32)
        ensures
            final(self)@ == old(self)@.strike_player_table(player, token, table_id),
    {
        let tables = self.get_player_tables(player, token);
        let next = copy_without(&tables, &table_id);
        self.player_tables.insert(AccountKey { player, token }, next);
    }

    /// The players who have something at the table.
    fn table_players(&self, token: Address, table_id: u32) -> (r: Vec<Address>)
        ensures
            r@ == self@.players_at(token, table_id),
    {
        match self.table_players.get(&TableKey { token, table_id }) {
            Some(v) => v.dup(),
            None => Vec::new(),
        }
    }

    fn add_table_player(&mut self, token: Address, table_id: u32, player: Address)
        ensures
            final(self)@ == old(self)@.list_table_player(token, table_id, player),
    {
        let mut players = self.table_players(token, table_id);
        if contains_item(&players, &player) {
            return;
        }
        players.push(player);
        self.table_players.insert(TableKey { token, table_id }, players);
    }

    fn remove_table_player(&mut self, token: Address, table_id: u32, player: Address)
        ensures
            final(self)@ == old(self)@.strike_table_player(token, table_id, player),
    {
        let players = self.table_players(token, table_id);
        let next = copy_without(&players, &player);
        self.table_players.insert(TableKey { token, table_id }, next);
    }

    /// Sets an allocation and keeps both indexes in step.
    fn store_allocation(&mut self, player: Address, token: Address, table_id: u32, amount: i128)
        ensures
            final(self)@ == old(self)@.with_allocation(player, token, table_id, amount),
    {
        let key = AllocationKey { player, token, table_id };
        if amount == 0 {
            let _ = self.allocations.remove(&key);
            self.remove_player_table(player, token, table_id);
            self.remove_table_player(token, table_id, player);
        } else {
            self.allocations.insert(key, amount);
            self.add_player_table(player, token, table_id);
            self.add_table_player(token, table_id, player);
        }
    }
}

/// Administration and activity play no part in the well-formedness of the pool.
proof fn lemma_wf_frame(a: PoolState, b: PoolState)
    requires
        a.balances == b.balances,
        a.allocations == b.allocations,
        a.player_tables == b.player_tables,
        a.table_players == b.table_players,
        a.table_totals == b.table_totals,
    ensures
        a.wf() ==> b.wf(),
{
    if a.wf() {
        assert forall|p: Address, t: Address|
            #![trigger b.balance(p, t)]
            {
                let x = b.balance(p, t);
                &&& x.total_deposited == x.available_balance + x.locked_balance
                &&& x.available_balance >= 0
                &&& x.locked_balance == sum_by(b.tables_of(p, t), b.stake_at(p, t))
            } by {
            assert(b.balance(p, t) == a.balance(p, t));
            assert(b.tables_of(p, t) == a.tables_of(p, t));
            lemma_sum_agree(a.tables_of(p, t), a.stake_at(p, t), b.stake_at(p, t));
        }
        assert forall|p: Address, t: Address|
            #![trigger b.tables_of(p, t)]
            b.tables_of(p, t).no_duplicates() by {
            assert(b.tables_of(p, t) == a.tables_of(p, t));
        }
        assert forall|t: Address, id: u32|
            #![trigger b.players_at(t, id)]
            b.players_at(t, id).no_duplicates() by {
            assert(b.players_at(t, id) == a.players_at(t, id));
        }
        assert forall|p: Address, t: Address, id: u32|
            #![trigger b.tables_of(p, t).contains(id)]
            b.tables_of(p, t).contains(id) <==> b.allocations.contains_key(
                AllocationKey { player: p, token: t, table_id: id },
            ) by {
            assert(b.tables_of(p, t).contains(id) == a.tables_of(p, t).contains(id));
        }
        assert forall|p: Address, t: Address, id: u32|
            #![trigger b.players_at(t, id).contains(p)]
            b.players_at(t, id).contains(p) <==> b.allocations.contains_key(
                AllocationKey { player: p, token: t, table_id: id },
            ) by {
            assert(b.players_at(t, id).contains(p) == a.players_at(t, id).contains(p));
        }
        assert forall|t: Address, id: u32|
            #![trigger b.table_total(t, id)]
            b.table_total(t, id) == sum_by(b.players_at(t, id), b.stake_of(t, id)) by {
            assert(b.table_total(t, id) == a.table_total(t, id));
            lemma_sum_agree(a.players_at(t, id), a.stake_of(t, id), b.stake_of(t, id));
        }
    }
}

/// Changing only what is available, and the total with it, keeps the pool well formed.
proof fn lemma_rebalance(st: PoolState, player: Address, token: Address, b: PlayerBalance)
    requires
        st.wf(),
        b.total_deposited == b.available_balance + b.locked_balance,
        b.available_balance >= 0,
        b.locked_balance == st.balance(player, token).locked_balance,
    ensures
        st.with_balance(player, token, b).wf(),
{
    let n = st.with_balance(player, token, b);
    assert forall|p: Address, t: Address|
        #![trigger n.balance(p, t)]
        {
            let x = n.balance(p, t);
            &&& x.total_deposited == x.available_balance + x.locked_balance
            &&& x.available_balance >= 0
            &&& x.locked_balance == sum_by(n.tables_of(p, t), n.stake_at(p, t))
        } by {
        let x0 = st.balance(p, t);
        assert(n.tables_of(p, t) == st.tables_of(p, t));
        lemma_sum_agree(st.tables_of(p, t), st.stake_at(p, t), n.stake_at(p, t));
    }
    assert forall|p: Address, t: Address|
        #![trigger n.tables_of(p, t)]
        n.tables_of(p, t).no_duplicates() by {
        assert(n.tables_of(p, t) == st.tables_of(p, t));
    }
    assert forall|t: Address, id: u32|
        #![trigger n.players_at(t, id)]
        n.players_at(t, id).no_duplicates() by {
        assert(n.players_at(t, id) == st.players_at(t, id));
    }
    assert forall|p: Address, t: Address, id: u32|
        #![trigger n.tables_of(p, t).contains(id)]
        n.tables_of(p, t).contains(id) <==> n.allocations.contains_key(
            AllocationKey { player: p, token: t, table_id: id },
        ) by {
        assert(n.tables_of(p, t).contains(id) == st.tables_of(p, t).contains(id));
    }
    assert forall|p: Address, t: Address, id: u32|
        #![trigger n.players_at(t, id).contains(p)]
        n.players_at(t, id).contains(p) <==> n.allocations.contains_key(
            AllocationKey { player: p, token: t, table_id: id },
        ) by {
        assert(n.players_at(t, id).contains(p) == st.players_at(t, id).contains(p));
    }
    assert forall|t: Address, id: u32|
        #![trigger n.table_total(t, id)]
        n.table_total(t, id) == sum_by(n.players_at(t, id), n.stake_of(t, id)) by {
        assert(n.table_total(t, id) == st.table_total(t, id));
        lemma_sum_agree(st.players_at(t, id), st.stake_of(t, id), n.stake_of(t, id));
    }
}

/// The losses up to one more entry, and a refusal on the way is a refusal of the whole list.
proof fn lemma_losses_step(
    st: PoolState,
    token: Address,
    table_id: u32,
    losers: Seq<(Address, i128)>,
    i: int,
)
    requires
        0 <= i < losers.len(),
    ensures
        losers.take(i + 1).drop_last() == losers.take(i),
        losers.take(i + 1).last() == losers[i],
        st.after_losses(token, table_id, losers.take(i + 1)) matches Err(e)
            ==> st.after_losses(token, table_id, losers) == Err::<(PoolState, i128), _>(e),
    decreases losers.len() - i,
{
    assert(losers.take(i + 1).drop_last() =~= losers.take(i));
    if i + 1 < losers.len() {
        lemma_losses_step(st, token, table_id, losers, i + 1);
    } else {
        assert(losers.take(i + 1) =~= losers);
    }
}

/// The wins up to one more entry, and a refusal on the way is a refusal of the whole list.
proof fn lemma_wins_step(
    st: PoolState,
    token: Address,
    table_id: u32,
    winners: Seq<(Address, i128)>,
    i: int,
)
    requires
        0 <= i < winners.len(),
    ensures
        winners.take(i + 1).drop_last() == winners.take(i),
        winners.take(i + 1).last() == winners[i],
        st.after_wins(token, table_id, winners.take(i + 1)) matches Err(e) ==> st.after_wins(
            token,
            table_id,
            winners,
        ) == Err::<(PoolState, i128), _>(e),
    decreases winners.len() - i,
{
    assert(winners.take(i + 1).drop_last() =~= winners.take(i));
    if i + 1 < winners.len() {
        lemma_wins_step(st, token, table_id, winners, i + 1);
    } else {
        assert(winners.take(i + 1) =~= winners);
    }
}

/// The sum of the positive amounts in `entries`.
pub open spec fn positive_sum(entries: Seq<(Address, i128)>) -> int
    decreases entries.len(),
{
    if entries.len() == 0 {
        0
    } else {
        positive_sum(entries.drop_last()) + (if entries.last().1 > 0 {
            entries.last().1 as int
        } else {
            0
        })
    }
}

/// The sum of the positive amounts that `entries` names for `player`.
pub open spec fn share_of(entries: Seq<(Address, i128)>, player: Address) -> int
    decreases entries.len(),
{
    if entries.len() == 0 {
        0
    } else {
        share_of(entries.drop_last(), player) + (if entries.last().1 > 0 && entries.last().0
            == player {
            entries.last().1 as int
        } else {
            0
        })
    }
}

/// What `n` holds is what `st` holds, with `moved(player)` added at one table in one token.
pub open spec fn moved_at(
    st: PoolState,
    n: PoolState,
    token: Address,
    table_id: u32,
    moved: spec_fn(Address) -> int,
) -> bool {
    &&& forall|p: Address, t: Address|
        #![trigger n.balance(p, t)]
        {
            let d = if t == token {
                moved(p)
            } else {
                0
            };
            &&& n.balance(p, t).total_deposited == st.balance(p, t).total_deposited + d
            &&& n.balance(p, t).locked_balance == st.balance(p, t).locked_balance + d
            &&& n.balance(p, t).available_balance == st.balance(p, t).available_balance
        }
    &&& forall|p: Address, t: Address, id: u32|
        #![trigger n.allocation(p, t, id)]
        n.allocation(p, t, id) == st.allocation(p, t, id) + (if t == token && id == table_id {
            moved(p)
        } else {
            0
        })
}

/// Moving an amount in or out of one allocation.
proof fn lemma_shifted(st: PoolState, player: Address, token: Address, table_id: u32, amount: int)
    requires
        st.wf(),
        st.allocation(player, token, table_id) + amount >= 0,
        st.balance(player, token).total_deposited + amount <= i128::MAX,
        st.table_total(token, table_id) + amount <= i128::MAX,
    ensures
        st.shifted(player, token, table_id, amount).wf(),
        moved_at(
            st,
            st.shifted(player, token, table_id, amount),
            token,
            table_id,
            |p: Address|
                if p == player {
                    amount
                } else {
                    0
                },
        ),
{
    allocation_is_locked(st, player, token, table_id);
    let b = st.balance(player, token);
    let a = (st.allocation(player, token, table_id) + amount) as i128;
    let next = PlayerBalance {
        locked_balance: (b.locked_balance + amount) as i128,
        total_deposited: (b.total_deposited + amount) as i128,
        ..b
    };
    let total = (st.table_total(token, table_id) + amount) as i128;
    lemma_reallocate(st, player, token, table_id, a, next, total);
    let n = st.shifted(player, token, table_id, amount);
    assert(n == st.with_allocation(player, token, table_id, a).with_balance(
        player,
        token,
        next,
    ).with_table_total(token, table_id, total));
}

/// The losses of a hand move exactly what the list names.
proof fn lemma_losses_effect(
    st: PoolState,
    token: Address,
    table_id: u32,
    losers: Seq<(Address, i128)>,
)
    requires
        st.wf(),
        st.after_losses(token, table_id, losers) is Ok,
    ensures
        ({
            let (n, lost) = st.after_losses(token, table_id, losers)->Ok_0;
            &&& n.wf()
            &&& lost == positive_sum(losers)
            &&& moved_at(st, n, token, table_id, |p: Address| -share_of(losers, p))
            &&& n.table_total(token, table_id) == st.table_total(token, table_id) - lost
        }),
    decreases losers.len(),
{
    if losers.len() > 0 {
        let d = losers.drop_last();
        lemma_losses_effect(st, token, table_id, d);
        let (m, _) = st.after_losses(token, table_id, d)->Ok_0;
        let (loser, loss) = losers.last();
        if loss > 0 {
            allocation_is_locked(m, loser, token, table_id);
            lemma_shifted(m, loser, token, table_id, -loss);
        }
    }
}

/// The wins of a hand move exactly what the list names.
proof fn lemma_wins_effect(
    st: PoolState,
    token: Address,
    table_id: u32,
    winners: Seq<(Address, i128)>,
)
    requires
        st.wf(),
        st.wins_fit(token, table_id, winners),
        st.after_wins(token, table_id, winners) is Ok,
    ensures
        ({
            let (n, won) = st.after_wins(token, table_id, winners)->Ok_0;
            &&& n.wf()
            &&& won == positive_sum(winners)
            &&& moved_at(st, n, token, table_id, |p: Address| share_of(winners, p))
            &&& n.table_total(token, table_id) == st.table_total(token, table_id) + won
        }),
    decreases winners.len(),
{
    if winners.len() > 0 {
        let d = winners.drop_last();
        assert forall|i: int|
            #![trigger d[i]]
            0 <= i < d.len() implies match st.after_wins(token, table_id, d.take(i)) {
            Err(_) => true,
            Ok((s, won)) => d[i].1 <= 0 || won + d[i].1 > i128::MAX || {
                &&& s.balance(d[i].0, token).total_deposited + d[i].1 <= i128::MAX
                &&& s.table_total(token, table_id) + d[i].1 <= i128::MAX
            },
        } by {
            assert(d.take(i) =~= winners.take(i));
            assert(d[i] == winners[i]);
        }
        lemma_wins_effect(st, token, table_id, d);
        let (m, _) = st.after_wins(token, table_id, d)->Ok_0;
        let last = winners[winners.len() - 1];
        assert(winners.take(winners.len() - 1) =~= d);
        if last.1 > 0 {
            allocation_is_locked(m, last.0, token, table_id);
            lemma_shifted(m, last.0, token, table_id, last.1 as int);
        }
    }
}

/// A settled hand moves to each player what the list of winners names for them and from each
/// player what the list of losers names, all of it at that table. Nothing available is touched,
/// the losses are the wins and the rake together, and the table holds less by the rake.
pub proof fn settlement_conserves_chips(
    st: PoolState,
    token: Address,
    table_id: u32,
    winners: Seq<(Address, i128)>,
    losers: Seq<(Address, i128)>,
    rake: i128,
    now: u32,
)
    requires
        st.wf(),
        st.after_losses(token, table_id, losers) matches Ok((s, _)) ==> s.wins_fit(
            token,
            table_id,
            winners,
        ),
        st.settled(token, table_id, winners, losers, rake, now) is Ok,
    ensures
        positive_sum(losers) == positive_sum(winners) + rake,
        moved_at(
            st,
            st.settled(token, table_id, winners, losers, rake, now)->Ok_0,
            token,
            table_id,
            |p: Address| share_of(winners, p) - share_of(losers, p),
        ),
        st.settled(token, table_id, winners, losers, rake, now)->Ok_0.table_total(token, table_id)
            == st.table_total(token, table_id) - rake,
{
    lemma_losses_effect(st, token, table_id, losers);
    let (s1, lost) = st.after_losses(token, table_id, losers)->Ok_0;
    lemma_wins_effect(s1, token, table_id, winners);
    let (s2, won) = s1.after_wins(token, table_id, winners)->Ok_0;
    let n = st.settled(token, table_id, winners, losers, rake, now)->Ok_0;
    assert(n == s2.touched(table_id, now));
    assert forall|p: Address, t: Address|
        #![trigger n.balance(p, t)]
        {
            let d = if t == token {
                share_of(winners, p) - share_of(losers, p)
            } else {
                0
            };
            &&& n.balance(p, t).total_deposited == st.balance(p, t).total_deposited + d
            &&& n.balance(p, t).locked_balance == st.balance(p, t).locked_balance + d
            &&& n.balance(p, t).available_balance == st.balance(p, t).available_balance
        } by {
        assert(n.balance(p, t) == s2.balance(p, t));
        let x = s1.balance(p, t);
    }
    assert forall|p: Address, t: Address, id: u32|
        #![trigger n.allocation(p, t, id)]
        n.allocation(p, t, id) == st.allocation(p, t, id) + (if t == token && id == table_id {
            share_of(winners, p) - share_of(losers, p)
        } else {
            0
        }) by {
        assert(n.allocation(p, t, id) == s2.allocation(p, t, id));
        let x = s1.allocation(p, t, id);
    }
}

/// The total of a table is the sum of what each player listed there has, and a player who is not
/// listed has nothing there.
pub proof fn total_is_shared_by_players(st: PoolState, token: Address, table_id: u32, player: Address)
    requires
        st.wf(),
    ensures
        st.table_total(token, table_id) == sum_by(
            st.players_at(token, table_id),
            st.stake_of(token, table_id),
        ),
        !st.players_at(token, table_id).contains(player) ==> st.allocation(player, token, table_id)
            == 0,
{
    let total = st.table_total(token, table_id);
    assert(st.players_at(token, table_id).contains(player) == st.allocations.contains_key(
        AllocationKey { player, token, table_id },
    ));
}

/// What a player deposits can be withdrawn at once, and the balance is then what it was.
pub proof fn withdraw_undoes_deposit(st: PoolState, player: Address, token: Address, amount: i128)
    requires
        st.wf(),
        amount > 0,
        st.balance(player, token).total_deposited + amount <= i128::MAX,
    ensures
        st.deposited(player, token, amount).balance(player, token).available_balance >= amount,
        st.deposited(player, token, amount).deposited(player, token, (-amount) as i128).balance(
            player,
            token,
        ) == st.balance(player, token),
{
    allocation_is_locked(st, player, token, 0);
}

/// What a player moves to a table can be moved back at once, and the balance, the allocation, the
/// total of the table, the player's tables and the table's players are then what they were.
pub proof fn deallocate_undoes_allocate(
    st: PoolState,
    player: Address,
    token: Address,
    table_id: u32,
    amount: i128,
    now: u32,
    later: u32,
)
    requires
        st.wf(),
        0 < amount <= st.balance(player, token).available_balance,
        st.table_total(token, table_id) + amount <= i128::MAX,
    ensures
        ({
            let mid = st.allocated(player, token, table_id, amount, now);
            let end = mid.deallocated(player, token, table_id, amount, later);
            &&& mid.allocation(player, token, table_id) >= amount
            &&& end.balance(player, token) == st.balance(player, token)
            &&& end.allocation(player, token, table_id) == st.allocation(player, token, table_id)
            &&& end.table_total(token, table_id) == st.table_total(token, table_id)
            &&& end.tables_of(player, token) == st.tables_of(player, token)
            &&& end.players_at(token, table_id) == st.players_at(token, table_id)
        }),
{
    allocation_is_locked(st, player, token, table_id);
    let mid = st.allocated(player, token, table_id, amount, now);
    assert(mid.allocation(player, token, table_id) == st.allocation(player, token, table_id)
        + amount);
    assert(mid.table_total(token, table_id) == st.table_total(token, table_id) + amount);
    let k = AllocationKey { player, token, table_id };
    let ts = st.tables_of(player, token);
    let ps = st.players_at(token, table_id);
    assert(ts.contains(table_id) == st.allocations.contains_key(k));
    assert(ps.contains(player) == st.allocations.contains_key(k));
    lemma_push_without(ts, table_id);
    lemma_push_without(ps, player);
    let end = mid.deallocated(player, token, table_id, amount, later);
    if st.allocations.contains_key(k) {
        assert(mid.tables_of(player, token) == ts);
        assert(mid.players_at(token, table_id) == ps);
    } else {
        assert(mid.tables_of(player, token) == ts.push(table_id));
        assert(mid.players_at(token, table_id) == ps.push(player));
    }
}

/// Striking what was just added to a list that did not hold it gives the list back.
proof fn lemma_push_without<T>(s: Seq<T>, x: T)
    ensures
        !s.contains(x) ==> without(s.push(x), x) == s,
{
    if !s.contains(x) {
        assert(s.push(x).drop_last() =~= s);
        lemma_without_absent(s, x);
    }
}

proof fn lemma_without_absent<T>(s: Seq<T>, x: T)
    requires
        !s.contains(x),
    ensures
        without(s, x) == s,
    decreases s.len(),
{
    if s.len() > 0 {
        let d = s.drop_last();
        assert(!d.contains(x)) by {
            if d.contains(x) {
                assert(s[d.index_of(x)] == x);
            }
        }
        assert(s[s.len() - 1] != x);
        lemma_without_absent(d, x);
        assert(d.push(s.last()) =~= s);
    }
}

/// A deposit or a withdrawal changes what the player has available, and the total with it, by its
/// amount. What is locked, what others have and what tables hold stay.
pub proof fn deposits_are_available(
    st: PoolState,
    player: Address,
    token: Address,
    amount: i128,
    other: AccountKey,
)
    requires
        st.wf(),
        i128::MIN <= st.balance(player, token).total_deposited + amount <= i128::MAX,
        0 <= st.balance(player, token).available_balance + amount,
        other != (AccountKey { player, token }),
    ensures
        ({
            let n = st.deposited(player, token, amount);
            let (b, c) = (st.balance(player, token), n.balance(player, token));
            &&& c.available_balance == b.available_balance + amount
            &&& c.total_deposited == b.total_deposited + amount
            &&& c.locked_balance == b.locked_balance
            &&& n.balance(other.player, other.token) == st.balance(other.player, other.token)
            &&& n.allocations == st.allocations && n.table_totals == st.table_totals
                && n.player_tables == st.player_tables && n.last_activity == st.last_activity
        }),
{
    allocation_is_locked(st, player, token, 0);
}

/// Putting chips on a table locks them: they leave what is available and stand at the table, and
/// the total of the player stays. No other account and no other table is touched, and the table is
/// active at that ledger.
pub proof fn allocating_locks_chips(
    st: PoolState,
    player: Address,
    token: Address,
    table_id: u32,
    amount: i128,
    now: u32,
    other: AllocationKey,
)
    requires
        st.wf(),
        0 < amount <= st.balance(player, token).available_balance,
        st.table_total(token, table_id) + amount <= i128::MAX,
        other != (AllocationKey { player, token, table_id }),
    ensures
        ({
            let n = st.allocated(player, token, table_id, amount, now);
            let (b, c) = (st.balance(player, token), n.balance(player, token));
            &&& c.available_balance == b.available_balance - amount
            &&& c.locked_balance == b.locked_balance + amount
            &&& c.total_deposited == b.total_deposited
            &&& n.allocation(player, token, table_id) == st.allocation(player, token, table_id)
                + amount
            &&& n.table_total(token, table_id) == st.table_total(token, table_id) + amount
            &&& n.allocation(other.player, other.token, other.table_id) == st.allocation(
                other.player,
                other.token,
                other.table_id,
            )
            &&& (other.player != player || other.token != token) ==> n.balance(
                other.player,
                other.token,
            ) == st.balance(other.player, other.token)
            &&& (other.token != token || other.table_id != table_id) ==> n.table_total(
                other.token,
                other.table_id,
            ) == st.table_total(other.token, other.table_id)
            &&& n.last_activity[table_id] == now
            &&& n.tables_of(player, token).contains(table_id)
            &&& n.players_at(token, table_id).contains(player)
        }),
{
    allocation_is_locked(st, player, token, table_id);
    let n = st.allocated(player, token, table_id, amount, now);
    let (ts, ps) = (st.tables_of(player, token), st.players_at(token, table_id));
    if !ts.contains(table_id) {
        assert(ts.push(table_id)[ts.len() as int] == table_id);
    }
    if !ps.contains(player) {
        assert(ps.push(player)[ps.len() as int] == player);
    }
}

/// Taking chips off a table makes them available again, and takes them from that table alone.
pub proof fn deallocating_frees_chips(
    st: PoolState,
    player: Address,
    token: Address,
    table_id: u32,
    amount: i128,
    now: u32,
    other: AllocationKey,
)
    requires
        st.wf(),
        0 < amount <= st.allocation(player, token, table_id),
        other != (AllocationKey { player, token, table_id }),
    ensures
        ({
            let n = st.deallocated(player, token, table_id, amount, now);
            let (b, c) = (st.balance(player, token), n.balance(player, token));
            &&& c.available_balance == b.available_balance + amount
            &&& c.locked_balance == b.locked_balance - amount
            &&& c.total_deposited == b.total_deposited
            &&& n.allocation(player, token, table_id) == st.allocation(player, token, table_id)
                - amount
            &&& n.table_total(token, table_id) == st.table_total(token, table_id) - amount
            &&& n.allocation(other.player, other.token, other.table_id) == st.allocation(
                other.player,
                other.token,
                other.table_id,
            )
            &&& (other.player != player || other.token != token) ==> n.balance(
                other.player,
                other.token,
            ) == st.balance(other.player, other.token)
            &&& n.last_activity[table_id] == now
        }),
{
    allocation_is_locked(st, player, token, table_id);
}

/// A settlement goes through only where what is lost is what is won and the rake: for any other
/// rake the same results are refused.
pub proof fn settlements_must_balance(
    st: PoolState,
    token: Address,
    table_id: u32,
    winners: Seq<(Address, i128)>,
    losers: Seq<(Address, i128)>,
    rake: i128,
    other: i128,
    now: u32,
)
    requires
        st.settled(token, table_id, winners, losers, rake, now) is Ok,
        other != rake,
    ensures
        st.settled(token, table_id, winners, losers, other, now) is Err,
{
}

/// Chips on a table can be freed without the table once nothing has happened there for the timeout:
/// not before, and from then on, however late. Activity puts it off.
pub proof fn unlocking_waits_for_the_timeout(st: PoolState, table_id: u32, now: u32)
    ensures
        ({
            let last = if st.last_activity.contains_key(table_id) {
                st.last_activity[table_id] as int
            } else {
                0
            };
            let timeout = if st.timeout is Some {
                st.timeout->0 as int
            } else {
                17_280
            };
            &&& last + timeout <= u32::MAX ==> st.unlock_ledger(table_id) == last + timeout
            &&& last + timeout > u32::MAX ==> st.unlock_ledger(table_id) == u32::MAX
            &&& last <= now && now + timeout <= u32::MAX ==> st.touched(
                table_id,
                now,
            ).unlock_ledger(table_id) == now + timeout
        }),
{
}

/// Tables are operated by the administrator and by those whom the administrator has authorized.
pub proof fn operators_are_authorized(st: PoolState, caller: Address)
    ensures
        st.may_operate(caller) <==> st.admin == Some(caller) || (st.authorized.contains_key(caller)
            && st.authorized[caller]),
{
}

} // verus!
