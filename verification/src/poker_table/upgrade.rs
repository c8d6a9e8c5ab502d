//! Code upgrades that the administrator proposes, that wait for their delay, and that can be
//! taken back for a while.

use crate::assoc::AssocMap;
use crate::host::Bytes32;
use crate::poker_table::types::{PokerTableError, UpgradeProposal, UpgradeRecord};
use vstd::prelude::*;

verus! {

/// The least delay between a proposal and its execution: one day.
pub const MIN_UPGRADE_DELAY_SECONDS: u64 = 86_400;

/// How long an upgrade can be taken back: six hours.
pub const ROLLBACK_WINDOW_SECONDS: u64 = 21_600;

/// The proposals and the last upgrades of all tables.
#[verifier::ext_equal]
pub struct UpgradesView {
    pub proposals: Map<u32, UpgradeProposal>,
    pub last: Map<u32, UpgradeRecord>,
}

impl UpgradesView {
    /// Why a proposal cannot be executed at time `now`, if it cannot.
    pub open spec fn execution_refusal(self, table_id: u32, now: u64) -> Option<PokerTableError> {
        if !self.proposals.contains_key(table_id) {
            Some(PokerTableError::NoUpgradeProposal)
        } else if now < self.proposals[table_id].execute_after {
            Some(PokerTableError::UpgradeDelayNotElapsed)
        } else {
            None
        }
    }

    /// The state after a proposal is executed: the code before it is that of the last upgrade.
    pub open spec fn executed(self, table_id: u32, now: u64) -> Self {
        UpgradesView {
            proposals: self.proposals.remove(table_id),
            last: self.last.insert(
                table_id,
                UpgradeRecord {
                    previous_wasm_hash: if self.last.contains_key(table_id) {
                        Some(self.last[table_id].new_wasm_hash)
                    } else {
                        None
                    },
                    new_wasm_hash: self.proposals[table_id].new_wasm_hash,
                    executed_at: now,
                },
            ),
        }
    }

    /// Why the last upgrade cannot be taken back at time `now`, if it cannot.
    pub open spec fn revert_refusal(self, table_id: u32, now: u64) -> Option<PokerTableError> {
        if !self.last.contains_key(table_id) || self.last[table_id].previous_wasm_hash is None {
            Some(PokerTableError::NoUpgradeToRevert)
        } else if now > self.last[table_id].executed_at + ROLLBACK_WINDOW_SECONDS {
            Some(PokerTableError::RollbackWindowExpired)
        } else {
            None
        }
    }
}

/// The upgrades of all tables.
pub struct Upgrades {
    proposals: AssocMap<u32, UpgradeProposal>,
    last: AssocMap<u32, UpgradeRecord>,
}

impl View for Upgrades {
    type V = UpgradesView;

    closed spec fn view(&self) -> UpgradesView {
        UpgradesView { proposals: self.proposals@, last: self.last@ }
    }
}

impl Upgrades {
    /// No upgrades.
    pub fn new() -> (r: Self)
        ensures
            r@ == (UpgradesView { proposals: Map::empty(), last: Map::empty() }),
    {
        Upgrades { proposals: AssocMap::new(), last: AssocMap::new() }
    }

    /// Proposes an upgrade at time `now`, in place of any other proposal.
    pub fn propose_upgrade(
        &mut self,
        table_id: u32,
        new_wasm_hash: Bytes32,
        delay_seconds: u64,
        now: u64,
    ) -> (r: Result<(), PokerTableError>)
        requires
            delay_seconds >= MIN_UPGRADE_DELAY_SECONDS ==> now + delay_seconds <= u64::MAX,
        ensures
            delay_seconds < MIN_UPGRADE_DELAY_SECONDS ==> r == Err::<(), _>(
                PokerTableError::UpgradeDelayTooShort,
            ) && final(self)@ == old(self)@,
            delay_seconds >= MIN_UPGRADE_DELAY_SECONDS ==> r is Ok && final(self)@ == (
            UpgradesView {
                proposals: old(self)@.proposals.insert(
                    table_id,
                    UpgradeProposal { new_wasm_hash, execute_after: (now + delay_seconds) as u64 },
                ),
                ..old(self)@
            }),
            r is Ok <==> delay_seconds >= 24 * 60 * 60,
            r is Ok ==> {
                let p = final(self)@.proposals[table_id];
                &&& final(self)@.proposals.contains_key(table_id)
                &&& p.new_wasm_hash == new_wasm_hash
                &&& p.execute_after - now == delay_seconds
            },
    {
        if delay_seconds < MIN_UPGRADE_DELAY_SECONDS {
            return Err(PokerTableError::UpgradeDelayTooShort);
        }
        self.proposals.insert(
            table_id,
            UpgradeProposal { new_wasm_hash, execute_after: now + delay_seconds },
        );
        Ok(())
    }

    /// Executes the proposal of a table at time `now` and returns the code to switch to: the one
    /// that was proposed.
    pub fn execute_upgrade(&mut self, table_id: u32, now: u64) -> (r: Result<
        Bytes32,
        PokerTableError,
    >)
        ensures
            match old(self)@.execution_refusal(table_id, now) {
                Some(e) => r == Err::<Bytes32, _>(e) && final(self)@ == old(self)@,
                None => r == Ok::<_, PokerTableError>(
                    old(self)@.proposals[table_id].new_wasm_hash,
                ) && final(self)@ == old(self)@.executed(table_id, now),
            },
    {
        let proposal = match self.proposals.get(&table_id) {
            Some(p) => *p,
            None => {
                return Err(PokerTableError::NoUpgradeProposal);
            },
        };
        if now < proposal.execute_after {
            return Err(PokerTableError::UpgradeDelayNotElapsed);
        }
        let _ = self.proposals.remove(&table_id);
        let previous_wasm_hash = match self.last.get(&table_id) {
            Some(r) => Some(r.new_wasm_hash),
            None => None,
        };
        self.last.insert(
            table_id,
            UpgradeRecord {
                previous_wasm_hash,
                new_wasm_hash: proposal.new_wasm_hash,
                executed_at: now,
            },
        );
        Ok(proposal.new_wasm_hash)
    }

    /// Takes the last upgrade of a table back at time `now` and returns the code to switch to.
    pub fn revert_last_upgrade(&mut self, table_id: u32, now: u64) -> (r: Result<
        Bytes32,
        PokerTableError,
    >)
        ensures
            match old(self)@.revert_refusal(table_id, now) {
                Some(e) => r == Err::<Bytes32, _>(e) && final(self)@ == old(self)@,
                None => r == Ok::<_, PokerTableError>(
                    old(self)@.last[table_id].previous_wasm_hash->0,
                ) && final(self)@ == (UpgradesView {
                    last: old(self)@.last.remove(table_id),
                    ..old(self)@
                }),
            },
    {
        let record = match self.last.get(&table_id) {
            Some(r) => *r,
            None => {
                return Err(PokerTableError::NoUpgradeToRevert);
            },
        };
        let previous = match record.previous_wasm_hash {
            Some(h) => h,
            None => {
                return Err(PokerTableError::NoUpgradeToRevert);
            },
        };
        let elapsed: u64 = now.saturating_sub(record.executed_at);
        if elapsed > ROLLBACK_WINDOW_SECONDS {
            return Err(PokerTableError::RollbackWindowExpired);
        }
        let _ = self.last.remove(&table_id);
        Ok(previous)
    }

    /// The last upgrade of a table.
    pub fn get_last_upgrade(&self, table_id: u32) -> (r: Option<UpgradeRecord>)
        ensures
            r == self@.last.index_opt(table_id),
    {
        match self.last.get(&table_id) {
            Some(r) => Some(*r),
            None => None,
        }
    }

    /// Drops the proposal of a table.
    pub fn cancel_upgrade(&mut self, table_id: u32) -> (r: Result<(), PokerTableError>)
        ensures
            old(self)@.proposals.contains_key(table_id) ==> r is Ok && final(self)@ == (
            UpgradesView { proposals: old(self)@.proposals.remove(table_id), ..old(self)@ }),
            !old(self)@.proposals.contains_key(table_id) ==> r == Err::<(), _>(
                PokerTableError::NoUpgradeProposal,
            ) && final(self)@ == old(self)@,
    {
        if !self.proposals.contains(&table_id) {
            return Err(PokerTableError::NoUpgradeProposal);
        }
        let _ = self.proposals.remove(&table_id);
        Ok(())
    }

    /// The proposal of a table.
    pub fn get_upgrade_proposal(&self, table_id: u32) -> (r: Option<UpgradeProposal>)
        ensures
            r == self@.proposals.index_opt(table_id),
    {
        match self.proposals.get(&table_id) {
            Some(p) => Some(*p),
            None => None,
        }
    }
}

/// Taking an upgrade back restores the code that the upgrade before it put in place, and cannot
/// be done twice.
pub proof fn revert_restores_previous(st: UpgradesView, table_id: u32, now: u64, later: u64)
    requires
        st.execution_refusal(table_id, now) is None,
    ensures
        ({
            let n = st.executed(table_id, now);
            let r = UpgradesView { last: n.last.remove(table_id), ..n };
            &&& !st.last.contains_key(table_id) ==> n.revert_refusal(table_id, later) == Some(
                PokerTableError::NoUpgradeToRevert,
            )
            &&& st.last.contains_key(table_id) ==> n.last[table_id].previous_wasm_hash == Some(
                st.last[table_id].new_wasm_hash,
            )
            &&& st.last.contains_key(table_id) && now <= later <= now + ROLLBACK_WINDOW_SECONDS
                ==> n.revert_refusal(table_id, later) is None
            &&& r.revert_refusal(table_id, later) == Some(PokerTableError::NoUpgradeToRevert)
        }),
{
}

/// A proposal is executed at most once.
pub proof fn proposal_executes_once(st: UpgradesView, table_id: u32, now: u64, later: u64)
    ensures
        st.executed(table_id, now).execution_refusal(table_id, later) == Some(
            PokerTableError::NoUpgradeProposal,
        ),
{
}

/// An upgrade is executed from the end of its delay on, and can be taken back for six hours, once,
/// where the code before it is known. Executing one leaves every other table alone.
pub proof fn upgrades_wait_and_can_be_taken_back(
    st: UpgradesView,
    table_id: u32,
    other: u32,
    now: u64,
)
    requires
        other != table_id,
    ensures
        st.execution_refusal(table_id, now) is None <==> st.proposals.contains_key(table_id) && now
            >= st.proposals[table_id].execute_after,
        st.revert_refusal(table_id, now) is None <==> st.last.contains_key(table_id)
            && st.last[table_id].previous_wasm_hash is Some && now <= st.last[table_id].executed_at
            + 6 * 60 * 60,
        ({
            let n = st.executed(table_id, now);
            &&& n.last[table_id].new_wasm_hash == st.proposals[table_id].new_wasm_hash
            &&& n.last[table_id].executed_at == now
            &&& !n.proposals.contains_key(table_id)
            &&& n.proposals.contains_key(other) == st.proposals.contains_key(other)
            &&& n.proposals[other] == st.proposals[other]
            &&& n.last.contains_key(other) == st.last.contains_key(other)
            &&& n.last[other] == st.last[other]
        }),
{
}

} // verus!
