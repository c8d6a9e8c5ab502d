//! Closing tables and upgrading the code.

use super::recovery::{lemma_paid_out, paid_out_table, paid_twice, pay_out_is_stacks_and_pot, running_hand_pays_out_exactly};
use super::streets::lemma_same_funds;
use super::{ContractView, PokerTableContract};
use crate::assoc::value_or;
use crate::host::{
    address_digest, address_eq, address_listed, digest_listed, Address, Bytes32, Transfer,
};
use crate::poker_table::governance::{
    valid_governance, validate_governance_config, GovernanceView, upgrade_needs_approvals};
use crate::poker_table::refunds::{
    refund_moves_its_total, refund_table_players, refund_total, refund_transfers, refunds_fit,
    transfer_total,
};
use crate::poker_table::types::{
    PendingUpgrade, PokerTableError, TableClosureProposal, TableState, UpgradeProposal,
    UpgradeRecord,
};
use crate::poker_table::upgrade::{UpgradesView, MIN_UPGRADE_DELAY_SECONDS};
use soroban_sdk::Env;
use vstd::prelude::*;

verus! {

/// How long before a table is closed it is announced: one day.
pub const TABLE_CLOSURE_NOTICE_SECONDS: u64 = 86_400;

/// Whether an address is the administrator of a table or its game hub.
pub open spec fn owns_or_governs(table: TableState, caller: Address) -> bool {
    caller == table.admin || caller == table.config.game_hub
}

/// Refuses everybody but the administrator of a table and its game hub.
pub fn require_table_owner_or_governance(table: &TableState, caller: &Address) -> (r: Result<
    (),
    PokerTableError,
>)
    ensures
        r == (if owns_or_governs(*table, *caller) {
            Ok::<(), _>(())
        } else {
            Err(PokerTableError::NotAuthorizedCommittee)
        }),
{
    if *caller == table.admin || *caller == table.config.game_hub {
        Ok(())
    } else {
        Err(PokerTableError::NotAuthorizedCommittee)
    }
}

/// When a closure that is announced at time `now` can be executed.
pub open spec fn closure_time(now: u64) -> u64 {
    if now + TABLE_CLOSURE_NOTICE_SECONDS > u64::MAX {
        u64::MAX
    } else {
        (now + TABLE_CLOSURE_NOTICE_SECONDS) as u64
    }
}

impl ContractView {
    /// Why a closure cannot be announced, if it cannot.
    pub open spec fn closure_refusal(self, table_id: u32, caller: Address) -> Option<
        PokerTableError,
    > {
        if !self.tables.contains_key(table_id) {
            Some(PokerTableError::TableNotFound)
        } else if !owns_or_governs(self.tables[table_id], caller) {
            Some(PokerTableError::NotAuthorizedCommittee)
        } else if self.closures.contains_key(table_id) {
            Some(PokerTableError::TableClosureInProgress)
        } else {
            None
        }
    }

    /// Why a closure cannot be executed at time `now`, if it cannot.
    pub open spec fn closing_refusal(self, table_id: u32, now: u64) -> Option<PokerTableError> {
        if self.paused_at(table_id) {
            Some(PokerTableError::ContractPaused)
        } else if !self.tables.contains_key(table_id) {
            Some(PokerTableError::TableNotFound)
        } else if !self.closures.contains_key(table_id) {
            Some(PokerTableError::TableClosureNotProposed)
        } else if now < self.closures[table_id].execute_after {
            Some(PokerTableError::TableClosureNotReady)
        } else {
            None
        }
    }

    /// Whether a table has signers for its upgrades.
    pub open spec fn governed(self, table_id: u32) -> bool {
        self.governance.signers_of(table_id).len() > 0
    }

    /// Why the administrator of a table cannot propose an upgrade that waits `delay_seconds`, if
    /// they cannot.
    pub open spec fn proposal_refusal(self, table_id: u32, delay_seconds: u64) -> Option<
        PokerTableError,
    > {
        if !self.tables.contains_key(table_id) {
            Some(PokerTableError::TableNotFound)
        } else if self.governed(table_id) {
            Some(PokerTableError::NotAnUpgradeSigner)
        } else if delay_seconds < MIN_UPGRADE_DELAY_SECONDS {
            Some(PokerTableError::UpgradeDelayTooShort)
        } else {
            None
        }
    }

    /// Why the upgrade that the administrator of a table has proposed cannot be executed at time
    /// `now`, if it cannot.
    pub open spec fn proposed_refusal(self, table_id: u32, now: u64) -> Option<PokerTableError> {
        if !self.tables.contains_key(table_id) {
            Some(PokerTableError::TableNotFound)
        } else if self.governed(table_id) {
            Some(PokerTableError::NotEnoughUpgradeApprovals)
        } else {
            self.upgrades.execution_refusal(table_id, now)
        }
    }

    /// The state after the pending upgrade of a table is dropped.
    pub open spec fn pending_cleared(self, table_id: u32) -> Self {
        ContractView {
            governance: GovernanceView {
                pending: self.governance.pending.remove(table_id),
                ..self.governance
            },
            ..self
        }
    }

    /// Why an approved upgrade to `target` cannot be executed at ledger `now`, if it cannot.
    pub open spec fn governed_refusal(self, table_id: u32, now: u32) -> Option<PokerTableError> {
        if !self.governed(table_id) {
            Some(PokerTableError::InvalidGovernanceConfig)
        } else if !self.governance.pending.contains_key(table_id) {
            Some(PokerTableError::NoPendingUpgrade)
        } else {
            self.governance.execution_refusal(
                table_id,
                self.governance.pending[table_id].wasm_hash,
                now,
            )
        }
    }

    /// Why the code cannot be upgraded to `target` at ledger `now`, if it cannot.
    pub open spec fn upgrade_refusal(self, table_id: u32, target: Bytes32, now: u32) -> Option<
        PokerTableError,
    > {
        if !self.tables.contains_key(table_id) {
            Some(PokerTableError::TableNotFound)
        } else if !self.governed(table_id) {
            None
        } else {
            self.governance.execution_refusal(table_id, target, now)
        }
    }

    /// The delay of a pending upgrade ends at a ledger that there can be.
    pub open spec fn delay_fits(self, table_id: u32) -> bool {
        self.governance.pending.contains_key(table_id)
            ==> self.governance.pending[table_id].started_ledger + value_or(
            self.governance.delays,
            table_id,
            0,
        ) <= u32::MAX
    }
}

impl PokerTableContract {
    /// Announces at time `now` that a table will be closed, and returns when it can be.
    pub fn propose_table_closure(&mut self, table_id: u32, caller: &Address, now: u64) -> (r: Result<
        u64,
        PokerTableError,
    >)
        requires
            old(self)@.wf(),
        ensures
            match old(self)@.closure_refusal(table_id, *caller) {
                Some(e) => r == Err::<u64, _>(e) && final(self)@ == old(self)@,
                None => r == Ok::<_, PokerTableError>(closure_time(now)) && final(self)@ == (
                ContractView {
                    closures: old(self)@.closures.insert(
                        table_id,
                        TableClosureProposal { execute_after: closure_time(now) },
                    ),
                    ..old(self)@
                }),
            },
            final(self)@.wf(),
    {
        let ghost st = self@;
        match self.get_table(table_id) {
            Ok(t) => match require_table_owner_or_governance(t, caller) {
                Ok(()) => {},
                Err(e) => {
                    return Err(e);
                },
            },
            Err(e) => {
                return Err(e);
            },
        }
        if self.closures.contains(&table_id) {
            return Err(PokerTableError::TableClosureInProgress);
        }
        let execute_after: u64 = now.saturating_add(TABLE_CLOSURE_NOTICE_SECONDS);
        self.closures.insert(table_id, TableClosureProposal { execute_after });
        proof {
            lemma_same_funds(st, self@);
        }
        Ok(execute_after)
    }

    /// Closes a table at ledger `now` and time `timestamp`, once its notice is over, and pays
    /// every player out: the stack and what they have put into the pot. Between hands that pot is
    /// paid already, and what they had put into it is paid on top. Returns the sum and the
    /// transfers.
    pub fn execute_table_closure(&mut self, table_id: u32, now: u32, timestamp: u64) -> (r: Result<
        (i128, Vec<Transfer>),
        PokerTableError,
    >)
        requires
            old(self)@.wf(),
            old(self)@.closing_refusal(table_id, timestamp) is None
                && old(self)@.tables[table_id].phase.between_hands() ==> refunds_fit(
                old(self)@.tables[table_id].players@,
            ),
        ensures
            ({
                let t = old(self)@.tables[table_id];
                let u = final(self)@.tables[table_id];
                match old(self)@.closing_refusal(table_id, timestamp) {
                    Some(e) => r == Err::<(i128, Vec<Transfer>), _>(e) && final(self)@ == old(self)@,
                    None => {
                        &&& r matches Ok((sum, transfers)) && sum == refund_total(t.players@)
                            && transfers@ == refund_transfers(t.config.token, t.players@)
                        &&& paid_out_table(t, u, now)
                        &&& final(self)@ == (ContractView {
                            closures: old(self)@.closures.remove(table_id),
                            ..old(self)@.with_table(table_id, u)
                        })
                        &&& final(self)@.funds(table_id) == old(self)@.funds(table_id)
                            - transfer_total((r->Ok_0).1@) + paid_twice(t)
                    },
                }
            }),
            final(self)@.wf(),
    {
        let ghost st = self@;
        if self.is_paused(table_id) {
            return Err(PokerTableError::ContractPaused);
        }
        if !self.tables.contains(&table_id) {
            return Err(PokerTableError::TableNotFound);
        }
        match self.closures.get(&table_id) {
            Some(p) => {
                if timestamp < p.execute_after {
                    return Err(PokerTableError::TableClosureNotReady);
                }
            },
            None => {
                return Err(PokerTableError::TableClosureNotProposed);
            },
        }
        let ghost t = st.tables[table_id];
        proof {
            if !t.phase.between_hands() {
                running_hand_pays_out_exactly(t);
            }
            pay_out_is_stacks_and_pot(t);
            refund_moves_its_total(t.config.token, t.players@);
        }
        let mut table = self.take_table(table_id);
        let paid = refund_table_players(&mut table, now);
        let ghost u = table;
        let _ = self.closures.remove(&table_id);
        self.put_table(table_id, table);
        proof {
            lemma_paid_out(st, table_id, u, now);
            let m = st.with_table(table_id, u);
            assert(self@.tables =~= m.tables);
            lemma_same_funds(m, self@);
            assert(self@.queue_of(table_id) == st.queue_of(table_id));
        }
        Ok(paid)
    }

    /// The announced closure of a table.
    pub fn get_table_closure(&self, table_id: u32) -> (r: Result<
        Option<TableClosureProposal>,
        PokerTableError,
    >)
        ensures
            r == (if self@.tables.contains_key(table_id) {
                Ok(self@.closures.index_opt(table_id))
            } else {
                Err(PokerTableError::TableNotFound)
            }),
    {
        if !self.tables.contains(&table_id) {
            return Err(PokerTableError::TableNotFound);
        }
        match self.closures.get(&table_id) {
            Some(p) => Ok(Some(*p)),
            None => Ok(None),
        }
    }

    /// Proposes an upgrade at time `now`, in place of any other proposal. A table with signers is
    /// upgraded by them alone.
    pub fn propose_upgrade(&mut self, table_id: u32, new_wasm_hash: Bytes32, delay_seconds: u64, now: u64) -> (r:
        Result<(), PokerTableError>)
        requires
            old(self)@.wf(),
            delay_seconds >= MIN_UPGRADE_DELAY_SECONDS ==> now + delay_seconds <= u64::MAX,
        ensures
            match old(self)@.proposal_refusal(table_id, delay_seconds) {
                Some(e) => r == Err::<(), _>(e) && final(self)@ == old(self)@,
                None => r is Ok && final(self)@ == (ContractView {
                    upgrades: UpgradesView {
                        proposals: old(self)@.upgrades.proposals.insert(
                            table_id,
                            UpgradeProposal {
                                new_wasm_hash,
                                execute_after: (now + delay_seconds) as u64,
                            },
                        ),
                        ..old(self)@.upgrades
                    },
                    ..old(self)@
                }),
            },
            final(self)@.wf(),
    {
        let ghost st = self@;
        if !self.tables.contains(&table_id) {
            return Err(PokerTableError::TableNotFound);
        }
        if self.governance.governance_configured(table_id) {
            return Err(PokerTableError::NotAnUpgradeSigner);
        }
        let result = self.upgrades.propose_upgrade(table_id, new_wasm_hash, delay_seconds, now);
        proof {
            assert(result is Err ==> self@ =~= st);
            lemma_same_funds(st, self@);
        }
        result
    }

    /// Executes the proposed upgrade of a table at time `now`, and returns the code to switch to.
    /// A table with signers is upgraded by them alone, also where the proposal is older.
    pub fn execute_upgrade(&mut self, table_id: u32, now: u64) -> (r: Result<
        Bytes32,
        PokerTableError,
    >)
        requires
            old(self)@.wf(),
        ensures
            match old(self)@.proposed_refusal(table_id, now) {
                Some(e) => r == Err::<Bytes32, _>(e) && final(self)@ == old(self)@,
                None => r == Ok::<_, PokerTableError>(
                    old(self)@.upgrades.proposals[table_id].new_wasm_hash,
                ) && final(self)@ == (ContractView {
                    upgrades: old(self)@.upgrades.executed(table_id, now),
                    ..old(self)@
                }),
            },
            final(self)@.wf(),
    {
        let ghost st = self@;
        if !self.tables.contains(&table_id) {
            return Err(PokerTableError::TableNotFound);
        }
        if self.governance.governance_configured(table_id) {
            return Err(PokerTableError::NotEnoughUpgradeApprovals);
        }
        let result = self.upgrades.execute_upgrade(table_id, now);
        proof {
            assert(result is Err ==> self@ =~= st);
            lemma_same_funds(st, self@);
        }
        result
    }

    /// Takes the last upgrade of a table back at time `now`, and returns the code to switch to.
    pub fn revert_last_upgrade(&mut self, table_id: u32, now: u64) -> (r: Result<
        Bytes32,
        PokerTableError,
    >)
        requires
            old(self)@.wf(),
        ensures
            if !old(self)@.tables.contains_key(table_id) {
                r == Err::<Bytes32, _>(PokerTableError::TableNotFound) && final(self)@ == old(self)@
            } else {
                match old(self)@.upgrades.revert_refusal(table_id, now) {
                    Some(e) => r == Err::<Bytes32, _>(e) && final(self)@ == old(self)@,
                    None => r == Ok::<_, PokerTableError>(
                        old(self)@.upgrades.last[table_id].previous_wasm_hash->0,
                    ) && final(self)@ == (ContractView {
                        upgrades: UpgradesView {
                            last: old(self)@.upgrades.last.remove(table_id),
                            ..old(self)@.upgrades
                        },
                        ..old(self)@
                    }),
                }
            },
            final(self)@.wf(),
    {
        let ghost st = self@;
        if !self.tables.contains(&table_id) {
            return Err(PokerTableError::TableNotFound);
        }
        let result = self.upgrades.revert_last_upgrade(table_id, now);
        proof {
            assert(result is Err ==> self@ =~= st);
            lemma_same_funds(st, self@);
        }
        result
    }

    /// Drops the proposed upgrade of a table.
    pub fn cancel_upgrade(&mut self, table_id: u32) -> (r: Result<(), PokerTableError>)
        requires
            old(self)@.wf(),
        ensures
            if !old(self)@.tables.contains_key(table_id) {
                r == Err::<(), _>(PokerTableError::TableNotFound) && final(self)@ == old(self)@
            } else if !old(self)@.upgrades.proposals.contains_key(table_id) {
                r == Err::<(), _>(PokerTableError::NoUpgradeProposal) && final(self)@ == old(self)@
            } else {
                r is Ok && final(self)@ == (ContractView {
                    upgrades: UpgradesView {
                        proposals: old(self)@.upgrades.proposals.remove(table_id),
                        ..old(self)@.upgrades
                    },
                    ..old(self)@
                })
            },
            final(self)@.wf(),
    {
        let ghost st = self@;
        if !self.tables.contains(&table_id) {
            return Err(PokerTableError::TableNotFound);
        }
        let result = self.upgrades.cancel_upgrade(table_id);
        proof {
            assert(result is Err ==> self@ =~= st);
            lemma_same_funds(st, self@);
        }
        result
    }

    /// The last upgrade of a table.
    pub fn get_last_upgrade(&self, table_id: u32) -> (r: Option<UpgradeRecord>)
        ensures
            r == self@.upgrades.last.index_opt(table_id),
    {
        self.upgrades.get_last_upgrade(table_id)
    }

    /// The proposed upgrade of a table.
    pub fn get_upgrade_proposal(&self, table_id: u32) -> (r: Option<UpgradeProposal>)
        ensures
            r == self@.upgrades.proposals.index_opt(table_id),
    {
        self.upgrades.get_upgrade_proposal(table_id)
    }

    /// Sets the signers of a table's upgrades, how many of them have to approve one, and how many
    /// ledgers it then waits. A pending upgrade stays.
    pub fn configure_upgrade_governance(
        &mut self,
        env: &Env,
        table_id: u32,
        signers: Vec<Address>,
        threshold: u32,
        delay_ledgers: u32,
    ) -> (r: Result<(), PokerTableError>)
        requires
            old(self)@.wf(),
        ensures
            if !old(self)@.tables.contains_key(table_id) {
                r == Err::<(), _>(PokerTableError::TableNotFound) && final(self)@ == old(self)@
            } else if !valid_governance(signers@, threshold, delay_ledgers) {
                r == Err::<(), _>(PokerTableError::InvalidGovernanceConfig) && final(self)@
                    == old(self)@
            } else {
                r is Ok && final(self)@ == (ContractView {
                    governance: GovernanceView {
                        signers: old(self)@.governance.signers.insert(table_id, signers@),
                        thresholds: old(self)@.governance.thresholds.insert(table_id, threshold),
                        delays: old(self)@.governance.delays.insert(table_id, delay_ledgers),
                        ..old(self)@.governance
                    },
                    ..old(self)@
                })
            },
            final(self)@.wf(),
    {
        let ghost st = self@;
        if !self.tables.contains(&table_id) {
            return Err(PokerTableError::TableNotFound);
        }
        match validate_governance_config(env, &signers, threshold, delay_ledgers) {
            Ok(()) => {},
            Err(e) => {
                return Err(e);
            },
        }
        self.governance.store_governance_config(table_id, signers, threshold, delay_ledgers);
        proof {
            lemma_governance_changed(st, self@);
        }
        Ok(())
    }

    /// Approves an upgrade in a signer's name at ledger `now`, and returns how many have approved
    /// it.
    pub fn approve_upgrade(
        &mut self,
        env: &Env,
        table_id: u32,
        signer: &Address,
        wasm_hash: Bytes32,
        now: u32,
    ) -> (r: Result<u32, PokerTableError>)
        requires
            old(self)@.wf(),
            old(self)@.governance.target(table_id, wasm_hash, now).approvals.len() < u32::MAX,
        ensures
            ({
                let g = old(self)@.governance;
                let t = g.target(table_id, wasm_hash, now);
                if !old(self)@.governed(table_id) {
                    r == Err::<u32, _>(PokerTableError::InvalidGovernanceConfig) && final(self)@
                        == old(self)@
                } else if !digest_listed(*signer, g.signers_of(table_id)) {
                    r == Err::<u32, _>(PokerTableError::NotAnUpgradeSigner) && final(self)@
                        == old(self)@
                } else if digest_listed(*signer, t.approvals) {
                    r == Err::<u32, _>(PokerTableError::UpgradeAlreadyApproved) && final(self)@
                        == old(self)@
                } else {
                    r == Ok::<_, PokerTableError>((t.approvals.len() + 1) as u32) && final(self)@
                        == (ContractView {
                        governance: g.approved(table_id, *signer, wasm_hash, now),
                        ..old(self)@
                    })
                }
            }),
            final(self)@.wf(),
    {
        let ghost st = self@;
        if !self.governance.governance_configured(table_id) {
            return Err(PokerTableError::InvalidGovernanceConfig);
        }
        let result = self.governance.propose_upgrade(env, table_id, signer, wasm_hash, now);
        proof {
            assert(result is Err ==> self@ =~= st);
            lemma_governance_changed(st, self@);
        }
        result
    }

    /// Executes the upgrade that the signers of a table have approved, at ledger `now`, and
    /// returns the code to switch to.
    pub fn execute_approved_upgrade(&mut self, table_id: u32, now: u32) -> (r: Result<
        Bytes32,
        PokerTableError,
    >)
        requires
            old(self)@.wf(),
            old(self)@.delay_fits(table_id),
        ensures
            match old(self)@.governed_refusal(table_id, now) {
                Some(e) => r == Err::<Bytes32, _>(e) && final(self)@ == old(self)@,
                None => r == Ok::<_, PokerTableError>(
                    old(self)@.governance.pending[table_id].wasm_hash,
                ) && final(self)@ == old(self)@.pending_cleared(table_id),
            },
            final(self)@.wf(),
    {
        if !self.governance.governance_configured(table_id) {
            return Err(PokerTableError::InvalidGovernanceConfig);
        }
        let target: Bytes32 = match self.governance.load_pending(table_id) {
            Ok(p) => p.wasm_hash,
            Err(e) => {
                return Err(e);
            },
        };
        self.execute_upgrade_with(table_id, target, now)
    }

    /// Upgrades the code at ledger `now` and returns the code to switch to. Where a table has
    /// signers, they must have approved it; otherwise its administrator decides alone.
    pub fn upgrade(&mut self, table_id: u32, new_wasm_hash: Bytes32, now: u32) -> (r: Result<
        Bytes32,
        PokerTableError,
    >)
        requires
            old(self)@.wf(),
            old(self)@.delay_fits(table_id),
        ensures
            match old(self)@.upgrade_refusal(table_id, new_wasm_hash, now) {
                Some(e) => r == Err::<Bytes32, _>(e) && final(self)@ == old(self)@,
                None => r == Ok::<_, PokerTableError>(new_wasm_hash) && final(self)@ == if old(self)@.governed(table_id) {
                    old(self)@.pending_cleared(table_id)
                } else {
                    old(self)@
                },
            },
            final(self)@.wf(),
    {
        if !self.tables.contains(&table_id) {
            return Err(PokerTableError::TableNotFound);
        }
        if !self.governance.governance_configured(table_id) {
            return Ok(new_wasm_hash);
        }
        self.execute_upgrade_with(table_id, new_wasm_hash, now)
    }

    fn execute_upgrade_with(&mut self, table_id: u32, target: Bytes32, now: u32) -> (r: Result<
        Bytes32,
        PokerTableError,
    >)
        requires
            old(self)@.wf(),
            old(self)@.delay_fits(table_id),
        ensures
            match old(self)@.governance.execution_refusal(table_id, target, now) {
                Some(e) => r == Err::<Bytes32, _>(e) && final(self)@ == old(self)@,
                None => r == Ok::<_, PokerTableError>(target) && final(self)@
                    == old(self)@.pending_cleared(table_id),
            },
            final(self)@.wf(),
    {
        let ghost st = self@;
        match self.governance.can_execute(table_id, &target, now) {
            Ok(_) => {},
            Err(e) => {
                return Err(e);
            },
        }
        self.governance.clear_pending(table_id);
        proof {
            lemma_governance_changed(st, self@);
        }
        Ok(target)
    }

    /// The signers of a table's upgrades, how many have to approve one, and how long it waits.
    pub fn get_upgrade_governance(&self, table_id: u32) -> (r: (Vec<Address>, u32, u32))
        ensures
            r.0@ == self@.governance.signers_of(table_id),
            r.1 == value_or(self@.governance.thresholds, table_id, 0),
            r.2 == value_or(self@.governance.delays, table_id, 0),
    {
        (
            self.governance.load_signers(table_id),
            self.governance.load_threshold(table_id),
            self.governance.load_delay(table_id),
        )
    }

    /// The pending upgrade of a table.
    pub fn get_pending_upgrade(&self, table_id: u32) -> (r: Result<
        &PendingUpgrade,
        PokerTableError,
    >)
        ensures
            match r {
                Ok(p) => self@.governance.pending.contains_key(table_id) && p@
                    == self@.governance.pending[table_id],
                Err(e) => e == PokerTableError::NoPendingUpgrade
                    && !self@.governance.pending.contains_key(table_id),
            },
    {
        self.governance.load_pending(table_id)
    }

    /// Drops the pending upgrade of a table in the name of a signer or of the administrator.
    pub fn cancel_pending_upgrade(&mut self, env: &Env, table_id: u32, caller: &Address) -> (r: Result<
        (),
        PokerTableError,
    >)
        requires
            old(self)@.wf(),
        ensures
            if !old(self)@.tables.contains_key(table_id) {
                r == Err::<(), _>(PokerTableError::TableNotFound) && final(self)@ == old(self)@
            } else if !digest_listed(*caller, old(self)@.governance.signers_of(table_id))
                && address_digest(*caller) != address_digest(old(self)@.tables[table_id].admin) {
                r == Err::<(), _>(PokerTableError::NotAnUpgradeSigner) && final(self)@ == old(self)@
            } else {
                r is Ok && final(self)@ == old(self)@.pending_cleared(table_id)
            },
            final(self)@.wf(),
    {
        let is_admin: bool = match self.get_table(table_id) {
            Ok(t) => address_eq(env, caller, &t.admin),
            Err(e) => {
                return Err(e);
            },
        };
        let signers = self.governance.load_signers(table_id);
        let is_signer: bool = address_listed(env, caller, &signers);
        self.cancel_pending_upgrade_as(table_id, is_signer || is_admin)
    }

    /// The same, where it is known whether the caller may do so.
    pub fn cancel_pending_upgrade_as(&mut self, table_id: u32, authorized: bool) -> (r: Result<
        (),
        PokerTableError,
    >)
        requires
            old(self)@.wf(),
        ensures
            if !old(self)@.tables.contains_key(table_id) {
                r == Err::<(), _>(PokerTableError::TableNotFound) && final(self)@ == old(self)@
            } else if !authorized {
                r == Err::<(), _>(PokerTableError::NotAnUpgradeSigner) && final(self)@ == old(self)@
            } else {
                r is Ok && final(self)@ == old(self)@.pending_cleared(table_id)
            },
            final(self)@.wf(),
    {
        let ghost st = self@;
        if !self.tables.contains(&table_id) {
            return Err(PokerTableError::TableNotFound);
        }
        if !authorized {
            return Err(PokerTableError::NotAnUpgradeSigner);
        }
        self.governance.clear_pending(table_id);
        proof {
            lemma_governance_changed(st, self@);
        }
        Ok(())
    }
}

/// Once a table has signers, its administrator can neither propose nor execute an upgrade, and
/// whichever way an upgrade is executed, at least as many of them as the threshold asks for have
/// approved it, no two of the approvals are by one address, and the delay has passed since it was
/// first proposed.
pub proof fn governed_upgrades_need_signers(
    st: ContractView,
    table_id: u32,
    target: Bytes32,
    delay_seconds: u64,
    ledger: u32,
    time: u64,
)
    requires
        st.wf(),
        st.governed(table_id),
    ensures
        st.proposal_refusal(table_id, delay_seconds) is Some,
        st.proposed_refusal(table_id, time) is Some,
        st.governed_refusal(table_id, ledger) is None || st.upgrade_refusal(
            table_id,
            target,
            ledger,
        ) is None ==> {
            let p = st.governance.pending[table_id];
            &&& st.governance.pending.contains_key(table_id)
            &&& p.approvals.len() >= value_or(st.governance.thresholds, table_id, 0)
            &&& p.approvals.no_duplicates()
            &&& ledger >= p.started_ledger + value_or(st.governance.delays, table_id, 0)
        },
        st.upgrade_refusal(table_id, target, ledger) is None
            ==> st.governance.pending[table_id].wasm_hash == target,
{
    if st.upgrade_refusal(table_id, target, ledger) is None {
        upgrade_needs_approvals(st.governance, table_id, target, ledger);
    }
    if st.governed_refusal(table_id, ledger) is None {
        upgrade_needs_approvals(
            st.governance,
            table_id,
            st.governance.pending[table_id].wasm_hash,
            ledger,
        );
    }
}

/// No table is closed within a day of the announcement.
pub proof fn closure_is_announced(st: ContractView, table_id: u32, announced: u64, now: u64)
    requires
        st.closures.contains_key(table_id),
        st.closures[table_id].execute_after == closure_time(announced),
        announced + TABLE_CLOSURE_NOTICE_SECONDS <= u64::MAX,
        st.closing_refusal(table_id, now) is None,
    ensures
        now >= announced + TABLE_CLOSURE_NOTICE_SECONDS,
{
}

proof fn lemma_governance_changed(st: ContractView, n: ContractView)
    requires
        st.wf(),
        n == (ContractView { governance: n.governance, ..st }),
        n.governance.wf(),
    ensures
        n.wf(),
{
    assert forall|id: u32| #[trigger] n.tables.contains_key(id) implies n.funds(id)
        <= i128::MAX by {
        assert(st.tables.contains_key(id));
        assert(n.funds(id) == st.funds(id));
    }
}

/// A closure is announced by the owner or the hub of the table, one at a time, and takes effect a day
/// later at the earliest; at an open table it does then.
pub proof fn closures_take_a_day(
    st: ContractView,
    table_id: u32,
    caller: Address,
    announced: u64,
    now: u64,
)
    ensures
        announced + 24 * 60 * 60 <= u64::MAX ==> closure_time(announced) == announced + 24 * 60 * 60,
        st.closure_refusal(table_id, caller) is None <==> {
            let t = st.tables[table_id];
            &&& st.tables.contains_key(table_id)
            &&& caller == t.admin || caller == t.config.game_hub
            &&& !st.closures.contains_key(table_id)
        },
        st.closing_refusal(table_id, now) is None <==> {
            &&& !(st.paused.contains_key(table_id) && st.paused[table_id])
            &&& st.tables.contains_key(table_id)
            &&& st.closures.contains_key(table_id)
            &&& now >= st.closures[table_id].execute_after
        },
{
}

/// Where no signers are set, an upgrade is proposed with a delay of a day or more and executed when the
/// delay has passed; where signers are set, it goes by their approvals alone.
pub proof fn upgrades_follow_their_way(
    st: ContractView,
    table_id: u32,
    target: Bytes32,
    delay_seconds: u64,
    ledger: u32,
    time: u64,
)
    requires
        st.tables.contains_key(table_id),
    ensures
        ({
            let free = !st.governance.signers.contains_key(table_id)
                || st.governance.signers[table_id].len() == 0;
            let p = st.governance.pending[table_id];
            &&& st.proposal_refusal(table_id, delay_seconds) is None <==> free && delay_seconds
                >= 24 * 60 * 60
            &&& st.proposed_refusal(table_id, time) is None <==> free
                && st.upgrades.proposals.contains_key(table_id) && time
                >= st.upgrades.proposals[table_id].execute_after
            &&& free ==> st.upgrade_refusal(table_id, target, ledger) is None
                && st.governed_refusal(table_id, ledger) is Some
            &&& !free && st.upgrade_refusal(table_id, target, ledger) is None ==> {
                &&& st.governance.pending.contains_key(table_id) && p.wasm_hash == target
                &&& st.governance.thresholds.contains_key(table_id) ==> p.approvals.len()
                    >= st.governance.thresholds[table_id]
                &&& st.governance.delays.contains_key(table_id) ==> ledger >= p.started_ledger
                    + st.governance.delays[table_id]
            }
            &&& !free && st.governance.pending.contains_key(table_id) ==> (st.governed_refusal(
                table_id,
                ledger,
            ) is None <==> st.upgrade_refusal(table_id, p.wasm_hash, ledger) is None)
        }),
{
}

/// Clearing an upgrade that is pending at a table takes its approvals with it, and leaves the signers,
/// what is pending elsewhere and everything else.
pub proof fn cleared_upgrades_are_gone(st: ContractView, table_id: u32, other: u32)
    requires
        other != table_id,
    ensures
        ({
            let n = st.pending_cleared(table_id);
            &&& !n.governance.pending.contains_key(table_id)
            &&& n.governance.pending.contains_key(other) == st.governance.pending.contains_key(
                other,
            )
            &&& n.governance.pending[other] == st.governance.pending[other]
            &&& n.governance.signers == st.governance.signers && n.governance.thresholds
                == st.governance.thresholds && n.governance.delays == st.governance.delays
            &&& n.tables == st.tables && n.upgrades == st.upgrades
        }),
{
}

} // verus!
