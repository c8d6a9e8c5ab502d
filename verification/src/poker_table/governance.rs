//! Upgrades that several signers approve and that wait for a timelock.

use crate::assoc::{value_or, AssocMap};
use crate::host::{
    address_digest, address_eq, address_listed, digest_listed, Address, Bytes32,
};
use crate::poker_table::types::{PendingUpgrade, PendingUpgradeView, PokerTableError};
use crate::seqs::Dup;
use soroban_sdk::Env;
use vstd::prelude::*;

verus! {

/// The signers and pending upgrades of all tables.
#[verifier::ext_equal]
pub struct GovernanceView {
    pub signers: Map<u32, Seq<Address>>,
    pub thresholds: Map<u32, u32>,
    pub delays: Map<u32, u32>,
    pub pending: Map<u32, PendingUpgradeView>,
}

/// Whether two signers have the same digest.
pub open spec fn has_twins(signers: Seq<Address>) -> bool {
    exists|i: int, j: int|
        0 <= i < j < signers.len() && address_digest(#[trigger] signers[i]) == address_digest(
            #[trigger] signers[j],
        )
}

/// Whether a set of signers is acceptable: there are some, no two alike, the threshold is between
/// one and all of them, and there is a delay.
pub open spec fn valid_governance(signers: Seq<Address>, threshold: u32, delay_ledgers: u32) -> bool {
    &&& 1 <= threshold <= signers.len()
    &&& delay_ledgers > 0
    &&& !has_twins(signers)
}

impl GovernanceView {
    /// The signers of a table.
    pub open spec fn signers_of(self, table_id: u32) -> Seq<Address> {
        value_or(self.signers, table_id, Seq::empty())
    }

    /// The upgrade that an approval of `wasm_hash` goes to: the pending one with that target, or
    /// a new one.
    pub open spec fn target(self, table_id: u32, wasm_hash: Bytes32, now: u32) -> PendingUpgradeView {
        if self.pending.contains_key(table_id) && self.pending[table_id].wasm_hash == wasm_hash {
            self.pending[table_id]
        } else {
            PendingUpgradeView { wasm_hash, approvals: Seq::empty(), started_ledger: now }
        }
    }

    /// The state with one more approval of an upgrade.
    pub open spec fn approved(self, table_id: u32, signer: Address, wasm_hash: Bytes32, now: u32) -> Self {
        let t = self.target(table_id, wasm_hash, now);
        GovernanceView {
            pending: self.pending.insert(
                table_id,
                PendingUpgradeView { approvals: t.approvals.push(signer), ..t },
            ),
            ..self
        }
    }

    /// Why an upgrade cannot be executed at ledger `now`, if it cannot.
    pub open spec fn execution_refusal(self, table_id: u32, target: Bytes32, now: u32) -> Option<
        PokerTableError,
    > {
        if !self.pending.contains_key(table_id) || self.pending[table_id].wasm_hash != target {
            Some(PokerTableError::NoPendingUpgrade)
        } else if self.pending[table_id].approvals.len() < value_or(self.thresholds, table_id, 0) {
            Some(PokerTableError::NotEnoughUpgradeApprovals)
        } else if now < self.pending[table_id].started_ledger + value_or(self.delays, table_id, 0) {
            Some(PokerTableError::UpgradeTimelockPending)
        } else {
            None
        }
    }

    /// The approvals of every pending upgrade are by different addresses.
    pub open spec fn wf(self) -> bool {
        forall|id: u32| #[trigger]
            self.pending.contains_key(id) ==> self.pending[id].approvals.no_duplicates()
                && self.pending[id].approvals.len() <= u32::MAX
    }
}

/// The signers and pending upgrades.
pub struct UpgradeGovernance {
    signers: AssocMap<u32, Vec<Address>>,
    thresholds: AssocMap<u32, u32>,
    delays: AssocMap<u32, u32>,
    pending: AssocMap<u32, PendingUpgrade>,
}

impl View for UpgradeGovernance {
    type V = GovernanceView;

    closed spec fn view(&self) -> GovernanceView {
        GovernanceView {
            signers: self.signers@,
            thresholds: self.thresholds@,
            delays: self.delays@,
            pending: self.pending@,
        }
    }
}

/// Refuses a set of signers that is not acceptable.
pub fn validate_governance_config(
    env: &Env,
    signers: &Vec<Address>,
    threshold: u32,
    delay_ledgers: u32,
) -> (r: Result<(), PokerTableError>)
    ensures
        r == (if valid_governance(signers@, threshold, delay_ledgers) {
            Ok(())
        } else {
            Err(PokerTableError::InvalidGovernanceConfig)
        }),
{
    if signers.len() == 0 || threshold == 0 || threshold as u64 > signers.len() as u64 {
        return Err(PokerTableError::InvalidGovernanceConfig);
    }
    if delay_ledgers == 0 {
        return Err(PokerTableError::InvalidGovernanceConfig);
    }
    let mut i: usize = 0;
    while i < signers.len()
        invariant
            i <= signers@.len(),
            1 <= threshold <= signers@.len(),
            delay_ledgers > 0,
            forall|a: int, b: int|
                0 <= a < b < signers@.len() && a < i ==> address_digest(#[trigger] signers@[a])
                    != address_digest(#[trigger] signers@[b]),
        decreases signers@.len() - i,
    {
        let mut j: usize = i + 1;
        while j < signers.len()
            invariant
                i < j,
                j <= signers@.len(),
                1 <= threshold <= signers@.len(),
                forall|b: int|
                    i < b < j ==> address_digest(signers@[i as int]) != address_digest(
                        #[trigger] signers@[b],
                    ),
            decreases signers@.len() - j,
        {
            if address_eq(env, &signers[i], &signers[j]) {
                assert(address_digest(signers@[i as int]) == address_digest(signers@[j as int]));
                return Err(PokerTableError::InvalidGovernanceConfig);
            }
            j += 1;
        }
        i += 1;
    }
    Ok(())
}

impl UpgradeGovernance {
    /// No signers and no upgrades.
    pub fn new() -> (r: Self)
        ensures
            r@ == (GovernanceView {
                signers: Map::empty(),
                thresholds: Map::empty(),
                delays: Map::empty(),
                pending: Map::empty(),
            }),
            r@.wf(),
    {
        UpgradeGovernance {
            signers: AssocMap::new(),
            thresholds: AssocMap::new(),
            delays: AssocMap::new(),
            pending: AssocMap::new(),
        }
    }

    /// Whether a table has signers.
    pub fn governance_configured(&self, table_id: u32) -> (r: bool)
        ensures
            r == (self@.signers_of(table_id).len() > 0),
    {
        match self.signers.get(&table_id) {
            Some(v) => v.len() > 0,
            None => false,
        }
    }

    /// The signers of a table.
    pub fn load_signers(&self, table_id: u32) -> (r: Vec<Address>)
        ensures
            r@ == self@.signers_of(table_id),
    {
        match self.signers.get(&table_id) {
            Some(v) => v.dup(),
            None => Vec::new(),
        }
    }

    /// How many approvals an upgrade of a table needs.
    pub fn load_threshold(&self, table_id: u32) -> (r: u32)
        ensures
            r == value_or(self@.thresholds, table_id, 0),
    {
        match self.thresholds.get(&table_id) {
            Some(x) => *x,
            None => 0,
        }
    }

    /// How long an upgrade of a table waits.
    pub fn load_delay(&self, table_id: u32) -> (r: u32)
        ensures
            r == value_or(self@.delays, table_id, 0),
    {
        match self.delays.get(&table_id) {
            Some(x) => *x,
            None => 0,
        }
    }

    /// The pending upgrade of a table.
    pub fn load_pending(&self, table_id: u32) -> (r: Result<&PendingUpgrade, PokerTableError>)
        ensures
            match r {
                Ok(p) => self@.pending.contains_key(table_id) && p@ == self@.pending[table_id],
                Err(e) => e == PokerTableError::NoPendingUpgrade && !self@.pending.contains_key(
                    table_id,
                ),
            },
    {
        match self.pending.get(&table_id) {
            Some(p) => Ok(p),
            None => Err(PokerTableError::NoPendingUpgrade),
        }
    }

    /// Stores the signers, the threshold and the delay of a table.
    pub fn store_governance_config(
        &mut self,
        table_id: u32,
        signers: Vec<Address>,
        threshold: u32,
        delay_ledgers: u32,
    )
        ensures
            final(self)@ == (GovernanceView {
                signers: old(self)@.signers.insert(table_id, signers@),
                thresholds: old(self)@.thresholds.insert(table_id, threshold),
                delays: old(self)@.delays.insert(table_id, delay_ledgers),
                ..old(self)@
            }),
            old(self)@.wf() ==> final(self)@.wf(),
    {
        self.signers.insert(table_id, signers);
        self.thresholds.insert(table_id, threshold);
        self.delays.insert(table_id, delay_ledgers);
        proof {
            if old(self)@.wf() {
                assert forall|id: u32| #[trigger] self@.pending.contains_key(id) implies self@.pending[id].approvals.no_duplicates()
                    && self@.pending[id].approvals.len() <= u32::MAX by {
                    assert(old(self)@.pending.contains_key(id));
                }
            }
        }
    }

    /// Approves an upgrade in a signer's name at ledger `now`, and returns how many have approved
    /// it. A new target starts over.
    pub fn propose_upgrade(
        &mut self,
        env: &Env,
        table_id: u32,
        signer: &Address,
        wasm_hash: Bytes32,
        now: u32,
    ) -> (r: Result<u32, PokerTableError>)
        requires
            old(self)@.wf(),
            old(self)@.target(table_id, wasm_hash, now).approvals.len() < u32::MAX,
        ensures
            ({
                let t = old(self)@.target(table_id, wasm_hash, now);
                if !digest_listed(*signer, old(self)@.signers_of(table_id)) {
                    r == Err::<u32, _>(PokerTableError::NotAnUpgradeSigner) && final(self)@ == old(self)@
                } else if digest_listed(*signer, t.approvals) {
                    r == Err::<u32, _>(PokerTableError::UpgradeAlreadyApproved) && final(self)@
                        == old(self)@
                } else {
                    r == Ok::<_, PokerTableError>((t.approvals.len() + 1) as u32) && final(self)@
                        == old(self)@.approved(table_id, *signer, wasm_hash, now)
                }
            }),
            final(self)@.wf(),
    {
        let signers = self.load_signers(table_id);
        let is_signer: bool = address_listed(env, signer, &signers);
        let already: bool = match self.pending.get(&table_id) {
            Some(p) => p.wasm_hash == wasm_hash && address_listed(env, signer, &p.approvals),
            None => false,
        };
        proof {
            let t = self@.target(table_id, wasm_hash, now);
            assert(already == digest_listed(*signer, t.approvals));
            if is_signer && !already {
                let a = t.approvals;
                let b = a.push(*signer);
                assert(a.no_duplicates());
                assert(b.no_duplicates()) by {
                    assert forall|i: int, j: int|
                        0 <= i < b.len() && 0 <= j < b.len() && i != j implies b[i] != b[j] by {
                        if i < a.len() && j == a.len() {
                            assert(address_digest(a[i]) != address_digest(*signer));
                        }
                        if j < a.len() && i == a.len() {
                            assert(address_digest(a[j]) != address_digest(*signer));
                        }
                    }
                }
            }
        }
        self.record_approval(table_id, signer, wasm_hash, now, is_signer, already)
    }

    /// Records an approval. `is_signer` says whether the caller is a signer, and `already` whether
    /// they have approved this target before.
    pub fn record_approval(
        &mut self,
        table_id: u32,
        signer: &Address,
        wasm_hash: Bytes32,
        now: u32,
        is_signer: bool,
        already: bool,
    ) -> (r: Result<u32, PokerTableError>)
        requires
            old(self)@.target(table_id, wasm_hash, now).approvals.len() < u32::MAX,
        ensures
            ({
                let t = old(self)@.target(table_id, wasm_hash, now);
                if !is_signer {
                    r == Err::<u32, _>(PokerTableError::NotAnUpgradeSigner) && final(self)@ == old(self)@
                } else if already {
                    r == Err::<u32, _>(PokerTableError::UpgradeAlreadyApproved) && final(self)@
                        == old(self)@
                } else {
                    r == Ok::<_, PokerTableError>((t.approvals.len() + 1) as u32) && final(self)@
                        == old(self)@.approved(table_id, *signer, wasm_hash, now)
                }
            }),
    {
        if !is_signer {
            return Err(PokerTableError::NotAnUpgradeSigner);
        }
        if already {
            return Err(PokerTableError::UpgradeAlreadyApproved);
        }
        let ghost st = self@;
        let existing = self.pending.remove(&table_id);
        let mut p = match existing {
            Some(x) => if x.wasm_hash == wasm_hash {
                x
            } else {
                PendingUpgrade { wasm_hash, approvals: Vec::new(), started_ledger: now }
            },
            None => PendingUpgrade { wasm_hash, approvals: Vec::new(), started_ledger: now },
        };
        assert(p@ =~= st.target(table_id, wasm_hash, now));
        p.approvals.push(*signer);
        let count: u32 = p.approvals.len() as u32;
        self.pending.insert(table_id, p);
        assert(self@.pending =~= st.approved(table_id, *signer, wasm_hash, now).pending);
        Ok(count)
    }

    /// Whether the pending upgrade of a table goes to `target`, has enough approvals and has
    /// waited long enough at ledger `now`.
    pub fn can_execute(&self, table_id: u32, target: &Bytes32, now: u32) -> (r: Result<
        &PendingUpgrade,
        PokerTableError,
    >)
        requires
            self@.pending.contains_key(table_id) ==> self@.pending[table_id].started_ledger
                + value_or(self@.delays, table_id, 0) <= u32::MAX,
        ensures
            match self@.execution_refusal(table_id, *target, now) {
                Some(e) => r == Err::<&PendingUpgrade, _>(e),
                None => r is Ok && (r->Ok_0)@ == self@.pending[table_id],
            },
    {
        let p = match self.pending.get(&table_id) {
            Some(x) => x,
            None => {
                return Err(PokerTableError::NoPendingUpgrade);
            },
        };
        if p.wasm_hash != *target {
            return Err(PokerTableError::NoPendingUpgrade);
        }
        if (p.approvals.len() as u64) < self.load_threshold(table_id) as u64 {
            return Err(PokerTableError::NotEnoughUpgradeApprovals);
        }
        if now < p.started_ledger + self.load_delay(table_id) {
            return Err(PokerTableError::UpgradeTimelockPending);
        }
        Ok(p)
    }

    /// Drops the pending upgrade of a table.
    pub fn clear_pending(&mut self, table_id: u32)
        ensures
            final(self)@ == (GovernanceView {
                pending: old(self)@.pending.remove(table_id),
                ..old(self)@
            }),
            old(self)@.wf() ==> final(self)@.wf(),
    {
        let _ = self.pending.remove(&table_id);
        proof {
            if old(self)@.wf() {
                assert forall|id: u32| #[trigger] self@.pending.contains_key(id) implies self@.pending[id].approvals.no_duplicates()
                    && self@.pending[id].approvals.len() <= u32::MAX by {
                    assert(old(self)@.pending.contains_key(id));
                }
            }
        }
    }
}

/// An upgrade is executed only with as many different approvals as the threshold asks for, and
/// not before its timelock has run.
pub proof fn upgrade_needs_approvals(st: GovernanceView, table_id: u32, target: Bytes32, now: u32)
    requires
        st.wf(),
        st.execution_refusal(table_id, target, now) is None,
    ensures
        st.pending[table_id].approvals.len() >= value_or(st.thresholds, table_id, 0),
        st.pending[table_id].approvals.no_duplicates(),
        now >= st.pending[table_id].started_ledger + value_or(st.delays, table_id, 0),
{
}

/// An approval of another target starts over: only the approval itself counts for it.
pub proof fn new_target_starts_over(
    st: GovernanceView,
    table_id: u32,
    signer: Address,
    wasm_hash: Bytes32,
    now: u32,
)
    requires
        st.pending.contains_key(table_id),
        st.pending[table_id].wasm_hash != wasm_hash,
    ensures
        st.approved(table_id, signer, wasm_hash, now).pending[table_id].approvals =~= seq![signer],
        st.approved(table_id, signer, wasm_hash, now).pending[table_id].started_ledger == now,
{
}

/// Governance can be set up with signers who are all different, a threshold that they can reach and
/// a delay; and every such setting can.
pub proof fn sound_governance_can_be_set_up(
    signers: Seq<Address>,
    threshold: u32,
    delay_ledgers: u32,
)
    ensures
        valid_governance(signers, threshold, delay_ledgers) <==> {
            &&& threshold >= 1 && threshold <= signers.len()
            &&& delay_ledgers >= 1
            &&& forall|i: int, j: int|
                0 <= i < signers.len() && 0 <= j < signers.len() && i != j ==> address_digest(
                    #[trigger] signers[i],
                ) != address_digest(#[trigger] signers[j])
        },
{
    if !has_twins(signers) {
        assert forall|i: int, j: int|
            0 <= i < signers.len() && 0 <= j < signers.len() && i != j implies address_digest(
            #[trigger] signers[i],
        ) != address_digest(#[trigger] signers[j]) by {
            if i < j {
                assert(address_digest(signers[i]) != address_digest(signers[j]));
            } else {
                assert(address_digest(signers[j]) != address_digest(signers[i]));
            }
        }
    }
}

/// An upgrade is executed when it is the pending one, enough signers have approved it and its delay
/// has passed since the first of them; and then it is not refused. An approval adds one signer to
/// the upgrade it names, keeps its start, and touches no other table.
pub proof fn upgrades_wait_for_approvals_and_time(
    st: GovernanceView,
    table_id: u32,
    other: u32,
    signer: Address,
    target: Bytes32,
    now: u32,
)
    requires
        other != table_id,
    ensures
        st.execution_refusal(table_id, target, now) is None <==> {
            let p = st.pending[table_id];
            &&& st.pending.contains_key(table_id) && p.wasm_hash == target
            &&& st.thresholds.contains_key(table_id) ==> p.approvals.len()
                >= st.thresholds[table_id]
            &&& st.delays.contains_key(table_id) ==> now >= p.started_ledger + st.delays[table_id]
            &&& !st.delays.contains_key(table_id) ==> now >= p.started_ledger
        },
        ({
            let n = st.approved(table_id, signer, target, now);
            let q = n.pending[table_id];
            let again = st.pending.contains_key(table_id) && st.pending[table_id].wasm_hash
                == target;
            &&& q.wasm_hash == target
            &&& q.approvals.last() == signer
            &&& again ==> q.approvals.len() == st.pending[table_id].approvals.len() + 1
                && q.started_ledger == st.pending[table_id].started_ledger
            &&& !again ==> q.approvals.len() == 1 && q.started_ledger == now
            &&& n.pending.contains_key(other) == st.pending.contains_key(other)
            &&& n.pending[other] == st.pending[other]
            &&& n.signers == st.signers && n.thresholds == st.thresholds && n.delays == st.delays
        }),
{
}

} // verus!
