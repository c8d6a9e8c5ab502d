//! The register of the nodes that deal and reveal cards: stakes, epochs, liveness, slashing, the
//! distribution of fees and the delegation of stake.

use crate::arith::{div_to_zero, div_trunc};
use crate::assoc::{value_or, AssocMap, Key};
use crate::host::{
    address_digest, address_eq, address_listed, digest_listed, Address, Party, Transfer,
};
use crate::seqs::{contains_item, lemma_with_member, sum_by, with_member, Dup};
use crate::totals::{lemma_total_insert, lemma_total_nonneg, lemma_total_remove, map_total};
use soroban_sdk::Env;
use vstd::prelude::*;

verus! {

/// A committee node.
#[derive(Debug)]
pub struct CommitteeMember {
    pub address: Address,
    pub stake: i128,
    pub endpoint: String,
    pub region: String,
    pub active: bool,
    pub slash_count: u32,
    /// Stake delegated to the node by others.
    pub total_delegated_stake: i128,
    /// Rewards accumulated per unit of delegated stake, scaled.
    pub rewards_per_stake: i128,
    /// The share of a fee that the node keeps, in basis points.
    pub fee_rate_bps: u32,
}

impl View for CommitteeMember {
    type V = CommitteeMember;

    open spec fn view(&self) -> CommitteeMember {
        *self
    }
}

/// A committee in office.
#[derive(Debug)]
pub struct CommitteeEpoch {
    pub epoch_id: u32,
    pub members: Vec<Address>,
    pub threshold: u32,
    pub start_ledger: u32,
    /// Zero while the epoch lasts.
    pub end_ledger: u32,
}

/// The contents of an epoch.
#[verifier::ext_equal]
pub struct EpochView {
    pub epoch_id: u32,
    pub members: Seq<Address>,
    pub threshold: u32,
    pub start_ledger: u32,
    pub end_ledger: u32,
}

impl View for CommitteeEpoch {
    type V = EpochView;

    open spec fn view(&self) -> EpochView {
        EpochView {
            epoch_id: self.epoch_id,
            members: self.members@,
            threshold: self.threshold,
            start_ledger: self.start_ledger,
            end_ledger: self.end_ledger,
        }
    }
}

/// The phases of a game that wait for the nodes.
#[derive(Clone, Copy, Debug, PartialEq, Eq, Structural)]
pub enum GamePhase {
    Deal,
    Reveal,
    Showdown,
}

/// The progress of a game that waits for the nodes.
#[derive(Debug)]
pub struct GameLiveness {
    pub game_id: u32,
    pub phase: GamePhase,
    pub last_progress_ledger: u32,
    pub affected_players: Vec<Address>,
    pub resolved: bool,
}

/// The contents of a tracked game.
#[verifier::ext_equal]
pub struct GameView {
    pub game_id: u32,
    pub phase: GamePhase,
    pub last_progress_ledger: u32,
    pub affected_players: Seq<Address>,
    pub resolved: bool,
}

impl View for GameLiveness {
    type V = GameView;

    open spec fn view(&self) -> GameView {
        GameView {
            game_id: self.game_id,
            phase: self.phase,
            last_progress_ledger: self.last_progress_ledger,
            affected_players: self.affected_players@,
            resolved: self.resolved,
        }
    }
}

/// How long each phase may wait.
#[derive(Clone, Copy, Debug, PartialEq, Eq, Structural)]
pub struct TimeoutConfig {
    pub deal_ledgers: u32,
    pub reveal_ledgers: u32,
    pub showdown_ledgers: u32,
}

/// The accounts of the fee pool.
#[derive(Clone, Copy, Debug, PartialEq, Eq, Structural)]
pub struct FeePoolState {
    /// Deposited and not yet split.
    pub undistributed: i128,
    /// Credited to nodes and not yet withdrawn.
    pub pending: i128,
    /// Credited to nodes so far.
    pub total_distributed: i128,
    /// The least balance that can be withdrawn.
    pub min_withdrawal: i128,
}

/// Stake delegated to a node.
#[derive(Clone, Copy, Debug, PartialEq, Eq, Structural)]
pub struct DelegationRecord {
    pub amount: i128,
    /// The node's rewards per unit when the record was last brought up to date.
    pub debt_snapshot: i128,
    /// Rewards earned up to then and not yet claimed.
    pub pending_rewards: i128,
}

impl View for DelegationRecord {
    type V = DelegationRecord;

    open spec fn view(&self) -> DelegationRecord {
        *self
    }
}

/// Delegated stake on its way back.
#[derive(Clone, Copy, Debug, PartialEq, Eq, Structural)]
pub struct UndelegationRequest {
    pub amount: i128,
    pub unlock_ledger: u32,
}

impl View for UndelegationRequest {
    type V = UndelegationRequest;

    open spec fn view(&self) -> UndelegationRequest {
        *self
    }
}

/// A delegator and a node.
#[derive(Clone, Copy, Debug, PartialEq, Eq, Structural)]
pub struct DelegationKey {
    pub delegator: Address,
    pub node: Address,
}

impl Key for DelegationKey {
    fn same(&self, other: &Self) -> (r: bool) {
        *self == *other
    }
}

/// Why a call is rejected.
#[derive(Clone, Copy, Debug, PartialEq, Eq, Structural)]
pub enum RegistryError {
    AlreadyInitialized,
    NotInitialized,
    NotAdmin,
    ContractPaused,
    DealTimeoutNotPositive,
    RevealTimeoutNotPositive,
    ShowdownTimeoutNotPositive,
    NoAffectedPlayers,
    GameNotTracked,
    TimeoutAlreadyResolved,
    TimeoutNotReached,
    FeeRateTooHigh,
    InsufficientStake,
    NotAMember,
    InActiveEpoch,
    NodeNotRegistered,
    NodeAlreadyInactive,
    NotEnoughMembers,
    MemberNotRegistered,
    MemberNotActive,
    DepositNotPositive,
    NothingToWithdraw,
    BelowMinimumWithdrawal,
    NegativeThreshold,
    AmountNotPositive,
    InsufficientDelegation,
    UndelegationPending,
    NoPendingUndelegation,
    CooldownNotElapsed,
}

/// The scale of rewards per unit of delegated stake.
pub const REWARD_SCALE: i128 = 1_000_000_000_000;

/// The contents of the register.
#[verifier::ext_equal]
pub struct RegistryState {
    pub admin: Option<Address>,
    pub stake_token: Option<Address>,
    pub min_stake: Option<i128>,
    pub timeouts: Option<TimeoutConfig>,
    pub cooldown: Option<u32>,
    pub members: Map<Address, CommitteeMember>,
    pub all_members: Seq<Address>,
    pub current_epoch: Option<u32>,
    pub epochs: Map<u32, EpochView>,
    pub games: Map<u32, GameView>,
    pub paused: Option<bool>,
    pub fee_pool: Option<i128>,
    pub pending: Map<Address, i128>,
    pub pending_total: Option<i128>,
    pub total_distributed: Option<i128>,
    pub min_withdrawal: Option<i128>,
    pub delegators: Map<Address, Seq<Address>>,
    pub delegations: Map<DelegationKey, DelegationRecord>,
    pub undelegations: Map<DelegationKey, UndelegationRequest>,
}

/// A number, or zero where there is none.
pub open spec fn or_zero(x: Option<i128>) -> i128 {
    match x {
        Some(v) => v,
        None => 0,
    }
}

/// The rewards that a record has earned since it was brought up to date.
pub open spec fn earned(rec: DelegationRecord, rewards_per_stake: i128) -> int {
    div_to_zero(
        rec.amount * (rewards_per_stake - rec.debt_snapshot),
        REWARD_SCALE as int,
    )
}

/// Bringing a record up to date stays within the numbers there are.
pub open spec fn earned_fits(rec: DelegationRecord, rewards_per_stake: i128) -> bool {
    &&& i128::MIN < rewards_per_stake - rec.debt_snapshot <= i128::MAX
    &&& i128::MIN < rec.amount * (rewards_per_stake - rec.debt_snapshot) <= i128::MAX
    &&& i128::MIN <= rec.pending_rewards + earned(rec, rewards_per_stake) <= i128::MAX
}

/// A record brought up to date, with its amount changed.
pub open spec fn brought_up(rec: DelegationRecord, rewards_per_stake: i128, amount: i128) -> DelegationRecord {
    DelegationRecord {
        amount,
        debt_snapshot: rewards_per_stake,
        pending_rewards: (rec.pending_rewards + earned(rec, rewards_per_stake)) as i128,
    }
}

/// The active ones among the members listed, in order.
pub open spec fn active_among(list: Seq<Address>, members: Map<Address, CommitteeMember>) -> Seq<
    CommitteeMember,
>
    decreases list.len(),
{
    if list.len() == 0 {
        Seq::empty()
    } else {
        let rest = active_among(list.drop_last(), members);
        let m = members[list.last()];
        if m.active {
            rest.push(m)
        } else {
            rest
        }
    }
}

/// The stake of a member.
pub open spec fn stake_of() -> spec_fn(CommitteeMember) -> int {
    |m: CommitteeMember| m.stake as int
}

/// What a node gets of the pool: its share by stake, rounded down.
pub open spec fn share_by_stake(pool: int, total: int) -> spec_fn(CommitteeMember) -> int {
    |m: CommitteeMember| pool * (m.stake as int) / total
}

/// The balances after each of the nodes is credited with its share.
pub open spec fn credited(
    pending: Map<Address, i128>,
    nodes: Seq<CommitteeMember>,
    pool: int,
    total: int,
) -> Map<Address, i128>
    decreases nodes.len(),
{
    if nodes.len() == 0 {
        pending
    } else {
        let before = credited(pending, nodes.drop_last(), pool, total);
        let m = nodes.last();
        let share = share_by_stake(pool, total)(m);
        if share > 0 {
            before.insert(m.address, (value_or(before, m.address, 0) + share) as i128)
        } else {
            before
        }
    }
}

/// What each of `n` players gets of a slashed amount: an even share, and one unit more for the
/// first players where it does not divide.
pub open spec fn slash_share(amount: int, n: int, i: int) -> int {
    amount / n + (if i < amount % n {
        1int
    } else {
        0
    })
}

/// The transfers that hand a slashed amount to the players.
pub open spec fn slash_transfers(token: Address, players: Seq<Address>, amount: int) -> Seq<Transfer> {
    if amount <= 0 || players.len() == 0 {
        Seq::empty()
    } else {
        Seq::new(
            players.len(),
            |i: int|
                Transfer {
                    token,
                    from: Party::This,
                    to: Party::Wallet(players[i]),
                    amount: slash_share(amount, players.len() as int, i) as i128,
                },
        )
    }
}

impl RegistryState {
    /// Why `caller` does not pass for the administrator, if it does not.
    pub open spec fn admin_refusal(self, caller: Address) -> Option<RegistryError> {
        match self.admin {
            None => Some(RegistryError::NotInitialized),
            Some(a) => if address_digest(caller) == address_digest(a) {
                None
            } else {
                Some(RegistryError::NotAdmin)
            },
        }
    }

    pub open spec fn is_paused(self) -> bool {
        self.paused == Some(true)
    }

    /// The current epoch's number, or zero.
    pub open spec fn epoch_number(self) -> u32 {
        match self.current_epoch {
            Some(n) => n,
            None => 0,
        }
    }

    /// Whether `member` sits in the current epoch.
    pub open spec fn in_office(self, member: Address) -> bool {
        self.epoch_number() > 0 && self.epochs.contains_key(self.epoch_number()) && digest_listed(
            member,
            self.epochs[self.epoch_number()].members,
        )
    }

    /// The active members.
    pub open spec fn active(self) -> Seq<CommitteeMember> {
        active_among(self.all_members, self.members)
    }

    /// The stake of all active members.
    pub open spec fn active_stake(self) -> int {
        sum_by(self.active(), stake_of())
    }

    /// Who has delegated to a node.
    pub open spec fn delegators_of(self, node: Address) -> Seq<Address> {
        value_or(self.delegators, node, Seq::empty())
    }

    /// How long a phase may wait.
    pub open spec fn phase_timeout(self, phase: GamePhase) -> u32 {
        match phase {
            GamePhase::Deal => (self.timeouts->0).deal_ledgers,
            GamePhase::Reveal => (self.timeouts->0).reveal_ledgers,
            GamePhase::Showdown => (self.timeouts->0).showdown_ledgers,
        }
    }

    /// Nothing is registered before the set-up. Members are listed once each and filed under
    /// their addresses, with stakes that are not negative and rates of at most the whole. The pending total is the sum of the
    /// pending rewards. Delegated amounts are not negative, and their delegators are listed.
    pub open spec fn wf(self) -> bool {
        &&& self.admin is Some <==> self.stake_token is Some
        &&& self.admin is Some <==> self.min_stake is Some
        &&& self.admin is Some <==> self.timeouts is Some
        &&& self.all_members.no_duplicates()
        &&& forall|a: Address| #[trigger]
            self.all_members.contains(a) <==> self.members.contains_key(a)
        &&& forall|a: Address| #[trigger]
            self.members.contains_key(a) ==> self.admin is Some && self.members[a].address == a
                && self.members[a].stake >= 0 && self.members[a].fee_rate_bps <= 10_000
        &&& forall|g: u32| #[trigger] self.games.contains_key(g) ==> self.admin is Some
        &&& self.epoch_number() > 0 ==> self.epochs.contains_key(self.epoch_number())
        &&& or_zero(self.fee_pool) >= 0
        &&& self.pending.dom().finite()
        &&& or_zero(self.pending_total) == map_total(self.pending)
        &&& forall|a: Address| #[trigger] self.pending.contains_key(a) ==> self.pending[a] >= 0
            && self.admin is Some
        &&& forall|k: DelegationKey| #[trigger]
            self.delegations.contains_key(k) ==> self.delegations[k].amount >= 0
                && self.members.contains_key(k.node) && self.delegators_of(k.node).contains(
                k.delegator,
            )
        &&& forall|k: DelegationKey| #[trigger]
            self.undelegations.contains_key(k) ==> self.undelegations[k].amount >= 0
                && self.delegations.contains_key(k)
        &&& forall|n: Address| #[trigger] self.delegators_of(n).no_duplicates()
    }

    /// The register after what one delegator has with a node is cut in half, and how much is taken
    /// of the delegation and of what waits to be withdrawn.
    pub open spec fn cut_in_half(self, node: Address, rewards_per_stake: i128, delegator: Address) -> (
        RegistryState,
        int,
        int,
    ) {
        let k = DelegationKey { delegator: delegator, node };
        let x = if self.delegations.contains_key(k) {
            self.delegations[k].amount as int / 2
        } else {
            0
        };
        let y = if self.undelegations.contains_key(k) {
            self.undelegations[k].amount as int / 2
        } else {
            0
        };
        let delegations = if self.delegations.contains_key(k) {
            self.delegations.insert(
                k,
                brought_up(
                    self.delegations[k],
                    rewards_per_stake,
                    (self.delegations[k].amount - x) as i128,
                ),
            )
        } else {
            self.delegations
        };
        let undelegations = if self.undelegations.contains_key(k) {
            self.undelegations.insert(
                k,
                UndelegationRequest {
                    amount: (self.undelegations[k].amount - y) as i128,
                    ..self.undelegations[k]
                },
            )
        } else {
            self.undelegations
        };
        (RegistryState { delegations, undelegations, ..self }, x, y)
    }

    /// The register after the delegators in `list` have lost half of what they have with the
    /// node; with it, what was taken from their delegations and from their requests.
    pub open spec fn haircut(self, node: Address, rewards_per_stake: i128, list: Seq<Address>) -> (
        RegistryState,
        int,
        int,
    )
        decreases list.len(),
    {
        if list.len() == 0 {
            (self, 0, 0)
        } else {
            let (s, a, p) = self.haircut(node, rewards_per_stake, list.drop_last());
            let (t, x, y) = s.cut_in_half(node, rewards_per_stake, list.last());
            (t, a + x, p + y)
        }
    }

    /// The numbers of a slash stay within those there are.
    pub open spec fn slash_fits(self, node: Address) -> bool {
        let m = self.members[node];
        let list = self.delegators_of(node);
        &&& m.slash_count < u32::MAX
        &&& forall|i: int|
            #![trigger list[i]]
            0 <= i < list.len() ==> {
                let s = self.haircut(node, m.rewards_per_stake, list.take(i)).0;
                let k = DelegationKey { delegator: list[i], node };
                s.delegations.contains_key(k) ==> earned_fits(s.delegations[k], m.rewards_per_stake)
            }
        &&& forall|i: int|
            #![trigger list.take(i)]
            0 <= i <= list.len() ==> {
                let (_, a, p) = self.haircut(node, m.rewards_per_stake, list.take(i));
                m.stake / 2 + a + p <= i128::MAX && m.total_delegated_stake - a >= i128::MIN
            }
    }

    /// The register after a node is slashed, and how much is taken: half of the node's stake and
    /// half of all that is delegated to it. The node is no longer active.
    pub open spec fn slashed(self, node: Address) -> (RegistryState, int) {
        let m = self.members[node];
        let (s, a, p) = self.haircut(node, m.rewards_per_stake, self.delegators_of(node));
        (
            RegistryState {
                members: s.members.insert(
                    node,
                    CommitteeMember {
                        stake: (m.stake - m.stake / 2) as i128,
                        active: false,
                        slash_count: (m.slash_count + 1) as u32,
                        total_delegated_stake: (m.total_delegated_stake - a) as i128,
                        ..m
                    },
                ),
                ..s
            },
            m.stake / 2 + a + p,
        )
    }

    /// Why a timeout cannot be reported at ledger `now`, if it cannot.
    pub open spec fn timeout_refusal(self, game_id: u32, node: Address, now: u32) -> Option<
        RegistryError,
    > {
        if self.is_paused() {
            Some(RegistryError::ContractPaused)
        } else if !self.games.contains_key(game_id) {
            Some(RegistryError::GameNotTracked)
        } else if self.games[game_id].resolved {
            Some(RegistryError::TimeoutAlreadyResolved)
        } else if self.timeouts is None {
            Some(RegistryError::NotInitialized)
        } else if now < self.games[game_id].last_progress_ledger + self.phase_timeout(
            self.games[game_id].phase,
        ) {
            Some(RegistryError::TimeoutNotReached)
        } else if !self.members.contains_key(node) {
            Some(RegistryError::NotAMember)
        } else {
            None
        }
    }

    /// Why an epoch cannot be created, if it cannot.
    pub open spec fn epoch_refusal(self, admin: Address, members: Seq<Address>, threshold: u32) -> Option<
        RegistryError,
    > {
        if self.admin_refusal(admin) is Some {
            self.admin_refusal(admin)
        } else if self.is_paused() {
            Some(RegistryError::ContractPaused)
        } else if members.len() < threshold {
            Some(RegistryError::NotEnoughMembers)
        } else {
            self.membership_refusal(members)
        }
    }

    /// The first fault among the members of a new epoch: not registered, or not active.
    pub open spec fn membership_refusal(self, members: Seq<Address>) -> Option<RegistryError>
        decreases members.len(),
    {
        if members.len() == 0 {
            None
        } else if self.membership_refusal(members.drop_last()) is Some {
            self.membership_refusal(members.drop_last())
        } else if !self.members.contains_key(members.last()) {
            Some(RegistryError::MemberNotRegistered)
        } else if !self.members[members.last()].active {
            Some(RegistryError::MemberNotActive)
        } else {
            None
        }
    }

    /// The register with the running epoch closed and a new one opened.
    pub open spec fn with_epoch(self, members: Seq<Address>, threshold: u32, now: u32) -> Self {
        let prev = self.epoch_number();
        let closed = if prev > 0 {
            self.epochs.insert(prev, EpochView { end_ledger: now, ..self.epochs[prev] })
        } else {
            self.epochs
        };
        RegistryState {
            epochs: closed.insert(
                (prev + 1) as u32,
                EpochView {
                    epoch_id: (prev + 1) as u32,
                    members,
                    threshold,
                    start_ledger: now,
                    end_ledger: 0,
                },
            ),
            current_epoch: Some((prev + 1) as u32),
            ..self
        }
    }

    /// Whether there is anything to distribute and anyone to distribute it to.
    pub open spec fn can_distribute(self) -> bool {
        or_zero(self.fee_pool) > 0 && self.active_stake() > 0
    }

    /// All that the distribution hands out.
    pub open spec fn distribution(self) -> int {
        sum_by(
            self.active(),
            share_by_stake(or_zero(self.fee_pool) as int, self.active_stake()),
        )
    }

    /// The register after the pool is split among the active nodes by stake. What the rounding
    /// leaves stays in the pool.
    pub open spec fn distributed(self) -> Self {
        let pool = or_zero(self.fee_pool);
        let sum = self.distribution();
        RegistryState {
            pending: credited(self.pending, self.active(), pool as int, self.active_stake()),
            fee_pool: Some((pool - sum) as i128),
            total_distributed: Some((or_zero(self.total_distributed) + sum) as i128),
            pending_total: Some((or_zero(self.pending_total) + sum) as i128),
            ..self
        }
    }

    /// The numbers of a distribution stay within those there are.
    pub open spec fn distribution_fits(self) -> bool {
        &&& self.active_stake() <= i128::MAX
        &&& forall|i: int|
            0 <= i < self.active().len() ==> or_zero(self.fee_pool) * (#[trigger] self.active()[i]).stake
                <= i128::MAX
        &&& or_zero(self.pending_total) + or_zero(self.fee_pool) <= i128::MAX
        &&& or_zero(self.total_distributed) + or_zero(self.fee_pool) <= i128::MAX
    }

    /// A delegation, or the empty one that a first delegation starts from.
    pub open spec fn record(self, delegator: Address, node: Address) -> DelegationRecord {
        value_or(
            self.delegations,
            DelegationKey { delegator, node },
            DelegationRecord {
                amount: 0,
                debt_snapshot: self.members[node].rewards_per_stake,
                pending_rewards: 0,
            },
        )
    }

    /// Why stake cannot be delegated to a node, if it cannot.
    pub open spec fn delegate_refusal(self, node: Address, amount: i128) -> Option<RegistryError> {
        if self.is_paused() {
            Some(RegistryError::ContractPaused)
        } else if amount <= 0 {
            Some(RegistryError::AmountNotPositive)
        } else if !self.members.contains_key(node) {
            Some(RegistryError::NotAMember)
        } else if !self.members[node].active {
            Some(RegistryError::MemberNotActive)
        } else {
            None
        }
    }

    /// Why stake cannot be undelegated, if it cannot.
    pub open spec fn undelegate_refusal(self, delegator: Address, node: Address, amount: i128) -> Option<
        RegistryError,
    > {
        let k = DelegationKey { delegator, node };
        if self.is_paused() {
            Some(RegistryError::ContractPaused)
        } else if amount <= 0 {
            Some(RegistryError::AmountNotPositive)
        } else if self.undelegations.contains_key(k) {
            Some(RegistryError::UndelegationPending)
        } else if !self.delegations.contains_key(k) || self.delegations[k].amount < amount {
            Some(RegistryError::InsufficientDelegation)
        } else {
            None
        }
    }

    /// Why a fee cannot be paid to a node, if it cannot.
    pub open spec fn node_fee_refusal(self, node: Address, amount: i128) -> Option<RegistryError> {
        if self.is_paused() {
            Some(RegistryError::ContractPaused)
        } else if amount <= 0 {
            Some(RegistryError::AmountNotPositive)
        } else if !self.members.contains_key(node) {
            Some(RegistryError::NotAMember)
        } else {
            None
        }
    }

    /// What a node keeps of a fee.
    pub open spec fn node_cut(self, node: Address, amount: i128) -> int {
        if self.members[node].total_delegated_stake <= 0 {
            amount as int
        } else {
            amount * (self.members[node].fee_rate_bps as int) / 10_000
        }
    }

    /// How long an undelegation waits.
    pub open spec fn cooldown_ledgers(self) -> u32 {
        match self.cooldown {
            Some(c) => c,
            None => 0,
        }
    }

    /// The rewards that a delegator can claim.
    pub open spec fn rewards_due(self, delegator: Address, node: Address) -> int {
        let k = DelegationKey { delegator, node };
        if self.delegations.contains_key(k) {
            self.delegations[k].pending_rewards + earned(
                self.delegations[k],
                self.members[node].rewards_per_stake,
            )
        } else {
            0
        }
    }

    /// Why a change of the settings is refused, if it is: not by the administrator, or paused.
    pub open spec fn settings_refusal(self, caller: Address) -> Option<RegistryError> {
        if self.admin_refusal(caller) is Some {
            self.admin_refusal(caller)
        } else if self.is_paused() {
            Some(RegistryError::ContractPaused)
        } else {
            None
        }
    }

    /// An administrative step: `next` where the caller passes for the administrator.
    pub open spec fn admin_step(
        self,
        admin: Address,
        next: RegistryState,
        after: RegistryState,
        r: Result<(), RegistryError>,
    ) -> bool {
        match self.admin_refusal(admin) {
            Some(e) => r == Err::<(), _>(e) && after == self,
            None => r is Ok && after == next,
        }
    }
}

/// Rewards that a record has earned since it was brought up to date.
fn calc_pending(rec: &DelegationRecord, rewards_per_stake: i128) -> (r: i128)
    requires
        earned_fits(*rec, rewards_per_stake),
    ensures
        r == earned(*rec, rewards_per_stake),
{
    let gap: i128 = rewards_per_stake - rec.debt_snapshot;
    div_trunc(rec.amount * gap, REWARD_SCALE)
}

/// The register.
pub struct CommitteeRegistryContract {
    admin: Option<Address>,
    stake_token: Option<Address>,
    min_stake: Option<i128>,
    timeouts: Option<TimeoutConfig>,
    cooldown: Option<u32>,
    members: AssocMap<Address, CommitteeMember>,
    all_members: Vec<Address>,
    current_epoch: Option<u32>,
    epochs: AssocMap<u32, CommitteeEpoch>,
    games: AssocMap<u32, GameLiveness>,
    paused: Option<bool>,
    fee_pool: Option<i128>,
    pending: AssocMap<Address, i128>,
    pending_total: Option<i128>,
    total_distributed: Option<i128>,
    min_withdrawal: Option<i128>,
    delegators: AssocMap<Address, Vec<Address>>,
    delegations: AssocMap<DelegationKey, DelegationRecord>,
    undelegations: AssocMap<DelegationKey, UndelegationRequest>,
}

impl View for CommitteeRegistryContract {
    type V = RegistryState;

    closed spec fn view(&self) -> RegistryState {
        RegistryState {
            admin: self.admin,
            stake_token: self.stake_token,
            min_stake: self.min_stake,
            timeouts: self.timeouts,
            cooldown: self.cooldown,
            members: self.members@,
            all_members: self.all_members@,
            current_epoch: self.current_epoch,
            epochs: self.epochs@,
            games: self.games@,
            paused: self.paused,
            fee_pool: self.fee_pool,
            pending: self.pending@,
            pending_total: self.pending_total,
            total_distributed: self.total_distributed,
            min_withdrawal: self.min_withdrawal,
            delegators: self.delegators@,
            delegations: self.delegations@,
            undelegations: self.undelegations@,
        }
    }
}

impl CommitteeRegistryContract {
    /// A register that nobody has set up yet.
    pub fn new() -> (r: Self)
        ensures
            r@ == (RegistryState {
                admin: None,
                stake_token: None,
                min_stake: None,
                timeouts: None,
                cooldown: None,
                members: Map::empty(),
                all_members: Seq::empty(),
                current_epoch: None,
                epochs: Map::empty(),
                games: Map::empty(),
                paused: None,
                fee_pool: None,
                pending: Map::empty(),
                pending_total: None,
                total_distributed: None,
                min_withdrawal: None,
                delegators: Map::empty(),
                delegations: Map::empty(),
                undelegations: Map::empty(),
            }),
            r@.wf(),
    {
        let r = CommitteeRegistryContract {
            admin: None,
            stake_token: None,
            min_stake: None,
            timeouts: None,
            cooldown: None,
            members: AssocMap::new(),
            all_members: Vec::new(),
            current_epoch: None,
            epochs: AssocMap::new(),
            games: AssocMap::new(),
            paused: None,
            fee_pool: None,
            pending: AssocMap::new(),
            pending_total: None,
            total_distributed: None,
            min_withdrawal: None,
            delegators: AssocMap::new(),
            delegations: AssocMap::new(),
            undelegations: AssocMap::new(),
        };
        assert(r@.pending.dom() =~= Set::empty());
        r
    }

    /// Sets the administrator, the token, the least stake and the cooldown of undelegations,
    /// once. Every phase may wait for 120 ledgers.
    pub fn initialize(
        &mut self,
        admin: Address,
        stake_token: Address,
        min_stake: i128,
        delegation_cooldown_ledgers: u32,
    ) -> (r: Result<(), RegistryError>)
        ensures
            old(self)@.admin is Some ==> r == Err::<(), _>(RegistryError::AlreadyInitialized)
                && final(self)@ == old(self)@,
            old(self)@.admin is None ==> r is Ok && final(self)@ == (RegistryState {
                admin: Some(admin),
                stake_token: Some(stake_token),
                min_stake: Some(min_stake),
                timeouts: Some(
                    TimeoutConfig { deal_ledgers: 120, reveal_ledgers: 120, showdown_ledgers: 120 },
                ),
                cooldown: Some(delegation_cooldown_ledgers),
                ..old(self)@
            }),
            old(self)@.wf() ==> final(self)@.wf(),
    {
        if self.admin.is_some() {
            return Err(RegistryError::AlreadyInitialized);
        }
        self.admin = Some(admin);
        self.stake_token = Some(stake_token);
        self.min_stake = Some(min_stake);
        self.timeouts = Some(
            TimeoutConfig { deal_ledgers: 120, reveal_ledgers: 120, showdown_ledgers: 120 },
        );
        self.cooldown = Some(delegation_cooldown_ledgers);
        proof {
            lemma_wf_frame(old(self)@, self@);
        }
        Ok(())
    }

    /// Whether `admin` passes for the administrator, or why not.
    fn require_admin(&self, env: &Env, admin: &Address) -> (r: Result<(), RegistryError>)
        ensures
            r == (match self@.admin_refusal(*admin) {
                Some(e) => Err::<(), _>(e),
                None => Ok(()),
            }),
    {
        match &self.admin {
            None => Err(RegistryError::NotInitialized),
            Some(a) => if address_eq(env, admin, a) {
                Ok(())
            } else {
                Err(RegistryError::NotAdmin)
            },
        }
    }

    /// Refuses a change of the settings by anyone but the administrator, or while paused.
    fn require_settings(&self, env: &Env, caller: &Address) -> (r: Result<(), RegistryError>)
        ensures
            r == (match self@.settings_refusal(*caller) {
                Some(e) => Err::<(), _>(e),
                None => Ok(()),
            }),
    {
        match self.require_admin(env, caller) {
            Ok(_) => {},
            Err(e) => {
                return Err(e);
            },
        }
        if self.is_paused() {
            return Err(RegistryError::ContractPaused);
        }
        Ok(())
    }

    /// Sets how long each phase may wait.
    pub fn set_timeout_config(
        &mut self,
        env: &Env,
        admin: Address,
        deal_ledgers: u32,
        reveal_ledgers: u32,
        showdown_ledgers: u32,
    ) -> (r: Result<(), RegistryError>)
        ensures
            match r {
                Ok(_) => {
                    &&& old(self)@.settings_refusal(admin) is None
                    &&& deal_ledgers > 0 && reveal_ledgers > 0 && showdown_ledgers > 0
                    &&& final(self)@ == (RegistryState {
                        timeouts: Some(
                            TimeoutConfig { deal_ledgers, reveal_ledgers, showdown_ledgers },
                        ),
                        ..old(self)@
                    })
                },
                Err(e) => final(self)@ == old(self)@ && if old(self)@.settings_refusal(
                    admin,
                ) is Some {
                    old(self)@.settings_refusal(admin) == Some(e)
                } else if deal_ledgers == 0 {
                    e == RegistryError::DealTimeoutNotPositive
                } else if reveal_ledgers == 0 {
                    e == RegistryError::RevealTimeoutNotPositive
                } else {
                    e == RegistryError::ShowdownTimeoutNotPositive && showdown_ledgers == 0
                },
            },
            old(self)@.wf() ==> final(self)@.wf(),
    {
        match self.require_settings(env, &admin) {
            Ok(_) => {},
            Err(e) => {
                return Err(e);
            },
        }
        if deal_ledgers == 0 {
            return Err(RegistryError::DealTimeoutNotPositive);
        }
        if reveal_ledgers == 0 {
            return Err(RegistryError::RevealTimeoutNotPositive);
        }
        if showdown_ledgers == 0 {
            return Err(RegistryError::ShowdownTimeoutNotPositive);
        }
        self.timeouts = Some(TimeoutConfig { deal_ledgers, reveal_ledgers, showdown_ledgers });
        proof {
            lemma_wf_frame(old(self)@, self@);
        }
        Ok(())
    }

    /// Notes the phase of a game and the players it affects, at ledger `now`.
    pub fn track_game_phase(
        &mut self,
        env: &Env,
        admin: Address,
        game_id: u32,
        phase: GamePhase,
        affected_players: Vec<Address>,
        now: u32,
    ) -> (r: Result<(), RegistryError>)
        ensures
            match r {
                Ok(_) => {
                    &&& old(self)@.settings_refusal(admin) is None
                    &&& affected_players@.len() > 0
                    &&& final(self)@ == (RegistryState {
                        games: old(self)@.games.insert(
                            game_id,
                            GameView {
                                game_id,
                                phase,
                                last_progress_ledger: now,
                                affected_players: affected_players@,
                                resolved: false,
                            },
                        ),
                        ..old(self)@
                    })
                },
                Err(e) => final(self)@ == old(self)@ && if old(self)@.settings_refusal(
                    admin,
                ) is Some {
                    old(self)@.settings_refusal(admin) == Some(e)
                } else {
                    e == RegistryError::NoAffectedPlayers && affected_players@.len() == 0
                },
            },
            old(self)@.wf() ==> final(self)@.wf(),
            r is Ok ==> {
                let g = final(self)@.games[game_id];
                &&& g.phase == phase && g.last_progress_ledger == now && !g.resolved
                &&& g.affected_players == affected_players@ && affected_players@.len() > 0
            },
    {
        match self.require_settings(env, &admin) {
            Ok(_) => {},
            Err(e) => {
                return Err(e);
            },
        }
        if affected_players.len() == 0 {
            return Err(RegistryError::NoAffectedPlayers);
        }
        self.games.insert(
            game_id,
            GameLiveness {
                game_id,
                phase,
                last_progress_ledger: now,
                affected_players,
                resolved: false,
            },
        );
        proof {
            lemma_wf_frame(old(self)@, self@);
        }
        Ok(())
    }

    /// Reports a node that has let a phase run out at ledger `now`. The node is slashed, and what
    /// is taken goes to the affected players.
    pub fn report_timeout(&mut self, game_id: u32, node_id: Address, now: u32) -> (r: Result<
        (i128, Vec<Transfer>),
        RegistryError,
    >)
        requires
            old(self)@.wf(),
            !old(self)@.is_paused() && old(self)@.games.contains_key(game_id) && !old(self)@.games[game_id].resolved ==> old(self)@.games[game_id].last_progress_ledger + old(self)@.phase_timeout(
                old(self)@.games[game_id].phase,
            ) <= u32::MAX,
            old(self)@.timeout_refusal(game_id, node_id, now) is None ==> old(self)@.slash_fits(
                node_id,
            ),
        ensures
            match old(self)@.timeout_refusal(game_id, node_id, now) {
                Some(e) => r == Err::<(i128, Vec<Transfer>), _>(e) && final(self)@ == old(self)@,
                None => {
                    let (st, taken) = old(self)@.slashed(node_id);
                    let game = old(self)@.games[game_id];
                    &&& r is Ok
                    &&& (r->Ok_0).0 == taken
                    &&& (r->Ok_0).1@ == slash_transfers(
                        old(self)@.stake_token->0,
                        game.affected_players,
                        taken,
                    )
                    &&& final(self)@ == (RegistryState {
                        games: old(self)@.games.insert(
                            game_id,
                            GameView { resolved: true, ..game },
                        ),
                        ..st
                    })
                },
            },
            final(self)@.wf(),
            r is Ok ==> {
                let (m, q) = (old(self)@.members[node_id], final(self)@.members[node_id]);
                &&& !q.active
                &&& q.stake == m.stake - m.stake as int / 2
                &&& q.slash_count == m.slash_count + 1
                &&& final(self)@.games[game_id].resolved
                &&& (r->Ok_0).0 >= m.stake as int / 2
            },
    {
        let ghost st0 = self@;
        if self.is_paused() {
            return Err(RegistryError::ContractPaused);
        }
        let (phase, last): (GamePhase, u32) = match self.games.get(&game_id) {
            None => {
                return Err(RegistryError::GameNotTracked);
            },
            Some(g) => {
                if g.resolved {
                    return Err(RegistryError::TimeoutAlreadyResolved);
                }
                (g.phase, g.last_progress_ledger)
            },
        };
        let timeout: u32 = match &self.timeouts {
            None => {
                return Err(RegistryError::NotInitialized);
            },
            Some(config) => Self::timeout_for_phase(config, &phase),
        };
        if now < last + timeout {
            return Err(RegistryError::TimeoutNotReached);
        }
        if !self.members.contains(&node_id) {
            return Err(RegistryError::NotAMember);
        }
        let slashed: i128 = self.slash_member_stake(&node_id);
        let ghost st1 = self@;
        proof {
            lemma_haircut(
                st0,
                node_id,
                st0.members[node_id].rewards_per_stake,
                st0.delegators_of(node_id),
            );
        }
        let mut game = self.games.remove(&game_id).unwrap();
        let token: Address = self.stake_token.unwrap();
        let transfers = Self::redistribute_slashed_stake(token, &game.affected_players, slashed);
        game.resolved = true;
        self.games.insert(game_id, game);
        proof {
            lemma_wf_frame(st1, self@);
            assert(self@.games =~= st0.games.insert(
                game_id,
                GameView { resolved: true, ..st0.games[game_id] },
            ));
        }
        Ok((slashed, transfers))
    }

    /// Stops every operation that changes the register, but for resuming.
    pub fn pause(&mut self, env: &Env, admin: Address) -> (r: Result<(), RegistryError>)
        ensures
            old(self)@.admin_step(
                admin,
                RegistryState { paused: Some(true), ..old(self)@ },
                final(self)@,
                r,
            ),
            old(self)@.wf() ==> final(self)@.wf(),
    {
        match self.require_admin(env, &admin) {
            Ok(_) => {},
            Err(e) => {
                return Err(e);
            },
        }
        self.paused = Some(true);
        proof {
            lemma_wf_frame(old(self)@, self@);
        }
        Ok(())
    }

    /// Resumes operations.
    pub fn unpause(&mut self, env: &Env, admin: Address) -> (r: Result<(), RegistryError>)
        ensures
            old(self)@.admin_step(
                admin,
                RegistryState { paused: Some(false), ..old(self)@ },
                final(self)@,
                r,
            ),
            old(self)@.wf() ==> final(self)@.wf(),
    {
        match self.require_admin(env, &admin) {
            Ok(_) => {},
            Err(e) => {
                return Err(e);
            },
        }
        self.paused = Some(false);
        proof {
            lemma_wf_frame(old(self)@, self@);
        }
        Ok(())
    }

    /// Whether operations are stopped.
    pub fn is_paused(&self) -> (r: bool)
        ensures
            r == self@.is_paused(),
    {
        match self.paused {
            Some(p) => p,
            None => false,
        }
    }

    /// Registers a node with a stake. The stake comes from the node; no token moves a negative
    /// amount.
    pub fn register_member(
        &mut self,
        member: Address,
        stake: i128,
        endpoint: String,
        region: String,
        fee_rate_bps: u32,
    ) -> (r: Result<Transfer, RegistryError>)
        requires
            old(self)@.wf(),
            stake >= 0,
        ensures
            match r {
                Ok(t) => {
                    let st = old(self)@;
                    &&& !st.is_paused()
                    &&& fee_rate_bps <= 10_000
                    &&& st.min_stake is Some && stake >= st.min_stake->0
                    &&& t == (Transfer {
                        token: st.stake_token->0,
                        from: Party::Wallet(member),
                        to: Party::This,
                        amount: stake,
                    })
                    &&& final(self)@ == (RegistryState {
                        members: st.members.insert(
                            member,
                            CommitteeMember {
                                address: member,
                                stake,
                                endpoint,
                                region,
                                active: true,
                                slash_count: 0,
                                total_delegated_stake: 0,
                                rewards_per_stake: 0,
                                fee_rate_bps,
                            },
                        ),
                        all_members: with_member(st.all_members, member),
                        ..st
                    })
                },
                Err(e) => final(self)@ == old(self)@ && if old(self)@.is_paused() {
                    e == RegistryError::ContractPaused
                } else if fee_rate_bps > 10_000 {
                    e == RegistryError::FeeRateTooHigh
                } else if old(self)@.min_stake is None {
                    e == RegistryError::NotInitialized
                } else {
                    e == RegistryError::InsufficientStake && stake < old(self)@.min_stake->0
                },
            },
            final(self)@.wf(),
            r matches Ok(t) ==> {
                let m = final(self)@.members[member];
                &&& m.stake == t.amount && t.amount == stake
                &&& m.active && m.slash_count == 0 && m.fee_rate_bps == fee_rate_bps
                &&& final(self)@.all_members.contains(member)
            },
            r is Ok <==> old(self)@.paused != Some(true) && fee_rate_bps <= 10_000 && old(self)@.min_stake is Some && stake
                >= old(self)@.min_stake->0,
    {
        if self.is_paused() {
            return Err(RegistryError::ContractPaused);
        }
        if fee_rate_bps > 10_000 {
            return Err(RegistryError::FeeRateTooHigh);
        }
        match self.min_stake {
            None => {
                return Err(RegistryError::NotInitialized);
            },
            Some(min) => {
                if stake < min {
                    return Err(RegistryError::InsufficientStake);
                }
            },
        }
        let token: Address = self.stake_token.unwrap();
        let state = CommitteeMember {
            address: member,
            stake,
            endpoint,
            region,
            active: true,
            slash_count: 0,
            total_delegated_stake: 0,
            rewards_per_stake: 0,
            fee_rate_bps,
        };
        self.members.insert(member, state);
        if !contains_item(&self.all_members, &member) {
            self.all_members.push(member);
        }
        proof {
            let st = old(self)@;
            lemma_with_member(st.all_members, member);
            assert(self@.all_members == with_member(st.all_members, member));
            assert forall|a: Address| #[trigger]
                self@.all_members.contains(a) <==> self@.members.contains_key(a) by {
                assert(st.all_members.contains(a) <==> st.members.contains_key(a));
            }
            lemma_wf_delegations_frame(st, self@);
        }
        Ok(Transfer { token, from: Party::Wallet(member), to: Party::This, amount: stake })
    }

    /// Gives a node its stake back and takes it out of service, unless it sits in the current
    /// epoch.
    pub fn deregister_member(&mut self, env: &Env, member: Address) -> (r: Result<
        Transfer,
        RegistryError,
    >)
        requires
            old(self)@.wf(),
        ensures
            match r {
                Ok(t) => {
                    let st = old(self)@;
                    &&& !st.is_paused()
                    &&& st.members.contains_key(member)
                    &&& !st.in_office(member)
                    &&& t == (Transfer {
                        token: st.stake_token->0,
                        from: Party::This,
                        to: Party::Wallet(member),
                        amount: st.members[member].stake,
                    })
                    &&& final(self)@ == (RegistryState {
                        members: st.members.insert(
                            member,
                            CommitteeMember { active: false, stake: 0, ..st.members[member] },
                        ),
                        ..st
                    })
                },
                Err(e) => final(self)@ == old(self)@ && if old(self)@.is_paused() {
                    e == RegistryError::ContractPaused
                } else if !old(self)@.members.contains_key(member) {
                    e == RegistryError::NotAMember
                } else {
                    e == RegistryError::InActiveEpoch && old(self)@.in_office(member)
                },
            },
            final(self)@.wf(),
            r matches Ok(t) ==> {
                &&& t.amount == old(self)@.members[member].stake
                &&& t.to == Party::Wallet(member)
                &&& final(self)@.members[member].stake == 0
                &&& !final(self)@.members[member].active
            },
            r is Ok <==> old(self)@.paused != Some(true) && old(self)@.members.contains_key(member)
                && !old(self)@.in_office(member),
    {
        if self.is_paused() {
            return Err(RegistryError::ContractPaused);
        }
        if !self.members.contains(&member) {
            return Err(RegistryError::NotAMember);
        }
        if let Some(epoch) = self.get_current_epoch() {
            if address_listed(env, &member, &epoch.members) {
                return Err(RegistryError::InActiveEpoch);
            }
        }
        let mut m = self.members.remove(&member).unwrap();
        let stake: i128 = m.stake;
        m.active = false;
        m.stake = 0;
        let token: Address = self.stake_token.unwrap();
        self.members.insert(member, m);
        proof {
            lemma_member_replaced(old(self)@, self@, member, m);
        }
        Ok(Transfer { token, from: Party::This, to: Party::Wallet(member), amount: stake })
    }

    /// Takes a failing node out of service.
    pub fn deregister_node_on_failure(&mut self, env: &Env, admin: Address, node: Address) -> (r:
        Result<(), RegistryError>)
        requires
            old(self)@.wf(),
        ensures
            match r {
                Ok(_) => {
                    let st = old(self)@;
                    let m = st.members[node];
                    &&& st.admin_refusal(admin) is None
                    &&& !st.is_paused()
                    &&& st.members.contains_key(node) && m.active
                    &&& final(self)@ == (RegistryState {
                        members: st.members.insert(
                            node,
                            CommitteeMember {
                                active: false,
                                slash_count: if m.slash_count == u32::MAX {
                                    u32::MAX
                                } else {
                                    (m.slash_count + 1) as u32
                                },
                                ..m
                            },
                        ),
                        ..st
                    })
                },
                Err(e) => final(self)@ == old(self)@ && if old(self)@.admin_refusal(
                    admin,
                ) is Some {
                    old(self)@.admin_refusal(admin) == Some(e)
                } else if old(self)@.is_paused() {
                    e == RegistryError::ContractPaused
                } else if !old(self)@.members.contains_key(node) {
                    e == RegistryError::NodeNotRegistered
                } else {
                    e == RegistryError::NodeAlreadyInactive && !old(self)@.members[node].active
                },
            },
            final(self)@.wf(),
            r is Ok ==> {
                let (m, q) = (old(self)@.members[node], final(self)@.members[node]);
                &&& m.active && !q.active
                &&& q.stake == m.stake && q.total_delegated_stake == m.total_delegated_stake
                &&& m.slash_count < u32::MAX ==> q.slash_count == m.slash_count + 1
            },
    {
        match self.require_admin(env, &admin) {
            Ok(_) => {},
            Err(e) => {
                return Err(e);
            },
        }
        if self.is_paused() {
            return Err(RegistryError::ContractPaused);
        }
        match self.members.get(&node) {
            None => {
                return Err(RegistryError::NodeNotRegistered);
            },
            Some(m) => {
                if !m.active {
                    return Err(RegistryError::NodeAlreadyInactive);
                }
            },
        }
        let mut m = self.members.remove(&node).unwrap();
        m.active = false;
        m.slash_count = m.slash_count.saturating_add(1);
        self.members.insert(node, m);
        proof {
            lemma_member_replaced(old(self)@, self@, node, m);
        }
        Ok(())
    }

    /// Opens a new epoch at ledger `now`, closes the running one, and returns the number of the
    /// new one. Its members must all be registered and active, and at least as many as the
    /// threshold.
    pub fn create_epoch(
        &mut self,
        env: &Env,
        admin: Address,
        members: Vec<Address>,
        threshold: u32,
        now: u32,
    ) -> (r: Result<u32, RegistryError>)
        requires
            old(self)@.wf(),
            old(self)@.epoch_number() < u32::MAX,
        ensures
            match old(self)@.epoch_refusal(admin, members@, threshold) {
                Some(e) => r == Err::<u32, _>(e) && final(self)@ == old(self)@,
                None => r == Ok::<_, RegistryError>((old(self)@.epoch_number() + 1) as u32)
                    && final(self)@ == old(self)@.with_epoch(members@, threshold, now),
            },
            final(self)@.wf(),
    {
        let ghost st = self@;
        match self.require_admin(env, &admin) {
            Ok(_) => {},
            Err(e) => {
                return Err(e);
            },
        }
        if self.is_paused() {
            return Err(RegistryError::ContractPaused);
        }
        if (members.len() as u64) < threshold as u64 {
            return Err(RegistryError::NotEnoughMembers);
        }
        let mut i: usize = 0;
        while i < members.len()
            invariant
                i <= members@.len(),
                self@ == st,
                st == old(self)@,
                st.wf(),
                st.admin_refusal(admin) is None,
                !st.is_paused(),
                members@.len() >= threshold,
                st.membership_refusal(members@.take(i as int)) is None,
            decreases members@.len() - i,
        {
            proof {
                lemma_membership_step(st, members@, i as int);
            }
            match self.members.get(&members[i]) {
                None => {
                    return Err(RegistryError::MemberNotRegistered);
                },
                Some(m) => {
                    if !m.active {
                        return Err(RegistryError::MemberNotActive);
                    }
                },
            }
            i += 1;
        }
        assert(members@.take(i as int) =~= members@);
        let prev: u32 = match self.current_epoch {
            Some(n) => n,
            None => 0,
        };
        if prev > 0 {
            let mut p = self.epochs.remove(&prev).unwrap();
            p.end_ledger = now;
            self.epochs.insert(prev, p);
            assert(self@.epochs =~= st.epochs.insert(
                prev,
                EpochView { end_ledger: now, ..st.epochs[prev] },
            ));
        }
        let epoch_id: u32 = prev + 1;
        let epoch = CommitteeEpoch {
            epoch_id,
            members,
            threshold,
            start_ledger: now,
            end_ledger: 0,
        };
        self.epochs.insert(epoch_id, epoch);
        self.current_epoch = Some(epoch_id);
        proof {
            lemma_wf_frame(st, self@);
        }
        Ok(epoch_id)
    }

    /// Reports a member's fault. The third report halves the stake and takes the member out of
    /// service.
    pub fn report_slash(&mut self, member: Address) -> (r: Result<(), RegistryError>)
        requires
            old(self)@.wf(),
            !old(self)@.is_paused() && old(self)@.members.contains_key(member) ==> old(self)@.members[member].slash_count < u32::MAX,
        ensures
            match r {
                Ok(_) => !old(self)@.is_paused() && old(self)@.members.contains_key(member)
                    && final(self)@ == (RegistryState {
                    members: old(self)@.members.insert(
                        member,
                        after_report(old(self)@.members[member]),
                    ),
                    ..old(self)@
                }),
                Err(e) => final(self)@ == old(self)@ && if old(self)@.is_paused() {
                    e == RegistryError::ContractPaused
                } else {
                    e == RegistryError::NotAMember && !old(self)@.members.contains_key(member)
                },
            },
            final(self)@.wf(),
            r is Ok ==> {
                let (m, q) = (old(self)@.members[member], final(self)@.members[member]);
                &&& q.slash_count == m.slash_count + 1
                &&& q.slash_count < 3 ==> q.stake == m.stake && q.active == m.active
                &&& q.slash_count >= 3 ==> !q.active && q.stake == m.stake - m.stake as int / 2
            },
    {
        if self.is_paused() {
            return Err(RegistryError::ContractPaused);
        }
        if !self.members.contains(&member) {
            return Err(RegistryError::NotAMember);
        }
        self.slash_member_record(&member);
        Ok(())
    }

    fn slash_member_record(&mut self, member: &Address)
        requires
            old(self)@.wf(),
            old(self)@.members.contains_key(*member),
            old(self)@.members[*member].slash_count < u32::MAX,
        ensures
            final(self)@ == (RegistryState {
                members: old(self)@.members.insert(
                    *member,
                    after_report(old(self)@.members[*member]),
                ),
                ..old(self)@
            }),
            final(self)@.wf(),
    {
        let mut m = self.members.remove(member).unwrap();
        m.slash_count = m.slash_count + 1;
        if m.slash_count >= 3 {
            let slashed: i128 = m.stake / 2;
            m.stake = m.stake - slashed;
            m.active = false;
        }
        self.members.insert(*member, m);
        proof {
            lemma_member_replaced(old(self)@, self@, *member, m);
        }
    }

    /// The members in service, in order of registration.
    pub fn get_active_members(&self) -> (r: Vec<&CommitteeMember>)
        requires
            self@.wf(),
        ensures
            r@.len() == self@.active().len(),
            forall|i: int| 0 <= i < r@.len() ==> *(#[trigger] r@[i]) == self@.active()[i],
    {
        let mut out: Vec<&CommitteeMember> = Vec::new();
        let mut i: usize = 0;
        while i < self.all_members.len()
            invariant
                i <= self.all_members@.len(),
                self@.wf(),
                out@.len() == active_among(self@.all_members.take(i as int), self@.members).len(),
                forall|j: int|
                    0 <= j < out@.len() ==> *(#[trigger] out@[j]) == active_among(
                        self@.all_members.take(i as int),
                        self@.members,
                    )[j],
            decreases self.all_members@.len() - i,
        {
            let ghost list = self@.all_members;
            assert(list.take(i + 1).drop_last() =~= list.take(i as int));
            assert(list.contains(list[i as int]));
            let m = self.members.get(&self.all_members[i]).unwrap();
            if m.active {
                out.push(m);
            }
            i += 1;
        }
        assert(self@.all_members.take(i as int) =~= self@.all_members);
        out
    }

    /// The epoch in office.
    pub fn get_current_epoch(&self) -> (r: Option<&CommitteeEpoch>)
        ensures
            match r {
                Some(e) => self@.epoch_number() > 0 && self@.epochs.contains_key(
                    self@.epoch_number(),
                ) && e@ == self@.epochs[self@.epoch_number()],
                None => self@.epoch_number() == 0 || !self@.epochs.contains_key(
                    self@.epoch_number(),
                ),
            },
    {
        let id: u32 = match self.current_epoch {
            Some(n) => n,
            None => 0,
        };
        if id == 0 {
            return None;
        }
        self.epochs.get(&id)
    }

    /// A member.
    pub fn get_member(&self, member: Address) -> (r: Result<&CommitteeMember, RegistryError>)
        ensures
            match r {
                Ok(m) => self@.members.contains_key(member) && *m == self@.members[member],
                Err(e) => e == RegistryError::NotAMember && !self@.members.contains_key(member),
            },
    {
        match self.members.get(&member) {
            Some(m) => Ok(m),
            None => Err(RegistryError::NotAMember),
        }
    }

    /// Pays collected rake into the fee pool.
    pub fn deposit_rake(&mut self, from: Address, amount: i128) -> (r: Result<
        Transfer,
        RegistryError,
    >)
        requires
            !old(self)@.is_paused() && amount > 0 && old(self)@.stake_token is Some ==> or_zero(
                old(self)@.fee_pool,
            ) + amount <= i128::MAX,
        ensures
            match r {
                Ok(t) => {
                    let st = old(self)@;
                    &&& !st.is_paused() && amount > 0 && st.stake_token is Some
                    &&& t == (Transfer {
                        token: st.stake_token->0,
                        from: Party::Wallet(from),
                        to: Party::This,
                        amount,
                    })
                    &&& final(self)@ == (RegistryState {
                        fee_pool: Some((or_zero(st.fee_pool) + amount) as i128),
                        ..st
                    })
                },
                Err(e) => final(self)@ == old(self)@ && if old(self)@.is_paused() {
                    e == RegistryError::ContractPaused
                } else if amount <= 0 {
                    e == RegistryError::DepositNotPositive
                } else {
                    e == RegistryError::NotInitialized && old(self)@.stake_token is None
                },
            },
            old(self)@.wf() ==> final(self)@.wf(),
            or_zero(final(self)@.fee_pool) - or_zero(old(self)@.fee_pool) == (if r is Ok {
                amount as int
            } else {
                0
            }),
            r is Ok <==> old(self)@.paused != Some(true) && amount > 0 && old(self)@.stake_token is Some,
    {
        if self.is_paused() {
            return Err(RegistryError::ContractPaused);
        }
        if amount <= 0 {
            return Err(RegistryError::DepositNotPositive);
        }
        let token: Address = match self.stake_token {
            Some(t) => t,
            None => {
                return Err(RegistryError::NotInitialized);
            },
        };
        let pool: i128 = self.fee_pool() + amount;
        self.fee_pool = Some(pool);
        proof {
            lemma_wf_frame(old(self)@, self@);
        }
        Ok(Transfer { token, from: Party::Wallet(from), to: Party::This, amount })
    }

    /// Splits the fee pool among the nodes in service by stake, each share rounded down, and
    /// returns what is credited. What the rounding leaves stays in the pool, and so does all of
    /// it where no node in service has a stake.
    #[verifier::rlimit(40)]
    pub fn distribute_fees(&mut self) -> (r: Result<i128, RegistryError>)
        requires
            old(self)@.wf(),
            !old(self)@.is_paused() && or_zero(old(self)@.fee_pool) > 0 ==> old(self)@.distribution_fits(),
        ensures
            ({
                let st = old(self)@;
                if st.is_paused() {
                    r == Err::<i128, _>(RegistryError::ContractPaused) && final(self)@ == st
                } else if !st.can_distribute() {
                    r == Ok::<_, RegistryError>(0i128) && final(self)@ == st
                } else {
                    r == Ok::<_, RegistryError>(st.distribution() as i128) && final(self)@
                        == st.distributed()
                }
            }),
            final(self)@.wf(),
    {
        if self.is_paused() {
            return Err(RegistryError::ContractPaused);
        }
        let ghost st = self@;
        let ghost list = st.all_members;
        let pool: i128 = self.fee_pool();
        if pool <= 0 {
            return Ok(0);
        }
        let n: usize = self.all_members.len();
        let mut total: i128 = 0;
        let mut i: usize = 0;
        while i < n
            invariant
                i <= n,
                n == list.len(),
                st.wf(),
                self@ == st,
                list == st.all_members,
                st.active_stake() <= i128::MAX,
                total == sum_by(active_among(list.take(i as int), st.members), stake_of()),
                total >= 0,
            decreases n - i,
        {
            proof {
                lemma_active_step(st, i as int);
                lemma_active_prefix(st, list, i + 1);
            }
            let m = self.members.get(&self.all_members[i]).unwrap();
            if m.active {
                total = total + m.stake;
            }
            i += 1;
        }
        assert(list.take(i as int) =~= list);
        if total <= 0 {
            return Ok(0);
        }
        let mut distributed: i128 = 0;
        let mut j: usize = 0;
        while j < n
            invariant
                j <= n,
                n == list.len(),
                st.wf(),
                st == old(self)@,
                list == st.all_members,
                pool == or_zero(st.fee_pool),
                pool > 0,
                total == st.active_stake(),
                total > 0,
                st.distribution_fits(),
                self@ == (RegistryState {
                    pending: credited(
                        st.pending,
                        active_among(list.take(j as int), st.members),
                        pool as int,
                        total as int,
                    ),
                    ..st
                }),
                distributed == sum_by(
                    active_among(list.take(j as int), st.members),
                    share_by_stake(pool as int, total as int),
                ),
                0 <= distributed <= pool,
                self@.pending.dom().finite(),
                forall|a: Address| #[trigger] self@.pending.contains_key(a) ==> self@.pending[a]
                    >= 0 && st.admin is Some,
                map_total(self@.pending) == or_zero(st.pending_total) + distributed,
            decreases n - j,
        {
            proof {
                lemma_active_step(st, j as int);
                lemma_active_prefix(st, list, j + 1);
                assert forall|q: int| 0 <= q < list.take(j + 1).len() implies st.all_members.contains(
                    #[trigger] list.take(j + 1)[q],
                ) by {
                    assert(list.take(j + 1)[q] == list[q]);
                }
                lemma_active_nonneg(st, list.take(j + 1));
                lemma_distribution_bounds(
                    active_among(list.take(j + 1), st.members),
                    pool as int,
                    total as int,
                );
                if st.members[list[j as int]].active {
                    lemma_active_member(st, list, j as int);
                }
            }
            let address: Address = self.all_members[j];
            let m = self.members.get(&address).unwrap();
            let stake: i128 = m.stake;
            if m.active {
                assert(m.address == address);
                let share: i128 = (pool * stake) / total;
                assert(share == share_by_stake(pool as int, total as int)(*m));
                if share > 0 {
                    let ghost before = self@.pending;
                    proof {
                        lemma_entry_within_total(before, address);
                        lemma_total_insert(
                            before,
                            address,
                            (value_or(before, address, 0) + share) as i128,
                        );
                    }
                    self.credit_reward(&address, share);
                    distributed = distributed + share;
                }
            }
            j += 1;
        }
        assert(list.take(j as int) =~= list);
        let all: i128 = match self.total_distributed {
            Some(x) => x,
            None => 0,
        };
        let pending: i128 = match self.pending_total {
            Some(x) => x,
            None => 0,
        };
        proof {
            lemma_total_nonneg(st.pending);
        }
        self.fee_pool = Some(pool - distributed);
        self.total_distributed = Some(all + distributed);
        self.pending_total = Some(pending + distributed);
        proof {
            lemma_wf_frame(st, self@);
        }
        Ok(distributed)
    }

    /// Pays a node its accrued fees, once they reach the least withdrawal.
    pub fn withdraw_rewards(&mut self, member: Address) -> (r: Result<Transfer, RegistryError>)
        requires
            old(self)@.wf(),
        ensures
            match r {
                Ok(t) => {
                    let st = old(self)@;
                    let amount = value_or(st.pending, member, 0);
                    &&& !st.is_paused()
                    &&& amount > 0 && amount >= or_zero(st.min_withdrawal)
                    &&& t == (Transfer {
                        token: st.stake_token->0,
                        from: Party::This,
                        to: Party::Wallet(member),
                        amount,
                    })
                    &&& final(self)@ == (RegistryState {
                        pending: st.pending.insert(member, 0i128),
                        pending_total: Some((or_zero(st.pending_total) - amount) as i128),
                        ..st
                    })
                },
                Err(e) => final(self)@ == old(self)@ && if old(self)@.is_paused() {
                    e == RegistryError::ContractPaused
                } else if value_or(old(self)@.pending, member, 0) <= 0 {
                    e == RegistryError::NothingToWithdraw
                } else {
                    e == RegistryError::BelowMinimumWithdrawal && value_or(
                        old(self)@.pending,
                        member,
                        0,
                    ) < or_zero(old(self)@.min_withdrawal)
                },
            },
            final(self)@.wf(),
            r matches Ok(t) ==> {
                &&& t.amount == value_or(old(self)@.pending, member, 0)
                &&& t.to == Party::Wallet(member)
                &&& value_or(final(self)@.pending, member, 0) == 0
                &&& or_zero(old(self)@.pending_total) - or_zero(final(self)@.pending_total)
                    == t.amount
            },
            r is Ok <==> old(self)@.paused != Some(true) && value_or(old(self)@.pending, member, 0) > 0 && value_or(
                old(self)@.pending,
                member,
                0,
            ) >= or_zero(old(self)@.min_withdrawal),
    {
        if self.is_paused() {
            return Err(RegistryError::ContractPaused);
        }
        let ghost st = self@;
        let amount: i128 = self.get_pending_reward(member);
        let threshold: i128 = match self.min_withdrawal {
            Some(x) => x,
            None => 0,
        };
        if amount <= 0 {
            return Err(RegistryError::NothingToWithdraw);
        }
        if amount < threshold {
            return Err(RegistryError::BelowMinimumWithdrawal);
        }
        proof {
            lemma_entry_within_total(st.pending, member);
            lemma_total_insert(st.pending, member, 0);
        }
        let pending: i128 = match self.pending_total {
            Some(x) => x,
            None => 0,
        };
        self.pending.insert(member, 0);
        self.pending_total = Some(pending - amount);
        let token: Address = self.stake_token.unwrap();
        proof {
            lemma_wf_frame(st, self@);
        }
        Ok(Transfer { token, from: Party::This, to: Party::Wallet(member), amount })
    }

    /// Sets the least balance that can be withdrawn.
    pub fn set_min_withdrawal(&mut self, env: &Env, admin: Address, min_withdrawal: i128) -> (r:
        Result<(), RegistryError>)
        ensures
            match r {
                Ok(_) => old(self)@.settings_refusal(admin) is None && min_withdrawal >= 0 && final(self)@ == (RegistryState { min_withdrawal: Some(min_withdrawal), ..old(self)@ }),
                Err(e) => final(self)@ == old(self)@ && if old(self)@.settings_refusal(
                    admin,
                ) is Some {
                    old(self)@.settings_refusal(admin) == Some(e)
                } else {
                    e == RegistryError::NegativeThreshold && min_withdrawal < 0
                },
            },
            old(self)@.wf() ==> final(self)@.wf(),
    {
        match self.require_settings(env, &admin) {
            Ok(_) => {},
            Err(e) => {
                return Err(e);
            },
        }
        if min_withdrawal < 0 {
            return Err(RegistryError::NegativeThreshold);
        }
        self.min_withdrawal = Some(min_withdrawal);
        proof {
            lemma_wf_frame(old(self)@, self@);
        }
        Ok(())
    }

    /// Sets how long an undelegation waits.
    pub fn set_delegation_cooldown(&mut self, env: &Env, admin: Address, cooldown_ledgers: u32) -> (r:
        Result<(), RegistryError>)
        ensures
            match old(self)@.settings_refusal(admin) {
                Some(e) => r == Err::<(), _>(e) && final(self)@ == old(self)@,
                None => r is Ok && final(self)@ == (RegistryState {
                    cooldown: Some(cooldown_ledgers),
                    ..old(self)@
                }),
            },
            old(self)@.wf() ==> final(self)@.wf(),
    {
        match self.require_settings(env, &admin) {
            Ok(_) => {},
            Err(e) => {
                return Err(e);
            },
        }
        self.cooldown = Some(cooldown_ledgers);
        proof {
            lemma_wf_frame(old(self)@, self@);
        }
        Ok(())
    }

    /// Delegates stake to a node in service. The stake comes from the delegator.
    pub fn delegate(&mut self, delegator: Address, node: Address, amount: i128) -> (r: Result<
        Transfer,
        RegistryError,
    >)
        requires
            old(self)@.wf(),
            old(self)@.delegate_refusal(node, amount) is None ==> {
                let m = old(self)@.members[node];
                let rec = old(self)@.record(delegator, node);
                &&& earned_fits(rec, m.rewards_per_stake)
                &&& rec.amount + amount <= i128::MAX
                &&& m.total_delegated_stake + amount <= i128::MAX
            },
        ensures
            match old(self)@.delegate_refusal(node, amount) {
                Some(e) => r == Err::<Transfer, _>(e) && final(self)@ == old(self)@,
                None => {
                    let st = old(self)@;
                    let m = st.members[node];
                    let rec = st.record(delegator, node);
                    &&& r == Ok::<_, RegistryError>(
                        Transfer {
                            token: st.stake_token->0,
                            from: Party::Wallet(delegator),
                            to: Party::This,
                            amount,
                        },
                    )
                    &&& final(self)@ == (RegistryState {
                        members: st.members.insert(
                            node,
                            CommitteeMember {
                                total_delegated_stake: (m.total_delegated_stake + amount) as i128,
                                ..m
                            },
                        ),
                        delegators: if st.delegators_of(node).contains(delegator) {
                            st.delegators
                        } else {
                            st.delegators.insert(node, st.delegators_of(node).push(delegator))
                        },
                        delegations: st.delegations.insert(
                            DelegationKey { delegator, node },
                            brought_up(rec, m.rewards_per_stake, (rec.amount + amount) as i128),
                        ),
                        ..st
                    })
                },
            },
            final(self)@.wf(),
            r matches Ok(t) ==> {
                let (m, q) = (old(self)@.members[node], final(self)@.members[node]);
                &&& t.amount == amount && t.from == Party::Wallet(delegator)
                &&& final(self)@.record(delegator, node).amount - old(self)@.record(
                    delegator,
                    node,
                ).amount == amount
                &&& q.total_delegated_stake - m.total_delegated_stake == amount
                &&& q.stake == m.stake
                &&& final(self)@.rewards_due(delegator, node) == old(self)@.rewards_due(
                    delegator,
                    node,
                )
            },
    {
        if self.is_paused() {
            return Err(RegistryError::ContractPaused);
        }
        if amount <= 0 {
            return Err(RegistryError::AmountNotPositive);
        }
        let ghost st = self@;
        let rps: i128 = match self.members.get(&node) {
            None => {
                return Err(RegistryError::NotAMember);
            },
            Some(m) => {
                if !m.active {
                    return Err(RegistryError::MemberNotActive);
                }
                m.rewards_per_stake
            },
        };
        let key = DelegationKey { delegator, node };
        let rec = self.delegation_record(&key, rps);
        let pending: i128 = rec.pending_rewards + calc_pending(&rec, rps);
        let next = DelegationRecord {
            amount: rec.amount + amount,
            debt_snapshot: rps,
            pending_rewards: pending,
        };
        proof {
            rewards_follow_the_stake(rec, rps);
            changing_a_delegation_keeps_rewards(rec, rps, next.amount);
        }
        self.delegations.insert(key, next);
        let mut list: Vec<Address> = match self.delegators.get(&node) {
            Some(v) => v.dup(),
            None => Vec::new(),
        };
        if !contains_item(&list, &delegator) {
            list.push(delegator);
            self.delegators.insert(node, list);
        }
        let mut m = self.members.remove(&node).unwrap();
        m.total_delegated_stake = m.total_delegated_stake + amount;
        self.members.insert(node, m);
        let token: Address = self.stake_token.unwrap();
        proof {
            let n = self@;
            let ds = st.delegators_of(node);
            lemma_with_member(ds, delegator);
            assert(n.delegators_of(node) == with_member(ds, delegator));
            assert(n.members =~= st.members.insert(node, m));
            assert forall|x: Address| #[trigger]
                n.all_members.contains(x) <==> n.members.contains_key(x) by {
                assert(st.all_members.contains(x) <==> st.members.contains_key(x));
            }
            assert forall|k: DelegationKey| #[trigger]
                n.delegations.contains_key(k) implies n.delegations[k].amount >= 0
                && n.members.contains_key(k.node) && n.delegators_of(k.node).contains(
                k.delegator,
            ) by {
                if k != key {
                    assert(st.delegations.contains_key(k));
                    assert(st.delegators_of(k.node).contains(k.delegator));
                    if k.node != node {
                        assert(n.delegators_of(k.node) == st.delegators_of(k.node));
                    }
                }
            }
            assert forall|k: DelegationKey| #[trigger]
                n.undelegations.contains_key(k) implies n.undelegations[k].amount >= 0
                && n.delegations.contains_key(k) by {
                assert(st.undelegations.contains_key(k));
            }
            assert forall|x: Address| #[trigger] n.delegators_of(x).no_duplicates() by {
                if x != node {
                    assert(n.delegators_of(x) == st.delegators_of(x));
                }
            }
        }
        Ok(Transfer { token, from: Party::Wallet(delegator), to: Party::This, amount })
    }

    /// The delegation of a key, or an empty one.
    fn delegation_record(&self, key: &DelegationKey, rps: i128) -> (r: DelegationRecord)
        requires
            self@.members.contains_key(key.node),
            rps == self@.members[key.node].rewards_per_stake,
        ensures
            r == self@.record(key.delegator, key.node),
    {
        match self.delegations.get(key) {
            Some(x) => *x,
            None => DelegationRecord { amount: 0, debt_snapshot: rps, pending_rewards: 0 },
        }
    }

    /// Takes delegated stake off a node at ledger `now`. It can be withdrawn after the cooldown.
    pub fn undelegate(&mut self, delegator: Address, node: Address, amount: i128, now: u32) -> (r:
        Result<(), RegistryError>)
        requires
            old(self)@.wf(),
            old(self)@.undelegate_refusal(delegator, node, amount) is None ==> {
                let m = old(self)@.members[node];
                let rec = old(self)@.record(delegator, node);
                &&& earned_fits(rec, m.rewards_per_stake)
                &&& m.total_delegated_stake - amount >= i128::MIN
                &&& now + old(self)@.cooldown_ledgers() <= u32::MAX
            },
        ensures
            match old(self)@.undelegate_refusal(delegator, node, amount) {
                Some(e) => r == Err::<(), _>(e) && final(self)@ == old(self)@,
                None => {
                    let st = old(self)@;
                    let m = st.members[node];
                    let k = DelegationKey { delegator, node };
                    let rec = st.delegations[k];
                    &&& r is Ok
                    &&& final(self)@ == (RegistryState {
                        members: st.members.insert(
                            node,
                            CommitteeMember {
                                total_delegated_stake: (m.total_delegated_stake - amount) as i128,
                                ..m
                            },
                        ),
                        delegations: st.delegations.insert(
                            k,
                            brought_up(rec, m.rewards_per_stake, (rec.amount - amount) as i128),
                        ),
                        undelegations: st.undelegations.insert(
                            k,
                            UndelegationRequest {
                                amount,
                                unlock_ledger: (now + st.cooldown_ledgers()) as u32,
                            },
                        ),
                        ..st
                    })
                },
            },
            final(self)@.wf(),
            r is Ok ==> {
                let k = DelegationKey { delegator, node };
                let (m, q) = (old(self)@.members[node], final(self)@.members[node]);
                &&& old(self)@.delegations[k].amount - final(self)@.delegations[k].amount == amount
                &&& m.total_delegated_stake - q.total_delegated_stake == amount
                &&& final(self)@.undelegations[k].amount == amount
                &&& final(self)@.undelegations[k].unlock_ledger == now
                    + old(self)@.cooldown_ledgers()
                &&& final(self)@.rewards_due(delegator, node) == old(self)@.rewards_due(
                    delegator,
                    node,
                )
            },
    {
        if self.is_paused() {
            return Err(RegistryError::ContractPaused);
        }
        if amount <= 0 {
            return Err(RegistryError::AmountNotPositive);
        }
        let ghost st = self@;
        let key = DelegationKey { delegator, node };
        if self.undelegations.contains(&key) {
            return Err(RegistryError::UndelegationPending);
        }
        let rec: DelegationRecord = match self.delegations.get(&key) {
            Some(x) => *x,
            None => {
                return Err(RegistryError::InsufficientDelegation);
            },
        };
        if rec.amount < amount {
            return Err(RegistryError::InsufficientDelegation);
        }
        let cooldown: u32 = match self.cooldown {
            Some(c) => c,
            None => 0,
        };
        let mut m = self.members.remove(&node).unwrap();
        let rps: i128 = m.rewards_per_stake;
        let pending: i128 = rec.pending_rewards + calc_pending(&rec, rps);
        self.delegations.insert(
            key,
            DelegationRecord {
                amount: rec.amount - amount,
                debt_snapshot: rps,
                pending_rewards: pending,
            },
        );
        self.undelegations.insert(
            key,
            UndelegationRequest { amount, unlock_ledger: now + cooldown },
        );
        m.total_delegated_stake = m.total_delegated_stake - amount;
        self.members.insert(node, m);
        proof {
            assert(self@.delegations.dom() =~= st.delegations.dom());
            lemma_delegations_changed(st, self@, node, m);
            changing_a_delegation_keeps_rewards(rec, rps, (rec.amount - amount) as i128);
        }
        Ok(())
    }

    /// Pays out delegated stake whose cooldown has elapsed at ledger `now`.
    pub fn withdraw_undelegation(&mut self, delegator: Address, node: Address, now: u32) -> (r:
        Result<Transfer, RegistryError>)
        requires
            old(self)@.wf(),
        ensures
            match r {
                Ok(t) => {
                    let st = old(self)@;
                    let k = DelegationKey { delegator, node };
                    &&& !st.is_paused()
                    &&& st.undelegations.contains_key(k) && now >= st.undelegations[k].unlock_ledger
                    &&& t == (Transfer {
                        token: st.stake_token->0,
                        from: Party::This,
                        to: Party::Wallet(delegator),
                        amount: st.undelegations[k].amount,
                    })
                    &&& final(self)@ == (RegistryState {
                        undelegations: st.undelegations.remove(k),
                        ..st
                    })
                },
                Err(e) => {
                    let st = old(self)@;
                    let k = DelegationKey { delegator, node };
                    &&& final(self)@ == st
                    &&& if st.is_paused() {
                        e == RegistryError::ContractPaused
                    } else if !st.undelegations.contains_key(k) {
                        e == RegistryError::NoPendingUndelegation
                    } else {
                        e == RegistryError::CooldownNotElapsed && now
                            < st.undelegations[k].unlock_ledger
                    }
                },
            },
            final(self)@.wf(),
            r matches Ok(t) ==> {
                let k = DelegationKey { delegator, node };
                &&& t.amount == old(self)@.undelegations[k].amount
                &&& t.to == Party::Wallet(delegator)
                &&& !final(self)@.undelegations.contains_key(k)
                &&& final(self)@.delegations == old(self)@.delegations
            },
            r is Ok <==> {
                let k = DelegationKey { delegator, node };
                &&& old(self)@.paused != Some(true)
                &&& old(self)@.undelegations.contains_key(k)
                &&& now >= old(self)@.undelegations[k].unlock_ledger
            },
    {
        if self.is_paused() {
            return Err(RegistryError::ContractPaused);
        }
        let ghost st = self@;
        let key = DelegationKey { delegator, node };
        let req: UndelegationRequest = match self.undelegations.get(&key) {
            Some(x) => *x,
            None => {
                return Err(RegistryError::NoPendingUndelegation);
            },
        };
        if now < req.unlock_ledger {
            return Err(RegistryError::CooldownNotElapsed);
        }
        assert(st.delegations.contains_key(key));
        assert(st.members.contains_key(node));
        let _ = self.undelegations.remove(&key);
        let token: Address = self.stake_token.unwrap();
        proof {
            assert(self@.delegations.dom() =~= st.delegations.dom());
            assert(self@.members =~= st.members.remove(node).insert(node, st.members[node]));
            lemma_delegations_changed(st, self@, node, st.members[node]);
        }
        Ok(Transfer { token, from: Party::This, to: Party::Wallet(delegator), amount: req.amount })
    }

    /// Pays a delegator the rewards earned with a node.
    pub fn claim_rewards(&mut self, delegator: Address, node: Address) -> (r: Result<
        Transfer,
        RegistryError,
    >)
        requires
            old(self)@.wf(),
            !old(self)@.is_paused() && old(self)@.delegations.contains_key(
                DelegationKey { delegator, node },
            ) ==> earned_fits(
                old(self)@.delegations[DelegationKey { delegator, node }],
                old(self)@.members[node].rewards_per_stake,
            ),
        ensures
            match r {
                Ok(t) => {
                    let st = old(self)@;
                    let k = DelegationKey { delegator, node };
                    &&& !st.is_paused()
                    &&& st.rewards_due(delegator, node) > 0
                    &&& t == (Transfer {
                        token: st.stake_token->0,
                        from: Party::This,
                        to: Party::Wallet(delegator),
                        amount: st.rewards_due(delegator, node) as i128,
                    })
                    &&& final(self)@ == (RegistryState {
                        delegations: st.delegations.insert(
                            k,
                            DelegationRecord {
                                amount: st.delegations[k].amount,
                                debt_snapshot: st.members[node].rewards_per_stake,
                                pending_rewards: 0,
                            },
                        ),
                        ..st
                    })
                },
                Err(e) => final(self)@ == old(self)@ && if old(self)@.is_paused() {
                    e == RegistryError::ContractPaused
                } else {
                    e == RegistryError::NothingToWithdraw && old(self)@.rewards_due(
                        delegator,
                        node,
                    ) <= 0
                },
            },
            final(self)@.wf(),
            r matches Ok(t) ==> {
                let k = DelegationKey { delegator, node };
                &&& t.amount == old(self)@.rewards_due(delegator, node)
                &&& t.to == Party::Wallet(delegator)
                &&& final(self)@.rewards_due(delegator, node) == 0
                &&& final(self)@.delegations[k].amount == old(self)@.delegations[k].amount
            },
            r is Ok <==> old(self)@.paused != Some(true) && old(self)@.rewards_due(delegator, node) > 0,
    {
        if self.is_paused() {
            return Err(RegistryError::ContractPaused);
        }
        let ghost st = self@;
        let key = DelegationKey { delegator, node };
        let rec: DelegationRecord = match self.delegations.get(&key) {
            Some(x) => *x,
            None => {
                return Err(RegistryError::NothingToWithdraw);
            },
        };
        assert(st.members.contains_key(node));
        let rps: i128 = self.members.get(&node).unwrap().rewards_per_stake;
        let due: i128 = rec.pending_rewards + calc_pending(&rec, rps);
        if due <= 0 {
            return Err(RegistryError::NothingToWithdraw);
        }
        self.delegations.insert(
            key,
            DelegationRecord { amount: rec.amount, debt_snapshot: rps, pending_rewards: 0 },
        );
        let token: Address = self.stake_token.unwrap();
        proof {
            assert(self@.delegations.dom() =~= st.delegations.dom());
            assert(self@.members =~= st.members.remove(node).insert(node, st.members[node]));
            lemma_delegations_changed(st, self@, node, st.members[node]);
            rewards_follow_the_stake(self@.delegations[key], rps);
        }
        Ok(Transfer { token, from: Party::This, to: Party::Wallet(delegator), amount: due })
    }

    /// The rewards that a delegator can claim.
    pub fn pending_rewards(&self, delegator: Address, node: Address) -> (r: i128)
        requires
            self@.wf(),
            self@.delegations.contains_key(DelegationKey { delegator, node }) ==> earned_fits(
                self@.delegations[DelegationKey { delegator, node }],
                self@.members[node].rewards_per_stake,
            ),
        ensures
            r == self@.rewards_due(delegator, node),
    {
        let key = DelegationKey { delegator, node };
        match self.delegations.get(&key) {
            Some(rec) => {
                assert(self@.delegations.contains_key(key));
                let rps: i128 = self.members.get(&node).unwrap().rewards_per_stake;
                rec.pending_rewards + calc_pending(rec, rps)
            },
            None => 0,
        }
    }

    /// A delegation.
    pub fn get_delegation(&self, delegator: Address, node: Address) -> (r: Option<DelegationRecord>)
        ensures
            r == self@.delegations.index_opt(DelegationKey { delegator, node }),
    {
        match self.delegations.get(&DelegationKey { delegator, node }) {
            Some(x) => Some(*x),
            None => None,
        }
    }

    /// Delegated stake on its way back.
    pub fn get_pending_undelegation(&self, delegator: Address, node: Address) -> (r: Option<
        UndelegationRequest,
    >)
        ensures
            r == self@.undelegations.index_opt(DelegationKey { delegator, node }),
    {
        match self.undelegations.get(&DelegationKey { delegator, node }) {
            Some(x) => Some(*x),
            None => None,
        }
    }

    /// Pays a fee to one node. The node keeps its rate, or all of it where nobody delegates to
    /// it; the rest is shared by its delegators in proportion to their stake. Returns what the
    /// payer pays in and what the node is paid.
    pub fn distribute_fees_to_node(&mut self, payer: Address, node: Address, amount: i128) -> (r:
        Result<(Transfer, Transfer), RegistryError>)
        requires
            old(self)@.wf(),
            old(self)@.node_fee_refusal(node, amount) is None ==> {
                let m = old(self)@.members[node];
                &&& amount * REWARD_SCALE <= i128::MAX
                &&& m.rewards_per_stake + amount * REWARD_SCALE <= i128::MAX
            },
        ensures
            match old(self)@.node_fee_refusal(node, amount) {
                Some(e) => r == Err::<(Transfer, Transfer), _>(e) && final(self)@ == old(self)@,
                None => {
                    let st = old(self)@;
                    let m = st.members[node];
                    let kept = st.node_cut(node, amount);
                    &&& r == Ok::<_, RegistryError>(
                        (
                            Transfer {
                                token: st.stake_token->0,
                                from: Party::Wallet(payer),
                                to: Party::This,
                                amount,
                            },
                            Transfer {
                                token: st.stake_token->0,
                                from: Party::This,
                                to: Party::Wallet(node),
                                amount: kept as i128,
                            },
                        ),
                    )
                    &&& final(self)@ == (if m.total_delegated_stake <= 0 {
                        st
                    } else {
                        RegistryState {
                            members: st.members.insert(
                                node,
                                CommitteeMember {
                                    rewards_per_stake: (m.rewards_per_stake + (amount - kept)
                                        * REWARD_SCALE / m.total_delegated_stake as int) as i128,
                                    ..m
                                },
                            ),
                            ..st
                        }
                    })
                },
            },
            final(self)@.wf(),
            r matches Ok((paid, kept)) ==> {
                let (m, q) = (old(self)@.members[node], final(self)@.members[node]);
                let shared = (amount - kept.amount) * 1_000_000_000_000;
                let inc = q.rewards_per_stake - m.rewards_per_stake;
                &&& paid.amount == amount && paid.from == Party::Wallet(payer)
                &&& kept.to == Party::Wallet(node) && kept.from == Party::This
                &&& m.total_delegated_stake <= 0 ==> kept.amount == amount && inc == 0
                &&& m.total_delegated_stake > 0 ==> 10_000 * kept.amount <= amount * m.fee_rate_bps
                    < 10_000 * (kept.amount + 1)
                &&& m.total_delegated_stake > 0 ==> inc * m.total_delegated_stake <= shared < (inc
                    + 1) * m.total_delegated_stake
            },
    {
        if self.is_paused() {
            return Err(RegistryError::ContractPaused);
        }
        if amount <= 0 {
            return Err(RegistryError::AmountNotPositive);
        }
        let ghost st = self@;
        if !self.members.contains(&node) {
            return Err(RegistryError::NotAMember);
        }
        let token: Address = self.stake_token.unwrap();
        let mut m = self.members.remove(&node).unwrap();
        let delegated: i128 = m.total_delegated_stake;
        let mut kept: i128 = amount;
        if delegated > 0 {
            let rate: i128 = m.fee_rate_bps as i128;
            assert(0 <= amount * rate <= amount * 10_000) by (nonlinear_arith)
                requires
                    amount > 0,
                    0 <= rate <= 10_000,
            ;
            kept = (amount * rate) / 10_000;
            let rest: i128 = amount - kept;
            assert(0 <= rest * REWARD_SCALE <= amount * REWARD_SCALE) by (nonlinear_arith)
                requires
                    0 <= rest <= amount,
            ;
            let scaled: i128 = rest * REWARD_SCALE;
            assert(0 <= scaled / delegated <= scaled) by (nonlinear_arith)
                requires
                    0 <= scaled,
                    delegated > 0,
            ;
            let inc: i128 = scaled / delegated;
            assert(inc * delegated <= scaled < (inc + 1) * delegated) by (nonlinear_arith)
                requires
                    0 <= scaled,
                    delegated > 0,
                    inc == scaled / delegated,
            ;
            m.rewards_per_stake = m.rewards_per_stake + inc;
        }
        self.members.insert(node, m);
        proof {
            lemma_member_replaced(st, self@, node, m);
            if delegated <= 0 {
                assert(self@.members =~= st.members);
            }
        }
        Ok(
            (
                Transfer { token, from: Party::Wallet(payer), to: Party::This, amount },
                Transfer { token, from: Party::This, to: Party::Wallet(node), amount: kept },
            ),
        )
    }

    /// Fees credited to a node and not yet withdrawn.
    pub fn get_pending_reward(&self, member: Address) -> (r: i128)
        ensures
            r == value_or(self@.pending, member, 0),
    {
        match self.pending.get(&member) {
            Some(x) => *x,
            None => 0,
        }
    }

    /// The accounts of the fee pool.
    pub fn get_fee_pool(&self) -> (r: FeePoolState)
        ensures
            r == (FeePoolState {
                undistributed: or_zero(self@.fee_pool),
                pending: or_zero(self@.pending_total),
                total_distributed: or_zero(self@.total_distributed),
                min_withdrawal: or_zero(self@.min_withdrawal),
            }),
    {
        FeePoolState {
            undistributed: self.fee_pool(),
            pending: match self.pending_total {
                Some(x) => x,
                None => 0,
            },
            total_distributed: match self.total_distributed {
                Some(x) => x,
                None => 0,
            },
            min_withdrawal: match self.min_withdrawal {
                Some(x) => x,
                None => 0,
            },
        }
    }

    /// How long each phase may wait.
    pub fn get_timeout_config(&self) -> (r: Result<TimeoutConfig, RegistryError>)
        ensures
            r == (match self@.timeouts {
                Some(c) => Ok(c),
                None => Err(RegistryError::NotInitialized),
            }),
    {
        match self.timeouts {
            Some(c) => Ok(c),
            None => Err(RegistryError::NotInitialized),
        }
    }

    /// The progress of a game.
    pub fn get_game_liveness(&self, game_id: u32) -> (r: Result<&GameLiveness, RegistryError>)
        ensures
            match r {
                Ok(g) => self@.games.contains_key(game_id) && g@ == self@.games[game_id],
                Err(e) => e == RegistryError::GameNotTracked && !self@.games.contains_key(game_id),
            },
    {
        match self.games.get(&game_id) {
            Some(g) => Ok(g),
            None => Err(RegistryError::GameNotTracked),
        }
    }

    fn fee_pool(&self) -> (r: i128)
        ensures
            r == or_zero(self@.fee_pool),
    {
        match self.fee_pool {
            Some(x) => x,
            None => 0,
        }
    }

    /// Adds to a node's withdrawable balance.
    fn credit_reward(&mut self, member: &Address, amount: i128)
        requires
            i128::MIN <= value_or(old(self)@.pending, *member, 0) + amount <= i128::MAX,
        ensures
            final(self)@ == (RegistryState {
                pending: old(self)@.pending.insert(
                    *member,
                    (value_or(old(self)@.pending, *member, 0) + amount) as i128,
                ),
                ..old(self)@
            }),
    {
        let current: i128 = self.get_pending_reward(*member);
        self.pending.insert(*member, current + amount);
    }

    /// How long a phase may wait.
    pub fn timeout_for_phase(config: &TimeoutConfig, phase: &GamePhase) -> (r: u32)
        ensures
            r == (match *phase {
                GamePhase::Deal => config.deal_ledgers,
                GamePhase::Reveal => config.reveal_ledgers,
                GamePhase::Showdown => config.showdown_ledgers,
            }),
    {
        match phase {
            GamePhase::Deal => config.deal_ledgers,
            GamePhase::Reveal => config.reveal_ledgers,
            GamePhase::Showdown => config.showdown_ledgers,
        }
    }

    /// Cuts what one delegator has with a node in half.
    fn halve_delegation(&mut self, node: Address, rps: i128, delegator: Address) -> (r: (i128, i128))
        requires
            old(self)@.wf(),
            ({
                let k = DelegationKey { delegator, node };
                old(self)@.delegations.contains_key(k) ==> earned_fits(
                    old(self)@.delegations[k],
                    rps,
                )
            }),
        ensures
            (final(self)@, r.0 as int, r.1 as int) == old(self)@.cut_in_half(node, rps, delegator),
    {
        let key = DelegationKey { delegator, node };
        let mut active_cut: i128 = 0;
        let mut waiting_cut: i128 = 0;
        let d: Option<DelegationRecord> = match self.delegations.get(&key) {
            Some(x) => Some(*x),
            None => None,
        };
        let u: Option<UndelegationRequest> = match self.undelegations.get(&key) {
            Some(x) => Some(*x),
            None => None,
        };
        if let Some(rec) = d {
            let pending: i128 = rec.pending_rewards + calc_pending(&rec, rps);
            active_cut = rec.amount / 2;
            let next = DelegationRecord {
                amount: rec.amount - active_cut,
                debt_snapshot: rps,
                pending_rewards: pending,
            };
            self.delegations.insert(key, next);
        }
        if let Some(req) = u {
            waiting_cut = req.amount / 2;
            let next = UndelegationRequest {
                amount: req.amount - waiting_cut,
                unlock_ledger: req.unlock_ledger,
            };
            self.undelegations.insert(key, next);
        }
        (active_cut, waiting_cut)
    }

    /// Takes half of a node's stake and half of all that is delegated to it, takes the node out
    /// of service, and returns how much was taken.
    #[verifier::rlimit(60)]
    fn slash_member_stake(&mut self, member: &Address) -> (r: i128)
        requires
            old(self)@.wf(),
            old(self)@.members.contains_key(*member),
            old(self)@.slash_fits(*member),
        ensures
            (final(self)@, r as int) == old(self)@.slashed(*member),
            final(self)@.wf(),
    {
        let ghost st = self@;
        let node: Address = *member;
        let (stake, rps): (i128, i128) = match self.members.get(member) {
            Some(m) => (m.stake, m.rewards_per_stake),
            None => (0, 0),
        };
        let own: i128 = stake / 2;
        let list: Vec<Address> = match self.delegators.get(member) {
            Some(v) => v.dup(),
            None => Vec::new(),
        };
        let ghost gm = st.members[node];
        let mut active_cut: i128 = 0;
        let mut waiting_cut: i128 = 0;
        let mut i: usize = 0;
        while i < list.len()
            invariant
                i <= list@.len(),
                st == old(self)@,
                st.wf(),
                st.members.contains_key(node),
                st.slash_fits(node),
                gm == st.members[node],
                gm.rewards_per_stake == rps,
                own == gm.stake / 2,
                own >= 0,
                list@ == st.delegators_of(node),
                (self@, active_cut as int, waiting_cut as int) == st.haircut(
                    node,
                    rps,
                    list@.take(i as int),
                ),
                active_cut >= 0,
                waiting_cut >= 0,
                self@.wf(),
            decreases list@.len() - i,
        {
            let ghost s = self@;
            let ghost l = list@;
            proof {
                assert(l.take(i + 1).drop_last() =~= l.take(i as int));
                assert(l.take(i + 1).last() == l[i as int]);
                lemma_haircut(st, node, rps, l.take(i + 1));
            }
            assert(st.haircut(node, rps, l.take(i as int)).0 == s);
            let (x, y): (i128, i128) = self.halve_delegation(node, rps, list[i]);
            active_cut = active_cut + x;
            waiting_cut = waiting_cut + y;
            assert(self@ == st.haircut(node, rps, l.take(i + 1)).0);
            i += 1;
        }
        proof {
            assert(list@.take(i as int) =~= list@);
            lemma_haircut(st, node, rps, list@);
            assert(st.delegators_of(node).take(i as int) =~= list@);
        }
        let ghost mid = self@;
        let mut m = self.members.remove(member).unwrap();
        m.slash_count = m.slash_count + 1;
        m.stake = m.stake - own;
        m.active = false;
        m.total_delegated_stake = m.total_delegated_stake - active_cut;
        self.members.insert(node, m);
        proof {
            lemma_member_replaced(mid, self@, node, m);
        }
        own + active_cut + waiting_cut
    }

    /// The transfers that hand a slashed amount to the players in even shares. Units that do not
    /// divide go to the first players, one each.
    fn redistribute_slashed_stake(token: Address, players: &Vec<Address>, amount: i128) -> (r: Vec<
        Transfer,
    >)
        ensures
            r@ == slash_transfers(token, players@, amount as int),
    {
        let mut out: Vec<Transfer> = Vec::new();
        if amount <= 0 || players.len() == 0 {
            return out;
        }
        let ghost all = slash_transfers(token, players@, amount as int);
        let n: i128 = players.len() as i128;
        let share: i128 = amount / n;
        let mut remainder: i128 = amount % n;
        proof {
            assert(0 <= share <= amount && 0 <= remainder < n && (n > 1 ==> share < amount)
                && share * n + remainder == amount) by (nonlinear_arith)
                requires
                    amount > 0,
                    n > 0,
                    share == amount / n,
                    remainder == amount % n,
            ;
        }
        let mut i: usize = 0;
        while i < players.len()
            invariant
                i <= players@.len(),
                n == players@.len(),
                amount > 0,
                n > 0,
                share == amount as int / n as int,
                0 <= share <= amount,
                n > 1 ==> share < amount,
                0 <= amount as int % n as int,
                amount as int % (n as int) < n,
                remainder == (if i < amount as int % n as int {
                    amount as int % n as int - i
                } else {
                    0
                }),
                all == slash_transfers(token, players@, amount as int),
                out@ == all.take(i as int),
            decreases players@.len() - i,
        {
            let odd: i128 = if remainder > 0 {
                1
            } else {
                0
            };
            if remainder > 0 {
                remainder = remainder - 1;
            }
            let t = Transfer {
                token,
                from: Party::This,
                to: Party::Wallet(players[i]),
                amount: share + odd,
            };
            assert(t == all[i as int]);
            assert(all.take(i + 1) =~= all.take(i as int).push(all[i as int]));
            out.push(t);
            i += 1;
        }
        assert(all.take(i as int) =~= all);
        out
    }
}

/// A member after a reported fault.
pub open spec fn after_report(m: CommitteeMember) -> CommitteeMember {
    let count = (m.slash_count + 1) as u32;
    if count >= 3 {
        CommitteeMember {
            slash_count: count,
            stake: (m.stake - m.stake / 2) as i128,
            active: false,
            ..m
        }
    } else {
        CommitteeMember { slash_count: count, ..m }
    }
}

/// What is not a member, a listing or a delegation can change freely while the rest of the
/// well-formedness is kept.
proof fn lemma_wf_frame(a: RegistryState, b: RegistryState)
    requires
        a.members == b.members,
        a.all_members == b.all_members,
        a.delegators == b.delegators,
        a.delegations == b.delegations,
        a.undelegations == b.undelegations,
        a.wf() ==> {
            &&& b.admin is Some <==> b.stake_token is Some
            &&& b.admin is Some <==> b.min_stake is Some
            &&& b.admin is Some <==> b.timeouts is Some
            &&& a.admin is Some ==> b.admin is Some
            &&& forall|g: u32| #[trigger] b.games.contains_key(g) ==> b.admin is Some
            &&& b.epoch_number() > 0 ==> b.epochs.contains_key(b.epoch_number())
            &&& or_zero(b.fee_pool) >= 0
            &&& b.pending.dom().finite()
            &&& or_zero(b.pending_total) == map_total(b.pending)
            &&& forall|x: Address| #[trigger]
                b.pending.contains_key(x) ==> b.pending[x] >= 0 && b.admin is Some
        },
    ensures
        a.wf() ==> b.wf(),
{
    if a.wf() {
        lemma_wf_delegations_frame(a, b);
    }
}

proof fn lemma_wf_delegations_frame(a: RegistryState, b: RegistryState)
    requires
        a.wf(),
        a.delegators == b.delegators,
        a.delegations == b.delegations,
        a.undelegations == b.undelegations,
        forall|x: Address| #[trigger] a.members.contains_key(x) ==> b.members.contains_key(x),
    ensures
        forall|k: DelegationKey| #[trigger]
            b.delegations.contains_key(k) ==> b.delegations[k].amount >= 0
                && b.members.contains_key(k.node) && b.delegators_of(k.node).contains(k.delegator),
        forall|k: DelegationKey| #[trigger]
            b.undelegations.contains_key(k) ==> b.undelegations[k].amount >= 0
                && b.delegations.contains_key(k),
        forall|n: Address| #[trigger] b.delegators_of(n).no_duplicates(),
{
    assert forall|k: DelegationKey| #[trigger] b.delegations.contains_key(k) implies b.delegations[k].amount
        >= 0 && b.members.contains_key(k.node) && b.delegators_of(k.node).contains(k.delegator) by {
        assert(a.delegations.contains_key(k));
        assert(b.delegators_of(k.node) == a.delegators_of(k.node));
    }
    assert forall|n: Address| #[trigger] b.delegators_of(n).no_duplicates() by {
        assert(b.delegators_of(n) == a.delegators_of(n));
    }
}

/// Replacing one member's record keeps the register well formed.
proof fn lemma_member_replaced(
    a: RegistryState,
    b: RegistryState,
    member: Address,
    m: CommitteeMember,
)
    requires
        a.wf(),
        a.members.contains_key(member),
        m.address == member,
        m.stake >= 0,
        m.fee_rate_bps <= 10_000,
        b == (RegistryState { members: b.members, ..a }),
        b.members == a.members.remove(member).insert(member, m),
    ensures
        b.wf(),
        b.members == a.members.insert(member, m),
{
    assert(b.members =~= a.members.insert(member, m));
    assert forall|x: Address| #[trigger]
        b.all_members.contains(x) <==> b.members.contains_key(x) by {
        assert(a.all_members.contains(x) <==> a.members.contains_key(x));
    }
    lemma_wf_delegations_frame(a, b);
}

/// Changing the amounts of existing delegations, and one member's record, keeps the register well
/// formed.
proof fn lemma_delegations_changed(
    a: RegistryState,
    b: RegistryState,
    node: Address,
    m: CommitteeMember,
)
    requires
        a.wf(),
        a.members.contains_key(node),
        m.address == node,
        m.stake >= 0,
        m.fee_rate_bps <= 10_000,
        b.members == a.members.remove(node).insert(node, m),
        b == (RegistryState {
            members: b.members,
            delegations: b.delegations,
            undelegations: b.undelegations,
            ..a
        }),
        b.delegations.dom() == a.delegations.dom(),
        forall|k: DelegationKey| #[trigger]
            b.delegations.contains_key(k) ==> b.delegations[k].amount >= 0,
        forall|k: DelegationKey| #[trigger]
            b.undelegations.contains_key(k) ==> b.undelegations[k].amount >= 0
                && b.delegations.contains_key(k),
    ensures
        b.wf(),
        b.members == a.members.insert(node, m),
{
    assert(b.members =~= a.members.insert(node, m));
    assert forall|x: Address| #[trigger]
        b.all_members.contains(x) <==> b.members.contains_key(x) by {
        assert(a.all_members.contains(x) <==> a.members.contains_key(x));
    }
    assert forall|k: DelegationKey| #[trigger]
        b.delegations.contains_key(k) implies b.delegations[k].amount >= 0
        && b.members.contains_key(k.node) && b.delegators_of(k.node).contains(k.delegator) by {
        assert(b.delegations.dom().contains(k));
        assert(a.delegations.contains_key(k));
        assert(b.delegators_of(k.node) == a.delegators_of(k.node));
    }
    assert forall|n: Address| #[trigger] b.delegators_of(n).no_duplicates() by {
        assert(b.delegators_of(n) == a.delegators_of(n));
    }
}

proof fn lemma_membership_step(st: RegistryState, members: Seq<Address>, i: int)
    requires
        0 <= i < members.len(),
    ensures
        members.take(i + 1).drop_last() == members.take(i),
        members.take(i + 1).last() == members[i],
        st.membership_refusal(members.take(i + 1)) matches Some(e) ==> st.membership_refusal(members)
            == Some(e),
    decreases members.len() - i,
{
    assert(members.take(i + 1).drop_last() =~= members.take(i));
    if i + 1 < members.len() {
        lemma_membership_step(st, members, i + 1);
    } else {
        assert(members.take(i + 1) =~= members);
    }
}

proof fn lemma_active_step(st: RegistryState, i: int)
    requires
        st.wf(),
        0 <= i < st.all_members.len(),
    ensures
        ({
            let list = st.all_members;
            let m = st.members[list[i]];
            let before = active_among(list.take(i), st.members);
            let after = active_among(list.take(i + 1), st.members);
            &&& st.members.contains_key(list[i])
            &&& m.stake >= 0
            &&& m.address == list[i]
            &&& after == (if m.active {
                before.push(m)
            } else {
                before
            })
            &&& sum_by(after, stake_of()) == sum_by(before, stake_of()) + (if m.active {
                m.stake as int
            } else {
                0
            })
            &&& m.active ==> after.drop_last() == before && after.last() == m
        }),
{
    let list = st.all_members;
    assert(list.take(i + 1).drop_last() =~= list.take(i));
    assert(list.contains(list[i]));
    let before = active_among(list.take(i), st.members);
    let m = st.members[list[i]];
    assert(before.push(m).drop_last() =~= before);
}

/// The stake of a part of the list is at most that of the whole.
proof fn lemma_active_prefix(st: RegistryState, list: Seq<Address>, i: int)
    requires
        st.wf(),
        forall|j: int| 0 <= j < list.len() ==> st.all_members.contains(#[trigger] list[j]),
        0 <= i <= list.len(),
    ensures
        0 <= sum_by(active_among(list.take(i), st.members), stake_of()) <= sum_by(
            active_among(list, st.members),
            stake_of(),
        ),
    decreases list.len(),
{
    if i == list.len() {
        assert(list.take(i) =~= list);
        lemma_active_nonneg(st, list);
    } else {
        let d = list.drop_last();
        assert(d.take(i) =~= list.take(i));
        assert forall|j: int| 0 <= j < d.len() implies st.all_members.contains(#[trigger] d[j]) by {
            assert(d[j] == list[j]);
        }
        lemma_active_prefix(st, d, i);
        let m = st.members[list.last()];
        assert(list[list.len() - 1] == list.last());
        assert(st.all_members.contains(list.last()) <==> st.members.contains_key(list.last()));
        let rest = active_among(d, st.members);
        assert(rest.push(m).drop_last() =~= rest);
    }
}

proof fn lemma_active_nonneg(st: RegistryState, list: Seq<Address>)
    requires
        st.wf(),
        forall|j: int| 0 <= j < list.len() ==> st.all_members.contains(#[trigger] list[j]),
    ensures
        sum_by(active_among(list, st.members), stake_of()) >= 0,
        forall|j: int|
            0 <= j < active_among(list, st.members).len() ==> (#[trigger] active_among(
                list,
                st.members,
            )[j]).stake >= 0,
    decreases list.len(),
{
    if list.len() > 0 {
        let d = list.drop_last();
        assert forall|j: int| 0 <= j < d.len() implies st.all_members.contains(#[trigger] d[j]) by {
            assert(d[j] == list[j]);
        }
        lemma_active_nonneg(st, d);
        let m = st.members[list.last()];
        assert(list[list.len() - 1] == list.last());
        assert(st.all_members.contains(list.last()) <==> st.members.contains_key(list.last()));
        let rest = active_among(d, st.members);
        assert(rest.push(m).drop_last() =~= rest);
        let all = active_among(list, st.members);
        assert forall|j: int| 0 <= j < all.len() implies (#[trigger] all[j]).stake >= 0 by {
            if j < rest.len() {
                assert(all[j] == rest[j]);
            }
        }
    }
}

/// A listed member in service is among the active ones.
proof fn lemma_active_member(st: RegistryState, list: Seq<Address>, i: int)
    requires
        0 <= i < list.len(),
        st.members[list[i]].active,
    ensures
        active_among(list, st.members).contains(st.members[list[i]]),
    decreases list.len(),
{
    let d = list.drop_last();
    let m = st.members[list[i]];
    let rest = active_among(d, st.members);
    let all = active_among(list, st.members);
    if i < d.len() {
        assert(d[i] == list[i]);
        lemma_active_member(st, d, i);
        let k = choose|k: int| 0 <= k < rest.len() && rest[k] == m;
        assert(all[k] == m);
    } else {
        assert(all[all.len() - 1] == m);
    }
}

/// Shares rounded down never exceed the pool, and fall short of it by less than one unit per
/// node.
proof fn lemma_distribution_bounds(
    nodes: Seq<CommitteeMember>,
    pool: int,
    total: int,
)
    requires
        pool >= 0,
        total > 0,
        forall|i: int| 0 <= i < nodes.len() ==> (#[trigger] nodes[i]).stake >= 0,
    ensures
        ({
            let sum = sum_by(nodes, share_by_stake(pool, total));
            let stakes = sum_by(nodes, stake_of());
            &&& 0 <= sum
            &&& sum * total <= pool * stakes
            &&& pool * stakes <= sum * total + nodes.len() * (total - 1)
            &&& stakes <= total ==> sum <= pool
        }),
    decreases nodes.len(),
{
    let sum = sum_by(nodes, share_by_stake(pool, total));
    let stakes = sum_by(nodes, stake_of());
    if nodes.len() > 0 {
        let d = nodes.drop_last();
        let m = nodes.last();
        assert(nodes[nodes.len() - 1] == m);
        assert forall|i: int| 0 <= i < d.len() implies (#[trigger] d[i]).stake >= 0 by {
            assert(d[i] == nodes[i]);
        }
        lemma_distribution_bounds(d, pool, total);
        let s0 = sum_by(d, share_by_stake(pool, total));
        let k0 = sum_by(d, stake_of());
        let k = m.stake as int;
        let x = pool * k;
        let q = x / total;
        assert(sum == s0 + q && stakes == k0 + k);
        let n0 = d.len() as int;
        assert(q >= 0 && q * total <= x <= q * total + (total - 1)) by (nonlinear_arith)
            requires
                x >= 0,
                total > 0,
                q == x / total,
        ;
        assert(x >= 0) by (nonlinear_arith)
            requires
                x == pool * k,
                pool >= 0,
                k >= 0,
        ;
        assert((s0 + q) * total == s0 * total + q * total) by (nonlinear_arith);
        assert(pool * (k0 + k) == pool * k0 + pool * k) by (nonlinear_arith);
        assert((n0 + 1) * (total - 1) == n0 * (total - 1) + (total - 1)) by (nonlinear_arith);
        assert(nodes.len() == n0 + 1);
    } else {
        assert(sum * total == 0 && pool * stakes == 0 && nodes.len() * (total - 1) == 0)
            by (nonlinear_arith)
            requires
                sum == 0,
                stakes == 0,
                nodes.len() == 0,
        ;
    }
    if stakes <= total {
        assert(sum <= pool) by (nonlinear_arith)
            requires
                sum * total <= pool * stakes,
                stakes <= total,
                pool >= 0,
                total > 0,
        ;
    }
}

/// One balance is at most the total of them all.
proof fn lemma_entry_within_total(pending: Map<Address, i128>, a: Address)
    requires
        pending.dom().finite(),
        forall|x: Address| #[trigger] pending.contains_key(x) ==> pending[x] >= 0,
    ensures
        0 <= value_or(pending, a, 0) <= map_total(pending),
{
    lemma_total_nonneg(pending);
    if pending.contains_key(a) {
        lemma_total_remove(pending, a);
        let rest = pending.remove(a);
        assert(rest.dom() =~= pending.dom().remove(a));
        assert forall|x: Address| #[trigger] rest.contains_key(x) implies rest[x] >= 0 by {
            assert(pending.contains_key(x));
        }
        lemma_total_nonneg(rest);
    }
}

/// A haircut touches nothing but the amounts of the delegators listed, and keeps the register
/// well formed.
proof fn lemma_haircut(st: RegistryState, node: Address, rps: i128, list: Seq<Address>)
    requires
        st.wf(),
    ensures
        ({
            let (s, a, p) = st.haircut(node, rps, list);
            &&& s == (RegistryState {
                delegations: s.delegations,
                undelegations: s.undelegations,
                ..st
            })
            &&& s.wf()
            &&& a >= 0
            &&& p >= 0
        }),
    decreases list.len(),
{
    if list.len() > 0 {
        lemma_haircut(st, node, rps, list.drop_last());
        let (t, _, _) = st.haircut(node, rps, list.drop_last());
        let (s, _, _) = st.haircut(node, rps, list);
        let key = DelegationKey { delegator: list.last(), node };
        assert forall|k: DelegationKey| #[trigger] s.delegations.contains_key(k) implies s.delegations[k].amount
            >= 0 && s.members.contains_key(k.node) && s.delegators_of(k.node).contains(
            k.delegator,
        ) by {
            assert(t.delegations.contains_key(k));
            assert(s.delegators_of(k.node) == t.delegators_of(k.node));
        }
        assert forall|k: DelegationKey| #[trigger] s.undelegations.contains_key(k) implies s.undelegations[k].amount
            >= 0 && s.delegations.contains_key(k) by {
            assert(t.undelegations.contains_key(k));
            assert(t.delegations.contains_key(k));
        }
        assert forall|n: Address| #[trigger] s.delegators_of(n).no_duplicates() by {
            assert(s.delegators_of(n) == t.delegators_of(n));
        }
    }
}

/// The balance of one address after the nodes of a list are credited.
proof fn lemma_credited(st: RegistryState, list: Seq<Address>, a: Address)
    requires
        st.wf(),
        st.can_distribute(),
        st.distribution_fits(),
        list.no_duplicates(),
        forall|j: int| 0 <= j < list.len() ==> st.all_members.contains(#[trigger] list[j]),
    ensures
        ({
            let pool = or_zero(st.fee_pool) as int;
            let total = st.active_stake();
            value_or(credited(st.pending, active_among(list, st.members), pool, total), a, 0)
                == value_or(st.pending, a, 0) + (if list.contains(a) && st.members[a].active {
                share_by_stake(pool, total)(st.members[a])
            } else {
                0
            })
        }),
    decreases list.len(),
{
    let pool = or_zero(st.fee_pool) as int;
    let total = st.active_stake();
    lemma_entry_within_total(st.pending, a);
    if list.len() > 0 {
        let d = list.drop_last();
        let last = list.last();
        assert(list[list.len() - 1] == last);
        assert forall|j: int| 0 <= j < d.len() implies st.all_members.contains(#[trigger] d[j]) by {
            assert(d[j] == list[j]);
        }
        assert(d.no_duplicates());
        lemma_credited(st, d, a);
        assert(!d.contains(last)) by {
            if d.contains(last) {
                let k = choose|k: int| 0 <= k < d.len() && d[k] == last;
                assert(list[k] == list[list.len() - 1]);
            }
        }
        assert(list.contains(a) <==> d.contains(a) || a == last) by {
            if d.contains(a) {
                let k = choose|k: int| 0 <= k < d.len() && d[k] == a;
                assert(list[k] == a);
            }
            if list.contains(a) && a != last {
                let k = choose|k: int| 0 <= k < list.len() && list[k] == a;
                assert(d[k] == a);
            }
        }
        assert(st.members.contains_key(last));
        let m = st.members[last];
        let rest = active_among(d, st.members);
        if m.active {
            assert(rest.push(m).drop_last() =~= rest);
            let share = share_by_stake(pool, total)(m);
            assert forall|j: int|
                0 <= j < st.all_members.len() implies st.all_members.contains(
                #[trigger] st.all_members[j],
            ) by {}
            lemma_active_prefix(st, st.all_members, 0);
            let i = choose|i: int| 0 <= i < st.all_members.len() && st.all_members[i] == last;
            lemma_stake_within_total(st, st.all_members, i);
            assert(0 <= share <= pool) by (nonlinear_arith)
                requires
                    share == pool * (m.stake as int) / total,
                    0 <= m.stake <= total,
                    total > 0,
                    pool >= 0,
            ;
        }
    }
}

/// A member's stake is at most that of all in service.
proof fn lemma_stake_within_total(st: RegistryState, list: Seq<Address>, i: int)
    requires
        st.wf(),
        0 <= i < list.len(),
        st.members[list[i]].active,
        forall|j: int| 0 <= j < list.len() ==> st.all_members.contains(#[trigger] list[j]),
    ensures
        0 <= st.members[list[i]].stake <= sum_by(active_among(list, st.members), stake_of()),
    decreases list.len(),
{
    let d = list.drop_last();
    assert forall|j: int| 0 <= j < d.len() implies st.all_members.contains(#[trigger] d[j]) by {
        assert(d[j] == list[j]);
    }
    assert(st.all_members.contains(list[i]));
    assert(st.all_members.contains(list[list.len() - 1]));
    let m = st.members[list.last()];
    let rest = active_among(d, st.members);
    assert(rest.push(m).drop_last() =~= rest);
    lemma_active_nonneg(st, d);
    if i < d.len() {
        assert(d[i] == list[i]);
        lemma_stake_within_total(st, d, i);
    }
}

/// A distribution credits every node in service with its share by stake, rounded down, and
/// nobody else with anything.
pub proof fn distribution_is_proportional(st: RegistryState, a: Address)
    requires
        st.wf(),
        st.can_distribute(),
        st.distribution_fits(),
    ensures
        value_or(st.distributed().pending, a, 0) == value_or(st.pending, a, 0) + (
        if st.members.contains_key(a) && st.members[a].active {
            or_zero(st.fee_pool) * st.members[a].stake / st.active_stake()
        } else {
            0
        }),
{
    assert forall|j: int| 0 <= j < st.all_members.len() implies st.all_members.contains(
        #[trigger] st.all_members[j],
    ) by {}
    lemma_credited(st, st.all_members, a);
    assert(st.all_members.contains(a) <==> st.members.contains_key(a));
}

/// A distribution neither makes nor burns fees: what it takes from the pool it credits to nodes.
/// What stays in the pool is less than one unit per node in service, and no stake is touched.
pub proof fn distribution_conserves_fees(st: RegistryState)
    requires
        st.wf(),
        st.can_distribute(),
        st.distribution_fits(),
    ensures
        ({
            let n = st.distributed();
            &&& or_zero(n.fee_pool) + or_zero(n.pending_total) == or_zero(st.fee_pool) + or_zero(
                st.pending_total,
            )
            &&& or_zero(n.total_distributed) - or_zero(st.total_distributed) == or_zero(
                n.pending_total,
            ) - or_zero(st.pending_total)
            &&& 0 <= or_zero(n.fee_pool) < st.active().len()
            &&& n.members == st.members
        }),
{
    let pool = or_zero(st.fee_pool) as int;
    let total = st.active_stake();
    assert forall|j: int| 0 <= j < st.all_members.len() implies st.all_members.contains(
        #[trigger] st.all_members[j],
    ) by {}
    lemma_active_nonneg(st, st.all_members);
    lemma_distribution_bounds(st.active(), pool, total);
    lemma_total_nonneg(st.pending);
    let sum = st.distribution();
    let n = st.active().len() as int;
    assert(pool - sum < n) by (nonlinear_arith)
        requires
            pool * total <= sum * total + n * (total - 1),
            total > 0,
            n >= 0,
            n > 0 || pool > sum,
    ;
    assert(n > 0) by {
        if n == 0 {
            assert(st.active() =~= Seq::empty());
        }
    }
}

/// The shares of the first `k` of `n` players.
pub open spec fn slash_shares_upto(amount: int, n: int, k: int) -> int
    decreases k,
{
    if k <= 0 {
        0
    } else {
        slash_shares_upto(amount, n, k - 1) + slash_share(amount, n, k - 1)
    }
}

proof fn lemma_slash_shares(amount: int, n: int, k: int)
    requires
        n > 0,
        0 <= k <= n,
    ensures
        slash_shares_upto(amount, n, k) == k * (amount / n) + (if k < amount % n {
            k
        } else {
            amount % n
        }),
    decreases k,
{
    let q = amount / n;
    let r = amount % n;
    assert(0 <= r < n) by (nonlinear_arith)
        requires
            r == amount % n,
            n > 0,
    ;
    if k > 0 {
        lemma_slash_shares(amount, n, k - 1);
        assert((k - 1) * q + q == k * q) by (nonlinear_arith);
    } else {
        assert(0 * q == 0);
    }
}

/// What is taken by a slash is handed out to the last unit, in shares that differ by at most one.
pub proof fn slashed_stake_is_fully_shared(amount: int, n: int, i: int, j: int)
    requires
        amount >= 0,
        n > 0,
    ensures
        slash_shares_upto(amount, n, n) == amount,
        i <= j ==> 0 <= slash_share(amount, n, i) - slash_share(amount, n, j) <= 1,
{
    lemma_slash_shares(amount, n, n);
    assert(n * (amount / n) + amount % n == amount && amount % n < n) by (nonlinear_arith)
        requires
            n > 0,
    ;
}

/// A slash leaves each delegator with the larger half of their delegation.
pub proof fn slash_halves_delegations(st: RegistryState, node: Address, rps: i128, list: Seq<Address>, d: Address)
    requires
        st.wf(),
        list.no_duplicates(),
        st.delegations.contains_key(DelegationKey { delegator: d, node }),
    ensures
        ({
            let k = DelegationKey { delegator: d, node };
            let n = st.haircut(node, rps, list).0;
            let x = st.delegations[k].amount;
            &&& n.delegations.contains_key(k)
            &&& n.delegations[k].amount == (if list.contains(d) {
                x - x / 2
            } else {
                x as int
            })
        }),
    decreases list.len(),
{
    let k = DelegationKey { delegator: d, node };
    if list.len() > 0 {
        let l = list.drop_last();
        assert(l.no_duplicates());
        slash_halves_delegations(st, node, rps, l, d);
        assert(list[list.len() - 1] == list.last());
        assert(list.contains(d) <==> l.contains(d) || d == list.last()) by {
            if l.contains(d) {
                let j = choose|j: int| 0 <= j < l.len() && l[j] == d;
                assert(list[j] == d);
            }
            if list.contains(d) && d != list.last() {
                let j = choose|j: int| 0 <= j < list.len() && list[j] == d;
                assert(l[j] == d);
            }
        }
        assert(!l.contains(list.last())) by {
            if l.contains(list.last()) {
                let j = choose|j: int| 0 <= j < l.len() && l[j] == list.last();
                assert(list[j] == list[list.len() - 1]);
            }
        }
        lemma_haircut(st, node, rps, l);
    }
}

/// A member is out of service with its third reported fault, with the larger half of its stake.
pub proof fn third_report_ends_service(m: CommitteeMember)
    requires
        m.stake >= 0,
        2 <= m.slash_count < u32::MAX,
    ensures
        !after_report(m).active,
        after_report(m).stake == m.stake - m.stake / 2,
{
}

/// What a delegation is worth in rewards since it was last brought up to date: its part of what each
/// staked token has earned, with fractions dropped, and nothing once it is up to date.
pub proof fn rewards_follow_the_stake(rec: DelegationRecord, rewards_per_stake: i128)
    ensures
        rec.amount >= 0 && rewards_per_stake >= rec.debt_snapshot ==> {
            let due = rec.amount * (rewards_per_stake - rec.debt_snapshot);
            1_000_000_000_000 * earned(rec, rewards_per_stake) <= due < 1_000_000_000_000 * (earned(
                rec,
                rewards_per_stake,
            ) + 1)
        },
        rewards_per_stake == rec.debt_snapshot ==> earned(rec, rewards_per_stake) == 0,
{
    let due = rec.amount * (rewards_per_stake - rec.debt_snapshot);
    assert(rec.amount >= 0 && rewards_per_stake >= rec.debt_snapshot ==> due >= 0)
        by (nonlinear_arith)
        requires
            due == rec.amount * (rewards_per_stake - rec.debt_snapshot),
    ;
    assert(rewards_per_stake == rec.debt_snapshot ==> due == 0) by (nonlinear_arith)
        requires
            due == rec.amount * (rewards_per_stake - rec.debt_snapshot),
    ;
}

/// Changing what is delegated neither gains nor loses rewards: what is due before is due after, and
/// from then on the new amount counts.
pub proof fn changing_a_delegation_keeps_rewards(
    rec: DelegationRecord,
    rewards_per_stake: i128,
    amount: i128,
)
    requires
        earned_fits(rec, rewards_per_stake),
    ensures
        ({
            let n = brought_up(rec, rewards_per_stake, amount);
            &&& n.pending_rewards + earned(n, rewards_per_stake) == rec.pending_rewards + earned(
                rec,
                rewards_per_stake,
            )
            &&& n.amount == amount
            &&& n.debt_snapshot == rewards_per_stake
        }),
{
    rewards_follow_the_stake(brought_up(rec, rewards_per_stake, amount), rewards_per_stake);
}

/// A node keeps its rate of the fees, with fractions dropped, and all of them where nobody delegates
/// to it.
pub proof fn nodes_keep_their_rate(st: RegistryState, node: Address, amount: i128)
    requires
        amount >= 0,
        st.members[node].fee_rate_bps <= 10_000,
    ensures
        st.members[node].total_delegated_stake <= 0 ==> st.node_cut(node, amount) == amount,
        st.members[node].total_delegated_stake > 0 ==> 10_000 * st.node_cut(node, amount) <= amount
            * st.members[node].fee_rate_bps < 10_000 * (st.node_cut(node, amount) + 1),
        0 <= st.node_cut(node, amount) <= amount,
{
    let rate = st.members[node].fee_rate_bps as int;
    assert(0 <= amount * rate <= amount * 10_000) by (nonlinear_arith)
        requires
            amount >= 0,
            0 <= rate <= 10_000,
    ;
}

/// Delegators share what the node does not keep in proportion to what they delegate: of `shared` fees,
/// someone whose delegation is up to date gets at most the part that it is of the `total`.
pub proof fn delegators_share_in_proportion(rec: DelegationRecord, total: int, shared: int, inc: int)
    requires
        0 <= rec.amount,
        0 < total,
        0 <= shared,
        inc == shared * REWARD_SCALE / total,
        rec.debt_snapshot + inc <= i128::MAX,
    ensures
        earned(rec, (rec.debt_snapshot + inc) as i128) * total <= rec.amount * shared,
{
    let scale = REWARD_SCALE as int;
    assert(inc >= 0 && inc * total <= shared * scale) by (nonlinear_arith)
        requires
            inc == shared * scale / total,
            0 < total,
            0 <= shared,
            scale > 0,
    ;
    rewards_follow_the_stake(rec, (rec.debt_snapshot + inc) as i128);
    let e = earned(rec, (rec.debt_snapshot + inc) as i128);
    let a = rec.amount as int;
    assert(scale * e <= a * inc);
    assert(e * total <= a * shared) by (nonlinear_arith)
        requires
            scale * e <= a * inc,
            inc * total <= shared * scale,
            0 <= a,
            0 < total,
            scale == 1_000_000_000_000,
    ;
}

/// Half of what someone has delegated to a node, rounded down.
pub open spec fn half_delegated(st: RegistryState, node: Address) -> spec_fn(Address) -> int {
    |d: Address|
        if st.delegations.contains_key(DelegationKey { delegator: d, node }) {
            st.delegations[DelegationKey { delegator: d, node }].amount as int / 2
        } else {
            0
        }
}

/// Half of what someone is taking back from a node, rounded down.
pub open spec fn half_undelegated(st: RegistryState, node: Address) -> spec_fn(Address) -> int {
    |d: Address|
        if st.undelegations.contains_key(DelegationKey { delegator: d, node }) {
            st.undelegations[DelegationKey { delegator: d, node }].amount as int / 2
        } else {
            0
        }
}

proof fn lemma_haircut_takes(
    st: RegistryState,
    node: Address,
    rps: i128,
    list: Seq<Address>,
    k: DelegationKey,
)
    requires
        list.no_duplicates(),
        forall|u: DelegationKey| #[trigger]
            st.undelegations.contains_key(u) ==> st.undelegations[u].amount >= 0,
    ensures
        ({
            let (n, a, p) = st.haircut(node, rps, list);
            &&& a == sum_by(list, half_delegated(st, node))
            &&& p == sum_by(list, half_undelegated(st, node))
            &&& n.delegations.contains_key(k) == st.delegations.contains_key(k)
            &&& n.undelegations.contains_key(k) == st.undelegations.contains_key(k)
            &&& k.node != node || !list.contains(k.delegator) ==> n.delegations[k]
                == st.delegations[k] && n.undelegations[k] == st.undelegations[k]
            &&& k.node == node && list.contains(k.delegator) && st.undelegations.contains_key(k)
                ==> n.undelegations[k].amount == st.undelegations[k].amount
                - st.undelegations[k].amount as int / 2 && n.undelegations[k].unlock_ledger
                == st.undelegations[k].unlock_ledger
        }),
    decreases list.len(),
{
    if list.len() > 0 {
        let l = list.drop_last();
        let last = list.last();
        assert(l.no_duplicates());
        lemma_haircut_takes(st, node, rps, l, k);
        assert(list[list.len() - 1] == last);
        assert(list.contains(k.delegator) <==> l.contains(k.delegator) || k.delegator == last) by {
            if l.contains(k.delegator) {
                let j = choose|j: int| 0 <= j < l.len() && l[j] == k.delegator;
                assert(list[j] == k.delegator);
            }
            if list.contains(k.delegator) && k.delegator != last {
                let j = choose|j: int| 0 <= j < list.len() && list[j] == k.delegator;
                assert(l[j] == k.delegator);
            }
        }
        assert(!l.contains(last)) by {
            if l.contains(last) {
                let j = choose|j: int| 0 <= j < l.len() && l[j] == last;
                assert(list[j] == list[list.len() - 1]);
            }
        }
        lemma_haircut_takes(st, node, rps, l, DelegationKey { delegator: last, node });
    }
}

/// A slash takes half of the node's own stake, of every delegation to it and of everything that is
/// being taken back from it, rounded down, ends its service and counts it. Nothing that is delegated
/// to another node is touched.
#[verifier::rlimit(30)]
pub proof fn slash_takes_half(st: RegistryState, node: Address, k: DelegationKey)
    requires
        st.wf(),
        st.members.contains_key(node),
        st.slash_fits(node),
    ensures
        ({
            let (n, taken) = st.slashed(node);
            let (m, q) = (st.members[node], n.members[node]);
            let list = st.delegators_of(node);
            let delegated = sum_by(list, half_delegated(st, node));
            &&& taken == m.stake as int / 2 + delegated + sum_by(list, half_undelegated(st, node))
            &&& q.stake == m.stake - m.stake as int / 2
            &&& !q.active
            &&& q.slash_count == m.slash_count + 1
            &&& q.total_delegated_stake == m.total_delegated_stake - delegated
            &&& q.fee_rate_bps == m.fee_rate_bps && q.rewards_per_stake == m.rewards_per_stake
            &&& k.node != node ==> n.delegations.contains_key(k) == st.delegations.contains_key(k)
                && n.delegations[k] == st.delegations[k] && n.undelegations.contains_key(k)
                == st.undelegations.contains_key(k) && n.undelegations[k] == st.undelegations[k]
            &&& k.node == node && st.delegations.contains_key(k) ==> n.delegations[k].amount
                == st.delegations[k].amount - st.delegations[k].amount as int / 2
            &&& k.node == node && st.undelegations.contains_key(k) ==> n.undelegations[k].amount
                == st.undelegations[k].amount - st.undelegations[k].amount as int / 2
            &&& n.fee_pool == st.fee_pool && n.pending == st.pending
        }),
{
    let m = st.members[node];
    let list = st.delegators_of(node);
    assert(list.no_duplicates());
    lemma_haircut(st, node, m.rewards_per_stake, list);
    lemma_haircut_takes(st, node, m.rewards_per_stake, list, k);
    assert(list.take(list.len() as int) =~= list);
    if k.node == node && st.delegations.contains_key(k) {
        assert(list.contains(k.delegator));
        slash_halves_delegations(st, node, m.rewards_per_stake, list, k.delegator);
    }
    if k.node == node && st.undelegations.contains_key(k) {
        assert(st.delegations.contains_key(k));
    }
}

/// What is slashed goes to the affected players in their order, in parts that differ by one at most
/// and are never less than an even part with fractions dropped.
pub proof fn slashed_stake_goes_to_the_affected(
    token: Address,
    players: Seq<Address>,
    amount: int,
    i: int,
)
    requires
        0 < amount <= i128::MAX,
        0 <= i < players.len(),
    ensures
        ({
            let ts = slash_transfers(token, players, amount);
            let n = players.len() as int;
            &&& ts.len() == n
            &&& ts[i].to == Party::Wallet(players[i]) && ts[i].from == Party::This && ts[i].token
                == token
            &&& amount - n < n * ts[i].amount < amount + n
        }),
{
    let n = players.len() as int;
    let (q, r) = (amount / n, amount % n);
    assert(q * n + r == amount && 0 <= r < n && 0 <= q <= amount && (r > 0 ==> q < amount))
        by (nonlinear_arith)
        requires
            n > 0,
            amount > 0,
            q == amount / n,
            r == amount % n,
    ;
    let s = slash_share(amount, n, i);
    assert(n * q == q * n && n * (q + 1) == q * n + n) by (nonlinear_arith);
}

/// A report counts against a member, and takes neither stake nor service before the third.
pub proof fn first_reports_only_count(m: CommitteeMember)
    requires
        m.slash_count < u32::MAX,
    ensures
        after_report(m).slash_count == m.slash_count + 1,
        m.slash_count < 2 ==> after_report(m).active == m.active && after_report(m).stake
            == m.stake,
        after_report(m).address == m.address && after_report(m).total_delegated_stake
            == m.total_delegated_stake && after_report(m).fee_rate_bps == m.fee_rate_bps,
{
}

/// A node is timed out for a game that is tracked and not resolved, once the time for the phase that
/// the game is in has passed since its last progress, and no sooner.
pub proof fn timeouts_wait_for_their_phase(
    st: RegistryState,
    game_id: u32,
    node: Address,
    now: u32,
)
    ensures
        st.timeout_refusal(game_id, node, now) is None <==> {
            let g = st.games[game_id];
            let c = st.timeouts->0;
            &&& st.paused != Some(true)
            &&& st.games.contains_key(game_id) && !g.resolved
            &&& st.timeouts is Some
            &&& g.phase is Deal ==> now >= g.last_progress_ledger + c.deal_ledgers
            &&& g.phase is Reveal ==> now >= g.last_progress_ledger + c.reveal_ledgers
            &&& g.phase is Showdown ==> now >= g.last_progress_ledger + c.showdown_ledgers
            &&& st.members.contains_key(node)
        },
{
}

/// An epoch is made up of members that are registered and active, all of them, and at least as many
/// as its threshold; the administrator alone makes one.
pub proof fn epochs_have_active_members(
    st: RegistryState,
    admin: Address,
    members: Seq<Address>,
    threshold: u32,
)
    ensures
        st.epoch_refusal(admin, members, threshold) is None <==> {
            &&& st.admin is Some && address_digest(admin) == address_digest(st.admin->0)
            &&& st.paused != Some(true)
            &&& members.len() >= threshold
            &&& forall|i: int|
                0 <= i < members.len() ==> st.members.contains_key(#[trigger] members[i])
                    && st.members[members[i]].active
        },
{
    lemma_membership(st, members);
}

proof fn lemma_membership(st: RegistryState, members: Seq<Address>)
    ensures
        st.membership_refusal(members) is None <==> forall|i: int|
            0 <= i < members.len() ==> st.members.contains_key(#[trigger] members[i])
                && st.members[members[i]].active,
    decreases members.len(),
{
    if members.len() > 0 {
        let d = members.drop_last();
        lemma_membership(st, d);
        if st.membership_refusal(members) is None {
            assert forall|i: int| 0 <= i < members.len() implies st.members.contains_key(
                #[trigger] members[i],
            ) && st.members[members[i]].active by {
                if i < d.len() {
                    assert(d[i] == members[i]);
                }
            }
        } else if forall|i: int|
            0 <= i < members.len() ==> st.members.contains_key(#[trigger] members[i])
                && st.members[members[i]].active {
            assert forall|i: int| 0 <= i < d.len() implies st.members.contains_key(
                #[trigger] d[i],
            ) && st.members[d[i]].active by {
                assert(d[i] == members[i]);
            }
            assert(members[members.len() - 1] == members.last());
        }
    }
}

/// A new epoch has the next number and starts where the one before it ends; older epochs stay as
/// they are.
pub proof fn epochs_follow_one_another(
    st: RegistryState,
    members: Seq<Address>,
    threshold: u32,
    now: u32,
    older: u32,
)
    requires
        st.wf(),
        st.epoch_number() < u32::MAX,
        older < st.epoch_number(),
    ensures
        ({
            let n = st.with_epoch(members, threshold, now);
            let (prev, next) = (st.epoch_number(), n.epoch_number());
            &&& next == prev + 1
            &&& n.epochs[next].members == members && n.epochs[next].threshold == threshold
                && n.epochs[next].start_ledger == now && n.epochs[next].end_ledger == 0
                && n.epochs[next].epoch_id == next
            &&& n.epochs[prev].end_ledger == now && n.epochs[prev].members
                == st.epochs[prev].members && n.epochs[prev].start_ledger
                == st.epochs[prev].start_ledger
            &&& n.epochs[older] == st.epochs[older]
            &&& n.members == st.members && n.delegations == st.delegations
        }),
{
}

/// Delegating is open towards active members for a positive amount, and taking back what was
/// delegated is open once at a time, up to what is delegated.
pub proof fn delegations_need_an_active_member(
    st: RegistryState,
    delegator: Address,
    node: Address,
    amount: i128,
)
    ensures
        st.delegate_refusal(node, amount) is None <==> st.paused != Some(true) && amount > 0
            && st.members.contains_key(node) && st.members[node].active,
        st.undelegate_refusal(delegator, node, amount) is None <==> {
            let k = DelegationKey { delegator, node };
            &&& st.paused != Some(true)
            &&& amount > 0
            &&& !st.undelegations.contains_key(k)
            &&& st.delegations.contains_key(k) && st.delegations[k].amount >= amount
        },
{
}

/// The administrator alone changes the settings, and not while paused; pausing itself is always
/// open to the administrator.
pub proof fn settings_are_for_the_administrator(
    st: RegistryState,
    caller: Address,
    next: RegistryState,
    after: RegistryState,
    r: Result<(), RegistryError>,
)
    ensures
        ({
            let is_admin = st.admin is Some && address_digest(caller) == address_digest(
                st.admin->0,
            );
            &&& st.admin_refusal(caller) is None <==> is_admin
            &&& st.settings_refusal(caller) is None <==> is_admin && st.paused != Some(true)
            &&& st.admin_step(caller, next, after, r) ==> (r is Ok <==> is_admin) && (
            r is Ok ==> after == next) && (r is Err ==> after == st)
        }),
{
}

/// A member is in office while the current epoch lists them, by the digest of their address.
pub proof fn members_of_the_epoch_are_in_office(st: RegistryState, member: Address)
    requires
        st.wf(),
    ensures
        st.in_office(member) <==> {
            let n = st.epoch_number();
            &&& n > 0
            &&& exists|i: int|
                0 <= i < st.epochs[n].members.len() && address_digest(
                    #[trigger] st.epochs[n].members[i],
                ) == address_digest(member)
        },
{
}

/// A timeout that cannot be reported is refused for a reason.
pub proof fn timeouts_are_refused_for_a_reason(
    st: RegistryState,
    game_id: u32,
    node: Address,
    now: u32,
)
    ensures
        ({
            let r = st.timeout_refusal(game_id, node, now);
            &&& r == Some(RegistryError::ContractPaused) ==> st.paused == Some(true)
            &&& r == Some(RegistryError::GameNotTracked) ==> !st.games.contains_key(game_id)
            &&& r == Some(RegistryError::TimeoutAlreadyResolved) ==> st.games[game_id].resolved
            &&& r == Some(RegistryError::NotInitialized) ==> st.timeouts is None
            &&& r == Some(RegistryError::TimeoutNotReached)
                ==> now < st.games[game_id].last_progress_ledger + st.phase_timeout(
                st.games[game_id].phase,
            )
            &&& r == Some(RegistryError::NotAMember) ==> !st.members.contains_key(node)
        }),
{
}

/// What a delegator can claim is what was brought up to date before and what has been earned since, and
/// nothing without a delegation. Fees are taken for every member, in a positive amount.
pub proof fn claims_are_for_delegations(
    st: RegistryState,
    delegator: Address,
    node: Address,
    amount: i128,
)
    ensures
        ({
            let k = DelegationKey { delegator, node };
            let rec = st.delegations[k];
            let grown = st.members[node].rewards_per_stake - rec.debt_snapshot;
            &&& !st.delegations.contains_key(k) ==> st.rewards_due(delegator, node) == 0
            &&& st.delegations.contains_key(k) && grown == 0 ==> st.rewards_due(delegator, node)
                == rec.pending_rewards
            &&& st.delegations.contains_key(k) && rec.amount >= 0 && grown >= 0 ==> {
                let new = st.rewards_due(delegator, node) - rec.pending_rewards;
                1_000_000_000_000 * new <= rec.amount * grown < 1_000_000_000_000 * (new + 1)
            }
        }),
        st.node_fee_refusal(node, amount) is None <==> st.paused != Some(true) && amount > 0
            && st.members.contains_key(node),
        st.cooldown is None ==> st.cooldown_ledgers() == 0,
        st.cooldown matches Some(c) ==> st.cooldown_ledgers() == c,
{
    let k = DelegationKey { delegator, node };
    rewards_follow_the_stake(st.delegations[k], st.members[node].rewards_per_stake);
}

} // verus!
