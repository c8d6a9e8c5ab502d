//! Authorization between contracts: roles with permission masks, direct grants, approvals by
//! several administrators behind a timelock, and contract-to-contract authorizations.

use crate::assoc::{value_or, AssocMap, Key};
use crate::host::{
    address_digest, address_eq, address_listed, be_u32, be_u64, bytes32_at, digest_listed,
    read_bytes32, read_u32_be, read_u64_be, Address, Bytes32, Symbol,
};
use crate::seqs::{
    contains_item, copy_without, lemma_with_member, lemma_without, with_member, without, Dup,
};
use soroban_sdk::Env;
use vstd::prelude::*;

verus! {

/// What an address can be permitted to do. Each permission is one bit of a mask.
#[derive(Clone, Copy, Debug, PartialEq, Eq, Structural)]
pub enum Permission {
    CreateTable,
    PauseTable,
    ConfigureTable,
    CloseTable,
    WithdrawRake,
    SweepDeadChips,
    ManageTreasury,
    ManageCommittee,
    VerifyProof,
    ManageVerifierKeys,
    ConfigureJackpot,
    ClaimJackpot,
    ManageJackpotKeys,
    BanPlayer,
    ManageRoles,
    ManageMembers,
    UpgradeContract,
    TransferAdmin,
    EmergencyWithdraw,
    ManageTimeBank,
    ForceFold,
    CancelHand,
}

impl Permission {
    /// The position of the permission's bit.
    pub open spec fn index(self) -> u64 {
        match self {
            Permission::CreateTable => 0,
            Permission::PauseTable => 1,
            Permission::ConfigureTable => 2,
            Permission::CloseTable => 3,
            Permission::WithdrawRake => 4,
            Permission::SweepDeadChips => 5,
            Permission::ManageTreasury => 6,
            Permission::ManageCommittee => 7,
            Permission::VerifyProof => 8,
            Permission::ManageVerifierKeys => 9,
            Permission::ConfigureJackpot => 10,
            Permission::ClaimJackpot => 11,
            Permission::ManageJackpotKeys => 12,
            Permission::BanPlayer => 13,
            Permission::ManageRoles => 14,
            Permission::ManageMembers => 15,
            Permission::UpgradeContract => 16,
            Permission::TransferAdmin => 17,
            Permission::EmergencyWithdraw => 18,
            Permission::ManageTimeBank => 19,
            Permission::ForceFold => 20,
            Permission::CancelHand => 21,
        }
    }

    /// The permission's bit.
    pub open spec fn mask(self) -> u64 {
        1u64 << self.index()
    }

    /// The permission's bit.
    pub fn bit(&self) -> (r: u64)
        ensures
            r == self.mask(),
    {
        match self {
            Permission::CreateTable => 1u64 << 0u64,
            Permission::PauseTable => 1u64 << 1u64,
            Permission::ConfigureTable => 1u64 << 2u64,
            Permission::CloseTable => 1u64 << 3u64,
            Permission::WithdrawRake => 1u64 << 4u64,
            Permission::SweepDeadChips => 1u64 << 5u64,
            Permission::ManageTreasury => 1u64 << 6u64,
            Permission::ManageCommittee => 1u64 << 7u64,
            Permission::VerifyProof => 1u64 << 8u64,
            Permission::ManageVerifierKeys => 1u64 << 9u64,
            Permission::ConfigureJackpot => 1u64 << 10u64,
            Permission::ClaimJackpot => 1u64 << 11u64,
            Permission::ManageJackpotKeys => 1u64 << 12u64,
            Permission::BanPlayer => 1u64 << 13u64,
            Permission::ManageRoles => 1u64 << 14u64,
            Permission::ManageMembers => 1u64 << 15u64,
            Permission::UpgradeContract => 1u64 << 16u64,
            Permission::TransferAdmin => 1u64 << 17u64,
            Permission::EmergencyWithdraw => 1u64 << 18u64,
            Permission::ManageTimeBank => 1u64 << 19u64,
            Permission::ForceFold => 1u64 << 20u64,
            Permission::CancelHand => 1u64 << 21u64,
        }
    }
}

/// A named set of permissions.
#[derive(Clone, Copy, Debug, PartialEq, Eq, Structural)]
pub struct Role {
    pub name: Symbol,
    pub permissions: u64,
    pub active: bool,
}

impl View for Role {
    type V = Role;

    open spec fn view(&self) -> Role {
        *self
    }
}

/// How many of which administrators must approve a proposal.
#[derive(Debug)]
pub struct MultiSigConfig {
    pub threshold: u32,
    pub admins: Vec<Address>,
}

/// An administrative proposal.
#[derive(Debug)]
pub struct Proposal {
    pub id: u32,
    pub proposer: Address,
    pub action: Symbol,
    pub target: Option<Address>,
    pub payload: Vec<u8>,
    pub approvals: Vec<Address>,
    pub executed: bool,
    pub created_at: u64,
    pub execute_after: u64,
}

/// The contents of a proposal.
#[verifier::ext_equal]
pub struct ProposalView {
    pub id: u32,
    pub proposer: Address,
    pub action: Symbol,
    pub target: Option<Address>,
    pub payload: Seq<u8>,
    pub approvals: Seq<Address>,
    pub executed: bool,
    pub created_at: u64,
    pub execute_after: u64,
}

impl View for Proposal {
    type V = ProposalView;

    open spec fn view(&self) -> ProposalView {
        ProposalView {
            id: self.id,
            proposer: self.proposer,
            action: self.action,
            target: self.target,
            payload: self.payload@,
            approvals: self.approvals@,
            executed: self.executed,
            created_at: self.created_at,
            execute_after: self.execute_after,
        }
    }
}

/// Why a request is refused.
#[derive(Clone, Copy, Debug, PartialEq, Eq, Structural)]
pub enum AuthError {
    AlreadyInitialized,
    NotInitialized,
    NotAuthorized,
    NotAdmin,
    RoleAlreadyExists,
    RoleNotFound,
    AlreadyHasRole,
    DoesNotHaveRole,
    InsufficientPermissions,
    ThresholdTooHigh,
    ThresholdTooLow,
    ProposalNotFound,
    AlreadyApproved,
    ProposalAlreadyExecuted,
    ThresholdNotReached,
    TimelockNotElapsed,
    ContractPaused,
    InvalidPermission,
    NotMultiSigAdmin,
}

/// A contract that calls another.
#[derive(Clone, Copy, Debug, PartialEq, Eq, Structural)]
pub struct CallKey {
    pub caller: Address,
    pub target: Address,
}

impl Key for CallKey {
    fn same(&self, other: &Self) -> (r: bool) {
        *self == *other
    }
}

/// The delay of a proposal that names none: one day.
pub const DEFAULT_TIMELOCK_SECONDS: u64 = 86_400;

/// "admin"
pub open spec fn admin_name() -> Symbol {
    Symbol { text: Bytes32 { w0: 0x6164_6d69_6e00_0000, w1: 0, w2: 0, w3: 0 } }
}

/// "operator"
pub open spec fn operator_name() -> Symbol {
    Symbol { text: Bytes32 { w0: 0x6f70_6572_6174_6f72, w1: 0, w2: 0, w3: 0 } }
}

/// "committee"
pub open spec fn committee_name() -> Symbol {
    Symbol { text: Bytes32 { w0: 0x636f_6d6d_6974_7465, w1: 0x6500_0000_0000_0000, w2: 0, w3: 0 } }
}

/// "player"
pub open spec fn player_name() -> Symbol {
    Symbol { text: Bytes32 { w0: 0x706c_6179_6572_0000, w1: 0, w2: 0, w3: 0 } }
}

/// The name of the administrators' role.
pub fn admin_role() -> (r: Symbol)
    ensures
        r == admin_name(),
{
    Symbol { text: Bytes32 { w0: 0x6164_6d69_6e00_0000, w1: 0, w2: 0, w3: 0 } }
}

/// The name of the operators' role.
pub fn operator_role() -> (r: Symbol)
    ensures
        r == operator_name(),
{
    Symbol { text: Bytes32 { w0: 0x6f70_6572_6174_6f72, w1: 0, w2: 0, w3: 0 } }
}

/// The name of the committee's role.
pub fn committee_role() -> (r: Symbol)
    ensures
        r == committee_name(),
{
    Symbol { text: Bytes32 { w0: 0x636f_6d6d_6974_7465, w1: 0x6500_0000_0000_0000, w2: 0, w3: 0 } }
}

/// The name of the players' role.
pub fn player_role() -> (r: Symbol)
    ensures
        r == player_name(),
{
    Symbol { text: Bytes32 { w0: 0x706c_6179_6572_0000, w1: 0, w2: 0, w3: 0 } }
}

/// The permissions of the operators' role.
pub open spec fn operator_mask() -> u64 {
    Permission::CreateTable.mask() | Permission::PauseTable.mask()
        | Permission::ConfigureTable.mask() | Permission::BanPlayer.mask()
        | Permission::ForceFold.mask() | Permission::CancelHand.mask()
}

/// The permissions of the committee's role.
pub open spec fn committee_mask() -> u64 {
    Permission::VerifyProof.mask() | Permission::ManageCommittee.mask()
        | Permission::ManageVerifierKeys.mask()
}

/// The contents of the authorization manager.
#[verifier::ext_equal]
pub struct AuthState {
    pub admin: Option<Address>,
    /// The threshold and the administrators.
    pub multisig: Option<(u32, Seq<Address>)>,
    pub roles: Map<Symbol, Role>,
    /// The names of the defined roles, in the order in which they were first defined.
    pub role_names: Seq<Symbol>,
    pub user_roles: Map<Address, Seq<Symbol>>,
    pub direct: Map<Address, u64>,
    pub proposals: Map<u32, ProposalView>,
    pub next_id: Option<u32>,
    pub paused: Option<bool>,
    pub authorized: Map<CallKey, bool>,
    /// The executed proposals that have been carried out.
    pub applied: Map<u32, bool>,
}

/// A step that needs an executed proposal where more than one approval is asked for.
#[derive(Clone, Copy, Debug, PartialEq, Eq, Structural)]
pub enum Step {
    DefineRole(Symbol, u64),
    AddAdmin(Address),
    Pause,
    LowerThreshold(u32),
}

/// "define_role"
pub open spec fn define_role_action() -> Symbol {
    Symbol { text: Bytes32 { w0: 0x6465_6669_6e65_5f72, w1: 0x6f6c_6500_0000_0000, w2: 0, w3: 0 } }
}

/// "add_admin"
pub open spec fn add_admin_action() -> Symbol {
    Symbol { text: Bytes32 { w0: 0x6164_645f_6164_6d69, w1: 0x6e00_0000_0000_0000, w2: 0, w3: 0 } }
}

/// "pause"
pub open spec fn pause_action() -> Symbol {
    Symbol { text: Bytes32 { w0: 0x7061_7573_6500_0000, w1: 0, w2: 0, w3: 0 } }
}

/// "set_threshold"
pub open spec fn set_threshold_action() -> Symbol {
    Symbol { text: Bytes32 { w0: 0x7365_745f_7468_7265, w1: 0x7368_6f6c_6400_0000, w2: 0, w3: 0 } }
}

/// Whether a proposal is for a step. The payload of a role's definition is its name in 32 bytes
/// and its permissions in eight, that of a threshold is the threshold in four; the target of a new
/// administrator is their address.
pub open spec fn is_for(p: ProposalView, step: Step) -> bool {
    match step {
        Step::DefineRole(name, permissions) => {
            &&& p.action == define_role_action()
            &&& p.payload.len() == 40
            &&& bytes32_at(p.payload, 0) == name.text
            &&& be_u64(p.payload, 32) == permissions
        },
        Step::AddAdmin(a) => p.action == add_admin_action() && p.target == Some(a),
        Step::Pause => p.action == pause_action(),
        Step::LowerThreshold(t) => {
            &&& p.action == set_threshold_action()
            &&& p.payload.len() == 4
            &&& be_u32(p.payload, 0) == t
        },
    }
}

/// Whether a proposal is for a step.
fn proposal_is_for(p: &Proposal, step: &Step) -> (r: bool)
    ensures
        r == is_for(p@, *step),
{
    match step {
        Step::DefineRole(name, permissions) => {
            let action = Symbol {
                text: Bytes32 {
                    w0: 0x6465_6669_6e65_5f72,
                    w1: 0x6f6c_6500_0000_0000,
                    w2: 0,
                    w3: 0,
                },
            };
            p.action == action && p.payload.len() == 40 && read_bytes32(&p.payload, 0) == name.text
                && read_u64_be(&p.payload, 32) == *permissions
        },
        Step::AddAdmin(a) => {
            let action = Symbol {
                text: Bytes32 {
                    w0: 0x6164_645f_6164_6d69,
                    w1: 0x6e00_0000_0000_0000,
                    w2: 0,
                    w3: 0,
                },
            };
            p.action == action && match &p.target {
                Some(t) => *t == *a,
                None => false,
            }
        },
        Step::Pause => {
            let action = Symbol {
                text: Bytes32 { w0: 0x7061_7573_6500_0000, w1: 0, w2: 0, w3: 0 },
            };
            p.action == action
        },
        Step::LowerThreshold(t) => {
            let action = Symbol {
                text: Bytes32 {
                    w0: 0x7365_745f_7468_7265,
                    w1: 0x7368_6f6c_6400_0000,
                    w2: 0,
                    w3: 0,
                },
            };
            p.action == action && p.payload.len() == 4 && read_u32_be(&p.payload, 0) == *t
        },
    }
}

/// The union of the permissions of the active roles among `names`.
pub open spec fn role_bits(roles: Map<Symbol, Role>, names: Seq<Symbol>) -> u64
    decreases names.len(),
{
    if names.len() == 0 {
        0
    } else {
        let rest = role_bits(roles, names.drop_last());
        let n = names.last();
        if roles.contains_key(n) && roles[n].active {
            rest | roles[n].permissions
        } else {
            rest
        }
    }
}

/// The roles among `names` that are defined, in order.
pub open spec fn defined_roles(roles: Map<Symbol, Role>, names: Seq<Symbol>) -> Seq<Role>
    decreases names.len(),
{
    if names.len() == 0 {
        Seq::empty()
    } else {
        let rest = defined_roles(roles, names.drop_last());
        if roles.contains_key(names.last()) {
            rest.push(roles[names.last()])
        } else {
            rest
        }
    }
}

/// No two approvals of a proposal have the same digest.
pub open spec fn approvals_distinct(approvals: Seq<Address>) -> bool {
    forall|i: int, j: int|
        0 <= i < approvals.len() && 0 <= j < approvals.len() && i != j ==> address_digest(
            #[trigger] approvals[i],
        ) != address_digest(#[trigger] approvals[j])
}

impl AuthState {
    /// Whether `caller` passes for an administrator: its digest is that of the first
    /// administrator or of one of the others.
    pub open spec fn is_admin(self, caller: Address) -> bool {
        ||| self.admin matches Some(a) && address_digest(caller) == address_digest(a)
        ||| self.multisig matches Some((_, admins)) && digest_listed(caller, admins)
    }

    /// Why an administrative call is refused, if it is.
    pub open spec fn gate(self, caller: Address) -> Option<AuthError> {
        if self.paused == Some(true) {
            Some(AuthError::ContractPaused)
        } else if !self.is_admin(caller) {
            Some(AuthError::NotAdmin)
        } else {
            None
        }
    }

    /// An administrative step: `next` where the caller passes.
    pub open spec fn gated(
        self,
        caller: Address,
        next: AuthState,
        after: AuthState,
        r: Result<(), AuthError>,
    ) -> bool {
        match self.gate(caller) {
            Some(e) => r == Err::<(), _>(e) && after == self,
            None => r is Ok && after == next,
        }
    }

    /// How many approvals a proposal needs.
    pub open spec fn threshold(self) -> u32 {
        match self.multisig {
            Some((t, _)) => t,
            None => 0,
        }
    }

    /// Whether a proposal has been executed for a step that has not been taken yet.
    pub open spec fn warrants(self, id: u32, step: Step) -> bool {
        &&& self.proposals.contains_key(id)
        &&& self.proposals[id].executed
        &&& !self.applied.contains_key(id)
        &&& is_for(self.proposals[id], step)
    }

    /// The first of the proposals below `k` that warrants a step.
    pub open spec fn warrant_before(self, step: Step, k: int) -> Option<u32>
        decreases k,
    {
        if k <= 0 {
            None
        } else if self.warrant_before(step, k - 1) is Some {
            self.warrant_before(step, k - 1)
        } else if self.warrants((k - 1) as u32, step) {
            Some((k - 1) as u32)
        } else {
            None
        }
    }

    /// The proposal that warrants a step.
    pub open spec fn warrant(self, step: Step) -> Option<u32> {
        self.warrant_before(step, self.next() as int)
    }

    /// Why a step is refused, if it is: more than one approval is asked for, and no executed
    /// proposal warrants it.
    pub open spec fn step_refusal(self, step: Step) -> Option<AuthError> {
        if self.threshold() >= 2 && self.warrant(step) is None {
            Some(AuthError::ThresholdNotReached)
        } else {
            None
        }
    }

    /// The state with the proposal that warrants a step used up, where one is needed.
    pub open spec fn warranted(self, step: Step) -> Self {
        if self.threshold() >= 2 {
            AuthState { applied: self.applied.insert(self.warrant(step)->0, true), ..self }
        } else {
            self
        }
    }

    /// Why the threshold cannot be set, if it cannot.
    pub open spec fn threshold_refusal(self, caller: Address, threshold: u32) -> Option<AuthError> {
        if self.gate(caller) is Some {
            self.gate(caller)
        } else if self.multisig is None {
            Some(AuthError::NotInitialized)
        } else if threshold == 0 {
            Some(AuthError::ThresholdTooLow)
        } else if threshold > (self.multisig->0).1.len() {
            Some(AuthError::ThresholdTooHigh)
        } else if threshold < self.threshold() {
            self.step_refusal(Step::LowerThreshold(threshold))
        } else {
            None
        }
    }

    /// The state with the threshold set. Lowering it uses the proposal up that warrants it.
    pub open spec fn with_threshold(self, threshold: u32) -> Self {
        AuthState {
            multisig: Some((threshold, (self.multisig->0).1)),
            ..if threshold < self.threshold() {
                self.warranted(Step::LowerThreshold(threshold))
            } else {
                self
            }
        }
    }

    /// The roles of a user.
    pub open spec fn roles_of(self, user: Address) -> Seq<Symbol> {
        value_or(self.user_roles, user, Seq::empty())
    }

    /// The direct permissions of a user.
    pub open spec fn direct_of(self, user: Address) -> u64 {
        value_or(self.direct, user, 0)
    }

    /// Whether a user has a permission, by a direct grant or by an active role.
    pub open spec fn permits(self, user: Address, p: Permission) -> bool {
        ||| self.direct_of(user) & p.mask() != 0
        ||| exists|i: int|
            0 <= i < self.roles_of(user).len() && {
                let n = #[trigger] self.roles_of(user)[i];
                self.roles.contains_key(n) && self.roles[n].active && self.roles[n].permissions
                    & p.mask() != 0
            }
    }

    /// All permissions of a user.
    pub open spec fn permission_bits(self, user: Address) -> u64 {
        self.direct_of(user) | role_bits(self.roles, self.roles_of(user))
    }

    /// The state with a permission given to a user.
    pub open spec fn with_permission(self, user: Address, p: Permission) -> Self {
        AuthState { direct: self.direct.insert(user, self.direct_of(user) | p.mask()), ..self }
    }

    /// The state with a permission that was given to a user taken back.
    pub open spec fn without_permission(self, user: Address, p: Permission) -> Self {
        AuthState { direct: self.direct.insert(user, self.direct_of(user) & !p.mask()), ..self }
    }

    /// The state with a role given to a user.
    pub open spec fn with_user_role(self, user: Address, name: Symbol) -> Self {
        AuthState {
            user_roles: self.user_roles.insert(user, self.roles_of(user).push(name)),
            ..self
        }
    }

    /// The state with a role taken from a user.
    pub open spec fn without_user_role(self, user: Address, name: Symbol) -> Self {
        let rest = without(self.roles_of(user), name);
        AuthState {
            user_roles: if rest.len() == 0 {
                self.user_roles.remove(user)
            } else {
                self.user_roles.insert(user, rest)
            },
            ..self
        }
    }

    /// The state with one more administrator, who has the administrator's role.
    pub open spec fn with_admin(self, admin: Address) -> Self {
        AuthState {
            multisig: Some(((self.multisig->0).0, (self.multisig->0).1.push(admin))),
            user_roles: self.user_roles.insert(admin, seq![admin_name()]),
            ..self
        }
    }

    /// A role defined.
    pub open spec fn with_role(self, name: Symbol, permissions: u64) -> Self {
        AuthState {
            roles: self.roles.insert(name, Role { name, permissions, active: true }),
            role_names: with_member(self.role_names, name),
            ..self
        }
    }

    /// The state with the first administrator, the threshold and the predefined roles.
    pub open spec fn initialized(self, admin: Address, threshold: u32) -> Self {
        (AuthState {
            admin: Some(admin),
            multisig: Some((threshold, seq![admin])),
            next_id: Some(0u32),
            user_roles: self.user_roles.insert(admin, seq![admin_name()]),
            ..self
        }).with_role(admin_name(), 0xFFFF_FFFF_FFFF_FFFFu64).with_role(
            operator_name(),
            operator_mask(),
        ).with_role(committee_name(), committee_mask()).with_role(
            player_name(),
            Permission::ClaimJackpot.mask(),
        )
    }

    /// The number of the next proposal.
    pub open spec fn next(self) -> u32 {
        match self.next_id {
            Some(n) => n,
            None => 0,
        }
    }

    /// Approvals of every proposal are by different addresses, and the names of the roles are
    /// those of all that are defined, each once.
    pub open spec fn wf(self) -> bool {
        &&& forall|id: u32| #[trigger]
            self.proposals.contains_key(id) ==> approvals_distinct(self.proposals[id].approvals)
        &&& self.role_names.no_duplicates()
        &&& forall|name: Symbol| #[trigger]
            self.roles.contains_key(name) <==> self.role_names.contains(name)
    }

    /// Why a proposal cannot be approved, if it cannot.
    pub open spec fn approval_refusal(self, approver: Address, id: u32) -> Option<AuthError> {
        if self.gate(approver) is Some {
            self.gate(approver)
        } else if !self.proposals.contains_key(id) {
            Some(AuthError::ProposalNotFound)
        } else if self.proposals[id].executed {
            Some(AuthError::ProposalAlreadyExecuted)
        } else if digest_listed(approver, self.proposals[id].approvals) {
            Some(AuthError::AlreadyApproved)
        } else {
            None
        }
    }

    /// Why a proposal cannot be executed at time `now`, if it cannot.
    pub open spec fn execution_refusal(self, executor: Address, id: u32, now: u64) -> Option<
        AuthError,
    > {
        if self.gate(executor) is Some {
            self.gate(executor)
        } else if !self.proposals.contains_key(id) {
            Some(AuthError::ProposalNotFound)
        } else if self.proposals[id].executed {
            Some(AuthError::ProposalAlreadyExecuted)
        } else if now < self.proposals[id].execute_after {
            Some(AuthError::TimelockNotElapsed)
        } else if self.multisig is None {
            Some(AuthError::NotInitialized)
        } else if self.proposals[id].approvals.len() < (self.multisig->0).0 {
            Some(AuthError::ThresholdNotReached)
        } else {
            None
        }
    }

    /// A proposal marked as executed.
    pub open spec fn executed(self, id: u32) -> Self {
        AuthState {
            proposals: self.proposals.insert(
                id,
                ProposalView { executed: true, ..self.proposals[id] },
            ),
            ..self
        }
    }

    /// A proposal with one more approval.
    pub open spec fn approved(self, approver: Address, id: u32) -> Self {
        let p = self.proposals[id];
        AuthState {
            proposals: self.proposals.insert(
                id,
                ProposalView { approvals: p.approvals.push(approver), ..p },
            ),
            ..self
        }
    }
}

/// Decides whether a caller passes for an administrator, by digests alone.
pub fn admin_by_digests(caller: &Bytes32, admin: &Option<Bytes32>, multisig: &Vec<Bytes32>) -> (r:
    bool)
    ensures
        r == (*admin == Some(*caller) || multisig@.contains(*caller)),
{
    if let Some(a) = admin {
        if crate::host::ct_bytes32_eq(caller, a) {
            return true;
        }
    }
    crate::host::digest_among(caller, multisig)
}

/// The authorization manager.
pub struct AuthManagerContract {
    admin: Option<Address>,
    multisig: Option<MultiSigConfig>,
    roles: AssocMap<Symbol, Role>,
    role_names: Vec<Symbol>,
    user_roles: AssocMap<Address, Vec<Symbol>>,
    direct: AssocMap<Address, u64>,
    proposals: AssocMap<u32, Proposal>,
    next_id: Option<u32>,
    paused: Option<bool>,
    authorized: AssocMap<CallKey, bool>,
    applied: AssocMap<u32, bool>,
}

impl View for AuthManagerContract {
    type V = AuthState;

    closed spec fn view(&self) -> AuthState {
        AuthState {
            admin: self.admin,
            multisig: match self.multisig {
                Some(c) => Some((c.threshold, c.admins@)),
                None => None,
            },
            roles: self.roles@,
            role_names: self.role_names@,
            user_roles: self.user_roles@,
            direct: self.direct@,
            proposals: self.proposals@,
            next_id: self.next_id,
            paused: self.paused,
            authorized: self.authorized@,
            applied: self.applied@,
        }
    }
}

impl AuthManagerContract {
    /// A manager that nobody has set up yet.
    pub fn new() -> (r: Self)
        ensures
            r@ == (AuthState {
                admin: None,
                multisig: None,
                roles: Map::empty(),
                role_names: Seq::empty(),
                user_roles: Map::empty(),
                direct: Map::empty(),
                proposals: Map::empty(),
                next_id: None,
                paused: None,
                authorized: Map::empty(),
                applied: Map::empty(),
            }),
            r@.wf(),
    {
        AuthManagerContract {
            admin: None,
            multisig: None,
            roles: AssocMap::new(),
            role_names: Vec::new(),
            user_roles: AssocMap::new(),
            direct: AssocMap::new(),
            proposals: AssocMap::new(),
            next_id: None,
            paused: None,
            authorized: AssocMap::new(),
            applied: AssocMap::new(),
        }
    }

    /// Sets the first administrator and the approval threshold, once, and defines the
    /// predefined roles.
    pub fn initialize(&mut self, admin: Address, threshold: u32) -> (r: Result<(), AuthError>)
        ensures
            r == (if old(self)@.admin is Some {
                Err::<(), _>(AuthError::AlreadyInitialized)
            } else if threshold == 0 {
                Err(AuthError::ThresholdTooLow)
            } else {
                Ok(())
            }),
            r is Err ==> final(self)@ == old(self)@,
            r is Ok ==> final(self)@ == old(self)@.initialized(admin, threshold),
            old(self)@.wf() ==> final(self)@.wf(),
    {
        if self.admin.is_some() {
            return Err(AuthError::AlreadyInitialized);
        }
        if threshold == 0 {
            return Err(AuthError::ThresholdTooLow);
        }
        proof {
            if self@.wf() {
                let s0 = AuthState {
                    admin: Some(admin),
                    multisig: Some((threshold, seq![admin])),
                    next_id: Some(0u32),
                    user_roles: self@.user_roles.insert(admin, seq![admin_name()]),
                    ..self@
                };
                let s1 = s0.with_role(admin_name(), 0xFFFF_FFFF_FFFF_FFFFu64);
                let s2 = s1.with_role(operator_name(), operator_mask());
                let s3 = s2.with_role(committee_name(), committee_mask());
                lemma_role_names(s0, admin_name(), 0xFFFF_FFFF_FFFF_FFFFu64);
                lemma_role_names(s1, operator_name(), operator_mask());
                lemma_role_names(s2, committee_name(), committee_mask());
                lemma_role_names(s3, player_name(), Permission::ClaimJackpot.mask());
            }
        }
        self.admin = Some(admin);
        let mut admins: Vec<Address> = Vec::new();
        admins.push(admin);
        assert(admins@ =~= seq![admin]);
        self.multisig = Some(MultiSigConfig { threshold, admins });
        self.next_id = Some(0);
        self.internal_define_role(admin_role(), 0xFFFF_FFFF_FFFF_FFFFu64);
        self.internal_define_role(
            operator_role(),
            Permission::CreateTable.bit() | Permission::PauseTable.bit()
                | Permission::ConfigureTable.bit() | Permission::BanPlayer.bit()
                | Permission::ForceFold.bit() | Permission::CancelHand.bit(),
        );
        self.internal_define_role(
            committee_role(),
            Permission::VerifyProof.bit() | Permission::ManageCommittee.bit()
                | Permission::ManageVerifierKeys.bit(),
        );
        self.internal_define_role(player_role(), Permission::ClaimJackpot.bit());
        let mut roles: Vec<Symbol> = Vec::new();
        roles.push(admin_role());
        assert(roles@ =~= seq![admin_name()]);
        self.user_roles.insert(admin, roles);
        Ok(())
    }

    fn internal_define_role(&mut self, name: Symbol, permissions: u64)
        ensures
            final(self)@ == old(self)@.with_role(name, permissions),
    {
        self.roles.insert(name, Role { name, permissions, active: true });
        if !contains_item(&self.role_names, &name) {
            self.role_names.push(name);
        }
    }

    /// Whether `caller` passes for an administrator.
    pub fn is_admin(&self, env: &Env, caller: &Address) -> (r: bool)
        ensures
            r == self@.is_admin(*caller),
    {
        if let Some(a) = &self.admin {
            if address_eq(env, caller, a) {
                return true;
            }
        }
        match &self.multisig {
            Some(cfg) => address_listed(env, caller, &cfg.admins),
            None => false,
        }
    }

    /// Refuses a call while paused, or by anyone but an administrator.
    fn require_gate(&self, env: &Env, caller: &Address) -> (r: Result<(), AuthError>)
        ensures
            r == (match self@.gate(*caller) {
                Some(e) => Err::<(), _>(e),
                None => Ok(()),
            }),
    {
        match self.require_not_paused() {
            Ok(_) => {},
            Err(e) => {
                return Err(e);
            },
        }
        self.require_admin(env, caller)
    }

    fn require_not_paused(&self) -> (r: Result<(), AuthError>)
        ensures
            r == (if self@.paused == Some(true) {
                Err::<(), _>(AuthError::ContractPaused)
            } else {
                Ok(())
            }),
    {
        if self.is_paused() {
            return Err(AuthError::ContractPaused);
        }
        Ok(())
    }

    fn require_admin(&self, env: &Env, caller: &Address) -> (r: Result<(), AuthError>)
        ensures
            r == (if self@.is_admin(*caller) {
                Ok(())
            } else {
                Err(AuthError::NotAdmin)
            }),
    {
        if !self.is_admin(env, caller) {
            return Err(AuthError::NotAdmin);
        }
        Ok(())
    }

    /// Refuses a step that no executed proposal warrants where more than one approval is asked
    /// for, and uses the proposal up otherwise.
    fn use_warrant(&mut self, step: Step) -> (r: Result<(), AuthError>)
        ensures
            match old(self)@.step_refusal(step) {
                Some(e) => r == Err::<(), _>(e) && final(self)@ == old(self)@,
                None => r is Ok && final(self)@ == old(self)@.warranted(step),
            },
    {
        let threshold: u32 = match &self.multisig {
            Some(cfg) => cfg.threshold,
            None => 0,
        };
        if threshold < 2 {
            return Ok(());
        }
        let count: u32 = match self.next_id {
            Some(n) => n,
            None => 0,
        };
        let mut found: Option<u32> = None;
        let mut i: u32 = 0;
        while i < count
            invariant
                i <= count,
                count == self@.next(),
                self@ == old(self)@,
                found == self@.warrant_before(step, i as int),
            decreases count - i,
        {
            if found.is_none() && !self.applied.contains(&i) {
                if let Some(p) = self.proposals.get(&i) {
                    if p.executed && proposal_is_for(p, &step) {
                        found = Some(i);
                    }
                }
            }
            i += 1;
        }
        match found {
            Some(id) => {
                self.applied.insert(id, true);
                Ok(())
            },
            None => Err(AuthError::ThresholdNotReached),
        }
    }

    /// Defines a role, or redefines it. Where more than one approval is asked for, this carries
    /// out an executed proposal.
    pub fn define_role(&mut self, env: &Env, caller: Address, role_name: Symbol, permissions: u64) -> (r:
        Result<(), AuthError>)
        ensures
            ({
                let st = old(self)@;
                let step = Step::DefineRole(role_name, permissions);
                if st.gate(caller) is Some {
                    r == Err::<(), _>(st.gate(caller)->0) && final(self)@ == st
                } else if st.step_refusal(step) is Some {
                    r == Err::<(), _>(st.step_refusal(step)->0) && final(self)@ == st
                } else {
                    r is Ok && final(self)@ == st.warranted(step).with_role(role_name, permissions)
                }
            }),
            old(self)@.wf() ==> final(self)@.wf(),
    {
        match self.require_gate(env, &caller) {
            Ok(_) => {},
            Err(e) => {
                return Err(e);
            },
        }
        match self.use_warrant(Step::DefineRole(role_name, permissions)) {
            Ok(_) => {},
            Err(e) => {
                return Err(e);
            },
        }
        proof {
            if old(self)@.wf() {
                lemma_role_names(self@, role_name, permissions);
            }
        }
        self.internal_define_role(role_name, permissions);
        Ok(())
    }

    /// Gives a user a role.
    pub fn grant_role(&mut self, env: &Env, caller: Address, user: Address, role_name: Symbol) -> (r:
        Result<(), AuthError>)
        ensures
            match r {
                Ok(_) => {
                    let st = old(self)@;
                    &&& st.gate(caller) is None
                    &&& st.roles.contains_key(role_name) && st.roles[role_name].active
                    &&& !st.roles_of(user).contains(role_name)
                    &&& final(self)@ == (AuthState {
                        user_roles: st.user_roles.insert(user, st.roles_of(user).push(role_name)),
                        ..st
                    })
                },
                Err(e) => {
                    let st = old(self)@;
                    &&& final(self)@ == st
                    &&& if st.gate(caller) is Some {
                        st.gate(caller) == Some(e)
                    } else if !st.roles.contains_key(role_name) || !st.roles[role_name].active {
                        e == AuthError::RoleNotFound
                    } else {
                        e == AuthError::AlreadyHasRole && st.roles_of(user).contains(role_name)
                    }
                },
            },
            r is Ok <==> old(self)@.gate(caller) is None && old(self)@.roles.contains_key(role_name)
                && old(self)@.roles[role_name].active && !old(self)@.roles_of(user).contains(
                role_name,
            ),
            r is Ok ==> final(self)@ == old(self)@.with_user_role(user, role_name),
    {
        match self.require_gate(env, &caller) {
            Ok(_) => {},
            Err(e) => {
                return Err(e);
            },
        }
        match self.roles.get(&role_name) {
            Some(role) => {
                if !role.active {
                    return Err(AuthError::RoleNotFound);
                }
            },
            None => {
                return Err(AuthError::RoleNotFound);
            },
        }
        let mut roles = self.get_user_roles(user);
        if contains_item(&roles, &role_name) {
            return Err(AuthError::AlreadyHasRole);
        }
        roles.push(role_name);
        self.user_roles.insert(user, roles);
        Ok(())
    }

    /// Takes a role from a user.
    pub fn revoke_role(&mut self, env: &Env, caller: Address, user: Address, role_name: Symbol) -> (r:
        Result<(), AuthError>)
        ensures
            match r {
                Ok(_) => {
                    let st = old(self)@;
                    let rest = without(st.roles_of(user), role_name);
                    &&& st.gate(caller) is None
                    &&& st.roles_of(user).contains(role_name)
                    &&& final(self)@ == (AuthState {
                        user_roles: if rest.len() == 0 {
                            st.user_roles.remove(user)
                        } else {
                            st.user_roles.insert(user, rest)
                        },
                        ..st
                    })
                },
                Err(e) => {
                    let st = old(self)@;
                    &&& final(self)@ == st
                    &&& if st.gate(caller) is Some {
                        st.gate(caller) == Some(e)
                    } else {
                        e == AuthError::DoesNotHaveRole && !st.roles_of(user).contains(role_name)
                    }
                },
            },
            r is Ok <==> old(self)@.gate(caller) is None && old(self)@.roles_of(user).contains(
                role_name,
            ),
            r is Ok ==> final(self)@ == old(self)@.without_user_role(user, role_name),
    {
        match self.require_gate(env, &caller) {
            Ok(_) => {},
            Err(e) => {
                return Err(e);
            },
        }
        let roles = self.get_user_roles(user);
        if !contains_item(&roles, &role_name) {
            return Err(AuthError::DoesNotHaveRole);
        }
        let rest = copy_without(&roles, &role_name);
        if rest.len() == 0 {
            let _ = self.user_roles.remove(&user);
        } else {
            self.user_roles.insert(user, rest);
        }
        Ok(())
    }

    /// Gives a user a permission directly.
    pub fn grant_permission(
        &mut self,
        env: &Env,
        caller: Address,
        user: Address,
        permission: Permission,
    ) -> (r: Result<(), AuthError>)
        ensures
            old(self)@.gated(
                caller,
                AuthState {
                    direct: old(self)@.direct.insert(
                        user,
                        old(self)@.direct_of(user) | permission.mask(),
                    ),
                    ..old(self)@
                },
                final(self)@,
                r,
            ),
            r is Ok ==> final(self)@ == old(self)@.with_permission(user, permission),
    {
        match self.require_gate(env, &caller) {
            Ok(_) => {},
            Err(e) => {
                return Err(e);
            },
        }
        let perms: u64 = self.direct_permissions(&user) | permission.bit();
        self.direct.insert(user, perms);
        Ok(())
    }

    /// Takes a direct permission from a user.
    pub fn revoke_permission(
        &mut self,
        env: &Env,
        caller: Address,
        user: Address,
        permission: Permission,
    ) -> (r: Result<(), AuthError>)
        ensures
            old(self)@.gated(
                caller,
                AuthState {
                    direct: old(self)@.direct.insert(
                        user,
                        old(self)@.direct_of(user) & !permission.mask(),
                    ),
                    ..old(self)@
                },
                final(self)@,
                r,
            ),
            r is Ok ==> final(self)@ == old(self)@.without_permission(user, permission),
    {
        match self.require_gate(env, &caller) {
            Ok(_) => {},
            Err(e) => {
                return Err(e);
            },
        }
        let perms: u64 = self.direct_permissions(&user) & !permission.bit();
        self.direct.insert(user, perms);
        Ok(())
    }

    fn direct_permissions(&self, user: &Address) -> (r: u64)
        ensures
            r == self@.direct_of(*user),
    {
        match self.direct.get(user) {
            Some(x) => *x,
            None => 0,
        }
    }

    /// Whether a user has a permission, directly or by a role.
    pub fn has_permission(&self, user: Address, permission: Permission) -> (r: bool)
        ensures
            r == self@.permits(user, permission),
    {
        let bit: u64 = permission.bit();
        if (self.direct_permissions(&user) & bit) != 0 {
            return true;
        }
        assert(0u64 & bit == 0) by (bit_vector);
        let roles = self.get_user_roles(user);
        let mut i: usize = 0;
        while i < roles.len()
            invariant
                i <= roles@.len(),
                roles@ == self@.roles_of(user),
                bit == permission.mask(),
                self@.direct_of(user) & bit == 0,
                forall|j: int|
                    0 <= j < i ==> {
                        let n = #[trigger] roles@[j];
                        !(self@.roles.contains_key(n) && self@.roles[n].active
                            && self@.roles[n].permissions & bit != 0)
                    },
            decreases roles@.len() - i,
        {
            if let Some(role) = self.roles.get(&roles[i]) {
                if role.active && (role.permissions & bit) != 0 {
                    assert(self@.roles_of(user)[i as int] == roles@[i as int]);
                    return true;
                }
            }
            i += 1;
        }
        false
    }

    /// Whether a user has a role.
    pub fn has_role(&self, user: Address, role_name: Symbol) -> (r: bool)
        ensures
            r == self@.roles_of(user).contains(role_name),
    {
        let roles = self.get_user_roles(user);
        contains_item(&roles, &role_name)
    }

    /// All permissions of a user, direct or by a role.
    pub fn get_permissions(&self, user: Address) -> (r: u64)
        ensures
            r == self@.permission_bits(user),
    {
        let direct: u64 = self.direct_permissions(&user);
        let mut agg: u64 = 0;
        let roles = self.get_user_roles(user);
        let mut i: usize = 0;
        while i < roles.len()
            invariant
                i <= roles@.len(),
                roles@ == self@.roles_of(user),
                agg == role_bits(self@.roles, roles@.take(i as int)),
            decreases roles@.len() - i,
        {
            assert(roles@.take(i + 1).drop_last() =~= roles@.take(i as int));
            if let Some(role) = self.roles.get(&roles[i]) {
                if role.active {
                    agg = agg | role.permissions;
                }
            }
            i += 1;
        }
        assert(roles@.take(i as int) =~= roles@);
        direct | agg
    }

    /// The roles of a user.
    pub fn get_user_roles(&self, user: Address) -> (r: Vec<Symbol>)
        ensures
            r@ == self@.roles_of(user),
    {
        match self.user_roles.get(&user) {
            Some(v) => v.dup(),
            None => Vec::new(),
        }
    }

    /// All defined roles, in the order in which they were first defined.
    pub fn list_roles(&self) -> (r: Vec<Role>)
        ensures
            r@ == defined_roles(self@.roles, self@.role_names),
    {
        let ghost names = self@.role_names;
        let mut out: Vec<Role> = Vec::new();
        let mut i: usize = 0;
        while i < self.role_names.len()
            invariant
                i <= names.len(),
                names == self@.role_names,
                names == self.role_names@,
                out@ == defined_roles(self@.roles, names.take(i as int)),
            decreases names.len() - i,
        {
            assert(names.take(i + 1).drop_last() =~= names.take(i as int));
            if let Some(role) = self.roles.get(&self.role_names[i]) {
                out.push(*role);
            }
            i += 1;
        }
        assert(names.take(i as int) =~= names);
        out
    }

    /// Files a proposal at time `now` and returns its number. The proposer approves it. A
    /// timelock of zero is the default one.
    pub fn propose_action(
        &mut self,
        env: &Env,
        proposer: Address,
        action: Symbol,
        target: Option<Address>,
        payload: Vec<u8>,
        timelock_seconds: u64,
        now: u64,
    ) -> (r: Result<u32, AuthError>)
        requires
            old(self)@.multisig is Some ==> now + (
            if timelock_seconds == 0 {
                DEFAULT_TIMELOCK_SECONDS
            } else {
                timelock_seconds
            }) <= u64::MAX && old(self)@.next() < u32::MAX,
        ensures
            match r {
                Ok(id) => {
                    let st = old(self)@;
                    &&& st.gate(proposer) is None
                    &&& st.multisig is Some
                    &&& id == st.next()
                    &&& final(self)@ == (AuthState {
                        next_id: Some((id + 1) as u32),
                        proposals: st.proposals.insert(
                            id,
                            ProposalView {
                                id,
                                proposer,
                                action,
                                target,
                                payload: payload@,
                                approvals: seq![proposer],
                                executed: false,
                                created_at: now,
                                execute_after: (now + (if timelock_seconds == 0 {
                                    DEFAULT_TIMELOCK_SECONDS
                                } else {
                                    timelock_seconds
                                })) as u64,
                            },
                        ),
                        ..st
                    })
                },
                Err(e) => {
                    let st = old(self)@;
                    &&& final(self)@ == st
                    &&& if st.gate(proposer) is Some {
                        st.gate(proposer) == Some(e)
                    } else {
                        e == AuthError::NotInitialized && st.multisig is None
                    }
                },
            },
            old(self)@.wf() ==> final(self)@.wf(),
            r matches Ok(id) ==> {
                let p = final(self)@.proposals[id];
                &&& p.approvals.len() == 1 && p.approvals[0] == proposer
                &&& !p.executed
                &&& p.action == action && p.target == target && p.payload == payload@
                &&& timelock_seconds > 0 ==> p.execute_after - now == timelock_seconds
                &&& timelock_seconds == 0 ==> p.execute_after - now == 24 * 60 * 60
            },
            r is Ok <==> old(self)@.gate(proposer) is None && old(self)@.multisig is Some,
    {
        match self.require_gate(env, &proposer) {
            Ok(_) => {},
            Err(e) => {
                return Err(e);
            },
        }
        if self.multisig.is_none() {
            return Err(AuthError::NotInitialized);
        }
        let id: u32 = match self.next_id {
            Some(n) => n,
            None => 0,
        };
        let delay: u64 = if timelock_seconds == 0 {
            DEFAULT_TIMELOCK_SECONDS
        } else {
            timelock_seconds
        };
        let mut approvals: Vec<Address> = Vec::new();
        approvals.push(proposer);
        assert(approvals@ =~= seq![proposer]);
        let proposal = Proposal {
            id,
            proposer,
            action,
            target,
            payload,
            approvals,
            executed: false,
            created_at: now,
            execute_after: now + delay,
        };
        self.proposals.insert(id, proposal);
        self.next_id = Some(id + 1);
        Ok(id)
    }

    /// Approves a proposal.
    pub fn approve_action(&mut self, env: &Env, approver: Address, proposal_id: u32) -> (r: Result<
        (),
        AuthError,
    >)
        ensures
            match old(self)@.approval_refusal(approver, proposal_id) {
                Some(e) => r == Err::<(), _>(e) && final(self)@ == old(self)@,
                None => r is Ok && final(self)@ == old(self)@.approved(approver, proposal_id),
            },
            old(self)@.wf() ==> final(self)@.wf(),
    {
        let ghost st = self@;
        match self.require_gate(env, &approver) {
            Ok(_) => {},
            Err(e) => {
                return Err(e);
            },
        }
        match self.proposals.get(&proposal_id) {
            Some(p) => {
                if p.executed {
                    return Err(AuthError::ProposalAlreadyExecuted);
                }
                if address_listed(env, &approver, &p.approvals) {
                    return Err(AuthError::AlreadyApproved);
                }
            },
            None => {
                return Err(AuthError::ProposalNotFound);
            },
        }
        let mut proposal = self.proposals.remove(&proposal_id).unwrap();
        proposal.approvals.push(approver);
        self.proposals.insert(proposal_id, proposal);
        proof {
            assert(self@.proposals =~= st.approved(approver, proposal_id).proposals);
            if st.wf() {
                approval_keeps_distinct(st, approver, proposal_id);
            }
        }
        Ok(())
    }

    /// Executes a proposal with enough approvals whose timelock has elapsed at time `now`.
    pub fn execute_action(&mut self, env: &Env, executor: Address, proposal_id: u32, now: u64) -> (r:
        Result<(), AuthError>)
        ensures
            match old(self)@.execution_refusal(executor, proposal_id, now) {
                Some(e) => r == Err::<(), _>(e) && final(self)@ == old(self)@,
                None => r is Ok && final(self)@ == old(self)@.executed(proposal_id),
            },
            old(self)@.wf() ==> final(self)@.wf(),
    {
        let ghost st = self@;
        match self.require_gate(env, &executor) {
            Ok(_) => {},
            Err(e) => {
                return Err(e);
            },
        }
        let approvals: usize = match self.proposals.get(&proposal_id) {
            Some(p) => {
                if p.executed {
                    return Err(AuthError::ProposalAlreadyExecuted);
                }
                if now < p.execute_after {
                    return Err(AuthError::TimelockNotElapsed);
                }
                p.approvals.len()
            },
            None => {
                return Err(AuthError::ProposalNotFound);
            },
        };
        match &self.multisig {
            Some(cfg) => {
                if (approvals as u64) < cfg.threshold as u64 {
                    return Err(AuthError::ThresholdNotReached);
                }
            },
            None => {
                return Err(AuthError::NotInitialized);
            },
        }
        let mut proposal = self.proposals.remove(&proposal_id).unwrap();
        proposal.executed = true;
        self.proposals.insert(proposal_id, proposal);
        assert(self@.proposals =~= st.executed(proposal_id).proposals);
        Ok(())
    }

    /// A proposal.
    pub fn get_proposal(&self, proposal_id: u32) -> (r: Option<&Proposal>)
        ensures
            match r {
                Some(p) => self@.proposals.contains_key(proposal_id) && p@
                    == self@.proposals[proposal_id],
                None => !self@.proposals.contains_key(proposal_id),
            },
    {
        self.proposals.get(&proposal_id)
    }

    /// Adds an administrator, who then has the administrators' role. One who is there already
    /// changes nothing. Where more than one approval is asked for, this carries out an executed
    /// proposal.
    pub fn add_multisig_admin(&mut self, env: &Env, caller: Address, new_admin: Address) -> (r:
        Result<(), AuthError>)
        ensures
            ({
                let st = old(self)@;
                if st.gate(caller) is Some {
                    r == Err::<(), _>(st.gate(caller)->0) && final(self)@ == st
                } else if st.multisig is None {
                    r == Err::<(), _>(AuthError::NotInitialized) && final(self)@ == st
                } else {
                    let (threshold, admins) = st.multisig->0;
                    let step = Step::AddAdmin(new_admin);
                    if digest_listed(new_admin, admins) {
                        r is Ok && final(self)@ == st
                    } else if st.step_refusal(step) is Some {
                        r == Err::<(), _>(st.step_refusal(step)->0) && final(self)@ == st
                    } else {
                        r is Ok && final(self)@ == (AuthState {
                            multisig: Some((threshold, admins.push(new_admin))),
                            user_roles: st.user_roles.insert(new_admin, seq![admin_name()]),
                            ..st.warranted(step)
                        })
                    }
                }
            }),
            r is Ok && final(self)@ != old(self)@ ==> final(self)@ == old(self)@.warranted(
                Step::AddAdmin(new_admin),
            ).with_admin(new_admin),
    {
        match self.require_gate(env, &caller) {
            Ok(_) => {},
            Err(e) => {
                return Err(e);
            },
        }
        let mut admins: Vec<Address> = Vec::new();
        let threshold: u32 = match &self.multisig {
            Some(cfg) => {
                if address_listed(env, &new_admin, &cfg.admins) {
                    return Ok(());
                }
                admins = cfg.admins.dup();
                cfg.threshold
            },
            None => {
                return Err(AuthError::NotInitialized);
            },
        };
        match self.use_warrant(Step::AddAdmin(new_admin)) {
            Ok(_) => {},
            Err(e) => {
                return Err(e);
            },
        }
        admins.push(new_admin);
        self.multisig = Some(MultiSigConfig { threshold, admins });
        let mut roles: Vec<Symbol> = Vec::new();
        roles.push(admin_role());
        assert(roles@ =~= seq![admin_name()]);
        self.user_roles.insert(new_admin, roles);
        Ok(())
    }

    /// Sets how many approvals a proposal needs: at least one and at most all administrators.
    /// Where more than one approval is asked for, asking for fewer carries out an executed
    /// proposal.
    pub fn set_threshold(&mut self, env: &Env, caller: Address, threshold: u32) -> (r: Result<
        (),
        AuthError,
    >)
        ensures
            match old(self)@.threshold_refusal(caller, threshold) {
                Some(e) => r == Err::<(), _>(e) && final(self)@ == old(self)@,
                None => r is Ok && final(self)@ == old(self)@.with_threshold(threshold),
            },
            r is Ok ==> final(self)@.threshold() == threshold,
    {
        match self.require_gate(env, &caller) {
            Ok(_) => {},
            Err(e) => {
                return Err(e);
            },
        }
        let (current, admins): (u32, Vec<Address>) = match &self.multisig {
            Some(cfg) => (cfg.threshold, cfg.admins.dup()),
            None => {
                return Err(AuthError::NotInitialized);
            },
        };
        if threshold == 0 {
            return Err(AuthError::ThresholdTooLow);
        }
        if threshold as u64 > admins.len() as u64 {
            return Err(AuthError::ThresholdTooHigh);
        }
        if threshold < current {
            match self.use_warrant(Step::LowerThreshold(threshold)) {
                Ok(_) => {},
                Err(e) => {
                    return Err(e);
                },
            }
        }
        self.multisig = Some(MultiSigConfig { threshold, admins });
        Ok(())
    }

    /// Lets one contract call another.
    pub fn authorize_contract_call(
        &mut self,
        env: &Env,
        admin: Address,
        caller_contract: Address,
        target_contract: Address,
    ) -> (r: Result<(), AuthError>)
        ensures
            old(self)@.gated(
                admin,
                AuthState {
                    authorized: old(self)@.authorized.insert(
                        CallKey { caller: caller_contract, target: target_contract },
                        true,
                    ),
                    ..old(self)@
                },
                final(self)@,
                r,
            ),
            r is Ok ==> value_or(
                final(self)@.authorized,
                CallKey { caller: caller_contract, target: target_contract },
                false,
            ),
    {
        match self.require_gate(env, &admin) {
            Ok(_) => {},
            Err(e) => {
                return Err(e);
            },
        }
        self.authorized.insert(
            CallKey { caller: caller_contract, target: target_contract },
            true,
        );
        Ok(())
    }

    /// No longer lets one contract call another.
    pub fn revoke_contract_call(
        &mut self,
        env: &Env,
        admin: Address,
        caller_contract: Address,
        target_contract: Address,
    ) -> (r: Result<(), AuthError>)
        ensures
            old(self)@.gated(
                admin,
                AuthState {
                    authorized: old(self)@.authorized.remove(
                        CallKey { caller: caller_contract, target: target_contract },
                    ),
                    ..old(self)@
                },
                final(self)@,
                r,
            ),
            r is Ok ==> !value_or(
                final(self)@.authorized,
                CallKey { caller: caller_contract, target: target_contract },
                false,
            ),
    {
        match self.require_gate(env, &admin) {
            Ok(_) => {},
            Err(e) => {
                return Err(e);
            },
        }
        let _ = self.authorized.remove(
            &CallKey { caller: caller_contract, target: target_contract },
        );
        Ok(())
    }

    /// Whether one contract may call another.
    pub fn is_contract_authorized(&self, caller: Address, target: Address) -> (r: bool)
        ensures
            r == value_or(self@.authorized, CallKey { caller, target }, false),
    {
        match self.authorized.get(&CallKey { caller, target }) {
            Some(x) => *x,
            None => false,
        }
    }

    /// Refuses a user without the permission.
    pub fn require_permission(&self, user: Address, permission: Permission) -> (r: Result<
        (),
        AuthError,
    >)
        ensures
            r == (if self@.permits(user, permission) {
                Ok(())
            } else {
                Err(AuthError::InsufficientPermissions)
            }),
    {
        if self.has_permission(user, permission) {
            Ok(())
        } else {
            Err(AuthError::InsufficientPermissions)
        }
    }

    /// The threshold and the administrators.
    pub fn get_multisig_config(&self) -> (r: Option<&MultiSigConfig>)
        ensures
            match r {
                Some(c) => self@.multisig == Some((c.threshold, c.admins@)),
                None => self@.multisig is None,
            },
    {
        self.multisig.as_ref()
    }

    /// Stops administrative calls. Where more than one approval is asked for, this carries out an
    /// executed proposal.
    pub fn pause(&mut self, env: &Env, caller: Address) -> (r: Result<(), AuthError>)
        ensures
            ({
                let st = old(self)@;
                if !st.is_admin(caller) {
                    r == Err::<(), _>(AuthError::NotAdmin) && final(self)@ == st
                } else if st.step_refusal(Step::Pause) is Some {
                    r == Err::<(), _>(st.step_refusal(Step::Pause)->0) && final(self)@ == st
                } else {
                    r is Ok && final(self)@ == (AuthState {
                        paused: Some(true),
                        ..st.warranted(Step::Pause)
                    })
                }
            }),
            r is Ok ==> final(self)@.paused == Some(true) && old(self)@.is_admin(caller),
    {
        match self.require_admin(env, &caller) {
            Ok(_) => {},
            Err(e) => {
                return Err(e);
            },
        }
        match self.use_warrant(Step::Pause) {
            Ok(_) => {},
            Err(e) => {
                return Err(e);
            },
        }
        self.paused = Some(true);
        Ok(())
    }

    /// Resumes administrative calls.
    pub fn unpause(&mut self, env: &Env, caller: Address) -> (r: Result<(), AuthError>)
        ensures
            if old(self)@.is_admin(caller) {
                r is Ok && final(self)@ == (AuthState { paused: Some(false), ..old(self)@ })
            } else {
                r == Err::<(), _>(AuthError::NotAdmin) && final(self)@ == old(self)@
            },
            r is Ok <==> old(self)@.is_admin(caller),
            r is Ok ==> final(self)@.paused == Some(false),
    {
        match self.require_admin(env, &caller) {
            Ok(_) => {},
            Err(e) => {
                return Err(e);
            },
        }
        self.paused = Some(false);
        Ok(())
    }

    /// Whether administrative calls are stopped.
    pub fn is_paused(&self) -> (r: bool)
        ensures
            r == (self@.paused == Some(true)),
    {
        match self.paused {
            Some(p) => p,
            None => false,
        }
    }
}

/// An approval keeps the approvers of every proposal different from one another.
pub proof fn approval_keeps_distinct(st: AuthState, approver: Address, id: u32)
    requires
        st.wf(),
        st.approval_refusal(approver, id) is None,
    ensures
        st.approved(approver, id).wf(),
{
    let p = st.proposals[id];
    let a = p.approvals;
    let b = a.push(approver);
    assert forall|i: int, j: int|
        0 <= i < b.len() && 0 <= j < b.len() && i != j implies address_digest(#[trigger] b[i])
        != address_digest(#[trigger] b[j]) by {
        if i < a.len() {
            assert(a[i] == b[i]);
        }
        if j < a.len() {
            assert(a[j] == b[j]);
        }
    }
    let n = st.approved(approver, id);
    assert forall|q: u32| #[trigger] n.proposals.contains_key(q) implies approvals_distinct(
        n.proposals[q].approvals,
    ) by {
        if q != id {
            assert(st.proposals.contains_key(q));
        }
    }
}

/// A proposal is executed only with as many different approvals as the threshold asks for, not
/// before its timelock, and once.
pub proof fn execution_needs_approvals(st: AuthState, executor: Address, id: u32, now: u64)
    requires
        st.wf(),
        st.execution_refusal(executor, id, now) is None,
    ensures
        st.proposals[id].approvals.len() >= (st.multisig->0).0,
        approvals_distinct(st.proposals[id].approvals),
        now >= st.proposals[id].execute_after,
        forall|e: Address, at: u64|
            #![trigger st.executed(id).execution_refusal(e, id, at)]
            st.executed(id).execution_refusal(e, id, at) is Some,
{
}

proof fn lemma_role_names(st: AuthState, name: Symbol, permissions: u64)
    requires
        st.wf(),
    ensures
        st.with_role(name, permissions).wf(),
{
    let n = st.with_role(name, permissions);
    lemma_with_member(st.role_names, name);
    assert forall|x: Symbol| #[trigger] n.roles.contains_key(x) <==> n.role_names.contains(x) by {
        assert(st.roles.contains_key(x) == st.role_names.contains(x));
    }
}

proof fn lemma_defined_roles(roles: Map<Symbol, Role>, names: Seq<Symbol>)
    requires
        forall|i: int| 0 <= i < names.len() ==> roles.contains_key(#[trigger] names[i]),
    ensures
        defined_roles(roles, names).len() == names.len(),
        forall|i: int|
            0 <= i < names.len() ==> #[trigger] defined_roles(roles, names)[i] == roles[names[i]],
    decreases names.len(),
{
    if names.len() > 0 {
        let d = names.drop_last();
        assert forall|i: int| 0 <= i < d.len() implies roles.contains_key(#[trigger] d[i]) by {
            assert(d[i] == names[i]);
        }
        lemma_defined_roles(roles, d);
        assert(roles.contains_key(names[names.len() - 1]));
        assert forall|i: int| 0 <= i < names.len() implies #[trigger] defined_roles(roles, names)[i]
            == roles[names[i]] by {
            if i < d.len() {
                assert(defined_roles(roles, names)[i] == defined_roles(roles, d)[i]);
            }
        }
    }
}

/// Every defined role is listed, and nothing else is.
pub proof fn every_role_is_listed(st: AuthState, name: Symbol)
    requires
        st.wf(),
    ensures
        defined_roles(st.roles, st.role_names).len() == st.role_names.len(),
        st.roles.contains_key(name) ==> defined_roles(st.roles, st.role_names).contains(
            st.roles[name],
        ),
{
    let names = st.role_names;
    assert forall|i: int| 0 <= i < names.len() implies st.roles.contains_key(
        #[trigger] names[i],
    ) by {
        assert(names.contains(names[i]));
    }
    lemma_defined_roles(st.roles, names);
    if st.roles.contains_key(name) {
        assert(names.contains(name));
        let i = choose|i: int| 0 <= i < names.len() && names[i] == name;
        assert(defined_roles(st.roles, names)[i] == st.roles[name]);
    }
}

proof fn lemma_warrant(st: AuthState, step: Step, k: int)
    requires
        0 <= k <= u32::MAX,
    ensures
        match st.warrant_before(step, k) {
            Some(id) => id < k && st.warrants(id, step),
            None => forall|id: u32| id < k ==> !#[trigger] st.warrants(id, step),
        },
    decreases k,
{
    if k > 0 {
        lemma_warrant(st, step, k - 1);
    }
}

/// Where more than one approval is asked for, one administrator is not enough to define a role, to
/// add an administrator, to pause or to lower the threshold: it takes a proposal that was executed
/// for just that, and each such proposal is used once.
pub proof fn one_key_is_not_enough(st: AuthState, step: Step)
    requires
        st.threshold() >= 2,
    ensures
        st.step_refusal(step) is None ==> exists|id: u32| #[trigger] st.warrants(id, step),
        st.step_refusal(step) is None ==> !st.warranted(step).warrants(
            st.warrant(step)->0,
            step,
        ),
{
    lemma_warrant(st, step, st.next() as int);
}

/// The threshold falls only by a proposal that was executed for just that: whatever one
/// administrator sets without it, as many approvals are asked for afterwards as before.
pub proof fn threshold_falls_by_proposal_only(st: AuthState, caller: Address, threshold: u32)
    requires
        st.threshold_refusal(caller, threshold) is None,
        forall|id: u32| !#[trigger] st.warrants(id, Step::LowerThreshold(threshold)),
    ensures
        st.with_threshold(threshold).threshold() == threshold,
        st.threshold() >= 2 ==> threshold >= st.threshold(),
{
    lemma_warrant(st, Step::LowerThreshold(threshold), st.next() as int);
}

/// Every permission has a bit of its own.
pub proof fn permission_bits_distinct(p: Permission, q: Permission)
    ensures
        p.mask() != 0,
        p != q ==> p.mask() & q.mask() == 0,
{
    let a = p.index();
    let b = q.index();
    assert((1u64 << a) != 0) by (bit_vector)
        requires
            a < 22,
    ;
    if p != q {
        assert(a != b);
        assert((1u64 << a) & (1u64 << b) == 0) by (bit_vector)
            requires
                a < 22,
                b < 22,
                a != b,
        ;
    }
}

proof fn lemma_role_bits(roles: Map<Symbol, Role>, names: Seq<Symbol>, bit: u64)
    ensures
        role_bits(roles, names) & bit != 0 <==> exists|i: int|
            0 <= i < names.len() && {
                let n = #[trigger] names[i];
                roles.contains_key(n) && roles[n].active && roles[n].permissions & bit != 0
            },
    decreases names.len(),
{
    if names.len() == 0 {
        assert(0u64 & bit == 0) by (bit_vector);
    } else {
        let d = names.drop_last();
        lemma_role_bits(roles, d, bit);
        let rest = role_bits(roles, d);
        let n = names.last();
        if roles.contains_key(n) && roles[n].active {
            let x = roles[n].permissions;
            assert((rest | x) & bit != 0 <==> rest & bit != 0 || x & bit != 0) by (bit_vector);
        }
        if role_bits(roles, names) & bit != 0 {
            if rest & bit != 0 {
                let i = choose|i: int|
                    0 <= i < d.len() && {
                        let n = #[trigger] d[i];
                        roles.contains_key(n) && roles[n].active && roles[n].permissions & bit != 0
                    };
                assert(names[i] == d[i]);
            } else {
                assert(names[names.len() - 1] == n);
            }
        }
        if exists|i: int|
            0 <= i < names.len() && {
                let n = #[trigger] names[i];
                roles.contains_key(n) && roles[n].active && roles[n].permissions & bit != 0
            } {
            let i = choose|i: int|
                0 <= i < names.len() && {
                    let n = #[trigger] names[i];
                    roles.contains_key(n) && roles[n].active && roles[n].permissions & bit != 0
                };
            if i < d.len() {
                assert(d[i] == names[i]);
            }
        }
    }
}

/// A user has a permission exactly when its bit is in the user's aggregated mask.
pub proof fn permits_iff_bit_set(st: AuthState, user: Address, p: Permission)
    ensures
        st.permits(user, p) <==> st.permission_bits(user) & p.mask() != 0,
{
    let d = st.direct_of(user);
    let r = role_bits(st.roles, st.roles_of(user));
    let b = p.mask();
    assert((d | r) & b != 0 <==> d & b != 0 || r & b != 0) by (bit_vector);
    lemma_role_bits(st.roles, st.roles_of(user), b);
}

/// A directly granted permission is then held, and no other changes.
pub proof fn grant_gives_only_its_permission(st: AuthState, user: Address, p: Permission, q: Permission)
    ensures
        ({
            let n = AuthState {
                direct: st.direct.insert(user, st.direct_of(user) | p.mask()),
                ..st
            };
            &&& n.permits(user, p)
            &&& q != p ==> n.permits(user, q) == st.permits(user, q)
        }),
{
    permission_bits_distinct(p, q);
    let n = AuthState { direct: st.direct.insert(user, st.direct_of(user) | p.mask()), ..st };
    let d = st.direct_of(user);
    let x = p.mask();
    let y = q.mask();
    assert(n.direct_of(user) == d | x);
    assert(n.roles_of(user) == st.roles_of(user));
    assert((d | x) & x != 0) by (bit_vector)
        requires
            x != 0,
    ;
    if q != p {
        assert((d | x) & y == d & y) by (bit_vector)
            requires
                x & y == 0,
        ;
    }
}

/// A revoked permission is no longer held unless a role gives it, and no other changes.
pub proof fn revoke_takes_only_its_permission(st: AuthState, user: Address, p: Permission, q: Permission)
    ensures
        ({
            let n = AuthState {
                direct: st.direct.insert(user, st.direct_of(user) & !p.mask()),
                ..st
            };
            &&& n.permits(user, p) ==> role_bits(st.roles, st.roles_of(user)) & p.mask() != 0
            &&& q != p ==> n.permits(user, q) == st.permits(user, q)
        }),
{
    permission_bits_distinct(p, q);
    let n = AuthState { direct: st.direct.insert(user, st.direct_of(user) & !p.mask()), ..st };
    let d = st.direct_of(user);
    let x = p.mask();
    let y = q.mask();
    assert(n.direct_of(user) == d & !x);
    assert(n.roles_of(user) == st.roles_of(user));
    assert((d & !x) & x == 0) by (bit_vector);
    lemma_role_bits(st.roles, st.roles_of(user), x);
    if q != p {
        assert((d & !x) & y == d & y) by (bit_vector)
            requires
                x & y == 0,
        ;
    }
}

/// A revoked role is no longer held, and every other role is.
pub proof fn revoked_role_is_gone(roles: Seq<Symbol>, role: Symbol, other: Symbol)
    ensures
        !without(roles, role).contains(role),
        other != role ==> without(roles, role).contains(other) == roles.contains(other),
{
    lemma_without(roles, role);
}

/// The first administrator holds every permission from the start, and passes for one.
pub proof fn first_admin_holds_all(st: AuthState, admin: Address, threshold: u32, p: Permission)
    ensures
        st.initialized(admin, threshold).permits(admin, p),
        st.initialized(admin, threshold).is_admin(admin),
{
    permission_bits_distinct(p, p);
    let n = st.initialized(admin, threshold);
    let b = p.mask();
    assert(0xFFFF_FFFF_FFFF_FFFFu64 & b != 0) by (bit_vector)
        requires
            b != 0,
    ;
    assert(n.roles_of(admin)[0] == admin_name());
}

/// The bit of each permission, in the order in which the permissions are declared.
pub proof fn permissions_have_fixed_bits(p: Permission)
    ensures
        p.mask() == match p {
            Permission::CreateTable => 0x1u64,
            Permission::PauseTable => 0x2u64,
            Permission::ConfigureTable => 0x4u64,
            Permission::CloseTable => 0x8u64,
            Permission::WithdrawRake => 0x10u64,
            Permission::SweepDeadChips => 0x20u64,
            Permission::ManageTreasury => 0x40u64,
            Permission::ManageCommittee => 0x80u64,
            Permission::VerifyProof => 0x100u64,
            Permission::ManageVerifierKeys => 0x200u64,
            Permission::ConfigureJackpot => 0x400u64,
            Permission::ClaimJackpot => 0x800u64,
            Permission::ManageJackpotKeys => 0x1000u64,
            Permission::BanPlayer => 0x2000u64,
            Permission::ManageRoles => 0x4000u64,
            Permission::ManageMembers => 0x8000u64,
            Permission::UpgradeContract => 0x10000u64,
            Permission::TransferAdmin => 0x20000u64,
            Permission::EmergencyWithdraw => 0x40000u64,
            Permission::ManageTimeBank => 0x80000u64,
            Permission::ForceFold => 0x100000u64,
            Permission::CancelHand => 0x200000u64,
        },
{
    assert(1u64 << 0u64 == 0x1u64 && 1u64 << 1u64 == 0x2u64 && 1u64 << 2u64 == 0x4u64
        && 1u64 << 3u64 == 0x8u64 && 1u64 << 4u64 == 0x10u64 && 1u64 << 5u64 == 0x20u64
        && 1u64 << 6u64 == 0x40u64 && 1u64 << 7u64 == 0x80u64 && 1u64 << 8u64 == 0x100u64
        && 1u64 << 9u64 == 0x200u64 && 1u64 << 10u64 == 0x400u64 && 1u64 << 11u64 == 0x800u64
        && 1u64 << 12u64 == 0x1000u64 && 1u64 << 13u64 == 0x2000u64
        && 1u64 << 14u64 == 0x4000u64 && 1u64 << 15u64 == 0x8000u64
        && 1u64 << 16u64 == 0x10000u64 && 1u64 << 17u64 == 0x20000u64
        && 1u64 << 18u64 == 0x40000u64 && 1u64 << 19u64 == 0x80000u64
        && 1u64 << 20u64 == 0x100000u64 && 1u64 << 21u64 == 0x200000u64)
        by (bit_vector);
}

proof fn lemma_or_bits(x: u64, y: u64, m: u64)
    ensures
        (x | y) & m != 0 <==> x & m != 0 || y & m != 0,
{
    assert((x | y) & m != 0 <==> x & m != 0 || y & m != 0) by (bit_vector);
}

proof fn lemma_same_bit(p: Permission, q: Permission)
    ensures
        p.mask() & q.mask() != 0 <==> p == q,
{
    permission_bits_distinct(p, q);
    let m = p.mask();
    assert(m & m == m) by (bit_vector);
}

/// What the roles that come with the contract permit: the administrator everything, the operator
/// tables, bans, folds and cancellations, the committee proofs, keys and its own members, and a
/// player the claim of a jackpot. Nothing else.
pub proof fn first_roles_permit(st: AuthState, admin: Address, threshold: u32, p: Permission)
    ensures
        ({
            let roles = st.initialized(admin, threshold).roles;
            &&& roles.contains_key(admin_name()) && roles[admin_name()].permissions & p.mask() != 0
            &&& roles.contains_key(operator_name())
            &&& roles[operator_name()].permissions & p.mask() != 0 <==> p is CreateTable
                || p is PauseTable || p is ConfigureTable || p is BanPlayer || p is ForceFold
                || p is CancelHand
            &&& roles.contains_key(committee_name())
            &&& roles[committee_name()].permissions & p.mask() != 0 <==> p is VerifyProof
                || p is ManageCommittee || p is ManageVerifierKeys
            &&& roles.contains_key(player_name())
            &&& roles[player_name()].permissions & p.mask() != 0 <==> p is ClaimJackpot
            &&& roles[admin_name()].active && roles[operator_name()].active
                && roles[committee_name()].active && roles[player_name()].active
        }),
{
    let m = p.mask();
    permission_bits_distinct(p, p);
    assert(0xFFFF_FFFF_FFFF_FFFFu64 & m == m) by (bit_vector);
    let (a, b, c) = (
        Permission::CreateTable.mask(),
        Permission::PauseTable.mask(),
        Permission::ConfigureTable.mask(),
    );
    let (d, e, f) = (
        Permission::BanPlayer.mask(),
        Permission::ForceFold.mask(),
        Permission::CancelHand.mask(),
    );
    lemma_or_bits(a, b, m);
    lemma_or_bits(a | b, c, m);
    lemma_or_bits(a | b | c, d, m);
    lemma_or_bits(a | b | c | d, e, m);
    lemma_or_bits(a | b | c | d | e, f, m);
    let (x, y, z) = (
        Permission::VerifyProof.mask(),
        Permission::ManageCommittee.mask(),
        Permission::ManageVerifierKeys.mask(),
    );
    lemma_or_bits(x, y, m);
    lemma_or_bits(x | y, z, m);
    lemma_same_bit(Permission::CreateTable, p);
    lemma_same_bit(Permission::PauseTable, p);
    lemma_same_bit(Permission::ConfigureTable, p);
    lemma_same_bit(Permission::BanPlayer, p);
    lemma_same_bit(Permission::ForceFold, p);
    lemma_same_bit(Permission::CancelHand, p);
    lemma_same_bit(Permission::VerifyProof, p);
    lemma_same_bit(Permission::ManageCommittee, p);
    lemma_same_bit(Permission::ManageVerifierKeys, p);
    lemma_same_bit(Permission::ClaimJackpot, p);
}

/// A proposal warrants one step and no other: not another role or other permissions for it, not
/// another administrator, and not another threshold.
pub proof fn proposals_warrant_one_step(p: ProposalView, a: Step, b: Step)
    requires
        is_for(p, a),
        is_for(p, b),
    ensures
        a == b,
{
}

/// Administrators alone act, and nobody while paused.
pub proof fn gate_admits_administrators(st: AuthState, caller: Address)
    ensures
        st.gate(caller) is None <==> st.paused != Some(true) && st.is_admin(caller),
        st.is_admin(caller) <==> (st.admin is Some && address_digest(caller) == address_digest(
            st.admin->0,
        )) || (st.multisig is Some && exists|i: int|
            0 <= i < (st.multisig->0).1.len() && address_digest(#[trigger] (st.multisig->0).1[i])
                == address_digest(caller)),
{
}

/// What it takes to approve and to execute: an administrator, a proposal that is not executed, for an
/// approval one that they have not approved yet, and for the execution the time and the approvals.
/// Each such request is granted. An approval adds the approver and nothing else; other proposals
/// stay.
pub proof fn proposals_are_approved_and_executed(
    st: AuthState,
    caller: Address,
    id: u32,
    other: u32,
    now: u64,
)
    requires
        other != id,
    ensures
        st.approval_refusal(caller, id) is None <==> st.gate(caller) is None
            && st.proposals.contains_key(id) && !st.proposals[id].executed && !digest_listed(
            caller,
            st.proposals[id].approvals,
        ),
        st.execution_refusal(caller, id, now) is None <==> st.gate(caller) is None
            && st.proposals.contains_key(id) && !st.proposals[id].executed && now
            >= st.proposals[id].execute_after && st.multisig is Some
            && st.proposals[id].approvals.len() >= st.threshold(),
        ({
            let n = st.approved(caller, id);
            let (p, q) = (st.proposals[id], n.proposals[id]);
            &&& q.approvals.len() == p.approvals.len() + 1
            &&& q.approvals.last() == caller
            &&& q.executed == p.executed && q.action == p.action && q.payload == p.payload
                && q.execute_after == p.execute_after && q.target == p.target
            &&& n.proposals[other] == st.proposals[other]
        }),
        ({
            let n = st.executed(id);
            &&& n.proposals[id].executed
            &&& n.proposals[id].approvals == st.proposals[id].approvals
            &&& n.proposals[other] == st.proposals[other]
        }),
{
}

/// A threshold is at least one and at most the number of administrators.
pub proof fn threshold_can_be_met(st: AuthState, caller: Address, threshold: u32)
    requires
        st.threshold_refusal(caller, threshold) is None,
    ensures
        st.gate(caller) is None,
        1 <= threshold <= (st.multisig->0).1.len(),
        st.with_threshold(threshold).threshold() == threshold,
        st.with_threshold(threshold).multisig is Some,
        (st.with_threshold(threshold).multisig->0).1 == (st.multisig->0).1,
{
}

/// Defining a role makes it active with its permissions, and leaves every other role as it is.
pub proof fn roles_are_defined_one_by_one(
    st: AuthState,
    name: Symbol,
    permissions: u64,
    other: Symbol,
)
    requires
        other != name,
    ensures
        ({
            let n = st.with_role(name, permissions);
            &&& n.roles[name].permissions == permissions && n.roles[name].active
                && n.roles[name].name == name
            &&& n.roles.contains_key(other) == st.roles.contains_key(other)
            &&& n.roles[other] == st.roles[other]
            &&& n.user_roles == st.user_roles && n.direct == st.direct && n.multisig == st.multisig
        }),
{
}

/// A permission that is given is held from then on, and one that is taken back is held only where a
/// role gives it. No other permission and no other user is touched.
pub proof fn permissions_are_given_one_by_one(
    st: AuthState,
    user: Address,
    p: Permission,
    u: Address,
    q: Permission,
)
    requires
        u != user || q != p,
    ensures
        st.with_permission(user, p).permits(user, p),
        st.with_permission(user, p).permits(u, q) == st.permits(u, q),
        st.without_permission(user, p).permits(u, q) == st.permits(u, q),
        st.without_permission(user, p).permits(user, p) ==> exists|i: int|
            0 <= i < st.roles_of(user).len() && {
                let n = #[trigger] st.roles_of(user)[i];
                st.roles.contains_key(n) && st.roles[n].active && st.roles[n].permissions
                    & p.mask() != 0
            },
{
    grant_gives_only_its_permission(st, user, p, q);
    revoke_takes_only_its_permission(st, user, p, q);
    lemma_role_bits(st.roles, st.roles_of(user), p.mask());
    let (a, b) = (st.with_permission(user, p), st.without_permission(user, p));
    if u != user {
        assert(a.direct_of(u) == st.direct_of(u) && b.direct_of(u) == st.direct_of(u));
        assert(a.roles_of(u) == st.roles_of(u) && b.roles_of(u) == st.roles_of(u));
    }
}

/// A role that is given is held from then on, and one that is taken is not. No other role and no
/// other user is touched.
pub proof fn roles_are_given_one_by_one(
    st: AuthState,
    user: Address,
    name: Symbol,
    u: Address,
    other: Symbol,
)
    requires
        u != user || other != name,
    ensures
        st.with_user_role(user, name).roles_of(user).contains(name),
        !st.without_user_role(user, name).roles_of(user).contains(name),
        st.with_user_role(user, name).roles_of(u).contains(other) == st.roles_of(u).contains(other),
        st.without_user_role(user, name).roles_of(u).contains(other) == st.roles_of(u).contains(
            other,
        ),
        st.with_user_role(user, name).roles == st.roles,
        st.without_user_role(user, name).roles == st.roles,
{
    let s = st.roles_of(user);
    revoked_role_is_gone(s, name, other);
    assert(s.push(name)[s.len() as int] == name);
    if other != name {
        if s.contains(other) {
            let i = s.index_of(other);
            assert(s.push(name)[i] == other);
        }
        if s.push(name).contains(other) {
            let i = s.push(name).index_of(other);
            assert(s[i] == other);
        }
        let rest = without(s, name);
        if rest.len() == 0 {
            assert(!rest.contains(other));
        }
    }
    if without(s, name).len() == 0 {
        assert(!Seq::<Symbol>::empty().contains(name));
    }
}

/// A new administrator can act from then on, and so can everyone who could before; the threshold
/// stays.
pub proof fn administrators_are_added(st: AuthState, admin: Address, other: Address)
    requires
        st.multisig is Some,
    ensures
        st.with_admin(admin).is_admin(admin),
        st.is_admin(other) ==> st.with_admin(admin).is_admin(other),
        st.with_admin(admin).threshold() == st.threshold(),
        st.with_admin(admin).roles_of(admin).contains(admin_name()),
{
    let list = (st.multisig->0).1;
    let more = list.push(admin);
    assert(more[list.len() as int] == admin);
    assert(digest_listed(admin, more));
    if digest_listed(other, list) {
        let i = choose|i: int|
            0 <= i < list.len() && address_digest(#[trigger] list[i]) == address_digest(other);
        assert(more[i] == list[i]);
        assert(digest_listed(other, more));
    }
    assert(seq![admin_name()][0] == admin_name());
}

/// A proposal that cannot be executed is refused for a reason.
pub proof fn executions_are_refused_for_a_reason(
    st: AuthState,
    executor: Address,
    id: u32,
    now: u64,
)
    ensures
        ({
            let r = st.execution_refusal(executor, id, now);
            &&& r == Some(AuthError::ContractPaused) ==> st.paused == Some(true)
            &&& r == Some(AuthError::NotAdmin) ==> !st.is_admin(executor)
            &&& r == Some(AuthError::ProposalNotFound) ==> !st.proposals.contains_key(id)
            &&& r == Some(AuthError::ProposalAlreadyExecuted) ==> st.proposals[id].executed
            &&& r == Some(AuthError::TimelockNotElapsed) ==> now < st.proposals[id].execute_after
            &&& r == Some(AuthError::NotInitialized) ==> st.multisig is None
            &&& r == Some(AuthError::ThresholdNotReached)
                ==> st.proposals[id].approvals.len() < st.threshold()
        }),
{
}

/// The roles that come with the contract have different names. A request of an administrator changes
/// the state as it says while the contract is not paused, and any other request changes nothing.
pub proof fn requests_are_for_administrators(
    st: AuthState,
    caller: Address,
    next: AuthState,
    after: AuthState,
    r: Result<(), AuthError>,
)
    ensures
        admin_name() != operator_name() && admin_name() != committee_name() && admin_name()
            != player_name() && operator_name() != committee_name() && operator_name()
            != player_name() && committee_name() != player_name(),
        st.gated(caller, next, after, r) ==> {
            &&& r is Ok <==> st.paused != Some(true) && st.is_admin(caller)
            &&& r is Ok ==> after == next
            &&& r is Err ==> after == st
        },
{
}

} // verus!
