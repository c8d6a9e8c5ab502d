//! Governance by staked tokens: proposals, votes, and the timelocked change of the protocol's
//! parameters.

use crate::assoc::{value_or, AssocMap, Key};
use crate::host::{Address, Bytes32, Party, Transfer};
use crate::totals::{lemma_total_insert, lemma_total_nonneg, lemma_total_remove, map_total};
use vstd::prelude::*;

verus! {

/// The whole, in basis points.
pub const BPS_SCALE: i128 = 10_000;

#[derive(Clone, Copy, Debug, PartialEq, Eq, Structural)]
pub struct RakePayload {
    pub default_rake_bps: u32,
    pub max_rake_bps: u32,
}

#[derive(Clone, Copy, Debug, PartialEq, Eq, Structural)]
pub struct CommitteePayload {
    pub min_stake: i128,
    pub reward_rate_bps: u32,
    pub slash_penalty_bps: u32,
}

#[derive(Debug)]
pub struct CircuitPayload {
    pub new_verifier: Address,
    pub new_circuit_hash: Bytes32,
    pub description: String,
}

#[derive(Clone, Copy, Debug, PartialEq, Eq, Structural)]
pub struct TableLimitsPayload {
    pub min_buy_in_floor: i128,
    pub max_players_limit: u32,
    pub min_action_timeout_seconds: u32,
    pub max_rebuys_limit: u32,
}

/// What a proposal would change.
#[derive(Debug)]
pub enum ProposalAction {
    /// The rake and its cap.
    SetRakePercentage(RakePayload),
    /// The committee's stake, reward and penalty.
    SetCommitteeRewards(CommitteePayload),
    /// The verifier contract and the circuit.
    ProposeCircuitUpgrade(CircuitPayload),
    /// The limits on table configurations.
    SetTableConfigLimits(TableLimitsPayload),
}

#[derive(Clone, Copy, Debug, PartialEq, Eq, Structural)]
pub enum ProposalStatus {
    Pending,
    Active,
    Defeated,
    Succeeded,
    Queued,
    Executed,
    Cancelled,
}

#[derive(Clone, Copy, Debug, PartialEq, Eq, Structural)]
pub enum VoteType {
    Against,
    For,
    Abstain,
}

/// The rules of governance.
#[derive(Clone, Copy, Debug, PartialEq, Eq, Structural)]
pub struct GovernanceConfig {
    /// The least stake with which an account can propose.
    pub proposal_threshold: i128,
    /// Ledgers before voting starts.
    pub voting_delay_ledgers: u32,
    /// Ledgers that voting lasts.
    pub voting_period_ledgers: u32,
    /// Ledgers between passing and execution.
    pub timelock_delay_ledgers: u32,
    /// The least turnout, in basis points of what is staked.
    pub quorum_bps: u32,
    /// The share of decisive votes that must be exceeded.
    pub approval_threshold_bps: u32,
}

#[derive(Debug)]
pub struct Proposal {
    pub id: u32,
    pub proposer: Address,
    pub action: ProposalAction,
    pub title: String,
    pub description: String,
    pub start_ledger: u32,
    pub end_ledger: u32,
    pub execution_after_ledger: u32,
    pub for_votes: i128,
    pub against_votes: i128,
    pub abstain_votes: i128,
    pub status: ProposalStatus,
}

impl View for Proposal {
    type V = Proposal;

    open spec fn view(&self) -> Proposal {
        *self
    }
}

/// The parameters in force.
#[derive(Clone, Copy, Debug, PartialEq, Eq, Structural)]
pub struct ActiveProtocolParams {
    pub default_rake_bps: u32,
    pub max_rake_bps: u32,
    pub committee_min_stake: i128,
    pub committee_reward_rate_bps: u32,
    pub committee_slash_penalty_bps: u32,
    pub circuit_verifier: Address,
    pub circuit_hash: Bytes32,
    pub table_min_buy_in_floor: i128,
    pub table_max_players_limit: u32,
    pub table_min_timeout_seconds: u32,
    pub table_max_rebuys_limit: u32,
}

/// Why a request is refused.
#[derive(Clone, Copy, Debug, PartialEq, Eq, Structural)]
pub enum GovernanceError {
    NotInitialized,
    AlreadyInitialized,
    Unauthorized,
    InsufficientVotingPower,
    ProposalNotFound,
    ProposalNotActive,
    AlreadyVoted,
    VotingNotEnded,
    QuorumNotMet,
    ProposalNotPassed,
    TimelockNotElapsed,
    ProposalAlreadyExecuted,
    InvalidStatus,
    InvalidConfig,
    InvalidAmount,
}

/// An account's vote on a proposal.
#[derive(Clone, Copy, Debug, PartialEq, Eq, Structural)]
pub struct VoteKey {
    pub proposal_id: u32,
    pub voter: Address,
}

impl Key for VoteKey {
    fn same(&self, other: &Self) -> (r: bool) {
        *self == *other
    }
}

/// The contents of the governance contract.
#[verifier::ext_equal]
pub struct GovernanceState {
    pub admin: Option<Address>,
    pub token: Option<Address>,
    pub config: Option<GovernanceConfig>,
    pub next_id: Option<u32>,
    pub total_staked: Option<i128>,
    pub staked: Map<Address, i128>,
    pub proposals: Map<u32, Proposal>,
    pub voted: Map<VoteKey, bool>,
    pub params: Option<ActiveProtocolParams>,
}

/// A ledger `delay` after `at`, or the last one there is.
pub open spec fn ledger_after(at: u32, delay: u32) -> u32 {
    if at + delay > u32::MAX {
        u32::MAX
    } else {
        (at + delay) as u32
    }
}

/// The parameters after an action.
pub open spec fn applied(params: ActiveProtocolParams, action: ProposalAction) -> ActiveProtocolParams {
    match action {
        ProposalAction::SetRakePercentage(p) => ActiveProtocolParams {
            default_rake_bps: p.default_rake_bps,
            max_rake_bps: p.max_rake_bps,
            ..params
        },
        ProposalAction::SetCommitteeRewards(p) => ActiveProtocolParams {
            committee_min_stake: p.min_stake,
            committee_reward_rate_bps: p.reward_rate_bps,
            committee_slash_penalty_bps: p.slash_penalty_bps,
            ..params
        },
        ProposalAction::ProposeCircuitUpgrade(p) => ActiveProtocolParams {
            circuit_verifier: p.new_verifier,
            circuit_hash: p.new_circuit_hash,
            ..params
        },
        ProposalAction::SetTableConfigLimits(p) => ActiveProtocolParams {
            table_min_buy_in_floor: p.min_buy_in_floor,
            table_max_players_limit: p.max_players_limit,
            table_min_timeout_seconds: p.min_action_timeout_seconds,
            table_max_rebuys_limit: p.max_rebuys_limit,
            ..params
        },
    }
}

/// All votes on a proposal.
pub open spec fn votes_cast(p: Proposal) -> int {
    p.for_votes + p.against_votes + p.abstain_votes
}

/// The votes of one kind on a proposal.
pub open spec fn votes_of(p: Proposal, vote: VoteType) -> i128 {
    match vote {
        VoteType::For => p.for_votes,
        VoteType::Against => p.against_votes,
        VoteType::Abstain => p.abstain_votes,
    }
}

/// A proposal with one more vote of weight `power`.
pub open spec fn with_vote(p: Proposal, vote: VoteType, power: i128) -> Proposal {
    match vote {
        VoteType::For => Proposal {
            for_votes: (p.for_votes + power) as i128,
            status: ProposalStatus::Active,
            ..p
        },
        VoteType::Against => Proposal {
            against_votes: (p.against_votes + power) as i128,
            status: ProposalStatus::Active,
            ..p
        },
        VoteType::Abstain => Proposal {
            abstain_votes: (p.abstain_votes + power) as i128,
            status: ProposalStatus::Active,
            ..p
        },
    }
}

/// Why a proposal whose voting is over does not pass, if it does not: the turnout is below the
/// quorum, nobody voted for or against, or the approval does not exceed its threshold.
pub open spec fn defeat(p: Proposal, total_staked: int, config: GovernanceConfig) -> Option<
    GovernanceError,
> {
    if total_staked > 0 && votes_cast(p) * 10_000 / total_staked < config.quorum_bps {
        Some(GovernanceError::QuorumNotMet)
    } else if p.for_votes + p.against_votes == 0 {
        Some(GovernanceError::ProposalNotPassed)
    } else if p.for_votes * 10_000 / (p.for_votes + p.against_votes)
        <= config.approval_threshold_bps {
        Some(GovernanceError::ProposalNotPassed)
    } else {
        None
    }
}

impl GovernanceState {
    /// The stake of an account.
    pub open spec fn power(self, account: Address) -> i128 {
        value_or(self.staked, account, 0)
    }

    /// All that is staked.
    pub open spec fn total(self) -> i128 {
        match self.total_staked {
            Some(t) => t,
            None => 0,
        }
    }

    /// The number of the next proposal.
    pub open spec fn next(self) -> u32 {
        match self.next_id {
            Some(n) => n,
            None => 1,
        }
    }

    /// Nothing is staked or proposed before the contract is set up. The total is the sum of the
    /// stakes, each positive. Votes are not negative, and proposals are filed under their numbers.
    pub open spec fn wf(self) -> bool {
        &&& self.admin is Some <==> self.token is Some
        &&& self.admin is Some <==> self.config is Some
        &&& self.admin is Some <==> self.params is Some
        &&& self.admin is None ==> self.staked == Map::<Address, i128>::empty() && self.proposals
            == Map::<u32, Proposal>::empty()
        &&& self.staked.dom().finite()
        &&& self.total() == map_total(self.staked)
        &&& forall|a: Address| #[trigger] self.staked.contains_key(a) ==> self.staked[a] > 0
        &&& forall|id: u32| #[trigger]
            self.proposals.contains_key(id) ==> {
                let p = self.proposals[id];
                p.id == id && id < self.next() && p.for_votes >= 0 && p.against_votes >= 0
                    && p.abstain_votes >= 0
            }
    }

    /// The stake of an account set to `amount`, and the total with it.
    pub open spec fn with_stake(self, account: Address, amount: i128, total: i128) -> Self {
        GovernanceState {
            staked: if amount == 0 {
                self.staked.remove(account)
            } else {
                self.staked.insert(account, amount)
            },
            total_staked: Some(total),
            ..self
        }
    }

    /// A proposal replaced.
    pub open spec fn with_proposal(self, id: u32, p: Proposal) -> Self {
        GovernanceState { proposals: self.proposals.insert(id, p), ..self }
    }

    /// Why an account cannot vote on a proposal at ledger `now`, if it cannot.
    pub open spec fn vote_refusal(self, voter: Address, id: u32, now: u32) -> Option<GovernanceError> {
        if !self.proposals.contains_key(id) {
            Some(GovernanceError::ProposalNotFound)
        } else if now < self.proposals[id].start_ledger || now > self.proposals[id].end_ledger {
            Some(GovernanceError::ProposalNotActive)
        } else if self.voted.contains_key(VoteKey { proposal_id: id, voter }) {
            Some(GovernanceError::AlreadyVoted)
        } else if self.power(voter) <= 0 {
            Some(GovernanceError::InsufficientVotingPower)
        } else {
            None
        }
    }

    /// The state after a vote.
    pub open spec fn with_vote(self, voter: Address, id: u32, vote: VoteType) -> Self {
        GovernanceState {
            proposals: self.proposals.insert(
                id,
                with_vote(self.proposals[id], vote, self.power(voter)),
            ),
            voted: self.voted.insert(VoteKey { proposal_id: id, voter }, true),
            ..self
        }
    }

    /// Why a proposal cannot be executed at ledger `now`, if it cannot.
    pub open spec fn execution_refusal(self, id: u32, now: u32) -> Option<GovernanceError> {
        if !self.proposals.contains_key(id) {
            Some(GovernanceError::ProposalNotFound)
        } else if self.proposals[id].status != ProposalStatus::Queued {
            Some(GovernanceError::InvalidStatus)
        } else if now < self.proposals[id].execution_after_ledger {
            Some(GovernanceError::TimelockNotElapsed)
        } else {
            None
        }
    }

    /// The state after the execution of a proposal.
    pub open spec fn executed(self, id: u32) -> Self {
        let p = self.proposals[id];
        GovernanceState {
            params: Some(applied(self.params->0, p.action)),
            proposals: self.proposals.insert(
                id,
                Proposal { status: ProposalStatus::Executed, ..p },
            ),
            ..self
        }
    }
}

/// The governance contract.
pub struct ProtocolGovernanceContract {
    admin: Option<Address>,
    token: Option<Address>,
    config: Option<GovernanceConfig>,
    next_id: Option<u32>,
    total_staked: Option<i128>,
    staked: AssocMap<Address, i128>,
    proposals: AssocMap<u32, Proposal>,
    voted: AssocMap<VoteKey, bool>,
    params: Option<ActiveProtocolParams>,
}

impl View for ProtocolGovernanceContract {
    type V = GovernanceState;

    closed spec fn view(&self) -> GovernanceState {
        GovernanceState {
            admin: self.admin,
            token: self.token,
            config: self.config,
            next_id: self.next_id,
            total_staked: self.total_staked,
            staked: self.staked@,
            proposals: self.proposals@,
            voted: self.voted@,
            params: self.params,
        }
    }
}

/// A stake is at most the total.
pub proof fn stake_within_total(st: GovernanceState, account: Address)
    requires
        st.wf(),
    ensures
        0 <= st.power(account) <= st.total(),
{
    lemma_total_nonneg(st.staked);
    if st.staked.contains_key(account) {
        lemma_total_remove(st.staked, account);
        assert(st.staked.remove(account).dom() =~= st.staked.dom().remove(account));
        assert forall|a: Address| #[trigger]
            st.staked.remove(account).contains_key(a) implies st.staked.remove(account)[a] >= 0 by {
            assert(st.staked.contains_key(a));
        }
        lemma_total_nonneg(st.staked.remove(account));
    }
}

proof fn lemma_with_stake(st: GovernanceState, account: Address, amount: i128, total: i128)
    requires
        st.wf(),
        st.admin is Some,
        amount >= 0,
        total == st.total() + amount - st.power(account),
    ensures
        st.with_stake(account, amount, total).wf(),
        st.with_stake(account, amount, total).power(account) == amount,
{
    let n = st.with_stake(account, amount, total);
    if amount == 0 {
        assert(n.staked.dom() =~= st.staked.dom().remove(account));
        if st.staked.contains_key(account) {
            lemma_total_remove(st.staked, account);
        } else {
            assert(n.staked =~= st.staked);
        }
        assert forall|a: Address| #[trigger] n.staked.contains_key(a) implies n.staked[a] > 0 by {
            assert(st.staked.contains_key(a));
        }
    } else {
        lemma_total_insert(st.staked, account, amount);
        assert forall|a: Address| #[trigger] n.staked.contains_key(a) implies n.staked[a] > 0 by {
            if a != account {
                assert(st.staked.contains_key(a));
            }
        }
    }
}

impl ProtocolGovernanceContract {
    /// A contract that nobody has set up yet.
    pub fn new() -> (r: Self)
        ensures
            r@ == (GovernanceState {
                admin: None,
                token: None,
                config: None,
                next_id: None,
                total_staked: None,
                staked: Map::empty(),
                proposals: Map::empty(),
                voted: Map::empty(),
                params: None,
            }),
            r@.wf(),
    {
        let r = ProtocolGovernanceContract {
            admin: None,
            token: None,
            config: None,
            next_id: None,
            total_staked: None,
            staked: AssocMap::new(),
            proposals: AssocMap::new(),
            voted: AssocMap::new(),
            params: None,
        };
        assert(r@.staked.dom() =~= Set::empty());
        r
    }

    /// Sets the administrator, the token, the rules and the parameters, once.
    pub fn initialize(
        &mut self,
        admin: Address,
        governance_token: Address,
        config: GovernanceConfig,
        initial_params: ActiveProtocolParams,
    ) -> (r: Result<(), GovernanceError>)
        requires
            old(self)@.wf(),
        ensures
            r == (if old(self)@.admin is Some {
                Err::<(), _>(GovernanceError::AlreadyInitialized)
            } else if config.proposal_threshold <= 0 || config.quorum_bps > 10_000
                || config.approval_threshold_bps > 10_000 {
                Err(GovernanceError::InvalidConfig)
            } else {
                Ok(())
            }),
            r is Err ==> final(self)@ == old(self)@,
            r is Ok ==> final(self)@ == (GovernanceState {
                admin: Some(admin),
                token: Some(governance_token),
                config: Some(config),
                next_id: Some(1u32),
                total_staked: Some(0i128),
                params: Some(initial_params),
                ..old(self)@
            }),
            final(self)@.wf(),
            r is Ok <==> old(self)@.admin is None && config.proposal_threshold > 0
                && config.quorum_bps <= 10_000 && config.approval_threshold_bps <= 10_000,
            r is Ok ==> final(self)@.total() == 0 && final(self)@.next() == 1
                && final(self)@.params == Some(initial_params),
    {
        if self.admin.is_some() {
            return Err(GovernanceError::AlreadyInitialized);
        }
        if config.proposal_threshold <= 0 || config.quorum_bps > 10_000
            || config.approval_threshold_bps > 10_000 {
            return Err(GovernanceError::InvalidConfig);
        }
        self.admin = Some(admin);
        self.token = Some(governance_token);
        self.config = Some(config);
        self.next_id = Some(1);
        self.total_staked = Some(0);
        self.params = Some(initial_params);
        assert(self@.staked.dom() =~= Set::empty());
        Ok(())
    }

    /// Adds to an account's stake. The tokens come from the account.
    pub fn stake(&mut self, player: Address, amount: i128) -> (r: Result<Transfer, GovernanceError>)
        requires
            old(self)@.wf(),
            old(self)@.power(player) + amount <= i128::MAX ==> old(self)@.total() + amount
                <= i128::MAX,
        ensures
            match r {
                Ok(t) => {
                    &&& amount > 0
                    &&& old(self)@.token is Some
                    &&& old(self)@.power(player) + amount <= i128::MAX
                    &&& t == (Transfer {
                        token: old(self)@.token->0,
                        from: Party::Wallet(player),
                        to: Party::This,
                        amount,
                    })
                    &&& final(self)@ == old(self)@.with_stake(
                        player,
                        (old(self)@.power(player) + amount) as i128,
                        (old(self)@.total() + amount) as i128,
                    )
                },
                Err(e) => final(self)@ == old(self)@ && if amount <= 0 {
                    e == GovernanceError::InvalidAmount
                } else if old(self)@.token is None {
                    e == GovernanceError::NotInitialized
                } else {
                    e == GovernanceError::InvalidAmount && old(self)@.power(player) + amount
                        > i128::MAX
                },
            },
            r matches Ok(t) ==> {
                &&& t.amount == amount && t.from == Party::Wallet(player) && t.to == Party::This
                &&& final(self)@.power(player) - old(self)@.power(player) == t.amount
                &&& final(self)@.total() - old(self)@.total() == t.amount
            },
            forall|other: Address|
                other != player ==> #[trigger] final(self)@.power(other) == old(self)@.power(other),
            final(self)@.wf(),
            r is Ok <==> amount > 0 && old(self)@.token is Some && old(self)@.power(player) + amount
                <= i128::MAX,
    {
        if amount <= 0 {
            return Err(GovernanceError::InvalidAmount);
        }
        let token: Address = match self.token {
            Some(t) => t,
            None => {
                return Err(GovernanceError::NotInitialized);
            },
        };
        proof {
            stake_within_total(self@, player);
        }
        let new_staked: i128 = match self.get_voting_power(player).checked_add(amount) {
            Some(x) => x,
            None => {
                return Err(GovernanceError::InvalidAmount);
            },
        };
        let total: i128 = self.get_total_staked() + amount;
        self.staked.insert(player, new_staked);
        self.total_staked = Some(total);
        proof {
            lemma_with_stake(old(self)@, player, new_staked, total);
        }
        Ok(Transfer { token, from: Party::Wallet(player), to: Party::This, amount })
    }

    /// Takes from an account's stake. The tokens go to the account.
    pub fn unstake(&mut self, player: Address, amount: i128) -> (r: Result<
        Transfer,
        GovernanceError,
    >)
        requires
            old(self)@.wf(),
        ensures
            match r {
                Ok(t) => {
                    &&& 0 < amount <= old(self)@.power(player)
                    &&& t == (Transfer {
                        token: old(self)@.token->0,
                        from: Party::This,
                        to: Party::Wallet(player),
                        amount,
                    })
                    &&& final(self)@ == old(self)@.with_stake(
                        player,
                        (old(self)@.power(player) - amount) as i128,
                        (old(self)@.total() - amount) as i128,
                    )
                },
                Err(e) => final(self)@ == old(self)@ && if amount <= 0 {
                    e == GovernanceError::InvalidAmount
                } else {
                    e == GovernanceError::InsufficientVotingPower && old(self)@.power(player)
                        < amount
                },
            },
            r matches Ok(t) ==> {
                &&& t.amount == amount && t.from == Party::This && t.to == Party::Wallet(player)
                &&& old(self)@.power(player) - final(self)@.power(player) == t.amount
                &&& old(self)@.total() - final(self)@.total() == t.amount
            },
            forall|other: Address|
                other != player ==> #[trigger] final(self)@.power(other) == old(self)@.power(other),
            final(self)@.wf(),
            r is Ok <==> 0 < amount <= old(self)@.power(player),
    {
        if amount <= 0 {
            return Err(GovernanceError::InvalidAmount);
        }
        let current: i128 = self.get_voting_power(player);
        if current < amount {
            return Err(GovernanceError::InsufficientVotingPower);
        }
        proof {
            stake_within_total(self@, player);
        }
        let new_staked: i128 = current - amount;
        if new_staked == 0 {
            let _ = self.staked.remove(&player);
        } else {
            self.staked.insert(player, new_staked);
        }
        let total: i128 = match self.total_staked {
            Some(t) => t,
            None => 0,
        };
        let new_total: i128 = if total >= amount {
            total - amount
        } else {
            0
        };
        self.total_staked = Some(new_total);
        proof {
            lemma_with_stake(old(self)@, player, new_staked, new_total);
        }
        let token: Address = self.token.unwrap();
        Ok(Transfer { token, from: Party::This, to: Party::Wallet(player), amount })
    }

    /// The stake of an account.
    pub fn get_voting_power(&self, account: Address) -> (r: i128)
        ensures
            r == self@.power(account),
    {
        match self.staked.get(&account) {
            Some(x) => *x,
            None => 0,
        }
    }

    /// All that is staked.
    pub fn get_total_staked(&self) -> (r: i128)
        ensures
            r == self@.total(),
    {
        match self.total_staked {
            Some(t) => t,
            None => 0,
        }
    }

    /// Files a proposal at ledger `now` and returns its number.
    pub fn propose(
        &mut self,
        proposer: Address,
        action: ProposalAction,
        title: String,
        description: String,
        now: u32,
    ) -> (r: Result<u32, GovernanceError>)
        requires
            old(self)@.wf(),
            (old(self)@.config matches Some(c) && old(self)@.power(proposer)
                >= c.proposal_threshold) ==> old(self)@.next() < u32::MAX,
        ensures
            match r {
                Ok(id) => {
                    let st = old(self)@;
                    let config = st.config->0;
                    let start = ledger_after(now, config.voting_delay_ledgers);
                    &&& st.config is Some
                    &&& st.power(proposer) >= config.proposal_threshold
                    &&& id == st.next()
                    &&& !st.proposals.contains_key(id)
                    &&& final(self)@ == (GovernanceState {
                        next_id: Some((id + 1) as u32),
                        proposals: st.proposals.insert(
                            id,
                            Proposal {
                                id,
                                proposer,
                                action,
                                title,
                                description,
                                start_ledger: start,
                                end_ledger: ledger_after(start, config.voting_period_ledgers),
                                execution_after_ledger: 0,
                                for_votes: 0,
                                against_votes: 0,
                                abstain_votes: 0,
                                status: ProposalStatus::Pending,
                            },
                        ),
                        ..st
                    })
                },
                Err(e) => final(self)@ == old(self)@ && if old(self)@.config is None {
                    e == GovernanceError::NotInitialized
                } else {
                    e == GovernanceError::InsufficientVotingPower && old(self)@.power(proposer)
                        < (old(self)@.config->0).proposal_threshold
                },
            },
            r matches Ok(id) ==> {
                let p = final(self)@.proposals[id];
                let config = old(self)@.config->0;
                &&& final(self)@.proposals.contains_key(id)
                &&& p.proposer == proposer && p.action == action && p.id == id
                &&& p.for_votes == 0 && p.against_votes == 0 && p.abstain_votes == 0
                &&& now + config.voting_delay_ledgers <= u32::MAX ==> p.start_ledger == now
                    + config.voting_delay_ledgers
                &&& now + config.voting_delay_ledgers + config.voting_period_ledgers <= u32::MAX
                    ==> p.end_ledger - p.start_ledger == config.voting_period_ledgers
                &&& final(self)@.next() == id + 1
            },
            final(self)@.wf(),
            r is Ok <==> old(self)@.config is Some && old(self)@.power(proposer) >= (
            old(self)@.config->0).proposal_threshold,
    {
        let config = match self.config {
            Some(c) => c,
            None => {
                return Err(GovernanceError::NotInitialized);
            },
        };
        if self.get_voting_power(proposer) < config.proposal_threshold {
            return Err(GovernanceError::InsufficientVotingPower);
        }
        let id: u32 = match self.next_id {
            Some(n) => n,
            None => 1,
        };
        self.next_id = Some(id + 1);
        let start_ledger: u32 = now.saturating_add(config.voting_delay_ledgers);
        let end_ledger: u32 = start_ledger.saturating_add(config.voting_period_ledgers);
        let proposal = Proposal {
            id,
            proposer,
            action,
            title,
            description,
            start_ledger,
            end_ledger,
            execution_after_ledger: 0,
            for_votes: 0,
            against_votes: 0,
            abstain_votes: 0,
            status: ProposalStatus::Pending,
        };
        self.proposals.insert(id, proposal);
        Ok(id)
    }

    /// Casts an account's vote, weighed by its stake, at ledger `now`.
    pub fn cast_vote(&mut self, voter: Address, proposal_id: u32, vote: VoteType, now: u32) -> (r:
        Result<(), GovernanceError>)
        requires
            old(self)@.wf(),
            old(self)@.vote_refusal(voter, proposal_id, now) is None ==> votes_of(
                old(self)@.proposals[proposal_id],
                vote,
            ) + old(self)@.power(voter) <= i128::MAX,
        ensures
            match old(self)@.vote_refusal(voter, proposal_id, now) {
                Some(e) => r == Err::<(), _>(e) && final(self)@ == old(self)@,
                None => r is Ok && final(self)@ == old(self)@.with_vote(voter, proposal_id, vote),
            },
            r is Ok ==> {
                let (p, q) = (
                    old(self)@.proposals[proposal_id],
                    final(self)@.proposals[proposal_id],
                );
                let power = old(self)@.power(voter);
                &&& p.start_ledger <= now <= p.end_ledger
                &&& power > 0
                &&& q.for_votes - p.for_votes == (if vote is For {
                    power as int
                } else {
                    0
                })
                &&& q.against_votes - p.against_votes == (if vote is Against {
                    power as int
                } else {
                    0
                })
                &&& q.abstain_votes - p.abstain_votes == (if vote is Abstain {
                    power as int
                } else {
                    0
                })
            },
            final(self)@.wf(),
    {
        let ghost st = self@;
        let (start, end): (u32, u32) = match self.proposals.get(&proposal_id) {
            Some(p) => (p.start_ledger, p.end_ledger),
            None => {
                return Err(GovernanceError::ProposalNotFound);
            },
        };
        if now < start || now > end {
            return Err(GovernanceError::ProposalNotActive);
        }
        let key = VoteKey { proposal_id, voter };
        if self.voted.contains(&key) {
            return Err(GovernanceError::AlreadyVoted);
        }
        let power: i128 = self.get_voting_power(voter);
        if power <= 0 {
            return Err(GovernanceError::InsufficientVotingPower);
        }
        let mut proposal = self.proposals.remove(&proposal_id).unwrap();
        match vote {
            VoteType::For => {
                proposal.for_votes = proposal.for_votes + power;
            },
            VoteType::Against => {
                proposal.against_votes = proposal.against_votes + power;
            },
            VoteType::Abstain => {
                proposal.abstain_votes = proposal.abstain_votes + power;
            },
        }
        proposal.status = ProposalStatus::Active;
        self.voted.insert(key, true);
        self.proposals.insert(proposal_id, proposal);
        assert(self@.proposals =~= st.with_vote(voter, proposal_id, vote).proposals);
        Ok(())
    }

    /// Queues a proposal that has passed, at ledger `now`. One that has not is marked as
    /// defeated, and the call fails; the host keeps nothing of a call that fails.
    pub fn queue_proposal(&mut self, proposal_id: u32, now: u32) -> (r: Result<(), GovernanceError>)
        requires
            old(self)@.wf(),
            old(self)@.proposals.contains_key(proposal_id) && now
                > old(self)@.proposals[proposal_id].end_ledger ==> {
                let p = old(self)@.proposals[proposal_id];
                &&& votes_cast(p) <= i128::MAX
                &&& old(self)@.total() > 0 ==> votes_cast(p) * 10_000 <= i128::MAX
                &&& p.for_votes * 10_000 <= i128::MAX
            },
        ensures
            ({
                let st = old(self)@;
                let p = st.proposals[proposal_id];
                if !st.proposals.contains_key(proposal_id) {
                    r == Err::<(), _>(GovernanceError::ProposalNotFound) && final(self)@ == st
                } else if now <= p.end_ledger {
                    r == Err::<(), _>(GovernanceError::VotingNotEnded) && final(self)@ == st
                } else {
                    match defeat(p, st.total() as int, st.config->0) {
                        Some(e) => r == Err::<(), _>(e) && final(self)@ == st.with_proposal(
                            proposal_id,
                            (Proposal { status: ProposalStatus::Defeated, ..p }),
                        ),
                        None => r is Ok && final(self)@ == st.with_proposal(
                            proposal_id,
                            (Proposal {
                                status: ProposalStatus::Queued,
                                execution_after_ledger: ledger_after(
                                    now,
                                    (st.config->0).timelock_delay_ledgers,
                                ),
                                ..p
                            }),
                        ),
                    }
                }
            }),
            r is Ok ==> {
                let (p, q) = (
                    old(self)@.proposals[proposal_id],
                    final(self)@.proposals[proposal_id],
                );
                let config = old(self)@.config->0;
                let decisive = p.for_votes + p.against_votes;
                &&& p.end_ledger < now
                &&& p.for_votes * 10_000 >= (config.approval_threshold_bps + 1) * decisive
                &&& decisive > 0
                &&& (decisive + p.abstain_votes) * 10_000 >= config.quorum_bps * old(self)@.total()
                &&& q.status is Queued
                &&& now + config.timelock_delay_ledgers <= u32::MAX ==> q.execution_after_ledger
                    == now + config.timelock_delay_ledgers
            },
            old(self)@.proposals.contains_key(proposal_id) && now
                > old(self)@.proposals[proposal_id].end_ledger && r is Err
                ==> final(self)@.proposals[proposal_id].status is Defeated,
            final(self)@.wf(),
    {
        proof {
            if self@.proposals.contains_key(proposal_id) {
                lemma_total_nonneg(self@.staked);
                passing_needs_turnout_and_approval(
                    self@.proposals[proposal_id],
                    self@.total() as int,
                    self@.config->0,
                );
            }
        }
        let ghost st = self@;
        let end: u32 = match self.proposals.get(&proposal_id) {
            Some(p) => p.end_ledger,
            None => {
                return Err(GovernanceError::ProposalNotFound);
            },
        };
        if now <= end {
            return Err(GovernanceError::VotingNotEnded);
        }
        let config = self.config.unwrap();
        let total_staked: i128 = self.get_total_staked();
        let mut proposal = self.proposals.remove(&proposal_id).unwrap();
        let ghost p = proposal;
        let total_votes: i128 = proposal.for_votes + proposal.against_votes
            + proposal.abstain_votes;
        let decisive_votes: i128 = proposal.for_votes + proposal.against_votes;
        let mut refused: Option<GovernanceError> = None;
        if total_staked > 0 && (total_votes * BPS_SCALE) / total_staked < (
        config.quorum_bps as i128) {
            refused = Some(GovernanceError::QuorumNotMet);
        } else if decisive_votes == 0 {
            refused = Some(GovernanceError::ProposalNotPassed);
        } else if (proposal.for_votes * BPS_SCALE) / decisive_votes <= (
        config.approval_threshold_bps as i128) {
            refused = Some(GovernanceError::ProposalNotPassed);
        }
        assert(refused == defeat(p, st.total() as int, st.config->0));
        match refused {
            Some(e) => {
                proposal.status = ProposalStatus::Defeated;
                self.proposals.insert(proposal_id, proposal);
                assert(self@.proposals =~= st.proposals.insert(proposal_id, proposal));
                Err(e)
            },
            None => {
                proposal.status = ProposalStatus::Queued;
                proposal.execution_after_ledger = now.saturating_add(config.timelock_delay_ledgers);
                self.proposals.insert(proposal_id, proposal);
                assert(self@.proposals =~= st.proposals.insert(proposal_id, proposal));
                Ok(())
            },
        }
    }

    /// Executes a queued proposal whose timelock has elapsed at ledger `now`.
    pub fn execute_proposal(&mut self, proposal_id: u32, now: u32) -> (r: Result<
        (),
        GovernanceError,
    >)
        requires
            old(self)@.wf(),
        ensures
            match old(self)@.execution_refusal(proposal_id, now) {
                Some(e) => r == Err::<(), _>(e) && final(self)@ == old(self)@,
                None => r is Ok && final(self)@ == old(self)@.executed(proposal_id),
            },
            final(self)@.wf(),
    {
        let ghost st = self@;
        match self.proposals.get(&proposal_id) {
            Some(p) => {
                if p.status != ProposalStatus::Queued {
                    return Err(GovernanceError::InvalidStatus);
                }
                if now < p.execution_after_ledger {
                    return Err(GovernanceError::TimelockNotElapsed);
                }
            },
            None => {
                return Err(GovernanceError::ProposalNotFound);
            },
        }
        let mut proposal = self.proposals.remove(&proposal_id).unwrap();
        let mut params = self.params.unwrap();
        match &proposal.action {
            ProposalAction::SetRakePercentage(p) => {
                params.default_rake_bps = p.default_rake_bps;
                params.max_rake_bps = p.max_rake_bps;
            },
            ProposalAction::SetCommitteeRewards(p) => {
                params.committee_min_stake = p.min_stake;
                params.committee_reward_rate_bps = p.reward_rate_bps;
                params.committee_slash_penalty_bps = p.slash_penalty_bps;
            },
            ProposalAction::ProposeCircuitUpgrade(p) => {
                params.circuit_verifier = p.new_verifier;
                params.circuit_hash = p.new_circuit_hash;
            },
            ProposalAction::SetTableConfigLimits(p) => {
                params.table_min_buy_in_floor = p.min_buy_in_floor;
                params.table_max_players_limit = p.max_players_limit;
                params.table_min_timeout_seconds = p.min_action_timeout_seconds;
                params.table_max_rebuys_limit = p.max_rebuys_limit;
            },
        }
        self.params = Some(params);
        proposal.status = ProposalStatus::Executed;
        self.proposals.insert(proposal_id, proposal);
        assert(self@.proposals =~= st.executed(proposal_id).proposals);
        Ok(())
    }

    /// The parameters in force.
    pub fn get_active_params(&self) -> (r: Result<ActiveProtocolParams, GovernanceError>)
        ensures
            r == (match self@.params {
                Some(p) => Ok(p),
                None => Err(GovernanceError::NotInitialized),
            }),
    {
        match self.params {
            Some(p) => Ok(p),
            None => Err(GovernanceError::NotInitialized),
        }
    }

    /// A proposal.
    pub fn get_proposal(&self, proposal_id: u32) -> (r: Result<&Proposal, GovernanceError>)
        ensures
            match r {
                Ok(p) => self@.proposals.contains_key(proposal_id) && *p
                    == self@.proposals[proposal_id],
                Err(e) => e == GovernanceError::ProposalNotFound && !self@.proposals.contains_key(
                    proposal_id,
                ),
            },
    {
        match self.proposals.get(&proposal_id) {
            Some(p) => Ok(p),
            None => Err(GovernanceError::ProposalNotFound),
        }
    }

    /// Whether an account has voted on a proposal.
    pub fn has_voted(&self, proposal_id: u32, account: Address) -> (r: bool)
        ensures
            r == self@.voted.contains_key(VoteKey { proposal_id, voter: account }),
    {
        self.voted.contains(&VoteKey { proposal_id, voter: account })
    }
}

/// Unstaking what was just staked brings the stake and the total back.
pub proof fn unstake_undoes_stake(st: GovernanceState, account: Address, amount: i128)
    requires
        st.wf(),
        st.admin is Some,
        amount > 0,
        st.total() + amount <= i128::MAX,
    ensures
        ({
            let mid = st.with_stake(
                account,
                (st.power(account) + amount) as i128,
                (st.total() + amount) as i128,
            );
            let end = mid.with_stake(
                account,
                (mid.power(account) - amount) as i128,
                (mid.total() - amount) as i128,
            );
            end.power(account) == st.power(account) && end.total() == st.total() && end.staked
                =~= st.staked
        }),
{
    stake_within_total(st, account);
}

/// An account votes at most once on a proposal: after its vote any other is refused.
pub proof fn one_vote_each(
    st: GovernanceState,
    voter: Address,
    id: u32,
    vote: VoteType,
    now: u32,
    later: u32,
)
    requires
        st.vote_refusal(voter, id, now) is None,
    ensures
        st.with_vote(voter, id, vote).vote_refusal(voter, id, later) is Some,
{
}

/// A vote adds the voter's stake to exactly one count.
pub proof fn vote_counts_stake(p: Proposal, vote: VoteType, power: i128)
    requires
        p.for_votes >= 0,
        p.against_votes >= 0,
        p.abstain_votes >= 0,
        power > 0,
        votes_of(p, vote) + power <= i128::MAX,
    ensures
        votes_of(with_vote(p, vote, power), vote) == votes_of(p, vote) + power,
        votes_cast(with_vote(p, vote, power)) == votes_cast(p) + power,
{
}

/// Nothing takes effect before it has passed and its timelock has run: a proposal queued at
/// ledger `now` cannot be executed earlier than the delay after it.
pub proof fn timelock_holds(st: GovernanceState, id: u32, p: Proposal, now: u32, delay: u32, at: u32)
    requires
        p.status == ProposalStatus::Queued,
        p.execution_after_ledger == ledger_after(now, delay),
        at < ledger_after(now, delay),
    ensures
        st.with_proposal(id, p).execution_refusal(id, at) == Some(
            GovernanceError::TimelockNotElapsed,
        ),
{
}

/// An executed proposal cannot be executed again until it is queued again.
pub proof fn executed_needs_queueing(st: GovernanceState, id: u32, at: u32)
    ensures
        st.executed(id).execution_refusal(id, at) == Some(GovernanceError::InvalidStatus),
{
}

/// What it takes to pass: of the stake at least the quorum votes, somebody votes for or against, and
/// the votes for are more than the threshold of those for and against, in basis points with
/// fractions dropped. A proposal that does all this passes, and one that fails any of it does not.
pub proof fn passing_needs_turnout_and_approval(
    p: Proposal,
    total_staked: int,
    config: GovernanceConfig,
)
    requires
        p.for_votes >= 0,
        p.against_votes >= 0,
        p.abstain_votes >= 0,
        total_staked >= 0,
    ensures
        ({
            let decisive = p.for_votes + p.against_votes;
            let turnout = decisive + p.abstain_votes;
            let quorum = turnout * 10_000 >= config.quorum_bps * total_staked;
            let approved = decisive > 0 && p.for_votes * 10_000 >= (config.approval_threshold_bps
                + 1) * decisive;
            &&& defeat(p, total_staked, config) is None <==> quorum && approved
            &&& defeat(p, total_staked, config) == Some(GovernanceError::QuorumNotMet)
                <==> !quorum
            &&& defeat(p, total_staked, config) == Some(GovernanceError::ProposalNotPassed)
                <==> quorum && !approved
            &&& defeat(p, total_staked, config) is None && config.approval_threshold_bps >= 5_000
                ==> p.for_votes > p.against_votes
            &&& defeat(p, total_staked, config) is None ==> p.for_votes * 10_000 / decisive
                > config.approval_threshold_bps
        }),
{
    let decisive = p.for_votes + p.against_votes;
    let turnout = decisive + p.abstain_votes;
    let (q, t) = (config.quorum_bps as int, config.approval_threshold_bps as int);
    if total_staked > 0 {
        let x = turnout * 10_000 / total_staked;
        assert(x >= q <==> turnout * 10_000 >= q * total_staked) by (nonlinear_arith)
            requires
                x == turnout * 10_000 / total_staked,
                total_staked > 0,
        ;
    } else {
        assert(q * total_staked == 0) by (nonlinear_arith)
            requires
                total_staked == 0,
        ;
    }
    if decisive > 0 {
        let y = p.for_votes * 10_000 / decisive;
        assert(y > t <==> p.for_votes * 10_000 >= (t + 1) * decisive) by (nonlinear_arith)
            requires
                y == p.for_votes * 10_000 / decisive,
                decisive > 0,
        ;
        if p.for_votes * 10_000 >= (t + 1) * decisive && t >= 5_000 {
            assert(p.for_votes > p.against_votes) by (nonlinear_arith)
                requires
                    p.for_votes * 10_000 >= (t + 1) * decisive,
                    t >= 5_000,
                    decisive == p.for_votes + p.against_votes,
                    decisive > 0,
            ;
        }
    }
}

/// More votes for a proposal that passes do not defeat it, fewer votes against neither as long as
/// the quorum is kept, and it fails where everyone who decides is against.
pub proof fn support_does_not_hurt(
    p: Proposal,
    better: Proposal,
    total_staked: int,
    config: GovernanceConfig,
)
    requires
        p.for_votes >= 0,
        p.against_votes >= 0,
        p.abstain_votes >= 0,
        total_staked >= 0,
        better.for_votes >= p.for_votes,
        0 <= better.against_votes <= p.against_votes,
        better.abstain_votes >= 0,
        better.for_votes + better.against_votes + better.abstain_votes >= p.for_votes
            + p.against_votes + p.abstain_votes,
        config.approval_threshold_bps <= 10_000,
    ensures
        defeat(p, total_staked, config) is None ==> defeat(better, total_staked, config) is None,
        p.for_votes == 0 ==> defeat(p, total_staked, config) is Some,
{
    passing_needs_turnout_and_approval(p, total_staked, config);
    passing_needs_turnout_and_approval(better, total_staked, config);
    let t = config.approval_threshold_bps + 1;
    if defeat(p, total_staked, config) is None {
        let (f, a) = (p.for_votes as int, p.against_votes as int);
        let (g, b) = (better.for_votes as int, better.against_votes as int);
        assert(f * 10_000 >= t * (f + a));
        assert(g * 10_000 >= t * (g + b)) by (nonlinear_arith)
            requires
                f * 10_000 >= t * (f + a),
                0 <= f <= g,
                0 <= b <= a,
                0 < t <= 10_001,
                f + a > 0,
        ;
    }
    if p.for_votes == 0 {
        let d = p.for_votes + p.against_votes;
        assert(d > 0 ==> 0 < t * d) by (nonlinear_arith)
            requires
                t > 0,
        ;
    }
}

/// A vote counts on its own side, with the stake of the voter, and on no other; and it leaves what
/// is proposed, when voting ends and who proposed it as they are.
pub proof fn votes_count_on_their_side(p: Proposal, vote: VoteType, power: i128)
    requires
        0 <= power,
        votes_of(p, vote) + power <= i128::MAX,
        p.for_votes >= 0,
        p.against_votes >= 0,
        p.abstain_votes >= 0,
    ensures
        ({
            let q = with_vote(p, vote, power);
            &&& vote is For ==> q.for_votes == p.for_votes + power && q.against_votes
                == p.against_votes && q.abstain_votes == p.abstain_votes
            &&& vote is Against ==> q.against_votes == p.against_votes + power && q.for_votes
                == p.for_votes && q.abstain_votes == p.abstain_votes
            &&& vote is Abstain ==> q.abstain_votes == p.abstain_votes + power && q.for_votes
                == p.for_votes && q.against_votes == p.against_votes
            &&& q.status is Active
            &&& q.action == p.action && q.proposer == p.proposer && q.start_ledger
                == p.start_ledger && q.end_ledger == p.end_ledger && q.id == p.id
        }),
{
}

/// Votes are cast from the first ledger of the voting to the last, both among them, once by each
/// account that has a stake; and every such vote is taken. A vote touches one proposal and no stake.
pub proof fn voting_is_open_to_stakers(
    st: GovernanceState,
    voter: Address,
    id: u32,
    other: u32,
    vote: VoteType,
    now: u32,
)
    requires
        other != id,
    ensures
        st.vote_refusal(voter, id, now) is None <==> {
            &&& st.proposals.contains_key(id)
            &&& st.proposals[id].start_ledger <= now <= st.proposals[id].end_ledger
            &&& !st.voted.contains_key(VoteKey { proposal_id: id, voter })
            &&& st.staked.contains_key(voter) && st.staked[voter] > 0
        },
        ({
            let n = st.with_vote(voter, id, vote);
            &&& n.voted.contains_key(VoteKey { proposal_id: id, voter })
            &&& n.staked == st.staked && n.total_staked == st.total_staked && n.params == st.params
                && n.config == st.config
            &&& n.proposals.contains_key(other) == st.proposals.contains_key(other)
            &&& n.proposals[other] == st.proposals[other]
        }),
{
}

/// Executing a proposal sets the parameters that it names to what it proposes, and leaves all others
/// as they are.
pub proof fn proposals_change_what_they_name(params: ActiveProtocolParams, action: ProposalAction)
    ensures
        ({
            let n = applied(params, action);
            &&& match action {
                ProposalAction::SetRakePercentage(p) => n.default_rake_bps == p.default_rake_bps
                    && n.max_rake_bps == p.max_rake_bps,
                _ => n.default_rake_bps == params.default_rake_bps && n.max_rake_bps
                    == params.max_rake_bps,
            }
            &&& match action {
                ProposalAction::SetCommitteeRewards(p) => n.committee_min_stake == p.min_stake
                    && n.committee_reward_rate_bps == p.reward_rate_bps
                    && n.committee_slash_penalty_bps == p.slash_penalty_bps,
                _ => n.committee_min_stake == params.committee_min_stake
                    && n.committee_reward_rate_bps == params.committee_reward_rate_bps
                    && n.committee_slash_penalty_bps == params.committee_slash_penalty_bps,
            }
            &&& match action {
                ProposalAction::ProposeCircuitUpgrade(p) => n.circuit_verifier == p.new_verifier
                    && n.circuit_hash == p.new_circuit_hash,
                _ => n.circuit_verifier == params.circuit_verifier && n.circuit_hash
                    == params.circuit_hash,
            }
            &&& match action {
                ProposalAction::SetTableConfigLimits(p) => n.table_min_buy_in_floor
                    == p.min_buy_in_floor && n.table_max_players_limit == p.max_players_limit
                    && n.table_min_timeout_seconds == p.min_action_timeout_seconds
                    && n.table_max_rebuys_limit == p.max_rebuys_limit,
                _ => n.table_min_buy_in_floor == params.table_min_buy_in_floor
                    && n.table_max_players_limit == params.table_max_players_limit
                    && n.table_min_timeout_seconds == params.table_min_timeout_seconds
                    && n.table_max_rebuys_limit == params.table_max_rebuys_limit,
            }
        }),
{
}

/// A proposal is executed once it is queued and its timelock is over, and never again; execution
/// leaves every stake and every other proposal alone.
pub proof fn execution_waits_for_the_timelock(st: GovernanceState, id: u32, other: u32, now: u32)
    requires
        other != id,
    ensures
        st.execution_refusal(id, now) is None <==> st.proposals.contains_key(id)
            && st.proposals[id].status is Queued && now >= st.proposals[id].execution_after_ledger,
        ({
            let n = st.executed(id);
            &&& n.execution_refusal(id, now) is Some
            &&& n.proposals[id].status is Executed
            &&& n.staked == st.staked && n.total_staked == st.total_staked && n.config == st.config
            &&& n.proposals.contains_key(other) == st.proposals.contains_key(other)
            &&& n.proposals[other] == st.proposals[other]
        }),
{
}

/// A delay lasts at least as many ledgers as it says, unless there are no more ledgers.
pub proof fn delays_last(at: u32, delay: u32)
    ensures
        at + delay <= u32::MAX ==> ledger_after(at, delay) == at + delay,
        at + delay > u32::MAX ==> ledger_after(at, delay) == u32::MAX,
{
}

/// Setting one account's stake leaves every other account's as it is, and the proposals and the
/// parameters too.
pub proof fn stakes_are_separate(
    st: GovernanceState,
    account: Address,
    amount: i128,
    total: i128,
    other: Address,
)
    requires
        other != account,
        amount >= 0,
    ensures
        ({
            let n = st.with_stake(account, amount, total);
            &&& n.power(account) == amount
            &&& n.power(other) == st.power(other)
            &&& n.total() == total
            &&& n.proposals == st.proposals && n.params == st.params && n.config == st.config
                && n.voted == st.voted && n.admin == st.admin && n.token == st.token
        }),
{
}

/// A vote that cannot be cast is refused for a reason.
pub proof fn votes_are_refused_for_a_reason(
    st: GovernanceState,
    voter: Address,
    id: u32,
    now: u32,
)
    ensures
        ({
            let r = st.vote_refusal(voter, id, now);
            &&& r == Some(GovernanceError::ProposalNotFound) ==> !st.proposals.contains_key(id)
            &&& r == Some(GovernanceError::ProposalNotActive)
                ==> now < st.proposals[id].start_ledger || now
                > st.proposals[id].end_ledger
            &&& r == Some(GovernanceError::AlreadyVoted)
                ==> st.voted.contains_key(VoteKey { proposal_id: id, voter })
            &&& r == Some(GovernanceError::InsufficientVotingPower)
                ==> !st.staked.contains_key(voter) || st.staked[voter] <= 0
        }),
{
}

/// A proposal that cannot be executed is refused for a reason.
pub proof fn executions_are_refused_for_a_reason(
    st: GovernanceState,
    id: u32,
    now: u32,
)
    ensures
        ({
            let r = st.execution_refusal(id, now);
            &&& r == Some(GovernanceError::ProposalNotFound) ==> !st.proposals.contains_key(id)
            &&& r == Some(GovernanceError::InvalidStatus) ==> !(st.proposals[id].status is Queued)
            &&& r == Some(GovernanceError::TimelockNotElapsed)
                ==> now < st.proposals[id].execution_after_ledger
        }),
{
}

} // verus!
