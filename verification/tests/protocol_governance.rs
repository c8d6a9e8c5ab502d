use stellar_poker::host::{Address, Bytes32, Party};
use stellar_poker::protocol_governance::{
    ActiveProtocolParams, CommitteePayload, GovernanceConfig, GovernanceError, ProposalAction,
    ProposalStatus, ProtocolGovernanceContract, RakePayload, TableLimitsPayload, VoteType,
};

fn account(n: u64) -> Address {
    Address::Account(Bytes32 { w0: n, w1: 1, w2: 2, w3: 3 })
}

const TOKEN: Address = Address::Contract(Bytes32 { w0: 77, w1: 0, w2: 0, w3: 0 });

fn default_params(verifier: Address) -> ActiveProtocolParams {
    ActiveProtocolParams {
        default_rake_bps: 250,
        max_rake_bps: 500,
        committee_min_stake: 10_000,
        committee_reward_rate_bps: 300,
        committee_slash_penalty_bps: 2000,
        circuit_verifier: verifier,
        circuit_hash: Bytes32::splat(0),
        table_min_buy_in_floor: 10,
        table_max_players_limit: 6,
        table_min_timeout_seconds: 15,
        table_max_rebuys_limit: 5,
    }
}

fn default_config() -> GovernanceConfig {
    GovernanceConfig {
        proposal_threshold: 1000,
        voting_delay_ledgers: 5,
        voting_period_ledgers: 20,
        timelock_delay_ledgers: 10,
        quorum_bps: 400,
        approval_threshold_bps: 5000,
    }
}

fn contract() -> ProtocolGovernanceContract {
    let mut c = ProtocolGovernanceContract::new();
    c.initialize(account(1), TOKEN, default_config(), default_params(account(9))).unwrap();
    c
}

fn rake(default_rake_bps: u32, max_rake_bps: u32) -> ProposalAction {
    ProposalAction::SetRakePercentage(RakePayload { default_rake_bps, max_rake_bps })
}

#[test]
fn test_stake_unstake_and_proposal_flow() {
    let (voter1, voter2) = (account(2), account(3));
    let mut c = contract();
    c.stake(voter1, 5000).unwrap();
    c.stake(voter2, 3000).unwrap();
    assert_eq!(c.get_voting_power(voter1), 5000);
    assert_eq!(c.get_voting_power(voter2), 3000);
    assert_eq!(c.get_total_staked(), 8000);

    let p_id = c
        .propose(
            voter1,
            rake(200, 400),
            String::from("Lower Protocol Rake"),
            String::from("Reduce rake to 2.0% to attract volume"),
            100,
        )
        .unwrap();
    assert_eq!(p_id, 1);

    c.cast_vote(voter1, 1, VoteType::For, 106).unwrap();
    c.cast_vote(voter2, 1, VoteType::Against, 106).unwrap();
    let prop = c.get_proposal(1).unwrap();
    assert_eq!(prop.for_votes, 5000);
    assert_eq!(prop.against_votes, 3000);

    c.queue_proposal(1, 126).unwrap();
    let queued = c.get_proposal(1).unwrap();
    assert_eq!(queued.status, ProposalStatus::Queued);
    assert_eq!(queued.execution_after_ledger, 126 + 10);

    c.execute_proposal(1, 137).unwrap();
    let updated_params = c.get_active_params().unwrap();
    assert_eq!(updated_params.default_rake_bps, 200);
    assert_eq!(updated_params.max_rake_bps, 400);

    let transfer = c.unstake(voter1, 2000).unwrap();
    assert_eq!(transfer.amount, 2000);
    assert_eq!(transfer.to, Party::Wallet(voter1));
    assert_eq!(c.get_voting_power(voter1), 3000);
    assert_eq!(c.get_total_staked(), 6000);
}

#[test]
fn test_insufficient_voting_power_rejected() {
    let small_holder = account(2);
    let mut c = contract();
    c.stake(small_holder, 500).unwrap();
    let r = c.propose(
        small_holder,
        rake(150, 300),
        String::from("Rake Reduction"),
        String::from("Desc"),
        0,
    );
    assert!(r.is_err());
    assert_eq!(r, Err(GovernanceError::InsufficientVotingPower));
}

#[test]
fn test_committee_and_circuit_and_table_limits_proposals() {
    let voter = account(2);
    let mut c = contract();
    c.stake(voter, 50_000).unwrap();

    let comm_action = ProposalAction::SetCommitteeRewards(CommitteePayload {
        min_stake: 20_000,
        reward_rate_bps: 450,
        slash_penalty_bps: 3000,
    });
    let p1 = c
        .propose(voter, comm_action, String::from("Committee"), String::from("D"), 200)
        .unwrap();
    c.cast_vote(voter, p1, VoteType::For, 206).unwrap();
    c.queue_proposal(p1, 226).unwrap();
    c.execute_proposal(p1, 237).unwrap();
    let params1 = c.get_active_params().unwrap();
    assert_eq!(params1.committee_min_stake, 20_000);
    assert_eq!(params1.committee_reward_rate_bps, 450);

    let table_action = ProposalAction::SetTableConfigLimits(TableLimitsPayload {
        min_buy_in_floor: 50,
        max_players_limit: 6,
        min_action_timeout_seconds: 20,
        max_rebuys_limit: 10,
    });
    let p2 = c
        .propose(voter, table_action, String::from("Table Limits"), String::from("D"), 300)
        .unwrap();
    c.cast_vote(voter, p2, VoteType::For, 306).unwrap();
    c.queue_proposal(p2, 326).unwrap();
    c.execute_proposal(p2, 337).unwrap();
    let params2 = c.get_active_params().unwrap();
    assert_eq!(params2.table_min_buy_in_floor, 50);
    assert_eq!(params2.table_max_rebuys_limit, 10);
}

#[test]
fn votes_count_once_and_in_time() {
    let voter = account(2);
    let mut c = contract();
    c.stake(voter, 2000).unwrap();
    let id = c
        .propose(voter, rake(100, 200), String::from("t"), String::from("d"), 10)
        .unwrap();
    assert_eq!(
        c.cast_vote(voter, id, VoteType::For, 14),
        Err(GovernanceError::ProposalNotActive)
    );
    c.cast_vote(voter, id, VoteType::Abstain, 15).unwrap();
    assert!(c.has_voted(id, voter));
    assert_eq!(
        c.cast_vote(voter, id, VoteType::For, 16),
        Err(GovernanceError::AlreadyVoted)
    );
    assert_eq!(c.queue_proposal(id, 20), Err(GovernanceError::VotingNotEnded));
    assert_eq!(c.cast_vote(voter, 99, VoteType::For, 16), Err(GovernanceError::ProposalNotFound));
}

#[test]
fn execution_waits_for_the_timelock() {
    let voter = account(2);
    let mut c = contract();
    c.stake(voter, 2000).unwrap();
    let id = c
        .propose(voter, rake(100, 200), String::from("t"), String::from("d"), 0)
        .unwrap();
    c.cast_vote(voter, id, VoteType::For, 6).unwrap();
    assert!(c.execute_proposal(id, 30).is_err());
    c.queue_proposal(id, 30).unwrap();
    assert_eq!(c.execute_proposal(id, 39), Err(GovernanceError::TimelockNotElapsed));
    c.execute_proposal(id, 40).unwrap();
    assert_eq!(c.execute_proposal(id, 41), Err(GovernanceError::InvalidStatus));
}

#[test]
fn defeated_proposals_stay_defeated() {
    let voter = account(2);
    let mut c = contract();
    c.stake(voter, 2000).unwrap();
    let id = c
        .propose(voter, rake(100, 200), String::from("t"), String::from("d"), 0)
        .unwrap();
    c.cast_vote(voter, id, VoteType::Against, 6).unwrap();
    assert_eq!(c.queue_proposal(id, 30), Err(GovernanceError::ProposalNotPassed));
    assert_eq!(c.get_proposal(id).unwrap().status, ProposalStatus::Defeated);
}

#[test]
fn stakes_are_checked() {
    let voter = account(2);
    let mut c = contract();
    assert_eq!(c.stake(voter, 0), Err(GovernanceError::InvalidAmount));
    c.stake(voter, 10).unwrap();
    assert!(c.unstake(voter, 11).is_err());
    assert_eq!(
        c.initialize(account(1), TOKEN, default_config(), default_params(account(9))),
        Err(GovernanceError::AlreadyInitialized)
    );
}
