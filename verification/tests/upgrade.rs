use soroban_sdk::testutils::EnvTestConfig;
use soroban_sdk::Env;
use stellar_poker::host::{Address, Bytes32};
use stellar_poker::poker_table::contract::PokerTableContract;
use stellar_poker::poker_table::types::{
    BettingStructure, BlindsSchedule, PokerTableError, TableConfig,
};

const ADMIN: Address = Address::Account(Bytes32 { w0: 2, w1: 2, w2: 2, w3: 2 });

fn account(n: u64) -> Address {
    Address::Account(Bytes32 { w0: n, w1: 8, w2: 8, w3: 8 })
}

fn setup() -> (PokerTableContract, u32) {
    let mut c = PokerTableContract::new();
    let config = TableConfig {
        token: ADMIN,
        min_buy_in: 100,
        max_buy_in: 1000,
        betting_structure: BettingStructure::NoLimit,
        blinds_schedule: BlindsSchedule::fixed(5, 10),
        min_players: 2,
        max_players: 6,
        timeout_ledgers: 100,
        committee: ADMIN,
        verifier: ADMIN,
        game_hub: ADMIN,
        rake_bps: 0,
        max_rebuys: 0,
        jackpot_rake_share_bps: 0,
        min_bad_beat_category: 7,
        min_bad_beat_rank: 12,
        street_time_limit: None,
        treasury: None,
        dead_chip_timeout_ledgers: 0,
        reclaim_period_ledgers: 0,
    };
    let id = c.create_table(ADMIN, config, 0, 0).unwrap();
    (c, id)
}

fn fake_hash(seed: u8) -> Bytes32 {
    Bytes32::splat(u64::from_be_bytes([seed; 8]))
}

#[test]
fn propose_upgrade_rejects_delay_below_minimum() {
    let (mut c, id) = setup();
    assert_eq!(
        c.propose_upgrade(id, fake_hash(7), 86_399, 0),
        Err(PokerTableError::UpgradeDelayTooShort)
    );
}

#[test]
fn execute_upgrade_rejects_without_proposal() {
    let (mut c, id) = setup();
    assert_eq!(c.execute_upgrade(id, 0), Err(PokerTableError::NoUpgradeProposal));
}

#[test]
fn cancel_upgrade_rejects_without_proposal() {
    let (mut c, id) = setup();
    assert_eq!(c.cancel_upgrade(id), Err(PokerTableError::NoUpgradeProposal));
}

#[test]
fn execute_upgrade_rejects_before_delay_elapses() {
    let (mut c, id) = setup();
    c.propose_upgrade(id, fake_hash(7), 86_400, 0).unwrap();
    assert_eq!(c.execute_upgrade(id, 0), Err(PokerTableError::UpgradeDelayNotElapsed));
}

#[test]
fn execute_upgrade_rejects_right_up_until_the_delay_boundary() {
    let (mut c, id) = setup();
    c.propose_upgrade(id, fake_hash(7), 86_400, 0).unwrap();
    assert!(c.execute_upgrade(id, 86_399).is_err());
    assert_eq!(c.execute_upgrade(id, 86_400), Ok(fake_hash(7)));
}

#[test]
fn propose_then_cancel_clears_the_pending_proposal() {
    let (mut c, id) = setup();
    c.propose_upgrade(id, fake_hash(3), 90_000, 0).unwrap();
    let proposal = c.get_upgrade_proposal(id).unwrap();
    assert_eq!(proposal.new_wasm_hash, fake_hash(3));
    assert_eq!(proposal.execute_after, 90_000);
    c.cancel_upgrade(id).unwrap();
    assert_eq!(c.get_upgrade_proposal(id), None);
}

#[test]
fn a_new_proposal_replaces_the_previous_one() {
    let (mut c, id) = setup();
    c.propose_upgrade(id, fake_hash(1), 90_000, 0).unwrap();
    c.propose_upgrade(id, fake_hash(2), 100_000, 0).unwrap();
    let proposal = c.get_upgrade_proposal(id).unwrap();
    assert_eq!(proposal.new_wasm_hash, fake_hash(2));
    assert_eq!(proposal.execute_after, 100_000);
}

#[test]
fn get_upgrade_proposal_is_none_when_nothing_pending() {
    let (c, id) = setup();
    assert_eq!(c.get_upgrade_proposal(id), None);
}

fn propose_and_execute(c: &mut PokerTableContract, id: u32, hash: Bytes32) {
    c.propose_upgrade(id, hash, 86_400, 0).unwrap();
    c.execute_upgrade(id, 86_400).unwrap();
}

fn two_upgrades() -> (PokerTableContract, u32) {
    let (mut c, id) = setup();
    propose_and_execute(&mut c, id, fake_hash(1));
    c.propose_upgrade(id, fake_hash(2), 86_400, 86_400).unwrap();
    c.execute_upgrade(id, 86_400 + 86_400).unwrap();
    (c, id)
}

#[test]
fn revert_rejects_when_no_upgrade_has_ever_executed() {
    let (mut c, id) = setup();
    assert_eq!(c.revert_last_upgrade(id, 0), Err(PokerTableError::NoUpgradeToRevert));
}

#[test]
fn revert_rejects_after_the_first_ever_executed_upgrade() {
    let (mut c, id) = setup();
    propose_and_execute(&mut c, id, fake_hash(1));
    assert_eq!(c.revert_last_upgrade(id, 86_400), Err(PokerTableError::NoUpgradeToRevert));
}

#[test]
fn revert_restores_the_hash_from_before_the_most_recent_upgrade() {
    let (mut c, id) = two_upgrades();
    let record = c.get_last_upgrade(id).unwrap();
    assert_eq!(record.new_wasm_hash, fake_hash(2));
    assert_eq!(record.previous_wasm_hash, Some(fake_hash(1)));
    assert_eq!(c.revert_last_upgrade(id, 86_400 + 86_400), Ok(fake_hash(1)));
    assert_eq!(c.get_last_upgrade(id), None);
}

#[test]
fn reverting_twice_in_a_row_fails_the_second_time() {
    let (mut c, id) = two_upgrades();
    c.revert_last_upgrade(id, 86_400 + 86_400).unwrap();
    assert_eq!(
        c.revert_last_upgrade(id, 86_400 + 86_400),
        Err(PokerTableError::NoUpgradeToRevert)
    );
}

#[test]
fn revert_succeeds_right_up_until_the_rollback_window_boundary() {
    let (mut c, id) = two_upgrades();
    c.revert_last_upgrade(id, 86_400 + 86_400 + 21_600).unwrap();
    assert_eq!(c.get_last_upgrade(id), None);
}

#[test]
fn revert_rejects_once_the_rollback_window_has_passed() {
    let (mut c, id) = two_upgrades();
    assert_eq!(
        c.revert_last_upgrade(id, 86_400 + 86_400 + 21_600 + 1),
        Err(PokerTableError::RollbackWindowExpired)
    );
}

#[test]
fn get_last_upgrade_is_none_when_no_upgrade_has_executed() {
    let (c, id) = setup();
    assert_eq!(c.get_last_upgrade(id), None);
}

#[test]
fn signers_approve_an_upgrade_and_it_waits() {
    let env = Env::new_with_config(EnvTestConfig { capture_snapshot_at_drop: false });
    let (mut c, id) = setup();
    let (a, b, x) = (account(1), account(2), account(3));
    assert_eq!(c.upgrade(id, fake_hash(9), 0), Ok(fake_hash(9)));
    assert_eq!(
        c.approve_upgrade(&env, id, &a, fake_hash(4), 0),
        Err(PokerTableError::InvalidGovernanceConfig)
    );
    for (signers, threshold, delay) in
        [(vec![a, a], 1, 5), (vec![a], 2, 5), (vec![a], 0, 5), (vec![a], 1, 0), (vec![], 1, 5)]
    {
        assert_eq!(
            c.configure_upgrade_governance(&env, id, signers, threshold, delay),
            Err(PokerTableError::InvalidGovernanceConfig)
        );
    }
    c.configure_upgrade_governance(&env, id, vec![a, b], 2, 5).unwrap();
    assert_eq!(c.get_upgrade_governance(id), (vec![a, b], 2, 5));
    assert_eq!(c.execute_approved_upgrade(id, 9), Err(PokerTableError::NoPendingUpgrade));
    assert_eq!(c.approve_upgrade(&env, id, &a, fake_hash(4), 10), Ok(1));
    assert_eq!(
        c.approve_upgrade(&env, id, &a, fake_hash(4), 10),
        Err(PokerTableError::UpgradeAlreadyApproved)
    );
    assert_eq!(
        c.approve_upgrade(&env, id, &x, fake_hash(4), 10),
        Err(PokerTableError::NotAnUpgradeSigner)
    );
    assert_eq!(
        c.execute_approved_upgrade(id, 100),
        Err(PokerTableError::NotEnoughUpgradeApprovals)
    );
    assert_eq!(c.approve_upgrade(&env, id, &b, fake_hash(4), 11), Ok(2));
    assert_eq!(
        c.execute_approved_upgrade(id, 14),
        Err(PokerTableError::UpgradeTimelockPending)
    );
    assert_eq!(c.upgrade(id, fake_hash(5), 15), Err(PokerTableError::NoPendingUpgrade));
    assert_eq!(c.execute_approved_upgrade(id, 15), Ok(fake_hash(4)));
    assert!(c.get_pending_upgrade(id).is_err());
}

#[test]
fn pending_upgrades_are_dropped_by_signers_and_the_admin() {
    let env = Env::new_with_config(EnvTestConfig { capture_snapshot_at_drop: false });
    let (mut c, id) = setup();
    let (a, x) = (account(1), account(3));
    c.configure_upgrade_governance(&env, id, vec![a], 1, 5).unwrap();
    c.approve_upgrade(&env, id, &a, fake_hash(4), 0).unwrap();
    assert_eq!(
        c.cancel_pending_upgrade(&env, id, &x),
        Err(PokerTableError::NotAnUpgradeSigner)
    );
    c.cancel_pending_upgrade(&env, id, &ADMIN).unwrap();
    assert!(c.get_pending_upgrade(id).is_err());
    c.approve_upgrade(&env, id, &a, fake_hash(6), 0).unwrap();
    assert_eq!(c.get_pending_upgrade(id).unwrap().wasm_hash, fake_hash(6));
    c.cancel_pending_upgrade(&env, id, &a).unwrap();
    assert!(c.get_pending_upgrade(id).is_err());
}

#[test]
fn a_table_with_signers_is_upgraded_by_them_alone() {
    let env = Env::new_with_config(EnvTestConfig { capture_snapshot_at_drop: false });
    let (mut c, id) = setup();
    let a = account(1);
    c.propose_upgrade(id, fake_hash(1), 86_400, 0).unwrap();
    c.configure_upgrade_governance(&env, id, vec![a], 1, 5).unwrap();
    assert_eq!(
        c.propose_upgrade(id, fake_hash(2), 86_400, 0),
        Err(PokerTableError::NotAnUpgradeSigner)
    );
    assert_eq!(
        c.execute_upgrade(id, 1_000_000),
        Err(PokerTableError::NotEnoughUpgradeApprovals)
    );
    assert_eq!(c.get_upgrade_proposal(id).unwrap().new_wasm_hash, fake_hash(1));
    assert_eq!(c.approve_upgrade(&env, id, &a, fake_hash(3), 0), Ok(1));
    assert_eq!(c.execute_approved_upgrade(id, 5), Ok(fake_hash(3)));
}
