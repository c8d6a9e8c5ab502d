use soroban_sdk::testutils::EnvTestConfig;
use soroban_sdk::Env;
use stellar_poker::committee_registry::{CommitteeRegistryContract, GamePhase, RegistryError};
use stellar_poker::host::{Address, Bytes32, Party, Transfer};

const TOKEN: Address = Address::Contract(Bytes32 { w0: 9, w1: 9, w2: 9, w3: 9 });

fn account(n: u64) -> Address {
    Address::Account(Bytes32 { w0: n, w1: 3, w2: 1, w3: 4 })
}

struct Setup {
    env: Env,
    c: CommitteeRegistryContract,
    balances: Vec<(Party, i128)>,
    admin: Address,
    member: Address,
    fresh: u64,
}

impl Setup {
    fn add(&mut self, p: Party, amount: i128) {
        match self.balances.iter_mut().find(|b| b.0 == p) {
            Some(b) => b.1 += amount,
            None => self.balances.push((p, amount)),
        }
    }

    fn mint(&mut self, a: Address, amount: i128) {
        self.add(Party::Wallet(a), amount);
    }

    fn apply(&mut self, t: Transfer) {
        assert_eq!(t.token, TOKEN);
        self.add(t.from, -t.amount);
        self.add(t.to, t.amount);
    }

    fn balance(&self, p: Party) -> i128 {
        self.balances.iter().find(|b| b.0 == p).map(|b| b.1).unwrap_or(0)
    }

    fn wallet(&self, a: Address) -> i128 {
        self.balance(Party::Wallet(a))
    }

    fn generate(&mut self) -> Address {
        self.fresh += 1;
        account(1000 + self.fresh)
    }

    fn register(&mut self, a: Address, stake: i128, label: &str, region: &str, fee: u32) {
        let t = self
            .c
            .register_member(a, stake, String::from(label), String::from(region), fee)
            .unwrap();
        self.apply(t);
    }

    fn add_member(&mut self, stake: i128, label: &str) -> Address {
        let m = self.generate();
        self.mint(m, stake);
        self.register(m, stake, label, "us-east-1", 0);
        m
    }

    fn deposit(&mut self, amount: i128) {
        let payer = self.generate();
        self.mint(payer, amount);
        let t = self.c.deposit_rake(payer, amount).unwrap();
        self.apply(t);
    }

    fn withdraw(&mut self, a: Address) -> i128 {
        let t = self.c.withdraw_rewards(a).unwrap();
        self.apply(t);
        t.amount
    }
}

fn with_cooldown(cooldown: u32, minted: i128) -> Setup {
    let mut s = Setup {
        env: Env::new_with_config(EnvTestConfig { capture_snapshot_at_drop: false }),
        c: CommitteeRegistryContract::new(),
        balances: Vec::new(),
        admin: account(1),
        member: account(2),
        fresh: 0,
    };
    s.c.initialize(s.admin, TOKEN, 1_000, cooldown).unwrap();
    let m = s.member;
    s.mint(m, minted);
    s.register(m, 1_000, "node-0", "us-east-1", 1_000);
    s
}

fn setup() -> Setup {
    with_cooldown(100, 2_000)
}

#[test]
fn get_active_members_returns_all_registered() {
    let mut s = setup();
    let member2 = s.generate();
    s.mint(member2, 2_000);
    s.register(member2, 1_000, "node-1", "eu-west-1", 500);
    let active = s.c.get_active_members();
    assert_eq!(active.len(), 2);
    assert_eq!(active[0].address, s.member);
    assert_eq!(active[0].region, "us-east-1");
    assert_eq!(active[1].address, member2);
    assert_eq!(active[1].region, "eu-west-1");
}

#[test]
fn timeout_config_defaults_and_updates() {
    let mut s = setup();
    let config = s.c.get_timeout_config().unwrap();
    assert_eq!(config.deal_ledgers, 120);
    assert_eq!(config.reveal_ledgers, 120);
    assert_eq!(config.showdown_ledgers, 120);
    s.c.set_timeout_config(&s.env, s.admin, 5, 7, 9).unwrap();
    let config = s.c.get_timeout_config().unwrap();
    assert_eq!(config.deal_ledgers, 5);
    assert_eq!(config.reveal_ledgers, 7);
    assert_eq!(config.showdown_ledgers, 9);
}

#[test]
fn report_timeout_slashes_and_redistributes_to_affected_players() {
    let mut s = setup();
    s.c.set_timeout_config(&s.env, s.admin, 2, 4, 6).unwrap();
    let (p1, p2) = (s.generate(), s.generate());
    s.c.track_game_phase(&s.env, s.admin, 42, GamePhase::Deal, vec![p1, p2], 0).unwrap();
    let (slashed, transfers) = s.c.report_timeout(42, s.member, 2).unwrap();
    for t in transfers {
        s.apply(t);
    }
    assert_eq!(slashed, 500);
    let member = s.c.get_member(s.member).unwrap();
    assert_eq!(member.stake, 500);
    assert!(!member.active);
    assert_eq!(member.slash_count, 1);
    assert_eq!(s.wallet(p1), 250);
    assert_eq!(s.wallet(p2), 250);
    assert!(s.c.get_game_liveness(42).unwrap().resolved);
}

#[test]
fn deposit_rake_accumulates_in_the_pool() {
    let mut s = setup();
    s.deposit(400);
    s.deposit(600);
    let pool = s.c.get_fee_pool();
    assert_eq!(pool.undistributed, 1_000);
    assert_eq!(pool.pending, 0);
    assert_eq!(pool.total_distributed, 0);
}

#[test]
fn distribute_fees_splits_proportionally_to_stake() {
    let mut s = setup();
    let big = s.add_member(3_000, "node-1");
    s.deposit(1_000);
    assert_eq!(s.c.distribute_fees(), Ok(1_000));
    assert_eq!(s.c.get_pending_reward(s.member), 250);
    assert_eq!(s.c.get_pending_reward(big), 750);
    let pool = s.c.get_fee_pool();
    assert_eq!(pool.undistributed, 0);
    assert_eq!(pool.pending, 1_000);
    assert_eq!(pool.total_distributed, 1_000);
}

#[test]
fn distribute_fees_rolls_dust_into_the_next_round() {
    let mut s = setup();
    s.add_member(1_000, "node-1");
    s.add_member(1_000, "node-2");
    s.deposit(10);
    assert_eq!(s.c.distribute_fees(), Ok(9));
    assert_eq!(s.c.get_fee_pool().undistributed, 1);
    s.deposit(2);
    assert_eq!(s.c.distribute_fees(), Ok(3));
    assert_eq!(s.c.get_fee_pool().undistributed, 0);
}

#[test]
fn distribute_fees_skips_inactive_nodes() {
    let mut s = setup();
    let other = s.add_member(1_000, "node-1");
    s.c.deregister_node_on_failure(&s.env, s.admin, s.member).unwrap();
    s.deposit(500);
    assert_eq!(s.c.distribute_fees(), Ok(500));
    assert_eq!(s.c.get_pending_reward(s.member), 0);
    assert_eq!(s.c.get_pending_reward(other), 500);
}

#[test]
fn distribute_fees_is_a_noop_without_active_stake() {
    let mut s = setup();
    s.c.deregister_node_on_failure(&s.env, s.admin, s.member).unwrap();
    s.deposit(500);
    assert_eq!(s.c.distribute_fees(), Ok(0));
    assert_eq!(s.c.get_fee_pool().undistributed, 500);
}

#[test]
fn distribute_fees_on_an_empty_pool_is_free() {
    let mut s = setup();
    assert_eq!(s.c.distribute_fees(), Ok(0));
    assert_eq!(s.c.get_fee_pool().total_distributed, 0);
}

#[test]
fn withdraw_rewards_pays_out_and_clears_the_balance() {
    let mut s = setup();
    s.deposit(800);
    s.c.distribute_fees().unwrap();
    let before = s.wallet(s.member);
    let m = s.member;
    let paid = s.withdraw(m);
    assert_eq!(paid, 800);
    assert_eq!(s.wallet(m), before + 800);
    assert_eq!(s.c.get_pending_reward(m), 0);
    assert_eq!(s.c.get_fee_pool().pending, 0);
}

#[test]
fn withdraw_rewards_accumulates_across_distributions() {
    let mut s = setup();
    s.deposit(300);
    s.c.distribute_fees().unwrap();
    s.deposit(200);
    s.c.distribute_fees().unwrap();
    let m = s.member;
    assert_eq!(s.c.get_pending_reward(m), 500);
    assert_eq!(s.withdraw(m), 500);
}

#[test]
fn withdraw_rewards_enforces_the_minimum_threshold() {
    let mut s = setup();
    s.c.set_min_withdrawal(&s.env, s.admin, 1_000).unwrap();
    s.deposit(100);
    s.c.distribute_fees().unwrap();
    assert_eq!(
        s.c.withdraw_rewards(s.member),
        Err(RegistryError::BelowMinimumWithdrawal)
    );
}

#[test]
fn withdraw_rewards_succeeds_once_the_threshold_is_reached() {
    let mut s = setup();
    s.c.set_min_withdrawal(&s.env, s.admin, 1_000).unwrap();
    assert_eq!(s.c.get_fee_pool().min_withdrawal, 1_000);
    s.deposit(600);
    s.c.distribute_fees().unwrap();
    s.deposit(400);
    s.c.distribute_fees().unwrap();
    let m = s.member;
    assert_eq!(s.withdraw(m), 1_000);
}

#[test]
fn withdraw_rewards_with_no_balance_reverts() {
    let mut s = setup();
    assert_eq!(s.c.withdraw_rewards(s.member), Err(RegistryError::NothingToWithdraw));
}

#[test]
fn slashed_node_keeps_fees_it_already_earned() {
    let mut s = setup();
    let other = s.add_member(1_000, "node-1");
    s.deposit(1_000);
    s.c.distribute_fees().unwrap();
    let m = s.member;
    assert_eq!(s.c.get_pending_reward(m), 500);
    s.c.deregister_node_on_failure(&s.env, s.admin, m).unwrap();
    assert_eq!(s.withdraw(m), 500);
    s.deposit(400);
    s.c.distribute_fees().unwrap();
    assert_eq!(s.c.get_pending_reward(m), 0);
    assert_eq!(s.c.get_pending_reward(other), 900);
}

#[test]
fn fees_never_draw_down_staked_collateral() {
    let mut s = setup();
    assert_eq!(s.balance(Party::This), 1_000);
    s.deposit(700);
    assert_eq!(s.balance(Party::This), 1_700);
    s.c.distribute_fees().unwrap();
    let m = s.member;
    s.withdraw(m);
    assert_eq!(s.balance(Party::This), 1_000);
    assert_eq!(s.c.get_member(m).unwrap().stake, 1_000);
}

#[test]
fn deposit_rake_rejects_non_positive_amounts() {
    let mut s = setup();
    let payer = s.generate();
    assert_eq!(s.c.deposit_rake(payer, 0), Err(RegistryError::DepositNotPositive));
}

#[test]
fn set_min_withdrawal_is_admin_only() {
    let mut s = setup();
    let stranger = s.generate();
    assert_eq!(
        s.c.set_min_withdrawal(&s.env, stranger, 10),
        Err(RegistryError::NotAdmin)
    );
}

#[test]
fn paused_registry_blocks_fee_distribution() {
    let mut s = setup();
    s.deposit(100);
    s.c.pause(&s.env, s.admin).unwrap();
    assert_eq!(s.c.distribute_fees(), Err(RegistryError::ContractPaused));
}

#[test]
fn paused_registry_blocks_reward_withdrawal() {
    let mut s = setup();
    s.deposit(100);
    s.c.distribute_fees().unwrap();
    s.c.pause(&s.env, s.admin).unwrap();
    assert_eq!(s.c.withdraw_rewards(s.member), Err(RegistryError::ContractPaused));
}

#[test]
fn report_timeout_before_window_reverts() {
    let mut s = setup();
    s.c.set_timeout_config(&s.env, s.admin, 10, 10, 10).unwrap();
    let p = s.generate();
    s.c.track_game_phase(&s.env, s.admin, 7, GamePhase::Showdown, vec![p], 0).unwrap();
    assert_eq!(
        s.c.report_timeout(7, s.member, 9).unwrap_err(),
        RegistryError::TimeoutNotReached
    );
}

fn empty_registry() -> (Env, CommitteeRegistryContract, Address) {
    let mut c = CommitteeRegistryContract::new();
    let admin = account(1);
    c.initialize(admin, TOKEN, 100, 0).unwrap();
    (Env::new_with_config(EnvTestConfig { capture_snapshot_at_drop: false }), c, admin)
}

#[test]
fn lib_test_pause_and_unpause() {
    let (env, mut c, admin) = empty_registry();
    assert!(!c.is_paused());
    c.pause(&env, admin).unwrap();
    assert!(c.is_paused());
    c.unpause(&env, admin).unwrap();
    assert!(!c.is_paused());
}

#[test]
fn test_paused_blocks_register_member() {
    let (env, mut c, admin) = empty_registry();
    c.pause(&env, admin).unwrap();
    let r = c.register_member(
        account(5),
        500,
        String::from("http://node0:8101"),
        String::from("us-east-1"),
        0,
    );
    assert_eq!(r, Err(RegistryError::ContractPaused));
}

#[test]
fn test_paused_blocks_create_epoch() {
    let (env, mut c, admin) = empty_registry();
    c.pause(&env, admin).unwrap();
    assert_eq!(
        c.create_epoch(&env, admin, Vec::new(), 2, 0),
        Err(RegistryError::ContractPaused)
    );
}

#[test]
fn lib_test_admin_can_read_while_paused() {
    let (env, mut c, admin) = empty_registry();
    c.pause(&env, admin).unwrap();
    assert!(c.get_current_epoch().is_none());
}

#[test]
fn lib_test_unpause_allows_operations_again() {
    let (env, mut c, admin) = empty_registry();
    let member = account(5);
    c.pause(&env, admin).unwrap();
    c.unpause(&env, admin).unwrap();
    c.register_member(
        member,
        500,
        String::from("http://node0:8101"),
        String::from("us-east-1"),
        0,
    )
    .unwrap();
    assert!(c.get_member(member).unwrap().active);
}

#[test]
fn test_non_admin_cannot_pause() {
    let (env, mut c, _admin) = empty_registry();
    assert_eq!(c.pause(&env, account(8)), Err(RegistryError::NotAdmin));
}

fn delegation_setup() -> (Setup, Address) {
    let s = with_cooldown(10, 5_000);
    let node = s.member;
    (s, node)
}

fn delegate(s: &mut Setup, d: Address, node: Address, amount: i128) {
    let t = s.c.delegate(d, node, amount).unwrap();
    s.apply(t);
}

#[test]
fn delegate_and_query() {
    let (mut s, node) = delegation_setup();
    let d = s.generate();
    s.mint(d, 2_000);
    delegate(&mut s, d, node, 500);
    let rec = s.c.get_delegation(d, node).unwrap();
    assert_eq!(rec.amount, 500);
    assert_eq!(rec.pending_rewards, 0);
    assert_eq!(s.c.get_member(node).unwrap().total_delegated_stake, 500);
    assert_eq!(s.wallet(d), 1_500);
}

#[test]
fn delegate_accumulates_on_second_call() {
    let (mut s, node) = delegation_setup();
    let d = s.generate();
    s.mint(d, 3_000);
    delegate(&mut s, d, node, 500);
    delegate(&mut s, d, node, 300);
    assert_eq!(s.c.get_delegation(d, node).unwrap().amount, 800);
    assert_eq!(s.wallet(d), 2_200);
}

#[test]
fn distribute_fees_and_claim_rewards() {
    let (mut s, node) = delegation_setup();
    let d = s.generate();
    s.mint(d, 2_000);
    delegate(&mut s, d, node, 1_000);
    let payer = s.generate();
    s.mint(payer, 1_000);
    let (a, b) = s.c.distribute_fees_to_node(payer, node, 1_000).unwrap();
    s.apply(a);
    s.apply(b);
    assert_eq!(s.wallet(node), 4_100);
    assert_eq!(s.c.pending_rewards(d, node), 900);
    let t = s.c.claim_rewards(d, node).unwrap();
    s.apply(t);
    assert_eq!(t.amount, 900);
    assert_eq!(s.wallet(d), 1_900);
}

#[test]
fn distribute_fees_no_delegators_all_goes_to_node() {
    let (mut s, node) = delegation_setup();
    let payer = s.generate();
    s.mint(payer, 500);
    let (a, b) = s.c.distribute_fees_to_node(payer, node, 500).unwrap();
    s.apply(a);
    s.apply(b);
    assert_eq!(s.wallet(node), 4_500);
}

#[test]
fn undelegate_starts_cooldown() {
    let (mut s, node) = delegation_setup();
    let d = s.generate();
    s.mint(d, 2_000);
    delegate(&mut s, d, node, 1_000);
    s.c.undelegate(d, node, 400, 0).unwrap();
    assert_eq!(s.c.get_delegation(d, node).unwrap().amount, 600);
    let pend = s.c.get_pending_undelegation(d, node).unwrap();
    assert_eq!(pend.amount, 400);
    assert_eq!(pend.unlock_ledger, 10);
    assert_eq!(s.c.get_member(node).unwrap().total_delegated_stake, 600);
}

#[test]
fn withdraw_before_cooldown_panics() {
    let (mut s, node) = delegation_setup();
    let d = s.generate();
    s.mint(d, 2_000);
    delegate(&mut s, d, node, 1_000);
    s.c.undelegate(d, node, 400, 0).unwrap();
    assert_eq!(
        s.c.withdraw_undelegation(d, node, 0),
        Err(RegistryError::CooldownNotElapsed)
    );
}

#[test]
fn withdraw_after_cooldown_returns_tokens() {
    let (mut s, node) = delegation_setup();
    let d = s.generate();
    s.mint(d, 2_000);
    delegate(&mut s, d, node, 1_000);
    s.c.undelegate(d, node, 400, 0).unwrap();
    let t = s.c.withdraw_undelegation(d, node, 10).unwrap();
    s.apply(t);
    assert_eq!(t.amount, 400);
    assert_eq!(s.wallet(d), 1_400);
    assert!(s.c.get_pending_undelegation(d, node).is_none());
}

#[test]
fn second_undelegate_before_withdraw_panics() {
    let (mut s, node) = delegation_setup();
    let d = s.generate();
    s.mint(d, 3_000);
    delegate(&mut s, d, node, 2_000);
    s.c.undelegate(d, node, 500, 0).unwrap();
    assert_eq!(
        s.c.undelegate(d, node, 500, 0),
        Err(RegistryError::UndelegationPending)
    );
}

#[test]
fn slash_propagates_to_delegators() {
    let (mut s, node) = delegation_setup();
    let d = s.generate();
    s.mint(d, 2_000);
    delegate(&mut s, d, node, 1_000);
    s.c.set_timeout_config(&s.env, s.admin, 2, 2, 2).unwrap();
    let p = s.generate();
    s.c.track_game_phase(&s.env, s.admin, 1, GamePhase::Deal, vec![p], 0).unwrap();
    s.c.report_timeout(1, node, 2).unwrap();
    let m = s.c.get_member(node).unwrap();
    assert_eq!(m.stake, 500);
    assert!(!m.active);
    assert_eq!(s.c.get_delegation(d, node).unwrap().amount, 500);
}

#[test]
fn set_delegation_cooldown_updates_value() {
    let (mut s, node) = delegation_setup();
    s.c.set_delegation_cooldown(&s.env, s.admin, 50).unwrap();
    let d = s.generate();
    s.mint(d, 2_000);
    delegate(&mut s, d, node, 1_000);
    s.c.undelegate(d, node, 200, 0).unwrap();
    assert_eq!(s.c.get_pending_undelegation(d, node).unwrap().unlock_ledger, 50);
}

#[test]
fn epochs_need_registered_members() {
    let mut s = setup();
    let other = s.add_member(1_000, "node-1");
    let m = s.member;
    assert_eq!(
        s.c.create_epoch(&s.env, s.admin, vec![m], 2, 5),
        Err(RegistryError::NotEnoughMembers)
    );
    assert_eq!(
        s.c.create_epoch(&s.env, s.admin, vec![m, account(77)], 2, 5),
        Err(RegistryError::MemberNotRegistered)
    );
    s.c.create_epoch(&s.env, s.admin, vec![m, other], 2, 5).unwrap();
    let epoch = s.c.get_current_epoch().unwrap();
    assert_eq!(epoch.members, vec![m, other]);
    assert_eq!(epoch.threshold, 2);
    assert_eq!(epoch.start_ledger, 5);
    assert_eq!(
        s.c.deregister_member(&s.env, m),
        Err(RegistryError::InActiveEpoch)
    );
}

#[test]
fn odd_units_of_a_slash_go_to_the_first_players() {
    let mut s = setup();
    s.c.set_timeout_config(&s.env, s.admin, 1, 1, 1).unwrap();
    let ps = vec![s.generate(), s.generate(), s.generate()];
    s.c.track_game_phase(&s.env, s.admin, 3, GamePhase::Reveal, ps.clone(), 0).unwrap();
    let (slashed, ts) = s.c.report_timeout(3, s.member, 1).unwrap();
    assert_eq!(slashed, 500);
    let amounts: Vec<i128> = ts.iter().map(|t| t.amount).collect();
    assert_eq!(amounts, vec![167, 167, 166]);
    assert_eq!(
        s.c.report_timeout(3, s.member, 5).unwrap_err(),
        RegistryError::TimeoutAlreadyResolved
    );
}

#[test]
fn registration_is_checked() {
    let mut s = setup();
    let a = s.generate();
    let mut reg = |stake: i128, fee: u32| {
        s.c.register_member(a, stake, String::new(), String::new(), fee)
    };
    assert_eq!(reg(999, 0), Err(RegistryError::InsufficientStake));
    assert_eq!(reg(1_000, 10_001), Err(RegistryError::FeeRateTooHigh));
    assert_eq!(s.c.get_member(a).unwrap_err(), RegistryError::NotAMember);
}

#[test]
fn paused_registry_refuses_every_change() {
    let mut s = setup();
    let p = s.generate();
    s.c.set_timeout_config(&s.env, s.admin, 2, 2, 2).unwrap();
    s.c.track_game_phase(&s.env, s.admin, 1, GamePhase::Deal, vec![p], 0).unwrap();
    s.c.pause(&s.env, s.admin).unwrap();
    let paused = Err(RegistryError::ContractPaused);
    assert_eq!(s.c.set_timeout_config(&s.env, s.admin, 5, 5, 5), paused);
    assert_eq!(s.c.track_game_phase(&s.env, s.admin, 2, GamePhase::Deal, vec![p], 0), paused);
    assert_eq!(s.c.set_min_withdrawal(&s.env, s.admin, 5), paused);
    assert_eq!(s.c.set_delegation_cooldown(&s.env, s.admin, 5), paused);
    assert_eq!(s.c.report_timeout(1, s.member, 2).unwrap_err(), RegistryError::ContractPaused);
    assert_eq!(
        s.c.set_min_withdrawal(&s.env, p, 5),
        Err(RegistryError::NotAdmin)
    );
    s.c.unpause(&s.env, s.admin).unwrap();
    assert!(s.c.report_timeout(1, s.member, 2).is_ok());
}
