use soroban_sdk::testutils::EnvTestConfig;
use soroban_sdk::Env;
use stellar_poker::auth_manager::{
    admin_role, operator_role, AuthError, AuthManagerContract, Permission,
};
use stellar_poker::host::{Address, Bytes32, Symbol};

fn env() -> Env {
    Env::new_with_config(EnvTestConfig { capture_snapshot_at_drop: false })
}

fn account(n: u64) -> Address {
    Address::Account(Bytes32 { w0: n, w1: 2 * n, w2: 3 * n, w3: 4 * n })
}

fn symbol(text: &str) -> Symbol {
    Symbol::from_bytes(&text.as_bytes().to_vec())
}

fn setup() -> (Env, AuthManagerContract, Address) {
    let mut c = AuthManagerContract::new();
    let admin = account(1);
    c.initialize(admin, 1).unwrap();
    (env(), c, admin)
}

#[test]
fn test_initial_roles() {
    let (_env, c, admin) = setup();
    assert!(c.has_role(admin, symbol("admin")));
    assert!(c.has_permission(admin, Permission::CreateTable));
    assert!(c.has_permission(admin, Permission::UpgradeContract));
}

#[test]
fn test_grant_and_check_role() {
    let (env, mut c, admin) = setup();
    let user = account(2);
    c.grant_role(&env, admin, user, symbol("operator")).unwrap();
    assert!(c.has_role(user, symbol("operator")));
    assert!(c.has_permission(user, Permission::CreateTable));
    assert!(!c.has_permission(user, Permission::UpgradeContract));
}

#[test]
fn test_multisig_proposal_flow() {
    let (env, mut c, admin) = setup();
    let admin2 = account(2);
    c.add_multisig_admin(&env, admin, admin2).unwrap();
    c.set_threshold(&env, admin, 2).unwrap();
    let pid = c
        .propose_action(&env, admin, symbol("test_action"), None, Vec::new(), 1, 0)
        .unwrap();
    c.approve_action(&env, admin2, pid).unwrap();
    c.execute_action(&env, admin, pid, 2).unwrap();
    assert!(c.get_proposal(pid).unwrap().executed);
}

#[test]
fn test_contract_authorization_layer() {
    let (env, mut c, admin) = setup();
    let poker = account(2);
    let verifier = account(3);
    assert!(!c.is_contract_authorized(poker, verifier));
    c.authorize_contract_call(&env, admin, poker, verifier).unwrap();
    assert!(c.is_contract_authorized(poker, verifier));
    c.revoke_contract_call(&env, admin, poker, verifier).unwrap();
    assert!(!c.is_contract_authorized(poker, verifier));
}

#[test]
fn role_names_are_their_text() {
    assert_eq!(admin_role(), symbol("admin"));
    assert_eq!(operator_role(), symbol("operator"));
}

#[test]
fn strangers_cannot_manage_roles() {
    let (env, mut c, _admin) = setup();
    let stranger = account(9);
    assert_eq!(
        c.grant_role(&env, stranger, stranger, symbol("admin")),
        Err(AuthError::NotAdmin)
    );
    assert_eq!(c.pause(&env, stranger), Err(AuthError::NotAdmin));
    assert!(!c.is_paused());
}

#[test]
fn execution_waits_for_approvals_and_time() {
    let (env, mut c, admin) = setup();
    let admin2 = account(2);
    c.add_multisig_admin(&env, admin, admin2).unwrap();
    c.set_threshold(&env, admin, 2).unwrap();
    let pid = c
        .propose_action(&env, admin, symbol("x"), None, vec![1, 2], 10, 100)
        .unwrap();
    assert_eq!(
        c.execute_action(&env, admin, pid, 200),
        Err(AuthError::ThresholdNotReached)
    );
    assert_eq!(c.approve_action(&env, admin, pid), Err(AuthError::AlreadyApproved));
    c.approve_action(&env, admin2, pid).unwrap();
    assert_eq!(
        c.execute_action(&env, admin, pid, 109),
        Err(AuthError::TimelockNotElapsed)
    );
    c.execute_action(&env, admin, pid, 110).unwrap();
    assert_eq!(
        c.execute_action(&env, admin, pid, 111),
        Err(AuthError::ProposalAlreadyExecuted)
    );
    assert_eq!(
        c.execute_action(&env, admin, 77, 111),
        Err(AuthError::ProposalNotFound)
    );
}

#[test]
fn direct_permissions_are_single_bits() {
    let (env, mut c, admin) = setup();
    let user = account(5);
    c.grant_permission(&env, admin, user, Permission::BanPlayer).unwrap();
    assert!(c.has_permission(user, Permission::BanPlayer));
    assert!(!c.has_permission(user, Permission::ForceFold));
    assert_eq!(c.get_permissions(user), 1 << 13);
    assert_eq!(Permission::CancelHand.bit(), 1 << 21);
    c.revoke_permission(&env, admin, user, Permission::BanPlayer).unwrap();
    assert!(!c.has_permission(user, Permission::BanPlayer));
    assert_eq!(
        c.require_permission(user, Permission::BanPlayer),
        Err(AuthError::InsufficientPermissions)
    );
}

#[test]
fn roles_are_granted_and_revoked_once() {
    let (env, mut c, admin) = setup();
    let user = account(6);
    assert_eq!(
        c.grant_role(&env, admin, user, symbol("unknown")),
        Err(AuthError::RoleNotFound)
    );
    c.define_role(&env, admin, symbol("dealer"), 1 << 8).unwrap();
    c.grant_role(&env, admin, user, symbol("dealer")).unwrap();
    assert_eq!(
        c.grant_role(&env, admin, user, symbol("dealer")),
        Err(AuthError::AlreadyHasRole)
    );
    assert!(c.has_permission(user, Permission::VerifyProof));
    c.revoke_role(&env, admin, user, symbol("dealer")).unwrap();
    assert!(!c.has_role(user, symbol("dealer")));
    assert_eq!(
        c.revoke_role(&env, admin, user, symbol("dealer")),
        Err(AuthError::DoesNotHaveRole)
    );
}

#[test]
fn initialization_happens_once() {
    let mut c = AuthManagerContract::new();
    assert_eq!(c.initialize(account(1), 0), Err(AuthError::ThresholdTooLow));
    c.initialize(account(1), 1).unwrap();
    assert_eq!(c.initialize(account(1), 1), Err(AuthError::AlreadyInitialized));
}

fn role_payload(name: Symbol, permissions: u64) -> Vec<u8> {
    let mut v = Vec::new();
    for w in [name.text.w0, name.text.w1, name.text.w2, name.text.w3, permissions] {
        v.extend_from_slice(&w.to_be_bytes());
    }
    v
}

#[test]
fn one_key_cannot_take_critical_steps() {
    let (env, mut c, admin) = setup();
    let admin2 = account(2);
    c.define_role(&env, admin, symbol("dealer"), 1).unwrap();
    c.add_multisig_admin(&env, admin, admin2).unwrap();
    c.set_threshold(&env, admin, 2).unwrap();
    let refused = Err(AuthError::ThresholdNotReached);
    assert_eq!(c.define_role(&env, admin, symbol("dealer"), 7), refused);
    assert_eq!(c.add_multisig_admin(&env, admin, account(3)), refused);
    assert_eq!(c.add_multisig_admin(&env, admin, admin2), Ok(()));
    assert_eq!(c.pause(&env, admin), refused);

    let payload = role_payload(symbol("dealer"), 7);
    let a = c.propose_action(&env, admin, symbol("define_role"), None, payload, 1, 0).unwrap();
    let b = c
        .propose_action(&env, admin, symbol("add_admin"), Some(account(3)), Vec::new(), 1, 0)
        .unwrap();
    let p = c.propose_action(&env, admin, symbol("pause"), None, Vec::new(), 1, 0).unwrap();
    for id in [a, b, p] {
        c.approve_action(&env, admin2, id).unwrap();
    }
    assert_eq!(c.define_role(&env, admin, symbol("dealer"), 7), refused);
    for id in [a, b, p] {
        c.execute_action(&env, admin, id, 2).unwrap();
    }
    assert_eq!(c.define_role(&env, admin, symbol("dealer"), 8), refused);
    c.define_role(&env, admin, symbol("dealer"), 7).unwrap();
    assert_eq!(c.define_role(&env, admin, symbol("dealer"), 7), refused);
    c.add_multisig_admin(&env, admin, account(3)).unwrap();
    assert!(c.is_admin(&env, &account(3)));
    c.pause(&env, admin).unwrap();
    assert!(c.is_paused());
    c.unpause(&env, admin).unwrap();
    assert_eq!(c.pause(&env, admin), refused);
}

#[test]
fn one_key_cannot_lower_the_threshold() {
    let (env, mut c, admin) = setup();
    for n in 2..4 {
        c.add_multisig_admin(&env, admin, account(n)).unwrap();
    }
    c.set_threshold(&env, admin, 2).unwrap();
    c.set_threshold(&env, admin, 3).unwrap();
    c.set_threshold(&env, admin, 3).unwrap();
    let refused = Err(AuthError::ThresholdNotReached);
    assert_eq!(c.set_threshold(&env, admin, 2), refused);
    assert_eq!(c.set_threshold(&env, admin, 0), Err(AuthError::ThresholdTooLow));
    assert_eq!(c.set_threshold(&env, admin, 4), Err(AuthError::ThresholdTooHigh));
    let payload = 2u32.to_be_bytes().to_vec();
    let p = c.propose_action(&env, admin, symbol("set_threshold"), None, payload, 1, 0).unwrap();
    c.approve_action(&env, account(2), p).unwrap();
    c.approve_action(&env, account(3), p).unwrap();
    c.execute_action(&env, admin, p, 1).unwrap();
    assert_eq!(c.set_threshold(&env, admin, 1), refused);
    c.set_threshold(&env, admin, 2).unwrap();
    assert_eq!(c.get_multisig_config().unwrap().threshold, 2);
    c.set_threshold(&env, admin, 3).unwrap();
    assert_eq!(c.set_threshold(&env, admin, 2), refused);
}

#[test]
fn all_defined_roles_are_listed() {
    let (env, mut c, admin) = setup();
    c.define_role(&env, admin, symbol("dealer"), 3).unwrap();
    c.define_role(&env, admin, symbol("player"), 5).unwrap();
    let names: Vec<Symbol> = c.list_roles().iter().map(|r| r.name).collect();
    let want = ["admin", "operator", "committee", "player", "dealer"];
    assert_eq!(names, want.iter().map(|n| symbol(n)).collect::<Vec<Symbol>>());
    assert_eq!(c.list_roles()[3].permissions, 5);
    assert_eq!(c.list_roles()[4].permissions, 3);
}
