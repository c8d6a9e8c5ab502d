use stellar_poker::host::{Address, Bytes32, Party, Transfer};
use stellar_poker::liquidity_pool::{CrossTableLiquidityPool, LiquidityPoolError};

fn account(n: u64) -> Address {
    Address::Account(Bytes32 { w0: n, w1: 1, w2: 2, w3: 3 })
}

const TOKEN: Address = Address::Contract(Bytes32 { w0: 77, w1: 0, w2: 0, w3: 0 });

struct Ledger {
    balances: Vec<(Party, i128)>,
}

impl Ledger {
    fn new() -> Self {
        Ledger { balances: Vec::new() }
    }

    fn add(&mut self, p: Party, amount: i128) {
        match self.balances.iter_mut().find(|b| b.0 == p) {
            Some(b) => b.1 += amount,
            None => self.balances.push((p, amount)),
        }
    }

    fn mint(&mut self, a: Address, amount: i128) {
        self.add(Party::Wallet(a), amount);
    }

    fn apply(&mut self, t: Transfer) {
        assert_eq!(t.token, TOKEN);
        self.add(t.from, -t.amount);
        self.add(t.to, t.amount);
    }

    fn balance(&self, p: Party) -> i128 {
        self.balances.iter().find(|b| b.0 == p).map(|b| b.1).unwrap_or(0)
    }
}

#[test]
fn test_deposit_withdraw_flow() {
    let (admin, player) = (account(1), account(2));
    let mut ledger = Ledger::new();
    ledger.mint(player, 5000);
    let mut c = CrossTableLiquidityPool::new();
    c.initialize(admin, Some(100)).unwrap();

    ledger.apply(c.deposit(player, TOKEN, 3000).unwrap());
    let bal = c.get_player_balance(player, TOKEN);
    assert_eq!(bal.total_deposited, 3000);
    assert_eq!(bal.available_balance, 3000);
    assert_eq!(bal.locked_balance, 0);
    assert_eq!(ledger.balance(Party::This), 3000);

    ledger.apply(c.withdraw(player, TOKEN, 1000).unwrap());
    let bal2 = c.get_player_balance(player, TOKEN);
    assert_eq!(bal2.total_deposited, 2000);
    assert_eq!(bal2.available_balance, 2000);
    assert_eq!(ledger.balance(Party::Wallet(player)), 3000);
}

#[test]
fn test_insufficient_withdrawal_rejected() {
    let (admin, player) = (account(1), account(2));
    let mut c = CrossTableLiquidityPool::new();
    c.initialize(admin, Some(100)).unwrap();
    c.deposit(player, TOKEN, 500).unwrap();
    assert!(c.withdraw(player, TOKEN, 600).is_err());
    assert_eq!(
        c.withdraw(player, TOKEN, 600),
        Err(LiquidityPoolError::InsufficientAvailableBalance)
    );
}

#[test]
fn test_cross_table_allocations_and_settlement() {
    let (admin, table_contract) = (account(1), account(2));
    let (player1, player2) = (account(3), account(4));
    let mut ledger = Ledger::new();
    ledger.mint(player1, 10_000);
    ledger.mint(player2, 10_000);
    let mut c = CrossTableLiquidityPool::new();
    c.initialize(admin, Some(100)).unwrap();
    c.set_authorized_caller(admin, table_contract, true).unwrap();

    ledger.apply(c.deposit(player1, TOKEN, 5000).unwrap());
    ledger.apply(c.deposit(player2, TOKEN, 5000).unwrap());

    c.allocate_to_table(player1, player1, TOKEN, 1, 1000, 0).unwrap();
    c.allocate_to_table(player2, player2, TOKEN, 1, 1000, 0).unwrap();
    c.allocate_to_table(player1, player1, TOKEN, 2, 2000, 0).unwrap();

    let p1_bal = c.get_player_balance(player1, TOKEN);
    assert_eq!(p1_bal.total_deposited, 5000);
    assert_eq!(p1_bal.available_balance, 2000);
    assert_eq!(p1_bal.locked_balance, 3000);

    let p1_tables = c.get_player_tables(player1, TOKEN);
    assert_eq!(p1_tables.len(), 2);

    let winners = vec![(player1, 475)];
    let losers = vec![(player2, 500)];
    let rake_treasury = account(9);
    let transfer = c
        .settle_table_hand(
            table_contract,
            TOKEN,
            1,
            &winners,
            &losers,
            25,
            Some(rake_treasury),
            0,
        )
        .unwrap();
    ledger.apply(transfer.unwrap());

    assert_eq!(c.get_table_allocation(player1, TOKEN, 1), 1475);
    assert_eq!(c.get_table_allocation(player2, TOKEN, 1), 500);
    assert_eq!(ledger.balance(Party::Wallet(rake_treasury)), 25);

    c.deallocate_from_table(player2, player2, TOKEN, 1, 500, 0).unwrap();
    assert_eq!(c.get_table_allocation(player2, TOKEN, 1), 0);
    let p2_bal = c.get_player_balance(player2, TOKEN);
    assert_eq!(p2_bal.available_balance, 4500);
    assert_eq!(p2_bal.locked_balance, 0);
}

#[test]
fn test_emergency_unlock_after_timeout() {
    let (admin, player) = (account(1), account(2));
    let mut c = CrossTableLiquidityPool::new();
    c.initialize(admin, Some(50)).unwrap();
    c.deposit(player, TOKEN, 2000).unwrap();
    c.allocate_to_table(player, player, TOKEN, 99, 1500, 100).unwrap();
    assert_eq!(c.get_table_allocation(player, TOKEN, 99), 1500);

    assert!(c.emergency_unlock(player, TOKEN, 99, 120).is_err());

    c.emergency_unlock(player, TOKEN, 99, 160).unwrap();
    assert_eq!(c.get_table_allocation(player, TOKEN, 99), 0);
    let bal = c.get_player_balance(player, TOKEN);
    assert_eq!(bal.available_balance, 2000);
    assert_eq!(bal.locked_balance, 0);
}

#[test]
fn settlement_must_balance() {
    let (admin, p1, p2) = (account(1), account(2), account(3));
    let mut c = CrossTableLiquidityPool::new();
    c.initialize(admin, None).unwrap();
    c.set_authorized_caller(admin, admin, true).unwrap();
    c.deposit(p1, TOKEN, 100).unwrap();
    c.deposit(p2, TOKEN, 100).unwrap();
    c.allocate_to_table(p1, p1, TOKEN, 1, 100, 0).unwrap();
    c.allocate_to_table(p2, p2, TOKEN, 1, 100, 0).unwrap();
    assert_eq!(
        c.settle_table_hand(admin, TOKEN, 1, &vec![(p1, 51)], &vec![(p2, 50)], 0, None, 0),
        Err(LiquidityPoolError::SettlementMismatch)
    );
    assert_eq!(
        c.settle_table_hand(admin, TOKEN, 1, &vec![(p1, 200)], &vec![(p2, 200)], 0, None, 0),
        Err(LiquidityPoolError::InsufficientTableAllocation)
    );
    assert_eq!(c.get_table_total_allocation(TOKEN, 1), 200);
    assert_eq!(
        c.settle_table_hand(p1, TOKEN, 1, &vec![(p1, 50)], &vec![(p2, 50)], 0, None, 0),
        Err(LiquidityPoolError::Unauthorized)
    );
}

#[test]
fn deposits_and_allocations_are_undone() {
    let (admin, p) = (account(1), account(2));
    let mut c = CrossTableLiquidityPool::new();
    assert_eq!(
        c.set_authorized_caller(admin, p, true),
        Err(LiquidityPoolError::NotInitialized)
    );
    c.initialize(admin, None).unwrap();
    assert_eq!(c.initialize(admin, None), Err(LiquidityPoolError::AlreadyInitialized));
    assert_eq!(c.deposit(p, TOKEN, 0), Err(LiquidityPoolError::InvalidAmount));
    c.deposit(p, TOKEN, 70).unwrap();
    let before = c.get_player_balance(p, TOKEN);
    c.allocate_to_table(p, p, TOKEN, 4, 30, 0).unwrap();
    assert_eq!(
        c.deallocate_from_table(p, p, TOKEN, 4, 31, 0),
        Err(LiquidityPoolError::InsufficientTableAllocation)
    );
    c.deallocate_from_table(p, p, TOKEN, 4, 30, 0).unwrap();
    assert_eq!(c.get_player_balance(p, TOKEN), before);
    assert_eq!(c.get_player_tables(p, TOKEN).len(), 0);
}

#[test]
fn table_total_is_what_players_have_there() {
    let (admin, p1, p2, house) = (account(1), account(2), account(3), account(4));
    let mut c = CrossTableLiquidityPool::new();
    c.initialize(admin, Some(50)).unwrap();
    c.deposit(p1, TOKEN, 100).unwrap();
    c.deposit(p2, TOKEN, 100).unwrap();
    c.allocate_to_table(p1, p1, TOKEN, 1, 80, 10).unwrap();
    c.allocate_to_table(p2, p2, TOKEN, 1, 60, 10).unwrap();
    assert_eq!(c.get_table_total_allocation(TOKEN, 1), 140);
    c.settle_table_hand(admin, TOKEN, 1, &vec![(p1, 45)], &vec![(p2, 50)], 5, Some(house), 10)
        .unwrap();
    assert_eq!(c.get_table_allocation(p1, TOKEN, 1), 125);
    assert_eq!(c.get_table_allocation(p2, TOKEN, 1), 10);
    assert_eq!(c.get_table_total_allocation(TOKEN, 1), 135);
    c.emergency_unlock(p1, TOKEN, 1, 60).unwrap();
    assert_eq!(c.get_table_total_allocation(TOKEN, 1), 10);
    c.deallocate_from_table(p2, p2, TOKEN, 1, 10, 60).unwrap();
    assert_eq!(c.get_table_total_allocation(TOKEN, 1), 0);
}
