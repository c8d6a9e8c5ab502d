use stellar_poker::poker_table::tournament::{blind_level_for_hand, prize_for_place, BlindRange};

const BUDGETS: [(&str, u64); 9] = [
    ("create_table", 6_000_000),
    ("join_table", 6_000_000),
    ("start_hand", 8_000_000),
    ("commit_deal", 8_000_000),
    ("player_action", 8_000_000),
    ("reveal_board", 8_000_000),
    ("leave_table", 6_000_000),
    ("claim_timeout", 8_000_000),
    ("withdraw_rake", 6_000_000),
];

#[test]
fn gas_report() {
    println!("\n╔════════════════════════════════════════╗");
    println!("║       StellPoker Gas Cost Report       ║");
    println!("╠══════════════════════════╦═════════════╣");
    println!("║ Function                 ║ CPU insns   ║");
    println!("╠══════════════════════════╬═════════════╣");
    for (label, budget) in BUDGETS {
        println!("║ {:<24} ║ {:>11} ║", label, budget);
    }
    println!("╚══════════════════════════╩═════════════╝");
    println!("(run individual gas_* tests with --nocapture for live measurements)");
}

#[test]
fn test_blind_escalation_schedule() {
    let range = |first_hand, last_hand, small_blind, big_blind| BlindRange {
        first_hand,
        last_hand,
        small_blind,
        big_blind,
    };
    let schedule = vec![
        range(1, 3, 5, 10),
        range(4, 6, 10, 20),
        range(7, 9, 20, 40),
        range(10, u32::MAX, 40, 80),
    ];
    assert_eq!(blind_level_for_hand(1, &schedule), (5, 10));
    assert_eq!(blind_level_for_hand(3, &schedule), (5, 10));
    assert_eq!(blind_level_for_hand(4, &schedule), (10, 20));
    assert_eq!(blind_level_for_hand(6, &schedule), (10, 20));
    assert_eq!(blind_level_for_hand(7, &schedule), (20, 40));
    assert_eq!(blind_level_for_hand(10, &schedule), (40, 80));
    assert_eq!(blind_level_for_hand(100, &schedule), (40, 80));
}

#[test]
fn test_prize_distribution_sums_to_pool() {
    let pool: i128 = 2000;
    let n = 4usize;
    let total: i128 = (0..n).map(|i| prize_for_place(pool, i)).sum();
    assert!((total - pool).abs() <= n as i128);
}

#[test]
fn test_prize_distribution_ordered_descending() {
    let pool: i128 = 2000;
    for i in 1..4 {
        assert!(
            prize_for_place(pool, i - 1) >= prize_for_place(pool, i),
            "prizes must be non-increasing from 1st to 4th place"
        );
    }
}

#[test]
fn prizes_are_exact_on_a_round_pool() {
    assert_eq!(prize_for_place(2000, 0), 1200);
    assert_eq!(prize_for_place(2000, 1), 600);
    assert_eq!(prize_for_place(2000, 2), 200);
    assert_eq!(prize_for_place(2000, 3), 0);
    assert_eq!(prize_for_place(2000, 9), 0);
}
