// Tests of the ledger engine: balances and both settlement resolvers.
// Amounts are integer cents (50.00 is written 5000).

use splitdumb::balances::calculate_balances;
use splitdumb::models::{Expense, ExpenseKind, Group, Settlement, User};
use splitdumb::pairwise::calculate_settlements;
use splitdumb::settlements::get_settlements;
use splitdumb::simplify::calculate_simplified_settlements;

fn create_test_users() -> (User, User, User) {
    (
        User { id: 1, name: "Alice".to_string() },
        User { id: 2, name: "Bob".to_string() },
        User { id: 3, name: "Charlie".to_string() },
    )
}

fn clone_user(u: &User) -> User {
    User { id: u.id, name: u.name.clone() }
}

fn create_expense(
    id: usize,
    description: &str,
    amount: i64,
    payer: User,
    participants: Vec<User>,
) -> Expense {
    Expense {
        id,
        description: description.to_string(),
        amount,
        payer,
        participants,
        created_at: "2024-01-01T00:00:00Z".to_string(),
        category: None,
        notes: None,
        kind: ExpenseKind::Regular,
    }
}

fn create_group(members: Vec<User>, expenses: Vec<Expense>) -> Group {
    Group {
        id: 1,
        name: "Test Group".to_string(),
        members,
        expenses,
        simplify_debts: false,
        settled_settlements: vec![],
    }
}

#[test]
fn test_calculate_balances_simple() {
    let (alice, bob, _) = create_test_users();
    let group = create_group(
        vec![clone_user(&alice), clone_user(&bob)],
        vec![create_expense(
            1,
            "Dinner",
            5000,
            clone_user(&alice),
            vec![clone_user(&alice), clone_user(&bob)],
        )],
    );

    let balances = calculate_balances(&group);
    assert_eq!(balances.cents("Alice"), Some(2500));
    assert_eq!(balances.cents("Bob"), Some(-2500));
}

#[test]
fn test_calculate_balances_multiple_expenses() {
    let (alice, bob, _) = create_test_users();
    let group = create_group(
        vec![clone_user(&alice), clone_user(&bob)],
        vec![
            create_expense(
                1,
                "Dinner",
                5000,
                clone_user(&alice),
                vec![clone_user(&alice), clone_user(&bob)],
            ),
            create_expense(
                2,
                "Museum",
                3000,
                clone_user(&bob),
                vec![clone_user(&alice), clone_user(&bob)],
            ),
        ],
    );

    let balances = calculate_balances(&group);
    assert_eq!(balances.cents("Alice"), Some(1000));
    assert_eq!(balances.cents("Bob"), Some(-1000));
}

#[test]
fn test_calculate_balances_no_expenses() {
    let (alice, bob, _) = create_test_users();
    let group = create_group(vec![clone_user(&alice), clone_user(&bob)], vec![]);

    let balances = calculate_balances(&group);
    assert_eq!(balances.cents("Alice"), Some(0));
    assert_eq!(balances.cents("Bob"), Some(0));
}

#[test]
fn test_calculate_balances_three_people() {
    let (alice, bob, charlie) = create_test_users();
    let group = create_group(
        vec![clone_user(&alice), clone_user(&bob), clone_user(&charlie)],
        vec![create_expense(
            1,
            "Dinner",
            9000,
            clone_user(&alice),
            vec![clone_user(&alice), clone_user(&bob), clone_user(&charlie)],
        )],
    );

    let balances = calculate_balances(&group);
    assert_eq!(balances.cents("Alice"), Some(6000));
    assert_eq!(balances.cents("Bob"), Some(-3000));
    assert_eq!(balances.cents("Charlie"), Some(-3000));
}

#[test]
fn test_calculate_balances_partial_split() {
    let (alice, bob, charlie) = create_test_users();
    let group = create_group(
        vec![clone_user(&alice), clone_user(&bob), clone_user(&charlie)],
        vec![create_expense(
            1,
            "Movie",
            4000,
            clone_user(&alice),
            vec![clone_user(&alice), clone_user(&bob)],
        )],
    );

    let balances = calculate_balances(&group);
    assert_eq!(balances.cents("Alice"), Some(2000));
    assert_eq!(balances.cents("Bob"), Some(-2000));
    assert_eq!(balances.cents("Charlie"), Some(0));
}

#[test]
fn test_settlements_simple() {
    let (alice, bob, _) = create_test_users();
    let group = create_group(
        vec![clone_user(&alice), clone_user(&bob)],
        vec![create_expense(
            1,
            "Dinner",
            5000,
            clone_user(&alice),
            vec![clone_user(&alice), clone_user(&bob)],
        )],
    );

    let settlements = calculate_settlements(&group);
    assert_eq!(settlements.len(), 1);
    assert_eq!(settlements[0].from, "Bob");
    assert_eq!(settlements[0].to, "Alice");
    assert_eq!(settlements[0].amount, 2500);
}

#[test]
fn test_settlements_all_settled() {
    let (alice, bob, _) = create_test_users();
    let group = create_group(vec![clone_user(&alice), clone_user(&bob)], vec![]);

    let settlements = calculate_settlements(&group);
    assert!(settlements.is_empty());
}

#[test]
fn test_settlements_three_people() {
    let (alice, bob, charlie) = create_test_users();
    let group = create_group(
        vec![clone_user(&alice), clone_user(&bob), clone_user(&charlie)],
        vec![create_expense(
            1,
            "Dinner",
            9000,
            clone_user(&alice),
            vec![clone_user(&alice), clone_user(&bob), clone_user(&charlie)],
        )],
    );

    let settlements = calculate_settlements(&group);
    assert_eq!(settlements.len(), 2);

    let total_to_alice: i64 = settlements
        .iter()
        .filter(|s| s.to == "Alice")
        .map(|s| s.amount)
        .sum();
    assert!((total_to_alice - 6000).abs() < 1);
}

#[test]
fn test_settlements_complex_scenario() {
    let (alice, bob, charlie) = create_test_users();
    let group = create_group(
        vec![clone_user(&alice), clone_user(&bob), clone_user(&charlie)],
        vec![
            create_expense(
                1,
                "Dinner",
                9000,
                clone_user(&alice),
                vec![clone_user(&alice), clone_user(&bob), clone_user(&charlie)],
            ),
            create_expense(
                2,
                "Taxi",
                3000,
                clone_user(&bob),
                vec![clone_user(&alice), clone_user(&bob), clone_user(&charlie)],
            ),
        ],
    );

    // Use simplified settlements for total balance check
    let settlements = calculate_simplified_settlements(&group);

    // Verify total settlements balance out (only true for simplified algorithm)
    let balances = calculate_balances(&group);
    let total_owed: i64 = ["Alice", "Bob", "Charlie"]
        .iter()
        .map(|n| balances.cents(n).unwrap())
        .filter(|v| *v < 0)
        .map(|v| -v as i64)
        .sum();
    let total_settlements: i64 = settlements.iter().map(|s| s.amount).sum();

    assert!((total_owed - total_settlements).abs() < 1);
}

#[test]
fn test_pairwise_settlements_stability() {
    let (alice, bob, charlie) = create_test_users();
    let group = create_group(
        vec![clone_user(&alice), clone_user(&bob), clone_user(&charlie)],
        vec![
            create_expense(
                1,
                "Dinner",
                9000,
                clone_user(&alice),
                vec![clone_user(&alice), clone_user(&bob), clone_user(&charlie)],
            ),
            create_expense(
                2,
                "Taxi",
                3000,
                clone_user(&bob),
                vec![clone_user(&alice), clone_user(&bob), clone_user(&charlie)],
            ),
        ],
    );

    let settlements = calculate_settlements(&group);

    // With pairwise settlements:
    // Dinner: Bob owes Alice $30, Charlie owes Alice $30
    // Taxi: Alice owes Bob $10, Charlie owes Bob $10
    // Net: Bob owes Alice $20, Charlie owes Alice $30, Charlie owes Bob $10
    assert_eq!(settlements.len(), 3);

    let bob_to_alice = settlements
        .iter()
        .find(|s| s.from == "Bob" && s.to == "Alice");
    let charlie_to_alice = settlements
        .iter()
        .find(|s| s.from == "Charlie" && s.to == "Alice");
    let charlie_to_bob = settlements
        .iter()
        .find(|s| s.from == "Charlie" && s.to == "Bob");

    assert!(bob_to_alice.is_some());
    assert!((bob_to_alice.unwrap().amount - 2000).abs() < 1);

    assert!(charlie_to_alice.is_some());
    assert!((charlie_to_alice.unwrap().amount - 3000).abs() < 1);

    assert!(charlie_to_bob.is_some());
    assert!((charlie_to_bob.unwrap().amount - 1000).abs() < 1);
}

#[test]
fn test_pairwise_settlements_after_settle() {
    let (alice, bob, charlie) = create_test_users();
    let group = create_group(
        vec![clone_user(&alice), clone_user(&bob), clone_user(&charlie)],
        vec![
            create_expense(
                1,
                "Dinner",
                9000,
                clone_user(&alice),
                vec![clone_user(&alice), clone_user(&bob), clone_user(&charlie)],
            ),
            create_expense(
                2,
                "Taxi",
                3000,
                clone_user(&bob),
                vec![clone_user(&alice), clone_user(&bob), clone_user(&charlie)],
            ),
            // Bob settles his debt to Alice ($20)
            create_expense(3, "Bob paid Alice", 2000, clone_user(&bob), vec![clone_user(&alice)]),
        ],
    );

    let settlements = calculate_settlements(&group);

    // Verify Bob no longer owes Alice
    let bob_to_alice = settlements
        .iter()
        .find(|s| s.from == "Bob" && s.to == "Alice");
    assert!(
        bob_to_alice.is_none(),
        "Bob should not owe Alice after settlement"
    );

    // Verify Charlie's settlements remain unchanged
    let charlie_to_alice = settlements
        .iter()
        .find(|s| s.from == "Charlie" && s.to == "Alice");
    let charlie_to_bob = settlements
        .iter()
        .find(|s| s.from == "Charlie" && s.to == "Bob");

    assert!(charlie_to_alice.is_some());
    assert!(
        (charlie_to_alice.unwrap().amount - 3000).abs() < 1,
        "Charlie→Alice should still be $30"
    );

    assert!(charlie_to_bob.is_some());
    assert!(
        (charlie_to_bob.unwrap().amount - 1000).abs() < 1,
        "Charlie→Bob should still be $10"
    );

    assert_eq!(settlements.len(), 2, "Should have exactly 2 settlements");
}

#[test]
fn test_balances_with_decimal_amounts() {
    let (alice, bob, _) = create_test_users();
    let group = create_group(
        vec![clone_user(&alice), clone_user(&bob)],
        vec![create_expense(
            1,
            "Coffee",
            750,
            clone_user(&alice),
            vec![clone_user(&alice), clone_user(&bob)],
        )],
    );

    let balances = calculate_balances(&group);
    assert_eq!(balances.cents("Alice"), Some(375));
    assert_eq!(balances.cents("Bob"), Some(-375));
}

// An uneven three-way split: the balances still sum to exactly zero in
// scaled units, and the rounded cents carry the drift below one cent.
#[test]
fn test_zero_sum_uneven_split() {
    let (alice, bob, charlie) = create_test_users();
    let group = create_group(
        vec![clone_user(&alice), clone_user(&bob), clone_user(&charlie)],
        vec![create_expense(
            1,
            "Groceries",
            1000,
            clone_user(&alice),
            vec![clone_user(&alice), clone_user(&bob), clone_user(&charlie)],
        )],
    );

    let balances = calculate_balances(&group);
    assert_eq!(balances.scale, 3);
    let sum: i128 = balances.entries.iter().map(|e| e.1).sum();
    assert_eq!(sum, 0);
    // Alice: +1000 - 1000/3 = +2000/3 cents, scaled by 3.
    let alice = balances.entries.iter().find(|e| e.0 == "Alice").unwrap();
    assert_eq!(alice.1, 2000);
    // 2000/3 cents rounds to 667.
    assert_eq!(balances.cents("Alice"), Some(667));
    assert_eq!(balances.cents("Bob"), Some(-333));
}

// A net pairwise debt of exactly one cent is suppressed.
#[test]
fn test_threshold_suppression() {
    let (alice, bob, _) = create_test_users();
    let group = create_group(
        vec![clone_user(&alice), clone_user(&bob)],
        vec![create_expense(
            1,
            "Gum",
            2,
            clone_user(&alice),
            vec![clone_user(&alice), clone_user(&bob)],
        )],
    );

    let settlements = calculate_settlements(&group);
    assert!(settlements.is_empty());

    let simplified = calculate_simplified_settlements(&group);
    assert!(simplified.is_empty());
}

// No emitted settlement ever pays a member to themselves.
#[test]
fn test_no_self_settlement() {
    let (alice, bob, charlie) = create_test_users();
    let group = create_group(
        vec![clone_user(&alice), clone_user(&bob), clone_user(&charlie)],
        vec![
            create_expense(
                1,
                "Dinner",
                9001,
                clone_user(&alice),
                vec![clone_user(&bob), clone_user(&charlie)],
            ),
            create_expense(2, "Taxi", 1731, clone_user(&charlie), vec![clone_user(&alice)]),
        ],
    );
    for s in calculate_settlements(&group) {
        assert_ne!(s.from, s.to);
        assert!(s.amount >= 2);
    }
    for s in calculate_simplified_settlements(&group) {
        assert_ne!(s.from, s.to);
        assert!(s.amount >= 2);
    }
}

// A group with members but no events has zero balances and no settlements
// under either policy.
#[test]
fn test_empty_group_both_policies() {
    let (alice, bob, _) = create_test_users();
    let mut group = create_group(vec![clone_user(&alice), clone_user(&bob)], vec![]);

    let balances = calculate_balances(&group);
    assert_eq!(balances.cents("Alice"), Some(0));
    assert_eq!(balances.cents("Bob"), Some(0));

    group.simplify_debts = false;
    assert!(get_settlements(&group).is_empty());
    group.simplify_debts = true;
    assert!(get_settlements(&group).is_empty());
}

// The pairwise output is sorted by (from, to).
#[test]
fn test_pairwise_output_sorted() {
    let (alice, bob, charlie) = create_test_users();
    let group = create_group(
        vec![clone_user(&charlie), clone_user(&bob), clone_user(&alice)],
        vec![
            create_expense(
                1,
                "Dinner",
                9000,
                clone_user(&alice),
                vec![clone_user(&alice), clone_user(&bob), clone_user(&charlie)],
            ),
            create_expense(
                2,
                "Taxi",
                3000,
                clone_user(&bob),
                vec![clone_user(&alice), clone_user(&bob), clone_user(&charlie)],
            ),
        ],
    );
    let settlements = calculate_settlements(&group);
    let keys: Vec<(String, String)> = settlements
        .iter()
        .map(|s| (s.from.clone(), s.to.clone()))
        .collect();
    let mut sorted_keys = keys.clone();
    sorted_keys.sort();
    assert_eq!(keys, sorted_keys);
    assert_eq!(
        keys,
        vec![
            ("Bob".to_string(), "Alice".to_string()),
            ("Charlie".to_string(), "Alice".to_string()),
            ("Charlie".to_string(), "Bob".to_string()),
        ]
    );
}

// The simplified resolver emits a transfer once its rounded amount
// exceeds one cent.
#[test]
fn test_simplified_emits_above_one_cent() {
    let (alice, bob, _) = create_test_users();
    let group = create_group(
        vec![clone_user(&alice), clone_user(&bob)],
        vec![create_expense(
            1,
            "Snack",
            4,
            clone_user(&alice),
            vec![clone_user(&alice), clone_user(&bob)],
        )],
    );
    // Bob owes 2 cents; the transfer rounds to 2 cents, above the 1-cent
    // threshold.
    let settlements: Vec<Settlement> = calculate_simplified_settlements(&group);
    assert_eq!(settlements.len(), 1);
    assert_eq!(settlements[0].from, "Bob");
    assert_eq!(settlements[0].to, "Alice");
    assert_eq!(settlements[0].amount, 2);
}

// A transfer whose rounded amount is exactly one cent is suppressed by
// both policies: the rounding happens before the threshold test.
#[test]
fn test_simplified_threshold_rounds_first() {
    let (alice, bob, charlie) = create_test_users();
    let group = create_group(
        vec![clone_user(&alice), clone_user(&bob), clone_user(&charlie)],
        vec![create_expense(
            1,
            "Stamps",
            4,
            clone_user(&alice),
            vec![clone_user(&alice), clone_user(&bob), clone_user(&charlie)],
        )],
    );
    // Bob and Charlie each owe 4/3 cents, which rounds to exactly 0.01.
    assert!(calculate_simplified_settlements(&group).is_empty());
    assert!(calculate_settlements(&group).is_empty());
}
