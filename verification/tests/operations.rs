// Tests of the ledger operations: validation, accounts, groups, events,
// settlement records and annotation.

use splitdumb::errors::AppError;
use splitdumb::expenses::{create_expense, delete_expense, settle};
use splitdumb::groups::{create_group, delete_group, switch_group, toggle_simplify, update_group};
use splitdumb::models::{AppData, Expense, ExpenseKind, Group, SettledSettlement, Settlement, User};
use splitdumb::settlements::{annotate, get_settlements};
use splitdumb::storage::Storage;
use splitdumb::users::{delete_user, login, register, validate_phone};

fn member(id: usize, name: &str) -> User {
    User { id, name: name.to_string() }
}

fn plain_expense(id: usize, amount: i64, payer: User, participants: Vec<User>) -> Expense {
    Expense {
        id,
        description: "Dinner".to_string(),
        amount,
        payer,
        participants,
        created_at: "2024-01-01T00:00:00Z".to_string(),
        category: None,
        notes: None,
        kind: ExpenseKind::Regular,
    }
}

fn two_member_group() -> Group {
    Group {
        id: 1,
        name: "Trip".to_string(),
        members: vec![member(1, "Alice"), member(2, "Bob")],
        expenses: vec![],
        simplify_debts: false,
        settled_settlements: vec![],
    }
}

#[test]
fn test_validate_phone_extracts_digits() {
    // Would fail if the digit filter handed its input back unchanged.
    let digits = validate_phone("(123) 456-7890").unwrap();
    assert_eq!(digits, "1234567890");
}

#[test]
fn test_validate_phone_too_short() {
    let r = validate_phone("12345");
    assert!(matches!(r, Err(AppError::BadRequest(_))));
}

#[test]
fn test_create_expense_trims_description() {
    // Would fail if trimming handed its input back unchanged.
    let mut group = two_member_group();
    let e = create_expense(
        &mut group,
        "  Dinner out  ",
        5000,
        "Alice",
        &vec!["Alice".to_string(), "Bob".to_string()],
        None,
        None,
        "2024-01-01T00:00:00Z".to_string(),
    )
    .unwrap();
    assert_eq!(e.description, "Dinner out");
    assert_eq!(e.id, 1);
    assert_eq!(e.amount, 5000);
    assert_eq!(e.payer.name, "Alice");
    assert_eq!(group.expenses.len(), 1);
}

#[test]
fn test_create_expense_rejects_bad_input() {
    let mut group = two_member_group();
    let r = create_expense(
        &mut group,
        "   ",
        5000,
        "Alice",
        &vec!["Alice".to_string()],
        None,
        None,
        "t".to_string(),
    );
    assert!(matches!(r, Err(AppError::BadRequest(_))));
    let r = create_expense(
        &mut group,
        "Dinner",
        0,
        "Alice",
        &vec!["Alice".to_string()],
        None,
        None,
        "t".to_string(),
    );
    assert!(matches!(r, Err(AppError::BadRequest(_))));
    let r = create_expense(&mut group, "Dinner", 5000, "Alice", &vec![], None, None, "t".to_string());
    assert!(matches!(r, Err(AppError::BadRequest(_))));
    let r = create_expense(
        &mut group,
        "Dinner",
        5000,
        "Mallory",
        &vec!["Alice".to_string()],
        None,
        None,
        "t".to_string(),
    );
    assert!(matches!(r, Err(AppError::NotFound(_))));
    assert!(group.expenses.is_empty());
}

#[test]
fn test_settle_records_payment() {
    let mut group = two_member_group();
    group.expenses.push(plain_expense(
        1,
        5000,
        member(1, "Alice"),
        vec![member(1, "Alice"), member(2, "Bob")],
    ));
    let e = settle(&mut group, "Bob", "Alice", 2500, "2024-01-02T00:00:00Z").unwrap();
    assert_eq!(e.description, "Bob paid Alice");
    assert_eq!(e.amount, 2500);
    assert_eq!(e.payer.name, "Bob");
    assert_eq!(e.participants.len(), 1);
    assert_eq!(e.participants[0].name, "Alice");
    assert!(matches!(e.kind, ExpenseKind::SettlementPayment));
    assert_eq!(group.expenses.len(), 2);
    assert_eq!(group.settled_settlements.len(), 1);
    assert_eq!(group.settled_settlements[0].from, "Bob");
    assert_eq!(group.settled_settlements[0].to, "Alice");

    // after settling, the pairwise resolver owes nothing and the suggestion
    // list is empty
    let suggestions = get_settlements(&group);
    assert!(suggestions.is_empty());
}

#[test]
fn test_settle_rejections() {
    let mut group = two_member_group();
    assert!(matches!(
        settle(&mut group, "Bob", "Alice", 0, "t"),
        Err(AppError::BadRequest(_))
    ));
    assert!(matches!(
        settle(&mut group, "Bob", "Bob", 100, "t"),
        Err(AppError::BadRequest(_))
    ));
    assert!(matches!(
        settle(&mut group, "Mallory", "Alice", 100, "t"),
        Err(AppError::BadRequest(_))
    ));
}

#[test]
fn test_delete_expense_revokes_settlement_record() {
    let mut group = two_member_group();
    group.expenses.push(plain_expense(
        1,
        5000,
        member(1, "Alice"),
        vec![member(1, "Alice"), member(2, "Bob")],
    ));
    settle(&mut group, "Bob", "Alice", 2500, "2024-01-02T00:00:00Z").unwrap();
    assert_eq!(group.settled_settlements.len(), 1);
    let settlement_event_id = group.expenses[1].id;

    delete_expense(&mut group, settlement_event_id).unwrap();
    assert_eq!(group.expenses.len(), 1);
    assert!(group.settled_settlements.is_empty());
}

#[test]
fn test_delete_expense_not_found() {
    let mut group = two_member_group();
    assert!(matches!(
        delete_expense(&mut group, 42),
        Err(AppError::NotFound(_))
    ));
}

#[test]
fn test_annotate_marks_settled_pairs() {
    let mut settlements = vec![
        Settlement { from: "Bob".to_string(), to: "Alice".to_string(), amount: 2500, settled: false },
        Settlement { from: "Carol".to_string(), to: "Alice".to_string(), amount: 100, settled: false },
    ];
    let records = vec![SettledSettlement {
        from: "Bob".to_string(),
        to: "Alice".to_string(),
        amount: 999,
        settled_at: "2024-01-02T00:00:00Z".to_string(),
    }];
    annotate(&mut settlements, &records);
    // matched by pair identity, whatever the recorded amount
    assert!(settlements[0].settled);
    assert!(!settlements[1].settled);

    // annotating again changes nothing
    let first: Vec<(String, String, i64, bool)> = settlements
        .iter()
        .map(|s| (s.from.clone(), s.to.clone(), s.amount, s.settled))
        .collect();
    annotate(&mut settlements, &records);
    let second: Vec<(String, String, i64, bool)> = settlements
        .iter()
        .map(|s| (s.from.clone(), s.to.clone(), s.amount, s.settled))
        .collect();
    assert_eq!(first, second);
}

#[test]
fn test_get_settlements_annotates_outstanding_pairs() {
    let mut group = two_member_group();
    group.expenses.push(plain_expense(
        1,
        5000,
        member(1, "Alice"),
        vec![member(1, "Alice"), member(2, "Bob")],
    ));
    // a stale record for the pair marks even a newly owed amount as settled
    group.settled_settlements.push(SettledSettlement {
        from: "Bob".to_string(),
        to: "Alice".to_string(),
        amount: 1,
        settled_at: "2023-01-01T00:00:00Z".to_string(),
    });
    let suggestions = get_settlements(&group);
    assert_eq!(suggestions.len(), 1);
    assert_eq!(suggestions[0].from, "Bob");
    assert_eq!(suggestions[0].to, "Alice");
    assert_eq!(suggestions[0].amount, 2500);
    assert!(suggestions[0].settled);
}

#[test]
fn test_register_and_login() {
    let mut app = AppData { groups: vec![], users: vec![], current_group_id: 0 };
    let u = register(
        &mut app,
        "123-456-7890",
        " Dana ",
        "token-1".to_string(),
        "2024-02-01T00:00:00Z".to_string(),
    )
    .unwrap();
    assert_eq!(u.id, 1);
    assert_eq!(u.phone, "1234567890");
    assert_eq!(u.name, "Dana");

    // a second registration under the same phone is rejected
    let again = register(
        &mut app,
        "1234567890",
        "Dana",
        "token-2".to_string(),
        "2024-02-01T00:00:00Z".to_string(),
    );
    assert!(matches!(again, Err(AppError::BadRequest(_))));

    // logging in rotates the token
    let logged = login(&mut app, "1234567890", "token-3".to_string(), "2024-03-01T00:00:00Z".to_string())
        .unwrap();
    assert_eq!(logged.id, 1);
    assert_eq!(logged.token, "token-3");
    assert_eq!(app.users[0].token, "token-3");

    // an unknown phone cannot log in
    let unknown = login(&mut app, "9999999999", "t".to_string(), "e".to_string());
    assert!(matches!(unknown, Err(AppError::NotFound(_))));
}

#[test]
fn test_delete_user_rules() {
    let mut group = two_member_group();
    group.expenses.push(plain_expense(
        1,
        5000,
        member(1, "Alice"),
        vec![member(1, "Alice"), member(2, "Bob")],
    ));
    // Bob participates in an expense and cannot be removed
    assert!(matches!(
        delete_user(&mut group, 2),
        Err(AppError::BadRequest(_))
    ));
    // an unknown id is not found
    assert!(matches!(
        delete_user(&mut group, 9),
        Err(AppError::NotFound(_))
    ));
    // a bystander can be removed
    group.members.push(member(3, "Charlie"));
    delete_user(&mut group, 3).unwrap();
    assert_eq!(group.members.len(), 2);
}

#[test]
fn test_group_lifecycle() {
    let mut app = AppData { groups: vec![], users: vec![], current_group_id: 0 };
    assert!(matches!(
        create_group(&mut app, "   "),
        Err(AppError::BadRequest(_))
    ));
    let id1 = create_group(&mut app, " Trip to Paris ").unwrap();
    assert_eq!(id1, 1);
    assert_eq!(app.groups[0].name, "Trip to Paris");
    assert_eq!(app.current_group_id, 1);
    let id2 = create_group(&mut app, "Flat").unwrap();
    assert_eq!(id2, 2);
    assert_eq!(app.current_group_id, 1);

    switch_group(&mut app, 2).unwrap();
    assert_eq!(app.current_group_id, 2);
    assert!(matches!(
        switch_group(&mut app, 7),
        Err(AppError::NotFound(_))
    ));

    update_group(&mut app, 2, "Flatshare").unwrap();
    assert_eq!(app.groups[1].name, "Flatshare");

    let toggled = toggle_simplify(&mut app).unwrap();
    assert!(toggled);
    assert!(app.groups[1].simplify_debts);

    let switched = delete_group(&mut app, 2).unwrap();
    assert_eq!(switched, Some(1));
    assert_eq!(app.current_group_id, 1);
    assert_eq!(app.groups.len(), 1);
    assert!(matches!(
        delete_group(&mut app, 2),
        Err(AppError::NotFound(_))
    ));
}

#[test]
fn test_storage_path_set_once() {
    let mut store = Storage::default();
    assert_eq!(store.get_data_file(), "app_data.json");
    store.init("custom.json");
    assert_eq!(store.get_data_file(), "custom.json");
    store.init("other.json");
    assert_eq!(store.get_data_file(), "custom.json");
}

#[test]
fn test_check_group_accepts_and_rejects() {
    let mut group = two_member_group();
    assert!(splitdumb::balances::check_group(&group));
    group.expenses.push(plain_expense(
        1,
        5000,
        member(9, "Mallory"),
        vec![member(1, "Alice")],
    ));
    assert!(!splitdumb::balances::check_group(&group));
}
