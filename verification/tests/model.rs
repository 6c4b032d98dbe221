//! Tests of the entities: transactions, groups, and their operations.

use beedget::datetime::DateTime;
use beedget::group::{Color, Group};
use beedget::transaction::{
    transaction_type_from_string, transaction_type_to_string, Transaction, TransactionType,
};
use beedget::DataError;

fn date() -> DateTime {
    DateTime::new(2024, 1, 1, 10, 0, 0, 0).unwrap()
}

fn color() -> Color {
    Color::new(100_000, 200_000, 300_000, 1_000_000).unwrap()
}

#[test]
fn transaction_ids_are_distinct() {
    let a = Transaction::new("a", TransactionType::EXPENSE, 1_000_000, date());
    let b = Transaction::new("b", TransactionType::EXPENSE, 1_000_000, date());
    assert_ne!(a.id(), b.id());
    let g1 = Group::new("🛒", color(), "one");
    let g2 = Group::new("🛒", color(), "two");
    assert_ne!(g1.id(), g2.id());
}

#[test]
fn signed_amount_sign_law() {
    let e = Transaction::new("coffee", TransactionType::EXPENSE, 3_500_000, date());
    let i = Transaction::new("salary", TransactionType::INCOME, 3_500_000, date());
    assert_eq!(e.signed_amount(), -3_500_000);
    assert_eq!(i.signed_amount(), 3_500_000);
    assert!(e.signed_amount() < 0);
    assert!(i.signed_amount() >= 0);
    assert_eq!(e.signed_amount().unsigned_abs(), e.amount());
    assert_eq!(i.signed_amount().unsigned_abs(), i.amount());
}

#[test]
fn transaction_setters() {
    let mut t = Transaction::new("old", TransactionType::EXPENSE, 1, date());
    let id = t.id();
    t.set_name("new");
    t.change_tr_type(TransactionType::INCOME);
    t.set_amount(42);
    let d2 = DateTime::new(2025, 12, 31, 23, 59, 59, 60).unwrap();
    t.set_date(d2);
    assert_eq!(t.id(), id);
    assert_eq!(t.name(), "new");
    assert!(matches!(t.tr_type(), TransactionType::INCOME));
    assert_eq!(t.amount(), 42);
    assert_eq!(t.date(), d2);
}

#[test]
fn add_transaction_appends_in_order() {
    let mut g = Group::new("🛒", color(), "Groceries");
    let a = Transaction::new("a", TransactionType::EXPENSE, 1, date());
    let b = Transaction::new("b", TransactionType::EXPENSE, 2, date());
    let c = Transaction::new("c", TransactionType::INCOME, 3, date());
    let (ia, ib, ic) = (a.id(), b.id(), c.id());
    g.new_transaction(a);
    g.new_transaction(b);
    g.new_transaction(c);
    assert_eq!(g.transactions.len(), 3);
    assert_eq!(g.transactions[0].id(), ia);
    assert_eq!(g.transactions[1].id(), ib);
    assert_eq!(g.transactions[2].id(), ic);
}

#[test]
fn delete_transaction_keeps_order() {
    let mut g = Group::new("🛒", color(), "Groceries");
    let a = Transaction::new("a", TransactionType::EXPENSE, 1, date());
    let b = Transaction::new("b", TransactionType::EXPENSE, 2, date());
    let c = Transaction::new("c", TransactionType::INCOME, 3, date());
    let (ia, ib, ic) = (a.id(), b.id(), c.id());
    g.new_transaction(a);
    g.new_transaction(b);
    g.new_transaction(c);
    let removed = g.delete_transaction(ib).unwrap();
    assert_eq!(removed.id(), ib);
    assert_eq!(removed.name(), "b");
    assert_eq!(g.transactions.len(), 2);
    assert_eq!(g.transactions[0].id(), ia);
    assert_eq!(g.transactions[1].id(), ic);
}

#[test]
fn delete_missing_transaction_reports_not_found() {
    let mut g = Group::new("🛒", color(), "Groceries");
    let a = Transaction::new("a", TransactionType::EXPENSE, 1, date());
    let ia = a.id();
    g.new_transaction(a);
    let err = g.delete_transaction(ia.wrapping_add(1)).unwrap_err();
    assert_eq!(err, DataError::NotFoundError);
    assert_eq!(g.transactions.len(), 1);
    assert_eq!(g.transactions[0].id(), ia);
}

#[test]
fn find_transaction_by_id() {
    let mut g = Group::new("🛒", color(), "Groceries");
    let a = Transaction::new("a", TransactionType::EXPENSE, 1, date());
    let ia = a.id();
    g.new_transaction(a);
    assert_eq!(g.find_transaction(ia).unwrap().name(), "a");
    assert!(g.find_transaction(ia.wrapping_add(1)).is_none());
}

#[test]
fn group_setters() {
    let mut g = Group::new("🛒", color(), "Groceries");
    let id = g.id();
    g.set_name("Food");
    g.set_emoji("🍞");
    let c2 = Color::new(0, 0, 0, 500_000).unwrap();
    g.set_color(&c2);
    assert_eq!(g.id(), id);
    assert_eq!(g.name(), "Food");
    assert_eq!(g.emoji(), "🍞");
    assert_eq!(g.color(), c2);
}

#[test]
fn group_duplicate_matches() {
    let mut g = Group::new("🛒", color(), "Groceries");
    g.new_transaction(Transaction::new("a", TransactionType::EXPENSE, 1, date()));
    let d = g.duplicate();
    assert_eq!(d.id(), g.id());
    assert_eq!(d.name(), g.name());
    assert_eq!(d.transactions.len(), 1);
    assert_eq!(d.transactions[0].id(), g.transactions[0].id());
}

#[test]
fn transaction_type_strings() {
    assert_eq!(transaction_type_to_string(&TransactionType::EXPENSE), "EXPENSE");
    assert_eq!(transaction_type_to_string(&TransactionType::INCOME), "INCOME");
    assert!(matches!(transaction_type_from_string("EXPENSE"), TransactionType::EXPENSE));
    assert!(matches!(transaction_type_from_string("INCOME"), TransactionType::INCOME));
}

#[test]
fn datetime_validation() {
    assert!(DateTime::new(2024, 2, 29, 0, 0, 0, 0).is_ok());
    assert_eq!(
        DateTime::new(2023, 2, 29, 0, 0, 0, 0).unwrap_err(),
        DataError::ValidationError
    );
    assert_eq!(
        DateTime::new(2024, 13, 1, 0, 0, 0, 0).unwrap_err(),
        DataError::ValidationError
    );
    assert_eq!(
        DateTime::new(2024, 4, 31, 0, 0, 0, 0).unwrap_err(),
        DataError::ValidationError
    );
    assert_eq!(
        DateTime::new(2024, 1, 1, 24, 0, 0, 0).unwrap_err(),
        DataError::ValidationError
    );
    assert_eq!(
        DateTime::new(2024, 1, 1, 0, 0, 0, 1440).unwrap_err(),
        DataError::ValidationError
    );
    assert!(DateTime::new(2000, 2, 29, 23, 59, 59, 1439).is_ok());
    assert!(DateTime::new(1900, 2, 29, 0, 0, 0, 0).is_err());
}

#[test]
fn color_validation() {
    assert!(Color::new(0, 0, 0, 0).is_ok());
    assert!(Color::new(1_000_000, 1_000_000, 1_000_000, 1_000_000).is_ok());
    assert_eq!(
        Color::new(1_000_001, 0, 0, 0).unwrap_err(),
        DataError::ValidationError
    );
}

#[test]
fn relative_date_labels() {
    let now = DateTime::new(2024, 3, 10, 15, 0, 0, 0).unwrap();
    let today = Transaction::new(
        "t",
        TransactionType::EXPENSE,
        1,
        DateTime::new(2024, 3, 10, 9, 5, 7, 0).unwrap(),
    );
    assert_eq!(today.relative_date(&now, false), "Today, 09:05");
    assert_eq!(today.relative_date(&now, true), "Today, 09:05:07 AM");

    let yesterday = Transaction::new(
        "y",
        TransactionType::EXPENSE,
        1,
        DateTime::new(2024, 3, 9, 21, 30, 0, 0).unwrap(),
    );
    assert_eq!(yesterday.relative_date(&now, false), "Yesterday, 21:30");
    assert_eq!(yesterday.relative_date(&now, true), "Yesterday, 09:30:00 PM");

    let older = Transaction::new(
        "o",
        TransactionType::EXPENSE,
        1,
        DateTime::new(2023, 12, 24, 12, 0, 0, 0).unwrap(),
    );
    assert_eq!(older.relative_date(&now, false), "12/24/23, 12:00");
}

#[test]
fn relative_date_across_boundaries() {
    // across a month boundary
    let now = DateTime::new(2023, 3, 1, 8, 0, 0, 0).unwrap();
    let t = Transaction::new(
        "t",
        TransactionType::EXPENSE,
        1,
        DateTime::new(2023, 2, 28, 12, 0, 0, 0).unwrap(),
    );
    assert!(t.relative_date(&now, false).starts_with("Yesterday"));
    // in a leap year February has one more day
    let now_leap = DateTime::new(2024, 3, 1, 8, 0, 0, 0).unwrap();
    let feb28 = Transaction::new(
        "f",
        TransactionType::EXPENSE,
        1,
        DateTime::new(2024, 2, 28, 12, 0, 0, 0).unwrap(),
    );
    assert!(feb28.relative_date(&now_leap, false).starts_with("02/28/24"));
    let feb29 = Transaction::new(
        "g",
        TransactionType::EXPENSE,
        1,
        DateTime::new(2024, 2, 29, 12, 0, 0, 0).unwrap(),
    );
    assert!(feb29.relative_date(&now_leap, false).starts_with("Yesterday"));
    // across a year boundary
    let now_ny = DateTime::new(2024, 1, 1, 8, 0, 0, 0).unwrap();
    let nye = Transaction::new(
        "n",
        TransactionType::EXPENSE,
        1,
        DateTime::new(2023, 12, 31, 12, 0, 0, 0).unwrap(),
    );
    assert!(nye.relative_date(&now_ny, false).starts_with("Yesterday"));
    // noon and midnight in the twelve-hour clock
    let noon = Transaction::new(
        "m",
        TransactionType::EXPENSE,
        1,
        DateTime::new(2024, 1, 1, 12, 0, 0, 0).unwrap(),
    );
    assert_eq!(noon.relative_date(&now_ny, true), "Today, 12:00:00 PM");
    let midnight = Transaction::new(
        "z",
        TransactionType::EXPENSE,
        1,
        DateTime::new(2024, 1, 1, 0, 0, 0, 0).unwrap(),
    );
    assert_eq!(midnight.relative_date(&now_ny, true), "Today, 12:00:00 AM");
}
