//! Tests of the store: loading, membership changes, and change events.

use beedget::datetime::DateTime;
use beedget::group::{Color, Group};
use beedget::save_data::{ChangeKind, GroupEvent, SaveData};
use beedget::transaction::{Transaction, TransactionType};
use beedget::DataError;

fn color() -> Color {
    Color::new(200_000, 400_000, 600_000, 1_000_000).unwrap()
}

#[test]
fn empty_directory_yields_zero_groups() {
    let store = SaveData::new(&Vec::new()).unwrap();
    assert_eq!(store.groups().len(), 0);
}

#[test]
fn scenario_create_group() {
    let mut store = SaveData::new(&Vec::new()).unwrap();
    let g = Group::new("🛒", color(), "Groceries");
    let id = g.id();
    let filename = g.filename();
    let doc = g.to_json();
    // the embedding application writes `doc` to `groups/<filename>`
    // first; on success the group is committed to the store
    let ev = store.new_group(g);
    assert_eq!(ev, GroupEvent { kind: ChangeKind::Added, group_id: id });
    assert_eq!(store.groups().len(), 1);
    assert_eq!(store.groups()[0].id(), id);
    assert!(filename.ends_with(".json"));
    let parsed: serde_json::Value = serde_json::from_str(&doc).unwrap();
    assert_eq!(parsed["name"].as_str().unwrap(), "Groceries");
}

#[test]
fn scenario_save_and_reload() {
    let mut store = SaveData::new(&Vec::new()).unwrap();
    let g = Group::new("🛒", color(), "Groceries");
    let id = g.id();
    store.new_group(g);

    // edit a copy, then save it back into the store
    let mut edited = store.find_group(id).unwrap().duplicate();
    let date = DateTime::new(2024, 1, 1, 10, 0, 0, 0).unwrap();
    edited.new_transaction(Transaction::new(
        "Milk",
        TransactionType::EXPENSE,
        3_500_000,
        date,
    ));
    let doc = edited.to_json();
    let ev = store.save_group(edited).unwrap();
    assert_eq!(ev, GroupEvent { kind: ChangeKind::Changed, group_id: id });

    // a fresh store loaded from the same document sees the transaction
    let contents = vec![doc];
    let reloaded = SaveData::new(&contents).unwrap();
    assert_eq!(reloaded.groups().len(), 1);
    let rg = &reloaded.groups()[0];
    assert_eq!(rg.id(), id);
    assert_eq!(rg.transactions.len(), 1);
    let t = &rg.transactions[0];
    assert_eq!(t.amount(), 3_500_000);
    assert!(matches!(t.tr_type(), TransactionType::EXPENSE));
    assert_eq!(t.signed_amount(), -3_500_000);
    assert_eq!(t.date(), date);
}

#[test]
fn scenario_delete_group() {
    let mut store = SaveData::new(&Vec::new()).unwrap();
    let g1 = Group::new("🛒", color(), "Groceries");
    let g2 = Group::new("🚗", color(), "Car");
    let (id1, id2) = (g1.id(), g2.id());
    store.new_group(g1);
    store.new_group(g2);

    let (removed, ev) = store.delete_group(id1).unwrap();
    assert_eq!(removed.id(), id1);
    assert_eq!(ev, GroupEvent { kind: ChangeKind::Removed, group_id: id1 });
    assert_eq!(store.groups().len(), 1);
    assert!(store.groups().iter().all(|g| g.id() != id1));
    assert_eq!(store.groups()[0].id(), id2);
}

#[test]
fn delete_missing_group_reports_not_found() {
    let mut store = SaveData::new(&Vec::new()).unwrap();
    let g = Group::new("🛒", color(), "Groceries");
    let id = g.id();
    store.new_group(g);
    let err = store.delete_group(id.wrapping_add(1)).unwrap_err();
    assert_eq!(err, DataError::NotFoundError);
    assert_eq!(store.groups().len(), 1);
}

#[test]
fn save_missing_group_reports_not_found() {
    let mut store = SaveData::new(&Vec::new()).unwrap();
    let stray = Group::new("🛒", color(), "Stray");
    let err = store.save_group(stray).unwrap_err();
    assert_eq!(err, DataError::NotFoundError);
    assert_eq!(store.groups().len(), 0);
}

#[test]
fn invalid_document_aborts_the_load() {
    let good = Group::new("🛒", color(), "Groceries").to_json();
    let contents = vec![good, String::from("{ this is not a group }")];
    let err = SaveData::new(&contents).unwrap_err();
    assert_eq!(err, DataError::ParseError);
}

#[test]
fn loading_keeps_directory_order() {
    let a = Group::new("🛒", color(), "A");
    let b = Group::new("🚗", color(), "B");
    let (ia, ib) = (a.id(), b.id());
    let contents = vec![a.to_json(), b.to_json()];
    let store = SaveData::new(&contents).unwrap();
    assert_eq!(store.groups().len(), 2);
    assert_eq!(store.groups()[0].id(), ia);
    assert_eq!(store.groups()[1].id(), ib);
    assert_eq!(store.groups()[0].name(), "A");
    assert_eq!(store.groups()[1].name(), "B");
}

#[test]
fn find_group_by_id() {
    let mut store = SaveData::new(&Vec::new()).unwrap();
    let g = Group::new("🛒", color(), "Groceries");
    let id = g.id();
    store.new_group(g);
    assert_eq!(store.find_group(id).unwrap().name(), "Groceries");
    assert!(store.find_group(id.wrapping_add(1)).is_none());
}
