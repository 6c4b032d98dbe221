//! Tests of the document codec: rendering, parsing, and the round trip.

use beedget::datetime::DateTime;
use beedget::group::{Color, Group};
use beedget::transaction::{Transaction, TransactionType};
use beedget::DataError;

fn sample_date() -> DateTime {
    DateTime::new(2024, 1, 1, 10, 0, 0, 0).unwrap()
}

fn sample_color() -> Color {
    Color::new(200_000, 400_000, 600_000, 1_000_000).unwrap()
}

#[test]
fn round_trip_empty_group() {
    let g = Group::new("🛒", sample_color(), "Groceries");
    let doc = g.to_json();
    let back = Group::from_json(&doc).unwrap();
    assert_eq!(back.id(), g.id());
    assert_eq!(back.name(), "Groceries");
    assert_eq!(back.emoji(), "🛒");
    assert_eq!(back.color(), sample_color());
    assert_eq!(back.transactions.len(), 0);
}

#[test]
fn round_trip_group_with_transactions() {
    let mut g = Group::new("🍕", sample_color(), "Food \"and\" \\ drink\nwith emoji 🎉");
    let t1 = Transaction::new("Milk", TransactionType::EXPENSE, 3_500_000, sample_date());
    let t1_id = t1.id();
    let t2 = Transaction::new(
        "Salary",
        TransactionType::INCOME,
        1_234_567,
        DateTime::new(2023, 12, 31, 23, 59, 59, -330).unwrap(),
    );
    let t2_id = t2.id();
    g.new_transaction(t1);
    g.new_transaction(t2);

    let doc = g.to_json();
    let back = Group::from_json(&doc).unwrap();
    assert_eq!(back.name(), "Food \"and\" \\ drink\nwith emoji 🎉");
    assert_eq!(back.transactions.len(), 2);
    assert_eq!(back.transactions[0].id(), t1_id);
    assert_eq!(back.transactions[0].name(), "Milk");
    assert_eq!(back.transactions[0].amount(), 3_500_000);
    assert!(matches!(back.transactions[0].tr_type(), TransactionType::EXPENSE));
    assert_eq!(back.transactions[1].id(), t2_id);
    assert_eq!(back.transactions[1].amount(), 1_234_567);
    assert!(matches!(back.transactions[1].tr_type(), TransactionType::INCOME));
    let d = back.transactions[1].date();
    assert_eq!(d.year, 2023);
    assert_eq!(d.offset_minutes, -330);
}

#[test]
fn document_is_plain_json() {
    let mut g = Group::new("🛒", sample_color(), "Groceries");
    g.new_transaction(Transaction::new(
        "Milk",
        TransactionType::EXPENSE,
        3_500_000,
        sample_date(),
    ));
    let doc = g.to_json();
    let v: serde_json::Value = serde_json::from_str(&doc).unwrap();
    assert_eq!(v["name"].as_str().unwrap(), "Groceries");
    assert_eq!(v["emoji"].as_str().unwrap(), "🛒");
    let color = v["color"].as_array().unwrap();
    assert_eq!(color.len(), 4);
    assert_eq!(color[0].as_f64().unwrap(), 0.2);
    assert_eq!(color[3].as_f64().unwrap(), 1.0);
    let txs = v["transactions"].as_array().unwrap();
    assert_eq!(txs.len(), 1);
    assert_eq!(txs[0]["name"].as_str().unwrap(), "Milk");
    assert_eq!(txs[0]["tr_type"].as_str().unwrap(), "EXPENSE");
    assert_eq!(txs[0]["amount"].as_f64().unwrap(), 3.5);
    assert_eq!(txs[0]["date"].as_str().unwrap(), "2024-01-01T10:00:00Z");
}

#[test]
fn document_text_shape() {
    let g = Group::new("🛒", sample_color(), "Groceries");
    let doc = g.to_json();
    assert!(doc.starts_with("{\"id\":\""));
    assert!(doc.contains("\"color\":[0.2,0.4,0.6,1.0]"));
    assert!(doc.ends_with("\"transactions\":[]}"));
}

#[test]
fn from_json_rejects_invalid_json() {
    assert_eq!(Group::from_json("not json at all").unwrap_err(), DataError::ParseError);
    assert_eq!(Group::from_json("").unwrap_err(), DataError::ParseError);
    assert_eq!(Group::from_json("{}").unwrap_err(), DataError::ParseError);
}

#[test]
fn from_json_rejects_trailing_garbage() {
    let g = Group::new("🛒", sample_color(), "Groceries");
    let mut doc = g.to_json();
    doc.push_str("garbage");
    assert_eq!(Group::from_json(&doc).unwrap_err(), DataError::ParseError);
}

#[test]
fn from_json_rejects_empty_name() {
    let g = Group::new("🛒", sample_color(), "Groceries");
    let doc = g.to_json().replace("\"name\":\"Groceries\"", "\"name\":\"\"");
    assert_eq!(Group::from_json(&doc).unwrap_err(), DataError::ParseError);
}

#[test]
fn from_json_rejects_zero_amount() {
    let mut g = Group::new("🛒", sample_color(), "Groceries");
    g.new_transaction(Transaction::new(
        "Milk",
        TransactionType::EXPENSE,
        3_500_000,
        sample_date(),
    ));
    let doc = g.to_json().replace("\"amount\":3.5", "\"amount\":0.0");
    assert_eq!(Group::from_json(&doc).unwrap_err(), DataError::ParseError);
}

#[test]
fn from_json_rejects_bad_date() {
    let mut g = Group::new("🛒", sample_color(), "Groceries");
    g.new_transaction(Transaction::new(
        "Milk",
        TransactionType::EXPENSE,
        3_500_000,
        sample_date(),
    ));
    let doc = g.to_json().replace("2024-01-01T10:00:00Z", "2024-13-01T10:00:00Z");
    assert_eq!(Group::from_json(&doc).unwrap_err(), DataError::ParseError);
}

#[test]
fn from_json_rejects_duplicate_transaction_ids() {
    let mut g = Group::new("🛒", sample_color(), "Groceries");
    let t = Transaction::new("Milk", TransactionType::EXPENSE, 3_500_000, sample_date());
    g.new_transaction(t);
    let doc = g.to_json();
    // duplicate the single transaction object inside the array
    let start = doc.find("\"transactions\":[").unwrap() + "\"transactions\":[".len();
    let end = doc.rfind("]}").unwrap();
    let tx_obj = &doc[start..end];
    let twisted = format!(
        "{}{},{}{}",
        &doc[..start],
        tx_obj,
        tx_obj,
        &doc[end..]
    );
    assert_eq!(Group::from_json(&twisted).unwrap_err(), DataError::ParseError);
}

#[test]
fn filename_is_uuid_dot_json() {
    let g = Group::new("🛒", sample_color(), "Groceries");
    let name = g.filename();
    assert_eq!(name.len(), 41);
    assert!(name.ends_with(".json"));
    assert!(!name.contains('/'));
    // the first 36 characters are a valid hyphenated UUID
    let parsed = uuid::Uuid::parse_str(&name[..36]).unwrap();
    assert_eq!(parsed.as_u128(), g.id());
}

#[test]
fn date_offsets_round_trip() {
    let mut g = Group::new("🕰", sample_color(), "Times");
    let plus = DateTime::new(2020, 6, 15, 8, 30, 45, 330).unwrap();
    let minus = DateTime::new(1999, 2, 28, 0, 0, 0, -720).unwrap();
    g.new_transaction(Transaction::new("a", TransactionType::INCOME, 1, plus));
    g.new_transaction(Transaction::new("b", TransactionType::INCOME, 1, minus));
    let doc = g.to_json();
    assert!(doc.contains("2020-06-15T08:30:45+05:30"));
    assert!(doc.contains("1999-02-28T00:00:00-12:00"));
    let back = Group::from_json(&doc).unwrap();
    assert_eq!(back.transactions[0].date(), plus);
    assert_eq!(back.transactions[1].date(), minus);
}

#[test]
fn amount_precision_is_kept() {
    let mut g = Group::new("🛒", sample_color(), "Groceries");
    g.new_transaction(Transaction::new(
        "precise",
        TransactionType::EXPENSE,
        1,
        sample_date(),
    ));
    g.new_transaction(Transaction::new(
        "large",
        TransactionType::INCOME,
        999_999_999_999_999_999,
        sample_date(),
    ));
    let doc = g.to_json();
    assert!(doc.contains("\"amount\":0.000001"));
    assert!(doc.contains("\"amount\":999999999999.999999"));
    let back = Group::from_json(&doc).unwrap();
    assert_eq!(back.transactions[0].amount(), 1);
    assert_eq!(back.transactions[1].amount(), 999_999_999_999_999_999);
}
