use jama::model::{Flag, Meta};
use jama::rows::{
    assertion_from_row, declaration_from_row, flag_from_column, join_list, meta_from_json, meta_json,
    pad_from_row, posting_from_row, split_list, transaction_from_row,
};

#[test]
fn list_columns_round_trip() {
    assert!(split_list("").is_empty());
    assert_eq!(split_list("a,b"), vec!["a".to_string(), "b".to_string()]);
    assert_eq!(join_list(&vec!["a".to_string(), "b".to_string()]), "a,b");
    assert_eq!(split_list(&join_list(&vec!["x".to_string()])), vec!["x".to_string()]);
}

#[test]
fn transaction_rows_read_back() {
    let mut meta = Meta::new();
    meta.insert("ref".to_string(), "7".to_string());
    let t = transaction_from_row(
        4,
        "2026-09-01",
        "!",
        Some("Shop".to_string()),
        "Groceries".to_string(),
        "food,weekly",
        "",
        meta,
    );
    assert_eq!(t.id, Some(4));
    assert_eq!(t.date.to_string(), "2026-09-01");
    assert_eq!(t.flag, Flag::Pending);
    assert_eq!(t.tags, vec!["food".to_string(), "weekly".to_string()]);
    assert!(t.links.is_empty());
    assert_eq!(t.meta.get("ref").unwrap(), "7");
    let odd = transaction_from_row(5, "garbage", "", None, "x".to_string(), "", "", Meta::new());
    assert_eq!(odd.flag, Flag::Cleared);
}

#[test]
fn posting_rows_fall_back_sensibly() {
    let p = posting_from_row("assets:cash", "12.50", "SAR".to_string(), None, None, None);
    assert_eq!(p.account.as_str(), "assets:cash");
    assert_eq!(p.amount.as_ref().unwrap().number.to_string(), "12.50");
    assert!(p.cost_or_price.is_none());
    let q = posting_from_row(
        "nowhere",
        "oops",
        "USD".to_string(),
        Some("1.5".to_string()),
        Some("EUR".to_string()),
        Some(1),
    );
    assert_eq!(q.account.as_str(), "expenses:unknown");
    assert_eq!(q.amount.as_ref().unwrap().number.to_string(), "0");
    let cp = q.cost_or_price.unwrap();
    assert!(cp.is_cost);
    assert_eq!(cp.amount.commodity, "EUR");
}

#[test]
fn declaration_assertion_and_pad_rows() {
    let d = declaration_from_row("assets:cash", "2026-01-01", Some("2026-12-31".to_string()), "SAR,USD").unwrap();
    assert_eq!(d.0.as_str(), "assets:cash");
    assert_eq!(d.2.unwrap().to_string(), "2026-12-31");
    assert_eq!(d.3, vec!["SAR".to_string(), "USD".to_string()]);
    assert!(declaration_from_row("bad", "2026-01-01", None, "").is_err());
    let a = assertion_from_row("2026-01-02", "assets:cash", "100", "SAR".to_string()).unwrap();
    assert_eq!(a.2.number.to_string(), "100");
    assert!(assertion_from_row("2026-01-02", "assets:cash", "x", "SAR".to_string()).is_err());
    let p = pad_from_row("2026-01-01", "assets:cash", "equity:opening").unwrap();
    assert_eq!(p.2.as_str(), "equity:opening");
    assert!(pad_from_row("2026-01-01", "assets:cash", "nope").is_err());
}

#[test]
fn flag_columns_read_back() {
    assert_eq!(flag_from_column("!"), Flag::Pending);
    assert_eq!(flag_from_column("*"), Flag::Cleared);
    assert_eq!(flag_from_column(""), Flag::Cleared);
    assert_eq!(flag_from_column("x"), Flag::Cleared);
}

#[test]
fn metadata_columns_are_json_objects() {
    let mut meta = Meta::new();
    meta.insert("ref".to_string(), "7".to_string());
    meta.insert("bank".to_string(), "alrajhi".to_string());
    assert_eq!(meta_json(&meta), "{\"bank\":\"alrajhi\",\"ref\":\"7\"}");
    assert_eq!(meta_json(&Meta::new()), "{}");
    let back = meta_from_json("{\"ref\":\"7\",\"bank\":\"alrajhi\"}");
    assert_eq!(back.len(), 2);
    assert_eq!(back.get("bank").unwrap(), "alrajhi");
    assert_eq!(back.get("ref").unwrap(), "7");
    assert_eq!(meta_from_json("not json").len(), 0);
    assert_eq!(meta_from_json("[1, 2]").len(), 0);
}
