use jama::date::Date;
use jama::decimal::Decimal;
use jama::model::{Account, Amount, Flag, Posting, Transaction};
use jama::reports::{
    balance, balance_in_range, check_in_range, networth_in_range, register_in_range, BalanceOptions,
    RegisterRow,
};

const MAX96: u128 = (1u128 << 96) - 1;

fn big(negative: bool) -> Decimal {
    Decimal::from_parts(negative, MAX96, 0).unwrap()
}

fn dec(s: &str) -> Decimal {
    Decimal::parse(s).unwrap()
}

fn acct(s: &str) -> Account {
    Account::parse(s).unwrap()
}

fn txn_with(id: i64, postings: Vec<(&str, Decimal)>) -> Transaction {
    let mut t = Transaction::new(Date::from_ymd(2024, 1, 1).unwrap(), format!("t{id}"));
    t.id = Some(id);
    for (a, n) in postings {
        t.postings.push(Posting::new(acct(a), Amount::new(n, "SAR".to_string())));
    }
    t
}

#[test]
fn sums_within_96_bits_fit() {
    assert!(dec("1").add_fits_with(&dec("1")));
    assert!(big(false).add_fits_with(&dec("-1")));
    assert!(Decimal::zero().add_fits_with(&big(true)));
    assert!(big(false).add_fits_with(&Decimal::zero()));
    assert!(big(false).add_fits_with(&big(true)));
}

#[test]
fn sums_beyond_96_bits_do_not_fit() {
    assert!(!big(false).add_fits_with(&dec("1")));
    assert!(!big(true).add_fits_with(&dec("-1")));
    // rescaling the whole-number operand to one decimal place overflows
    assert!(!big(false).add_fits_with(&dec("0.1")));
}

#[test]
fn opposite_signs_at_different_scales_fit_when_the_sum_is_small() {
    let a = Decimal::from_parts(false, 1u128 << 92, 0).unwrap();
    let b = Decimal::from_parts(true, (1u128 << 92) * 10 - 1, 1).unwrap();
    assert!(a.add_fits_with(&b));
    assert_eq!(a.add(&b).to_string(), "0.1");
}

#[test]
fn transaction_sums_in_range() {
    let ok = txn_with(1, vec![("assets:cash", dec("10")), ("expenses:food", dec("-10"))]);
    assert!(ok.sums_in_range());
    let bad = txn_with(2, vec![("assets:cash", big(false)), ("assets:bank", big(false))]);
    assert!(!bad.sums_in_range());
    let cancelling = txn_with(3, vec![("assets:cash", big(false)), ("assets:bank", big(true))]);
    assert!(cancelling.sums_in_range());
}

#[test]
fn sums_after_a_second_elided_posting_are_never_added() {
    let mut t = txn_with(4, vec![]);
    t.postings.push(Posting::elided(acct("assets:cash")));
    t.postings.push(Posting::elided(acct("assets:bank")));
    t.postings.push(Posting::new(acct("assets:a"), Amount::new(big(false), "SAR".to_string())));
    t.postings.push(Posting::new(acct("assets:b"), Amount::new(big(false), "SAR".to_string())));
    assert!(t.sums_in_range());
}

#[test]
fn balance_range_follows_each_account_total() {
    let opts = BalanceOptions::default();
    let rows = vec![
        ("assets:a".to_string(), big(false), "SAR".to_string()),
        ("assets:b".to_string(), big(false), "SAR".to_string()),
    ];
    assert!(balance_in_range(&rows, &opts));
    assert_eq!(balance(&rows, &opts).len(), 2);
    let rows = vec![
        ("assets:a".to_string(), big(false), "SAR".to_string()),
        ("assets:a".to_string(), dec("1"), "SAR".to_string()),
    ];
    assert!(!balance_in_range(&rows, &opts));
    let rows = vec![
        ("assets:a".to_string(), big(false), "SAR".to_string()),
        ("assets:a".to_string(), dec("1"), "USD".to_string()),
    ];
    assert!(balance_in_range(&rows, &opts));
    let mut only_b = BalanceOptions::default();
    only_b.account_pattern = Some("assets:b".to_string());
    let rows = vec![
        ("assets:a".to_string(), big(false), "SAR".to_string()),
        ("assets:a".to_string(), dec("1"), "SAR".to_string()),
    ];
    assert!(balance_in_range(&rows, &only_b));
}

fn reg_row(n: Decimal) -> RegisterRow {
    (
        1,
        Date::from_ymd(2024, 1, 1).unwrap(),
        Flag::Cleared,
        None,
        "x".to_string(),
        "assets:a".to_string(),
        n,
        "SAR".to_string(),
    )
}

#[test]
fn register_range_follows_the_running_total() {
    assert!(register_in_range(&vec![reg_row(big(false)), reg_row(big(true))]));
    assert!(!register_in_range(&vec![reg_row(big(false)), reg_row(dec("1"))]));
    assert!(register_in_range(&vec![]));
}

#[test]
fn networth_range_counts_only_assets_and_liabilities() {
    let t1 = txn_with(1, vec![("assets:a", big(false)), ("expenses:x", big(true))]);
    let t2 = txn_with(2, vec![("expenses:y", big(false)), ("income:z", big(true))]);
    assert!(networth_in_range(&vec![t1, t2]));
    let t1 = txn_with(1, vec![("assets:a", big(false)), ("expenses:x", big(true))]);
    let t3 = txn_with(3, vec![("liabilities:card", dec("1")), ("expenses:x", dec("-1"))]);
    assert!(!networth_in_range(&vec![t1, t3]));
}

#[test]
fn check_range_covers_transactions_and_assertions() {
    let t1 = txn_with(1, vec![("assets:a", big(false)), ("equity:o", big(true))]);
    let t2 = txn_with(2, vec![("assets:a", dec("1")), ("equity:o", dec("-1"))]);
    let day = Date::from_ymd(2024, 12, 31).unwrap();
    let assertion = (day, acct("assets:a"), Amount::new(dec("0"), "SAR".to_string()));
    assert!(check_in_range(&vec![t1, t2], &vec![]));
    let t1 = txn_with(1, vec![("assets:a", big(false)), ("equity:o", big(true))]);
    let t2 = txn_with(2, vec![("assets:a", dec("1")), ("equity:o", dec("-1"))]);
    assert!(!check_in_range(&vec![t1, t2], &vec![assertion]));
    let bad = txn_with(3, vec![("assets:a", big(false)), ("assets:b", big(false))]);
    assert!(!check_in_range(&vec![bad], &vec![]));
}
