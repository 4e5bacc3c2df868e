use jama::date::Date;
use jama::decimal::Decimal;
use jama::model::{Account, Amount, Flag, Posting, Transaction};
use jama::reports::{
    account_str_matches, account_str_prefix, balance, check, is_networth_account, networth,
    register, BalanceOptions, CheckReport,
};

fn dec(s: &str) -> Decimal {
    Decimal::parse(s).unwrap()
}

fn acct(s: &str) -> Account {
    Account::parse(s).unwrap()
}

fn txn(y: i32, m: u32, d: u32, id: i64, postings: &[(&str, &str, &str)]) -> Transaction {
    let mut t = Transaction::new(Date::from_ymd(y, m, d).unwrap(), format!("t{id}"));
    t.id = Some(id);
    for (a, n, c) in postings {
        t.postings.push(Posting::new(acct(a), Amount::new(dec(n), c.to_string())));
    }
    t
}

fn row(a: &str, n: &str, c: &str) -> (String, Decimal, String) {
    (a.to_string(), dec(n), c.to_string())
}

#[test]
fn account_string_matching_and_prefixes() {
    assert!(account_str_matches("assets:checking", "assets"));
    assert!(account_str_matches("assets:checking", "assets:"));
    assert!(account_str_matches("assets", ""));
    assert!(!account_str_matches("assetsx:cash", "assets"));
    assert_eq!(account_str_prefix("assets:checking:alrajhi", 2), "assets:checking");
    assert_eq!(account_str_prefix("assets:checking", 5), "assets:checking");
    assert_eq!(account_str_prefix("assets:checking", 0), "");
}

#[test]
fn balance_groups_by_account_and_commodity_and_drops_zeros() {
    let rows = vec![
        row("assets:checking", "100", "SAR"),
        row("assets:checking", "-100", "SAR"),
        row("assets:checking", "5", "USD"),
        row("assets:savings", "10.50", "SAR"),
        row("expenses:cafe", "12", "SAR"),
    ];
    let out = balance(&rows, &BalanceOptions::default());
    assert_eq!(out.len(), 3);
    assert_eq!(out[0].account, "assets:checking");
    assert_eq!(out[0].balances.len(), 1);
    assert_eq!(out[0].balances[0].commodity, "USD");
    assert_eq!(out[1].account, "assets:savings");
    assert_eq!(out[1].balances[0].number.to_string(), "10.50");
    assert_eq!(out[2].account, "expenses:cafe");
}

#[test]
fn balance_filters_and_rolls_up_by_depth() {
    let rows = vec![
        row("assets:bank:a", "1", "SAR"),
        row("assets:bank:b", "2", "SAR"),
        row("expenses:cafe", "3", "SAR"),
    ];
    let opts = BalanceOptions {
        account_pattern: Some("assets:".to_string()),
        depth: Some(2),
        since: None,
        until: None,
        cleared_only: false,
    };
    let out = balance(&rows, &opts);
    assert_eq!(out.len(), 1);
    assert_eq!(out[0].account, "assets:bank");
    assert_eq!(out[0].balances[0].number.to_string(), "3");
    assert_eq!(out[0].balances[0].commodity, "SAR");
}

#[test]
fn multi_currency_balances_stay_separate() {
    let rows = vec![row("assets:wallet", "18000", "SAR"), row("assets:wallet", "500", "USD")];
    let out = balance(&rows, &BalanceOptions::default());
    assert_eq!(out.len(), 1);
    let commodities: Vec<&str> = out[0].balances.iter().map(|a| a.commodity.as_str()).collect();
    assert_eq!(commodities, vec!["SAR", "USD"]);
}

#[test]
fn register_keeps_a_running_balance_per_commodity() {
    let d = Date::from_ymd(2026, 1, 1).unwrap();
    let rows = vec![
        (1, d, Flag::Cleared, None, "a".to_string(), "assets:checking".to_string(), dec("10"), "SAR".to_string()),
        (2, d, Flag::Pending, Some("p".to_string()), "b".to_string(), "assets:checking".to_string(), dec("5"), "USD".to_string()),
        (3, d, Flag::Cleared, None, "c".to_string(), "assets:checking".to_string(), dec("-4"), "SAR".to_string()),
    ];
    let out = register(&rows);
    assert_eq!(out.len(), 3);
    assert_eq!(out[0].running_balance.len(), 1);
    assert_eq!(out[1].running_balance.len(), 2);
    assert_eq!(out[1].payee.as_deref(), Some("p"));
    assert_eq!(out[2].running_balance[0].commodity, "SAR");
    assert_eq!(out[2].running_balance[0].number.to_string(), "6");
    assert_eq!(out[2].running_balance[1].number.to_string(), "5");
    assert_eq!(out[2].amount.number.to_string(), "-4");
}

#[test]
fn networth_counts_assets_and_liabilities_only() {
    assert!(is_networth_account(&acct("assets:cash")));
    assert!(is_networth_account(&acct("liabilities:card")));
    assert!(!is_networth_account(&acct("income:salary")));
    let txns = vec![
        txn(2026, 1, 15, 1, &[("income:salary", "-1000", "SAR"), ("assets:checking", "1000", "SAR")]),
        txn(2026, 2, 15, 2, &[("income:salary", "-1000", "SAR"), ("assets:checking", "1000", "SAR")]),
        txn(2026, 2, 20, 3, &[("liabilities:card", "-200", "SAR"), ("expenses:food", "200", "SAR")]),
    ];
    let total = networth(&txns, false);
    assert_eq!(total.len(), 1);
    assert_eq!(total[0].as_of.to_string(), "2026-02-20");
    assert_eq!(total[0].balances[0].number.to_string(), "1800");
    let monthly = networth(&txns, true);
    assert_eq!(monthly.len(), 2);
    assert_eq!(monthly[0].as_of.to_string(), "2026-01-01");
    assert_eq!(monthly[0].balances[0].number.to_string(), "1000");
    assert_eq!(monthly[1].as_of.to_string(), "2026-02-01");
    assert_eq!(monthly[1].balances[0].number.to_string(), "1800");
}

#[test]
fn networth_orders_by_date_then_id() {
    let txns = vec![
        txn(2026, 3, 1, 2, &[("assets:a", "1", "SAR"), ("income:x", "-1", "SAR")]),
        txn(2026, 1, 1, 1, &[("assets:a", "1", "SAR"), ("income:x", "-1", "SAR")]),
    ];
    let total = networth(&txns, false);
    assert_eq!(total[0].as_of.to_string(), "2026-03-01");
    assert_eq!(total[0].balances[0].number.to_string(), "2");
}

#[test]
fn check_reports_imbalances_undeclared_accounts_and_failed_assertions() {
    let good = txn(2026, 1, 1, 1, &[("income:salary", "-10", "SAR"), ("assets:checking", "10", "SAR")]);
    let bad = txn(2026, 1, 2, 2, &[("expenses:food", "5", "SAR"), ("assets:checking", "-4", "SAR")]);
    let declared = vec!["assets:checking".to_string(), "income:salary".to_string()];
    let assertions = vec![
        (Date::from_ymd(2026, 1, 1).unwrap(), acct("assets:checking"), Amount::new(dec("10"), "SAR".to_string())),
        (Date::from_ymd(2026, 1, 3).unwrap(), acct("assets:checking"), Amount::new(dec("10"), "SAR".to_string())),
    ];
    let report = check(&vec![good, bad], &declared, &assertions, &vec![]);
    assert_eq!(report.transactions_checked, 2);
    assert_eq!(report.imbalances.len(), 1);
    assert_eq!(report.undeclared_accounts, vec!["expenses:food".to_string()]);
    assert_eq!(report.failed_assertions.len(), 1);
    assert!(!report.is_clean());
    assert!(CheckReport::default().is_clean());
}

#[test]
fn clean_ledger_checks_clean() {
    let good = txn(2026, 1, 1, 1, &[("income:salary", "-10", "SAR"), ("assets:checking", "10", "SAR")]);
    let declared = vec!["assets:checking".to_string(), "income:salary".to_string()];
    let report = check(&vec![good], &declared, &vec![], &vec![]);
    assert!(report.is_clean());
    assert_eq!(report.transactions_checked, 1);
}

#[test]
fn networth_monthly_points_are_dated_the_first_of_each_month() {
    let txns = vec![
        txn(2026, 1, 15, 1, &[("income:salary", "-1000", "SAR"), ("assets:checking", "1000", "SAR")]),
        txn(2026, 2, 15, 2, &[("income:salary", "-1000", "SAR"), ("assets:checking", "1000", "SAR")]),
    ];
    let points = networth(&txns, true);
    assert_eq!(points.len(), 2);
    assert_eq!(points[0].as_of.to_string(), "2026-01-01");
    assert_eq!(points[1].as_of.to_string(), "2026-02-01");
    assert_eq!(points[0].balances[0].number.to_string(), "1000");
    assert_eq!(points[1].balances[0].number.to_string(), "2000");
}

#[test]
fn trailing_colon_pattern_with_depth_shows_the_account() {
    let rows = vec![row("income:salary", "-18000", "SAR"), row("assets:checking", "18000", "SAR")];
    let mut opts = BalanceOptions::default();
    opts.account_pattern = Some("assets:".to_string());
    opts.depth = Some(2);
    let out = balance(&rows, &opts);
    assert_eq!(out.len(), 1);
    assert_eq!(out[0].account, "assets:checking");
    let plain = jama::color::Palette::new(false, false);
    assert_eq!(jama::render::format_amount(&out[0].balances[0], 2, &plain), "18,000.00 SAR");
}

#[test]
fn a_pad_before_an_assertion_absorbs_the_difference() {
    let t = txn(2026, 1, 5, 1, &[("assets:checking", "10", "SAR"), ("income:x", "-10", "SAR")]);
    let day = Date::from_ymd(2026, 1, 2).unwrap();
    let later = Date::from_ymd(2026, 1, 10).unwrap();
    let assertions = vec![(later, acct("assets:checking"), Amount::new(dec("1000"), "SAR".to_string()))];
    let declared = vec!["assets:checking".to_string(), "income:x".to_string()];
    let unpadded = check(&vec![t.clone()], &declared, &assertions, &vec![]);
    assert_eq!(unpadded.failed_assertions.len(), 1);
    let pads = vec![(day, acct("assets:checking"), acct("equity:opening"))];
    let padded = check(&vec![t.clone()], &declared, &assertions, &pads);
    assert!(padded.failed_assertions.is_empty());
    let late_pad = vec![(Date::from_ymd(2026, 2, 1).unwrap(), acct("assets:checking"), acct("equity:opening"))];
    assert_eq!(check(&vec![t], &declared, &assertions, &late_pad).failed_assertions.len(), 1);
}
