use jama::date::Date;
use jama::decimal::Decimal;
use jama::export::{all_directives, csv_escape, render, ExportFormat};
use jama::model::{Account, Amount, CommodityInfo, Directive, Posting, Transaction};

fn acct(s: &str) -> Account {
    Account::parse(s).unwrap()
}

fn sample() -> Vec<Directive> {
    let date = Date::from_ymd(2026, 9, 1).unwrap();
    let mut t = Transaction::new(date, "Coffee, please".to_string());
    t.payee = Some("Cafe".to_string());
    t.postings.push(Posting::new(
        acct("assets:checking"),
        Amount::new(Decimal::parse("-12.50").unwrap(), "SAR".to_string()),
    ));
    t.postings.push(Posting::elided(acct("expenses:cafe")));
    all_directives(
        &vec![CommodityInfo::new("SAR".to_string(), 2)],
        &vec![(acct("assets:checking"), date, None, vec!["SAR".to_string()])],
        &vec![],
        &vec![],
        &vec![t],
    )
}

#[test]
fn export_formats_parse_in_any_case() {
    assert_eq!(ExportFormat::parse("BEAN").unwrap(), ExportFormat::Beancount);
    assert_eq!(ExportFormat::parse("hledger").unwrap(), ExportFormat::Ledger);
    assert_eq!(ExportFormat::parse("Csv").unwrap(), ExportFormat::Csv);
    assert_eq!(
        ExportFormat::parse("xml").unwrap_err(),
        "unknown export format \"xml\" (expected beancount, ledger, or csv)"
    );
}

#[test]
fn directives_sort_by_date_then_kind() {
    let ds = sample();
    assert_eq!(ds.len(), 3);
    assert!(matches!(ds[0], Directive::Commodity { .. }));
    assert!(matches!(ds[1], Directive::Open { .. }));
    assert!(matches!(ds[2], Directive::Transaction(_)));
}

#[test]
fn csv_export_escapes_and_lists_postings() {
    let out = render(&sample(), ExportFormat::Csv);
    assert_eq!(
        out,
        "date,flag,payee,narration,account,amount,commodity\n\
2026-09-01,*,Cafe,\"Coffee, please\",assets:checking,-12.50,SAR\n\
2026-09-01,*,Cafe,\"Coffee, please\",expenses:cafe,,\n"
    );
    assert_eq!(csv_escape("say \"hi\""), "\"say \"\"hi\"\"\"");
    assert_eq!(csv_escape("plain"), "plain");
}

#[test]
fn ledger_export_pads_accounts_to_forty_columns() {
    let out = render(&sample(), ExportFormat::Ledger);
    let expected = format!(
        "2026-09-01 open assets:checking SAR\n2026-09-01 Cafe - Coffee, please\n    {:<40}-12.50 SAR\n    {:<40}\n\n",
        "assets:checking", "expenses:cafe"
    );
    assert_eq!(out, expected);
}

#[test]
fn beancount_export_is_the_serialized_ledger() {
    let ds = sample();
    let out = render(&ds, ExportFormat::Beancount);
    assert_eq!(out, jama::parser::serialize(&ds));
    assert!(out.starts_with("1970-01-01 commodity SAR\n  precision: \"2\"\n"));
}

#[test]
fn declarations_come_before_dated_entries() {
    let early = Date::from_ymd(2026, 1, 5).unwrap();
    let late = Date::from_ymd(2026, 6, 1).unwrap();
    let mut t = Transaction::new(early, "Rent".to_string());
    t.postings.push(Posting::new(acct("expenses:rent"), Amount::new(Decimal::parse("10").unwrap(), "SAR".to_string())));
    t.postings.push(Posting::elided(acct("assets:bank")));
    let out = all_directives(
        &vec![CommodityInfo::new("USD".to_string(), 2)],
        &vec![
            (acct("expenses:rent"), late, None, vec![]),
            (acct("assets:bank"), late, Some(late), vec![]),
        ],
        &vec![],
        &vec![],
        &vec![t],
    );
    assert_eq!(out.len(), 5);
    assert!(matches!(out[0], Directive::Commodity { .. }));
    match &out[1] {
        Directive::Open { account, .. } => assert_eq!(account.as_str(), "assets:bank"),
        _ => panic!("expected an open"),
    }
    assert!(matches!(out[2], Directive::Close { .. }));
    match &out[3] {
        Directive::Open { account, .. } => assert_eq!(account.as_str(), "expenses:rent"),
        _ => panic!("expected an open"),
    }
    assert!(matches!(out[4], Directive::Transaction(_)));
}
