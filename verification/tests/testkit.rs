use jama::model::{Directive, Flag};
use jama::parser::{parse, serialize};
use jama::testkit::{
    declared_accounts, format_ddmmyyyy, synthetic_beancount_text, synthetic_csv_and_rules,
    synthetic_directives, synthetic_transactions,
};

#[test]
fn synthetic_transactions_cycle_accounts_and_payees() {
    let txns = synthetic_transactions(60);
    assert_eq!(txns.len(), 60);
    assert_eq!(txns[0].date.to_string(), "2020-01-01");
    assert_eq!(txns[0].flag, Flag::Pending);
    assert_eq!(txns[1].flag, Flag::Cleared);
    assert_eq!(txns[0].payee.as_deref(), Some("Cafe Bateel"));
    assert_eq!(txns[0].postings[0].account.as_str(), "income:salary");
    assert_eq!(txns[0].postings[1].amount.as_ref().unwrap().number.to_string(), "15000.00");
    assert_eq!(txns[1].narration, "Synthetic transaction 1");
    assert_eq!(txns[1].postings[1].account.as_str(), "expenses:transport");
    assert_eq!(txns[1].postings[1].amount.as_ref().unwrap().number.to_string(), "5.37");
    assert_eq!(txns[1].postings[0].amount.as_ref().unwrap().number.to_string(), "-5.37");
    assert_eq!(txns[59].date.to_string(), "2020-02-29");
    assert!(txns.iter().all(|t| t.is_balanced()));
}

#[test]
fn synthetic_ledger_text_reads_back() {
    let text = synthetic_beancount_text(25);
    let ds = parse(&text).unwrap();
    assert_eq!(ds.len(), 27);
    assert_eq!(serialize(&ds), text);
    assert!(text.starts_with("2020-01-01 open assets:checking SAR\n2020-01-01 open income:salary\n"));
    assert!(matches!(synthetic_directives(3)[2], Directive::Transaction(_)));
}

#[test]
fn declared_accounts_are_sorted_by_name() {
    let d = declared_accounts();
    assert_eq!(d.len(), 8);
    assert_eq!(d[0].0, "assets:checking");
    assert_eq!(d[0].1, vec!["SAR".to_string()]);
    assert_eq!(d[7].0, "income:salary");
    assert!(d.windows(2).all(|w| w[0].0 < w[1].0));
}

#[test]
fn synthetic_statement_and_rules() {
    let (csv, rules) = synthetic_csv_and_rules(3);
    assert_eq!(
        csv,
        "Date,Amount,Description\n01/01/2020,-5.00,Cafe Bateel\n02/01/2020,-5.37,Uber\n03/01/2020,-5.74,Careem\n"
    );
    assert!(rules.contains("match = \"amount < 1000000\""));
    let d = jama::date::Date::from_ymd(2026, 9, 1).unwrap();
    assert_eq!(format_ddmmyyyy(d), "01/09/2026");
}

#[test]
fn every_synthetic_account_is_declared() {
    let declared: Vec<String> = declared_accounts().into_iter().map(|(a, _)| a).collect();
    for t in synthetic_transactions(120) {
        for p in &t.postings {
            assert!(declared.iter().any(|d| d == p.account.as_str()), "{}", p.account.as_str());
        }
    }
}
