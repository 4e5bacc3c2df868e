use jama::date::Date;
use jama::decimal::Decimal;
use jama::error::JamaError;
use jama::model::{Account, Amount, Directive, Posting, Transaction};
use jama::parser::{parse, serialize};

#[test]
fn parses_and_serializes_a_simple_transaction() {
    let text = "2026-09-01 * \"Salary\" \"Monthly salary\"\n  income:salary  -18000.00 SAR\n  assets:checking  18000.00 SAR\n";
    let directives = parse(text).unwrap();
    assert_eq!(directives.len(), 1);
    let out = serialize(&directives);
    assert_eq!(out, text);
}

#[test]
fn round_trips_open_balance_pad() {
    let text = "\
2026-01-01 open assets:checking SAR
2026-01-01 open equity:opening-balances
2026-01-01 pad assets:checking equity:opening-balances
2026-01-02 balance assets:checking  1000.00 SAR
";
    let directives = parse(text).unwrap();
    assert_eq!(directives.len(), 4);
    assert_eq!(serialize(&directives), text);
}

#[test]
fn round_trips_full_generated_ledger() {
    let date = Date::from_ymd(2026, 9, 1).unwrap();
    let mut txn = Transaction::new(date, "Coffee with a friend".to_string());
    txn.payee = Some("Cafe Bateel".to_string());
    txn.tags.push("social".to_string());
    txn.postings.push(Posting::new(
        Account::parse("assets:checking").unwrap(),
        Amount::new(Decimal::parse("-25.00").unwrap(), "SAR".to_string()),
    ));
    txn.postings
        .push(Posting::elided(Account::parse("expenses:cafe").unwrap()));

    let directives = vec![
        Directive::Open {
            date,
            account: Account::parse("assets:checking").unwrap(),
            currencies: vec!["SAR".to_string()],
        },
        Directive::Transaction(txn),
    ];

    let text = serialize(&directives);
    let reparsed = parse(&text).unwrap();
    assert_eq!(serialize(&reparsed), text);
    assert_eq!(reparsed.len(), directives.len());
}

#[test]
fn rejects_unbalanced_and_reports_line() {
    let text = "not-a-date * \"x\"\n";
    match parse(text) {
        Err(JamaError::Parse { line, .. }) => assert_eq!(line, 1),
        Err(other) => panic!("expected parse error, got {other:?}"),
        Ok(_) => panic!("expected parse error, got a ledger"),
    }
}

#[test]
fn arabic_payee_round_trips() {
    let text = "2026-09-01 * \"مطعم\" \"غداء مع صديق\"\n  assets:checking  -50.00 SAR\n  expenses:cafe  50.00 SAR\n";
    let directives = parse(text).unwrap();
    assert_eq!(serialize(&directives), text);
}

#[test]
fn comments_and_blank_lines_are_skipped() {
    let text = "; a comment\n\n2026-01-01 open assets:cash\n  ; an indented note is not allowed here\n";
    let directives = parse(text).unwrap();
    assert_eq!(directives.len(), 1);
    assert_eq!(serialize(&directives), "2026-01-01 open assets:cash\n");
}

#[test]
fn tags_links_meta_and_cost_round_trip() {
    let text = "2026-02-01 ! \"Broker\" \"Buy shares\" #invest ^trade-1\n  ref: \"abc\"\n  assets:broker  10 AAPL {150.00 USD}\n  assets:cash  -1500.00 USD\n";
    let directives = parse(text).unwrap();
    assert_eq!(directives.len(), 1);
    match &directives[0] {
        Directive::Transaction(t) => {
            assert_eq!(t.tags, vec!["invest".to_string()]);
            assert_eq!(t.links, vec!["trade-1".to_string()]);
            assert_eq!(t.meta.get("ref").unwrap(), "abc");
            assert_eq!(t.postings.len(), 2);
            assert!(t.postings[0].cost_or_price.as_ref().unwrap().is_cost);
        }
        _ => panic!("expected a transaction"),
    }
    assert_eq!(serialize(&directives), text);
}

#[test]
fn unknown_directive_and_bad_account_report_their_line() {
    match parse("2026-01-01 open assets:cash\n2026-01-02 frobnicate x\n") {
        Err(JamaError::Parse { line, .. }) => assert_eq!(line, 2),
        _ => panic!("expected a parse error on line 2"),
    }
    match parse("2026-01-01 open wallet:cash\n") {
        Err(JamaError::Parse { line, message }) => {
            assert_eq!(line, 1);
            assert!(message.contains("must start with one of"));
        }
        _ => panic!("expected a parse error on line 1"),
    }
}

#[test]
fn close_and_commodity_directives_parse() {
    let text = "2026-01-01 commodity SAR\n  precision: 2\n2026-12-31 close assets:cash\n";
    let directives = parse(text).unwrap();
    assert_eq!(directives.len(), 2);
    match &directives[0] {
        Directive::Commodity { info, .. } => {
            assert_eq!(info.code, "SAR");
            assert_eq!(info.precision, 2);
        }
        _ => panic!("expected a commodity directive"),
    }
    match &directives[1] {
        Directive::Close { account, .. } => assert_eq!(account.as_str(), "assets:cash"),
        _ => panic!("expected a close directive"),
    }
}

#[test]
fn a_posting_on_a_bare_root_round_trips() {
    let text = "2026-09-01 * \"Gift\"\n  income:gifts  -50.00 SAR\n  assets\n";
    let parsed = parse(text).unwrap();
    assert_eq!(serialize(&parsed), text);
}

#[test]
fn amounts_may_group_thousands_with_commas() {
    let parsed = parse("2026-09-30 balance assets:checking  4,231.00 SAR\n").unwrap();
    match &parsed[0] {
        Directive::Balance { date, account, amount } => {
            assert_eq!(date.to_string(), "2026-09-30");
            assert_eq!(account.as_str(), "assets:checking");
            assert_eq!(amount.number.to_string(), "4231.00");
            assert_eq!(amount.commodity, "SAR");
        }
        _ => panic!("expected a balance assertion"),
    }
    assert_eq!(serialize(&parsed), "2026-09-30 balance assets:checking  4231.00 SAR\n");
}

#[test]
fn leading_comments_only_move_error_lines() {
    let body = "2026-01-01 bogus x\n";
    let front = "; header\n\n   \n";
    let alone = parse(body).unwrap_err();
    let after = parse(&format!("{front}{body}")).unwrap_err();
    match (alone, after) {
        (JamaError::Parse { line: a, message: m }, JamaError::Parse { line: b, message: n }) => {
            assert_eq!(a + 3, b);
            assert_eq!(m, n);
        }
        _ => panic!("expected parse errors"),
    }
    assert!(parse(front).unwrap().is_empty());
}
