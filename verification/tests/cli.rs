use jama::cli::{exit_code_for, parse_date_flag, parse_date_flag_at, CliError};
use jama::date::Date;
use jama::error::JamaError;
use jama::ledger::{first_undeclared, prepare_transaction, ListFilter, Paths};
use jama::model::{Account, Amount, Imbalance, Posting, Transaction};
use jama::decimal::Decimal;

#[test]
fn user_and_internal_errors_carry_their_exit_codes() {
    let u = CliError::user("`jama add` needs --from", "add --from <account>");
    assert_eq!(u.what, "`jama add` needs --from");
    assert_eq!(u.fix.as_deref(), Some("add --from <account>"));
    assert!(u.where_.is_none());
    assert_eq!(exit_code_for(&u), 1);
    let i = CliError::internal("disk on fire");
    assert!(i.fix.is_none());
    assert_eq!(i.exit_code, 3);
}

#[test]
fn library_errors_map_to_where_fix_and_code() {
    let p = CliError::from_error(&JamaError::Parse { line: 7, message: "bad".to_string() });
    assert_eq!(p.what, "parse error at line 7: bad");
    assert_eq!(p.where_.as_deref(), Some("jama.beancount:7"));
    assert_eq!(p.fix.as_deref(), Some("fix the syntax at that line and try again"));
    assert_eq!(p.exit_code, 2);

    let imb = Imbalance {
        date: Date::from_ymd(2026, 1, 2).unwrap(),
        narration: "Oops".to_string(),
        details: "does not balance".to_string(),
    };
    let e = CliError::from_error(&JamaError::Imbalance(imb));
    assert_eq!(e.where_.as_deref(), Some("transaction dated 2026-01-02"));
    assert_eq!(e.what, "imbalance: 2026-01-02 \"Oops\" does not balance");
    assert_eq!(e.exit_code, 2);

    let u = CliError::from_error(&JamaError::UndeclaredAccount { account: "expenses:cafe".to_string() });
    assert_eq!(u.what, "undeclared account: expenses:cafe");
    assert_eq!(u.fix.as_deref(), Some("add `open expenses:cafe` to the ledger, or drop --strict"));

    let b = CliError::from_error(&JamaError::BalanceAssertionFailed { message: "m".to_string() });
    assert_eq!(b.fix.as_deref(), Some("run `jama check` for details"));
    assert_eq!(b.exit_code, 2);

    let s = CliError::from_error(&JamaError::Store("locked".to_string()));
    assert_eq!(s.what, "store error: locked");
    assert!(s.fix.is_none());
    assert_eq!(s.exit_code, 3);

    let im = CliError::from_error(&JamaError::Import("no such column".to_string()));
    assert_eq!(im.fix.as_deref(), Some("check the CSV file and rules file paths and column names"));
    assert_eq!(im.exit_code, 1);

    let io = CliError::from_error(&JamaError::Io { context: "reading x".to_string(), source: "denied".to_string() });
    assert_eq!(io.what, "reading x: denied");
    assert_eq!(io.exit_code, 3);

    let inv = CliError::from_error(&JamaError::Invalid("nope".to_string()));
    assert_eq!(inv.what, "nope");
    assert_eq!(inv.exit_code, 1);
}

#[test]
fn date_flags_accept_iso_and_keywords() {
    assert!(parse_date_flag(&None, "--since").unwrap().is_none());
    let d = parse_date_flag(&Some("2026-09-01".to_string()), "--since").unwrap().unwrap();
    assert_eq!(d.to_string(), "2026-09-01");
    assert!(parse_date_flag(&Some("today".to_string()), "--until").unwrap().is_some());
    let err = match parse_date_flag(&Some("2026-13-01".to_string()), "--until") {
        Err(e) => e,
        Ok(_) => panic!("expected an error"),
    };
    assert!(err.what.starts_with("bad --until value \"2026-13-01\": "));
    assert_eq!(err.fix.as_deref(), Some("use YYYY-MM-DD, `today`, or `yesterday`"));
    assert_eq!(err.exit_code, 1);
}

#[test]
fn ledger_paths_live_under_the_root() {
    let p = Paths::for_root("/tmp/ledger");
    assert_eq!(p.root, "/tmp/ledger");
    assert_eq!(p.db, "/tmp/ledger/jama.db");
    assert_eq!(p.text, "/tmp/ledger/jama.beancount");
    assert_eq!(p.rules_dir, "/tmp/ledger/rules");
    let f = ListFilter::default();
    assert!(f.since.is_none() && f.account.is_none() && f.limit.is_none());
}

#[test]
fn transactions_are_resolved_before_storing_and_checked_against_declarations() {
    let mut t = Transaction::new(Date::from_ymd(2026, 1, 1).unwrap(), "Coffee".to_string());
    t.postings.push(Posting::new(
        Account::parse("assets:checking").unwrap(),
        Amount::new(Decimal::parse("-12.50").unwrap(), "SAR".to_string()),
    ));
    t.postings.push(Posting::elided(Account::parse("expenses:cafe").unwrap()));
    let declared = vec!["assets:checking".to_string()];
    assert_eq!(first_undeclared(&t, &declared).as_deref(), Some("expenses:cafe"));
    let ready = prepare_transaction(t).unwrap();
    assert_eq!(ready.postings[1].amount.as_ref().unwrap().number.to_string(), "12.50");

    let mut bad = Transaction::new(Date::from_ymd(2026, 1, 1).unwrap(), "Oops".to_string());
    bad.postings.push(Posting::new(
        Account::parse("assets:checking").unwrap(),
        Amount::new(Decimal::parse("-1").unwrap(), "SAR".to_string()),
    ));
    bad.postings.push(Posting::new(
        Account::parse("expenses:cafe").unwrap(),
        Amount::new(Decimal::parse("2").unwrap(), "SAR".to_string()),
    ));
    assert!(matches!(prepare_transaction(bad), Err(JamaError::Imbalance(_))));
}

#[test]
fn date_flags_read_keywords_relative_to_the_given_day() {
    let day = Date::from_ymd(2026, 1, 1).unwrap();
    let y = parse_date_flag_at(&Some("yesterday".to_string()), "--since", day).unwrap().unwrap();
    assert_eq!(y.to_string(), "2025-12-31");
    let t = parse_date_flag_at(&Some("today".to_string()), "--since", day).unwrap().unwrap();
    assert_eq!(t, day);
    let e = parse_date_flag_at(&Some("soon".to_string()), "--until", day).unwrap_err();
    assert!(e.what.starts_with("bad --until value \"soon\""));
}
