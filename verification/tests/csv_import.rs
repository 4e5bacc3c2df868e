use jama::csv_import::{
    clean_number, dedupe_key, fnv1a64, learned_rule_block, outcome_of, parse_expr, plan_import,
    resolve_commodity, row_transaction, rows_from_records, parse_csv_rows, CsvRow, RowPlan, Rules, SourceConfig,
};
use jama::date::Date;
use jama::decimal::Decimal;
use jama::error::JamaError;
use jama::model::{Account, Meta};

fn row(payee: &str, amount: &str) -> CsvRow {
    CsvRow {
        date: Date::from_ymd(2026, 1, 1).unwrap(),
        amount: Decimal::parse(amount).unwrap(),
        payee: payee.to_string(),
        raw: Meta::new(),
        dedupe_hash: "x".to_string(),
    }
}

fn source() -> SourceConfig {
    SourceConfig {
        date: "Date".to_string(),
        amount: "Amount".to_string(),
        payee: "Description".to_string(),
        date_format: "%d/%m/%Y".to_string(),
        account: "assets:checking".to_string(),
        commodity: Some("SAR".to_string()),
    }
}

#[test]
fn matches_regex_alternation_case_insensitive() {
    let cond = parse_expr("payee ~ /uber|careem/i").unwrap();
    assert!(cond.eval(&row("UBER *TRIP", "-20")));
    assert!(cond.eval(&row("Careem ride", "-15")));
    assert!(!cond.eval(&row("Grocery store", "-15")));
}

#[test]
fn matches_amount_and_regex_combo() {
    let cond = parse_expr("amount < 0 and payee ~ /rent/i").unwrap();
    assert!(cond.eval(&row("Monthly Rent", "-3000")));
    assert!(!cond.eval(&row("Monthly Rent", "3000")));
    assert!(!cond.eval(&row("Groceries", "-50")));
}

#[test]
fn dedupe_hash_is_stable() {
    let d = Date::from_ymd(2026, 1, 1).unwrap();
    let a = Decimal::parse("-12.50").unwrap();
    let h1 = dedupe_key(&d, &a, "Coffee", "bank.csv");
    let h2 = dedupe_key(&d, &a, "Coffee", "bank.csv");
    assert_eq!(h1, h2);
    let h3 = dedupe_key(&d, &a, "Coffee", "other.csv");
    assert_ne!(h1, h3);
}

#[test]
fn fnv_matches_known_vectors() {
    assert_eq!(fnv1a64(b""), 0xcbf29ce484222325);
    assert_eq!(fnv1a64(b"a"), 0xaf63dc4c8601ec8c);
    assert_eq!(fnv1a64(b"foobar"), 0x85944171f73967e8);
}

#[test]
fn dedupe_key_is_sixteen_hex_digits() {
    let d = Date::from_ymd(2026, 1, 1).unwrap();
    let a = Decimal::parse("-12.50").unwrap();
    let h = dedupe_key(&d, &a, "Coffee", "bank.csv");
    assert_eq!(h.len(), 16);
    assert!(h.chars().all(|c| c.is_ascii_hexdigit() && !c.is_ascii_uppercase()));
    let expected = format!("{:016x}", fnv1a64("2026-01-01|-12.50|Coffee|bank.csv".as_bytes()));
    assert_eq!(h, expected);
}

#[test]
fn clean_number_strips_grouping_and_currency_noise() {
    assert_eq!(clean_number("1,234.50").unwrap().to_string(), "1234.50");
    assert_eq!(clean_number(" SAR -12.50 ").unwrap().to_string(), "-12.50");
    assert!(clean_number("abc").is_err());
}

#[test]
fn conditions_combine_with_or_and_compare_numbers() {
    let cond = parse_expr("amount > 100 or payee ~ /coffee/i").unwrap();
    assert!(cond.eval(&row("Anything", "150")));
    assert!(cond.eval(&row("COFFEE shop", "5")));
    assert!(!cond.eval(&row("Tea", "5")));
    let eq = parse_expr("amount == -5").unwrap();
    assert!(eq.eval(&row("x", "-5.00")));
    assert!(parse_expr("payee ^^ /x/").is_err());
}

#[test]
fn rules_pick_the_first_matching_destination() {
    let rules = Rules::from_config(
        source(),
        &vec![
            ("payee ~ /uber/i".to_string(), "expenses:transport".to_string()),
            ("amount < 0".to_string(), "expenses:misc".to_string()),
        ],
    )
    .unwrap();
    assert_eq!(rules.destination_for(&row("Uber trip", "-20")), Some("expenses:transport"));
    assert_eq!(rules.destination_for(&row("Shop", "-20")), Some("expenses:misc"));
    assert_eq!(rules.destination_for(&row("Refund", "20")), None);
}

#[test]
fn bad_rule_is_an_import_error() {
    match Rules::from_config(source(), &vec![("payee ?? x".to_string(), "expenses:x".to_string())]) {
        Err(JamaError::Import(_)) => {}
        _ => panic!("expected an import error"),
    }
}

#[test]
fn learned_rules_escape_slashes() {
    let block = learned_rule_block("A/B", "expenses:cafe");
    assert_eq!(
        block,
        "\n[[rule]]\nmatch = \"payee ~ /A\\/B/i\"\nto = \"expenses:cafe\"\n"
    );
}

#[test]
fn records_become_rows_and_bad_dates_are_reported() {
    let headers = vec!["Date".to_string(), "Amount".to_string(), "Description".to_string()];
    let records = vec![
        vec!["21/09/2026".to_string(), "-12.50".to_string(), "Coffee".to_string()],
        vec!["22/09/2026".to_string(), "1,000.00".to_string(), "Salary".to_string()],
    ];
    let rows = rows_from_records(&headers, &records, &source(), "bank.csv").unwrap();
    assert_eq!(rows.len(), 2);
    assert_eq!(rows[0].date.to_string(), "2026-09-21");
    assert_eq!(rows[1].amount.to_string(), "1000.00");
    assert_eq!(rows[0].payee, "Coffee");
    assert_eq!(rows[0].raw.get("Description").unwrap(), "Coffee");
    assert_eq!(
        rows[0].dedupe_hash,
        dedupe_key(&rows[0].date, &rows[0].amount, "Coffee", "bank.csv")
    );
    let bad = vec![vec!["2026-09-21".to_string(), "1".to_string(), "x".to_string()]];
    assert!(rows_from_records(&headers, &bad, &source(), "bank.csv").is_err());
}

#[test]
fn planning_skips_duplicates_and_counts_outcomes() {
    let rules = Rules::from_config(
        source(),
        &vec![("payee ~ /coffee/i".to_string(), "expenses:cafe".to_string())],
    )
    .unwrap();
    let mut a = row("Coffee", "-5");
    a.dedupe_hash = "h1".to_string();
    let mut b = row("Coffee", "-5");
    b.dedupe_hash = "h1".to_string();
    let mut c = row("Bookshop", "-30");
    c.dedupe_hash = "h2".to_string();
    let mut d = row("Coffee", "-6");
    d.dedupe_hash = "h3".to_string();
    let rows = vec![a, b, c, d];
    let seen = vec![false, false, false, true];
    let plans = plan_import(&rules, &rows, &seen, false);
    assert!(matches!(&plans[0], RowPlan::Insert(dest) if dest == "expenses:cafe"));
    assert!(matches!(plans[1], RowPlan::Duplicate));
    assert!(matches!(plans[2], RowPlan::Unmatched));
    assert!(matches!(plans[3], RowPlan::Duplicate));
    let outcome = outcome_of(&rows, &plans);
    assert_eq!(outcome.total_rows, 4);
    assert_eq!(outcome.imported, 1);
    assert_eq!(outcome.skipped_duplicates, 2);
    assert_eq!(outcome.unmatched.len(), 1);
    assert_eq!(outcome.unmatched[0].payee, "Bookshop");
}

#[test]
fn row_transactions_move_money_between_accounts() {
    let src = Account::parse("assets:checking").unwrap();
    let t = row_transaction(&src, "expenses:cafe", "SAR", &row("Coffee", "-12.50")).unwrap();
    assert_eq!(t.narration, "Coffee");
    assert_eq!(t.postings.len(), 2);
    assert_eq!(t.postings[0].account.as_str(), "assets:checking");
    assert_eq!(t.postings[0].amount.as_ref().unwrap().number.to_string(), "-12.50");
    assert_eq!(t.postings[1].account.as_str(), "expenses:cafe");
    assert_eq!(t.postings[1].amount.as_ref().unwrap().number.to_string(), "12.50");
    assert!(row_transaction(&src, "nowhere:x", "SAR", &row("Coffee", "-1")).is_err());
}

#[test]
fn commodity_resolution_prefers_the_flag_then_the_ledger() {
    assert_eq!(resolve_commodity(Some("USD"), Some("SAR".into()), Some("EUR".into())).unwrap(), "USD");
    assert_eq!(resolve_commodity(None, Some("SAR".into()), Some("EUR".into())).unwrap(), "SAR");
    assert_eq!(resolve_commodity(None, None, Some("EUR".into())).unwrap(), "EUR");
    match resolve_commodity(None, None, None) {
        Err(JamaError::Invalid(m)) => assert!(m.contains("--commodity")),
        _ => panic!("expected an invalid-input error"),
    }
}

#[test]
fn reimporting_seen_rows_inserts_nothing() {
    let rules = Rules::from_config(
        source(),
        &vec![("amount < 0".to_string(), "expenses:misc".to_string())],
    )
    .unwrap();
    let rows = vec![row("A", "-1"), row("B", "-2"), row("C", "3")];
    let seen = vec![true, true, true];
    for dry_run in [false, true] {
        let plans = plan_import(&rules, &rows, &seen, dry_run);
        assert!(plans.iter().all(|p| matches!(p, RowPlan::Duplicate)));
        assert_eq!(outcome_of(&rows, &plans).imported, 0);
    }
}

#[test]
fn statement_bytes_become_rows() {
    let csv = b"Date,Amount,Description\n01/02/2026,-12.50,Cafe\n03/02/2026,100,Salary\n";
    let rows = parse_csv_rows(csv, &source(), "bank.csv").unwrap();
    assert_eq!(rows.len(), 2);
    assert_eq!(rows[0].payee, "Cafe");
    assert_eq!(rows[0].amount.to_string(), "-12.50");
    assert_eq!(rows[1].date.to_string(), "2026-02-03");
}

#[test]
fn unreadable_statements_name_the_failing_row() {
    let ragged = b"Date,Amount,Description\n01/02/2026,-12.50,Cafe\n03/02/2026,100\n";
    match parse_csv_rows(ragged, &source(), "bank.csv") {
        Err(JamaError::Import(m)) => assert!(m.starts_with("row 3: "), "{m}"),
        _ => panic!("expected an import error"),
    }
    let bad_date = b"Date,Amount,Description\nsoon,-12.50,Cafe\n";
    match parse_csv_rows(bad_date, &source(), "bank.csv") {
        Err(JamaError::Import(m)) => assert!(m.starts_with("row 2: "), "{m}"),
        _ => panic!("expected an import error"),
    }
}

#[test]
fn repeating_an_import_plans_no_inserts() {
    let rules = Rules::from_config(
        source(),
        &vec![("payee ~ /coffee/i".to_string(), "expenses:cafe".to_string())],
    )
    .unwrap();
    let mut a = row("Coffee", "-5");
    a.dedupe_hash = "h1".to_string();
    let mut b = row("Coffee", "-5");
    b.dedupe_hash = "h1".to_string();
    let mut c = row("Bookshop", "-30");
    c.dedupe_hash = "h2".to_string();
    let rows = vec![a, b, c];
    let first = plan_import(&rules, &rows, &vec![false, false, false], false);
    assert_eq!(outcome_of(&rows, &first).imported, 1);
    let seen_after: Vec<bool> = rows.iter().map(|r| r.dedupe_hash == "h1").collect();
    let again = plan_import(&rules, &rows, &seen_after, false);
    assert_eq!(outcome_of(&rows, &again).imported, 0);
    assert_eq!(outcome_of(&rows, &again).skipped_duplicates, 2);
}
