use jama::date::Date;
use jama::decimal::Decimal;
use jama::model::{Account, Amount, CommodityInfo, Directive, Flag, Meta, Posting, Transaction};

fn acct(s: &str) -> Account {
    Account::parse(s).unwrap()
}

fn dec(s: &str) -> Decimal {
    Decimal::parse(s).unwrap()
}

#[test]
fn account_requires_known_root() {
    assert!(Account::parse("assets:checking").is_ok());
    assert!(Account::parse("wallet:cash").is_err());
    assert!(Account::parse("assets:").is_err());
}

#[test]
fn account_prefix_and_matches() {
    let a = acct("assets:checking:alrajhi");
    assert_eq!(a.prefix(2), "assets:checking");
    assert!(a.matches("assets"));
    assert!(a.matches("assets:checking"));
    assert!(!a.matches("assets:savings"));
}

#[test]
fn simple_two_posting_transaction_balances() {
    let date = Date::from_ymd(2026, 1, 1).unwrap();
    let mut t = Transaction::new(date, "Coffee".to_string());
    t.postings.push(Posting::new(
        acct("assets:checking"),
        Amount::new(dec("-12.50"), "SAR".to_string()),
    ));
    t.postings.push(Posting::new(
        acct("expenses:cafe"),
        Amount::new(dec("12.50"), "SAR".to_string()),
    ));
    assert!(t.is_balanced());
}

#[test]
fn elided_posting_absorbs_the_difference() {
    let date = Date::from_ymd(2026, 1, 1).unwrap();
    let mut t = Transaction::new(date, "Coffee".to_string());
    t.postings.push(Posting::new(
        acct("assets:checking"),
        Amount::new(dec("-12.50"), "SAR".to_string()),
    ));
    t.postings.push(Posting::elided(acct("expenses:cafe")));
    let resolved = t.balanced_postings().unwrap();
    let cafe = resolved.iter().find(|a| a.commodity == "SAR").unwrap();
    assert!(cafe.number.value_eq(&dec("12.50")));
    assert_eq!(cafe.number.to_string(), "12.50");
}

#[test]
fn unbalanced_transaction_is_rejected() {
    let date = Date::from_ymd(2026, 1, 1).unwrap();
    let mut t = Transaction::new(date, "Oops".to_string());
    t.postings.push(Posting::new(
        acct("assets:checking"),
        Amount::new(dec("-12.50"), "SAR".to_string()),
    ));
    t.postings.push(Posting::new(
        acct("expenses:cafe"),
        Amount::new(dec("10.00"), "SAR".to_string()),
    ));
    assert!(t.balanced_postings().is_err());
}

#[test]
fn different_commodities_never_silently_sum() {
    let date = Date::from_ymd(2026, 1, 1).unwrap();
    let mut t = Transaction::new(date, "FX".to_string());
    t.postings.push(Posting::new(
        acct("assets:checking"),
        Amount::new(dec("-100"), "USD".to_string()),
    ));
    t.postings.push(Posting::new(
        acct("assets:savings"),
        Amount::new(dec("100"), "SAR".to_string()),
    ));
    assert!(t.balanced_postings().is_err());
}

#[test]
fn account_parse_trims_and_reports_errors() {
    assert_eq!(acct("  assets:cash  ").as_str(), "assets:cash");
    assert_eq!(
        Account::parse("").unwrap_err(),
        "account name is empty"
    );
    assert_eq!(
        Account::parse("wallet:cash").unwrap_err(),
        "account \"wallet:cash\" must start with one of: assets, liabilities, equity, income, expenses"
    );
    assert_eq!(
        Account::parse("assets::cash").unwrap_err(),
        "account \"assets::cash\" has an empty segment"
    );
    assert_eq!(
        Account::parse("assets:ca$h").unwrap_err(),
        "account segment \"ca$h\" in \"assets:ca$h\" has invalid characters"
    );
    assert!(Account::parse("assets:حساب").is_ok());
}

#[test]
fn account_root_depth_and_loose_match() {
    let a = acct("expenses:food:Cafe");
    assert_eq!(a.root(), "expenses");
    assert_eq!(a.depth(), 3);
    assert_eq!(a.prefix(1), "expenses");
    assert_eq!(a.prefix(9), "expenses:food:Cafe");
    assert!(a.contains_loose("CAFE"));
    assert!(!a.contains_loose("rent"));
    assert!(!a.matches("expenses:fo"));
    assert!(!a.matches("expenses:food:"));
    assert!(a.matches(""));
}

#[test]
fn flags_parse_and_print() {
    assert_eq!(Flag::parse('*').unwrap(), Flag::Cleared);
    assert_eq!(Flag::parse('!').unwrap(), Flag::Pending);
    assert_eq!(Flag::Pending.as_char(), '!');
    assert_eq!(
        Flag::parse('x').unwrap_err(),
        "unknown transaction flag 'x' (expected * or !)"
    );
}

#[test]
fn resolve_fills_the_elided_posting() {
    let date = Date::from_ymd(2026, 3, 1).unwrap();
    let mut t = Transaction::new(date, "Lunch".to_string());
    t.postings.push(Posting::new(
        acct("assets:checking"),
        Amount::new(dec("-40.25"), "SAR".to_string()),
    ));
    t.postings.push(Posting::elided(acct("expenses:food")));
    let resolved = t.resolve_postings().unwrap();
    assert_eq!(resolved.len(), 2);
    let filled = resolved[1].amount.as_ref().unwrap();
    assert_eq!(filled.number.to_string(), "40.25");
    assert_eq!(filled.commodity, "SAR");
}

#[test]
fn two_elided_postings_are_rejected() {
    let date = Date::from_ymd(2026, 3, 1).unwrap();
    let mut t = Transaction::new(date, "Two blanks".to_string());
    t.postings.push(Posting::new(
        acct("assets:checking"),
        Amount::new(dec("-5"), "SAR".to_string()),
    ));
    t.postings.push(Posting::elided(acct("expenses:a")));
    t.postings.push(Posting::elided(acct("expenses:b")));
    let err = t.balanced_postings().unwrap_err();
    assert_eq!(err.date, date);
    assert_eq!(err.narration, "Two blanks");
    assert!(!t.is_balanced());
}

#[test]
fn single_posting_is_not_balanced() {
    let date = Date::from_ymd(2026, 3, 1).unwrap();
    let mut t = Transaction::new(date, "Alone".to_string());
    t.postings.push(Posting::new(
        acct("assets:checking"),
        Amount::new(dec("0"), "SAR".to_string()),
    ));
    assert!(t.balanced_postings().is_err());
}

#[test]
fn meta_keeps_keys_sorted_and_replaces() {
    let mut m = Meta::new();
    m.insert("zeta".to_string(), "1".to_string());
    m.insert("alpha".to_string(), "2".to_string());
    m.insert("zeta".to_string(), "3".to_string());
    assert_eq!(m.len(), 2);
    assert_eq!(m.entry(0).0, "alpha");
    assert_eq!(m.get("zeta").unwrap(), "3");
    assert!(m.get("beta").is_none());
}

#[test]
fn directive_dates_and_commodity_info() {
    let date = Date::from_ymd(2026, 5, 5).unwrap();
    let d = Directive::Commodity {
        date,
        info: CommodityInfo::new("SAR".to_string(), 2),
    };
    assert_eq!(d.date(), date);
    let amount = Amount::new(dec("-3.5"), "USD".to_string());
    let text: String = amount.to_chars().into_iter().collect();
    assert_eq!(text, "-3.5 USD");
}

#[test]
fn a_single_elided_posting_does_not_resolve() {
    let mut t = Transaction::new(Date::from_ymd(2026, 1, 1).unwrap(), "x".to_string());
    t.postings.push(Posting::elided(acct("assets:cash")));
    let err = t.resolve_postings().unwrap_err();
    assert_eq!(err.details, "transaction has fewer than 2 postings");
    let empty = Transaction::new(Date::from_ymd(2026, 1, 1).unwrap(), "y".to_string());
    assert!(empty.resolve_postings().is_err());
}

#[test]
fn scientific_text_can_give_a_negative_zero() {
    let d = dec("-0.1e-28");
    assert!(d.is_zero());
    assert_eq!(dec("-0").is_sign_negative(), false);
}

#[test]
fn prefixes_and_matches_follow_segments() {
    let a = acct("assets:checking:alrajhi");
    assert_eq!(a.prefix(0), "");
    assert_eq!(a.prefix(1), a.root());
    assert_eq!(a.prefix(3), a.as_str());
    assert_eq!(a.prefix(9), a.as_str());
    assert!(a.matches("assets:checking"));
    assert!(a.matches(""));
    assert!(a.matches("assets:checking:alrajhi"));
    assert!(!a.matches("assets:check"));
}
