//! Synthetic ledgers for benchmarks and load tests: many individually
//! balanced transactions over a small set of accounts and payees, the
//! matching ledger text, and a bank CSV with a rules file that
//! categorises every row.

use vstd::prelude::*;

use crate::date::{civil_of_days, days_of_civil, Date};
use crate::decimal::{Decimal, DecimalValue};
use crate::model::{
    account_parse, directives_view, roots, valid_account, Account, Amount, Directive, DirectiveView, Flag, Posting,
    PostingView, Transaction, TransactionView,
};
use crate::parser::serialize_text;
use crate::round_trip::{lacks, lemma_roots_plain, lemma_split_first, lemma_split_whole, lemma_trim_plain};
use crate::text::{
    append_chars, append_str, chars_of, int_chars, int_text, is_ws, split_char, string_of, trim, uint_chars, uint_text,
    zero_padded, zero_padded_chars,
};
use crate::decimal::decimal_text;

verus! {

// ---------------------------------------------------------------------
// Account names built from a root and a lowercase leaf
// ---------------------------------------------------------------------

/// Lowercase ASCII letters only, and at least one.
pub open spec fn lower_word(s: Seq<char>) -> bool {
    s.len() > 0 && forall|i: int| 0 <= i < s.len() ==> 'a' <= #[trigger] s[i] <= 'z'
}

proof fn lemma_lower_segment(s: Seq<char>)
    requires
        lower_word(s),
    ensures
        crate::model::segment_ok(s),
        lacks(s, ':'),
        !is_ws(s[0]),
        !is_ws(s.last()),
{
    assert forall|i: int| 0 <= i < s.len() implies #[trigger] s[i] != ':' by {
        assert('a' <= s[i] <= 'z');
    }
    assert('a' <= s[s.len() - 1] <= 'z');
}

/// `root:leaf`, for a root and a lowercase leaf, is a valid account.
pub proof fn lemma_simple_account(root: Seq<char>, leaf: Seq<char>)
    requires
        roots().contains(root),
        lower_word(leaf),
    ensures
        valid_account(root + seq![':'] + leaf),
{
    lemma_roots_plain();
    assert(lower_word(root)) by {
        reveal_strlit("assets");
        reveal_strlit("liabilities");
        reveal_strlit("equity");
        reveal_strlit("income");
        reveal_strlit("expenses");
        let k = choose|k: int| 0 <= k < roots().len() && roots()[k] == root;
        assert(roots()[k] == root);
    }
    lemma_lower_segment(root);
    lemma_lower_segment(leaf);
    let s = root + seq![':'] + leaf;
    assert(s[0] == root[0]);
    assert(s.last() == leaf.last());
    lemma_trim_plain(s);
    lemma_split_first(root, ':', leaf);
    lemma_split_whole(leaf, ':');
    let segs = split_char(s, ':');
    assert(segs =~= seq![root, leaf]);
    assert(segs[0] == root);
    assert(crate::model::first_bad_segment(segs, 2) is None);
    assert(crate::model::first_bad_segment(segs, 1) is None);
    assert(crate::model::first_bad_segment(segs, 0) is None);
    assert(account_parse(s) == Ok::<Seq<char>, Seq<char>>(s));
}

/// Parses a name known to be a valid account.
fn known_account(s: &str) -> (r: Account)
    requires
        valid_account(s@),
    ensures
        r@ == s@,
{
    let r = Account::parse(s);
    r.unwrap()
}


// ---------------------------------------------------------------------
// Synthetic transactions
// ---------------------------------------------------------------------

/// The expense accounts the synthetic ledger cycles through.
pub open spec fn expense_name(k: int) -> Seq<char> {
    if k == 0 {
        "expenses:cafe"@
    } else if k == 1 {
        "expenses:transport"@
    } else if k == 2 {
        "expenses:groceries"@
    } else if k == 3 {
        "expenses:rent"@
    } else if k == 4 {
        "expenses:utilities"@
    } else {
        "expenses:misc"@
    }
}

/// The payees the synthetic ledger cycles through.
pub open spec fn payee_name(k: int) -> Seq<char> {
    if k == 0 {
        "Cafe Bateel"@
    } else if k == 1 {
        "Uber"@
    } else if k == 2 {
        "Careem"@
    } else if k == 3 {
        "Panda Hypermarket"@
    } else if k == 4 {
        "Landlord"@
    } else if k == 5 {
        "STC"@
    } else if k == 6 {
        "Amazon"@
    } else {
        "Local Market"@
    }
}

/// Cents of the `i`th expense: 5.00 to 204.99.
pub open spec fn synthetic_cents(i: nat) -> nat {
    500 + (i * 37) % 20000
}

/// A posting of `magnitude` hundredths of SAR, with no cost and no
/// metadata.
pub open spec fn sar_posting(account: Seq<char>, negative: bool, magnitude: nat) -> PostingView {
    PostingView {
        account,
        amount: Some((DecimalValue { negative, magnitude, scale: 2 }, "SAR"@)),
        cost_or_price: None,
        meta: Seq::empty(),
    }
}

/// The `i`th synthetic transaction: dated `i` days after 2020-01-01,
/// pending every 7th, a salary deposit of 15000.00 SAR every 50th, an
/// expense out of `assets:checking` otherwise.
pub open spec fn synthetic_txn(i: nat) -> TransactionView {
    TransactionView {
        id: None,
        date: civil_of_days(days_of_civil(2020, 1, 1) + i),
        flag: if i % 7 == 0 { Flag::Pending } else { Flag::Cleared },
        payee: Some(payee_name((i % 8) as int)),
        narration: "Synthetic transaction "@ + uint_text(i),
        tags: Seq::empty(),
        links: Seq::empty(),
        postings: if i % 50 == 0 {
            seq![sar_posting("income:salary"@, true, 1500000), sar_posting("assets:checking"@, false, 1500000)]
        } else {
            seq![
                sar_posting("assets:checking"@, true, synthetic_cents(i)),
                sar_posting(expense_name((i % 6) as int), false, synthetic_cents(i)),
            ]
        },
        meta: Seq::empty(),
    }
}

/// How many synthetic transactions fit the machine: the index arithmetic
/// of the last one stays within a `usize`.
pub open spec fn synthetic_fits(n: nat) -> bool {
    n == 0 || (n - 1) * 37 <= usize::MAX
}

fn account_of(root: &str, leaf: &str, name: &str) -> (r: Account)
    requires
        roots().contains(root@),
        lower_word(leaf@),
        name@ == root@ + seq![':'] + leaf@,
    ensures
        r@ == name@,
{
    proof {
        lemma_simple_account(root@, leaf@);
    }
    known_account(name)
}

proof fn lemma_roots_hold()
    ensures
        roots().contains("assets"@),
        roots().contains("income"@),
        roots().contains("expenses"@),
{
    assert(roots()[0] == "assets"@);
    assert(roots()[3] == "income"@);
    assert(roots()[4] == "expenses"@);
}

fn expense_account(k: usize) -> (r: Account)
    requires
        k < 6,
    ensures
        r@ == expense_name(k as int),
{
    proof {
        lemma_roots_hold();
        reveal_strlit("expenses");
    }
    if k == 0 {
        proof {
            reveal_strlit("cafe");
            reveal_strlit("expenses:cafe");
        }
        {
            assert("expenses:cafe"@ =~= "expenses"@ + seq![':'] + "cafe"@);
            assert(lower_word("cafe"@));
            account_of("expenses", "cafe", "expenses:cafe")
        }
    } else if k == 1 {
        proof {
            reveal_strlit("transport");
            reveal_strlit("expenses:transport");
        }
        {
            assert("expenses:transport"@ =~= "expenses"@ + seq![':'] + "transport"@);
            assert(lower_word("transport"@));
            account_of("expenses", "transport", "expenses:transport")
        }
    } else if k == 2 {
        proof {
            reveal_strlit("groceries");
            reveal_strlit("expenses:groceries");
        }
        {
            assert("expenses:groceries"@ =~= "expenses"@ + seq![':'] + "groceries"@);
            assert(lower_word("groceries"@));
            account_of("expenses", "groceries", "expenses:groceries")
        }
    } else if k == 3 {
        proof {
            reveal_strlit("rent");
            reveal_strlit("expenses:rent");
        }
        {
            assert("expenses:rent"@ =~= "expenses"@ + seq![':'] + "rent"@);
            assert(lower_word("rent"@));
            account_of("expenses", "rent", "expenses:rent")
        }
    } else if k == 4 {
        proof {
            reveal_strlit("utilities");
            reveal_strlit("expenses:utilities");
        }
        {
            assert("expenses:utilities"@ =~= "expenses"@ + seq![':'] + "utilities"@);
            assert(lower_word("utilities"@));
            account_of("expenses", "utilities", "expenses:utilities")
        }
    } else {
        proof {
            reveal_strlit("misc");
            reveal_strlit("expenses:misc");
        }
        {
            assert("expenses:misc"@ =~= "expenses"@ + seq![':'] + "misc"@);
            assert(lower_word("misc"@));
            account_of("expenses", "misc", "expenses:misc")
        }
    }
}

fn checking_account() -> (r: Account)
    ensures
        r@ == "assets:checking"@,
{
    proof {
        lemma_roots_hold();
        reveal_strlit("assets");
        reveal_strlit("checking");
        reveal_strlit("assets:checking");
    }
    {
            assert("assets:checking"@ =~= "assets"@ + seq![':'] + "checking"@);
            assert(lower_word("checking"@));
            account_of("assets", "checking", "assets:checking")
        }
}

fn salary_account() -> (r: Account)
    ensures
        r@ == "income:salary"@,
{
    proof {
        lemma_roots_hold();
        reveal_strlit("income");
        reveal_strlit("salary");
        reveal_strlit("income:salary");
    }
    {
            assert("income:salary"@ =~= "income"@ + seq![':'] + "salary"@);
            assert(lower_word("salary"@));
            account_of("income", "salary", "income:salary")
        }
}

fn payee_text(k: usize) -> (r: String)
    requires
        k < 8,
    ensures
        r@ == payee_name(k as int),
{
    if k == 0 {
        String::from_str("Cafe Bateel")
    } else if k == 1 {
        String::from_str("Uber")
    } else if k == 2 {
        String::from_str("Careem")
    } else if k == 3 {
        String::from_str("Panda Hypermarket")
    } else if k == 4 {
        String::from_str("Landlord")
    } else if k == 5 {
        String::from_str("STC")
    } else if k == 6 {
        String::from_str("Amazon")
    } else {
        String::from_str("Local Market")
    }
}

fn sar(number: Decimal) -> (r: Amount)
    ensures
        r.number == number,
        r.commodity@ == "SAR"@,
{
    Amount::new(number, String::from_str("SAR"))
}

/// The postings of the `i`th synthetic transaction.
fn synthetic_postings(i: usize) -> (r: Vec<Posting>)
    requires
        i * 37 <= usize::MAX,
    ensures
        crate::model::postings_view(r@) == synthetic_txn(i as nat).postings,
{
    let mut out: Vec<Posting> = Vec::new();
    if i % 50 == 0 {
        let amount = Decimal::new(1500000, 2);
        let p1 = Posting::new(salary_account(), sar(amount.neg()));
        let p2 = Posting::new(checking_account(), sar(amount));
        assert(p1.meta@ =~= Seq::<(Seq<char>, Seq<char>)>::empty());
        assert(p2.meta@ =~= Seq::<(Seq<char>, Seq<char>)>::empty());
        out.push(p1);
        out.push(p2);
    } else {
        let cents: i64 = 500 + ((i * 37) % 20000) as i64;
        let amount = Decimal::new(cents, 2);
        let p1 = Posting::new(checking_account(), sar(amount.neg()));
        let p2 = Posting::new(expense_account(i % 6), sar(amount));
        assert(p1.meta@ =~= Seq::<(Seq<char>, Seq<char>)>::empty());
        assert(p2.meta@ =~= Seq::<(Seq<char>, Seq<char>)>::empty());
        out.push(p1);
        out.push(p2);
    }
    assert(crate::model::postings_view(out@) =~= synthetic_txn(i as nat).postings);
    out
}

/// `Synthetic transaction {i}`.
fn synthetic_narration(i: usize) -> (r: String)
    ensures
        r@ == "Synthetic transaction "@ + uint_text(i as nat),
{
    let mut narration = chars_of("Synthetic transaction ");
    let digits = uint_chars(i as u64);
    append_chars(&mut narration, &digits);
    string_of(&narration)
}

/// The `i`th synthetic transaction.
fn synthetic_transaction(start: Date, i: usize) -> (r: Transaction)
    requires
        start.days() == days_of_civil(2020, 1, 1),
        i * 37 <= usize::MAX,
    ensures
        r@ == synthetic_txn(i as nat),
        r.date.days() == days_of_civil(2020, 1, 1) + i,
{
    assert(days_of_civil(2020, 1, 1) == 18262);
    let date = start.add_days(i as i64);
    let mut txn = Transaction::new(date, synthetic_narration(i));
    txn.flag = if i % 7 == 0 { Flag::Pending } else { Flag::Cleared };
    txn.payee = Some(payee_text(i % 8));
    txn.postings = synthetic_postings(i);
    proof {
        assert(crate::model::strings_view(txn.tags@) =~= Seq::<Seq<char>>::empty());
        assert(crate::model::strings_view(txn.links@) =~= Seq::<Seq<char>>::empty());
        assert(txn.meta@ =~= Seq::<(Seq<char>, Seq<char>)>::empty());
    }
    txn
}

/// `n` synthetic, individually balanced transactions, dated one day apart
/// from 2020-01-01 (see [`synthetic_txn`]).
pub fn synthetic_transactions(n: usize) -> (r: Vec<Transaction>)
    requires
        synthetic_fits(n as nat),
    ensures
        r@.len() == n,
        forall|i: int| 0 <= i < n ==> (#[trigger] r@[i])@ == synthetic_txn(i as nat),
{
    let start = Date::from_ymd(2020, 1, 1).unwrap();
    let mut out: Vec<Transaction> = Vec::new();
    let mut i: usize = 0;
    while i < n
        invariant
            i <= n,
            synthetic_fits(n as nat),
            start.days() == days_of_civil(2020, 1, 1),
            out@.len() == i,
            forall|k: int| 0 <= k < i ==> (#[trigger] out@[k])@ == synthetic_txn(k as nat),
        decreases n - i,
    {
        let t = synthetic_transaction(start, i);
        out.push(t);
        i += 1;
    }
    out
}

// ---------------------------------------------------------------------
// Synthetic ledgers, text, and bank statements
// ---------------------------------------------------------------------

/// The synthetic ledger: `assets:checking` opened in SAR and
/// `income:salary` opened, both on 2020-01-01, then the transactions.
pub open spec fn synthetic_directive_views(n: nat) -> Seq<DirectiveView> {
    seq![
        DirectiveView::Open { date: (2020, 1, 1), account: "assets:checking"@, currencies: seq!["SAR"@] },
        DirectiveView::Open { date: (2020, 1, 1), account: "income:salary"@, currencies: Seq::empty() },
    ] + Seq::new(n, |i: int| DirectiveView::Transaction(synthetic_txn(i as nat)))
}

/// The synthetic ledger's directives.
pub fn synthetic_directives(n: usize) -> (r: Vec<Directive>)
    requires
        synthetic_fits(n as nat),
    ensures
        directives_view(r@) == synthetic_directive_views(n as nat),
{
    let start = Date::from_ymd(2020, 1, 1).unwrap();
    let mut out: Vec<Directive> = Vec::new();
    let mut sar_list: Vec<String> = Vec::new();
    sar_list.push(String::from_str("SAR"));
    out.push(Directive::Open { date: start, account: checking_account(), currencies: sar_list });
    out.push(Directive::Open { date: start, account: salary_account(), currencies: Vec::new() });
    let ghost views = synthetic_directive_views(n as nat);
    proof {
        assert(out@[0]@ == views[0]) by {
            assert(crate::model::strings_view(out@[0]->currencies@) =~= seq!["SAR"@]);
        }
        assert(out@[1]@ == views[1]) by {
            assert(crate::model::strings_view(out@[1]->currencies@) =~= Seq::<Seq<char>>::empty());
        }
    }
    let mut i: usize = 0;
    while i < n
        invariant
            i <= n,
            synthetic_fits(n as nat),
            start.days() == days_of_civil(2020, 1, 1),
            views == synthetic_directive_views(n as nat),
            out@.len() == 2 + i,
            forall|k: int| 0 <= k < 2 + i ==> (#[trigger] out@[k])@ == views[k],
        decreases n - i,
    {
        let t = synthetic_transaction(start, i);
        let d = Directive::Transaction(t);
        assert(d@ == views[2 + i]);
        out.push(d);
        i += 1;
    }
    assert(directives_view(out@) =~= views);
    out
}

/// The synthetic ledger's text.
pub fn synthetic_beancount_text(n: usize) -> (r: String)
    requires
        synthetic_fits(n as nat),
    ensures
        r@ == serialize_text(synthetic_directive_views(n as nat)),
{
    let ds = synthetic_directives(n);
    crate::parser::serialize(&ds)
}

/// Every account the synthetic ledger uses, in name order, with the
/// currencies it is declared with.
pub open spec fn declared_accounts_view() -> Seq<(Seq<char>, Seq<Seq<char>>)> {
    seq![
        ("assets:checking"@, seq!["SAR"@]),
        ("expenses:cafe"@, Seq::empty()),
        ("expenses:groceries"@, Seq::empty()),
        ("expenses:misc"@, Seq::empty()),
        ("expenses:rent"@, Seq::empty()),
        ("expenses:transport"@, Seq::empty()),
        ("expenses:utilities"@, Seq::empty()),
        ("income:salary"@, Seq::empty()),
    ]
}

/// Every account a synthetic transaction posts to is declared: the
/// synthetic ledger is strict-clean.
pub proof fn law_synthetic_accounts_declared(i: nat, k: int)
    requires
        0 <= k < synthetic_txn(i).postings.len(),
    ensures
        exists|j: int|
            0 <= j < declared_accounts_view().len() && (#[trigger] declared_accounts_view()[j]).0
                == synthetic_txn(i).postings[k].account,
{
    let d = declared_accounts_view();
    let a = synthetic_txn(i).postings[k].account;
    if i % 50 == 0 {
        if k == 0 {
            assert(d[7].0 == a);
        } else {
            assert(d[0].0 == a);
        }
    } else if k == 0 {
        assert(d[0].0 == a);
    } else {
        let e = (i % 6) as int;
        if e == 0 {
            assert(d[1].0 == a);
        } else if e == 1 {
            assert(d[5].0 == a);
        } else if e == 2 {
            assert(d[2].0 == a);
        } else if e == 3 {
            assert(d[4].0 == a);
        } else if e == 4 {
            assert(d[6].0 == a);
        } else {
            assert(d[3].0 == a);
        }
    }
}

/// An account name and its currencies, as plain values.
pub open spec fn declared_view(e: (String, Vec<String>)) -> (Seq<char>, Seq<Seq<char>>) {
    (e.0@, crate::model::strings_view(e.1@))
}

fn declared(name: &str, currency: Option<&str>) -> (r: (String, Vec<String>))
    ensures
        r.0@ == name@,
        crate::model::strings_view(r.1@) == match currency {
            Some(c) => seq![c@],
            None => Seq::<Seq<char>>::empty(),
        },
{
    let mut cs: Vec<String> = Vec::new();
    match currency {
        Some(c) => cs.push(String::from_str(c)),
        None => {},
    }
    proof {
        assert(crate::model::strings_view(cs@) =~= match currency {
            Some(c) => seq![c@],
            None => Seq::<Seq<char>>::empty(),
        });
    }
    (String::from_str(name), cs)
}

/// Every account and currency the synthetic ledger uses, declared, for
/// scenarios that want a fully declared (strict-clean) ledger; in name
/// order.
pub fn declared_accounts() -> (r: Vec<(String, Vec<String>)>)
    ensures
        r@.map_values(|e: (String, Vec<String>)| declared_view(e)) == declared_accounts_view(),
{
    let mut out: Vec<(String, Vec<String>)> = Vec::new();
    out.push(declared("assets:checking", Some("SAR")));
    out.push(declared("expenses:cafe", None));
    out.push(declared("expenses:groceries", None));
    out.push(declared("expenses:misc", None));
    out.push(declared("expenses:rent", None));
    out.push(declared("expenses:transport", None));
    out.push(declared("expenses:utilities", None));
    out.push(declared("income:salary", None));
    assert(out@.map_values(|e: (String, Vec<String>)| declared_view(e)) =~= declared_accounts_view());
    out
}

/// `DD/MM/YYYY`.
pub open spec fn ddmmyyyy_text(d: (int, int, int)) -> Seq<char> {
    zero_padded(d.2, 2) + seq!['/'] + zero_padded(d.1, 2) + seq!['/'] + int_text(d.0)
}

/// A date as `DD/MM/YYYY`.
pub fn format_ddmmyyyy(date: Date) -> (r: String)
    ensures
        r@ == ddmmyyyy_text((date.ymd().0 as i32 as int, date.ymd().1, date.ymd().2)),
{
    let (y, m, d) = date.year_month_day();
    let mut v = zero_padded_chars(d as i64, 2);
    v.push('/');
    let mm = zero_padded_chars(m as i64, 2);
    append_chars(&mut v, &mm);
    v.push('/');
    let yy = int_chars(y as i64);
    append_chars(&mut v, &yy);
    string_of(&v)
}

/// The `i`th row of the synthetic bank statement:
/// `DD/MM/YYYY,-AMOUNT,PAYEE`.
pub open spec fn csv_row_text(i: nat) -> Seq<char> {
    let d = civil_of_days(days_of_civil(2020, 1, 1) + i);
    ddmmyyyy_text((d.0 as i32 as int, d.1, d.2)) + seq![','] + decimal_text(
        DecimalValue { negative: true, magnitude: synthetic_cents(i), scale: 2 },
    ) + seq![','] + payee_name((i % 8) as int) + seq!['\n']
}

/// The header and the first `n` rows of the synthetic statement.
pub open spec fn csv_text(n: nat) -> Seq<char>
    decreases n,
{
    if n == 0 {
        "Date,Amount,Description\n"@
    } else {
        csv_text((n - 1) as nat) + csv_row_text((n - 1) as nat)
    }
}

/// The rules file that files every synthetic row under `expenses:misc`.
pub open spec fn synthetic_rules_text() -> Seq<char> {
    "[source]\ndate = \"Date\"\namount = \"Amount\"\npayee = \"Description\"\ndate_format = \"%d/%m/%Y\"\naccount = \"assets:checking\"\ncommodity = \"SAR\"\n\n[[rule]]\nmatch = \"amount < 1000000\"\nto = \"expenses:misc\"\n"@
}

/// A synthetic bank CSV of `n` rows and a rules file that categorises
/// every row, so an import measures rule matching and insertion rather
/// than unmatched rows.
pub fn synthetic_csv_and_rules(n: usize) -> (r: (String, String))
    requires
        synthetic_fits(n as nat),
    ensures
        r.0@ == csv_text(n as nat),
        r.1@ == synthetic_rules_text(),
{
    let start = Date::from_ymd(2020, 1, 1).unwrap();
    let mut csv = chars_of("Date,Amount,Description\n");
    let mut i: usize = 0;
    while i < n
        invariant
            i <= n,
            synthetic_fits(n as nat),
            start.days() == days_of_civil(2020, 1, 1),
            csv@ == csv_text(i as nat),
        decreases n - i,
    {
        assert(days_of_civil(2020, 1, 1) == 18262);
        let date = start.add_days(i as i64);
        let cents: i64 = 500 + ((i * 37) % 20000) as i64;
        let amount = Decimal::new(0 - cents, 2);
        let day = format_ddmmyyyy(date);
        append_str(&mut csv, day.as_str());
        csv.push(',');
        let a = amount.to_string();
        append_str(&mut csv, a.as_str());
        csv.push(',');
        let p = payee_text(i % 8);
        append_str(&mut csv, p.as_str());
        csv.push('\n');
        assert(csv@ =~= csv_text(i as nat) + csv_row_text(i as nat));
        i += 1;
    }
    let rules = String::from_str(
        "[source]\ndate = \"Date\"\namount = \"Amount\"\npayee = \"Description\"\ndate_format = \"%d/%m/%Y\"\naccount = \"assets:checking\"\ncommodity = \"SAR\"\n\n[[rule]]\nmatch = \"amount < 1000000\"\nto = \"expenses:misc\"\n",
    );
    (string_of(&csv), rules)
}
} // verus!
