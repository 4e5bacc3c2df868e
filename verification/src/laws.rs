//! Promises the library keeps across calls: report patterns and account
//! prefixes, repeated imports, and balances that never mix commodities.

use vstd::prelude::*;

use crate::csv_import::{count_inserts, plan_is, RowPlan, TermView, LogicOp};
use crate::csv_import::CsvRow;
use crate::decimal::DecimalValue;
use crate::model::DirectiveView;
use crate::model::{nonzero_totals, total_amounts};
use crate::reports::{account_str_matches_spec, balance_groups, balance_report, groups_add, GroupsView};
use crate::model::{account_matches, prefix_text};
use crate::text::{join, lemma_join_concat, lemma_join_split, lemma_seq_less_irreflexive, lemma_split_len, seq_less, split_char};
use crate::totals::{lemma_totals_add_sorted, totals_add, totals_sorted};

verus! {

/// A trailing colon on a report pattern changes nothing: `assets:` and
/// `assets` select the same accounts.
pub proof fn law_trailing_colon(account: Seq<char>, pattern: Seq<char>)
    requires
        pattern.len() == 0 || pattern.last() != ':',
    ensures
        account_str_matches_spec(account, pattern.push(':')) == account_str_matches_spec(account, pattern),
{
    assert(pattern.push(':').drop_last() =~= pattern);
}

proof fn lemma_no_inserts(plans: Seq<RowPlan>)
    requires
        forall|i: int| 0 <= i < plans.len() ==> !((#[trigger] plans[i]) is Insert),
    ensures
        count_inserts(plans) == 0,
    decreases plans.len(),
{
    if plans.len() > 0 {
        assert forall|i: int| 0 <= i < plans.drop_last().len() implies !((#[trigger] plans.drop_last()[i]) is Insert) by {
            assert(plans.drop_last()[i] == plans[i]);
        }
        lemma_no_inserts(plans.drop_last());
        assert(!(plans.last() is Insert));
    }
}

/// Importing is idempotent: when the store already holds every row's
/// dedupe key (as after importing the same file), every row is planned as
/// a duplicate and nothing is inserted.
pub proof fn law_reimport_inserts_nothing(
    rules: Seq<((TermView, Seq<(LogicOp, TermView)>), Seq<char>)>,
    rows: Seq<CsvRow>,
    seen: Seq<bool>,
    dry_run: bool,
    plans: Seq<RowPlan>,
)
    requires
        plans.len() == rows.len(),
        seen.len() == rows.len(),
        forall|i: int| 0 <= i < rows.len() ==> plan_is(#[trigger] plans[i], rules, rows, seen, dry_run, plans, i),
        forall|i: int| 0 <= i < seen.len() ==> #[trigger] seen[i],
    ensures
        forall|i: int| 0 <= i < plans.len() ==> (#[trigger] plans[i]) is Duplicate,
        count_inserts(plans) == 0,
{
    assert forall|i: int| 0 <= i < plans.len() implies (#[trigger] plans[i]) is Duplicate by {
        assert(plan_is(plans[i], rules, rows, seen, dry_run, plans, i));
        assert(seen[i]);
    }
    lemma_no_inserts(plans);
}

/// The store holds row `i`'s key after an import that planned `plans`:
/// it held it before, or the import inserted a row with that key.
pub open spec fn held_after(rows: Seq<CsvRow>, seen: Seq<bool>, plans: Seq<RowPlan>, i: int) -> bool {
    seen[i] || exists|j: int| 0 <= j < plans.len() && (#[trigger] plans[j]) is Insert && rows[j].dedupe_hash@
        == rows[i].dedupe_hash@
}

/// Repeating an import inserts nothing more: once an import of the rows
/// has run (writing), a second import of the same rows, with the store
/// holding at least the keys it held before plus those the first run
/// inserted, plans no insert at all.
pub proof fn law_repeat_import_inserts_nothing(
    rules: Seq<((TermView, Seq<(LogicOp, TermView)>), Seq<char>)>,
    rows: Seq<CsvRow>,
    seen: Seq<bool>,
    plans: Seq<RowPlan>,
    seen_again: Seq<bool>,
    dry_run_again: bool,
    plans_again: Seq<RowPlan>,
)
    requires
        plans.len() == rows.len(),
        seen.len() == rows.len(),
        forall|i: int| 0 <= i < rows.len() ==> plan_is(#[trigger] plans[i], rules, rows, seen, false, plans, i),
        seen_again.len() == rows.len(),
        forall|i: int| 0 <= i < rows.len() && held_after(rows, seen, plans, i) ==> #[trigger] seen_again[i],
        plans_again.len() == rows.len(),
        forall|i: int|
            0 <= i < rows.len() ==> plan_is(#[trigger] plans_again[i], rules, rows, seen_again, dry_run_again, plans_again, i),
    ensures
        forall|i: int| 0 <= i < plans_again.len() ==> !((#[trigger] plans_again[i]) is Insert),
        count_inserts(plans_again) == 0,
{
    assert forall|i: int| 0 <= i < plans_again.len() implies !((#[trigger] plans_again[i]) is Insert) by {
        assert(plan_is(plans_again[i], rules, rows, seen_again, dry_run_again, plans_again, i));
        assert(plan_is(plans[i], rules, rows, seen, false, plans, i));
        if !seen_again[i] {
            assert(!held_after(rows, seen, plans, i));
            assert(!seen[i]);
            if crate::csv_import::inserted_before(rows, plans, i) {
                let j = choose|j: int| 0 <= j < i && (#[trigger] plans[j]) is Insert && rows[j].dedupe_hash@
                    == rows[i].dedupe_hash@;
                assert(false);
            }
            if plans[i] is Insert {
                assert(plans[i] is Insert && rows[i].dedupe_hash@ == rows[i].dedupe_hash@);
                assert(false);
            }
        }
    }
    lemma_no_inserts(plans_again);
}

/// A report pattern's prefixes: depth 0 is empty, depth 1 is the root,
/// and any depth at least the account's own is the whole name.
pub proof fn law_prefix_ends(a: Seq<char>, k: nat)
    ensures
        prefix_text(a, 0) == Seq::<char>::empty(),
        prefix_text(a, 1) == split_char(a, ':')[0],
        k >= split_char(a, ':').len() ==> prefix_text(a, k) == a,
{
    let segs = split_char(a, ':');
    lemma_split_len(a, ':');
    assert(segs.take(0) =~= Seq::<Seq<char>>::empty());
    assert(segs.take(1) =~= seq![segs[0]]);
    if k >= segs.len() {
        assert(segs.take(segs.len() as int) =~= segs);
        lemma_join_split(a, ':');
    }
}

/// An account matches a pattern exactly when the pattern is empty or is
/// the account's first `k` segments for some `k` from 1 to its depth: the
/// account itself or an ancestor, never a sibling that only shares a text
/// prefix (`assets:check` does not match `assets:checking`).
pub proof fn law_matches_prefixes(name: Seq<char>, p: Seq<char>)
    ensures
        account_matches(name, p) <==> (p.len() == 0 || exists|k: int|
            1 <= k <= split_char(name, ':').len() && p == #[trigger] prefix_text(name, k as nat)),
{
    let segs = split_char(name, ':');
    let d = segs.len();
    lemma_split_len(name, ':');
    if p.len() > 0 && account_matches(name, p) {
        if name == p {
            law_prefix_ends(name, d);
            let kd: int = d as int;
            assert(p == prefix_text(name, kd as nat));
        } else {
            let rest = name.skip(p.len() as int + 1);
            assert(name.take(p.len() as int + 1) == p.push(':'));
            assert(name =~= name.take(p.len() as int + 1) + rest);
            assert(p.push(':') =~= p + seq![':']);
            assert(name =~= p + seq![':'] + rest);
            crate::round_trip::lemma_split_concat(p, ':', rest);
            let sp = split_char(p, ':');
            lemma_split_len(p, ':');
            lemma_split_len(rest, ':');
            let k = sp.len() as int;
            assert(segs.take(k) =~= sp);
            lemma_join_split(p, ':');
            assert(p == prefix_text(name, k as nat));
            assert(1 <= k <= d);
        }
    }
    if p.len() > 0 && (exists|k: int| 1 <= k <= d && p == #[trigger] prefix_text(name, k as nat)) {
        let k = choose|k: int| 1 <= k <= d && p == #[trigger] prefix_text(name, k as nat);
        if k == d {
            law_prefix_ends(name, d);
        } else {
            lemma_join_split(name, ':');
            assert(segs =~= segs.take(k) + segs.skip(k));
            lemma_join_concat(segs.take(k), segs.skip(k), seq![':']);
            let tail = join(segs.skip(k), seq![':']);
            assert(name == p + seq![':'] + tail);
            assert(name.take(p.len() as int + 1) =~= p.push(':'));
        }
    }
}

/// Checking a transaction's balance and resolving its elided posting agree:
/// one succeeds exactly when the other does (both refuse fewer than two
/// postings, more than one elided posting, and an imbalance), and the
/// amount filled into the elided posting is the first amount the balance
/// check reports.
pub proof fn law_balanced_iff_resolves(ps: Seq<crate::model::Posting>)
    ensures
        (crate::model::balanced_result(ps) is Ok) <==> (crate::model::resolve_result(ps) is Ok),
        crate::model::resolve_result(ps) matches Ok(Some(f)) ==> (crate::model::balanced_result(ps) matches Ok(v)
            && v.len() > 0 && v[0] == f),
{
}

/// Net worth is assets and liabilities only: a posting under `equity`,
/// `income` or `expenses` adds nothing to the net-worth amounts, while one
/// under `assets` or `liabilities` with an amount adds exactly its amount.
pub proof fn law_networth_roots(ps: Seq<crate::model::Posting>, p: crate::model::Posting)
    ensures
        (split_char(p.account@, ':')[0] == "equity"@ || split_char(p.account@, ':')[0] == "income"@
            || split_char(p.account@, ':')[0] == "expenses"@) ==> crate::reports::posting_pairs(ps.push(p))
            == crate::reports::posting_pairs(ps),
        (split_char(p.account@, ':')[0] == "assets"@ || split_char(p.account@, ':')[0] == "liabilities"@)
            && p.amount is Some ==> crate::reports::posting_pairs(ps.push(p)) == crate::reports::posting_pairs(
            ps,
        ).push((p.amount->0.commodity@, p.amount->0.number@)),
{
    reveal_strlit("assets");
    reveal_strlit("liabilities");
    reveal_strlit("equity");
    reveal_strlit("income");
    reveal_strlit("expenses");
    assert("equity"@[0] == 'e' && "income"@[0] == 'i' && "expenses"@[0] == 'e');
    assert("assets"@[0] == 'a' && "liabilities"@[0] == 'l');
    assert("equity"@ != "assets"@ && "equity"@ != "liabilities"@);
    assert("income"@ != "assets"@ && "income"@ != "liabilities"@);
    assert("expenses"@ != "assets"@ && "expenses"@ != "liabilities"@);
    assert(ps.push(p).drop_last() =~= ps);
    assert(ps.push(p).last() == p);
}

/// Number comparisons in import rules mean what they say: with the row's
/// field value `f` and the rule's number `n`, `<=` holds exactly when `f`
/// is below or equal to `n`, `>=` exactly when it is above or equal, `<`
/// and `>` strictly, `=` and `!=` by value; a missing field never holds.
pub proof fn law_number_terms(t: TermView, row: CsvRow)
    requires
        t.value is Number,
    ensures
        ({
            let n = t.value->Number_0;
            match crate::csv_import::row_field_number(row, t.field) {
                None => !crate::csv_import::term_holds(t, row),
                Some(f) => match t.op {
                    crate::csv_import::CondOp::Le => crate::csv_import::term_holds(t, row) <==> (f.less_than(n)
                        || f.same_value(n)),
                    crate::csv_import::CondOp::Ge => crate::csv_import::term_holds(t, row) <==> (n.less_than(f)
                        || f.same_value(n)),
                    crate::csv_import::CondOp::Lt => crate::csv_import::term_holds(t, row) <==> f.less_than(n),
                    crate::csv_import::CondOp::Gt => crate::csv_import::term_holds(t, row) <==> n.less_than(f),
                    crate::csv_import::CondOp::Eq => crate::csv_import::term_holds(t, row) <==> f.same_value(n),
                    crate::csv_import::CondOp::Ne => crate::csv_import::term_holds(t, row) <==> !f.same_value(n),
                    crate::csv_import::CondOp::Match => !crate::csv_import::term_holds(t, row),
                },
            }
        }),
{
}

/// Some posting of `ps` is to `account`, in `commodity`, for the number `v`.
pub open spec fn posted_as(ps: Seq<crate::model::Posting>, account: Seq<char>, commodity: Seq<char>, v: DecimalValue) -> bool {
    exists|j: int|
        0 <= j < ps.len() && (#[trigger] ps[j]).account@ == account && ps[j].amount is Some
            && ps[j].amount->0.commodity@ == commodity && ps[j].amount->0.number@ == v
}

/// A balance assertion sums only what it names: every amount it adds up
/// from a transaction's postings is the number of a posting to the
/// asserted account in the asserted commodity.
pub proof fn law_assertion_amounts_match(ps: Seq<crate::model::Posting>, account: Seq<char>, commodity: Seq<char>)
    ensures
        forall|k: int|
            0 <= k < crate::reports::matching_amounts(ps, account, commodity).len() ==> posted_as(
                ps,
                account,
                commodity,
                #[trigger] crate::reports::matching_amounts(ps, account, commodity)[k],
            ),
    decreases ps.len(),
{
    let m = crate::reports::matching_amounts(ps, account, commodity);
    if ps.len() > 0 {
        let q = ps.drop_last();
        law_assertion_amounts_match(q, account, commodity);
        let mq = crate::reports::matching_amounts(q, account, commodity);
        let p = ps.last();
        assert(ps[ps.len() - 1] == p);
        if p.account@ == account && p.amount is Some && p.amount->0.commodity@ == commodity {
            assert(m == mq.push(p.amount->0.number@));
        } else {
            assert(m == mq);
        }
        assert forall|k: int| 0 <= k < m.len() implies posted_as(ps, account, commodity, #[trigger] m[k]) by {
            if k < mq.len() {
                assert(m[k] == mq[k]);
                assert(posted_as(q, account, commodity, mq[k]));
                let j = choose|j: int|
                    0 <= j < q.len() && (#[trigger] q[j]).account@ == account && q[j].amount is Some
                        && q[j].amount->0.commodity@ == commodity && q[j].amount->0.number@ == mq[k];
                assert(ps[j] == q[j]);
            } else {
                let j = ps.len() - 1;
                assert(m[k] == p.amount->0.number@);
                assert(ps[j] == p);
            }
        }
    } else {
        assert(m.len() == 0);
    }
}

/// The ledger-cli export writes open, close, balance and pad lines exactly
/// as the Beancount text does (so a pad names the padded account, then
/// its source); and a lone canonical pad's ledger-cli text parses back to
/// that pad.
pub proof fn law_ledger_lines_match_beancount(d: DirectiveView)
    ensures
        (d is Open || d is Close || d is Balance || d is Pad) ==> crate::export::ledger_text(d)
            == crate::parser::directive_text(d),
        d is Pad && crate::round_trip::canonical_directive(d) ==> crate::parser::parse_text(
            crate::export::ledger_export(seq![d]),
        ) == crate::parser::FileParse::Parsed(seq![d]),
{
    reveal(crate::parser::directive_text);
    if d is Pad && crate::round_trip::canonical_directive(d) {
        let s = seq![d];
        assert(s.drop_last() =~= Seq::<DirectiveView>::empty());
        assert(s.last() == d);
        assert(crate::export::ledger_export(Seq::<DirectiveView>::empty()) == Seq::<char>::empty());
        assert(crate::parser::serialize_text(Seq::<DirectiveView>::empty()) == Seq::<char>::empty());
        assert(crate::export::ledger_export(s) =~= crate::export::ledger_text(d));
        assert(crate::parser::serialize_text(s) =~= crate::parser::directive_text(d));
        crate::round_trip::lemma_parse_serialize(s);
    }
}

/// A two-digit `%y` year is in the 2000s: reading `DD/MM/YY` with the
/// format `%d/%m/%y` gives the year 2000 + YY (with month MM and day DD),
/// whenever it gives a date at all; and it gives one whenever that is a
/// real calendar date.
pub proof fn law_two_digit_years(d1: char, d2: char, m1: char, m2: char, y1: char, y2: char)
    requires
        '0' <= d1 <= '9',
        '0' <= d2 <= '9',
        '0' <= m1 <= '9',
        '0' <= m2 <= '9',
        '0' <= y1 <= '9',
        '0' <= y2 <= '9',
    ensures
        ({
            let s = seq![d1, d2, '/', m1, m2, '/', y1, y2];
            let year = 2000 + 10 * (y1 as int - 48) + (y2 as int - 48);
            let month = 10 * (m1 as int - 48) + (m2 as int - 48);
            let day = 10 * (d1 as int - 48) + (d2 as int - 48);
            &&& crate::date::format_result(s, "%d/%m/%y"@) matches Ok(r) ==> r == (year, month, day)
            &&& crate::date::valid_ymd(year, month, day) ==> crate::date::format_result(s, "%d/%m/%y"@)
                == Ok::<(int, int, int), Seq<char>>((year, month, day))
        }),
{
    reveal_strlit("%d/%m/%y");
    let s = seq![d1, d2, '/', m1, m2, '/', y1, y2];
    let fmt = "%d/%m/%y"@;
    assert(fmt =~= seq!['%', 'd', '/', '%', 'm', '/', '%', 'y']);
    let year = 2000 + 10 * (y1 as int - 48) + (y2 as int - 48);
    let month = 10 * (m1 as int - 48) + (m2 as int - 48);
    let day = 10 * (d1 as int - 48) + (d2 as int - 48);
    assert(crate::text::trim(s) == s) by {
        crate::round_trip::lemma_trim_plain(s);
    }
    lemma_two_digits(d1, d2, s);
    let r1 = s.skip(2);
    assert(r1 =~= seq!['/', m1, m2, '/', y1, y2]);
    let r2 = r1.drop_first();
    assert(r2 =~= seq![m1, m2, '/', y1, y2]);
    lemma_two_digits(m1, m2, r2);
    let r3 = r2.skip(2);
    assert(r3 =~= seq!['/', y1, y2]);
    let r4 = r3.drop_first();
    assert(r4 =~= seq![y1, y2]);
    lemma_two_digits(y1, y2, r4);
    let r5 = r4.skip(2);
    assert(r5 =~= Seq::<char>::empty());
    let st0: crate::date::FieldState = (None, None, None);
    let st1: crate::date::FieldState = (None, None, Some(day));
    let st2: crate::date::FieldState = (None, Some(month), Some(day));
    let st3: crate::date::FieldState = (Some(year), Some(month), Some(day));
    assert(crate::date::format_fields(s, fmt, 8, r5, st3) == Ok::<crate::date::FieldState, Seq<char>>(st3));
    assert(crate::date::format_fields(s, fmt, 6, r4, st2) == Ok::<crate::date::FieldState, Seq<char>>(st3));
    assert(crate::date::format_fields(s, fmt, 5, r3, st2) == Ok::<crate::date::FieldState, Seq<char>>(st3));
    assert(crate::date::format_fields(s, fmt, 3, r2, st1) == Ok::<crate::date::FieldState, Seq<char>>(st3));
    assert(crate::date::format_fields(s, fmt, 2, r1, st1) == Ok::<crate::date::FieldState, Seq<char>>(st3));
    assert(crate::date::format_fields(s, fmt, 0, s, st0) == Ok::<crate::date::FieldState, Seq<char>>(st3));
}

/// Two ASCII digits at the front: both are read, worth `10 a + b`.
proof fn lemma_two_digits(a: char, b: char, s: Seq<char>)
    requires
        '0' <= a <= '9',
        '0' <= b <= '9',
        s.len() >= 2,
        s[0] == a,
        s[1] == b,
        s.len() > 2 ==> !('0' <= s[2] <= '9'),
    ensures
        crate::date::leading_digits(s, 2) == 2,
        crate::text::digits_value(s.take(2)) == 10 * (a as int - 48) + (b as int - 48),
{
    assert(s.drop_first()[0] == b);
    assert(crate::date::leading_digits(s.drop_first().drop_first(), 0) == 0);
    assert(crate::date::leading_digits(s.drop_first(), 1) == 1);
    let t = s.take(2);
    assert(a as int >= 48 && b as int >= 48);
    assert(t.drop_last() =~= seq![a]);
    assert(t.last() == b);
    assert(seq![a].drop_last() =~= Seq::<char>::empty());
    assert(crate::text::digits_value(Seq::<char>::empty()) == 0);
    assert(crate::text::digits_value(seq![a]) == 10 * crate::text::digits_value(seq![a].drop_last()) + ((a as int - 48) as nat));
    assert(crate::text::digits_value(seq![a]) == (a as int - 48));
    assert(crate::text::digits_value(t) == 10 * crate::text::digits_value(t.drop_last()) + ((b as int - 48) as nat));
}

/// Every account's totals keep their commodities strictly ordered.
pub open spec fn groups_sorted(g: GroupsView) -> bool {
    forall|k: int| 0 <= k < g.len() ==> totals_sorted(#[trigger] g[k].1)
}

proof fn lemma_groups_add_sorted(g: GroupsView, key: Seq<char>, c: Seq<char>, v: DecimalValue)
    requires
        groups_sorted(g),
    ensures
        groups_sorted(groups_add(g, key, c, v)),
    decreases g.len(),
{
    lemma_totals_add_sorted(Seq::empty(), c, v);
    let r = groups_add(g, key, c, v);
    if g.len() == 0 {
    } else if g[0].0 == key {
        lemma_totals_add_sorted(g[0].1, c, v);
        assert forall|k: int| 0 <= k < r.len() implies totals_sorted(#[trigger] r[k].1) by {
            if k > 0 {
                assert(r[k] == g[k]);
            }
        }
    } else if seq_less(key, g[0].0) {
        assert forall|k: int| 0 <= k < r.len() implies totals_sorted(#[trigger] r[k].1) by {
            if k > 0 {
                assert(r[k] == g[k - 1]);
            }
        }
    } else {
        let rest = g.drop_first();
        assert forall|k: int| 0 <= k < rest.len() implies totals_sorted(#[trigger] rest[k].1) by {
            assert(rest[k] == g[k + 1]);
        }
        lemma_groups_add_sorted(rest, key, c, v);
        let rr = groups_add(rest, key, c, v);
        assert forall|k: int| 0 <= k < r.len() implies totals_sorted(#[trigger] r[k].1) by {
            if k > 0 {
                assert(r[k] == rr[k - 1]);
            }
        }
    }
}

proof fn lemma_balance_groups_sorted(
    rows: Seq<(Seq<char>, DecimalValue, Seq<char>)>,
    pattern: Option<Seq<char>>,
    depth: Option<usize>,
)
    ensures
        groups_sorted(balance_groups(rows, pattern, depth)),
    decreases rows.len(),
{
    if rows.len() > 0 {
        lemma_balance_groups_sorted(rows.drop_last(), pattern, depth);
        let prev = balance_groups(rows.drop_last(), pattern, depth);
        let r = rows.last();
        match crate::reports::row_key(r.0, pattern, depth) {
            Some(key) => lemma_groups_add_sorted(prev, key, r.2, r.1),
            None => {},
        }
    }
}

proof fn lemma_nonzero_sorted(t: Seq<(Seq<char>, DecimalValue)>)
    requires
        totals_sorted(t),
    ensures
        totals_sorted(nonzero_totals(t)),
        forall|i: int| 0 <= i < nonzero_totals(t).len() ==> t.contains(#[trigger] nonzero_totals(t)[i]),
    decreases t.len(),
{
    if t.len() > 0 {
        let init = t.drop_last();
        assert(totals_sorted(init)) by {
            assert forall|i: int, j: int| 0 <= i < j < init.len() implies seq_less(init[i].0, init[j].0) by {
                assert(init[i] == t[i]);
                assert(init[j] == t[j]);
            }
        }
        lemma_nonzero_sorted(init);
        let n = nonzero_totals(init);
        assert forall|i: int| 0 <= i < n.len() implies t.contains(#[trigger] n[i]) by {
            assert(init.contains(n[i]));
            let k = choose|k: int| 0 <= k < init.len() && init[k] == n[i];
            assert(t[k] == n[i]);
        }
        if !t.last().1.is_zero() {
            let m = n.push(t.last());
            assert forall|i: int| 0 <= i < m.len() implies t.contains(#[trigger] m[i]) by {
                if i < n.len() {
                    assert(m[i] == n[i]);
                } else {
                    assert(t[t.len() - 1] == m[i]);
                }
            }
            assert forall|i: int, j: int| 0 <= i < j < m.len() implies seq_less(m[i].0, m[j].0) by {
                if j < n.len() {
                    assert(m[i] == n[i]);
                    assert(m[j] == n[j]);
                } else {
                    assert(m[i] == n[i]);
                    assert(init.contains(n[i]));
                    let k = choose|k: int| 0 <= k < init.len() && init[k] == n[i];
                    assert(t[k] == n[i]);
                    assert(seq_less(t[k].0, t[t.len() - 1].0));
                }
            }
        }
    }
}

/// A balance report never sums across commodities: within each account's
/// line, every commodity appears once, in commodity order.
pub proof fn law_balance_commodities_apart(
    rows: Seq<(Seq<char>, DecimalValue, Seq<char>)>,
    pattern: Option<Seq<char>>,
    depth: Option<usize>,
)
    ensures
        forall|k: int, i: int, j: int|
            0 <= k < balance_report(balance_groups(rows, pattern, depth)).len() && 0 <= i < j < balance_report(
                balance_groups(rows, pattern, depth),
            )[k].1.len() ==> seq_less(
                #[trigger] balance_report(balance_groups(rows, pattern, depth))[k].1[i].1,
                #[trigger] balance_report(balance_groups(rows, pattern, depth))[k].1[j].1,
            ),
{
    let g = balance_groups(rows, pattern, depth);
    lemma_balance_groups_sorted(rows, pattern, depth);
    lemma_report_sorted(g);
}

proof fn lemma_report_sorted(g: GroupsView)
    requires
        groups_sorted(g),
    ensures
        forall|k: int, i: int, j: int|
            0 <= k < balance_report(g).len() && 0 <= i < j < balance_report(g)[k].1.len() ==> seq_less(
                #[trigger] balance_report(g)[k].1[i].1,
                #[trigger] balance_report(g)[k].1[j].1,
            ),
    decreases g.len(),
{
    if g.len() > 0 {
        let init = g.drop_last();
        assert(groups_sorted(init)) by {
            assert forall|k: int| 0 <= k < init.len() implies totals_sorted(#[trigger] init[k].1) by {
                assert(init[k] == g[k]);
            }
        }
        lemma_report_sorted(init);
        let prev = balance_report(init);
        let nz = nonzero_totals(g.last().1);
        assert(totals_sorted(g[g.len() - 1].1));
        lemma_nonzero_sorted(g.last().1);
        if nz.len() > 0 {
            let r = prev.push((g.last().0, total_amounts(nz)));
            assert forall|k: int, i: int, j: int|
                0 <= k < r.len() && 0 <= i < j < r[k].1.len() implies seq_less(#[trigger] r[k].1[i].1, #[trigger] r[k].1[j].1) by {
                if k < prev.len() {
                    assert(r[k] == prev[k]);
                } else {
                    assert(r[k].1 == total_amounts(nz));
                    assert(r[k].1[i].1 == nz[i].0);
                    assert(r[k].1[j].1 == nz[j].0);
                }
            }
        }
    }
}

} // verus!
