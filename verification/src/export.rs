//! Rendering a ledger's directives to a portable text format. Beancount
//! is the primary, round-trippable one; `ledger` and `csv` are one-way
//! exports for other tools.

use vstd::prelude::*;

use crate::date::{civil_of_days, days_of_civil, Date};
use crate::decimal::decimal_text;
use crate::model::{
    amount_pair, strings_view, Account, Amount, CommodityInfo, Directive, DirectiveView, Transaction,
    TransactionView,
};
use crate::parser::{pair_text, ymd_view_text};
use crate::text::{append_chars, append_str, chars_of, join, seq_less, string_of};

verus! {

#[derive(Debug, Clone, Copy, PartialEq, Eq, Structural)]
pub enum ExportFormat {
    Beancount,
    Ledger,
    Csv,
}

/// What a format name (compared lowercased) selects, or the message.
pub open spec fn format_result(lower: Seq<char>) -> Result<ExportFormat, Seq<char>> {
    if lower == "beancount"@ || lower == "bean"@ {
        Ok(ExportFormat::Beancount)
    } else if lower == "ledger"@ || lower == "hledger"@ {
        Ok(ExportFormat::Ledger)
    } else if lower == "csv"@ {
        Ok(ExportFormat::Csv)
    } else {
        Err("unknown export format "@ + crate::text::debug_text(lower) + " (expected beancount, ledger, or csv)"@)
    }
}

impl ExportFormat {
    /// `beancount`/`bean`, `ledger`/`hledger` or `csv`, in any case.
    pub fn parse(s: &str) -> (r: Result<ExportFormat, String>)
        ensures
            match (r, format_result(crate::text::lowercase(s@))) {
                (Ok(f), Ok(g)) => f == g,
                (Err(e), Err(m)) => e@ == m,
                _ => false,
            },
    {
        let lower = crate::text::to_lowercase(s);
        let l = chars_of(lower.as_str());
        if crate::text::chars_eq_str(&l, "beancount") || crate::text::chars_eq_str(&l, "bean") {
            Ok(ExportFormat::Beancount)
        } else if crate::text::chars_eq_str(&l, "ledger") || crate::text::chars_eq_str(&l, "hledger") {
            Ok(ExportFormat::Ledger)
        } else if crate::text::chars_eq_str(&l, "csv") {
            Ok(ExportFormat::Csv)
        } else {
            let mut m = chars_of("unknown export format ");
            let q = crate::text::debug_chars(&l);
            append_chars(&mut m, &q);
            append_str(&mut m, " (expected beancount, ledger, or csv)");
            Err(string_of(&m))
        }
    }
}

// -- ordering ------------------------------------------------------------

/// Where a directive goes among those of its date.
pub open spec fn rank_of(d: DirectiveView) -> int {
    match d {
        DirectiveView::Commodity { .. } => 0,
        DirectiveView::Open { .. } => 1,
        DirectiveView::Pad { .. } => 2,
        DirectiveView::Balance { .. } => 3,
        DirectiveView::Transaction(_) => 4,
        DirectiveView::Close { .. } => 5,
    }
}

/// The date of a directive, as (year, month, day).
pub open spec fn view_date(d: DirectiveView) -> (int, int, int) {
    match d {
        DirectiveView::Transaction(t) => t.date,
        DirectiveView::Open { date, .. } => date,
        DirectiveView::Close { date, .. } => date,
        DirectiveView::Balance { date, .. } => date,
        DirectiveView::Pad { date, .. } => date,
        DirectiveView::Commodity { date, .. } => date,
    }
}

/// The part of the ledger a directive goes in: declarations (commodities,
/// opens, closes) first, then the dated entries (pads, balance assertions,
/// transactions).
pub open spec fn group_of(d: DirectiveView) -> int {
    match d {
        DirectiveView::Commodity { .. } => 0,
        DirectiveView::Open { .. } => 0,
        DirectiveView::Close { .. } => 0,
        _ => 1,
    }
}

/// The name a declaration is sorted by: the commodity code or the account.
pub open spec fn name_of(d: DirectiveView) -> Seq<char> {
    match d {
        DirectiveView::Commodity { code, .. } => code,
        DirectiveView::Open { account, .. } => account,
        DirectiveView::Close { account, .. } => account,
        _ => Seq::empty(),
    }
}

/// `a` goes no later than `b`: declarations before dated entries;
/// declarations by date, then name (then commodity, open, close); dated
/// entries by date (then pad, balance, transaction).
pub open spec fn key_le(a: DirectiveView, b: DirectiveView) -> bool {
    let da = days_of_civil(view_date(a).0, view_date(a).1, view_date(a).2);
    let db = days_of_civil(view_date(b).0, view_date(b).1, view_date(b).2);
    group_of(a) < group_of(b) || (group_of(a) == group_of(b) && (da < db || (da == db && if group_of(a) == 0 {
        seq_less(name_of(a), name_of(b)) || (name_of(a) == name_of(b) && rank_of(a) <= rank_of(b))
    } else {
        rank_of(a) <= rank_of(b)
    })))
}

/// Inserts `x` after every directive whose key is at most its own.
pub open spec fn insert_sorted(s: Seq<DirectiveView>, x: DirectiveView) -> Seq<DirectiveView>
    decreases s.len(),
{
    if s.len() == 0 {
        seq![x]
    } else if key_le(s.last(), x) {
        s.push(x)
    } else {
        insert_sorted(s.drop_last(), x).push(s.last())
    }
}

/// A stable insertion sort by [`key_le`].
pub open spec fn sort_directives(s: Seq<DirectiveView>) -> Seq<DirectiveView>
    decreases s.len(),
{
    if s.len() == 0 {
        Seq::empty()
    } else {
        insert_sorted(sort_directives(s.drop_last()), s.last())
    }
}

/// Every directive of `insert_sorted(s, x)` is `x` or one of `s`, and its
/// length is one more.
proof fn lemma_insert_members(s: Seq<DirectiveView>, x: DirectiveView)
    ensures
        insert_sorted(s, x).len() == s.len() + 1,
        forall|i: int|
            0 <= i < insert_sorted(s, x).len() ==> (#[trigger] insert_sorted(s, x)[i] == x || exists|j: int|
                0 <= j < s.len() && s[j] == insert_sorted(s, x)[i]),
    decreases s.len(),
{
    if s.len() > 0 && !key_le(s.last(), x) {
        let t = s.drop_last();
        lemma_insert_members(t, x);
        let r = insert_sorted(s, x);
        assert forall|i: int| 0 <= i < r.len() implies (#[trigger] r[i] == x || exists|j: int|
            0 <= j < s.len() && s[j] == r[i]) by {
            if i < r.len() - 1 {
                assert(r[i] == insert_sorted(t, x)[i]);
                if insert_sorted(t, x)[i] != x {
                    let j = choose|j: int| 0 <= j < t.len() && t[j] == insert_sorted(t, x)[i];
                    assert(s[j] == t[j]);
                }
            } else {
                assert(s[s.len() - 1] == r[i]);
            }
        }
    }
}

/// Inserting into a sequence whose parts are in order keeps them in order.
proof fn lemma_insert_groups(s: Seq<DirectiveView>, x: DirectiveView)
    requires
        forall|i: int, j: int| 0 <= i < j < s.len() ==> group_of(s[i]) <= group_of(s[j]),
    ensures
        forall|i: int, j: int|
            0 <= i < j < insert_sorted(s, x).len() ==> group_of(insert_sorted(s, x)[i]) <= group_of(
                insert_sorted(s, x)[j],
            ),
    decreases s.len(),
{
    lemma_insert_members(s, x);
    if s.len() > 0 {
        let t = s.drop_last();
        if !key_le(s.last(), x) {
            lemma_insert_groups(t, x);
            lemma_insert_members(t, x);
            let r = insert_sorted(s, x);
            let q = insert_sorted(t, x);
            assert forall|i: int, j: int| 0 <= i < j < r.len() implies group_of(r[i]) <= group_of(r[j]) by {
                if j == r.len() - 1 {
                    assert(r[j] == s.last());
                    assert(r[i] == q[i]);
                    if q[i] != x {
                        let k = choose|k: int| 0 <= k < t.len() && t[k] == q[i];
                        assert(t[k] == s[k]);
                    }
                } else {
                    assert(r[i] == q[i]);
                    assert(r[j] == q[j]);
                }
            }
        }
    }
}

/// Ledger order puts every declaration (commodity, open, close) before
/// every dated entry (pad, balance assertion, transaction), and keeps all
/// the directives it is given.
pub proof fn law_declarations_first(s: Seq<DirectiveView>)
    ensures
        sort_directives(s).len() == s.len(),
        forall|i: int, j: int|
            0 <= i < j < sort_directives(s).len() ==> group_of(sort_directives(s)[i]) <= group_of(
                sort_directives(s)[j],
            ),
    decreases s.len(),
{
    if s.len() > 0 {
        law_declarations_first(s.drop_last());
        lemma_insert_groups(sort_directives(s.drop_last()), s.last());
        lemma_insert_members(sort_directives(s.drop_last()), s.last());
    }
}

fn rank(d: &Directive) -> (r: u8)
    ensures
        r as int == rank_of(d@),
{
    match d {
        Directive::Commodity { .. } => 0,
        Directive::Open { .. } => 1,
        Directive::Pad { .. } => 2,
        Directive::Balance { .. } => 3,
        Directive::Transaction(_) => 4,
        Directive::Close { .. } => 5,
    }
}

/// The day number of a directive's date, as its view's (year, month, day)
/// spells it.
fn day_number(d: &Directive) -> (r: i64)
    ensures
        r == days_of_civil(view_date(d@).0, view_date(d@).1, view_date(d@).2),
{
    let date = d.date();
    let n = date.days_since_epoch();
    proof {
        crate::date::lemma_days_round_trip(date.days());
        assert(view_date(d@) == date.ymd());
    }
    n
}

fn group(d: &Directive) -> (r: u8)
    ensures
        r as int == group_of(d@),
{
    match d {
        Directive::Commodity { .. } => 0,
        Directive::Open { .. } => 0,
        Directive::Close { .. } => 0,
        _ => 1,
    }
}

fn name_chars(d: &Directive) -> (r: Vec<char>)
    ensures
        r@ == name_of(d@),
{
    match d {
        Directive::Commodity { info, .. } => chars_of(info.code.as_str()),
        Directive::Open { account, .. } => account.to_chars(),
        Directive::Close { account, .. } => account.to_chars(),
        _ => Vec::new(),
    }
}

/// Whether `a` goes no later than `b` ([`key_le`]).
fn goes_before(a: &Directive, b: &Directive) -> (r: bool)
    ensures
        r == key_le(a@, b@),
{
    let ga = group(a);
    let gb = group(b);
    if ga != gb {
        return ga < gb;
    }
    let da = day_number(a);
    let db = day_number(b);
    if da != db {
        return da < db;
    }
    let ra = rank(a);
    let rb = rank(b);
    if ga == 0 {
        let na = name_chars(a);
        let nb = name_chars(b);
        crate::text::chars_less(&na, &nb) || (crate::text::chars_eq(&na, &nb) && ra <= rb)
    } else {
        ra <= rb
    }
}

/// A copy of a directive.
pub fn clone_directive(d: &Directive) -> (r: Directive)
    ensures
        r@ == d@,
{
    match d {
        Directive::Transaction(t) => {
            let c = t.clone();
            assert(crate::model::postings_view(c.postings@) =~= crate::model::postings_view(t.postings@));
            Directive::Transaction(c)
        },
        Directive::Open { date, account, currencies } => Directive::Open {
            date: *date,
            account: account.clone(),
            currencies: crate::model::clone_strings(currencies),
        },
        Directive::Close { date, account } => Directive::Close { date: *date, account: account.clone() },
        Directive::Balance { date, account, amount } => Directive::Balance {
            date: *date,
            account: account.clone(),
            amount: amount.clone(),
        },
        Directive::Pad { date, account, source } => Directive::Pad {
            date: *date,
            account: account.clone(),
            source: source.clone(),
        },
        Directive::Commodity { date, info } => Directive::Commodity { date: *date, info: info.clone() },
    }
}

/// Sorts directives stably into ledger order ([`key_le`]).
pub fn sort_by_date_and_rank(list: &Vec<Directive>) -> (r: Vec<Directive>)
    ensures
        crate::model::directives_view(r@) == sort_directives(crate::model::directives_view(list@)),
{
    let ghost lv = crate::model::directives_view(list@);
    let mut out: Vec<Directive> = Vec::new();
    let mut i: usize = 0;
    assert(lv.take(0) =~= Seq::<DirectiveView>::empty());
    assert(crate::model::directives_view(out@) =~= Seq::<DirectiveView>::empty());
    while i < list.len()
        invariant
            i <= list.len(),
            lv == crate::model::directives_view(list@),
            crate::model::directives_view(out@) == sort_directives(lv.take(i as int)),
        decreases list.len() - i,
    {
        let x = &list[i];
        assert(lv[i as int] == x@);
        assert(lv.take(i + 1).drop_last() =~= lv.take(i as int));
        assert(lv.take(i + 1).last() == x@);
        let ghost o = crate::model::directives_view(out@);
        let mut j: usize = out.len();
        assert(o.take(j as int) =~= o);
        assert(o.skip(j as int) =~= Seq::<DirectiveView>::empty());
        assert(insert_sorted(o, x@) =~= insert_sorted(o.take(j as int), x@) + o.skip(j as int));
        loop
            invariant
                j <= o.len(),
                o == crate::model::directives_view(out@),
                insert_sorted(o, x@) == insert_sorted(o.take(j as int), x@) + o.skip(j as int),
            ensures
                j <= o.len(),
                insert_sorted(o, x@) == insert_sorted(o.take(j as int), x@) + o.skip(j as int),
                j > 0 ==> key_le(o[j - 1], x@),
            decreases j,
        {
            if j == 0 {
                break;
            }
            assert(o[j - 1] == out@[j - 1]@);
            if goes_before(&out[j - 1], x) {
                break;
            }
            assert(o.take(j as int).drop_last() =~= o.take(j - 1));
            assert(o.take(j as int).last() == o[j - 1]);
            assert(o.skip(j - 1) =~= seq![o[j - 1]] + o.skip(j as int));
            assert(insert_sorted(o.take(j - 1), x@).push(o[j - 1]) + o.skip(j as int) =~= insert_sorted(o.take(j - 1), x@) + o.skip(j - 1));
            j -= 1;
        }
        if j > 0 {
            assert(insert_sorted(o.take(j as int), x@) == o.take(j as int).push(x@));
        } else {
            assert(o.take(0) =~= Seq::<DirectiveView>::empty());
        }
        out.insert(j, clone_directive(x));
        assert(crate::model::directives_view(out@) =~= o.take(j as int).push(x@) + o.skip(j as int));
        i += 1;
    }
    assert(lv.take(list.len() as int) =~= lv);
    out
}

// -- collecting ----------------------------------------------------------

/// Commodity declarations, dated 1970-01-01.
pub open spec fn commodity_views(infos: Seq<CommodityInfo>) -> Seq<DirectiveView> {
    infos.map_values(|i: CommodityInfo| DirectiveView::Commodity { date: civil_of_days(0), code: i.code@, precision: i.precision })
}

/// An account declaration: (account, opened, closed, currencies).
pub type Declaration = (Account, Date, Option<Date>, Vec<String>);

/// Each declaration's `open`, followed by its `close` when it has one.
pub open spec fn declaration_views(decls: Seq<Declaration>) -> Seq<DirectiveView>
    decreases decls.len(),
{
    if decls.len() == 0 {
        Seq::empty()
    } else {
        let d = decls.last();
        let open = DirectiveView::Open { date: d.1.ymd(), account: d.0@, currencies: strings_view(d.3@) };
        declaration_views(decls.drop_last()) + match d.2 {
            Some(c) => seq![open, DirectiveView::Close { date: c.ymd(), account: d.0@ }],
            None => seq![open],
        }
    }
}

pub open spec fn pad_views(pads: Seq<(Date, Account, Account)>) -> Seq<DirectiveView> {
    pads.map_values(|p: (Date, Account, Account)| DirectiveView::Pad { date: p.0.ymd(), account: p.1@, source: p.2@ })
}

pub open spec fn balance_views(bals: Seq<(Date, Account, Amount)>) -> Seq<DirectiveView> {
    bals.map_values(|b: (Date, Account, Amount)| DirectiveView::Balance { date: b.0.ymd(), account: b.1@, amount: amount_pair(b.2) })
}

pub open spec fn transaction_views(ts: Seq<Transaction>) -> Seq<DirectiveView> {
    ts.map_values(|t: Transaction| DirectiveView::Transaction(t@))
}

fn push_all(out: &mut Vec<Directive>, more: Vec<Directive>)
    ensures
        crate::model::directives_view(final(out)@) == crate::model::directives_view(old(out)@)
            + crate::model::directives_view(more@),
{
    let mut m = more;
    let ghost a = out@;
    let ghost b = m@;
    out.append(&mut m);
    assert(crate::model::directives_view(out@) =~= crate::model::directives_view(a) + crate::model::directives_view(b));
}

/// Every directive of a ledger, in ledger order: commodity declarations,
/// account opens and closes first (by date, then name), then pads, balance
/// assertions and transactions interleaved by date (see [`key_le`]; the
/// sort is stable). Before sorting they come as commodities (dated 1970-01-01),
/// account opens each followed by its close, pads, balance assertions,
/// transactions.
pub fn all_directives(
    commodities: &Vec<CommodityInfo>,
    declarations: &Vec<Declaration>,
    pads: &Vec<(Date, Account, Account)>,
    assertions: &Vec<(Date, Account, Amount)>,
    txns: &Vec<Transaction>,
) -> (r: Vec<Directive>)
    ensures
        crate::model::directives_view(r@) == sort_directives(
            commodity_views(commodities@) + declaration_views(declarations@) + pad_views(pads@) + balance_views(
                assertions@,
            ) + transaction_views(txns@),
        ),
{
    let epoch = Date::from_days_since_epoch(0);
    let mut list: Vec<Directive> = Vec::new();
    let mut part: Vec<Directive> = Vec::new();
    let mut i: usize = 0;
    while i < commodities.len()
        invariant
            i <= commodities.len(),
            epoch.ymd() == civil_of_days(0),
            crate::model::directives_view(part@) == commodity_views(commodities@.take(i as int)),
        decreases commodities.len() - i,
    {
        let ghost before = crate::model::directives_view(part@);
        let info = commodities[i].clone();
        let d = Directive::Commodity { date: epoch, info };
        part.push(d);
        assert(crate::model::directives_view(part@) =~= before.push(d@));
        assert(commodities@.take(i + 1) =~= commodities@.take(i as int).push(commodities@[i as int]));
        assert(commodity_views(commodities@.take(i + 1)) =~= commodity_views(commodities@.take(i as int)).push(d@));
        i += 1;
    }
    assert(commodities@.take(commodities.len() as int) =~= commodities@);
    assert(crate::model::directives_view(list@) =~= Seq::<DirectiveView>::empty());
    push_all(&mut list, part);
    let mut part: Vec<Directive> = Vec::new();
    let mut i: usize = 0;
    assert(declarations@.take(0) =~= Seq::<Declaration>::empty());
    assert(crate::model::directives_view(part@) =~= Seq::<DirectiveView>::empty());
    while i < declarations.len()
        invariant
            i <= declarations.len(),
            crate::model::directives_view(part@) == declaration_views(declarations@.take(i as int)),
        decreases declarations.len() - i,
    {
        let d = &declarations[i];
        assert(declarations@.take(i + 1).drop_last() =~= declarations@.take(i as int));
        let ghost before = crate::model::directives_view(part@);
        part.push(Directive::Open { date: d.1, account: d.0.clone(), currencies: crate::model::clone_strings(&d.3) });
        match d.2 {
            Some(c) => {
                part.push(Directive::Close { date: c, account: d.0.clone() });
            },
            None => {},
        }
        assert(crate::model::directives_view(part@) =~= declaration_views(declarations@.take(i + 1)));
        i += 1;
    }
    assert(declarations@.take(declarations.len() as int) =~= declarations@);
    push_all(&mut list, part);
    let mut part: Vec<Directive> = Vec::new();
    let mut i: usize = 0;
    while i < pads.len()
        invariant
            i <= pads.len(),
            crate::model::directives_view(part@) == pad_views(pads@.take(i as int)),
        decreases pads.len() - i,
    {
        let p = &pads[i];
        let ghost before = crate::model::directives_view(part@);
        let d = Directive::Pad { date: p.0, account: p.1.clone(), source: p.2.clone() };
        part.push(d);
        assert(crate::model::directives_view(part@) =~= before.push(d@));
        assert(pads@.take(i + 1) =~= pads@.take(i as int).push(pads@[i as int]));
        assert(pad_views(pads@.take(i + 1)) =~= pad_views(pads@.take(i as int)).push(d@));
        i += 1;
    }
    assert(pads@.take(pads.len() as int) =~= pads@);
    push_all(&mut list, part);
    let mut part: Vec<Directive> = Vec::new();
    let mut i: usize = 0;
    while i < assertions.len()
        invariant
            i <= assertions.len(),
            crate::model::directives_view(part@) == balance_views(assertions@.take(i as int)),
        decreases assertions.len() - i,
    {
        let b = &assertions[i];
        let ghost before = crate::model::directives_view(part@);
        let d = Directive::Balance { date: b.0, account: b.1.clone(), amount: b.2.clone() };
        part.push(d);
        assert(crate::model::directives_view(part@) =~= before.push(d@));
        assert(assertions@.take(i + 1) =~= assertions@.take(i as int).push(assertions@[i as int]));
        assert(balance_views(assertions@.take(i + 1)) =~= balance_views(assertions@.take(i as int)).push(d@));
        i += 1;
    }
    assert(assertions@.take(assertions.len() as int) =~= assertions@);
    push_all(&mut list, part);
    let mut part: Vec<Directive> = Vec::new();
    let mut i: usize = 0;
    while i < txns.len()
        invariant
            i <= txns.len(),
            crate::model::directives_view(part@) == transaction_views(txns@.take(i as int)),
        decreases txns.len() - i,
    {
        let ghost before = crate::model::directives_view(part@);
        let d = clone_directive_txn(&txns[i]);
        part.push(d);
        assert(crate::model::directives_view(part@) =~= before.push(d@));
        assert(txns@.take(i + 1) =~= txns@.take(i as int).push(txns@[i as int]));
        assert(transaction_views(txns@.take(i + 1)) =~= transaction_views(txns@.take(i as int)).push(d@));
        i += 1;
    }
    assert(txns@.take(txns.len() as int) =~= txns@);
    push_all(&mut list, part);
    sort_by_date_and_rank(&list)
}

fn clone_directive_txn(t: &Transaction) -> (r: Directive)
    ensures
        r@ == DirectiveView::Transaction(t@),
{
    let c = t.clone();
    assert(crate::model::postings_view(c.postings@) =~= crate::model::postings_view(t.postings@));
    Directive::Transaction(c)
}

// -- rendering -------------------------------------------------------------

/// `{:<width}`: `s` followed by spaces up to `width` characters.
pub open spec fn pad_to(s: Seq<char>, width: nat) -> Seq<char> {
    if s.len() < width {
        s + crate::decimal::repeat_char(' ', (width - s.len()) as nat)
    } else {
        s
    }
}

fn pad_to_exec(s: &str, width: usize) -> (r: Vec<char>)
    ensures
        r@ == pad_to(s@, width as nat),
{
    let mut v = chars_of(s);
    let n = v.len();
    if n < width {
        let ghost base = v@;
        let mut k: usize = 0;
        assert(base + crate::decimal::repeat_char(' ', 0) =~= base);
        while k < width - n
            invariant
                k <= width - n,
                n < width,
                v@ == base + crate::decimal::repeat_char(' ', k as nat),
            decreases width - n - k,
        {
            v.push(' ');
            assert(crate::decimal::repeat_char(' ', k as nat).push(' ') =~= crate::decimal::repeat_char(' ', (k + 1) as nat));
            assert(base + crate::decimal::repeat_char(' ', (k + 1) as nat) =~= (base + crate::decimal::repeat_char(' ', k as nat)).push(' '));
            k += 1;
        }
    }
    v
}

/// A posting line of the ledger-cli export.
pub open spec fn ledger_posting_text(p: crate::model::PostingView) -> Seq<char> {
    "    "@ + pad_to(p.account, 40) + match p.amount {
        Some(a) => decimal_text(a.0) + seq![' '] + a.1,
        None => Seq::empty(),
    } + "\n"@
}

pub open spec fn ledger_postings_text(ps: Seq<crate::model::PostingView>) -> Seq<char>
    decreases ps.len(),
{
    if ps.len() == 0 {
        Seq::empty()
    } else {
        ledger_postings_text(ps.drop_last()) + ledger_posting_text(ps.last())
    }
}

/// One directive in ledger-cli's syntax (commodities are left out).
pub open spec fn ledger_text(d: DirectiveView) -> Seq<char> {
    match d {
        DirectiveView::Transaction(t) => ymd_view_text(t.date) + seq![' '] + match t.payee {
            Some(p) => p + " - "@ + t.narration,
            None => t.narration,
        } + "\n"@ + ledger_postings_text(t.postings) + "\n"@,
        DirectiveView::Open { date, account, currencies } => ymd_view_text(date) + " open "@ + account + if currencies.len() > 0 {
            seq![' '] + join(currencies, ","@)
        } else {
            Seq::empty()
        } + "\n"@,
        DirectiveView::Close { date, account } => ymd_view_text(date) + " close "@ + account + "\n"@,
        DirectiveView::Balance { date, account, amount } => ymd_view_text(date) + " balance "@ + account + "  "@
            + pair_text(amount) + "\n"@,
        DirectiveView::Pad { date, account, source } => ymd_view_text(date) + " pad "@ + account + seq![' '] + source
            + "\n"@,
        DirectiveView::Commodity { .. } => Seq::empty(),
    }
}

/// The whole ledger-cli export.
pub open spec fn ledger_export(ds: Seq<DirectiveView>) -> Seq<char>
    decreases ds.len(),
{
    if ds.len() == 0 {
        Seq::empty()
    } else {
        ledger_export(ds.drop_last()) + ledger_text(ds.last())
    }
}

fn ledger_transaction(t: &Transaction, out: &mut Vec<char>)
    ensures
        final(out)@ == old(out)@ + ledger_text(DirectiveView::Transaction(t@)),
{
    let ghost o = out@;
    let dt = t.date.to_chars();
    append_chars(out, &dt);
    out.push(' ');
    match &t.payee {
        Some(p) => {
            append_str(out, p.as_str());
            append_str(out, " - ");
            append_str(out, t.narration.as_str());
        },
        None => {
            append_str(out, t.narration.as_str());
        },
    }
    append_str(out, "\n");
    let ghost h = out@;
    let ghost pv = crate::model::postings_view(t.postings@);
    let mut q: usize = 0;
    assert(pv.take(0) =~= Seq::<crate::model::PostingView>::empty());
    assert(out@ =~= h + ledger_postings_text(pv.take(0)));
    while q < t.postings.len()
        invariant
            q <= t.postings.len(),
            pv == crate::model::postings_view(t.postings@),
            out@ == h + ledger_postings_text(pv.take(q as int)),
        decreases t.postings.len() - q,
    {
        let p = &t.postings[q];
        let ghost before = out@;
        append_str(out, "    ");
        let padded = pad_to_exec(p.account.as_str(), 40);
        append_chars(out, &padded);
        match &p.amount {
            Some(a) => {
                let n = a.number.to_string();
                append_str(out, n.as_str());
                out.push(' ');
                append_str(out, a.commodity.as_str());
            },
            None => {},
        }
        append_str(out, "\n");
        assert(out@ =~= before + ledger_posting_text(p@));
        assert(pv.take(q + 1).drop_last() =~= pv.take(q as int));
        q += 1;
    }
    assert(pv.take(t.postings.len() as int) =~= pv);
    append_str(out, "\n");
    assert(out@ =~= o + ledger_text(DirectiveView::Transaction(t@)));
}

fn ledger_one(d: &Directive, out: &mut Vec<char>)
    ensures
        final(out)@ == old(out)@ + ledger_text(d@),
{
    let ghost o = out@;
    match d {
        Directive::Transaction(t) => {
            ledger_transaction(t, out);
        },
        Directive::Open { date, account, currencies } => {
            let dt = date.to_chars();
            append_chars(out, &dt);
            append_str(out, " open ");
            append_str(out, account.as_str());
            if currencies.len() > 0 {
                out.push(' ');
                let mut pieces: Vec<Vec<char>> = Vec::new();
                let mut i: usize = 0;
                while i < currencies.len()
                    invariant
                        i <= currencies.len(),
                        pieces@.len() == i,
                        forall|k: int| 0 <= k < i ==> (#[trigger] pieces@[k])@ == currencies@[k]@,
                    decreases currencies.len() - i,
                {
                    pieces.push(chars_of(currencies[i].as_str()));
                    i += 1;
                }
                assert(crate::text::pieces_view(pieces@) =~= strings_view(currencies@));
                let joined = crate::text::join_chars(&pieces, ",");
                append_chars(out, &joined);
            }
            append_str(out, "\n");
        },
        Directive::Close { date, account } => {
            let dt = date.to_chars();
            append_chars(out, &dt);
            append_str(out, " close ");
            append_str(out, account.as_str());
            append_str(out, "\n");
        },
        Directive::Balance { date, account, amount } => {
            let dt = date.to_chars();
            append_chars(out, &dt);
            append_str(out, " balance ");
            append_str(out, account.as_str());
            append_str(out, "  ");
            let a = amount.to_chars();
            append_chars(out, &a);
            append_str(out, "\n");
        },
        Directive::Pad { date, account, source } => {
            let dt = date.to_chars();
            append_chars(out, &dt);
            append_str(out, " pad ");
            append_str(out, account.as_str());
            out.push(' ');
            append_str(out, source.as_str());
            append_str(out, "\n");
        },
        Directive::Commodity { .. } => {},
    }
    assert(out@ =~= o + ledger_text(d@));
}

/// ledger-cli's own (similar, but not identical) text syntax.
pub fn render_ledger(directives: &Vec<Directive>) -> (r: String)
    ensures
        r@ == ledger_export(crate::model::directives_view(directives@)),
{
    let ghost dv = crate::model::directives_view(directives@);
    let mut out: Vec<char> = Vec::new();
    let mut i: usize = 0;
    assert(dv.take(0) =~= Seq::<DirectiveView>::empty());
    while i < directives.len()
        invariant
            i <= directives.len(),
            dv == crate::model::directives_view(directives@),
            out@ == ledger_export(dv.take(i as int)),
        decreases directives.len() - i,
    {
        ledger_one(&directives[i], &mut out);
        assert(dv.take(i + 1).drop_last() =~= dv.take(i as int));
        assert(dv.take(i + 1).last() == directives@[i as int]@);
        i += 1;
    }
    assert(dv.take(directives.len() as int) =~= dv);
    string_of(&out)
}

/// `"` doubled.
pub open spec fn double_quotes(s: Seq<char>) -> Seq<char>
    decreases s.len(),
{
    if s.len() == 0 {
        Seq::empty()
    } else if s.last() == '"' {
        double_quotes(s.drop_last()) + seq!['"', '"']
    } else {
        double_quotes(s.drop_last()).push(s.last())
    }
}

/// A CSV field: quoted (with `"` doubled) when it holds a comma, a quote or
/// a line feed; as is otherwise.
#[verifier::opaque]
pub open spec fn csv_field(s: Seq<char>) -> Seq<char> {
    if s.contains(',') || s.contains('"') || s.contains('\n') {
        seq!['"'] + double_quotes(s) + seq!['"']
    } else {
        s
    }
}

/// Quotes a CSV field when it needs it.
pub fn csv_escape(s: &str) -> (r: String)
    ensures
        r@ == csv_field(s@),
{
    reveal(csv_field);
    let v = chars_of(s);
    let mut needs = false;
    let mut i: usize = 0;
    while i < v.len()
        invariant
            i <= v.len(),
            needs == exists|k: int| 0 <= k < i && (v@[k] == ',' || v@[k] == '"' || v@[k] == '\n'),
        decreases v.len() - i,
    {
        if v[i] == ',' || v[i] == '"' || v[i] == '\n' {
            needs = true;
        }
        i += 1;
    }
    proof {
        if needs {
            let k = choose|k: int| 0 <= k < v@.len() && (v@[k] == ',' || v@[k] == '"' || v@[k] == '\n');
            if v@[k] == ',' {
                assert(v@.contains(','));
            } else if v@[k] == '"' {
                assert(v@.contains('"'));
            } else {
                assert(v@.contains('\n'));
            }
        }
    }
    if !needs {
        return String::from_str(s);
    }
    let mut out: Vec<char> = Vec::new();
    out.push('"');
    let mut j: usize = 0;
    assert(v@.take(0) =~= Seq::<char>::empty());
    assert(out@ =~= seq!['"'] + double_quotes(v@.take(0)));
    while j < v.len()
        invariant
            j <= v.len(),
            out@ == seq!['"'] + double_quotes(v@.take(j as int)),
        decreases v.len() - j,
    {
        assert(v@.take(j + 1).drop_last() =~= v@.take(j as int));
        assert(v@.take(j + 1).last() == v@[j as int]);
        if v[j] == '"' {
            out.push('"');
            out.push('"');
        } else {
            out.push(v[j]);
        }
        assert(out@ =~= seq!['"'] + double_quotes(v@.take(j + 1)));
        j += 1;
    }
    assert(v@.take(v.len() as int) =~= v@);
    out.push('"');
    string_of(&out)
}

/// The header line of the CSV export.
pub open spec fn csv_header() -> Seq<char> {
    "date,flag,payee,narration,account,amount,commodity\n"@
}

/// The transaction's columns of a CSV row: date, flag, payee, narration.
pub open spec fn csv_head(t: TransactionView) -> Seq<char> {
    ymd_view_text(t.date) + seq![',', crate::model::flag_char(t.flag), ','] + csv_field(
        match t.payee {
            Some(x) => x,
            None => Seq::empty(),
        },
    ) + seq![','] + csv_field(t.narration) + seq![',']
}

/// The posting's columns of a CSV row: account, amount, commodity.
pub open spec fn csv_tail(p: crate::model::PostingView) -> Seq<char> {
    p.account + seq![','] + match p.amount {
        Some(a) => decimal_text(a.0),
        None => Seq::empty(),
    } + seq![','] + match p.amount {
        Some(a) => a.1,
        None => Seq::empty(),
    } + "\n"@
}

/// One CSV row per posting.
pub open spec fn csv_row(t: TransactionView, p: crate::model::PostingView) -> Seq<char> {
    csv_head(t) + csv_tail(p)
}

pub open spec fn csv_rows(t: TransactionView, ps: Seq<crate::model::PostingView>) -> Seq<char>
    decreases ps.len(),
{
    if ps.len() == 0 {
        Seq::empty()
    } else {
        csv_rows(t, ps.drop_last()) + csv_row(t, ps.last())
    }
}

/// The CSV rows of all transactions.
pub open spec fn csv_body(ds: Seq<DirectiveView>) -> Seq<char>
    decreases ds.len(),
{
    if ds.len() == 0 {
        Seq::empty()
    } else {
        csv_body(ds.drop_last()) + match ds.last() {
            DirectiveView::Transaction(t) => csv_rows(t, t.postings),
            _ => Seq::empty(),
        }
    }
}

fn csv_head_exec(t: &Transaction, out: &mut Vec<char>)
    ensures
        final(out)@ == old(out)@ + csv_head(t@),
{
    let ghost o = out@;
    let dt = t.date.to_chars();
    append_chars(out, &dt);
    out.push(',');
    out.push(t.flag.as_char());
    out.push(',');
    let ghost h1 = out@;
    let ghost pv = match t@.payee {
        Some(x) => x,
        None => Seq::<char>::empty(),
    };
    let payee = match &t.payee {
        Some(x) => csv_escape(x.as_str()),
        None => {
            let e: Vec<char> = Vec::new();
            let es = string_of(&e);
            csv_escape(es.as_str())
        },
    };
    assert(payee@ == csv_field(pv));
    append_str(out, payee.as_str());
    out.push(',');
    let n = csv_escape(t.narration.as_str());
    append_str(out, n.as_str());
    out.push(',');
    assert(h1 =~= o + (ymd_view_text(t@.date) + seq![',', crate::model::flag_char(t@.flag), ',']));
    assert(out@ =~= h1 + (csv_field(pv) + seq![','] + csv_field(t@.narration) + seq![',']));
    assert(out@ =~= o + csv_head(t@));
}

fn csv_tail_exec(p: &crate::model::Posting, out: &mut Vec<char>)
    ensures
        final(out)@ == old(out)@ + csv_tail(p@),
{
    let ghost o = out@;
    append_str(out, p.account.as_str());
    out.push(',');
    match &p.amount {
        Some(a) => {
            let s = a.number.to_string();
            append_str(out, s.as_str());
        },
        None => {},
    }
    out.push(',');
    match &p.amount {
        Some(a) => {
            append_str(out, a.commodity.as_str());
        },
        None => {},
    }
    append_str(out, "\n");
    assert(out@ =~= o + csv_tail(p@));
}

fn csv_one_row(t: &Transaction, p: &crate::model::Posting, out: &mut Vec<char>)
    ensures
        final(out)@ == old(out)@ + csv_row(t@, p@),
{
    let ghost o = out@;
    csv_head_exec(t, out);
    csv_tail_exec(p, out);
    assert(out@ =~= o + csv_row(t@, p@));
}

/// One row per posting: `date,flag,payee,narration,account,amount,commodity`.
pub fn render_csv(directives: &Vec<Directive>) -> (r: String)
    ensures
        r@ == csv_header() + csv_body(crate::model::directives_view(directives@)),
{
    let ghost dv = crate::model::directives_view(directives@);
    let mut out = chars_of("date,flag,payee,narration,account,amount,commodity\n");
    let mut i: usize = 0;
    assert(dv.take(0) =~= Seq::<DirectiveView>::empty());
    assert(out@ =~= csv_header() + csv_body(dv.take(0)));
    while i < directives.len()
        invariant
            i <= directives.len(),
            dv == crate::model::directives_view(directives@),
            out@ == csv_header() + csv_body(dv.take(i as int)),
        decreases directives.len() - i,
    {
        let ghost before = out@;
        match &directives[i] {
            Directive::Transaction(t) => {
                let ghost pv = crate::model::postings_view(t.postings@);
                let mut q: usize = 0;
                assert(pv.take(0) =~= Seq::<crate::model::PostingView>::empty());
                assert(out@ =~= before + csv_rows(t@, pv.take(0)));
                while q < t.postings.len()
                    invariant
                        q <= t.postings.len(),
                        pv == crate::model::postings_view(t.postings@),
                        out@ == before + csv_rows(t@, pv.take(q as int)),
                    decreases t.postings.len() - q,
                {
                    csv_one_row(t, &t.postings[q], &mut out);
                    assert(pv.take(q + 1).drop_last() =~= pv.take(q as int));
                    q += 1;
                }
                assert(pv.take(t.postings.len() as int) =~= pv);
            },
            _ => {},
        }
        assert(dv.take(i + 1).drop_last() =~= dv.take(i as int));
        assert(dv.take(i + 1).last() == directives@[i as int]@);
        assert(out@ =~= csv_header() + csv_body(dv.take(i + 1)));
        i += 1;
    }
    assert(dv.take(directives.len() as int) =~= dv);
    string_of(&out)
}

/// The directives in the chosen format.
pub fn render(directives: &Vec<Directive>, format: ExportFormat) -> (r: String)
    ensures
        format == ExportFormat::Beancount ==> r@ == crate::parser::serialize_text(crate::model::directives_view(directives@)),
        format == ExportFormat::Ledger ==> r@ == ledger_export(crate::model::directives_view(directives@)),
        format == ExportFormat::Csv ==> r@ == csv_header() + csv_body(crate::model::directives_view(directives@)),
{
    match format {
        ExportFormat::Beancount => crate::parser::serialize(directives),
        ExportFormat::Ledger => render_ledger(directives),
        ExportFormat::Csv => render_csv(directives),
    }
}


} // verus!
