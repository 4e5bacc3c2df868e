//! Read-only reports: `balance`, `register`, `networth` and `check`.
//! Pure functions over rows and transactions already loaded from the
//! store — no I/O, no rendering.

use vstd::prelude::*;

use crate::date::Date;
use crate::decimal::{Decimal, DecimalValue};
use crate::model::{
    account_matches, amount_pair, nonzero_entries, nonzero_totals, prefix_chars, prefix_text,
    total_amounts, total_amounts_exec, Account, Amount, Flag,
};
use crate::text::{chars_of, starts_with};
use crate::totals::{totals_add, totals_add_exec, totals_add_fits, totals_fits_exec, totals_view};

verus! {

// -- balance -----------------------------------------------------------

/// One account's non-zero balances, by commodity.
#[derive(Debug)]
pub struct AccountBalance {
    pub account: String,
    pub balances: Vec<Amount>,
}

/// What `balance` reports on: which accounts (a pattern), at what depth,
/// and (for the query that loads the rows) which dates and flags.
#[derive(Debug)]
pub struct BalanceOptions {
    pub account_pattern: Option<String>,
    pub depth: Option<usize>,
    pub since: Option<Date>,
    pub until: Option<Date>,
    pub cleared_only: bool,
}

impl Default for BalanceOptions {
    fn default() -> (r: Self)
        ensures
            r.account_pattern is None,
            r.depth is None,
            r.since is None,
            r.until is None,
            !r.cleared_only,
    {
        BalanceOptions { account_pattern: None, depth: None, since: None, until: None, cleared_only: false }
    }
}

/// [`account_matches`] after dropping one trailing `:` from the pattern.
pub open spec fn account_str_matches_spec(account: Seq<char>, pattern: Seq<char>) -> bool {
    let p = if pattern.len() > 0 && pattern.last() == ':' { pattern.drop_last() } else { pattern };
    account_matches(account, p)
}

/// Whether `account` is `pattern` or under it (one trailing `:` on the
/// pattern is ignored; an empty pattern matches everything).
pub fn account_str_matches(account: &str, pattern: &str) -> (r: bool)
    ensures
        r == account_str_matches_spec(account@, pattern@),
{
    let a = chars_of(account);
    let p0 = chars_of(pattern);
    let p = if p0.len() > 0 && p0[p0.len() - 1] == ':' {
        let q = crate::text::slice_chars(&p0, 0, p0.len() - 1);
        assert(q@ =~= p0@.drop_last());
        q
    } else {
        p0
    };
    crate::model::matches_chars(&a, &p)
}

/// The first `depth` segments of an account name.
pub fn account_str_prefix(account: &str, depth: usize) -> (r: String)
    ensures
        r@ == prefix_text(account@, depth as nat),
{
    let a = chars_of(account);
    let p = prefix_chars(&a, depth);
    crate::text::string_of(&p)
}

/// A row's grouping key: its account (truncated to `depth` segments), or
/// `None` when the pattern leaves it out.
pub open spec fn row_key(account: Seq<char>, pattern: Option<Seq<char>>, depth: Option<usize>) -> Option<Seq<char>> {
    if pattern matches Some(p) && !account_str_matches_spec(account, p) {
        None
    } else {
        Some(
            match depth {
                Some(d) => prefix_text(account, d as nat),
                None => account,
            },
        )
    }
}

/// Per-account totals, in account order.
pub type GroupsView = Seq<(Seq<char>, Seq<(Seq<char>, DecimalValue)>)>;

/// The totals of account `key` (none yet when absent).
pub open spec fn group_get(g: GroupsView, key: Seq<char>) -> Seq<(Seq<char>, DecimalValue)>
    decreases g.len(),
{
    if g.len() == 0 {
        Seq::empty()
    } else if g[0].0 == key {
        g[0].1
    } else {
        group_get(g.drop_first(), key)
    }
}

/// Adds `v` in commodity `c` to account `key`, creating it in account
/// order if absent.
pub open spec fn groups_add(g: GroupsView, key: Seq<char>, c: Seq<char>, v: DecimalValue) -> GroupsView
    decreases g.len(),
{
    if g.len() == 0 {
        seq![(key, totals_add(Seq::empty(), c, v))]
    } else if g[0].0 == key {
        seq![(key, totals_add(g[0].1, c, v))] + g.drop_first()
    } else if crate::text::seq_less(key, g[0].0) {
        seq![(key, totals_add(Seq::empty(), c, v))] + g
    } else {
        seq![g[0]] + groups_add(g.drop_first(), key, c, v)
    }
}

/// One row as plain values: (account, number, commodity).
pub open spec fn row_view(r: (String, Decimal, String)) -> (Seq<char>, DecimalValue, Seq<char>) {
    (r.0@, r.1@, r.2@)
}

/// The per-account totals of the rows the options keep.
pub open spec fn balance_groups(
    rows: Seq<(Seq<char>, DecimalValue, Seq<char>)>,
    pattern: Option<Seq<char>>,
    depth: Option<usize>,
) -> GroupsView
    decreases rows.len(),
{
    if rows.len() == 0 {
        Seq::empty()
    } else {
        let prev = balance_groups(rows.drop_last(), pattern, depth);
        let r = rows.last();
        match row_key(r.0, pattern, depth) {
            Some(key) => groups_add(prev, key, r.2, r.1),
            None => prev,
        }
    }
}

/// Adding each kept row does not overflow its account's total.
pub open spec fn balance_fits(
    rows: Seq<(Seq<char>, DecimalValue, Seq<char>)>,
    pattern: Option<Seq<char>>,
    depth: Option<usize>,
) -> bool {
    forall|k: int|
        0 <= k < rows.len() ==> match #[trigger] row_key(rows[k].0, pattern, depth) {
            Some(key) => totals_add_fits(group_get(balance_groups(rows.take(k), pattern, depth), key), rows[k].2, rows[k].1),
            None => true,
        }
}

/// The report: each account, in order, with its non-zero totals as
/// amounts; accounts whose totals are all zero are left out.
pub open spec fn balance_report(g: GroupsView) -> Seq<(Seq<char>, Seq<(DecimalValue, Seq<char>)>)>
    decreases g.len(),
{
    if g.len() == 0 {
        Seq::empty()
    } else {
        let prev = balance_report(g.drop_last());
        let nz = nonzero_totals(g.last().1);
        if nz.len() > 0 {
            prev.push((g.last().0, total_amounts(nz)))
        } else {
            prev
        }
    }
}

/// An account balance as plain values.
pub open spec fn account_balance_view(b: AccountBalance) -> (Seq<char>, Seq<(DecimalValue, Seq<char>)>) {
    (b.account@, b.balances@.map_values(|a: Amount| amount_pair(a)))
}

/// The totals as plain values.
pub open spec fn groups_view(g: Seq<(String, Vec<(String, Decimal)>)>) -> GroupsView {
    g.map_values(|e: (String, Vec<(String, Decimal)>)| (e.0@, totals_view(e.1@)))
}

pub open spec fn option_view(o: Option<String>) -> Option<Seq<char>> {
    match o {
        Some(s) => Some(s@),
        None => None,
    }
}

fn clone_totals(t: &Vec<(String, Decimal)>) -> (r: Vec<(String, Decimal)>)
    ensures
        totals_view(r@) == totals_view(t@),
{
    let mut out: Vec<(String, Decimal)> = Vec::new();
    let mut i: usize = 0;
    while i < t.len()
        invariant
            i <= t.len(),
            out@.len() == i,
            forall|k: int| 0 <= k < i ==> (#[trigger] out@[k]).0@ == t@[k].0@ && out@[k].1@ == t@[k].1@,
        decreases t.len() - i,
    {
        out.push((t[i].0.clone(), t[i].1));
        i += 1;
    }
    assert(totals_view(out@) =~= totals_view(t@));
    out
}

/// Adds `v` in commodity `c` to account `key`.
fn groups_add_exec(groups: &mut Vec<(String, Vec<(String, Decimal)>)>, key: &String, c: &String, v: &Decimal)
    requires
        totals_add_fits(group_get(groups_view(old(groups)@), key@), c@, v@),
    ensures
        groups_view(final(groups)@) == groups_add(groups_view(old(groups)@), key@, c@, v@),
{
    let ghost g0 = groups_view(groups@);
    let kv = chars_of(key.as_str());
    let mut i: usize = 0;
    assert(g0.skip(0) =~= g0);
    assert(g0.take(0) + groups_add(g0, key@, c@, v@) =~= groups_add(g0, key@, c@, v@));
    while i < groups.len()
        invariant
            i <= groups.len(),
            g0 == groups_view(groups@),
            g0 == groups_view(old(groups)@),
            totals_add_fits(group_get(g0, key@), c@, v@),
            kv@ == key@,
            groups_add(g0, key@, c@, v@) == g0.take(i as int) + groups_add(g0.skip(i as int), key@, c@, v@),
            group_get(g0, key@) == group_get(g0.skip(i as int), key@),
        decreases groups.len() - i,
    {
        let gk = chars_of(groups[i].0.as_str());
        assert(g0.skip(i as int)[0] == g0[i as int]);
        assert(g0.skip(i as int).drop_first() =~= g0.skip(i + 1));
        if crate::text::chars_eq(&gk, &kv) {
            let mut t = clone_totals(&groups[i].1);
            totals_add_exec(&mut t, c, v);
            groups.set(i, (key.clone(), t));
            assert(groups_view(groups@) =~= g0.take(i as int) + groups_add(g0.skip(i as int), key@, c@, v@));
            return;
        }
        if crate::text::chars_less(&kv, &gk) {
            let mut t: Vec<(String, Decimal)> = Vec::new();
            assert(totals_view(t@) =~= Seq::<(Seq<char>, DecimalValue)>::empty());
            totals_add_exec(&mut t, c, v);
            groups.insert(i, (key.clone(), t));
            assert(groups_view(groups@) =~= g0.take(i as int) + groups_add(g0.skip(i as int), key@, c@, v@));
            return;
        }
        assert(g0.take(i + 1) =~= g0.take(i as int).push(g0[i as int]));
        assert(groups_add(g0.skip(i as int), key@, c@, v@) == seq![g0[i as int]] + groups_add(g0.skip(i + 1), key@, c@, v@));
        assert(g0.take(i as int) + groups_add(g0.skip(i as int), key@, c@, v@) =~= g0.take(i + 1) + groups_add(g0.skip(i + 1), key@, c@, v@));
        i += 1;
    }
    assert(g0.skip(i as int).len() == 0);
    let mut t: Vec<(String, Decimal)> = Vec::new();
    assert(totals_view(t@) =~= Seq::<(Seq<char>, DecimalValue)>::empty());
    totals_add_exec(&mut t, c, v);
    groups.push((key.clone(), t));
    assert(g0.take(i as int) =~= g0);
    assert(groups_view(groups@) =~= g0.take(i as int) + groups_add(g0.skip(i as int), key@, c@, v@));
}

fn group_rows(rows: &Vec<(String, Decimal, String)>, opts: &BalanceOptions) -> (r: Vec<(String, Vec<(String, Decimal)>)>)
    requires
        balance_fits(rows@.map_values(|r: (String, Decimal, String)| row_view(r)), option_view(opts.account_pattern), opts.depth),
    ensures
        groups_view(r@) == balance_groups(rows@.map_values(|r: (String, Decimal, String)| row_view(r)), option_view(opts.account_pattern), opts.depth),
{
    let ghost rv = rows@.map_values(|r: (String, Decimal, String)| row_view(r));
    let ghost pat = option_view(opts.account_pattern);
    let mut groups: Vec<(String, Vec<(String, Decimal)>)> = Vec::new();
    let mut i: usize = 0;
    assert(rv.take(0) =~= Seq::<(Seq<char>, DecimalValue, Seq<char>)>::empty());
    assert(groups_view(groups@) =~= Seq::<(Seq<char>, Seq<(Seq<char>, DecimalValue)>)>::empty());
    while i < rows.len()
        invariant
            i <= rows.len(),
            rv == rows@.map_values(|r: (String, Decimal, String)| row_view(r)),
            pat == option_view(opts.account_pattern),
            balance_fits(rv, pat, opts.depth),
            groups_view(groups@) == balance_groups(rv.take(i as int), pat, opts.depth),
        decreases rows.len() - i,
    {
        let (account, number, commodity) = &rows[i];
        assert(rv[i as int] == row_view(rows@[i as int]));
        assert(rv.take(i + 1).drop_last() =~= rv.take(i as int));
        assert(rv.take(i + 1).last() == rv[i as int]);
        let keep = match &opts.account_pattern {
            Some(p) => account_str_matches(account.as_str(), p.as_str()),
            None => true,
        };
        if keep {
            let key = match opts.depth {
                Some(d) => account_str_prefix(account.as_str(), d),
                None => account.clone(),
            };
            assert(row_key(rv[i as int].0, pat, opts.depth) == Some(key@));
            groups_add_exec(&mut groups, &key, commodity, number);
        }
        i += 1;
    }
    assert(rv.take(rows.len() as int) =~= rv);
    groups
}

/// Where account `key`'s totals are, if it has any yet.
fn group_find(groups: &Vec<(String, Vec<(String, Decimal)>)>, key: &String) -> (r: Option<usize>)
    ensures
        r matches Some(j) ==> j < groups@.len() && group_get(groups_view(groups@), key@) == totals_view(
            groups@[j as int].1@,
        ),
        r is None ==> group_get(groups_view(groups@), key@) == Seq::<(Seq<char>, DecimalValue)>::empty(),
{
    let ghost g0 = groups_view(groups@);
    let kv = chars_of(key.as_str());
    let mut i: usize = 0;
    assert(g0.skip(0) =~= g0);
    while i < groups.len()
        invariant
            i <= groups.len(),
            g0 == groups_view(groups@),
            kv@ == key@,
            group_get(g0, key@) == group_get(g0.skip(i as int), key@),
        decreases groups.len() - i,
    {
        let gk = chars_of(groups[i].0.as_str());
        assert(g0.skip(i as int)[0] == g0[i as int]);
        assert(g0.skip(i as int).drop_first() =~= g0.skip(i + 1));
        if crate::text::chars_eq(&gk, &kv) {
            return Some(i);
        }
        i += 1;
    }
    assert(g0.skip(i as int).len() == 0);
    None
}

/// Whether every kept row's total stays in range (the condition
/// [`balance`] needs).
#[verifier::spinoff_prover]
#[verifier::rlimit(40)]
pub fn balance_in_range(rows: &Vec<(String, Decimal, String)>, opts: &BalanceOptions) -> (r: bool)
    ensures
        r == balance_fits(rows@.map_values(|r: (String, Decimal, String)| row_view(r)), option_view(opts.account_pattern), opts.depth),
{
    let ghost rv = rows@.map_values(|r: (String, Decimal, String)| row_view(r));
    let ghost pat = option_view(opts.account_pattern);
    let mut groups: Vec<(String, Vec<(String, Decimal)>)> = Vec::new();
    let mut i: usize = 0;
    assert(rv.take(0) =~= Seq::<(Seq<char>, DecimalValue, Seq<char>)>::empty());
    assert(groups_view(groups@) =~= Seq::<(Seq<char>, Seq<(Seq<char>, DecimalValue)>)>::empty());
    while i < rows.len()
        invariant
            i <= rows.len(),
            rv == rows@.map_values(|r: (String, Decimal, String)| row_view(r)),
            pat == option_view(opts.account_pattern),
            groups_view(groups@) == balance_groups(rv.take(i as int), pat, opts.depth),
            forall|k: int|
                0 <= k < i ==> match #[trigger] row_key(rv[k].0, pat, opts.depth) {
                    Some(key) => totals_add_fits(group_get(balance_groups(rv.take(k), pat, opts.depth), key), rv[k].2, rv[k].1),
                    None => true,
                },
        decreases rows.len() - i,
    {
        let (account, number, commodity) = &rows[i];
        assert(rv[i as int] == row_view(rows@[i as int]));
        assert(rv.take(i + 1).drop_last() =~= rv.take(i as int));
        assert(rv.take(i + 1).last() == rv[i as int]);
        let keep = match &opts.account_pattern {
            Some(p) => account_str_matches(account.as_str(), p.as_str()),
            None => true,
        };
        if keep {
            let key = match opts.depth {
                Some(d) => account_str_prefix(account.as_str(), d),
                None => account.clone(),
            };
            assert(row_key(rv[i as int].0, pat, opts.depth) == Some(key@));
            let fits = match group_find(&groups, &key) {
                Some(j) => totals_fits_exec(&groups[j].1, commodity, number),
                None => {
                    let empty: Vec<(String, Decimal)> = Vec::new();
                    assert(totals_view(empty@) =~= Seq::<(Seq<char>, DecimalValue)>::empty());
                    totals_fits_exec(&empty, commodity, number)
                },
            };
            if !fits {
                return false;
            }
            groups_add_exec(&mut groups, &key, commodity, number);
        } else {
            assert(row_key(rv[i as int].0, pat, opts.depth) is None);
        }
        i += 1;
    }
    assert(rv.take(rows.len() as int) =~= rv);
    true
}

fn report_of(groups: &Vec<(String, Vec<(String, Decimal)>)>) -> (r: Vec<AccountBalance>)
    ensures
        r@.map_values(|b: AccountBalance| account_balance_view(b)) == balance_report(groups_view(groups@)),
{
    let ghost gv = groups_view(groups@);
    let mut out: Vec<AccountBalance> = Vec::new();
    let mut k: usize = 0;
    assert(gv.take(0) =~= Seq::<(Seq<char>, Seq<(Seq<char>, DecimalValue)>)>::empty());
    assert(out@.map_values(|b: AccountBalance| account_balance_view(b)) =~= Seq::<(Seq<char>, Seq<(DecimalValue, Seq<char>)>)>::empty());
    while k < groups.len()
        invariant
            k <= groups.len(),
            gv == groups_view(groups@),
            out@.map_values(|b: AccountBalance| account_balance_view(b)) == balance_report(gv.take(k as int)),
        decreases groups.len() - k,
    {
        assert(gv.take(k + 1).drop_last() =~= gv.take(k as int));
        assert(gv.take(k + 1).last() == gv[k as int]);
        let nz = nonzero_entries(&groups[k].1);
        if nz.len() > 0 {
            let amounts = total_amounts_exec(&nz);
            let ghost before = out@.map_values(|b: AccountBalance| account_balance_view(b));
            out.push(AccountBalance { account: groups[k].0.clone(), balances: amounts });
            assert(out@.map_values(|b: AccountBalance| account_balance_view(b)) =~= before.push(
                (gv[k as int].0, total_amounts(nonzero_totals(gv[k as int].1))),
            ));
        }
        k += 1;
    }
    assert(gv.take(groups.len() as int) =~= gv);
    out
}

/// The balance report over (account, number, commodity) rows: per account
/// (truncated to `depth` segments when given, and only those the pattern
/// matches), each commodity's non-zero total, accounts and commodities in
/// order. The dates and flags of `opts` are for the query that loads the
/// rows.
pub fn balance(rows: &Vec<(String, Decimal, String)>, opts: &BalanceOptions) -> (r: Vec<AccountBalance>)
    requires
        balance_fits(rows@.map_values(|r: (String, Decimal, String)| row_view(r)), option_view(opts.account_pattern), opts.depth),
    ensures
        r@.map_values(|b: AccountBalance| account_balance_view(b)) == balance_report(
            balance_groups(rows@.map_values(|r: (String, Decimal, String)| row_view(r)), option_view(opts.account_pattern), opts.depth),
        ),
{
    let groups = group_rows(rows, opts);
    report_of(&groups)
}

// -- register ------------------------------------------------------------

/// One posting of the register, with the running balance after it.
#[derive(Debug)]
pub struct RegisterEntry {
    pub transaction_id: i64,
    pub date: Date,
    pub flag: Flag,
    pub payee: Option<String>,
    pub narration: String,
    pub account: String,
    pub amount: Amount,
    pub running_balance: Vec<Amount>,
}

/// A register row as loaded: transaction id, date, flag, payee, narration,
/// account, number, commodity.
pub type RegisterRow = (i64, Date, Flag, Option<String>, String, String, Decimal, String);

/// The (commodity, number) of each row.
pub open spec fn register_pairs(rows: Seq<RegisterRow>) -> Seq<(Seq<char>, DecimalValue)> {
    rows.map_values(|r: RegisterRow| (r.7@, r.6@))
}

/// The running per-commodity totals after the given amounts.
pub open spec fn running_totals(pairs: Seq<(Seq<char>, DecimalValue)>) -> Seq<(Seq<char>, DecimalValue)>
    decreases pairs.len(),
{
    if pairs.len() == 0 {
        Seq::empty()
    } else {
        totals_add(running_totals(pairs.drop_last()), pairs.last().0, pairs.last().1)
    }
}

/// Each running total stays in range.
pub open spec fn running_fits(pairs: Seq<(Seq<char>, DecimalValue)>) -> bool {
    forall|k: int|
        0 <= k < pairs.len() ==> totals_add_fits(running_totals(#[trigger] pairs.take(k)), pairs[k].0, pairs[k].1)
}

/// The register entry for row `k`: the row's fields, its amount, and the
/// running balance in every commodity seen so far (zeros included).
pub open spec fn register_entry_is(e: RegisterEntry, rows: Seq<RegisterRow>, k: int) -> bool {
    let r = rows[k];
    &&& e.transaction_id == r.0
    &&& e.date == r.1
    &&& e.flag == r.2
    &&& option_view(e.payee) == option_view(r.3)
    &&& e.narration@ == r.4@
    &&& e.account@ == r.5@
    &&& amount_pair(e.amount) == (r.6@, r.7@)
    &&& e.running_balance@.map_values(|a: Amount| amount_pair(a)) == total_amounts(
        running_totals(register_pairs(rows).take(k + 1)),
    )
}

fn clone_opt(o: &Option<String>) -> (r: Option<String>)
    ensures
        option_view(r) == option_view(*o),
{
    match o {
        Some(s) => Some(s.clone()),
        None => None,
    }
}

/// The register over rows already matched and ordered by the query: each
/// row's posting with the running balance after it.
pub fn register(rows: &Vec<RegisterRow>) -> (r: Vec<RegisterEntry>)
    requires
        running_fits(register_pairs(rows@)),
    ensures
        r@.len() == rows@.len(),
        forall|k: int| 0 <= k < rows@.len() ==> register_entry_is(#[trigger] r@[k], rows@, k),
{
    let ghost pv = register_pairs(rows@);
    let mut running: Vec<(String, Decimal)> = Vec::new();
    let mut entries: Vec<RegisterEntry> = Vec::new();
    let mut i: usize = 0;
    assert(pv.take(0) =~= Seq::<(Seq<char>, DecimalValue)>::empty());
    assert(totals_view(running@) =~= Seq::<(Seq<char>, DecimalValue)>::empty());
    while i < rows.len()
        invariant
            i <= rows.len(),
            pv == register_pairs(rows@),
            running_fits(pv),
            totals_view(running@) == running_totals(pv.take(i as int)),
            entries@.len() == i,
            forall|k: int| 0 <= k < i ==> register_entry_is(#[trigger] entries@[k], rows@, k),
        decreases rows.len() - i,
    {
        let row = &rows[i];
        assert(pv[i as int] == (row.7@, row.6@));
        assert(pv.take(i + 1).drop_last() =~= pv.take(i as int));
        assert(pv.take(i + 1).last() == pv[i as int]);
        totals_add_exec(&mut running, &row.7, &row.6);
        let running_balance = total_amounts_exec(&running);
        entries.push(
            RegisterEntry {
                transaction_id: row.0,
                date: row.1,
                flag: row.2,
                payee: clone_opt(&row.3),
                narration: row.4.clone(),
                account: row.5.clone(),
                amount: Amount::new(row.6, row.7.clone()),
                running_balance,
            },
        );
        i += 1;
    }
    entries
}


/// Whether the running totals over `pairs` stay in range
/// ([`running_fits`]).
fn running_in_range(pairs: &Vec<(String, Decimal)>) -> (r: bool)
    ensures
        r == running_fits(totals_view(pairs@)),
{
    let ghost pv = totals_view(pairs@);
    let mut running: Vec<(String, Decimal)> = Vec::new();
    let mut i: usize = 0;
    assert(pv.take(0) =~= Seq::<(Seq<char>, DecimalValue)>::empty());
    assert(totals_view(running@) =~= Seq::<(Seq<char>, DecimalValue)>::empty());
    while i < pairs.len()
        invariant
            i <= pairs.len(),
            pv == totals_view(pairs@),
            totals_view(running@) == running_totals(pv.take(i as int)),
            forall|k: int| 0 <= k < i ==> totals_add_fits(running_totals(#[trigger] pv.take(k)), pv[k].0, pv[k].1),
        decreases pairs.len() - i,
    {
        assert(pv[i as int] == (pairs@[i as int].0@, pairs@[i as int].1@));
        assert(pv.take(i + 1).drop_last() =~= pv.take(i as int));
        assert(pv.take(i + 1).last() == pv[i as int]);
        if !totals_fits_exec(&running, &pairs[i].0, &pairs[i].1) {
            return false;
        }
        totals_add_exec(&mut running, &pairs[i].0, &pairs[i].1);
        i += 1;
    }
    true
}

/// Whether the register's running balances over `rows` stay in range
/// (the condition [`register`] needs).
pub fn register_in_range(rows: &Vec<RegisterRow>) -> (r: bool)
    ensures
        r == running_fits(register_pairs(rows@)),
{
    let mut pairs: Vec<(String, Decimal)> = Vec::new();
    let mut i: usize = 0;
    while i < rows.len()
        invariant
            i <= rows.len(),
            pairs@.len() == i,
            forall|k: int| 0 <= k < i ==> (#[trigger] pairs@[k]).0@ == rows@[k].7@ && pairs@[k].1 == rows@[k].6,
        decreases rows.len() - i,
    {
        pairs.push((rows[i].7.clone(), rows[i].6));
        i += 1;
    }
    assert(totals_view(pairs@) =~= register_pairs(rows@));
    running_in_range(&pairs)
}

// -- networth ------------------------------------------------------------

/// Net worth (assets plus liabilities) as of a date.
#[derive(Debug)]
pub struct NetWorthPoint {
    pub as_of: Date,
    pub balances: Vec<Amount>,
}

/// `(date, id)` of `a` is at most that of `b` (no id sorts first).
pub open spec fn txn_key_le(a: crate::model::Transaction, b: crate::model::Transaction) -> bool {
    a.date.days() < b.date.days() || (a.date.days() == b.date.days() && match (a.id, b.id) {
        (None, _) => true,
        (Some(_), None) => false,
        (Some(x), Some(y)) => x <= y,
    })
}

/// Inserts index `i` after every index whose transaction's key is at most
/// its own (a stable insertion).
pub open spec fn insert_index(ts: Seq<crate::model::Transaction>, order: Seq<usize>, i: usize) -> Seq<usize>
    decreases order.len(),
{
    if order.len() == 0 {
        seq![i]
    } else if txn_key_le(ts[order.last() as int], ts[i as int]) {
        order.push(i)
    } else {
        insert_index(ts, order.drop_last(), i).push(order.last())
    }
}

/// The first `n` transactions' indices, stably sorted by `(date, id)`.
pub open spec fn sorted_order(ts: Seq<crate::model::Transaction>, n: nat) -> Seq<usize>
    decreases n,
{
    if n == 0 {
        Seq::empty()
    } else {
        insert_index(ts, sorted_order(ts, (n - 1) as nat), (n - 1) as usize)
    }
}

/// The account's first segment is `assets` or `liabilities`.
pub open spec fn networth_account(a: Seq<char>) -> bool {
    crate::text::split_char(a, ':')[0] == "assets"@ || crate::text::split_char(a, ':')[0] == "liabilities"@
}

/// Whether an account counts toward net worth (`assets` or
/// `liabilities`).
pub fn is_networth_account(account: &Account) -> (r: bool)
    ensures
        r == networth_account(account@),
{
    let root = account.root();
    let rc = chars_of(root.as_str());
    crate::text::chars_eq_str(&rc, "assets") || crate::text::chars_eq_str(&rc, "liabilities")
}

/// The (commodity, number) of each net-worth posting with an amount.
pub open spec fn posting_pairs(ps: Seq<crate::model::Posting>) -> Seq<(Seq<char>, DecimalValue)>
    decreases ps.len(),
{
    if ps.len() == 0 {
        Seq::empty()
    } else {
        let prev = posting_pairs(ps.drop_last());
        let p = ps.last();
        if networth_account(p.account@) && p.amount is Some {
            prev.push((p.amount->0.commodity@, p.amount->0.number@))
        } else {
            prev
        }
    }
}

/// The net-worth amounts of the transactions in `order`, in that order.
pub open spec fn order_pairs(ts: Seq<crate::model::Transaction>, order: Seq<usize>) -> Seq<(Seq<char>, DecimalValue)>
    decreases order.len(),
{
    if order.len() == 0 {
        Seq::empty()
    } else {
        order_pairs(ts, order.drop_last()) + posting_pairs(ts[order.last() as int].postings@)
    }
}

/// A calendar month: (year, month).
pub open spec fn month_key(d: Date) -> (i32, int) {
    (d.ymd().0 as i32, d.ymd().1)
}

/// A point as plain values: the date as (year, month, day) and the
/// balances.
pub type PointView = ((int, int, int), Seq<(DecimalValue, Seq<char>)>);

/// The monthly points closed after the first `k` transactions of `order`,
/// and the month of the last one.
pub open spec fn monthly_points(ts: Seq<crate::model::Transaction>, order: Seq<usize>, k: nat) -> (Seq<PointView>, Option<(i32, int)>)
    decreases k,
{
    if k == 0 || k > order.len() {
        (Seq::empty(), None)
    } else {
        let (pts, cur) = monthly_points(ts, order, (k - 1) as nat);
        let mk = month_key(ts[order[k - 1] as int].date);
        let pts2 = match cur {
            Some(pm) => if pm != mk {
                pts.push(((pm.0 as int, pm.1, 1int), total_amounts(running_totals(order_pairs(ts, order.take(k - 1))))))
            } else {
                pts
            },
            None => pts,
        };
        (pts2, Some(mk))
    }
}

/// The monthly net-worth report: a point per month that has transactions,
/// dated the first of the month, holding the running balances once that
/// month's transactions are applied (the last one without zero totals).
pub open spec fn monthly_report(ts: Seq<crate::model::Transaction>) -> Seq<PointView> {
    let order = sorted_order(ts, ts.len());
    let (pts, cur) = monthly_points(ts, order, order.len());
    match cur {
        Some(m) => pts.push(((m.0 as int, m.1, 1int), total_amounts(nonzero_totals(running_totals(order_pairs(ts, order)))))),
        None => pts,
    }
}

/// The running totals over all transactions, in `(date, id)` order, never
/// overflow.
pub open spec fn networth_fits(ts: Seq<crate::model::Transaction>) -> bool {
    running_fits(order_pairs(ts, sorted_order(ts, ts.len())))
}

/// A point as plain values.
pub open spec fn point_view(p: NetWorthPoint) -> PointView {
    (p.as_of.ymd(), p.balances@.map_values(|a: Amount| amount_pair(a)))
}

/// `key(a) <= key(b)`.
fn key_le(a: &crate::model::Transaction, b: &crate::model::Transaction) -> (r: bool)
    ensures
        r == txn_key_le(*a, *b),
{
    let da = a.date.days_since_epoch();
    let db = b.date.days_since_epoch();
    if da != db {
        return da < db;
    }
    match (a.id, b.id) {
        (None, _) => true,
        (Some(_), None) => false,
        (Some(x), Some(y)) => x <= y,
    }
}

/// The indices of `ts`, stably sorted by `(date, id)`.
fn sort_order(ts: &Vec<crate::model::Transaction>) -> (r: Vec<usize>)
    ensures
        r@ == sorted_order(ts@, ts@.len()),
        r@.len() == ts@.len(),
        forall|k: int| 0 <= k < r@.len() ==> r@[k] < ts@.len(),
{
    let mut order: Vec<usize> = Vec::new();
    let mut i: usize = 0;
    while i < ts.len()
        invariant
            i <= ts.len(),
            order@ == sorted_order(ts@, i as nat),
            order@.len() == i,
            forall|k: int| 0 <= k < order@.len() ==> order@[k] < i,
        decreases ts.len() - i,
    {
        let mut j: usize = order.len();
        let ghost o = order@;
        assert(o.take(j as int) =~= o);
        assert(o.skip(j as int) =~= Seq::<usize>::empty());
        assert(insert_index(ts@, o, i) =~= insert_index(ts@, o.take(j as int), i) + o.skip(j as int));
        while j > 0 && !key_le(&ts[order[j - 1]], &ts[i])
            invariant
                j <= o.len(),
                order@ == o,
                i < ts.len(),
                forall|k: int| 0 <= k < o.len() ==> o[k] < i,
                insert_index(ts@, o, i) == insert_index(ts@, o.take(j as int), i) + o.skip(j as int),
            decreases j,
        {
            assert(o.take(j as int).drop_last() =~= o.take(j - 1));
            assert(o.take(j as int).last() == o[j - 1]);
            assert(o.skip(j - 1) =~= seq![o[j - 1]] + o.skip(j as int));
            assert(insert_index(ts@, o.take(j - 1), i).push(o[j - 1]) + o.skip(j as int) =~= insert_index(ts@, o.take(j - 1), i) + o.skip(j - 1));
            j -= 1;
        }
        if j > 0 {
            assert(insert_index(ts@, o.take(j as int), i) == o.take(j as int).push(i));
        } else {
            assert(o.take(0) =~= Seq::<usize>::empty());
        }
        order.insert(j, i);
        assert(order@ =~= o.take(j as int).push(i) + o.skip(j as int));
        i += 1;
    }
    order
}

/// Adds the net-worth postings of `t` to the running totals.
fn add_networth_postings(
    running: &mut Vec<(String, Decimal)>,
    t: &crate::model::Transaction,
    Ghost(acc): Ghost<Seq<(Seq<char>, DecimalValue)>>,
    Ghost(full): Ghost<Seq<(Seq<char>, DecimalValue)>>,
)
    requires
        totals_view(old(running)@) == running_totals(acc),
        running_fits(full),
        full.len() >= acc.len() + posting_pairs(t.postings@).len(),
        full.take((acc.len() + posting_pairs(t.postings@).len()) as int) == acc + posting_pairs(t.postings@),
    ensures
        totals_view(final(running)@) == running_totals(acc + posting_pairs(t.postings@)),
{
    let ghost ps = t.postings@;
    let ghost target = acc + posting_pairs(ps);
    let mut q: usize = 0;
    assert(ps.take(0) =~= Seq::<crate::model::Posting>::empty());
    assert(acc + posting_pairs(ps.take(0)) =~= acc);
    while q < t.postings.len()
        invariant
            q <= t.postings.len(),
            ps == t.postings@,
            target == acc + posting_pairs(ps),
            running_fits(full),
            full.len() >= target.len(),
            full.take(target.len() as int) == target,
            totals_view(running@) == running_totals(acc + posting_pairs(ps.take(q as int))),
            (acc + posting_pairs(ps.take(q as int))).len() <= target.len(),
            target.take((acc + posting_pairs(ps.take(q as int))).len() as int) == acc + posting_pairs(ps.take(q as int)),
        decreases t.postings.len() - q,
    {
        let p = &t.postings[q];
        let ghost cur = acc + posting_pairs(ps.take(q as int));
        assert(ps.take(q + 1).drop_last() =~= ps.take(q as int));
        assert(ps.take(q + 1).last() == ps[q as int]);
        proof {
            lemma_pairs_prefix(ps, q as int + 1);
        }
        if is_networth_account(&p.account) {
            match &p.amount {
                Some(a) => {
                    let ghost next = cur.push((a.commodity@, a.number@));
                    assert(acc + posting_pairs(ps.take(q + 1)) =~= next);
                    assert(full.take(cur.len() as int) =~= cur) by {
                        assert(target.take(cur.len() as int) == cur);
                        assert(full.take(target.len() as int).take(cur.len() as int) =~= full.take(cur.len() as int));
                    }
                    assert(full[cur.len() as int] == (a.commodity@, a.number@)) by {
                        assert(target.take(next.len() as int) == next);
                        assert(full.take(target.len() as int)[cur.len() as int] == full[cur.len() as int]);
                        assert(target[cur.len() as int] == next[cur.len() as int]);
                    }
                    assert(totals_add_fits(running_totals(full.take(cur.len() as int)), full[cur.len() as int].0, full[cur.len() as int].1));
                    totals_add_exec(running, &a.commodity, &a.number);
                    assert(next.drop_last() =~= cur);
                },
                None => {
                    assert(acc + posting_pairs(ps.take(q + 1)) =~= cur);
                },
            }
        } else {
            assert(acc + posting_pairs(ps.take(q + 1)) =~= cur);
        }
        q += 1;
    }
    assert(ps.take(ps.len() as int) =~= ps);
}

/// `posting_pairs` of a prefix is a prefix.
proof fn lemma_pairs_prefix(ps: Seq<crate::model::Posting>, n: int)
    requires
        0 <= n <= ps.len(),
    ensures
        posting_pairs(ps.take(n)).len() <= posting_pairs(ps).len(),
        posting_pairs(ps).take(posting_pairs(ps.take(n)).len() as int) == posting_pairs(ps.take(n)),
    decreases ps.len() - n,
{
    if n < ps.len() {
        lemma_pairs_prefix(ps, n + 1);
        assert(ps.take(n + 1).drop_last() =~= ps.take(n));
        let a = posting_pairs(ps.take(n));
        let b = posting_pairs(ps.take(n + 1));
        let f = posting_pairs(ps);
        assert(f.take(a.len() as int) =~= b.take(a.len() as int)) by {
            assert(f.take(b.len() as int).take(a.len() as int) =~= f.take(a.len() as int));
        }
        assert(b.take(a.len() as int) =~= a);
    } else {
        assert(ps.take(n) =~= ps);
        assert(posting_pairs(ps).take(posting_pairs(ps).len() as int) =~= posting_pairs(ps));
    }
}

/// `order_pairs` of a prefix of the order is a prefix.
proof fn lemma_order_prefix(ts: Seq<crate::model::Transaction>, order: Seq<usize>, k: int)
    requires
        0 <= k <= order.len(),
    ensures
        order_pairs(ts, order.take(k)).len() <= order_pairs(ts, order).len(),
        order_pairs(ts, order).take(order_pairs(ts, order.take(k)).len() as int) == order_pairs(ts, order.take(k)),
    decreases order.len() - k,
{
    if k < order.len() {
        lemma_order_prefix(ts, order, k + 1);
        assert(order.take(k + 1).drop_last() =~= order.take(k));
        let a = order_pairs(ts, order.take(k));
        let b = order_pairs(ts, order.take(k + 1));
        let f = order_pairs(ts, order);
        assert(f.take(a.len() as int) =~= b.take(a.len() as int)) by {
            assert(f.take(b.len() as int).take(a.len() as int) =~= f.take(a.len() as int));
        }
        assert(b.take(a.len() as int) =~= a);
    } else {
        assert(order.take(k) =~= order);
        assert(order_pairs(ts, order).take(order_pairs(ts, order).len() as int) =~= order_pairs(ts, order));
    }
}

/// Whether the running net-worth totals over `txns`, in `(date, id)`
/// order, stay in range (the condition [`networth`] needs).
pub fn networth_in_range(txns: &Vec<crate::model::Transaction>) -> (r: bool)
    ensures
        r == networth_fits(txns@),
{
    let order = sort_order(txns);
    let ghost ts = txns@;
    let mut pairs: Vec<(String, Decimal)> = Vec::new();
    let mut k: usize = 0;
    assert(order@.take(0) =~= Seq::<usize>::empty());
    assert(totals_view(pairs@) =~= Seq::<(Seq<char>, DecimalValue)>::empty());
    while k < order.len()
        invariant
            k <= order@.len(),
            ts == txns@,
            order@ == sorted_order(ts, ts.len()),
            forall|q: int| 0 <= q < order@.len() ==> order@[q] < ts.len(),
            totals_view(pairs@) == order_pairs(ts, order@.take(k as int)),
        decreases order.len() - k,
    {
        let t = &txns[order[k]];
        let ghost ps = t.postings@;
        let ghost pre = order_pairs(ts, order@.take(k as int));
        assert(order@.take(k + 1).drop_last() =~= order@.take(k as int));
        assert(order@.take(k + 1).last() == order@[k as int]);
        let mut q: usize = 0;
        assert(ps.take(0) =~= Seq::<crate::model::Posting>::empty());
        assert(pre + posting_pairs(ps.take(0)) =~= pre);
        while q < t.postings.len()
            invariant
                q <= t.postings.len(),
                ps == t.postings@,
                totals_view(pairs@) == pre + posting_pairs(ps.take(q as int)),
            decreases t.postings.len() - q,
        {
            let p = &t.postings[q];
            assert(ps.take(q + 1).drop_last() =~= ps.take(q as int));
            assert(ps.take(q + 1).last() == ps[q as int]);
            let ghost cur = pre + posting_pairs(ps.take(q as int));
            if is_networth_account(&p.account) {
                match &p.amount {
                    Some(a) => {
                        pairs.push((a.commodity.clone(), a.number));
                        assert(totals_view(pairs@) =~= cur.push((a.commodity@, a.number@)));
                        assert(pre + posting_pairs(ps.take(q + 1)) =~= cur.push((a.commodity@, a.number@)));
                    },
                    None => {
                        assert(pre + posting_pairs(ps.take(q + 1)) =~= cur);
                    },
                }
            } else {
                assert(pre + posting_pairs(ps.take(q + 1)) =~= cur);
            }
            q += 1;
        }
        assert(ps.take(ps.len() as int) =~= ps);
        k += 1;
    }
    assert(order@.take(order.len() as int) =~= order@);
    running_in_range(&pairs)
}

/// Net worth over transactions already filtered to the dates of interest,
/// taken in `(date, id)` order. Monthly: one point per month that has
/// transactions (see [`monthly_report`]). Otherwise a single point with
/// the non-zero totals, dated at the last transaction (today when there is
/// none).
pub fn networth(txns: &Vec<crate::model::Transaction>, monthly: bool) -> (r: Vec<NetWorthPoint>)
    requires
        networth_fits(txns@),
    ensures
        monthly ==> r@.map_values(|p: NetWorthPoint| point_view(p)) == monthly_report(txns@),
        !monthly ==> r@.len() == 1 && r@[0].balances@.map_values(|a: Amount| amount_pair(a)) == total_amounts(
            nonzero_totals(running_totals(order_pairs(txns@, sorted_order(txns@, txns@.len())))),
        ) && (txns@.len() > 0 ==> r@[0].as_of == txns@[sorted_order(txns@, txns@.len()).last() as int].date),
{
    let order = sort_order(txns);
    let ghost ts = txns@;
    let ghost full = order_pairs(ts, order@);
    let mut running: Vec<(String, Decimal)> = Vec::new();
    let mut points: Vec<NetWorthPoint> = Vec::new();
    let mut current: Option<(i32, u32)> = None;
    let mut current_start: Option<Date> = None;
    let mut k: usize = 0;
    assert(order@.take(0) =~= Seq::<usize>::empty());
    assert(totals_view(running@) =~= Seq::<(Seq<char>, DecimalValue)>::empty());
    assert(points@.map_values(|p: NetWorthPoint| point_view(p)) =~= Seq::<PointView>::empty());
    while k < order.len()
        invariant
            k <= order@.len(),
            ts == txns@,
            order@ == sorted_order(ts, ts.len()),
            order@.len() == ts.len(),
            forall|q: int| 0 <= q < order@.len() ==> order@[q] < ts.len(),
            full == order_pairs(ts, order@),
            running_fits(full),
            totals_view(running@) == running_totals(order_pairs(ts, order@.take(k as int))),
            monthly ==> points@.map_values(|p: NetWorthPoint| point_view(p)) == monthly_points(ts, order@, k as nat).0,
            monthly_points(ts, order@, k as nat).1 == match current {
                Some(c) => Some((c.0, c.1 as int)),
                None => None::<(i32, int)>,
            },
            current is Some <==> current_start is Some,
            current matches Some(c) ==> current_start->0.ymd() == (c.0 as int, c.1 as int, 1int),
        decreases order.len() - k,
    {
        let t = &txns[order[k]];
        let y = t.date.year();
        let m = t.date.month();
        let ghost pre = order_pairs(ts, order@.take(k as int));
        let ghost mk = month_key(ts[order@[k as int] as int].date);
        assert(order@.take(k + 1).drop_last() =~= order@.take(k as int));
        assert(order@.take(k + 1).last() == order@[k as int]);
        assert(order@.take(k + 1)[k as int] == order@[k as int]);
        if monthly {
            match (current, current_start) {
                (Some(c), Some(cs)) => {
                    if c.0 != y || c.1 != m {
                        let balances = total_amounts_exec(&running);
                        let ghost before = points@.map_values(|p: NetWorthPoint| point_view(p));
                        points.push(NetWorthPoint { as_of: cs, balances });
                        assert(points@.map_values(|p: NetWorthPoint| point_view(p)) =~= before.push(point_view(NetWorthPoint { as_of: cs, balances })));
                    }
                },
                _ => {},
            }
        }
        let ms = t.date.month_start();
        current = Some((y, m));
        current_start = Some(ms);
        proof {
            lemma_order_prefix(ts, order@, k as int + 1);
            assert(order_pairs(ts, order@.take(k + 1)) == pre + posting_pairs(t.postings@));
        }
        add_networth_postings(&mut running, t, Ghost(pre), Ghost(full));
        k += 1;
    }
    assert(order@.take(order.len() as int) =~= order@);
    if !monthly {
        let nz = nonzero_entries(&running);
        let balances = total_amounts_exec(&nz);
        let as_of = if order.len() > 0 {
            txns[order[order.len() - 1]].date
        } else {
            Date::today()
        };
        let mut single: Vec<NetWorthPoint> = Vec::new();
        single.push(NetWorthPoint { as_of, balances });
        return single;
    }
    match current_start {
        Some(cs) => {
            let nz = nonzero_entries(&running);
            let balances = total_amounts_exec(&nz);
            let ghost before = points@.map_values(|p: NetWorthPoint| point_view(p));
            points.push(NetWorthPoint { as_of: cs, balances });
            assert(points@.map_values(|p: NetWorthPoint| point_view(p)) =~= before.push(point_view(NetWorthPoint { as_of: cs, balances })));
        },
        None => {},
    }
    points
}


// -- check ---------------------------------------------------------------

/// What `check` found.
#[derive(Debug)]
pub struct CheckReport {
    pub transactions_checked: usize,
    pub imbalances: Vec<String>,
    pub failed_assertions: Vec<String>,
    pub undeclared_accounts: Vec<String>,
}

impl Default for CheckReport {
    fn default() -> (r: Self)
        ensures
            r.transactions_checked == 0,
            r.imbalances@.len() == 0,
            r.failed_assertions@.len() == 0,
            r.undeclared_accounts@.len() == 0,
    {
        CheckReport {
            transactions_checked: 0,
            imbalances: Vec::new(),
            failed_assertions: Vec::new(),
            undeclared_accounts: Vec::new(),
        }
    }
}

impl CheckReport {
    /// No imbalance and no failed assertion (undeclared accounts are only
    /// reported).
    pub fn is_clean(&self) -> (r: bool)
        ensures
            r == (self.imbalances@.len() == 0 && self.failed_assertions@.len() == 0),
    {
        self.imbalances.len() == 0 && self.failed_assertions.len() == 0
    }
}

/// Inserts `x` into a sorted list of distinct strings.
pub open spec fn set_insert(s: Seq<Seq<char>>, x: Seq<char>) -> Seq<Seq<char>>
    decreases s.len(),
{
    if s.len() == 0 {
        seq![x]
    } else if s[0] == x {
        s
    } else if crate::text::seq_less(x, s[0]) {
        seq![x] + s
    } else {
        seq![s[0]] + set_insert(s.drop_first(), x)
    }
}

/// `x` into the sorted set `set`.
fn set_insert_exec(set: &mut Vec<String>, x: &String)
    ensures
        crate::model::strings_view(final(set)@) == set_insert(crate::model::strings_view(old(set)@), x@),
{
    let ghost s0 = crate::model::strings_view(set@);
    let xv = chars_of(x.as_str());
    let mut i: usize = 0;
    assert(s0.skip(0) =~= s0);
    assert(s0.take(0) + set_insert(s0, x@) =~= set_insert(s0, x@));
    while i < set.len()
        invariant
            i <= set.len(),
            s0 == crate::model::strings_view(set@),
            s0 == crate::model::strings_view(old(set)@),
            xv@ == x@,
            set_insert(s0, x@) == s0.take(i as int) + set_insert(s0.skip(i as int), x@),
        decreases set.len() - i,
    {
        let e = chars_of(set[i].as_str());
        assert(s0.skip(i as int)[0] == s0[i as int]);
        assert(s0.skip(i as int).drop_first() =~= s0.skip(i + 1));
        if crate::text::chars_eq(&e, &xv) {
            assert(s0.take(i as int) + s0.skip(i as int) =~= s0);
            return;
        }
        if crate::text::chars_less(&xv, &e) {
            set.insert(i, x.clone());
            assert(crate::model::strings_view(set@) =~= s0.take(i as int) + set_insert(s0.skip(i as int), x@));
            return;
        }
        assert(s0.take(i + 1) =~= s0.take(i as int).push(s0[i as int]));
        assert(s0.take(i as int) + set_insert(s0.skip(i as int), x@) =~= s0.take(i + 1) + set_insert(s0.skip(i + 1), x@));
        i += 1;
    }
    set.push(x.clone());
    assert(s0.take(i as int) =~= s0);
    assert(crate::model::strings_view(set@) =~= s0.take(i as int) + set_insert(s0.skip(i as int), x@));
}

/// The imbalance messages of the transactions that do not resolve.
pub open spec fn imbalance_texts(ts: Seq<crate::model::Transaction>) -> Seq<Seq<char>>
    decreases ts.len(),
{
    if ts.len() == 0 {
        Seq::empty()
    } else {
        let t = ts.last();
        match crate::model::resolve_result(t.postings@) {
            Err(d) => imbalance_texts(ts.drop_last()).push(
                crate::date::date_text(t.date) + " \""@ + t.narration@ + "\" "@ + d,
            ),
            Ok(_) => imbalance_texts(ts.drop_last()),
        }
    }
}

/// The accounts of the postings, in order.
pub open spec fn posting_accounts(ps: Seq<crate::model::Posting>) -> Seq<Seq<char>>
    decreases ps.len(),
{
    if ps.len() == 0 {
        Seq::empty()
    } else {
        posting_accounts(ps.drop_last()).push(ps.last().account@)
    }
}

/// Adds each account that `declared` lacks to the sorted set.
pub open spec fn add_undeclared(set: Seq<Seq<char>>, accounts: Seq<Seq<char>>, declared: Seq<Seq<char>>) -> Seq<Seq<char>>
    decreases accounts.len(),
{
    if accounts.len() == 0 {
        set
    } else {
        let prev = add_undeclared(set, accounts.drop_last(), declared);
        if declared.contains(accounts.last()) {
            prev
        } else {
            set_insert(prev, accounts.last())
        }
    }
}

/// The undeclared accounts of all postings: sorted, each once.
pub open spec fn undeclared_of(ts: Seq<crate::model::Transaction>, declared: Seq<Seq<char>>) -> Seq<Seq<char>>
    decreases ts.len(),
{
    if ts.len() == 0 {
        Seq::empty()
    } else {
        add_undeclared(undeclared_of(ts.drop_last(), declared), posting_accounts(ts.last().postings@), declared)
    }
}

/// The amounts a balance assertion sums: each posting to `account` in
/// `commodity` of the transactions dated on or before `date`, in order.
pub open spec fn asserted_amounts(
    ts: Seq<crate::model::Transaction>,
    date: Date,
    account: Seq<char>,
    commodity: Seq<char>,
) -> Seq<DecimalValue>
    decreases ts.len(),
{
    if ts.len() == 0 {
        Seq::empty()
    } else {
        let prev = asserted_amounts(ts.drop_last(), date, account, commodity);
        let t = ts.last();
        if t.date.days() > date.days() {
            prev
        } else {
            prev + matching_amounts(t.postings@, account, commodity)
        }
    }
}

/// The amounts of the postings to `account` in `commodity`.
pub open spec fn matching_amounts(ps: Seq<crate::model::Posting>, account: Seq<char>, commodity: Seq<char>) -> Seq<DecimalValue>
    decreases ps.len(),
{
    if ps.len() == 0 {
        Seq::empty()
    } else {
        let prev = matching_amounts(ps.drop_last(), account, commodity);
        let p = ps.last();
        if p.account@ == account && p.amount is Some && p.amount->0.commodity@ == commodity {
            prev.push(p.amount->0.number@)
        } else {
            prev
        }
    }
}

/// The running sum from zero (`Decimal::ZERO` plus each in turn).
pub open spec fn sum_from_zero(vs: Seq<DecimalValue>) -> DecimalValue
    decreases vs.len(),
{
    if vs.len() == 0 {
        crate::totals::zero_value()
    } else {
        crate::decimal::add_value(sum_from_zero(vs.drop_last()), vs.last())
    }
}

/// Each step of the running sum stays in range.
pub open spec fn sum_fits(vs: Seq<DecimalValue>) -> bool {
    forall|k: int| 0 <= k < vs.len() ==> crate::decimal::add_fits(sum_from_zero(#[trigger] vs.take(k)), vs[k])
}

/// An assertion as plain values.
pub open spec fn assertion_amounts(ts: Seq<crate::model::Transaction>, a: (Date, Account, Amount)) -> Seq<DecimalValue> {
    asserted_amounts(ts, a.0, a.1@, a.2.commodity@)
}

/// `{date} {account}: expected {amount}, got {sum} {commodity}`.
pub open spec fn failed_text(a: (Date, Account, Amount), got: DecimalValue) -> Seq<char> {
    crate::date::date_text(a.0) + seq![' '] + a.1@ + ": expected "@ + crate::model::amount_text(a.2) + ", got "@
        + crate::decimal::decimal_text(got) + seq![' '] + a.2.commodity@
}

fn failed_message(a: &(Date, Account, Amount), got: &Decimal) -> (r: String)
    ensures
        r@ == failed_text(*a, got@),
{
    let mut m = a.0.to_chars();
    m.push(' ');
    crate::text::append_str(&mut m, a.1.as_str());
    crate::text::append_str(&mut m, ": expected ");
    let e = a.2.to_chars();
    crate::text::append_chars(&mut m, &e);
    crate::text::append_str(&mut m, ", got ");
    let g = got.to_string();
    crate::text::append_str(&mut m, g.as_str());
    m.push(' ');
    crate::text::append_str(&mut m, a.2.commodity.as_str());
    crate::text::string_of(&m)
}

/// A pad on the asserted account is dated before the assertion: the pad
/// absorbs whatever difference the assertion would find.
pub open spec fn padded(pads: Seq<(Date, Account, Account)>, a: (Date, Account, Amount)) -> bool {
    exists|i: int| 0 <= i < pads.len() && (#[trigger] pads[i]).1@ == a.1@ && pads[i].0.days() < a.0.days()
}

/// The failure message of each balance assertion that no earlier pad on
/// its account covers and whose sum differs (numerically) from what it
/// expects.
pub open spec fn failed_texts(
    ts: Seq<crate::model::Transaction>,
    pads: Seq<(Date, Account, Account)>,
    asserts: Seq<(Date, Account, Amount)>,
) -> Seq<Seq<char>>
    decreases asserts.len(),
{
    if asserts.len() == 0 {
        Seq::empty()
    } else {
        let prev = failed_texts(ts, pads, asserts.drop_last());
        let a = asserts.last();
        let got = sum_from_zero(assertion_amounts(ts, a));
        if padded(pads, a) || got.same_value(a.2.number@) {
            prev
        } else {
            prev.push(failed_text(a, got))
        }
    }
}

/// Whether a pad covers the assertion ([`padded`]).
fn is_padded(pads: &Vec<(Date, Account, Account)>, a: &(Date, Account, Amount)) -> (r: bool)
    ensures
        r == padded(pads@, *a),
{
    let limit = a.0.days_since_epoch();
    let name = a.1.to_chars();
    let mut i: usize = 0;
    while i < pads.len()
        invariant
            i <= pads.len(),
            limit == a.0.days(),
            name@ == a.1@,
            forall|k: int| 0 <= k < i ==> !((#[trigger] pads@[k]).1@ == a.1@ && pads@[k].0.days() < a.0.days()),
        decreases pads.len() - i,
    {
        let p = pads[i].1.to_chars();
        if crate::text::chars_eq(&p, &name) && pads[i].0.days_since_epoch() < limit {
            return true;
        }
        i += 1;
    }
    false
}

/// Appends the undeclared accounts of one transaction's postings.
fn add_undeclared_exec(set: &mut Vec<String>, t: &crate::model::Transaction, declared: &Vec<String>)
    ensures
        crate::model::strings_view(final(set)@) == add_undeclared(
            crate::model::strings_view(old(set)@),
            posting_accounts(t.postings@),
            crate::model::strings_view(declared@),
        ),
{
    let ghost s0 = crate::model::strings_view(set@);
    let ghost dv = crate::model::strings_view(declared@);
    let ghost ps = t.postings@;
    let mut q: usize = 0;
    assert(ps.take(0) =~= Seq::<crate::model::Posting>::empty());
    while q < t.postings.len()
        invariant
            q <= t.postings.len(),
            ps == t.postings@,
            dv == crate::model::strings_view(declared@),
            crate::model::strings_view(set@) == add_undeclared(s0, posting_accounts(ps.take(q as int)), dv),
        decreases t.postings.len() - q,
    {
        let name = t.postings[q].account.as_str();
        assert(ps.take(q + 1).drop_last() =~= ps.take(q as int));
        assert(posting_accounts(ps.take(q + 1)).drop_last() =~= posting_accounts(ps.take(q as int)));
        let mut found = false;
        let mut j: usize = 0;
        while j < declared.len()
            invariant
                j <= declared.len(),
                dv == crate::model::strings_view(declared@),
                found == exists|k: int| 0 <= k < j && dv[k] == name@,
            decreases declared.len() - j,
        {
            let dj = chars_of(declared[j].as_str());
            let nc = chars_of(name);
            if crate::text::chars_eq(&dj, &nc) {
                found = true;
            }
            assert(dv[j as int] == declared@[j as int]@);
            j += 1;
        }
        assert(found == dv.contains(name@));
        if !found {
            let owned = String::from_str(name);
            set_insert_exec(set, &owned);
        }
        q += 1;
    }
    assert(ps.take(ps.len() as int) =~= ps);
}

/// Sums the amounts one balance assertion covers.
fn assertion_sum(txns: &Vec<crate::model::Transaction>, a: &(Date, Account, Amount)) -> (r: Decimal)
    requires
        sum_fits(assertion_amounts(txns@, *a)),
    ensures
        r@ == sum_from_zero(assertion_amounts(txns@, *a)),
{
    let ghost full = assertion_amounts(txns@, *a);
    let limit = a.0.days_since_epoch();
    let mut running = Decimal::zero();
    let ghost mut acc: Seq<DecimalValue> = Seq::empty();
    let mut i: usize = 0;
    assert(txns@.take(0) =~= Seq::<crate::model::Transaction>::empty());
    while i < txns.len()
        invariant
            i <= txns.len(),
            full == assertion_amounts(txns@, *a),
            sum_fits(full),
            limit == a.0.days(),
            acc == asserted_amounts(txns@.take(i as int), a.0, a.1@, a.2.commodity@),
            acc.len() <= full.len(),
            full.take(acc.len() as int) == acc,
            running@ == sum_from_zero(acc),
        decreases txns.len() - i,
    {
        let t = &txns[i];
        assert(txns@.take(i + 1).drop_last() =~= txns@.take(i as int));
        assert(txns@.take(i + 1).last() == txns@[i as int]);
        proof {
            lemma_asserted_prefix(txns@, a.0, a.1@, a.2.commodity@, i as int + 1);
        }
        if t.date.days_since_epoch() <= limit {
            let ghost ps = t.postings@;
            let ghost target = acc + matching_amounts(ps, a.1@, a.2.commodity@);
            let mut q: usize = 0;
            assert(ps.take(0) =~= Seq::<crate::model::Posting>::empty());
            assert(acc + matching_amounts(ps.take(0), a.1@, a.2.commodity@) =~= acc);
            while q < t.postings.len()
                invariant
                    q <= t.postings.len(),
                    ps == t.postings@,
                    sum_fits(full),
                    target == acc + matching_amounts(ps, a.1@, a.2.commodity@),
                    target.len() <= full.len(),
                    full.take(target.len() as int) == target,
                    running@ == sum_from_zero(acc + matching_amounts(ps.take(q as int), a.1@, a.2.commodity@)),
                decreases t.postings.len() - q,
            {
                let p = &t.postings[q];
                let ghost cur = acc + matching_amounts(ps.take(q as int), a.1@, a.2.commodity@);
                assert(ps.take(q + 1).drop_last() =~= ps.take(q as int));
                assert(ps.take(q + 1).last() == ps[q as int]);
                proof {
                    lemma_matching_prefix(ps, a.1@, a.2.commodity@, q as int + 1);
                    lemma_matching_prefix(ps, a.1@, a.2.commodity@, q as int);
                }
                let same_account = {
                    let x = chars_of(p.account.as_str());
                    let y = chars_of(a.1.as_str());
                    crate::text::chars_eq(&x, &y)
                };
                if same_account {
                    match &p.amount {
                        Some(am) => {
                            let x = chars_of(am.commodity.as_str());
                            let y = chars_of(a.2.commodity.as_str());
                            if crate::text::chars_eq(&x, &y) {
                                let ghost next = cur.push(am.number@);
                                assert(acc + matching_amounts(ps.take(q + 1), a.1@, a.2.commodity@) =~= next);
                                assert(full.take(cur.len() as int) =~= cur) by {
                                    assert(full.take(target.len() as int).take(cur.len() as int) =~= full.take(cur.len() as int));
                                    assert(target.take(cur.len() as int) =~= cur) by {
                                        assert(matching_amounts(ps, a.1@, a.2.commodity@).take(
                                            matching_amounts(ps.take(q as int), a.1@, a.2.commodity@).len() as int,
                                        ) == matching_amounts(ps.take(q as int), a.1@, a.2.commodity@));
                                    }
                                }
                                assert(full[cur.len() as int] == am.number@) by {
                                    assert(full.take(target.len() as int)[cur.len() as int] == full[cur.len() as int]);
                                    assert(matching_amounts(ps, a.1@, a.2.commodity@).take(
                                        matching_amounts(ps.take(q + 1), a.1@, a.2.commodity@).len() as int,
                                    ) == matching_amounts(ps.take(q + 1), a.1@, a.2.commodity@));
                                    assert(target[cur.len() as int] == next[cur.len() as int]);
                                }
                                assert(crate::decimal::add_fits(sum_from_zero(full.take(cur.len() as int)), full[cur.len() as int]));
                                running = running.add(&am.number);
                                assert(next.drop_last() =~= cur);
                            } else {
                                assert(acc + matching_amounts(ps.take(q + 1), a.1@, a.2.commodity@) =~= cur);
                            }
                        },
                        None => {
                            assert(acc + matching_amounts(ps.take(q + 1), a.1@, a.2.commodity@) =~= cur);
                        },
                    }
                } else {
                    assert(acc + matching_amounts(ps.take(q + 1), a.1@, a.2.commodity@) =~= cur);
                }
                q += 1;
            }
            assert(ps.take(ps.len() as int) =~= ps);
            proof {
                acc = target;
            }
        }
        i += 1;
    }
    assert(txns@.take(txns.len() as int) =~= txns@);
    running
}

proof fn lemma_matching_prefix(ps: Seq<crate::model::Posting>, account: Seq<char>, commodity: Seq<char>, n: int)
    requires
        0 <= n <= ps.len(),
    ensures
        matching_amounts(ps.take(n), account, commodity).len() <= matching_amounts(ps, account, commodity).len(),
        matching_amounts(ps, account, commodity).take(matching_amounts(ps.take(n), account, commodity).len() as int)
            == matching_amounts(ps.take(n), account, commodity),
    decreases ps.len() - n,
{
    if n < ps.len() {
        lemma_matching_prefix(ps, account, commodity, n + 1);
        assert(ps.take(n + 1).drop_last() =~= ps.take(n));
        let a = matching_amounts(ps.take(n), account, commodity);
        let b = matching_amounts(ps.take(n + 1), account, commodity);
        let f = matching_amounts(ps, account, commodity);
        assert(f.take(a.len() as int) =~= b.take(a.len() as int)) by {
            assert(f.take(b.len() as int).take(a.len() as int) =~= f.take(a.len() as int));
        }
        assert(b.take(a.len() as int) =~= a);
    } else {
        assert(ps.take(n) =~= ps);
        let f = matching_amounts(ps, account, commodity);
        assert(f.take(f.len() as int) =~= f);
    }
}

proof fn lemma_asserted_prefix(ts: Seq<crate::model::Transaction>, date: Date, account: Seq<char>, commodity: Seq<char>, n: int)
    requires
        0 <= n <= ts.len(),
    ensures
        asserted_amounts(ts.take(n), date, account, commodity).len() <= asserted_amounts(ts, date, account, commodity).len(),
        asserted_amounts(ts, date, account, commodity).take(asserted_amounts(ts.take(n), date, account, commodity).len() as int)
            == asserted_amounts(ts.take(n), date, account, commodity),
    decreases ts.len() - n,
{
    if n < ts.len() {
        lemma_asserted_prefix(ts, date, account, commodity, n + 1);
        assert(ts.take(n + 1).drop_last() =~= ts.take(n));
        let a = asserted_amounts(ts.take(n), date, account, commodity);
        let b = asserted_amounts(ts.take(n + 1), date, account, commodity);
        let f = asserted_amounts(ts, date, account, commodity);
        assert(f.take(a.len() as int) =~= b.take(a.len() as int)) by {
            assert(f.take(b.len() as int).take(a.len() as int) =~= f.take(a.len() as int));
        }
        assert(b.take(a.len() as int) =~= a);
    } else {
        assert(ts.take(n) =~= ts);
        let f = asserted_amounts(ts, date, account, commodity);
        assert(f.take(f.len() as int) =~= f);
    }
}

/// Every transaction's postings can be summed up to where resolving stops.
pub open spec fn all_resolve_fit(ts: Seq<crate::model::Transaction>) -> bool {
    forall|i: int| 0 <= i < ts.len() ==> crate::model::resolve_fits(#[trigger] ts[i].postings@)
}

/// Every balance assertion's running sum stays in range.
pub open spec fn assertions_fit(ts: Seq<crate::model::Transaction>, asserts: Seq<(Date, Account, Amount)>) -> bool {
    forall|i: int| 0 <= i < asserts.len() ==> sum_fits(assertion_amounts(ts, #[trigger] asserts[i]))
}

/// The amounts a balance assertion sums (see [`asserted_amounts`]).
fn assertion_values(txns: &Vec<crate::model::Transaction>, a: &(Date, Account, Amount)) -> (r: Vec<Decimal>)
    ensures
        r@.map_values(|d: Decimal| d@) == assertion_amounts(txns@, *a),
{
    let limit = a.0.days_since_epoch();
    let mut out: Vec<Decimal> = Vec::new();
    let mut i: usize = 0;
    assert(txns@.take(0) =~= Seq::<crate::model::Transaction>::empty());
    assert(out@.map_values(|d: Decimal| d@) =~= Seq::<DecimalValue>::empty());
    while i < txns.len()
        invariant
            i <= txns.len(),
            limit == a.0.days(),
            out@.map_values(|d: Decimal| d@) == asserted_amounts(txns@.take(i as int), a.0, a.1@, a.2.commodity@),
        decreases txns.len() - i,
    {
        let t = &txns[i];
        assert(txns@.take(i + 1).drop_last() =~= txns@.take(i as int));
        assert(txns@.take(i + 1).last() == txns@[i as int]);
        if t.date.days_since_epoch() <= limit {
            let ghost ps = t.postings@;
            let ghost acc = asserted_amounts(txns@.take(i as int), a.0, a.1@, a.2.commodity@);
            let mut q: usize = 0;
            assert(ps.take(0) =~= Seq::<crate::model::Posting>::empty());
            assert(acc + matching_amounts(ps.take(0), a.1@, a.2.commodity@) =~= acc);
            while q < t.postings.len()
                invariant
                    q <= t.postings.len(),
                    ps == t.postings@,
                    out@.map_values(|d: Decimal| d@) == acc + matching_amounts(ps.take(q as int), a.1@, a.2.commodity@),
                decreases t.postings.len() - q,
            {
                let p = &t.postings[q];
                let ghost cur = acc + matching_amounts(ps.take(q as int), a.1@, a.2.commodity@);
                assert(ps.take(q + 1).drop_last() =~= ps.take(q as int));
                assert(ps.take(q + 1).last() == ps[q as int]);
                let same_account = {
                    let x = chars_of(p.account.as_str());
                    let y = chars_of(a.1.as_str());
                    crate::text::chars_eq(&x, &y)
                };
                let mut taken = false;
                if same_account {
                    match &p.amount {
                        Some(am) => {
                            let x = chars_of(am.commodity.as_str());
                            let y = chars_of(a.2.commodity.as_str());
                            if crate::text::chars_eq(&x, &y) {
                                out.push(am.number);
                                taken = true;
                                assert(out@.map_values(|d: Decimal| d@) =~= cur.push(am.number@));
                                assert(acc + matching_amounts(ps.take(q + 1), a.1@, a.2.commodity@) =~= cur.push(am.number@));
                            }
                        },
                        None => {},
                    }
                }
                if !taken {
                    assert(acc + matching_amounts(ps.take(q + 1), a.1@, a.2.commodity@) =~= cur);
                }
                q += 1;
            }
            assert(ps.take(ps.len() as int) =~= ps);
        }
        i += 1;
    }
    assert(txns@.take(txns.len() as int) =~= txns@);
    out
}

/// Whether the running sum of `vs` from zero stays in range
/// ([`sum_fits`]).
fn sum_in_range(vs: &Vec<Decimal>) -> (r: bool)
    ensures
        r == sum_fits(vs@.map_values(|d: Decimal| d@)),
{
    let ghost vv = vs@.map_values(|d: Decimal| d@);
    let mut running = Decimal::zero();
    let mut i: usize = 0;
    assert(vv.take(0) =~= Seq::<DecimalValue>::empty());
    while i < vs.len()
        invariant
            i <= vs.len(),
            vv == vs@.map_values(|d: Decimal| d@),
            running@ == sum_from_zero(vv.take(i as int)),
            forall|k: int| 0 <= k < i ==> crate::decimal::add_fits(sum_from_zero(#[trigger] vv.take(k)), vv[k]),
        decreases vs.len() - i,
    {
        assert(vv[i as int] == vs@[i as int]@);
        assert(vv.take(i + 1).drop_last() =~= vv.take(i as int));
        assert(vv.take(i + 1).last() == vv[i as int]);
        if !running.add_fits_with(&vs[i]) {
            return false;
        }
        running = running.add(&vs[i]);
        i += 1;
    }
    true
}

/// Whether [`check`]'s sums stay in range: each transaction's postings
/// resolve in range and each balance assertion's running sum does.
pub fn check_in_range(txns: &Vec<crate::model::Transaction>, assertions: &Vec<(Date, Account, Amount)>) -> (r: bool)
    ensures
        r == (all_resolve_fit(txns@) && assertions_fit(txns@, assertions@)),
{
    let mut i: usize = 0;
    while i < txns.len()
        invariant
            i <= txns.len(),
            forall|k: int| 0 <= k < i ==> crate::model::resolve_fits(#[trigger] txns@[k].postings@),
        decreases txns.len() - i,
    {
        if !txns[i].sums_in_range() {
            return false;
        }
        i += 1;
    }
    let mut j: usize = 0;
    while j < assertions.len()
        invariant
            j <= assertions.len(),
            all_resolve_fit(txns@),
            forall|k: int| 0 <= k < j ==> sum_fits(assertion_amounts(txns@, #[trigger] assertions@[k])),
        decreases assertions.len() - j,
    {
        let vs = assertion_values(txns, &assertions[j]);
        if !sum_in_range(&vs) {
            return false;
        }
        j += 1;
    }
    true
}

/// Checks a ledger: which transactions do not balance, which balance
/// assertions fail (the sum of the asserted account's postings in the
/// asserted commodity up to and including its date, compared by value,
/// unless a pad on the account dated before it absorbs the difference),
/// and which posting accounts are not among the declared ones.
pub fn check(
    txns: &Vec<crate::model::Transaction>,
    declared: &Vec<String>,
    assertions: &Vec<(Date, Account, Amount)>,
    pads: &Vec<(Date, Account, Account)>,
) -> (r: CheckReport)
    requires
        all_resolve_fit(txns@),
        assertions_fit(txns@, assertions@),
    ensures
        r.transactions_checked == txns@.len(),
        crate::model::strings_view(r.imbalances@) == imbalance_texts(txns@),
        crate::model::strings_view(r.undeclared_accounts@) == undeclared_of(txns@, crate::model::strings_view(declared@)),
        crate::model::strings_view(r.failed_assertions@) == failed_texts(txns@, pads@, assertions@),
{
    let ghost ts = txns@;
    let ghost dv = crate::model::strings_view(declared@);
    let mut report = CheckReport::default();
    report.transactions_checked = txns.len();
    let mut undeclared: Vec<String> = Vec::new();
    let mut i: usize = 0;
    assert(ts.take(0) =~= Seq::<crate::model::Transaction>::empty());
    assert(crate::model::strings_view(report.imbalances@) =~= Seq::<Seq<char>>::empty());
    assert(crate::model::strings_view(undeclared@) =~= Seq::<Seq<char>>::empty());
    while i < txns.len()
        invariant
            i <= txns.len(),
            ts == txns@,
            dv == crate::model::strings_view(declared@),
            all_resolve_fit(ts),
            report.transactions_checked == ts.len(),
            report.failed_assertions@.len() == 0,
            crate::model::strings_view(report.imbalances@) == imbalance_texts(ts.take(i as int)),
            crate::model::strings_view(undeclared@) == undeclared_of(ts.take(i as int), dv),
        decreases txns.len() - i,
    {
        let t = &txns[i];
        assert(ts.take(i + 1).drop_last() =~= ts.take(i as int));
        assert(ts.take(i + 1).last() == ts[i as int]);
        assert(crate::model::resolve_fits(ts[i as int].postings@));
        match t.resolve_postings() {
            Err(imb) => {
                let text = imb.to_string();
                let ghost before = crate::model::strings_view(report.imbalances@);
                report.imbalances.push(text);
                assert(crate::model::strings_view(report.imbalances@) =~= before.push(text@));
            },
            Ok(_) => {},
        }
        add_undeclared_exec(&mut undeclared, t, declared);
        i += 1;
    }
    assert(ts.take(txns.len() as int) =~= ts);
    report.undeclared_accounts = undeclared;
    let mut k: usize = 0;
    assert(assertions@.take(0) =~= Seq::<(Date, Account, Amount)>::empty());
    assert(crate::model::strings_view(report.failed_assertions@) =~= Seq::<Seq<char>>::empty());
    while k < assertions.len()
        invariant
            k <= assertions.len(),
            ts == txns@,
            assertions_fit(ts, assertions@),
            crate::model::strings_view(report.failed_assertions@) == failed_texts(ts, pads@, assertions@.take(k as int)),
            report.transactions_checked == ts.len(),
            crate::model::strings_view(report.imbalances@) == imbalance_texts(ts),
            crate::model::strings_view(report.undeclared_accounts@) == undeclared_of(ts, crate::model::strings_view(declared@)),
        decreases assertions.len() - k,
    {
        let a = &assertions[k];
        assert(assertions@.take(k + 1).drop_last() =~= assertions@.take(k as int));
        assert(assertions@.take(k + 1).last() == assertions@[k as int]);
        assert(sum_fits(assertion_amounts(ts, assertions@[k as int])));
        let covered = is_padded(pads, a);
        let got = assertion_sum(txns, a);
        if !covered && !got.value_eq(&a.2.number) {
            let text = failed_message(a, &got);
            let ghost before = crate::model::strings_view(report.failed_assertions@);
            report.failed_assertions.push(text);
            assert(crate::model::strings_view(report.failed_assertions@) =~= before.push(text@));
        }
        k += 1;
    }
    assert(assertions@.take(assertions.len() as int) =~= assertions@);
    report
}


} // verus!
