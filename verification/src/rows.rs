//! The working store keeps each record as text columns; these turn the
//! columns of a stored row back into the model, the way the store reads
//! them, the lists it keeps in one column into and out of text, and
//! metadata into and out of a JSON object.

use std::collections::BTreeMap;

use vstd::prelude::*;

use crate::date::{iso_result, Date};
use crate::decimal::{number_parse, Decimal, DecimalValue};
use crate::error::JamaError;
use crate::export::Declaration;
use crate::model::{
    account_parse, meta_insert, opt_string, strings_view, valid_account, Account, Amount, CostOrPrice, Flag, Meta,
    Posting, Transaction,
};
use crate::text::{chars_of, join, split_char, string_of};

verus! {

/// A list column: empty text is no items, otherwise the comma-separated
/// pieces.
pub open spec fn list_items(s: Seq<char>) -> Seq<Seq<char>> {
    if s.len() == 0 {
        Seq::empty()
    } else {
        split_char(s, ',')
    }
}

/// Reads a list column (tags, links, currencies).
pub fn split_list(s: &str) -> (r: Vec<String>)
    ensures
        strings_view(r@) == list_items(s@),
{
    let v = chars_of(s);
    let mut out: Vec<String> = Vec::new();
    if v.len() == 0 {
        assert(strings_view(out@) =~= list_items(s@));
        return out;
    }
    let pieces = crate::text::split_chars(&v, ',');
    let mut i: usize = 0;
    while i < pieces.len()
        invariant
            i <= pieces@.len(),
            v@ == s@,
            v@.len() > 0,
            pieces@.len() == split_char(v@, ',').len(),
            forall|k: int| 0 <= k < pieces@.len() ==> #[trigger] pieces@[k]@ == split_char(v@, ',')[k],
            strings_view(out@) =~= split_char(v@, ',').take(i as int),
        decreases pieces@.len() - i,
    {
        let ghost before = strings_view(out@);
        let piece = string_of(&pieces[i]);
        out.push(piece);
        assert(strings_view(out@) =~= before.push(piece@));
        assert(split_char(v@, ',').take(i + 1) =~= split_char(v@, ',').take(i as int).push(split_char(v@, ',')[i as int]));
        assert(strings_view(out@) =~= split_char(v@, ',').take(i + 1));
        i += 1;
    }
    assert(split_char(v@, ',').take(pieces@.len() as int) =~= split_char(v@, ','));
    out
}

/// Writes a list column.
pub fn join_list(items: &Vec<String>) -> (r: String)
    ensures
        r@ == join(strings_view(items@), ","@),
{
    let mut pieces: Vec<Vec<char>> = Vec::new();
    let mut i: usize = 0;
    while i < items.len()
        invariant
            i <= items@.len(),
            pieces@.len() == i,
            forall|k: int| 0 <= k < i ==> #[trigger] pieces@[k]@ == items@[k]@,
        decreases items@.len() - i,
    {
        pieces.push(chars_of(items[i].as_str()));
        i += 1;
    }
    assert(crate::text::pieces_view(pieces@) =~= strings_view(items@));
    let j = crate::text::join_chars(&pieces, ",");
    string_of(&j)
}

/// The flag column read back: its first character's flag, cleared when
/// the column is empty or the character is not a flag.
pub open spec fn stored_flag(s: Seq<char>) -> Flag {
    if s.len() > 0 && s[0] == '!' {
        Flag::Pending
    } else {
        Flag::Cleared
    }
}

// -- the metadata column ----------------------------------------------------

/// Key/value pairs as plain values.
pub open spec fn pairs_view(v: Seq<(String, String)>) -> Seq<(Seq<char>, Seq<char>)> {
    v.map_values(|e: (String, String)| (e.0@, e.1@))
}

/// What `serde_json::to_string` writes for the string map holding these
/// entries, or `None` where it reports an error.
pub uninterp spec fn json_map_text(entries: Seq<(Seq<char>, Seq<char>)>) -> Option<Seq<char>>;

/// The entries, in key order, of the string map `serde_json::from_str`
/// reads from `s`, or `None` where it reports an error.
pub uninterp spec fn json_map_entries(s: Seq<char>) -> Option<Seq<(Seq<char>, Seq<char>)>>;

/// Calls `serde_json::to_string` on the `BTreeMap<String, String>` of
/// `entries`; claims only that the outcome is [`json_map_text`] of them.
#[verifier::external_body]
fn json_map_to_string(entries: &Vec<(String, String)>) -> (r: Option<String>)
    ensures
        match r {
            Some(t) => json_map_text(pairs_view(entries@)) == Some(t@),
            None => json_map_text(pairs_view(entries@)) is None,
        },
{
    let map: BTreeMap<String, String> = entries.iter().cloned().collect();
    match serde_json::to_string(&map) {
        Ok(t) => Some(t),
        Err(_) => None,
    }
}

/// Calls `serde_json::from_str` for a `BTreeMap<String, String>` and hands
/// back its entries in key order; claims only that the outcome is
/// [`json_map_entries`] of the text.
#[verifier::external_body]
fn json_map_from_str(s: &str) -> (r: Option<Vec<(String, String)>>)
    ensures
        match r {
            Some(v) => json_map_entries(s@) == Some(pairs_view(v@)),
            None => json_map_entries(s@) is None,
        },
{
    match serde_json::from_str::<BTreeMap<String, String>>(s) {
        Ok(m) => Some(m.into_iter().collect()),
        Err(_) => None,
    }
}

/// The metadata column as written: the JSON object of the entries, or
/// `{}` where serializing fails.
pub open spec fn meta_column(m: Seq<(Seq<char>, Seq<char>)>) -> Seq<char> {
    match json_map_text(m) {
        Some(t) => t,
        None => "{}"@,
    }
}

/// Metadata built by inserting `es` in turn into none.
pub open spec fn meta_of(es: Seq<(Seq<char>, Seq<char>)>) -> Seq<(Seq<char>, Seq<char>)>
    decreases es.len(),
{
    if es.len() == 0 {
        Seq::empty()
    } else {
        meta_insert(meta_of(es.drop_last()), es.last().0, es.last().1)
    }
}

/// The metadata column read back: the entries of the JSON object, none
/// where the text is not one.
pub open spec fn stored_meta(s: Seq<char>) -> Seq<(Seq<char>, Seq<char>)> {
    match json_map_entries(s) {
        Some(es) => meta_of(es),
        None => Seq::empty(),
    }
}

/// Writes the metadata column.
pub fn meta_json(m: &Meta) -> (r: String)
    ensures
        r@ == meta_column(m@),
{
    let mut entries: Vec<(String, String)> = Vec::new();
    let mut i: usize = 0;
    while i < m.len()
        invariant
            i <= m@.len(),
            entries@.len() == i,
            forall|k: int| 0 <= k < i ==> (#[trigger] entries@[k]).0@ == m@[k].0 && entries@[k].1@ == m@[k].1,
        decreases m@.len() - i,
    {
        let (k, v) = m.entry(i);
        entries.push((k.clone(), v.clone()));
        i += 1;
    }
    assert(pairs_view(entries@) =~= m@);
    match json_map_to_string(&entries) {
        Some(t) => t,
        None => {
            proof {
                reveal_strlit("{}");
            }
            String::from_str("{}")
        },
    }
}

/// Reads the metadata column back.
pub fn meta_from_json(s: &str) -> (r: Meta)
    ensures
        r@ == stored_meta(s@),
{
    let mut m = Meta::new();
    match json_map_from_str(s) {
        Some(entries) => {
            let ghost ev = pairs_view(entries@);
            let mut i: usize = 0;
            assert(ev.take(0) =~= Seq::<(Seq<char>, Seq<char>)>::empty());
            while i < entries.len()
                invariant
                    i <= entries.len(),
                    ev == pairs_view(entries@),
                    m@ == meta_of(ev.take(i as int)),
                decreases entries.len() - i,
            {
                assert(ev.take(i + 1).drop_last() =~= ev.take(i as int));
                assert(ev.take(i + 1).last() == ev[i as int]);
                m.insert(entries[i].0.clone(), entries[i].1.clone());
                i += 1;
            }
            assert(ev.take(entries.len() as int) =~= ev);
            m
        },
        None => m,
    }
}

/// The flag column read back (see [`stored_flag`]).
pub fn flag_from_column(flag: &str) -> (r: Flag)
    ensures
        r == stored_flag(flag@),
{
    let fc = chars_of(flag);
    let c = if fc.len() > 0 { fc[0] } else { '*' };
    match Flag::parse(c) {
        Ok(f) => f,
        Err(_) => Flag::Cleared,
    }
}

/// A transaction's row read back (its postings come separately). A date
/// that does not read as `YYYY-MM-DD` becomes today's.
pub fn transaction_from_row(
    id: i64,
    date: &str,
    flag: &str,
    payee: Option<String>,
    narration: String,
    tags: &str,
    links: &str,
    meta: Meta,
) -> (r: Transaction)
    ensures
        r.id == Some(id),
        iso_result(date@) matches Ok(d) ==> r.date.ymd() == d,
        r.flag == stored_flag(flag@),
        opt_string(r.payee) == opt_string(payee),
        r.narration@ == narration@,
        strings_view(r.tags@) == list_items(tags@),
        strings_view(r.links@) == list_items(links@),
        r.postings@.len() == 0,
        r.meta@ == meta@,
{
    let d = match Date::parse_iso(date) {
        Ok(d) => d,
        Err(_) => Date::today(),
    };
    let f = flag_from_column(flag);
    let mut t = Transaction::new(d, narration);
    t.id = Some(id);
    t.flag = f;
    t.payee = payee;
    t.tags = split_list(tags);
    t.links = split_list(links);
    t.meta = meta;
    t
}

/// The account a posting with an unreadable account is filed under.
pub open spec fn unknown_account() -> Seq<char> {
    "expenses:unknown"@
}

fn unknown() -> (r: Account)
    ensures
        r@ == unknown_account(),
{
    proof {
        reveal_strlit("expenses");
        reveal_strlit("unknown");
        reveal_strlit("expenses:unknown");
        assert(crate::model::roots()[4] == "expenses"@);
        assert("expenses:unknown"@ =~= "expenses"@ + seq![':'] + "unknown"@);
        assert(crate::testkit::lower_word("unknown"@));
        crate::testkit::lemma_simple_account("expenses"@, "unknown"@);
    }
    Account::parse("expenses:unknown").unwrap()
}

/// A stored number read back, zero when it does not parse.
pub open spec fn stored_number(s: Seq<char>) -> DecimalValue {
    match number_parse(s) {
        Ok(t) => DecimalValue { negative: t.0, magnitude: t.1 as nat, scale: t.2 as nat },
        Err(_) => DecimalValue { negative: false, magnitude: 0, scale: 0 },
    }
}

fn number_or_zero(s: &str) -> (r: Decimal)
    ensures
        r@ == stored_number(s@),
{
    match Decimal::parse(s) {
        Ok(d) => d,
        Err(_) => Decimal::zero(),
    }
}

/// A posting's row read back: an unreadable account is filed under
/// [`unknown_account`], an unreadable number is zero, and a cost or price
/// is there only when all three of its columns are.
pub fn posting_from_row(
    account: &str,
    number: &str,
    commodity: String,
    cost_number: Option<String>,
    cost_commodity: Option<String>,
    is_cost: Option<i64>,
) -> (r: Posting)
    ensures
        r.account@ == (match account_parse(account@) {
            Ok(a) => a,
            Err(_) => unknown_account(),
        }),
        r.amount matches Some(a) && a.number@ == stored_number(number@) && a.commodity@ == commodity@,
        match (cost_number, cost_commodity, is_cost) {
            (Some(n), Some(c), Some(flag)) => r.cost_or_price matches Some(cp) && cp.amount.number@
                == stored_number(n@) && cp.amount.commodity@ == c@ && cp.is_cost == (flag != 0),
            _ => r.cost_or_price is None,
        },
        r.meta@.len() == 0,
{
    let acct = match Account::parse(account) {
        Ok(a) => a,
        Err(_) => unknown(),
    };
    let amount = Amount::new(number_or_zero(number), commodity);
    let cost_or_price = match (cost_number, cost_commodity, is_cost) {
        (Some(n), Some(c), Some(flag)) => Some(
            CostOrPrice { amount: Amount::new(number_or_zero(n.as_str()), c), is_cost: flag != 0 },
        ),
        _ => None,
    };
    Posting { account: acct, amount: Some(amount), cost_or_price, meta: Meta::new() }
}

fn date_column(s: &str) -> (r: Result<Date, JamaError>)
    ensures
        match (r, iso_result(s@)) {
            (Ok(d), Ok(f)) => d.ymd() == f,
            (Err(e), Err(m)) => e matches JamaError::Store(msg) && msg@ == m,
            _ => false,
        },
{
    match Date::parse_iso(s) {
        Ok(d) => Ok(d),
        Err(e) => Err(JamaError::Store(e)),
    }
}

fn account_column(s: &str) -> (r: Result<Account, JamaError>)
    ensures
        match (r, account_parse(s@)) {
            (Ok(a), Ok(t)) => a@ == t,
            (Err(e), Err(m)) => e matches JamaError::Store(msg) && msg@ == m,
            _ => false,
        },
{
    match Account::parse(s) {
        Ok(a) => Ok(a),
        Err(e) => Err(JamaError::Store(e)),
    }
}

/// An account declaration's row read back: its name, opening date,
/// closing date if any, and currencies; or the store error for the first
/// column that does not read.
pub fn declaration_from_row(
    name: &str,
    opened: &str,
    closed: Option<String>,
    currencies: &str,
) -> (r: Result<Declaration, JamaError>)
    ensures
        r is Ok <==> (account_parse(name@) is Ok && iso_result(opened@) is Ok && (closed matches Some(c) ==> iso_result(
            c@,
        ) is Ok)),
        r matches Ok(d) ==> (account_parse(name@) == Ok::<Seq<char>, Seq<char>>(d.0@) && iso_result(opened@)
            == Ok::<(int, int, int), Seq<char>>(d.1.ymd()) && (match (closed, d.2) {
            (Some(c), Some(cd)) => iso_result(c@) == Ok::<(int, int, int), Seq<char>>(cd.ymd()),
            (None, None) => true,
            _ => false,
        }) && strings_view(d.3@) == list_items(currencies@)),
        r matches Err(e) ==> e matches JamaError::Store(msg) && (match account_parse(name@) {
            Err(m) => msg@ == m,
            Ok(_) => match iso_result(opened@) {
                Err(m) => msg@ == m,
                Ok(_) => closed matches Some(c) && iso_result(c@) == Err::<(int, int, int), Seq<char>>(msg@),
            },
        }),
{
    let account = match account_column(name) {
        Ok(a) => a,
        Err(e) => return Err(e),
    };
    let opened_on = match date_column(opened) {
        Ok(d) => d,
        Err(e) => return Err(e),
    };
    let closed_on = match closed {
        Some(c) => match date_column(c.as_str()) {
            Ok(d) => Some(d),
            Err(e) => return Err(e),
        },
        None => None,
    };
    Ok((account, opened_on, closed_on, split_list(currencies)))
}

/// A balance assertion's row read back, or the store error for the first
/// column that does not read.
pub fn assertion_from_row(date: &str, account: &str, number: &str, commodity: String) -> (r: Result<
    (Date, Account, Amount),
    JamaError,
>)
    ensures
        r is Ok <==> (iso_result(date@) is Ok && account_parse(account@) is Ok && number_parse(number@) is Ok),
        r matches Ok(x) ==> iso_result(date@) == Ok::<(int, int, int), Seq<char>>(x.0.ymd()) && account_parse(account@)
            == Ok::<Seq<char>, Seq<char>>(x.1@) && x.2.number@ == stored_number(number@) && x.2.commodity@
            == commodity@,
        r matches Err(e) ==> e matches JamaError::Store(msg) && (match iso_result(date@) {
            Err(m) => msg@ == m,
            Ok(_) => match account_parse(account@) {
                Err(m) => msg@ == m,
                Ok(_) => number_parse(number@) == Err::<(bool, int, int), Seq<char>>(msg@),
            },
        }),
{
    let d = match date_column(date) {
        Ok(d) => d,
        Err(e) => return Err(e),
    };
    let a = match account_column(account) {
        Ok(a) => a,
        Err(e) => return Err(e),
    };
    let n = match Decimal::parse(number) {
        Ok(n) => n,
        Err(e) => return Err(JamaError::Store(e)),
    };
    Ok((d, a, Amount::new(n, commodity)))
}

/// A pad's row read back, or the store error for the first column that
/// does not read.
pub fn pad_from_row(date: &str, account: &str, source: &str) -> (r: Result<(Date, Account, Account), JamaError>)
    ensures
        r is Ok <==> (iso_result(date@) is Ok && account_parse(account@) is Ok && account_parse(source@) is Ok),
        r matches Ok(x) ==> iso_result(date@) == Ok::<(int, int, int), Seq<char>>(x.0.ymd()) && account_parse(account@)
            == Ok::<Seq<char>, Seq<char>>(x.1@) && account_parse(source@) == Ok::<Seq<char>, Seq<char>>(x.2@),
        r matches Err(e) ==> e matches JamaError::Store(msg) && (match iso_result(date@) {
            Err(m) => msg@ == m,
            Ok(_) => match account_parse(account@) {
                Err(m) => msg@ == m,
                Ok(_) => account_parse(source@) == Err::<Seq<char>, Seq<char>>(msg@),
            },
        }),
{
    let d = match date_column(date) {
        Ok(d) => d,
        Err(e) => return Err(e),
    };
    let a = match account_column(account) {
        Ok(a) => a,
        Err(e) => return Err(e),
    };
    let s = match account_column(source) {
        Ok(s) => s,
        Err(e) => return Err(e),
    };
    Ok((d, a, s))
}

} // verus!
