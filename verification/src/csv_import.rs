//! CSV bank-statement import: a rules file maps raw rows to postings,
//! idempotently (re-importing the same file skips rows already seen), and
//! matches rows against a tiny condition DSL.
//!
//! `~` matching is a *lite* regex: only literal alternation (`a|b|c`),
//! optionally case-insensitive with the `i` flag — enough for
//! keyword-matching bank descriptions.

use vstd::prelude::*;

use crate::date::{date_text, Date};
use crate::decimal::{number_parse, decimal_text, Decimal, DecimalValue};
use crate::error::JamaError;
use crate::model::{meta_get, Account, Amount, Flag, Meta, Posting, Transaction};
use crate::text::{
    append_chars, append_str, chars_of, contains_seq, debug_chars, debug_text, lowercase, split_char,
    string_of,
};

verus! {

// -- the dedupe key --------------------------------------------------------

/// FNV-1a (64-bit) of the bytes: start from the offset basis and, for each
/// byte, xor it in and multiply by the prime, wrapping.
pub open spec fn fnv(bytes: Seq<u8>) -> u64
    decreases bytes.len(),
{
    if bytes.len() == 0 {
        0xcbf29ce484222325u64
    } else {
        (fnv(bytes.drop_last()) ^ (bytes.last() as u64)).wrapping_mul(0x100000001b3u64)
    }
}

/// FNV-1a, 64-bit.
pub fn fnv1a64(bytes: &[u8]) -> (r: u64)
    ensures
        r == fnv(bytes@),
{
    let mut hash: u64 = 0xcbf29ce484222325;
    let mut i: usize = 0;
    assert(bytes@.take(0) =~= Seq::<u8>::empty());
    while i < bytes.len()
        invariant
            i <= bytes@.len(),
            hash == fnv(bytes@.take(i as int)),
        decreases bytes@.len() - i,
    {
        let b = bytes[i];
        assert(bytes@.take(i + 1).drop_last() =~= bytes@.take(i as int));
        hash = hash ^ (b as u64);
        hash = hash.wrapping_mul(0x100000001b3);
        i += 1;
    }
    assert(bytes@.take(bytes@.len() as int) =~= bytes@);
    hash
}

/// A lowercase hexadecimal digit.
pub open spec fn hex_char(d: nat) -> char {
    if d < 10 {
        (d + 48) as char
    } else {
        (d + 87) as char
    }
}

/// The last `k` hexadecimal digits of `n`, zero-padded.
pub open spec fn hex_of(n: nat, k: nat) -> Seq<char>
    decreases k,
{
    if k == 0 {
        Seq::empty()
    } else {
        hex_of(n / 16, (k - 1) as nat).push(hex_char(n % 16))
    }
}

fn hex_digit(d: u64) -> (c: char)
    requires
        d < 16,
    ensures
        c == hex_char(d as nat),
{
    let cs: [char; 16] = ['0', '1', '2', '3', '4', '5', '6', '7', '8', '9', 'a', 'b', 'c', 'd', 'e', 'f'];
    let c = cs[d as usize];
    assert(c == hex_char(d as nat)) by {
        assert(cs@ == seq!['0', '1', '2', '3', '4', '5', '6', '7', '8', '9', 'a', 'b', 'c', 'd', 'e', 'f']);
    }
    c
}

/// `format!("{:0k$x}", n)` for `n < 16^k`.
fn hex_exec(n: u64, k: usize) -> (r: Vec<char>)
    ensures
        r@ == hex_of(n as nat, k as nat),
    decreases k,
{
    if k == 0 {
        return Vec::new();
    }
    let mut v = hex_exec(n / 16, k - 1);
    v.push(hex_digit(n % 16));
    v
}

/// `{date}|{amount}|{payee}|{source_file}`.
pub open spec fn dedupe_text(date: Date, amount: DecimalValue, payee: Seq<char>, file: Seq<char>) -> Seq<char> {
    date_text(date) + seq!['|'] + decimal_text(amount) + seq!['|'] + payee + seq!['|'] + file
}

/// The dedupe key: FNV-1a of the UTF-8 bytes of [`dedupe_text`], as 16 hex
/// digits.
pub open spec fn dedupe_hash(date: Date, amount: DecimalValue, payee: Seq<char>, file: Seq<char>) -> Seq<char> {
    hex_of(fnv(vstd::utf8::encode_utf8(dedupe_text(date, amount, payee, file))) as nat, 16)
}

/// A stable key for a statement row: same date, amount, payee and file,
/// same key.
pub fn dedupe_key(date: &Date, amount: &Decimal, payee: &str, source_file: &str) -> (r: String)
    ensures
        r@ == dedupe_hash(*date, amount@, payee@, source_file@),
{
    let mut v = date.to_chars();
    v.push('|');
    let a = amount.to_string();
    append_str(&mut v, a.as_str());
    v.push('|');
    append_str(&mut v, payee);
    v.push('|');
    append_str(&mut v, source_file);
    assert(v@ =~= dedupe_text(*date, amount@, payee@, source_file@));
    let combined = string_of(&v);
    let bytes = combined.as_str().as_bytes();
    assert(bytes@ == vstd::utf8::encode_utf8(v@));
    let h = fnv1a64(bytes);
    let hex = hex_exec(h, 16);
    string_of(&hex)
}

// -- numbers ---------------------------------------------------------------

/// A character kept from a number field: ASCII digits, `.`, `-`, `+`.
pub open spec fn number_char(c: char) -> bool {
    ('0' <= c <= '9') || c == '.' || c == '-' || c == '+'
}

/// The kept characters, in order.
pub open spec fn number_chars(s: Seq<char>) -> Seq<char>
    decreases s.len(),
{
    if s.len() == 0 {
        Seq::empty()
    } else if number_char(s.last()) {
        number_chars(s.drop_last()).push(s.last())
    } else {
        number_chars(s.drop_last())
    }
}

/// What cleaning a number field yields: its kept characters parsed as a
/// decimal, or the parse error's message.
pub open spec fn clean_result(s: Seq<char>) -> Result<DecimalValue, Seq<char>> {
    match number_parse(number_chars(s)) {
        Ok(t) => Ok(DecimalValue { negative: t.0, magnitude: t.1 as nat, scale: t.2 as nat }),
        Err(e) => Err(e),
    }
}

/// Parses a statement number, ignoring everything but digits, `.`, `-`
/// and `+` (currency signs, thousands separators, spaces).
pub fn clean_number(s: &str) -> (r: Result<Decimal, String>)
    ensures
        match (r, clean_result(s@)) {
            (Ok(d), Ok(v)) => d@ == v,
            (Err(e), Err(m)) => e@ == m,
            _ => false,
        },
{
    let v = chars_of(s);
    let mut kept: Vec<char> = Vec::new();
    let mut i: usize = 0;
    assert(v@.take(0) =~= Seq::<char>::empty());
    while i < v.len()
        invariant
            i <= v.len(),
            kept@ == number_chars(v@.take(i as int)),
        decreases v.len() - i,
    {
        let c = v[i];
        assert(v@.take(i + 1).drop_last() =~= v@.take(i as int));
        if ('0' <= c && c <= '9') || c == '.' || c == '-' || c == '+' {
            kept.push(c);
        }
        i += 1;
    }
    assert(v@.take(v.len() as int) =~= v@);
    let ks = string_of(&kept);
    Decimal::parse(ks.as_str())
}

// -- rows --------------------------------------------------------------------

/// One parsed statement row, with the fields the rules DSL can reference.
#[derive(Debug)]
pub struct CsvRow {
    pub date: Date,
    pub amount: Decimal,
    pub payee: String,
    pub raw: Meta,
    pub dedupe_hash: String,
}

impl Clone for CsvRow {
    fn clone(&self) -> (r: Self)
        ensures
            r.date == self.date,
            r.amount == self.amount,
            r.payee == self.payee,
            r.raw@ == self.raw@,
            r.dedupe_hash == self.dedupe_hash,
    {
        CsvRow {
            date: self.date,
            amount: self.amount,
            payee: self.payee.clone(),
            raw: self.raw.clone(),
            dedupe_hash: self.dedupe_hash.clone(),
        }
    }
}

/// A row's text field: `payee` (also `narration`, `description`), `date`,
/// or any raw column by its header.
pub open spec fn row_field_str(row: CsvRow, field: Seq<char>) -> Option<Seq<char>> {
    if field == "payee"@ || field == "narration"@ || field == "description"@ {
        Some(row.payee@)
    } else if field == "date"@ {
        Some(date_text(row.date))
    } else {
        meta_get(row.raw@, field)
    }
}

/// A row's number field: `amount`, or a raw column that cleans to a
/// number.
pub open spec fn row_field_number(row: CsvRow, field: Seq<char>) -> Option<DecimalValue> {
    if field == "amount"@ {
        Some(row.amount@)
    } else {
        match meta_get(row.raw@, field) {
            Some(s) => match clean_result(s) {
                Ok(v) => Some(v),
                Err(_) => None,
            },
            None => None,
        }
    }
}

impl CsvRow {
    pub fn field_str(&self, field: &str) -> (r: Option<String>)
        ensures
            match (r, row_field_str(*self, field@)) {
                (Some(s), Some(t)) => s@ == t,
                (None, None) => true,
                _ => false,
            },
    {
        let f = chars_of(field);
        if crate::text::chars_eq_str(&f, "payee") || crate::text::chars_eq_str(&f, "narration")
            || crate::text::chars_eq_str(&f, "description") {
            Some(self.payee.clone())
        } else if crate::text::chars_eq_str(&f, "date") {
            Some(self.date.to_string())
        } else {
            match self.raw.get(field) {
                Some(v) => Some(v.clone()),
                None => None,
            }
        }
    }

    pub fn field_number(&self, field: &str) -> (r: Option<Decimal>)
        ensures
            match (r, row_field_number(*self, field@)) {
                (Some(d), Some(v)) => d@ == v,
                (None, None) => true,
                _ => false,
            },
    {
        let f = chars_of(field);
        if crate::text::chars_eq_str(&f, "amount") {
            Some(self.amount)
        } else {
            match self.raw.get(field) {
                Some(v) => match clean_number(v.as_str()) {
                    Ok(d) => Some(d),
                    Err(_) => None,
                },
                None => None,
            }
        }
    }
}

// -- the condition DSL -------------------------------------------------------

/// A comparison's right-hand side.
#[derive(Debug)]
pub enum CondValue {
    /// Literal alternatives, and whether matching ignores case.
    Regex(Vec<String>, bool),
    Number(Decimal),
    Str(String),
}

#[derive(Debug, Clone, Copy, PartialEq, Eq, Structural)]
pub enum CondOp {
    Match,
    Lt,
    Gt,
    Le,
    Ge,
    Eq,
    Ne,
}

/// `field op value`.
#[derive(Debug)]
pub struct Term {
    pub field: String,
    pub op: CondOp,
    pub value: CondValue,
}

#[derive(Debug, Clone, Copy, PartialEq, Eq, Structural)]
pub enum LogicOp {
    And,
    Or,
}

/// Terms combined left to right with `and`/`or` (no precedence).
#[derive(Debug)]
pub struct Cond {
    pub first: Term,
    pub rest: Vec<(LogicOp, Term)>,
}

/// A comparison's right-hand side as plain values.
pub enum CondValueView {
    Regex(Seq<Seq<char>>, bool),
    Number(DecimalValue),
    Str(Seq<char>),
}

/// A term as plain values.
pub struct TermView {
    pub field: Seq<char>,
    pub op: CondOp,
    pub value: CondValueView,
}

pub open spec fn value_view(v: CondValue) -> CondValueView {
    match v {
        CondValue::Regex(alts, ci) => CondValueView::Regex(crate::model::strings_view(alts@), ci),
        CondValue::Number(n) => CondValueView::Number(n@),
        CondValue::Str(s) => CondValueView::Str(s@),
    }
}

pub open spec fn term_view(t: Term) -> TermView {
    TermView { field: t.field@, op: t.op, value: value_view(t.value) }
}

/// A condition as plain values.
pub open spec fn cond_view(c: Cond) -> (TermView, Seq<(LogicOp, TermView)>) {
    (term_view(c.first), c.rest@.map_values(|e: (LogicOp, Term)| (e.0, term_view(e.1))))
}

/// One alternative occurs in the haystack (both lowercased when `ci`).
pub open spec fn regex_hit(hay: Seq<char>, alts: Seq<Seq<char>>, ci: bool) -> bool {
    exists|k: int|
        0 <= k < alts.len() && contains_seq(
            if ci { lowercase(hay) } else { hay },
            if ci { lowercase(#[trigger] alts[k]) } else { alts[k] },
        )
}

/// Whether a term holds of a row. A number or string comparison against
/// a field the row lacks does not hold; a regex against a missing field
/// searches the empty text.
pub open spec fn term_holds(t: TermView, row: CsvRow) -> bool {
    match t.value {
        CondValueView::Regex(alts, ci) => regex_hit(
            match row_field_str(row, t.field) {
                Some(h) => h,
                None => Seq::empty(),
            },
            alts,
            ci,
        ),
        CondValueView::Number(n) => match row_field_number(row, t.field) {
            None => false,
            Some(f) => match t.op {
                CondOp::Lt => f.less_than(n),
                CondOp::Gt => n.less_than(f),
                CondOp::Le => !n.less_than(f),
                CondOp::Ge => !f.less_than(n),
                CondOp::Eq => f.same_value(n),
                CondOp::Ne => !f.same_value(n),
                CondOp::Match => false,
            },
        },
        CondValueView::Str(s) => match row_field_str(row, t.field) {
            None => false,
            Some(f) => match t.op {
                CondOp::Eq => f == s,
                CondOp::Ne => f != s,
                _ => false,
            },
        },
    }
}

/// Folds the terms left to right.
pub open spec fn cond_fold(first: bool, rest: Seq<(LogicOp, TermView)>, row: CsvRow) -> bool
    decreases rest.len(),
{
    if rest.len() == 0 {
        first
    } else {
        let acc = cond_fold(first, rest.drop_last(), row);
        let v = term_holds(rest.last().1, row);
        match rest.last().0 {
            LogicOp::And => acc && v,
            LogicOp::Or => acc || v,
        }
    }
}

/// Whether a condition holds of a row.
pub open spec fn cond_holds(c: (TermView, Seq<(LogicOp, TermView)>), row: CsvRow) -> bool {
    cond_fold(term_holds(c.0, row), c.1, row)
}

fn lower_if(s: &str, ci: bool) -> (r: Vec<char>)
    ensures
        r@ == (if ci { lowercase(s@) } else { s@ }),
{
    if ci {
        let l = crate::text::to_lowercase(s);
        chars_of(l.as_str())
    } else {
        chars_of(s)
    }
}

fn regex_hit_exec(hay_s: &str, alts: &Vec<String>, ci: bool) -> (r: bool)
    ensures
        r == regex_hit(hay_s@, crate::model::strings_view(alts@), ci),
{
    let hay = lower_if(hay_s, ci);
    let ghost av = crate::model::strings_view(alts@);
    let mut k: usize = 0;
    while k < alts.len()
        invariant
            k <= alts.len(),
            av == crate::model::strings_view(alts@),
            hay@ == (if ci { lowercase(hay_s@) } else { hay_s@ }),
            forall|j: int| 0 <= j < k ==> !contains_seq(hay@, if ci { lowercase(#[trigger] av[j]) } else { av[j] }),
        decreases alts.len() - k,
    {
        let needle = lower_if(alts[k].as_str(), ci);
        assert(av[k as int] == alts@[k as int]@);
        if crate::text::chars_contains(&hay, &needle) {
            assert(contains_seq(hay@, if ci { lowercase(av[k as int]) } else { av[k as int] }));
            return true;
        }
        k += 1;
    }
    false
}

impl Term {
    pub fn eval(&self, row: &CsvRow) -> (r: bool)
        ensures
            r == term_holds(term_view(*self), *row),
    {
        match &self.value {
            CondValue::Regex(alts, ci) => {
                let hay_s = match row.field_str(self.field.as_str()) {
                    Some(h) => h,
                    None => String::new(),
                };
                regex_hit_exec(hay_s.as_str(), alts, *ci)
            },
            CondValue::Number(n) => {
                let f = match row.field_number(self.field.as_str()) {
                    Some(f) => f,
                    None => {
                        return false;
                    },
                };
                match self.op {
                    CondOp::Lt => f.lt(n),
                    CondOp::Gt => n.lt(&f),
                    CondOp::Le => !n.lt(&f),
                    CondOp::Ge => !f.lt(n),
                    CondOp::Eq => f.value_eq(n),
                    CondOp::Ne => !f.value_eq(n),
                    CondOp::Match => false,
                }
            },
            CondValue::Str(s) => {
                let f = match row.field_str(self.field.as_str()) {
                    Some(f) => f,
                    None => {
                        return false;
                    },
                };
                let fc = chars_of(f.as_str());
                let sc = chars_of(s.as_str());
                match self.op {
                    CondOp::Eq => crate::text::chars_eq(&fc, &sc),
                    CondOp::Ne => !crate::text::chars_eq(&fc, &sc),
                    _ => false,
                }
            },
        }
    }
}

impl Cond {
    /// Evaluates the terms left to right, each combined with the result so
    /// far.
    pub fn eval(&self, row: &CsvRow) -> (r: bool)
        ensures
            r == cond_holds(cond_view(*self), *row),
    {
        let ghost rv = cond_view(*self).1;
        let mut acc = self.first.eval(row);
        let ghost f = acc;
        let mut i: usize = 0;
        assert(rv.take(0) =~= Seq::<(LogicOp, TermView)>::empty());
        while i < self.rest.len()
            invariant
                i <= self.rest.len(),
                rv == cond_view(*self).1,
                f == term_holds(term_view(self.first), *row),
                acc == cond_fold(f, rv.take(i as int), *row),
            decreases self.rest.len() - i,
        {
            let (op, term) = &self.rest[i];
            let v = term.eval(row);
            assert(rv.take(i + 1).drop_last() =~= rv.take(i as int));
            assert(rv.take(i + 1).last() == (*op, term_view(*term)));
            acc = match op {
                LogicOp::And => acc && v,
                LogicOp::Or => acc || v,
            };
            i += 1;
        }
        assert(rv.take(self.rest.len() as int) =~= rv);
        acc
    }
}

// -- parsing conditions --------------------------------------------------------

/// The regex and string flags after scanning a word: a `/` outside a
/// string toggles the regex flag, then a `"` outside a regex toggles the
/// string flag.
pub open spec fn toggles(w: Seq<char>, re: bool, st: bool) -> (bool, bool)
    decreases w.len(),
{
    if w.len() == 0 {
        (re, st)
    } else {
        let (r0, s0) = toggles(w.drop_last(), re, st);
        let c = w.last();
        let r1 = if c == '/' && !s0 { !r0 } else { r0 };
        let s1 = if c == '"' && !r1 { !s0 } else { s0 };
        (r1, s1)
    }
}

/// The state of splitting: chunks so far, the current chunk's text and
/// operator, and whether a regex or a string is open.
pub struct LogicState {
    pub out: Seq<(Seq<char>, Seq<char>)>,
    pub current: Seq<char>,
    pub op: Seq<char>,
    pub re: bool,
    pub st: bool,
}

/// The state after the given words.
pub open spec fn logic_state(words: Seq<Seq<char>>) -> LogicState
    decreases words.len(),
{
    if words.len() == 0 {
        LogicState { out: Seq::empty(), current: Seq::empty(), op: Seq::empty(), re: false, st: false }
    } else {
        let p = logic_state(words.drop_last());
        let w = words.last();
        let (re, st) = toggles(w, p.re, p.st);
        if !re && !st && (w == "and"@ || w == "or"@) {
            LogicState { out: p.out.push((p.op, crate::text::trim(p.current))), current: Seq::empty(), op: w, re, st }
        } else {
            LogicState {
                out: p.out,
                current: if p.current.len() > 0 { p.current.push(' ') + w } else { p.current + w },
                op: p.op,
                re,
                st,
            }
        }
    }
}

/// `a and b or c` as `[("", "a"), ("and", "b"), ("or", "c")]`: split on the
/// whitespace-separated words `and`/`or` outside `/regex/` and `"string"`
/// literals.
pub open spec fn split_logic_result(expr: Seq<char>) -> Seq<(Seq<char>, Seq<char>)> {
    let s = logic_state(crate::text::ws_tokens(expr));
    s.out.push((s.op, crate::text::trim(s.current)))
}

/// The (operator, text) chunks as plain values.
pub open spec fn chunks_view(v: Seq<(String, String)>) -> Seq<(Seq<char>, Seq<char>)> {
    v.map_values(|e: (String, String)| (e.0@, e.1@))
}

fn toggles_exec(w: &Vec<char>, re: bool, st: bool) -> (r: (bool, bool))
    ensures
        r == toggles(w@, re, st),
{
    let mut r = re;
    let mut s = st;
    let mut i: usize = 0;
    assert(w@.take(0) =~= Seq::<char>::empty());
    while i < w.len()
        invariant
            i <= w.len(),
            (r, s) == toggles(w@.take(i as int), re, st),
        decreases w.len() - i,
    {
        let c = w[i];
        assert(w@.take(i + 1).drop_last() =~= w@.take(i as int));
        if c == '/' && !s {
            r = !r;
        }
        if c == '"' && !r {
            s = !s;
        }
        i += 1;
    }
    assert(w@.take(w.len() as int) =~= w@);
    (r, s)
}

/// Splits a condition into `(operator, text)` chunks; see
/// [`split_logic_result`].
pub fn split_logic(expr: &str) -> (r: Vec<(String, String)>)
    ensures
        chunks_view(r@) == split_logic_result(expr@),
{
    let ev = chars_of(expr);
    let words = crate::text::ws_tokens_chars(&ev);
    let ghost wv = crate::text::pieces_view(words@);
    let mut out: Vec<(String, String)> = Vec::new();
    let mut current: Vec<char> = Vec::new();
    let mut current_op: Vec<char> = Vec::new();
    let mut in_regex = false;
    let mut in_string = false;
    let mut i: usize = 0;
    assert(wv.take(0) =~= Seq::<Seq<char>>::empty());
    assert(chunks_view(out@) =~= Seq::<(Seq<char>, Seq<char>)>::empty());
    while i < words.len()
        invariant
            i <= words.len(),
            wv == crate::text::pieces_view(words@),
            wv == crate::text::ws_tokens(expr@),
            chunks_view(out@) == logic_state(wv.take(i as int)).out,
            current@ == logic_state(wv.take(i as int)).current,
            current_op@ == logic_state(wv.take(i as int)).op,
            in_regex == logic_state(wv.take(i as int)).re,
            in_string == logic_state(wv.take(i as int)).st,
        decreases words.len() - i,
    {
        let w = &words[i];
        assert(wv.take(i + 1).drop_last() =~= wv.take(i as int));
        assert(wv.take(i + 1).last() == w@);
        let (r, s) = toggles_exec(w, in_regex, in_string);
        in_regex = r;
        in_string = s;
        if !in_regex && !in_string && (crate::text::chars_eq_str(w, "and") || crate::text::chars_eq_str(w, "or")) {
            let t = crate::text::trim_chars(&current);
            let ghost before = chunks_view(out@);
            out.push((string_of(&current_op), string_of(&t)));
            assert(chunks_view(out@) =~= before.push((current_op@, t@)));
            current_op = crate::text::slice_chars(w, 0, w.len());
            assert(current_op@ =~= w@);
            current = Vec::new();
        } else {
            if current.len() > 0 {
                current.push(' ');
            }
            append_chars(&mut current, w);
        }
        i += 1;
    }
    assert(wv.take(words.len() as int) =~= wv);
    let t = crate::text::trim_chars(&current);
    let ghost before = chunks_view(out@);
    out.push((string_of(&current_op), string_of(&t)));
    assert(chunks_view(out@) =~= before.push((current_op@, t@)));
    out
}

/// The last index of `c` in `s` (`str::rfind`).
pub open spec fn rfind_char(s: Seq<char>, c: char) -> Option<int>
    decreases s.len(),
{
    if s.len() == 0 {
        None
    } else if s.last() == c {
        Some(s.len() - 1)
    } else {
        rfind_char(s.drop_last(), c)
    }
}

fn rfind_exec(s: &Vec<char>, c: char) -> (r: Option<usize>)
    ensures
        match (r, rfind_char(s@, c)) {
            (Some(i), Some(j)) => i == j && i < s@.len(),
            (None, None) => true,
            _ => false,
        },
{
    let mut j: usize = s.len();
    assert(s@.take(j as int) =~= s@);
    while j > 0
        invariant
            j <= s.len(),
            rfind_char(s@, c) == rfind_char(s@.take(j as int), c),
        decreases j,
    {
        assert(s@.take(j as int).last() == s@[j - 1]);
        assert(s@.take(j as int).drop_last() =~= s@.take(j - 1));
        if s[j - 1] == c {
            return Some(j - 1);
        }
        j -= 1;
    }
    None
}

/// What parsing a comparison's right-hand side yields. For `~` a
/// `/alt|alt/flags` regex; otherwise a `"string"`, or a number.
#[verifier::opaque]
pub open spec fn value_result(text: Seq<char>, op: CondOp) -> Result<CondValueView, Seq<char>> {
    if op == CondOp::Match {
        if !(text.len() > 0 && text[0] == '/') {
            Err("regex value must start with /"@)
        } else {
            let rest = text.drop_first();
            match rfind_char(rest, '/') {
                None => Err("regex value must end with /[flags]"@),
                Some(close) => Ok(
                    CondValueView::Regex(split_char(rest.take(close), '|'), rest.skip(close + 1).contains('i')),
                ),
            }
        }
    } else if text.len() >= 2 && text[0] == '"' && text.last() == '"' {
        Ok(CondValueView::Str(text.subrange(1, text.len() - 1)))
    } else {
        match number_parse(text) {
            Ok(t) => Ok(CondValueView::Number(DecimalValue { negative: t.0, magnitude: t.1 as nat, scale: t.2 as nat })),
            Err(e) => Err("bad value "@ + debug_text(text) + ": "@ + e),
        }
    }
}

fn contains_char(s: &Vec<char>, c: char) -> (r: bool)
    ensures
        r == s@.contains(c),
{
    let mut i: usize = 0;
    while i < s.len()
        invariant
            i <= s.len(),
            forall|j: int| 0 <= j < i ==> s@[j] != c,
        decreases s.len() - i,
    {
        if s[i] == c {
            assert(s@[i as int] == c);
            return true;
        }
        i += 1;
    }
    false
}

fn parse_value(text: &Vec<char>, op: CondOp) -> (r: Result<CondValue, String>)
    ensures
        match (r, value_result(text@, op)) {
            (Ok(v), Ok(w)) => value_view(v) == w,
            (Err(e), Err(m)) => e@ == m,
            _ => false,
        },
{
    reveal(value_result);
    if op == CondOp::Match {
        if !(text.len() > 0 && text[0] == '/') {
            return Err(String::from_str("regex value must start with /"));
        }
        let rest = crate::text::slice_chars(text, 1, text.len());
        assert(rest@ =~= text@.drop_first());
        let close = match rfind_exec(&rest, '/') {
            Some(c) => c,
            None => {
                return Err(String::from_str("regex value must end with /[flags]"));
            },
        };
        let pattern = crate::text::slice_chars(&rest, 0, close);
        assert(pattern@ =~= rest@.take(close as int));
        let flags = crate::text::slice_chars(&rest, close + 1, rest.len());
        assert(flags@ =~= rest@.skip(close + 1));
        let pieces = crate::text::split_chars(&pattern, '|');
        let mut alts: Vec<String> = Vec::new();
        let mut i: usize = 0;
        while i < pieces.len()
            invariant
                i <= pieces.len(),
                alts@.len() == i,
                forall|k: int| 0 <= k < i ==> (#[trigger] alts@[k])@ == pieces@[k]@,
            decreases pieces.len() - i,
        {
            alts.push(string_of(&pieces[i]));
            i += 1;
        }
        assert(crate::model::strings_view(alts@) =~= split_char(pattern@, '|'));
        let ci = contains_char(&flags, 'i');
        return Ok(CondValue::Regex(alts, ci));
    }
    if text.len() >= 2 && text[0] == '"' && text[text.len() - 1] == '"' {
        let inner = crate::text::slice_chars(text, 1, text.len() - 1);
        return Ok(CondValue::Str(string_of(&inner)));
    }
    let ts = string_of(text);
    match Decimal::parse(ts.as_str()) {
        Ok(d) => Ok(CondValue::Number(d)),
        Err(e) => {
            let mut m = chars_of("bad value ");
            let q = debug_chars(text);
            append_chars(&mut m, &q);
            append_str(&mut m, ": ");
            append_str(&mut m, e.as_str());
            Err(string_of(&m))
        },
    }
}

/// The comparison operators, in the order they are looked for.
pub open spec fn operators() -> Seq<(Seq<char>, CondOp)> {
    seq![
        ("~"@, CondOp::Match),
        ("<="@, CondOp::Le),
        (">="@, CondOp::Ge),
        ("=="@, CondOp::Eq),
        ("!="@, CondOp::Ne),
        ("<"@, CondOp::Lt),
        (">"@, CondOp::Gt),
    ]
}

/// Parses `text` at the first of `ops` that occurs in it.
pub open spec fn term_at(text: Seq<char>, ops: Seq<(Seq<char>, CondOp)>) -> Result<TermView, Seq<char>>
    decreases ops.len(),
{
    if ops.len() == 0 {
        Err("could not find a comparison operator in "@ + debug_text(text))
    } else {
        match crate::text::find(text, ops[0].0) {
            Some(pos) => match value_result(crate::text::trim(text.skip(pos + ops[0].0.len())), ops[0].1) {
                Ok(v) => Ok(TermView { field: crate::text::trim(text.take(pos)), op: ops[0].1, value: v }),
                Err(e) => Err(e),
            },
            None => term_at(text, ops.drop_first()),
        }
    }
}

/// What parsing one `field op value` term yields.
pub open spec fn term_result(text: Seq<char>) -> Result<TermView, Seq<char>> {
    term_at(crate::text::trim(text), operators())
}

fn operator_split(text: &Vec<char>, op_str: &str) -> (r: Option<(Vec<char>, Vec<char>)>)
    ensures
        match r {
            None => crate::text::find(text@, op_str@) is None,
            Some((field, value_text)) => crate::text::find(text@, op_str@) matches Some(pos)
                && field@ == crate::text::trim(text@.take(pos)) && value_text@ == crate::text::trim(
                text@.skip(pos + op_str@.len()),
            ),
        },
{
    let pat = chars_of(op_str);
    match crate::text::find_chars(text, &pat) {
        None => None,
        Some(pos) => {
            assert(crate::text::occurs_at(text@, pat@, pos as int));
            assert(pos + pat@.len() <= text@.len());
            assert(pat@.len() == pat.len());
            assert(text@.len() == text.len());
            let head = crate::text::slice_chars(text, 0, pos);
            assert(head@ =~= text@.take(pos as int));
            let field = crate::text::trim_chars(&head);
            let tail = crate::text::slice_chars(text, pos + pat.len(), text.len());
            assert(tail@ =~= text@.skip(pos + op_str@.len()));
            let value_text = crate::text::trim_chars(&tail);
            Some((field, value_text))
        },
    }
}

fn try_operator(text: &Vec<char>, op_str: &str, op: CondOp) -> (r: Option<Result<Term, String>>)
    ensures
        match r {
            None => crate::text::find(text@, op_str@) is None,
            Some(res) => crate::text::find(text@, op_str@) matches Some(pos) && match (res, value_result(
                crate::text::trim(text@.skip(pos + op_str@.len())),
                op,
            )) {
                (Ok(t), Ok(v)) => term_view(t) == (TermView { field: crate::text::trim(text@.take(pos)), op, value: v }),
                (Err(e), Err(m)) => e@ == m,
                _ => false,
            },
        },
{
    match operator_split(text, op_str) {
        None => None,
        Some((field, value_text)) => match parse_value(&value_text, op) {
            Ok(value) => Some(Ok(Term { field: string_of(&field), op, value })),
            Err(e) => Some(Err(e)),
        },
    }
}

/// Parses one `field op value` term.
pub fn parse_term(text: &str) -> (r: Result<Term, String>)
    ensures
        match (r, term_result(text@)) {
            (Ok(t), Ok(v)) => term_view(t) == v,
            (Err(e), Err(m)) => e@ == m,
            _ => false,
        },
{
    let raw = chars_of(text);
    let t = crate::text::trim_chars(&raw);
    let ghost ops = operators();
    proof {
        reveal_strlit("~");
        reveal_strlit("<=");
        reveal_strlit(">=");
        reveal_strlit("==");
        reveal_strlit("!=");
        reveal_strlit("<");
        reveal_strlit(">");
    }
    assert(ops.drop_first()[0] == ("<="@, CondOp::Le));
    match try_operator(&t, "~", CondOp::Match) {
        Some(r) => {
            return r;
        },
        None => {},
    }
    let ghost o1 = ops.drop_first();
    assert(term_at(t@, ops) == term_at(t@, o1));
    match try_operator(&t, "<=", CondOp::Le) {
        Some(r) => {
            return r;
        },
        None => {},
    }
    let ghost o2 = o1.drop_first();
    assert(term_at(t@, o1) == term_at(t@, o2));
    match try_operator(&t, ">=", CondOp::Ge) {
        Some(r) => {
            return r;
        },
        None => {},
    }
    let ghost o3 = o2.drop_first();
    assert(term_at(t@, o2) == term_at(t@, o3));
    match try_operator(&t, "==", CondOp::Eq) {
        Some(r) => {
            return r;
        },
        None => {},
    }
    let ghost o4 = o3.drop_first();
    assert(term_at(t@, o3) == term_at(t@, o4));
    match try_operator(&t, "!=", CondOp::Ne) {
        Some(r) => {
            return r;
        },
        None => {},
    }
    let ghost o5 = o4.drop_first();
    assert(term_at(t@, o4) == term_at(t@, o5));
    match try_operator(&t, "<", CondOp::Lt) {
        Some(r) => {
            return r;
        },
        None => {},
    }
    let ghost o6 = o5.drop_first();
    assert(term_at(t@, o5) == term_at(t@, o6));
    match try_operator(&t, ">", CondOp::Gt) {
        Some(r) => {
            return r;
        },
        None => {},
    }
    let ghost o7 = o6.drop_first();
    assert(term_at(t@, o6) == term_at(t@, o7));
    assert(o7.len() == 0);
    let mut m = chars_of("could not find a comparison operator in ");
    let q = debug_chars(&t);
    append_chars(&mut m, &q);
    Err(string_of(&m))
}

/// What parsing the chunks from `k` on yields: each chunk's operator and
/// term, or the first error.
pub open spec fn rest_result(chunks: Seq<(Seq<char>, Seq<char>)>, k: int) -> Result<Seq<(LogicOp, TermView)>, Seq<char>>
    decreases chunks.len() - k,
{
    if k >= chunks.len() || k < 0 {
        Ok(Seq::empty())
    } else {
        let op = chunks[k].0;
        if op != "and"@ && op != "or"@ {
            Err("unknown logic operator "@ + debug_text(op))
        } else {
            match term_result(chunks[k].1) {
                Err(e) => Err(e),
                Ok(t) => match rest_result(chunks, k + 1) {
                    Err(e) => Err(e),
                    Ok(rest) => Ok(seq![(if op == "and"@ { LogicOp::And } else { LogicOp::Or }, t)] + rest),
                },
            }
        }
    }
}

/// What parsing a whole condition yields.
pub open spec fn expr_result(expr: Seq<char>) -> Result<(TermView, Seq<(LogicOp, TermView)>), Seq<char>> {
    let chunks = split_logic_result(expr);
    if chunks.len() == 0 {
        Err("empty expression"@)
    } else {
        match term_result(chunks[0].1) {
            Err(e) => Err(e),
            Ok(first) => match rest_result(chunks, 1) {
                Err(e) => Err(e),
                Ok(rest) => Ok((first, rest)),
            },
        }
    }
}

/// Prepends parsed terms to a result.
pub open spec fn after_terms(
    done: Seq<(LogicOp, TermView)>,
    r: Result<Seq<(LogicOp, TermView)>, Seq<char>>,
) -> Result<Seq<(LogicOp, TermView)>, Seq<char>> {
    match r {
        Ok(rest) => Ok(done + rest),
        Err(e) => Err(e),
    }
}

/// Parses a condition: terms joined by `and`/`or`.
pub fn parse_expr(expr: &str) -> (r: Result<Cond, String>)
    ensures
        match (r, expr_result(expr@)) {
            (Ok(c), Ok(v)) => cond_view(c) == v,
            (Err(e), Err(m)) => e@ == m,
            _ => false,
        },
{
    let chunks = split_logic(expr);
    let ghost cv = chunks_view(chunks@);
    if chunks.len() == 0 {
        return Err(String::from_str("empty expression"));
    }
    assert(cv[0] == (chunks@[0].0@, chunks@[0].1@));
    let first = match parse_term(chunks[0].1.as_str()) {
        Ok(t) => t,
        Err(e) => {
            return Err(e);
        },
    };
    let mut rest: Vec<(LogicOp, Term)> = Vec::new();
    let mut k: usize = 1;
    assert(rest@.map_values(|e: (LogicOp, Term)| (e.0, term_view(e.1))) =~= Seq::<(LogicOp, TermView)>::empty());
    assert(after_terms(Seq::empty(), rest_result(cv, 1)) == rest_result(cv, 1)) by {
        if let Ok(x) = rest_result(cv, 1) {
            assert(Seq::<(LogicOp, TermView)>::empty() + x =~= x);
        }
    }
    while k < chunks.len()
        invariant
            1 <= k <= chunks.len(),
            cv == chunks_view(chunks@),
            cv == split_logic_result(expr@),
            term_result(cv[0].1) == Ok::<TermView, Seq<char>>(term_view(first)),
            rest_result(cv, 1) == after_terms(rest@.map_values(|e: (LogicOp, Term)| (e.0, term_view(e.1))), rest_result(cv, k as int)),
        decreases chunks.len() - k,
    {
        let (op_s, text) = &chunks[k];
        assert(cv[k as int] == (op_s@, text@));
        let oc = chars_of(op_s.as_str());
        let op = if crate::text::chars_eq_str(&oc, "and") {
            LogicOp::And
        } else if crate::text::chars_eq_str(&oc, "or") {
            LogicOp::Or
        } else {
            let mut m = chars_of("unknown logic operator ");
            let q = debug_chars(&oc);
            append_chars(&mut m, &q);
            return Err(string_of(&m));
        };
        let term = match parse_term(text.as_str()) {
            Ok(t) => t,
            Err(e) => {
                return Err(e);
            },
        };
        let ghost before = rest@.map_values(|e: (LogicOp, Term)| (e.0, term_view(e.1)));
        let ghost tv = term_view(term);
        rest.push((op, term));
        assert(rest@.map_values(|e: (LogicOp, Term)| (e.0, term_view(e.1))) =~= before.push((op, tv)));
        assert forall|x: Seq<(LogicOp, TermView)>| before + (seq![(op, tv)] + x) == #[trigger] (before.push((op, tv)) + x) by {
            assert(before + (seq![(op, tv)] + x) =~= before.push((op, tv)) + x);
        }
        k += 1;
    }
    assert(rest@.map_values(|e: (LogicOp, Term)| (e.0, term_view(e.1))) + Seq::<(LogicOp, TermView)>::empty() =~= rest@.map_values(|e: (LogicOp, Term)| (e.0, term_view(e.1))));
    Ok(Cond { first, rest })
}

// -- rules -------------------------------------------------------------------

/// The `[source]` section of a rules file: which columns hold the date,
/// amount and payee, the date format, the account the statement is for,
/// and optionally its commodity.
#[derive(Debug)]
pub struct SourceConfig {
    pub date: String,
    pub amount: String,
    pub payee: String,
    pub date_format: String,
    pub account: String,
    pub commodity: Option<String>,
}

impl Clone for SourceConfig {
    fn clone(&self) -> (r: Self)
        ensures
            r == *self,
    {
        SourceConfig {
            date: self.date.clone(),
            amount: self.amount.clone(),
            payee: self.payee.clone(),
            date_format: self.date_format.clone(),
            account: self.account.clone(),
            commodity: match &self.commodity {
                Some(c) => Some(c.clone()),
                None => None,
            },
        }
    }
}

/// A rules file: the source mapping and the compiled `match` → `to` rules,
/// in file order.
pub struct Rules {
    pub source: SourceConfig,
    pub compiled: Vec<(Cond, String)>,
}

/// What compiling the rules yields: each rule's condition and destination,
/// or the message of the first rule whose condition does not parse.
pub open spec fn compile_result(rules: Seq<(Seq<char>, Seq<char>)>) -> Result<
    Seq<((TermView, Seq<(LogicOp, TermView)>), Seq<char>)>,
    Seq<char>,
>
    decreases rules.len(),
{
    if rules.len() == 0 {
        Ok(Seq::empty())
    } else {
        match compile_result(rules.drop_last()) {
            Err(e) => Err(e),
            Ok(done) => match expr_result(rules.last().0) {
                Err(e) => Err("bad `match` expression "@ + debug_text(rules.last().0) + ": "@ + e),
                Ok(c) => Ok(done.push((c, rules.last().1))),
            },
        }
    }
}

/// The first rule whose condition holds of the row.
pub open spec fn first_destination(rules: Seq<((TermView, Seq<(LogicOp, TermView)>), Seq<char>)>, row: CsvRow) -> Option<Seq<char>>
    decreases rules.len(),
{
    if rules.len() == 0 {
        None
    } else if cond_holds(rules[0].0, row) {
        Some(rules[0].1)
    } else {
        first_destination(rules.drop_first(), row)
    }
}

impl Rules {
    /// The compiled rules as plain values.
    pub open spec fn rules_view(&self) -> Seq<((TermView, Seq<(LogicOp, TermView)>), Seq<char>)> {
        self.compiled@.map_values(|e: (Cond, String)| (cond_view(e.0), e.1@))
    }

    /// Compiles the `(match, to)` rules of a rules file.
    pub fn from_config(source: SourceConfig, rules: &Vec<(String, String)>) -> (r: Result<Rules, JamaError>)
        ensures
            match (r, compile_result(rules@.map_values(|e: (String, String)| (e.0@, e.1@)))) {
                (Ok(x), Ok(v)) => x.source == source && x.rules_view() == v,
                (Err(e), Err(m)) => e matches JamaError::Import(msg) && msg@ == m,
                _ => false,
            },
    {
        let ghost rv = rules@.map_values(|e: (String, String)| (e.0@, e.1@));
        let mut compiled: Vec<(Cond, String)> = Vec::new();
        let mut i: usize = 0;
        assert(rv.take(0) =~= Seq::<(Seq<char>, Seq<char>)>::empty());
        assert(compiled@.map_values(|e: (Cond, String)| (cond_view(e.0), e.1@)) =~= Seq::<((TermView, Seq<(LogicOp, TermView)>), Seq<char>)>::empty());
        while i < rules.len()
            invariant
                i <= rules.len(),
                rv == rules@.map_values(|e: (String, String)| (e.0@, e.1@)),
                compile_result(rv.take(i as int)) == Ok::<Seq<((TermView, Seq<(LogicOp, TermView)>), Seq<char>)>, Seq<char>>(
                    compiled@.map_values(|e: (Cond, String)| (cond_view(e.0), e.1@)),
                ),
            decreases rules.len() - i,
        {
            let (m, to) = &rules[i];
            assert(rv.take(i + 1).drop_last() =~= rv.take(i as int));
            assert(rv.take(i + 1).last() == (m@, to@));
            match parse_expr(m.as_str()) {
                Ok(c) => {
                    let ghost before = compiled@.map_values(|e: (Cond, String)| (cond_view(e.0), e.1@));
                    let ghost cv = cond_view(c);
                    compiled.push((c, to.clone()));
                    assert(compiled@.map_values(|e: (Cond, String)| (cond_view(e.0), e.1@)) =~= before.push((cv, to@)));
                },
                Err(e) => {
                    let mut msg = chars_of("bad `match` expression ");
                    let mc = chars_of(m.as_str());
                    let q = debug_chars(&mc);
                    append_chars(&mut msg, &q);
                    append_str(&mut msg, ": ");
                    append_str(&mut msg, e.as_str());
                    proof {
                        lemma_compile_err(rv, i as int + 1);
                    }
                    return Err(JamaError::Import(string_of(&msg)));
                },
            }
            i += 1;
        }
        assert(rv.take(rules.len() as int) =~= rv);
        Ok(Rules { source, compiled })
    }

    /// The destination of the first rule whose condition holds of the row.
    pub fn destination_for(&self, row: &CsvRow) -> (r: Option<&str>)
        ensures
            match (r, first_destination(self.rules_view(), *row)) {
                (Some(s), Some(t)) => s@ == t,
                (None, None) => true,
                _ => false,
            },
    {
        let ghost rv = self.rules_view();
        let mut i: usize = 0;
        assert(rv.skip(0) =~= rv);
        while i < self.compiled.len()
            invariant
                i <= self.compiled.len(),
                rv == self.rules_view(),
                rv.len() == self.compiled.len(),
                first_destination(rv, *row) == first_destination(rv.skip(i as int), *row),
            decreases self.compiled.len() - i,
        {
            assert(rv.skip(i as int)[0] == rv[i as int]);
            assert(rv[i as int] == (cond_view(self.compiled@[i as int].0), self.compiled@[i as int].1@));
            assert(rv.skip(i as int).drop_first() =~= rv.skip(i + 1));
            if self.compiled[i].0.eval(row) {
                return Some(self.compiled[i].1.as_str());
            }
            i += 1;
        }
        None
    }
}

proof fn lemma_compile_err(rv: Seq<(Seq<char>, Seq<char>)>, n: int)
    requires
        0 < n <= rv.len(),
        compile_result(rv.take(n)) is Err,
    ensures
        compile_result(rv) == compile_result(rv.take(n)),
    decreases rv.len() - n,
{
    if n < rv.len() {
        assert(rv.take(n + 1).drop_last() =~= rv.take(n));
        lemma_compile_err(rv, n + 1);
    } else {
        assert(rv.take(n) =~= rv);
    }
}

/// `payee_literal` with each `/` escaped as `\/`.
pub open spec fn escape_slashes(s: Seq<char>) -> Seq<char>
    decreases s.len(),
{
    if s.len() == 0 {
        Seq::empty()
    } else if s.last() == '/' {
        escape_slashes(s.drop_last()) + seq!['\\', '/']
    } else {
        escape_slashes(s.drop_last()).push(s.last())
    }
}

/// The rules-file block of a learned rule: `payee ~ /literal/i` → `to`.
pub open spec fn learned_rule_text(payee_literal: Seq<char>, to: Seq<char>) -> Seq<char> {
    "\n[[rule]]\nmatch = \"payee ~ /"@ + escape_slashes(payee_literal) + "/i\"\nto = \""@ + to + "\"\n"@
}

/// The block that appending a learned rule writes to the rules file.
pub fn learned_rule_block(payee_literal: &str, to: &str) -> (r: String)
    ensures
        r@ == learned_rule_text(payee_literal@, to@),
{
    let p = chars_of(payee_literal);
    let mut out = chars_of("\n[[rule]]\nmatch = \"payee ~ /");
    let ghost base = out@;
    let mut i: usize = 0;
    assert(p@.take(0) =~= Seq::<char>::empty());
    assert(out@ =~= base + escape_slashes(p@.take(0)));
    while i < p.len()
        invariant
            i <= p.len(),
            out@ == base + escape_slashes(p@.take(i as int)),
        decreases p.len() - i,
    {
        assert(p@.take(i + 1).drop_last() =~= p@.take(i as int));
        if p[i] == '/' {
            out.push('\\');
            out.push('/');
        } else {
            out.push(p[i]);
        }
        assert(out@ =~= base + escape_slashes(p@.take(i + 1)));
        i += 1;
    }
    assert(p@.take(p.len() as int) =~= p@);
    append_str(&mut out, "/i\"\nto = \"");
    append_str(&mut out, to);
    append_str(&mut out, "\"\n");
    string_of(&out)
}

// -- reading rows --------------------------------------------------------------

/// The raw map of a record: each header with the value under it (extra
/// values or headers ignored; a repeated header keeps its last value).
pub open spec fn raw_of(headers: Seq<Seq<char>>, values: Seq<Seq<char>>) -> Seq<(Seq<char>, Seq<char>)>
    decreases headers.len(),
{
    if headers.len() == 0 || values.len() == 0 {
        Seq::empty()
    } else {
        let n = if headers.len() < values.len() { headers.len() } else { values.len() };
        crate::model::meta_insert(raw_of(headers.take(n - 1), values.take(n - 1)), headers[n - 1], values[n - 1])
    }
}

/// A raw field, or the empty text.
pub open spec fn raw_field(raw: Seq<(Seq<char>, Seq<char>)>, key: Seq<char>) -> Seq<char> {
    match meta_get(raw, key) {
        Some(v) => v,
        None => Seq::empty(),
    }
}

/// What reading record `i` (file line `i + 2`) yields: its date, amount
/// and payee; or the message of the import error.
pub open spec fn record_result(
    headers: Seq<Seq<char>>,
    values: Seq<Seq<char>>,
    source: SourceConfig,
    i: int,
) -> Result<((int, int, int), DecimalValue, Seq<char>), Seq<char>> {
    let raw = raw_of(headers, values);
    let date_str = raw_field(raw, source.date@);
    let amount_str = raw_field(raw, source.amount@);
    let payee = raw_field(raw, source.payee@);
    match crate::date::format_result(date_str, source.date_format@) {
        Err(e) => Err("row "@ + crate::text::uint_text((i + 2) as nat) + ": "@ + e),
        Ok(ymd) => match clean_result(amount_str) {
            Err(e) => Err(
                "row "@ + crate::text::uint_text((i + 2) as nat) + ": bad amount "@ + debug_text(amount_str) + ": "@ + e,
            ),
            Ok(amount) => Ok((ymd, amount, payee)),
        },
    }
}

/// A row read from record `i`.
pub open spec fn row_from(row: CsvRow, headers: Seq<Seq<char>>, values: Seq<Seq<char>>, source: SourceConfig, file: Seq<char>, i: int) -> bool {
    record_result(headers, values, source, i) matches Ok((ymd, amount, payee)) && row.date.ymd() == ymd
        && row.amount@ == amount && row.payee@ == payee && row.raw@ == raw_of(headers, values)
        && row.dedupe_hash@ == dedupe_hash(row.date, row.amount@, payee, file)
}

fn raw_map(headers: &Vec<String>, values: &Vec<String>) -> (r: Meta)
    ensures
        r@ == raw_of(crate::model::strings_view(headers@), crate::model::strings_view(values@)),
{
    let ghost hv = crate::model::strings_view(headers@);
    let ghost vv = crate::model::strings_view(values@);
    let n = if headers.len() < values.len() { headers.len() } else { values.len() };
    let mut raw = Meta::new();
    let mut j: usize = 0;
    assert(raw@ =~= raw_of(hv.take(0), vv.take(0)));
    while j < n
        invariant
            j <= n,
            n == (if headers.len() < values.len() { headers.len() } else { values.len() }),
            hv == crate::model::strings_view(headers@),
            vv == crate::model::strings_view(values@),
            raw@ == raw_of(hv.take(j as int), vv.take(j as int)),
        decreases n - j,
    {
        raw.insert(headers[j].clone(), values[j].clone());
        assert(hv.take(j + 1).take(j as int) =~= hv.take(j as int));
        assert(vv.take(j + 1).take(j as int) =~= vv.take(j as int));
        assert(hv.take(j + 1)[j as int] == headers@[j as int]@);
        assert(vv.take(j + 1)[j as int] == values@[j as int]@);
        j += 1;
    }
    if headers.len() < values.len() {
        assert(hv.take(n as int) =~= hv);
        proof {
            lemma_raw_of_extra(hv, vv);
        }
    } else {
        assert(vv.take(n as int) =~= vv);
        proof {
            lemma_raw_of_extra2(hv, vv);
        }
    }
    raw
}

proof fn lemma_raw_of_extra(hv: Seq<Seq<char>>, vv: Seq<Seq<char>>)
    requires
        hv.len() < vv.len(),
    ensures
        raw_of(hv, vv) == raw_of(hv, vv.take(hv.len() as int)),
{
    if hv.len() > 0 {
        let n = hv.len();
        assert(vv.take(hv.len() as int).take(n - 1) =~= vv.take(n - 1));
    }
}

proof fn lemma_raw_of_extra2(hv: Seq<Seq<char>>, vv: Seq<Seq<char>>)
    requires
        hv.len() >= vv.len(),
    ensures
        raw_of(hv, vv) == raw_of(hv.take(vv.len() as int), vv),
{
    if vv.len() > 0 {
        let n = vv.len();
        assert(hv.take(vv.len() as int).take(n - 1) =~= hv.take(n - 1));
    }
}

fn read_record(
    headers: &Vec<String>,
    values: &Vec<String>,
    source: &SourceConfig,
    file_name: &str,
    i: usize,
) -> (r: Result<CsvRow, JamaError>)
    requires
        i + 2 <= u64::MAX,
    ensures
        match (r, record_result(crate::model::strings_view(headers@), crate::model::strings_view(values@), *source, i as int)) {
            (Ok(row), Ok(_)) => row_from(row, crate::model::strings_view(headers@), crate::model::strings_view(values@), *source, file_name@, i as int),
            (Err(e), Err(m)) => e matches JamaError::Import(msg) && msg@ == m,
            _ => false,
        },
{
    let raw = raw_map(headers, values);
    let date_str = match raw.get(source.date.as_str()) {
        Some(v) => v.clone(),
        None => String::new(),
    };
    let amount_str = match raw.get(source.amount.as_str()) {
        Some(v) => v.clone(),
        None => String::new(),
    };
    let payee = match raw.get(source.payee.as_str()) {
        Some(v) => v.clone(),
        None => String::new(),
    };
    let line = crate::text::uint_chars((i as u64) + 2);
    let date = match Date::parse_with_format(date_str.as_str(), source.date_format.as_str()) {
        Ok(d) => d,
        Err(e) => {
            let mut m = chars_of("row ");
            append_chars(&mut m, &line);
            append_str(&mut m, ": ");
            append_str(&mut m, e.as_str());
            return Err(JamaError::Import(string_of(&m)));
        },
    };
    let amount = match clean_number(amount_str.as_str()) {
        Ok(a) => a,
        Err(e) => {
            let mut m = chars_of("row ");
            append_chars(&mut m, &line);
            append_str(&mut m, ": bad amount ");
            let ac = chars_of(amount_str.as_str());
            let q = debug_chars(&ac);
            append_chars(&mut m, &q);
            append_str(&mut m, ": ");
            append_str(&mut m, e.as_str());
            return Err(JamaError::Import(string_of(&m)));
        },
    };
    let dedupe_hash = dedupe_key(&date, &amount, payee.as_str(), file_name);
    Ok(CsvRow { date, amount, payee, raw, dedupe_hash })
}

/// Reading record `i` fails with `e`.
pub open spec fn record_fails_with(
    headers: Seq<Seq<char>>,
    values: Seq<Seq<char>>,
    source: SourceConfig,
    i: int,
    e: JamaError,
) -> bool {
    match record_result(headers, values, source, i) {
        Err(m) => e matches JamaError::Import(msg) && msg@ == m,
        Ok(_) => false,
    }
}

/// Reads statement rows from CSV records (each a list of fields under the
/// given headers) against the `[source]` column mapping; the first record
/// that fails names its file line (the header is line 1).
pub fn rows_from_records(
    headers: &Vec<String>,
    records: &Vec<Vec<String>>,
    source: &SourceConfig,
    file_name: &str,
) -> (r: Result<Vec<CsvRow>, JamaError>)
    requires
        records.len() + 2 <= u64::MAX,
    ensures
        match r {
            Ok(rows) => rows@.len() == records@.len() && forall|i: int|
                0 <= i < records@.len() ==> row_from(
                    #[trigger] rows@[i],
                    crate::model::strings_view(headers@),
                    crate::model::strings_view(records@[i]@),
                    *source,
                    file_name@,
                    i,
                ),
            Err(e) => exists|i: int|
                0 <= i < records@.len() && (forall|j: int|
                    0 <= j < i ==> #[trigger] record_result(
                        crate::model::strings_view(headers@),
                        crate::model::strings_view(records@[j]@),
                        *source,
                        j,
                    ) is Ok) && record_fails_with(
                    crate::model::strings_view(headers@),
                    crate::model::strings_view(records@[i]@),
                    *source,
                    i,
                    e,
                ),
        },
{
    let mut rows: Vec<CsvRow> = Vec::new();
    let mut i: usize = 0;
    while i < records.len()
        invariant
            i <= records.len(),
            records.len() + 2 <= u64::MAX,
            rows@.len() == i,
            forall|k: int|
                0 <= k < i ==> row_from(
                    #[trigger] rows@[k],
                    crate::model::strings_view(headers@),
                    crate::model::strings_view(records@[k]@),
                    *source,
                    file_name@,
                    k,
                ),
        decreases records.len() - i,
    {
        match read_record(headers, &records[i], source, file_name, i) {
            Ok(row) => {
                rows.push(row);
            },
            Err(e) => {
                assert forall|j: int| 0 <= j < i implies #[trigger] record_result(
                    crate::model::strings_view(headers@),
                    crate::model::strings_view(records@[j]@),
                    *source,
                    j,
                ) is Ok by {
                    assert(row_from(rows@[j], crate::model::strings_view(headers@), crate::model::strings_view(records@[j]@), *source, file_name@, j));
                }
                return Err(e);
            },
        }
        i += 1;
    }
    Ok(rows)
}

// -- reading a statement -------------------------------------------------------

/// Each record's fields as plain values.
pub open spec fn records_view(records: Seq<Vec<String>>) -> Seq<Seq<Seq<char>>> {
    records.map_values(|v: Vec<String>| crate::model::strings_view(v@))
}

/// What the `csv` crate reads from a statement whose first line is the
/// header: the header's fields and each record's fields; or, at the first
/// failure, the index of the record it is in (`None` for the header) and
/// its message.
pub uninterp spec fn csv_table(bytes: Seq<u8>) -> Result<
    (Seq<Seq<char>>, Seq<Seq<Seq<char>>>),
    (Option<int>, Seq<char>),
>;

/// Reads the header and the records with `csv::ReaderBuilder` (headers on),
/// stopping at the first error. Claims only that the outcome is the named
/// [`csv_table`] of the bytes.
#[verifier::external_body]
fn csv_read_table(bytes: &[u8]) -> (r: Result<(Vec<String>, Vec<Vec<String>>), (Option<usize>, String)>)
    ensures
        match r {
            Ok(t) => csv_table(bytes@) == Ok::<(Seq<Seq<char>>, Seq<Seq<Seq<char>>>), (Option<int>, Seq<char>)>(
                (crate::model::strings_view(t.0@), records_view(t.1@)),
            ),
            Err(e) => csv_table(bytes@) == Err::<(Seq<Seq<char>>, Seq<Seq<Seq<char>>>), (Option<int>, Seq<char>)>(
                (
                    match e.0 {
                        Some(i) => Some(i as int),
                        None => None,
                    },
                    e.1@,
                ),
            ),
        },
{
    let mut reader = csv::ReaderBuilder::new().has_headers(true).from_reader(bytes);
    let headers: Vec<String> = match reader.headers() {
        Ok(h) => h.iter().map(str::to_string).collect(),
        Err(e) => return Err((None, e.to_string())),
    };
    let mut records: Vec<Vec<String>> = Vec::new();
    for (i, result) in reader.records().enumerate() {
        match result {
            Ok(record) => records.push(record.iter().map(str::to_string).collect()),
            Err(e) => return Err((Some(i), e.to_string())),
        }
    }
    Ok((headers, records))
}

/// The message for a statement the `csv` crate cannot read: the header's
/// failure, or the failing record's file line (the header is line 1).
pub open spec fn csv_error_text(at: Option<int>, m: Seq<char>) -> Seq<char> {
    match at {
        None => "reading headers: "@ + m,
        Some(i) => if i + 2 <= u64::MAX {
            "row "@ + crate::text::uint_text((i + 2) as nat) + ": "@ + m
        } else {
            "too many rows"@
        },
    }
}

/// What reading the records gives: every row read as [`row_from`] says;
/// or the error of the first record that fails.
pub open spec fn records_outcome(
    headers: Seq<Seq<char>>,
    records: Seq<Seq<Seq<char>>>,
    source: SourceConfig,
    file: Seq<char>,
    r: Result<Vec<CsvRow>, JamaError>,
) -> bool {
    match r {
        Ok(rows) => rows@.len() == records.len() && forall|i: int|
            0 <= i < records.len() ==> row_from(#[trigger] rows@[i], headers, records[i], source, file, i),
        Err(e) => exists|i: int|
            0 <= i < records.len() && (forall|j: int|
                0 <= j < i ==> #[trigger] record_result(headers, records[j], source, j) is Ok) && record_fails_with(
                headers,
                records[i],
                source,
                i,
                e,
            ),
    }
}

/// Reads a bank statement's CSV bytes into rows: what the `csv` crate reads
/// ([`csv_table`]), then each record against the `[source]` column mapping
/// (see [`rows_from_records`]).
pub fn parse_csv_rows(bytes: &[u8], source: &SourceConfig, file_name: &str) -> (r: Result<Vec<CsvRow>, JamaError>)
    ensures
        match csv_table(bytes@) {
            Err(f) => r matches Err(JamaError::Import(msg)) && msg@ == csv_error_text(f.0, f.1),
            Ok(t) => if t.1.len() + 2 > u64::MAX {
                r matches Err(JamaError::Import(msg)) && msg@ == "too many rows"@
            } else {
                records_outcome(t.0, t.1, *source, file_name@, r)
            },
        },
{
    match csv_read_table(bytes) {
        Err((at, m)) => {
            let msg: String = match at {
                None => {
                    let mut v = chars_of("reading headers: ");
                    append_str(&mut v, m.as_str());
                    string_of(&v)
                },
                Some(i) => {
                    if i as u64 > 0xffff_ffff_ffff_fffdu64 {
                        proof {
                            reveal_strlit("too many rows");
                        }
                        String::from_str("too many rows")
                    } else {
                        let mut v = chars_of("row ");
                        let n = crate::text::uint_chars(i as u64 + 2);
                        append_chars(&mut v, &n);
                        append_str(&mut v, ": ");
                        append_str(&mut v, m.as_str());
                        string_of(&v)
                    }
                },
            };
            Err(JamaError::Import(msg))
        },
        Ok((headers, records)) => {
            if records.len() as u64 > 0xffff_ffff_ffff_fffdu64 {
                proof {
                    reveal_strlit("too many rows");
                }
                return Err(JamaError::Import(String::from_str("too many rows")));
            }
            let r = rows_from_records(&headers, &records, source, file_name);
            let ghost rv = records_view(records@);
            assert forall|i: int| 0 <= i < records@.len() implies rv[i] == crate::model::strings_view(
                #[trigger] records@[i]@,
            ) by {}
            r
        },
    }
}

// -- planning an import ----------------------------------------------------------

/// What happens to one statement row.
#[derive(Debug)]
pub enum RowPlan {
    /// Seen before (in the store, or inserted earlier in this run).
    Duplicate,
    /// Categorised by a rule: inserted against this destination.
    Insert(String),
    /// No rule matched: left for the caller to categorise.
    Unmatched,
}

/// A row earlier than `i` is inserted with the same dedupe key.
pub open spec fn inserted_before(rows: Seq<CsvRow>, plans: Seq<RowPlan>, i: int) -> bool {
    exists|j: int| 0 <= j < i && (#[trigger] plans[j]) is Insert && rows[j].dedupe_hash@ == rows[i].dedupe_hash@
}

/// The plan for row `i`: a duplicate when the store has its key, or (when
/// writing) an earlier row of this run was inserted with it; otherwise
/// inserted against the first matching rule's destination, or unmatched.
pub open spec fn plan_is(
    p: RowPlan,
    rules: Seq<((TermView, Seq<(LogicOp, TermView)>), Seq<char>)>,
    rows: Seq<CsvRow>,
    seen: Seq<bool>,
    dry_run: bool,
    plans: Seq<RowPlan>,
    i: int,
) -> bool {
    if seen[i] || (!dry_run && inserted_before(rows, plans, i)) {
        p is Duplicate
    } else {
        match first_destination(rules, rows[i]) {
            Some(d) => p matches RowPlan::Insert(s) && s@ == d,
            None => p is Unmatched,
        }
    }
}

/// Decides, row by row, what an import does: `seen[i]` tells whether the
/// store already holds row `i`'s dedupe key. A dry run inserts nothing, so
/// a key repeated within the file is then not a duplicate.
pub fn plan_import(rules: &Rules, rows: &Vec<CsvRow>, seen: &Vec<bool>, dry_run: bool) -> (r: Vec<RowPlan>)
    requires
        seen@.len() == rows@.len(),
    ensures
        r@.len() == rows@.len(),
        forall|i: int| 0 <= i < rows@.len() ==> plan_is(#[trigger] r@[i], rules.rules_view(), rows@, seen@, dry_run, r@, i),
{
    let mut plans: Vec<RowPlan> = Vec::new();
    let mut i: usize = 0;
    while i < rows.len()
        invariant
            i <= rows.len(),
            seen@.len() == rows@.len(),
            plans@.len() == i,
            forall|k: int| 0 <= k < i ==> plan_is(#[trigger] plans@[k], rules.rules_view(), rows@, seen@, dry_run, plans@, k),
        decreases rows.len() - i,
    {
        let row = &rows[i];
        let mut dup = seen[i];
        if !dry_run && !dup {
            let h = chars_of(row.dedupe_hash.as_str());
            let mut j: usize = 0;
            while j < i
                invariant
                    j <= i,
                    i < rows@.len(),
                    plans@.len() == i,
                    h@ == rows@[i as int].dedupe_hash@,
                    dup == exists|k: int| 0 <= k < j && (#[trigger] plans@[k]) is Insert && rows@[k].dedupe_hash@ == rows@[i as int].dedupe_hash@,
                decreases i - j,
            {
                match &plans[j] {
                    RowPlan::Insert(_) => {
                        let hj = chars_of(rows[j].dedupe_hash.as_str());
                        if crate::text::chars_eq(&hj, &h) {
                            dup = true;
                        }
                    },
                    _ => {},
                }
                j += 1;
            }
        }
        let ghost before = plans@;
        let p = if dup {
            RowPlan::Duplicate
        } else {
            match rules.destination_for(row) {
                Some(d) => RowPlan::Insert(String::from_str(d)),
                None => RowPlan::Unmatched,
            }
        };
        plans.push(p);
        assert forall|k: int| 0 <= k < i + 1 implies plan_is(#[trigger] plans@[k], rules.rules_view(), rows@, seen@, dry_run, plans@, k) by {
            assert(plans@[k] == before.push(p)[k]);
            if k < i {
                assert(plan_is(before[k], rules.rules_view(), rows@, seen@, dry_run, before, k));
                assert(inserted_before(rows@, plans@, k) == inserted_before(rows@, before, k)) by {
                    if inserted_before(rows@, before, k) {
                        let j = choose|j: int| 0 <= j < k && (#[trigger] before[j]) is Insert && rows@[j].dedupe_hash@ == rows@[k].dedupe_hash@;
                        assert(plans@[j] == before[j]);
                    }
                    if inserted_before(rows@, plans@, k) {
                        let j = choose|j: int| 0 <= j < k && (#[trigger] plans@[j]) is Insert && rows@[j].dedupe_hash@ == rows@[k].dedupe_hash@;
                        assert(plans@[j] == before[j]);
                    }
                }
            } else {
                assert(inserted_before(rows@, plans@, k) == inserted_before(rows@, before, k)) by {
                    if inserted_before(rows@, before, k) {
                        let j = choose|j: int| 0 <= j < k && (#[trigger] before[j]) is Insert && rows@[j].dedupe_hash@ == rows@[k].dedupe_hash@;
                        assert(plans@[j] == before[j]);
                    }
                    if inserted_before(rows@, plans@, k) {
                        let j = choose|j: int| 0 <= j < k && (#[trigger] plans@[j]) is Insert && rows@[j].dedupe_hash@ == rows@[k].dedupe_hash@;
                        assert(plans@[j] == before[j]);
                    }
                }
            }
        }
        i += 1;
    }
    plans
}

/// What an import did: how many rows the file had, how many were
/// inserted and skipped as duplicates, and the rows no rule matched.
pub struct ImportOutcome {
    pub total_rows: usize,
    pub imported: usize,
    pub skipped_duplicates: usize,
    pub unmatched: Vec<CsvRow>,
}

/// How many plans are inserts.
pub open spec fn count_inserts(plans: Seq<RowPlan>) -> nat
    decreases plans.len(),
{
    if plans.len() == 0 {
        0
    } else {
        count_inserts(plans.drop_last()) + if plans.last() is Insert { 1nat } else { 0nat }
    }
}

/// How many plans are duplicates.
pub open spec fn count_duplicates(plans: Seq<RowPlan>) -> nat
    decreases plans.len(),
{
    if plans.len() == 0 {
        0
    } else {
        count_duplicates(plans.drop_last()) + if plans.last() is Duplicate { 1nat } else { 0nat }
    }
}

/// The indices of the unmatched rows, in order.
pub open spec fn unmatched_indices(plans: Seq<RowPlan>) -> Seq<int>
    decreases plans.len(),
{
    if plans.len() == 0 {
        Seq::empty()
    } else if plans.last() is Unmatched {
        unmatched_indices(plans.drop_last()).push(plans.len() - 1)
    } else {
        unmatched_indices(plans.drop_last())
    }
}

/// Sums up a planned import.
pub fn outcome_of(rows: &Vec<CsvRow>, plans: &Vec<RowPlan>) -> (r: ImportOutcome)
    requires
        plans@.len() == rows@.len(),
    ensures
        r.total_rows == rows@.len(),
        r.imported == count_inserts(plans@),
        r.skipped_duplicates == count_duplicates(plans@),
        r.unmatched@.len() == unmatched_indices(plans@).len(),
        forall|k: int| 0 <= k < r.unmatched@.len() ==> (#[trigger] r.unmatched@[k]).dedupe_hash == rows@[unmatched_indices(plans@)[k]].dedupe_hash
            && r.unmatched@[k].payee == rows@[unmatched_indices(plans@)[k]].payee
            && r.unmatched@[k].date == rows@[unmatched_indices(plans@)[k]].date
            && r.unmatched@[k].amount == rows@[unmatched_indices(plans@)[k]].amount
            && r.unmatched@[k].raw@ == rows@[unmatched_indices(plans@)[k]].raw@,
{
    let mut imported: usize = 0;
    let mut skipped: usize = 0;
    let mut unmatched: Vec<CsvRow> = Vec::new();
    let mut i: usize = 0;
    assert(plans@.take(0) =~= Seq::<RowPlan>::empty());
    while i < plans.len()
        invariant
            i <= plans.len(),
            plans@.len() == rows@.len(),
            imported == count_inserts(plans@.take(i as int)),
            skipped == count_duplicates(plans@.take(i as int)),
            imported <= i,
            skipped <= i,
            unmatched@.len() == unmatched_indices(plans@.take(i as int)).len(),
            forall|q: int| 0 <= q < unmatched_indices(plans@.take(i as int)).len() ==> 0 <= #[trigger] unmatched_indices(plans@.take(i as int))[q] < i,
            forall|k: int| 0 <= k < unmatched@.len() ==> (#[trigger] unmatched@[k]).dedupe_hash == rows@[unmatched_indices(plans@.take(i as int))[k]].dedupe_hash
                && unmatched@[k].payee == rows@[unmatched_indices(plans@.take(i as int))[k]].payee
                && unmatched@[k].date == rows@[unmatched_indices(plans@.take(i as int))[k]].date
                && unmatched@[k].amount == rows@[unmatched_indices(plans@.take(i as int))[k]].amount
                && unmatched@[k].raw@ == rows@[unmatched_indices(plans@.take(i as int))[k]].raw@,
        decreases plans.len() - i,
    {
        assert(plans@.take(i + 1).drop_last() =~= plans@.take(i as int));
        assert(plans@.take(i + 1).last() == plans@[i as int]);
        match &plans[i] {
            RowPlan::Insert(_) => {
                imported += 1;
            },
            RowPlan::Duplicate => {
                skipped += 1;
            },
            RowPlan::Unmatched => {
                unmatched.push(rows[i].clone());
            },
        }
        i += 1;
    }
    assert(plans@.take(plans.len() as int) =~= plans@);
    ImportOutcome { total_rows: rows.len(), imported, skipped_duplicates: skipped, unmatched }
}

// -- inserting a row ---------------------------------------------------------------

/// What the destination posting of an imported row gets: the row's amount
/// negated (zero when it is zero).
pub open spec fn row_fill(v: DecimalValue) -> DecimalValue {
    if v.magnitude == 0 {
        crate::totals::zero_value()
    } else {
        v.negated()
    }
}

/// The transaction an imported row becomes.
pub open spec fn row_transaction_view(
    source: Seq<char>,
    dest: Seq<char>,
    commodity: Seq<char>,
    row: CsvRow,
) -> crate::model::TransactionView {
    crate::model::TransactionView {
        id: None,
        date: row.date.ymd(),
        flag: Flag::Cleared,
        payee: None,
        narration: row.payee@,
        tags: Seq::empty(),
        links: Seq::empty(),
        postings: seq![
            crate::model::PostingView { account: source, amount: Some((row.amount@, commodity)), cost_or_price: None, meta: Seq::empty() },
            crate::model::PostingView { account: dest, amount: Some((row_fill(row.amount@), commodity)), cost_or_price: None, meta: Seq::empty() },
        ],
        meta: Seq::empty(),
    }
}

/// The transaction for a categorised row: dated as the row, narrated by
/// its payee, cleared; the row's amount from the source account, balanced
/// by the destination. The error is the destination's parse error.
pub fn row_transaction(
    source_account: &Account,
    destination: &str,
    commodity: &str,
    row: &CsvRow,
) -> (r: Result<Transaction, JamaError>)
    ensures
        match (r, crate::model::account_parse(destination@)) {
            (Ok(t), Ok(dest)) => t@ == row_transaction_view(source_account@, dest, commodity@, *row) && t.date == row.date,
            (Err(e), Err(m)) => e matches JamaError::Import(msg) && msg@ == m,
            _ => false,
        },
{
    let dest = match Account::parse(destination) {
        Ok(a) => a,
        Err(e) => {
            return Err(JamaError::Import(e));
        },
    };
    row.amount.valid();
    let mut postings: Vec<Posting> = Vec::new();
    let amount = Amount::new(row.amount, String::from_str(commodity));
    postings.push(Posting::new(source_account.clone(), amount));
    postings.push(Posting::elided(dest));
    let mut txn = Transaction::new(row.date, row.payee.clone());
    txn.postings = postings;
    let ghost ps = txn.postings@;
    proof {
        let c = commodity@;
        let v = row.amount@;
        assert(ps.take(0) =~= Seq::<Posting>::empty());
        assert(ps.take(1).drop_last() =~= Seq::<Posting>::empty());
        assert(crate::model::explicit_sums(Seq::<Posting>::empty()) == Seq::<(Seq<char>, DecimalValue)>::empty());
        assert(crate::model::elided_count(Seq::<Posting>::empty()) == 0);
        assert(ps[0].amount == Some(Amount { number: row.amount, commodity: ps[0].amount->0.commodity }));
        assert(ps[0].amount->0.commodity@ == c);
        assert(ps.take(1).last() == ps[0]);
        assert(crate::model::explicit_sums(ps.take(1)) == crate::totals::totals_add(Seq::empty(), c, v));
        assert(crate::model::elided_count(ps.take(1)) == 0);
        assert forall|k: int| 0 <= k < ps.len() && crate::model::elided_count(ps.take(k)) <= 1 implies #[trigger] crate::model::step_fits(ps, k) by {
            if k == 0 {
                assert(crate::model::explicit_sums(ps.take(0)) =~= Seq::<(Seq<char>, DecimalValue)>::empty());
            }
        }
        assert(ps.drop_last() =~= ps.take(1));
        assert(crate::model::explicit_sums(ps) == crate::totals::totals_add(Seq::empty(), c, v));
        assert(crate::model::elided_count(ps) == 1);
        let t = crate::totals::totals_add(Seq::<(Seq<char>, DecimalValue)>::empty(), c, v);
        assert(t == seq![(c, v)]);
        assert(t.drop_last() =~= Seq::<(Seq<char>, DecimalValue)>::empty());
        assert(crate::model::nonzero_totals(Seq::<(Seq<char>, DecimalValue)>::empty()) == Seq::<(Seq<char>, DecimalValue)>::empty());
        if v.magnitude == 0 {
            assert(crate::model::nonzero_totals(t) =~= Seq::<(Seq<char>, DecimalValue)>::empty());
            assert(crate::model::resolve_result(ps) == Ok::<Option<(DecimalValue, Seq<char>)>, Seq<char>>(Some((crate::totals::zero_value(), c))));
        } else {
            assert(crate::model::nonzero_totals(t) =~= seq![(c, v)]);
            assert(crate::model::resolve_result(ps) == Ok::<Option<(DecimalValue, Seq<char>)>, Seq<char>>(Some((v.negated(), c))));
        }
    }
    match txn.resolve_postings() {
        Ok(resolved) => {
            assert(crate::model::resolved_from(ps[0], resolved@[0], Some((row_fill(row.amount@), commodity@))));
            assert(crate::model::resolved_from(ps[1], resolved@[1], Some((row_fill(row.amount@), commodity@))));
            assert(resolved@[0].meta@ =~= Seq::<(Seq<char>, Seq<char>)>::empty());
            assert(resolved@[1].meta@ =~= Seq::<(Seq<char>, Seq<char>)>::empty());
            assert(resolved@[0]@ == row_transaction_view(source_account@, dest@, commodity@, *row).postings[0]);
            assert(resolved@[1]@ == row_transaction_view(source_account@, dest@, commodity@, *row).postings[1]);
            txn.postings = resolved;
            assert(crate::model::postings_view(txn.postings@) =~= row_transaction_view(source_account@, dest@, commodity@, *row).postings);
            assert(crate::model::strings_view(txn.tags@) =~= Seq::<Seq<char>>::empty());
            assert(crate::model::strings_view(txn.links@) =~= Seq::<Seq<char>>::empty());
            assert(txn.meta@ =~= Seq::<(Seq<char>, Seq<char>)>::empty());
            Ok(txn)
        },
        Err(imb) => Err(JamaError::Imbalance(imb)),
    }
}

/// The commodity of an import: the rules file's `[source].commodity` when
/// given, else the source account's declared currency, else the ledger's
/// default; with none of them, an error that says how to supply one.
pub fn resolve_commodity(
    explicit: Option<&str>,
    declared: Option<String>,
    default: Option<String>,
) -> (r: Result<String, JamaError>)
    ensures
        match (explicit, declared, default) {
            (Some(e), _, _) => r matches Ok(s) && s@ == e@,
            (None, Some(d), _) => r matches Ok(s) && s@ == d@,
            (None, None, Some(d)) => r matches Ok(s) && s@ == d@,
            (None, None, None) => r matches Err(JamaError::Invalid(m)) && m@ == missing_commodity_text(),
        },
{
    match explicit {
        Some(e) => Ok(String::from_str(e)),
        None => match declared {
            Some(d) => Ok(d),
            None => match default {
                Some(d) => Ok(d),
                None => Err(JamaError::Invalid(String::from_str(
                    "no commodity given: pass --commodity, declare a currency on the account's open directive, or set a ledger default with `jama init --commodity`",
                ))),
            },
        },
    }
}

/// The message when no commodity can be found.
pub open spec fn missing_commodity_text() -> Seq<char> {
    "no commodity given: pass --commodity, declare a currency on the account's open directive, or set a ledger default with `jama init --commodity`"@
}

} // verus!
