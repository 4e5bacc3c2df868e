//! The JAMA ledger text format: a Beancount-flavoured, human-editable
//! plain-text syntax, in both directions — parsing text into
//! [`Directive`]s and serializing them back to text.

use vstd::prelude::*;

use crate::date::{date_text, iso_result, ymd_text, Date};
use crate::decimal::{number_parse, decimal_text, Decimal, DecimalValue};
use crate::error::JamaError;
use crate::model::{
    account_parse, amount_text, meta_insert, roots, Account, Amount, CommodityInfo, CostOrPrice,
    Directive, DirectiveView, Flag, Meta, Posting, PostingView, Transaction, TransactionView,
};
use crate::text::{
    after_char, after_ws, append_chars, append_str, before_char, before_ws, chars_of, debug_chars,
    debug_text, find, index_of_char, is_ws, join, next_char, parse_u32, split_char, starts_with, string_of,
    trim, trim_end, trim_start, uint_text, ws_tokens,
};

verus! {

// ---------------------------------------------------------------------
// Lines
// ---------------------------------------------------------------------

/// Drops one trailing carriage return.
pub open spec fn strip_cr(l: Seq<char>) -> Seq<char> {
    if l.len() > 0 && l.last() == '\r' {
        l.drop_last()
    } else {
        l
    }
}

/// `str::lines`: the pieces between line feeds, each stripped of a `\r`
/// that precedes its line feed; a final line feed ends the last line
/// rather than starting an empty one.
pub open spec fn text_lines(s: Seq<char>) -> Seq<Seq<char>> {
    let ps = split_char(s, '\n');
    let n = ps.len() as int;
    Seq::new((n - 1) as nat, |i: int| strip_cr(ps[i])) + if n >= 1 && ps[n - 1].len() > 0 {
        seq![ps[n - 1]]
    } else {
        Seq::<Seq<char>>::empty()
    }
}

// ---------------------------------------------------------------------
// Line-level grammar
// ---------------------------------------------------------------------

/// The number's text without its thousands separators (`4,231.00` reads as
/// `4231.00`).
pub open spec fn grouping_dropped(s: Seq<char>) -> Seq<char>
    decreases s.len(),
{
    if s.len() == 0 {
        Seq::empty()
    } else {
        grouping_dropped(s.drop_last()) + if s.last() == ',' {
            Seq::<char>::empty()
        } else {
            seq![s.last()]
        }
    }
}

/// Text without commas loses nothing to [`grouping_dropped`].
pub proof fn lemma_grouping_plain(s: Seq<char>)
    requires
        forall|i: int| 0 <= i < s.len() ==> s[i] != ',',
    ensures
        grouping_dropped(s) == s,
    decreases s.len(),
{
    if s.len() > 0 {
        lemma_grouping_plain(s.drop_last());
        assert(s.drop_last().push(s.last()) =~= s);
    }
}

fn drop_grouping(s: &Vec<char>) -> (r: Vec<char>)
    ensures
        r@ == grouping_dropped(s@),
{
    let mut out: Vec<char> = Vec::new();
    let mut i: usize = 0;
    assert(s@.take(0) =~= Seq::<char>::empty());
    while i < s.len()
        invariant
            i <= s.len(),
            out@ == grouping_dropped(s@.take(i as int)),
        decreases s.len() - i,
    {
        assert(s@.take(i + 1).drop_last() =~= s@.take(i as int));
        assert(s@.take(i + 1).last() == s@[i as int]);
        if s[i] != ',' {
            out.push(s[i]);
        }
        proof {
            if s@[i as int] == ',' {
                assert(out@ =~= grouping_dropped(s@.take(i as int)) + Seq::<char>::empty());
            }
        }
        i += 1;
    }
    assert(s@.take(s.len() as int) =~= s@);
    out
}

/// What parsing an amount (`NUMBER COMMODITY`) yields, or the message;
/// the number may group its thousands with commas.
#[verifier::opaque]
pub open spec fn amount_result(s0: Seq<char>) -> Result<(DecimalValue, Seq<char>), Seq<char>> {
    let s = trim(s0);
    let number = before_ws(s);
    let commodity = match after_ws(s) {
        Some(c) => trim(c),
        None => Seq::empty(),
    };
    if commodity.len() == 0 {
        Err("amount "@ + debug_text(s) + " is missing a commodity code"@)
    } else {
        match number_parse(grouping_dropped(number)) {
            Ok(t) => Ok((DecimalValue { negative: t.0, magnitude: t.1 as nat, scale: t.2 as nat }, commodity)),
            Err(e) => Err("bad number "@ + debug_text(number) + ": "@ + e),
        }
    }
}

/// What parsing an account field yields, or the message.
pub open spec fn account_field(f: Option<Seq<char>>) -> Result<Seq<char>, Seq<char>> {
    match f {
        None => Err("expected an account name"@),
        Some(x) => account_parse(x),
    }
}

pub open spec fn ascii_lower(c: char) -> bool {
    'a' <= c <= 'z'
}

pub open spec fn ascii_alnum(c: char) -> bool {
    ('a' <= c <= 'z') || ('A' <= c <= 'Z') || ('0' <= c <= '9')
}

/// A character allowed in a metadata key.
pub open spec fn key_char(c: char) -> bool {
    ascii_alnum(c) || c == '-' || c == '_'
}

/// Drops one pair of surrounding double quotes, if both are there.
pub open spec fn unquote(v: Seq<char>) -> Seq<char> {
    if v.len() >= 2 && v[0] == '"' && v.last() == '"' {
        v.subrange(1, v.len() - 1)
    } else {
        v
    }
}

/// A `key: "value"` metadata line: the key starts with a lowercase ASCII
/// letter and has only ASCII letters, digits, `-` and `_`; the value is
/// unquoted. `None` when the line is not one.
pub open spec fn meta_line(t: Seq<char>) -> Option<(Seq<char>, Seq<char>)> {
    match index_of_char(t, ':') {
        None => None,
        Some(colon) => {
            let key = trim(t.take(colon));
            if key.len() == 0 || !ascii_lower(key[0]) {
                None
            } else if !(forall|i: int| 0 <= i < key.len() ==> key_char(#[trigger] key[i])) {
                None
            } else {
                Some((key, unquote(trim(t.skip(colon + 1)))))
            }
        },
    }
}

/// The line names an account under root `r`, or is `r` itself.
pub open spec fn root_posting(t: Seq<char>, r: Seq<char>) -> bool {
    starts_with(t, r.push(':')) || t == r
}

/// The line names an account under one of the roots (or a root itself).
pub open spec fn posting_line(t: Seq<char>) -> bool {
    root_posting(t, "assets"@) || root_posting(t, "liabilities"@) || root_posting(t, "equity"@)
        || root_posting(t, "income"@) || root_posting(t, "expenses"@)
}

/// What parsing a posting line yields. `Abort` is the input on which the
/// slicing between `{` and a `}` before it would panic.
pub enum PostingParse {
    Parsed(PostingView),
    Failed(Seq<char>),
    Abort,
}

/// The account and optional amount of a posting line without its cost or
/// price part.
#[verifier::opaque]
pub open spec fn posting_base(remaining: Seq<char>, cost: Option<((DecimalValue, Seq<char>), bool)>) -> PostingParse {
    match account_field(Some(before_ws(remaining))) {
        Err(m) => PostingParse::Failed(m),
        Ok(account) => {
            let part = match after_ws(remaining) {
                Some(x) => trim(x),
                None => Seq::empty(),
            };
            if part.len() == 0 {
                PostingParse::Parsed(PostingView { account, amount: None, cost_or_price: cost, meta: Seq::empty() })
            } else {
                match amount_result(part) {
                    Err(m) => PostingParse::Failed(m),
                    Ok(a) => PostingParse::Parsed(
                        PostingView { account, amount: Some(a), cost_or_price: cost, meta: Seq::empty() },
                    ),
                }
            }
        },
    }
}

/// What parsing a posting line yields: `ACCOUNT [AMOUNT] [{COST} | @ PRICE]`.
#[verifier::opaque]
pub open spec fn posting_result(t: Seq<char>) -> PostingParse {
    match find(t, " @ "@) {
        Some(at) => match amount_result(trim(t.skip(at + 3))) {
            Err(m) => PostingParse::Failed(m),
            Ok(a) => posting_base(trim_end(t.take(at)), Some((a, false))),
        },
        None => match (index_of_char(t, '{'), index_of_char(t, '}')) {
            (Some(open), Some(close)) => if close < open + 1 {
                PostingParse::Abort
            } else {
                match amount_result(trim(t.subrange(open + 1, close))) {
                    Err(m) => PostingParse::Failed(m),
                    Ok(a) => posting_base(trim_end(t.take(open)), Some((a, true))),
                }
            },
            _ => posting_base(t, None),
        },
    }
}

/// The double-quoted strings of a header tail from `pos` on, and where the
/// text after the last one starts (`last` when there is none); `None` when
/// a string is not terminated.
pub open spec fn quoted_from(t: Seq<char>, pos: int, last: int) -> Option<(Seq<Seq<char>>, int)>
    decreases t.len() - pos,
{
    let open = next_char(t, '"', pos);
    if pos < 0 || pos > t.len() || open >= t.len() {
        Some((Seq::empty(), last))
    } else {
        let close = next_char(t, '"', open + 1);
        if close >= t.len() || close < pos {
            None
        } else {
            match quoted_from(t, close + 1, close + 1) {
                None => None,
                Some((rest, end)) => Some((seq![t.subrange(open + 1, close)] + rest, end)),
            }
        }
    }
}

/// A transaction header's (payee, narration, remainder): one string is the
/// narration alone, two or more the payee and narration (the last two).
pub open spec fn header_result(t: Seq<char>) -> Result<(Option<Seq<char>>, Seq<char>, Seq<char>), Seq<char>> {
    match quoted_from(t, 0, 0) {
        None => Err("unterminated string in transaction header"@),
        Some((strs, end)) => {
            let rem = t.skip(end);
            if strs.len() == 0 {
                Ok((None, Seq::empty(), rem))
            } else if strs.len() == 1 {
                Ok((None, strs[0], rem))
            } else {
                Ok((Some(strs[strs.len() - 2]), strs[strs.len() - 1], rem))
            }
        },
    }
}

/// The `#tag` tokens, without their `#`.
pub open spec fn tags_of(toks: Seq<Seq<char>>) -> Seq<Seq<char>>
    decreases toks.len(),
{
    if toks.len() == 0 {
        Seq::empty()
    } else if toks.last().len() > 0 && toks.last()[0] == '#' {
        tags_of(toks.drop_last()).push(toks.last().drop_first())
    } else {
        tags_of(toks.drop_last())
    }
}

/// The `^link` tokens, without their `^`.
pub open spec fn links_of(toks: Seq<Seq<char>>) -> Seq<Seq<char>>
    decreases toks.len(),
{
    if toks.len() == 0 {
        Seq::empty()
    } else if toks.last().len() > 0 && toks.last()[0] != '#' && toks.last()[0] == '^' {
        links_of(toks.drop_last()).push(toks.last().drop_first())
    } else {
        links_of(toks.drop_last())
    }
}

// ---------------------------------------------------------------------
// Blocks of lines
// ---------------------------------------------------------------------

/// What parsing a transaction body yields: its postings, metadata and the
/// index of the first line after it; or the failing line and message.
pub enum BodyParse {
    Parsed(Seq<PostingView>, Seq<(Seq<char>, Seq<char>)>, int),
    Failed(nat, Seq<char>),
    Abort,
}

/// Parses the indented body lines from `i` on.
pub open spec fn body_from(
    lines: Seq<Seq<char>>,
    i: int,
    ps: Seq<PostingView>,
    meta: Seq<(Seq<char>, Seq<char>)>,
) -> BodyParse
    decreases lines.len() - i,
{
    if i >= lines.len() || i < 0 {
        BodyParse::Parsed(ps, meta, i)
    } else {
        let raw = lines[i];
        let t = trim(raw);
        if t.len() == 0 || !is_ws(raw[0]) {
            BodyParse::Parsed(ps, meta, i)
        } else if t[0] == ';' {
            body_from(lines, i + 1, ps, meta)
        } else if posting_line(t) {
            match posting_result(t) {
                PostingParse::Parsed(p) => body_from(lines, i + 1, ps.push(p), meta),
                PostingParse::Failed(m) => BodyParse::Failed((i + 1) as nat, m),
                PostingParse::Abort => BodyParse::Abort,
            }
        } else {
            match meta_line(t) {
                Some((k, v)) => body_from(lines, i + 1, ps, meta_insert(meta, k, v)),
                None => BodyParse::Failed(
                    (i + 1) as nat,
                    "could not parse transaction body line: "@ + debug_text(t),
                ),
            }
        }
    }
}

/// What parsing the directive at a line yields: the directive and how
/// many lines it took; or the failing line and message.
pub enum StepParse {
    Parsed(DirectiveView, int),
    Failed(nat, Seq<char>),
    Abort,
}

/// Parses a transaction whose header (after the flag) is `tail`.
pub open spec fn transaction_at(
    lines: Seq<Seq<char>>,
    start: int,
    date: (int, int, int),
    flag: Flag,
    tail: Seq<char>,
) -> StepParse {
    match header_result(tail) {
        Err(m) => StepParse::Failed((start + 1) as nat, m),
        Ok((payee, narration, rem)) => {
            let toks = ws_tokens(rem);
            match body_from(lines, start + 1, Seq::empty(), Seq::empty()) {
                BodyParse::Parsed(ps, meta, end) => StepParse::Parsed(
                    DirectiveView::Transaction(
                        TransactionView {
                            id: None,
                            date,
                            flag,
                            payee,
                            narration,
                            tags: tags_of(toks),
                            links: links_of(toks),
                            postings: ps,
                            meta,
                        },
                    ),
                    end - start,
                ),
                BodyParse::Failed(l, m) => StepParse::Failed(l, m),
                BodyParse::Abort => StepParse::Abort,
            }
        },
    }
}

/// The currencies of an `open` line: the comma-separated pieces of the
/// fields after the account, empty ones dropped.
pub open spec fn currencies_of(fields: Seq<Seq<char>>) -> Seq<Seq<char>>
    decreases fields.len(),
{
    if fields.len() == 0 {
        Seq::empty()
    } else {
        currencies_of(fields.drop_last()) + nonempty_pieces(split_char(fields.last(), ','))
    }
}

/// The non-empty pieces, in order.
pub open spec fn nonempty_pieces(ps: Seq<Seq<char>>) -> Seq<Seq<char>>
    decreases ps.len(),
{
    if ps.len() == 0 {
        Seq::empty()
    } else if ps.last().len() == 0 {
        nonempty_pieces(ps.drop_last())
    } else {
        nonempty_pieces(ps.drop_last()).push(ps.last())
    }
}

/// `u8::from_str`.
pub open spec fn parse_u8(s: Seq<char>) -> Option<u8> {
    match parse_u32(s) {
        Some(v) => if v <= 255 {
            Some(v as u8)
        } else {
            None
        },
        None => None,
    }
}

/// The precision a `commodity` directive takes from the line after it, if
/// that line is an indented `precision` metadatum.
pub open spec fn precision_line(lines: Seq<Seq<char>>, start: int) -> Option<u8> {
    if start + 1 < lines.len() && lines[start + 1].len() > 0 && is_ws(lines[start + 1][0])
        && trim(lines[start + 1]).len() > 0 {
        match meta_line(trim(lines[start + 1])) {
            Some((k, v)) => if k == "precision"@ {
                Some(
                    match parse_u8(v) {
                        Some(p) => p,
                        None => 2u8,
                    },
                )
            } else {
                None
            },
            None => None,
        }
    } else {
        None
    }
}

/// An `open` line: the account, then comma-separated currencies.
pub open spec fn open_at(fields: Seq<Seq<char>>, date: (int, int, int), line_no: nat) -> StepParse {
    match account_field(if fields.len() > 0 { Some(fields[0]) } else { None }) {
        Err(m) => StepParse::Failed(line_no, m),
        Ok(account) => StepParse::Parsed(
            DirectiveView::Open { date, account, currencies: currencies_of(fields.skip(1)) },
            1,
        ),
    }
}

/// A `close` line.
pub open spec fn close_at(fields: Seq<Seq<char>>, date: (int, int, int), line_no: nat) -> StepParse {
    match account_field(if fields.len() > 0 { Some(fields[0]) } else { None }) {
        Err(m) => StepParse::Failed(line_no, m),
        Ok(account) => StepParse::Parsed(DirectiveView::Close { date, account }, 1),
    }
}

/// A `balance` line: the account, then the amount.
pub open spec fn balance_at(tail: Seq<char>, date: (int, int, int), line_no: nat) -> StepParse {
    match account_field(Some(before_ws(tail))) {
        Err(m) => StepParse::Failed(line_no, m),
        Ok(account) => match after_ws(tail) {
            None => StepParse::Failed(line_no, "balance directive missing amount"@),
            Some(a) => match amount_result(trim(a)) {
                Err(m) => StepParse::Failed(line_no, m),
                Ok(amount) => StepParse::Parsed(DirectiveView::Balance { date, account, amount }, 1),
            },
        },
    }
}

/// A `pad` line: the account, then the source account.
pub open spec fn pad_at(fields: Seq<Seq<char>>, date: (int, int, int), line_no: nat) -> StepParse {
    match account_field(if fields.len() > 0 { Some(fields[0]) } else { None }) {
        Err(m) => StepParse::Failed(line_no, m),
        Ok(account) => match account_field(if fields.len() > 1 { Some(fields[1]) } else { None }) {
            Err(m) => StepParse::Failed(line_no, m),
            Ok(source) => StepParse::Parsed(DirectiveView::Pad { date, account, source }, 1),
        },
    }
}

/// A `commodity` line, with an optional `precision` line after it
/// (precision 2 otherwise).
pub open spec fn commodity_at(
    lines: Seq<Seq<char>>,
    start: int,
    fields: Seq<Seq<char>>,
    date: (int, int, int),
    line_no: nat,
) -> StepParse {
    let code = if fields.len() > 0 { fields[0] } else { Seq::empty() };
    if code.len() == 0 {
        StepParse::Failed(line_no, "commodity directive missing code"@)
    } else {
        match precision_line(lines, start) {
            Some(p) => StepParse::Parsed(DirectiveView::Commodity { date, code, precision: p }, 2),
            None => StepParse::Parsed(DirectiveView::Commodity { date, code, precision: 2 }, 1),
        }
    }
}

/// The date text of a header line and what follows it: the keyword and
/// the (trimmed) tail.
pub open spec fn header_parts(line: Seq<char>) -> (Seq<char>, Seq<char>, Seq<char>) {
    let date_str = before_char(line, ' ');
    let rest = trim_start(line.skip(date_str.len() as int));
    let keyword = before_char(rest, ' ');
    let tail = match after_char(rest, ' ') {
        Some(x) => trim(x),
        None => Seq::empty(),
    };
    (date_str, keyword, tail)
}

/// Parses the directive whose header is `lines[start]`.
#[verifier::opaque]
pub open spec fn directive_at(lines: Seq<Seq<char>>, start: int) -> StepParse {
    let line_no = (start + 1) as nat;
    let (date_str, keyword, tail) = header_parts(trim(lines[start]));
    match iso_result(date_str) {
        Err(e) => StepParse::Failed(line_no, e),
        Ok(date) => {
            let fields = ws_tokens(tail);
            if keyword == "*"@ {
                transaction_at(lines, start, date, Flag::Cleared, tail)
            } else if keyword == "!"@ {
                transaction_at(lines, start, date, Flag::Pending, tail)
            } else if keyword == "open"@ {
                open_at(fields, date, line_no)
            } else if keyword == "close"@ {
                close_at(fields, date, line_no)
            } else if keyword == "balance"@ {
                balance_at(tail, date, line_no)
            } else if keyword == "pad"@ {
                pad_at(fields, date, line_no)
            } else if keyword == "commodity"@ {
                commodity_at(lines, start, fields, date, line_no)
            } else {
                StepParse::Failed(line_no, "unknown directive keyword "@ + debug_text(keyword))
            }
        },
    }
}

/// What parsing a whole file yields: its directives in order, or the
/// first error's line and message. `Abort` is a file with a posting whose
/// `}` comes before its `{`: no cost can be cut out of such a line.
pub enum FileParse {
    Parsed(Seq<DirectiveView>),
    Failed(nat, Seq<char>),
    Abort,
}

/// How many lines are left from `i` on.
pub open spec fn remaining_lines(lines: Seq<Seq<char>>, i: int) -> nat {
    if i >= lines.len() {
        0
    } else {
        (lines.len() - i) as nat
    }
}

/// Parses the lines from `i` on.
pub open spec fn parse_from(lines: Seq<Seq<char>>, i: int) -> FileParse
    decreases remaining_lines(lines, i),
{
    if i >= lines.len() || i < 0 {
        FileParse::Parsed(Seq::empty())
    } else {
        let raw = lines[i];
        let t = trim(raw);
        if t.len() == 0 || t[0] == ';' {
            parse_from(lines, i + 1)
        } else if is_ws(raw[0]) {
            FileParse::Failed(
                (i + 1) as nat,
                "unexpected indented line outside a transaction: "@ + debug_text(raw),
            )
        } else {
            match directive_at(lines, i) {
                StepParse::Parsed(d, n) => if n < 1 {
                    FileParse::Abort
                } else {
                    match parse_from(lines, i + n) {
                        FileParse::Parsed(rest) => FileParse::Parsed(seq![d] + rest),
                        other => other,
                    }
                },
                StepParse::Failed(l, m) => FileParse::Failed(l, m),
                StepParse::Abort => FileParse::Abort,
            }
        }
    }
}

/// What parsing a ledger text yields.
pub open spec fn parse_text(s: Seq<char>) -> FileParse {
    parse_from(text_lines(s), 0)
}

// ---------------------------------------------------------------------
// Parsing, executable
// ---------------------------------------------------------------------

/// The outcome of a parsing step: done, failed with an error, or aborted
/// on a posting whose `}` comes before its `{`.
pub enum Step<T> {
    Done(T),
    Fail(JamaError),
    Abort,
}

/// `e` is a parse error at line `l` with message `m`.
pub open spec fn error_is(e: JamaError, l: nat, m: Seq<char>) -> bool {
    e matches JamaError::Parse { line, message } && line == l && message@ == m
}

fn parse_error(line: usize, message: String) -> (r: JamaError)
    ensures
        error_is(r, line as nat, message@),
{
    JamaError::Parse { line, message }
}

/// `str::lines` on characters.
pub fn lines_of(s: &Vec<char>) -> (r: Vec<Vec<char>>)
    ensures
        crate::text::pieces_view(r@) == text_lines(s@),
{
    let ps = crate::text::split_chars(s, '\n');
    let ghost pv = split_char(s@, '\n');
    proof {
        crate::text::lemma_split_len(s@, '\n');
    }
    let n = ps.len();
    let mut out: Vec<Vec<char>> = Vec::new();
    let mut i: usize = 0;
    while i + 1 < n
        invariant
            n == ps@.len(),
            n == pv.len(),
            n >= 1,
            i + 1 <= n,
            forall|k: int| 0 <= k < ps@.len() ==> #[trigger] ps@[k]@ == pv[k],
            out@.len() == i,
            forall|k: int| 0 <= k < i ==> (#[trigger] out@[k])@ == strip_cr(pv[k]),
        decreases n - i,
    {
        let l = &ps[i];
        if l.len() > 0 && l[l.len() - 1] == '\r' {
            out.push(crate::text::slice_chars(l, 0, l.len() - 1));
            assert(l@.subrange(0, l@.len() - 1) =~= l@.drop_last());
        } else {
            out.push(crate::text::slice_chars(l, 0, l.len()));
            assert(l@.subrange(0, l@.len() as int) =~= l@);
        }
        i += 1;
    }
    let last = &ps[n - 1];
    if last.len() > 0 {
        out.push(crate::text::slice_chars(last, 0, last.len()));
        assert(last@.subrange(0, last@.len() as int) =~= last@);
    }
    assert(crate::text::pieces_view(out@) =~= text_lines(s@));
    out
}

/// An amount, `NUMBER COMMODITY`.
fn parse_amount(s0: &Vec<char>, line_no: usize) -> (r: Result<Amount, JamaError>)
    ensures
        match r {
            Ok(a) => amount_result(s0@) == Ok::<(DecimalValue, Seq<char>), Seq<char>>(
                crate::model::amount_pair(a),
            ),
            Err(e) => amount_result(s0@) matches Err(m) && error_is(e, line_no as nat, m),
        },
{
    reveal(amount_result);
    let s = crate::text::trim_chars(s0);
    let k = crate::text::next_ws_exec(&s, 0);
    let number = crate::text::slice_chars(&s, 0, k);
    assert(number@ =~= before_ws(s@));
    let commodity = if k < s.len() {
        let rest = crate::text::slice_chars(&s, k + 1, s.len());
        assert(rest@ =~= s@.skip(k + 1));
        crate::text::trim_chars(&rest)
    } else {
        Vec::new()
    };
    if commodity.len() == 0 {
        let mut m = chars_of("amount ");
        let q = debug_chars(&s);
        append_chars(&mut m, &q);
        append_str(&mut m, " is missing a commodity code");
        return Err(parse_error(line_no, string_of(&m)));
    }
    let plain = drop_grouping(&number);
    let ns = string_of(&plain);
    match Decimal::parse(ns.as_str()) {
        Ok(d) => Ok(Amount::new(d, string_of(&commodity))),
        Err(e) => {
            let mut m = chars_of("bad number ");
            let q = debug_chars(&number);
            append_chars(&mut m, &q);
            append_str(&mut m, ": ");
            append_str(&mut m, e.as_str());
            Err(parse_error(line_no, string_of(&m)))
        },
    }
}

/// An account field (`None` when the field is missing).
pub fn parse_account(field: Option<&str>, line_no: usize) -> (r: Result<Account, JamaError>)
    ensures
        match r {
            Ok(a) => account_field(opt_view(field)) == Ok::<Seq<char>, Seq<char>>(a@),
            Err(e) => account_field(opt_view(field)) matches Err(m) && error_is(e, line_no as nat, m),
        },
{
    match field {
        None => Err(parse_error(line_no, String::from_str("expected an account name"))),
        Some(f) => match Account::parse(f) {
            Ok(a) => Ok(a),
            Err(e) => Err(parse_error(line_no, e)),
        },
    }
}

/// An optional text's characters.
pub open spec fn opt_view(o: Option<&str>) -> Option<Seq<char>> {
    match o {
        Some(s) => Some(s@),
        None => None,
    }
}

/// A `key: "value"` metadata line, if it is one.
pub fn parse_meta_line(trimmed: &str) -> (r: Option<(String, String)>)
    ensures
        match (r, meta_line(trimmed@)) {
            (Some((k, v)), Some((k2, v2))) => k@ == k2 && v@ == v2,
            (None, None) => true,
            _ => false,
        },
{
    let t = chars_of(trimmed);
    assert(t@.skip(0) =~= t@);
    let colon = match crate::text::index_of_char_from(&t, ':', 0) {
        Some(c) => c,
        None => {
            return None;
        },
    };
    let kraw = crate::text::slice_chars(&t, 0, colon);
    assert(kraw@ =~= t@.take(colon as int));
    let key = crate::text::trim_chars(&kraw);
    if key.len() == 0 || !('a' <= key[0] && key[0] <= 'z') {
        return None;
    }
    let mut i: usize = 0;
    while i < key.len()
        invariant
            i <= key.len(),
            t@ == trimmed@,
            index_of_char(t@, ':') == Some(colon as int),
            key@ == trim(t@.take(colon as int)),
            key@.len() > 0,
            ascii_lower(key@[0]),
            forall|j: int| 0 <= j < i ==> key_char(#[trigger] key@[j]),
        decreases key.len() - i,
    {
        let c = key[i];
        if !(('a' <= c && c <= 'z') || ('A' <= c && c <= 'Z') || ('0' <= c && c <= '9') || c == '-' || c
            == '_') {
            assert(!key_char(key@[i as int]));
            return None;
        }
        i += 1;
    }
    let vraw = crate::text::slice_chars(&t, colon + 1, t.len());
    assert(vraw@ =~= t@.skip(colon + 1));
    let value = crate::text::trim_chars(&vraw);
    let v2 = if value.len() >= 2 && value[0] == '"' && value[value.len() - 1] == '"' {
        crate::text::slice_chars(&value, 1, value.len() - 1)
    } else {
        value
    };
    Some((string_of(&key), string_of(&v2)))
}

fn root_match(t: &Vec<char>, r: &str) -> (b: bool)
    ensures
        b == (starts_with(t@, r@.push(':')) || t@ == r@),
{
    let mut p = chars_of(r);
    p.push(':');
    crate::text::chars_starts_with(t, &p) || crate::text::chars_eq_str(t, r)
}

/// Whether a trimmed body line is a posting: it names an account under one
/// of the roots, or a root itself.
pub fn is_posting_line(trimmed: &str) -> (r: bool)
    ensures
        r == posting_line(trimmed@),
{
    let t = chars_of(trimmed);
    let a = root_match(&t, "assets");
    let b = root_match(&t, "liabilities");
    let c = root_match(&t, "equity");
    let d = root_match(&t, "income");
    let e = root_match(&t, "expenses");
    a || b || c || d || e
}

/// Strings found so far, followed by those from the rest.
pub open spec fn more_strings(
    found: Seq<Seq<char>>,
    rest: Option<(Seq<Seq<char>>, int)>,
) -> Option<(Seq<Seq<char>>, int)> {
    match rest {
        None => None,
        Some((more, end)) => Some((found + more, end)),
    }
}

/// The double-quoted strings of a header tail and where the text after the
/// last one starts; `None` when one is not terminated.
fn quoted_strings_exec(t: &Vec<char>) -> (r: Option<(Vec<Vec<char>>, usize)>)
    ensures
        match (r, quoted_from(t@, 0, 0)) {
            (Some((v, e)), Some((sv, se))) => crate::text::pieces_view(v@) == sv && e == se && e <= t@.len(),
            (None, None) => true,
            _ => false,
        },
{
    let mut found: Vec<Vec<char>> = Vec::new();
    let mut pos: usize = 0;
    let mut last: usize = 0;
    assert(crate::text::pieces_view(found@) =~= Seq::<Seq<char>>::empty());
    assert(more_strings(Seq::empty(), quoted_from(t@, 0, 0)) =~= quoted_from(t@, 0, 0)) by {
        match quoted_from(t@, 0, 0) {
            Some((m, e)) => {
                assert(Seq::<Seq<char>>::empty() + m =~= m);
            },
            None => {},
        }
    }
    loop
        invariant
            pos <= t.len(),
            last <= t.len(),
            quoted_from(t@, 0, 0) == more_strings(crate::text::pieces_view(found@), quoted_from(t@, pos as int, last as int)),
        decreases t.len() - pos,
    {
        let open = crate::text::next_char_exec(t, '"', pos);
        if open >= t.len() {
            assert(quoted_from(t@, pos as int, last as int) == Some((Seq::<Seq<char>>::empty(), last as int)));
            assert(crate::text::pieces_view(found@) + Seq::<Seq<char>>::empty() =~= crate::text::pieces_view(found@));
            return Some((found, last));
        }
        let close = crate::text::next_char_exec(t, '"', open + 1);
        if close >= t.len() {
            return None;
        }
        let piece = crate::text::slice_chars(t, open + 1, close);
        let ghost before = crate::text::pieces_view(found@);
        found.push(piece);
        assert(crate::text::pieces_view(found@) =~= before.push(t@.subrange(open + 1, close as int)));
        assert forall|x: Option<(Seq<Seq<char>>, int)>| more_strings(before, more_strings(seq![t@.subrange(open + 1, close as int)], x)) == #[trigger] more_strings(crate::text::pieces_view(found@), x) by {
            match x {
                Some((m, e)) => {
                    assert(before + (seq![t@.subrange(open + 1, close as int)] + m) =~= crate::text::pieces_view(found@) + m);
                },
                None => {},
            }
        }
        pos = close + 1;
        last = close + 1;
    }
}

/// A transaction header's (payee, narration, remainder): up to two
/// double-quoted strings; one is the narration alone, two are the payee
/// and then the narration.
pub fn parse_header_strings(tail: &str, line_no: usize) -> (r: Result<(Option<String>, String, String), JamaError>)
    ensures
        match r {
            Ok((p, n, rem)) => header_result(tail@) == Ok::<(Option<Seq<char>>, Seq<char>, Seq<char>), Seq<char>>(
                (crate::model::opt_string(p), n@, rem@),
            ),
            Err(e) => header_result(tail@) matches Err(m) && error_is(e, line_no as nat, m),
        },
{
    let t = chars_of(tail);
    match quoted_strings_exec(&t) {
        None => Err(parse_error(line_no, String::from_str("unterminated string in transaction header"))),
        Some((strs, end)) => {
            let rem = crate::text::slice_chars(&t, end, t.len());
            assert(rem@ =~= t@.skip(end as int));
            let remainder = string_of(&rem);
            let n = strs.len();
            if n == 0 {
                Ok((None, String::new(), remainder))
            } else if n == 1 {
                Ok((None, string_of(&strs[0]), remainder))
            } else {
                Ok((Some(string_of(&strs[n - 2])), string_of(&strs[n - 1]), remainder))
            }
        },
    }
}

/// The account and amount part of a posting line.
fn parse_posting_base(
    remaining: &Vec<char>,
    cost: Option<CostOrPrice>,
    line_no: usize,
) -> (r: Step<Posting>)
    ensures
        match (r, posting_base(remaining@, crate::model::cost_view(cost))) {
            (Step::Done(p), PostingParse::Parsed(pv)) => p@ == pv,
            (Step::Fail(e), PostingParse::Failed(m)) => error_is(e, line_no as nat, m),
            _ => false,
        },
{
    reveal(posting_base);
    let k = crate::text::next_ws_exec(remaining, 0);
    let first = crate::text::slice_chars(remaining, 0, k);
    assert(first@ =~= before_ws(remaining@));
    let fs = string_of(&first);
    let account = match parse_account(Some(fs.as_str()), line_no) {
        Ok(a) => a,
        Err(e) => {
            return Step::Fail(e);
        },
    };
    let part = if k < remaining.len() {
        let rest = crate::text::slice_chars(remaining, k + 1, remaining.len());
        assert(rest@ =~= remaining@.skip(k + 1));
        crate::text::trim_chars(&rest)
    } else {
        Vec::new()
    };
    if part.len() == 0 {
        let p = Posting { account, amount: None, cost_or_price: cost, meta: Meta::new() };
        return Step::Done(p);
    }
    match parse_amount(&part, line_no) {
        Ok(a) => Step::Done(Posting { account, amount: Some(a), cost_or_price: cost, meta: Meta::new() }),
        Err(e) => Step::Fail(e),
    }
}

/// A posting line with an ` @ ` at `at`: the price after it.
fn parse_priced_posting(t: &Vec<char>, at: usize, line_no: usize) -> (r: Step<Posting>)
    requires
        at + 3 <= t@.len(),
    ensures
        match (r, amount_result(trim(t@.skip(at + 3)))) {
            (Step::Done(p), Ok(a)) => match posting_base(trim_end(t@.take(at as int)), Some((a, false))) {
                PostingParse::Parsed(pv) => p@ == pv,
                _ => false,
            },
            (Step::Fail(e), Ok(a)) => match posting_base(trim_end(t@.take(at as int)), Some((a, false))) {
                PostingParse::Failed(m) => error_is(e, line_no as nat, m),
                _ => false,
            },
            (Step::Fail(e), Err(m)) => error_is(e, line_no as nat, m),
            _ => false,
        },
{
    assert(t@.len() == t.len());
    let pr = crate::text::slice_chars(t, at + 3, t.len());
    assert(pr@ =~= t@.skip(at + 3));
    let price_str = crate::text::trim_chars(&pr);
    let amount = match parse_amount(&price_str, line_no) {
        Ok(a) => a,
        Err(e) => {
            return Step::Fail(e);
        },
    };
    let head = crate::text::slice_chars(t, 0, at);
    assert(head@ =~= t@.take(at as int));
    let remaining = crate::text::trim_end_chars(&head);
    parse_posting_base(&remaining, Some(CostOrPrice { amount, is_cost: false }), line_no)
}

/// A posting line with a `{cost}` between `o` and `c`.
fn parse_cost_posting(t: &Vec<char>, o: usize, c: usize, line_no: usize) -> (r: Step<Posting>)
    requires
        o + 1 <= c <= t@.len(),
    ensures
        match (r, amount_result(trim(t@.subrange(o + 1, c as int)))) {
            (Step::Done(p), Ok(a)) => match posting_base(trim_end(t@.take(o as int)), Some((a, true))) {
                PostingParse::Parsed(pv) => p@ == pv,
                _ => false,
            },
            (Step::Fail(e), Ok(a)) => match posting_base(trim_end(t@.take(o as int)), Some((a, true))) {
                PostingParse::Failed(m) => error_is(e, line_no as nat, m),
                _ => false,
            },
            (Step::Fail(e), Err(m)) => error_is(e, line_no as nat, m),
            _ => false,
        },
{
    let inner = crate::text::slice_chars(t, o + 1, c);
    let cost_str = crate::text::trim_chars(&inner);
    let amount = match parse_amount(&cost_str, line_no) {
        Ok(a) => a,
        Err(e) => {
            return Step::Fail(e);
        },
    };
    let head = crate::text::slice_chars(t, 0, o);
    assert(head@ =~= t@.take(o as int));
    let remaining = crate::text::trim_end_chars(&head);
    parse_posting_base(&remaining, Some(CostOrPrice { amount, is_cost: true }), line_no)
}

/// A posting line: `ACCOUNT [AMOUNT] [{COST} | @ PRICE]`.
#[verifier::rlimit(30)]
pub fn parse_posting(trimmed: &str, line_no: usize) -> (r: Step<Posting>)
    ensures
        match (r, posting_result(trimmed@)) {
            (Step::Done(p), PostingParse::Parsed(pv)) => p@ == pv,
            (Step::Fail(e), PostingParse::Failed(m)) => error_is(e, line_no as nat, m),
            (Step::Abort, PostingParse::Abort) => true,
            _ => false,
        },
{
    let t = chars_of(trimmed);
    let at_pat = chars_of(" @ ");
    proof {
        reveal_strlit(" @ ");
    }
    assert(t@.skip(0) =~= t@);
    match crate::text::find_chars(&t, &at_pat) {
        Some(at) => {
            assert(crate::text::occurs_at(t@, at_pat@, at as int));
            let r = parse_priced_posting(&t, at, line_no);
            assert(posting_result(trimmed@) == match amount_result(trim(t@.skip(at + 3))) {
                Err(m) => PostingParse::Failed(m),
                Ok(a) => posting_base(trim_end(t@.take(at as int)), Some((a, false))),
            }) by {
                reveal(posting_result);
            }
            r
        },
        None => {
            let open = crate::text::index_of_char_from(&t, '{', 0);
            let close = crate::text::index_of_char_from(&t, '}', 0);
            match (open, close) {
                (Some(o), Some(c)) => {
                    if c < o + 1 {
                        assert(posting_result(trimmed@) == PostingParse::Abort) by {
                            reveal(posting_result);
                        }
                        return Step::Abort;
                    }
                    let r = parse_cost_posting(&t, o, c, line_no);
                    assert(posting_result(trimmed@) == match amount_result(trim(t@.subrange(o + 1, c as int))) {
                        Err(m) => PostingParse::Failed(m),
                        Ok(a) => posting_base(trim_end(t@.take(o as int)), Some((a, true))),
                    }) by {
                        reveal(posting_result);
                    }
                    r
                },
                _ => {
                    let r = parse_posting_base(&t, None, line_no);
                    assert(posting_result(trimmed@) == posting_base(t@, None)) by {
                        reveal(posting_result);
                    }
                    r
                },
            }
        },
    }
}

/// A step's outcome agrees with the specified one.
pub open spec fn step_is(r: Step<(Directive, usize)>, spec: StepParse, start: int, nlines: int) -> bool {
    match (r, spec) {
        (Step::Done((d, n)), StepParse::Parsed(dv, m)) => d@ == dv && n == m && 1 <= n && start + n <= nlines,
        (Step::Fail(e), StepParse::Failed(l, m)) => error_is(e, l, m),
        (Step::Abort, StepParse::Abort) => true,
        _ => false,
    }
}

/// The indented body of a transaction whose header is `lines[start]`.
fn parse_body(lines: &Vec<Vec<char>>, start: usize) -> (r: Step<(Vec<Posting>, Meta, usize)>)
    requires
        start < lines.len(),
    ensures
        match (r, body_from(crate::text::pieces_view(lines@), start + 1, Seq::empty(), Seq::empty())) {
            (Step::Done((ps, meta, end)), BodyParse::Parsed(pv, mv, e)) => crate::model::postings_view(ps@) == pv
                && meta@ == mv && end == e && start + 1 <= end <= lines.len(),
            (Step::Fail(err), BodyParse::Failed(l, m)) => error_is(err, l, m),
            (Step::Abort, BodyParse::Abort) => true,
            _ => false,
        },
{
    let ghost lv = crate::text::pieces_view(lines@);
    let mut ps: Vec<Posting> = Vec::new();
    let mut meta = Meta::new();
    let mut i: usize = start + 1;
    assert(crate::model::postings_view(ps@) =~= Seq::<PostingView>::empty());
    loop
        invariant
            start + 1 <= i <= lines.len(),
            lv == crate::text::pieces_view(lines@),
            body_from(lv, start + 1, Seq::empty(), Seq::empty()) == body_from(
                lv,
                i as int,
                crate::model::postings_view(ps@),
                meta@,
            ),
        ensures
            start + 1 <= i <= lines.len(),
            body_from(lv, start + 1, Seq::empty(), Seq::empty()) == BodyParse::Parsed(
                crate::model::postings_view(ps@),
                meta@,
                i as int,
            ),
        decreases lines.len() - i,
    {
        if i >= lines.len() {
            break;
        }
        let raw = &lines[i];
        assert(lv[i as int] == raw@);
        let t = crate::text::trim_chars(raw);
        if t.len() == 0 || !crate::text::is_whitespace(raw[0]) {
            break;
        }
        if t[0] == ';' {
            i += 1;
            continue;
        }
        let ts = string_of(&t);
        if is_posting_line(ts.as_str()) {
            match parse_posting(ts.as_str(), i + 1) {
                Step::Done(p) => {
                    let ghost before = crate::model::postings_view(ps@);
                    ps.push(p);
                    assert(crate::model::postings_view(ps@) =~= before.push(p@));
                },
                Step::Fail(e) => {
                    return Step::Fail(e);
                },
                Step::Abort => {
                    return Step::Abort;
                },
            }
        } else {
            match parse_meta_line(ts.as_str()) {
                Some((k, v)) => {
                    meta.insert(k, v);
                },
                None => {
                    let mut m = chars_of("could not parse transaction body line: ");
                    let q = debug_chars(&t);
                    append_chars(&mut m, &q);
                    return Step::Fail(parse_error(i + 1, string_of(&m)));
                },
            }
        }
        i += 1;
    }
    Step::Done((ps, meta, i))
}

/// The tags (`#tag`) and links (`^link`) among the tokens.
fn tags_and_links(toks: &Vec<Vec<char>>) -> (r: (Vec<String>, Vec<String>))
    ensures
        crate::model::strings_view(r.0@) == tags_of(crate::text::pieces_view(toks@)),
        crate::model::strings_view(r.1@) == links_of(crate::text::pieces_view(toks@)),
{
    let ghost tv = crate::text::pieces_view(toks@);
    let mut tags: Vec<String> = Vec::new();
    let mut links: Vec<String> = Vec::new();
    let mut i: usize = 0;
    assert(tv.take(0) =~= Seq::<Seq<char>>::empty());
    assert(crate::model::strings_view(tags@) =~= Seq::<Seq<char>>::empty());
    assert(crate::model::strings_view(links@) =~= Seq::<Seq<char>>::empty());
    while i < toks.len()
        invariant
            i <= toks.len(),
            tv == crate::text::pieces_view(toks@),
            crate::model::strings_view(tags@) == tags_of(tv.take(i as int)),
            crate::model::strings_view(links@) == links_of(tv.take(i as int)),
        decreases toks.len() - i,
    {
        let tok = &toks[i];
        assert(tv.take(i + 1).drop_last() =~= tv.take(i as int));
        assert(tv.take(i + 1).last() == tok@);
        if tok.len() > 0 && tok[0] == '#' {
            let rest = crate::text::slice_chars(tok, 1, tok.len());
            assert(rest@ =~= tok@.drop_first());
            let ghost before = crate::model::strings_view(tags@);
            tags.push(string_of(&rest));
            assert(crate::model::strings_view(tags@) =~= before.push(rest@));
        } else if tok.len() > 0 && tok[0] == '^' {
            let rest = crate::text::slice_chars(tok, 1, tok.len());
            assert(rest@ =~= tok@.drop_first());
            let ghost before = crate::model::strings_view(links@);
            links.push(string_of(&rest));
            assert(crate::model::strings_view(links@) =~= before.push(rest@));
        }
        i += 1;
    }
    assert(tv.take(toks.len() as int) =~= tv);
    (tags, links)
}

/// A transaction: its header's tail (after the flag), then its body.
fn parse_transaction(
    lines: &Vec<Vec<char>>,
    start: usize,
    date: Date,
    flag: Flag,
    tail: &Vec<char>,
) -> (r: Step<(Directive, usize)>)
    requires
        start < lines.len(),
    ensures
        step_is(
            r,
            transaction_at(crate::text::pieces_view(lines@), start as int, date.ymd(), flag, tail@),
            start as int,
            lines.len() as int,
        ),
{
    let ts = string_of(tail);
    let (payee, narration, rem) = match parse_header_strings(ts.as_str(), start + 1) {
        Ok(h) => h,
        Err(e) => {
            return Step::Fail(e);
        },
    };
    let remv = chars_of(rem.as_str());
    let toks = ws_tokens_chars_of(&remv);
    let (tags, links) = tags_and_links(&toks);
    match parse_body(lines, start) {
        Step::Done((postings, meta, end)) => {
            let t = Transaction { id: None, date, flag, payee, narration, tags, links, postings, meta };
            Step::Done((Directive::Transaction(t), end - start))
        },
        Step::Fail(e) => Step::Fail(e),
        Step::Abort => Step::Abort,
    }
}

fn ws_tokens_chars_of(s: &Vec<char>) -> (r: Vec<Vec<char>>)
    ensures
        crate::text::pieces_view(r@) == ws_tokens(s@),
{
    crate::text::ws_tokens_chars(s)
}

/// The comma-separated currencies of the fields after the first.
fn currencies_exec(fields: &Vec<Vec<char>>) -> (r: Vec<String>)
    requires
        fields.len() >= 1,
    ensures
        crate::model::strings_view(r@) == currencies_of(crate::text::pieces_view(fields@).skip(1)),
{
    let ghost fv = crate::text::pieces_view(fields@);
    let mut out: Vec<String> = Vec::new();
    let mut k: usize = 1;
    assert(fv.subrange(1, 1) =~= Seq::<Seq<char>>::empty());
    assert(crate::model::strings_view(out@) =~= Seq::<Seq<char>>::empty());
    while k < fields.len()
        invariant
            1 <= k <= fields.len(),
            fv == crate::text::pieces_view(fields@),
            crate::model::strings_view(out@) == currencies_of(fv.subrange(1, k as int)),
        decreases fields.len() - k,
    {
        let pieces = crate::text::split_chars(&fields[k], ',');
        let ghost pv = split_char(fv[k as int], ',');
        let ghost base = crate::model::strings_view(out@);
        let mut j: usize = 0;
        assert(pv.take(0) =~= Seq::<Seq<char>>::empty());
        assert(base + nonempty_pieces(pv.take(0)) =~= base);
        while j < pieces.len()
            invariant
                j <= pieces.len(),
                pieces@.len() == pv.len(),
                forall|q: int| 0 <= q < pieces@.len() ==> #[trigger] pieces@[q]@ == pv[q],
                crate::model::strings_view(out@) == base + nonempty_pieces(pv.take(j as int)),
            decreases pieces.len() - j,
        {
            assert(pv.take(j + 1).drop_last() =~= pv.take(j as int));
            assert(pv.take(j + 1).last() == pv[j as int]);
            if pieces[j].len() > 0 {
                let ghost before = crate::model::strings_view(out@);
                out.push(string_of(&pieces[j]));
                assert(crate::model::strings_view(out@) =~= before.push(pv[j as int]));
            }
            j += 1;
        }
        assert(pv.take(pieces.len() as int) =~= pv);
        assert(fv.subrange(1, k + 1).drop_last() =~= fv.subrange(1, k as int));
        assert(fv.subrange(1, k + 1).last() == fv[k as int]);
        k += 1;
    }
    assert(fv.subrange(1, fields.len() as int) =~= fv.skip(1));
    out
}

/// The first field as text, if any.
fn field_str(fields: &Vec<Vec<char>>, i: usize) -> (r: Option<String>)
    ensures
        match r {
            Some(s) => i < fields@.len() && s@ == fields@[i as int]@,
            None => i >= fields@.len(),
        },
{
    if i < fields.len() {
        Some(string_of(&fields[i]))
    } else {
        None
    }
}

fn as_opt_str(o: &Option<String>) -> (r: Option<&str>)
    ensures
        opt_view(r) == crate::model::opt_string(*o),
{
    match o {
        Some(s) => Some(s.as_str()),
        None => None,
    }
}

fn parse_open(fields: &Vec<Vec<char>>, date: Date, line_no: usize) -> (r: Step<(Directive, usize)>)
    ensures
        match (r, open_at(crate::text::pieces_view(fields@), date.ymd(), line_no as nat)) {
            (Step::Done((d, n)), StepParse::Parsed(dv, m)) => d@ == dv && n == m,
            (Step::Fail(e), StepParse::Failed(l, m)) => error_is(e, l, m),
            _ => false,
        },
{
    let f0 = field_str(fields, 0);
    let account = match parse_account(as_opt_str(&f0), line_no) {
        Ok(a) => a,
        Err(e) => {
            return Step::Fail(e);
        },
    };
    let currencies = currencies_exec(fields);
    Step::Done((Directive::Open { date, account, currencies }, 1))
}

fn parse_close(fields: &Vec<Vec<char>>, date: Date, line_no: usize) -> (r: Step<(Directive, usize)>)
    ensures
        match (r, close_at(crate::text::pieces_view(fields@), date.ymd(), line_no as nat)) {
            (Step::Done((d, n)), StepParse::Parsed(dv, m)) => d@ == dv && n == m,
            (Step::Fail(e), StepParse::Failed(l, m)) => error_is(e, l, m),
            _ => false,
        },
{
    let f0 = field_str(fields, 0);
    match parse_account(as_opt_str(&f0), line_no) {
        Ok(account) => Step::Done((Directive::Close { date, account }, 1)),
        Err(e) => Step::Fail(e),
    }
}

fn parse_pad(fields: &Vec<Vec<char>>, date: Date, line_no: usize) -> (r: Step<(Directive, usize)>)
    ensures
        match (r, pad_at(crate::text::pieces_view(fields@), date.ymd(), line_no as nat)) {
            (Step::Done((d, n)), StepParse::Parsed(dv, m)) => d@ == dv && n == m,
            (Step::Fail(e), StepParse::Failed(l, m)) => error_is(e, l, m),
            _ => false,
        },
{
    let f0 = field_str(fields, 0);
    let account = match parse_account(as_opt_str(&f0), line_no) {
        Ok(a) => a,
        Err(e) => {
            return Step::Fail(e);
        },
    };
    let f1 = field_str(fields, 1);
    match parse_account(as_opt_str(&f1), line_no) {
        Ok(source) => Step::Done((Directive::Pad { date, account, source }, 1)),
        Err(e) => Step::Fail(e),
    }
}

fn parse_balance(tail: &Vec<char>, date: Date, line_no: usize) -> (r: Step<(Directive, usize)>)
    ensures
        match (r, balance_at(tail@, date.ymd(), line_no as nat)) {
            (Step::Done((d, n)), StepParse::Parsed(dv, m)) => d@ == dv && n == m,
            (Step::Fail(e), StepParse::Failed(l, m)) => error_is(e, l, m),
            _ => false,
        },
{
    let k = crate::text::next_ws_exec(tail, 0);
    let first = crate::text::slice_chars(tail, 0, k);
    assert(first@ =~= before_ws(tail@));
    let fs = string_of(&first);
    let account = match parse_account(Some(fs.as_str()), line_no) {
        Ok(a) => a,
        Err(e) => {
            return Step::Fail(e);
        },
    };
    if k >= tail.len() {
        return Step::Fail(parse_error(line_no, String::from_str("balance directive missing amount")));
    }
    let rest = crate::text::slice_chars(tail, k + 1, tail.len());
    assert(rest@ =~= tail@.skip(k + 1));
    let amount_str = crate::text::trim_chars(&rest);
    match parse_amount(&amount_str, line_no) {
        Ok(amount) => Step::Done((Directive::Balance { date, account, amount }, 1)),
        Err(e) => Step::Fail(e),
    }
}

/// `u8::from_str` on characters.
fn parse_u8_chars(s: &Vec<char>) -> (r: Option<u8>)
    ensures
        r == parse_u8(s@),
{
    match crate::text::parse_u32_chars(s) {
        Some(v) => if v <= 255 {
            Some(v as u8)
        } else {
            None
        },
        None => None,
    }
}

fn parse_commodity(
    lines: &Vec<Vec<char>>,
    start: usize,
    fields: &Vec<Vec<char>>,
    date: Date,
    line_no: usize,
) -> (r: Step<(Directive, usize)>)
    requires
        start < lines.len(),
    ensures
        match (r, commodity_at(crate::text::pieces_view(lines@), start as int, crate::text::pieces_view(fields@), date.ymd(), line_no as nat)) {
            (Step::Done((d, n)), StepParse::Parsed(dv, m)) => d@ == dv && n == m && start + n <= lines.len(),
            (Step::Fail(e), StepParse::Failed(l, m)) => error_is(e, l, m),
            _ => false,
        },
{
    let ghost lv = crate::text::pieces_view(lines@);
    let code: Vec<char> = if fields.len() > 0 {
        crate::text::slice_chars(&fields[0], 0, fields[0].len())
    } else {
        Vec::new()
    };
    if fields.len() > 0 {
        assert(code@ =~= fields@[0]@);
    }
    if code.len() == 0 {
        return Step::Fail(parse_error(line_no, String::from_str("commodity directive missing code")));
    }
    let mut precision: u8 = 2;
    let mut consumed: usize = 1;
    if start + 1 < lines.len() {
        let next = &lines[start + 1];
        assert(lv[start + 1] == next@);
        if next.len() > 0 && crate::text::is_whitespace(next[0]) {
            let t = crate::text::trim_chars(next);
            if t.len() > 0 {
                let ts = string_of(&t);
                match parse_meta_line(ts.as_str()) {
                    Some((k, v)) => {
                        let kc = chars_of(k.as_str());
                        if crate::text::chars_eq_str(&kc, "precision") {
                            let vc = chars_of(v.as_str());
                            precision = match parse_u8_chars(&vc) {
                                Some(p) => p,
                                None => 2,
                            };
                            consumed = 2;
                        }
                    },
                    None => {},
                }
            }
        }
    }
    let info = CommodityInfo::new(string_of(&code), precision);
    Step::Done((Directive::Commodity { date, info }, consumed))
}

/// The date text, keyword and tail of a header line.
fn split_header(line: &Vec<char>) -> (r: (Vec<char>, Vec<char>, Vec<char>))
    ensures
        (r.0@, r.1@, r.2@) == header_parts(line@),
{
    assert(line@.skip(0) =~= line@);
    let date_len = match crate::text::index_of_char_from(line, ' ', 0) {
        Some(k) => k,
        None => line.len(),
    };
    let date_str = crate::text::slice_chars(line, 0, date_len);
    assert(date_str@ =~= before_char(line@, ' '));
    let rest_raw = crate::text::slice_chars(line, date_len, line.len());
    assert(rest_raw@ =~= line@.skip(date_str@.len() as int));
    let rest = crate::text::trim_start_chars(&rest_raw);
    assert(rest@.skip(0) =~= rest@);
    let kw_len = match crate::text::index_of_char_from(&rest, ' ', 0) {
        Some(k) => k,
        None => rest.len(),
    };
    let keyword = crate::text::slice_chars(&rest, 0, kw_len);
    assert(keyword@ =~= before_char(rest@, ' '));
    let tail = if kw_len < rest.len() {
        let tr = crate::text::slice_chars(&rest, kw_len + 1, rest.len());
        assert(tr@ =~= rest@.skip(kw_len + 1));
        crate::text::trim_chars(&tr)
    } else {
        Vec::new()
    };
    (date_str, keyword, tail)
}

/// Parses the directive starting at `lines[start]`: the directive and how
/// many lines (its indented body included) it took.
#[verifier::rlimit(50)]
fn parse_top_level(lines: &Vec<Vec<char>>, start: usize) -> (r: Step<(Directive, usize)>)
    requires
        start < lines.len(),
    ensures
        step_is(r, directive_at(crate::text::pieces_view(lines@), start as int), start as int, lines.len() as int),
{
    let ghost lv = crate::text::pieces_view(lines@);
    let line_no = start + 1;
    let line = crate::text::trim_chars(&lines[start]);
    assert(lv[start as int] == lines@[start as int]@);
    let (date_str, keyword, tail) = split_header(&line);
    let date = match Date::parse_iso_chars(&date_str) {
        Ok(d) => d,
        Err(e) => {
            assert(directive_at(lv, start as int) == StepParse::Failed(line_no as nat, e@)) by {
                reveal(directive_at);
            }
            return Step::Fail(parse_error(line_no, e));
        },
    };
    let fields = ws_tokens_chars_of(&tail);
    let ghost fv = crate::text::pieces_view(fields@);
    let ghost dv = date.ymd();
    if crate::text::chars_eq_str(&keyword, "*") {
        assert(directive_at(lv, start as int) == transaction_at(lv, start as int, dv, Flag::Cleared, tail@)) by {
            reveal(directive_at);
        }
        return parse_transaction(lines, start, date, Flag::Cleared, &tail);
    }
    if crate::text::chars_eq_str(&keyword, "!") {
        assert(directive_at(lv, start as int) == transaction_at(lv, start as int, dv, Flag::Pending, tail@)) by {
            reveal(directive_at);
        }
        return parse_transaction(lines, start, date, Flag::Pending, &tail);
    }
    if crate::text::chars_eq_str(&keyword, "open") {
        assert(directive_at(lv, start as int) == open_at(fv, dv, line_no as nat)) by {
            reveal(directive_at);
        }
        return parse_open(&fields, date, line_no);
    }
    if crate::text::chars_eq_str(&keyword, "close") {
        assert(directive_at(lv, start as int) == close_at(fv, dv, line_no as nat)) by {
            reveal(directive_at);
        }
        return parse_close(&fields, date, line_no);
    }
    if crate::text::chars_eq_str(&keyword, "balance") {
        assert(directive_at(lv, start as int) == balance_at(tail@, dv, line_no as nat)) by {
            reveal(directive_at);
        }
        return parse_balance(&tail, date, line_no);
    }
    if crate::text::chars_eq_str(&keyword, "pad") {
        assert(directive_at(lv, start as int) == pad_at(fv, dv, line_no as nat)) by {
            reveal(directive_at);
        }
        return parse_pad(&fields, date, line_no);
    }
    if crate::text::chars_eq_str(&keyword, "commodity") {
        assert(directive_at(lv, start as int) == commodity_at(lv, start as int, fv, dv, line_no as nat)) by {
            reveal(directive_at);
        }
        return parse_commodity(lines, start, &fields, date, line_no);
    }
    assert(directive_at(lv, start as int) == StepParse::Failed(
        line_no as nat,
        "unknown directive keyword "@ + debug_text(keyword@),
    )) by {
        reveal(directive_at);
    }
    let mut m = chars_of("unknown directive keyword ");
    let q = debug_chars(&keyword);
    append_chars(&mut m, &q);
    Step::Fail(parse_error(line_no, string_of(&m)))
}

/// `pre` followed by what parsing the rest yields.
pub open spec fn after_prefix(pre: Seq<DirectiveView>, rest: FileParse) -> FileParse {
    match rest {
        FileParse::Parsed(r) => FileParse::Parsed(pre + r),
        other => other,
    }
}

/// Parses a whole ledger text, or stops at a posting whose `}` comes
/// before its `{`.
fn parse_lines(text: &str) -> (r: Step<Vec<Directive>>)
    ensures
        match (r, parse_text(text@)) {
            (Step::Done(v), FileParse::Parsed(dv)) => crate::model::directives_view(v@) == dv,
            (Step::Fail(e), FileParse::Failed(l, m)) => error_is(e, l, m),
            (Step::Abort, FileParse::Abort) => true,
            _ => false,
        },
{
    let chars = chars_of(text);
    let lines = lines_of(&chars);
    let ghost lv = crate::text::pieces_view(lines@);
    let mut out: Vec<Directive> = Vec::new();
    let mut i: usize = 0;
    assert(crate::model::directives_view(out@) =~= Seq::<DirectiveView>::empty());
    assert(after_prefix(Seq::empty(), parse_from(lv, 0)) == parse_from(lv, 0)) by {
        if let FileParse::Parsed(r) = parse_from(lv, 0) {
            assert(Seq::<DirectiveView>::empty() + r =~= r);
        }
    }
    loop
        invariant
            i <= lines.len(),
            lv == crate::text::pieces_view(lines@),
            lv == text_lines(text@),
            parse_text(text@) == after_prefix(crate::model::directives_view(out@), parse_from(lv, i as int)),
        decreases lines.len() - i,
    {
        if i >= lines.len() {
            assert(crate::model::directives_view(out@) + Seq::<DirectiveView>::empty() =~= crate::model::directives_view(out@));
            return Step::Done(out);
        }
        let raw = &lines[i];
        assert(lv[i as int] == raw@);
        let t = crate::text::trim_chars(raw);
        if t.len() == 0 || t[0] == ';' {
            i += 1;
            continue;
        }
        proof {
            crate::text::lemma_trim_len(raw@);
        }
        if crate::text::is_whitespace(raw[0]) {
            let mut m = chars_of("unexpected indented line outside a transaction: ");
            let q = debug_chars(raw);
            append_chars(&mut m, &q);
            return Step::Fail(parse_error(i + 1, string_of(&m)));
        }
        match parse_top_level(&lines, i) {
            Step::Done((d, n)) => {
                let ghost before = crate::model::directives_view(out@);
                out.push(d);
                assert(crate::model::directives_view(out@) =~= before.push(d@));
                assert forall|rest: Seq<DirectiveView>| #[trigger] (before + (seq![d@] + rest)) == before.push(d@) + rest by {
                    assert(before + (seq![d@] + rest) =~= before.push(d@) + rest);
                }
                i += n;
            },
            Step::Fail(e) => {
                return Step::Fail(e);
            },
            Step::Abort => {
                return Step::Abort;
            },
        }
    }
}

/// Parses a whole ledger text file into its directives, in order; the
/// error names the line. Inputs on which slicing a posting's `{cost}`
/// would panic (a `}` before the `{`) are left out.
pub fn parse(text: &str) -> (r: Result<Vec<Directive>, JamaError>)
    requires
        !(parse_text(text@) is Abort),
    ensures
        match (r, parse_text(text@)) {
            (Ok(v), FileParse::Parsed(dv)) => crate::model::directives_view(v@) == dv,
            (Err(e), FileParse::Failed(l, m)) => error_is(e, l, m),
            _ => false,
        },
{
    match parse_lines(text) {
        Step::Done(v) => Ok(v),
        Step::Fail(e) => Err(e),
        Step::Abort => {
            assert(false);
            Ok(Vec::new())
        },
    }
}

/// [`parse`] on any text: `None` exactly on the inputs it leaves out.
pub fn try_parse(text: &str) -> (r: Option<Result<Vec<Directive>, JamaError>>)
    ensures
        r is None <==> parse_text(text@) is Abort,
        match (r, parse_text(text@)) {
            (Some(Ok(v)), FileParse::Parsed(dv)) => crate::model::directives_view(v@) == dv,
            (Some(Err(e)), FileParse::Failed(l, m)) => error_is(e, l, m),
            (None, FileParse::Abort) => true,
            _ => false,
        },
{
    match parse_lines(text) {
        Step::Done(v) => Some(Ok(v)),
        Step::Fail(e) => Some(Err(e)),
        Step::Abort => None,
    }
}

// ---------------------------------------------------------------------
// Serializing
// ---------------------------------------------------------------------

/// `YYYY-MM-DD` of a (year, month, day).
pub open spec fn ymd_view_text(d: (int, int, int)) -> Seq<char> {
    ymd_text(d.0 as i32 as int, d.1, d.2)
}

/// `{number} {commodity}`.
pub open spec fn pair_text(a: (DecimalValue, Seq<char>)) -> Seq<char> {
    decimal_text(a.0) + seq![' '] + a.1
}

/// One posting line.
pub open spec fn posting_text(p: PostingView) -> Seq<char> {
    "  "@ + p.account + match p.amount {
        Some(a) => "  "@ + pair_text(a),
        None => Seq::empty(),
    } + match p.cost_or_price {
        Some((a, is_cost)) => if is_cost {
            " {"@ + pair_text(a) + "}"@
        } else {
            " @ "@ + pair_text(a)
        },
        None => Seq::empty(),
    } + "\n"@
}

/// The posting lines.
pub open spec fn postings_text(ps: Seq<PostingView>) -> Seq<char>
    decreases ps.len(),
{
    if ps.len() == 0 {
        Seq::empty()
    } else {
        postings_text(ps.drop_last()) + posting_text(ps.last())
    }
}

/// The `  key: "value"` lines.
pub open spec fn meta_text(m: Seq<(Seq<char>, Seq<char>)>) -> Seq<char>
    decreases m.len(),
{
    if m.len() == 0 {
        Seq::empty()
    } else {
        meta_text(m.drop_last()) + "  "@ + m.last().0 + ": \""@ + m.last().1 + "\"\n"@
    }
}

/// Each word after `prefix` (` #` for tags, ` ^` for links).
pub open spec fn words_text(prefix: Seq<char>, ws: Seq<Seq<char>>) -> Seq<char>
    decreases ws.len(),
{
    if ws.len() == 0 {
        Seq::empty()
    } else {
        words_text(prefix, ws.drop_last()) + prefix + ws.last()
    }
}

/// ` "payee"` when there is one.
pub open spec fn payee_text(p: Option<Seq<char>>) -> Seq<char> {
    match p {
        Some(x) => " \""@ + x + "\""@,
        None => Seq::empty(),
    }
}

/// A transaction's header line.
pub open spec fn header_text(t: TransactionView) -> Seq<char> {
    ymd_view_text(t.date) + seq![' ', crate::model::flag_char(t.flag)] + payee_text(t.payee) + (" \""@
        + t.narration + "\""@) + words_text(" #"@, t.tags) + words_text(" ^"@, t.links) + "\n"@
}

/// A transaction: its header line, metadata lines, posting lines.
pub open spec fn transaction_text(t: TransactionView) -> Seq<char> {
    header_text(t) + meta_text(t.meta) + postings_text(t.postings)
}

/// The canonical text of one directive.
#[verifier::opaque]
pub open spec fn directive_text(d: DirectiveView) -> Seq<char> {
    match d {
        DirectiveView::Transaction(t) => transaction_text(t),
        DirectiveView::Open { date, account, currencies } => ymd_view_text(date) + " open "@ + account + if currencies.len() > 0 {
            seq![' '] + join(currencies, ","@)
        } else {
            Seq::empty()
        } + "\n"@,
        DirectiveView::Close { date, account } => ymd_view_text(date) + " close "@ + account + "\n"@,
        DirectiveView::Balance { date, account, amount } => ymd_view_text(date) + " balance "@ + account + "  "@
            + pair_text(amount) + "\n"@,
        DirectiveView::Pad { date, account, source } => ymd_view_text(date) + " pad "@ + account + seq![' '] + source
            + "\n"@,
        DirectiveView::Commodity { date, code, precision } => ymd_view_text(date) + " commodity "@ + code + "\n"@
            + "  precision: \""@ + uint_text(precision as nat) + "\"\n"@,
    }
}

/// The canonical text of a ledger: each directive's text, with a blank
/// line before and after each transaction.
pub open spec fn serialize_text(ds: Seq<DirectiveView>) -> Seq<char>
    decreases ds.len(),
{
    if ds.len() == 0 {
        Seq::empty()
    } else {
        let n = ds.len() as int;
        let sep = if n >= 2 && (ds[n - 2] is Transaction || ds[n - 1] is Transaction) {
            "\n"@
        } else {
            Seq::empty()
        };
        serialize_text(ds.drop_last()) + sep + directive_text(ds.last())
    }
}

fn push_amount(out: &mut Vec<char>, a: &Amount)
    ensures
        final(out)@ == old(out)@ + pair_text(crate::model::amount_pair(*a)),
{
    let v = a.to_chars();
    append_chars(out, &v);
}

fn serialize_posting(p: &Posting, out: &mut Vec<char>)
    ensures
        final(out)@ == old(out)@ + posting_text(p@),
{
    let ghost o = out@;
    append_str(out, "  ");
    append_str(out, p.account.as_str());
    let ghost a1 = out@;
    match &p.amount {
        Some(a) => {
            append_str(out, "  ");
            push_amount(out, a);
        },
        None => {},
    }
    let ghost a2 = out@;
    match &p.cost_or_price {
        Some(cp) => {
            if cp.is_cost {
                append_str(out, " {");
                push_amount(out, &cp.amount);
                append_str(out, "}");
            } else {
                append_str(out, " @ ");
                push_amount(out, &cp.amount);
            }
        },
        None => {},
    }
    let ghost a3 = out@;
    append_str(out, "\n");
    assert(out@ =~= o + posting_text(p@));
}

fn serialize_words(prefix: &str, ws: &Vec<String>, out: &mut Vec<char>)
    ensures
        final(out)@ == old(out)@ + words_text(prefix@, crate::model::strings_view(ws@)),
{
    let ghost h2 = out@;
    let ghost tv = crate::model::strings_view(ws@);
    let mut i: usize = 0;
    assert(tv.take(0) =~= Seq::<Seq<char>>::empty());
    assert(out@ =~= h2 + words_text(prefix@, tv.take(0)));
    while i < ws.len()
        invariant
            i <= ws.len(),
            tv == crate::model::strings_view(ws@),
            out@ == h2 + words_text(prefix@, tv.take(i as int)),
        decreases ws.len() - i,
    {
        append_str(out, prefix);
        append_str(out, ws[i].as_str());
        assert(tv.take(i + 1).drop_last() =~= tv.take(i as int));
        i += 1;
    }
    assert(tv.take(ws.len() as int) =~= tv);
}

fn serialize_header(t: &Transaction, out: &mut Vec<char>)
    ensures
        final(out)@ == old(out)@ + header_text(t@),
{
    let ghost o = out@;
    let d = t.date.to_chars();
    append_chars(out, &d);
    out.push(' ');
    out.push(t.flag.as_char());
    let ghost h1 = out@;
    assert(h1 =~= o + (ymd_view_text(t@.date) + seq![' ', crate::model::flag_char(t.flag)]));
    match &t.payee {
        Some(p) => {
            append_str(out, " \"");
            append_str(out, p.as_str());
            append_str(out, "\"");
        },
        None => {},
    }
    let ghost h2 = out@;
    assert(h2 =~= h1 + payee_text(t@.payee));
    append_str(out, " \"");
    append_str(out, t.narration.as_str());
    append_str(out, "\"");
    let ghost h3 = out@;
    assert(h3 =~= h2 + (" \""@ + t@.narration + "\""@));
    serialize_words(" #", &t.tags, out);
    let ghost h4 = out@;
    serialize_words(" ^", &t.links, out);
    let ghost h5 = out@;
    append_str(out, "\n");
    assert(out@ =~= o + header_text(t@));
}

fn serialize_meta(m: &Meta, out: &mut Vec<char>)
    ensures
        final(out)@ == old(out)@ + meta_text(m@),
{
    let ghost h4 = out@;
    let ghost mv = m@;
    let mut k: usize = 0;
    assert(mv.take(0) =~= Seq::<(Seq<char>, Seq<char>)>::empty());
    assert(out@ =~= h4 + meta_text(mv.take(0)));
    while k < m.len()
        invariant
            k <= mv.len(),
            mv == m@,
            out@ == h4 + meta_text(mv.take(k as int)),
        decreases mv.len() - k,
    {
        let (key, value) = m.entry(k);
        append_str(out, "  ");
        append_str(out, key.as_str());
        append_str(out, ": \"");
        append_str(out, value.as_str());
        append_str(out, "\"\n");
        assert(mv.take(k + 1).drop_last() =~= mv.take(k as int));
        k += 1;
    }
    assert(mv.take(mv.len() as int) =~= mv);
}

fn serialize_postings(ps: &Vec<Posting>, out: &mut Vec<char>)
    ensures
        final(out)@ == old(out)@ + postings_text(crate::model::postings_view(ps@)),
{
    let ghost h5 = out@;
    let ghost pv = crate::model::postings_view(ps@);
    let mut q: usize = 0;
    assert(pv.take(0) =~= Seq::<PostingView>::empty());
    assert(out@ =~= h5 + postings_text(pv.take(0)));
    while q < ps.len()
        invariant
            q <= ps.len(),
            pv == crate::model::postings_view(ps@),
            out@ == h5 + postings_text(pv.take(q as int)),
        decreases ps.len() - q,
    {
        serialize_posting(&ps[q], out);
        assert(pv.take(q + 1).drop_last() =~= pv.take(q as int));
        q += 1;
    }
    assert(pv.take(ps.len() as int) =~= pv);
}

fn serialize_transaction(t: &Transaction, out: &mut Vec<char>)
    ensures
        final(out)@ == old(out)@ + transaction_text(t@),
{
    let ghost o = out@;
    serialize_header(t, out);
    serialize_meta(&t.meta, out);
    serialize_postings(&t.postings, out);
    assert(out@ =~= o + transaction_text(t@));
}

#[verifier::spinoff_prover]
#[verifier::rlimit(40)]
fn serialize_one(d: &Directive, out: &mut Vec<char>)
    ensures
        final(out)@ == old(out)@ + directive_text(d@),
{
    reveal(directive_text);
    let ghost o = out@;
    match d {
        Directive::Open { date, account, currencies } => {
            let dt = date.to_chars();
            append_chars(out, &dt);
            append_str(out, " open ");
            append_str(out, account.as_str());
            if currencies.len() > 0 {
                out.push(' ');
                let mut pieces: Vec<Vec<char>> = Vec::new();
                let mut i: usize = 0;
                while i < currencies.len()
                    invariant
                        i <= currencies.len(),
                        pieces@.len() == i,
                        forall|k: int| 0 <= k < i ==> (#[trigger] pieces@[k])@ == currencies@[k]@,
                    decreases currencies.len() - i,
                {
                    pieces.push(chars_of(currencies[i].as_str()));
                    i += 1;
                }
                assert(crate::text::pieces_view(pieces@) =~= crate::model::strings_view(currencies@));
                let joined = crate::text::join_chars(&pieces, ",");
                append_chars(out, &joined);
            }
            append_str(out, "\n");
        },
        Directive::Close { date, account } => {
            let dt = date.to_chars();
            append_chars(out, &dt);
            append_str(out, " close ");
            append_str(out, account.as_str());
            append_str(out, "\n");
        },
        Directive::Balance { date, account, amount } => {
            let dt = date.to_chars();
            append_chars(out, &dt);
            append_str(out, " balance ");
            append_str(out, account.as_str());
            append_str(out, "  ");
            push_amount(out, amount);
            append_str(out, "\n");
        },
        Directive::Pad { date, account, source } => {
            let dt = date.to_chars();
            append_chars(out, &dt);
            append_str(out, " pad ");
            append_str(out, account.as_str());
            out.push(' ');
            append_str(out, source.as_str());
            append_str(out, "\n");
        },
        Directive::Commodity { date, info } => {
            let dt = date.to_chars();
            append_chars(out, &dt);
            append_str(out, " commodity ");
            append_str(out, info.code.as_str());
            append_str(out, "\n");
            append_str(out, "  precision: \"");
            let n = crate::text::uint_chars(info.precision as u64);
            append_chars(out, &n);
            append_str(out, "\"\n");
        },
        Directive::Transaction(t) => {
            serialize_transaction(t, out);
        },
    }
    assert(out@ =~= o + directive_text(d@));
}

fn is_transaction(d: &Directive) -> (r: bool)
    ensures
        r == (d@ is Transaction),
{
    match d {
        Directive::Transaction(_) => true,
        _ => false,
    }
}

/// Serializes directives to canonical ledger text: the inverse of
/// [`parse`] on canonical directives.
pub fn serialize(directives: &Vec<Directive>) -> (r: String)
    ensures
        r@ == serialize_text(crate::model::directives_view(directives@)),
{
    let ghost dv = crate::model::directives_view(directives@);
    let mut out: Vec<char> = Vec::new();
    let mut idx: usize = 0;
    assert(dv.take(0) =~= Seq::<DirectiveView>::empty());
    while idx < directives.len()
        invariant
            idx <= directives.len(),
            dv == crate::model::directives_view(directives@),
            out@ == serialize_text(dv.take(idx as int)),
        decreases directives.len() - idx,
    {
        let ghost before = out@;
        proof {
            reveal_strlit("\n");
        }
        assert(dv[idx as int] == directives@[idx as int]@);
        if idx > 0 {
            assert(dv[idx - 1] == directives@[idx - 1]@);
            let prev_is_txn = is_transaction(&directives[idx - 1]);
            let cur_is_txn = is_transaction(&directives[idx]);
            if prev_is_txn || cur_is_txn {
                out.push('\n');
                assert(out@ =~= before + "\n"@);
            } else {
                assert(out@ =~= before + Seq::<char>::empty());
            }
        }
        serialize_one(&directives[idx], &mut out);
        assert(dv.take(idx + 1).drop_last() =~= dv.take(idx as int));
        assert(dv.take(idx + 1).last() == dv[idx as int]);
        if idx > 0 {
            assert(dv.take(idx + 1)[idx - 1] == dv[idx - 1]);
        }
        idx += 1;
    }
    assert(dv.take(directives.len() as int) =~= dv);
    string_of(&out)
}

} // verus!
