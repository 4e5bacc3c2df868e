//! The ledger text format reads back what it writes: serializing
//! directives and parsing the text gives the same directives, for every
//! ledger whose strings the format can carry.

use vstd::prelude::*;

use crate::date::{iso_result, valid_ymd, ymd_error, ymd_text};
use crate::model::{account_parse, meta_insert, meta_sorted, roots, valid_account};

use crate::decimal::{
    decimal_text, digit_char, digits, fraction_part, number_parse, padded_digits, repeat_char, sign_text,
    whole_part, DecimalValue,
};
use crate::model::{flag_char, DirectiveView, PostingView, TransactionView};
use crate::parser::{
    account_field, amount_result, ascii_lower, currencies_of, directive_at, header_parts, key_char, meta_line,
    nonempty_pieces, open_at, close_at, balance_at, pad_at, commodity_at, parse_u8, posting_base, posting_result,
    body_from, header_result, transaction_at, parse_from, parse_text, FileParse, links_of, posting_line, precision_line, quoted_from, root_posting, tags_of, unquote,
    BodyParse, PostingParse, StepParse,
    directive_text, meta_text, pair_text, payee_text, posting_text, postings_text, serialize_text, text_lines,
    words_text, ymd_view_text,
};
use crate::text::{
    find, next_char, lemma_next_char, occurs_at, starts_with,
    all_digits, digits_value, parse_i32, parse_u32, zero_padded,
    after_char, after_ws, before_char, before_ws, is_ws, join, lemma_next_ws, lemma_skip_ws, lemma_skip_ws_back,
    next_ws, skip_ws, skip_ws_back, trim, trim_end, trim_start, uint_text, ws_tokens,
};
use crate::text::{index_of_char, lemma_index_of_char, lemma_split_none, lemma_split_some, split_char};

verus! {

// ---------------------------------------------------------------------
// Text as lines
// ---------------------------------------------------------------------

/// Each line followed by a line feed.
pub open spec fn lines_text(ls: Seq<Seq<char>>) -> Seq<char>
    decreases ls.len(),
{
    if ls.len() == 0 {
        Seq::empty()
    } else {
        lines_text(ls.drop_last()) + ls.last() + "\n"@
    }
}

/// A line that `str::lines` gives back unchanged: no line feed in it, no
/// carriage return at its end.
pub open spec fn clean_line(l: Seq<char>) -> bool {
    &&& forall|i: int| 0 <= i < l.len() ==> l[i] != '\n'
    &&& (l.len() > 0 ==> l.last() != '\r')
}

pub proof fn lemma_lines_text_concat(a: Seq<Seq<char>>, b: Seq<Seq<char>>)
    ensures
        lines_text(a + b) == lines_text(a) + lines_text(b),
    decreases b.len(),
{
    if b.len() == 0 {
        assert(a + b =~= a);
        assert(lines_text(a) + lines_text(b) =~= lines_text(a));
    } else {
        lemma_lines_text_concat(a, b.drop_last());
        assert((a + b).drop_last() =~= a + b.drop_last());
        assert((a + b).last() == b.last());
        assert(lines_text(a + b) =~= lines_text(a) + lines_text(b));
    }
}

proof fn lemma_lines_text_front(ls: Seq<Seq<char>>)
    requires
        ls.len() > 0,
    ensures
        lines_text(ls) == ls[0] + "\n"@ + lines_text(ls.drop_first()),
{
    lemma_lines_text_concat(seq![ls[0]], ls.drop_first());
    assert(seq![ls[0]] + ls.drop_first() =~= ls);
    assert(seq![ls[0]].drop_last() =~= Seq::<Seq<char>>::empty());
    let one = seq![ls[0]];
    assert(one.drop_last() =~= Seq::<Seq<char>>::empty());
    assert(lines_text(one.drop_last()) == Seq::<char>::empty());
    assert(lines_text(one) =~= ls[0] + "\n"@);
}

proof fn lemma_split_lines(ls: Seq<Seq<char>>)
    requires
        forall|k: int| 0 <= k < ls.len() ==> clean_line(#[trigger] ls[k]),
    ensures
        split_char(lines_text(ls), '\n') == ls.push(Seq::<char>::empty()),
    decreases ls.len(),
{
    reveal_strlit("\n");
    if ls.len() == 0 {
        lemma_index_of_char(Seq::<char>::empty(), '\n', 0);
        lemma_split_none(Seq::<char>::empty(), '\n');
        assert(ls.push(Seq::<char>::empty()) =~= seq![Seq::<char>::empty()]);
    } else {
        let s = lines_text(ls);
        let l0 = ls[0];
        lemma_lines_text_front(ls);
        assert(clean_line(l0));
        assert forall|k: int| 0 <= k < ls.drop_first().len() implies clean_line(#[trigger] ls.drop_first()[k]) by {
            assert(ls.drop_first()[k] == ls[k + 1]);
        }
        lemma_split_lines(ls.drop_first());
        assert forall|j: int| 0 <= j < l0.len() implies s[j] != '\n' by {
            assert(s[j] == l0[j]);
        }
        assert(s[l0.len() as int] == '\n');
        lemma_index_of_char(s, '\n', l0.len() as int);
        lemma_split_some(s, '\n', l0.len() as int);
        assert(s.take(l0.len() as int) =~= l0);
        assert(s.skip(l0.len() as int + 1) =~= lines_text(ls.drop_first()));
        assert(seq![l0] + ls.drop_first().push(Seq::<char>::empty()) =~= ls.push(Seq::<char>::empty()));
    }
}

/// Lines without line feeds, written one per line, are read back as the
/// same lines.
pub proof fn lemma_text_lines(ls: Seq<Seq<char>>)
    requires
        forall|k: int| 0 <= k < ls.len() ==> clean_line(#[trigger] ls[k]),
    ensures
        text_lines(lines_text(ls)) == ls,
{
    lemma_split_lines(ls);
    let ps = split_char(lines_text(ls), '\n');
    let n = ps.len() as int;
    assert(n == ls.len() + 1);
    assert(ps[n - 1].len() == 0);
    assert forall|i: int| 0 <= i < n - 1 implies crate::parser::strip_cr(ps[i]) == ls[i] by {
        assert(ps[i] == ls[i]);
        assert(clean_line(ls[i]));
    }
    assert(text_lines(lines_text(ls)) =~= ls);
}


// ---------------------------------------------------------------------
// The lines a ledger is written as
// ---------------------------------------------------------------------

/// A transaction's header line.
pub open spec fn header_line(t: TransactionView) -> Seq<char> {
    ymd_view_text(t.date) + seq![' ', flag_char(t.flag)] + payee_text(t.payee) + (" \""@ + t.narration + "\""@)
        + words_text(" #"@, t.tags) + words_text(" ^"@, t.links)
}

/// A `  key: "value"` line.
pub open spec fn meta_entry_line(e: (Seq<char>, Seq<char>)) -> Seq<char> {
    "  "@ + e.0 + ": \""@ + e.1 + "\""@
}

/// The metadata lines.
pub open spec fn meta_lines(m: Seq<(Seq<char>, Seq<char>)>) -> Seq<Seq<char>> {
    m.map_values(|e: (Seq<char>, Seq<char>)| meta_entry_line(e))
}

/// A posting's line.
pub open spec fn posting_line_of(p: PostingView) -> Seq<char> {
    "  "@ + p.account + match p.amount {
        Some(a) => "  "@ + pair_text(a),
        None => Seq::empty(),
    } + match p.cost_or_price {
        Some((a, is_cost)) => if is_cost {
            " {"@ + pair_text(a) + "}"@
        } else {
            " @ "@ + pair_text(a)
        },
        None => Seq::empty(),
    }
}

/// The posting lines.
pub open spec fn posting_lines(ps: Seq<PostingView>) -> Seq<Seq<char>> {
    ps.map_values(|p: PostingView| posting_line_of(p))
}

/// The lines one directive is written as.
pub open spec fn directive_lines(d: DirectiveView) -> Seq<Seq<char>> {
    match d {
        DirectiveView::Transaction(t) => seq![header_line(t)] + meta_lines(t.meta) + posting_lines(t.postings),
        DirectiveView::Open { date, account, currencies } => seq![
            ymd_view_text(date) + " open "@ + account + if currencies.len() > 0 {
                seq![' '] + join(currencies, ","@)
            } else {
                Seq::empty()
            },
        ],
        DirectiveView::Close { date, account } => seq![ymd_view_text(date) + " close "@ + account],
        DirectiveView::Balance { date, account, amount } => seq![
            ymd_view_text(date) + " balance "@ + account + "  "@ + pair_text(amount),
        ],
        DirectiveView::Pad { date, account, source } => seq![
            ymd_view_text(date) + " pad "@ + account + seq![' '] + source,
        ],
        DirectiveView::Commodity { date, code, precision } => seq![
            ymd_view_text(date) + " commodity "@ + code,
            "  precision: \""@ + uint_text(precision as nat) + "\""@,
        ],
    }
}

/// A blank line between two directives when either is a transaction.
pub open spec fn gap(a: DirectiveView, b: DirectiveView) -> Seq<Seq<char>> {
    if a is Transaction || b is Transaction {
        seq![Seq::<char>::empty()]
    } else {
        Seq::empty()
    }
}

/// The lines a ledger is written as.
pub open spec fn serial_lines(ds: Seq<DirectiveView>) -> Seq<Seq<char>>
    decreases ds.len(),
{
    if ds.len() == 0 {
        Seq::empty()
    } else {
        let n = ds.len() as int;
        serial_lines(ds.drop_last()) + (if n >= 2 { gap(ds[n - 2], ds[n - 1]) } else { Seq::empty() })
            + directive_lines(ds.last())
    }
}

proof fn lemma_meta_text(m: Seq<(Seq<char>, Seq<char>)>)
    ensures
        meta_text(m) == lines_text(meta_lines(m)),
    decreases m.len(),
{
    if m.len() > 0 {
        lemma_meta_text(m.drop_last());
        assert(meta_lines(m).drop_last() =~= meta_lines(m.drop_last()));
        reveal_strlit("\"\n");
        reveal_strlit("\"");
        reveal_strlit("\n");
        assert(meta_text(m) =~= lines_text(meta_lines(m)));
    } else {
        assert(meta_lines(m) =~= Seq::<Seq<char>>::empty());
    }
}

proof fn lemma_postings_text(ps: Seq<PostingView>)
    ensures
        postings_text(ps) == lines_text(posting_lines(ps)),
    decreases ps.len(),
{
    if ps.len() > 0 {
        lemma_postings_text(ps.drop_last());
        assert(posting_lines(ps).drop_last() =~= posting_lines(ps.drop_last()));
        assert(posting_text(ps.last()) =~= posting_line_of(ps.last()) + "\n"@);
        assert(postings_text(ps) =~= lines_text(posting_lines(ps)));
    } else {
        assert(posting_lines(ps) =~= Seq::<Seq<char>>::empty());
    }
}

proof fn lemma_one_line(l: Seq<char>)
    ensures
        lines_text(seq![l]) == l + "\n"@,
{
    assert(seq![l].drop_last() =~= Seq::<Seq<char>>::empty());
    assert(lines_text(seq![l].drop_last()) == Seq::<char>::empty());
    assert(lines_text(seq![l]) =~= l + "\n"@);
}

proof fn lemma_directive_text(d: DirectiveView)
    ensures
        directive_text(d) == lines_text(directive_lines(d)),
{
    reveal(directive_text);
    reveal_strlit("\n");
    reveal_strlit("\"\n");
    reveal_strlit("\"");
    match d {
        DirectiveView::Transaction(t) => {
            lemma_meta_text(t.meta);
            lemma_postings_text(t.postings);
            lemma_one_line(header_line(t));
            lemma_lines_text_concat(seq![header_line(t)], meta_lines(t.meta));
            lemma_lines_text_concat(seq![header_line(t)] + meta_lines(t.meta), posting_lines(t.postings));
            assert(crate::parser::header_text(t) =~= header_line(t) + "\n"@);
            assert(directive_text(d) =~= lines_text(directive_lines(d)));
        },
        DirectiveView::Commodity { date, code, precision } => {
            let l1 = ymd_view_text(date) + " commodity "@ + code;
            let l2 = "  precision: \""@ + uint_text(precision as nat) + "\""@;
            lemma_one_line(l1);
            lemma_one_line(l2);
            lemma_lines_text_concat(seq![l1], seq![l2]);
            assert(seq![l1] + seq![l2] =~= directive_lines(d));
            assert(directive_text(d) =~= lines_text(directive_lines(d)));
        },
        _ => {
            lemma_one_line(directive_lines(d)[0]);
            assert(seq![directive_lines(d)[0]] =~= directive_lines(d));
            assert(directive_text(d) =~= lines_text(directive_lines(d)));
        },
    }
}

/// A ledger's text is its lines, each ended by a line feed.
pub proof fn lemma_serialize_lines(ds: Seq<DirectiveView>)
    ensures
        serialize_text(ds) == lines_text(serial_lines(ds)),
    decreases ds.len(),
{
    if ds.len() > 0 {
        let n = ds.len() as int;
        lemma_serialize_lines(ds.drop_last());
        lemma_directive_text(ds.last());
        let g = if n >= 2 { gap(ds[n - 2], ds[n - 1]) } else { Seq::empty() };
        lemma_lines_text_concat(serial_lines(ds.drop_last()), g);
        lemma_lines_text_concat(serial_lines(ds.drop_last()) + g, directive_lines(ds.last()));
        if g.len() > 0 {
            lemma_one_line(Seq::<char>::empty());
            reveal_strlit("\n");
            assert(lines_text(g) =~= "\n"@);
        } else {
            assert(lines_text(g) == Seq::<char>::empty());
        }
        assert(serialize_text(ds) =~= lines_text(serial_lines(ds)));
    }
}

// ---------------------------------------------------------------------
// Facts about trimming and splitting
// ---------------------------------------------------------------------

/// No whitespace in `s`.
pub open spec fn no_ws(s: Seq<char>) -> bool {
    forall|i: int| 0 <= i < s.len() ==> !is_ws(#[trigger] s[i])
}

/// Only whitespace in `s`.
pub open spec fn all_ws(s: Seq<char>) -> bool {
    forall|i: int| 0 <= i < s.len() ==> is_ws(#[trigger] s[i])
}

/// `s` does not hold `c`.
pub open spec fn lacks(s: Seq<char>, c: char) -> bool {
    forall|i: int| 0 <= i < s.len() ==> #[trigger] s[i] != c
}

pub proof fn lemma_trim_plain(s: Seq<char>)
    requires
        s.len() > 0,
        !is_ws(s[0]),
        !is_ws(s.last()),
    ensures
        trim(s) == s,
        trim_start(s) == s,
        trim_end(s) == s,
{
    assert(skip_ws(s, 0) == 0);
    assert(s.skip(0) =~= s);
    assert(skip_ws_back(s, s.len() as int) == s.len());
    assert(s.take(s.len() as int) =~= s);
}

proof fn lemma_trim_start_ws(pre: Seq<char>, s: Seq<char>, k: int)
    requires
        all_ws(pre),
        s.len() > 0,
        !is_ws(s[0]),
        0 <= k <= pre.len(),
    ensures
        skip_ws(pre + s, k) == pre.len(),
    decreases pre.len() - k,
{
    if k < pre.len() {
        assert((pre + s)[k] == pre[k]);
        lemma_trim_start_ws(pre, s, k + 1);
    } else {
        assert((pre + s)[k] == s[0]);
    }
}

/// Whitespace before a text whose ends are not whitespace trims away.
proof fn lemma_trim_after_ws(pre: Seq<char>, s: Seq<char>)
    requires
        all_ws(pre),
        s.len() > 0,
        !is_ws(s[0]),
        !is_ws(s.last()),
    ensures
        trim(pre + s) == s,
        trim_start(pre + s) == s,
{
    lemma_trim_start_ws(pre, s, 0);
    assert((pre + s).skip(pre.len() as int) =~= s);
    lemma_trim_plain(s);
}

proof fn lemma_next_ws_in(a: Seq<char>, b: Seq<char>, k: int)
    requires
        no_ws(a),
        0 <= k <= a.len(),
        b.len() > 0 ==> is_ws(b[0]),
    ensures
        next_ws(a + b, k) == a.len(),
    decreases a.len() - k,
{
    if k < a.len() {
        assert((a + b)[k] == a[k]);
        lemma_next_ws_in(a, b, k + 1);
    } else if b.len() > 0 {
        assert((a + b)[k] == b[0]);
    }
}

/// The first word and what follows its first whitespace character.
proof fn lemma_split_ws(a: Seq<char>, b: Seq<char>)
    requires
        no_ws(a),
        b.len() > 0 ==> is_ws(b[0]),
    ensures
        before_ws(a + b) == a,
        after_ws(a + b) == (if b.len() > 0 { Some(b.drop_first()) } else { None::<Seq<char>> }),
{
    lemma_next_ws_in(a, b, 0);
    assert((a + b).take(a.len() as int) =~= a);
    if b.len() > 0 {
        assert((a + b).skip(a.len() as int + 1) =~= b.drop_first());
    }
}

proof fn lemma_ws_tokens_blank(s: Seq<char>)
    requires
        all_ws(s),
    ensures
        ws_tokens(s) == Seq::<Seq<char>>::empty(),
{
    lemma_skip_ws(s, 0);
    if skip_ws(s, 0) < s.len() {
        assert(is_ws(s[skip_ws(s, 0)]));
    }
}

/// Whitespace, a word, then nothing or whitespace: the word is the first
/// token.
proof fn lemma_ws_tokens_step(pre: Seq<char>, w: Seq<char>, rest: Seq<char>)
    requires
        all_ws(pre),
        w.len() > 0,
        no_ws(w),
        rest.len() > 0 ==> is_ws(rest[0]),
    ensures
        ws_tokens(pre + w + rest) == seq![w] + ws_tokens(rest),
{
    let s = pre + w + rest;
    assert(s =~= pre + (w + rest));
    lemma_trim_start_ws(pre, w + rest, 0);
    assert(skip_ws(s, 0) == pre.len());
    lemma_next_ws_in(w, rest, 0);
    assert forall|k: int| pre.len() <= k <= pre.len() + w.len() implies next_ws(s, k) == pre.len() + w.len() by {
        lemma_next_ws_shift(pre, w, rest, k);
    }
    assert(s.subrange(pre.len() as int, pre.len() as int + w.len()) =~= w);
    assert(s.skip(pre.len() as int + w.len()) =~= rest);
}

proof fn lemma_next_ws_shift(pre: Seq<char>, w: Seq<char>, rest: Seq<char>, k: int)
    requires
        no_ws(w),
        rest.len() > 0 ==> is_ws(rest[0]),
        pre.len() <= k <= pre.len() + w.len(),
    ensures
        next_ws(pre + w + rest, k) == pre.len() + w.len(),
    decreases pre.len() + w.len() - k,
{
    let s = pre + w + rest;
    if k < pre.len() + w.len() {
        assert(s[k] == w[k - pre.len()]);
        lemma_next_ws_shift(pre, w, rest, k + 1);
    } else if rest.len() > 0 {
        assert(s[k] == rest[0]);
    }
}

/// The first `c` of `a + [c] + b`, where `a` has none, is at `a.len()`.
proof fn lemma_first_char(a: Seq<char>, c: char, b: Seq<char>)
    requires
        lacks(a, c),
    ensures
        index_of_char(a + seq![c] + b, c) == Some(a.len() as int),
        before_char(a + seq![c] + b, c) == a,
        after_char(a + seq![c] + b, c) == Some(b),
{
    let s = a + seq![c] + b;
    assert forall|j: int| 0 <= j < a.len() implies s[j] != c by {
        assert(s[j] == a[j]);
    }
    lemma_index_of_char(s, c, a.len() as int);
    assert(s.take(a.len() as int) =~= a);
    assert(s.skip(a.len() as int + 1) =~= b);
}

proof fn lemma_no_char(a: Seq<char>, c: char)
    requires
        lacks(a, c),
    ensures
        index_of_char(a, c) is None,
        before_char(a, c) == a,
        after_char(a, c) is None,
{
    lemma_index_of_char(a, c, a.len() as int);
}

// ---------------------------------------------------------------------
// Numbers and dates read back
// ---------------------------------------------------------------------

proof fn lemma_digits_value(n: nat)
    ensures
        digits_value(digits(n)) == n,
        forall|i: int| 0 <= i < digits(n).len() ==> '0' <= #[trigger] digits(n)[i] <= '9',
        n > 0 ==> digits(n).len() > 0,
    decreases n,
{
    if n > 0 {
        lemma_digits_value(n / 10);
        let d = digits(n);
        assert(d.drop_last() =~= digits(n / 10));
        assert(d.last() == digit_char((n % 10) as nat));
        assert((digit_char((n % 10) as nat) as int) == n % 10 + 48);
        assert forall|i: int| 0 <= i < d.len() implies '0' <= #[trigger] d[i] <= '9' by {
            if i < d.len() - 1 {
                assert(d[i] == digits(n / 10)[i]);
            }
        }
    }
}

proof fn lemma_zeros_value(k: nat)
    ensures
        digits_value(repeat_char('0', k)) == 0,
    decreases k,
{
    if k > 0 {
        assert(repeat_char('0', k).drop_last() =~= repeat_char('0', (k - 1) as nat));
        lemma_zeros_value((k - 1) as nat);
    }
}

proof fn lemma_leading_zeros(k: nat, s: Seq<char>)
    ensures
        digits_value(repeat_char('0', k) + s) == digits_value(s),
    decreases s.len(),
{
    if s.len() == 0 {
        assert(repeat_char('0', k) + s =~= repeat_char('0', k));
        lemma_zeros_value(k);
    } else {
        lemma_leading_zeros(k, s.drop_last());
        assert((repeat_char('0', k) + s).drop_last() =~= repeat_char('0', k) + s.drop_last());
    }
}

/// The text of a natural number: its digits, and it reads back.
pub proof fn lemma_uint_text(n: nat)
    ensures
        all_digits(uint_text(n)),
        digits_value(uint_text(n)) == n,
{
    lemma_digits_value(n);
    if n == 0 {
        assert(digits_value(seq!['0']) == 0) by {
            assert(seq!['0'].drop_last() =~= Seq::<char>::empty());
        }
    }
}

proof fn lemma_zero_padded(n: nat, width: nat)
    ensures
        all_digits(zero_padded(n as int, width)),
        digits_value(zero_padded(n as int, width)) == n,
{
    lemma_uint_text(n);
    let body = uint_text(crate::decimal::abs_int(n as int));
    assert(body == uint_text(n));
    if body.len() < width {
        let z = repeat_char('0', (width - body.len()) as nat);
        assert(zero_padded(n as int, width) =~= z + body);
        lemma_leading_zeros((width - body.len()) as nat, body);
        assert forall|i: int| 0 <= i < (z + body).len() implies '0' <= #[trigger] (z + body)[i] <= '9' by {
            if i >= z.len() {
                assert((z + body)[i] == body[i - z.len()]);
            }
        }
    } else {
        assert(zero_padded(n as int, width) =~= body);
    }
}

proof fn lemma_digits_plain(s: Seq<char>)
    requires
        all_digits(s),
    ensures
        no_ws(s),
        lacks(s, '-'),
        s.len() > 0,
{
    assert forall|i: int| 0 <= i < s.len() implies !is_ws(#[trigger] s[i]) by {
        assert('0' <= s[i] <= '9');
    }
    assert forall|i: int| 0 <= i < s.len() implies #[trigger] s[i] != '-' by {
        assert('0' <= s[i] <= '9');
    }
}

/// A date of a year from 0 on reads back from its `YYYY-MM-DD` text, and
/// that text has no whitespace.
pub proof fn lemma_date_text(y: int, m: int, d: int)
    requires
        0 <= y <= i32::MAX,
        valid_ymd(y, m, d),
    ensures
        iso_result(ymd_text(y, m, d)) == Ok::<(int, int, int), Seq<char>>((y, m, d)),
        no_ws(ymd_text(y, m, d)),
        ymd_text(y, m, d).len() > 0,
{
    let zy = zero_padded(y, 4);
    let zm = zero_padded(m, 2);
    let zd = zero_padded(d, 2);
    lemma_zero_padded(y as nat, 4);
    lemma_zero_padded(m as nat, 2);
    lemma_zero_padded(d as nat, 2);
    lemma_digits_plain(zy);
    lemma_digits_plain(zm);
    lemma_digits_plain(zd);
    let t = ymd_text(y, m, d);
    let r1 = zm + seq!['-'] + zd;
    assert(t =~= zy + seq!['-'] + r1);
    lemma_first_char(zy, '-', r1);
    crate::text::lemma_split_some(t, '-', zy.len() as int);
    assert(t.take(zy.len() as int) =~= zy);
    assert(t.skip(zy.len() as int + 1) =~= r1);
    lemma_first_char(zm, '-', zd);
    crate::text::lemma_split_some(r1, '-', zm.len() as int);
    assert(r1.take(zm.len() as int) =~= zm);
    assert(r1.skip(zm.len() as int + 1) =~= zd);
    lemma_no_char(zd, '-');
    lemma_split_none(zd, '-');
    let parts = split_char(t, '-');
    assert(parts =~= seq![zy, zm, zd]);
    assert(zy[0] != '+' && zy[0] != '-') by {
        assert('0' <= zy[0] <= '9');
    }
    assert(zm[0] != '+') by {
        assert('0' <= zm[0] <= '9');
    }
    assert(zd[0] != '+') by {
        assert('0' <= zd[0] <= '9');
    }
    assert(parse_i32(zy) == Some(y as i32));
    assert(parse_u32(zm) == Some(m as u32));
    assert(parse_u32(zd) == Some(d as u32));
    assert(ymd_error(y, m, d) is None);
    assert forall|i: int| 0 <= i < t.len() implies !is_ws(#[trigger] t[i]) by {
        let a = zy + seq!['-'] + zm + seq!['-'];
        assert(t =~= a + zd);
        if i < zy.len() {
            assert(t[i] == zy[i]);
        } else if i == zy.len() {
        } else if i < zy.len() + 1 + zm.len() {
            assert(t[i] == zm[i - zy.len() - 1]);
        } else if i == zy.len() + 1 + zm.len() {
        } else {
            assert(t[i] == zd[i - zy.len() - 2 - zm.len()]);
        }
    }
}

/// A character the text of a decimal is made of.
pub open spec fn number_char(c: char) -> bool {
    ('0' <= c <= '9') || c == '-' || c == '.'
}

proof fn lemma_padded_digits(v: DecimalValue)
    ensures
        all_digits(padded_digits(v)),
        padded_digits(v).len() >= v.scale + 1,
        digits_value(padded_digits(v)) == v.magnitude,
{
    let d = digits(v.magnitude);
    lemma_digits_value(v.magnitude);
    if d.len() >= v.scale + 1 {
        assert(padded_digits(v) == d);
    } else {
        let z = repeat_char('0', (v.scale + 1 - d.len()) as nat);
        assert(padded_digits(v) == z + d);
        lemma_leading_zeros((v.scale + 1 - d.len()) as nat, d);
        assert forall|i: int| 0 <= i < (z + d).len() implies '0' <= #[trigger] (z + d)[i] <= '9' by {
            if i >= z.len() {
                assert((z + d)[i] == d[i - z.len()]);
            }
        }
    }
}

/// The text of a decimal: its sign, then the padded digits with a point
/// `scale` digits from the end when the scale is positive.
proof fn lemma_decimal_text_shape(v: DecimalValue)
    ensures
        decimal_text(v) == sign_text(v) + (if v.scale > 0 {
            padded_digits(v).take(padded_digits(v).len() - v.scale) + seq!['.'] + padded_digits(v).skip(
                padded_digits(v).len() - v.scale,
            )
        } else {
            padded_digits(v)
        }),
        forall|i: int| 0 <= i < decimal_text(v).len() ==> number_char(#[trigger] decimal_text(v)[i]),
        decimal_text(v).len() > 0,
        '0' <= decimal_text(v).last() <= '9',
{
    lemma_padded_digits(v);
    let p = padded_digits(v);
    if v.scale == 0 {
        assert(p.take(p.len() - 0) =~= p);
    }
    let t = decimal_text(v);
    assert forall|i: int| 0 <= i < t.len() implies number_char(#[trigger] t[i]) by {
        let st = sign_text(v);
        if i < st.len() {
            assert(t[i] == '-');
        } else if v.scale > 0 {
            let w = p.take(p.len() - v.scale);
            let f = p.skip(p.len() - v.scale);
            let j = i - st.len();
            if j < w.len() {
                assert(t[i] == p[j]);
            } else if j > w.len() {
                assert(t[i] == f[j - w.len() - 1]);
                assert(f[j - w.len() - 1] == p[j - 1]);
            }
        } else {
            assert(t[i] == p[i - st.len()]);
        }
    }
    assert(t.last() == p.last());
}

/// The text of a decimal after its sign.
pub open spec fn unsigned_text(v: DecimalValue) -> Seq<char> {
    let p = padded_digits(v);
    if v.scale > 0 {
        p.take(p.len() - v.scale) + seq!['.'] + p.skip(p.len() - v.scale)
    } else {
        p
    }
}

proof fn lemma_digits_lack_point(p: Seq<char>)
    requires
        all_digits(p),
    ensures
        lacks(p, '.'),
        lacks(p.take(p.len() - 1), '.'),
{
    assert forall|i: int| 0 <= i < p.len() implies #[trigger] p[i] != '.' by {
        assert('0' <= p[i] <= '9');
    }
}

proof fn lemma_unsigned_point(v: DecimalValue)
    ensures
        v.scale > 0 ==> index_of_char(unsigned_text(v), '.') == Some(
            padded_digits(v).len() - v.scale,
        ),
        v.scale > 0 ==> after_char(unsigned_text(v), '.') == Some(
            padded_digits(v).skip(padded_digits(v).len() - v.scale),
        ),
        v.scale > 0 ==> before_char(unsigned_text(v), '.') == padded_digits(v).take(
            padded_digits(v).len() - v.scale,
        ),
        v.scale == 0 ==> index_of_char(unsigned_text(v), '.') is None,
{
    lemma_padded_digits(v);
    let p = padded_digits(v);
    lemma_digits_lack_point(p);
    if v.scale > 0 {
        let w = p.take(p.len() - v.scale);
        let f = p.skip(p.len() - v.scale);
        assert(lacks(w, '.'));
        lemma_first_char(w, '.', f);
    } else {
        lemma_no_char(p, '.');
    }
}

proof fn lemma_unsigned_injective(a: DecimalValue, b: DecimalValue)
    requires
        unsigned_text(a) == unsigned_text(b),
    ensures
        a.scale == b.scale,
        a.magnitude == b.magnitude,
{
    lemma_unsigned_point(a);
    lemma_unsigned_point(b);
    lemma_padded_digits(a);
    lemma_padded_digits(b);
    let pa = padded_digits(a);
    let pb = padded_digits(b);
    if a.scale > 0 {
        assert(b.scale > 0);
        let wa = pa.take(pa.len() - a.scale);
        let fa = pa.skip(pa.len() - a.scale);
        let wb = pb.take(pb.len() - b.scale);
        let fb = pb.skip(pb.len() - b.scale);
        assert(wa == wb);
        assert(fa == fb);
        assert(pa =~= wa + fa);
        assert(pb =~= wb + fb);
        assert(pa == pb);
    } else {
        assert(b.scale == 0);
        assert(pa == pb);
    }
}

proof fn lemma_decimal_text_injective(a: DecimalValue, b: DecimalValue)
    requires
        decimal_text(a) == decimal_text(b),
    ensures
        a.negative == b.negative,
        a.scale == b.scale,
        a.magnitude == b.magnitude,
{
    lemma_decimal_text_shape(a);
    lemma_decimal_text_shape(b);
    lemma_padded_digits(a);
    lemma_padded_digits(b);
    let t = decimal_text(a);
    assert(decimal_text(a) == sign_text(a) + unsigned_text(a));
    assert(decimal_text(b) == sign_text(b) + unsigned_text(b));
    assert('0' <= padded_digits(a)[0] <= '9');
    assert('0' <= padded_digits(b)[0] <= '9');
    assert(unsigned_text(a)[0] == padded_digits(a)[0]);
    assert(unsigned_text(b)[0] == padded_digits(b)[0]);
    assert(a.negative == (t[0] == '-'));
    assert(b.negative == (t[0] == '-'));
    let k: int = if a.negative { 1 } else { 0 };
    assert(t.skip(k) =~= unsigned_text(a));
    assert(t.skip(k) =~= unsigned_text(b));
    lemma_unsigned_injective(a, b);
}

/// The canonical text of an in-range decimal parses back to it, the sign
/// of a zero dropped.
pub proof fn lemma_number_parse(v: DecimalValue)
    requires
        v.valid(),
    ensures
        number_parse(decimal_text(v)) == Ok::<(bool, int, int), Seq<char>>(
            (v.negative && v.magnitude != 0, v.magnitude as int, v.scale as int),
        ),
{
    let s = decimal_text(v);
    assert(v.valid() && s == decimal_text(v));
    let w = choose|w: DecimalValue| #![trigger decimal_text(w)] w.valid() && s == decimal_text(w);
    lemma_decimal_text_injective(v, w);
}

// ---------------------------------------------------------------------
// What the format can carry
// ---------------------------------------------------------------------

/// A word the format writes bare: not empty, and no whitespace, braces,
/// double quote, comma or `@` in it.
pub open spec fn bare(s: Seq<char>) -> bool {
    &&& s.len() > 0
    &&& forall|i: int|
        0 <= i < s.len() ==> !is_ws(#[trigger] s[i]) && s[i] != '{' && s[i] != '}' && s[i] != '"' && s[i] != ','
            && s[i] != '@'
}

/// An amount the format reads back: an in-range number that is not a
/// negative zero, and a bare commodity code.
pub open spec fn canonical_amount(a: (DecimalValue, Seq<char>)) -> bool {
    a.0.valid() && !(a.0.negative && a.0.magnitude == 0) && bare(a.1)
}

proof fn lemma_bare_no_ws(s: Seq<char>)
    requires
        bare(s),
    ensures
        no_ws(s),
        !is_ws(s[0]),
        !is_ws(s.last()),
{
}

/// The text of an amount has no whitespace at its ends and reads back.
pub proof fn lemma_amount_text(a: (DecimalValue, Seq<char>))
    requires
        canonical_amount(a),
    ensures
        amount_result(pair_text(a)) == Ok::<(DecimalValue, Seq<char>), Seq<char>>(a),
        pair_text(a).len() > 0,
        !is_ws(pair_text(a)[0]),
        !is_ws(pair_text(a).last()),
        forall|i: int| 0 <= i < pair_text(a).len() ==> #[trigger] pair_text(a)[i] != '{' && pair_text(a)[i] != '}'
            && pair_text(a)[i] != '"' && pair_text(a)[i] != '\n' && pair_text(a)[i] != '@',
{
    reveal(amount_result);
    let n = decimal_text(a.0);
    let c = a.1;
    lemma_decimal_text_shape(a.0);
    lemma_bare_no_ws(c);
    let t = pair_text(a);
    assert(t =~= n + (seq![' '] + c));
    assert(!is_ws(t[0])) by {
        assert(t[0] == n[0]);
        assert(number_char(n[0]));
    }
    assert(t.last() == c.last());
    lemma_trim_plain(t);
    assert(no_ws(n)) by {
        assert forall|i: int| 0 <= i < n.len() implies !is_ws(#[trigger] n[i]) by {
            assert(number_char(n[i]));
        }
    }
    lemma_split_ws(n, seq![' '] + c);
    assert((seq![' '] + c).drop_first() =~= c);
    lemma_trim_plain(c);
    lemma_number_parse(a.0);
    assert forall|i: int| 0 <= i < n.len() implies n[i] != ',' by {
        assert(number_char(n[i]));
    }
    crate::parser::lemma_grouping_plain(n);
    assert forall|i: int| 0 <= i < t.len() implies #[trigger] t[i] != '{' && t[i] != '}' && t[i] != '"' && t[i]
        != '\n' && t[i] != '@' by {
        if i < n.len() {
            assert(t[i] == n[i]);
            assert(number_char(n[i]));
        } else if i > n.len() {
            assert(t[i] == c[i - n.len() - 1]);
            assert(!is_ws(c[i - n.len() - 1]));
        }
    }
}

// ---------------------------------------------------------------------
// Header lines
// ---------------------------------------------------------------------

proof fn lemma_line_trimmed(line: Seq<char>, dt: Seq<char>, after: Seq<char>)
    requires
        line == dt + seq![' '] + after,
        dt.len() > 0,
        !is_ws(dt[0]),
        after.len() > 0,
        !is_ws(after.last()),
    ensures
        trim(line) == line,
{
    assert(line[0] == dt[0]);
    assert(line.last() == after.last());
    lemma_trim_plain(line);
}

proof fn lemma_date_split(line: Seq<char>, dt: Seq<char>, after: Seq<char>)
    requires
        line == dt + seq![' '] + after,
        lacks(dt, ' '),
    ensures
        before_char(line, ' ') == dt,
        line.skip(dt.len() as int) == seq![' '] + after,
{
    assert(before_char(line, ' ') == dt) by {
        lemma_first_char(dt, ' ', after);
    }
    assert(line.skip(dt.len() as int) =~= seq![' '] + after);
}

proof fn lemma_keyword_split(after: Seq<char>, kw: Seq<char>, rest: Seq<char>)
    requires
        after == kw + seq![' '] + rest,
        kw.len() > 0,
        no_ws(kw),
        rest.len() > 0,
        !is_ws(rest[0]),
        !is_ws(rest.last()),
    ensures
        trim_start(seq![' '] + after) == after,
        before_char(after, ' ') == kw,
        after_char(after, ' ') == Some(rest),
        trim(rest) == rest,
{
    assert(all_ws(seq![' ']));
    assert(after[0] == kw[0]);
    assert(after.last() == rest.last());
    lemma_trim_after_ws(seq![' '], after);
    assert(lacks(kw, ' '));
    lemma_first_char(kw, ' ', rest);
    lemma_trim_plain(rest);
}

/// A header line `DATE KEYWORD REST`: its date text, keyword and rest.
pub proof fn lemma_header_parts(dt: Seq<char>, kw: Seq<char>, rest: Seq<char>)
    requires
        dt.len() > 0,
        no_ws(dt),
        kw.len() > 0,
        no_ws(kw),
        rest.len() > 0,
        !is_ws(rest[0]),
        !is_ws(rest.last()),
    ensures
        trim(dt + seq![' '] + (kw + seq![' '] + rest)) == dt + seq![' '] + (kw + seq![' '] + rest),
        header_parts(dt + seq![' '] + (kw + seq![' '] + rest)) == (dt, kw, rest),
{
    let after = kw + seq![' '] + rest;
    let line = dt + seq![' '] + after;
    assert(after.last() == rest.last());
    lemma_line_trimmed(line, dt, after);
    assert(lacks(dt, ' '));
    lemma_date_split(line, dt, after);
    lemma_keyword_split(after, kw, rest);
}

// ---------------------------------------------------------------------
// Comma-separated lists
// ---------------------------------------------------------------------

pub proof fn lemma_split_first(x: Seq<char>, c: char, y: Seq<char>)
    requires
        lacks(x, c),
    ensures
        split_char(x + seq![c] + y, c) == seq![x] + split_char(y, c),
{
    let s = x + seq![c] + y;
    lemma_first_char(x, c, y);
    lemma_split_some(s, c, x.len() as int);
    assert(s.take(x.len() as int) =~= x);
    assert(s.skip(x.len() as int + 1) =~= y);
}

pub proof fn lemma_split_whole(x: Seq<char>, c: char)
    requires
        lacks(x, c),
    ensures
        split_char(x, c) == seq![x],
{
    lemma_no_char(x, c);
    lemma_split_none(x, c);
}

pub proof fn lemma_split_concat(x: Seq<char>, c: char, y: Seq<char>)
    ensures
        split_char(x + seq![c] + y, c) == split_char(x, c) + split_char(y, c),
    decreases x.len(),
{
    let i = crate::text::next_char(x, c, 0);
    crate::text::lemma_next_char(x, c, 0);
    if i < x.len() {
        let x1 = x.take(i);
        let x2 = x.skip(i + 1);
        assert(x =~= x1 + seq![c] + x2);
        assert(lacks(x1, c)) by {
            assert forall|j: int| 0 <= j < x1.len() implies #[trigger] x1[j] != c by {
                assert(x1[j] == x[j]);
            }
        }
        lemma_split_first(x1, c, x2);
        assert(x + seq![c] + y =~= x1 + seq![c] + (x2 + seq![c] + y));
        lemma_split_first(x1, c, x2 + seq![c] + y);
        lemma_split_concat(x2, c, y);
        assert(split_char(x + seq![c] + y, c) =~= split_char(x, c) + split_char(y, c));
    } else {
        assert(lacks(x, c));
        lemma_split_first(x, c, y);
        lemma_split_whole(x, c);
    }
}

proof fn lemma_split_join(cs: Seq<Seq<char>>)
    requires
        cs.len() > 0,
        forall|k: int| 0 <= k < cs.len() ==> lacks(#[trigger] cs[k], ','),
    ensures
        split_char(join(cs, ","@), ',') == cs,
    decreases cs.len(),
{
    reveal_strlit(",");
    if cs.len() == 1 {
        lemma_split_whole(cs[0], ',');
        assert(seq![cs[0]] =~= cs);
    } else {
        let init = cs.drop_last();
        assert forall|k: int| 0 <= k < init.len() implies lacks(#[trigger] init[k], ',') by {
            assert(init[k] == cs[k]);
        }
        lemma_split_join(init);
        assert(join(cs, ","@) =~= join(init, ","@) + seq![','] + cs.last());
        lemma_split_concat(join(init, ","@), ',', cs.last());
        assert(lacks(cs.last(), ','));
        lemma_split_whole(cs.last(), ',');
        assert(init + seq![cs.last()] =~= cs);
    }
}

proof fn lemma_nonempty_pieces(cs: Seq<Seq<char>>)
    requires
        forall|k: int| 0 <= k < cs.len() ==> (#[trigger] cs[k]).len() > 0,
    ensures
        nonempty_pieces(cs) == cs,
    decreases cs.len(),
{
    if cs.len() > 0 {
        let init = cs.drop_last();
        assert forall|k: int| 0 <= k < init.len() implies (#[trigger] init[k]).len() > 0 by {
            assert(init[k] == cs[k]);
        }
        lemma_nonempty_pieces(init);
        assert(init.push(cs.last()) =~= cs);
    }
}

proof fn lemma_join_bare(cs: Seq<Seq<char>>)
    requires
        cs.len() > 0,
        forall|k: int| 0 <= k < cs.len() ==> bare(#[trigger] cs[k]),
    ensures
        no_ws(join(cs, ","@)),
        join(cs, ","@).len() > 0,
        !is_ws(join(cs, ","@).last()),
    decreases cs.len(),
{
    reveal_strlit(",");
    if cs.len() == 1 {
        assert(bare(cs[0]));
    } else {
        let init = cs.drop_last();
        assert forall|k: int| 0 <= k < init.len() implies bare(#[trigger] init[k]) by {
            assert(init[k] == cs[k]);
        }
        lemma_join_bare(init);
        let j = join(init, ","@);
        let l = cs.last();
        assert(bare(l));
        assert(join(cs, ","@) =~= j + seq![','] + l);
        assert forall|i: int| 0 <= i < (j + seq![','] + l).len() implies !is_ws(#[trigger] (j + seq![','] + l)[i]) by {
            if i < j.len() {
                assert((j + seq![','] + l)[i] == j[i]);
            } else if i > j.len() {
                assert((j + seq![','] + l)[i] == l[i - j.len() - 1]);
            }
        }
    }
}

// ---------------------------------------------------------------------
// Metadata lines
// ---------------------------------------------------------------------

/// A metadata key the format reads back: a lowercase ASCII letter, then
/// ASCII letters, digits, `-` and `_`; and not a root's name (a line
/// starting `assets:` is a posting).
pub open spec fn meta_key(k: Seq<char>) -> bool {
    &&& k.len() > 0
    &&& ascii_lower(k[0])
    &&& forall|i: int| 0 <= i < k.len() ==> key_char(#[trigger] k[i])
    &&& !crate::model::roots().contains(k)
}

proof fn lemma_key_plain(k: Seq<char>)
    requires
        k.len() > 0,
        forall|i: int| 0 <= i < k.len() ==> key_char(#[trigger] k[i]),
    ensures
        lacks(k, ':'),
        trim(k) == k,
{
    assert forall|i: int| 0 <= i < k.len() implies #[trigger] k[i] != ':' by {
        assert(key_char(k[i]));
    }
    assert(key_char(k[0]));
    assert(key_char(k.last()));
    lemma_trim_plain(k);
}

proof fn lemma_quoted_value(v: Seq<char>)
    ensures
        trim(seq![' '] + ("\""@ + v + "\""@)) == "\""@ + v + "\""@,
        unquote("\""@ + v + "\""@) == v,
{
    reveal_strlit("\"");
    let q = "\""@ + v + "\""@;
    assert(q[0] == '"');
    assert(q.last() == '"');
    assert(all_ws(seq![' ']));
    lemma_trim_after_ws(seq![' '], q);
    assert(q.subrange(1, q.len() - 1) =~= v);
}

/// A `  key: "value"` line reads back as its key and value.
pub proof fn lemma_meta_entry(k: Seq<char>, v: Seq<char>)
    requires
        k.len() > 0,
        ascii_lower(k[0]),
        forall|i: int| 0 <= i < k.len() ==> key_char(#[trigger] k[i]),
    ensures
        trim(meta_entry_line((k, v))) == k + seq![':'] + (seq![' '] + ("\""@ + v + "\""@)),
        meta_line(trim(meta_entry_line((k, v)))) == Some((k, v)),
{
    reveal_strlit("  ");
    reveal_strlit(": \"");
    reveal_strlit("\"");
    let q = "\""@ + v + "\""@;
    let t = k + seq![':'] + (seq![' '] + q);
    assert(meta_entry_line((k, v)) =~= "  "@ + t);
    lemma_key_plain(k);
    assert(all_ws("  "@));
    assert(t[0] == k[0]);
    assert(t.last() == '"');
    assert(trim("  "@ + t) == t) by {
        lemma_trim_after_ws("  "@, t);
    }
    assert(index_of_char(t, ':') == Some(k.len() as int)) by {
        lemma_first_char(k, ':', seq![' '] + q);
    }
    assert(t.take(k.len() as int) =~= k);
    assert(t.skip(k.len() as int + 1) =~= seq![' '] + q);
    lemma_quoted_value(v);
}

// ---------------------------------------------------------------------
// One-line directives
// ---------------------------------------------------------------------

/// A date the format reads back: a real date from year 0 on.
pub open spec fn canonical_date(d: (int, int, int)) -> bool {
    0 <= d.0 <= i32::MAX && valid_ymd(d.0, d.1, d.2)
}

/// An account the format reads back: a valid name that is also bare.
pub open spec fn canonical_account(a: Seq<char>) -> bool {
    valid_account(a) && bare(a)
}

proof fn lemma_date_view(d: (int, int, int))
    requires
        canonical_date(d),
    ensures
        iso_result(ymd_view_text(d)) == Ok::<(int, int, int), Seq<char>>(d),
        no_ws(ymd_view_text(d)),
        ymd_view_text(d).len() > 0,
{
    assert(d.0 as i32 as int == d.0);
    assert(ymd_view_text(d) == ymd_text(d.0, d.1, d.2));
    lemma_date_text(d.0, d.1, d.2);
}

proof fn lemma_account_field(a: Seq<char>)
    requires
        canonical_account(a),
    ensures
        account_field(Some(a)) == Ok::<Seq<char>, Seq<char>>(a),
        no_ws(a),
        a.len() > 0,
        !is_ws(a[0]),
        !is_ws(a.last()),
{
}

proof fn lemma_one_token(w: Seq<char>)
    requires
        w.len() > 0,
        no_ws(w),
    ensures
        ws_tokens(w) == seq![w],
{
    lemma_ws_tokens_step(Seq::empty(), w, Seq::empty());
    assert(Seq::<char>::empty() + w + Seq::<char>::empty() =~= w);
    lemma_ws_tokens_blank(Seq::empty());
    assert(seq![w] + Seq::<Seq<char>>::empty() =~= seq![w]);
}

proof fn lemma_two_tokens(a: Seq<char>, b: Seq<char>)
    requires
        a.len() > 0,
        no_ws(a),
        b.len() > 0,
        no_ws(b),
    ensures
        ws_tokens(a + seq![' '] + b) == seq![a, b],
{
    lemma_ws_tokens_step(Seq::empty(), a, seq![' '] + b);
    assert(Seq::<char>::empty() + a + (seq![' '] + b) =~= a + seq![' '] + b);
    assert(all_ws(seq![' ']));
    lemma_ws_tokens_step(seq![' '], b, Seq::empty());
    assert(seq![' '] + b + Seq::<char>::empty() =~= seq![' '] + b);
    lemma_ws_tokens_blank(Seq::empty());
    assert(seq![a] + (seq![b] + Seq::<Seq<char>>::empty()) =~= seq![a, b]);
}

/// Parsing a header line whose keyword is not a transaction flag.
proof fn lemma_keyword_line(lines: Seq<Seq<char>>, i: int, date: (int, int, int), kw: Seq<char>, rest: Seq<char>)
    requires
        0 <= i < lines.len(),
        canonical_date(date),
        lines[i] == ymd_view_text(date) + seq![' '] + (kw + seq![' '] + rest),
        kw.len() > 0,
        no_ws(kw),
        rest.len() > 0,
        !is_ws(rest[0]),
        !is_ws(rest.last()),
    ensures
        header_parts(trim(lines[i])) == (ymd_view_text(date), kw, rest),
        iso_result(ymd_view_text(date)) == Ok::<(int, int, int), Seq<char>>(date),
{
    lemma_date_view(date);
    lemma_header_parts(ymd_view_text(date), kw, rest);
}

proof fn lemma_keywords_differ()
    ensures
        "open"@ != "*"@ && "open"@ != "!"@,
        "close"@ != "*"@ && "close"@ != "!"@ && "close"@ != "open"@,
        "balance"@ != "*"@ && "balance"@ != "!"@ && "balance"@ != "open"@ && "balance"@ != "close"@,
        "pad"@ != "*"@ && "pad"@ != "!"@ && "pad"@ != "open"@ && "pad"@ != "close"@ && "pad"@ != "balance"@,
        "commodity"@ != "*"@ && "commodity"@ != "!"@ && "commodity"@ != "open"@ && "commodity"@ != "close"@
            && "commodity"@ != "balance"@ && "commodity"@ != "pad"@,
        "!"@ != "*"@,
{
    reveal_strlit("open");
    reveal_strlit("close");
    reveal_strlit("balance");
    reveal_strlit("pad");
    reveal_strlit("commodity");
    reveal_strlit("*");
    reveal_strlit("!");
    assert("open"@.len() == 4);
    assert("close"@.len() == 5);
    assert("balance"@.len() == 7);
    assert("pad"@.len() == 3);
    assert("commodity"@.len() == 9);
    assert("*"@.len() == 1);
    assert("!"@.len() == 1);
    assert("!"@[0] != "*"@[0]);
}

proof fn lemma_keyword_word(w: Seq<char>)
    requires
        w == "open"@ || w == "close"@ || w == "balance"@ || w == "pad"@ || w == "commodity"@,
    ensures
        no_ws(w),
        w.len() > 0,
{
    reveal_strlit("open");
    reveal_strlit("close");
    reveal_strlit("balance");
    reveal_strlit("pad");
    reveal_strlit("commodity");
}

/// What `directive_at` does with a header whose parts are known.
proof fn lemma_dispatch(lines: Seq<Seq<char>>, i: int, date: (int, int, int), kw: Seq<char>, rest: Seq<char>)
    requires
        0 <= i < lines.len(),
        header_parts(trim(lines[i])) == (ymd_view_text(date), kw, rest),
        iso_result(ymd_view_text(date)) == Ok::<(int, int, int), Seq<char>>(date),
    ensures
        kw == "open"@ ==> directive_at(lines, i) == open_at(ws_tokens(rest), date, (i + 1) as nat),
        kw == "close"@ ==> directive_at(lines, i) == close_at(ws_tokens(rest), date, (i + 1) as nat),
        kw == "balance"@ ==> directive_at(lines, i) == balance_at(rest, date, (i + 1) as nat),
        kw == "pad"@ ==> directive_at(lines, i) == pad_at(ws_tokens(rest), date, (i + 1) as nat),
        kw == "commodity"@ ==> directive_at(lines, i) == commodity_at(
            lines,
            i,
            ws_tokens(rest),
            date,
            (i + 1) as nat,
        ),
        kw == "*"@ ==> directive_at(lines, i) == crate::parser::transaction_at(
            lines,
            i,
            date,
            crate::model::Flag::Cleared,
            rest,
        ),
        kw == "!"@ ==> directive_at(lines, i) == crate::parser::transaction_at(
            lines,
            i,
            date,
            crate::model::Flag::Pending,
            rest,
        ),
{
    reveal(directive_at);
    lemma_keywords_differ();
}

/// An `open` line reads back.
proof fn lemma_open_line(lines: Seq<Seq<char>>, i: int, d: DirectiveView)
    requires
        0 <= i < lines.len(),
        d matches DirectiveView::Open { date, account, currencies } && canonical_date(date) && canonical_account(
            account,
        ) && (forall|k: int| 0 <= k < currencies.len() ==> bare(#[trigger] currencies[k])),
        lines[i] == directive_lines(d)[0],
    ensures
        directive_at(lines, i) == StepParse::Parsed(d, 1),
{
    if let DirectiveView::Open { date, account, currencies } = d {
        lemma_account_field(account);
        let cs_part = if currencies.len() > 0 {
            seq![' '] + join(currencies, ","@)
        } else {
            Seq::empty()
        };
        let rest = account + cs_part;
        assert(lines[i] =~= ymd_view_text(date) + seq![' '] + ("open"@ + seq![' '] + rest)) by {
            reveal_strlit(" open ");
            reveal_strlit("open");
        }
        if currencies.len() > 0 {
            let j = join(currencies, ","@);
            assert(no_ws(j) && j.len() > 0 && !is_ws(j.last())) by {
                lemma_join_bare(currencies);
            }
            assert(rest =~= account + seq![' '] + j);
            assert(rest.last() == j.last());
            assert(ws_tokens(rest) == seq![account, j]) by {
                lemma_two_tokens(account, j);
            }
            assert(nonempty_pieces(split_char(j, ',')) == currencies) by {
                assert forall|k: int| 0 <= k < currencies.len() implies lacks(#[trigger] currencies[k], ',') by {
                    assert(bare(currencies[k]));
                }
                lemma_split_join(currencies);
                assert forall|k: int| 0 <= k < currencies.len() implies (#[trigger] currencies[k]).len() > 0 by {
                    assert(bare(currencies[k]));
                }
                lemma_nonempty_pieces(currencies);
            }
            assert(seq![account, j].skip(1) =~= seq![j]);
            assert(currencies_of(seq![j]) == currencies) by {
                assert(seq![j].drop_last() =~= Seq::<Seq<char>>::empty());
                assert(seq![j].last() == j);
                assert(currencies_of(Seq::<Seq<char>>::empty()) == Seq::<Seq<char>>::empty());
                assert(Seq::<Seq<char>>::empty() + currencies =~= currencies);
            }
        } else {
            assert(rest =~= account);
            lemma_one_token(account);
            assert(seq![account].skip(1) =~= Seq::<Seq<char>>::empty());
            assert(currencies =~= Seq::<Seq<char>>::empty());
        }
        lemma_keyword_word("open"@);
        lemma_keyword_line(lines, i, date, "open"@, rest);
        lemma_dispatch(lines, i, date, "open"@, rest);
    }
}

/// A `close` line reads back.
proof fn lemma_close_line(lines: Seq<Seq<char>>, i: int, d: DirectiveView)
    requires
        0 <= i < lines.len(),
        d matches DirectiveView::Close { date, account } && canonical_date(date) && canonical_account(account),
        lines[i] == directive_lines(d)[0],
    ensures
        directive_at(lines, i) == StepParse::Parsed(d, 1),
{
    if let DirectiveView::Close { date, account } = d {
        lemma_account_field(account);
        assert(lines[i] =~= ymd_view_text(date) + seq![' '] + ("close"@ + seq![' '] + account)) by {
            reveal_strlit(" close ");
            reveal_strlit("close");
        }
        lemma_one_token(account);
        lemma_keyword_word("close"@);
        lemma_keyword_line(lines, i, date, "close"@, account);
        lemma_dispatch(lines, i, date, "close"@, account);
    }
}

/// A `pad` line reads back.
proof fn lemma_pad_line(lines: Seq<Seq<char>>, i: int, d: DirectiveView)
    requires
        0 <= i < lines.len(),
        d matches DirectiveView::Pad { date, account, source } && canonical_date(date) && canonical_account(account)
            && canonical_account(source),
        lines[i] == directive_lines(d)[0],
    ensures
        directive_at(lines, i) == StepParse::Parsed(d, 1),
{
    if let DirectiveView::Pad { date, account, source } = d {
        let rest = account + seq![' '] + source;
        assert(lines[i] =~= ymd_view_text(date) + seq![' '] + ("pad"@ + seq![' '] + rest)) by {
            reveal_strlit(" pad ");
            reveal_strlit("pad");
        }
        assert(ws_tokens(rest) == seq![account, source] && !is_ws(rest[0]) && !is_ws(rest.last())) by {
            lemma_account_field(account);
            lemma_account_field(source);
            assert(rest.last() == source.last());
            assert(rest[0] == account[0]);
            lemma_two_tokens(account, source);
        }
        assert(header_parts(trim(lines[i])) == (ymd_view_text(date), "pad"@, rest) && iso_result(
            ymd_view_text(date),
        ) == Ok::<(int, int, int), Seq<char>>(date)) by {
            lemma_keyword_word("pad"@);
        lemma_keyword_line(lines, i, date, "pad"@, rest);
        }
        lemma_dispatch(lines, i, date, "pad"@, rest);
        assert(pad_at(seq![account, source], date, (i + 1) as nat) == StepParse::Parsed(d, 1)) by {
            lemma_account_field(account);
            lemma_account_field(source);
        }
    }
}

proof fn lemma_balance_rest(account: Seq<char>, amount: (DecimalValue, Seq<char>))
    requires
        canonical_account(account),
        canonical_amount(amount),
    ensures
        before_ws(account + "  "@ + pair_text(amount)) == account,
        after_ws(account + "  "@ + pair_text(amount)) matches Some(x) && trim(x) == pair_text(amount),
        amount_result(pair_text(amount)) == Ok::<(DecimalValue, Seq<char>), Seq<char>>(amount),
        !is_ws((account + "  "@ + pair_text(amount))[0]),
        !is_ws((account + "  "@ + pair_text(amount)).last()),
{
    reveal_strlit("  ");
    lemma_account_field(account);
    lemma_amount_text(amount);
    let pt = pair_text(amount);
    let rest = account + "  "@ + pt;
    assert(rest.last() == pt.last());
    assert(rest[0] == account[0]);
    assert(rest =~= account + (seq![' '] + (seq![' '] + pt)));
    lemma_split_ws(account, seq![' '] + (seq![' '] + pt));
    assert((seq![' '] + (seq![' '] + pt)).drop_first() =~= seq![' '] + pt);
    assert(all_ws(seq![' ']));
    lemma_trim_after_ws(seq![' '], pt);
}

/// A `balance` line reads back.
proof fn lemma_balance_line(lines: Seq<Seq<char>>, i: int, d: DirectiveView)
    requires
        0 <= i < lines.len(),
        d matches DirectiveView::Balance { date, account, amount } && canonical_date(date) && canonical_account(
            account,
        ) && canonical_amount(amount),
        lines[i] == directive_lines(d)[0],
    ensures
        directive_at(lines, i) == StepParse::Parsed(d, 1),
{
    if let DirectiveView::Balance { date, account, amount } = d {
        lemma_account_field(account);
        let rest = account + "  "@ + pair_text(amount);
        assert(lines[i] =~= ymd_view_text(date) + seq![' '] + ("balance"@ + seq![' '] + rest)) by {
            reveal_strlit(" balance ");
            reveal_strlit("balance");
        }
        lemma_balance_rest(account, amount);
        lemma_keyword_word("balance"@);
        lemma_keyword_line(lines, i, date, "balance"@, rest);
        lemma_dispatch(lines, i, date, "balance"@, rest);
    }
}

proof fn lemma_parse_u8(p: u8)
    ensures
        parse_u8(uint_text(p as nat)) == Some(p),
        uint_text(p as nat).len() > 0,
{
    lemma_uint_text(p as nat);
    let t = uint_text(p as nat);
    assert('0' <= t[0] <= '9');
    assert(crate::text::parse_u32(t) == Some(p as u32));
}

proof fn lemma_precision_key()
    ensures
        "precision"@.len() > 0,
        ascii_lower("precision"@[0]),
        forall|i: int| 0 <= i < "precision"@.len() ==> key_char(#[trigger] "precision"@[i]),
{
    reveal_strlit("precision");
}

/// The `precision` line under a `commodity` line reads back.
proof fn lemma_precision_line(lines: Seq<Seq<char>>, i: int, p: u8)
    requires
        0 <= i,
        i + 1 < lines.len(),
        lines[i + 1] == "  precision: \""@ + uint_text(p as nat) + "\""@,
    ensures
        precision_line(lines, i) == Some(p),
{
    let v = uint_text(p as nat);
    assert(lines[i + 1] =~= meta_entry_line(("precision"@, v))) by {
        reveal_strlit("  precision: \"");
        reveal_strlit("  ");
        reveal_strlit("precision");
        reveal_strlit(": \"");
    }
    lemma_precision_key();
    lemma_meta_entry("precision"@, v);
    let t = trim(lines[i + 1]);
    assert(t.len() > 0);
    assert(is_ws(lines[i + 1][0])) by {
        reveal_strlit("  ");
        reveal_strlit("  precision: \"");
    }
    lemma_parse_u8(p);
}

proof fn lemma_commodity_header(lines: Seq<Seq<char>>, i: int, date: (int, int, int), code: Seq<char>)
    requires
        0 <= i < lines.len(),
        canonical_date(date),
        bare(code),
        lines[i] == ymd_view_text(date) + " commodity "@ + code,
    ensures
        directive_at(lines, i) == commodity_at(lines, i, seq![code], date, (i + 1) as nat),
{
    assert(lines[i] =~= ymd_view_text(date) + seq![' '] + ("commodity"@ + seq![' '] + code)) by {
        reveal_strlit(" commodity ");
        reveal_strlit("commodity");
    }
    assert(ws_tokens(code) == seq![code] && !is_ws(code[0]) && !is_ws(code.last())) by {
        lemma_bare_no_ws(code);
        lemma_one_token(code);
    }
    assert(header_parts(trim(lines[i])) == (ymd_view_text(date), "commodity"@, code) && iso_result(
        ymd_view_text(date),
    ) == Ok::<(int, int, int), Seq<char>>(date)) by {
        lemma_bare_no_ws(code);
        lemma_keyword_word("commodity"@);
        lemma_keyword_line(lines, i, date, "commodity"@, code);
    }
    lemma_dispatch(lines, i, date, "commodity"@, code);
}

/// A `commodity` directive's two lines read back.
proof fn lemma_commodity_line(lines: Seq<Seq<char>>, i: int, d: DirectiveView)
    requires
        0 <= i,
        i + 1 < lines.len(),
        d matches DirectiveView::Commodity { date, code, precision } && canonical_date(date) && bare(code),
        lines[i] == directive_lines(d)[0],
        lines[i + 1] == directive_lines(d)[1],
    ensures
        directive_at(lines, i) == StepParse::Parsed(d, 2),
{
    if let DirectiveView::Commodity { date, code, precision } = d {
        lemma_commodity_header(lines, i, date, code);
        assert(precision_line(lines, i) == Some(precision)) by {
            lemma_precision_line(lines, i, precision);
        }
        assert(seq![code][0] == code);
    }
}

// ---------------------------------------------------------------------
// Posting lines
// ---------------------------------------------------------------------

/// A posting the format reads back: a bare account (under a root, or a
/// root itself when the posting has neither amount nor cost), canonical
/// amounts, and no metadata of its own.
pub open spec fn canonical_posting(p: PostingView) -> bool {
    &&& canonical_account(p.account)
    &&& (!lacks(p.account, ':') || (p.amount is None && p.cost_or_price is None))
    &&& (p.amount matches Some(a) ==> canonical_amount(a))
    &&& (p.cost_or_price matches Some((a, _)) ==> canonical_amount(a))
    &&& p.meta.len() == 0
}

/// The account and amount part of a posting line.
pub open spec fn posting_base_text(p: PostingView) -> Seq<char> {
    p.account + match p.amount {
        Some(a) => "  "@ + pair_text(a),
        None => Seq::empty(),
    }
}

/// The cost or price part of a posting line.
pub open spec fn posting_tail_text(p: PostingView) -> Seq<char> {
    match p.cost_or_price {
        Some((a, is_cost)) => if is_cost {
            " {"@ + pair_text(a) + "}"@
        } else {
            " @ "@ + pair_text(a)
        },
        None => Seq::empty(),
    }
}

/// Characters of a posting line's base that the line's parsing looks for.
pub open spec fn base_char(c: char) -> bool {
    c != '{' && c != '}' && c != '@' && c != '"' && c != '\n'
}

proof fn lemma_base_text(p: PostingView)
    requires
        canonical_posting(p),
    ensures
        forall|i: int| 0 <= i < posting_base_text(p).len() ==> base_char(#[trigger] posting_base_text(p)[i]),
        posting_base_text(p).len() > 0,
        !is_ws(posting_base_text(p)[0]),
        !is_ws(posting_base_text(p).last()),
        before_ws(posting_base_text(p)) == p.account,
        posting_base(posting_base_text(p), p.cost_or_price) == PostingParse::Parsed(p),
        trim_end(posting_base_text(p)) == posting_base_text(p),
{
    reveal_strlit("  ");
    reveal(posting_base);
    let a = p.account;
    let b = posting_base_text(p);
    lemma_account_field(a);
    match p.amount {
        Some(am) => {
            lemma_amount_text(am);
            let pt = pair_text(am);
            assert(b =~= a + (seq![' '] + (seq![' '] + pt)));
            assert(forall|i: int| 0 <= i < b.len() ==> base_char(#[trigger] b[i])) by {
                assert forall|i: int| 0 <= i < b.len() implies base_char(#[trigger] b[i]) by {
                    if i < a.len() {
                        assert(b[i] == a[i]);
                    } else if i >= a.len() + 2 {
                        assert(b[i] == pt[i - a.len() - 2]);
                    }
                }
            }
            assert(b.last() == pt.last());
            lemma_split_ws(a, seq![' '] + (seq![' '] + pt));
            assert((seq![' '] + (seq![' '] + pt)).drop_first() =~= seq![' '] + pt);
            assert(all_ws(seq![' ']));
            lemma_trim_after_ws(seq![' '], pt);
            assert(b[0] == a[0]);
            lemma_trim_plain(b);
            assert(p.meta =~= Seq::<(Seq<char>, Seq<char>)>::empty());
            assert(p == crate::model::PostingView {
                account: a,
                amount: Some(am),
                cost_or_price: p.cost_or_price,
                meta: Seq::empty(),
            });
        },
        None => {
            assert(b =~= a + Seq::<char>::empty());
            assert(b =~= a);
            lemma_split_ws(a, Seq::empty());
            lemma_trim_plain(a);
            assert(p.meta =~= Seq::<(Seq<char>, Seq<char>)>::empty());
            assert(p == crate::model::PostingView {
                account: a,
                amount: None,
                cost_or_price: p.cost_or_price,
                meta: Seq::empty(),
            });
        },
    }
}

proof fn lemma_no_at_found(t: Seq<char>)
    requires
        lacks(t, '@'),
    ensures
        find(t, " @ "@) is None,
{
    reveal(find);
    reveal_strlit(" @ ");
    assert forall|i: int| !occurs_at(t, " @ "@, i) by {
        if occurs_at(t, " @ "@, i) {
            assert(t.subrange(i, i + 3)[1] == t[i + 1]);
            assert(" @ "@[1] == '@');
        }
    }
}

proof fn lemma_at_found(b: Seq<char>, q: Seq<char>)
    requires
        lacks(b, '@'),
        lacks(q, '@'),
    ensures
        find(b + " @ "@ + q, " @ "@) == Some(b.len() as int),
{
    reveal_strlit(" @ ");
    let t = b + " @ "@ + q;
    assert(t.subrange(b.len() as int, b.len() as int + 3) =~= " @ "@);
    assert forall|j: int| 0 <= j < b.len() implies !occurs_at(t, " @ "@, j) by {
        if occurs_at(t, " @ "@, j) {
            assert(t.subrange(j, j + 3)[1] == t[j + 1]);
            if j + 1 < b.len() {
                assert(t[j + 1] == b[j + 1]);
            } else {
                assert(t[j + 1] == ' ');
            }
        }
    }
    crate::text::lemma_find_first(t, " @ "@, b.len() as int);
}

proof fn lemma_trim_end_space(b: Seq<char>)
    requires
        b.len() > 0,
        !is_ws(b.last()),
    ensures
        trim_end(b + seq![' ']) == b,
{
    let s = b + seq![' '];
    assert(s[s.len() - 1] == ' ');
    assert(s[s.len() - 2] == b.last());
    assert(skip_ws_back(s, s.len() - 1) == s.len() - 1);
    assert(skip_ws_back(s, s.len() as int) == s.len() - 1);
    assert(s.take(s.len() - 1) =~= b);
}

proof fn lemma_lacks_base(p: PostingView, c: char)
    requires
        canonical_posting(p),
        c == '{' || c == '}' || c == '@',
    ensures
        lacks(posting_base_text(p), c),
{
    lemma_base_text(p);
    let b = posting_base_text(p);
    assert forall|i: int| 0 <= i < b.len() implies #[trigger] b[i] != c by {
        assert(base_char(b[i]));
    }
}

proof fn lemma_posting_plain(p: PostingView)
    requires
        canonical_posting(p),
        p.cost_or_price is None,
    ensures
        posting_result(posting_base_text(p) + posting_tail_text(p)) == PostingParse::Parsed(p),
{
    reveal(posting_result);
    let b = posting_base_text(p);
    let t = b + posting_tail_text(p);
    assert(t =~= b);
    assert(find(b, " @ "@) is None) by {
        lemma_lacks_base(p, '@');
        lemma_no_at_found(b);
    }
    assert(index_of_char(b, '{') is None) by {
        lemma_lacks_base(p, '{');
        lemma_no_char(b, '{');
    }
    assert(posting_base(b, None) == PostingParse::Parsed(p)) by {
        lemma_base_text(p);
    }
}

proof fn lemma_cost_positions(b: Seq<char>, pc: Seq<char>)
    requires
        lacks(b, '{'),
        lacks(b, '}'),
        lacks(pc, '}'),
    ensures
        index_of_char(b + seq![' ', '{'] + pc + seq!['}'], '{') == Some(b.len() as int + 1),
        index_of_char(b + seq![' ', '{'] + pc + seq!['}'], '}') == Some(b.len() as int + 2 + pc.len()),
{
    let t = b + seq![' ', '{'] + pc + seq!['}'];
    assert(index_of_char(t, '{') == Some(b.len() as int + 1)) by {
        assert(lacks(b + seq![' '], '{')) by {
            assert forall|i: int| 0 <= i < (b + seq![' ']).len() implies #[trigger] (b + seq![' '])[i] != '{' by {
                if i < b.len() {
                    assert((b + seq![' '])[i] == b[i]);
                }
            }
        }
        assert(t =~= (b + seq![' ']) + seq!['{'] + (pc + seq!['}']));
        lemma_first_char(b + seq![' '], '{', pc + seq!['}']);
    }
    assert(index_of_char(t, '}') == Some(b.len() as int + 2 + pc.len())) by {
        let h = b + seq![' ', '{'] + pc;
        assert(lacks(h, '}')) by {
            assert forall|i: int| 0 <= i < h.len() implies #[trigger] h[i] != '}' by {
                if i < b.len() {
                    assert(h[i] == b[i]);
                } else if i >= b.len() + 2 {
                    assert(h[i] == pc[i - b.len() - 2]);
                }
            }
        }
        assert(t =~= h + seq!['}'] + Seq::<char>::empty());
        lemma_first_char(h, '}', Seq::empty());
    }
}

#[verifier::rlimit(60)]
proof fn lemma_posting_cost(p: PostingView)
    requires
        canonical_posting(p),
        p.cost_or_price matches Some((_, is_cost)) && is_cost,
    ensures
        posting_result(posting_base_text(p) + posting_tail_text(p)) == PostingParse::Parsed(p),
{
    reveal(posting_result);
    let b = posting_base_text(p);
    let c = p.cost_or_price.unwrap().0;
    let pc = pair_text(c);
    let t = b + posting_tail_text(p);
    assert(t =~= b + seq![' ', '{'] + pc + seq!['}']) by {
        reveal_strlit(" {");
        reveal_strlit("}");
    }
    assert(lacks(pc, '@') && lacks(pc, '}') && pc.len() > 0 && !is_ws(pc[0]) && !is_ws(pc.last())
        && amount_result(pc) == Ok::<(DecimalValue, Seq<char>), Seq<char>>(c)) by {
        lemma_amount_text(c);
    }
    assert(find(t, " @ "@) is None) by {
        lemma_lacks_base(p, '@');
        assert(lacks(t, '@')) by {
            assert forall|i: int| 0 <= i < t.len() implies #[trigger] t[i] != '@' by {
                if i < b.len() {
                    assert(t[i] == b[i]);
                } else if i >= b.len() + 2 && i < b.len() + 2 + pc.len() {
                    assert(t[i] == pc[i - b.len() - 2]);
                }
            }
        }
        lemma_no_at_found(t);
    }
    assert(index_of_char(t, '{') == Some(b.len() as int + 1) && index_of_char(t, '}') == Some(
        b.len() as int + 2 + pc.len(),
    )) by {
        lemma_lacks_base(p, '{');
        lemma_lacks_base(p, '}');
        lemma_cost_positions(b, pc);
    }
    assert(t.subrange(b.len() as int + 2, b.len() as int + 2 + pc.len()) =~= pc);
    assert(trim(pc) == pc) by {
        lemma_trim_plain(pc);
    }
    assert(t.take(b.len() as int + 1) =~= b + seq![' ']);
    assert(trim_end(b + seq![' ']) == b) by {
        lemma_base_text(p);
        lemma_trim_end_space(b);
    }
    assert(posting_base(b, p.cost_or_price) == PostingParse::Parsed(p)) by {
        lemma_base_text(p);
    }
}

proof fn lemma_posting_price(p: PostingView)
    requires
        canonical_posting(p),
        p.cost_or_price matches Some((_, is_cost)) && !is_cost,
    ensures
        posting_result(posting_base_text(p) + posting_tail_text(p)) == PostingParse::Parsed(p),
{
    reveal(posting_result);
    let b = posting_base_text(p);
    let c = p.cost_or_price.unwrap().0;
    let pc = pair_text(c);
    let t = b + posting_tail_text(p);
    assert(t =~= b + " @ "@ + pc);
    assert(lacks(pc, '@') && pc.len() > 0 && !is_ws(pc[0]) && !is_ws(pc.last())
        && amount_result(pc) == Ok::<(DecimalValue, Seq<char>), Seq<char>>(c)) by {
        lemma_amount_text(c);
    }
    assert(find(t, " @ "@) == Some(b.len() as int)) by {
        lemma_lacks_base(p, '@');
        lemma_at_found(b, pc);
    }
    assert(t.skip(b.len() as int + 3) =~= pc) by {
        reveal_strlit(" @ ");
    }
    assert(trim(pc) == pc) by {
        lemma_trim_plain(pc);
    }
    assert(t.take(b.len() as int) =~= b) by {
        reveal_strlit(" @ ");
    }
    assert(trim_end(b) == b && posting_base(b, p.cost_or_price) == PostingParse::Parsed(p)) by {
        lemma_base_text(p);
    }
}

/// A posting line reads back as the posting.
pub proof fn lemma_posting_result(p: PostingView)
    requires
        canonical_posting(p),
    ensures
        posting_result(posting_base_text(p) + posting_tail_text(p)) == PostingParse::Parsed(p),
{
    match p.cost_or_price {
        None => lemma_posting_plain(p),
        Some((_, is_cost)) => if is_cost {
            lemma_posting_cost(p);
        } else {
            lemma_posting_price(p);
        },
    }
}

// ---------------------------------------------------------------------
// Transaction headers
// ---------------------------------------------------------------------

/// Text the format can put between double quotes.
pub open spec fn quotable(s: Seq<char>) -> bool {
    lacks(s, '"') && lacks(s, '\n')
}

/// A tag or link the format reads back: no whitespace, no double quote.
pub open spec fn tag_word(s: Seq<char>) -> bool {
    no_ws(s) && lacks(s, '"')
}

proof fn lemma_next_char_at(s: Seq<char>, c: char, i: int, j: int)
    requires
        0 <= i <= j <= s.len(),
        forall|k: int| i <= k < j ==> #[trigger] s[k] != c,
        j < s.len() ==> s[j] == c,
    ensures
        next_char(s, c, i) == j,
    decreases j - i,
{
    if i < j {
        lemma_next_char_at(s, c, i + 1, j);
    }
}

proof fn lemma_quoted_none(t: Seq<char>, pos: int, last: int)
    requires
        0 <= pos <= t.len(),
        forall|k: int| pos <= k < t.len() ==> #[trigger] t[k] != '"',
    ensures
        quoted_from(t, pos, last) == Some((Seq::<Seq<char>>::empty(), last)),
{
    lemma_next_char_at(t, '"', pos, t.len() as int);
}

proof fn lemma_quoted_one(t: Seq<char>, pos: int, last: int, o: int, c: int)
    requires
        0 <= pos <= o < c < t.len(),
        forall|k: int| pos <= k < o ==> #[trigger] t[k] != '"',
        t[o] == '"',
        forall|k: int| o < k < c ==> #[trigger] t[k] != '"',
        t[c] == '"',
    ensures
        quoted_from(t, pos, last) == match quoted_from(t, c + 1, c + 1) {
            None => None,
            Some((r, e)) => Some((seq![t.subrange(o + 1, c)] + r, e)),
        },
{
    lemma_next_char_at(t, '"', pos, o);
    lemma_next_char_at(t, '"', o + 1, c);
}

/// The words after the strings of a header: ` #tag`s, then ` ^link`s.
pub open spec fn words_tail(t: TransactionView) -> Seq<char> {
    words_text(" #"@, t.tags) + words_text(" ^"@, t.links)
}

proof fn lemma_words_lack_quote(pfx: Seq<char>, ws: Seq<Seq<char>>)
    requires
        lacks(pfx, '"'),
        forall|k: int| 0 <= k < ws.len() ==> lacks(#[trigger] ws[k], '"'),
    ensures
        lacks(words_text(pfx, ws), '"'),
    decreases ws.len(),
{
    if ws.len() > 0 {
        let init = ws.drop_last();
        assert forall|k: int| 0 <= k < init.len() implies lacks(#[trigger] init[k], '"') by {
            assert(init[k] == ws[k]);
        }
        lemma_words_lack_quote(pfx, init);
        let a = words_text(pfx, init);
        let l = ws.last();
        assert(lacks(l, '"'));
        assert(words_text(pfx, ws) == a + pfx + l);
        assert forall|i: int| 0 <= i < (a + pfx + l).len() implies #[trigger] (a + pfx + l)[i] != '"' by {
            if i < a.len() {
                assert((a + pfx + l)[i] == a[i]);
            } else if i < a.len() + pfx.len() {
                assert((a + pfx + l)[i] == pfx[i - a.len()]);
            } else {
                assert((a + pfx + l)[i] == l[i - a.len() - pfx.len()]);
            }
        }
    }
}

/// The strings of a header tail read back, and what follows them.
proof fn lemma_header_strings(payee: Option<Seq<char>>, n: Seq<char>, w: Seq<char>)
    requires
        payee matches Some(p) ==> quotable(p),
        quotable(n),
        lacks(w, '"'),
    ensures
        header_result(
            match payee {
                Some(p) => "\""@ + p + "\" \""@ + n + "\""@ + w,
                None => "\""@ + n + "\""@ + w,
            },
        ) == Ok::<(Option<Seq<char>>, Seq<char>, Seq<char>), Seq<char>>((payee, n, w)),
{
    reveal_strlit("\"");
    reveal_strlit("\" \"");
    match payee {
        Some(p) => {
            let t = "\""@ + p + "\" \""@ + n + "\""@ + w;
            let c1: int = 1 + p.len() as int;
            let o2: int = c1 + 2;
            let c2: int = o2 + 1 + n.len();
            assert(t =~= seq!['"'] + p + seq!['"', ' ', '"'] + n + seq!['"'] + w);
            assert forall|k: int| 0 < k < c1 implies #[trigger] t[k] != '"' by {
                assert(t[k] == p[k - 1]);
            }
            assert forall|k: int| c1 + 1 <= k < o2 implies #[trigger] t[k] != '"' by {
                assert(t[k] == ' ');
            }
            assert forall|k: int| o2 < k < c2 implies #[trigger] t[k] != '"' by {
                assert(t[k] == n[k - o2 - 1]);
            }
            assert forall|k: int| c2 + 1 <= k < t.len() implies #[trigger] t[k] != '"' by {
                assert(t[k] == w[k - c2 - 1]);
            }
            lemma_quoted_none(t, c2 + 1, c2 + 1);
            lemma_quoted_one(t, c1 + 1, c1 + 1, o2, c2);
            lemma_quoted_one(t, 0, 0, 0, c1);
            assert(t.subrange(1, c1) =~= p);
            assert(t.subrange(o2 + 1, c2) =~= n);
            assert(t.skip(c2 + 1) =~= w);
            let strs = seq![p] + (seq![n] + Seq::<Seq<char>>::empty());
            assert(strs.len() == 2);
            assert(strs[0] == p);
            assert(strs[1] == n);
        },
        None => {
            let t = "\""@ + n + "\""@ + w;
            let c1: int = 1 + n.len() as int;
            assert(t =~= seq!['"'] + n + seq!['"'] + w);
            assert forall|k: int| 0 < k < c1 implies #[trigger] t[k] != '"' by {
                assert(t[k] == n[k - 1]);
            }
            assert forall|k: int| c1 + 1 <= k < t.len() implies #[trigger] t[k] != '"' by {
                assert(t[k] == w[k - c1 - 1]);
            }
            lemma_quoted_none(t, c1 + 1, c1 + 1);
            lemma_quoted_one(t, 0, 0, 0, c1);
            assert(t.subrange(1, c1) =~= n);
            assert(t.skip(c1 + 1) =~= w);
            let strs = seq![n] + Seq::<Seq<char>>::empty();
            assert(strs.len() == 1);
            assert(strs[0] == n);
        },
    }
}

proof fn lemma_words_front(pfx: Seq<char>, ws: Seq<Seq<char>>)
    requires
        ws.len() > 0,
    ensures
        words_text(pfx, ws) == pfx + ws[0] + words_text(pfx, ws.drop_first()),
    decreases ws.len(),
{
    if ws.len() == 1 {
        assert(ws.drop_last() =~= Seq::<Seq<char>>::empty());
        assert(ws.drop_first() =~= Seq::<Seq<char>>::empty());
        assert(words_text(pfx, ws) =~= pfx + ws[0] + words_text(pfx, ws.drop_first()));
    } else {
        lemma_words_front(pfx, ws.drop_last());
        assert(ws.drop_last().drop_first() =~= ws.drop_first().drop_last());
        assert(ws.drop_first().last() == ws.last());
        assert(ws.drop_last()[0] == ws[0]);
        assert(words_text(pfx, ws) =~= pfx + ws[0] + words_text(pfx, ws.drop_first()));
    }
}

/// The tokens of ` m w1 m w2 ...` followed by `r`.
proof fn lemma_words_tokens(m: char, ws: Seq<Seq<char>>, r: Seq<char>)
    requires
        !is_ws(m),
        forall|k: int| 0 <= k < ws.len() ==> no_ws(#[trigger] ws[k]),
        r.len() > 0 ==> is_ws(r[0]),
    ensures
        ws_tokens(words_text(seq![' ', m], ws) + r) == ws.map_values(|w: Seq<char>| seq![m] + w) + ws_tokens(r),
    decreases ws.len(),
{
    let pfx = seq![' ', m];
    if ws.len() == 0 {
        assert(words_text(pfx, ws) + r =~= r);
        assert(ws.map_values(|w: Seq<char>| seq![m] + w) =~= Seq::<Seq<char>>::empty());
        assert(Seq::<Seq<char>>::empty() + ws_tokens(r) =~= ws_tokens(r));
    } else {
        let rest = ws.drop_first();
        assert forall|k: int| 0 <= k < rest.len() implies no_ws(#[trigger] rest[k]) by {
            assert(rest[k] == ws[k + 1]);
        }
        lemma_words_tokens(m, rest, r);
        lemma_words_front(pfx, ws);
        let word = seq![m] + ws[0];
        let after = words_text(pfx, rest) + r;
        assert(words_text(pfx, ws) + r =~= seq![' '] + word + after);
        assert(no_ws(word)) by {
            assert(no_ws(ws[0]));
            assert forall|i: int| 0 <= i < word.len() implies !is_ws(#[trigger] word[i]) by {
                if i > 0 {
                    assert(word[i] == ws[0][i - 1]);
                }
            }
        }
        assert(after.len() > 0 ==> is_ws(after[0])) by {
            if rest.len() > 0 {
                lemma_words_front(pfx, rest);
                assert(after[0] == ' ');
            } else {
                assert(after =~= r);
            }
        }
        assert(all_ws(seq![' ']));
        lemma_ws_tokens_step(seq![' '], word, after);
        assert(ws.map_values(|w: Seq<char>| seq![m] + w) =~= seq![word] + rest.map_values(
            |w: Seq<char>| seq![m] + w,
        ));
    }
}

proof fn lemma_tags_concat(a: Seq<Seq<char>>, b: Seq<Seq<char>>)
    ensures
        tags_of(a + b) == tags_of(a) + tags_of(b),
        links_of(a + b) == links_of(a) + links_of(b),
    decreases b.len(),
{
    if b.len() == 0 {
        assert(a + b =~= a);
        assert(tags_of(a) + tags_of(b) =~= tags_of(a));
        assert(links_of(a) + links_of(b) =~= links_of(a));
    } else {
        lemma_tags_concat(a, b.drop_last());
        assert((a + b).drop_last() =~= a + b.drop_last());
        assert((a + b).last() == b.last());
        assert(tags_of(a + b) =~= tags_of(a) + tags_of(b));
        assert(links_of(a + b) =~= links_of(a) + links_of(b));
    }
}

proof fn lemma_marked(m: char, ws: Seq<Seq<char>>)
    ensures
        m == '#' ==> tags_of(ws.map_values(|w: Seq<char>| seq![m] + w)) == ws,
        m == '#' ==> links_of(ws.map_values(|w: Seq<char>| seq![m] + w)) == Seq::<Seq<char>>::empty(),
        m == '^' ==> tags_of(ws.map_values(|w: Seq<char>| seq![m] + w)) == Seq::<Seq<char>>::empty(),
        m == '^' ==> links_of(ws.map_values(|w: Seq<char>| seq![m] + w)) == ws,
    decreases ws.len(),
{
    let toks = ws.map_values(|w: Seq<char>| seq![m] + w);
    if ws.len() > 0 {
        lemma_marked(m, ws.drop_last());
        assert(toks.drop_last() =~= ws.drop_last().map_values(|w: Seq<char>| seq![m] + w));
        assert(toks.last() == seq![m] + ws.last());
        assert(toks.last()[0] == m);
        assert(toks.last().drop_first() =~= ws.last());
        assert(ws.drop_last().push(ws.last()) =~= ws);
    } else {
        assert(toks =~= Seq::<Seq<char>>::empty());
    }
}

/// The tags and links of a header read back from its words.
proof fn lemma_words_tail(t: TransactionView)
    requires
        forall|k: int| 0 <= k < t.tags.len() ==> tag_word(#[trigger] t.tags[k]),
        forall|k: int| 0 <= k < t.links.len() ==> tag_word(#[trigger] t.links[k]),
    ensures
        tags_of(ws_tokens(words_tail(t))) == t.tags,
        links_of(ws_tokens(words_tail(t))) == t.links,
        lacks(words_tail(t), '"'),
        words_tail(t).len() > 0 ==> !is_ws(words_tail(t).last()),
{
    reveal_strlit(" #");
    reveal_strlit(" ^");
    assert(" #"@ =~= seq![' ', '#']);
    assert(" ^"@ =~= seq![' ', '^']);
    assert forall|k: int| 0 <= k < t.tags.len() implies no_ws(#[trigger] t.tags[k]) by {
        assert(tag_word(t.tags[k]));
    }
    assert forall|k: int| 0 <= k < t.links.len() implies no_ws(#[trigger] t.links[k]) by {
        assert(tag_word(t.links[k]));
    }
    let lw = words_text(" ^"@, t.links);
    lemma_words_tokens('^', t.links, Seq::empty());
    assert(lw + Seq::<char>::empty() =~= lw);
    lemma_ws_tokens_blank(Seq::empty());
    assert(lw.len() > 0 ==> is_ws(lw[0])) by {
        if t.links.len() > 0 {
            lemma_words_front(" ^"@, t.links);
        }
    }
    lemma_words_tokens('#', t.tags, lw);
    let tt = t.tags.map_values(|w: Seq<char>| seq!['#'] + w);
    let lt = t.links.map_values(|w: Seq<char>| seq!['^'] + w);
    assert(ws_tokens(words_tail(t)) =~= tt + lt);
    lemma_tags_concat(tt, lt);
    lemma_marked('#', t.tags);
    lemma_marked('^', t.links);
    assert(t.tags + Seq::<Seq<char>>::empty() =~= t.tags);
    assert(Seq::<Seq<char>>::empty() + t.links =~= t.links);
    assert forall|k: int| 0 <= k < t.tags.len() implies lacks(#[trigger] t.tags[k], '"') by {
        assert(tag_word(t.tags[k]));
    }
    assert forall|k: int| 0 <= k < t.links.len() implies lacks(#[trigger] t.links[k], '"') by {
        assert(tag_word(t.links[k]));
    }
    lemma_words_lack_quote(" #"@, t.tags);
    lemma_words_lack_quote(" ^"@, t.links);
    let tw = words_text(" #"@, t.tags);
    assert forall|i: int| 0 <= i < (tw + lw).len() implies #[trigger] (tw + lw)[i] != '"' by {
        if i < tw.len() {
            assert((tw + lw)[i] == tw[i]);
        } else {
            assert((tw + lw)[i] == lw[i - tw.len()]);
        }
    }
    assert(words_tail(t).len() > 0 ==> !is_ws(words_tail(t).last())) by {
        if words_tail(t).len() > 0 {
            if t.links.len() > 0 {
                assert(words_tail(t).last() == lw.last());
                assert(lw == words_text(" ^"@, t.links.drop_last()) + " ^"@ + t.links.last());
                if t.links.last().len() > 0 {
                    assert(lw.last() == t.links.last().last());
                } else {
                    assert(lw.last() == '^');
                }
            } else {
                assert(lw.len() == 0);
                assert(words_tail(t).last() == tw.last());
                assert(tw == words_text(" #"@, t.tags.drop_last()) + " #"@ + t.tags.last());
                if t.tags.last().len() > 0 {
                    assert(tw.last() == t.tags.last().last());
                } else {
                    assert(tw.last() == '#');
                }
            }
        }
    }
}

// ---------------------------------------------------------------------
// Transaction bodies
// ---------------------------------------------------------------------

/// Metadata the format reads back: sorted, with keys it reads as keys and
/// values without line feeds.
pub open spec fn canonical_meta(m: Seq<(Seq<char>, Seq<char>)>) -> bool {
    &&& meta_sorted(m)
    &&& forall|k: int| 0 <= k < m.len() ==> meta_key(#[trigger] m[k].0) && lacks(m[k].1, '\n')
}

proof fn lemma_meta_insert_last(es: Seq<(Seq<char>, Seq<char>)>, k: Seq<char>, v: Seq<char>)
    requires
        forall|i: int| 0 <= i < es.len() ==> crate::text::seq_less(#[trigger] es[i].0, k),
    ensures
        meta_insert(es, k, v) == es.push((k, v)),
    decreases es.len(),
{
    if es.len() > 0 {
        assert(crate::text::seq_less(es[0].0, k));
        crate::text::lemma_seq_less_irreflexive(k);
        crate::text::lemma_seq_less_asymmetric(es[0].0, k);
        let rest = es.drop_first();
        assert forall|i: int| 0 <= i < rest.len() implies crate::text::seq_less(#[trigger] rest[i].0, k) by {
            assert(rest[i] == es[i + 1]);
        }
        lemma_meta_insert_last(rest, k, v);
        assert(seq![es[0]] + rest.push((k, v)) =~= es.push((k, v)));
    } else {
        assert(seq![(k, v)] =~= es.push((k, v)));
    }
}

pub proof fn lemma_roots_plain()
    ensures
        forall|k: int| 0 <= k < roots().len() ==> lacks(#[trigger] roots()[k], ':') && roots()[k].len() > 0
            && roots()[k][0] != ';' && !is_ws(roots()[k][0]),
        roots().len() == 5,
        roots()[0] == "assets"@,
        roots()[1] == "liabilities"@,
        roots()[2] == "equity"@,
        roots()[3] == "income"@,
        roots()[4] == "expenses"@,
{
    reveal_strlit("assets");
    reveal_strlit("liabilities");
    reveal_strlit("equity");
    reveal_strlit("income");
    reveal_strlit("expenses");
}

/// A metadata line is not read as a posting.
proof fn lemma_meta_not_posting(k: Seq<char>, x: Seq<char>)
    requires
        k.len() > 0,
        lacks(k, ':'),
        !roots().contains(k),
    ensures
        !posting_line(k + seq![':'] + x),
{
    let t = k + seq![':'] + x;
    lemma_roots_plain();
    assert forall|j: int| 0 <= j < 5 implies !root_posting(t, #[trigger] roots()[j]) by {
        let r = roots()[j];
        assert(lacks(r, ':'));
        if crate::text::starts_with(t, r.push(':')) {
            let q = r.push(':');
            assert(t.take(q.len() as int) == q);
            if r.len() < k.len() {
                assert(t[r.len() as int] == k[r.len() as int]);
                assert(q[r.len() as int] == ':');
                assert(t.take(q.len() as int)[r.len() as int] == t[r.len() as int]);
            } else if r.len() > k.len() {
                assert(t[k.len() as int] == ':');
                assert(t.take(q.len() as int)[k.len() as int] == t[k.len() as int]);
                assert(q[k.len() as int] == r[k.len() as int]);
            } else {
                assert(k =~= r) by {
                    assert forall|i: int| 0 <= i < k.len() implies k[i] == r[i] by {
                        assert(t.take(q.len() as int)[i] == t[i]);
                        assert(t[i] == k[i]);
                        assert(q[i] == r[i]);
                    }
                }
                assert(roots().contains(k));
            }
        }
        if t == r {
            assert(t[k.len() as int] == ':');
            assert(r[k.len() as int] != ':');
        }
    }
    assert(!root_posting(t, roots()[0]));
    assert(!root_posting(t, roots()[1]));
    assert(!root_posting(t, roots()[2]));
    assert(!root_posting(t, roots()[3]));
    assert(!root_posting(t, roots()[4]));
}

/// Metadata lines are read into the metadata, in order.
proof fn lemma_body_meta(
    lines: Seq<Seq<char>>,
    s: int,
    m: Seq<(Seq<char>, Seq<char>)>,
    k: int,
    ps: Seq<PostingView>,
)
    requires
        0 <= s,
        0 <= k <= m.len(),
        s + m.len() <= lines.len(),
        canonical_meta(m),
        forall|j: int| 0 <= j < m.len() ==> lines[s + j] == #[trigger] meta_entry_line(m[j]),
    ensures
        body_from(lines, s + k, ps, m.take(k)) == body_from(lines, s + m.len(), ps, m),
    decreases m.len() - k,
{
    if k < m.len() {
        let e = m[k];
        let raw = lines[s + k];
        assert(raw == meta_entry_line(e));
        assert(meta_key(e.0));
        let x = seq![' '] + ("\""@ + e.1 + "\""@);
        assert(trim(raw) == e.0 + seq![':'] + x && meta_line(trim(raw)) == Some(e)) by {
            lemma_meta_entry(e.0, e.1);
        }
        assert(is_ws(raw[0])) by {
            reveal_strlit("  ");
            assert(raw =~= "  "@ + (e.0 + ": \""@ + e.1 + "\""@));
        }
        assert(trim(raw)[0] == e.0[0]);
        assert(!posting_line(trim(raw))) by {
            lemma_key_plain(e.0);
            lemma_meta_not_posting(e.0, x);
        }
        assert(meta_insert(m.take(k), e.0, e.1) == m.take(k + 1)) by {
            assert forall|i: int| 0 <= i < m.take(k).len() implies crate::text::seq_less(#[trigger] m.take(k)[i].0, e.0) by {
                assert(m.take(k)[i] == m[i]);
            }
            lemma_meta_insert_last(m.take(k), e.0, e.1);
            assert(m.take(k).push(e) =~= m.take(k + 1));
        }
        lemma_body_meta(lines, s, m, k + 1, ps);
    } else {
        assert(m.take(k) =~= m);
    }
}

/// A posting's account starts with its root and a `:`, so its line is a
/// posting line; and it does not start with `;`.
proof fn lemma_posting_account(a: Seq<char>, rest: Seq<char>)
    requires
        valid_account(a),
        !lacks(a, ':'),
    ensures
        posting_line(a + rest),
        a[0] != ';',
        !is_ws(a[0]),
{
    let i = next_char(a, ':', 0);
    lemma_next_char(a, ':', 0);
    lemma_index_of_char(a, ':', i);
    assert(i < a.len());
    let segs = split_char(a, ':');
    lemma_split_some(a, ':', i);
    assert(segs[0] == a.take(i));
    assert(account_parse(a) == Ok::<Seq<char>, Seq<char>>(a));
    assert(trim(a) == a);
    assert(roots().contains(segs[0]));
    let r = segs[0];
    let j = choose|j: int| 0 <= j < roots().len() && roots()[j] == r;
    lemma_roots_plain();
    let t = a + rest;
    assert(t.take(r.len() as int + 1) =~= r.push(':'));
    assert(crate::text::starts_with(t, r.push(':')));
    assert(root_posting(t, roots()[j]));
    assert(a[0] == r[0]);
    if j == 0 {
    } else if j == 1 {
    } else if j == 2 {
    } else if j == 3 {
    } else {
    }
}

/// A valid account without a `:` is a root, so alone it is a posting
/// line; and it does not start with `;`.
proof fn lemma_root_account(a: Seq<char>)
    requires
        valid_account(a),
        lacks(a, ':'),
    ensures
        posting_line(a),
        a[0] != ';',
        !is_ws(a[0]),
{
    lemma_no_char(a, ':');
    lemma_split_none(a, ':');
    let segs = split_char(a, ':');
    assert(segs[0] == a);
    assert(account_parse(a) == Ok::<Seq<char>, Seq<char>>(a));
    assert(trim(a) == a);
    assert(roots().contains(segs[0]));
    let j = choose|j: int| 0 <= j < roots().len() && roots()[j] == a;
    lemma_roots_plain();
    assert(root_posting(a, roots()[j]));
    if j == 0 {
    } else if j == 1 {
    } else if j == 2 {
    } else if j == 3 {
    } else {
    }
}

proof fn lemma_posting_line_parts(p: PostingView)
    requires
        canonical_posting(p),
    ensures
        posting_line_of(p) == "  "@ + (posting_base_text(p) + posting_tail_text(p)),
        trim(posting_line_of(p)) == posting_base_text(p) + posting_tail_text(p),
        is_ws(posting_line_of(p)[0]),
        posting_line(trim(posting_line_of(p))),
        trim(posting_line_of(p))[0] != ';',
        trim(posting_line_of(p)).len() > 0,
        lacks(posting_line_of(p), '\n'),
{
    reveal_strlit("  ");
    let b = posting_base_text(p);
    let tl = posting_tail_text(p);
    let t = b + tl;
    assert(posting_line_of(p) =~= "  "@ + t);
    lemma_base_text(p);
    assert(t[0] == b[0]);
    assert(!is_ws(t.last())) by {
        match p.cost_or_price {
            None => {
                assert(t =~= b);
            },
            Some((c, is_cost)) => {
                lemma_amount_text(c);
                if is_cost {
                    reveal_strlit("}");
                    assert(t.last() == '}');
                } else {
                    assert(t.last() == pair_text(c).last());
                }
            },
        }
    }
    assert(all_ws("  "@));
    lemma_trim_after_ws("  "@, t);
    assert(b =~= p.account + (b.skip(p.account.len() as int)));
    assert(t =~= p.account + (b.skip(p.account.len() as int) + tl));
    if lacks(p.account, ':') {
        assert(b =~= p.account);
        assert(tl =~= Seq::<char>::empty());
        assert(t =~= p.account);
        lemma_root_account(p.account);
    } else {
        lemma_posting_account(p.account, b.skip(p.account.len() as int) + tl);
    }
    assert(t[0] == p.account[0]);
    assert(lacks(posting_line_of(p), '\n')) by {
        let l = posting_line_of(p);
        assert forall|i: int| 0 <= i < l.len() implies #[trigger] l[i] != '\n' by {
            if i < 2 {
                assert(l[i] == ' ');
            } else if i < 2 + b.len() {
                assert(l[i] == b[i - 2]);
                assert(base_char(b[i - 2]));
            } else {
                assert(l[i] == tl[i - 2 - b.len()]);
                match p.cost_or_price {
                    None => {},
                    Some((c, is_cost)) => {
                        lemma_amount_text(c);
                        let pc = pair_text(c);
                        let j = i - 2 - b.len();
                        if is_cost {
                            reveal_strlit(" {");
                            reveal_strlit("}");
                            assert(tl =~= seq![' ', '{'] + pc + seq!['}']);
                            if 2 <= j < 2 + pc.len() {
                                assert(tl[j] == pc[j - 2]);
                            }
                        } else {
                            reveal_strlit(" @ ");
                            assert(tl =~= seq![' ', '@', ' '] + pc);
                            if j >= 3 {
                                assert(tl[j] == pc[j - 3]);
                            }
                        }
                    },
                }
            }
        }
    }
}

/// Posting lines are read into the postings, in order.
proof fn lemma_body_postings(
    lines: Seq<Seq<char>>,
    s: int,
    ps: Seq<PostingView>,
    k: int,
    m: Seq<(Seq<char>, Seq<char>)>,
)
    requires
        0 <= s,
        0 <= k <= ps.len(),
        s + ps.len() <= lines.len(),
        forall|j: int| 0 <= j < ps.len() ==> canonical_posting(#[trigger] ps[j]),
        forall|j: int| 0 <= j < ps.len() ==> lines[s + j] == #[trigger] posting_line_of(ps[j]),
    ensures
        body_from(lines, s + k, ps.take(k), m) == body_from(lines, s + ps.len(), ps, m),
    decreases ps.len() - k,
{
    if k < ps.len() {
        let p = ps[k];
        assert(canonical_posting(p));
        let raw = lines[s + k];
        assert(raw == posting_line_of(p));
        lemma_posting_line_parts(p);
        assert(posting_result(trim(raw)) == PostingParse::Parsed(p)) by {
            lemma_posting_result(p);
        }
        assert(ps.take(k).push(p) =~= ps.take(k + 1));
        lemma_body_postings(lines, s, ps, k + 1, m);
    } else {
        assert(ps.take(k) =~= ps);
    }
}

proof fn lemma_body_end(lines: Seq<Seq<char>>, e: int, ps: Seq<PostingView>, m: Seq<(Seq<char>, Seq<char>)>)
    requires
        0 <= e,
        e >= lines.len() || lines[e] == Seq::<char>::empty(),
    ensures
        body_from(lines, e, ps, m) == BodyParse::Parsed(ps, m, e),
{
    if e < lines.len() {
        assert(trim(lines[e]).len() == 0) by {
            crate::text::lemma_trim_len(lines[e]);
        }
    }
}

// ---------------------------------------------------------------------
// Transactions
// ---------------------------------------------------------------------

/// A transaction the format reads back.
pub open spec fn canonical_transaction(t: TransactionView) -> bool {
    &&& t.id is None
    &&& canonical_date(t.date)
    &&& (t.payee matches Some(p) ==> quotable(p))
    &&& quotable(t.narration)
    &&& forall|k: int| 0 <= k < t.tags.len() ==> tag_word(#[trigger] t.tags[k])
    &&& forall|k: int| 0 <= k < t.links.len() ==> tag_word(#[trigger] t.links[k])
    &&& canonical_meta(t.meta)
    &&& forall|k: int| 0 <= k < t.postings.len() ==> canonical_posting(#[trigger] t.postings[k])
}

/// The part of a header line after the flag and its space.
pub open spec fn header_rest(t: TransactionView) -> Seq<char> {
    match t.payee {
        Some(p) => "\""@ + p + "\" \""@ + t.narration + "\""@ + words_tail(t),
        None => "\""@ + t.narration + "\""@ + words_tail(t),
    }
}

proof fn lemma_header_line_parts(t: TransactionView)
    requires
        canonical_transaction(t),
    ensures
        header_line(t) == ymd_view_text(t.date) + seq![' '] + (seq![flag_char(t.flag)] + seq![' '] + header_rest(t)),
        header_rest(t).len() > 0,
        !is_ws(header_rest(t)[0]),
        !is_ws(header_rest(t).last()),
{
    reveal_strlit(" \"");
    reveal_strlit("\"");
    reveal_strlit("\" \"");
    let w = words_tail(t);
    assert(w.len() > 0 ==> !is_ws(w.last())) by {
        lemma_words_tail(t);
    }
    match t.payee {
        Some(p) => {
            assert(header_line(t) =~= ymd_view_text(t.date) + seq![' '] + (seq![flag_char(t.flag)] + seq![' ']
                + header_rest(t)));
        },
        None => {
            assert(header_line(t) =~= ymd_view_text(t.date) + seq![' '] + (seq![flag_char(t.flag)] + seq![' ']
                + header_rest(t)));
        },
    }
    assert(header_rest(t)[0] == '"');
    if w.len() > 0 {
        assert(header_rest(t).last() == w.last());
    } else {
        assert(header_rest(t).last() == '"');
    }
}

proof fn lemma_flag_keyword(f: crate::model::Flag)
    ensures
        f == crate::model::Flag::Cleared ==> seq![flag_char(f)] == "*"@,
        f == crate::model::Flag::Pending ==> seq![flag_char(f)] == "!"@,
        no_ws(seq![flag_char(f)]),
{
    reveal_strlit("*");
    reveal_strlit("!");
    assert(seq!['*'] =~= "*"@);
    assert(seq!['!'] =~= "!"@);
}

/// What parsing the lines of a transaction's body gives.
proof fn lemma_txn_body(lines: Seq<Seq<char>>, i: int, t: TransactionView)
    requires
        0 <= i,
        canonical_transaction(t),
        i + 1 + t.meta.len() + t.postings.len() <= lines.len(),
        forall|j: int| 0 <= j < t.meta.len() ==> lines[i + 1 + j] == #[trigger] meta_entry_line(t.meta[j]),
        forall|j: int| 0 <= j < t.postings.len() ==> lines[i + 1 + t.meta.len() + j] == #[trigger] posting_line_of(
            t.postings[j],
        ),
        i + 1 + t.meta.len() + t.postings.len() == lines.len() || lines[i + 1 + t.meta.len() + t.postings.len()]
            == Seq::<char>::empty(),
    ensures
        body_from(lines, i + 1, Seq::empty(), Seq::empty()) == BodyParse::Parsed(
            t.postings,
            t.meta,
            i + 1 + t.meta.len() + t.postings.len(),
        ),
{
    let m = t.meta;
    let ps = t.postings;
    let s2 = i + 1 + m.len();
    lemma_body_meta(lines, i + 1, m, 0, Seq::empty());
    assert(m.take(0) =~= Seq::<(Seq<char>, Seq<char>)>::empty());
    assert forall|j: int| 0 <= j < ps.len() implies lines[s2 + j] == #[trigger] posting_line_of(ps[j]) by {
        assert(lines[i + 1 + m.len() + j] == posting_line_of(ps[j]));
    }
    lemma_body_postings(lines, s2, ps, 0, m);
    assert(ps.take(0) =~= Seq::<PostingView>::empty());
    lemma_body_end(lines, s2 + ps.len(), ps, m);
}

/// A transaction's lines read back.
proof fn lemma_txn_lines(lines: Seq<Seq<char>>, i: int, d: DirectiveView)
    requires
        0 <= i,
        d matches DirectiveView::Transaction(t) && canonical_transaction(t) && i + 1 + t.meta.len()
            + t.postings.len() <= lines.len() && lines[i] == header_line(t) && (forall|j: int|
            0 <= j < t.meta.len() ==> lines[i + 1 + j] == #[trigger] meta_entry_line(t.meta[j])) && (forall|j: int|
            0 <= j < t.postings.len() ==> lines[i + 1 + t.meta.len() + j] == #[trigger] posting_line_of(
                t.postings[j],
            )) && (i + 1 + t.meta.len() + t.postings.len() == lines.len() || lines[i + 1 + t.meta.len()
            + t.postings.len()] == Seq::<char>::empty()),
    ensures
        d matches DirectiveView::Transaction(t) && directive_at(lines, i) == StepParse::Parsed(
            d,
            1 + t.meta.len() as int + t.postings.len() as int,
        ),
{
    if let DirectiveView::Transaction(t) = d {
        let rest = header_rest(t);
        let kw = seq![flag_char(t.flag)];
        lemma_header_line_parts(t);
        lemma_flag_keyword(t.flag);
        assert(header_parts(trim(lines[i])) == (ymd_view_text(t.date), kw, rest) && iso_result(
            ymd_view_text(t.date),
        ) == Ok::<(int, int, int), Seq<char>>(t.date)) by {
            lemma_keyword_line(lines, i, t.date, kw, rest);
        }
        lemma_dispatch(lines, i, t.date, kw, rest);
        assert(directive_at(lines, i) == transaction_at(lines, i, t.date, t.flag, rest)) by {
            match t.flag {
                crate::model::Flag::Cleared => {},
                crate::model::Flag::Pending => {},
            }
        }
        assert(header_result(rest) == Ok::<(Option<Seq<char>>, Seq<char>, Seq<char>), Seq<char>>(
            (t.payee, t.narration, words_tail(t)),
        )) by {
            lemma_words_tail(t);
            lemma_header_strings(t.payee, t.narration, words_tail(t));
        }
        assert(tags_of(ws_tokens(words_tail(t))) == t.tags && links_of(ws_tokens(words_tail(t))) == t.links) by {
            lemma_words_tail(t);
        }
        lemma_txn_body(lines, i, t);
        let e = i + 1 + t.meta.len() + t.postings.len();
        assert(e - i == 1 + t.meta.len() + t.postings.len());
        assert(t == TransactionView {
            id: None,
            date: t.date,
            flag: t.flag,
            payee: t.payee,
            narration: t.narration,
            tags: t.tags,
            links: t.links,
            postings: t.postings,
            meta: t.meta,
        });
    }
}

// ---------------------------------------------------------------------
// Line hygiene: every written line reads back as itself
// ---------------------------------------------------------------------

/// A directive the format reads back.
pub open spec fn canonical_directive(d: DirectiveView) -> bool {
    match d {
        DirectiveView::Transaction(t) => canonical_transaction(t),
        DirectiveView::Open { date, account, currencies } => canonical_date(date) && canonical_account(account) && (
        forall|k: int| 0 <= k < currencies.len() ==> bare(#[trigger] currencies[k])),
        DirectiveView::Close { date, account } => canonical_date(date) && canonical_account(account),
        DirectiveView::Balance { date, account, amount } => canonical_date(date) && canonical_account(account)
            && canonical_amount(amount),
        DirectiveView::Pad { date, account, source } => canonical_date(date) && canonical_account(account)
            && canonical_account(source),
        DirectiveView::Commodity { date, code, precision } => canonical_date(date) && bare(code),
    }
}

proof fn lemma_lacks_concat(a: Seq<char>, b: Seq<char>, c: char)
    requires
        lacks(a, c),
        lacks(b, c),
    ensures
        lacks(a + b, c),
{
    assert forall|i: int| 0 <= i < (a + b).len() implies #[trigger] (a + b)[i] != c by {
        if i < a.len() {
            assert((a + b)[i] == a[i]);
        } else {
            assert((a + b)[i] == b[i - a.len()]);
        }
    }
}

proof fn lemma_no_ws_lacks(s: Seq<char>)
    requires
        no_ws(s),
    ensures
        lacks(s, '\n'),
{
    assert forall|i: int| 0 <= i < s.len() implies #[trigger] s[i] != '\n' by {
        assert(!is_ws(s[i]));
    }
}

proof fn lemma_literal_lacks(s: Seq<char>)
    requires
        s == " open "@ || s == " close "@ || s == " balance "@ || s == " pad "@ || s == " commodity "@ || s
            == "  "@ || s == "  precision: \""@ || s == "\""@ || s == ": \""@ || s == "\" \""@ || s == ","@,
    ensures
        lacks(s, '\n'),
{
    reveal_strlit(" open ");
    reveal_strlit(" close ");
    reveal_strlit(" balance ");
    reveal_strlit(" pad ");
    reveal_strlit(" commodity ");
    reveal_strlit("  ");
    reveal_strlit("  precision: \"");
    reveal_strlit("\"");
    reveal_strlit(": \"");
    reveal_strlit("\" \"");
    reveal_strlit(",");
}

proof fn lemma_header_clean(t: TransactionView)
    requires
        canonical_transaction(t),
    ensures
        clean_line(header_line(t)),
{
    lemma_header_line_parts(t);
    lemma_date_view(t.date);
    lemma_no_ws_lacks(ymd_view_text(t.date));
    lemma_flag_keyword(t.flag);
    lemma_no_ws_lacks(seq![flag_char(t.flag)]);
    let rest = header_rest(t);
    let w = words_tail(t);
    assert(lacks(w, '\n')) by {
        reveal_strlit(" #");
        reveal_strlit(" ^");
        assert forall|i: int| 0 <= i < w.len() implies #[trigger] w[i] != '\n' by {
            if w[i] == '\n' {
                lemma_words_tail(t);
                lemma_words_no_newline(" #"@, t.tags);
                lemma_words_no_newline(" ^"@, t.links);
                lemma_lacks_concat(words_text(" #"@, t.tags), words_text(" ^"@, t.links), '\n');
            }
        }
    }
    lemma_literal_lacks("\""@);
    lemma_literal_lacks("\" \""@);
    assert(lacks(t.narration, '\n'));
    match t.payee {
        Some(p) => {
            assert(lacks(p, '\n'));
            lemma_lacks_concat("\""@, p, '\n');
            lemma_lacks_concat("\""@ + p, "\" \""@, '\n');
            lemma_lacks_concat("\""@ + p + "\" \""@, t.narration, '\n');
            lemma_lacks_concat("\""@ + p + "\" \""@ + t.narration, "\""@, '\n');
            lemma_lacks_concat("\""@ + p + "\" \""@ + t.narration + "\""@, w, '\n');
        },
        None => {
            lemma_lacks_concat("\""@, t.narration, '\n');
            lemma_lacks_concat("\""@ + t.narration, "\""@, '\n');
            lemma_lacks_concat("\""@ + t.narration + "\""@, w, '\n');
        },
    }
    let kw = seq![flag_char(t.flag)];
    assert(lacks(seq![' '], '\n'));
    lemma_lacks_concat(kw, seq![' '], '\n');
    lemma_lacks_concat(kw + seq![' '], rest, '\n');
    lemma_lacks_concat(ymd_view_text(t.date), seq![' '], '\n');
    lemma_lacks_concat(ymd_view_text(t.date) + seq![' '], kw + seq![' '] + rest, '\n');
    assert(header_line(t).last() == rest.last());
}

proof fn lemma_words_no_newline(pfx: Seq<char>, ws: Seq<Seq<char>>)
    requires
        lacks(pfx, '\n'),
        forall|k: int| 0 <= k < ws.len() ==> tag_word(#[trigger] ws[k]),
    ensures
        lacks(words_text(pfx, ws), '\n'),
    decreases ws.len(),
{
    if ws.len() > 0 {
        let init = ws.drop_last();
        assert forall|k: int| 0 <= k < init.len() implies tag_word(#[trigger] init[k]) by {
            assert(init[k] == ws[k]);
        }
        lemma_words_no_newline(pfx, init);
        assert(tag_word(ws.last()));
        lemma_no_ws_lacks(ws.last());
        lemma_lacks_concat(words_text(pfx, init), pfx, '\n');
        lemma_lacks_concat(words_text(pfx, init) + pfx, ws.last(), '\n');
    }
}

proof fn lemma_meta_clean(e: (Seq<char>, Seq<char>))
    requires
        meta_key(e.0),
        lacks(e.1, '\n'),
    ensures
        clean_line(meta_entry_line(e)),
{
    let k = e.0;
    assert(lacks(k, '\n')) by {
        assert forall|i: int| 0 <= i < k.len() implies #[trigger] k[i] != '\n' by {
            assert(key_char(k[i]));
        }
    }
    lemma_literal_lacks("  "@);
    lemma_literal_lacks(": \""@);
    lemma_literal_lacks("\""@);
    lemma_lacks_concat("  "@, k, '\n');
    lemma_lacks_concat("  "@ + k, ": \""@, '\n');
    lemma_lacks_concat("  "@ + k + ": \""@, e.1, '\n');
    lemma_lacks_concat("  "@ + k + ": \""@ + e.1, "\""@, '\n');
    reveal_strlit("\"");
    assert(meta_entry_line(e).last() == '"');
}

proof fn lemma_posting_clean(p: PostingView)
    requires
        canonical_posting(p),
    ensures
        clean_line(posting_line_of(p)),
{
    lemma_posting_line_parts(p);
    let t = posting_base_text(p) + posting_tail_text(p);
    lemma_base_text(p);
    assert(!is_ws(t.last())) by {
        match p.cost_or_price {
            None => {
                assert(t =~= posting_base_text(p));
            },
            Some((c, is_cost)) => {
                lemma_amount_text(c);
                if is_cost {
                    reveal_strlit("}");
                    reveal_strlit(" {");
                    assert(t.last() == '}');
                } else {
                    assert(t.last() == pair_text(c).last());
                }
            },
        }
    }
    assert(posting_line_of(p).last() == t.last());
}

proof fn lemma_one_line_clean(date: (int, int, int), lit: Seq<char>, rest: Seq<char>)
    requires
        canonical_date(date),
        lit == " open "@ || lit == " close "@ || lit == " balance "@ || lit == " pad "@ || lit == " commodity "@,
        lacks(rest, '\n'),
        rest.len() > 0,
        !is_ws(rest.last()),
    ensures
        clean_line(ymd_view_text(date) + lit + rest),
{
    lemma_date_view(date);
    lemma_no_ws_lacks(ymd_view_text(date));
    lemma_literal_lacks(lit);
    lemma_lacks_concat(ymd_view_text(date), lit, '\n');
    lemma_lacks_concat(ymd_view_text(date) + lit, rest, '\n');
    assert((ymd_view_text(date) + lit + rest).last() == rest.last());
}

/// Each line a canonical directive is written as reads back as itself.
proof fn lemma_directive_clean(d: DirectiveView)
    requires
        canonical_directive(d),
    ensures
        forall|k: int| 0 <= k < directive_lines(d).len() ==> clean_line(#[trigger] directive_lines(d)[k]),
        directive_lines(d).len() >= 1,
{
    match d {
        DirectiveView::Transaction(t) => {
            let ls = directive_lines(d);
            let ml = meta_lines(t.meta);
            let pl = posting_lines(t.postings);
            assert(ls =~= seq![header_line(t)] + ml + pl);
            assert forall|k: int| 0 <= k < ls.len() implies clean_line(#[trigger] ls[k]) by {
                if k == 0 {
                    lemma_header_clean(t);
                } else if k < 1 + ml.len() {
                    assert(ls[k] == ml[k - 1]);
                    assert(ml[k - 1] == meta_entry_line(t.meta[k - 1]));
                    assert(meta_key(t.meta[k - 1].0) && lacks(t.meta[k - 1].1, '\n'));
                    lemma_meta_clean(t.meta[k - 1]);
                } else {
                    assert(ls[k] == pl[k - 1 - ml.len()]);
                    assert(pl[k - 1 - ml.len()] == posting_line_of(t.postings[k - 1 - ml.len()]));
                    assert(canonical_posting(t.postings[k - 1 - ml.len()]));
                    lemma_posting_clean(t.postings[k - 1 - ml.len()]);
                }
            }
        },
        DirectiveView::Open { date, account, currencies } => {
            lemma_account_field(account);
            lemma_no_ws_lacks(account);
            if currencies.len() > 0 {
                lemma_join_bare(currencies);
                let j = join(currencies, ","@);
                lemma_no_ws_lacks(j);
                assert(lacks(seq![' '], '\n'));
                lemma_lacks_concat(account, seq![' '], '\n');
                lemma_lacks_concat(account + seq![' '], j, '\n');
                assert(account + (seq![' '] + j) =~= account + seq![' '] + j);
                lemma_one_line_clean(date, " open "@, account + (seq![' '] + j));
                assert(directive_lines(d)[0] =~= ymd_view_text(date) + " open "@ + (account + (seq![' '] + j)));
            } else {
                lemma_one_line_clean(date, " open "@, account);
                assert(directive_lines(d)[0] =~= ymd_view_text(date) + " open "@ + account);
            }
        },
        DirectiveView::Close { date, account } => {
            lemma_account_field(account);
            lemma_no_ws_lacks(account);
            lemma_one_line_clean(date, " close "@, account);
        },
        DirectiveView::Balance { date, account, amount } => {
            lemma_account_field(account);
            lemma_no_ws_lacks(account);
            lemma_amount_text(amount);
            let pt = pair_text(amount);
            assert(lacks(pt, '\n'));
            lemma_literal_lacks("  "@);
            lemma_lacks_concat(account, "  "@, '\n');
            lemma_lacks_concat(account + "  "@, pt, '\n');
            lemma_one_line_clean(date, " balance "@, account + "  "@ + pt);
            assert(directive_lines(d)[0] =~= ymd_view_text(date) + " balance "@ + (account + "  "@ + pt));
        },
        DirectiveView::Pad { date, account, source } => {
            lemma_account_field(account);
            lemma_account_field(source);
            lemma_no_ws_lacks(account);
            lemma_no_ws_lacks(source);
            assert(lacks(seq![' '], '\n'));
            lemma_lacks_concat(account, seq![' '], '\n');
            lemma_lacks_concat(account + seq![' '], source, '\n');
            lemma_one_line_clean(date, " pad "@, account + seq![' '] + source);
            assert(directive_lines(d)[0] =~= ymd_view_text(date) + " pad "@ + (account + seq![' '] + source));
        },
        DirectiveView::Commodity { date, code, precision } => {
            lemma_bare_no_ws(code);
            lemma_no_ws_lacks(code);
            lemma_one_line_clean(date, " commodity "@, code);
            let v = uint_text(precision as nat);
            lemma_uint_text(precision as nat);
            lemma_digits_plain(v);
            lemma_no_ws_lacks(v);
            lemma_literal_lacks("  precision: \""@);
            lemma_literal_lacks("\""@);
            lemma_lacks_concat("  precision: \""@, v, '\n');
            lemma_lacks_concat("  precision: \""@ + v, "\""@, '\n');
            reveal_strlit("\"");
            assert(("  precision: \""@ + v + "\""@).last() == '"');
            let ls = directive_lines(d);
            assert forall|k: int| 0 <= k < ls.len() implies clean_line(#[trigger] ls[k]) by {
                if k == 1 {
                    assert(ls[1] == "  precision: \""@ + v + "\""@);
                }
            }
        },
    }
}

// ---------------------------------------------------------------------
// Whole ledgers
// ---------------------------------------------------------------------

proof fn lemma_trim_keeps_first(l: Seq<char>)
    requires
        l.len() > 0,
        !is_ws(l[0]),
    ensures
        trim(l).len() > 0,
        trim(l)[0] == l[0],
{
    assert(skip_ws(l, 0) == 0);
    assert(l.skip(0) =~= l);
    lemma_skip_ws_back(l, l.len() as int);
    if skip_ws_back(l, l.len() as int) == 0 {
        assert(is_ws(l[0]));
    }
}

proof fn lemma_header_starts(d: DirectiveView)
    requires
        canonical_directive(d),
    ensures
        directive_lines(d)[0].len() > 0,
        '0' <= directive_lines(d)[0][0] <= '9',
{
    let date = match d {
        DirectiveView::Transaction(t) => t.date,
        DirectiveView::Open { date, .. } => date,
        DirectiveView::Close { date, .. } => date,
        DirectiveView::Balance { date, .. } => date,
        DirectiveView::Pad { date, .. } => date,
        DirectiveView::Commodity { date, .. } => date,
    };
    lemma_date_view(date);
    assert(date.0 as i32 as int == date.0);
    lemma_zero_padded(date.0 as nat, 4);
    let zy = zero_padded(date.0, 4);
    assert(ymd_view_text(date)[0] == zy[0]);
    assert('0' <= zy[0] <= '9');
    assert(directive_lines(d)[0][0] == ymd_view_text(date)[0]);
}

/// A canonical directive's lines, wherever they stand, read back as it.
proof fn lemma_directive_parse(x: Seq<Seq<char>>, d: DirectiveView, y: Seq<Seq<char>>)
    requires
        canonical_directive(d),
        d is Transaction ==> y.len() == 0 || y[0] == Seq::<char>::empty(),
    ensures
        directive_at(x + directive_lines(d) + y, x.len() as int) == StepParse::Parsed(
            d,
            directive_lines(d).len() as int,
        ),
        trim((x + directive_lines(d) + y)[x.len() as int]).len() > 0,
        trim((x + directive_lines(d) + y)[x.len() as int])[0] != ';',
        !is_ws((x + directive_lines(d) + y)[x.len() as int][0]),
{
    let lines = x + directive_lines(d) + y;
    let i = x.len() as int;
    let dl = directive_lines(d);
    lemma_directive_clean(d);
    assert forall|j: int| 0 <= j < dl.len() implies lines[i + j] == #[trigger] dl[j] by {
        assert(lines[i + j] == dl[j]);
    }
    assert(lines[i] == dl[0]);
    lemma_header_starts(d);
    lemma_trim_keeps_first(dl[0]);
    match d {
        DirectiveView::Transaction(t) => {
            let ml = meta_lines(t.meta);
            let pl = posting_lines(t.postings);
            assert(dl =~= seq![header_line(t)] + ml + pl);
            assert forall|j: int| 0 <= j < t.meta.len() implies lines[i + 1 + j] == #[trigger] meta_entry_line(
                t.meta[j],
            ) by {
                assert(lines[i + (1 + j)] == dl[1 + j]);
                assert(dl[1 + j] == ml[j]);
            }
            assert forall|j: int| 0 <= j < t.postings.len() implies lines[i + 1 + t.meta.len() + j]
                == #[trigger] posting_line_of(t.postings[j]) by {
                assert(lines[i + (1 + t.meta.len() + j)] == dl[1 + t.meta.len() + j]);
                assert(dl[1 + t.meta.len() + j] == pl[j]);
            }
            let e = i + 1 + t.meta.len() + t.postings.len();
            assert(e == i + dl.len());
            if e < lines.len() {
                assert(lines[e] == y[0]);
            }
            lemma_txn_lines(lines, i, d);
        },
        DirectiveView::Open { .. } => {
            lemma_open_line(lines, i, d);
        },
        DirectiveView::Close { .. } => {
            lemma_close_line(lines, i, d);
        },
        DirectiveView::Balance { .. } => {
            lemma_balance_line(lines, i, d);
        },
        DirectiveView::Pad { .. } => {
            lemma_pad_line(lines, i, d);
        },
        DirectiveView::Commodity { .. } => {
            assert(lines[i + 1] == dl[1]);
            lemma_commodity_line(lines, i, d);
        },
    }
}

/// The lines of a ledger, read from the front.
proof fn lemma_serial_front(ds: Seq<DirectiveView>)
    requires
        ds.len() > 0,
    ensures
        serial_lines(ds) == directive_lines(ds[0]) + (if ds.len() >= 2 { gap(ds[0], ds[1]) } else { Seq::empty() })
            + serial_lines(ds.drop_first()),
    decreases ds.len(),
{
    if ds.len() == 1 {
        assert(ds.drop_last() =~= Seq::<DirectiveView>::empty());
        assert(ds.drop_first() =~= Seq::<DirectiveView>::empty());
        assert(serial_lines(ds) =~= directive_lines(ds[0]) + Seq::<Seq<char>>::empty() + serial_lines(
            ds.drop_first(),
        ));
    } else {
        let init = ds.drop_last();
        lemma_serial_front(init);
        let n = ds.len() as int;
        assert(init[0] == ds[0]);
        assert(init.drop_first() =~= ds.drop_first().drop_last());
        if n >= 3 {
            assert(init[1] == ds[1]);
        }
        let rest = ds.drop_first();
        assert(rest.last() == ds.last());
        if n >= 3 {
            assert(rest[n - 3] == ds[n - 2]);
            assert(rest[n - 2] == ds[n - 1]);
        } else {
            assert(init.drop_first() =~= Seq::<DirectiveView>::empty());
            assert(rest.drop_last() =~= Seq::<DirectiveView>::empty());
        }
        assert(serial_lines(ds) =~= directive_lines(ds[0]) + gap(ds[0], ds[1]) + serial_lines(rest));
    }
}

/// Parsing from the first line of a ledger's lines, after any lines `x`,
/// gives the ledger.
proof fn lemma_parse_serial(x: Seq<Seq<char>>, ds: Seq<DirectiveView>)
    requires
        forall|k: int| 0 <= k < ds.len() ==> canonical_directive(#[trigger] ds[k]),
    ensures
        parse_from(x + serial_lines(ds), x.len() as int) == FileParse::Parsed(ds),
    decreases ds.len(),
{
    if ds.len() == 0 {
        assert(x + serial_lines(ds) =~= x);
        assert(ds =~= Seq::<DirectiveView>::empty());
    } else {
        let d0 = ds[0];
        let rest = ds.drop_first();
        let g = if ds.len() >= 2 { gap(ds[0], ds[1]) } else { Seq::<Seq<char>>::empty() };
        lemma_serial_front(ds);
        let dl = directive_lines(d0);
        let x2 = x + dl + g;
        let lines = x + serial_lines(ds);
        assert(lines =~= x + dl + (g + serial_lines(rest)));
        assert(lines =~= x2 + serial_lines(rest));
        assert forall|k: int| 0 <= k < rest.len() implies canonical_directive(#[trigger] rest[k]) by {
            assert(rest[k] == ds[k + 1]);
        }
        lemma_parse_serial(x2, rest);
        assert(canonical_directive(d0));
        let y = g + serial_lines(rest);
        assert(d0 is Transaction ==> y.len() == 0 || y[0] == Seq::<char>::empty()) by {
            if d0 is Transaction && y.len() > 0 {
                if ds.len() >= 2 {
                    assert(g == seq![Seq::<char>::empty()]);
                    assert(y[0] == g[0]);
                } else {
                    assert(rest.len() == 0);
                    assert(serial_lines(rest) == Seq::<Seq<char>>::empty());
                }
            }
        }
        lemma_directive_parse(x, d0, y);
        dl_nonempty(d0);
        let i = x.len() as int;
        let n = dl.len() as int;
        assert(parse_from(lines, i) == match parse_from(lines, i + n) {
            FileParse::Parsed(r) => FileParse::Parsed(seq![d0] + r),
            other => other,
        });
        if g.len() > 0 {
            assert(lines[i + n] == Seq::<char>::empty());
            assert(trim(lines[i + n]).len() == 0) by {
                crate::text::lemma_trim_len(lines[i + n]);
            }
            assert(parse_from(lines, i + n) == parse_from(lines, i + n + 1));
            assert(x2.len() == i + n + 1);
        } else {
            assert(x2.len() == i + n);
        }
        assert(seq![d0] + rest =~= ds);
    }
}

proof fn dl_nonempty(d: DirectiveView)
    ensures
        directive_lines(d).len() >= 1,
{
}

/// Serialized directives parse back to the same directives: the text the
/// ledger writes is read back as the ledger, for every ledger whose dates
/// run from year 0, whose accounts, commodity codes and currencies are
/// bare words, whose amounts are in range (no negative zero), whose quoted
/// strings hold no double quote or line feed, whose tags and links hold no
/// whitespace or double quote, whose metadata is sorted under keys that
/// are not roots, and whose transactions have no id yet and postings
/// without metadata of their own (a posting on a root account itself has
/// no amount or cost).
pub proof fn lemma_parse_serialize(ds: Seq<DirectiveView>)
    requires
        forall|k: int| 0 <= k < ds.len() ==> canonical_directive(#[trigger] ds[k]),
    ensures
        parse_text(serialize_text(ds)) == FileParse::Parsed(ds),
{
    lemma_serialize_lines(ds);
    lemma_serial_clean(ds);
    lemma_text_lines(serial_lines(ds));
    lemma_parse_serial(Seq::empty(), ds);
    assert(Seq::<Seq<char>>::empty() + serial_lines(ds) =~= serial_lines(ds));
}

proof fn lemma_serial_clean(ds: Seq<DirectiveView>)
    requires
        forall|k: int| 0 <= k < ds.len() ==> canonical_directive(#[trigger] ds[k]),
    ensures
        forall|k: int| 0 <= k < serial_lines(ds).len() ==> clean_line(#[trigger] serial_lines(ds)[k]),
    decreases ds.len(),
{
    if ds.len() > 0 {
        let init = ds.drop_last();
        assert forall|k: int| 0 <= k < init.len() implies canonical_directive(#[trigger] init[k]) by {
            assert(init[k] == ds[k]);
        }
        lemma_serial_clean(init);
        lemma_directive_clean(ds.last());
        let n = ds.len() as int;
        let g = if n >= 2 { gap(ds[n - 2], ds[n - 1]) } else { Seq::<Seq<char>>::empty() };
        let a = serial_lines(init);
        let dl = directive_lines(ds.last());
        assert(serial_lines(ds) == a + g + dl);
        assert forall|k: int| 0 <= k < serial_lines(ds).len() implies clean_line(#[trigger] serial_lines(ds)[k]) by {
            if k < a.len() {
                assert(serial_lines(ds)[k] == a[k]);
            } else if k < a.len() + g.len() {
                assert(serial_lines(ds)[k] == g[k - a.len()]);
                assert(g[k - a.len()] == Seq::<char>::empty());
            } else {
                assert(serial_lines(ds)[k] == dl[k - a.len() - g.len()]);
            }
        }
    }
}

/// Canonical text is a fixed point: parsing the text of a ledger and
/// serializing what comes back gives the same text, byte for byte.
pub proof fn lemma_reserialize(ds: Seq<DirectiveView>)
    requires
        forall|k: int| 0 <= k < ds.len() ==> canonical_directive(#[trigger] ds[k]),
    ensures
        parse_text(serialize_text(ds)) matches FileParse::Parsed(back) && serialize_text(back) == serialize_text(ds),
{
    lemma_parse_serialize(ds);
}
} // verus!
