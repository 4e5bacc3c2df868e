//! Lines in front of a ledger text: comment and blank lines read as
//! nothing, and what follows them parses as on its own, its error line
//! numbers moved down by the lines in front.

use vstd::prelude::*;

use crate::parser::{
    body_from, commodity_at, directive_at, parse_from, parse_text, precision_line, strip_cr, text_lines,
    transaction_at, BodyParse, FileParse, StepParse,
};
use crate::text::{split_char, trim};

verus! {

/// A body outcome read `n` lines further down.
pub open spec fn shift_body(b: BodyParse, n: int) -> BodyParse {
    match b {
        BodyParse::Parsed(ps, meta, end) => BodyParse::Parsed(ps, meta, end + n),
        BodyParse::Failed(l, m) => BodyParse::Failed((l + n) as nat, m),
        BodyParse::Abort => BodyParse::Abort,
    }
}

/// A step outcome read `n` lines further down.
pub open spec fn shift_step(s: StepParse, n: int) -> StepParse {
    match s {
        StepParse::Parsed(d, k) => StepParse::Parsed(d, k),
        StepParse::Failed(l, m) => StepParse::Failed((l + n) as nat, m),
        StepParse::Abort => StepParse::Abort,
    }
}

/// A file outcome read `n` lines further down: the same directives, or the
/// same error `n` lines later.
pub open spec fn shift_file(f: FileParse, n: int) -> FileParse {
    match f {
        FileParse::Parsed(ds) => FileParse::Parsed(ds),
        FileParse::Failed(l, m) => FileParse::Failed((l + n) as nat, m),
        FileParse::Abort => FileParse::Abort,
    }
}

/// A line the file parser passes over: blank, or a `;` comment.
pub open spec fn skippable(line: Seq<char>) -> bool {
    trim(line).len() == 0 || trim(line)[0] == ';'
}

proof fn lemma_body_shift(
    pre: Seq<Seq<char>>,
    lines: Seq<Seq<char>>,
    i: int,
    ps: Seq<crate::model::PostingView>,
    meta: Seq<(Seq<char>, Seq<char>)>,
)
    requires
        i >= 0,
    ensures
        body_from(pre + lines, i + pre.len(), ps, meta) == shift_body(body_from(lines, i, ps, meta), pre.len() as int),
    decreases lines.len() - i,
{
    let all = pre + lines;
    if i < lines.len() {
        assert(all[i + pre.len()] == lines[i]);
        let t = trim(lines[i]);
        if t.len() == 0 || !crate::text::is_ws(lines[i][0]) {
        } else if t[0] == ';' {
            lemma_body_shift(pre, lines, i + 1, ps, meta);
        } else if crate::parser::posting_line(t) {
            match crate::parser::posting_result(t) {
                crate::parser::PostingParse::Parsed(p) => {
                    lemma_body_shift(pre, lines, i + 1, ps.push(p), meta);
                },
                _ => {},
            }
        } else {
            match crate::parser::meta_line(t) {
                Some((k, v)) => {
                    lemma_body_shift(pre, lines, i + 1, ps, crate::model::meta_insert(meta, k, v));
                },
                None => {},
            }
        }
    }
}

proof fn lemma_directive_shift(pre: Seq<Seq<char>>, lines: Seq<Seq<char>>, start: int)
    requires
        0 <= start < lines.len(),
    ensures
        directive_at(pre + lines, start + pre.len()) == shift_step(directive_at(lines, start), pre.len() as int),
{
    reveal(directive_at);
    let all = pre + lines;
    let n = pre.len() as int;
    assert(all[start + n] == lines[start]);
    lemma_body_shift(pre, lines, start + 1, Seq::empty(), Seq::empty());
    assert(precision_line(all, start + n) == precision_line(lines, start)) by {
        if start + 1 < lines.len() {
            assert(all[start + n + 1] == lines[start + 1]);
        }
    }
    let (date_str, keyword, tail) = crate::parser::header_parts(trim(lines[start]));
    let fields = crate::text::ws_tokens(tail);
    match crate::date::iso_result(date_str) {
        Err(_) => {},
        Ok(date) => {
            if keyword == "*"@ {
                assert(transaction_at(all, start + n, date, crate::model::Flag::Cleared, tail) == shift_step(
                    transaction_at(lines, start, date, crate::model::Flag::Cleared, tail),
                    n,
                ));
            } else if keyword == "!"@ {
                assert(transaction_at(all, start + n, date, crate::model::Flag::Pending, tail) == shift_step(
                    transaction_at(lines, start, date, crate::model::Flag::Pending, tail),
                    n,
                ));
            } else if keyword == "commodity"@ {
                assert(commodity_at(all, start + n, fields, date, (start + n + 1) as nat) == shift_step(
                    commodity_at(lines, start, fields, date, (start + 1) as nat),
                    n,
                ));
            }
        },
    }
}

proof fn lemma_parse_shift(pre: Seq<Seq<char>>, lines: Seq<Seq<char>>, i: int)
    requires
        i >= 0,
    ensures
        parse_from(pre + lines, i + pre.len()) == shift_file(parse_from(lines, i), pre.len() as int),
    decreases crate::parser::remaining_lines(lines, i),
{
    let all = pre + lines;
    let n = pre.len() as int;
    if i < lines.len() {
        assert(all[i + n] == lines[i]);
        let raw = lines[i];
        let t = trim(raw);
        if t.len() == 0 || t[0] == ';' {
            lemma_parse_shift(pre, lines, i + 1);
        } else if crate::text::is_ws(raw[0]) {
        } else {
            lemma_directive_shift(pre, lines, i);
            match directive_at(lines, i) {
                StepParse::Parsed(d, k) => {
                    if k >= 1 {
                        lemma_parse_shift(pre, lines, i + k);
                    }
                },
                _ => {},
            }
        }
    }
}

proof fn lemma_skip_front(lines: Seq<Seq<char>>, c: int, i: int)
    requires
        0 <= i <= c <= lines.len(),
        forall|k: int| 0 <= k < c ==> #[trigger] skippable(lines[k]),
    ensures
        parse_from(lines, i) == parse_from(lines, c),
    decreases c - i,
{
    if i < c {
        assert(skippable(lines[i]));
        lemma_skip_front(lines, c, i + 1);
    }
}

/// Lines read from a text that ends in a line feed, then from more text:
/// the lines of the first, then those of the second.
proof fn lemma_text_lines_concat(c: Seq<char>, t: Seq<char>)
    requires
        c.len() > 0,
        c.last() == '\n',
    ensures
        text_lines(c + t) == text_lines(c) + text_lines(t),
{
    let c0 = c.drop_last();
    assert(c =~= c0 + seq!['\n'] + Seq::<char>::empty());
    assert(c + t =~= c0 + seq!['\n'] + t);
    crate::round_trip::lemma_split_concat(c0, '\n', t);
    crate::round_trip::lemma_split_concat(c0, '\n', Seq::empty());
    crate::text::lemma_split_len(c0, '\n');
    crate::text::lemma_split_len(t, '\n');
    let a = split_char(c0, '\n');
    let b = split_char(t, '\n');
    assert(split_char(Seq::<char>::empty(), '\n') == seq![Seq::<char>::empty()]) by {
        assert(crate::text::index_of_char(Seq::<char>::empty(), '\n') is None) by {
            reveal(crate::text::index_of_char);
        }
        crate::text::lemma_split_none(Seq::<char>::empty(), '\n');
    }
    let whole = a + b;
    let first = a + seq![Seq::<char>::empty()];
    assert(text_lines(c) =~= Seq::new(a.len(), |i: int| strip_cr(a[i])));
    assert(text_lines(c + t) =~= text_lines(c) + text_lines(t)) by {
        let lt = text_lines(t);
        let lct = text_lines(c + t);
        assert(lct.len() == text_lines(c).len() + lt.len());
        assert forall|i: int| 0 <= i < lct.len() implies lct[i] == (text_lines(c) + lt)[i] by {
            if i < a.len() {
                assert(whole[i] == a[i]);
            } else {
                assert(whole[i] == b[i - a.len()]);
            }
        }
    }
}

/// Comment and blank lines in front of a ledger text: they read as
/// nothing, and the text after them parses as it does on its own, an
/// error's line number moved down by the number of lines in front.
pub proof fn law_leading_comments(c: Seq<char>, t: Seq<char>)
    requires
        c.len() == 0 || c.last() == '\n',
        forall|k: int| 0 <= k < text_lines(c).len() ==> #[trigger] skippable(text_lines(c)[k]),
    ensures
        parse_text(c) == FileParse::Parsed(Seq::empty()),
        parse_text(c + t) == shift_file(parse_text(t), text_lines(c).len() as int),
{
    let lc = text_lines(c);
    let lt = text_lines(t);
    lemma_skip_front(lc, lc.len() as int, 0);
    if c.len() == 0 {
        assert(c + t =~= t);
        assert(lc.len() == 0) by {
            assert(crate::text::index_of_char(c, '\n') is None) by {
                reveal(crate::text::index_of_char);
            }
            crate::text::lemma_split_none(c, '\n');
        }
    } else {
        lemma_text_lines_concat(c, t);
        let all = lc + lt;
        assert forall|k: int| 0 <= k < lc.len() implies #[trigger] skippable(all[k]) by {
            assert(all[k] == lc[k]);
        }
        lemma_skip_front(all, lc.len() as int, 0);
        lemma_parse_shift(lc, lt, 0);
    }
}

} // verus!
