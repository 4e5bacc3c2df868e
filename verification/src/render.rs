//! Plain-text table rendering: right-aligned figures, thousands
//! separators, fixed decimals, and column alignment by display width (so
//! Arabic, CJK or combining marks never jitter a column out of line).

use vstd::prelude::*;

use crate::color::{paint_text, Palette, Tone};
use crate::decimal::{decimal_text_prec, repeat_char, Decimal, DecimalValue};
use crate::model::{strings_view, Amount, Flag};
use crate::text::{
    after_char, append_chars, append_str, before_char, chars_of, join, pieces_view, string_of, trim_end,
};
use unicode_segmentation::UnicodeSegmentation;
use unicode_width::UnicodeWidthStr;

verus! {

/// The display width of each grapheme cluster of a text, in order, as
/// `unicode-width` measures them.
pub uninterp spec fn grapheme_widths(s: Seq<char>) -> Seq<usize>;

/// A printable ASCII character.
pub open spec fn plain_ascii(c: char) -> bool {
    ' ' <= c <= '~'
}

/// The widths summed, stopping at `usize::MAX`.
pub open spec fn width_total(ws: Seq<usize>) -> usize
    decreases ws.len(),
{
    if ws.len() == 0 {
        0
    } else {
        let p = width_total(ws.drop_last());
        if p + ws.last() > usize::MAX {
            usize::MAX
        } else {
            (p + ws.last()) as usize
        }
    }
}

/// The display width of a text: the widths of its grapheme clusters,
/// summed.
pub open spec fn text_width(s: Seq<char>) -> usize {
    width_total(grapheme_widths(s))
}

/// Splits the text with `unicode_segmentation`'s `graphemes(true)` and
/// measures each cluster with `unicode_width::UnicodeWidthStr::width`.
/// Claims: the widths are the named `grapheme_widths` of the text; a text
/// of printable ASCII characters has one cluster per character, each one
/// column wide.
#[verifier::external_body]
fn cluster_widths(s: &str) -> (r: Vec<usize>)
    ensures
        r@ == grapheme_widths(s@),
        (forall|i: int| 0 <= i < s@.len() ==> plain_ascii(#[trigger] s@[i])) ==> (r@.len() == s@.len() && forall|
            i: int,
        | 0 <= i < r@.len() ==> #[trigger] r@[i] == 1),
{
    s.graphemes(true).map(UnicodeWidthStr::width).collect()
}

/// The width of `n` ones is `n`.
proof fn lemma_width_of_ones(ws: Seq<usize>)
    requires
        ws.len() <= usize::MAX,
        forall|i: int| 0 <= i < ws.len() ==> #[trigger] ws[i] == 1,
    ensures
        width_total(ws) == ws.len(),
    decreases ws.len(),
{
    if ws.len() > 0 {
        let p = ws.drop_last();
        assert forall|i: int| 0 <= i < p.len() implies #[trigger] p[i] == 1 by {
            assert(p[i] == ws[i]);
        }
        lemma_width_of_ones(p);
    }
}

/// The terminal width of a text (see [`text_width`]); a text of printable
/// ASCII characters is as wide as it is long.
pub fn display_width(s: &str) -> (r: usize)
    ensures
        r == text_width(s@),
        (forall|i: int| 0 <= i < s@.len() ==> plain_ascii(#[trigger] s@[i])) ==> r == s@.len(),
{
    let ws = cluster_widths(s);
    let mut total: usize = 0;
    let mut i: usize = 0;
    assert(ws@.take(0) =~= Seq::<usize>::empty());
    while i < ws.len()
        invariant
            i <= ws.len(),
            total == width_total(ws@.take(i as int)),
        decreases ws.len() - i,
    {
        assert(ws@.take(i + 1).drop_last() =~= ws@.take(i as int));
        assert(ws@.take(i + 1).last() == ws@[i as int]);
        total = total.saturating_add(ws[i]);
        i += 1;
    }
    assert(ws@.take(ws.len() as int) =~= ws@);
    proof {
        if forall|i: int| 0 <= i < s@.len() ==> plain_ascii(#[trigger] s@[i]) {
            lemma_width_of_ones(ws@);
        }
    }
    total
}

/// `s` padded with spaces on the right to `width` columns.
pub open spec fn pad_right_text(s: Seq<char>, width: nat) -> Seq<char> {
    if text_width(s) >= width {
        s
    } else {
        s + repeat_char(' ', (width - text_width(s)) as nat)
    }
}

/// `s` padded with spaces on the left to `width` columns.
pub open spec fn pad_left_text(s: Seq<char>, width: nat) -> Seq<char> {
    if text_width(s) >= width {
        s
    } else {
        repeat_char(' ', (width - text_width(s)) as nat) + s
    }
}

fn spaces(n: usize) -> (r: Vec<char>)
    ensures
        r@ == repeat_char(' ', n as nat),
{
    let mut v: Vec<char> = Vec::new();
    let mut k: usize = 0;
    while k < n
        invariant
            k <= n,
            v@ == repeat_char(' ', k as nat),
        decreases n - k,
    {
        v.push(' ');
        assert(repeat_char(' ', k as nat).push(' ') =~= repeat_char(' ', (k + 1) as nat));
        k += 1;
    }
    v
}

/// Pads on the right to `width` display columns.
pub fn pad_right(s: &str, width: usize) -> (r: String)
    ensures
        r@ == pad_right_text(s@, width as nat),
{
    let w = display_width(s);
    if w >= width {
        String::from_str(s)
    } else {
        let mut v = chars_of(s);
        let sp = spaces(width - w);
        append_chars(&mut v, &sp);
        string_of(&v)
    }
}

/// Pads on the left to `width` display columns.
pub fn pad_left(s: &str, width: usize) -> (r: String)
    ensures
        r@ == pad_left_text(s@, width as nat),
{
    let w = display_width(s);
    if w >= width {
        String::from_str(s)
    } else {
        let mut v = spaces(width - w);
        append_str(&mut v, s);
        string_of(&v)
    }
}

/// The first `n` bytes as characters, with a `,` before each byte that
/// starts a group of three counted from the end.
pub open spec fn grouped(bs: Seq<u8>, n: int) -> Seq<char>
    decreases n,
{
    if n <= 0 || n > bs.len() {
        Seq::empty()
    } else {
        let i = n - 1;
        grouped(bs, i) + (if i > 0 && (bs.len() - i) % 3 == 0 { seq![','] } else { Seq::empty() }) + seq![
            bs[i] as char,
        ]
    }
}

/// Groups a digit string by thousands: `1234567` → `1,234,567`.
pub fn group_thousands(digits: &str) -> (r: String)
    ensures
        r@ == grouped(vstd::utf8::encode_utf8(digits@), vstd::utf8::encode_utf8(digits@).len() as int),
{
    let bytes = digits.as_bytes();
    let ghost bs = bytes@;
    let mut out: Vec<char> = Vec::new();
    let mut i: usize = 0;
    while i < bytes.len()
        invariant
            i <= bs.len(),
            bs == bytes@,
            bs == vstd::utf8::encode_utf8(digits@),
            out@ == grouped(bs, i as int),
        decreases bs.len() - i,
    {
        let remaining = bytes.len() - i;
        if i > 0 && remaining % 3 == 0 {
            out.push(',');
        }
        out.push(bytes[i] as char);
        i += 1;
    }
    string_of(&out)
}

/// The minus sign of formatted numbers: U+2212.
pub open spec fn minus_sign() -> char {
    '\u{2212}'
}

/// `format_number`: the magnitude at `precision` decimals, its whole part
/// grouped by thousands, a real minus sign before a non-zero negative.
#[verifier::opaque]
pub open spec fn number_text(v: DecimalValue, precision: nat) -> Seq<char> {
    let negative = v.negative && v.magnitude != 0;
    let t = decimal_text_prec(DecimalValue { negative: false, ..v }, precision);
    let whole = before_char(t, '.');
    (if negative { seq![minus_sign()] } else { Seq::empty() }) + grouped(
        vstd::utf8::encode_utf8(whole),
        vstd::utf8::encode_utf8(whole).len() as int,
    ) + match after_char(t, '.') {
        Some(f) => seq!['.'] + f,
        None => Seq::empty(),
    }
}

/// The characters before the first `.`, and those after it if there is one.
fn split_at_dot(fc: &Vec<char>) -> (r: (Vec<char>, Option<Vec<char>>))
    ensures
        r.0@ == before_char(fc@, '.'),
        match after_char(fc@, '.') {
            Some(f) => r.1 is Some && r.1->0@ == f,
            None => r.1 is None,
        },
{
    assert(fc@.skip(0) =~= fc@);
    let dot = crate::text::index_of_char_from(fc, '.', 0);
    match dot {
        Some(k) => {
            let whole = crate::text::slice_chars(fc, 0, k);
            assert(whole@ =~= before_char(fc@, '.'));
            let frac = crate::text::slice_chars(fc, k + 1, fc.len());
            assert(frac@ =~= fc@.skip(k + 1));
            (whole, Some(frac))
        },
        None => {
            let whole = crate::text::slice_chars(fc, 0, fc.len());
            assert(whole@ =~= fc@);
            (whole, None)
        },
    }
}

/// Formats a number at a fixed precision with thousands separators and a
/// real minus sign (U+2212) for negatives.
pub fn format_number(number: Decimal, precision: u8) -> (r: String)
    ensures
        r@ == number_text(number@, precision as nat),
{
    let negative = number.is_sign_negative() && !number.is_zero();
    let abs = number.abs();
    let formatted = abs.to_string_with_precision(precision as usize);
    let fc = chars_of(formatted.as_str());
    let (whole, frac) = split_at_dot(&fc);
    let ws = string_of(&whole);
    let grouped_s = group_thousands(ws.as_str());
    let mut out: Vec<char> = Vec::new();
    if negative {
        out.push('\u{2212}');
    }
    append_str(&mut out, grouped_s.as_str());
    let ghost head = out@;
    match frac {
        Some(f) => {
            out.push('.');
            append_chars(&mut out, &f);
            assert(out@ =~= head + (seq!['.'] + f@));
        },
        None => {
            assert(out@ =~= head + Seq::<char>::empty());
        },
    }
    proof {
        reveal(number_text);
        if negative {
            assert(head =~= seq![minus_sign()] + grouped_s@);
        } else {
            assert(head =~= Seq::<char>::empty() + grouped_s@);
        }
    }
    string_of(&out)
}

/// `{number} {commodity}` at a precision, painted signal-red when
/// negative.
pub open spec fn amount_display(a: Amount, precision: nat, p: (bool, bool)) -> Seq<char> {
    let text = number_text(a.number@, precision) + seq![' '] + a.commodity@;
    if a.number@.negative && a.number@.magnitude != 0 {
        paint_text(p, Tone::Signal, text)
    } else {
        text
    }
}

/// Renders an amount at its commodity's precision, coloured signal-red
/// when negative.
pub fn format_amount(amount: &Amount, precision: u8, palette: &Palette) -> (r: String)
    ensures
        r@ == amount_display(*amount, precision as nat, palette@),
{
    let n = format_number(amount.number, precision);
    let mut v = chars_of(n.as_str());
    v.push(' ');
    append_str(&mut v, amount.commodity.as_str());
    let text = string_of(&v);
    if amount.number.is_sign_negative() && !amount.number.is_zero() {
        palette.paint(Tone::Signal, text.as_str())
    } else {
        text
    }
}

/// A coloured clearing mark: teal `*` for cleared, amber `!` for pending.
pub fn flag_badge(flag: Flag, palette: &Palette) -> (r: String)
    ensures
        r@ == match flag {
            Flag::Cleared => paint_text(palette@, Tone::Teal, "*"@),
            Flag::Pending => paint_text(palette@, Tone::Amber, "!"@),
        },
{
    match flag {
        Flag::Cleared => palette.paint(Tone::Teal, "*"),
        Flag::Pending => palette.paint(Tone::Amber, "!"),
    }
}

/// The text with ANSI SGR escapes (`ESC … m`) removed.
pub open spec fn strip_ansi_text(s: Seq<char>) -> Seq<char>
    decreases s.len(),
{
    if s.len() == 0 {
        Seq::empty()
    } else if s[0] == '\x1b' {
        let m = crate::text::next_char(s, 'm', 1);
        if m >= s.len() || m < 1 {
            Seq::empty()
        } else {
            strip_ansi_text(s.skip(m + 1))
        }
    } else {
        seq![s[0]] + strip_ansi_text(s.drop_first())
    }
}

/// Strips ANSI SGR escapes so width calculations are not thrown off by
/// colour codes embedded in a cell.
pub fn strip_ansi(s: &str) -> (r: String)
    ensures
        r@ == strip_ansi_text(s@),
{
    let v = chars_of(s);
    let mut out: Vec<char> = Vec::new();
    let mut i: usize = 0;
    assert(v@.skip(0) =~= v@);
    assert(out@ + strip_ansi_text(v@.skip(0)) =~= strip_ansi_text(v@));
    while i < v.len()
        invariant
            i <= v.len(),
            v@ == s@,
            out@ + strip_ansi_text(v@.skip(i as int)) == strip_ansi_text(v@),
        decreases v.len() - i,
    {
        let ghost rest = v@.skip(i as int);
        if v[i] == '\x1b' {
            let m = crate::text::next_char_exec(&v, 'm', i + 1);
            proof {
                crate::text::lemma_next_char(v@, 'm', i + 1);
                crate::text::lemma_next_char(rest, 'm', 1);
                lemma_next_char_shift(v@, 'm', i as int, 1);
            }
            if m >= v.len() {
                assert(strip_ansi_text(rest) =~= Seq::<char>::empty());
                assert(out@ + Seq::<char>::empty() =~= out@);
                assert(out@ == strip_ansi_text(v@));
                let r = string_of(&out);
                assert(r@ == strip_ansi_text(s@));
                return r;
            }
            assert(rest.skip(m - i + 1) =~= v@.skip(m + 1));
            i = m + 1;
        } else {
            out.push(v[i]);
            assert(rest.drop_first() =~= v@.skip(i + 1));
            assert(out@ + strip_ansi_text(v@.skip(i + 1)) =~= out@.drop_last() + (seq![rest[0]] + strip_ansi_text(rest.drop_first())));
            i += 1;
        }
    }
    assert(v@.skip(v.len() as int) =~= Seq::<char>::empty());
    assert(out@ + Seq::<char>::empty() =~= out@);
    string_of(&out)
}

proof fn lemma_next_char_shift(s: Seq<char>, c: char, i: int, k: int)
    requires
        0 <= i <= s.len(),
        0 <= k,
        i + k <= s.len(),
    ensures
        crate::text::next_char(s.skip(i), c, k) == crate::text::next_char(s, c, i + k) - i,
    decreases s.len() - i - k,
{
    if i + k < s.len() && s[i + k] != c {
        lemma_next_char_shift(s, c, i, k + 1);
    }
}


/// A text without escape characters is its own visible text.
pub proof fn lemma_strip_plain(s: Seq<char>)
    requires
        forall|i: int| 0 <= i < s.len() ==> s[i] != '\x1b',
    ensures
        strip_ansi_text(s) == s,
    decreases s.len(),
{
    if s.len() > 0 {
        assert forall|i: int| 0 <= i < s.drop_first().len() implies s.drop_first()[i] != '\x1b' by {
            assert(s.drop_first()[i] == s[i + 1]);
        }
        lemma_strip_plain(s.drop_first());
        assert(seq![s[0]] + s.drop_first() =~= s);
    }
}

/// No `m` in the text (so an escape's body never ends early).
pub open spec fn no_m(s: Seq<char>) -> bool {
    forall|i: int| 0 <= i < s.len() ==> s[i] != 'm'
}

/// No escape character in the text.
pub open spec fn no_escape(s: Seq<char>) -> bool {
    forall|i: int| 0 <= i < s.len() ==> s[i] != '\x1b'
}

/// Stripping drops an escape `ESC body m` in front.
proof fn lemma_strip_escape(body: Seq<char>, rest: Seq<char>)
    requires
        no_m(body),
    ensures
        strip_ansi_text(seq!['\x1b'] + body + seq!['m'] + rest) == strip_ansi_text(rest),
{
    let s = seq!['\x1b'] + body + seq!['m'] + rest;
    let e: int = body.len() as int + 1;
    assert(s[e] == 'm');
    crate::text::lemma_next_char(s, 'm', 1);
    let m = crate::text::next_char(s, 'm', 1);
    if m > e {
        assert(s[e] != 'm');
    }
    if m < e {
        assert(s[m] == body[m - 1]);
    }
    assert(m == e);
    assert(s.skip(m + 1) =~= rest);
}

/// Stripping keeps a plain text in front.
proof fn lemma_strip_prefix_plain(t: Seq<char>, rest: Seq<char>)
    requires
        no_escape(t),
    ensures
        strip_ansi_text(t + rest) == t + strip_ansi_text(rest),
    decreases t.len(),
{
    if t.len() > 0 {
        let s = t + rest;
        assert(s[0] == t[0]);
        assert(s.drop_first() =~= t.drop_first() + rest);
        lemma_strip_prefix_plain(t.drop_first(), rest);
        assert(seq![t[0]] + t.drop_first() =~= t);
    } else {
        assert(t + rest =~= rest);
    }
}

/// Text wrapped in one escape and a reset strips back to the text.
proof fn lemma_strip_wrapped(body: Seq<char>, text: Seq<char>)
    requires
        no_m(body),
        no_escape(text),
    ensures
        strip_ansi_text(seq!['\x1b'] + body + seq!['m'] + text + "\x1b[0m"@) == text,
{
    reveal_strlit("\x1b[0m");
    let reset = "\x1b[0m"@;
    assert(reset =~= seq!['\x1b'] + seq!['[', '0'] + seq!['m'] + Seq::<char>::empty());
    lemma_strip_escape(seq!['[', '0'], Seq::empty());
    lemma_strip_prefix_plain(text, reset);
    assert(seq!['\x1b'] + body + seq!['m'] + text + reset =~= seq!['\x1b'] + body + seq!['m'] + (text + reset));
    lemma_strip_escape(body, text + reset);
    assert(text + Seq::<char>::empty() =~= text);
}

proof fn lemma_digits_no_m(n: nat)
    ensures
        no_m(crate::text::uint_text(n)),
{
    crate::round_trip::lemma_uint_text(n);
    let u = crate::text::uint_text(n);
    assert forall|i: int| 0 <= i < u.len() implies u[i] != 'm' by {
        assert('0' <= u[i] <= '9');
    }
}

/// Stripping the escapes from painted text gives the text back (for text
/// that holds no escape character of its own).
pub proof fn law_strip_painted(p: (bool, bool), tone: Tone, text: Seq<char>)
    requires
        no_escape(text),
    ensures
        strip_ansi_text(paint_text(p, tone, text)) == text,
{
    reveal_strlit("\x1b[0m");
    if !p.0 {
        lemma_strip_plain(text);
    } else {
        match tone {
            Tone::Brand => {
                if p.1 {
                    reveal_strlit("\x1b[38;2;42;26;18m\x1b[48;2;255;241;220m");
                    let b1 = "[38;2;42;26;18"@;
                    let b2 = "[48;2;255;241;220"@;
                    reveal_strlit("[38;2;42;26;18");
                    reveal_strlit("[48;2;255;241;220");
                    assert(no_m(b1));
                    assert(no_m(b2));
                    let head = "\x1b[38;2;42;26;18m\x1b[48;2;255;241;220m"@;
                    assert(head =~= seq!['\x1b'] + b1 + seq!['m'] + (seq!['\x1b'] + b2 + seq!['m']));
                    lemma_strip_wrapped(b2, text);
                    lemma_strip_escape(b1, seq!['\x1b'] + b2 + seq!['m'] + text + "\x1b[0m"@);
                    assert(head + text + "\x1b[0m"@ =~= seq!['\x1b'] + b1 + seq!['m'] + (seq!['\x1b'] + b2
                        + seq!['m'] + text + "\x1b[0m"@));
                } else {
                    reveal_strlit("\x1b[7m");
                    assert("\x1b[7m"@ =~= seq!['\x1b'] + seq!['[', '7'] + seq!['m']);
                    lemma_strip_wrapped(seq!['[', '7'], text);
                }
            },
            _ => {
                let (rgb, a16): ((u8, u8, u8), u8) = match tone {
                    Tone::Signal => ((181u8, 48u8, 15u8), 31u8),
                    Tone::Amber => ((242u8, 169u8, 59u8), 33u8),
                    _ => ((30u8, 111u8, 107u8), 36u8),
                };
                lemma_fg_strips(p.1, text, rgb, a16);
            },
        }
    }
}

proof fn lemma_fg_strips(truecolor: bool, text: Seq<char>, rgb: (u8, u8, u8), ansi16: u8)
    requires
        no_escape(text),
    ensures
        strip_ansi_text(crate::color::fg_text(truecolor, text, rgb, ansi16)) == text,
{
    reveal_strlit("\x1b[38;2;");
    reveal_strlit(";");
    reveal_strlit("m");
    reveal_strlit("\x1b[");
    let u0 = crate::text::uint_text(rgb.0 as nat);
    let u1 = crate::text::uint_text(rgb.1 as nat);
    let u2 = crate::text::uint_text(rgb.2 as nat);
    lemma_digits_no_m(rgb.0 as nat);
    lemma_digits_no_m(rgb.1 as nat);
    lemma_digits_no_m(rgb.2 as nat);
    lemma_digits_no_m(ansi16 as nat);
    if truecolor {
        let body = seq!['[', '3', '8', ';', '2', ';'] + u0 + seq![';'] + u1 + seq![';'] + u2;
        assert(no_m(body)) by {
            assert forall|i: int| 0 <= i < body.len() implies body[i] != 'm' by {
                if i < 6 {
                } else if i < 6 + u0.len() {
                    assert(body[i] == u0[i - 6]);
                } else if i == 6 + u0.len() {
                } else if i < 7 + u0.len() + u1.len() {
                    assert(body[i] == u1[i - 7 - u0.len()]);
                } else if i == 7 + u0.len() + u1.len() {
                } else {
                    assert(body[i] == u2[i - 8 - u0.len() - u1.len()]);
                }
            }
        }
        lemma_strip_wrapped(body, text);
        assert(crate::color::fg_text(truecolor, text, rgb, ansi16) =~= seq!['\x1b'] + body + seq!['m'] + text
            + "\x1b[0m"@);
    } else {
        let u = crate::text::uint_text(ansi16 as nat);
        let body = seq!['['] + u;
        assert(no_m(body)) by {
            assert forall|i: int| 0 <= i < body.len() implies body[i] != 'm' by {
                if i > 0 {
                    assert(body[i] == u[i - 1]);
                }
            }
        }
        lemma_strip_wrapped(body, text);
        assert(crate::color::fg_text(truecolor, text, rgb, ansi16) =~= seq!['\x1b'] + body + seq!['m'] + text
            + "\x1b[0m"@);
    }
}

/// How a column's cells line up.
#[derive(Debug, Clone, Copy, PartialEq, Eq, Structural)]
pub enum Align {
    Left,
    Right,
}

/// A minimal table: headers and rows, one alignment per column. Renders as
/// space-separated, width-aligned plain text with a single rule under the
/// header.
pub struct Table {
    pub headers: Vec<String>,
    pub aligns: Vec<Align>,
    pub rows: Vec<Vec<String>>,
}

/// The cells of each row.
pub open spec fn rows_view(rows: Seq<Vec<String>>) -> Seq<Seq<Seq<char>>> {
    rows.map_values(|r: Vec<String>| strings_view(r@))
}

/// Display width of what a cell shows once its colour codes are gone.
pub open spec fn visible_width(s: Seq<char>) -> usize {
    text_width(strip_ansi_text(s))
}

/// Width of column `i`: its header's width, widened by each row's cell in
/// that column (rows too short to reach it leave it alone).
pub open spec fn column_width(headers: Seq<Seq<char>>, rows: Seq<Seq<Seq<char>>>, i: int) -> usize
    decreases rows.len(),
{
    if rows.len() == 0 {
        text_width(headers[i])
    } else {
        let w = column_width(headers, rows.drop_last(), i);
        let row = rows.last();
        if i < row.len() && visible_width(row[i]) > w {
            visible_width(row[i])
        } else {
            w
        }
    }
}

/// One width per header.
pub open spec fn table_widths(headers: Seq<Seq<char>>, rows: Seq<Seq<Seq<char>>>) -> Seq<usize> {
    Seq::new(headers.len(), |i: int| column_width(headers, rows, i))
}

/// A cell padded with spaces to `width` visible columns, on the right for
/// left-aligned columns and on the left for right-aligned ones.
pub open spec fn aligned_text(s: Seq<char>, width: usize, align: Align) -> Seq<char> {
    let v = visible_width(s);
    let pad: nat = if v >= width { 0 } else { (width - v) as nat };
    match align {
        Align::Left => s + repeat_char(' ', pad),
        Align::Right => repeat_char(' ', pad) + s,
    }
}

/// A row's cells, aligned; missing cells are empty.
pub open spec fn row_cells(cells: Seq<Seq<char>>, widths: Seq<usize>, aligns: Seq<Align>) -> Seq<Seq<char>> {
    Seq::new(
        widths.len(),
        |i: int| aligned_text(if i < cells.len() { cells[i] } else { Seq::empty() }, widths[i], aligns[i]),
    )
}

/// A row's line: aligned cells joined by two spaces, trailing blanks cut.
pub open spec fn table_line(cells: Seq<Seq<char>>, widths: Seq<usize>, aligns: Seq<Align>) -> Seq<char> {
    trim_end(join(row_cells(cells, widths, aligns), "  "@)) + seq!['\n']
}

/// The sum of the widths.
pub open spec fn width_sum(ws: Seq<usize>) -> int
    decreases ws.len(),
{
    if ws.len() == 0 {
        0
    } else {
        width_sum(ws.drop_last()) + ws.last()
    }
}

/// The columns' widths and the two-space gaps between them.
pub open spec fn table_span(ws: Seq<usize>) -> int {
    width_sum(ws) + 2 * (if ws.len() > 0 { ws.len() - 1 } else { 0 })
}

/// The lines of the rows.
pub open spec fn rows_text(rows: Seq<Seq<Seq<char>>>, widths: Seq<usize>, aligns: Seq<Align>) -> Seq<char>
    decreases rows.len(),
{
    if rows.len() == 0 {
        Seq::empty()
    } else {
        rows_text(rows.drop_last(), widths, aligns) + table_line(rows.last(), widths, aligns)
    }
}

/// The rendered table: the header line, a rule as wide as the table (at
/// least one character), and one line per row.
pub open spec fn table_text(
    headers: Seq<Seq<char>>,
    aligns: Seq<Align>,
    rows: Seq<Seq<Seq<char>>>,
    rule: char,
) -> Seq<char> {
    let ws = table_widths(headers, rows);
    let span = table_span(ws);
    table_line(headers, ws, aligns) + repeat_char(rule, (if span == 0 { 1 } else { span }) as nat) + seq!['\n']
        + rows_text(rows, ws, aligns)
}

/// The table's width fits in a `usize`.
pub open spec fn table_fits(headers: Seq<Seq<char>>, rows: Seq<Seq<Seq<char>>>) -> bool {
    table_span(table_widths(headers, rows)) <= usize::MAX
}

proof fn lemma_width_sum_prefix(ws: Seq<usize>, i: int)
    requires
        0 <= i <= ws.len(),
    ensures
        width_sum(ws.take(i)) <= width_sum(ws),
    decreases ws.len(),
{
    if i < ws.len() {
        assert(ws.drop_last().take(i) =~= ws.take(i));
        lemma_width_sum_prefix(ws.drop_last(), i);
    } else {
        assert(ws.take(i) =~= ws);
    }
}

/// The table's span, or `None` where it does not fit in a `usize`.
fn checked_span(ws: &Vec<usize>) -> (r: Option<usize>)
    ensures
        match r {
            Some(t) => t == table_span(ws@),
            None => table_span(ws@) > usize::MAX,
        },
{
    let mut total: usize = 0;
    let mut i: usize = 0;
    while i < ws.len()
        invariant
            i <= ws.len(),
            total == width_sum(ws@.take(i as int)),
        decreases ws.len() - i,
    {
        assert(ws@.take(i + 1).drop_last() =~= ws@.take(i as int));
        match total.checked_add(ws[i]) {
            Some(t) => {
                total = t;
            },
            None => {
                proof {
                    lemma_width_sum_prefix(ws@, i + 1);
                }
                return None;
            },
        }
        i += 1;
    }
    assert(ws@.take(ws.len() as int) =~= ws@);
    let gaps: usize = if ws.len() > 0 { ws.len() - 1 } else { 0 };
    match gaps.checked_mul(2) {
        Some(g) => total.checked_add(g),
        None => None,
    }
}

/// The width of each column of the table.
fn column_widths(headers: &Vec<String>, rows: &Vec<Vec<String>>) -> (ws: Vec<usize>)
    ensures
        ws@ == table_widths(strings_view(headers@), rows_view(rows@)),
{
    let ghost hv = strings_view(headers@);
    let ghost rv = rows_view(rows@);
    let mut ws: Vec<usize> = Vec::new();
    let mut i: usize = 0;
    while i < headers.len()
        invariant
            i <= headers.len(),
            hv == strings_view(headers@),
            ws@.len() == i,
            forall|j: int| 0 <= j < i ==> ws@[j] == column_width(hv, rv.take(0), j),
        decreases headers.len() - i,
    {
        let w = display_width(headers[i].as_str());
        ws.push(w);
        i += 1;
    }
    let mut r: usize = 0;
    while r < rows.len()
        invariant
            r <= rows.len(),
            hv == strings_view(headers@),
            rv == rows_view(rows@),
            ws@.len() == headers.len(),
            forall|j: int| 0 <= j < ws@.len() ==> ws@[j] == column_width(hv, rv.take(r as int), j),
        decreases rows.len() - r,
    {
        let row = &rows[r];
        assert(rv.take(r + 1).drop_last() =~= rv.take(r as int));
        assert(rv.take(r + 1).last() == strings_view(row@));
        let mut k: usize = 0;
        while k < ws.len() && k < row.len()
            invariant
                k <= ws@.len(),
                ws@.len() == headers.len(),
                row@ == rows@[r as int]@,
                rv == rows_view(rows@),
                r < rows.len(),
                rv.take(r + 1).drop_last() == rv.take(r as int),
                rv.take(r + 1).last() == strings_view(row@),
                forall|j: int| 0 <= j < k ==> ws@[j] == column_width(hv, rv.take(r + 1), j),
                forall|j: int| k <= j < ws@.len() ==> ws@[j] == column_width(hv, rv.take(r as int), j),
            decreases ws@.len() - k,
        {
            let plain = strip_ansi(row[k].as_str());
            let w = display_width(plain.as_str());
            if w > ws[k] {
                ws.set(k, w);
            }
            k += 1;
        }
        proof {
            assert forall|j: int| k <= j < ws@.len() implies ws@[j] == column_width(hv, rv.take(r + 1), j) by {
                assert(j >= row@.len());
            }
        }
        r += 1;
    }
    assert(rv.take(rows.len() as int) =~= rv);
    assert(ws@ =~= table_widths(hv, rv));
    ws
}

/// A cell padded to `width` visible columns.
fn align_cell(text: &str, width: usize, align: Align) -> (r: String)
    ensures
        r@ == aligned_text(text@, width, align),
{
    let tc = chars_of(text);
    assert(tc@.skip(0) =~= tc@);
    match crate::text::index_of_char_from(&tc, '\x1b', 0) {
        None => {
            proof {
                reveal(crate::text::index_of_char);
                assert forall|i: int| 0 <= i < text@.len() implies text@[i] != '\x1b' by {
                    if text@[i] == '\x1b' {
                        assert(0 <= i < text@.len() && text@[i] == '\x1b');
                    }
                }
                lemma_strip_plain(text@);
                assert(text@ + repeat_char(' ', 0) =~= text@);
                assert(repeat_char(' ', 0) + text@ =~= text@);
            }
            match align {
                Align::Left => pad_right(text, width),
                Align::Right => pad_left(text, width),
            }
        },
        Some(_) => {
            let plain = strip_ansi(text);
            let visible = display_width(plain.as_str());
            let pad: usize = if visible >= width { 0 } else { width - visible };
            let sp = spaces(pad);
            match align {
                Align::Left => {
                    let mut v = tc;
                    append_chars(&mut v, &sp);
                    string_of(&v)
                },
                Align::Right => {
                    let mut v = sp;
                    append_str(&mut v, text);
                    string_of(&v)
                },
            }
        },
    }
}

/// One line of the table: the cells aligned, joined by two spaces, with
/// trailing blanks cut and a newline.
fn table_row_line(cells: &Vec<String>, ws: &Vec<usize>, aligns: &Vec<Align>) -> (r: Vec<char>)
    requires
        aligns.len() >= ws.len(),
    ensures
        r@ == table_line(strings_view(cells@), ws@, aligns@),
{
    let ghost cv = strings_view(cells@);
    let empty = String::new();
    let mut pieces: Vec<Vec<char>> = Vec::new();
    let mut i: usize = 0;
    while i < ws.len()
        invariant
            i <= ws.len(),
            aligns.len() >= ws.len(),
            cv == strings_view(cells@),
            empty@ == Seq::<char>::empty(),
            pieces@.len() == i,
            forall|j: int| 0 <= j < i ==> #[trigger] pieces@[j]@ == row_cells(cv, ws@, aligns@)[j],
        decreases ws.len() - i,
    {
        let cell: &str = if i < cells.len() { cells[i].as_str() } else { empty.as_str() };
        let a = align_cell(cell, ws[i], aligns[i]);
        pieces.push(chars_of(a.as_str()));
        i += 1;
    }
    assert(pieces_view(pieces@) =~= row_cells(cv, ws@, aligns@));
    let joined = crate::text::join_chars(&pieces, "  ");
    let mut line = crate::text::trim_end_chars(&joined);
    line.push('\n');
    line
}

impl Table {
    /// A table with these headers and alignments and no rows.
    pub fn new(headers: Vec<&str>, aligns: Vec<Align>) -> (r: Table)
        ensures
            strings_view(r.headers@) == headers@.map_values(|h: &str| h@),
            r.aligns@ == aligns@,
            r.rows@.len() == 0,
    {
        let mut hs: Vec<String> = Vec::new();
        let mut i: usize = 0;
        while i < headers.len()
            invariant
                i <= headers.len(),
                strings_view(hs@) =~= headers@.take(i as int).map_values(|h: &str| h@),
            decreases headers.len() - i,
        {
            let ghost before = strings_view(hs@);
            hs.push(String::from_str(headers[i]));
            assert(strings_view(hs@) =~= before.push(headers@[i as int]@));
            assert(headers@.take(i + 1).map_values(|h: &str| h@) =~= headers@.take(i as int).map_values(
                |h: &str| h@,
            ).push(headers@[i as int]@));
            i += 1;
        }
        assert(headers@.take(headers.len() as int) =~= headers@);
        Table { headers: hs, aligns, rows: Vec::new() }
    }

    /// Appends a row.
    pub fn push_row(&mut self, row: Vec<String>)
        ensures
            final(self).rows@ == old(self).rows@.push(row),
            final(self).headers@ == old(self).headers@,
            final(self).aligns@ == old(self).aligns@,
    {
        self.rows.push(row);
    }

    /// Renders the table; the rule is box-drawing `─` when `unicode_lines`,
    /// ASCII `-` otherwise.
    pub fn render(&self, unicode_lines: bool) -> (r: String)
        requires
            self.aligns.len() >= self.headers.len(),
            table_fits(strings_view(self.headers@), rows_view(self.rows@)),
        ensures
            r@ == table_text(
                strings_view(self.headers@),
                self.aligns@,
                rows_view(self.rows@),
                if unicode_lines { '\u{2500}' } else { '-' },
            ),
    {
        let ghost hv = strings_view(self.headers@);
        let ghost rv = rows_view(self.rows@);
        let ws = column_widths(&self.headers, &self.rows);
        let mut out = table_row_line(&self.headers, &ws, &self.aligns);
        let span = match checked_span(&ws) {
            Some(t) => t,
            None => 0,
        };
        let n: usize = if span == 0 { 1 } else { span };
        let rule = crate::color::rule_char(unicode_lines);
        let ghost head = out@;
        let mut k: usize = 0;
        while k < n
            invariant
                k <= n,
                out@ == head + repeat_char(rule, k as nat),
            decreases n - k,
        {
            out.push(rule);
            assert(repeat_char(rule, k as nat).push(rule) =~= repeat_char(rule, (k + 1) as nat));
            assert(out@ =~= head + repeat_char(rule, (k + 1) as nat));
            k += 1;
        }
        out.push('\n');
        let ghost top = out@;
        assert(rv.take(0) =~= Seq::<Seq<Seq<char>>>::empty());
        assert(top + rows_text(rv.take(0), ws@, self.aligns@) =~= top);
        let mut r: usize = 0;
        while r < self.rows.len()
            invariant
                r <= self.rows.len(),
                rv == rows_view(self.rows@),
                self.aligns.len() >= ws.len(),
                out@ == top + rows_text(rv.take(r as int), ws@, self.aligns@),
            decreases self.rows.len() - r,
        {
            let line = table_row_line(&self.rows[r], &ws, &self.aligns);
            append_chars(&mut out, &line);
            assert(rv.take(r + 1).drop_last() =~= rv.take(r as int));
            assert(out@ =~= top + rows_text(rv.take(r + 1), ws@, self.aligns@));
            r += 1;
        }
        assert(rv.take(self.rows.len() as int) =~= rv);
        string_of(&out)
    }

    /// Renders the table where its width fits in a `usize`, `None` otherwise.
    pub fn try_render(&self, unicode_lines: bool) -> (r: Option<String>)
        requires
            self.aligns.len() >= self.headers.len(),
        ensures
            r is Some <==> table_fits(strings_view(self.headers@), rows_view(self.rows@)),
            r matches Some(t) ==> t@ == table_text(
                strings_view(self.headers@),
                self.aligns@,
                rows_view(self.rows@),
                if unicode_lines { '\u{2500}' } else { '-' },
            ),
    {
        let ws = column_widths(&self.headers, &self.rows);
        match checked_span(&ws) {
            Some(_) => Some(self.render(unicode_lines)),
            None => None,
        }
    }
}

} // verus!
