//! Character-sequence helpers shared by the parser and the renderers.

use vstd::prelude::*;

verus! {

/// The characters of `s`, in order.
pub fn chars_of(s: &str) -> (r: Vec<char>)
    ensures
        r@ == s@,
{
    let mut out: Vec<char> = Vec::new();
    for c in it: s.chars()
        invariant
            out@ == it.seq().take(it.index() as int),
            it.seq() == s@,
    {
        out.push(c);
    }
    out
}

/// `format!("{:?}", s)`: `s` in double quotes with Rust's debug escapes.
pub uninterp spec fn debug_text(s: Seq<char>) -> Seq<char>;

/// `format!("{:?}", c)`: `c` in single quotes with Rust's debug escapes.
pub uninterp spec fn debug_char_text(c: char) -> Seq<char>;

/// Calls `format!("{:?}", s)` (std's `Debug` for `str`); claims only that
/// the result is the named `debug_text` of `s`.
#[verifier::external_body]
pub(crate) fn debug_quoted(s: &str) -> (r: String)
    ensures
        r@ == debug_text(s@),
{
    format!("{:?}", s)
}

/// Calls `format!("{:?}", c)` (std's `Debug` for `char`); claims only that
/// the result is the named `debug_char_text` of `c`.
#[verifier::external_body]
pub(crate) fn debug_quoted_char(c: char) -> (r: String)
    ensures
        r@ == debug_char_text(c),
{
    format!("{:?}", c)
}

/// `format!("{:?}", s)` for a character sequence.
pub fn debug_chars(s: &Vec<char>) -> (r: Vec<char>)
    ensures
        r@ == debug_text(s@),
{
    let st = string_of(s);
    let q = debug_quoted(st.as_str());
    chars_of(q.as_str())
}

/// `char::is_alphanumeric`: the character is Unicode `Alphabetic` or
/// `Numeric`.
pub uninterp spec fn alphanumeric(c: char) -> bool;

/// Calls `char::is_alphanumeric`; claims the result is the named
/// `alphanumeric` of `c`, and (as std documents: ASCII letters are
/// alphabetic and ASCII digits numeric) that it holds for ASCII letters and
/// digits.
#[verifier::external_body]
pub(crate) fn is_alphanumeric(c: char) -> (r: bool)
    ensures
        r == alphanumeric(c),
        ('a' <= c <= 'z' || 'A' <= c <= 'Z' || '0' <= c <= '9') ==> r,
{
    c.is_alphanumeric()
}

/// `str::to_lowercase`: Unicode lowercase mapping of every character.
pub uninterp spec fn lowercase(s: Seq<char>) -> Seq<char>;

/// Calls `str::to_lowercase`; claims only that the result is the named
/// `lowercase` of `s`.
#[verifier::external_body]
pub(crate) fn to_lowercase(s: &str) -> (r: String)
    ensures
        r@ == lowercase(s@),
{
    s.to_lowercase()
}

/// `to_lowercase` on characters.
pub fn lowercase_chars(s: &Vec<char>) -> (r: Vec<char>)
    ensures
        r@ == lowercase(s@),
{
    let st = string_of(s);
    let l = to_lowercase(st.as_str());
    chars_of(l.as_str())
}

/// `s` contains `p` somewhere (`str::contains`).
pub open spec fn contains_seq(s: Seq<char>, p: Seq<char>) -> bool {
    find(s, p) is Some
}

/// `str::contains` on characters.
pub fn chars_contains(s: &Vec<char>, p: &Vec<char>) -> (r: bool)
    ensures
        r == contains_seq(s@, p@),
{
    match find_chars(s, p) {
        Some(i) => true,
        None => false,
    }
}

/// Lexicographic order of character sequences by code point (`String`'s
/// `Ord`, which compares UTF-8 bytes, orders strings the same way).
pub open spec fn seq_less(a: Seq<char>, b: Seq<char>) -> bool
    decreases a.len(),
{
    if a.len() == 0 {
        b.len() > 0
    } else if b.len() == 0 {
        false
    } else if a[0] != b[0] {
        a[0] < b[0]
    } else {
        seq_less(a.drop_first(), b.drop_first())
    }
}

/// `a < b` for strings.
pub fn chars_less(a: &Vec<char>, b: &Vec<char>) -> (r: bool)
    ensures
        r == seq_less(a@, b@),
{
    let mut i: usize = 0;
    assert(a@.skip(0) =~= a@);
    assert(b@.skip(0) =~= b@);
    while i < a.len() && i < b.len() && a[i] == b[i]
        invariant
            i <= a.len(),
            i <= b.len(),
            seq_less(a@, b@) == seq_less(a@.skip(i as int), b@.skip(i as int)),
        decreases a.len() - i,
    {
        assert(a@.skip(i as int).drop_first() =~= a@.skip(i + 1));
        assert(b@.skip(i as int).drop_first() =~= b@.skip(i + 1));
        i += 1;
    }
    if i == a.len() {
        i < b.len()
    } else if i == b.len() {
        false
    } else {
        a[i] < b[i]
    }
}

pub proof fn lemma_seq_less_irreflexive(a: Seq<char>)
    ensures
        !seq_less(a, a),
    decreases a.len(),
{
    if a.len() > 0 {
        lemma_seq_less_irreflexive(a.drop_first());
    }
}

pub proof fn lemma_seq_less_total(a: Seq<char>, b: Seq<char>)
    ensures
        a == b || seq_less(a, b) || seq_less(b, a),
    decreases a.len(),
{
    if a.len() > 0 && b.len() > 0 && a[0] == b[0] {
        lemma_seq_less_total(a.drop_first(), b.drop_first());
        if a.drop_first() == b.drop_first() {
            assert(a =~= seq![a[0]] + a.drop_first());
            assert(b =~= seq![b[0]] + b.drop_first());
        }
    }
    if a.len() == 0 && b.len() == 0 {
        assert(a =~= b);
    }
}

pub proof fn lemma_seq_less_transitive(a: Seq<char>, b: Seq<char>, c: Seq<char>)
    requires
        seq_less(a, b),
        seq_less(b, c),
    ensures
        seq_less(a, c),
    decreases a.len(),
{
    if a.len() > 0 && b.len() > 0 && c.len() > 0 && a[0] == b[0] && b[0] == c[0] {
        lemma_seq_less_transitive(a.drop_first(), b.drop_first(), c.drop_first());
    }
}

pub proof fn lemma_seq_less_asymmetric(a: Seq<char>, b: Seq<char>)
    requires
        seq_less(a, b),
    ensures
        !seq_less(b, a),
    decreases a.len(),
{
    if a.len() > 0 && b.len() > 0 && a[0] == b[0] {
        lemma_seq_less_asymmetric(a.drop_first(), b.drop_first());
    }
}

/// `pieces.join(sep)`.
pub open spec fn join(pieces: Seq<Seq<char>>, sep: Seq<char>) -> Seq<char>
    decreases pieces.len(),
{
    if pieces.len() == 0 {
        Seq::empty()
    } else if pieces.len() == 1 {
        pieces[0]
    } else {
        join(pieces.drop_last(), sep) + sep + pieces.last()
    }
}

/// The characters of each piece.
pub open spec fn pieces_view(pieces: Seq<Vec<char>>) -> Seq<Seq<char>> {
    pieces.map_values(|p: Vec<char>| p@)
}

/// `pieces.join(sep)` on characters.
pub fn join_chars(pieces: &Vec<Vec<char>>, sep: &str) -> (r: Vec<char>)
    ensures
        r@ == join(pieces_view(pieces@), sep@),
{
    let ghost pv = pieces_view(pieces@);
    let mut out: Vec<char> = Vec::new();
    let mut i: usize = 0;
    while i < pieces.len()
        invariant
            i <= pieces.len(),
            pv == pieces_view(pieces@),
            out@ == join(pv.take(i as int), sep@),
        decreases pieces.len() - i,
    {
        assert(pv.take(i + 1).drop_last() =~= pv.take(i as int));
        if i > 0 {
            append_str(&mut out, sep);
        } else {
            assert(out@ =~= Seq::<char>::empty());
        }
        append_chars(&mut out, &pieces[i]);
        assert(pv.take(i + 1).last() == pieces@[i as int]@);
        if i == 0 {
            assert(out@ =~= pv.take(1)[0]);
        }
        i += 1;
    }
    assert(pv.take(pieces.len() as int) =~= pv);
    out
}

/// Appends one character (`String::push`).
#[verifier::external_body]
pub(crate) fn push_char(s: &mut String, c: char)
    ensures
        final(s)@ == old(s)@.push(c),
{
    s.push(c);
}

/// A `String` holding exactly the given characters.
pub fn string_of(v: &Vec<char>) -> (r: String)
    ensures
        r@ == v@,
{
    let mut out = String::new();
    let mut i: usize = 0;
    while i < v.len()
        invariant
            i <= v.len(),
            out@ == v@.take(i as int),
        decreases v.len() - i,
    {
        push_char(&mut out, v[i]);
        assert(v@.take(i as int).push(v@[i as int]) =~= v@.take(i + 1));
        i += 1;
    }
    assert(v@.take(v.len() as int) =~= v@);
    out
}

/// The ASCII digit for `d < 10`.
pub fn digit_to_char(d: u32) -> (c: char)
    requires
        d < 10,
    ensures
        c == (d + 48) as char,
        '0' <= c <= '9',
{
    match d {
        0 => '0',
        1 => '1',
        2 => '2',
        3 => '3',
        4 => '4',
        5 => '5',
        6 => '6',
        7 => '7',
        8 => '8',
        _ => '9',
    }
}


// ---------------------------------------------------------------------
// Whitespace and trimming
// ---------------------------------------------------------------------

/// `char::is_whitespace`: the Unicode `White_Space` property.
pub open spec fn is_ws(c: char) -> bool {
    ('\u{9}' <= c <= '\u{d}') || c == ' ' || c == '\u{85}' || c == '\u{a0}' || c == '\u{1680}'
        || ('\u{2000}' <= c <= '\u{200a}') || c == '\u{2028}' || c == '\u{2029}' || c == '\u{202f}'
        || c == '\u{205f}' || c == '\u{3000}'
}

/// `char::is_whitespace`.
pub fn is_whitespace(c: char) -> (r: bool)
    ensures
        r == is_ws(c),
{
    ('\u{9}' <= c && c <= '\u{d}') || c == ' ' || c == '\u{85}' || c == '\u{a0}' || c == '\u{1680}'
        || ('\u{2000}' <= c && c <= '\u{200a}') || c == '\u{2028}' || c == '\u{2029}' || c
        == '\u{202f}' || c == '\u{205f}' || c == '\u{3000}'
}

/// Index of the first non-whitespace character at or after `i` (or the length).
pub open spec fn skip_ws(s: Seq<char>, i: int) -> int
    decreases s.len() - i,
{
    if i >= s.len() || i < 0 {
        i
    } else if is_ws(s[i]) {
        skip_ws(s, i + 1)
    } else {
        i
    }
}

/// One past the last non-whitespace character at or before `j - 1` (or 0).
pub open spec fn skip_ws_back(s: Seq<char>, j: int) -> int
    decreases j,
{
    if j <= 0 || j > s.len() {
        if j > s.len() { s.len() as int } else { 0 }
    } else if is_ws(s[j - 1]) {
        skip_ws_back(s, j - 1)
    } else {
        j
    }
}

/// `str::trim_start`.
pub open spec fn trim_start(s: Seq<char>) -> Seq<char> {
    s.skip(skip_ws(s, 0))
}

/// `str::trim_end`.
pub open spec fn trim_end(s: Seq<char>) -> Seq<char> {
    s.take(skip_ws_back(s, s.len() as int))
}

/// `str::trim`.
pub open spec fn trim(s: Seq<char>) -> Seq<char> {
    trim_end(trim_start(s))
}

pub proof fn lemma_skip_ws(s: Seq<char>, i: int)
    requires
        0 <= i <= s.len(),
    ensures
        i <= skip_ws(s, i) <= s.len(),
        forall|k: int| i <= k < skip_ws(s, i) ==> is_ws(#[trigger] s[k]),
        skip_ws(s, i) < s.len() ==> !is_ws(s[skip_ws(s, i)]),
    decreases s.len() - i,
{
    if i < s.len() && is_ws(s[i]) {
        lemma_skip_ws(s, i + 1);
    }
}

pub proof fn lemma_skip_ws_back(s: Seq<char>, j: int)
    requires
        0 <= j <= s.len(),
    ensures
        0 <= skip_ws_back(s, j) <= j,
        forall|k: int| skip_ws_back(s, j) <= k < j ==> is_ws(#[trigger] s[k]),
        skip_ws_back(s, j) > 0 ==> !is_ws(s[skip_ws_back(s, j) - 1]),
    decreases j,
{
    if j > 0 && is_ws(s[j - 1]) {
        lemma_skip_ws_back(s, j - 1);
    }
}

/// Trimming twice is trimming once.
pub proof fn lemma_trim_idempotent(s: Seq<char>)
    ensures
        trim(trim(s)) == trim(s),
{
    let u = trim_start(s);
    lemma_skip_ws(s, 0);
    lemma_skip_ws_back(u, u.len() as int);
    let t = trim(s);
    assert(t =~= u.take(skip_ws_back(u, u.len() as int)));
    if t.len() > 0 {
        assert(t[0] == u[0]);
        assert(!is_ws(t[0]));
        assert(skip_ws(t, 0) == 0);
        assert(t.skip(0) =~= t);
        assert(t[t.len() - 1] == u[t.len() - 1]);
        assert(skip_ws_back(t, t.len() as int) == t.len());
        assert(t.take(t.len() as int) =~= t);
    } else {
        assert(trim(t) =~= t);
    }
}

/// Index of the first whitespace character at or after `i` (or the length).
pub open spec fn next_ws(s: Seq<char>, i: int) -> int
    decreases s.len() - i,
{
    if i >= s.len() || i < 0 {
        s.len() as int
    } else if is_ws(s[i]) {
        i
    } else {
        next_ws(s, i + 1)
    }
}

pub proof fn lemma_next_ws(s: Seq<char>, i: int)
    requires
        0 <= i <= s.len(),
    ensures
        i <= next_ws(s, i) <= s.len(),
        forall|k: int| i <= k < next_ws(s, i) ==> !is_ws(#[trigger] s[k]),
        next_ws(s, i) < s.len() ==> is_ws(s[next_ws(s, i)]),
    decreases s.len() - i,
{
    if i < s.len() && !is_ws(s[i]) {
        lemma_next_ws(s, i + 1);
    }
}

/// `str::split_whitespace`: the maximal runs of non-whitespace characters.
pub open spec fn ws_tokens(s: Seq<char>) -> Seq<Seq<char>>
    decreases s.len(),
{
    let i = skip_ws(s, 0);
    if i >= s.len() || i < 0 {
        Seq::empty()
    } else {
        let j = next_ws(s, i);
        if j <= 0 || j > s.len() {
            Seq::empty()
        } else {
            seq![s.subrange(i, j)] + ws_tokens(s.skip(j))
        }
    }
}

/// The text before the first whitespace character (all of it if none):
/// the first piece of `splitn(2, char::is_whitespace)`.
pub open spec fn before_ws(s: Seq<char>) -> Seq<char> {
    s.take(next_ws(s, 0))
}

/// The text after the first whitespace character, if there is one: the
/// second piece of `splitn(2, char::is_whitespace)`.
pub open spec fn after_ws(s: Seq<char>) -> Option<Seq<char>> {
    if next_ws(s, 0) < s.len() {
        Some(s.skip(next_ws(s, 0) + 1))
    } else {
        None
    }
}

/// The text before the first `c` (all of it if none).
pub open spec fn before_char(s: Seq<char>, c: char) -> Seq<char> {
    match index_of_char(s, c) {
        Some(i) => s.take(i),
        None => s,
    }
}

/// The text after the first `c`, if there is one.
pub open spec fn after_char(s: Seq<char>, c: char) -> Option<Seq<char>> {
    match index_of_char(s, c) {
        Some(i) => Some(s.skip(i + 1)),
        None => None,
    }
}

/// [`skip_ws`] on characters.
pub fn skip_ws_exec(s: &Vec<char>, from: usize) -> (r: usize)
    requires
        from <= s.len(),
    ensures
        r == skip_ws(s@, from as int),
        from <= r <= s.len(),
{
    let mut i = from;
    while i < s.len() && is_whitespace(s[i])
        invariant
            from <= i <= s.len(),
            skip_ws(s@, from as int) == skip_ws(s@, i as int),
        decreases s.len() - i,
    {
        i += 1;
    }
    i
}

/// [`next_ws`] on characters.
pub fn next_ws_exec(s: &Vec<char>, from: usize) -> (r: usize)
    requires
        from <= s.len(),
    ensures
        r == next_ws(s@, from as int),
        from <= r <= s.len(),
{
    let mut i = from;
    while i < s.len() && !is_whitespace(s[i])
        invariant
            from <= i <= s.len(),
            next_ws(s@, from as int) == next_ws(s@, i as int),
        decreases s.len() - i,
    {
        i += 1;
    }
    i
}

/// `str::split_whitespace` on characters.
pub fn ws_tokens_chars(s: &Vec<char>) -> (r: Vec<Vec<char>>)
    ensures
        pieces_view(r@) == ws_tokens(s@),
    decreases s.len(),
{
    let i = skip_ws_exec(s, 0);
    if i >= s.len() {
        let r: Vec<Vec<char>> = Vec::new();
        assert(pieces_view(r@) =~= ws_tokens(s@));
        return r;
    }
    let j = next_ws_exec(s, i);
    proof {
        lemma_skip_ws(s@, 0);
        lemma_next_ws(s@, i as int);
    }
    let tok = slice_chars(s, i, j);
    let rest = slice_chars(s, j, s.len());
    assert(rest@ =~= s@.skip(j as int));
    let mut tail = ws_tokens_chars(&rest);
    let ghost tv = tail@;
    let mut out: Vec<Vec<char>> = Vec::new();
    out.push(tok);
    out.append(&mut tail);
    assert(pieces_view(out@) =~= seq![s@.subrange(i as int, j as int)] + pieces_view(tv));
    out
}

/// Index of the first `c` at or after `i` (or the length).
pub open spec fn next_char(s: Seq<char>, c: char, i: int) -> int
    decreases s.len() - i,
{
    if i >= s.len() || i < 0 {
        s.len() as int
    } else if s[i] == c {
        i
    } else {
        next_char(s, c, i + 1)
    }
}

pub proof fn lemma_next_char(s: Seq<char>, c: char, i: int)
    requires
        0 <= i <= s.len(),
    ensures
        i <= next_char(s, c, i) <= s.len(),
        forall|k: int| i <= k < next_char(s, c, i) ==> #[trigger] s[k] != c,
        next_char(s, c, i) < s.len() ==> s[next_char(s, c, i)] == c,
    decreases s.len() - i,
{
    if i < s.len() && s[i] != c {
        lemma_next_char(s, c, i + 1);
    }
}

/// [`next_char`] on characters.
pub fn next_char_exec(s: &Vec<char>, c: char, from: usize) -> (r: usize)
    requires
        from <= s.len(),
    ensures
        r == next_char(s@, c, from as int),
        from <= r <= s.len(),
{
    let mut i = from;
    while i < s.len() && s[i] != c
        invariant
            from <= i <= s.len(),
            next_char(s@, c, from as int) == next_char(s@, c, i as int),
        decreases s.len() - i,
    {
        i += 1;
    }
    i
}

/// `s[i..j]` as a new vector.
pub fn slice_chars(s: &Vec<char>, i: usize, j: usize) -> (r: Vec<char>)
    requires
        i <= j <= s.len(),
    ensures
        r@ == s@.subrange(i as int, j as int),
{
    let mut out: Vec<char> = Vec::new();
    let mut k = i;
    while k < j
        invariant
            i <= k <= j <= s.len(),
            out@ == s@.subrange(i as int, k as int),
        decreases j - k,
    {
        out.push(s[k]);
        assert(s@.subrange(i as int, k as int).push(s@[k as int]) =~= s@.subrange(i as int, k + 1));
        k += 1;
    }
    out
}

/// `str::trim_start`.
pub fn trim_start_chars(s: &Vec<char>) -> (r: Vec<char>)
    ensures
        r@ == trim_start(s@),
{
    let mut i: usize = 0;
    while i < s.len() && is_whitespace(s[i])
        invariant
            i <= s.len(),
            skip_ws(s@, 0) == skip_ws(s@, i as int),
        decreases s.len() - i,
    {
        i += 1;
    }
    slice_chars(s, i, s.len())
}

/// `str::trim_end`.
pub fn trim_end_chars(s: &Vec<char>) -> (r: Vec<char>)
    ensures
        r@ == trim_end(s@),
{
    let mut j: usize = s.len();
    while j > 0 && is_whitespace(s[j - 1])
        invariant
            j <= s.len(),
            skip_ws_back(s@, s.len() as int) == skip_ws_back(s@, j as int),
        decreases j,
    {
        j -= 1;
    }
    slice_chars(s, 0, j)
}

/// `str::trim`.
pub fn trim_chars(s: &Vec<char>) -> (r: Vec<char>)
    ensures
        r@ == trim(s@),
{
    let t = trim_start_chars(s);
    trim_end_chars(&t)
}

// ---------------------------------------------------------------------
// Comparing, searching and splitting
// ---------------------------------------------------------------------

/// Equality of two character sequences.
pub fn chars_eq(a: &Vec<char>, b: &Vec<char>) -> (r: bool)
    ensures
        r == (a@ == b@),
{
    if a.len() != b.len() {
        return false;
    }
    let mut i: usize = 0;
    while i < a.len()
        invariant
            a.len() == b.len(),
            i <= a.len(),
            a@.take(i as int) == b@.take(i as int),
        decreases a.len() - i,
    {
        if a[i] != b[i] {
            assert(a@[i as int] != b@[i as int]);
            return false;
        }
        assert(a@.take(i + 1) =~= a@.take(i as int).push(a@[i as int]));
        assert(b@.take(i + 1) =~= b@.take(i as int).push(b@[i as int]));
        i += 1;
    }
    assert(a@.take(a.len() as int) =~= a@);
    assert(b@.take(b.len() as int) =~= b@);
    true
}

/// Equality of a character sequence with a string.
pub fn chars_eq_str(a: &Vec<char>, b: &str) -> (r: bool)
    ensures
        r == (a@ == b@),
{
    let bv = chars_of(b);
    chars_eq(a, &bv)
}

/// `s` starts with `p`.
pub open spec fn starts_with(s: Seq<char>, p: Seq<char>) -> bool {
    p.len() <= s.len() && s.take(p.len() as int) == p
}

/// `str::starts_with`.
pub fn chars_starts_with(s: &Vec<char>, p: &Vec<char>) -> (r: bool)
    ensures
        r == starts_with(s@, p@),
{
    if p.len() > s.len() {
        return false;
    }
    let head = slice_chars(s, 0, p.len());
    assert(head@ =~= s@.take(p.len() as int));
    chars_eq(&head, p)
}

/// `p` occurs in `s` at position `i`.
pub open spec fn occurs_at(s: Seq<char>, p: Seq<char>, i: int) -> bool {
    0 <= i && i + p.len() <= s.len() && s.subrange(i, i + p.len()) == p
}

/// `str::find`: the first position of `p` in `s`.
#[verifier::opaque]
pub open spec fn find(s: Seq<char>, p: Seq<char>) -> Option<int> {
    if exists|i: int| occurs_at(s, p, i) {
        Some(choose|i: int| occurs_at(s, p, i) && forall|j: int| 0 <= j < i ==> !occurs_at(s, p, j))
    } else {
        None
    }
}

pub proof fn lemma_find_first(s: Seq<char>, p: Seq<char>, i: int)
    requires
        occurs_at(s, p, i),
        forall|j: int| 0 <= j < i ==> !occurs_at(s, p, j),
    ensures
        find(s, p) == Some(i),
{
    reveal(find);
    assert(occurs_at(s, p, i) && forall|j: int| 0 <= j < i ==> !occurs_at(s, p, j));
    let k = choose|k: int| occurs_at(s, p, k) && forall|j: int| 0 <= j < k ==> !occurs_at(s, p, j);
    if k < i {
        assert(!occurs_at(s, p, k));
    } else if k > i {
        assert(!occurs_at(s, p, i));
    }
}

/// `str::find` on characters.
pub fn find_chars(s: &Vec<char>, p: &Vec<char>) -> (r: Option<usize>)
    ensures
        match r {
            Some(i) => find(s@, p@) == Some(i as int) && occurs_at(s@, p@, i as int),
            None => find(s@, p@) is None,
        },
{
    reveal(find);
    if p.len() > s.len() {
        assert forall|i: int| !occurs_at(s@, p@, i) by {}
        return None;
    }
    if p.len() == 0 {
        proof {
            assert(s@.subrange(0, 0) =~= p@);
            assert(occurs_at(s@, p@, 0));
            lemma_find_first(s@, p@, 0);
        }
        return Some(0);
    }
    let mut i: usize = 0;
    while i <= s.len() - p.len()
        invariant
            1 <= p.len() <= s.len(),
            i <= s.len() - p.len() + 1,
            forall|j: int| 0 <= j < i ==> !occurs_at(s@, p@, j),
        decreases s.len() - i,
    {
        let w = slice_chars(s, i, i + p.len());
        if chars_eq(&w, p) {
            proof {
                lemma_find_first(s@, p@, i as int);
            }
            return Some(i);
        }
        i += 1;
    }
    assert forall|j: int| !occurs_at(s@, p@, j) by {
        if 0 <= j && j + p.len() <= s.len() {
            assert(j < i);
        }
    }
    None
}

/// `str::split(c)`: the pieces between occurrences of `c` (at least one).
#[verifier::opaque]
pub open spec fn split_char(s: Seq<char>, c: char) -> Seq<Seq<char>>
    decreases s.len(),
{
    match index_of_char(s, c) {
        Some(i) => if 0 <= i < s.len() {
            seq![s.take(i)] + split_char(s.skip(i + 1), c)
        } else {
            seq![s]
        },
        None => seq![s],
    }
}

/// The first index of `c` in `s`.
#[verifier::opaque]
pub open spec fn index_of_char(s: Seq<char>, c: char) -> Option<int> {
    if exists|i: int| 0 <= i < s.len() && s[i] == c {
        Some(choose|i: int| 0 <= i < s.len() && s[i] == c && forall|j: int| 0 <= j < i ==> s[j] != c)
    } else {
        None
    }
}

pub proof fn lemma_index_of_char(s: Seq<char>, c: char, i: int)
    requires
        0 <= i <= s.len(),
        forall|j: int| 0 <= j < i ==> s[j] != c,
        i < s.len() ==> s[i] == c,
    ensures
        index_of_char(s, c) == (if i < s.len() { Some(i) } else { None::<int> }),
{
    reveal(index_of_char);
    if i < s.len() {
        let k = choose|k: int| 0 <= k < s.len() && s[k] == c && forall|j: int| 0 <= j < k ==> s[j] != c;
        assert(0 <= i < s.len() && s[i] == c && forall|j: int| 0 <= j < i ==> s[j] != c);
        if k < i {
            assert(s[k] != c);
        } else if k > i {
            assert(s[i] != c);
        }
    }
}

/// The first index of `c` at or after `from`.
pub fn index_of_char_from(s: &Vec<char>, c: char, from: usize) -> (r: Option<usize>)
    requires
        from <= s.len(),
    ensures
        match r {
            Some(i) => index_of_char(s@.skip(from as int), c) == Some(i - from) && from <= i < s.len(),
            None => index_of_char(s@.skip(from as int), c) is None,
        },
{
    let mut i = from;
    while i < s.len()
        invariant
            from <= i <= s.len(),
            forall|j: int| from <= j < i ==> s@[j] != c,
        decreases s.len() - i,
    {
        if s[i] == c {
            proof {
                lemma_index_of_char(s@.skip(from as int), c, i - from);
            }
            return Some(i);
        }
        i += 1;
    }
    proof {
        lemma_index_of_char(s@.skip(from as int), c, s.len() - from);
    }
    None
}

pub proof fn lemma_split_some(s: Seq<char>, c: char, i: int)
    requires
        index_of_char(s, c) == Some(i),
        0 <= i < s.len(),
    ensures
        split_char(s, c) == seq![s.take(i)] + split_char(s.skip(i + 1), c),
{
    reveal(split_char);
}

pub proof fn lemma_split_none(s: Seq<char>, c: char)
    requires
        index_of_char(s, c) is None,
    ensures
        split_char(s, c) == seq![s],
{
    reveal(split_char);
}

/// Joining a piece in front of at least one more.
pub proof fn lemma_join_prepend(a: Seq<char>, rest: Seq<Seq<char>>, sep: Seq<char>)
    requires
        rest.len() > 0,
    ensures
        join(seq![a] + rest, sep) == a + sep + join(rest, sep),
    decreases rest.len(),
{
    let all = seq![a] + rest;
    assert(all.drop_last() =~= seq![a] + rest.drop_last());
    assert(all.last() == rest.last());
    if rest.len() == 1 {
        assert(all.drop_last() =~= seq![a]);
        assert(join(seq![a], sep) == a);
        assert(join(rest, sep) == rest[0]);
        assert(join(all, sep) == join(all.drop_last(), sep) + sep + all.last());
    } else {
        lemma_join_prepend(a, rest.drop_last(), sep);
        assert(join(all, sep) == join(all.drop_last(), sep) + sep + all.last());
        assert(join(rest, sep) == join(rest.drop_last(), sep) + sep + rest.last());
        assert(join(all, sep) =~= a + sep + join(rest, sep));
    }
}

/// Joining two non-empty runs of pieces: the first, the separator, the
/// second.
pub proof fn lemma_join_concat(a: Seq<Seq<char>>, b: Seq<Seq<char>>, sep: Seq<char>)
    requires
        a.len() > 0,
        b.len() > 0,
    ensures
        join(a + b, sep) == join(a, sep) + sep + join(b, sep),
    decreases b.len(),
{
    let all = a + b;
    assert(all.drop_last() =~= a + b.drop_last());
    assert(all.last() == b.last());
    if b.len() == 1 {
        assert(all.drop_last() =~= a);
        assert(join(b, sep) == b[0]);
    } else {
        lemma_join_concat(a, b.drop_last(), sep);
        assert(join(b, sep) == join(b.drop_last(), sep) + sep + b.last());
        assert(join(all, sep) =~= join(a, sep) + sep + join(b, sep));
    }
}

/// Where `index_of_char` finds `c`, `c` is there.
proof fn lemma_index_found(s: Seq<char>, c: char)
    ensures
        match index_of_char(s, c) {
            Some(i) => 0 <= i < s.len() && s[i] == c,
            None => true,
        },
{
    reveal(index_of_char);
    if exists|i: int| 0 <= i < s.len() && s[i] == c {
        let k = choose|i: int| 0 <= i < s.len() && s[i] == c;
        lemma_first_index(s, c, k);
    }
}

/// Where `c` occurs, it occurs first somewhere.
proof fn lemma_first_index(s: Seq<char>, c: char, k: int)
    requires
        0 <= k < s.len(),
        s[k] == c,
    ensures
        exists|i: int| 0 <= i < s.len() && s[i] == c && forall|j: int| 0 <= j < i ==> s[j] != c,
    decreases k,
{
    if exists|j: int| 0 <= j < k && s[j] == c {
        let j = choose|j: int| 0 <= j < k && s[j] == c;
        lemma_first_index(s, c, j);
    } else {
        assert(forall|j: int| 0 <= j < k ==> s[j] != c);
    }
}

/// Joining the pieces of a split with the separator gives the text back.
pub proof fn lemma_join_split(s: Seq<char>, c: char)
    ensures
        join(split_char(s, c), seq![c]) == s,
    decreases s.len(),
{
    lemma_index_found(s, c);
    match index_of_char(s, c) {
        Some(i) => {
            lemma_split_some(s, c, i);
            let rest = s.skip(i + 1);
            lemma_join_split(rest, c);
            lemma_split_len(rest, c);
            lemma_join_prepend(s.take(i), split_char(rest, c), seq![c]);
            assert(s =~= s.take(i) + seq![c] + rest);
        },
        None => {
            lemma_split_none(s, c);
        },
    }
}

/// Trimming never lengthens.
pub proof fn lemma_trim_len(s: Seq<char>)
    ensures
        trim(s).len() <= s.len(),
{
    lemma_skip_ws(s, 0);
    let u = trim_start(s);
    lemma_skip_ws_back(u, u.len() as int);
}

/// Splitting yields at least one piece.
pub proof fn lemma_split_len(s: Seq<char>, c: char)
    ensures
        split_char(s, c).len() >= 1,
{
    reveal(split_char);
}

/// `str::split(c)` on characters.
pub fn split_chars(s: &Vec<char>, c: char) -> (r: Vec<Vec<char>>)
    ensures
        r@.len() == split_char(s@, c).len(),
        forall|k: int| 0 <= k < r@.len() ==> #[trigger] r@[k]@ == split_char(s@, c)[k],
{
    let mut out: Vec<Vec<char>> = Vec::new();
    let ghost mut done: Seq<Seq<char>> = Seq::empty();
    let mut start: usize = 0;
    assert(s@.skip(0) =~= s@);
    loop
        invariant
            start <= s.len(),
            out@.len() == done.len(),
            forall|k: int| 0 <= k < out@.len() ==> #[trigger] out@[k]@ == done[k],
            done + split_char(s@.skip(start as int), c) == split_char(s@, c),
        decreases s.len() - start,
    {
        let ghost rest = s@.skip(start as int);
        match index_of_char_from(s, c, start) {
            Some(i) => {
                let piece = slice_chars(s, start, i);
                assert(piece@ =~= rest.take(i - start));
                assert(rest.skip(i - start + 1) =~= s@.skip(i + 1));
                proof {
                    lemma_split_some(rest, c, i - start);
                    assert(done.push(piece@) + split_char(s@.skip(i + 1), c) =~= done + (seq![piece@] + split_char(s@.skip(i + 1), c)));
                    done = done.push(piece@);
                }
                out.push(piece);
                start = i + 1;
            },
            None => {
                let piece = slice_chars(s, start, s.len());
                assert(piece@ =~= rest);
                proof {
                    lemma_split_none(rest, c);
                    assert(done + seq![rest] =~= done.push(piece@));
                    done = done.push(piece@);
                }
                out.push(piece);
                return out;
            },
        }
    }
}

// ---------------------------------------------------------------------
// Integers as text
// ---------------------------------------------------------------------

/// Decimal digits of `n`, most significant first; `"0"` for zero.
pub open spec fn uint_text(n: nat) -> Seq<char> {
    if n == 0 {
        seq!['0']
    } else {
        crate::decimal::digits(n)
    }
}

/// `n.to_string()` for an integer.
pub open spec fn int_text(n: int) -> Seq<char> {
    if n < 0 {
        seq!['-'] + uint_text((-n) as nat)
    } else {
        uint_text(n as nat)
    }
}

/// `format!("{:0width$}", n)`: sign, then zeros, then digits, at least
/// `width` characters in all.
pub open spec fn zero_padded(n: int, width: nat) -> Seq<char> {
    let sign: Seq<char> = if n < 0 { seq!['-'] } else { Seq::empty() };
    let body = uint_text(crate::decimal::abs_int(n));
    if sign.len() + body.len() >= width {
        sign + body
    } else {
        sign + crate::decimal::repeat_char('0', (width - sign.len() - body.len()) as nat) + body
    }
}

/// The decimal digits of `n`.
pub fn uint_chars(n: u64) -> (r: Vec<char>)
    ensures
        r@ == uint_text(n as nat),
        r@.len() >= 1,
{
    if n == 0 {
        let mut v: Vec<char> = Vec::new();
        v.push('0');
        assert(v@ =~= seq!['0']);
        return v;
    }
    let mut rev: Vec<char> = Vec::new();
    let mut m: u64 = n;
    while m > 0
        invariant
            crate::decimal::digits(n as nat) == crate::decimal::digits(m as nat) + rev@.reverse(),
            m == 0 ==> rev@.len() >= 1,
            m < n ==> rev@.len() >= 1,
            m <= n,
        decreases m,
    {
        let d = (m % 10) as u32;
        let c = digit_to_char(d);
        assert(crate::decimal::digits(m as nat) == crate::decimal::digits((m / 10) as nat).push(
            crate::decimal::digit_char((m % 10) as nat),
        ));
        rev.push(c);
        assert(rev@.reverse() =~= seq![c] + rev@.drop_last().reverse());
        m = m / 10;
    }
    let mut out: Vec<char> = Vec::new();
    let mut i: usize = rev.len();
    while i > 0
        invariant
            i <= rev.len(),
            out@ == rev@.skip(i as int).reverse(),
        decreases i,
    {
        i -= 1;
        out.push(rev[i]);
        assert(rev@.skip(i as int).reverse() =~= rev@.skip(i + 1).reverse().push(rev@[i as int]));
    }
    assert(rev@.skip(0) =~= rev@);
    assert(crate::decimal::digits(0) =~= Seq::<char>::empty());
    out
}

/// `n.to_string()`.
pub fn int_chars(n: i64) -> (r: Vec<char>)
    ensures
        r@ == int_text(n as int),
{
    if n < 0 {
        let mag: u64 = (0i128 - n as i128) as u64;
        let body = uint_chars(mag);
        let mut out: Vec<char> = Vec::new();
        out.push('-');
        append_chars(&mut out, &body);
        assert(out@ =~= seq!['-'] + body@);
        out
    } else {
        uint_chars(n as u64)
    }
}

/// `format!("{:0width$}", n)`.
pub fn zero_padded_chars(n: i64, width: usize) -> (r: Vec<char>)
    ensures
        r@ == zero_padded(n as int, width as nat),
{
    let mag: u64 = if n < 0 { (0i128 - n as i128) as u64 } else { n as u64 };
    let body = uint_chars(mag);
    let sign_len: usize = if n < 0 { 1 } else { 0 };
    let mut out: Vec<char> = Vec::new();
    if n < 0 {
        out.push('-');
    }
    let ghost sign = out@;
    assert(sign =~= (if n < 0 { seq!['-'] } else { Seq::<char>::empty() }));
    if body.len() < width && sign_len < width - body.len() {
        let pad = width - sign_len - body.len();
        let mut k: usize = 0;
        while k < pad
            invariant
                k <= pad,
                out@ == sign + crate::decimal::repeat_char('0', k as nat),
            decreases pad - k,
        {
            out.push('0');
            assert(crate::decimal::repeat_char('0', k as nat).push('0') =~= crate::decimal::repeat_char(
                '0',
                (k + 1) as nat,
            ));
            k += 1;
        }
    }
    let ghost pre = out@;
    append_chars(&mut out, &body);
    assert(sign_len + body.len() >= width ==> pre =~= sign);
    out
}

/// Appends all of `b` to `a`.
pub fn append_chars(a: &mut Vec<char>, b: &Vec<char>)
    ensures
        final(a)@ == old(a)@ + b@,
{
    let mut i: usize = 0;
    while i < b.len()
        invariant
            i <= b.len(),
            a@ == old(a)@ + b@.take(i as int),
        decreases b.len() - i,
    {
        a.push(b[i]);
        assert(b@.take(i as int).push(b@[i as int]) =~= b@.take(i + 1));
        i += 1;
    }
    assert(b@.take(b.len() as int) =~= b@);
}

/// Appends the characters of `b` to `a`.
pub fn append_str(a: &mut Vec<char>, b: &str)
    ensures
        final(a)@ == old(a)@ + b@,
{
    let bv = chars_of(b);
    append_chars(a, &bv);
}

/// All characters are ASCII digits, and there is at least one.
pub open spec fn all_digits(s: Seq<char>) -> bool {
    s.len() > 0 && forall|i: int| 0 <= i < s.len() ==> '0' <= #[trigger] s[i] <= '9'
}

/// The number an ASCII digit string spells.
pub open spec fn digits_value(s: Seq<char>) -> nat
    decreases s.len(),
{
    if s.len() == 0 {
        0
    } else {
        10 * digits_value(s.drop_last()) + ((s.last() as int - 48) as nat)
    }
}

/// `u32::from_str`: an optional `+`, then one or more ASCII digits whose
/// value fits in 32 bits.
pub open spec fn parse_u32(s: Seq<char>) -> Option<u32> {
    let body = if s.len() > 0 && s[0] == '+' { s.drop_first() } else { s };
    if all_digits(body) && digits_value(body) <= u32::MAX {
        Some(digits_value(body) as u32)
    } else {
        None
    }
}

/// `i32::from_str`: an optional `+` or `-`, then one or more ASCII digits
/// whose signed value fits in 32 bits.
pub open spec fn parse_i32(s: Seq<char>) -> Option<i32> {
    let neg = s.len() > 0 && s[0] == '-';
    let body = if s.len() > 0 && (s[0] == '+' || s[0] == '-') { s.drop_first() } else { s };
    let v: int = if neg { -digits_value(body) } else { digits_value(body) as int };
    if all_digits(body) && i32::MIN <= v <= i32::MAX {
        Some(v as i32)
    } else {
        None
    }
}

/// The value of an ASCII digit string, or `None` once it exceeds `limit`.
fn digits_value_upto(s: &Vec<char>, start: usize, limit: u64) -> (r: Option<u64>)
    requires
        start <= s.len(),
        limit < 0x1_0000_0000_0000,
        all_digits(s@.skip(start as int)),
    ensures
        match r {
            Some(v) => v == digits_value(s@.skip(start as int)) && v <= limit,
            None => digits_value(s@.skip(start as int)) > limit,
        },
{
    let mut acc: u64 = 0;
    let mut i = start;
    while i < s.len()
        invariant
            start <= i <= s.len(),
            limit < 0x1_0000_0000_0000,
            all_digits(s@.skip(start as int)),
            acc == digits_value(s@.subrange(start as int, i as int)),
            acc <= limit,
        decreases s.len() - i,
    {
        let c = s[i];
        assert(s@.skip(start as int)[i - start] == c);
        let d: u64 = (c as u32 - 48) as u64;
        assert(s@.subrange(start as int, i + 1).drop_last() =~= s@.subrange(start as int, i as int));
        assert(s@.subrange(start as int, i + 1).last() == c);
        let next = acc * 10 + d;
        if next > limit {
            proof {
                lemma_digits_value_prefix(s@.skip(start as int), i + 1 - start);
                assert(s@.skip(start as int).take(i + 1 - start) =~= s@.subrange(start as int, i + 1));
            }
            return None;
        }
        acc = next;
        i += 1;
    }
    assert(s@.subrange(start as int, s.len() as int) =~= s@.skip(start as int));
    Some(acc)
}

/// A prefix of a digit string never has a larger value.
pub proof fn lemma_digits_value_prefix(s: Seq<char>, k: int)
    requires
        0 <= k <= s.len(),
        forall|i: int| 0 <= i < s.len() ==> '0' <= #[trigger] s[i] <= '9',
    ensures
        digits_value(s.take(k)) <= digits_value(s),
    decreases s.len() - k,
{
    if k < s.len() {
        lemma_digits_value_prefix(s, k + 1);
        assert(s.take(k + 1).drop_last() =~= s.take(k));
    }
    if k == s.len() {
        assert(s.take(k) =~= s);
    }
}

/// Whether every character is an ASCII digit (and there is one).
pub fn chars_all_digits(s: &Vec<char>, start: usize) -> (r: bool)
    requires
        start <= s.len(),
    ensures
        r == all_digits(s@.skip(start as int)),
{
    if start == s.len() {
        return false;
    }
    let mut i = start;
    while i < s.len()
        invariant
            start <= i <= s.len(),
            forall|j: int| start <= j < i ==> '0' <= #[trigger] s@[j] <= '9',
        decreases s.len() - i,
    {
        if !('0' <= s[i] && s[i] <= '9') {
            assert(s@.skip(start as int)[i - start] == s@[i as int]);
            return false;
        }
        i += 1;
    }
    assert forall|j: int| 0 <= j < s@.skip(start as int).len() implies '0' <= #[trigger] s@.skip(
        start as int,
    )[j] <= '9' by {
        assert(s@.skip(start as int)[j] == s@[start + j]);
    }
    true
}

/// `u32::from_str` on characters.
pub fn parse_u32_chars(s: &Vec<char>) -> (r: Option<u32>)
    ensures
        r == parse_u32(s@),
{
    let start: usize = if s.len() > 0 && s[0] == '+' { 1 } else { 0 };
    assert(start == 1 ==> s@.skip(1) =~= s@.drop_first());
    assert(start == 0 ==> s@.skip(0) =~= s@);
    if !chars_all_digits(s, start) {
        return None;
    }
    match digits_value_upto(s, start, 0xffff_ffff) {
        Some(v) => Some(v as u32),
        None => None,
    }
}

/// `i32::from_str` on characters.
pub fn parse_i32_chars(s: &Vec<char>) -> (r: Option<i32>)
    ensures
        r == parse_i32(s@),
{
    let neg = s.len() > 0 && s[0] == '-';
    let start: usize = if s.len() > 0 && (s[0] == '+' || s[0] == '-') { 1 } else { 0 };
    assert(start == 1 ==> s@.skip(1) =~= s@.drop_first());
    assert(start == 0 ==> s@.skip(0) =~= s@);
    if !chars_all_digits(s, start) {
        return None;
    }
    let limit: u64 = if neg { 0x8000_0000 } else { 0x7fff_ffff };
    match digits_value_upto(s, start, limit) {
        Some(v) => {
            if neg {
                Some((0i64 - v as i64) as i32)
            } else {
                Some(v as i32)
            }
        },
        None => None,
    }
}

} // verus!
