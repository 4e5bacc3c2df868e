//! The JAMA data model: accounts, commodities, postings, transactions and
//! the directives a ledger file is made of.
//!
//! Amounts are exact [`Decimal`]s, and arithmetic across amounts always
//! groups by commodity first: two commodities are never summed together.

use vstd::prelude::*;

use crate::date::{date_text, Date};
use crate::decimal::{add_fits, add_value, decimal_text, pow10, Decimal, DecimalValue};
use crate::text::{
    alphanumeric, append_chars, append_str, chars_contains, chars_eq, chars_eq_str, chars_of,
    contains_seq, debug_chars, debug_text, is_alphanumeric, join, lowercase, lowercase_chars,
    split_char, split_chars, starts_with, string_of, trim, trim_chars,
};
use crate::totals::{
    totals_add, totals_add_exec, totals_add_fits, totals_fits_exec, totals_get, totals_sorted, totals_view,
    zero_value,
};

verus! {

// ---------------------------------------------------------------------
// Accounts
// ---------------------------------------------------------------------

/// The five account roots every account must live under.
pub open spec fn roots() -> Seq<Seq<char>> {
    seq!["assets"@, "liabilities"@, "equity"@, "income"@, "expenses"@]
}

/// `ROOTS.join(", ")`.
pub open spec fn roots_list() -> Seq<char> {
    "assets, liabilities, equity, income, expenses"@
}

/// An ASCII letter or digit (which `char::is_alphanumeric` accepts).
pub open spec fn ascii_word_char(c: char) -> bool {
    ('a' <= c <= 'z') || ('A' <= c <= 'Z') || ('0' <= c <= '9')
}

/// A character allowed in an account segment: a letter or digit (any
/// script), `-` or `_`.
pub open spec fn segment_char(c: char) -> bool {
    ascii_word_char(c) || alphanumeric(c) || c == '-' || c == '_'
}

/// Every character of the segment is allowed.
pub open spec fn segment_ok(seg: Seq<char>) -> bool {
    forall|i: int| 0 <= i < seg.len() ==> segment_char(#[trigger] seg[i])
}

/// Index of the first segment with a disallowed character, if any.
pub open spec fn first_bad_segment(segs: Seq<Seq<char>>, k: int) -> Option<int>
    decreases segs.len() - k,
{
    if k < 0 || k >= segs.len() {
        None
    } else if !segment_ok(segs[k]) {
        Some(k)
    } else {
        first_bad_segment(segs, k + 1)
    }
}

/// What parsing an account name yields: the (trimmed) name, or the error.
pub open spec fn account_parse(raw: Seq<char>) -> Result<Seq<char>, Seq<char>> {
    let s = trim(raw);
    let segs = split_char(s, ':');
    if s.len() == 0 {
        Err("account name is empty"@)
    } else if exists|i: int| 0 <= i < segs.len() && segs[i].len() == 0 {
        Err("account "@ + debug_text(s) + " has an empty segment"@)
    } else if !roots().contains(segs[0]) {
        Err("account "@ + debug_text(s) + " must start with one of: "@ + roots_list())
    } else {
        match first_bad_segment(segs, 0) {
            Some(k) => Err("account segment "@ + debug_text(segs[k]) + " in "@ + debug_text(s)
                + " has invalid characters"@),
            None => Ok(s),
        }
    }
}

/// A well-formed account name.
pub open spec fn valid_account(s: Seq<char>) -> bool {
    account_parse(s) == Ok::<Seq<char>, Seq<char>>(s)
}

/// A colon-separated account path, e.g. `assets:checking:alrajhi`: it
/// starts with one of the five roots and has only non-empty segments of
/// letters, digits, `-` and `_`.
#[derive(Debug, PartialEq, Eq, PartialOrd, Ord, Hash)]
pub struct Account(String);

impl View for Account {
    type V = Seq<char>;

    closed spec fn view(&self) -> Seq<char> {
        self.0@
    }
}

impl Clone for Account {
    fn clone(&self) -> (r: Self)
        ensures
            r == *self,
    {
        proof {
            use_type_invariant(self);
        }
        Account(self.0.clone())
    }
}

proof fn lemma_first_bad_segment(segs: Seq<Seq<char>>, k: int)
    requires
        0 <= k <= segs.len(),
        forall|i: int| 0 <= i < k ==> segment_ok(#[trigger] segs[i]),
    ensures
        first_bad_segment(segs, 0) == first_bad_segment(segs, k),
    decreases k,
{
    if k > 0 {
        lemma_first_bad_segment(segs, k - 1);
    }
}

impl Account {
    #[verifier::type_invariant]
    spec fn well_formed(self) -> bool {
        valid_account(self.0@)
    }

    /// Parses and validates an account name (surrounding whitespace is
    /// ignored).
    pub fn parse(s: &str) -> (r: Result<Account, String>)
        ensures
            match (r, account_parse(s@)) {
                (Ok(a), Ok(t)) => a@ == t,
                (Err(e), Err(m)) => e@ == m,
                _ => false,
            },
    {
        let raw = chars_of(s);
        let t = trim_chars(&raw);
        if t.len() == 0 {
            return Err(String::from_str("account name is empty"));
        }
        let segs = split_chars(&t, ':');
        let ghost segv = split_char(t@, ':');
        let mut i: usize = 0;
        while i < segs.len()
            invariant
                i <= segs.len(),
                t@ == trim(s@),
                t@.len() > 0,
                segv == split_char(t@, ':'),
                segs@.len() == segv.len(),
                forall|k: int| 0 <= k < segs@.len() ==> #[trigger] segs@[k]@ == segv[k],
                forall|k: int| 0 <= k < i ==> segv[k].len() > 0,
            decreases segs.len() - i,
        {
            if segs[i].len() == 0 {
                let mut m = chars_of("account ");
                let q = debug_chars(&t);
                append_chars(&mut m, &q);
                append_str(&mut m, " has an empty segment");
                assert(segv[i as int].len() == 0);
                return Err(string_of(&m));
            }
            i += 1;
        }
        assert(segv.len() >= 1) by {
            crate::text::lemma_split_len(t@, ':');
        }
        let first = &segs[0];
        if !(chars_eq_str(first, "assets") || chars_eq_str(first, "liabilities") || chars_eq_str(
            first,
            "equity",
        ) || chars_eq_str(first, "income") || chars_eq_str(first, "expenses")) {
            assert(!roots().contains(segv[0])) by {
                if roots().contains(segv[0]) {
                    let k = choose|k: int| 0 <= k < roots().len() && roots()[k] == segv[0];
                }
            }
            let mut m = chars_of("account ");
            let q = debug_chars(&t);
            append_chars(&mut m, &q);
            append_str(&mut m, " must start with one of: ");
            append_str(&mut m, "assets, liabilities, equity, income, expenses");
            return Err(string_of(&m));
        }
        assert(roots().contains(segv[0])) by {
            if segv[0] == "assets"@ {
                assert(roots()[0] == segv[0]);
            } else if segv[0] == "liabilities"@ {
                assert(roots()[1] == segv[0]);
            } else if segv[0] == "equity"@ {
                assert(roots()[2] == segv[0]);
            } else if segv[0] == "income"@ {
                assert(roots()[3] == segv[0]);
            } else {
                assert(roots()[4] == segv[0]);
            }
        }
        let mut j: usize = 0;
        while j < segs.len()
            invariant
                j <= segs.len(),
                t@ == trim(s@),
                t@.len() > 0,
                segv == split_char(t@, ':'),
                segv.len() >= 1,
                roots().contains(segv[0]),
                forall|k: int| 0 <= k < segv.len() ==> segv[k].len() > 0,
                segs@.len() == segv.len(),
                forall|k: int| 0 <= k < segs@.len() ==> #[trigger] segs@[k]@ == segv[k],
                forall|k: int| 0 <= k < j ==> segment_ok(#[trigger] segv[k]),
            decreases segs.len() - j,
        {
            let seg = &segs[j];
            let mut q: usize = 0;
            while q < seg.len()
                invariant
                    j < segs.len(),
                    t@ == trim(s@),
                    t@.len() > 0,
                    segv == split_char(t@, ':'),
                    segv.len() >= 1,
                    roots().contains(segv[0]),
                    forall|k: int| 0 <= k < segv.len() ==> segv[k].len() > 0,
                    segs@.len() == segv.len(),
                    forall|k: int| 0 <= k < segs@.len() ==> #[trigger] segs@[k]@ == segv[k],
                    forall|k: int| 0 <= k < j ==> segment_ok(#[trigger] segv[k]),
                    seg@ == segv[j as int],
                    q <= seg.len(),
                    forall|k: int| 0 <= k < q ==> segment_char(#[trigger] seg@[k]),
                decreases seg.len() - q,
            {
                let c = seg[q];
                let ascii = ('a' <= c && c <= 'z') || ('A' <= c && c <= 'Z') || ('0' <= c && c <= '9');
                if !(ascii || is_alphanumeric(c) || c == '-' || c == '_') {
                    proof {
                        lemma_first_bad_segment(segv, j as int);
                        assert(!segment_ok(segv[j as int]));
                    }
                    let mut m = chars_of("account segment ");
                    let d = debug_chars(seg);
                    append_chars(&mut m, &d);
                    append_str(&mut m, " in ");
                    let d2 = debug_chars(&t);
                    append_chars(&mut m, &d2);
                    append_str(&mut m, " has invalid characters");
                    return Err(string_of(&m));
                }
                q += 1;
            }
            j += 1;
        }
        proof {
            lemma_first_bad_segment(segv, segv.len() as int);
            assert(trim(t@) == t@) by {
                crate::text::lemma_trim_idempotent(raw@);
            }
        }
        Ok(Account(string_of(&t)))
    }

    /// The account name.
    pub fn as_str(&self) -> (r: &str)
        ensures
            r@ == self@,
    {
        self.0.as_str()
    }

    /// The name as characters.
    pub fn to_chars(&self) -> (r: Vec<char>)
        ensures
            r@ == self@,
    {
        chars_of(self.0.as_str())
    }

    /// The first segment: one of the five roots.
    pub fn root(&self) -> (r: String)
        ensures
            r@ == split_char(self@, ':')[0],
    {
        let v = self.to_chars();
        let segs = split_chars(&v, ':');
        proof {
            crate::text::lemma_split_len(self@, ':');
        }
        string_of(&segs[0])
    }

    /// The number of segments.
    pub fn depth(&self) -> (r: usize)
        ensures
            r == split_char(self@, ':').len(),
    {
        let v = self.to_chars();
        let segs = split_chars(&v, ':');
        segs.len()
    }

    /// The first `depth` segments, joined by `:`.
    pub fn prefix(&self, depth: usize) -> (r: String)
        ensures
            r@ == prefix_text(self@, depth as nat),
    {
        let v = self.to_chars();
        let p = prefix_chars(&v, depth);
        string_of(&p)
    }

    /// Whether this account is `pattern` itself or a descendant of it. An
    /// empty pattern matches everything.
    pub fn matches(&self, pattern: &str) -> (r: bool)
        ensures
            r == account_matches(self@, pattern@),
    {
        let v = self.to_chars();
        let p = chars_of(pattern);
        matches_chars(&v, &p)
    }

    /// Loose, case-insensitive substring match.
    pub fn contains_loose(&self, pattern: &str) -> (r: bool)
        ensures
            r == contains_seq(lowercase(self@), lowercase(pattern@)),
    {
        let v = self.to_chars();
        let p = chars_of(pattern);
        let lv = lowercase_chars(&v);
        let lp = lowercase_chars(&p);
        chars_contains(&lv, &lp)
    }
}

/// The first `depth` segments of `s` joined by `:` (all of them when there
/// are fewer).
pub open spec fn prefix_text(s: Seq<char>, depth: nat) -> Seq<char> {
    let segs = split_char(s, ':');
    join(segs.take(if depth <= segs.len() { depth as int } else { segs.len() as int }), seq![':'])
}

/// `name` is `pattern` or lies under it; an empty pattern matches all.
pub open spec fn account_matches(name: Seq<char>, pattern: Seq<char>) -> bool {
    pattern.len() == 0 || name == pattern || starts_with(name, pattern.push(':'))
}

/// [`prefix_text`] on characters.
pub fn prefix_chars(s: &Vec<char>, depth: usize) -> (r: Vec<char>)
    ensures
        r@ == prefix_text(s@, depth as nat),
{
    let segs = split_chars(s, ':');
    let ghost segv = split_char(s@, ':');
    let n = if depth <= segs.len() { depth } else { segs.len() };
    let mut out: Vec<char> = Vec::new();
    let mut i: usize = 0;
    while i < n
        invariant
            i <= n <= segs.len(),
            segs@.len() == segv.len(),
            forall|k: int| 0 <= k < segs@.len() ==> #[trigger] segs@[k]@ == segv[k],
            out@ == join(segv.take(i as int), seq![':']),
        decreases n - i,
    {
        let ghost before = out@;
        if i > 0 {
            out.push(':');
        }
        append_chars(&mut out, &segs[i]);
        assert(segv.take(i + 1).drop_last() =~= segv.take(i as int));
        if i == 0 {
            assert(out@ =~= segv[0]);
        }
        i += 1;
    }
    out
}

/// [`account_matches`] on characters.
pub fn matches_chars(name: &Vec<char>, pattern: &Vec<char>) -> (r: bool)
    ensures
        r == account_matches(name@, pattern@),
{
    if pattern.len() == 0 {
        return true;
    }
    if chars_eq(name, pattern) {
        return true;
    }
    let mut p2: Vec<char> = Vec::new();
    append_chars(&mut p2, pattern);
    p2.push(':');
    crate::text::chars_starts_with(name, &p2)
}

// ---------------------------------------------------------------------
// Commodities, amounts, flags
// ---------------------------------------------------------------------

/// A commodity code, e.g. `SAR`, plus its display precision.
#[derive(Debug, PartialEq, Eq)]
pub struct CommodityInfo {
    pub code: String,
    pub precision: u8,
}

impl Clone for CommodityInfo {
    fn clone(&self) -> (r: Self)
        ensures
            r == *self,
    {
        CommodityInfo { code: self.code.clone(), precision: self.precision }
    }
}

impl CommodityInfo {
    pub fn new(code: String, precision: u8) -> (r: Self)
        ensures
            r.code == code,
            r.precision == precision,
    {
        CommodityInfo { code, precision }
    }
}

/// A decimal quantity tagged with its commodity.
#[derive(Debug, PartialEq, Eq)]
pub struct Amount {
    pub number: Decimal,
    pub commodity: String,
}

impl Clone for Amount {
    fn clone(&self) -> (r: Self)
        ensures
            r == *self,
    {
        Amount { number: self.number, commodity: self.commodity.clone() }
    }
}

/// `Display` of an amount: `{number} {commodity}`.
pub open spec fn amount_text(a: Amount) -> Seq<char> {
    decimal_text(a.number@) + seq![' '] + a.commodity@
}

impl Amount {
    pub fn new(number: Decimal, commodity: String) -> (r: Self)
        ensures
            r.number == number,
            r.commodity == commodity,
    {
        Amount { number, commodity }
    }

    /// `Display`: `{number} {commodity}`.
    pub fn to_chars(&self) -> (r: Vec<char>)
        ensures
            r@ == amount_text(*self),
    {
        let n = self.number.to_string();
        let mut v = chars_of(n.as_str());
        v.push(' ');
        append_str(&mut v, self.commodity.as_str());
        v
    }
}

/// An optional cost basis (`{cost}`) or price (`@ price`) on a posting.
#[derive(Debug, PartialEq, Eq)]
pub struct CostOrPrice {
    pub amount: Amount,
    /// `true` for a `{cost}` lot annotation, `false` for an `@ price`.
    pub is_cost: bool,
}

impl Clone for CostOrPrice {
    fn clone(&self) -> (r: Self)
        ensures
            r == *self,
    {
        CostOrPrice { amount: self.amount.clone(), is_cost: self.is_cost }
    }
}

/// Transaction clearing state.
#[derive(Debug, Clone, Copy, PartialEq, Eq)]
pub enum Flag {
    /// `*` — cleared / reconciled.
    Cleared,
    /// `!` — pending / needs attention.
    Pending,
}

pub open spec fn flag_char(f: Flag) -> char {
    match f {
        Flag::Cleared => '*',
        Flag::Pending => '!',
    }
}

impl Flag {
    pub fn as_char(&self) -> (r: char)
        ensures
            r == flag_char(*self),
    {
        match self {
            Flag::Cleared => '*',
            Flag::Pending => '!',
        }
    }

    pub fn parse(c: char) -> (r: Result<Flag, String>)
        ensures
            c == '*' ==> r == Ok::<Flag, String>(Flag::Cleared),
            c == '!' ==> r == Ok::<Flag, String>(Flag::Pending),
            c != '*' && c != '!' ==> (r matches Err(e) && e@ == "unknown transaction flag "@
                + crate::text::debug_char_text(c) + " (expected * or !)"@),
    {
        match c {
            '*' => Ok(Flag::Cleared),
            '!' => Ok(Flag::Pending),
            other => {
                let mut m = chars_of("unknown transaction flag ");
                let q = crate::text::debug_quoted_char(other);
                append_str(&mut m, q.as_str());
                append_str(&mut m, " (expected * or !)");
                Err(string_of(&m))
            },
        }
    }
}

// ---------------------------------------------------------------------
// Metadata
// ---------------------------------------------------------------------

/// `key: "value"` metadata, ordered by key with each key at most once (the
/// iteration order of a `BTreeMap<String, String>`).
#[derive(Debug, PartialEq, Eq)]
pub struct Meta {
    entries: Vec<(String, String)>,
}

/// Adds or replaces `k` in key order.
pub open spec fn meta_insert(es: Seq<(Seq<char>, Seq<char>)>, k: Seq<char>, v: Seq<char>) -> Seq<
    (Seq<char>, Seq<char>),
>
    decreases es.len(),
{
    if es.len() == 0 {
        seq![(k, v)]
    } else if es[0].0 == k {
        seq![(k, v)] + es.drop_first()
    } else if crate::text::seq_less(k, es[0].0) {
        seq![(k, v)] + es
    } else {
        seq![es[0]] + meta_insert(es.drop_first(), k, v)
    }
}

/// The value held for `k`, if any.
pub open spec fn meta_get(es: Seq<(Seq<char>, Seq<char>)>, k: Seq<char>) -> Option<Seq<char>>
    decreases es.len(),
{
    if es.len() == 0 {
        None
    } else if es[0].0 == k {
        Some(es[0].1)
    } else {
        meta_get(es.drop_first(), k)
    }
}

pub open spec fn meta_sorted(es: Seq<(Seq<char>, Seq<char>)>) -> bool {
    forall|i: int, j: int| 0 <= i < j < es.len() ==> crate::text::seq_less(es[i].0, es[j].0)
}

impl View for Meta {
    type V = Seq<(Seq<char>, Seq<char>)>;

    closed spec fn view(&self) -> Seq<(Seq<char>, Seq<char>)> {
        self.entries@.map_values(|e: (String, String)| (e.0@, e.1@))
    }
}

impl Clone for Meta {
    fn clone(&self) -> (r: Self)
        ensures
            r@ == self@,
    {
        proof {
            use_type_invariant(self);
        }
        let mut out: Vec<(String, String)> = Vec::new();
        let mut i: usize = 0;
        while i < self.entries.len()
            invariant
                i <= self.entries.len(),
                out@.len() == i,
                forall|k: int| 0 <= k < i ==> #[trigger] out@[k] == self.entries@[k],
            decreases self.entries.len() - i,
        {
            let e = &self.entries[i];
            out.push((e.0.clone(), e.1.clone()));
            i += 1;
        }
        assert(out@ =~= self.entries@);
        let r = Meta { entries: out };
        r
    }
}

impl Meta {
    #[verifier::type_invariant]
    spec fn sorted(self) -> bool {
        meta_sorted(self@)
    }

    /// No metadata.
    pub fn new() -> (r: Meta)
        ensures
            r@ == Seq::<(Seq<char>, Seq<char>)>::empty(),
    {
        let r = Meta { entries: Vec::new() };
        assert(r@ =~= Seq::<(Seq<char>, Seq<char>)>::empty());
        r
    }

    /// The number of keys.
    pub fn len(&self) -> (r: usize)
        ensures
            r == self@.len(),
    {
        self.entries.len()
    }

    /// The `i`-th entry in key order.
    pub fn entry(&self, i: usize) -> (r: (&String, &String))
        requires
            i < self@.len(),
        ensures
            r.0@ == self@[i as int].0,
            r.1@ == self@[i as int].1,
    {
        let e = &self.entries[i];
        (&e.0, &e.1)
    }

    /// The value of `key`, if present (`BTreeMap::get`).
    pub fn get(&self, key: &str) -> (r: Option<&String>)
        ensures
            match (r, meta_get(self@, key@)) {
                (Some(v), Some(w)) => v@ == w,
                (None, None) => true,
                _ => false,
            },
    {
        let kc = chars_of(key);
        let mut i: usize = 0;
        assert(self@.skip(0) =~= self@);
        while i < self.entries.len()
            invariant
                i <= self.entries.len(),
                kc@ == key@,
                meta_get(self@, key@) == meta_get(self@.skip(i as int), key@),
            decreases self.entries.len() - i,
        {
            let e = chars_of(self.entries[i].0.as_str());
            assert(self@.skip(i as int)[0] == self@[i as int]);
            assert(self@.skip(i as int).drop_first() =~= self@.skip(i + 1));
            if chars_eq(&e, &kc) {
                return Some(&self.entries[i].1);
            }
            i += 1;
        }
        None
    }

    /// Keys are strictly increasing.
    pub fn keys_sorted(&self)
        ensures
            meta_sorted(self@),
    {
        proof {
            use_type_invariant(self);
        }
    }

    /// Adds or replaces `key` (`BTreeMap::insert`).
    pub fn insert(&mut self, key: String, value: String)
        ensures
            final(self)@ == meta_insert(old(self)@, key@, value@),
    {
        proof {
            use_type_invariant(&*self);
            lemma_meta_insert_sorted(self@, key@, value@);
        }
        let ghost m0 = self@;
        let kc = chars_of(key.as_str());
        let mut i: usize = 0;
        assert(m0.skip(0) =~= m0);
        while i < self.entries.len()
            invariant
                i <= self.entries.len(),
                m0 == self@,
                m0 == old(self)@,
                meta_sorted(meta_insert(m0, key@, value@)),
                kc@ == key@,
                meta_insert(m0, key@, value@) == m0.take(i as int) + meta_insert(m0.skip(i as int), key@, value@),
            decreases self.entries.len() - i,
        {
            let ek = chars_of(self.entries[i].0.as_str());
            assert(m0.skip(i as int)[0] == m0[i as int]);
            assert(m0.skip(i as int).drop_first() =~= m0.skip(i + 1));
            if chars_eq(&ek, &kc) || crate::text::chars_less(&kc, &ek) {
                let replace = chars_eq(&ek, &kc);
                let mut entries: Vec<(String, String)> = Vec::new();
                std::mem::swap(&mut entries, &mut self.entries);
                if replace {
                    entries.set(i, (key, value));
                } else {
                    entries.insert(i, (key, value));
                }
                let ghost ev = entries@.map_values(|e: (String, String)| (e.0@, e.1@));
                assert(ev =~= m0.take(i as int) + meta_insert(m0.skip(i as int), key@, value@));
                self.entries = entries;
                return;
            }
            assert(m0.take(i + 1) =~= m0.take(i as int).push(m0[i as int]));
            assert(m0.take(i as int) + meta_insert(m0.skip(i as int), key@, value@) =~= m0.take(i + 1)
                + meta_insert(m0.skip(i + 1), key@, value@));
            i += 1;
        }
        let mut entries: Vec<(String, String)> = Vec::new();
        std::mem::swap(&mut entries, &mut self.entries);
        entries.push((key, value));
        let ghost ev = entries@.map_values(|e: (String, String)| (e.0@, e.1@));
        assert(m0.take(i as int) =~= m0);
        assert(ev =~= m0.take(i as int) + meta_insert(m0.skip(i as int), key@, value@));
        self.entries = entries;
    }
}

proof fn lemma_meta_insert_sorted(es: Seq<(Seq<char>, Seq<char>)>, k: Seq<char>, v: Seq<char>)
    requires
        meta_sorted(es),
    ensures
        meta_sorted(meta_insert(es, k, v)),
        forall|i: int| 0 <= i < meta_insert(es, k, v).len() ==> (#[trigger] meta_insert(es, k, v)[i].0 == k
            || exists|j: int| 0 <= j < es.len() && es[j].0 == meta_insert(es, k, v)[i].0),
    decreases es.len(),
{
    let r = meta_insert(es, k, v);
    if es.len() == 0 {
    } else if es[0].0 == k {
        assert forall|i: int, j: int| 0 <= i < j < r.len() implies crate::text::seq_less(r[i].0, r[j].0) by {
            assert(r[j].0 == es[j].0);
            assert(r[i].0 == es[i].0);
        }
        assert forall|i: int| 0 <= i < r.len() implies (#[trigger] r[i].0 == k || exists|j: int|
            0 <= j < es.len() && es[j].0 == r[i].0) by {
            assert(es[i].0 == r[i].0);
        }
    } else if crate::text::seq_less(k, es[0].0) {
        assert forall|i: int, j: int| 0 <= i < j < r.len() implies crate::text::seq_less(r[i].0, r[j].0) by {
            if i == 0 {
                if j - 1 > 0 {
                    crate::text::lemma_seq_less_transitive(k, es[0].0, es[j - 1].0);
                }
            } else {
                assert(r[i].0 == es[i - 1].0);
            }
        }
        assert forall|i: int| 0 <= i < r.len() implies (#[trigger] r[i].0 == k || exists|j: int|
            0 <= j < es.len() && es[j].0 == r[i].0) by {
            if i > 0 {
                assert(es[i - 1].0 == r[i].0);
            }
        }
    } else {
        let rest = es.drop_first();
        assert forall|i: int, j: int| 0 <= i < j < rest.len() implies crate::text::seq_less(rest[i].0, rest[j].0) by {
            assert(rest[i] == es[i + 1]);
            assert(rest[j] == es[j + 1]);
        }
        lemma_meta_insert_sorted(rest, k, v);
        let rr = meta_insert(rest, k, v);
        crate::text::lemma_seq_less_total(k, es[0].0);
        assert forall|i: int, j: int| 0 <= i < j < r.len() implies crate::text::seq_less(r[i].0, r[j].0) by {
            if i == 0 {
                assert(r[j] == rr[j - 1]);
                if rr[j - 1].0 != k {
                    let q = choose|q: int| 0 <= q < rest.len() && rest[q].0 == rr[j - 1].0;
                    assert(rest[q] == es[q + 1]);
                }
            } else {
                assert(r[i] == rr[i - 1]);
                assert(r[j] == rr[j - 1]);
            }
        }
        assert forall|i: int| 0 <= i < r.len() implies (#[trigger] r[i].0 == k || exists|j: int|
            0 <= j < es.len() && es[j].0 == r[i].0) by {
            if i == 0 {
                assert(es[0].0 == r[0].0);
            } else {
                assert(r[i] == rr[i - 1]);
                if rr[i - 1].0 != k {
                    let q = choose|q: int| 0 <= q < rest.len() && rest[q].0 == rr[i - 1].0;
                    assert(es[q + 1].0 == r[i].0);
                }
            }
        }
    }
}

// ---------------------------------------------------------------------
// Postings and transactions
// ---------------------------------------------------------------------

/// One leg of a transaction. `amount` is `None` for the single posting per
/// transaction that is allowed to be elided and auto-balanced.
#[derive(Debug, PartialEq, Eq)]
pub struct Posting {
    pub account: Account,
    pub amount: Option<Amount>,
    pub cost_or_price: Option<CostOrPrice>,
    pub meta: Meta,
}

/// Two postings agree field by field (metadata by its entries).
pub open spec fn same_posting(a: Posting, b: Posting) -> bool {
    a.account == b.account && a.amount == b.amount && a.cost_or_price == b.cost_or_price
        && a.meta@ == b.meta@
}

fn clone_amount(a: &Option<Amount>) -> (r: Option<Amount>)
    ensures
        r == *a,
{
    match a {
        Some(x) => Some(x.clone()),
        None => None,
    }
}

fn clone_cost(a: &Option<CostOrPrice>) -> (r: Option<CostOrPrice>)
    ensures
        r == *a,
{
    match a {
        Some(x) => Some(x.clone()),
        None => None,
    }
}

impl Clone for Posting {
    fn clone(&self) -> (r: Self)
        ensures
            same_posting(r, *self),
    {
        Posting {
            account: self.account.clone(),
            amount: clone_amount(&self.amount),
            cost_or_price: clone_cost(&self.cost_or_price),
            meta: self.meta.clone(),
        }
    }
}

impl Posting {
    /// A posting with an explicit amount.
    pub fn new(account: Account, amount: Amount) -> (r: Posting)
        ensures
            r.account == account,
            r.amount == Some(amount),
            r.cost_or_price is None,
            r.meta@.len() == 0,
    {
        Posting { account, amount: Some(amount), cost_or_price: None, meta: Meta::new() }
    }

    /// A posting whose amount is left for balancing to fill in.
    pub fn elided(account: Account) -> (r: Posting)
        ensures
            r.account == account,
            r.amount is None,
            r.cost_or_price is None,
            r.meta@.len() == 0,
    {
        Posting { account, amount: None, cost_or_price: None, meta: Meta::new() }
    }
}

/// A double-entry transaction: a date, a flag, who and what, and two or
/// more balancing postings.
#[derive(Debug, PartialEq, Eq)]
pub struct Transaction {
    /// Database row id, once persisted.
    pub id: Option<i64>,
    pub date: Date,
    pub flag: Flag,
    pub payee: Option<String>,
    pub narration: String,
    pub tags: Vec<String>,
    pub links: Vec<String>,
    pub postings: Vec<Posting>,
    pub meta: Meta,
}

/// A copy of a list of strings.
pub fn clone_strings(v: &Vec<String>) -> (r: Vec<String>)
    ensures
        r@ == v@,
{
    let mut out: Vec<String> = Vec::new();
    let mut i: usize = 0;
    while i < v.len()
        invariant
            i <= v.len(),
            out@ == v@.take(i as int),
        decreases v.len() - i,
    {
        out.push(v[i].clone());
        assert(v@.take(i as int).push(v@[i as int]) =~= v@.take(i + 1));
        i += 1;
    }
    assert(v@.take(v.len() as int) =~= v@);
    out
}

/// A copy of a list of postings.
pub fn clone_postings(v: &Vec<Posting>) -> (r: Vec<Posting>)
    ensures
        r@.len() == v@.len(),
        forall|i: int| 0 <= i < v@.len() ==> same_posting(#[trigger] r@[i], v@[i]),
{
    let mut out: Vec<Posting> = Vec::new();
    let mut i: usize = 0;
    while i < v.len()
        invariant
            i <= v.len(),
            out@.len() == i,
            forall|k: int| 0 <= k < i ==> same_posting(#[trigger] out@[k], v@[k]),
        decreases v.len() - i,
    {
        out.push(v[i].clone());
        i += 1;
    }
    out
}

fn clone_payee(p: &Option<String>) -> (r: Option<String>)
    ensures
        r == *p,
{
    match p {
        Some(x) => Some(x.clone()),
        None => None,
    }
}

impl Clone for Transaction {
    fn clone(&self) -> (r: Self)
        ensures
            r.id == self.id,
            r.date == self.date,
            r.flag == self.flag,
            r.payee == self.payee,
            r.narration == self.narration,
            r.tags@ == self.tags@,
            r.links@ == self.links@,
            r.postings@.len() == self.postings@.len(),
            forall|i: int| 0 <= i < self.postings@.len() ==> same_posting(#[trigger] r.postings@[i], self.postings@[i]),
            r.meta@ == self.meta@,
    {
        Transaction {
            id: self.id,
            date: self.date,
            flag: self.flag,
            payee: clone_payee(&self.payee),
            narration: self.narration.clone(),
            tags: clone_strings(&self.tags),
            links: clone_strings(&self.links),
            postings: clone_postings(&self.postings),
            meta: self.meta.clone(),
        }
    }
}

/// The transaction doesn't sum to zero per commodity.
#[derive(Debug, PartialEq, Eq)]
pub struct Imbalance {
    pub date: Date,
    pub narration: String,
    pub details: String,
}

/// `Display` of an imbalance: `{date} "{narration}" {details}`.
pub open spec fn imbalance_text(e: Imbalance) -> Seq<char> {
    date_text(e.date) + " \""@ + e.narration@ + "\" "@ + e.details@
}

impl Imbalance {
    /// `Display`: `{date} "{narration}" {details}`.
    pub fn to_string(&self) -> (r: String)
        ensures
            r@ == imbalance_text(*self),
    {
        let mut v = self.date.to_chars();
        append_str(&mut v, " \"");
        append_str(&mut v, self.narration.as_str());
        append_str(&mut v, "\" ");
        append_str(&mut v, self.details.as_str());
        string_of(&v)
    }
}

// ---------------------------------------------------------------------
// Balancing
// ---------------------------------------------------------------------

/// Per-commodity totals of the explicit amounts, in commodity order.
pub open spec fn explicit_sums(ps: Seq<Posting>) -> Seq<(Seq<char>, DecimalValue)>
    decreases ps.len(),
{
    if ps.len() == 0 {
        Seq::empty()
    } else {
        let prev = explicit_sums(ps.drop_last());
        match ps.last().amount {
            Some(a) => totals_add(prev, a.commodity@, a.number@),
            None => prev,
        }
    }
}

/// How many postings have no amount.
pub open spec fn elided_count(ps: Seq<Posting>) -> nat
    decreases ps.len(),
{
    if ps.len() == 0 {
        0
    } else {
        elided_count(ps.drop_last()) + if ps.last().amount is None {
            1nat
        } else {
            0nat
        }
    }
}

/// Adding the `k`-th posting's amount to the totals before it does not
/// overflow.
pub open spec fn step_fits(ps: Seq<Posting>, k: int) -> bool {
    match ps[k].amount {
        Some(a) => totals_add_fits(explicit_sums(ps.take(k)), a.commodity@, a.number@),
        None => true,
    }
}

/// Summing all explicit amounts by commodity does not overflow.
pub open spec fn sums_fit(ps: Seq<Posting>) -> bool {
    forall|k: int| 0 <= k < ps.len() ==> #[trigger] step_fits(ps, k)
}

/// Summing by commodity up to the second amount-less posting (where
/// resolving stops) does not overflow.
pub open spec fn resolve_fits(ps: Seq<Posting>) -> bool {
    forall|k: int| 0 <= k < ps.len() && elided_count(ps.take(k)) <= 1 ==> #[trigger] step_fits(ps, k)
}

/// The totals that are not zero, in order.
pub open spec fn nonzero_totals(t: Seq<(Seq<char>, DecimalValue)>) -> Seq<(Seq<char>, DecimalValue)>
    decreases t.len(),
{
    if t.len() == 0 {
        Seq::empty()
    } else if t.last().1.is_zero() {
        nonzero_totals(t.drop_last())
    } else {
        nonzero_totals(t.drop_last()).push(t.last())
    }
}

/// `{value} {commodity}` for each total.
pub open spec fn total_pieces(t: Seq<(Seq<char>, DecimalValue)>) -> Seq<Seq<char>> {
    t.map_values(|e: (Seq<char>, DecimalValue)| decimal_text(e.1) + seq![' '] + e.0)
}

/// The details of an imbalance without an elided posting.
pub open spec fn unbalanced_text(sums: Seq<(Seq<char>, DecimalValue)>) -> Seq<char> {
    "does not balance to zero: "@ + join(total_pieces(nonzero_totals(sums)), ", "@)
}

/// Totals as (number, commodity) amounts.
pub open spec fn total_amounts(t: Seq<(Seq<char>, DecimalValue)>) -> Seq<(DecimalValue, Seq<char>)> {
    t.map_values(|e: (Seq<char>, DecimalValue)| (e.1, e.0))
}

/// An amount as (number, commodity).
pub open spec fn amount_pair(a: Amount) -> (DecimalValue, Seq<char>) {
    (a.number@, a.commodity@)
}

/// What filling the single elided posting yields, given the totals: zero in
/// the first commodity when everything balances already (nothing when there
/// is no commodity at all), the negated total of the one unbalanced
/// commodity, or the error when several are unbalanced.
pub open spec fn elided_fill(sums: Seq<(Seq<char>, DecimalValue)>) -> Result<
    Option<(DecimalValue, Seq<char>)>,
    Seq<char>,
> {
    let unb = nonzero_totals(sums);
    if unb.len() == 0 {
        Ok(if sums.len() > 0 { Some((zero_value(), sums[0].0)) } else { None })
    } else if unb.len() == 1 {
        Ok(Some((unb[0].1.negated(), unb[0].0)))
    } else {
        Err("elided posting is ambiguous across multiple commodities"@)
    }
}

/// What `balanced_postings` yields: the (number, commodity) amounts —
/// the elided posting's fill first, then every commodity total — or the
/// details of the imbalance.
pub open spec fn balanced_result(ps: Seq<Posting>) -> Result<Seq<(DecimalValue, Seq<char>)>, Seq<char>> {
    let sums = explicit_sums(ps);
    let n = elided_count(ps);
    if ps.len() < 2 {
        Err("transaction has fewer than 2 postings"@)
    } else if n > 1 {
        Err(crate::text::uint_text(n) + " postings have no amount; only one is allowed"@)
    } else if n == 1 {
        match elided_fill(sums) {
            Ok(Some(f)) => Ok(seq![f] + total_amounts(sums)),
            Ok(None) => Ok(total_amounts(sums)),
            Err(e) => Err(e),
        }
    } else if nonzero_totals(sums).len() > 0 {
        Err(unbalanced_text(sums))
    } else {
        Ok(total_amounts(sums))
    }
}

/// What `resolve_postings` fills into the elided posting (`None` when there
/// is no elided posting, or nothing to fill it with), or the details of
/// the imbalance.
pub open spec fn resolve_result(ps: Seq<Posting>) -> Result<Option<(DecimalValue, Seq<char>)>, Seq<char>> {
    let sums = explicit_sums(ps);
    let n = elided_count(ps);
    if ps.len() < 2 {
        Err("transaction has fewer than 2 postings"@)
    } else if n > 1 {
        Err("more than one posting has no amount"@)
    } else if n == 1 {
        elided_fill(sums)
    } else if nonzero_totals(sums).len() > 0 {
        Err(unbalanced_text(sums))
    } else {
        Ok(None)
    }
}

/// An amount's value at the common scale 28 (an exact integer).
pub open spec fn at28(v: DecimalValue) -> int {
    v.signed() * pow10((28 - v.scale) as nat)
}

/// What an optional amount adds to commodity `c`, at scale 28.
pub open spec fn amount_in(o: Option<Amount>, c: Seq<char>) -> int {
    match o {
        Some(a) => if a.commodity@ == c {
            at28(a.number@)
        } else {
            0
        },
        None => 0,
    }
}

/// The exact sum of the amounts in commodity `c`, at scale 28.
pub open spec fn commodity_total(ps: Seq<Posting>, c: Seq<char>) -> int
    decreases ps.len(),
{
    if ps.len() == 0 {
        0
    } else {
        commodity_total(ps.drop_last(), c) + amount_in(ps.last().amount, c)
    }
}

/// `10^x * 10^y == 10^(x + y)`.
pub proof fn lemma_pow10_add(x: nat, y: nat)
    ensures
        pow10(x) * pow10(y) == pow10(x + y),
    decreases y,
{
    if y > 0 {
        lemma_pow10_add(x, (y - 1) as nat);
        let a = pow10(x);
        let b = pow10((y - 1) as nat);
        assert(pow10(y) == 10 * b);
        assert(pow10(x + y) == 10 * pow10((x + y - 1) as nat));
        assert(a * (10 * b) == 10 * (a * b)) by (nonlinear_arith);
        assert((x + y - 1) as nat == x + (y - 1) as nat);
        assert(pow10(x) * pow10(y) == a * (10 * b));
        assert(pow10(x + y) == 10 * pow10(x + (y - 1) as nat));
    } else {
        assert(pow10(0) == 1);
        assert(pow10(x) * 1 == pow10(x)) by (nonlinear_arith);
    }
}

/// The total held for `c`, at scale 28 (zero when absent).
pub open spec fn total_at28(t: Seq<(Seq<char>, DecimalValue)>, c: Seq<char>) -> int {
    match totals_get(t, c) {
        Some(v) => at28(v),
        None => 0,
    }
}

/// Every total is within range.
pub open spec fn totals_valid(t: Seq<(Seq<char>, DecimalValue)>) -> bool {
    forall|j: int| 0 <= j < t.len() ==> (#[trigger] t[j]).1.valid()
}

/// Every explicit amount is within range.
pub open spec fn amounts_valid(ps: Seq<Posting>) -> bool {
    forall|k: int| 0 <= k < ps.len() ==> ((#[trigger] ps[k]).amount matches Some(a) ==> a.number@.valid())
}

proof fn lemma_at28_zero(v: DecimalValue)
    requires
        v.valid(),
    ensures
        (at28(v) == 0) == (v.magnitude == 0),
        at28(v.negated()) == -at28(v),
{
    let p = pow10((28 - v.scale) as nat);
    crate::decimal::lemma_pow10_positive((28 - v.scale) as nat);
    let m = v.signed();
    assert(m == 0 ==> m * p == 0) by (nonlinear_arith);
    assert(m != 0 && p >= 1 ==> m * p != 0) by (nonlinear_arith);
    assert((-m) * p == -(m * p)) by (nonlinear_arith);
    assert(v.negated().signed() == -m);
}

/// Addition is exact at scale 28 when it fits.
proof fn lemma_add_at28(a: DecimalValue, b: DecimalValue)
    requires
        a.valid(),
        b.valid(),
        add_fits(a, b),
    ensures
        at28(add_value(a, b)) == at28(a) + at28(b),
        add_value(a, b).valid(),
{
    lemma_at28_zero(a);
    lemma_at28_zero(b);
    if a.magnitude != 0 && b.magnitude != 0 {
        let s = crate::decimal::max_nat(a.scale, b.scale);
        let pa = pow10((s - a.scale) as nat);
        let pb = pow10((s - b.scale) as nat);
        let q = pow10((28 - s) as nat);
        lemma_pow10_add((s - a.scale) as nat, (28 - s) as nat);
        lemma_pow10_add((s - b.scale) as nat, (28 - s) as nat);
        assert((s - a.scale) as nat + (28 - s) as nat == (28 - a.scale) as nat);
        assert((s - b.scale) as nat + (28 - s) as nat == (28 - b.scale) as nat);
        let n = a.signed() * pa + b.signed() * pb;
        assert(n == crate::decimal::exact_sum(a, b));
        let r = add_value(a, b);
        assert(r.signed() == n);
        let x = a.signed();
        let y = b.signed();
        assert((x * pa + y * pb) * q == x * (pa * q) + y * (pb * q)) by (nonlinear_arith);
    }
}

proof fn lemma_get_member(t: Seq<(Seq<char>, DecimalValue)>, c: Seq<char>)
    ensures
        totals_get(t, c) matches Some(v) ==> exists|j: int| 0 <= j < t.len() && t[j] == (c, v),
        totals_get(t, c) is None ==> forall|j: int| 0 <= j < t.len() ==> t[j].0 != c,
    decreases t.len(),
{
    if t.len() > 0 && t[0].0 != c {
        lemma_get_member(t.drop_first(), c);
        if let Some(v) = totals_get(t, c) {
            let j = choose|j: int| 0 <= j < t.drop_first().len() && t.drop_first()[j] == (c, v);
            assert(t[j + 1] == (c, v));
        } else {
            assert forall|j: int| 0 <= j < t.len() implies t[j].0 != c by {
                if j > 0 {
                    assert(t[j] == t.drop_first()[j - 1]);
                }
            }
        }
    } else if t.len() > 0 {
        assert(t[0] == (c, t[0].1));
    }
}

proof fn lemma_get_index(t: Seq<(Seq<char>, DecimalValue)>, j: int)
    requires
        totals_sorted(t),
        0 <= j < t.len(),
    ensures
        totals_get(t, t[j].0) == Some(t[j].1),
    decreases j,
{
    if j > 0 {
        crate::text::lemma_seq_less_irreflexive(t[0].0);
        assert(crate::text::seq_less(t[0].0, t[j].0));
        assert(t[0].0 != t[j].0);
        let r = t.drop_first();
        assert(totals_sorted(r)) by {
            assert forall|a: int, b: int| 0 <= a < b < r.len() implies crate::text::seq_less(r[a].0, r[b].0) by {
                assert(r[a] == t[a + 1]);
                assert(r[b] == t[b + 1]);
            }
        }
        lemma_get_index(r, j - 1);
        assert(r[j - 1] == t[j]);
    }
}

/// The total for `d` after adding `v` to commodity `c`.
pub open spec fn add_get(t: Seq<(Seq<char>, DecimalValue)>, c: Seq<char>, v: DecimalValue, d: Seq<char>) -> Option<DecimalValue> {
    if d == c {
        Some(add_value(
            match totals_get(t, c) {
                Some(x) => x,
                None => zero_value(),
            },
            v,
        ))
    } else {
        totals_get(t, d)
    }
}

proof fn lemma_totals_add_get(t: Seq<(Seq<char>, DecimalValue)>, c: Seq<char>, v: DecimalValue, d: Seq<char>)
    requires
        totals_sorted(t),
    ensures
        totals_get(totals_add(t, c, v), d) == add_get(t, c, v, d),
    decreases t.len(),
{
    let r = totals_add(t, c, v);
    if t.len() == 0 {
        assert(r[0] == (c, add_value(zero_value(), v)));
        if d != c {
            assert(r.drop_first().len() == 0);
            assert(totals_get(r.drop_first(), d) is None);
        }
        assert(totals_get(r, d) == add_get(t, c, v, d));
    } else if t[0].0 == c {
        assert(r[0] == (c, add_value(t[0].1, v)));
        if d != c {
            assert(r.drop_first() =~= t.drop_first());
        }
        assert(totals_get(r, d) == add_get(t, c, v, d));
    } else if crate::text::seq_less(c, t[0].0) {
        assert(r[0] == (c, add_value(zero_value(), v)));
        assert(r.drop_first() =~= t);
        if d == c {
            lemma_get_member(t, c);
            if let Some(x) = totals_get(t, c) {
                let j = choose|j: int| 0 <= j < t.len() && t[j] == (c, x);
                if j == 0 {
                    crate::text::lemma_seq_less_irreflexive(c);
                } else {
                    assert(crate::text::seq_less(t[0].0, t[j].0));
                    crate::text::lemma_seq_less_asymmetric(c, t[0].0);
                }
            }
        }
    } else {
        let rest = t.drop_first();
        assert(totals_sorted(rest)) by {
            assert forall|a: int, b: int| 0 <= a < b < rest.len() implies crate::text::seq_less(rest[a].0, rest[b].0) by {
                assert(rest[a] == t[a + 1]);
                assert(rest[b] == t[b + 1]);
            }
        }
        lemma_totals_add_get(rest, c, v, d);
        assert(r[0] == t[0]);
        assert(r.drop_first() =~= totals_add(rest, c, v));
        assert(totals_get(t, c) == totals_get(rest, c));
        assert(totals_get(r, d) == add_get(t, c, v, d));
    }
}

proof fn lemma_totals_add_valid(t: Seq<(Seq<char>, DecimalValue)>, c: Seq<char>, v: DecimalValue)
    requires
        totals_valid(t),
        v.valid(),
        totals_add_fits(t, c, v),
    ensures
        totals_valid(totals_add(t, c, v)),
    decreases t.len(),
{
    let r = totals_add(t, c, v);
    if t.len() == 0 {
        lemma_add_at28(zero_value(), v);
    } else if t[0].0 == c {
        assert(t[0].1.valid());
        lemma_add_at28(t[0].1, v);
        assert forall|j: int| 0 <= j < r.len() implies (#[trigger] r[j]).1.valid() by {
            if j > 0 {
                assert(r[j] == t[j]);
            }
        }
    } else if crate::text::seq_less(c, t[0].0) {
        lemma_add_at28(zero_value(), v);
        assert forall|j: int| 0 <= j < r.len() implies (#[trigger] r[j]).1.valid() by {
            if j > 0 {
                assert(r[j] == t[j - 1]);
            }
        }
    } else {
        let rest = t.drop_first();
        assert(totals_valid(rest)) by {
            assert forall|j: int| 0 <= j < rest.len() implies (#[trigger] rest[j]).1.valid() by {
                assert(rest[j] == t[j + 1]);
            }
        }
        lemma_totals_add_valid(rest, c, v);
        let rr = totals_add(rest, c, v);
        assert forall|j: int| 0 <= j < r.len() implies (#[trigger] r[j]).1.valid() by {
            if j > 0 {
                assert(r[j] == rr[j - 1]);
            } else {
                assert(r[0] == t[0]);
            }
        }
    }
}

/// The running totals over the first `n` postings are sorted, in range, and
/// hold the exact per-commodity sums.
proof fn lemma_sums_prefix(ps: Seq<Posting>, n: int)
    requires
        0 <= n <= ps.len(),
        forall|k: int| 0 <= k < n ==> #[trigger] step_fits(ps, k),
        amounts_valid(ps),
    ensures
        totals_sorted(explicit_sums(ps.take(n))),
        totals_valid(explicit_sums(ps.take(n))),
        forall|c: Seq<char>| #[trigger] commodity_total(ps.take(n), c) == total_at28(explicit_sums(ps.take(n)), c),
    decreases n,
{
    if n > 0 {
        lemma_sums_prefix(ps, n - 1);
        let pre = ps.take(n);
        assert(pre.drop_last() =~= ps.take(n - 1));
        let prev = explicit_sums(ps.take(n - 1));
        assert(step_fits(ps, n - 1));
        assert(ps[n - 1] == pre.last());
        match ps[n - 1].amount {
            Some(a) => {
                assert(a.number@.valid());
                crate::totals::lemma_totals_add_sorted(prev, a.commodity@, a.number@);
                lemma_totals_add_valid(prev, a.commodity@, a.number@);
                assert(explicit_sums(pre) == totals_add(prev, a.commodity@, a.number@));
                assert forall|c: Seq<char>| #[trigger] commodity_total(pre, c) == total_at28(explicit_sums(pre), c) by {
                    assert(commodity_total(pre, c) == commodity_total(ps.take(n - 1), c) + (if a.commodity@ == c {
                        at28(a.number@)
                    } else {
                        0
                    }));
                    assert(commodity_total(ps.take(n - 1), c) == total_at28(prev, c));
                    lemma_totals_add_get(prev, a.commodity@, a.number@, c);
                    if c == a.commodity@ {
                        match totals_get(prev, c) {
                            Some(x) => {
                                lemma_get_member(prev, c);
                                let j = choose|j: int| 0 <= j < prev.len() && prev[j] == (c, x);
                                assert(prev[j].1.valid());
                                lemma_add_at28(x, a.number@);
                            },
                            None => {
                                lemma_add_at28(zero_value(), a.number@);
                                lemma_at28_zero(zero_value());
                            },
                        }
                    }
                }
            },
            None => {
                assert(explicit_sums(pre) == prev);
                assert forall|c: Seq<char>| #[trigger] commodity_total(pre, c) == total_at28(explicit_sums(pre), c) by {
                    assert(commodity_total(pre, c) == commodity_total(ps.take(n - 1), c));
                    assert(commodity_total(ps.take(n - 1), c) == total_at28(prev, c));
                }
            },
        }
    } else {
        assert(ps.take(0) =~= Seq::<Posting>::empty());
    }
}

proof fn lemma_nonzero_members(t: Seq<(Seq<char>, DecimalValue)>)
    ensures
        forall|j: int| 0 <= j < t.len() && !(#[trigger] t[j]).1.is_zero() ==> nonzero_totals(t).contains(t[j]),
        forall|i: int| 0 <= i < nonzero_totals(t).len() ==> t.contains(#[trigger] nonzero_totals(t)[i])
            && !nonzero_totals(t)[i].1.is_zero(),
    decreases t.len(),
{
    if t.len() > 0 {
        let pre = t.drop_last();
        lemma_nonzero_members(pre);
        let nz = nonzero_totals(t);
        assert forall|j: int| 0 <= j < t.len() && !(#[trigger] t[j]).1.is_zero() implies nz.contains(t[j]) by {
            if j < t.len() - 1 {
                assert(t[j] == pre[j]);
                let i = choose|i: int| 0 <= i < nonzero_totals(pre).len() && nonzero_totals(pre)[i] == pre[j];
                assert(nz[i] == pre[j]);
            } else {
                assert(nz[nz.len() - 1] == t[j]);
            }
        }
        assert forall|i: int| 0 <= i < nz.len() implies t.contains(#[trigger] nz[i]) && !nz[i].1.is_zero() by {
            if i < nonzero_totals(pre).len() {
                assert(nz[i] == nonzero_totals(pre)[i]);
                let j = choose|j: int| 0 <= j < pre.len() && pre[j] == nz[i];
                assert(t[j] == pre[j]);
            } else {
                assert(t[t.len() - 1] == nz[i]);
            }
        }
    }
}

/// With the totals of `ps` and `k` the only commodity that may be non-zero
/// (or none), every other commodity sums to zero.
proof fn lemma_all_but_zero(ps: Seq<Posting>, c: Seq<char>)
    requires
        sums_fit(ps),
        amounts_valid(ps),
        nonzero_totals(explicit_sums(ps)).len() <= 1,
        nonzero_totals(explicit_sums(ps)).len() == 1 ==> c != nonzero_totals(explicit_sums(ps))[0].0,
    ensures
        commodity_total(ps, c) == 0,
{
    let t = explicit_sums(ps);
    lemma_sums_prefix(ps, ps.len() as int);
    assert(ps.take(ps.len() as int) =~= ps);
    lemma_nonzero_members(t);
    lemma_get_member(t, c);
    if let Some(v) = totals_get(t, c) {
        let j = choose|j: int| 0 <= j < t.len() && t[j] == (c, v);
        assert(t[j].1.valid());
        lemma_at28_zero(v);
        if !v.is_zero() {
            let nz = nonzero_totals(t);
            let i = choose|i: int| 0 <= i < nz.len() && nz[i] == t[j];
        }
    }
}

/// A posting list whose amounts all balance in every commodity.
pub open spec fn balances(ps: Seq<Posting>) -> bool {
    forall|c: Seq<char>| #[trigger] commodity_total(ps, c) == 0
}

proof fn lemma_balances_iff(ps: Seq<Posting>)
    requires
        sums_fit(ps),
        amounts_valid(ps),
    ensures
        balances(ps) == (nonzero_totals(explicit_sums(ps)).len() == 0),
{
    let t = explicit_sums(ps);
    lemma_sums_prefix(ps, ps.len() as int);
    assert(ps.take(ps.len() as int) =~= ps);
    lemma_nonzero_members(t);
    if nonzero_totals(t).len() == 0 {
        assert forall|c: Seq<char>| #[trigger] commodity_total(ps, c) == 0 by {
            lemma_all_but_zero(ps, c);
        }
    } else {
        let e = nonzero_totals(t)[0];
        let j = choose|j: int| 0 <= j < t.len() && t[j] == e;
        lemma_get_index(t, j);
        lemma_at28_zero(e.1);
        assert(commodity_total(ps, e.0) != 0);
    }
}

/// Filling the elided posting `j` adds exactly its new amount.
proof fn lemma_fill_total(ps: Seq<Posting>, rs: Seq<Posting>, j: Option<int>, c: Seq<char>, n: int)
    requires
        rs.len() == ps.len(),
        0 <= n <= ps.len(),
        j matches Some(k) ==> 0 <= k < ps.len(),
        forall|i: int| 0 <= i < ps.len() ==> ((#[trigger] ps[i]).amount is None) == (j == Some(i)),
        forall|i: int| 0 <= i < ps.len() && ps[i].amount is Some ==> (#[trigger] rs[i]).amount == ps[i].amount,
    ensures
        commodity_total(rs.take(n), c) == commodity_total(ps.take(n), c) + match j {
            Some(k) => if k < n {
                amount_in(rs[k].amount, c)
            } else {
                0
            },
            None => 0,
        },
    decreases n,
{
    if n > 0 {
        lemma_fill_total(ps, rs, j, c, n - 1);
        assert(rs.take(n).drop_last() =~= rs.take(n - 1));
        assert(ps.take(n).drop_last() =~= ps.take(n - 1));
        assert(rs.take(n).last() == rs[n - 1]);
        assert(ps.take(n).last() == ps[n - 1]);
        assert(ps[n - 1].amount is None == (j == Some(n - 1)));
    } else {
        assert(rs.take(0) =~= Seq::<Posting>::empty());
        assert(ps.take(0) =~= Seq::<Posting>::empty());
    }
}

proof fn lemma_elided_mono(ps: Seq<Posting>, k: int)
    requires
        0 <= k <= ps.len(),
    ensures
        elided_count(ps.take(k)) <= elided_count(ps),
    decreases ps.len() - k,
{
    if k < ps.len() {
        lemma_elided_mono(ps, k + 1);
        assert(ps.take(k + 1).drop_last() =~= ps.take(k));
    } else {
        assert(ps.take(k) =~= ps);
    }
}

proof fn lemma_resolve_fits(ps: Seq<Posting>)
    requires
        resolve_fits(ps),
        elided_count(ps) <= 1,
    ensures
        sums_fit(ps),
{
    assert forall|k: int| 0 <= k < ps.len() implies #[trigger] step_fits(ps, k) by {
        lemma_elided_mono(ps, k);
    }
}

/// An optional amount as (number, commodity).
pub open spec fn opt_pair(o: Option<Amount>) -> Option<(DecimalValue, Seq<char>)> {
    match o {
        Some(a) => Some(amount_pair(a)),
        None => None,
    }
}

/// What a resolved posting is: the posting as given, with the fill in place
/// of a missing amount.
pub open spec fn resolved_from(p: Posting, q: Posting, fill: Option<(DecimalValue, Seq<char>)>) -> bool {
    &&& q.account == p.account
    &&& q.cost_or_price == p.cost_or_price
    &&& q.meta@ == p.meta@
    &&& if p.amount is None {
        match (q.amount, fill) {
            (Some(a), Some(f)) => amount_pair(a) == f,
            (None, None) => true,
            _ => false,
        }
    } else {
        q.amount == p.amount
    }
}

/// Resolved postings balance in every commodity.
proof fn lemma_resolved_balance(
    ps: Seq<Posting>,
    rs: Seq<Posting>,
    j: Option<int>,
    fill: Option<(DecimalValue, Seq<char>)>,
)
    requires
        sums_fit(ps),
        amounts_valid(ps),
        resolve_result(ps) == Ok::<Option<(DecimalValue, Seq<char>)>, Seq<char>>(fill),
        rs.len() == ps.len(),
        j matches Some(k) ==> 0 <= k < ps.len(),
        forall|i: int| 0 <= i < ps.len() ==> ((#[trigger] ps[i]).amount is None) == (j == Some(i)),
        forall|i: int| 0 <= i < ps.len() ==> resolved_from(#[trigger] ps[i], rs[i], fill),
        j is None ==> fill is None,
    ensures
        balances(rs),
{
    let t = explicit_sums(ps);
    lemma_balances_iff(ps);
    lemma_sums_prefix(ps, ps.len() as int);
    assert(ps.take(ps.len() as int) =~= ps);
    assert(rs.take(rs.len() as int) =~= rs);
    lemma_at28_zero(zero_value());
    assert forall|c: Seq<char>| #[trigger] commodity_total(rs, c) == 0 by {
        assert forall|i: int| 0 <= i < ps.len() && ps[i].amount is Some implies (#[trigger] rs[i]).amount == ps[i].amount by {
            assert(resolved_from(ps[i], rs[i], fill));
        }
        lemma_fill_total(ps, rs, j, c, ps.len() as int);
        if let Some(k) = j {
            assert(resolved_from(ps[k], rs[k], fill));
            let unb = nonzero_totals(t);
            if unb.len() == 0 {
                lemma_all_but_zero(ps, c);
            } else {
                let u = unb[0];
                lemma_nonzero_members(t);
                let m = choose|m: int| 0 <= m < t.len() && t[m] == u;
                lemma_get_index(t, m);
                assert(t[m].1.valid());
                lemma_at28_zero(u.1);
                if c != u.0 {
                    lemma_all_but_zero(ps, c);
                }
            }
        } else {
            lemma_all_but_zero(ps, c);
        }
    }
}

/// The explicit amounts' totals by commodity and the number of postings
/// without an amount.
fn posting_totals(ps: &Vec<Posting>) -> (r: (Vec<(String, Decimal)>, usize))
    requires
        sums_fit(ps@),
    ensures
        totals_view(r.0@) == explicit_sums(ps@),
        r.1 == elided_count(ps@),
        amounts_valid(ps@),
{
    let mut sums: Vec<(String, Decimal)> = Vec::new();
    let mut elided: usize = 0;
    let mut i: usize = 0;
    assert(ps@.take(0) =~= Seq::<Posting>::empty());
    while i < ps.len()
        invariant
            i <= ps.len(),
            sums_fit(ps@),
            totals_view(sums@) == explicit_sums(ps@.take(i as int)),
            elided == elided_count(ps@.take(i as int)),
            elided <= i,
            forall|k: int| 0 <= k < i ==> ((#[trigger] ps@[k]).amount matches Some(a) ==> a.number@.valid()),
        decreases ps.len() - i,
    {
        let p = &ps[i];
        assert(ps@.take(i + 1).drop_last() =~= ps@.take(i as int));
        assert(ps@.take(i + 1).last() == ps@[i as int]);
        assert(step_fits(ps@, i as int));
        match &p.amount {
            Some(a) => {
                a.number.valid();
                totals_add_exec(&mut sums, &a.commodity, &a.number);
            },
            None => {
                elided += 1;
            },
        }
        i += 1;
    }
    assert(ps@.take(ps.len() as int) =~= ps@);
    (sums, elided)
}

/// The non-zero totals, in order.
pub fn nonzero_entries(t: &Vec<(String, Decimal)>) -> (r: Vec<(String, Decimal)>)
    ensures
        totals_view(r@) == nonzero_totals(totals_view(t@)),
{
    let ghost tv = totals_view(t@);
    let mut out: Vec<(String, Decimal)> = Vec::new();
    let mut i: usize = 0;
    assert(tv.take(0) =~= Seq::<(Seq<char>, DecimalValue)>::empty());
    assert(totals_view(out@) =~= Seq::<(Seq<char>, DecimalValue)>::empty());
    while i < t.len()
        invariant
            i <= t.len(),
            tv == totals_view(t@),
            totals_view(out@) == nonzero_totals(tv.take(i as int)),
        decreases t.len() - i,
    {
        assert(tv.take(i + 1).drop_last() =~= tv.take(i as int));
        assert(tv.take(i + 1).last() == tv[i as int]);
        if !t[i].1.is_zero() {
            let ghost before = totals_view(out@);
            out.push((t[i].0.clone(), t[i].1));
            assert(totals_view(out@) =~= before.push(tv[i as int]));
        }
        i += 1;
    }
    assert(tv.take(t.len() as int) =~= tv);
    out
}

/// `{value} {commodity}` for each total.
fn total_pieces_exec(t: &Vec<(String, Decimal)>) -> (r: Vec<Vec<char>>)
    ensures
        crate::text::pieces_view(r@) == total_pieces(totals_view(t@)),
{
    let mut out: Vec<Vec<char>> = Vec::new();
    let mut i: usize = 0;
    while i < t.len()
        invariant
            i <= t.len(),
            out@.len() == i,
            forall|k: int| 0 <= k < i ==> (#[trigger] out@[k])@ == total_pieces(totals_view(t@))[k],
        decreases t.len() - i,
    {
        let n = t[i].1.to_string();
        let mut piece = chars_of(n.as_str());
        piece.push(' ');
        append_str(&mut piece, t[i].0.as_str());
        out.push(piece);
        i += 1;
    }
    assert(crate::text::pieces_view(out@) =~= total_pieces(totals_view(t@)));
    out
}

/// The details of an imbalance without an elided posting.
fn unbalanced_details(nonzero: &Vec<(String, Decimal)>, Ghost(sums): Ghost<Seq<(Seq<char>, DecimalValue)>>) -> (r: String)
    requires
        totals_view(nonzero@) == nonzero_totals(sums),
    ensures
        r@ == unbalanced_text(sums),
{
    let pieces = total_pieces_exec(nonzero);
    let joined = crate::text::join_chars(&pieces, ", ");
    let mut m = chars_of("does not balance to zero: ");
    append_chars(&mut m, &joined);
    string_of(&m)
}

/// The amount that fills the single elided posting.
fn elided_fill_exec(sums: &Vec<(String, Decimal)>) -> (r: Result<Option<Amount>, String>)
    ensures
        match (r, elided_fill(totals_view(sums@))) {
            (Ok(Some(a)), Ok(Some(f))) => amount_pair(a) == f,
            (Ok(None), Ok(None)) => true,
            (Err(e), Err(m)) => e@ == m,
            _ => false,
        },
{
    let unb = nonzero_entries(sums);
    if unb.len() == 0 {
        if sums.len() > 0 {
            Ok(Some(Amount::new(Decimal::zero(), sums[0].0.clone())))
        } else {
            Ok(None)
        }
    } else if unb.len() == 1 {
        Ok(Some(Amount::new(unb[0].1.neg(), unb[0].0.clone())))
    } else {
        Err(String::from_str("elided posting is ambiguous across multiple commodities"))
    }
}

/// Totals as amounts.
pub fn total_amounts_exec(sums: &Vec<(String, Decimal)>) -> (r: Vec<Amount>)
    ensures
        r@.map_values(|a: Amount| amount_pair(a)) == total_amounts(totals_view(sums@)),
{
    let mut out: Vec<Amount> = Vec::new();
    let mut i: usize = 0;
    while i < sums.len()
        invariant
            i <= sums.len(),
            out@.len() == i,
            forall|k: int| 0 <= k < i ==> amount_pair(#[trigger] out@[k]) == total_amounts(totals_view(sums@))[k],
        decreases sums.len() - i,
    {
        out.push(Amount::new(sums[i].1, sums[i].0.clone()));
        i += 1;
    }
    assert(out@.map_values(|a: Amount| amount_pair(a)) =~= total_amounts(totals_view(sums@)));
    out
}

impl Transaction {
    /// A cleared transaction with no payee, tags, links, postings or
    /// metadata.
    pub fn new(date: Date, narration: String) -> (r: Transaction)
        ensures
            r.id is None,
            r.date == date,
            r.flag == Flag::Cleared,
            r.payee is None,
            r.narration == narration,
            r.tags@.len() == 0,
            r.links@.len() == 0,
            r.postings@.len() == 0,
            r.meta@.len() == 0,
    {
        Transaction {
            id: None,
            date,
            flag: Flag::Cleared,
            payee: None,
            narration,
            tags: Vec::new(),
            links: Vec::new(),
            postings: Vec::new(),
            meta: Meta::new(),
        }
    }

    fn imbalance(&self, details: String) -> (r: Imbalance)
        ensures
            r.date == self.date,
            r.narration == self.narration,
            r.details == details,
    {
        Imbalance { date: self.date, narration: self.narration.clone(), details }
    }

    /// Resolves the (at most one) elided posting and checks that the
    /// transaction balances to zero in every commodity: the elided
    /// posting's fill first, then each commodity's total; or the imbalance.
    /// With every amount explicit it succeeds exactly when each commodity
    /// sums to zero.
    pub fn balanced_postings(&self) -> (r: Result<Vec<Amount>, Imbalance>)
        requires
            self.postings@.len() >= 2 ==> sums_fit(self.postings@),
        ensures
            match r {
                Ok(v) => balanced_result(self.postings@) == Ok::<Seq<(DecimalValue, Seq<char>)>, Seq<char>>(
                    v@.map_values(|a: Amount| amount_pair(a)),
                ),
                Err(e) => balanced_result(self.postings@) == Err::<Seq<(DecimalValue, Seq<char>)>, Seq<char>>(
                    e.details@,
                ) && e.date == self.date && e.narration == self.narration,
            },
            self.postings@.len() >= 2 && elided_count(self.postings@) == 0 ==> (r is Ok <==> balances(self.postings@)),
    {
        if self.postings.len() < 2 {
            return Err(self.imbalance(String::from_str("transaction has fewer than 2 postings")));
        }
        let (sums, elided) = posting_totals(&self.postings);
        let ghost sv = totals_view(sums@);
        proof {
            lemma_balances_iff(self.postings@);
        }
        if elided > 1 {
            let mut m = crate::text::uint_chars(elided as u64);
            append_str(&mut m, " postings have no amount; only one is allowed");
            return Err(self.imbalance(string_of(&m)));
        }
        if elided == 1 {
            match elided_fill_exec(&sums) {
                Ok(Some(a)) => {
                    let mut out: Vec<Amount> = Vec::new();
                    out.push(a);
                    let rest = total_amounts_exec(&sums);
                    let ghost first = out@;
                    let mut k: usize = 0;
                    while k < rest.len()
                        invariant
                            k <= rest.len(),
                            out@ == first + rest@.take(k as int),
                        decreases rest.len() - k,
                    {
                        out.push(rest[k].clone());
                        assert(rest@.take(k + 1) =~= rest@.take(k as int).push(rest@[k as int]));
                        k += 1;
                    }
                    assert(rest@.take(rest.len() as int) =~= rest@);
                    assert(out@.map_values(|a: Amount| amount_pair(a)) =~= seq![amount_pair(first[0])]
                        + rest@.map_values(|a: Amount| amount_pair(a)));
                    return Ok(out);
                },
                Ok(None) => {
                    return Ok(total_amounts_exec(&sums));
                },
                Err(e) => {
                    return Err(self.imbalance(e));
                },
            }
        }
        let unb = nonzero_entries(&sums);
        if unb.len() > 0 {
            let d = unbalanced_details(&unb, Ghost(sv));
            return Err(self.imbalance(d));
        }
        Ok(total_amounts_exec(&sums))
    }

    /// Whether [`Self::balanced_postings`] succeeds.
    pub fn is_balanced(&self) -> (r: bool)
        requires
            self.postings@.len() >= 2 ==> sums_fit(self.postings@),
        ensures
            r == balanced_result(self.postings@) is Ok,
    {
        self.balanced_postings().is_ok()
    }
}


impl Transaction {
    /// Whether resolving this transaction's postings stays within the
    /// decimal range ([`resolve_fits`]); where it does not, adding the
    /// amounts overflows.
    pub fn sums_in_range(&self) -> (r: bool)
        ensures
            r == resolve_fits(self.postings@),
    {
        let ghost ps = self.postings@;
        let mut sums: Vec<(String, Decimal)> = Vec::new();
        let mut elided: usize = 0;
        let mut i: usize = 0;
        assert(ps.take(0) =~= Seq::<Posting>::empty());
        while i < self.postings.len()
            invariant
                i <= self.postings.len(),
                ps == self.postings@,
                totals_view(sums@) == explicit_sums(ps.take(i as int)),
                elided == elided_count(ps.take(i as int)),
                elided <= 1,
                forall|k: int| 0 <= k < i && elided_count(ps.take(k)) <= 1 ==> #[trigger] step_fits(ps, k),
            decreases self.postings.len() - i,
        {
            let p = &self.postings[i];
            assert(ps.take(i + 1).drop_last() =~= ps.take(i as int));
            assert(ps.take(i + 1).last() == ps[i as int]);
            match &p.amount {
                Some(a) => {
                    if !totals_fits_exec(&sums, &a.commodity, &a.number) {
                        assert(!step_fits(ps, i as int));
                        return false;
                    }
                    totals_add_exec(&mut sums, &a.commodity, &a.number);
                },
                None => {
                    if elided == 1 {
                        assert forall|k: int| 0 <= k < ps.len() && elided_count(ps.take(k)) <= 1 implies #[trigger] step_fits(
                            ps,
                            k,
                        ) by {
                            if k > i {
                                lemma_elided_mono(ps.take(k), i + 1);
                                assert(ps.take(k).take(i + 1) =~= ps.take(i + 1));
                            }
                        }
                        return true;
                    }
                    elided = 1;
                },
            }
            i += 1;
        }
        true
    }
}

impl Transaction {
    /// Like [`Self::balanced_postings`], but returns the transaction's own
    /// postings in their order with the (at most one) elided amount filled
    /// in, ready to persist. The result balances in every commodity.
    pub fn resolve_postings(&self) -> (r: Result<Vec<Posting>, Imbalance>)
        requires
            resolve_fits(self.postings@),
        ensures
            match r {
                Ok(v) => (resolve_result(self.postings@) matches Ok(fill) && v@.len() == self.postings@.len()
                    && forall|i: int| 0 <= i < v@.len() ==> resolved_from(#[trigger] self.postings@[i], v@[i], fill))
                    && balances(v@),
                Err(e) => resolve_result(self.postings@) == Err::<Option<(DecimalValue, Seq<char>)>, Seq<char>>(
                    e.details@,
                ) && e.date == self.date && e.narration == self.narration,
            },
    {
        let ghost ps = self.postings@;
        if self.postings.len() < 2 {
            return Err(self.imbalance(String::from_str("transaction has fewer than 2 postings")));
        }
        let mut sums: Vec<(String, Decimal)> = Vec::new();
        let mut elided_index: Option<usize> = None;
        let mut i: usize = 0;
        assert(ps.take(0) =~= Seq::<Posting>::empty());
        while i < self.postings.len()
            invariant
                i <= self.postings.len(),
                ps == self.postings@,
                resolve_fits(ps),
                totals_view(sums@) == explicit_sums(ps.take(i as int)),
                elided_count(ps.take(i as int)) == (if elided_index is Some { 1nat } else { 0nat }),
                elided_index matches Some(j) ==> j < i && ps[j as int].amount is None,
                forall|k: int| 0 <= k < i && ps[k].amount is None ==> elided_index == Some(k as usize),
                forall|k: int| 0 <= k < i ==> ((#[trigger] ps[k]).amount matches Some(a) ==> a.number@.valid()),
            decreases self.postings.len() - i,
        {
            let p = &self.postings[i];
            assert(ps.take(i + 1).drop_last() =~= ps.take(i as int));
            assert(ps.take(i + 1).last() == ps[i as int]);
            match &p.amount {
                Some(a) => {
                    assert(step_fits(ps, i as int));
                    a.number.valid();
                    totals_add_exec(&mut sums, &a.commodity, &a.number);
                },
                None => {
                    if elided_index.is_some() {
                        proof {
                            lemma_elided_mono(ps, i + 1);
                        }
                        return Err(self.imbalance(String::from_str("more than one posting has no amount")));
                    }
                    elided_index = Some(i);
                },
            }
            i += 1;
        }
        assert(ps.take(ps.len() as int) =~= ps);
        proof {
            lemma_resolve_fits(ps);
        }
        let fill: Option<Amount> = match elided_index {
            None => {
                let unb = nonzero_entries(&sums);
                if unb.len() > 0 {
                    let d = unbalanced_details(&unb, Ghost(totals_view(sums@)));
                    return Err(self.imbalance(d));
                }
                None
            },
            Some(_) => {
                match elided_fill_exec(&sums) {
                    Ok(f) => f,
                    Err(e) => {
                        return Err(self.imbalance(e));
                    },
                }
            },
        };
        let ghost fv = opt_pair(fill);
        assert(resolve_result(ps) == Ok::<Option<(DecimalValue, Seq<char>)>, Seq<char>>(fv));
        let mut out: Vec<Posting> = Vec::new();
        let mut k: usize = 0;
        while k < self.postings.len()
            invariant
                k <= self.postings.len(),
                ps == self.postings@,
                out@.len() == k,
                elided_index matches Some(j) ==> j < ps.len() && ps[j as int].amount is None,
                forall|q: int| 0 <= q < ps.len() && ps[q].amount is None ==> elided_index == Some(q as usize),
                fv == opt_pair(fill),
                forall|q: int| 0 <= q < k ==> resolved_from(#[trigger] ps[q], out@[q], fv),
            decreases self.postings.len() - k,
        {
            let p = &self.postings[k];
            let amount = if elided_index == Some(k) {
                clone_amount(&fill)
            } else {
                clone_amount(&p.amount)
            };
            out.push(
                Posting {
                    account: p.account.clone(),
                    amount,
                    cost_or_price: clone_cost(&p.cost_or_price),
                    meta: p.meta.clone(),
                },
            );
            k += 1;
        }
        proof {
            let j: Option<int> = match elided_index {
                Some(x) => Some(x as int),
                None => None,
            };
            lemma_resolved_balance(ps, out@, j, fv);
        }
        Ok(out)
    }
}


// ---------------------------------------------------------------------
// Directives
// ---------------------------------------------------------------------

/// A ledger-file directive. `Transaction` is the common case; the rest
/// declare accounts, commodities, and checks.
#[derive(Debug, PartialEq, Eq)]
pub enum Directive {
    Transaction(Transaction),
    /// `YYYY-MM-DD open assets:checking SAR,USD`
    Open { date: Date, account: Account, currencies: Vec<String> },
    /// `YYYY-MM-DD close assets:checking`
    Close { date: Date, account: Account },
    /// `YYYY-MM-DD balance assets:checking 1000.00 SAR`
    Balance { date: Date, account: Account, amount: Amount },
    /// `YYYY-MM-DD pad assets:checking equity:opening-balances`
    Pad { date: Date, account: Account, source: Account },
    /// `YYYY-MM-DD commodity SAR` with an optional `precision` metadatum.
    Commodity { date: Date, info: CommodityInfo },
}

/// The date of a directive.
pub open spec fn directive_date(d: Directive) -> Date {
    match d {
        Directive::Transaction(t) => t.date,
        Directive::Open { date, .. } => date,
        Directive::Close { date, .. } => date,
        Directive::Balance { date, .. } => date,
        Directive::Pad { date, .. } => date,
        Directive::Commodity { date, .. } => date,
    }
}

impl Directive {
    pub fn date(&self) -> (r: Date)
        ensures
            r == directive_date(*self),
    {
        match self {
            Directive::Transaction(t) => t.date,
            Directive::Open { date, .. } => *date,
            Directive::Close { date, .. } => *date,
            Directive::Balance { date, .. } => *date,
            Directive::Pad { date, .. } => *date,
            Directive::Commodity { date, .. } => *date,
        }
    }
}


// ---------------------------------------------------------------------
// Views: what a posting, transaction or directive holds, as plain values
// ---------------------------------------------------------------------

/// The strings of a list.
pub open spec fn strings_view(v: Seq<String>) -> Seq<Seq<char>> {
    v.map_values(|s: String| s@)
}

/// A posting as plain values.
pub struct PostingView {
    pub account: Seq<char>,
    pub amount: Option<(DecimalValue, Seq<char>)>,
    pub cost_or_price: Option<((DecimalValue, Seq<char>), bool)>,
    pub meta: Seq<(Seq<char>, Seq<char>)>,
}

/// A cost or price as (amount, is_cost).
pub open spec fn cost_view(c: Option<CostOrPrice>) -> Option<((DecimalValue, Seq<char>), bool)> {
    match c {
        Some(x) => Some((amount_pair(x.amount), x.is_cost)),
        None => None,
    }
}

impl View for Posting {
    type V = PostingView;

    open spec fn view(&self) -> PostingView {
        PostingView {
            account: self.account@,
            amount: opt_pair(self.amount),
            cost_or_price: cost_view(self.cost_or_price),
            meta: self.meta@,
        }
    }
}

/// The postings of a list, as plain values.
pub open spec fn postings_view(v: Seq<Posting>) -> Seq<PostingView> {
    v.map_values(|p: Posting| p@)
}

/// A transaction as plain values; the date as (year, month, day).
pub struct TransactionView {
    pub id: Option<i64>,
    pub date: (int, int, int),
    pub flag: Flag,
    pub payee: Option<Seq<char>>,
    pub narration: Seq<char>,
    pub tags: Seq<Seq<char>>,
    pub links: Seq<Seq<char>>,
    pub postings: Seq<PostingView>,
    pub meta: Seq<(Seq<char>, Seq<char>)>,
}

/// An optional string as characters.
pub open spec fn opt_string(o: Option<String>) -> Option<Seq<char>> {
    match o {
        Some(s) => Some(s@),
        None => None,
    }
}

impl View for Transaction {
    type V = TransactionView;

    open spec fn view(&self) -> TransactionView {
        TransactionView {
            id: self.id,
            date: self.date.ymd(),
            flag: self.flag,
            payee: opt_string(self.payee),
            narration: self.narration@,
            tags: strings_view(self.tags@),
            links: strings_view(self.links@),
            postings: postings_view(self.postings@),
            meta: self.meta@,
        }
    }
}

/// A directive as plain values; dates as (year, month, day).
pub enum DirectiveView {
    Transaction(TransactionView),
    Open { date: (int, int, int), account: Seq<char>, currencies: Seq<Seq<char>> },
    Close { date: (int, int, int), account: Seq<char> },
    Balance { date: (int, int, int), account: Seq<char>, amount: (DecimalValue, Seq<char>) },
    Pad { date: (int, int, int), account: Seq<char>, source: Seq<char> },
    Commodity { date: (int, int, int), code: Seq<char>, precision: u8 },
}

impl View for Directive {
    type V = DirectiveView;

    open spec fn view(&self) -> DirectiveView {
        match *self {
            Directive::Transaction(t) => DirectiveView::Transaction(t@),
            Directive::Open { date, account, currencies } => DirectiveView::Open {
                date: date.ymd(),
                account: account@,
                currencies: strings_view(currencies@),
            },
            Directive::Close { date, account } => DirectiveView::Close { date: date.ymd(), account: account@ },
            Directive::Balance { date, account, amount } => DirectiveView::Balance {
                date: date.ymd(),
                account: account@,
                amount: amount_pair(amount),
            },
            Directive::Pad { date, account, source } => DirectiveView::Pad {
                date: date.ymd(),
                account: account@,
                source: source@,
            },
            Directive::Commodity { date, info } => DirectiveView::Commodity {
                date: date.ymd(),
                code: info.code@,
                precision: info.precision,
            },
        }
    }
}

/// The directives of a list, as plain values.
pub open spec fn directives_view(v: Seq<Directive>) -> Seq<DirectiveView> {
    v.map_values(|d: Directive| d@)
}


} // verus!
