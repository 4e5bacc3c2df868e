//! Per-commodity running totals, kept in commodity order: amounts in
//! different commodities are never added together.

use vstd::prelude::*;

use crate::decimal::{add_fits, add_value, Decimal, DecimalValue};
use crate::text::{chars_less, chars_of, lemma_seq_less_asymmetric, lemma_seq_less_irreflexive,
    lemma_seq_less_total, lemma_seq_less_transitive, seq_less};

verus! {

/// A zero at scale 0 (`Decimal::ZERO`).
pub open spec fn zero_value() -> DecimalValue {
    DecimalValue { negative: false, magnitude: 0, scale: 0 }
}

/// Adds `v` to the total for commodity `c`, creating it (from zero) in
/// commodity order if absent.
pub open spec fn totals_add(t: Seq<(Seq<char>, DecimalValue)>, c: Seq<char>, v: DecimalValue) -> Seq<
    (Seq<char>, DecimalValue),
>
    decreases t.len(),
{
    if t.len() == 0 {
        seq![(c, add_value(zero_value(), v))]
    } else if t[0].0 == c {
        seq![(c, add_value(t[0].1, v))] + t.drop_first()
    } else if seq_less(c, t[0].0) {
        seq![(c, add_value(zero_value(), v))] + t
    } else {
        seq![t[0]] + totals_add(t.drop_first(), c, v)
    }
}

/// The total currently held for `c`, if any.
pub open spec fn totals_get(t: Seq<(Seq<char>, DecimalValue)>, c: Seq<char>) -> Option<DecimalValue>
    decreases t.len(),
{
    if t.len() == 0 {
        None
    } else if t[0].0 == c {
        Some(t[0].1)
    } else {
        totals_get(t.drop_first(), c)
    }
}

/// Adding `v` to the total for `c` does not overflow.
pub open spec fn totals_add_fits(t: Seq<(Seq<char>, DecimalValue)>, c: Seq<char>, v: DecimalValue) -> bool {
    match totals_get(t, c) {
        Some(x) => add_fits(x, v),
        None => add_fits(zero_value(), v),
    }
}

/// Commodities strictly increasing.
pub open spec fn totals_sorted(t: Seq<(Seq<char>, DecimalValue)>) -> bool {
    forall|i: int, j: int| 0 <= i < j < t.len() ==> seq_less(t[i].0, t[j].0)
}

/// The totals as (commodity, value) pairs.
pub open spec fn totals_view(v: Seq<(String, Decimal)>) -> Seq<(Seq<char>, DecimalValue)> {
    v.map_values(|e: (String, Decimal)| (e.0@, e.1@))
}

pub proof fn lemma_totals_add_sorted(t: Seq<(Seq<char>, DecimalValue)>, c: Seq<char>, v: DecimalValue)
    requires
        totals_sorted(t),
    ensures
        totals_sorted(totals_add(t, c, v)),
        totals_add(t, c, v).len() >= 1,
        forall|i: int| 0 <= i < totals_add(t, c, v).len() ==> (#[trigger] totals_add(t, c, v)[i].0 == c
            || exists|j: int| 0 <= j < t.len() && t[j].0 == totals_add(t, c, v)[i].0),
        t.len() > 0 ==> (totals_add(t, c, v)[0].0 == c || totals_add(t, c, v)[0].0 == t[0].0),
    decreases t.len(),
{
    let r = totals_add(t, c, v);
    if t.len() == 0 {
    } else if t[0].0 == c {
        assert forall|i: int, j: int| 0 <= i < j < r.len() implies seq_less(r[i].0, r[j].0) by {
            if i == 0 {
                assert(r[j].0 == t[j].0);
                assert(r[i].0 == t[0].0);
            } else {
                assert(r[i].0 == t[i].0);
                assert(r[j].0 == t[j].0);
            }
        }
        assert forall|i: int| 0 <= i < r.len() implies (#[trigger] r[i].0 == c || exists|j: int|
            0 <= j < t.len() && t[j].0 == r[i].0) by {
            if i > 0 {
                assert(t[i].0 == r[i].0);
            }
        }
    } else if seq_less(c, t[0].0) {
        assert forall|i: int, j: int| 0 <= i < j < r.len() implies seq_less(r[i].0, r[j].0) by {
            if i == 0 {
                assert(r[j].0 == t[j - 1].0);
                if j - 1 > 0 {
                    lemma_seq_less_transitive(c, t[0].0, t[j - 1].0);
                }
            } else {
                assert(r[i].0 == t[i - 1].0);
                assert(r[j].0 == t[j - 1].0);
            }
        }
        assert forall|i: int| 0 <= i < r.len() implies (#[trigger] r[i].0 == c || exists|j: int|
            0 <= j < t.len() && t[j].0 == r[i].0) by {
            if i > 0 {
                assert(t[i - 1].0 == r[i].0);
            }
        }
    } else {
        let rest = t.drop_first();
        assert forall|i: int, j: int| 0 <= i < j < rest.len() implies seq_less(rest[i].0, rest[j].0) by {
            assert(rest[i] == t[i + 1]);
            assert(rest[j] == t[j + 1]);
        }
        lemma_totals_add_sorted(rest, c, v);
        let rr = totals_add(rest, c, v);
        lemma_seq_less_total(c, t[0].0);
        assert forall|i: int, j: int| 0 <= i < j < r.len() implies seq_less(r[i].0, r[j].0) by {
            if i == 0 {
                assert(r[j] == rr[j - 1]);
                if rr[j - 1].0 == c {
                } else {
                    let k = choose|k: int| 0 <= k < rest.len() && rest[k].0 == rr[j - 1].0;
                    assert(rest[k] == t[k + 1]);
                }
            } else {
                assert(r[i] == rr[i - 1]);
                assert(r[j] == rr[j - 1]);
            }
        }
        assert forall|i: int| 0 <= i < r.len() implies (#[trigger] r[i].0 == c || exists|j: int|
            0 <= j < t.len() && t[j].0 == r[i].0) by {
            if i == 0 {
                assert(t[0].0 == r[0].0);
            } else {
                assert(r[i] == rr[i - 1]);
                if rr[i - 1].0 != c {
                    let k = choose|k: int| 0 <= k < rest.len() && rest[k].0 == rr[i - 1].0;
                    assert(t[k + 1].0 == r[i].0);
                }
            }
        }
    }
}

/// Whether adding `v` to the total for `c` stays in range
/// ([`totals_add_fits`]).
pub fn totals_fits_exec(totals: &Vec<(String, Decimal)>, c: &String, v: &Decimal) -> (r: bool)
    ensures
        r == totals_add_fits(totals_view(totals@), c@, v@),
{
    let ghost t0 = totals_view(totals@);
    let cv = chars_of(c.as_str());
    let mut i: usize = 0;
    assert(t0.skip(0) =~= t0);
    while i < totals.len()
        invariant
            i <= totals.len(),
            t0 == totals_view(totals@),
            cv@ == c@,
            totals_get(t0, c@) == totals_get(t0.skip(i as int), c@),
        decreases totals.len() - i,
    {
        let key = chars_of(totals[i].0.as_str());
        assert(t0.skip(i as int)[0] == t0[i as int]);
        assert(t0.skip(i as int).drop_first() =~= t0.skip(i + 1));
        if crate::text::chars_eq(&key, &cv) {
            return totals[i].1.add_fits_with(v);
        }
        i += 1;
    }
    assert(t0.skip(i as int).len() == 0);
    Decimal::zero().add_fits_with(v)
}

/// Adds `v` to the total for commodity `c` in `totals`.
pub fn totals_add_exec(totals: &mut Vec<(String, Decimal)>, c: &String, v: &Decimal)
    requires
        totals_add_fits(totals_view(old(totals)@), c@, v@),
    ensures
        totals_view(final(totals)@) == totals_add(totals_view(old(totals)@), c@, v@),
{
    let ghost t0 = totals_view(totals@);
    let mut i: usize = 0;
    let cv = chars_of(c.as_str());
    assert(t0.skip(0) =~= t0);
    assert(t0.take(0) + totals_add(t0, c@, v@) =~= totals_add(t0, c@, v@));
    while i < totals.len()
        invariant
            i <= totals.len(),
            t0 == totals_view(totals@),
            t0 == totals_view(old(totals)@),
            totals_add_fits(t0, c@, v@),
            cv@ == c@,
            totals_add(t0, c@, v@) == t0.take(i as int) + totals_add(t0.skip(i as int), c@, v@),
            totals_get(t0, c@) == totals_get(t0.skip(i as int), c@),
        decreases totals.len() - i,
    {
        let key = chars_of(totals[i].0.as_str());
        assert(t0.skip(i as int)[0] == t0[i as int]);
        assert(t0.skip(i as int).drop_first() =~= t0.skip(i + 1));
        if crate::text::chars_eq(&key, &cv) {
            let old_v = totals[i].1;
            let nv = old_v.add(v);
            let entry = (c.clone(), nv);
            let ghost before = totals@;
            totals.set(i, entry);
            assert(totals_view(totals@) =~= t0.take(i as int) + totals_add(t0.skip(i as int), c@, v@));
            return;
        }
        if chars_less(&cv, &key) {
            let nv = Decimal::zero().add(v);
            totals.insert(i, (c.clone(), nv));
            assert(totals_view(totals@) =~= t0.take(i as int) + totals_add(t0.skip(i as int), c@, v@));
            return;
        }
        assert(t0.take(i + 1) =~= t0.take(i as int).push(t0[i as int]));
        assert(totals_add(t0.skip(i as int), c@, v@) == seq![t0[i as int]] + totals_add(t0.skip(i + 1), c@, v@));
        assert(t0.take(i as int) + totals_add(t0.skip(i as int), c@, v@) =~= t0.take(i + 1) + totals_add(t0.skip(i + 1), c@, v@));
        i += 1;
    }
    assert(t0.skip(i as int).len() == 0);
    let nv = Decimal::zero().add(v);
    totals.push((c.clone(), nv));
    assert(t0.take(i as int) =~= t0);
    assert(totals_view(totals@) =~= t0.take(i as int) + totals_add(t0.skip(i as int), c@, v@));
}

} // verus!
