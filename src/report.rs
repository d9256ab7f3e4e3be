//! The deterministic report: stations sorted by raw bytes, each printed as
//! `NAME=MIN/AVG/MAX` with one fractional digit, inside braces.

use vstd::prelude::*;
use crate::hash_table::MyHashMap;
use crate::model::Summary;
use crate::name::StationName;
use crate::order::{lex_lt, name_less, lemma_lex_total, lemma_lex_transitive, lemma_lex_irreflexive};
use crate::stats::{Stats, StationEntry, rounded_mean, is_reading};
use crate::temperature::{is_temp, temp_value, DOT, MINUS};
use crate::records::{Record, records, summarize, valid_input};
use crate::laws::{name_count, newline_count, lemma_counts_are_lines, lemma_summary_names, record_names};

verus! {

/// A listing of stations: names with their accumulators.
pub type Listing = Seq<(Seq<u8>, Stats)>;

pub open spec fn listing_of(v: Seq<(StationName, StationEntry)>) -> Listing {
    v.map_values(|p: (StationName, StationEntry)| (p.0@, p.1@))
}

/// Names strictly ascending.
pub open spec fn sorted(l: Listing) -> bool {
    forall|i: int, j: int| 0 <= i < j < l.len() ==> lex_lt(#[trigger] l[i].0, #[trigger] l[j].0)
}

/// `l` lists the stations of `m` in ascending order of name.
pub open spec fn sorted_listing(l: Listing, m: Summary) -> bool {
    &&& sorted(l)
    &&& forall|i: int| 0 <= i < l.len() ==> m.contains_key(#[trigger] l[i].0) && l[i].1 == m[l[i].0]
    &&& forall|k: Seq<u8>| #[trigger] m.contains_key(k) ==> exists|i: int| 0 <= i < l.len() && (#[trigger] l[i]).0 == k
}

/// The decimal digits of `n`.
pub open spec fn digits(n: nat) -> Seq<u8>
    decreases n,
{
    if n < 10 {
        seq![(48 + n) as u8]
    } else {
        digits(n / 10).push((48 + n % 10) as u8)
    }
}

/// A value in tenths with exactly one fractional digit: `-12.3` for `-123`.
pub open spec fn fmt_tenths(v: int) -> Seq<u8> {
    let a = if v < 0 {
        -v
    } else {
        v
    };
    let body = digits((a / 10) as nat).push(DOT).push((48 + a % 10) as u8);
    if v < 0 {
        seq![MINUS] + body
    } else {
        body
    }
}

/// `NAME=MIN/AVG/MAX`.
pub open spec fn fmt_entry(name: Seq<u8>, s: Stats) -> Seq<u8> {
    name + seq![61u8] + fmt_tenths(s.min) + seq![47u8] + fmt_tenths(rounded_mean(s.sum, s.count))
        + seq![47u8] + fmt_tenths(s.max)
}

/// The entries of `l` from `i` on, separated by `", "`.
pub open spec fn fmt_entries(l: Listing, i: int) -> Seq<u8>
    decreases l.len() - i,
{
    if i >= l.len() {
        Seq::empty()
    } else if i == l.len() - 1 {
        fmt_entry(l[i].0, l[i].1)
    } else {
        fmt_entry(l[i].0, l[i].1) + seq![44u8, 32u8] + fmt_entries(l, i + 1)
    }
}

/// `{` entries `}`.
pub open spec fn render(l: Listing) -> Seq<u8> {
    seq![123u8] + fmt_entries(l, 0) + seq![125u8]
}

/// Printing a reading and parsing it back yields the reading.
pub proof fn lemma_format_round_trip(v: int)
    requires
        is_reading(v),
    ensures
        is_temp(fmt_tenths(v)),
        temp_value(fmt_tenths(v)) == v,
{
    let a = if v < 0 {
        -v
    } else {
        v
    };
    let q = a / 10;
    let body = digits(q as nat).push(DOT).push((48 + a % 10) as u8);
    if q >= 10 {
        assert(q / 10 < 10);
        assert(digits((q / 10) as nat) == seq![(48 + q / 10) as u8]);
        assert(digits(q as nat) == digits((q / 10) as nat).push((48 + q % 10) as u8));
    }
    if v < 0 {
        assert((seq![MINUS] + body).drop_first() =~= body);
    }
}

/// Appends `bytes` to `out`.
fn append_bytes(out: &mut Vec<u8>, bytes: &[u8])
    ensures
        final(out)@ == old(out)@ + bytes@,
{
    let mut i: usize = 0;
    while i < bytes.len()
        invariant
            i <= bytes@.len(),
            out@ == old(out)@ + bytes@.subrange(0, i as int),
        decreases bytes@.len() - i,
    {
        out.push(bytes[i]);
        i = i + 1;
        assert(out@ =~= old(out)@ + bytes@.subrange(0, i as int));
    }
    assert(bytes@.subrange(0, bytes@.len() as int) =~= bytes@);
}

/// Appends a reading in tenths with one fractional digit.
fn push_tenths(out: &mut Vec<u8>, v: i32)
    requires
        is_reading(v as int),
    ensures
        final(out)@ == old(out)@ + fmt_tenths(v as int),
{
    let a: i32 = if v < 0 {
        out.push(MINUS);
        -v
    } else {
        v
    };
    let q = a / 10;
    let ghost mid = out@;
    if q >= 10 {
        out.push((48 + q / 10) as u8);
        out.push((48 + q % 10) as u8);
        proof {
            assert(digits((q / 10) as nat) == seq![(48 + q / 10) as u8]);
            assert(digits(q as nat) == digits((q / 10) as nat).push((48 + q % 10) as u8));
        }
    } else {
        out.push((48 + q) as u8);
    }
    out.push(DOT);
    out.push((48 + a % 10) as u8);
    proof {
        let body = digits((q as int) as nat).push(DOT).push((48 + a % 10) as u8);
        assert(out@ =~= mid + body);
        if v < 0 {
            assert(mid =~= old(out)@.push(MINUS));
            assert(out@ =~= old(out)@ + (seq![MINUS] + body));
        }
    }
}

/// Appends `NAME=MIN/AVG/MAX`.
fn push_entry(out: &mut Vec<u8>, name: &StationName, e: &StationEntry)
    requires
        e.valid(),
        e.count > 0,
    ensures
        final(out)@ == old(out)@ + fmt_entry(name@, e@),
{
    append_bytes(out, name.as_bytes());
    out.push(61u8);
    push_tenths(out, e.min);
    out.push(47u8);
    let avg = e.mean();
    push_tenths(out, avg);
    out.push(47u8);
    push_tenths(out, e.max);
    assert(out@ =~= old(out)@ + fmt_entry(name@, e@));
}

/// Renders a listing: `{NAME1=MIN/AVG/MAX, NAME2=MIN/AVG/MAX, ...}`, with no
/// trailing newline.
pub fn format_results(items: &Vec<(StationName, StationEntry)>) -> (r: Vec<u8>)
    requires
        forall|i: int| 0 <= i < items@.len() ==> (#[trigger] items@[i]).1.valid() && items@[i].1.count > 0,
    ensures
        r@ == render(listing_of(items@)),
{
    let ghost l = listing_of(items@);
    let mut out: Vec<u8> = Vec::new();
    out.push(123u8);
    let n = items.len();
    let mut i: usize = 0;
    while i < n
        invariant
            n == items@.len(),
            l == listing_of(items@),
            forall|j: int| 0 <= j < items@.len() ==> (#[trigger] items@[j]).1.valid() && items@[j].1.count > 0,
            i <= n,
            out@ + fmt_entries(l, i as int) == seq![123u8] + fmt_entries(l, 0),
        decreases n - i,
    {
        let ghost before = out@;
        push_entry(&mut out, &items[i].0, &items[i].1);
        if i + 1 < n {
            out.push(44u8);
            out.push(32u8);
        }
        proof {
            assert(l[i as int] == (items@[i as int].0@, items@[i as int].1@));
            if i + 1 < n {
                assert(out@ + fmt_entries(l, i + 1) =~= before + fmt_entries(l, i as int));
            } else {
                assert(fmt_entries(l, i + 1) =~= Seq::<u8>::empty());
                assert(out@ + fmt_entries(l, i + 1) =~= before + fmt_entries(l, i as int));
            }
        }
        i = i + 1;
    }
    proof {
        assert(fmt_entries(l, n as int) =~= Seq::<u8>::empty());
        assert(out@ =~= seq![123u8] + fmt_entries(l, 0));
    }
    out.push(125u8);
    out
}

/// Distinct names.
pub open spec fn names_distinct(l: Listing) -> bool {
    forall|i: int, j: int| 0 <= i < j < l.len() ==> (#[trigger] l[i]).0 != (#[trigger] l[j]).0
}

/// Inserts `x` into a sorted vector whose names all differ from its own,
/// before the first name that sorts after it; returns where.
fn insert_sorted(out: &mut Vec<(StationName, StationEntry)>, x: (StationName, StationEntry)) -> (p: usize)
    requires
        sorted(listing_of(old(out)@)),
        forall|a: int| 0 <= a < old(out)@.len() ==> (#[trigger] old(out)@[a]).0@ != x.0@,
    ensures
        p <= old(out)@.len(),
        final(out)@ == old(out)@.insert(p as int, x),
        sorted(listing_of(final(out)@)),
{
    let ghost ol = listing_of(out@);
    let ghost xl = (x.0@, x.1@);
    let mut p: usize = 0;
    while p < out.len() && !name_less(x.0.as_bytes(), out[p].0.as_bytes())
        invariant
            p <= out@.len(),
            forall|a: int| 0 <= a < p ==> !lex_lt(x.0@, (#[trigger] out@[a]).0@),
        decreases out@.len() - p,
    {
        p = p + 1;
    }
    proof {
        assert forall|a: int| 0 <= a < p implies lex_lt(#[trigger] ol[a].0, xl.0) by {
            assert(ol[a].0 == out@[a].0@);
            lemma_lex_total(ol[a].0, xl.0);
        }
        assert forall|a: int| p <= a < ol.len() implies lex_lt(xl.0, #[trigger] ol[a].0) by {
            assert(lex_lt(xl.0, ol[p as int].0));
            if a > p {
                lemma_lex_transitive(xl.0, ol[p as int].0, ol[a].0);
            }
        }
    }
    out.insert(p, x);
    proof {
        let nl = listing_of(out@);
        assert(nl =~= ol.insert(p as int, xl));
        assert forall|a: int, b: int| 0 <= a < b < nl.len() implies lex_lt(#[trigger] nl[a].0, #[trigger] nl[b].0) by {
            if b < p {
                assert(nl[a] == ol[a] && nl[b] == ol[b]);
            } else if b == p {
                assert(nl[a] == ol[a]);
            } else if a < p {
                assert(nl[a] == ol[a] && nl[b] == ol[b - 1]);
                lemma_lex_transitive(ol[a].0, xl.0, ol[b - 1].0);
            } else if a == p {
                assert(nl[b] == ol[b - 1]);
            } else {
                assert(nl[a] == ol[a - 1] && nl[b] == ol[b - 1]);
            }
        }
    }
    p
}

/// Sorts a listing with distinct names by ascending name.
pub fn sort_results(items: &Vec<(StationName, StationEntry)>) -> (r: Vec<(StationName, StationEntry)>)
    requires
        names_distinct(listing_of(items@)),
    ensures
        sorted(listing_of(r@)),
        listing_of(r@).to_multiset() == listing_of(items@).to_multiset(),
{
    broadcast use vstd::seq_lib::group_to_multiset_ensures;

    let ghost src = listing_of(items@);
    let mut out: Vec<(StationName, StationEntry)> = Vec::new();
    let mut i: usize = 0;
    proof {
        assert(listing_of(out@) =~= src.subrange(0, 0));
    }
    while i < items.len()
        invariant
            src == listing_of(items@),
            names_distinct(src),
            i <= items@.len(),
            sorted(listing_of(out@)),
            listing_of(out@).to_multiset() == src.subrange(0, i as int).to_multiset(),
        decreases items@.len() - i,
    {
        let ghost ol = listing_of(out@);
        let ghost xl = src[i as int];
        let x = (items[i].0.duplicate(), items[i].1.clone());
        proof {
            assert forall|a: int| 0 <= a < out@.len() implies (#[trigger] out@[a]).0@ != x.0@ by {
                ol.to_multiset_ensures();
                src.subrange(0, i as int).to_multiset_ensures();
                assert(ol.contains(ol[a]));
                assert(src.subrange(0, i as int).to_multiset().count(ol[a]) > 0);
                assert(src.subrange(0, i as int).contains(ol[a]));
                let j = choose|j: int| 0 <= j < i && src.subrange(0, i as int)[j] == ol[a];
                assert(src[j].0 != src[i as int].0);
            }
        }
        let p = insert_sorted(&mut out, x);
        proof {
            let nl = listing_of(out@);
            assert(nl =~= ol.insert(p as int, xl));
            assert(nl.remove(p as int) =~= ol);
            assert(nl[p as int] == xl);
            nl.to_multiset_ensures();
            assert(nl.to_multiset().remove(xl) == ol.to_multiset());
            assert(nl.contains(xl));
            assert(nl.to_multiset() =~= ol.to_multiset().insert(xl));
            assert(src.subrange(0, i + 1) =~= src.subrange(0, i as int).push(xl));
            src.subrange(0, i as int).to_multiset_ensures();
            assert(src.subrange(0, i as int).push(xl).to_multiset() =~= src.subrange(0, i as int).to_multiset().insert(xl));
        }
        i = i + 1;
    }
    proof {
        assert(src.subrange(0, i as int) =~= src);
    }
    out
}

proof fn lemma_sorted_is_listing(l: Listing, src: Listing, m: Summary)
    requires
        l.to_multiset() == src.to_multiset(),
        forall|i: int| 0 <= i < src.len() ==> m.contains_key(#[trigger] src[i].0) && src[i].1 == m[src[i].0],
        forall|k: Seq<u8>| #[trigger] m.contains_key(k) ==> exists|j: int| 0 <= j < src.len() && (#[trigger] src[j]).0 == k,
    ensures
        forall|i: int| 0 <= i < l.len() ==> m.contains_key(#[trigger] l[i].0) && l[i].1 == m[l[i].0],
        forall|k: Seq<u8>| #[trigger] m.contains_key(k) ==> exists|i: int| 0 <= i < l.len() && (#[trigger] l[i]).0 == k,
{
    broadcast use vstd::seq_lib::group_to_multiset_ensures;

    l.to_multiset_ensures();
    src.to_multiset_ensures();
    assert forall|i: int| 0 <= i < l.len() implies m.contains_key(#[trigger] l[i].0) && l[i].1 == m[l[i].0] by {
        assert(l.contains(l[i]));
        assert(src.to_multiset().count(l[i]) > 0);
        assert(src.contains(l[i]));
    }
    assert forall|k: Seq<u8>| #[trigger] m.contains_key(k) implies exists|i: int| 0 <= i < l.len() && (#[trigger] l[i]).0 == k by {
        let j = choose|j: int| 0 <= j < src.len() && (#[trigger] src[j]).0 == k;
        assert(src.contains(src[j]));
        assert(l.to_multiset().count(src[j]) > 0);
        assert(l.contains(src[j]));
        let i = choose|i: int| 0 <= i < l.len() && l[i] == src[j];
        assert(l[i].0 == k);
    }
}

/// The report of a table: its stations in ascending order of name, rendered.
pub fn format_output(table: &MyHashMap) -> (r: Vec<u8>)
    requires
        table.wf(),
    ensures
        exists|l: Listing| sorted_listing(l, table@) && r@ == render(l),
{
    let items = table.iter();
    let ghost src = listing_of(items@);
    proof {
        table.lemma_valid();
        assert forall|i: int, j: int| 0 <= i < j < src.len() implies (#[trigger] src[i]).0 != (#[trigger] src[j]).0 by {
            assert(src[i].0 == items@[i].0@);
            assert(src[j].0 == items@[j].0@);
        }
        assert forall|i: int| 0 <= i < src.len() implies table@.contains_key(#[trigger] src[i].0) && src[i].1 == table@[src[i].0] by {
            assert(src[i] == (items@[i].0@, items@[i].1@));
        }
        assert forall|k: Seq<u8>| #[trigger] table@.contains_key(k) implies exists|j: int| 0 <= j < src.len() && (#[trigger] src[j]).0 == k by {
            let j = choose|j: int| 0 <= j < items@.len() && (#[trigger] items@[j]).0@ == k;
            assert(src[j].0 == k);
        }
    }
    let sorted_items = sort_results(&items);
    let ghost l = listing_of(sorted_items@);
    proof {
        lemma_sorted_is_listing(l, src, table@);
        assert forall|i: int| 0 <= i < sorted_items@.len() implies (#[trigger] sorted_items@[i]).1.valid() && sorted_items@[i].1.count > 0 by {
            assert(l[i] == (sorted_items@[i].0@, sorted_items@[i].1@));
            assert(table@.contains_key(l[i].0));
        }
    }
    format_results(&sorted_items)
}

/// The counts of a listing, added up.
pub open spec fn total_count(l: Listing) -> int
    decreases l.len(),
{
    if l.len() == 0 {
        0
    } else {
        l[0].1.count + total_count(l.drop_first())
    }
}

spec fn sum_name_counts(l: Listing, recs: Seq<Record>) -> nat
    decreases l.len(),
{
    if l.len() == 0 {
        0
    } else {
        name_count(recs, l[0].0) + sum_name_counts(l.drop_first(), recs)
    }
}

spec fn occurrences(l: Listing, k: Seq<u8>) -> nat
    decreases l.len(),
{
    if l.len() == 0 {
        0
    } else {
        (if l[0].0 == k {
            1nat
        } else {
            0nat
        }) + occurrences(l.drop_first(), k)
    }
}

proof fn lemma_sum_cons(l: Listing, r: Record, rest: Seq<Record>)
    ensures
        sum_name_counts(l, seq![r] + rest) == occurrences(l, r.name) + sum_name_counts(l, rest),
    decreases l.len(),
{
    let recs = seq![r] + rest;
    assert(recs[0] == r);
    assert(recs.drop_first() =~= rest);
    if l.len() > 0 {
        lemma_sum_cons(l.drop_first(), r, rest);
    }
}

proof fn lemma_occurs_once(l: Listing, k: Seq<u8>)
    requires
        names_distinct(l),
        exists|a: int| 0 <= a < l.len() && (#[trigger] l[a]).0 == k,
    ensures
        occurrences(l, k) == 1,
    decreases l.len(),
{
    let t = l.drop_first();
    assert(names_distinct(t)) by {
        assert forall|i: int, j: int| 0 <= i < j < t.len() implies (#[trigger] t[i]).0 != (#[trigger] t[j]).0 by {
            assert(t[i] == l[i + 1] && t[j] == l[j + 1]);
        }
    }
    if l[0].0 == k {
        lemma_occurs_none(t, k);
        assert forall|a: int| 0 <= a < t.len() implies (#[trigger] t[a]).0 != k by {
            assert(t[a] == l[a + 1]);
        }
    } else {
        let a = choose|a: int| 0 <= a < l.len() && (#[trigger] l[a]).0 == k;
        assert(t[a - 1] == l[a]);
        lemma_occurs_once(t, k);
    }
}

proof fn lemma_occurs_none(l: Listing, k: Seq<u8>)
    ensures
        (forall|a: int| 0 <= a < l.len() ==> (#[trigger] l[a]).0 != k) ==> occurrences(l, k) == 0,
    decreases l.len(),
{
    if l.len() > 0 {
        lemma_occurs_none(l.drop_first(), k);
        if forall|a: int| 0 <= a < l.len() ==> (#[trigger] l[a]).0 != k {
            assert forall|a: int| 0 <= a < l.drop_first().len() implies (#[trigger] l.drop_first()[a]).0 != k by {
                assert(l.drop_first()[a] == l[a + 1]);
            }
            assert(l[0].0 != k);
        }
    }
}

proof fn lemma_sum_is_len(l: Listing, recs: Seq<Record>)
    requires
        names_distinct(l),
        forall|i: int| 0 <= i < recs.len() ==> exists|a: int| 0 <= a < l.len() && (#[trigger] l[a]).0 == (#[trigger] recs[i]).name,
    ensures
        sum_name_counts(l, recs) == recs.len(),
    decreases recs.len(),
{
    if recs.len() == 0 {
        lemma_sum_empty(l, recs);
    } else {
        let r = recs[0];
        let rest = recs.drop_first();
        assert(recs =~= seq![r] + rest);
        lemma_sum_cons(l, r, rest);
        assert(exists|a: int| 0 <= a < l.len() && (#[trigger] l[a]).0 == recs[0].name);
        lemma_occurs_once(l, r.name);
        assert forall|i: int| 0 <= i < rest.len() implies exists|a: int| 0 <= a < l.len() && (#[trigger] l[a]).0 == (#[trigger] rest[i]).name by {
            assert(rest[i] == recs[i + 1]);
        }
        lemma_sum_is_len(l, rest);
    }
}

proof fn lemma_sum_empty(l: Listing, recs: Seq<Record>)
    requires
        recs.len() == 0,
    ensures
        sum_name_counts(l, recs) == 0,
    decreases l.len(),
{
    if l.len() > 0 {
        lemma_sum_empty(l.drop_first(), recs);
    }
}

proof fn lemma_total_is_sum(l: Listing, s: Seq<u8>)
    requires
        valid_input(s),
        forall|i: int| 0 <= i < l.len() ==> summarize(s).contains_key(#[trigger] l[i].0) && l[i].1 == summarize(s)[l[i].0],
    ensures
        total_count(l) == sum_name_counts(l, records(s)),
    decreases l.len(),
{
    if l.len() > 0 {
        lemma_counts_are_lines(s, l[0].0);
        assert forall|i: int| 0 <= i < l.drop_first().len() implies summarize(s).contains_key(#[trigger] l.drop_first()[i].0) && l.drop_first()[i].1 == summarize(s)[l.drop_first()[i].0] by {
            assert(l.drop_first()[i] == l[i + 1]);
        }
        lemma_total_is_sum(l.drop_first(), s);
    }
}

/// The counts of all stations of a report add up to the number of
/// terminators in the input.
pub proof fn lemma_total_count(s: Seq<u8>, l: Listing)
    requires
        valid_input(s),
        sorted_listing(l, summarize(s)),
    ensures
        total_count(l) == newline_count(s),
{
    assert(names_distinct(l)) by {
        assert forall|i: int, j: int| 0 <= i < j < l.len() implies (#[trigger] l[i]).0 != (#[trigger] l[j]).0 by {
            assert(lex_lt(l[i].0, l[j].0));
            lemma_lex_irreflexive(l[i].0);
        }
    }
    let recs = records(s);
    lemma_summary_names(s);
    assert forall|i: int| 0 <= i < recs.len() implies exists|a: int| 0 <= a < l.len() && (#[trigger] l[a]).0 == (#[trigger] recs[i]).name by {
        assert(record_names(recs).contains(recs[i].name));
        assert(summarize(s).contains_key(recs[i].name));
    }
    lemma_sum_is_len(l, recs);
    lemma_total_is_sum(l, s);
    lemma_counts_are_lines(s, Seq::empty());
}

proof fn lemma_listing_tail(l: Listing, m: Summary)
    requires
        sorted_listing(l, m),
        l.len() > 0,
    ensures
        sorted_listing(l.drop_first(), m.remove(l[0].0)),
{
    let k = l[0].0;
    let t = l.drop_first();
    let m2 = m.remove(k);
    assert forall|i: int, j: int| 0 <= i < j < t.len() implies lex_lt(#[trigger] t[i].0, #[trigger] t[j].0) by {
        assert(t[i] == l[i + 1] && t[j] == l[j + 1]);
    }
    assert forall|i: int| 0 <= i < t.len() implies m2.contains_key(#[trigger] t[i].0) && t[i].1 == m2[t[i].0] by {
        assert(t[i] == l[i + 1]);
        assert(lex_lt(l[0].0, l[i + 1].0));
        lemma_lex_irreflexive(k);
    }
    assert forall|k2: Seq<u8>| #[trigger] m2.contains_key(k2) implies exists|i: int| 0 <= i < t.len() && (#[trigger] t[i]).0 == k2 by {
        let i = choose|i: int| 0 <= i < l.len() && (#[trigger] l[i]).0 == k2;
        assert(i != 0);
        assert(t[i - 1] == l[i]);
    }
}

/// A summary has exactly one sorted listing, so the report of a table is
/// determined by the table's summary.
pub proof fn lemma_sorted_listing_unique(l1: Listing, l2: Listing, m: Summary)
    requires
        sorted_listing(l1, m),
        sorted_listing(l2, m),
    ensures
        l1 == l2,
    decreases l1.len(),
{
    if l1.len() == 0 || l2.len() == 0 {
        if l1.len() > 0 {
            assert(m.contains_key(l1[0].0));
        }
        if l2.len() > 0 {
            assert(m.contains_key(l2[0].0));
        }
        assert(l1 =~= l2);
    } else {
        let k1 = l1[0].0;
        let k2 = l2[0].0;
        if k1 != k2 {
            assert(m.contains_key(k1));
            assert(m.contains_key(k2));
            let j = choose|j: int| 0 <= j < l2.len() && (#[trigger] l2[j]).0 == k1;
            let i = choose|i: int| 0 <= i < l1.len() && (#[trigger] l1[i]).0 == k2;
            assert(lex_lt(l2[0].0, l2[j].0));
            assert(lex_lt(l1[0].0, l1[i].0));
            lemma_lex_total(k1, k2);
        }
        assert(m.contains_key(k1));
        lemma_listing_tail(l1, m);
        lemma_listing_tail(l2, m);
        lemma_sorted_listing_unique(l1.drop_first(), l2.drop_first(), m.remove(k1));
        assert(l1 =~= seq![l1[0]] + l1.drop_first());
        assert(l2 =~= seq![l2[0]] + l2.drop_first());
    }
}

} // verus!
