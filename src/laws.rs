//! Laws of the aggregation as a whole: how the summary of an input relates
//! to the summaries of its parts and to reorderings of its lines.

use vstd::prelude::*;
use crate::model::{
    Summary, add_to_summary, merge_summaries, summary_in_range, stats_of, lemma_merge_empty,
    lemma_add_is_merge, lemma_add_in_range, lemma_merge_associative, lemma_add_commute,
};
use crate::records::{
    Record, records, valid_input, fold_records, summarize, first_of, lemma_first_of,
    lemma_first_of_is, NEWLINE, line_record, valid_line,
};
use crate::stats::is_reading;
use crate::temperature::lemma_temp_range;

verus! {

/// Every record carries a reading.
pub open spec fn all_readings(recs: Seq<Record>) -> bool {
    forall|i: int| 0 <= i < recs.len() ==> is_reading(#[trigger] recs[i].value)
}

/// The records of a valid input carry readings.
pub proof fn lemma_records_readings(s: Seq<u8>)
    requires
        valid_input(s),
    ensures
        all_readings(records(s)),
    decreases s.len(),
{
    if s.len() > 0 {
        let nl = first_of(s, NEWLINE) as int;
        let line = s.subrange(0, nl);
        let rest = s.subrange(nl + 1, s.len() as int);
        lemma_records_readings(rest);
        let sep = first_of(line, crate::records::SEMICOLON) as int;
        lemma_temp_range(line.subrange(sep + 1, line.len() as int));
        assert forall|i: int| 0 <= i < records(s).len() implies is_reading(#[trigger] records(s)[i].value) by {
            if i > 0 {
                assert(records(s)[i] == records(rest)[i - 1]);
            }
        }
    }
}

/// The records of two inputs laid end to end are those of the first, then
/// those of the second, when the first ends on a terminator.
pub proof fn lemma_records_concat(a: Seq<u8>, b: Seq<u8>)
    requires
        valid_input(a),
    ensures
        records(a + b) == records(a) + records(b),
    decreases a.len(),
{
    if a.len() == 0 {
        assert(a + b =~= b);
        assert(records(a) + records(b) =~= records(b));
    } else {
        let nl = first_of(a, NEWLINE) as int;
        lemma_first_of(a, NEWLINE);
        let ab = a + b;
        assert forall|j: int| 0 <= j < nl implies ab[j] != NEWLINE by {
            assert(ab[j] == a[j]);
        }
        lemma_first_of_is(ab, NEWLINE, nl);
        let rest = a.subrange(nl + 1, a.len() as int);
        lemma_records_concat(rest, b);
        assert(ab.subrange(0, nl) =~= a.subrange(0, nl));
        assert(ab.subrange(nl + 1, ab.len() as int) =~= rest + b);
        assert(records(ab) =~= records(a) + records(b));
    }
}

/// Folding two runs of records is folding the first, then the second.
pub proof fn lemma_fold_concat(m: Summary, x: Seq<Record>, y: Seq<Record>)
    ensures
        fold_records(m, x + y) == fold_records(fold_records(m, x), y),
    decreases x.len(),
{
    if x.len() == 0 {
        assert(x + y =~= y);
    } else {
        let m2 = add_to_summary(m, x[0].name, x[0].value);
        lemma_fold_concat(m2, x.drop_first(), y);
        assert((x + y).drop_first() =~= x.drop_first() + y);
        assert((x + y)[0] == x[0]);
    }
}

/// Folding keeps a summary in range.
pub proof fn lemma_fold_in_range(m: Summary, recs: Seq<Record>)
    requires
        summary_in_range(m),
        all_readings(recs),
    ensures
        summary_in_range(fold_records(m, recs)),
    decreases recs.len(),
{
    if recs.len() > 0 {
        assert(is_reading(recs[0].value));
        lemma_add_in_range(m, recs[0].name, recs[0].value);
        assert forall|i: int| 0 <= i < recs.drop_first().len() implies is_reading(#[trigger] recs.drop_first()[i].value) by {
            assert(recs.drop_first()[i] == recs[i + 1]);
        }
        lemma_fold_in_range(add_to_summary(m, recs[0].name, recs[0].value), recs.drop_first());
    }
}

/// Folding records into a summary is merging it with the records' own summary.
pub proof fn lemma_fold_is_merge(m: Summary, recs: Seq<Record>)
    requires
        summary_in_range(m),
        all_readings(recs),
    ensures
        fold_records(m, recs) == merge_summaries(m, fold_records(Map::empty(), recs)),
    decreases recs.len(),
{
    if recs.len() == 0 {
        lemma_merge_empty(m);
    } else {
        let r = recs[0];
        let tail = recs.drop_first();
        assert(is_reading(r.value));
        assert forall|i: int| 0 <= i < tail.len() implies is_reading(#[trigger] tail[i].value) by {
            assert(tail[i] == recs[i + 1]);
        }
        let e = Map::<Seq<u8>, crate::stats::Stats>::empty();
        let m1 = add_to_summary(m, r.name, r.value);
        let e1 = add_to_summary(e, r.name, r.value);
        lemma_add_in_range(m, r.name, r.value);
        lemma_add_in_range(e, r.name, r.value);
        lemma_fold_is_merge(m1, tail);
        lemma_fold_is_merge(e1, tail);
        lemma_add_is_merge(m, r.name, r.value);
        lemma_merge_associative(m, e1, fold_records(e, tail));
    }
}

/// Splitting an input at a line boundary: its summary is the merge of the
/// summaries of the two parts. With merging commutative and associative,
/// any partition into line-aligned chunks, reduced in any order, gives the
/// summary of the whole.
pub proof fn lemma_summarize_concat(a: Seq<u8>, b: Seq<u8>)
    requires
        valid_input(a),
        valid_input(b),
    ensures
        summarize(a + b) == merge_summaries(summarize(a), summarize(b)),
{
    let e = Map::<Seq<u8>, crate::stats::Stats>::empty();
    lemma_records_concat(a, b);
    lemma_fold_concat(e, records(a), records(b));
    lemma_records_readings(a);
    lemma_records_readings(b);
    lemma_fold_in_range(e, records(a));
    lemma_fold_is_merge(summarize(a), records(b));
}

/// A record folded last gives what folding it first gives.
proof fn lemma_fold_last_first(m: Summary, x: Seq<Record>, r: Record)
    ensures
        fold_records(m, x.push(r)) == fold_records(add_to_summary(m, r.name, r.value), x),
    decreases x.len(),
{
    if x.len() == 0 {
        assert(x.push(r)[0] == r);
        assert(x.push(r).drop_first() =~= x);
    } else {
        let a = x[0];
        let m1 = add_to_summary(m, a.name, a.value);
        assert(x.push(r).drop_first() =~= x.drop_first().push(r));
        assert(x.push(r)[0] == a);
        lemma_fold_last_first(m1, x.drop_first(), r);
        lemma_add_commute(m, a.name, a.value, r.name, r.value);
    }
}

/// Folding is indifferent to the order of the records: two runs holding the
/// same records, each as often, fold to the same summary.
pub proof fn lemma_fold_permutation(m: Summary, x: Seq<Record>, y: Seq<Record>)
    requires
        x.to_multiset() == y.to_multiset(),
    ensures
        fold_records(m, x) == fold_records(m, y),
    decreases x.len(),
{
    broadcast use vstd::seq_lib::group_to_multiset_ensures;

    if x.len() == 0 {
        assert(x.to_multiset().len() == 0);
        assert(y.to_multiset().len() == y.len());
        assert(y.len() == 0);
        assert(y =~= x);
    } else {
        let r = x[0];
        assert(x.contains(r));
        assert(y.to_multiset().count(r) > 0);
        assert(y.contains(r));
        let j = choose|j: int| 0 <= j < y.len() && y[j] == r;
        let y1 = y.remove(j);
        assert(x.remove(0) =~= x.drop_first());
        assert(y1.to_multiset() =~= x.drop_first().to_multiset());
        let m1 = add_to_summary(m, r.name, r.value);
        lemma_fold_permutation(m1, x.drop_first(), y1);
        let pre = y.subrange(0, j);
        let post = y.subrange(j + 1, y.len() as int);
        assert(y =~= pre.push(r) + post);
        assert(y1 =~= pre + post);
        lemma_fold_concat(m, pre.push(r), post);
        lemma_fold_last_first(m, pre, r);
        lemma_fold_concat(m1, pre, post);
    }
}

/// An input made of the lines `ls`, each with its terminator.
pub open spec fn join_lines(ls: Seq<Seq<u8>>) -> Seq<u8>
    decreases ls.len(),
{
    if ls.len() == 0 {
        Seq::empty()
    } else {
        ls[0].push(NEWLINE) + join_lines(ls.drop_first())
    }
}

/// A line without terminator that is valid.
pub open spec fn good_line(l: Seq<u8>) -> bool {
    first_of(l, NEWLINE) == l.len() && valid_line(l)
}

proof fn lemma_join_records(ls: Seq<Seq<u8>>)
    requires
        forall|i: int| 0 <= i < ls.len() ==> good_line(#[trigger] ls[i]),
    ensures
        valid_input(join_lines(ls)),
        records(join_lines(ls)) == ls.map_values(|l: Seq<u8>| line_record(l)),
    decreases ls.len(),
{
    if ls.len() > 0 {
        let l = ls[0];
        let rest = ls.drop_first();
        assert forall|i: int| 0 <= i < rest.len() implies good_line(#[trigger] rest[i]) by {
            assert(rest[i] == ls[i + 1]);
        }
        lemma_join_records(rest);
        let s = join_lines(ls);
        assert(good_line(ls[0]));
        lemma_first_of(l, NEWLINE);
        assert forall|j: int| 0 <= j < l.len() implies s[j] != NEWLINE by {
            assert(s[j] == l[j]);
        }
        assert(s[l.len() as int] == NEWLINE);
        lemma_first_of_is(s, NEWLINE, l.len() as int);
        assert(s.subrange(0, l.len() as int) =~= l);
        assert(s.subrange(l.len() as int + 1, s.len() as int) =~= join_lines(rest));
        assert(records(s) =~= ls.map_values(|l: Seq<u8>| line_record(l)));
    }
}

/// Reordering the lines of an input leaves its summary unchanged.
pub proof fn lemma_summarize_permutation(ls1: Seq<Seq<u8>>, ls2: Seq<Seq<u8>>)
    requires
        forall|i: int| 0 <= i < ls1.len() ==> good_line(#[trigger] ls1[i]),
        ls1.to_multiset() == ls2.to_multiset(),
    ensures
        valid_input(join_lines(ls2)),
        summarize(join_lines(ls1)) == summarize(join_lines(ls2)),
{
    broadcast use vstd::seq_lib::group_to_multiset_ensures;

    assert forall|i: int| 0 <= i < ls2.len() implies good_line(#[trigger] ls2[i]) by {
        assert(ls2.contains(ls2[i]));
        assert(ls1.to_multiset().count(ls2[i]) > 0);
        assert(ls1.contains(ls2[i]));
    }
    lemma_join_records(ls1);
    lemma_join_records(ls2);
    let f = |l: Seq<u8>| line_record(l);
    lemma_map_multiset(ls1, ls2, f);
    lemma_fold_permutation(Map::empty(), ls1.map_values(f), ls2.map_values(f));
}

/// Mapping keeps two runs with equal multisets equal as multisets.
proof fn lemma_map_multiset<A, B>(x: Seq<A>, y: Seq<A>, f: spec_fn(A) -> B)
    requires
        x.to_multiset() == y.to_multiset(),
    ensures
        x.map_values(f).to_multiset() == y.map_values(f).to_multiset(),
    decreases x.len(),
{
    broadcast use vstd::seq_lib::group_to_multiset_ensures;

    if x.len() == 0 {
        assert(x.to_multiset().len() == 0);
        assert(y.to_multiset().len() == y.len());
        assert(y.len() == 0);
        assert(x.map_values(f) =~= y.map_values(f));
    } else {
        let a = x[0];
        assert(x.contains(a));
        assert(y.to_multiset().count(a) > 0);
        assert(y.contains(a));
        let j = choose|j: int| 0 <= j < y.len() && y[j] == a;
        assert(x.remove(0) =~= x.drop_first());
        lemma_map_multiset(x.drop_first(), y.remove(j), f);
        assert(x.map_values(f).remove(0) =~= x.drop_first().map_values(f));
        assert(y.map_values(f).remove(j) =~= y.remove(j).map_values(f));
        assert(x.map_values(f).to_multiset() =~= x.map_values(f).remove(0).to_multiset().insert(f(a))) by {
            assert(x.map_values(f).to_multiset().remove(f(a)).insert(f(a)) =~= x.map_values(f).to_multiset());
        }
        assert(y.map_values(f).to_multiset() =~= y.map_values(f).remove(j).to_multiset().insert(f(a))) by {
            assert(y.map_values(f)[j] == f(a));
            assert(y.map_values(f).to_multiset().remove(f(a)).insert(f(a)) =~= y.map_values(f).to_multiset());
        }
    }
}

/// Two valid inputs laid end to end form a valid input.
pub proof fn lemma_valid_concat(a: Seq<u8>, b: Seq<u8>)
    requires
        valid_input(a),
        valid_input(b),
    ensures
        valid_input(a + b),
    decreases a.len(),
{
    if a.len() == 0 {
        assert(a + b =~= b);
    } else {
        let nl = first_of(a, NEWLINE) as int;
        lemma_first_of(a, NEWLINE);
        let ab = a + b;
        assert forall|j: int| 0 <= j < nl implies ab[j] != NEWLINE by {
            assert(ab[j] == a[j]);
        }
        lemma_first_of_is(ab, NEWLINE, nl);
        let rest = a.subrange(nl + 1, a.len() as int);
        lemma_valid_concat(rest, b);
        assert(ab.subrange(0, nl) =~= a.subrange(0, nl));
        assert(ab.subrange(nl + 1, ab.len() as int) =~= rest + b);
    }
}

/// A valid input has at most one record per byte.
pub proof fn lemma_records_len(s: Seq<u8>)
    requires
        valid_input(s),
    ensures
        records(s).len() <= s.len(),
    decreases s.len(),
{
    if s.len() > 0 {
        let nl = first_of(s, NEWLINE) as int;
        lemma_records_len(s.subrange(nl + 1, s.len() as int));
    }
}

/// Folding `recs` raises no count by more than `recs.len()`.
pub proof fn lemma_fold_count(m: Summary, recs: Seq<Record>, k: Seq<u8>)
    ensures
        stats_of(fold_records(m, recs), k).count <= stats_of(m, k).count + recs.len(),
    decreases recs.len(),
{
    if recs.len() > 0 {
        let m1 = add_to_summary(m, recs[0].name, recs[0].value);
        lemma_fold_count(m1, recs.drop_first(), k);
    }
}

/// No station of an input is counted more often than the input has bytes.
pub proof fn lemma_summarize_count(s: Seq<u8>, k: Seq<u8>)
    requires
        valid_input(s),
    ensures
        stats_of(summarize(s), k).count <= s.len(),
{
    lemma_records_len(s);
    lemma_fold_count(Map::empty(), records(s), k);
}

/// What follows a valid prefix of a valid input is valid.
pub proof fn lemma_valid_suffix(c: Seq<u8>, d: Seq<u8>)
    requires
        valid_input(c),
        valid_input(c + d),
    ensures
        valid_input(d),
    decreases c.len(),
{
    if c.len() == 0 {
        assert(c + d =~= d);
    } else {
        let nl = first_of(c, NEWLINE) as int;
        lemma_first_of(c, NEWLINE);
        let cd = c + d;
        assert forall|j: int| 0 <= j < nl implies cd[j] != NEWLINE by {
            assert(cd[j] == c[j]);
        }
        lemma_first_of_is(cd, NEWLINE, nl);
        let rest = c.subrange(nl + 1, c.len() as int);
        assert(cd.subrange(nl + 1, cd.len() as int) =~= rest + d);
        lemma_valid_suffix(rest, d);
    }
}

/// The summary of a valid input has finitely many stations.
pub proof fn lemma_summarize_finite(s: Seq<u8>)
    ensures
        summarize(s).dom().finite(),
{
    crate::records::lemma_fold_dom(Map::empty(), records(s));
}

/// The names of the records.
pub open spec fn record_names(recs: Seq<Record>) -> Set<Seq<u8>> {
    Set::new(|k: Seq<u8>| exists|i: int| 0 <= i < recs.len() && (#[trigger] recs[i]).name == k)
}

proof fn lemma_fold_dom_exact(m: Summary, recs: Seq<Record>)
    ensures
        fold_records(m, recs).dom() =~= m.dom().union(record_names(recs)),
    decreases recs.len(),
{
    if recs.len() > 0 {
        let r = recs[0];
        let tail = recs.drop_first();
        lemma_fold_dom_exact(add_to_summary(m, r.name, r.value), tail);
        assert forall|k: Seq<u8>| record_names(recs).contains(k) <==> (k == r.name || record_names(tail).contains(k)) by {
            if record_names(recs).contains(k) {
                let i = choose|i: int| 0 <= i < recs.len() && (#[trigger] recs[i]).name == k;
                if i > 0 {
                    assert(tail[i - 1] == recs[i]);
                }
            }
            if record_names(tail).contains(k) {
                let i = choose|i: int| 0 <= i < tail.len() && (#[trigger] tail[i]).name == k;
                assert(recs[i + 1] == tail[i]);
            }
            if k == r.name {
                assert(recs[0].name == k);
            }
        }
    }
}

/// The stations of a summary are exactly the distinct names of the input's
/// records.
pub proof fn lemma_summary_names(s: Seq<u8>)
    ensures
        summarize(s).dom() == record_names(records(s)),
{
    lemma_fold_dom_exact(Map::empty(), records(s));
    assert(summarize(s).dom() =~= record_names(records(s)));
}

/// How many of the records carry the name `k`.
pub open spec fn name_count(recs: Seq<Record>, k: Seq<u8>) -> nat
    decreases recs.len(),
{
    if recs.len() == 0 {
        0
    } else {
        (if recs[0].name == k {
            1nat
        } else {
            0nat
        }) + name_count(recs.drop_first(), k)
    }
}

proof fn lemma_fold_count_exact(m: Summary, recs: Seq<Record>, k: Seq<u8>)
    ensures
        stats_of(fold_records(m, recs), k).count == stats_of(m, k).count + name_count(recs, k),
    decreases recs.len(),
{
    if recs.len() > 0 {
        lemma_fold_count_exact(add_to_summary(m, recs[0].name, recs[0].value), recs.drop_first(), k);
    }
}

/// How many terminators `s` holds.
pub open spec fn newline_count(s: Seq<u8>) -> nat
    decreases s.len(),
{
    if s.len() == 0 {
        0
    } else {
        (if s[0] == NEWLINE {
            1nat
        } else {
            0nat
        }) + newline_count(s.drop_first())
    }
}

proof fn lemma_newline_count_concat(a: Seq<u8>, b: Seq<u8>)
    ensures
        newline_count(a + b) == newline_count(a) + newline_count(b),
    decreases a.len(),
{
    if a.len() == 0 {
        assert(a + b =~= b);
    } else {
        assert((a + b).drop_first() =~= a.drop_first() + b);
        lemma_newline_count_concat(a.drop_first(), b);
    }
}

proof fn lemma_newline_count_none(a: Seq<u8>)
    requires
        forall|j: int| 0 <= j < a.len() ==> a[j] != NEWLINE,
    ensures
        newline_count(a) == 0,
    decreases a.len(),
{
    if a.len() > 0 {
        lemma_newline_count_none(a.drop_first());
    }
}

/// A valid input has one record per terminator.
pub proof fn lemma_records_are_lines(s: Seq<u8>)
    requires
        valid_input(s),
    ensures
        records(s).len() == newline_count(s),
    decreases s.len(),
{
    if s.len() > 0 {
        let nl = first_of(s, NEWLINE) as int;
        lemma_first_of(s, NEWLINE);
        let rest = s.subrange(nl + 1, s.len() as int);
        lemma_records_are_lines(rest);
        assert(s =~= s.subrange(0, nl) + seq![NEWLINE] + rest);
        lemma_newline_count_concat(s.subrange(0, nl) + seq![NEWLINE], rest);
        lemma_newline_count_concat(s.subrange(0, nl), seq![NEWLINE]);
        lemma_newline_count_none(s.subrange(0, nl));
        assert(newline_count(seq![NEWLINE]) == 1) by {
            let one = seq![NEWLINE];
            assert(one.drop_first() =~= Seq::<u8>::empty());
            assert(newline_count(one.drop_first()) == 0);
            assert(one[0] == NEWLINE);
        }
    }
}

/// Each station is counted once per line that names it, and the input has
/// one line per terminator: the counts over all stations add up to the
/// number of terminators.
pub proof fn lemma_counts_are_lines(s: Seq<u8>, k: Seq<u8>)
    requires
        valid_input(s),
    ensures
        stats_of(summarize(s), k).count == name_count(records(s), k),
        records(s).len() == newline_count(s),
{
    lemma_fold_count_exact(Map::empty(), records(s), k);
    lemma_records_are_lines(s);
}

} // verus!
