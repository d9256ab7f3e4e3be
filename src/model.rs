//! The mathematical model of an aggregation: a map from station name (raw
//! bytes) to its accumulator, with the two updates lifted to maps.

use vstd::prelude::*;
use crate::stats::{Stats, empty_stats, add_reading, combine, stats_valid, lemma_combine_empty};

verus! {

pub type Summary = Map<Seq<u8>, Stats>;

/// The accumulator of `k`, or the empty one when `k` has none.
pub open spec fn stats_of(m: Summary, k: Seq<u8>) -> Stats {
    if m.contains_key(k) {
        m[k]
    } else {
        empty_stats()
    }
}

/// Adds reading `t` of station `k`.
pub open spec fn add_to_summary(m: Summary, k: Seq<u8>, t: int) -> Summary {
    m.insert(k, add_reading(stats_of(m, k), t))
}

/// Folds the partial accumulator `s` of station `k` into `m`.
pub open spec fn merge_into_summary(m: Summary, k: Seq<u8>, s: Stats) -> Summary {
    m.insert(k, combine(stats_of(m, k), s))
}

/// Merges two summaries key by key.
pub open spec fn merge_summaries(a: Summary, b: Summary) -> Summary {
    Map::new(
        |k: Seq<u8>| a.contains_key(k) || b.contains_key(k),
        |k: Seq<u8>| combine(stats_of(a, k), stats_of(b, k)),
    )
}

/// Every accumulator is valid and non-empty.
pub open spec fn summary_valid(m: Summary) -> bool {
    &&& m.dom().finite()
    &&& forall|k: Seq<u8>| #[trigger] m.contains_key(k) ==> stats_valid(m[k]) && m[k].count > 0
}

/// Merging one more station `k` into the right-hand side is folding its
/// accumulator into the merged summary.
pub proof fn lemma_merge_step(a: Summary, p: Summary, k: Seq<u8>, s: Stats)
    requires
        summary_valid(a),
        !p.contains_key(k),
    ensures
        merge_summaries(a, p.insert(k, s)) =~= merge_into_summary(merge_summaries(a, p), k, s),
        stats_of(merge_summaries(a, p), k) == stats_of(a, k),
{
    if a.contains_key(k) {
        lemma_combine_empty(a[k]);
    }
    let l = merge_summaries(a, p.insert(k, s));
    let r = merge_into_summary(merge_summaries(a, p), k, s);
    assert forall|j: Seq<u8>| #[trigger] l.contains_key(j) implies l[j] == r[j] by {
        if j != k {
            assert(stats_of(p.insert(k, s), j) == stats_of(p, j));
        }
    }
}

/// The keys of a merge are those of either side.
pub proof fn lemma_merge_dom(a: Summary, b: Summary)
    requires
        a.dom().finite(),
        b.dom().finite(),
    ensures
        merge_summaries(a, b).dom() =~= a.dom().union(b.dom()),
        merge_summaries(a, b).dom().finite(),
{
    assert(merge_summaries(a, b).dom() =~= a.dom().union(b.dom()));
}

/// An accumulator whose extremes are readings, or the empty one; unlike
/// validity it puts no bound on the count.
pub open spec fn stats_in_range(a: Stats) -> bool {
    if a.count == 0 {
        a == empty_stats()
    } else {
        &&& a.count > 0
        &&& crate::stats::is_reading(a.min)
        &&& crate::stats::is_reading(a.max)
    }
}

pub open spec fn summary_in_range(m: Summary) -> bool {
    &&& m.dom().finite()
    &&& forall|k: Seq<u8>| #[trigger] m.contains_key(k) ==> stats_in_range(m[k]) && m[k].count > 0
}

/// A station's accumulator in a merge is the combination of its two sides,
/// also for a station that neither side holds.
pub proof fn lemma_stats_of_merge(a: Summary, b: Summary, k: Seq<u8>)
    ensures
        stats_of(merge_summaries(a, b), k) == combine(stats_of(a, k), stats_of(b, k)),
{
}

/// Merging summaries is commutative.
pub proof fn lemma_merge_commutative(a: Summary, b: Summary)
    ensures
        merge_summaries(a, b) == merge_summaries(b, a),
{
    assert(merge_summaries(a, b) =~= merge_summaries(b, a));
}

/// Merging summaries is associative.
pub proof fn lemma_merge_associative(a: Summary, b: Summary, c: Summary)
    ensures
        merge_summaries(merge_summaries(a, b), c) == merge_summaries(a, merge_summaries(b, c)),
{
    let l = merge_summaries(merge_summaries(a, b), c);
    let r = merge_summaries(a, merge_summaries(b, c));
    assert forall|k: Seq<u8>| #[trigger] l.contains_key(k) implies l[k] == r[k] by {
        lemma_stats_of_merge(a, b, k);
        lemma_stats_of_merge(b, c, k);
    }
    assert(l =~= r);
}

/// The empty summary is neutral for merging.
pub proof fn lemma_merge_empty(a: Summary)
    requires
        summary_in_range(a),
    ensures
        merge_summaries(a, Map::empty()) == a,
{
    assert(merge_summaries(a, Map::empty()) =~= a);
}

/// Adding a reading is merging with the summary of that reading alone.
pub proof fn lemma_add_is_merge(m: Summary, k: Seq<u8>, t: int)
    requires
        summary_in_range(m),
        crate::stats::is_reading(t),
    ensures
        add_to_summary(m, k, t) == merge_summaries(m, add_to_summary(Map::empty(), k, t)),
{
    let l = add_to_summary(m, k, t);
    let r = merge_summaries(m, add_to_summary(Map::empty(), k, t));
    assert forall|j: Seq<u8>| #[trigger] l.contains_key(j) implies l[j] == r[j] by {
        if j != k {
            assert(m.contains_key(j));
        }
    }
    assert(l =~= r);
}

/// Adding a reading keeps a summary in range.
pub proof fn lemma_add_in_range(m: Summary, k: Seq<u8>, t: int)
    requires
        summary_in_range(m),
        crate::stats::is_reading(t),
    ensures
        summary_in_range(add_to_summary(m, k, t)),
{
}

/// Two readings commute.
pub proof fn lemma_add_commute(m: Summary, k1: Seq<u8>, t1: int, k2: Seq<u8>, t2: int)
    ensures
        add_to_summary(add_to_summary(m, k1, t1), k2, t2) == add_to_summary(
            add_to_summary(m, k2, t2),
            k1,
            t1,
        ),
{
    let l = add_to_summary(add_to_summary(m, k1, t1), k2, t2);
    let r = add_to_summary(add_to_summary(m, k2, t2), k1, t1);
    assert(l =~= r);
}

} // verus!
