//! The model of the perfect-hash dictionary: a vector of accumulators, one
//! per slot, into which each record's reading goes at its name's slot.

use vstd::prelude::*;
use crate::model::stats_in_range;
use crate::phf::{PHF_SIZE, name_index};
use crate::records::{Record, fold_records, records, summarize, valid_input, lemma_fold_dom};
use crate::model::{Summary, stats_of, add_to_summary};
use crate::stats::{Stats, empty_stats, add_reading, combine, is_reading};
use crate::laws::{all_readings, lemma_records_readings, lemma_records_concat};

verus! {

/// Every slot empty.
pub open spec fn empty_slots() -> Seq<Stats> {
    Seq::new(PHF_SIZE as nat, |i: int| empty_stats())
}

/// Adds the reading of `r` at the slot of its name.
pub open spec fn slot_add(v: Seq<Stats>, r: Record) -> Seq<Stats> {
    let i = name_index(r.name);
    v.update(i, add_reading(v[i], r.value))
}

/// Folds the records, front to back, into the slots `v`.
pub open spec fn fold_slots(v: Seq<Stats>, recs: Seq<Record>) -> Seq<Stats>
    decreases recs.len(),
{
    if recs.len() == 0 {
        v
    } else {
        fold_slots(slot_add(v, recs[0]), recs.drop_first())
    }
}

/// Slot-wise combination.
pub open spec fn combine_slots(a: Seq<Stats>, b: Seq<Stats>) -> Seq<Stats> {
    Seq::new(PHF_SIZE as nat, |i: int| combine(a[i], b[i]))
}

pub open spec fn slots_in_range(v: Seq<Stats>) -> bool {
    &&& v.len() == PHF_SIZE
    &&& forall|i: int| 0 <= i < PHF_SIZE ==> stats_in_range(#[trigger] v[i])
}

proof fn lemma_name_index_bound(name: Seq<u8>)
    ensures
        0 <= name_index(name) < PHF_SIZE,
{
}

/// A reading added to a combination may be added to either side.
pub proof fn lemma_slot_add_combine(a: Seq<Stats>, b: Seq<Stats>, r: Record)
    requires
        a.len() == PHF_SIZE,
        b.len() == PHF_SIZE,
    ensures
        slot_add(combine_slots(a, b), r) == combine_slots(slot_add(a, r), b),
        slot_add(combine_slots(a, b), r) == combine_slots(a, slot_add(b, r)),
{
    lemma_name_index_bound(r.name);
    assert(slot_add(combine_slots(a, b), r) =~= combine_slots(slot_add(a, r), b));
    assert(slot_add(combine_slots(a, b), r) =~= combine_slots(a, slot_add(b, r)));
}

proof fn lemma_fold_slots_in_range(v: Seq<Stats>, recs: Seq<Record>)
    requires
        slots_in_range(v),
        all_readings(recs),
    ensures
        slots_in_range(fold_slots(v, recs)),
    decreases recs.len(),
{
    if recs.len() > 0 {
        lemma_name_index_bound(recs[0].name);
        assert(is_reading(recs[0].value));
        let v1 = slot_add(v, recs[0]);
        assert forall|i: int| 0 <= i < PHF_SIZE implies stats_in_range(#[trigger] v1[i]) by {
            assert(stats_in_range(v[i]));
        }
        assert forall|i: int| 0 <= i < recs.drop_first().len() implies is_reading(#[trigger] recs.drop_first()[i].value) by {
            assert(recs.drop_first()[i] == recs[i + 1]);
        }
        lemma_fold_slots_in_range(v1, recs.drop_first());
    }
}

/// Folding records into slots is combining with the records' own slots.
pub proof fn lemma_fold_slots_combine(v: Seq<Stats>, recs: Seq<Record>)
    requires
        slots_in_range(v),
        all_readings(recs),
    ensures
        fold_slots(v, recs) == combine_slots(v, fold_slots(empty_slots(), recs)),
    decreases recs.len(),
{
    if recs.len() == 0 {
        assert forall|i: int| 0 <= i < PHF_SIZE implies #[trigger] combine(v[i], empty_stats()) == v[i] by {
            assert(stats_in_range(v[i]));
        }
        assert(v =~= combine_slots(v, empty_slots()));
    } else {
        let r = recs[0];
        let tail = recs.drop_first();
        lemma_name_index_bound(r.name);
        assert(is_reading(r.value));
        assert forall|i: int| 0 <= i < tail.len() implies is_reading(#[trigger] tail[i].value) by {
            assert(tail[i] == recs[i + 1]);
        }
        let e = empty_slots();
        let v1 = slot_add(v, r);
        let e1 = slot_add(e, r);
        assert(slots_in_range(v1)) by {
            assert forall|i: int| 0 <= i < PHF_SIZE implies stats_in_range(#[trigger] v1[i]) by {
                assert(stats_in_range(v[i]));
            }
        }
        assert(slots_in_range(e1)) by {
            assert forall|i: int| 0 <= i < PHF_SIZE implies stats_in_range(#[trigger] e1[i]) by {}
        }
        lemma_fold_slots_combine(v1, tail);
        lemma_fold_slots_combine(e1, tail);
        let f = fold_slots(e, tail);
        assert(combine_slots(v1, f) =~= combine_slots(v, combine_slots(e1, f))) by {
            assert forall|i: int| 0 <= i < PHF_SIZE implies #[trigger] combine_slots(v1, f)[i] == combine_slots(v, combine_slots(e1, f))[i] by {
                assert(stats_in_range(v[i]));
            }
        }
    }
}

/// The slots of two runs of records are the slot-wise combination of each
/// run's slots.
pub proof fn lemma_fold_slots_concat(x: Seq<Record>, y: Seq<Record>)
    requires
        all_readings(x),
        all_readings(y),
    ensures
        fold_slots(empty_slots(), x + y) == combine_slots(
            fold_slots(empty_slots(), x),
            fold_slots(empty_slots(), y),
        ),
{
    lemma_fold_slots_append(empty_slots(), x, y);
    assert(slots_in_range(empty_slots()));
    lemma_fold_slots_in_range(empty_slots(), x);
    lemma_fold_slots_combine(fold_slots(empty_slots(), x), y);
}

proof fn lemma_fold_slots_append(v: Seq<Stats>, x: Seq<Record>, y: Seq<Record>)
    ensures
        fold_slots(v, x + y) == fold_slots(fold_slots(v, x), y),
    decreases x.len(),
{
    if x.len() == 0 {
        assert(x + y =~= y);
    } else {
        lemma_fold_slots_append(slot_add(v, x[0]), x.drop_first(), y);
        assert((x + y).drop_first() =~= x.drop_first() + y);
        assert((x + y)[0] == x[0]);
    }
}

/// The slots of two adjacent valid inputs combine to the slots of both.
pub proof fn lemma_slots_split(a: Seq<u8>, b: Seq<u8>)
    requires
        valid_input(a),
        valid_input(b),
    ensures
        fold_slots(empty_slots(), records(a + b)) == combine_slots(
            fold_slots(empty_slots(), records(a)),
            fold_slots(empty_slots(), records(b)),
        ),
{
    lemma_records_concat(a, b);
    lemma_records_readings(a);
    lemma_records_readings(b);
    lemma_fold_slots_concat(records(a), records(b));
}

/// No two of the stations in `d` share `k`'s slot.
pub open spec fn alone_in_slot(k: Seq<u8>, d: Set<Seq<u8>>) -> bool {
    forall|k2: Seq<u8>| #[trigger] d.contains(k2) && name_index(k2) == name_index(k) ==> k2 == k
}

proof fn lemma_fold_slots_agree(v: Seq<Stats>, m: Summary, recs: Seq<Record>, d: Set<Seq<u8>>)
    requires
        v.len() == PHF_SIZE,
        forall|i: int| 0 <= i < recs.len() ==> d.contains(#[trigger] recs[i].name),
        forall|k: Seq<u8>| d.contains(k) && alone_in_slot(k, d) ==> #[trigger] v[name_index(k)] == stats_of(m, k),
    ensures
        forall|k: Seq<u8>| d.contains(k) && alone_in_slot(k, d) ==> #[trigger] fold_slots(v, recs)[name_index(k)] == stats_of(fold_records(m, recs), k),
    decreases recs.len(),
{
    if recs.len() > 0 {
        let r = recs[0];
        assert(d.contains(r.name));
        lemma_name_index_bound(r.name);
        let v1 = slot_add(v, r);
        let m1 = add_to_summary(m, r.name, r.value);
        assert forall|k: Seq<u8>| d.contains(k) && alone_in_slot(k, d) implies #[trigger] v1[name_index(k)] == stats_of(m1, k) by {
            lemma_name_index_bound(k);
            if k != r.name {
                assert(name_index(k) != name_index(r.name));
            }
        }
        assert forall|i: int| 0 <= i < recs.drop_first().len() implies d.contains(#[trigger] recs.drop_first()[i].name) by {
            assert(recs.drop_first()[i] == recs[i + 1]);
        }
        lemma_fold_slots_agree(v1, m1, recs.drop_first(), d);
        assert forall|k: Seq<u8>| d.contains(k) && alone_in_slot(k, d) implies #[trigger] fold_slots(v, recs)[name_index(k)] == stats_of(fold_records(m, recs), k) by {
            assert(fold_slots(v, recs) == fold_slots(v1, recs.drop_first()));
            assert(fold_records(m, recs) == fold_records(m1, recs.drop_first()));
            assert(fold_slots(v1, recs.drop_first())[name_index(k)] == stats_of(fold_records(m1, recs.drop_first()), k));
        }
    }
}

/// On the known station set the slot table is the summary: the slot of each
/// station of the input that shares its slot with no other station of the
/// input holds exactly that station's accumulator.
pub proof fn lemma_slots_match_summary(s: Seq<u8>)
    ensures
        forall|k: Seq<u8>| #[trigger] summarize(s).contains_key(k) && alone_in_slot(k, summarize(s).dom())
            ==> fold_slots(empty_slots(), records(s))[name_index(k)] == summarize(s)[k],
{
    let d = summarize(s).dom();
    lemma_fold_dom(Map::empty(), records(s));
    assert forall|k: Seq<u8>| d.contains(k) && alone_in_slot(k, d) implies #[trigger] empty_slots()[name_index(k)] == stats_of(Map::<Seq<u8>, Stats>::empty(), k) by {
        lemma_name_index_bound(k);
    }
    lemma_fold_slots_agree(empty_slots(), Map::empty(), records(s), d);
    assert forall|k: Seq<u8>| #[trigger] summarize(s).contains_key(k) && alone_in_slot(k, d) implies fold_slots(empty_slots(), records(s))[name_index(k)] == summarize(s)[k] by {
        assert(fold_slots(empty_slots(), records(s))[name_index(k)] == stats_of(summarize(s), k));
    }
}

/// Folding records into one side of a combination folds them into the
/// combination.
pub proof fn lemma_fold_slots_combine_side(a: Seq<Stats>, b: Seq<Stats>, recs: Seq<Record>)
    requires
        a.len() == PHF_SIZE,
        b.len() == PHF_SIZE,
    ensures
        fold_slots(combine_slots(a, b), recs) == combine_slots(fold_slots(a, recs), b),
        fold_slots(combine_slots(a, b), recs) == combine_slots(a, fold_slots(b, recs)),
    decreases recs.len(),
{
    if recs.len() > 0 {
        let r = recs[0];
        lemma_slot_add_combine(a, b, r);
        lemma_name_index_bound(r.name);
        lemma_fold_slots_combine_side(slot_add(a, r), b, recs.drop_first());
        lemma_fold_slots_combine_side(a, slot_add(b, r), recs.drop_first());
    }
}

pub proof fn lemma_fold_slots_len(v: Seq<Stats>, recs: Seq<Record>)
    requires
        v.len() == PHF_SIZE,
    ensures
        fold_slots(v, recs).len() == PHF_SIZE,
    decreases recs.len(),
{
    if recs.len() > 0 {
        lemma_name_index_bound(recs[0].name);
        lemma_fold_slots_len(slot_add(v, recs[0]), recs.drop_first());
    }
}

} // verus!
