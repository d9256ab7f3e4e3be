//! Per-chunk processing: scan every record of a chunk, decode its reading
//! and fold it into a station dictionary.

use vstd::prelude::*;
use crate::chunker::{split_chunks, tiles};
use crate::hash_table::{MyHashMap, SIZE};
use crate::laws::{
    lemma_summarize_concat, lemma_valid_concat, lemma_valid_suffix, lemma_summarize_count,
    lemma_summarize_finite,
};
use crate::model::{stats_of, lemma_merge_dom, lemma_stats_of_merge};
use crate::records::{
    records, valid_input, summarize, fold_records, lemma_fold_dom, lemma_fold_cons, first_of,
    SEMICOLON,
};
use crate::scanner::read_line;
use crate::stats::MAX_COUNT;
use crate::temperature::{TempTable, lemma_temp_range};
use vstd::set_lib::lemma_len_subset;

verus! {

/// Aggregates the records of `buf[start..end]` into an open-addressed
/// table. The result is `None` exactly when the chunk names more stations
/// than the table has slots.
pub fn process_chunk(buf: &[u8], start: usize, end: usize, lut: &TempTable) -> (r: Option<MyHashMap>)
    requires
        start <= end <= buf@.len(),
        buf@.len() < MAX_COUNT,
        valid_input(buf@.subrange(start as int, end as int)),
        lut.wf(),
    ensures
        r matches Some(t) ==> t.wf() && t@ == summarize(buf@.subrange(start as int, end as int)),
        r is None <==> summarize(buf@.subrange(start as int, end as int)).dom().len() > SIZE,
{
    let ghost target = summarize(buf@.subrange(start as int, end as int));
    let mut summary = MyHashMap::new();
    let mut pos = start;
    while pos < end
        invariant
            start <= pos <= end <= buf@.len(),
            buf@.len() < MAX_COUNT,
            lut.wf(),
            summary.wf(),
            valid_input(buf@.subrange(pos as int, end as int)),
            target == summarize(buf@.subrange(start as int, end as int)),
            fold_records(summary@, records(buf@.subrange(pos as int, end as int))) == target,
            forall|k: Seq<u8>| #[trigger] stats_of(summary@, k).count <= pos - start,
        decreases end - pos,
    {
        let (sep, nl) = read_line(buf, pos, end);
        let ghost line = buf@.subrange(pos as int, nl as int);
        let ghost rest = buf@.subrange(nl + 1, end as int);
        proof {
            let sep_rel = first_of(line, SEMICOLON) as int;
            assert(line.subrange(sep_rel + 1, line.len() as int) =~= buf@.subrange(sep + 1, nl as int));
            assert(line.subrange(0, sep_rel) =~= buf@.subrange(pos as int, sep as int));
            lemma_temp_range(buf@.subrange(sep + 1, nl as int));
        }
        let measurement = lut.parse_at(buf, sep + 1, nl);
        let ghost before = summary@;
        proof {
            summary.lemma_valid();
        }
        let ok = summary.insert_measurement(buf, pos, sep, measurement);
        proof {
            lemma_fold_cons(before, crate::records::line_record(line), records(rest));
        }
        if !ok {
            proof {
                let k = buf@.subrange(pos as int, sep as int);
                let after = crate::model::add_to_summary(before, k, measurement as int);
                lemma_fold_dom(after, records(rest));
                assert(after.dom() =~= before.dom().insert(k));
                assert(target == fold_records(after, records(rest)));
                assert(before.dom().insert(k).subset_of(target.dom()));
                assert(before.dom().insert(k).len() == before.dom().len() + 1);
                lemma_len_subset(before.dom().insert(k), target.dom());
            }
            return None;
        }
        proof {
            let k = buf@.subrange(pos as int, sep as int);
            assert forall|k2: Seq<u8>| #[trigger] stats_of(summary@, k2).count <= nl + 1 - start by {
                assert(stats_of(before, k2).count <= pos - start);
                if k2 == k {
                    assert(stats_of(summary@, k2).count == stats_of(before, k2).count + 1);
                } else {
                    assert(stats_of(summary@, k2) == stats_of(before, k2));
                }
            }
        }
        pos = nl + 1;
    }
    proof {
        summary.lemma_valid();
        assert(buf@.subrange(pos as int, end as int).len() == 0);
        assert(records(buf@.subrange(pos as int, end as int)) =~= Seq::empty());
    }
    Some(summary)
}

/// Where the part of the input before chunk `i` ends.
pub open spec fn done_end(chunks: Seq<(usize, usize)>, i: int) -> int {
    if i == 0 {
        0
    } else {
        chunks[i - 1].1 as int
    }
}

/// Aggregates chunk `buf[start..end]` and merges it into `acc`, which holds
/// the summary of everything before `start`. It fails exactly when the
/// whole input names more stations than a table has slots.
fn absorb_chunk(acc: &mut MyHashMap, buf: &[u8], start: usize, end: usize, data_len: usize, lut: &TempTable) -> (r: bool)
    requires
        start <= end <= data_len <= buf@.len(),
        buf@.len() < MAX_COUNT,
        lut.wf(),
        old(acc).wf(),
        old(acc)@ == summarize(buf@.subrange(0, start as int)),
        valid_input(buf@.subrange(0, start as int)),
        valid_input(buf@.subrange(start as int, end as int)),
        valid_input(buf@.subrange(start as int, data_len as int)),
    ensures
        final(acc).wf(),
        r ==> final(acc)@ == summarize(buf@.subrange(0, end as int)),
        r ==> valid_input(buf@.subrange(0, end as int)),
        r ==> valid_input(buf@.subrange(end as int, data_len as int)),
        !r ==> summarize(buf@.subrange(0, data_len as int)).dom().len() > SIZE,
{
    let ghost pre = buf@.subrange(0, start as int);
    let ghost mid = buf@.subrange(start as int, end as int);
    let ghost post = buf@.subrange(end as int, data_len as int);
    let ghost upto = buf@.subrange(0, end as int);
    let ghost whole = buf@.subrange(0, data_len as int);
    proof {
        assert(buf@.subrange(start as int, data_len as int) =~= mid + post);
        lemma_valid_suffix(mid, post);
        lemma_valid_concat(pre, mid);
        assert(pre + mid =~= upto);
        lemma_summarize_concat(pre, mid);
        assert(upto + post =~= whole);
        lemma_summarize_concat(upto, post);
        lemma_summarize_finite(pre);
        lemma_summarize_finite(mid);
        lemma_summarize_finite(post);
        lemma_summarize_finite(upto);
        lemma_merge_dom(summarize(pre), summarize(mid));
        lemma_merge_dom(summarize(upto), summarize(post));
        lemma_summarize_finite(whole);
    }
    match process_chunk(buf, start, end, lut) {
        None => {
            proof {
                vstd::set_lib::lemma_len_subset(summarize(mid).dom(), summarize(whole).dom());
            }
            false
        },
        Some(t) => {
            let ok = acc.merge(&t);
            if !ok {
                proof {
                    vstd::set_lib::lemma_len_subset(summarize(upto).dom(), summarize(whole).dom());
                    if summarize(upto).dom().len() <= SIZE {
                        assert forall|k: Seq<u8>| #[trigger] stats_of(summarize(pre), k).count + stats_of(summarize(mid), k).count <= MAX_COUNT by {
                            lemma_stats_of_merge(summarize(pre), summarize(mid), k);
                            lemma_summarize_count(upto, k);
                        }
                    }
                }
            }
            ok
        },
    }
}

/// The serial reduction: splits `buf[..data_len]` into `chunk_count`
/// chunks, aggregates each, and merges the results in order. The result is
/// `None` exactly when the input names more stations than a table has slots.
pub fn aggregate(buf: &[u8], data_len: usize, chunk_count: usize, lut: &TempTable) -> (r: Option<MyHashMap>)
    requires
        data_len <= buf@.len(),
        buf@.len() < MAX_COUNT,
        chunk_count >= 1,
        valid_input(buf@.subrange(0, data_len as int)),
        lut.wf(),
    ensures
        r matches Some(t) ==> t.wf() && t@ == summarize(buf@.subrange(0, data_len as int)),
        r is None <==> summarize(buf@.subrange(0, data_len as int)).dom().len() > SIZE,
{
    let chunks = split_chunks(buf, data_len, chunk_count);
    let mut acc = MyHashMap::new();
    let mut i: usize = 0;
    let mut done: usize = 0;
    proof {
        assert(summarize(buf@.subrange(0, 0)) =~= Map::empty()) by {
            assert(records(buf@.subrange(0, 0)) =~= Seq::empty());
        }
        assert(buf@.subrange(0, data_len as int).subrange(0, data_len as int) =~= buf@.subrange(0, data_len as int));
        assert(buf@.subrange(0, data_len as int) =~= buf@.subrange(done as int, data_len as int));
    }
    while i < chunks.len()
        invariant
            data_len <= buf@.len(),
            buf@.len() < MAX_COUNT,
            lut.wf(),
            tiles(buf@, chunks@, data_len as int),
            i <= chunks@.len(),
            done <= data_len,
            i < chunks@.len() ==> chunks@[i as int].0 == done,
            i == chunks@.len() ==> done == data_len,
            acc.wf(),
            acc@ == summarize(buf@.subrange(0, done as int)),
            valid_input(buf@.subrange(0, done as int)),
            valid_input(buf@.subrange(done as int, data_len as int)),
        decreases chunks@.len() - i,
    {
        let (start, end) = chunks[i];
        if !absorb_chunk(&mut acc, buf, start, end, data_len, lut) {
            return None;
        }
        done = end;
        i = i + 1;
        proof {
            if i < chunks@.len() {
                assert(chunks@[i - 1].1 == chunks@[i as int].0);
            }
        }
    }
    proof {
        acc.lemma_valid();
    }
    Some(acc)
}

} // verus!
