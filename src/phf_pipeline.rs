//! Per-chunk processing into the perfect-hash dictionary: serially, and
//! over four interleaved sub-chunks whose independent dependency chains
//! overlap.

use vstd::prelude::*;
use crate::phf::{MyPHFMap, PHF_SIZE, get_name_index};
use crate::records::{records, valid_input, line_record, first_of, SEMICOLON};
use crate::scanner::read_line;
use crate::slots::{
    fold_slots, slot_add, empty_slots, combine_slots, lemma_slot_add_combine,
    lemma_fold_slots_combine_side, lemma_fold_slots_len, lemma_slots_split,
};
use crate::stats::{MAX_COUNT, Stats};
use crate::laws::lemma_valid_concat;
use crate::temperature::{TempTable, lemma_temp_range};

verus! {

/// Reads the record at `pos`, adds its reading to the table, and returns
/// where the next record starts.
fn consume_line(table: &mut MyPHFMap, buf: &[u8], pos: usize, end: usize, lut: &TempTable) -> (next: usize)
    requires
        old(table).wf(),
        pos < end <= buf@.len(),
        valid_input(buf@.subrange(pos as int, end as int)),
        lut.wf(),
        forall|i: int| 0 <= i < PHF_SIZE ==> #[trigger] old(table)@[i].count < MAX_COUNT,
    ensures
        final(table).wf(),
        pos < next <= end,
        valid_input(buf@.subrange(next as int, end as int)),
        records(buf@.subrange(pos as int, end as int)).len() > 0,
        records(buf@.subrange(pos as int, end as int)).drop_first() == records(buf@.subrange(next as int, end as int)),
        final(table)@ == slot_add(old(table)@, records(buf@.subrange(pos as int, end as int))[0]),
{
    let (sep, nl) = read_line(buf, pos, end);
    let ghost line = buf@.subrange(pos as int, nl as int);
    proof {
        let sep_rel = first_of(line, SEMICOLON) as int;
        assert(line.subrange(sep_rel + 1, line.len() as int) =~= buf@.subrange(sep + 1, nl as int));
        assert(line.subrange(0, sep_rel) =~= buf@.subrange(pos as int, sep as int));
        lemma_temp_range(buf@.subrange(sep + 1, nl as int));
        old(table).lemma_view();
        let rs = records(buf@.subrange(pos as int, end as int));
        assert(rs == seq![line_record(line)] + records(buf@.subrange(nl + 1, end as int)));
        assert(rs[0] == line_record(line));
        assert(rs.drop_first() =~= records(buf@.subrange(nl + 1, end as int)));
    }
    let measurement = lut.parse_at(buf, sep + 1, nl);
    let name = &buf[pos..sep];
    assert(name@ =~= buf@.subrange(pos as int, sep as int));
    let index = get_name_index(name);
    table.insert_measurement_by_index(index, measurement);
    nl + 1
}

/// Folds every record of `buf[pos..end]` into the table. Every count of the
/// table is at most `base`, and `base` plus the chunk's length stays below
/// `MAX_COUNT`.
fn drain(table: &mut MyPHFMap, buf: &[u8], pos: usize, end: usize, lut: &TempTable, Ghost(base): Ghost<int>)
    requires
        old(table).wf(),
        pos <= end <= buf@.len(),
        valid_input(buf@.subrange(pos as int, end as int)),
        lut.wf(),
        forall|i: int| 0 <= i < PHF_SIZE ==> #[trigger] old(table)@[i].count <= base,
        base + (end - pos) < MAX_COUNT,
    ensures
        final(table).wf(),
        final(table)@ == fold_slots(old(table)@, records(buf@.subrange(pos as int, end as int))),
        forall|i: int| 0 <= i < PHF_SIZE ==> #[trigger] final(table)@[i].count <= base + (end - pos),
{
    let ghost target = fold_slots(table@, records(buf@.subrange(pos as int, end as int)));
    let mut p = pos;
    while p < end
        invariant
            pos <= p <= end <= buf@.len(),
            lut.wf(),
            table.wf(),
            valid_input(buf@.subrange(p as int, end as int)),
            fold_slots(table@, records(buf@.subrange(p as int, end as int))) == target,
            forall|i: int| 0 <= i < PHF_SIZE ==> #[trigger] table@[i].count <= base + (p - pos),
            base + (end - pos) < MAX_COUNT,
        decreases end - p,
    {
        let ghost before = table@;
        proof {
            table.lemma_view();
        }
        let next = consume_line(table, buf, p, end, lut);
        proof {
            let r = records(buf@.subrange(p as int, end as int))[0];
            assert forall|i: int| 0 <= i < PHF_SIZE implies #[trigger] table@[i].count <= base + (next - pos) by {
                assert(before[i].count <= base + (p - pos));
            }
        }
        p = next;
    }
    proof {
        assert(records(buf@.subrange(p as int, end as int)) =~= Seq::<crate::records::Record>::empty());
    }
}

/// Aggregates the records of `buf[start..end]` into a perfect-hash table:
/// the reading of each record goes to the slot of its name.
pub fn process_chunk_phf(buf: &[u8], start: usize, end: usize, lut: &TempTable) -> (r: MyPHFMap)
    requires
        start <= end <= buf@.len(),
        buf@.len() < MAX_COUNT,
        valid_input(buf@.subrange(start as int, end as int)),
        lut.wf(),
    ensures
        r.wf(),
        r@ == fold_slots(empty_slots(), records(buf@.subrange(start as int, end as int))),
{
    let mut table = MyPHFMap::new();
    assert(table@ =~= empty_slots());
    drain(&mut table, buf, start, end, lut, Ghost(0));
    table
}

/// The slots of a run of bytes, empty at the start.
pub open spec fn chunk_slots(buf: Seq<u8>, start: int, end: int) -> Seq<Stats> {
    fold_slots(empty_slots(), records(buf.subrange(start, end)))
}

/// Four slot vectors combined, in order.
pub open spec fn combine4(a: Seq<Stats>, b: Seq<Stats>, c: Seq<Stats>, d: Seq<Stats>) -> Seq<Stats> {
    combine_slots(combine_slots(combine_slots(a, b), c), d)
}

/// A reading added to a combination of four goes to any one of them.
proof fn lemma_add4(a: Seq<Stats>, b: Seq<Stats>, c: Seq<Stats>, d: Seq<Stats>, r: crate::records::Record)
    requires
        a.len() == PHF_SIZE,
        b.len() == PHF_SIZE,
        c.len() == PHF_SIZE,
        d.len() == PHF_SIZE,
    ensures
        slot_add(combine4(a, b, c, d), r) == combine4(slot_add(a, r), b, c, d),
        slot_add(combine4(a, b, c, d), r) == combine4(a, slot_add(b, r), c, d),
        slot_add(combine4(a, b, c, d), r) == combine4(a, b, slot_add(c, r), d),
        slot_add(combine4(a, b, c, d), r) == combine4(a, b, c, slot_add(d, r)),
{
    let x = combine_slots(a, b);
    let y = combine_slots(x, c);
    lemma_slot_add_combine(y, d, r);
    lemma_slot_add_combine(x, c, r);
    lemma_slot_add_combine(a, b, r);
}

/// Records folded into a combination of four go to any one of them.
proof fn lemma_fold4(a: Seq<Stats>, b: Seq<Stats>, c: Seq<Stats>, d: Seq<Stats>, rs: Seq<crate::records::Record>)
    requires
        a.len() == PHF_SIZE,
        b.len() == PHF_SIZE,
        c.len() == PHF_SIZE,
        d.len() == PHF_SIZE,
    ensures
        fold_slots(combine4(a, b, c, d), rs) == combine4(fold_slots(a, rs), b, c, d),
        fold_slots(combine4(a, b, c, d), rs) == combine4(a, fold_slots(b, rs), c, d),
        fold_slots(combine4(a, b, c, d), rs) == combine4(a, b, fold_slots(c, rs), d),
        fold_slots(combine4(a, b, c, d), rs) == combine4(a, b, c, fold_slots(d, rs)),
{
    let x = combine_slots(a, b);
    let y = combine_slots(x, c);
    lemma_fold_slots_combine_side(y, d, rs);
    lemma_fold_slots_combine_side(x, c, rs);
    lemma_fold_slots_combine_side(a, b, rs);
}

/// The four sub-chunks' slots combine to those of the whole chunk.
proof fn lemma_ilp_whole(buf: Seq<u8>, start: int, m1: int, m2: int, m3: int, end: int)
    requires
        0 <= start <= m1 <= m2 <= m3 <= end <= buf.len(),
        valid_input(buf.subrange(start, m1)),
        valid_input(buf.subrange(m1, m2)),
        valid_input(buf.subrange(m2, m3)),
        valid_input(buf.subrange(m3, end)),
    ensures
        combine4(
            chunk_slots(buf, start, m1),
            chunk_slots(buf, m1, m2),
            chunk_slots(buf, m2, m3),
            chunk_slots(buf, m3, end),
        ) == chunk_slots(buf, start, end),
{
    lemma_split_at(buf, start, m1, m2);
    lemma_split_at(buf, start, m2, m3);
    lemma_split_at(buf, start, m3, end);
}

proof fn lemma_split_at(buf: Seq<u8>, a: int, b: int, c: int)
    requires
        0 <= a <= b <= c <= buf.len(),
        valid_input(buf.subrange(a, b)),
        valid_input(buf.subrange(b, c)),
    ensures
        valid_input(buf.subrange(a, c)),
        chunk_slots(buf, a, c) == combine_slots(chunk_slots(buf, a, b), chunk_slots(buf, b, c)),
{
    let x = buf.subrange(a, b);
    let y = buf.subrange(b, c);
    assert(x + y =~= buf.subrange(a, c));
    lemma_slots_split(x, y);
    lemma_valid_concat(x, y);
}

/// Aggregates `buf[start..end]`, split at `m1`, `m2`, `m3` into four
/// sub-chunks, into a perfect-hash table. One record of each sub-chunk is
/// taken per round while all four have records left; then each is drained.
/// The result equals that of the serial scan.
pub fn process_chunk_ilp(
    buf: &[u8],
    start: usize,
    m1: usize,
    m2: usize,
    m3: usize,
    end: usize,
    lut: &TempTable,
) -> (r: MyPHFMap)
    requires
        start <= m1 <= m2 <= m3 <= end <= buf@.len(),
        buf@.len() < MAX_COUNT,
        valid_input(buf@.subrange(start as int, m1 as int)),
        valid_input(buf@.subrange(m1 as int, m2 as int)),
        valid_input(buf@.subrange(m2 as int, m3 as int)),
        valid_input(buf@.subrange(m3 as int, end as int)),
        lut.wf(),
    ensures
        r.wf(),
        r@ == chunk_slots(buf@, start as int, end as int),
{
    let ghost t1 = chunk_slots(buf@, start as int, m1 as int);
    let ghost t2 = chunk_slots(buf@, m1 as int, m2 as int);
    let ghost t3 = chunk_slots(buf@, m2 as int, m3 as int);
    let ghost t4 = chunk_slots(buf@, m3 as int, end as int);
    let mut table = MyPHFMap::new();
    let ghost mut c1 = empty_slots();
    let ghost mut c2 = empty_slots();
    let ghost mut c3 = empty_slots();
    let ghost mut c4 = empty_slots();
    let ghost mut used: int = 0;
    proof {
        let e = empty_slots();
        assert(combine4(e, e, e, e) =~= e);
        assert(table@ =~= e);
    }
    let mut p1 = start;
    let mut p2 = m1;
    let mut p3 = m2;
    let mut p4 = m3;
    while p1 < m1 && p2 < m2 && p3 < m3 && p4 < end
        invariant
            start <= p1 <= m1 <= p2 <= m2 <= p3 <= m3 <= p4 <= end <= buf@.len(),
            buf@.len() < MAX_COUNT,
            lut.wf(),
            table.wf(),
            c1.len() == PHF_SIZE && c2.len() == PHF_SIZE && c3.len() == PHF_SIZE && c4.len() == PHF_SIZE,
            table@ == combine4(c1, c2, c3, c4),
            valid_input(buf@.subrange(p1 as int, m1 as int)),
            valid_input(buf@.subrange(p2 as int, m2 as int)),
            valid_input(buf@.subrange(p3 as int, m3 as int)),
            valid_input(buf@.subrange(p4 as int, end as int)),
            fold_slots(c1, records(buf@.subrange(p1 as int, m1 as int))) == t1,
            fold_slots(c2, records(buf@.subrange(p2 as int, m2 as int))) == t2,
            fold_slots(c3, records(buf@.subrange(p3 as int, m3 as int))) == t3,
            fold_slots(c4, records(buf@.subrange(p4 as int, end as int))) == t4,
            used == (p1 - start) + (p2 - m1) + (p3 - m2) + (p4 - m3),
            forall|i: int| 0 <= i < PHF_SIZE ==> #[trigger] table@[i].count <= used,
        decreases end - p1 + end - p2 + end - p3 + end - p4,
    {
        let ghost b = table@;
        proof {
            table.lemma_view();
        }
        let n1 = consume_line(&mut table, buf, p1, m1, lut);
        proof {
            let r = records(buf@.subrange(p1 as int, m1 as int))[0];
            lemma_add4(c1, c2, c3, c4, r);
            c1 = slot_add(c1, r);
            assert forall|i: int| 0 <= i < PHF_SIZE implies #[trigger] table@[i].count <= used + 1 by {
                assert(b[i].count <= used);
            }
            used = used + (n1 - p1);
        }
        p1 = n1;
        let ghost b = table@;
        proof {
            table.lemma_view();
        }
        let n2 = consume_line(&mut table, buf, p2, m2, lut);
        proof {
            let r = records(buf@.subrange(p2 as int, m2 as int))[0];
            lemma_add4(c1, c2, c3, c4, r);
            c2 = slot_add(c2, r);
            assert forall|i: int| 0 <= i < PHF_SIZE implies #[trigger] table@[i].count <= used + 1 by {
                assert(b[i].count <= used);
            }
            used = used + (n2 - p2);
        }
        p2 = n2;
        let ghost b = table@;
        proof {
            table.lemma_view();
        }
        let n3 = consume_line(&mut table, buf, p3, m3, lut);
        proof {
            let r = records(buf@.subrange(p3 as int, m3 as int))[0];
            lemma_add4(c1, c2, c3, c4, r);
            c3 = slot_add(c3, r);
            assert forall|i: int| 0 <= i < PHF_SIZE implies #[trigger] table@[i].count <= used + 1 by {
                assert(b[i].count <= used);
            }
            used = used + (n3 - p3);
        }
        p3 = n3;
        let ghost b = table@;
        proof {
            table.lemma_view();
        }
        let n4 = consume_line(&mut table, buf, p4, end, lut);
        proof {
            let r = records(buf@.subrange(p4 as int, end as int))[0];
            lemma_add4(c1, c2, c3, c4, r);
            c4 = slot_add(c4, r);
            assert forall|i: int| 0 <= i < PHF_SIZE implies #[trigger] table@[i].count <= used + 1 by {
                assert(b[i].count <= used);
            }
            used = used + (n4 - p4);
        }
        p4 = n4;
    }
    proof {
        table.lemma_view();
    }
    drain(&mut table, buf, p1, m1, lut, Ghost(used));
    proof {
        let rs = records(buf@.subrange(p1 as int, m1 as int));
        lemma_fold4(c1, c2, c3, c4, rs);
        lemma_fold_slots_len(c1, rs);
    }
    drain(&mut table, buf, p2, m2, lut, Ghost(used + (m1 - p1)));
    proof {
        let rs = records(buf@.subrange(p2 as int, m2 as int));
        lemma_fold4(t1, c2, c3, c4, rs);
        lemma_fold_slots_len(c2, rs);
    }
    drain(&mut table, buf, p3, m3, lut, Ghost(used + (m1 - p1) + (m2 - p2)));
    proof {
        let rs = records(buf@.subrange(p3 as int, m3 as int));
        lemma_fold4(t1, t2, c3, c4, rs);
        lemma_fold_slots_len(c3, rs);
    }
    drain(&mut table, buf, p4, end, lut, Ghost(used + (m1 - p1) + (m2 - p2) + (m3 - p3)));
    proof {
        let rs = records(buf@.subrange(p4 as int, end as int));
        lemma_fold4(t1, t2, t3, c4, rs);
        lemma_ilp_whole(buf@, start as int, m1 as int, m2 as int, m3 as int, end as int);
    }
    table
}

} // verus!
