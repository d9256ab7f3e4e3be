//! Partitioning of the input into line-aligned chunks for parallel work.

use vstd::prelude::*;
use crate::records::{NEWLINE, valid_input, first_of, lemma_first_of};

verus! {

/// Relies on `memchr::memrchr`: the index, within `buf[from..to]`, of the last
/// byte equal to `needle`, or `None` when there is none.
#[verifier::external_body]
fn find_last_byte(needle: u8, buf: &[u8], from: usize, to: usize) -> (r: Option<usize>)
    requires
        from <= to <= buf@.len(),
    ensures
        match r {
            Some(i) => from + i < to && buf@[from + i] == needle && forall|j: int|
                from + i < j < to ==> buf@[j] != needle,
            None => forall|j: int| from <= j < to ==> buf@[j] != needle,
        },
{
    memchr::memrchr(needle, &buf[from..to])
}

/// Cutting a valid input right after a terminator leaves two valid inputs.
pub proof fn lemma_split_valid(s: Seq<u8>, p: int)
    requires
        valid_input(s),
        0 < p <= s.len(),
        s[p - 1] == NEWLINE,
    ensures
        valid_input(s.subrange(0, p)),
        valid_input(s.subrange(p, s.len() as int)),
    decreases s.len(),
{
    let nl = first_of(s, NEWLINE) as int;
    lemma_first_of(s, NEWLINE);
    let rest = s.subrange(nl + 1, s.len() as int);
    let pre = s.subrange(0, p);
    lemma_first_of(pre, NEWLINE);
    assert(nl <= p - 1) by {
        if nl > p - 1 {
            assert(s[p - 1] != NEWLINE);
        }
    }
    assert forall|j: int| 0 <= j < nl implies pre[j] != NEWLINE by {
        assert(pre[j] == s[j]);
    }
    if p - 1 == nl {
        assert(pre.subrange(0, nl) =~= s.subrange(0, nl));
        crate::records::lemma_first_of_is(pre, NEWLINE, nl);
        assert(pre.subrange(nl + 1, pre.len() as int).len() == 0);
        assert(s.subrange(p, s.len() as int) =~= rest);
    } else {
        assert(p - 1 > nl);
        assert(rest[p - nl - 2] == s[p - 1]);
        lemma_split_valid(rest, p - nl - 1);
        crate::records::lemma_first_of_is(pre, NEWLINE, nl);
        assert(pre.subrange(0, nl) =~= s.subrange(0, nl));
        assert(pre.subrange(nl + 1, pre.len() as int) =~= rest.subrange(0, p - nl - 1));
        assert(s.subrange(p, s.len() as int) =~= rest.subrange(p - nl - 1, rest.len() as int));
    }
    assert(crate::records::valid_line(s.subrange(0, nl)));
    assert(crate::records::valid_line(pre.subrange(0, nl)));
    assert(valid_input(pre.subrange(nl + 1, pre.len() as int)));
    assert(pre.len() > 0);
    assert(first_of(pre, NEWLINE) == nl);
}

/// The length of `s` up to and including its last terminator; 0 when it
/// has none.
pub open spec fn last_break(s: Seq<u8>) -> int
    decreases s.len(),
{
    if s.len() == 0 {
        0
    } else if s.last() == NEWLINE {
        s.len() as int
    } else {
        last_break(s.drop_last())
    }
}

proof fn lemma_last_break_is(s: Seq<u8>, k: int)
    requires
        0 <= k <= s.len(),
        k > 0 ==> s[k - 1] == NEWLINE,
        forall|j: int| k <= j < s.len() ==> s[j] != NEWLINE,
    ensures
        last_break(s) == k,
    decreases s.len(),
{
    if s.len() > k {
        lemma_last_break_is(s.drop_last(), k);
    }
}

/// The window of what remains at `rem`: the next `data_len / count` bytes,
/// or fewer at the end of the data.
pub open spec fn window_end(data_len: int, count: int, rem: int) -> int {
    if data_len - rem < data_len / count {
        data_len
    } else {
        rem + data_len / count
    }
}

/// The chunks `(start, end)` tile `[0, data_len)` in order, each holding
/// whole lines.
pub open spec fn tiles(buf: Seq<u8>, chunks: Seq<(usize, usize)>, data_len: int) -> bool {
    &&& chunks.len() > 0
    &&& chunks[0].0 == 0
    &&& chunks[chunks.len() - 1].1 == data_len
    &&& forall|i: int| 0 <= i < chunks.len() ==> #[trigger] chunks[i].0 <= chunks[i].1 <= data_len
    &&& forall|i: int| 0 <= i < chunks.len() - 1 ==> #[trigger] chunks[i].1 == chunks[i + 1].0
    &&& forall|i: int| 0 <= i < chunks.len() ==> valid_input(buf.subrange(#[trigger] chunks[i].0 as int, chunks[i].1 as int))
}

/// Where the chunk that starts at `rem` ends: after the last terminator in
/// its window, or at `rem` when the window holds none.
fn chunk_end(buf: &[u8], rem: usize, data_len: usize, count: usize) -> (end: usize)
    requires
        rem <= data_len <= buf@.len(),
        count >= 1,
        valid_input(buf@.subrange(rem as int, data_len as int)),
    ensures
        rem <= end <= data_len,
        end == rem + last_break(buf@.subrange(rem as int, window_end(data_len as int, count as int, rem as int))),
        valid_input(buf@.subrange(rem as int, end as int)),
        valid_input(buf@.subrange(end as int, data_len as int)),
{
    let ideal = data_len / count;
    let limit = if data_len - rem < ideal {
        data_len
    } else {
        rem + ideal
    };
    let end = match find_last_byte(NEWLINE, buf, rem, limit) {
        Some(i) => rem + i + 1,
        None => rem,
    };
    proof {
        let w = buf@.subrange(rem as int, limit as int);
        assert(limit == window_end(data_len as int, count as int, rem as int));
        assert forall|j: int| end - rem <= j < w.len() implies w[j] != NEWLINE by {
            assert(w[j] == buf@[rem + j]);
        }
        lemma_last_break_is(w, end - rem);
        let s = buf@.subrange(rem as int, data_len as int);
        if end > rem {
            lemma_split_valid(s, end - rem);
            assert(s.subrange(0, end - rem) =~= buf@.subrange(rem as int, end as int));
            assert(s.subrange(end - rem, s.len() as int) =~= buf@.subrange(end as int, data_len as int));
        } else {
            assert(buf@.subrange(rem as int, end as int).len() == 0);
        }
    }
    end
}

/// Splits `buf[..data_len]` into `count` chunks. Each but the last ends on
/// the last terminator within the first `data_len / count` bytes of what
/// remains, and is empty when there is none; the last takes the rest.
pub fn split_chunks(buf: &[u8], data_len: usize, count: usize) -> (r: Vec<(usize, usize)>)
    requires
        data_len <= buf@.len(),
        count >= 1,
        valid_input(buf@.subrange(0, data_len as int)),
    ensures
        r@.len() == count,
        tiles(buf@, r@, data_len as int),
        forall|i: int| 0 <= i < count - 1 ==> #[trigger] r@[i].1 == r@[i].0 + last_break(
            buf@.subrange(r@[i].0 as int, window_end(data_len as int, count as int, r@[i].0 as int)),
        ),
{
    let mut chunks: Vec<(usize, usize)> = Vec::with_capacity(count);
    let mut rem: usize = 0;
    proof {
        assert(buf@.subrange(0, data_len as int).subrange(0, data_len as int) =~= buf@.subrange(0, data_len as int));
    }
    while chunks.len() < count - 1
        invariant
            data_len <= buf@.len(),
            count >= 1,
            chunks@.len() <= count - 1,
            rem <= data_len,
            valid_input(buf@.subrange(rem as int, data_len as int)),
            chunks@.len() == 0 ==> rem == 0,
            chunks@.len() > 0 ==> chunks@[0].0 == 0 && chunks@[chunks@.len() - 1].1 == rem,
            forall|i: int| 0 <= i < chunks@.len() ==> #[trigger] chunks@[i].0 <= chunks@[i].1 <= data_len,
            forall|i: int| 0 <= i < chunks@.len() - 1 ==> #[trigger] chunks@[i].1 == chunks@[i + 1].0,
            forall|i: int| 0 <= i < chunks@.len() ==> valid_input(buf@.subrange(#[trigger] chunks@[i].0 as int, chunks@[i].1 as int)),
            forall|i: int| 0 <= i < chunks@.len() ==> #[trigger] chunks@[i].1 == chunks@[i].0 + last_break(
                buf@.subrange(chunks@[i].0 as int, window_end(data_len as int, count as int, chunks@[i].0 as int)),
            ),
        decreases count - 1 - chunks@.len(),
    {
        let end = chunk_end(buf, rem, data_len, count);
        let ghost old_chunks = chunks@;
        chunks.push((rem, end));
        proof {
            assert forall|i: int| 0 <= i < old_chunks.len() implies chunks@[i] == old_chunks[i] by {}
        }
        rem = end;
    }
    let ghost old_chunks = chunks@;
    chunks.push((rem, data_len));
    proof {
        assert forall|i: int| 0 <= i < old_chunks.len() implies chunks@[i] == old_chunks[i] by {}
    }
    chunks
}

} // verus!
