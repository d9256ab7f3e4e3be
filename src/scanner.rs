//! The line scanner: from the first byte of a record, find its separator and
//! its terminator. One 32-byte window is compared against `;` and `\n` into
//! two bitmasks whose trailing-zero counts give both positions; a position
//! past the window is found with a byte search.

use vstd::prelude::*;
use vstd::std_specs::bits::axiom_u32_trailing_zeros;
use crate::records::{
    NEWLINE, SEMICOLON, first_of, lemma_first_of, lemma_first_of_is, valid_input, valid_line,
    records, line_record,
};

verus! {

/// Width of the comparison window, in bytes.
pub const WINDOW: usize = 32;

/// Readable padding past the end of the data, so that a window starting on
/// any record is in bounds.
pub const MARGIN: usize = 32;

/// Relies on `memchr::memchr`: the index, within `buf[from..to]`, of the first
/// byte equal to `needle`, or `None` when there is none.
#[verifier::external_body]
pub(crate) fn find_byte(needle: u8, buf: &[u8], from: usize, to: usize) -> (r: Option<usize>)
    requires
        from <= to <= buf@.len(),
    ensures
        match r {
            Some(i) => from + i < to && buf@[from + i] == needle && forall|j: int|
                from <= j < from + i ==> buf@[j] != needle,
            None => forall|j: int| from <= j < to ==> buf@[j] != needle,
        },
{
    memchr::memchr(needle, &buf[from..to])
}

/// Bit `j` of `mask`.
pub open spec fn bit(mask: u32, j: int) -> bool {
    (mask >> (j as u32)) & 1u32 == 1u32
}

/// Bit `j` of `mask` is set exactly when `buf[pos + j]` is `needle`.
pub open spec fn window_mask_of(mask: u32, buf: Seq<u8>, pos: int, needle: u8) -> bool {
    forall|j: int| 0 <= j < WINDOW ==> #[trigger] bit(mask, j) == (buf[pos + j] == needle)
}

proof fn lemma_set_bit(m: u32, i: u32, j: u32)
    requires
        i < 32,
        j < 32,
    ensures
        ((m | (1u32 << i)) >> j) & 1u32 == (if j == i {
            1u32
        } else {
            (m >> j) & 1u32
        }),
{
    assert(((m | (1u32 << i)) >> j) & 1u32 == (if j == i {
        1u32
    } else {
        (m >> j) & 1u32
    })) by (bit_vector)
        requires
            i < 32,
            j < 32,
    ;
}

proof fn lemma_bit_is_zero_or_one(m: u32, j: u32)
    ensures
        (m >> j) & 1u32 == 0u32 || (m >> j) & 1u32 == 1u32,
{
    assert((m >> j) & 1u32 == 0u32 || (m >> j) & 1u32 == 1u32) by (bit_vector);
}

/// Compares the window at `pos` against `;` and `\n` at once.
fn window_masks(buf: &[u8], pos: usize) -> (r: (u32, u32))
    requires
        pos + WINDOW <= buf.len(),
    ensures
        window_mask_of(r.0, buf@, pos as int, SEMICOLON),
        window_mask_of(r.1, buf@, pos as int, NEWLINE),
{
    let mut sep_mask: u32 = 0;
    let mut nl_mask: u32 = 0;
    let mut i: u32 = 0;
    proof {
        assert forall|j: int| 0 <= j < 32 implies !#[trigger] bit(0u32, j) by {
            let jj = j as u32;
            assert((0u32 >> jj) & 1u32 == 0u32) by (bit_vector);
        }
    }
    while i < 32
        invariant
            pos + WINDOW <= buf.len(),
            i <= 32,
            forall|j: int| 0 <= j < i ==> #[trigger] bit(sep_mask, j) == (buf@[pos + j] == SEMICOLON),
            forall|j: int| 0 <= j < i ==> #[trigger] bit(nl_mask, j) == (buf@[pos + j] == NEWLINE),
            forall|j: int| i <= j < 32 ==> !#[trigger] bit(sep_mask, j),
            forall|j: int| i <= j < 32 ==> !#[trigger] bit(nl_mask, j),
        decreases 32 - i,
    {
        let b = buf[pos + i as usize];
        let ghost (s0, n0) = (sep_mask, nl_mask);
        if b == SEMICOLON {
            sep_mask = sep_mask | (1u32 << i);
        }
        if b == NEWLINE {
            nl_mask = nl_mask | (1u32 << i);
        }
        proof {
            assert forall|j: int| 0 <= j < 32 implies #[trigger] bit(sep_mask, j) == (if j == i {
                b == SEMICOLON
            } else {
                bit(s0, j)
            }) by {
                lemma_set_bit(s0, i, j as u32);
                lemma_bit_is_zero_or_one(s0, j as u32);
            }
            assert forall|j: int| 0 <= j < 32 implies #[trigger] bit(nl_mask, j) == (if j == i {
                b == NEWLINE
            } else {
                bit(n0, j)
            }) by {
                lemma_set_bit(n0, i, j as u32);
                lemma_bit_is_zero_or_one(n0, j as u32);
            }
        }
        i = i + 1;
    }
    (sep_mask, nl_mask)
}

/// The first `needle` in `buf[pos..limit]`, as an absolute index, or `limit`
/// when there is none. `mask` is the window at `pos` compared to `needle`,
/// when that window is in bounds.
fn locate(buf: &[u8], pos: usize, limit: usize, needle: u8, mask: Option<u32>) -> (r: usize)
    requires
        pos <= limit <= buf@.len(),
        mask matches Some(m) ==> pos + WINDOW <= buf.len() && window_mask_of(m, buf@, pos as int, needle),
    ensures
        r == pos + first_of(buf@.subrange(pos as int, limit as int), needle),
{
    let ghost s = buf@.subrange(pos as int, limit as int);
    let mut from = pos;
    if let Some(m) = mask {
        let tz = m.trailing_zeros() as usize;
        proof {
            axiom_u32_trailing_zeros(m);
            assert forall|j: int| 0 <= j < tz implies #[trigger] buf@[pos + j] != needle by {
                assert(!bit(m, j));
            }
        }
        if tz < WINDOW {
            proof {
                assert(bit(m, tz as int));
            }
            if pos + tz < limit {
                proof {
                    assert forall|j: int| 0 <= j < tz implies #[trigger] s[j] != needle by {
                        assert(s[j] == buf@[pos + j]);
                    }
                    lemma_first_of_is(s, needle, tz as int);
                }
                return pos + tz;
            } else {
                proof {
                    assert forall|j: int| 0 <= j < s.len() implies #[trigger] s[j] != needle by {
                        assert(s[j] == buf@[pos + j]);
                    }
                    lemma_first_of_is(s, needle, s.len() as int);
                }
                return limit;
            }
        }
        if pos + WINDOW >= limit {
            proof {
                assert forall|j: int| 0 <= j < s.len() implies #[trigger] s[j] != needle by {
                    assert(s[j] == buf@[pos + j]);
                    assert(!bit(m, j));
                }
                lemma_first_of_is(s, needle, s.len() as int);
            }
            return limit;
        }
        from = pos + WINDOW;
    }
    proof {
        assert forall|j: int| pos <= j < from implies #[trigger] buf@[j] != needle by {
            if let Some(m) = mask {
                assert(!bit(m, j - pos));
            }
        }
    }
    match find_byte(needle, buf, from, limit) {
        Some(i) => {
            proof {
                assert forall|j: int| 0 <= j < from + i - pos implies #[trigger] s[j] != needle by {
                    assert(s[j] == buf@[pos + j]);
                }
                lemma_first_of_is(s, needle, (from + i - pos) as int);
            }
            from + i
        },
        None => {
            proof {
                assert forall|j: int| 0 <= j < s.len() implies #[trigger] s[j] != needle by {
                    assert(s[j] == buf@[pos + j]);
                }
                lemma_first_of_is(s, needle, s.len() as int);
            }
            limit
        },
    }
}

/// Scans the record that starts at `pos`: returns the positions of its
/// separator and of its terminator. The window is used when `pos + WINDOW`
/// bytes are readable, as the margin past the data guarantees.
pub fn read_line(buf: &[u8], pos: usize, end: usize) -> (r: (usize, usize))
    requires
        pos < end <= buf@.len(),
        valid_input(buf@.subrange(pos as int, end as int)),
    ensures
        ({
            let s = buf@.subrange(pos as int, end as int);
            let nl = first_of(s, NEWLINE) as int;
            let line = s.subrange(0, nl);
            &&& nl < s.len()
            &&& r.1 == pos + nl
            &&& r.0 == pos + first_of(line, SEMICOLON)
            &&& pos < r.0 < r.1 < end
            &&& line == buf@.subrange(pos as int, r.1 as int)
            &&& valid_line(line)
            &&& valid_input(buf@.subrange(r.1 + 1, end as int))
            &&& records(s) == seq![line_record(line)] + records(buf@.subrange(r.1 + 1, end as int))
        }),
{
    let ghost s = buf@.subrange(pos as int, end as int);
    let masks: Option<(u32, u32)> = if buf.len() - pos >= WINDOW {
        Some(window_masks(buf, pos))
    } else {
        None
    };
    let nl_mask = match masks {
        Some(m) => Some(m.1),
        None => None,
    };
    let nl = locate(buf, pos, end, NEWLINE, nl_mask);
    proof {
        lemma_first_of(s, NEWLINE);
    }
    let ghost line = s.subrange(0, nl - pos);
    let sep_mask = match masks {
        Some(m) => Some(m.0),
        None => None,
    };
    let sep = locate(buf, pos, nl, SEMICOLON, sep_mask);
    proof {
        assert(line =~= buf@.subrange(pos as int, nl as int));
        lemma_first_of(line, SEMICOLON);
        assert(buf@.subrange(nl + 1, end as int) =~= s.subrange(nl - pos + 1, s.len() as int));
    }
    (sep, nl)
}

} // verus!
