//! The input model: a byte string of lines `NAME;TEMP\n`, the records that
//! it denotes, and the summary that aggregating them yields.

use vstd::prelude::*;
use crate::model::{Summary, add_to_summary};
use crate::temperature::{is_temp, temp_value};

verus! {

/// ASCII line feed, the record terminator.
pub const NEWLINE: u8 = 10;

/// ASCII `;`, the field separator.
pub const SEMICOLON: u8 = 59;

/// Index of the first `b` in `s`, or `s.len()` when there is none.
pub open spec fn first_of(s: Seq<u8>, b: u8) -> nat
    decreases s.len(),
{
    if s.len() == 0 {
        0
    } else if s[0] == b {
        0
    } else {
        1 + first_of(s.drop_first(), b)
    }
}

pub proof fn lemma_first_of(s: Seq<u8>, b: u8)
    ensures
        first_of(s, b) <= s.len(),
        first_of(s, b) < s.len() ==> s[first_of(s, b) as int] == b,
        forall|j: int| 0 <= j < first_of(s, b) ==> s[j] != b,
    decreases s.len(),
{
    if s.len() > 0 && s[0] != b {
        lemma_first_of(s.drop_first(), b);
        assert forall|j: int| 0 <= j < first_of(s, b) implies s[j] != b by {
            if j > 0 {
                assert(s[j] == s.drop_first()[j - 1]);
            }
        }
    }
}

/// `i` is the first `b` in `s`, or `s.len()` when none of `s[..i]` is `b`.
pub proof fn lemma_first_of_is(s: Seq<u8>, b: u8, i: int)
    requires
        0 <= i <= s.len(),
        i < s.len() ==> s[i] == b,
        forall|j: int| 0 <= j < i ==> s[j] != b,
    ensures
        first_of(s, b) == i,
    decreases s.len(),
{
    if s.len() > 0 && s[0] != b {
        assert forall|j: int| 0 <= j < i - 1 implies s.drop_first()[j] != b by {
            assert(s[j + 1] != b);
        }
        lemma_first_of_is(s.drop_first(), b, i - 1);
    }
}

/// A record: a station name and a reading in tenths.
pub struct Record {
    pub name: Seq<u8>,
    pub value: int,
}

/// The record that the line `l` (without its terminator) denotes.
pub open spec fn line_record(l: Seq<u8>) -> Record {
    let sep = first_of(l, SEMICOLON) as int;
    Record { name: l.subrange(0, sep), value: temp_value(l.subrange(sep + 1, l.len() as int)) }
}

/// A line `NAME;TEMP` with a non-empty name.
pub open spec fn valid_line(l: Seq<u8>) -> bool {
    let sep = first_of(l, SEMICOLON) as int;
    &&& 1 <= sep < l.len()
    &&& is_temp(l.subrange(sep + 1, l.len() as int))
}

/// The records of `s`, one per terminated line; bytes after the last
/// terminator form no record.
pub open spec fn records(s: Seq<u8>) -> Seq<Record>
    decreases s.len(),
{
    let nl = first_of(s, NEWLINE);
    if nl < s.len() {
        seq![line_record(s.subrange(0, nl as int))] + records(s.subrange((nl + 1) as int, s.len() as int))
    } else {
        Seq::empty()
    }
}

/// `s` is a sequence of valid lines, each terminated.
pub open spec fn valid_input(s: Seq<u8>) -> bool
    decreases s.len(),
{
    if s.len() == 0 {
        true
    } else {
        let nl = first_of(s, NEWLINE);
        &&& nl < s.len()
        &&& valid_line(s.subrange(0, nl as int))
        &&& valid_input(s.subrange((nl + 1) as int, s.len() as int))
    }
}

/// Folds the records, front to back, into `m`.
pub open spec fn fold_records(m: Summary, recs: Seq<Record>) -> Summary
    decreases recs.len(),
{
    if recs.len() == 0 {
        m
    } else {
        fold_records(add_to_summary(m, recs[0].name, recs[0].value), recs.drop_first())
    }
}

/// The summary of an input: every record folded into the empty summary.
pub open spec fn summarize(s: Seq<u8>) -> Summary {
    fold_records(Map::empty(), records(s))
}

/// Folding never drops a station: the result's keys include those of `m`
/// and every record's name, and stay finite.
pub proof fn lemma_fold_dom(m: Summary, recs: Seq<Record>)
    ensures
        m.dom().subset_of(fold_records(m, recs).dom()),
        forall|i: int| 0 <= i < recs.len() ==> fold_records(m, recs).contains_key(#[trigger] recs[i].name),
        m.dom().finite() ==> fold_records(m, recs).dom().finite(),
    decreases recs.len(),
{
    if recs.len() > 0 {
        let m2 = add_to_summary(m, recs[0].name, recs[0].value);
        lemma_fold_dom(m2, recs.drop_first());
        assert forall|i: int| 0 <= i < recs.len() implies fold_records(m, recs).contains_key(#[trigger] recs[i].name) by {
            if i > 0 {
                assert(recs[i] == recs.drop_first()[i - 1]);
            }
        }
    }
}

/// Folding one record then the rest is folding the whole.
pub proof fn lemma_fold_cons(m: Summary, r: Record, rest: Seq<Record>)
    ensures
        fold_records(m, seq![r] + rest) == fold_records(add_to_summary(m, r.name, r.value), rest),
{
    let recs = seq![r] + rest;
    assert(recs[0] == r);
    assert(recs.drop_first() =~= rest);
}

} // verus!
