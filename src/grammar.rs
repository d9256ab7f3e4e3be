//! Checking that an input follows the line grammar `NAME;TEMP\n`.

use vstd::prelude::*;
use crate::records::{
    NEWLINE, SEMICOLON, lemma_first_of_is, valid_input,
};
use crate::scanner::find_byte;
use crate::temperature::{is_temp, is_unsigned_temp, DOT, MINUS};

verus! {

fn is_digit_byte(b: u8) -> (r: bool)
    ensures
        r == crate::temperature::is_digit(b),
{
    48 <= b && b <= 57
}

/// Whether `buf[start..end]` is `d.d` or `dd.d`.
fn is_unsigned_temp_at(buf: &[u8], start: usize, end: usize) -> (r: bool)
    requires
        start <= end <= buf@.len(),
    ensures
        r == is_unsigned_temp(buf@.subrange(start as int, end as int)),
{
    let n = end - start;
    if n == 3 {
        is_digit_byte(buf[start]) && buf[start + 1] == DOT && is_digit_byte(buf[start + 2])
    } else if n == 4 {
        is_digit_byte(buf[start]) && is_digit_byte(buf[start + 1]) && buf[start + 2] == DOT
            && is_digit_byte(buf[start + 3])
    } else {
        false
    }
}

/// Whether `buf[start..end]` is a reading `-?\d{1,2}\.\d`.
pub fn is_temp_at(buf: &[u8], start: usize, end: usize) -> (r: bool)
    requires
        start <= end <= buf@.len(),
    ensures
        r == is_temp(buf@.subrange(start as int, end as int)),
{
    let ghost s = buf@.subrange(start as int, end as int);
    if start < end && buf[start] == MINUS {
        assert(s.drop_first() =~= buf@.subrange(start + 1, end as int));
        is_unsigned_temp_at(buf, start + 1, end)
    } else {
        is_unsigned_temp_at(buf, start, end)
    }
}

/// Whether the input `buf[start..end]` is a sequence of terminated lines
/// `NAME;TEMP`, each name non-empty.
pub fn check_input(buf: &[u8], start: usize, end: usize) -> (r: bool)
    requires
        start <= end <= buf@.len(),
    ensures
        r == valid_input(buf@.subrange(start as int, end as int)),
{
    let mut pos = start;
    while pos < end
        invariant
            start <= pos <= end <= buf@.len(),
            valid_input(buf@.subrange(start as int, end as int)) == valid_input(buf@.subrange(pos as int, end as int)),
        decreases end - pos,
    {
        let ghost s = buf@.subrange(pos as int, end as int);
        let nl = match find_byte(NEWLINE, buf, pos, end) {
            Some(i) => pos + i,
            None => {
                proof {
                    assert forall|j: int| 0 <= j < s.len() implies s[j] != NEWLINE by {
                        assert(s[j] == buf@[pos + j]);
                    }
                    lemma_first_of_is(s, NEWLINE, s.len() as int);
                }
                return false;
            },
        };
        proof {
            assert forall|j: int| 0 <= j < nl - pos implies s[j] != NEWLINE by {
                assert(s[j] == buf@[pos + j]);
            }
            lemma_first_of_is(s, NEWLINE, nl - pos);
            assert(s.subrange(0, nl - pos) =~= buf@.subrange(pos as int, nl as int));
            assert(s.subrange(nl - pos + 1, s.len() as int) =~= buf@.subrange(nl + 1, end as int));
        }
        let ghost line = buf@.subrange(pos as int, nl as int);
        let sep = match find_byte(SEMICOLON, buf, pos, nl) {
            Some(i) => pos + i,
            None => nl,
        };
        proof {
            assert forall|j: int| 0 <= j < sep - pos implies line[j] != SEMICOLON by {
                assert(line[j] == buf@[pos + j]);
            }
            lemma_first_of_is(line, SEMICOLON, sep - pos);
        }
        if sep == pos || sep == nl {
            return false;
        }
        proof {
            let sr = sep - pos;
            assert(line.subrange(sr + 1, line.len() as int) =~= buf@.subrange(sep + 1, nl as int));
        }
        if !is_temp_at(buf, sep + 1, nl) {
            return false;
        }
        pos = nl + 1;
    }
    proof {
        assert(buf@.subrange(pos as int, end as int).len() == 0);
    }
    true
}

} // verus!
