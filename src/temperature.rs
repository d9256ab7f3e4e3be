//! Decoding of the temperature field `-?\d{1,2}\.\d` into tenths of a degree.

use vstd::prelude::*;

verus! {

/// ASCII `-`.
pub const MINUS: u8 = 45;

/// ASCII `.`.
pub const DOT: u8 = 46;

pub open spec fn is_digit(b: u8) -> bool {
    48 <= b <= 57
}

pub open spec fn digit_value(b: u8) -> int {
    b - 48
}

/// `d.d` or `dd.d`.
pub open spec fn is_unsigned_temp(s: Seq<u8>) -> bool {
    ||| (s.len() == 3 && is_digit(s[0]) && s[1] == DOT && is_digit(s[2]))
    ||| (s.len() == 4 && is_digit(s[0]) && is_digit(s[1]) && s[2] == DOT && is_digit(s[3]))
}

/// The decimal value of an unsigned reading, times ten.
pub open spec fn unsigned_temp_value(s: Seq<u8>) -> int {
    if s.len() == 3 {
        digit_value(s[0]) * 10 + digit_value(s[2])
    } else {
        digit_value(s[0]) * 100 + digit_value(s[1]) * 10 + digit_value(s[3])
    }
}

pub open spec fn is_negative(s: Seq<u8>) -> bool {
    s.len() > 0 && s[0] == MINUS
}

/// `-?\d{1,2}\.\d`.
pub open spec fn is_temp(s: Seq<u8>) -> bool {
    if is_negative(s) {
        is_unsigned_temp(s.drop_first())
    } else {
        is_unsigned_temp(s)
    }
}

/// The decimal value of a reading, times ten.
pub open spec fn temp_value(s: Seq<u8>) -> int {
    if is_negative(s) {
        -unsigned_temp_value(s.drop_first())
    } else {
        unsigned_temp_value(s)
    }
}

pub proof fn lemma_temp_range(s: Seq<u8>)
    requires
        is_temp(s),
    ensures
        -999 <= temp_value(s) <= 999,
{
}

/// A leading minus sign negates the reading: `parse("-x.y") == -parse("x.y")`.
pub proof fn lemma_minus_negates(s: Seq<u8>)
    requires
        is_unsigned_temp(s),
    ensures
        is_temp(seq![MINUS] + s),
        temp_value(seq![MINUS] + s) == -temp_value(s),
{
    assert((seq![MINUS] + s).drop_first() =~= s);
}

/// Decodes an unsigned reading `d.d` or `dd.d`.
pub fn parse_measurement_pos(text: &[u8]) -> (r: i32)
    requires
        is_unsigned_temp(text@),
    ensures
        r == unsigned_temp_value(text@),
{
    if text[1] == DOT {
        (text[0] - 48) as i32 * 10 + (text[2] - 48) as i32
    } else {
        (text[0] - 48) as i32 * 100 + (text[1] - 48) as i32 * 10 + (text[3] - 48) as i32
    }
}

/// Decodes a reading `-?\d{1,2}\.\d`.
pub fn parse_measurement(text: &[u8]) -> (r: i32)
    requires
        is_temp(text@),
    ensures
        r == temp_value(text@),
{
    if text[0] == MINUS {
        let rest = &text[1..text.len()];
        assert(rest@ =~= text@.drop_first());
        -parse_measurement_pos(rest)
    } else {
        parse_measurement_pos(text)
    }
}


/// Number of entries of the nibble lookup table: one per 16-bit key.
pub const LUT_SIZE: usize = 65536;

/// What the lookup table holds for a key made of four packed low nibbles
/// `n0 | n1 << 4 | n2 << 8 | n3 << 12`: `d.d` when the second nibble is that
/// of `.`, else `dd.d`.
pub open spec fn lut_entry(key: u32) -> int {
    let n0 = (key & 0xf) as int;
    let n1 = ((key >> 4u32) & 0xf) as int;
    let n2 = ((key >> 8u32) & 0xf) as int;
    let n3 = ((key >> 12u32) & 0xf) as int;
    if n1 == 14 {
        n0 * 10 + n2
    } else {
        n0 * 100 + n1 * 10 + n3
    }
}

/// The precomputed table that turns four packed digit nibbles into the
/// absolute value of a reading without a branch on its shape.
pub struct TempTable {
    lut: Vec<i16>,
}

impl TempTable {
    pub closed spec fn wf(&self) -> bool {
        &&& self.lut@.len() == LUT_SIZE
        &&& forall|i: int| 0 <= i < LUT_SIZE ==> #[trigger] self.lut@[i] == lut_entry(i as u32)
    }

    pub fn new() -> (r: TempTable)
        ensures
            r.wf(),
    {
        let mut lut: Vec<i16> = Vec::with_capacity(LUT_SIZE);
        let mut i: u32 = 0;
        while i < 65536
            invariant
                i <= 65536,
                lut@.len() == i,
                forall|j: int| 0 <= j < i ==> #[trigger] lut@[j] == lut_entry(j as u32),
            decreases 65536 - i,
        {
            let m0 = i & 0xf;
            let m1 = (i >> 4u32) & 0xf;
            let m2 = (i >> 8u32) & 0xf;
            let m3 = (i >> 12u32) & 0xf;
            assert(m0 < 16 && m1 < 16 && m2 < 16 && m3 < 16) by {
                assert((i & 0xf) < 16) by (bit_vector);
                assert(((i >> 4u32) & 0xf) < 16) by (bit_vector);
                assert(((i >> 8u32) & 0xf) < 16) by (bit_vector);
                assert(((i >> 12u32) & 0xf) < 16) by (bit_vector);
            }
            let n0 = m0 as i16;
            let n1 = m1 as i16;
            let n2 = m2 as i16;
            let n3 = m3 as i16;
            let v: i16 = if n1 == 14 {
                n0 * 10 + n2
            } else {
                n0 * 100 + n1 * 10 + n3
            };
            lut.push(v);
            i = i + 1;
        }
        TempTable { lut }
    }

    /// Decodes the reading that occupies `buf[start..end]`. The four bytes
    /// after an optional sign are read as one word, so one byte past a
    /// three-character reading (its line terminator) must be readable.
    pub fn parse_at(&self, buf: &[u8], start: usize, end: usize) -> (r: i32)
        requires
            self.wf(),
            start <= end < buf@.len(),
            is_temp(buf@.subrange(start as int, end as int)),
        ensures
            r == temp_value(buf@.subrange(start as int, end as int)),
    {
        let ghost s = buf@.subrange(start as int, end as int);
        let negative = buf[start] == MINUS;
        let q: usize = if negative { start + 1 } else { start };
        let b0 = buf[q];
        let b1 = buf[q + 1];
        let b2 = buf[q + 2];
        let b3 = buf[q + 3];
        let n0 = (b0 & 0xf) as u32;
        let n1 = (b1 & 0xf) as u32;
        let n2 = (b2 & 0xf) as u32;
        let n3 = (b3 & 0xf) as u32;
        let key: u32 = n0 | (n1 << 4u32) | (n2 << 8u32) | (n3 << 12u32);
        proof {
            lemma_low_nibble(b0);
            lemma_low_nibble(b1);
            lemma_low_nibble(b2);
            lemma_low_nibble(b3);
            lemma_pack_nibbles(n0, n1, n2, n3);
            let u = if negative { s.drop_first() } else { s };
            assert(u =~= buf@.subrange(q as int, end as int));
        }
        let abs_val = self.lut[key as usize] as i32;
        if negative {
            -abs_val
        } else {
            abs_val
        }
    }
}

/// The low nibble of a digit is its value; that of `.` is 14, which no digit has.
proof fn lemma_low_nibble(b: u8)
    ensures
        (b & 0xf) < 16,
        48 <= b <= 57 ==> (b & 0xf) == b - 48,
        b == DOT ==> (b & 0xf) == 14,
{
    assert((b & 0xf) < 16) by (bit_vector);
    assert(48 <= b <= 57 ==> (b & 0xf) == b - 48) by (bit_vector);
    assert(b == 46 ==> (b & 0xf) == 14) by (bit_vector);
}

proof fn lemma_pack_nibbles(n0: u32, n1: u32, n2: u32, n3: u32)
    requires
        n0 < 16,
        n1 < 16,
        n2 < 16,
        n3 < 16,
    ensures
        ({
            let key = n0 | (n1 << 4u32) | (n2 << 8u32) | (n3 << 12u32);
            &&& key < 65536
            &&& key & 0xf == n0
            &&& (key >> 4u32) & 0xf == n1
            &&& (key >> 8u32) & 0xf == n2
            &&& (key >> 12u32) & 0xf == n3
        }),
{
    assert(({
        let key = n0 | (n1 << 4u32) | (n2 << 8u32) | (n3 << 12u32);
        &&& key < 65536
        &&& key & 0xf == n0
        &&& (key >> 4u32) & 0xf == n1
        &&& (key >> 8u32) & 0xf == n2
        &&& (key >> 12u32) & 0xf == n3
    })) by (bit_vector)
        requires
            n0 < 16,
            n1 < 16,
            n2 < 16,
            n3 < 16,
    ;
}

} // verus!
