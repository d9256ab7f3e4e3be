//! Station names, held as owned byte strings and compared byte-wise.

use vstd::prelude::*;

verus! {

/// A station name: raw bytes, compared byte-wise. The empty name marks an
/// unused table slot.
pub struct StationName {
    bytes: Vec<u8>,
}

impl View for StationName {
    type V = Seq<u8>;

    closed spec fn view(&self) -> Seq<u8> {
        self.bytes@
    }
}

impl StationName {
    /// The unused-slot marker.
    pub fn empty() -> (r: StationName)
        ensures
            r@ == Seq::<u8>::empty(),
    {
        StationName { bytes: Vec::new() }
    }

    /// Copies `buf[start..end]`.
    pub fn from_range(buf: &[u8], start: usize, end: usize) -> (r: StationName)
        requires
            start <= end <= buf@.len(),
        ensures
            r@ == buf@.subrange(start as int, end as int),
    {
        let mut bytes: Vec<u8> = Vec::with_capacity(end - start);
        let mut i: usize = start;
        while i < end
            invariant
                start <= i <= end <= buf@.len(),
                bytes@ == buf@.subrange(start as int, i as int),
            decreases end - i,
        {
            bytes.push(buf[i]);
            i = i + 1;
            assert(bytes@ =~= buf@.subrange(start as int, i as int));
        }
        StationName { bytes }
    }

    pub fn from_bytes(b: &[u8]) -> (r: StationName)
        ensures
            r@ == b@,
    {
        let r = Self::from_range(b, 0, b.len());
        assert(b@.subrange(0, b@.len() as int) =~= b@);
        r
    }

    pub fn len(&self) -> (r: usize)
        ensures
            r == self@.len(),
    {
        self.bytes.len()
    }

    pub fn as_bytes(&self) -> (r: &[u8])
        ensures
            r@ == self@,
    {
        self.bytes.as_slice()
    }

    /// A second copy of the same name.
    pub fn duplicate(&self) -> (r: StationName)
        ensures
            r@ == self@,
    {
        Self::from_bytes(self.bytes.as_slice())
    }

    /// Whether this name equals `buf[start..end]`: lengths first, then the bytes.
    pub fn matches(&self, buf: &[u8], start: usize, end: usize) -> (r: bool)
        requires
            start <= end <= buf@.len(),
        ensures
            r == (self@ == buf@.subrange(start as int, end as int)),
    {
        let len = self.bytes.len();
        if len != end - start {
            return false;
        }
        let mut i: usize = 0;
        while i < len
            invariant
                len == self.bytes@.len() == end - start,
                start <= end <= buf@.len(),
                i <= len,
                forall|j: int| 0 <= j < i ==> self.bytes@[j] == buf@[start + j],
            decreases len - i,
        {
            if self.bytes[i] != buf[start + i] {
                assert(self.bytes@[i as int] != buf@.subrange(start as int, end as int)[i as int]);
                return false;
            }
            i = i + 1;
        }
        assert(self.bytes@ =~= buf@.subrange(start as int, end as int));
        true
    }
}

} // verus!
