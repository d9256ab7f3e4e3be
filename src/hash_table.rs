//! The open-addressed station dictionary: a power-of-two array of slots,
//! probed linearly from a home slot given by hashing the name's first four
//! bytes.

use vstd::prelude::*;
use vstd::set_lib::{set_int_range, lemma_int_range, lemma_map_size, lemma_map_size_bound, lemma_len_subset};
use crate::model::{
    Summary, stats_of, add_to_summary, merge_into_summary, merge_summaries, summary_valid,
    lemma_merge_step, lemma_merge_dom,
};
use crate::name::StationName;
use crate::stats::{
    StationEntry, Stats, empty_stats, stats_valid, is_reading, MAX_COUNT, lemma_combine_empty,
};

verus! {

/// Number of slots; it exceeds the number of distinct stations the input may hold.
pub const SIZE: usize = 16384;

/// What FxHasher yields for one `u32` written into a fresh hasher.
pub uninterp spec fn fx_hash_of(word: u32) -> u64;

/// Relies on `rustc_hash::FxHasher`: a default (unseeded) hasher fed one
/// `u32` through `Hash::hash` (its `write_u32`), then `finish`. The result
/// depends on the word alone.
#[verifier::external_body]
fn fx_hash_u32(word: u32) -> (r: u64)
    ensures
        r == fx_hash_of(word),
{
    let mut hasher = rustc_hash::FxHasher::default();
    std::hash::Hash::hash(&word, &mut hasher);
    std::hash::Hasher::finish(&hasher)
}

pub open spec fn byte_or_zero(k: Seq<u8>, i: int) -> int {
    if i < k.len() {
        k[i] as int
    } else {
        0
    }
}

/// The first four bytes of a name as a little-endian word, zero-filled
/// past the end of a shorter name.
pub open spec fn prefix_word(k: Seq<u8>) -> u32 {
    (byte_or_zero(k, 0) + 256 * byte_or_zero(k, 1) + 65536 * byte_or_zero(k, 2) + 16777216
        * byte_or_zero(k, 3)) as u32
}

/// The slot where probing for `k` starts.
pub open spec fn home(k: Seq<u8>) -> int {
    (fx_hash_of(prefix_word(k)) % (SIZE as u64)) as int
}

/// The slot `d` steps after `h`, wrapping around.
pub open spec fn slot_at(h: int, d: int) -> int {
    (h + d) % (SIZE as int)
}

/// How many steps lie from `h` to `i`, wrapping around.
pub open spec fn dist(h: int, i: int) -> int {
    (i - h + SIZE) % (SIZE as int)
}

pub open spec fn occupied(names: Seq<StationName>, i: int) -> bool {
    names[i]@.len() > 0
}

proof fn lemma_slot_dist(h: int, i: int)
    requires
        0 <= h < SIZE,
        0 <= i < SIZE,
    ensures
        0 <= dist(h, i) < SIZE,
        slot_at(h, dist(h, i)) == i,
        forall|e: int| 0 <= e < SIZE && #[trigger] slot_at(h, e) == i ==> e == dist(h, i),
{
}

/// Whether two summaries can be merged into one table: the merged summary
/// has at most `SIZE` stations and no station's count passes `MAX_COUNT`.
pub open spec fn merge_fits(a: Summary, b: Summary) -> bool {
    &&& merge_summaries(a, b).dom().len() <= SIZE
    &&& forall|k: Seq<u8>| #[trigger] stats_of(a, k).count + stats_of(b, k).count <= MAX_COUNT
}

pub struct MyHashMap {
    names: Vec<StationName>,
    entries: Vec<StationEntry>,
    summary: Ghost<Summary>,
    slot: Ghost<Map<Seq<u8>, int>>,
}

impl View for MyHashMap {
    type V = Summary;

    closed spec fn view(&self) -> Summary {
        self.summary@
    }
}

impl MyHashMap {
    /// The table invariant: every station of the summary sits in exactly one
    /// slot, which holds its accumulator; unused slots hold the empty one; and
    /// every slot on the probe path from a station's home slot to its own slot
    /// is in use, so a probe that meets an unused slot may stop.
    pub closed spec fn wf(&self) -> bool {
        let names = self.names@;
        let entries = self.entries@;
        let m = self.summary@;
        let slot = self.slot@;
        &&& names.len() == SIZE
        &&& entries.len() == SIZE
        &&& summary_valid(m)
        &&& slot.dom() == m.dom()
        &&& forall|k: Seq<u8>| #[trigger]
            m.contains_key(k) ==> 0 <= slot[k] < SIZE && names[slot[k]]@ == k && k.len() > 0
        &&& forall|i: int|
            0 <= i < SIZE ==> if #[trigger] names[i]@.len() > 0 {
                &&& m.contains_key(names[i]@)
                &&& slot[names[i]@] == i
                &&& entries[i]@ == m[names[i]@]
            } else {
                entries[i]@ == empty_stats()
            }
        &&& forall|i: int, d: int|
            0 <= i < SIZE && occupied(names, i) && 0 <= d < dist(home(names[i]@), i) ==>
                #[trigger] occupied(names, #[trigger] slot_at(home(names[i]@), d))
    }

    /// Every slot holds a station.
    spec fn is_full(&self) -> bool {
        forall|i: int| 0 <= i < SIZE ==> #[trigger] occupied(self.names@, i)
    }

    pub fn new() -> (r: MyHashMap)
        ensures
            r.wf(),
            r@ == Map::<Seq<u8>, Stats>::empty(),
    {
        let mut names: Vec<StationName> = Vec::with_capacity(SIZE);
        let mut entries: Vec<StationEntry> = Vec::with_capacity(SIZE);
        let mut i: usize = 0;
        while i < SIZE
            invariant
                i <= SIZE,
                names@.len() == i,
                entries@.len() == i,
                forall|j: int| 0 <= j < i ==> (#[trigger] names@[j])@.len() == 0,
                forall|j: int| 0 <= j < i ==> (#[trigger] entries@[j])@ == empty_stats(),
            decreases SIZE - i,
        {
            names.push(StationName::empty());
            entries.push(StationEntry::empty());
            i = i + 1;
        }
        let r = MyHashMap {
            names,
            entries,
            summary: Ghost(Map::empty()),
            slot: Ghost(Map::empty()),
        };
        assert(r.wf());
        r
    }

    /// The home slot of `buf[start..end]`.
    fn home_of(buf: &[u8], start: usize, end: usize) -> (r: usize)
        requires
            start < end <= buf@.len(),
        ensures
            r == home(buf@.subrange(start as int, end as int)),
            r < SIZE,
    {
        let ghost k = buf@.subrange(start as int, end as int);
        let len = end - start;
        let b0 = buf[start] as u32;
        let b1: u32 = if len > 1 { buf[start + 1] as u32 } else { 0 };
        let b2: u32 = if len > 2 { buf[start + 2] as u32 } else { 0 };
        let b3: u32 = if len > 3 { buf[start + 3] as u32 } else { 0 };
        let word: u32 = b0 + 256 * b1 + 65536 * b2 + 16777216 * b3;
        assert(word == prefix_word(k));
        (fx_hash_u32(word) % (SIZE as u64)) as usize
    }

    /// Probes for `buf[start..end]`: the slot that holds it, else the first
    /// unused slot on its probe path, else `SIZE` when every slot is taken.
    fn find_slot(&self, buf: &[u8], start: usize, end: usize) -> (r: usize)
        requires
            self.wf(),
            start < end <= buf@.len(),
        ensures
            r <= SIZE,
            r < SIZE ==> self.names@[r as int]@ == buf@.subrange(start as int, end as int)
                || (!occupied(self.names@, r as int) && !self@.contains_key(
                buf@.subrange(start as int, end as int),
            ) && forall|e: int|
                0 <= e < dist(home(buf@.subrange(start as int, end as int)), r as int)
                    ==> #[trigger] occupied(
                    self.names@,
                    slot_at(home(buf@.subrange(start as int, end as int)), e),
                )),
            r == SIZE ==> !self@.contains_key(buf@.subrange(start as int, end as int))
                && self.is_full(),
    {
        let ghost k = buf@.subrange(start as int, end as int);
        let h = Self::home_of(buf, start, end);
        let mut d: usize = 0;
        while d < SIZE
            invariant
                self.wf(),
                start < end <= buf@.len(),
                k == buf@.subrange(start as int, end as int),
                h == home(k),
                h < SIZE,
                d <= SIZE,
                forall|e: int| 0 <= e < d ==> occupied(self.names@, #[trigger] slot_at(h as int, e)),
                forall|e: int| 0 <= e < d ==> self.names@[#[trigger] slot_at(h as int, e)]@ != k,
            decreases SIZE - d,
        {
            let i = (h + d) % SIZE;
            assert(i == slot_at(h as int, d as int));
            if self.names[i].len() == 0 {
                proof {
                    lemma_slot_dist(h as int, i as int);
                    if self@.contains_key(k) {
                        let s = self.slot@[k];
                        lemma_slot_dist(h as int, s);
                        let e = dist(h as int, s);
                        assert(occupied(self.names@, s));
                        assert(home(self.names@[s]@) == h);
                        if e < d {
                            assert(occupied(self.names@, slot_at(h as int, e)));
                        } else if e > d {
                            assert(occupied(self.names@, slot_at(h as int, d as int)));
                        }
                    }
                }
                return i;
            }
            let found = self.names[i].matches(buf, start, end);
            if found {
                return i;
            }
            assert(self.names@[i as int]@ != k);
            assert(self.names@[i as int]@.len() > 0);
            assert(occupied(self.names@, slot_at(h as int, d as int)));
            assert(self.names@[slot_at(h as int, d as int)]@ != k);
            assert forall|e: int| 0 <= e < d + 1 implies occupied(self.names@, #[trigger] slot_at(h as int, e)) by {
                if e == d {
                    assert(occupied(self.names@, slot_at(h as int, d as int)));
                }
            }
            assert forall|e: int| 0 <= e < d + 1 implies self.names@[#[trigger] slot_at(h as int, e)]@ != k by {
                if e == d {
                    assert(self.names@[slot_at(h as int, d as int)]@ != k);
                }
            }
            d = d + 1;
        }
        proof {
            assert forall|i: int| 0 <= i < SIZE implies #[trigger] occupied(self.names@, i) by {
                lemma_slot_dist(h as int, i);
                assert(occupied(self.names@, slot_at(h as int, dist(h as int, i))));
            }
            if self@.contains_key(k) {
                let s = self.slot@[k];
                lemma_slot_dist(h as int, s);
                let e = dist(h as int, s);
                assert(occupied(self.names@, slot_at(h as int, e)));
                assert(self.names@[slot_at(h as int, e)]@ != k);
            }
        }
        SIZE
    }

    /// A table whose every slot is taken holds `SIZE` stations.
    proof fn lemma_full_len(&self)
        requires
            self.wf(),
            self.is_full(),
        ensures
            self@.dom().len() >= SIZE,
    {
        let x = set_int_range(0, SIZE as int);
        let names = self.names@;
        let f = |i: int| names[i]@;
        lemma_int_range(0, SIZE as int);
        assert(vstd::relations::injective_on(f, x)) by {
            assert forall|a: int, b: int| x.contains(a) && x.contains(b) && #[trigger] f(a) == #[trigger] f(b) implies a == b by {
                assert(occupied(names, a));
                assert(occupied(names, b));
            }
        }
        let y = x.map(f);
        lemma_map_size(x, y, f);
        assert(y.subset_of(self@.dom())) by {
            assert forall|k: Seq<u8>| y.contains(k) implies self@.dom().contains(k) by {
                let i = choose|i: int| x.contains(i) && f(i) == k;
                assert(occupied(names, i));
            }
        }
        lemma_len_subset(y, self@.dom());
    }

    /// A table holds at most `SIZE` stations.
    proof fn lemma_len_le_size(&self)
        requires
            self.wf(),
        ensures
            self@.dom().len() <= SIZE,
    {
        let names = self.names@;
        let f = |i: int| names[i]@;
        let x = set_int_range(0, SIZE as int);
        let occ = x.filter(|i: int| occupied(names, i));
        lemma_int_range(0, SIZE as int);
        lemma_len_subset(occ, x);
        assert(occ.map(f) =~= self@.dom()) by {
            assert forall|k: Seq<u8>| self@.dom().contains(k) implies occ.map(f).contains(k) by {
                let s = self.slot@[k];
                assert(occ.contains(s));
                assert(f(s) == k);
            }
            assert forall|k: Seq<u8>| occ.map(f).contains(k) implies self@.dom().contains(k) by {
                let i = choose|i: int| occ.contains(i) && f(i) == k;
                assert(occupied(names, i));
            }
        }
        lemma_map_size_bound(occ, self@.dom(), f);
    }

    /// A table with an unused slot holds fewer than `SIZE` stations.
    proof fn lemma_free_slot_len(&self, j: int)
        requires
            self.wf(),
            0 <= j < SIZE,
            !occupied(self.names@, j),
        ensures
            self@.dom().len() < SIZE,
    {
        let names = self.names@;
        let f = |i: int| names[i]@;
        let x = set_int_range(0, SIZE as int);
        let occ = x.filter(|i: int| occupied(names, i));
        lemma_int_range(0, SIZE as int);
        assert(occ.subset_of(x.remove(j)));
        lemma_len_subset(occ, x.remove(j));
        assert(occ.map(f) =~= self@.dom()) by {
            assert forall|k: Seq<u8>| self@.dom().contains(k) implies occ.map(f).contains(k) by {
                let s = self.slot@[k];
                assert(occ.contains(s));
                assert(f(s) == k);
            }
            assert forall|k: Seq<u8>| occ.map(f).contains(k) implies self@.dom().contains(k) by {
                let i = choose|i: int| occ.contains(i) && f(i) == k;
                assert(occupied(names, i));
            }
        }
        lemma_map_size_bound(occ, self@.dom(), f);
    }

    /// Finds or claims the slot of `buf[start..end]`; `SIZE` when the table is
    /// full and the name absent. A claimed slot then holds the name and the
    /// empty accumulator, which the caller fills before the table is whole.
    fn claim_slot(&mut self, buf: &[u8], start: usize, end: usize) -> (r: usize)
        requires
            old(self).wf(),
            start < end <= buf@.len(),
        ensures
            ({
                let k = buf@.subrange(start as int, end as int);
                &&& r <= SIZE
                &&& (r < SIZE) == (old(self)@.contains_key(k) || old(self)@.dom().len() < SIZE)
                &&& r == SIZE ==> *final(self) == *old(self)
                &&& r < SIZE ==> {
                    &&& final(self).names@[r as int]@ == k
                    &&& final(self).entries@ == old(self).entries@
                    &&& final(self).entries@[r as int]@ == stats_of(old(self)@, k)
                    &&& final(self).wf_except(r as int, old(self)@)
                    &&& final(self).summary@ == old(self).summary@
                }
            }),
    {
        let ghost k = buf@.subrange(start as int, end as int);
        let i = self.find_slot(buf, start, end);
        if i == SIZE {
            proof {
                self.lemma_full_len();
            }
            return SIZE;
        }
        if self.names[i].len() == 0 {
            proof {
                self.lemma_free_slot_len(i as int);
                lemma_slot_dist(home(k), i as int);
            }
            let ghost old_names = self.names@;
            self.names[i] = StationName::from_range(buf, start, end);
            self.slot = Ghost(self.slot@.insert(k, i as int));
            proof {
                assert(self.names@ == old_names.update(i as int, self.names@[i as int]));
                assert forall|i2: int, d: int|
                    0 <= i2 < SIZE && occupied(self.names@, i2) && 0 <= d < dist(
                        home(self.names@[i2]@),
                        i2,
                    ) implies #[trigger] occupied(
                    self.names@,
                    #[trigger] slot_at(home(self.names@[i2]@), d),
                ) by {
                    if i2 != i {
                        assert(occupied(old_names, i2));
                        assert(occupied(old_names, slot_at(home(old_names[i2]@), d)));
                    } else {
                        assert(occupied(old_names, slot_at(home(k), d)));
                    }
                }
                assert forall|k2: Seq<u8>| #[trigger] self.slot@.contains_key(k2) implies 0
                    <= self.slot@[k2] < SIZE && self.names@[self.slot@[k2]]@ == k2 && k2.len()
                    > 0 by {
                    if k2 != k {
                        assert(old(self).summary@.contains_key(k2));
                        assert(old_names[old(self).slot@[k2]]@ == k2);
                    }
                }
                assert forall|i2: int| 0 <= i2 < SIZE && i2 != i implies if #[trigger] self.names@[i2]@.len() > 0 {
                    &&& self.summary@.contains_key(self.names@[i2]@)
                    &&& self.slot@[self.names@[i2]@] == i2
                    &&& self.entries@[i2]@ == self.summary@[self.names@[i2]@]
                } else {
                    self.entries@[i2]@ == empty_stats()
                } by {
                    assert(self.names@[i2] == old_names[i2]);
                }
            }
        }
        proof {
            assert(self.names@[i as int]@ == k);
            assert(self.slot@.dom() =~= self.summary@.dom().insert(k));
            assert(self.entries@[i as int]@ == stats_of(old(self)@, k));
            assert(self.wf_except(i as int, old(self)@));
        }
        i
    }

    /// The table invariant against the summary `m`, but for slot `j`, which
    /// holds its name while its accumulator is being updated.
    closed spec fn wf_except(&self, j: int, m: Summary) -> bool {
        let names = self.names@;
        let entries = self.entries@;
        let slot = self.slot@;
        &&& 0 <= j < SIZE
        &&& names.len() == SIZE
        &&& entries.len() == SIZE
        &&& summary_valid(m)
        &&& names[j]@.len() > 0
        &&& slot.dom() == m.dom().insert(names[j]@)
        &&& slot[names[j]@] == j
        &&& forall|k: Seq<u8>| #[trigger]
            slot.contains_key(k) ==> 0 <= slot[k] < SIZE && names[slot[k]]@ == k && k.len() > 0
        &&& forall|i: int|
            0 <= i < SIZE && i != j ==> if #[trigger] names[i]@.len() > 0 {
                &&& m.contains_key(names[i]@)
                &&& slot[names[i]@] == i
                &&& entries[i]@ == m[names[i]@]
            } else {
                entries[i]@ == empty_stats()
            }
        &&& forall|i: int, d: int|
            0 <= i < SIZE && occupied(names, i) && 0 <= d < dist(home(names[i]@), i) ==>
                #[trigger] occupied(names, #[trigger] slot_at(home(names[i]@), d))
    }

    proof fn lemma_close(&self, j: int, m: Summary)
        requires
            self.wf_except(j, m),
            self.summary@ == m.insert(self.names@[j]@, self.entries@[j]@),
            stats_valid(self.entries@[j]@),
            self.entries@[j]@.count > 0,
        ensures
            self.wf(),
    {
        let k = self.names@[j]@;
        assert(self.slot@.dom() =~= self.summary@.dom());
        assert forall|i: int| 0 <= i < SIZE implies if #[trigger] self.names@[i]@.len() > 0 {
            &&& self.summary@.contains_key(self.names@[i]@)
            &&& self.slot@[self.names@[i]@] == i
            &&& self.entries@[i]@ == self.summary@[self.names@[i]@]
        } else {
            self.entries@[i]@ == empty_stats()
        } by {
            if i != j && self.names@[i]@.len() > 0 {
                assert(self.names@[i]@ != k);
            }
        }
    }

    /// Adds one reading of the station named `buf[start..end]`. It fails only
    /// when the name is new and every slot already holds a station.
    pub fn insert_measurement(&mut self, buf: &[u8], start: usize, end: usize, measurement: i32) -> (r: bool)
        requires
            old(self).wf(),
            start < end <= buf@.len(),
            is_reading(measurement as int),
            stats_of(old(self)@, buf@.subrange(start as int, end as int)).count < MAX_COUNT,
        ensures
            final(self).wf(),
            r == (old(self)@.contains_key(buf@.subrange(start as int, end as int))
                || old(self)@.dom().len() < SIZE),
            r ==> final(self)@ == add_to_summary(
                old(self)@,
                buf@.subrange(start as int, end as int),
                measurement as int,
            ),
            !r ==> final(self)@ == old(self)@,
    {
        let ghost k = buf@.subrange(start as int, end as int);
        let i = self.claim_slot(buf, start, end);
        if i == SIZE {
            return false;
        }
        let ghost before = self.entries@;
        proof {
            if old(self)@.contains_key(k) {
                assert(stats_valid(old(self)@[k]));
            }
            assert(stats_valid(stats_of(old(self)@, k)));
            assert(self.entries@.len() == SIZE);
        }
        self.entries[i].add(measurement);
        self.summary = Ghost(add_to_summary(old(self)@, k, measurement as int));
        proof {
            assert(self.entries@ == before.update(i as int, self.entries@[i as int]));
            self.lemma_close(i as int, old(self)@);
        }
        true
    }

    /// Folds the partial accumulator of station `name` into this table. It
    /// fails when the name is new and every slot already holds a station, or
    /// when the combined count would pass `MAX_COUNT`.
    pub fn merge_entry(&mut self, name: &StationName, other_entry: &StationEntry) -> (r: bool)
        requires
            old(self).wf(),
            name@.len() > 0,
            other_entry.valid(),
            other_entry.count > 0,
        ensures
            final(self).wf(),
            r == ((old(self)@.contains_key(name@) || old(self)@.dom().len() < SIZE)
                && stats_of(old(self)@, name@).count + other_entry.count <= MAX_COUNT),
            r ==> final(self)@ == merge_into_summary(old(self)@, name@, other_entry@),
            !r ==> final(self)@ == old(self)@,
    {
        let key = name.as_bytes();
        let ghost k = name@;
        assert(key@.subrange(0, key@.len() as int) =~= k);
        let i = self.find_slot(key, 0, key.len());
        if i < SIZE && self.names[i].len() > 0 {
            if self.entries[i].count > MAX_COUNT - other_entry.count {
                return false;
            }
        } else if other_entry.count > MAX_COUNT {
            return false;
        }
        let i = self.claim_slot(key, 0, key.len());
        if i == SIZE {
            return false;
        }
        let ghost before = self.entries@;
        proof {
            lemma_combine_empty(other_entry@);
            if old(self)@.contains_key(k) {
                assert(stats_valid(old(self)@[k]));
            }
            assert(stats_valid(stats_of(old(self)@, k)));
            assert(self.entries@.len() == SIZE);
        }
        self.entries[i].merge(other_entry);
        self.summary = Ghost(merge_into_summary(old(self)@, k, other_entry@));
        proof {
            assert(self.entries@ == before.update(i as int, self.entries@[i as int]));
            self.lemma_close(i as int, old(self)@);
        }
        true
    }

    /// The stations that the table holds, in slot order, each with a copy of
    /// its accumulator.
    pub fn iter(&self) -> (r: Vec<(StationName, StationEntry)>)
        requires
            self.wf(),
        ensures
            forall|i: int| 0 <= i < r@.len() ==> {
                &&& self@.contains_key((#[trigger] r@[i]).0@)
                &&& r@[i].1@ == self@[r@[i].0@]
            },
            forall|i: int, j: int| 0 <= i < j < r@.len() ==> (#[trigger] r@[i]).0@ != (#[trigger] r@[j]).0@,
            forall|k: Seq<u8>| #[trigger] self@.contains_key(k) ==> exists|i: int| 0 <= i < r@.len() && (#[trigger] r@[i]).0@ == k,
    {
        let mut out: Vec<(StationName, StationEntry)> = Vec::new();
        let ghost mut at: Seq<int> = Seq::empty();
        let mut i: usize = 0;
        while i < SIZE
            invariant
                self.wf(),
                i <= SIZE,
                at.len() == out@.len(),
                forall|a: int| 0 <= a < out@.len() ==> 0 <= #[trigger] at[a] < i && occupied(self.names@, at[a]),
                forall|a: int| 0 <= a < out@.len() ==> (#[trigger] out@[a]).0@ == self.names@[at[a]]@
                    && out@[a].1@ == self.entries@[at[a]]@,
                forall|a: int, b: int| 0 <= a < b < out@.len() ==> #[trigger] at[a] < #[trigger] at[b],
                forall|j: int| 0 <= j < i && occupied(self.names@, j) ==> exists|a: int| 0 <= a < at.len() && #[trigger] at[a] == j,
            decreases SIZE - i,
        {
            if self.names[i].len() > 0 {
                let name = self.names[i].duplicate();
                let entry = self.entries[i].clone();
                let ghost old_out = out@;
                let ghost old_at = at;
                out.push((name, entry));
                proof {
                    at = at.push(i as int);
                    assert(at[at.len() - 1] == i);
                    assert forall|a: int| 0 <= a < old_at.len() implies at[a] == old_at[a] && out@[a] == old_out[a] by {}
                    assert(out@[out@.len() - 1].0@ == self.names@[i as int]@);
                }
            }
            i = i + 1;
        }
        proof {
            assert forall|a: int, b: int| 0 <= a < b < out@.len() implies (#[trigger] out@[a]).0@ != (#[trigger] out@[b]).0@ by {
                assert(at[a] < at[b]);
                assert(occupied(self.names@, at[a]));
                assert(occupied(self.names@, at[b]));
                assert(self.names@[at[a]]@.len() > 0);
                assert(self.names@[at[b]]@.len() > 0);
            }
            assert forall|k: Seq<u8>| #[trigger] self@.contains_key(k) implies exists|a: int| 0 <= a < out@.len() && (#[trigger] out@[a]).0@ == k by {
                let s = self.slot@[k];
                assert(occupied(self.names@, s));
                let a = choose|a: int| 0 <= a < at.len() && #[trigger] at[a] == s;
                assert(out@[a].0@ == k);
            }
        }
        out
    }

    /// The table's stations and their accumulators satisfy the summary invariant.
    pub proof fn lemma_valid(&self)
        requires
            self.wf(),
        ensures
            summary_valid(self@),
            self@.dom().len() <= SIZE,
    {
        self.lemma_len_le_size();
    }

    /// For every station the table holds, the mean lies between the extremes:
    /// `min * count <= sum <= max * count`, and so also once rounded.
    pub proof fn lemma_mean_between_extremes(&self, k: Seq<u8>)
        requires
            self.wf(),
            self@.contains_key(k),
        ensures
            self@[k].count > 0,
            self@[k].min * self@[k].count <= self@[k].sum <= self@[k].max * self@[k].count,
            self@[k].min <= crate::stats::rounded_mean(self@[k].sum, self@[k].count) <= self@[k].max,
    {
        crate::stats::lemma_mean_between(self@[k]);
    }

    /// Folds every station of `other` into this table. It succeeds exactly
    /// when the merged summary fits one table.
    pub fn merge(&mut self, other: &MyHashMap) -> (r: bool)
        requires
            old(self).wf(),
            other.wf(),
        ensures
            final(self).wf(),
            r == merge_fits(old(self)@, other@),
            r ==> final(self)@ == merge_summaries(old(self)@, other@),
    {
        let ghost a = old(self)@;
        let ghost b = other@;
        let items = other.iter();
        proof {
            lemma_merge_dom(a, b);
        }
        let mut n: usize = 0;
        while n < items.len()
            invariant
                self.wf(),
                other.wf(),
                a == old(self)@,
                b == other@,
                summary_valid(a),
                summary_valid(b),
                merge_summaries(a, b).dom().finite(),
                n <= items@.len(),
                forall|i: int| 0 <= i < items@.len() ==> {
                    &&& b.contains_key((#[trigger] items@[i]).0@)
                    &&& items@[i].1@ == b[items@[i].0@]
                },
                forall|i: int, j: int| 0 <= i < j < items@.len() ==> (#[trigger] items@[i]).0@ != (#[trigger] items@[j]).0@,
                forall|k: Seq<u8>| #[trigger] b.contains_key(k) ==> exists|i: int| 0 <= i < items@.len() && (#[trigger] items@[i]).0@ == k,
                self@ == merge_summaries(a, Self::prefix_summary(b, items@, n as int)),
                forall|i: int| 0 <= i < n ==> stats_of(a, (#[trigger] items@[i]).0@).count + items@[i].1.count <= MAX_COUNT,
            decreases items@.len() - n,
        {
            let ghost p = Self::prefix_summary(b, items@, n as int);
            let ghost k = items@[n as int].0@;
            proof {
                assert(b.contains_key(k));
                assert(stats_valid(b[k]));
                assert(!p.contains_key(k)) by {
                    if p.contains_key(k) {
                        let i = choose|i: int| 0 <= i < n && (#[trigger] items@[i]).0@ == k;
                        assert(items@[i].0@ != items@[n as int].0@);
                    }
                }
                lemma_merge_step(a, p, k, b[k]);
                assert(Self::prefix_summary(b, items@, n + 1) =~= p.insert(k, b[k]));
            }
            let ok = self.merge_entry(&items[n].0, &items[n].1);
            if !ok {
                proof {
                    let full = merge_summaries(a, b);
                    let cur = merge_summaries(a, p);
                    if !(cur.contains_key(k) || cur.dom().len() < SIZE) {
                        assert(cur.dom().insert(k).subset_of(full.dom()));
                        lemma_len_subset(cur.dom().insert(k), full.dom());
                    } else {
                        assert(stats_of(a, k).count + stats_of(b, k).count > MAX_COUNT);
                    }
                }
                return false;
            }
            n = n + 1;
        }
        proof {
            assert(Self::prefix_summary(b, items@, n as int) =~= b);
            assert forall|k: Seq<u8>| #[trigger] stats_of(a, k).count + stats_of(b, k).count <= MAX_COUNT by {
                if b.contains_key(k) {
                    let i = choose|i: int| 0 <= i < items@.len() && (#[trigger] items@[i]).0@ == k;
                    assert(stats_of(a, items@[i].0@).count + items@[i].1.count <= MAX_COUNT);
                } else {
                    if a.contains_key(k) {
                        assert(stats_valid(a[k]));
                    }
                }
            }
            self.lemma_len_le_size();
        }
        true
    }

    /// The stations of `b` named among the first `n` items.
    spec fn prefix_summary(b: Summary, items: Seq<(StationName, StationEntry)>, n: int) -> Summary {
        Map::new(
            |k: Seq<u8>| b.contains_key(k) && exists|i: int| 0 <= i < n && (#[trigger] items[i]).0@ == k,
            |k: Seq<u8>| b[k],
        )
    }
}

} // verus!
