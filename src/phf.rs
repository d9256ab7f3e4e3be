//! The perfect-hash station dictionary: a flat array of accumulators
//! indexed by a hash of the station name that is injective on the known
//! station set.

use vstd::prelude::*;
use crate::name::StationName;
use crate::stats::{
    StationEntry, Stats, empty_stats, add_reading, combine, stats_valid, is_reading, MAX_COUNT,
};

verus! {

/// Number of slots: the smallest divisor found under which the sample of
/// every known station name leaves a distinct remainder.
pub const PHF_SIZE: usize = 13779;

/// Offset of the first sampled byte: names are told apart after their first.
pub const SAMPLE_OFFSET: usize = 1;

/// Number of sampled bytes, at most.
pub const SAMPLE_BYTES: usize = 8;

pub open spec fn pow256(k: nat) -> nat
    decreases k,
{
    if k == 0 {
        1
    } else {
        256 * pow256((k - 1) as nat)
    }
}

/// The bytes of `s` read as a little-endian number.
pub open spec fn le_value(s: Seq<u8>) -> nat
    decreases s.len(),
{
    if s.len() == 0 {
        0
    } else {
        s[0] as nat + 256 * le_value(s.drop_first())
    }
}

/// The sample of a name: up to eight bytes from offset one, little-endian.
pub open spec fn name_sample(name: Seq<u8>) -> nat {
    let n = if name.len() - SAMPLE_OFFSET < SAMPLE_BYTES {
        name.len() - SAMPLE_OFFSET
    } else {
        SAMPLE_BYTES as int
    };
    le_value(name.subrange(SAMPLE_OFFSET as int, SAMPLE_OFFSET + n))
}

/// The slot of a name.
pub open spec fn name_index(name: Seq<u8>) -> int {
    (name_sample(name) % (PHF_SIZE as nat)) as int
}


proof fn lemma_pow256_8()
    ensures
        pow256(8) == 0x1_0000_0000_0000_0000,
{
    reveal_with_fuel(pow256, 9);
}

proof fn lemma_pow256_mono(a: nat, b: nat)
    requires
        a <= b,
    ensures
        pow256(a) <= pow256(b),
    decreases b,
{
    if a < b {
        lemma_pow256_mono(a, (b - 1) as nat);
    }
}

/// The sample of `name`: up to eight bytes from offset one, little-endian.
pub fn get_name_sample(name: &[u8]) -> (r: u64)
    requires
        name@.len() >= 1,
    ensures
        r == name_sample(name@),
{
    let avail = name.len() - SAMPLE_OFFSET;
    let n: usize = if avail < SAMPLE_BYTES {
        avail
    } else {
        SAMPLE_BYTES
    };
    let ghost s = name@.subrange(SAMPLE_OFFSET as int, SAMPLE_OFFSET + n);
    let mut v: u64 = 0;
    let mut i: usize = n;
    proof {
        lemma_pow256_8();
    }
    while i > 0
        invariant
            n <= SAMPLE_BYTES,
            SAMPLE_OFFSET + n <= name@.len(),
            s == name@.subrange(SAMPLE_OFFSET as int, SAMPLE_OFFSET + n),
            i <= n,
            v == le_value(s.subrange(i as int, n as int)),
            v < pow256((n - i) as nat),
            pow256(8) == 0x1_0000_0000_0000_0000,
        decreases i,
    {
        i = i - 1;
        let b = name[SAMPLE_OFFSET + i];
        proof {
            assert(s.subrange(i as int, n as int).drop_first() =~= s.subrange(i + 1, n as int));
            lemma_pow256_mono((n - i) as nat, 8);
            assert(pow256((n - i) as nat) == 256 * pow256((n - i - 1) as nat));
        }
        v = b as u64 + 256 * v;
    }
    assert(s.subrange(0, n as int) =~= s);
    v
}

/// Maps `name` to its slot: its sample modulo `PHF_SIZE`.
pub fn get_name_index(name: &[u8]) -> (r: usize)
    requires
        name@.len() >= 1,
    ensures
        r == name_index(name@),
        r < PHF_SIZE,
{
    (get_name_sample(name) % (PHF_SIZE as u64)) as usize
}

/// Distinct names leave distinct remainders of their samples modulo `d`.
pub open spec fn injective_under(names: Seq<Seq<u8>>, d: int) -> bool {
    forall|i: int, j: int|
        0 <= i < names.len() && 0 <= j < names.len() && names[i] != names[j] ==> name_sample(
            #[trigger] names[i],
        ) % (d as nat) != name_sample(#[trigger] names[j]) % (d as nat)
}

pub open spec fn names_view(names: Seq<StationName>) -> Seq<Seq<u8>> {
    names.map_values(|n: StationName| n@)
}

/// Whether the samples of `names`, all distinct and non-empty, leave
/// distinct remainders modulo `divisor`.
pub fn is_injective(names: &Vec<StationName>, divisor: usize) -> (r: bool)
    requires
        divisor > 0,
        forall|i: int| 0 <= i < names@.len() ==> (#[trigger] names@[i])@.len() >= 1,
        forall|i: int, j: int| 0 <= i < j < names@.len() ==> (#[trigger] names@[i])@ != (#[trigger] names@[j])@,
    ensures
        r == injective_under(names_view(names@), divisor as int),
{
    let ghost nv = names_view(names@);
    let mut seen: Vec<bool> = Vec::with_capacity(divisor);
    let mut k: usize = 0;
    while k < divisor
        invariant
            k <= divisor,
            seen@.len() == k,
            forall|s: int| 0 <= s < k ==> !#[trigger] seen@[s],
        decreases divisor - k,
    {
        seen.push(false);
        k = k + 1;
    }
    let mut i: usize = 0;
    while i < names.len()
        invariant
            divisor > 0,
            nv == names_view(names@),
            forall|a: int| 0 <= a < names@.len() ==> (#[trigger] names@[a])@.len() >= 1,
            forall|a: int, b: int| 0 <= a < b < names@.len() ==> (#[trigger] names@[a])@ != (#[trigger] names@[b])@,
            i <= names@.len(),
            seen@.len() == divisor,
            forall|a: int| 0 <= a < i ==> #[trigger] seen@[(name_sample(nv[a]) % (divisor as nat)) as int],
            forall|s: int| 0 <= s < divisor && #[trigger] seen@[s] ==> exists|a: int| 0 <= a < i && name_sample(nv[a]) % (divisor as nat) == s,
            forall|a: int, b: int| 0 <= a < i && 0 <= b < i && nv[a] != nv[b] ==> name_sample(#[trigger] nv[a]) % (divisor as nat) != name_sample(#[trigger] nv[b]) % (divisor as nat),
        decreases names@.len() - i,
    {
        let slot = (get_name_sample(names[i].as_bytes()) % (divisor as u64)) as usize;
        assert(nv[i as int] == names@[i as int]@);
        if seen[slot] {
            proof {
                let a = choose|a: int| 0 <= a < i && name_sample(nv[a]) % (divisor as nat) == slot;
                assert(nv[a] == names@[a]@);
                assert(nv[a] != nv[i as int]);
            }
            return false;
        }
        seen.set(slot, true);
        proof {
            assert forall|a: int, b: int| 0 <= a < i + 1 && 0 <= b < i + 1 && nv[a] != nv[b] implies name_sample(#[trigger] nv[a]) % (divisor as nat) != name_sample(#[trigger] nv[b]) % (divisor as nat) by {
                if a == i && b < i {
                    assert(seen@[(name_sample(nv[b]) % (divisor as nat)) as int] || b == i);
                } else if b == i && a < i {
                    assert(seen@[(name_sample(nv[a]) % (divisor as nat)) as int] || a == i);
                }
            }
        }
        i = i + 1;
    }
    true
}

/// Searches the perfect-hash parameter: the first divisor in `[from, to)`
/// under which the samples of `names` leave distinct remainders, if any.
pub fn find_seed(names: &Vec<StationName>, from: usize, to: usize) -> (r: Option<usize>)
    requires
        from > 0,
        forall|i: int| 0 <= i < names@.len() ==> (#[trigger] names@[i])@.len() >= 1,
        forall|i: int, j: int| 0 <= i < j < names@.len() ==> (#[trigger] names@[i])@ != (#[trigger] names@[j])@,
    ensures
        match r {
            Some(d) => from <= d < to && injective_under(names_view(names@), d as int) && forall|e: int|
                from <= e < d ==> !injective_under(names_view(names@), e),
            None => forall|e: int| from <= e < to ==> !injective_under(names_view(names@), e),
        },
{
    let mut d = from;
    while d < to
        invariant
            from > 0,
            from <= d,
            forall|i: int| 0 <= i < names@.len() ==> (#[trigger] names@[i])@.len() >= 1,
            forall|i: int, j: int| 0 <= i < j < names@.len() ==> (#[trigger] names@[i])@ != (#[trigger] names@[j])@,
            forall|e: int| from <= e < d ==> !injective_under(names_view(names@), e),
        decreases to - d,
    {
        if is_injective(names, d) {
            return Some(d);
        }
        d = d + 1;
    }
    None
}

pub struct MyPHFMap {
    entries: Vec<StationEntry>,
}

impl View for MyPHFMap {
    type V = Seq<Stats>;

    closed spec fn view(&self) -> Seq<Stats> {
        self.entries@.map_values(|e: StationEntry| e@)
    }
}

impl MyPHFMap {
    pub closed spec fn wf(&self) -> bool {
        &&& self.entries@.len() == PHF_SIZE
        &&& forall|i: int| 0 <= i < PHF_SIZE ==> #[trigger] self.entries@[i].valid()
    }

    pub proof fn lemma_view(&self)
        requires
            self.wf(),
        ensures
            self@.len() == PHF_SIZE,
            forall|i: int| 0 <= i < PHF_SIZE ==> stats_valid(#[trigger] self@[i]),
    {
        assert forall|i: int| 0 <= i < PHF_SIZE implies stats_valid(#[trigger] self@[i]) by {
            assert(self.entries@[i].valid());
        }
    }

    pub fn new() -> (r: MyPHFMap)
        ensures
            r.wf(),
            r@ == Seq::new(PHF_SIZE as nat, |i: int| empty_stats()),
    {
        let mut entries: Vec<StationEntry> = Vec::with_capacity(PHF_SIZE);
        let mut i: usize = 0;
        while i < PHF_SIZE
            invariant
                i <= PHF_SIZE,
                entries@.len() == i,
                forall|j: int| 0 <= j < i ==> (#[trigger] entries@[j])@ == empty_stats(),
            decreases PHF_SIZE - i,
        {
            entries.push(StationEntry::empty());
            i = i + 1;
        }
        let r = MyPHFMap { entries };
        assert(r@ =~= Seq::new(PHF_SIZE as nat, |i: int| empty_stats()));
        r
    }

    /// The accumulator in slot `i`.
    pub fn entry(&self, i: usize) -> (r: &StationEntry)
        requires
            self.wf(),
            i < PHF_SIZE,
        ensures
            r@ == self@[i as int],
            r.valid(),
    {
        &self.entries[i]
    }

    /// Adds one reading to slot `name_index`.
    pub fn insert_measurement_by_index(&mut self, name_index: usize, measurement: i32)
        requires
            old(self).wf(),
            name_index < PHF_SIZE,
            is_reading(measurement as int),
            old(self)@[name_index as int].count < MAX_COUNT,
        ensures
            final(self).wf(),
            final(self)@ == old(self)@.update(
                name_index as int,
                add_reading(old(self)@[name_index as int], measurement as int),
            ),
    {
        let ghost before = self.entries@;
        assert(self.entries@[name_index as int].valid());
        self.entries[name_index].add(measurement);
        assert(self.entries@ == before.update(name_index as int, self.entries@[name_index as int]));
        assert(self@ =~= old(self)@.update(
            name_index as int,
            add_reading(old(self)@[name_index as int], measurement as int),
        ));
    }

    /// Adds one reading of station `name`.
    pub fn insert_measurement(&mut self, name: &[u8], measurement: i32)
        requires
            old(self).wf(),
            name@.len() >= 1,
            is_reading(measurement as int),
            old(self)@[name_index(name@)].count < MAX_COUNT,
        ensures
            final(self).wf(),
            final(self)@ == old(self)@.update(
                name_index(name@),
                add_reading(old(self)@[name_index(name@)], measurement as int),
            ),
    {
        let i = get_name_index(name);
        self.insert_measurement_by_index(i, measurement);
    }

    /// Whether every slot's combined count stays within `MAX_COUNT`.
    pub fn can_merge(&self, other: &MyPHFMap) -> (r: bool)
        requires
            self.wf(),
            other.wf(),
        ensures
            r == forall|i: int| 0 <= i < PHF_SIZE ==> #[trigger] self@[i].count + other@[i].count <= MAX_COUNT,
    {
        let mut i: usize = 0;
        while i < PHF_SIZE
            invariant
                self.wf(),
                other.wf(),
                i <= PHF_SIZE,
                forall|j: int| 0 <= j < i ==> #[trigger] self@[j].count + other@[j].count <= MAX_COUNT,
            decreases PHF_SIZE - i,
        {
            proof {
                assert(self.entries@[i as int].valid());
                assert(other.entries@[i as int].valid());
                assert(self@[i as int] == self.entries@[i as int]@);
                assert(other@[i as int] == other.entries@[i as int]@);
            }
            if self.entries[i].count > MAX_COUNT - other.entries[i].count {
                return false;
            }
            i = i + 1;
        }
        true
    }

    /// Folds `other` into this table slot by slot.
    pub fn merge_maps(&mut self, other_map: MyPHFMap)
        requires
            old(self).wf(),
            other_map.wf(),
            forall|i: int| 0 <= i < PHF_SIZE ==> #[trigger] old(self)@[i].count + other_map@[i].count <= MAX_COUNT,
        ensures
            final(self).wf(),
            final(self)@ == Seq::new(PHF_SIZE as nat, |i: int| combine(old(self)@[i], other_map@[i])),
    {
        let mut i: usize = 0;
        while i < PHF_SIZE
            invariant
                self.wf(),
                other_map.wf(),
                i <= PHF_SIZE,
                forall|j: int| 0 <= j < i ==> #[trigger] self@[j] == combine(old(self)@[j], other_map@[j]),
                forall|j: int| i <= j < PHF_SIZE ==> #[trigger] self@[j] == old(self)@[j],
                forall|j: int| 0 <= j < PHF_SIZE ==> #[trigger] old(self)@[j].count + other_map@[j].count <= MAX_COUNT,
            decreases PHF_SIZE - i,
        {
            let ghost before = self.entries@;
            let ghost before_view = self@;
            proof {
                assert(before_view =~= before.map_values(|e: StationEntry| e@));
                assert(self.entries@[i as int].valid());
                assert(other_map.entries@[i as int].valid());
                assert(other_map@[i as int] == other_map.entries@[i as int]@);
                assert(self@[i as int] == old(self)@[i as int]);
            }
            self.entries[i].merge(&other_map.entries[i]);
            proof {
                assert(self.entries@ == before.update(i as int, self.entries@[i as int]));
                assert forall|j: int| 0 <= j < PHF_SIZE implies #[trigger] self.entries@[j].valid() by {
                    if j != i {
                        assert(self.entries@[j] == before[j]);
                    }
                }
                assert forall|j: int| 0 <= j < PHF_SIZE && j != i implies #[trigger] self@[j] == before.map_values(|e: StationEntry| e@)[j] by {
                    assert(self.entries@[j] == before[j]);
                }
                assert(self@[i as int] == self.entries@[i as int]@);
            }
            i = i + 1;
        }
        assert(self@ =~= Seq::new(PHF_SIZE as nat, |i: int| combine(old(self)@[i], other_map@[i])));
    }

    /// The stations among `names`, in their order, whose slot holds readings,
    /// each with a copy of its accumulator.
    pub fn results(&self, names: &Vec<StationName>) -> (r: Vec<(StationName, StationEntry)>)
        requires
            self.wf(),
            forall|i: int| 0 <= i < names@.len() ==> (#[trigger] names@[i])@.len() >= 1,
        ensures
            r@.len() <= names@.len(),
            forall|i: int| 0 <= i < r@.len() ==> {
                &&& (#[trigger] r@[i]).1@ == self@[name_index(r@[i].0@)]
                &&& r@[i].1.count > 0
                &&& exists|j: int| 0 <= j < names@.len() && names@[j]@ == r@[i].0@
            },
            forall|j: int| 0 <= j < names@.len() && #[trigger] self@[name_index(names@[j]@)].count > 0
                ==> exists|i: int| 0 <= i < r@.len() && (#[trigger] r@[i]).0@ == names@[j]@,
            (forall|a: int, b: int| 0 <= a < b < names@.len() ==> (#[trigger] names@[a])@ != (#[trigger] names@[b])@)
                ==> forall|a: int, b: int| 0 <= a < b < r@.len() ==> (#[trigger] r@[a]).0@ != (#[trigger] r@[b]).0@,
    {
        let mut out: Vec<(StationName, StationEntry)> = Vec::new();
        let ghost mut at: Seq<int> = Seq::empty();
        let mut j: usize = 0;
        while j < names.len()
            invariant
                self.wf(),
                forall|i: int| 0 <= i < names@.len() ==> (#[trigger] names@[i])@.len() >= 1,
                j <= names@.len(),
                out@.len() <= j,
                at.len() == out@.len(),
                forall|i: int| 0 <= i < out@.len() ==> {
                    &&& (#[trigger] out@[i]).1@ == self@[name_index(out@[i].0@)]
                    &&& out@[i].1.count > 0
                    &&& 0 <= at[i] < j
                    &&& names@[at[i]]@ == out@[i].0@
                },
                forall|a: int, b: int| 0 <= a < b < out@.len() ==> #[trigger] at[a] < #[trigger] at[b],
                forall|j2: int| 0 <= j2 < j && #[trigger] self@[name_index(names@[j2]@)].count > 0
                    ==> exists|i: int| 0 <= i < out@.len() && (#[trigger] out@[i]).0@ == names@[j2]@,
            decreases names@.len() - j,
        {
            let index = get_name_index(names[j].as_bytes());
            let entry = self.entry(index);
            if entry.count != 0 {
                let ghost old_out = out@;
                let ghost old_at = at;
                out.push((names[j].duplicate(), entry.clone()));
                proof {
                    at = at.push(j as int);
                    assert forall|i: int| 0 <= i < old_out.len() implies out@[i] == old_out[i] && at[i] == old_at[i] by {}
                    assert(out@[old_out.len() as int].0@ == names@[j as int]@);
                }
            }
            j = j + 1;
        }
        proof {
            assert forall|i: int| 0 <= i < out@.len() implies exists|j2: int| 0 <= j2 < names@.len() && names@[j2]@ == (#[trigger] out@[i]).0@ by {
                assert(names@[at[i]]@ == out@[i].0@);
            }
            if forall|a: int, b: int| 0 <= a < b < names@.len() ==> (#[trigger] names@[a])@ != (#[trigger] names@[b])@ {
                assert forall|a: int, b: int| 0 <= a < b < out@.len() implies (#[trigger] out@[a]).0@ != (#[trigger] out@[b]).0@ by {
                    assert(names@[at[a]]@ == out@[a].0@);
                    assert(names@[at[b]]@ == out@[b].0@);
                    assert(at[a] < at[b]);
                    assert(names@[at[a]]@ != names@[at[b]]@);
                }
            }
        }
        out
    }
}

} // verus!
