//! The per-station accumulator `(min, max, sum, count)` and its two updates:
//! adding one reading and combining two partial accumulators.

use vstd::prelude::*;

verus! {

/// Bound on the number of readings one accumulator may absorb; it keeps the
/// sum far inside `i64`.
pub const MAX_COUNT: u64 = 0x100_0000_0000;

/// Smallest reading, in tenths.
pub const MIN_TEMP: i32 = -999;

/// Largest reading, in tenths.
pub const MAX_TEMP: i32 = 999;

/// Mathematical value of an accumulator.
pub struct Stats {
    pub min: int,
    pub max: int,
    pub sum: int,
    pub count: int,
}

pub open spec fn min_int(a: int, b: int) -> int {
    if a <= b {
        a
    } else {
        b
    }
}

pub open spec fn max_int(a: int, b: int) -> int {
    if a >= b {
        a
    } else {
        b
    }
}

pub open spec fn is_reading(t: int) -> bool {
    MIN_TEMP <= t <= MAX_TEMP
}

/// The accumulator of no reading: its extremes lie outside every reading,
/// so folding a reading or an accumulator into it yields that one.
pub open spec fn empty_stats() -> Stats {
    Stats { min: 1000, max: -1000, sum: 0, count: 0 }
}

/// Adding a reading `t`.
pub open spec fn add_reading(a: Stats, t: int) -> Stats {
    Stats { min: min_int(a.min, t), max: max_int(a.max, t), sum: a.sum + t, count: a.count + 1 }
}

/// Combining two partial accumulators.
pub open spec fn combine(a: Stats, b: Stats) -> Stats {
    Stats {
        min: min_int(a.min, b.min),
        max: max_int(a.max, b.max),
        sum: a.sum + b.sum,
        count: a.count + b.count,
    }
}

/// An accumulator that some sequence of readings produced: either empty, or
/// with extremes among the readings, so that the mean lies between them.
pub open spec fn stats_valid(a: Stats) -> bool {
    if a.count == 0 {
        a == empty_stats()
    } else {
        &&& 0 < a.count <= MAX_COUNT
        &&& is_reading(a.min)
        &&& is_reading(a.max)
        &&& a.min <= a.max
        &&& a.min * a.count <= a.sum <= a.max * a.count
    }
}

/// The mean `sum / count`, rounded to the nearest integer, halves away from zero.
pub open spec fn rounded_mean(sum: int, count: int) -> int {
    if sum >= 0 {
        (2 * sum + count) / (2 * count)
    } else {
        -((-2 * sum + count) / (2 * count))
    }
}

pub struct StationEntry {
    pub sum: i64,
    pub min: i32,
    pub max: i32,
    pub count: u64,
}

impl View for StationEntry {
    type V = Stats;

    open spec fn view(&self) -> Stats {
        Stats { min: self.min as int, max: self.max as int, sum: self.sum as int, count: self.count as int }
    }
}

impl Clone for StationEntry {
    fn clone(&self) -> (r: StationEntry)
        ensures
            r@ == self@,
    {
        StationEntry { sum: self.sum, min: self.min, max: self.max, count: self.count }
    }
}

impl StationEntry {
    pub open spec fn valid(&self) -> bool {
        stats_valid(self@)
    }

    pub fn empty() -> (r: StationEntry)
        ensures
            r@ == empty_stats(),
            r.valid(),
    {
        StationEntry { sum: 0, min: 1000, max: -1000, count: 0 }
    }

    /// Adds one reading: `min <- min(min, t)`, `max <- max(max, t)`, `sum += t`,
    /// `count += 1`.
    pub fn add(&mut self, t: i32)
        requires
            old(self).valid(),
            old(self).count < MAX_COUNT,
            is_reading(t as int),
        ensures
            final(self)@ == add_reading(old(self)@, t as int),
            final(self).valid(),
    {
        proof {
            lemma_add_valid(self@, t as int);
        }
        self.sum = self.sum + t as i64;
        self.count = self.count + 1;
        if t > self.max {
            self.max = t;
        }
        if t < self.min {
            self.min = t;
        }
    }

    /// Folds another partial accumulator into this one.
    pub fn merge(&mut self, other: &StationEntry)
        requires
            old(self).valid(),
            other.valid(),
            old(self).count + other.count <= MAX_COUNT,
        ensures
            final(self)@ == combine(old(self)@, other@),
            final(self).valid(),
    {
        proof {
            lemma_combine_valid(self@, other@);
        }
        self.sum = self.sum + other.sum;
        self.count = self.count + other.count;
        if other.max > self.max {
            self.max = other.max;
        }
        if other.min < self.min {
            self.min = other.min;
        }
    }

    /// The mean in tenths, rounded to the nearest tenth, halves away from zero.
    pub fn mean(&self) -> (r: i32)
        requires
            self.valid(),
            self.count > 0,
        ensures
            r == rounded_mean(self.sum as int, self.count as int),
            self.min <= r <= self.max,
    {
        proof {
            lemma_mean_between(self@);
            lemma_sum_bound(self@);
        }
        let c = self.count as i64;
        if self.sum >= 0 {
            ((2 * self.sum + c) / (2 * c)) as i32
        } else {
            (-((-2 * self.sum + c) / (2 * c))) as i32
        }
    }
}

proof fn lemma_sum_bound(a: Stats)
    requires
        stats_valid(a),
    ensures
        -999 * a.count <= a.sum <= 999 * a.count,
        -999 * MAX_COUNT <= a.sum <= 999 * MAX_COUNT,
{
    if a.count > 0 {
        assert(-999 * a.count <= a.min * a.count) by (nonlinear_arith)
            requires
                -999 <= a.min,
                a.count > 0,
        ;
        assert(a.max * a.count <= 999 * a.count) by (nonlinear_arith)
            requires
                a.max <= 999,
                a.count > 0,
        ;
        assert(999 * a.count <= 999 * MAX_COUNT) by (nonlinear_arith)
            requires
                a.count <= MAX_COUNT,
        ;
    }
}

proof fn lemma_add_valid(a: Stats, t: int)
    requires
        stats_valid(a),
        a.count < MAX_COUNT,
        is_reading(t),
    ensures
        stats_valid(add_reading(a, t)),
        -999 * MAX_COUNT <= a.sum + t <= 999 * MAX_COUNT,
{
    let r = add_reading(a, t);
    lemma_sum_bound(a);
    assert(-999 * a.count - 999 <= a.sum + t <= 999 * a.count + 999);
    assert(999 * a.count + 999 <= 999 * MAX_COUNT) by (nonlinear_arith)
        requires
            a.count < MAX_COUNT,
    ;
    if a.count > 0 {
        assert(r.min * a.count <= a.min * a.count) by (nonlinear_arith)
            requires
                r.min <= a.min,
                a.count > 0,
        ;
        assert(a.max * a.count <= r.max * a.count) by (nonlinear_arith)
            requires
                a.max <= r.max,
                a.count > 0,
        ;
        assert(r.min * r.count == r.min * a.count + r.min) by (nonlinear_arith)
            requires
                r.count == a.count + 1,
        ;
        assert(r.max * r.count == r.max * a.count + r.max) by (nonlinear_arith)
            requires
                r.count == a.count + 1,
        ;
        assert(r.min * r.count <= r.sum);
        assert(r.sum <= r.max * r.count);
    } else {
        assert(r.count == 1);
        assert(r.min == t && r.max == t && r.sum == t);
        assert(r.min * r.count == t) by (nonlinear_arith)
            requires
                r.count == 1,
                r.min == t,
        ;
        assert(r.max * r.count == t) by (nonlinear_arith)
            requires
                r.count == 1,
                r.max == t,
        ;
    }
}

/// Combining two valid accumulators whose counts fit gives a valid one.
pub proof fn lemma_combine_valid(a: Stats, b: Stats)
    requires
        stats_valid(a),
        stats_valid(b),
        a.count + b.count <= MAX_COUNT,
    ensures
        stats_valid(combine(a, b)),
        -999 * MAX_COUNT <= a.sum + b.sum <= 999 * MAX_COUNT,
{
    let r = combine(a, b);
    lemma_sum_bound(a);
    lemma_sum_bound(b);
    assert(999 * a.count + 999 * b.count <= 999 * MAX_COUNT) by (nonlinear_arith)
        requires
            a.count + b.count <= MAX_COUNT,
    ;
    if a.count > 0 && b.count > 0 {
        assert(r.min * a.count <= a.min * a.count) by (nonlinear_arith)
            requires
                r.min <= a.min,
                a.count > 0,
        ;
        assert(r.min * b.count <= b.min * b.count) by (nonlinear_arith)
            requires
                r.min <= b.min,
                b.count > 0,
        ;
        assert(a.max * a.count <= r.max * a.count) by (nonlinear_arith)
            requires
                a.max <= r.max,
                a.count > 0,
        ;
        assert(b.max * b.count <= r.max * b.count) by (nonlinear_arith)
            requires
                b.max <= r.max,
                b.count > 0,
        ;
        assert(r.min * r.count == r.min * a.count + r.min * b.count) by (nonlinear_arith)
            requires
                r.count == a.count + b.count,
        ;
        assert(r.max * r.count == r.max * a.count + r.max * b.count) by (nonlinear_arith)
            requires
                r.count == a.count + b.count,
        ;
    }
}

/// For every non-empty accumulator the mean lies between the extremes: as an
/// exact quotient (`min * count <= sum <= max * count`), as a floor quotient,
/// and once rounded for display.
pub proof fn lemma_mean_between(a: Stats)
    requires
        stats_valid(a),
        a.count > 0,
    ensures
        a.min * a.count <= a.sum <= a.max * a.count,
        a.min <= a.sum / a.count <= a.max,
        a.min <= rounded_mean(a.sum, a.count) <= a.max,
{
    let (lo, hi, s, c) = (a.min, a.max, a.sum, a.count);
    assert(lo <= s / c <= hi) by (nonlinear_arith)
        requires
            lo * c <= s <= hi * c,
            c > 0,
    ;
    if s >= 0 {
        assert(lo <= (2 * s + c) / (2 * c) <= hi) by (nonlinear_arith)
            requires
                lo * c <= s <= hi * c,
                c > 0,
                s >= 0,
        {
            assert(lo * (2 * c) <= 2 * s + c);
            assert(2 * s + c < (hi + 1) * (2 * c));
        }
    } else {
        assert(-hi <= (-2 * s + c) / (2 * c) <= -lo) by (nonlinear_arith)
            requires
                lo * c <= s <= hi * c,
                c > 0,
                s < 0,
        {
            assert((-hi) * (2 * c) <= -2 * s + c);
            assert(-2 * s + c < (-lo + 1) * (2 * c));
        }
    }
}

/// Combining is commutative.
pub proof fn lemma_combine_commutative(a: Stats, b: Stats)
    ensures
        combine(a, b) == combine(b, a),
{
}

/// Combining is associative.
pub proof fn lemma_combine_associative(a: Stats, b: Stats, c: Stats)
    ensures
        combine(combine(a, b), c) == combine(a, combine(b, c)),
{
}

/// The empty accumulator is neutral for every valid one.
pub proof fn lemma_combine_empty(a: Stats)
    requires
        stats_valid(a),
    ensures
        combine(a, empty_stats()) == a,
        combine(empty_stats(), a) == a,
{
}

} // verus!
