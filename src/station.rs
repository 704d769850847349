use vstd::prelude::*;

verus! {

/// Bound on the magnitude of a scaled temperature (nine digits).
pub const MAX_ABS_TEMP: i32 = 999_999_999;

/// Most observations that one accumulator may hold.
pub const MAX_COUNT: u64 = 1_000_000_000_000_000_000;

/// The mathematical value of a station accumulator: temperatures are
/// scaled by ten.
pub struct Summary {
    pub min: int,
    pub max: int,
    pub sum: int,
    pub count: nat,
}

pub open spec fn temp_in_range(t: int) -> bool {
    -MAX_ABS_TEMP <= t <= MAX_ABS_TEMP
}

pub open spec fn min_int(a: int, b: int) -> int {
    if a <= b { a } else { b }
}

pub open spec fn max_int(a: int, b: int) -> int {
    if a >= b { a } else { b }
}

/// The summary of a single observation.
pub open spec fn single(t: int) -> Summary {
    Summary { min: t, max: t, sum: t, count: 1 }
}

/// Two summaries combined, as if all their observations were one set.
pub open spec fn combine(a: Summary, b: Summary) -> Summary {
    Summary {
        min: min_int(a.min, b.min),
        max: max_int(a.max, b.max),
        sum: a.sum + b.sum,
        count: a.count + b.count,
    }
}

/// A summary extended by one observation.
pub open spec fn observe(a: Summary, t: int) -> Summary {
    combine(a, single(t))
}

/// A summary that some non-empty set of in-range observations has.
pub open spec fn summary_wf(s: Summary) -> bool {
    &&& s.count >= 1
    &&& temp_in_range(s.min)
    &&& temp_in_range(s.max)
    &&& s.min <= s.max
    &&& s.count * s.min <= s.sum <= s.count * s.max
}

/// Running summary of one station: min, max and sum of temperatures scaled
/// by ten, and the number of observations.
#[derive(Clone, Copy)]
pub struct Station {
    min: i32,
    max: i32,
    sum: i128,
    count: u64,
}

impl View for Station {
    type V = Summary;

    closed spec fn view(&self) -> Summary {
        Summary {
            min: self.min as int,
            max: self.max as int,
            sum: self.sum as int,
            count: self.count as nat,
        }
    }
}

pub proof fn lemma_combine_wf(a: Summary, b: Summary)
    requires
        summary_wf(a),
        summary_wf(b),
    ensures
        summary_wf(combine(a, b)),
{
    let c = combine(a, b);
    assert(a.count * c.min <= a.count * a.min) by (nonlinear_arith)
        requires c.min <= a.min, a.count >= 1;
    assert(b.count * c.min <= b.count * b.min) by (nonlinear_arith)
        requires c.min <= b.min, b.count >= 1;
    assert(a.count * a.max <= a.count * c.max) by (nonlinear_arith)
        requires c.max >= a.max, a.count >= 1;
    assert(b.count * b.max <= b.count * c.max) by (nonlinear_arith)
        requires c.max >= b.max, b.count >= 1;
    assert(c.count * c.min == a.count * c.min + b.count * c.min) by (nonlinear_arith)
        requires c.count == a.count + b.count;
    assert(c.count * c.max == a.count * c.max + b.count * c.max) by (nonlinear_arith)
        requires c.count == a.count + b.count;
}

pub proof fn lemma_sum_fits(s: Summary)
    requires
        summary_wf(s),
        s.count <= MAX_COUNT,
    ensures
        -1_000_000_000_000_000_000_000_000_000 <= s.sum <= 1_000_000_000_000_000_000_000_000_000,
{
    assert(s.count * s.min >= -1_000_000_000_000_000_000_000_000_000) by (nonlinear_arith)
        requires s.count <= 1_000_000_000_000_000_000, s.count >= 1, s.min >= -999_999_999;
    assert(s.count * s.max <= 1_000_000_000_000_000_000_000_000_000) by (nonlinear_arith)
        requires s.count <= 1_000_000_000_000_000_000, s.count >= 1, s.max <= 999_999_999;
}

impl Station {
    /// Well-formed: the value of a non-empty set of in-range observations,
    /// no more than `MAX_COUNT` of them.
    pub open spec fn wf(&self) -> bool {
        summary_wf(self@) && self@.count <= MAX_COUNT
    }

    /// The accumulator of one observation.
    pub fn new(measurement: i32) -> (r: Station)
        requires
            temp_in_range(measurement as int),
        ensures
            r.wf(),
            r@ == single(measurement as int),
    {
        Station { min: measurement, max: measurement, sum: measurement as i128, count: 1 }
    }

    /// Adds one observation.
    pub fn observe(&mut self, measurement: i32)
        requires
            old(self).wf(),
            old(self)@.count < MAX_COUNT,
            temp_in_range(measurement as int),
        ensures
            final(self).wf(),
            final(self)@ == observe(old(self)@, measurement as int),
    {
        proof {
            lemma_combine_wf(self@, single(measurement as int));
            lemma_sum_fits(observe(self@, measurement as int));
        }
        if measurement > self.max {
            self.max = measurement;
        } else if measurement < self.min {
            self.min = measurement;
        }
        self.sum = self.sum + measurement as i128;
        self.count = self.count + 1;
    }

    /// Merges the observations of `other` into this accumulator.
    pub fn update(&mut self, other: &Self)
        requires
            old(self).wf(),
            other.wf(),
            old(self)@.count + other@.count <= MAX_COUNT,
        ensures
            final(self).wf(),
            final(self)@ == combine(old(self)@, other@),
    {
        proof {
            lemma_combine_wf(self@, other@);
            lemma_sum_fits(combine(self@, other@));
        }
        if other.min < self.min {
            self.min = other.min;
        }
        if other.max > self.max {
            self.max = other.max;
        }
        self.sum = self.sum + other.sum;
        self.count = self.count + other.count;
    }

    /// The number of observations.
    pub fn count(&self) -> (r: u64)
        ensures
            r as int == self@.count,
    {
        self.count
    }

    /// The smallest observation, scaled by ten.
    pub fn min(&self) -> (r: i32)
        ensures
            r as int == self@.min,
    {
        self.min
    }

    /// The largest observation, scaled by ten.
    pub fn max(&self) -> (r: i32)
        ensures
            r as int == self@.max,
    {
        self.max
    }

    /// The sum of the observations, scaled by ten.
    pub fn sum(&self) -> (r: i128)
        ensures
            r as int == self@.sum,
    {
        self.sum
    }
}

} // verus!
