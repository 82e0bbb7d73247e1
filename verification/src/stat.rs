use vstd::prelude::*;

verus! {

/// Mathematical model of a per-key statistic: extremes, running total and
/// number of observations, all as unbounded integers. Values are fixed-point
/// tenths of a unit.
pub struct StatModel {
    pub min: int,
    pub max: int,
    pub sum: int,
    pub count: int,
}

/// The statistic before any observation. It must never be reported or merged
/// as real data.
pub open spec fn empty_stat() -> StatModel {
    StatModel { min: 0, max: 0, sum: 0, count: 0 }
}

/// The statistic after exactly one observation of `v` tenths.
pub open spec fn single_stat(v: int) -> StatModel {
    StatModel { min: v, max: v, sum: v, count: 1 }
}

/// The merge rule: min of mins, max of maxes, sum of sums, sum of counts,
/// with the empty statistic as the neutral element.
pub open spec fn combine(a: StatModel, b: StatModel) -> StatModel {
    if a.count == 0 {
        b
    } else if b.count == 0 {
        a
    } else {
        StatModel {
            min: if a.min <= b.min { a.min } else { b.min },
            max: if a.max >= b.max { a.max } else { b.max },
            sum: a.sum + b.sum,
            count: a.count + b.count,
        }
    }
}

/// Folding one more observation into a statistic.
pub open spec fn observed(a: StatModel, v: int) -> StatModel {
    combine(a, single_stat(v))
}

/// Well-formedness: an unobserved statistic is exactly the empty one; once
/// observed, the extremes are ordered and bound the total, so the average
/// `sum / count` always lies between `min` and `max`.
pub open spec fn stat_wf(s: StatModel) -> bool {
    &&& s.count >= 0
    &&& (s.count == 0 ==> s == empty_stat())
    &&& (s.count > 0 ==> {
        &&& s.min <= s.max
        &&& s.count * s.min <= s.sum
        &&& s.sum <= s.count * s.max
    })
}

/// Merging statistics is associative: folding partial results together in any
/// grouping gives the same aggregate.
pub proof fn lemma_combine_assoc(a: StatModel, b: StatModel, c: StatModel)
    requires
        a.count >= 0,
        b.count >= 0,
        c.count >= 0,
    ensures
        combine(combine(a, b), c) == combine(a, combine(b, c)),
{
}

/// Merging statistics is commutative: the order in which two partial results
/// meet does not matter.
pub proof fn lemma_combine_comm(a: StatModel, b: StatModel)
    requires
        stat_wf(a),
        stat_wf(b),
    ensures
        combine(a, b) == combine(b, a),
{
}

/// The empty statistic is the neutral element of the merge rule.
pub proof fn lemma_combine_empty(a: StatModel)
    requires
        stat_wf(a),
    ensures
        combine(a, empty_stat()) == a,
        combine(empty_stat(), a) == a,
{
}

/// Merging preserves well-formedness.
pub proof fn lemma_combine_wf(a: StatModel, b: StatModel)
    requires
        stat_wf(a),
        stat_wf(b),
    ensures
        stat_wf(combine(a, b)),
{
    if a.count > 0 && b.count > 0 {
        let r = combine(a, b);
        assert(r.count * r.min <= r.sum && r.sum <= r.count * r.max) by (nonlinear_arith)
            requires
                r.min <= a.min && r.min <= b.min,
                r.max >= a.max && r.max >= b.max,
                a.count > 0 && b.count > 0,
                r.sum == a.sum + b.sum,
                r.count == a.count + b.count,
                a.count * a.min <= a.sum && a.sum <= a.count * a.max,
                b.count * b.min <= b.sum && b.sum <= b.count * b.max,
        ;
    }
}

/// Executable statistic: extremes in tenths as `i32`, total and count wide
/// enough that overflow cannot occur for any input that fits in memory.
#[derive(Clone, Copy)]
pub struct Stat {
    pub min: i32,
    pub max: i32,
    pub sum: i128,
    pub count: u64,
}

impl View for Stat {
    type V = StatModel;

    open spec fn view(&self) -> StatModel {
        StatModel { min: self.min as int, max: self.max as int, sum: self.sum as int, count: self.count as int }
    }
}

impl Stat {
    /// A fresh, unobserved statistic.
    pub fn empty() -> (r: Stat)
        ensures
            r@ == empty_stat(),
            stat_wf(r@),
    {
        Stat { min: 0, max: 0, sum: 0, count: 0 }
    }

    /// Fold one observation of `v` tenths into this statistic.
    pub fn observe(&mut self, v: i32)
        requires
            stat_wf(old(self)@),
            old(self)@.count < u64::MAX,
        ensures
            final(self)@ == observed(old(self)@, v as int),
            stat_wf(final(self)@),
    {
        proof {
            lemma_combine_wf(self@, single_stat(v as int));
        }
        if self.count == 0 {
            self.min = v;
            self.max = v;
            self.sum = v as i128;
            self.count = 1;
        } else {
            proof {
                assert(self@.sum + v <= i128::MAX && i128::MIN <= self@.sum + v) by (nonlinear_arith)
                    requires
                        self@.count * self@.min <= self@.sum && self@.sum <= self@.count * self@.max,
                        0 < self@.count < u64::MAX,
                        i32::MIN <= self@.min <= self@.max <= i32::MAX,
                        i32::MIN <= v as int <= i32::MAX,
                ;
            }
            if v < self.min {
                self.min = v;
            }
            if v > self.max {
                self.max = v;
            }
            self.sum = self.sum + v as i128;
            self.count = self.count + 1;
        }
    }

    /// Fold another partial statistic into this one, by the merge rule.
    pub fn merge_from(&mut self, o: &Stat)
        requires
            stat_wf(old(self)@),
            stat_wf(o@),
            old(self)@.count + o@.count <= u64::MAX,
        ensures
            final(self)@ == combine(old(self)@, o@),
            stat_wf(final(self)@),
    {
        proof {
            lemma_combine_wf(self@, o@);
        }
        if o.count == 0 {
        } else if self.count == 0 {
            self.min = o.min;
            self.max = o.max;
            self.sum = o.sum;
            self.count = o.count;
        } else {
            proof {
                assert(i128::MIN <= self@.sum + o@.sum <= i128::MAX) by (nonlinear_arith)
                    requires
                        self@.count * self@.min <= self@.sum && self@.sum <= self@.count * self@.max,
                        o@.count * o@.min <= o@.sum && o@.sum <= o@.count * o@.max,
                        0 < self@.count,
                        0 < o@.count,
                        self@.count + o@.count <= u64::MAX,
                        i32::MIN <= self@.min <= self@.max <= i32::MAX,
                        i32::MIN <= o@.min <= o@.max <= i32::MAX,
                ;
            }
            if o.min < self.min {
                self.min = o.min;
            }
            if o.max > self.max {
                self.max = o.max;
            }
            self.sum = self.sum + o.sum;
            self.count = self.count + o.count;
        }
    }
}

} // verus!
