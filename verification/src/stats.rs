//! Per-key partial aggregates: minimum, running sum, maximum, and count.
//!
//! `Stats` is the executable accumulator; `SStats` is its unbounded
//! mathematical model. The algebra on `SStats` (the identity element,
//! adding one sample, merging two aggregates, folding a whole sequence of
//! samples) carries the merge laws: merging is exactly commutative and
//! associative, and the identity element leaves any aggregate unchanged.

use vstd::prelude::*;

use crate::value::MAX_ABS_TENTHS;

verus! {

/// Mathematical model of a partial aggregate.
pub ghost struct SStats {
    pub min: int,
    pub sum: int,
    pub max: int,
    pub count: nat,
}

/// The aggregate of no samples: a minimum above and a maximum below every
/// representable sample, an empty sum, and a zero count.
pub open spec fn stats_identity() -> SStats {
    SStats { min: i64::MAX as int, sum: 0, max: i64::MIN as int, count: 0 }
}

/// One more sample folded into an aggregate.
pub open spec fn stats_add(s: SStats, v: int) -> SStats {
    SStats {
        min: if v < s.min { v } else { s.min },
        sum: s.sum + v,
        max: if v > s.max { v } else { s.max },
        count: s.count + 1,
    }
}

/// Two aggregates of disjoint sample sets combined into one.
pub open spec fn stats_merge(a: SStats, b: SStats) -> SStats {
    SStats {
        min: if a.min < b.min { a.min } else { b.min },
        sum: a.sum + b.sum,
        max: if a.max > b.max { a.max } else { b.max },
        count: a.count + b.count,
    }
}

/// The aggregate of a whole sequence of samples.
pub open spec fn stats_of(vs: Seq<int>) -> SStats
    decreases vs.len(),
{
    if vs.len() == 0 {
        stats_identity()
    } else {
        stats_add(stats_of(vs.drop_last()), vs.last())
    }
}

/// A sample value representable by the parser.
pub open spec fn sample_bounded(v: int) -> bool {
    -MAX_ABS_TENTHS <= v <= MAX_ABS_TENTHS
}

/// Well-formed aggregate: the identity when empty; otherwise min and max
/// bracket representable samples and the sum is bounded by the count.
pub open spec fn wf_sstats(s: SStats) -> bool {
    if s.count == 0 {
        s == stats_identity()
    } else {
        &&& sample_bounded(s.min)
        &&& sample_bounded(s.max)
        &&& s.min <= s.max
        &&& -(s.count * MAX_ABS_TENTHS) <= s.sum <= s.count * MAX_ABS_TENTHS
    }
}

/// Merging with the aggregate of no samples changes nothing.
pub proof fn lemma_stats_merge_identity(s: SStats)
    requires
        wf_sstats(s),
    ensures
        stats_merge(s, stats_identity()) == s,
        stats_merge(stats_identity(), s) == s,
{
}

/// Merging aggregates is exactly commutative.
pub proof fn lemma_stats_merge_commutative(a: SStats, b: SStats)
    ensures
        stats_merge(a, b) == stats_merge(b, a),
{
}

/// Merging aggregates is exactly associative.
pub proof fn lemma_stats_merge_associative(a: SStats, b: SStats, c: SStats)
    ensures
        stats_merge(stats_merge(a, b), c) == stats_merge(a, stats_merge(b, c)),
{
}

/// Folding the samples of two runs one after the other is the same as
/// merging the two runs' aggregates.
pub proof fn lemma_stats_of_concat(a: Seq<int>, b: Seq<int>)
    requires
        forall|i: int| 0 <= i < a.len() ==> sample_bounded(#[trigger] a[i]),
        forall|i: int| 0 <= i < b.len() ==> sample_bounded(#[trigger] b[i]),
    ensures
        stats_of(a + b) == stats_merge(stats_of(a), stats_of(b)),
    decreases b.len(),
{
    if b.len() == 0 {
        assert(a + b =~= a);
        lemma_stats_of_wf(a);
        lemma_stats_merge_identity(stats_of(a));
    } else {
        let b0 = b.drop_last();
        assert(forall|i: int| 0 <= i < b0.len() ==> sample_bounded(#[trigger] b0[i]));
        lemma_stats_of_concat(a, b0);
        assert((a + b).drop_last() =~= a + b0);
        assert((a + b).last() == b.last());
        lemma_stats_of_wf(a);
        lemma_stats_of_wf(b0);
        assert(stats_merge(stats_of(a), stats_of(b)) == stats_add(
            stats_merge(stats_of(a), stats_of(b0)),
            b.last(),
        ));
    }
}

/// The fold of bounded samples is a well-formed aggregate whose count is the
/// number of samples, whose min and max bracket every sample, and whose sum
/// is their total.
pub proof fn lemma_stats_of_wf(vs: Seq<int>)
    requires
        forall|i: int| 0 <= i < vs.len() ==> sample_bounded(#[trigger] vs[i]),
    ensures
        wf_sstats(stats_of(vs)),
        stats_of(vs).count == vs.len(),
        forall|i: int|
            0 <= i < vs.len() ==> stats_of(vs).min <= #[trigger] vs[i] <= stats_of(vs).max,
    decreases vs.len(),
{
    if vs.len() > 0 {
        let v0 = vs.drop_last();
        assert(forall|i: int| 0 <= i < v0.len() ==> sample_bounded(#[trigger] v0[i]));
        lemma_stats_of_wf(v0);
        assert(forall|i: int| 0 <= i < vs.len() - 1 ==> vs[i] == v0[i]);
    }
}

/// Executable partial aggregate, holding sample values in tenths.
#[derive(Clone, Copy, Debug)]
pub struct Stats {
    pub min: i64,
    pub sum: i128,
    pub max: i64,
    pub count: u64,
}

impl Stats {
    /// The mathematical aggregate this accumulator holds.
    pub open spec fn model(self) -> SStats {
        SStats {
            min: self.min as int,
            sum: self.sum as int,
            max: self.max as int,
            count: self.count as nat,
        }
    }

    pub open spec fn wf(self) -> bool {
        wf_sstats(self.model())
    }

    /// The aggregate of no samples.
    pub fn identity() -> (s: Stats)
        ensures
            s.model() == stats_identity(),
            s.wf(),
    {
        Stats { min: i64::MAX, sum: 0, max: i64::MIN, count: 0 }
    }

    /// Folds one sample into the aggregate.
    pub fn record(&mut self, v: i64)
        requires
            old(self).wf(),
            sample_bounded(v as int),
            old(self).model().count < u64::MAX,
        ensures
            final(self).wf(),
            final(self).model() == stats_add(old(self).model(), v as int),
    {
        if v < self.min {
            self.min = v;
        }
        if v > self.max {
            self.max = v;
        }
        self.sum = self.sum + v as i128;
        self.count = self.count + 1;
    }

    /// Merges another aggregate into this one.
    pub fn merge_from(&mut self, other: &Stats)
        requires
            old(self).wf(),
            other.wf(),
            old(self).model().count + other.model().count <= u64::MAX,
        ensures
            final(self).wf(),
            final(self).model() == stats_merge(old(self).model(), other.model()),
    {
        if other.min < self.min {
            self.min = other.min;
        }
        if other.max > self.max {
            self.max = other.max;
        }
        self.sum = self.sum + other.sum;
        self.count = self.count + other.count;
    }
}

} // verus!
