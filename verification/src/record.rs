//! The per-key statistics record: minimum, maximum, running sum and count of
//! the scaled values observed for one key.

use vstd::prelude::*;
use crate::numbers::VAL_LIMIT;

verus! {

/// The mathematical value of a record.
pub ghost struct RecordV {
    pub min: int,
    pub max: int,
    pub sum: int,
    pub count: int,
}

/// A fresh record: sentinels for the extremes, zero observations.
pub open spec fn empty_rec() -> RecordV {
    RecordV { min: i64::MAX as int, max: i64::MIN as int, sum: 0, count: 0 }
}

/// One observation folded into a record.
pub open spec fn recv_spec(r: RecordV, v: int) -> RecordV {
    RecordV {
        min: if v < r.min {
            v
        } else {
            r.min
        },
        max: if r.max < v {
            v
        } else {
            r.max
        },
        sum: r.sum + v,
        count: r.count + 1,
    }
}

/// Two records of the same key combined.
pub open spec fn merge_spec(a: RecordV, b: RecordV) -> RecordV {
    RecordV {
        min: if b.min < a.min {
            b.min
        } else {
            a.min
        },
        max: if a.max < b.max {
            b.max
        } else {
            a.max
        },
        sum: a.sum + b.sum,
        count: a.count + b.count,
    }
}

/// The bounds every reachable record obeys: the sum of at most `count`
/// values each below `VAL_LIMIT` in magnitude.
pub open spec fn rec_wf(r: RecordV) -> bool {
    &&& 0 <= r.count <= u64::MAX
    &&& -(r.count * (VAL_LIMIT as int)) <= r.sum <= r.count * (VAL_LIMIT as int)
}

/// The exact sum of a sequence of values.
pub open spec fn sum_of(vs: Seq<int>) -> int
    decreases vs.len(),
{
    if vs.len() == 0 {
        0
    } else {
        sum_of(vs.drop_last()) + vs.last()
    }
}

/// A fresh record with a sequence of values folded in, one `recv_spec` per
/// value, in order.
pub open spec fn fold_recv(vs: Seq<int>) -> RecordV
    decreases vs.len(),
{
    if vs.len() == 0 {
        empty_rec()
    } else {
        recv_spec(fold_recv(vs.drop_last()), vs.last())
    }
}

/// A chain of observations on a fresh record: the count is the number of
/// observations, the sum is their exact sum, and the minimum and maximum
/// are observed values lying below, respectively above, every observed
/// value.  The mean `sum / count` is therefore the exact arithmetic mean.
pub proof fn lemma_recv_chain_stats(vs: Seq<int>)
    requires
        vs.len() > 0,
        forall|j: int| 0 <= j < vs.len() ==> i64::MIN < #[trigger] vs[j] < i64::MAX,
    ensures
        fold_recv(vs).count == vs.len(),
        fold_recv(vs).sum == sum_of(vs),
        exists|j: int| 0 <= j < vs.len() && fold_recv(vs).min == #[trigger] vs[j],
        forall|j: int| 0 <= j < vs.len() ==> fold_recv(vs).min <= #[trigger] vs[j],
        exists|j: int| 0 <= j < vs.len() && fold_recv(vs).max == #[trigger] vs[j],
        forall|j: int| 0 <= j < vs.len() ==> fold_recv(vs).max >= #[trigger] vs[j],
    decreases vs.len(),
{
    let pre = vs.drop_last();
    let v = vs.last();
    if vs.len() == 1 {
        assert(fold_recv(pre) == empty_rec());
        assert(fold_recv(vs).min == vs[0]);
        assert(fold_recv(vs).max == vs[0]);
        assert(sum_of(pre) == 0);
    } else {
        lemma_recv_chain_stats(pre);
        let prev = fold_recv(pre);
        if v < prev.min {
            assert(fold_recv(vs).min == vs[vs.len() - 1]);
        } else {
            let j0 = choose|j0: int| 0 <= j0 < pre.len() && prev.min == #[trigger] pre[j0];
            assert(fold_recv(vs).min == vs[j0]);
        }
        if prev.max < v {
            assert(fold_recv(vs).max == vs[vs.len() - 1]);
        } else {
            let j0 = choose|j0: int| 0 <= j0 < pre.len() && prev.max == #[trigger] pre[j0];
            assert(fold_recv(vs).max == vs[j0]);
        }
        assert forall|j: int| 0 <= j < vs.len() implies fold_recv(vs).min <= #[trigger] vs[j] by {
            if j < pre.len() {
                assert(pre[j] == vs[j]);
            }
        }
        assert forall|j: int| 0 <= j < vs.len() implies fold_recv(vs).max >= #[trigger] vs[j] by {
            if j < pre.len() {
                assert(pre[j] == vs[j]);
            }
        }
    }
}

/// Combining is commutative: the order of the two records does not matter.
pub proof fn lemma_merge_comm(a: RecordV, b: RecordV)
    ensures
        merge_spec(a, b) == merge_spec(b, a),
{
}

/// Combining is associative: a three-way combination does not depend on
/// grouping.
pub proof fn lemma_merge_assoc(a: RecordV, b: RecordV, c: RecordV)
    ensures
        merge_spec(merge_spec(a, b), c) == merge_spec(a, merge_spec(b, c)),
{
}

/// An observation commutes with combining: folding a value into the second
/// record and then combining equals combining first and folding after.
pub proof fn lemma_recv_merge(a: RecordV, b: RecordV, v: int)
    ensures
        recv_spec(merge_spec(a, b), v) == merge_spec(a, recv_spec(b, v)),
{
}

#[derive(Clone, Copy, Debug, PartialEq, Eq, Structural)]
pub struct Record {
    pub min: i64,
    pub max: i64,
    pub sum: i128,
    pub count: u64,
}

impl View for Record {
    type V = RecordV;

    open spec fn view(&self) -> RecordV {
        RecordV {
            min: self.min as int,
            max: self.max as int,
            sum: self.sum as int,
            count: self.count as int,
        }
    }
}

impl Record {
    pub open spec fn wf(self) -> bool {
        rec_wf(self@)
    }

    /// Folds one observed value into the record.
    pub fn recv(&mut self, degree: i64)
        requires
            old(self).wf(),
            -VAL_LIMIT < degree < VAL_LIMIT,
            old(self)@.count < u64::MAX,
        ensures
            final(self)@ == recv_spec(old(self)@, degree as int),
            final(self).wf(),
    {
        if self.max < degree {
            self.max = degree;
        }
        if self.min > degree {
            self.min = degree;
        }
        self.sum = self.sum + degree as i128;
        self.count = self.count + 1;
    }

    /// Combines the statistics of another record of the same key.
    pub fn merge(&mut self, other: &Record)
        requires
            old(self).wf(),
            other.wf(),
            old(self)@.count + other@.count <= u64::MAX,
        ensures
            final(self)@ == merge_spec(old(self)@, other@),
            final(self).wf(),
    {
        if self.max < other.max {
            self.max = other.max;
        }
        if self.min > other.min {
            self.min = other.min;
        }
        self.sum = self.sum + other.sum;
        self.count = self.count + other.count;
    }
}

impl Default for Record {
    /// A fresh record, awaiting its first observation.
    fn default() -> (r: Record)
        ensures
            r@ == empty_rec(),
            r.wf(),
    {
        Record { min: i64::MAX, max: i64::MIN, sum: 0, count: 0 }
    }
}

} // verus!
