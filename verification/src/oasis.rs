//! Difference sequences for the oasis readings: the pairwise differences of
//! a reading, and the heads of its iterated difference sequences, whose sum
//! extrapolates the reading.

use vstd::prelude::*;

verus! {

/// The values of a reading as mathematical integers.
pub open spec fn int_values(v: Seq<i64>) -> Seq<int> {
    v.map_values(|x: i64| x as int)
}

/// The pairwise differences of `s`, front to back: element `i` is
/// `s[i] - s[i + 1]`, one element shorter than `s`.
pub open spec fn diffs(s: Seq<int>) -> Seq<int> {
    if s.len() == 0 {
        Seq::empty()
    } else {
        Seq::new((s.len() - 1) as nat, |i: int| s[i] - s[i + 1])
    }
}

/// Yields the pairwise differences of a reading, front to back.
pub struct DiffIter {
    values: Vec<i64>,
    index: usize,
}

impl View for DiffIter {
    type V = Seq<int>;

    /// The differences not yet yielded.
    closed spec fn view(&self) -> Seq<int> {
        let d = diffs(int_values(self.values@));
        if self.index <= d.len() {
            d.skip(self.index as int)
        } else {
            Seq::empty()
        }
    }
}

impl DiffIter {
    /// Starts a difference iterator over `values`; it will yield every
    /// pairwise difference, in order.
    pub fn new(values: Vec<i64>) -> (it: DiffIter)
        ensures
            it@ == diffs(int_values(values@)),
    {
        let it = DiffIter { values, index: 0 };
        proof {
            assert(diffs(int_values(it.values@)).skip(0) =~= diffs(int_values(it.values@)));
        }
        it
    }

    /// The next difference, or `None` once all have been yielded.
    pub fn next(&mut self) -> (r: Option<i64>)
        requires
            forall|i: int|
                0 <= i < old(self)@.len() ==> i64::MIN <= #[trigger] old(self)@[i] <= i64::MAX,
        ensures
            old(self)@.len() == 0 ==> r is None && final(self)@ == old(self)@,
            old(self)@.len() > 0 ==> (r matches Some(v) && v as int == old(self)@.first()
                && final(self)@ == old(self)@.drop_first()),
    {
        if self.index < self.values.len() && self.index + 1 < self.values.len() {
            proof {
                let d = diffs(int_values(self.values@));
                assert(old(self)@[0] == d[self.index as int]);
                assert(d.skip(self.index as int).drop_first() =~= d.skip(self.index as int + 1));
            }
            let v = self.values[self.index] - self.values[self.index + 1];
            self.index = self.index + 1;
            Some(v)
        } else {
            None
        }
    }
}

/// Yields the extrapolation terms of a reading: its first value, then the
/// first value of each iterated difference sequence, until the differences
/// run out.
pub struct PredictIter {
    current: Vec<i64>,
}

impl View for PredictIter {
    type V = Seq<int>;

    /// The difference level the iterator stands on.
    closed spec fn view(&self) -> Seq<int> {
        int_values(self.current@)
    }
}

impl PredictIter {
    /// Starts an extrapolation iterator on `values`; it will yield one term
    /// per element of `values`.
    pub fn new(values: Vec<i64>) -> (it: PredictIter)
        ensures
            it@ == int_values(values@),
    {
        PredictIter { current: values }
    }

    /// The next extrapolation term: the head of the current difference
    /// level; the iterator then descends to the next level.
    pub fn next(&mut self) -> (r: Option<i64>)
        requires
            forall|i: int|
                0 <= i < diffs(old(self)@).len() ==> i64::MIN <= #[trigger] diffs(old(self)@)[i]
                    <= i64::MAX,
        ensures
            old(self)@.len() == 0 ==> r is None && final(self)@ == old(self)@,
            old(self)@.len() > 0 ==> (r matches Some(v) && v as int == old(self)@.first()
                && final(self)@ == diffs(old(self)@)),
    {
        let n = self.current.len();
        if n == 0 {
            return None;
        }
        let first = self.current[0];
        let mut next_vals: Vec<i64> = Vec::new();
        let mut i: usize = 0;
        while i + 1 < n
            invariant
                self.current@ == old(self).current@,
                n == self.current@.len(),
                1 <= n,
                i < n,
                forall|j: int|
                    0 <= j < diffs(old(self)@).len() ==> i64::MIN <= #[trigger] diffs(
                        old(self)@,
                    )[j] <= i64::MAX,
                next_vals@.len() == i,
                forall|j: int|
                    0 <= j < i ==> #[trigger] next_vals@[j] as int == diffs(old(self)@)[j],
            decreases n - i,
        {
            proof {
                assert(diffs(old(self)@)[i as int] == self.current@[i as int] - self.current@[i
                    as int + 1]);
            }
            let d = self.current[i] - self.current[i + 1];
            next_vals.push(d);
            i = i + 1;
        }
        proof {
            assert(int_values(next_vals@) =~= diffs(old(self)@));
        }
        self.current = next_vals;
        Some(first)
    }
}

} // verus!
