use vstd::prelude::*;

verus! {

/// Streaming mean of integers, kept as an exact numerator/denominator
/// pair; both saturate at their type's maximum. The host divides.
pub struct Averager {
    pub sum: u64,
    pub count: usize,
}

impl Averager {
    pub fn new() -> (r: Averager)
        ensures
            r.sum == 0,
            r.count == 0,
    {
        Averager { sum: 0, count: 0 }
    }

    pub fn push(&mut self, ele: u64)
        ensures
            final(self).sum == if old(self).sum + ele <= u64::MAX {
                (old(self).sum + ele) as u64
            } else {
                u64::MAX
            },
            final(self).count == if old(self).count < usize::MAX {
                (old(self).count + 1) as usize
            } else {
                usize::MAX
            },
    {
        if ele <= u64::MAX - self.sum {
            self.sum = self.sum + ele;
        } else {
            self.sum = u64::MAX;
        }
        if self.count < usize::MAX {
            self.count = self.count + 1;
        }
    }

    pub fn reset(&mut self)
        ensures
            final(self).sum == 0,
            final(self).count == 0,
    {
        self.sum = 0;
        self.count = 0;
    }

    /// The streaming mean as an exact fraction: sum first, number of
    /// samples second (a zero count leaves the ratio undefined).
    pub fn get(&self) -> (r: (u64, usize))
        ensures
            r.0 == self.sum,
            r.1 == self.count,
    {
        (self.sum, self.count)
    }
}

} // verus!
