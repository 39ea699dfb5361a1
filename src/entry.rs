//! Running statistics over a set of file sizes.
use vstd::prelude::*;

verus! {

/// Initial minimum of an empty accumulator: one pebibyte.
pub const PIB: u64 = 1125899906842624;

/// Details of the files folded into one group (or into the whole run).
#[derive(Debug, Clone, Copy, PartialEq, Eq, Structural)]
pub struct ChildSizeEntry {
    /// Number of files folded in.
    pub count: u64,
    /// Sum of their sizes in bytes.
    pub total: u64,
    /// `total / count`, set by `update_average` (zero while empty).
    pub average: u64,
    /// Largest size seen; zero while empty.
    pub max: u64,
    /// Smallest size seen; `PIB` while empty.
    pub min: u64,
}

/// Sum of a sequence of sizes.
pub open spec fn sum_of(sizes: Seq<u64>) -> int
    decreases sizes.len(),
{
    if sizes.len() == 0 {
        0
    } else {
        sum_of(sizes.drop_last()) + sizes.last()
    }
}

/// Largest element of a non-empty sequence of sizes.
pub open spec fn max_of(sizes: Seq<u64>) -> u64
    decreases sizes.len(),
{
    if sizes.len() <= 1 {
        sizes[0]
    } else {
        let m = max_of(sizes.drop_last());
        if m < sizes.last() { sizes.last() } else { m }
    }
}

/// Smallest element of a non-empty sequence of sizes.
pub open spec fn min_of(sizes: Seq<u64>) -> u64
    decreases sizes.len(),
{
    if sizes.len() <= 1 {
        sizes[0]
    } else {
        let m = min_of(sizes.drop_last());
        if sizes.last() < m { sizes.last() } else { m }
    }
}

impl ChildSizeEntry {
    /// The accumulator with nothing folded in.
    pub open spec fn empty() -> ChildSizeEntry {
        ChildSizeEntry { count: 0, total: 0, average: 0, max: 0, min: PIB }
    }

    /// Whether one more file of `size` bytes can be folded in without overflow.
    pub open spec fn has_room(self, size: u64) -> bool {
        self.count < u64::MAX && self.total + size <= u64::MAX
    }

    /// The accumulator after one more file of `size` bytes.
    pub open spec fn folded_with(self, size: u64) -> ChildSizeEntry {
        ChildSizeEntry {
            count: (self.count + 1) as u64,
            total: (self.total + size) as u64,
            average: self.average,
            max: if self.max < size { size } else { self.max },
            min: if self.count == 0 || size < self.min { size } else { self.min },
        }
    }

    /// The accumulator with its average brought up to date; an empty one averages to zero.
    pub open spec fn finalized(self) -> ChildSizeEntry {
        ChildSizeEntry {
            average: if self.count == 0 { 0 } else { (self.total / self.count) as u64 },
            ..self
        }
    }

    /// A fresh accumulator after folding in `sizes` in order.
    pub open spec fn of_sizes(sizes: Seq<u64>) -> ChildSizeEntry
        decreases sizes.len(),
    {
        if sizes.len() == 0 {
            ChildSizeEntry::empty()
        } else {
            ChildSizeEntry::of_sizes(sizes.drop_last()).folded_with(sizes.last())
        }
    }

    /// An empty accumulator.
    pub fn new() -> (r: ChildSizeEntry)
        ensures
            r == ChildSizeEntry::empty(),
    {
        ChildSizeEntry { count: 0, total: 0, average: 0, max: 0, min: PIB }
    }

    /// Folds one file of `size` bytes in: one more file, `size` more bytes,
    /// and the extremes widened to cover it.
    pub fn fold(&mut self, size: u64)
        requires
            old(self).has_room(size),
        ensures
            *final(self) == old(self).folded_with(size),
    {
        if self.count == 0 || size < self.min {
            self.min = size;
        }
        if self.max < size {
            self.max = size;
        }
        self.count = self.count + 1;
        self.total = self.total + size;
    }

    /// Recomputes the average from the total and the count; an empty
    /// accumulator gets an average of zero rather than a division by zero.
    pub fn update_average(&mut self)
        ensures
            *final(self) == old(self).finalized(),
    {
        if self.count == 0 {
            self.average = 0;
        } else {
            self.average = self.total / self.count;
        }
    }
}

impl Default for ChildSizeEntry {
    fn default() -> (r: ChildSizeEntry)
        ensures
            r == ChildSizeEntry::empty(),
    {
        ChildSizeEntry::new()
    }
}

/// Folding any sequence of sizes whose sum fits in 64 bits gives a count equal
/// to the number of sizes, a total equal to their sum, the true maximum and
/// minimum (for a non-empty sequence), and, once finalized, an average equal to
/// the truncated quotient of total by count.
pub proof fn lemma_fold_stats(sizes: Seq<u64>)
    requires
        sum_of(sizes) <= u64::MAX,
        sizes.len() <= u64::MAX,
    ensures
        ChildSizeEntry::of_sizes(sizes).count == sizes.len(),
        ChildSizeEntry::of_sizes(sizes).total == sum_of(sizes),
        sizes.len() > 0 ==> ChildSizeEntry::of_sizes(sizes).max == max_of(sizes),
        sizes.len() > 0 ==> ChildSizeEntry::of_sizes(sizes).min == min_of(sizes),
        sizes.len() > 0 ==> ChildSizeEntry::of_sizes(sizes).finalized().average == sum_of(sizes)
            / (sizes.len() as int),
        forall|i: int|
            0 <= i < sizes.len() ==> ChildSizeEntry::of_sizes(sizes).min <= #[trigger] sizes[i]
                <= ChildSizeEntry::of_sizes(sizes).max,
    decreases sizes.len(),
{
    if sizes.len() > 0 {
        let init = sizes.drop_last();
        lemma_sum_nonneg(init);
        lemma_fold_stats(init);
        assert forall|i: int| 0 <= i < sizes.len() implies ChildSizeEntry::of_sizes(sizes).min
            <= #[trigger] sizes[i] <= ChildSizeEntry::of_sizes(sizes).max by {
            if i < init.len() {
                assert(sizes[i] == init[i]);
            }
        }
        let t = sum_of(sizes);
        let n = sizes.len() as int;
        assert(0 <= t / n <= t) by (nonlinear_arith)
            requires
                t >= 0,
                n >= 1,
        ;
    }
}

proof fn lemma_sum_nonneg(sizes: Seq<u64>)
    ensures
        sum_of(sizes) >= 0,
    decreases sizes.len(),
{
    if sizes.len() > 0 {
        lemma_sum_nonneg(sizes.drop_last());
    }
}

/// An empty accumulator never divides by zero: its finalized average is zero.
pub proof fn lemma_empty_average()
    ensures
        ChildSizeEntry::of_sizes(Seq::empty()).finalized().average == 0,
{
}

} // verus!
