use vstd::prelude::*;
use crate::reading::Reading;

verus! {

/// The bin that a value between `lo` and `hi` falls in among `n` bins of equal width; the top
/// of the range belongs to the last bin (as does every value of a range that is one point).
pub open spec fn bin_of(v: int, lo: int, hi: int, n: int) -> int {
    if hi == lo {
        n - 1
    } else {
        let raw = (v - lo) * n / (hi - lo);
        if raw >= n {
            n - 1
        } else {
            raw
        }
    }
}

pub open spec fn in_range(v: int, lo: int, hi: int) -> bool {
    lo <= v && v <= hi
}

/// One more, but never past the counter's largest value.
pub open spec fn bumped(c: u32) -> u32 {
    if c < u32::MAX {
        (c + 1) as u32
    } else {
        c
    }
}

/// The counts after `v` is added: its bin counts one more where `v` is in range and there are
/// bins; otherwise nothing changes.
pub open spec fn with_value(counts: Seq<u32>, lo: int, hi: int, v: int) -> Seq<u32> {
    if in_range(v, lo, hi) && counts.len() > 0 {
        let i = bin_of(v, lo, hi, counts.len() as int);
        counts.update(i, bumped(counts[i]))
    } else {
        counts
    }
}

/// The largest count, or zero where there is none.
pub open spec fn max_count(s: Seq<u32>) -> int
    decreases s.len(),
{
    if s.len() == 0 {
        0
    } else {
        let m = max_count(s.drop_last());
        if s.last() > m {
            s.last() as int
        } else {
            m
        }
    }
}

/// The count that every bin is divided by: the largest, or one where all bins are empty.
pub open spec fn peak_of(s: Seq<u32>) -> int {
    if max_count(s) == 0 {
        1
    } else {
        max_count(s)
    }
}

/// A bin's height relative to the fullest bin, `numerator / denominator`.
#[derive(PartialEq, Eq, Structural, Clone, Copy, Debug)]
pub struct Fraction {
    pub numerator: u32,
    pub denominator: u32,
}

/// Counts of values over a fixed range cut into bins of equal width.
pub struct Histogram {
    bins: Vec<u32>,
    min_value: Reading,
    max_value: Reading,
    bin_count: usize,
}

impl Histogram {
    pub closed spec fn counts(&self) -> Seq<u32> {
        self.bins@
    }

    pub closed spec fn low(&self) -> int {
        self.min_value.units as int
    }

    pub closed spec fn high(&self) -> int {
        self.max_value.units as int
    }

    pub closed spec fn well_formed(&self) -> bool {
        self.bins@.len() == self.bin_count
    }

    /// An empty histogram of `bin_count` bins over `[min_value, max_value]`.
    pub fn new(min_value: Reading, max_value: Reading, bin_count: usize) -> (r: Histogram)
        ensures
            r.well_formed(),
            r.counts() == Seq::new(bin_count as nat, |i: int| 0u32),
            r.low() == min_value.units,
            r.high() == max_value.units,
    {
        let mut bins: Vec<u32> = Vec::new();
        let mut i: usize = 0;
        while i < bin_count
            invariant
                i <= bin_count,
                bins@ == Seq::new(i as nat, |j: int| 0u32),
            decreases bin_count - i,
        {
            bins.push(0);
            i = i + 1;
        }
        Histogram { bins, min_value, max_value, bin_count }
    }

    pub fn bin_count(&self) -> (r: usize)
        requires
            self.well_formed(),
        ensures
            r == self.counts().len(),
    {
        self.bin_count
    }

    pub fn min_value(&self) -> (r: Reading)
        ensures
            r.units == self.low(),
    {
        self.min_value
    }

    pub fn max_value(&self) -> (r: Reading)
        ensures
            r.units == self.high(),
    {
        self.max_value
    }

    pub fn bins(&self) -> (r: &Vec<u32>)
        ensures
            r@ == self.counts(),
    {
        &self.bins
    }

    /// Counts `value` in its bin; a value outside `[min_value, max_value]` changes nothing.
    pub fn add_value(&mut self, value: Reading)
        requires
            old(self).well_formed(),
        ensures
            final(self).well_formed(),
            final(self).low() == old(self).low(),
            final(self).high() == old(self).high(),
            final(self).counts() == with_value(
                old(self).counts(),
                old(self).low(),
                old(self).high(),
                value.units as int,
            ),
    {
        let v = value.units;
        let lo = self.min_value.units;
        let hi = self.max_value.units;
        if v < lo || v > hi || self.bin_count == 0 {
            return;
        }
        let n = self.bin_count;
        let index: usize = if hi == lo {
            n - 1
        } else {
            let offset = (v as i128 - lo as i128) as u128;
            let span = (hi as i128 - lo as i128) as u128;
            proof {
                lemma_bin_in_range(v as int, lo as int, hi as int, n as int);
                assert(offset * (n as u128) <= span * (n as u128)) by (nonlinear_arith)
                    requires offset <= span;
                assert(span * (n as u128) <= 0xffff_ffff_ffff_ffff * 0xffff_ffff_ffff_ffffu128)
                    by (nonlinear_arith)
                    requires span <= 0xffff_ffff_ffff_ffffu128, n <= 0xffff_ffff_ffff_ffffu128;
            }
            let raw = offset * (n as u128) / span;
            if raw >= n as u128 {
                n - 1
            } else {
                raw as usize
            }
        };
        proof {
            lemma_bin_in_range(v as int, lo as int, hi as int, n as int);
        }
        let c = self.bins[index];
        let next = if c < u32::MAX {
            c + 1
        } else {
            c
        };
        self.bins.set(index, next);
    }

    /// Sets every count back to zero.
    pub fn reset(&mut self)
        requires
            old(self).well_formed(),
        ensures
            final(self).well_formed(),
            final(self).low() == old(self).low(),
            final(self).high() == old(self).high(),
            final(self).counts() == Seq::new(old(self).counts().len(), |i: int| 0u32),
    {
        let mut i: usize = 0;
        while i < self.bins.len()
            invariant
                self.well_formed(),
                self.low() == old(self).low(),
                self.high() == old(self).high(),
                self.bins@.len() == old(self).bins@.len(),
                i <= self.bins@.len(),
                forall|j: int| 0 <= j < i ==> self.bins@[j] == 0,
            decreases self.bins@.len() - i,
        {
            self.bins.set(i, 0);
            i = i + 1;
        }
        assert(self.counts() == Seq::new(old(self).counts().len(), |i: int| 0u32));
    }

    /// The count of the fullest bin, or one where every bin is empty.
    pub fn peak(&self) -> (r: u32)
        ensures
            r == peak_of(self.counts()),
    {
        let mut m: u32 = 0;
        let mut i: usize = 0;
        while i < self.bins.len()
            invariant
                i <= self.bins@.len(),
                m == max_count(self.bins@.take(i as int)),
            decreases self.bins@.len() - i,
        {
            assert(self.bins@.take(i as int + 1).drop_last() == self.bins@.take(i as int));
            if self.bins[i] > m {
                m = self.bins[i];
            }
            i = i + 1;
        }
        assert(self.bins@.take(self.bins@.len() as int) == self.bins@);
        if m == 0 {
            1
        } else {
            m
        }
    }

    /// Each bin's count over the count of the fullest bin (over one where all are empty).
    pub fn normalized_bins(&self) -> (r: Vec<Fraction>)
        ensures
            r@.len() == self.counts().len(),
            forall|i: int|
                0 <= i < r@.len() ==> #[trigger] r@[i] == (Fraction {
                    numerator: self.counts()[i],
                    denominator: peak_of(self.counts()) as u32,
                }),
    {
        let p = self.peak();
        let mut r: Vec<Fraction> = Vec::new();
        let mut i: usize = 0;
        while i < self.bins.len()
            invariant
                i <= self.bins@.len(),
                p == peak_of(self.counts()),
                r@.len() == i,
                forall|j: int|
                    0 <= j < i ==> #[trigger] r@[j] == (Fraction {
                        numerator: self.counts()[j],
                        denominator: p,
                    }),
            decreases self.bins@.len() - i,
        {
            r.push(Fraction { numerator: self.bins[i], denominator: p });
            i = i + 1;
        }
        r
    }
}

/// Every value in range has a bin, and the raw position reaches `n` only at the top.
proof fn lemma_bin_in_range(v: int, lo: int, hi: int, n: int)
    requires
        lo <= v <= hi,
        n > 0,
    ensures
        0 <= bin_of(v, lo, hi, n) < n,
        lo < hi ==> 0 <= (v - lo) * n / (hi - lo) <= n,
{
    if lo < hi {
        assert(0 <= (v - lo) * n <= (hi - lo) * n) by (nonlinear_arith)
            requires lo <= v <= hi, n > 0;
        vstd::arithmetic::div_mod::lemma_div_is_ordered((v - lo) * n, (hi - lo) * n, hi - lo);
        vstd::arithmetic::div_mod::lemma_div_pos_is_pos((v - lo) * n, hi - lo);
        vstd::arithmetic::div_mod::lemma_div_by_multiple(n, hi - lo);
        assert((hi - lo) * n == n * (hi - lo)) by (nonlinear_arith);
    }
}

/// A value outside the range leaves every count as it was.
pub proof fn lemma_out_of_range_ignored(counts: Seq<u32>, lo: int, hi: int, v: int)
    requires
        v < lo || v > hi,
    ensures
        with_value(counts, lo, hi, v) == counts,
{
}

/// A value in range adds one to exactly one bin, which exists.
pub proof fn lemma_in_range_counted(counts: Seq<u32>, lo: int, hi: int, v: int)
    requires
        lo <= v <= hi,
        counts.len() > 0,
    ensures
        0 <= bin_of(v, lo, hi, counts.len() as int) < counts.len(),
        forall|j: int|
            0 <= j < counts.len() && j != bin_of(v, lo, hi, counts.len() as int) ==> #[trigger] with_value(
                counts,
                lo,
                hi,
                v,
            )[j] == counts[j],
{
    lemma_bin_in_range(v, lo, hi, counts.len() as int);
}

/// The top of the range falls in the last bin.
pub proof fn lemma_top_in_last_bin(lo: int, hi: int, n: int)
    requires
        lo <= hi,
        n > 0,
    ensures
        bin_of(hi, lo, hi, n) == n - 1,
{
    if lo < hi {
        vstd::arithmetic::div_mod::lemma_div_by_multiple(n, hi - lo);
        assert((hi - lo) * n == n * (hi - lo)) by (nonlinear_arith);
        assert((hi - lo) * n / (hi - lo) == n);
    }
}

proof fn lemma_max_count(s: Seq<u32>)
    ensures
        forall|i: int| 0 <= i < s.len() ==> #[trigger] s[i] <= max_count(s),
        max_count(s) == 0 || exists|i: int| 0 <= i < s.len() && #[trigger] s[i] == max_count(s),
        0 <= max_count(s) <= u32::MAX,
    decreases s.len(),
{
    if s.len() > 0 {
        let t = s.drop_last();
        lemma_max_count(t);
        assert forall|i: int| 0 <= i < s.len() implies #[trigger] s[i] <= max_count(s) by {
            if i < t.len() {
                assert(s[i] == t[i]);
            }
        }
        if max_count(s) != 0 && s.last() <= max_count(t) {
            let j = choose|j: int| 0 <= j < t.len() && #[trigger] t[j] == max_count(t);
            assert(s[j] == t[j]);
        }
    }
}

/// Every normalized bin lies in `[0, 1]`, and once anything has been counted the fullest
/// bin is exactly `1`.
pub proof fn lemma_normalized_unit_range(counts: Seq<u32>)
    ensures
        1 <= peak_of(counts) <= u32::MAX,
        forall|i: int| 0 <= i < counts.len() ==> #[trigger] counts[i] <= peak_of(counts),
        (exists|i: int| 0 <= i < counts.len() && counts[i] > 0) ==> exists|i: int|
            0 <= i < counts.len() && #[trigger] counts[i] == peak_of(counts),
{
    lemma_max_count(counts);
    if exists|i: int| 0 <= i < counts.len() && counts[i] > 0 {
        let i = choose|i: int| 0 <= i < counts.len() && counts[i] > 0;
        assert(counts[i] <= max_count(counts));
    }
}

} // verus!
