use vstd::prelude::*;
use vstd::pervasive::VecAdditionalExecFns;

use crate::fixed::Fx;
use crate::fixed::all_wf;
use crate::stats::median_raw;
use crate::stats::{q1_index, q3_index, sorted_of};
use crate::stats::sort_fx;
use crate::stats::fx_le;
use vstd::seq_lib::group_to_multiset_ensures;

verus! {

/// How many equal-width bins a histogram gets.
pub const BIN_COUNT: usize = 20;

/// The bin an amount falls into, over twenty equal-width bins spanning
/// `[lo, hi]`: amounts at `hi` land in the last bin, and a zero-width
/// span puts everything into the first.
pub open spec fn bin_index(v: Fx, lo: int, hi: int) -> int {
    if hi <= lo {
        0
    } else {
        let x = (v.raw - lo) * 20 / (hi - lo);
        if x < 19 {
            x
        } else {
            19
        }
    }
}

/// How many of the first `n` amounts fall into bin `k`.
pub open spec fn bin_count_prefix(p: Seq<Fx>, lo: int, hi: int, k: int, n: int) -> int
    decreases n,
{
    if n <= 0 {
        0
    } else {
        bin_count_prefix(p, lo, hi, k, n - 1) + if bin_index(p[n - 1], lo, hi) == k {
            1int
        } else {
            0int
        }
    }
}

/// The smallest amount of the column.
pub open spec fn spec_min(p: Seq<Fx>) -> Fx {
    sorted_of(p)[0]
}

/// The largest amount of the column.
pub open spec fn spec_max(p: Seq<Fx>) -> Fx {
    sorted_of(p)[p.len() - 1]
}

/// The histogram of the column: how many amounts fall into each of
/// twenty equal-width bins spanning the column's range, amounts at the
/// top landing in the last bin.
pub fn histogram_bins(p: &Vec<Fx>) -> (bins: Vec<usize>)
    requires
        all_wf(p@),
        p@.len() > 0,
    ensures
        bins@.len() == BIN_COUNT,
        forall|k: int|
            0 <= k < BIN_COUNT ==> bins@[k] == bin_count_prefix(
                p@,
                spec_min(p@).raw as int,
                spec_max(p@).raw as int,
                k,
                p@.len() as int,
            ),
{
    let sorted = sort_fx(p);
    proof {
        crate::stats::lemma_sorted_of_ensures(p@);
    }
    let lo = sorted[0].raw;
    let hi = sorted[sorted.len() - 1].raw;
    let mut bins: Vec<usize> = Vec::new();
    let mut k: usize = 0;
    while k < BIN_COUNT
        invariant
            k <= BIN_COUNT,
            bins@.len() == k,
            forall|t: int| 0 <= t < k ==> bins@[t] == 0,
        decreases BIN_COUNT - k,
    {
        bins.push(0);
        k = k + 1;
    }
    let ghost glo = lo as int;
    let ghost ghi = hi as int;
    proof {
        broadcast use group_to_multiset_ensures;

        let t = sorted_of(p@);
        assert forall|v: Fx| p@.contains(v) implies lo <= v.raw <= hi by {
            assert(p@.to_multiset().count(v) > 0);
            assert(t.to_multiset().count(v) > 0);
            assert(t.contains(v));
            let j = choose|j: int| 0 <= j < t.len() && t[j] == v;
            if j > 0 {
                assert(fx_le()(t[0], t[j]));
            }
            if j < t.len() - 1 {
                assert(fx_le()(t[j], t[t.len() - 1]));
            }
        };
    }
    let mut i: usize = 0;
    while i < p.len()
        invariant
            i <= p@.len(),
            all_wf(p@),
            bins@.len() == BIN_COUNT,
            glo == lo as int,
            ghi == hi as int,
            -1_000_000_000_000 <= lo <= 1_000_000_000_000,
            -1_000_000_000_000 <= hi <= 1_000_000_000_000,
            forall|v: Fx| p@.contains(v) ==> lo <= v.raw <= hi,
            forall|k: int|
                0 <= k < BIN_COUNT ==> bins@[k] == bin_count_prefix(p@, glo, ghi, k, i as int),
            forall|t: int| 0 <= t < BIN_COUNT ==> bins@[t] <= i,
        decreases p@.len() - i,
    {
        let v = p[i];
        proof {
            assert(p@[i as int].wf());
            assert(p@.contains(p@[i as int]));
        }
        let idx: usize = if hi <= lo {
            0
        } else {
            let x = (((v.raw - lo) as u64) * 20) / ((hi - lo) as u64);
            proof {
                assert((v.raw - lo) as u64 == v.raw - glo);
                assert((hi - lo) as u64 == ghi - glo);
                assert(((v.raw - glo) * 20) as u64 == (v.raw - glo) * 20);
                vstd::arithmetic::div_mod::lemma_div_nonincreasing(
                    (v.raw - glo) * 20,
                    ghi - glo,
                );
                vstd::arithmetic::div_mod::lemma_div_pos_is_pos((v.raw - glo) * 20, ghi - glo);
            }
            if x < 19 {
                x as usize
            } else {
                19
            }
        };
        proof {
            assert(idx as int == bin_index(p@[i as int], glo, ghi));
        }
        let c = bins[idx];
        bins.set(idx, c + 1);
        i = i + 1;
    }
    bins
}

/// The five numbers a boxplot draws, and the whisker ends.
pub struct BoxplotSummary {
    pub min: Fx,
    pub q1: Fx,
    pub median: Fx,
    pub q3: Fx,
    pub max: Fx,
    /// The smallest amount inside the lower fence, the lower quartile
    /// when none is.
    pub lower_whisker: Fx,
    /// The largest amount inside the upper fence, the upper quartile
    /// when none is.
    pub upper_whisker: Fx,
}

/// The lower whisker over the first `n` amounts: the least amount at or
/// above the lower Tukey fence, starting from the lower quartile.
pub open spec fn whisker_low_prefix(p: Seq<Fx>, q1: Fx, q3: Fx, n: int) -> int
    decreases n,
{
    if n <= 0 {
        q1.raw as int
    } else {
        let rest = whisker_low_prefix(p, q1, q3, n - 1);
        let v = p[n - 1];
        if 2 * v.raw >= 2 * q1.raw - 3 * (q3.raw - q1.raw) && v.raw < rest {
            v.raw as int
        } else {
            rest
        }
    }
}

/// The upper whisker over the first `n` amounts: the greatest amount at
/// or below the upper Tukey fence, starting from the upper quartile.
pub open spec fn whisker_high_prefix(p: Seq<Fx>, q1: Fx, q3: Fx, n: int) -> int
    decreases n,
{
    if n <= 0 {
        q3.raw as int
    } else {
        let rest = whisker_high_prefix(p, q1, q3, n - 1);
        let v = p[n - 1];
        if 2 * v.raw <= 2 * q3.raw + 3 * (q3.raw - q1.raw) && v.raw > rest {
            v.raw as int
        } else {
            rest
        }
    }
}

/// The numbers a boxplot of the column draws: the extremes, the
/// quartiles, the median, and the whisker ends one and a half
/// interquartile ranges out.
pub fn boxplot_summary(p: &Vec<Fx>) -> (s: BoxplotSummary)
    requires
        all_wf(p@),
        p@.len() > 0,
    ensures
        s.min == spec_min(p@),
        s.max == spec_max(p@),
        s.q1 == sorted_of(p@)[q1_index(p@.len() as int)],
        s.q3 == sorted_of(p@)[q3_index(p@.len() as int)],
        s.median.raw == median_raw(p@),
        s.lower_whisker.raw == whisker_low_prefix(
            p@,
            sorted_of(p@)[q1_index(p@.len() as int)],
            sorted_of(p@)[q3_index(p@.len() as int)],
            p@.len() as int,
        ),
        s.upper_whisker.raw == whisker_high_prefix(
            p@,
            sorted_of(p@)[q1_index(p@.len() as int)],
            sorted_of(p@)[q3_index(p@.len() as int)],
            p@.len() as int,
        ),
{
    let sorted = sort_fx(p);
    proof {
        crate::stats::lemma_sorted_of_ensures(p@);
    }
    let n = sorted.len();
    let minv = sorted[0];
    let maxv = sorted[n - 1];
    let i1 = n / 4;
    let i3 = ((3 * (n as u128)) / 4) as usize;
    let i3 = if i3 <= n - 1 {
        i3
    } else {
        n - 1
    };
    proof {
        assert(3 * (n as u128) == 3 * (n as int));
        assert(i1 as int == q1_index(n as int));
        assert(i3 as int == q3_index(n as int));
    }
    let q1 = sorted[i1];
    let q3 = sorted[i3];
    let medv = match crate::stats::median(p) {
        Some(v) => v,
        None => {
            proof {
                assert(false);
            }
            Fx { raw: 0 }
        },
    };
    let lo_fence2 = 2 * q1.raw - 3 * (q3.raw - q1.raw);
    let hi_fence2 = 2 * q3.raw + 3 * (q3.raw - q1.raw);
    let mut low = q1.raw;
    let mut high = q3.raw;
    let mut i: usize = 0;
    while i < p.len()
        invariant
            i <= p@.len(),
            all_wf(p@),
            q1.wf(),
            q3.wf(),
            lo_fence2 == 2 * q1.raw - 3 * (q3.raw - q1.raw),
            hi_fence2 == 2 * q3.raw + 3 * (q3.raw - q1.raw),
            low == whisker_low_prefix(p@, q1, q3, i as int),
            high == whisker_high_prefix(p@, q1, q3, i as int),
            -1_000_000_000_000 <= low <= 1_000_000_000_000,
            -1_000_000_000_000 <= high <= 1_000_000_000_000,
        decreases p@.len() - i,
    {
        let v = p[i];
        proof {
            assert(p@[i as int].wf());
        }
        if 2 * v.raw >= lo_fence2 && v.raw < low {
            low = v.raw;
        }
        if 2 * v.raw <= hi_fence2 && v.raw > high {
            high = v.raw;
        }
        i = i + 1;
    }
    BoxplotSummary {
        min: minv,
        q1,
        median: medv,
        q3,
        max: maxv,
        lower_whisker: Fx { raw: low },
        upper_whisker: Fx { raw: high },
    }
}

} // verus!
