//! Counting over histograms of iteration counts.
//!
//! A histogram maps a bucket label, the iteration count at which a point
//! diverged, to the number of points recorded under it. The colour of a
//! diverged point is the share of recorded points whose label is strictly
//! smaller than its own, so this module counts the points below a bound, and
//! proves how those counts grow with the bound and with the histogram.

use crate::pixel::Pixel;
use vstd::prelude::*;

verus! {

/// One more than the largest bucket label.
pub open spec fn label_limit() -> int {
    0x1_0000_0000
}

/// The number of points that `histogram` holds under `label`: none where the
/// label has no bucket.
pub open spec fn count_at(histogram: Map<u32, u32>, label: int) -> nat {
    if 0 <= label < label_limit() && histogram.contains_key(label as u32) {
        histogram[label as u32] as nat
    } else {
        0
    }
}

/// The number of points that `histogram` holds under labels strictly below
/// `bound`.
pub open spec fn count_below(histogram: Map<u32, u32>, bound: int) -> nat
    decreases bound,
{
    if bound <= 0 {
        0
    } else {
        count_below(histogram, bound - 1) + count_at(histogram, bound - 1)
    }
}

/// The number of points that `histogram` holds in all.
pub open spec fn count_all(histogram: Map<u32, u32>) -> nat {
    count_below(histogram, label_limit())
}

/// The number of `pixels` whose iteration count is `label`.
pub open spec fn occurrences(pixels: Seq<Pixel>, label: u32) -> nat
    decreases pixels.len(),
{
    if pixels.len() == 0 {
        0
    } else {
        let earlier = occurrences(pixels.drop_last(), label);
        if pixels.last().iteration_count == label {
            earlier + 1
        } else {
            earlier
        }
    }
}

/// Whether one of `pixels` has the iteration count `label`.
pub open spec fn has_sample(pixels: Seq<Pixel>, label: u32) -> bool {
    exists|j: int| 0 <= j < pixels.len() && (#[trigger] pixels[j]).iteration_count == label
}

/// Whether no label from `low` up to, and not counting, `high` has a bucket.
pub open spec fn no_bucket_between(histogram: Map<u32, u32>, low: int, high: int) -> bool {
    forall|label: u32| low <= label < high ==> !histogram.contains_key(label)
}

/// Whether `labels` stand in ascending order.
pub open spec fn ascending(labels: Seq<u32>) -> bool {
    forall|i: int, j: int| 0 <= i <= j < labels.len() ==> labels[i] <= labels[j]
}

/// Whether `labels` stand in ascending order with none of them twice.
pub open spec fn strictly_ascending(labels: Seq<u32>) -> bool {
    forall|i: int, j: int| 0 <= i < j < labels.len() ==> labels[i] < labels[j]
}

/// Raising the bound never lowers the count below it.
pub proof fn lemma_count_below_monotone(histogram: Map<u32, u32>, low: int, high: int)
    requires
        low <= high,
    ensures
        count_below(histogram, low) <= count_below(histogram, high),
    decreases high - low,
{
    if low < high {
        lemma_count_below_monotone(histogram, low, high - 1);
    }
}

/// Raising the bound over labels without a bucket leaves the count below it
/// unchanged.
pub proof fn lemma_count_below_gap(histogram: Map<u32, u32>, low: int, high: int)
    requires
        low <= high,
        no_bucket_between(histogram, low, high),
    ensures
        count_below(histogram, low) == count_below(histogram, high),
    decreases high - low,
{
    if low < high {
        lemma_count_below_gap(histogram, low, high - 1);
        if 0 <= high - 1 < label_limit() {
            assert(!histogram.contains_key((high - 1) as u32));
        }
    }
}

/// The points under one label and those below it are among all the points.
pub proof fn lemma_count_at_within_all(histogram: Map<u32, u32>, label: u32)
    ensures
        count_below(histogram, label as int) + count_at(histogram, label as int) <= count_all(
            histogram,
        ),
{
    lemma_count_below_monotone(histogram, label + 1, label_limit());
}

/// Setting the bucket of `label` to `count` changes the count below a bound by
/// the change of that bucket where the label lies below the bound, and not at
/// all where it does not.
pub proof fn lemma_count_below_insert(
    histogram: Map<u32, u32>,
    label: u32,
    count: u32,
    bound: int,
)
    ensures
        count_below(histogram.insert(label, count), bound) == if label < bound {
            count_below(histogram, bound) - count_at(histogram, label as int) + count
        } else {
            count_below(histogram, bound) as int
        },
    decreases bound,
{
    if bound > 0 {
        lemma_count_below_insert(histogram, label, count, bound - 1);
    }
}

/// A pixel appended to `pixels` adds one occurrence of its own iteration
/// count and none of another.
pub proof fn lemma_occurrences_push(pixels: Seq<Pixel>, pixel: Pixel, label: u32)
    ensures
        occurrences(pixels.push(pixel), label) == occurrences(pixels, label) + if pixel.iteration_count
            == label {
            1nat
        } else {
            0nat
        },
{
    assert(pixels.push(pixel).drop_last() =~= pixels);
}

/// A label occurs among `pixels` exactly when one of them carries it.
pub proof fn lemma_occurrences_positive(pixels: Seq<Pixel>, label: u32)
    ensures
        occurrences(pixels, label) > 0 <==> has_sample(pixels, label),
        occurrences(pixels, label) <= pixels.len(),
    decreases pixels.len(),
{
    if pixels.len() > 0 {
        let earlier = pixels.drop_last();
        lemma_occurrences_positive(earlier, label);
        if has_sample(pixels, label) {
            let j = choose|j: int|
                0 <= j < pixels.len() && (#[trigger] pixels[j]).iteration_count == label;
            if j < earlier.len() {
                assert(earlier[j].iteration_count == label);
            }
        }
        if has_sample(earlier, label) {
            let j = choose|j: int|
                0 <= j < earlier.len() && (#[trigger] earlier[j]).iteration_count == label;
            assert(pixels[j].iteration_count == label);
        }
        if pixels.last().iteration_count == label {
            assert(pixels[pixels.len() - 1].iteration_count == label);
        }
    }
}

} // verus!
