//! Colouring algorithms.

use crate::cdf::{count_all, count_at, count_below, has_sample, occurrences, strictly_ascending};
use crate::pixel::Pixel;
use crate::screen::Size;
use crate::trusted::{lookup, recolour_each, sort_labels, store};
use fnv::FnvHashMap;
use vstd::prelude::*;

verus! {

/// A share of the recorded points, as an exact fraction. The device is handed
/// the quotient in single precision; the host keeps both parts.
#[derive(Clone, Copy, Debug, PartialEq, Eq, Structural)]
pub struct Ratio {
    pub numerator: u64,
    pub denominator: u64,
}

/// Colour output for a single pixel.
#[derive(Clone, Copy, Debug, PartialEq, Eq, Structural)]
pub struct ColourRange {
    /// `1` once the pixel has diverged, `0` before.
    pub escaped: u32,
    /// The share of diverged pixels that diverged sooner than this one. It
    /// means something only once the pixel has diverged.
    pub value: Ratio,
}

impl ColourRange {
    /// The colour of a pixel that has not diverged: the share `0 / 1`.
    pub open spec fn spec_default() -> ColourRange {
        ColourRange { escaped: 0, value: Ratio { numerator: 0, denominator: 1 } }
    }
}

impl Default for ColourRange {
    fn default() -> (colour_range: Self)
        ensures
            colour_range == ColourRange::spec_default(),
    {
        ColourRange { escaped: 0, value: Ratio { numerator: 0, denominator: 1 } }
    }
}

/// The share of the points of `histogram`, `total` in all, that lie strictly
/// below `label`.
pub open spec fn cdf(histogram: Map<u32, u32>, total: nat, label: u32) -> Ratio {
    Ratio { numerator: count_below(histogram, label as int) as u64, denominator: total as u64 }
}

/// Whether `histogram_ranges` holds the colour that `pixel` needs: a pixel
/// that has diverged needs the range of its iteration count.
pub open spec fn colour_known(pixel: Pixel, histogram_ranges: Map<u32, Ratio>) -> bool {
    pixel.escaped == 1 ==> histogram_ranges.contains_key(pixel.iteration_count)
}

/// The colour range of `pixel` after a recolouring: where the pixel has
/// diverged, its value is the range of its iteration count; where it has not,
/// nothing changes.
pub open spec fn recoloured(
    colour_range: ColourRange,
    pixel: Pixel,
    histogram_ranges: Map<u32, Ratio>,
) -> ColourRange {
    if pixel.escaped == 1 {
        ColourRange {
            escaped: colour_range.escaped,
            value: histogram_ranges[pixel.iteration_count],
        }
    } else {
        colour_range
    }
}

/// Whether one of `pixels` lies at offset `index` of a row-major array over a
/// grid that is `width` cells wide.
pub open spec fn marked(pixels: Seq<Pixel>, width: u32, index: int) -> bool {
    exists|j: int| 0 <= j < pixels.len() && (#[trigger] pixels[j]).index(width) == index
}

/// A pixel appended to `pixels` marks its own offset, and leaves every other
/// offset as it was.
proof fn lemma_marked_push(pixels: Seq<Pixel>, pixel: Pixel, width: u32, index: int)
    ensures
        marked(pixels.push(pixel), width, index) <==> marked(pixels, width, index) || pixel.index(
            width,
        ) == index,
{
    let longer = pixels.push(pixel);
    if marked(pixels, width, index) {
        let j = choose|j: int| 0 <= j < pixels.len() && (#[trigger] pixels[j]).index(width) == index;
        assert(longer[j].index(width) == index);
    }
    if pixel.index(width) == index {
        assert(longer[pixels.len() as int].index(width) == index);
    }
    if marked(longer, width, index) {
        let j = choose|j: int| 0 <= j < longer.len() && (#[trigger] longer[j]).index(width) == index;
        if j < pixels.len() {
            assert(pixels[j].index(width) == index);
        }
    }
}

/// Recolours the range at offset `index` from the pixel at that offset.
pub(crate) fn recolour(
    index: usize,
    colour_range: &mut ColourRange,
    all_pixels: &[Pixel],
    histogram_ranges: &FnvHashMap<u32, Ratio>,
)
    requires
        index < all_pixels@.len(),
        colour_known(all_pixels@[index as int], histogram_ranges@),
    ensures
        *final(colour_range) == recoloured(
            *old(colour_range),
            all_pixels@[index as int],
            histogram_ranges@,
        ),
{
    let pixel: Pixel = all_pixels[index];
    if pixel.escaped == 1 {
        if let Some(value) = lookup(histogram_ranges, pixel.iteration_count) {
            colour_range.value = *value;
        }
    }
}

/// What a [`HistogramColouring`] holds.
pub struct Histogram {
    /// The number of points recorded.
    pub total_samples: nat,
    /// The iteration counts under which a point was recorded.
    pub bucket_labels: Seq<u32>,
    /// For each bucket label, the number of points recorded under it.
    pub histogram: Map<u32, u32>,
    /// For each bucket label, the share of recorded points strictly below it.
    pub histogram_ranges: Map<u32, Ratio>,
}

impl Histogram {
    /// The histogram that holds no point.
    pub open spec fn empty() -> Histogram {
        Histogram {
            total_samples: 0,
            bucket_labels: Seq::empty(),
            histogram: Map::empty(),
            histogram_ranges: Map::empty(),
        }
    }

    /// Whether the counts are sound: the total is the sum of the buckets, no
    /// bucket is empty, and the labels are those of the buckets.
    pub open spec fn counts_sound(self) -> bool {
        &&& self.total_samples == count_all(self.histogram)
        &&& forall|label: u32| #[trigger]
            self.histogram.contains_key(label) ==> self.histogram[label] >= 1
        &&& forall|label: u32|
            #![trigger self.histogram.contains_key(label)]
            #![trigger self.bucket_labels.contains(label)]
            self.histogram.contains_key(label) <==> self.bucket_labels.contains(label)
    }

    /// Whether every bucket has its range, and no other label has one: the
    /// share of the points that lie strictly below the bucket.
    pub open spec fn ranges_sound(self) -> bool {
        &&& forall|label: u32|
            #![trigger self.histogram.contains_key(label)]
            #![trigger self.histogram_ranges.contains_key(label)]
            self.histogram_ranges.contains_key(label) <==> self.histogram.contains_key(label)
        &&& forall|label: u32| #[trigger]
            self.histogram.contains_key(label) ==> self.histogram_ranges[label] == cdf(
                self.histogram,
                self.total_samples,
                label,
            )
    }

    /// Whether the histogram is well formed: its counts and ranges are sound
    /// and its labels stand in ascending order, none of them twice.
    pub open spec fn wf(self) -> bool {
        &&& self.counts_sound()
        &&& self.ranges_sound()
        &&& strictly_ascending(self.bucket_labels)
    }
}

/// Histogram-based colouring: the colour of a diverged point is the share of
/// diverged points that diverged at a smaller iteration count.
pub struct HistogramColouring {
    total_samples: usize,
    bucket_labels: Vec<u32>,
    histogram: FnvHashMap<u32, u32>,
    histogram_ranges: FnvHashMap<u32, Ratio>,
}

impl View for HistogramColouring {
    type V = Histogram;

    closed spec fn view(&self) -> Histogram {
        Histogram {
            total_samples: self.total_samples as nat,
            bucket_labels: self.bucket_labels@,
            histogram: self.histogram@,
            histogram_ranges: self.histogram_ranges@,
        }
    }
}

impl HistogramColouring {
    /// Whether the colouring is well formed: what it holds is, and the total
    /// fits the counter.
    pub open spec fn wf(&self) -> bool {
        self@.wf() && self@.total_samples <= usize::MAX
    }

    /// Creates a colouring that holds no point.
    pub fn new() -> (colouring: Self)
        ensures
            colouring.wf(),
            colouring@ == Histogram::empty(),
    {
        let total_samples: usize = 0;
        let bucket_labels: Vec<u32> = Vec::new();
        let histogram: FnvHashMap<u32, u32> = FnvHashMap::default();
        let histogram_ranges: FnvHashMap<u32, Ratio> = FnvHashMap::default();
        proof {
            crate::cdf::lemma_count_below_gap(histogram@, 0, crate::cdf::label_limit());
        }
        Self { total_samples, bucket_labels, histogram, histogram_ranges }
    }

    /// Forgets every point recorded.
    pub fn reset(&mut self)
        ensures
            final(self).wf(),
            final(self)@ == Histogram::empty(),
    {
        self.total_samples = 0;
        self.bucket_labels.clear();
        self.histogram.clear();
        self.histogram_ranges.clear();
        proof {
            crate::cdf::lemma_count_below_gap(self.histogram@, 0, crate::cdf::label_limit());
        }
    }
}

impl HistogramColouring {
    /// Records one point under `label`.
    fn record(&mut self, label: u32)
        requires
            old(self)@.counts_sound(),
            old(self)@.bucket_labels.no_duplicates(),
            old(self)@.total_samples < u32::MAX,
        ensures
            final(self)@.counts_sound(),
            final(self)@.bucket_labels.no_duplicates(),
            final(self)@.total_samples == old(self)@.total_samples + 1,
            count_at(old(self)@.histogram, label as int) < u32::MAX,
            final(self)@.histogram == old(self)@.histogram.insert(
                label,
                (count_at(old(self)@.histogram, label as int) + 1) as u32,
            ),
            final(self)@.histogram_ranges == old(self)@.histogram_ranges,
    {
        let ghost before = self@;
        proof {
            crate::cdf::lemma_count_at_within_all(before.histogram, label);
            crate::cdf::lemma_count_below_insert(
                before.histogram,
                label,
                (count_at(before.histogram, label as int) + 1) as u32,
                crate::cdf::label_limit(),
            );
        }
        let found: Option<u32> = match lookup(&self.histogram, label) {
            Some(count) => Some(*count),
            None => None,
        };
        match found {
            Some(count) => {
                let next: u32 = count + 1;
                store(&mut self.histogram, label, next);
                assert(self.bucket_labels@.contains(label));
            },
            None => {
                self.bucket_labels.push(label);
                store(&mut self.histogram, label, 1);
                assert(self.bucket_labels@[before.bucket_labels.len() as int] == label);
                assert forall|other: u32| before.bucket_labels.contains(other) implies (
                #[trigger] self.bucket_labels@.contains(other)) by {
                    let i = choose|i: int|
                        0 <= i < before.bucket_labels.len() && before.bucket_labels[i] == other;
                    assert(self.bucket_labels@[i] == other);
                }
            },
        }
        self.total_samples = self.total_samples + 1;
    }
}

/// The least label that the walk over `labels` has not passed once it has
/// dealt with the first `done` of them.
spec fn least_open(labels: Seq<u32>, done: int) -> int {
    if done == 0 {
        0
    } else {
        labels[done - 1] + 1
    }
}

/// In a sound histogram with ascending labels, no bucket lies between the
/// labels already dealt with and the next one.
proof fn lemma_gap_before_next(histogram: Histogram, done: int)
    requires
        histogram.counts_sound(),
        strictly_ascending(histogram.bucket_labels),
        0 <= done < histogram.bucket_labels.len(),
    ensures
        crate::cdf::no_bucket_between(
            histogram.histogram,
            least_open(histogram.bucket_labels, done),
            histogram.bucket_labels[done] as int,
        ),
        least_open(histogram.bucket_labels, done) <= histogram.bucket_labels[done],
{
    let labels = histogram.bucket_labels;
    assert forall|label: u32|
        least_open(labels, done) <= label < labels[done] implies !histogram.histogram.contains_key(
        label,
    ) by {
        if histogram.histogram.contains_key(label) {
            assert(labels.contains(label));
            let m = choose|m: int| 0 <= m < labels.len() && labels[m] == label;
            if m < done {
                if m < done - 1 {
                    assert(labels[m] < labels[done - 1]);
                }
            } else if m > done {
                assert(labels[done] < labels[m]);
            }
        }
    }
    if done > 0 {
        assert(labels[done - 1] < labels[done]);
    }
}

impl HistogramColouring {
    /// Rebuilds the range of every bucket from the counts: walking the labels
    /// in ascending order, each bucket gets the share of the points counted
    /// so far, and then adds its own points to that count.
    fn rebuild_ranges(&mut self)
        requires
            old(self)@.counts_sound(),
            strictly_ascending(old(self)@.bucket_labels),
            old(self)@.histogram_ranges == Map::<u32, Ratio>::empty(),
            old(self)@.total_samples <= u32::MAX,
        ensures
            final(self)@.wf(),
            final(self)@.total_samples == old(self)@.total_samples,
            final(self)@.bucket_labels == old(self)@.bucket_labels,
            final(self)@.histogram == old(self)@.histogram,
    {
        let ghost before = self@;
        let mut acc: u32 = 0;
        let total: u64 = self.total_samples as u64;
        let mut j: usize = 0;
        while j < self.bucket_labels.len()
            invariant
                j <= self.bucket_labels@.len(),
                self@.total_samples == before.total_samples,
                self@.bucket_labels == before.bucket_labels,
                self@.histogram == before.histogram,
                before.counts_sound(),
                strictly_ascending(before.bucket_labels),
                before.total_samples <= u32::MAX,
                total == before.total_samples,
                acc == count_below(before.histogram, least_open(before.bucket_labels, j as int)),
                forall|label: u32| #[trigger]
                    self@.histogram_ranges.contains_key(label) <==> exists|m: int|
                        0 <= m < j && before.bucket_labels[m] == label,
                forall|m: int|
                    0 <= m < j ==> self@.histogram_ranges[#[trigger] before.bucket_labels[m]]
                        == cdf(before.histogram, before.total_samples, before.bucket_labels[m]),
            decreases self.bucket_labels@.len() - j,
        {
            let label: u32 = self.bucket_labels[j];
            let ghost ranges = self@.histogram_ranges;
            proof {
                lemma_gap_before_next(before, j as int);
                crate::cdf::lemma_count_below_gap(
                    before.histogram,
                    least_open(before.bucket_labels, j as int),
                    label as int,
                );
                crate::cdf::lemma_count_at_within_all(before.histogram, label);
                assert(before.bucket_labels.contains(label));
            }
            store(
                &mut self.histogram_ranges,
                label,
                Ratio { numerator: acc as u64, denominator: total },
            );
            let count: u32 = match lookup(&self.histogram, label) {
                Some(count) => *count,
                None => 0,
            };
            acc = acc + count;
            j = j + 1;
            proof {
                assert forall|label2: u32| #[trigger]
                    self@.histogram_ranges.contains_key(label2) <==> exists|m: int|
                        0 <= m < j && before.bucket_labels[m] == label2 by {
                    if ranges.contains_key(label2) {
                        let m = choose|m: int| 0 <= m < j - 1 && before.bucket_labels[m] == label2;
                        assert(0 <= m < j && before.bucket_labels[m] == label2);
                    }
                    if label2 == label {
                        assert(before.bucket_labels[j - 1] == label2);
                    }
                }
                assert forall|m: int| 0 <= m < j implies self@.histogram_ranges[
                #[trigger] before.bucket_labels[m]] == cdf(
                    before.histogram,
                    before.total_samples,
                    before.bucket_labels[m],
                ) by {
                    if m < j - 1 {
                        assert(before.bucket_labels[m] < before.bucket_labels[j - 1]);
                    }
                }
            }
        }
        proof {
            assert forall|label: u32|
                self@.histogram_ranges.contains_key(label) <==> self@.histogram.contains_key(
                    label,
                ) by {
                if self@.histogram.contains_key(label) {
                    assert(before.bucket_labels.contains(label));
                    let m = choose|m: int|
                        0 <= m < before.bucket_labels.len() && before.bucket_labels[m] == label;
                    assert(0 <= m < j && before.bucket_labels[m] == label);
                }
                if self@.histogram_ranges.contains_key(label) {
                    let m = choose|m: int| 0 <= m < j && before.bucket_labels[m] == label;
                    assert(before.bucket_labels.contains(label));
                }
            }
            assert forall|label: u32| #[trigger]
                self@.histogram.contains_key(label) implies self@.histogram_ranges[label] == cdf(
                self@.histogram,
                self@.total_samples,
                label,
            ) by {
                assert(before.bucket_labels.contains(label));
                let m = choose|m: int|
                    0 <= m < before.bucket_labels.len() && before.bucket_labels[m] == label;
                assert(self@.histogram_ranges[before.bucket_labels[m]] == cdf(
                    before.histogram,
                    before.total_samples,
                    before.bucket_labels[m],
                ));
            }
        }
    }
}

/// Sorting labels of which none stands twice leaves them in ascending order
/// with none twice, and keeps which labels there are.
proof fn lemma_sorted_labels(before: Seq<u32>, after: Seq<u32>)
    requires
        before.no_duplicates(),
        after.to_multiset() == before.to_multiset(),
        crate::cdf::ascending(after),
    ensures
        strictly_ascending(after),
        forall|label: u32| #[trigger] after.contains(label) <==> before.contains(label),
{
    before.lemma_multiset_has_no_duplicates();
    after.lemma_multiset_has_no_duplicates_conv();
    assert forall|label: u32| #[trigger] after.contains(label) <==> before.contains(label) by {
        vstd::seq_lib::to_multiset_contains(after, label);
        vstd::seq_lib::to_multiset_contains(before, label);
    }
}

impl HistogramColouring {
    /// Update the colour output (`colour_ranges`) given some newly escaped
    /// pixels (`newly_escaped_pixels`).
    ///
    /// With no newly escaped pixel nothing changes. Otherwise every newly
    /// escaped pixel is marked as escaped in the colour output and recorded
    /// under its iteration count, the range of every bucket is rebuilt, and
    /// the colour of every pixel that `all_pixels` holds as escaped, newly or
    /// not, is set to the range of its iteration count.
    pub fn update_colours(
        &mut self,
        screen_size: Size,
        all_pixels: &[Pixel],
        newly_escaped_pixels: &[Pixel],
        colour_ranges: &mut [ColourRange],
    )
        requires
            old(self).wf(),
            newly_escaped_pixels@.len() > 0 ==> {
                &&& old(colour_ranges)@.len() == screen_size.area()
                &&& old(colour_ranges)@.len() <= all_pixels@.len()
                &&& old(self)@.total_samples + newly_escaped_pixels@.len() <= u32::MAX
                &&& forall|j: int|
                    0 <= j < newly_escaped_pixels@.len() ==> {
                        &&& (#[trigger] newly_escaped_pixels@[j]).escaped == 1
                        &&& newly_escaped_pixels@[j].index(screen_size.width) < old(colour_ranges)@.len()
                    }
                &&& forall|i: int|
                    0 <= i < old(colour_ranges)@.len() && (#[trigger] all_pixels@[i]).escaped == 1
                        ==> old(self)@.histogram.contains_key(all_pixels@[i].iteration_count)
                        || has_sample(newly_escaped_pixels@, all_pixels@[i].iteration_count)
            },
        ensures
            final(self).wf(),
            final(colour_ranges)@.len() == old(colour_ranges)@.len(),
            newly_escaped_pixels@.len() == 0 ==> final(self)@ == old(self)@ && final(colour_ranges)@ == old(colour_ranges)@,
            newly_escaped_pixels@.len() > 0 ==> {
                &&& final(self)@.total_samples == old(self)@.total_samples
                    + newly_escaped_pixels@.len()
                &&& forall|label: u32| #[trigger]
                    final(self)@.histogram.contains_key(label) <==> old(self)@.histogram.contains_key(label) || has_sample(newly_escaped_pixels@, label)
                &&& forall|label: u32|
                    count_at(final(self)@.histogram, label as int) == count_at(
                        old(self)@.histogram,
                        label as int,
                    ) + #[trigger] occurrences(newly_escaped_pixels@, label)
                &&& forall|i: int|
                    0 <= i < old(colour_ranges)@.len() ==> #[trigger] final(colour_ranges)@[i]
                        == (ColourRange {
                        escaped: if marked(newly_escaped_pixels@, screen_size.width, i) {
                            1
                        } else {
                            old(colour_ranges)@[i].escaped
                        },
                        value: if all_pixels@[i].escaped == 1 {
                            cdf(
                                final(self)@.histogram,
                                final(self)@.total_samples,
                                all_pixels@[i].iteration_count,
                            )
                        } else {
                            old(colour_ranges)@[i].value
                        },
                    })
            },
    {
        if newly_escaped_pixels.len() > 0 {
            let ghost before = self@;
            let ghost colours_before = colour_ranges@;
            let ghost newly = newly_escaped_pixels@;
            let width: u32 = screen_size.width;

            self.histogram_ranges.clear();

            let mut k: usize = 0;
            while k < newly_escaped_pixels.len()
                invariant
                    k <= newly.len(),
                    newly == newly_escaped_pixels@,
                    width == screen_size.width,
                    colour_ranges@.len() == colours_before.len(),
                    before.counts_sound(),
                    before.total_samples + newly.len() <= u32::MAX,
                    forall|j: int|
                        0 <= j < newly.len() ==> (#[trigger] newly[j]).index(width)
                            < colours_before.len(),
                    self@.counts_sound(),
                    self@.bucket_labels.no_duplicates(),
                    self@.total_samples == before.total_samples + k,
                    self@.histogram_ranges == Map::<u32, Ratio>::empty(),
                    forall|label: u32|
                        count_at(self@.histogram, label as int) == count_at(
                            before.histogram,
                            label as int,
                        ) + #[trigger] occurrences(newly.take(k as int), label),
                    forall|i: int|
                        0 <= i < colours_before.len() ==> #[trigger] colour_ranges@[i]
                            == (ColourRange {
                            escaped: if marked(newly.take(k as int), width, i) {
                                1
                            } else {
                                colours_before[i].escaped
                            },
                            value: colours_before[i].value,
                        }),
                decreases newly.len() - k,
            {
                let pixel: Pixel = newly_escaped_pixels[k];
                let ghost histogram = self@.histogram;
                let ghost colours = colour_ranges@;
                assert(newly[k as int].index(width) < colours_before.len());
                let index: usize = crate::screen::cell_offset(pixel.x, pixel.y, width) as usize;
                colour_ranges[index].escaped = 1;
                self.record(pixel.iteration_count);
                proof {
                    let earlier = newly.take(k as int);
                    assert(newly.take(k + 1) =~= earlier.push(pixel));
                    assert forall|label: u32|
                        count_at(self@.histogram, label as int) == count_at(
                            before.histogram,
                            label as int,
                        ) + #[trigger] occurrences(newly.take(k + 1), label) by {
                        crate::cdf::lemma_occurrences_push(earlier, pixel, label);
                        assert(count_at(histogram, label as int) == count_at(
                            before.histogram,
                            label as int,
                        ) + occurrences(earlier, label));
                    }
                    assert forall|i: int| 0 <= i < colours_before.len() implies #[trigger]
                        colour_ranges@[i] == (ColourRange {
                        escaped: if marked(newly.take(k + 1), width, i) {
                            1
                        } else {
                            colours_before[i].escaped
                        },
                        value: colours_before[i].value,
                    }) by {
                        lemma_marked_push(earlier, pixel, width, i);
                        assert(colours[i] == (ColourRange {
                            escaped: if marked(earlier, width, i) {
                                1
                            } else {
                                colours_before[i].escaped
                            },
                            value: colours_before[i].value,
                        }));
                    }
                }
                k = k + 1;
            }
            assert(newly.take(k as int) =~= newly);

            let ghost unsorted = self@.bucket_labels;
            sort_labels(&mut self.bucket_labels);
            proof {
                lemma_sorted_labels(unsorted, self@.bucket_labels);
            }
            self.rebuild_ranges();
            let ghost colours = colour_ranges@;
            proof {
                assert forall|label: u32| #[trigger]
                    self@.histogram.contains_key(label) <==> before.histogram.contains_key(label)
                        || has_sample(newly, label) by {
                    crate::cdf::lemma_occurrences_positive(newly, label);
                    assert(count_at(self@.histogram, label as int) == count_at(
                        before.histogram,
                        label as int,
                    ) + occurrences(newly, label));
                }
                assert forall|i: int| 0 <= i < colours.len() implies colour_known(
                    #[trigger] all_pixels@[i],
                    self@.histogram_ranges,
                ) by {
                    if all_pixels@[i].escaped == 1 {
                        assert(self@.histogram.contains_key(all_pixels@[i].iteration_count));
                    }
                }
            }
            recolour_each(colour_ranges, all_pixels, &self.histogram_ranges);
            proof {
                assert forall|i: int| 0 <= i < colours_before.len() implies #[trigger]
                    colour_ranges@[i] == (ColourRange {
                    escaped: if marked(newly, width, i) {
                        1
                    } else {
                        colours_before[i].escaped
                    },
                    value: if all_pixels@[i].escaped == 1 {
                        cdf(
                            self@.histogram,
                            self@.total_samples,
                            all_pixels@[i].iteration_count,
                        )
                    } else {
                        colours_before[i].value
                    },
                }) by {
                    assert(colours[i].value == colours_before[i].value);
                    if all_pixels@[i].escaped == 1 {
                        assert(self@.histogram.contains_key(all_pixels@[i].iteration_count));
                    }
                }
            }
        }
    }
}

impl HistogramColouring {
    /// The number of points recorded.
    pub fn total_samples(&self) -> (total: usize)
        ensures
            total == self@.total_samples,
    {
        self.total_samples
    }

    /// The iteration counts under which a point was recorded.
    pub fn bucket_labels(&self) -> (labels: &Vec<u32>)
        ensures
            labels@ == self@.bucket_labels,
    {
        &self.bucket_labels
    }

    /// The number of points recorded under `label`, where there is one.
    pub fn bucket_count(&self, label: u32) -> (count: Option<u32>)
        ensures
            count == if self@.histogram.contains_key(label) {
                Some(self@.histogram[label])
            } else {
                None
            },
    {
        match lookup(&self.histogram, label) {
            Some(count) => Some(*count),
            None => None,
        }
    }

    /// The range of the bucket `label`, where a point was recorded under it.
    pub fn bucket_range(&self, label: u32) -> (range: Option<Ratio>)
        ensures
            range == if self@.histogram_ranges.contains_key(label) {
                Some(self@.histogram_ranges[label])
            } else {
                None
            },
    {
        match lookup(&self.histogram_ranges, label) {
            Some(range) => Some(*range),
            None => None,
        }
    }
}

/// Whether `label` is a bucket of `histogram` and no bucket lies below it.
pub open spec fn least_bucket(histogram: Map<u32, u32>, label: u32) -> bool {
    histogram.contains_key(label) && forall|other: u32| #[trigger]
        histogram.contains_key(other) ==> label <= other
}

/// Whether `label` is a bucket of `histogram` and no bucket lies above it.
pub open spec fn greatest_bucket(histogram: Map<u32, u32>, label: u32) -> bool {
    histogram.contains_key(label) && forall|other: u32| #[trigger]
        histogram.contains_key(other) ==> other <= label
}

/// The ranges of a well-formed colouring are a cumulative distribution over
/// its buckets. Every range is a share of all the points recorded, and less
/// than the whole. Walking the buckets in ascending order the ranges never
/// fall. The range of the least bucket is zero, and the range of the greatest
/// bucket together with that bucket's own points makes up the whole.
pub proof fn lemma_ranges_are_cumulative(colouring: HistogramColouring)
    requires
        colouring.wf(),
    ensures
        forall|label: u32| #[trigger]
            colouring@.histogram.contains_key(label) ==> {
                &&& colouring@.histogram_ranges[label].denominator == colouring@.total_samples
                &&& colouring@.histogram_ranges[label].numerator == count_below(
                    colouring@.histogram,
                    label as int,
                )
                &&& colouring@.histogram_ranges[label].numerator
                    < colouring@.histogram_ranges[label].denominator
            },
        forall|low: u32, high: u32|
            #![trigger colouring@.histogram.contains_key(low), colouring@.histogram.contains_key(high)]
            colouring@.histogram.contains_key(low) && colouring@.histogram.contains_key(high)
                && low <= high ==> colouring@.histogram_ranges[low].numerator
                <= colouring@.histogram_ranges[high].numerator,
        forall|label: u32| #[trigger]
            least_bucket(colouring@.histogram, label)
                ==> colouring@.histogram_ranges[label].numerator == 0,
        forall|label: u32| #[trigger]
            greatest_bucket(colouring@.histogram, label)
                ==> colouring@.histogram_ranges[label].numerator + colouring@.histogram[label]
                == colouring@.total_samples,
{
    let histogram = colouring@.histogram;
    let total = colouring@.total_samples;
    assert forall|label: u32| #[trigger] histogram.contains_key(label) implies {
        &&& colouring@.histogram_ranges[label].denominator == total
        &&& colouring@.histogram_ranges[label].numerator == count_below(histogram, label as int)
        &&& colouring@.histogram_ranges[label].numerator
            < colouring@.histogram_ranges[label].denominator
    } by {
        crate::cdf::lemma_count_at_within_all(histogram, label);
    }
    assert forall|low: u32, high: u32|
        #![trigger histogram.contains_key(low), histogram.contains_key(high)]
        histogram.contains_key(low) && histogram.contains_key(high) && low <= high implies colouring@.histogram_ranges[low].numerator
        <= colouring@.histogram_ranges[high].numerator by {
        crate::cdf::lemma_count_below_monotone(histogram, low as int, high as int);
    }
    assert forall|label: u32| #[trigger] least_bucket(histogram, label) implies colouring@.histogram_ranges[label].numerator
        == 0 by {
        crate::cdf::lemma_count_below_gap(histogram, 0, label as int);
    }
    assert forall|label: u32| #[trigger] greatest_bucket(histogram, label) implies colouring@.histogram_ranges[label].numerator
        + histogram[label] == total by {
        crate::cdf::lemma_count_below_gap(histogram, label + 1, crate::cdf::label_limit());
        crate::cdf::lemma_count_at_within_all(histogram, label);
    }
}

impl Default for HistogramColouring {
    fn default() -> (colouring: Self)
        ensures
            colouring.wf(),
            colouring@ == Histogram::empty(),
    {
        Self::new()
    }
}

} // verus!
