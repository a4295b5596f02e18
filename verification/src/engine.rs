//! The state that the frame loop carries from one frame to the next, and the
//! steps that change it.
//!
//! The loop itself talks to the window and to the device. What it decides on
//! the way is decided here: when the grid starts over, how much work a frame
//! submits and in what shape, and what becomes of the records that come back.

use crate::cdf::{count_at, has_sample, occurrences};
use crate::colour::{cdf, marked, ColourRange, Histogram, HistogramColouring, Ratio};
use crate::compute::{dispatch_columns, mandelbrot_dispatch_size, MANDELBROT_DISPATCH_SIZE_Y};
use crate::pixel::{create_pixels, fresh_pixels, Pixel, PIXEL_BYTES};
use crate::screen::{cell_x, cell_y, Size};
use crate::work_list::{
    escaped, first_fault, live, partition_readback, records_read, stored, well_formed,
    ReadbackError,
};
use vstd::prelude::*;

verus! {

/// The colour of `pixel` under `histogram`: a pixel that has diverged shows
/// the share of recorded points below its iteration count, every other pixel
/// the colour it started with.
pub open spec fn colour_of(pixel: Pixel, histogram: Histogram) -> ColourRange {
    if pixel.escaped == 1 {
        ColourRange {
            escaped: 1,
            value: cdf(histogram.histogram, histogram.total_samples, pixel.iteration_count),
        }
    } else {
        ColourRange::spec_default()
    }
}

/// What an [`Engine`] holds.
pub struct State {
    /// The size of the grid.
    pub screen_size: Size,
    /// The point store: every point of the grid, in row-major order.
    pub all_pixels: Seq<Pixel>,
    /// The work list: the points that have not diverged.
    pub unescaped_pixels: Seq<Pixel>,
    /// The points that diverged in the last frame.
    pub newly_escaped_pixels: Seq<Pixel>,
    /// The colour output, one range for every point of the grid.
    pub colour_ranges: Seq<ColourRange>,
    /// The histogram of the points that have diverged.
    pub histogram: Histogram,
    /// Whether the zoom changed since the last frame began.
    pub zoom_changed: bool,
    /// Whether the origin changed since the last frame began.
    pub origin_changed: bool,
}

impl State {
    /// The state of a grid of the given size on which no point was iterated.
    pub open spec fn fresh(screen_size: Size, zoom_changed: bool, origin_changed: bool) -> State {
        State {
            screen_size,
            all_pixels: fresh_pixels(screen_size),
            unescaped_pixels: fresh_pixels(screen_size),
            newly_escaped_pixels: Seq::empty(),
            colour_ranges: Seq::new(screen_size.area(), |i: int| ColourRange::spec_default()),
            histogram: Histogram::empty(),
            zoom_changed,
            origin_changed,
        }
    }

    /// Whether the state is well formed.
    ///
    /// The point store and the colour output cover the grid, each point of
    /// the store at its own place. The work list holds only points of the grid
    /// that have not diverged, and together with the points recorded it is no
    /// longer than the grid is large. Every diverged point of the store has
    /// its bucket in the histogram, and the colour output shows every point
    /// of the store in its colour.
    pub open spec fn wf(self) -> bool {
        &&& self.screen_size.area() <= u32::MAX
        &&& self.all_pixels.len() == self.screen_size.area()
        &&& self.colour_ranges.len() == self.screen_size.area()
        &&& self.histogram.wf()
        &&& self.histogram.total_samples + self.unescaped_pixels.len() <= self.screen_size.area()
        &&& forall|i: int|
            0 <= i < self.all_pixels.len() ==> {
                &&& (#[trigger] self.all_pixels[i]).x == cell_x(i, self.screen_size.width)
                &&& self.all_pixels[i].y == cell_y(i, self.screen_size.width)
                &&& self.all_pixels[i].escaped < 2
                &&& self.all_pixels[i].escaped == 1 ==> self.histogram.histogram.contains_key(
                    self.all_pixels[i].iteration_count,
                )
            }
        &&& forall|j: int|
            0 <= j < self.unescaped_pixels.len() ==> {
                &&& well_formed(self.screen_size, #[trigger] self.unescaped_pixels[j])
                &&& self.unescaped_pixels[j].escaped == 0
            }
        &&& forall|i: int|
            0 <= i < self.colour_ranges.len() ==> #[trigger] self.colour_ranges[i] == colour_of(
                self.all_pixels[i],
                self.histogram,
            )
    }
}

/// A fresh state is well formed.
pub proof fn lemma_fresh_wf(screen_size: Size, zoom_changed: bool, origin_changed: bool)
    requires
        screen_size.area() <= u32::MAX,
    ensures
        State::fresh(screen_size, zoom_changed, origin_changed).wf(),
{
    let state = State::fresh(screen_size, zoom_changed, origin_changed);
    crate::cdf::lemma_count_below_gap(Map::<u32, u32>::empty(), 0, crate::cdf::label_limit());
    assert forall|i: int| 0 <= i < state.all_pixels.len() implies {
        &&& (#[trigger] state.all_pixels[i]).x == cell_x(i, screen_size.width)
        &&& state.all_pixels[i].y == cell_y(i, screen_size.width)
    } by {
        crate::screen::lemma_cell_of_index(screen_size, i);
    }
    assert forall|j: int| 0 <= j < state.unescaped_pixels.len() implies well_formed(
        screen_size,
        #[trigger] state.unescaped_pixels[j],
    ) by {
        crate::screen::lemma_cell_of_index(screen_size, j);
    }
}

/// Creates the colour output of a grid on which no point has diverged.
pub fn create_colour_ranges(screen_size: Size) -> (colour_ranges: Vec<ColourRange>)
    requires
        screen_size.area() <= u32::MAX,
    ensures
        colour_ranges@ == Seq::new(screen_size.area(), |i: int| ColourRange::spec_default()),
{
    let area: u64 = screen_size.cell_count();
    let mut colour_ranges: Vec<ColourRange> = Vec::new();
    let mut i: u64 = 0;
    while i < area
        invariant
            i <= area,
            colour_ranges@.len() == i,
            forall|j: int| 0 <= j < i ==> colour_ranges@[j] == ColourRange::spec_default(),
        decreases area - i,
    {
        colour_ranges.push(ColourRange::default());
        i = i + 1;
    }
    assert(colour_ranges@ =~= Seq::new(screen_size.area(), |i: int| ColourRange::spec_default()));
    colour_ranges
}

/// What the frame loop is to submit for one frame.
#[derive(Clone, Copy, Debug, PartialEq, Eq)]
pub struct FramePlan {
    /// Whether the grid started over with this frame. If so, the device's
    /// pixel buffers are to be written anew from the point store.
    pub reset: bool,
    /// The length of the work list: the number of points to advance.
    pub total_work: usize,
    /// The shape of the compute dispatch.
    pub dispatch_size: (u32, u32, u32),
    /// The number of bytes to copy from the device's output to the staging
    /// buffer: those of the records of the work list.
    pub copy_size: u64,
}

/// The state of the frame loop: the point store, the work list, the colour
/// output, and the histogram that colours it.
pub struct Engine {
    screen_size: Size,
    all_pixels: Vec<Pixel>,
    unescaped_pixels: Vec<Pixel>,
    newly_escaped_pixels: Vec<Pixel>,
    colour_ranges: Vec<ColourRange>,
    colouring: HistogramColouring,
    zoom_changed: bool,
    origin_changed: bool,
}

impl View for Engine {
    type V = State;

    closed spec fn view(&self) -> State {
        State {
            screen_size: self.screen_size,
            all_pixels: self.all_pixels@,
            unescaped_pixels: self.unescaped_pixels@,
            newly_escaped_pixels: self.newly_escaped_pixels@,
            colour_ranges: self.colour_ranges@,
            histogram: self.colouring@,
            zoom_changed: self.zoom_changed,
            origin_changed: self.origin_changed,
        }
    }
}

impl Engine {
    /// Whether the engine is well formed: what it holds is.
    pub open spec fn wf(&self) -> bool {
        self@.wf()
    }

    /// Creates the engine for a grid of the given size, with no point
    /// iterated.
    pub fn new(screen_size: Size) -> (engine: Self)
        requires
            screen_size.area() <= u32::MAX,
        ensures
            engine.wf(),
            engine@ == State::fresh(screen_size, false, false),
    {
        let engine = Engine {
            screen_size,
            all_pixels: create_pixels(screen_size),
            unescaped_pixels: create_pixels(screen_size),
            newly_escaped_pixels: Vec::new(),
            colour_ranges: create_colour_ranges(screen_size),
            colouring: HistogramColouring::new(),
            zoom_changed: false,
            origin_changed: false,
        };
        proof {
            lemma_fresh_wf(screen_size, false, false);
            assert(engine@.newly_escaped_pixels =~= Seq::<Pixel>::empty());
        }
        engine
    }

    /// Starts over on the same grid: every point is fresh again and on the
    /// work list, nothing is recorded in the histogram, and the colour output
    /// shows no point as diverged. The marks for a changed zoom or origin stay
    /// as they are.
    pub fn reset(&mut self)
        requires
            old(self)@.screen_size.area() <= u32::MAX,
        ensures
            final(self).wf(),
            final(self)@ == State::fresh(
                old(self)@.screen_size,
                old(self)@.zoom_changed,
                old(self)@.origin_changed,
            ),
            final(self)@.histogram.total_samples == 0,
            final(self)@.histogram.bucket_labels.len() == 0,
            final(self)@.histogram.histogram == Map::<u32, u32>::empty(),
            final(self)@.histogram.histogram_ranges == Map::<u32, Ratio>::empty(),
            final(self)@.unescaped_pixels.len() == old(self)@.screen_size.area(),
            forall|j: int|
                0 <= j < final(self)@.unescaped_pixels.len() ==> (
                #[trigger] final(self)@.unescaped_pixels[j]).escaped == 0,
    {
        self.colouring.reset();
        self.colour_ranges = create_colour_ranges(self.screen_size);
        self.all_pixels = create_pixels(self.screen_size);
        self.unescaped_pixels = create_pixels(self.screen_size);
        self.newly_escaped_pixels.clear();
        proof {
            lemma_fresh_wf(self.screen_size, self.zoom_changed, self.origin_changed);
        }
    }

    /// Takes on a grid of another size, and starts over on it.
    pub fn resize(&mut self, screen_size: Size)
        requires
            screen_size.area() <= u32::MAX,
        ensures
            final(self).wf(),
            final(self)@ == State::fresh(
                screen_size,
                old(self)@.zoom_changed,
                old(self)@.origin_changed,
            ),
    {
        self.screen_size = screen_size;
        self.reset();
    }

    /// Notes that the zoom changed. The grid starts over when the next frame
    /// begins, however often the zoom or the origin change until then.
    pub fn zoom_changed(&mut self)
        ensures
            final(self)@ == (State { zoom_changed: true, ..old(self)@ }),
    {
        self.zoom_changed = true;
    }

    /// Notes that the origin changed. The grid starts over when the next
    /// frame begins, however often the zoom or the origin change until then.
    pub fn origin_changed(&mut self)
        ensures
            final(self)@ == (State { origin_changed: true, ..old(self)@ }),
    {
        self.origin_changed = true;
    }

    /// Begins a frame. Where the zoom or the origin changed since the last
    /// frame began, the grid starts over first, once. The plan says how much
    /// work there is, in what shape to dispatch it, and how much of the
    /// device's output to copy back.
    pub fn begin_frame(&mut self) -> (plan: FramePlan)
        requires
            old(self).wf(),
        ensures
            final(self).wf(),
            plan.reset == (old(self)@.zoom_changed || old(self)@.origin_changed),
            final(self)@ == if plan.reset {
                State::fresh(old(self)@.screen_size, false, false)
            } else {
                old(self)@
            },
            plan.total_work == final(self)@.unescaped_pixels.len(),
            plan.dispatch_size == (
                dispatch_columns(plan.total_work as int) as u32,
                MANDELBROT_DISPATCH_SIZE_Y,
                1u32,
            ),
            dispatch_columns(plan.total_work as int) <= u32::MAX,
            plan.copy_size == plan.total_work * PIXEL_BYTES,
    {
        let reset: bool = self.zoom_changed || self.origin_changed;
        self.zoom_changed = false;
        self.origin_changed = false;
        if reset {
            self.reset();
        }
        let total_work: usize = self.unescaped_pixels.len();
        proof {
            crate::compute::lemma_dispatch_columns_fit(total_work as int);
        }
        let dispatch_size: (u32, u32, u32) = mandelbrot_dispatch_size(total_work);
        let copy_size: u64 = (total_work as u64) * PIXEL_BYTES;
        FramePlan { reset, total_work, dispatch_size, copy_size }
    }

    /// Ends a frame with the records that the device handed back for the
    /// work list, as many as the work list was long.
    ///
    /// Where each of them is well formed, the diverged ones are written to
    /// the point store and recorded in the histogram, the others make up the
    /// new work list, and the colour output shows every diverged point, newly
    /// or not, in its new colour. Where one is not well formed, the first such
    /// record is reported and nothing is changed: the frame loop is to stop.
    pub fn finish_frame(&mut self, readback: &[Pixel]) -> (result: Result<(), ReadbackError>)
        requires
            old(self).wf(),
        ensures
            final(self).wf(),
            result is Ok <==> first_fault(
                old(self)@.screen_size,
                records_read(readback@, old(self)@.unescaped_pixels.len()),
            ) is None,
            match result {
                Ok(()) => {
                    let records = records_read(readback@, old(self)@.unescaped_pixels.len());
                    let newly = records.filter(escaped());
                    &&& final(self)@.screen_size == old(self)@.screen_size
                    &&& final(self)@.zoom_changed == old(self)@.zoom_changed
                    &&& final(self)@.origin_changed == old(self)@.origin_changed
                    &&& final(self)@.unescaped_pixels == records.filter(live())
                    &&& final(self)@.newly_escaped_pixels == newly
                    &&& final(self)@.all_pixels == stored(
                        old(self)@.all_pixels,
                        records,
                        old(self)@.screen_size.width,
                    )
                    &&& final(self)@.histogram.total_samples == old(self)@.histogram.total_samples
                        + newly.len()
                    &&& forall|label: u32|
                        count_at(final(self)@.histogram.histogram, label as int) == count_at(
                            old(self)@.histogram.histogram,
                            label as int,
                        ) + #[trigger] occurrences(newly, label)
                    &&& forall|label: u32| #[trigger]
                        final(self)@.histogram.histogram.contains_key(label) <==> old(self)@.histogram.histogram.contains_key(label)
                            || has_sample(newly, label)
                },
                Err(error) => {
                    &&& first_fault(
                        old(self)@.screen_size,
                        records_read(readback@, old(self)@.unescaped_pixels.len()),
                    ) == Some(error)
                    &&& final(self)@ == old(self)@
                },
            },
    {
        let ghost before = self@;
        let ghost records = records_read(readback@, before.unescaped_pixels.len());
        let ghost newly = records.filter(escaped());
        let routed = partition_readback(
            self.screen_size,
            readback,
            &mut self.all_pixels,
            &mut self.unescaped_pixels,
            &mut self.newly_escaped_pixels,
        );
        proof {
            crate::work_list::lemma_no_fault(before.screen_size, records);
        }
        match routed {
            Err(error) => {
                assert(self@ == before);
                Err(error)
            },
            Ok(()) => {
                proof {
                    crate::work_list::lemma_routed_records(before.screen_size, records);
                    assert forall|j: int| 0 <= j < newly.len() implies {
                        &&& (#[trigger] newly[j]).escaped == 1
                        &&& newly[j].index(before.screen_size.width) < before.colour_ranges.len()
                    } by {
                        crate::screen::lemma_cell_index_on_grid(
                            before.screen_size,
                            newly[j].x,
                            newly[j].y,
                        );
                    }
                    assert forall|i: int|
                        0 <= i < before.colour_ranges.len() && (
                        #[trigger] self.all_pixels@[i]).escaped == 1 implies before.histogram.histogram.contains_key(
                    self.all_pixels@[i].iteration_count) || has_sample(
                        newly,
                        self.all_pixels@[i].iteration_count,
                    ) by {
                        crate::work_list::lemma_stored_cell(
                            before.screen_size,
                            before.all_pixels,
                            records,
                            i,
                        );
                        assert(before.all_pixels[i].escaped == 1 ==> before.histogram.histogram.contains_key(
                            before.all_pixels[i].iteration_count,
                        ));
                    }
                }
                self.colouring.update_colours(
                    self.screen_size,
                    &self.all_pixels,
                    &self.newly_escaped_pixels,
                    &mut self.colour_ranges,
                );
                proof {
                    let after = self@;
                    let width = before.screen_size.width;
                    assert forall|i: int| 0 <= i < after.all_pixels.len() implies {
                        &&& (#[trigger] after.all_pixels[i]).x == cell_x(i, width)
                        &&& after.all_pixels[i].y == cell_y(i, width)
                        &&& after.all_pixels[i].escaped < 2
                        &&& after.all_pixels[i].escaped == 1
                            ==> after.histogram.histogram.contains_key(
                            after.all_pixels[i].iteration_count,
                        )
                        &&& after.colour_ranges[i] == colour_of(after.all_pixels[i], after.histogram)
                    } by {
                        crate::work_list::lemma_stored_cell(
                            before.screen_size,
                            before.all_pixels,
                            records,
                            i,
                        );
                        let pixel = after.all_pixels[i];
                        assert(before.colour_ranges[i] == colour_of(
                            before.all_pixels[i],
                            before.histogram,
                        ));
                        assert(before.all_pixels[i].escaped == 1 ==> before.histogram.histogram.contains_key(
                            before.all_pixels[i].iteration_count,
                        ));
                        if marked(newly, width, i) {
                            crate::screen::lemma_cell_index_on_grid(
                                before.screen_size,
                                pixel.x,
                                pixel.y,
                            );
                            assert(after.histogram.histogram.contains_key(pixel.iteration_count));
                        } else {
                            if newly.len() > 0 && pixel.escaped == 1 {
                                assert(after.histogram.histogram.contains_key(
                                    pixel.iteration_count,
                                ));
                            }
                        }
                    }
                    crate::work_list::lemma_partition_complete(before.screen_size, records);
                    if newly.len() == 0 {
                        assert forall|label: u32| !has_sample(newly, label) by {}
                        assert forall|label: u32|
                            count_at(after.histogram.histogram, label as int) == count_at(
                                before.histogram.histogram,
                                label as int,
                            ) + #[trigger] occurrences(newly, label) by {
                            assert(occurrences(newly, label) == 0);
                        }
                    }
                }
                Ok(())
            },
        }
    }

    /// The size of the grid.
    pub fn screen_size(&self) -> (screen_size: Size)
        ensures
            screen_size == self@.screen_size,
    {
        self.screen_size
    }

    /// The point store.
    pub fn all_pixels(&self) -> (pixels: &Vec<Pixel>)
        ensures
            pixels@ == self@.all_pixels,
    {
        &self.all_pixels
    }

    /// The work list.
    pub fn unescaped_pixels(&self) -> (pixels: &Vec<Pixel>)
        ensures
            pixels@ == self@.unescaped_pixels,
    {
        &self.unescaped_pixels
    }

    /// The points that diverged in the last frame.
    pub fn newly_escaped_pixels(&self) -> (pixels: &Vec<Pixel>)
        ensures
            pixels@ == self@.newly_escaped_pixels,
    {
        &self.newly_escaped_pixels
    }

    /// The colour output.
    pub fn colour_ranges(&self) -> (colour_ranges: &Vec<ColourRange>)
        ensures
            colour_ranges@ == self@.colour_ranges,
    {
        &self.colour_ranges
    }

    /// The histogram colouring.
    pub fn colouring(&self) -> (colouring: &HistogramColouring)
        ensures
            colouring@ == self@.histogram,
    {
        &self.colouring
    }
}

} // verus!
