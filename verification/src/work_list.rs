//! Routing what the device hands back.
//!
//! Each frame the device advances the points of the work list and hands back
//! one record for each of them, in the order of the work list. A record whose
//! point has diverged is written to the point store at the point's place on
//! the grid and joins the batch of newly escaped points; every other record
//! joins the work list of the next frame.

use crate::pixel::Pixel;
use crate::screen::{cell_offset, Size};
use vstd::multiset::Multiset;
use vstd::prelude::*;

verus! {

/// Why a record that the device handed back was refused.
#[derive(Clone, Copy, Debug, PartialEq, Eq, Structural)]
pub enum ReadbackError {
    /// The record at `index` names a point that does not lie on the grid.
    OutOfBounds { index: usize },
    /// The record at `index` has an escape flag that is neither `0` nor `1`.
    BadEscapeFlag { index: usize },
}

/// Whether `pixel` lies on the grid.
pub open spec fn on_grid(size: Size, pixel: Pixel) -> bool {
    size.holds(pixel.x, pixel.y)
}

/// Whether `pixel` is a record the host accepts: it lies on the grid, and its
/// escape flag is `0` or `1`.
pub open spec fn well_formed(size: Size, pixel: Pixel) -> bool {
    on_grid(size, pixel) && pixel.escaped < 2
}

/// The test for a point that has diverged.
pub open spec fn escaped() -> spec_fn(Pixel) -> bool {
    |pixel: Pixel| pixel.escaped == 1
}

/// The test for a point that has not diverged.
pub open spec fn live() -> spec_fn(Pixel) -> bool {
    |pixel: Pixel| pixel.escaped == 0
}

/// The records that the host reads: as many of `readback` as the work list
/// was long, from the start. What follows them in the staging buffer is left
/// over from earlier frames.
pub open spec fn records_read(readback: Seq<Pixel>, work_len: nat) -> Seq<Pixel> {
    if work_len <= readback.len() {
        readback.take(work_len as int)
    } else {
        readback
    }
}

/// The point store after the diverged points among `records` were written to
/// it, one after the other, each at its place on a grid `width` cells wide.
pub open spec fn stored(store: Seq<Pixel>, records: Seq<Pixel>, width: u32) -> Seq<Pixel>
    decreases records.len(),
{
    if records.len() == 0 {
        store
    } else {
        let earlier = stored(store, records.drop_last(), width);
        let record = records.last();
        if record.escaped == 1 {
            earlier.update(record.index(width), record)
        } else {
            earlier
        }
    }
}

/// The error that the first refused record of `records` gives, if there is
/// one: the place of a record is tested before its flag.
pub open spec fn first_fault(size: Size, records: Seq<Pixel>) -> Option<ReadbackError>
    decreases records.len(),
{
    if records.len() == 0 {
        None
    } else {
        match first_fault(size, records.drop_last()) {
            Some(error) => Some(error),
            None => {
                let index = (records.len() - 1) as usize;
                if !on_grid(size, records.last()) {
                    Some(ReadbackError::OutOfBounds { index })
                } else if records.last().escaped >= 2 {
                    Some(ReadbackError::BadEscapeFlag { index })
                } else {
                    None
                }
            },
        }
    }
}

/// There is no fault among records exactly when each of them is well formed.
pub proof fn lemma_no_fault(size: Size, records: Seq<Pixel>)
    ensures
        first_fault(size, records) is None <==> forall|i: int|
            0 <= i < records.len() ==> well_formed(size, #[trigger] records[i]),
    decreases records.len(),
{
    if records.len() > 0 {
        let earlier = records.drop_last();
        lemma_no_fault(size, earlier);
        if first_fault(size, records) is None {
            assert forall|i: int| 0 <= i < records.len() implies well_formed(
                size,
                #[trigger] records[i],
            ) by {
                if i < earlier.len() {
                    assert(well_formed(size, earlier[i]));
                }
            }
        }
        if forall|i: int| 0 <= i < records.len() ==> well_formed(size, #[trigger] records[i]) {
            assert forall|i: int| 0 <= i < earlier.len() implies well_formed(
                size,
                #[trigger] earlier[i],
            ) by {
                assert(well_formed(size, records[i]));
            }
            assert(well_formed(size, records[records.len() - 1]));
        }
    }
}

/// A fault names the first record that is not well formed, and says what is
/// wrong with it.
pub proof fn lemma_first_fault(size: Size, records: Seq<Pixel>)
    requires
        records.len() <= usize::MAX,
    ensures
        match first_fault(size, records) {
            None => true,
            Some(ReadbackError::OutOfBounds { index }) => {
                &&& index < records.len()
                &&& !on_grid(size, records[index as int])
                &&& forall|i: int| 0 <= i < index ==> well_formed(size, #[trigger] records[i])
            },
            Some(ReadbackError::BadEscapeFlag { index }) => {
                &&& index < records.len()
                &&& on_grid(size, records[index as int])
                &&& records[index as int].escaped >= 2
                &&& forall|i: int| 0 <= i < index ==> well_formed(size, #[trigger] records[i])
            },
        },
    decreases records.len(),
{
    if records.len() > 0 {
        let earlier = records.drop_last();
        lemma_first_fault(size, earlier);
        lemma_no_fault(size, earlier);
        match first_fault(size, earlier) {
            Some(ReadbackError::OutOfBounds { index }) => {
                assert(earlier[index as int] == records[index as int]);
                assert forall|i: int| 0 <= i < index implies well_formed(
                    size,
                    #[trigger] records[i],
                ) by {
                    assert(well_formed(size, earlier[i]));
                }
            },
            Some(ReadbackError::BadEscapeFlag { index }) => {
                assert(earlier[index as int] == records[index as int]);
                assert forall|i: int| 0 <= i < index implies well_formed(
                    size,
                    #[trigger] records[i],
                ) by {
                    assert(well_formed(size, earlier[i]));
                }
            },
            None => {
                assert forall|i: int| 0 <= i < records.len() - 1 implies well_formed(
                    size,
                    #[trigger] records[i],
                ) by {
                    assert(well_formed(size, earlier[i]));
                }
            },
        }
    }
}

/// Every record is routed to exactly one of the two lists: the diverged
/// records and the live records of well-formed records are, taken together,
/// those records, each as often as it was handed back.
pub proof fn lemma_partition_complete(size: Size, records: Seq<Pixel>)
    requires
        forall|i: int| 0 <= i < records.len() ==> well_formed(size, #[trigger] records[i]),
    ensures
        records.filter(escaped()).len() + records.filter(live()).len() == records.len(),
        records.filter(escaped()).to_multiset().add(records.filter(live()).to_multiset())
            =~= records.to_multiset(),
    decreases records.len(),
{
    broadcast use vstd::seq_lib::group_to_multiset_ensures;

    if records.len() == 0 {
        reveal(Seq::filter);
        assert(records.filter(escaped()) =~= Seq::<Pixel>::empty());
        assert(records.filter(live()) =~= Seq::<Pixel>::empty());
        assert(records.to_multiset() =~= Multiset::<Pixel>::empty()) by {
            records.to_multiset_ensures();
        }
    } else {
        let earlier = records.drop_last();
        let record = records.last();
        assert(earlier.push(record) =~= records);
        assert forall|i: int| 0 <= i < earlier.len() implies well_formed(
            size,
            #[trigger] earlier[i],
        ) by {
            assert(well_formed(size, records[i]));
        }
        lemma_partition_complete(size, earlier);
        earlier.lemma_filter_push(record, escaped());
        earlier.lemma_filter_push(record, live());
        assert(well_formed(size, records[records.len() - 1]));
        vstd::seq_lib::to_multiset_build(earlier, record);
        if record.escaped == 1 {
            vstd::seq_lib::to_multiset_build(earlier.filter(escaped()), record);
        } else {
            vstd::seq_lib::to_multiset_build(earlier.filter(live()), record);
        }
    }
}

/// What well-formed records are routed to keeps them apart: every record
/// among the diverged has diverged, every record among the live has not, and
/// all of them lie on the grid.
pub proof fn lemma_routed_records(size: Size, records: Seq<Pixel>)
    requires
        forall|i: int| 0 <= i < records.len() ==> well_formed(size, #[trigger] records[i]),
    ensures
        forall|j: int|
            0 <= j < records.filter(escaped()).len() ==> {
                &&& (#[trigger] records.filter(escaped())[j]).escaped == 1
                &&& on_grid(size, records.filter(escaped())[j])
            },
        forall|j: int|
            0 <= j < records.filter(live()).len() ==> {
                &&& (#[trigger] records.filter(live())[j]).escaped == 0
                &&& on_grid(size, records.filter(live())[j])
            },
    decreases records.len(),
{
    if records.len() == 0 {
        reveal(Seq::filter);
    } else {
        let earlier = records.drop_last();
        let record = records.last();
        assert(earlier.push(record) =~= records);
        assert forall|i: int| 0 <= i < earlier.len() implies well_formed(
            size,
            #[trigger] earlier[i],
        ) by {
            assert(well_formed(size, records[i]));
        }
        lemma_routed_records(size, earlier);
        earlier.lemma_filter_push(record, escaped());
        earlier.lemma_filter_push(record, live());
        assert(well_formed(size, records[records.len() - 1]));
    }
}

/// What the point store holds at `index` after well-formed records were
/// written to it. Where no diverged record lies there, it holds what it held
/// before. Where one does, it holds one of the diverged records: a point that
/// has diverged and lies at that very place.
pub proof fn lemma_stored_cell(size: Size, store: Seq<Pixel>, records: Seq<Pixel>, index: int)
    requires
        forall|i: int| 0 <= i < records.len() ==> well_formed(size, #[trigger] records[i]),
        size.area() <= store.len(),
        0 <= index < store.len(),
    ensures
        stored(store, records, size.width).len() == store.len(),
        !crate::colour::marked(records.filter(escaped()), size.width, index) ==> stored(
            store,
            records,
            size.width,
        )[index] == store[index],
        crate::colour::marked(records.filter(escaped()), size.width, index) ==> {
            let pixel = stored(store, records, size.width)[index];
            &&& pixel.escaped == 1
            &&& on_grid(size, pixel)
            &&& pixel.index(size.width) == index
            &&& crate::cdf::has_sample(records.filter(escaped()), pixel.iteration_count)
        },
    decreases records.len(),
{
    let width = size.width;
    if records.len() == 0 {
        reveal(Seq::filter);
    } else {
        let earlier = records.drop_last();
        let record = records.last();
        assert(earlier.push(record) =~= records);
        assert forall|i: int| 0 <= i < earlier.len() implies well_formed(
            size,
            #[trigger] earlier[i],
        ) by {
            assert(well_formed(size, records[i]));
        }
        lemma_stored_cell(size, store, earlier, index);
        earlier.lemma_filter_push(record, escaped());
        assert(well_formed(size, records[records.len() - 1]));
        crate::screen::lemma_cell_index_on_grid(size, record.x, record.y);
        let before = earlier.filter(escaped());
        let after = records.filter(escaped());
        if record.escaped == 1 {
            assert(after == before.push(record));
            if record.index(width) == index {
                assert(after[before.len() as int] == record);
            } else {
                if crate::colour::marked(after, width, index) {
                    let j = choose|j: int|
                        0 <= j < after.len() && (#[trigger] after[j]).index(width) == index;
                    assert(before[j].index(width) == index);
                    let pixel = stored(store, earlier, width)[index];
                    let k = choose|k: int|
                        0 <= k < before.len() && (#[trigger] before[k]).iteration_count
                            == pixel.iteration_count;
                    assert(after[k].iteration_count == pixel.iteration_count);
                }
                if crate::colour::marked(before, width, index) {
                    let j = choose|j: int|
                        0 <= j < before.len() && (#[trigger] before[j]).index(width) == index;
                    assert(after[j].index(width) == index);
                }
            }
        }
    }
}

/// A fault among the first `k` records is the fault of all the records.
proof fn lemma_fault_persists(size: Size, records: Seq<Pixel>, k: int)
    requires
        0 <= k <= records.len(),
        first_fault(size, records.take(k)) is Some,
    ensures
        first_fault(size, records) == first_fault(size, records.take(k)),
    decreases records.len(),
{
    if k == records.len() {
        assert(records.take(k) =~= records);
    } else {
        let earlier = records.drop_last();
        assert(earlier.take(k) =~= records.take(k));
        lemma_fault_persists(size, earlier, k);
    }
}

/// Routes the records that the device handed back for the work list.
///
/// `unescaped_pixels` holds the work list that was submitted. As many records
/// as it was long are read from the start of `readback`. Where each of them
/// is well formed, the diverged ones are written to the point store
/// `all_pixels` and make up `newly_escaped_pixels`, and the others make up
/// the new work list, all in the order in which they were handed back. Where
/// one of them is not, the first such record is reported and nothing is
/// changed.
pub fn partition_readback(
    screen_size: Size,
    readback: &[Pixel],
    all_pixels: &mut Vec<Pixel>,
    unescaped_pixels: &mut Vec<Pixel>,
    newly_escaped_pixels: &mut Vec<Pixel>,
) -> (result: Result<(), ReadbackError>)
    requires
        screen_size.area() <= old(all_pixels)@.len(),
    ensures
        result is Ok <==> forall|i: int|
            0 <= i < records_read(readback@, old(unescaped_pixels)@.len()).len() ==> well_formed(
                screen_size,
                #[trigger] records_read(readback@, old(unescaped_pixels)@.len())[i],
            ),
        match result {
            Ok(()) => {
                let records = records_read(readback@, old(unescaped_pixels)@.len());
                &&& final(unescaped_pixels)@ == records.filter(live())
                &&& final(newly_escaped_pixels)@ == records.filter(escaped())
                &&& final(all_pixels)@ == stored(old(all_pixels)@, records, screen_size.width)
                &&& final(all_pixels)@.len() == old(all_pixels)@.len()
                &&& final(unescaped_pixels)@.len() + final(newly_escaped_pixels)@.len()
                    == records.len()
                &&& final(newly_escaped_pixels)@.to_multiset().add(
                    final(unescaped_pixels)@.to_multiset(),
                ) == records.to_multiset()
            },
            Err(error) => {
                let records = records_read(readback@, old(unescaped_pixels)@.len());
                &&& first_fault(screen_size, records) == Some(error)
                &&& final(unescaped_pixels)@ == old(unescaped_pixels)@
                &&& final(newly_escaped_pixels)@ == old(newly_escaped_pixels)@
                &&& final(all_pixels)@ == old(all_pixels)@
            },
        },
{
    let ghost records = records_read(readback@, unescaped_pixels@.len());
    let ghost store = all_pixels@;
    let work_len: usize = unescaped_pixels.len();
    let count: usize = if work_len <= readback.len() {
        work_len
    } else {
        readback.len()
    };

    let mut i: usize = 0;
    while i < count
        invariant
            i <= count,
            count == records.len(),
            count <= readback@.len(),
            forall|j: int| 0 <= j < count ==> records[j] == readback@[j],
            first_fault(screen_size, records.take(i as int)) is None,
            records == records_read(readback@, old(unescaped_pixels)@.len()),
            all_pixels@ == old(all_pixels)@,
            unescaped_pixels@ == old(unescaped_pixels)@,
            newly_escaped_pixels@ == old(newly_escaped_pixels)@,
        decreases count - i,
    {
        let pixel: Pixel = readback[i];
        proof {
            assert(records.take(i + 1).drop_last() =~= records.take(i as int));
            assert(records.take(i + 1).last() == pixel);
        }
        if !(pixel.x < screen_size.width && pixel.y < screen_size.height) {
            proof {
                lemma_fault_persists(screen_size, records, i + 1);
                lemma_no_fault(screen_size, records);
            }
            return Err(ReadbackError::OutOfBounds { index: i });
        }
        if pixel.escaped >= 2 {
            proof {
                lemma_fault_persists(screen_size, records, i + 1);
                lemma_no_fault(screen_size, records);
            }
            return Err(ReadbackError::BadEscapeFlag { index: i });
        }
        i = i + 1;
    }
    proof {
        assert(records.take(count as int) =~= records);
        lemma_no_fault(screen_size, records);
        lemma_partition_complete(screen_size, records);
    }

    unescaped_pixels.clear();
    newly_escaped_pixels.clear();
    proof {
        reveal(Seq::filter);
        assert(records.take(0).filter(live()) =~= Seq::<Pixel>::empty());
        assert(records.take(0).filter(escaped()) =~= Seq::<Pixel>::empty());
    }
    let mut i: usize = 0;
    while i < count
        invariant
            i <= count,
            count == records.len(),
            count <= readback@.len(),
            forall|j: int| 0 <= j < count ==> records[j] == readback@[j],
            forall|j: int| 0 <= j < count ==> well_formed(screen_size, #[trigger] records[j]),
            screen_size.area() <= store.len(),
            all_pixels@.len() == store.len(),
            all_pixels@ == stored(store, records.take(i as int), screen_size.width),
            unescaped_pixels@ == records.take(i as int).filter(live()),
            newly_escaped_pixels@ == records.take(i as int).filter(escaped()),
        decreases count - i,
    {
        let pixel: Pixel = readback[i];
        proof {
            let earlier = records.take(i as int);
            assert(records.take(i + 1) =~= earlier.push(pixel));
            assert(records.take(i + 1).drop_last() =~= earlier);
            earlier.lemma_filter_push(pixel, live());
            earlier.lemma_filter_push(pixel, escaped());
            assert(well_formed(screen_size, records[i as int]));
            crate::screen::lemma_cell_index_on_grid(screen_size, pixel.x, pixel.y);
            assert(records.take(i + 1).last() == pixel);
            assert(stored(store, records.take(i + 1), screen_size.width) == if pixel.escaped == 1 {
                stored(store, earlier, screen_size.width).update(
                    pixel.index(screen_size.width),
                    pixel,
                )
            } else {
                stored(store, earlier, screen_size.width)
            });
        }
        if pixel.escaped == 1 {
            let offset: u64 = cell_offset(pixel.x, pixel.y, screen_size.width);
            let store_len: usize = all_pixels.len();
            assert(offset < store_len);
            let index: usize = offset as usize;
            assert(index == pixel.index(screen_size.width));
            all_pixels[index] = pixel;
            newly_escaped_pixels.push(pixel);
        } else {
            unescaped_pixels.push(pixel);
        }
        i = i + 1;
    }
    proof {
        assert(records.take(count as int) =~= records);
    }
    Ok(())
}

} // verus!
