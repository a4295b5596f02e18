//! Dispatch shapes for the compute pass that advances the live points.
//!
//! The pass is launched over a two-dimensional grid of workgroups, since a
//! device caps the number of workgroups per dimension. Every workgroup runs
//! [`MANDELBROT_WORKGROUP_SIZE_Y`] invocations along `y`, and a dispatch is
//! always [`MANDELBROT_DISPATCH_SIZE_Y`] workgroups tall, so one column of the
//! dispatch advances `64 * 1024 = 65536` points.

use vstd::prelude::*;

verus! {

/// Invocations per workgroup along `y`.
pub const MANDELBROT_WORKGROUP_SIZE_Y: u32 = 64;

/// Workgroups per dispatch along `y`.
pub const MANDELBROT_DISPATCH_SIZE_Y: u32 = 1024;

/// The most workgroups a device accepts along one dimension of a dispatch.
pub const MAX_WORKGROUPS_PER_DIMENSION: u32 = 65535;

/// Invocations in one column of a dispatch: its height in workgroups times
/// the invocations of each workgroup.
pub open spec fn column_invocations() -> int {
    MANDELBROT_DISPATCH_SIZE_Y * MANDELBROT_WORKGROUP_SIZE_Y
}

/// The number of columns dispatched for `total_work` points: the least `x`
/// with `x * column_invocations() > total_work`.
pub open spec fn dispatch_columns(total_work: int) -> int {
    total_work / column_invocations() + 1
}

/// The position in the work list that the invocation with grid coordinates
/// `(x_id, y_id)` advances.
pub open spec fn invocation_index(x_id: int, y_id: int) -> int {
    x_id * column_invocations() + y_id
}

/// The dispatch shape for a work list of `total_work` points.
///
/// The shape is `(dispatch_columns(total_work), 1024, 1)`. It always holds
/// more invocations than there are points, so the device never leaves a point
/// out, and it holds less than one column of spare invocations. An empty work
/// list still gets one column.
pub fn mandelbrot_dispatch_size(total_work: usize) -> (shape: (u32, u32, u32))
    requires
        dispatch_columns(total_work as int) <= u32::MAX,
    ensures
        shape.0 == dispatch_columns(total_work as int),
        shape.1 == MANDELBROT_DISPATCH_SIZE_Y,
        shape.2 == 1,
        shape.0 >= 1,
        shape.1 <= MAX_WORKGROUPS_PER_DIMENSION,
        shape.0 * shape.1 * MANDELBROT_WORKGROUP_SIZE_Y > total_work,
        (shape.0 - 1) * shape.1 * MANDELBROT_WORKGROUP_SIZE_Y <= total_work,
{
    let per_column: u32 = MANDELBROT_DISPATCH_SIZE_Y * MANDELBROT_WORKGROUP_SIZE_Y;
    let full_columns: usize = total_work / (per_column as usize);
    let x: u32 = (full_columns + 1) as u32;
    assert(x == total_work / 65536 + 1);
    assert(x * 1024 * 64 == x * 65536 && (x - 1) * 1024 * 64 == (x - 1) * 65536);
    (x, MANDELBROT_DISPATCH_SIZE_Y, 1)
}

/// A work list that a 32-bit counter can count is dispatched in at most
/// `65536` columns.
pub proof fn lemma_dispatch_columns_fit(total_work: int)
    requires
        0 <= total_work <= u32::MAX,
    ensures
        1 <= dispatch_columns(total_work) <= 65536,
{
    assert(column_invocations() == 65536);
}

/// Every position of the work list is advanced by an invocation of the
/// dispatch: position `i` by the invocation at `(i / 65536, i % 65536)`.
pub proof fn lemma_dispatch_covers_work(total_work: int, i: int)
    requires
        0 <= i < total_work,
    ensures
        0 <= i / column_invocations() < dispatch_columns(total_work),
        0 <= i % column_invocations() < column_invocations(),
        invocation_index(i / column_invocations(), i % column_invocations()) == i,
{
}

/// No two invocations of a dispatch advance the same position.
pub proof fn lemma_invocation_index_injective(x1: int, y1: int, x2: int, y2: int)
    requires
        0 <= y1 < column_invocations(),
        0 <= y2 < column_invocations(),
        invocation_index(x1, y1) == invocation_index(x2, y2),
    ensures
        x1 == x2,
        y1 == y2,
{
}

} // verus!
