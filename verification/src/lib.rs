//! Host-side logic of an incremental escape-time renderer: planning compute
//! dispatches, routing points between the work list and the point store, and
//! histogram colouring of the points that have diverged.

pub mod buffer;
pub mod cdf;
pub mod colour;
pub mod compute;
pub mod double_buffered;
pub mod engine;
pub mod pixel;
pub mod readback;
pub mod screen;
mod trusted;
pub mod work_list;
