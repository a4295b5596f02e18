//! Double buffering.

use vstd::prelude::*;

verus! {

/// Two buffers of one kind, one read and one written during a compute pass.
/// After the pass the two trade places, so that what was written is read by
/// the next pass. The trade moves ownership and copies nothing.
pub struct DoubleBuffered<A> {
    pub input: A,
    pub output: A,
}

impl<A> DoubleBuffered<A> {
    /// Lets the two buffers trade places.
    pub fn swap(&mut self)
        ensures
            final(self).input == old(self).output,
            final(self).output == old(self).input,
    {
        std::mem::swap(&mut self.input, &mut self.output)
    }

    /// Gives up both buffers, the input first, for the caller to release.
    pub fn destroy(self) -> (buffers: (A, A))
        ensures
            buffers.0 == self.input,
            buffers.1 == self.output,
    {
        (self.input, self.output)
    }
}

} // verus!
