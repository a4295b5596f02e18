//! The protocol by which the host gets to read what the device wrote.
//!
//! Each frame the device's output is copied to a staging buffer, and the host
//! asks for that buffer to be mapped for reading. The device answers later,
//! while it is polled, and only after its answer may the host read. The
//! staging buffer is as large as the grid, yet only the records of this
//! frame's work list mean anything, so their number is kept with the state of
//! the protocol. After reading, the buffer is unmapped and the next frame may
//! copy into it.
//!
//! The steps that touch the device are taken by the frame loop. This module
//! keeps the state between them, and refuses a step taken out of turn.

use crate::pixel::PIXEL_BYTES;
use vstd::prelude::*;

verus! {

/// Where the protocol stands.
#[derive(Clone, Copy, Debug, PartialEq, Eq, Structural)]
pub enum Phase {
    /// The staging buffer is unmapped. A copy into it may be issued.
    Idle,
    /// A copy was issued and the mapping asked for. The device has not
    /// answered yet, and the buffer must not be read.
    Pending,
    /// The device has written the records and mapped the buffer. The records
    /// may be read.
    Mapped,
    /// The device reported that the mapping failed. Nothing can be read, and
    /// no further frame can be begun.
    Failed,
}

/// Why a step of the protocol was refused.
#[derive(Clone, Copy, Debug, PartialEq, Eq, Structural)]
pub enum SyncError {
    /// The step does not follow the step taken last.
    OutOfTurn,
    /// The work list holds more records than the staging buffer has room for.
    CapacityExceeded,
    /// The device reported that mapping the staging buffer failed.
    MapFailed,
}

/// What a [`ReadbackSync`] holds.
pub struct SyncState {
    /// Where the protocol stands.
    pub phase: Phase,
    /// The number of records that the staging buffer has room for.
    pub capacity: nat,
    /// The number of records at the start of the staging buffer that belong
    /// to this frame.
    pub valid_records: nat,
}

/// The state of the readback protocol for one staging buffer.
pub struct ReadbackSync {
    phase: Phase,
    capacity: usize,
    valid_records: usize,
}

impl View for ReadbackSync {
    type V = SyncState;

    closed spec fn view(&self) -> SyncState {
        SyncState {
            phase: self.phase,
            capacity: self.capacity as nat,
            valid_records: self.valid_records as nat,
        }
    }
}

impl ReadbackSync {
    /// Whether the state is well formed: the records of the frame fit the
    /// staging buffer, and the buffer's size in bytes fits a device address.
    pub open spec fn wf(&self) -> bool {
        &&& self@.valid_records <= self@.capacity
        &&& self@.capacity * PIXEL_BYTES <= u64::MAX
    }

    /// Creates the state for a staging buffer with room for `capacity`
    /// records, unmapped.
    pub fn new(capacity: usize) -> (sync: Self)
        requires
            capacity * PIXEL_BYTES <= u64::MAX,
        ensures
            sync.wf(),
            sync@ == (SyncState { phase: Phase::Idle, capacity: capacity as nat, valid_records: 0 }),
    {
        ReadbackSync { phase: Phase::Idle, capacity, valid_records: 0 }
    }

    /// Begins the readback of a frame whose work list holds `total_work`
    /// records, and gives the number of bytes to copy to the staging buffer.
    ///
    /// This is refused while the buffer of an earlier frame is not unmapped,
    /// and where the work list does not fit the buffer.
    pub fn begin(&mut self, total_work: usize) -> (result: Result<u64, SyncError>)
        requires
            old(self).wf(),
        ensures
            final(self).wf(),
            match result {
                Ok(copy_size) => {
                    &&& old(self)@.phase == Phase::Idle
                    &&& total_work <= old(self)@.capacity
                    &&& copy_size == total_work * PIXEL_BYTES
                    &&& final(self)@ == (SyncState {
                        phase: Phase::Pending,
                        valid_records: total_work as nat,
                        ..old(self)@
                    })
                },
                Err(error) => {
                    &&& final(self)@ == old(self)@
                    &&& error == if old(self)@.phase != Phase::Idle {
                        SyncError::OutOfTurn
                    } else {
                        SyncError::CapacityExceeded
                    }
                    &&& old(self)@.phase != Phase::Idle || total_work > old(self)@.capacity
                },
            },
    {
        match self.phase {
            Phase::Idle => {
                if total_work > self.capacity {
                    return Err(SyncError::CapacityExceeded);
                }
                assert(total_work * PIXEL_BYTES <= self.capacity * PIXEL_BYTES) by (nonlinear_arith)
                    requires
                        total_work <= self.capacity,
                        PIXEL_BYTES >= 0,
                ;
                self.phase = Phase::Pending;
                self.valid_records = total_work;
                Ok((total_work as u64) * PIXEL_BYTES)
            },
            _ => Err(SyncError::OutOfTurn),
        }
    }

    /// Takes the device's answer to the request for a mapping. After a good
    /// answer the records may be read. A bad answer is passed on as an error,
    /// and ends the protocol.
    pub fn map_completed(&mut self, succeeded: bool) -> (result: Result<(), SyncError>)
        requires
            old(self).wf(),
        ensures
            final(self).wf(),
            match result {
                Ok(()) => {
                    &&& old(self)@.phase == Phase::Pending
                    &&& succeeded
                    &&& final(self)@ == (SyncState { phase: Phase::Mapped, ..old(self)@ })
                },
                Err(error) => if old(self)@.phase == Phase::Pending {
                    &&& !succeeded
                    &&& error == SyncError::MapFailed
                    &&& final(self)@ == (SyncState { phase: Phase::Failed, ..old(self)@ })
                } else {
                    &&& error == SyncError::OutOfTurn
                    &&& final(self)@ == old(self)@
                },
            },
    {
        match self.phase {
            Phase::Pending => {
                if succeeded {
                    self.phase = Phase::Mapped;
                    Ok(())
                } else {
                    self.phase = Phase::Failed;
                    Err(SyncError::MapFailed)
                }
            },
            _ => Err(SyncError::OutOfTurn),
        }
    }

    /// Whether the frame loop has to go on waiting: the device has not
    /// answered yet.
    pub fn is_pending(&self) -> (pending: bool)
        ensures
            pending == (self@.phase == Phase::Pending),
    {
        match self.phase {
            Phase::Pending => true,
            _ => false,
        }
    }

    /// Whether the device reported a failure.
    pub fn has_failed(&self) -> (failed: bool)
        ensures
            failed == (self@.phase == Phase::Failed),
    {
        match self.phase {
            Phase::Failed => true,
            _ => false,
        }
    }

    /// The number of records that may be read from the start of the staging
    /// buffer: those of this frame, once the device has mapped the buffer,
    /// and none before.
    pub fn readable_records(&self) -> (records: Option<usize>)
        ensures
            records == if self@.phase == Phase::Mapped {
                Some(self@.valid_records as usize)
            } else {
                None
            },
    {
        match self.phase {
            Phase::Mapped => Some(self.valid_records),
            _ => None,
        }
    }

    /// Notes that the staging buffer was unmapped after reading. The next
    /// frame may then begin.
    pub fn release(&mut self) -> (result: Result<(), SyncError>)
        requires
            old(self).wf(),
        ensures
            final(self).wf(),
            match result {
                Ok(()) => {
                    &&& old(self)@.phase == Phase::Mapped
                    &&& final(self)@ == (SyncState {
                        phase: Phase::Idle,
                        valid_records: 0,
                        ..old(self)@
                    })
                },
                Err(error) => {
                    &&& old(self)@.phase != Phase::Mapped
                    &&& error == SyncError::OutOfTurn
                    &&& final(self)@ == old(self)@
                },
            },
    {
        match self.phase {
            Phase::Mapped => {
                self.phase = Phase::Idle;
                self.valid_records = 0;
                Ok(())
            },
            _ => Err(SyncError::OutOfTurn),
        }
    }
}

} // verus!
