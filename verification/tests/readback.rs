use mandelbrot::readback::{ReadbackSync, SyncError};

#[test]
fn a_frame_runs_through_the_protocol() {
    let mut sync = ReadbackSync::new(4);
    assert!(!sync.is_pending());
    assert_eq!(sync.readable_records(), None);

    assert_eq!(sync.begin(3), Ok(72));
    assert!(sync.is_pending());
    assert_eq!(sync.readable_records(), None);

    assert_eq!(sync.map_completed(true), Ok(()));
    assert!(!sync.is_pending());
    assert!(!sync.has_failed());
    assert_eq!(sync.readable_records(), Some(3));

    assert_eq!(sync.release(), Ok(()));
    assert_eq!(sync.readable_records(), None);

    assert_eq!(sync.begin(1), Ok(24));
    assert_eq!(sync.map_completed(true), Ok(()));
    assert_eq!(sync.readable_records(), Some(1));
}

#[test]
fn a_failed_mapping_ends_the_protocol() {
    let mut sync = ReadbackSync::new(4);
    assert_eq!(sync.begin(4), Ok(96));
    assert_eq!(sync.map_completed(false), Err(SyncError::MapFailed));
    assert!(sync.has_failed());
    assert!(!sync.is_pending());
    assert_eq!(sync.readable_records(), None);
    assert_eq!(sync.release(), Err(SyncError::OutOfTurn));
    assert_eq!(sync.begin(1), Err(SyncError::OutOfTurn));
    assert_eq!(sync.map_completed(true), Err(SyncError::OutOfTurn));
    assert!(sync.has_failed());
}

#[test]
fn steps_out_of_turn_are_refused() {
    let mut sync = ReadbackSync::new(4);
    assert_eq!(sync.map_completed(true), Err(SyncError::OutOfTurn));
    assert_eq!(sync.release(), Err(SyncError::OutOfTurn));
    assert_eq!(sync.begin(2), Ok(48));
    assert_eq!(sync.begin(2), Err(SyncError::OutOfTurn));
    assert_eq!(sync.release(), Err(SyncError::OutOfTurn));
    assert!(sync.is_pending());
    assert_eq!(sync.map_completed(true), Ok(()));
    // The buffer of this frame is still mapped.
    assert_eq!(sync.begin(2), Err(SyncError::OutOfTurn));
    assert_eq!(sync.map_completed(true), Err(SyncError::OutOfTurn));
    assert_eq!(sync.readable_records(), Some(2));
}

#[test]
fn a_work_list_larger_than_the_buffer_is_refused() {
    let mut sync = ReadbackSync::new(4);
    assert_eq!(sync.begin(5), Err(SyncError::CapacityExceeded));
    assert!(!sync.is_pending());
    assert_eq!(sync.begin(4), Ok(96));
}

#[test]
fn an_empty_work_list_copies_nothing() {
    let mut sync = ReadbackSync::new(0);
    assert_eq!(sync.begin(0), Ok(0));
    assert_eq!(sync.map_completed(true), Ok(()));
    assert_eq!(sync.readable_records(), Some(0));
    assert_eq!(sync.release(), Ok(()));
}
