use feuer::data_file::{
    check_range, checked_length, finish_buffer, outcome_labels, read_buffer, settle, Direction,
    OpenReply, OpenStage, Opening, Transfer, TransferError, TransferReply, DATA_FILE_NAME,
    LOCK_FILE_NAME,
};
use feuer::io_error::{Error, ErrorKind, IoOperation};
use feuer::io_metrics::IoMetrics;
use std::path::PathBuf;

fn os_error() -> std::io::Error {
    std::io::Error::new(std::io::ErrorKind::Other, "broken")
}

#[test]
fn public_io_types_are_send_sync_static() {
    fn assert_send_sync_static<T: Send + Sync + 'static>() {}

    assert_send_sync_static::<Error>();
    assert_send_sync_static::<Opening>();
    assert_send_sync_static::<Transfer>();
}

#[test]
fn rejects_every_range_that_is_not_fully_inside_capacity() {
    let read_error = Transfer::begin(Direction::Read, 15, 2, 16).err().unwrap();
    assert_eq!(read_error.kind(), ErrorKind::OutOfBounds);
    assert!(matches!(
        read_error,
        Error::OutOfBounds {
            operation: IoOperation::Read,
            offset: 15,
            length: 2,
            capacity: 16,
        }
    ));

    let write_error = Transfer::begin(Direction::Write, u64::MAX, 2, 16)
        .err()
        .unwrap();
    assert_eq!(write_error.kind(), ErrorKind::OutOfBounds);
    assert!(matches!(
        write_error,
        Error::OutOfBounds {
            operation: IoOperation::Write,
            offset: u64::MAX,
            length: 2,
            capacity: 16,
        }
    ));

    let nothing = Transfer::begin(Direction::Read, 16, 0, 16).ok().unwrap();
    assert_eq!(nothing.next_call(), None);
}

#[test]
fn fails_a_short_completion_instead_of_returning_uncertain_bytes() {
    let transfer = Transfer::begin(Direction::Read, 0, 8, 16).ok().unwrap();
    assert_eq!(transfer.next_call(), Some((0, 0)));
    let transfer = transfer.advance(TransferReply::Moved(4)).ok().unwrap();
    assert_eq!(transfer.next_call(), Some((4, 4)));
    assert!(matches!(
        transfer.advance(TransferReply::Moved(0)),
        Err(TransferError::UnexpectedEof)
    ));
}

#[test]
fn transfers_go_on_after_partial_and_interrupted_calls() {
    let transfer = Transfer::begin(Direction::Write, 100, 5, 200).ok().unwrap();
    let transfer = transfer.advance(TransferReply::Interrupted).ok().unwrap();
    assert_eq!(transfer.next_call(), Some((100, 0)));
    let transfer = transfer.advance(TransferReply::Moved(2)).ok().unwrap();
    assert_eq!(transfer.next_call(), Some((102, 2)));
    let transfer = transfer.advance(TransferReply::Moved(3)).ok().unwrap();
    assert_eq!(transfer.next_call(), None);

    let transfer = Transfer::begin(Direction::Write, 0, 1, 1).ok().unwrap();
    assert!(matches!(
        transfer.advance(TransferReply::Moved(0)),
        Err(TransferError::WriteZero)
    ));
    let transfer = Transfer::begin(Direction::Write, 0, 1, 1).ok().unwrap();
    assert!(matches!(
        transfer.advance(TransferReply::Failed(os_error())),
        Err(TransferError::Failed(_))
    ));
}

#[test]
fn zero_capacity_is_an_invalid_configuration() {
    let error = Opening::begin(PathBuf::from("cache"), 0).err().unwrap();
    assert_eq!(error.kind(), ErrorKind::InvalidConfiguration);
    assert_eq!(error.operation(), IoOperation::OpenDataFile);
}

#[test]
fn openings_perform_their_operations_in_order_on_the_right_paths() {
    let directory = PathBuf::from("some").join("cache");
    let lock_path = directory.join(LOCK_FILE_NAME);
    let data_path = directory.join(DATA_FILE_NAME);
    let expected = [
        (OpenStage::CreateDirectory, &directory),
        (OpenStage::OpenLockFile, &lock_path),
        (OpenStage::LockDirectory, &lock_path),
        (OpenStage::OpenDataFile, &data_path),
        (OpenStage::InspectDataFile, &data_path),
        (OpenStage::ResizeDataFile, &data_path),
    ];
    let mut opening = Opening::begin(directory.clone(), 31).ok().unwrap();
    for (stage, path) in expected {
        assert_eq!(opening.stage(), stage);
        assert_eq!(opening.path(), path);
        assert_eq!(opening.capacity(), 31);
        opening = opening.advance(OpenReply::Succeeded).ok().unwrap();
    }
    assert_eq!(opening.stage(), OpenStage::Opened);
    assert_eq!(opening.path(), &data_path);
}

fn opening_at(stage: OpenStage) -> Opening {
    let mut opening = Opening::begin(PathBuf::from("cache"), 8).ok().unwrap();
    while opening.stage() != stage {
        opening = opening.advance(OpenReply::Succeeded).ok().unwrap();
    }
    opening
}

#[test]
fn failed_openings_name_their_operation_and_path() {
    let cases = [
        (OpenStage::CreateDirectory, IoOperation::CreateDirectory),
        (OpenStage::OpenLockFile, IoOperation::OpenLockFile),
        (OpenStage::LockDirectory, IoOperation::LockDirectory),
        (OpenStage::OpenDataFile, IoOperation::OpenDataFile),
        (OpenStage::InspectDataFile, IoOperation::InspectDataFile),
        (OpenStage::ResizeDataFile, IoOperation::ResizeDataFile),
    ];
    for (stage, operation) in cases {
        let opening = opening_at(stage);
        let expected = opening.path().clone();
        let error = opening.advance(OpenReply::Failed(os_error())).err().unwrap();
        assert_eq!(error.kind(), ErrorKind::Io);
        assert_eq!(error.operation(), operation);
        let Error::Io { path, .. } = error else {
            panic!("an operating-system failure must be an I/O error");
        };
        assert_eq!(path, expected);
    }
}

#[test]
fn refused_openings_are_already_open_or_not_a_regular_file() {
    let error = opening_at(OpenStage::LockDirectory)
        .advance(OpenReply::Refused)
        .err()
        .unwrap();
    assert_eq!(error.kind(), ErrorKind::AlreadyOpen);
    assert_eq!(error.operation(), IoOperation::LockDirectory);
    assert!(matches!(error, Error::AlreadyOpen { directory } if directory == PathBuf::from("cache")));

    let error = opening_at(OpenStage::InspectDataFile)
        .advance(OpenReply::Refused)
        .err()
        .unwrap();
    assert_eq!(error.kind(), ErrorKind::InvalidConfiguration);
    assert_eq!(error.operation(), IoOperation::InspectDataFile);
    let data_path = PathBuf::from("cache").join("data");
    assert!(matches!(error, Error::InvalidDataFile { path } if path == data_path));
}

#[test]
fn operations_and_kinds_have_stable_labels() {
    let operations = [
        (IoOperation::CreateDirectory, "create_directory"),
        (IoOperation::OpenLockFile, "open_lock_file"),
        (IoOperation::LockDirectory, "lock_directory"),
        (IoOperation::OpenDataFile, "open_data_file"),
        (IoOperation::InspectDataFile, "inspect_data_file"),
        (IoOperation::ResizeDataFile, "resize_data_file"),
        (IoOperation::Read, "read"),
        (IoOperation::Write, "write"),
        (IoOperation::SyncData, "sync_data"),
        (IoOperation::SyncAll, "sync_all"),
    ];
    for (operation, label) in operations {
        assert_eq!(operation.as_str(), label);
    }
    let kinds = [
        (ErrorKind::InvalidConfiguration, "invalid_configuration"),
        (ErrorKind::AlreadyOpen, "already_open"),
        (ErrorKind::OutOfBounds, "out_of_bounds"),
        (ErrorKind::Allocation, "allocation"),
        (ErrorKind::Io, "io"),
        (ErrorKind::Task, "task"),
    ];
    for (kind, label) in kinds {
        assert_eq!(kind.as_str(), label);
    }
}

#[test]
fn errors_without_an_operation_of_their_own_have_a_fixed_one() {
    assert_eq!(Error::InvalidCapacity.operation(), IoOperation::OpenDataFile);
    assert_eq!(Error::RuntimeUnavailable.operation(), IoOperation::OpenDataFile);
    assert_eq!(Error::RuntimeUnavailable.kind(), ErrorKind::Task);
    let overflow = Error::LengthOverflow {
        operation: IoOperation::Write,
        length: 3,
    };
    assert_eq!(overflow.kind(), ErrorKind::OutOfBounds);
    assert_eq!(overflow.operation(), IoOperation::Write);
}

#[test]
fn read_buffers_are_zeroed_and_report_failed_allocations() {
    assert_eq!(read_buffer(5).unwrap(), vec![0; 5]);
    assert_eq!(read_buffer(0).unwrap(), Vec::<u8>::new());

    let error = read_buffer(usize::MAX).unwrap_err();
    assert_eq!(error.kind(), ErrorKind::Allocation);
    assert_eq!(error.operation(), IoOperation::Read);

    let failure = Vec::<u8>::new().try_reserve_exact(usize::MAX);
    assert!(matches!(
        finish_buffer(7, failure.map(|_| Vec::new())),
        Err(Error::Allocation { length: 7, .. })
    ));
    assert_eq!(finish_buffer(2, Ok(Vec::new())).unwrap(), vec![0, 0]);
}

#[test]
fn lengths_and_bounds_are_checked_exactly() {
    assert_eq!(checked_length(IoOperation::Read, 9).unwrap(), 9);
    assert!(check_range(IoOperation::Read, 3, 13, 16).is_ok());
    assert!(check_range(IoOperation::Read, 4, 13, 16).is_err());
    assert!(check_range(IoOperation::Read, u64::MAX, 1, u64::MAX).is_err());
}

#[test]
fn lost_tasks_are_reported_with_their_operation() {
    let runtime = tokio::runtime::Builder::new_current_thread().build().unwrap();
    let task = runtime.spawn(std::future::pending::<Result<(), Error>>());
    task.abort();
    let joined = runtime.block_on(task);
    assert!(joined.is_err());

    let error = settle(IoOperation::SyncAll, joined).unwrap_err();
    assert_eq!(error.kind(), ErrorKind::Task);
    assert_eq!(error.operation(), IoOperation::SyncAll);
    let Error::Task { source, .. } = error else {
        panic!("a lost task is a task error");
    };
    assert!(source.is_cancelled());

    assert_eq!(settle(IoOperation::Read, Ok(Ok(4))).unwrap(), 4);
    assert!(settle::<u8>(IoOperation::Read, Ok(Err(Error::InvalidCapacity))).is_err());
}

#[test]
fn traces_label_outcomes_and_error_kinds() {
    assert_eq!(outcome_labels(&Ok::<u8, Error>(1)), ("success", None));
    assert_eq!(
        outcome_labels(&Err::<u8, Error>(Error::InvalidCapacity)),
        ("error", Some("invalid_configuration"))
    );
}

#[test]
fn operations_are_counted_by_outcome() {
    let mut metrics = IoMetrics::noop();

    metrics.record(IoOperation::Read, 17, true);
    metrics.record(IoOperation::Write, 0, false);
    metrics.record(IoOperation::SyncData, 0, true);
    metrics.record(IoOperation::SyncAll, 0, true);
    metrics.record(IoOperation::OpenDataFile, 3, true);

    assert_eq!((metrics.read.success, metrics.read.error, metrics.read.bytes), (1, 0, 17));
    assert_eq!((metrics.write.success, metrics.write.error, metrics.write.bytes), (0, 1, 0));
    assert_eq!((metrics.sync_data.success, metrics.sync_all.success), (1, 1));
}

/// Moves `buffer` to or from `file`, at most three bytes per call.
fn transfer(direction: Direction, file: &mut [u8], offset: u64, buffer: &mut [u8]) {
    let capacity = file.len() as u64;
    let mut transfer = Transfer::begin(direction, offset, buffer.len(), capacity)
        .ok()
        .unwrap();
    while let Some((at, done)) = transfer.next_call() {
        let at = at as usize;
        let count = transfer.remaining().min(3);
        match direction {
            Direction::Read => buffer[done..done + count].copy_from_slice(&file[at..at + count]),
            Direction::Write => file[at..at + count].copy_from_slice(&buffer[done..done + count]),
        }
        transfer = transfer.advance(TransferReply::Moved(count)).ok().unwrap();
    }
}

#[test]
fn reads_only_the_exact_arbitrary_requested_range() {
    let mut file = vec![0; 64 * 1024];
    let mut payload = b"unaligned positional payload".to_vec();
    transfer(Direction::Write, &mut file, 3, &mut payload);

    let mut result = read_buffer(10).unwrap();
    transfer(Direction::Read, &mut file, 13, &mut result);

    assert_eq!(result, b"positional");
    assert_eq!(result.len(), 10);
    assert_eq!(file.len(), 64 * 1024);
    assert_eq!(&file[..3], &[0; 3]);
    assert!(file[31..].iter().all(|byte| *byte == 0));
}

/// Runs an opening against a lock that is granted only without holders, and
/// returns the operations that it performed.
fn open_beside(holders: usize) -> (Vec<OpenStage>, Result<Opening, Error>) {
    let mut performed = Vec::new();
    let mut opening = Opening::begin(PathBuf::from("cache"), 16).ok().unwrap();
    while opening.stage() != OpenStage::Opened {
        performed.push(opening.stage());
        let refused = opening.stage() == OpenStage::LockDirectory && holders > 0;
        let reply = if refused {
            OpenReply::Refused
        } else {
            OpenReply::Succeeded
        };
        opening = match opening.advance(reply) {
            Ok(opening) => opening,
            Err(error) => return (performed, Err(error)),
        };
    }
    (performed, Ok(opening))
}

#[test]
fn a_directory_with_a_live_holder_is_already_open() {
    for holders in [2, 1] {
        let (performed, result) = open_beside(holders);
        let error = result.err().unwrap();
        assert_eq!(error.kind(), ErrorKind::AlreadyOpen);
        assert!(
            matches!(error, Error::AlreadyOpen { directory } if directory == PathBuf::from("cache"))
        );
        assert_eq!(
            performed,
            vec![
                OpenStage::CreateDirectory,
                OpenStage::OpenLockFile,
                OpenStage::LockDirectory
            ]
        );
    }
    let (performed, result) = open_beside(0);
    assert!(result.is_ok());
    assert_eq!(performed.len(), 6);
}

#[test]
fn reopening_applies_the_new_explicit_fixed_capacity() {
    for capacity in [16, 31] {
        let mut opening = Opening::begin(PathBuf::from("cache"), capacity).ok().unwrap();
        while opening.stage() != OpenStage::ResizeDataFile {
            opening = opening.advance(OpenReply::Succeeded).ok().unwrap();
        }
        assert_eq!(opening.capacity(), capacity);
    }
}
