//! Data-file operations and their errors.

use std::collections::TryReserveError;
use std::path::PathBuf;

use vstd::prelude::*;

verus! {

/// An operating-system error.
#[verifier::external_type_specification]
#[verifier::external_body]
pub struct ExIoError(std::io::Error);

/// Why a runtime's task did not return a result.
#[verifier::external_type_specification]
#[verifier::external_body]
pub struct ExJoinError(tokio::task::JoinError);

/// One bounded data-file operation.
#[derive(Clone, Copy, Debug, PartialEq, Eq, Hash, Structural)]
pub enum IoOperation {
    /// Create the cache directory.
    CreateDirectory,
    /// Open the cache-directory lock file.
    OpenLockFile,
    /// Acquire exclusive ownership of the cache directory.
    LockDirectory,
    /// Open the raw payload data file.
    OpenDataFile,
    /// Inspect the raw payload data file.
    InspectDataFile,
    /// Set the raw payload data file to its configured capacity.
    ResizeDataFile,
    /// Positionally read payload bytes.
    Read,
    /// Positionally write payload bytes.
    Write,
    /// Synchronize payload data without requiring all file metadata.
    SyncData,
    /// Synchronize payload data and file metadata.
    SyncAll,
}

impl IoOperation {
    /// The label of the operation.
    pub open spec fn label(self) -> Seq<char> {
        match self {
            IoOperation::CreateDirectory => "create_directory"@,
            IoOperation::OpenLockFile => "open_lock_file"@,
            IoOperation::LockDirectory => "lock_directory"@,
            IoOperation::OpenDataFile => "open_data_file"@,
            IoOperation::InspectDataFile => "inspect_data_file"@,
            IoOperation::ResizeDataFile => "resize_data_file"@,
            IoOperation::Read => "read"@,
            IoOperation::Write => "write"@,
            IoOperation::SyncData => "sync_data"@,
            IoOperation::SyncAll => "sync_all"@,
        }
    }

    /// Returns the stable bounded label used by traces and metrics.
    pub fn as_str(self) -> (label: &'static str)
        ensures
            label@ == self.label(),
            self == IoOperation::CreateDirectory ==> label@ == "create_directory"@,
            self == IoOperation::OpenLockFile ==> label@ == "open_lock_file"@,
            self == IoOperation::LockDirectory ==> label@ == "lock_directory"@,
            self == IoOperation::OpenDataFile ==> label@ == "open_data_file"@,
            self == IoOperation::InspectDataFile ==> label@ == "inspect_data_file"@,
            self == IoOperation::ResizeDataFile ==> label@ == "resize_data_file"@,
            self == IoOperation::Read ==> label@ == "read"@,
            self == IoOperation::Write ==> label@ == "write"@,
            self == IoOperation::SyncData ==> label@ == "sync_data"@,
            self == IoOperation::SyncAll ==> label@ == "sync_all"@,
    {
        match self {
            IoOperation::CreateDirectory => "create_directory",
            IoOperation::OpenLockFile => "open_lock_file",
            IoOperation::LockDirectory => "lock_directory",
            IoOperation::OpenDataFile => "open_data_file",
            IoOperation::InspectDataFile => "inspect_data_file",
            IoOperation::ResizeDataFile => "resize_data_file",
            IoOperation::Read => "read",
            IoOperation::Write => "write",
            IoOperation::SyncData => "sync_data",
            IoOperation::SyncAll => "sync_all",
        }
    }
}

/// A stable category for a range-storage error.
#[derive(Clone, Copy, Debug, PartialEq, Eq, Hash, Structural)]
pub enum ErrorKind {
    /// The fixed-file configuration is invalid.
    InvalidConfiguration,
    /// Another cache instance owns the cache directory.
    AlreadyOpen,
    /// A positional operation exceeds the configured file capacity.
    OutOfBounds,
    /// A request-sized read buffer could not be allocated.
    Allocation,
    /// An operating-system file operation failed.
    Io,
    /// The blocking I/O task failed before returning its result.
    Task,
}

impl ErrorKind {
    /// The label of the category.
    pub open spec fn label(self) -> Seq<char> {
        match self {
            ErrorKind::InvalidConfiguration => "invalid_configuration"@,
            ErrorKind::AlreadyOpen => "already_open"@,
            ErrorKind::OutOfBounds => "out_of_bounds"@,
            ErrorKind::Allocation => "allocation"@,
            ErrorKind::Io => "io"@,
            ErrorKind::Task => "task"@,
        }
    }

    /// Returns the stable bounded label used by traces and metrics.
    pub fn as_str(self) -> (label: &'static str)
        ensures
            label@ == self.label(),
            self == ErrorKind::InvalidConfiguration ==> label@ == "invalid_configuration"@,
            self == ErrorKind::AlreadyOpen ==> label@ == "already_open"@,
            self == ErrorKind::OutOfBounds ==> label@ == "out_of_bounds"@,
            self == ErrorKind::Allocation ==> label@ == "allocation"@,
            self == ErrorKind::Io ==> label@ == "io"@,
            self == ErrorKind::Task ==> label@ == "task"@,
    {
        match self {
            ErrorKind::InvalidConfiguration => "invalid_configuration",
            ErrorKind::AlreadyOpen => "already_open",
            ErrorKind::OutOfBounds => "out_of_bounds",
            ErrorKind::Allocation => "allocation",
            ErrorKind::Io => "io",
            ErrorKind::Task => "task",
        }
    }
}

/// An error from the fixed-capacity positional data file.
#[derive(Debug)]
#[non_exhaustive]
pub enum Error {
    /// A zero-capacity data file was requested.
    InvalidCapacity,
    /// Another process or cache instance holds the directory lock.
    AlreadyOpen {
        /// The exclusively owned cache directory.
        directory: PathBuf,
    },
    /// The configured data path is not a regular file.
    InvalidDataFile {
        /// The rejected data-file path.
        path: PathBuf,
    },
    /// A positional request does not fit in the configured capacity.
    OutOfBounds {
        /// The rejected operation.
        operation: IoOperation,
        /// The requested file offset.
        offset: u64,
        /// The requested byte length.
        length: u64,
        /// The configured data-file capacity.
        capacity: u64,
    },
    /// A platform buffer length cannot be represented as a file length.
    LengthOverflow {
        /// The rejected operation.
        operation: IoOperation,
        /// The platform buffer length.
        length: usize,
    },
    /// Allocation of an exact read result failed.
    Allocation {
        /// The requested result length.
        length: usize,
        /// The allocation failure.
        source: TryReserveError,
    },
    /// An operating-system file operation failed.
    Io {
        /// The failed operation.
        operation: IoOperation,
        /// The path on which the operation was attempted.
        path: PathBuf,
        /// The operating-system error.
        source: std::io::Error,
    },
    /// No compatible runtime was active when the file was opened.
    RuntimeUnavailable,
    /// A blocking I/O task failed before returning its operation result.
    Task {
        /// The operation run by the failed task.
        operation: IoOperation,
        /// The runtime task failure.
        source: tokio::task::JoinError,
    },
}

impl Error {
    /// The category of the error.
    pub open spec fn category(&self) -> ErrorKind {
        match self {
            Error::InvalidCapacity => ErrorKind::InvalidConfiguration,
            Error::InvalidDataFile { .. } => ErrorKind::InvalidConfiguration,
            Error::AlreadyOpen { .. } => ErrorKind::AlreadyOpen,
            Error::OutOfBounds { .. } => ErrorKind::OutOfBounds,
            Error::LengthOverflow { .. } => ErrorKind::OutOfBounds,
            Error::Allocation { .. } => ErrorKind::Allocation,
            Error::Io { .. } => ErrorKind::Io,
            Error::RuntimeUnavailable => ErrorKind::Task,
            Error::Task { .. } => ErrorKind::Task,
        }
    }

    /// The operation that failed.
    pub open spec fn failed_operation(&self) -> IoOperation {
        match self {
            Error::InvalidCapacity => IoOperation::OpenDataFile,
            Error::AlreadyOpen { .. } => IoOperation::LockDirectory,
            Error::InvalidDataFile { .. } => IoOperation::InspectDataFile,
            Error::RuntimeUnavailable => IoOperation::OpenDataFile,
            Error::OutOfBounds { operation, .. } => *operation,
            Error::LengthOverflow { operation, .. } => *operation,
            Error::Io { operation, .. } => *operation,
            Error::Task { operation, .. } => *operation,
            Error::Allocation { .. } => IoOperation::Read,
        }
    }

    /// Returns the stable category of this error.
    pub fn kind(&self) -> (kind: ErrorKind)
        ensures
            kind == self.category(),
            kind == ErrorKind::InvalidConfiguration <==> self is InvalidCapacity
                || self is InvalidDataFile,
            kind == ErrorKind::AlreadyOpen <==> self is AlreadyOpen,
            kind == ErrorKind::OutOfBounds <==> self is OutOfBounds || self is LengthOverflow,
            kind == ErrorKind::Allocation <==> self is Allocation,
            kind == ErrorKind::Io <==> self is Io,
            kind == ErrorKind::Task <==> self is RuntimeUnavailable || self is Task,
    {
        match self {
            Error::InvalidCapacity | Error::InvalidDataFile { .. } => ErrorKind::InvalidConfiguration,
            Error::AlreadyOpen { .. } => ErrorKind::AlreadyOpen,
            Error::OutOfBounds { .. } | Error::LengthOverflow { .. } => ErrorKind::OutOfBounds,
            Error::Allocation { .. } => ErrorKind::Allocation,
            Error::Io { .. } => ErrorKind::Io,
            Error::RuntimeUnavailable | Error::Task { .. } => ErrorKind::Task,
        }
    }

    /// Returns the operation that failed.
    pub fn operation(&self) -> (operation: IoOperation)
        ensures
            operation == self.failed_operation(),
            self is InvalidCapacity || self is RuntimeUnavailable ==> operation
                == IoOperation::OpenDataFile,
            self is AlreadyOpen ==> operation == IoOperation::LockDirectory,
            self is InvalidDataFile ==> operation == IoOperation::InspectDataFile,
            self is Allocation ==> operation == IoOperation::Read,
            self is OutOfBounds ==> operation == self->OutOfBounds_operation,
            self is LengthOverflow ==> operation == self->LengthOverflow_operation,
            self is Io ==> operation == self->Io_operation,
            self is Task ==> operation == self->Task_operation,
    {
        match self {
            Error::InvalidCapacity => IoOperation::OpenDataFile,
            Error::AlreadyOpen { .. } => IoOperation::LockDirectory,
            Error::InvalidDataFile { .. } => IoOperation::InspectDataFile,
            Error::RuntimeUnavailable => IoOperation::OpenDataFile,
            Error::OutOfBounds { operation, .. }
            | Error::LengthOverflow { operation, .. }
            | Error::Io { operation, .. }
            | Error::Task { operation, .. } => *operation,
            Error::Allocation { .. } => IoOperation::Read,
        }
    }
}

/// Different operations have different labels.
pub proof fn operation_labels_are_distinct(one: IoOperation, other: IoOperation)
    requires
        one.label() == other.label(),
    ensures
        one == other,
{
    reveal_strlit("create_directory");
    reveal_strlit("open_lock_file");
    reveal_strlit("lock_directory");
    reveal_strlit("open_data_file");
    reveal_strlit("inspect_data_file");
    reveal_strlit("resize_data_file");
    reveal_strlit("read");
    reveal_strlit("write");
    reveal_strlit("sync_data");
    reveal_strlit("sync_all");
    assert("create_directory"@.len() == 16 && "create_directory"@[0] == 'c');
    assert("resize_data_file"@.len() == 16 && "resize_data_file"@[0] == 'r');
    assert("open_lock_file"@.len() == 14 && "open_lock_file"@[0] == 'o' && "open_lock_file"@[5]
        == 'l');
    assert("open_data_file"@.len() == 14 && "open_data_file"@[0] == 'o' && "open_data_file"@[5]
        == 'd');
    assert("lock_directory"@.len() == 14 && "lock_directory"@[0] == 'l');
    assert("inspect_data_file"@.len() == 17);
    assert("read"@.len() == 4);
    assert("write"@.len() == 5);
    assert("sync_data"@.len() == 9);
    assert("sync_all"@.len() == 8);
}

/// Different categories have different labels.
pub proof fn kind_labels_are_distinct(one: ErrorKind, other: ErrorKind)
    requires
        one.label() == other.label(),
    ensures
        one == other,
{
    reveal_strlit("invalid_configuration");
    reveal_strlit("already_open");
    reveal_strlit("out_of_bounds");
    reveal_strlit("allocation");
    reveal_strlit("io");
    reveal_strlit("task");
    assert("invalid_configuration"@.len() == 21);
    assert("already_open"@.len() == 12);
    assert("out_of_bounds"@.len() == 13);
    assert("allocation"@.len() == 10);
    assert("io"@.len() == 2);
    assert("task"@.len() == 4);
}

} // verus!
