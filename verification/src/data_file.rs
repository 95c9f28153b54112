//! The decisions behind one exclusively owned, fixed-capacity data file.
//!
//! The file operations themselves are the caller's: a value here says which
//! operation comes next and takes back what the operation returned.

use std::collections::TryReserveError;
use std::path::PathBuf;

use vstd::prelude::*;

use crate::io_error::{Error, IoOperation};

verus! {

/// The name of the raw payload file within the cache directory.
pub const DATA_FILE_NAME: &'static str = "data";

/// The name of the lock file within the cache directory.
pub const LOCK_FILE_NAME: &'static str = ".feuer.lock";

/// The path of an entry of a directory.
pub uninterp spec fn entry_path(directory: PathBuf, name: Seq<char>) -> PathBuf;

/// `Path::join` yields the path of `name` within `directory`, which depends on
/// the two alone.
#[verifier::external_body]
fn join(directory: &PathBuf, name: &str) -> (path: PathBuf)
    ensures
        path == entry_path(*directory, name@),
{
    directory.join(name)
}

/// Where an opening stands: the operation that comes next.
#[derive(Clone, Copy, Debug, PartialEq, Eq, Structural)]
pub enum OpenStage {
    CreateDirectory,
    OpenLockFile,
    LockDirectory,
    OpenDataFile,
    InspectDataFile,
    ResizeDataFile,
    /// Nothing is left to do.
    Opened,
}

impl OpenStage {
    /// The stage after this one.
    pub open spec fn following(self) -> OpenStage {
        match self {
            OpenStage::CreateDirectory => OpenStage::OpenLockFile,
            OpenStage::OpenLockFile => OpenStage::LockDirectory,
            OpenStage::LockDirectory => OpenStage::OpenDataFile,
            OpenStage::OpenDataFile => OpenStage::InspectDataFile,
            OpenStage::InspectDataFile => OpenStage::ResizeDataFile,
            OpenStage::ResizeDataFile => OpenStage::Opened,
            OpenStage::Opened => OpenStage::Opened,
        }
    }

    /// The operation that the stage performs.
    pub open spec fn operation(self) -> IoOperation {
        match self {
            OpenStage::CreateDirectory => IoOperation::CreateDirectory,
            OpenStage::OpenLockFile => IoOperation::OpenLockFile,
            OpenStage::LockDirectory => IoOperation::LockDirectory,
            OpenStage::OpenDataFile => IoOperation::OpenDataFile,
            OpenStage::InspectDataFile => IoOperation::InspectDataFile,
            OpenStage::ResizeDataFile => IoOperation::ResizeDataFile,
            OpenStage::Opened => IoOperation::OpenDataFile,
        }
    }

    /// Whether the stage's operation can find its answer to be no: the lock is
    /// held by another, or the data path is not a regular file.
    pub open spec fn can_refuse(self) -> bool {
        self is LockDirectory || self is InspectDataFile
    }
}

/// What an operation of an opening returned.
pub enum OpenReply {
    /// The operation succeeded.
    Succeeded,
    /// The lock is held by another, or the data path is not a regular file.
    Refused,
    /// The operating system failed the operation.
    Failed(std::io::Error),
}

/// A data file that is being opened.
pub struct Opening {
    directory: PathBuf,
    lock_path: PathBuf,
    data_path: PathBuf,
    capacity: u64,
    stage: OpenStage,
}

impl Opening {
    /// The cache directory.
    pub closed spec fn root(&self) -> PathBuf {
        self.directory
    }

    /// The capacity the file is set to.
    pub closed spec fn bytes(&self) -> u64 {
        self.capacity
    }

    /// The operation that comes next.
    pub closed spec fn at(&self) -> OpenStage {
        self.stage
    }

    /// The path that the next operation is performed on.
    pub open spec fn target(&self) -> PathBuf {
        match self.at() {
            OpenStage::CreateDirectory => self.root(),
            OpenStage::OpenLockFile => entry_path(self.root(), LOCK_FILE_NAME@),
            OpenStage::LockDirectory => entry_path(self.root(), LOCK_FILE_NAME@),
            _ => entry_path(self.root(), DATA_FILE_NAME@),
        }
    }

    /// The paths are those of the directory's entries, and the capacity is positive.
    #[verifier::type_invariant]
    spec fn well_formed(&self) -> bool {
        &&& self.capacity > 0
        &&& self.lock_path == entry_path(self.directory, LOCK_FILE_NAME@)
        &&& self.data_path == entry_path(self.directory, DATA_FILE_NAME@)
    }

    /// Starts opening the data file of `directory`.
    pub fn begin(directory: PathBuf, capacity: u64) -> (result: Result<Self, Error>)
        ensures
            match result {
                Ok(opening) => {
                    &&& capacity > 0
                    &&& opening.root() == directory
                    &&& opening.bytes() == capacity
                    &&& opening.at() is CreateDirectory
                },
                Err(error) => capacity == 0 && error == Error::InvalidCapacity,
            },
    {
        if capacity == 0 {
            return Err(Error::InvalidCapacity);
        }
        let lock_path = join(&directory, LOCK_FILE_NAME);
        let data_path = join(&directory, DATA_FILE_NAME);
        Ok(Self { directory, lock_path, data_path, capacity, stage: OpenStage::CreateDirectory })
    }

    /// Returns the operation that comes next.
    pub fn stage(&self) -> (stage: OpenStage)
        ensures
            stage == self.at(),
    {
        self.stage
    }

    /// Returns the path that the next operation is performed on.
    pub fn path(&self) -> (path: &PathBuf)
        ensures
            *path == self.target(),
    {
        proof {
            use_type_invariant(self);
        }
        match self.stage {
            OpenStage::CreateDirectory => &self.directory,
            OpenStage::OpenLockFile => &self.lock_path,
            OpenStage::LockDirectory => &self.lock_path,
            _ => &self.data_path,
        }
    }

    /// Returns the capacity the file is set to.
    pub fn capacity(&self) -> (capacity: u64)
        ensures
            capacity == self.bytes(),
            capacity > 0,
    {
        proof {
            use_type_invariant(self);
        }
        self.capacity
    }

    /// Whether the opening comes to `result` once the operation that is next has
    /// returned `reply`: it goes on, or ends with the error that the reply stands
    /// for.
    pub open spec fn advanced(&self, reply: OpenReply, result: Result<Opening, Error>) -> bool {
        match reply {
            OpenReply::Succeeded => {
                &&& result is Ok
                &&& result->Ok_0.root() == self.root()
                &&& result->Ok_0.bytes() == self.bytes()
                &&& result->Ok_0.at() == self.at().following()
            },
            OpenReply::Refused => result == Err::<Opening, Error>(
                if self.at() is LockDirectory {
                    Error::AlreadyOpen { directory: self.root() }
                } else {
                    Error::InvalidDataFile { path: self.target() }
                },
            ),
            OpenReply::Failed(source) => result == Err::<Opening, Error>(
                Error::Io { operation: self.at().operation(), path: self.target(), source },
            ),
        }
    }

    /// Goes on with what the operation that was next returned.
    pub fn advance(self, reply: OpenReply) -> (result: Result<Self, Error>)
        requires
            self.at() !is Opened,
            reply is Refused ==> self.at().can_refuse(),
        ensures
            self.advanced(reply, result),
    {
        proof {
            use_type_invariant(&self);
        }
        match reply {
            OpenReply::Succeeded => {
                let stage = match self.stage {
                    OpenStage::CreateDirectory => OpenStage::OpenLockFile,
                    OpenStage::OpenLockFile => OpenStage::LockDirectory,
                    OpenStage::LockDirectory => OpenStage::OpenDataFile,
                    OpenStage::OpenDataFile => OpenStage::InspectDataFile,
                    OpenStage::InspectDataFile => OpenStage::ResizeDataFile,
                    OpenStage::ResizeDataFile => OpenStage::Opened,
                    OpenStage::Opened => OpenStage::Opened,
                };
                Ok(
                    Self {
                        directory: self.directory,
                        lock_path: self.lock_path,
                        data_path: self.data_path,
                        capacity: self.capacity,
                        stage,
                    },
                )
            },
            OpenReply::Refused => {
                if self.stage == OpenStage::LockDirectory {
                    Err(Error::AlreadyOpen { directory: self.directory })
                } else {
                    Err(Error::InvalidDataFile { path: self.data_path })
                }
            },
            OpenReply::Failed(source) => {
                let path = self.path().clone();
                let operation = match self.stage {
                    OpenStage::CreateDirectory => IoOperation::CreateDirectory,
                    OpenStage::OpenLockFile => IoOperation::OpenLockFile,
                    OpenStage::LockDirectory => IoOperation::LockDirectory,
                    OpenStage::OpenDataFile => IoOperation::OpenDataFile,
                    OpenStage::InspectDataFile => IoOperation::InspectDataFile,
                    OpenStage::ResizeDataFile => IoOperation::ResizeDataFile,
                    OpenStage::Opened => IoOperation::OpenDataFile,
                };
                Err(Error::Io { operation, path, source })
            },
        }
    }
}

/// How many operations precede a stage.
pub open spec fn stages_before(stage: OpenStage) -> int {
    match stage {
        OpenStage::CreateDirectory => 0,
        OpenStage::OpenLockFile => 1,
        OpenStage::LockDirectory => 2,
        OpenStage::OpenDataFile => 3,
        OpenStage::InspectDataFile => 4,
        OpenStage::ResizeDataFile => 5,
        OpenStage::Opened => 6,
    }
}

/// Whether the stage's operation is performed on the data file.
pub open spec fn touches_data(stage: OpenStage) -> bool {
    stage is OpenDataFile || stage is InspectDataFile || stage is ResizeDataFile
}

/// Every success brings an opening one operation further, and the data file is
/// opened, inspected and resized only once the directory is locked.
pub proof fn openings_lock_before_touching_data(stage: OpenStage)
    requires
        stage !is Opened,
    ensures
        stages_before(stage.following()) == stages_before(stage) + 1,
        touches_data(stage) <==> stages_before(stage) > stages_before(OpenStage::LockDirectory),
{
}

/// Whether an opening performs one operation after another, is given `replies`
/// for them, and comes to `outcome`: an error, or nothing left to do.
pub open spec fn runs(
    openings: Seq<Opening>,
    replies: Seq<OpenReply>,
    outcome: Result<Opening, Error>,
) -> bool {
    &&& openings.len() == replies.len()
    &&& openings.len() > 0
    &&& openings[0].at() is CreateDirectory
    &&& forall|i: int|
        0 <= i < replies.len() - 1 ==> openings[i].at() !is Opened && openings[i].advanced(
            #[trigger] replies[i],
            Ok::<Opening, Error>(openings[i + 1]),
        )
    &&& openings.last().at() !is Opened
    &&& openings.last().advanced(replies.last(), outcome)
    &&& outcome is Ok ==> outcome->Ok_0.at() is Opened
}

/// An opening creates the directory, opens the lock file, locks the directory, opens the
/// data file, inspects it and resizes it, in this order, each at most once, and all of
/// them exactly if it succeeds.
pub proof fn openings_perform_their_operations_in_order(
    openings: Seq<Opening>,
    replies: Seq<OpenReply>,
    outcome: Result<Opening, Error>,
)
    requires
        runs(openings, replies, outcome),
    ensures
        1 <= openings.len() <= 6,
        openings[0].at() == OpenStage::CreateDirectory,
        openings.len() > 1 ==> openings[1].at() == OpenStage::OpenLockFile,
        openings.len() > 2 ==> openings[2].at() == OpenStage::LockDirectory,
        openings.len() > 3 ==> openings[3].at() == OpenStage::OpenDataFile,
        openings.len() > 4 ==> openings[4].at() == OpenStage::InspectDataFile,
        openings.len() > 5 ==> openings[5].at() == OpenStage::ResizeDataFile,
        outcome is Ok ==> openings.len() == 6,
        forall|i: int| 0 <= i < openings.len() - 1 ==> #[trigger] replies[i] == OpenReply::Succeeded,
        outcome is Ok <==> replies.last() == OpenReply::Succeeded,
        forall|i: int|
            0 <= i < openings.len() ==> (#[trigger] openings[i]).root() == openings[0].root()
                && openings[i].bytes() == openings[0].bytes(),
{
    let last = openings.len() - 1;
    lemma_run_prefix(openings, replies, outcome, last);
    assert forall|i: int| 0 <= i < openings.len() implies (#[trigger] openings[i]).root()
        == openings[0].root() && openings[i].bytes() == openings[0].bytes() by {
        lemma_run_prefix(openings, replies, outcome, i);
    }
    if openings.len() > 1 {
        lemma_run_prefix(openings, replies, outcome, 1);
    }
    if openings.len() > 2 {
        lemma_run_prefix(openings, replies, outcome, 2);
    }
    if openings.len() > 3 {
        lemma_run_prefix(openings, replies, outcome, 3);
    }
    if openings.len() > 4 {
        lemma_run_prefix(openings, replies, outcome, 4);
    }
    if openings.len() > 5 {
        lemma_run_prefix(openings, replies, outcome, 5);
    }
    assert forall|i: int| 0 <= i < openings.len() - 1 implies #[trigger] replies[i]
        == OpenReply::Succeeded by {
        assert(openings[i].advanced(replies[i], Ok::<Opening, Error>(openings[i + 1])));
    }
}

/// A failed operation of an opening is reported with its own name and path: the directory
/// itself, the lock file `.feuer.lock` in it, or the data file `data` in it. A refused
/// lock means that the directory is already open, and a refused inspection that the data
/// path is not a regular file.
pub proof fn failed_openings_name_their_operation_and_path(
    opening: Opening,
    source: std::io::Error,
    result: Result<Opening, Error>,
)
    ensures
        opening.advanced(OpenReply::Failed(source), result) ==> match opening.at() {
            OpenStage::CreateDirectory => result == Err::<Opening, Error>(
                Error::Io {
                    operation: IoOperation::CreateDirectory,
                    path: opening.root(),
                    source,
                },
            ),
            OpenStage::OpenLockFile => result == Err::<Opening, Error>(
                Error::Io {
                    operation: IoOperation::OpenLockFile,
                    path: entry_path(opening.root(), ".feuer.lock"@),
                    source,
                },
            ),
            OpenStage::LockDirectory => result == Err::<Opening, Error>(
                Error::Io {
                    operation: IoOperation::LockDirectory,
                    path: entry_path(opening.root(), ".feuer.lock"@),
                    source,
                },
            ),
            OpenStage::OpenDataFile => result == Err::<Opening, Error>(
                Error::Io {
                    operation: IoOperation::OpenDataFile,
                    path: entry_path(opening.root(), "data"@),
                    source,
                },
            ),
            OpenStage::InspectDataFile => result == Err::<Opening, Error>(
                Error::Io {
                    operation: IoOperation::InspectDataFile,
                    path: entry_path(opening.root(), "data"@),
                    source,
                },
            ),
            OpenStage::ResizeDataFile => result == Err::<Opening, Error>(
                Error::Io {
                    operation: IoOperation::ResizeDataFile,
                    path: entry_path(opening.root(), "data"@),
                    source,
                },
            ),
            OpenStage::Opened => true,
        },
        opening.at() is LockDirectory && opening.advanced(OpenReply::Refused, result) ==> result
            == Err::<Opening, Error>(Error::AlreadyOpen { directory: opening.root() }),
        opening.at() is InspectDataFile && opening.advanced(OpenReply::Refused, result) ==> result
            == Err::<Opening, Error>(
            Error::InvalidDataFile { path: entry_path(opening.root(), "data"@) },
        ),
{
}

/// Whether the operating system grants the lock exactly if no one holds it, and
/// otherwise does what an opening asks of it.
pub open spec fn lock_arbitrated(
    openings: Seq<Opening>,
    replies: Seq<OpenReply>,
    holders: nat,
) -> bool {
    forall|i: int|
        0 <= i < replies.len() ==> #[trigger] replies[i] == if openings[i].at() is LockDirectory
            && holders > 0 {
            OpenReply::Refused
        } else {
            OpenReply::Succeeded
        }
}

/// Where the lock is granted exactly if no one holds it, a directory has one owner
/// at a time. While a holder lives, an opening ends as already open, without an
/// operation on the data file. Once the last one is gone, it succeeds.
pub proof fn openings_respect_live_holders(
    openings: Seq<Opening>,
    replies: Seq<OpenReply>,
    outcome: Result<Opening, Error>,
    holders: nat,
)
    requires
        runs(openings, replies, outcome),
        lock_arbitrated(openings, replies, holders),
    ensures
        holders > 0 ==> outcome == Err::<Opening, Error>(
            Error::AlreadyOpen { directory: openings[0].root() },
        ) && forall|i: int|
            0 <= i < openings.len() ==> !touches_data((#[trigger] openings[i]).at()),
        holders == 0 ==> outcome is Ok && outcome->Ok_0.root() == openings[0].root()
            && outcome->Ok_0.bytes() == openings[0].bytes(),
{
    let last = replies.len() - 1;
    lemma_run_prefix(openings, replies, outcome, last);
    if holders > 0 {
        if stages_before(openings[last].at()) > 2 {
            assert(replies[2] == OpenReply::Refused) by {
                lemma_run_prefix(openings, replies, outcome, 2);
            }
        }
        assert forall|i: int| 0 <= i < openings.len() implies !touches_data(
            (#[trigger] openings[i]).at(),
        ) by {
            lemma_run_prefix(openings, replies, outcome, i);
        }
    }
}

/// Operation `i` of an opening is the one of stage `i`.
proof fn lemma_run_prefix(
    openings: Seq<Opening>,
    replies: Seq<OpenReply>,
    outcome: Result<Opening, Error>,
    i: int,
)
    requires
        runs(openings, replies, outcome),
        0 <= i < openings.len(),
    ensures
        stages_before(openings[i].at()) == i,
        openings[i].at() !is Opened,
        openings[i].root() == openings[0].root(),
        openings[i].bytes() == openings[0].bytes(),
    decreases i,
{
    if i > 0 {
        lemma_run_prefix(openings, replies, outcome, i - 1);
        assert(openings[i - 1].advanced(replies[i - 1], Ok::<Opening, Error>(openings[i])));
        if i < openings.len() - 1 {
            assert(openings[i].advanced(replies[i], Ok::<Opening, Error>(openings[i + 1])));
        }
    }
}

/// Checks that a platform buffer length can be represented as a file length.
pub fn checked_length(operation: IoOperation, length: usize) -> (result: Result<u64, Error>)
    ensures
        result == Ok::<u64, Error>(length as u64),
{
    Ok(length as u64)
}

/// Checks that an operation lies within the data file.
pub fn check_range(
    operation: IoOperation,
    offset: u64,
    length: u64,
    capacity: u64,
) -> (result: Result<(), Error>)
    ensures
        match result {
            Ok(_) => offset + length <= capacity,
            Err(error) => offset + length > capacity && error == (Error::OutOfBounds {
                operation,
                offset,
                length,
                capacity,
            }),
        },
{
    let fits = match offset.checked_add(length) {
        Some(end) => end <= capacity,
        None => false,
    };
    if !fits {
        return Err(Error::OutOfBounds { operation, offset, length, capacity });
    }
    Ok(())
}

/// `Vec::try_reserve_exact` gives the buffer room for `additional` more bytes
/// and leaves its contents as they are. Whether the allocation succeeds is up to
/// the machine.
#[verifier::external_body]
fn reserve(buffer: Vec<u8>, additional: usize) -> (reserved: Result<Vec<u8>, TryReserveError>)
    ensures
        reserved is Ok ==> reserved->Ok_0@ == buffer@,
{
    let mut buffer = buffer;
    buffer.try_reserve_exact(additional).map(|_| buffer)
}

/// A read buffer of `length` zeroes, or why it could not be allocated.
pub open spec fn buffer_result(
    length: usize,
    reserved: Result<Vec<u8>, TryReserveError>,
    result: Result<Vec<u8>, Error>,
) -> bool {
    match reserved {
        Ok(_) => result is Ok && result->Ok_0@ == Seq::new(length as nat, |i: int| 0u8),
        Err(source) => result == Err::<Vec<u8>, Error>(Error::Allocation { length, source }),
    }
}

/// Whether `reserved` can come of allocating exactly `length` bytes for an empty
/// buffer.
pub closed spec fn allocated(length: usize, reserved: Result<Vec<u8>, TryReserveError>) -> bool {
    exists|buffer: Vec<u8>|
        buffer@.len() == 0 && #[trigger] call_ensures(reserve, (buffer, length), reserved)
}

/// Finishes a read buffer with what its allocation returned.
pub fn finish_buffer(
    length: usize,
    reserved: Result<Vec<u8>, TryReserveError>,
) -> (result: Result<Vec<u8>, Error>)
    requires
        reserved is Ok ==> reserved->Ok_0@.len() == 0,
    ensures
        buffer_result(length, reserved, result),
{
    match reserved {
        Ok(buffer) => {
            let mut zeroed = buffer;
            zeroed.resize(length, 0);
            assert(zeroed@ =~= Seq::new(length as nat, |i: int| 0u8));
            Ok(zeroed)
        },
        Err(source) => Err(Error::Allocation { length, source }),
    }
}

/// Allocates the buffer of one exact read, filled with zeroes: exactly `length`
/// bytes are asked for, and what the allocation returned decides.
pub fn read_buffer(length: usize) -> (result: Result<Vec<u8>, Error>)
    ensures
        exists|reserved: Result<Vec<u8>, TryReserveError>| #[trigger]
            allocated(length, reserved) && buffer_result(length, reserved, result),
        match result {
            Ok(buffer) => buffer@ == Seq::new(length as nat, |i: int| 0u8),
            Err(error) => error is Allocation && error->Allocation_length == length,
        },
{
    let buffer: Vec<u8> = Vec::new();
    let reserved = reserve(buffer, length);
    assert(allocated(length, reserved));
    finish_buffer(length, reserved)
}

/// Which way a transfer goes.
#[derive(Clone, Copy, Debug, PartialEq, Eq, Structural)]
pub enum Direction {
    Read,
    Write,
}

/// What one positional read or write returned.
pub enum TransferReply {
    /// So many bytes were moved.
    Moved(usize),
    /// The call was interrupted before it moved anything.
    Interrupted,
    /// The operating system failed the call.
    Failed(std::io::Error),
}

/// Why a transfer ended early.
pub enum TransferError {
    /// A read completed before filling the request buffer.
    UnexpectedEof,
    /// A write completed without writing bytes.
    WriteZero,
    /// The operating system failed a call.
    Failed(std::io::Error),
}

/// A positional transfer under way: which bytes are still to move.
pub struct Transfer {
    direction: Direction,
    offset: u64,
    length: usize,
    completed: usize,
}

impl Transfer {
    /// Which way the transfer goes.
    pub closed spec fn way(&self) -> Direction {
        self.direction
    }

    /// The file offset of its first byte.
    pub closed spec fn origin(&self) -> u64 {
        self.offset
    }

    /// The bytes to move.
    pub closed spec fn total(&self) -> usize {
        self.length
    }

    /// The bytes already moved.
    pub closed spec fn moved(&self) -> usize {
        self.completed
    }

    /// No more was moved than asked for, and every file offset is representable.
    #[verifier::type_invariant]
    pub open spec fn well_formed(&self) -> bool {
        &&& self.moved() <= self.total()
        &&& self.origin() + self.total() <= u64::MAX
    }

    /// Prepares a transfer that lies within a file of `capacity` bytes.
    pub fn begin(
        direction: Direction,
        offset: u64,
        length: usize,
        capacity: u64,
    ) -> (result: Result<Self, Error>)
        ensures
            match result {
                Ok(transfer) => {
                    &&& offset + length <= capacity
                    &&& transfer.way() == direction
                    &&& transfer.origin() == offset
                    &&& transfer.total() == length
                    &&& transfer.moved() == 0
                },
                Err(error) => offset + length > capacity && error == (Error::OutOfBounds {
                    operation: match direction {
                        Direction::Read => IoOperation::Read,
                        Direction::Write => IoOperation::Write,
                    },
                    offset,
                    length: length as u64,
                    capacity,
                }),
            },
    {
        let operation = match direction {
            Direction::Read => IoOperation::Read,
            Direction::Write => IoOperation::Write,
        };
        let length_u64 = match checked_length(operation, length) {
            Ok(length_u64) => length_u64,
            Err(error) => {
                return Err(error);
            },
        };
        match check_range(operation, offset, length_u64, capacity) {
            Ok(_) => Ok(Self { direction, offset, length, completed: 0 }),
            Err(error) => Err(error),
        }
    }

    /// Returns the file offset of the next call and how many bytes of the buffer
    /// precede it, or nothing once all bytes were moved.
    pub fn next_call(&self) -> (call: Option<(u64, usize)>)
        ensures
            match call {
                Some(call) => {
                    &&& self.moved() < self.total()
                    &&& call.0 == self.origin() + self.moved()
                    &&& call.1 == self.moved()
                },
                None => self.moved() == self.total(),
            },
    {
        proof {
            use_type_invariant(self);
        }
        if self.completed == self.length {
            return None;
        }
        Some((self.offset + self.completed as u64, self.completed))
    }

    /// Returns how many bytes are still to move.
    pub fn remaining(&self) -> (remaining: usize)
        ensures
            remaining == self.total() - self.moved(),
    {
        proof {
            use_type_invariant(self);
        }
        self.length - self.completed
    }

    /// Goes on with what one call returned.
    pub fn advance(self, reply: TransferReply) -> (result: Result<Self, TransferError>)
        requires
            self.moved() < self.total(),
            reply is Moved ==> reply->Moved_0 <= self.total() - self.moved(),
        ensures
            match reply {
                TransferReply::Moved(0) => result == Err::<Self, TransferError>(
                    match self.way() {
                        Direction::Read => TransferError::UnexpectedEof,
                        Direction::Write => TransferError::WriteZero,
                    },
                ),
                TransferReply::Moved(count) => {
                    &&& result is Ok
                    &&& result->Ok_0.way() == self.way()
                    &&& result->Ok_0.origin() == self.origin()
                    &&& result->Ok_0.total() == self.total()
                    &&& result->Ok_0.moved() == self.moved() + count
                },
                TransferReply::Interrupted => result == Ok::<Self, TransferError>(self),
                TransferReply::Failed(source) => result == Err::<Self, TransferError>(
                    TransferError::Failed(source),
                ),
            },
    {
        proof {
            use_type_invariant(&self);
        }
        match reply {
            TransferReply::Moved(count) => {
                if count == 0 {
                    return Err(
                        match self.direction {
                            Direction::Read => TransferError::UnexpectedEof,
                            Direction::Write => TransferError::WriteZero,
                        },
                    );
                }
                Ok(
                    Self {
                        direction: self.direction,
                        offset: self.offset,
                        length: self.length,
                        completed: self.completed + count,
                    },
                )
            },
            TransferReply::Interrupted => Ok(self),
            TransferReply::Failed(source) => Err(TransferError::Failed(source)),
        }
    }
}

/// Settles an operation that ran on another task: its own result, or the
/// failure of the task.
pub fn settle<T>(
    operation: IoOperation,
    joined: Result<Result<T, Error>, tokio::task::JoinError>,
) -> (result: Result<T, Error>)
    ensures
        match joined {
            Ok(own) => result == own,
            Err(source) => result == Err::<T, Error>(Error::Task { operation, source }),
        },
{
    match joined {
        Ok(own) => own,
        Err(source) => Err(Error::Task { operation, source }),
    }
}

/// Returns the trace labels of a result: its outcome, and the kind of its error.
pub fn outcome_labels<T>(result: &Result<T, Error>) -> (labels: (&'static str, Option<&'static str>))
    ensures
        match result {
            Ok(_) => labels.0@ == "success"@ && labels.1 is None,
            Err(error) => labels.0@ == "error"@ && labels.1 is Some && labels.1->0@
                == error.category().label(),
        },
{
    match result {
        Ok(_) => ("success", None),
        Err(error) => ("error", Some(error.kind().as_str())),
    }
}

} // verus!
