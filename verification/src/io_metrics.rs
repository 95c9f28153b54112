//! What the data file counts.

use vstd::prelude::*;

use crate::io_error::IoOperation;

verus! {

/// The counters of one operation. They wrap around at `u64::MAX`.
#[derive(Clone, Copy, Debug, PartialEq, Eq, Structural)]
pub struct OperationMetrics {
    pub success: u64,
    pub error: u64,
    pub bytes: u64,
}

impl OperationMetrics {
    /// The counters after one more operation of so many bytes.
    pub open spec fn counted(self, bytes: u64, success: bool) -> Self {
        if success {
            OperationMetrics {
                success: self.success.wrapping_add(1),
                bytes: self.bytes.wrapping_add(bytes),
                ..self
            }
        } else {
            OperationMetrics { error: self.error.wrapping_add(1), ..self }
        }
    }

    fn count(&mut self, bytes: u64, success: bool)
        ensures
            *final(self) == old(self).counted(bytes, success),
    {
        if success {
            self.success = self.success.wrapping_add(1);
            self.bytes = self.bytes.wrapping_add(bytes);
        } else {
            self.error = self.error.wrapping_add(1);
        }
    }
}

/// The counters of fixed-file positional I/O, by operation.
#[derive(Clone, Copy, Debug, PartialEq, Eq, Structural)]
pub struct IoMetrics {
    pub read: OperationMetrics,
    pub write: OperationMetrics,
    pub sync_data: OperationMetrics,
    pub sync_all: OperationMetrics,
}

impl IoMetrics {
    /// The counters after one more operation. Opening a file is not counted.
    pub open spec fn recorded(self, operation: IoOperation, bytes: u64, success: bool) -> Self {
        match operation {
            IoOperation::Read => IoMetrics { read: self.read.counted(bytes, success), ..self },
            IoOperation::Write => IoMetrics { write: self.write.counted(bytes, success), ..self },
            IoOperation::SyncData => IoMetrics {
                sync_data: self.sync_data.counted(bytes, success),
                ..self
            },
            IoOperation::SyncAll => IoMetrics {
                sync_all: self.sync_all.counted(bytes, success),
                ..self
            },
            _ => self,
        }
    }

    /// Nothing counted.
    pub open spec fn zero() -> Self {
        let none = OperationMetrics { success: 0, error: 0, bytes: 0 };
        IoMetrics { read: none, write: none, sync_data: none, sync_all: none }
    }

    /// Creates metrics with nothing counted.
    pub fn noop() -> (metrics: Self)
        ensures
            metrics == Self::zero(),
    {
        let none = OperationMetrics { success: 0, error: 0, bytes: 0 };
        IoMetrics { read: none, write: none, sync_data: none, sync_all: none }
    }

    /// Counts one completed operation.
    pub fn record(&mut self, operation: IoOperation, bytes: u64, success: bool)
        ensures
            *final(self) == old(self).recorded(operation, bytes, success),
            operation !is Read ==> final(self).read == old(self).read,
            operation !is Write ==> final(self).write == old(self).write,
            operation !is SyncData ==> final(self).sync_data == old(self).sync_data,
            operation !is SyncAll ==> final(self).sync_all == old(self).sync_all,
            operation is Read ==> final(self).read == if success {
                OperationMetrics {
                    success: old(self).read.success.wrapping_add(1),
                    error: old(self).read.error,
                    bytes: old(self).read.bytes.wrapping_add(bytes),
                }
            } else {
                OperationMetrics {
                    error: old(self).read.error.wrapping_add(1),
                    ..old(self).read
                }
            },
            operation is Write ==> final(self).write == if success {
                OperationMetrics {
                    success: old(self).write.success.wrapping_add(1),
                    error: old(self).write.error,
                    bytes: old(self).write.bytes.wrapping_add(bytes),
                }
            } else {
                OperationMetrics {
                    error: old(self).write.error.wrapping_add(1),
                    ..old(self).write
                }
            },
            operation is SyncData ==> final(self).sync_data == if success {
                OperationMetrics {
                    success: old(self).sync_data.success.wrapping_add(1),
                    error: old(self).sync_data.error,
                    bytes: old(self).sync_data.bytes.wrapping_add(bytes),
                }
            } else {
                OperationMetrics {
                    error: old(self).sync_data.error.wrapping_add(1),
                    ..old(self).sync_data
                }
            },
            operation is SyncAll ==> final(self).sync_all == if success {
                OperationMetrics {
                    success: old(self).sync_all.success.wrapping_add(1),
                    error: old(self).sync_all.error,
                    bytes: old(self).sync_all.bytes.wrapping_add(bytes),
                }
            } else {
                OperationMetrics {
                    error: old(self).sync_all.error.wrapping_add(1),
                    ..old(self).sync_all
                }
            },
    {
        match operation {
            IoOperation::Read => self.read.count(bytes, success),
            IoOperation::Write => self.write.count(bytes, success),
            IoOperation::SyncData => self.sync_data.count(bytes, success),
            IoOperation::SyncAll => self.sync_all.count(bytes, success),
            _ => {},
        }
    }
}

} // verus!
