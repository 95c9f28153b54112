//! Capacities and location of one cache.

use std::path::PathBuf;

use vstd::prelude::*;

verus! {

/// An owned file system path.
#[verifier::external_type_specification]
#[verifier::external_body]
pub struct ExPathBuf(PathBuf);

/// `PathBuf::clone` is an equal path.
pub assume_specification[ <PathBuf as Clone>::clone ](buffer: &PathBuf) -> (copy: PathBuf)
    ensures
        copy == *buffer,
;

/// Explicit capacities and location for one cache.
///
/// Capacities are measured in payload bytes. The disk file is fixed to
/// `disk_capacity` when the disk lifecycle is enabled. `memory_capacity` is a
/// soft eviction target divided among the in-memory shards; oversized entries
/// can make retained usage exceed it.
#[derive(Debug, PartialEq, Eq)]
pub struct Config {
    directory: PathBuf,
    disk_capacity: u64,
    memory_capacity: u64,
}

impl Config {
    /// The configured directory.
    pub closed spec fn location(&self) -> PathBuf {
        self.directory
    }

    /// The configured data-file capacity.
    pub closed spec fn disk_bytes(&self) -> u64 {
        self.disk_capacity
    }

    /// The configured memory payload target.
    pub closed spec fn memory_bytes(&self) -> u64 {
        self.memory_capacity
    }

    /// Both capacities are positive.
    #[verifier::type_invariant]
    spec fn well_formed(&self) -> bool {
        self.disk_capacity > 0 && self.memory_capacity > 0
    }

    /// Creates a cache configuration with no implicit capacity defaults.
    pub fn new<D: Into<PathBuf>>(
        directory: D,
        disk_capacity: u64,
        memory_capacity: u64,
    ) -> (result: Result<Self, ConfigError>)
        ensures
            match result {
                Ok(config) => {
                    &&& disk_capacity > 0
                    &&& memory_capacity > 0
                    &&& call_ensures(D::into, (directory,), config.location())
                    &&& config.disk_bytes() == disk_capacity
                    &&& config.memory_bytes() == memory_capacity
                },
                Err(ConfigError::InvalidDiskCapacity) => disk_capacity == 0,
                Err(ConfigError::InvalidMemoryCapacity) => disk_capacity > 0 && memory_capacity == 0,
            },
    {
        if disk_capacity == 0 {
            return Err(ConfigError::InvalidDiskCapacity);
        }
        if memory_capacity == 0 {
            return Err(ConfigError::InvalidMemoryCapacity);
        }
        Ok(Self { directory: directory.into(), disk_capacity, memory_capacity })
    }

    /// Returns the directory configured for the cache's disk lifecycle.
    pub fn directory(&self) -> (directory: &PathBuf)
        ensures
            *directory == self.location(),
    {
        &self.directory
    }

    /// Returns the configured fixed physical data-file capacity in bytes.
    pub fn disk_capacity(&self) -> (capacity: u64)
        ensures
            capacity == self.disk_bytes(),
            capacity > 0,
    {
        proof {
            use_type_invariant(self);
        }
        self.disk_capacity
    }

    /// Returns the soft memory payload target in bytes.
    pub fn memory_capacity(&self) -> (capacity: u64)
        ensures
            capacity == self.memory_bytes(),
            capacity > 0,
    {
        proof {
            use_type_invariant(self);
        }
        self.memory_capacity
    }
}

impl Clone for Config {
    fn clone(&self) -> (copy: Self)
        ensures
            copy == *self,
    {
        proof {
            use_type_invariant(self);
        }
        Self {
            directory: self.directory.clone(),
            disk_capacity: self.disk_capacity,
            memory_capacity: self.memory_capacity,
        }
    }
}

/// An invalid cache configuration.
#[derive(Clone, Copy, Debug, PartialEq, Eq, Structural)]
pub enum ConfigError {
    /// A fixed data file cannot have zero capacity.
    InvalidDiskCapacity,
    /// The configured memory eviction target must be positive.
    InvalidMemoryCapacity,
}

impl ConfigError {
    /// Returns the error's message.
    pub fn message(self) -> (message: &'static str)
        ensures
            message@ == (match self {
                ConfigError::InvalidDiskCapacity => "disk capacity must be greater than zero"@,
                ConfigError::InvalidMemoryCapacity => "memory capacity must be greater than zero"@,
            }),
    {
        match self {
            ConfigError::InvalidDiskCapacity => "disk capacity must be greater than zero",
            ConfigError::InvalidMemoryCapacity => "memory capacity must be greater than zero",
        }
    }
}

} // verus!
