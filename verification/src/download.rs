//! Results of application download callbacks.

use bytes::Bytes;
use vstd::prelude::*;
use vstd::string::StringExecFns;

use crate::payload;
use crate::range::{ByteRange, Interval};
use crate::text::{append_number, decimal};

verus! {

/// One completed result from an application download callback.
///
/// The exact downloaded range is derived from the start offset and the payload
/// length. The object identity comes from the lookup that made the callback, so
/// it is not repeated here. Constructing a download creates no access event.
pub struct Download {
    downloaded_start: u64,
    bytes: Bytes,
}

impl Download {
    /// The payload is non-empty and its end offset is representable.
    #[verifier::type_invariant]
    pub open spec fn well_formed(self) -> bool {
        &&& self.payload().len() > 0
        &&& self.first_offset() + self.payload().len() <= u64::MAX
    }

    /// The first downloaded object offset.
    pub closed spec fn first_offset(self) -> u64 {
        self.downloaded_start
    }

    /// The downloaded object bytes.
    pub closed spec fn payload(self) -> Seq<u8> {
        payload::contents(self.bytes)
    }

    /// The object offsets that the payload covers.
    pub open spec fn interval(self) -> Interval {
        Interval {
            start: self.first_offset(),
            end: (self.first_offset() + self.payload().len()) as u64,
        }
    }

    /// Creates a download whose range starts at `downloaded_start`.
    pub fn new(downloaded_start: u64, bytes: Bytes) -> (result: Result<Self, DownloadError>)
        ensures
            match result {
                Ok(download) => {
                    &&& payload::contents(bytes).len() > 0
                    &&& downloaded_start + payload::contents(bytes).len() <= u64::MAX
                    &&& download.first_offset() == downloaded_start
                    &&& download.payload() == payload::contents(bytes)
                },
                Err(DownloadError::EmptyPayload) => payload::contents(bytes).len() == 0,
                Err(DownloadError::RangeOverflow { downloaded_start: start, payload_bytes }) => {
                    &&& payload::contents(bytes).len() > 0
                    &&& downloaded_start + payload::contents(bytes).len() > u64::MAX
                    &&& start == downloaded_start
                    &&& payload_bytes == payload::contents(bytes).len()
                },
            },
    {
        let payload_bytes = payload::length(&bytes) as u64;
        if payload_bytes == 0 {
            return Err(DownloadError::EmptyPayload);
        }
        if downloaded_start.checked_add(payload_bytes).is_none() {
            return Err(DownloadError::RangeOverflow { downloaded_start, payload_bytes });
        }
        Ok(Self { downloaded_start, bytes })
    }

    /// Returns the first downloaded object offset.
    pub fn downloaded_start(&self) -> (start: u64)
        ensures
            start == self.first_offset(),
    {
        self.downloaded_start
    }

    /// Returns the exact object range derived from the payload length.
    pub fn downloaded_range(&self) -> (range: ByteRange)
        ensures
            range@ == self.interval(),
            range@.valid(),
            range@.len() == self.payload().len(),
    {
        proof {
            use_type_invariant(self);
        }
        let len = payload::length(&self.bytes) as u64;
        ByteRange::new(self.downloaded_start, self.downloaded_start + len).unwrap()
    }

    /// Returns the contiguous bytes covering the downloaded range.
    pub fn bytes(&self) -> (bytes: &Bytes)
        ensures
            payload::contents(*bytes) == self.payload(),
    {
        &self.bytes
    }

    /// Describes the download without its payload bytes.
    pub fn describe(&self) -> (text: String)
        ensures
            text@ == "Download { downloaded_range: ByteRange { start: "@ + decimal(
                self.interval().start as nat,
            ) + ", end: "@ + decimal(self.interval().end as nat) + " }, payload_len: "@ + decimal(
                self.payload().len(),
            ) + " }"@,
    {
        let range = self.downloaded_range();
        let mut text = "Download { downloaded_range: ByteRange { start: ".to_owned();
        append_number(&mut text, range.start());
        text.append(", end: ");
        append_number(&mut text, range.end());
        text.append(" }, payload_len: ");
        append_number(&mut text, range.len());
        text.append(" }");
        text
    }

    /// Decomposes the download into its derived range and payload.
    pub fn into_parts(self) -> (parts: (ByteRange, Bytes))
        ensures
            parts.0@ == self.interval(),
            parts.0@.valid(),
            payload::contents(parts.1) == self.payload(),
            parts.0@.len() == self.payload().len(),
    {
        let range = self.downloaded_range();
        (range, self.bytes)
    }
}

impl Clone for Download {
    fn clone(&self) -> (copy: Self)
        ensures
            copy.first_offset() == self.first_offset(),
            copy.payload() == self.payload(),
    {
        proof {
            use_type_invariant(self);
        }
        Self { downloaded_start: self.downloaded_start, bytes: self.bytes.clone() }
    }
}

/// An invalid download callback result.
#[derive(Clone, Debug, PartialEq, Eq, Structural)]
pub enum DownloadError {
    /// A downloaded range must contain at least one byte.
    EmptyPayload,
    /// The payload extends beyond the representable object-offset space.
    RangeOverflow {
        /// The first downloaded object offset.
        downloaded_start: u64,
        /// The downloaded payload length.
        payload_bytes: u64,
    },
}

impl DownloadError {
    /// Returns the error's message.
    pub fn message(&self) -> (message: String)
        ensures
            match *self {
                DownloadError::EmptyPayload => message@ == "download payload must not be empty"@,
                DownloadError::RangeOverflow { downloaded_start, payload_bytes } => message@
                    == "download starting at "@ + decimal(downloaded_start as nat) + " with "@
                    + decimal(payload_bytes as nat)
                    + " bytes exceeds the u64 object-offset space"@,
            },
    {
        match self {
            DownloadError::EmptyPayload => "download payload must not be empty".to_owned(),
            DownloadError::RangeOverflow { downloaded_start, payload_bytes } => {
                let mut message = "download starting at ".to_owned();
                append_number(&mut message, *downloaded_start);
                message.append(" with ");
                append_number(&mut message, *payload_bytes);
                message.append(" bytes exceeds the u64 object-offset space");
                message
            },
        }
    }
}

} // verus!
