use bytes::Bytes;
use feuer::config::{Config, ConfigError};
use feuer::range::ByteRange;
use feuer::{Download, DownloadError};
use std::path::Path;

fn range(start: u64, end: u64) -> ByteRange {
    ByteRange::new(start, end).unwrap()
}

#[test]
fn preserves_arbitrary_unaligned_endpoints() {
    let range = ByteRange::new(3, 4_194_309).unwrap();

    assert_eq!(range.start(), 3);
    assert_eq!(range.end(), 4_194_309);
    assert_eq!(range.len(), 4_194_306);
}

#[test]
fn rejects_empty_and_reversed_ranges() {
    let empty = ByteRange::new(7, 7).unwrap_err();
    assert_eq!((empty.start(), empty.end()), (7, 7));
    let reversed = ByteRange::new(8, 7).unwrap_err();
    assert_eq!((reversed.start(), reversed.end()), (8, 7));
    assert_ne!(empty, reversed);
}

#[test]
fn containment_and_overlap_use_exact_boundaries() {
    let outer = ByteRange::new(10, 20).unwrap();

    assert!(outer.contains(ByteRange::new(10, 20).unwrap()));
    assert!(outer.contains(ByteRange::new(11, 19).unwrap()));
    assert!(!outer.overlaps(ByteRange::new(20, 30).unwrap()));
    assert!(outer.overlaps(ByteRange::new(19, 30).unwrap()));
}

#[test]
fn ranges_order_by_start_and_end_and_are_never_empty() {
    assert!(range(1, 5) < range(2, 3));
    assert!(range(1, 3) < range(1, 5));
    assert!(!range(1, 2).is_empty());
    assert!(!range(10, 20).contains(range(9, 12)));
    assert!(!range(10, 20).contains(range(19, 21)));
}

#[test]
fn ranges_convert_from_and_to_plain_ranges() {
    assert_eq!(ByteRange::try_from(3..9), Ok(range(3, 9)));
    let error = ByteRange::try_from(9..9).unwrap_err();
    assert_eq!((error.start(), error.end()), (9, 9));
    let plain: std::ops::Range<u64> = range(3, 9).into();
    assert_eq!(plain, 3..9);
}

#[test]
fn invalid_range_message_names_both_endpoints() {
    assert_eq!(
        ByteRange::new(1_024, 7).unwrap_err().message(),
        "byte range must be non-empty and ordered, got 1024..7"
    );
    assert_eq!(
        ByteRange::new(u64::MAX, 0).unwrap_err().message(),
        "byte range must be non-empty and ordered, got 18446744073709551615..0"
    );
}

#[test]
fn derives_the_exact_range_from_the_start_and_payload() {
    let payload = Bytes::from(vec![7; 13]);
    let download = Download::new(3, payload.clone()).unwrap();

    assert_eq!(download.downloaded_start(), 3);
    assert_eq!(download.downloaded_range(), range(3, 16));
    assert_eq!(download.bytes().as_ptr(), payload.as_ptr());
}

#[test]
fn rejects_empty_or_unrepresentable_ranges() {
    assert_eq!(
        Download::new(7, Bytes::new()).err(),
        Some(DownloadError::EmptyPayload)
    );
    assert_eq!(
        Download::new(u64::MAX - 1, Bytes::from_static(b"ab")).err(),
        Some(DownloadError::RangeOverflow {
            downloaded_start: u64::MAX - 1,
            payload_bytes: 2,
        })
    );
    assert!(Download::new(u64::MAX - 2, Bytes::from_static(b"ab")).is_ok());
}

#[test]
fn debug_output_omits_payload_bytes() {
    let download = Download::new(0, Bytes::from_static(b"secret")).unwrap();
    let output = download.describe();

    assert!(!output.contains("secret"));
    assert!(output.contains("downloaded_range: ByteRange { start: 0, end: 6 }"));
    assert!(output.contains("payload_len: 6"));
}

#[test]
fn downloads_come_apart_and_clone_with_the_same_bytes() {
    let download = Download::new(5, Bytes::from_static(b"abc")).unwrap();
    let (copied_range, copied) = download.clone().into_parts();
    let (own_range, own) = download.into_parts();

    assert_eq!(copied_range, range(5, 8));
    assert_eq!(own_range, range(5, 8));
    assert_eq!(copied, Bytes::from_static(b"abc"));
    assert_eq!(own.as_ptr(), copied.as_ptr());
}

#[test]
fn download_errors_have_messages() {
    assert_eq!(
        DownloadError::EmptyPayload.message(),
        "download payload must not be empty"
    );
    assert_eq!(
        DownloadError::RangeOverflow {
            downloaded_start: 10,
            payload_bytes: 200,
        }
        .message(),
        "download starting at 10 with 200 bytes exceeds the u64 object-offset space"
    );
}

#[test]
fn requires_both_capacity_roles_to_be_explicit() {
    let config = Config::new("cache", 1 << 40, 256 << 20).unwrap();

    assert_eq!(config.directory(), Path::new("cache"));
    assert_eq!(config.disk_capacity(), 1 << 40);
    assert_eq!(config.memory_capacity(), 256 << 20);
}

#[test]
fn represents_tib_scale_capacity() {
    let capacity = 4 * (1_u64 << 40);
    let config = Config::new("cache", capacity, 1).unwrap();

    assert_eq!(config.disk_capacity(), capacity);
    assert_eq!(config.memory_capacity(), 1);
}

#[test]
fn rejects_zero_capacities() {
    assert_eq!(
        Config::new("cache", 0, 1).unwrap_err(),
        ConfigError::InvalidDiskCapacity
    );
    assert_eq!(
        Config::new("cache", 1, 0).unwrap_err(),
        ConfigError::InvalidMemoryCapacity
    );
}

#[test]
fn config_errors_have_messages_and_configs_clone() {
    assert_eq!(
        ConfigError::InvalidDiskCapacity.message(),
        "disk capacity must be greater than zero"
    );
    assert_eq!(
        ConfigError::InvalidMemoryCapacity.message(),
        "memory capacity must be greater than zero"
    );
    let config = Config::new("cache", 2, 3).unwrap();
    assert_eq!(config.clone(), config);
}
