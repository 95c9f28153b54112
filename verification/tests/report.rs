use feuer::downloader::DownloadPolicy;
use feuer::replay::{NativeFoyerKeyMode, ReplayError, WorkloadError};
use feuer::report::{
    check_arguments, compared_key_modes, format_bytes, format_decimal_bytes, human_engine_name,
    ArgumentError, ByteText,
};

#[test]
fn byte_counts_print_in_their_largest_unit() {
    assert_eq!(format_bytes(8 << 20), ByteText::Whole("8 MiB".to_owned()));
    assert_eq!(format_decimal_bytes(10_000_000), ByteText::Whole("10 MB".to_owned()));
    assert_eq!(format_bytes(3 << 30), ByteText::Whole("3 GiB".to_owned()));
    assert_eq!(format_bytes(1 << 10), ByteText::Whole("1 KiB".to_owned()));
    assert_eq!(format_bytes(1_023), ByteText::Whole("1023 B".to_owned()));
    assert_eq!(format_decimal_bytes(0), ByteText::Whole("0 B".to_owned()));
    assert_eq!(
        format_bytes((1 << 20) + 1),
        ByteText::Fraction {
            unit_bytes: 1 << 20,
            suffix: "MiB",
        }
    );
    assert_eq!(
        format_decimal_bytes(1_500_000_000),
        ByteText::Fraction {
            unit_bytes: 1_000_000_000,
            suffix: "GB",
        }
    );
    assert_eq!(format_decimal_bytes(2_000), ByteText::Whole("2 KB".to_owned()));
}

#[test]
fn engines_have_names_for_tables() {
    assert_eq!(human_engine_name("feuer-value-aware"), "Feuer");
    assert_eq!(human_engine_name("foyer-native-exact-key"), "Foyer");
    assert_eq!(human_engine_name("foyer-native-expanded-key"), "Foyer (expanded key)");
    assert_eq!(human_engine_name("range-test"), "range-test");
}

#[test]
fn arguments_must_name_nonzero_values() {
    let both = vec![DownloadPolicy::Expanded, DownloadPolicy::Exact];
    assert_eq!(check_arguments(&vec![1, 2], &vec![16], &both), Ok(()));
    assert_eq!(check_arguments(&vec![], &vec![0], &vec![]), Err(ArgumentError::Capacity));
    assert_eq!(check_arguments(&vec![1, 0], &vec![16], &both), Err(ArgumentError::Capacity));
    assert_eq!(check_arguments(&vec![1], &vec![0], &both), Err(ArgumentError::Shards));
    assert_eq!(check_arguments(&vec![1], &vec![], &both), Err(ArgumentError::Shards));
    assert_eq!(check_arguments(&vec![1], &vec![1], &vec![]), Err(ArgumentError::Downloader));
    assert_eq!(ArgumentError::Capacity.message(), "--capacity values must be nonzero");
    assert_eq!(ArgumentError::Shards.message(), "--shards values must be nonzero");
    assert_eq!(
        ArgumentError::Downloader.message(),
        "at least one --downloader value is required"
    );
}

#[test]
fn expanded_keys_are_compared_only_where_downloads_expand() {
    assert_eq!(
        compared_key_modes(DownloadPolicy::Expanded),
        vec![NativeFoyerKeyMode::ExactRequest, NativeFoyerKeyMode::ExpandedDownload]
    );
    assert_eq!(
        compared_key_modes(DownloadPolicy::Exact),
        vec![NativeFoyerKeyMode::ExactRequest]
    );
}

#[test]
fn workload_and_replay_errors_have_messages() {
    assert_eq!(WorkloadError::Empty.message(), "trace is empty");
    assert_eq!(
        WorkloadError::BeyondObject {
            index: 12,
            start: 0,
            end: 100,
            object_size: 99,
        }
        .message(),
        "operation 12 requests 0..100 beyond object size 99"
    );
    assert_eq!(
        WorkloadError::OutOfOrder { index: 7 }.message(),
        "operation 7 has a timestamp earlier than its predecessor"
    );
    assert_eq!(
        ReplayError::PayloadTooLong.message(),
        "callback payload length does not fit usize"
    );
    assert_eq!(
        ReplayError::SourceTooShort.message(),
        "coalesced callback payload exceeded the precomputed source allocation"
    );
    assert_eq!(ReplayError::Populate("no room".to_owned()).message(), "no room");
}
