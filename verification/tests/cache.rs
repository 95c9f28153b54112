use bytes::Bytes;
use feuer::cache::{accept, requested_slice, Cache, GetOrFetchError};
use feuer::config::Config;
use feuer::keys::ObjectKey;
use feuer::range::ByteRange;
use feuer::Download;
use std::cell::Cell;
use std::convert::Infallible;

fn range(start: u64, end: u64) -> ByteRange {
    ByteRange::new(start, end).unwrap()
}

fn cache(memory_capacity: u64) -> Cache {
    Cache::new(Config::new("unused", 1024, memory_capacity).unwrap(), Some(1))
}

#[test]
fn cache_handle_is_send_sync_static() {
    fn assert_send_sync_static<T: Send + Sync + 'static>() {}
    assert_send_sync_static::<Cache>();
}

#[test]
fn callback_result_and_covering_memory_hit_return_the_exact_request() {
    let mut cache = cache(32);
    let key = ObjectKey::from("object");
    let payload = Bytes::from_static(b"abcdefghij");
    let callback_count = Cell::new(0);

    let callback_payload = payload.clone();
    let result = cache
        .get_or_fetch(key.clone(), range(13, 17), || {
            callback_count.set(callback_count.get() + 1);
            Ok::<_, Infallible>(Download::new(10, callback_payload).unwrap())
        })
        .unwrap();
    assert_eq!(result, Bytes::from_static(b"defg"));
    assert_eq!(result.as_ptr(), payload.slice(3..).as_ptr());

    let result = cache
        .get_or_fetch(key, range(11, 19), || {
            callback_count.set(callback_count.get() + 1);
            Ok::<_, Infallible>(Download::new(11, Bytes::from_static(b"12345678")).unwrap())
        })
        .unwrap();
    assert_eq!(result, Bytes::from_static(b"bcdefghi"));
    assert_eq!(callback_count.get(), 1);
}

#[test]
fn callback_errors_are_returned_without_retry_or_population() {
    let mut cache = cache(8);
    let key = ObjectKey::from("object");
    let callback_count = Cell::new(0);

    for expected_count in 1..=2 {
        let error = cache
            .get_or_fetch(key.clone(), range(0, 1), || {
                callback_count.set(callback_count.get() + 1);
                Err::<Download, _>("source unavailable")
            })
            .unwrap_err();

        assert_eq!(error, GetOrFetchError::Callback("source unavailable"));
        assert_eq!(callback_count.get(), expected_count);
    }
}

#[test]
fn rejects_noncovering_but_retains_oversized_callback_results() {
    let mut cache = cache(4);
    let key = ObjectKey::from("object");

    let error = cache
        .get_or_fetch(key.clone(), range(2, 4), || {
            Ok::<_, Infallible>(Download::new(0, Bytes::from_static(b"abc")).unwrap())
        })
        .unwrap_err();
    assert_eq!(
        error,
        GetOrFetchError::DownloadDoesNotCover {
            requested_range: range(2, 4),
            downloaded_range: range(0, 3),
        }
    );

    let result = cache
        .get_or_fetch(key.clone(), range(2, 4), || {
            Ok::<_, Infallible>(Download::new(0, Bytes::from_static(b"abcde")).unwrap())
        })
        .unwrap();
    assert_eq!(result, Bytes::from_static(b"cd"));

    let unexpected_callback_count = Cell::new(0);
    let result = cache
        .get_or_fetch(key, range(0, 5), || {
            unexpected_callback_count.set(unexpected_callback_count.get() + 1);
            Ok::<_, Infallible>(Download::new(0, Bytes::from_static(b"XXXXX")).unwrap())
        })
        .unwrap();
    assert_eq!(result, Bytes::from_static(b"abcde"));
    assert_eq!(unexpected_callback_count.get(), 0);
}

#[test]
fn a_racing_contained_download_is_discarded_but_returns_its_own_bytes() {
    let mut cache = cache(32);
    let key = ObjectKey::from("object");

    // The first lookup has missed and waits for its callback.
    assert!(cache.lookup(&key, range(3, 5)).is_none());
    cache
        .get_or_fetch(key.clone(), range(0, 10), || {
            Ok::<_, Infallible>(Download::new(0, Bytes::from_static(b"abcdefghij")).unwrap())
        })
        .unwrap();
    let pending = cache.complete(
        key.clone(),
        range(3, 5),
        Ok::<_, Infallible>(Download::new(2, Bytes::from_static(b"XXXXXX")).unwrap()),
    );
    assert_eq!(pending.unwrap(), Bytes::from_static(b"XX"));

    let unexpected_callback_count = Cell::new(0);
    let cached = cache
        .get_or_fetch(key, range(2, 8), || {
            unexpected_callback_count.set(unexpected_callback_count.get() + 1);
            Ok::<_, Infallible>(Download::new(2, Bytes::from_static(b"123456")).unwrap())
        })
        .unwrap();
    assert_eq!(cached, Bytes::from_static(b"cdefgh"));
    assert_eq!(unexpected_callback_count.get(), 0);
}

#[test]
fn a_cache_keeps_its_configuration() {
    let cache = cache(77);
    assert_eq!(cache.config().memory_capacity(), 77);
    assert_eq!(cache.config().disk_capacity(), 1024);
    assert!(cache.has_headroom(&ObjectKey::from("object")));
}

#[test]
fn outcomes_are_accepted_sliced_or_refused() {
    let download = Download::new(10, Bytes::from_static(b"abcdef")).unwrap();
    let (bytes, kept) = accept(Ok::<_, &str>(download.clone()), range(12, 14)).unwrap();
    assert_eq!(bytes, Bytes::from_static(b"cd"));
    assert_eq!(kept.downloaded_range(), range(10, 16));
    assert_eq!(
        accept(Ok::<_, &str>(download), range(9, 14)).err(),
        Some(GetOrFetchError::DownloadDoesNotCover {
            requested_range: range(9, 14),
            downloaded_range: range(10, 16),
        })
    );
    assert_eq!(
        accept(Err("offline"), range(9, 14)).err(),
        Some(GetOrFetchError::Callback("offline"))
    );
    assert_eq!(
        requested_slice(&Bytes::from_static(b"abcdef"), range(10, 16), range(10, 11)),
        Bytes::from_static(b"a")
    );
}

#[test]
fn every_concurrent_miss_invokes_its_own_callback() {
    let mut cache = cache(32);
    let key = ObjectKey::from("object");
    let callback_count = Cell::new(0);
    let callback = || {
        callback_count.set(callback_count.get() + 1);
        Ok::<_, Infallible>(Download::new(0, Bytes::from_static(b"abcdefgh")).unwrap())
    };

    // Both lookups miss before either callback returns.
    let misses = [cache.lookup(&key, range(2, 5)), cache.lookup(&key, range(2, 5))];
    for miss in misses {
        assert!(miss.is_none());
        let result = cache.complete(key.clone(), range(2, 5), callback());
        assert_eq!(result.unwrap(), Bytes::from_static(b"cde"));
    }
    assert_eq!(callback_count.get(), 2);
}
