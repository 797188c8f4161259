use shabti::dedup::{DedupChecker, StoreResult};
use shabti::engine::{
    abort_store, begin_store, complete_store, expand_links, finish_store, rebuild_dedup, select_entries, validate_namespace, StoreOptions, StoreStep,
};
use shabti::entry::content_hash_of;
use shabti::error::ShabtiError;

fn validation_message(r: Result<(), ShabtiError>) -> String {
    match r {
        Err(ShabtiError::Validation(m)) => m,
        other => panic!("expected a validation error, got {other:?}"),
    }
}

#[test]
fn namespace_accepts_ordinary_names() {
    assert!(validate_namespace("default").is_ok());
    assert!(validate_namespace("agent:alice").is_ok());
    assert!(validate_namespace("a.b/c").is_ok());
    assert!(validate_namespace(&"x".repeat(256)).is_ok());
}

#[test]
fn namespace_rejects_empty_long_and_path_like() {
    assert_eq!(validation_message(validate_namespace("")), "namespace must not be empty");
    assert_eq!(
        validation_message(validate_namespace(&"x".repeat(257))),
        "namespace must not exceed 256 characters"
    );
    assert_eq!(
        validation_message(validate_namespace("a/../b")),
        "namespace contains invalid characters"
    );
    assert_eq!(
        validation_message(validate_namespace("/etc")),
        "namespace contains invalid characters"
    );
}

#[test]
fn namespace_length_counts_bytes() {
    // 128 two-byte characters are 256 bytes; one more is too long.
    assert!(validate_namespace(&"é".repeat(128)).is_ok());
    assert!(validate_namespace(&"é".repeat(129)).is_err());
}

#[test]
fn store_reserves_then_commits() {
    let mut dedup = DedupChecker::new();
    let opts = StoreOptions::default();
    let step = begin_store(&mut dedup, "hello", &opts).unwrap();
    let hash = match step {
        StoreStep::Proceed(h) => h,
        other => panic!("expected to proceed, got {other:?}"),
    };
    assert_eq!(hash, content_hash_of("hello"));
    assert!(dedup.is_known(&hash));
    assert!(!dedup.contains(&hash));

    // A concurrent store of the same content is answered while in flight.
    match begin_store(&mut dedup, "hello", &opts).unwrap() {
        StoreStep::Skip(r) => assert_eq!(r, StoreResult::Skipped { existing_id: 0 }),
        other => panic!("expected a skip, got {other:?}"),
    }

    let (result, count, links) = finish_store(&mut dedup, &hash, 42, 9);
    assert_eq!(result, StoreResult::Stored(42));
    assert_eq!(count, 10);
    assert!(links, "ten entries reach the Basic tier");
    assert_eq!(dedup.committed_id(&hash), Some(42));

    match begin_store(&mut dedup, "hello", &opts).unwrap() {
        StoreStep::Skip(r) => assert_eq!(r, StoreResult::Skipped { existing_id: 42 }),
        other => panic!("expected a skip, got {other:?}"),
    }
}

#[test]
fn store_links_wait_for_basic_tier() {
    let mut dedup = DedupChecker::new();
    let (_, count, links) = finish_store(&mut dedup, "h", 1, 0);
    assert_eq!(count, 1);
    assert!(!links);
}

#[test]
fn store_checks_namespace_first() {
    let mut dedup = DedupChecker::new();
    let opts = StoreOptions { namespace: Some("../x".to_string()), ..StoreOptions::default() };
    match begin_store(&mut dedup, "hello", &opts) {
        Err(ShabtiError::Validation(m)) => assert_eq!(m, "namespace contains invalid characters"),
        other => panic!("expected a validation error, got {other:?}"),
    }
    assert!(!dedup.is_known(&content_hash_of("hello")));
}

#[test]
fn rebuild_keeps_first_id_per_hash() {
    let log = vec![("a".to_string(), 1u128), ("b".to_string(), 2), ("a".to_string(), 3)];
    let (dedup, count) = rebuild_dedup(&log);
    assert_eq!(count, 3);
    assert_eq!(dedup.len(), 2);
    assert_eq!(dedup.committed_id("a"), Some(1));
    assert_eq!(dedup.committed_id("b"), Some(2));
}

#[test]
fn listing_filters_by_namespace_and_limits() {
    let ns: Vec<String> = ["work", "home", "work", "work"].iter().map(|s| s.to_string()).collect();
    assert_eq!(select_entries(&ns, None, None).unwrap(), vec![0, 1, 2, 3]);
    assert_eq!(select_entries(&ns, Some("work"), None).unwrap(), vec![0, 2, 3]);
    assert_eq!(select_entries(&ns, Some("work"), Some(2)).unwrap(), vec![0, 2]);
    assert_eq!(select_entries(&ns, None, Some(10)).unwrap(), vec![0, 1, 2, 3]);
    assert!(select_entries(&ns, Some("none"), None).unwrap().is_empty());
    assert!(select_entries(&ns, Some(""), None).is_err());
}

#[test]
fn link_expansion_adds_each_new_neighbor_once() {
    let seeds = [1u128, 2];
    let neighbors = vec![vec![2u128, 3, 4], vec![3, 5, 1]];
    assert_eq!(expand_links(&seeds, &neighbors), vec![(0, 1), (0, 2), (1, 1)]);
    assert!(expand_links(&[], &vec![]).is_empty());
}

#[test]
fn rebuilt_store_skips_logged_content_with_first_id() {
    let h = content_hash_of("hello");
    let log = vec![(h.clone(), 7u128), (content_hash_of("other"), 8), (h.clone(), 9)];
    let (mut dedup, count) = rebuild_dedup(&log);
    assert_eq!(count, 3);
    let opts = StoreOptions { namespace: Some("work".to_string()), ..StoreOptions::default() };
    match begin_store(&mut dedup, "hello", &opts).unwrap() {
        StoreStep::Skip(r) => assert_eq!(r, StoreResult::Skipped { existing_id: 7 }),
        other => panic!("expected a skip, got {other:?}"),
    }
    assert!(!dedup.is_known(&content_hash_of("new")));
}

#[test]
fn aborted_store_releases_the_reservation() {
    let mut dedup = DedupChecker::new();
    let opts = StoreOptions::default();
    let hash = match begin_store(&mut dedup, "hello", &opts).unwrap() {
        StoreStep::Proceed(h) => h,
        other => panic!("expected to proceed, got {other:?}"),
    };
    assert!(dedup.is_known(&hash));
    abort_store(&mut dedup, &hash);
    assert!(!dedup.is_known(&hash));
    assert_eq!(dedup.committed_id(&hash), None);
    match begin_store(&mut dedup, "hello", &opts).unwrap() {
        StoreStep::Proceed(h) => assert_eq!(h, hash),
        other => panic!("expected to proceed again, got {other:?}"),
    }
}

#[test]
fn completed_store_after_failed_build_releases_and_passes_error() {
    let mut dedup = DedupChecker::new();
    let opts = StoreOptions::default();
    let hash = match begin_store(&mut dedup, "hello", &opts).unwrap() {
        StoreStep::Proceed(h) => h,
        other => panic!("expected to proceed, got {other:?}"),
    };
    match complete_store(&mut dedup, &hash, Err(ShabtiError::Embedding("model failed".to_string())), 4) {
        Err(ShabtiError::Embedding(m)) => assert_eq!(m, "model failed"),
        other => panic!("expected the embedding error, got {other:?}"),
    }
    assert!(!dedup.is_known(&hash));
    assert!(matches!(begin_store(&mut dedup, "hello", &opts).unwrap(), StoreStep::Proceed(_)));
}

#[test]
fn completed_store_with_built_entry_commits() {
    let mut dedup = DedupChecker::new();
    let opts = StoreOptions::default();
    let hash = match begin_store(&mut dedup, "hello", &opts).unwrap() {
        StoreStep::Proceed(h) => h,
        other => panic!("expected to proceed, got {other:?}"),
    };
    let (result, count, links) = complete_store(&mut dedup, &hash, Ok(5), 4).unwrap();
    assert_eq!(result, StoreResult::Stored(5));
    assert_eq!(count, 5);
    assert!(!links);
    let other = StoreOptions { namespace: Some("team".to_string()), ..StoreOptions::default() };
    match begin_store(&mut dedup, "hello", &other).unwrap() {
        StoreStep::Skip(r) => assert_eq!(r, StoreResult::Skipped { existing_id: 5 }),
        step => panic!("expected a skip, got {step:?}"),
    }
}
