//! Scenario tests for the cache engine: admission, eviction, filters and
//! the counter's behaviour across hits, misses and failures.

use file_cache::cache::{Cache, CacheBuilder, ConfigError};
use file_cache::policy::RejectReason;
use file_cache::reader::{MemoryReader, ReadError};
use std::sync::Arc;
use std::sync::Mutex;

fn p(s: &str) -> Vec<u8> {
    s.as_bytes().to_vec()
}

fn reader_with(files: &[(&str, usize)]) -> MemoryReader {
    let mut r = MemoryReader::new();
    for (path, size) in files {
        r.add_file(p(path), vec![7u8; *size]);
    }
    r
}

#[test]
fn s1_fits_no_eviction() {
    let mut c = Cache::new(1000, reader_with(&[("/a", 300)]));
    let h = c.get_or_cache(p("/a")).expect("readable file must be served");
    assert_eq!(h.size(), 300);
    assert_eq!(h.path(), &p("/a"));
    assert!(c.contains(&p("/a")));
    assert_eq!(c.used_bytes(), 300);
    assert_eq!(c.access_count(&p("/a")), 1);
    assert_eq!(c.len(), 1);
    assert!(c.used_bytes() <= 1000);
}

#[test]
fn s2_hit_does_not_reread() {
    let mut c = Cache::new(1000, reader_with(&[("/a", 300)]));
    let h1 = c.get_or_cache(p("/a")).unwrap();
    assert_eq!(c.reader().reads(), 1);
    let h2 = c.get_or_cache(p("/a")).unwrap();
    assert_eq!(c.reader().reads(), 1, "a resident file must not be re-read");
    assert_eq!(c.used_bytes(), 300);
    assert_eq!(c.access_count(&p("/a")), 2);
    assert_eq!(h1.bytes(), h2.bytes(), "hit serves byte-identical content");
}

#[test]
fn s3_evicts_only_less_demanded() {
    let mut c = Cache::new(500, reader_with(&[("/a", 400), ("/b", 200)]));
    c.get_or_cache(p("/a")).unwrap();
    assert_eq!(c.access_count(&p("/a")), 1);
    assert!(c.contains(&p("/a")));

    // First request for /b: its count (1) does not exceed /a's (1).
    let h = c.get_or_cache(p("/b")).unwrap();
    assert_eq!(h.size(), 200, "rejected file is still served");
    assert!(!c.contains(&p("/b")));
    assert!(c.contains(&p("/a")));
    assert_eq!(c.used_bytes(), 400);

    // Second request: /b's count (2) now exceeds /a's (1), so /a goes.
    c.get_or_cache(p("/b")).unwrap();
    assert!(c.contains(&p("/b")));
    assert!(!c.contains(&p("/a")));
    assert_eq!(c.used_bytes(), 200);
    assert_eq!(c.access_count(&p("/a")), 1, "eviction preserves the count");
    assert_eq!(c.access_count(&p("/b")), 2);
    assert!(c.used_bytes() <= 500);
}

#[test]
fn s4_too_large_served_never_retained() {
    let mut c = Cache::new(100, reader_with(&[("/big", 500)]));
    let h = c.get_or_cache(p("/big")).unwrap();
    assert_eq!(h.size(), 500);
    assert!(!c.contains(&p("/big")));
    assert_eq!(c.used_bytes(), 0);
    assert_eq!(c.len(), 0);
    assert_eq!(c.access_count(&p("/big")), 1);

    // Repeated requests always re-read.
    c.get_or_cache(p("/big")).unwrap();
    c.get_or_cache(p("/big")).unwrap();
    assert_eq!(c.reader().reads(), 3);
    assert!(!c.contains(&p("/big")));
}

#[test]
fn s5_missing_file_counted_not_served() {
    let mut c = Cache::new(1000, reader_with(&[("/a", 10)]));
    c.get_or_cache(p("/a")).unwrap();
    let before = c.used_bytes();
    let r = c.get_or_cache(p("/ghost"));
    assert!(r.is_none());
    assert_eq!(c.used_bytes(), before);
    assert_eq!(c.access_count(&p("/ghost")), 1);
    assert!(!c.contains(&p("/ghost")));
}

#[test]
fn s6_multi_victim_greedy_stops_early() {
    let mut c = Cache::new(100, reader_with(&[("/x", 40), ("/y", 40), ("/z", 50)]));
    c.get_or_cache(p("/x")).unwrap();
    c.get_or_cache(p("/y")).unwrap();
    assert_eq!(c.used_bytes(), 80);

    c.get_or_cache(p("/z")).unwrap();
    assert!(!c.contains(&p("/z")), "equal demand must not displace");
    c.get_or_cache(p("/z")).unwrap();
    // needed = 30; one 40-byte victim suffices; ties break to the
    // lexicographically earlier path, so /x goes and /y stays.
    assert!(c.contains(&p("/z")));
    assert!(c.contains(&p("/y")));
    assert!(!c.contains(&p("/x")));
    assert_eq!(c.used_bytes(), 90);
    assert_eq!(c.access_count(&p("/x")), 1);
}

#[test]
fn exact_fit_exchange_needs_strictly_more_demand() {
    let mut c = Cache::new(300, reader_with(&[("/a", 300), ("/b", 100)]));
    c.get_or_cache(p("/a")).unwrap();
    assert!(c.contains(&p("/a")));
    assert_eq!(c.used_bytes(), 300);

    let h = c.get_or_cache(p("/b")).unwrap();
    assert_eq!(h.size(), 100);
    assert!(!c.contains(&p("/b")), "equal count cannot displace the resident");
    c.get_or_cache(p("/b")).unwrap();
    assert!(c.contains(&p("/b")));
    assert!(!c.contains(&p("/a")));
    assert_eq!(c.used_bytes(), 100);
}

#[test]
fn get_never_reads_or_admits() {
    let mut c = Cache::new(1000, reader_with(&[("/a", 10)]));
    let r = c.get(&p("/a"));
    assert!(r.is_none());
    assert_eq!(c.reader().reads(), 0);
    assert_eq!(c.access_count(&p("/a")), 1);
    assert_eq!(c.len(), 0);
}

#[test]
fn counter_positive_iff_observed() {
    let mut c = Cache::new(1000, reader_with(&[("/a", 10)]));
    assert_eq!(c.access_count(&p("/a")), 0);
    assert_eq!(c.access_count(&p("/other")), 0);
    c.get(&p("/a"));
    assert_eq!(c.access_count(&p("/a")), 1);
    c.get_or_cache(p("/a")).unwrap();
    assert_eq!(c.access_count(&p("/a")), 2);
    assert_eq!(c.access_count(&p("/other")), 0, "unobserved paths stay at zero");
}

#[test]
fn read_failures_counted_and_not_cached() {
    let mut r = MemoryReader::new();
    r.add_file(p("/locked"), vec![1u8; 10]);
    r.fail_with(p("/locked"), ReadError::PermissionDenied);
    r.fail_with(p("/broken"), ReadError::Io(5));
    let mut c = Cache::new(1000, r);
    assert!(c.get_or_cache(p("/locked")).is_none());
    assert!(c.get_or_cache(p("/broken")).is_none());
    assert_eq!(c.access_count(&p("/locked")), 1);
    assert_eq!(c.access_count(&p("/broken")), 1);
    assert_eq!(c.used_bytes(), 0);
}

#[test]
fn store_requires_more_demand_than_every_victim() {
    let mut c = Cache::new(100, reader_with(&[("/x", 60), ("/y", 60)]));
    c.get_or_cache(p("/x")).unwrap();
    // Observe /y once, then store it directly: counts are tied at 1.
    c.get(&p("/y"));
    let blob = Arc::new(file_cache::blob::SizedFile::new(vec![9u8; 60]));
    let r = c.store(p("/y"), Arc::clone(&blob));
    assert_eq!(r, Err(RejectReason::InsufficientDemand));
    assert!(c.contains(&p("/x")));

    // A second observation makes /y strictly more demanded.
    c.get(&p("/y"));
    let r2 = c.store(p("/y"), blob);
    assert_eq!(r2, Ok(()));
    assert!(c.contains(&p("/y")));
    assert!(!c.contains(&p("/x")));
    assert_eq!(c.used_bytes(), 60);
}

#[test]
fn store_rejects_oversized_candidate() {
    let mut c = Cache::new(100, MemoryReader::new());
    c.get(&p("/huge"));
    let blob = Arc::new(file_cache::blob::SizedFile::new(vec![9u8; 200]));
    assert_eq!(c.store(p("/huge"), blob), Err(RejectReason::TooLarge));
    assert_eq!(c.used_bytes(), 0);
}

#[test]
fn size_and_size_bytes_match_len_and_used() {
    let mut c = Cache::new(1000, reader_with(&[("/a", 30), ("/b", 40)]));
    c.get_or_cache(p("/a")).unwrap();
    c.get_or_cache(p("/b")).unwrap();
    assert_eq!(c.size(), 2);
    assert_eq!(c.size(), c.len());
    assert_eq!(c.size_bytes(), 70);
    assert_eq!(c.size_bytes(), c.used_bytes());
}

#[test]
fn entries_snapshot_lists_path_size_count() {
    let mut c = Cache::new(1000, reader_with(&[("/a", 30), ("/b", 40)]));
    c.get_or_cache(p("/a")).unwrap();
    c.get_or_cache(p("/b")).unwrap();
    c.get_or_cache(p("/b")).unwrap();
    assert_eq!(c.entries(), vec![(p("/a"), 30, 1), (p("/b"), 40, 2)]);
}

#[test]
fn lowest_access_count_picks_least_then_lex() {
    let mut c = Cache::new(1000, reader_with(&[("/a", 10), ("/b", 10), ("/c", 10)]));
    assert_eq!(c.lowest_access_count_in_file_map(), None);
    c.get_or_cache(p("/c")).unwrap();
    c.get_or_cache(p("/b")).unwrap();
    c.get_or_cache(p("/a")).unwrap();
    c.get_or_cache(p("/a")).unwrap();
    // /b and /c are tied at one access; /b is lexicographically first.
    assert_eq!(c.lowest_access_count_in_file_map(), Some((1, p("/b"))));
}

#[test]
fn used_bytes_equals_sum_of_entry_sizes() {
    let mut c = Cache::new(200, reader_with(&[("/a", 50), ("/b", 70), ("/c", 100)]));
    let paths = ["/a", "/b", "/c", "/a", "/c", "/c"];
    for path in paths {
        c.get_or_cache(p(path));
        let total: usize = c.entries().iter().map(|e| e.1).sum();
        assert_eq!(c.used_bytes(), total);
        assert!(c.used_bytes() <= 200);
    }
}

#[test]
fn empty_file_is_cacheable() {
    let mut c = Cache::new(100, reader_with(&[("/empty", 0)]));
    let h = c.get_or_cache(p("/empty")).unwrap();
    assert_eq!(h.size(), 0);
    assert_eq!(h.bytes().len(), 0);
    assert!(c.contains(&p("/empty")));
    assert_eq!(c.used_bytes(), 0);
    assert_eq!(c.len(), 1);
}

#[test]
fn builder_reports_every_violation() {
    let r = CacheBuilder::<MemoryReader>::new().build();
    assert_eq!(
        r.err().unwrap(),
        vec![ConfigError::LimitZero, ConfigError::ReaderMissing]
    );

    let r2 = CacheBuilder::new()
        .size_limit_bytes(100)
        .reader(MemoryReader::new())
        .min_file_size(50)
        .max_file_size(10)
        .build();
    assert_eq!(r2.err().unwrap(), vec![ConfigError::MinGreaterThanMax]);
}

#[test]
fn builder_builds_a_working_engine() {
    let mut c = CacheBuilder::new()
        .size_limit_bytes(1000)
        .reader(reader_with(&[("/a", 300)]))
        .build()
        .ok()
        .unwrap();
    assert_eq!(c.used_bytes(), 0);
    assert_eq!(c.len(), 0);
    c.get_or_cache(p("/a")).unwrap();
    assert!(c.contains(&p("/a")));
}

#[test]
fn size_filters_bypass_admission_but_still_serve() {
    let mut c = CacheBuilder::new()
        .size_limit_bytes(1000)
        .reader(reader_with(&[("/tiny", 5), ("/mid", 50), ("/large", 400)]))
        .min_file_size(10)
        .max_file_size(100)
        .build()
        .ok()
        .unwrap();
    let h = c.get_or_cache(p("/tiny")).unwrap();
    assert_eq!(h.size(), 5);
    assert!(!c.contains(&p("/tiny")));
    let h2 = c.get_or_cache(p("/large")).unwrap();
    assert_eq!(h2.size(), 400);
    assert!(!c.contains(&p("/large")));
    c.get_or_cache(p("/mid")).unwrap();
    assert!(c.contains(&p("/mid")));
    assert_eq!(c.used_bytes(), 50);
}

#[test]
fn handle_outlives_eviction() {
    let mut c = Cache::new(300, reader_with(&[("/a", 300), ("/b", 100)]));
    let h = c.get_or_cache(p("/a")).unwrap();
    c.get_or_cache(p("/b")).unwrap();
    c.get_or_cache(p("/b")).unwrap();
    assert!(!c.contains(&p("/a")), "/a was evicted for /b");
    assert_eq!(h.size(), 300, "the outstanding handle still serves its bytes");
    assert_eq!(h.bytes().len(), 300);
}

#[test]
fn engine_shared_behind_a_lock() {
    let c = Mutex::new(Cache::new(1000, reader_with(&[("/a", 300)])));
    let h = c.lock().unwrap().get_or_cache(p("/a")).unwrap();
    assert_eq!(h.size(), 300);
    assert!(c.lock().unwrap().contains(&p("/a")));
}
