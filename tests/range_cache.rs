use buzz::cached_read::{CachedRead, CachedReadData};
use buzz::error::CacheError;
use buzz::range_cache::RangeCache;
use std::cell::Cell;

fn bytes(from: u8, count: usize) -> Vec<u8> {
    let mut v = Vec::new();
    let mut b = from;
    for _ in 0..count {
        v.push(b);
        b = b.wrapping_add(1);
    }
    v
}

fn s(text: &str) -> String {
    text.to_string()
}

fn read_all(data: CachedReadData) -> Vec<u8> {
    let mut reader = CachedRead::new();
    reader.deliver(Ok(data));
    let mut out = Vec::new();
    let mut buf = [0u8; 7];
    loop {
        let n = reader.read(&mut buf).unwrap();
        if n == 0 {
            break;
        }
        out.extend_from_slice(&buf[..n]);
    }
    out
}

#[test]
fn round_trip_returns_downloaded_bytes() {
    let mut cache: RangeCache<u32> = RangeCache::new(4);
    cache.register_downloader("s3", || 7);
    let req = cache.schedule(s("s3"), s("file"), 40, 25).unwrap();
    assert_eq!(req.start, 40);
    assert_eq!(req.length, 25);
    let payload = bytes(3, 25);
    assert!(cache.complete(&req, Ok(payload.clone())).is_none());
    assert!(cache.get(s("s3"), s("file"), 40, 25).is_ok());
    let data = cache.resolve(&s("s3"), &s("file"), 40, 25).unwrap().unwrap();
    assert_eq!(read_all(data), payload);
}

#[test]
fn floor_selection_uses_nearest_chunk_below() {
    let mut cache: RangeCache<u32> = RangeCache::new(4);
    let first = cache.schedule(s("s3"), s("f"), 0, 1000).unwrap();
    let second = cache.schedule(s("s3"), s("f"), 1000, 100).unwrap();
    cache.complete(&first, Ok(vec![0u8; 1000]));
    cache.complete(&second, Ok(bytes(100, 100)));
    let data = cache.resolve(&s("s3"), &s("f"), 1005, 10).unwrap().unwrap();
    assert_eq!(read_all(data), bytes(105, 10));
}

#[test]
fn unscheduled_read_fails() {
    let cache: RangeCache<u32> = RangeCache::new(2);
    match cache.get(s("s3"), s("F"), 500, 10) {
        Err(CacheError::NotScheduled { file_id, start, length }) => {
            assert_eq!(file_id, "F");
            assert_eq!(start, 500);
            assert_eq!(length, 10);
        }
        _ => panic!("expected NotScheduled"),
    }
    assert!(matches!(
        cache.resolve(&s("s3"), &s("F"), 500, 10),
        Some(Err(CacheError::NotScheduled { .. }))
    ));
}

#[test]
fn read_before_first_chunk_is_not_scheduled() {
    let mut cache: RangeCache<u32> = RangeCache::new(2);
    cache.schedule(s("s3"), s("F"), 600, 10);
    assert!(matches!(
        cache.get(s("s3"), s("F"), 500, 10),
        Err(CacheError::NotScheduled { .. })
    ));
    assert!(cache.get(s("s3"), s("F"), 605, 1).is_ok());
}

#[test]
fn overflow_detected() {
    let mut cache: RangeCache<u32> = RangeCache::new(2);
    let req = cache.schedule(s("s3"), s("F"), 100, 50).unwrap();
    cache.complete(&req, Ok(bytes(0, 50)));
    match cache.resolve(&s("s3"), &s("F"), 100, 60) {
        Some(Err(CacheError::Overflow { file_id, start, length })) => {
            assert_eq!(file_id, "F");
            assert_eq!(start, 100);
            assert_eq!(length, 60);
        }
        _ => panic!("expected Overflow"),
    }
    let data = cache.resolve(&s("s3"), &s("F"), 100, 50).unwrap().unwrap();
    assert_eq!(read_all(data), bytes(0, 50));
}

#[test]
fn overflow_past_chunk_end_from_inner_offset() {
    let mut cache: RangeCache<u32> = RangeCache::new(2);
    let req = cache.schedule(s("s3"), s("F"), 0, 10).unwrap();
    cache.complete(&req, Ok(bytes(0, 10)));
    assert!(matches!(
        cache.resolve(&s("s3"), &s("F"), 12, 1),
        Some(Err(CacheError::Overflow { .. }))
    ));
    let data = cache.resolve(&s("s3"), &s("F"), 10, 0).unwrap().unwrap();
    assert_eq!(read_all(data), Vec::<u8>::new());
}

#[test]
fn concurrent_waiters_share_one_download() {
    let mut cache: RangeCache<u32> = RangeCache::new(2);
    let req = cache.schedule(s("s3"), s("F"), 0, 16).unwrap();
    for _ in 0..5 {
        assert!(cache.get(s("s3"), s("F"), 4, 8).is_ok());
        assert!(cache.resolve(&s("s3"), &s("F"), 4, 8).is_none());
    }
    assert_eq!(cache.complete(&req, Ok(bytes(0, 16))).is_none(), true);
    let mut seen = Vec::new();
    for _ in 0..5 {
        let data = cache.resolve(&s("s3"), &s("F"), 4, 8).unwrap().unwrap();
        seen.push(read_all(data));
    }
    for got in &seen {
        assert_eq!(got, &bytes(4, 8));
    }
}

#[test]
fn bounded_concurrency_runs_in_rounds() {
    let mut cache: RangeCache<u32> = RangeCache::new(2);
    let mut running = Vec::new();
    for i in 0..5u64 {
        if let Some(req) = cache.schedule(s("s3"), s("F"), i * 10, 10) {
            running.push(req);
        }
    }
    assert_eq!(running.len(), 2);
    let mut rounds = 0;
    let mut peak = running.len();
    while !running.is_empty() {
        rounds += 1;
        let batch: Vec<_> = running.drain(..).collect();
        for req in &batch {
            if let Some(next) = cache.complete(req, Ok(bytes(0, 10))) {
                running.push(next);
            }
        }
        peak = peak.max(running.len());
        assert!(running.len() <= 2);
    }
    assert_eq!(rounds, 3);
    assert!(peak <= 2);
}

#[test]
fn waiting_requests_start_in_arrival_order() {
    let mut cache: RangeCache<u32> = RangeCache::new(1);
    let first = cache.schedule(s("s3"), s("F"), 0, 1).unwrap();
    assert!(cache.schedule(s("s3"), s("F"), 10, 1).is_none());
    assert!(cache.schedule(s("s3"), s("F"), 20, 1).is_none());
    let second = cache.complete(&first, Ok(vec![1])).unwrap();
    assert_eq!(second.start, 10);
    let third = cache.complete(&second, Ok(vec![2])).unwrap();
    assert_eq!(third.start, 20);
    assert!(cache.complete(&third, Ok(vec![3])).is_none());
}

#[test]
fn registration_is_idempotent() {
    let calls_a = Cell::new(0);
    let calls_b = Cell::new(0);
    let mut cache: RangeCache<&'static str> = RangeCache::new(1);
    cache.register_downloader("s3", || {
        calls_a.set(calls_a.get() + 1);
        "factoryA"
    });
    cache.register_downloader("s3", || {
        calls_b.set(calls_b.get() + 1);
        "factoryB"
    });
    assert_eq!(cache.downloader(&s("s3")), Some(&"factoryA"));
    assert_eq!(calls_a.get(), 1);
    assert_eq!(calls_b.get(), 0);
    assert_eq!(cache.downloader(&s("http")), None);
}

#[test]
fn download_failure_reaches_every_reader() {
    let mut cache: RangeCache<u32> = RangeCache::new(1);
    let req = cache.schedule(s("http"), s("F"), 0, 10).unwrap();
    cache.complete(&req, Err(s("connection reset")));
    for _ in 0..2 {
        match cache.resolve(&s("http"), &s("F"), 2, 3) {
            Some(Err(CacheError::DownloadFailed { file_id, start, length, reason })) => {
                assert_eq!(file_id, "F");
                assert_eq!(start, 2);
                assert_eq!(length, 3);
                assert_eq!(reason, "connection reset");
            }
            _ => panic!("expected DownloadFailed"),
        }
    }
}

#[test]
fn sources_are_cached_separately() {
    let mut cache: RangeCache<u32> = RangeCache::new(4);
    let a = cache.schedule(s("s3"), s("F"), 0, 4).unwrap();
    let b = cache.schedule(s("http"), s("F"), 0, 4).unwrap();
    cache.complete(&a, Ok(vec![1, 1, 1, 1]));
    assert!(cache.resolve(&s("http"), &s("F"), 0, 4).is_none());
    cache.complete(&b, Ok(vec![2, 2, 2, 2]));
    let from_a = cache.resolve(&s("s3"), &s("F"), 0, 4).unwrap().unwrap();
    let from_b = cache.resolve(&s("http"), &s("F"), 0, 4).unwrap().unwrap();
    assert_eq!(read_all(from_a), vec![1, 1, 1, 1]);
    assert_eq!(read_all(from_b), vec![2, 2, 2, 2]);
    assert!(matches!(
        cache.get(s("s3"), s("G"), 0, 1),
        Err(CacheError::NotScheduled { .. })
    ));
}

#[test]
fn rescheduling_an_offset_makes_it_pending_again() {
    let mut cache: RangeCache<u32> = RangeCache::new(4);
    let first = cache.schedule(s("s3"), s("F"), 0, 4).unwrap();
    cache.complete(&first, Ok(vec![9, 9, 9, 9]));
    let again = cache.schedule(s("s3"), s("F"), 0, 4).unwrap();
    assert!(cache.resolve(&s("s3"), &s("F"), 0, 4).is_none());
    cache.complete(&again, Ok(vec![5, 6, 7, 8]));
    let data = cache.resolve(&s("s3"), &s("F"), 1, 2).unwrap().unwrap();
    assert_eq!(read_all(data), vec![6, 7]);
}
