use buzz::cached_file::CachedFile;
use buzz::downloader::Downloader;
use buzz::error::CacheError;
use buzz::range_cache::RangeCache;

#[test]
fn auto_schedule_read_schedules_itself() {
    let mut cache: RangeCache<u8> = RangeCache::new(2);
    let file = CachedFile::new("F".to_string(), 500, &mut cache, "s3".to_string(), || 1, true);
    assert_eq!(file.len(), 500);
    let (started, read) = file.get_read(&mut cache, 100, 20);
    let req = started.unwrap();
    assert_eq!((req.source.as_str(), req.file.as_str(), req.start, req.length), ("s3", "F", 100, 20));
    let reader = read.unwrap();
    assert!(!reader.is_ready());
    assert!(cache.resolve(&"s3".to_string(), &"F".to_string(), 100, 20).is_none());
    assert_eq!(cache.downloader(&"s3".to_string()), Some(&1));
}

#[test]
fn prefetch_only_file_needs_schedule() {
    let mut cache: RangeCache<u8> = RangeCache::new(2);
    let file = CachedFile::new("F".to_string(), 500, &mut cache, "s3".to_string(), || 1, false);
    let (started, read) = file.get_read(&mut cache, 100, 20);
    assert!(started.is_none());
    assert!(matches!(read, Err(CacheError::NotScheduled { start: 100, length: 20, .. })));
    let req = file.prefetch(&mut cache, 0, 200).unwrap();
    assert_eq!(req.start, 0);
    let (started, read) = file.get_read(&mut cache, 100, 20);
    assert!(started.is_none());
    assert!(read.is_ok());
    let data: Vec<u8> = (0..200u32).map(|i| i as u8).collect();
    cache.complete(&req, Ok(data));
    let mut got = cache.resolve(&"s3".to_string(), &"F".to_string(), 100, 20).unwrap().unwrap();
    let mut buf = [0u8; 20];
    assert_eq!(got.read(&mut buf), 20);
    assert_eq!(buf[0], 100);
    assert_eq!(buf[19], 119);
}

#[test]
fn second_file_reuses_registered_downloader() {
    let mut cache: RangeCache<u8> = RangeCache::new(2);
    let _a = CachedFile::new("A".to_string(), 10, &mut cache, "s3".to_string(), || 1, false);
    let _b = CachedFile::new("B".to_string(), 10, &mut cache, "s3".to_string(), || 2, false);
    assert_eq!(cache.downloader(&"s3".to_string()), Some(&1));
}

#[test]
fn url_downloader_accepts_hints() {
    let d = Downloader::new("http://host/file.parquet".to_string(), 1234);
    d.schedule(0, 10);
}
