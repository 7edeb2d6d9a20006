use buzz::cached_read::{CachedRead, CachedReadData};
use buzz::error::CacheError;

fn source() -> Vec<u8> {
    (0..100u8).collect()
}

#[test]
fn partial_reads_follow_buffer_sizes() {
    let mut data = CachedReadData::new(source(), 0, 100);
    let mut out = Vec::new();
    let mut counts = Vec::new();
    for size in [30usize, 30, 30, 40] {
        let mut buf = vec![0u8; size];
        let n = data.read(&mut buf);
        counts.push(n);
        out.extend_from_slice(&buf[..n]);
    }
    assert_eq!(counts, vec![30, 30, 30, 10]);
    assert_eq!(out, source());
    let mut buf = vec![0u8; 16];
    assert_eq!(data.read(&mut buf), 0);
    assert_eq!(data.remaining(), 0);
}

#[test]
fn read_leaves_rest_of_buffer_untouched() {
    let mut data = CachedReadData::new(vec![1, 2, 3], 1, 2);
    let mut buf = [7u8; 5];
    assert_eq!(data.read(&mut buf), 2);
    assert_eq!(buf, [2, 3, 7, 7, 7]);
}

#[test]
fn read_with_empty_buffer_takes_nothing() {
    let mut data = CachedReadData::new(vec![1, 2, 3], 0, 3);
    let mut buf: [u8; 0] = [];
    assert_eq!(data.read(&mut buf), 0);
    assert_eq!(data.remaining(), 3);
}

#[test]
fn reader_waits_until_delivered() {
    let mut reader = CachedRead::new();
    assert!(!reader.is_ready());
    reader.deliver(Ok(CachedReadData::new(vec![4, 5], 0, 2)));
    assert!(reader.is_ready());
    reader.deliver(Ok(CachedReadData::new(vec![9], 0, 1)));
    let mut buf = [0u8; 4];
    assert_eq!(reader.read(&mut buf).unwrap(), 2);
    assert_eq!(&buf[..2], &[4, 5]);
    assert_eq!(reader.read(&mut buf).unwrap(), 0);
}

#[test]
fn reader_reports_failure_on_every_read() {
    let mut reader = CachedRead::new();
    reader.deliver(Err(CacheError::Overflow { file_id: "F".to_string(), start: 1, length: 2 }));
    let mut buf = [0u8; 4];
    for _ in 0..2 {
        assert!(matches!(
            reader.read(&mut buf),
            Err(CacheError::Overflow { start: 1, length: 2, .. })
        ));
    }
}

#[test]
fn duplicate_copies_error() {
    let e = CacheError::DownloadFailed {
        file_id: "F".to_string(),
        start: 3,
        length: 4,
        reason: "timeout".to_string(),
    };
    match e.duplicate() {
        CacheError::DownloadFailed { file_id, start, length, reason } => {
            assert_eq!((file_id.as_str(), start, length, reason.as_str()), ("F", 3, 4, "timeout"));
        }
        _ => panic!("wrong variant"),
    }
}
