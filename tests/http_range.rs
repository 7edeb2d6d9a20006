use buzz::http_range::{
    content_range_total, is_parquet_tail, range_for, range_header, retry_decision, FailureKind, Range,
    RetryDecision,
};

#[test]
fn range_header_text() {
    assert_eq!(range_header(&Range::FromPositionTo(0, 99)), b"bytes=0-99".to_vec());
    assert_eq!(range_header(&Range::FromPositionTo(1000, 1009)), b"bytes=1000-1009".to_vec());
    assert_eq!(range_header(&Range::FromEnd(4)), b"bytes=-4".to_vec());
    assert_eq!(
        range_header(&Range::FromEnd(u64::MAX)),
        b"bytes=-18446744073709551615".to_vec()
    );
}

#[test]
fn content_range_total_length() {
    assert_eq!(content_range_total(b"bytes 0-3/12345"), Some(12345));
    assert_eq!(
        content_range_total(b"bytes 0-3/18446744073709551615"),
        Some(u64::MAX)
    );
}

#[test]
fn content_range_without_known_total() {
    assert_eq!(content_range_total(b"bytes 0-3/*"), None);
    assert_eq!(content_range_total(b"bytes 0-3/18446744073709551616"), None);
    assert_eq!(content_range_total(b"bytes -3/10"), None);
    assert_eq!(content_range_total(b"bytes 0-3/12 "), None);
    assert_eq!(content_range_total(b"items 0-3/12"), None);
    assert_eq!(content_range_total(b""), None);
}

#[test]
fn range_for_inclusive_end() {
    assert!(matches!(range_for(100, 50), Some(Range::FromPositionTo(100, 149))));
    assert!(matches!(range_for(u64::MAX, 1), Some(Range::FromPositionTo(a, b)) if a == u64::MAX && b == u64::MAX));
    assert!(range_for(5, 0).is_none());
    assert!(range_for(u64::MAX, 2).is_none());
}

#[test]
fn parquet_tail_magic() {
    assert!(is_parquet_tail(b"PAR1"));
    assert!(!is_parquet_tail(b"PAR2"));
    assert!(!is_parquet_tail(b"PAR"));
    assert!(!is_parquet_tail(b"xPAR1"));
}

#[test]
fn retries_transport_and_server_failures() {
    assert_eq!(retry_decision(3, &FailureKind::Transport), (RetryDecision::Retry, 2));
    assert_eq!(retry_decision(1, &FailureKind::ServerError), (RetryDecision::Retry, 0));
    assert_eq!(retry_decision(0, &FailureKind::Transport), (RetryDecision::GiveUp, 0));
    assert_eq!(retry_decision(2, &FailureKind::Other), (RetryDecision::GiveUp, 1));
}
