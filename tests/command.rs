use buzz::command::{absolute_offset, locate, select_columns, Location};

#[test]
fn offset_counts_from_start_or_end() {
    assert_eq!(absolute_offset(0, 10), Some(0));
    assert_eq!(absolute_offset(3, 10), Some(3));
    assert_eq!(absolute_offset(-1, 10), Some(9));
    assert_eq!(absolute_offset(-10, 10), Some(0));
    assert_eq!(absolute_offset(25, 10), Some(25));
}

#[test]
fn offset_before_first_row_is_rejected() {
    assert_eq!(absolute_offset(-11, 10), None);
    assert_eq!(absolute_offset(i64::MIN, i64::MIN), None);
}

#[test]
fn locations_by_scheme() {
    assert_eq!(locate("s3://bucket/key.parquet"), Location::S3);
    assert_eq!(locate("https://host/file.parquet"), Location::Http);
    assert_eq!(locate("http://host/file.parquet"), Location::Http);
    assert_eq!(locate("/tmp/file.parquet"), Location::Local);
    assert_eq!(locate("s3:/bucket"), Location::Local);
    assert_eq!(locate(""), Location::Local);
}

fn fields() -> Vec<&'static str> {
    vec!["a", "b", "c"]
}

#[test]
fn columns_in_request_order() {
    assert_eq!(select_columns("b,a", &fields()), Ok(vec![1, 0]));
    assert_eq!(select_columns("c", &fields()), Ok(vec![2]));
    assert_eq!(select_columns("a,a", &fields()), Ok(vec![0, 0]));
}

#[test]
fn optional_columns_may_be_missing() {
    assert_eq!(select_columns("a,?z,c", &fields()), Ok(vec![0, 2]));
    assert_eq!(select_columns("?b", &fields()), Ok(vec![1]));
    assert_eq!(select_columns("?z", &fields()), Ok(vec![]));
}

#[test]
fn first_missing_required_column_is_reported() {
    assert_eq!(select_columns("a,z,y", &fields()), Err(b"z".to_vec()));
    assert_eq!(select_columns("a,,b", &fields()), Err(Vec::new()));
    assert_eq!(select_columns("", &fields()), Err(Vec::new()));
}

#[test]
fn first_field_of_a_name_wins() {
    assert_eq!(select_columns("x", &["y", "x", "x"]), Ok(vec![1]));
}
