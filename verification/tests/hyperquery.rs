use fileflow::hyperquery::{index_row, record_from_row, select_statement, QueryError};
use fileflow::journal::Timestamp;

#[test]
fn select_without_filter() {
    assert_eq!(select_statement(""), "SELECT path, size, modified, mime FROM files");
}

#[test]
fn select_with_filter() {
    assert_eq!(select_statement("size > 0"), "SELECT path, size, modified, mime FROM files WHERE size > 0");
}

#[test]
fn row_with_rfc3339_time() {
    let r = record_from_row("/x".to_string(), 12, "2024-01-02T03:04:05.5+01:00", None).unwrap();
    assert_eq!(r.path, "/x");
    assert_eq!(r.size, 12);
    assert_eq!(r.modified.secs, 1704161045);
    assert_eq!(r.modified.nanos, 500_000_000);
    assert!(r.mime.is_none());
}

#[test]
fn row_with_bad_time() {
    assert_eq!(record_from_row("/x".to_string(), 1, "yesterday", Some("text/plain".to_string())).unwrap_err(), QueryError::BadTimestamp);
}

#[test]
fn index_row_writes_rfc3339() {
    let row = index_row("/a".to_string(), 7, Timestamp { secs: 1431648000, nanos: 0 }).unwrap();
    assert_eq!(row.path, "/a");
    assert_eq!(row.size, 7);
    assert_eq!(row.modified, "2015-05-15T00:00:00+00:00");
    assert!(row.mime.is_none());
    let row = index_row("/b".to_string(), 1, Timestamp { secs: 1431648000, nanos: 150_000_000 }).unwrap();
    assert_eq!(row.modified, "2015-05-15T00:00:00.150+00:00");
}

#[test]
fn index_row_size_is_stored_signed() {
    let row = index_row("/big".to_string(), u64::MAX, Timestamp { secs: 0, nanos: 0 }).unwrap();
    assert_eq!(row.size, -1);
    assert_eq!(row.modified, "1970-01-01T00:00:00+00:00");
}

#[test]
fn index_row_rejects_unrepresentable_instant() {
    assert!(index_row("/x".to_string(), 1, Timestamp { secs: i64::MAX, nanos: 0 }).is_none());
}

#[test]
fn indexed_time_reads_back() {
    let t = Timestamp { secs: 1704161045, nanos: 123_456_789 };
    let row = index_row("/r".to_string(), 3, t).unwrap();
    let rec = record_from_row(row.path.clone(), row.size, &row.modified, row.mime.clone()).unwrap();
    assert_eq!(rec.modified, t);
    assert_eq!(rec.path, "/r");
    assert_eq!(rec.size, 3);
}
