//! HyperQuery: the file index's records and the queries over them.
use crate::journal::Timestamp;
use vstd::prelude::*;

verus! {

/// One indexed file.
#[derive(Debug, Clone)]
pub struct FileRecord {
    pub path: String,
    pub size: i64,
    pub modified: Timestamp,
    pub mime: Option<String>,
}

/// Why a row of the index could not be read.
#[derive(Debug, Clone, Copy, PartialEq, Eq)]
pub enum QueryError {
    /// The modification time is not an RFC 3339 date and time.
    BadTimestamp,
}

/// The instant an RFC 3339 date-time denotes, as seconds and nanoseconds
/// since the Unix epoch in UTC; `None` for text that is not one.
pub uninterp spec fn rfc3339_instant(text: Seq<char>) -> Option<(i64, u32)>;

/// Calls `chrono::DateTime::parse_from_rfc3339` and converts the instant to
/// UTC seconds and nanoseconds. Claimed: the result is a function of the text
/// alone (named `rfc3339_instant`), `None` exactly when chrono rejects it.
#[verifier::external_body]
fn parse_rfc3339(text: &str) -> (r: Option<Timestamp>)
    ensures
        match r {
            Some(t) => rfc3339_instant(text@) == Some((t.secs, t.nanos)),
            None => rfc3339_instant(text@) is None,
        },
{
    match chrono::DateTime::parse_from_rfc3339(text) {
        Ok(t) => Some(Timestamp { secs: t.timestamp(), nanos: t.timestamp_subsec_nanos() }),
        Err(_) => None,
    }
}

/// The RFC 3339 text chrono writes for the UTC instant `secs` seconds and
/// `nanos` nanoseconds past the Unix epoch; `None` for an instant chrono
/// cannot represent.
pub uninterp spec fn rfc3339_text(secs: i64, nanos: u32) -> Option<Seq<char>>;

/// An instant of the years 0 to 9999 that is not within a leap second: its
/// RFC 3339 text has four year digits and a seconds field below 60.
pub open spec fn plain_instant(t: Timestamp) -> bool {
    &&& -62167219200 <= t.secs <= 253402300799
    &&& t.nanos < 1_000_000_000
}

/// Calls `chrono::DateTime::<Utc>::from_timestamp` and then `to_rfc3339` on
/// the instant. Claimed: the text is a function of the instant alone (named
/// `rfc3339_text`), and for an instant of the years 0 to 9999 outside a leap
/// second chrono accepts it and `parse_from_rfc3339` reads the same instant
/// back from it. Nothing is claimed of the text for other instants.
#[verifier::external_body]
fn format_rfc3339(t: Timestamp) -> (r: Option<String>)
    ensures
        match r {
            Some(s) => rfc3339_text(t.secs, t.nanos) == Some(s@),
            None => rfc3339_text(t.secs, t.nanos) is None,
        },
        plain_instant(t) ==> r is Some && rfc3339_instant(r.unwrap()@) == Some((t.secs, t.nanos)),
{
    match chrono::DateTime::<chrono::Utc>::from_timestamp(t.secs, t.nanos) {
        Some(dt) => Some(dt.to_rfc3339()),
        None => None,
    }
}

/// A row of the index as it is stored: the modification time as RFC 3339 text.
#[derive(Debug, Clone)]
pub struct IndexRow {
    pub path: String,
    pub size: i64,
    pub modified: String,
    pub mime: Option<String>,
}

/// The row that indexes a file of `size` bytes at `path`, last modified at
/// `modified`. The size is stored as a signed integer, as SQLite holds it;
/// no MIME type is recorded. `None` when the instant has no RFC 3339 text.
/// The query reads an instant of the years 0 to 9999 back unchanged.
pub fn index_row(path: String, size: u64, modified: Timestamp) -> (r: Option<IndexRow>)
    ensures
        match r {
            Some(row) => {
                &&& row.path == path
                &&& row.size == size as i64
                &&& rfc3339_text(modified.secs, modified.nanos) == Some(row.modified@)
                &&& row.mime is None
            },
            None => rfc3339_text(modified.secs, modified.nanos) is None,
        },
        plain_instant(modified) ==> (r matches Some(row) && rfc3339_instant(row.modified@) == Some(
            (modified.secs, modified.nanos),
        )),
{
    match format_rfc3339(modified) {
        Some(text) => Some(IndexRow { path, size: size as i64, modified: text, mime: None }),
        None => None,
    }
}

/// The statement that selects the indexed files, narrowed by `sql_filter`
/// when it is not empty.
pub open spec fn select_text(sql_filter: Seq<char>) -> Seq<char> {
    if sql_filter.len() == 0 {
        "SELECT path, size, modified, mime FROM files"@
    } else {
        "SELECT path, size, modified, mime FROM files"@ + " WHERE "@ + sql_filter
    }
}

/// The SQL that selects the indexed files, narrowed by `sql_filter`.
pub fn select_statement(sql_filter: &str) -> (r: String)
    ensures
        r@ == select_text(sql_filter@),
{
    let mut query = "SELECT path, size, modified, mime FROM files".to_owned();
    if !sql_filter.is_empty() {
        query.append(" WHERE ");
        query.append(sql_filter);
    }
    query
}

/// The record for a row of the index, its modification time given as text.
pub fn record_from_row(path: String, size: i64, modified_text: &str, mime: Option<String>) -> (r: Result<
    FileRecord,
    QueryError,
>)
    ensures
        match r {
            Ok(rec) => rec.path == path && rec.size == size && rec.mime == mime && rfc3339_instant(modified_text@)
                == Some((rec.modified.secs, rec.modified.nanos)),
            Err(e) => e == QueryError::BadTimestamp && rfc3339_instant(modified_text@) is None,
        },
{
    match parse_rfc3339(modified_text) {
        Some(modified) => Ok(FileRecord { path, size, modified, mime }),
        None => Err(QueryError::BadTimestamp),
    }
}

} // verus!
