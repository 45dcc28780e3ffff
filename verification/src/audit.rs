//! The audit log.
//!
//! Each minted ticket may be appended to a sequential SQLite store keyed
//! by uid, with a timestamp the database fills in by itself.  The
//! collection never reads this log back, and a failed write is reported
//! to the caller, never escalated: selection work does not depend on the
//! log being available.

use vstd::prelude::*;

verus! {

/// rusqlite's connection handle, declared so that it can stand in this
/// module's signatures; what is inside it stays opaque here.
#[verifier::external_type_specification]
#[verifier::external_body]
pub struct ExConnection(rusqlite::Connection);

/// rusqlite's error type, declared so that the wrapper below can return
/// it; what is inside it stays opaque here.
#[verifier::external_type_specification]
#[verifier::external_body]
pub struct ExSqlError(rusqlite::Error);

/// A failed write to the audit log.  Carried instead of the database's
/// own error so that callers see a plain value.
#[derive(Debug, PartialEq, Eq, Structural)]
pub enum AuditError {
    /// The underlying SQL statement failed.
    Sqlite,
}

/// Relies on rusqlite::Connection::execute: prepares and runs the one SQL
/// statement with the given integer parameters and reports the number of
/// rows that were changed, or the database's error.  What comes back
/// depends on the connection's state, so nothing more is promised.
#[verifier::external_body]
fn sql_execute(conn: &rusqlite::Connection, sql: &str, params: &Vec<i64>) -> (r: Result<
    usize,
    rusqlite::Error,
>) {
    conn.execute(sql, rusqlite::params_from_iter(params.iter()))
}

/// Creates the ticket log's schema: the ticket table keyed by uid with an
/// automatic timestamp, a serial-number pool, and the indexes that keep
/// timestamp and serial-number lookups fast.  Stops at the first failing
/// statement.
pub fn create_tables(conn: &rusqlite::Connection) -> (r: Result<(), AuditError>) {
    let no_params: Vec<i64> = Vec::new();
    let schema_ticket = "CREATE TABLE IF NOT EXISTS ticket (\
        uid INTEGER NOT NULL PRIMARY KEY,\
        sn INTEGER UNIQUE,\
        data TEXT, \
        ts TIMESTAMP DEFAULT(STRFTIME('%Y-%m-%d %H:%M:%f', 'NOW')) NOT NULL)";
    if sql_execute(conn, schema_ticket, &no_params).is_err() {
        return Err(AuditError::Sqlite);
    }
    let schema_sn_pool = "CREATE TABLE IF NOT EXISTS sn_pool (\
        sn INTEGER NOT NULL PRIMARY KEY)";
    if sql_execute(conn, schema_sn_pool, &no_params).is_err() {
        return Err(AuditError::Sqlite);
    }
    let index_ts = "CREATE INDEX IF NOT EXISTS ticket_ts_idx ON ticket (ts)";
    if sql_execute(conn, index_ts, &no_params).is_err() {
        return Err(AuditError::Sqlite);
    }
    let index_sn = "CREATE INDEX IF NOT EXISTS ticket_sn_idx ON ticket (sn)";
    if sql_execute(conn, index_sn, &no_params).is_err() {
        return Err(AuditError::Sqlite);
    }
    Ok(())
}

/// Appends the ticket with the given uid to the log; the timestamp column
/// is filled in by the database.  The uid is logged as the row key, so it
/// must fit the database's signed integer column.
pub fn ticket_encoded(conn: &rusqlite::Connection, uid: usize) -> (r: Result<(), AuditError>)
    requires
        uid <= i64::MAX as usize,
{
    let mut params: Vec<i64> = Vec::new();
    params.push(uid as i64);
    match sql_execute(conn, "INSERT INTO ticket (uid) VALUES (?)", &params) {
        Ok(_) => Ok(()),
        Err(_) => Err(AuditError::Sqlite),
    }
}

} // verus!
