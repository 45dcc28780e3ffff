use rusqlite::Connection;
use ticket_select::audit::{create_tables, ticket_encoded, AuditError};

#[test]
fn create_tables_succeeds_and_is_idempotent() {
    let conn = Connection::open_in_memory().unwrap();
    assert_eq!(create_tables(&conn), Ok(()));
    assert_eq!(create_tables(&conn), Ok(()));
}

#[test]
fn ticket_encoded_appends_a_row() {
    let conn = Connection::open_in_memory().unwrap();
    create_tables(&conn).unwrap();
    assert_eq!(ticket_encoded(&conn, 7), Ok(()));
    let stored: i64 = conn
        .query_row("SELECT uid FROM ticket", [], |row| row.get(0))
        .unwrap();
    assert_eq!(stored, 7);
    let ts: String = conn
        .query_row("SELECT ts FROM ticket WHERE uid = 7", [], |row| row.get(0))
        .unwrap();
    assert!(!ts.is_empty());
}

#[test]
fn ticket_encoded_without_schema_fails() {
    let conn = Connection::open_in_memory().unwrap();
    assert_eq!(ticket_encoded(&conn, 1), Err(AuditError::Sqlite));
}

#[test]
fn duplicate_uid_is_rejected() {
    let conn = Connection::open_in_memory().unwrap();
    create_tables(&conn).unwrap();
    assert_eq!(ticket_encoded(&conn, 42), Ok(()));
    assert_eq!(ticket_encoded(&conn, 42), Err(AuditError::Sqlite));
    let count: i64 = conn
        .query_row("SELECT COUNT(*) FROM ticket", [], |row| row.get(0))
        .unwrap();
    assert_eq!(count, 1);
}
