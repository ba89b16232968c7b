//! Bounded pool of storage-engine connections with single-writer
//! transactions.
//!
//! The pool retains a small free list of idle connections; acquiring pops
//! one or opens and configures a fresh connection, and releasing returns it
//! unless the free list is already full.  Every write runs inside a
//! [`Transaction`], begun with an immediate write lock on the database and
//! ended by an explicit commit or rollback.  Store-wide single-writer
//! discipline holds because the store owns the pool exclusively: mutating
//! operations take the store by `&mut`, so no two transactions can overlap.

use vstd::prelude::*;

verus! {

use crate::state::Error;
use rusqlite::Connection as SqliteConnection;
use rusqlite::Error as SqliteError;

/// Greatest number of idle connections the pool retains; connections
/// released beyond this are simply discarded.
pub const MAX_DB_CONNECTIONS: usize = 4;

#[verifier::external_type_specification]
#[verifier::external_body]
pub struct ExSqliteConnection(SqliteConnection);

#[verifier::external_type_specification]
#[verifier::external_body]
pub struct ExSqliteError(SqliteError);

/// Relies on rusqlite::Connection::open: opens the database file at `path`,
/// creating it if absent.
#[verifier::external_body]
fn open_file(path: &str) -> (r: Result<SqliteConnection, SqliteError>) {
    SqliteConnection::open(path)
}

/// Relies on rusqlite::Connection::pragma_update: sets the pragma `name` to
/// `value` for this connection.
#[verifier::external_body]
fn set_pragma(conn: &SqliteConnection, name: &str, value: &str) -> (r: Result<
    (),
    SqliteError,
>) {
    conn.pragma_update(None, name, value)
}

/// Relies on rusqlite::Connection::execute_batch: runs statements that take
/// no parameters and return no rows.
#[verifier::external_body]
fn run_batch(conn: &SqliteConnection, sql: &str) -> (r: Result<(), SqliteError>) {
    conn.execute_batch(sql)
}

/// Relies on rusqlite::Connection::execute with one text parameter; on
/// success the result is the number of rows changed.
#[verifier::external_body]
fn run_with_text(conn: &SqliteConnection, sql: &str, text: &str) -> (r: Result<
    usize,
    SqliteError,
>) {
    conn.execute(sql, (text,))
}

/// Relies on rusqlite::Connection::execute with an optional blob parameter
/// followed by a text parameter; on success the result is the number of rows
/// changed.
#[verifier::external_body]
fn run_with_blob_text(
    conn: &SqliteConnection,
    sql: &str,
    blob: &Option<Vec<u8>>,
    text: &str,
) -> (r: Result<usize, SqliteError>) {
    conn.execute(sql, (blob, text))
}

/// Relies on rusqlite::Connection::execute with two integer parameters; on
/// success the result is the number of rows changed.
#[verifier::external_body]
fn run_with_two_i64(conn: &SqliteConnection, sql: &str, a: i64, b: i64) -> (r: Result<
    usize,
    SqliteError,
>) {
    conn.execute(sql, (a, b))
}

/// Relies on rusqlite::Connection::execute with the five columns of one
/// account row; on success the result is the number of rows changed.
#[verifier::external_body]
fn run_with_account_row(
    conn: &SqliteConnection,
    sql: &str,
    email: &str,
    backend: &str,
    secret: &Option<Vec<u8>>,
    state: &Option<Vec<u8>>,
    proxy: &Option<Vec<u8>>,
) -> (r: Result<usize, SqliteError>) {
    conn.execute(sql, (email, backend, secret, state, proxy))
}

/// Relies on rusqlite::Statement::query_map over a prepared SELECT of the
/// five account columns: hands back every stored account row as plain
/// values, in whatever order the engine returns them.
#[verifier::external_body]
fn query_account_rows(conn: &SqliteConnection, sql: &str) -> (r: Result<
    Vec<crate::state::Account>,
    SqliteError,
>) {
    let mut stmt = conn.prepare(sql)?;
    let rows = stmt.query_map((), |row| {
        Ok(crate::state::Account {
            email: row.get(0)?,
            backend: row.get(1)?,
            secret: row.get(2)?,
            state: row.get(3)?,
            proxy: row.get(4)?,
        })
    })?;
    rows.collect()
}

/// Relies on rusqlite::Connection::query_row: reads one integer column of
/// the first row the statement returns.
#[verifier::external_body]
fn query_one_i64(conn: &SqliteConnection, sql: &str) -> (r: Result<i64, SqliteError>) {
    conn.query_row(sql, (), |row| row.get(0))
}

/// Relies on the Display impl of SqliteError for a human-readable
/// message.
#[verifier::external_body]
fn sqlite_error_message(e: &SqliteError) -> (r: String) {
    e.to_string()
}

/// Wrap a storage-engine failure as this crate's storage error.
fn db_err(e: SqliteError) -> (r: Error)
    ensures
        r is Db,
{
    Error::Db(sqlite_error_message(&e))
}

/// Bounded pool of connections to one database file.
pub struct Pool {
    connections: Vec<SqliteConnection>,
    path: String,
}

impl Pool {
    /// Number of idle connections currently held in the free list.
    pub closed spec fn idle(self) -> nat {
        self.connections@.len()
    }

    /// The free list never outgrows its bound.
    pub closed spec fn wf(self) -> bool {
        self.connections@.len() <= MAX_DB_CONNECTIONS
    }

    /// Path of the database file this pool opens connections to.
    pub closed spec fn path_spec(self) -> Seq<char> {
        self.path@
    }

    /// Create a pool for the database at `path`; no connection is opened yet.
    pub fn new(path: String) -> (p: Pool)
        ensures
            p.wf(),
            p.idle() == 0,
            p.path_spec() == path@,
    {
        Pool { connections: Vec::new(), path }
    }

    /// Open and configure a fresh connection: durable write-ahead
    /// journaling, full filesystem sync, in-memory temp storage.
    fn new_connection(&self) -> (r: Result<Connection, Error>)
        ensures
            r is Err ==> r->Err_0 is Db,
    {
        let conn = match open_file(self.path.as_str()) {
            Ok(c) => c,
            Err(e) => { return Err(db_err(e)) },
        };
        if let Err(e) = set_pragma(&conn, "journal_mode", "WAL") {
            return Err(db_err(e));
        }
        if let Err(e) = set_pragma(&conn, "synchronous", "FULL") {
            return Err(db_err(e));
        }
        if let Err(e) = set_pragma(&conn, "temp_store", "MEMORY") {
            return Err(db_err(e));
        }
        Ok(Connection { conn })
    }

    /// Get a connection: pop an idle one from the free list if any, else
    /// open a fresh one.
    pub fn connection(&mut self) -> (r: Result<Connection, Error>)
        requires
            old(self).wf(),
        ensures
            final(self).wf(),
            final(self).path_spec() == old(self).path_spec(),
            r is Ok ==> final(self).idle() == if old(self).idle() > 0 {
                (old(self).idle() - 1) as nat
            } else {
                0nat
            },
            r is Err ==> r->Err_0 is Db && final(self).idle() == old(self).idle(),
    {
        match self.connections.pop() {
            Some(c) => Ok(Connection { conn: c }),
            None => self.new_connection(),
        }
    }

    /// Return a connection to the free list; discard it when the list is
    /// already at capacity.
    pub fn release(&mut self, conn: Connection)
        requires
            old(self).wf(),
        ensures
            final(self).wf(),
            final(self).path_spec() == old(self).path_spec(),
            final(self).idle() == if old(self).idle() < MAX_DB_CONNECTIONS {
                old(self).idle() + 1
            } else {
                old(self).idle()
            },
    {
        if self.connections.len() < MAX_DB_CONNECTIONS {
            self.connections.push(conn.conn);
        }
    }
}

/// Pooled connection; reads run directly on it, writes go through
/// [`Connection::transaction`].
pub struct Connection {
    conn: SqliteConnection,
}

impl Connection {
    /// Load every stored account row.
    pub(crate) fn load_accounts(&self, sql: &str) -> (r: Result<Vec<crate::state::Account>, Error>)
        ensures
            r is Err ==> r->Err_0 is Db,
    {
        match query_account_rows(&self.conn, sql) {
            Ok(rows) => Ok(rows),
            Err(e) => Err(db_err(e)),
        }
    }

    /// Read one integer column of one row.
    pub(crate) fn load_one_i64(&self, sql: &str) -> (r: Result<i64, Error>)
        ensures
            r is Err ==> r->Err_0 is Db,
    {
        match query_one_i64(&self.conn, sql) {
            Ok(v) => Ok(v),
            Err(e) => Err(db_err(e)),
        }
    }

    /// Begin a write transaction, taking the database write lock
    /// immediately; on failure the connection is handed back for release.
    pub fn transaction(self) -> (r: Result<Transaction, (Connection, Error)>)
        ensures
            r is Err ==> r->Err_0.1 is Db,
    {
        match run_batch(&self.conn, "BEGIN IMMEDIATE") {
            Ok(()) => Ok(Transaction { conn: self }),
            Err(e) => {
                let err = db_err(e);
                Err((self, err))
            },
        }
    }
}

/// One open write transaction.  At most one exists per store at any time:
/// the store owns the pool and is taken by `&mut` for every mutation.
pub struct Transaction {
    conn: Connection,
}

impl Transaction {
    /// Run parameterless statements inside the transaction.
    pub(crate) fn batch(&self, sql: &str) -> (r: Result<(), Error>)
        ensures
            r is Err ==> r->Err_0 is Db,
    {
        match run_batch(&self.conn.conn, sql) {
            Ok(()) => Ok(()),
            Err(e) => Err(db_err(e)),
        }
    }

    /// Run one statement with one text parameter; on success the result is
    /// the number of rows changed.
    pub(crate) fn execute_text(&self, sql: &str, text: &str) -> (r: Result<usize, Error>)
        ensures
            r is Err ==> r->Err_0 is Db,
    {
        match run_with_text(&self.conn.conn, sql, text) {
            Ok(n) => Ok(n),
            Err(e) => Err(db_err(e)),
        }
    }

    /// Run one statement with an optional blob and a text parameter; on
    /// success the result is the number of rows changed.
    pub(crate) fn execute_blob_text(
        &self,
        sql: &str,
        blob: &Option<Vec<u8>>,
        text: &str,
    ) -> (r: Result<usize, Error>)
        ensures
            r is Err ==> r->Err_0 is Db,
    {
        match run_with_blob_text(&self.conn.conn, sql, blob, text) {
            Ok(n) => Ok(n),
            Err(e) => Err(db_err(e)),
        }
    }

    /// Run one statement with two integer parameters; on success the result
    /// is the number of rows changed.
    pub(crate) fn execute_two_i64(&self, sql: &str, a: i64, b: i64) -> (r: Result<usize, Error>)
        ensures
            r is Err ==> r->Err_0 is Db,
    {
        match run_with_two_i64(&self.conn.conn, sql, a, b) {
            Ok(n) => Ok(n),
            Err(e) => Err(db_err(e)),
        }
    }

    /// Run one statement with the five columns of one account row; on
    /// success the result is the number of rows changed.
    pub(crate) fn execute_account_row(
        &self,
        sql: &str,
        email: &str,
        backend: &str,
        secret: &Option<Vec<u8>>,
        state: &Option<Vec<u8>>,
        proxy: &Option<Vec<u8>>,
    ) -> (r: Result<usize, Error>)
        ensures
            r is Err ==> r->Err_0 is Db,
    {
        match run_with_account_row(&self.conn.conn, sql, email, backend, secret, state, proxy) {
            Ok(n) => Ok(n),
            Err(e) => Err(db_err(e)),
        }
    }

    /// Commit the transaction; either way the connection is handed back for
    /// release.
    pub fn commit(self) -> (r: Result<Connection, (Connection, Error)>)
        ensures
            r is Err ==> r->Err_0.1 is Db,
    {
        match run_batch(&self.conn.conn, "COMMIT") {
            Ok(()) => Ok(self.conn),
            Err(e) => {
                let err = db_err(e);
                Err((self.conn, err))
            },
        }
    }

    /// Roll the transaction back, swallowing any rollback failure, and hand
    /// the connection back for release.
    pub fn rollback(self) -> (r: Connection) {
        // A rollback that itself fails is left to the engine, which rolls an
        // unfinished transaction back when the connection winds down.
        match run_batch(&self.conn.conn, "ROLLBACK") {
            Ok(()) => (),
            Err(_) => (),
        }
        self.conn
    }
}

} // verus!
