//! Trusted boundary to the relational substrate.
//!
//! Each wrapper in this module executes one SQL statement shape against a
//! `rusqlite::Connection` and is trusted to have the effect its contract
//! states over the abstract contents of the connection's tables. All of the
//! engine's decisions are made outside this module, in verified code.
//!
//! The abstract contents are given by four uninterpreted functions: the
//! physical rows of a data table, the `(ik, pk)` pairs of an index data
//! table, the integer rows of an index config table, and the text rows of a
//! table's conf table. A table that does not exist is modelled as empty;
//! statements against a missing table return an error, about which the
//! contracts say nothing.
//!
//! The clauses that derive from the DDL — latest-row uniqueness, positive
//! and successor rowids, pair distinctness — hold of tables and indexes
//! that this library itself created and alone writes; a foreign database
//! that pre-created a same-named table or a same-named non-unique index
//! would defeat them, since `CREATE ... IF NOT EXISTS` checks the name
//! alone.

use crate::table::Error as EngineError;
use rusqlite::OptionalExtension;
use vstd::prelude::*;

verus! {

#[verifier::external_type_specification]
#[verifier::external_body]
pub struct ExConnection(rusqlite::Connection);

/// The physical rows of data table `table`, keyed by rowid (the version):
/// `(key, is_deleted, is_latest, value)`. Empty if the table is absent.
pub uninterp spec fn data_rows(conn: rusqlite::Connection, table: Seq<char>) -> Map<
    int,
    (Seq<u8>, bool, bool, Seq<u8>),
>;

/// The `(ik, pk)` pairs held by index data table `table`. Empty if the
/// table is absent.
pub uninterp spec fn index_pairs(conn: rusqlite::Connection, table: Seq<char>) -> Set<
    (Seq<u8>, Seq<u8>),
>;

/// The integer stored at `key` in integer config table `table`, if any.
pub uninterp spec fn config_value(conn: rusqlite::Connection, table: Seq<char>, key: int) -> Option<
    int,
>;

/// The text stored at `key` in conf table `table`, if any.
pub uninterp spec fn conf_text(conn: rusqlite::Connection, table: Seq<char>, key: int) -> Option<
    Seq<char>,
>;

/// At most one row of a data table is the latest for any key.
pub open spec fn latest_unique(m: Map<int, (Seq<u8>, bool, bool, Seq<u8>)>) -> bool {
    forall|v1: int, v2: int|
        m.dom().contains(v1) && m.dom().contains(v2) && (#[trigger] m[v1]).2 && (#[trigger] m[v2]).2
            && m[v1].0 == m[v2].0 ==> v1 == v2
}

/// Every rowid of a data table is positive.
pub open spec fn versions_positive(m: Map<int, (Seq<u8>, bool, bool, Seq<u8>)>) -> bool {
    forall|v: int| #[trigger] m.dom().contains(v) ==> v >= 1
}

/// The rows of `m` with the latest mark cleared from every latest row
/// whose key is `key`.
pub open spec fn clear_key_latest(m: Map<int, (Seq<u8>, bool, bool, Seq<u8>)>, key: Seq<u8>) -> Map<
    int,
    (Seq<u8>, bool, bool, Seq<u8>),
> {
    Map::new(
        |v: int| m.dom().contains(v),
        |v: int|
            if m[v].0 == key && m[v].2 {
                (m[v].0, m[v].1, false, m[v].3)
            } else {
                m[v]
            },
    )
}

/// No change to the data tables.
pub open spec fn all_data_unchanged(a: rusqlite::Connection, b: rusqlite::Connection) -> bool {
    forall|t: Seq<char>| #[trigger] data_rows(b, t) == data_rows(a, t)
}

/// No change to the data tables but `t`.
pub open spec fn data_unchanged_except(
    a: rusqlite::Connection,
    b: rusqlite::Connection,
    t: Seq<char>,
) -> bool {
    forall|t2: Seq<char>| t2 != t ==> #[trigger] data_rows(b, t2) == data_rows(a, t2)
}

/// No change to the index data tables.
pub open spec fn all_pairs_unchanged(a: rusqlite::Connection, b: rusqlite::Connection) -> bool {
    forall|t: Seq<char>| #[trigger] index_pairs(b, t) == index_pairs(a, t)
}

/// No change to the index data tables but `t`.
pub open spec fn pairs_unchanged_except(
    a: rusqlite::Connection,
    b: rusqlite::Connection,
    t: Seq<char>,
) -> bool {
    forall|t2: Seq<char>| t2 != t ==> #[trigger] index_pairs(b, t2) == index_pairs(a, t2)
}

/// No change to the integer config tables.
pub open spec fn all_config_unchanged(a: rusqlite::Connection, b: rusqlite::Connection) -> bool {
    forall|t: Seq<char>, k: int| #[trigger] config_value(b, t, k) == config_value(a, t, k)
}

/// No change to the integer config tables but `t`.
pub open spec fn config_unchanged_except(
    a: rusqlite::Connection,
    b: rusqlite::Connection,
    t: Seq<char>,
) -> bool {
    forall|t2: Seq<char>, k: int|
        t2 != t ==> #[trigger] config_value(b, t2, k) == config_value(a, t2, k)
}

/// No change to the conf tables.
pub open spec fn all_text_unchanged(a: rusqlite::Connection, b: rusqlite::Connection) -> bool {
    forall|t: Seq<char>, k: int| #[trigger] conf_text(b, t, k) == conf_text(a, t, k)
}

/// No change to the conf tables but `t`.
pub open spec fn text_unchanged_except(
    a: rusqlite::Connection,
    b: rusqlite::Connection,
    t: Seq<char>,
) -> bool {
    forall|t2: Seq<char>, k: int| t2 != t ==> #[trigger] conf_text(b, t2, k) == conf_text(a, t2, k)
}

/// No change to anything.
pub open spec fn db_unchanged(a: rusqlite::Connection, b: rusqlite::Connection) -> bool {
    &&& all_data_unchanged(a, b)
    &&& all_pairs_unchanged(a, b)
    &&& all_config_unchanged(a, b)
    &&& all_text_unchanged(a, b)
}

/// Relies on Connection::execute_batch: `BEGIN DEFERRED` opens a
/// transaction and changes no table contents.
#[verifier::external_body]
pub fn begin_tx(conn: &mut rusqlite::Connection) -> (r: Result<(), crate::table::Error>)
    ensures
        r is Ok ==> db_unchanged(*old(conn), *final(conn)),
{
    conn.execute_batch("BEGIN DEFERRED").map_err(|e| crate::table::Error::SqliteError(
        e.to_string(),
    ))
}

/// Relies on Connection::execute_batch: `COMMIT` makes the transaction's
/// effects durable and changes no table contents.
#[verifier::external_body]
pub fn commit_tx(conn: &mut rusqlite::Connection) -> (r: Result<(), crate::table::Error>)
    ensures
        r is Ok ==> db_unchanged(*old(conn), *final(conn)),
{
    conn.execute_batch("COMMIT").map_err(|e| crate::table::Error::SqliteError(e.to_string()))
}

/// Relies on Connection::execute_batch: `ROLLBACK` abandons the open
/// transaction; nothing is stated about the contents afterwards.
#[verifier::external_body]
pub fn rollback_tx(conn: &mut rusqlite::Connection) {
    let _ = conn.execute_batch("ROLLBACK");
}

/// Relies on Connection::execute_batch: idempotent DDL for a data table,
/// its conf table, and the partial unique index that admits at most one
/// latest row per key. Existing contents are untouched; creating the
/// unique index over them succeeds only when they respect it, and once it
/// exists the substrate enforces it, so on success at most one latest row
/// per key stands. SQLite rowids are positive.
#[verifier::external_body]
pub fn create_data_tables(conn: &mut rusqlite::Connection, data: &str, conf: &str) -> (r: Result<
    (),
    crate::table::Error,
>)
    ensures
        r is Ok ==> {
            &&& db_unchanged(*old(conn), *final(conn))
            &&& latest_unique(data_rows(*final(conn), data@))
            &&& versions_positive(data_rows(*final(conn), data@))
        },
{
    conn.execute_batch(
        &format!(
            "CREATE TABLE IF NOT EXISTS {data} (rowid INTEGER PRIMARY KEY AUTOINCREMENT, key BLOB, is_deleted BOOL, is_latest BOOL, value BLOB);
             CREATE TABLE IF NOT EXISTS {conf} (key INTEGER PRIMARY KEY, value BLOB);
             CREATE UNIQUE INDEX IF NOT EXISTS idx_{data}_key_latest ON {data}(key, is_latest) WHERE is_latest = 1;",
        ),
    ).map_err(|e| crate::table::Error::SqliteError(e.to_string()))
}

/// Relies on Connection::execute_batch: idempotent DDL for an index data
/// table keyed by `(ik, pk)` with a secondary index on `pk`, and its
/// integer config table; existing contents are untouched.
#[verifier::external_body]
pub fn create_index_tables(conn: &mut rusqlite::Connection, data: &str, config: &str) -> (r: Result<
    (),
    crate::table::Error,
>)
    ensures
        r is Ok ==> db_unchanged(*old(conn), *final(conn)),
{
    conn.execute_batch(
        &format!(
            "CREATE TABLE IF NOT EXISTS {data} (ik BLOB, pk BLOB, PRIMARY KEY (ik, pk)) WITHOUT ROWID;
             CREATE INDEX IF NOT EXISTS idx_{data}_pk ON {data} (pk);
             CREATE TABLE IF NOT EXISTS {config} (key INTEGER PRIMARY KEY, value INTEGER);",
        ),
    ).map_err(|e| crate::table::Error::SqliteError(e.to_string()))
}

/// Relies on Connection::execute_batch: `DROP TABLE IF EXISTS` leaves the
/// named table absent, hence empty under every reading, and touches no
/// other table.
#[verifier::external_body]
pub fn drop_table(conn: &mut rusqlite::Connection, name: &str) -> (r: Result<(), crate::table::Error>)
    ensures
        r is Ok ==> {
            &&& data_rows(*final(conn), name@) == Map::<int, (Seq<u8>, bool, bool, Seq<u8>)>::empty()
            &&& index_pairs(*final(conn), name@) == Set::<(Seq<u8>, Seq<u8>)>::empty()
            &&& (forall|k: int| #[trigger] config_value(*final(conn), name@, k) is None)
            &&& (forall|k: int| #[trigger] conf_text(*final(conn), name@, k) is None)
            &&& data_unchanged_except(*old(conn), *final(conn), name@)
            &&& pairs_unchanged_except(*old(conn), *final(conn), name@)
            &&& config_unchanged_except(*old(conn), *final(conn), name@)
            &&& text_unchanged_except(*old(conn), *final(conn), name@)
        },
{
    conn.execute_batch(&format!("DROP TABLE IF EXISTS {name};")).map_err(
        |e| crate::table::Error::SqliteError(e.to_string()),
    )
}

/// Relies on Connection::execute and last_insert_rowid: inserts one
/// physical row marked latest, with a fresh AUTOINCREMENT rowid one
/// larger than the largest rowid the table has ever held — which, in a
/// data table this engine alone writes and never deletes from, is the
/// successor of the current largest rowid, or one on an empty table.
#[verifier::external_body]
pub fn append_row(
    conn: &mut rusqlite::Connection,
    table: &str,
    key: &[u8],
    is_deleted: bool,
    value: &[u8],
) -> (r: Result<i64, crate::table::Error>)
    ensures
        r matches Ok(v) ==> {
            &&& v >= 1
            &&& !data_rows(*old(conn), table@).dom().contains(v as int)
            &&& (forall|v2: int|
                #[trigger] data_rows(*old(conn), table@).dom().contains(v2) ==> v2 < v)
            &&& (v as int == 1 || data_rows(*old(conn), table@).dom().contains(v as int - 1))
            &&& data_rows(*final(conn), table@) == data_rows(*old(conn), table@).insert(
                v as int,
                (key@, is_deleted, true, value@),
            )
            &&& data_unchanged_except(*old(conn), *final(conn), table@)
            &&& all_pairs_unchanged(*old(conn), *final(conn))
            &&& all_config_unchanged(*old(conn), *final(conn))
            &&& all_text_unchanged(*old(conn), *final(conn))
        },
{
    let res = (|| -> Result<i64, rusqlite::Error> {
        let sql = format!(
            "INSERT INTO {table} (key, is_latest, is_deleted, value) VALUES (?1, 1, ?2, ?3)",
        );
        conn.prepare_cached(&sql)?.execute((key, is_deleted, value))?;
        Ok(conn.last_insert_rowid())
    })();
    res.map_err(|e| crate::table::Error::SqliteError(e.to_string()))
}

/// Relies on Connection::execute: clears the latest mark of every latest
/// row holding `key`, reporting whether any row changed.
#[verifier::external_body]
pub fn clear_latest(conn: &mut rusqlite::Connection, table: &str, key: &[u8]) -> (r: Result<
    bool,
    crate::table::Error,
>)
    ensures
        r matches Ok(m) ==> {
            &&& data_rows(*final(conn), table@) == clear_key_latest(
                data_rows(*old(conn), table@),
                key@,
            )
            &&& m == (exists|v: int|
                #[trigger] data_rows(*old(conn), table@).dom().contains(v) && data_rows(
                    *old(conn),
                    table@,
                )[v].0 == key@ && data_rows(*old(conn), table@)[v].2)
            &&& data_unchanged_except(*old(conn), *final(conn), table@)
            &&& all_pairs_unchanged(*old(conn), *final(conn))
            &&& all_config_unchanged(*old(conn), *final(conn))
            &&& all_text_unchanged(*old(conn), *final(conn))
        },
{
    let res = (|| -> Result<usize, rusqlite::Error> {
        let sql = format!("UPDATE {table} SET is_latest = 0 WHERE key = ?1 AND is_latest = 1");
        conn.prepare_cached(&sql)?.execute((key,))
    })();
    res.map(|n| n != 0).map_err(|e| crate::table::Error::SqliteError(e.to_string()))
}

/// Relies on Connection::execute: clears the latest mark of the row at
/// `version` if it holds `key` and is latest, reporting whether it did.
#[verifier::external_body]
pub fn clear_latest_with_version(
    conn: &mut rusqlite::Connection,
    table: &str,
    key: &[u8],
    version: i64,
) -> (r: Result<bool, crate::table::Error>)
    ensures
        r matches Ok(m) ==> {
            &&& m == {
                let rows = data_rows(*old(conn), table@);
                rows.dom().contains(version as int) && rows[version as int].0 == key@
                    && rows[version as int].2
            }
            &&& data_rows(*final(conn), table@) == (if m {
                let rows = data_rows(*old(conn), table@);
                rows.insert(
                    version as int,
                    (
                        rows[version as int].0,
                        rows[version as int].1,
                        false,
                        rows[version as int].3,
                    ),
                )
            } else {
                data_rows(*old(conn), table@)
            })
            &&& data_unchanged_except(*old(conn), *final(conn), table@)
            &&& all_pairs_unchanged(*old(conn), *final(conn))
            &&& all_config_unchanged(*old(conn), *final(conn))
            &&& all_text_unchanged(*old(conn), *final(conn))
        },
{
    let res = (|| -> Result<usize, rusqlite::Error> {
        let sql = format!(
            "UPDATE {table} SET is_latest = 0 WHERE rowid = ?1 AND key = ?2 AND is_latest = 1",
        );
        conn.prepare_cached(&sql)?.execute((version, key))
    })();
    res.map(|n| n != 0).map_err(|e| crate::table::Error::SqliteError(e.to_string()))
}

/// Relies on Connection::prepare_cached and query_row: reads the latest
/// non-tombstone row for `key`, if one exists.
#[verifier::external_body]
pub fn query_latest(conn: &rusqlite::Connection, table: &str, key: &[u8]) -> (r: Result<
    Option<(Vec<u8>, i64)>,
    crate::table::Error,
>)
    ensures
        r matches Err(e) ==> e is SqliteError,
        r matches Ok(res) ==> match res {
            Some((value, version)) => {
                &&& data_rows(*conn, table@).dom().contains(version as int)
                &&& data_rows(*conn, table@)[version as int] == (key@, false, true, value@)
            },
            None => forall|v: int|
                #[trigger] data_rows(*conn, table@).dom().contains(v) ==> !(data_rows(
                    *conn,
                    table@,
                )[v].0 == key@ && data_rows(*conn, table@)[v].2 && !data_rows(*conn, table@)[v].1),
        },
{
    let res = (|| -> Result<Option<(Vec<u8>, i64)>, rusqlite::Error> {
        let sql = format!(
            "SELECT value, rowid FROM {table} WHERE key = ?1 AND is_latest = 1 AND is_deleted <> 1",
        );
        conn.prepare_cached(&sql)?.query_row((key,), |r| Ok((r.get(0)?, r.get(1)?))).optional()
    })();
    res.map_err(|e| crate::table::Error::SqliteError(e.to_string()))
}

/// Relies on Connection::prepare_cached and query_row: reads the
/// non-tombstone row at `version` if it holds `key`.
#[verifier::external_body]
pub fn query_by_version(
    conn: &rusqlite::Connection,
    table: &str,
    key: &[u8],
    version: i64,
) -> (r: Result<Option<Vec<u8>>, crate::table::Error>)
    ensures
        r matches Err(e) ==> e is SqliteError,
        r matches Ok(res) ==> {
            let rows = data_rows(*conn, table@);
            match res {
                Some(value) => {
                    &&& rows.dom().contains(version as int)
                    &&& rows[version as int].0 == key@
                    &&& !rows[version as int].1
                    &&& rows[version as int].3 == value@
                },
                None => !(rows.dom().contains(version as int) && rows[version as int].0 == key@
                    && !rows[version as int].1),
            }
        },
{
    let res = (|| -> Result<Option<Vec<u8>>, rusqlite::Error> {
        let sql = format!(
            "SELECT value FROM {table} WHERE key = ?1 AND rowid = ?2 AND is_deleted <> 1",
        );
        conn.prepare_cached(&sql)?.query_row((key, version), |r| r.get(0)).optional()
    })();
    res.map_err(|e| crate::table::Error::SqliteError(e.to_string()))
}

/// Relies on Connection::prepare_cached and cursor iteration: reads every
/// latest row with rowid above `from`, in ascending rowid order; a
/// tombstone's value reads as `None`.
#[verifier::external_body]
pub fn select_latest_after(conn: &rusqlite::Connection, table: &str, from: i64) -> (r: Result<
    Vec<(Vec<u8>, Option<Vec<u8>>, i64)>,
    crate::table::Error,
>)
    ensures
        r matches Err(e) ==> e is SqliteError,
        r matches Ok(rs) ==> {
            let rows = data_rows(*conn, table@);
            &&& (forall|i: int, j: int| 0 <= i < j < rs.len() ==> rs[i].2 < rs[j].2)
            &&& (forall|i: int|
                0 <= i < rs.len() ==> {
                    let v = (#[trigger] rs[i]).2 as int;
                    &&& v > from
                    &&& rows.dom().contains(v)
                    &&& rows[v].2
                    &&& rows[v].0 == rs[i].0@
                    &&& (match rs[i].1 {
                        Some(value) => !rows[v].1 && rows[v].3 == value@,
                        None => rows[v].1,
                    })
                })
            &&& (forall|v: int|
                #[trigger] rows.dom().contains(v) && rows[v].2 && v > from ==> exists|i: int|
                    0 <= i < rs.len() && (#[trigger] rs[i].2) as int == v)
        },
{
    let res = (|| -> Result<Vec<(Vec<u8>, Option<Vec<u8>>, i64)>, rusqlite::Error> {
        let sql = format!(
            "SELECT key, value, is_deleted, rowid FROM {table} WHERE rowid > ?1 AND is_latest = 1 ORDER BY rowid",
        );
        let mut stmt = conn.prepare_cached(&sql)?;
        let mut rows = stmt.query((from,))?;
        let mut out = Vec::new();
        while let Some(row) = rows.next()? {
            let value = if row.get(2)? { None } else { Some(row.get(1)?) };
            out.push((row.get(0)?, value, row.get(3)?));
        }
        Ok(out)
    })();
    res.map_err(|e| crate::table::Error::SqliteError(e.to_string()))
}

/// Relies on Connection::prepare_cached and cursor iteration: reads the
/// distinct index keys stored for `pk`.
#[verifier::external_body]
pub fn query_iks_for_pk(conn: &rusqlite::Connection, table: &str, pk: &[u8]) -> (r: Result<
    Vec<Vec<u8>>,
    crate::table::Error,
>)
    ensures
        r matches Err(e) ==> e is SqliteError,
        r matches Ok(rs) ==> {
            let pairs = index_pairs(*conn, table@);
            &&& (forall|i: int| 0 <= i < rs.len() ==> pairs.contains(((#[trigger] rs[i])@, pk@)))
            &&& (forall|ik: Seq<u8>|
                pairs.contains((ik, pk@)) ==> exists|i: int|
                    0 <= i < rs.len() && (#[trigger] rs[i])@ == ik)
            &&& (forall|i: int, j: int| 0 <= i < j < rs.len() ==> rs[i]@ != rs[j]@)
        },
{
    let res = (|| -> Result<Vec<Vec<u8>>, rusqlite::Error> {
        let sql = format!("SELECT ik FROM {table} WHERE pk = ?1");
        let mut stmt = conn.prepare_cached(&sql)?;
        let mut rows = stmt.query((pk,))?;
        let mut out: Vec<Vec<u8>> = Vec::new();
        while let Some(row) = rows.next()? {
            out.push(row.get(0)?);
        }
        Ok(out)
    })();
    res.map_err(|e| crate::table::Error::SqliteError(e.to_string()))
}

/// Relies on Connection::execute: inserts one `(ik, pk)` pair.
#[verifier::external_body]
pub fn insert_ik(conn: &mut rusqlite::Connection, table: &str, ik: &[u8], pk: &[u8]) -> (r: Result<
    (),
    crate::table::Error,
>)
    ensures
        r is Ok ==> {
            &&& index_pairs(*final(conn), table@) == index_pairs(*old(conn), table@).insert(
                (ik@, pk@),
            )
            &&& pairs_unchanged_except(*old(conn), *final(conn), table@)
            &&& all_data_unchanged(*old(conn), *final(conn))
            &&& all_config_unchanged(*old(conn), *final(conn))
            &&& all_text_unchanged(*old(conn), *final(conn))
        },
{
    let res = (|| -> Result<usize, rusqlite::Error> {
        let sql = format!("INSERT INTO {table} (ik, pk) VALUES (?1, ?2)");
        conn.prepare_cached(&sql)?.execute((ik, pk))
    })();
    res.map(|_| ()).map_err(|e| crate::table::Error::SqliteError(e.to_string()))
}

/// Relies on Connection::execute: deletes one `(ik, pk)` pair.
#[verifier::external_body]
pub fn delete_ik_pk(
    conn: &mut rusqlite::Connection,
    table: &str,
    ik: &[u8],
    pk: &[u8],
) -> (r: Result<(), crate::table::Error>)
    ensures
        r is Ok ==> {
            &&& index_pairs(*final(conn), table@) == index_pairs(*old(conn), table@).remove(
                (ik@, pk@),
            )
            &&& pairs_unchanged_except(*old(conn), *final(conn), table@)
            &&& all_data_unchanged(*old(conn), *final(conn))
            &&& all_config_unchanged(*old(conn), *final(conn))
            &&& all_text_unchanged(*old(conn), *final(conn))
        },
{
    let res = (|| -> Result<usize, rusqlite::Error> {
        let sql = format!("DELETE FROM {table} WHERE ik = ?1 AND pk = ?2");
        conn.prepare_cached(&sql)?.execute((ik, pk))
    })();
    res.map(|_| ()).map_err(|e| crate::table::Error::SqliteError(e.to_string()))
}

/// Relies on Connection::execute: deletes every pair held for `pk`.
#[verifier::external_body]
pub fn delete_pairs_by_pk(conn: &mut rusqlite::Connection, table: &str, pk: &[u8]) -> (r: Result<
    (),
    crate::table::Error,
>)
    ensures
        r is Ok ==> {
            &&& index_pairs(*final(conn), table@) == index_pairs(*old(conn), table@).filter(
                |p: (Seq<u8>, Seq<u8>)| p.1 != pk@,
            )
            &&& pairs_unchanged_except(*old(conn), *final(conn), table@)
            &&& all_data_unchanged(*old(conn), *final(conn))
            &&& all_config_unchanged(*old(conn), *final(conn))
            &&& all_text_unchanged(*old(conn), *final(conn))
        },
{
    let res = (|| -> Result<usize, rusqlite::Error> {
        let sql = format!("DELETE FROM {table} WHERE pk = ?1");
        conn.prepare_cached(&sql)?.execute((pk,))
    })();
    res.map(|_| ()).map_err(|e| crate::table::Error::SqliteError(e.to_string()))
}

/// Relies on Connection::execute: `INSERT OR REPLACE` of the integer at
/// `key` in an integer config table.
#[verifier::external_body]
pub fn save_config_value(
    conn: &mut rusqlite::Connection,
    table: &str,
    key: i64,
    value: i64,
) -> (r: Result<(), crate::table::Error>)
    ensures
        r is Ok ==> {
            &&& config_value(*final(conn), table@, key as int) == Some(value as int)
            &&& (forall|k: int|
                k != key as int ==> #[trigger] config_value(*final(conn), table@, k)
                    == config_value(*old(conn), table@, k))
            &&& config_unchanged_except(*old(conn), *final(conn), table@)
            &&& all_data_unchanged(*old(conn), *final(conn))
            &&& all_pairs_unchanged(*old(conn), *final(conn))
            &&& all_text_unchanged(*old(conn), *final(conn))
        },
{
    let res = (|| -> Result<usize, rusqlite::Error> {
        let sql = format!("INSERT OR REPLACE INTO {table} (key, value) VALUES (?1, ?2)");
        conn.prepare_cached(&sql)?.execute((key, value))
    })();
    res.map(|_| ()).map_err(|e| crate::table::Error::SqliteError(e.to_string()))
}

/// Relies on Connection::prepare_cached and query_row: reads the integer
/// at `key` in an integer config table, if any.
#[verifier::external_body]
pub fn get_config_value(conn: &rusqlite::Connection, table: &str, key: i64) -> (r: Result<
    Option<i64>,
    crate::table::Error,
>)
    ensures
        r matches Err(e) ==> e is SqliteError,
        r matches Ok(res) ==> match res {
            Some(v) => config_value(*conn, table@, key as int) == Some(v as int),
            None => config_value(*conn, table@, key as int) is None,
        },
{
    let res = (|| -> Result<Option<i64>, rusqlite::Error> {
        let sql = format!("SELECT value FROM {table} WHERE key = ?1");
        conn.prepare_cached(&sql)?.query_row((key,), |row| row.get(0)).optional()
    })();
    res.map_err(|e| crate::table::Error::SqliteError(e.to_string()))
}

/// Relies on Connection::execute: `INSERT OR REPLACE` of the text at
/// `key` in a conf table.
#[verifier::external_body]
pub fn save_conf_text(
    conn: &mut rusqlite::Connection,
    table: &str,
    key: i64,
    text: &str,
) -> (r: Result<(), crate::table::Error>)
    ensures
        r is Ok ==> {
            &&& conf_text(*final(conn), table@, key as int) == Some(text@)
            &&& (forall|k: int|
                k != key as int ==> #[trigger] conf_text(*final(conn), table@, k) == conf_text(
                    *old(conn),
                    table@,
                    k,
                ))
            &&& text_unchanged_except(*old(conn), *final(conn), table@)
            &&& all_data_unchanged(*old(conn), *final(conn))
            &&& all_pairs_unchanged(*old(conn), *final(conn))
            &&& all_config_unchanged(*old(conn), *final(conn))
        },
{
    let res = (|| -> Result<usize, rusqlite::Error> {
        let sql = format!("INSERT OR REPLACE INTO {table} (key, value) VALUES (?1, ?2)");
        conn.prepare_cached(&sql)?.execute((key, text))
    })();
    res.map(|_| ()).map_err(|e| crate::table::Error::SqliteError(e.to_string()))
}

/// Relies on Connection::prepare_cached and query_row: reads the text at
/// `key` in a conf table, if any.
#[verifier::external_body]
pub fn load_conf_text(conn: &rusqlite::Connection, table: &str, key: i64) -> (r: Result<
    Option<String>,
    crate::table::Error,
>)
    ensures
        r matches Err(e) ==> e is SqliteError,
        r matches Ok(res) ==> match res {
            Some(s) => conf_text(*conn, table@, key as int) == Some(s@),
            None => conf_text(*conn, table@, key as int) is None,
        },
{
    let res = (|| -> Result<Option<String>, rusqlite::Error> {
        let sql = format!("SELECT value FROM {table} WHERE key = ?1");
        conn.prepare_cached(&sql)?.query_row((key,), |row| row.get(0)).optional()
    })();
    res.map_err(|e| crate::table::Error::SqliteError(e.to_string()))
}

/// Relies on Connection::prepare_cached and cursor iteration, with the
/// bound filter rendered by the scan options: reads up to `limit` pairs
/// within the bounds, ordered by `(ik, pk)` in the requested direction.
/// `ORDER BY ... LIMIT n` returns the first `n` rows of the ordering, so
/// an in-range pair is missing only from a full result, and then it lies
/// beyond every returned pair. A failure is always reported as the
/// substrate error.
#[verifier::external_body]
pub fn scan_pairs(
    conn: &rusqlite::Connection,
    table: &str,
    lower: Option<&crate::index::ScanKey<'_>>,
    upper: Option<&crate::index::ScanKey<'_>>,
    clause: &str,
    params: &Vec<(&'static str, &[u8])>,
    asc: bool,
    limit: u32,
) -> (r: Result<Vec<(Vec<u8>, Vec<u8>)>, crate::table::Error>)
    requires
        limit >= 1,
        clause@ == crate::index::where_text(deref_bound(lower), deref_bound(upper)),
        crate::index::where_params(deref_bound(lower), deref_bound(upper), params@),
    ensures
        r matches Err(e) ==> e is SqliteError,
        r matches Ok(rs) ==> {
            let pairs = index_pairs(*conn, table@);
            let lo = deref_bound(lower);
            let hi = deref_bound(upper);
            &&& rs@.len() <= limit
            &&& (forall|i: int|
                0 <= i < rs@.len() ==> {
                    let p = ((#[trigger] rs@[i]).0@, rs@[i].1@);
                    pairs.contains(p) && crate::index::in_range(p, lo, hi)
                })
            &&& (forall|i: int, j: int|
                0 <= i < j < rs@.len() ==> crate::index::pair_cmp(
                    ((#[trigger] rs@[i]).0@, rs@[i].1@),
                    ((#[trigger] rs@[j]).0@, rs@[j].1@),
                ) == (if asc {
                    core::cmp::Ordering::Less
                } else {
                    core::cmp::Ordering::Greater
                }))
            &&& (forall|p: (Seq<u8>, Seq<u8>)|
                pairs.contains(p) && crate::index::in_range(p, lo, hi) && !(exists|i: int|
                    0 <= i < rs@.len() && ((#[trigger] rs@[i]).0@, rs@[i].1@) == p) ==> {
                    &&& rs@.len() == limit
                    &&& rs@.len() > 0
                    &&& crate::index::pair_cmp(
                        (rs@[rs@.len() - 1].0@, rs@[rs@.len() - 1].1@),
                        p,
                    ) == (if asc {
                        core::cmp::Ordering::Less
                    } else {
                        core::cmp::Ordering::Greater
                    })
                })
        },
{
    let ord = if asc { "ASC" } else { "DESC" };
    let filter = if clause.is_empty() { "1 = 1" } else { clause };
    let sql = format!("SELECT ik, pk FROM {table} WHERE {filter} ORDER BY ik {ord}, pk {ord} LIMIT {limit}");
    let bind: Vec<(&str, &dyn rusqlite::ToSql)> = params.iter().map(|(n, v)| (*n, v as _)).collect();
    let res = (|| {
        let mut out = Vec::new();
        let mut stmt = conn.prepare_cached(&sql)?;
        let mut rows = stmt.query(bind.as_slice())?;
        while let Some(row) = rows.next()? {
            out.push((row.get(0)?, row.get(1)?));
        }
        Ok::<_, rusqlite::Error>(out)
    })();
    res.map_err(|e| EngineError::SqliteError(e.to_string()))
}

/// The model of an optional borrowed scan bound.
pub open spec fn deref_bound(k: Option<&crate::index::ScanKey<'_>>) -> Option<
    (Seq<u8>, Seq<u8>, bool),
> {
    match k {
        Some(sk) => Some((sk.ik@, sk.pk@, sk.inclusive)),
        None => None,
    }
}

} // verus!
