//! Reads: the latest value for a key, and the value at a given version.

use crate::index::Extractor;
use crate::store::data_rows;
use crate::table::{Error, Table};
use vstd::prelude::*;

verus! {

impl<E: Extractor> Table<E> {
    /// The latest non-tombstone value for `key` and its version, if the
    /// key is logically present.
    pub fn get(&self, conn: &rusqlite::Connection, key: &[u8]) -> (r: Result<
        Option<(Vec<u8>, i64)>,
        Error,
    >)
        ensures
            r matches Err(e) ==> e is SqliteError,
            r matches Ok(res) ==> match res {
                Some((value, version)) => {
                    &&& data_rows(*conn, self.spec_data_table()).dom().contains(version as int)
                    &&& data_rows(*conn, self.spec_data_table())[version as int] == (
                        key@,
                        false,
                        true,
                        value@,
                    )
                },
                None => forall|v: int|
                    #[trigger] data_rows(*conn, self.spec_data_table()).dom().contains(v)
                        ==> !(data_rows(*conn, self.spec_data_table())[v].0 == key@ && data_rows(
                        *conn,
                        self.spec_data_table(),
                    )[v].2 && !data_rows(*conn, self.spec_data_table())[v].1),
            },
    {
        let data_name = self.data_table();
        crate::store::query_latest(conn, data_name.as_str(), key)
    }

    /// The value of the physical row at `version`, if it holds `key` and
    /// is not a tombstone.
    pub fn get_by_version(&self, conn: &rusqlite::Connection, key: &[u8], version: i64) -> (r:
        Result<Option<Vec<u8>>, Error>)
        ensures
            r matches Err(e) ==> e is SqliteError,
            r matches Ok(res) ==> {
                let rows = data_rows(*conn, self.spec_data_table());
                match res {
                    Some(value) => {
                        &&& rows.dom().contains(version as int)
                        &&& rows[version as int].0 == key@
                        &&& !rows[version as int].1
                        &&& rows[version as int].3 == value@
                    },
                    None => !(rows.dom().contains(version as int) && rows[version as int].0 == key@
                        && !rows[version as int].1),
                }
            },
    {
        let data_name = self.data_table();
        crate::store::query_by_version(conn, data_name.as_str(), key, version)
    }
}

} // verus!
