//! Deletion: retire the latest row for a key and append a tombstone, with
//! every attached index emptied for that key, in one transaction. The
//! versioned variant proceeds only when the caller names the current
//! latest version.

use crate::index::{post_delete, Extractor};
use crate::store::{
    all_text_unchanged, clear_key_latest, data_rows, data_unchanged_except, db_unchanged,
    latest_unique,
};
use crate::table::insert::{config_outside_untouched, pairs_outside_untouched};
use crate::table::{Error, Table, TableItemEvent};
use vstd::prelude::*;

verus! {

/// The whole effect of one delete on a table's state: the previous latest
/// row for the key retired, a tombstone appended at `v`, and every
/// attached index emptied for the key, with nothing else touched.
pub open spec fn delete_effect<E: Extractor>(
    t: Table<E>,
    a: rusqlite::Connection,
    b: rusqlite::Connection,
    key: Seq<u8>,
    v: i64,
) -> bool {
    let rows0 = data_rows(a, t.spec_data_table());
    &&& v >= 1
    &&& !rows0.dom().contains(v as int)
    &&& (forall|v2: int| #[trigger] rows0.dom().contains(v2) ==> v2 < v)
    &&& (v as int == 1 || rows0.dom().contains(v as int - 1))
    &&& data_rows(b, t.spec_data_table()) == clear_key_latest(rows0, key).insert(
        v as int,
        (key, true, true, Seq::empty()),
    )
    &&& latest_unique(data_rows(b, t.spec_data_table()))
    &&& data_unchanged_except(a, b, t.spec_data_table())
    &&& all_text_unchanged(a, b)
    &&& (forall|j: int|
        0 <= j < t.spec_indexes().len() ==> post_delete(
            a,
            b,
            #[trigger] t.spec_indexes()[j],
            key,
            v,
        ))
    &&& pairs_outside_untouched(t, a, b)
    &&& config_outside_untouched(t, a, b)
}

impl<E: Extractor> Table<E> {
    /// Appends the tombstone row for `key` and empties every attached
    /// index for it; the caller brackets the transaction and has already
    /// retired the previous latest row.
    fn inner_delete(&self, conn: &mut rusqlite::Connection, key: &[u8]) -> (r: Result<i64, Error>)
        requires
            self.wf(),
        ensures
            r matches Ok(v) ==> {
                let rows0 = data_rows(*old(conn), self.spec_data_table());
                &&& v >= 1
                &&& !rows0.dom().contains(v as int)
                &&& (forall|v2: int| #[trigger] rows0.dom().contains(v2) ==> v2 < v)
                &&& (v as int == 1 || rows0.dom().contains(v as int - 1))
                &&& data_rows(*final(conn), self.spec_data_table()) == rows0.insert(
                    v as int,
                    (key@, true, true, Seq::empty()),
                )
                &&& data_unchanged_except(*old(conn), *final(conn), self.spec_data_table())
                &&& all_text_unchanged(*old(conn), *final(conn))
                &&& (forall|j: int|
                    0 <= j < self.spec_indexes().len() ==> post_delete(
                        *old(conn),
                        *final(conn),
                        #[trigger] self.spec_indexes()[j],
                        key@,
                        v,
                    ))
                &&& pairs_outside_untouched(*self, *old(conn), *final(conn))
                &&& config_outside_untouched(*self, *old(conn), *final(conn))
            },
    {
        let ghost dt = self.spec_data_table();
        let data_name = self.data_table();
        let empty_value: Vec<u8> = Vec::new();
        let v = crate::store::append_row(
            conn,
            data_name.as_str(),
            key,
            true,
            empty_value.as_slice(),
        )?;
        let ghost conn1 = *conn;

        let idxs = self.indexes_ref();
        let mut i: usize = 0;
        let ghost n = self.spec_indexes().len();
        while i < idxs.len()
            invariant
                self.wf(),
                idxs@ == self.spec_indexes(),
                n == self.spec_indexes().len(),
                0 <= i <= n,
                data_rows(*conn, dt) == data_rows(conn1, dt),
                crate::store::all_data_unchanged(conn1, *conn),
                all_text_unchanged(conn1, *conn),
                (forall|j: int|
                    i <= j < n ==> crate::store::index_pairs(
                        *conn,
                        (#[trigger] self.spec_indexes()[j]).spec_data_table(),
                    ) == crate::store::index_pairs(conn1, self.spec_indexes()[j].spec_data_table())
                        && crate::store::config_value(
                        *conn,
                        self.spec_indexes()[j].spec_config_table(),
                        1,
                    ) == crate::store::config_value(
                        conn1,
                        self.spec_indexes()[j].spec_config_table(),
                        1,
                    )),
                (forall|j: int|
                    0 <= j < i ==> post_delete(
                        conn1,
                        *conn,
                        #[trigger] self.spec_indexes()[j],
                        key@,
                        v,
                    )),
                pairs_outside_untouched(*self, conn1, *conn),
                config_outside_untouched(*self, conn1, *conn),
            decreases n - i,
        {
            let ghost pre = *conn;
            idxs[i].delete_by_pk(conn, key)?;
            idxs[i].inner_save_version(conn, v)?;
            proof {
                assert(post_delete(conn1, *conn, self.spec_indexes()[i as int], key@, v));
                assert forall|j: int| 0 <= j < i implies post_delete(
                    conn1,
                    *conn,
                    #[trigger] self.spec_indexes()[j],
                    key@,
                    v,
                ) by {
                    assert(self.spec_indexes()[j].spec_data_table()
                        != self.spec_indexes()[i as int].spec_data_table());
                    assert(self.spec_indexes()[j].spec_config_table()
                        != self.spec_indexes()[i as int].spec_config_table());
                }
            }
            i += 1;
        }
        Ok(v)
    }

    /// Deletes `key`: retires its latest row and appends a tombstone,
    /// returning the tombstone's version, or zero with no state change
    /// when no latest row for `key` existed.
    pub fn delete(&self, conn: &mut rusqlite::Connection, key: &[u8]) -> (r: Result<i64, Error>)
        requires
            self.wf(),
            latest_unique(data_rows(*old(conn), self.spec_data_table())),
        ensures
            r matches Ok(rv) ==> {
                let rows0 = data_rows(*old(conn), self.spec_data_table());
                &&& (rv == 0) <==> !(exists|v2: int|
                    #[trigger] rows0.dom().contains(v2) && rows0[v2].0 == key@ && rows0[v2].2)
                &&& (rv == 0 ==> db_unchanged(*old(conn), *final(conn)))
                &&& (rv != 0 ==> delete_effect(*self, *old(conn), *final(conn), key@, rv))
            },
    {
        crate::store::begin_tx(conn)?;
        let ghost conn_begun = *conn;
        let modified = match self.update_last_to_not_latest(conn, key) {
            Ok(m) => m,
            Err(e) => {
                crate::store::rollback_tx(conn);
                return Err(e);
            },
        };
        if !modified {
            proof {
                assert(data_rows(*conn, self.spec_data_table()) =~= data_rows(
                    conn_begun,
                    self.spec_data_table(),
                ));
            }
            crate::store::commit_tx(conn)?;
            return Ok(0);
        }
        let res = self.inner_delete(conn, key);
        match res {
            Ok(v) => {
                let ghost conn_done = *conn;
                match crate::store::commit_tx(conn) {
                    Ok(()) => {
                        proof {
                            lemma_delete_compose(
                                *self,
                                *old(conn),
                                conn_begun,
                                conn_done,
                                *conn,
                                key@,
                                v,
                            );
                        }
                        Ok(v)
                    },
                    Err(e) => {
                        crate::store::rollback_tx(conn);
                        Err(e)
                    },
                }
            },
            Err(e) => {
                crate::store::rollback_tx(conn);
                Err(e)
            },
        }
    }

    /// Optimistic-concurrency delete: proceeds only when the latest row
    /// for `key` is exactly `version`; returns the tombstone's version and
    /// the item event, or zero and no event with no state change.
    pub fn delete_with_version(
        &self,
        conn: &mut rusqlite::Connection,
        key: Vec<u8>,
        version: i64,
    ) -> (r: Result<(i64, Option<TableItemEvent>), Error>)
        requires
            self.wf(),
            latest_unique(data_rows(*old(conn), self.spec_data_table())),
        ensures
            r matches Ok((rv, evo)) ==> {
                let rows0 = data_rows(*old(conn), self.spec_data_table());
                &&& (rv != 0) <==> (rows0.dom().contains(version as int) && rows0[version as int].0
                    == key@ && rows0[version as int].2)
                &&& (rv == 0 ==> db_unchanged(*old(conn), *final(conn)) && evo is None)
                &&& (rv != 0 ==> {
                    &&& delete_effect(*self, *old(conn), *final(conn), key@, rv)
                    &&& evo matches Some(ev)
                    &&& ev.key@ == key@
                    &&& ev.to is None
                    &&& (match ev.from {
                        Some((pv, pver)) => pver == version && rows0.dom().contains(version as int)
                            && rows0[version as int].0 == key@ && !rows0[version as int].1
                            && rows0[version as int].3 == pv@,
                        None => !(rows0.dom().contains(version as int)
                            && rows0[version as int].0 == key@ && !rows0[version as int].1),
                    })
                })
            },
    {
        crate::store::begin_tx(conn)?;
        let ghost conn_begun = *conn;
        let last_value = match self.get_by_version(conn, key.as_slice(), version) {
            Ok(lv) => lv,
            Err(e) => {
                crate::store::rollback_tx(conn);
                return Err(e);
            },
        };
        let modified = match self.update_last_to_not_latest_with_version(
            conn,
            key.as_slice(),
            version,
        ) {
            Ok(m) => m,
            Err(e) => {
                crate::store::rollback_tx(conn);
                return Err(e);
            },
        };
        if !modified {
            crate::store::commit_tx(conn)?;
            return Ok((0, None));
        }
        let ghost rows0 = data_rows(conn_begun, self.spec_data_table());
        proof {
            assert(data_rows(*conn, self.spec_data_table()) =~= clear_key_latest(rows0, key@));
        }
        let res = self.inner_delete(conn, key.as_slice());
        match res {
            Ok(v) => {
                let ghost conn_done = *conn;
                match crate::store::commit_tx(conn) {
                    Ok(()) => {
                        proof {
                            lemma_delete_compose_versioned(
                                *self,
                                *old(conn),
                                conn_begun,
                                conn_done,
                                *conn,
                                key@,
                                version,
                                v,
                            );
                        }
                        let from = match last_value {
                            Some(x) => Some((x, version)),
                            None => None,
                        };
                        let ev = TableItemEvent { key, from, to: None };
                        Ok((v, Some(ev)))
                    },
                    Err(e) => {
                        crate::store::rollback_tx(conn);
                        Err(e)
                    },
                }
            },
            Err(e) => {
                crate::store::rollback_tx(conn);
                Err(e)
            },
        }
    }
}

/// A delete effect whose first step cleared the key's latest rows extends
/// to the surrounding unchanged states.
proof fn lemma_delete_compose<E: Extractor>(
    t: Table<E>,
    a: rusqlite::Connection,
    a1: rusqlite::Connection,
    b1: rusqlite::Connection,
    b: rusqlite::Connection,
    key: Seq<u8>,
    v: i64,
)
    requires
        t.wf(),
        latest_unique(data_rows(a, t.spec_data_table())),
        db_unchanged(a, a1),
        data_rows(b1, t.spec_data_table()) == clear_key_latest(
            data_rows(a1, t.spec_data_table()),
            key,
        ).insert(v as int, (key, true, true, Seq::empty())),
        v >= 1,
        !clear_key_latest(data_rows(a1, t.spec_data_table()), key).dom().contains(v as int),
        (forall|v2: int|
            #[trigger] clear_key_latest(data_rows(a1, t.spec_data_table()), key).dom().contains(v2)
                ==> v2 < v),
        v as int == 1 || clear_key_latest(data_rows(a1, t.spec_data_table()), key).dom().contains(
            v as int - 1,
        ),
        data_unchanged_except(a1, b1, t.spec_data_table()),
        all_text_unchanged(a1, b1),
        (forall|j: int|
            0 <= j < t.spec_indexes().len() ==> post_delete(
                a1,
                b1,
                #[trigger] t.spec_indexes()[j],
                key,
                v,
            )),
        pairs_outside_untouched(t, a1, b1),
        config_outside_untouched(t, a1, b1),
        db_unchanged(b1, b),
    ensures
        delete_effect(t, a, b, key, v),
{
    let rows0 = data_rows(a, t.spec_data_table());
    assert(forall|v2: int|
        #[trigger] rows0.dom().contains(v2) ==> clear_key_latest(rows0, key).dom().contains(v2));
    assert(data_rows(b, t.spec_data_table()) == clear_key_latest(rows0, key).insert(
        v as int,
        (key, true, true, Seq::empty()),
    ));
    assert(latest_unique(data_rows(b, t.spec_data_table()))) by {
        let rows1 = data_rows(b, t.spec_data_table());
        assert forall|v1: int, v2: int|
            rows1.dom().contains(v1) && rows1.dom().contains(v2) && (#[trigger] rows1[v1]).2 && (
            #[trigger] rows1[v2]).2 && rows1[v1].0 == rows1[v2].0 implies v1 == v2 by {
            if v1 != v as int && v2 != v as int {
                assert(rows0.dom().contains(v1) && rows0.dom().contains(v2));
                assert(rows0[v1].2 && rows0[v2].2);
                assert(rows0[v1].0 == rows0[v2].0);
            } else if v1 == v as int && v2 != v as int {
                assert(rows1[v2].0 == key);
                assert(rows0[v2].0 == key && rows0[v2].2);
                assert(!rows1[v2].2);
            } else if v2 == v as int && v1 != v as int {
                assert(rows1[v1].0 == key);
                assert(rows0[v1].0 == key && rows0[v1].2);
                assert(!rows1[v1].2);
            }
        }
    }
    assert forall|j: int| 0 <= j < t.spec_indexes().len() implies post_delete(
        a,
        b,
        #[trigger] t.spec_indexes()[j],
        key,
        v,
    ) by {
        let idx = t.spec_indexes()[j];
        assert(crate::store::index_pairs(a, idx.spec_data_table()) == crate::store::index_pairs(
            a1,
            idx.spec_data_table(),
        ));
        assert(crate::store::index_pairs(b, idx.spec_data_table()) == crate::store::index_pairs(
            b1,
            idx.spec_data_table(),
        ));
        assert(crate::store::config_value(a, idx.spec_config_table(), 1)
            == crate::store::config_value(a1, idx.spec_config_table(), 1));
        assert(crate::store::config_value(b, idx.spec_config_table(), 1)
            == crate::store::config_value(b1, idx.spec_config_table(), 1));
    }
}

/// As `lemma_delete_compose`, for the versioned path, whose first step
/// cleared exactly the row at `version`; under latest uniqueness that is
/// every latest row holding the key.
proof fn lemma_delete_compose_versioned<E: Extractor>(
    t: Table<E>,
    a: rusqlite::Connection,
    a1: rusqlite::Connection,
    b1: rusqlite::Connection,
    b: rusqlite::Connection,
    key: Seq<u8>,
    version: i64,
    v: i64,
)
    requires
        t.wf(),
        latest_unique(data_rows(a, t.spec_data_table())),
        db_unchanged(a, a1),
        data_rows(a1, t.spec_data_table()).dom().contains(version as int),
        data_rows(a1, t.spec_data_table())[version as int].0 == key,
        data_rows(a1, t.spec_data_table())[version as int].2,
        ({
            let mid = clear_key_latest(data_rows(a1, t.spec_data_table()), key);
            &&& data_rows(b1, t.spec_data_table()) == mid.insert(
                v as int,
                (key, true, true, Seq::empty()),
            )
            &&& v >= 1
            &&& !mid.dom().contains(v as int)
            &&& (forall|v2: int| #[trigger] mid.dom().contains(v2) ==> v2 < v)
            &&& (v as int == 1 || mid.dom().contains(v as int - 1))
        }),
        data_unchanged_except(a1, b1, t.spec_data_table()),
        all_text_unchanged(a1, b1),
        (forall|j: int|
            0 <= j < t.spec_indexes().len() ==> post_delete(
                a1,
                b1,
                #[trigger] t.spec_indexes()[j],
                key,
                v,
            )),
        pairs_outside_untouched(t, a1, b1),
        config_outside_untouched(t, a1, b1),
        db_unchanged(b1, b),
    ensures
        delete_effect(t, a, b, key, v),
{
    lemma_delete_compose(t, a, a1, b1, b, key, v);
}

} // verus!
