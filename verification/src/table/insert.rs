//! Insertion: append a new latest row for a key, retiring the previous
//! latest and refreshing every attached index, in one transaction.

use crate::index::{post_upsert, Extractor};
use crate::store::{
    all_text_unchanged, clear_key_latest, config_value, data_rows, data_unchanged_except,
    index_pairs, latest_unique,
};
use crate::table::{Error, Table, TableItemEvent};
use vstd::prelude::*;

verus! {

/// The index data tables not belonging to `t` are untouched between the
/// two states.
pub open spec fn pairs_outside_untouched<E: Extractor>(
    t: Table<E>,
    a: rusqlite::Connection,
    b: rusqlite::Connection,
) -> bool {
    forall|tn: Seq<char>|
        (forall|j: int|
            0 <= j < t.spec_indexes().len() ==> tn != (#[trigger] t.spec_indexes()[j]).spec_data_table())
            ==> #[trigger] index_pairs(b, tn) == index_pairs(a, tn)
}

/// The config tables not belonging to `t` are untouched between the two
/// states.
pub open spec fn config_outside_untouched<E: Extractor>(
    t: Table<E>,
    a: rusqlite::Connection,
    b: rusqlite::Connection,
) -> bool {
    forall|tn: Seq<char>, k: int|
        (forall|j: int|
            0 <= j < t.spec_indexes().len() ==> tn != (#[trigger] t.spec_indexes()[j]).spec_config_table())
            ==> #[trigger] config_value(b, tn, k) == config_value(a, tn, k)
}

/// The whole effect of one upsert on a table's state: the previous latest
/// row for the key retired, a fresh latest row appended at `v` — the
/// successor of the largest version, or one on an empty table — and every
/// attached index refreshed for that key, with nothing else touched.
pub open spec fn upsert_effect<E: Extractor>(
    t: Table<E>,
    a: rusqlite::Connection,
    b: rusqlite::Connection,
    key: Seq<u8>,
    value: Seq<u8>,
    v: i64,
) -> bool {
    let rows0 = data_rows(a, t.spec_data_table());
    &&& v >= 1
    &&& !rows0.dom().contains(v as int)
    &&& (forall|v2: int| #[trigger] rows0.dom().contains(v2) ==> v2 < v)
    &&& (v as int == 1 || rows0.dom().contains(v as int - 1))
    &&& data_rows(b, t.spec_data_table()) == clear_key_latest(rows0, key).insert(
        v as int,
        (key, false, true, value),
    )
    &&& latest_unique(data_rows(b, t.spec_data_table()))
    &&& data_unchanged_except(a, b, t.spec_data_table())
    &&& all_text_unchanged(a, b)
    &&& (forall|j: int|
        0 <= j < t.spec_indexes().len() ==> post_upsert(
            a,
            b,
            #[trigger] t.spec_indexes()[j],
            key,
            value,
            v,
        ))
    &&& pairs_outside_untouched(t, a, b)
    &&& config_outside_untouched(t, a, b)
}

impl<E: Extractor> Table<E> {
    /// Clears the latest mark of every latest row holding `key`, reporting
    /// whether any row changed.
    pub(crate) fn update_last_to_not_latest(
        &self,
        conn: &mut rusqlite::Connection,
        key: &[u8],
    ) -> (r: Result<bool, Error>)
        ensures
            r matches Ok(m) ==> {
                &&& data_rows(*final(conn), self.spec_data_table()) == clear_key_latest(
                    data_rows(*old(conn), self.spec_data_table()),
                    key@,
                )
                &&& m == (exists|v: int|
                    #[trigger] data_rows(*old(conn), self.spec_data_table()).dom().contains(v)
                        && data_rows(*old(conn), self.spec_data_table())[v].0 == key@ && data_rows(
                        *old(conn),
                        self.spec_data_table(),
                    )[v].2)
                &&& data_unchanged_except(*old(conn), *final(conn), self.spec_data_table())
                &&& crate::store::all_pairs_unchanged(*old(conn), *final(conn))
                &&& crate::store::all_config_unchanged(*old(conn), *final(conn))
                &&& all_text_unchanged(*old(conn), *final(conn))
            },
    {
        let data_name = self.data_table();
        crate::store::clear_latest(conn, data_name.as_str(), key)
    }

    /// Clears the latest mark of the row at `version` if it holds `key`
    /// and is latest, reporting whether it did.
    pub(crate) fn update_last_to_not_latest_with_version(
        &self,
        conn: &mut rusqlite::Connection,
        key: &[u8],
        version: i64,
    ) -> (r: Result<bool, Error>)
        ensures
            r matches Ok(m) ==> {
                let rows = data_rows(*old(conn), self.spec_data_table());
                &&& m == (rows.dom().contains(version as int) && rows[version as int].0 == key@
                    && rows[version as int].2)
                &&& data_rows(*final(conn), self.spec_data_table()) == (if m {
                    rows.insert(
                        version as int,
                        (
                            rows[version as int].0,
                            rows[version as int].1,
                            false,
                            rows[version as int].3,
                        ),
                    )
                } else {
                    rows
                })
                &&& data_unchanged_except(*old(conn), *final(conn), self.spec_data_table())
                &&& crate::store::all_pairs_unchanged(*old(conn), *final(conn))
                &&& crate::store::all_config_unchanged(*old(conn), *final(conn))
                &&& all_text_unchanged(*old(conn), *final(conn))
            },
    {
        let data_name = self.data_table();
        crate::store::clear_latest_with_version(conn, data_name.as_str(), key, version)
    }

    /// Inserts `key -> value` as the new latest row and refreshes every
    /// attached index, without transaction discipline; the caller brackets
    /// it. Returns the fresh version and the item event describing the
    /// change.
    pub fn inner_insert(&self, conn: &mut rusqlite::Connection, key: Vec<u8>, value: Vec<u8>) -> (r:
        Result<(i64, TableItemEvent), Error>)
        requires
            self.wf(),
            latest_unique(data_rows(*old(conn), self.spec_data_table())),
        ensures
            r matches Ok((v, ev)) ==> {
                &&& upsert_effect(*self, *old(conn), *final(conn), key@, value@, v)
                &&& ev.key@ == key@
                &&& (match ev.from {
                    Some((pv, pver)) => {
                        let rows0 = data_rows(*old(conn), self.spec_data_table());
                        &&& rows0.dom().contains(pver as int)
                        &&& rows0[pver as int] == (key@, false, true, pv@)
                    },
                    None => forall|v2: int|
                        #[trigger] data_rows(*old(conn), self.spec_data_table()).dom().contains(v2)
                            ==> !(data_rows(*old(conn), self.spec_data_table())[v2].0 == key@
                            && data_rows(*old(conn), self.spec_data_table())[v2].2 && !data_rows(
                            *old(conn),
                            self.spec_data_table(),
                        )[v2].1),
                })
                &&& (ev.to matches Some((nv, nver)) && nv@ == value@ && nver == v)
            },
    {
        let ghost dt = self.spec_data_table();
        let ghost rows0 = data_rows(*old(conn), dt);
        let data_name = self.data_table();
        let prev = crate::store::query_latest(conn, data_name.as_str(), key.as_slice())?;
        let _had_latest = crate::store::clear_latest(conn, data_name.as_str(), key.as_slice())?;
        let v = crate::store::append_row(
            conn,
            data_name.as_str(),
            key.as_slice(),
            false,
            value.as_slice(),
        )?;
        let ghost conn1 = *conn;
        proof {
            assert(forall|v2: int|
                #[trigger] rows0.dom().contains(v2) ==> clear_key_latest(
                    rows0,
                    key@,
                ).dom().contains(v2));
            assert(forall|v2: int|
                #[trigger] clear_key_latest(rows0, key@).dom().contains(v2)
                    ==> rows0.dom().contains(v2));
            assert(data_rows(conn1, dt) == clear_key_latest(rows0, key@).insert(
                v as int,
                (key@, false, true, value@),
            ));
            assert(latest_unique(data_rows(conn1, dt))) by {
                let rows1 = data_rows(conn1, dt);
                assert forall|v1: int, v2: int|
                    rows1.dom().contains(v1) && rows1.dom().contains(v2) && (#[trigger] rows1[v1]).2
                        && (#[trigger] rows1[v2]).2 && rows1[v1].0 == rows1[v2].0 implies v1
                    == v2 by {
                    if v1 != v as int && v2 != v as int {
                        assert(rows0.dom().contains(v1) && rows0.dom().contains(v2));
                        assert(rows0[v1].2 && rows0[v2].2);
                        assert(rows0[v1].0 == rows0[v2].0);
                    } else if v1 == v as int && v2 != v as int {
                        assert(rows1[v2].0 == key@);
                        assert(rows0[v2].0 == key@ && rows0[v2].2);
                        assert(!rows1[v2].2);
                    } else if v2 == v as int && v1 != v as int {
                        assert(rows1[v1].0 == key@);
                        assert(rows0[v1].0 == key@ && rows0[v1].2);
                        assert(!rows1[v1].2);
                    }
                }
            }
        }

        let idxs = self.indexes_ref();
        let mut i: usize = 0;
        let ghost n = self.spec_indexes().len();
        while i < idxs.len()
            invariant
                self.wf(),
                idxs@ == self.spec_indexes(),
                n == self.spec_indexes().len(),
                0 <= i <= n,
                data_rows(*conn, dt) == data_rows(conn1, dt),
                crate::store::all_data_unchanged(conn1, *conn),
                all_text_unchanged(conn1, *conn),
                (forall|j: int|
                    i <= j < n ==> index_pairs(
                        *conn,
                        (#[trigger] self.spec_indexes()[j]).spec_data_table(),
                    ) == index_pairs(conn1, self.spec_indexes()[j].spec_data_table())
                        && config_value(*conn, self.spec_indexes()[j].spec_config_table(), 1)
                        == config_value(conn1, self.spec_indexes()[j].spec_config_table(), 1)),
                (forall|j: int|
                    0 <= j < i ==> post_upsert(
                        conn1,
                        *conn,
                        #[trigger] self.spec_indexes()[j],
                        key@,
                        value@,
                        v,
                    )),
                pairs_outside_untouched(*self, conn1, *conn),
                config_outside_untouched(*self, conn1, *conn),
            decreases n - i,
        {
            let ghost pre = *conn;
            idxs[i].update(conn, key.as_slice(), value.as_slice(), v)?;
            proof {
                assert(post_upsert(pre, *conn, self.spec_indexes()[i as int], key@, value@, v));
                assert(post_upsert(conn1, *conn, self.spec_indexes()[i as int], key@, value@, v));
                assert forall|j: int| 0 <= j < i implies post_upsert(
                    conn1,
                    *conn,
                    #[trigger] self.spec_indexes()[j],
                    key@,
                    value@,
                    v,
                ) by {
                    assert(self.spec_indexes()[j].spec_data_table()
                        != self.spec_indexes()[i as int].spec_data_table());
                    assert(self.spec_indexes()[j].spec_config_table()
                        != self.spec_indexes()[i as int].spec_config_table());
                }
            }
            i += 1;
        }

        let event = TableItemEvent {
            key,
            from: prev,
            to: Some((value, v)),
        };
        Ok((v, event))
    }

}

impl<E: Extractor> Table<E> {
    /// Inserts `key -> value` in its own transaction, returning the fresh
    /// version and the item event an observer would receive.
    pub fn insert(&self, conn: &mut rusqlite::Connection, key: Vec<u8>, value: Vec<u8>) -> (r:
        Result<(i64, TableItemEvent), Error>)
        requires
            self.wf(),
            latest_unique(data_rows(*old(conn), self.spec_data_table())),
        ensures
            r matches Ok((v, ev)) ==> {
                &&& upsert_effect(*self, *old(conn), *final(conn), key@, value@, v)
                &&& ev.key@ == key@
                &&& (match ev.from {
                    Some((pv, pver)) => {
                        let rows0 = data_rows(*old(conn), self.spec_data_table());
                        &&& rows0.dom().contains(pver as int)
                        &&& rows0[pver as int] == (key@, false, true, pv@)
                    },
                    None => forall|v2: int|
                        #[trigger] data_rows(*old(conn), self.spec_data_table()).dom().contains(v2)
                            ==> !(data_rows(*old(conn), self.spec_data_table())[v2].0 == key@
                            && data_rows(*old(conn), self.spec_data_table())[v2].2 && !data_rows(
                            *old(conn),
                            self.spec_data_table(),
                        )[v2].1),
                })
                &&& (ev.to matches Some((nv, nver)) && nv@ == value@ && nver == v)
            },
    {
        crate::store::begin_tx(conn)?;
        let ghost conn_begun = *conn;
        let res = self.inner_insert(conn, key, value);
        match res {
            Ok((v, ev)) => {
                let ghost conn_done = *conn;
                let commit = crate::store::commit_tx(conn);
                match commit {
                    Ok(()) => {
                        proof {
                            lemma_upsert_effect_frame(
                                *self,
                                *old(conn),
                                conn_begun,
                                conn_done,
                                *conn,
                                ev.key@,
                                value@,
                                v,
                            );
                        }
                        Ok((v, ev))
                    },
                    Err(e) => {
                        crate::store::rollback_tx(conn);
                        Err(e)
                    },
                }
            },
            Err(e) => {
                crate::store::rollback_tx(conn);
                Err(e)
            },
        }
    }

    /// Inserts a batch of `key -> value` pairs in one transaction,
    /// returning the item events in order. Each pair lands in a fresh row
    /// at a strictly increasing version; afterwards the row of a pair's
    /// version holds that pair, and it is the latest row exactly when no
    /// later pair of the batch carries the same key.
    pub fn insert_batch(&self, conn: &mut rusqlite::Connection, key_values: Vec<(Vec<u8>, Vec<u8>)>)
        -> (r: Result<Vec<TableItemEvent>, Error>)
        requires
            self.wf(),
            latest_unique(data_rows(*old(conn), self.spec_data_table())),
        ensures
            key_values@.len() == 0 ==> (r matches Ok(evs) && evs@.len() == 0 && *final(conn)
                == *old(conn)),
            r matches Ok(evs) ==> {
                let rows0 = data_rows(*old(conn), self.spec_data_table());
                let rows1 = data_rows(*final(conn), self.spec_data_table());
                &&& evs@.len() == key_values@.len()
                &&& (forall|i: int|
                    0 <= i < evs@.len() ==> {
                        &&& (#[trigger] evs@[i]).key@ == key_values@[i].0@
                        &&& (evs@[i].to matches Some((nv, _)) && nv@ == key_values@[i].1@)
                        &&& ({
                            let ver = evs@[i].to->Some_0.1 as int;
                            &&& !rows0.dom().contains(ver)
                            &&& rows1.dom().contains(ver)
                            &&& rows1[ver].0 == key_values@[i].0@
                            &&& !rows1[ver].1
                            &&& rows1[ver].3 == key_values@[i].1@
                            &&& (rows1[ver].2 <==> (forall|j: int|
                                i < j < key_values@.len() ==> key_values@[j].0@
                                    != key_values@[i].0@))
                        })
                    })
                &&& (forall|i: int, j: int|
                    0 <= i < j < evs@.len() ==> (#[trigger] evs@[i]).to->Some_0.1 < (
                    #[trigger] evs@[j]).to->Some_0.1)
                &&& latest_unique(rows1)
                &&& data_unchanged_except(*old(conn), *final(conn), self.spec_data_table())
                &&& all_text_unchanged(*old(conn), *final(conn))
                &&& pairs_outside_untouched(*self, *old(conn), *final(conn))
                &&& config_outside_untouched(*self, *old(conn), *final(conn))
            },
    {
        let mut events: Vec<TableItemEvent> = Vec::new();
        if key_values.len() == 0 {
            return Ok(events);
        }
        let ghost dt = self.spec_data_table();
        let ghost rows0 = data_rows(*old(conn), dt);
        crate::store::begin_tx(conn)?;
        let mut i: usize = 0;
        while i < key_values.len()
            invariant
                self.wf(),
                dt == self.spec_data_table(),
                rows0 == data_rows(*old(conn), dt),
                0 <= i <= key_values@.len(),
                events@.len() == i,
                (forall|j: int|
                    0 <= j < i ==> {
                        &&& (#[trigger] events@[j]).key@ == key_values@[j].0@
                        &&& (events@[j].to matches Some((nv, _)) && nv@ == key_values@[j].1@)
                        &&& ({
                            let ver = events@[j].to->Some_0.1 as int;
                            &&& !rows0.dom().contains(ver)
                            &&& data_rows(*conn, dt).dom().contains(ver)
                            &&& data_rows(*conn, dt)[ver].0 == key_values@[j].0@
                            &&& !data_rows(*conn, dt)[ver].1
                            &&& data_rows(*conn, dt)[ver].3 == key_values@[j].1@
                            &&& (data_rows(*conn, dt)[ver].2 <==> (forall|j2: int|
                                j < j2 < i ==> key_values@[j2].0@ != key_values@[j].0@))
                        })
                    }),
                (forall|j: int, j2: int|
                    0 <= j < j2 < i ==> (#[trigger] events@[j]).to->Some_0.1 < (
                    #[trigger] events@[j2]).to->Some_0.1),
                (forall|v2: int|
                    #[trigger] rows0.dom().contains(v2) ==> data_rows(*conn, dt).dom().contains(
                        v2,
                    )),
                latest_unique(data_rows(*conn, dt)),
                data_unchanged_except(*old(conn), *conn, dt),
                all_text_unchanged(*old(conn), *conn),
                pairs_outside_untouched(*self, *old(conn), *conn),
                config_outside_untouched(*self, *old(conn), *conn),
            decreases key_values@.len() - i,
        {
            let key = key_values[i].0.clone();
            let value = key_values[i].1.clone();
            let ghost rows_pre = data_rows(*conn, dt);
            let step = self.inner_insert(conn, key, value);
            match step {
                Ok((v, ev)) => {
                    proof {
                        let rows_now = data_rows(*conn, dt);
                        let cleared = clear_key_latest(rows_pre, key_values@[i as int].0@);
                        assert(forall|v2: int|
                            #[trigger] rows_pre.dom().contains(v2) ==> cleared.dom().contains(v2));
                        assert forall|j: int| 0 <= j < i implies {
                            let ver = (#[trigger] events@[j]).to->Some_0.1 as int;
                            &&& rows_now.dom().contains(ver)
                            &&& rows_now[ver].0 == key_values@[j].0@
                            &&& !rows_now[ver].1
                            &&& rows_now[ver].3 == key_values@[j].1@
                            &&& (rows_now[ver].2 <==> (forall|j2: int|
                                j < j2 < i + 1 ==> key_values@[j2].0@ != key_values@[j].0@))
                        } by {
                            let ver = events@[j].to->Some_0.1 as int;
                            assert(rows_pre.dom().contains(ver));
                            assert(ver != v as int);
                            assert(rows_now[ver] == cleared[ver]);
                        }
                    }
                    events.push(ev);
                },
                Err(e) => {
                    crate::store::rollback_tx(conn);
                    return Err(e);
                },
            }
            i += 1;
        }
        let commit = crate::store::commit_tx(conn);
        match commit {
            Ok(()) => Ok(events),
            Err(e) => {
                crate::store::rollback_tx(conn);
                Err(e)
            },
        }
    }
}

/// An upsert effect observed between two states extends to states equal
/// to them on every table.
pub proof fn lemma_upsert_effect_frame<E: Extractor>(
    t: Table<E>,
    a: rusqlite::Connection,
    a1: rusqlite::Connection,
    b1: rusqlite::Connection,
    b: rusqlite::Connection,
    key: Seq<u8>,
    value: Seq<u8>,
    v: i64,
)
    requires
        crate::store::db_unchanged(a, a1),
        upsert_effect(t, a1, b1, key, value, v),
        crate::store::db_unchanged(b1, b),
    ensures
        upsert_effect(t, a, b, key, value, v),
{
    assert(data_rows(a, t.spec_data_table()) == data_rows(a1, t.spec_data_table()));
    assert(data_rows(b, t.spec_data_table()) == data_rows(b1, t.spec_data_table()));
    assert forall|j: int| 0 <= j < t.spec_indexes().len() implies post_upsert(
        a,
        b,
        #[trigger] t.spec_indexes()[j],
        key,
        value,
        v,
    ) by {
        let idx = t.spec_indexes()[j];
        assert(index_pairs(a, idx.spec_data_table()) == index_pairs(a1, idx.spec_data_table()));
        assert(index_pairs(b, idx.spec_data_table()) == index_pairs(b1, idx.spec_data_table()));
        assert(config_value(a, idx.spec_config_table(), 1) == config_value(
            a1,
            idx.spec_config_table(),
            1,
        ));
        assert(config_value(b, idx.spec_config_table(), 1) == config_value(
            b1,
            idx.spec_config_table(),
            1,
        ));
    }
}

} // verus!
