//! Index consistency: the pairs an index stores are exactly what its
//! extractor yields on the logically present rows, and every mutation
//! preserves this.

use crate::index::{Extractor, Index};
use crate::store::{clear_key_latest, data_rows, index_pairs, latest_unique};
use crate::table::delete::delete_effect;
use crate::table::insert::upsert_effect;
use crate::table::Table;
use vstd::prelude::*;

verus! {

/// One index is consistent with the data table: it stores `(ik, pk)`
/// exactly when the latest row for `pk` is logically present and its
/// extraction yields a set holding `ik`.
pub open spec fn consistent_one<E: Extractor>(
    conn: rusqlite::Connection,
    dt: Seq<char>,
    idx: Index<E>,
) -> bool {
    forall|ik: Seq<u8>, pk: Seq<u8>|
        #[trigger] index_pairs(conn, idx.spec_data_table()).contains((ik, pk)) <==> exists|v: int|
            {
                &&& #[trigger] data_rows(conn, dt).dom().contains(v)
                &&& data_rows(conn, dt)[v].2
                &&& !data_rows(conn, dt)[v].1
                &&& data_rows(conn, dt)[v].0 == pk
                &&& idx.spec_extractor().spec_extract(pk, data_rows(conn, dt)[v].3) matches Ok(s)
                &&& idx.spec_extractor().spec_extract(pk, data_rows(conn, dt)[v].3)->Ok_0.contains(
                    ik,
                )
            }
}

/// The index is consistent for every primary key whose latest row's
/// version is at most `w` — the fragment of consistency a watermark at
/// `w` vouches for — and stores pairs only for keys that have a latest
/// row at all. Keys whose latest row is newer than `w` may hold stale
/// pairs; catch-up re-derives them.
pub open spec fn consistent_up_to<E: Extractor>(
    conn: rusqlite::Connection,
    dt: Seq<char>,
    idx: Index<E>,
    w: int,
) -> bool {
    &&& (forall|ik: Seq<u8>, pk: Seq<u8>|
        #[trigger] index_pairs(conn, idx.spec_data_table()).contains((ik, pk)) ==> exists|v: int|
            #[trigger] data_rows(conn, dt).dom().contains(v) && data_rows(conn, dt)[v].2
                && data_rows(conn, dt)[v].0 == pk)
    &&& (forall|ik: Seq<u8>, pk: Seq<u8>, v: int|
        #![trigger index_pairs(conn, idx.spec_data_table()).contains((ik, pk)), data_rows(
            conn,
            dt,
        ).dom().contains(v)]
        data_rows(conn, dt).dom().contains(v) && data_rows(conn, dt)[v].2 && data_rows(
            conn,
            dt,
        )[v].0 == pk && v <= w ==> (index_pairs(conn, idx.spec_data_table()).contains((ik, pk))
            <==> {
            &&& !data_rows(conn, dt)[v].1
            &&& idx.spec_extractor().spec_extract(pk, data_rows(conn, dt)[v].3) is Ok
            &&& idx.spec_extractor().spec_extract(pk, data_rows(conn, dt)[v].3)->Ok_0.contains(ik)
        }))
}

/// Every deterministic index of the table is consistent with its data.
pub open spec fn index_consistent<E: Extractor>(conn: rusqlite::Connection, t: Table<E>) -> bool {
    forall|j: int|
        0 <= j < t.spec_indexes().len() && (#[trigger] t.spec_indexes()[j]).spec_extractor().deterministic()
            ==> consistent_one(conn, t.spec_data_table(), t.spec_indexes()[j])
}

/// An upsert preserves index consistency: afterwards each deterministic
/// index stores, for the written key, exactly the keys extracted from the
/// new value, and for every other key what it stored before.
pub proof fn lemma_upsert_preserves_consistency<E: Extractor>(
    t: Table<E>,
    a: rusqlite::Connection,
    b: rusqlite::Connection,
    key: Seq<u8>,
    value: Seq<u8>,
    v: i64,
)
    requires
        t.wf(),
        latest_unique(data_rows(a, t.spec_data_table())),
        upsert_effect(t, a, b, key, value, v),
        index_consistent(a, t),
    ensures
        index_consistent(b, t),
{
    let dt = t.spec_data_table();
    let rows_a = data_rows(a, dt);
    let rows_b = data_rows(b, dt);
    assert forall|j: int|
        0 <= j < t.spec_indexes().len() && (#[trigger] t.spec_indexes()[j]).spec_extractor().deterministic()
            implies consistent_one(b, dt, t.spec_indexes()[j]) by {
        let idx = t.spec_indexes()[j];
        let s = idx.spec_extractor().spec_extract(key, value)->Ok_0;
        assert(idx.spec_extractor().spec_extract(key, value) is Ok);
        assert(index_pairs(b, idx.spec_data_table()) == crate::index::with_pk_keys(
            index_pairs(a, idx.spec_data_table()),
            key,
            s,
        ));
        assert forall|ik: Seq<u8>, pk: Seq<u8>|
            #[trigger] index_pairs(b, idx.spec_data_table()).contains((ik, pk)) <==> exists|v2: int|
                {
                    &&& #[trigger] rows_b.dom().contains(v2)
                    &&& rows_b[v2].2
                    &&& !rows_b[v2].1
                    &&& rows_b[v2].0 == pk
                    &&& idx.spec_extractor().spec_extract(pk, rows_b[v2].3) matches Ok(s2)
                    &&& idx.spec_extractor().spec_extract(pk, rows_b[v2].3)->Ok_0.contains(ik)
                } by {
            if pk == key {
                if s.contains(ik) {
                    assert(index_pairs(b, idx.spec_data_table()).contains((ik, pk)));
                    assert(rows_b.dom().contains(v as int));
                    assert(rows_b[v as int] == (key, false, true, value));
                } else {
                    assert(!index_pairs(b, idx.spec_data_table()).contains((ik, pk)));
                    if exists|v2: int|
                        {
                            &&& #[trigger] rows_b.dom().contains(v2)
                            &&& rows_b[v2].2
                            &&& !rows_b[v2].1
                            &&& rows_b[v2].0 == pk
                            &&& idx.spec_extractor().spec_extract(pk, rows_b[v2].3) matches Ok(s2)
                            &&& idx.spec_extractor().spec_extract(pk, rows_b[v2].3)->Ok_0.contains(
                                ik,
                            )
                        } {
                        let v2 = choose|v2: int|
                            {
                                &&& #[trigger] rows_b.dom().contains(v2)
                                &&& rows_b[v2].2
                                &&& !rows_b[v2].1
                                &&& rows_b[v2].0 == pk
                                &&& idx.spec_extractor().spec_extract(pk, rows_b[v2].3) matches Ok(
                                    s2,
                                )
                                &&& idx.spec_extractor().spec_extract(
                                    pk,
                                    rows_b[v2].3,
                                )->Ok_0.contains(ik)
                            };
                        if v2 != v as int {
                            assert(rows_a.dom().contains(v2));
                            assert(rows_b[v2] == (if rows_a[v2].0 == key && rows_a[v2].2 {
                                (rows_a[v2].0, rows_a[v2].1, false, rows_a[v2].3)
                            } else {
                                rows_a[v2]
                            }));
                            assert(!rows_b[v2].2);
                        } else {
                            assert(rows_b[v2].3 == value);
                        }
                    }
                }
            } else {
                assert(index_pairs(b, idx.spec_data_table()).contains((ik, pk)) == index_pairs(
                    a,
                    idx.spec_data_table(),
                ).contains((ik, pk)));
                assert forall|v2: int|
                    rows_b.dom().contains(v2) && rows_b[v2].0 == pk implies v2 != v as int
                        && rows_a.dom().contains(v2) && rows_b[v2] == rows_a[v2] by {
                    if v2 == v as int {
                        assert(rows_b[v2].0 == key);
                    }
                    assert(rows_b[v2] == clear_key_latest(rows_a, key)[v2]);
                }
                assert forall|v2: int|
                    rows_a.dom().contains(v2) && rows_a[v2].0 == pk implies rows_b.dom().contains(
                        v2,
                    ) && rows_b[v2] == rows_a[v2] by {
                    assert(rows_b[v2] == clear_key_latest(rows_a, key)[v2]);
                }
            }
        }
    }
}

/// A delete preserves index consistency: afterwards each deterministic
/// index stores nothing for the deleted key, whose latest row is now a
/// tombstone, and for every other key what it stored before.
pub proof fn lemma_delete_preserves_consistency<E: Extractor>(
    t: Table<E>,
    a: rusqlite::Connection,
    b: rusqlite::Connection,
    key: Seq<u8>,
    v: i64,
)
    requires
        t.wf(),
        latest_unique(data_rows(a, t.spec_data_table())),
        delete_effect(t, a, b, key, v),
        index_consistent(a, t),
    ensures
        index_consistent(b, t),
{
    let dt = t.spec_data_table();
    let rows_a = data_rows(a, dt);
    let rows_b = data_rows(b, dt);
    assert forall|j: int|
        0 <= j < t.spec_indexes().len() && (#[trigger] t.spec_indexes()[j]).spec_extractor().deterministic()
            implies consistent_one(b, dt, t.spec_indexes()[j]) by {
        let idx = t.spec_indexes()[j];
        assert(index_pairs(b, idx.spec_data_table()) == crate::index::with_pk_keys(
            index_pairs(a, idx.spec_data_table()),
            key,
            Set::empty(),
        ));
        assert forall|ik: Seq<u8>, pk: Seq<u8>|
            #[trigger] index_pairs(b, idx.spec_data_table()).contains((ik, pk)) <==> exists|v2: int|
                {
                    &&& #[trigger] rows_b.dom().contains(v2)
                    &&& rows_b[v2].2
                    &&& !rows_b[v2].1
                    &&& rows_b[v2].0 == pk
                    &&& idx.spec_extractor().spec_extract(pk, rows_b[v2].3) matches Ok(s2)
                    &&& idx.spec_extractor().spec_extract(pk, rows_b[v2].3)->Ok_0.contains(ik)
                } by {
            if pk == key {
                assert(!index_pairs(b, idx.spec_data_table()).contains((ik, pk)));
                assert forall|v2: int|
                    rows_b.dom().contains(v2) && rows_b[v2].0 == pk && rows_b[v2].2 implies
                    rows_b[v2].1 by {
                    if v2 != v as int {
                        assert(rows_b[v2] == clear_key_latest(rows_a, key)[v2]);
                    }
                }
            } else {
                assert(index_pairs(b, idx.spec_data_table()).contains((ik, pk)) == index_pairs(
                    a,
                    idx.spec_data_table(),
                ).contains((ik, pk)));
                assert forall|v2: int|
                    rows_b.dom().contains(v2) && rows_b[v2].0 == pk implies v2 != v as int
                        && rows_a.dom().contains(v2) && rows_b[v2] == rows_a[v2] by {
                    if v2 == v as int {
                        assert(rows_b[v2].0 == key);
                    }
                    assert(rows_b[v2] == clear_key_latest(rows_a, key)[v2]);
                }
                assert forall|v2: int|
                    rows_a.dom().contains(v2) && rows_a[v2].0 == pk implies rows_b.dom().contains(
                        v2,
                    ) && rows_b[v2] == rows_a[v2] by {
                    assert(rows_b[v2] == clear_key_latest(rows_a, key)[v2]);
                }
            }
        }
    }
}

} // verus!
