//! Table creation and reopening: idempotent DDL, per-index catch-up from
//! the persisted watermark, and garbage collection of sub-tables no longer
//! owned.

use crate::index::{watermark_advanced, with_pk_keys, Extractor, Index};
use crate::table::laws::{consistent_one, consistent_up_to};
use crate::store::{
    all_data_unchanged, all_text_unchanged, conf_text, config_unchanged_except, config_value,
    data_rows, db_unchanged, index_pairs, latest_unique, pairs_unchanged_except,
    versions_positive,
};
use crate::table::scan::str_eq;
use crate::table::{Error, Table};
use vstd::arithmetic::div_mod::lemma_fundamental_div_mod;
use vstd::prelude::*;
use vstd::string::{StrSliceExecFns, StringExecFns};

verus! {

/// Every latest row's version is covered by the watermark stored for the
/// index config table `cfg`.
pub open spec fn watermark_covers(
    conn: rusqlite::Connection,
    data: Seq<char>,
    cfg: Seq<char>,
) -> bool {
    forall|v: int|
        #[trigger] data_rows(conn, data).dom().contains(v) && data_rows(conn, data)[v].2 ==> {
            &&& config_value(conn, cfg, 1) matches Some(w)
            &&& v <= config_value(conn, cfg, 1)->Some_0
        }
}

/// The conf row already names the active set (with comma-free names) and
/// every index watermark already covers every latest row: the state from
/// which re-creating the table has nothing left to do.
pub open spec fn catch_up_noop_ready<E: Extractor>(t: Table<E>, a: rusqlite::Connection) -> bool {
    &&& (exists|names: Seq<Seq<char>>|
        #[trigger] active_names_ok(t, names) && comma_free(names) && conf_text(
            a,
            t.spec_conf_table(),
            2,
        ) == Some(join_text(names)))
    &&& (forall|j: int|
        0 <= j < t.spec_indexes().len() ==> config_value(
            a,
            (#[trigger] t.spec_indexes()[j]).spec_config_table(),
            1,
        ) is Some && watermark_covers(
            a,
            t.spec_data_table(),
            t.spec_indexes()[j].spec_config_table(),
        ))
}

/// Two active-name lists of the same table are the same list.
pub proof fn lemma_active_names_unique<E: Extractor>(
    t: Table<E>,
    n1: Seq<Seq<char>>,
    n2: Seq<Seq<char>>,
)
    requires
        active_names_ok(t, n1),
        active_names_ok(t, n2),
    ensures
        n1 == n2,
{
    assert forall|k: int| 0 <= k < n1.len() implies n1[k] == n2[k] by {
        if k >= 2 {
            let j = (k - 2) / 2;
            lemma_fundamental_div_mod(k - 2, 2);
            if (k - 2) % 2 == 0 {
                assert(k == 2 + 2 * j);
                assert(0 <= j < t.spec_indexes().len());
                assert(n1[2 + 2 * j] == (#[trigger] t.spec_indexes()[j]).spec_data_table());
                assert(n2[2 + 2 * j] == t.spec_indexes()[j].spec_data_table());
            } else {
                assert(k == 3 + 2 * j);
                assert(0 <= j < t.spec_indexes().len());
                assert(n1[3 + 2 * j] == (#[trigger] t.spec_indexes()[j]).spec_config_table());
                assert(n2[3 + 2 * j] == t.spec_indexes()[j].spec_config_table());
            }
        }
    }
    assert(n1 =~= n2);
}

/// One catch-up replay step: with the index consistent for keys settled
/// up to the previous high version, re-extracting (or emptying, for a
/// tombstone) the replayed key makes it consistent up to that row's
/// version.
proof fn lemma_catch_up_step<E: Extractor>(
    t: Table<E>,
    idx: Index<E>,
    conn0: rusqlite::Connection,
    pre: rusqlite::Connection,
    post: rusqlite::Connection,
    rows: Seq<(Vec<u8>, Option<Vec<u8>>, i64)>,
    k: int,
    from: int,
)
    requires
        idx.spec_extractor().deterministic(),
        latest_unique(data_rows(conn0, t.spec_data_table())),
        0 <= k < rows.len(),
        (forall|i: int, j: int| 0 <= i < j < rows.len() ==> rows[i].2 < rows[j].2),
        (forall|i: int|
            0 <= i < rows.len() ==> {
                let v = (#[trigger] rows[i]).2 as int;
                &&& v > from
                &&& data_rows(conn0, t.spec_data_table()).dom().contains(v)
                &&& data_rows(conn0, t.spec_data_table())[v].2
                &&& data_rows(conn0, t.spec_data_table())[v].0 == rows[i].0@
                &&& (match rows[i].1 {
                    Some(value) => !data_rows(conn0, t.spec_data_table())[v].1 && data_rows(
                        conn0,
                        t.spec_data_table(),
                    )[v].3 == value@,
                    None => data_rows(conn0, t.spec_data_table())[v].1,
                })
            }),
        (forall|v: int|
            #[trigger] data_rows(conn0, t.spec_data_table()).dom().contains(v) && data_rows(
                conn0,
                t.spec_data_table(),
            )[v].2 && v > from ==> exists|i: int|
                0 <= i < rows.len() && (#[trigger] rows[i].2) as int == v),
        data_rows(pre, t.spec_data_table()) == data_rows(conn0, t.spec_data_table()),
        data_rows(post, t.spec_data_table()) == data_rows(conn0, t.spec_data_table()),
        consistent_up_to(
            pre,
            t.spec_data_table(),
            idx,
            if k == 0 {
                from
            } else {
                rows[k - 1].2 as int
            },
        ),
        (match rows[k].1 {
            Some(value) => idx.spec_extractor().spec_extract(rows[k].0@, value@) is Ok
                && index_pairs(post, idx.spec_data_table()) == with_pk_keys(
                index_pairs(pre, idx.spec_data_table()),
                rows[k].0@,
                idx.spec_extractor().spec_extract(rows[k].0@, value@)->Ok_0,
            ),
            None => index_pairs(post, idx.spec_data_table()) == with_pk_keys(
                index_pairs(pre, idx.spec_data_table()),
                rows[k].0@,
                Set::empty(),
            ),
        }),
    ensures
        consistent_up_to(post, t.spec_data_table(), idx, rows[k].2 as int),
{
    let dt = t.spec_data_table();
    let rowsd = data_rows(conn0, dt);
    let wprev: int = if k == 0 {
        from
    } else {
        rows[k - 1].2 as int
    };
    let vk: int = rows[k].2 as int;
    let pkk = rows[k].0@;
    let pairs_pre = index_pairs(pre, idx.spec_data_table());
    let pairs_post = index_pairs(post, idx.spec_data_table());
    let s_new: Set<Seq<u8>> = match rows[k].1 {
        Some(value) => idx.spec_extractor().spec_extract(pkk, value@)->Ok_0,
        None => Set::empty(),
    };
    assert(pairs_post == with_pk_keys(pairs_pre, pkk, s_new));
    assert(from <= wprev) by {
        if k > 0 {
            assert(rows[k - 1].2 as int > from);
        }
    }
    assert forall|v: int|
        rowsd.dom().contains(v) && rowsd[v].2 && wprev < v && v <= vk implies v == vk by {
        assert(v > from);
        let i2 = choose|i2: int| 0 <= i2 < rows.len() && (#[trigger] rows[i2].2) as int == v;
        if i2 < k {
            assert(rows[i2].2 < rows[k].2);
            if k > 0 {
                if i2 < k - 1 {
                    assert(rows[i2].2 < rows[k - 1].2);
                }
                assert(rows[i2].2 as int <= wprev);
            }
        } else if i2 > k {
            assert(rows[k].2 < rows[i2].2);
        }
    }
    assert forall|ik: Seq<u8>, pk: Seq<u8>|
        #[trigger] pairs_post.contains((ik, pk)) implies exists|v: int|
        #[trigger] data_rows(post, dt).dom().contains(v) && data_rows(post, dt)[v].2 && data_rows(
            post,
            dt,
        )[v].0 == pk by {
        if pk == pkk {
            assert(data_rows(post, dt).dom().contains(vk) && data_rows(post, dt)[vk].2
                && data_rows(post, dt)[vk].0 == pkk);
        } else {
            assert(index_pairs(pre, idx.spec_data_table()).contains((ik, pk)));
            let v = choose|v: int|
                #[trigger] data_rows(pre, dt).dom().contains(v) && data_rows(pre, dt)[v].2
                    && data_rows(pre, dt)[v].0 == pk;
            assert(data_rows(post, dt).dom().contains(v) && data_rows(post, dt)[v].2 && data_rows(
                post,
                dt,
            )[v].0 == pk);
        }
    }
    assert forall|ik: Seq<u8>, pk: Seq<u8>, v: int|
        #![trigger pairs_post.contains((ik, pk)), data_rows(post, dt).dom().contains(v)]
        data_rows(post, dt).dom().contains(v) && data_rows(post, dt)[v].2 && data_rows(
            post,
            dt,
        )[v].0 == pk && v <= vk implies (pairs_post.contains((ik, pk)) <==> {
        &&& !data_rows(post, dt)[v].1
        &&& idx.spec_extractor().spec_extract(pk, data_rows(post, dt)[v].3) is Ok
        &&& idx.spec_extractor().spec_extract(pk, data_rows(post, dt)[v].3)->Ok_0.contains(ik)
    }) by {
        assert(#[trigger] data_rows(pre, dt).dom().contains(v));
        if pk == pkk {
            assert(v == vk);
            match rows[k].1 {
                Some(value) => {
                    assert(!rowsd[vk].1 && rowsd[vk].3 == value@);
                    assert(pairs_post.contains((ik, pk)) == s_new.contains(ik));
                },
                None => {
                    assert(rowsd[vk].1);
                    assert(!pairs_post.contains((ik, pk)));
                },
            }
        } else {
            assert(pairs_post.contains((ik, pk)) == pairs_pre.contains((ik, pk)));
            if v <= wprev {
                assert(pairs_pre.contains((ik, pk)) <==> {
                    &&& !data_rows(pre, dt)[v].1
                    &&& idx.spec_extractor().spec_extract(pk, data_rows(pre, dt)[v].3) is Ok
                    &&& idx.spec_extractor().spec_extract(
                        pk,
                        data_rows(pre, dt)[v].3,
                    )->Ok_0.contains(ik)
                });
            } else {
                assert(v == vk);
                assert(rowsd[vk].0 == pkk);
                assert(false);
            }
        }
    }
}

/// Everything creating (or re-opening) the table leaves behind: the data
/// rows untouched and well formed, every watermark covering every latest
/// row, the conf row naming the active sub-tables, every stale tracked
/// sub-table read as empty, and every other table unchanged except the
/// index tables catch-up owns and the conf row itself.
pub open spec fn create_effect<E: Extractor>(
    t: Table<E>,
    a: rusqlite::Connection,
    b: rusqlite::Connection,
) -> bool {
    &&& latest_unique(data_rows(b, t.spec_data_table()))
    &&& versions_positive(data_rows(b, t.spec_data_table()))
    &&& data_rows(b, t.spec_data_table()) == data_rows(a, t.spec_data_table())
    &&& (forall|j: int|
        0 <= j < t.spec_indexes().len() ==> watermark_covers(
            b,
            t.spec_data_table(),
            (#[trigger] t.spec_indexes()[j]).spec_config_table(),
        ))
    &&& exists|names: Seq<Seq<char>>, listed: Seq<Seq<char>>|
        #![trigger active_names_ok(t, names), comma_free(listed)]
        {
            &&& active_names_ok(t, names)
            &&& conf_text(b, t.spec_conf_table(), 2) == Some(join_text(names))
            &&& comma_free(listed)
            &&& (match conf_text(a, t.spec_conf_table(), 2) {
                Some(txt) => listed.len() >= 1 && join_text(listed) == txt,
                None => listed.len() == 0,
            })
            &&& (forall|nm: Seq<char>| stale(listed, names, nm) ==> #[trigger] table_empty(b, nm))
            &&& (forall|t2: Seq<char>|
                !stale(listed, names, t2) ==> #[trigger] data_rows(b, t2) == data_rows(a, t2))
            &&& (forall|t2: Seq<char>|
                !stale(listed, names, t2) && (forall|j: int|
                    0 <= j < t.spec_indexes().len() ==> t2 != (
                    #[trigger] t.spec_indexes()[j]).spec_data_table())
                    ==> #[trigger] index_pairs(b, t2) == index_pairs(a, t2))
            &&& (forall|t2: Seq<char>, k: int|
                !stale(listed, names, t2) && (forall|j: int|
                    0 <= j < t.spec_indexes().len() ==> t2 != (
                    #[trigger] t.spec_indexes()[j]).spec_config_table())
                    ==> #[trigger] config_value(b, t2, k) == config_value(a, t2, k))
            &&& (forall|t2: Seq<char>, k: int|
                !stale(listed, names, t2) && !(t2 == t.spec_conf_table() && k == 2)
                    ==> #[trigger] conf_text(b, t2, k) == conf_text(a, t2, k))
        }
}

impl<E: Extractor> Table<E> {
    /// Replays every latest row newer than the index's watermark against
    /// the index, in ascending version order: an upsert for a live row, a
    /// delete for a tombstone. Afterwards the watermark covers every
    /// latest row; it is unchanged when there was nothing to replay, and
    /// otherwise it is the largest replayed version — a latest row's
    /// version above the old watermark which, by coverage, no latest
    /// version exceeds. A watermark that already covers them all makes
    /// this a no-op: running catch-up again from the watermark yields no
    /// changes.
    pub fn catch_up_index(&self, conn: &mut rusqlite::Connection, index: &Index<E>) -> (r: Result<
        (),
        Error,
    >)
        requires
            versions_positive(data_rows(*old(conn), self.spec_data_table())),
        ensures
            r is Ok ==> {
                let rows = data_rows(*old(conn), self.spec_data_table());
                let w0 = match config_value(*old(conn), index.spec_config_table(), 1) {
                    Some(w0) => w0,
                    None => 0,
                };
                &&& all_data_unchanged(*old(conn), *final(conn))
                &&& all_text_unchanged(*old(conn), *final(conn))
                &&& pairs_unchanged_except(*old(conn), *final(conn), index.spec_data_table())
                &&& config_unchanged_except(*old(conn), *final(conn), index.spec_config_table())
                &&& watermark_covers(
                    *final(conn),
                    self.spec_data_table(),
                    index.spec_config_table(),
                )
                &&& ((forall|v: int|
                    #[trigger] rows.dom().contains(v) && rows[v].2 ==> v <= w0) ==> config_value(
                    *final(conn),
                    index.spec_config_table(),
                    1,
                ) == config_value(*old(conn), index.spec_config_table(), 1))
                &&& ((exists|v: int| #[trigger] rows.dom().contains(v) && rows[v].2 && v > w0)
                    ==> exists|vm: int|
                    {
                        &&& config_value(*final(conn), index.spec_config_table(), 1) == Some(vm)
                        &&& #[trigger] rows.dom().contains(vm)
                        &&& rows[vm].2
                        &&& vm > w0
                    })
                &&& ((config_value(*old(conn), index.spec_config_table(), 1) matches Some(w0)
                    && watermark_covers(
                    *old(conn),
                    self.spec_data_table(),
                    index.spec_config_table(),
                )) ==> db_unchanged(*old(conn), *final(conn)))
                &&& ((index.spec_extractor().deterministic() && latest_unique(rows)
                    && crate::table::laws::consistent_up_to(
                    *old(conn),
                    self.spec_data_table(),
                    *index,
                    w0,
                )) ==> crate::table::laws::consistent_one(
                    *final(conn),
                    self.spec_data_table(),
                    *index,
                ))
            },
    {
        let ghost dt = self.spec_data_table();
        let ghost cfg = index.spec_config_table();
        let synced = index.get_data_version(conn)?;
        let from: i64 = match synced {
            Some(v) => v,
            None => 0,
        };
        let ghost hypc = index.spec_extractor().deterministic() && latest_unique(
            data_rows(*old(conn), dt),
        ) && crate::table::laws::consistent_up_to(*old(conn), dt, *index, from as int);
        let rows = self.scan_to_end(conn, from)?;
        let ghost conn0 = *conn;
        let mut k: usize = 0;
        while k < rows.len()
            invariant
                0 <= k <= rows@.len(),
                versions_positive(data_rows(conn0, dt)),
                dt == self.spec_data_table(),
                cfg == index.spec_config_table(),
                (forall|i: int, j: int| 0 <= i < j < rows@.len() ==> rows@[i].2 < rows@[j].2),
                (forall|i: int|
                    0 <= i < rows@.len() ==> {
                        let v = (#[trigger] rows@[i]).2 as int;
                        &&& v > from
                        &&& data_rows(conn0, dt).dom().contains(v)
                        &&& data_rows(conn0, dt)[v].2
                        &&& data_rows(conn0, dt)[v].0 == rows@[i].0@
                        &&& (match rows@[i].1 {
                            Some(value) => !data_rows(conn0, dt)[v].1 && data_rows(conn0, dt)[v].3
                                == value@,
                            None => data_rows(conn0, dt)[v].1,
                        })
                    }),
                (forall|v: int|
                    #[trigger] data_rows(conn0, dt).dom().contains(v) && data_rows(conn0, dt)[v].2
                        && v > from ==> exists|i: int|
                        0 <= i < rows@.len() && (#[trigger] rows@[i].2) as int == v),
                (synced matches Some(w0) ==> w0 == from && config_value(conn0, cfg, 1) == Some(
                    w0 as int,
                )),
                (synced is None ==> from == 0 && config_value(conn0, cfg, 1) is None),
                all_data_unchanged(conn0, *conn),
                all_text_unchanged(conn0, *conn),
                pairs_unchanged_except(conn0, *conn, index.spec_data_table()),
                config_unchanged_except(conn0, *conn, cfg),
                k == 0 ==> *conn == conn0,
                k > 0 ==> watermark_advanced(conn0, *conn, cfg, rows@[k - 1].2),
                conn0 == *old(conn),
                hypc == (index.spec_extractor().deterministic() && latest_unique(
                    data_rows(conn0, dt),
                ) && crate::table::laws::consistent_up_to(conn0, dt, *index, from as int)),
                hypc ==> crate::table::laws::consistent_up_to(
                    *conn,
                    dt,
                    *index,
                    (if k == 0 {
                        from as int
                    } else {
                        rows@[k - 1].2 as int
                    }),
                ),
                (forall|i: int|
                    0 <= i < k ==> (config_value(*conn, cfg, 1) matches Some(w) && (
                    #[trigger] rows@[i].2) as int <= config_value(*conn, cfg, 1)->Some_0)),
            decreases rows@.len() - k,
        {
            let ghost pre = *conn;
            let (key, value, version) = (
                rows[k].0.clone(),
                match &rows[k].1 {
                    Some(v) => Some(v.clone()),
                    None => None,
                },
                rows[k].2,
            );
            match value {
                None => {
                    index.delete_by_pk(conn, key.as_slice())?;
                    index.inner_save_version(conn, version)?;
                },
                Some(value) => {
                    index.update(conn, key.as_slice(), value.as_slice(), version)?;
                },
            }
            proof {
                assert(config_value(*conn, cfg, 1) matches Some(w) && version as int
                    <= config_value(*conn, cfg, 1)->Some_0);
                assert(forall|i: int|
                    0 <= i < k ==> (#[trigger] rows@[i].2) as int <= version as int);
                if hypc {
                    lemma_catch_up_step(
                        *self,
                        *index,
                        conn0,
                        pre,
                        *conn,
                        rows@,
                        k as int,
                        from as int,
                    );
                }
            }
            k += 1;
        }
        proof {
            assert(watermark_covers(*conn, dt, cfg)) by {
                assert forall|v: int|
                    #[trigger] data_rows(*conn, dt).dom().contains(v) && data_rows(
                        *conn,
                        dt,
                    )[v].2 implies {
                    &&& config_value(*conn, cfg, 1) matches Some(w)
                    &&& v <= config_value(*conn, cfg, 1)->Some_0
                } by {
                    assert(data_rows(*conn, dt) == data_rows(conn0, dt));
                    if v > from {
                        let i = choose|i: int|
                            0 <= i < rows@.len() && (#[trigger] rows@[i].2) as int == v;
                        assert(rows@.len() > 0);
                        assert(config_value(*conn, cfg, 1) matches Some(w));
                    } else {
                        assert(v >= 1);
                        assert(from >= 1);
                        assert(synced is Some);
                        if rows@.len() == 0 {
                            assert(config_value(*conn, cfg, 1) == Some(from as int));
                        } else {
                            assert(watermark_advanced(conn0, *conn, cfg, rows@[rows@.len()
                                - 1].2));
                            assert(config_value(*conn, cfg, 1)->Some_0 >= from as int);
                        }
                    }
                }
            }
            if config_value(conn0, cfg, 1) is Some && watermark_covers(conn0, dt, cfg) {
                if rows@.len() > 0 {
                    let v0 = rows@[0].2 as int;
                    assert(data_rows(conn0, dt).dom().contains(v0) && data_rows(conn0, dt)[v0].2);
                    assert(v0 <= from as int);
                    assert(false);
                }
                assert(*conn == conn0);
            }
            if forall|v: int|
                #[trigger] data_rows(conn0, dt).dom().contains(v) && data_rows(conn0, dt)[v].2
                    ==> v <= from as int {
                if rows@.len() > 0 {
                    let v0 = rows@[0].2 as int;
                    assert(data_rows(conn0, dt).dom().contains(v0) && data_rows(conn0, dt)[v0].2);
                    assert(false);
                }
                assert(*conn == conn0);
            }
            if exists|v: int|
                #[trigger] data_rows(conn0, dt).dom().contains(v) && data_rows(conn0, dt)[v].2 && v
                    > from as int {
                let vx = choose|v: int|
                    #[trigger] data_rows(conn0, dt).dom().contains(v) && data_rows(conn0, dt)[v].2
                        && v > from as int;
                assert(exists|i: int| 0 <= i < rows@.len() && (#[trigger] rows@[i].2) as int == vx);
                assert(rows@.len() > 0);
                let vm = rows@[rows@.len() - 1].2 as int;
                assert(watermark_advanced(conn0, *conn, cfg, rows@[rows@.len() - 1].2));
                assert(config_value(*conn, cfg, 1) == Some(vm)) by {
                    if synced is Some {
                        assert(config_value(conn0, cfg, 1) == Some(from as int));
                        assert(vm > from as int);
                    }
                }
                assert(data_rows(conn0, dt).dom().contains(vm) && data_rows(conn0, dt)[vm].2 && vm
                    > from as int);
            }
        }
        Ok(())
    }

    /// Creates the table's substrate tables and those of every attached
    /// index, runs catch-up for each index, and drops previously tracked
    /// sub-tables that are no longer owned. Afterwards every index's
    /// watermark covers every latest row, the conf table tracks the
    /// comma-joined active sub-table names, every stale tracked sub-table
    /// reads as empty, and nothing else changed beyond what catch-up owns.
    /// When the conf row already names the active set (comma-free names)
    /// and every watermark already covers every latest row, the call
    /// changes nothing.
    pub fn create_table(&self, conn: &mut rusqlite::Connection) -> (r: Result<(), Error>)
        requires
            self.wf(),
        ensures
            r is Ok ==> create_effect(*self, *old(conn), *final(conn)),
            r is Ok ==> (catch_up_noop_ready(*self, *old(conn)) ==> db_unchanged(
                *old(conn),
                *final(conn),
            )),
    {
        let ghost dt = self.spec_data_table();
        let ghost cf = self.spec_conf_table();
        let ghost n = self.spec_indexes().len();
        let ghost hyp = catch_up_noop_ready(*self, *old(conn));
        let data_name = self.data_table();
        let conf_name = self.conf_table();
        crate::store::create_data_tables(conn, data_name.as_str(), conf_name.as_str())?;

        let idxs = self.indexes_ref();
        let mut tables_active: Vec<String> = Vec::new();
        tables_active.push(data_name.clone());
        tables_active.push(conf_name.clone());
        let mut i: usize = 0;
        while i < idxs.len()
            invariant
                self.wf(),
                dt == self.spec_data_table(),
                cf == self.spec_conf_table(),
                n == self.spec_indexes().len(),
                hyp == catch_up_noop_ready(*self, *old(conn)),
                idxs@ == self.spec_indexes(),
                0 <= i <= n,
                latest_unique(data_rows(*conn, dt)),
                versions_positive(data_rows(*conn, dt)),
                db_unchanged(*old(conn), *conn),
                tables_active@.len() == 2 + 2 * i,
                tables_active@[0]@ == self.spec_data_table(),
                tables_active@[1]@ == self.spec_conf_table(),
                (forall|j: int|
                    0 <= j < i ==> tables_active@[2 + 2 * j]@ == (
                    #[trigger] self.spec_indexes()[j]).spec_data_table()
                        && tables_active@[3 + 2 * j]@
                        == self.spec_indexes()[j].spec_config_table()),
            decreases idxs@.len() - i,
        {
            let names = idxs[i].create_table(conn)?;
            tables_active.push(names[0].clone());
            tables_active.push(names[1].clone());
            i += 1;
        }

        let ghost active = views_of_names(tables_active@);
        let mut i: usize = 0;
        while i < idxs.len()
            invariant
                self.wf(),
                dt == self.spec_data_table(),
                cf == self.spec_conf_table(),
                n == self.spec_indexes().len(),
                hyp == catch_up_noop_ready(*self, *old(conn)),
                idxs@ == self.spec_indexes(),
                0 <= i <= n,
                latest_unique(data_rows(*conn, dt)),
                versions_positive(data_rows(*conn, dt)),
                active == views_of_names(tables_active@),
                active_names_ok(*self, active),
                (forall|t2: Seq<char>| #[trigger] data_rows(*conn, t2) == data_rows(
                    *old(conn),
                    t2,
                )),
                (forall|t2: Seq<char>|
                    (forall|j: int|
                        0 <= j < n ==> t2 != (#[trigger] self.spec_indexes()[j]).spec_data_table())
                        ==> #[trigger] index_pairs(*conn, t2) == index_pairs(*old(conn), t2)),
                (forall|t2: Seq<char>, k: int|
                    (forall|j: int|
                        0 <= j < n ==> t2 != (
                        #[trigger] self.spec_indexes()[j]).spec_config_table())
                        ==> #[trigger] config_value(*conn, t2, k) == config_value(
                        *old(conn),
                        t2,
                        k,
                    )),
                (forall|t2: Seq<char>, k: int| #[trigger] conf_text(*conn, t2, k) == conf_text(
                    *old(conn),
                    t2,
                    k,
                )),
                hyp ==> db_unchanged(*old(conn), *conn),
                (forall|j: int|
                    0 <= j < i ==> watermark_covers(
                        *conn,
                        dt,
                        (#[trigger] self.spec_indexes()[j]).spec_config_table(),
                    )),
            decreases idxs@.len() - i,
        {
            let ghost pre = *conn;
            self.catch_up_index(conn, &idxs[i])?;
            proof {
                assert forall|j: int| 0 <= j < i + 1 implies watermark_covers(
                    *conn,
                    dt,
                    (#[trigger] self.spec_indexes()[j]).spec_config_table(),
                ) by {
                    let cfg_j = self.spec_indexes()[j].spec_config_table();
                    if j < i {
                        assert(cfg_j != self.spec_indexes()[i as int].spec_config_table());
                        assert(config_value(*conn, cfg_j, 1) == config_value(pre, cfg_j, 1));
                        assert(data_rows(*conn, dt) == data_rows(pre, dt));
                    }
                }
                if hyp {
                    let cfg_i = self.spec_indexes()[i as int].spec_config_table();
                    assert(config_value(pre, cfg_i, 1) == config_value(*old(conn), cfg_i, 1));
                    assert(watermark_covers(pre, dt, cfg_i)) by {
                        assert forall|v: int|
                            #[trigger] data_rows(pre, dt).dom().contains(v) && data_rows(
                                pre,
                                dt,
                            )[v].2 implies {
                            &&& config_value(pre, cfg_i, 1) matches Some(w)
                            &&& v <= config_value(pre, cfg_i, 1)->Some_0
                        } by {
                            assert(data_rows(pre, dt) == data_rows(*old(conn), dt));
                        }
                    }
                    assert(db_unchanged(pre, *conn));
                }
            }
            i += 1;
        }

        let ghost conn_caught = *conn;
        proof {
            assert(forall|t2: Seq<char>| #[trigger] data_rows(conn_caught, t2) == data_rows(
                *old(conn),
                t2,
            ));
            assert(forall|t2: Seq<char>, k: int| #[trigger] conf_text(conn_caught, t2, k)
                == conf_text(*old(conn), t2, k));
            assert(latest_unique(data_rows(conn_caught, dt)));
            assert(versions_positive(data_rows(conn_caught, dt)));
            assert(forall|j: int|
                0 <= j < n ==> watermark_covers(
                    conn_caught,
                    dt,
                    (#[trigger] self.spec_indexes()[j]).spec_config_table(),
                ));
        }
        let prev_tables = self.load_associated_tables(conn)?;
        let ghost listed = views_of_names(prev_tables@);
        let mut i: usize = 0;
        while i < prev_tables.len()
            invariant
                self.wf(),
                dt == self.spec_data_table(),
                cf == self.spec_conf_table(),
                n == self.spec_indexes().len(),
                hyp == catch_up_noop_ready(*self, *old(conn)),
                0 <= i <= prev_tables@.len(),
                listed == views_of_names(prev_tables@),
                active == views_of_names(tables_active@),
                active_names_ok(*self, active),
                (match conf_text(*old(conn), cf, 2) {
                    Some(t) => listed.len() >= 1 && join_text(listed) == t && comma_free(listed),
                    None => listed.len() == 0,
                }),
                (forall|t2: Seq<char>|
                    !(exists|j: int|
                        0 <= j < i && #[trigger] listed[j] == t2 && !active.contains(t2))
                        ==> #[trigger] table_same(conn_caught, *conn, t2)),
                (forall|j: int|
                    0 <= j < i && !active.contains(#[trigger] listed[j]) ==> table_empty(
                        *conn,
                        listed[j],
                    )),
                hyp ==> *conn == conn_caught,
            decreases prev_tables@.len() - i,
        {
            if contains_name(&tables_active, prev_tables[i].as_str()) {
                proof {
                    assert(active.contains(listed[i as int])) by {
                        let k = choose|k: int|
                            0 <= k < tables_active@.len() && (#[trigger] tables_active@[k])@
                                == prev_tables@[i as int]@;
                        assert(views_of_names(tables_active@)[k] == tables_active@[k]@);
                    }
                }
            } else {
                let ghost pre = *conn;
                let ghost dropped = listed[i as int];
                proof {
                    assert(!active.contains(dropped)) by {
                        if active.contains(dropped) {
                            let k = choose|k: int| 0 <= k < active.len() && active[k] == dropped;
                            assert(views_of_names(tables_active@)[k] == tables_active@[k]@);
                            assert(false);
                        }
                    }
                    if hyp {
                        let names = choose|names: Seq<Seq<char>>|
                            #[trigger] active_names_ok(*self, names) && comma_free(names)
                                && conf_text(*old(conn), cf, 2) == Some(join_text(names));
                        lemma_active_names_unique(*self, names, active);
                        assert(names.len() >= 2);
                        lemma_join_inj(listed, names);
                        assert(listed[i as int] == dropped);
                        assert(names.contains(dropped));
                        assert(false);
                    }
                }
                crate::store::drop_table(conn, prev_tables[i].as_str())?;
                proof {
                    assert forall|t2: Seq<char>|
                        !(exists|j: int|
                            0 <= j < i + 1 && #[trigger] listed[j] == t2 && !active.contains(
                                t2,
                            )) implies #[trigger] table_same(conn_caught, *conn, t2) by {
                        if t2 == dropped {
                            assert(listed[i as int] == t2 && !active.contains(t2));
                            assert(exists|j: int|
                                0 <= j < i + 1 && #[trigger] listed[j] == t2 && !active.contains(
                                    t2,
                                ));
                        }
                        assert(t2 != dropped);
                        assert(table_same(pre, *conn, t2));
                        assert(table_same(conn_caught, pre, t2)) by {
                            assert(!(exists|j: int|
                                0 <= j < i && #[trigger] listed[j] == t2 && !active.contains(t2)));
                        }
                    }
                    assert forall|j: int|
                        0 <= j < i + 1 && !active.contains(#[trigger] listed[j]) implies
                        table_empty(*conn, listed[j]) by {
                        if listed[j] == dropped {
                            assert(table_empty(*conn, dropped));
                        } else if j < i {
                            assert(table_empty(pre, listed[j]));
                            assert(table_same(pre, *conn, listed[j]));
                        }
                    }
                }
            }
            i += 1;
        }

        let ghost conn_gc = *conn;
        proof {
            assert forall|t2: Seq<char>| !stale(listed, active, t2) implies #[trigger] table_same(
                conn_caught,
                conn_gc,
                t2,
            ) by {
                assert(!(exists|j: int|
                    0 <= j < listed.len() && #[trigger] listed[j] == t2 && !active.contains(t2)));
            }
            assert forall|nm: Seq<char>| stale(listed, active, nm) implies #[trigger] table_empty(
                conn_gc,
                nm,
            ) by {
                let j = choose|j: int| 0 <= j < listed.len() && #[trigger] listed[j] == nm;
            }
        }
        self.save_associated_tables(conn, &tables_active)?;
        proof {
            assert(conf_text(*conn, cf, 2) == Some(join_text(active)));
            assert(all_data_unchanged(conn_gc, *conn));
            assert(crate::store::all_pairs_unchanged(conn_gc, *conn));
            assert(crate::store::all_config_unchanged(conn_gc, *conn));
            assert(crate::store::text_unchanged_except(conn_gc, *conn, cf));
            assert(comma_free(listed)) by {
                if listed.len() == 0 {
                }
            }
            assert(!stale(listed, active, dt)) by {
                assert(active[0] == dt);
                assert(active.contains(dt));
            }
            assert(!stale(listed, active, cf)) by {
                assert(active[1] == cf);
                assert(active.contains(cf));
            }
            assert(create_effect(*self, *old(conn), *conn)) by {
                assert(table_same(conn_caught, conn_gc, dt));
                assert(data_rows(*conn, dt) == data_rows(conn_gc, dt));
                assert(data_rows(*conn, dt) == data_rows(conn_caught, dt));
                assert(data_rows(*conn, dt) == data_rows(*old(conn), dt));
                assert(latest_unique(data_rows(*conn, dt)));
                assert(versions_positive(data_rows(*conn, dt)));
                assert forall|j: int| 0 <= j < n implies watermark_covers(
                    *conn,
                    dt,
                    (#[trigger] self.spec_indexes()[j]).spec_config_table(),
                ) by {
                    let cfg_j = self.spec_indexes()[j].spec_config_table();
                    assert(!stale(listed, active, cfg_j)) by {
                        assert(active[3 + 2 * j] == cfg_j);
                        assert(active.contains(cfg_j));
                    }
                    assert(table_same(conn_caught, conn_gc, cfg_j));
                    assert(config_value(*conn, cfg_j, 1) == config_value(conn_caught, cfg_j, 1));
                    assert(watermark_covers(conn_caught, dt, cfg_j));
                    assert forall|v: int|
                        #[trigger] data_rows(*conn, dt).dom().contains(v) && data_rows(
                            *conn,
                            dt,
                        )[v].2 implies {
                        &&& config_value(*conn, cfg_j, 1) matches Some(w)
                        &&& v <= config_value(*conn, cfg_j, 1)->Some_0
                    } by {
                        assert(data_rows(conn_caught, dt).dom().contains(v) && data_rows(
                            conn_caught,
                            dt,
                        )[v].2);
                    }
                }
                assert forall|t2: Seq<char>| !stale(listed, active, t2) implies #[trigger]
                data_rows(*conn, t2) == data_rows(*old(conn), t2) by {
                    assert(table_same(conn_caught, conn_gc, t2));
                }
                assert forall|t2: Seq<char>|
                    !stale(listed, active, t2) && (forall|j: int|
                        0 <= j < n ==> t2 != (#[trigger] self.spec_indexes()[j]).spec_data_table())
                        implies #[trigger] index_pairs(*conn, t2) == index_pairs(
                    *old(conn),
                    t2,
                ) by {
                    assert(table_same(conn_caught, conn_gc, t2));
                }
                assert forall|t2: Seq<char>, k: int|
                    !stale(listed, active, t2) && (forall|j: int|
                        0 <= j < n ==> t2 != (
                        #[trigger] self.spec_indexes()[j]).spec_config_table()) implies #[trigger]
                config_value(*conn, t2, k) == config_value(*old(conn), t2, k) by {
                    assert(table_same(conn_caught, conn_gc, t2));
                }
                assert forall|t2: Seq<char>, k: int|
                    !stale(listed, active, t2) && !(t2 == cf && k == 2) implies #[trigger]
                conf_text(*conn, t2, k) == conf_text(*old(conn), t2, k) by {
                    assert(table_same(conn_caught, conn_gc, t2));
                    assert(conf_text(conn_gc, t2, k) == conf_text(conn_caught, t2, k));
                    if t2 != cf {
                        assert(conf_text(*conn, t2, k) == conf_text(conn_gc, t2, k));
                    } else {
                        assert(k != 2);
                        assert(conf_text(*conn, t2, k) == conf_text(conn_gc, t2, k));
                    }
                }
                assert forall|nm: Seq<char>| stale(listed, active, nm) implies #[trigger]
                table_empty(*conn, nm) by {
                    assert(table_empty(conn_gc, nm));
                    assert(nm != cf);
                    assert(data_rows(*conn, nm) == data_rows(conn_gc, nm));
                    assert(index_pairs(*conn, nm) == index_pairs(conn_gc, nm));
                    assert(forall|k: int| #[trigger] config_value(*conn, nm, k) == config_value(
                        conn_gc,
                        nm,
                        k,
                    ));
                    assert(forall|k: int| #[trigger] conf_text(*conn, nm, k) == conf_text(
                        conn_gc,
                        nm,
                        k,
                    ));
                }
            }
            if hyp {
                let names = choose|names: Seq<Seq<char>>|
                    #[trigger] active_names_ok(*self, names) && comma_free(names) && conf_text(
                        *old(conn),
                        cf,
                        2,
                    ) == Some(join_text(names));
                lemma_active_names_unique(*self, names, active);
                assert(conn_gc == conn_caught);
                assert(db_unchanged(*old(conn), *conn)) by {
                    assert(db_unchanged(*old(conn), conn_gc));
                    assert forall|t2: Seq<char>, k: int| #[trigger] conf_text(*conn, t2, k)
                        == conf_text(*old(conn), t2, k) by {
                        if t2 == cf && k == 2 {
                            assert(conf_text(*old(conn), cf, 2) == Some(join_text(active)));
                        } else {
                            assert(conf_text(*conn, t2, k) == conf_text(conn_gc, t2, k));
                        }
                    }
                    assert(forall|t2: Seq<char>| #[trigger] data_rows(*conn, t2) == data_rows(
                        *old(conn),
                        t2,
                    ));
                    assert(forall|t2: Seq<char>| #[trigger] index_pairs(*conn, t2) == index_pairs(
                        *old(conn),
                        t2,
                    ));
                    assert(forall|t2: Seq<char>, k: int| #[trigger] config_value(*conn, t2, k)
                        == config_value(*old(conn), t2, k));
                }
            }
        }
        Ok(())
    }


    /// Persists the comma-joined list of currently owned sub-tables in the
    /// conf table.
    fn save_associated_tables(&self, conn: &mut rusqlite::Connection, tables: &Vec<String>) -> (r:
        Result<(), Error>)
        ensures
            r is Ok ==> {
                &&& crate::store::conf_text(*final(conn), self.spec_conf_table(), 2) == Some(
                    join_text(views_of_names(tables@)),
                )
                &&& (forall|k: int|
                    k != 2 ==> #[trigger] conf_text(*final(conn), self.spec_conf_table(), k)
                        == conf_text(*old(conn), self.spec_conf_table(), k))
                &&& crate::store::text_unchanged_except(
                    *old(conn),
                    *final(conn),
                    self.spec_conf_table(),
                )
                &&& all_data_unchanged(*old(conn), *final(conn))
                &&& crate::store::all_pairs_unchanged(*old(conn), *final(conn))
                &&& crate::store::all_config_unchanged(*old(conn), *final(conn))
            },
    {
        let joined = join_names(tables);
        let conf_name = self.conf_table();
        crate::store::save_conf_text(conn, conf_name.as_str(), 2, joined.as_str())
    }

    /// Loads the previously tracked sub-table list from the conf table: a
    /// comma-free name per comma-separated segment, reconstructing the
    /// stored text; an absent record yields no names.
    fn load_associated_tables(&self, conn: &rusqlite::Connection) -> (r: Result<Vec<String>, Error>)
        ensures
            r matches Ok(names) ==> match conf_text(*conn, self.spec_conf_table(), 2) {
                Some(t) => {
                    &&& names@.len() >= 1
                    &&& join_text(views_of_names(names@)) == t
                    &&& comma_free(views_of_names(names@))
                },
                None => names@.len() == 0,
            },
    {
        let conf_name = self.conf_table();
        let text = crate::store::load_conf_text(conn, conf_name.as_str(), 2)?;
        match text {
            None => Ok(Vec::new()),
            Some(s) => Ok(split_names(s.as_str())),
        }
    }
}

/// The models of a list of names.
pub open spec fn views_of_names(v: Seq<String>) -> Seq<Seq<char>> {
    v.map_values(|n: String| n@)
}

/// The active sub-table name list a table owns: its data and conf tables,
/// then each attached index's data and config tables, in order.
pub open spec fn active_names_ok<E: Extractor>(t: Table<E>, names: Seq<Seq<char>>) -> bool {
    &&& names.len() == 2 + 2 * t.spec_indexes().len()
    &&& names[0] == t.spec_data_table()
    &&& names[1] == t.spec_conf_table()
    &&& (forall|j: int|
        0 <= j < t.spec_indexes().len() ==> names[2 + 2 * j] == (
        #[trigger] t.spec_indexes()[j]).spec_data_table() && names[3 + 2 * j]
            == t.spec_indexes()[j].spec_config_table())
}

/// The comma-joined text of a name list.
pub open spec fn join_text(l: Seq<Seq<char>>) -> Seq<char>
    decreases l.len(),
{
    if l.len() == 0 {
        Seq::empty()
    } else if l.len() == 1 {
        l[0]
    } else {
        l[0] + seq![','] + join_text(l.skip(1))
    }
}

/// No name of the list contains a comma.
pub open spec fn comma_free(l: Seq<Seq<char>>) -> bool {
    forall|i: int, k: int| 0 <= i < l.len() && 0 <= k < l[i].len() ==> (#[trigger] l[i][k]) != ','
}

/// The named table reads as empty under every content function.
pub open spec fn table_empty(conn: rusqlite::Connection, nm: Seq<char>) -> bool {
    &&& data_rows(conn, nm) == Map::<int, (Seq<u8>, bool, bool, Seq<u8>)>::empty()
    &&& index_pairs(conn, nm) == Set::<(Seq<u8>, Seq<u8>)>::empty()
    &&& (forall|k: int| #[trigger] config_value(conn, nm, k) is None)
    &&& (forall|k: int| #[trigger] conf_text(conn, nm, k) is None)
}

/// Every content function reads the named table the same in both states.
pub open spec fn table_same(a: rusqlite::Connection, b: rusqlite::Connection, nm: Seq<char>) -> bool {
    &&& data_rows(b, nm) == data_rows(a, nm)
    &&& index_pairs(b, nm) == index_pairs(a, nm)
    &&& (forall|k: int| #[trigger] config_value(b, nm, k) == config_value(a, nm, k))
    &&& (forall|k: int| #[trigger] conf_text(b, nm, k) == conf_text(a, nm, k))
}

/// A name slated for collection: on the persisted list, not active now.
pub open spec fn stale(listed: Seq<Seq<char>>, names: Seq<Seq<char>>, nm: Seq<char>) -> bool {
    listed.contains(nm) && !names.contains(nm)
}

/// On comma-free non-empty name lists, the comma-joined text determines
/// the list.
pub proof fn lemma_join_inj(l1: Seq<Seq<char>>, l2: Seq<Seq<char>>)
    requires
        comma_free(l1),
        comma_free(l2),
        l1.len() >= 1,
        l2.len() >= 1,
        join_text(l1) == join_text(l2),
    ensures
        l1 == l2,
    decreases l1.len(),
{
    let j1 = join_text(l1);
    let j2 = join_text(l2);
    if l1.len() == 1 && l2.len() == 1 {
        assert(l1 =~= l2);
    } else if l1.len() == 1 {
        assert(j2 == l2[0] + seq![','] + join_text(l2.skip(1)));
        assert(j2[l2[0].len() as int] == ',');
        assert(j1 == l1[0]);
        assert(l1[0][l2[0].len() as int] != ',');
        assert(false);
    } else if l2.len() == 1 {
        assert(j1 == l1[0] + seq![','] + join_text(l1.skip(1)));
        assert(j1[l1[0].len() as int] == ',');
        assert(j2 == l2[0]);
        assert(l2[0][l1[0].len() as int] != ',');
        assert(false);
    } else {
        assert(j1 == l1[0] + seq![','] + join_text(l1.skip(1)));
        assert(j2 == l2[0] + seq![','] + join_text(l2.skip(1)));
        if l1[0].len() < l2[0].len() {
            assert(j1[l1[0].len() as int] == ',');
            assert(j2[l1[0].len() as int] == l2[0][l1[0].len() as int]);
            assert(l2[0][l1[0].len() as int] != ',');
            assert(false);
        }
        if l2[0].len() < l1[0].len() {
            assert(j2[l2[0].len() as int] == ',');
            assert(j1[l2[0].len() as int] == l1[0][l2[0].len() as int]);
            assert(l1[0][l2[0].len() as int] != ',');
            assert(false);
        }
        assert(l1[0].len() == l2[0].len());
        assert(l1[0] =~= l2[0]) by {
            assert(forall|k: int| 0 <= k < l1[0].len() ==> j1[k] == #[trigger] l1[0][k]);
            assert(forall|k: int| 0 <= k < l2[0].len() ==> j2[k] == #[trigger] l2[0][k]);
        }
        assert(join_text(l1.skip(1)) =~= j1.skip(l1[0].len() as int + 1));
        assert(join_text(l2.skip(1)) =~= j2.skip(l2[0].len() as int + 1));
        assert(comma_free(l1.skip(1))) by {
            assert(forall|i: int, k: int|
                0 <= i < l1.skip(1).len() && 0 <= k < l1.skip(1)[i].len()
                    ==> (#[trigger] l1.skip(1)[i][k]) != ',');
        }
        assert(comma_free(l2.skip(1))) by {
            assert(forall|i: int, k: int|
                0 <= i < l2.skip(1).len() && 0 <= k < l2.skip(1)[i].len()
                    ==> (#[trigger] l2.skip(1)[i][k]) != ',');
        }
        lemma_join_inj(l1.skip(1), l2.skip(1));
        assert(l1 =~= seq![l1[0]] + l1.skip(1));
        assert(l2 =~= seq![l2[0]] + l2.skip(1));
        assert(l1 == l2);
    }
}

/// Joining one more name appends a comma and the name, except to an empty
/// list.
proof fn lemma_join_push(l: Seq<Seq<char>>, x: Seq<char>)
    ensures
        join_text(l.push(x)) == (if l.len() == 0 {
            x
        } else {
            join_text(l) + seq![','] + x
        }),
    decreases l.len(),
{
    if l.len() == 0 {
        assert(join_text(l.push(x)) == l.push(x)[0]);
        assert(l.push(x)[0] == x);
    } else if l.len() == 1 {
        assert(l.push(x)[0] == l[0]);
        assert(l.push(x).skip(1) =~= seq![x]);
        assert(join_text(seq![x]) == x);
        assert(join_text(l) == l[0]);
        assert(join_text(l.push(x)) == l[0] + seq![','] + x);
    } else {
        assert(l.push(x)[0] == l[0]);
        assert(l.push(x).skip(1) =~= l.skip(1).push(x));
        lemma_join_push(l.skip(1), x);
        assert(join_text(l.push(x)) =~= join_text(l) + seq![','] + x);
    }
}

/// Whether the list holds the name.
fn contains_name(names: &Vec<String>, needle: &str) -> (r: bool)
    ensures
        r ==> exists|i: int| 0 <= i < names@.len() && (#[trigger] names@[i])@ == needle@,
        !r ==> forall|i: int| 0 <= i < names@.len() ==> (#[trigger] names@[i])@ != needle@,
{
    let mut i: usize = 0;
    while i < names.len()
        invariant
            0 <= i <= names@.len(),
            forall|j: int| 0 <= j < i ==> (#[trigger] names@[j])@ != needle@,
        decreases names@.len() - i,
    {
        if str_eq(names[i].as_str(), needle) {
            return true;
        }
        i += 1;
    }
    false
}

/// Joins names with a comma between each pair.
fn join_names(names: &Vec<String>) -> (r: String)
    ensures
        r@ == join_text(views_of_names(names@)),
{
    let mut out = String::new();
    let mut i: usize = 0;
    proof {
        assert(views_of_names(names@).take(0) =~= Seq::<Seq<char>>::empty());
    }
    while i < names.len()
        invariant
            0 <= i <= names@.len(),
            out@ == join_text(views_of_names(names@).take(i as int)),
        decreases names@.len() - i,
    {
        if i > 0 {
            out.append(",");
        }
        out.append(names[i].as_str());
        proof {
            reveal_strlit(",");
            assert(views_of_names(names@).take(i as int).push(views_of_names(names@)[i as int])
                =~= views_of_names(names@).take(i + 1));
            lemma_join_push(
                views_of_names(names@).take(i as int),
                views_of_names(names@)[i as int],
            );
        }
        i += 1;
    }
    proof {
        assert(views_of_names(names@).take(names@.len() as int) =~= views_of_names(names@));
    }
    out
}

/// Splits a comma-joined name list into its comma-free segments; the
/// segments joined back give the input text.
fn split_names(s: &str) -> (r: Vec<String>)
    ensures
        r@.len() >= 1,
        join_text(views_of_names(r@)) == s@,
        comma_free(views_of_names(r@)),
{
    let n = s.unicode_len();
    let mut out: Vec<String> = Vec::new();
    let mut start: usize = 0;
    let mut i: usize = 0;
    while i < n
        invariant
            0 <= start <= i <= n,
            n == s@.len(),
            (out@.len() == 0 ==> start == 0),
            (out@.len() > 0 ==> start >= 1 && join_text(views_of_names(out@)) + seq![',']
                =~= s@.take(start as int)),
            (forall|k: int| start <= k < i ==> s@[k] != ','),
            comma_free(views_of_names(out@)),
        decreases n - i,
    {
        if s.get_char(i) == ',' {
            let ghost out0 = views_of_names(out@);
            let segment = String::from_str(s.substring_char(start, i));
            out.push(segment);
            proof {
                assert(views_of_names(out@) =~= out0.push(s@.subrange(start as int, i as int)));
                lemma_join_push(out0, s@.subrange(start as int, i as int));
                if out0.len() == 0 {
                    assert(join_text(views_of_names(out@)) + seq![','] =~= s@.take(i + 1));
                } else {
                    assert(join_text(views_of_names(out@)) + seq![','] =~= s@.take(i + 1));
                }
            }
            start = i + 1;
        }
        i += 1;
    }
    let ghost out0 = views_of_names(out@);
    let last = String::from_str(s.substring_char(start, n));
    out.push(last);
    proof {
        assert(views_of_names(out@) =~= out0.push(s@.subrange(start as int, n as int)));
        lemma_join_push(out0, s@.subrange(start as int, n as int));
        if out0.len() == 0 {
            assert(join_text(views_of_names(out@)) =~= s@);
        } else {
            assert(join_text(views_of_names(out@)) =~= s@);
        }
    }
    out
}

} // verus!
