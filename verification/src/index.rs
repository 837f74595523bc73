//! Secondary index engine: per-index storage of `(ik, pk)` pairs driven by
//! a pure extractor, diff-based maintenance, range scans and a persisted
//! watermark.

use crate::key_order::lex_cmp;
use crate::store::{
    all_config_unchanged, all_data_unchanged, all_pairs_unchanged, all_text_unchanged,
    config_unchanged_except, config_value, db_unchanged, index_pairs, pairs_unchanged_except,
};
use crate::table::{Error, TableUpdate};
use core::cmp::Ordering;
use vstd::prelude::*;
use vstd::string::StringExecFns;

verus! {

/// A pure function from a row to the set of index keys it contributes.
/// `deterministic` marks an extractor whose result is a function of the
/// row alone, given by `spec_extract`; index consistency is stated for
/// such extractors. An extractor that cannot promise this reports
/// `deterministic() == false` and its extraction is taken as it comes.
pub trait Extractor: Sized {
    /// Whether the extraction is a pure function of `(pk, value)`. An
    /// extractor that does not override this makes no promise.
    open spec fn deterministic(&self) -> bool {
        false
    }

    /// The set of index keys extracted from a row, or failure.
    open spec fn spec_extract(&self, pk: Seq<u8>, value: Seq<u8>) -> Result<Set<Seq<u8>>, ()> {
        Err(())
    }

    /// Extracts the index keys for a row.
    fn extract(&self, pk: &[u8], value: &[u8]) -> (r: Result<Vec<Vec<u8>>, Error>)
        ensures
            self.deterministic() ==> match r {
                Ok(ks) => self.spec_extract(pk@, value@) == Ok::<Set<Seq<u8>>, ()>(ik_set(ks@)),
                Err(_) => self.spec_extract(pk@, value@) is Err,
            },
    ;
}

/// The set of byte strings a list of index keys holds.
pub open spec fn ik_set(ks: Seq<Vec<u8>>) -> Set<Seq<u8>> {
    Set::new(|ik: Seq<u8>| exists|i: int| 0 <= i < ks.len() && (#[trigger] ks[i])@ == ik)
}

/// Extending a prefix of an index-key list by one key extends its key
/// set by that key.
pub proof fn lemma_ik_set_take_step(iks: Seq<Vec<u8>>, i: int)
    requires
        0 <= i < iks.len(),
    ensures
        ik_set(iks.take(i + 1)) == ik_set(iks.take(i)).insert(iks[i]@),
{
    assert forall|ik: Seq<u8>| ik_set(iks.take(i + 1)).contains(ik) implies ik_set(
        iks.take(i),
    ).insert(iks[i]@).contains(ik) by {
        let k = choose|k: int| 0 <= k < iks.take(i + 1).len() && (#[trigger] iks.take(i + 1)[k])@
            == ik;
        if k < i {
            assert(iks.take(i)[k] == iks[k]);
            assert((iks.take(i)[k])@ == ik);
        } else {
            assert((iks[i])@ == ik);
        }
    }
    assert forall|ik: Seq<u8>| ik_set(iks.take(i)).insert(iks[i]@).contains(ik) implies ik_set(
        iks.take(i + 1),
    ).contains(ik) by {
        if ik_set(iks.take(i)).contains(ik) {
            let k = choose|k: int| 0 <= k < iks.take(i).len() && (#[trigger] iks.take(i)[k])@
                == ik;
            assert(iks.take(i + 1)[k] == iks[k]);
            assert((iks.take(i + 1)[k])@ == ik);
        } else {
            assert(iks.take(i + 1)[i] == iks[i]);
            assert((iks.take(i + 1)[i])@ == ik);
        }
    }
    assert(ik_set(iks.take(i + 1)) =~= ik_set(iks.take(i)).insert(iks[i]@));
}

/// Construction options of an index.
pub struct IndexOption {
    pub without_rowid: bool,
}

/// A secondary index attached to a table: its name, the names of its two
/// substrate tables, and its extractor.
pub struct Index<E: Extractor> {
    pub name: String,
    data_table_name: String,
    config_table_name: String,
    option: IndexOption,
    extractor: E,
}

/// The index data table's pairs, with the keys this index holds for `pk`
/// replaced by the set `s`.
pub open spec fn with_pk_keys(
    pairs: Set<(Seq<u8>, Seq<u8>)>,
    pk: Seq<u8>,
    s: Set<Seq<u8>>,
) -> Set<(Seq<u8>, Seq<u8>)> {
    Set::new(
        |p: (Seq<u8>, Seq<u8>)|
            if p.1 == pk {
                s.contains(p.0)
            } else {
                pairs.contains(p)
            },
    )
}

impl<E: Extractor> Index<E> {
    /// The index's name.
    pub closed spec fn spec_name(&self) -> Seq<char> {
        self.name@
    }

    /// The name of the index data table.
    pub closed spec fn spec_data_table(&self) -> Seq<char> {
        self.data_table_name@
    }

    /// The name of the index config table.
    pub closed spec fn spec_config_table(&self) -> Seq<char> {
        self.config_table_name@
    }

    /// The extractor.
    pub closed spec fn spec_extractor(&self) -> E {
        self.extractor
    }

    /// The index's name, as a string.
    pub fn name_str(&self) -> (r: &str)
        ensures
            r@ == self.spec_name(),
    {
        self.name.as_str()
    }

    /// A new index named `index_name` on the table named `table_name`; its
    /// substrate tables are named after both.
    pub fn new(index_name: &str, table_name: &str, option: IndexOption, extractor: E) -> (r: Self)
        ensures
            r.spec_name() == index_name@,
            r.spec_data_table() == table_name@ + "_idx_"@ + index_name@ + "_data"@,
            r.spec_config_table() == table_name@ + "_idx_"@ + index_name@ + "_config"@,
            r.spec_extractor() == extractor,
    {
        let mut data_table_name = String::from_str(table_name);
        data_table_name.append("_idx_");
        data_table_name.append(index_name);
        data_table_name.append("_data");

        let mut config_table_name = String::from_str(table_name);
        config_table_name.append("_idx_");
        config_table_name.append(index_name);
        config_table_name.append("_config");

        Self { name: String::from_str(index_name), data_table_name, config_table_name, option, extractor }
    }

    /// Creates the index's substrate tables if they are missing, and
    /// returns their names so the owning table can track them.
    pub fn create_table(&self, conn: &mut rusqlite::Connection) -> (r: Result<Vec<String>, Error>)
        ensures
            r matches Ok(names) ==> {
                &&& db_unchanged(*old(conn), *final(conn))
                &&& names@.len() == 2
                &&& names@[0]@ == self.spec_data_table()
                &&& names@[1]@ == self.spec_config_table()
            },
    {
        match crate::store::create_index_tables(
            conn,
            self.data_table_name.as_str(),
            self.config_table_name.as_str(),
        ) {
            Ok(()) => {
                let mut names: Vec<String> = Vec::new();
                names.push(self.data_table_name.clone());
                names.push(self.config_table_name.clone());
                Ok(names)
            },
            Err(e) => Err(e),
        }
    }

    /// The index's persisted watermark: the largest version whose effects
    /// are fully reflected in the index, if one was ever recorded.
    pub fn get_data_version(&self, conn: &rusqlite::Connection) -> (r: Result<Option<i64>, Error>)
        ensures
            r matches Err(e) ==> e is SqliteError,
            r matches Ok(res) ==> match res {
                Some(v) => config_value(*conn, self.spec_config_table(), 1) == Some(v as int),
                None => config_value(*conn, self.spec_config_table(), 1) is None,
            },
    {
        crate::store::get_config_value(conn, self.config_table_name.as_str(), 1)
    }

    /// Persists the watermark as the larger of the stored one and
    /// `version`, so that it never decreases.
    pub(crate) fn inner_save_version(&self, conn: &mut rusqlite::Connection, version: i64) -> (r: Result<
        (),
        Error,
    >)
        ensures
            r is Ok ==> {
                &&& ({
                    let prev = config_value(*old(conn), self.spec_config_table(), 1);
                    let stored = config_value(*final(conn), self.spec_config_table(), 1);
                    &&& stored matches Some(w)
                    &&& w >= version as int
                    &&& (prev matches Some(p) ==> w >= p && (w == p || w == version as int))
                    &&& (prev is None ==> w == version as int)
                })
                &&& (forall|k: int|
                    k != 1 ==> #[trigger] config_value(*final(conn), self.spec_config_table(), k)
                        == config_value(*old(conn), self.spec_config_table(), k))
                &&& config_unchanged_except(*old(conn), *final(conn), self.spec_config_table())
                &&& all_data_unchanged(*old(conn), *final(conn))
                &&& all_pairs_unchanged(*old(conn), *final(conn))
                &&& all_text_unchanged(*old(conn), *final(conn))
            },
    {
        let prev = crate::store::get_config_value(conn, self.config_table_name.as_str(), 1)?;
        let target = match prev {
            Some(p) => if p >= version {
                p
            } else {
                version
            },
            None => version,
        };
        crate::store::save_config_value(conn, self.config_table_name.as_str(), 1, target)
    }

    /// The index keys currently stored for `pk`, without duplicates.
    fn inner_get_prev_keys(&self, conn: &rusqlite::Connection, pk: &[u8]) -> (r: Result<
        Vec<Vec<u8>>,
        Error,
    >)
        ensures
            r matches Ok(rs) ==> {
                &&& ik_set(rs@) == Set::new(
                    |ik: Seq<u8>| index_pairs(*conn, self.spec_data_table()).contains((ik, pk@)),
                )
                &&& (forall|i: int, j: int| 0 <= i < j < rs.len() ==> rs[i]@ != rs[j]@)
            },
    {
        let r = crate::store::query_iks_for_pk(conn, self.data_table_name.as_str(), pk);
        match r {
            Ok(rs) => {
                proof {
                    assert(ik_set(rs@) =~= Set::new(
                        |ik: Seq<u8>|
                            index_pairs(*conn, self.spec_data_table()).contains((ik, pk@)),
                    ));
                }
                Ok(rs)
            },
            Err(e) => Err(e),
        }
    }

    /// Inserts `(ik, pk)` pairs for each listed index key.
    fn inner_insert_iks(
        &self,
        conn: &mut rusqlite::Connection,
        iks: &Vec<Vec<u8>>,
        pk: &[u8],
    ) -> (r: Result<(), Error>)
        ensures
            r is Ok ==> {
                &&& index_pairs(*final(conn), self.spec_data_table()) == index_pairs(
                    *old(conn),
                    self.spec_data_table(),
                ).union(Set::new(|p: (Seq<u8>, Seq<u8>)| p.1 == pk@ && ik_set(iks@).contains(p.0)))
                &&& pairs_unchanged_except(*old(conn), *final(conn), self.spec_data_table())
                &&& all_data_unchanged(*old(conn), *final(conn))
                &&& all_config_unchanged(*old(conn), *final(conn))
                &&& all_text_unchanged(*old(conn), *final(conn))
            },
    {
        let ghost pairs0 = index_pairs(*old(conn), self.spec_data_table());
        let mut i: usize = 0;
        while i < iks.len()
            invariant
                0 <= i <= iks@.len(),
                pairs0 == index_pairs(*old(conn), self.spec_data_table()),
                index_pairs(*conn, self.spec_data_table()) == pairs0.union(
                    Set::new(
                        |p: (Seq<u8>, Seq<u8>)| p.1 == pk@ && ik_set(iks@.take(i as int)).contains(
                            p.0,
                        ),
                    ),
                ),
                pairs_unchanged_except(*old(conn), *conn, self.spec_data_table()),
                all_data_unchanged(*old(conn), *conn),
                all_config_unchanged(*old(conn), *conn),
                all_text_unchanged(*old(conn), *conn),
            decreases iks@.len() - i,
        {
            crate::store::insert_ik(conn, self.data_table_name.as_str(), iks[i].as_slice(), pk)?;
            proof {
                lemma_ik_set_take_step(iks@, i as int);
                assert(index_pairs(*conn, self.spec_data_table()) =~= pairs0.union(
                    Set::new(
                        |p: (Seq<u8>, Seq<u8>)| p.1 == pk@ && ik_set(iks@.take(i + 1)).contains(
                            p.0,
                        ),
                    ),
                ));
            }
            i += 1;
        }
        proof {
            assert(iks@.take(iks@.len() as int) =~= iks@);
        }
        Ok(())
    }

    /// Deletes the `(ik, pk)` pair for each listed index key.
    fn inner_delete_iks(
        &self,
        conn: &mut rusqlite::Connection,
        iks: &Vec<Vec<u8>>,
        pk: &[u8],
    ) -> (r: Result<(), Error>)
        ensures
            r is Ok ==> {
                &&& index_pairs(*final(conn), self.spec_data_table()) == index_pairs(
                    *old(conn),
                    self.spec_data_table(),
                ).difference(
                    Set::new(|p: (Seq<u8>, Seq<u8>)| p.1 == pk@ && ik_set(iks@).contains(p.0)),
                )
                &&& pairs_unchanged_except(*old(conn), *final(conn), self.spec_data_table())
                &&& all_data_unchanged(*old(conn), *final(conn))
                &&& all_config_unchanged(*old(conn), *final(conn))
                &&& all_text_unchanged(*old(conn), *final(conn))
            },
    {
        let ghost pairs0 = index_pairs(*old(conn), self.spec_data_table());
        let mut i: usize = 0;
        while i < iks.len()
            invariant
                0 <= i <= iks@.len(),
                pairs0 == index_pairs(*old(conn), self.spec_data_table()),
                index_pairs(*conn, self.spec_data_table()) == pairs0.difference(
                    Set::new(
                        |p: (Seq<u8>, Seq<u8>)| p.1 == pk@ && ik_set(iks@.take(i as int)).contains(
                            p.0,
                        ),
                    ),
                ),
                pairs_unchanged_except(*old(conn), *conn, self.spec_data_table()),
                all_data_unchanged(*old(conn), *conn),
                all_config_unchanged(*old(conn), *conn),
                all_text_unchanged(*old(conn), *conn),
            decreases iks@.len() - i,
        {
            crate::store::delete_ik_pk(
                conn,
                self.data_table_name.as_str(),
                iks[i].as_slice(),
                pk,
            )?;
            proof {
                lemma_ik_set_take_step(iks@, i as int);
                assert(index_pairs(*conn, self.spec_data_table()) =~= pairs0.difference(
                    Set::new(
                        |p: (Seq<u8>, Seq<u8>)| p.1 == pk@ && ik_set(iks@.take(i + 1)).contains(
                            p.0,
                        ),
                    ),
                ));
            }
            i += 1;
        }
        proof {
            assert(iks@.take(iks@.len() as int) =~= iks@);
        }
        Ok(())
    }

    /// Deletes every pair stored for `pk` and records the version in the
    /// watermark.
    pub(crate) fn delete_by_pk(&self, conn: &mut rusqlite::Connection, pk: &[u8]) -> (r: Result<
        (),
        Error,
    >)
        ensures
            r is Ok ==> {
                &&& index_pairs(*final(conn), self.spec_data_table()) == with_pk_keys(
                    index_pairs(*old(conn), self.spec_data_table()),
                    pk@,
                    Set::empty(),
                )
                &&& pairs_unchanged_except(*old(conn), *final(conn), self.spec_data_table())
                &&& all_data_unchanged(*old(conn), *final(conn))
                &&& all_config_unchanged(*old(conn), *final(conn))
                &&& all_text_unchanged(*old(conn), *final(conn))
            },
    {
        let r = crate::store::delete_pairs_by_pk(conn, self.data_table_name.as_str(), pk);
        match r {
            Ok(()) => {
                proof {
                    assert(index_pairs(*conn, self.spec_data_table()) =~= with_pk_keys(
                        index_pairs(*old(conn), self.spec_data_table()),
                        pk@,
                        Set::empty(),
                    ));
                }
                Ok(())
            },
            Err(e) => Err(e),
        }
    }
}

/// Byte-vector equality.
fn bytes_eq(a: &Vec<u8>, b: &Vec<u8>) -> (r: bool)
    ensures
        r == (a@ == b@),
{
    if a.len() != b.len() {
        return false;
    }
    let mut i: usize = 0;
    while i < a.len()
        invariant
            i <= a@.len(),
            a@.len() == b@.len(),
            forall|j: int| 0 <= j < i ==> a@[j] == b@[j],
        decreases a@.len() - i,
    {
        if a[i] != b[i] {
            return false;
        }
        i += 1;
    }
    proof {
        assert(a@ =~= b@);
    }
    true
}

/// Whether the list holds the byte string.
fn contains_bytes(hay: &Vec<Vec<u8>>, needle: &Vec<u8>) -> (r: bool)
    ensures
        r == ik_set(hay@).contains(needle@),
{
    let mut i: usize = 0;
    while i < hay.len()
        invariant
            i <= hay@.len(),
            forall|j: int| 0 <= j < i ==> (#[trigger] hay@[j])@ != needle@,
        decreases hay@.len() - i,
    {
        if bytes_eq(&hay[i], needle) {
            proof {
                assert((hay@[i as int])@ == needle@);
            }
            return true;
        }
        i += 1;
    }
    proof {
        if ik_set(hay@).contains(needle@) {
            let k = choose|k: int| 0 <= k < hay@.len() && (#[trigger] hay@[k])@ == needle@;
            assert((hay@[k])@ != needle@);
        }
    }
    false
}

/// The keys of `a` that are not in `b`, without duplicates.
fn diff_keys(a: &Vec<Vec<u8>>, b: &Vec<Vec<u8>>) -> (r: Vec<Vec<u8>>)
    ensures
        ik_set(r@) == ik_set(a@).difference(ik_set(b@)),
        forall|i: int, j: int| 0 <= i < j < r.len() ==> r[i]@ != r[j]@,
{
    let mut out: Vec<Vec<u8>> = Vec::new();
    let mut i: usize = 0;
    proof {
        assert(ik_set(out@) =~= ik_set(a@.take(0)).difference(ik_set(b@)));
        assert(ik_set(a@.take(0)) =~= Set::<Seq<u8>>::empty());
    }
    while i < a.len()
        invariant
            i <= a@.len(),
            ik_set(out@) == ik_set(a@.take(i as int)).difference(ik_set(b@)),
            forall|i2: int, j2: int| 0 <= i2 < j2 < out.len() ==> out[i2]@ != out[j2]@,
        decreases a@.len() - i,
    {
        let in_b = contains_bytes(b, &a[i]);
        let in_out = contains_bytes(&out, &a[i]);
        proof {
            lemma_ik_set_take_step(a@, i as int);
        }
        if !in_b && !in_out {
            let ghost out0 = out@;
            let copy = a[i].clone();
            proof {
                assert(copy@ == a@[i as int]@);
            }
            out.push(copy);
            proof {
                assert((out@[out0.len() as int])@ == a@[i as int]@);
                assert(out@.take(out0.len() as int) =~= out0);
                assert(out@.take(out0.len() as int + 1) =~= out@);
                lemma_ik_set_take_step(out@, out0.len() as int);
                assert(ik_set(out@) =~= ik_set(a@.take(i + 1)).difference(ik_set(b@)));
                assert(forall|i2: int|
                    0 <= i2 < out0.len() ==> (#[trigger] out@[i2])@ != out@[out0.len() as int]@);
            }
        } else {
            proof {
                assert(ik_set(out@) =~= ik_set(a@.take(i + 1)).difference(ik_set(b@)));
            }
        }
        i += 1;
    }
    proof {
        assert(a@.take(a@.len() as int) =~= a@);
    }
    out
}

impl<E: Extractor> Index<E> {
    /// Applies an upsert of `(pk, value)` at `version`: re-runs the
    /// extractor, diffs against the stored keys for `pk`, deletes the
    /// stale pairs and inserts the new ones, and advances the watermark.
    /// Afterwards the keys stored for `pk` are exactly the extracted set.
    pub fn update(
        &self,
        conn: &mut rusqlite::Connection,
        pk: &[u8],
        value: &[u8],
        version: i64,
    ) -> (r: Result<(), Error>)
        ensures
            r is Ok ==> {
                &&& (exists|s: Set<Seq<u8>>|
                    index_pairs(*final(conn), self.spec_data_table()) == with_pk_keys(
                        index_pairs(*old(conn), self.spec_data_table()),
                        pk@,
                        s,
                    ))
                &&& (self.spec_extractor().deterministic() ==> {
                    &&& self.spec_extractor().spec_extract(pk@, value@) is Ok
                    &&& index_pairs(*final(conn), self.spec_data_table()) == with_pk_keys(
                        index_pairs(*old(conn), self.spec_data_table()),
                        pk@,
                        self.spec_extractor().spec_extract(pk@, value@)->Ok_0,
                    )
                })
                &&& watermark_advanced(*old(conn), *final(conn), self.spec_config_table(), version)
                &&& config_unchanged_except(*old(conn), *final(conn), self.spec_config_table())
                &&& pairs_unchanged_except(*old(conn), *final(conn), self.spec_data_table())
                &&& all_data_unchanged(*old(conn), *final(conn))
                &&& all_text_unchanged(*old(conn), *final(conn))
            },
    {
        let prev_index_keys = self.inner_get_prev_keys(conn, pk)?;
        let new_index_keys = self.extractor.extract(pk, value)?;

        let keys_to_insert = diff_keys(&new_index_keys, &prev_index_keys);
        let keys_to_delete = diff_keys(&prev_index_keys, &new_index_keys);

        let ghost pairs0 = index_pairs(*conn, self.spec_data_table());
        let ghost prev_set = ik_set(prev_index_keys@);
        let ghost new_set = ik_set(new_index_keys@);

        self.inner_delete_iks(conn, &keys_to_delete, pk)?;
        self.inner_insert_iks(conn, &keys_to_insert, pk)?;
        proof {
            assert(index_pairs(*conn, self.spec_data_table()) =~= with_pk_keys(
                pairs0,
                pk@,
                new_set,
            )) by {
                assert(forall|ik: Seq<u8>|
                    #[trigger] prev_set.contains(ik) <==> pairs0.contains((ik, pk@)));
            }
        }
        self.inner_save_version(conn, version)?;
        Ok(())
    }

    /// Applies a batch of table changes to this index: each upsert is
    /// re-extracted and diffed, each delete removes every pair of its
    /// primary key; the watermark advances to the largest version seen.
    pub fn table_update(
        &self,
        conn: &mut rusqlite::Connection,
        updates: &[TableUpdate<'_>],
    ) -> (r: Result<(), Error>)
        ensures
            r is Ok ==> {
                &&& all_data_unchanged(*old(conn), *final(conn))
                &&& all_text_unchanged(*old(conn), *final(conn))
                &&& pairs_unchanged_except(*old(conn), *final(conn), self.spec_data_table())
                &&& config_unchanged_except(*old(conn), *final(conn), self.spec_config_table())
            },
            (updates@.len() == 1 && r is Ok) ==> post_single(
                *old(conn),
                *final(conn),
                *self,
                updates@[0],
            ),
    {
        let mut u: usize = 0;
        while u < updates.len()
            invariant
                u <= updates@.len(),
                all_data_unchanged(*old(conn), *conn),
                all_text_unchanged(*old(conn), *conn),
                pairs_unchanged_except(*old(conn), *conn, self.spec_data_table()),
                config_unchanged_except(*old(conn), *conn, self.spec_config_table()),
                updates@.len() == 1 && u == 1 ==> post_single(
                    *old(conn),
                    *conn,
                    *self,
                    updates@[0],
                ),
                updates@.len() == 1 && u == 0 ==> *conn == *old(conn),
            decreases updates@.len() - u,
        {
            match &updates[u] {
                TableUpdate::Upsert(items) => {
                    let mut k: usize = 0;
                    let ghost conn_at_entry = *conn;
                    while k < items.len()
                        invariant
                            k <= items@.len(),
                            all_data_unchanged(*old(conn), *conn),
                            all_text_unchanged(*old(conn), *conn),
                            pairs_unchanged_except(*old(conn), *conn, self.spec_data_table()),
                            config_unchanged_except(*old(conn), *conn, self.spec_config_table()),
                            items@.len() == 1 && k == 1 ==> post_upsert(
                                conn_at_entry,
                                *conn,
                                *self,
                                items@[0].0@,
                                items@[0].1@,
                                items@[0].2,
                            ),
                            k == 0 ==> *conn == conn_at_entry,
                        decreases items@.len() - k,
                    {
                        let (key, value, version) = items[k];
                        self.update(conn, key, value, version)?;
                        k += 1;
                    }
                },
                TableUpdate::Delete(keys) => {
                    let mut k: usize = 0;
                    let ghost conn_at_entry = *conn;
                    while k < keys.len()
                        invariant
                            k <= keys@.len(),
                            all_data_unchanged(*old(conn), *conn),
                            all_text_unchanged(*old(conn), *conn),
                            pairs_unchanged_except(*old(conn), *conn, self.spec_data_table()),
                            config_unchanged_except(*old(conn), *conn, self.spec_config_table()),
                            keys@.len() == 1 && k == 1 ==> post_delete(
                                conn_at_entry,
                                *conn,
                                *self,
                                keys@[0].0@,
                                keys@[0].1,
                            ),
                            k == 0 ==> *conn == conn_at_entry,
                        decreases keys@.len() - k,
                    {
                        let (key, version) = keys[k];
                        self.delete_by_pk(conn, key)?;
                        self.inner_save_version(conn, version)?;
                        k += 1;
                    }
                },
            }
            u += 1;
        }
        Ok(())
    }
}

/// A scan bound: an index key, a primary key, and whether the bound
/// itself is admitted.
pub struct ScanKey<'a> {
    pub ik: &'a [u8],
    pub pk: &'a [u8],
    pub inclusive: bool,
}

/// Scan direction.
pub enum ScanOrder {
    Asc,
    Desc,
}

/// A range scan request: optional bounds, a positive row count, and a
/// direction.
pub struct ScanOptions<'a> {
    pub lower_key: Option<ScanKey<'a>>,
    pub higher_key: Option<ScanKey<'a>>,
    pub count: u32,
    pub order: ScanOrder,
}

/// A scan's result: up to `count` pairs in order, and whether more
/// in-range pairs remained.
pub struct ScanResult {
    pub keys: Vec<(Vec<u8>, Vec<u8>)>,
    pub has_more: bool,
}

/// Lexicographic order on `(ik, pk)` pairs: by index key, then by primary
/// key.
pub open spec fn pair_cmp(a: (Seq<u8>, Seq<u8>), b: (Seq<u8>, Seq<u8>)) -> Ordering {
    if lex_cmp(a.0, b.0) == Ordering::Equal {
        lex_cmp(a.1, b.1)
    } else {
        lex_cmp(a.0, b.0)
    }
}

/// The model of a scan bound.
pub open spec fn bound_view(k: Option<ScanKey<'_>>) -> Option<(Seq<u8>, Seq<u8>, bool)> {
    match k {
        Some(sk) => Some((sk.ik@, sk.pk@, sk.inclusive)),
        None => None,
    }
}

/// Whether a pair lies at or above the lower bound.
pub open spec fn ge_lower(p: (Seq<u8>, Seq<u8>), lo: Option<(Seq<u8>, Seq<u8>, bool)>) -> bool {
    match lo {
        None => true,
        Some((ik, pk, inclusive)) => if inclusive {
            pair_cmp(p, (ik, pk)) != Ordering::Less
        } else {
            pair_cmp(p, (ik, pk)) == Ordering::Greater
        },
    }
}

/// Whether a pair lies at or below the upper bound.
pub open spec fn le_upper(p: (Seq<u8>, Seq<u8>), hi: Option<(Seq<u8>, Seq<u8>, bool)>) -> bool {
    match hi {
        None => true,
        Some((ik, pk, inclusive)) => if inclusive {
            pair_cmp(p, (ik, pk)) != Ordering::Greater
        } else {
            pair_cmp(p, (ik, pk)) == Ordering::Less
        },
    }
}

/// Whether a pair lies within the scan bounds.
pub open spec fn in_range(
    p: (Seq<u8>, Seq<u8>),
    lo: Option<(Seq<u8>, Seq<u8>, bool)>,
    hi: Option<(Seq<u8>, Seq<u8>, bool)>,
) -> bool {
    ge_lower(p, lo) && le_upper(p, hi)
}

/// The SQL comparison clause a lower bound contributes.
pub open spec fn lower_text(inclusive: bool) -> Seq<char> {
    if inclusive {
        "(ik, pk) >= (:lower_ik, :lower_pk)"@
    } else {
        "(ik, pk) > (:lower_ik, :lower_pk)"@
    }
}

/// The SQL comparison clause an upper bound contributes.
pub open spec fn upper_text(inclusive: bool) -> Seq<char> {
    if inclusive {
        "(ik, pk) <= (:higher_ik, :higher_pk)"@
    } else {
        "(ik, pk) < (:higher_ik, :higher_pk)"@
    }
}

/// The SQL text of the whole bound filter.
pub open spec fn where_text(
    lo: Option<(Seq<u8>, Seq<u8>, bool)>,
    hi: Option<(Seq<u8>, Seq<u8>, bool)>,
) -> Seq<char> {
    match (lo, hi) {
        (Some((_, _, li)), Some((_, _, hi2))) => lower_text(li) + " AND "@ + upper_text(hi2),
        (Some((_, _, li)), None) => lower_text(li),
        (None, Some((_, _, hi2))) => upper_text(hi2),
        (None, None) => ""@,
    }
}

/// The named parameters a bound filter binds, in clause order.
pub open spec fn where_params(
    lo: Option<(Seq<u8>, Seq<u8>, bool)>,
    hi: Option<(Seq<u8>, Seq<u8>, bool)>,
    ps: Seq<(&str, &[u8])>,
) -> bool {
    match (lo, hi) {
        (Some((lik, lpk, _)), Some((hik, hpk, _))) => {
            &&& ps.len() == 4
            &&& ps[0].0@ == ":lower_ik"@ && ps[0].1@ == lik
            &&& ps[1].0@ == ":lower_pk"@ && ps[1].1@ == lpk
            &&& ps[2].0@ == ":higher_ik"@ && ps[2].1@ == hik
            &&& ps[3].0@ == ":higher_pk"@ && ps[3].1@ == hpk
        },
        (Some((lik, lpk, _)), None) => {
            &&& ps.len() == 2
            &&& ps[0].0@ == ":lower_ik"@ && ps[0].1@ == lik
            &&& ps[1].0@ == ":lower_pk"@ && ps[1].1@ == lpk
        },
        (None, Some((hik, hpk, _))) => {
            &&& ps.len() == 2
            &&& ps[0].0@ == ":higher_ik"@ && ps[0].1@ == hik
            &&& ps[1].0@ == ":higher_pk"@ && ps[1].1@ == hpk
        },
        (None, None) => ps.len() == 0,
    }
}

impl<'a> ScanOptions<'a> {
    /// Renders the bound filter as SQL text and its named parameters, for
    /// example `(ik, pk) >= (:lower_ik, :lower_pk)`.
    pub fn where_clause(&self) -> (r: (String, Vec<(&'static str, &'a [u8])>))
        ensures
            r.0@ == where_text(bound_view(self.lower_key), bound_view(self.higher_key)),
            where_params(bound_view(self.lower_key), bound_view(self.higher_key), r.1@),
    {
        let mut clause = String::new();
        let mut params: Vec<(&'static str, &'a [u8])> = Vec::new();

        match &self.lower_key {
            None => {},
            Some(scan_key) => {
                if scan_key.inclusive {
                    clause.append("(ik, pk) >= (:lower_ik, :lower_pk)");
                } else {
                    clause.append("(ik, pk) > (:lower_ik, :lower_pk)");
                }
                params.push((":lower_ik", scan_key.ik));
                params.push((":lower_pk", scan_key.pk));
            },
        }
        match &self.higher_key {
            None => {},
            Some(scan_key) => {
                if self.lower_key.is_some() {
                    clause.append(" AND ");
                }
                if scan_key.inclusive {
                    clause.append("(ik, pk) <= (:higher_ik, :higher_pk)");
                } else {
                    clause.append("(ik, pk) < (:higher_ik, :higher_pk)");
                }
                params.push((":higher_ik", scan_key.ik));
                params.push((":higher_pk", scan_key.pk));
            },
        }
        proof {
            let lo = bound_view(self.lower_key);
            let hi = bound_view(self.higher_key);
            if lo is Some && hi is Some {
                assert(clause@ =~= lower_text(lo->Some_0.2) + " AND "@ + upper_text(
                    hi->Some_0.2,
                ));
            } else if lo is Some {
                assert(clause@ =~= lower_text(lo->Some_0.2));
            } else if hi is Some {
                assert(clause@ =~= upper_text(hi->Some_0.2));
            } else {
                reveal_strlit("");
                assert(clause@ =~= ""@);
            }
        }
        (clause, params)
    }

    /// The SQL ordering clause of this scan's direction.
    pub fn order_by(&self) -> (r: &'static str)
        ensures
            r@ == (match self.order {
                ScanOrder::Asc => "ORDER BY ik ASC, pk ASC"@,
                ScanOrder::Desc => "ORDER BY ik DESC, pk DESC"@,
            }),
    {
        match self.order {
            ScanOrder::Asc => "ORDER BY ik ASC, pk ASC",
            ScanOrder::Desc => "ORDER BY ik DESC, pk DESC",
        }
    }
}

impl<E: Extractor> Index<E> {
    /// Scans up to `count` `(ik, pk)` pairs within the bounds, in the
    /// requested direction, reporting whether more in-range pairs remained
    /// beyond the returned ones.
    pub fn scan(&self, conn: &rusqlite::Connection, options: ScanOptions<'_>) -> (r: Result<
        ScanResult,
        Error,
    >)
        requires
            options.count < u32::MAX,
        ensures
            r matches Err(e) ==> e is SqliteError,
            r matches Ok(sr) ==> {
                let pairs = index_pairs(*conn, self.spec_data_table());
                let lo = bound_view(options.lower_key);
                let hi = bound_view(options.higher_key);
                let asc = options.order is Asc;
                &&& sr.keys@.len() <= options.count
                &&& (forall|i: int|
                    0 <= i < sr.keys@.len() ==> {
                        let p = ((#[trigger] sr.keys@[i]).0@, sr.keys@[i].1@);
                        pairs.contains(p) && in_range(p, lo, hi)
                    })
                &&& (forall|i: int, j: int|
                    0 <= i < j < sr.keys@.len() ==> pair_cmp(
                        ((#[trigger] sr.keys@[i]).0@, sr.keys@[i].1@),
                        ((#[trigger] sr.keys@[j]).0@, sr.keys@[j].1@),
                    ) == (if asc {
                        Ordering::Less
                    } else {
                        Ordering::Greater
                    }))
                &&& (!sr.has_more ==> (forall|p: (Seq<u8>, Seq<u8>)|
                    pairs.contains(p) && in_range(p, lo, hi) ==> exists|i: int|
                        0 <= i < sr.keys@.len() && ((#[trigger] sr.keys@[i]).0@, sr.keys@[i].1@)
                            == p))
                &&& (sr.has_more ==> {
                    &&& sr.keys@.len() == options.count
                    &&& exists|pm: (Seq<u8>, Seq<u8>)|
                        {
                            &&& #[trigger] pairs.contains(pm)
                            &&& in_range(pm, lo, hi)
                            &&& (forall|i: int|
                                0 <= i < sr.keys@.len() ==> pair_cmp(
                                    ((#[trigger] sr.keys@[i]).0@, sr.keys@[i].1@),
                                    pm,
                                ) == (if asc {
                                    Ordering::Less
                                } else {
                                    Ordering::Greater
                                }))
                            &&& (forall|p: (Seq<u8>, Seq<u8>)|
                                pairs.contains(p) && in_range(p, lo, hi) && !(exists|i: int|
                                    0 <= i < sr.keys@.len() && ((#[trigger] sr.keys@[i]).0@,
                                    sr.keys@[i].1@) == p) ==> p == pm || pair_cmp(pm, p) == (
                                if asc {
                                    Ordering::Less
                                } else {
                                    Ordering::Greater
                                }))
                        }
                })
            },
    {
        let ghost pairs = index_pairs(*conn, self.spec_data_table());
        let ghost lo = bound_view(options.lower_key);
        let ghost hi = bound_view(options.higher_key);
        let (clause, params) = options.where_clause();
        let asc = matches!(options.order, ScanOrder::Asc);
        let query_count = options.count + 1;
        let rs = crate::store::scan_pairs(
            conn,
            self.data_table_name.as_str(),
            options.lower_key.as_ref(),
            options.higher_key.as_ref(),
            clause.as_str(),
            &params,
            asc,
            query_count,
        )?;
        let ghost full = rs@;
        let mut keys = rs;
        let has_more = keys.len() > options.count as usize;
        if has_more {
            let ghost before = keys@;
            keys.pop();
            proof {
                assert(keys@ =~= before.take(before.len() - 1));
                let pm = (full[full.len() - 1].0@, full[full.len() - 1].1@);
                assert(pairs.contains(pm) && in_range(pm, lo, hi));
                assert forall|p: (Seq<u8>, Seq<u8>)|
                    pairs.contains(p) && in_range(p, lo, hi) && !(exists|i: int|
                        0 <= i < keys@.len() && ((#[trigger] keys@[i]).0@, keys@[i].1@)
                            == p) implies p == pm || pair_cmp(pm, p) == (if asc {
                    Ordering::Less
                } else {
                    Ordering::Greater
                }) by {
                    if exists|i: int|
                        0 <= i < full.len() && ((#[trigger] full[i]).0@, full[i].1@) == p {
                        let i = choose|i: int|
                            0 <= i < full.len() && ((#[trigger] full[i]).0@, full[i].1@) == p;
                        if i < full.len() - 1 {
                            assert(((keys@[i]).0@, keys@[i].1@) == p);
                        } else {
                            assert(p == pm);
                        }
                    }
                }
            }
        } else {
            proof {
                assert forall|p: (Seq<u8>, Seq<u8>)|
                    pairs.contains(p) && in_range(p, lo, hi) implies exists|i: int|
                    0 <= i < keys@.len() && ((#[trigger] keys@[i]).0@, keys@[i].1@) == p by {
                    if !(exists|i: int|
                        0 <= i < keys@.len() && ((#[trigger] keys@[i]).0@, keys@[i].1@) == p) {
                        assert(keys@.len() == query_count);
                    }
                }
            }
        }
        Ok(ScanResult { keys, has_more })
    }
}

/// The watermark after a mutation carrying `version`: exactly the larger
/// of the previously stored watermark (zero if absent) and `version` — in
/// particular present, at least `version`, and never below its previous
/// value.
pub open spec fn watermark_advanced(
    a: rusqlite::Connection,
    b: rusqlite::Connection,
    config: Seq<char>,
    version: i64,
) -> bool {
    &&& config_value(b, config, 1) == Some(
        if config_value(a, config, 1) matches Some(p) && p >= version as int {
            config_value(a, config, 1)->Some_0
        } else {
            version as int
        },
    )
    &&& config_value(b, config, 1)->Some_0 >= version as int
    &&& (config_value(a, config, 1) matches Some(p) ==> config_value(b, config, 1)->Some_0 >= p)
}

/// The per-upsert postcondition of a batch application: the keys stored
/// for `pk` were replaced (by the extracted set, where the extractor is
/// deterministic) and the watermark advanced.
pub open spec fn post_upsert<E: Extractor>(
    a: rusqlite::Connection,
    b: rusqlite::Connection,
    idx: Index<E>,
    pk: Seq<u8>,
    value: Seq<u8>,
    version: i64,
) -> bool {
    &&& (exists|s: Set<Seq<u8>>|
        index_pairs(b, idx.spec_data_table()) == with_pk_keys(
            index_pairs(a, idx.spec_data_table()),
            pk,
            s,
        ))
    &&& (idx.spec_extractor().deterministic() ==> {
        &&& idx.spec_extractor().spec_extract(pk, value) is Ok
        &&& index_pairs(b, idx.spec_data_table()) == with_pk_keys(
            index_pairs(a, idx.spec_data_table()),
            pk,
            idx.spec_extractor().spec_extract(pk, value)->Ok_0,
        )
    })
    &&& watermark_advanced(a, b, idx.spec_config_table(), version)
}

/// The per-delete postcondition of a batch application: no keys remain
/// stored for `pk` and the watermark advanced.
pub open spec fn post_delete<E: Extractor>(
    a: rusqlite::Connection,
    b: rusqlite::Connection,
    idx: Index<E>,
    pk: Seq<u8>,
    version: i64,
) -> bool {
    &&& index_pairs(b, idx.spec_data_table()) == with_pk_keys(
        index_pairs(a, idx.spec_data_table()),
        pk,
        Set::empty(),
    )
    &&& watermark_advanced(a, b, idx.spec_config_table(), version)
}

/// The postcondition of a single-element batch.
pub open spec fn post_single<E: Extractor>(
    a: rusqlite::Connection,
    b: rusqlite::Connection,
    idx: Index<E>,
    update: TableUpdate<'_>,
) -> bool {
    match update {
        TableUpdate::Upsert(items) => items@.len() == 1 ==> post_upsert(
            a,
            b,
            idx,
            items@[0].0@,
            items@[0].1@,
            items@[0].2,
        ),
        TableUpdate::Delete(keys) => keys@.len() == 1 ==> post_delete(
            a,
            b,
            idx,
            keys@[0].0@,
            keys@[0].1,
        ),
    }
}

} // verus!
