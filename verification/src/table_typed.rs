//! Typed table facade: binds the value codec and the key codec to the
//! byte-level table, so callers deal in records and typed primary keys
//! rather than byte strings.

use crate::index::Extractor;
use crate::key::Key;
use crate::store::{data_rows, db_unchanged, latest_unique};
use crate::table::delete::delete_effect;
use crate::table::insert::upsert_effect;
use crate::table::{Error, Table};
use crate::value::Value;
use core::marker::PhantomData;
use vstd::pervasive::arbitrary;
use vstd::prelude::*;

verus! {

/// A record that can live in a typed table: a wire value with an
/// associated primary-key type that converts to and from a composite key.
/// An implementation that states its primary key and its key encoding
/// overrides `obeys_item_spec` and the two spec functions, and the facade
/// then promises the exact rows it writes; one that states nothing leaves
/// `obeys_item_spec` at its default, `false`, and the facade promises the
/// byte-level effects existentially.
pub trait TableItem: Value + Default {
    type PrimaryKey;

    /// Whether `primary_key` and `pk_to_key` return what the two spec
    /// functions state.
    open spec fn obeys_item_spec() -> bool {
        false
    }

    /// The stated primary key of a record.
    open spec fn spec_primary_key(&self) -> Self::PrimaryKey {
        arbitrary()
    }

    /// The stated key encoding of a primary key.
    open spec fn spec_pk_key(pk: Self::PrimaryKey) -> Seq<u8> {
        Seq::empty()
    }

    /// The record's primary key.
    fn primary_key(&self) -> (r: Self::PrimaryKey)
        ensures
            Self::obeys_item_spec() ==> r == self.spec_primary_key(),
    ;

    /// Encodes a primary key as a composite key.
    fn pk_to_key(pk: &Self::PrimaryKey) -> (r: Key)
        ensures
            Self::obeys_item_spec() ==> r@ == Self::spec_pk_key(*pk),
    ;

    /// Decodes a primary key from a composite key; fails when the key
    /// does not have the primary key's shape.
    fn pk_from_key(k: Key) -> Result<Self::PrimaryKey, crate::key::Error>;
}

/// A code-defined index function over typed rows: from a primary key and
/// a record to the index keys the record contributes.
pub trait ItemIndexFn<Item: TableItem> {
    /// The index keys for one row.
    fn keys(&self, pk: &Item::PrimaryKey, item: &Item) -> Vec<Key>;
}

/// The byte-level extractor a typed index function induces: decode the
/// primary key and the record, apply the function, encode the resulting
/// keys. Nothing marks it deterministic, since the function is arbitrary
/// caller code.
pub struct TypedExtractor<Item: TableItem, G: ItemIndexFn<Item>> {
    f: G,
    item_marker: PhantomData<Item>,
}

impl<Item: TableItem, G: ItemIndexFn<Item>> Extractor for TypedExtractor<Item, G> {
    open spec fn deterministic(&self) -> bool {
        false
    }

    open spec fn spec_extract(&self, pk: Seq<u8>, value: Seq<u8>) -> Result<Set<Seq<u8>>, ()> {
        Err(())
    }

    fn extract(&self, pk: &[u8], value: &[u8]) -> (r: Result<Vec<Vec<u8>>, Error>) {
        let item = match Item::from_slice(value) {
            Ok(item) => item,
            Err(e) => {
                return Err(Error::ValueError(e));
            },
        };
        let pk_typed = match Item::pk_from_key(
            Key::load_from_bytes_unchecked(vstd::slice::slice_to_vec(pk)),
        ) {
            Ok(pk_typed) => pk_typed,
            Err(e) => {
                return Err(Error::KeyError(e));
            },
        };
        let index_keys = self.f.keys(&pk_typed, &item);
        let mut out: Vec<Vec<u8>> = Vec::new();
        let mut i: usize = 0;
        while i < index_keys.len()
            decreases index_keys@.len() - i,
        {
            out.push(index_keys[i].to_bytes());
            i += 1;
        }
        Ok(out)
    }
}

/// Some upsert of some key and value bytes took the table from state `a`
/// to state `b` at version `v`.
pub open spec fn some_upsert<Item: TableItem, G: ItemIndexFn<Item>>(
    t: Table<TypedExtractor<Item, G>>,
    a: rusqlite::Connection,
    b: rusqlite::Connection,
    v: i64,
) -> bool {
    exists|key: Seq<u8>, value: Seq<u8>| upsert_effect(t, a, b, key, value, v)
}

/// A typed view over a byte-level table.
pub struct TypedTable<Item: TableItem, G: ItemIndexFn<Item>> {
    table: Table<TypedExtractor<Item, G>>,
    item_marker: PhantomData<Item>,
}

impl<Item: TableItem, G: ItemIndexFn<Item>> TypedTable<Item, G> {
    /// The underlying byte-level table.
    pub closed spec fn spec_table(&self) -> Table<TypedExtractor<Item, G>> {
        self.table
    }

    /// A typed table over a new byte-level table named `name`.
    pub fn new(name: &str) -> (r: Self)
        ensures
            r.spec_table().wf(),
            r.spec_table().canonical(),
            r.spec_table().spec_name() == name@,
            r.spec_table().spec_indexes().len() == 0,
    {
        let mut owned = String::new();
        owned.append(name);
        Self { table: Table::new(owned), item_marker: PhantomData }
    }

    /// A typed table over an existing byte-level table.
    pub fn new_with_table(table: Table<TypedExtractor<Item, G>>) -> (r: Self)
        ensures
            r.spec_table() == table,
    {
        Self { table, item_marker: PhantomData }
    }

    /// Creates the substrate tables, runs index catch-up, and collects
    /// stale sub-tables; a repeated call from a caught-up state changes
    /// nothing.
    pub fn create_table(&mut self, conn: &mut rusqlite::Connection) -> (r: Result<(), Error>)
        requires
            old(self).spec_table().wf(),
        ensures
            *final(self) == *old(self),
            r is Ok ==> crate::table::meta::create_effect(
                old(self).spec_table(),
                *old(conn),
                *final(conn),
            ),
            r is Ok ==> (crate::table::meta::catch_up_noop_ready(
                old(self).spec_table(),
                *old(conn),
            ) ==> crate::store::db_unchanged(*old(conn), *final(conn))),
    {
        self.table.create_table(conn)
    }

    /// Attaches a code-defined index that maps a primary key and a record
    /// to index keys. Attaching under a fresh index name keeps the table
    /// well formed.
    pub fn append_index(&mut self, name: &str, f: G)
        ensures
            final(self).spec_table().spec_name() == old(self).spec_table().spec_name(),
            final(self).spec_table().spec_indexes().len() == old(
                self,
            ).spec_table().spec_indexes().len() + 1,
            old(self).spec_table().canonical() ==> final(self).spec_table().canonical(),
            (old(self).spec_table().wf() && old(self).spec_table().canonical() && (forall|i: int|
                0 <= i < old(self).spec_table().spec_indexes().len()
                    ==> (#[trigger] old(self).spec_table().spec_indexes()[i]).spec_name()
                    != name@)) ==> final(self).spec_table().wf(),
    {
        self.table.append_index(name, TypedExtractor { f, item_marker: PhantomData });
    }

    /// Serializes the record, encodes its primary key, and inserts the
    /// pair; returns the fresh version. For a record whose impl states its
    /// primary key and encoding, the row written is exactly the stated
    /// one.
    pub fn insert(&self, conn: &mut rusqlite::Connection, item: &Item) -> (r: Result<i64, Error>)
        requires
            self.spec_table().wf(),
            latest_unique(data_rows(*old(conn), self.spec_table().spec_data_table())),
        ensures
            r matches Ok(v) ==> some_upsert(self.spec_table(), *old(conn), *final(conn), v),
            r matches Ok(v) ==> ((Item::obeys_item_spec() && item.enc_ready()) ==> upsert_effect(
                self.spec_table(),
                *old(conn),
                *final(conn),
                Item::spec_pk_key(item.spec_primary_key()),
                item.spec_enc(),
                v,
            )),
    {
        let key = Item::pk_to_key(&item.primary_key()).into_bytes();
        let value = item.to_vec();
        let ghost key_bytes = key@;
        let ghost value_bytes = value@;
        let (v, _event) = self.table.insert(conn, key, value)?;
        proof {
            assert(some_upsert(self.spec_table(), *old(conn), *conn, v)) by {
                assert(upsert_effect(
                    self.spec_table(),
                    *old(conn),
                    *conn,
                    key_bytes,
                    value_bytes,
                    v,
                ));
            }
        }
        Ok(v)
    }

    /// Encodes the primary key and deletes its row; returns the tombstone
    /// version, or zero when the key was absent. For a primary-key type
    /// whose impl states its encoding, the key deleted is exactly the
    /// stated one.
    pub fn delete(&self, conn: &mut rusqlite::Connection, pk: Item::PrimaryKey) -> (r: Result<
        i64,
        Error,
    >)
        requires
            self.spec_table().wf(),
            latest_unique(data_rows(*old(conn), self.spec_table().spec_data_table())),
        ensures
            r matches Ok(rv) ==> Item::obeys_item_spec() ==> {
                let key = Item::spec_pk_key(pk);
                let rows0 = data_rows(*old(conn), self.spec_table().spec_data_table());
                &&& (rv == 0) <==> !(exists|v2: int|
                    #[trigger] rows0.dom().contains(v2) && rows0[v2].0 == key && rows0[v2].2)
                &&& (rv == 0 ==> db_unchanged(*old(conn), *final(conn)))
                &&& (rv != 0 ==> delete_effect(
                    self.spec_table(),
                    *old(conn),
                    *final(conn),
                    key,
                    rv,
                ))
            },
    {
        let ghost pk_snapshot = pk;
        let key = Item::pk_to_key(&pk).into_bytes();
        self.table.delete(conn, key.as_slice())
    }

    /// Encodes the primary key, reads the latest value, and decodes it as
    /// a record. For a primary-key type whose impl states its encoding,
    /// the row read is the latest non-tombstone row of exactly the stated
    /// key.
    pub fn get(&self, conn: &rusqlite::Connection, pk: Item::PrimaryKey) -> (r: Result<
        Option<(Item, i64)>,
        Error,
    >)
        ensures
            r matches Ok(res) ==> Item::obeys_item_spec() ==> {
                let key = Item::spec_pk_key(pk);
                let rows = data_rows(*conn, self.spec_table().spec_data_table());
                match res {
                    Some((item, version)) => {
                        &&& rows.dom().contains(version as int)
                        &&& rows[version as int].0 == key
                        &&& !rows[version as int].1
                        &&& rows[version as int].2
                    },
                    None => forall|v: int|
                        #[trigger] rows.dom().contains(v) ==> !(rows[v].0 == key && rows[v].2
                            && !rows[v].1),
                }
            },
    {
        let ghost pk_snapshot = pk;
        let key = Item::pk_to_key(&pk).into_bytes();
        let result = self.table.get(conn, key.as_slice())?;
        match result {
            None => Ok(None),
            Some((bytes, v)) => {
                proof {
                    if Item::obeys_item_spec() {
                        let rows = data_rows(*conn, self.spec_table().spec_data_table());
                        assert(rows.dom().contains(v as int) && rows[v as int] == (
                            Item::spec_pk_key(pk_snapshot),
                            false,
                            true,
                            bytes@,
                        ));
                    }
                }
                match Item::from_slice(bytes.as_slice()) {
                    Ok(item) => Ok(Some((item, v))),
                    Err(e) => Err(Error::ValueError(e)),
                }
            },
        }
    }

    /// Inserts each record in turn inside per-record transactions,
    /// returning the last version assigned, or zero for an empty batch.
    /// For records whose impl states its keys and encodings, the last
    /// record's upsert is the stated one.
    pub fn batch_insert(&self, conn: &mut rusqlite::Connection, items: &[Item]) -> (r: Result<
        i64,
        Error,
    >)
        requires
            self.spec_table().wf(),
            latest_unique(data_rows(*old(conn), self.spec_table().spec_data_table())),
        ensures
            r matches Ok(v) ==> batch_result(self.spec_table(), *old(conn), *final(conn), items@, v),
    {
        let mut version: i64 = 0;
        let mut i: usize = 0;
        let ghost mut mid_state = *conn;
        while i < items.len()
            invariant
                self.spec_table().wf(),
                latest_unique(data_rows(*conn, self.spec_table().spec_data_table())),
                0 <= i <= items@.len(),
                i == 0 ==> version == 0 && *conn == *old(conn),
                i > 0 ==> some_upsert(self.spec_table(), mid_state, *conn, version),
                (i > 0 && Item::obeys_item_spec() && items@[i - 1].enc_ready()) ==> upsert_effect(
                    self.spec_table(),
                    mid_state,
                    *conn,
                    Item::spec_pk_key(items@[i - 1].spec_primary_key()),
                    items@[i - 1].spec_enc(),
                    version,
                ),
            decreases items@.len() - i,
        {
            proof {
                mid_state = *conn;
            }
            let key = Item::pk_to_key(&items[i].primary_key()).into_bytes();
            let value = items[i].to_vec();
            let ghost key_bytes = key@;
            let ghost value_bytes = value@;
            let (v, _event) = self.table.insert(conn, key, value)?;
            proof {
                assert(some_upsert(self.spec_table(), mid_state, *conn, v)) by {
                    assert(upsert_effect(
                        self.spec_table(),
                        mid_state,
                        *conn,
                        key_bytes,
                        value_bytes,
                        v,
                    ));
                }
            }
            version = v;
            i += 1;
        }
        proof {
            assert(batch_result(self.spec_table(), *old(conn), *conn, items@, version)) by {
                if items@.len() > 0 {
                    assert(exists|mid: rusqlite::Connection|
                        #[trigger] some_upsert(self.spec_table(), mid, *conn, version)) by {
                        assert(some_upsert(self.spec_table(), mid_state, *conn, version));
                    }
                    if Item::obeys_item_spec() && items@[items@.len() - 1].enc_ready() {
                        assert(exists|mid: rusqlite::Connection|
                            #[trigger] upsert_effect(
                                self.spec_table(),
                                mid,
                                *conn,
                                Item::spec_pk_key(items@[items@.len() - 1].spec_primary_key()),
                                items@[items@.len() - 1].spec_enc(),
                                version,
                            )) by {
                            assert(upsert_effect(
                                self.spec_table(),
                                mid_state,
                                *conn,
                                Item::spec_pk_key(items@[items@.len() - 1].spec_primary_key()),
                                items@[items@.len() - 1].spec_enc(),
                                version,
                            ));
                        }
                    }
                }
            }
        }
        Ok(version)
    }
}

/// What a batch insert leaves behind: uniqueness preserved; an empty
/// batch changes nothing and reports version zero; a non-empty batch ends
/// with some upsert at the returned version — the stated upsert of the
/// last record, for impls that state their keys and encodings.
pub open spec fn batch_result<Item: TableItem, G: ItemIndexFn<Item>>(
    t: Table<TypedExtractor<Item, G>>,
    a: rusqlite::Connection,
    b: rusqlite::Connection,
    items: Seq<Item>,
    v: i64,
) -> bool {
    &&& latest_unique(data_rows(b, t.spec_data_table()))
    &&& (items.len() == 0 ==> v == 0 && b == a)
    &&& (items.len() > 0 ==> exists|mid: rusqlite::Connection|
        #[trigger] some_upsert(t, mid, b, v))
    &&& (items.len() > 0 && Item::obeys_item_spec() && items[items.len() - 1].enc_ready()
        ==> exists|mid: rusqlite::Connection|
        #[trigger] upsert_effect(
            t,
            mid,
            b,
            Item::spec_pk_key(items[items.len() - 1].spec_primary_key()),
            items[items.len() - 1].spec_enc(),
            v,
        ))
}

} // verus!
