//! Versioned byte-level table engine: insert, update and delete with
//! monotonic row versions, a single latest row per key, and secondary
//! index maintenance.

use crate::index::{Extractor, Index, IndexOption};
use vstd::prelude::*;
use vstd::string::StringExecFns;

pub mod delete;
pub mod get;
pub mod insert;
pub mod laws;
pub mod meta;
pub mod scan;
pub mod update;

verus! {

/// Failures of the table engine.
#[derive(Debug)]
pub enum Error {
    /// A failure reported by the relational substrate, carried as its
    /// message.
    SqliteError(String),
    /// A wire value failed to decode.
    ValueError(crate::value::Error),
    /// A key was coerced to a shape it does not have.
    KeyError(crate::key::Error),
    /// A named index is not attached to the table.
    IndexMissing(String),
}

/// A batch of changes handed to an index for materialization.
pub enum TableUpdate<'a> {
    /// `(pk, value, version)` rows upserted.
    Upsert(Vec<(&'a [u8], &'a [u8], i64)>),
    /// `(pk, version)` rows deleted.
    Delete(Vec<(&'a [u8], i64)>),
}

/// One item of a data-update event: the key, and the `(value, version)`
/// pair before and after the mutation, either side absent when the row
/// was, or became, logically absent.
#[derive(Debug)]
pub struct TableItemEvent {
    pub key: Vec<u8>,
    pub from: Option<(Vec<u8>, i64)>,
    pub to: Option<(Vec<u8>, i64)>,
}

/// An event a table reports after a committed operation.
#[derive(Debug)]
pub enum TableEvent<'a> {
    TableCreated,
    DataUpdates(&'a [TableItemEvent]),
}

/// What a caller-supplied update function decided.
pub enum UpdateResult {
    /// Nothing need change.
    NotChange,
    /// A new value was produced; store it.
    Update(Vec<u8>),
    /// The record should be deleted.
    Delete,
}

/// Wrapping the same middle between one prefix and one suffix is
/// injective in the middle.
pub proof fn lemma_concat_inj(p: Seq<char>, s: Seq<char>, m: Seq<char>, n: Seq<char>)
    requires
        p + m + s == p + n + s,
    ensures
        m == n,
{
    assert((p + m + s).len() == (p + n + s).len());
    assert((p + m + s).len() == p.len() + m.len() + s.len());
    assert((p + n + s).len() == p.len() + n.len() + s.len());
    assert(m.len() == n.len());
    assert forall|k: int| 0 <= k < m.len() implies m[k] == n[k] by {
        assert((p + m + s)[p.len() + k] == m[k]);
        assert((p + n + s)[p.len() + k] == n[k]);
    }
    assert(m =~= n);
}

/// A byte-level versioned table: its name and its attached indexes.
/// Observers are not held here; every mutation returns the events it
/// produced, and an embedding layer may fan them out.
pub struct Table<E: Extractor> {
    table_name: String,
    indexes: Vec<Index<E>>,
}

impl<E: Extractor> Table<E> {
    /// The table's name.
    pub closed spec fn spec_name(&self) -> Seq<char> {
        self.table_name@
    }

    /// The attached indexes.
    pub closed spec fn spec_indexes(&self) -> Seq<Index<E>> {
        self.indexes@
    }

    /// The name of the substrate data table.
    pub open spec fn spec_data_table(&self) -> Seq<char> {
        self.spec_name() + "_$_data"@
    }

    /// The name of the substrate conf table.
    pub open spec fn spec_conf_table(&self) -> Seq<char> {
        self.spec_name() + "_$_conf"@
    }

    /// The indexes' substrate tables are pairwise distinct, so that
    /// maintaining one index never disturbs another.
    pub open spec fn wf(&self) -> bool {
        forall|i: int, j: int|
            0 <= i < j < self.spec_indexes().len() ==> (#[trigger] self.spec_indexes()[i]).spec_data_table() != (
            #[trigger] self.spec_indexes()[j]).spec_data_table() && self.spec_indexes()[i].spec_config_table()
                != self.spec_indexes()[j].spec_config_table()
    }

    /// Every attached index's substrate tables bear the names derived
    /// from this table's name and the index's own, as `append_index`
    /// builds them.
    pub open spec fn canonical(&self) -> bool {
        forall|i: int|
            0 <= i < self.spec_indexes().len() ==> {
                &&& (#[trigger] self.spec_indexes()[i]).spec_data_table() == self.spec_name()
                    + "_idx_"@ + self.spec_indexes()[i].spec_name() + "_data"@
                &&& self.spec_indexes()[i].spec_config_table() == self.spec_name() + "_idx_"@
                    + self.spec_indexes()[i].spec_name() + "_config"@
            }
    }

    /// A new table named `name`, with no indexes attached.
    pub fn new(name: String) -> (r: Self)
        ensures
            r.spec_name() == name@,
            r.spec_indexes() == Seq::<Index<E>>::empty(),
            r.wf(),
            r.canonical(),
    {
        Self { table_name: name, indexes: Vec::new() }
    }

    /// Attaches an index defined by an extractor. Attaching an index whose
    /// name differs from every already-attached one keeps the table well
    /// formed and canonically named.
    pub fn append_index(&mut self, name: &str, extractor: E)
        ensures
            final(self).spec_name() == old(self).spec_name(),
            final(self).spec_indexes().len() == old(self).spec_indexes().len() + 1,
            (forall|i: int|
                0 <= i < old(self).spec_indexes().len() ==> final(self).spec_indexes()[i] == old(
                    self,
                ).spec_indexes()[i]),
            final(self).spec_indexes().last().spec_name() == name@,
            final(self).spec_indexes().last().spec_data_table() == old(self).spec_name()
                + "_idx_"@ + name@ + "_data"@,
            final(self).spec_indexes().last().spec_config_table() == old(self).spec_name()
                + "_idx_"@ + name@ + "_config"@,
            final(self).spec_indexes().last().spec_extractor() == extractor,
            old(self).canonical() ==> final(self).canonical(),
            (old(self).wf() && old(self).canonical() && (forall|i: int|
                0 <= i < old(self).spec_indexes().len()
                    ==> (#[trigger] old(self).spec_indexes()[i]).spec_name() != name@))
                ==> final(self).wf(),
    {
        let index = Index::new(
            name,
            self.table_name.as_str(),
            IndexOption { without_rowid: true },
            extractor,
        );
        self.indexes.push(index);
        proof {
            let t = old(self).spec_name();
            let idxs = final(self).spec_indexes();
            let m = idxs.len() - 1;
            if old(self).canonical() {
                assert(final(self).canonical()) by {
                    assert(forall|i: int|
                        0 <= i < m ==> #[trigger] idxs[i] == old(self).spec_indexes()[i]);
                }
            }
            if old(self).wf() && old(self).canonical() && (forall|i: int|
                0 <= i < old(self).spec_indexes().len() ==> (
                #[trigger] old(self).spec_indexes()[i]).spec_name() != name@) {
                assert forall|i: int, j: int| 0 <= i < j < idxs.len() implies (
                #[trigger] idxs[i]).spec_data_table() != (#[trigger] idxs[j]).spec_data_table()
                    && idxs[i].spec_config_table() != idxs[j].spec_config_table() by {
                    if j == m {
                        assert(idxs[i] == old(self).spec_indexes()[i]);
                        assert(idxs[i].spec_name() != name@);
                        if idxs[i].spec_data_table() == idxs[m].spec_data_table() {
                            lemma_concat_inj(
                                t + "_idx_"@,
                                "_data"@,
                                idxs[i].spec_name(),
                                name@,
                            );
                        }
                        if idxs[i].spec_config_table() == idxs[m].spec_config_table() {
                            lemma_concat_inj(
                                t + "_idx_"@,
                                "_config"@,
                                idxs[i].spec_name(),
                                name@,
                            );
                        }
                    }
                }
            }
        }
    }

    /// The attached indexes, by reference.
    pub(crate) fn indexes_ref(&self) -> (r: &Vec<Index<E>>)
        ensures
            r@ == self.spec_indexes(),
    {
        &self.indexes
    }

    /// The name of the substrate data table, as a string.
    pub(crate) fn data_table(&self) -> (r: String)
        ensures
            r@ == self.spec_data_table(),
    {
        let mut s = self.table_name.clone();
        s.append("_$_data");
        s
    }

    /// The name of the substrate conf table, as a string.
    pub(crate) fn conf_table(&self) -> (r: String)
        ensures
            r@ == self.spec_conf_table(),
    {
        let mut s = self.table_name.clone();
        s.append("_$_conf");
        s
    }
}

} // verus!
