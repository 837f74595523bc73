//! Version-ordered replay and index lookups.

use crate::index::{in_range, pair_cmp, Extractor, Index, ScanKey, ScanOptions, ScanOrder};
use crate::store::{data_rows, index_pairs};
use crate::table::{Error, Table};
use core::cmp::Ordering;
use vstd::prelude::*;
use vstd::string::StringExecFns;
use vstd::utf8::encode_utf8_decode_utf8;

verus! {

/// String equality by characters.
pub(crate) fn str_eq(a: &str, b: &str) -> (r: bool)
    ensures
        r == (a@ == b@),
{
    let ab = a.as_bytes();
    let bb = b.as_bytes();
    proof {
        assert(ab@ == vstd::utf8::encode_utf8(a@));
        assert(bb@ == vstd::utf8::encode_utf8(b@));
        encode_utf8_decode_utf8(a@);
        encode_utf8_decode_utf8(b@);
        assert(vstd::utf8::decode_utf8(vstd::utf8::encode_utf8(a@)) == a@);
        assert(vstd::utf8::decode_utf8(vstd::utf8::encode_utf8(b@)) == b@);
    }
    if ab.len() != bb.len() {
        proof {
            if a@ == b@ {
                assert(ab@ == bb@);
            }
        }
        return false;
    }
    let mut i: usize = 0;
    while i < ab.len()
        invariant
            i <= ab@.len(),
            ab@.len() == bb@.len(),
            ab@ == vstd::utf8::encode_utf8(a@),
            bb@ == vstd::utf8::encode_utf8(b@),
            a@ == vstd::utf8::decode_utf8(vstd::utf8::encode_utf8(a@)),
            b@ == vstd::utf8::decode_utf8(vstd::utf8::encode_utf8(b@)),
            forall|j: int| 0 <= j < i ==> ab@[j] == bb@[j],
        decreases ab@.len() - i,
    {
        if ab[i] != bb[i] {
            proof {
                if a@ == b@ {
                    assert(ab@ == bb@);
                }
            }
            return false;
        }
        i += 1;
    }
    proof {
        assert(ab@ =~= bb@);
        assert(vstd::utf8::encode_utf8(a@) == vstd::utf8::encode_utf8(b@));
        assert(a@ == vstd::utf8::decode_utf8(vstd::utf8::encode_utf8(a@)));
        assert(b@ == vstd::utf8::decode_utf8(vstd::utf8::encode_utf8(b@)));
        assert(a@ == b@);
    }
    true
}

impl<E: Extractor> Table<E> {
    /// Every latest row with version above `from_version`, in ascending
    /// version order; a tombstone's value is `None`. This is the replay
    /// feed index catch-up consumes.
    pub fn scan_to_end(&self, conn: &rusqlite::Connection, from_version: i64) -> (r: Result<
        Vec<(Vec<u8>, Option<Vec<u8>>, i64)>,
        Error,
    >)
        ensures
            r matches Err(e) ==> e is SqliteError,
            r matches Ok(rs) ==> {
                let rows = data_rows(*conn, self.spec_data_table());
                &&& (forall|i: int, j: int| 0 <= i < j < rs.len() ==> rs[i].2 < rs[j].2)
                &&& (forall|i: int|
                    0 <= i < rs.len() ==> {
                        let v = (#[trigger] rs[i]).2 as int;
                        &&& v > from_version
                        &&& rows.dom().contains(v)
                        &&& rows[v].2
                        &&& rows[v].0 == rs[i].0@
                        &&& (match rs[i].1 {
                            Some(value) => !rows[v].1 && rows[v].3 == value@,
                            None => rows[v].1,
                        })
                    })
                &&& (forall|v: int|
                    #[trigger] rows.dom().contains(v) && rows[v].2 && v > from_version
                        ==> exists|i: int| 0 <= i < rs.len() && (#[trigger] rs[i].2) as int == v)
            },
    {
        let data_name = self.data_table();
        crate::store::select_latest_after(conn, data_name.as_str(), from_version)
    }

    /// The attached index of the given name, if any.
    pub(crate) fn get_index_by_name(&self, name: &str) -> (r: Option<&Index<E>>)
        ensures
            match r {
                Some(idx) => exists|i: int|
                    0 <= i < self.spec_indexes().len() && (#[trigger] self.spec_indexes()[i])
                        == *idx && self.spec_indexes()[i].spec_name() == name@,
                None => forall|i: int|
                    0 <= i < self.spec_indexes().len() ==> (#[trigger] self.spec_indexes()[i]).spec_name()
                        != name@,
            },
    {
        let idxs = self.indexes_ref();
        let mut i: usize = 0;
        while i < idxs.len()
            invariant
                idxs@ == self.spec_indexes(),
                i <= idxs@.len(),
                forall|j: int|
                    0 <= j < i ==> (#[trigger] self.spec_indexes()[j]).spec_name() != name@,
            decreases idxs@.len() - i,
        {
            if str_eq(idxs[i].name_str(), name) {
                proof {
                    assert(self.spec_indexes()[i as int].spec_name() == name@);
                }
                return Some(&idxs[i]);
            }
            proof {
                assert(self.spec_indexes()[i as int].spec_name() != name@);
            }
            i += 1;
        }
        None
    }

    /// Looks up `(ik, pk)` pairs by index key: scans the named index from
    /// `(key, empty)` upward and returns the first `count` stored pairs in
    /// ascending `(ik, pk)` order; pairs with larger index keys follow
    /// when fewer than `count` match exactly. A missing index name, and
    /// only a missing index name, is the missing-index error.
    pub fn get_by_index(
        &self,
        conn: &rusqlite::Connection,
        index_name: &str,
        key: &[u8],
        count: u32,
    ) -> (r: Result<Vec<(Vec<u8>, Vec<u8>)>, Error>)
        requires
            count < u32::MAX,
        ensures
            (forall|i: int|
                0 <= i < self.spec_indexes().len() ==> (#[trigger] self.spec_indexes()[i]).spec_name()
                    != index_name@) ==> (r matches Err(e) && e is IndexMissing),
            (r matches Err(e) && e is IndexMissing) ==> (forall|i: int|
                0 <= i < self.spec_indexes().len() ==> (#[trigger] self.spec_indexes()[i]).spec_name()
                    != index_name@),
            r matches Ok(rs) ==> exists|i: int|
                {
                    &&& 0 <= i < self.spec_indexes().len()
                    &&& (#[trigger] self.spec_indexes()[i]).spec_name() == index_name@
                    &&& ({
                        let pairs = index_pairs(*conn, self.spec_indexes()[i].spec_data_table());
                        let lo = Some((key@, Seq::<u8>::empty(), true));
                        let hi = None::<(Seq<u8>, Seq<u8>, bool)>;
                        &&& rs@.len() <= count
                        &&& (forall|k: int|
                            0 <= k < rs@.len() ==> {
                                let p = ((#[trigger] rs@[k]).0@, rs@[k].1@);
                                pairs.contains(p) && in_range(p, lo, hi)
                            })
                        &&& (forall|k: int, l: int|
                            0 <= k < l < rs@.len() ==> pair_cmp(
                                ((#[trigger] rs@[k]).0@, rs@[k].1@),
                                ((#[trigger] rs@[l]).0@, rs@[l].1@),
                            ) == Ordering::Less)
                        &&& (rs@.len() < count ==> (forall|p: (Seq<u8>, Seq<u8>)|
                            pairs.contains(p) && in_range(p, lo, hi) ==> exists|k: int|
                                0 <= k < rs@.len() && ((#[trigger] rs@[k]).0@, rs@[k].1@) == p))
                        &&& ((forall|p: (Seq<u8>, Seq<u8>)|
                            pairs.contains(p) && in_range(p, lo, hi) ==> exists|k: int|
                                0 <= k < rs@.len() && ((#[trigger] rs@[k]).0@, rs@[k].1@) == p)
                            || (rs@.len() == count && exists|pm: (Seq<u8>, Seq<u8>)|
                            {
                                &&& #[trigger] pairs.contains(pm)
                                &&& in_range(pm, lo, hi)
                                &&& (forall|k: int|
                                    0 <= k < rs@.len() ==> pair_cmp(
                                        ((#[trigger] rs@[k]).0@, rs@[k].1@),
                                        pm,
                                    ) == Ordering::Less)
                                &&& (forall|p: (Seq<u8>, Seq<u8>)|
                                    pairs.contains(p) && in_range(p, lo, hi) && !(exists|k: int|
                                        0 <= k < rs@.len() && ((#[trigger] rs@[k]).0@,
                                        rs@[k].1@) == p) ==> p == pm || pair_cmp(pm, p)
                                        == Ordering::Less)
                            }))
                    })
                },
    {
        let index = match self.get_index_by_name(index_name) {
            None => {
                let mut s = String::new();
                s.append(index_name);
                return Err(Error::IndexMissing(s));
            },
            Some(index) => index,
        };
        let empty_pk: Vec<u8> = Vec::new();
        let scan_result = index.scan(
            conn,
            ScanOptions {
                lower_key: Some(ScanKey { ik: key, pk: empty_pk.as_slice(), inclusive: true }),
                higher_key: None,
                count,
                order: ScanOrder::Asc,
            },
        )?;
        proof {
            let i = choose|i: int|
                0 <= i < self.spec_indexes().len() && (#[trigger] self.spec_indexes()[i])
                    == *index && self.spec_indexes()[i].spec_name() == index_name@;
            let pairs = index_pairs(*conn, self.spec_indexes()[i].spec_data_table());
            let lo = Some((key@, Seq::<u8>::empty(), true));
            let hi = None::<(Seq<u8>, Seq<u8>, bool)>;
            let rs = scan_result.keys;
            if scan_result.has_more {
                assert(rs@.len() == count);
            } else {
                assert(forall|p: (Seq<u8>, Seq<u8>)|
                    pairs.contains(p) && in_range(p, lo, hi) ==> exists|k: int|
                        0 <= k < rs@.len() && ((#[trigger] rs@[k]).0@, rs@[k].1@) == p);
            }
        }
        Ok(scan_result.keys)
    }
}

} // verus!
