//! Read-modify-write: a caller-supplied function inspects the current
//! value and decides whether to keep, replace or delete it.

use crate::index::Extractor;
use crate::store::{
    all_text_unchanged, data_rows, data_unchanged_except, db_unchanged, latest_unique,
};
use crate::table::delete::delete_effect;
use crate::table::insert::{config_outside_untouched, pairs_outside_untouched, upsert_effect};
use crate::table::{Error, Table, UpdateResult};
use vstd::prelude::*;

verus! {

/// Whether `prev` is what a read of `key`'s latest non-tombstone row in
/// state `a` yields: the row's value and version, or nothing when the key
/// is logically absent.
pub open spec fn reads_latest<E: Extractor>(
    t: Table<E>,
    a: rusqlite::Connection,
    key: Seq<u8>,
    prev: Option<(Vec<u8>, i64)>,
) -> bool {
    match prev {
        Some((pv, pver)) => {
            &&& data_rows(a, t.spec_data_table()).dom().contains(pver as int)
            &&& data_rows(a, t.spec_data_table())[pver as int] == (key, false, true, pv@)
        },
        None => forall|v: int|
            #[trigger] data_rows(a, t.spec_data_table()).dom().contains(v) ==> !(data_rows(
                a,
                t.spec_data_table(),
            )[v].0 == key && data_rows(a, t.spec_data_table())[v].2 && !data_rows(
                a,
                t.spec_data_table(),
            )[v].1),
    }
}

impl<E: Extractor> Table<E> {
    /// Reads the latest `(value, version)` for `key` (or none), hands it
    /// to `update_f`, and applies its decision: nothing, an insert of the
    /// new value, or an optimistic delete at the read version. Returns the
    /// resulting new version, or `None` when nothing changed; the outcome
    /// is the one `update_f` decided on the value actually read, and a
    /// delete is the optimistic delete at the version actually read (so a
    /// delete of an absent row changes nothing and reports version zero).
    pub fn update<F: Fn(Option<(Vec<u8>, i64)>) -> Result<UpdateResult, Error>>(
        &self,
        conn: &mut rusqlite::Connection,
        key: Vec<u8>,
        update_f: F,
    ) -> (r: Result<Option<i64>, Error>)
        requires
            self.wf(),
            latest_unique(data_rows(*old(conn), self.spec_data_table())),
            forall|x: Option<(Vec<u8>, i64)>| call_requires(update_f, (x,)),
        ensures
            r is Ok ==> {
                &&& latest_unique(data_rows(*final(conn), self.spec_data_table()))
                &&& data_unchanged_except(*old(conn), *final(conn), self.spec_data_table())
                &&& all_text_unchanged(*old(conn), *final(conn))
                &&& pairs_outside_untouched(*self, *old(conn), *final(conn))
                &&& config_outside_untouched(*self, *old(conn), *final(conn))
            },
            r matches Ok(opt) ==> exists|prev: Option<(Vec<u8>, i64)>|
                {
                    &&& #[trigger] reads_latest(*self, *old(conn), key@, prev)
                    &&& match opt {
                        None => call_ensures(update_f, (prev,), Ok(UpdateResult::NotChange))
                            && *final(conn) == *old(conn),
                        Some(v) => (exists|nv: Vec<u8>|
                            #[trigger] call_ensures(update_f, (prev,), Ok(UpdateResult::Update(nv)))
                                && upsert_effect(
                                *self,
                                *old(conn),
                                *final(conn),
                                key@,
                                nv@,
                                v,
                            )) || (call_ensures(update_f, (prev,), Ok(UpdateResult::Delete)) && {
                            let pv: int = match prev {
                                Some(p) => p.1 as int,
                                None => 0,
                            };
                            let rows0 = data_rows(*old(conn), self.spec_data_table());
                            &&& ((v != 0) <==> (rows0.dom().contains(pv) && rows0[pv].0 == key@
                                && rows0[pv].2))
                            &&& (v == 0 ==> db_unchanged(*old(conn), *final(conn)))
                            &&& (v != 0 ==> delete_effect(
                                *self,
                                *old(conn),
                                *final(conn),
                                key@,
                                v,
                            ))
                        }),
                    }
                },
    {
        let prev = self.get(conn, key.as_slice())?;
        let ghost prev_read = prev;

        let prev_v: i64 = match &prev {
            Some(x) => x.1,
            None => 0,
        };

        let decision = update_f(prev)?;
        match decision {
            UpdateResult::NotChange => {
                proof {
                    assert(reads_latest(*self, *old(conn), key@, prev_read));
                }
                Ok(None)
            },
            UpdateResult::Delete => {
                let (new_v, _event) = self.delete_with_version(conn, key, prev_v)?;
                proof {
                    assert(reads_latest(*self, *old(conn), key@, prev_read));
                }
                Ok(Some(new_v))
            },
            UpdateResult::Update(new) => {
                let ghost new_bytes = new@;
                let ghost new_vec = new;
                let ghost key_bytes = key@;
                let (new_v, _event) = self.insert(conn, key, new)?;
                proof {
                    assert(reads_latest(*self, *old(conn), key@, prev_read));
                    assert(call_ensures(
                        update_f,
                        (prev_read,),
                        Ok(UpdateResult::Update(new_vec)),
                    ));
                    assert(upsert_effect(*self, *old(conn), *conn, key_bytes, new_bytes, new_v));
                }
                Ok(Some(new_v))
            },
        }
    }
}

} // verus!
