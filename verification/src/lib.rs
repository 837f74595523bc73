//! An embedded, versioned key-value store over a relational substrate.
//!
//! The crate is built from three cooperating pieces: an order-preserving
//! composite key codec (`key`, with its order law in `key_order`), a
//! tag/index framed binary value codec (`value`), and a versioned table
//! engine (`table`, `index`) with secondary indexes kept up to date by
//! pure extractor functions. `table_typed` binds the codecs to the table
//! so callers deal in records rather than bytes. Every call into the
//! substrate goes through the trusted boundary in `store`; everything
//! else is verified against the contracts stated there.

use vstd::prelude::*;

pub mod index;
pub mod key;
pub mod key_order;
pub mod store;
pub mod table;
pub mod table_typed;
pub mod value;

verus! {

} // verus!
