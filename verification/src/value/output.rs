//! Writer for the wire value format: an owned output buffer.

use crate::key::be64;
use crate::value::model::be32;
use crate::value::{spec_ty_tag, ty_to_u8, Ty};
use vstd::prelude::*;

verus! {

/// An encoding buffer.
pub struct OutProtocol {
    store: Vec<u8>,
}

impl View for OutProtocol {
    type V = Seq<u8>;

    closed spec fn view(&self) -> Seq<u8> {
        self.store@
    }
}

impl OutProtocol {
    /// An empty output buffer.
    pub fn new() -> (r: Self)
        ensures
            r@ == Seq::<u8>::empty(),
    {
        Self { store: Vec::new() }
    }

    /// The bytes written so far.
    pub fn into_bytes(self) -> (r: Vec<u8>)
        ensures
            r@ == self@,
    {
        self.store
    }

    /// Writes a four-byte big-endian count.
    pub fn write_u32(&mut self, val: u32)
        ensures
            final(self)@ == old(self)@ + be32(val),
    {
        self.store.push((val >> 24u32) as u8);
        self.store.push((val >> 16u32) as u8);
        self.store.push((val >> 8u32) as u8);
        self.store.push(val as u8);
        proof {
            assert(final(self)@ =~= old(self)@ + be32(val));
        }
    }

    /// Writes an eight-byte big-endian integer.
    pub fn write_i64(&mut self, val: i64)
        ensures
            final(self)@ == old(self)@ + be64(val as u64),
    {
        let x = val as u64;
        self.store.push((x >> 56u64) as u8);
        self.store.push((x >> 48u64) as u8);
        self.store.push((x >> 40u64) as u8);
        self.store.push((x >> 32u64) as u8);
        self.store.push((x >> 24u64) as u8);
        self.store.push((x >> 16u64) as u8);
        self.store.push((x >> 8u64) as u8);
        self.store.push(x as u8);
        proof {
            assert(final(self)@ =~= old(self)@ + be64(val as u64));
        }
    }

    /// Writes an eight-byte big-endian float given by its IEEE-754 bit
    /// pattern.
    pub fn write_f64(&mut self, bits: u64)
        ensures
            final(self)@ == old(self)@ + be64(bits),
    {
        self.store.push((bits >> 56u64) as u8);
        self.store.push((bits >> 48u64) as u8);
        self.store.push((bits >> 40u64) as u8);
        self.store.push((bits >> 32u64) as u8);
        self.store.push((bits >> 24u64) as u8);
        self.store.push((bits >> 16u64) as u8);
        self.store.push((bits >> 8u64) as u8);
        self.store.push(bits as u8);
        proof {
            assert(final(self)@ =~= old(self)@ + be64(bits));
        }
    }

    /// Writes a length-framed byte string: a four-byte big-endian length,
    /// then the bytes.
    pub fn write_bytes(&mut self, bytes: &[u8])
        requires
            bytes@.len() <= u32::MAX,
        ensures
            final(self)@ == old(self)@ + be32(bytes@.len() as u32) + bytes@,
    {
        self.write_u32(bytes.len() as u32);
        let mut i: usize = 0;
        let ghost mid = self@;
        while i < bytes.len()
            invariant
                i <= bytes@.len(),
                self@ == mid + bytes@.take(i as int),
            decreases bytes@.len() - i,
        {
            self.store.push(bytes[i]);
            proof {
                assert(bytes@.take(i + 1) =~= bytes@.take(i as int).push(bytes@[i as int]));
                assert(self@ =~= mid + bytes@.take(i + 1));
            }
            i += 1;
        }
        proof {
            assert(bytes@.take(bytes@.len() as int) =~= bytes@);
        }
    }

    /// Writes a two-byte field header: the field's type tag and its index.
    pub fn write_field_header(&mut self, ty: Ty, index: u8)
        ensures
            final(self)@ == old(self)@ + seq![spec_ty_tag(ty), index],
    {
        self.store.push(ty_to_u8(ty));
        self.store.push(index);
        proof {
            assert(final(self)@ =~= old(self)@ + seq![spec_ty_tag(ty), index]);
        }
    }

    /// Writes a list header: the item-type tag and a four-byte item count.
    pub fn write_list_header(&mut self, item_ty: Ty, item_size: u32)
        ensures
            final(self)@ == old(self)@ + seq![spec_ty_tag(item_ty)] + be32(item_size),
    {
        self.store.push(ty_to_u8(item_ty));
        self.write_u32(item_size);
        proof {
            assert(final(self)@ =~= old(self)@ + seq![spec_ty_tag(item_ty)] + be32(item_size));
        }
    }

    /// Writes the struct terminator: the stop header.
    pub fn write_stop(&mut self)
        ensures
            final(self)@ == old(self)@ + seq![255u8, 255u8],
    {
        self.write_field_header(Ty::Stop, 255);
        proof {
            assert(final(self)@ =~= old(self)@ + seq![255u8, 255u8]);
        }
    }
}

} // verus!
