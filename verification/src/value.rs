//! Wire value codec: a tag/index framed binary format for typed records
//! with schema evolution through numbered fields.
//!
//! Primitive values are eight big-endian bytes; byte strings carry a
//! four-byte big-endian length; a list is an item-type tag and a count
//! followed by the items with no per-item tag; a struct is a sequence of
//! two-byte `(type, index)` field headers, each followed by the field's
//! body, terminated by the stop header.

use crate::value::input::InputProtocol;
use crate::value::output::OutProtocol;
use vstd::prelude::*;
use vstd::slice::slice_to_vec;

pub mod dynamic;
pub mod input;
pub mod laws;
pub mod model;
pub mod output;

verus! {

/// Decoding failures.
#[derive(Debug, Clone, Copy, PartialEq, Eq, Structural)]
pub enum Error {
    /// The input ended before the value was complete.
    DecodePrematureEnd,
    /// An octet that is not a type tag stood where one was expected.
    DecodeInvalidType,
    /// A string field held bytes that are not valid UTF-8.
    String,
}

/// On-wire type tags. `Any` is legal only as the element type of an empty
/// list; `Stop` terminates a struct's field sequence.
#[derive(Debug, Clone, Copy, PartialEq, Eq, Structural)]
pub enum Ty {
    Any,
    I64,
    F64,
    Bytes,
    List,
    Struct,
    Stop,
}

/// The tag octet of each wire type.
pub open spec fn spec_ty_tag(t: Ty) -> u8 {
    match t {
        Ty::Any => 0u8,
        Ty::I64 => 1u8,
        Ty::F64 => 2u8,
        Ty::Bytes => 3u8,
        Ty::List => 4u8,
        Ty::Struct => 5u8,
        Ty::Stop => 255u8,
    }
}

/// The wire type of each tag octet; octets that are not tags have none.
pub open spec fn spec_tag_ty(v: u8) -> Option<Ty> {
    if v == 0u8 {
        Some(Ty::Any)
    } else if v == 1u8 {
        Some(Ty::I64)
    } else if v == 2u8 {
        Some(Ty::F64)
    } else if v == 3u8 {
        Some(Ty::Bytes)
    } else if v == 4u8 {
        Some(Ty::List)
    } else if v == 5u8 {
        Some(Ty::Struct)
    } else if v == 255u8 {
        Some(Ty::Stop)
    } else {
        None
    }
}

/// Converts a wire type to its tag octet.
pub fn ty_to_u8(ty: Ty) -> (r: u8)
    ensures
        r == spec_ty_tag(ty),
{
    match ty {
        Ty::Any => 0u8,
        Ty::I64 => 1u8,
        Ty::F64 => 2u8,
        Ty::Bytes => 3u8,
        Ty::List => 4u8,
        Ty::Struct => 5u8,
        Ty::Stop => 255u8,
    }
}

/// Converts a tag octet back to its wire type; any other octet is an
/// invalid-type failure.
pub fn try_u8_to_ty(val: u8) -> (r: Result<Ty, Error>)
    ensures
        match spec_tag_ty(val) {
            Some(t) => r == Ok::<Ty, Error>(t),
            None => r == Err::<Ty, Error>(Error::DecodeInvalidType),
        },
{
    if val == 0u8 {
        Ok(Ty::Any)
    } else if val == 1u8 {
        Ok(Ty::I64)
    } else if val == 2u8 {
        Ok(Ty::F64)
    } else if val == 3u8 {
        Ok(Ty::Bytes)
    } else if val == 4u8 {
        Ok(Ty::List)
    } else if val == 5u8 {
        Ok(Ty::Struct)
    } else if val == 255u8 {
        Ok(Ty::Stop)
    } else {
        Err(Error::DecodeInvalidType)
    }
}

/// A value that can move through the wire format. The protocol readers and
/// writers carry the exact byte-level contracts; implementations of this
/// trait compose them for a concrete record shape. An implementation that
/// states its encoding overrides `enc_ready` and `spec_enc`, and the
/// writer methods then promise those exact bytes; an implementation that
/// states nothing leaves `enc_ready` at its default, `false`, and
/// promises nothing.
pub trait Value: Sized {
    /// Whether this value's encoding is the stated `spec_enc` bytes; an
    /// implementation that makes no such statement reports `false`.
    open spec fn enc_ready(&self) -> bool {
        false
    }

    /// The stated encoding of this value.
    open spec fn spec_enc(&self) -> Seq<u8> {
        Seq::empty()
    }

    /// The wire type this value is framed with.
    fn ty(&self) -> Ty;

    /// Replaces `self` with a value decoded from the input. The cursor
    /// stays within its input and only moves forward.
    fn from_input(&mut self, input: &mut InputProtocol<'_>) -> (r: Result<(), Error>)
        requires
            old(input).wf(),
        ensures
            final(input).wf(),
            final(input).data() == old(input).data(),
            final(input).pos_spec() >= old(input).pos_spec(),
    ;

    /// Appends the encoding of `self` to the output.
    fn to_output(&self, output: &mut OutProtocol)
        ensures
            self.enc_ready() ==> final(output)@ == old(output)@ + self.spec_enc(),
    ;

    /// Decodes a value from a byte slice.
    fn from_slice(slice: &[u8]) -> Result<Self, Error> where Self: Default {
        let mut input = InputProtocol::new(slice);
        let mut value = Self::default();
        value.from_input(&mut input)?;
        Ok(value)
    }

    /// Encodes `self` to a byte vector.
    fn to_vec(&self) -> (r: Vec<u8>)
        ensures
            self.enc_ready() ==> r@ == self.spec_enc(),
    {
        let mut output = OutProtocol::new();
        self.to_output(&mut output);
        proof {
            if self.enc_ready() {
                assert(Seq::<u8>::empty() + self.spec_enc() =~= self.spec_enc());
            }
        }
        output.into_bytes()
    }
}

/// Relies on String::from_utf8: it succeeds exactly on valid UTF-8 and
/// decodes those bytes to their character sequence, as vstd's `valid_utf8`
/// and `decode_utf8` describe.
#[verifier::external_body]
pub(crate) fn bytes_to_string(v: Vec<u8>) -> (r: Result<String, Error>)
    ensures
        match r {
            Ok(s) => vstd::utf8::valid_utf8(v@) && s@ == vstd::utf8::decode_utf8(v@),
            Err(e) => e == Error::String && !vstd::utf8::valid_utf8(v@),
        },
{
    String::from_utf8(v).map_err(|_| Error::String)
}

impl Value for i64 {
    /// An integer's encoding: its eight big-endian bytes.
    open spec fn enc_ready(&self) -> bool {
        true
    }

    open spec fn spec_enc(&self) -> Seq<u8> {
        crate::key::be64(*self as u64)
    }

    fn ty(&self) -> Ty {
        Ty::I64
    }

    fn from_input(&mut self, input: &mut InputProtocol<'_>) -> (r: Result<(), Error>)
        ensures
            match r {
                Ok(()) => {
                    &&& old(input).remaining().len() >= 8
                    &&& *final(self) == crate::key::from_be64(
                        old(input).remaining().take(8),
                    ) as i64
                    &&& final(input).pos_spec() == old(input).pos_spec() + 8
                },
                Err(e) => e == Error::DecodePrematureEnd && old(input).remaining().len() < 8,
            },
    {
        *self = input.read_i64()?;
        Ok(())
    }

    fn to_output(&self, output: &mut OutProtocol) {
        output.write_i64(*self);
    }
}

impl Value for Vec<u8> {
    /// A byte string's encoding: its four-byte big-endian length, then its
    /// bytes; stated for lengths the length field can carry.
    open spec fn enc_ready(&self) -> bool {
        self@.len() <= u32::MAX
    }

    open spec fn spec_enc(&self) -> Seq<u8> {
        crate::value::model::be32(self@.len() as u32) + self@
    }

    fn ty(&self) -> Ty {
        Ty::Bytes
    }

    fn from_input(&mut self, input: &mut InputProtocol<'_>) -> (r: Result<(), Error>)
        ensures
            match r {
                Ok(()) => {
                    let rem = old(input).remaining();
                    let n = crate::value::model::from_be32(rem.take(4)) as int;
                    &&& rem.len() >= 4 + n
                    &&& final(self)@ == rem.subrange(4, 4 + n)
                    &&& final(input).pos_spec() == old(input).pos_spec() + 4 + n
                },
                Err(e) => {
                    let rem = old(input).remaining();
                    e == Error::DecodePrematureEnd && (rem.len() < 4 || rem.len() < 4
                        + crate::value::model::from_be32(rem.take(4)) as int)
                },
            },
    {
        let b = input.read_bytes()?;
        *self = slice_to_vec(b);
        Ok(())
    }

    fn to_output(&self, output: &mut OutProtocol) {
        if self.len() > u32::MAX as usize {
            return ;
        }
        output.write_bytes(self.as_slice());
    }
}

impl Value for String {
    /// A string's encoding: the four-byte big-endian length of its UTF-8
    /// bytes, then those bytes; stated for lengths the length field can
    /// carry.
    open spec fn enc_ready(&self) -> bool {
        vstd::utf8::encode_utf8(self@).len() <= u32::MAX
    }

    open spec fn spec_enc(&self) -> Seq<u8> {
        crate::value::model::be32(vstd::utf8::encode_utf8(self@).len() as u32)
            + vstd::utf8::encode_utf8(self@)
    }

    fn ty(&self) -> Ty {
        Ty::Bytes
    }

    fn from_input(&mut self, input: &mut InputProtocol<'_>) -> (r: Result<(), Error>)
        ensures
            match r {
                Ok(()) => {
                    let rem = old(input).remaining();
                    let n = crate::value::model::from_be32(rem.take(4)) as int;
                    &&& rem.len() >= 4 + n
                    &&& vstd::utf8::valid_utf8(rem.subrange(4, 4 + n))
                    &&& final(self)@ == vstd::utf8::decode_utf8(rem.subrange(4, 4 + n))
                    &&& final(input).pos_spec() == old(input).pos_spec() + 4 + n
                },
                Err(e) => {
                    let rem = old(input).remaining();
                    let n = crate::value::model::from_be32(rem.take(4)) as int;
                    ||| (e == Error::DecodePrematureEnd && (rem.len() < 4 || rem.len() < 4 + n))
                    ||| (e == Error::String && rem.len() >= 4 + n && !vstd::utf8::valid_utf8(
                        rem.subrange(4, 4 + n),
                    ))
                },
            },
    {
        let b = input.read_bytes()?;
        *self = bytes_to_string(slice_to_vec(b))?;
        Ok(())
    }

    fn to_output(&self, output: &mut OutProtocol) {
        let b = self.as_str().as_bytes();
        if b.len() > u32::MAX as usize {
            return ;
        }
        output.write_bytes(b);
    }
}

impl<T: Value + Default> Value for Vec<T> {
    fn ty(&self) -> Ty {
        Ty::List
    }

    fn from_input(&mut self, input: &mut InputProtocol<'_>) -> (r: Result<(), Error>)
        ensures
            r is Ok ==> {
                let rem = old(input).remaining();
                &&& rem.len() >= 5
                &&& spec_tag_ty(rem[0]) is Some
                &&& final(self)@.len() == crate::value::model::from_be32(rem.subrange(1, 5))
            },
    {
        let (_item_ty, size) = input.read_list_header()?;
        let mut result: Vec<T> = Vec::new();
        let mut i: u32 = 0;
        while i < size
            invariant
                input.wf(),
                input.data() == old(input).data(),
                input.pos_spec() >= old(input).pos_spec(),
                i <= size,
                result@.len() == i,
            decreases size - i,
        {
            let mut item_val = T::default();
            item_val.from_input(input)?;
            result.push(item_val);
            i += 1;
        }
        *self = result;
        Ok(())
    }

    fn to_output(&self, output: &mut OutProtocol) {
        if self.len() > u32::MAX as usize {
            return ;
        }
        let item_ty = T::default().ty();
        output.write_list_header(item_ty, self.len() as u32);
        let mut i: usize = 0;
        while i < self.len()
            decreases self@.len() - i,
        {
            self[i].to_output(output);
            i += 1;
        }
    }
}

impl<T: Value + Default> Value for Option<T> {
    /// A present value encodes as the value itself, when that value
    /// states its encoding; an absent one writes the default record,
    /// about which nothing is stated.
    open spec fn enc_ready(&self) -> bool {
        self matches Some(v) && v.enc_ready()
    }

    open spec fn spec_enc(&self) -> Seq<u8> {
        self->Some_0.spec_enc()
    }

    fn ty(&self) -> Ty {
        T::default().ty()
    }

    fn from_input(&mut self, input: &mut InputProtocol<'_>) -> Result<(), Error> {
        let mut value = T::default();
        value.from_input(input)?;
        *self = Some(value);
        Ok(())
    }

    fn to_output(&self, output: &mut OutProtocol) {
        match self {
            Some(val) => val.to_output(output),
            None => {
                let val = T::default();
                val.to_output(output);
            },
        }
    }
}

} // verus!
