//! Mathematical model of wire values, their encoding, and their decoding.

use crate::key::{be64, from_be64};
use crate::value::{spec_tag_ty, spec_ty_tag, Error, Ty};
use vstd::prelude::*;

verus! {

/// Model of a wire value. Floats are carried as IEEE-754 bit patterns; a
/// struct is an ordered field sequence sorted by field index.
pub enum ValueModel {
    I64(i64),
    F64(u64),
    Bytes(Seq<u8>),
    List { item_ty: Ty, items: Seq<ValueModel> },
    Struct(Seq<(u8, ValueModel)>),
    Stop,
}

/// The wire type of a value.
pub open spec fn ty_of(v: ValueModel) -> Ty {
    match v {
        ValueModel::I64(_) => Ty::I64,
        ValueModel::F64(_) => Ty::F64,
        ValueModel::Bytes(_) => Ty::Bytes,
        ValueModel::List { .. } => Ty::List,
        ValueModel::Struct(_) => Ty::Struct,
        ValueModel::Stop => Ty::Stop,
    }
}

/// Big-endian bytes of a 32-bit value.
pub open spec fn be32(x: u32) -> Seq<u8> {
    seq![(x >> 24) as u8, (x >> 16) as u8, (x >> 8) as u8, x as u8]
}

/// The 32-bit value read back from four big-endian bytes.
pub open spec fn from_be32(s: Seq<u8>) -> u32 {
    (((s[0] as u32) << 24) | ((s[1] as u32) << 16) | ((s[2] as u32) << 8) | (s[3] as u32))
}

pub proof fn lemma_from_be32_of_be32(x: u32)
    ensures
        from_be32(be32(x)) == x,
{
    assert(((((x >> 24) as u8) as u32) << 24) | ((((x >> 16) as u8) as u32) << 16) | ((((x
        >> 8) as u8) as u32) << 8) | ((x as u8) as u32) == x) by (bit_vector);
}

pub proof fn lemma_be32_of_from_be32(s: Seq<u8>)
    requires
        s.len() == 4,
    ensures
        be32(from_be32(s)) == s,
{
    let b0 = s[0];
    let b1 = s[1];
    let b2 = s[2];
    let b3 = s[3];
    let x: u32 = (((b0 as u32) << 24) | ((b1 as u32) << 16) | ((b2 as u32) << 8) | (b3 as u32));
    assert(((x >> 24) as u8) == b0 && ((x >> 16) as u8) == b1 && ((x >> 8) as u8) == b2 && (x
        as u8) == b3) by (bit_vector)
        requires
            x == (((b0 as u32) << 24) | ((b1 as u32) << 16) | ((b2 as u32) << 8) | (b3 as u32)),
    ;
    assert(be32(from_be32(s)) =~= s);
}

/// Encoding of a value body (the enclosing frame supplies its type tag).
pub open spec fn enc_value(v: ValueModel) -> Seq<u8>
    decreases v,
{
    match v {
        ValueModel::I64(x) => be64(x as u64),
        ValueModel::F64(bits) => be64(bits),
        ValueModel::Bytes(p) => be32(p.len() as u32) + p,
        ValueModel::List { item_ty, items } => seq![spec_ty_tag(item_ty)] + be32(
            items.len() as u32,
        ) + enc_items(items, 0),
        ValueModel::Struct(fields) => enc_fields(fields, 0) + seq![255u8, 255u8],
        ValueModel::Stop => Seq::empty(),
    }
}

/// Encoding of the items of a list from index `i` on: consecutive bodies
/// with no per-item tag.
pub open spec fn enc_items(items: Seq<ValueModel>, i: int) -> Seq<u8>
    decreases items, items.len() - i,
{
    if i < 0 || i >= items.len() {
        Seq::empty()
    } else {
        enc_value(items[i]) + enc_items(items, i + 1)
    }
}

/// Encoding of the fields of a struct from index `i` on: each a two-byte
/// `(type, index)` header followed by the field's body.
pub open spec fn enc_fields(fields: Seq<(u8, ValueModel)>, i: int) -> Seq<u8>
    decreases fields, fields.len() - i,
{
    if i < 0 || i >= fields.len() {
        Seq::empty()
    } else {
        seq![spec_ty_tag(ty_of(fields[i].1)), fields[i].0] + enc_value(fields[i].1) + enc_fields(
            fields,
            i + 1,
        )
    }
}

/// Well-formed values: the fragment of the model that the encoder is
/// meant for. Sizes fit their four-byte counts, list items are homogeneous,
/// `Any` and `Stop` appear only as the element type of an empty list, and
/// struct fields are strictly sorted by index.
pub open spec fn wf_value(v: ValueModel) -> bool
    decreases v,
{
    match v {
        ValueModel::I64(_) => true,
        ValueModel::F64(_) => true,
        ValueModel::Bytes(p) => p.len() < 0x1_0000_0000,
        ValueModel::List { item_ty, items } => {
            &&& items.len() < 0x1_0000_0000
            &&& ((item_ty == Ty::Any || item_ty == Ty::Stop) ==> items.len() == 0)
            &&& wf_items(items, item_ty, 0)
        },
        ValueModel::Struct(fields) => {
            &&& (forall|k: int|
                0 <= k < fields.len() - 1 ==> (#[trigger] fields[k].0) < fields[k + 1].0)
            &&& wf_fields(fields, 0)
        },
        ValueModel::Stop => false,
    }
}

/// All items from index `i` on are well formed and have the item type.
pub open spec fn wf_items(items: Seq<ValueModel>, item_ty: Ty, i: int) -> bool
    decreases items, items.len() - i,
{
    if i < 0 || i >= items.len() {
        true
    } else {
        &&& ty_of(items[i]) == item_ty
        &&& wf_value(items[i])
        &&& wf_items(items, item_ty, i + 1)
    }
}

/// All field values from index `i` on are well formed.
pub open spec fn wf_fields(fields: Seq<(u8, ValueModel)>, i: int) -> bool
    decreases fields, fields.len() - i,
{
    if i < 0 || i >= fields.len() {
        true
    } else {
        &&& wf_value(fields[i].1)
        &&& wf_fields(fields, i + 1)
    }
}

/// Whether a field sequence holds the index.
pub open spec fn field_has(fields: Seq<(u8, ValueModel)>, i: u8) -> bool {
    exists|k: int| 0 <= k < fields.len() && (#[trigger] fields[k]).0 == i
}

/// The value a field sequence holds at an index.
pub open spec fn field_get(fields: Seq<(u8, ValueModel)>, i: u8) -> Option<ValueModel>
    decreases fields.len(),
{
    if fields.len() == 0 {
        None
    } else if fields[0].0 == i {
        Some(fields[0].1)
    } else {
        field_get(fields.skip(1), i)
    }
}

/// Sets a field in an index-sorted field sequence: replaces the value if
/// the index is present, inserts it in index position otherwise.
pub open spec fn field_set(fields: Seq<(u8, ValueModel)>, i: u8, v: ValueModel) -> Seq<
    (u8, ValueModel),
>
    decreases fields.len(),
{
    if fields.len() == 0 {
        seq![(i, v)]
    } else if i < fields[0].0 {
        seq![(i, v)] + fields
    } else if i == fields[0].0 {
        seq![(i, v)] + fields.skip(1)
    } else {
        seq![fields[0]] + field_set(fields.skip(1), i, v)
    }
}

/// Decoding of a value body of the given wire type from the front of `b`:
/// the value and the number of bytes consumed, or the failure the decoder
/// reports.
pub open spec fn dec_value(t: Ty, b: Seq<u8>) -> Result<(ValueModel, int), Error>
    decreases b.len(), 1int, 0int,
{
    match t {
        Ty::Any => Err(Error::DecodeInvalidType),
        Ty::Stop => Ok((ValueModel::Stop, 0)),
        Ty::I64 => if b.len() >= 8 {
            Ok((ValueModel::I64(from_be64(b.take(8)) as i64), 8))
        } else {
            Err(Error::DecodePrematureEnd)
        },
        Ty::F64 => if b.len() >= 8 {
            Ok((ValueModel::F64(from_be64(b.take(8))), 8))
        } else {
            Err(Error::DecodePrematureEnd)
        },
        Ty::Bytes => if b.len() >= 4 {
            let n = from_be32(b.take(4)) as int;
            if b.len() >= 4 + n {
                Ok((ValueModel::Bytes(b.subrange(4, 4 + n)), 4 + n))
            } else {
                Err(Error::DecodePrematureEnd)
            }
        } else {
            Err(Error::DecodePrematureEnd)
        },
        Ty::List => if b.len() < 1 {
            Err(Error::DecodePrematureEnd)
        } else {
            match spec_tag_ty(b[0]) {
                None => Err(Error::DecodeInvalidType),
                Some(item_ty) => if b.len() < 5 {
                    Err(Error::DecodePrematureEnd)
                } else {
                    let n = from_be32(b.subrange(1, 5)) as int;
                    if item_ty == Ty::Any && n > 0 {
                        Err(Error::DecodeInvalidType)
                    } else {
                        match dec_items(item_ty, n, b.skip(5)) {
                            Ok((items, c)) => Ok(
                                (ValueModel::List { item_ty, items }, 5 + c),
                            ),
                            Err(e) => Err(e),
                        }
                    }
                },
            }
        },
        Ty::Struct => match dec_fields(b) {
            Ok((fields, c)) => Ok((ValueModel::Struct(fields), c)),
            Err(e) => Err(e),
        },
    }
}

/// Decoding of `n` consecutive list items of one type.
pub open spec fn dec_items(t: Ty, n: int, b: Seq<u8>) -> Result<(Seq<ValueModel>, int), Error>
    decreases b.len(), 2int, n,
{
    if n <= 0 {
        Ok((Seq::empty(), 0))
    } else {
        match dec_value(t, b) {
            Ok((m, c)) => if 0 <= c <= b.len() {
                match dec_items(t, n - 1, b.skip(c)) {
                    Ok((rest, c2)) => Ok((seq![m] + rest, c + c2)),
                    Err(e) => Err(e),
                }
            } else {
                Err(Error::DecodePrematureEnd)
            },
            Err(e) => Err(e),
        }
    }
}

/// Decoding of a struct's field sequence up to and including its stop
/// header, folded left to right onto `acc`: a later occurrence of a field
/// index overwrites an earlier one, and the result stays sorted by index.
pub open spec fn dec_fields_from(b: Seq<u8>, acc: Seq<(u8, ValueModel)>) -> Result<
    (Seq<(u8, ValueModel)>, int),
    Error,
>
    decreases b.len(), 0int, 0int,
{
    if b.len() < 2 {
        Err(Error::DecodePrematureEnd)
    } else {
        match spec_tag_ty(b[0]) {
            None => Err(Error::DecodeInvalidType),
            Some(Ty::Stop) => Ok((acc, 2)),
            Some(ft) => {
                let idx = b[1];
                match dec_value(ft, b.skip(2)) {
                    Ok((m, c)) => if 0 <= c <= b.len() - 2 {
                        match dec_fields_from(b.skip(2 + c), field_set(acc, idx, m)) {
                            Ok((fields, c2)) => Ok((fields, 2 + c + c2)),
                            Err(e) => Err(e),
                        }
                    } else {
                        Err(Error::DecodePrematureEnd)
                    },
                    Err(e) => Err(e),
                }
            },
        }
    }
}

/// Decoding of a struct's field sequence starting from no fields.
pub open spec fn dec_fields(b: Seq<u8>) -> Result<(Seq<(u8, ValueModel)>, int), Error>
    decreases b.len(), 0int, 1int,
{
    dec_fields_from(b, Seq::empty())
}

/// Skipping of a value body of the given wire type: the bytes one value of
/// that type occupies. `Any` and `Stop` occupy nothing: `Any` is tolerated
/// by the skip routine, and a struct's terminating header is consumed by
/// the field reader.
pub open spec fn spec_skip(t: Ty, b: Seq<u8>) -> Result<int, Error>
    decreases b.len(), 1int, 0int,
{
    match t {
        Ty::Any => Ok(0),
        Ty::Stop => Ok(0),
        Ty::I64 => if b.len() >= 8 {
            Ok(8)
        } else {
            Err(Error::DecodePrematureEnd)
        },
        Ty::F64 => if b.len() >= 8 {
            Ok(8)
        } else {
            Err(Error::DecodePrematureEnd)
        },
        Ty::Bytes => if b.len() >= 4 {
            let n = from_be32(b.take(4)) as int;
            if b.len() >= 4 + n {
                Ok(4 + n)
            } else {
                Err(Error::DecodePrematureEnd)
            }
        } else {
            Err(Error::DecodePrematureEnd)
        },
        Ty::List => if b.len() < 1 {
            Err(Error::DecodePrematureEnd)
        } else {
            match spec_tag_ty(b[0]) {
                None => Err(Error::DecodeInvalidType),
                Some(item_ty) => if b.len() < 5 {
                    Err(Error::DecodePrematureEnd)
                } else {
                    let n = from_be32(b.subrange(1, 5)) as int;
                    match spec_skip_items(item_ty, n, b.skip(5)) {
                        Ok(c) => Ok(5 + c),
                        Err(e) => Err(e),
                    }
                },
            }
        },
        Ty::Struct => spec_skip_fields(b),
    }
}

/// Skipping of `n` consecutive list items of one type.
pub open spec fn spec_skip_items(t: Ty, n: int, b: Seq<u8>) -> Result<int, Error>
    decreases b.len(), 2int, n,
{
    if n <= 0 {
        Ok(0)
    } else {
        match spec_skip(t, b) {
            Ok(c) => if 0 <= c <= b.len() {
                match spec_skip_items(t, n - 1, b.skip(c)) {
                    Ok(c2) => Ok(c + c2),
                    Err(e) => Err(e),
                }
            } else {
                Err(Error::DecodePrematureEnd)
            },
            Err(e) => Err(e),
        }
    }
}

/// Skipping of a struct's field sequence up to and including its stop
/// header.
pub open spec fn spec_skip_fields(b: Seq<u8>) -> Result<int, Error>
    decreases b.len(), 0int, 0int,
{
    if b.len() < 2 {
        Err(Error::DecodePrematureEnd)
    } else {
        match spec_tag_ty(b[0]) {
            None => Err(Error::DecodeInvalidType),
            Some(Ty::Stop) => Ok(2),
            Some(ft) => match spec_skip(ft, b.skip(2)) {
                Ok(c) => if 0 <= c <= b.len() - 2 {
                    match spec_skip_fields(b.skip(2 + c)) {
                        Ok(c2) => Ok(2 + c + c2),
                        Err(e) => Err(e),
                    }
                } else {
                    Err(Error::DecodePrematureEnd)
                },
                Err(e) => Err(e),
            },
        }
    }
}

/// Each item of a well-formed item sequence is well formed and has the
/// item type.
pub proof fn lemma_wf_items_at(items: Seq<ValueModel>, item_ty: Ty, j: int)
    requires
        wf_items(items, item_ty, 0),
        0 <= j < items.len(),
    ensures
        wf_value(items[j]),
        ty_of(items[j]) == item_ty,
{
    lemma_wf_items_walk(items, item_ty, 0, j);
}

proof fn lemma_wf_items_walk(items: Seq<ValueModel>, item_ty: Ty, i: int, j: int)
    requires
        wf_items(items, item_ty, i),
        0 <= i <= j < items.len(),
    ensures
        wf_value(items[j]),
        ty_of(items[j]) == item_ty,
    decreases j - i,
{
    if i < j {
        lemma_wf_items_walk(items, item_ty, i + 1, j);
    }
}

/// Each field value of a well-formed field sequence is well formed.
pub proof fn lemma_wf_fields_at(fields: Seq<(u8, ValueModel)>, j: int)
    requires
        wf_fields(fields, 0),
        0 <= j < fields.len(),
    ensures
        wf_value(fields[j].1),
{
    lemma_wf_fields_walk(fields, 0, j);
}

proof fn lemma_wf_fields_walk(fields: Seq<(u8, ValueModel)>, i: int, j: int)
    requires
        wf_fields(fields, i),
        0 <= i <= j < fields.len(),
    ensures
        wf_value(fields[j].1),
    decreases j - i,
{
    if i < j {
        lemma_wf_fields_walk(fields, i + 1, j);
    }
}

/// A successful decode consumes between zero bytes and the whole input.
pub proof fn lemma_dec_bounds(t: Ty, b: Seq<u8>)
    ensures
        dec_value(t, b) matches Ok((m, c)) ==> 0 <= c <= b.len(),
    decreases b.len(), 1int, 0int,
{
    match t {
        Ty::List => {
            if b.len() >= 5 && spec_tag_ty(b[0]) is Some {
                let item_ty = spec_tag_ty(b[0])->Some_0;
                let n = from_be32(b.subrange(1, 5)) as int;
                lemma_dec_items_bounds(item_ty, n, b.skip(5));
            }
        },
        Ty::Struct => {
            lemma_dec_fields_bounds(b, Seq::empty());
        },
        _ => {},
    }
}

/// A successful decode of `n` items consumes between zero bytes and the
/// whole input.
pub proof fn lemma_dec_items_bounds(t: Ty, n: int, b: Seq<u8>)
    ensures
        dec_items(t, n, b) matches Ok((ms, c)) ==> 0 <= c <= b.len(),
    decreases b.len(), 2int, n,
{
    if n > 0 {
        lemma_dec_bounds(t, b);
        match dec_value(t, b) {
            Ok((m, c)) => {
                if 0 <= c <= b.len() {
                    lemma_dec_items_bounds(t, n - 1, b.skip(c));
                }
            },
            Err(_) => {},
        }
    }
}

/// A successful decode of a field sequence consumes between two bytes and
/// the whole input.
pub proof fn lemma_dec_fields_bounds(b: Seq<u8>, acc: Seq<(u8, ValueModel)>)
    ensures
        dec_fields_from(b, acc) matches Ok((fs, c)) ==> 2 <= c <= b.len(),
    decreases b.len(), 0int, 0int,
{
    if b.len() >= 2 {
        match spec_tag_ty(b[0]) {
            None => {},
            Some(Ty::Stop) => {},
            Some(ft) => {
                lemma_dec_bounds(ft, b.skip(2));
                match dec_value(ft, b.skip(2)) {
                    Ok((m, c)) => {
                        if 0 <= c <= b.len() - 2 {
                            lemma_dec_fields_bounds(b.skip(2 + c), field_set(acc, b[1], m));
                        }
                    },
                    Err(_) => {},
                }
            },
        }
    }
}

/// A successful skip consumes between zero bytes and the whole input.
pub proof fn lemma_skip_bounds(t: Ty, b: Seq<u8>)
    ensures
        spec_skip(t, b) matches Ok(c) ==> 0 <= c <= b.len(),
    decreases b.len(), 1int, 0int,
{
    match t {
        Ty::List => {
            if b.len() >= 5 && spec_tag_ty(b[0]) is Some {
                let item_ty = spec_tag_ty(b[0])->Some_0;
                let n = from_be32(b.subrange(1, 5)) as int;
                lemma_skip_items_bounds(item_ty, n, b.skip(5));
            }
        },
        Ty::Struct => {
            lemma_skip_fields_bounds(b);
        },
        _ => {},
    }
}

/// A successful skip of `n` items consumes between zero bytes and the
/// whole input.
pub proof fn lemma_skip_items_bounds(t: Ty, n: int, b: Seq<u8>)
    ensures
        spec_skip_items(t, n, b) matches Ok(c) ==> 0 <= c <= b.len(),
    decreases b.len(), 2int, n,
{
    if n > 0 {
        lemma_skip_bounds(t, b);
        match spec_skip(t, b) {
            Ok(c) => {
                if 0 <= c <= b.len() {
                    lemma_skip_items_bounds(t, n - 1, b.skip(c));
                }
            },
            Err(_) => {},
        }
    }
}

/// A successful skip of a field sequence consumes between two bytes and
/// the whole input.
pub proof fn lemma_skip_fields_bounds(b: Seq<u8>)
    ensures
        spec_skip_fields(b) matches Ok(c) ==> 2 <= c <= b.len(),
    decreases b.len(), 0int, 0int,
{
    if b.len() >= 2 {
        match spec_tag_ty(b[0]) {
            None => {},
            Some(Ty::Stop) => {},
            Some(ft) => {
                lemma_skip_bounds(ft, b.skip(2));
                match spec_skip(ft, b.skip(2)) {
                    Ok(c) => {
                        if 0 <= c <= b.len() - 2 {
                            lemma_skip_fields_bounds(b.skip(2 + c));
                        }
                    },
                    Err(_) => {},
                }
            },
        }
    }
}

} // verus!
