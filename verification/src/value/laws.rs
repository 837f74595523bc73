//! Round-trip law of the wire value codec.

use crate::key::{be64, from_be64};
use crate::value::model::{
    be32, dec_fields, dec_fields_from, dec_items, dec_value, enc_fields, enc_items, enc_value,
    field_set, from_be32, lemma_from_be32_of_be32, ty_of, wf_fields, wf_items, wf_value,
    ValueModel,
};
use crate::value::{spec_tag_ty, spec_ty_tag, Error, Ty};
use vstd::prelude::*;

verus! {

/// A tag octet reads back as the type it was written for.
pub proof fn lemma_tag_round_trip(t: Ty)
    ensures
        spec_tag_ty(spec_ty_tag(t)) == Some(t),
{
}

/// The integer byte order round-trips through the wire.
proof fn lemma_i64_cast_round_trip(v: i64)
    ensures
        (v as u64) as i64 == v,
{
    assert((v as u64) as i64 == v) by (bit_vector);
}

/// Setting an index greater than every present index appends the field.
proof fn lemma_field_set_append(acc: Seq<(u8, ValueModel)>, idx: u8, v: ValueModel)
    requires
        forall|k: int| 0 <= k < acc.len() ==> (#[trigger] acc[k].0) < idx,
    ensures
        field_set(acc, idx, v) == acc.push((idx, v)),
    decreases acc.len(),
{
    if acc.len() == 0 {
        assert(field_set(acc, idx, v) =~= acc.push((idx, v)));
    } else {
        assert(forall|k: int|
            0 <= k < acc.skip(1).len() ==> (#[trigger] acc.skip(1)[k].0) < idx);
        lemma_field_set_append(acc.skip(1), idx, v);
        assert(field_set(acc, idx, v) =~= acc.push((idx, v)));
    }
}

/// Value round-trip: decoding the encoding of any well-formed value, with
/// anything at all appended after it, gives back exactly that value and
/// consumes exactly its encoding.
pub proof fn lemma_value_round_trip(v: ValueModel, rest: Seq<u8>)
    requires
        wf_value(v),
    ensures
        dec_value(ty_of(v), enc_value(v) + rest) == Ok::<(ValueModel, int), Error>(
            (v, enc_value(v).len() as int),
        ),
    decreases v,
{
    let b = enc_value(v) + rest;
    match v {
        ValueModel::I64(x) => {
            assert(b.take(8) =~= be64(x as u64));
            crate::key::lemma_from_be64_of_be64(x as u64);
            lemma_i64_cast_round_trip(x);
        },
        ValueModel::F64(bits) => {
            assert(b.take(8) =~= be64(bits));
            crate::key::lemma_from_be64_of_be64(bits);
        },
        ValueModel::Bytes(p) => {
            assert(b.take(4) =~= be32(p.len() as u32));
            lemma_from_be32_of_be32(p.len() as u32);
            assert(b.len() >= 4 + p.len());
            assert(b.subrange(4, 4 + p.len() as int) =~= p);
        },
        ValueModel::List { item_ty, items } => {
            assert(b[0] == spec_ty_tag(item_ty));
            lemma_tag_round_trip(item_ty);
            assert(b.subrange(1, 5) =~= be32(items.len() as u32));
            lemma_from_be32_of_be32(items.len() as u32);
            assert(b.skip(5) =~= enc_items(items, 0) + rest);
            lemma_items_round_trip(items, item_ty, 0, rest);
            assert(items.skip(0) =~= items);
            assert(dec_items(item_ty, items.len() as int, enc_items(items, 0) + rest) == Ok::<
                (Seq<ValueModel>, int),
                Error,
            >((items, enc_items(items, 0).len() as int)));
        },
        ValueModel::Struct(fields) => {
            lemma_fields_round_trip(fields, 0, rest);
            assert(fields.take(0) =~= Seq::<(u8, ValueModel)>::empty());
            assert(enc_value(v) =~= enc_fields(fields, 0) + seq![255u8, 255u8]);
            assert((enc_fields(fields, 0) + seq![255u8, 255u8]) + rest =~= enc_fields(fields, 0)
                + seq![255u8, 255u8] + rest);
        },
        ValueModel::Stop => {},
    }
}

/// Item-sequence round-trip: decoding the encodings of the items from
/// index `i` on recovers exactly those items.
pub proof fn lemma_items_round_trip(items: Seq<ValueModel>, item_ty: Ty, i: int, rest: Seq<u8>)
    requires
        0 <= i <= items.len(),
        wf_items(items, item_ty, i),
    ensures
        dec_items(item_ty, items.len() - i, enc_items(items, i) + rest) == Ok::<
            (Seq<ValueModel>, int),
            Error,
        >((items.skip(i), enc_items(items, i).len() as int)),
    decreases items, items.len() - i,
{
    if i == items.len() {
        assert(enc_items(items, i) =~= Seq::<u8>::empty());
        assert(items.skip(i) =~= Seq::<ValueModel>::empty());
    } else {
        let b = enc_items(items, i) + rest;
        assert(wf_value(items[i]));
        assert(ty_of(items[i]) == item_ty);
        assert(b =~= enc_value(items[i]) + (enc_items(items, i + 1) + rest));
        lemma_value_round_trip(items[i], enc_items(items, i + 1) + rest);
        let c = enc_value(items[i]).len() as int;
        assert(b.skip(c) =~= enc_items(items, i + 1) + rest);
        lemma_items_round_trip(items, item_ty, i + 1, rest);
        assert(seq![items[i]] + items.skip(i + 1) =~= items.skip(i));
    }
}

/// Field-sequence round-trip: decoding the encodings of the fields from
/// index `i` on, followed by the stop header, extends the first `i` fields
/// to exactly the whole field sequence.
#[verifier::rlimit(100)]
pub proof fn lemma_fields_round_trip(fields: Seq<(u8, ValueModel)>, i: int, rest: Seq<u8>)
    requires
        0 <= i <= fields.len(),
        forall|k: int| 0 <= k < fields.len() - 1 ==> (#[trigger] fields[k].0) < fields[k + 1].0,
        wf_fields(fields, i),
    ensures
        dec_fields_from(enc_fields(fields, i) + seq![255u8, 255u8] + rest, fields.take(i)) == Ok::<
            (Seq<(u8, ValueModel)>, int),
            Error,
        >((fields, enc_fields(fields, i).len() as int + 2)),
    decreases fields, fields.len() - i,
{
    let b = enc_fields(fields, i) + seq![255u8, 255u8] + rest;
    if i == fields.len() {
        assert(enc_fields(fields, i) =~= Seq::<u8>::empty());
        assert(b[0] == 255u8);
        assert(fields.take(i) =~= fields);
    } else {
        let (idx, fv) = fields[i];
        assert(wf_value(fv));
        assert(b[0] == spec_ty_tag(ty_of(fv)));
        assert(b[1] == idx);
        lemma_tag_round_trip(ty_of(fv));
        assert(ty_of(fv) != Ty::Stop);
        assert(b.skip(2) =~= enc_value(fv) + (enc_fields(fields, i + 1) + seq![255u8, 255u8]
            + rest));
        lemma_value_round_trip(fv, enc_fields(fields, i + 1) + seq![255u8, 255u8] + rest);
        let c = enc_value(fv).len() as int;
        assert(b.skip(2 + c) =~= enc_fields(fields, i + 1) + seq![255u8, 255u8] + rest);
        assert(forall|k: int| 0 <= k < i ==> (#[trigger] fields.take(i)[k]).0 == fields[k].0);
        assert(forall|k: int| 0 <= k < i ==> (#[trigger] fields[k].0) < idx) by {
            lemma_sorted_below(fields, i);
        }
        assert(forall|k: int| 0 <= k < fields.take(i).len() ==> (#[trigger] fields.take(i)[k].0)
            < idx);
        lemma_field_set_append(fields.take(i), idx, fv);
        assert(fields.take(i).push((idx, fv)) =~= fields.take(i + 1));
        lemma_fields_round_trip(fields, i + 1, rest);
    }
}

/// In a strictly index-sorted field sequence, every earlier index lies
/// below a later one.
proof fn lemma_sorted_below(fields: Seq<(u8, ValueModel)>, i: int)
    requires
        0 <= i < fields.len(),
        forall|k: int| 0 <= k < fields.len() - 1 ==> (#[trigger] fields[k].0) < fields[k + 1].0,
    ensures
        forall|k: int| 0 <= k < i ==> (#[trigger] fields[k].0) < fields[i].0,
{
    assert forall|k: int| 0 <= k < i implies (#[trigger] fields[k].0) < fields[i].0 by {
        lemma_sorted_pair(fields, k, i);
    }
}

proof fn lemma_sorted_pair(fields: Seq<(u8, ValueModel)>, k: int, i: int)
    requires
        0 <= k < i < fields.len(),
        forall|k2: int| 0 <= k2 < fields.len() - 1 ==> (#[trigger] fields[k2].0) < fields[k2
            + 1].0,
    ensures
        fields[k].0 < fields[i].0,
    decreases i - k,
{
    if k + 1 < i {
        lemma_sorted_pair(fields, k + 1, i);
    }
}

/// Struct round-trip, as the decoder's entry point sees it: decoding the
/// encoding of a well-formed struct value yields exactly its field
/// sequence.
pub proof fn lemma_struct_round_trip(fields: Seq<(u8, ValueModel)>, rest: Seq<u8>)
    requires
        wf_value(ValueModel::Struct(fields)),
    ensures
        dec_fields(enc_value(ValueModel::Struct(fields)) + rest) == Ok::<
            (Seq<(u8, ValueModel)>, int),
            Error,
        >((fields, enc_value(ValueModel::Struct(fields)).len() as int)),
{
    lemma_value_round_trip(ValueModel::Struct(fields), rest);
}

} // verus!
