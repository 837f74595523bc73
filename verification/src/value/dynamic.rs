//! Type-erased wire values: a tagged tree that round-trips unknown fields.

use crate::value::input::InputProtocol;
use crate::value::model::{
    dec_fields, dec_fields_from, dec_items, dec_value, enc_fields, enc_items, enc_value,
    field_get, field_set, from_be32, lemma_dec_bounds, lemma_dec_fields_bounds,
    lemma_wf_fields_at, lemma_wf_items_at, ty_of, wf_value, ValueModel,
};
use crate::value::output::OutProtocol;
use crate::value::{spec_tag_ty, spec_ty_tag, Error, Ty, Value};
use vstd::prelude::*;

verus! {

/// A dynamic wire value: the payload together with, for lists, the item
/// type tag read off the wire, which is written back verbatim. Floats are
/// carried as their IEEE-754 bit patterns.
#[derive(Debug)]
pub enum DynamicValue {
    I64(i64),
    F64(u64),
    Bytes(Box<Vec<u8>>),
    Struct(Box<DynamicStruct>),
    List { item_ty: Ty, items: Box<Vec<DynamicValue>> },
    Stop,
}

/// A dynamic struct: an ordered bag of dynamic values keyed by field
/// index, kept sorted by index. It preserves every field it sees.
#[derive(Debug)]
pub struct DynamicStruct {
    fields: Vec<(u8, DynamicValue)>,
}

/// The model of a dynamic value. The constructors give the model
/// directly; a struct's field sequence is its `model`.
pub open spec fn model_of(v: DynamicValue) -> ValueModel
    decreases v,
{
    match v {
        DynamicValue::I64(x) => ValueModel::I64(x),
        DynamicValue::F64(b) => ValueModel::F64(b),
        DynamicValue::Bytes(b) => ValueModel::Bytes(b@),
        DynamicValue::Struct(s) => ValueModel::Struct(s.model()),
        DynamicValue::List { item_ty, items } => ValueModel::List {
            item_ty,
            items: items_model(items@, 0),
        },
        DynamicValue::Stop => ValueModel::Stop,
    }
}

/// The models of the items of a list from index `i` on.
pub open spec fn items_model(s: Seq<DynamicValue>, i: int) -> Seq<ValueModel>
    decreases s, s.len() - i,
{
    if i < 0 || i >= s.len() {
        Seq::empty()
    } else {
        seq![model_of(s[i])] + items_model(s, i + 1)
    }
}

/// The models of the fields of a struct from index `i` on.
pub open spec fn fields_model(s: Seq<(u8, DynamicValue)>, i: int) -> Seq<(u8, ValueModel)>
    decreases s, s.len() - i,
{
    if i < 0 || i >= s.len() {
        Seq::empty()
    } else {
        seq![(s[i].0, model_of(s[i].1))] + fields_model(s, i + 1)
    }
}

/// Item models, pointwise.
pub proof fn lemma_items_model_index(s: Seq<DynamicValue>, i: int)
    requires
        0 <= i <= s.len(),
    ensures
        items_model(s, i).len() == s.len() - i,
        forall|j: int| i <= j < s.len() ==> items_model(s, i)[j - i] == model_of(#[trigger] s[j]),
    decreases s.len() - i,
{
    if i < s.len() {
        lemma_items_model_index(s, i + 1);
    }
}

/// Field models, pointwise.
pub proof fn lemma_fields_model_index(s: Seq<(u8, DynamicValue)>, i: int)
    requires
        0 <= i <= s.len(),
    ensures
        fields_model(s, i).len() == s.len() - i,
        forall|j: int|
            i <= j < s.len() ==> fields_model(s, i)[j - i] == ((#[trigger] s[j]).0, model_of(
                s[j].1,
            )),
    decreases s.len() - i,
{
    if i < s.len() {
        lemma_fields_model_index(s, i + 1);
    }
}

/// Item models, pointwise, triggered on the model side.
pub proof fn lemma_items_model_all(s: Seq<DynamicValue>)
    ensures
        items_model(s, 0).len() == s.len(),
        forall|j: int|
            0 <= j < s.len() ==> #[trigger] items_model(s, 0)[j] == model_of(s[j]),
{
    lemma_items_model_index(s, 0);
    assert forall|j: int| 0 <= j < s.len() implies #[trigger] items_model(s, 0)[j] == model_of(
        s[j],
    ) by {
        assert(items_model(s, 0)[j - 0] == model_of(s[j]));
    }
}

/// Field models, pointwise, triggered on the model side.
pub proof fn lemma_fields_model_all(s: Seq<(u8, DynamicValue)>)
    ensures
        fields_model(s, 0).len() == s.len(),
        forall|j: int|
            0 <= j < s.len() ==> #[trigger] fields_model(s, 0)[j] == (s[j].0, model_of(s[j].1)),
{
    lemma_fields_model_index(s, 0);
    assert forall|j: int| 0 <= j < s.len() implies #[trigger] fields_model(s, 0)[j] == (
    s[j].0,
    model_of(s[j].1),
    ) by {
        assert(fields_model(s, 0)[j - 0] == (s[j].0, model_of(s[j].1)));
    }
}

/// Structural size of a dynamic value, used as the termination measure of
/// the encoder.
pub closed spec fn size_of(v: DynamicValue) -> nat
    decreases v,
{
    match v {
        DynamicValue::I64(_) => 1,
        DynamicValue::F64(_) => 1,
        DynamicValue::Bytes(_) => 1,
        DynamicValue::Struct(st) => 1 + fsizes_of(st.fields@, 0),
        DynamicValue::List { item_ty, items } => 1 + sizes_of(items@, 0),
        DynamicValue::Stop => 1,
    }
}

/// Total size of the items of a list from index `i` on.
pub open spec fn sizes_of(s: Seq<DynamicValue>, i: int) -> nat
    decreases s, s.len() - i,
{
    if i < 0 || i >= s.len() {
        0
    } else {
        1 + size_of(s[i]) + sizes_of(s, i + 1)
    }
}

/// Total size of the fields of a struct from index `i` on.
pub open spec fn fsizes_of(s: Seq<(u8, DynamicValue)>, i: int) -> nat
    decreases s, s.len() - i,
{
    if i < 0 || i >= s.len() {
        0
    } else {
        1 + size_of(s[i].1) + fsizes_of(s, i + 1)
    }
}

/// Each item counts toward the total item size.
pub proof fn lemma_sizes_of_at(s: Seq<DynamicValue>, j: int)
    requires
        0 <= j < s.len(),
    ensures
        size_of(s[j]) < sizes_of(s, 0),
{
    lemma_sizes_of_walk(s, 0, j);
}

proof fn lemma_sizes_of_walk(s: Seq<DynamicValue>, i: int, j: int)
    requires
        0 <= i <= j < s.len(),
    ensures
        size_of(s[j]) < sizes_of(s, i),
    decreases j - i,
{
    if i < j {
        lemma_sizes_of_walk(s, i + 1, j);
    }
}

/// Each field's value counts toward the total field size.
pub proof fn lemma_fsizes_of_at(s: Seq<(u8, DynamicValue)>, j: int)
    requires
        0 <= j < s.len(),
    ensures
        size_of(s[j].1) < fsizes_of(s, 0),
{
    lemma_fsizes_of_walk(s, 0, j);
}

proof fn lemma_fsizes_of_walk(s: Seq<(u8, DynamicValue)>, i: int, j: int)
    requires
        0 <= i <= j < s.len(),
    ensures
        size_of(s[j].1) < fsizes_of(s, i),
    decreases j - i,
{
    if i < j {
        lemma_fsizes_of_walk(s, i + 1, j);
    }
}

/// A field sequence strictly sorted by index.
pub open spec fn fields_sorted(fs: Seq<(u8, ValueModel)>) -> bool {
    forall|k: int| 0 <= k < fs.len() - 1 ==> (#[trigger] fs[k].0) < fs[k + 1].0
}

/// Setting a field keeps a sorted field sequence sorted.
pub proof fn lemma_field_set_sorted(fs: Seq<(u8, ValueModel)>, i: u8, v: ValueModel)
    requires
        fields_sorted(fs),
    ensures
        fields_sorted(field_set(fs, i, v)),
        field_set(fs, i, v).len() <= fs.len() + 1,
    decreases fs.len(),
{
    if fs.len() == 0 {
    } else if i < fs[0].0 {
        let r = seq![(i, v)] + fs;
        assert(forall|k: int| 0 <= k < r.len() - 1 ==> (#[trigger] r[k].0) < r[k + 1].0);
    } else if i == fs[0].0 {
        let r = seq![(i, v)] + fs.skip(1);
        assert(forall|k: int| 0 <= k < r.len() - 1 ==> (#[trigger] r[k].0) < r[k + 1].0);
    } else {
        assert(fields_sorted(fs.skip(1))) by {
            assert(forall|k: int|
                0 <= k < fs.skip(1).len() - 1 ==> (#[trigger] fs.skip(1)[k].0) < fs.skip(1)[k
                    + 1].0);
        }
        lemma_field_set_sorted(fs.skip(1), i, v);
        let r = seq![fs[0]] + field_set(fs.skip(1), i, v);
        assert(field_set(fs.skip(1), i, v).len() > 0);
        assert(r[1].0 == field_set(fs.skip(1), i, v)[0].0);
        assert(field_set(fs.skip(1), i, v)[0].0 == (if fs.len() == 1 {
            i
        } else if i <= fs[1].0 {
            (if i < fs[1].0 {
                i
            } else {
                i
            })
        } else {
            fs[1].0
        }));
        assert(r[0].0 < r[1].0);
        assert(forall|k: int| 0 <= k < r.len() - 1 ==> (#[trigger] r[k].0) < r[k + 1].0);
    }
}

/// In a sorted field sequence whose first `k` indices lie below `i`,
/// setting and reading field `i` happen at position `k`.
#[verifier::rlimit(100)]
pub proof fn lemma_field_set_at(fs: Seq<(u8, ValueModel)>, k: int, i: u8, v: ValueModel)
    requires
        fields_sorted(fs),
        0 <= k <= fs.len(),
        forall|j: int| 0 <= j < k ==> (#[trigger] fs[j].0) < i,
        k < fs.len() ==> fs[k].0 >= i,
    ensures
        (k < fs.len() && fs[k].0 == i) ==> {
            &&& field_set(fs, i, v) == fs.take(k) + seq![(i, v)] + fs.skip(k + 1)
            &&& field_get(fs, i) == Some(fs[k].1)
        },
        !(k < fs.len() && fs[k].0 == i) ==> {
            &&& field_set(fs, i, v) == fs.take(k) + seq![(i, v)] + fs.skip(k)
            &&& field_get(fs, i) is None
        },
    decreases fs.len(),
{
    if fs.len() == 0 {
        assert(field_set(fs, i, v) =~= fs.take(0) + seq![(i, v)] + fs.skip(0));
    } else if k == 0 {
        if fs[0].0 == i {
            assert(field_set(fs, i, v) =~= fs.take(0) + seq![(i, v)] + fs.skip(1));
        } else {
            assert(fs[0].0 > i);
            assert(field_set(fs, i, v) =~= fs.take(0) + seq![(i, v)] + fs.skip(0));
            assert(field_get(fs, i) is None) by {
                lemma_field_get_absent(fs, i);
            }
        }
    } else {
        assert(fields_sorted(fs.skip(1))) by {
            assert(forall|kk: int|
                0 <= kk < fs.skip(1).len() - 1 ==> (#[trigger] fs.skip(1)[kk].0) < fs.skip(1)[kk
                    + 1].0);
        }
        assert(forall|j: int| 0 <= j < k - 1 ==> (#[trigger] fs.skip(1)[j].0) < i);
        lemma_field_set_at(fs.skip(1), k - 1, i, v);
        assert(fs[0].0 < i);
        if k < fs.len() && fs[k].0 == i {
            assert(fs.skip(1)[k - 1].0 == i);
            assert(field_set(fs, i, v) == seq![fs[0]] + field_set(fs.skip(1), i, v));
            assert(field_set(fs, i, v) =~= fs.take(k) + seq![(i, v)] + fs.skip(k + 1));
            assert(field_get(fs, i) == field_get(fs.skip(1), i));
            assert(fs.skip(1)[k - 1].1 == fs[k].1);
        } else {
            assert(field_set(fs, i, v) == seq![fs[0]] + field_set(fs.skip(1), i, v));
            assert(field_set(fs, i, v) =~= fs.take(k) + seq![(i, v)] + fs.skip(k));
            assert(field_get(fs, i) == field_get(fs.skip(1), i));
        }
    }
}

/// In a sorted field sequence whose head index already exceeds `i`, the
/// index is absent.
pub proof fn lemma_field_get_absent(fs: Seq<(u8, ValueModel)>, i: u8)
    requires
        fields_sorted(fs),
        fs.len() > 0 ==> fs[0].0 > i,
    ensures
        field_get(fs, i) is None,
    decreases fs.len(),
{
    if fs.len() > 0 {
        assert(fields_sorted(fs.skip(1))) by {
            assert(forall|kk: int|
                0 <= kk < fs.skip(1).len() - 1 ==> (#[trigger] fs.skip(1)[kk].0) < fs.skip(1)[kk
                    + 1].0);
        }
        if fs.len() > 1 {
            assert(fs.skip(1)[0].0 == fs[1].0);
            assert(fs[0].0 < fs[1].0);
        }
        lemma_field_get_absent(fs.skip(1), i);
    }
}

impl DynamicStruct {
    /// The model of this struct: its field sequence.
    pub closed spec fn model(&self) -> Seq<(u8, ValueModel)>
        decreases self,
    {
        fields_model(self.fields@, 0)
    }

    /// Structural size, the termination measure of the encoder.
    pub closed spec fn struct_size(&self) -> nat {
        fsizes_of(self.fields@, 0)
    }

    /// The field sequence is strictly sorted by index.
    pub open spec fn wf(&self) -> bool {
        fields_sorted(self.model())
    }

    /// Sets a field, returning the value previously held at that index, if
    /// any.
    pub fn insert(&mut self, index: u8, value: DynamicValue) -> (r: Option<DynamicValue>)
        requires
            old(self).wf(),
        ensures
            final(self).wf(),
            final(self).model() == field_set(old(self).model(), index, model_of(value)),
            match r {
                Some(prev) => field_get(old(self).model(), index) == Some(model_of(prev)),
                None => field_get(old(self).model(), index) is None,
            },
    {
        proof {
            lemma_fields_model_all(self.fields@);
        }
        let mut k: usize = 0;
        while k < self.fields.len() && self.fields[k].0 < index
            invariant
                0 <= k <= self.fields@.len(),
                forall|j: int| 0 <= j < k ==> (#[trigger] self.fields@[j]).0 < index,
                *self == *old(self),
            decreases self.fields@.len() - k,
        {
            k += 1;
        }
        proof {
            lemma_fields_model_all(self.fields@);
            assert forall|j: int| 0 <= j < k implies (#[trigger] old(self).model()[j]).0
                < index by {
                assert(old(self).fields@[j].0 < index);
                assert(old(self).model()[j] == (old(self).fields@[j].0, model_of(
                    old(self).fields@[j].1,
                )));
            }
            if k < self.fields@.len() {
                assert(old(self).model()[k as int] == (old(self).fields@[k as int].0, model_of(
                    old(self).fields@[k as int].1,
                )));
            }
            lemma_field_set_at(old(self).model(), k as int, index, model_of(value));
            lemma_field_set_sorted(old(self).model(), index, model_of(value));
        }
        if k < self.fields.len() && self.fields[k].0 == index {
            let prev = self.fields.remove(k);
            self.fields.insert(k, (index, value));
            proof {
                assert(self.fields@ =~= old(self).fields@.update(k as int, (index, value)));
                lemma_fields_model_all(self.fields@);
                lemma_fields_model_all(old(self).fields@);
                assert(self.model() =~= old(self).model().take(k as int) + seq![
                    (index, model_of(value)),
                ] + old(self).model().skip(k as int + 1));
            }
            Some(prev.1)
        } else {
            self.fields.insert(k, (index, value));
            proof {
                assert(self.fields@ =~= old(self).fields@.insert(k as int, (index, value)));
                lemma_fields_model_all(self.fields@);
                lemma_fields_model_all(old(self).fields@);
                assert(self.model() =~= old(self).model().take(k as int) + seq![
                    (index, model_of(value)),
                ] + old(self).model().skip(k as int));
            }
            None
        }
    }
}

impl Default for DynamicStruct {
    /// An empty dynamic struct.
    fn default() -> (r: Self)
        ensures
            r.model() == Seq::<(u8, ValueModel)>::empty(),
            r.wf(),
    {
        DynamicStruct { fields: Vec::new() }
    }
}

/// The starting value decoding begins from, for each wire type that has
/// one; `Any` is not a value type and has none.
pub open spec fn default_model(ty: Ty) -> ValueModel {
    match ty {
        Ty::I64 => ValueModel::I64(0),
        Ty::F64 => ValueModel::F64(0),
        Ty::Bytes => ValueModel::Bytes(Seq::empty()),
        Ty::List => ValueModel::List { item_ty: Ty::Any, items: Seq::empty() },
        Ty::Struct => ValueModel::Struct(Seq::empty()),
        Ty::Stop => ValueModel::Stop,
        Ty::Any => ValueModel::Stop,
    }
}

impl DynamicValue {
    /// The wire type of this value.
    pub open spec fn spec_ty(&self) -> Ty {
        match self {
            DynamicValue::I64(_) => Ty::I64,
            DynamicValue::F64(_) => Ty::F64,
            DynamicValue::Bytes(_) => Ty::Bytes,
            DynamicValue::Struct(_) => Ty::Struct,
            DynamicValue::List { .. } => Ty::List,
            DynamicValue::Stop => Ty::Stop,
        }
    }

    /// The starting value for decoding a value of the given wire type.
    /// `Any` has no value form.
    pub fn default_for_ty(ty: Ty) -> (r: Self)
        requires
            !(ty is Any),
        ensures
            model_of(r) == default_model(ty),
            r.spec_ty() == ty,
    {
        match ty {
            Ty::I64 => Self::I64(0),
            Ty::F64 => Self::F64(0),
            Ty::Bytes => Self::Bytes(Box::new(Vec::new())),
            Ty::List => {
                let r = Self::List { item_ty: Ty::Any, items: Box::new(Vec::new()) };
                proof {
                    let items: Seq<DynamicValue> = Seq::empty();
                    assert(items_model(items, 0) =~= Seq::<ValueModel>::empty());
                }
                r
            },
            Ty::Struct => {
                let r = Self::Struct(Box::new(DynamicStruct::default()));
                proof {
                    let fields: Seq<(u8, DynamicValue)> = Seq::empty();
                    assert(fields_model(fields, 0) =~= Seq::<(u8, ValueModel)>::empty());
                }
                r
            },
            Ty::Stop | Ty::Any => Self::Stop,
        }
    }
}

/// The wire type of a dynamic value's model is the value's own.
pub proof fn lemma_spec_ty(v: DynamicValue)
    ensures
        ty_of(model_of(v)) == v.spec_ty(),
{
}

impl DynamicValue {
    /// The wire type of this value.
    pub fn wire_ty(&self) -> (t: Ty)
        ensures
            t == self.spec_ty(),
    {
        match self {
            DynamicValue::I64(_) => Ty::I64,
            DynamicValue::F64(_) => Ty::F64,
            DynamicValue::Bytes(_) => Ty::Bytes,
            DynamicValue::Struct(_) => Ty::Struct,
            DynamicValue::List { .. } => Ty::List,
            DynamicValue::Stop => Ty::Stop,
        }
    }

    /// Decodes a value of this value's wire type from the input, replacing
    /// `self` with the result. The value decoded is exactly what the
    /// decoding specification gives for that type on the remaining input.
    #[verifier::rlimit(80)]
    pub fn decode_from(&mut self, input: &mut InputProtocol<'_>) -> (r: Result<(), Error>)
        requires
            old(input).wf(),
        ensures
            final(input).wf(),
            final(input).data() == old(input).data(),
            final(input).pos_spec() >= old(input).pos_spec(),
            match dec_value(old(self).spec_ty(), old(input).remaining()) {
                Ok((m, c)) => {
                    &&& r is Ok
                    &&& model_of(*final(self)) == m
                    &&& final(input).pos_spec() == old(input).pos_spec() + c
                },
                Err(e) => r == Err::<(), Error>(e),
            },
        decreases old(input).remaining().len(), 1int,
    {
        let t = self.wire_ty();
        match t {
            Ty::Any => Err(Error::DecodeInvalidType),
            Ty::Stop => Ok(()),
            Ty::I64 => {
                let v = input.read_i64()?;
                *self = DynamicValue::I64(v);
                Ok(())
            },
            Ty::F64 => {
                let v = input.read_f64()?;
                *self = DynamicValue::F64(v);
                Ok(())
            },
            Ty::Bytes => {
                let b = input.read_bytes()?;
                *self = DynamicValue::Bytes(Box::new(vstd::slice::slice_to_vec(b)));
                Ok(())
            },
            Ty::Struct => {
                let mut st = DynamicStruct::default();
                let res = st.decode_from(input);
                match res {
                    Ok(()) => {
                        *self = DynamicValue::Struct(Box::new(st));
                        Ok(())
                    },
                    Err(e) => Err(e),
                }
            },
            Ty::List => {
                let ghost rem0 = old(input).remaining();
                let (item_ty_input, item_len) = input.read_list_header()?;
                if matches!(item_ty_input, Ty::Any) && item_len > 0 {
                    return Err(Error::DecodeInvalidType);
                }
                let ghost rem1 = input.remaining();
                proof {
                    assert(rem1 =~= rem0.skip(5));
                }
                let mut items: Vec<DynamicValue> = Vec::new();
                let mut i: u32 = 0;
                proof {
                    lemma_items_model_all(items@);
                    assert(items_model(items@, 0) =~= Seq::<ValueModel>::empty());
                }
                while i < item_len
                    invariant
                        old(self).spec_ty() is List,
                        0 <= i <= item_len,
                        input.wf(),
                        old(input).wf(),
                        input.data() == old(input).data(),
                        rem0 == old(input).remaining(),
                        rem0.len() >= 5,
                        spec_tag_ty(rem0[0]) == Some(item_ty_input),
                        item_len == from_be32(rem0.subrange(1, 5)),
                        item_len > 0 ==> !(item_ty_input is Any),
                        rem1 == rem0.skip(5),
                        input.remaining().len() <= rem1.len(),
                        input.pos_spec() >= old(input).pos_spec() + 5,
                        items@.len() == i,
                        dec_items(item_ty_input, item_len as int, rem1) == (match dec_items(
                            item_ty_input,
                            item_len - i,
                            input.remaining(),
                        ) {
                            Ok((rest, c2)) => Ok::<(Seq<ValueModel>, int), Error>(
                                (
                                    items_model(items@, 0) + rest,
                                    input.pos_spec() - (old(input).pos_spec() + 5) + c2,
                                ),
                            ),
                            Err(e) => Err::<(Seq<ValueModel>, int), Error>(e),
                        }),
                    decreases item_len - i,
                {
                    let ghost pre = *input;
                    let ghost items_pre = items@;
                    let mut v = DynamicValue::default_for_ty(item_ty_input);
                    let step = v.decode_from(input);
                    proof {
                        lemma_dec_bounds(item_ty_input, pre.remaining());
                        if step is Err {
                            let e = step->Err_0;
                            assert(dec_value(item_ty_input, pre.remaining()) == Err::<
                                (ValueModel, int),
                                Error,
                            >(e));
                            assert(dec_items(item_ty_input, item_len - i, pre.remaining())
                                == Err::<(Seq<ValueModel>, int), Error>(e));
                            assert(dec_items(item_ty_input, item_len as int, rem1) == Err::<
                                (Seq<ValueModel>, int),
                                Error,
                            >(e));
                            assert(dec_value(Ty::List, rem0) == Err::<(ValueModel, int), Error>(
                                e,
                            ));
                        }
                    }
                    match step {
                        Ok(()) => {},
                        Err(e) => {
                            return Err(e);
                        },
                    }
                    items.push(v);
                    proof {
                        let (m, c) = dec_value(item_ty_input, pre.remaining())->Ok_0;
                        assert(input.remaining() =~= pre.remaining().skip(c));
                        lemma_items_model_all(items_pre);
                        lemma_items_model_all(items@);
                        assert(items@ =~= items_pre.push(v));
                        assert(items_model(items@, 0) =~= items_model(items_pre, 0).push(
                            model_of(v),
                        ));
                        assert(dec_items(item_ty_input, item_len - i, pre.remaining()) == (
                        match dec_items(item_ty_input, item_len - i - 1, input.remaining()) {
                            Ok((rest, c2)) => Ok::<(Seq<ValueModel>, int), Error>(
                                (seq![m] + rest, c + c2),
                            ),
                            Err(e) => Err::<(Seq<ValueModel>, int), Error>(e),
                        }));
                        assert forall|rest: Seq<ValueModel>|
                            items_model(items_pre, 0).push(model_of(v)) + rest == items_model(
                                items_pre,
                                0,
                            ) + (seq![m] + rest) by {
                            assert(items_model(items_pre, 0).push(model_of(v)) + rest
                                =~= items_model(items_pre, 0) + (seq![m] + rest));
                        }
                    }
                    i += 1;
                }
                proof {
                    assert(dec_items(item_ty_input, 0, input.remaining()) == Ok::<
                        (Seq<ValueModel>, int),
                        Error,
                    >((Seq::empty(), 0)));
                    assert(items_model(items@, 0) + Seq::<ValueModel>::empty() =~= items_model(
                        items@,
                        0,
                    ));
                    assert(dec_value(Ty::List, rem0) == (match dec_items(
                        item_ty_input,
                        item_len as int,
                        rem1,
                    ) {
                        Ok((ms, c)) => Ok::<(ValueModel, int), Error>(
                            (ValueModel::List { item_ty: item_ty_input, items: ms }, 5 + c),
                        ),
                        Err(e) => Err::<(ValueModel, int), Error>(e),
                    }));
                }
                *self = DynamicValue::List { item_ty: item_ty_input, items: Box::new(items) };
                Ok(())
            },
        }
    }

    /// Appends the encoding of this value to the output. For a value
    /// within the well-formed fragment the bytes appended are exactly the
    /// encoding specification's; an oversized payload is skipped.
    pub fn encode_to(&self, output: &mut OutProtocol)
        ensures
            wf_value(model_of(*self)) ==> final(output)@ == old(output)@ + enc_value(
                model_of(*self),
            ),
        decreases size_of(*self),
    {
        match self {
            DynamicValue::I64(v) => {
                output.write_i64(*v);
            },
            DynamicValue::F64(b) => {
                output.write_f64(*b);
            },
            DynamicValue::Bytes(b) => {
                if b.len() > u32::MAX as usize {
                    return ;
                }
                output.write_bytes(b.as_slice());
            },
            DynamicValue::Struct(st) => {
                st.encode_to(output);
            },
            DynamicValue::List { item_ty, items } => {
                if items.len() > u32::MAX as usize {
                    proof {
                        lemma_items_model_all(items@);
                    }
                    return ;
                }
                let n = items.len() as u32;
                output.write_list_header(*item_ty, n);
                let ghost ms = items_model(items@, 0);
                let ghost base = output@;
                proof {
                    lemma_items_model_all(items@);
                    assert(enc_items(ms, n as int) =~= Seq::<u8>::empty());
                }
                let mut j: usize = 0;
                while j < items.len()
                    invariant
                        0 <= j <= items@.len(),
                        items@.len() == n,
                        ms == items_model(items@, 0),
                        ms.len() == n,
                        wf_value(model_of(*self)) ==> model_of(*self) == (ValueModel::List {
                            item_ty: *item_ty,
                            items: ms,
                        }),
                        forall|jj: int|
                            0 <= jj < items@.len() ==> #[trigger] items_model(items@, 0)[jj]
                                == model_of(items@[jj]),
                        wf_value(model_of(*self)) ==> output@ + enc_items(ms, j as int) == base
                            + enc_items(ms, 0),
                        size_of(*self) == 1 + sizes_of(items@, 0),
                    decreases items@.len() - j,
                {
                    let ghost out_pre = output@;
                    proof {
                        if wf_value(model_of(*self)) {
                            lemma_wf_items_at(ms, *item_ty, j as int);
                            assert(wf_value(model_of(items@[j as int])));
                        }
                        lemma_sizes_of_at(items@, j as int);
                        assert(size_of(items@[j as int]) < size_of(*self));
                    }
                    items[j].encode_to(output);
                    proof {
                        if wf_value(model_of(*self)) {
                            assert(enc_items(ms, j as int) == enc_value(ms[j as int]) + enc_items(
                                ms,
                                j + 1,
                            ));
                            assert(output@ + enc_items(ms, j + 1) =~= base + enc_items(ms, 0));
                        }
                    }
                    j += 1;
                }
                proof {
                    if wf_value(model_of(*self)) {
                        assert(output@ =~= base + enc_items(ms, 0));
                        assert(final(output)@ =~= old(output)@ + enc_value(model_of(*self)));
                    }
                }
            },
            DynamicValue::Stop => {},
        }
    }
}

impl DynamicStruct {
    /// Decodes a struct's field sequence from the input, replacing the
    /// contents of `self`. Every field seen is preserved; a later
    /// occurrence of an index overwrites an earlier one.
    #[verifier::rlimit(60)]
    pub fn decode_from(&mut self, input: &mut InputProtocol<'_>) -> (r: Result<(), Error>)
        requires
            old(input).wf(),
        ensures
            final(input).wf(),
            final(input).data() == old(input).data(),
            final(input).pos_spec() >= old(input).pos_spec(),
            match dec_fields(old(input).remaining()) {
                Ok((fs, c)) => {
                    &&& r is Ok
                    &&& final(self).wf()
                    &&& final(self).model() == fs
                    &&& final(input).pos_spec() == old(input).pos_spec() + c
                },
                Err(e) => r == Err::<(), Error>(e),
            },
        decreases old(input).remaining().len(), 0int,
    {
        let ghost rem0 = old(input).remaining();
        let mut st = DynamicStruct::default();
        let mut done = false;
        while !done
            invariant
                input.wf(),
                old(input).wf(),
                input.data() == old(input).data(),
                input.remaining().len() <= rem0.len(),
                rem0 == old(input).remaining(),
                input.pos_spec() >= old(input).pos_spec(),
                st.wf(),
                !done ==> dec_fields(rem0) == (match dec_fields_from(input.remaining(), st.model())
                    {
                    Ok((fs, c2)) => Ok::<(Seq<(u8, ValueModel)>, int), Error>(
                        (fs, input.pos_spec() - old(input).pos_spec() + c2),
                    ),
                    Err(e) => Err::<(Seq<(u8, ValueModel)>, int), Error>(e),
                }),
                done ==> (dec_fields(rem0) matches Ok((fs, c)) && st.model() == fs
                    && input.pos_spec() == old(input).pos_spec() + c),
            decreases input.remaining().len(), (if done {
                0int
            } else {
                1int
            }),
        {
            let ghost pre = *input;
            let header = input.read_non_stop_field();
            match header {
                Err(e) => {
                    proof {
                        assert(dec_fields_from(pre.remaining(), st.model()) == Err::<
                            (Seq<(u8, ValueModel)>, int),
                            Error,
                        >(e));
                    }
                    return Err(e);
                },
                Ok(None) => {
                    proof {
                        assert(dec_fields_from(pre.remaining(), st.model()) == Ok::<
                            (Seq<(u8, ValueModel)>, int),
                            Error,
                        >((st.model(), 2)));
                    }
                    done = true;
                },
                Ok(Some((t, index))) => {
                    proof {
                        assert(input.remaining() =~= pre.remaining().skip(2));
                    }
                    if matches!(t, Ty::Any) {
                        proof {
                            assert(dec_value(Ty::Any, pre.remaining().skip(2)) == Err::<
                                (ValueModel, int),
                                Error,
                            >(Error::DecodeInvalidType));
                            assert(dec_fields_from(pre.remaining(), st.model()) == Err::<
                                (Seq<(u8, ValueModel)>, int),
                                Error,
                            >(Error::DecodeInvalidType));
                        }
                        return Err(Error::DecodeInvalidType);
                    }
                    let ghost mid = *input;
                    let mut v = DynamicValue::default_for_ty(t);
                    let step = v.decode_from(input);
                    proof {
                        lemma_dec_bounds(t, mid.remaining());
                        if step is Err {
                            let e = step->Err_0;
                            assert(dec_value(t, mid.remaining()) == Err::<(ValueModel, int), Error>(
                                e,
                            ));
                            assert(dec_fields_from(pre.remaining(), st.model()) == Err::<
                                (Seq<(u8, ValueModel)>, int),
                                Error,
                            >(e));
                        }
                    }
                    match step {
                        Ok(()) => {},
                        Err(e) => {
                            return Err(e);
                        },
                    }
                    let ghost acc_pre = st.model();
                    st.insert(index, v);
                    proof {
                        let (m, c) = dec_value(t, mid.remaining())->Ok_0;
                        assert(input.remaining() =~= pre.remaining().skip(2 + c));
                        assert(st.model() == field_set(acc_pre, index, m));
                        assert(dec_fields_from(pre.remaining(), acc_pre) == (
                        match dec_fields_from(input.remaining(), st.model()) {
                            Ok((fs, c2)) => Ok::<(Seq<(u8, ValueModel)>, int), Error>(
                                (fs, 2 + c + c2),
                            ),
                            Err(e) => Err::<(Seq<(u8, ValueModel)>, int), Error>(e),
                        }));
                    }
                },
            }
        }
        *self = st;
        Ok(())
    }

    /// Appends the encoding of this struct's fields, terminated by the
    /// stop header, to the output. For a struct within the well-formed
    /// fragment the bytes appended are exactly the encoding
    /// specification's.
    #[verifier::rlimit(100)]
    pub fn encode_to(&self, output: &mut OutProtocol)
        ensures
            wf_value(ValueModel::Struct(self.model())) ==> final(output)@ == old(output)@
                + enc_fields(self.model(), 0) + seq![255u8, 255u8],
        decreases self.struct_size(),
    {
        let ghost fs = self.model();
        let ghost base = output@;
        proof {
            lemma_fields_model_all(self.fields@);
            assert(enc_fields(fs, fs.len() as int) =~= Seq::<u8>::empty());
        }
        let mut j: usize = 0;
        while j < self.fields.len()
            invariant
                0 <= j <= self.fields@.len(),
                fs == self.model(),
                fs == fields_model(self.fields@, 0),
                fs.len() == self.fields@.len(),
                forall|jj: int|
                    0 <= jj < self.fields@.len() ==> #[trigger] fields_model(self.fields@, 0)[jj]
                        == (self.fields@[jj].0, model_of(self.fields@[jj].1)),
                wf_value(ValueModel::Struct(fs)) ==> output@ + enc_fields(fs, j as int) == base
                    + enc_fields(fs, 0),
            decreases self.fields@.len() - j,
        {
            proof {
                if wf_value(ValueModel::Struct(fs)) {
                    lemma_wf_fields_at(fs, j as int);
                    assert(fs[j as int] == (self.fields@[j as int].0, model_of(
                        self.fields@[j as int].1,
                    )));
                    assert(wf_value(model_of(self.fields@[j as int].1)));
                }
            }
            let entry_ty = self.fields[j].1.wire_ty();
            proof {
                lemma_spec_ty(self.fields@[j as int].1);
            }
            proof {
                lemma_fsizes_of_at(self.fields@, j as int);
            }
            output.write_field_header(entry_ty, self.fields[j].0);
            self.fields[j].1.encode_to(output);
            proof {
                if wf_value(ValueModel::Struct(fs)) {
                    assert(enc_fields(fs, j as int) == seq![
                        spec_ty_tag(ty_of(fs[j as int].1)),
                        fs[j as int].0,
                    ] + enc_value(fs[j as int].1) + enc_fields(fs, j + 1));
                    assert(output@ + enc_fields(fs, j + 1) =~= base + enc_fields(fs, 0));
                }
            }
            j += 1;
        }
        output.write_stop();
        proof {
            if wf_value(ValueModel::Struct(fs)) {
                assert(final(output)@ =~= old(output)@ + enc_fields(fs, 0) + seq![255u8, 255u8]);
            }
        }
    }
}

impl Value for DynamicValue {
    /// A well-formed dynamic value encodes to its model's encoding.
    open spec fn enc_ready(&self) -> bool {
        wf_value(model_of(*self))
    }

    open spec fn spec_enc(&self) -> Seq<u8> {
        enc_value(model_of(*self))
    }

    fn ty(&self) -> Ty {
        self.wire_ty()
    }

    fn from_input(&mut self, input: &mut InputProtocol<'_>) -> (r: Result<(), Error>) {
        let res = self.decode_from(input);
        proof {
            lemma_dec_bounds(old(self).spec_ty(), old(input).remaining());
        }
        res
    }

    fn to_output(&self, output: &mut OutProtocol) {
        self.encode_to(output);
    }
}

impl Value for DynamicStruct {
    /// A well-formed dynamic struct encodes to its field sequence's
    /// encoding.
    open spec fn enc_ready(&self) -> bool {
        wf_value(ValueModel::Struct(self.model()))
    }

    open spec fn spec_enc(&self) -> Seq<u8> {
        enc_value(ValueModel::Struct(self.model()))
    }

    fn ty(&self) -> Ty {
        Ty::Struct
    }

    fn from_input(&mut self, input: &mut InputProtocol<'_>) -> (r: Result<(), Error>) {
        let res = self.decode_from(input);
        proof {
            lemma_dec_fields_bounds(old(input).remaining(), Seq::empty());
        }
        res
    }

    fn to_output(&self, output: &mut OutProtocol) {
        self.encode_to(output);
        proof {
            if wf_value(ValueModel::Struct(self.model())) {
                assert(old(output)@ + enc_fields(self.model(), 0) + seq![255u8, 255u8]
                    =~= old(output)@ + (enc_fields(self.model(), 0) + seq![255u8, 255u8]));
            }
        }
    }
}

} // verus!
