//! Order-preserving composite key codec.
//!
//! A key is a finite sequence of components, each an `i64`, an `f64`
//! (carried by its IEEE-754 bit pattern), or a byte string. The encoding is
//! designed so that byte-wise lexicographic comparison of two encoded keys
//! agrees with componentwise comparison of the decoded sequences, with the
//! documented limitation for negative integers (raw big-endian two's
//! complement does not sort below non-negative values).

use vstd::prelude::*;

verus! {

/// Error raised when a key is coerced to a shape it does not have.
#[derive(Debug, PartialEq, Eq)]
pub enum Error {
    TypeMismatch,
}

/// Wire tags of the three component kinds.
#[derive(Debug, Clone, Copy, PartialEq, Eq, Structural)]
pub enum Ty {
    I64,
    F64,
    Bytes,
}

/// One component of a composite key. Floating point components are carried
/// as their raw IEEE-754 bit pattern, so the codec itself never handles a
/// float; the documented component order compares those bit patterns as
/// unsigned integers (which agrees with the float order on non-negative
/// values).
#[derive(Debug, Clone, PartialEq, Eq, PartialOrd, Ord)]
pub enum Component {
    I64(i64),
    F64(u64),
    Bytes(Vec<u8>),
}

/// Mathematical model of a component.
pub enum ComponentModel {
    I64(i64),
    F64(u64),
    Bytes(Seq<u8>),
}

impl View for Component {
    type V = ComponentModel;

    open spec fn view(&self) -> ComponentModel {
        match self {
            Component::I64(v) => ComponentModel::I64(*v),
            Component::F64(b) => ComponentModel::F64(*b),
            Component::Bytes(b) => ComponentModel::Bytes(b@),
        }
    }
}

/// Big-endian bytes of a 64-bit value.
pub open spec fn be64(x: u64) -> Seq<u8> {
    seq![
        (x >> 56) as u8,
        (x >> 48) as u8,
        (x >> 40) as u8,
        (x >> 32) as u8,
        (x >> 24) as u8,
        (x >> 16) as u8,
        (x >> 8) as u8,
        x as u8,
    ]
}

/// The byte-stuffed form of a bytes payload: every zero octet is doubled.
/// The single-zero terminator is not part of this sequence.
pub open spec fn escaped(p: Seq<u8>) -> Seq<u8>
    decreases p.len(),
{
    if p.len() == 0 {
        Seq::empty()
    } else if p[0] == 0u8 {
        seq![0u8, 0u8] + escaped(p.skip(1))
    } else {
        seq![p[0]] + escaped(p.skip(1))
    }
}

/// Encoding of a single component: a one-byte type tag, then the payload.
pub open spec fn enc_component(c: ComponentModel) -> Seq<u8> {
    match c {
        ComponentModel::I64(v) => seq![1u8] + be64(v as u64),
        ComponentModel::F64(b) => seq![2u8] + be64(b),
        ComponentModel::Bytes(p) => seq![3u8] + escaped(p) + seq![0u8],
    }
}

/// Encoding of a component sequence: the catenation of the component
/// encodings, with no outer framing.
pub open spec fn enc_components(s: Seq<ComponentModel>) -> Seq<u8>
    decreases s.len(),
{
    if s.len() == 0 {
        Seq::empty()
    } else {
        enc_component(s[0]) + enc_components(s.skip(1))
    }
}

impl From<i64> for Component {
    /// An integer component.
    fn from(v: i64) -> (r: Self)
        ensures
            r == Component::I64(v),
    {
        Component::I64(v)
    }
}

impl vstd::std_specs::convert::FromSpecImpl<i64> for Component {
    open spec fn obeys_from_spec() -> bool {
        true
    }

    open spec fn from_spec(v: i64) -> Component {
        Component::I64(v)
    }
}

impl From<Vec<u8>> for Component {
    /// A byte-string component.
    fn from(v: Vec<u8>) -> (r: Self)
        ensures
            r == Component::Bytes(v),
    {
        Component::Bytes(v)
    }
}

impl vstd::std_specs::convert::FromSpecImpl<Vec<u8>> for Component {
    open spec fn obeys_from_spec() -> bool {
        true
    }

    open spec fn from_spec(v: Vec<u8>) -> Component {
        Component::Bytes(v)
    }
}

impl Component {
    /// The wire tag of this component.
    pub fn ty(&self) -> (t: Ty)
        ensures
            t == (match self@ {
                ComponentModel::I64(_) => Ty::I64,
                ComponentModel::F64(_) => Ty::F64,
                ComponentModel::Bytes(_) => Ty::Bytes,
            }),
    {
        match self {
            Component::I64(_) => Ty::I64,
            Component::F64(_) => Ty::F64,
            Component::Bytes(_) => Ty::Bytes,
        }
    }

    /// A capacity hint: an upper bound estimate of the unescaped encoding
    /// size of this component.
    pub fn byte_len_hint(&self) -> (n: usize)
        ensures
            n >= 1,
    {
        match self {
            Component::I64(_) => 9,
            Component::F64(_) => 9,
            Component::Bytes(bytes) => {
                let l = bytes.len();
                if l <= usize::MAX - 2 {
                    1 + l + 1
                } else {
                    usize::MAX
                }
            },
        }
    }
}

/// A composite key held in its encoded byte form. The serialized bytes
/// compare (bytewise, unsigned) in the same order as the component
/// sequences they encode, within the documented limitations.
#[derive(Debug, Clone, PartialEq, Eq, PartialOrd, Ord)]
pub struct Key {
    storage: Vec<u8>,
}

impl View for Key {
    type V = Seq<u8>;

    closed spec fn view(&self) -> Seq<u8> {
        self.storage@
    }
}

impl Key {
    /// An empty key (no components).
    pub fn new() -> (k: Key)
        ensures
            k@ == Seq::<u8>::empty(),
    {
        Key { storage: Vec::new() }
    }

    /// An empty key with pre-allocated storage.
    pub fn with_capacity(cap: usize) -> (k: Key)
        ensures
            k@ == Seq::<u8>::empty(),
    {
        Key { storage: Vec::with_capacity(cap) }
    }

    /// The encoded bytes of this key.
    pub fn into_bytes(self) -> (b: Vec<u8>)
        ensures
            b@ == self@,
    {
        self.storage
    }

    /// A copy of the encoded bytes of this key.
    pub fn to_bytes(&self) -> (b: Vec<u8>)
        ensures
            b@ == self@,
    {
        self.storage.clone()
    }

    /// The integer a single-component integer key holds; a key of any
    /// other shape is a type mismatch. Malformed storage is a caller
    /// error, as for `as_components`.
    pub fn try_to_i64(&self) -> (r: Result<i64, Error>)
        requires
            spec_key_parse(self@) is Some,
        ensures
            match r {
                Ok(v) => spec_key_parse(self@) == Some(seq![ComponentModel::I64(v)]),
                Err(e) => {
                    &&& e == Error::TypeMismatch
                    &&& !(exists|v: i64|
                        spec_key_parse(self@) == Some(seq![ComponentModel::I64(v)]))
                },
            },
    {
        let components = self.as_components();
        if components.len() == 1 {
            match &components[0] {
                Component::I64(v) => {
                    proof {
                        assert(components.deep_view() =~= seq![ComponentModel::I64(*v)]);
                    }
                    return Ok(*v);
                },
                _ => {},
            }
        }
        proof {
            if exists|v: i64| spec_key_parse(self@) == Some(seq![ComponentModel::I64(v)]) {
                let v = choose|v: i64|
                    spec_key_parse(self@) == Some(seq![ComponentModel::I64(v)]);
                assert(components.deep_view().len() == 1);
                assert(components.deep_view()[0] == ComponentModel::I64(v));
                assert(components@.len() == 1);
                assert(components@[0]@ == ComponentModel::I64(v));
            }
        }
        Err(Error::TypeMismatch)
    }

    /// Wraps raw bytes as a key without checking that they are a valid
    /// encoding. Decoding a key built from malformed bytes is a caller
    /// error.
    pub fn load_from_bytes_unchecked(bytes: Vec<u8>) -> (k: Key)
        ensures
            k@ == bytes@,
    {
        Key { storage: bytes }
    }

    /// Appends an integer component.
    pub fn append_i64(&mut self, val: i64)
        ensures
            final(self)@ == old(self)@ + enc_component(ComponentModel::I64(val)),
    {
        self.storage.push(1u8);
        push_be64(&mut self.storage, val as u64);
        proof {
            assert(final(self)@ =~= old(self)@ + enc_component(ComponentModel::I64(val)));
        }
    }

    /// Appends a float component given by its IEEE-754 bit pattern.
    pub fn append_f64(&mut self, bits: u64)
        ensures
            final(self)@ == old(self)@ + enc_component(ComponentModel::F64(bits)),
    {
        self.storage.push(2u8);
        push_be64(&mut self.storage, bits);
        proof {
            assert(final(self)@ =~= old(self)@ + enc_component(ComponentModel::F64(bits)));
        }
    }

    /// Appends a byte-string component, escaping embedded zero octets and
    /// terminating with a single zero octet.
    pub fn append_bytes(&mut self, val: &[u8])
        ensures
            final(self)@ == old(self)@ + enc_component(ComponentModel::Bytes(val@)),
    {
        self.storage.push(3u8);
        let escaped_bytes = escape_bytes(val);
        self.storage.append(&mut { escaped_bytes });
        proof {
            assert(final(self)@ =~= old(self)@ + enc_component(ComponentModel::Bytes(val@)));
        }
    }

    /// Appends a component of any kind.
    pub fn append_component(&mut self, component: &Component)
        ensures
            final(self)@ == old(self)@ + enc_component(component@),
    {
        match component {
            Component::I64(v) => {
                self.append_i64(*v);
            },
            Component::F64(b) => {
                self.append_f64(*b);
            },
            Component::Bytes(v) => {
                self.append_bytes(v.as_slice());
            },
        }
    }
}

/// Writes the big-endian bytes of `x`.
fn push_be64(out: &mut Vec<u8>, x: u64)
    ensures
        final(out)@ == old(out)@ + be64(x),
{
    out.push((x >> 56) as u8);
    out.push((x >> 48) as u8);
    out.push((x >> 40) as u8);
    out.push((x >> 32) as u8);
    out.push((x >> 24) as u8);
    out.push((x >> 16) as u8);
    out.push((x >> 8) as u8);
    out.push(x as u8);
    proof {
        assert(final(out)@ =~= old(out)@ + be64(x));
    }
}

/// Byte-stuffs a payload: doubles each zero octet and appends the single
/// zero terminator.
pub fn escape_bytes(val: &[u8]) -> (r: Vec<u8>)
    ensures
        r@ == escaped(val@) + seq![0u8],
{
    let input_len = val.len();
    let mut result: Vec<u8> = Vec::with_capacity(if input_len < usize::MAX { input_len + 1 } else {
        input_len
    });

    let mut i: usize = 0;
    while i < val.len()
        invariant
            i <= val@.len(),
            result@ == escaped(val@.take(i as int)),
        decreases val@.len() - i,
    {
        let b = val[i];
        if b == 0u8 {
            result.push(0u8);
        }
        result.push(b);
        proof {
            lemma_escaped_snoc(val@, i as int);
        }
        i += 1;
    }

    result.push(0u8);
    proof {
        assert(val@.take(val@.len() as int) =~= val@);
    }
    result
}

/// The 64-bit value read back from eight big-endian bytes.
pub open spec fn from_be64(s: Seq<u8>) -> u64 {
    (((s[0] as u64) << 56) | ((s[1] as u64) << 48) | ((s[2] as u64) << 40) | ((s[3] as u64) << 32)
        | ((s[4] as u64) << 24) | ((s[5] as u64) << 16) | ((s[6] as u64) << 8) | (s[7] as u64))
}

pub proof fn lemma_from_be64_of_be64(x: u64)
    ensures
        from_be64(be64(x)) == x,
{
    assert(((((x >> 56) as u8) as u64) << 56) | ((((x >> 48) as u8) as u64) << 48) | ((((x
        >> 40) as u8) as u64) << 40) | ((((x >> 32) as u8) as u64) << 32) | ((((x
        >> 24) as u8) as u64) << 24) | ((((x >> 16) as u8) as u64) << 16) | ((((x
        >> 8) as u8) as u64) << 8) | ((x as u8) as u64) == x) by (bit_vector);
}

pub proof fn lemma_be64_of_from_be64(s: Seq<u8>)
    requires
        s.len() == 8,
    ensures
        be64(from_be64(s)) == s,
{
    let b0 = s[0];
    let b1 = s[1];
    let b2 = s[2];
    let b3 = s[3];
    let b4 = s[4];
    let b5 = s[5];
    let b6 = s[6];
    let b7 = s[7];
    let x: u64 = (((b0 as u64) << 56) | ((b1 as u64) << 48) | ((b2 as u64) << 40) | ((b3
        as u64) << 32) | ((b4 as u64) << 24) | ((b5 as u64) << 16) | ((b6 as u64) << 8) | (b7
        as u64));
    assert(((x >> 56) as u8) == b0 && ((x >> 48) as u8) == b1 && ((x >> 40) as u8) == b2 && ((x
        >> 32) as u8) == b3 && ((x >> 24) as u8) == b4 && ((x >> 16) as u8) == b5 && ((x
        >> 8) as u8) == b6 && (x as u8) == b7) by (bit_vector)
        requires
            x == (((b0 as u64) << 56) | ((b1 as u64) << 48) | ((b2 as u64) << 40) | ((b3
                as u64) << 32) | ((b4 as u64) << 24) | ((b5 as u64) << 16) | ((b6 as u64) << 8) | (
            b7 as u64)),
    ;
    assert(be64(from_be64(s)) =~= s);
}

/// Operational specification of the byte-stuffed payload parser. Scans
/// `val`; a zero octet toggles into the escape state, a second zero emits
/// one literal zero; a non-zero octet met in the escape state means the
/// zero just seen was the terminator and that octet starts the remainder.
/// Returns the decoded payload (appended to `acc`) and the unconsumed
/// remainder, or `None` if the input ends without a terminator.
pub open spec fn spec_parse(val: Seq<u8>, escaping: bool, acc: Seq<u8>) -> Option<
    (Seq<u8>, Seq<u8>),
>
    decreases val.len(),
{
    if val.len() == 0 {
        if escaping {
            Some((acc, Seq::empty()))
        } else {
            None
        }
    } else if val[0] == 0u8 {
        if escaping {
            spec_parse(val.skip(1), false, acc.push(0u8))
        } else {
            spec_parse(val.skip(1), true, acc)
        }
    } else {
        if escaping {
            Some((acc, val))
        } else {
            spec_parse(val.skip(1), false, acc.push(val[0]))
        }
    }
}

/// The remainder a successful payload parse leaves is a suffix of the
/// input, and (when the parse does not begin in the escape state) a strict
/// one.
pub proof fn lemma_parse_rest(val: Seq<u8>, escaping: bool, acc: Seq<u8>)
    requires
        spec_parse(val, escaping, acc) is Some,
    ensures
        ({
            let (p, r) = spec_parse(val, escaping, acc)->Some_0;
            &&& r.len() <= val.len()
            &&& (!escaping ==> r.len() < val.len())
            &&& r == val.skip(val.len() - r.len())
        }),
    decreases val.len(),
{
    let (p, r) = spec_parse(val, escaping, acc)->Some_0;
    if val.len() == 0 {
        assert(r =~= val.skip(0));
    } else if val[0] == 0u8 {
        if escaping {
            lemma_parse_rest(val.skip(1), false, acc.push(0u8));
        } else {
            lemma_parse_rest(val.skip(1), true, acc);
        }
        assert(val.skip(1).skip(val.len() - 1 - r.len()) =~= val.skip(val.len() - r.len()));
    } else {
        if escaping {
            assert(r =~= val.skip(0));
        } else {
            lemma_parse_rest(val.skip(1), false, acc.push(val[0]));
            assert(val.skip(1).skip(val.len() - 1 - r.len()) =~= val.skip(val.len() - r.len()));
        }
    }
}

/// Parsing an escaped payload followed by its terminator and a remainder
/// that does not begin with a zero octet recovers exactly that payload and
/// remainder.
pub proof fn lemma_parse_of_escaped(p: Seq<u8>, r: Seq<u8>, acc: Seq<u8>)
    requires
        r.len() == 0 || r[0] != 0u8,
    ensures
        spec_parse(escaped(p) + seq![0u8] + r, false, acc) == Some::<(Seq<u8>, Seq<u8>)>(
            (acc + p, r),
        ),
    decreases p.len(),
{
    let v = escaped(p) + seq![0u8] + r;
    if p.len() == 0 {
        assert(v =~= seq![0u8] + r);
        assert(v[0] == 0u8);
        assert(v.skip(1) =~= r);
        assert(spec_parse(v, false, acc) == spec_parse(r, true, acc));
        if r.len() == 0 {
            assert(spec_parse(r, true, acc) == Some::<(Seq<u8>, Seq<u8>)>((acc, Seq::empty())));
            assert(acc + p =~= acc);
            assert(r =~= Seq::<u8>::empty());
        } else {
            assert(spec_parse(r, true, acc) == Some::<(Seq<u8>, Seq<u8>)>((acc, r)));
            assert(acc + p =~= acc);
        }
    } else if p[0] == 0u8 {
        assert(escaped(p) == seq![0u8, 0u8] + escaped(p.skip(1)));
        assert(v[0] == 0u8);
        assert(v.skip(1)[0] == 0u8);
        assert(v.skip(1).len() != 0);
        assert(spec_parse(v, false, acc) == spec_parse(v.skip(1), true, acc));
        assert(spec_parse(v.skip(1), true, acc) == spec_parse(
            v.skip(1).skip(1),
            false,
            acc.push(0u8),
        ));
        assert(v.skip(1).skip(1) =~= escaped(p.skip(1)) + seq![0u8] + r);
        lemma_parse_of_escaped(p.skip(1), r, acc.push(0u8));
        assert(acc.push(0u8) + p.skip(1) =~= acc + p);
    } else {
        assert(escaped(p) == seq![p[0]] + escaped(p.skip(1)));
        assert(v[0] == p[0]);
        assert(spec_parse(v, false, acc) == spec_parse(v.skip(1), false, acc.push(p[0])));
        assert(v.skip(1) =~= escaped(p.skip(1)) + seq![0u8] + r);
        lemma_parse_of_escaped(p.skip(1), r, acc.push(p[0]));
        assert(acc.push(p[0]) + p.skip(1) =~= acc + p);
    }
}

/// Specification of full key decoding: reads components until the input is
/// exhausted; `None` on any malformed input.
pub open spec fn spec_key_parse(b: Seq<u8>) -> Option<Seq<ComponentModel>>
    decreases b.len(),
    via spec_key_parse_dec
{
    if b.len() == 0 {
        Some(Seq::empty())
    } else if b[0] == 1u8 {
        if b.len() >= 9 {
            match spec_key_parse(b.skip(9)) {
                Some(rest) => Some(
                    seq![ComponentModel::I64(from_be64(b.subrange(1, 9)) as i64)] + rest,
                ),
                None => None,
            }
        } else {
            None
        }
    } else if b[0] == 2u8 {
        if b.len() >= 9 {
            match spec_key_parse(b.skip(9)) {
                Some(rest) => Some(seq![ComponentModel::F64(from_be64(b.subrange(1, 9)))] + rest),
                None => None,
            }
        } else {
            None
        }
    } else if b[0] == 3u8 {
        match spec_parse(b.skip(1), false, Seq::empty()) {
            Some((p, r)) => {
                match spec_key_parse(r) {
                    Some(rest) => Some(seq![ComponentModel::Bytes(p)] + rest),
                    None => None,
                }
            },
            None => None,
        }
    } else {
        None
    }
}

#[via_fn]
proof fn spec_key_parse_dec(b: Seq<u8>) {
    if b.len() != 0 && b[0] == 3u8 {
        if spec_parse(b.skip(1), false, Seq::empty()) is Some {
            lemma_parse_rest(b.skip(1), false, Seq::empty());
        }
    }
}

impl DeepView for Component {
    type V = ComponentModel;

    open spec fn deep_view(&self) -> ComponentModel {
        self@
    }
}

/// Consumes a byte-stuffed payload up to and including its single-zero
/// terminator, undoing the doubled-zero escapes; returns the remainder of
/// the input and the decoded payload. Malformed input (no terminator) is a
/// caller error and is excluded by the precondition.
pub fn parse_bytes<'a>(val: &'a [u8]) -> (r: (&'a [u8], Vec<u8>))
    requires
        spec_parse(val@, false, Seq::empty()) is Some,
    ensures
        spec_parse(val@, false, Seq::empty()) == Some::<(Seq<u8>, Seq<u8>)>((r.1@, r.0@)),
{
    let mut result: Vec<u8> = Vec::with_capacity(val.len());
    let mut escaping = false;
    let mut idx: usize = 0;
    proof {
        assert(val@.skip(0) =~= val@);
    }

    while idx < val.len()
        invariant
            idx <= val@.len(),
            spec_parse(val@, false, Seq::empty()) == spec_parse(
                val@.skip(idx as int),
                escaping,
                result@,
            ),
            spec_parse(val@.skip(idx as int), escaping, result@) is Some,
        decreases val@.len() - idx,
    {
        let b = val[idx];
        proof {
            assert(val@.skip(idx as int)[0] == b);
            assert(val@.skip(idx as int).skip(1) =~= val@.skip(idx as int + 1));
        }
        if b == 0u8 {
            if escaping {
                result.push(0u8);
                escaping = false;
            } else {
                escaping = true;
            }
        } else {
            if escaping {
                proof {
                    assert(spec_parse(val@.skip(idx as int), true, result@)
                        == Some::<(Seq<u8>, Seq<u8>)>((result@, val@.skip(idx as int))));
                }
                return (&val[idx..val.len()], result);
            }
            result.push(b);
        }
        idx += 1;
    }

    proof {
        assert(val@.skip(idx as int) =~= Seq::<u8>::empty());
        assert(escaping);
    }
    (&val[idx..val.len()], result)
}

/// Reads a 64-bit value from eight big-endian bytes.
fn be64_from_slice(s: &[u8]) -> (x: u64)
    requires
        s@.len() == 8,
    ensures
        x == from_be64(s@),
        be64(x) == s@,
{
    proof {
        lemma_be64_of_from_be64(s@);
    }
    ((s[0] as u64) << 56u64) | ((s[1] as u64) << 48u64) | ((s[2] as u64) << 40u64) | ((s[3]
        as u64) << 32u64) | ((s[4] as u64) << 24u64) | ((s[5] as u64) << 16u64) | ((s[6]
        as u64) << 8u64) | (s[7] as u64)
}

impl Key {
    /// Decodes this key into its component sequence. Bytes payloads are
    /// copied out of the storage. Malformed storage (possible only through
    /// `load_from_bytes_unchecked`) is a caller error and is excluded by
    /// the precondition.
    pub fn as_components(&self) -> (r: Vec<Component>)
        requires
            spec_key_parse(self@) is Some,
        ensures
            spec_key_parse(self@) == Some(r.deep_view()),
    {
        let mut comps: Vec<Component> = Vec::new();
        let mut idx: usize = 0;
        let n = self.storage.len();
        proof {
            assert(self@.skip(0) =~= self@);
            assert(comps.deep_view() =~= Seq::<ComponentModel>::empty());
        }

        while idx < n
            invariant
                idx <= n,
                n == self@.len(),
                spec_key_parse(self@) is Some,
                spec_key_parse(self@.skip(idx as int)) is Some,
                spec_key_parse(self@)->Some_0 == comps.deep_view() + spec_key_parse(
                    self@.skip(idx as int),
                )->Some_0,
            decreases n - idx,
        {
            let ghost rem = self@.skip(idx as int);
            let ghost rest_models = spec_key_parse(rem)->Some_0;
            let tag = self.storage[idx];
            proof {
                assert(rem[0] == tag);
            }
            if tag == 1u8 {
                proof {
                    assert(rem.len() >= 9);
                    assert(rem.subrange(1, 9) =~= self@.subrange(idx as int + 1, idx as int + 9));
                    assert(rem.skip(9) =~= self@.skip(idx as int + 9));
                }
                let x = be64_from_slice(&self.storage[idx + 1..idx + 9]);
                comps.push(Component::I64(x as i64));
                proof {
                    assert(comps.deep_view() =~= comps.deep_view().take(
                        comps.deep_view().len() - 1,
                    ).push(ComponentModel::I64(x as i64)));
                    assert(spec_key_parse(self@)->Some_0 =~= comps.deep_view() + spec_key_parse(
                        self@.skip(idx as int + 9),
                    )->Some_0);
                }
                idx += 9;
            } else if tag == 2u8 {
                proof {
                    assert(rem.len() >= 9);
                    assert(rem.subrange(1, 9) =~= self@.subrange(idx as int + 1, idx as int + 9));
                    assert(rem.skip(9) =~= self@.skip(idx as int + 9));
                }
                let x = be64_from_slice(&self.storage[idx + 1..idx + 9]);
                comps.push(Component::F64(x));
                proof {
                    assert(spec_key_parse(self@)->Some_0 =~= comps.deep_view() + spec_key_parse(
                        self@.skip(idx as int + 9),
                    )->Some_0);
                }
                idx += 9;
            } else {
                proof {
                    assert(tag == 3u8);
                    assert(rem.skip(1) =~= self@.skip(idx as int + 1));
                }
                let (rest, payload) = parse_bytes(&self.storage[idx + 1..n]);
                let ghost parsed = spec_parse(rem.skip(1), false, Seq::empty())->Some_0;
                proof {
                    lemma_parse_rest(rem.skip(1), false, Seq::empty());
                    assert(rest@.len() < rem.skip(1).len());
                    assert(rest@ == self@.skip(n - rest@.len()));
                }
                comps.push(Component::Bytes(payload));
                let new_idx = n - rest.len();
                proof {
                    assert(idx < new_idx <= n);
                    assert(spec_key_parse(self@)->Some_0 =~= comps.deep_view() + spec_key_parse(
                        self@.skip(new_idx as int),
                    )->Some_0);
                }
                idx = new_idx;
            }
        }

        proof {
            assert(self@.skip(idx as int) =~= Seq::<u8>::empty());
            assert(spec_key_parse(self@)->Some_0 =~= comps.deep_view());
        }
        comps
    }
}

/// The encoding of a component sequence extended by one component.
pub proof fn lemma_enc_components_push(s: Seq<ComponentModel>, c: ComponentModel)
    ensures
        enc_components(s.push(c)) == enc_components(s) + enc_component(c),
    decreases s.len(),
{
    if s.len() == 0 {
        assert(s.push(c)[0] == c);
        assert(s.push(c).skip(1) =~= Seq::<ComponentModel>::empty());
        assert(enc_components(Seq::<ComponentModel>::empty()) =~= Seq::<u8>::empty());
        assert(enc_components(s.push(c)) =~= enc_component(c));
        assert(enc_components(s) + enc_component(c) =~= enc_component(c));
    } else {
        assert(s.push(c).skip(1) =~= s.skip(1).push(c));
        assert(s.push(c)[0] == s[0]);
        lemma_enc_components_push(s.skip(1), c);
        assert(enc_components(s.push(c)) =~= enc_components(s) + enc_component(c));
    }
}

/// The models of a sequence of components.
pub open spec fn views_of(s: Seq<Component>) -> Seq<ComponentModel> {
    s.map_values(|c: Component| c@)
}

impl Key {
    /// Builds a key from a component slice, reserving capacity from the
    /// per-component byte-length hints.
    pub fn from(components: &[Component]) -> (k: Key)
        ensures
            k@ == enc_components(views_of(components@)),
    {
        let mut cap: usize = 0;
        let mut i: usize = 0;
        while i < components.len()
            invariant
                i <= components@.len(),
            decreases components@.len() - i,
        {
            let h = components[i].byte_len_hint();
            cap = if cap <= usize::MAX - h {
                cap + h
            } else {
                usize::MAX
            };
            i += 1;
        }

        let mut key = Key::with_capacity(cap);
        let mut i: usize = 0;
        while i < components.len()
            invariant
                i <= components@.len(),
                key@ == enc_components(views_of(components@).take(i as int)),
            decreases components@.len() - i,
        {
            key.append_component(&components[i]);
            proof {
                assert(views_of(components@).take(i as int).push(views_of(components@)[i as int])
                    =~= views_of(components@).take(i as int + 1));
                lemma_enc_components_push(
                    views_of(components@).take(i as int),
                    views_of(components@)[i as int],
                );
            }
            i += 1;
        }
        proof {
            assert(views_of(components@).take(components@.len() as int) =~= views_of(components@));
        }
        key
    }
}

/// A non-empty encoded component sequence starts with a live type tag,
/// never a zero octet.
pub proof fn lemma_enc_components_head(s: Seq<ComponentModel>)
    requires
        s.len() > 0,
    ensures
        enc_components(s).len() > 0,
        enc_components(s)[0] == 1u8 || enc_components(s)[0] == 2u8 || enc_components(s)[0] == 3u8,
{
    match s[0] {
        ComponentModel::I64(v) => {
            assert(enc_component(s[0])[0] == 1u8);
        },
        ComponentModel::F64(b) => {
            assert(enc_component(s[0])[0] == 2u8);
        },
        ComponentModel::Bytes(p) => {
            assert(enc_component(s[0])[0] == 3u8);
        },
    }
}

/// Key round-trip: decoding the encoding of any component sequence gives
/// back exactly that sequence. In particular the encoding is injective.
pub proof fn lemma_key_round_trip(s: Seq<ComponentModel>)
    ensures
        spec_key_parse(enc_components(s)) == Some(s),
    decreases s.len(),
{
    let b = enc_components(s);
    if s.len() == 0 {
        assert(b.len() == 0);
        assert(spec_key_parse(b) == Some(Seq::<ComponentModel>::empty()));
        assert(s =~= Seq::<ComponentModel>::empty());
    } else {
        let rest = enc_components(s.skip(1));
        lemma_key_round_trip(s.skip(1));
        match s[0] {
            ComponentModel::I64(v) => {
                assert(b[0] == 1u8);
                assert(b.len() >= 9);
                assert(b.subrange(1, 9) =~= be64(v as u64));
                assert(b.skip(9) =~= rest);
                lemma_from_be64_of_be64(v as u64);
                assert((v as u64) as i64 == v) by (bit_vector);
                assert(seq![ComponentModel::I64(from_be64(b.subrange(1, 9)) as i64)] + s.skip(1)
                    =~= s);
            },
            ComponentModel::F64(x) => {
                assert(b[0] == 2u8);
                assert(b.len() >= 9);
                assert(b.subrange(1, 9) =~= be64(x));
                assert(b.skip(9) =~= rest);
                lemma_from_be64_of_be64(x);
                assert(seq![ComponentModel::F64(from_be64(b.subrange(1, 9)))] + s.skip(1) =~= s);
            },
            ComponentModel::Bytes(p) => {
                assert(b[0] == 3u8);
                if s.skip(1).len() > 0 {
                    lemma_enc_components_head(s.skip(1));
                }
                assert(rest.len() == 0 || rest[0] != 0u8);
                assert(b.skip(1) =~= escaped(p) + seq![0u8] + rest);
                lemma_parse_of_escaped(p, rest, Seq::empty());
                assert(Seq::<u8>::empty() + p =~= p);
                assert(spec_parse(b.skip(1), false, Seq::empty())
                    == Some::<(Seq<u8>, Seq<u8>)>((p, rest)));
                assert(seq![ComponentModel::Bytes(p)] + s.skip(1) =~= s);
            },
        }
    }
}

/// Appending one byte to a payload extends its escaped form by one or two
/// bytes.
proof fn lemma_escaped_snoc(p: Seq<u8>, i: int)
    requires
        0 <= i < p.len(),
    ensures
        escaped(p.take(i + 1)) == escaped(p.take(i)) + (if p[i] == 0u8 {
            seq![0u8, 0u8]
        } else {
            seq![p[i]]
        }),
    decreases i,
{
    if i == 0 {
        assert(p.take(1) =~= seq![p[0]]);
        assert(p.take(1).skip(1) =~= Seq::<u8>::empty());
        assert(p.take(0) =~= Seq::<u8>::empty());
        if p[0] == 0u8 {
            assert(escaped(p.take(1)) =~= seq![0u8, 0u8]);
        } else {
            assert(escaped(p.take(1)) =~= seq![p[0]]);
        }
    } else {
        lemma_escaped_snoc(p.skip(1), i - 1);
        assert(p.take(i + 1).skip(1) =~= p.skip(1).take(i));
        assert(p.take(i).skip(1) =~= p.skip(1).take(i - 1));
        assert(p.take(i + 1)[0] == p[0]);
        assert(p.take(i)[0] == p[0]);
        assert(p.skip(1)[i - 1] == p[i]);
        if p[0] == 0u8 {
            assert(escaped(p.take(i + 1)) == seq![0u8, 0u8] + escaped(p.skip(1).take(i)));
            assert(escaped(p.take(i)) == seq![0u8, 0u8] + escaped(p.skip(1).take(i - 1)));
            assert(escaped(p.take(i + 1)) =~= escaped(p.take(i)) + (if p[i] == 0u8 {
                seq![0u8, 0u8]
            } else {
                seq![p[i]]
            }));
        } else {
            assert(escaped(p.take(i + 1)) == seq![p[0]] + escaped(p.skip(1).take(i)));
            assert(escaped(p.take(i)) == seq![p[0]] + escaped(p.skip(1).take(i - 1)));
            assert(escaped(p.take(i + 1)) =~= escaped(p.take(i)) + (if p[i] == 0u8 {
                seq![0u8, 0u8]
            } else {
                seq![p[i]]
            }));
        }
    }
}

} // verus!
