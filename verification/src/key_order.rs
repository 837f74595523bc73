//! Order preservation of the composite key encoding.
//!
//! Byte-wise lexicographic comparison of two encoded keys agrees with
//! componentwise comparison of the component sequences they encode. This
//! holds for all keys whose integer components are non-negative and whose
//! bytes payloads are free of zero octets; raw big-endian two's complement
//! breaks it for negative integers, and the doubled-zero escape breaks it
//! for a zero-containing payload that extends a shorter payload of a key
//! with further components.

use crate::key::{be64, enc_component, enc_components, escaped, ComponentModel};
use core::cmp::Ordering;
use vstd::prelude::*;

verus! {

/// Lexicographic comparison of byte strings: unsigned byte order, a
/// proper prefix sorts first.
pub open spec fn lex_cmp(a: Seq<u8>, b: Seq<u8>) -> Ordering
    decreases a.len(),
{
    if a.len() == 0 && b.len() == 0 {
        Ordering::Equal
    } else if a.len() == 0 {
        Ordering::Less
    } else if b.len() == 0 {
        Ordering::Greater
    } else if a[0] < b[0] {
        Ordering::Less
    } else if a[0] > b[0] {
        Ordering::Greater
    } else {
        lex_cmp(a.skip(1), b.skip(1))
    }
}

/// The tag number of a component kind; ties between components of
/// different kinds are broken by this number.
pub open spec fn tag_of(c: ComponentModel) -> u8 {
    match c {
        ComponentModel::I64(_) => 1u8,
        ComponentModel::F64(_) => 2u8,
        ComponentModel::Bytes(_) => 3u8,
    }
}

/// Componentwise comparison of two components: kinds are ordered by tag
/// number; like kinds compare their values (floats by bit pattern).
pub open spec fn comp_cmp(l: ComponentModel, r: ComponentModel) -> Ordering {
    match (l, r) {
        (ComponentModel::I64(a), ComponentModel::I64(b)) => if a < b {
            Ordering::Less
        } else if a > b {
            Ordering::Greater
        } else {
            Ordering::Equal
        },
        (ComponentModel::F64(a), ComponentModel::F64(b)) => if a < b {
            Ordering::Less
        } else if a > b {
            Ordering::Greater
        } else {
            Ordering::Equal
        },
        (ComponentModel::Bytes(a), ComponentModel::Bytes(b)) => lex_cmp(a, b),
        (a, b) => if tag_of(a) < tag_of(b) {
            Ordering::Less
        } else {
            Ordering::Greater
        },
    }
}

/// Componentwise comparison of two component sequences, left to right; a
/// missing component sorts before any present one.
pub open spec fn comps_cmp(l: Seq<ComponentModel>, r: Seq<ComponentModel>) -> Ordering
    decreases l.len(),
{
    if l.len() == 0 && r.len() == 0 {
        Ordering::Equal
    } else if l.len() == 0 {
        Ordering::Less
    } else if r.len() == 0 {
        Ordering::Greater
    } else if comp_cmp(l[0], r[0]) != Ordering::Equal {
        comp_cmp(l[0], r[0])
    } else {
        comps_cmp(l.skip(1), r.skip(1))
    }
}

/// A component within the order-preserving fragment of the encoding:
/// integers non-negative, bytes payloads free of zero octets.
pub open spec fn comp_order_ready(c: ComponentModel) -> bool {
    match c {
        ComponentModel::I64(v) => v >= 0,
        ComponentModel::F64(_) => true,
        ComponentModel::Bytes(p) => forall|j: int| 0 <= j < p.len() ==> p[j] != 0u8,
    }
}

/// All components of the sequence are within the order-preserving
/// fragment.
pub open spec fn order_ready(s: Seq<ComponentModel>) -> bool {
    forall|i: int| 0 <= i < s.len() ==> comp_order_ready(#[trigger] s[i])
}

/// Lexicographic comparison returns `Equal` exactly on equal strings.
pub proof fn lemma_lex_eq(a: Seq<u8>, b: Seq<u8>)
    ensures
        (lex_cmp(a, b) == Ordering::Equal) <==> (a == b),
    decreases a.len(),
{
    if a.len() == 0 && b.len() == 0 {
        assert(a =~= b);
    } else if a.len() == 0 || b.len() == 0 {
    } else {
        lemma_lex_eq(a.skip(1), b.skip(1));
        if a[0] == b[0] && a.skip(1) == b.skip(1) {
            assert(a =~= seq![a[0]] + a.skip(1));
            assert(b =~= seq![b[0]] + b.skip(1));
        }
        if a == b {
            assert(a.skip(1) =~= b.skip(1));
        }
    }
}

/// Swapping the arguments swaps `Less` and `Greater`.
pub proof fn lemma_lex_antisym(a: Seq<u8>, b: Seq<u8>)
    ensures
        (lex_cmp(a, b) == Ordering::Less) <==> (lex_cmp(b, a) == Ordering::Greater),
    decreases a.len(),
{
    if a.len() == 0 || b.len() == 0 {
    } else if a[0] == b[0] {
        lemma_lex_antisym(a.skip(1), b.skip(1));
    }
}

/// Dropping a common prefix does not change the comparison.
pub proof fn lemma_lex_common_prefix(x: Seq<u8>, a: Seq<u8>, b: Seq<u8>)
    ensures
        lex_cmp(x + a, x + b) == lex_cmp(a, b),
    decreases x.len(),
{
    if x.len() == 0 {
        assert(x + a =~= a);
        assert(x + b =~= b);
    } else {
        assert((x + a).len() > 0);
        assert((x + b).len() > 0);
        assert((x + a)[0] == x[0]);
        assert((x + b)[0] == x[0]);
        assert((x + a).skip(1) =~= x.skip(1) + a);
        assert((x + b).skip(1) =~= x.skip(1) + b);
        lemma_lex_common_prefix(x.skip(1), a, b);
    }
}

/// A comparison already decided on two equal-length strings is unchanged
/// by whatever follows them.
pub proof fn lemma_lex_decided(a: Seq<u8>, b: Seq<u8>, x: Seq<u8>, y: Seq<u8>)
    requires
        a.len() == b.len(),
        lex_cmp(a, b) != Ordering::Equal,
    ensures
        lex_cmp(a + x, b + y) == lex_cmp(a, b),
    decreases a.len(),
{
    if a.len() == 0 {
    } else {
        assert((a + x)[0] == a[0]);
        assert((b + y)[0] == b[0]);
        if a[0] == b[0] {
            assert((a + x).skip(1) =~= a.skip(1) + x);
            assert((b + y).skip(1) =~= b.skip(1) + y);
            lemma_lex_decided(a.skip(1), b.skip(1), x, y);
        }
    }
}

/// Big-endian byte strings of 64-bit values compare as the values.
pub proof fn lemma_be64_order(x: u64, y: u64)
    requires
        x < y,
    ensures
        lex_cmp(be64(x), be64(y)) == Ordering::Less,
{
    let a = be64(x);
    let b = be64(y);
    if a[0] != b[0] {
        assert(((x >> 56) as u8) < ((y >> 56) as u8)) by (bit_vector)
            requires
                x < y,
                (x >> 56) as u8 != (y >> 56) as u8,
        ;
    } else if a[1] != b[1] {
        assert(((x >> 48) as u8) < ((y >> 48) as u8)) by (bit_vector)
            requires
                x < y,
                (x >> 56) as u8 == (y >> 56) as u8,
                (x >> 48) as u8 != (y >> 48) as u8,
        ;
        lemma_lex_step_chain(a, b, 1);
    } else if a[2] != b[2] {
        assert(((x >> 40) as u8) < ((y >> 40) as u8)) by (bit_vector)
            requires
                x < y,
                (x >> 56) as u8 == (y >> 56) as u8,
                (x >> 48) as u8 == (y >> 48) as u8,
                (x >> 40) as u8 != (y >> 40) as u8,
        ;
        lemma_lex_step_chain(a, b, 2);
    } else if a[3] != b[3] {
        assert(((x >> 32) as u8) < ((y >> 32) as u8)) by (bit_vector)
            requires
                x < y,
                (x >> 56) as u8 == (y >> 56) as u8,
                (x >> 48) as u8 == (y >> 48) as u8,
                (x >> 40) as u8 == (y >> 40) as u8,
                (x >> 32) as u8 != (y >> 32) as u8,
        ;
        lemma_lex_step_chain(a, b, 3);
    } else if a[4] != b[4] {
        assert(((x >> 24) as u8) < ((y >> 24) as u8)) by (bit_vector)
            requires
                x < y,
                (x >> 56) as u8 == (y >> 56) as u8,
                (x >> 48) as u8 == (y >> 48) as u8,
                (x >> 40) as u8 == (y >> 40) as u8,
                (x >> 32) as u8 == (y >> 32) as u8,
                (x >> 24) as u8 != (y >> 24) as u8,
        ;
        lemma_lex_step_chain(a, b, 4);
    } else if a[5] != b[5] {
        assert(((x >> 16) as u8) < ((y >> 16) as u8)) by (bit_vector)
            requires
                x < y,
                (x >> 56) as u8 == (y >> 56) as u8,
                (x >> 48) as u8 == (y >> 48) as u8,
                (x >> 40) as u8 == (y >> 40) as u8,
                (x >> 32) as u8 == (y >> 32) as u8,
                (x >> 24) as u8 == (y >> 24) as u8,
                (x >> 16) as u8 != (y >> 16) as u8,
        ;
        lemma_lex_step_chain(a, b, 5);
    } else if a[6] != b[6] {
        assert(((x >> 8) as u8) < ((y >> 8) as u8)) by (bit_vector)
            requires
                x < y,
                (x >> 56) as u8 == (y >> 56) as u8,
                (x >> 48) as u8 == (y >> 48) as u8,
                (x >> 40) as u8 == (y >> 40) as u8,
                (x >> 32) as u8 == (y >> 32) as u8,
                (x >> 24) as u8 == (y >> 24) as u8,
                (x >> 16) as u8 == (y >> 16) as u8,
                (x >> 8) as u8 != (y >> 8) as u8,
        ;
        lemma_lex_step_chain(a, b, 6);
    } else if a[7] != b[7] {
        assert((x as u8) < (y as u8)) by (bit_vector)
            requires
                x < y,
                (x >> 56) as u8 == (y >> 56) as u8,
                (x >> 48) as u8 == (y >> 48) as u8,
                (x >> 40) as u8 == (y >> 40) as u8,
                (x >> 32) as u8 == (y >> 32) as u8,
                (x >> 24) as u8 == (y >> 24) as u8,
                (x >> 16) as u8 == (y >> 16) as u8,
                (x >> 8) as u8 == (y >> 8) as u8,
                x as u8 != y as u8,
        ;
        lemma_lex_step_chain(a, b, 7);
    } else {
        assert(x == y) by (bit_vector)
            requires
                (x >> 56) as u8 == (y >> 56) as u8,
                (x >> 48) as u8 == (y >> 48) as u8,
                (x >> 40) as u8 == (y >> 40) as u8,
                (x >> 32) as u8 == (y >> 32) as u8,
                (x >> 24) as u8 == (y >> 24) as u8,
                (x >> 16) as u8 == (y >> 16) as u8,
                (x >> 8) as u8 == (y >> 8) as u8,
                x as u8 == y as u8,
        ;
    }
}

/// If the first `k` bytes of two equal-length strings agree, the
/// comparison equals the comparison of the remainders.
proof fn lemma_lex_step_chain(a: Seq<u8>, b: Seq<u8>, k: int)
    requires
        0 <= k <= a.len(),
        a.len() == b.len(),
        forall|i: int| 0 <= i < k ==> a[i] == b[i],
    ensures
        lex_cmp(a, b) == lex_cmp(a.skip(k), b.skip(k)),
    decreases k,
{
    if k == 0 {
        assert(a.skip(0) =~= a);
        assert(b.skip(0) =~= b);
    } else {
        assert(a[0] == b[0]);
        if a.len() == 0 {
        } else {
            assert(lex_cmp(a, b) == lex_cmp(a.skip(1), b.skip(1)));
            assert(forall|i: int| 0 <= i < k - 1 ==> a.skip(1)[i] == b.skip(1)[i]);
            lemma_lex_step_chain(a.skip(1), b.skip(1), k - 1);
            assert(a.skip(1).skip(k - 1) =~= a.skip(k));
            assert(b.skip(1).skip(k - 1) =~= b.skip(k));
        }
    }
}

/// A zero-free payload is its own escaped form.
pub proof fn lemma_escaped_zero_free(p: Seq<u8>)
    requires
        forall|j: int| 0 <= j < p.len() ==> p[j] != 0u8,
    ensures
        escaped(p) == p,
    decreases p.len(),
{
    if p.len() == 0 {
        assert(escaped(p) =~= p);
    } else {
        assert(forall|j: int| 0 <= j < p.skip(1).len() ==> p.skip(1)[j] != 0u8);
        lemma_escaped_zero_free(p.skip(1));
        assert(escaped(p) =~= p);
    }
}

/// Two distinct zero-free payloads, each followed by its terminator and an
/// arbitrary remainder, compare as the payloads themselves.
proof fn lemma_bytes_payload_cmp(p: Seq<u8>, q: Seq<u8>, rl: Seq<u8>, rr: Seq<u8>)
    requires
        forall|j: int| 0 <= j < p.len() ==> p[j] != 0u8,
        forall|j: int| 0 <= j < q.len() ==> q[j] != 0u8,
        p != q,
    ensures
        lex_cmp(p + seq![0u8] + rl, q + seq![0u8] + rr) == lex_cmp(p, q),
    decreases p.len(),
{
    let a = p + seq![0u8] + rl;
    let b = q + seq![0u8] + rr;
    if p.len() == 0 {
        assert(q.len() > 0) by {
            if q.len() == 0 {
                assert(p =~= q);
            }
        }
        assert(a[0] == 0u8);
        assert(b[0] == q[0]);
        assert(q[0] != 0u8);
        assert(lex_cmp(a, b) == Ordering::Less);
        assert(lex_cmp(p, q) == Ordering::Less);
    } else if q.len() == 0 {
        assert(a[0] == p[0]);
        assert(b[0] == 0u8);
        assert(p[0] != 0u8);
        assert(lex_cmp(a, b) == Ordering::Greater);
        assert(lex_cmp(p, q) == Ordering::Greater);
    } else {
        assert(a[0] == p[0]);
        assert(b[0] == q[0]);
        if p[0] != q[0] {
        } else {
            assert(p.skip(1) != q.skip(1)) by {
                if p.skip(1) == q.skip(1) {
                    assert(p =~= seq![p[0]] + p.skip(1));
                    assert(q =~= seq![q[0]] + q.skip(1));
                    assert(p == q);
                }
            }
            assert(a.skip(1) =~= p.skip(1) + seq![0u8] + rl);
            assert(b.skip(1) =~= q.skip(1) + seq![0u8] + rr);
            lemma_bytes_payload_cmp(p.skip(1), q.skip(1), rl, rr);
        }
    }
}

/// Every component encoding is non-empty and starts with the component's
/// tag.
proof fn lemma_enc_component_head(c: ComponentModel)
    ensures
        enc_component(c).len() >= 2,
        enc_component(c)[0] == tag_of(c),
{
}

/// Key order preservation: on component sequences whose integers are
/// non-negative and whose bytes payloads contain no zero octet,
/// lexicographic comparison of the encodings agrees exactly with
/// componentwise comparison of the sequences.
pub proof fn lemma_key_order(l: Seq<ComponentModel>, r: Seq<ComponentModel>)
    requires
        order_ready(l),
        order_ready(r),
    ensures
        lex_cmp(enc_components(l), enc_components(r)) == comps_cmp(l, r),
    decreases l.len(),
{
    let el = enc_components(l);
    let er = enc_components(r);
    if l.len() == 0 && r.len() == 0 {
        assert(el.len() == 0 && er.len() == 0);
    } else if l.len() == 0 {
        lemma_enc_component_head(r[0]);
        assert(er.len() > 0);
        assert(el.len() == 0);
    } else if r.len() == 0 {
        lemma_enc_component_head(l[0]);
        assert(el.len() > 0);
        assert(er.len() == 0);
    } else {
        let c1 = l[0];
        let c2 = r[0];
        assert(comp_order_ready(c1));
        assert(comp_order_ready(c2));
        assert(order_ready(l.skip(1))) by {
            assert(forall|i: int|
                0 <= i < l.skip(1).len() ==> comp_order_ready(#[trigger] l.skip(1)[i]));
        }
        assert(order_ready(r.skip(1))) by {
            assert(forall|i: int|
                0 <= i < r.skip(1).len() ==> comp_order_ready(#[trigger] r.skip(1)[i]));
        }
        lemma_enc_component_head(c1);
        lemma_enc_component_head(c2);
        if tag_of(c1) != tag_of(c2) {
            assert(el[0] == tag_of(c1));
            assert(er[0] == tag_of(c2));
            assert(el.len() > 0 && er.len() > 0);
            if tag_of(c1) < tag_of(c2) {
                assert(lex_cmp(el, er) == Ordering::Less);
                assert(comp_cmp(c1, c2) == Ordering::Less);
            } else {
                assert(lex_cmp(el, er) == Ordering::Greater);
                assert(comp_cmp(c1, c2) == Ordering::Greater);
            }
        } else {
            match (c1, c2) {
                (ComponentModel::I64(v1), ComponentModel::I64(v2)) => {
                    lemma_like_prim_cmp(
                        seq![1u8],
                        v1 as u64,
                        v2 as u64,
                        enc_components(l.skip(1)),
                        enc_components(r.skip(1)),
                    );
                    assert(el =~= (seq![1u8] + be64(v1 as u64)) + enc_components(l.skip(1)));
                    assert(er =~= (seq![1u8] + be64(v2 as u64)) + enc_components(r.skip(1)));
                    if v1 == v2 {
                        lemma_key_order(l.skip(1), r.skip(1));
                        assert(comp_cmp(c1, c2) == Ordering::Equal);
                    } else if v1 < v2 {
                        assert((v1 as u64) < (v2 as u64));
                        assert(comp_cmp(c1, c2) == Ordering::Less);
                    } else {
                        assert((v2 as u64) < (v1 as u64));
                        assert(comp_cmp(c1, c2) == Ordering::Greater);
                    }
                },
                (ComponentModel::F64(v1), ComponentModel::F64(v2)) => {
                    lemma_like_prim_cmp(
                        seq![2u8],
                        v1,
                        v2,
                        enc_components(l.skip(1)),
                        enc_components(r.skip(1)),
                    );
                    assert(el =~= (seq![2u8] + be64(v1)) + enc_components(l.skip(1)));
                    assert(er =~= (seq![2u8] + be64(v2)) + enc_components(r.skip(1)));
                    if v1 == v2 {
                        lemma_key_order(l.skip(1), r.skip(1));
                        assert(comp_cmp(c1, c2) == Ordering::Equal);
                    } else if v1 < v2 {
                        assert(comp_cmp(c1, c2) == Ordering::Less);
                    } else {
                        assert(comp_cmp(c1, c2) == Ordering::Greater);
                    }
                },
                (ComponentModel::Bytes(p), ComponentModel::Bytes(q)) => {
                    lemma_escaped_zero_free(p);
                    lemma_escaped_zero_free(q);
                    assert(el =~= seq![3u8] + (p + seq![0u8] + enc_components(l.skip(1))));
                    assert(er =~= seq![3u8] + (q + seq![0u8] + enc_components(r.skip(1))));
                    lemma_lex_common_prefix(
                        seq![3u8],
                        p + seq![0u8] + enc_components(l.skip(1)),
                        q + seq![0u8] + enc_components(r.skip(1)),
                    );
                    if p == q {
                        assert(p + seq![0u8] + enc_components(l.skip(1)) =~= (p + seq![0u8])
                            + enc_components(l.skip(1)));
                        assert(q + seq![0u8] + enc_components(r.skip(1)) =~= (p + seq![0u8])
                            + enc_components(r.skip(1)));
                        lemma_lex_common_prefix(
                            p + seq![0u8],
                            enc_components(l.skip(1)),
                            enc_components(r.skip(1)),
                        );
                        lemma_key_order(l.skip(1), r.skip(1));
                        lemma_lex_eq(p, q);
                        assert(comp_cmp(c1, c2) == Ordering::Equal);
                    } else {
                        lemma_bytes_payload_cmp(
                            p,
                            q,
                            enc_components(l.skip(1)),
                            enc_components(r.skip(1)),
                        );
                        lemma_lex_eq(p, q);
                        assert(comp_cmp(c1, c2) == lex_cmp(p, q));
                        assert(lex_cmp(p, q) != Ordering::Equal);
                    }
                },
                _ => {
                    assert(false);
                },
            }
        }
    }
}

/// A byte payload followed by its terminator compares as the payload
/// itself, for every payload: the doubled-zero escape keeps embedded
/// zeros sortable when nothing follows the component.
proof fn lemma_escaped_term_cmp(p: Seq<u8>, q: Seq<u8>)
    ensures
        lex_cmp(escaped(p) + seq![0u8], escaped(q) + seq![0u8]) == lex_cmp(p, q),
    decreases p.len() + q.len(),
{
    let a = escaped(p) + seq![0u8];
    let b = escaped(q) + seq![0u8];
    if p.len() == 0 && q.len() == 0 {
        assert(a =~= seq![0u8]);
        assert(b =~= seq![0u8]);
    } else if p.len() == 0 {
        assert(a =~= seq![0u8]);
        if q[0] == 0u8 {
            assert(b =~= seq![0u8, 0u8] + escaped(q.skip(1)) + seq![0u8]);
            assert(a[0] == b[0]);
            assert(a.skip(1) =~= Seq::<u8>::empty());
            assert(b.skip(1).len() > 0);
            assert(lex_cmp(a.skip(1), b.skip(1)) == Ordering::Less);
        } else {
            assert(b[0] == q[0]);
            assert(lex_cmp(a, b) == Ordering::Less);
        }
        assert(lex_cmp(p, q) == Ordering::Less);
    } else if q.len() == 0 {
        assert(b =~= seq![0u8]);
        if p[0] == 0u8 {
            assert(a =~= seq![0u8, 0u8] + escaped(p.skip(1)) + seq![0u8]);
            assert(a[0] == b[0]);
            assert(b.skip(1) =~= Seq::<u8>::empty());
            assert(a.skip(1).len() > 0);
            assert(lex_cmp(a.skip(1), b.skip(1)) == Ordering::Greater);
        } else {
            assert(a[0] == p[0]);
            assert(lex_cmp(a, b) == Ordering::Greater);
        }
        assert(lex_cmp(p, q) == Ordering::Greater);
    } else if p[0] == 0u8 && q[0] == 0u8 {
        assert(a =~= seq![0u8, 0u8] + (escaped(p.skip(1)) + seq![0u8]));
        assert(b =~= seq![0u8, 0u8] + (escaped(q.skip(1)) + seq![0u8]));
        lemma_lex_common_prefix(
            seq![0u8, 0u8],
            escaped(p.skip(1)) + seq![0u8],
            escaped(q.skip(1)) + seq![0u8],
        );
        lemma_escaped_term_cmp(p.skip(1), q.skip(1));
    } else if p[0] == q[0] {
        assert(a =~= seq![p[0]] + (escaped(p.skip(1)) + seq![0u8]));
        assert(b =~= seq![p[0]] + (escaped(q.skip(1)) + seq![0u8]));
        lemma_lex_common_prefix(
            seq![p[0]],
            escaped(p.skip(1)) + seq![0u8],
            escaped(q.skip(1)) + seq![0u8],
        );
        lemma_escaped_term_cmp(p.skip(1), q.skip(1));
    } else {
        if p[0] == 0u8 {
            assert(a[0] == 0u8);
            assert(b[0] == q[0]);
            assert(lex_cmp(a, b) == Ordering::Less);
            assert(lex_cmp(p, q) == Ordering::Less);
        } else if q[0] == 0u8 {
            assert(a[0] == p[0]);
            assert(b[0] == 0u8);
            assert(lex_cmp(a, b) == Ordering::Greater);
            assert(lex_cmp(p, q) == Ordering::Greater);
        } else {
            assert(a[0] == p[0]);
            assert(b[0] == q[0]);
        }
    }
}

/// Order preservation for a key of a single bytes component, with no
/// restriction on the payload: such encodings compare exactly as the
/// payloads do, embedded zeros included.
pub proof fn lemma_single_bytes_key_order(p: Seq<u8>, q: Seq<u8>)
    ensures
        lex_cmp(
            enc_components(seq![ComponentModel::Bytes(p)]),
            enc_components(seq![ComponentModel::Bytes(q)]),
        ) == comp_cmp(ComponentModel::Bytes(p), ComponentModel::Bytes(q)),
{
    let el = enc_components(seq![ComponentModel::Bytes(p)]);
    let er = enc_components(seq![ComponentModel::Bytes(q)]);
    assert(seq![ComponentModel::Bytes(p)].skip(1) =~= Seq::<ComponentModel>::empty());
    assert(seq![ComponentModel::Bytes(q)].skip(1) =~= Seq::<ComponentModel>::empty());
    assert(enc_components(Seq::<ComponentModel>::empty()) =~= Seq::<u8>::empty());
    assert(el =~= seq![3u8] + (escaped(p) + seq![0u8]));
    assert(er =~= seq![3u8] + (escaped(q) + seq![0u8]));
    lemma_lex_common_prefix(seq![3u8], escaped(p) + seq![0u8], escaped(q) + seq![0u8]);
    lemma_escaped_term_cmp(p, q);
}

/// Comparison of two primitive component encodings that share a tag,
/// followed by arbitrary remainders: decided by the 64-bit values unless
/// they are equal, in which case it is the comparison of the remainders.
proof fn lemma_like_prim_cmp(tag: Seq<u8>, x: u64, y: u64, rl: Seq<u8>, rr: Seq<u8>)
    requires
        tag.len() == 1,
    ensures
        x == y ==> lex_cmp((tag + be64(x)) + rl, (tag + be64(y)) + rr) == lex_cmp(rl, rr),
        x < y ==> lex_cmp((tag + be64(x)) + rl, (tag + be64(y)) + rr) == Ordering::Less,
        x > y ==> lex_cmp((tag + be64(x)) + rl, (tag + be64(y)) + rr) == Ordering::Greater,
{
    if x == y {
        assert((tag + be64(x)) + rl =~= (tag + be64(x)) + rl);
        lemma_lex_common_prefix(tag + be64(x), rl, rr);
        assert((tag + be64(y)) + rr =~= (tag + be64(x)) + rr);
    } else if x < y {
        lemma_be64_order(x, y);
        lemma_lex_common_prefix(tag, be64(x), be64(y));
        assert(tag + be64(x) =~= tag + be64(x));
        assert(lex_cmp(tag + be64(x), tag + be64(y)) == Ordering::Less);
        lemma_lex_decided(tag + be64(x), tag + be64(y), rl, rr);
    } else {
        lemma_be64_order(y, x);
        lemma_lex_antisym(be64(y), be64(x));
        lemma_lex_common_prefix(tag, be64(x), be64(y));
        assert(lex_cmp(tag + be64(x), tag + be64(y)) == Ordering::Greater);
        lemma_lex_decided(tag + be64(x), tag + be64(y), rl, rr);
    }
}

} // verus!
