//! Tests of the composite key codec: escaping, round trips, and order
//! preservation.

use std::cmp::Ordering;
use vdb::key::{escape_bytes, parse_bytes, Component, Key};

#[test]
fn test_escape_round_trip() {
    for v in [
        &b"part1|hello".to_vec(),
        &b"".to_vec(),
        &b"1".to_vec(),
        &b"|".to_vec(),
        &b"||".to_vec(),
        &b"|||".to_vec(),
        &b"||||||".to_vec(),
    ] {
        let escaped = escape_bytes(v.as_slice());
        let (_x, y) = parse_bytes(escaped.as_slice());
        assert_eq!(v, &y);
    }
}

#[test]
fn test_key_components_round_trip() {
    for components in [
        vec![Component::F64(0f64.to_bits())],
        vec![],
        vec![Component::I64(0)],
        vec![Component::F64(12f64.to_bits())],
        vec![Component::Bytes(b"h".to_vec())],
        vec![
            Component::Bytes(b"h".to_vec()),
            Component::Bytes(b"e".to_vec()),
            Component::Bytes(b"l".to_vec()),
            Component::Bytes(b"l".to_vec()),
            Component::Bytes(b"o".to_vec()),
            Component::Bytes(b" ".to_vec()),
            Component::Bytes(b"w".to_vec()),
            Component::Bytes(b"o".to_vec()),
            Component::Bytes(b"u".to_vec()),
            Component::Bytes(b"|".to_vec()),
            Component::Bytes(b"d".to_vec()),
            Component::I64(12231232131231232),
        ],
    ]
    .into_iter()
    {
        let key = Key::from(components.as_slice());
        assert_eq!(key.as_components(), components);
    }
}

#[test]
fn test_key_order() {
    for (l, r, order) in vec![
        (
            vec![Component::F64(0f64.to_bits())],
            vec![Component::F64(1f64.to_bits())],
            Ordering::Less,
        ),
        (
            vec![Component::I64(123)],
            vec![Component::I64(567)],
            Ordering::Less,
        ),
        (vec![], vec![], Ordering::Equal),
        (vec![], vec![Component::I64(567)], Ordering::Less),
        (vec![Component::I64(567)], vec![], Ordering::Greater),
        (
            vec![Component::I64(567)],
            vec![Component::F64(0f64.to_bits())],
            Ordering::Less,
        ),
        (
            vec![Component::I64(567), Component::I64(1)],
            vec![Component::I64(567)],
            Ordering::Greater,
        ),
        (
            vec![Component::I64(567), Component::Bytes(b"".to_vec())],
            vec![Component::I64(567)],
            Ordering::Greater,
        ),
        (
            vec![Component::I64(567), Component::Bytes(b"|".to_vec())],
            vec![Component::I64(567), Component::Bytes(b"|".to_vec())],
            Ordering::Equal,
        ),
        (
            vec![Component::I64(567), Component::Bytes(b"".to_vec())],
            vec![Component::I64(567), Component::Bytes(b"|".to_vec())],
            Ordering::Less,
        ),
        (
            vec![567i64.into(), b"hello".to_vec().into()],
            vec![Component::I64(567), Component::Bytes(b"iello".to_vec())],
            Ordering::Less,
        ),
        (
            vec![Component::Bytes(b"ab".to_vec())],
            vec![Component::Bytes(b"a|".to_vec())],
            Ordering::Less,
        ),
        (
            vec![Component::Bytes(b"a".to_vec())],
            vec![Component::Bytes(b"a\0".to_vec())],
            Ordering::Less,
        ),
    ]
    .into_iter()
    {
        let l_str = format!("{:?}", l);
        let r_str = format!("{:?}", r);
        assert_eq!(order, l.cmp(&r));

        let l = Key::from(l.as_slice());
        let r = Key::from(r.as_slice());

        let l_bytes = l.into_bytes();
        let r_bytes = r.into_bytes();

        assert_eq!(order, l_bytes.cmp(&r_bytes), "{} {}", l_str, r_str);
    }
}

#[test]
fn test_append_component_bytes() {
    let mut key = Key::new();
    key.append_component(&Component::I64(567));
    key.append_bytes(b"a\0b");
    let bytes = key.into_bytes();
    // tag 1, eight big-endian bytes of 567, tag 3, payload with the zero
    // doubled, terminator zero
    assert_eq!(
        bytes,
        vec![1u8, 0, 0, 0, 0, 0, 0, 2, 55, 3, 97, 0, 0, 98, 0]
    );
}

#[test]
fn test_load_from_bytes_round_trip() {
    let mut key = Key::with_capacity(16);
    key.append_i64(42);
    key.append_f64(1.5f64.to_bits());
    let bytes = key.to_bytes();
    let reloaded = Key::load_from_bytes_unchecked(bytes);
    assert_eq!(
        reloaded.as_components(),
        vec![Component::I64(42), Component::F64(1.5f64.to_bits())]
    );
}

#[test]
fn try_to_i64_shapes() {
    assert_eq!(Key::from(&[Component::I64(7)][..]).try_to_i64().unwrap(), 7);
    assert!(Key::from(&[Component::I64(7), Component::I64(8)][..])
        .try_to_i64()
        .is_err());
    assert!(Key::from(&[Component::Bytes(b"x".to_vec())][..])
        .try_to_i64()
        .is_err());
}
