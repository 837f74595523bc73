//! Tests of the wire value codec: the protocol reader and writer, the
//! dynamic value tree's round trip, and the decoder's failure modes.

use vdb::value::dynamic::{DynamicStruct, DynamicValue};
use vdb::value::input::InputProtocol;
use vdb::value::output::OutProtocol;
use vdb::value::{Error, Ty, Value};

#[test]
fn test_input_output() {
    let mut out = OutProtocol::new();
    out.write_field_header(Ty::I64, 1);
    out.write_i64(1234);

    out.write_field_header(Ty::List, 2);
    out.write_list_header(Ty::I64, 2);
    out.write_i64(333);
    out.write_i64(444);

    out.write_stop();
    let buffer = out.into_bytes();

    {
        let mut input = InputProtocol::new(&buffer);
        let (ty, index) = input.read_field_header().unwrap();
        assert_eq!(ty, Ty::I64);
        assert_eq!(index, 1);
        let value = input.read_i64().unwrap();
        assert_eq!(value, 1234);

        let (ty, index) = input.read_field_header().unwrap();
        assert_eq!(ty, Ty::List);
        assert_eq!(index, 2);
        let (item_ty, size) = input.read_list_header().unwrap();
        assert_eq!(item_ty, Ty::I64);
        assert_eq!(size, 2);
        assert_eq!(input.read_i64().unwrap(), 333);
        assert_eq!(input.read_i64().unwrap(), 444);

        assert!(input.read_non_stop_field().unwrap().is_none());
    }
}

struct Lcg {
    state: u64,
}

impl Lcg {
    fn new(seed: u64) -> Self {
        Self { state: seed }
    }

    fn next(&mut self) -> u64 {
        self.state = self
            .state
            .wrapping_mul(6364136223846793005)
            .wrapping_add(1442695040888963407);
        self.state >> 16
    }

    fn below(&mut self, n: u64) -> u64 {
        self.next() % n
    }
}

fn rand_ty(rng: &mut Lcg, allow_container: bool) -> Ty {
    loop {
        let ty = match rng.below(5) {
            0 => Ty::I64,
            1 => Ty::F64,
            2 => Ty::Bytes,
            3 => Ty::List,
            _ => Ty::Struct,
        };
        match ty {
            Ty::List | Ty::Struct => {
                if allow_container {
                    return ty;
                }
                continue;
            }
            _ => {
                return ty;
            }
        }
    }
}

fn rand_struct(rng: &mut Lcg, depth: u8) -> DynamicStruct {
    let mut st = DynamicStruct::default();

    let field_num = rng.below(3) as u8;
    for field_idx in 0..field_num {
        let field_ty = rand_ty(rng, depth < 10);
        let value = rand_value_for_ty(rng, field_ty, depth + 1);
        st.insert(field_idx, value);
    }

    st
}

fn rand_value_for_ty(rng: &mut Lcg, ty: Ty, depth: u8) -> DynamicValue {
    match ty {
        Ty::I64 => DynamicValue::I64(rng.next() as i64),
        Ty::F64 => DynamicValue::F64(rng.next()),
        Ty::Bytes => {
            let len = rng.below(10) as usize;
            let random_bytes: Vec<u8> = (0..len).map(|_| rng.next() as u8).collect();
            DynamicValue::Bytes(Box::new(random_bytes))
        }
        Ty::List => {
            let item_ty = rand_ty(rng, depth < 10);
            let item_size = rng.below(8);
            let items = (0..item_size)
                .map(|_| rand_value_for_ty(rng, item_ty, depth + 1))
                .collect::<Vec<_>>();
            DynamicValue::List {
                item_ty,
                items: Box::new(items),
            }
        }
        Ty::Struct => DynamicValue::Struct(Box::new(rand_struct(rng, depth + 1))),
        Ty::Any | Ty::Stop => unreachable!(),
    }
}

#[test]
fn fuzz_dynamic_value() {
    let mut rng = Lcg::new(1234567);
    for i in 0..30 {
        let st = rand_struct(&mut rng, 0);

        let buffer = st.to_vec();
        let st_back = DynamicStruct::from_slice(&buffer).unwrap_or_else(|e| {
            panic!("round {} failed to decode: {:?}", i, e);
        });
        let buffer_again = st_back.to_vec();
        assert_eq!(buffer_again, buffer);
    }
}

#[test]
fn empty_any_list_round_trips() {
    let mut st = DynamicStruct::default();
    st.insert(
        7,
        DynamicValue::List {
            item_ty: Ty::Any,
            items: Box::new(vec![]),
        },
    );
    let buffer = st.to_vec();
    // header (List, 7), item type Any, zero count, stop
    assert_eq!(buffer, vec![4u8, 7, 0, 0, 0, 0, 0, 255, 255]);
    let back = DynamicStruct::from_slice(&buffer).unwrap();
    assert_eq!(back.to_vec(), buffer);
}

#[test]
fn struct_header_layout() {
    // A struct with an i64 at index 1 and a float at index 2 encodes to
    // the two field headers, the big-endian bodies, and the stop header.
    let mut st = DynamicStruct::default();
    st.insert(1, DynamicValue::I64(12345));
    st.insert(2, DynamicValue::F64(123.0f64.to_bits()));
    let buffer = st.to_vec();

    let mut expected: Vec<u8> = Vec::new();
    expected.extend_from_slice(&[1u8, 1]);
    expected.extend_from_slice(&12345i64.to_be_bytes());
    expected.extend_from_slice(&[2u8, 2]);
    expected.extend_from_slice(&123.0f64.to_bits().to_be_bytes());
    expected.extend_from_slice(&[255u8, 255]);
    assert_eq!(buffer, expected);
}

#[test]
fn later_field_occurrence_wins() {
    let mut out = OutProtocol::new();
    out.write_field_header(Ty::I64, 1);
    out.write_i64(1);
    out.write_field_header(Ty::I64, 1);
    out.write_i64(2);
    out.write_stop();
    let buffer = out.into_bytes();

    let st = DynamicStruct::from_slice(&buffer).unwrap();
    let mut expected = DynamicStruct::default();
    expected.insert(1, DynamicValue::I64(2));
    assert_eq!(st.to_vec(), expected.to_vec());
}

#[test]
fn premature_end_is_reported() {
    assert!(matches!(
        i64::from_slice(&[1, 2]),
        Err(Error::DecodePrematureEnd)
    ));
    assert!(matches!(
        DynamicStruct::from_slice(&[1u8, 0, 1]),
        Err(Error::DecodePrematureEnd)
    ));
}

#[test]
fn invalid_type_is_reported() {
    assert!(matches!(
        DynamicStruct::from_slice(&[9u8, 0]),
        Err(Error::DecodeInvalidType)
    ));
}

#[test]
fn invalid_utf8_is_reported() {
    // a one-byte string whose byte is not valid UTF-8
    let bytes = [0u8, 0, 0, 1, 0xFF];
    assert!(matches!(String::from_slice(&bytes), Err(Error::String)));
    let good = [0u8, 0, 0, 2, 0x68, 0x69];
    assert_eq!(String::from_slice(&good).unwrap(), "hi");
}

#[test]
fn manual_impl_value() {
    #[derive(Default, Debug, Ord, PartialOrd, Eq, PartialEq)]
    struct TestModel {
        val_1: i64,
        val_s: Vec<u8>,
    }

    impl Value for TestModel {
        fn ty(&self) -> Ty {
            Ty::Struct
        }

        fn from_input(&mut self, input: &mut InputProtocol<'_>) -> Result<(), Error> {
            while let Some((ty, index)) = input.read_non_stop_field()? {
                match index {
                    0 => {
                        self.val_1.from_input(input)?;
                    }
                    1 => {
                        self.val_s.from_input(input)?;
                    }
                    _ => {
                        input.skip_field(ty)?;
                    }
                }
            }
            Ok(())
        }

        fn to_output(&self, output: &mut OutProtocol) {
            output.write_field_header(Ty::I64, 0);
            self.val_1.to_output(output);

            output.write_field_header(Ty::Bytes, 1);
            self.val_s.to_output(output);

            output.write_stop();
        }
    }

    let model = TestModel {
        val_1: 12345,
        val_s: b"foo bar".to_vec(),
    };

    let buf = model.to_vec();
    let back_model = TestModel::from_slice(&buf).unwrap();

    assert_eq!(back_model, model);
}
