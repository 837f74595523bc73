//! Tests of the versioned table engine and the typed facade, run against
//! the real relational substrate.

use vdb::index::{Extractor, Index, IndexOption, ScanKey, ScanOptions, ScanOrder};
use vdb::key::{Component, Key};
use vdb::table::TableUpdate;
use vdb::table::{Error, Table, UpdateResult};
use vdb::table_typed::{ItemIndexFn, TableItem, TypedTable};
use vdb::value::input::InputProtocol;
use vdb::value::output::OutProtocol;
use vdb::value::{Ty, Value};

#[derive(Default, Debug, PartialEq)]
struct TestModel {
    val_1: i64,
    val_2: f64,
}

impl Value for TestModel {
    fn ty(&self) -> Ty {
        Ty::Struct
    }

    fn from_input(&mut self, input: &mut InputProtocol<'_>) -> Result<(), vdb::value::Error> {
        while let Some((ty, index)) = input.read_non_stop_field()? {
            match index {
                1 => {
                    self.val_1.from_input(input)?;
                }
                2 => {
                    self.val_2 = f64::from_bits(input.read_f64()?);
                }
                _ => {
                    input.skip_field(ty)?;
                }
            }
        }
        Ok(())
    }

    fn to_output(&self, output: &mut OutProtocol) {
        output.write_field_header(Ty::I64, 1);
        self.val_1.to_output(output);

        output.write_field_header(Ty::F64, 2);
        output.write_f64(self.val_2.to_bits());

        output.write_stop();
    }
}

impl TableItem for TestModel {
    type PrimaryKey = i64;

    fn primary_key(&self) -> i64 {
        self.val_1
    }

    fn pk_to_key(pk: &i64) -> Key {
        Key::from(&[Component::I64(*pk)][..])
    }

    fn pk_from_key(k: Key) -> Result<i64, vdb::key::Error> {
        match k.as_components().as_slice() {
            [Component::I64(v)] => Ok(*v),
            _ => Err(vdb::key::Error::TypeMismatch),
        }
    }
}

/// A test extractor: maps a row to the i64 key `val_1 * factor`.
enum TestEx {
    Hundred,
    Thousand,
}

impl Extractor for TestEx {
    fn extract(&self, _pk: &[u8], value: &[u8]) -> Result<Vec<Vec<u8>>, Error> {
        let model = TestModel::from_slice(value).map_err(Error::ValueError)?;
        let factor = match self {
            TestEx::Hundred => 100,
            TestEx::Thousand => 1000,
        };
        let mut key = Key::new();
        key.append_i64(model.val_1 * factor);
        Ok(vec![key.into_bytes()])
    }
}

#[test]
fn test_table_create_and_delete() {
    let table: Table<TestEx> = Table::new("test_table".to_string());

    let mut conn = rusqlite::Connection::open_in_memory().unwrap();
    table.create_table(&mut conn).unwrap();

    let (v, _event) = table
        .insert(&mut conn, b"abc".to_vec(), b"def".to_vec())
        .unwrap();
    assert_eq!(
        table.get(&conn, b"abc").unwrap().unwrap(),
        (b"def".to_vec(), v)
    );

    let (v2, _event) = table
        .insert(&mut conn, b"abc".to_vec(), b"foo".to_vec())
        .unwrap();
    assert_eq!(
        table.get(&conn, b"abc").unwrap().unwrap(),
        (b"foo".to_vec(), v2)
    );

    // a delete naming the superseded version must not proceed
    assert_eq!(
        table
            .delete_with_version(&mut conn, b"abc".to_vec(), v)
            .unwrap()
            .0,
        0
    );
    assert_eq!(
        table.get(&conn, b"abc").unwrap().unwrap(),
        (b"foo".to_vec(), v2)
    );

    assert_eq!(
        table
            .delete_with_version(&mut conn, b"abc".to_vec(), v2)
            .unwrap()
            .0,
        3
    );

    assert!(table.get(&conn, b"abc").unwrap().is_none());
}

#[test]
fn test_update() {
    let table: Table<TestEx> = Table::new("test_table".to_string());
    let mut conn = rusqlite::Connection::open_in_memory().unwrap();

    table.create_table(&mut conn).unwrap();

    let new_v = table
        .update(&mut conn, b"abc".to_vec(), |_prev| {
            Ok(UpdateResult::Update(b"foo".to_vec()))
        })
        .unwrap();
    assert_eq!(new_v.unwrap(), 1);

    let new_v = table
        .update(&mut conn, b"abc".to_vec(), |prev| {
            let (prev_body, prev_version) = prev.unwrap();
            assert_eq!(prev_version, 1);
            assert_eq!(prev_body, b"foo".to_vec());
            Ok(UpdateResult::NotChange)
        })
        .unwrap();
    assert!(new_v.is_none());

    let new_v = table
        .update(&mut conn, b"abc".to_vec(), |prev| {
            let (_prev_body, _prev_version) = prev.unwrap();
            Ok(UpdateResult::Update(b"foo new".to_vec()))
        })
        .unwrap();
    assert!(new_v.is_some());
}

fn create_test_table(conn: &mut rusqlite::Connection) -> Table<TestEx> {
    let mut table: Table<TestEx> = Table::new("test_table".to_string());
    table.append_index("test_index", TestEx::Hundred);
    table.create_table(conn).unwrap();
    table
}

#[test]
fn test_index_create() {
    let mut conn = rusqlite::Connection::open_in_memory().unwrap();
    let mut table = create_test_table(&mut conn);
    for i in 0..4 {
        let new_v = table
            .update(&mut conn, b"test_key".to_vec(), |prev| {
                Ok(match prev {
                    None => UpdateResult::Update(
                        TestModel {
                            val_1: 123,
                            val_2: 321.,
                        }
                        .to_vec(),
                    ),
                    Some((prev_val, _prev_version)) => {
                        let model = TestModel::from_slice(prev_val.as_slice())
                            .map_err(Error::ValueError)?;
                        UpdateResult::Update(
                            TestModel {
                                val_1: model.val_1 + 1,
                                val_2: model.val_2 + 2.,
                            }
                            .to_vec(),
                        )
                    }
                })
            })
            .unwrap();

        assert_eq!(new_v.unwrap(), i + 1);

        let pairs = table
            .get_by_index(
                &conn,
                "test_index",
                Key::from(&[Component::I64((123 + i) * 100)][..])
                    .into_bytes()
                    .as_slice(),
                100,
            )
            .unwrap();
        assert_eq!(pairs.len(), 1);
        assert_eq!(pairs[0].1, b"test_key".to_vec());
    }

    table.append_index("another_index", TestEx::Thousand);
    table.create_table(&mut conn).unwrap();

    // the new index caught up from the replay log
    let pairs = table
        .get_by_index(
            &conn,
            "another_index",
            Key::from(&[Component::I64(126 * 1000)][..])
                .into_bytes()
                .as_slice(),
            100,
        )
        .unwrap();
    assert_eq!(pairs.len(), 1);

    assert!(matches!(
        table.get_by_index(&conn, "missing_index", b"", 10),
        Err(Error::IndexMissing(_))
    ));
}

struct PkTimes100;

impl ItemIndexFn<TestModel> for PkTimes100 {
    fn keys(&self, pk: &i64, _item: &TestModel) -> Vec<Key> {
        vec![Key::from(&[Component::I64(pk * 100)][..])]
    }
}

#[test]
fn test_table_typed() {
    let mut conn = rusqlite::Connection::open_in_memory().unwrap();
    let mut table: TypedTable<TestModel, PkTimes100> = TypedTable::new("test_table");
    table.append_index("test_index", PkTimes100);
    table.create_table(&mut conn).unwrap();

    for i in 0..10i64 {
        table
            .insert(
                &mut conn,
                &TestModel {
                    val_1: i,
                    val_2: i as f64,
                },
            )
            .unwrap();
    }

    let got = table.get(&conn, 3).unwrap().unwrap();
    assert_eq!(got.0.val_1, 3);
    assert_eq!(got.1, 4);
}

#[test]
fn indexed_lookup_finds_exactly_one_row() {
    // ten records with primary keys zero through nine, indexed by the
    // i64 key of a hundred times the record's first field: looking up
    // three hundred yields exactly the row whose key decodes to three
    let mut conn = rusqlite::Connection::open_in_memory().unwrap();
    let mut table: Table<TestEx> = Table::new("test_table".to_string());
    table.append_index("test_index", TestEx::Hundred);
    table.create_table(&mut conn).unwrap();

    for i in 0..10i64 {
        let pk = Key::from(&[Component::I64(i)][..]).into_bytes();
        let value = TestModel {
            val_1: i,
            val_2: i as f64,
        }
        .to_vec();
        table.insert(&mut conn, pk, value).unwrap();
    }

    let ik = Key::from(&[Component::I64(300)][..]).into_bytes();
    let pairs = table.get_by_index(&conn, "test_index", ik.as_slice(), 100).unwrap();
    assert!(!pairs.is_empty());
    assert_eq!(pairs[0].0, ik);
    let pk = Key::load_from_bytes_unchecked(pairs[0].1.clone());
    assert_eq!(pk.as_components(), vec![Component::I64(3)]);
}

#[test]
fn plain_delete_returns_zero_for_absent_key() {
    let mut conn = rusqlite::Connection::open_in_memory().unwrap();
    let table: Table<TestEx> = Table::new("test_table".to_string());
    table.create_table(&mut conn).unwrap();

    assert_eq!(table.delete(&mut conn, b"nope").unwrap(), 0);

    let (v, _) = table
        .insert(&mut conn, b"abc".to_vec(), b"def".to_vec())
        .unwrap();
    let tomb = table.delete(&mut conn, b"abc").unwrap();
    assert!(tomb > v);
    assert!(table.get(&conn, b"abc").unwrap().is_none());

    // a fresh insert after a delete starts a new latest row
    let (v2, _) = table
        .insert(&mut conn, b"abc".to_vec(), b"ghi".to_vec())
        .unwrap();
    assert!(v2 > tomb);
    assert_eq!(
        table.get(&conn, b"abc").unwrap().unwrap(),
        (b"ghi".to_vec(), v2)
    );
}

#[test]
fn batch_insert_reports_each_item() {
    let mut conn = rusqlite::Connection::open_in_memory().unwrap();
    let table: Table<TestEx> = Table::new("test_table".to_string());
    table.create_table(&mut conn).unwrap();

    let events = table
        .insert_batch(
            &mut conn,
            vec![
                (b"a".to_vec(), b"1".to_vec()),
                (b"b".to_vec(), b"2".to_vec()),
            ],
        )
        .unwrap();
    assert_eq!(events.len(), 2);
    assert_eq!(events[0].key, b"a".to_vec());
    assert!(events[0].from.is_none());
    assert_eq!(events[1].key, b"b".to_vec());

    assert_eq!(table.get(&conn, b"a").unwrap().unwrap().0, b"1".to_vec());
    assert_eq!(table.get(&conn, b"b").unwrap().unwrap().0, b"2".to_vec());
}

#[test]
fn scan_to_end_reports_tombstones() {
    let mut conn = rusqlite::Connection::open_in_memory().unwrap();
    let table: Table<TestEx> = Table::new("test_table".to_string());
    table.create_table(&mut conn).unwrap();

    table
        .insert(&mut conn, b"a".to_vec(), b"1".to_vec())
        .unwrap();
    table
        .insert(&mut conn, b"b".to_vec(), b"2".to_vec())
        .unwrap();
    table.delete(&mut conn, b"a").unwrap();

    let rows = table.scan_to_end(&conn, 0).unwrap();
    assert_eq!(rows.len(), 2);
    // ascending version order: the latest row of "b", then the tombstone
    assert_eq!(rows[0].0, b"b".to_vec());
    assert_eq!(rows[0].1, Some(b"2".to_vec()));
    assert_eq!(rows[1].0, b"a".to_vec());
    assert_eq!(rows[1].1, None);
    assert!(rows[0].2 < rows[1].2);
}

#[test]
fn get_by_version_reads_history() {
    let mut conn = rusqlite::Connection::open_in_memory().unwrap();
    let table: Table<TestEx> = Table::new("test_table".to_string());
    table.create_table(&mut conn).unwrap();

    let (v1, _) = table
        .insert(&mut conn, b"k".to_vec(), b"one".to_vec())
        .unwrap();
    let (v2, _) = table
        .insert(&mut conn, b"k".to_vec(), b"two".to_vec())
        .unwrap();

    assert_eq!(
        table.get_by_version(&conn, b"k", v1).unwrap(),
        Some(b"one".to_vec())
    );
    assert_eq!(
        table.get_by_version(&conn, b"k", v2).unwrap(),
        Some(b"two".to_vec())
    );
    assert_eq!(table.get_by_version(&conn, b"k", 999).unwrap(), None);
}

#[test]
fn index_engine_batch_and_scan() {
    let mut conn = rusqlite::Connection::open_in_memory().unwrap();
    let index: Index<TestEx> = Index::new(
        "by_val",
        "standalone",
        IndexOption { without_rowid: true },
        TestEx::Hundred,
    );
    index.create_table(&mut conn).unwrap();
    assert_eq!(index.get_data_version(&conn).unwrap(), None);

    let m1 = TestModel {
        val_1: 1,
        val_2: 0.,
    }
    .to_vec();
    let m2 = TestModel {
        val_1: 2,
        val_2: 0.,
    }
    .to_vec();
    let updates = [TableUpdate::Upsert(vec![
        (&b"pk1"[..], m1.as_slice(), 7),
        (&b"pk2"[..], m2.as_slice(), 8),
    ])];
    index.table_update(&mut conn, &updates).unwrap();
    assert_eq!(index.get_data_version(&conn).unwrap(), Some(8));

    let result = index
        .scan(
            &conn,
            ScanOptions {
                lower_key: None,
                higher_key: None,
                count: 10,
                order: ScanOrder::Asc,
            },
        )
        .unwrap();
    assert_eq!(result.keys.len(), 2);
    assert!(!result.has_more);
    assert_eq!(result.keys[0].1, b"pk1".to_vec());
    assert_eq!(result.keys[1].1, b"pk2".to_vec());

    // the watermark never decreases, even when an older version arrives
    let deletes = [TableUpdate::Delete(vec![(&b"pk1"[..], 5)])];
    index.table_update(&mut conn, &deletes).unwrap();
    assert_eq!(index.get_data_version(&conn).unwrap(), Some(8));

    let result = index
        .scan(
            &conn,
            ScanOptions {
                lower_key: Some(ScanKey {
                    ik: b"",
                    pk: b"",
                    inclusive: true,
                }),
                higher_key: None,
                count: 10,
                order: ScanOrder::Desc,
            },
        )
        .unwrap();
    assert_eq!(result.keys.len(), 1);
    assert_eq!(result.keys[0].1, b"pk2".to_vec());
}
