use assembly_data::buffer::{cast, cast_array, get_latin1_str, read_u32, read_u64, CastError};
use assembly_data::mem::{Database, Field};
use assembly_data::align;
use assembly_data::schema::{self, Schema, TableData, TableDef, ValueType};

const END: u32 = u32::MAX;

/// A little-endian image builder: records are appended and their offsets returned.
struct Image {
    bytes: Vec<u8>,
}

impl Image {
    fn new() -> Image {
        Image { bytes: Vec::new() }
    }

    fn here(&self) -> u32 {
        self.bytes.len() as u32
    }

    fn words(&mut self, words: &[u32]) -> u32 {
        let at = self.here();
        for w in words {
            self.bytes.extend_from_slice(&w.to_le_bytes());
        }
        at
    }

    fn text(&mut self, s: &[u8]) -> u32 {
        let at = self.here();
        self.bytes.extend_from_slice(s);
        self.bytes.push(0);
        at
    }

    fn set(&mut self, at: u32, word: u32) {
        let i = at as usize;
        self.bytes[i..i + 4].copy_from_slice(&word.to_le_bytes());
    }
}

/// One table of the given name: two columns, `id` (Integer) and `name` (Text),
/// and the given buckets, each a list of rows `(id, name)`.
struct TableSpec<'s> {
    name: &'s str,
    buckets: Vec<Vec<(u32, &'s str)>>,
}

fn build(tables: &[TableSpec]) -> Vec<u8> {
    let mut img = Image::new();
    let header = img.words(&[tables.len() as u32, 0]);
    let dir = img.words(&vec![0; tables.len() * 2]);
    img.set(header + 4, dir);
    for (t, spec) in tables.iter().enumerate() {
        let name = img.text(spec.name.as_bytes());
        let id_name = img.text(b"id");
        let name_name = img.text(b"name");
        let columns = img.words(&[1, id_name, 4, name_name]);
        let def = img.words(&[2, name, columns]);
        let buckets = img.words(&vec![END; spec.buckets.len()]);
        let data = img.words(&[spec.buckets.len() as u32, buckets]);
        img.set(dir + 8 * t as u32, def);
        img.set(dir + 8 * t as u32 + 4, data);
        for (b, rows) in spec.buckets.iter().enumerate() {
            let mut prev: Option<u32> = None;
            for (id, text) in rows {
                let s = img.text(text.as_bytes());
                let fields = img.words(&[1, *id, 4, s]);
                let row = img.words(&[2, fields]);
                let entry = img.words(&[row, END]);
                match prev {
                    None => img.set(buckets + 4 * b as u32, entry),
                    Some(p) => img.set(p + 4, entry),
                }
                prev = Some(entry);
            }
        }
    }
    img.bytes
}

fn zone() -> Vec<u8> {
    build(&[TableSpec { name: "Zone", buckets: vec![vec![], vec![(7, "Avant Gardens")]] }])
}

#[test]
fn end_to_end_zone_table() {
    let buf = zone();
    let db = Database::new(&buf);
    let tables = db.tables().unwrap();
    assert_eq!(tables.len(), 1);
    let table = tables.by_name("Zone").unwrap().unwrap();
    assert_eq!(table.name(), "Zone");
    assert_eq!(table.bucket_count(), 2);
    assert_eq!(table.column_count(), 2);
    let id = table.column_at(0).unwrap().unwrap();
    assert_eq!(id.name(), "id");
    assert_eq!(id.value_type(), ValueType::Integer);
    let name = table.column_at(1).unwrap().unwrap();
    assert_eq!(name.name(), "name");
    assert_eq!(name.value_type(), ValueType::Text);
    assert!(table.column_at(2).is_none());

    let rows = table.index_iter(7).unwrap();
    assert_eq!(rows.len(), 1);
    assert_eq!(rows[0].field_at(0).unwrap().unwrap(), Field::Integer(7));
    let text = rows[0].field_at(1).unwrap().unwrap().into_opt_text().unwrap();
    assert_eq!(text.decode(), "Avant Gardens");
    assert!(rows[0].field_at(2).is_none());

    assert_eq!(table.index_iter(8).unwrap().len(), 0);
}

#[test]
fn by_name_finds_each_and_only_present_names() {
    let names = ["Accessories", "Zone", "ZoneTable", "activities", "zz"];
    let specs: Vec<TableSpec> =
        names.iter().map(|n| TableSpec { name: n, buckets: vec![vec![]] }).collect();
    let buf = build(&specs);
    let tables = Database::new(&buf).tables().unwrap();
    assert_eq!(tables.len(), 5);
    assert!(!tables.is_empty());
    for n in names.iter() {
        let t = tables.by_name(n).unwrap().unwrap();
        assert_eq!(t.name(), *n);
    }
    for absent in ["", "A", "Zon", "ZoneT", "ZoneTables", "Zones", "zone", "zzz", "b"] {
        assert!(tables.by_name(absent).is_none(), "{}", absent);
    }
    let third = tables.get(2).unwrap().unwrap();
    assert_eq!(third.name_raw().as_bytes(), b"ZoneTable");
    assert!(tables.get(5).is_none());
}

#[test]
fn index_iter_routes_by_modulo_and_keeps_all_matches() {
    let buf = build(&[TableSpec {
        name: "Objects",
        buckets: vec![
            vec![(3, "a"), (6, "b"), (3, "c")],
            vec![(1, "d"), (4, "e")],
            vec![],
        ],
    }]);
    let table = Database::new(&buf).tables().unwrap().by_name("Objects").unwrap().unwrap();
    let texts = |key: u32| -> Vec<String> {
        table
            .index_iter(key)
            .unwrap()
            .iter()
            .map(|r| r.field_at(1).unwrap().unwrap().into_opt_text().unwrap().decode())
            .collect()
    };
    assert_eq!(texts(3), vec!["a".to_string(), "c".to_string()]);
    assert_eq!(texts(6), vec!["b".to_string()]);
    assert_eq!(texts(4), vec!["e".to_string()]);
    assert_eq!(texts(0), Vec::<String>::new());
    assert_eq!(texts(9), Vec::<String>::new());
    assert_eq!(texts(2), Vec::<String>::new());
}

#[test]
fn bucket_walk_counts_zero_one_and_three_rows() {
    let buf = build(&[TableSpec {
        name: "T",
        buckets: vec![vec![], vec![(10, "x")], vec![(20, "p"), (21, "q"), (22, "r")]],
    }]);
    let table = Database::new(&buf).tables().unwrap().get(0).unwrap().unwrap();
    let empty = table.bucket_at(0).unwrap();
    assert!(empty.is_empty());
    assert_eq!(empty.rows().unwrap().len(), 0);
    assert!(empty.row_iter().next().is_none());

    let one = table.bucket_at(1).unwrap();
    assert!(!one.is_empty());
    let rows = one.rows().unwrap();
    assert_eq!(rows.len(), 1);
    assert_eq!(rows[0].field_count(), 2);
    assert_eq!(rows[0].field_at(0).unwrap().unwrap().into_opt_integer(), Some(10));

    let three = table.bucket_at(2).unwrap();
    let rows = three.rows().unwrap();
    let ids: Vec<i32> = rows
        .iter()
        .map(|r| r.field_at(0).unwrap().unwrap().into_opt_integer().unwrap())
        .collect();
    assert_eq!(ids, vec![20, 21, 22]);

    let mut it = three.row_iter();
    let mut n = 0;
    while let Some(r) = it.next() {
        r.unwrap();
        n += 1;
    }
    assert_eq!(n, 3);
    assert!(table.bucket_at(3).is_none());
}

#[test]
fn cyclic_row_list_is_an_error() {
    let (mut buf, _) = one_row(&[(1, 5)], &[]);
    let entry = buf.len() - 8;
    {
        let table = Database::new(&buf).tables().unwrap().get(0).unwrap().unwrap();
        assert_eq!(table.bucket_at(0).unwrap().rows().unwrap().len(), 1);
    }
    let next = buf.len() - 4;
    buf[next..].copy_from_slice(&(entry as u32).to_le_bytes());
    let table = Database::new(&buf).tables().unwrap().get(0).unwrap().unwrap();
    assert_eq!(
        table.bucket_at(0).unwrap().rows().err(),
        Some(CastError::Cycle { offset: entry as u32 })
    );
    let mut it = table.bucket_at(0).unwrap().row_iter();
    for _ in 0..10 {
        assert!(it.next().unwrap().is_ok());
    }
}

#[test]
fn cast_accepts_the_last_byte_and_refuses_one_more() {
    let buf: Vec<u8> = (0u8..16).collect();
    assert_eq!(cast(&buf, 12, 4).unwrap(), &[12, 13, 14, 15]);
    assert_eq!(cast(&buf, 0, 16).unwrap().len(), 16);
    assert_eq!(cast(&buf, 16, 0).unwrap().len(), 0);
    assert_eq!(cast(&buf, 13, 4), Err(CastError::OutOfBounds { offset: 13 }));
    assert_eq!(cast(&buf, 17, 0), Err(CastError::OutOfBounds { offset: 17 }));
    assert_eq!(cast(&buf, u32::MAX, 1), Err(CastError::OutOfBounds { offset: u32::MAX }));
    assert_eq!(cast_array(&buf, 4, 3, 4).unwrap(), &[4, 5, 6, 7, 8, 9, 10, 11, 12, 13, 14, 15]);
    assert_eq!(cast_array(&buf, 4, 4, 4), Err(CastError::OutOfBounds { offset: 4 }));
    assert_eq!(cast_array(&buf, 0, u32::MAX, u32::MAX), Err(CastError::OutOfBounds { offset: 0 }));
}

#[test]
fn little_endian_readers() {
    let buf = [0x78, 0x56, 0x34, 0x12, 0xff, 0xff, 0xff, 0xff];
    assert_eq!(read_u32(&buf, 0), 0x1234_5678);
    assert_eq!(read_u32(&buf, 4), u32::MAX);
    assert_eq!(read_u64(&buf, 0), 0xffff_ffff_1234_5678);
}

#[test]
fn latin1_strings() {
    let buf = [b'h', 0xe9, b'!', 0, b'x'];
    let s = get_latin1_str(&buf, 0).unwrap();
    assert_eq!(s.len(), 3);
    assert_eq!(s.decode(), "h\u{e9}!");
    assert_eq!(s.decode(), s.decode());
    assert!(get_latin1_str(&buf, 3).unwrap().is_empty());
    assert_eq!(get_latin1_str(&buf, 4), Err(CastError::MissingTerminator { offset: 4 }));
    assert_eq!(get_latin1_str(&buf, 5), Err(CastError::MissingTerminator { offset: 5 }));
    assert_eq!(get_latin1_str(&buf, 6), Err(CastError::OutOfBounds { offset: 6 }));
}

#[test]
fn value_type_tags_round_trip() {
    let named = [
        (0, ValueType::Nothing),
        (1, ValueType::Integer),
        (3, ValueType::Float),
        (4, ValueType::Text),
        (5, ValueType::Boolean),
        (6, ValueType::BigInt),
        (8, ValueType::VarChar),
    ];
    for (tag, ty) in named {
        assert_eq!(ValueType::from(tag), ty);
        assert_eq!(u32::from(ty), tag);
    }
    assert_eq!(ValueType::from(2), ValueType::Unknown(2));
    assert_eq!(ValueType::from(7), ValueType::Unknown(7));
    assert_eq!(u32::from(ValueType::Unknown(7)), 7);
}

/// A database with one table whose single row holds the given raw fields.
fn one_row(fields: &[(u32, u32)], extra: &[u8]) -> (Vec<u8>, u32) {
    let mut img = Image::new();
    let header = img.words(&[1, 0]);
    let dir = img.words(&[0, 0]);
    img.set(header + 4, dir);
    let name = img.text(b"T");
    let def = img.words(&[0, name, 0]);
    let buckets = img.words(&[0]);
    let data = img.words(&[1, buckets]);
    img.set(dir, def);
    img.set(dir + 4, data);
    let mut flat = Vec::new();
    for (tag, payload) in fields {
        flat.push(*tag);
        flat.push(*payload);
    }
    let field_addr = img.words(&flat);
    let row = img.words(&[fields.len() as u32, field_addr]);
    let entry = img.words(&[row, END]);
    img.set(buckets, entry);
    let extra_at = img.here();
    img.bytes.extend_from_slice(extra);
    (img.bytes, extra_at)
}

#[test]
fn field_payloads_decode_by_tag() {
    let probe = one_row(&[], &[]).1;
    let big_at = probe + 8 * 8;
    let text_at = big_at + 8;
    let extra: Vec<u8> = [(-5i64).to_le_bytes().to_vec(), b"ab\0".to_vec()].concat();
    let fields = [
        (0, 99),
        (1, (-2i32) as u32),
        (3, 1.5f32.to_bits()),
        (4, text_at),
        (5, 0),
        (5, 0x0100),
        (6, big_at),
        (8, text_at),
    ];
    let (buf, at) = one_row(&fields, &extra);
    assert_eq!(at, big_at);
    let table = Database::new(&buf).tables().unwrap().get(0).unwrap().unwrap();
    let rows = table.bucket_at(0).unwrap().rows().unwrap();
    let row = rows[0];
    assert_eq!(row.field_count(), 8);
    let f = |i: usize| row.field_at(i).unwrap().unwrap();
    assert_eq!(f(0), Field::Nothing);
    assert_eq!(f(1).into_opt_integer(), Some(-2));
    assert_eq!(f(2).into_opt_float().map(f32::from_bits), Some(1.5));
    assert_eq!(f(3).into_opt_text().unwrap().decode(), "ab");
    assert_eq!(f(4).into_opt_boolean(), Some(false));
    assert_eq!(f(5).into_opt_boolean(), Some(true));
    assert_eq!(f(6).into_opt_big_int(), Some(-5));
    assert_eq!(f(7).into_opt_varchar().unwrap().decode(), "ab");
    assert_eq!(f(7).into_opt_text(), None);
    assert_eq!(f(1).into_opt_big_int(), None);
}

#[test]
fn bad_fields_are_errors() {
    let fields = [(2, 0), (7, 0), (6, 0xffff_fff0), (4, 0xffff_fff0), (99, 1)];
    let (buf, _) = one_row(&fields, &[]);
    let table = Database::new(&buf).tables().unwrap().get(0).unwrap().unwrap();
    let row = table.bucket_at(0).unwrap().rows().unwrap()[0];
    assert_eq!(row.field_at(0).unwrap(), Err(CastError::UnknownValueType { tag: 2 }));
    assert_eq!(row.field_at(1).unwrap(), Err(CastError::UnknownValueType { tag: 7 }));
    assert_eq!(row.field_at(2).unwrap(), Err(CastError::OutOfBounds { offset: 0xffff_fff0 }));
    assert_eq!(row.field_at(3).unwrap(), Err(CastError::OutOfBounds { offset: 0xffff_fff0 }));
    assert_eq!(row.field_at(4).unwrap(), Err(CastError::UnknownValueType { tag: 99 }));
    assert_eq!(table.index_iter(0).err(), Some(CastError::UnknownValueType { tag: 2 }));
}

#[test]
fn short_or_broken_headers_are_errors() {
    assert!(Database::new(&[1, 0, 0]).header().is_err());
    assert_eq!(Database::new(&[]).tables().err(), Some(CastError::OutOfBounds { offset: 0 }));
    let buf = [3, 0, 0, 0, 8, 0, 0, 0];
    assert_eq!(Database::new(&buf).tables().err(), Some(CastError::OutOfBounds { offset: 8 }));
    let buf = [1, 0, 0, 0, 8, 0, 0, 0, 200, 0, 0, 0, 0, 0, 0, 0];
    let tables = Database::new(&buf).tables().unwrap();
    assert_eq!(tables.get(0).unwrap().err(), Some(CastError::OutOfBounds { offset: 200 }));
    assert_eq!(tables.by_name("x").unwrap().err(), Some(CastError::OutOfBounds { offset: 200 }));
}

#[test]
fn trusted_mode_reads_the_zone_table() {
    let buf = zone();
    let tables = align::Database::new(&buf).tables();
    assert_eq!(tables.len(), 1);
    let all = tables.iter();
    assert_eq!(all.len(), 1);
    let table = tables.get(0).unwrap();
    assert!(tables.get(1).is_none());
    assert_eq!(table.name(), "Zone");
    assert_eq!(table.name_raw().as_bytes(), b"Zone");
    assert_eq!(table.column_count(), 2);
    let columns = table.column_iter();
    assert_eq!(columns[0].name(), "id");
    assert_eq!(columns[1].value_type(), ValueType::Text);
    assert_eq!(table.column_at(1).unwrap().name(), "name");
    assert_eq!(table.bucket_count(), 2);
    assert_eq!(table.bucket_iter().len(), 2);
    assert!(table.bucket_at(0).unwrap().row_iter().next().is_none());
    let mut it = table.bucket_at(1).unwrap().row_iter();
    let row = it.next().unwrap();
    assert!(it.next().is_none());
    assert_eq!(row.field_count(), 2);
    assert_eq!(row.field_at(0), Some(Field::Integer(7)));
    let fields = row.field_iter();
    assert_eq!(fields[1].into_opt_text().unwrap().decode(), "Avant Gardens");
}

#[test]
fn checked_iterators_list_everything() {
    let buf = build(&[
        TableSpec { name: "A", buckets: vec![vec![(1, "x")], vec![]] },
        TableSpec { name: "B", buckets: vec![vec![(2, "y"), (4, "z")], vec![(3, "w")]] },
    ]);
    let tables = Database::new(&buf).tables().unwrap();
    let mut it = tables.iter();
    let mut all = Vec::new();
    while let Some(t) = it.next() {
        all.push(t.unwrap());
    }
    assert_eq!(all.len(), 2);
    assert_eq!(all[0].name(), "A");
    let b = all[1];
    assert_eq!(b.name(), "B");
    let columns = b.column_iter();
    assert_eq!(columns.len(), 2);
    assert_eq!(columns[0].as_ref().unwrap().name(), "id");
    assert_eq!(b.bucket_iter().len(), 2);
    let ids: Vec<i32> = b
        .row_iter()
        .unwrap()
        .iter()
        .map(|r| r.field_at(0).unwrap().unwrap().into_opt_integer().unwrap())
        .collect();
    assert_eq!(ids, vec![2, 4, 3]);
    let fields = b.row_iter().unwrap()[2].field_iter();
    assert_eq!(fields.len(), 2);
    assert_eq!(fields[1].unwrap().into_opt_text().unwrap().decode(), "w");
}

fn owned_table(name: &str, columns: usize) -> schema::Table {
    let mut cols = Vec::new();
    for i in 0..columns {
        cols.push(schema::Column::from(("c", if i == 0 { ValueType::Integer } else { ValueType::Text })));
    }
    schema::Table::new(TableDef { columns: cols, name: name.to_string() })
}

#[test]
fn schema_orders_tables_and_keeps_the_last_of_a_name() {
    let s = Schema::from(vec![
        owned_table("b", 1),
        owned_table("Zone", 1),
        owned_table("a", 1),
        owned_table("b", 3),
    ]);
    assert_eq!(s.table_count(), 3);
    assert_eq!(s.table("b").unwrap().columns().len(), 3);
    assert_eq!(s.table("Zone").unwrap().name(), "Zone");
    assert!(s.table("c").is_none());
    assert!(Schema::new().table("a").is_none());
    let mut s = s;
    s.table_mut("a").unwrap().columns_mut().push(schema::Column::from(("d", ValueType::BigInt)));
    assert_eq!(s.table("a").unwrap().columns().len(), 2);
    assert!(s.table_mut("x").is_none());
}

#[test]
fn owned_rows_buckets_and_tables() {
    let mut row = schema::Row::new();
    row.fields_mut().push(schema::Field::Integer(5));
    row.fields_mut().push(schema::Field::Text("hi".to_string()));
    assert_eq!(row.fields().len(), 2);
    assert_eq!(row.fields()[1].value_type(), ValueType::Text);
    assert_eq!(schema::Field::Float(0).value_type(), ValueType::Float);
    let mut bucket = schema::Bucket::new();
    bucket.rows_mut().push(row);
    bucket.rows_mut().push(schema::Row::from(vec![schema::Field::Nothing]));
    assert_eq!(bucket.rows_ref().len(), 2);
    let mut data = TableData::new();
    data.buckets.push(bucket);
    let def = TableDef { columns: vec![schema::Column::from(("id", ValueType::Integer))], name: "T".to_string() };
    let mut table = schema::Table::from(def, data);
    assert_eq!(table.buckets().len(), 1);
    table.buckets_mut().push(schema::Bucket::new());
    assert_eq!(table.columns()[0].field_type, ValueType::Integer);
    let buckets = table.into_buckets();
    assert_eq!(buckets.len(), 2);
    let rows = schema::Bucket(vec![schema::Row::new()]).rows();
    assert_eq!(rows[0].fields().len(), 0);
    assert_eq!(schema::Row::from(vec![schema::Field::Boolean(true)]).into_fields(), vec![schema::Field::Boolean(true)]);
    assert_eq!(owned_table("x", 2).into_columns().len(), 2);
}

#[test]
fn value_type_names() {
    assert_eq!(ValueType::Integer.to_string(), "INTEGER");
    assert_eq!(ValueType::Nothing.to_string(), "NULL");
    assert_eq!(ValueType::VarChar.to_string(), "VARCHAR");
    assert_eq!(ValueType::Unknown(27).to_string(), "UNKNOWN(27)");
    assert_eq!(ValueType::Unknown(0).to_string(), "UNKNOWN(0)");
    assert_eq!(ValueType::from(&schema::Field::BigInt(3)), ValueType::BigInt);
    assert_eq!(ValueType::from(&schema::Field::VarChar("v".to_string())), ValueType::VarChar);
}
