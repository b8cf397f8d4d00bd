//! The checked access mode: every offset read from the buffer is resolved
//! against its bounds, and a failure comes back as a `CastError`.
use vstd::prelude::*;
use crate::buffer::{
    cast, cast_array, cstr, fits, is_first_zero, get_latin1_str, latin1_at, le_u32, le_u64, read_u32, read_u64,
    CastError, Latin1Str,
};
use crate::order::{lemma_lex_equal, lemma_lex_flip, lemma_lex_trans, lex_cmp, lex_from};
use crate::schema::{value_type_of, ValueType};
use vstd::string::StringSliceAdditionalSpecFns;
use vstd::slice::slice_subrange;
use core::cmp::Ordering;

verus! {

/// The size of the file header: table count, table directory offset.
pub const HEADER_SIZE: u32 = 8;

/// The size of a directory entry: definition offset, data offset.
pub const TABLE_HEADER_SIZE: u32 = 8;

/// The size of a table definition: column count, name offset, column array offset.
pub const TABLE_DEF_HEADER_SIZE: u32 = 12;

/// The size of a table data header: bucket count, bucket array offset.
pub const TABLE_DATA_HEADER_SIZE: u32 = 8;

/// The size of a column header: type tag, name offset.
pub const COLUMN_HEADER_SIZE: u32 = 8;

/// The size of a bucket header: offset of the first list entry.
pub const BUCKET_HEADER_SIZE: u32 = 4;

/// The size of a row list entry: row header offset, next entry offset.
pub const ROW_LIST_ENTRY_SIZE: u32 = 8;

/// The size of a row header: field count, field array offset.
pub const ROW_HEADER_SIZE: u32 = 8;

/// The size of a field: type tag, four bytes of payload.
pub const FIELD_DATA_SIZE: u32 = 8;

/// The offset that ends a row list, or marks a bucket as empty.
pub const NO_ENTRY: u32 = 0xffff_ffff;

/// The table directory as decoded from the file header.
pub struct TablesView {
    pub buf: Seq<u8>,
    pub base: u32,
    pub count: u32,
}

/// A table as decoded from its directory entry.
pub struct TableView {
    pub buf: Seq<u8>,
    pub name: Seq<u8>,
    pub columns: u32,
    pub column_count: u32,
    pub buckets: u32,
    pub bucket_count: u32,
}

/// The directory that the header of `b` points at.
pub open spec fn header_tables(b: Seq<u8>) -> Result<TablesView, CastError> {
    if !fits(b.len() as int, 0, HEADER_SIZE as int) {
        Err(CastError::OutOfBounds { offset: 0 })
    } else {
        let count = le_u32(b, 0);
        let base = le_u32(b, 4);
        if fits(b.len() as int, base as int, count * TABLE_HEADER_SIZE) {
            Ok(TablesView { buf: b, base, count })
        } else {
            Err(CastError::OutOfBounds { offset: base })
        }
    }
}

/// The table whose directory entry lies at `entry` in `b`.
#[verifier::opaque]
pub open spec fn table_at(b: Seq<u8>, entry: int) -> Result<TableView, CastError> {
    let def = le_u32(b, entry);
    let data = le_u32(b, entry + 4);
    if !fits(b.len() as int, def as int, TABLE_DEF_HEADER_SIZE as int) {
        Err(CastError::OutOfBounds { offset: def })
    } else if !fits(b.len() as int, data as int, TABLE_DATA_HEADER_SIZE as int) {
        Err(CastError::OutOfBounds { offset: data })
    } else {
        let column_count = le_u32(b, def as int);
        let columns = le_u32(b, def + 8);
        let bucket_count = le_u32(b, data as int);
        let buckets = le_u32(b, data + 4);
        match latin1_at(b, le_u32(b, def + 4)) {
            Err(e) => Err(e),
            Ok(name) => if !fits(
                b.len() as int,
                columns as int,
                column_count * COLUMN_HEADER_SIZE,
            ) {
                Err(CastError::OutOfBounds { offset: columns })
            } else if !fits(b.len() as int, buckets as int, bucket_count * BUCKET_HEADER_SIZE) {
                Err(CastError::OutOfBounds { offset: buckets })
            } else {
                Ok(TableView { buf: b, name, columns, column_count, buckets, bucket_count })
            },
        }
    }
}

/// The offset of the `i`-th entry of the directory `t`.
pub open spec fn entry_addr(t: TablesView, i: int) -> int {
    t.base + i * TABLE_HEADER_SIZE
}

/// A complete in-memory read-only database: a reference to the whole
/// byte buffer of a file.
#[derive(Clone, Copy)]
pub struct Database<'a> {
    buf: &'a [u8],
}

impl<'a> View for Database<'a> {
    type V = Seq<u8>;

    closed spec fn view(&self) -> Seq<u8> {
        self.buf@
    }
}

/// The file header.
#[derive(Clone, Copy)]
pub struct Header<'a> {
    buf: &'a [u8],
}

impl<'a> View for Header<'a> {
    type V = Seq<u8>;

    closed spec fn view(&self) -> Seq<u8> {
        self.buf@
    }
}

/// The table directory.
#[derive(Clone, Copy)]
pub struct Tables<'a> {
    buf: &'a [u8],
    base: u32,
    count: u32,
}

impl<'a> View for Tables<'a> {
    type V = TablesView;

    closed spec fn view(&self) -> TablesView {
        TablesView { buf: self.buf@, base: self.base, count: self.count }
    }
}

/// A single table.
#[derive(Clone, Copy)]
pub struct Table<'a> {
    buf: &'a [u8],
    name: Latin1Str<'a>,
    columns: u32,
    column_count: u32,
    buckets: u32,
    bucket_count: u32,
}

impl<'a> View for Table<'a> {
    type V = TableView;

    closed spec fn view(&self) -> TableView {
        TableView {
            buf: self.buf@,
            name: self.name@,
            columns: self.columns,
            column_count: self.column_count,
            buckets: self.buckets,
            bucket_count: self.bucket_count,
        }
    }
}

impl<'a> Header<'a> {
    /// Whether the header lies in the buffer.
    pub open spec fn wf(&self) -> bool {
        fits(self@.len() as int, 0, HEADER_SIZE as int)
    }

    /// The table directory that the header points at.
    pub fn tables(self) -> (r: Result<Tables<'a>, CastError>)
        requires
            self.wf(),
        ensures
            r matches Ok(t) ==> header_tables(self@) == Ok::<TablesView, CastError>(t@) && t.wf(),
            r matches Err(e) ==> header_tables(self@) == Err::<TablesView, CastError>(e),
    {
        let count = read_u32(self.buf, 0);
        let base = read_u32(self.buf, 4);
        match cast_array(self.buf, base, count, TABLE_HEADER_SIZE) {
            Ok(_) => Ok(Tables { buf: self.buf, base, count }),
            Err(e) => Err(e),
        }
    }
}

impl<'a> Database<'a> {
    /// Wraps the complete byte buffer of a file.
    pub fn new(buf: &'a [u8]) -> (r: Database<'a>)
        ensures
            r@ == buf@,
    {
        Database { buf }
    }

    /// The file header: `OutOfBounds` where the buffer is too short to hold one.
    pub fn header(self) -> (r: Result<Header<'a>, CastError>)
        ensures
            r is Ok <==> fits(self@.len() as int, 0, HEADER_SIZE as int),
            r matches Ok(h) ==> h@ == self@ && h.wf(),
            r matches Err(e) ==> e == (CastError::OutOfBounds { offset: 0 }),
    {
        match cast(self.buf, 0, HEADER_SIZE as usize) {
            Ok(_) => Ok(Header { buf: self.buf }),
            Err(e) => Err(e),
        }
    }

    /// The table directory.
    pub fn tables(self) -> (r: Result<Tables<'a>, CastError>)
        ensures
            r matches Ok(t) ==> header_tables(self@) == Ok::<TablesView, CastError>(t@) && t.wf(),
            r matches Err(e) ==> header_tables(self@) == Err::<TablesView, CastError>(e),
    {
        let header = match self.header() {
            Ok(h) => h,
            Err(e) => return Err(e),
        };
        header.tables()
    }
}

/// Decodes the table whose directory entry lies at `entry`.
fn map_table_header<'a>(buf: &'a [u8], entry: usize) -> (r: Result<Table<'a>, CastError>)
    requires
        entry + TABLE_HEADER_SIZE <= buf@.len(),
    ensures
        r matches Ok(t) ==> table_at(buf@, entry as int) == Ok::<TableView, CastError>(t@) && t.wf(),
        r matches Err(e) ==> table_at(buf@, entry as int) == Err::<TableView, CastError>(e),
{
    reveal(table_at);
    proof {
        assert(buf.len() == buf@.len());
    }
    let def_addr = read_u32(buf, entry);
    let data_addr = read_u32(buf, entry + 4);
    let def = match cast(buf, def_addr, TABLE_DEF_HEADER_SIZE as usize) {
        Ok(d) => d,
        Err(e) => return Err(e),
    };
    let data = match cast(buf, data_addr, TABLE_DATA_HEADER_SIZE as usize) {
        Ok(d) => d,
        Err(e) => return Err(e),
    };
    let column_count = read_u32(def, 0);
    let name_addr = read_u32(def, 4);
    let columns = read_u32(def, 8);
    let bucket_count = read_u32(data, 0);
    let buckets = read_u32(data, 4);
    let name = match get_latin1_str(buf, name_addr) {
        Ok(n) => n,
        Err(e) => return Err(e),
    };
    if let Err(e) = cast_array(buf, columns, column_count, COLUMN_HEADER_SIZE) {
        return Err(e);
    }
    if let Err(e) = cast_array(buf, buckets, bucket_count, BUCKET_HEADER_SIZE) {
        return Err(e);
    }
    Ok(Table { buf, name, columns, column_count, buckets, bucket_count })
}

impl<'a> Tables<'a> {
    /// Whether the directory lies in the buffer.
    pub open spec fn wf(&self) -> bool {
        fits(self@.buf.len() as int, self@.base as int, self@.count * TABLE_HEADER_SIZE)
    }

    /// The number of tables.
    pub fn len(self) -> (r: usize)
        ensures
            r == self@.count,
    {
        self.count as usize
    }

    /// Whether there are no tables.
    pub fn is_empty(self) -> (r: bool)
        ensures
            r == (self@.count == 0),
    {
        self.count == 0
    }

    /// The table at `index`: `None` past the end of the directory.
    pub fn get(self, index: usize) -> (r: Option<Result<Table<'a>, CastError>>)
        requires
            self.wf(),
        ensures
            r is None <==> index >= self@.count,
            r matches Some(Ok(t)) ==> table_at(self@.buf, entry_addr(self@, index as int))
                == Ok::<TableView, CastError>(t@) && t.wf(),
            r matches Some(Err(e)) ==> table_at(self@.buf, entry_addr(self@, index as int))
                == Err::<TableView, CastError>(e),
    {
        if index >= self.count as usize {
            return None;
        }
        proof {
            assert(index * TABLE_HEADER_SIZE + TABLE_HEADER_SIZE <= self.count * TABLE_HEADER_SIZE)
                by (nonlinear_arith)
                requires
                    index < self.count,
            ;
        }
        proof {
            assert(self.buf.len() == self.buf@.len());
        }
        let entry = self.base as usize + index * (TABLE_HEADER_SIZE as usize);
        Some(map_table_header(self.buf, entry))
    }
}


/// A column as decoded from its header.
pub struct ColumnView {
    pub name: Seq<u8>,
    pub value_type: ValueType,
}

/// The column whose header lies at `addr` in `b`.
pub open spec fn column_at_spec(b: Seq<u8>, addr: int) -> Result<ColumnView, CastError> {
    match latin1_at(b, le_u32(b, addr + 4)) {
        Ok(name) => Ok(ColumnView { name, value_type: value_type_of(le_u32(b, addr)) }),
        Err(e) => Err(e),
    }
}

/// A bucket: the buffer and the offset of the first entry of its row list.
pub struct BucketView {
    pub buf: Seq<u8>,
    pub head: u32,
}

/// A row: the buffer and the location of its field array.
pub struct RowView {
    pub buf: Seq<u8>,
    pub fields: u32,
    pub count: u32,
}

/// The value of a field; a float is held as its IEEE-754 bit pattern.
pub enum FieldValue {
    Nothing,
    Integer(i32),
    Float(u32),
    Text(Seq<u8>),
    Boolean(bool),
    BigInt(i64),
    VarChar(Seq<u8>),
}

/// The field whose record lies at `addr` in `b`.
pub open spec fn field_at_spec(b: Seq<u8>, addr: int) -> Result<FieldValue, CastError> {
    let payload = le_u32(b, addr + 4);
    match value_type_of(le_u32(b, addr)) {
        ValueType::Nothing => Ok(FieldValue::Nothing),
        ValueType::Integer => Ok(FieldValue::Integer(#[verifier::truncate] (payload as i32))),
        ValueType::Float => Ok(FieldValue::Float(payload)),
        ValueType::Text => match latin1_at(b, payload) {
            Ok(s) => Ok(FieldValue::Text(s)),
            Err(e) => Err(e),
        },
        ValueType::Boolean => Ok(FieldValue::Boolean(payload != 0)),
        ValueType::BigInt => if fits(b.len() as int, payload as int, 8) {
            Ok(FieldValue::BigInt(#[verifier::truncate] (le_u64(b, payload as int) as i64)))
        } else {
            Err(CastError::OutOfBounds { offset: payload })
        },
        ValueType::VarChar => match latin1_at(b, payload) {
            Ok(s) => Ok(FieldValue::VarChar(s)),
            Err(e) => Err(e),
        },
        ValueType::Unknown(tag) => Err(CastError::UnknownValueType { tag }),
    }
}

/// A column definition.
pub struct Column<'a> {
    name: Latin1Str<'a>,
    domain: ValueType,
}

impl<'a> View for Column<'a> {
    type V = ColumnView;

    closed spec fn view(&self) -> ColumnView {
        ColumnView { name: self.name@, value_type: self.domain }
    }
}

/// A bucket of a table: the head of a list of rows.
#[derive(Clone, Copy)]
pub struct Bucket<'a> {
    buf: &'a [u8],
    first: u32,
}

impl<'a> View for Bucket<'a> {
    type V = BucketView;

    closed spec fn view(&self) -> BucketView {
        BucketView { buf: self.buf@, head: self.first }
    }
}

/// A single row.
#[derive(Clone, Copy)]
pub struct Row<'a> {
    buf: &'a [u8],
    fields: u32,
    count: u32,
}

impl<'a> View for Row<'a> {
    type V = RowView;

    closed spec fn view(&self) -> RowView {
        RowView { buf: self.buf@, fields: self.fields, count: self.count }
    }
}

/// The value of a field, borrowing strings from the buffer; a float is
/// held as its IEEE-754 bit pattern.
#[derive(Debug, Clone, Copy, PartialEq)]
pub enum Field<'a> {
    /// The `NULL` value
    Nothing,
    /// A 32 bit signed integer
    Integer(i32),
    /// The bits of a 32 bit IEEE floating point number
    Float(u32),
    /// A latin-1 encoded string
    Text(Latin1Str<'a>),
    /// A boolean
    Boolean(bool),
    /// A 64 bit integer
    BigInt(i64),
    /// A short latin-1 encoded string
    VarChar(Latin1Str<'a>),
}

impl<'a> View for Field<'a> {
    type V = FieldValue;

    open spec fn view(&self) -> FieldValue {
        match self {
            Field::Nothing => FieldValue::Nothing,
            Field::Integer(v) => FieldValue::Integer(*v),
            Field::Float(v) => FieldValue::Float(*v),
            Field::Text(s) => FieldValue::Text(s@),
            Field::Boolean(v) => FieldValue::Boolean(*v),
            Field::BigInt(v) => FieldValue::BigInt(*v),
            Field::VarChar(s) => FieldValue::VarChar(s@),
        }
    }
}

/// Decodes the column header at `addr`.
fn map_column_header<'a>(buf: &'a [u8], addr: usize) -> (r: Result<Column<'a>, CastError>)
    requires
        addr + COLUMN_HEADER_SIZE <= buf@.len(),
    ensures
        r matches Ok(c) ==> column_at_spec(buf@, addr as int) == Ok::<ColumnView, CastError>(c@),
        r matches Err(e) ==> column_at_spec(buf@, addr as int) == Err::<ColumnView, CastError>(e),
{
    proof {
        assert(buf.len() == buf@.len());
    }
    let tag = read_u32(buf, addr);
    let name_addr = read_u32(buf, addr + 4);
    match get_latin1_str(buf, name_addr) {
        Ok(name) => Ok(Column { name, domain: ValueType::from_tag(tag) }),
        Err(e) => Err(e),
    }
}

/// Decodes the field record at `addr`: its type tag, then its payload.
fn map_field<'a>(buf: &'a [u8], addr: usize) -> (r: Result<Field<'a>, CastError>)
    requires
        addr + FIELD_DATA_SIZE <= buf@.len(),
    ensures
        r matches Ok(f) ==> field_at_spec(buf@, addr as int) == Ok::<FieldValue, CastError>(f@),
        r matches Err(e) ==> field_at_spec(buf@, addr as int) == Err::<FieldValue, CastError>(e),
{
    proof {
        assert(buf.len() == buf@.len());
    }
    let tag = read_u32(buf, addr);
    let payload = read_u32(buf, addr + 4);
    match ValueType::from_tag(tag) {
        ValueType::Nothing => Ok(Field::Nothing),
        ValueType::Integer => Ok(Field::Integer(#[verifier::truncate] (payload as i32))),
        ValueType::Float => Ok(Field::Float(payload)),
        ValueType::Text => match get_latin1_str(buf, payload) {
            Ok(s) => Ok(Field::Text(s)),
            Err(e) => Err(e),
        },
        ValueType::Boolean => Ok(Field::Boolean(payload != 0)),
        ValueType::BigInt => match cast(buf, payload, 8) {
            Ok(_) => Ok(Field::BigInt(#[verifier::truncate] (read_u64(buf, payload as usize) as i64))),
            Err(e) => Err(e),
        },
        ValueType::VarChar => match get_latin1_str(buf, payload) {
            Ok(s) => Ok(Field::VarChar(s)),
            Err(e) => Err(e),
        },
        ValueType::Unknown(tag) => Err(CastError::UnknownValueType { tag }),
    }
}

impl<'a> Table<'a> {
    /// Whether the column and bucket arrays lie in the buffer.
    pub open spec fn wf(&self) -> bool {
        &&& fits(self@.buf.len() as int, self@.columns as int, self@.column_count * COLUMN_HEADER_SIZE)
        &&& fits(self@.buf.len() as int, self@.buckets as int, self@.bucket_count * BUCKET_HEADER_SIZE)
    }

    /// The undecoded name of the table.
    pub fn name_raw(&self) -> (r: Latin1Str<'a>)
        ensures
            r@ == self@.name,
    {
        self.name
    }

    /// The name of the table.
    pub fn name(&self) -> (r: String)
        ensures
            r@ == crate::buffer::latin1_chars(self@.name),
    {
        self.name.decode()
    }

    /// The number of columns.
    pub fn column_count(&self) -> (r: usize)
        ensures
            r == self@.column_count,
    {
        self.column_count as usize
    }

    /// The column at `index`: `None` past the last column.
    pub fn column_at(&self, index: usize) -> (r: Option<Result<Column<'a>, CastError>>)
        requires
            self.wf(),
        ensures
            r is None <==> index >= self@.column_count,
            r matches Some(Ok(c)) ==> column_at_spec(
                self@.buf,
                self@.columns + index * COLUMN_HEADER_SIZE,
            ) == Ok::<ColumnView, CastError>(c@),
            r matches Some(Err(e)) ==> column_at_spec(
                self@.buf,
                self@.columns + index * COLUMN_HEADER_SIZE,
            ) == Err::<ColumnView, CastError>(e),
    {
        if index >= self.column_count as usize {
            return None;
        }
        proof {
            assert(index * COLUMN_HEADER_SIZE + COLUMN_HEADER_SIZE <= self.column_count
                * COLUMN_HEADER_SIZE) by (nonlinear_arith)
                requires
                    index < self.column_count,
            ;
        }
        proof {
            assert(self.buf.len() == self.buf@.len());
        }
        let addr = self.columns as usize + index * (COLUMN_HEADER_SIZE as usize);
        Some(map_column_header(self.buf, addr))
    }

    /// The number of buckets.
    pub fn bucket_count(&self) -> (r: usize)
        ensures
            r == self@.bucket_count,
    {
        self.bucket_count as usize
    }

    /// The bucket at `index`: `None` past the last bucket.
    pub fn bucket_at(&self, index: usize) -> (r: Option<Bucket<'a>>)
        requires
            self.wf(),
        ensures
            r is None <==> index >= self@.bucket_count,
            r matches Some(b) ==> b@ == (BucketView {
                buf: self@.buf,
                head: le_u32(self@.buf, self@.buckets + index * BUCKET_HEADER_SIZE),
            }),
    {
        if index >= self.bucket_count as usize {
            return None;
        }
        proof {
            assert(index * BUCKET_HEADER_SIZE + BUCKET_HEADER_SIZE <= self.bucket_count
                * BUCKET_HEADER_SIZE) by (nonlinear_arith)
                requires
                    index < self.bucket_count,
            ;
        }
        proof {
            assert(self.buf.len() == self.buf@.len());
        }
        let addr = self.buckets as usize + index * (BUCKET_HEADER_SIZE as usize);
        Some(Bucket { buf: self.buf, first: read_u32(self.buf, addr) })
    }
}

impl<'a> Column<'a> {
    /// The name of the column.
    pub fn name(&self) -> (r: String)
        ensures
            r@ == crate::buffer::latin1_chars(self@.name),
    {
        self.name.decode()
    }

    /// The declared value type of the column.
    pub fn value_type(&self) -> (r: ValueType)
        ensures
            r == self@.value_type,
    {
        self.domain
    }
}

impl<'a> Bucket<'a> {
    /// Whether the bucket holds no rows.
    pub fn is_empty(&self) -> (r: bool)
        ensures
            r == (self@.head == NO_ENTRY),
    {
        self.first == NO_ENTRY
    }
}

impl<'a> Row<'a> {
    /// Whether the field array lies in the buffer.
    pub open spec fn wf(&self) -> bool {
        fits(self@.buf.len() as int, self@.fields as int, self@.count * FIELD_DATA_SIZE)
    }

    /// The number of fields.
    pub fn field_count(&self) -> (r: usize)
        ensures
            r == self@.count,
    {
        self.count as usize
    }

    /// The field at `index`: `None` past the last field.
    pub fn field_at(&self, index: usize) -> (r: Option<Result<Field<'a>, CastError>>)
        requires
            self.wf(),
        ensures
            r is None <==> index >= self@.count,
            r matches Some(Ok(f)) ==> field_at_spec(self@.buf, self@.fields + index * FIELD_DATA_SIZE)
                == Ok::<FieldValue, CastError>(f@),
            r matches Some(Err(e)) ==> field_at_spec(
                self@.buf,
                self@.fields + index * FIELD_DATA_SIZE,
            ) == Err::<FieldValue, CastError>(e),
    {
        if index >= self.count as usize {
            return None;
        }
        proof {
            assert(index * FIELD_DATA_SIZE + FIELD_DATA_SIZE <= self.count * FIELD_DATA_SIZE)
                by (nonlinear_arith)
                requires
                    index < self.count,
            ;
        }
        proof {
            assert(self.buf.len() == self.buf@.len());
        }
        let addr = self.fields as usize + index * (FIELD_DATA_SIZE as usize);
        Some(map_field(self.buf, addr))
    }
}

impl<'a> Field<'a> {
    /// The value of an `Integer` field.
    pub fn into_opt_integer(self) -> (r: Option<i32>)
        ensures
            r == (if let Field::Integer(v) = self {
                Some(v)
            } else {
                None
            }),
    {
        if let Field::Integer(value) = self {
            Some(value)
        } else {
            None
        }
    }

    /// The bit pattern of a `Float` field.
    pub fn into_opt_float(self) -> (r: Option<u32>)
        ensures
            r == (if let Field::Float(v) = self {
                Some(v)
            } else {
                None
            }),
    {
        if let Field::Float(value) = self {
            Some(value)
        } else {
            None
        }
    }

    /// The string of a `Text` field.
    pub fn into_opt_text(self) -> (r: Option<Latin1Str<'a>>)
        ensures
            r == (if let Field::Text(v) = self {
                Some(v)
            } else {
                None
            }),
    {
        if let Field::Text(value) = self {
            Some(value)
        } else {
            None
        }
    }

    /// The value of a `Boolean` field.
    pub fn into_opt_boolean(self) -> (r: Option<bool>)
        ensures
            r == (if let Field::Boolean(v) = self {
                Some(v)
            } else {
                None
            }),
    {
        if let Field::Boolean(value) = self {
            Some(value)
        } else {
            None
        }
    }

    /// The value of a `BigInt` field.
    pub fn into_opt_big_int(self) -> (r: Option<i64>)
        ensures
            r == (if let Field::BigInt(v) = self {
                Some(v)
            } else {
                None
            }),
    {
        if let Field::BigInt(value) = self {
            Some(value)
        } else {
            None
        }
    }

    /// The string of a `VarChar` field.
    pub fn into_opt_varchar(self) -> (r: Option<Latin1Str<'a>>)
        ensures
            r == (if let Field::VarChar(v) = self {
                Some(v)
            } else {
                None
            }),
    {
        if let Field::VarChar(value) = self {
            Some(value)
        } else {
            None
        }
    }
}


/// The name of the table whose directory entry lies at `entry` in `b`,
/// where its definition and its name can be read.
pub open spec fn name_at_entry(b: Seq<u8>, entry: int) -> Option<Seq<u8>> {
    let def = le_u32(b, entry);
    if fits(b.len() as int, def as int, TABLE_DEF_HEADER_SIZE as int) {
        match latin1_at(b, le_u32(b, def + 4)) {
            Ok(name) => Some(name),
            Err(_) => None,
        }
    } else {
        None
    }
}

/// The name of the `i`-th table of the directory `t`.
pub open spec fn entry_name(t: TablesView, i: int) -> Option<Seq<u8>> {
    name_at_entry(t.buf, entry_addr(t, i))
}

/// A table that decodes carries the name of its entry.
pub proof fn lemma_table_name(b: Seq<u8>, entry: int)
    requires
        table_at(b, entry) is Ok,
    ensures
        name_at_entry(b, entry) == Some(table_at(b, entry)->Ok_0.name),
{
    reveal(table_at);
}

/// Whether every name of the directory `t` can be read and the names
/// ascend strictly in byte order.
pub open spec fn names_sorted(t: TablesView) -> bool {
    &&& forall|i: int| 0 <= i < t.count ==> (#[trigger] entry_name(t, i)) is Some
    &&& forall|i: int, j: int|
        0 <= i < j < t.count ==> lex_cmp(
            #[trigger] entry_name(t, i)->0,
            #[trigger] entry_name(t, j)->0,
        ) == Ordering::Less
}

/// In a sorted directory a name occurs at most once.
pub proof fn lemma_sorted_names_unique(t: TablesView, i: int, j: int, name: Seq<u8>)
    requires
        names_sorted(t),
        0 <= i < t.count,
        0 <= j < t.count,
        entry_name(t, i) == Some(name),
        entry_name(t, j) == Some(name),
    ensures
        i == j,
{
    lemma_lex_equal(name, name);
    if i < j {
        assert(lex_cmp(entry_name(t, i)->0, entry_name(t, j)->0) == Ordering::Less);
    } else if j < i {
        assert(lex_cmp(entry_name(t, j)->0, entry_name(t, i)->0) == Ordering::Less);
    }
}

/// Compares the null-terminated name at the start of `name_bytes` with the
/// query `bytes`: the ordering of the name relative to the query.
fn compare_bytes(bytes: &[u8], name_bytes: &[u8]) -> (r: Ordering)
    requires
        cstr(name_bytes@) is Some,
    ensures
        r == lex_cmp(cstr(name_bytes@)->0, bytes@),
{
    let ghost z: int = choose|i: int| is_first_zero(name_bytes@, i);
    let ghost a = name_bytes@.take(z);
    let n = bytes.len();
    let mut i: usize = 0;
    while i < n
        invariant
            n == bytes@.len(),
            i <= n,
            i <= z,
            is_first_zero(name_bytes@, z),
            a == name_bytes@.take(z),
            lex_from(a, bytes@, 0) == lex_from(a, bytes@, i as int),
        decreases n - i,
    {
        let c = name_bytes[i];
        if c == 0 {
            return Ordering::Less;
        }
        if c < bytes[i] {
            return Ordering::Less;
        }
        if c > bytes[i] {
            return Ordering::Greater;
        }
        i = i + 1;
    }
    if name_bytes[i] == 0 {
        Ordering::Equal
    } else {
        Ordering::Greater
    }
}

/// The bytes from the name of the table whose entry lies at `entry` to the
/// end of the buffer; the name's terminator among them.
fn entry_name_bytes<'a>(buf: &'a [u8], entry: usize) -> (r: Result<&'a [u8], CastError>)
    requires
        entry + TABLE_HEADER_SIZE <= buf@.len(),
    ensures
        r matches Ok(h) ==> cstr(h@) is Some && name_at_entry(buf@, entry as int) == cstr(h@),
        r is Err ==> name_at_entry(buf@, entry as int) is None,
{
    let n = buf.len();
    let def_addr = read_u32(buf, entry);
    let def = match cast(buf, def_addr, TABLE_DEF_HEADER_SIZE as usize) {
        Ok(d) => d,
        Err(e) => return Err(e),
    };
    let name_addr = read_u32(def, 4);
    if let Err(e) = get_latin1_str(buf, name_addr) {
        return Err(e);
    }
    Ok(slice_subrange(buf, name_addr as usize, n))
}

/// In a sorted directory, every name up to one that sorts before `q` sorts before `q`.
proof fn lemma_below(t: TablesView, q: Seq<u8>, lo: int, mid: int)
    requires
        names_sorted(t),
        0 <= lo <= mid < t.count,
        lex_cmp(entry_name(t, mid)->0, q) == Ordering::Less,
        forall|i: int| 0 <= i < lo ==> lex_cmp(#[trigger] entry_name(t, i)->0, q) == Ordering::Less,
    ensures
        forall|i: int| 0 <= i <= mid ==> lex_cmp(#[trigger] entry_name(t, i)->0, q) == Ordering::Less,
{
    assert forall|i: int| 0 <= i <= mid implies lex_cmp(#[trigger] entry_name(t, i)->0, q)
        == Ordering::Less by {
        if i < mid {
            assert(lex_cmp(entry_name(t, i)->0, entry_name(t, mid)->0) == Ordering::Less);
            lemma_lex_trans(entry_name(t, i)->0, entry_name(t, mid)->0, q);
        }
    }
}

/// In a sorted directory, every name from one that sorts after `q` on sorts after `q`.
proof fn lemma_above(t: TablesView, q: Seq<u8>, hi: int, mid: int)
    requires
        names_sorted(t),
        0 <= mid < hi <= t.count,
        lex_cmp(entry_name(t, mid)->0, q) == Ordering::Greater,
        forall|i: int| hi <= i < t.count ==> lex_cmp(#[trigger] entry_name(t, i)->0, q) == Ordering::Greater,
    ensures
        forall|i: int| mid <= i < t.count ==> lex_cmp(#[trigger] entry_name(t, i)->0, q) == Ordering::Greater,
{
    lemma_lex_flip(entry_name(t, mid)->0, q);
    assert forall|j: int| mid <= j < t.count implies lex_cmp(#[trigger] entry_name(t, j)->0, q)
        == Ordering::Greater by {
        if j > mid {
            assert(lex_cmp(entry_name(t, mid)->0, entry_name(t, j)->0) == Ordering::Less);
            lemma_lex_trans(q, entry_name(t, mid)->0, entry_name(t, j)->0);
            lemma_lex_flip(q, entry_name(t, j)->0);
        }
    }
}

impl<'a> Tables<'a> {
    /// Compares the name of the table at `index` with the query `bytes`.
    fn probe(&self, index: usize, bytes: &[u8]) -> (r: Result<Ordering, CastError>)
        requires
            self.wf(),
            index < self@.count,
        ensures
            r is Err <==> entry_name(self@, index as int) is None,
            r matches Ok(c) ==> c == lex_cmp(entry_name(self@, index as int)->0, bytes@),
    {
        proof {
            assert(index * TABLE_HEADER_SIZE + TABLE_HEADER_SIZE <= self.count * TABLE_HEADER_SIZE)
                by (nonlinear_arith)
                requires
                    index < self.count,
            ;
        }
        proof {
            assert(self.buf.len() == self.buf@.len());
        }
        let entry = self.base as usize + index * (TABLE_HEADER_SIZE as usize);
        match entry_name_bytes(self.buf, entry) {
            Ok(haystack) => Ok(compare_bytes(bytes, haystack)),
            Err(e) => Err(e),
        }
    }

    /// Binary search for the index of the table called `bytes`.
    fn search(&self, bytes: &[u8]) -> (r: Result<Option<usize>, CastError>)
        requires
            self.wf(),
        ensures
            r matches Ok(Some(i)) ==> i < self@.count && entry_name(self@, i as int) == Some(
                bytes@,
            ),
            names_sorted(self@) ==> r is Ok,
            names_sorted(self@) && r == Ok::<Option<usize>, CastError>(None) ==> forall|i: int|
                0 <= i < self@.count ==> entry_name(self@, i) != Some(bytes@),
    {
        let ghost q = bytes@;
        let ghost sorted = names_sorted(self@);
        let mut lo: usize = 0;
        let mut hi: usize = self.count as usize;
        while lo < hi
            invariant
                self.wf(),
                bytes@ == q,
                sorted == names_sorted(self@),
                lo <= hi <= self@.count,
                sorted ==> forall|i: int|
                    0 <= i < lo ==> lex_cmp(#[trigger] entry_name(self@, i)->0, q) == Ordering::Less,
                sorted ==> forall|i: int|
                    hi <= i < self@.count ==> lex_cmp(#[trigger] entry_name(self@, i)->0, q)
                        == Ordering::Greater,
            decreases hi - lo,
        {
            let mid = lo + (hi - lo) / 2;
            match self.probe(mid, bytes) {
                Err(e) => {
                    return Err(e);
                },
                Ok(Ordering::Equal) => {
                    proof {
                        lemma_lex_equal(entry_name(self@, mid as int)->0, q);
                    }
                    return Ok(Some(mid));
                },
                Ok(Ordering::Less) => {
                    proof {
                        if sorted {
                            lemma_below(self@, q, lo as int, mid as int);
                        }
                    }
                    lo = mid + 1;
                },
                Ok(Ordering::Greater) => {
                    proof {
                        if sorted {
                            lemma_above(self@, q, hi as int, mid as int);
                        }
                    }
                    hi = mid;
                },
            }
        }
        proof {
            if sorted {
                assert forall|i: int| 0 <= i < self@.count implies entry_name(self@, i) != Some(q) by {
                    lemma_lex_equal(entry_name(self@, i)->0, q);
                }
            }
        }
        Ok(None)
    }

    /// The table called `name`, found by binary search: `None` where the
    /// search meets no table of that name. A directory whose names are not
    /// sorted may give `None` or an error although the name occurs.
    pub fn by_name(&self, name: &str) -> (r: Option<Result<Table<'a>, CastError>>)
        requires
            self.wf(),
        ensures
            r matches Some(Ok(t)) ==> t.wf() && t@.name == name.spec_bytes() && exists|i: int|
                0 <= i < self@.count && table_at(self@.buf, entry_addr(self@, i)) == Ok::<
                    TableView,
                    CastError,
                >(t@),
            names_sorted(self@) ==> (r is None <==> !exists|i: int|
                0 <= i < self@.count && entry_name(self@, i) == Some(name.spec_bytes())),
            names_sorted(self@) ==> (r matches Some(Err(e)) ==> exists|i: int|
                0 <= i < self@.count && entry_name(self@, i) == Some(name.spec_bytes())
                    && table_at(self@.buf, entry_addr(self@, i)) == Err::<TableView, CastError>(e)),
    {
        let bytes = name.as_bytes();
        match self.search(bytes) {
            Err(e) => Some(Err(e)),
            Ok(None) => None,
            Ok(Some(index)) => {
                let t = self.get(index);
                proof {
                    if t matches Some(Ok(tt)) {
                        lemma_table_name(self@.buf, entry_addr(self@, index as int));
                    }
                }
                t
            },
        }
    }
}


/// The row of the list entry at `entry` in `b`.
pub open spec fn row_at(b: Seq<u8>, entry: u32) -> Result<RowView, CastError> {
    if !fits(b.len() as int, entry as int, ROW_LIST_ENTRY_SIZE as int) {
        Err(CastError::OutOfBounds { offset: entry })
    } else {
        let header = le_u32(b, entry as int);
        if !fits(b.len() as int, header as int, ROW_HEADER_SIZE as int) {
            Err(CastError::OutOfBounds { offset: header })
        } else {
            let count = le_u32(b, header as int);
            let fields = le_u32(b, header + 4);
            if !fits(b.len() as int, fields as int, count * FIELD_DATA_SIZE) {
                Err(CastError::OutOfBounds { offset: fields })
            } else {
                Ok(RowView { buf: b, fields, count })
            }
        }
    }
}

/// The offset of the list entry after the one at `entry`.
pub open spec fn next_entry(b: Seq<u8>, entry: u32) -> u32 {
    le_u32(b, entry + 4)
}

/// `rows` put before the rows of `rest`.
pub open spec fn prepend(rows: Seq<RowView>, rest: Result<Seq<RowView>, CastError>) -> Result<
    Seq<RowView>,
    CastError,
> {
    match rest {
        Ok(tail) => Ok(rows + tail),
        Err(e) => Err(e),
    }
}

/// The rows of the list that starts at `entry`, following at most `fuel` entries.
pub open spec fn walk_rows(b: Seq<u8>, entry: u32, fuel: nat) -> Result<Seq<RowView>, CastError>
    decreases fuel,
{
    if entry == NO_ENTRY {
        Ok(Seq::empty())
    } else if fuel == 0 {
        Err(CastError::Cycle { offset: entry })
    } else {
        match row_at(b, entry) {
            Err(e) => Err(e),
            Ok(row) => prepend(seq![row], walk_rows(b, next_entry(b, entry), (fuel - 1) as nat)),
        }
    }
}

/// The rows of the bucket `k`: every row of its list, where the list ends
/// within as many entries as the buffer has bytes.
pub open spec fn bucket_rows(k: BucketView) -> Result<Seq<RowView>, CastError> {
    walk_rows(k.buf, k.head, k.buf.len())
}

/// Whether field 0 of `row` is the integer `id`.
pub open spec fn key_matches(row: RowView, id: u32) -> Result<bool, CastError> {
    if row.count == 0 {
        Ok(false)
    } else {
        match field_at_spec(row.buf, row.fields as int) {
            Ok(FieldValue::Integer(v)) => Ok(v == #[verifier::truncate] (id as i32)),
            Ok(_) => Ok(false),
            Err(e) => Err(e),
        }
    }
}

/// The rows of `rows` whose field 0 is the integer `id`, in their order;
/// the first row whose field 0 does not decode gives the error.
pub open spec fn filter_key(rows: Seq<RowView>, id: u32) -> Result<Seq<RowView>, CastError>
    decreases rows.len(),
{
    if rows.len() == 0 {
        Ok(Seq::empty())
    } else {
        match filter_key(rows.drop_last(), id) {
            Err(e) => Err(e),
            Ok(kept) => match key_matches(rows.last(), id) {
                Err(e) => Err(e),
                Ok(true) => Ok(kept.push(rows.last())),
                Ok(false) => Ok(kept),
            },
        }
    }
}

/// Once a prefix of `rows` fails to filter, all of `rows` fails alike.
proof fn lemma_filter_err(rows: Seq<RowView>, id: u32, i: int)
    requires
        0 <= i <= rows.len(),
        filter_key(rows.take(i), id) is Err,
    ensures
        filter_key(rows, id) == filter_key(rows.take(i), id),
    decreases rows.len() - i,
{
    if i < rows.len() {
        assert(rows.take(i + 1).drop_last() == rows.take(i));
        lemma_filter_err(rows, id, i + 1);
    } else {
        assert(rows.take(i) == rows);
    }
}

/// The views of `rows`.
pub open spec fn row_views(rows: Seq<Row>) -> Seq<RowView> {
    rows.map_values(|r: Row| r@)
}

/// The row list entry at `addr`: `None` at the end of the list.
fn get_row_header_list_entry(buf: &[u8], addr: u32) -> (r: Option<Result<&[u8], CastError>>)
    ensures
        r is None <==> addr == NO_ENTRY,
        r matches Some(Ok(v)) ==> fits(buf@.len() as int, addr as int, ROW_LIST_ENTRY_SIZE as int)
            && v@ == buf@.subrange(addr as int, addr + ROW_LIST_ENTRY_SIZE),
        r matches Some(Err(e)) ==> !fits(
            buf@.len() as int,
            addr as int,
            ROW_LIST_ENTRY_SIZE as int,
        ) && e == (CastError::OutOfBounds { offset: addr }),
{
    if addr == NO_ENTRY {
        None
    } else {
        Some(cast(buf, addr, ROW_LIST_ENTRY_SIZE as usize))
    }
}

/// A walk over the rows of a bucket, one list entry at a time.
pub struct RowHeaderIter<'a> {
    buf: &'a [u8],
    next: u32,
}

impl<'a> View for RowHeaderIter<'a> {
    type V = BucketView;

    closed spec fn view(&self) -> BucketView {
        BucketView { buf: self.buf@, head: self.next }
    }
}

impl<'a> RowHeaderIter<'a> {
    /// The row of the current list entry, moving on to the next entry. An
    /// entry that cannot be resolved yields its error and ends the walk.
    pub fn next(&mut self) -> (r: Option<Result<Row<'a>, CastError>>)
        ensures
            final(self)@.buf == old(self)@.buf,
            old(self)@.head == NO_ENTRY ==> r is None && final(self)@ == old(self)@,
            old(self)@.head != NO_ENTRY ==> match row_at(old(self)@.buf, old(self)@.head) {
                Ok(row) => r matches Some(Ok(x)) && x@ == row && x.wf() && final(self)@.head
                    == next_entry(old(self)@.buf, old(self)@.head),
                Err(e) => r == Some(Err::<Row<'a>, CastError>(e)) && final(self)@.head == NO_ENTRY,
            },
    {
        let entry = match get_row_header_list_entry(self.buf, self.next) {
            None => return None,
            Some(Err(e)) => {
                self.next = NO_ENTRY;
                return Some(Err(e));
            },
            Some(Ok(v)) => v,
        };
        let header_addr = read_u32(entry, 0);
        let next = read_u32(entry, 4);
        let header = match cast(self.buf, header_addr, ROW_HEADER_SIZE as usize) {
            Ok(h) => h,
            Err(e) => {
                self.next = NO_ENTRY;
                return Some(Err(e));
            },
        };
        let count = read_u32(header, 0);
        let fields = read_u32(header, 4);
        if let Err(e) = cast_array(self.buf, fields, count, FIELD_DATA_SIZE) {
            self.next = NO_ENTRY;
            return Some(Err(e));
        }
        self.next = next;
        Some(Ok(Row { buf: self.buf, fields, count }))
    }
}

impl<'a> Bucket<'a> {
    /// A walk over the rows of this bucket, from the head of its list.
    pub fn row_iter(&self) -> (r: RowHeaderIter<'a>)
        ensures
            r@ == self@,
    {
        RowHeaderIter { buf: self.buf, next: self.first }
    }

    /// All rows of this bucket, in list order.
    pub fn rows(&self) -> (r: Result<Vec<Row<'a>>, CastError>)
        ensures
            r matches Ok(v) ==> bucket_rows(self@) == Ok::<Seq<RowView>, CastError>(row_views(v@))
                && forall|i: int| 0 <= i < v@.len() ==> (#[trigger] v@[i]).wf(),
            r matches Err(e) ==> bucket_rows(self@) == Err::<Seq<RowView>, CastError>(e),
    {
        let mut it = self.row_iter();
        let mut out: Vec<Row<'a>> = Vec::new();
        let fuel = self.buf.len();
        let mut steps: usize = 0;
        loop
            invariant
                it@.buf == self@.buf,
                steps <= fuel,
                fuel == self@.buf.len(),
                bucket_rows(self@) == prepend(
                    row_views(out@),
                    walk_rows(it@.buf, it@.head, (fuel - steps) as nat),
                ),
                forall|i: int| 0 <= i < out@.len() ==> (#[trigger] out@[i]).wf(),
            decreases fuel - steps,
        {
            if it.next == NO_ENTRY {
                assert(row_views(out@) + Seq::<RowView>::empty() == row_views(out@));
                return Ok(out);
            }
            if steps == fuel {
                return Err(CastError::Cycle { offset: it.next });
            }
            let ghost before = it@;
            match it.next() {
                Some(Ok(row)) => {
                    proof {
                        let rest = walk_rows(before.buf, it@.head, (fuel - steps - 1) as nat);
                        assert(row_views(out@.push(row)) == row_views(out@).push(row@));
                        if rest is Ok {
                            assert(row_views(out@) + (seq![row@] + rest->Ok_0) == row_views(
                                out@,
                            ).push(row@) + rest->Ok_0);
                        }
                    }
                    out.push(row);
                    steps = steps + 1;
                },
                Some(Err(e)) => {
                    return Err(e);
                },
                None => {
                    return Ok(out);
                },
            }
        }
    }
}

impl<'a> Table<'a> {
    /// The rows whose field 0 is the integer `id`, taken from the bucket
    /// `id % bucket_count` in list order; a table without buckets has none.
    pub fn index_iter(&self, id: u32) -> (r: Result<Vec<Row<'a>>, CastError>)
        requires
            self.wf(),
        ensures
            self@.bucket_count == 0 ==> (r matches Ok(v) && v@.len() == 0),
            self@.bucket_count != 0 ==> {
                let k = BucketView {
                    buf: self@.buf,
                    head: le_u32(
                        self@.buf,
                        self@.buckets + (id % self@.bucket_count) * BUCKET_HEADER_SIZE,
                    ),
                };
                &&& r matches Ok(v) ==> (match bucket_rows(k) {
                    Ok(rows) => filter_key(rows, id) == Ok::<Seq<RowView>, CastError>(
                        row_views(v@),
                    ),
                    Err(_) => false,
                })
                &&& r matches Err(e) ==> (match bucket_rows(k) {
                    Ok(rows) => filter_key(rows, id) == Err::<Seq<RowView>, CastError>(e),
                    Err(e2) => e2 == e,
                })
            },
    {
        if self.bucket_count == 0 {
            return Ok(Vec::new());
        }
        let index = (id % self.bucket_count) as usize;
        let bucket = match self.bucket_at(index) {
            Some(b) => b,
            None => return Ok(Vec::new()),
        };
        let rows = match bucket.rows() {
            Ok(v) => v,
            Err(e) => return Err(e),
        };
        let ghost all = row_views(rows@);
        let key = #[verifier::truncate] (id as i32);
        let mut out: Vec<Row<'a>> = Vec::new();
        let mut i: usize = 0;
        assert(all.take(0) == Seq::<RowView>::empty());
        assert(row_views(out@) == Seq::<RowView>::empty());
        while i < rows.len()
            invariant
                key == #[verifier::truncate] (id as i32),
                self@.bucket_count != 0,
                bucket@ == (BucketView {
                    buf: self@.buf,
                    head: le_u32(
                        self@.buf,
                        self@.buckets + (id % self@.bucket_count) * BUCKET_HEADER_SIZE,
                    ),
                }),
                bucket_rows(bucket@) == Ok::<Seq<RowView>, CastError>(all),
                all == row_views(rows@),
                i <= rows@.len(),
                forall|j: int| 0 <= j < rows@.len() ==> (#[trigger] rows@[j]).wf(),
                filter_key(all.take(i as int), id) == Ok::<Seq<RowView>, CastError>(
                    row_views(out@),
                ),
            decreases rows@.len() - i,
        {
            let row = rows[i];
            assert(all.take(i + 1).drop_last() == all.take(i as int));
            assert(all.take(i + 1).last() == row@);
            match row.field_at(0) {
                None => {},
                Some(Err(e)) => {
                    proof {
                        lemma_filter_err(all, id, i + 1);
                    }
                    return Err(e);
                },
                Some(Ok(f)) => {
                    if let Field::Integer(v) = f {
                        if v == key {
                            assert(row_views(out@.push(row)) == row_views(out@).push(row@));
                            out.push(row);
                        }
                    }
                },
            }
            i = i + 1;
        }
        assert(all.take(rows@.len() as int) == all);
        Ok(out)
    }
}


/// Keyed lookup keeps exactly the rows whose field 0 is the key: every row
/// that matches is in the result, and every row of the result is a row of
/// the bucket that matches.
pub proof fn lemma_filter_key_exact(rows: Seq<RowView>, id: u32)
    requires
        filter_key(rows, id) is Ok,
    ensures
        forall|i: int|
            0 <= i < rows.len() ==> (key_matches(#[trigger] rows[i], id) == Ok::<bool, CastError>(
                true,
            ) ==> filter_key(rows, id)->Ok_0.contains(rows[i])),
        forall|j: int|
            0 <= j < filter_key(rows, id)->Ok_0.len() ==> {
                let row = #[trigger] filter_key(rows, id)->Ok_0[j];
                rows.contains(row) && key_matches(row, id) == Ok::<bool, CastError>(true)
            },
    decreases rows.len(),
{
    if rows.len() > 0 {
        let init = rows.drop_last();
        lemma_filter_key_exact(init, id);
        let kept = filter_key(init, id)->Ok_0;
        let out = filter_key(rows, id)->Ok_0;
        assert forall|i: int|
            0 <= i < rows.len() && key_matches(#[trigger] rows[i], id) == Ok::<bool, CastError>(
                true,
            ) implies out.contains(rows[i]) by {
            if i < rows.len() - 1 {
                assert(init[i] == rows[i]);
                let k = choose|k: int| 0 <= k < kept.len() && kept[k] == init[i];
                assert(out[k] == rows[i]);
            } else {
                assert(out[out.len() - 1] == rows[i]);
            }
        }
        assert forall|j: int| 0 <= j < out.len() implies {
            let row = #[trigger] out[j];
            rows.contains(row) && key_matches(row, id) == Ok::<bool, CastError>(true)
        } by {
            if j < kept.len() {
                assert(out[j] == kept[j]);
                let k = choose|k: int| 0 <= k < init.len() && init[k] == kept[j];
                assert(rows[k] == init[k]);
            } else {
                assert(out[j] == rows[rows.len() - 1]);
            }
        }
    }
}

/// A row list that ends within some bound gives the same rows under any
/// larger bound: the walk stops at the end marker, whatever the bound.
pub proof fn lemma_walk_fuel(b: Seq<u8>, entry: u32, fuel: nat, more: nat)
    requires
        walk_rows(b, entry, fuel) is Ok,
        fuel <= more,
    ensures
        walk_rows(b, entry, more) == walk_rows(b, entry, fuel),
    decreases fuel,
{
    if entry != NO_ENTRY && fuel > 0 {
        lemma_walk_fuel(b, next_entry(b, entry), (fuel - 1) as nat, (more - 1) as nat);
    }
}


/// The view of a decoded table, or its error.
pub open spec fn table_result(r: Result<Table, CastError>) -> Result<TableView, CastError> {
    match r {
        Ok(t) => Ok(t@),
        Err(e) => Err(e),
    }
}

/// The view of a decoded column, or its error.
pub open spec fn column_result(r: Result<Column, CastError>) -> Result<ColumnView, CastError> {
    match r {
        Ok(c) => Ok(c@),
        Err(e) => Err(e),
    }
}

/// The value of a decoded field, or its error.
pub open spec fn field_result(r: Result<Field, CastError>) -> Result<FieldValue, CastError> {
    match r {
        Ok(f) => Ok(f@),
        Err(e) => Err(e),
    }
}

/// The rows of the buckets of `t` from bucket `from` on, bucket by bucket.
pub open spec fn rows_from(t: TableView, from: int) -> Result<Seq<RowView>, CastError>
    decreases t.bucket_count - from,
{
    if from < 0 || from >= t.bucket_count {
        Ok(Seq::empty())
    } else {
        let k = BucketView { buf: t.buf, head: le_u32(t.buf, t.buckets + from * BUCKET_HEADER_SIZE) };
        match bucket_rows(k) {
            Err(e) => Err(e),
            Ok(rows) => prepend(rows, rows_from(t, from + 1)),
        }
    }
}

/// A walk over the tables of a directory, in directory order.
pub struct TableIter<'a> {
    tables: Tables<'a>,
    index: usize,
}

impl<'a> TableIter<'a> {
    /// The directory walked.
    pub closed spec fn tables(&self) -> TablesView {
        self.tables@
    }

    /// The position of the next table.
    pub closed spec fn index(&self) -> int {
        self.index as int
    }

    /// Whether the directory lies in the buffer.
    pub closed spec fn wf(&self) -> bool {
        self.tables.wf()
    }

    /// The next table, decoded; `None` after the last one.
    pub fn next(&mut self) -> (r: Option<Result<Table<'a>, CastError>>)
        requires
            old(self).wf(),
        ensures
            final(self).wf(),
            final(self).tables() == old(self).tables(),
            old(self).index() >= old(self).tables().count ==> r is None && final(self).index()
                == old(self).index(),
            old(self).index() < old(self).tables().count ==> final(self).index() == old(self).index()
                + 1,
            old(self).index() < old(self).tables().count ==> (r matches Some(x) && table_result(x)
                == table_at(
                old(self).tables().buf,
                entry_addr(old(self).tables(), old(self).index()),
            )),
    {
        if self.index >= self.tables.count as usize {
            return None;
        }
        let r = self.tables.get(self.index);
        self.index = self.index + 1;
        r
    }
}

impl<'a> Tables<'a> {
    /// A walk over every table of the directory, in directory order.
    pub fn iter(&self) -> (r: TableIter<'a>)
        requires
            self.wf(),
        ensures
            r.wf(),
            r.tables() == self@,
            r.index() == 0,
    {
        TableIter { tables: *self, index: 0 }
    }
}

impl<'a> Table<'a> {
    /// Every column of the table, in order.
    pub fn column_iter(&self) -> (r: Vec<Result<Column<'a>, CastError>>)
        requires
            self.wf(),
        ensures
            r@.len() == self@.column_count,
            forall|i: int|
                0 <= i < r@.len() ==> column_result(#[trigger] r@[i]) == column_at_spec(
                    self@.buf,
                    self@.columns + i * COLUMN_HEADER_SIZE,
                ),
    {
        let mut out: Vec<Result<Column<'a>, CastError>> = Vec::new();
        let mut i: usize = 0;
        while i < self.column_count as usize
            invariant
                self.wf(),
                i <= self@.column_count,
                out@.len() == i,
                forall|j: int|
                    0 <= j < i ==> column_result(#[trigger] out@[j]) == column_at_spec(
                        self@.buf,
                        self@.columns + j * COLUMN_HEADER_SIZE,
                    ),
            decreases self@.column_count - i,
        {
            match self.column_at(i) {
                Some(c) => out.push(c),
                None => {},
            }
            i = i + 1;
        }
        out
    }

    /// Every bucket of the table, in order.
    pub fn bucket_iter(&self) -> (r: Vec<Bucket<'a>>)
        requires
            self.wf(),
        ensures
            r@.len() == self@.bucket_count,
            forall|i: int|
                0 <= i < r@.len() ==> (#[trigger] r@[i])@ == (BucketView {
                    buf: self@.buf,
                    head: le_u32(self@.buf, self@.buckets + i * BUCKET_HEADER_SIZE),
                }),
    {
        let mut out: Vec<Bucket<'a>> = Vec::new();
        let mut i: usize = 0;
        while i < self.bucket_count as usize
            invariant
                self.wf(),
                i <= self@.bucket_count,
                out@.len() == i,
                forall|j: int|
                    0 <= j < i ==> (#[trigger] out@[j])@ == (BucketView {
                        buf: self@.buf,
                        head: le_u32(self@.buf, self@.buckets + j * BUCKET_HEADER_SIZE),
                    }),
            decreases self@.bucket_count - i,
        {
            match self.bucket_at(i) {
                Some(b) => out.push(b),
                None => {},
            }
            i = i + 1;
        }
        out
    }

    /// Every row of the table, bucket by bucket; the first bucket whose
    /// list cannot be walked gives the error.
    pub fn row_iter(&self) -> (r: Result<Vec<Row<'a>>, CastError>)
        requires
            self.wf(),
        ensures
            r matches Ok(v) ==> rows_from(self@, 0) == Ok::<Seq<RowView>, CastError>(row_views(v@)),
            r matches Err(e) ==> rows_from(self@, 0) == Err::<Seq<RowView>, CastError>(e),
    {
        let mut out: Vec<Row<'a>> = Vec::new();
        let mut i: usize = 0;
        while i < self.bucket_count as usize
            invariant
                self.wf(),
                i <= self@.bucket_count,
                rows_from(self@, 0) == prepend(row_views(out@), rows_from(self@, i as int)),
            decreases self@.bucket_count - i,
        {
            let bucket = match self.bucket_at(i) {
                Some(b) => b,
                None => return Ok(out),
            };
            let mut rows = match bucket.rows() {
                Ok(v) => v,
                Err(e) => return Err(e),
            };
            let ghost before = row_views(out@);
            let ghost added = row_views(rows@);
            out.append(&mut rows);
            proof {
                assert(row_views(out@) == before + added);
                let rest = rows_from(self@, i + 1);
                if rest is Ok {
                    assert(before + (added + rest->Ok_0) == (before + added) + rest->Ok_0);
                }
            }
            i = i + 1;
        }
        assert(row_views(out@) + Seq::<RowView>::empty() == row_views(out@));
        Ok(out)
    }
}

impl<'a> Row<'a> {
    /// Every field of the row, in order.
    pub fn field_iter(&self) -> (r: Vec<Result<Field<'a>, CastError>>)
        requires
            self.wf(),
        ensures
            r@.len() == self@.count,
            forall|i: int|
                0 <= i < r@.len() ==> field_result(#[trigger] r@[i]) == field_at_spec(
                    self@.buf,
                    self@.fields + i * FIELD_DATA_SIZE,
                ),
    {
        let mut out: Vec<Result<Field<'a>, CastError>> = Vec::new();
        let mut i: usize = 0;
        while i < self.count as usize
            invariant
                self.wf(),
                i <= self@.count,
                out@.len() == i,
                forall|j: int|
                    0 <= j < i ==> field_result(#[trigger] out@[j]) == field_at_spec(
                        self@.buf,
                        self@.fields + j * FIELD_DATA_SIZE,
                    ),
            decreases self@.count - i,
        {
            match self.field_at(i) {
                Some(f) => out.push(f),
                None => {},
            }
            i = i + 1;
        }
        out
    }
}

} // verus!
