//! The trusted access mode, for files already known to be well-formed: the
//! same decoding as the checked mode, with results handed out directly.
//! Each accessor requires that the record it reads decodes, so it is for
//! callers that have established this, never for untrusted input.
use vstd::prelude::*;
use vstd::pervasive::unreached;
use crate::buffer::{le_u32, CastError, Latin1Str};
use crate::mem::{
    self, column_at_spec, entry_addr, field_at_spec, header_tables, row_at, table_at, next_entry,
    BucketView, ColumnView, FieldValue, RowView, TableView, TablesView, BUCKET_HEADER_SIZE,
    COLUMN_HEADER_SIZE, FIELD_DATA_SIZE, NO_ENTRY,
};
pub use crate::mem::{Column, Field};

verus! {

/// A complete in-memory database, read in the trusted mode.
#[derive(Clone, Copy)]
pub struct Database<'a> {
    inner: mem::Database<'a>,
}

impl<'a> View for Database<'a> {
    type V = Seq<u8>;

    closed spec fn view(&self) -> Seq<u8> {
        self.inner@
    }
}

/// The table directory, read in the trusted mode.
#[derive(Clone, Copy)]
pub struct Tables<'a> {
    inner: mem::Tables<'a>,
}

impl<'a> View for Tables<'a> {
    type V = TablesView;

    closed spec fn view(&self) -> TablesView {
        self.inner@
    }
}

/// A single table, read in the trusted mode.
#[derive(Clone, Copy)]
pub struct Table<'a> {
    inner: mem::Table<'a>,
}

impl<'a> View for Table<'a> {
    type V = TableView;

    closed spec fn view(&self) -> TableView {
        self.inner@
    }
}

/// A bucket, read in the trusted mode.
#[derive(Clone, Copy)]
pub struct Bucket<'a> {
    inner: mem::Bucket<'a>,
}

impl<'a> View for Bucket<'a> {
    type V = BucketView;

    closed spec fn view(&self) -> BucketView {
        self.inner@
    }
}

/// A walk over the rows of a bucket, read in the trusted mode.
pub struct RowHeaderIter<'a> {
    inner: mem::RowHeaderIter<'a>,
}

impl<'a> View for RowHeaderIter<'a> {
    type V = BucketView;

    closed spec fn view(&self) -> BucketView {
        self.inner@
    }
}

/// A single row, read in the trusted mode.
#[derive(Clone, Copy)]
pub struct Row<'a> {
    inner: mem::Row<'a>,
}

impl<'a> View for Row<'a> {
    type V = RowView;

    closed spec fn view(&self) -> RowView {
        self.inner@
    }
}

impl<'a> Database<'a> {
    /// Wraps the complete byte buffer of a file.
    pub fn new(buf: &'a [u8]) -> (r: Database<'a>)
        ensures
            r@ == buf@,
    {
        Database { inner: mem::Database::new(buf) }
    }

    /// The table directory, which must decode.
    pub fn tables(self) -> (r: Tables<'a>)
        requires
            header_tables(self@) is Ok,
        ensures
            header_tables(self@) == Ok::<TablesView, CastError>(r@),
            r.wf(),
    {
        match self.inner.tables() {
            Ok(t) => Tables { inner: t },
            Err(_) => unreached(),
        }
    }
}

impl<'a> Tables<'a> {
    /// Whether the directory lies in the buffer.
    pub closed spec fn wf(&self) -> bool {
        self.inner.wf()
    }

    /// Whether every table of the directory decodes.
    pub open spec fn all_decode(&self) -> bool {
        forall|i: int| 0 <= i < self@.count ==> (#[trigger] table_at(self@.buf, entry_addr(self@, i))) is Ok
    }

    /// The number of tables.
    pub fn len(&self) -> (r: usize)
        ensures
            r == self@.count,
    {
        self.inner.len()
    }

    /// The table at `index`, which must decode: `None` past the end.
    pub fn get(self, index: usize) -> (r: Option<Table<'a>>)
        requires
            self.wf(),
            index < self@.count ==> table_at(self@.buf, entry_addr(self@, index as int)) is Ok,
        ensures
            r is None <==> index >= self@.count,
            r matches Some(t) ==> t.wf() && table_at(self@.buf, entry_addr(self@, index as int))
                == Ok::<TableView, CastError>(t@),
    {
        match self.inner.get(index) {
            None => None,
            Some(Ok(t)) => Some(Table { inner: t }),
            Some(Err(_)) => unreached(),
        }
    }

    /// Every table, in directory order; all of them must decode.
    pub fn iter(&self) -> (r: Vec<Table<'a>>)
        requires
            self.wf(),
            self.all_decode(),
        ensures
            r@.len() == self@.count,
            forall|i: int|
                0 <= i < r@.len() ==> (#[trigger] r@[i]).wf() && table_at(
                    self@.buf,
                    entry_addr(self@, i),
                ) == Ok::<TableView, CastError>(r@[i]@),
    {
        let mut out: Vec<Table<'a>> = Vec::new();
        let mut i: usize = 0;
        while i < self.inner.len()
            invariant
                self.wf(),
                self.all_decode(),
                i <= self@.count,
                out@.len() == i,
                forall|j: int|
                    0 <= j < i ==> (#[trigger] out@[j]).wf() && table_at(
                        self@.buf,
                        entry_addr(self@, j),
                    ) == Ok::<TableView, CastError>(out@[j]@),
            decreases self@.count - i,
        {
            assert(table_at(self@.buf, entry_addr(self@, i as int)) is Ok);
            match self.get(i) {
                Some(t) => out.push(t),
                None => {},
            }
            i = i + 1;
        }
        out
    }
}

impl<'a> Table<'a> {
    /// Whether the column and bucket arrays lie in the buffer.
    pub closed spec fn wf(&self) -> bool {
        self.inner.wf()
    }

    /// The undecoded name of the table.
    pub fn name_raw(&self) -> (r: Latin1Str<'a>)
        ensures
            r@ == self@.name,
    {
        self.inner.name_raw()
    }

    /// The name of the table.
    pub fn name(&self) -> (r: String)
        ensures
            r@ == crate::buffer::latin1_chars(self@.name),
    {
        self.inner.name()
    }

    /// The number of columns.
    pub fn column_count(&self) -> (r: usize)
        ensures
            r == self@.column_count,
    {
        self.inner.column_count()
    }

    /// The column at `index`, which must decode: `None` past the last column.
    pub fn column_at(&self, index: usize) -> (r: Option<Column<'a>>)
        requires
            self.wf(),
            index < self@.column_count ==> column_at_spec(
                self@.buf,
                self@.columns + index * COLUMN_HEADER_SIZE,
            ) is Ok,
        ensures
            r is None <==> index >= self@.column_count,
            r matches Some(c) ==> column_at_spec(self@.buf, self@.columns + index * COLUMN_HEADER_SIZE)
                == Ok::<ColumnView, CastError>(c@),
    {
        match self.inner.column_at(index) {
            None => None,
            Some(Ok(c)) => Some(c),
            Some(Err(_)) => unreached(),
        }
    }

    /// Every column, in order; all of them must decode.
    pub fn column_iter(&self) -> (r: Vec<Column<'a>>)
        requires
            self.wf(),
            forall|i: int|
                0 <= i < self@.column_count ==> (#[trigger] column_at_spec(
                    self@.buf,
                    self@.columns + i * COLUMN_HEADER_SIZE,
                )) is Ok,
        ensures
            r@.len() == self@.column_count,
            forall|i: int|
                0 <= i < r@.len() ==> column_at_spec(self@.buf, self@.columns + i * COLUMN_HEADER_SIZE)
                    == Ok::<ColumnView, CastError>((#[trigger] r@[i])@),
    {
        let mut out: Vec<Column<'a>> = Vec::new();
        let mut i: usize = 0;
        while i < self.inner.column_count()
            invariant
                self.wf(),
                forall|i: int|
                    0 <= i < self@.column_count ==> (#[trigger] column_at_spec(
                        self@.buf,
                        self@.columns + i * COLUMN_HEADER_SIZE,
                    )) is Ok,
                i <= self@.column_count,
                out@.len() == i,
                forall|j: int|
                    0 <= j < i ==> column_at_spec(self@.buf, self@.columns + j * COLUMN_HEADER_SIZE)
                        == Ok::<ColumnView, CastError>((#[trigger] out@[j])@),
            decreases self@.column_count - i,
        {
            assert(column_at_spec(self@.buf, self@.columns + i * COLUMN_HEADER_SIZE) is Ok);
            match self.column_at(i) {
                Some(c) => out.push(c),
                None => {},
            }
            i = i + 1;
        }
        out
    }

    /// The number of buckets.
    pub fn bucket_count(&self) -> (r: usize)
        ensures
            r == self@.bucket_count,
    {
        self.inner.bucket_count()
    }

    /// The bucket at `index`: `None` past the last bucket.
    pub fn bucket_at(&self, index: usize) -> (r: Option<Bucket<'a>>)
        requires
            self.wf(),
        ensures
            r is None <==> index >= self@.bucket_count,
            r matches Some(b) ==> b@ == (BucketView {
                buf: self@.buf,
                head: le_u32(self@.buf, self@.buckets + index * BUCKET_HEADER_SIZE),
            }),
    {
        match self.inner.bucket_at(index) {
            None => None,
            Some(b) => Some(Bucket { inner: b }),
        }
    }

    /// Every bucket, in order.
    pub fn bucket_iter(&self) -> (r: Vec<Bucket<'a>>)
        requires
            self.wf(),
        ensures
            r@.len() == self@.bucket_count,
            forall|i: int|
                0 <= i < r@.len() ==> (#[trigger] r@[i])@ == (BucketView {
                    buf: self@.buf,
                    head: le_u32(self@.buf, self@.buckets + i * BUCKET_HEADER_SIZE),
                }),
    {
        let mut out: Vec<Bucket<'a>> = Vec::new();
        let mut i: usize = 0;
        while i < self.inner.bucket_count()
            invariant
                self.wf(),
                i <= self@.bucket_count,
                out@.len() == i,
                forall|j: int|
                    0 <= j < i ==> (#[trigger] out@[j])@ == (BucketView {
                        buf: self@.buf,
                        head: le_u32(self@.buf, self@.buckets + j * BUCKET_HEADER_SIZE),
                    }),
            decreases self@.bucket_count - i,
        {
            match self.bucket_at(i) {
                Some(b) => out.push(b),
                None => {},
            }
            i = i + 1;
        }
        out
    }
}

impl<'a> Bucket<'a> {
    /// A walk over the rows of this bucket, from the head of its list.
    pub fn row_iter(&self) -> (r: RowHeaderIter<'a>)
        ensures
            r@ == self@,
    {
        RowHeaderIter { inner: self.inner.row_iter() }
    }
}

impl<'a> RowHeaderIter<'a> {
    /// The row of the current list entry, which must decode, moving on to the next entry.
    pub fn next(&mut self) -> (r: Option<Row<'a>>)
        requires
            old(self)@.head != NO_ENTRY ==> row_at(old(self)@.buf, old(self)@.head) is Ok,
        ensures
            final(self)@.buf == old(self)@.buf,
            old(self)@.head == NO_ENTRY ==> r is None && final(self)@ == old(self)@,
            old(self)@.head != NO_ENTRY ==> (r matches Some(x) && x.wf() && row_at(
                old(self)@.buf,
                old(self)@.head,
            ) == Ok::<RowView, CastError>(x@) && final(self)@.head == next_entry(
                old(self)@.buf,
                old(self)@.head,
            )),
    {
        match self.inner.next() {
            None => None,
            Some(Ok(row)) => Some(Row { inner: row }),
            Some(Err(_)) => unreached(),
        }
    }
}

impl<'a> Row<'a> {
    /// Whether the field array lies in the buffer.
    pub closed spec fn wf(&self) -> bool {
        self.inner.wf()
    }

    /// The number of fields.
    pub fn field_count(&self) -> (r: usize)
        ensures
            r == self@.count,
    {
        self.inner.field_count()
    }

    /// The field at `index`, which must decode: `None` past the last field.
    pub fn field_at(&self, index: usize) -> (r: Option<Field<'a>>)
        requires
            self.wf(),
            index < self@.count ==> field_at_spec(self@.buf, self@.fields + index * FIELD_DATA_SIZE)
                is Ok,
        ensures
            r is None <==> index >= self@.count,
            r matches Some(f) ==> field_at_spec(self@.buf, self@.fields + index * FIELD_DATA_SIZE)
                == Ok::<FieldValue, CastError>(f@),
    {
        match self.inner.field_at(index) {
            None => None,
            Some(Ok(f)) => Some(f),
            Some(Err(_)) => unreached(),
        }
    }

    /// Every field, in order; all of them must decode.
    pub fn field_iter(&self) -> (r: Vec<Field<'a>>)
        requires
            self.wf(),
            forall|i: int|
                0 <= i < self@.count ==> (#[trigger] field_at_spec(
                    self@.buf,
                    self@.fields + i * FIELD_DATA_SIZE,
                )) is Ok,
        ensures
            r@.len() == self@.count,
            forall|i: int|
                0 <= i < r@.len() ==> field_at_spec(self@.buf, self@.fields + i * FIELD_DATA_SIZE)
                    == Ok::<FieldValue, CastError>((#[trigger] r@[i])@),
    {
        let mut out: Vec<Field<'a>> = Vec::new();
        let mut i: usize = 0;
        while i < self.inner.field_count()
            invariant
                self.wf(),
                forall|i: int|
                    0 <= i < self@.count ==> (#[trigger] field_at_spec(
                        self@.buf,
                        self@.fields + i * FIELD_DATA_SIZE,
                    )) is Ok,
                i <= self@.count,
                out@.len() == i,
                forall|j: int|
                    0 <= j < i ==> field_at_spec(self@.buf, self@.fields + j * FIELD_DATA_SIZE)
                        == Ok::<FieldValue, CastError>((#[trigger] out@[j])@),
            decreases self@.count - i,
        {
            assert(field_at_spec(self@.buf, self@.fields + i * FIELD_DATA_SIZE) is Ok);
            match self.field_at(i) {
                Some(f) => out.push(f),
                None => {},
            }
            i = i + 1;
        }
        out
    }
}

} // verus!
