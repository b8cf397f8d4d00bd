//! The value types of the format, and an owned, detached copy of a database.
use vstd::prelude::*;
use vstd::utf8::encode_utf8;
use vstd::string::{StringExecFns, StringSliceAdditionalSpecFns};
use crate::order::{compare_slices, lemma_lex_equal, lemma_lex_flip, lemma_lex_trans, lex_cmp};
use core::cmp::Ordering;

verus! {

/// Value datatypes used in the database.
#[derive(Debug, Clone, Copy, PartialEq, Eq, Structural)]
pub enum ValueType {
    /// The NULL value
    Nothing,
    /// A 32-bit signed integer
    Integer,
    /// A 32-bit IEEE floating point number
    Float,
    /// A long string
    Text,
    /// A boolean
    Boolean,
    /// A 64 bit integer
    BigInt,
    /// A short string
    VarChar,
    /// A tag that names none of the types above
    Unknown(u32),
}

/// The value type that the on-disk tag `tag` stands for.
pub open spec fn value_type_of(tag: u32) -> ValueType {
    if tag == 0 {
        ValueType::Nothing
    } else if tag == 1 {
        ValueType::Integer
    } else if tag == 3 {
        ValueType::Float
    } else if tag == 4 {
        ValueType::Text
    } else if tag == 5 {
        ValueType::Boolean
    } else if tag == 6 {
        ValueType::BigInt
    } else if tag == 8 {
        ValueType::VarChar
    } else {
        ValueType::Unknown(tag)
    }
}

/// The on-disk tag of the value type `v`.
pub open spec fn tag_of(v: ValueType) -> u32 {
    match v {
        ValueType::Nothing => 0,
        ValueType::Integer => 1,
        ValueType::Float => 3,
        ValueType::Text => 4,
        ValueType::Boolean => 5,
        ValueType::BigInt => 6,
        ValueType::VarChar => 8,
        ValueType::Unknown(key) => key,
    }
}

/// Whether `tag` is one of the tags that this format defines.
pub open spec fn is_known_tag(tag: u32) -> bool {
    tag == 0 || tag == 1 || tag == 3 || tag == 4 || tag == 5 || tag == 6 || tag == 8
}

/// The character of the decimal digit `d`.
pub open spec fn digit_char(d: nat) -> char {
    (48 + d) as char
}

/// The decimal digits of `n`, without leading zeros.
pub open spec fn decimal(n: nat) -> Seq<char>
    decreases n,
{
    if n < 10 {
        seq![digit_char(n)]
    } else {
        decimal(n / 10).push(digit_char(n % 10))
    }
}

/// The SQL name of a value type.
pub open spec fn sql_name(v: ValueType) -> Seq<char> {
    match v {
        ValueType::Nothing => "NULL"@,
        ValueType::Integer => "INTEGER"@,
        ValueType::Float => "FLOAT"@,
        ValueType::Text => "TEXT"@,
        ValueType::Boolean => "BOOLEAN"@,
        ValueType::BigInt => "BIGINT"@,
        ValueType::VarChar => "VARCHAR"@,
        ValueType::Unknown(k) => "UNKNOWN("@ + decimal(k as nat) + ")"@,
    }
}

/// Relies on the `Display` impl of `u32`, through `format!`: the decimal
/// digits of `n`, without sign, padding or leading zeros.
#[verifier::external_body]
fn u32_decimal(n: u32) -> (r: String)
    ensures
        r@ == decimal(n as nat),
{
    format!("{}", n)
}

impl ValueType {
    /// The SQL name of this value type, such as `INTEGER` or `UNKNOWN(2)`.
    pub fn to_string(&self) -> (r: String)
        ensures
            r@ == sql_name(*self),
    {
        match self {
            ValueType::Nothing => String::from_str("NULL"),
            ValueType::Integer => String::from_str("INTEGER"),
            ValueType::Float => String::from_str("FLOAT"),
            ValueType::Text => String::from_str("TEXT"),
            ValueType::Boolean => String::from_str("BOOLEAN"),
            ValueType::BigInt => String::from_str("BIGINT"),
            ValueType::VarChar => String::from_str("VARCHAR"),
            ValueType::Unknown(k) => {
                let mut out = String::from_str("UNKNOWN(");
                let digits = u32_decimal(*k);
                out.append(digits.as_str());
                out.append(")");
                out
            },
        }
    }

    /// The value type of an on-disk tag: column definitions and field values
    /// both go through this one mapping.
    pub fn from_tag(tag: u32) -> (r: ValueType)
        ensures
            r == value_type_of(tag),
    {
        match tag {
            0 => ValueType::Nothing,
            1 => ValueType::Integer,
            3 => ValueType::Float,
            4 => ValueType::Text,
            5 => ValueType::Boolean,
            6 => ValueType::BigInt,
            8 => ValueType::VarChar,
            k => ValueType::Unknown(k),
        }
    }

    /// The on-disk tag of this value type.
    pub fn to_tag(self) -> (r: u32)
        ensures
            r == tag_of(self),
    {
        match self {
            ValueType::Nothing => 0,
            ValueType::Integer => 1,
            ValueType::Float => 3,
            ValueType::Text => 4,
            ValueType::Boolean => 5,
            ValueType::BigInt => 6,
            ValueType::VarChar => 8,
            ValueType::Unknown(key) => key,
        }
    }
}

impl From<ValueType> for u32 {
    fn from(value_type: ValueType) -> (r: u32) {
        value_type.to_tag()
    }
}

impl vstd::std_specs::convert::FromSpecImpl<ValueType> for u32 {
    open spec fn obeys_from_spec() -> bool {
        true
    }

    open spec fn from_spec(v: ValueType) -> u32 {
        tag_of(v)
    }
}

impl From<u32> for ValueType {
    fn from(value_type: u32) -> (r: ValueType) {
        ValueType::from_tag(value_type)
    }
}

impl vstd::std_specs::convert::FromSpecImpl<u32> for ValueType {
    open spec fn obeys_from_spec() -> bool {
        true
    }

    open spec fn from_spec(v: u32) -> ValueType {
        value_type_of(v)
    }
}

/// Every tag maps to a value type and back to itself; the defined tags map
/// to named types and no other tag does.
pub proof fn lemma_tag_round_trip(tag: u32)
    ensures
        tag_of(value_type_of(tag)) == tag,
        is_known_tag(tag) <==> !(value_type_of(tag) is Unknown),
{
}

/// Every named value type maps to a defined tag and back to itself.
pub proof fn lemma_type_round_trip(v: ValueType)
    requires
        !(v is Unknown),
    ensures
        is_known_tag(tag_of(v)),
        value_type_of(tag_of(v)) == v,
{
}


/// A single field of an owned row; a float is held as its IEEE-754 bit pattern.
#[derive(Debug, PartialEq)]
pub enum Field {
    /// The NULL value
    Nothing,
    /// A 32 bit integer
    Integer(i32),
    /// The bits of a 32 bit IEEE floating point number
    Float(u32),
    /// A string
    Text(String),
    /// A boolean
    Boolean(bool),
    /// A 64 bit integer
    BigInt(i64),
    /// A short string
    VarChar(String),
}

impl Field {
    /// The value type of this field.
    pub fn value_type(&self) -> (r: ValueType)
        ensures
            r == match self {
                Field::Nothing => ValueType::Nothing,
                Field::Integer(_) => ValueType::Integer,
                Field::Float(_) => ValueType::Float,
                Field::Text(_) => ValueType::Text,
                Field::Boolean(_) => ValueType::Boolean,
                Field::BigInt(_) => ValueType::BigInt,
                Field::VarChar(_) => ValueType::VarChar,
            },
    {
        match self {
            Field::Nothing => ValueType::Nothing,
            Field::Integer(_) => ValueType::Integer,
            Field::Float(_) => ValueType::Float,
            Field::Text(_) => ValueType::Text,
            Field::Boolean(_) => ValueType::Boolean,
            Field::BigInt(_) => ValueType::BigInt,
            Field::VarChar(_) => ValueType::VarChar,
        }
    }
}

impl<'a> From<&'a Field> for ValueType {
    fn from(val: &'a Field) -> (r: ValueType) {
        val.value_type()
    }
}

impl<'a> vstd::std_specs::convert::FromSpecImpl<&'a Field> for ValueType {
    open spec fn obeys_from_spec() -> bool {
        true
    }

    open spec fn from_spec(val: &'a Field) -> ValueType {
        match *val {
            Field::Nothing => ValueType::Nothing,
            Field::Integer(_) => ValueType::Integer,
            Field::Float(_) => ValueType::Float,
            Field::Text(_) => ValueType::Text,
            Field::Boolean(_) => ValueType::Boolean,
            Field::BigInt(_) => ValueType::BigInt,
            Field::VarChar(_) => ValueType::VarChar,
        }
    }
}

/// A sequence of fields.
#[derive(Debug)]
pub struct Row(Vec<Field>);

impl View for Row {
    type V = Seq<Field>;

    closed spec fn view(&self) -> Seq<Field> {
        self.0@
    }
}

impl Row {
    /// The vector of fields.
    pub closed spec fn vec(&self) -> Vec<Field> {
        self.0
    }

    /// A new, empty row.
    pub fn new() -> (r: Row)
        ensures
            r@.len() == 0,
    {
        Row(Vec::new())
    }

    /// The row holding `fields`.
    pub fn from(fields: Vec<Field>) -> (r: Row)
        ensures
            r@ == fields@,
    {
        Row(fields)
    }

    /// The fields of this row.
    pub fn into_fields(self) -> (r: Vec<Field>)
        ensures
            r@ == self@,
    {
        self.0
    }

    /// A reference to the fields.
    pub fn fields(&self) -> (r: &Vec<Field>)
        ensures
            r@ == self@,
    {
        &self.0
    }

    /// A mutable reference to the fields.
    pub fn fields_mut(&mut self) -> (r: &mut Vec<Field>)
        ensures
            *r == old(self).vec(),
            final(self).vec() == *final(r),
    {
        &mut self.0
    }
}

/// A container of rows with the same hash value.
#[derive(Debug)]
pub struct Bucket(pub Vec<Row>);

impl Bucket {
    /// A new, empty bucket.
    pub fn new() -> (r: Bucket)
        ensures
            r.0@.len() == 0,
    {
        Bucket(Vec::new())
    }

    /// The rows of the bucket.
    pub fn rows(self) -> (r: Vec<Row>)
        ensures
            r@ == self.0@,
    {
        self.0
    }

    /// A reference to the rows.
    pub fn rows_ref(&self) -> (r: &Vec<Row>)
        ensures
            r@ == self.0@,
    {
        &self.0
    }

    /// A mutable reference to the rows.
    pub fn rows_mut(&mut self) -> (r: &mut Vec<Row>)
        ensures
            *r == old(self).0,
            final(self).0 == *final(r),
    {
        &mut self.0
    }
}

/// Name and declared type of one field in each row.
#[derive(Debug)]
pub struct Column {
    /// The name of the column
    pub name: String,
    /// The type of the column
    pub field_type: ValueType,
}

impl Column {
    /// The column called `name` of type `field_type`.
    pub fn from(data: (&str, ValueType)) -> (r: Column)
        ensures
            r.name@ == data.0@,
            r.field_type == data.1,
    {
        Column { name: data.0.to_owned(), field_type: data.1 }
    }
}

/// A list of columns with types and a name.
#[derive(Debug)]
pub struct TableDef {
    /// The columns of the table in the same order as in the rows
    pub columns: Vec<Column>,
    /// The name of the table
    pub name: String,
}

/// An array of buckets, and so a collection of rows.
#[derive(Debug)]
pub struct TableData {
    /// The buckets in this table
    pub buckets: Vec<Bucket>,
}

impl TableData {
    /// Table data without buckets.
    pub fn new() -> (r: TableData)
        ensures
            r.buckets@.len() == 0,
    {
        TableData { buckets: Vec::new() }
    }
}

/// A list of buckets, and so a collection of rows, with a name.
#[derive(Debug)]
pub struct Table {
    definition: TableDef,
    data: TableData,
}

impl Table {
    /// The vector of buckets.
    pub closed spec fn bucket_vec(&self) -> Vec<Bucket> {
        self.data.buckets
    }

    /// The vector of columns.
    pub closed spec fn column_vec(&self) -> Vec<Column> {
        self.definition.columns
    }
}

/// The bytes of the name of `t`, by which a schema orders its tables.
pub closed spec fn table_key(t: Table) -> Seq<u8> {
    encode_utf8(t.definition.name@)
}

impl Table {
    /// The name of the table, as characters.
    pub closed spec fn name_view(&self) -> Seq<char> {
        self.definition.name@
    }

    /// The table made of a definition and its data.
    pub fn from(definition: TableDef, data: TableData) -> (r: Table)
        ensures
            r.name_view() == definition.name@,
            r.column_vec() == definition.columns,
            r.bucket_vec() == data.buckets,
            table_key(r) == encode_utf8(definition.name@),
    {
        Table { definition, data }
    }

    /// The table made of a definition, without data.
    pub fn new(definition: TableDef) -> (r: Table)
        ensures
            r.name_view() == definition.name@,
            r.column_vec() == definition.columns,
            r.bucket_vec()@.len() == 0,
            table_key(r) == encode_utf8(definition.name@),
    {
        let data = TableData::new();
        Table { definition, data }
    }

    /// The buckets of the table.
    pub fn into_buckets(self) -> (r: Vec<Bucket>)
        ensures
            r@ == self.bucket_vec()@,
    {
        self.data.buckets
    }

    /// A reference to the buckets.
    pub fn buckets(&self) -> (r: &[Bucket])
        ensures
            r@ == self.bucket_vec()@,
    {
        self.data.buckets.as_slice()
    }

    /// A mutable reference to the buckets.
    pub fn buckets_mut(&mut self) -> (r: &mut Vec<Bucket>)
        ensures
            *r == old(self).bucket_vec(),
            final(self).bucket_vec() == *final(r),
            final(self).column_vec() == old(self).column_vec(),
            final(self).name_view() == old(self).name_view(),
    {
        &mut self.data.buckets
    }

    /// The columns of the table.
    pub fn into_columns(self) -> (r: Vec<Column>)
        ensures
            r@ == self.column_vec()@,
    {
        self.definition.columns
    }

    /// A reference to the columns.
    pub fn columns(&self) -> (r: &[Column])
        ensures
            r@ == self.column_vec()@,
    {
        self.definition.columns.as_slice()
    }

    /// A mutable reference to the columns.
    pub fn columns_mut(&mut self) -> (r: &mut Vec<Column>)
        ensures
            *r == old(self).column_vec(),
            final(self).column_vec() == *final(r),
            final(self).bucket_vec() == old(self).bucket_vec(),
            final(self).name_view() == old(self).name_view(),
    {
        &mut self.definition.columns
    }

    /// The name of the table.
    pub fn name(&self) -> (r: &str)
        ensures
            r@ == self.name_view(),
            r.spec_bytes() == table_key(*self),
    {
        self.definition.name.as_str()
    }
}

/// Whether the names of `s` ascend strictly, byte by byte.
pub open spec fn keys_sorted(s: Seq<Table>) -> bool {
    forall|i: int, j: int|
        0 <= i < j < s.len() ==> lex_cmp(table_key(#[trigger] s[i]), table_key(#[trigger] s[j]))
            == Ordering::Less
}

/// An ordered map of tables by name: the owned, detached copy of a database.
#[derive(Debug)]
pub struct Schema {
    tables: Vec<Table>,
}

impl View for Schema {
    type V = Seq<Table>;

    closed spec fn view(&self) -> Seq<Table> {
        self.tables@
    }
}


/// Whether no table after `all[i]` among the first `n` has its name.
pub open spec fn is_last(all: Seq<Table>, i: int, n: int) -> bool {
    forall|l: int| i < l < n ==> table_key(#[trigger] all[l]) != table_key(all[i])
}

/// Whether `x` is among the first `n` tables of `all`, with no later one of its name.
pub open spec fn stays(all: Seq<Table>, x: Table, n: int) -> bool {
    exists|i: int| 0 <= i < n && all[i] == x && is_last(all, i, n)
}

/// One insertion keeps the account of which tables a schema built from
/// `all[..k]` holds, now for `all[..k + 1]`.
proof fn lemma_from_step(all: Seq<Table>, k: int, before: Seq<Table>, s: Seq<Table>, t: Table)
    requires
        0 <= k < all.len(),
        all[k] == t,
        s.contains(t),
        forall|j: int|
            0 <= j < s.len() ==> #[trigger] s[j] == t || (before.contains(s[j]) && table_key(s[j])
                != table_key(t)),
        forall|i: int|
            0 <= i < before.len() && table_key(#[trigger] before[i]) != table_key(t)
                ==> s.contains(before[i]),
        forall|j: int| 0 <= j < before.len() ==> stays(all, #[trigger] before[j], k),
        forall|i: int| 0 <= i < k && #[trigger] is_last(all, i, k) ==> before.contains(all[i]),
    ensures
        forall|j: int| 0 <= j < s.len() ==> stays(all, #[trigger] s[j], k + 1),
        forall|i: int| 0 <= i < k + 1 && #[trigger] is_last(all, i, k + 1) ==> s.contains(all[i]),
{
    assert forall|j: int| 0 <= j < s.len() implies stays(all, #[trigger] s[j], k + 1) by {
        if s[j] == t {
            assert(is_last(all, k, k + 1));
        } else {
            let jj = choose|jj: int| 0 <= jj < before.len() && before[jj] == s[j];
            assert(stays(all, before[jj], k));
            let i = choose|i: int| 0 <= i < k && all[i] == before[jj] && is_last(all, i, k);
            assert(is_last(all, i, k + 1));
        }
    }
    assert forall|i: int| 0 <= i < k + 1 && #[trigger] is_last(all, i, k + 1) implies s.contains(
        all[i],
    ) by {
        if i < k {
            assert(table_key(all[k]) != table_key(all[i]));
            assert(is_last(all, i, k));
            let jj = choose|jj: int| 0 <= jj < before.len() && before[jj] == all[i];
            assert(table_key(before[jj]) != table_key(t));
        }
    }
}

impl Schema {
    /// Whether the tables are ordered by name, each name once.
    pub open spec fn wf(&self) -> bool {
        keys_sorted(self@)
    }

    /// A schema without tables.
    pub fn new() -> (r: Schema)
        ensures
            r@.len() == 0,
            r.wf(),
    {
        Schema { tables: Vec::new() }
    }

    /// The number of tables.
    pub fn table_count(&self) -> (r: usize)
        ensures
            r == self@.len(),
    {
        self.tables.len()
    }

    /// The position of the table called `key`, or of the first table whose
    /// name sorts after it.
    fn position(&self, key: &[u8]) -> (r: usize)
        ensures
            r <= self@.len(),
            forall|j: int| 0 <= j < r ==> lex_cmp(table_key(#[trigger] self@[j]), key@) == Ordering::Less,
            r < self@.len() ==> lex_cmp(table_key(self@[r as int]), key@) != Ordering::Less,
    {
        let mut i: usize = 0;
        while i < self.tables.len()
            invariant
                i <= self@.len(),
                forall|j: int| 0 <= j < i ==> lex_cmp(table_key(#[trigger] self@[j]), key@) == Ordering::Less,
            decreases self@.len() - i,
        {
            if !matches!(compare_slices(self.tables[i].name().as_bytes(), key), Ordering::Less) {
                return i;
            }
            i = i + 1;
        }
        i
    }

    /// Adds `t`, in place of a table of the same name if there is one.
    fn insert(&mut self, t: Table)
        requires
            old(self).wf(),
        ensures
            final(self).wf(),
            final(self)@.contains(t),
            forall|j: int|
                0 <= j < final(self)@.len() ==> #[trigger] final(self)@[j] == t || (old(self)@.contains(
                    final(self)@[j],
                ) && table_key(final(self)@[j]) != table_key(t)),
            forall|i: int|
                0 <= i < old(self)@.len() && table_key(#[trigger] old(self)@[i]) != table_key(t)
                    ==> final(self)@.contains(old(self)@[i]),
    {
        let ghost old_s = self@;
        let ghost k = table_key(t);
        let i = self.position(t.name().as_bytes());
        if i < self.tables.len() && matches!(
            compare_slices(self.tables[i].name().as_bytes(), t.name().as_bytes()),
            Ordering::Equal
        ) {
            proof {
                lemma_lex_equal(table_key(old_s[i as int]), k);
            }
            self.tables.set(i, t);
            proof {
                let s = self@;
                assert(s[i as int] == t);
                assert forall|a: int, b: int| 0 <= a < b < s.len() implies lex_cmp(
                    table_key(#[trigger] s[a]),
                    table_key(#[trigger] s[b]),
                ) == Ordering::Less by {
                    assert(table_key(s[a]) == table_key(old_s[a]));
                    assert(table_key(s[b]) == table_key(old_s[b]));
                }
                assert forall|j: int| 0 <= j < s.len() implies #[trigger] s[j] == t || (
                old_s.contains(s[j]) && table_key(s[j]) != k) by {
                    if j != i {
                        assert(old_s[j] == s[j]);
                        assert(lex_cmp(table_key(old_s[j]), table_key(old_s[i as int])) != Ordering::Equal) by {
                            if j < i {
                                assert(lex_cmp(table_key(old_s[j]), table_key(old_s[i as int])) == Ordering::Less);
                            } else {
                                assert(lex_cmp(table_key(old_s[i as int]), table_key(old_s[j])) == Ordering::Less);
                                lemma_lex_flip(table_key(old_s[i as int]), table_key(old_s[j]));
                            }
                        }
                        lemma_lex_equal(table_key(old_s[j]), table_key(old_s[i as int]));
                    }
                }
                assert forall|j: int| 0 <= j < old_s.len() && table_key(#[trigger] old_s[j]) != k implies s.contains(old_s[j]) by {
                    assert(j != i);
                    assert(s[j] == old_s[j]);
                }
            }
        } else {
            proof {
                if i < old_s.len() {
                    lemma_lex_equal(table_key(old_s[i as int]), k);
                    lemma_lex_flip(table_key(old_s[i as int]), k);
                }
                assert forall|j: int| i <= j < old_s.len() implies lex_cmp(k, table_key(#[trigger] old_s[j])) == Ordering::Less by {
                    if j > i {
                        assert(lex_cmp(table_key(old_s[i as int]), table_key(old_s[j])) == Ordering::Less);
                        lemma_lex_trans(k, table_key(old_s[i as int]), table_key(old_s[j]));
                    }
                }
            }
            self.tables.insert(i, t);
            proof {
                let s = self@;
                assert(s == old_s.insert(i as int, t));
                assert(s[i as int] == t);
                assert forall|a: int, b: int| 0 <= a < b < s.len() implies lex_cmp(
                    table_key(#[trigger] s[a]),
                    table_key(#[trigger] s[b]),
                ) == Ordering::Less by {
                    if b < i {
                        assert(s[a] == old_s[a] && s[b] == old_s[b]);
                    } else if b == i {
                        assert(s[a] == old_s[a]);
                    } else if a < i {
                        assert(s[a] == old_s[a] && s[b] == old_s[b - 1]);
                        assert(lex_cmp(k, table_key(old_s[b - 1])) == Ordering::Less);
                        lemma_lex_trans(table_key(old_s[a]), k, table_key(old_s[b - 1]));
                    } else if a == i {
                        assert(s[b] == old_s[b - 1]);
                    } else {
                        assert(s[a] == old_s[a - 1] && s[b] == old_s[b - 1]);
                    }
                }
                assert forall|j: int| 0 <= j < s.len() implies #[trigger] s[j] == t || (
                old_s.contains(s[j]) && table_key(s[j]) != k) by {
                    if j < i {
                        assert(s[j] == old_s[j]);
                        lemma_lex_equal(table_key(old_s[j]), k);
                    } else if j > i {
                        assert(s[j] == old_s[j - 1]);
                        lemma_lex_equal(k, table_key(old_s[j - 1]));
                    }
                }
                assert forall|j: int| 0 <= j < old_s.len() && table_key(#[trigger] old_s[j]) != k implies s.contains(old_s[j]) by {
                    if j < i {
                        assert(s[j] == old_s[j]);
                    } else {
                        assert(s[j + 1] == old_s[j]);
                    }
                }
            }
        }
    }

    /// The table called `name`, if there is one.
    pub fn table(&self, name: &str) -> (r: Option<&Table>)
        ensures
            r matches Some(t) ==> self@.contains(*t) && table_key(*t) == name.spec_bytes(),
            r is None ==> forall|i: int| 0 <= i < self@.len() ==> table_key(#[trigger] self@[i]) != name.spec_bytes(),
    {
        let key = name.as_bytes();
        let mut i: usize = 0;
        while i < self.tables.len()
            invariant
                key@ == name.spec_bytes(),
                i <= self@.len(),
                forall|j: int| 0 <= j < i ==> table_key(#[trigger] self@[j]) != key@,
            decreases self@.len() - i,
        {
            let c = compare_slices(self.tables[i].name().as_bytes(), key);
            proof {
                lemma_lex_equal(table_key(self@[i as int]), key@);
            }
            if matches!(c, Ordering::Equal) {
                return Some(&self.tables[i]);
            }
            i = i + 1;
        }
        None
    }

    /// The table called `name`, if there is one, to change in place; a
    /// change that keeps its name keeps the schema ordered.
    pub fn table_mut(&mut self, name: &str) -> (r: Option<&mut Table>)
        ensures
            r matches Some(t) ==> exists|i: int|
                0 <= i < old(self)@.len() && old(self)@[i] == *t && table_key(*t) == name.spec_bytes()
                    && final(self)@ == old(self)@.update(i, *final(t)),
            r is None ==> final(self)@ == old(self)@ && forall|i: int|
                0 <= i < old(self)@.len() ==> table_key(#[trigger] old(self)@[i]) != name.spec_bytes(),
    {
        let key = name.as_bytes();
        let mut i: usize = 0;
        while i < self.tables.len()
            invariant
                key@ == name.spec_bytes(),
                i <= self@.len(),
                self@ == old(self)@,
                forall|j: int| 0 <= j < i ==> table_key(#[trigger] self@[j]) != key@,
            decreases self@.len() - i,
        {
            let c = compare_slices(self.tables[i].name().as_bytes(), key);
            proof {
                lemma_lex_equal(table_key(self@[i as int]), key@);
            }
            if matches!(c, Ordering::Equal) {
                return Some(&mut self.tables[i]);
            }
            i = i + 1;
        }
        None
    }

    /// The schema of `tables`, ordered by name; of two tables with one name,
    /// the later one stays.
    pub fn from(tables: Vec<Table>) -> (r: Schema)
        ensures
            r.wf(),
            forall|j: int| 0 <= j < r@.len() ==> stays(tables@, #[trigger] r@[j], tables@.len() as int),
            forall|i: int|
                0 <= i < tables@.len() && #[trigger] is_last(tables@, i, tables@.len() as int)
                    ==> r@.contains(tables@[i]),
    {
        let ghost all = tables@;
        let mut schema = Schema::new();
        let mut rest = tables;
        let ghost mut k: int = 0;
        while rest.len() > 0
            invariant
                schema.wf(),
                0 <= k <= all.len(),
                rest@ == all.skip(k),
                forall|j: int| 0 <= j < schema@.len() ==> stays(all, #[trigger] schema@[j], k),
                forall|i: int| 0 <= i < k && #[trigger] is_last(all, i, k) ==> schema@.contains(all[i]),
            decreases rest@.len(),
        {
            let t = rest.remove(0);
            assert(t == all[k]);
            let ghost before = schema@;
            schema.insert(t);
            proof {
                lemma_from_step(all, k, before, schema@, t);
                k = k + 1;
                assert(rest@ == all.skip(k));
            }
        }
        assert(k == all.len());
        schema
    }
}

} // verus!
