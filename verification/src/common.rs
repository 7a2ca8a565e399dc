//! Types shared across the storage engine: the error taxonomy, the page
//! geometry constants, query results, table schemas, and tuples.

use vstd::prelude::*;
use vstd::bytes::{spec_u32_to_le_bytes, spec_u64_to_le_bytes, u32_to_le_bytes, u64_to_le_bytes};
use vstd::string::StringSliceAdditionalSpecFns;
use vstd::utf8::encode_utf8;

verus! {

/// How many bytes one page occupies, in memory and on disk.
pub const PAGE_SIZE: usize = 4096;

/// How many page frames the buffer pool holds.
pub const PAGE_SLOTS: usize = 50;

/// The error taxonomy surfaced on the storage boundary.
#[derive(Debug, PartialEq, Eq)]
pub enum CrustyError {
    /// An input/output failure, wrapped unchanged.
    IOError(String),
    /// A general storage error, for instance a missing container.
    CrustyError(String),
    /// A rejected argument, for instance a record too large for a page.
    ValidationError(String),
    /// A failure during query or value access, for instance a missing value.
    ExecutionError(String),
    /// A transaction was aborted.
    TransactionAbortedError,
}

impl Clone for CrustyError {
    /// An exact copy of the error.
    fn clone(&self) -> (r: Self)
        ensures
            r == *self,
    {
        match self {
            CrustyError::IOError(s) => CrustyError::IOError(s.clone()),
            CrustyError::CrustyError(s) => CrustyError::CrustyError(s.clone()),
            CrustyError::ValidationError(s) => CrustyError::ValidationError(s.clone()),
            CrustyError::ExecutionError(s) => CrustyError::ExecutionError(s.clone()),
            CrustyError::TransactionAbortedError => CrustyError::TransactionAbortedError,
        }
    }
}

impl CrustyError {
    /// The human-readable message of this error, with its kind as a prefix.
    pub fn to_text(&self) -> (r: String)
        ensures
            r@ == self.spec_text(),
    {
        match self {
            CrustyError::ValidationError(s) => {
                let mut t = String::from_str("Validation Error: ");
                t.append(s.as_str());
                t
            },
            CrustyError::ExecutionError(s) => {
                let mut t = String::from_str("Execution Error: ");
                t.append(s.as_str());
                t
            },
            CrustyError::CrustyError(s) => {
                let mut t = String::from_str("Crusty Error: ");
                t.append(s.as_str());
                t
            },
            CrustyError::IOError(s) => s.clone(),
            CrustyError::TransactionAbortedError => String::from_str(
                "Transaction Aborted Error",
            ),
        }
    }

    /// What `to_text` returns, as a sequence of characters.
    pub open spec fn spec_text(&self) -> Seq<char> {
        match self {
            CrustyError::ValidationError(s) => "Validation Error: "@ + s@,
            CrustyError::ExecutionError(s) => "Execution Error: "@ + s@,
            CrustyError::CrustyError(s) => "Crusty Error: "@ + s@,
            CrustyError::IOError(s) => s@,
            CrustyError::TransactionAbortedError => "Transaction Aborted Error"@,
        }
    }
}

/// Return type for a query result: a rendered table or message.
pub struct QueryResult {
    result: String,
}

impl View for QueryResult {
    type V = Seq<char>;

    /// The text of the result, as a sequence of characters.
    closed spec fn view(&self) -> Seq<char> {
        self.result@
    }
}

impl QueryResult {
    /// An empty result.
    pub fn empty() -> (r: Self)
        ensures
            r@ == Seq::<char>::empty(),
    {
        QueryResult { result: String::new() }
    }

    /// A result carrying the given text.
    pub fn new(result: &str) -> (r: Self)
        ensures
            r@ == result@,
    {
        QueryResult { result: result.to_owned() }
    }

    /// The text of the result.
    pub fn result(&self) -> (r: &str)
        ensures
            r@ == self@,
    {
        self.result.as_str()
    }
}

/// The data types an attribute can have.
#[derive(Debug, Clone, Copy, PartialEq, Eq)]
pub enum DataType {
    Int,
    String,
}

/// One column of a schema: a name paired with a data type.
#[derive(Debug, PartialEq, Eq)]
pub struct Attribute {
    /// Attribute name.
    pub name: String,
    /// Attribute data type.
    pub dtype: DataType,
}

impl Clone for Attribute {
    /// An exact copy of the attribute.
    fn clone(&self) -> (r: Self)
        ensures
            r == *self,
    {
        Attribute { name: self.name.clone(), dtype: self.dtype }
    }
}

impl Attribute {
    /// Bytes an integer attribute occupies in a fixed-width record.
    pub open spec fn spec_byte_len(&self) -> int {
        match self.dtype {
            DataType::Int => 4,
            DataType::String => 132,
        }
    }

    /// A new attribute with the given name and data type.
    pub fn new(name: String, dtype: DataType) -> (a: Self)
        ensures
            a == (Attribute { name, dtype }),
    {
        Attribute { name, dtype }
    }

    /// The name of the attribute.
    pub fn name(&self) -> (r: &str)
        ensures
            r@ == self.name@,
    {
        self.name.as_str()
    }

    /// The data type of the attribute.
    pub fn dtype(&self) -> (r: &DataType)
        ensures
            r == self.dtype,
    {
        &self.dtype
    }

    /// The width of the attribute in bytes: four for an integer, a length
    /// prefix plus a padded text block for a string.
    pub fn get_byte_len(&self) -> (r: usize)
        ensures
            r == self.spec_byte_len(),
    {
        match self.dtype {
            DataType::Int => 4,
            DataType::String => 132,
        }
    }
}

/// An ordered list of attributes describing one table.
#[derive(Debug, PartialEq, Eq)]
pub struct TableSchema {
    /// Attributes of the schema, in order.
    attributes: Vec<Attribute>,
}

impl View for TableSchema {
    type V = Seq<Attribute>;

    /// The attributes of the schema, in order.
    closed spec fn view(&self) -> Seq<Attribute> {
        self.attributes@
    }
}

impl Clone for TableSchema {
    /// A copy of the schema holding the same attributes.
    fn clone(&self) -> (r: Self)
        ensures
            r@ == self@,
    {
        let attrs = self.attributes.clone();
        proof {
            assert(attrs@ =~= self.attributes@);
        }
        TableSchema { attributes: attrs }
    }
}

/// The byte width of the attributes `attrs[0 .. i]` added together.
pub open spec fn schema_byte_size_prefix(attrs: Seq<Attribute>, i: int) -> int
    decreases i,
{
    if i <= 0 {
        0
    } else {
        schema_byte_size_prefix(attrs, i - 1) + attrs[i - 1].spec_byte_len()
    }
}

/// The byte width of a whole attribute list.
pub open spec fn schema_byte_size(attrs: Seq<Attribute>) -> int {
    schema_byte_size_prefix(attrs, attrs.len() as int)
}

/// Each attribute is 4 or 132 bytes wide, so every prefix sum is at most
/// 132 times the number of attributes taken.
proof fn lemma_schema_byte_size_prefix_bounds(attrs: Seq<Attribute>, i: int)
    requires
        0 <= i <= attrs.len(),
    ensures
        0 <= schema_byte_size_prefix(attrs, i) <= 132 * i,
    decreases i,
{
    if i > 0 {
        lemma_schema_byte_size_prefix_bounds(attrs, i - 1);
    }
}

/// The largest index below `j` of an attribute carrying the given name.
pub open spec fn last_index_of_name(attrs: Seq<Attribute>, name: Seq<char>, j: int) -> Option<int>
    decreases j,
{
    if j <= 0 {
        None
    } else if attrs[j - 1].name@ == name {
        Some(j - 1)
    } else {
        last_index_of_name(attrs, name, j - 1)
    }
}

impl TableSchema {
    /// The largest index of an attribute carrying the given name, if any.
    /// When names repeat, the later attribute shadows the earlier one.
    pub open spec fn spec_field_index(&self, name: Seq<char>) -> Option<int> {
        last_index_of_name(self@, name, self@.len() as int)
    }

    /// A new schema made of the given attributes, kept in order.
    pub fn new(attributes: Vec<Attribute>) -> (s: Self)
        ensures
            s@ == attributes@,
    {
        TableSchema { attributes }
    }

    /// A new schema pairing each name with the data type at the same index.
    /// Names beyond the end of the shorter list are dropped, as are types.
    pub fn from_vecs(names: Vec<&str>, dtypes: Vec<DataType>) -> (s: Self)
        ensures
            s@.len() == vstd::math::min(names@.len() as int, dtypes@.len() as int),
            forall|i: int| #![trigger s@[i]]
                0 <= i < s@.len() ==> s@[i].name@ == names@[i]@ && s@[i].dtype == dtypes@[i],
    {
        let mut attrs: Vec<Attribute> = Vec::new();
        let n = if names.len() < dtypes.len() {
            names.len()
        } else {
            dtypes.len()
        };
        let mut i: usize = 0;
        while i < n
            invariant
                i <= n,
                n == vstd::math::min(names@.len() as int, dtypes@.len() as int),
                attrs@.len() == i,
                forall|j: int| #![trigger attrs@[j]]
                    0 <= j < i ==> attrs@[j].name@ == names@[j]@ && attrs@[j].dtype == dtypes@[j],
            decreases n - i,
        {
            let name_i = names[i].to_owned();
            let dtype_i = dtypes[i];
            attrs.push(Attribute::new(name_i, dtype_i));
            proof {
                assert(attrs@[i as int].name@ == names@[i as int]@);
                assert(attrs@[i as int].dtype == dtypes@[i as int]);
            }
            i = i + 1;
        }
        TableSchema { attributes: attrs }
    }

    /// The attribute at the given index, or nothing when out of range.
    pub fn get_attribute(&self, i: usize) -> (r: Option<&Attribute>)
        ensures
            r == if i < self@.len() {
                Some(&self@[i as int])
            } else {
                None::<&Attribute>
            },
    {
        if i < self.attributes.len() {
            Some(&self.attributes[i])
        } else {
            None
        }
    }

    /// The index of the attribute with the given name, or nothing when no
    /// attribute carries it. The last attribute wins when names repeat.
    pub fn get_field_index(&self, name: &str) -> (r: Option<usize>)
        ensures
            match r {
                Some(i) => self.spec_field_index(name@) == Some(i as int),
                None => self.spec_field_index(name@) is None,
            },
    {
        let mut j: usize = self.attributes.len();
        while j > 0
            invariant
                j <= self.attributes@.len(),
                self.spec_field_index(name@) == last_index_of_name(
                    self.attributes@,
                    name@,
                    j as int,
                ),
            decreases j,
        {
            j = j - 1;
            if self.attributes[j].name.as_str().to_owned() == name.to_owned() {
                return Some(j);
            }
        }
        None
    }

    /// Whether an attribute with the given name is in the schema.
    pub fn contains(&self, name: &str) -> (r: bool)
        ensures
            r == exists|i: int|
                0 <= i < self@.len() && #[trigger] self@[i].name@ == name@,
    {
        let mut i: usize = 0;
        while i < self.attributes.len()
            invariant
                i <= self.attributes@.len(),
                forall|k: int| 0 <= k < i ==> #[trigger] self.attributes@[k].name@ != name@,
            decreases self.attributes@.len() - i,
        {
            if self.attributes[i].name.as_str().to_owned() == name.to_owned() {
                return true;
            }
            i = i + 1;
        }
        false
    }

    /// The attributes of the schema, in order.
    pub fn attributes(&self) -> (r: &Vec<Attribute>)
        ensures
            r@ == self@,
    {
        &self.attributes
    }

    /// A schema holding this schema's attributes followed by the other's.
    pub fn merge(&self, other: &Self) -> (s: Self)
        ensures
            s@ == self@ + other@,
    {
        let mut attrs = self.attributes.clone();
        let mut rest = other.attributes.clone();
        attrs.append(&mut rest);
        TableSchema { attributes: attrs }
    }

    /// How many attributes the schema has.
    pub fn size(&self) -> (r: usize)
        ensures
            r == self@.len(),
    {
        self.attributes.len()
    }

    /// The width in bytes of one record under this schema.
    pub fn byte_size(&self) -> (r: usize)
        requires
            schema_byte_size(self@) <= usize::MAX,
        ensures
            r == schema_byte_size(self@),
    {
        proof {
            lemma_schema_byte_size_prefix_bounds(self.attributes@, self.attributes@.len() as int);
        }
        let mut total: usize = 0;
        let mut i: usize = 0;
        while i < self.attributes.len()
            invariant
                i <= self.attributes@.len(),
                total == schema_byte_size_prefix(self.attributes@, i as int),
                schema_byte_size(self.attributes@) <= usize::MAX,
            decreases self.attributes@.len() - i,
        {
            proof {
                lemma_schema_byte_size_prefix_bounds(self.attributes@, i as int);
                lemma_schema_byte_size_suffix_monotone(self.attributes@, i + 1);
            }
            total = total + self.attributes[i].get_byte_len();
            i = i + 1;
        }
        total
    }
}

/// Every prefix sum of attribute widths is at most the total width.
proof fn lemma_schema_byte_size_suffix_monotone(attrs: Seq<Attribute>, i: int)
    requires
        0 <= i <= attrs.len(),
    ensures
        schema_byte_size_prefix(attrs, i) <= schema_byte_size(attrs),
    decreases attrs.len() - i,
{
    if i < attrs.len() {
        lemma_schema_byte_size_suffix_monotone(attrs, i + 1);
    }
}

/// One typed value inside a tuple.
#[derive(Debug, PartialEq, Eq)]
pub enum Field {
    IntField(i32),
    StringField(String),
}

impl Clone for Field {
    /// An exact copy of the field.
    fn clone(&self) -> (r: Self)
        ensures
            r == *self,
    {
        match self {
            Field::IntField(x) => Field::IntField(*x),
            Field::StringField(s) => Field::StringField(s.clone()),
        }
    }
}

/// The little-endian two's-complement encoding of a signed 32-bit value.
pub open spec fn spec_i32_le_bytes(x: i32) -> Seq<u8> {
    spec_u32_to_le_bytes(if x >= 0 {
        x as u32
    } else {
        (x + 0x1_0000_0000) as u32
    })
}

/// The serialized form of a field: four little-endian bytes for an integer;
/// for a string, eight little-endian length bytes, then the text bytes,
/// padded with zeros to 128 bytes.
pub open spec fn spec_field_bytes(f: Field) -> Seq<u8> {
    match f {
        Field::IntField(x) => spec_i32_le_bytes(x),
        Field::StringField(s) => spec_u64_to_le_bytes(encode_utf8(s@).len() as u64)
            + encode_utf8(s@) + Seq::new(
            (128 - encode_utf8(s@).len()) as nat,
            |i: int| 0u8,
        ),
    }
}

impl Field {
    /// Serialize the field. Always uses little-endian byte ordering and
    /// stores strings as a length prefix followed by 128 padded text bytes;
    /// texts longer than 128 bytes do not fit that block.
    pub fn to_bytes(&self) -> (r: Vec<u8>)
        requires
            self matches Field::StringField(s) ==> encode_utf8(s@).len() <= 128,
        ensures
            r@ == spec_field_bytes(*self),
    {
        match self {
            Field::IntField(x) => {
                let u: u32 = if *x >= 0 {
                    *x as u32
                } else {
                    ((*x as i64) + 0x1_0000_0000i64) as u32
                };
                u32_to_le_bytes(u)
            },
            Field::StringField(s) => {
                let s_bytes = s.as_str().as_bytes_vec();
                let mut result = u64_to_le_bytes(s_bytes.len() as u64);
                let pad_len = 128 - s_bytes.len();
                let mut i: usize = 0;
                let mut text = s_bytes;
                while i < pad_len
                    invariant
                        i <= pad_len,
                        text@ == encode_utf8(s@) + Seq::new(
                            i as nat,
                            |k: int| 0u8,
                        ),
                    decreases pad_len - i,
                {
                    text.push(0u8);
                    proof {
                        assert(text@ =~= encode_utf8(s@) + Seq::new(
                            (i + 1) as nat,
                            |k: int| 0u8,
                        ));
                    }
                    i = i + 1;
                }
                let mut out = result;
                out.append(&mut text);
                out
            },
        }
    }

    /// The integer carried by an integer field.
    pub fn unwrap_int_field(&self) -> (r: i32)
        requires
            self matches Field::IntField(_),
        ensures
            self matches Field::IntField(x) && r == x,
    {
        match self {
            Field::IntField(i) => *i,
            Field::StringField(_) => unreached(),
        }
    }

    /// The text carried by a string field.
    pub fn unwrap_string_field(&self) -> (r: &str)
        requires
            self matches Field::StringField(_),
        ensures
            self matches Field::StringField(s) && r@ == s@,
    {
        match self {
            Field::StringField(s) => s.as_str(),
            Field::IntField(_) => unreached(),
        }
    }
}

/// Where a record sits: the file, the page, and the index within the page.
#[derive(Debug, Clone, Copy, PartialEq, Eq, Structural)]
pub struct RecordId {
    /// File that contains the record.
    pub file_id: u64,
    /// Page number that contains the record.
    pub page_no: u32,
    /// The record's index location in that page.
    pub page_ind: usize,
}

impl RecordId {
    /// A new record locator with the given coordinates.
    pub fn new(file_id: u64, page_no: u32, page_ind: usize) -> (r: Self)
        ensures
            r == (RecordId { file_id, page_no, page_ind }),
    {
        RecordId { file_id, page_no, page_ind }
    }
}

/// One row of a table: an ordered list of field values plus its location.
#[derive(Debug, PartialEq, Eq)]
pub struct Tuple {
    /// The field values, in schema order.
    pub field_vals: Vec<Field>,
    /// Where the tuple is stored.
    pub record_id: RecordId,
}

impl Clone for Tuple {
    /// A copy of the tuple holding the same fields and location.
    fn clone(&self) -> (r: Self)
        ensures
            r.field_vals@ == self.field_vals@,
            r.record_id == self.record_id,
    {
        let fields = self.field_vals.clone();
        proof {
            assert(fields@ =~= self.field_vals@);
        }
        Tuple { field_vals: fields, record_id: self.record_id }
    }
}

impl Tuple {
    /// A new tuple over the given field values, located nowhere yet.
    pub fn new(field_vals: Vec<Field>) -> (t: Self)
        ensures
            t.field_vals@ == field_vals@,
            t.record_id == (RecordId { file_id: 0, page_no: 0, page_ind: 0 }),
    {
        Tuple { field_vals, record_id: RecordId::new(0, 0, 0) }
    }

    /// The field at the given index, or nothing when out of range.
    pub fn get_field(&self, i: usize) -> (r: Option<&Field>)
        ensures
            r == if i < self.field_vals@.len() {
                Some(&self.field_vals@[i as int])
            } else {
                None::<&Field>
            },
    {
        if i < self.field_vals.len() {
            Some(&self.field_vals[i])
        } else {
            None
        }
    }

    /// Replace the field at the given index, which must be in range.
    pub fn set_field(&mut self, i: usize, f: Field)
        requires
            i < old(self).field_vals@.len(),
        ensures
            final(self).field_vals@ == old(self).field_vals@.update(i as int, f),
            final(self).record_id == old(self).record_id,
    {
        self.field_vals.set(i, f);
    }

    /// The field values, in order.
    pub fn field_vals(&self) -> (r: &Vec<Field>)
        ensures
            r@ == self.field_vals@,
    {
        &self.field_vals
    }

    /// How many fields the tuple has.
    pub fn size(&self) -> (r: usize)
        ensures
            r == self.field_vals@.len(),
    {
        self.field_vals.len()
    }

    /// A tuple holding this tuple's fields followed by the other's, located
    /// nowhere yet.
    pub fn merge(&self, other: &Self) -> (t: Self)
        ensures
            t.field_vals@ == self.field_vals@ + other.field_vals@,
            t.record_id == (RecordId { file_id: 0, page_no: 0, page_ind: 0 }),
    {
        let mut fields = self.field_vals.clone();
        let mut rest = other.field_vals.clone();
        fields.append(&mut rest);
        Tuple::new(fields)
    }

    /// The record locator of the tuple.
    pub fn get_record_id(&self) -> (r: RecordId)
        ensures
            r == self.record_id,
    {
        self.record_id
    }
}

} // verus!
