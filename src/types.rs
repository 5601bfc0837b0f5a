//! Schemas, records and the keys derived from them.
use vstd::prelude::*;
use vstd::slice::slice_to_vec;

use crate::field::{encoding, field_wf, type_of, Field, FieldType, FieldView};

verus! {

broadcast use vstd::seq::group_seq_axioms;

/// Names a schema: a namespace and a version within it.
#[derive(Clone, Copy, Debug, PartialEq, Eq, Structural)]
pub struct SchemaIdentifier {
    pub id: u16,
    pub version: u16,
}

#[derive(Clone, Debug)]
pub struct FieldDefinition {
    pub name: String,
    pub typ: FieldType,
    pub nullable: bool,
}

#[derive(Clone, Debug)]
pub struct Schema {
    pub identifier: Option<SchemaIdentifier>,
    pub fields: Vec<FieldDefinition>,
    /// Positions of the fields that form the primary key; empty when the
    /// cache chooses record IDs itself.
    pub primary_index: Vec<usize>,
}

/// A secondary index over fields given by position.
#[derive(Clone, Debug)]
pub enum IndexDefinition {
    /// One key per record: the encodings of the fields, in order.
    SortedInverted(Vec<usize>),
    /// One key per whitespace-separated word of a text field, lowercased.
    FullText(usize),
}

#[derive(Clone, Debug)]
pub struct Record {
    pub schema_id: Option<SchemaIdentifier>,
    pub values: Vec<Field>,
    pub version: Option<u32>,
}

#[derive(Clone, Debug)]
pub struct RecordWithId {
    pub id: u64,
    pub record: Record,
}

/// The mathematical value of a record.
pub struct RecordView {
    pub schema_id: Option<SchemaIdentifier>,
    pub values: Seq<FieldView>,
    pub version: Option<u32>,
}

impl View for Record {
    type V = RecordView;

    open spec fn view(&self) -> RecordView {
        RecordView {
            schema_id: self.schema_id,
            values: self.values@.map_values(|f: Field| f@),
            version: self.version,
        }
    }
}

pub open spec fn values_wf(values: Seq<FieldView>) -> bool {
    forall|i: int| 0 <= i < values.len() ==> field_wf(#[trigger] values[i])
}

/// The concatenated encodings of the values at `positions`.
pub open spec fn composite_key(positions: Seq<usize>, values: Seq<FieldView>) -> Seq<u8>
    decreases positions.len(),
{
    if positions.len() == 0 {
        seq![]
    } else {
        composite_key(positions.drop_last(), values) + encoding(values[positions.last() as int])
    }
}

pub open spec fn positions_in(positions: Seq<usize>, n: int) -> bool {
    forall|i: int| 0 <= i < positions.len() ==> #[trigger] positions[i] < n
}

/// Whether `value` may stand in a field declared with type `typ`.
pub open spec fn value_fits(typ: FieldType, nullable: bool, value: FieldView) -> bool {
    (nullable && value is Null) || type_of(value) == typ
}

/// Whether a record holds one value of the declared type for each field of the
/// schema, and is the schema's own.
pub open spec fn record_matches_schema(schema: Schema, record: RecordView) -> bool {
    &&& record.schema_id == schema.identifier
    &&& record.values.len() == schema.fields@.len()
    &&& forall|i: int| 0 <= i < record.values.len() ==>
        value_fits(#[trigger] schema.fields@[i].typ, schema.fields@[i].nullable, record.values[i])
}

impl Field {
    /// A copy of this field.
    pub fn duplicate(&self) -> (r: Field)
        ensures
            r@ == self@,
    {
        match self {
            Field::Int(i) => Field::Int(*i),
            Field::UInt(i) => Field::UInt(*i),
            Field::Float(f) => Field::Float(*f),
            Field::Boolean(b) => Field::Boolean(*b),
            Field::String(s) => Field::String(s.clone()),
            Field::Text(s) => Field::Text(s.clone()),
            Field::Binary(b) => Field::Binary(slice_to_vec(b.as_slice())),
            Field::Decimal(d) => Field::Decimal(slice_to_vec(d.as_slice())),
            Field::Timestamp(t) => Field::Timestamp(*t),
            Field::Date(d) => Field::Date(*d),
            Field::Bson(b) => Field::Bson(slice_to_vec(b.as_slice())),
            Field::Null => Field::Null,
        }
    }

    fn is_null(&self) -> (r: bool)
        ensures
            r == (self@ is Null),
    {
        match self {
            Field::Null => true,
            _ => false,
        }
    }
}

impl Record {
    /// A copy of this record.
    pub fn duplicate(&self) -> (r: Record)
        ensures
            r@ == self@,
    {
        let mut values: Vec<Field> = Vec::new();
        let mut i: usize = 0;
        while i < self.values.len()
            invariant
                i <= self.values@.len(),
                values@.len() == i,
                forall|j: int| 0 <= j < i ==> (#[trigger] values@[j])@ == self.values@[j]@,
            decreases self.values@.len() - i,
        {
            values.push(self.values[i].duplicate());
            i = i + 1;
        }
        let r = Record { schema_id: self.schema_id, values, version: self.version };
        assert(r@.values =~= self@.values);
        r
    }
}

/// The key formed by the values at `positions`: their encodings, concatenated.
pub fn get_primary_key(positions: &Vec<usize>, values: &Vec<Field>) -> (r: Vec<u8>)
    requires
        positions_in(positions@, values@.len() as int),
        values_wf(values@.map_values(|f: Field| f@)),
    ensures
        r@ == composite_key(positions@, values@.map_values(|f: Field| f@)),
{
    let ghost vs = values@.map_values(|f: Field| f@);
    let mut key: Vec<u8> = Vec::new();
    let mut i: usize = 0;
    while i < positions.len()
        invariant
            i <= positions@.len(),
            vs == values@.map_values(|f: Field| f@),
            positions_in(positions@, values@.len() as int),
            values_wf(vs),
            key@ == composite_key(positions@.subrange(0, i as int), vs),
        decreases positions@.len() - i,
    {
        let p = positions[i];
        assert(field_wf(vs[p as int]));
        values[p].encode_into(&mut key);
        assert(positions@.subrange(0, i + 1).drop_last() =~= positions@.subrange(0, i as int));
        i = i + 1;
    }
    assert(positions@.subrange(0, positions@.len() as int) =~= positions@);
    key
}

fn field_type_eq(a: FieldType, b: FieldType) -> (r: bool)
    ensures
        r == (a == b),
{
    a == b
}

/// Whether `record` belongs to `schema` and holds, for each of its fields, a
/// value of the declared type (or null where the field is nullable).
pub fn debug_check_schema_record_consistency(schema: &Schema, record: &Record) -> (r: bool)
    ensures
        r == record_matches_schema(*schema, record@),
{
    if schema.identifier != record.schema_id {
        return false;
    }
    if schema.fields.len() != record.values.len() {
        return false;
    }
    let mut i: usize = 0;
    while i < record.values.len()
        invariant
            i <= record.values@.len(),
            record.values@.len() == schema.fields@.len(),
            forall|j: int| 0 <= j < i ==> value_fits(#[trigger] schema.fields@[j].typ,
                schema.fields@[j].nullable, record@.values[j]),
        decreases record.values@.len() - i,
    {
        let field = &schema.fields[i];
        let value = &record.values[i];
        if !(field.nullable && value.is_null()) && !field_type_eq(value.get_type(), field.typ) {
            return false;
        }
        i = i + 1;
    }
    true
}

} // verus!
