use vstd::prelude::*;
use crate::adapter::NativeGeometry;
use crate::error::TileError;
use crate::geom::{GeometryType, Shape};
use crate::layer::Layer;

verus! {

/// The value of a feature attribute. A floating-point value is held as the
/// bit pattern of its IEEE 754 encoding, single or double.
#[derive(Clone, Debug, PartialEq, Eq)]
pub enum FeatureAttrValType {
    String(String),
    Float(u32),
    Double(u64),
    Int(i64),
    UInt(u64),
    SInt(i64),
    Bool(bool),
}

/// What a `FeatureAttrValType` holds.
pub ghost enum AttrValue {
    String(Seq<char>),
    Float(u32),
    Double(u64),
    Int(i64),
    UInt(u64),
    SInt(i64),
    Bool(bool),
}

/// A named attribute of a feature.
#[derive(Clone, Debug, PartialEq, Eq)]
pub struct FeatureAttr {
    pub key: String,
    pub value: FeatureAttrValType,
}

/// An attribute as its key and value.
pub type Attr = (Seq<char>, AttrValue);

impl View for FeatureAttrValType {
    type V = AttrValue;

    open spec fn view(&self) -> AttrValue {
        match self {
            FeatureAttrValType::String(s) => AttrValue::String(s@),
            FeatureAttrValType::Float(v) => AttrValue::Float(*v),
            FeatureAttrValType::Double(v) => AttrValue::Double(*v),
            FeatureAttrValType::Int(v) => AttrValue::Int(*v),
            FeatureAttrValType::UInt(v) => AttrValue::UInt(*v),
            FeatureAttrValType::SInt(v) => AttrValue::SInt(*v),
            FeatureAttrValType::Bool(v) => AttrValue::Bool(*v),
        }
    }
}

impl View for FeatureAttr {
    type V = Attr;

    open spec fn view(&self) -> Attr {
        (self.key@, self.value@)
    }
}

/// The attributes of `attrs` as keys and values, in order.
pub open spec fn attrs_of(attrs: Seq<FeatureAttr>) -> Seq<Attr> {
    Seq::new(attrs.len(), |i: int| attrs[i]@)
}

impl FeatureAttrValType {
    /// Whether two values are of the same type and hold the same.
    pub fn same(&self, other: &FeatureAttrValType) -> (r: bool)
        ensures
            r == (self@ == other@),
    {
        match (self, other) {
            (FeatureAttrValType::String(a), FeatureAttrValType::String(b)) => *a == *b,
            (FeatureAttrValType::Float(a), FeatureAttrValType::Float(b)) => *a == *b,
            (FeatureAttrValType::Double(a), FeatureAttrValType::Double(b)) => *a == *b,
            (FeatureAttrValType::Int(a), FeatureAttrValType::Int(b)) => *a == *b,
            (FeatureAttrValType::UInt(a), FeatureAttrValType::UInt(b)) => *a == *b,
            (FeatureAttrValType::SInt(a), FeatureAttrValType::SInt(b)) => *a == *b,
            (FeatureAttrValType::Bool(a), FeatureAttrValType::Bool(b)) => *a == *b,
            _ => false,
        }
    }

    /// A copy of the value.
    pub fn duplicate(&self) -> (r: FeatureAttrValType)
        ensures
            r@ == self@,
    {
        match self {
            FeatureAttrValType::String(s) => FeatureAttrValType::String(s.clone()),
            FeatureAttrValType::Float(v) => FeatureAttrValType::Float(*v),
            FeatureAttrValType::Double(v) => FeatureAttrValType::Double(*v),
            FeatureAttrValType::Int(v) => FeatureAttrValType::Int(*v),
            FeatureAttrValType::UInt(v) => FeatureAttrValType::UInt(*v),
            FeatureAttrValType::SInt(v) => FeatureAttrValType::SInt(*v),
            FeatureAttrValType::Bool(v) => FeatureAttrValType::Bool(*v),
        }
    }
}

/// One record of a datasource, for as long as the datasource hands it out.
pub trait Feature {
    /// The id of the feature, if it has one.
    spec fn id(&self) -> Option<u64>;

    /// The attributes of the feature that have a value of a supported type.
    spec fn attrs(&self) -> Seq<Attr>;

    /// The shape of the feature's geometry, if the geometry model holds it.
    spec fn shape(&self) -> Option<Shape>;

    /// The id of the feature, or `None` where it has none. A feature
    /// without an id is a feature like any other.
    fn fid(&self) -> (r: Option<u64>)
        ensures
            r == self.id(),
    ;

    /// The attributes of the feature, in the order of the record. What
    /// has no value of a supported type is left out.
    fn attributes(&self) -> (r: Vec<FeatureAttr>)
        ensures
            attrs_of(r@) == self.attrs(),
    ;

    /// The geometry of the feature in the geometry model. Fails exactly
    /// where the geometry model does not hold it.
    fn geometry(&self) -> (r: Result<GeometryType, TileError>)
        ensures
            match r {
                Ok(g) => self.shape() == Some(g@),
                Err(_) => self.shape().is_none(),
            },
    ;
}

/// The value of a field of a record as a vector datasource reads it. A real
/// number is held as the bit pattern of its IEEE 754 double encoding.
#[derive(Clone, Debug, PartialEq, Eq)]
pub enum FieldValue {
    StringValue(String),
    IntegerValue(i32),
    Integer64Value(i64),
    RealValue(u64),
    /// A value of a type that has no attribute value type.
    Unmapped,
}

/// The outcome of reading one field of a record.
#[derive(Clone, Debug, PartialEq, Eq)]
pub enum FieldRead {
    Value(FieldValue),
    /// The field holds no value.
    Null,
    /// The datasource failed to read the field.
    Failed,
}

/// A field of a record: its name in the record's schema, and what reading it
/// gave.
#[derive(Clone, Debug, PartialEq, Eq)]
pub struct Field {
    pub name: String,
    pub read: FieldRead,
}

/// The unsigned 64-bit integer with the two's complement bits of `v`.
pub open spec fn as_unsigned(v: int) -> int {
    if v >= 0 {
        v
    } else {
        v + 0x1_0000_0000_0000_0000
    }
}

/// The attribute that a field maps to: none for a field without a value, for
/// a failed read and for a value of an unmapped type.
pub open spec fn attr_of_field(field: Field) -> Option<Attr> {
    match field.read {
        FieldRead::Value(FieldValue::StringValue(s)) => Some((field.name@, AttrValue::String(s@))),
        FieldRead::Value(FieldValue::IntegerValue(v)) => Some(
            (field.name@, AttrValue::Int(v as i64)),
        ),
        FieldRead::Value(FieldValue::Integer64Value(v)) => Some((field.name@, AttrValue::Int(v))),
        FieldRead::Value(FieldValue::RealValue(v)) => Some((field.name@, AttrValue::Double(v))),
        FieldRead::Value(FieldValue::Unmapped) => None,
        FieldRead::Null => None,
        FieldRead::Failed => None,
    }
}

/// The names of those of the first `n` fields that map to no attribute, in
/// the order of the fields.
pub open spec fn skipped(fields: Seq<Field>, n: nat) -> Seq<Seq<char>>
    decreases n,
{
    if n == 0 {
        Seq::empty()
    } else {
        let before = skipped(fields, (n - 1) as nat);
        match attr_of_field(fields[n - 1]) {
            Some(_) => before,
            None => before.push(fields[n - 1].name@),
        }
    }
}

/// The names of `names`, in order.
pub open spec fn names_of(names: Seq<String>) -> Seq<Seq<char>> {
    Seq::new(names.len(), |i: int| names[i]@)
}

/// The attributes of the first `n` fields, in the order of the fields.
pub open spec fn attrs_of_fields(fields: Seq<Field>, n: nat) -> Seq<Attr>
    decreases n,
{
    if n == 0 {
        Seq::empty()
    } else {
        let before = attrs_of_fields(fields, (n - 1) as nat);
        match attr_of_field(fields[n - 1]) {
            Some(a) => before.push(a),
            None => before,
        }
    }
}

/// What reading the first field called `name` among `fields[from..]` gave.
pub open spec fn read_of(fields: Seq<Field>, name: Seq<char>, from: int) -> Option<FieldRead>
    decreases fields.len() - from,
{
    if from < 0 || from >= fields.len() {
        None
    } else if fields[from].name@ == name {
        Some(fields[from].read)
    } else {
        read_of(fields, name, from + 1)
    }
}

/// The id that a field gives: the value of an integer field, taken as
/// unsigned; none for any other outcome.
pub open spec fn id_of_read(read: Option<FieldRead>) -> Option<u64> {
    match read {
        Some(FieldRead::Value(FieldValue::IntegerValue(v))) => Some(as_unsigned(v as int) as u64),
        Some(FieldRead::Value(FieldValue::Integer64Value(v))) => Some(
            as_unsigned(v as int) as u64,
        ),
        _ => None,
    }
}

/// A record of a vector datasource: the fields of its schema with what
/// reading each of them gave, its geometry, and what the layer says of the id
/// field and of the spatial reference.
#[derive(Debug, PartialEq, Eq)]
pub struct VectorFeature {
    pub fid_field: Option<String>,
    pub srid: Option<i32>,
    pub fields: Vec<Field>,
    pub geometry: Option<NativeGeometry>,
}

/// The bits of `v` as an unsigned integer.
pub(crate) fn unsigned(v: i64) -> (r: u64)
    ensures
        r == as_unsigned(v as int),
{
    if v >= 0 {
        v as u64
    } else {
        u64::MAX - ((-(v + 1)) as u64)
    }
}

impl Field {
    /// The value of the attribute that the field maps to.
    ///
    /// Fails with `UnmappedAttributeType` exactly where the field maps to no
    /// attribute: where it holds no value, where reading it failed, and where
    /// its value is of an unmapped type.
    pub fn attr_value(&self) -> (r: Result<FeatureAttrValType, TileError>)
        ensures
            match r {
                Ok(v) => attr_of_field(*self) == Some((self.name@, v@)),
                Err(e) => e == TileError::UnmappedAttributeType && attr_of_field(*self).is_none(),
            },
    {
        match &self.read {
            FieldRead::Value(FieldValue::StringValue(s)) => Ok(
                FeatureAttrValType::String(s.clone()),
            ),
            FieldRead::Value(FieldValue::IntegerValue(v)) => Ok(FeatureAttrValType::Int(*v as i64)),
            FieldRead::Value(FieldValue::Integer64Value(v)) => Ok(FeatureAttrValType::Int(*v)),
            FieldRead::Value(FieldValue::RealValue(v)) => Ok(FeatureAttrValType::Double(*v)),
            _ => Err(TileError::UnmappedAttributeType),
        }
    }
}

impl VectorFeature {
    /// The names of the fields that `attributes` leaves out, in the order of
    /// the fields.
    pub fn skipped_fields(&self) -> (names: Vec<String>)
        ensures
            names_of(names@) == skipped(self.fields@, self.fields@.len()),
    {
        let mut names: Vec<String> = Vec::new();
        let mut i: usize = 0;
        assert(names_of(names@) =~= skipped(self.fields@, 0));
        while i < self.fields.len()
            invariant
                i <= self.fields.len(),
                names_of(names@) == skipped(self.fields@, i as nat),
            decreases self.fields.len() - i,
        {
            let ghost before = names_of(names@);
            if self.fields[i].attr_value().is_err() {
                names.push(self.fields[i].name.clone());
                assert(names_of(names@) =~= before.push(self.fields@[i as int].name@));
            }
            i += 1;
        }
        names
    }

    /// A record of `layer` with the given fields and geometry.
    pub fn new(layer: &Layer, fields: Vec<Field>, geometry: Option<NativeGeometry>) -> (f:
        VectorFeature)
        ensures
            f.fid_field == layer.fid_field,
            f.srid == layer.srid,
            f.fields == fields,
            f.geometry == geometry,
    {
        let fid_field = match &layer.fid_field {
            Some(name) => Some(name.clone()),
            None => None,
        };
        VectorFeature { fid_field, srid: layer.srid, fields, geometry }
    }

    /// What reading the first field called `name` gave.
    fn field(&self, name: &String) -> (r: Option<&FieldRead>)
        ensures
            match r {
                Some(read) => read_of(self.fields@, name@, 0) == Some(*read),
                None => read_of(self.fields@, name@, 0).is_none(),
            },
    {
        let mut i: usize = 0;
        while i < self.fields.len()
            invariant
                i <= self.fields.len(),
                read_of(self.fields@, name@, 0) == read_of(self.fields@, name@, i as int),
            decreases self.fields.len() - i,
        {
            if self.fields[i].name == *name {
                return Some(&self.fields[i].read);
            }
            i += 1;
        }
        None
    }
}

impl Feature for VectorFeature {
    /// The value of the field that the layer names as id field, if the layer
    /// names one, the record has it, and it holds an integer.
    open spec fn id(&self) -> Option<u64> {
        match self.fid_field {
            Some(name) => id_of_read(read_of(self.fields@, name@, 0)),
            None => None,
        }
    }

    open spec fn attrs(&self) -> Seq<Attr> {
        attrs_of_fields(self.fields@, self.fields@.len())
    }

    open spec fn shape(&self) -> Option<Shape> {
        match self.geometry {
            Some(g) => g.converted(),
            None => None,
        }
    }

    fn fid(&self) -> (r: Option<u64>) {
        match &self.fid_field {
            Some(name) => match self.field(name) {
                Some(FieldRead::Value(FieldValue::IntegerValue(v))) => Some(unsigned(*v as i64)),
                Some(FieldRead::Value(FieldValue::Integer64Value(v))) => Some(unsigned(*v)),
                _ => None,
            },
            None => None,
        }
    }

    fn attributes(&self) -> (r: Vec<FeatureAttr>) {
        let mut attrs: Vec<FeatureAttr> = Vec::new();
        let mut i: usize = 0;
        while i < self.fields.len()
            invariant
                i <= self.fields.len(),
                attrs_of(attrs@) == attrs_of_fields(self.fields@, i as nat),
            decreases self.fields.len() - i,
        {
            let field = &self.fields[i];
            let ghost before = attrs@;
            if let Ok(value) = field.attr_value() {
                attrs.push(FeatureAttr { key: field.name.clone(), value });
                assert(attrs_of(attrs@) =~= attrs_of(before).push(attr_of_field(*field).unwrap()));
            }
            i += 1;
        }
        attrs
    }

    /// The record's geometry in the geometry model, tagged with the layer's
    /// spatial reference. Fails with `UnsupportedGeometry` where the record
    /// has no geometry or the geometry does not convert.
    fn geometry(&self) -> (r: Result<GeometryType, TileError>)
        ensures
            r matches Ok(g) ==> g.tagged(self.srid),
            r matches Err(e) ==> e == TileError::UnsupportedGeometry,
    {
        match &self.geometry {
            Some(g) => g.to_geo(self.srid),
            None => Err(TileError::UnsupportedGeometry),
        }
    }
}

} // verus!
