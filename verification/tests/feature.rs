use t_rex::adapter::{NativeGeometry, NativeKind};
use t_rex::datasource::GdalDatasource;
use t_rex::error::TileError;
use t_rex::feature::{
    Feature, FeatureAttr, FeatureAttrValType, Field, FieldRead, FieldValue, VectorFeature,
};
use t_rex::geom::{GeometryType, Point};
use t_rex::layer::Layer;

fn field(name: &str, read: FieldRead) -> Field {
    Field { name: name.to_string(), read }
}

fn value(name: &str, v: FieldValue) -> Field {
    field(name, FieldRead::Value(v))
}

fn layer_with_id(fid: Option<&str>) -> Layer {
    let mut layer = Layer::new("roads");
    layer.fid_field = fid.map(|s| s.to_string());
    layer.srid = Some(3857);
    layer
}

fn attr(key: &str, value: FeatureAttrValType) -> FeatureAttr {
    FeatureAttr { key: key.to_string(), value }
}

#[test]
fn new_datasource_keeps_its_path() {
    let ds = GdalDatasource::new("data/natural_earth.gpkg");
    assert_eq!(ds.path, "data/natural_earth.gpkg");
    assert_eq!(GdalDatasource::new("").path, "");
}

#[test]
fn a_layer_names_the_table_to_read() {
    let ds = GdalDatasource::new("x.gpkg");
    let mut layer = Layer::new("roads");
    assert_eq!(ds.table(&layer, 3), Ok(Some("roads".to_string())));
    layer.table_name = Some("ne_roads".to_string());
    layer.minzoom = 4;
    layer.maxzoom = 9;
    assert_eq!(ds.table(&layer, 3), Ok(None));
    assert_eq!(ds.table(&layer, 4), Ok(Some("ne_roads".to_string())));
    assert_eq!(ds.table(&layer, 9), Ok(Some("ne_roads".to_string())));
    assert_eq!(ds.table(&layer, 10), Ok(None));
    layer.table_name = None;
    assert_eq!(ds.table(&layer, 5), Err(TileError::DatasourceUnavailable));
    assert_eq!(ds.table(&layer, 10), Ok(None));
}

#[test]
fn a_layer_is_shown_within_its_zoom_range() {
    let mut layer = Layer::new("l");
    assert!(layer.applies_at(0) && layer.applies_at(255));
    assert!(!layer.applies_at(256));
    layer.minzoom = 2;
    layer.maxzoom = 4;
    assert!(!layer.applies_at(1));
    assert!(layer.applies_at(2) && layer.applies_at(3) && layer.applies_at(4));
    assert!(!layer.applies_at(5));
    layer.minzoom = 5;
    assert!(!layer.applies_at(4) && !layer.applies_at(5));
}

#[test]
fn the_id_is_the_value_of_the_id_field() {
    let fields = vec![
        value("name", FieldValue::StringValue("A1".to_string())),
        value("osm_id", FieldValue::IntegerValue(42)),
        value("osm_id", FieldValue::IntegerValue(43)),
    ];
    let f = VectorFeature::new(&layer_with_id(Some("osm_id")), fields.clone(), None);
    assert_eq!(f.fid(), Some(42));
    let f = VectorFeature::new(&layer_with_id(None), fields.clone(), None);
    assert_eq!(f.fid(), None);
    let f = VectorFeature::new(&layer_with_id(Some("gid")), fields.clone(), None);
    assert_eq!(f.fid(), None);
    let f = VectorFeature::new(&layer_with_id(Some("name")), fields, None);
    assert_eq!(f.fid(), None);
}

#[test]
fn the_id_takes_wide_and_negative_integers_by_their_bits() {
    let ids = [
        (FieldValue::Integer64Value(1 << 40), Some(1u64 << 40)),
        (FieldValue::Integer64Value(i64::MAX), Some(i64::MAX as u64)),
        (FieldValue::IntegerValue(0), Some(0)),
        (FieldValue::IntegerValue(-1), Some(u64::MAX)),
        (FieldValue::IntegerValue(i32::MIN), Some(0xffff_ffff_8000_0000)),
        (FieldValue::Integer64Value(i64::MIN), Some(1 << 63)),
        (FieldValue::RealValue(1f64.to_bits()), None),
        (FieldValue::Unmapped, None),
    ];
    for (v, expected) in ids.iter() {
        let f = VectorFeature::new(&layer_with_id(Some("id")), vec![value("id", v.clone())], None);
        assert_eq!(f.fid(), *expected, "{:?}", v);
    }
    for read in [FieldRead::Null, FieldRead::Failed] {
        let f = VectorFeature::new(&layer_with_id(Some("id")), vec![field("id", read)], None);
        assert_eq!(f.fid(), None);
    }
}

#[test]
fn attributes_map_every_field_that_has_a_value() {
    let fields = vec![
        value("name", FieldValue::StringValue("Main St".to_string())),
        value("lanes", FieldValue::IntegerValue(-2)),
        value("length", FieldValue::RealValue(12.5f64.to_bits())),
        value("osm_id", FieldValue::Integer64Value(1 << 40)),
        value("name", FieldValue::StringValue("Main St".to_string())),
    ];
    let f = VectorFeature::new(&layer_with_id(None), fields, None);
    assert_eq!(
        f.attributes(),
        vec![
            attr("name", FeatureAttrValType::String("Main St".to_string())),
            attr("lanes", FeatureAttrValType::Int(-2)),
            attr("length", FeatureAttrValType::Double(12.5f64.to_bits())),
            attr("osm_id", FeatureAttrValType::Int(1 << 40)),
            attr("name", FeatureAttrValType::String("Main St".to_string())),
        ]
    );
    assert!(f.skipped_fields().is_empty());
}

#[test]
fn fields_without_a_mapped_value_are_left_out() {
    let fields = vec![
        field("a", FieldRead::Failed),
        value("b", FieldValue::IntegerValue(1)),
        field("c", FieldRead::Null),
        value("d", FieldValue::Unmapped),
        value("e", FieldValue::StringValue(String::new())),
    ];
    let f = VectorFeature::new(&layer_with_id(None), fields, None);
    assert_eq!(
        f.attributes(),
        vec![
            attr("b", FeatureAttrValType::Int(1)),
            attr("e", FeatureAttrValType::String(String::new())),
        ]
    );
    assert_eq!(f.skipped_fields(), vec!["a".to_string(), "c".to_string(), "d".to_string()]);
    let none = VectorFeature::new(&layer_with_id(None), Vec::new(), None);
    assert!(none.attributes().is_empty());
    assert!(none.skipped_fields().is_empty());
}

#[test]
fn a_field_without_a_mapped_value_has_no_attribute_value() {
    assert_eq!(
        value("n", FieldValue::IntegerValue(7)).attr_value(),
        Ok(FeatureAttrValType::Int(7))
    );
    assert_eq!(
        value("n", FieldValue::Unmapped).attr_value(),
        Err(TileError::UnmappedAttributeType)
    );
    assert_eq!(field("n", FieldRead::Null).attr_value(), Err(TileError::UnmappedAttributeType));
    assert_eq!(field("n", FieldRead::Failed).attr_value(), Err(TileError::UnmappedAttributeType));
}

#[test]
fn the_geometry_is_tagged_with_the_spatial_reference_of_the_layer() {
    let g = NativeGeometry { kind: NativeKind::Point, points: vec![(8, 9, 0)], children: Vec::new() };
    let f = VectorFeature::new(&layer_with_id(None), Vec::new(), Some(g));
    assert_eq!(f.geometry(), Ok(GeometryType::Point(Point { x: 8, y: 9, srid: Some(3857) })));
}

#[test]
fn a_record_without_a_usable_geometry_has_none() {
    let f = VectorFeature::new(&layer_with_id(None), Vec::new(), None);
    assert_eq!(f.geometry(), Err(TileError::UnsupportedGeometry));
    let g = NativeGeometry {
        kind: NativeKind::GeometryCollection,
        points: Vec::new(),
        children: Vec::new(),
    };
    let f = VectorFeature::new(&layer_with_id(None), Vec::new(), Some(g));
    assert_eq!(f.geometry(), Err(TileError::UnsupportedGeometry));
}

#[test]
fn values_are_the_same_by_type_and_content() {
    let a = FeatureAttrValType::Int(1);
    assert!(a.same(&FeatureAttrValType::Int(1)));
    assert!(!a.same(&FeatureAttrValType::Int(2)));
    assert!(!a.same(&FeatureAttrValType::UInt(1)));
    assert!(!a.same(&FeatureAttrValType::SInt(1)));
    assert!(!FeatureAttrValType::Bool(true).same(&FeatureAttrValType::Bool(false)));
    assert!(FeatureAttrValType::Bool(false).same(&FeatureAttrValType::Bool(false)));
    let s = FeatureAttrValType::String("a".to_string());
    assert!(s.same(&FeatureAttrValType::String("a".to_string())));
    assert!(!s.same(&FeatureAttrValType::String("b".to_string())));
    assert!(!FeatureAttrValType::Float(1).same(&FeatureAttrValType::Double(1)));
    assert!(FeatureAttrValType::Float(7).same(&FeatureAttrValType::Float(7)));
    assert!(FeatureAttrValType::Double(0f64.to_bits())
        .same(&FeatureAttrValType::Double(0f64.to_bits())));
    assert!(!FeatureAttrValType::Double(0f64.to_bits())
        .same(&FeatureAttrValType::Double((-0f64).to_bits())));
    assert_eq!(s.duplicate(), s);
    assert_eq!(a.duplicate(), a);
}
