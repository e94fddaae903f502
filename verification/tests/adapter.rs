use t_rex::adapter::{NativeGeometry, NativeKind};
use t_rex::error::TileError;
use t_rex::geom::{
    GeometryType, LineString, MultiLineString, MultiPoint, MultiPolygon, Point, Polygon,
};

fn native(kind: NativeKind, points: &[(i64, i64, i64)], children: Vec<NativeGeometry>) -> NativeGeometry {
    NativeGeometry { kind, points: points.to_vec(), children }
}

fn native_point(x: i64, y: i64) -> NativeGeometry {
    native(NativeKind::Point, &[(x, y, 0)], Vec::new())
}

fn native_line(points: &[(i64, i64, i64)]) -> NativeGeometry {
    native(NativeKind::LineString, points, Vec::new())
}

fn point(x: i64, y: i64, srid: Option<i32>) -> Point {
    Point { x, y, srid }
}

fn line(points: &[(i64, i64)], srid: Option<i32>) -> LineString {
    LineString { points: points.iter().map(|&(x, y)| point(x, y, srid)).collect(), srid }
}

#[test]
fn a_point_keeps_its_position_and_drops_the_third_ordinate() {
    let g = native(NativeKind::Point, &[(-3, 7, 99)], Vec::new());
    assert_eq!(g.to_geo(Some(4326)), Ok(GeometryType::Point(point(-3, 7, Some(4326)))));
    assert_eq!(g.to_geo(None), Ok(GeometryType::Point(point(-3, 7, None))));
}

#[test]
fn a_line_keeps_every_vertex_in_its_place() {
    let g = native_line(&[(1, 2, 3), (4, 5, 6), (1, 2, 3), (-7, -8, -9)]);
    assert_eq!(
        g.to_geo(Some(3857)),
        Ok(GeometryType::LineString(line(&[(1, 2), (4, 5), (1, 2), (-7, -8)], Some(3857))))
    );
    let empty = native_line(&[]);
    assert_eq!(empty.to_geo(None), Ok(GeometryType::LineString(line(&[], None))));
}

#[test]
fn a_multipoint_is_made_of_its_point_children() {
    let g = native(
        NativeKind::MultiPoint,
        &[],
        vec![native_point(1, 1), native_point(0, 5), native_point(1, 1)],
    );
    let srid = Some(21781);
    assert_eq!(
        g.to_geo(srid),
        Ok(GeometryType::MultiPoint(MultiPoint {
            points: vec![point(1, 1, srid), point(0, 5, srid), point(1, 1, srid)],
            srid,
        }))
    );
}

#[test]
fn a_polygon_keeps_its_rings_as_they_are() {
    let closed = [(0, 0, 0), (10, 0, 0), (10, 10, 0), (0, 0, 0)];
    let unclosed = [(2, 1, 0), (3, 1, 0), (3, 2, 0)];
    let g = native(NativeKind::Polygon, &[], vec![native_line(&closed), native_line(&unclosed)]);
    let srid = Some(4326);
    assert_eq!(
        g.to_geo(srid),
        Ok(GeometryType::Polygon(Polygon {
            rings: vec![
                line(&[(0, 0), (10, 0), (10, 10), (0, 0)], srid),
                line(&[(2, 1), (3, 1), (3, 2)], srid),
            ],
            srid,
        }))
    );
}

#[test]
fn a_multilinestring_is_made_of_its_line_children() {
    let g = native(
        NativeKind::MultiLineString,
        &[],
        vec![native_line(&[(0, 0, 0), (1, 1, 1)]), native_line(&[(5, 5, 5)])],
    );
    assert_eq!(
        g.to_geo(None),
        Ok(GeometryType::MultiLineString(MultiLineString {
            lines: vec![line(&[(0, 0), (1, 1)], None), line(&[(5, 5)], None)],
            srid: None,
        }))
    );
}

#[test]
fn a_multipolygon_is_made_of_its_polygon_children() {
    let ring_a = [(0, 0, 0), (4, 0, 0), (4, 4, 0), (0, 0, 0)];
    let ring_b = [(10, 10, 0), (14, 10, 0), (14, 14, 0), (10, 10, 0)];
    let g = native(
        NativeKind::MultiPolygon,
        &[],
        vec![
            native(NativeKind::Polygon, &[], vec![native_line(&ring_a)]),
            native(NativeKind::Polygon, &[], vec![native_line(&ring_b)]),
        ],
    );
    let srid = Some(3857);
    assert_eq!(
        g.to_geo(srid),
        Ok(GeometryType::MultiPolygon(MultiPolygon {
            polygons: vec![
                Polygon { rings: vec![line(&[(0, 0), (4, 0), (4, 4), (0, 0)], srid)], srid },
                Polygon {
                    rings: vec![line(&[(10, 10), (14, 10), (14, 14), (10, 10)], srid)],
                    srid,
                },
            ],
            srid,
        }))
    );
}

#[test]
fn a_collection_is_unsupported() {
    let g = native(NativeKind::GeometryCollection, &[], vec![native_point(1, 1)]);
    assert_eq!(g.to_geo(Some(4326)), Err(TileError::UnsupportedGeometry));
    let empty = native(NativeKind::GeometryCollection, &[], Vec::new());
    assert_eq!(empty.to_geo(None), Err(TileError::UnsupportedGeometry));
}

#[test]
fn any_other_kind_is_unsupported() {
    let g = native(NativeKind::Other, &[(1, 2, 3)], Vec::new());
    assert_eq!(g.to_geo(None), Err(TileError::UnsupportedGeometry));
}

#[test]
fn a_point_without_a_vertex_is_unsupported() {
    let g = native(NativeKind::Point, &[], Vec::new());
    assert_eq!(g.to_geo(None), Err(TileError::UnsupportedGeometry));
}

#[test]
fn a_child_of_the_wrong_kind_is_an_error() {
    let ring = native_line(&[(0, 0, 0), (1, 0, 0), (1, 1, 0), (0, 0, 0)]);
    let polygon = || native(NativeKind::Polygon, &[], vec![native_line(&[(0, 0, 0)])]);
    let cases = vec![
        native(NativeKind::MultiPoint, &[], vec![native_point(1, 1), ring]),
        native(NativeKind::MultiPoint, &[], vec![native(NativeKind::Point, &[], Vec::new())]),
        native(NativeKind::Polygon, &[], vec![native_line(&[]), native_point(0, 0)]),
        native(NativeKind::Polygon, &[], vec![polygon()]),
        native(NativeKind::MultiLineString, &[], vec![native_point(0, 0)]),
        native(NativeKind::MultiPolygon, &[], vec![polygon(), native_line(&[])]),
        native(
            NativeKind::MultiPolygon,
            &[],
            vec![native(NativeKind::Polygon, &[], vec![native_point(0, 0)])],
        ),
        native(
            NativeKind::MultiPolygon,
            &[],
            vec![native(NativeKind::GeometryCollection, &[], Vec::new())],
        ),
    ];
    for g in cases.iter() {
        assert_eq!(g.to_geo(Some(1)), Err(TileError::UnsupportedGeometry), "{:?}", g);
    }
}

#[test]
fn empty_collections_convert_to_empty_collections() {
    let srid = Some(7);
    assert_eq!(
        native(NativeKind::MultiPoint, &[], Vec::new()).to_geo(srid),
        Ok(GeometryType::MultiPoint(MultiPoint { points: Vec::new(), srid }))
    );
    assert_eq!(
        native(NativeKind::Polygon, &[], Vec::new()).to_geo(srid),
        Ok(GeometryType::Polygon(Polygon { rings: Vec::new(), srid }))
    );
    assert_eq!(
        native(NativeKind::MultiPolygon, &[], Vec::new()).to_geo(srid),
        Ok(GeometryType::MultiPolygon(MultiPolygon { polygons: Vec::new(), srid }))
    );
}

#[test]
fn extremes_of_the_coordinate_range_are_kept() {
    let g = native_line(&[(i64::MIN, i64::MAX, 0), (i64::MAX, i64::MIN, 0)]);
    assert_eq!(
        g.to_geo(None),
        Ok(GeometryType::LineString(line(&[(i64::MIN, i64::MAX), (i64::MAX, i64::MIN)], None)))
    );
}

#[test]
fn geometry_type_codes_map_to_kinds() {
    assert_eq!(NativeKind::from_wkb_code(0), NativeKind::Other);
    assert_eq!(NativeKind::from_wkb_code(1), NativeKind::Point);
    assert_eq!(NativeKind::from_wkb_code(2), NativeKind::LineString);
    assert_eq!(NativeKind::from_wkb_code(3), NativeKind::Polygon);
    assert_eq!(NativeKind::from_wkb_code(4), NativeKind::MultiPoint);
    assert_eq!(NativeKind::from_wkb_code(5), NativeKind::MultiLineString);
    assert_eq!(NativeKind::from_wkb_code(6), NativeKind::MultiPolygon);
    assert_eq!(NativeKind::from_wkb_code(7), NativeKind::GeometryCollection);
    assert_eq!(NativeKind::from_wkb_code(8), NativeKind::Other);
    assert_eq!(NativeKind::from_wkb_code(101), NativeKind::Other);
    assert_eq!(NativeKind::from_wkb_code(0x8000_0001), NativeKind::Other);
}
