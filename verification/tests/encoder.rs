use t_rex::clip::{clip_line, clip_points, clip_ring};
use t_rex::commands::encode_geometry;
use t_rex::error::TileError;
use t_rex::geom::{
    GeometryType, LineString, MultiLineString, MultiPoint, MultiPolygon, Point, Polygon,
};
use t_rex::grid::Extent;
use t_rex::screen::{draw, Drawing, GeomType};

const TILE: Extent = Extent { minx: 0, miny: 0, maxx: 4096, maxy: 4096 };

fn pt(x: i64, y: i64) -> Point {
    Point { x, y, srid: Some(3857) }
}

fn ls(points: &[(i64, i64)]) -> LineString {
    LineString { points: points.iter().map(|&(x, y)| pt(x, y)).collect(), srid: Some(3857) }
}

fn polygon(rings: &[&[(i64, i64)]]) -> Polygon {
    Polygon { rings: rings.iter().map(|r| ls(r)).collect(), srid: Some(3857) }
}

fn drawing(kind: GeomType, parts: &[&[(i64, i64)]]) -> Drawing {
    Drawing { kind, parts: parts.iter().map(|p| p.to_vec()).collect() }
}

fn commands(kind: GeomType, parts: &[&[(i64, i64)]]) -> Result<Vec<u32>, TileError> {
    encode_geometry(&drawing(kind, parts))
}

#[test]
fn a_point_is_one_move() {
    assert_eq!(commands(GeomType::Point, &[&[(25, 17)]]), Ok(vec![9, 50, 34]));
}

#[test]
fn points_are_one_move_with_a_count() {
    assert_eq!(commands(GeomType::Point, &[&[(5, 7), (3, 2)]]), Ok(vec![17, 10, 14, 3, 9]));
}

#[test]
fn a_line_is_a_move_and_lines() {
    assert_eq!(
        commands(GeomType::LineString, &[&[(2, 2), (2, 10), (10, 10)]]),
        Ok(vec![9, 4, 4, 18, 0, 16, 16, 0])
    );
}

#[test]
fn the_cursor_carries_over_from_one_line_to_the_next() {
    assert_eq!(
        commands(GeomType::LineString, &[&[(2, 2), (2, 10), (10, 10)], &[(1, 1), (3, 5)]]),
        Ok(vec![9, 4, 4, 18, 0, 16, 16, 0, 9, 17, 17, 10, 4, 8])
    );
}

#[test]
fn a_ring_is_closed_by_a_command() {
    assert_eq!(
        commands(GeomType::Polygon, &[&[(3, 6), (8, 12), (20, 34)]]),
        Ok(vec![9, 6, 12, 18, 10, 12, 24, 44, 15])
    );
}

#[test]
fn rings_follow_each_other_with_the_cursor_at_the_last_corner() {
    assert_eq!(
        commands(
            GeomType::Polygon,
            &[
                &[(0, 0), (10, 0), (10, 10), (0, 10)],
                &[(11, 11), (20, 11), (20, 20), (11, 20)],
                &[(13, 13), (13, 17), (17, 17), (17, 13)],
            ]
        ),
        Ok(vec![
            9, 0, 0, 26, 20, 0, 0, 20, 19, 0, 15, 9, 22, 2, 26, 18, 0, 0, 18, 17, 0, 15, 9, 4, 13,
            26, 0, 8, 8, 0, 0, 7, 15
        ])
    );
}

#[test]
fn a_drawing_without_parts_has_no_commands() {
    assert_eq!(commands(GeomType::Point, &[]), Ok(Vec::new()));
    assert_eq!(commands(GeomType::Polygon, &[]), Ok(Vec::new()));
}

#[test]
fn the_far_corner_of_the_largest_tile_can_be_written() {
    let far = 0x7fff_ffff;
    assert_eq!(
        commands(GeomType::LineString, &[&[(far, far), (0, 0)]]),
        Ok(vec![9, 0xffff_fffe, 0xffff_fffe, 10, 0xffff_fffd, 0xffff_fffd])
    );
}

#[test]
fn a_part_with_too_few_positions_cannot_be_written() {
    let e = Err(TileError::EncodingInvariantViolation);
    assert_eq!(commands(GeomType::Point, &[&[]]), e);
    assert_eq!(commands(GeomType::LineString, &[&[(1, 1)]]), e);
    assert_eq!(commands(GeomType::LineString, &[&[(1, 1), (2, 2)], &[]]), e);
    assert_eq!(commands(GeomType::Polygon, &[&[(1, 1), (2, 2)]]), e);
}

#[test]
fn a_position_off_every_tile_cannot_be_written() {
    let e = Err(TileError::EncodingInvariantViolation);
    assert_eq!(commands(GeomType::Point, &[&[(-1, 0)]]), e);
    assert_eq!(commands(GeomType::Point, &[&[(0, -1)]]), e);
    assert_eq!(commands(GeomType::Point, &[&[(0x8000_0000, 0)]]), e);
    assert_eq!(commands(GeomType::LineString, &[&[(0, 0), (1, 0x8000_0000)]]), e);
}

#[test]
fn a_point_is_set_from_the_top_left_corner() {
    assert_eq!(
        draw(&GeometryType::Point(pt(10, 4086)), &TILE, 4096),
        Some(drawing(GeomType::Point, &[&[(10, 10)]]))
    );
    let wide = Extent { minx: -1000, miny: -1000, maxx: 1000, maxy: 1000 };
    assert_eq!(
        draw(&GeometryType::Point(pt(0, 0)), &wide, 4096),
        Some(drawing(GeomType::Point, &[&[(2048, 2048)]]))
    );
    // a third of the way, rounded down
    let three = Extent { minx: 0, miny: 0, maxx: 3, maxy: 3 };
    assert_eq!(
        draw(&GeometryType::Point(pt(1, 2)), &three, 4096),
        Some(drawing(GeomType::Point, &[&[(1365, 1365)]]))
    );
    assert_eq!(
        draw(&GeometryType::Point(pt(2, 1)), &three, 10),
        Some(drawing(GeomType::Point, &[&[(6, 6)]]))
    );
}

#[test]
fn the_left_and_top_edge_belong_to_the_tile() {
    assert_eq!(
        draw(&GeometryType::Point(pt(0, 4096)), &TILE, 4096),
        Some(drawing(GeomType::Point, &[&[(0, 0)]]))
    );
    assert_eq!(
        draw(&GeometryType::Point(pt(4095, 1)), &TILE, 4096),
        Some(drawing(GeomType::Point, &[&[(4095, 4095)]]))
    );
    assert_eq!(draw(&GeometryType::Point(pt(4096, 100)), &TILE, 4096), None);
    assert_eq!(draw(&GeometryType::Point(pt(100, 0)), &TILE, 4096), None);
    assert_eq!(draw(&GeometryType::Point(pt(-1, 100)), &TILE, 4096), None);
    assert_eq!(draw(&GeometryType::Point(pt(100, 4097)), &TILE, 4096), None);
}

#[test]
fn points_off_the_tile_are_left_out() {
    let m = MultiPoint {
        points: vec![pt(-5, 5), pt(1, 4095), pt(5000, 5), pt(1, 4095), pt(3, 4000)],
        srid: None,
    };
    assert_eq!(
        draw(&GeometryType::MultiPoint(m), &TILE, 4096),
        Some(drawing(GeomType::Point, &[&[(1, 1), (1, 1), (3, 96)]]))
    );
    let none = MultiPoint { points: vec![pt(-5, 5), pt(5, -5)], srid: None };
    assert_eq!(draw(&GeometryType::MultiPoint(none), &TILE, 4096), None);
    let empty = MultiPoint { points: Vec::new(), srid: None };
    assert_eq!(draw(&GeometryType::MultiPoint(empty), &TILE, 4096), None);
}

#[test]
fn a_line_is_cut_at_the_edge() {
    let l = ls(&[(-10, 4000), (10, 4000)]);
    assert_eq!(
        draw(&GeometryType::LineString(l), &TILE, 4096),
        Some(drawing(GeomType::LineString, &[&[(0, 96), (10, 96)]]))
    );
    let l = ls(&[(4090, 4000), (5000, 4000)]);
    assert_eq!(
        draw(&GeometryType::LineString(l), &TILE, 4096),
        Some(drawing(GeomType::LineString, &[&[(4090, 96), (4095, 96)]]))
    );
}

#[test]
fn a_line_that_leaves_and_returns_makes_two_runs() {
    let l = ls(&[(10, 4000), (-10, 4000), (-10, 3000), (10, 3000)]);
    assert_eq!(
        draw(&GeometryType::LineString(l), &TILE, 4096),
        Some(drawing(
            GeomType::LineString,
            &[&[(10, 96), (0, 96)], &[(0, 1096), (10, 1096)]]
        ))
    );
}

#[test]
fn a_line_through_the_tile_is_cut_at_both_ends() {
    let l = ls(&[(-100, 2048), (5000, 2048)]);
    assert_eq!(
        draw(&GeometryType::LineString(l), &TILE, 4096),
        Some(drawing(GeomType::LineString, &[&[(0, 2048), (4095, 2048)]]))
    );
}

#[test]
fn a_crossing_is_rounded_down_whatever_the_direction() {
    let w = Extent { minx: 0, miny: 1, maxx: 4095, maxy: 4096 };
    assert_eq!(clip_line(&vec![(-3, 10), (3, 13)], &w), vec![vec![(0, 11), (3, 13)]]);
    assert_eq!(clip_line(&vec![(3, 13), (-3, 10)], &w), vec![vec![(3, 13), (0, 11)]]);
    assert_eq!(clip_line(&vec![(-3, 13), (3, 10)], &w), vec![vec![(0, 11), (3, 10)]]);
    assert_eq!(clip_line(&vec![(3, 10), (-3, 13)], &w), vec![vec![(3, 10), (0, 11)]]);
    // across the top edge
    assert_eq!(clip_line(&vec![(10, 4090), (13, 4102)], &w), vec![vec![(10, 4090), (11, 4096)]]);
}

#[test]
fn crossings_at_the_ends_of_the_coordinate_range_do_not_overflow() {
    let w = Extent { minx: 0, miny: 1, maxx: 4095, maxy: 4096 };
    assert_eq!(
        clip_line(&vec![(i64::MIN, 10), (i64::MAX, 10)], &w),
        vec![vec![(0, 10), (4095, 10)]]
    );
    assert_eq!(
        clip_line(&vec![(i64::MIN, i64::MIN), (i64::MAX, i64::MAX)], &w),
        vec![vec![(1, 1), (4095, 4095)]]
    );
    assert_eq!(
        clip_line(&vec![(i64::MAX, i64::MIN), (i64::MIN, i64::MAX)], &w),
        Vec::<Vec<(i64, i64)>>::new()
    );
    assert_eq!(
        clip_line(&vec![(10, i64::MAX), (10, i64::MIN)], &w),
        vec![vec![(10, 4096), (10, 1)]]
    );
}

#[test]
fn lines_without_length_on_the_tile_are_left_out() {
    assert_eq!(draw(&GeometryType::LineString(ls(&[])), &TILE, 4096), None);
    assert_eq!(draw(&GeometryType::LineString(ls(&[(5, 5)])), &TILE, 4096), None);
    assert_eq!(draw(&GeometryType::LineString(ls(&[(5, 5), (5, 5)])), &TILE, 4096), None);
    assert_eq!(draw(&GeometryType::LineString(ls(&[(-5, 5), (-5, 50)])), &TILE, 4096), None);
    // both ends fall on the same position of a coarse tile
    assert_eq!(draw(&GeometryType::LineString(ls(&[(8, 8), (9, 9)])), &TILE, 4), None);
}

#[test]
fn repeated_positions_of_a_line_are_dropped() {
    let l = ls(&[(1, 4095), (1, 4095), (2, 4095), (2, 4095), (2, 4095), (1, 4095)]);
    assert_eq!(
        draw(&GeometryType::LineString(l), &TILE, 4096),
        Some(drawing(GeomType::LineString, &[&[(1, 1), (2, 1), (1, 1)]]))
    );
    let coarse = ls(&[(0, 4096), (1000, 4096), (2000, 4096), (3000, 4096)]);
    assert_eq!(
        draw(&GeometryType::LineString(coarse), &TILE, 2),
        Some(drawing(GeomType::LineString, &[&[(0, 0), (1, 0)]]))
    );
}

#[test]
fn lines_of_a_collection_are_drawn_in_order() {
    let m = MultiLineString {
        lines: vec![ls(&[(1, 4095), (2, 4094)]), ls(&[(-9, 9), (-8, 8)]), ls(&[(3, 4093), (4, 4092)])],
        srid: None,
    };
    assert_eq!(
        draw(&GeometryType::MultiLineString(m), &TILE, 4096),
        Some(drawing(GeomType::LineString, &[&[(1, 1), (2, 2)], &[(3, 3), (4, 4)]]))
    );
}

#[test]
fn a_polygon_over_the_whole_tile_is_cut_to_the_tile() {
    let p = polygon(&[&[(-100, -100), (5000, -100), (5000, 5000), (-100, 5000), (-100, -100)]]);
    let d = draw(&GeometryType::Polygon(p), &TILE, 4096);
    assert_eq!(
        d,
        Some(drawing(GeomType::Polygon, &[&[(4095, 0), (4095, 4095), (0, 4095), (0, 0)]]))
    );
    assert_eq!(
        encode_geometry(&d.unwrap()),
        Ok(vec![9, 8190, 0, 26, 0, 8190, 8189, 0, 0, 8189, 15])
    );
}

#[test]
fn an_outer_ring_runs_clockwise_and_a_hole_counterclockwise() {
    // given with the outer ring counterclockwise on the tile and the hole clockwise
    let outer = [(10, 4086), (10, 4066), (30, 4066), (30, 4086), (10, 4086)];
    let hole = [(15, 4081), (25, 4081), (25, 4071), (15, 4071), (15, 4081)];
    let p = polygon(&[&outer, &hole]);
    assert_eq!(
        draw(&GeometryType::Polygon(p), &TILE, 4096),
        Some(drawing(
            GeomType::Polygon,
            &[&[(30, 10), (30, 30), (10, 30), (10, 10)], &[(15, 25), (25, 25), (25, 15), (15, 15)]]
        ))
    );
    // given the other way round, the rings are kept as they are
    let outer = [(10, 4086), (30, 4086), (30, 4066), (10, 4066), (10, 4086)];
    let hole = [(15, 4081), (15, 4071), (25, 4071), (25, 4081), (15, 4081)];
    let p = polygon(&[&outer, &hole]);
    assert_eq!(
        draw(&GeometryType::Polygon(p), &TILE, 4096),
        Some(drawing(
            GeomType::Polygon,
            &[&[(10, 10), (30, 10), (30, 30), (10, 30)], &[(15, 15), (15, 25), (25, 25), (25, 15)]]
        ))
    );
}

#[test]
fn a_ring_that_is_not_closed_is_closed_all_the_same() {
    let open = polygon(&[&[(10, 4086), (30, 4086), (30, 4066)]]);
    let closed = polygon(&[&[(10, 4086), (30, 4086), (30, 4066), (10, 4086)]]);
    let expected = Some(drawing(GeomType::Polygon, &[&[(10, 10), (30, 10), (30, 30)]]));
    assert_eq!(draw(&GeometryType::Polygon(open), &TILE, 4096), expected);
    assert_eq!(draw(&GeometryType::Polygon(closed), &TILE, 4096), expected);
}

#[test]
fn a_triangle_is_cut_at_the_left_edge() {
    let w = Extent { minx: 0, miny: 1, maxx: 4095, maxy: 4096 };
    assert_eq!(
        clip_ring(&vec![(-10, 10), (10, 10), (10, 30)], &w),
        vec![(0, 20), (0, 10), (10, 10), (10, 30)]
    );
    assert_eq!(clip_ring(&vec![(-10, 10), (-5, 10), (-5, 30)], &w), Vec::<(i64, i64)>::new());
    assert_eq!(clip_ring(&Vec::new(), &w), Vec::<(i64, i64)>::new());
    assert_eq!(clip_points(&vec![(0, 1), (0, 0), (4095, 4096), (4096, 4096)], &w), vec![
        (0, 1),
        (4095, 4096)
    ]);
}

#[test]
fn a_polygon_without_area_on_the_tile_is_left_out() {
    let outside = polygon(&[&[(-10, 10), (-5, 10), (-5, 30), (-10, 10)]]);
    assert_eq!(draw(&GeometryType::Polygon(outside), &TILE, 4096), None);
    let two_corners = polygon(&[&[(10, 10), (20, 20), (10, 10)]]);
    assert_eq!(draw(&GeometryType::Polygon(two_corners), &TILE, 4096), None);
    let flat = polygon(&[&[(10, 10), (20, 10), (30, 10), (10, 10)]]);
    assert_eq!(draw(&GeometryType::Polygon(flat), &TILE, 4096), None);
    let no_rings = polygon(&[]);
    assert_eq!(draw(&GeometryType::Polygon(no_rings), &TILE, 4096), None);
    // smaller than a position of a coarse tile
    let tiny = polygon(&[&[(10, 10), (20, 10), (20, 20), (10, 10)]]);
    assert_eq!(draw(&GeometryType::Polygon(tiny), &TILE, 4), None);
}

#[test]
fn holes_go_with_their_outer_ring() {
    let outer_off = [(-30, 10), (-10, 10), (-10, 30), (-30, 10)];
    let hole_on = [(15, 4081), (15, 4071), (25, 4071), (15, 4081)];
    let p = polygon(&[&outer_off, &hole_on]);
    assert_eq!(draw(&GeometryType::Polygon(p), &TILE, 4096), None);
    let outer_on = [(10, 4086), (30, 4086), (30, 4066), (10, 4066), (10, 4086)];
    let hole_off = [(-30, 10), (-10, 10), (-10, 30), (-30, 10)];
    let p = polygon(&[&outer_on, &hole_off]);
    assert_eq!(
        draw(&GeometryType::Polygon(p), &TILE, 4096),
        Some(drawing(GeomType::Polygon, &[&[(10, 10), (30, 10), (30, 30), (10, 30)]]))
    );
}

#[test]
fn polygons_of_a_collection_are_drawn_in_order() {
    let a = polygon(&[&[(10, 4086), (30, 4086), (30, 4066), (10, 4086)]]);
    let off = polygon(&[&[(-30, 10), (-10, 10), (-10, 30), (-30, 10)]]);
    let b = polygon(&[&[(110, 4086), (130, 4086), (130, 4066), (110, 4086)]]);
    let m = MultiPolygon { polygons: vec![a, off, b], srid: None };
    assert_eq!(
        draw(&GeometryType::MultiPolygon(m), &TILE, 4096),
        Some(drawing(
            GeomType::Polygon,
            &[&[(10, 10), (30, 10), (30, 30)], &[(110, 10), (130, 10), (130, 30)]]
        ))
    );
}

#[test]
fn nothing_is_drawn_without_a_tile() {
    let p = GeometryType::Point(pt(1, 1));
    let no_width = Extent { minx: 5, miny: 0, maxx: 5, maxy: 10 };
    let no_height = Extent { minx: 0, miny: 7, maxx: 10, maxy: 7 };
    let inverted = Extent { minx: 10, miny: 10, maxx: 0, maxy: 0 };
    assert_eq!(draw(&p, &no_width, 4096), None);
    assert_eq!(draw(&p, &no_height, 4096), None);
    assert_eq!(draw(&p, &inverted, 4096), None);
    assert_eq!(draw(&p, &TILE, 0), None);
    assert_eq!(draw(&GeometryType::Point(pt(1, 4095)), &TILE, 0x8000_0001), None);
    assert!(draw(&GeometryType::Point(pt(1, 4095)), &TILE, 0x8000_0000).is_some());
    assert_eq!(draw(&GeometryType::GeometryCollection, &TILE, 4096), None);
}

#[test]
fn every_position_of_a_drawing_lies_on_the_tile() {
    let size = 64u32;
    let ext = Extent { minx: -50, miny: -50, maxx: 50, maxy: 50 };
    let mut seed = 12345u64;
    let mut next = move || {
        seed = seed.wrapping_mul(6364136223846793005).wrapping_add(1442695040888963407);
        ((seed >> 33) % 301) as i64 - 150
    };
    for round in 0..300 {
        let n = 3 + round % 5;
        let points: Vec<(i64, i64)> = (0..n).map(|_| (next(), next())).collect();
        let shapes = vec![
            GeometryType::MultiPoint(MultiPoint {
                points: points.iter().map(|&(x, y)| pt(x, y)).collect(),
                srid: None,
            }),
            GeometryType::LineString(ls(&points)),
            GeometryType::Polygon(polygon(&[&points])),
        ];
        for shape in shapes.iter() {
            if let Some(d) = draw(shape, &ext, size) {
                assert!(!d.parts.is_empty());
                for part in d.parts.iter() {
                    for &(x, y) in part.iter() {
                        assert!(0 <= x && x < size as i64 && 0 <= y && y < size as i64);
                    }
                }
                assert!(encode_geometry(&d).is_ok());
            }
        }
    }
}

#[test]
fn a_geometry_beyond_an_edge_draws_nothing() {
    let beyond: [&[(i64, i64)]; 4] = [
        &[(-1, 5), (-300, 4000), (-1, 4096), (-1, 5)],
        &[(4096, 5), (9000, 4000), (4096, 4096), (4096, 5)],
        &[(5, 0), (4000, -300), (4095, 0), (5, 0)],
        &[(5, 4097), (4000, 9000), (4095, 4097), (5, 4097)],
    ];
    for points in beyond.iter() {
        let m = MultiPoint { points: points.iter().map(|&(x, y)| pt(x, y)).collect(), srid: None };
        assert_eq!(draw(&GeometryType::MultiPoint(m), &TILE, 4096), None);
        assert_eq!(draw(&GeometryType::LineString(ls(points)), &TILE, 4096), None);
        assert_eq!(draw(&GeometryType::Polygon(polygon(&[points])), &TILE, 4096), None);
    }
}

#[test]
fn a_line_that_passes_the_tile_by_draws_nothing() {
    // above the top edge all the way, by less than a unit
    let l = ls(&[(-1, 4097), (4097, 4096)]);
    assert_eq!(draw(&GeometryType::LineString(l), &TILE, 4096), None);
    // past each corner
    for points in [
        [(-10, 4090), (20, 4120)],
        [(4080, 4120), (4120, 4080)],
        [(4105, 5), (4085, -15)],
        [(15, -20), (-20, 15)],
    ] {
        assert_eq!(draw(&GeometryType::LineString(ls(&points)), &TILE, 4096), None);
        let back = [points[1], points[0]];
        assert_eq!(draw(&GeometryType::LineString(ls(&back)), &TILE, 4096), None);
    }
    // through a corner of the window
    let l = ls(&[(-10, 4086), (10, 4106)]);
    assert_eq!(draw(&GeometryType::LineString(l), &TILE, 4096), None);
    let w = Extent { minx: 0, miny: 1, maxx: 4095, maxy: 4096 };
    assert_eq!(clip_line(&vec![(-10, 4085), (10, 4105)], &w), vec![vec![(0, 4095), (1, 4096)]]);
    assert_eq!(
        clip_line(&vec![(i64::MIN, i64::MAX), (i64::MAX, i64::MIN)], &w),
        Vec::<Vec<(i64, i64)>>::new()
    );
    // through the same corner, from one end of the coordinate range to the other
    assert_eq!(
        clip_line(&vec![(i64::MIN, i64::MIN + 4096), (i64::MAX - 4096, i64::MAX)], &w),
        Vec::<Vec<(i64, i64)>>::new()
    );
    assert_eq!(
        clip_line(&vec![(i64::MIN, i64::MIN + 4095), (i64::MAX - 4095, i64::MAX)], &w),
        vec![vec![(0, 4095), (1, 4096)]]
    );
}

/// Whether the triangle and the box `[x0, x1] x [y0, y1]` have no position in common, whole
/// or in between: they lie to different sides of an edge of the box or of a side of the
/// triangle.
fn triangle_misses_box(t: &[(i64, i64); 3], x0: i64, y0: i64, x1: i64, y1: i64) -> bool {
    let beyond = t.iter().all(|p| p.0 < x0)
        || t.iter().all(|p| p.0 > x1)
        || t.iter().all(|p| p.1 < y0)
        || t.iter().all(|p| p.1 > y1);
    let corners = [(x0, y0), (x1, y0), (x1, y1), (x0, y1)];
    let side = |p: (i64, i64), q: (i64, i64), c: (i64, i64)| {
        (q.0 - p.0) as i128 * (c.1 - p.1) as i128 - (q.1 - p.1) as i128 * (c.0 - p.0) as i128
    };
    let parted = (0..3).any(|i| {
        let (p, q, r) = (t[i], t[(i + 1) % 3], t[(i + 2) % 3]);
        let inner = side(p, q, r);
        inner != 0 && corners.iter().all(|&c| side(p, q, c) != 0 && (side(p, q, c) > 0) != (inner > 0))
    });
    beyond || parted
}

#[test]
fn a_triangle_that_misses_the_tile_draws_nothing() {
    let ext = Extent { minx: 0, miny: 0, maxx: 64, maxy: 64 };
    let mut seed = 99u64;
    let mut next = move || {
        seed = seed.wrapping_mul(6364136223846793005).wrapping_add(1442695040888963407);
        ((seed >> 33) % 257) as i64 - 96
    };
    let mut missed = 0;
    for _ in 0..20000 {
        let t = [(next(), next()), (next(), next()), (next(), next())];
        if triangle_misses_box(&t, 0, 1, 63, 64) {
            missed += 1;
            let p = polygon(&[&[t[0], t[1], t[2], t[0]]]);
            assert_eq!(draw(&GeometryType::Polygon(p), &ext, 64), None, "{:?}", t);
            let l = ls(&[t[0], t[1], t[2], t[0]]);
            assert_eq!(draw(&GeometryType::LineString(l), &ext, 64), None, "{:?}", t);
        }
    }
    assert!(missed > 1000);
}
