use t_rex::error::TileError;
use t_rex::grid::{Extent, Grid};

const HALF: i64 = 20037508352;

#[test]
fn the_zoom_0_tile_spans_the_whole_grid() {
    let grid = Grid::web_mercator();
    assert_eq!(
        grid.extent(0, 0, 0),
        Ok(Extent { minx: -HALF, miny: -HALF, maxx: HALF, maxy: HALF })
    );
}

#[test]
fn rows_count_downward_from_the_top() {
    let grid = Grid::web_mercator();
    assert_eq!(grid.extent(1, 0, 0), Ok(Extent { minx: -HALF, miny: 0, maxx: 0, maxy: HALF }));
    assert_eq!(grid.extent(1, 1, 0), Ok(Extent { minx: 0, miny: 0, maxx: HALF, maxy: HALF }));
    assert_eq!(grid.extent(1, 0, 1), Ok(Extent { minx: -HALF, miny: -HALF, maxx: 0, maxy: 0 }));
    assert_eq!(grid.extent(1, 1, 1), Ok(Extent { minx: 0, miny: -HALF, maxx: HALF, maxy: 0 }));
}

#[test]
fn extent_of_a_small_grid_is_exact() {
    let grid = Grid::new(100, 900, 4, 4326, 25).unwrap();
    assert_eq!(grid.extent(0, 0, 0), Ok(Extent { minx: 100, miny: 800, maxx: 200, maxy: 900 }));
    assert_eq!(grid.extent(2, 1, 3), Ok(Extent { minx: 125, miny: 800, maxx: 150, maxy: 825 }));
    // 100 units over 8 tiles: the lines between tiles fall on 12.5, 25, 37.5, ...
    assert_eq!(grid.extent(3, 0, 0), Ok(Extent { minx: 100, miny: 888, maxx: 112, maxy: 900 }));
    assert_eq!(grid.extent(3, 1, 1), Ok(Extent { minx: 112, miny: 875, maxx: 125, maxy: 888 }));
}

#[test]
fn a_column_or_row_beyond_the_zoom_is_rejected() {
    let grid = Grid::web_mercator();
    assert_eq!(grid.extent(0, 1, 0), Err(TileError::InvalidTileAddress));
    assert_eq!(grid.extent(0, 0, 1), Err(TileError::InvalidTileAddress));
    assert_eq!(grid.extent(3, 8, 0), Err(TileError::InvalidTileAddress));
    assert_eq!(grid.extent(3, 7, 8), Err(TileError::InvalidTileAddress));
    assert!(grid.extent(3, 7, 7).is_ok());
    assert_eq!(grid.extent(15, 32768, 0), Err(TileError::InvalidTileAddress));
    assert!(grid.extent(15, 32767, 32767).is_ok());
}

#[test]
fn every_column_and_row_exists_at_deep_zooms() {
    let grid = Grid::web_mercator();
    assert!(grid.extent(16, 65535, 65535).is_ok());
    assert!(grid.extent(40, 65535, 0).is_ok());
    // below a unit per tile, the box has no width
    let e = grid.extent(60, 7, 7).unwrap();
    assert_eq!(e, Extent { minx: -HALF, miny: HALF, maxx: -HALF, maxy: HALF });
    assert!(grid.extent(65535, 65535, 65535).is_ok());
}

#[test]
fn every_tile_lies_within_its_parent() {
    let grids = [Grid::web_mercator(), Grid::new(-7, 13, 3, 0, 37).unwrap()];
    for grid in grids.iter() {
        for z in 1u16..7 {
            for x in 0u16..(1 << z) {
                for y in 0u16..(1 << z) {
                    let child = grid.extent(z, x, y).unwrap();
                    let parent = grid.extent(z - 1, x / 2, y / 2).unwrap();
                    assert!(parent.contains(&child), "{:?} in {:?}", child, parent);
                    assert!(child.minx <= child.maxx && child.miny <= child.maxy);
                }
            }
        }
    }
}

#[test]
fn the_four_children_cover_their_parent() {
    let grid = Grid::web_mercator();
    for z in 0u16..6 {
        for x in 0u16..(1 << z) {
            for y in 0u16..(1 << z) {
                let parent = grid.extent(z, x, y).unwrap();
                let top_left = grid.extent(z + 1, 2 * x, 2 * y).unwrap();
                let bottom_right = grid.extent(z + 1, 2 * x + 1, 2 * y + 1).unwrap();
                assert_eq!(top_left.minx, parent.minx);
                assert_eq!(top_left.maxy, parent.maxy);
                assert_eq!(bottom_right.maxx, parent.maxx);
                assert_eq!(bottom_right.miny, parent.miny);
                assert_eq!(top_left.maxx, bottom_right.minx);
                assert_eq!(top_left.miny, bottom_right.maxy);
            }
        }
    }
}

#[test]
fn resolution_halves_with_every_zoom() {
    let grid = Grid::web_mercator();
    assert_eq!(grid.resolution(0), 156543034);
    assert_eq!(grid.resolution(1), 78271517);
    assert_eq!(grid.resolution(2), 39135758);
    assert_eq!(grid.resolution(27), 1);
    assert_eq!(grid.resolution(28), 0);
    assert_eq!(grid.resolution(65535), 0);
}

#[test]
fn a_grid_has_tiles_and_fits_the_coordinates() {
    assert!(Grid::new(0, 0, 0, 4326, 10).is_none());
    assert!(Grid::new(0, 0, 256, 4326, 0).is_none());
    assert!(Grid::new(i64::MAX, 0, 1, 4326, 1).is_none());
    assert!(Grid::new(0, i64::MIN, 1, 4326, 1).is_none());
    assert!(Grid::new(i64::MAX - 1, i64::MIN + 1, 1, 4326, 1).is_some());
    assert!(Grid::new(0, 0, 65535, 4326, u64::MAX).is_none());
    let grid = Grid::new(5, -5, 256, 2056, 1000).unwrap();
    assert_eq!(grid.origin(), (5, -5));
    assert_eq!(grid.tile_size(), 256);
    assert_eq!(grid.srid(), 2056);
    let web = Grid::web_mercator();
    assert_eq!(web.origin(), (-HALF, HALF));
    assert_eq!(web.tile_size(), 256);
    assert_eq!(web.srid(), 3857);
}
