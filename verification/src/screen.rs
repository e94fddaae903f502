use vstd::arithmetic::div_mod::{
    lemma_div_is_ordered, lemma_div_multiples_vanish, lemma_fundamental_div_mod,
    lemma_mod_pos_bound,
};
use vstd::prelude::*;
use crate::clip::{
    all_apart, all_outside, all_within, before, bound, clip_line, clip_points, clip_ring,
    clipped_line, clipped_ring, coord, coords, each_outside, inside, lemma_clipped_ring_within,
    lemma_line_apart, lemma_line_outside, lemma_line_parts_within, lemma_ring_outside,
    lemma_visible_within, paths, runs_within, unclosed, visible, within, Edge, Xy,
};
use crate::geom::{Coord, GeometryType, Path, Point, Shape};
use crate::grid::{Bounds, Extent};

verus! {

/// The largest number of tile units that the side of a tile can have.
pub const MAX_TILE_SIZE: u32 = 0x8000_0000;

/// The kind of drawing that a feature makes on a tile.
#[derive(Clone, Copy, Debug, PartialEq, Eq, Structural)]
pub enum GeomType {
    Point,
    LineString,
    Polygon,
}

/// What a feature draws on a tile, in tile units from the tile's top left
/// corner: the positions of its points as one part, the runs of its lines,
/// or the rings of its polygons with every outer ring before its holes.
#[derive(Debug, PartialEq, Eq)]
pub struct Drawing {
    pub kind: GeomType,
    pub parts: Vec<Vec<Xy>>,
}

/// A drawing as its kind and the positions of its parts.
pub ghost struct Sketch {
    pub kind: GeomType,
    pub parts: Seq<Path>,
}

impl View for Drawing {
    type V = Sketch;

    open spec fn view(&self) -> Sketch {
        Sketch { kind: self.kind, parts: paths(self.parts@) }
    }
}

/// The box has a width and a height.
pub open spec fn has_area(ext: Bounds) -> bool {
    ext.minx < ext.maxx && ext.miny < ext.maxy
}

/// The positions of the box `ext` that fall on a tile drawn over it: its
/// left and top edge belong to the tile, its right and bottom edge do not.
pub open spec fn window(ext: Bounds) -> Bounds {
    Bounds { minx: ext.minx, miny: ext.miny + 1, maxx: ext.maxx - 1, maxy: ext.maxy }
}

/// The position of `p` on a tile of `size` units drawn over the box `ext`:
/// columns grow to the right from the left edge, rows grow downward from the
/// top edge, and both are rounded down to whole units.
pub open spec fn project(p: Coord, ext: Bounds, size: int) -> Coord {
    (
        ((p.0 - ext.minx) * size) / (ext.maxx - ext.minx),
        ((ext.maxy - p.1) * size) / (ext.maxy - ext.miny),
    )
}

/// The position on the tile of each position of `path`.
pub open spec fn projected(path: Path, ext: Bounds, size: int) -> Path {
    Seq::new(path.len(), |i: int| project(path[i], ext, size))
}

/// `p` is a position of a tile of `size` units.
pub open spec fn on_tile(p: Coord, size: int) -> bool {
    0 <= p.0 < size && 0 <= p.1 < size
}

/// Every position of `path` is a position of a tile of `size` units.
pub open spec fn all_on_tile(path: Path, size: int) -> bool {
    forall|i: int| 0 <= i < path.len() ==> on_tile(#[trigger] path[i], size)
}

/// Every position of every part is a position of a tile of `size` units.
pub open spec fn parts_on_tile(parts: Seq<Path>, size: int) -> bool {
    forall|i: int| 0 <= i < parts.len() ==> all_on_tile(#[trigger] parts[i], size)
}

/// The first `n` positions of `path` without those that repeat the position
/// before them.
pub open spec fn distinct(path: Path, n: nat) -> Path
    decreases n,
{
    if n == 0 {
        Seq::empty()
    } else {
        let head = distinct(path, (n - 1) as nat);
        if head.len() > 0 && head.last() == path[n - 1] {
            head
        } else {
            head.push(path[n - 1])
        }
    }
}

/// The positions of `path` in the opposite order.
pub open spec fn reversed(path: Path) -> Path {
    Seq::new(path.len(), |i: int| path[path.len() - 1 - i])
}

/// Twice the area that the sides from `p` to `q` and back to the origin
/// enclose, positive where the way turns clockwise on the tile.
pub open spec fn wedge(p: Coord, q: Coord) -> int {
    p.0 * q.1 - q.0 * p.1
}

/// The sum of the wedges of the first `n` sides of `ring`.
pub open spec fn area2(ring: Path, n: nat) -> int
    decreases n,
{
    if n == 0 {
        0
    } else {
        area2(ring, (n - 1) as nat) + wedge(before(ring, n - 1), ring[n - 1])
    }
}

/// Twice the area of `ring`, positive where the ring runs clockwise on the
/// tile.
pub open spec fn twice_area(ring: Path) -> int {
    area2(ring, ring.len())
}

/// The corners that `ring` leaves on the tile: the ring cut at the edges of
/// the tile, its corners set on the tile, without repeated corners.
pub open spec fn ring_corners(ring: Path, ext: Bounds, size: int) -> Path {
    let cut = clipped_ring(unclosed(ring), window(ext));
    let set = projected(cut, ext, size);
    unclosed(distinct(set, set.len()))
}

/// The ring that `ring` draws on the tile, if it leaves one: a ring of
/// three corners or more that encloses an area, running clockwise where it
/// is an outer ring and counterclockwise where it is a hole.
pub open spec fn ring_shown(ring: Path, ext: Bounds, size: int, outer: bool) -> Option<Path> {
    let corners = ring_corners(ring, ext, size);
    if corners.len() < 3 || twice_area(corners) == 0 {
        None
    } else if (twice_area(corners) > 0) == outer {
        Some(corners)
    } else {
        Some(reversed(corners))
    }
}

/// The rings that the first `n` rings of a polygon draw on the tile.
pub open spec fn rings_shown(rings: Seq<Path>, ext: Bounds, size: int, n: nat) -> Seq<Path>
    decreases n,
{
    if n == 0 {
        Seq::empty()
    } else {
        let head = rings_shown(rings, ext, size, (n - 1) as nat);
        match ring_shown(rings[n - 1], ext, size, n == 1) {
            Some(r) => head.push(r),
            None => head,
        }
    }
}

/// The rings that a polygon draws on the tile: none where its outer ring
/// leaves none, else its outer ring and those of its holes that leave one.
pub open spec fn polygon_shown(rings: Seq<Path>, ext: Bounds, size: int) -> Seq<Path> {
    if rings.len() > 0 && ring_shown(rings[0], ext, size, true).is_some() {
        rings_shown(rings, ext, size, rings.len())
    } else {
        Seq::empty()
    }
}

/// The rings that the first `n` polygons draw on the tile.
pub open spec fn polygons_shown(polygons: Seq<Seq<Path>>, ext: Bounds, size: int, n: nat) -> Seq<
    Path,
>
    decreases n,
{
    if n == 0 {
        Seq::empty()
    } else {
        polygons_shown(polygons, ext, size, (n - 1) as nat) + polygon_shown(
            polygons[n - 1],
            ext,
            size,
        )
    }
}

/// The runs that the first `n` of the given runs draw on the tile: each set
/// on the tile, without repeated positions, and dropped where fewer than two
/// positions are left.
pub open spec fn runs_shown(runs: Seq<Path>, ext: Bounds, size: int, n: nat) -> Seq<Path>
    decreases n,
{
    if n == 0 {
        Seq::empty()
    } else {
        let head = runs_shown(runs, ext, size, (n - 1) as nat);
        let set = projected(runs[n - 1], ext, size);
        let run = distinct(set, set.len());
        if run.len() >= 2 {
            head.push(run)
        } else {
            head
        }
    }
}

/// The runs that a line draws on the tile.
pub open spec fn line_shown(path: Path, ext: Bounds, size: int) -> Seq<Path> {
    let runs = clipped_line(path, window(ext));
    runs_shown(runs, ext, size, runs.len())
}

/// The runs that the first `n` lines draw on the tile.
pub open spec fn lines_shown(lines: Seq<Path>, ext: Bounds, size: int, n: nat) -> Seq<Path>
    decreases n,
{
    if n == 0 {
        Seq::empty()
    } else {
        lines_shown(lines, ext, size, (n - 1) as nat) + line_shown(lines[n - 1], ext, size)
    }
}

/// The positions on the tile of those of `path` that fall on it.
pub open spec fn points_shown(path: Path, ext: Bounds, size: int) -> Path {
    projected(visible(path, window(ext), path.len()), ext, size)
}

/// A drawing of the given kind and parts, if there is a part.
pub open spec fn sketch(kind: GeomType, parts: Seq<Path>) -> Option<Sketch> {
    if parts.len() > 0 {
        Some(Sketch { kind, parts })
    } else {
        None
    }
}

/// A tile can have a side of `size` units.
pub open spec fn tile_size(size: int) -> bool {
    0 < size <= MAX_TILE_SIZE
}

/// What a geometry of the given shape draws on a tile of `size` units over
/// the box `ext`, if it draws anything. Nothing is drawn over a box without
/// area, nor on a tile whose side is not a size that a tile can have.
pub open spec fn drawn(shape: Shape, ext: Bounds, size: int) -> Option<Sketch> {
    if !has_area(ext) || !tile_size(size) {
        None
    } else {
        match shape {
            Shape::Point(p) => {
                let shown = points_shown(seq![p], ext, size);
                if shown.len() > 0 {
                    Some(Sketch { kind: GeomType::Point, parts: seq![shown] })
                } else {
                    None
                }
            },
            Shape::MultiPoint(path) => {
                let shown = points_shown(path, ext, size);
                if shown.len() > 0 {
                    Some(Sketch { kind: GeomType::Point, parts: seq![shown] })
                } else {
                    None
                }
            },
            Shape::LineString(path) => sketch(GeomType::LineString, line_shown(path, ext, size)),
            Shape::MultiLineString(lines) => sketch(
                GeomType::LineString,
                lines_shown(lines, ext, size, lines.len()),
            ),
            Shape::Polygon(rings) => sketch(GeomType::Polygon, polygon_shown(rings, ext, size)),
            Shape::MultiPolygon(polygons) => sketch(
                GeomType::Polygon,
                polygons_shown(polygons, ext, size, polygons.len()),
            ),
            Shape::GeometryCollection => None,
        }
    }
}

/// The sum of the wedges of the sides `lo` up to `hi` of `ring`.
pub open spec fn sides(ring: Path, lo: int, hi: int) -> int
    decreases hi - lo,
{
    if hi <= lo {
        0
    } else {
        wedge(before(ring, lo), ring[lo]) + sides(ring, lo + 1, hi)
    }
}

/// The wedges of sides can be summed from either end.
proof fn lemma_sides_from_the_end(ring: Path, lo: int, hi: int)
    requires
        lo < hi,
    ensures
        sides(ring, lo, hi) == sides(ring, lo, hi - 1) + wedge(before(ring, hi - 1), ring[hi - 1]),
    decreases hi - lo,
{
    if lo + 1 < hi {
        lemma_sides_from_the_end(ring, lo + 1, hi);
    } else {
        assert(sides(ring, lo + 1, hi) == 0);
        assert(sides(ring, lo, hi - 1) == 0);
    }
}

proof fn lemma_area2_is_sides(ring: Path, n: nat)
    ensures
        area2(ring, n) == sides(ring, 0, n as int),
    decreases n,
{
    if n > 0 {
        lemma_area2_is_sides(ring, (n - 1) as nat);
        lemma_sides_from_the_end(ring, 0, n as int);
    }
}

/// The first `k` sides of a ring walked backwards are the last `k - 1`
/// sides and the closing side of the ring, each with the opposite sign.
proof fn lemma_reversed_sides(ring: Path, k: nat)
    requires
        1 <= k <= ring.len(),
    ensures
        area2(reversed(ring), k) == -(wedge(before(ring, 0), ring[0]) + sides(
            ring,
            ring.len() - k + 1,
            ring.len() as int,
        )),
    decreases k,
{
    let n = ring.len() as int;
    let back = reversed(ring);
    if k == 1 {
        assert(area2(back, 0) == 0);
        assert(before(back, 0) == ring[0]);
        assert(back[0] == ring[n - 1]);
        assert(sides(ring, n, n) == 0);
    } else {
        lemma_reversed_sides(ring, (k - 1) as nat);
        assert(before(back, k - 1) == ring[n - k + 1]);
        assert(back[k - 1] == ring[n - k]);
        assert(before(ring, n - k + 1) == ring[n - k]);
    }
}

/// A ring walked backwards encloses the same area with the opposite sign.
pub proof fn lemma_reversed_area(ring: Path)
    ensures
        twice_area(reversed(ring)) == -twice_area(ring),
{
    if ring.len() > 0 {
        lemma_reversed_sides(ring, ring.len());
        lemma_area2_is_sides(ring, ring.len());
    }
}

/// A ring on a tile runs the way that its place in its polygon asks for: a
/// ring that is drawn has three corners or more and encloses an area, an
/// outer ring runs clockwise on the tile and a hole counterclockwise.
pub proof fn lemma_ring_shown_oriented(ring: Path, ext: Bounds, size: int, outer: bool)
    ensures
        ring_shown(ring, ext, size, outer) matches Some(r) ==> r.len() >= 3 && (twice_area(r) > 0)
            == outer && twice_area(r) != 0,
{
    lemma_reversed_area(ring_corners(ring, ext, size));
}

/// A position in the window of a box falls on the tile drawn over the box.
pub proof fn lemma_project_on_tile(p: Coord, ext: Bounds, size: int)
    requires
        has_area(ext),
        within(p, window(ext)),
        size > 0,
    ensures
        on_tile(project(p, ext, size), size),
{
    lemma_scaled_below(p.0 - ext.minx, ext.maxx - ext.minx, size);
    lemma_scaled_below(ext.maxy - p.1, ext.maxy - ext.miny, size);
}

/// A part of a whole, scaled to `size`, is below `size`.
proof fn lemma_scaled_below(v: int, d: int, size: int)
    requires
        0 <= v < d,
        size > 0,
    ensures
        0 <= (v * size) / d < size,
{
    assert(0 <= v * size < d * size) by (nonlinear_arith)
        requires
            0 <= v < d,
            size > 0,
    ;
    lemma_div_multiples_vanish(0, d);
    assert(d * 0 == 0);
    lemma_div_is_ordered(0, v * size, d);
    lemma_fundamental_div_mod(v * size, d);
    lemma_mod_pos_bound(v * size, d);
    let q = (v * size) / d;
    if q >= size {
        assert(d * q >= d * size) by (nonlinear_arith)
            requires
                q >= size,
                d > 0,
        ;
    }
}

/// The positions of a path in the window of a box fall on the tile.
pub proof fn lemma_projected_on_tile(path: Path, ext: Bounds, size: int)
    requires
        has_area(ext),
        all_within(path, window(ext)),
        size > 0,
    ensures
        all_on_tile(projected(path, ext, size), size),
{
    assert forall|i: int| 0 <= i < path.len() implies on_tile(
        #[trigger] projected(path, ext, size)[i],
        size,
    ) by {
        assert(within(path[i], window(ext)));
        lemma_project_on_tile(path[i], ext, size);
    }
}

/// Dropping repeated positions leaves positions of the path.
pub proof fn lemma_distinct_on_tile(path: Path, n: nat, size: int)
    requires
        n <= path.len(),
        all_on_tile(path, size),
    ensures
        all_on_tile(distinct(path, n), size),
    decreases n,
{
    if n > 0 {
        lemma_distinct_on_tile(path, (n - 1) as nat, size);
        assert(on_tile(path[n - 1], size));
    }
}

/// The ring that a ring draws on the tile lies on the tile.
pub proof fn lemma_ring_shown_on_tile(ring: Path, ext: Bounds, size: int, outer: bool)
    requires
        has_area(ext),
        size > 0,
    ensures
        ring_shown(ring, ext, size, outer) matches Some(r) ==> all_on_tile(r, size),
{
    let cut = clipped_ring(unclosed(ring), window(ext));
    let set = projected(cut, ext, size);
    let bare = distinct(set, set.len());
    let corners = unclosed(bare);
    lemma_clipped_ring_within(unclosed(ring), window(ext));
    lemma_projected_on_tile(cut, ext, size);
    lemma_distinct_on_tile(set, set.len(), size);
    assert forall|i: int| 0 <= i < corners.len() implies on_tile(#[trigger] corners[i], size) by {
        assert(corners[i] == bare[i]);
    }
    let back = reversed(corners);
    assert forall|i: int| 0 <= i < back.len() implies on_tile(#[trigger] back[i], size) by {
        assert(back[i] == corners[corners.len() - 1 - i]);
    }
}

/// The rings that a polygon's rings draw on the tile lie on the tile.
pub proof fn lemma_rings_shown_on_tile(rings: Seq<Path>, ext: Bounds, size: int, n: nat)
    requires
        has_area(ext),
        size > 0,
    ensures
        parts_on_tile(rings_shown(rings, ext, size, n), size),
    decreases n,
{
    if n > 0 {
        lemma_rings_shown_on_tile(rings, ext, size, (n - 1) as nat);
        lemma_ring_shown_on_tile(rings[n - 1], ext, size, n == 1);
    }
}

/// The rings that polygons draw on the tile lie on the tile.
pub proof fn lemma_polygons_shown_on_tile(polygons: Seq<Seq<Path>>, ext: Bounds, size: int, n: nat)
    requires
        has_area(ext),
        size > 0,
    ensures
        parts_on_tile(polygons_shown(polygons, ext, size, n), size),
    decreases n,
{
    if n > 0 {
        lemma_polygons_shown_on_tile(polygons, ext, size, (n - 1) as nat);
        let head = polygons_shown(polygons, ext, size, (n - 1) as nat);
        let tail = polygon_shown(polygons[n - 1], ext, size);
        lemma_rings_shown_on_tile(polygons[n - 1], ext, size, polygons[n - 1].len());
        assert forall|i: int| 0 <= i < (head + tail).len() implies all_on_tile(
            #[trigger] (head + tail)[i],
            size,
        ) by {
            if i < head.len() {
                assert((head + tail)[i] == head[i]);
            } else {
                assert((head + tail)[i] == tail[i - head.len()]);
            }
        }
    }
}

/// The runs that runs in the window draw on the tile lie on the tile.
pub proof fn lemma_runs_shown_on_tile(runs: Seq<Path>, ext: Bounds, size: int, n: nat)
    requires
        has_area(ext),
        size > 0,
        n <= runs.len(),
        runs_within(runs, window(ext)),
    ensures
        parts_on_tile(runs_shown(runs, ext, size, n), size),
    decreases n,
{
    if n > 0 {
        lemma_runs_shown_on_tile(runs, ext, size, (n - 1) as nat);
        let set = projected(runs[n - 1], ext, size);
        assert(all_within(runs[n - 1], window(ext)));
        lemma_projected_on_tile(runs[n - 1], ext, size);
        lemma_distinct_on_tile(set, set.len(), size);
    }
}

/// The runs that a line draws on the tile lie on the tile.
pub proof fn lemma_line_shown_on_tile(path: Path, ext: Bounds, size: int)
    requires
        has_area(ext),
        size > 0,
    ensures
        parts_on_tile(line_shown(path, ext, size), size),
{
    let runs = clipped_line(path, window(ext));
    if path.len() >= 2 {
        lemma_line_parts_within(path, window(ext), (path.len() - 1) as nat);
    }
    lemma_runs_shown_on_tile(runs, ext, size, runs.len());
}

/// The runs that lines draw on the tile lie on the tile.
pub proof fn lemma_lines_shown_on_tile(lines: Seq<Path>, ext: Bounds, size: int, n: nat)
    requires
        has_area(ext),
        size > 0,
    ensures
        parts_on_tile(lines_shown(lines, ext, size, n), size),
    decreases n,
{
    if n > 0 {
        lemma_lines_shown_on_tile(lines, ext, size, (n - 1) as nat);
        let head = lines_shown(lines, ext, size, (n - 1) as nat);
        let tail = line_shown(lines[n - 1], ext, size);
        lemma_line_shown_on_tile(lines[n - 1], ext, size);
        assert forall|i: int| 0 <= i < (head + tail).len() implies all_on_tile(
            #[trigger] (head + tail)[i],
            size,
        ) by {
            if i < head.len() {
                assert((head + tail)[i] == head[i]);
            } else {
                assert((head + tail)[i] == tail[i - head.len()]);
            }
        }
    }
}

/// The points that a path draws on the tile lie on the tile.
pub proof fn lemma_points_shown_on_tile(path: Path, ext: Bounds, size: int)
    requires
        has_area(ext),
        size > 0,
    ensures
        all_on_tile(points_shown(path, ext, size), size),
{
    lemma_visible_within(path, window(ext), path.len());
    lemma_projected_on_tile(visible(path, window(ext), path.len()), ext, size);
}

/// Whatever a geometry draws on a tile lies on the tile: every position of
/// the drawing has a column and a row from 0 up to, and not including, the
/// side of the tile.
pub proof fn lemma_drawn_on_tile(shape: Shape, ext: Bounds, size: int)
    ensures
        drawn(shape, ext, size) matches Some(d) ==> parts_on_tile(d.parts, size),
{
    if has_area(ext) && tile_size(size) {
        match shape {
            Shape::Point(p) => {
                lemma_points_shown_on_tile(seq![p], ext, size);
            },
            Shape::MultiPoint(path) => {
                lemma_points_shown_on_tile(path, ext, size);
            },
            Shape::LineString(path) => {
                lemma_line_shown_on_tile(path, ext, size);
            },
            Shape::MultiLineString(lines) => {
                lemma_lines_shown_on_tile(lines, ext, size, lines.len());
            },
            Shape::Polygon(rings) => {
                lemma_rings_shown_on_tile(rings, ext, size, rings.len());
            },
            Shape::MultiPolygon(polygons) => {
                lemma_polygons_shown_on_tile(polygons, ext, size, polygons.len());
            },
            Shape::GeometryCollection => {},
        }
    }
}

/// Every position of a geometry of the given shape is on the outer side of
/// edge `e` at `b`.
pub open spec fn shape_outside(shape: Shape, e: Edge, b: int) -> bool {
    match shape {
        Shape::Point(p) => !inside(p, e, b),
        Shape::MultiPoint(path) => all_outside(path, e, b),
        Shape::LineString(path) => all_outside(path, e, b),
        Shape::MultiLineString(lines) => each_outside(lines, e, b),
        Shape::Polygon(rings) => each_outside(rings, e, b),
        Shape::MultiPolygon(polygons) => forall|i: int|
            0 <= i < polygons.len() ==> each_outside(#[trigger] polygons[i], e, b),
        Shape::GeometryCollection => true,
    }
}

/// Positions on the outer side of one edge of the window draw no point.
proof fn lemma_points_outside(path: Path, w: Bounds, e: Edge, n: nat)
    requires
        n <= path.len(),
        all_outside(path, e, bound(w, e)),
    ensures
        visible(path, w, n).len() == 0,
    decreases n,
{
    if n > 0 {
        lemma_points_outside(path, w, e, (n - 1) as nat);
        assert(!inside(path[n - 1], e, bound(w, e)));
    }
}

/// A ring on the outer side of one edge of the window draws no ring.
proof fn lemma_ring_outside_shows_nothing(ring: Path, ext: Bounds, size: int, e: Edge, outer: bool)
    requires
        all_outside(ring, e, bound(window(ext), e)),
    ensures
        ring_shown(ring, ext, size, outer).is_none(),
{
    let b = bound(window(ext), e);
    let open = unclosed(ring);
    assert forall|i: int| 0 <= i < open.len() implies !inside(#[trigger] open[i], e, b) by {
        assert(open[i] == ring[i]);
    }
    lemma_ring_outside(open, window(ext), e);
    let set = projected(clipped_ring(open, window(ext)), ext, size);
    assert(set.len() == 0);
    assert(distinct(set, 0).len() == 0);
}

/// Polygons on the outer side of one edge of the window draw no ring.
proof fn lemma_polygons_outside(polygons: Seq<Seq<Path>>, ext: Bounds, size: int, e: Edge, n: nat)
    requires
        n <= polygons.len(),
        forall|i: int|
            0 <= i < polygons.len() ==> each_outside(
                #[trigger] polygons[i],
                e,
                bound(window(ext), e),
            ),
    ensures
        polygons_shown(polygons, ext, size, n).len() == 0,
    decreases n,
{
    if n > 0 {
        lemma_polygons_outside(polygons, ext, size, e, (n - 1) as nat);
        let rings = polygons[n - 1];
        assert(each_outside(rings, e, bound(window(ext), e)));
        if rings.len() > 0 {
            assert(all_outside(rings[0], e, bound(window(ext), e)));
            lemma_ring_outside_shows_nothing(rings[0], ext, size, e, true);
        }
    }
}

/// Lines on the outer side of one edge of the window draw no run.
proof fn lemma_lines_outside(lines: Seq<Path>, ext: Bounds, size: int, e: Edge, n: nat)
    requires
        n <= lines.len(),
        each_outside(lines, e, bound(window(ext), e)),
    ensures
        lines_shown(lines, ext, size, n).len() == 0,
    decreases n,
{
    if n > 0 {
        lemma_lines_outside(lines, ext, size, e, (n - 1) as nat);
        let path = lines[n - 1];
        assert(all_outside(path, e, bound(window(ext), e)));
        if path.len() >= 2 {
            lemma_line_outside(path, window(ext), e, (path.len() - 1) as nat);
        }
    }
}

/// Points of which none falls on the tile draw nothing.
pub proof fn lemma_points_off_tile_draw_nothing(path: Path, ext: Bounds, size: int)
    requires
        forall|i: int| 0 <= i < path.len() ==> !within(#[trigger] path[i], window(ext)),
    ensures
        drawn(Shape::MultiPoint(path), ext, size).is_none(),
        path.len() == 1 ==> drawn(Shape::Point(path[0]), ext, size).is_none(),
{
    lemma_none_visible(path, window(ext), path.len());
    if path.len() == 1 {
        assert(seq![path[0]] =~= path);
    }
}

/// Of positions of which none lies in a box, none is visible in the box.
proof fn lemma_none_visible(path: Path, w: Bounds, n: nat)
    requires
        n <= path.len(),
        forall|i: int| 0 <= i < path.len() ==> !within(#[trigger] path[i], w),
    ensures
        visible(path, w, n).len() == 0,
    decreases n,
{
    if n > 0 {
        lemma_none_visible(path, w, (n - 1) as nat);
    }
}

/// Lines of which every segment lies apart from the window draw no run.
proof fn lemma_lines_apart(lines: Seq<Path>, ext: Bounds, size: int, n: nat)
    requires
        n <= lines.len(),
        forall|i: int| 0 <= i < lines.len() ==> all_apart(#[trigger] lines[i], window(ext)),
    ensures
        lines_shown(lines, ext, size, n).len() == 0,
    decreases n,
{
    if n > 0 {
        lemma_lines_apart(lines, ext, size, (n - 1) as nat);
        let path = lines[n - 1];
        assert(all_apart(path, window(ext)));
        if path.len() >= 2 {
            lemma_line_apart(path, window(ext), (path.len() - 1) as nat);
        }
    }
}

/// Lines that do not reach the tile draw nothing: where every segment of
/// every line lies apart from the tile's window, with both ends beyond one
/// edge or with the window to one side of it, no position of the lines is on
/// the tile.
pub proof fn lemma_lines_apart_draw_nothing(lines: Seq<Path>, ext: Bounds, size: int)
    requires
        forall|i: int| 0 <= i < lines.len() ==> all_apart(#[trigger] lines[i], window(ext)),
    ensures
        drawn(Shape::MultiLineString(lines), ext, size).is_none(),
        lines.len() == 1 ==> drawn(Shape::LineString(lines[0]), ext, size).is_none(),
{
    lemma_lines_apart(lines, ext, size, lines.len());
    if lines.len() == 1 {
        lemma_lines_apart(lines, ext, size, 0);
        assert(lines_shown(lines, ext, size, 1) == lines_shown(lines, ext, size, 0) + line_shown(
            lines[0],
            ext,
            size,
        ));
    }
}

/// A geometry that lies beyond one edge of the tile draws nothing: where
/// every position of it is on the outer side of the same edge of the tile's
/// window, no position of it is on the tile.
pub proof fn lemma_outside_draws_nothing(shape: Shape, ext: Bounds, size: int, e: Edge)
    requires
        shape_outside(shape, e, bound(window(ext), e)),
    ensures
        drawn(shape, ext, size).is_none(),
{
    let w = window(ext);
    if has_area(ext) && tile_size(size) {
        match shape {
            Shape::Point(p) => {
                lemma_points_outside(seq![p], w, e, 1);
            },
            Shape::MultiPoint(path) => {
                lemma_points_outside(path, w, e, path.len());
            },
            Shape::LineString(path) => {
                if path.len() >= 2 {
                    lemma_line_outside(path, w, e, (path.len() - 1) as nat);
                }
            },
            Shape::MultiLineString(lines) => {
                lemma_lines_outside(lines, ext, size, e, lines.len());
            },
            Shape::Polygon(rings) => {
                if rings.len() > 0 {
                    assert(all_outside(rings[0], e, bound(w, e)));
                    lemma_ring_outside_shows_nothing(rings[0], ext, size, e, true);
                }
            },
            Shape::MultiPolygon(polygons) => {
                lemma_polygons_outside(polygons, ext, size, e, polygons.len());
            },
            Shape::GeometryCollection => {},
        }
    }
}

/// The position of `p` on the tile.
fn project_point(p: Xy, ext: &Extent, size: u32) -> (r: Xy)
    requires
        has_area(ext@),
        within(coord(p), window(ext@)),
        0 < size <= MAX_TILE_SIZE,
    ensures
        coord(r) == project(coord(p), ext@, size as int),
        on_tile(coord(r), size as int),
{
    proof {
        lemma_project_on_tile(coord(p), ext@, size as int);
    }
    let dx: u128 = (p.0 as i128 - ext.minx as i128) as u128;
    let dy: u128 = (ext.maxy as i128 - p.1 as i128) as u128;
    let w: u128 = (ext.maxx as i128 - ext.minx as i128) as u128;
    let h: u128 = (ext.maxy as i128 - ext.miny as i128) as u128;
    assert(dx * size <= 0xffff_ffff_ffff_ffff * 0x8000_0000) by (nonlinear_arith)
        requires
            dx <= 0xffff_ffff_ffff_ffff,
            size <= 0x8000_0000,
    ;
    assert(dy * size <= 0xffff_ffff_ffff_ffff * 0x8000_0000) by (nonlinear_arith)
        requires
            dy <= 0xffff_ffff_ffff_ffff,
            size <= 0x8000_0000,
    ;
    let x: u128 = (dx * size as u128) / w;
    let y: u128 = (dy * size as u128) / h;
    (x as i64, y as i64)
}

/// The position on the tile of each position of `path`.
fn project_path(path: &Vec<Xy>, ext: &Extent, size: u32) -> (out: Vec<Xy>)
    requires
        has_area(ext@),
        all_within(coords(path@), window(ext@)),
        0 < size <= MAX_TILE_SIZE,
    ensures
        coords(out@) == projected(coords(path@), ext@, size as int),
{
    let mut out: Vec<Xy> = Vec::new();
    let mut i: usize = 0;
    while i < path.len()
        invariant
            i <= path.len(),
            has_area(ext@),
            all_within(coords(path@), window(ext@)),
            0 < size <= MAX_TILE_SIZE,
            out.len() == i,
            forall|j: int|
                0 <= j < i ==> coord(#[trigger] out[j]) == project(
                    coords(path@)[j],
                    ext@,
                    size as int,
                ),
        decreases path.len() - i,
    {
        assert(within(coords(path@)[i as int], window(ext@)));
        out.push(project_point(path[i], ext, size));
        i += 1;
    }
    assert(coords(out@) =~= projected(coords(path@), ext@, size as int));
    out
}

/// The positions of `path` without those that repeat the one before them.
fn drop_repeats(path: &Vec<Xy>) -> (out: Vec<Xy>)
    ensures
        coords(out@) == distinct(coords(path@), path@.len()),
{
    let mut out: Vec<Xy> = Vec::new();
    let mut i: usize = 0;
    assert(coords(out@) =~= Seq::<Coord>::empty());
    while i < path.len()
        invariant
            i <= path.len(),
            coords(out@) == distinct(coords(path@), i as nat),
        decreases path.len() - i,
    {
        let ghost head = coords(out@);
        let p = path[i];
        let n = out.len();
        if n > 0 && out[n - 1].0 == p.0 && out[n - 1].1 == p.1 {
            assert(head.last() == coord(out[n - 1]));
        } else {
            out.push(p);
            assert(coords(out@) =~= head.push(coord(p)));
            if n > 0 {
                assert(head.last() == coord(out[n - 1]));
            }
        }
        i += 1;
    }
    out
}

/// Drops the last corner of a ring where it repeats the first.
fn unclose(ring: &mut Vec<Xy>)
    ensures
        coords(final(ring)@) == unclosed(coords(old(ring)@)),
{
    let n = ring.len();
    if n >= 2 && ring[0].0 == ring[n - 1].0 && ring[0].1 == ring[n - 1].1 {
        ring.pop();
        assert(coords(ring@) =~= coords(old(ring)@).drop_last());
    }
}

/// The positions of `path` in the opposite order.
fn reverse(path: &Vec<Xy>) -> (out: Vec<Xy>)
    ensures
        coords(out@) == reversed(coords(path@)),
{
    let mut out: Vec<Xy> = Vec::new();
    let n = path.len();
    let mut i: usize = 0;
    while i < n
        invariant
            n == path.len(),
            i <= n,
            out.len() == i,
            forall|j: int| 0 <= j < i ==> #[trigger] out[j] == path[n - 1 - j],
        decreases n - i,
    {
        out.push(path[n - 1 - i]);
        i += 1;
    }
    assert(coords(out@) =~= reversed(coords(path@)));
    out
}

/// The sum of the wedges of the first sides of a ring stays within bounds.
proof fn lemma_area2_bound(ring: Path, n: nat, size: int)
    requires
        n <= ring.len(),
        all_on_tile(ring, size),
        0 < size <= MAX_TILE_SIZE,
    ensures
        -(n * 0x4000_0000_0000_0000) <= area2(ring, n) <= n * 0x4000_0000_0000_0000,
    decreases n,
{
    if n > 0 {
        lemma_area2_bound(ring, (n - 1) as nat, size);
        let p = before(ring, n - 1);
        let q = ring[n - 1];
        assert(on_tile(q, size));
        assert(on_tile(p, size));
        lemma_wedge_bound(p, q);
    }
}

/// The wedge of two positions of a tile is within bounds.
proof fn lemma_wedge_bound(p: Coord, q: Coord)
    requires
        on_tile(p, MAX_TILE_SIZE as int),
        on_tile(q, MAX_TILE_SIZE as int),
    ensures
        -0x4000_0000_0000_0000 <= wedge(p, q) <= 0x4000_0000_0000_0000,
{
    assert(0 <= p.0 * q.1 <= 0x8000_0000 * 0x8000_0000) by (nonlinear_arith)
        requires
            0 <= p.0 < 0x8000_0000,
            0 <= q.1 < 0x8000_0000,
    ;
    assert(0 <= q.0 * p.1 <= 0x8000_0000 * 0x8000_0000) by (nonlinear_arith)
        requires
            0 <= q.0 < 0x8000_0000,
            0 <= p.1 < 0x8000_0000,
    ;
}

/// Twice the area of a ring on the tile.
fn doubled_area(ring: &Vec<Xy>, size: u32) -> (a: i128)
    requires
        all_on_tile(coords(ring@), size as int),
        0 < size <= MAX_TILE_SIZE,
    ensures
        a == twice_area(coords(ring@)),
{
    let n = ring.len();
    let mut a: i128 = 0;
    if n == 0 {
        return a;
    }
    let mut prev = ring[n - 1];
    let mut i: usize = 0;
    while i < n
        invariant
            n == ring.len(),
            n > 0,
            i <= n,
            all_on_tile(coords(ring@), size as int),
            0 < size <= MAX_TILE_SIZE,
            coord(prev) == before(coords(ring@), i as int),
            a == area2(coords(ring@), i as nat),
        decreases n - i,
    {
        let cur = ring[i];
        proof {
            lemma_area2_bound(coords(ring@), i as nat, size as int);
            lemma_area2_bound(coords(ring@), (i + 1) as nat, size as int);
            assert(on_tile(coords(ring@)[i as int], size as int));
            if i == 0 {
                assert(on_tile(coords(ring@)[n - 1], size as int));
            } else {
                assert(on_tile(coords(ring@)[i - 1], size as int));
            }
            lemma_wedge_bound(coord(prev), coord(cur));
            assert(0 <= coord(prev).0 * coord(cur).1 <= 0x8000_0000 * 0x8000_0000)
                by (nonlinear_arith)
                requires
                    0 <= coord(prev).0 < 0x8000_0000,
                    0 <= coord(cur).1 < 0x8000_0000,
            ;
            assert(0 <= coord(cur).0 * coord(prev).1 <= 0x8000_0000 * 0x8000_0000)
                by (nonlinear_arith)
                requires
                    0 <= coord(cur).0 < 0x8000_0000,
                    0 <= coord(prev).1 < 0x8000_0000,
            ;
        }
        let w: i128 = prev.0 as i128 * cur.1 as i128 - cur.0 as i128 * prev.1 as i128;
        a = a + w;
        prev = cur;
        i += 1;
    }
    a
}

/// The positions of `points`.
pub fn positions(points: &Vec<Point>) -> (out: Vec<Xy>)
    ensures
        coords(out@) == crate::geom::path_of(points@),
{
    let mut out: Vec<Xy> = Vec::new();
    let mut i: usize = 0;
    while i < points.len()
        invariant
            i <= points.len(),
            out.len() == i,
            forall|j: int| 0 <= j < i ==> coord(#[trigger] out[j]) == points[j]@,
        decreases points.len() - i,
    {
        out.push((points[i].x, points[i].y));
        i += 1;
    }
    assert(coords(out@) =~= crate::geom::path_of(points@));
    out
}

/// The inclusive box of the positions that fall on a tile over `ext`.
fn window_of(ext: &Extent) -> (w: Extent)
    requires
        has_area(ext@),
    ensures
        w@ == window(ext@),
{
    Extent { minx: ext.minx, miny: ext.miny + 1, maxx: ext.maxx - 1, maxy: ext.maxy }
}

/// The ring that the ring with the corners `points` draws on the tile.
fn show_ring(points: &Vec<Point>, ext: &Extent, size: u32, outer: bool) -> (r: Option<Vec<Xy>>)
    requires
        has_area(ext@),
        0 < size <= MAX_TILE_SIZE,
    ensures
        match r {
            Some(ring) => ring_shown(crate::geom::path_of(points@), ext@, size as int, outer)
                == Some(coords(ring@)),
            None => ring_shown(crate::geom::path_of(points@), ext@, size as int, outer).is_none(),
        },
{
    let w = window_of(ext);
    let mut ring = positions(points);
    unclose(&mut ring);
    let cut = clip_ring(&ring, &w);
    proof {
        lemma_clipped_ring_within(coords(ring@), w@);
        lemma_projected_on_tile(coords(cut@), ext@, size as int);
    }
    let set = project_path(&cut, ext, size);
    let mut corners = drop_repeats(&set);
    proof {
        lemma_distinct_on_tile(coords(set@), set@.len(), size as int);
    }
    let ghost bare = coords(corners@);
    unclose(&mut corners);
    assert forall|i: int| 0 <= i < corners@.len() implies on_tile(
        #[trigger] coords(corners@)[i],
        size as int,
    ) by {
        assert(coords(corners@)[i] == bare[i]);
    }
    if corners.len() < 3 {
        return None;
    }
    let a = doubled_area(&corners, size);
    if a == 0 {
        None
    } else if (a > 0) == outer {
        Some(corners)
    } else {
        Some(reverse(&corners))
    }
}

/// Adds the rings that a polygon draws on the tile to `out`.
fn show_polygon(rings: &Vec<crate::geom::LineString>, ext: &Extent, size: u32, out: &mut Vec<
    Vec<Xy>,
>)
    requires
        has_area(ext@),
        0 < size <= MAX_TILE_SIZE,
    ensures
        paths(final(out)@) == paths(old(out)@) + polygon_shown(
            Seq::new(rings@.len(), |i: int| rings@[i]@),
            ext@,
            size as int,
        ),
{
    let ghost model = Seq::new(rings@.len(), |i: int| rings@[i]@);
    let ghost start = paths(out@);
    if rings.len() == 0 {
        assert(paths(out@) =~= start + Seq::<Path>::empty());
        return ;
    }
    assert(model[0] == rings@[0]@);
    match show_ring(&rings[0].points, ext, size, true) {
        None => {
            assert(paths(out@) =~= start + Seq::<Path>::empty());
        },
        Some(outer) => {
            let ghost first = coords(outer@);
            out.push(outer);
            assert(paths(out@) =~= start + rings_shown(model, ext@, size as int, 1)) by {
                assert(rings_shown(model, ext@, size as int, 0) =~= Seq::<Path>::empty());
                assert(rings_shown(model, ext@, size as int, 1) =~= seq![first]);
            }
            let mut i: usize = 1;
            while i < rings.len()
                invariant
                    1 <= i <= rings.len(),
                    has_area(ext@),
                    0 < size <= MAX_TILE_SIZE,
                    model == Seq::new(rings@.len(), |i: int| rings@[i]@),
                    paths(out@) == start + rings_shown(model, ext@, size as int, i as nat),
                decreases rings.len() - i,
            {
                let ghost head = paths(out@);
                assert(model[i as int] == rings@[i as int]@);
                match show_ring(&rings[i].points, ext, size, false) {
                    Some(hole) => {
                        let ghost h = coords(hole@);
                        out.push(hole);
                        assert(paths(out@) =~= head.push(h));
                        assert(head.push(h) =~= start + rings_shown(
                            model,
                            ext@,
                            size as int,
                            (i + 1) as nat,
                        ));
                    },
                    None => {},
                }
                i += 1;
            }
        },
    }
}

/// Adds the runs that a line draws on the tile to `out`.
fn show_line(points: &Vec<Point>, ext: &Extent, size: u32, out: &mut Vec<Vec<Xy>>)
    requires
        has_area(ext@),
        0 < size <= MAX_TILE_SIZE,
    ensures
        paths(final(out)@) == paths(old(out)@) + line_shown(
            crate::geom::path_of(points@),
            ext@,
            size as int,
        ),
{
    let w = window_of(ext);
    let path = positions(points);
    let runs = clip_line(&path, &w);
    let ghost model = paths(runs@);
    let ghost start = paths(out@);
    proof {
        if path.len() >= 2 {
            lemma_line_parts_within(coords(path@), w@, (path.len() - 1) as nat);
        }
    }
    let mut i: usize = 0;
    assert(paths(out@) =~= start + runs_shown(model, ext@, size as int, 0));
    while i < runs.len()
        invariant
            i <= runs.len(),
            has_area(ext@),
            0 < size <= MAX_TILE_SIZE,
            model == paths(runs@),
            runs_within(model, window(ext@)),
            paths(out@) == start + runs_shown(model, ext@, size as int, i as nat),
        decreases runs.len() - i,
    {
        let ghost head = paths(out@);
        assert(model[i as int] == coords(runs@[i as int]@));
        assert(all_within(model[i as int], window(ext@)));
        let set = project_path(&runs[i], ext, size);
        let run = drop_repeats(&set);
        if run.len() >= 2 {
            let ghost r = coords(run@);
            out.push(run);
            assert(paths(out@) =~= head.push(r));
            assert(head.push(r) =~= start + runs_shown(model, ext@, size as int, (i + 1) as nat));
        }
        i += 1;
    }
}

/// The positions on the tile of those of `points` that fall on it.
fn show_points(points: &Vec<Point>, ext: &Extent, size: u32) -> (out: Vec<Xy>)
    requires
        has_area(ext@),
        0 < size <= MAX_TILE_SIZE,
    ensures
        coords(out@) == points_shown(crate::geom::path_of(points@), ext@, size as int),
{
    let w = window_of(ext);
    let path = positions(points);
    let seen = clip_points(&path, &w);
    proof {
        lemma_visible_within(coords(path@), w@, path@.len());
    }
    project_path(&seen, ext, size)
}

/// A drawing of the given kind and parts, if there is a part.
fn drawing(kind: GeomType, parts: Vec<Vec<Xy>>) -> (r: Option<Drawing>)
    ensures
        match r {
            Some(d) => sketch(kind, paths(parts@)) == Some(d@),
            None => sketch(kind, paths(parts@)).is_none(),
        },
{
    if parts.len() > 0 {
        Some(Drawing { kind, parts })
    } else {
        None
    }
}

/// A drawing of the given points, if there is one.
fn point_drawing(shown: Vec<Xy>) -> (r: Option<Drawing>)
    ensures
        match r {
            Some(d) => shown@.len() > 0 && d@ == (Sketch {
                kind: GeomType::Point,
                parts: seq![coords(shown@)],
            }),
            None => shown@.len() == 0,
        },
{
    if shown.len() > 0 {
        let ghost path = coords(shown@);
        let mut parts: Vec<Vec<Xy>> = Vec::new();
        parts.push(shown);
        assert(paths(parts@) =~= seq![path]);
        Some(Drawing { kind: GeomType::Point, parts })
    } else {
        None
    }
}

/// What `geometry` draws on a tile of `size` units over the box `ext`: its
/// parts cut at the edges of the tile and set on the tile, or `None` where
/// nothing of it falls on the tile.
pub fn draw(geometry: &GeometryType, ext: &Extent, size: u32) -> (r: Option<Drawing>)
    ensures
        match r {
            Some(d) => drawn(geometry@, ext@, size as int) == Some(d@),
            None => drawn(geometry@, ext@, size as int).is_none(),
        },
{
    if ext.minx >= ext.maxx || ext.miny >= ext.maxy || size == 0 || size > MAX_TILE_SIZE {
        return None;
    }
    match geometry {
        GeometryType::Point(p) => {
            let mut single: Vec<Point> = Vec::new();
            single.push(*p);
            assert(crate::geom::path_of(single@) =~= seq![p@]);
            point_drawing(show_points(&single, ext, size))
        },
        GeometryType::MultiPoint(m) => point_drawing(show_points(&m.points, ext, size)),
        GeometryType::LineString(l) => {
            let mut parts: Vec<Vec<Xy>> = Vec::new();
            assert(paths(parts@) =~= Seq::<Path>::empty());
            show_line(&l.points, ext, size, &mut parts);
            assert(paths(parts@) =~= line_shown(l@, ext@, size as int));
            drawing(GeomType::LineString, parts)
        },
        GeometryType::MultiLineString(m) => {
            let mut parts: Vec<Vec<Xy>> = Vec::new();
            let mut i: usize = 0;
            assert(paths(parts@) =~= Seq::<Path>::empty());
            while i < m.lines.len()
                invariant
                    i <= m.lines.len(),
                    has_area(ext@),
                    0 < size <= MAX_TILE_SIZE,
                    paths(parts@) == lines_shown(m@, ext@, size as int, i as nat),
                decreases m.lines.len() - i,
            {
                assert(m@[i as int] == m.lines@[i as int]@);
                show_line(&m.lines[i].points, ext, size, &mut parts);
                i += 1;
            }
            drawing(GeomType::LineString, parts)
        },
        GeometryType::Polygon(p) => {
            let mut parts: Vec<Vec<Xy>> = Vec::new();
            assert(paths(parts@) =~= Seq::<Path>::empty());
            show_polygon(&p.rings, ext, size, &mut parts);
            assert(paths(parts@) =~= polygon_shown(p@, ext@, size as int));
            drawing(GeomType::Polygon, parts)
        },
        GeometryType::MultiPolygon(m) => {
            let mut parts: Vec<Vec<Xy>> = Vec::new();
            let mut i: usize = 0;
            assert(paths(parts@) =~= Seq::<Path>::empty());
            while i < m.polygons.len()
                invariant
                    i <= m.polygons.len(),
                    has_area(ext@),
                    0 < size <= MAX_TILE_SIZE,
                    paths(parts@) == polygons_shown(m@, ext@, size as int, i as nat),
                decreases m.polygons.len() - i,
            {
                assert(m@[i as int] == m.polygons@[i as int]@);
                show_polygon(&m.polygons[i].rings, ext, size, &mut parts);
                i += 1;
            }
            drawing(GeomType::Polygon, parts)
        },
        GeometryType::GeometryCollection => None,
    }
}

} // verus!
