use vstd::prelude::*;

verus! {

/// A position as a pair of mathematical integers, `(x, y)`.
pub type Coord = (int, int);

/// A sequence of positions.
pub type Path = Seq<Coord>;

/// A position in grid units, tagged with its spatial reference.
#[derive(Clone, Copy, Debug, PartialEq, Eq)]
pub struct Point {
    pub x: i64,
    pub y: i64,
    pub srid: Option<i32>,
}

/// An ordered run of points.
#[derive(Clone, Debug, PartialEq, Eq)]
pub struct LineString {
    pub points: Vec<Point>,
    pub srid: Option<i32>,
}

/// An outer ring followed by the rings of its holes.
#[derive(Clone, Debug, PartialEq, Eq)]
pub struct Polygon {
    pub rings: Vec<LineString>,
    pub srid: Option<i32>,
}

/// Points that belong together.
#[derive(Clone, Debug, PartialEq, Eq)]
pub struct MultiPoint {
    pub points: Vec<Point>,
    pub srid: Option<i32>,
}

/// Lines that belong together.
#[derive(Clone, Debug, PartialEq, Eq)]
pub struct MultiLineString {
    pub lines: Vec<LineString>,
    pub srid: Option<i32>,
}

/// Polygons that belong together.
#[derive(Clone, Debug, PartialEq, Eq)]
pub struct MultiPolygon {
    pub polygons: Vec<Polygon>,
    pub srid: Option<i32>,
}

/// A geometry of one of the kinds that the model holds.
#[derive(Clone, Debug, PartialEq, Eq)]
pub enum GeometryType {
    Point(Point),
    LineString(LineString),
    Polygon(Polygon),
    MultiPoint(MultiPoint),
    MultiLineString(MultiLineString),
    MultiPolygon(MultiPolygon),
    /// Reserved: no operation produces or encodes a collection.
    GeometryCollection,
}

/// The coordinates of a geometry, without its spatial reference tags.
pub ghost enum Shape {
    Point(Coord),
    LineString(Path),
    Polygon(Seq<Path>),
    MultiPoint(Path),
    MultiLineString(Seq<Path>),
    MultiPolygon(Seq<Seq<Path>>),
    GeometryCollection,
}

/// The coordinates of each point of `points`, in order.
pub open spec fn path_of(points: Seq<Point>) -> Path {
    Seq::new(points.len(), |i: int| points[i]@)
}

/// Every point of `points` carries `srid`.
pub open spec fn points_tagged(points: Seq<Point>, srid: Option<i32>) -> bool {
    forall|i: int| 0 <= i < points.len() ==> (#[trigger] points[i]).srid == srid
}

impl View for Point {
    type V = Coord;

    open spec fn view(&self) -> Coord {
        (self.x as int, self.y as int)
    }
}

impl View for LineString {
    type V = Path;

    open spec fn view(&self) -> Path {
        path_of(self.points@)
    }
}

impl View for MultiPoint {
    type V = Path;

    open spec fn view(&self) -> Path {
        path_of(self.points@)
    }
}

impl View for Polygon {
    type V = Seq<Path>;

    open spec fn view(&self) -> Seq<Path> {
        Seq::new(self.rings@.len(), |i: int| self.rings@[i]@)
    }
}

impl View for MultiLineString {
    type V = Seq<Path>;

    open spec fn view(&self) -> Seq<Path> {
        Seq::new(self.lines@.len(), |i: int| self.lines@[i]@)
    }
}

impl View for MultiPolygon {
    type V = Seq<Seq<Path>>;

    open spec fn view(&self) -> Seq<Seq<Path>> {
        Seq::new(self.polygons@.len(), |i: int| self.polygons@[i]@)
    }
}

impl View for GeometryType {
    type V = Shape;

    open spec fn view(&self) -> Shape {
        match self {
            GeometryType::Point(p) => Shape::Point(p@),
            GeometryType::LineString(l) => Shape::LineString(l@),
            GeometryType::Polygon(p) => Shape::Polygon(p@),
            GeometryType::MultiPoint(m) => Shape::MultiPoint(m@),
            GeometryType::MultiLineString(m) => Shape::MultiLineString(m@),
            GeometryType::MultiPolygon(m) => Shape::MultiPolygon(m@),
            GeometryType::GeometryCollection => Shape::GeometryCollection,
        }
    }
}

impl LineString {
    /// The line and each of its points carry `srid`.
    pub open spec fn tagged(&self, srid: Option<i32>) -> bool {
        self.srid == srid && points_tagged(self.points@, srid)
    }
}

impl MultiPoint {
    /// The collection and each of its points carry `srid`.
    pub open spec fn tagged(&self, srid: Option<i32>) -> bool {
        self.srid == srid && points_tagged(self.points@, srid)
    }
}

impl Polygon {
    /// The polygon, each ring and each point carry `srid`.
    pub open spec fn tagged(&self, srid: Option<i32>) -> bool {
        &&& self.srid == srid
        &&& forall|i: int| 0 <= i < self.rings@.len() ==> (#[trigger] self.rings@[i]).tagged(srid)
    }
}

impl MultiLineString {
    /// The collection, each line and each point carry `srid`.
    pub open spec fn tagged(&self, srid: Option<i32>) -> bool {
        &&& self.srid == srid
        &&& forall|i: int| 0 <= i < self.lines@.len() ==> (#[trigger] self.lines@[i]).tagged(srid)
    }
}

impl MultiPolygon {
    /// The collection, each polygon, ring and point carry `srid`.
    pub open spec fn tagged(&self, srid: Option<i32>) -> bool {
        &&& self.srid == srid
        &&& forall|i: int|
            0 <= i < self.polygons@.len() ==> (#[trigger] self.polygons@[i]).tagged(srid)
    }
}

impl GeometryType {
    /// Every part of the geometry, down to its points, carries `srid`.
    pub open spec fn tagged(&self, srid: Option<i32>) -> bool {
        match self {
            GeometryType::Point(p) => p.srid == srid,
            GeometryType::LineString(l) => l.tagged(srid),
            GeometryType::Polygon(p) => p.tagged(srid),
            GeometryType::MultiPoint(m) => m.tagged(srid),
            GeometryType::MultiLineString(m) => m.tagged(srid),
            GeometryType::MultiPolygon(m) => m.tagged(srid),
            GeometryType::GeometryCollection => true,
        }
    }
}

/// The positions of the first `n` of `paths`, one path after the other.
pub open spec fn chained(paths: Seq<Path>, n: nat) -> Path
    decreases n,
{
    if n == 0 {
        Seq::empty()
    } else {
        chained(paths, (n - 1) as nat) + paths[n - 1]
    }
}

/// The positions of the rings of the first `n` polygons, one ring after the
/// other.
pub open spec fn chained_rings(polygons: Seq<Seq<Path>>, n: nat) -> Path
    decreases n,
{
    if n == 0 {
        Seq::empty()
    } else {
        chained_rings(polygons, (n - 1) as nat) + chained(polygons[n - 1], polygons[n - 1].len())
    }
}

impl Shape {
    /// Every position of the shape, in the order in which the shape holds
    /// them.
    pub open spec fn positions(self) -> Path {
        match self {
            Shape::Point(p) => seq![p],
            Shape::LineString(path) => path,
            Shape::Polygon(rings) => chained(rings, rings.len()),
            Shape::MultiPoint(path) => path,
            Shape::MultiLineString(lines) => chained(lines, lines.len()),
            Shape::MultiPolygon(polygons) => chained_rings(polygons, polygons.len()),
            Shape::GeometryCollection => Seq::empty(),
        }
    }
}

} // verus!
