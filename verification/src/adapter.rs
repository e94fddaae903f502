use vstd::prelude::*;
use crate::error::TileError;
use crate::geom::{
    Coord, GeometryType, LineString, MultiLineString, MultiPoint, MultiPolygon, Path, Point,
    Polygon, Shape,
};

verus! {

/// The kind that a datasource reports for one of its geometries.
#[derive(Clone, Copy, Debug, PartialEq, Eq, Structural)]
pub enum NativeKind {
    Point,
    LineString,
    Polygon,
    MultiPoint,
    MultiLineString,
    MultiPolygon,
    GeometryCollection,
    /// Any kind that is none of the above.
    Other,
}

/// A geometry as a datasource hands it over: its kind, its own vertices as
/// `(x, y, z)` and its sub-geometries.
#[derive(Debug, PartialEq, Eq)]
pub struct NativeGeometry {
    pub kind: NativeKind,
    pub points: Vec<(i64, i64, i64)>,
    pub children: Vec<NativeGeometry>,
}

/// The horizontal position of each vertex, in order.
pub open spec fn flat(points: Seq<(i64, i64, i64)>) -> Path {
    Seq::new(points.len(), |i: int| (points[i].0 as int, points[i].1 as int))
}

impl NativeKind {
    /// The kind that a well-known-binary geometry type code stands for. Only
    /// the codes of the six planar kinds and of the collection are told apart.
    pub fn from_wkb_code(code: u32) -> (kind: NativeKind)
        ensures
            kind == match code {
                1 => NativeKind::Point,
                2 => NativeKind::LineString,
                3 => NativeKind::Polygon,
                4 => NativeKind::MultiPoint,
                5 => NativeKind::MultiLineString,
                6 => NativeKind::MultiPolygon,
                7 => NativeKind::GeometryCollection,
                _ => NativeKind::Other,
            },
    {
        if code == 1 {
            NativeKind::Point
        } else if code == 2 {
            NativeKind::LineString
        } else if code == 3 {
            NativeKind::Polygon
        } else if code == 4 {
            NativeKind::MultiPoint
        } else if code == 5 {
            NativeKind::MultiLineString
        } else if code == 6 {
            NativeKind::MultiPolygon
        } else if code == 7 {
            NativeKind::GeometryCollection
        } else {
            NativeKind::Other
        }
    }
}

impl NativeGeometry {
    /// A point kind with a vertex to read.
    pub open spec fn is_point(&self) -> bool {
        self.kind == NativeKind::Point && self.points@.len() > 0
    }

    /// The position of a point kind: that of its first vertex.
    pub open spec fn point(&self) -> Coord {
        flat(self.points@)[0]
    }

    /// A line kind.
    pub open spec fn is_line(&self) -> bool {
        self.kind == NativeKind::LineString
    }

    /// The positions of a line kind: those of all its vertices.
    pub open spec fn line(&self) -> Path {
        flat(self.points@)
    }

    /// Every sub-geometry is a point kind.
    pub open spec fn holds_points(&self) -> bool {
        forall|i: int| 0 <= i < self.children@.len() ==> (#[trigger] self.children@[i]).is_point()
    }

    /// Every sub-geometry is a line kind.
    pub open spec fn holds_lines(&self) -> bool {
        forall|i: int| 0 <= i < self.children@.len() ==> (#[trigger] self.children@[i]).is_line()
    }

    /// The positions of the sub-geometries, taken as point kinds.
    pub open spec fn child_points(&self) -> Path {
        Seq::new(self.children@.len(), |i: int| self.children@[i].point())
    }

    /// The lines of the sub-geometries, taken as line kinds.
    pub open spec fn child_lines(&self) -> Seq<Path> {
        Seq::new(self.children@.len(), |i: int| self.children@[i].line())
    }

    /// A polygon kind whose sub-geometries are all line kinds.
    pub open spec fn is_polygon(&self) -> bool {
        self.kind == NativeKind::Polygon && self.holds_lines()
    }

    /// Every sub-geometry is a polygon kind made of line kinds.
    pub open spec fn holds_polygons(&self) -> bool {
        forall|i: int|
            0 <= i < self.children@.len() ==> (#[trigger] self.children@[i]).is_polygon()
    }

    /// The rings of the sub-geometries, taken as polygon kinds.
    pub open spec fn child_polygons(&self) -> Seq<Seq<Path>> {
        Seq::new(self.children@.len(), |i: int| self.children@[i].child_lines())
    }

    /// The shape that this geometry converts to: its coordinates, unchanged
    /// and in their order, under the kind it reports. `None` where the kind is
    /// not one of the six planar kinds, where a point kind has no vertex, or
    /// where a sub-geometry is not of the kind that its parent holds.
    pub open spec fn converted(&self) -> Option<Shape> {
        match self.kind {
            NativeKind::Point => if self.is_point() {
                Some(Shape::Point(self.point()))
            } else {
                None
            },
            NativeKind::LineString => Some(Shape::LineString(self.line())),
            NativeKind::Polygon => if self.holds_lines() {
                Some(Shape::Polygon(self.child_lines()))
            } else {
                None
            },
            NativeKind::MultiPoint => if self.holds_points() {
                Some(Shape::MultiPoint(self.child_points()))
            } else {
                None
            },
            NativeKind::MultiLineString => if self.holds_lines() {
                Some(Shape::MultiLineString(self.child_lines()))
            } else {
                None
            },
            NativeKind::MultiPolygon => if self.holds_polygons() {
                Some(Shape::MultiPolygon(self.child_polygons()))
            } else {
                None
            },
            NativeKind::GeometryCollection => None,
            NativeKind::Other => None,
        }
    }

    /// The vertices of this geometry as points tagged with `srid`.
    fn tagged_points(&self, srid: Option<i32>) -> (points: Vec<Point>)
        ensures
            crate::geom::path_of(points@) == self.line(),
            crate::geom::points_tagged(points@, srid),
    {
        let mut points: Vec<Point> = Vec::new();
        let mut i: usize = 0;
        while i < self.points.len()
            invariant
                i <= self.points.len(),
                points.len() == i,
                forall|j: int|
                    0 <= j < i ==> (#[trigger] points[j])@ == flat(self.points@)[j] && points[j].srid
                        == srid,
            decreases self.points.len() - i,
        {
            let p = &self.points[i];
            points.push(Point { x: p.0, y: p.1, srid });
            i += 1;
        }
        assert(crate::geom::path_of(points@) =~= self.line());
        points
    }

    /// Converts the sub-geometries to points, if each of them is a point kind.
    fn points_of_children(&self, srid: Option<i32>) -> (r: Option<Vec<Point>>)
        ensures
            r.is_some() == self.holds_points(),
            r matches Some(points) ==> crate::geom::path_of(points@) == self.child_points()
                && crate::geom::points_tagged(points@, srid),
        decreases self, 0nat,
    {
        let mut points: Vec<Point> = Vec::new();
        let mut i: usize = 0;
        while i < self.children.len()
            invariant
                i <= self.children.len(),
                points.len() == i,
                forall|j: int| 0 <= j < i ==> (#[trigger] self.children@[j]).is_point(),
                forall|j: int|
                    0 <= j < i ==> (#[trigger] points[j])@ == self.children@[j].point()
                        && points[j].srid == srid,
            decreases self.children.len() - i,
        {
            match self.children[i].to_geo(srid) {
                Ok(GeometryType::Point(p)) => {
                    points.push(p);
                },
                _ => {
                    assert(!self.children@[i as int].is_point());
                    return None;
                },
            }
            i += 1;
        }
        assert(crate::geom::path_of(points@) =~= self.child_points());
        Some(points)
    }

    /// Converts the sub-geometries to lines, if each of them is a line kind.
    fn lines_of_children(&self, srid: Option<i32>) -> (r: Option<Vec<LineString>>)
        ensures
            r.is_some() == self.holds_lines(),
            r matches Some(lines) ==> {
                &&& lines@.len() == self.children@.len()
                &&& forall|j: int|
                    0 <= j < lines@.len() ==> (#[trigger] lines@[j])@ == self.children@[j].line()
                        && lines@[j].tagged(srid)
            },
        decreases self, 0nat,
    {
        let mut lines: Vec<LineString> = Vec::new();
        let mut i: usize = 0;
        while i < self.children.len()
            invariant
                i <= self.children.len(),
                lines.len() == i,
                forall|j: int| 0 <= j < i ==> (#[trigger] self.children@[j]).is_line(),
                forall|j: int|
                    0 <= j < i ==> (#[trigger] lines@[j])@ == self.children@[j].line()
                        && lines@[j].tagged(srid),
            decreases self.children.len() - i,
        {
            match self.children[i].to_geo(srid) {
                Ok(GeometryType::LineString(l)) => {
                    lines.push(l);
                },
                _ => {
                    assert(!self.children@[i as int].is_line());
                    return None;
                },
            }
            i += 1;
        }
        Some(lines)
    }

    /// Converts the sub-geometries to polygons, if each of them is a polygon
    /// kind made of line kinds.
    fn polygons_of_children(&self, srid: Option<i32>) -> (r: Option<Vec<Polygon>>)
        ensures
            r.is_some() == self.holds_polygons(),
            r matches Some(polygons) ==> {
                &&& polygons@.len() == self.children@.len()
                &&& forall|j: int|
                    0 <= j < polygons@.len() ==> (#[trigger] polygons@[j])@
                        == self.children@[j].child_lines() && polygons@[j].tagged(srid)
            },
        decreases self, 0nat,
    {
        let mut polygons: Vec<Polygon> = Vec::new();
        let mut i: usize = 0;
        while i < self.children.len()
            invariant
                i <= self.children.len(),
                polygons.len() == i,
                forall|j: int| 0 <= j < i ==> (#[trigger] self.children@[j]).is_polygon(),
                forall|j: int|
                    0 <= j < i ==> (#[trigger] polygons@[j])@ == self.children@[j].child_lines()
                        && polygons@[j].tagged(srid),
            decreases self.children.len() - i,
        {
            match self.children[i].to_geo(srid) {
                Ok(GeometryType::Polygon(p)) => {
                    polygons.push(p);
                },
                _ => {
                    assert(!self.children@[i as int].is_polygon());
                    return None;
                },
            }
            i += 1;
        }
        Some(polygons)
    }

    /// Converts the geometry into the geometry model, keeping every
    /// coordinate pair as it is and in its place, dropping the third ordinate,
    /// and tagging every part with `srid`.
    ///
    /// Fails with `UnsupportedGeometry` exactly where `converted` is `None`.
    pub fn to_geo(&self, srid: Option<i32>) -> (r: Result<GeometryType, TileError>)
        ensures
            match r {
                Ok(g) => self.converted() == Some(g@) && g.tagged(srid),
                Err(e) => e == TileError::UnsupportedGeometry && self.converted().is_none(),
            },
        decreases self, 1nat,
    {
        match self.kind {
            NativeKind::Point => {
                if self.points.len() > 0 {
                    let p = &self.points[0];
                    Ok(GeometryType::Point(Point { x: p.0, y: p.1, srid }))
                } else {
                    Err(TileError::UnsupportedGeometry)
                }
            },
            NativeKind::LineString => {
                let points = self.tagged_points(srid);
                Ok(GeometryType::LineString(LineString { points, srid }))
            },
            NativeKind::Polygon => match self.lines_of_children(srid) {
                Some(rings) => {
                    let g = Polygon { rings, srid };
                    assert(g@ =~= self.child_lines());
                    Ok(GeometryType::Polygon(g))
                },
                None => Err(TileError::UnsupportedGeometry),
            },
            NativeKind::MultiPoint => match self.points_of_children(srid) {
                Some(points) => Ok(GeometryType::MultiPoint(MultiPoint { points, srid })),
                None => Err(TileError::UnsupportedGeometry),
            },
            NativeKind::MultiLineString => match self.lines_of_children(srid) {
                Some(lines) => {
                    let g = MultiLineString { lines, srid };
                    assert(g@ =~= self.child_lines());
                    Ok(GeometryType::MultiLineString(g))
                },
                None => Err(TileError::UnsupportedGeometry),
            },
            NativeKind::MultiPolygon => match self.polygons_of_children(srid) {
                Some(polygons) => {
                    let g = MultiPolygon { polygons, srid };
                    assert(g@ =~= self.child_polygons());
                    Ok(GeometryType::MultiPolygon(g))
                },
                None => Err(TileError::UnsupportedGeometry),
            },
            NativeKind::GeometryCollection => Err(TileError::UnsupportedGeometry),
            NativeKind::Other => Err(TileError::UnsupportedGeometry),
        }
    }
}

impl NativeGeometry {
    /// The horizontal positions that reading the geometry meets, in their
    /// order: the first vertex of a point kind, every vertex of a line kind,
    /// and for any other kind the positions of its sub-geometries, one
    /// sub-geometry after the other.
    pub open spec fn positions(&self) -> Path
        decreases self, self.children@.len() + 1,
    {
        match self.kind {
            NativeKind::Point => if self.points@.len() > 0 {
                seq![self.point()]
            } else {
                Seq::empty()
            },
            NativeKind::LineString => self.line(),
            _ => self.gathered(self.children@.len()),
        }
    }

    /// The positions of the first `n` sub-geometries, one sub-geometry after
    /// the other.
    pub open spec fn gathered(&self, n: nat) -> Path
        decreases self, n,
    {
        if n == 0 || n > self.children@.len() {
            Seq::empty()
        } else {
            self.gathered((n - 1) as nat) + self.children[n - 1].positions()
        }
    }

    /// The positions of sub-geometries of point kind are their points.
    proof fn lemma_gathered_points(&self, n: nat)
        requires
            self.holds_points(),
            n <= self.children@.len(),
        ensures
            self.gathered(n) == self.child_points().take(n as int),
        decreases n,
    {
        reveal_with_fuel(NativeGeometry::gathered, 2);
        reveal_with_fuel(NativeGeometry::positions, 2);
        if n > 0 {
            self.lemma_gathered_points((n - 1) as nat);
            assert(self.children@[n - 1].is_point());
            assert(self.children[n - 1].positions() == seq![self.children@[n - 1].point()]);
            assert(self.child_points().take(n as int) =~= self.child_points().take(n - 1)
                + seq![self.children@[n - 1].point()]);
        } else {
            assert(self.child_points().take(0) =~= Seq::<Coord>::empty());
        }
    }

    /// The positions of sub-geometries of line kind are their lines, one
    /// after the other.
    proof fn lemma_gathered_lines(&self, n: nat)
        requires
            self.holds_lines(),
            n <= self.children@.len(),
        ensures
            self.gathered(n) == crate::geom::chained(self.child_lines(), n),
        decreases n,
    {
        reveal_with_fuel(NativeGeometry::gathered, 2);
        reveal_with_fuel(NativeGeometry::positions, 2);
        if n > 0 {
            self.lemma_gathered_lines((n - 1) as nat);
            assert(self.children@[n - 1].is_line());
            assert(self.children[n - 1].positions() == self.children@[n - 1].line());
        }
    }

    /// The positions of sub-geometries of polygon kind are their rings, one
    /// after the other.
    proof fn lemma_gathered_polygons(&self, n: nat)
        requires
            self.holds_polygons(),
            n <= self.children@.len(),
        ensures
            self.gathered(n) == crate::geom::chained_rings(self.child_polygons(), n),
        decreases n,
    {
        reveal_with_fuel(NativeGeometry::gathered, 2);
        reveal_with_fuel(NativeGeometry::positions, 2);
        if n > 0 {
            self.lemma_gathered_polygons((n - 1) as nat);
            let child = self.children@[n - 1];
            assert(child.is_polygon());
            child.lemma_gathered_lines(child.children@.len());
            assert(self.children[n - 1].positions() == child.gathered(child.children@.len()));
        }
    }

    /// Converting keeps every position: the shape that a geometry converts
    /// to holds the positions that reading the geometry meets, all of them
    /// and in their order.
    pub proof fn lemma_conversion_keeps_positions(&self)
        ensures
            self.converted() matches Some(shape) ==> shape.positions() == self.positions(),
    {
        reveal_with_fuel(NativeGeometry::positions, 2);
        match self.kind {
            NativeKind::MultiPoint => {
                if self.holds_points() {
                    self.lemma_gathered_points(self.children@.len());
                    assert(self.child_points().take(self.children@.len() as int)
                        =~= self.child_points());
                }
            },
            NativeKind::Polygon => {
                if self.holds_lines() {
                    self.lemma_gathered_lines(self.children@.len());
                }
            },
            NativeKind::MultiLineString => {
                if self.holds_lines() {
                    self.lemma_gathered_lines(self.children@.len());
                }
            },
            NativeKind::MultiPolygon => {
                if self.holds_polygons() {
                    self.lemma_gathered_polygons(self.children@.len());
                }
            },
            _ => {},
        }
    }

    /// A collection, and a geometry of a kind that is not known, converts to
    /// nothing.
    pub proof fn lemma_other_kinds_are_unsupported(&self)
        requires
            self.kind == NativeKind::GeometryCollection || self.kind == NativeKind::Other,
        ensures
            self.converted().is_none(),
    {
    }
}

} // verus!
