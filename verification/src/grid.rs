use vstd::arithmetic::div_mod::{
    lemma_basic_div, lemma_div_denominator, lemma_div_is_ordered, lemma_div_multiples_vanish,
    lemma_div_non_zero, lemma_fundamental_div_mod_converse, lemma_fundamental_div_mod,
};
use vstd::arithmetic::power2::{lemma_pow2_pos, lemma_pow2_unfold, pow2};
use vstd::prelude::*;
use crate::error::TileError;

verus! {

/// An axis-aligned box in grid units.
#[derive(Clone, Copy, Debug, PartialEq, Eq)]
pub struct Extent {
    pub minx: i64,
    pub miny: i64,
    pub maxx: i64,
    pub maxy: i64,
}

/// An axis-aligned box over the mathematical integers.
pub ghost struct Bounds {
    pub minx: int,
    pub miny: int,
    pub maxx: int,
    pub maxy: int,
}

impl Bounds {
    /// The box is not inverted on either axis.
    pub open spec fn ordered(self) -> bool {
        self.minx <= self.maxx && self.miny <= self.maxy
    }

    /// `inner` lies within the box, edges included.
    pub open spec fn covers(self, inner: Bounds) -> bool {
        &&& self.minx <= inner.minx
        &&& inner.maxx <= self.maxx
        &&& self.miny <= inner.miny
        &&& inner.maxy <= self.maxy
    }
}

impl View for Extent {
    type V = Bounds;

    open spec fn view(&self) -> Bounds {
        Bounds {
            minx: self.minx as int,
            miny: self.miny as int,
            maxx: self.maxx as int,
            maxy: self.maxy as int,
        }
    }
}

/// A pyramid of square tiles. At zoom 0 one tile spans the whole grid; each
/// further zoom halves the side of a tile. Columns count from the left edge
/// to the right, rows from the top edge downward.
#[derive(Clone, Copy, Debug, PartialEq, Eq)]
pub struct Grid {
    origin_x: i64,
    origin_y: i64,
    tile_size: u16,
    srid: i32,
    base_resolution: u64,
}

/// `v` halved `z` times, rounding down each time.
fn shift_down(v: u128, z: u16) -> (r: u128)
    ensures
        r == v as int / pow2(z as nat) as int,
{
    let mut cur: u128 = v;
    let mut i: u16 = 0;
    proof {
        vstd::arithmetic::power2::lemma2_to64();
    }
    while i < z
        invariant
            i <= z,
            cur == v as int / pow2(i as nat) as int,
        decreases z - i,
    {
        proof {
            lemma_pow2_pos(i as nat);
            lemma_pow2_unfold((i + 1) as nat);
            lemma_div_denominator(v as int, pow2(i as nat) as int, 2);
        }
        cur = cur / 2;
        i += 1;
    }
    cur
}

/// Doubling numerator and denominator leaves a quotient as it is.
proof fn lemma_div_doubled(a: int, b: int)
    requires
        0 <= a,
        0 < b,
    ensures
        (2 * a) / (2 * b) == a / b,
{
    lemma_fundamental_div_mod(a, b);
    let q = a / b;
    let r = a % b;
    assert(2 * a == q * (2 * b) + 2 * r) by (nonlinear_arith)
        requires
            a == b * q + r,
    ;
    lemma_fundamental_div_mod_converse(2 * a, 2 * b, q, 2 * r);
}

/// A non-negative number is below a positive one exactly if their quotient
/// is zero.
proof fn lemma_below_iff_quotient_zero(v: int, d: int)
    requires
        0 <= v,
        0 < d,
    ensures
        (v < d) <==> (v / d == 0),
{
    if v < d {
        lemma_basic_div(v, d);
    } else {
        lemma_div_non_zero(v, d);
    }
}

impl Grid {
    /// A tile of the grid has a side, the grid has a resolution, and the
    /// zoom-0 tile lies within the range of the coordinates.
    pub open spec fn fits(
        origin_x: i64,
        origin_y: i64,
        tile_size: u16,
        base_resolution: u64,
    ) -> bool {
        &&& tile_size > 0
        &&& base_resolution > 0
        &&& origin_x + tile_size * base_resolution <= i64::MAX
        &&& origin_y - tile_size * base_resolution >= i64::MIN
    }

    /// What holds of every grid: `fits` holds of its corner, its tiles and
    /// its resolution.
    #[verifier::type_invariant]
    pub closed spec fn well_formed(self) -> bool {
        Self::fits(self.origin_x, self.origin_y, self.tile_size, self.base_resolution)
    }

    /// The left edge of the grid.
    pub closed spec fn left(&self) -> int {
        self.origin_x as int
    }

    /// The top edge of the grid.
    pub closed spec fn top(&self) -> int {
        self.origin_y as int
    }

    /// The side of a tile in pixels.
    pub closed spec fn pixels(&self) -> int {
        self.tile_size as int
    }

    /// The grid units per pixel at zoom 0.
    pub closed spec fn units_per_pixel(&self) -> int {
        self.base_resolution as int
    }

    /// The spatial reference of the grid's coordinates.
    pub closed spec fn reference(&self) -> i32 {
        self.srid
    }

    /// The side of the zoom-0 tile in grid units.
    pub open spec fn span(&self) -> int {
        self.pixels() * self.units_per_pixel()
    }

    /// The grid units per pixel at zoom `z`, rounded down.
    pub open spec fn resolution_at(&self, z: nat) -> int {
        self.units_per_pixel() / pow2(z) as int
    }

    /// The distance from the grid's left or top edge to the `i`-th line
    /// between tiles at zoom `z`, rounded down to a whole unit.
    pub open spec fn edge(&self, z: nat, i: int) -> int {
        (i * self.span()) / pow2(z) as int
    }

    /// Column `x` and row `y` exist at zoom `z`.
    pub open spec fn valid_address(z: u16, x: u16, y: u16) -> bool {
        x < pow2(z as nat) && y < pow2(z as nat)
    }

    /// The box of the tile at zoom `z`, column `x`, row `y`.
    pub open spec fn extent_of(&self, z: nat, x: int, y: int) -> Bounds {
        Bounds {
            minx: self.left() + self.edge(z, x),
            miny: self.top() - self.edge(z, y + 1),
            maxx: self.left() + self.edge(z, x + 1),
            maxy: self.top() - self.edge(z, y),
        }
    }

    /// A grid whose top left corner is `(origin_x, origin_y)`, with tiles of
    /// `tile_size` pixels and `base_resolution` grid units per pixel at zoom
    /// 0. `None` where `fits` does not hold of these.
    pub fn new(
        origin_x: i64,
        origin_y: i64,
        tile_size: u16,
        srid: i32,
        base_resolution: u64,
    ) -> (r: Option<Grid>)
        ensures
            r.is_some() == Self::fits(origin_x, origin_y, tile_size, base_resolution),
            r matches Some(g) ==> {
                &&& g.left() == origin_x
                &&& g.top() == origin_y
                &&& g.pixels() == tile_size
                &&& g.units_per_pixel() == base_resolution
                &&& g.reference() == srid
            },
    {
        if tile_size == 0 || base_resolution == 0 {
            return None;
        }
        assert(tile_size * base_resolution <= 0xffff * 0xffff_ffff_ffff_ffff) by (nonlinear_arith)
            requires
                tile_size <= 0xffff,
                base_resolution <= 0xffff_ffff_ffff_ffff,
        ;
        let span: i128 = tile_size as i128 * base_resolution as i128;
        if origin_x as i128 + span > i64::MAX as i128 || origin_y as i128 - span < i64::MIN as i128 {
            return None;
        }
        Some(Grid { origin_x, origin_y, tile_size, srid, base_resolution })
    }

    /// The spherical Mercator grid of the web, in millimetres: tiles of 256
    /// pixels, 156543034 mm per pixel at zoom 0, centred on the origin.
    pub fn web_mercator() -> (g: Grid)
        ensures
            g.left() == -20037508352,
            g.top() == 20037508352,
            g.pixels() == 256,
            g.units_per_pixel() == 156543034,
            g.reference() == 3857,
            g.span() == 40075016704,
    {
        Grid {
            origin_x: -20037508352,
            origin_y: 20037508352,
            tile_size: 256,
            srid: 3857,
            base_resolution: 156543034,
        }
    }

    /// The side of a tile in pixels.
    pub fn tile_size(&self) -> (r: u16)
        ensures
            r == self.pixels(),
    {
        self.tile_size
    }

    /// The spatial reference of the grid's coordinates.
    pub fn srid(&self) -> (r: i32)
        ensures
            r == self.reference(),
    {
        self.srid
    }

    /// The top left corner of the grid.
    pub fn origin(&self) -> (r: (i64, i64))
        ensures
            r.0 == self.left(),
            r.1 == self.top(),
    {
        (self.origin_x, self.origin_y)
    }

    /// The grid units per pixel at zoom `z`, rounded down.
    pub fn resolution(&self, z: u16) -> (r: u64)
        ensures
            r == self.resolution_at(z as nat),
    {
        let r = shift_down(self.base_resolution as u128, z);
        proof {
            let d = pow2(z as nat) as int;
            let v = self.base_resolution as int;
            lemma_pow2_pos(z as nat);
            assert(v <= d * v) by (nonlinear_arith)
                requires
                    d > 0,
                    v >= 0,
            ;
            lemma_div_is_ordered(v, d * v, d);
            lemma_div_multiples_vanish(v, d);
        }
        r as u64
    }

    /// The distance from the grid's edge to line `i` between tiles at zoom `z`.
    fn edge_at(&self, z: u16, i: u32) -> (r: i128)
        requires
            i <= pow2(z as nat),
            i <= 0x1_0000,
        ensures
            r == self.edge(z as nat, i as int),
            0 <= r <= self.span(),
    {
        proof {
            use_type_invariant(self);
        }
        let ts = self.tile_size;
        let res = self.base_resolution;
        assert(ts * res <= 0xffff * 0xffff_ffff_ffff_ffff) by (nonlinear_arith)
            requires
                ts <= 0xffff,
                res <= 0xffff_ffff_ffff_ffff,
        ;
        let span: u128 = ts as u128 * res as u128;
        assert(i * span <= 0x1_0000 * (0xffff * 0xffff_ffff_ffff_ffff)) by (nonlinear_arith)
            requires
                i <= 0x1_0000,
                span <= 0xffff * 0xffff_ffff_ffff_ffff,
        ;
        let r = shift_down(i as u128 * span, z);
        proof {
            let d = pow2(z as nat) as int;
            lemma_pow2_pos(z as nat);
            assert(i * span <= d * span) by (nonlinear_arith)
                requires
                    i <= d,
                    span >= 0,
            ;
            lemma_div_is_ordered(i * span, d * span, d);
            lemma_div_multiples_vanish(span as int, d);
            assert(0 <= i * span) by (nonlinear_arith)
                requires
                    i >= 0,
                    span >= 0,
            ;
            lemma_div_is_ordered(0, i * span, d);
        }
        r as i128
    }

    /// The box of the tile at zoom `z`, column `x`, row `y`.
    ///
    /// Fails with `InvalidTileAddress` exactly where the column or the row
    /// does not exist at that zoom.
    pub fn extent(&self, z: u16, x: u16, y: u16) -> (r: Result<Extent, TileError>)
        ensures
            match r {
                Ok(e) => Self::valid_address(z, x, y) && e@ == self.extent_of(
                    z as nat,
                    x as int,
                    y as int,
                ) && e@.ordered(),
                Err(e) => e == TileError::InvalidTileAddress && !Self::valid_address(z, x, y),
            },
    {
        proof {
            use_type_invariant(self);
            self.lemma_extent_ordered(z, x, y);
            lemma_pow2_pos(z as nat);
            lemma_below_iff_quotient_zero(x as int, pow2(z as nat) as int);
            lemma_below_iff_quotient_zero(y as int, pow2(z as nat) as int);
        }
        if shift_down(x as u128, z) != 0 || shift_down(y as u128, z) != 0 {
            return Err(TileError::InvalidTileAddress);
        }
        let x0 = self.edge_at(z, x as u32);
        let x1 = self.edge_at(z, x as u32 + 1);
        let y0 = self.edge_at(z, y as u32);
        let y1 = self.edge_at(z, y as u32 + 1);
        Ok(
            Extent {
                minx: (self.origin_x as i128 + x0) as i64,
                miny: (self.origin_y as i128 - y1) as i64,
                maxx: (self.origin_x as i128 + x1) as i64,
                maxy: (self.origin_y as i128 - y0) as i64,
            },
        )
    }

    /// Where the resolution at zoom `z` is exact, the lines between tiles lie
    /// a whole number of pixels of that resolution apart: line `i` is `i`
    /// tiles of `pixels` pixels of `resolution_at(z)` units from the edge.
    pub proof fn lemma_edges_from_resolution(&self, z: nat, i: int)
        requires
            0 <= i,
            self.units_per_pixel() % (pow2(z) as int) == 0,
        ensures
            self.edge(z, i) == i * self.pixels() * self.resolution_at(z),
    {
        let d = pow2(z) as int;
        let r = self.resolution_at(z);
        let t = self.pixels();
        lemma_pow2_pos(z);
        lemma_fundamental_div_mod(self.units_per_pixel(), d);
        assert(i * (t * self.units_per_pixel()) == d * (i * t * r)) by (nonlinear_arith)
            requires
                self.units_per_pixel() == d * r,
        ;
        lemma_div_multiples_vanish(i * t * r, d);
    }

    /// The lines between tiles come in order: a line further from the edge
    /// is at no smaller a distance.
    pub proof fn lemma_edges_ordered(&self, z: nat, i: int, j: int)
        requires
            0 <= i <= j,
        ensures
            0 <= self.edge(z, i) <= self.edge(z, j),
    {
        let s = self.span();
        let d = pow2(z) as int;
        lemma_pow2_pos(z);
        assert(0 <= s) by (nonlinear_arith)
            requires
                s == self.pixels() * self.units_per_pixel(),
                self.pixels() >= 0,
                self.units_per_pixel() >= 0,
        ;
        assert(0 <= i * s <= j * s) by (nonlinear_arith)
            requires
                0 <= i <= j,
                0 <= s,
        ;
        lemma_div_is_ordered(0, i * s, d);
        lemma_div_is_ordered(i * s, j * s, d);
    }

    /// The box of every tile is ordered: its left edge is not right of its
    /// right edge, its bottom edge not above its top edge.
    pub proof fn lemma_extent_ordered(&self, z: u16, x: u16, y: u16)
        ensures
            self.extent_of(z as nat, x as int, y as int).ordered(),
    {
        self.lemma_edges_ordered(z as nat, x as int, x + 1);
        self.lemma_edges_ordered(z as nat, y as int, y + 1);
    }

    /// Every tile lies within its parent: for a tile at a zoom above 0, the
    /// tile one zoom up at half its column and half its row exists, and its
    /// box covers the box of the tile.
    pub proof fn lemma_parent_covers_child(&self, z: u16, x: u16, y: u16)
        requires
            z > 0,
            Self::valid_address(z, x, y),
        ensures
            Self::valid_address((z - 1) as u16, x / 2, y / 2),
            self.extent_of((z - 1) as nat, x as int / 2, y as int / 2).covers(
                self.extent_of(z as nat, x as int, y as int),
            ),
    {
        lemma_pow2_unfold(z as nat);
        lemma_pow2_pos((z - 1) as nat);
        self.lemma_half_edges(z as nat, x as int);
        self.lemma_half_edges(z as nat, y as int);
    }

    /// Line `i / 2` of the zoom above is not after line `i`, and line
    /// `i / 2 + 1` of the zoom above is not before line `i + 1`.
    proof fn lemma_half_edges(&self, z: nat, i: int)
        requires
            z > 0,
            0 <= i,
        ensures
            self.edge((z - 1) as nat, i / 2) <= self.edge(z, i),
            self.edge(z, i + 1) <= self.edge((z - 1) as nat, i / 2 + 1),
    {
        let s = self.span();
        let d = pow2((z - 1) as nat) as int;
        lemma_pow2_unfold(z);
        lemma_pow2_pos((z - 1) as nat);
        assert(0 <= s) by (nonlinear_arith)
            requires
                s == self.pixels() * self.units_per_pixel(),
                self.pixels() >= 0,
                self.units_per_pixel() >= 0,
        ;
        let lo = i / 2;
        let hi = i / 2 + 1;
        assert(0 <= lo * s && 2 * (lo * s) <= i * s) by (nonlinear_arith)
            requires
                0 <= lo,
                2 * lo <= i,
                0 <= s,
        ;
        assert(0 <= hi * s && (i + 1) * s <= 2 * (hi * s)) by (nonlinear_arith)
            requires
                0 <= hi,
                i + 1 <= 2 * hi,
                0 <= s,
        ;
        lemma_div_doubled(lo * s, d);
        lemma_div_doubled(hi * s, d);
        lemma_div_is_ordered(2 * (lo * s), i * s, 2 * d);
        lemma_div_is_ordered((i + 1) * s, 2 * (hi * s), 2 * d);
    }
}

impl Extent {
    /// Whether `inner` lies within this box, edges included.
    pub fn contains(&self, inner: &Extent) -> (r: bool)
        ensures
            r == self@.covers(inner@),
    {
        self.minx <= inner.minx && inner.maxx <= self.maxx && self.miny <= inner.miny
            && inner.maxy <= self.maxy
    }
}

} // verus!
