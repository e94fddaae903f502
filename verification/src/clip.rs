use vstd::arithmetic::div_mod::{
    lemma_div_is_ordered, lemma_div_multiples_vanish, lemma_fundamental_div_mod,
    lemma_fundamental_div_mod_converse, lemma_mod_pos_bound,
};
use vstd::prelude::*;
use crate::geom::{Coord, Path};
use crate::grid::{Bounds, Extent};

verus! {

/// A position in grid units.
pub type Xy = (i64, i64);

/// The position `p` over the mathematical integers.
pub open spec fn coord(p: Xy) -> Coord {
    (p.0 as int, p.1 as int)
}

/// The positions of `s`, in order.
pub open spec fn coords(s: Seq<Xy>) -> Path {
    Seq::new(s.len(), |i: int| coord(s[i]))
}

/// The positions of each run of `v`, in order.
pub open spec fn paths(v: Seq<Vec<Xy>>) -> Seq<Path> {
    Seq::new(v.len(), |i: int| coords(v[i]@))
}

/// The two ends of a segment, if there is one.
pub open spec fn segment(s: Option<(Xy, Xy)>) -> Option<(Coord, Coord)> {
    match s {
        Some((p, q)) => Some((coord(p), coord(q))),
        None => None,
    }
}

/// `p` lies in the box `w`, edges included.
pub open spec fn within(p: Coord, w: Bounds) -> bool {
    w.minx <= p.0 <= w.maxx && w.miny <= p.1 <= w.maxy
}

/// Every position of `path` lies in the box `w`.
pub open spec fn all_within(path: Path, w: Bounds) -> bool {
    forall|i: int| 0 <= i < path.len() ==> within(#[trigger] path[i], w)
}

/// One of the four sides of a box.
#[derive(Clone, Copy, Debug, PartialEq, Eq, Structural)]
pub enum Edge {
    Left,
    Right,
    Bottom,
    Top,
}

/// `p` is on the inner side of the line that runs along edge `e` at `b`,
/// or on that line.
pub open spec fn inside(p: Coord, e: Edge, b: int) -> bool {
    match e {
        Edge::Left => p.0 >= b,
        Edge::Right => p.0 <= b,
        Edge::Bottom => p.1 >= b,
        Edge::Top => p.1 <= b,
    }
}

/// Every position of `path` is on the inner side of edge `e` at `b`.
pub open spec fn all_inside(path: Path, e: Edge, b: int) -> bool {
    forall|i: int| 0 <= i < path.len() ==> inside(#[trigger] path[i], e, b)
}

/// The second ordinate at which the straight line from `(a0, b0)` to
/// `(a1, b1)` reaches the first ordinate `c`, rounded down. The line is
/// followed from its end with the smaller first ordinate, so that the result
/// does not depend on the order of the two ends.
pub open spec fn along(a0: int, b0: int, a1: int, b1: int, c: int) -> int {
    if a0 < a1 {
        b0 + ((b1 - b0) * (c - a0)) / (a1 - a0)
    } else {
        b1 + ((b0 - b1) * (c - a1)) / (a0 - a1)
    }
}

/// The position at which the segment from `p` to `q` meets the line that
/// runs along edge `e` at `b`.
pub open spec fn cross(p: Coord, q: Coord, e: Edge, b: int) -> Coord {
    match e {
        Edge::Left | Edge::Right => (b, along(p.0, p.1, q.0, q.1, b)),
        Edge::Bottom | Edge::Top => (along(p.1, p.0, q.1, q.0, b), b),
    }
}

/// What is left of a segment on the inner side of edge `e` at `b`.
pub open spec fn cut(s: Option<(Coord, Coord)>, e: Edge, b: int) -> Option<(Coord, Coord)> {
    match s {
        None => None,
        Some((p, q)) => if inside(p, e, b) {
            if inside(q, e, b) {
                s
            } else {
                Some((p, cross(p, q, e, b)))
            }
        } else if inside(q, e, b) {
            Some((cross(p, q, e, b), q))
        } else {
            None
        },
    }
}

/// On which side of the straight line from `p` through `q` the position `c`
/// lies: positive on one side, negative on the other, zero on the line.
pub open spec fn side_of(p: Coord, q: Coord, c: Coord) -> int {
    (q.0 - p.0) * (c.1 - p.1) - (q.1 - p.1) * (c.0 - p.0)
}

/// The straight line through `p` and `q` passes the box `w` by: the four
/// corners of the box lie on the same side of the line, and none on it.
pub open spec fn passes_by(p: Coord, q: Coord, w: Bounds) -> bool {
    let a = side_of(p, q, (w.minx, w.miny));
    let b = side_of(p, q, (w.maxx, w.miny));
    let c = side_of(p, q, (w.maxx, w.maxy));
    let d = side_of(p, q, (w.minx, w.maxy));
    (a > 0 && b > 0 && c > 0 && d > 0) || (a < 0 && b < 0 && c < 0 && d < 0)
}

/// The segment cut at the left, right, bottom and top edge of the box `w`,
/// in this order.
pub open spec fn cut_to(p: Coord, q: Coord, w: Bounds) -> Option<(Coord, Coord)> {
    cut(
        cut(cut(cut(Some((p, q)), Edge::Left, w.minx), Edge::Right, w.maxx), Edge::Bottom, w.miny),
        Edge::Top,
        w.maxy,
    )
}

/// What is left of the segment from `p` to `q` in the box `w`: nothing
/// where its line passes the box by, and else the segment cut at the edges
/// of the box.
pub open spec fn clip_segment(p: Coord, q: Coord, w: Bounds) -> Option<(Coord, Coord)> {
    if passes_by(p, q, w) {
        None
    } else {
        cut_to(p, q, w)
    }
}

/// The runs so far with one more piece of the line: nothing for no piece or
/// a piece without length, a longer last run where the piece starts at the
/// end of that run, and a new run otherwise.
pub open spec fn extend(parts: Seq<Path>, piece: Option<(Coord, Coord)>) -> Seq<Path> {
    match piece {
        None => parts,
        Some((p, q)) => if p == q {
            parts
        } else if parts.len() > 0 && parts.last().len() > 0 && parts.last().last() == p {
            parts.drop_last().push(parts.last().push(q))
        } else {
            parts.push(seq![p, q])
        },
    }
}

/// The runs in which the first `n` segments of `path` cross the box `w`.
pub open spec fn line_parts(path: Path, w: Bounds, n: nat) -> Seq<Path>
    decreases n,
{
    if n == 0 {
        Seq::empty()
    } else {
        extend(line_parts(path, w, (n - 1) as nat), clip_segment(path[n - 1], path[n as int], w))
    }
}

/// The runs in which the line `path` crosses the box `w`, in the order of
/// the line. Each run has two positions or more.
pub open spec fn clipped_line(path: Path, w: Bounds) -> Seq<Path> {
    if path.len() < 2 {
        Seq::empty()
    } else {
        line_parts(path, w, (path.len() - 1) as nat)
    }
}

/// The corner before corner `i` on the way round the ring.
pub open spec fn before(ring: Path, i: int) -> Coord {
    if i == 0 {
        ring[ring.len() - 1]
    } else {
        ring[i - 1]
    }
}

/// What the side of a ring that ends in `cur` leaves on the inner side of
/// edge `e` at `b`.
pub open spec fn turn(prev: Coord, cur: Coord, e: Edge, b: int) -> Path {
    if inside(cur, e, b) {
        if inside(prev, e, b) {
            seq![cur]
        } else {
            seq![cross(prev, cur, e, b), cur]
        }
    } else if inside(prev, e, b) {
        seq![cross(prev, cur, e, b)]
    } else {
        Seq::empty()
    }
}

/// What the first `n` sides of `ring` leave on the inner side of edge `e` at
/// `b`.
pub open spec fn ring_cut(ring: Path, e: Edge, b: int, n: nat) -> Path
    decreases n,
{
    if n == 0 {
        Seq::empty()
    } else {
        ring_cut(ring, e, b, (n - 1) as nat) + turn(before(ring, n - 1), ring[n - 1], e, b)
    }
}

/// The corners of a ring without the repeated corner that closes it.
pub open spec fn unclosed(ring: Path) -> Path {
    if ring.len() >= 2 && ring.first() == ring.last() {
        ring.drop_last()
    } else {
        ring
    }
}

/// The ring `ring`, given by its corners in order and closed from the last
/// to the first, cut at the left, right, bottom and top edge of the box `w`.
pub open spec fn clipped_ring(ring: Path, w: Bounds) -> Path {
    let a = ring_cut(ring, Edge::Left, w.minx, ring.len());
    let b = ring_cut(a, Edge::Right, w.maxx, a.len());
    let c = ring_cut(b, Edge::Bottom, w.miny, b.len());
    ring_cut(c, Edge::Top, w.maxy, c.len())
}

/// Those of the first `n` positions of `path` that lie in the box `w`.
pub open spec fn visible(path: Path, w: Bounds, n: nat) -> Path
    decreases n,
{
    if n == 0 {
        Seq::empty()
    } else if within(path[n - 1], w) {
        visible(path, w, (n - 1) as nat).push(path[n - 1])
    } else {
        visible(path, w, (n - 1) as nat)
    }
}

/// A part `n` of `d`-ths of a whole `v`, rounded down, lies between nothing
/// and the whole.
pub proof fn lemma_part_between(v: int, n: int, d: int)
    requires
        0 <= n <= d,
        0 < d,
    ensures
        v >= 0 ==> 0 <= (v * n) / d <= v,
        v <= 0 ==> v <= (v * n) / d <= 0,
{
    lemma_div_multiples_vanish(v, d);
    lemma_div_multiples_vanish(0, d);
    assert(d * 0 == 0);
    if v >= 0 {
        assert(0 <= v * n <= d * v) by (nonlinear_arith)
            requires
                0 <= n <= d,
                0 <= v,
        ;
        lemma_div_is_ordered(0, v * n, d);
        lemma_div_is_ordered(v * n, d * v, d);
    }
    if v <= 0 {
        assert(d * v <= v * n <= 0) by (nonlinear_arith)
            requires
                0 <= n <= d,
                v <= 0,
        ;
        lemma_div_is_ordered(v * n, 0, d);
        lemma_div_is_ordered(d * v, v * n, d);
    }
}

/// Where a line reaches an ordinate between those of its ends, its other
/// ordinate lies between those of its ends too.
pub proof fn lemma_along_between(a0: int, b0: int, a1: int, b1: int, c: int)
    requires
        a0 != a1,
        a0 <= c <= a1 || a1 <= c <= a0,
    ensures
        b0 <= along(a0, b0, a1, b1, c) <= b1 || b1 <= along(a0, b0, a1, b1, c) <= b0,
{
    if a0 < a1 {
        lemma_part_between(b1 - b0, c - a0, a1 - a0);
    } else {
        lemma_part_between(b0 - b1, c - a1, a0 - a1);
    }
}

/// Where one end of a segment is on the inner side of an edge and the other
/// is not, the segment meets the edge's line in a position that lies on that
/// line and, in both ordinates, between the two ends.
pub proof fn lemma_cross_between(p: Coord, q: Coord, e: Edge, b: int)
    requires
        inside(p, e, b) != inside(q, e, b),
    ensures
        inside(cross(p, q, e, b), e, b),
        p.0 <= cross(p, q, e, b).0 <= q.0 || q.0 <= cross(p, q, e, b).0 <= p.0,
        p.1 <= cross(p, q, e, b).1 <= q.1 || q.1 <= cross(p, q, e, b).1 <= p.1,
{
    match e {
        Edge::Left | Edge::Right => {
            lemma_along_between(p.0, p.1, q.0, q.1, b);
        },
        Edge::Bottom | Edge::Top => {
            lemma_along_between(p.1, p.0, q.1, q.0, b);
        },
    }
}

/// A position that lies between two positions on the inner side of an edge
/// is on the inner side of that edge.
proof fn lemma_between_inside(p: Coord, q: Coord, m: Coord, e: Edge, b: int)
    requires
        inside(p, e, b),
        inside(q, e, b),
        p.0 <= m.0 <= q.0 || q.0 <= m.0 <= p.0,
        p.1 <= m.1 <= q.1 || q.1 <= m.1 <= p.1,
    ensures
        inside(m, e, b),
{
}

/// Both ends of a segment are on the inner side of edge `e` at `b`.
pub open spec fn ends_inside(s: Option<(Coord, Coord)>, e: Edge, b: int) -> bool {
    s matches Some((p, q)) ==> inside(p, e, b) && inside(q, e, b)
}

/// Cutting a segment at an edge leaves it on the inner side of that edge,
/// and on the inner side of every edge that it was on the inner side of.
pub proof fn lemma_cut_inside(s: Option<(Coord, Coord)>, e: Edge, b: int, e2: Edge, b2: int)
    ensures
        ends_inside(cut(s, e, b), e, b),
        ends_inside(s, e2, b2) ==> ends_inside(cut(s, e, b), e2, b2),
{
    match s {
        None => {},
        Some((p, q)) => {
            if inside(p, e, b) != inside(q, e, b) {
                lemma_cross_between(p, q, e, b);
                if ends_inside(s, e2, b2) {
                    lemma_between_inside(p, q, cross(p, q, e, b), e2, b2);
                }
            }
        },
    }
}

/// What is left of a segment in a box lies in the box.
pub proof fn lemma_clip_segment_within(p: Coord, q: Coord, w: Bounds)
    ensures
        clip_segment(p, q, w) matches Some((a, b)) ==> within(a, w) && within(b, w),
        cut_to(p, q, w) matches Some((a, b)) ==> within(a, w) && within(b, w),
{
    let s0 = Some((p, q));
    let s1 = cut(s0, Edge::Left, w.minx);
    let s2 = cut(s1, Edge::Right, w.maxx);
    let s3 = cut(s2, Edge::Bottom, w.miny);
    let s4 = cut(s3, Edge::Top, w.maxy);
    lemma_cut_inside(s0, Edge::Left, w.minx, Edge::Left, w.minx);
    lemma_cut_inside(s1, Edge::Right, w.maxx, Edge::Left, w.minx);
    lemma_cut_inside(s2, Edge::Bottom, w.miny, Edge::Left, w.minx);
    lemma_cut_inside(s2, Edge::Bottom, w.miny, Edge::Right, w.maxx);
    lemma_cut_inside(s3, Edge::Top, w.maxy, Edge::Left, w.minx);
    lemma_cut_inside(s3, Edge::Top, w.maxy, Edge::Right, w.maxx);
    lemma_cut_inside(s3, Edge::Top, w.maxy, Edge::Bottom, w.miny);
}

/// Every run of a clipped line has two positions or more.
pub open spec fn runs_have_length(parts: Seq<Path>) -> bool {
    forall|i: int| 0 <= i < parts.len() ==> (#[trigger] parts[i]).len() >= 2
}

/// Every position of every run lies in the box `w`.
pub open spec fn runs_within(parts: Seq<Path>, w: Bounds) -> bool {
    forall|i: int| 0 <= i < parts.len() ==> all_within(#[trigger] parts[i], w)
}

/// The runs in which a line crosses a box lie in the box, and each has two
/// positions or more.
pub proof fn lemma_line_parts_within(path: Path, w: Bounds, n: nat)
    ensures
        runs_within(line_parts(path, w, n), w),
        runs_have_length(line_parts(path, w, n)),
    decreases n,
{
    if n > 0 {
        let parts = line_parts(path, w, (n - 1) as nat);
        lemma_line_parts_within(path, w, (n - 1) as nat);
        lemma_clip_segment_within(path[n - 1], path[n as int], w);
        let piece = clip_segment(path[n - 1], path[n as int], w);
        let next = extend(parts, piece);
        match piece {
            None => {},
            Some((p, q)) => {
                if p == q {
                } else if parts.len() > 0 && parts.last().len() > 0 && parts.last().last() == p {
                    let longer = parts.last().push(q);
                    assert forall|i: int| 0 <= i < next.len() implies all_within(
                        #[trigger] next[i],
                        w,
                    ) && next[i].len() >= 2 by {
                        if i < parts.len() - 1 {
                            assert(next[i] == parts[i]);
                        } else {
                            assert(next[i] == longer);
                            assert(all_within(parts[parts.len() - 1], w));
                            assert forall|j: int| 0 <= j < longer.len() implies within(
                                #[trigger] longer[j],
                                w,
                            ) by {
                                if j < longer.len() - 1 {
                                    assert(longer[j] == parts.last()[j]);
                                }
                            }
                        }
                    }
                } else {
                    assert forall|i: int| 0 <= i < next.len() implies all_within(
                        #[trigger] next[i],
                        w,
                    ) && next[i].len() >= 2 by {
                        if i < parts.len() {
                            assert(next[i] == parts[i]);
                        } else {
                            assert(next[i] == seq![p, q]);
                        }
                    }
                }
            },
        }
    }
}

/// Cutting a ring at an edge leaves corners on the inner side of that edge,
/// and on the inner side of every edge that all its corners were on the inner
/// side of.
pub proof fn lemma_ring_cut_inside(ring: Path, e: Edge, b: int, n: nat, e2: Edge, b2: int)
    requires
        n <= ring.len(),
    ensures
        all_inside(ring_cut(ring, e, b, n), e, b),
        all_inside(ring, e2, b2) ==> all_inside(ring_cut(ring, e, b, n), e2, b2),
    decreases n,
{
    if n > 0 {
        lemma_ring_cut_inside(ring, e, b, (n - 1) as nat, e2, b2);
        let prev = before(ring, n - 1);
        let cur = ring[n - 1];
        let head = ring_cut(ring, e, b, (n - 1) as nat);
        let tail = turn(prev, cur, e, b);
        if inside(prev, e, b) != inside(cur, e, b) {
            lemma_cross_between(prev, cur, e, b);
            if all_inside(ring, e2, b2) {
                lemma_between_inside(prev, cur, cross(prev, cur, e, b), e2, b2);
            }
        }
        assert forall|i: int| 0 <= i < (head + tail).len() implies inside(
            #[trigger] (head + tail)[i],
            e,
            b,
        ) by {
            if i < head.len() {
                assert((head + tail)[i] == head[i]);
            } else {
                assert((head + tail)[i] == tail[i - head.len()]);
            }
        }
        if all_inside(ring, e2, b2) {
            assert forall|i: int| 0 <= i < (head + tail).len() implies inside(
                #[trigger] (head + tail)[i],
                e2,
                b2,
            ) by {
                if i < head.len() {
                    assert((head + tail)[i] == head[i]);
                } else {
                    assert((head + tail)[i] == tail[i - head.len()]);
                }
            }
        }
    }
}

/// A ring cut at the four edges of a box lies in the box.
pub proof fn lemma_clipped_ring_within(ring: Path, w: Bounds)
    ensures
        all_within(clipped_ring(ring, w), w),
{
    let a = ring_cut(ring, Edge::Left, w.minx, ring.len());
    let b = ring_cut(a, Edge::Right, w.maxx, a.len());
    let c = ring_cut(b, Edge::Bottom, w.miny, b.len());
    let d = ring_cut(c, Edge::Top, w.maxy, c.len());
    lemma_ring_cut_inside(ring, Edge::Left, w.minx, ring.len(), Edge::Left, w.minx);
    lemma_ring_cut_inside(a, Edge::Right, w.maxx, a.len(), Edge::Left, w.minx);
    lemma_ring_cut_inside(b, Edge::Bottom, w.miny, b.len(), Edge::Left, w.minx);
    lemma_ring_cut_inside(b, Edge::Bottom, w.miny, b.len(), Edge::Right, w.maxx);
    lemma_ring_cut_inside(c, Edge::Top, w.maxy, c.len(), Edge::Left, w.minx);
    lemma_ring_cut_inside(c, Edge::Top, w.maxy, c.len(), Edge::Right, w.maxx);
    lemma_ring_cut_inside(c, Edge::Top, w.maxy, c.len(), Edge::Bottom, w.miny);
    assert forall|i: int| 0 <= i < d.len() implies within(#[trigger] d[i], w) by {
        assert(inside(d[i], Edge::Left, w.minx));
        assert(inside(d[i], Edge::Right, w.maxx));
        assert(inside(d[i], Edge::Bottom, w.miny));
        assert(inside(d[i], Edge::Top, w.maxy));
    }
}

/// The positions of a line that are visible in a box lie in the box.
pub proof fn lemma_visible_within(path: Path, w: Bounds, n: nat)
    ensures
        all_within(visible(path, w, n), w),
    decreases n,
{
    if n > 0 {
        lemma_visible_within(path, w, (n - 1) as nat);
    }
}

/// The quotient of a negated number is the negated quotient, rounded down.
proof fn lemma_div_of_negated(m: int, d: int)
    requires
        0 <= m,
        0 < d,
    ensures
        (-m) / d == if m % d == 0 {
            -(m / d)
        } else {
            -(m / d) - 1
        },
{
    lemma_fundamental_div_mod(m, d);
    lemma_mod_pos_bound(m, d);
    let q = m / d;
    let r = m % d;
    if r == 0 {
        assert(-m == (-q) * d + 0) by (nonlinear_arith)
            requires
                m == d * q + r,
                r == 0,
        ;
        lemma_fundamental_div_mod_converse(-m, d, -q, 0);
    } else {
        assert(-m == (-q - 1) * d + (d - r)) by (nonlinear_arith)
            requires
                m == d * q + r,
        ;
        lemma_fundamental_div_mod_converse(-m, d, -q - 1, d - r);
    }
}

/// `b0 + (b1 - b0) * (c - a0) / (a1 - a0)`, rounded down.
fn ratio(a0: i64, b0: i64, a1: i64, b1: i64, c: i64) -> (r: i64)
    requires
        a0 < a1,
        a0 <= c <= a1,
    ensures
        r == b0 + ((b1 - b0) * (c - a0)) / (a1 - a0),
{
    let n: u128 = (c as i128 - a0 as i128) as u128;
    let d: u128 = (a1 as i128 - a0 as i128) as u128;
    let db: i128 = b1 as i128 - b0 as i128;
    proof {
        lemma_part_between(db as int, n as int, d as int);
    }
    if db >= 0 {
        let v: u128 = db as u128;
        assert(v * n <= 0xffff_ffff_ffff_ffff * 0xffff_ffff_ffff_ffff) by (nonlinear_arith)
            requires
                v <= 0xffff_ffff_ffff_ffff,
                n <= 0xffff_ffff_ffff_ffff,
        ;
        let q: u128 = (v * n) / d;
        (b0 as i128 + q as i128) as i64
    } else {
        let v: u128 = (-db) as u128;
        assert(v * n <= 0xffff_ffff_ffff_ffff * 0xffff_ffff_ffff_ffff) by (nonlinear_arith)
            requires
                v <= 0xffff_ffff_ffff_ffff,
                n <= 0xffff_ffff_ffff_ffff,
        ;
        let m: u128 = v * n;
        let q: u128 = m / d;
        let rest: u128 = m % d;
        proof {
            lemma_div_of_negated(m as int, d as int);
            assert((db as int) * (n as int) == -(m as int)) by (nonlinear_arith)
                requires
                    m == v * n,
                    v == -db,
            ;
        }
        if rest == 0 {
            (b0 as i128 - q as i128) as i64
        } else {
            (b0 as i128 - q as i128 - 1) as i64
        }
    }
}

/// The second ordinate at which the line from `(a0, b0)` to `(a1, b1)`
/// reaches the first ordinate `c`.
fn along_line(a0: i64, b0: i64, a1: i64, b1: i64, c: i64) -> (r: i64)
    requires
        a0 != a1,
        a0 <= c <= a1 || a1 <= c <= a0,
    ensures
        r == along(a0 as int, b0 as int, a1 as int, b1 as int, c as int),
{
    if a0 < a1 {
        ratio(a0, b0, a1, b1, c)
    } else {
        ratio(a1, b1, a0, b0, c)
    }
}

/// Whether `p` is on the inner side of edge `e` at `b`.
fn is_inside(p: Xy, e: Edge, b: i64) -> (r: bool)
    ensures
        r == inside(coord(p), e, b as int),
{
    match e {
        Edge::Left => p.0 >= b,
        Edge::Right => p.0 <= b,
        Edge::Bottom => p.1 >= b,
        Edge::Top => p.1 <= b,
    }
}

/// The position at which the segment from `p` to `q` meets edge `e` at `b`.
fn crossing(p: Xy, q: Xy, e: Edge, b: i64) -> (r: Xy)
    requires
        inside(coord(p), e, b as int) != inside(coord(q), e, b as int),
    ensures
        coord(r) == cross(coord(p), coord(q), e, b as int),
{
    match e {
        Edge::Left => (b, along_line(p.0, p.1, q.0, q.1, b)),
        Edge::Right => (b, along_line(p.0, p.1, q.0, q.1, b)),
        Edge::Bottom => (along_line(p.1, p.0, q.1, q.0, b), b),
        Edge::Top => (along_line(p.1, p.0, q.1, q.0, b), b),
    }
}

/// The product of two differences of ordinates: whether it is negative, and
/// its size.
fn product(a: i128, b: i128) -> (r: (bool, u128))
    requires
        -0x1_0000_0000_0000_0000 < a < 0x1_0000_0000_0000_0000,
        -0x1_0000_0000_0000_0000 < b < 0x1_0000_0000_0000_0000,
    ensures
        r.0 ==> a * b == -(r.1 as int) && r.1 > 0,
        !r.0 ==> a * b == r.1 as int,
{
    let ma: u128 = if a < 0 {
        (-a) as u128
    } else {
        a as u128
    };
    let mb: u128 = if b < 0 {
        (-b) as u128
    } else {
        b as u128
    };
    assert(ma * mb <= 0xffff_ffff_ffff_ffff * 0xffff_ffff_ffff_ffff) by (nonlinear_arith)
        requires
            ma <= 0xffff_ffff_ffff_ffff,
            mb <= 0xffff_ffff_ffff_ffff,
    ;
    let m: u128 = ma * mb;
    let negative = ((a < 0) != (b < 0)) && m != 0;
    proof {
        if (a < 0) != (b < 0) {
            assert(a * b == -(ma * mb)) by (nonlinear_arith)
                requires
                    (a < 0 && ma == -a && b >= 0 && mb == b) || (b < 0 && mb == -b && a >= 0 && ma
                        == a),
            ;
        } else {
            assert(a * b == ma * mb) by (nonlinear_arith)
                requires
                    (a < 0 && ma == -a && b < 0 && mb == -b) || (a >= 0 && ma == a && b >= 0 && mb
                        == b),
            ;
        }
    }
    (negative, m)
}

/// On which side of the line from `p` through `q` the position `c` lies: 1,
/// -1, or 0 for a position on the line.
fn side(p: Xy, q: Xy, c: Xy) -> (r: i8)
    ensures
        (r > 0) == (side_of(coord(p), coord(q), coord(c)) > 0),
        (r < 0) == (side_of(coord(p), coord(q), coord(c)) < 0),
{
    let x = product(q.0 as i128 - p.0 as i128, c.1 as i128 - p.1 as i128);
    let y = product(q.1 as i128 - p.1 as i128, c.0 as i128 - p.0 as i128);
    if x.0 && !y.0 {
        -1
    } else if !x.0 && y.0 {
        1
    } else if x.0 {
        if x.1 < y.1 {
            1
        } else if x.1 > y.1 {
            -1
        } else {
            0
        }
    } else {
        if x.1 > y.1 {
            1
        } else if x.1 < y.1 {
            -1
        } else {
            0
        }
    }
}

/// Whether the line through `p` and `q` passes the box `w` by.
fn passes(p: Xy, q: Xy, w: &Extent) -> (r: bool)
    ensures
        r == passes_by(coord(p), coord(q), w@),
{
    let a = side(p, q, (w.minx, w.miny));
    let b = side(p, q, (w.maxx, w.miny));
    let c = side(p, q, (w.maxx, w.maxy));
    let d = side(p, q, (w.minx, w.maxy));
    (a > 0 && b > 0 && c > 0 && d > 0) || (a < 0 && b < 0 && c < 0 && d < 0)
}

/// What is left of the segment from `p` to `q` in the box `w`.
fn clip_one(p: Xy, q: Xy, w: &Extent) -> (r: Option<(Xy, Xy)>)
    ensures
        segment(r) == clip_segment(coord(p), coord(q), w@),
{
    if passes(p, q, w) {
        return None;
    }
    let s1 = cut_segment(Some((p, q)), Edge::Left, w.minx);
    let s2 = cut_segment(s1, Edge::Right, w.maxx);
    let s3 = cut_segment(s2, Edge::Bottom, w.miny);
    cut_segment(s3, Edge::Top, w.maxy)
}

/// What is left of a segment on the inner side of edge `e` at `b`.
fn cut_segment(s: Option<(Xy, Xy)>, e: Edge, b: i64) -> (r: Option<(Xy, Xy)>)
    ensures
        segment(r) == cut(segment(s), e, b as int),
{
    match s {
        None => None,
        Some((p, q)) => {
            let p_in = is_inside(p, e, b);
            let q_in = is_inside(q, e, b);
            if p_in {
                if q_in {
                    s
                } else {
                    Some((p, crossing(p, q, e, b)))
                }
            } else if q_in {
                Some((crossing(p, q, e, b), q))
            } else {
                None
            }
        },
    }
}

/// The runs so far and the run that is still growing, as one list of runs.
pub open spec fn joined(done: Seq<Path>, current: Path) -> Seq<Path> {
    if current.len() > 0 {
        done.push(current)
    } else {
        done
    }
}

/// The runs in which the line `path` crosses the box `w`.
pub fn clip_line(path: &Vec<Xy>, w: &Extent) -> (parts: Vec<Vec<Xy>>)
    ensures
        paths(parts@) == clipped_line(coords(path@), w@),
{
    let mut done: Vec<Vec<Xy>> = Vec::new();
    let mut current: Vec<Xy> = Vec::new();
    if path.len() < 2 {
        assert(paths(done@) =~= Seq::<Path>::empty());
        return done;
    }
    let mut i: usize = 0;
    assert(joined(paths(done@), coords(current@)) =~= Seq::<Path>::empty());
    while i + 1 < path.len()
        invariant
            path.len() >= 2,
            i + 1 <= path.len(),
            current.len() == 0 ==> done.len() == 0,
            line_parts(coords(path@), w@, i as nat) == joined(paths(done@), coords(current@)),
        decreases path.len() - i,
    {
        let ghost before_parts = joined(paths(done@), coords(current@));
        let ghost before_done = paths(done@);
        let ghost before_current = coords(current@);
        let s4 = clip_one(path[i], path[i + 1], w);
        assert(segment(s4) == clip_segment(coords(path@)[i as int], coords(path@)[i + 1], w@));
        match s4 {
            Some((p, q)) => {
                if p.0 != q.0 || p.1 != q.1 {
                    let len = current.len();
                    if len > 0 && current[len - 1].0 == p.0 && current[len - 1].1 == p.1 {
                        current.push(q);
                        assert(coords(current@) =~= before_current.push(coord(q)));
                        assert(before_parts.last() == before_current);
                        assert(before_parts.drop_last() =~= before_done);
                    } else {
                        if len > 0 {
                            done.push(current);
                            assert(paths(done@) =~= before_done.push(before_current));
                        }
                        current = Vec::new();
                        current.push(p);
                        current.push(q);
                        assert(coords(current@) =~= seq![coord(p), coord(q)]);
                    }
                }
            },
            None => {},
        }
        i += 1;
    }
    if current.len() > 0 {
        let ghost before_done = paths(done@);
        let ghost last = coords(current@);
        done.push(current);
        assert(paths(done@) =~= before_done.push(last));
    }
    done
}

/// The ring cut at edge `e` at `b`.
fn cut_ring(ring: &Vec<Xy>, e: Edge, b: i64) -> (out: Vec<Xy>)
    ensures
        coords(out@) == ring_cut(coords(ring@), e, b as int, ring@.len()),
{
    let mut out: Vec<Xy> = Vec::new();
    let n = ring.len();
    if n == 0 {
        assert(coords(out@) =~= Seq::<Coord>::empty());
        return out;
    }
    let mut prev = ring[n - 1];
    let mut i: usize = 0;
    assert(coords(out@) =~= Seq::<Coord>::empty());
    while i < n
        invariant
            n == ring.len(),
            n > 0,
            i <= n,
            coord(prev) == before(coords(ring@), i as int),
            coords(out@) == ring_cut(coords(ring@), e, b as int, i as nat),
        decreases n - i,
    {
        let ghost head = coords(out@);
        let cur = ring[i];
        let cur_in = is_inside(cur, e, b);
        let prev_in = is_inside(prev, e, b);
        if cur_in {
            if !prev_in {
                out.push(crossing(prev, cur, e, b));
            }
            out.push(cur);
        } else if prev_in {
            out.push(crossing(prev, cur, e, b));
        }
        assert(coords(out@) =~= head + turn(coord(prev), coord(cur), e, b as int));
        prev = cur;
        i += 1;
    }
    out
}

/// The ring `ring`, given by its corners in order, cut at the four edges of
/// the box `w`.
pub fn clip_ring(ring: &Vec<Xy>, w: &Extent) -> (out: Vec<Xy>)
    ensures
        coords(out@) == clipped_ring(coords(ring@), w@),
{
    let a = cut_ring(ring, Edge::Left, w.minx);
    let b = cut_ring(&a, Edge::Right, w.maxx);
    let c = cut_ring(&b, Edge::Bottom, w.miny);
    cut_ring(&c, Edge::Top, w.maxy)
}

/// Whether `p` lies in the box `w`.
pub fn is_within(p: Xy, w: &Extent) -> (r: bool)
    ensures
        r == within(coord(p), w@),
{
    w.minx <= p.0 && p.0 <= w.maxx && w.miny <= p.1 && p.1 <= w.maxy
}

/// Those positions of `path` that lie in the box `w`, in their order.
pub fn clip_points(path: &Vec<Xy>, w: &Extent) -> (out: Vec<Xy>)
    ensures
        coords(out@) == visible(coords(path@), w@, path@.len()),
{
    let mut out: Vec<Xy> = Vec::new();
    let mut i: usize = 0;
    assert(coords(out@) =~= Seq::<Coord>::empty());
    while i < path.len()
        invariant
            i <= path.len(),
            coords(out@) == visible(coords(path@), w@, i as nat),
        decreases path.len() - i,
    {
        let ghost head = coords(out@);
        if is_within(path[i], w) {
            out.push(path[i]);
            assert(coords(out@) =~= head.push(coord(path[i as int])));
        }
        i += 1;
    }
    out
}

/// The ordinate at which edge `e` of the box `w` runs.
pub open spec fn bound(w: Bounds, e: Edge) -> int {
    match e {
        Edge::Left => w.minx,
        Edge::Right => w.maxx,
        Edge::Bottom => w.miny,
        Edge::Top => w.maxy,
    }
}

/// Every position of `path` is on the outer side of edge `e` at `b`.
pub open spec fn all_outside(path: Path, e: Edge, b: int) -> bool {
    forall|i: int| 0 <= i < path.len() ==> !inside(#[trigger] path[i], e, b)
}

/// Every position of every one of `paths` is on the outer side of edge `e`
/// at `b`.
pub open spec fn each_outside(paths: Seq<Path>, e: Edge, b: int) -> bool {
    forall|i: int| 0 <= i < paths.len() ==> all_outside(#[trigger] paths[i], e, b)
}

/// Both ends of a segment are on the outer side of edge `e` at `b`.
pub open spec fn ends_outside(s: Option<(Coord, Coord)>, e: Edge, b: int) -> bool {
    s matches Some((p, q)) ==> !inside(p, e, b) && !inside(q, e, b)
}

/// A position that lies between two positions on the outer side of an edge
/// is on the outer side of that edge.
proof fn lemma_between_outside(p: Coord, q: Coord, m: Coord, e: Edge, b: int)
    requires
        !inside(p, e, b),
        !inside(q, e, b),
        p.0 <= m.0 <= q.0 || q.0 <= m.0 <= p.0,
        p.1 <= m.1 <= q.1 || q.1 <= m.1 <= p.1,
    ensures
        !inside(m, e, b),
{
}

/// Cutting a segment at an edge leaves nothing of a segment on the outer
/// side of that edge, and leaves a segment on the outer side of every edge
/// that it was on the outer side of.
pub proof fn lemma_cut_outside(s: Option<(Coord, Coord)>, e: Edge, b: int, e2: Edge, b2: int)
    ensures
        ends_outside(s, e, b) ==> cut(s, e, b).is_none(),
        ends_outside(s, e2, b2) ==> ends_outside(cut(s, e, b), e2, b2),
{
    match s {
        None => {},
        Some((p, q)) => {
            if inside(p, e, b) != inside(q, e, b) {
                lemma_cross_between(p, q, e, b);
                if ends_outside(s, e2, b2) {
                    lemma_between_outside(p, q, cross(p, q, e, b), e2, b2);
                }
            }
        },
    }
}

/// Nothing is left in a box of a segment whose ends are both on the outer
/// side of one edge of the box.
pub proof fn lemma_clip_segment_outside(p: Coord, q: Coord, w: Bounds, e: Edge)
    requires
        !inside(p, e, bound(w, e)),
        !inside(q, e, bound(w, e)),
    ensures
        clip_segment(p, q, w).is_none(),
        cut_to(p, q, w).is_none(),
{
    let b = bound(w, e);
    let s0 = Some((p, q));
    let s1 = cut(s0, Edge::Left, w.minx);
    let s2 = cut(s1, Edge::Right, w.maxx);
    let s3 = cut(s2, Edge::Bottom, w.miny);
    lemma_cut_outside(s0, Edge::Left, w.minx, e, b);
    lemma_cut_outside(s1, Edge::Right, w.maxx, e, b);
    lemma_cut_outside(s2, Edge::Bottom, w.miny, e, b);
    lemma_cut_outside(s3, Edge::Top, w.maxy, e, b);
}

/// A line whose positions are all on the outer side of one edge of a box
/// has no run in the box.
pub proof fn lemma_line_outside(path: Path, w: Bounds, e: Edge, n: nat)
    requires
        all_outside(path, e, bound(w, e)),
        n < path.len(),
    ensures
        line_parts(path, w, n).len() == 0,
    decreases n,
{
    if n > 0 {
        lemma_line_outside(path, w, e, (n - 1) as nat);
        lemma_clip_segment_outside(path[n - 1], path[n as int], w, e);
    }
}

/// The segment from `p` to `q` lies apart from the box `w`: both its ends
/// are on the outer side of one edge of the box, or its line passes the box
/// by.
pub open spec fn apart(p: Coord, q: Coord, w: Bounds) -> bool {
    ||| passes_by(p, q, w)
    ||| exists|e: Edge| !inside(p, e, bound(w, e)) && !inside(q, e, bound(w, e))
}

/// Every segment of `path` lies apart from the box `w`.
pub open spec fn all_apart(path: Path, w: Bounds) -> bool {
    forall|i: int| 0 <= i < path.len() - 1 ==> #[trigger] apart(path[i], path[i + 1], w)
}

/// A line whose every segment lies apart from a box has no run in the box.
pub proof fn lemma_line_apart(path: Path, w: Bounds, n: nat)
    requires
        all_apart(path, w),
        n < path.len(),
    ensures
        line_parts(path, w, n).len() == 0,
    decreases n,
{
    if n > 0 {
        lemma_line_apart(path, w, (n - 1) as nat);
        let p = path[n - 1];
        let q = path[n as int];
        assert(apart(p, path[n - 1 + 1], w));
        if !passes_by(p, q, w) {
            let e = choose|e: Edge| !inside(p, e, bound(w, e)) && !inside(q, e, bound(w, e));
            lemma_clip_segment_outside(p, q, w, e);
        }
    }
}

/// Cutting a ring at an edge leaves nothing of a ring on the outer side of
/// that edge, and leaves a ring on the outer side of every edge that it was
/// on the outer side of.
pub proof fn lemma_ring_cut_outside(ring: Path, e: Edge, b: int, n: nat, e2: Edge, b2: int)
    requires
        n <= ring.len(),
    ensures
        all_outside(ring, e, b) ==> ring_cut(ring, e, b, n).len() == 0,
        all_outside(ring, e2, b2) ==> all_outside(ring_cut(ring, e, b, n), e2, b2),
    decreases n,
{
    if n > 0 {
        lemma_ring_cut_inside(ring, e, b, (n - 1) as nat, e2, b2);
        lemma_ring_cut_outside(ring, e, b, (n - 1) as nat, e2, b2);
        let prev = before(ring, n - 1);
        let cur = ring[n - 1];
        let head = ring_cut(ring, e, b, (n - 1) as nat);
        let tail = turn(prev, cur, e, b);
        if inside(prev, e, b) != inside(cur, e, b) {
            lemma_cross_between(prev, cur, e, b);
            if all_outside(ring, e2, b2) {
                lemma_between_outside(prev, cur, cross(prev, cur, e, b), e2, b2);
            }
        }
        if all_outside(ring, e2, b2) {
            assert forall|i: int| 0 <= i < (head + tail).len() implies !inside(
                #[trigger] (head + tail)[i],
                e2,
                b2,
            ) by {
                if i < head.len() {
                    assert((head + tail)[i] == head[i]);
                } else {
                    assert((head + tail)[i] == tail[i - head.len()]);
                }
            }
        }
    }
}

/// Nothing is left in a box of a ring whose corners are all on the outer
/// side of one edge of the box.
pub proof fn lemma_ring_outside(ring: Path, w: Bounds, e: Edge)
    requires
        all_outside(ring, e, bound(w, e)),
    ensures
        clipped_ring(ring, w).len() == 0,
{
    let x = bound(w, e);
    let a = ring_cut(ring, Edge::Left, w.minx, ring.len());
    let b = ring_cut(a, Edge::Right, w.maxx, a.len());
    let c = ring_cut(b, Edge::Bottom, w.miny, b.len());
    lemma_ring_cut_outside(ring, Edge::Left, w.minx, ring.len(), e, x);
    lemma_ring_cut_outside(a, Edge::Right, w.maxx, a.len(), e, x);
    lemma_ring_cut_outside(b, Edge::Bottom, w.miny, b.len(), e, x);
    lemma_ring_cut_outside(c, Edge::Top, w.maxy, c.len(), e, x);
}

} // verus!
