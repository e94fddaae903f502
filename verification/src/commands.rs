use vstd::prelude::*;
use crate::clip::{coord, coords, Xy};
use crate::error::TileError;
use crate::geom::{Coord, Path};
use crate::screen::{all_on_tile, on_tile, Drawing, GeomType, Sketch, MAX_TILE_SIZE};

verus! {

/// The command that moves the cursor without drawing.
pub const MOVE_TO: u32 = 1;

/// The command that draws a straight line from the cursor.
pub const LINE_TO: u32 = 2;

/// The command that closes a ring.
pub const CLOSE_PATH: u32 = 7;

/// One more than the largest count that a command can carry.
pub const COUNT_LIMIT: usize = 0x2000_0000;

/// A signed number as a parameter: non-negative numbers become even,
/// negative numbers odd.
pub open spec fn zigzag(v: int) -> u32 {
    if v >= 0 {
        (2 * v) as u32
    } else {
        (-2 * v - 1) as u32
    }
}

/// The command `id`, to be carried out `count` times: the id in the lowest
/// three bits, the count above them.
pub open spec fn command(id: u32, count: int) -> u32 {
    (id + count * 8) as u32
}

/// The position before position `i` of `path`, for a cursor that starts at
/// `from`.
pub open spec fn prior(path: Path, from: Coord, i: int) -> Coord {
    if i == 0 {
        from
    } else {
        path[i - 1]
    }
}

/// The two parameters that move the cursor from `p` to `q`.
pub open spec fn step(p: Coord, q: Coord) -> Seq<u32> {
    seq![zigzag(q.0 - p.0), zigzag(q.1 - p.1)]
}

/// The parameters that take the cursor through the positions `lo` up to
/// `hi` of `path`, each as the step from the position before it.
pub open spec fn deltas(path: Path, from: Coord, lo: int, hi: int) -> Seq<u32>
    decreases hi - lo,
{
    if hi <= lo {
        Seq::empty()
    } else {
        deltas(path, from, lo, hi - 1) + step(prior(path, from, hi - 1), path[hi - 1])
    }
}

/// The commands for one part of a drawing, with the cursor at `from`: for
/// points a single move through all of them; for a run a move to its first
/// position and lines to the others; for a ring the same and a closing of
/// the path.
pub open spec fn part_commands(kind: GeomType, path: Path, from: Coord) -> Seq<u32> {
    match kind {
        GeomType::Point => seq![command(MOVE_TO, path.len() as int)] + deltas(
            path,
            from,
            0,
            path.len() as int,
        ),
        GeomType::LineString => seq![command(MOVE_TO, 1)] + deltas(path, from, 0, 1) + seq![
            command(LINE_TO, path.len() - 1),
        ] + deltas(path, from, 1, path.len() as int),
        GeomType::Polygon => seq![command(MOVE_TO, 1)] + deltas(path, from, 0, 1) + seq![
            command(LINE_TO, path.len() - 1),
        ] + deltas(path, from, 1, path.len() as int) + seq![command(CLOSE_PATH, 1)],
    }
}

/// Where the cursor is after the first `n` parts: at the origin before the
/// first part, and at the last position of a part after it.
pub open spec fn cursor(parts: Seq<Path>, n: nat) -> Coord
    decreases n,
{
    if n == 0 {
        (0, 0)
    } else if parts[n - 1].len() > 0 {
        parts[n - 1].last()
    } else {
        cursor(parts, (n - 1) as nat)
    }
}

/// The commands for the first `n` parts of a drawing.
pub open spec fn commands(kind: GeomType, parts: Seq<Path>, n: nat) -> Seq<u32>
    decreases n,
{
    if n == 0 {
        Seq::empty()
    } else {
        commands(kind, parts, (n - 1) as nat) + part_commands(
            kind,
            parts[n - 1],
            cursor(parts, (n - 1) as nat),
        )
    }
}

/// The command stream of a drawing.
pub open spec fn geometry_commands(s: Sketch) -> Seq<u32> {
    commands(s.kind, s.parts, s.parts.len())
}

/// The fewest positions that a part of the given kind can have.
pub open spec fn least(kind: GeomType) -> int {
    match kind {
        GeomType::Point => 1,
        GeomType::LineString => 2,
        GeomType::Polygon => 3,
    }
}

/// The most positions that a part of the given kind can have.
pub open spec fn most(kind: GeomType) -> int {
    match kind {
        GeomType::Point => COUNT_LIMIT - 1,
        GeomType::LineString => COUNT_LIMIT as int,
        GeomType::Polygon => COUNT_LIMIT as int,
    }
}

/// A part can be written as commands: it has a number of positions that its
/// kind allows and that the count of a command can hold, and each position
/// is one of a tile.
pub open spec fn part_encodable(kind: GeomType, path: Path) -> bool {
    least(kind) <= path.len() <= most(kind) && all_on_tile(path, MAX_TILE_SIZE as int)
}

/// Every part of the drawing can be written as commands.
pub open spec fn encodable(s: Sketch) -> bool {
    forall|i: int| 0 <= i < s.parts.len() ==> part_encodable(s.kind, #[trigger] s.parts[i])
}

/// The parameter for a step of `d`.
fn zigzag_of(d: i64) -> (r: u32)
    requires
        -0x8000_0000 < d < 0x8000_0000,
    ensures
        r == zigzag(d as int),
{
    if d >= 0 {
        (2 * d) as u32
    } else {
        let m: i64 = -d;
        (2 * m - 1) as u32
    }
}

/// The command `id` with the count `count`.
fn command_of(id: u32, count: usize) -> (r: u32)
    requires
        id < 8,
        count < COUNT_LIMIT,
    ensures
        r == command(id, count as int),
{
    id + (count as u32) * 8
}

/// Appends the steps through the positions `lo` up to `hi` of `path`.
fn push_deltas(out: &mut Vec<u32>, path: &Vec<Xy>, from: Xy, lo: usize, hi: usize)
    requires
        lo <= hi <= path.len(),
        all_on_tile(coords(path@), MAX_TILE_SIZE as int),
        on_tile(coord(from), MAX_TILE_SIZE as int),
    ensures
        final(out)@ == old(out)@ + deltas(coords(path@), coord(from), lo as int, hi as int),
{
    let mut i: usize = lo;
    assert(out@ =~= old(out)@ + deltas(coords(path@), coord(from), lo as int, lo as int));
    while i < hi
        invariant
            lo <= i <= hi <= path.len(),
            all_on_tile(coords(path@), MAX_TILE_SIZE as int),
            on_tile(coord(from), MAX_TILE_SIZE as int),
            out@ == old(out)@ + deltas(coords(path@), coord(from), lo as int, i as int),
        decreases hi - i,
    {
        let ghost head = out@;
        let prev = if i == 0 {
            from
        } else {
            path[i - 1]
        };
        let cur = path[i];
        assert(coord(prev) == prior(coords(path@), coord(from), i as int));
        assert(on_tile(coords(path@)[i as int], MAX_TILE_SIZE as int));
        if i > 0 {
            assert(on_tile(coords(path@)[i - 1], MAX_TILE_SIZE as int));
        }
        out.push(zigzag_of(cur.0 - prev.0));
        out.push(zigzag_of(cur.1 - prev.1));
        assert(out@ =~= head + step(coord(prev), coord(cur)));
        i += 1;
    }
}

/// Appends the commands for one part.
fn push_part(out: &mut Vec<u32>, kind: GeomType, path: &Vec<Xy>, from: Xy)
    requires
        part_encodable(kind, coords(path@)),
        on_tile(coord(from), MAX_TILE_SIZE as int),
    ensures
        final(out)@ == old(out)@ + part_commands(kind, coords(path@), coord(from)),
{
    let n = path.len();
    match kind {
        GeomType::Point => {
            out.push(command_of(MOVE_TO, n));
            push_deltas(out, path, from, 0, n);
        },
        GeomType::LineString => {
            out.push(command_of(MOVE_TO, 1));
            push_deltas(out, path, from, 0, 1);
            out.push(command_of(LINE_TO, n - 1));
            push_deltas(out, path, from, 1, n);
        },
        GeomType::Polygon => {
            out.push(command_of(MOVE_TO, 1));
            push_deltas(out, path, from, 0, 1);
            out.push(command_of(LINE_TO, n - 1));
            push_deltas(out, path, from, 1, n);
            out.push(command_of(CLOSE_PATH, 1));
        },
    }
    assert(out@ =~= old(out)@ + part_commands(kind, coords(path@), coord(from)));
}

/// Whether a part can be written as commands.
fn can_encode(kind: GeomType, path: &Vec<Xy>) -> (r: bool)
    ensures
        r == part_encodable(kind, coords(path@)),
{
    let n = path.len();
    let fits = match kind {
        GeomType::Point => 1 <= n && n < COUNT_LIMIT,
        GeomType::LineString => 2 <= n && n <= COUNT_LIMIT,
        GeomType::Polygon => 3 <= n && n <= COUNT_LIMIT,
    };
    if !fits {
        return false;
    }
    let mut i: usize = 0;
    while i < n
        invariant
            n == path.len(),
            i <= n,
            forall|j: int| 0 <= j < i ==> on_tile(#[trigger] coords(path@)[j], MAX_TILE_SIZE as int),
        decreases n - i,
    {
        let p = path[i];
        if p.0 < 0 || p.0 >= MAX_TILE_SIZE as i64 || p.1 < 0 || p.1 >= MAX_TILE_SIZE as i64 {
            assert(!on_tile(coords(path@)[i as int], MAX_TILE_SIZE as int));
            return false;
        }
        i += 1;
    }
    true
}

/// The command stream of a drawing.
///
/// Fails with `EncodingInvariantViolation` exactly where a part of the
/// drawing cannot be written as commands.
pub fn encode_geometry(d: &Drawing) -> (r: Result<Vec<u32>, TileError>)
    ensures
        match r {
            Ok(words) => encodable(d@) && words@ == geometry_commands(d@),
            Err(e) => e == TileError::EncodingInvariantViolation && !encodable(d@),
        },
{
    let mut out: Vec<u32> = Vec::new();
    let mut at: Xy = (0, 0);
    let mut i: usize = 0;
    while i < d.parts.len()
        invariant
            i <= d.parts.len(),
            forall|j: int| 0 <= j < i ==> part_encodable(d.kind, #[trigger] d@.parts[j]),
            coord(at) == cursor(d@.parts, i as nat),
            on_tile(coord(at), MAX_TILE_SIZE as int),
            out@ == commands(d.kind, d@.parts, i as nat),
        decreases d.parts.len() - i,
    {
        let part = &d.parts[i];
        assert(d@.parts[i as int] == coords(part@));
        if !can_encode(d.kind, part) {
            return Err(TileError::EncodingInvariantViolation);
        }
        push_part(&mut out, d.kind, part, at);
        at = part[part.len() - 1];
        assert(coord(at) == coords(part@).last());
        i += 1;
    }
    Ok(out)
}

/// The step that a parameter stands for.
pub open spec fn unzigzag(w: u32) -> int {
    if w % 2 == 0 {
        w as int / 2
    } else {
        -((w as int + 1) / 2)
    }
}

/// The positions that `count` steps lead through, for a cursor at `from`
/// and the parameters of the steps at `at` in `words`.
pub open spec fn walk(words: Seq<u32>, at: int, from: Coord, count: nat) -> Path
    decreases count,
{
    if count == 0 {
        Seq::empty()
    } else {
        let head = walk(words, at, from, (count - 1) as nat);
        let prev = if count == 1 {
            from
        } else {
            head.last()
        };
        head.push(
            (
                prev.0 + unzigzag(words[at + 2 * (count - 1)]),
                prev.1 + unzigzag(words[at + 2 * (count - 1) + 1]),
            ),
        )
    }
}

/// The count that a command carries.
pub open spec fn count_of(word: u32) -> nat {
    (word / 8) as nat
}

/// The part of the given kind that the commands at `at` in `words` draw with
/// the cursor at `from`, and where the commands of the next part begin.
pub open spec fn read_part(kind: GeomType, words: Seq<u32>, at: int, from: Coord) -> (Path, int) {
    match kind {
        GeomType::Point => {
            let n = count_of(words[at]);
            (walk(words, at + 1, from, n), at + 1 + 2 * n)
        },
        GeomType::LineString => {
            let first = walk(words, at + 1, from, 1);
            let n = count_of(words[at + 3]);
            (first + walk(words, at + 4, first.last(), n), at + 4 + 2 * n)
        },
        GeomType::Polygon => {
            let first = walk(words, at + 1, from, 1);
            let n = count_of(words[at + 3]);
            (first + walk(words, at + 4, first.last(), n), at + 5 + 2 * n)
        },
    }
}

/// The parts of the given kind that the commands from `at` on in `words`
/// draw, with the cursor at `from`. Reading ends where the commands end, and
/// with a part that runs beyond them.
pub open spec fn decoded(kind: GeomType, words: Seq<u32>, at: int, from: Coord) -> Seq<Path>
    decreases words.len() - at,
{
    if at < 0 || at >= words.len() {
        Seq::empty()
    } else {
        let part = read_part(kind, words, at, from);
        let end = if part.0.len() > 0 {
            part.0.last()
        } else {
            from
        };
        if at < part.1 <= words.len() {
            seq![part.0] + decoded(kind, words, part.1, end)
        } else {
            seq![part.0]
        }
    }
}

/// A step that fits in 32 bits is read back from its parameter.
pub proof fn lemma_zigzag_back(v: int)
    requires
        -0x8000_0000 <= v < 0x8000_0000,
    ensures
        unzigzag(zigzag(v)) == v,
{
}

/// The count of a command is read back from the command.
pub proof fn lemma_count_back(id: u32, count: int)
    requires
        id < 8,
        0 <= count < COUNT_LIMIT,
    ensures
        count_of(command(id, count)) == count,
{
}

proof fn lemma_deltas_len(path: Path, from: Coord, lo: int, hi: int)
    requires
        lo <= hi,
    ensures
        deltas(path, from, lo, hi).len() == 2 * (hi - lo),
    decreases hi - lo,
{
    if lo < hi {
        lemma_deltas_len(path, from, lo, hi - 1);
    }
}

/// The word `i` places after place `at`.
pub open spec fn word(words: Seq<u32>, at: int, i: int) -> u32 {
    words[at + i]
}

/// A walk reads the parameters of its steps and nothing else.
proof fn lemma_walk_same(
    a: Seq<u32>,
    at_a: int,
    b: Seq<u32>,
    at_b: int,
    from: Coord,
    count: nat,
)
    requires
        forall|i: int| 0 <= i < 2 * count ==> #[trigger] word(a, at_a, i) == word(b, at_b, i),
    ensures
        walk(a, at_a, from, count) == walk(b, at_b, from, count),
    decreases count,
{
    if count > 0 {
        lemma_walk_same(a, at_a, b, at_b, from, (count - 1) as nat);
        assert(word(a, at_a, 2 * (count - 1)) == word(b, at_b, 2 * (count - 1)));
        assert(word(a, at_a, 2 * (count - 1) + 1) == word(b, at_b, 2 * (count - 1) + 1));
    }
}

/// Walking the steps through positions of a tile leads through these
/// positions.
proof fn lemma_walk_deltas(path: Path, from: Coord, lo: int, hi: int)
    requires
        0 <= lo <= hi <= path.len(),
        all_on_tile(path, MAX_TILE_SIZE as int),
        on_tile(from, MAX_TILE_SIZE as int),
    ensures
        walk(deltas(path, from, lo, hi), 0, prior(path, from, lo), (hi - lo) as nat)
            == path.subrange(lo, hi),
    decreases hi - lo,
{
    let start = prior(path, from, lo);
    if lo < hi {
        let all = deltas(path, from, lo, hi);
        let most = deltas(path, from, lo, hi - 1);
        let prev = prior(path, from, hi - 1);
        let last = path[hi - 1];
        lemma_walk_deltas(path, from, lo, hi - 1);
        lemma_deltas_len(path, from, lo, hi - 1);
        assert forall|i: int| 0 <= i < 2 * (hi - 1 - lo) implies #[trigger] word(all, 0, i)
            == word(most, 0, i) by {
            assert(all[i] == most[i]);
        }
        lemma_walk_same(all, 0, most, 0, start, (hi - 1 - lo) as nat);
        assert(on_tile(last, MAX_TILE_SIZE as int));
        if hi - 1 > 0 {
            assert(on_tile(path[hi - 2], MAX_TILE_SIZE as int));
        }
        lemma_zigzag_back(last.0 - prev.0);
        lemma_zigzag_back(last.1 - prev.1);
        let head = walk(all, 0, start, (hi - 1 - lo) as nat);
        assert(head == path.subrange(lo, hi - 1));
        assert(all[2 * (hi - lo - 1)] == zigzag(last.0 - prev.0));
        assert(all[2 * (hi - lo - 1) + 1] == zigzag(last.1 - prev.1));
        if hi - lo > 1 {
            assert(head.last() == path[hi - 2]);
        }
        assert(walk(all, 0, start, (hi - lo) as nat) =~= path.subrange(lo, hi));
    } else {
        assert(path.subrange(lo, hi) =~= Seq::<Coord>::empty());
    }
}

/// The commands of a part are read back as the part.
proof fn lemma_read_part(kind: GeomType, words: Seq<u32>, at: int, path: Path, from: Coord)
    requires
        part_encodable(kind, path),
        on_tile(from, MAX_TILE_SIZE as int),
        0 <= at,
        at + part_commands(kind, path, from).len() <= words.len(),
        words.subrange(at, at + part_commands(kind, path, from).len()) == part_commands(
            kind,
            path,
            from,
        ),
    ensures
        read_part(kind, words, at, from) == (path, at + part_commands(kind, path, from).len()),
{
    let made = part_commands(kind, path, from);
    let n = path.len() as int;
    assert forall|i: int| 0 <= i < made.len() implies #[trigger] word(words, at, i) == made[i] by {
        assert(words.subrange(at, at + made.len())[i] == words[at + i]);
    }
    lemma_deltas_len(path, from, 0, n);
    lemma_deltas_len(path, from, 0, 1);
    lemma_deltas_len(path, from, 1, n);
    match kind {
        GeomType::Point => {
            let steps = deltas(path, from, 0, n);
            assert(made[0] == command(MOVE_TO, n));
            lemma_count_back(MOVE_TO, n);
            lemma_walk_deltas(path, from, 0, n);
            assert forall|i: int| 0 <= i < 2 * n implies #[trigger] word(words, at + 1, i)
                == word(steps, 0, i) by {
                assert(made[1 + i] == steps[i]);
                assert(word(words, at, 1 + i) == made[1 + i]);
            }
            lemma_walk_same(words, at + 1, steps, 0, from, n as nat);
            assert(path.subrange(0, n) =~= path);
        },
        GeomType::LineString | GeomType::Polygon => {
            let first = deltas(path, from, 0, 1);
            let rest = deltas(path, from, 1, n);
            assert(made[0] == command(MOVE_TO, 1));
            assert(made[3] == command(LINE_TO, n - 1));
            lemma_count_back(LINE_TO, n - 1);
            lemma_walk_deltas(path, from, 0, 1);
            lemma_walk_deltas(path, from, 1, n);
            assert forall|i: int| 0 <= i < 2 implies #[trigger] word(words, at + 1, i) == word(
                first,
                0,
                i,
            ) by {
                assert(made[1 + i] == first[i]);
                assert(word(words, at, 1 + i) == made[1 + i]);
            }
            assert forall|i: int| 0 <= i < 2 * (n - 1) implies #[trigger] word(words, at + 4, i)
                == word(rest, 0, i) by {
                assert(made[4 + i] == rest[i]);
                assert(word(words, at, 4 + i) == made[4 + i]);
            }
            lemma_walk_same(words, at + 1, first, 0, from, 1);
            lemma_walk_same(words, at + 4, rest, 0, path[0], (n - 1) as nat);
            assert(path.subrange(0, 1).last() == path[0]);
            assert(path.subrange(0, 1) + path.subrange(1, n) =~= path);
        },
    }
}

/// The commands for more parts begin with the commands for fewer.
proof fn lemma_commands_grow(kind: GeomType, parts: Seq<Path>, k: nat, n: nat)
    requires
        k <= n,
    ensures
        commands(kind, parts, k).len() <= commands(kind, parts, n).len(),
        commands(kind, parts, n).subrange(0, commands(kind, parts, k).len() as int) == commands(
            kind,
            parts,
            k,
        ),
    decreases n - k,
{
    if k < n {
        lemma_commands_grow(kind, parts, k, (n - 1) as nat);
        let short = commands(kind, parts, k);
        let most = commands(kind, parts, (n - 1) as nat);
        let all = commands(kind, parts, n);
        assert(all.subrange(0, short.len() as int) =~= most.subrange(0, short.len() as int));
    } else {
        assert(commands(kind, parts, n).subrange(0, commands(kind, parts, n).len() as int)
            =~= commands(kind, parts, n));
    }
}

/// The cursor stays on the tile while it goes through parts on the tile.
proof fn lemma_cursor_on_tile(kind: GeomType, parts: Seq<Path>, k: nat)
    requires
        k <= parts.len(),
        forall|i: int| 0 <= i < parts.len() ==> part_encodable(kind, #[trigger] parts[i]),
    ensures
        on_tile(cursor(parts, k), MAX_TILE_SIZE as int),
        k > 0 ==> cursor(parts, k) == parts[k - 1].last(),
    decreases k,
{
    if k > 0 {
        assert(part_encodable(kind, parts[k - 1]));
        let path = parts[k - 1];
        assert(on_tile(path[path.len() - 1], MAX_TILE_SIZE as int));
    }
}

/// Reading the commands from the beginning of part `k` on gives the parts
/// from part `k` on.
proof fn lemma_decoded_from(kind: GeomType, parts: Seq<Path>, k: nat)
    requires
        k <= parts.len(),
        forall|i: int| 0 <= i < parts.len() ==> part_encodable(kind, #[trigger] parts[i]),
    ensures
        decoded(
            kind,
            commands(kind, parts, parts.len()),
            commands(kind, parts, k).len() as int,
            cursor(parts, k),
        ) == parts.subrange(k as int, parts.len() as int),
    decreases parts.len() - k,
{
    let n = parts.len();
    let words = commands(kind, parts, n);
    let at = commands(kind, parts, k).len() as int;
    let from = cursor(parts, k);
    lemma_commands_grow(kind, parts, k, n);
    lemma_cursor_on_tile(kind, parts, k);
    if k < n {
        let path = parts[k as int];
        let made = part_commands(kind, path, from);
        let next = commands(kind, parts, (k + 1) as nat).len() as int;
        lemma_commands_grow(kind, parts, (k + 1) as nat, n);
        lemma_cursor_on_tile(kind, parts, (k + 1) as nat);
        lemma_decoded_from(kind, parts, (k + 1) as nat);
        assert(part_encodable(kind, path));
        assert(next == at + made.len());
        assert(words.subrange(at, next) =~= made) by {
            let longer = commands(kind, parts, (k + 1) as nat);
            assert(words.subrange(0, next) == longer);
            assert forall|i: int| 0 <= i < made.len() implies #[trigger] words.subrange(at, next)[i]
                == made[i] by {
                assert(words.subrange(0, next)[at + i] == words[at + i]);
                assert(longer[at + i] == made[i]);
            }
        }
        lemma_read_part(kind, words, at, path, from);
        assert(made.len() > 0);
        assert(parts.subrange(k as int, n as int) =~= seq![path] + parts.subrange(
            k as int + 1,
            n as int,
        ));
    } else {
        assert(parts.subrange(k as int, n as int) =~= Seq::<Path>::empty());
    }
}

/// A command stream is read back as the drawing that it was written for:
/// reading the commands of a drawing from the beginning, with the cursor at
/// the origin, gives the parts of the drawing, position for position.
pub proof fn lemma_commands_decode(s: Sketch)
    requires
        encodable(s),
    ensures
        decoded(s.kind, geometry_commands(s), 0, (0, 0)) == s.parts,
{
    lemma_decoded_from(s.kind, s.parts, 0);
    assert(s.parts.subrange(0, s.parts.len() as int) =~= s.parts);
}

} // verus!
