use vstd::prelude::*;
use rayon::iter::{IndexedParallelIterator, IntoParallelRefIterator};
use crate::cell::{side_index, side_named, Coord, RIGHT, TOP};

verus! {

/// Side length of one cell in drawing units.
pub const CELL_SIZE: i32 = 3;

/// The largest height or width whose drawing coordinates fit in an `i32`.
pub const MAX_SIDE: usize = 715827882;

/// An axis-aligned wall segment in drawing units.
#[derive(PartialEq, Eq, Structural, Hash, Clone, Copy, Debug)]
pub struct SvgLine {
    pub x1: i32,
    pub y1: i32,
    pub x2: i32,
    pub y2: i32,
}

enum WallDirection {
    Vertical,
    Horizontal,
}

/// The walls still standing, as merged segments: one list per horizontal
/// boundary line (`height + 1` of them) and one per vertical boundary line
/// (`width + 1`).
pub struct MazeSvg {
    horiz_walls: Vec<Vec<SvgLine>>,
    vert_walls: Vec<Vec<SvgLine>>,
    height: usize,
    width: usize,
}

/// Where a segment starts along its own line.
pub open spec fn seg_lo(s: SvgLine, horizontal: bool) -> int {
    if horizontal { s.x1 as int } else { s.y1 as int }
}

/// Where a segment ends along its own line.
pub open spec fn seg_hi(s: SvgLine, horizontal: bool) -> int {
    if horizontal { s.x2 as int } else { s.y2 as int }
}

/// The segment lies on boundary line `pos`, is not empty, starts and ends on
/// cell corners, and stays within a line of `len` cells.
pub open spec fn seg_on_line(s: SvgLine, horizontal: bool, pos: int, len: int) -> bool {
    &&& if horizontal {
        s.y1 == CELL_SIZE * pos && s.y2 == CELL_SIZE * pos
    } else {
        s.x1 == CELL_SIZE * pos && s.x2 == CELL_SIZE * pos
    }
    &&& 0 <= seg_lo(s, horizontal) < seg_hi(s, horizontal) <= CELL_SIZE * len
    &&& seg_lo(s, horizontal) % CELL_SIZE as int == 0
    &&& seg_hi(s, horizontal) % CELL_SIZE as int == 0
}

/// Two segments of one line share no stretch of it.
pub open spec fn seg_disjoint(a: SvgLine, b: SvgLine, horizontal: bool) -> bool {
    seg_hi(a, horizontal) <= seg_lo(b, horizontal) || seg_hi(b, horizontal) <= seg_lo(a, horizontal)
}

/// Every segment of the line lies on it, and no two of them overlap.
pub open spec fn line_wf(line: Seq<SvgLine>, horizontal: bool, pos: int, len: int) -> bool {
    &&& forall|i: int| 0 <= i < line.len() ==> #[trigger] seg_on_line(line[i], horizontal, pos, len)
    &&& forall|i: int, j: int|
        0 <= i < line.len() && 0 <= j < line.len() && i != j ==> #[trigger] seg_disjoint(
            line[i],
            line[j],
            horizontal,
        )
}

/// The segment covers the side of cell `k` that lies on its line.
pub open spec fn covers_unit(s: SvgLine, horizontal: bool, k: int) -> bool {
    seg_lo(s, horizontal) <= CELL_SIZE * k && CELL_SIZE * k + CELL_SIZE <= seg_hi(s, horizontal)
}

/// The side of cell `k` on this line is drawn by one of its segments.
pub open spec fn unit_stands(line: Seq<SvgLine>, horizontal: bool, k: int) -> bool {
    exists|i: int| 0 <= i < line.len() && #[trigger] covers_unit(line[i], horizontal, k)
}

/// The wall of one cell side: cell `k` along boundary line `pos`.
pub open spec fn unit_wall(horizontal: bool, pos: int, k: int) -> SvgLine {
    if horizontal {
        SvgLine {
            x1: (CELL_SIZE * k) as i32,
            y1: (CELL_SIZE * pos) as i32,
            x2: (CELL_SIZE * k + CELL_SIZE) as i32,
            y2: (CELL_SIZE * pos) as i32,
        }
    } else {
        SvgLine {
            x1: (CELL_SIZE * pos) as i32,
            y1: (CELL_SIZE * k) as i32,
            x2: (CELL_SIZE * pos) as i32,
            y2: (CELL_SIZE * k + CELL_SIZE) as i32,
        }
    }
}

/// The whole boundary line `pos`, `len` cells long.
pub open spec fn full_line(horizontal: bool, pos: int, len: int) -> SvgLine {
    if horizontal {
        SvgLine {
            x1: 0,
            y1: (CELL_SIZE * pos) as i32,
            x2: (CELL_SIZE * len) as i32,
            y2: (CELL_SIZE * pos) as i32,
        }
    } else {
        SvgLine {
            x1: (CELL_SIZE * pos) as i32,
            y1: 0,
            x2: (CELL_SIZE * pos) as i32,
            y2: (CELL_SIZE * len) as i32,
        }
    }
}

/// `outer` contains `inner`: both ends of `inner` lie within the ranges of `outer`.
pub open spec fn contains_spec(inner: SvgLine, outer: SvgLine) -> bool {
    &&& inner.x1 >= outer.x1 && inner.x2 <= outer.x2
    &&& inner.y1 >= outer.y1 && inner.y2 <= outer.y2
}

/// What is left of `outer` once `inner` is cut out of it: the part before
/// `inner`, then the part after it, each only where it is not empty.
pub open spec fn residue(outer: SvgLine, inner: SvgLine) -> Seq<SvgLine> {
    let before = if outer.x1 == inner.x1 && outer.y1 == inner.y1 {
        Seq::<SvgLine>::empty()
    } else {
        seq![SvgLine { x1: outer.x1, y1: outer.y1, x2: inner.x1, y2: inner.y1 }]
    };
    let after = if outer.x2 == inner.x2 && outer.y2 == inner.y2 {
        Seq::<SvgLine>::empty()
    } else {
        seq![SvgLine { x1: inner.x2, y1: inner.y2, x2: outer.x2, y2: outer.y2 }]
    };
    before + after
}

/// On a well-formed line, a segment contains the wall of a cell side exactly
/// when it covers that side.
proof fn lemma_contains_iff_covers(s: SvgLine, horizontal: bool, pos: int, len: int, k: int)
    requires
        seg_on_line(s, horizontal, pos, len),
        0 <= k < len,
        CELL_SIZE * len <= i32::MAX,
        CELL_SIZE * pos <= i32::MAX,
        0 <= pos,
    ensures
        contains_spec(unit_wall(horizontal, pos, k), s) == covers_unit(s, horizontal, k),
{
}

/// Cutting the wall of one cell side out of the segment that covers it keeps
/// the line well formed, and takes down that side and nothing else.
proof fn lemma_cut_unit(line: Seq<SvgLine>, i: int, horizontal: bool, pos: int, len: int, k: int)
    requires
        line_wf(line, horizontal, pos, len),
        0 <= i < line.len(),
        0 <= k < len,
        0 <= pos,
        CELL_SIZE * len <= i32::MAX,
        CELL_SIZE * pos <= i32::MAX,
        covers_unit(line[i], horizontal, k),
    ensures
        ({
            let cut = line.remove(i) + residue(line[i], unit_wall(horizontal, pos, k));
            &&& line_wf(cut, horizontal, pos, len)
            &&& forall|j: int|
                #[trigger] unit_stands(cut, horizontal, j) == (unit_stands(line, horizontal, j) && j
                    != k)
        }),
{
    let s = line[i];
    let w = unit_wall(horizontal, pos, k);
    let rest = line.remove(i);
    let r = residue(s, w);
    let cut = rest + r;
    assert(seg_on_line(s, horizontal, pos, len));
    // every piece of the residue lies within `s`, on the line, and away from cell `k`
    assert forall|p: int| 0 <= p < r.len() implies {
        &&& #[trigger] seg_on_line(r[p], horizontal, pos, len)
        &&& seg_lo(s, horizontal) <= seg_lo(r[p], horizontal)
        &&& seg_hi(r[p], horizontal) <= seg_hi(s, horizontal)
        &&& (seg_hi(r[p], horizontal) <= CELL_SIZE * k || CELL_SIZE * k + CELL_SIZE <= seg_lo(
            r[p],
            horizontal,
        ))
    } by {}
    assert forall|p: int, q: int| 0 <= p < r.len() && 0 <= q < r.len() && p != q implies
        #[trigger] seg_disjoint(r[p], r[q], horizontal) by {}
    assert forall|m: int| 0 <= m < rest.len() implies {
        &&& #[trigger] rest[m] == if m < i { line[m] } else { line[m + 1] }
        &&& seg_disjoint(rest[m], s, horizontal)
    } by {
        if m < i {
            assert(seg_disjoint(line[m], line[i], horizontal));
        } else {
            assert(seg_disjoint(line[m + 1], line[i], horizontal));
        }
    }
    assert forall|a: int| 0 <= a < cut.len() implies #[trigger] seg_on_line(
        cut[a],
        horizontal,
        pos,
        len,
    ) by {
        if a < rest.len() {
            assert(cut[a] == rest[a]);
            if a < i {
                assert(seg_on_line(line[a], horizontal, pos, len));
            } else {
                assert(seg_on_line(line[a + 1], horizontal, pos, len));
            }
        } else {
            assert(cut[a] == r[a - rest.len()]);
            assert(seg_on_line(r[a - rest.len()], horizontal, pos, len));
        }
    }
    assert forall|a: int, b: int| 0 <= a < cut.len() && 0 <= b < cut.len() && a != b implies
        #[trigger] seg_disjoint(cut[a], cut[b], horizontal) by {
        if a < rest.len() && b < rest.len() {
            let ma = if a < i { a } else { a + 1 };
            let mb = if b < i { b } else { b + 1 };
            assert(cut[a] == line[ma]);
            assert(cut[b] == line[mb]);
            assert(seg_disjoint(line[ma], line[mb], horizontal));
        } else if a < rest.len() {
            assert(cut[a] == rest[a]);
            assert(seg_disjoint(rest[a], s, horizontal));
            assert(cut[b] == r[b - rest.len()]);
            assert(seg_on_line(r[b - rest.len()], horizontal, pos, len));
        } else if b < rest.len() {
            assert(cut[b] == rest[b]);
            assert(seg_disjoint(rest[b], s, horizontal));
            assert(cut[a] == r[a - rest.len()]);
            assert(seg_on_line(r[a - rest.len()], horizontal, pos, len));
        } else {
            assert(cut[a] == r[a - rest.len()]);
            assert(cut[b] == r[b - rest.len()]);
            assert(seg_disjoint(r[a - rest.len()], r[b - rest.len()], horizontal));
        }
    }
    assert forall|j: int| #[trigger]
        unit_stands(cut, horizontal, j) == (unit_stands(line, horizontal, j) && j != k) by {
        if unit_stands(cut, horizontal, j) {
            let a = choose|a: int| 0 <= a < cut.len() && #[trigger] covers_unit(cut[a], horizontal, j);
            if a < rest.len() {
                let m = if a < i { a } else { a + 1 };
                assert(cut[a] == line[m]);
                assert(covers_unit(line[m], horizontal, j));
                assert(seg_disjoint(rest[a], s, horizontal));
            } else {
                assert(cut[a] == r[a - rest.len()]);
                assert(seg_on_line(r[a - rest.len()], horizontal, pos, len));
                assert(covers_unit(line[i], horizontal, j));
            }
        }
        if unit_stands(line, horizontal, j) && j != k {
            let m = choose|m: int| 0 <= m < line.len() && #[trigger] covers_unit(line[m], horizontal, j);
            if m < i {
                assert(cut[m] == line[m]);
                assert(covers_unit(cut[m], horizontal, j));
            } else if m > i {
                assert(cut[m - 1] == line[m]);
                assert(covers_unit(cut[m - 1], horizontal, j));
            } else if j < k {
                assert(cut[rest.len() as int] == r[0]);
                assert(covers_unit(cut[rest.len() as int], horizontal, j));
            } else {
                assert(cut[cut.len() - 1] == r[r.len() - 1]);
                assert(covers_unit(cut[cut.len() - 1], horizontal, j));
            }
        }
    }
}

/// Relies on rayon's `position_any`: it returns the index of some item for
/// which the predicate holds, or `None` when the predicate holds for none.
#[verifier::external_body]
fn position_containing(line: &Vec<SvgLine>, inner: &SvgLine) -> (r: Option<usize>)
    ensures
        r matches Some(i) ==> i < line.len() && contains_spec(*inner, line@[i as int]),
        r is None ==> forall|i: int| 0 <= i < line.len() ==> !contains_spec(*inner, #[trigger] line@[i]),
{
    line.par_iter().position_any(|outer| contains_wall(inner, outer))
}

fn contains_wall(inside_wall: &SvgLine, containing_wall: &SvgLine) -> (r: bool)
    ensures
        r == contains_spec(*inside_wall, *containing_wall),
{
    let x_in_range = (inside_wall.x1 >= containing_wall.x1) && (inside_wall.x2 <= containing_wall.x2);
    let y_in_range = (inside_wall.y1 >= containing_wall.y1) && (inside_wall.y2 <= containing_wall.y2);
    x_in_range && y_in_range
}

/// The line with its segment `i` replaced by `pieces`, appended at the end.
fn replace_segment(line: &Vec<SvgLine>, i: usize, pieces: Vec<SvgLine>) -> (r: Vec<SvgLine>)
    requires
        i < line.len(),
    ensures
        r@ == line@.remove(i as int) + pieces@,
{
    let mut r: Vec<SvgLine> = Vec::new();
    let mut j: usize = 0;
    while j < line.len()
        invariant
            i < line.len(),
            j <= line.len(),
            j <= i ==> r@ == line@.subrange(0, j as int),
            j > i ==> r@ == line@.subrange(0, i as int) + line@.subrange(i + 1, j as int),
        decreases line.len() - j,
    {
        if j != i {
            r.push(line[j]);
        }
        j += 1;
        proof {
            if j > i + 1 {
                assert(line@.subrange(i + 1, j as int) =~= line@.subrange(i + 1, j - 1).push(line@[j - 1]));
            } else if j == i + 1 {
                assert(line@.subrange(i + 1, j as int) =~= Seq::<SvgLine>::empty());
                assert(r@ =~= line@.subrange(0, i as int) + line@.subrange(i + 1, j as int));
            }
        }
    }
    assert(r@ =~= line@.remove(i as int));
    let mut k: usize = 0;
    while k < pieces.len()
        invariant
            k <= pieces.len(),
            r@ == line@.remove(i as int) + pieces@.subrange(0, k as int),
        decreases pieces.len() - k,
    {
        r.push(pieces[k]);
        k += 1;
        assert(pieces@.subrange(0, k as int) =~= pieces@.subrange(0, k - 1).push(pieces@[k - 1]));
    }
    assert(pieces@.subrange(0, k as int) =~= pieces@);
    r
}

impl MazeSvg {
    pub closed spec fn height_spec(&self) -> nat {
        self.height as nat
    }

    pub closed spec fn width_spec(&self) -> nat {
        self.width as nat
    }

    /// The segments of horizontal boundary line `y`.
    pub closed spec fn horiz_line(&self, y: int) -> Seq<SvgLine> {
        self.horiz_walls@[y]@
    }

    /// The segments of vertical boundary line `x`.
    pub closed spec fn vert_line(&self, x: int) -> Seq<SvgLine> {
        self.vert_walls@[x]@
    }

    /// The top side of cell `(y, x)` (bottom side of the cell above) is drawn;
    /// `y` may be `height` for the bottom border.
    pub open spec fn h_stands(&self, y: int, x: int) -> bool {
        unit_stands(self.horiz_line(y), true, x)
    }

    /// The left side of cell `(y, x)` (right side of the cell before) is drawn;
    /// `x` may be `width` for the right border.
    pub open spec fn v_stands(&self, x: int, y: int) -> bool {
        unit_stands(self.vert_line(x), false, y)
    }

    /// The lists have one entry per boundary line, and each line's segments
    /// lie on it, are aligned to cell corners and never overlap.
    pub open spec fn wf(&self) -> bool {
        &&& self.height_spec() <= MAX_SIDE
        &&& self.width_spec() <= MAX_SIDE
        &&& self.lines_wf()
    }

    pub closed spec fn lines_wf(&self) -> bool {
        &&& self.horiz_walls@.len() == self.height + 1
        &&& self.vert_walls@.len() == self.width + 1
        &&& forall|y: int|
            0 <= y <= self.height ==> line_wf(#[trigger] self.horiz_walls@[y]@, true, y, self.width as int)
        &&& forall|x: int|
            0 <= x <= self.width ==> line_wf(#[trigger] self.vert_walls@[x]@, false, x, self.height as int)
    }

    /// The segments of each boundary line lie on it, start and end on cell
    /// corners, and never overlap.
    pub proof fn lemma_lines_wf(&self)
        requires
            self.wf(),
        ensures
            forall|y: int| 0 <= y <= self.height_spec() ==> line_wf(#[trigger] self.horiz_line(y), true, y, self.width_spec() as int),
            forall|x: int| 0 <= x <= self.width_spec() ==> line_wf(#[trigger] self.vert_line(x), false, x, self.height_spec() as int),
    {
    }

    /// Each boundary line as one segment over its whole length.
    pub fn new(height: usize, width: usize) -> (r: Self)
        requires
            0 < height <= MAX_SIDE,
            0 < width <= MAX_SIDE,
        ensures
            r.wf(),
            r.height_spec() == height,
            r.width_spec() == width,
            forall|y: int| 0 <= y <= height ==> #[trigger] r.horiz_line(y) == seq![full_line(true, y, width as int)],
            forall|x: int| 0 <= x <= width ==> #[trigger] r.vert_line(x) == seq![full_line(false, x, height as int)],
            forall|y: int, x: int| 0 <= y <= height && 0 <= x < width ==> #[trigger] r.h_stands(y, x),
            forall|x: int, y: int| 0 <= x <= width && 0 <= y < height ==> #[trigger] r.v_stands(x, y),
    {
        let mut horiz_walls: Vec<Vec<SvgLine>> = Vec::new();
        let mut y: usize = 0;
        while y <= height
            invariant
                height <= MAX_SIDE,
                width <= MAX_SIDE,
                y <= height + 1,
                horiz_walls@.len() == y,
                forall|l: int| 0 <= l < y ==> #[trigger] horiz_walls@[l]@ == seq![full_line(true, l, width as int)],
            decreases height + 1 - y,
        {
            let wall = SvgLine {
                x1: 0,
                y1: y as i32 * CELL_SIZE,
                x2: width as i32 * CELL_SIZE,
                y2: y as i32 * CELL_SIZE,
            };
            horiz_walls.push(vec![wall]);
            y += 1;
        }
        let mut vert_walls: Vec<Vec<SvgLine>> = Vec::new();
        let mut x: usize = 0;
        while x <= width
            invariant
                height <= MAX_SIDE,
                width <= MAX_SIDE,
                x <= width + 1,
                vert_walls@.len() == x,
                forall|l: int| 0 <= l < x ==> #[trigger] vert_walls@[l]@ == seq![full_line(false, l, height as int)],
            decreases width + 1 - x,
        {
            let wall = SvgLine {
                x1: x as i32 * CELL_SIZE,
                y1: 0,
                x2: x as i32 * CELL_SIZE,
                y2: height as i32 * CELL_SIZE,
            };
            vert_walls.push(vec![wall]);
            x += 1;
        }
        let r = Self { horiz_walls, vert_walls, height, width };
        assert forall|y: int| 0 <= y <= height implies line_wf(#[trigger] r.horiz_walls@[y]@, true, y, width as int) by {
            assert(seg_on_line(r.horiz_walls@[y]@[0], true, y, width as int));
        }
        assert forall|x: int| 0 <= x <= width implies line_wf(#[trigger] r.vert_walls@[x]@, false, x, height as int) by {
            assert(seg_on_line(r.vert_walls@[x]@[0], false, x, height as int));
        }
        assert forall|y: int, x: int| 0 <= y <= height && 0 <= x < width implies #[trigger] r.h_stands(y, x) by {
            assert(r.horiz_line(y) == seq![full_line(true, y, width as int)]);
            assert(covers_unit(r.horiz_line(y)[0], true, x));
        }
        assert forall|x: int, y: int| 0 <= x <= width && 0 <= y < height implies #[trigger] r.v_stands(x, y) by {
            assert(r.vert_line(x) == seq![full_line(false, x, height as int)]);
            assert(covers_unit(r.vert_line(x)[0], false, y));
        }
        r
    }

    pub fn vert_walls(&self) -> (r: &Vec<Vec<SvgLine>>)
        requires
            self.wf(),
        ensures
            r@.len() == self.width_spec() + 1,
            forall|x: int| 0 <= x <= self.width_spec() ==> #[trigger] r@[x]@ == self.vert_line(x),
    {
        &self.vert_walls
    }

    pub fn horiz_walls(&self) -> (r: &Vec<Vec<SvgLine>>)
        requires
            self.wf(),
        ensures
            r@.len() == self.height_spec() + 1,
            forall|y: int| 0 <= y <= self.height_spec() ==> #[trigger] r@[y]@ == self.horiz_line(y),
    {
        &self.horiz_walls
    }

    /// Finds the segment that contains `wall_to_remove` (the wall of one cell
    /// side) and computes what is left of it once that wall is cut out.
    fn split_wall(&self, wall_to_remove: &SvgLine, wall_direction: WallDirection, cell_coord: &Coord) -> (r: (usize, Vec<SvgLine>))
        requires
            self.wf(),
            cell_coord.y < self.height_spec(),
            cell_coord.x < self.width_spec(),
            wall_direction is Horizontal ==> *wall_to_remove == unit_wall(true, cell_coord.y as int, cell_coord.x as int)
                && self.h_stands(cell_coord.y as int, cell_coord.x as int),
            wall_direction is Vertical ==> *wall_to_remove == unit_wall(false, cell_coord.x + 1, cell_coord.y as int)
                && self.v_stands(cell_coord.x + 1, cell_coord.y as int),
        ensures
            wall_direction is Horizontal ==> {
                let line = self.horiz_line(cell_coord.y as int);
                &&& r.0 < line.len()
                &&& covers_unit(line[r.0 as int], true, cell_coord.x as int)
                &&& r.1@ == residue(line[r.0 as int], *wall_to_remove)
            },
            wall_direction is Vertical ==> {
                let line = self.vert_line(cell_coord.x + 1);
                &&& r.0 < line.len()
                &&& covers_unit(line[r.0 as int], false, cell_coord.y as int)
                &&& r.1@ == residue(line[r.0 as int], *wall_to_remove)
            },
    {
        let ghost horizontal: bool = wall_direction is Horizontal;
        let ghost pos: int = if horizontal { cell_coord.y as int } else { cell_coord.x + 1 };
        let ghost k: int = if horizontal { cell_coord.x as int } else { cell_coord.y as int };
        let ghost len: int = if horizontal { self.width as int } else { self.height as int };
        let (walls_vec, walls_vec_i): (&Vec<Vec<SvgLine>>, usize) = match wall_direction {
            WallDirection::Vertical => (&self.vert_walls, cell_coord.x + 1),
            WallDirection::Horizontal => (&self.horiz_walls, cell_coord.y),
        };
        let line = &walls_vec[walls_vec_i];
        assert(line_wf(line@, horizontal, pos, len));
        assert(unit_stands(line@, horizontal, k));
        let containing_i = match position_containing(line, wall_to_remove) {
            Some(i) => i,
            None => {
                proof {
                    let m = choose|m: int| 0 <= m < line@.len() && #[trigger] covers_unit(line@[m], horizontal, k);
                    assert(seg_on_line(line@[m], horizontal, pos, len));
                    lemma_contains_iff_covers(line@[m], horizontal, pos, len, k);
                }
                return (0, Vec::new());
            },
        };
        let containing_wall = line[containing_i];
        proof {
            assert(seg_on_line(line@[containing_i as int], horizontal, pos, len));
            lemma_contains_iff_covers(containing_wall, horizontal, pos, len, k);
        }
        let mut new_walls: Vec<SvgLine> = Vec::new();
        if !(containing_wall.x1 == wall_to_remove.x1 && containing_wall.y1 == wall_to_remove.y1) {
            let new_line_1 = SvgLine {
                x1: containing_wall.x1,
                y1: containing_wall.y1,
                x2: wall_to_remove.x1,
                y2: wall_to_remove.y1,
            };
            new_walls.push(new_line_1);
        }
        if !(containing_wall.x2 == wall_to_remove.x2 && containing_wall.y2 == wall_to_remove.y2) {
            let new_line_2 = SvgLine {
                x1: wall_to_remove.x2,
                y1: wall_to_remove.y2,
                x2: containing_wall.x2,
                y2: containing_wall.y2,
            };
            new_walls.push(new_line_2);
        }
        assert(new_walls@ =~= residue(containing_wall, *wall_to_remove));
        (containing_i, new_walls)
    }

    /// Takes down the drawn wall on the named side of a cell. Only "top" and
    /// "right" are drawn from a cell (its bottom and left sides are the top
    /// and right sides of its neighbours); other names change nothing.
    pub fn remove_cell_wall(&mut self, coord: &Coord, wall_side: &str)
        requires
            old(self).wf(),
            coord.y < old(self).height_spec(),
            coord.x < old(self).width_spec(),
            side_named(wall_side@) == Some(TOP) ==> old(self).h_stands(coord.y as int, coord.x as int),
            side_named(wall_side@) == Some(RIGHT) ==> old(self).v_stands(coord.x + 1, coord.y as int),
        ensures
            final(self).wf(),
            final(self).height_spec() == old(self).height_spec(),
            final(self).width_spec() == old(self).width_spec(),
            forall|y: int, x: int| 0 <= y <= old(self).height_spec() ==>
                (#[trigger] final(self).h_stands(y, x) == (old(self).h_stands(y, x)
                    && !(side_named(wall_side@) == Some(TOP) && y == coord.y && x == coord.x))),
            forall|x: int, y: int| 0 <= x <= old(self).width_spec() ==>
                (#[trigger] final(self).v_stands(x, y) == (old(self).v_stands(x, y)
                    && !(side_named(wall_side@) == Some(RIGHT) && x == coord.x + 1 && y == coord.y))),
            forall|y: int| 0 <= y <= old(self).height_spec() && !(side_named(wall_side@) == Some(TOP) && y == coord.y) ==>
                #[trigger] final(self).horiz_line(y) == old(self).horiz_line(y),
            forall|x: int| 0 <= x <= old(self).width_spec() && !(side_named(wall_side@) == Some(RIGHT) && x == coord.x + 1) ==>
                #[trigger] final(self).vert_line(x) == old(self).vert_line(x),
            side_named(wall_side@) == Some(TOP) ==> exists|i: int|
                0 <= i < old(self).horiz_line(coord.y as int).len() && covers_unit(
                    #[trigger] old(self).horiz_line(coord.y as int)[i],
                    true,
                    coord.x as int,
                ) && final(self).horiz_line(coord.y as int) == old(self).horiz_line(coord.y as int).remove(i) + residue(
                    old(self).horiz_line(coord.y as int)[i],
                    unit_wall(true, coord.y as int, coord.x as int),
                ),
            side_named(wall_side@) == Some(RIGHT) ==> exists|i: int|
                0 <= i < old(self).vert_line(coord.x + 1).len() && covers_unit(
                    #[trigger] old(self).vert_line(coord.x + 1)[i],
                    false,
                    coord.y as int,
                ) && final(self).vert_line(coord.x + 1) == old(self).vert_line(coord.x + 1).remove(i) + residue(
                    old(self).vert_line(coord.x + 1)[i],
                    unit_wall(false, coord.x + 1, coord.y as int),
                ),
    {
        match side_index(wall_side) {
            Some(d) => self.remove_side(coord, d),
            None => {},
        }
    }

    /// `remove_cell_wall` with the side given by its wall index.
    pub(crate) fn remove_side(&mut self, coord: &Coord, d: usize)
        requires
            old(self).wf(),
            coord.y < old(self).height_spec(),
            coord.x < old(self).width_spec(),
            d == TOP ==> old(self).h_stands(coord.y as int, coord.x as int),
            d == RIGHT ==> old(self).v_stands(coord.x + 1, coord.y as int),
        ensures
            final(self).wf(),
            final(self).height_spec() == old(self).height_spec(),
            final(self).width_spec() == old(self).width_spec(),
            forall|y: int, x: int| 0 <= y <= old(self).height_spec() ==>
                (#[trigger] final(self).h_stands(y, x) == (old(self).h_stands(y, x)
                    && !(d == TOP && y == coord.y && x == coord.x))),
            forall|x: int, y: int| 0 <= x <= old(self).width_spec() ==>
                (#[trigger] final(self).v_stands(x, y) == (old(self).v_stands(x, y)
                    && !(d == RIGHT && x == coord.x + 1 && y == coord.y))),
            forall|y: int| 0 <= y <= old(self).height_spec() && !(d == TOP && y == coord.y) ==>
                #[trigger] final(self).horiz_line(y) == old(self).horiz_line(y),
            forall|x: int| 0 <= x <= old(self).width_spec() && !(d == RIGHT && x == coord.x + 1) ==>
                #[trigger] final(self).vert_line(x) == old(self).vert_line(x),
            d == TOP ==> exists|i: int|
                0 <= i < old(self).horiz_line(coord.y as int).len() && covers_unit(
                    #[trigger] old(self).horiz_line(coord.y as int)[i],
                    true,
                    coord.x as int,
                ) && final(self).horiz_line(coord.y as int) == old(self).horiz_line(coord.y as int).remove(i) + residue(
                    old(self).horiz_line(coord.y as int)[i],
                    unit_wall(true, coord.y as int, coord.x as int),
                ),
            d == RIGHT ==> exists|i: int|
                0 <= i < old(self).vert_line(coord.x + 1).len() && covers_unit(
                    #[trigger] old(self).vert_line(coord.x + 1)[i],
                    false,
                    coord.y as int,
                ) && final(self).vert_line(coord.x + 1) == old(self).vert_line(coord.x + 1).remove(i) + residue(
                    old(self).vert_line(coord.x + 1)[i],
                    unit_wall(false, coord.x + 1, coord.y as int),
                ),
    {
        if d == TOP {
            let wall_to_remove = SvgLine {
                x1: coord.x as i32 * CELL_SIZE,
                y1: coord.y as i32 * CELL_SIZE,
                x2: coord.x as i32 * CELL_SIZE + CELL_SIZE,
                y2: coord.y as i32 * CELL_SIZE,
            };
            let (i, new_walls) = self.split_wall(&wall_to_remove, WallDirection::Horizontal, coord);
            let line = replace_segment(&self.horiz_walls[coord.y], i, new_walls);
            proof {
                lemma_cut_unit(self.horiz_line(coord.y as int), i as int, true, coord.y as int, self.width as int, coord.x as int);
            }
            self.horiz_walls.set(coord.y, line);
            assert forall|y: int| 0 <= y <= self.height implies line_wf(#[trigger] self.horiz_walls@[y]@, true, y, self.width as int) by {
                if y != coord.y {
                    assert(self.horiz_walls@[y] == old(self).horiz_walls@[y]);
                }
            }
            assert forall|y: int, x: int| 0 <= y <= old(self).height_spec() implies
                (#[trigger] self.h_stands(y, x) == (old(self).h_stands(y, x) && !(y == coord.y && x == coord.x))) by {
                if y != coord.y {
                    assert(self.horiz_walls@[y] == old(self).horiz_walls@[y]);
                } else {
                    assert(unit_stands(self.horiz_line(y), true, x) == (unit_stands(old(self).horiz_line(y), true, x) && x != coord.x));
                }
            }
        } else if d == RIGHT {
            let wall_to_remove = SvgLine {
                x1: coord.x as i32 * CELL_SIZE + CELL_SIZE,
                y1: coord.y as i32 * CELL_SIZE,
                x2: coord.x as i32 * CELL_SIZE + CELL_SIZE,
                y2: coord.y as i32 * CELL_SIZE + CELL_SIZE,
            };
            let (i, new_walls) = self.split_wall(&wall_to_remove, WallDirection::Vertical, coord);
            let line = replace_segment(&self.vert_walls[coord.x + 1], i, new_walls);
            proof {
                lemma_cut_unit(self.vert_line(coord.x + 1), i as int, false, coord.x + 1, self.height as int, coord.y as int);
            }
            self.vert_walls.set(coord.x + 1, line);
            assert forall|x: int| 0 <= x <= self.width implies line_wf(#[trigger] self.vert_walls@[x]@, false, x, self.height as int) by {
                if x != coord.x + 1 {
                    assert(self.vert_walls@[x] == old(self).vert_walls@[x]);
                }
            }
            assert forall|x: int, y: int| 0 <= x <= old(self).width_spec() implies
                (#[trigger] self.v_stands(x, y) == (old(self).v_stands(x, y) && !(x == coord.x + 1 && y == coord.y))) by {
                if x != coord.x + 1 {
                    assert(self.vert_walls@[x] == old(self).vert_walls@[x]);
                } else {
                    assert(unit_stands(self.vert_line(x), false, y) == (unit_stands(old(self).vert_line(x), false, y) && y != coord.y));
                }
            }
        }
    }
}

} // verus!
