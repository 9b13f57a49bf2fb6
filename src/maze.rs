use vstd::prelude::*;
use crate::cell::{side_index, side_named, opposite, Cell, CellState, Coord, BOTTOM, LEFT, RIGHT, TOP};
use crate::maze_svg_render::{full_line, line_wf, unit_stands, MazeSvg, MAX_SIDE};

verus! {

/// Position of `c` in the row-major list of cells of a grid `width` cells wide.
pub open spec fn cell_index(width: int, c: Coord) -> int {
    c.y * width + c.x
}

/// The cell next to `c` across its wall `side` (the caller checks that it exists).
pub open spec fn neighbor(c: Coord, side: int) -> Coord {
    if side == TOP {
        Coord { y: (c.y - 1) as usize, x: c.x }
    } else if side == RIGHT {
        Coord { y: c.y, x: (c.x + 1) as usize }
    } else if side == BOTTOM {
        Coord { y: (c.y + 1) as usize, x: c.x }
    } else {
        Coord { y: c.y, x: (c.x - 1) as usize }
    }
}

/// Cells `p` and `c` are neighbours with no wall between them.
pub open spec fn linked(m: &Maze, p: Coord, c: Coord) -> bool {
    exists|side: int| 0 <= side < 4 && m.has_neighbor(p, side) && #[trigger] neighbor(p, side) == c && !m.wall(p, side)
}

/// Cell `c` is reached from `head` through an open wall in one of the
/// directions `0 .. k`.
pub open spec fn reached_toward(m: &Maze, head: Coord, c: Coord, k: int) -> bool {
    exists|side: int| 0 <= side < k && m.has_neighbor(head, side) && #[trigger] neighbor(head, side) == c && !m.wall(head, side)
}

/// Index arithmetic of a row-major grid: in range, and one index per cell.
pub proof fn lemma_cell_index(height: int, width: int, c: Coord, d: Coord)
    requires
        0 < width,
        c.y < height,
        c.x < width,
        d.x < width,
    ensures
        0 <= cell_index(width, c) < height * width,
        cell_index(width, c) == cell_index(width, d) ==> c == d,
        (d.y < c.y || (d.y == c.y && d.x < c.x)) ==> cell_index(width, d) < cell_index(width, c),
{
    assert(0 <= c.y * width + c.x < height * width) by (nonlinear_arith)
        requires
            0 <= c.y < height,
            0 <= c.x < width,
    ;
    if cell_index(width, c) == cell_index(width, d) {
        if c.y < d.y {
            assert(c.y * width + c.x < d.y * width + d.x) by (nonlinear_arith)
                requires
                    c.y < d.y,
                    0 <= c.x < width,
                    0 <= d.x,
            ;
        } else if d.y < c.y {
            assert(d.y * width + d.x < c.y * width + c.x) by (nonlinear_arith)
                requires
                    d.y < c.y,
                    0 <= d.x < width,
                    0 <= c.x,
            ;
        }
    }
    if d.y < c.y {
        assert(d.y * width + d.x < c.y * width + c.x) by (nonlinear_arith)
            requires
                d.y < c.y,
                0 <= d.x < width,
                0 <= c.x,
        ;
    }
}

/// Every wall between two neighbouring cells is seen alike from both of
/// them: the wall `side` of `c` stands exactly when the opposite wall of its
/// neighbour across `side` stands.
pub proof fn lemma_walls_mirrored(m: Maze, c: Coord, side: int)
    requires
        m.wf(),
        m.in_bounds(c),
        0 <= side < 4,
        m.has_neighbor(c, side),
    ensures
        m.in_bounds(neighbor(c, side)),
        m.wall(c, side) == m.wall(neighbor(c, side), opposite(side)),
{
    let n = neighbor(c, side);
    if side == TOP {
        assert(neighbor(n, BOTTOM as int) == c);
        assert(m.wall(n, BOTTOM as int) == m.wall(c, TOP as int));
    } else if side == LEFT {
        assert(neighbor(n, RIGHT as int) == c);
        assert(m.wall(n, RIGHT as int) == m.wall(c, LEFT as int));
    } else if side == RIGHT {
        assert(m.wall(c, RIGHT as int) == m.wall(n, LEFT as int));
    } else {
        assert(m.wall(c, BOTTOM as int) == m.wall(n, TOP as int));
    }
}

/// The drawing is exact at every moment: on each boundary line the segments
/// lie on the line and never overlap, and the side of a cell on that line is
/// covered by a segment exactly when its wall stands.
pub proof fn lemma_segments_match_walls(m: Maze)
    requires
        m.wf(),
    ensures
        forall|y: int| 0 <= y <= m.height_spec() ==> line_wf(#[trigger] m.svg_spec().horiz_line(y), true, y, m.width_spec() as int),
        forall|x: int| 0 <= x <= m.width_spec() ==> line_wf(#[trigger] m.svg_spec().vert_line(x), false, x, m.height_spec() as int),
        forall|y: int, x: int| 0 <= y < m.height_spec() && 0 <= x < m.width_spec() ==>
            #[trigger] unit_stands(m.svg_spec().horiz_line(y), true, x) == m.wall(Coord { y: y as usize, x: x as usize }, TOP as int),
        forall|x: int| 0 <= x < m.width_spec() ==>
            #[trigger] unit_stands(m.svg_spec().horiz_line(m.height_spec() as int), true, x) == m.wall(Coord { y: (m.height_spec() - 1) as usize, x: x as usize }, BOTTOM as int),
        forall|x: int, y: int| 0 <= x < m.width_spec() && 0 <= y < m.height_spec() ==>
            #[trigger] unit_stands(m.svg_spec().vert_line(x), false, y) == m.wall(Coord { y: y as usize, x: x as usize }, LEFT as int),
        forall|y: int| 0 <= y < m.height_spec() ==>
            #[trigger] unit_stands(m.svg_spec().vert_line(m.width_spec() as int), false, y) == m.wall(Coord { y: y as usize, x: (m.width_spec() - 1) as usize }, RIGHT as int),
{
    m.svg_spec().lemma_lines_wf();
    assert forall|y: int, x: int| 0 <= y < m.height_spec() && 0 <= x < m.width_spec() implies
        #[trigger] unit_stands(m.svg_spec().horiz_line(y), true, x) == m.wall(Coord { y: y as usize, x: x as usize }, TOP as int) by {
        assert(m.svg_spec().h_stands(y, x) == m.wall(Coord { y: y as usize, x: x as usize }, TOP as int));
    }
    assert forall|x: int| 0 <= x < m.width_spec() implies
        #[trigger] unit_stands(m.svg_spec().horiz_line(m.height_spec() as int), true, x) == m.wall(Coord { y: (m.height_spec() - 1) as usize, x: x as usize }, BOTTOM as int) by {
        assert(m.svg_spec().h_stands(m.height_spec() as int, x) == m.wall(Coord { y: (m.height_spec() - 1) as usize, x: x as usize }, BOTTOM as int));
    }
    assert forall|x: int, y: int| 0 <= x < m.width_spec() && 0 <= y < m.height_spec() implies
        #[trigger] unit_stands(m.svg_spec().vert_line(x), false, y) == m.wall(Coord { y: y as usize, x: x as usize }, LEFT as int) by {
        assert(m.svg_spec().v_stands(x, y) == m.wall(Coord { y: y as usize, x: x as usize }, LEFT as int));
    }
    assert forall|y: int| 0 <= y < m.height_spec() implies
        #[trigger] unit_stands(m.svg_spec().vert_line(m.width_spec() as int), false, y) == m.wall(Coord { y: y as usize, x: (m.width_spec() - 1) as usize }, RIGHT as int) by {
        assert(m.svg_spec().v_stands(m.width_spec() as int, y) == m.wall(Coord { y: y as usize, x: (m.width_spec() - 1) as usize }, RIGHT as int));
    }
}

/// A grid of `height` rows and `width` columns, and the merged wall segments
/// that draw it.
pub struct Maze {
    height: usize,
    width: usize,
    grid: Vec<Cell>,
    svg: MazeSvg,
}

impl Maze {
    pub closed spec fn height_spec(&self) -> nat {
        self.height as nat
    }

    pub closed spec fn width_spec(&self) -> nat {
        self.width as nat
    }

    pub closed spec fn svg_spec(&self) -> MazeSvg {
        self.svg
    }

    /// The cell at `c`.
    pub closed spec fn cell(&self, c: Coord) -> Cell {
        self.grid@[cell_index(self.width as int, c)]
    }

    pub open spec fn in_bounds(&self, c: Coord) -> bool {
        c.y < self.height_spec() && c.x < self.width_spec()
    }

    /// The cell at `c` has a neighbour across its wall `side`.
    pub open spec fn has_neighbor(&self, c: Coord, side: int) -> bool {
        if side == TOP {
            c.y > 0
        } else if side == RIGHT {
            c.x + 1 < self.width_spec()
        } else if side == BOTTOM {
            c.y + 1 < self.height_spec()
        } else {
            c.x > 0
        }
    }

    /// The wall `side` of the cell at `c` stands.
    pub open spec fn wall(&self, c: Coord, side: int) -> bool {
        self.cell(c).walls_spec()[side]
    }

    pub open spec fn state_of(&self, c: Coord) -> CellState {
        self.cell(c).state_spec()
    }

    /// Between two neighbours, both cells agree on the wall they share.
    pub open spec fn walls_mirrored(&self) -> bool {
        &&& forall|c: Coord|
            self.in_bounds(c) && c.x + 1 < self.width_spec() ==> #[trigger] self.wall(c, RIGHT as int) == self.wall(
                neighbor(c, RIGHT as int),
                LEFT as int,
            )
        &&& forall|c: Coord|
            self.in_bounds(c) && c.y + 1 < self.height_spec() ==> #[trigger] self.wall(c, BOTTOM as int) == self.wall(
                neighbor(c, BOTTOM as int),
                TOP as int,
            )
    }

    /// The outer border stands all round.
    pub open spec fn border_stands(&self) -> bool {
        forall|c: Coord, side: int|
            self.in_bounds(c) && 0 <= side < 4 && !self.has_neighbor(c, side) ==> #[trigger] self.wall(c, side)
    }

    /// The drawn segments cover exactly the cell sides whose wall stands.
    pub open spec fn segments_match(&self) -> bool {
        &&& forall|y: int, x: int|
            0 <= y <= self.height_spec() && 0 <= x < self.width_spec() ==> #[trigger] self.svg_spec().h_stands(y, x)
                == if y < self.height_spec() {
                self.wall(Coord { y: y as usize, x: x as usize }, TOP as int)
            } else {
                self.wall(Coord { y: (y - 1) as usize, x: x as usize }, BOTTOM as int)
            }
        &&& forall|x: int, y: int|
            0 <= x <= self.width_spec() && 0 <= y < self.height_spec() ==> #[trigger] self.svg_spec().v_stands(x, y)
                == if x < self.width_spec() {
                self.wall(Coord { y: y as usize, x: x as usize }, LEFT as int)
            } else {
                self.wall(Coord { y: y as usize, x: (x - 1) as usize }, RIGHT as int)
            }
    }

    pub closed spec fn layout_wf(&self) -> bool {
        &&& self.grid@.len() == self.height * self.width
        &&& self.svg.wf()
        &&& self.svg.height_spec() == self.height
        &&& self.svg.width_spec() == self.width
        &&& forall|c: Coord| self.in_bounds(c) ==> (#[trigger] self.cell(c)).coord_spec() == c
        &&& forall|c: Coord| self.in_bounds(c) ==> (#[trigger] self.cell(c)).walls_spec().len() == 4
    }

    /// Well formed: sizes as allocated, each cell knows its own address, the
    /// walls are mirrored, the border stands and the segments draw exactly the
    /// standing walls.
    pub open spec fn wf(&self) -> bool {
        &&& 0 < self.height_spec() <= MAX_SIDE
        &&& 0 < self.width_spec() <= MAX_SIDE
        &&& self.layout_wf()
        &&& self.walls_mirrored()
        &&& self.border_stands()
        &&& self.segments_match()
    }

    /// Same size, same cells and same drawing.
    pub open spec fn same_walls(&self, other: &Maze) -> bool {
        &&& other.height_spec() == self.height_spec()
        &&& other.width_spec() == self.width_spec()
        &&& forall|c: Coord, side: int| self.in_bounds(c) ==> #[trigger] other.wall(c, side) == self.wall(c, side)
    }

    /// The boundary line that draws the wall `side` of the cell at `c`:
    /// whether it is horizontal, and its position.
    pub open spec fn drawn_on(c: Coord, side: int) -> (bool, int) {
        if side == TOP {
            (true, c.y as int)
        } else if side == BOTTOM {
            (true, c.y + 1)
        } else if side == RIGHT {
            (false, c.x + 1)
        } else {
            (false, c.x as int)
        }
    }

    /// Every boundary line but the one that draws the wall `side` of `c`
    /// keeps its list of segments.
    pub open spec fn other_lines_kept(&self, after: &Maze, c: Coord, side: int) -> bool {
        &&& forall|y: int|
            0 <= y <= self.height_spec() && !(Self::drawn_on(c, side).0 && y == Self::drawn_on(c, side).1) ==> #[trigger] after.svg_spec().horiz_line(y)
                == self.svg_spec().horiz_line(y)
        &&& forall|x: int|
            0 <= x <= self.width_spec() && !(!Self::drawn_on(c, side).0 && x == Self::drawn_on(c, side).1) ==> #[trigger] after.svg_spec().vert_line(x)
                == self.svg_spec().vert_line(x)
    }

    /// `after` has the cell at `c` in `state`, and nothing else changed.
    pub open spec fn restated(&self, after: &Maze, c: Coord, state: CellState) -> bool {
        &&& self.same_walls(after)
        &&& after.state_of(c) == state
        &&& forall|d: Coord| self.in_bounds(d) && d != c ==> #[trigger] after.state_of(d) == self.state_of(d)
    }

    /// `after` is this maze with the wall between `c` and its neighbour across
    /// `side` taken down on both sides, and nothing else changed.
    pub open spec fn opened(&self, after: &Maze, c: Coord, side: int) -> bool {
        &&& after.height_spec() == self.height_spec()
        &&& after.width_spec() == self.width_spec()
        &&& forall|d: Coord| self.in_bounds(d) ==> #[trigger] after.state_of(d) == self.state_of(d)
        &&& forall|d: Coord, s: int|
            self.in_bounds(d) && 0 <= s < 4 ==> #[trigger] after.wall(d, s) == (self.wall(d, s) && !((d == c && s == side) || (d
                == neighbor(c, side) && s == opposite(side))))
    }

    /// The cell next to `c` across its wall `side`.
    pub fn neighbor_coord(&self, c: &Coord, side: usize) -> (r: Coord)
        requires
            self.wf(),
            self.in_bounds(*c),
            side < 4,
            self.has_neighbor(*c, side as int),
        ensures
            r == neighbor(*c, side as int),
            self.in_bounds(r),
    {
        if side == TOP {
            Coord { y: c.y - 1, x: c.x }
        } else if side == RIGHT {
            Coord { y: c.y, x: c.x + 1 }
        } else if side == BOTTOM {
            Coord { y: c.y + 1, x: c.x }
        } else {
            Coord { y: c.y, x: c.x - 1 }
        }
    }

    /// A `height` by `width` grid of unvisited cells with every wall standing.
    pub fn new(height: usize, width: usize) -> (r: Self)
        requires
            0 < height <= MAX_SIDE,
            0 < width <= MAX_SIDE,
            height * width <= usize::MAX,
        ensures
            r.wf(),
            r.height_spec() == height,
            r.width_spec() == width,
            forall|c: Coord| r.in_bounds(c) ==> #[trigger] r.state_of(c) == CellState::Unvisited,
            forall|c: Coord, side: int| r.in_bounds(c) && 0 <= side < 4 ==> #[trigger] r.wall(c, side),
            forall|c: Coord| r.in_bounds(c) ==> (#[trigger] r.cell(c)).coord_spec() == c,
            forall|y: int| 0 <= y <= height ==> #[trigger] r.svg_spec().horiz_line(y) == seq![full_line(true, y, width as int)],
            forall|x: int| 0 <= x <= width ==> #[trigger] r.svg_spec().vert_line(x) == seq![full_line(false, x, height as int)],
    {
        let mut grid: Vec<Cell> = Vec::new();
        let mut y: usize = 0;
        while y < height
            invariant
                0 < width,
                y <= height,
                height * width <= usize::MAX,
                grid@.len() == y * width,
                forall|c: Coord|
                    c.y < y && c.x < width ==> (#[trigger] grid@[cell_index(width as int, c)]).is_fresh(c),
            decreases height - y,
        {
            let mut x: usize = 0;
            while x < width
                invariant
                    0 < width,
                    y < height,
                    x <= width,
                    height * width <= usize::MAX,
                    grid@.len() == y * width + x,
                    forall|c: Coord|
                        (c.y < y && c.x < width) || (c.y == y && c.x < x) ==> (#[trigger] grid@[cell_index(
                            width as int,
                            c,
                        )]).is_fresh(c),
                decreases width - x,
            {
                proof {
                    assert(y * width + x < height * width) by (nonlinear_arith)
                        requires
                            y < height,
                            x < width,
                    ;
                }
                let ghost before = grid@;
                grid.push(Cell::new(Coord { y, x }));
                proof {
                    let here = Coord { y, x };
                    assert forall|c: Coord|
                        (c.y < y && c.x < width) || (c.y == y && c.x < x + 1) implies (#[trigger] grid@[cell_index(
                        width as int,
                        c,
                    )]).is_fresh(c) by {
                        lemma_cell_index(height as int, width as int, here, c);
                        if c != here {
                            assert(grid@[cell_index(width as int, c)] == before[cell_index(width as int, c)]);
                        }
                    }
                }
                x += 1;
            }
            proof {
                assert((y + 1) * width == y * width + width) by (nonlinear_arith);
            }
            y += 1;
        }
        let r = Self { height, width, grid, svg: MazeSvg::new(height, width) };
        proof {
            assert forall|c: Coord| r.in_bounds(c) implies (#[trigger] r.cell(c)).is_fresh(c) by {
                assert(grid@[cell_index(width as int, c)].is_fresh(c));
            }
            assert forall|c: Coord, side: int| r.in_bounds(c) && 0 <= side < 4 && r.has_neighbor(c, side) implies
                r.wall(c, side) == r.wall(neighbor(c, side), opposite(side)) by {
                assert(r.cell(c).is_fresh(c));
                assert(r.cell(neighbor(c, side)).is_fresh(neighbor(c, side)));
            }
            assert forall|c: Coord| r.in_bounds(c) && c.x + 1 < r.width_spec() implies
                #[trigger] r.wall(c, RIGHT as int) == r.wall(neighbor(c, RIGHT as int), LEFT as int) by {
                assert(r.has_neighbor(c, RIGHT as int));
            }
            assert forall|c: Coord| r.in_bounds(c) && c.y + 1 < r.height_spec() implies
                #[trigger] r.wall(c, BOTTOM as int) == r.wall(neighbor(c, BOTTOM as int), TOP as int) by {
                assert(r.has_neighbor(c, BOTTOM as int));
            }
            assert forall|c: Coord, side: int| r.in_bounds(c) && 0 <= side < 4 implies #[trigger] r.wall(c, side) by {
                assert(r.cell(c).is_fresh(c));
            }
            assert forall|y: int, x: int| 0 <= y <= r.height_spec() && 0 <= x < r.width_spec() implies
                #[trigger] r.svg_spec().h_stands(y, x) == if y < r.height_spec() {
                r.wall(Coord { y: y as usize, x: x as usize }, TOP as int)
            } else {
                r.wall(Coord { y: (y - 1) as usize, x: x as usize }, BOTTOM as int)
            } by {
                if y < r.height_spec() {
                    assert(r.wall(Coord { y: y as usize, x: x as usize }, TOP as int));
                } else {
                    assert(r.wall(Coord { y: (y - 1) as usize, x: x as usize }, BOTTOM as int));
                }
            }
            assert forall|x: int, y: int| 0 <= x <= r.width_spec() && 0 <= y < r.height_spec() implies
                #[trigger] r.svg_spec().v_stands(x, y) == if x < r.width_spec() {
                r.wall(Coord { y: y as usize, x: x as usize }, LEFT as int)
            } else {
                r.wall(Coord { y: y as usize, x: (x - 1) as usize }, RIGHT as int)
            } by {
                if x < r.width_spec() {
                    assert(r.wall(Coord { y: y as usize, x: x as usize }, LEFT as int));
                } else {
                    assert(r.wall(Coord { y: y as usize, x: (x - 1) as usize }, RIGHT as int));
                }
            }
            assert forall|c: Coord| r.in_bounds(c) implies #[trigger] r.state_of(c) == CellState::Unvisited by {
                assert(r.cell(c).is_fresh(c));
            }
        }
        r
    }

    pub fn width(&self) -> (r: usize)
        ensures
            r == self.width_spec(),
    {
        self.width
    }

    pub fn height(&self) -> (r: usize)
        ensures
            r == self.height_spec(),
    {
        self.height
    }

    /// All cells, row by row.
    pub fn grid(&self) -> (r: &Vec<Cell>)
        requires
            self.wf(),
        ensures
            r@.len() == self.height_spec() * self.width_spec(),
            forall|c: Coord| self.in_bounds(c) ==> #[trigger] r@[cell_index(self.width_spec() as int, c)] == self.cell(c),
    {
        &self.grid
    }

    /// The merged wall segments that draw this maze.
    pub fn svg_elements(&self) -> (r: &MazeSvg)
        ensures
            *r == self.svg_spec(),
    {
        &self.svg
    }

    /// Position of `coord` in `grid`.
    fn index(&self, coord: &Coord) -> (r: usize)
        requires
            self.wf(),
            self.in_bounds(*coord),
        ensures
            r == cell_index(self.width_spec() as int, *coord),
            r < self.grid@.len(),
    {
        // the grid's length is a usize, which bounds the index
        let n = self.grid.len();
        proof {
            lemma_cell_index(self.height as int, self.width as int, *coord, *coord);
            assert(coord.y * self.width <= coord.y * self.width + coord.x);
        }
        coord.y * self.width + coord.x
    }

    pub fn get_cell_ref(&self, coord: &Coord) -> (r: &Cell)
        requires
            self.wf(),
            self.in_bounds(*coord),
        ensures
            *r == self.cell(*coord),
    {
        proof {
            lemma_cell_index(self.height as int, self.width as int, *coord, *coord);
        }
        &self.grid[self.index(coord)]
    }

    /// Marks the cell at `coord` as part of the maze (`Path`).
    pub fn visit_cell(&mut self, coord: &Coord)
        requires
            old(self).wf(),
            old(self).in_bounds(*coord),
        ensures
            final(self).wf(),
            old(self).restated(final(self), *coord, CellState::Path),
            final(self).svg_spec() == old(self).svg_spec(),
    {
        self.change_cell_state(coord, CellState::Path);
    }

    /// Puts the cell at `coord` in `new_state`; any state may follow any other.
    pub fn change_cell_state(&mut self, coord: &Coord, new_state: CellState)
        requires
            old(self).wf(),
            old(self).in_bounds(*coord),
        ensures
            final(self).wf(),
            old(self).restated(final(self), *coord, new_state),
            final(self).svg_spec() == old(self).svg_spec(),
    {
        proof {
            lemma_cell_index(self.height as int, self.width as int, *coord, *coord);
        }
        let i = self.index(coord);
        let mut cell = self.grid[i];
        cell.change_state(new_state);
        self.grid.set(i, cell);
        proof {
            assert forall|d: Coord| self.in_bounds(d) implies {
                &&& (#[trigger] self.cell(d)).walls_spec() == old(self).cell(d).walls_spec()
                &&& self.cell(d).coord_spec() == old(self).cell(d).coord_spec()
                &&& d != *coord ==> self.cell(d) == old(self).cell(d)
            } by {
                lemma_cell_index(self.height as int, self.width as int, *coord, d);
                lemma_cell_index(self.height as int, self.width as int, d, *coord);
            }
            Self::lemma_walls_kept(*old(self), *self);
        }
    }

    /// A maze whose cells keep their walls and addresses stays well formed.
    proof fn lemma_walls_kept(before: Maze, after: Maze)
        requires
            before.wf(),
            after.height == before.height,
            after.width == before.width,
            after.svg == before.svg,
            after.grid@.len() == before.grid@.len(),
            forall|d: Coord| before.in_bounds(d) ==> {
                &&& (#[trigger] after.cell(d)).walls_spec() == before.cell(d).walls_spec()
                &&& after.cell(d).coord_spec() == before.cell(d).coord_spec()
            },
        ensures
            after.wf(),
            before.same_walls(&after),
    {
        assert forall|c: Coord, side: int| before.in_bounds(c) implies #[trigger] after.wall(c, side) == before.wall(c, side) by {
            assert(after.cell(c).walls_spec() == before.cell(c).walls_spec());
        }
        assert forall|c: Coord| after.in_bounds(c) implies (#[trigger] after.cell(c)).coord_spec() == c by {
            assert(before.cell(c).coord_spec() == c);
        }
        assert forall|c: Coord| after.in_bounds(c) implies (#[trigger] after.cell(c)).walls_spec().len() == 4 by {
            assert(before.cell(c).walls_spec().len() == 4);
        }
        assert forall|c: Coord| after.in_bounds(c) && c.x + 1 < after.width_spec() implies
            #[trigger] after.wall(c, RIGHT as int) == after.wall(neighbor(c, RIGHT as int), LEFT as int) by {
            assert(after.wall(c, RIGHT as int) == before.wall(c, RIGHT as int));
            assert(after.wall(neighbor(c, RIGHT as int), LEFT as int) == before.wall(neighbor(c, RIGHT as int), LEFT as int));
        }
        assert forall|c: Coord| after.in_bounds(c) && c.y + 1 < after.height_spec() implies
            #[trigger] after.wall(c, BOTTOM as int) == after.wall(neighbor(c, BOTTOM as int), TOP as int) by {
            assert(after.wall(c, BOTTOM as int) == before.wall(c, BOTTOM as int));
            assert(after.wall(neighbor(c, BOTTOM as int), TOP as int) == before.wall(neighbor(c, BOTTOM as int), TOP as int));
        }
        assert forall|c: Coord, side: int| after.in_bounds(c) && 0 <= side < 4 && !after.has_neighbor(c, side) implies
            #[trigger] after.wall(c, side) by {
            assert(before.wall(c, side));
            assert(after.wall(c, side) == before.wall(c, side));
        }
        assert forall|y: int, x: int| 0 <= y <= after.height_spec() && 0 <= x < after.width_spec() implies
            #[trigger] after.svg_spec().h_stands(y, x) == if y < after.height_spec() {
            after.wall(Coord { y: y as usize, x: x as usize }, TOP as int)
        } else {
            after.wall(Coord { y: (y - 1) as usize, x: x as usize }, BOTTOM as int)
        } by {
            assert(before.svg_spec().h_stands(y, x) == if y < before.height_spec() {
                before.wall(Coord { y: y as usize, x: x as usize }, TOP as int)
            } else {
                before.wall(Coord { y: (y - 1) as usize, x: x as usize }, BOTTOM as int)
            });
            if y < after.height_spec() {
                assert(after.wall(Coord { y: y as usize, x: x as usize }, TOP as int) == before.wall(Coord { y: y as usize, x: x as usize }, TOP as int));
            } else {
                assert(after.wall(Coord { y: (y - 1) as usize, x: x as usize }, BOTTOM as int) == before.wall(Coord { y: (y - 1) as usize, x: x as usize }, BOTTOM as int));
            }
        }
        assert forall|x: int, y: int| 0 <= x <= after.width_spec() && 0 <= y < after.height_spec() implies
            #[trigger] after.svg_spec().v_stands(x, y) == if x < after.width_spec() {
            after.wall(Coord { y: y as usize, x: x as usize }, LEFT as int)
        } else {
            after.wall(Coord { y: y as usize, x: (x - 1) as usize }, RIGHT as int)
        } by {
            assert(before.svg_spec().v_stands(x, y) == if x < before.width_spec() {
                before.wall(Coord { y: y as usize, x: x as usize }, LEFT as int)
            } else {
                before.wall(Coord { y: y as usize, x: (x - 1) as usize }, RIGHT as int)
            });
            if x < after.width_spec() {
                assert(after.wall(Coord { y: y as usize, x: x as usize }, LEFT as int) == before.wall(Coord { y: y as usize, x: x as usize }, LEFT as int));
            } else {
                assert(after.wall(Coord { y: y as usize, x: (x - 1) as usize }, RIGHT as int) == before.wall(Coord { y: y as usize, x: (x - 1) as usize }, RIGHT as int));
            }
        }
    }

    /// Takes down the wall on the named side ("top", "right", "bottom" or
    /// "left") of the cell at `coord` together with the same wall seen from
    /// the neighbour, and cuts it out of the drawn segments. Any other name
    /// changes nothing.
    pub fn remove_cell_wall(&mut self, coord: &Coord, wall_side: &str)
        requires
            old(self).wf(),
            old(self).in_bounds(*coord),
            side_named(wall_side@) matches Some(d) ==> old(self).has_neighbor(*coord, d as int) && old(self).wall(*coord, d as int),
        ensures
            final(self).wf(),
            side_named(wall_side@) matches Some(d) ==> old(self).opened(final(self), *coord, d as int)
                && old(self).other_lines_kept(final(self), *coord, d as int),
            side_named(wall_side@) is None ==> *final(self) == *old(self),
    {
        match side_index(wall_side) {
            Some(d) => self.remove_wall_between(coord, d),
            None => {},
        }
    }

    /// A standing wall between two cells is drawn.
    proof fn lemma_wall_drawn(m: Maze, coord: Coord, side: int)
        requires
            m.wf(),
            m.in_bounds(coord),
            0 <= side < 4,
            m.has_neighbor(coord, side),
            m.wall(coord, side),
        ensures
            side == TOP ==> m.svg_spec().h_stands(coord.y as int, coord.x as int),
            side == RIGHT ==> m.svg_spec().v_stands(coord.x + 1, coord.y as int),
            side == BOTTOM ==> m.svg_spec().h_stands(coord.y + 1, coord.x as int),
            side == LEFT ==> m.svg_spec().v_stands(coord.x as int, coord.y as int),
    {
        let other = neighbor(coord, side);
        lemma_walls_mirrored(m, coord, side);
        if side == TOP {
            assert(m.svg_spec().h_stands(coord.y as int, coord.x as int));
        } else if side == RIGHT {
            assert(m.svg_spec().v_stands(coord.x + 1, coord.y as int));
        } else if side == BOTTOM {
            assert(m.svg_spec().h_stands(other.y as int, other.x as int));
        } else {
            assert(m.svg_spec().v_stands(other.x + 1, other.y as int));
        }
    }

    /// Cuts the wall between `coord` and its neighbour `other` (across `side`)
    /// out of the drawn segments; the cells are left as they are.
    fn cut_drawing(&mut self, coord: &Coord, side: usize, other: &Coord)
        requires
            old(self).wf(),
            old(self).in_bounds(*coord),
            side < 4,
            old(self).has_neighbor(*coord, side as int),
            old(self).wall(*coord, side as int),
            *other == neighbor(*coord, side as int),
        ensures
            final(self).height == old(self).height,
            final(self).width == old(self).width,
            final(self).grid == old(self).grid,
            final(self).svg.wf(),
            final(self).svg.height_spec() == old(self).height,
            final(self).svg.width_spec() == old(self).width,
            forall|y: int, x: int| 0 <= y <= old(self).height_spec() ==>
                (#[trigger] final(self).svg_spec().h_stands(y, x) == (old(self).svg_spec().h_stands(y, x)
                    && !(((side == TOP && y == coord.y) || (side == BOTTOM && y == coord.y + 1)) && x == coord.x))),
            forall|x: int, y: int| 0 <= x <= old(self).width_spec() ==>
                (#[trigger] final(self).svg_spec().v_stands(x, y) == (old(self).svg_spec().v_stands(x, y)
                    && !(((side == RIGHT && x == coord.x + 1) || (side == LEFT && x == coord.x)) && y == coord.y))),
            old(self).other_lines_kept(final(self), *coord, side as int),
    {
        proof {
            Self::lemma_wall_drawn(*self, *coord, side as int);
        }
        if side == TOP {
            self.svg.remove_side(coord, TOP);
        } else if side == RIGHT {
            self.svg.remove_side(coord, RIGHT);
        } else if side == BOTTOM {
            self.svg.remove_side(other, TOP);
        } else {
            self.svg.remove_side(other, RIGHT);
        }
    }

    /// `remove_cell_wall` with the side given by its wall index.
    pub fn remove_wall_between(&mut self, coord: &Coord, side: usize)
        requires
            old(self).wf(),
            old(self).in_bounds(*coord),
            side < 4,
            old(self).has_neighbor(*coord, side as int),
            old(self).wall(*coord, side as int),
        ensures
            final(self).wf(),
            old(self).opened(final(self), *coord, side as int),
            old(self).other_lines_kept(final(self), *coord, side as int),
    {
        let other = if side == TOP {
            Coord { y: coord.y - 1, x: coord.x }
        } else if side == RIGHT {
            Coord { y: coord.y, x: coord.x + 1 }
        } else if side == BOTTOM {
            Coord { y: coord.y + 1, x: coord.x }
        } else {
            Coord { y: coord.y, x: coord.x - 1 }
        };
        let back: usize = (side + 2) % 4;
        proof {
            lemma_cell_index(self.height as int, self.width as int, *coord, other);
            lemma_cell_index(self.height as int, self.width as int, other, *coord);
            assert(other == neighbor(*coord, side as int));
        }
        let i = self.index(coord);
        let j = self.index(&other);
        self.cut_drawing(coord, side, &other);
        let ghost cut = *self;
        let mut a = self.grid[i];
        a.remove_wall_by_int(side);
        self.grid.set(i, a);
        let mut b = self.grid[j];
        b.remove_wall_by_int(back);
        self.grid.set(j, b);
        proof {
            assert forall|d: Coord| old(self).in_bounds(d) implies {
                &&& (#[trigger] self.cell(d)).coord_spec() == old(self).cell(d).coord_spec()
                &&& self.cell(d).state_spec() == old(self).cell(d).state_spec()
                &&& self.cell(d).walls_spec() == if d == *coord {
                    old(self).cell(d).walls_spec().update(side as int, false)
                } else if d == other {
                    old(self).cell(d).walls_spec().update(back as int, false)
                } else {
                    old(self).cell(d).walls_spec()
                }
            } by {
                lemma_cell_index(self.height as int, self.width as int, *coord, d);
                lemma_cell_index(self.height as int, self.width as int, other, d);
                lemma_cell_index(self.height as int, self.width as int, d, other);
            }
            assert(self.svg_spec() == cut.svg_spec());
            assert(old(self).other_lines_kept(&cut, *coord, side as int));
            Self::lemma_wall_opened(*old(self), *self, *coord, side as int);
        }
    }

    /// Taking down one wall from both sides, and cutting the same wall out of
    /// the drawing, keeps a maze well formed.
    proof fn lemma_wall_opened(before: Maze, after: Maze, coord: Coord, side: int)
        requires
            before.wf(),
            before.in_bounds(coord),
            0 <= side < 4,
            before.has_neighbor(coord, side),
            after.height == before.height,
            after.width == before.width,
            after.grid@.len() == before.grid@.len(),
            after.svg.wf(),
            after.svg.height_spec() == before.height,
            after.svg.width_spec() == before.width,
            forall|y: int, x: int| 0 <= y <= before.height_spec() ==>
                (#[trigger] after.svg_spec().h_stands(y, x) == (before.svg_spec().h_stands(y, x)
                    && !(((side == TOP && y == coord.y) || (side == BOTTOM && y == coord.y + 1)) && x == coord.x))),
            forall|x: int, y: int| 0 <= x <= before.width_spec() ==>
                (#[trigger] after.svg_spec().v_stands(x, y) == (before.svg_spec().v_stands(x, y)
                    && !(((side == RIGHT && x == coord.x + 1) || (side == LEFT && x == coord.x)) && y == coord.y))),
            forall|d: Coord| before.in_bounds(d) ==> {
                &&& (#[trigger] after.cell(d)).coord_spec() == before.cell(d).coord_spec()
                &&& after.cell(d).state_spec() == before.cell(d).state_spec()
                &&& after.cell(d).walls_spec() == if d == coord {
                    before.cell(d).walls_spec().update(side, false)
                } else if d == neighbor(coord, side) {
                    before.cell(d).walls_spec().update(opposite(side), false)
                } else {
                    before.cell(d).walls_spec()
                }
            },
        ensures
            after.wf(),
            before.opened(&after, coord, side),
    {
        let other = neighbor(coord, side);
        lemma_walls_mirrored(before, coord, side);
        assert forall|d: Coord, s: int| before.in_bounds(d) && 0 <= s < 4 implies #[trigger] after.wall(d, s) == (before.wall(d, s)
            && !((d == coord && s == side) || (d == other && s == opposite(side)))) by {
            assert(after.cell(d).walls_spec() == after.cell(d).walls_spec());
            assert(before.cell(d).walls_spec().len() == 4);
        }
        assert forall|d: Coord| before.in_bounds(d) implies #[trigger] after.state_of(d) == before.state_of(d) by {
            assert(after.cell(d).state_spec() == before.cell(d).state_spec());
        }
        assert forall|c: Coord| after.in_bounds(c) implies (#[trigger] after.cell(c)).coord_spec() == c by {
            assert(before.cell(c).coord_spec() == c);
        }
        assert forall|c: Coord| after.in_bounds(c) implies (#[trigger] after.cell(c)).walls_spec().len() == 4 by {
            assert(before.cell(c).walls_spec().len() == 4);
        }
        assert forall|c: Coord| after.in_bounds(c) && c.x + 1 < after.width_spec() implies
            #[trigger] after.wall(c, RIGHT as int) == after.wall(neighbor(c, RIGHT as int), LEFT as int) by {
            let s = RIGHT as int;
            let n = neighbor(c, s);
            assert(before.wall(c, s) == before.wall(n, opposite(s)));
            assert(after.wall(c, s) == (before.wall(c, s) && !((c == coord && s == side) || (c == other && s == opposite(side)))));
            assert(after.wall(n, opposite(s)) == (before.wall(n, opposite(s)) && !((n == coord && opposite(s) == side) || (n == other && opposite(s) == opposite(side)))));
        }
        assert forall|c: Coord| after.in_bounds(c) && c.y + 1 < after.height_spec() implies
            #[trigger] after.wall(c, BOTTOM as int) == after.wall(neighbor(c, BOTTOM as int), TOP as int) by {
            let s = BOTTOM as int;
            let n = neighbor(c, s);
            assert(before.wall(c, s) == before.wall(n, opposite(s)));
            assert(after.wall(c, s) == (before.wall(c, s) && !((c == coord && s == side) || (c == other && s == opposite(side)))));
            assert(after.wall(n, opposite(s)) == (before.wall(n, opposite(s)) && !((n == coord && opposite(s) == side) || (n == other && opposite(s) == opposite(side)))));
        }
        assert forall|c: Coord, s: int| after.in_bounds(c) && 0 <= s < 4 && !after.has_neighbor(c, s) implies
            #[trigger] after.wall(c, s) by {
            assert(before.wall(c, s));
            assert(after.wall(c, s) == (before.wall(c, s) && !((c == coord && s == side) || (c == other && s == opposite(side)))));
        }
        assert forall|y: int, x: int| 0 <= y <= after.height_spec() && 0 <= x < after.width_spec() implies
            #[trigger] after.svg_spec().h_stands(y, x) == if y < after.height_spec() {
            after.wall(Coord { y: y as usize, x: x as usize }, TOP as int)
        } else {
            after.wall(Coord { y: (y - 1) as usize, x: x as usize }, BOTTOM as int)
        } by {
            assert(before.svg_spec().h_stands(y, x) == if y < before.height_spec() {
                before.wall(Coord { y: y as usize, x: x as usize }, TOP as int)
            } else {
                before.wall(Coord { y: (y - 1) as usize, x: x as usize }, BOTTOM as int)
            });
            if y < after.height_spec() {
                let c = Coord { y: y as usize, x: x as usize };
                assert(after.wall(c, TOP as int) == (before.wall(c, TOP as int) && !((c == coord && TOP == side) || (c == other && TOP == opposite(side)))));
            } else {
                let c = Coord { y: (y - 1) as usize, x: x as usize };
                assert(after.wall(c, BOTTOM as int) == (before.wall(c, BOTTOM as int) && !((c == coord && BOTTOM == side) || (c == other && BOTTOM == opposite(side)))));
            }
        }
        assert forall|x: int, y: int| 0 <= x <= after.width_spec() && 0 <= y < after.height_spec() implies
            #[trigger] after.svg_spec().v_stands(x, y) == if x < after.width_spec() {
            after.wall(Coord { y: y as usize, x: x as usize }, LEFT as int)
        } else {
            after.wall(Coord { y: y as usize, x: (x - 1) as usize }, RIGHT as int)
        } by {
            assert(before.svg_spec().v_stands(x, y) == if x < before.width_spec() {
                before.wall(Coord { y: y as usize, x: x as usize }, LEFT as int)
            } else {
                before.wall(Coord { y: y as usize, x: (x - 1) as usize }, RIGHT as int)
            });
            if x < after.width_spec() {
                let c = Coord { y: y as usize, x: x as usize };
                assert(after.wall(c, LEFT as int) == (before.wall(c, LEFT as int) && !((c == coord && LEFT == side) || (c == other && LEFT == opposite(side)))));
            } else {
                let c = Coord { y: y as usize, x: (x - 1) as usize };
                assert(after.wall(c, RIGHT as int) == (before.wall(c, RIGHT as int) && !((c == coord && RIGHT == side) || (c == other && RIGHT == opposite(side)))));
            }
        }
    }
}

} // verus!
