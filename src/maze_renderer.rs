use vstd::prelude::*;
use crate::cell::{Coord, RIGHT, TOP};
use crate::maze::{cell_index, lemma_cell_index, Maze};
use crate::maze_svg_render::CELL_SIZE;

verus! {

/// How the renderer colours a cell.
#[derive(PartialEq, Eq, Structural, Clone, Copy, Debug)]
pub enum CellState {
    Normal,
    Frontier,
    Explored,
    Solution,
    Start,
    Finish,
}

/// One wall of one cell side, in drawing units.
#[derive(PartialEq, Eq, Structural, Hash, Clone, Copy, Debug)]
pub struct Wall {
    pub x1: i32,
    pub y1: i32,
    pub x2: i32,
    pub y2: i32,
}

/// A cell as the renderer draws it.
#[derive(PartialEq, Eq, Structural, Clone, Copy, Debug)]
pub struct Cell {
    pub x: i32,
    pub y: i32,
    pub state: CellState,
}

/// The top wall of the cell at `c`.
pub open spec fn top_wall(c: Coord) -> Wall {
    Wall {
        x1: (c.x * CELL_SIZE) as i32,
        y1: (c.y * CELL_SIZE) as i32,
        x2: (c.x * CELL_SIZE + CELL_SIZE) as i32,
        y2: (c.y * CELL_SIZE) as i32,
    }
}

/// The right wall of the cell at `c`.
pub open spec fn right_wall(c: Coord) -> Wall {
    Wall {
        x1: (c.x * CELL_SIZE + CELL_SIZE) as i32,
        y1: (c.y * CELL_SIZE) as i32,
        x2: (c.x * CELL_SIZE + CELL_SIZE) as i32,
        y2: (c.y * CELL_SIZE + CELL_SIZE) as i32,
    }
}

/// The wall `w` is the top or the right wall of the cell at `c`, and that
/// wall has been taken down in `m`.
pub open spec fn opened_at(m: &Maze, c: Coord, w: Wall) -> bool {
    &&& m.in_bounds(c)
    &&& ((!m.wall(c, TOP as int) && w == top_wall(c)) || (!m.wall(c, RIGHT as int) && w == right_wall(c)))
}

/// The wall `w` is the top or right wall of a cell of `m` that has been
/// taken down.
pub open spec fn opened_in(m: &Maze, w: Wall) -> bool {
    exists|c: Coord| #[trigger] opened_at(m, c, w)
}

/// A drawing of a maze as cells and single-side walls: the left and bottom
/// borders, and the top and right wall of every cell.
pub struct MazeRenderer {
    cells: Vec<Cell>,
    walls: Vec<Wall>,
    maze_height: i32,
    maze_width: i32,
}

/// `line` without any copy of `w`.
fn without(line: &Vec<Wall>, w: &Wall) -> (r: Vec<Wall>)
    ensures
        forall|v: Wall| #[trigger] r@.contains(v) <==> (line@.contains(v) && v != *w),
{
    let mut r: Vec<Wall> = Vec::new();
    let ghost mut from: Seq<int> = Seq::empty();
    let mut k: usize = 0;
    while k < line.len()
        invariant
            k <= line@.len(),
            from.len() == r@.len(),
            forall|i: int| 0 <= i < r@.len() ==> 0 <= #[trigger] from[i] < k && line@[from[i]] == r@[i] && r@[i] != *w,
            forall|j: int| 0 <= j < k && line@[j] != *w ==> r@.contains(#[trigger] line@[j]),
        decreases line@.len() - k,
    {
        let v = line[k];
        let ghost before = r@;
        if v != *w {
            r.push(v);
            proof {
                from = from.push(k as int);
            }
        }
        proof {
            assert forall|j: int| 0 <= j < k + 1 && line@[j] != *w implies r@.contains(#[trigger] line@[j]) by {
                if j < k {
                    let i = before.index_of(line@[j]);
                    assert(r@[i] == line@[j]);
                } else {
                    assert(r@[r@.len() - 1] == line@[j]);
                }
            }
        }
        k += 1;
    }
    proof {
        assert forall|v: Wall| #[trigger] r@.contains(v) <==> (line@.contains(v) && v != *w) by {
            if r@.contains(v) {
                let i = r@.index_of(v);
                assert(line@[from[i]] == v);
            }
            if line@.contains(v) && v != *w {
                let j = line@.index_of(v);
                assert(r@.contains(line@[j]));
            }
        }
    }
    r
}

/// `v` is the top or right wall, taken down in `m`, of a cell before
/// position `bound` in row-major order.
pub open spec fn removed_before(m: &Maze, v: Wall, bound: int) -> bool {
    exists|c: Coord| #[trigger] opened_at(m, c, v) && cell_index(m.width_spec() as int, c) < bound
}

/// One more cell in row-major order.
proof fn lemma_removed_step(m: &Maze, v: Wall, here: Coord)
    requires
        m.wf(),
        m.in_bounds(here),
    ensures
        removed_before(m, v, cell_index(m.width_spec() as int, here) + 1) == (removed_before(m, v, cell_index(m.width_spec() as int, here))
            || (!m.wall(here, TOP as int) && v == top_wall(here)) || (!m.wall(here, RIGHT as int) && v == right_wall(here))),
{
    let i = cell_index(m.width_spec() as int, here);
    if removed_before(m, v, i + 1) {
        let c = choose|c: Coord| #[trigger] opened_at(m, c, v) && cell_index(m.width_spec() as int, c) < i + 1;
        lemma_cell_index(m.height_spec() as int, m.width_spec() as int, c, here);
        if c != here {
            assert(opened_at(m, c, v) && cell_index(m.width_spec() as int, c) < i);
        }
    }
    if removed_before(m, v, i) {
        let c = choose|c: Coord| #[trigger] opened_at(m, c, v) && cell_index(m.width_spec() as int, c) < i;
        assert(opened_at(m, c, v) && cell_index(m.width_spec() as int, c) < i + 1);
    }
    if (!m.wall(here, TOP as int) && v == top_wall(here)) || (!m.wall(here, RIGHT as int) && v == right_wall(here)) {
        assert(opened_at(m, here, v) && cell_index(m.width_spec() as int, here) < i + 1);
    }
}

/// Every cell of the grid comes before position `height * width`.
proof fn lemma_removed_all(m: &Maze, v: Wall)
    requires
        m.wf(),
    ensures
        removed_before(m, v, (m.height_spec() * m.width_spec()) as int) == opened_in(m, v),
{
    if opened_in(m, v) {
        let c = choose|c: Coord| #[trigger] opened_at(m, c, v);
        lemma_cell_index(m.height_spec() as int, m.width_spec() as int, c, c);
        assert(opened_at(m, c, v) && cell_index(m.width_spec() as int, c) < m.height_spec() * m.width_spec());
    }
}

impl MazeRenderer {
    pub closed spec fn walls_spec(&self) -> Seq<Wall> {
        self.walls@
    }

    pub closed spec fn cells_spec(&self) -> Seq<Cell> {
        self.cells@
    }

    pub closed spec fn width_spec(&self) -> int {
        self.maze_width as int
    }

    /// Every cell `Normal`, and every wall of the grid drawn.
    pub fn new(maze: &Maze) -> (r: Self)
        requires
            maze.wf(),
        ensures
            r.width_spec() == maze.width_spec(),
            r.cells_spec().len() == maze.height_spec() * maze.width_spec(),
            forall|c: Coord| maze.in_bounds(c) ==> #[trigger] r.cells_spec()[cell_index(maze.width_spec() as int, c)] == (Cell {
                x: c.x as i32,
                y: c.y as i32,
                state: CellState::Normal,
            }),
            forall|c: Coord| maze.in_bounds(c) ==> r.walls_spec().contains(#[trigger] top_wall(c)) && r.walls_spec().contains(right_wall(c)),
            r.walls_spec().contains(Wall { x1: 0, y1: 0, x2: 0, y2: (maze.height_spec() * CELL_SIZE) as i32 }),
            r.walls_spec().contains(Wall {
                x1: 0,
                y1: (maze.height_spec() * CELL_SIZE) as i32,
                x2: (maze.width_spec() * CELL_SIZE) as i32,
                y2: (maze.height_spec() * CELL_SIZE) as i32,
            }),
    {
        let mut cells: Vec<Cell> = Vec::new();
        let mut walls: Vec<Wall> = Vec::new();
        let h = maze.height();
        let w = maze.width();
        let n = maze.grid().len();
        let left_border = Wall { x1: 0, y1: 0, x2: 0, y2: h as i32 * CELL_SIZE };
        walls.push(left_border);
        let bottom_border = Wall { x1: 0, y1: h as i32 * CELL_SIZE, x2: w as i32 * CELL_SIZE, y2: h as i32 * CELL_SIZE };
        walls.push(bottom_border);
        assert(walls@[0] == left_border);
        assert(walls@[1] == bottom_border);
        let mut y: usize = 0;
        while y < h
            invariant
                maze.wf(),
                h == maze.height_spec(),
                w == maze.width_spec(),
                n == h * w,
                y <= h,
                cells@.len() == y * w,
                walls@.contains(left_border),
                walls@.contains(bottom_border),
                forall|c: Coord| c.y < y && c.x < w ==> #[trigger] cells@[cell_index(w as int, c)] == (Cell {
                    x: c.x as i32,
                    y: c.y as i32,
                    state: CellState::Normal,
                }),
                forall|c: Coord| c.x < w && cell_index(w as int, c) < y * w ==> walls@.contains(#[trigger] top_wall(c)) && walls@.contains(right_wall(c)),
            decreases h - y,
        {
            let mut x: usize = 0;
            while x < w
                invariant
                    maze.wf(),
                    h == maze.height_spec(),
                    w == maze.width_spec(),
                    n == h * w,
                    y < h,
                    x <= w,
                    cells@.len() == y * w + x,
                    walls@.contains(left_border),
                    walls@.contains(bottom_border),
                    forall|c: Coord| (c.y < y && c.x < w) || (c.y == y && c.x < x) ==> #[trigger] cells@[cell_index(w as int, c)] == (Cell {
                        x: c.x as i32,
                        y: c.y as i32,
                        state: CellState::Normal,
                    }),
                    forall|c: Coord| c.x < w && cell_index(w as int, c) < y * w + x ==> walls@.contains(#[trigger] top_wall(c)) && walls@.contains(right_wall(c)),
                decreases w - x,
            {
                let here = Coord { y, x };
                proof {
                    lemma_cell_index(h as int, w as int, here, here);
                }
                let cx = x as i32;
                let cy = y as i32;
                let ghost cells_before = cells@;
                let ghost walls_before = walls@;
                cells.push(Cell { x: cx, y: cy, state: CellState::Normal });
                let top = Wall { x1: cx * CELL_SIZE, y1: cy * CELL_SIZE, x2: cx * CELL_SIZE + CELL_SIZE, y2: cy * CELL_SIZE };
                walls.push(top);
                let right = Wall {
                    x1: cx * CELL_SIZE + CELL_SIZE,
                    y1: cy * CELL_SIZE,
                    x2: cx * CELL_SIZE + CELL_SIZE,
                    y2: cy * CELL_SIZE + CELL_SIZE,
                };
                walls.push(right);
                proof {
                    assert(top == top_wall(here));
                    assert(right == right_wall(here));
                    assert(walls@ == walls_before.push(top).push(right));
                    assert forall|v: Wall| walls_before.contains(v) implies walls@.contains(v) by {
                        let i = walls_before.index_of(v);
                        assert(walls@[i] == v);
                    }
                    assert(walls@[walls@.len() - 2] == top);
                    assert(walls@[walls@.len() - 1] == right);
                    assert forall|c: Coord| (c.y < y && c.x < w) || (c.y == y && c.x < x + 1) implies #[trigger] cells@[cell_index(w as int, c)] == (Cell {
                        x: c.x as i32,
                        y: c.y as i32,
                        state: CellState::Normal,
                    }) by {
                        lemma_cell_index(h as int, w as int, here, c);
                        if c != here {
                            assert(cells@[cell_index(w as int, c)] == cells_before[cell_index(w as int, c)]);
                        }
                    }
                    assert forall|c: Coord| c.x < w && cell_index(w as int, c) < y * w + x + 1 implies walls@.contains(#[trigger] top_wall(c)) && walls@.contains(right_wall(c)) by {
                        lemma_cell_index(h as int, w as int, here, c);
                        if c != here {
                            assert(walls_before.contains(top_wall(c)));
                            assert(walls_before.contains(right_wall(c)));
                            let i = walls_before.index_of(top_wall(c));
                            assert(walls@[i] == top_wall(c));
                            let j = walls_before.index_of(right_wall(c));
                            assert(walls@[j] == right_wall(c));
                        } else {
                            assert(walls@[walls@.len() - 2] == top_wall(c));
                            assert(walls@[walls@.len() - 1] == right_wall(c));
                        }
                    }
                }
                x += 1;
            }
            proof {
                assert((y + 1) * w == y * w + w) by (nonlinear_arith);
            }
            y += 1;
        }
        proof {
            assert forall|c: Coord| maze.in_bounds(c) implies walls@.contains(#[trigger] top_wall(c)) && walls@.contains(right_wall(c)) by {
                lemma_cell_index(h as int, w as int, c, c);
            }
        }
        MazeRenderer { cells, walls, maze_width: w as i32, maze_height: h as i32 }
    }

    /// Takes out of the drawing the top and right wall of every cell whose
    /// wall has been taken down in `maze`.
    pub fn update_walls(&mut self, maze: &Maze)
        requires
            maze.wf(),
        ensures
            forall|v: Wall| #[trigger] final(self).walls_spec().contains(v) <==> (old(self).walls_spec().contains(v) && !opened_in(maze, v)),
            final(self).cells_spec() == old(self).cells_spec(),
            final(self).width_spec() == old(self).width_spec(),
    {
        let h = maze.height();
        let w = maze.width();
        let mut y: usize = 0;
        while y < h
            invariant
                maze.wf(),
                h == maze.height_spec(),
                w == maze.width_spec(),
                y <= h,
                self.cells@ == old(self).cells@,
                self.maze_width == old(self).maze_width,
                forall|v: Wall| #[trigger] self.walls@.contains(v) <==> (old(self).walls@.contains(v) && !removed_before(maze, v, (y * w) as int)),
            decreases h - y,
        {
            let mut x: usize = 0;
            while x < w
                invariant
                    maze.wf(),
                    h == maze.height_spec(),
                    w == maze.width_spec(),
                    y < h,
                    x <= w,
                    self.cells@ == old(self).cells@,
                    self.maze_width == old(self).maze_width,
                    forall|v: Wall| #[trigger] self.walls@.contains(v) <==> (old(self).walls@.contains(v) && !removed_before(maze, v, (y * w + x) as int)),
                decreases w - x,
            {
                let here = Coord { y, x };
                let cell = maze.get_cell_ref(&here);
                let cx = x as i32;
                let cy = y as i32;
                let ghost before = self.walls@;
                let top_open = !cell.walls()[TOP];
                let right_open = !cell.walls()[RIGHT];
                let top = Wall { x1: cx * CELL_SIZE, y1: cy * CELL_SIZE, x2: cx * CELL_SIZE + CELL_SIZE, y2: cy * CELL_SIZE };
                let right = Wall {
                    x1: cx * CELL_SIZE + CELL_SIZE,
                    y1: cy * CELL_SIZE,
                    x2: cx * CELL_SIZE + CELL_SIZE,
                    y2: cy * CELL_SIZE + CELL_SIZE,
                };
                proof {
                    assert(top == top_wall(here));
                    assert(right == right_wall(here));
                }
                if top_open {
                    self.walls = without(&self.walls, &top);
                }
                if right_open {
                    self.walls = without(&self.walls, &right);
                }
                proof {
                    assert(top_open == !maze.wall(here, TOP as int));
                    assert(right_open == !maze.wall(here, RIGHT as int));
                    assert forall|v: Wall| #[trigger] self.walls@.contains(v) <==> (old(self).walls@.contains(v) && !removed_before(maze, v, (y * w + x + 1) as int)) by {
                        lemma_removed_step(maze, v, here);
                    }
                }
                x += 1;
            }
            proof {
                assert((y + 1) * w == y * w + w) by (nonlinear_arith);
            }
            y += 1;
        }
        proof {
            assert forall|v: Wall| #[trigger] self.walls@.contains(v) <==> (old(self).walls@.contains(v) && !opened_in(maze, v)) by {
                lemma_removed_all(maze, v);
            }
        }
    }

    /// Sets how the cell at `cell` is coloured.
    pub fn update_cell_state(&mut self, cell: &Coord, new_state: CellState)
        requires
            0 <= cell.y * old(self).width_spec() + cell.x < old(self).cells_spec().len(),
            cell.x < old(self).width_spec(),
        ensures
            final(self).cells_spec() == old(self).cells_spec().update(cell.y * old(self).width_spec() + cell.x, Cell {
                state: new_state,
                ..old(self).cells_spec()[cell.y * old(self).width_spec() + cell.x]
            }),
            final(self).walls_spec() == old(self).walls_spec(),
            final(self).width_spec() == old(self).width_spec(),
    {
        // a vector length, so it fits in a usize
        let n = self.cells.len();
        let w = self.maze_width as usize;
        proof {
            assert(cell.y * w <= cell.y * w + cell.x);
        }
        let i = cell.y * w + cell.x;
        let mut c = self.cells[i];
        c.state = new_state;
        self.cells.set(i, c);
    }

    /// The drawn cells, row by row.
    pub fn cells(&self) -> (r: &Vec<Cell>)
        ensures
            r@ == self.cells_spec(),
    {
        &self.cells
    }

    /// The drawn walls.
    pub fn walls(&self) -> (r: &Vec<Wall>)
        ensures
            r@ == self.walls_spec(),
    {
        &self.walls
    }

    pub fn maze_width(&self) -> i32 {
        self.maze_width
    }

    pub fn maze_height(&self) -> i32 {
        self.maze_height
    }
}

} // verus!
