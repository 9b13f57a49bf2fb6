use vstd::prelude::*;
use rand::rngs::StdRng;
use crate::cell::{CellState, Coord, BOTTOM, LEFT, RIGHT, TOP};
use crate::generator_algorithms::{fresh_maze, remove_walls_between_cells, GeneratorStatus};
use crate::maze::{cell_index, lemma_cell_index, lemma_walls_mirrored, neighbor, Maze};
use crate::random::{pick_one, random_bool, seeded_rng};

verus! {

enum AddCell {
    NewSet,
    AddToSet,
}

enum Stage {
    Horizontal,
    Vertical,
    LastRow,
}

/// Eller's algorithm: one row at a time, keeping a partition of the cells
/// carved so far into sets of connected cells.
pub struct Ellers {
    current_row: usize,
    current_col: usize,
    sets_needing_vertical_connection: Vec<bool>,
    sets: Vec<Vec<Coord>>,
    cells: Vec<Option<usize>>,
    stage: Stage,
    status: GeneratorStatus,
    rng: StdRng,
}

impl Ellers {
    pub closed spec fn status_spec(&self) -> GeneratorStatus {
        self.status
    }

    /// The members of each set, by set id; a set merged into another is empty.
    pub closed spec fn sets_spec(&self) -> Seq<Seq<Coord>> {
        Seq::new(self.sets@.len(), |i: int| self.sets@[i]@)
    }

    /// The set that the cell at `c` belongs to, if any yet.
    pub closed spec fn set_at(&self, m: &Maze, c: Coord) -> Option<usize> {
        self.cells@[cell_index(m.width_spec() as int, c)]
    }

    closed spec fn row(&self) -> int {
        self.current_row as int
    }

    closed spec fn col(&self) -> int {
        self.current_col as int
    }

    closed spec fn needs(&self, id: usize) -> bool {
        id < self.sets_needing_vertical_connection@.len() && self.sets_needing_vertical_connection@[id as int]
    }

    /// The set of `c` still waits for a connection to the next row.
    closed spec fn needs_cell(&self, m: &Maze, c: Coord) -> bool {
        self.set_at(m, c) matches Some(id) && self.needs(id)
    }

    /// Set `id` has a member in row `row`.
    closed spec fn in_row(&self, m: &Maze, id: usize, row: int) -> bool {
        exists|x: usize| x < m.width_spec() && #[trigger] self.set_at(m, Coord { y: row as usize, x }) == Some(id)
    }

    closed spec fn live(&self, id: usize) -> bool {
        self.sets@[id as int]@.len() > 0
    }

    /// Set ids and members agree both ways, and the cells in a set are exactly
    /// the carved ones.
    closed spec fn sets_wf(&self, m: &Maze) -> bool {
        &&& self.cells@.len() == m.height_spec() * m.width_spec()
        &&& self.sets_needing_vertical_connection@.len() == self.sets@.len()
        &&& forall|id: int, k: int|
            0 <= id < self.sets@.len() && 0 <= k < self.sets@[id]@.len() ==> m.in_bounds(#[trigger] self.sets@[id]@[k])
                && self.set_at(m, self.sets@[id]@[k]) == Some(id as usize)
        &&& forall|c: Coord|
            m.in_bounds(c) ==> match #[trigger] self.set_at(m, c) {
                Some(id) => id < self.sets@.len() && self.sets@[id as int]@.contains(c),
                None => true,
            }
        &&& forall|c: Coord| m.in_bounds(c) ==> (#[trigger] self.set_at(m, c) is Some <==> m.state_of(c) == CellState::Path)
    }

    /// Where the work stands within the grid: rows above are done, rows
    /// below untouched, and the walls still to be looked at stand.
    closed spec fn progress_wf(&self, m: &Maze) -> bool {
        let r = self.row();
        let col = self.col();
        &&& r < m.height_spec()
        &&& col <= m.width_spec()
        &&& self.stage is Vertical ==> r + 1 < m.height_spec()
        &&& self.stage is LastRow ==> r + 1 == m.height_spec() && col < m.width_spec()
        &&& forall|c: Coord|
            m.in_bounds(c) && (c.y < r || (c.y == r && (self.stage !is Horizontal || c.x < col))) ==> (
            #[trigger] self.set_at(m, c)) is Some
        &&& forall|c: Coord|
            m.in_bounds(c) && c.y > r ==> ((#[trigger] self.set_at(m, c)) is Some <==> (c.y == r + 1
                && self.stage is Vertical && !m.wall(c, TOP as int)))
        &&& forall|c: Coord| m.in_bounds(c) && c.y > r ==> #[trigger] m.wall(c, LEFT as int) && m.wall(c, BOTTOM as int)
        &&& forall|c: Coord|
            m.in_bounds(c) && c.y == r && self.stage is Horizontal && c.x >= col ==> #[trigger] m.wall(c, LEFT as int)
        &&& forall|c: Coord|
            m.in_bounds(c) && c.y == r && (self.stage !is Vertical || c.x >= col || self.needs_cell(m, c)) ==> #[trigger] m.wall(
                c,
                BOTTOM as int,
            )
        &&& forall|c: Coord|
            m.in_bounds(c) && c.y == r && c.x >= 1 && !(#[trigger] m.wall(c, LEFT as int)) ==> self.set_at(m, c)
                == self.set_at(m, neighbor(c, LEFT as int))
        &&& self.stage !is Vertical ==> forall|id: usize|
            id < self.sets@.len() && #[trigger] self.live(id) ==> self.in_row(m, id, r)
        &&& self.stage is Vertical ==> forall|id: usize|
            id < self.sets@.len() ==> {
                &&& #[trigger] self.needs(id) ==> self.live(id) && self.in_row(m, id, r)
                &&& self.live(id) && !self.needs(id) ==> self.in_row(m, id, r + 1)
            }
        &&& self.stage !is Vertical ==> forall|id: usize| !#[trigger] self.needs(id)
        &&& forall|c: Coord|
            m.in_bounds(c) && c.y >= 1 && !(#[trigger] m.wall(c, TOP as int)) ==> self.set_at(m, c) is Some && self.set_at(m, c)
                == self.set_at(m, neighbor(c, TOP as int))
        &&& self.stage is LastRow ==> forall|x: usize|
            x <= col ==> #[trigger] self.set_at(m, Coord { y: r as usize, x }) == self.set_at(
                m,
                Coord { y: r as usize, x: 0 },
            )
    }

    /// Set `id` is the only set that still has members.
    pub open spec fn sole_set(&self, id: int) -> bool {
        &&& 0 <= id < self.sets_spec().len()
        &&& forall|j: int| 0 <= j < self.sets_spec().len() ==> (#[trigger] self.sets_spec()[j].len() > 0 <==> j == id)
    }

    /// The row being processed.
    pub closed spec fn row_spec(&self) -> int {
        self.current_row as int
    }

    /// The column being processed.
    pub closed spec fn col_spec(&self) -> int {
        self.current_col as int
    }

    /// The pass over the row: 0 joins along the row, 1 connects to the next
    /// row, 2 joins the whole last row.
    pub closed spec fn stage_rank(&self) -> int {
        match self.stage {
            Stage::Horizontal => 0,
            Stage::Vertical => 1,
            Stage::LastRow => 2,
        }
    }

    /// The sets that still wait for a connection to the next row.
    pub closed spec fn waiting(&self) -> Set<usize> {
        Set::new(|id: usize| self.needs(id))
    }

    /// `after` is strictly further on than `self`: a later row, a later pass
    /// of the same row, a later column of the same pass, or, at the same
    /// column, fewer sets waiting for a connection.
    pub open spec fn advanced(&self, after: &Ellers) -> bool {
        ||| after.row_spec() > self.row_spec()
        ||| after.row_spec() == self.row_spec() && after.stage_rank() > self.stage_rank()
        ||| after.row_spec() == self.row_spec() && after.stage_rank() == self.stage_rank() && after.col_spec() > self.col_spec()
        ||| after.row_spec() == self.row_spec() && after.stage_rank() == self.stage_rank() && after.col_spec() == self.col_spec()
            && after.waiting().subset_of(self.waiting()) && after.waiting() != self.waiting()
    }

    /// The position stays within the grid: rows up to `height`, columns up
    /// to `width`, and only existing sets wait.
    pub open spec fn position_bounded(&self, m: &Maze) -> bool {
        &&& 0 <= self.row_spec() <= m.height_spec()
        &&& 0 <= self.col_spec() <= m.width_spec()
        &&& 0 <= self.stage_rank() <= 2
        &&& forall|id: usize| #[trigger] self.waiting().contains(id) ==> id < self.sets_spec().len()
    }

    /// Clearing a waiting set leaves strictly fewer sets waiting.
    proof fn lemma_waiting_shrinks(s0: Ellers, s1: Ellers, id: usize)
        requires
            s0.needs(id),
            s1.sets_needing_vertical_connection@ == s0.sets_needing_vertical_connection@.update(id as int, false),
        ensures
            s1.waiting().subset_of(s0.waiting()),
            s1.waiting() != s0.waiting(),
    {
        assert(s0.waiting().contains(id));
        assert(!s1.waiting().contains(id));
        assert forall|j: usize| s1.waiting().contains(j) implies s0.waiting().contains(j) by {
            assert(s1.needs(j));
        }
    }

    /// Outside the connections to the next row, no set waits.
    proof fn lemma_waiting_outside(s: Ellers, m: Maze)
        requires
            s.progress_wf(&m),
        ensures
            s.stage_rank() != 1 ==> s.waiting() == Set::<usize>::empty(),
            s.stage_rank() == 2 ==> s.row_spec() + 1 == m.height_spec(),
    {
        if s.stage_rank() != 1 {
            assert(s.waiting() =~= Set::<usize>::empty());
        }
    }

    /// The position of a consistent state stays within the grid.
    proof fn lemma_bounded(s: Ellers, m: Maze)
        requires
            s.sets_wf(&m),
            s.current_row <= m.height_spec(),
            s.current_col <= m.width_spec(),
        ensures
            s.position_bounded(&m),
    {
        assert forall|id: usize| #[trigger] s.waiting().contains(id) implies id < s.sets_spec().len() by {
            assert(s.needs(id));
        }
    }

    /// Exactly one set is left.
    pub open spec fn one_set(&self) -> bool {
        exists|id: int| #[trigger] self.sole_set(id)
    }

    /// Every cell of `m` is carved, and the one set left holds them all.
    pub open spec fn all_joined(&self, m: &Maze) -> bool {
        &&& forall|c: Coord| m.in_bounds(c) ==> #[trigger] m.state_of(c) == CellState::Path
        &&& exists|id: int| #[trigger] self.sole_set(id) && forall|c: Coord| m.in_bounds(c) ==> self.sets_spec()[id].contains(c)
    }

    /// What each step relies on.
    pub closed spec fn inv(&self, m: &Maze) -> bool {
        &&& m.wf()
        &&& self.status == GeneratorStatus::Initialized ==> {
            &&& self.current_row == 0
            &&& self.current_col == 0
            &&& self.stage is Horizontal
            &&& self.sets@.len() == 0
            &&& self.sets_needing_vertical_connection@.len() == 0
            &&& fresh_maze(m)
        }
        &&& self.status != GeneratorStatus::Initialized ==> self.sets_wf(m)
        &&& self.status == GeneratorStatus::InProgress ==> self.progress_wf(m)
        &&& self.status == GeneratorStatus::Done ==> self.one_set() && self.all_joined(m) && self.current_row == m.height_spec()
        &&& self.status != GeneratorStatus::Initialized ==> self.current_row <= m.height_spec() && self.current_col <= m.width_spec()
            && self.sets_needing_vertical_connection@.len() == self.sets@.len()
    }

    /// A generator whose random choices follow from `seed`.
    pub fn new(seed: u64) -> (r: Self)
        ensures
            r.status_spec() == GeneratorStatus::Initialized,
            forall|m: &Maze| m.wf() && fresh_maze(m) ==> r.inv(m),
    {
        Ellers {
            current_row: 0,
            current_col: 0,
            sets_needing_vertical_connection: Vec::new(),
            sets: Vec::new(),
            cells: Vec::new(),
            stage: Stage::Horizontal,
            status: GeneratorStatus::Initialized,
            rng: seeded_rng(seed),
        }
    }

    pub fn status(&self) -> (r: &GeneratorStatus)
        ensures
            *r == self.status_spec(),
    {
        &self.status
    }

    /// The members of each set, by set id; a set merged into another is empty.
    pub fn sets(&self) -> (r: &Vec<Vec<Coord>>)
        ensures
            r@.len() == self.sets_spec().len(),
            forall|i: int| 0 <= i < r@.len() ==> #[trigger] r@[i]@ == self.sets_spec()[i],
    {
        &self.sets
    }

    /// Position of `c` in `cells`.
    fn cell_pos(&self, maze: &Maze, c: &Coord) -> (r: usize)
        requires
            maze.wf(),
            maze.in_bounds(*c),
            self.cells@.len() == maze.height_spec() * maze.width_spec(),
        ensures
            r == cell_index(maze.width_spec() as int, *c),
            r < self.cells@.len(),
    {
        proof {
            lemma_cell_index(maze.height_spec() as int, maze.width_spec() as int, *c, *c);
        }
        // the bookkeeping holds one entry per cell, which bounds the index
        let n = self.cells.len();
        c.y * maze.width() + c.x
    }

    /// Puts the cell at `cell_coord` in a new set of its own, or adds it to
    /// the set `set_id`.
    #[inline]
    fn add_new_cell(&mut self, maze: &Maze, cell_coord: &Coord, set_id: usize, add_type: AddCell)
        requires
            maze.wf(),
            maze.in_bounds(*cell_coord),
            old(self).cells@.len() == maze.height_spec() * maze.width_spec(),
            old(self).sets_needing_vertical_connection@.len() == old(self).sets@.len(),
            add_type is AddToSet ==> set_id < old(self).sets@.len(),
        ensures
            final(self).current_row == old(self).current_row,
            final(self).current_col == old(self).current_col,
            final(self).stage == old(self).stage,
            final(self).status == old(self).status,
            final(self).cells@.len() == old(self).cells@.len(),
            final(self).sets_needing_vertical_connection@.len() == final(self).sets@.len(),
            add_type is NewSet ==> {
                &&& final(self).sets@.len() == old(self).sets@.len() + 1
                &&& forall|j: int| 0 <= j < old(self).sets@.len() ==> #[trigger] final(self).sets@[j]@ == old(self).sets@[j]@
                &&& final(self).sets@[old(self).sets@.len() as int]@ == seq![*cell_coord]
                &&& final(self).sets_needing_vertical_connection@ == old(self).sets_needing_vertical_connection@.push(false)
                &&& final(self).cells@ == old(self).cells@.update(cell_index(maze.width_spec() as int, *cell_coord), Some(old(self).sets@.len() as usize))
                &&& old(self).sets@.len() <= usize::MAX
            },
            add_type is AddToSet ==> {
                &&& final(self).sets@.len() == old(self).sets@.len()
                &&& forall|j: int| 0 <= j < old(self).sets@.len() && j != set_id ==> #[trigger] final(self).sets@[j]@ == old(self).sets@[j]@
                &&& final(self).sets@[set_id as int]@ == old(self).sets@[set_id as int]@.push(*cell_coord)
                &&& final(self).sets_needing_vertical_connection@ == old(self).sets_needing_vertical_connection@
                &&& final(self).cells@ == old(self).cells@.update(cell_index(maze.width_spec() as int, *cell_coord), Some(set_id))
            },
    {
        let i = self.cell_pos(maze, cell_coord);
        match add_type {
            AddCell::NewSet => {
                let id = self.sets.len();
                self.sets.push(vec![*cell_coord]);
                self.sets_needing_vertical_connection.push(false);
                self.cells.set(i, Some(id));
                assert(self.sets@[id as int]@ =~= seq![*cell_coord]);
            },
            AddCell::AddToSet => {
                self.sets[set_id].push(*cell_coord);
                self.cells.set(i, Some(set_id));
            },
        }
    }

    /// Moves every member of the set of `second_cell` into the set of
    /// `first_cell`; the second set is left empty.
    #[inline]
    fn merge_cell_sets(&mut self, maze: &Maze, first_cell: &Coord, second_cell: &Coord)
        requires
            old(self).sets_wf(maze),
            maze.wf(),
            maze.in_bounds(*first_cell),
            maze.in_bounds(*second_cell),
            old(self).set_at(maze, *first_cell) is Some,
            old(self).set_at(maze, *second_cell) is Some,
            old(self).set_at(maze, *first_cell) != old(self).set_at(maze, *second_cell),
        ensures
            final(self).sets_wf(maze),
            final(self).current_row == old(self).current_row,
            final(self).current_col == old(self).current_col,
            final(self).stage == old(self).stage,
            final(self).status == old(self).status,
            final(self).sets@.len() == old(self).sets@.len(),
            final(self).sets_needing_vertical_connection@ == old(self).sets_needing_vertical_connection@,
            ({
                let first = old(self).set_at(maze, *first_cell).unwrap();
                let second = old(self).set_at(maze, *second_cell).unwrap();
                &&& final(self).sets@[first as int]@ == old(self).sets@[first as int]@ + old(self).sets@[second as int]@
                &&& final(self).sets@[second as int]@.len() == 0
                &&& forall|id: int| 0 <= id < final(self).sets@.len() && id != first && id != second ==> #[trigger] final(self).sets@[id]
                    == old(self).sets@[id]
            }),
            ({
                let first = old(self).set_at(maze, *first_cell).unwrap();
                let second = old(self).set_at(maze, *second_cell).unwrap();
                &&& forall|c: Coord| maze.in_bounds(c) ==> #[trigger] final(self).set_at(maze, c) == if old(self).set_at(maze, c) == Some(second) {
                    Some(first)
                } else {
                    old(self).set_at(maze, c)
                }
                &&& forall|id: usize| id < final(self).sets@.len() ==> (#[trigger] final(self).live(id) <==> (old(self).live(id) && id != second))
            }),
    {
        let first_pos = self.cell_pos(maze, first_cell);
        let second_pos = self.cell_pos(maze, second_cell);
        let first_set_id = match self.cells[first_pos] {
            Some(id) => id,
            None => {
                return;
            },
        };
        let second_set_id = match self.cells[second_pos] {
            Some(id) => id,
            None => {
                return;
            },
        };
        assert(self.sets@[first_set_id as int]@.contains(*first_cell));
        let mut second_set_cells: Vec<Coord> = Vec::new();
        std::mem::swap(&mut second_set_cells, &mut self.sets[second_set_id]);
        let ghost before = *old(self);
        let ghost moved = second_set_cells@;
        let mut k: usize = 0;
        while k < second_set_cells.len()
            invariant
                maze.wf(),
                0 <= k <= moved.len(),
                second_set_cells@ == moved,
                moved == before.sets@[second_set_id as int]@,
                first_set_id != second_set_id,
                first_set_id < before.sets@.len(),
                second_set_id < before.sets@.len(),
                self.cells@.len() == before.cells@.len(),
                self.sets@.len() == before.sets@.len(),
                self.sets_needing_vertical_connection@ == before.sets_needing_vertical_connection@,
                self.current_row == before.current_row,
                self.current_col == before.current_col,
                self.stage == before.stage,
                self.status == before.status,
                before.sets_wf(maze),
                self.sets@[second_set_id as int]@.len() == 0,
                self.sets@[first_set_id as int]@ == before.sets@[first_set_id as int]@ + moved.subrange(0, k as int),
                forall|id: int| 0 <= id < self.sets@.len() && id != first_set_id && id != second_set_id ==> #[trigger] self.sets@[id] == before.sets@[id],
                forall|c: Coord| maze.in_bounds(c) ==> #[trigger] self.set_at(maze, c) == if moved.subrange(0, k as int).contains(c) {
                    Some(first_set_id)
                } else {
                    before.set_at(maze, c)
                },
            decreases moved.len() - k,
        {
            let cell = second_set_cells[k];
            assert(maze.in_bounds(before.sets@[second_set_id as int]@[k as int]));
            let pc = self.cell_pos(maze, &cell);
            let ghost prev = *self;
            self.cells.set(pc, Some(first_set_id));
            self.sets[first_set_id].push(cell);
            proof {
                assert(moved.subrange(0, k + 1) =~= moved.subrange(0, k as int).push(cell));
                assert forall|c: Coord| maze.in_bounds(c) implies #[trigger] self.set_at(maze, c) == if moved.subrange(0, k + 1).contains(c) {
                    Some(first_set_id)
                } else {
                    before.set_at(maze, c)
                } by {
                    lemma_cell_index(maze.height_spec() as int, maze.width_spec() as int, c, cell);
                    lemma_cell_index(maze.height_spec() as int, maze.width_spec() as int, cell, c);
                    assert(prev.set_at(maze, c) == if moved.subrange(0, k as int).contains(c) {
                        Some(first_set_id)
                    } else {
                        before.set_at(maze, c)
                    });
                    if c != cell {
                        assert(self.set_at(maze, c) == prev.set_at(maze, c));
                        assert(moved.subrange(0, k + 1).contains(c) == moved.subrange(0, k as int).contains(c));
                    } else {
                        assert(moved.subrange(0, k + 1)[k as int] == c);
                    }
                }
                assert(self.sets@[first_set_id as int]@ =~= before.sets@[first_set_id as int]@ + moved.subrange(0, k + 1));
            }
            k += 1;
        }
        // a vector length: this bounds the number of sets by usize::MAX
        let nsets = self.sets.len();
        proof {
            assert(moved.subrange(0, moved.len() as int) =~= moved);
            let first = first_set_id;
            let second = second_set_id;
            assert forall|c: Coord| maze.in_bounds(c) implies #[trigger] self.set_at(maze, c) == if before.set_at(maze, c) == Some(second) {
                Some(first)
            } else {
                before.set_at(maze, c)
            } by {
                if moved.contains(c) {
                    let k = moved.index_of(c);
                    assert(before.set_at(maze, before.sets@[second as int]@[k]) == Some(second));
                }
            }
            assert forall|id: int, k: int|
                0 <= id < self.sets@.len() && 0 <= k < self.sets@[id]@.len() implies maze.in_bounds(#[trigger] self.sets@[id]@[k])
                    && self.set_at(maze, self.sets@[id]@[k]) == Some(id as usize) by {
                if id == first {
                    let n = before.sets@[first as int]@.len();
                    if k < n {
                        assert(self.sets@[id]@[k] == before.sets@[id]@[k]);
                        assert(before.set_at(maze, before.sets@[id]@[k]) == Some(first));
                        assert(self.set_at(maze, before.sets@[id]@[k]) == Some(first));
                    } else {
                        assert(self.sets@[id]@[k] == moved[k - n]);
                        assert(before.set_at(maze, before.sets@[second as int]@[k - n]) == Some(second));
                        assert(self.set_at(maze, moved[k - n]) == Some(first));
                    }
                } else if id == second {
                    assert(self.sets@[id]@.len() == 0);
                } else {
                    assert(self.sets@[id] == before.sets@[id]);
                    assert(before.set_at(maze, before.sets@[id]@[k]) == Some(id as usize));
                    assert(self.set_at(maze, before.sets@[id]@[k]) == Some(id as usize));
                }
            }
            assert forall|c: Coord| maze.in_bounds(c) implies match #[trigger] self.set_at(maze, c) {
                Some(id) => id < self.sets@.len() && self.sets@[id as int]@.contains(c),
                None => true,
            } by {
                match before.set_at(maze, c) {
                    Some(id) => {
                        if id == second {
                            let k = moved.index_of(c);
                            assert(self.sets@[first as int]@[before.sets@[first as int]@.len() + k] == c);
                        } else if id == first {
                            let k = before.sets@[first as int]@.index_of(c);
                            assert(self.sets@[first as int]@[k] == c);
                        } else {
                            assert(self.sets@[id as int] == before.sets@[id as int]);
                        }
                    },
                    None => {},
                }
            }
            assert forall|c: Coord| maze.in_bounds(c) implies (#[trigger] self.set_at(maze, c) is Some <==> maze.state_of(c) == CellState::Path) by {
                assert(before.set_at(maze, c) is Some <==> maze.state_of(c) == CellState::Path);
            }
            assert forall|id: usize| id < self.sets@.len() implies (#[trigger] self.live(id) <==> (before.live(id) && id != second)) by {
                if id == first {
                    assert(before.sets@[first as int]@.len() > 0);
                }
            }
        }
    }

    /// Putting the unassigned, just visited cell `c` into set `id` keeps the
    /// sets consistent with the maze.
    proof fn lemma_assigned(before: Ellers, after: Ellers, mb: Maze, ma: Maze, c: Coord, id: int)
        requires
            before.sets_wf(&mb),
            mb.wf(),
            ma.wf(),
            mb.in_bounds(c),
            before.set_at(&mb, c) is None,
            mb.restated(&ma, c, CellState::Path),
            0 <= id < after.sets@.len(),
            before.sets@.len() <= usize::MAX,
            id <= usize::MAX,
            after.sets@.len() == before.sets@.len() || (after.sets@.len() == before.sets@.len() + 1 && id == before.sets@.len()),
            forall|j: int| 0 <= j < after.sets@.len() && j != id ==> #[trigger] after.sets@[j]@ == before.sets@[j]@,
            after.sets@[id]@ == (if id < before.sets@.len() { before.sets@[id]@ } else { Seq::empty() }).push(c),
            after.sets_needing_vertical_connection@.len() == after.sets@.len(),
            after.cells@ == before.cells@.update(cell_index(mb.width_spec() as int, c), Some(id as usize)),
        ensures
            after.sets_wf(&ma),
            forall|d: Coord| ma.in_bounds(d) ==> #[trigger] after.set_at(&ma, d) == if d == c { Some(id as usize) } else { before.set_at(&mb, d) },
            forall|j: usize| j < after.sets@.len() ==> (#[trigger] after.live(j) <==> (j == id || (j < before.sets@.len() && before.live(j)))),
    {
        lemma_cell_index(mb.height_spec() as int, mb.width_spec() as int, c, c);
        assert(ma.height_spec() * ma.width_spec() == mb.height_spec() * mb.width_spec());
        assert forall|d: Coord| ma.in_bounds(d) implies #[trigger] after.set_at(&ma, d) == if d == c { Some(id as usize) } else { before.set_at(&mb, d) } by {
            lemma_cell_index(mb.height_spec() as int, mb.width_spec() as int, c, d);
            lemma_cell_index(mb.height_spec() as int, mb.width_spec() as int, d, c);
        }
        assert forall|j: int, k: int|
            0 <= j < after.sets@.len() && 0 <= k < after.sets@[j]@.len() implies ma.in_bounds(#[trigger] after.sets@[j]@[k])
                && after.set_at(&ma, after.sets@[j]@[k]) == Some(j as usize) by {
            if j == id && k == after.sets@[j]@.len() - 1 {
                assert(after.sets@[j]@[k] == c);
            } else {
                assert(after.sets@[j]@[k] == before.sets@[j]@[k]);
                assert(before.set_at(&mb, before.sets@[j]@[k]) == Some(j as usize));
            }
        }
        assert forall|d: Coord| ma.in_bounds(d) implies match #[trigger] after.set_at(&ma, d) {
            Some(j) => j < after.sets@.len() && after.sets@[j as int]@.contains(d),
            None => true,
        } by {
            if d == c {
                assert(after.sets@[id]@[after.sets@[id]@.len() - 1] == c);
            } else {
                match before.set_at(&mb, d) {
                    Some(j) => {
                        let k = before.sets@[j as int]@.index_of(d);
                        if j as int == id {
                            assert(after.sets@[id]@[k] == d);
                        } else {
                            assert(after.sets@[j as int]@ == before.sets@[j as int]@);
                        }
                    },
                    None => {},
                }
            }
        }
        assert forall|d: Coord| ma.in_bounds(d) implies (#[trigger] after.set_at(&ma, d) is Some <==> ma.state_of(d) == CellState::Path) by {
            if d != c {
                assert(before.set_at(&mb, d) is Some <==> mb.state_of(d) == CellState::Path);
            }
        }
        assert(after.cells@.len() == ma.height_spec() * ma.width_spec());
        assert(after.sets_needing_vertical_connection@.len() == after.sets@.len());
        assert forall|j: usize| j < after.sets@.len() implies (#[trigger] after.live(j) <==> (j == id || (j < before.sets@.len() && before.live(j)))) by {
            if j != id {
                assert(after.sets@[j as int]@ == before.sets@[j as int]@);
            }
        }
    }

    /// Only the cell states matter to the consistency of the sets.
    proof fn lemma_sets_wf_states(&self, m1: Maze, m2: Maze)
        requires
            self.sets_wf(&m1),
            m2.height_spec() == m1.height_spec(),
            m2.width_spec() == m1.width_spec(),
            forall|d: Coord| m1.in_bounds(d) ==> #[trigger] m2.state_of(d) == m1.state_of(d),
        ensures
            self.sets_wf(&m2),
    {
        assert(m2.height_spec() * m2.width_spec() == m1.height_spec() * m1.width_spec());
        assert forall|id: int, k: int|
            0 <= id < self.sets@.len() && 0 <= k < self.sets@[id]@.len() implies m2.in_bounds(#[trigger] self.sets@[id]@[k])
                && self.set_at(&m2, self.sets@[id]@[k]) == Some(id as usize) by {
            assert(self.set_at(&m1, self.sets@[id]@[k]) == Some(id as usize));
        }
        assert forall|c: Coord| m2.in_bounds(c) implies match #[trigger] self.set_at(&m2, c) {
            Some(id) => id < self.sets@.len() && self.sets@[id as int]@.contains(c),
            None => true,
        } by {
            assert(self.set_at(&m2, c) == self.set_at(&m1, c));
        }
        assert forall|d: Coord| m2.in_bounds(d) implies (#[trigger] self.set_at(&m2, d) is Some <==> m2.state_of(d) == CellState::Path) by {
            assert(self.set_at(&m2, d) == self.set_at(&m1, d));
            assert(self.set_at(&m1, d) is Some <==> m1.state_of(d) == CellState::Path);
        }
    }

    /// The consistency of the sets depends on the sets and cells alone.
    proof fn lemma_sets_wf_same(s1: Ellers, s2: Ellers, m: Maze)
        requires
            s1.sets_wf(&m),
            s2.cells == s1.cells,
            s2.sets == s1.sets,
            s2.sets_needing_vertical_connection@.len() == s1.sets_needing_vertical_connection@.len(),
        ensures
            s2.sets_wf(&m),
    {
        assert forall|c: Coord| m.in_bounds(c) implies #[trigger] s2.set_at(&m, c) == s1.set_at(&m, c) by {}
    }

    /// Drawing from the generator's randomness changes none of the invariants.
    proof fn lemma_same_fields(s1: Ellers, s2: Ellers, m: Maze)
        requires
            s2.cells == s1.cells,
            s2.sets == s1.sets,
            s2.sets_needing_vertical_connection == s1.sets_needing_vertical_connection,
            s2.current_row == s1.current_row,
            s2.current_col == s1.current_col,
            s2.stage == s1.stage,
        ensures
            s1.sets_wf(&m) ==> s2.sets_wf(&m),
            s1.progress_wf(&m) ==> s2.progress_wf(&m),
    {
        assert forall|c: Coord| m.in_bounds(c) implies #[trigger] s2.set_at(&m, c) == s1.set_at(&m, c) by {}
        assert forall|j: usize| #[trigger] s2.live(j) == s1.live(j) by {}
        assert forall|j: usize| #[trigger] s2.needs(j) == s1.needs(j) by {}
        assert forall|j: usize, r: int| #[trigger] s2.in_row(&m, j, r) == s1.in_row(&m, j, r) by {
            if s1.in_row(&m, j, r) {
                let x = choose|x: usize| x < m.width_spec() && #[trigger] s1.set_at(&m, Coord { y: r as usize, x }) == Some(j);
                assert(s2.set_at(&m, Coord { y: r as usize, x }) == Some(j));
            }
            if s2.in_row(&m, j, r) {
                let x = choose|x: usize| x < m.width_spec() && #[trigger] s2.set_at(&m, Coord { y: r as usize, x }) == Some(j);
                assert(s1.set_at(&m, Coord { y: r as usize, x }) == Some(j));
            }
        }
    }

    /// Same work position and same sets.
    closed spec fn same_progress(&self, other: &Ellers) -> bool {
        &&& other.current_row == self.current_row
        &&& other.current_col == self.current_col
        &&& other.stage == self.stage
    }

    /// Giving the cell at the current position of the row pass a new set
    /// keeps the progress invariant.
    proof fn lemma_h_assign(s0: Ellers, m0: Maze, s1: Ellers, m1: Maze, cur: Coord, id: int)
        requires
            m0.wf(),
            m1.wf(),
            s0.sets_wf(&m0),
            s0.progress_wf(&m0),
            s0.stage is Horizontal,
            cur == (Coord { y: s0.current_row, x: s0.current_col }),
            s0.current_col < m0.width_spec(),
            s0.set_at(&m0, cur) is None,
            m0.restated(&m1, cur, CellState::Path),
            s0.same_progress(&s1),
            s1.sets@.len() >= s0.sets@.len(),
            forall|d: Coord| m1.in_bounds(d) ==> #[trigger] s1.set_at(&m1, d) == if d == cur { Some(id as usize) } else { s0.set_at(&m0, d) },
            forall|j: usize| j < s1.sets@.len() ==> (#[trigger] s1.live(j) <==> (j == id || (j < s0.sets@.len() && s0.live(j)))),
            forall|j: usize| #[trigger] s1.needs(j) ==> s0.needs(j),
        ensures
            s1.progress_wf(&m1),
            s1.set_at(&m1, cur) is Some,
    {
        let r = s0.row();
        assert forall|j: usize| j < s1.sets@.len() && #[trigger] s1.live(j) implies s1.in_row(&m1, j, r) by {
            if j == id {
                assert(s1.set_at(&m1, Coord { y: r as usize, x: cur.x }) == Some(j));
            } else {
                assert(s0.live(j));
                assert(s0.in_row(&m0, j, r));
                let x = choose|x: usize| x < m0.width_spec() && #[trigger] s0.set_at(&m0, Coord { y: r as usize, x }) == Some(j);
                assert(s1.set_at(&m1, Coord { y: r as usize, x }) == Some(j));
            }
        }
        assert forall|c: Coord|
            m1.in_bounds(c) && c.y == r && c.x >= 1 && !(#[trigger] m1.wall(c, LEFT as int)) implies s1.set_at(&m1, c)
                == s1.set_at(&m1, neighbor(c, LEFT as int)) by {
            assert(m0.wall(c, LEFT as int) == m1.wall(c, LEFT as int));
            assert(s0.set_at(&m0, c) == s0.set_at(&m0, neighbor(c, LEFT as int)));
        }
        assert forall|c: Coord|
            m1.in_bounds(c) && c.y > r implies ((#[trigger] s1.set_at(&m1, c)) is Some <==> (c.y == r + 1
                && s1.stage is Vertical && !m1.wall(c, TOP as int))) by {
            assert(s0.set_at(&m0, c) is None);
        }
        assert forall|c: Coord| m1.in_bounds(c) && c.y > r implies #[trigger] m1.wall(c, LEFT as int) && m1.wall(c, BOTTOM as int) by {
            assert(m0.wall(c, LEFT as int) && m0.wall(c, BOTTOM as int));
        }
        assert forall|c: Coord|
            m1.in_bounds(c) && c.y == r && s1.stage is Horizontal && c.x >= s1.col() implies #[trigger] m1.wall(c, LEFT as int) by {
            assert(m0.wall(c, LEFT as int));
        }
        assert forall|c: Coord|
            m1.in_bounds(c) && c.y == r && (s1.stage !is Vertical || c.x >= s1.col() || s1.needs_cell(&m1, c)) implies #[trigger] m1.wall(
                c,
                BOTTOM as int,
            ) by {
            assert(m0.wall(c, BOTTOM as int));
        }
        assert forall|id: usize| s1.stage !is Vertical implies !#[trigger] s1.needs(id) by {
            assert(s1.needs(id) ==> s0.needs(id));
        }
        assert forall|c: Coord|
            m1.in_bounds(c) && c.y >= 1 && !(#[trigger] m1.wall(c, TOP as int)) implies s1.set_at(&m1, c) is Some && s1.set_at(&m1, c)
                == s1.set_at(&m1, neighbor(c, TOP as int)) by {
            assert(m0.in_bounds(c));
            assert(m1.wall(c, TOP as int) == m0.wall(c, TOP as int));
            assert(s0.set_at(&m0, c) is Some && s0.set_at(&m0, c) == s0.set_at(&m0, neighbor(c, TOP as int)));
            assert(m0.in_bounds(neighbor(c, TOP as int)));
            assert(c != cur);
            assert(neighbor(c, TOP as int) != cur);
        }
    }

    /// Moving on to the next cell of the row pass, once the current one has
    /// a set.
    proof fn lemma_h_advance(s1: Ellers, s2: Ellers, m: Maze)
        requires
            m.wf(),
            s1.progress_wf(&m),
            s1.stage is Horizontal,
            s1.current_col < m.width_spec(),
            s1.set_at(&m, Coord { y: s1.current_row, x: s1.current_col }) is Some,
            s2.current_row == s1.current_row,
            s2.current_col == s1.current_col + 1,
            s2.stage == s1.stage,
            s2.cells == s1.cells,
            s2.sets == s1.sets,
            s2.sets_needing_vertical_connection == s1.sets_needing_vertical_connection,
        ensures
            s2.progress_wf(&m),
    {
        let r = s1.row();
        assert(s2.row() == r);
        assert(s2.col() == s1.col() + 1);
        assert forall|c: Coord| m.in_bounds(c) implies #[trigger] s2.set_at(&m, c) == s1.set_at(&m, c) by {}
        assert forall|c: Coord|
            m.in_bounds(c) && (c.y < r || (c.y == r && (s2.stage !is Horizontal || c.x < s2.col()))) implies (
            #[trigger] s2.set_at(&m, c)) is Some by {
            assert(s1.set_at(&m, c) == s2.set_at(&m, c));
            if c.y == r && c.x == s1.col() {
                assert(c == Coord { y: s1.current_row, x: s1.current_col });
            } else {
                assert(s1.set_at(&m, c) is Some);
            }
        }
        assert forall|c: Coord|
            m.in_bounds(c) && c.y > r implies ((#[trigger] s2.set_at(&m, c)) is Some <==> (c.y == r + 1
                && s2.stage is Vertical && !m.wall(c, TOP as int))) by {
            assert(s1.set_at(&m, c) == s2.set_at(&m, c));
        }
        assert forall|c: Coord|
            m.in_bounds(c) && c.y == r && (s2.stage !is Vertical || c.x >= s2.col() || s2.needs_cell(&m, c)) implies #[trigger] m.wall(
                c,
                BOTTOM as int,
            ) by {
        }
        assert forall|c: Coord|
            m.in_bounds(c) && c.y == r && c.x >= 1 && !(#[trigger] m.wall(c, LEFT as int)) implies s2.set_at(&m, c)
                == s2.set_at(&m, neighbor(c, LEFT as int)) by {
            assert(s1.set_at(&m, c) == s1.set_at(&m, neighbor(c, LEFT as int)));
            assert(s1.set_at(&m, neighbor(c, LEFT as int)) == s2.set_at(&m, neighbor(c, LEFT as int)));
        }
        assert forall|j: usize| j < s2.sets@.len() && #[trigger] s2.live(j) implies s2.in_row(&m, j, r) by {
            assert(s1.live(j));
            assert(s1.in_row(&m, j, r));
            let x = choose|x: usize| x < m.width_spec() && #[trigger] s1.set_at(&m, Coord { y: r as usize, x }) == Some(j);
            assert(s2.set_at(&m, Coord { y: r as usize, x }) == Some(j));
        }
        assert forall|id: usize| s2.stage !is Vertical implies !#[trigger] s2.needs(id) by {
            assert(s1.needs(id) == s2.needs(id));
        }
        assert forall|c: Coord|
            m.in_bounds(c) && c.y >= 1 && !(#[trigger] m.wall(c, TOP as int)) implies s2.set_at(&m, c) is Some && s2.set_at(&m, c)
                == s2.set_at(&m, neighbor(c, TOP as int)) by {
            assert(s1.set_at(&m, c) is Some && s1.set_at(&m, c) == s1.set_at(&m, neighbor(c, TOP as int)));
            assert(s1.set_at(&m, neighbor(c, TOP as int)) == s2.set_at(&m, neighbor(c, TOP as int)));
            assert(s1.set_at(&m, c) == s2.set_at(&m, c));
        }
    }

    /// Joining the sets of the cell just passed and of the cell on its left,
    /// and taking down the wall between them, keeps the progress invariant.
    #[verifier::spinoff_prover]
    proof fn lemma_h_merge(s2: Ellers, m2: Maze, s3: Ellers, m3: Maze, cur: Coord)
        requires
            m2.wf(),
            m3.wf(),
            s2.progress_wf(&m2),
            s2.stage is Horizontal,
            cur == (Coord { y: s2.current_row, x: (s2.current_col - 1) as usize }),
            s2.current_col >= 2,
            s2.current_col <= m2.width_spec(),
            s2.same_progress(&s3),
            s3.sets@.len() == s2.sets@.len(),
            s3.sets_needing_vertical_connection@ == s2.sets_needing_vertical_connection@,
            m2.opened(&m3, cur, LEFT as int),
            s2.set_at(&m2, cur) is Some,
            s2.set_at(&m2, neighbor(cur, LEFT as int)) is Some,
            ({
                let first = s2.set_at(&m2, cur).unwrap();
                let second = s2.set_at(&m2, neighbor(cur, LEFT as int)).unwrap();
                &&& forall|c: Coord| m2.in_bounds(c) ==> #[trigger] s3.set_at(&m3, c) == if s2.set_at(&m2, c) == Some(second) {
                    Some(first)
                } else {
                    s2.set_at(&m2, c)
                }
                &&& forall|id: usize| id < s3.sets@.len() ==> (#[trigger] s3.live(id) <==> (s2.live(id) && id != second))
            }),
        ensures
            s3.progress_wf(&m3),
    {
        let r = s2.row();
        let first = s2.set_at(&m2, cur).unwrap();
        let second = s2.set_at(&m2, neighbor(cur, LEFT as int)).unwrap();
        let prev = neighbor(cur, LEFT as int);
        assert forall|c: Coord|
            m3.in_bounds(c) && (c.y < r || (c.y == r && (s3.stage !is Horizontal || c.x < s3.col()))) implies (
            #[trigger] s3.set_at(&m3, c)) is Some by {
            assert(s2.set_at(&m2, c) is Some);
        }
        assert forall|c: Coord|
            m3.in_bounds(c) && c.y > r implies ((#[trigger] s3.set_at(&m3, c)) is Some <==> (c.y == r + 1
                && s3.stage is Vertical && !m3.wall(c, TOP as int))) by {
            assert(s2.set_at(&m2, c) is None);
        }
        assert forall|c: Coord| m3.in_bounds(c) && c.y > r implies #[trigger] m3.wall(c, LEFT as int) && m3.wall(c, BOTTOM as int) by {
            assert(m2.in_bounds(c));
            assert(m2.wall(c, LEFT as int));
            assert(m2.wall(c, BOTTOM as int));
            assert(c != cur && c != neighbor(cur, LEFT as int));
        }
        assert forall|c: Coord|
            m3.in_bounds(c) && c.y == r && s3.stage is Horizontal && c.x >= s3.col() implies #[trigger] m3.wall(c, LEFT as int) by {
            assert(m2.wall(c, LEFT as int));
        }
        assert forall|c: Coord|
            m3.in_bounds(c) && c.y == r && (s3.stage !is Vertical || c.x >= s3.col() || s3.needs_cell(&m3, c)) implies #[trigger] m3.wall(
                c,
                BOTTOM as int,
            ) by {
            assert(m2.wall(c, BOTTOM as int));
        }
        assert forall|c: Coord|
            m3.in_bounds(c) && c.y == r && c.x >= 1 && !(#[trigger] m3.wall(c, LEFT as int)) implies s3.set_at(&m3, c)
                == s3.set_at(&m3, neighbor(c, LEFT as int)) by {
            if c == cur {
                assert(s3.set_at(&m3, prev) == Some(first));
            } else {
                assert(m2.wall(c, LEFT as int) == m3.wall(c, LEFT as int));
                assert(s2.set_at(&m2, c) == s2.set_at(&m2, neighbor(c, LEFT as int)));
                assert(m2.in_bounds(neighbor(c, LEFT as int)));
                assert(s3.set_at(&m3, neighbor(c, LEFT as int)) == if s2.set_at(&m2, neighbor(c, LEFT as int)) == Some(second) {
                    Some(first)
                } else {
                    s2.set_at(&m2, neighbor(c, LEFT as int))
                });
            }
        }
        assert forall|j: usize| j < s3.sets@.len() && #[trigger] s3.live(j) implies s3.in_row(&m3, j, r) by {
            assert(s2.live(j));
            assert(s2.in_row(&m2, j, r));
            let x = choose|x: usize| x < m2.width_spec() && #[trigger] s2.set_at(&m2, Coord { y: r as usize, x }) == Some(j);
            assert(s3.set_at(&m3, Coord { y: r as usize, x }) == Some(j));
        }
        assert forall|id: usize| s3.stage !is Vertical implies !#[trigger] s3.needs(id) by {
            assert(s2.needs(id) == s3.needs(id));
        }
        assert forall|c: Coord|
            m3.in_bounds(c) && c.y >= 1 && !(#[trigger] m3.wall(c, TOP as int)) implies s3.set_at(&m3, c) is Some && s3.set_at(&m3, c)
                == s3.set_at(&m3, neighbor(c, TOP as int)) by {
            assert(m2.in_bounds(c));
            assert(m3.wall(c, TOP as int) == m2.wall(c, TOP as int));
            assert(s2.set_at(&m2, c) is Some && s2.set_at(&m2, c) == s2.set_at(&m2, neighbor(c, TOP as int)));
            assert(m2.in_bounds(neighbor(c, TOP as int)));
            assert(s3.set_at(&m3, neighbor(c, TOP as int)) == if s2.set_at(&m2, neighbor(c, TOP as int)) == Some(s2.set_at(&m2, neighbor(cur, LEFT as int)).unwrap()) {
                Some(s2.set_at(&m2, cur).unwrap())
            } else {
                s2.set_at(&m2, neighbor(c, TOP as int))
            });
        }
    }

    /// At the end of the row pass, starting the connections to the next row
    /// (every live set still needs one) keeps the progress invariant.
    proof fn lemma_to_vertical(s: Ellers, s2: Ellers, m: Maze)
        requires
            m.wf(),
            s.progress_wf(&m),
            s.stage is Horizontal,
            s.current_col == m.width_spec(),
            s.current_row + 1 < m.height_spec(),
            s2.current_row == s.current_row,
            s2.current_col == 0,
            s2.stage is Vertical,
            s2.cells == s.cells,
            s2.sets == s.sets,
            s2.sets_needing_vertical_connection@.len() == s.sets@.len(),
            forall|j: usize| j < s.sets@.len() ==> #[trigger] s2.sets_needing_vertical_connection@[j as int] == s.live(j),
        ensures
            s2.progress_wf(&m),
    {
        let r = s.row();
        assert forall|c: Coord|
            m.in_bounds(c) && (c.y < r || (c.y == r && (s2.stage !is Horizontal || c.x < s2.col()))) implies (
            #[trigger] s2.set_at(&m, c)) is Some by {
            assert(s.set_at(&m, c) is Some);
        }
        assert forall|c: Coord|
            m.in_bounds(c) && c.y > r implies ((#[trigger] s2.set_at(&m, c)) is Some <==> (c.y == r + 1
                && s2.stage is Vertical && !m.wall(c, TOP as int))) by {
            assert(s.set_at(&m, c) is None);
            if c.y == r + 1 {
                lemma_walls_mirrored(m, c, TOP as int);
                assert(m.wall(neighbor(c, TOP as int), BOTTOM as int));
            }
        }
        assert forall|id: usize| id < s2.sets@.len() implies {
            &&& #[trigger] s2.needs(id) ==> s2.live(id) && s2.in_row(&m, id, r)
            &&& s2.live(id) && !s2.needs(id) ==> s2.in_row(&m, id, r + 1)
        } by {
            assert(s2.sets_needing_vertical_connection@[id as int] == s.live(id));
            if s.live(id) {
                assert(s.in_row(&m, id, r));
                let x = choose|x: usize| x < m.width_spec() && #[trigger] s.set_at(&m, Coord { y: r as usize, x }) == Some(id);
                assert(s2.set_at(&m, Coord { y: r as usize, x }) == Some(id));
            }
        }
        assert forall|c: Coord|
            m.in_bounds(c) && c.y == r && c.x >= 1 && !(#[trigger] m.wall(c, LEFT as int)) implies s2.set_at(&m, c)
                == s2.set_at(&m, neighbor(c, LEFT as int)) by {
            assert(s.set_at(&m, c) == s.set_at(&m, neighbor(c, LEFT as int)));
        }
        assert forall|c: Coord|
            m.in_bounds(c) && c.y >= 1 && !(#[trigger] m.wall(c, TOP as int)) implies s2.set_at(&m, c) is Some && s2.set_at(&m, c)
                == s2.set_at(&m, neighbor(c, TOP as int)) by {
            assert(s.set_at(&m, c) is Some && s.set_at(&m, c) == s.set_at(&m, neighbor(c, TOP as int)));
            assert(s.set_at(&m, neighbor(c, TOP as int)) == s2.set_at(&m, neighbor(c, TOP as int)));
            assert(s.set_at(&m, c) == s2.set_at(&m, c));
        }
    }

    /// At the end of the row pass on the last row, starting the final joins
    /// keeps the progress invariant.
    proof fn lemma_to_last_row(s: Ellers, s2: Ellers, m: Maze)
        requires
            m.wf(),
            s.progress_wf(&m),
            s.stage is Horizontal,
            s.current_col == m.width_spec(),
            s.current_row + 1 == m.height_spec(),
            s2.current_row == s.current_row,
            s2.current_col == 0,
            s2.stage is LastRow,
            s2.cells == s.cells,
            s2.sets == s.sets,
            s2.sets_needing_vertical_connection == s.sets_needing_vertical_connection,
        ensures
            s2.progress_wf(&m),
    {
        let r = s.row();
        assert forall|c: Coord|
            m.in_bounds(c) && (c.y < r || (c.y == r && (s2.stage !is Horizontal || c.x < s2.col()))) implies (
            #[trigger] s2.set_at(&m, c)) is Some by {
            assert(s.set_at(&m, c) is Some);
        }
        assert forall|j: usize| j < s2.sets@.len() && #[trigger] s2.live(j) implies s2.in_row(&m, j, r) by {
            assert(s.live(j));
            assert(s.in_row(&m, j, r));
            let x = choose|x: usize| x < m.width_spec() && #[trigger] s.set_at(&m, Coord { y: r as usize, x }) == Some(j);
            assert(s2.set_at(&m, Coord { y: r as usize, x }) == Some(j));
        }
        assert forall|c: Coord|
            m.in_bounds(c) && c.y == r && c.x >= 1 && !(#[trigger] m.wall(c, LEFT as int)) implies s2.set_at(&m, c)
                == s2.set_at(&m, neighbor(c, LEFT as int)) by {
            assert(s.set_at(&m, c) == s.set_at(&m, neighbor(c, LEFT as int)));
        }
        assert forall|id: usize| s2.stage !is Vertical implies !#[trigger] s2.needs(id) by {
            assert(s.needs(id) == s2.needs(id));
        }
        assert forall|c: Coord|
            m.in_bounds(c) && c.y >= 1 && !(#[trigger] m.wall(c, TOP as int)) implies s2.set_at(&m, c) is Some && s2.set_at(&m, c)
                == s2.set_at(&m, neighbor(c, TOP as int)) by {
            assert(s.set_at(&m, c) is Some && s.set_at(&m, c) == s.set_at(&m, neighbor(c, TOP as int)));
            assert(s.set_at(&m, neighbor(c, TOP as int)) == s2.set_at(&m, neighbor(c, TOP as int)));
            assert(s.set_at(&m, c) == s2.set_at(&m, c));
        }
    }

    /// One cell of the pass along a row: give the cell a set of its own if it
    /// has none, and join it to the cell on its left at random when their
    /// sets differ. At the end of the row, go on with the connections to the
    /// next row, or with the last row.
    fn horizontal_step(&mut self, maze: &mut Maze)
        requires
            old(maze).wf(),
            old(self).sets_wf(old(maze)),
            old(self).progress_wf(old(maze)),
            old(self).stage is Horizontal,
        ensures
            final(self).current_col <= final(maze).width_spec(),
            old(self).advanced(final(self)),
            final(self).current_row == old(self).current_row,
            final(maze).wf(),
            final(maze).height_spec() == old(maze).height_spec(),
            final(maze).width_spec() == old(maze).width_spec(),
            final(self).status == old(self).status,
            final(self).sets_wf(final(maze)),
            final(self).progress_wf(final(maze)),
    {
        if self.current_col < maze.width() {
            let cur = Coord { x: self.current_col, y: self.current_row };
            let pc = self.cell_pos(maze, &cur);
            if self.cells[pc].is_none() {
                // a vector length: this bounds the number of sets by usize::MAX
                let nsets = self.sets.len();
                let ghost s0 = *self;
                let ghost m0 = *maze;
                maze.visit_cell(&cur);
                self.add_new_cell(maze, &cur, 0, AddCell::NewSet);
                proof {
                    Self::lemma_assigned(s0, *self, m0, *maze, cur, s0.sets@.len() as int);
                    Self::lemma_h_assign(s0, m0, *self, *maze, cur, s0.sets@.len() as int);
                }
            }
            let ghost s1 = *self;
            self.current_col += 1;
            proof {
                Self::lemma_h_advance(s1, *self, *maze);
                Self::lemma_sets_wf_same(s1, *self, *maze);
            }
            if cur.x > 0 {
                let prev = Coord { x: cur.x - 1, y: cur.y };
                let pp = self.cell_pos(maze, &prev);
                let differ = match (self.cells[pc], self.cells[pp]) {
                    (Some(a), Some(b)) => a != b,
                    _ => false,
                };
                let ghost s_before_coin = *self;
                let coin = differ && random_bool(&mut self.rng);
                proof {
                    Self::lemma_same_fields(s_before_coin, *self, *maze);
                }
                if coin {
                    let ghost s2 = *self;
                    let ghost m2 = *maze;
                    assert(prev == neighbor(cur, LEFT as int));
                    self.merge_cell_sets(maze, &cur, &prev);
                    proof {
                        assert(m2.wall(cur, LEFT as int));
                    }
                    remove_walls_between_cells(maze, &cur, LEFT);
                    proof {
                        self.lemma_sets_wf_states(m2, *maze);
                        Self::lemma_h_merge(s2, m2, *self, *maze, cur);
                    }
                }
            }
        } else {
            let ghost s0 = *self;
            self.current_col = 0;
            if self.current_row < maze.height() - 1 {
                let mut needs: Vec<bool> = Vec::new();
                let mut id: usize = 0;
                while id < self.sets.len()
                    invariant
                        id <= self.sets@.len(),
                        needs@.len() == id,
                        forall|j: usize| j < id ==> #[trigger] needs@[j as int] == self.live(j),
                    decreases self.sets@.len() - id,
                {
                    needs.push(self.sets[id].len() > 0);
                    id += 1;
                }
                self.sets_needing_vertical_connection = needs;
                self.stage = Stage::Vertical;
                proof {
                    Self::lemma_to_vertical(s0, *self, *maze);
                    Self::lemma_sets_wf_same(s0, *self, *maze);
                }
            } else {
                self.stage = Stage::LastRow;
                proof {
                    Self::lemma_to_last_row(s0, *self, *maze);
                    Self::lemma_sets_wf_same(s0, *self, *maze);
                }
            }
        }
    }

    /// Connecting the cell `cur` of the current row down to the cell below it,
    /// which joins the set of `cur`, keeps the invariants; the set no longer
    /// waits for a connection.
    #[verifier::spinoff_prover]
    proof fn lemma_connected_down(s0: Ellers, m0: Maze, s1: Ellers, m1: Maze, m2: Maze, s2: Ellers, cur: Coord, id: usize)
        requires
            m0.wf(),
            m1.wf(),
            m2.wf(),
            s0.sets_wf(&m0),
            s0.progress_wf(&m0),
            s0.stage is Vertical,
            m0.in_bounds(cur),
            cur.y == s0.current_row,
            cur.x < s0.current_col,
            s0.set_at(&m0, cur) == Some(id),
            m0.wall(cur, BOTTOM as int),
            m0.restated(&m1, neighbor(cur, BOTTOM as int), CellState::Path),
            m1.opened(&m2, cur, BOTTOM as int),
            s1.sets_wf(&m1),
            s0.same_progress(&s1),
            s1.sets@.len() == s0.sets@.len(),
            s1.sets_needing_vertical_connection@ == s0.sets_needing_vertical_connection@,
            forall|d: Coord| m1.in_bounds(d) ==> #[trigger] s1.set_at(&m1, d) == if d == neighbor(cur, BOTTOM as int) {
                Some(id)
            } else {
                s0.set_at(&m0, d)
            },
            forall|j: usize| j < s1.sets@.len() ==> (#[trigger] s1.live(j) <==> (j == id || s0.live(j))),
            s2.cells == s1.cells,
            s2.sets == s1.sets,
            s2.sets_needing_vertical_connection@ == s1.sets_needing_vertical_connection@.update(id as int, false),
            s1.same_progress(&s2),
        ensures
            s2.sets_wf(&m2),
            s2.progress_wf(&m2),
    {
        let r = s0.row();
        let next = neighbor(cur, BOTTOM as int);
        lemma_walls_mirrored(m0, cur, BOTTOM as int);
        s1.lemma_sets_wf_states(m1, m2);
        Self::lemma_sets_wf_same(s1, s2, m2);
        assert forall|c: Coord| m2.in_bounds(c) implies #[trigger] s2.set_at(&m2, c) == s1.set_at(&m1, c) by {}
        assert forall|j: usize| #[trigger] s2.needs(j) == (s0.needs(j) && j != id) by {}
        assert forall|c: Coord|
            m2.in_bounds(c) && (c.y < r || (c.y == r && (s2.stage !is Horizontal || c.x < s2.col()))) implies (
            #[trigger] s2.set_at(&m2, c)) is Some by {
            assert(s0.set_at(&m0, c) is Some);
        }
        assert forall|c: Coord|
            m2.in_bounds(c) && c.y > r implies ((#[trigger] s2.set_at(&m2, c)) is Some <==> (c.y == r + 1
                && s2.stage is Vertical && !m2.wall(c, TOP as int))) by {
            assert(m2.wall(c, TOP as int) == (m1.wall(c, TOP as int) && !((c == cur && TOP == BOTTOM) || (c == next && TOP == TOP))));
            if c != next {
                assert(s0.set_at(&m0, c) is Some <==> (c.y == r + 1 && !m0.wall(c, TOP as int)));
            }
        }
        assert forall|c: Coord| m2.in_bounds(c) && c.y > r implies #[trigger] m2.wall(c, LEFT as int) && m2.wall(c, BOTTOM as int) by {
            assert(m0.in_bounds(c));
            assert(m0.wall(c, LEFT as int));
            assert(m0.wall(c, BOTTOM as int));
            assert(m1.wall(c, LEFT as int) == m0.wall(c, LEFT as int));
            assert(m1.wall(c, BOTTOM as int) == m0.wall(c, BOTTOM as int));
            assert(c != cur);
            assert(m2.wall(c, LEFT as int) == m1.wall(c, LEFT as int));
            assert(m2.wall(c, BOTTOM as int) == m1.wall(c, BOTTOM as int));
        }
        assert forall|c: Coord|
            m2.in_bounds(c) && c.y == r && (s2.stage !is Vertical || c.x >= s2.col() || s2.needs_cell(&m2, c)) implies #[trigger] m2.wall(
                c,
                BOTTOM as int,
            ) by {
            if c != cur {
                assert(s0.needs_cell(&m0, c) == s2.needs_cell(&m2, c) || s0.set_at(&m0, c) == Some(id));
                assert(m0.wall(c, BOTTOM as int));
                assert(m2.wall(c, BOTTOM as int) == m0.wall(c, BOTTOM as int));
            }
        }
        assert forall|c: Coord|
            m2.in_bounds(c) && c.y == r && c.x >= 1 && !(#[trigger] m2.wall(c, LEFT as int)) implies s2.set_at(&m2, c)
                == s2.set_at(&m2, neighbor(c, LEFT as int)) by {
            assert(m2.wall(c, LEFT as int) == m0.wall(c, LEFT as int));
            assert(s0.set_at(&m0, c) == s0.set_at(&m0, neighbor(c, LEFT as int)));
        }
        assert forall|j: usize| j < s2.sets@.len() implies #[trigger] s2.live(j) == (j == id || s0.live(j)) by {
            assert(s2.live(j) == s1.live(j));
        }
        assert forall|j: usize| j < s2.sets@.len() implies {
            &&& #[trigger] s2.needs(j) ==> s2.live(j) && s2.in_row(&m2, j, r)
            &&& s2.live(j) && !s2.needs(j) ==> s2.in_row(&m2, j, r + 1)
        } by {
            if j == id {
                assert(next == Coord { y: (r + 1) as usize, x: cur.x });
                assert(s1.set_at(&m1, next) == Some(id));
                assert(s2.set_at(&m2, next) == Some(id));
                assert(s2.set_at(&m2, Coord { y: (r + 1) as usize, x: cur.x }) == Some(j));
                assert(s2.in_row(&m2, j, r + 1));
            } else {
                if s0.needs(j) {
                    assert(s0.in_row(&m0, j, r));
                    let x = choose|x: usize| x < m0.width_spec() && #[trigger] s0.set_at(&m0, Coord { y: r as usize, x }) == Some(j);
                    assert(s2.set_at(&m2, Coord { y: r as usize, x }) == Some(j));
                }
                if s0.live(j) && !s0.needs(j) {
                    assert(s0.in_row(&m0, j, r + 1));
                    let x = choose|x: usize| x < m0.width_spec() && #[trigger] s0.set_at(&m0, Coord { y: (r + 1) as usize, x }) == Some(j);
                    assert(s2.set_at(&m2, Coord { y: (r + 1) as usize, x }) == Some(j));
                }
            }
        }
        assert forall|c: Coord|
            m2.in_bounds(c) && c.y >= 1 && !(#[trigger] m2.wall(c, TOP as int)) implies s2.set_at(&m2, c) is Some && s2.set_at(&m2, c)
                == s2.set_at(&m2, neighbor(c, TOP as int)) by {
            assert(m0.in_bounds(c));
            assert(m2.wall(c, TOP as int) == (m1.wall(c, TOP as int) && !((c == cur && TOP == BOTTOM) || (c == next && TOP == TOP))));
            assert(m1.wall(c, TOP as int) == m0.wall(c, TOP as int));
            assert(m0.in_bounds(neighbor(c, TOP as int)));
            if c != next {
                assert(s0.set_at(&m0, c) is Some && s0.set_at(&m0, c) == s0.set_at(&m0, neighbor(c, TOP as int)));
                assert(neighbor(c, TOP as int) != next) by {
                    if neighbor(c, TOP as int) == next {
                        assert(s0.set_at(&m0, next) is None);
                    }
                }
            } else {
                assert(neighbor(c, TOP as int) == cur);
            }
        }
    }

    /// Once no set waits for a connection, moving on to the next row keeps
    /// the progress invariant.
    proof fn lemma_next_row(s: Ellers, s2: Ellers, m: Maze)
        requires
            m.wf(),
            s.progress_wf(&m),
            s.stage is Vertical,
            forall|j: usize| !#[trigger] s.needs(j),
            s2.current_row == s.current_row + 1,
            s2.current_col == 0,
            s2.stage is Horizontal,
            s2.cells == s.cells,
            s2.sets == s.sets,
            s2.sets_needing_vertical_connection == s.sets_needing_vertical_connection,
        ensures
            s2.progress_wf(&m),
    {
        let r = s.row();
        assert forall|c: Coord| m.in_bounds(c) implies #[trigger] s2.set_at(&m, c) == s.set_at(&m, c) by {}
        assert forall|c: Coord|
            m.in_bounds(c) && (c.y < r + 1 || (c.y == r + 1 && (s2.stage !is Horizontal || c.x < s2.col()))) implies (
            #[trigger] s2.set_at(&m, c)) is Some by {
            assert(s.set_at(&m, c) is Some);
        }
        assert forall|c: Coord|
            m.in_bounds(c) && c.y > r + 1 implies ((#[trigger] s2.set_at(&m, c)) is Some <==> (c.y == r + 2
                && s2.stage is Vertical && !m.wall(c, TOP as int))) by {
            assert(s.set_at(&m, c) is None);
        }
        assert forall|c: Coord| m.in_bounds(c) && c.y > r + 1 implies #[trigger] m.wall(c, LEFT as int) && m.wall(c, BOTTOM as int) by {
            assert(m.wall(c, LEFT as int) && m.wall(c, BOTTOM as int));
        }
        assert forall|c: Coord|
            m.in_bounds(c) && c.y == r + 1 && s2.stage is Horizontal && c.x >= s2.col() implies #[trigger] m.wall(c, LEFT as int) by {
            assert(m.wall(c, LEFT as int) && m.wall(c, BOTTOM as int));
        }
        assert forall|c: Coord|
            m.in_bounds(c) && c.y == r + 1 && (s2.stage !is Vertical || c.x >= s2.col() || s2.needs_cell(&m, c)) implies #[trigger] m.wall(
                c,
                BOTTOM as int,
            ) by {
            assert(m.wall(c, LEFT as int) && m.wall(c, BOTTOM as int));
        }
        assert forall|c: Coord|
            m.in_bounds(c) && c.y == r + 1 && c.x >= 1 && !(#[trigger] m.wall(c, LEFT as int)) implies s2.set_at(&m, c)
                == s2.set_at(&m, neighbor(c, LEFT as int)) by {
            assert(m.wall(c, LEFT as int) && m.wall(c, BOTTOM as int));
        }
        assert forall|j: usize| j < s2.sets@.len() && #[trigger] s2.live(j) implies s2.in_row(&m, j, r + 1) by {
            assert(!s.needs(j));
            assert(s.live(j));
            assert(s.in_row(&m, j, r + 1));
            let x = choose|x: usize| x < m.width_spec() && #[trigger] s.set_at(&m, Coord { y: (r + 1) as usize, x }) == Some(j);
            assert(s2.set_at(&m, Coord { y: (r + 1) as usize, x }) == Some(j));
        }
        assert forall|id: usize| s2.stage !is Vertical implies !#[trigger] s2.needs(id) by {
            assert(s.needs(id) == s2.needs(id));
        }
        assert forall|c: Coord|
            m.in_bounds(c) && c.y >= 1 && !(#[trigger] m.wall(c, TOP as int)) implies s2.set_at(&m, c) is Some && s2.set_at(&m, c)
                == s2.set_at(&m, neighbor(c, TOP as int)) by {
            assert(s.set_at(&m, c) is Some && s.set_at(&m, c) == s.set_at(&m, neighbor(c, TOP as int)));
            assert(s.set_at(&m, neighbor(c, TOP as int)) == s2.set_at(&m, neighbor(c, TOP as int)));
            assert(s.set_at(&m, c) == s2.set_at(&m, c));
        }
    }

    /// Connects the cell `cur` of the current row down to the next row.
    fn connect_down(&mut self, maze: &mut Maze, cur: Coord, id: usize)
        requires
            old(maze).wf(),
            old(self).sets_wf(old(maze)),
            old(self).progress_wf(old(maze)),
            old(self).stage is Vertical,
            old(maze).in_bounds(cur),
            cur.y == old(self).current_row,
            cur.x < old(self).current_col,
            old(self).set_at(old(maze), cur) == Some(id),
            old(maze).wall(cur, BOTTOM as int),
        ensures
            final(maze).wf(),
            final(maze).height_spec() == old(maze).height_spec(),
            final(maze).width_spec() == old(maze).width_spec(),
            final(self).status == old(self).status,
            old(self).same_progress(final(self)),
            final(self).sets_wf(final(maze)),
            final(self).progress_wf(final(maze)),
            final(self).sets_needing_vertical_connection@ == old(self).sets_needing_vertical_connection@.update(id as int, false),
            final(self).sets@.len() == old(self).sets@.len(),
    {
        let next_cell = Coord { x: cur.x, y: cur.y + 1 };
        let ghost s0 = *self;
        let ghost m0 = *maze;
        proof {
            assert(next_cell == neighbor(cur, BOTTOM as int));
            lemma_walls_mirrored(m0, cur, BOTTOM as int);
            assert(s0.set_at(&m0, next_cell) is None);
        }
        maze.visit_cell(&next_cell);
        // a vector length: this bounds the number of sets by usize::MAX
        let nsets = self.sets.len();
        self.add_new_cell(maze, &next_cell, id, AddCell::AddToSet);
        proof {
            Self::lemma_assigned(s0, *self, m0, *maze, next_cell, id as int);
        }
        let ghost s1 = *self;
        let ghost m1 = *maze;
        remove_walls_between_cells(maze, &cur, BOTTOM);
        self.sets_needing_vertical_connection.set(id, false);
        proof {
            Self::lemma_connected_down(s0, m0, s1, m1, *maze, *self, cur, id);
        }
    }

    /// One step of the connections to the next row: a cell of the row is
    /// connected down at random; after the last cell, each set that got no
    /// connection gets one from a random member; then the next row starts.
    fn vertical_step(&mut self, maze: &mut Maze)
        requires
            old(maze).wf(),
            old(self).sets_wf(old(maze)),
            old(self).progress_wf(old(maze)),
            old(self).stage is Vertical,
        ensures
            final(self).current_col <= final(maze).width_spec(),
            old(self).advanced(final(self)),
            final(maze).wf(),
            final(maze).height_spec() == old(maze).height_spec(),
            final(maze).width_spec() == old(maze).width_spec(),
            final(self).status == old(self).status,
            final(self).sets_wf(final(maze)),
            final(self).progress_wf(final(maze)),
            final(self).current_row == old(self).current_row || final(self).current_row == old(self).current_row + 1,
    {
        if self.current_col < maze.width() {
            let ghost s0 = *self;
            let coin = random_bool(&mut self.rng);
            proof {
                Self::lemma_same_fields(s0, *self, *maze);
            }
            let cur = Coord { x: self.current_col, y: self.current_row };
            let pc = self.cell_pos(maze, &cur);
            let ghost s1 = *self;
            self.current_col += 1;
            proof {
                Self::lemma_sets_wf_same(s1, *self, *maze);
                Self::lemma_v_advance(s1, *self, *maze);
            }
            if coin {
                let current_set_id = match self.cells[pc] {
                    Some(id) => id,
                    None => {
                        proof {
                            assert(s1.set_at(maze, cur) is Some);
                        }
                        return;
                    },
                };
                proof {
                    assert(s1.wall_below_stands(maze, cur));
                }
                self.connect_down(maze, cur, current_set_id);
            }
        } else {
            let mut set_id: usize = 0;
            while set_id < self.sets_needing_vertical_connection.len() && !self.sets_needing_vertical_connection[set_id]
                invariant
                    set_id <= self.sets_needing_vertical_connection@.len(),
                    forall|j: usize| j < set_id ==> !#[trigger] self.needs(j),
                decreases self.sets_needing_vertical_connection@.len() - set_id,
            {
                set_id += 1;
            }
            if set_id < self.sets_needing_vertical_connection.len() {
                let ghost s0 = *self;
                assert(self.needs(set_id));
                let members = &self.sets[set_id];
                let row = self.current_row;
                let mut current_row_cells: Vec<Coord> = Vec::new();
                let mut k: usize = 0;
                while k < members.len()
                    invariant
                        k <= members@.len(),
                        forall|j: int| 0 <= j < current_row_cells@.len() ==> (#[trigger] current_row_cells@[j]).y == row
                            && members@.contains(current_row_cells@[j]),
                        forall|j: int| 0 <= j < k && (#[trigger] members@[j]).y == row ==> current_row_cells@.contains(members@[j]),
                    decreases members@.len() - k,
                {
                    let member = members[k];
                    if member.y == row {
                        let ghost before = current_row_cells@;
                        current_row_cells.push(member);
                        proof {
                            assert(members@.contains(members@[k as int]));
                            assert(current_row_cells@[before.len() as int] == member);
                            assert forall|j: int| 0 <= j < k + 1 && (#[trigger] members@[j]).y == row implies current_row_cells@.contains(members@[j]) by {
                                if j < k {
                                    assert(before.contains(members@[j]));
                                    let i = before.index_of(members@[j]);
                                    assert(current_row_cells@[i] == members@[j]);
                                }
                            }
                        }
                    }
                    k += 1;
                }
                proof {
                    assert(s0.in_row(maze, set_id, s0.row()));
                    let x = choose|x: usize| x < maze.width_spec() && #[trigger] s0.set_at(maze, Coord { y: s0.current_row, x }) == Some(set_id);
                    let w = Coord { y: s0.current_row, x };
                    assert(members@.contains(w));
                    let j = members@.index_of(w);
                    assert(current_row_cells@.contains(members@[j]));
                }
                let random_cell = match pick_one(&mut self.rng, &current_row_cells) {
                    Some(c) => c,
                    None => {
                        return;
                    },
                };
                proof {
                    Self::lemma_same_fields(s0, *self, *maze);
                    let j = current_row_cells@.index_of(random_cell);
                    assert(current_row_cells@[j] == random_cell);
                    let k = s0.sets@[set_id as int]@.index_of(random_cell);
                    assert(s0.sets@[set_id as int]@[k] == random_cell);
                    assert(maze.in_bounds(random_cell));
                    assert(s0.set_at(maze, random_cell) == Some(set_id));
                    assert(s0.needs_cell(maze, random_cell));
                }
                self.connect_down(maze, random_cell, set_id);
                proof {
                    Self::lemma_waiting_shrinks(s0, *self, set_id);
                }
            } else {
                let ghost s0 = *self;
                self.current_col = 0;
                self.current_row += 1;
                self.stage = Stage::Horizontal;
                proof {
                    Self::lemma_next_row(s0, *self, *maze);
                    Self::lemma_sets_wf_same(s0, *self, *maze);
                }
            }
        }
    }

    /// The wall below `c`, in the current row, still stands.
    closed spec fn wall_below_stands(&self, m: &Maze, c: Coord) -> bool {
        m.wall(c, BOTTOM as int)
    }

    /// Moving on to the next cell of the connections pass.
    proof fn lemma_v_advance(s1: Ellers, s2: Ellers, m: Maze)
        requires
            m.wf(),
            s1.progress_wf(&m),
            s1.stage is Vertical,
            s1.current_col < m.width_spec(),
            s2.current_row == s1.current_row,
            s2.current_col == s1.current_col + 1,
            s2.stage == s1.stage,
            s2.cells == s1.cells,
            s2.sets == s1.sets,
            s2.sets_needing_vertical_connection == s1.sets_needing_vertical_connection,
        ensures
            s2.progress_wf(&m),
            s1.wall_below_stands(&m, Coord { y: s1.current_row, x: s1.current_col }),
    {
        let r = s1.row();
        assert forall|c: Coord| m.in_bounds(c) implies #[trigger] s2.set_at(&m, c) == s1.set_at(&m, c) by {}
        assert forall|j: usize| #[trigger] s2.needs(j) == s1.needs(j) by {}
        assert forall|c: Coord|
            m.in_bounds(c) && (c.y < r || (c.y == r && (s2.stage !is Horizontal || c.x < s2.col()))) implies (
            #[trigger] s2.set_at(&m, c)) is Some by {
            assert(s1.set_at(&m, c) is Some);
        }
        assert forall|c: Coord|
            m.in_bounds(c) && c.y == r && (s2.stage !is Vertical || c.x >= s2.col() || s2.needs_cell(&m, c)) implies #[trigger] m.wall(
                c,
                BOTTOM as int,
            ) by {
            assert(s1.needs_cell(&m, c) == s2.needs_cell(&m, c));
        }
        assert forall|j: usize| j < s2.sets@.len() implies {
            &&& #[trigger] s2.needs(j) ==> s2.live(j) && s2.in_row(&m, j, r)
            &&& s2.live(j) && !s2.needs(j) ==> s2.in_row(&m, j, r + 1)
        } by {
            if s1.needs(j) {
                assert(s1.in_row(&m, j, r));
                let x = choose|x: usize| x < m.width_spec() && #[trigger] s1.set_at(&m, Coord { y: r as usize, x }) == Some(j);
                assert(s2.set_at(&m, Coord { y: r as usize, x }) == Some(j));
            }
            if s1.live(j) && !s1.needs(j) {
                assert(s1.in_row(&m, j, r + 1));
                let x = choose|x: usize| x < m.width_spec() && #[trigger] s1.set_at(&m, Coord { y: (r + 1) as usize, x }) == Some(j);
                assert(s2.set_at(&m, Coord { y: (r + 1) as usize, x }) == Some(j));
            }
        }
        let cur = Coord { y: s1.current_row, x: s1.current_col };
        assert(m.wall(cur, BOTTOM as int));
        assert forall|c: Coord|
            m.in_bounds(c) && c.y >= 1 && !(#[trigger] m.wall(c, TOP as int)) implies s2.set_at(&m, c) is Some && s2.set_at(&m, c)
                == s2.set_at(&m, neighbor(c, TOP as int)) by {
            assert(s1.set_at(&m, c) is Some && s1.set_at(&m, c) == s1.set_at(&m, neighbor(c, TOP as int)));
            assert(s1.set_at(&m, neighbor(c, TOP as int)) == s2.set_at(&m, neighbor(c, TOP as int)));
        }
    }

    /// Joining the current cell of the last row with the next one (when
    /// their sets differ) and moving on keeps the progress invariant.
    #[verifier::spinoff_prover]
    proof fn lemma_last_join(s: Ellers, m: Maze, s3: Ellers, m3: Maze, cur: Coord, joined: bool)
        requires
            m.wf(),
            m3.wf(),
            s.progress_wf(&m),
            s.stage is LastRow,
            cur == (Coord { y: s.current_row, x: s.current_col }),
            s.current_col + 1 < m.width_spec(),
            s3.current_row == s.current_row,
            s3.current_col == s.current_col + 1,
            s3.stage == s.stage,
            s3.sets@.len() == s.sets@.len(),
            s3.sets_needing_vertical_connection@ == s.sets_needing_vertical_connection@,
            s.set_at(&m, cur) is Some,
            s.set_at(&m, neighbor(cur, RIGHT as int)) is Some,
            !joined ==> m3 == m && s3.cells == s.cells && s3.sets == s.sets && s.set_at(&m, cur) == s.set_at(&m, neighbor(cur, RIGHT as int)),
            joined ==> m.opened(&m3, cur, RIGHT as int),
            joined ==> ({
                let first = s.set_at(&m, cur).unwrap();
                let second = s.set_at(&m, neighbor(cur, RIGHT as int)).unwrap();
                &&& forall|c: Coord| m.in_bounds(c) ==> #[trigger] s3.set_at(&m3, c) == if s.set_at(&m, c) == Some(second) {
                    Some(first)
                } else {
                    s.set_at(&m, c)
                }
                &&& forall|id: usize| id < s3.sets@.len() ==> (#[trigger] s3.live(id) <==> (s.live(id) && id != second))
            }),
        ensures
            s3.progress_wf(&m3),
    {
        let r = s.row();
        let next = neighbor(cur, RIGHT as int);
        let first = s.set_at(&m, cur).unwrap();
        let second = s.set_at(&m, next).unwrap();
        assert(m3.height_spec() == m.height_spec() && m3.width_spec() == m.width_spec());
        assert forall|c: Coord| m.in_bounds(c) implies #[trigger] s3.set_at(&m3, c) == if joined && s.set_at(&m, c) == Some(second) {
            Some(first)
        } else {
            s.set_at(&m, c)
        } by {}
        assert forall|c: Coord|
            m3.in_bounds(c) && (c.y < r || (c.y == r && (s3.stage !is Horizontal || c.x < s3.col()))) implies (
            #[trigger] s3.set_at(&m3, c)) is Some by {
            assert(s.set_at(&m, c) is Some);
        }
        assert forall|c: Coord|
            m3.in_bounds(c) && c.y == r && (s3.stage !is Vertical || c.x >= s3.col() || s3.needs_cell(&m3, c)) implies #[trigger] m3.wall(
                c,
                BOTTOM as int,
            ) by {
            assert(m.in_bounds(c));
            assert(m.wall(c, BOTTOM as int));
            assert(m3.wall(c, BOTTOM as int) == m.wall(c, BOTTOM as int));
        }
        assert forall|c: Coord|
            m3.in_bounds(c) && c.y == r && c.x >= 1 && !(#[trigger] m3.wall(c, LEFT as int)) implies s3.set_at(&m3, c)
                == s3.set_at(&m3, neighbor(c, LEFT as int)) by {
            assert(m.in_bounds(c));
            assert(m.in_bounds(neighbor(c, LEFT as int)));
            if joined && c == next {
                assert(neighbor(c, LEFT as int) == cur);
            } else {
                assert(m3.wall(c, LEFT as int) == m.wall(c, LEFT as int));
                assert(s.set_at(&m, c) == s.set_at(&m, neighbor(c, LEFT as int)));
            }
        }
        assert forall|j: usize| j < s3.sets@.len() && #[trigger] s3.live(j) implies s3.in_row(&m3, j, r) by {
            if joined {
                assert(s.live(j));
            } else {
                assert(s.live(j) == s3.live(j));
            }
            assert(s.in_row(&m, j, r));
            let x = choose|x: usize| x < m.width_spec() && #[trigger] s.set_at(&m, Coord { y: r as usize, x }) == Some(j);
            assert(s3.set_at(&m3, Coord { y: r as usize, x }) == Some(j));
        }
        assert forall|x: usize| x <= s3.col() implies #[trigger] s3.set_at(&m3, Coord { y: r as usize, x }) == s3.set_at(
            &m3,
            Coord { y: r as usize, x: 0 },
        ) by {
            assert(s.set_at(&m, Coord { y: r as usize, x: 0 }) == s.set_at(&m, cur));
            if x <= s.col() {
                assert(s.set_at(&m, Coord { y: r as usize, x }) == s.set_at(&m, Coord { y: r as usize, x: 0 }));
            } else {
                assert(Coord { y: r as usize, x } == next);
            }
        }
        assert forall|c: Coord| m3.in_bounds(c) && c.y > r implies #[trigger] m3.wall(c, LEFT as int) && m3.wall(c, BOTTOM as int) by {}
        assert forall|id: usize| s3.stage !is Vertical implies !#[trigger] s3.needs(id) by {
            assert(s.needs(id) == s3.needs(id));
        }
        assert forall|c: Coord|
            m3.in_bounds(c) && c.y >= 1 && !(#[trigger] m3.wall(c, TOP as int)) implies s3.set_at(&m3, c) is Some && s3.set_at(&m3, c)
                == s3.set_at(&m3, neighbor(c, TOP as int)) by {
            assert(m.in_bounds(c));
            assert(m3.wall(c, TOP as int) == m.wall(c, TOP as int));
            assert(s.set_at(&m, c) is Some && s.set_at(&m, c) == s.set_at(&m, neighbor(c, TOP as int)));
            assert(m.in_bounds(neighbor(c, TOP as int)));
        }
    }

    /// When the last row has been joined from end to end, exactly one set is
    /// left.
    proof fn lemma_one_set(s: Ellers, m: Maze)
        requires
            m.wf(),
            s.sets_wf(&m),
            s.progress_wf(&m),
            s.stage is LastRow,
            s.current_col + 1 == m.width_spec(),
            s.sets@.len() <= usize::MAX,
        ensures
            s.one_set(),
            s.all_joined(&m),
    {
        let r = s.row();
        let corner = Coord { y: r as usize, x: 0 };
        let a = s.set_at(&m, corner).unwrap();
        assert(s.set_at(&m, corner) is Some);
        assert(s.sets@[a as int]@.contains(corner));
        assert forall|j: int| 0 <= j < s.sets_spec().len() implies (#[trigger] s.sets_spec()[j].len() > 0 <==> j == a) by {
            assert(s.sets_spec()[j] == s.sets@[j]@);
            if s.sets@[j]@.len() > 0 {
                assert(s.live(j as usize));
                assert(s.in_row(&m, j as usize, r));
                let x = choose|x: usize| x < m.width_spec() && #[trigger] s.set_at(&m, Coord { y: r as usize, x }) == Some(j as usize);
                assert(s.set_at(&m, Coord { y: r as usize, x }) == s.set_at(&m, corner));
            }
        }
        assert(s.sole_set(a as int));
        assert forall|c: Coord| m.in_bounds(c) implies #[trigger] m.state_of(c) == CellState::Path && s.sets_spec()[a as int].contains(c) by {
            assert(c.y <= r);
            assert(s.set_at(&m, c) is Some);
            let j = s.set_at(&m, c).unwrap();
            assert(s.sets@[j as int]@.contains(c));
            assert(s.sets_spec()[j as int] == s.sets@[j as int]@);
            assert(s.sets_spec()[j as int].len() > 0);
        }
        assert forall|c: Coord| m.in_bounds(c) implies #[trigger] s.sets_spec()[a as int].contains(c) by {
            assert(m.state_of(c) == CellState::Path && s.sets_spec()[a as int].contains(c));
        }
        assert(s.sole_set(a as int) && forall|c: Coord| m.in_bounds(c) ==> s.sets_spec()[a as int].contains(c));
    }

    /// One step of the final joins along the last row.
    fn last_row_step(&mut self, maze: &mut Maze)
        requires
            old(maze).wf(),
            old(self).sets_wf(old(maze)),
            old(self).progress_wf(old(maze)),
            old(self).stage is LastRow,
        ensures
            old(self).current_col + 1 == old(maze).width_spec() ==> final(self).current_row == old(self).current_row + 1,
            final(self).current_col <= final(maze).width_spec(),
            old(self).advanced(final(self)),
            final(maze).wf(),
            final(maze).height_spec() == old(maze).height_spec(),
            final(maze).width_spec() == old(maze).width_spec(),
            final(self).status == old(self).status,
            final(self).sets_wf(final(maze)),
            final(self).current_row == old(self).current_row ==> final(self).progress_wf(final(maze)),
            final(self).current_row != old(self).current_row ==> final(self).current_row == old(self).current_row + 1
                && final(self).current_row == final(maze).height_spec() && final(self).one_set() && final(self).all_joined(final(maze)),
    {
        if self.current_col < maze.width() - 1 {
            let cur = Coord { x: self.current_col, y: self.current_row };
            let next = Coord { x: self.current_col + 1, y: self.current_row };
            let pc = self.cell_pos(maze, &cur);
            let pn = self.cell_pos(maze, &next);
            let differ = match (self.cells[pc], self.cells[pn]) {
                (Some(a), Some(b)) => a != b,
                _ => false,
            };
            let ghost s0 = *self;
            let ghost m0 = *maze;
            proof {
                assert(next == neighbor(cur, RIGHT as int));
                assert(s0.set_at(&m0, cur) is Some);
                assert(s0.set_at(&m0, next) is Some);
            }
            self.current_col += 1;
            if differ {
                proof {
                    Self::lemma_sets_wf_same(s0, *self, *maze);
                    lemma_walls_mirrored(m0, cur, RIGHT as int);
                    assert(m0.wall(next, LEFT as int));
                }
                self.merge_cell_sets(maze, &cur, &next);
                let ghost m1 = *maze;
                remove_walls_between_cells(maze, &cur, RIGHT);
                proof {
                    self.lemma_sets_wf_states(m1, *maze);
                    Self::lemma_last_join(s0, m0, *self, *maze, cur, true);
                }
            } else {
                proof {
                    Self::lemma_sets_wf_same(s0, *self, *maze);
                    Self::lemma_last_join(s0, m0, *self, *maze, cur, false);
                }
            }
        } else {
            // a vector length: this bounds the number of sets by usize::MAX
            let nsets = self.sets.len();
            let ghost s0 = *self;
            proof {
                Self::lemma_one_set(s0, *maze);
            }
            self.current_row += 1;
            proof {
                Self::lemma_sets_wf_same(s0, *self, *maze);
                assert(self.sets_spec() =~= s0.sets_spec());
                let a = choose|a: int| #[trigger] s0.sole_set(a) && forall|c: Coord| maze.in_bounds(c) ==> s0.sets_spec()[a].contains(c);
                assert(self.sole_set(a));
            }
        }
    }

    /// One unit of work at the current position: the row pass, the
    /// connections to the next row, or the final joins of the last row.
    fn process_maze_row(&mut self, maze: &mut Maze)
        requires
            old(maze).wf(),
            old(self).sets_wf(old(maze)),
            old(self).progress_wf(old(maze)),
        ensures
            final(self).current_col <= final(maze).width_spec(),
            old(self).advanced(final(self)),
            final(maze).wf(),
            final(maze).height_spec() == old(maze).height_spec(),
            final(maze).width_spec() == old(maze).width_spec(),
            final(self).status == old(self).status,
            final(self).sets_wf(final(maze)),
            final(self).current_row < final(maze).height_spec() ==> final(self).progress_wf(final(maze)),
            final(self).current_row >= final(maze).height_spec() ==> final(self).current_row == final(maze).height_spec()
                && final(self).one_set() && final(self).all_joined(final(maze)),
            old(self).stage is Horizontal ==> final(self).current_row == old(self).current_row,
            old(self).stage is LastRow && old(self).current_col + 1 == old(maze).width_spec() ==> final(self).current_row
                == old(self).current_row + 1,
    {
        match self.stage {
            Stage::Horizontal => self.horizontal_step(maze),
            Stage::Vertical => self.vertical_step(maze),
            Stage::LastRow => self.last_row_step(maze),
        }
    }

    /// One unit of work. The first call prepares the bookkeeping; the
    /// generator is done once the last row has been joined, and then exactly
    /// one set is left.
    pub fn create_maze(&mut self, maze: &mut Maze)
        requires
            old(self).inv(old(maze)),
            old(self).status_spec() != GeneratorStatus::Done,
        ensures
            final(self).inv(final(maze)),
            final(maze).height_spec() == old(maze).height_spec(),
            final(maze).width_spec() == old(maze).width_spec(),
            old(self).status_spec() == GeneratorStatus::Initialized ==> final(self).status_spec()
                == GeneratorStatus::InProgress,
            final(self).status_spec() != GeneratorStatus::Initialized,
            final(self).status_spec() == GeneratorStatus::Done ==> final(self).one_set() && final(self).all_joined(final(maze)),
            final(maze).wf(),
            final(self).position_bounded(final(maze)),
            final(self).status_spec() == GeneratorStatus::InProgress ==> final(self).row_spec() < final(maze).height_spec(),
            final(self).status_spec() == GeneratorStatus::Done <==> final(self).row_spec() == final(maze).height_spec(),
            old(self).status_spec() == GeneratorStatus::InProgress ==> old(self).advanced(final(self)),
            old(self).status_spec() == GeneratorStatus::InProgress && old(self).stage_rank() == 2 && old(self).col_spec() + 1
                == old(maze).width_spec() ==> final(self).status_spec() == GeneratorStatus::Done,
            final(self).status_spec() == GeneratorStatus::InProgress ==> {
                &&& final(self).stage_rank() == 2 ==> final(self).row_spec() + 1 == final(maze).height_spec()
                &&& final(self).stage_rank() != 1 ==> final(self).waiting() == Set::<usize>::empty()
                &&& forall|c: Coord|
                    final(maze).in_bounds(c) && c.y >= 1 && !(#[trigger] final(maze).wall(c, TOP as int)) ==> final(self).set_at(
                        final(maze),
                        c,
                    ) is Some && final(self).set_at(final(maze), c) == final(self).set_at(final(maze), neighbor(c, TOP as int))
            },
    {
        match self.status {
            GeneratorStatus::Initialized => {
                let n = maze.grid().len();
                let mut cells: Vec<Option<usize>> = Vec::new();
                let mut i: usize = 0;
                while i < n
                    invariant
                        i <= n,
                        cells@.len() == i,
                        forall|j: int| 0 <= j < i ==> #[trigger] cells@[j] is None,
                    decreases n - i,
                {
                    cells.push(None);
                    i += 1;
                }
                self.cells = cells;
                proof {
                    assert forall|c: Coord| maze.in_bounds(c) implies #[trigger] self.set_at(maze, c) is None by {
                        lemma_cell_index(maze.height_spec() as int, maze.width_spec() as int, c, c);
                    }
                    assert(self.sets_wf(maze));
                    assert forall|c: Coord|
                        maze.in_bounds(c) && c.y > self.row() implies ((#[trigger] self.set_at(maze, c)) is Some <==> (c.y == self.row() + 1
                            && self.stage is Vertical && !maze.wall(c, TOP as int))) by {}
                    assert(self.progress_wf(maze));
                }
                self.process_maze_row(maze);
                let ghost s1 = *self;
                self.status = GeneratorStatus::InProgress;
                proof {
                    Self::lemma_same_fields(s1, *self, *maze);
                    Self::lemma_bounded(*self, *maze);
                    Self::lemma_waiting_outside(*self, *maze);
                }
            },
            GeneratorStatus::InProgress => {
                self.process_maze_row(maze);
                proof {
                    Self::lemma_bounded(*self, *maze);
                    if self.current_row < maze.height_spec() {
                        Self::lemma_waiting_outside(*self, *maze);
                    }
                }
                if self.current_row == maze.height() {
                    let ghost s1 = *self;
                    self.status = GeneratorStatus::Done;
                    proof {
                        Self::lemma_same_fields(s1, *self, *maze);
                        assert(self.sets_spec() =~= s1.sets_spec());
                        let a = choose|a: int| #[trigger] s1.sole_set(a) && forall|c: Coord| maze.in_bounds(c) ==> s1.sets_spec()[a].contains(c);
                        assert(self.sole_set(a));
                        Self::lemma_bounded(*self, *maze);
                    }
                }
            },
            GeneratorStatus::Done => {},
        }
    }

    /// Once Eller's algorithm has processed its last row, exactly one set of
    /// connected cells is left.
    pub proof fn lemma_done_leaves_one_set(&self, m: &Maze)
        requires
            self.inv(m),
            self.status_spec() == GeneratorStatus::Done,
        ensures
            self.one_set(),
            self.all_joined(m),
    {
    }
}

} // verus!
