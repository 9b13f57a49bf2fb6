pub mod breadth_first_search;
pub mod djikstras;

use vstd::prelude::*;
use crate::cell::{same_text, CellState, Coord};
use crate::solver_algorithms::breadth_first_search::BreadthFirstSearch;
use crate::solver_algorithms::djikstras::Djikstras;
use crate::maze::{cell_index, lemma_cell_index, Maze};
pub use crate::maze::linked;

verus! {

/// Where a solver stands: not started, searching, walking back along the
/// path it found, or finished.
#[derive(PartialEq, Eq, Structural, Clone, Copy, Debug)]
pub enum SolverStatus {
    Initialized,
    InProgress,
    Solved,
    Done,
}

/// The names of the solvers and how to show them.
pub fn get_solver_options() -> (r: Vec<(String, String)>)
    ensures
        r@.len() == 2,
        r@[0].0@ == "breadth_first_search"@,
        r@[0].1@ == "Breadth First Search"@,
        r@[1].0@ == "dijkstras"@,
        r@[1].1@ == "Dijkstra's"@,
{
    let mut r: Vec<(String, String)> = Vec::new();
    r.push(("breadth_first_search".to_owned(), "Breadth First Search".to_owned()));
    r.push(("dijkstras".to_owned(), "Dijkstra's".to_owned()));
    r
}

/// For each explored cell, the cell it was reached from.
pub struct ParentMap {
    height: usize,
    width: usize,
    parents: Vec<Option<Coord>>,
}

impl ParentMap {
    /// The cell from which `c` was reached, if `c` has been explored.
    pub closed spec fn get_spec(&self, c: Coord) -> Option<Coord> {
        if c.y < self.height && c.x < self.width {
            self.parents@[cell_index(self.width as int, c)]
        } else {
            None
        }
    }

    pub closed spec fn height_spec(&self) -> nat {
        self.height as nat
    }

    pub closed spec fn width_spec(&self) -> nat {
        self.width as nat
    }

    pub closed spec fn wf(&self) -> bool {
        self.parents@.len() == self.height * self.width
    }

    pub closed spec fn wf_for(&self, height: nat, width: nat) -> bool {
        &&& self.height == height
        &&& self.width == width
        &&& self.parents@.len() == height * width
    }

    /// An empty map for a grid of `height` by `width` cells.
    pub fn new(height: usize, width: usize) -> (r: Self)
        requires
            height * width <= usize::MAX,
        ensures
            r.wf(),
            r.wf_for(height as nat, width as nat),
            forall|c: Coord| #[trigger] r.get_spec(c) is None,
    {
        let n = height * width;
        let mut parents: Vec<Option<Coord>> = Vec::new();
        let mut i: usize = 0;
        while i < n
            invariant
                i <= n,
                parents@.len() == i,
                forall|j: int| 0 <= j < i ==> #[trigger] parents@[j] is None,
            decreases n - i,
        {
            parents.push(None);
            i += 1;
        }
        let r = ParentMap { height, width, parents };
        assert forall|c: Coord| #[trigger] r.get_spec(c) is None by {
            if c.y < height && c.x < width {
                lemma_cell_index(height as int, width as int, c, c);
            }
        }
        r
    }

    /// A map for no cells at all.
    pub fn empty() -> (r: Self)
        ensures
            r.wf(),
            forall|c: Coord| #[trigger] r.get_spec(c) is None,
    {
        ParentMap { height: 0, width: 0, parents: Vec::new() }
    }

    fn pos(&self, c: &Coord) -> (r: Option<usize>)
        requires
            self.parents@.len() == self.height * self.width,
        ensures
            r matches Some(i) ==> c.y < self.height && c.x < self.width && i == cell_index(self.width as int, *c) && i < self.parents@.len(),
            r is None ==> !(c.y < self.height && c.x < self.width),
    {
        if c.y < self.height && c.x < self.width {
            proof {
                lemma_cell_index(self.height as int, self.width as int, *c, *c);
            }
            // one entry per cell, which bounds the index
            let n = self.parents.len();
            Some(c.y * self.width + c.x)
        } else {
            None
        }
    }

    pub fn contains_key(&self, c: &Coord) -> (r: bool)
        requires
            self.wf(),
        ensures
            r == self.get_spec(*c) is Some,
    {
        match self.pos(c) {
            Some(i) => self.parents[i].is_some(),
            None => false,
        }
    }

    pub fn get(&self, c: &Coord) -> (r: Option<Coord>)
        requires
            self.wf(),
        ensures
            r == self.get_spec(*c),
    {
        match self.pos(c) {
            Some(i) => self.parents[i],
            None => None,
        }
    }

    /// Records that `c`, a cell of the grid, was reached from `parent`.
    pub fn insert(&mut self, c: Coord, parent: Coord)
        requires
            old(self).wf(),
            c.y < old(self).height_spec(),
            c.x < old(self).width_spec(),
        ensures
            final(self).wf(),
            final(self).height_spec() == old(self).height_spec(),
            final(self).width_spec() == old(self).width_spec(),
            forall|d: Coord| #[trigger] final(self).get_spec(d) == if d == c { Some(parent) } else { old(self).get_spec(d) },
    {
        match self.pos(&c) {
            Some(i) => {
                self.parents.set(i, Some(parent));
                proof {
                    assert forall|d: Coord| #[trigger] self.get_spec(d) == if d == c { Some(parent) } else { old(self).get_spec(d) } by {
                        if d.y < self.height && d.x < self.width {
                            lemma_cell_index(self.height as int, self.width as int, d, c);
                            lemma_cell_index(self.height as int, self.width as int, c, d);
                        }
                    }
                }
            },
            None => {},
        }
    }
}

/// The search has reached `finish`.
pub fn solved(explored: &ParentMap, finish: &Coord) -> (r: bool)
    requires
        explored.wf(),
    ensures
        r == explored.get_spec(*finish) is Some,
{
    explored.contains_key(finish)
}

/// Puts every cell back in the `Path` state, except the start and finish
/// markers; the walls stay as they are.
pub fn reset_solver(maze: &mut Maze)
    requires
        old(maze).wf(),
    ensures
        final(maze).wf(),
        old(maze).same_walls(final(maze)),
        final(maze).svg_spec() == old(maze).svg_spec(),
        forall|c: Coord| old(maze).in_bounds(c) ==> #[trigger] final(maze).state_of(c) == match old(maze).state_of(c) {
            CellState::Start => CellState::Start,
            CellState::Finish => CellState::Finish,
            _ => CellState::Path,
        },
{
    let ghost start = *maze;
    let mut y: usize = 0;
    while y < maze.height()
        invariant
            maze.wf(),
            start.same_walls(maze),
            maze.svg_spec() == start.svg_spec(),
            y <= maze.height_spec(),
            forall|c: Coord| start.in_bounds(c) ==> #[trigger] maze.state_of(c) == if c.y < y {
                match start.state_of(c) {
                    CellState::Start => CellState::Start,
                    CellState::Finish => CellState::Finish,
                    _ => CellState::Path,
                }
            } else {
                start.state_of(c)
            },
        decreases maze.height_spec() - y,
    {
        let mut x: usize = 0;
        while x < maze.width()
            invariant
                maze.wf(),
                start.same_walls(maze),
                maze.svg_spec() == start.svg_spec(),
                y < maze.height_spec(),
                x <= maze.width_spec(),
                forall|c: Coord| start.in_bounds(c) ==> #[trigger] maze.state_of(c) == if c.y < y || (c.y == y && c.x < x) {
                    match start.state_of(c) {
                        CellState::Start => CellState::Start,
                        CellState::Finish => CellState::Finish,
                        _ => CellState::Path,
                    }
                } else {
                    start.state_of(c)
                },
            decreases maze.width_spec() - x,
        {
            let here = Coord { x, y };
            let state = maze.get_cell_ref(&here).state();
            match state {
                CellState::Start => {},
                CellState::Finish => {},
                _ => {
                    let ghost before = *maze;
                    maze.change_cell_state(&here, CellState::Path);
                    proof {
                        assert forall|c: Coord, side: int| start.in_bounds(c) implies #[trigger] maze.wall(c, side) == start.wall(c, side) by {
                            assert(before.wall(c, side) == start.wall(c, side));
                        }
                    }
                },
            }
            x += 1;
        }
        y += 1;
    }
}

/// One of the solvers, chosen by name.
pub enum Solver {
    BreadthFirstSearch(BreadthFirstSearch),
    Djikstras(Djikstras),
}

impl Solver {
    /// What the next step of the chosen solver relies on.
    pub open spec fn inv(&self, m: &Maze) -> bool {
        match self {
            Solver::BreadthFirstSearch(s) => s.inv(m),
            Solver::Djikstras(s) => s.inv(m),
        }
    }

    pub open spec fn status_spec(&self) -> SolverStatus {
        match self {
            Solver::BreadthFirstSearch(s) => s.status_spec(),
            Solver::Djikstras(s) => s.status_spec(),
        }
    }

    /// The cell the search starts from.
    pub open spec fn start_spec(&self) -> Coord {
        match self {
            Solver::BreadthFirstSearch(s) => s.start_spec(),
            Solver::Djikstras(s) => s.start_spec(),
        }
    }

    /// The cell the search looks for.
    pub open spec fn finish_spec(&self) -> Coord {
        match self {
            Solver::BreadthFirstSearch(s) => s.finish_spec(),
            Solver::Djikstras(s) => s.finish_spec(),
        }
    }

    pub fn status(&self) -> (r: SolverStatus)
        ensures
            r == self.status_spec(),
    {
        match self {
            Solver::BreadthFirstSearch(s) => *s.status(),
            Solver::Djikstras(s) => *s.status(),
        }
    }

    /// One step of the chosen solver; the walls never change.
    pub fn find_solution(&mut self, maze: &mut Maze)
        requires
            old(self).inv(old(maze)),
            old(self).status_spec() != SolverStatus::Done,
        ensures
            final(self).inv(final(maze)),
            final(maze).wf(),
            old(maze).same_walls(final(maze)),
            final(maze).svg_spec() == old(maze).svg_spec(),
            final(self).start_spec() == old(self).start_spec(),
            final(self).finish_spec() == old(self).finish_spec(),
            forall|c: Coord| old(maze).in_bounds(c) && #[trigger] final(maze).state_of(c) != old(maze).state_of(c) ==> final(maze).state_of(c)
                == CellState::Start || final(maze).state_of(c) == CellState::Finish || final(maze).state_of(c) == CellState::Frontier
                || final(maze).state_of(c) == CellState::Solution,
    {
        match self {
            Solver::BreadthFirstSearch(s) => s.find_solution(maze),
            Solver::Djikstras(s) => s.find_solution(maze),
        }
    }

    /// Puts the cells back in the `Path` state (start and finish markers
    /// aside).
    pub fn reset(&self, maze: &mut Maze)
        requires
            old(maze).wf(),
        ensures
            final(maze).wf(),
            old(maze).same_walls(final(maze)),
            final(maze).svg_spec() == old(maze).svg_spec(),
            forall|c: Coord| old(maze).in_bounds(c) ==> #[trigger] final(maze).state_of(c) == match old(maze).state_of(c) {
                CellState::Start => CellState::Start,
                CellState::Finish => CellState::Finish,
                _ => CellState::Path,
            },
    {
        reset_solver(maze);
    }
}

/// The solver named "breadth_first_search" or "dijkstras", searching from
/// `start` to `finish`; any other name is a configuration error, which
/// callers rule out.
pub fn get_solver_algo(algo: &str, start: &Coord, finish: &Coord) -> (r: Solver)
    requires
        algo@ == "breadth_first_search"@ || algo@ == "dijkstras"@,
    ensures
        algo@ == "breadth_first_search"@ ==> r is BreadthFirstSearch,
        algo@ == "dijkstras"@ ==> r is Djikstras,
        r.status_spec() == SolverStatus::Initialized,
        r.start_spec() == *start,
        r.finish_spec() == *finish,
        forall|m: &Maze| m.wf() && m.in_bounds(*start) && m.in_bounds(*finish) ==> r.inv(m),
{
    proof {
        reveal_strlit("breadth_first_search");
        reveal_strlit("dijkstras");
        assert("breadth_first_search"@.len() == 20);
        assert("dijkstras"@.len() == 9);
    }
    if same_text(algo, "breadth_first_search") {
        Solver::BreadthFirstSearch(BreadthFirstSearch::new(start, finish))
    } else {
        Solver::Djikstras(Djikstras::new(start, finish))
    }
}

} // verus!
