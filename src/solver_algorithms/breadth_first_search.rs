use vstd::prelude::*;
use std::collections::VecDeque;
use crate::cell::{CellState, Coord, BOTTOM, LEFT, RIGHT, TOP};
use crate::maze::{neighbor, reached_toward, Maze};
use crate::solver_algorithms::{linked, reset_solver, solved, ParentMap, SolverStatus};

verus! {

/// Breadth-first search from `start` to `finish` through the open walls,
/// one cell per step, then a walk back marking the path found.
pub struct BreadthFirstSearch {
    start: Coord,
    finish: Coord,
    frontier: VecDeque<Coord>,
    explored: ParentMap,
    current_cell: Coord,
    status: SolverStatus,
    dist: Ghost<Map<Coord, nat>>,
}

impl BreadthFirstSearch {
    pub closed spec fn status_spec(&self) -> SolverStatus {
        self.status
    }

    pub closed spec fn start_spec(&self) -> Coord {
        self.start
    }

    pub closed spec fn finish_spec(&self) -> Coord {
        self.finish
    }

    /// The cell from which `c` was first reached.
    pub closed spec fn parent(&self, c: Coord) -> Option<Coord> {
        self.explored.get_spec(c)
    }

    /// How many open walls lie between `c` and the start along the cells it
    /// was reached from.
    pub closed spec fn dist(&self, c: Coord) -> nat {
        self.dist@[c]
    }

    /// Every explored cell lies one step further from the start than the
    /// cell it was reached from.
    pub closed spec fn dist_ok(&self) -> bool {
        forall|c: Coord| #[trigger] self.parent(c) is Some ==> {
            &&& self.dist@.contains_key(c)
            &&& self.parent(c).unwrap() != self.start ==> self.dist@.contains_key(self.parent(c).unwrap())
                && self.dist@[self.parent(c).unwrap()] < self.dist@[c]
        }
    }

    /// The distances depend on the explored cells and the start alone.
    proof fn lemma_dist_kept(s1: Self, s2: Self)
        requires
            s1.dist_ok(),
            s2.explored == s1.explored,
            s2.dist == s1.dist,
            s2.start == s1.start,
        ensures
            s2.dist_ok(),
    {
        assert forall|c: Coord| #[trigger] s2.parent(c) is Some implies {
            &&& s2.dist@.contains_key(c)
            &&& s2.parent(c).unwrap() != s2.start ==> s2.dist@.contains_key(s2.parent(c).unwrap())
                && s2.dist@[s2.parent(c).unwrap()] < s2.dist@[c]
        } by {
            assert(s1.parent(c) == s2.parent(c));
        }
    }

    /// The queue of cells still to expand.
    pub closed spec fn frontier_spec(&self) -> Seq<Coord> {
        self.frontier@
    }

    /// The cell the walk back has reached.
    pub closed spec fn current_spec(&self) -> Coord {
        self.current_cell
    }

    /// Every explored cell was reached through an open wall from the start
    /// or from another explored cell.
    pub open spec fn tree_ok(&self, m: &Maze) -> bool {
        forall|c: Coord| #[trigger] self.parent(c) matches Some(p) ==> {
            &&& m.in_bounds(c)
            &&& m.in_bounds(p)
            &&& (p == self.start_spec() || self.parent(p) is Some)
            &&& linked(m, p, c)
        }
    }

    /// What each step relies on.
    pub closed spec fn inv(&self, m: &Maze) -> bool {
        &&& m.wf()
        &&& m.in_bounds(self.start)
        &&& m.in_bounds(self.finish)
        &&& self.explored.wf()
        &&& self.status != SolverStatus::Initialized ==> self.explored.wf_for(m.height_spec(), m.width_spec())
        &&& self.tree_ok(m)
        &&& self.dist_ok()
        &&& forall|i: int| 0 <= i < self.frontier@.len() ==> m.in_bounds(#[trigger] self.frontier@[i])
            && (self.frontier@[i] == self.start || self.parent(self.frontier@[i]) is Some)
        &&& self.status == SolverStatus::Initialized ==> self.frontier@.len() == 0
        &&& self.status == SolverStatus::Solved ==> self.current_cell != self.start && self.parent(self.current_cell) is Some
    }

    pub fn new(start: &Coord, finish: &Coord) -> (r: Self)
        ensures
            r.status_spec() == SolverStatus::Initialized,
            r.start_spec() == *start,
            r.finish_spec() == *finish,
            forall|m: &Maze| m.wf() && m.in_bounds(*start) && m.in_bounds(*finish) ==> r.inv(m),
    {
        let r = BreadthFirstSearch {
            start: *start,
            finish: *finish,
            frontier: VecDeque::new(),
            explored: ParentMap::empty(),
            current_cell: *start,
            status: SolverStatus::Initialized,
            dist: Ghost(Map::empty()),
        };
        r
    }

    pub fn status(&self) -> (r: &SolverStatus)
        ensures
            *r == self.status_spec(),
    {
        &self.status
    }

    /// One unit of work: mark the start and finish; or expand the next cell
    /// of the queue (when the queue runs dry the finish cannot be reached,
    /// and the solver is done); or mark one more cell of the path found.
    pub fn find_solution(&mut self, maze: &mut Maze)
        requires
            old(self).inv(old(maze)),
            old(self).status_spec() != SolverStatus::Done,
        ensures
            final(self).inv(final(maze)),
            old(maze).same_walls(final(maze)),
            final(self).start_spec() == old(self).start_spec(),
            final(self).finish_spec() == old(self).finish_spec(),
            final(maze).wf(),
            final(maze).svg_spec() == old(maze).svg_spec(),
            forall|c: Coord| old(maze).in_bounds(c) && #[trigger] final(maze).state_of(c) != old(maze).state_of(c) ==> final(maze).state_of(c)
                == CellState::Start || final(maze).state_of(c) == CellState::Finish || final(maze).state_of(c) == CellState::Frontier
                || final(maze).state_of(c) == CellState::Solution,
            old(self).status_spec() == SolverStatus::Initialized ==> {
                &&& final(self).status_spec() == SolverStatus::InProgress
                &&& final(self).frontier_spec() == seq![old(self).start_spec()]
                &&& forall|c: Coord| #[trigger] final(self).parent(c) is None
                &&& final(maze).state_of(old(self).finish_spec()) == CellState::Finish
                &&& old(self).start_spec() != old(self).finish_spec() ==> final(maze).state_of(old(self).start_spec()) == CellState::Start
                &&& forall|c: Coord| old(maze).in_bounds(c) && c != old(self).start_spec() && c != old(self).finish_spec() ==>
                    #[trigger] final(maze).state_of(c) == old(maze).state_of(c)
            },
            old(self).status_spec() == SolverStatus::InProgress && old(self).frontier_spec().len() == 0 ==> final(self).status_spec()
                == SolverStatus::Done && *final(maze) == *old(maze),
            old(self).status_spec() == SolverStatus::InProgress && old(self).frontier_spec().len() > 0 ==> {
                let head = old(self).frontier_spec()[0];
                let n = old(self).frontier_spec().len();
                &&& forall|c: Coord| #[trigger] final(self).parent(c) == if old(self).parent(c) is None && linked(old(maze), head, c) {
                    Some(head)
                } else {
                    old(self).parent(c)
                }
                &&& final(self).frontier_spec().len() >= n - 1
                &&& final(self).frontier_spec().subrange(0, n - 1) == old(self).frontier_spec().subrange(1, n as int)
                &&& forall|i: int| n - 1 <= i < final(self).frontier_spec().len() ==> old(self).parent(#[trigger] final(self).frontier_spec()[i])
                    is None && linked(old(maze), head, final(self).frontier_spec()[i])
                &&& forall|c: Coord| old(self).parent(c) is None && #[trigger] linked(old(maze), head, c) ==> final(self).frontier_spec().contains(c)
                &&& forall|c: Coord| old(maze).in_bounds(c) ==> #[trigger] final(maze).state_of(c) == if old(self).parent(c) is None && linked(
                    old(maze),
                    head,
                    c,
                ) && c != old(self).start_spec() && c != old(self).finish_spec() {
                    CellState::Frontier
                } else {
                    old(maze).state_of(c)
                }
                &&& final(self).parent(final(self).finish_spec()) is None ==> final(self).status_spec() == SolverStatus::InProgress
                &&& final(self).parent(final(self).finish_spec()) == Some(final(self).start_spec()) ==> final(self).status_spec() == SolverStatus::Done
                &&& (final(self).parent(final(self).finish_spec()) is Some && final(self).parent(final(self).finish_spec()) != Some(
                    final(self).start_spec(),
                )) ==> final(self).status_spec() == SolverStatus::Solved && Some(final(self).current_spec()) == final(self).parent(
                    final(self).finish_spec(),
                )
            },
            old(self).status_spec() == SolverStatus::Solved ==> {
                &&& final(self).status_spec() == SolverStatus::Solved || final(self).status_spec() == SolverStatus::Done
                &&& final(maze).state_of(old(self).current_spec()) == CellState::Solution
                &&& old(self).parent(old(self).current_spec()) == Some(final(self).current_spec())
                &&& linked(old(maze), final(self).current_spec(), old(self).current_spec())
                &&& final(self).status_spec() == SolverStatus::Done <==> final(self).current_spec() == final(self).start_spec()
                &&& final(self).status_spec() == SolverStatus::Solved ==> final(self).dist(final(self).current_spec())
                    < old(self).dist(old(self).current_spec())
                &&& forall|c: Coord| old(maze).in_bounds(c) && c != old(self).current_spec() ==> #[trigger] final(maze).state_of(c)
                    == old(maze).state_of(c)
                &&& forall|c: Coord| #[trigger] final(self).parent(c) == old(self).parent(c)
                &&& final(self).frontier_spec() == old(self).frontier_spec()
            },
    {
        match self.status {
            SolverStatus::Initialized => {
                let ghost m0 = *maze;
                maze.change_cell_state(&self.start, CellState::Start);
                maze.change_cell_state(&self.finish, CellState::Finish);
                // one entry per cell: height * width fits in a usize
                let cells = maze.grid().len();
                self.explored = ParentMap::new(maze.height(), maze.width());
                self.frontier.push_back(self.start);
                self.status = SolverStatus::InProgress;
                proof {
                    assert forall|c: Coord, side: int| m0.in_bounds(c) implies #[trigger] maze.wall(c, side) == m0.wall(c, side) by {}
                    assert forall|c: Coord| #[trigger] self.parent(c) is None by {}
                    assert(self.tree_ok(maze));
                    assert(self.frontier@.len() == 1 && self.frontier@[0] == self.start);
                    assert forall|i: int| 0 <= i < self.frontier@.len() implies maze.in_bounds(#[trigger] self.frontier@[i])
                        && (self.frontier@[i] == self.start || self.parent(self.frontier@[i]) is Some) by {}
                    assert(self.explored.wf_for(maze.height_spec(), maze.width_spec()));
                    assert(maze.in_bounds(self.start));
                    assert(maze.in_bounds(self.finish));
                    assert(self.explored.wf());
                    assert(maze.wf());
                }
            },
            SolverStatus::InProgress => {
                match self.frontier.pop_front() {
                    None => {
                        self.status = SolverStatus::Done;
                        proof {
                            assert forall|d: Coord| #[trigger] self.parent(d) == old(self).parent(d) by {}
                            assert(self.frontier@ == old(self).frontier@);
                            Self::lemma_dist_kept(*old(self), *self);
                        }
                    },
                    Some(c) => {
                        proof {
                            assert(old(self).frontier@[0] == c);
                            assert forall|i: int| 0 <= i < self.frontier@.len() implies self.frontier@[i] == old(self).frontier@[i + 1] by {}
                        }
                        self.current_cell = c;
                        proof {
                            assert forall|d: Coord| #[trigger] self.parent(d) == old(self).parent(d) by {}
                            assert forall|i: int| 0 <= i < self.frontier@.len() implies maze.in_bounds(#[trigger] self.frontier@[i])
                                && (self.frontier@[i] == self.start || self.parent(self.frontier@[i]) is Some) by {
                                assert(self.frontier@[i] == old(self).frontier@[i + 1]);
                            }
                        }
                        let ghost s_pop = *self;
                        self.add_adjacent_cells_to_frontier(maze);
                        let ghost s_add = *self;
                        proof {
                            assert(self.frontier@.subrange(0, old(self).frontier@.len() - 1) =~= old(self).frontier@.subrange(1, old(self).frontier@.len() as int)) by {
                                assert forall|i: int| 0 <= i < old(self).frontier@.len() - 1 implies self.frontier@[i] == old(self).frontier@[i + 1] by {
                                    assert(self.frontier@.subrange(0, s_pop.frontier@.len() as int)[i] == s_pop.frontier@[i]);
                                }
                            }
                        }
                        if solved(&self.explored, &self.finish) {
                            match self.explored.get(&self.finish) {
                                Some(p) => {
                                    let ghost s1 = *self;
                                    proof {
                                        assert(s1.parent(s1.finish) == Some(p));
                                    }
                                    self.current_cell = p;
                                    if p == self.start {
                                        self.status = SolverStatus::Done;
                                    } else {
                                        self.status = SolverStatus::Solved;
                                    }
                                    proof {
                                        assert forall|d: Coord| #[trigger] self.parent(d) == s1.parent(d) by {}
                                        assert(s1.tree_ok(maze));
                                        assert forall|c: Coord| #[trigger] self.parent(c) is Some implies {
                                            let q = self.parent(c).unwrap();
                                            &&& maze.in_bounds(c)
                                            &&& maze.in_bounds(q)
                                            &&& (q == self.start_spec() || self.parent(q) is Some)
                                            &&& linked(maze, q, c)
                                        } by {
                                            let q = self.parent(c).unwrap();
                                            assert(s1.parent(c) == Some(q));
                                            assert(s1.parent(q) == self.parent(q));
                                        }
                                        assert forall|i: int| 0 <= i < self.frontier@.len() implies maze.in_bounds(#[trigger] self.frontier@[i])
                                            && (self.frontier@[i] == self.start || self.parent(self.frontier@[i]) is Some) by {
                                            assert(s1.frontier@[i] == self.frontier@[i]);
                                        }
                                        assert(s1.parent(p) == self.parent(p));
                                        Self::lemma_dist_kept(s1, *self);
                                        assert(self.frontier@ == s_add.frontier@);
                                    }
                                },
                                None => {},
                            }
                        }
                    },
                }
            },
            SolverStatus::Solved => {
                let ghost m0 = *maze;
                maze.change_cell_state(&self.current_cell, CellState::Solution);
                proof {
                    assert forall|c: Coord, side: int| m0.in_bounds(c) implies #[trigger] maze.wall(c, side) == m0.wall(c, side) by {}
                }
                match self.explored.get(&self.current_cell) {
                    Some(p) => {
                        self.current_cell = p;
                        if self.current_cell == self.start {
                            self.status = SolverStatus::Done;
                        }
                    },
                    None => {},
                }
                proof {
                    assert forall|c: Coord| #[trigger] self.parent(c) is Some implies {
                        let p = self.parent(c).unwrap();
                        &&& maze.in_bounds(c)
                        &&& maze.in_bounds(p)
                        &&& (p == self.start_spec() || self.parent(p) is Some)
                        &&& linked(maze, p, c)
                    } by {
                        let p = self.parent(c).unwrap();
                        assert(old(self).parent(c) == self.parent(c));
                        assert(old(self).parent(p) == self.parent(p));
                        assert(linked(&m0, p, c));
                        let side = choose|side: int| 0 <= side < 4 && m0.has_neighbor(p, side) && #[trigger] neighbor(p, side) == c && !m0.wall(p, side);
                        assert(maze.wall(p, side) == m0.wall(p, side));
                    }
                    assert(self.tree_ok(maze));
                    Self::lemma_dist_kept(*old(self), *self);
                }
            },
            SolverStatus::Done => {},
        }
    }

    /// Puts the cells back in the `Path` state (start and finish markers
    /// aside), so that a search can run again on the same maze.
    pub fn reset(&self, maze: &mut Maze)
        requires
            old(maze).wf(),
        ensures
            final(maze).wf(),
            old(maze).same_walls(final(maze)),
            final(maze).svg_spec() == old(maze).svg_spec(),
            forall|c: Coord| old(maze).in_bounds(c) ==> #[trigger] final(maze).state_of(c) == match old(maze).state_of(c) {
                CellState::Start => CellState::Start,
                CellState::Finish => CellState::Finish,
                _ => CellState::Path,
            },
    {
        reset_solver(maze);
    }

    /// Queues each neighbour of the current cell that an open wall leads to
    /// and that has not been reached yet: it is reached from the current
    /// cell, and shown as `Frontier` unless it is the start or the finish.
    fn add_adjacent_cells_to_frontier(&mut self, maze: &mut Maze)
        requires
            old(self).inv(old(maze)),
            old(self).status == SolverStatus::InProgress,
            old(maze).in_bounds(old(self).current_cell),
            old(self).current_cell == old(self).start || old(self).parent(old(self).current_cell) is Some,
        ensures
            final(self).inv(final(maze)),
            old(maze).same_walls(final(maze)),
            final(maze).svg_spec() == old(maze).svg_spec(),
            final(self).status == old(self).status,
            final(self).start == old(self).start,
            final(self).finish == old(self).finish,
            final(self).current_cell == old(self).current_cell,
            forall|c: Coord| #[trigger] final(self).parent(c) == if old(self).parent(c) is None && linked(old(maze), old(self).current_cell, c) {
                Some(old(self).current_cell)
            } else {
                old(self).parent(c)
            },
            final(self).frontier@.len() >= old(self).frontier@.len(),
            final(self).frontier@.subrange(0, old(self).frontier@.len() as int) == old(self).frontier@,
            forall|i: int| old(self).frontier@.len() <= i < final(self).frontier@.len() ==> old(self).parent(
                #[trigger] final(self).frontier@[i],
            ) is None && linked(old(maze), old(self).current_cell, final(self).frontier@[i]),
            forall|c: Coord| old(self).parent(c) is None && #[trigger] linked(old(maze), old(self).current_cell, c) ==> final(self).frontier@.contains(c),
            forall|c: Coord| old(maze).in_bounds(c) ==> #[trigger] final(maze).state_of(c) == if old(self).parent(c) is None && linked(
                old(maze),
                old(self).current_cell,
                c,
            ) && c != old(self).start && c != old(self).finish {
                CellState::Frontier
            } else {
                old(maze).state_of(c)
            },
    {
        let here = self.current_cell;
        let ghost s0 = *self;
        let ghost m0 = *maze;
        proof {
            reveal(BreadthFirstSearch::expanded_upto);
            assert(self.frontier@.subrange(0, s0.frontier@.len() as int) =~= s0.frontier@);
        }
        let mut side: usize = 0;
        while side < 4
            invariant
                side <= 4,
                self.inv(maze),
                self.status == SolverStatus::InProgress,
                self.start == s0.start,
                self.finish == s0.finish,
                self.current_cell == here,
                here == s0.current_cell,
                m0.in_bounds(here),
                m0.wf(),
                here == s0.start || s0.parent(here) is Some,
                here == self.start || self.parent(here) is Some,
                m0.same_walls(maze),
                maze.svg_spec() == m0.svg_spec(),
                self.expanded_upto(&s0, &m0, maze, here, side as int),
            decreases 4 - side,
        {
            let cell = *maze.get_cell_ref(&here);
            let ghost s1 = *self;
            let ghost m1 = *maze;
            let open = !cell.walls()[side];
            proof {
                assert(cell.walls_spec()[side as int] == maze.wall(here, side as int));
                assert(maze.wall(here, side as int) == m0.wall(here, side as int));
                if open {
                    assert(maze.has_neighbor(here, side as int));
                }
            }
            let mut processed = false;
            if open {
                let next = maze.neighbor_coord(&here, side);
                if !self.explored.contains_key(&next) {
                    self.process_frontier_cell(maze, next, side);
                    processed = true;
                }
            }
            proof {
                Self::lemma_expand_one(s0, m0, s1, m1, *self, *maze, here, side as int, processed);
                assert forall|c: Coord, sd: int| m0.in_bounds(c) implies #[trigger] maze.wall(c, sd) == m0.wall(c, sd) by {
                    assert(m1.wall(c, sd) == m0.wall(c, sd));
                }
            }
            side += 1;
        }
        proof {
            reveal(BreadthFirstSearch::expanded_upto);
            assert forall|c: Coord| #[trigger] linked(&m0, here, c) == reached_toward(&m0, here, c, 4) by {}
        }
    }

    /// After looking at the directions `0 .. k` from `here`: the cells reached
    /// through an open wall that were not yet explored are explored from
    /// `here`, queued after the old queue and shown as `Frontier` (start and
    /// finish aside); nothing else changed.
    #[verifier::opaque]
    closed spec fn expanded_upto(&self, s0: &Self, m0: &Maze, m: &Maze, here: Coord, k: int) -> bool {
        &&& forall|c: Coord| #[trigger] self.parent(c) == if s0.parent(c) is None && reached_toward(m0, here, c, k) {
            Some(here)
        } else {
            s0.parent(c)
        }
        &&& self.frontier@.len() >= s0.frontier@.len()
        &&& self.frontier@.subrange(0, s0.frontier@.len() as int) == s0.frontier@
        &&& forall|i: int| s0.frontier@.len() <= i < self.frontier@.len() ==> s0.parent(#[trigger] self.frontier@[i]) is None
            && reached_toward(m0, here, self.frontier@[i], k)
        &&& forall|c: Coord| s0.parent(c) is None && #[trigger] reached_toward(m0, here, c, k) ==> self.frontier@.contains(c)
        &&& forall|c: Coord| m0.in_bounds(c) ==> #[trigger] m.state_of(c) == if s0.parent(c) is None && reached_toward(m0, here, c, k)
            && c != s0.start && c != s0.finish {
            CellState::Frontier
        } else {
            m0.state_of(c)
        }
    }

    /// Looking at one more direction keeps the description of the expansion.
    proof fn lemma_expand_one(s0: Self, m0: Maze, s1: Self, m1: Maze, s2: Self, m2: Maze, here: Coord, k: int, processed: bool)
        requires
            m0.wf(),
            m0.in_bounds(here),
            0 <= k < 4,
            s1.expanded_upto(&s0, &m0, &m1, here, k),
            s1.start == s0.start,
            s1.finish == s0.finish,
            processed == (m0.has_neighbor(here, k) && !m0.wall(here, k) && s1.parent(neighbor(here, k)) is None),
            forall|c: Coord| #[trigger] s2.parent(c) == if processed && c == neighbor(here, k) { Some(here) } else { s1.parent(c) },
            s2.frontier@ == if processed { s1.frontier@.push(neighbor(here, k)) } else { s1.frontier@ },
            forall|c: Coord| m0.in_bounds(c) ==> #[trigger] m2.state_of(c) == if processed && c == neighbor(here, k) && c != s1.start
                && c != s1.finish {
                CellState::Frontier
            } else {
                m1.state_of(c)
            },
        ensures
            s2.expanded_upto(&s0, &m0, &m2, here, k + 1),
    {
        reveal(BreadthFirstSearch::expanded_upto);
        let n = neighbor(here, k);
        assert forall|c: Coord| #[trigger] reached_toward(&m0, here, c, k + 1) == (reached_toward(&m0, here, c, k)
            || (c == n && m0.has_neighbor(here, k) && !m0.wall(here, k))) by {
            if reached_toward(&m0, here, c, k + 1) && !(c == n && m0.has_neighbor(here, k) && !m0.wall(here, k)) {
                let d = choose|d: int| 0 <= d < k + 1 && m0.has_neighbor(here, d) && #[trigger] neighbor(here, d) == c && !m0.wall(here, d);
                assert(d < k);
            }
            if c == n && m0.has_neighbor(here, k) && !m0.wall(here, k) {
                assert(0 <= k < k + 1 && m0.has_neighbor(here, k) && neighbor(here, k) == c && !m0.wall(here, k));
            }
            if reached_toward(&m0, here, c, k) {
                let d = choose|d: int| 0 <= d < k && m0.has_neighbor(here, d) && #[trigger] neighbor(here, d) == c && !m0.wall(here, d);
                assert(0 <= d < k + 1 && m0.has_neighbor(here, d) && neighbor(here, d) == c && !m0.wall(here, d));
            }
        }
        if m0.has_neighbor(here, k) && !m0.wall(here, k) {
            assert(!reached_toward(&m0, here, n, k)) by {
                if reached_toward(&m0, here, n, k) {
                    let d = choose|d: int| 0 <= d < k && m0.has_neighbor(here, d) && #[trigger] neighbor(here, d) == n && !m0.wall(here, d);
                    assert(neighbor(here, d) != neighbor(here, k));
                }
            }
            assert(s1.parent(n) == s0.parent(n));
        }
        assert forall|i: int| s0.frontier@.len() <= i < s2.frontier@.len() implies s0.parent(#[trigger] s2.frontier@[i]) is None
            && reached_toward(&m0, here, s2.frontier@[i], k + 1) by {
            if i < s1.frontier@.len() {
                assert(s2.frontier@[i] == s1.frontier@[i]);
            }
        }
        assert forall|c: Coord| s0.parent(c) is None && #[trigger] reached_toward(&m0, here, c, k + 1) implies s2.frontier@.contains(c) by {
            if reached_toward(&m0, here, c, k) {
                let j = s1.frontier@.index_of(c);
                assert(s2.frontier@[j] == c);
            } else {
                assert(s2.frontier@[s2.frontier@.len() - 1] == c);
            }
        }
        assert(s2.frontier@.subrange(0, s0.frontier@.len() as int) =~= s0.frontier@) by {
            assert forall|i: int| 0 <= i < s0.frontier@.len() implies s2.frontier@[i] == s0.frontier@[i] by {
                assert(s1.frontier@.subrange(0, s0.frontier@.len() as int)[i] == s0.frontier@[i]);
            }
        }
        assert forall|c: Coord| m0.in_bounds(c) implies #[trigger] m2.state_of(c) == if s0.parent(c) is None && reached_toward(&m0, here, c, k + 1)
            && c != s0.start && c != s0.finish {
            CellState::Frontier
        } else {
            m0.state_of(c)
        } by {
            assert(m1.state_of(c) == if s0.parent(c) is None && reached_toward(&m0, here, c, k) && c != s0.start && c != s0.finish {
                CellState::Frontier
            } else {
                m0.state_of(c)
            });
        }
    }

    /// Records that `new_frontier_cell` was reached from the current cell
    /// across its wall `side`, and queues it.
    fn process_frontier_cell(&mut self, maze: &mut Maze, new_frontier_cell: Coord, side: usize)
        requires
            old(self).inv(old(maze)),
            old(self).status == SolverStatus::InProgress,
            old(maze).in_bounds(old(self).current_cell),
            old(self).current_cell == old(self).start || old(self).parent(old(self).current_cell) is Some,
            side < 4,
            old(maze).has_neighbor(old(self).current_cell, side as int),
            new_frontier_cell == neighbor(old(self).current_cell, side as int),
            !old(maze).wall(old(self).current_cell, side as int),
            old(self).parent(new_frontier_cell) is None,
        ensures
            final(self).inv(final(maze)),
            old(maze).same_walls(final(maze)),
            final(self).status == old(self).status,
            final(self).start == old(self).start,
            final(self).finish == old(self).finish,
            final(self).current_cell == old(self).current_cell,
            final(maze).in_bounds(final(self).current_cell),
            final(self).current_cell == final(self).start || final(self).parent(final(self).current_cell) is Some,
            forall|c: Coord| #[trigger] final(self).parent(c) == if c == new_frontier_cell {
                Some(old(self).current_cell)
            } else {
                old(self).parent(c)
            },
            final(self).frontier@ == old(self).frontier@.push(new_frontier_cell),
            final(maze).svg_spec() == old(maze).svg_spec(),
            forall|c: Coord| old(maze).in_bounds(c) ==> #[trigger] final(maze).state_of(c) == if c == new_frontier_cell
                && new_frontier_cell != old(self).start && new_frontier_cell != old(self).finish {
                CellState::Frontier
            } else {
                old(maze).state_of(c)
            },
    {
        let ghost m0 = *maze;
        let ghost s0 = *self;
        proof {
            let d = if s0.current_cell == s0.start { 1nat } else { s0.dist@[s0.current_cell] + 1 };
            self.dist = Ghost(s0.dist@.insert(new_frontier_cell, d));
        }
        self.explored.insert(new_frontier_cell, self.current_cell);
        self.frontier.push_back(new_frontier_cell);
        if new_frontier_cell != self.start && new_frontier_cell != self.finish {
            maze.change_cell_state(&new_frontier_cell, CellState::Frontier);
        }
        proof {
            assert forall|c: Coord, s: int| m0.in_bounds(c) implies #[trigger] maze.wall(c, s) == m0.wall(c, s) by {}
            assert(linked(&m0, s0.current_cell, new_frontier_cell));
            assert forall|c: Coord| #[trigger] self.parent(c) is Some implies {
                let p = self.parent(c).unwrap();
                &&& maze.in_bounds(c)
                &&& maze.in_bounds(p)
                &&& (p == self.start_spec() || self.parent(p) is Some)
                &&& linked(maze, p, c)
            } by {
                let p = self.parent(c).unwrap();
                if c != new_frontier_cell {
                    assert(s0.parent(c) == Some(p));
                }
                assert(linked(&m0, p, c));
                let sd = choose|sd: int| 0 <= sd < 4 && m0.has_neighbor(p, sd) && #[trigger] neighbor(p, sd) == c && !m0.wall(p, sd);
                assert(maze.wall(p, sd) == m0.wall(p, sd));
                if p != self.start_spec() && p != new_frontier_cell {
                    assert(s0.parent(p) is Some);
                }
            }
            assert forall|i: int| 0 <= i < self.frontier@.len() implies maze.in_bounds(#[trigger] self.frontier@[i])
                && (self.frontier@[i] == self.start || self.parent(self.frontier@[i]) is Some) by {
                if i < s0.frontier@.len() {
                    assert(self.frontier@[i] == s0.frontier@[i]);
                    if s0.frontier@[i] != s0.start {
                        assert(s0.parent(s0.frontier@[i]) is Some);
                    }
                }
            }
            assert forall|c: Coord| #[trigger] self.parent(c) is Some implies {
                &&& self.dist@.contains_key(c)
                &&& self.parent(c).unwrap() != self.start ==> self.dist@.contains_key(self.parent(c).unwrap())
                    && self.dist@[self.parent(c).unwrap()] < self.dist@[c]
            } by {
                if c != new_frontier_cell {
                    let p = s0.parent(c).unwrap();
                    assert(s0.parent(c) == self.parent(c));
                    if p != s0.start {
                        assert(s0.parent(p) is Some);
                        assert(p != new_frontier_cell);
                    }
                } else if s0.current_cell != s0.start {
                    assert(s0.parent(s0.current_cell) is Some);
                }
            }
        }
    }
}

} // verus!
