use vstd::prelude::*;
use rand::rngs::StdRng;
use crate::cell::{opposite, CellState, Coord};
use crate::generator_algorithms::{
    carved_one, carving_closed, choose_rand_neighbor, is_perfect, lemma_closed_carving_covers, neighbor_matches, random_grid_position,
    remove_walls_between_cells, spanning_tree, tree_edge, unvisited_walls_stand, GeneratorStatus,
};
use crate::maze::{lemma_walls_mirrored, linked, neighbor, Maze};
use crate::random::{seeded_rng};

verus! {

/// Depth-first carving with an explicit stack: from the top cell, carve
/// into a random unvisited neighbour, or backtrack when there is none.
pub struct RecursiveBacktracker {
    stack: Vec<Coord>,
    status: GeneratorStatus,
    rng: StdRng,
    root: Ghost<Coord>,
    parent: Ghost<Map<Coord, Coord>>,
    depth: Ghost<Map<Coord, nat>>,
}

impl RecursiveBacktracker {
    pub closed spec fn status_spec(&self) -> GeneratorStatus {
        self.status
    }

    pub closed spec fn stack_spec(&self) -> Seq<Coord> {
        self.stack@
    }

    /// The tree of carved cells: its root, and each cell's parent and depth.
    pub closed spec fn tree(&self) -> (Coord, Map<Coord, Coord>, Map<Coord, nat>) {
        (self.root@, self.parent@, self.depth@)
    }

    /// What each step relies on: a well-formed maze whose cells outside the
    /// carved part still have all their walls, a stack of carved cells, the
    /// open walls forming a tree over the carved cells, and no carved cell
    /// off the stack next to an uncarved one.
    pub open spec fn inv(&self, m: &Maze) -> bool {
        &&& m.wf()
        &&& unvisited_walls_stand(m)
        &&& forall|i: int|
            0 <= i < self.stack_spec().len() ==> m.in_bounds(#[trigger] self.stack_spec()[i]) && m.state_of(
                self.stack_spec()[i],
            ) == CellState::Path
        &&& self.status_spec() == GeneratorStatus::Initialized ==> self.stack_spec().len() == 0 && forall|c: Coord|
            m.in_bounds(c) ==> #[trigger] m.state_of(c) != CellState::Path
        &&& self.status_spec() != GeneratorStatus::Initialized ==> spanning_tree(m, self.tree().0, self.tree().1, self.tree().2)
        &&& self.status_spec() == GeneratorStatus::Done ==> self.stack_spec().len() == 0
        &&& forall|c: Coord, d: int|
            m.in_bounds(c) && m.state_of(c) == CellState::Path && !self.stack_spec().contains(c) ==> !#[trigger] neighbor_matches(
                m,
                c,
                d,
                false,
            )
    }

    /// A generator whose random choices follow from `seed`.
    pub fn new(seed: u64) -> (r: Self)
        ensures
            r.status_spec() == GeneratorStatus::Initialized,
            r.stack_spec().len() == 0,
    {
        RecursiveBacktracker {
            stack: Vec::new(),
            status: GeneratorStatus::Initialized,
            rng: seeded_rng(seed),
            root: Ghost(Coord { y: 0, x: 0 }),
            parent: Ghost(Map::empty()),
            depth: Ghost(Map::empty()),
        }
    }

    pub fn status(&self) -> (r: &GeneratorStatus)
        ensures
            *r == self.status_spec(),
    {
        &self.status
    }

    /// One unit of work: pick and visit the start cell; or carve one passage
    /// from the top of the stack, or backtrack one cell; or, with the stack
    /// empty, finish.
    pub fn create_maze(&mut self, maze: &mut Maze)
        requires
            old(self).inv(old(maze)),
            old(self).status_spec() != GeneratorStatus::Done,
        ensures
            final(self).inv(final(maze)),
            final(maze).height_spec() == old(maze).height_spec(),
            final(maze).width_spec() == old(maze).width_spec(),
            old(self).status_spec() == GeneratorStatus::Initialized ==> final(self).status_spec()
                == GeneratorStatus::InProgress && final(self).stack_spec().len() == old(self).stack_spec().len() + 1,
            old(self).status_spec() == GeneratorStatus::InProgress ==> (final(self).status_spec()
                == GeneratorStatus::Done <==> old(self).stack_spec().len() == 0),
            final(self).status_spec() == GeneratorStatus::Done ==> is_perfect(final(maze)),
            old(self).status_spec() == GeneratorStatus::InProgress && old(self).stack_spec().len() > 0 ==> {
                let top = old(self).stack_spec().last();
                &&& final(self).status_spec() == GeneratorStatus::InProgress
                &&& ({
                    &&& final(self).stack_spec() == old(self).stack_spec().push(final(self).stack_spec().last())
                    &&& exists|dir: int| #[trigger] carved_one(old(maze), final(maze), final(self).stack_spec().last(), dir)
                        && neighbor(final(self).stack_spec().last(), dir) == top
                } || {
                    &&& final(self).stack_spec() == old(self).stack_spec().drop_last()
                    &&& *final(maze) == *old(maze)
                    &&& forall|d: int| !#[trigger] neighbor_matches(old(maze), top, d, false)
                })
            },
    {
        match self.status {
            GeneratorStatus::Initialized => {
                let start: Coord = random_grid_position(maze, &mut self.rng);
                let ghost before = *maze;
                maze.visit_cell(&start);
                proof {
                    assert forall|c: Coord, side: int|
                        maze.in_bounds(c) && maze.state_of(c) != CellState::Path && 0 <= side < 4 implies #[trigger] maze.wall(c, side) by {
                        assert(before.wall(c, side));
                    }
                }
                self.stack.push(start);
                self.status = GeneratorStatus::InProgress;
                proof {
                    self.root = Ghost(start);
                    self.parent = Ghost(Map::empty());
                    self.depth = Ghost(map![start => 0nat]);
                    assert forall|c: Coord, side: int|
                        maze.in_bounds(c) && 0 <= side < 4 && maze.has_neighbor(c, side) && !#[trigger] maze.wall(c, side) implies tree_edge(
                            start,
                            Map::empty(),
                            c,
                            neighbor(c, side),
                        ) by {
                        assert(before.state_of(c) != CellState::Path);
                        assert(before.wall(c, side));
                    }
                    assert forall|c: Coord| maze.in_bounds(c) implies (#[trigger] self.depth@.contains_key(c) <==> maze.state_of(c) == CellState::Path) by {
                        if c != start {
                            assert(before.state_of(c) != CellState::Path);
                        }
                    }
                    assert(self.stack@ =~= seq![start]);
                    assert forall|c: Coord, d: int|
                        maze.in_bounds(c) && maze.state_of(c) == CellState::Path && !self.stack_spec().contains(c) implies !#[trigger] neighbor_matches(
                            maze,
                            c,
                            d,
                            false,
                        ) by {
                        assert(self.stack_spec()[0] == start);
                        if c != start {
                            assert(before.state_of(c) != CellState::Path);
                        }
                    }
                }
            },
            GeneratorStatus::InProgress => {
                if self.stack.len() > 0 {
                    let current_cell = self.stack[self.stack.len() - 1];
                    let ghost s0 = *self;
                    let chosen = choose_rand_neighbor(maze, &current_cell, false, &mut self.rng);
                    proof {
                        assert(self.stack@ == s0.stack@ && self.tree() == s0.tree());
                    }
                    match chosen {
                        Ok(dir) => {
                            let next = if dir == 0 {
                                Coord { x: current_cell.x, y: current_cell.y - 1 }
                            } else if dir == 1 {
                                Coord { x: current_cell.x + 1, y: current_cell.y }
                            } else if dir == 2 {
                                Coord { x: current_cell.x, y: current_cell.y + 1 }
                            } else {
                                Coord { x: current_cell.x - 1, y: current_cell.y }
                            };
                            assert(next == neighbor(current_cell, dir as int));
                            self.next_cell(maze, current_cell, next, dir);
                            proof {
                                assert(self.stack_spec().last() == next);
                                assert(carved_one(old(maze), maze, next, opposite(dir as int)));
                            }
                        },
                        Err(_) => {
                            let ghost s1 = *self;
                            self.stack.pop();
                            proof {
                                assert(self.stack@ =~= s1.stack@.drop_last());
                                assert forall|c: Coord, d: int|
                                    maze.in_bounds(c) && maze.state_of(c) == CellState::Path && !self.stack_spec().contains(c) implies !#[trigger] neighbor_matches(
                                        maze,
                                        c,
                                        d,
                                        false,
                                    ) by {
                                    if c != current_cell {
                                        if s1.stack_spec().contains(c) {
                                            let i = s1.stack_spec().index_of(c);
                                            assert(i < s1.stack_spec().len() - 1);
                                            assert(self.stack_spec()[i] == c);
                                        }
                                    }
                                }
                            }
                        },
                    }
                } else {
                    self.status = GeneratorStatus::Done;
                    proof {
                        let (root, parent, depth) = self.tree();
                        assert(carving_closed(maze));
                        assert forall|c: Coord| maze.in_bounds(c) implies #[trigger] maze.state_of(c) == CellState::Path by {
                            assert(depth.contains_key(root));
                            lemma_closed_carving_covers(maze, root, c);
                        }
                        assert(spanning_tree(maze, root, parent, depth));
                    }
                }
            },
            GeneratorStatus::Done => {},
        }
    }

    /// Carves from `current_cell`, the top of the stack, into its unvisited
    /// neighbour `next_cell`, which joins the tree as its child and goes on
    /// the stack.
    fn next_cell(&mut self, maze: &mut Maze, current_cell: Coord, next_cell: Coord, dir: usize)
        requires
            old(self).inv(old(maze)),
            old(self).status_spec() == GeneratorStatus::InProgress,
            old(self).stack_spec().len() > 0,
            old(self).stack_spec().last() == current_cell,
            dir < 4,
            old(maze).in_bounds(current_cell),
            old(maze).has_neighbor(current_cell, dir as int),
            next_cell == neighbor(current_cell, dir as int),
            old(maze).state_of(next_cell) != CellState::Path,
        ensures
            final(self).inv(final(maze)),
            final(self).status_spec() == old(self).status_spec(),
            final(self).stack_spec().len() == old(self).stack_spec().len() + 1,
            final(maze).height_spec() == old(maze).height_spec(),
            final(maze).width_spec() == old(maze).width_spec(),
            final(self).stack_spec() == old(self).stack_spec().push(next_cell),
            carved_one(old(maze), final(maze), next_cell, opposite(dir as int)),
            neighbor(next_cell, opposite(dir as int)) == current_cell,
    {
        let ghost s0 = *self;
        let ghost before = *maze;
        let ghost (root, parent, depth) = s0.tree();
        proof {
            assert(s0.stack_spec()[s0.stack_spec().len() - 1] == current_cell);
            assert(maze.state_of(current_cell) == CellState::Path);
            lemma_walls_mirrored(*maze, current_cell, dir as int);
            assert(maze.wall(next_cell, opposite(dir as int)));
        }
        remove_walls_between_cells(maze, &current_cell, dir);
        let ghost opened = *maze;
        maze.visit_cell(&next_cell);
        self.stack.push(next_cell);
        proof {
            lemma_walls_mirrored(before, current_cell, dir as int);
            assert(neighbor(next_cell, opposite(dir as int)) == current_cell);
            assert(opposite(opposite(dir as int)) == dir as int);
            assert forall|c: Coord, sd: int| before.in_bounds(c) && 0 <= sd < 4 implies #[trigger] maze.wall(c, sd) == (before.wall(c, sd)
                && !((c == next_cell && sd == opposite(dir as int)) || (c == neighbor(next_cell, opposite(dir as int)) && sd == opposite(
                opposite(dir as int),
            )))) by {
                assert(maze.wall(c, sd) == opened.wall(c, sd));
            }
            assert forall|c: Coord| before.in_bounds(c) && c != next_cell implies #[trigger] maze.state_of(c) == before.state_of(c) by {
                assert(opened.state_of(c) == before.state_of(c));
            }
            assert(carved_one(&before, maze, next_cell, opposite(dir as int)));
        }
        proof {
            let parent2 = parent.insert(next_cell, current_cell);
            let depth2 = depth.insert(next_cell, depth[current_cell] + 1);
            self.parent = Ghost(parent2);
            self.depth = Ghost(depth2);
            assert(self.tree() == (root, parent2, depth2));
            assert(next_cell != root);
            assert(!depth.contains_key(next_cell));
            assert forall|c: Coord, side: int|
                maze.in_bounds(c) && maze.state_of(c) != CellState::Path && 0 <= side < 4 implies #[trigger] maze.wall(c, side) by {
                assert(opened.wall(c, side) == maze.wall(c, side));
                assert(before.wall(c, side));
                assert(c != current_cell && c != next_cell);
                assert(opened.wall(c, side) == before.wall(c, side));
            }
            assert forall|i: int| 0 <= i < self.stack_spec().len() implies maze.in_bounds(#[trigger] self.stack_spec()[i])
                && maze.state_of(self.stack_spec()[i]) == CellState::Path by {
                if i < s0.stack_spec().len() {
                    assert(self.stack_spec()[i] == s0.stack_spec()[i]);
                    assert(before.state_of(self.stack_spec()[i]) == CellState::Path);
                    assert(opened.state_of(self.stack_spec()[i]) == CellState::Path);
                }
            }
            // the tree grows by the new cell and the new open wall
            assert forall|c: Coord| maze.in_bounds(c) implies (#[trigger] depth2.contains_key(c) <==> maze.state_of(c) == CellState::Path) by {
                if c != next_cell {
                    assert(opened.state_of(c) == before.state_of(c));
                    assert(depth.contains_key(c) <==> before.state_of(c) == CellState::Path);
                }
            }
            assert forall|c: Coord| #[trigger] depth2.contains_key(c) && c != root implies {
                &&& parent2.contains_key(c)
                &&& depth2.contains_key(parent2[c])
                &&& depth2[parent2[c]] < depth2[c]
                &&& linked(maze, parent2[c], c)
            } by {
                if c == next_cell {
                    assert(maze.has_neighbor(current_cell, dir as int) && neighbor(current_cell, dir as int) == c && !maze.wall(current_cell, dir as int));
                } else {
                    assert(depth.contains_key(c));
                    let p = parent[c];
                    assert(linked(&before, p, c));
                    let side = choose|side: int| 0 <= side < 4 && before.has_neighbor(p, side) && #[trigger] neighbor(p, side) == c && !before.wall(p, side);
                    assert(before.in_bounds(p));
                    assert(maze.wall(p, side) == opened.wall(p, side));
                    assert(opened.wall(p, side) == (before.wall(p, side) && !((p == current_cell && side == dir) || (p == next_cell && side == opposite(dir as int)))));
                    assert(p != next_cell);
                }
            }
            assert forall|c: Coord, side: int|
                maze.in_bounds(c) && 0 <= side < 4 && maze.has_neighbor(c, side) && !#[trigger] maze.wall(c, side) implies tree_edge(
                    root,
                    parent2,
                    c,
                    neighbor(c, side),
                ) by {
                assert(maze.wall(c, side) == opened.wall(c, side));
                assert(opened.wall(c, side) == (before.wall(c, side) && !((c == current_cell && side == dir) || (c == next_cell && side == opposite(dir as int)))));
                if (c == current_cell && side == dir) || (c == next_cell && side == opposite(dir as int)) {
                    if c == next_cell {
                        assert(neighbor(next_cell, opposite(dir as int)) == current_cell);
                    }
                } else {
                    assert(!before.wall(c, side));
                    assert(tree_edge(root, parent, c, neighbor(c, side)));
                    assert(before.state_of(c) == CellState::Path);
                    lemma_walls_mirrored(before, c, side);
                    assert(before.state_of(neighbor(c, side)) == CellState::Path);
                    assert(c != next_cell && neighbor(c, side) != next_cell);
                }
            }
            assert(spanning_tree(maze, root, parent2, depth2));
            assert forall|c: Coord, d: int|
                maze.in_bounds(c) && maze.state_of(c) == CellState::Path && !self.stack_spec().contains(c) implies !#[trigger] neighbor_matches(
                    maze,
                    c,
                    d,
                    false,
                ) by {
                assert(self.stack_spec()[self.stack_spec().len() - 1] == next_cell);
                assert(c != next_cell);
                assert(self.stack_spec()[s0.stack_spec().len() - 1] == current_cell);
                assert(c != current_cell);
                if s0.stack_spec().contains(c) {
                    let i = s0.stack_spec().index_of(c);
                    assert(self.stack_spec()[i] == c);
                }
                assert(before.state_of(c) == CellState::Path);
                assert(!neighbor_matches(&before, c, d, false));
                if 0 <= d < 4 && maze.has_neighbor(c, d) {
                    assert(opened.state_of(neighbor(c, d)) == before.state_of(neighbor(c, d)));
                }
            }
        }
    }

    /// Once the recursive backtracker is done, the maze is perfect: every
    /// cell is carved and the open walls form a spanning tree of the grid.
    pub proof fn lemma_done_is_perfect_maze(&self, m: &Maze)
        requires
            self.inv(m),
            self.status_spec() == GeneratorStatus::Done,
        ensures
            is_perfect(m),
    {
        let (root, parent, depth) = self.tree();
        assert(carving_closed(m));
        assert forall|c: Coord| m.in_bounds(c) implies #[trigger] m.state_of(c) == CellState::Path by {
            lemma_closed_carving_covers(m, root, c);
        }
        assert(spanning_tree(m, root, parent, depth));
    }
}

} // verus!
