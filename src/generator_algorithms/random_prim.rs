use vstd::prelude::*;
use indexmap::IndexSet;
use rand::rngs::StdRng;
use crate::cell::{opposite, CellState, Coord};
use crate::generator_algorithms::{
    carved_one, carving_closed, choose_rand_neighbor, is_perfect, lemma_closed_carving_covers, lemma_tree_grows, neighbor_matches,
    random_grid_position, remove_walls_between_cells, spanning_tree, tree_edge, unvisited_walls_stand, GeneratorStatus,
};
use crate::maze::{lemma_walls_mirrored, neighbor, Maze};
use crate::random::{random_below, seeded_rng};

verus! {

#[verifier::external_type_specification]
#[verifier::external_body]
#[verifier::reject_recursive_types(T)]
#[verifier::reject_recursive_types(S)]
pub struct ExIndexSet<T, S>(IndexSet<T, S>);

/// The items of a frontier set, in the set's own order.
pub uninterp spec fn frontier_items(s: IndexSet<(usize, usize)>) -> Seq<(usize, usize)>;

/// Relies on indexmap's `IndexSet::new`: a set with no items.
#[verifier::external_body]
fn frontier_new() -> (r: IndexSet<(usize, usize)>)
    ensures
        frontier_items(r) == Seq::<(usize, usize)>::empty(),
{
    IndexSet::new()
}

/// Relies on indexmap's `IndexSet::insert`: an item not yet in the set is
/// appended and `true` returned; otherwise the set is left as it was and
/// `false` returned.
#[verifier::external_body]
fn frontier_insert(s: &mut IndexSet<(usize, usize)>, value: (usize, usize)) -> (r: bool)
    ensures
        frontier_items(*old(s)).contains(value) ==> !r && frontier_items(*final(s)) == frontier_items(*old(s)),
        !frontier_items(*old(s)).contains(value) ==> r && frontier_items(*final(s)) == frontier_items(
            *old(s),
        ).push(value),
{
    s.insert(value)
}

/// Relies on indexmap's `IndexSet::len`: the number of items.
#[verifier::external_body]
fn frontier_len(s: &IndexSet<(usize, usize)>) -> (r: usize)
    ensures
        r == frontier_items(*s).len(),
{
    s.len()
}

/// Relies on indexmap's `IndexSet::swap_remove_index`: the item at `index`
/// is removed and returned, the last item taking its place; an index out of
/// range gives `None` and leaves the set as it was.
#[verifier::external_body]
fn frontier_swap_remove_index(s: &mut IndexSet<(usize, usize)>, index: usize) -> (r: Option<(usize, usize)>)
    ensures
        index < frontier_items(*old(s)).len() ==> r == Some(frontier_items(*old(s))[index as int])
            && frontier_items(*final(s)) == frontier_items(*old(s)).update(
            index as int,
            frontier_items(*old(s)).last(),
        ).drop_last(),
        index >= frontier_items(*old(s)).len() ==> r is None && frontier_items(*final(s)) == frontier_items(
            *old(s),
        ),
{
    s.swap_remove_index(index)
}

pub open spec fn as_coord(p: (usize, usize)) -> Coord {
    Coord { y: p.0, x: p.1 }
}

/// A frontier cell lies outside the carved maze, next to a carved cell.
pub open spec fn frontier_ok(m: &Maze, p: (usize, usize)) -> bool {
    &&& m.in_bounds(as_coord(p))
    &&& m.state_of(as_coord(p)) != CellState::Path
    &&& exists|d: int| #[trigger] neighbor_matches(m, as_coord(p), d, true)
}

/// Randomized Prim's algorithm: carve into a random frontier cell from a
/// random carved neighbour, then add its uncarved neighbours to the frontier.
pub struct RandomPrim {
    frontier: IndexSet<(usize, usize)>,
    status: GeneratorStatus,
    rng: StdRng,
    root: Ghost<Coord>,
    parent: Ghost<Map<Coord, Coord>>,
    depth: Ghost<Map<Coord, nat>>,
}

impl RandomPrim {
    pub closed spec fn status_spec(&self) -> GeneratorStatus {
        self.status
    }

    /// The frontier cells, as `(y, x)`.
    pub closed spec fn frontier_spec(&self) -> Seq<(usize, usize)> {
        frontier_items(self.frontier)
    }

    /// The tree of carved cells: its root, and each cell's parent and depth.
    pub closed spec fn tree(&self) -> (Coord, Map<Coord, Coord>, Map<Coord, nat>) {
        (self.root@, self.parent@, self.depth@)
    }

    /// What each step relies on: a well-formed maze whose cells outside the
    /// carved part keep all their walls, a frontier of distinct cells outside
    /// the carved part, each next to a carved cell, holding every uncarved
    /// neighbour of a carved cell; and the open walls forming a tree over the
    /// carved cells.
    pub open spec fn inv(&self, m: &Maze) -> bool {
        &&& m.wf()
        &&& unvisited_walls_stand(m)
        &&& self.status_spec() == GeneratorStatus::Initialized ==> self.frontier_spec().len() == 0 && forall|c: Coord|
            m.in_bounds(c) ==> #[trigger] m.state_of(c) != CellState::Path
        &&& self.status_spec() != GeneratorStatus::Initialized ==> spanning_tree(m, self.tree().0, self.tree().1, self.tree().2)
        &&& self.status_spec() == GeneratorStatus::Done ==> self.frontier_spec().len() == 0
        &&& self.frontier_spec().no_duplicates()
        &&& forall|i: int| 0 <= i < self.frontier_spec().len() ==> #[trigger] frontier_ok(m, self.frontier_spec()[i])
        &&& forall|c: Coord, d: int|
            m.in_bounds(c) && m.state_of(c) == CellState::Path && #[trigger] neighbor_matches(m, c, d, false)
                ==> self.frontier_spec().contains((neighbor(c, d).y, neighbor(c, d).x))
    }

    /// A generator whose random choices follow from `seed`.
    pub fn new(seed: u64) -> (r: Self)
        ensures
            r.status_spec() == GeneratorStatus::Initialized,
            r.frontier_spec().len() == 0,
    {
        RandomPrim {
            frontier: frontier_new(),
            status: GeneratorStatus::Initialized,
            rng: seeded_rng(seed),
            root: Ghost(Coord { y: 0, x: 0 }),
            parent: Ghost(Map::empty()),
            depth: Ghost(Map::empty()),
        }
    }

    pub fn status(&self) -> (r: &GeneratorStatus)
        ensures
            *r == self.status_spec(),
    {
        &self.status
    }

    /// One unit of work: visit a random start cell and seed the frontier
    /// with its neighbours; or carve into one random frontier cell; the
    /// generator is done once the frontier is empty.
    pub fn create_maze(&mut self, maze: &mut Maze)
        requires
            old(self).inv(old(maze)),
            old(self).status_spec() != GeneratorStatus::Done,
        ensures
            final(self).inv(final(maze)),
            final(maze).height_spec() == old(maze).height_spec(),
            final(maze).width_spec() == old(maze).width_spec(),
            old(self).status_spec() == GeneratorStatus::Initialized ==> final(self).status_spec()
                == GeneratorStatus::InProgress,
            old(self).status_spec() == GeneratorStatus::InProgress ==> (final(self).status_spec()
                == GeneratorStatus::Done <==> final(self).frontier_spec().len() == 0),
            final(self).status_spec() == GeneratorStatus::Done ==> is_perfect(final(maze)),
            old(self).status_spec() == GeneratorStatus::InProgress && old(self).frontier_spec().len() == 0 ==> final(self).status_spec()
                == GeneratorStatus::Done && *final(maze) == *old(maze),
            old(self).status_spec() == GeneratorStatus::InProgress && old(self).frontier_spec().len() > 0 ==> exists|f: Coord, dir: int|
                #[trigger] carved_one(old(maze), final(maze), f, dir) && old(self).frontier_spec().contains((f.y, f.x))
                    && !final(self).frontier_spec().contains((f.y, f.x)) && final(self).tree().2.dom() == old(self).tree().2.dom().insert(f),
    {
        match self.status {
            GeneratorStatus::Initialized => {
                let start: Coord = random_grid_position(maze, &mut self.rng);
                let ghost before = *maze;
                maze.visit_cell(&start);
                proof {
                    self.lemma_after_visit(before, *maze, start);
                    self.root = Ghost(start);
                    self.parent = Ghost(Map::empty());
                    self.depth = Ghost(map![start => 0nat]);
                    assert forall|c: Coord, side: int|
                        maze.in_bounds(c) && maze.state_of(c) != CellState::Path && 0 <= side < 4 implies #[trigger] maze.wall(c, side) by {
                        assert(before.wall(c, side));
                    }
                    assert forall|c: Coord, side: int|
                        maze.in_bounds(c) && 0 <= side < 4 && maze.has_neighbor(c, side) && !#[trigger] maze.wall(c, side) implies tree_edge(
                            start,
                            Map::empty(),
                            c,
                            neighbor(c, side),
                        ) by {
                        assert(before.state_of(c) != CellState::Path);
                        assert(before.wall(c, side));
                    }
                    assert forall|c: Coord| maze.in_bounds(c) implies (#[trigger] self.depth@.contains_key(c) <==> maze.state_of(c) == CellState::Path) by {
                        if c != start {
                            assert(before.state_of(c) != CellState::Path);
                        }
                    }
                    assert(spanning_tree(maze, start, Map::empty(), map![start => 0nat]));
                }
                self.add_cells_to_frontier(maze, &start);
                self.status = GeneratorStatus::InProgress;
                proof {
                    assert forall|c: Coord, d: int|
                        maze.in_bounds(c) && maze.state_of(c) == CellState::Path && #[trigger] neighbor_matches(maze, c, d, false)
                            implies self.frontier_spec().contains((neighbor(c, d).y, neighbor(c, d).x)) by {
                        if c != start {
                            assert(before.state_of(c) != CellState::Path);
                        }
                    }
                    if self.frontier_spec().len() == 0 {
                        assert(carving_closed(maze));
                    }
                }
            },
            GeneratorStatus::InProgress => {
                if frontier_len(&self.frontier) == 0 {
                    self.status = GeneratorStatus::Done;
                    proof {
                        self.lemma_done_is_perfect(maze);
                    }
                    return;
                }
                let ghost s0 = *self;
                let rand_frontier = self.rand_frontier(maze);
                let direction = match choose_rand_neighbor(maze, &rand_frontier, true, &mut self.rng) {
                    Ok(d) => d,
                    Err(_) => {
                        proof {
                            assert(frontier_ok(maze, (rand_frontier.y, rand_frontier.x)));
                            let d = choose|d: int| #[trigger] neighbor_matches(maze, as_coord((rand_frontier.y, rand_frontier.x)), d, true);
                            assert(as_coord((rand_frontier.y, rand_frontier.x)) == rand_frontier);
                            assert(neighbor_matches(maze, rand_frontier, d, true));
                        }
                        return;
                    },
                };
                let ghost cur = neighbor(rand_frontier, direction as int);
                let ghost back = opposite(direction as int);
                proof {
                    lemma_walls_mirrored(*maze, rand_frontier, direction as int);
                    assert(neighbor(cur, back) == rand_frontier);
                    assert(maze.has_neighbor(cur, back));
                }
                let ghost before = *maze;
                remove_walls_between_cells(maze, &rand_frontier, direction);
                let ghost opened = *maze;
                maze.visit_cell(&rand_frontier);
                proof {
                    assert(before == *old(maze));
                    assert forall|c: Coord, sd: int| before.in_bounds(c) && 0 <= sd < 4 implies #[trigger] maze.wall(c, sd) == (before.wall(c, sd)
                        && !((c == rand_frontier && sd == direction) || (c == neighbor(rand_frontier, direction as int) && sd == opposite(
                        direction as int,
                    )))) by {
                        assert(maze.wall(c, sd) == opened.wall(c, sd));
                    }
                    assert forall|c: Coord| before.in_bounds(c) && c != rand_frontier implies #[trigger] maze.state_of(c) == before.state_of(c) by {
                        assert(opened.state_of(c) == before.state_of(c));
                    }
                    assert(carved_one(&before, maze, rand_frontier, direction as int));
                    assert(old(self).frontier_spec().contains((rand_frontier.y, rand_frontier.x)));
                }
                proof {
                    assert forall|c: Coord, side: int|
                        maze.in_bounds(c) && maze.state_of(c) != CellState::Path && 0 <= side < 4 implies #[trigger] maze.wall(c, side) by {
                        assert(opened.wall(c, side) == maze.wall(c, side));
                        assert(before.wall(c, side));
                        assert(c != rand_frontier && c != neighbor(rand_frontier, direction as int));
                    }
                    assert forall|d: Coord| before.in_bounds(d) && d != rand_frontier implies #[trigger] maze.state_of(d) == before.state_of(d) by {
                        assert(opened.state_of(d) == before.state_of(d));
                    }
                    let (root, parent, depth) = s0.tree();
                    assert forall|d: Coord, sd: int| before.in_bounds(d) && 0 <= sd < 4 implies #[trigger] maze.wall(d, sd) == (before.wall(d, sd)
                        && !((d == cur && sd == back) || (d == rand_frontier && sd == opposite(back)))) by {
                        assert(maze.wall(d, sd) == opened.wall(d, sd));
                    }
                    lemma_tree_grows(before, *maze, root, parent, depth, cur, back, rand_frontier);
                    self.parent = Ghost(parent.insert(rand_frontier, cur));
                    self.depth = Ghost(depth.insert(rand_frontier, depth[cur] + 1));
                    self.lemma_after_visit(before, *maze, rand_frontier);
                }
                let ghost s1 = *self;
                let ghost visited = *maze;
                proof {
                    assert(!s1.frontier_spec().contains((rand_frontier.y, rand_frontier.x))) by {
                        if s1.frontier_spec().contains((rand_frontier.y, rand_frontier.x)) {
                            let i = s1.frontier_spec().index_of((rand_frontier.y, rand_frontier.x));
                            assert(as_coord(s1.frontier_spec()[i]) != rand_frontier);
                        }
                    }
                    assert(s1.tree().2.dom() =~= old(self).tree().2.dom().insert(rand_frontier));
                }
                self.add_cells_to_frontier(maze, &rand_frontier);
                proof {
                    assert(!self.frontier_spec().contains((rand_frontier.y, rand_frontier.x))) by {
                        if self.frontier_spec().contains((rand_frontier.y, rand_frontier.x)) {
                            let i = self.frontier_spec().index_of((rand_frontier.y, rand_frontier.x));
                            assert(frontier_ok(maze, self.frontier_spec()[i]));
                        }
                    }
                }
                proof {
                    assert forall|c: Coord, d: int|
                        maze.in_bounds(c) && maze.state_of(c) == CellState::Path && #[trigger] neighbor_matches(maze, c, d, false)
                            implies self.frontier_spec().contains((neighbor(c, d).y, neighbor(c, d).x)) by {
                        if c != rand_frontier {
                            assert(before.state_of(c) == CellState::Path);
                            let n = neighbor(c, d);
                            assert(maze.state_of(n) != CellState::Path);
                            assert(n != rand_frontier);
                            assert(before.state_of(n) == maze.state_of(n));
                            assert(neighbor_matches(&before, c, d, false));
                            assert(s0.frontier_spec().contains((n.y, n.x)));
                            assert(s1.frontier_spec().contains((n.y, n.x)));
                        }
                    }
                }
                if frontier_len(&self.frontier) == 0 {
                    self.status = GeneratorStatus::Done;
                    proof {
                        self.lemma_done_is_perfect(maze);
                    }
                }
            },
            GeneratorStatus::Done => {},
        }
    }

    /// With the frontier empty, every cell is carved and the open walls form
    /// a spanning tree.
    proof fn lemma_done_is_perfect(&self, m: &Maze)
        requires
            m.wf(),
            self.frontier_spec().len() == 0,
            spanning_tree(m, self.tree().0, self.tree().1, self.tree().2),
            forall|c: Coord, d: int|
                m.in_bounds(c) && m.state_of(c) == CellState::Path && #[trigger] neighbor_matches(m, c, d, false)
                    ==> self.frontier_spec().contains((neighbor(c, d).y, neighbor(c, d).x)),
        ensures
            is_perfect(m),
    {
        let (root, parent, depth) = self.tree();
        assert(carving_closed(m));
        assert forall|c: Coord| m.in_bounds(c) implies #[trigger] m.state_of(c) == CellState::Path by {
            lemma_closed_carving_covers(m, root, c);
        }
    }

    /// After `c` joins the carved part, the frontier (without `c`) still
    /// meets the invariant.
    proof fn lemma_after_visit(&self, before: Maze, after: Maze, c: Coord)
        requires
            before.wf(),
            after.wf(),
            before.in_bounds(c),
            after.height_spec() == before.height_spec(),
            after.width_spec() == before.width_spec(),
            after.state_of(c) == CellState::Path,
            forall|d: Coord| before.in_bounds(d) && d != c ==> #[trigger] after.state_of(d) == before.state_of(d),
            forall|i: int| 0 <= i < self.frontier_spec().len() ==> #[trigger] frontier_ok(&before, self.frontier_spec()[i])
                && as_coord(self.frontier_spec()[i]) != c,
        ensures
            forall|i: int| 0 <= i < self.frontier_spec().len() ==> #[trigger] frontier_ok(&after, self.frontier_spec()[i]),
    {
        assert forall|i: int| 0 <= i < self.frontier_spec().len() implies #[trigger] frontier_ok(&after, self.frontier_spec()[i]) by {
            let p = self.frontier_spec()[i];
            assert(frontier_ok(&before, p));
            let d = choose|d: int| #[trigger] neighbor_matches(&before, as_coord(p), d, true);
            assert(neighbor_matches(&after, as_coord(p), d, true));
        }
    }

    /// Adds `cell`, which lies outside the carved part next to a carved
    /// cell, to the frontier.
    fn push_frontier(&mut self, maze: &Maze, cell: Coord)
        requires
            maze.wf(),
            frontier_ok(maze, (cell.y, cell.x)),
            old(self).frontier_spec().no_duplicates(),
            forall|i: int| 0 <= i < old(self).frontier_spec().len() ==> #[trigger] frontier_ok(maze, old(self).frontier_spec()[i]),
        ensures
            final(self).status == old(self).status,
            final(self).tree() == old(self).tree(),
            final(self).frontier_spec().no_duplicates(),
            forall|i: int| 0 <= i < final(self).frontier_spec().len() ==> #[trigger] frontier_ok(maze, final(self).frontier_spec()[i]),
            forall|p: (usize, usize)| old(self).frontier_spec().contains(p) ==> #[trigger] final(self).frontier_spec().contains(p),
            final(self).frontier_spec().contains((cell.y, cell.x)),
    {
        let ghost items = self.frontier_spec();
        frontier_insert(&mut self.frontier, (cell.y, cell.x));
        proof {
            assert forall|i: int| 0 <= i < self.frontier_spec().len() implies #[trigger] frontier_ok(maze, self.frontier_spec()[i]) by {
                if i < items.len() {
                    assert(self.frontier_spec()[i] == items[i]);
                }
            }
            assert forall|p: (usize, usize)| items.contains(p) implies #[trigger] self.frontier_spec().contains(p) by {
                let i = items.index_of(p);
                assert(self.frontier_spec()[i] == p);
            }
            if !items.contains((cell.y, cell.x)) {
                assert(self.frontier_spec()[items.len() as int] == (cell.y, cell.x));
            }
        }
    }

    /// Adds each uncarved neighbour of `origin` to the frontier.
    fn add_cells_to_frontier(&mut self, maze: &Maze, origin: &Coord)
        requires
            maze.wf(),
            maze.in_bounds(*origin),
            maze.state_of(*origin) == CellState::Path,
            frontier_items(old(self).frontier).no_duplicates(),
            forall|i: int| 0 <= i < old(self).frontier_spec().len() ==> #[trigger] frontier_ok(maze, old(self).frontier_spec()[i]),
        ensures
            final(self).status == old(self).status,
            final(self).tree() == old(self).tree(),
            final(self).frontier_spec().no_duplicates(),
            forall|i: int| 0 <= i < final(self).frontier_spec().len() ==> #[trigger] frontier_ok(maze, final(self).frontier_spec()[i]),
            forall|p: (usize, usize)| old(self).frontier_spec().contains(p) ==> #[trigger] final(self).frontier_spec().contains(p),
            forall|d: int| #[trigger] neighbor_matches(maze, *origin, d, false) ==> final(self).frontier_spec().contains(
                (neighbor(*origin, d).y, neighbor(*origin, d).x),
            ),
    {
        let ghost s0 = *self;
        if origin.y > 0 && !maze.get_cell_ref(&Coord { y: origin.y - 1, x: origin.x }).visited() {
            assert(neighbor_matches(maze, Coord { y: (origin.y - 1) as usize, x: origin.x }, 2, true));
            self.push_frontier(maze, Coord { y: origin.y - 1, x: origin.x });
        }
        let ghost s1 = *self;
        if origin.y < maze.height() - 1 && !maze.get_cell_ref(&Coord { y: origin.y + 1, x: origin.x }).visited() {
            assert(neighbor_matches(maze, Coord { y: (origin.y + 1) as usize, x: origin.x }, 0, true));
            self.push_frontier(maze, Coord { y: origin.y + 1, x: origin.x });
        }
        let ghost s2 = *self;
        if origin.x > 0 && !maze.get_cell_ref(&Coord { y: origin.y, x: origin.x - 1 }).visited() {
            assert(neighbor_matches(maze, Coord { y: origin.y, x: (origin.x - 1) as usize }, 1, true));
            self.push_frontier(maze, Coord { y: origin.y, x: origin.x - 1 });
        }
        let ghost s3 = *self;
        if origin.x < maze.width() - 1 && !maze.get_cell_ref(&Coord { y: origin.y, x: origin.x + 1 }).visited() {
            assert(neighbor_matches(maze, Coord { y: origin.y, x: (origin.x + 1) as usize }, 3, true));
            self.push_frontier(maze, Coord { y: origin.y, x: origin.x + 1 });
        }
        proof {
            assert forall|d: int| #[trigger] neighbor_matches(maze, *origin, d, false) implies self.frontier_spec().contains(
                (neighbor(*origin, d).y, neighbor(*origin, d).x),
            ) by {
                let n = neighbor(*origin, d);
                if d == 0 {
                    assert(s1.frontier_spec().contains((n.y, n.x)));
                    assert(s2.frontier_spec().contains((n.y, n.x)));
                    assert(s3.frontier_spec().contains((n.y, n.x)));
                } else if d == 2 {
                    assert(s2.frontier_spec().contains((n.y, n.x)));
                    assert(s3.frontier_spec().contains((n.y, n.x)));
                } else if d == 3 {
                    assert(s3.frontier_spec().contains((n.y, n.x)));
                }
            }
        }
    }

    /// Removes a uniformly chosen cell from the non-empty frontier.
    fn rand_frontier(&mut self, maze: &Maze) -> (r: Coord)
        requires
            old(self).inv(maze),
            old(self).frontier_spec().len() > 0,
        ensures
            final(self).status == old(self).status,
            frontier_ok(maze, (r.y, r.x)),
            final(self).frontier_spec().no_duplicates(),
            forall|i: int| 0 <= i < final(self).frontier_spec().len() ==> #[trigger] frontier_ok(maze, final(self).frontier_spec()[i])
                && as_coord(final(self).frontier_spec()[i]) != r,
            forall|p: (usize, usize)| old(self).frontier_spec().contains(p) && as_coord(p) != r ==> #[trigger] final(self).frontier_spec().contains(p),
            final(self).tree() == old(self).tree(),
            old(self).frontier_spec().contains((r.y, r.x)),
    {
        let len = frontier_len(&self.frontier);
        let index = random_below(&mut self.rng, len);
        let ghost items = self.frontier_spec();
        let picked = match frontier_swap_remove_index(&mut self.frontier, index) {
            Some(p) => p,
            None => {
                return Coord { y: 0, x: 0 };
            },
        };
        proof {
            let rest = self.frontier_spec();
            assert(frontier_ok(maze, items[index as int]));
            assert forall|i: int| 0 <= i < rest.len() implies rest[i] != picked && (rest[i] == items[i] || (i == index && rest[i] == items.last())) by {
                if i == index {
                    assert(items.last() == items[items.len() - 1]);
                }
            }
            assert forall|i: int, j: int| 0 <= i < rest.len() && 0 <= j < rest.len() && i != j implies rest[i] != rest[j] by {
                let a = if i == index { items.len() - 1 } else { i };
                let b = if j == index { items.len() - 1 } else { j };
                assert(rest[i] == items[a]);
                assert(rest[j] == items[b]);
            }
            assert forall|i: int| 0 <= i < rest.len() implies #[trigger] frontier_ok(maze, rest[i]) && as_coord(rest[i]) != as_coord(picked) by {
                let a = if i == index { items.len() - 1 } else { i };
                assert(rest[i] == items[a]);
                assert(frontier_ok(maze, items[a]));
            }
            assert forall|p: (usize, usize)| items.contains(p) && as_coord(p) != as_coord(picked) implies #[trigger] rest.contains(p) by {
                let j = items.index_of(p);
                assert(j != index);
                if j < items.len() - 1 {
                    assert(rest[j] == p);
                } else {
                    assert(rest[index as int] == p);
                }
            }
        }
        proof {
            assert(items[index as int] == picked);
            assert(items.contains(picked));
        }
        Coord { y: picked.0, x: picked.1 }
    }

    /// Once Randomized Prim's is done, the maze is perfect: every cell is
    /// carved and the open walls form a spanning tree of the grid.
    pub proof fn lemma_done_is_perfect_maze(&self, m: &Maze)
        requires
            self.inv(m),
            self.status_spec() == GeneratorStatus::Done,
        ensures
            is_perfect(m),
    {
        self.lemma_done_is_perfect(m);
    }
}

} // verus!
