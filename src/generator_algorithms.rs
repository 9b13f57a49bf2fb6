pub mod ellers;
pub mod random_prim;
pub mod recursive_backtracker;

use vstd::prelude::*;
use rand::rngs::StdRng;
use crate::cell::{same_text, CellState, Coord, BOTTOM, LEFT, RIGHT, TOP};
use crate::maze::{lemma_walls_mirrored, linked, neighbor, Maze};
use crate::cell::opposite;
use crate::random::{random_below, shuffle};
use crate::generator_algorithms::ellers::Ellers;
use crate::generator_algorithms::random_prim::RandomPrim;
use crate::generator_algorithms::recursive_backtracker::RecursiveBacktracker;

verus! {

broadcast use vstd::seq_lib::group_to_multiset_ensures;

/// Where a generator stands: not started, carving, or finished.
#[derive(PartialEq, Eq, Structural, Clone, Copy, Debug)]
pub enum GeneratorStatus {
    Initialized,
    InProgress,
    Done,
}

/// Every cell unvisited and every wall standing: a maze not yet carved.
pub open spec fn fresh_maze(m: &Maze) -> bool {
    &&& forall|c: Coord| m.in_bounds(c) ==> #[trigger] m.state_of(c) != CellState::Path
    &&& forall|c: Coord, side: int| m.in_bounds(c) && 0 <= side < 4 ==> #[trigger] m.wall(c, side)
}

/// No wall of a cell outside the carved maze has been taken down yet.
pub open spec fn unvisited_walls_stand(m: &Maze) -> bool {
    forall|c: Coord, side: int|
        m.in_bounds(c) && m.state_of(c) != CellState::Path && 0 <= side < 4 ==> #[trigger] m.wall(c, side)
}

/// `a` and `b` are joined as a cell and its parent in the tree.
pub open spec fn tree_edge(root: Coord, parent: Map<Coord, Coord>, a: Coord, b: Coord) -> bool {
    ||| (a != root && parent.contains_key(a) && parent[a] == b)
    ||| (b != root && parent.contains_key(b) && parent[b] == a)
}

/// The open walls of `m` form a tree over its carved cells, rooted at
/// `root`: each carved cell other than the root has a parent, carved and
/// nearer the root, joined to it by an open wall; and every open wall joins
/// a cell to its parent.
pub open spec fn spanning_tree(m: &Maze, root: Coord, parent: Map<Coord, Coord>, depth: Map<Coord, nat>) -> bool {
    &&& m.in_bounds(root)
    &&& depth.contains_key(root)
    &&& depth[root] == 0
    &&& forall|c: Coord| m.in_bounds(c) ==> (#[trigger] depth.contains_key(c) <==> m.state_of(c) == CellState::Path)
    &&& forall|c: Coord| #[trigger] depth.contains_key(c) ==> m.in_bounds(c)
    &&& forall|c: Coord|
        #[trigger] depth.contains_key(c) && c != root ==> {
            &&& parent.contains_key(c)
            &&& depth.contains_key(parent[c])
            &&& depth[parent[c]] < depth[c]
            &&& linked(m, parent[c], c)
        }
    &&& forall|c: Coord, side: int|
        m.in_bounds(c) && 0 <= side < 4 && m.has_neighbor(c, side) && !#[trigger] m.wall(c, side) ==> tree_edge(
            root,
            parent,
            c,
            neighbor(c, side),
        )
}

/// A perfect maze: every cell carved, and the open walls a spanning tree of
/// the cells. Following parents from any cell reaches the root through open
/// walls, so every cell is reachable from every other; and each open wall is
/// the edge of exactly one non-root cell to its parent, so there are
/// `height * width - 1` of them.
pub open spec fn is_perfect(m: &Maze) -> bool {
    &&& forall|c: Coord| m.in_bounds(c) ==> #[trigger] m.state_of(c) == CellState::Path
    &&& exists|root: Coord, parent: Map<Coord, Coord>, depth: Map<Coord, nat>| #[trigger] spanning_tree(m, root, parent, depth)
}

/// Every carved cell has only carved neighbours.
pub open spec fn carving_closed(m: &Maze) -> bool {
    forall|c: Coord, d: int|
        m.in_bounds(c) && m.state_of(c) == CellState::Path ==> !#[trigger] neighbor_matches(m, c, d, false)
}

/// `m2` is `m` with exactly one more cell carved: the uncarved cell `f`
/// joins the carved part through the wall on its side `dir`, which is
/// taken down on both sides; every other cell and wall is as it was.
pub open spec fn carved_one(m: &Maze, m2: &Maze, f: Coord, dir: int) -> bool {
    &&& m2.height_spec() == m.height_spec()
    &&& m2.width_spec() == m.width_spec()
    &&& m.in_bounds(f)
    &&& 0 <= dir < 4
    &&& m.has_neighbor(f, dir)
    &&& m.state_of(f) != CellState::Path
    &&& m2.state_of(f) == CellState::Path
    &&& m.state_of(neighbor(f, dir)) == CellState::Path
    &&& forall|c: Coord| m.in_bounds(c) && c != f ==> #[trigger] m2.state_of(c) == m.state_of(c)
    &&& forall|c: Coord, s: int| m.in_bounds(c) && 0 <= s < 4 ==> #[trigger] m2.wall(c, s) == (m.wall(c, s) && !((c == f && s == dir) || (
        c == neighbor(f, dir) && s == opposite(dir))))
}

/// Manhattan distance between two cells.
pub open spec fn distance(a: Coord, b: Coord) -> nat {
    ((if a.y >= b.y { a.y - b.y } else { b.y - a.y }) + (if a.x >= b.x { a.x - b.x } else { b.x - a.x })) as nat
}

/// When the carved part of a grid is closed under neighbours and holds
/// `root`, it holds every cell.
pub proof fn lemma_closed_carving_covers(m: &Maze, root: Coord, c: Coord)
    requires
        m.wf(),
        m.in_bounds(root),
        m.in_bounds(c),
        m.state_of(root) == CellState::Path,
        carving_closed(m),
    ensures
        m.state_of(c) == CellState::Path,
    decreases distance(c, root),
{
    if c != root {
        let d: int = if c.y > root.y {
            TOP as int
        } else if c.y < root.y {
            BOTTOM as int
        } else if c.x > root.x {
            LEFT as int
        } else {
            RIGHT as int
        };
        let n = neighbor(c, d);
        assert(m.has_neighbor(c, d));
        assert(m.in_bounds(n));
        assert(distance(n, root) < distance(c, root));
        lemma_closed_carving_covers(m, root, n);
        let back = opposite(d);
        assert(m.has_neighbor(n, back));
        assert(neighbor(n, back) == c);
        assert(!neighbor_matches(m, n, back, false));
    }
}

/// Carving from the carved cell `cur` into its uncarved neighbour `next`
/// grows the tree by `next`, as a child of `cur`.
pub proof fn lemma_tree_grows(
    before: Maze,
    after: Maze,
    root: Coord,
    parent: Map<Coord, Coord>,
    depth: Map<Coord, nat>,
    cur: Coord,
    dir: int,
    next: Coord,
)
    requires
        before.wf(),
        after.wf(),
        spanning_tree(&before, root, parent, depth),
        unvisited_walls_stand(&before),
        before.in_bounds(cur),
        before.state_of(cur) == CellState::Path,
        0 <= dir < 4,
        before.has_neighbor(cur, dir),
        next == neighbor(cur, dir),
        before.state_of(next) != CellState::Path,
        after.height_spec() == before.height_spec(),
        after.width_spec() == before.width_spec(),
        after.state_of(next) == CellState::Path,
        forall|d: Coord| before.in_bounds(d) && d != next ==> #[trigger] after.state_of(d) == before.state_of(d),
        forall|d: Coord, s: int| before.in_bounds(d) && 0 <= s < 4 ==> #[trigger] after.wall(d, s) == (before.wall(d, s)
            && !((d == cur && s == dir) || (d == next && s == opposite(dir)))),
    ensures
        spanning_tree(&after, root, parent.insert(next, cur), depth.insert(next, depth[cur] + 1)),
{
    let parent2 = parent.insert(next, cur);
    let depth2 = depth.insert(next, depth[cur] + 1);
    assert(before.in_bounds(next));
    assert(next != root);
    assert(!depth.contains_key(next));
    assert forall|c: Coord| after.in_bounds(c) implies (#[trigger] depth2.contains_key(c) <==> after.state_of(c) == CellState::Path) by {
        if c != next {
            assert(depth.contains_key(c) <==> before.state_of(c) == CellState::Path);
        }
    }
    assert forall|c: Coord| #[trigger] depth2.contains_key(c) && c != root implies {
        &&& parent2.contains_key(c)
        &&& depth2.contains_key(parent2[c])
        &&& depth2[parent2[c]] < depth2[c]
        &&& linked(&after, parent2[c], c)
    } by {
        if c == next {
            assert(after.wall(cur, dir) == false);
            assert(after.has_neighbor(cur, dir) && neighbor(cur, dir) == c && !after.wall(cur, dir));
        } else {
            assert(depth.contains_key(c));
            let p = parent[c];
            assert(linked(&before, p, c));
            let side = choose|side: int| 0 <= side < 4 && before.has_neighbor(p, side) && #[trigger] neighbor(p, side) == c && !before.wall(p, side);
            assert(before.in_bounds(p));
            assert(after.wall(p, side) == (before.wall(p, side) && !((p == cur && side == dir) || (p == next && side == opposite(dir)))));
            assert(p != next);
            assert(after.has_neighbor(p, side) && neighbor(p, side) == c && !after.wall(p, side));
        }
    }
    assert forall|c: Coord, side: int|
        after.in_bounds(c) && 0 <= side < 4 && after.has_neighbor(c, side) && !#[trigger] after.wall(c, side) implies tree_edge(
            root,
            parent2,
            c,
            neighbor(c, side),
        ) by {
        assert(after.wall(c, side) == (before.wall(c, side) && !((c == cur && side == dir) || (c == next && side == opposite(dir)))));
        if (c == cur && side == dir) || (c == next && side == opposite(dir)) {
            if c == next {
                assert(neighbor(next, opposite(dir)) == cur);
            }
        } else {
            assert(!before.wall(c, side));
            assert(tree_edge(root, parent, c, neighbor(c, side)));
            assert(before.state_of(c) == CellState::Path);
            lemma_walls_mirrored(before, c, side);
            assert(before.state_of(neighbor(c, side)) == CellState::Path);
            assert(c != next && neighbor(c, side) != next);
        }
    }
    assert forall|c: Coord| #[trigger] depth2.contains_key(c) implies after.in_bounds(c) by {}
}

/// A cell chosen uniformly at random.
pub fn random_grid_position(maze: &Maze, rng: &mut StdRng) -> (r: Coord)
    requires
        maze.wf(),
    ensures
        maze.in_bounds(r),
{
    let y = random_below(rng, maze.height());
    let x = random_below(rng, maze.width());
    Coord { y, x }
}

/// Removes the wall shared by `frontier_cell` and its neighbour in
/// `direction` (0 top, 1 right, 2 bottom, 3 left), on both sides; any other
/// direction changes nothing.
pub fn remove_walls_between_cells(maze: &mut Maze, frontier_cell: &Coord, direction: usize)
    requires
        old(maze).wf(),
        old(maze).in_bounds(*frontier_cell),
        direction < 4 ==> old(maze).has_neighbor(*frontier_cell, direction as int) && old(maze).wall(
            *frontier_cell,
            direction as int,
        ),
    ensures
        final(maze).wf(),
        direction < 4 ==> old(maze).opened(final(maze), *frontier_cell, direction as int)
            && old(maze).other_lines_kept(final(maze), *frontier_cell, direction as int),
        direction >= 4 ==> *final(maze) == *old(maze),
{
    if direction < 4 {
        maze.remove_wall_between(frontier_cell, direction);
    }
}

/// The neighbour of `c` across `direction` exists and is (or is not, as
/// `visited_status` says) part of the carved maze.
pub open spec fn neighbor_matches(m: &Maze, c: Coord, direction: int, visited_status: bool) -> bool {
    &&& 0 <= direction < 4
    &&& m.has_neighbor(c, direction)
    &&& (m.state_of(neighbor(c, direction)) == CellState::Path) == visited_status
}

/// The first direction of `order` (0 top, 1 right, 2 bottom, 3 left) that
/// leads from `frontier_cell` to a neighbour whose visited flag is
/// `visited_status`; an error when none does.
pub fn first_matching_direction(maze: &Maze, frontier_cell: &Coord, visited_status: bool, order: &Vec<usize>) -> (r: Result<usize, &'static str>)
    requires
        maze.wf(),
        maze.in_bounds(*frontier_cell),
    ensures
        r matches Ok(d) ==> exists|i: int|
            0 <= i < order@.len() && order@[i] == d && #[trigger] neighbor_matches(maze, *frontier_cell, order@[i] as int, visited_status)
                && forall|j: int| 0 <= j < i ==> !neighbor_matches(maze, *frontier_cell, #[trigger] order@[j] as int, visited_status),
        r is Err <==> forall|i: int| 0 <= i < order@.len() ==> !neighbor_matches(maze, *frontier_cell, #[trigger] order@[i] as int, visited_status),
{
    let mut k: usize = 0;
    while k < order.len()
        invariant
            maze.wf(),
            maze.in_bounds(*frontier_cell),
            k <= order@.len(),
            forall|i: int| 0 <= i < k ==> !neighbor_matches(maze, *frontier_cell, #[trigger] order@[i] as int, visited_status),
        decreases order@.len() - k,
    {
        let direction = order[k];
        let mut found = false;
        if direction == 0 && frontier_cell.y > 0 {
            if maze.get_cell_ref(&Coord { y: frontier_cell.y - 1, x: frontier_cell.x }).visited() == visited_status {
                found = true;
            }
        }
        if direction == 1 && frontier_cell.x < maze.width() - 1 {
            if maze.get_cell_ref(&Coord { y: frontier_cell.y, x: frontier_cell.x + 1 }).visited() == visited_status {
                found = true;
            }
        }
        if direction == 2 && frontier_cell.y < maze.height() - 1 {
            if maze.get_cell_ref(&Coord { y: frontier_cell.y + 1, x: frontier_cell.x }).visited() == visited_status {
                found = true;
            }
        }
        if direction == 3 && frontier_cell.x > 0 {
            if maze.get_cell_ref(&Coord { y: frontier_cell.y, x: frontier_cell.x - 1 }).visited() == visited_status {
                found = true;
            }
        }
        if found {
            assert(neighbor_matches(maze, *frontier_cell, order@[k as int] as int, visited_status));
            return Ok(direction);
        }
        assert(!neighbor_matches(maze, *frontier_cell, order@[k as int] as int, visited_status));
        k += 1;
    }
    Err("no neighboring cells in that state")
}

/// Picks, in random order, a direction from `frontier_cell` towards a
/// neighbour whose visited flag is `visited_status`; fails when there is none.
pub fn choose_rand_neighbor(maze: &Maze, frontier_cell: &Coord, visited_status: bool, rng: &mut StdRng) -> (r: Result<usize, &'static str>)
    requires
        maze.wf(),
        maze.in_bounds(*frontier_cell),
    ensures
        r matches Ok(d) ==> neighbor_matches(maze, *frontier_cell, d as int, visited_status),
        r is Err <==> forall|d: int| 0 <= d < 4 ==> !#[trigger] neighbor_matches(maze, *frontier_cell, d, visited_status),
{
    let mut directions: Vec<usize> = vec![0, 1, 2, 3];
    let ghost all = directions@;
    shuffle(rng, &mut directions);
    proof {
        assert(all =~= seq![0usize, 1, 2, 3]);
        assert forall|d: usize| d < 4 implies #[trigger] directions@.contains(d) by {
            assert(all[d as int] == d);
            assert(all.contains(d));
            assert(all.to_multiset().count(d) > 0);
        }
        assert forall|i: int| 0 <= i < directions@.len() implies directions@[i] < 4 by {
            assert(directions@.to_multiset().count(directions@[i]) > 0);
            assert(all.contains(directions@[i]));
        }
    }
    let r = first_matching_direction(maze, frontier_cell, visited_status, &directions);
    proof {
        if r is Err {
            assert forall|d: int| 0 <= d < 4 implies !#[trigger] neighbor_matches(maze, *frontier_cell, d, visited_status) by {
                assert(directions@.contains(d as usize));
                let i = directions@.index_of(d as usize);
                assert(!neighbor_matches(maze, *frontier_cell, directions@[i] as int, visited_status));
            }
        } else {
            let d = r->Ok_0;
            let i = choose|i: int|
                0 <= i < directions@.len() && directions@[i] == d && #[trigger] neighbor_matches(maze, *frontier_cell, directions@[i] as int, visited_status)
                    && forall|j: int| 0 <= j < i ==> !neighbor_matches(maze, *frontier_cell, #[trigger] directions@[j] as int, visited_status);
            assert(!(forall|i: int| 0 <= i < 4 ==> !#[trigger] neighbor_matches(maze, *frontier_cell, i, visited_status)));
        }
    }
    r
}

/// One of the generators, chosen by name.
pub enum Generator {
    Ellers(Ellers),
    RandomPrim(RandomPrim),
    RecursiveBacktracker(RecursiveBacktracker),
}

impl Generator {
    /// What the next step of the chosen generator relies on.
    pub open spec fn inv(&self, m: &Maze) -> bool {
        match self {
            Generator::Ellers(g) => g.inv(m),
            Generator::RandomPrim(g) => g.inv(m),
            Generator::RecursiveBacktracker(g) => g.inv(m),
        }
    }

    pub open spec fn status_spec(&self) -> GeneratorStatus {
        match self {
            Generator::Ellers(g) => g.status_spec(),
            Generator::RandomPrim(g) => g.status_spec(),
            Generator::RecursiveBacktracker(g) => g.status_spec(),
        }
    }

    pub fn status(&self) -> (r: GeneratorStatus)
        ensures
            r == self.status_spec(),
    {
        match self {
            Generator::Ellers(g) => *g.status(),
            Generator::RandomPrim(g) => *g.status(),
            Generator::RecursiveBacktracker(g) => *g.status(),
        }
    }

    /// One step of the chosen generator.
    pub fn create_maze(&mut self, maze: &mut Maze)
        requires
            old(self).inv(old(maze)),
            old(self).status_spec() != GeneratorStatus::Done,
        ensures
            final(self).inv(final(maze)),
            final(maze).height_spec() == old(maze).height_spec(),
            final(maze).width_spec() == old(maze).width_spec(),
            final(maze).wf(),
            (*final(self) is Ellers) == (*old(self) is Ellers),
            (*final(self) is RandomPrim) == (*old(self) is RandomPrim),
            final(self).status_spec() == GeneratorStatus::Done ==> match *final(self) {
                Generator::Ellers(g) => g.one_set() && g.all_joined(final(maze)),
                _ => is_perfect(final(maze)),
            },
    {
        match self {
            Generator::Ellers(g) => g.create_maze(maze),
            Generator::RandomPrim(g) => g.create_maze(maze),
            Generator::RecursiveBacktracker(g) => g.create_maze(maze),
        }
    }
}

/// The generator named "ellers", "random_prim" or "recursive_backtracker",
/// whose random choices follow from `seed`; any other name is a
/// configuration error, which callers rule out.
pub fn get_generator_algo(algo: &str, seed: u64) -> (r: Generator)
    requires
        algo@ == "ellers"@ || algo@ == "random_prim"@ || algo@ == "recursive_backtracker"@,
    ensures
        algo@ == "ellers"@ ==> r is Ellers,
        algo@ == "random_prim"@ ==> r is RandomPrim,
        algo@ == "recursive_backtracker"@ ==> r is RecursiveBacktracker,
        r.status_spec() == GeneratorStatus::Initialized,
        forall|m: &Maze| m.wf() && fresh_maze(m) ==> r.inv(m),
{
    proof {
        reveal_strlit("ellers");
        reveal_strlit("random_prim");
        reveal_strlit("recursive_backtracker");
        assert("ellers"@.len() == 6);
        assert("random_prim"@.len() == 11);
        assert("recursive_backtracker"@.len() == 21);
    }
    if same_text(algo, "ellers") {
        Generator::Ellers(Ellers::new(seed))
    } else if same_text(algo, "random_prim") {
        let g = RandomPrim::new(seed);
        assert forall|m: &Maze| m.wf() && fresh_maze(m) implies g.inv(m) by {
            assert forall|c: Coord, side: int| m.in_bounds(c) && m.state_of(c) != CellState::Path && 0 <= side < 4 implies #[trigger] m.wall(c, side) by {}
        }
        Generator::RandomPrim(g)
    } else {
        let g = RecursiveBacktracker::new(seed);
        assert forall|m: &Maze| m.wf() && fresh_maze(m) implies g.inv(m) by {
            assert forall|c: Coord, side: int| m.in_bounds(c) && m.state_of(c) != CellState::Path && 0 <= side < 4 implies #[trigger] m.wall(c, side) by {}
        }
        Generator::RecursiveBacktracker(g)
    }
}

} // verus!
