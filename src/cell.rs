use vstd::prelude::*;

verus! {

/// Index of the top wall in `Cell::walls`.
pub const TOP: usize = 0;

/// Index of the right wall in `Cell::walls`.
pub const RIGHT: usize = 1;

/// Index of the bottom wall in `Cell::walls`.
pub const BOTTOM: usize = 2;

/// Index of the left wall in `Cell::walls`.
pub const LEFT: usize = 3;

/// Zero-based, row-major address of a cell.
#[derive(PartialEq, Eq, Structural, Hash, Clone, Copy, Debug)]
pub struct Coord {
    pub y: usize,
    pub x: usize,
}

/// What a cell currently shows: generation marks cells `Path`, the solvers
/// use the other states.
#[derive(PartialEq, Eq, Structural, Hash, Clone, Copy, Debug)]
pub enum CellState {
    Unvisited,
    Frontier,
    Path,
    Solution,
    Start,
    Finish,
}

/// One cell of the grid: its state, its four walls (top, right, bottom,
/// left; `true` when the wall stands) and its own address.
#[derive(Clone, Copy, Debug)]
pub struct Cell {
    state: CellState,
    walls: [bool; 4],
    coord: Coord,
}

/// The side opposite to `side`: top and bottom, left and right.
pub open spec fn opposite(side: int) -> int {
    (side + 2) % 4
}

/// The wall index that a side name denotes, if it names one.
pub open spec fn side_named(name: Seq<char>) -> Option<usize> {
    if name == "top"@ {
        Some(TOP)
    } else if name == "right"@ {
        Some(RIGHT)
    } else if name == "bottom"@ {
        Some(BOTTOM)
    } else if name == "left"@ {
        Some(LEFT)
    } else {
        None
    }
}

pub(crate) fn same_text(a: &str, b: &str) -> (r: bool)
    ensures
        r == (a@ == b@),
{
    a.to_owned() == b.to_owned()
}

/// Maps "top", "right", "bottom" and "left" to their wall index.
pub fn side_index(name: &str) -> (r: Option<usize>)
    ensures
        r == side_named(name@),
{
    if same_text(name, "top") {
        Some(TOP)
    } else if same_text(name, "right") {
        Some(RIGHT)
    } else if same_text(name, "bottom") {
        Some(BOTTOM)
    } else if same_text(name, "left") {
        Some(LEFT)
    } else {
        None
    }
}

impl Cell {
    pub closed spec fn state_spec(&self) -> CellState {
        self.state
    }

    pub closed spec fn walls_spec(&self) -> Seq<bool> {
        self.walls@
    }

    pub closed spec fn coord_spec(&self) -> Coord {
        self.coord
    }

    /// A fresh cell at `coord`: unvisited, with all four walls standing.
    pub open spec fn is_fresh(self, coord: Coord) -> bool {
        &&& self.state_spec() == CellState::Unvisited
        &&& self.walls_spec() == seq![true, true, true, true]
        &&& self.coord_spec() == coord
    }

    /// `after` is this cell with the wall `dir` taken down and nothing else changed.
    pub open spec fn lost_wall(self, after: Cell, dir: int) -> bool {
        &&& after.state_spec() == self.state_spec()
        &&& after.coord_spec() == self.coord_spec()
        &&& after.walls_spec() == self.walls_spec().update(dir, false)
    }

    /// `after` is this cell in the state `state`, walls and address unchanged.
    pub open spec fn now_in(self, after: Cell, state: CellState) -> bool {
        &&& after.state_spec() == state
        &&& after.coord_spec() == self.coord_spec()
        &&& after.walls_spec() == self.walls_spec()
    }

    pub fn new(coord: Coord) -> (r: Self)
        ensures
            r.is_fresh(coord),
    {
        let r = Self { state: CellState::Unvisited, walls: [true, true, true, true], coord };
        assert(r.walls@ =~= seq![true, true, true, true]);
        r
    }

    pub fn walls(&self) -> (r: &[bool; 4])
        ensures
            r@ == self.walls_spec(),
    {
        &self.walls
    }

    pub fn coord(&self) -> (r: &Coord)
        ensures
            *r == self.coord_spec(),
    {
        &self.coord
    }

    /// A cell counts as visited once generation has made it part of the maze.
    pub fn visited(&self) -> (r: bool)
        ensures
            r == (self.state_spec() == CellState::Path),
    {
        match self.state {
            CellState::Path => true,
            _ => false,
        }
    }

    pub fn visit(&mut self)
        ensures
            old(self).now_in(*final(self), CellState::Path),
    {
        self.state = CellState::Path;
    }

    pub fn change_state(&mut self, state: CellState)
        ensures
            old(self).now_in(*final(self), state),
    {
        self.state = state;
    }

    pub fn state(&self) -> (r: CellState)
        ensures
            r == self.state_spec(),
    {
        self.state
    }

    pub(crate) fn remove_wall_by_int(&mut self, dir: usize)
        requires
            dir < 4,
        ensures
            old(self).lost_wall(*final(self), dir as int),
    {
        self.walls[dir] = false;
        assert(self.walls@ =~= old(self).walls@.update(dir as int, false));
    }

    /// Takes down the wall on the named side ("top", "right", "bottom" or
    /// "left"); any other name leaves the cell as it is.
    pub fn remove_wall(&mut self, dir: &str)
        ensures
            side_named(dir@) matches Some(d) ==> old(self).lost_wall(*final(self), d as int),
            side_named(dir@) is None ==> *final(self) == *old(self),
    {
        match side_index(dir) {
            Some(d) => self.remove_wall_by_int(d),
            None => {},
        }
    }
}

} // verus!
