use maze_generator::cell::{side_index, Cell, CellState, Coord};
use maze_generator::maze::Maze;

fn walls_of(maze: &Maze, y: usize, x: usize) -> [bool; 4] {
    *maze.get_cell_ref(&Coord { y, x }).walls()
}

#[test]
fn new_maze_has_every_wall_and_no_visited_cell() {
    let maze = Maze::new(3, 4);
    assert_eq!(maze.height(), 3);
    assert_eq!(maze.width(), 4);
    assert_eq!(maze.grid().len(), 12);
    for y in 0..3 {
        for x in 0..4 {
            let cell = maze.get_cell_ref(&Coord { y, x });
            assert_eq!(*cell.walls(), [true, true, true, true]);
            assert!(cell.state() == CellState::Unvisited);
            assert_eq!(*cell.coord(), Coord { y, x });
        }
    }
}

#[test]
fn grid_is_row_major() {
    let maze = Maze::new(2, 3);
    assert_eq!(*maze.grid()[4].coord(), Coord { y: 1, x: 1 });
    assert_eq!(*maze.grid()[2].coord(), Coord { y: 0, x: 2 });
}

#[test]
fn remove_cell_wall_clears_both_sides() {
    let mut maze = Maze::new(3, 3);
    maze.remove_cell_wall(&Coord { y: 1, x: 1 }, "top");
    assert_eq!(walls_of(&maze, 1, 1), [false, true, true, true]);
    assert_eq!(walls_of(&maze, 0, 1), [true, true, false, true]);
    maze.remove_cell_wall(&Coord { y: 1, x: 1 }, "left");
    assert_eq!(walls_of(&maze, 1, 1), [false, true, true, false]);
    assert_eq!(walls_of(&maze, 1, 0), [true, false, true, true]);
    maze.remove_cell_wall(&Coord { y: 1, x: 1 }, "right");
    assert_eq!(walls_of(&maze, 1, 2), [true, true, true, false]);
    maze.remove_cell_wall(&Coord { y: 1, x: 1 }, "bottom");
    assert_eq!(walls_of(&maze, 2, 1), [false, true, true, true]);
    assert_eq!(walls_of(&maze, 1, 1), [false, false, false, false]);
}

#[test]
fn unknown_side_name_changes_nothing() {
    let mut maze = Maze::new(2, 2);
    maze.remove_cell_wall(&Coord { y: 0, x: 0 }, "north");
    assert_eq!(walls_of(&maze, 0, 0), [true, true, true, true]);
}

#[test]
fn side_names_map_to_wall_indices() {
    assert_eq!(side_index("top"), Some(0));
    assert_eq!(side_index("right"), Some(1));
    assert_eq!(side_index("bottom"), Some(2));
    assert_eq!(side_index("left"), Some(3));
    assert_eq!(side_index("up"), None);
}

#[test]
fn visit_and_change_state() {
    let mut maze = Maze::new(2, 2);
    maze.visit_cell(&Coord { y: 1, x: 0 });
    assert!(maze.get_cell_ref(&Coord { y: 1, x: 0 }).visited());
    assert!(!maze.get_cell_ref(&Coord { y: 0, x: 0 }).visited());
    maze.change_cell_state(&Coord { y: 1, x: 0 }, CellState::Solution);
    assert!(maze.get_cell_ref(&Coord { y: 1, x: 0 }).state() == CellState::Solution);
    assert!(!maze.get_cell_ref(&Coord { y: 1, x: 0 }).visited());
}

#[test]
fn cell_methods() {
    let mut cell = Cell::new(Coord { y: 2, x: 5 });
    assert!(!cell.visited());
    cell.visit();
    assert!(cell.visited());
    cell.remove_wall("bottom");
    assert_eq!(*cell.walls(), [true, true, false, true]);
    cell.remove_wall("sideways");
    assert_eq!(*cell.walls(), [true, true, false, true]);
    cell.change_state(CellState::Finish);
    assert!(cell.state() == CellState::Finish);
    assert_eq!(*cell.coord(), Coord { y: 2, x: 5 });
}
