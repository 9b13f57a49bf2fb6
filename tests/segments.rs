use maze_generator::cell::Coord;
use maze_generator::maze::Maze;
use maze_generator::maze_renderer::{CellState, MazeRenderer, Wall};
use maze_generator::maze_svg_render::{MazeSvg, SvgLine};

fn sorted(mut v: Vec<SvgLine>) -> Vec<(i32, i32, i32, i32)> {
    let mut r: Vec<(i32, i32, i32, i32)> = v.drain(..).map(|l| (l.x1, l.y1, l.x2, l.y2)).collect();
    r.sort();
    r
}

#[test]
fn new_engine_has_one_segment_per_line() {
    let svg = MazeSvg::new(2, 3);
    assert_eq!(svg.horiz_walls().len(), 3);
    assert_eq!(svg.vert_walls().len(), 4);
    assert_eq!(sorted(svg.horiz_walls()[1].clone()), vec![(0, 3, 9, 3)]);
    assert_eq!(sorted(svg.vert_walls()[3].clone()), vec![(9, 0, 9, 6)]);
}

#[test]
fn removing_an_inner_unit_splits_the_segment() {
    let mut svg = MazeSvg::new(3, 3);
    svg.remove_cell_wall(&Coord { y: 1, x: 1 }, "top");
    assert_eq!(sorted(svg.horiz_walls()[1].clone()), vec![(0, 3, 3, 3), (6, 3, 9, 3)]);
    svg.remove_cell_wall(&Coord { y: 1, x: 0 }, "top");
    assert_eq!(sorted(svg.horiz_walls()[1].clone()), vec![(6, 3, 9, 3)]);
    svg.remove_cell_wall(&Coord { y: 1, x: 2 }, "top");
    assert!(svg.horiz_walls()[1].is_empty());
}

#[test]
fn removing_a_right_wall_shrinks_the_vertical_line() {
    let mut svg = MazeSvg::new(3, 3);
    svg.remove_cell_wall(&Coord { y: 0, x: 0 }, "right");
    assert_eq!(sorted(svg.vert_walls()[1].clone()), vec![(3, 3, 3, 9)]);
    svg.remove_cell_wall(&Coord { y: 2, x: 0 }, "right");
    assert_eq!(sorted(svg.vert_walls()[1].clone()), vec![(3, 3, 3, 6)]);
}

#[test]
fn bottom_and_left_are_drawn_by_the_neighbours() {
    let mut svg = MazeSvg::new(2, 2);
    svg.remove_cell_wall(&Coord { y: 0, x: 0 }, "bottom");
    svg.remove_cell_wall(&Coord { y: 0, x: 1 }, "left");
    assert_eq!(sorted(svg.horiz_walls()[1].clone()), vec![(0, 3, 6, 3)]);
    assert_eq!(sorted(svg.vert_walls()[1].clone()), vec![(3, 0, 3, 6)]);
}

#[test]
fn maze_keeps_segments_in_step_with_walls() {
    let mut maze = Maze::new(3, 3);
    maze.remove_cell_wall(&Coord { y: 0, x: 1 }, "bottom");
    maze.remove_cell_wall(&Coord { y: 2, x: 2 }, "left");
    let svg = maze.svg_elements();
    assert_eq!(sorted(svg.horiz_walls()[1].clone()), vec![(0, 3, 3, 3), (6, 3, 9, 3)]);
    assert_eq!(sorted(svg.vert_walls()[2].clone()), vec![(6, 0, 6, 6)]);
    assert_eq!(sorted(svg.horiz_walls()[0].clone()), vec![(0, 0, 9, 0)]);
    assert_eq!(sorted(svg.horiz_walls()[3].clone()), vec![(0, 9, 9, 9)]);
}

#[test]
fn renderer_drops_opened_unit_walls() {
    let mut maze = Maze::new(2, 2);
    let mut renderer = MazeRenderer::new(&maze);
    assert_eq!(renderer.walls().len(), 2 + 2 * 4);
    assert_eq!(renderer.cells().len(), 4);
    maze.remove_cell_wall(&Coord { y: 0, x: 0 }, "right");
    maze.remove_cell_wall(&Coord { y: 1, x: 1 }, "top");
    renderer.update_walls(&maze);
    assert_eq!(renderer.walls().len(), 8);
    assert!(!renderer.walls().contains(&Wall { x1: 3, y1: 0, x2: 3, y2: 3 }));
    assert!(!renderer.walls().contains(&Wall { x1: 3, y1: 3, x2: 6, y2: 3 }));
    assert!(renderer.walls().contains(&Wall { x1: 0, y1: 0, x2: 0, y2: 6 }));
    renderer.update_cell_state(&Coord { y: 1, x: 0 }, CellState::Solution);
    assert!(renderer.cells()[2].state == CellState::Solution);
    assert_eq!((renderer.cells()[2].x, renderer.cells()[2].y), (0, 1));
}
