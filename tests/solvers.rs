use maze_generator::cell::{CellState, Coord};
use maze_generator::generator_algorithms::ellers::Ellers;
use maze_generator::generator_algorithms::{Generator, GeneratorStatus};
use maze_generator::maze::Maze;
use maze_generator::solver_algorithms::breadth_first_search::BreadthFirstSearch;
use maze_generator::solver_algorithms::djikstras::Djikstras;
use maze_generator::solver_algorithms::{
    get_solver_algo, get_solver_options, reset_solver, solved, ParentMap, Solver, SolverStatus,
};

/// A 1 by `n` corridor with every inner wall removed.
fn corridor(n: usize) -> Maze {
    let mut maze = Maze::new(1, n);
    for x in 0..n - 1 {
        maze.remove_cell_wall(&Coord { y: 0, x }, "right");
    }
    maze
}

/// A 3 by 3 maze whose only route winds through every cell:
/// (0,0)-(0,1)-(0,2)-(1,2)-(1,1)-(1,0)-(2,0)-(2,1)-(2,2).
fn snake() -> Maze {
    let mut maze = Maze::new(3, 3);
    maze.remove_cell_wall(&Coord { y: 0, x: 0 }, "right");
    maze.remove_cell_wall(&Coord { y: 0, x: 1 }, "right");
    maze.remove_cell_wall(&Coord { y: 0, x: 2 }, "bottom");
    maze.remove_cell_wall(&Coord { y: 1, x: 2 }, "left");
    maze.remove_cell_wall(&Coord { y: 1, x: 1 }, "left");
    maze.remove_cell_wall(&Coord { y: 1, x: 0 }, "bottom");
    maze.remove_cell_wall(&Coord { y: 2, x: 0 }, "right");
    maze.remove_cell_wall(&Coord { y: 2, x: 1 }, "right");
    maze
}

/// A 3 by 3 maze with a direct route down the left side and along the
/// bottom, and a dead end through the rest.
fn direct() -> Maze {
    let mut maze = Maze::new(3, 3);
    maze.remove_cell_wall(&Coord { y: 0, x: 0 }, "bottom");
    maze.remove_cell_wall(&Coord { y: 1, x: 0 }, "bottom");
    maze.remove_cell_wall(&Coord { y: 2, x: 0 }, "right");
    maze.remove_cell_wall(&Coord { y: 2, x: 1 }, "right");
    maze.remove_cell_wall(&Coord { y: 0, x: 0 }, "right");
    maze.remove_cell_wall(&Coord { y: 0, x: 1 }, "right");
    maze.remove_cell_wall(&Coord { y: 0, x: 1 }, "bottom");
    maze.remove_cell_wall(&Coord { y: 1, x: 1 }, "right");
    maze
}

fn solve(mut s: Solver, maze: &mut Maze) {
    let mut steps = 0;
    while s.status() != SolverStatus::Done {
        s.find_solution(maze);
        steps += 1;
        assert!(steps < 100_000);
    }
}

fn solution_cells(maze: &Maze) -> Vec<Coord> {
    let mut r = Vec::new();
    for y in 0..maze.height() {
        for x in 0..maze.width() {
            if maze.get_cell_ref(&Coord { y, x }).state() == CellState::Solution {
                r.push(Coord { y, x });
            }
        }
    }
    r
}

/// Edges on the marked path: the cells strictly between start and finish,
/// plus one.
fn path_length(maze: &Maze) -> usize {
    solution_cells(maze).len() + 1
}

#[test]
fn corridor_path_has_n_minus_one_edges() {
    for n in [2usize, 3, 5, 9] {
        for name in ["breadth_first_search", "dijkstras"] {
            let mut maze = corridor(n);
            solve(get_solver_algo(name, &Coord { y: 0, x: 0 }, &Coord { y: 0, x: n - 1 }), &mut maze);
            assert_eq!(path_length(&maze), n - 1);
            assert!(maze.get_cell_ref(&Coord { y: 0, x: 0 }).state() == CellState::Start);
            assert!(maze.get_cell_ref(&Coord { y: 0, x: n - 1 }).state() == CellState::Finish);
        }
    }
}

#[test]
fn snake_path_visits_every_cell() {
    for name in ["breadth_first_search", "dijkstras"] {
        let mut maze = snake();
        solve(get_solver_algo(name, &Coord { y: 0, x: 0 }, &Coord { y: 2, x: 2 }), &mut maze);
        assert_eq!(path_length(&maze), 8);
        let cells = solution_cells(&maze);
        for c in [Coord { y: 1, x: 1 }, Coord { y: 0, x: 2 }, Coord { y: 2, x: 1 }] {
            assert!(cells.contains(&c));
        }
    }
}

#[test]
fn direct_route_has_manhattan_length() {
    for name in ["breadth_first_search", "dijkstras"] {
        let mut maze = direct();
        solve(get_solver_algo(name, &Coord { y: 0, x: 0 }, &Coord { y: 2, x: 2 }), &mut maze);
        assert_eq!(path_length(&maze), 4);
        let mut cells = solution_cells(&maze);
        cells.sort_by_key(|c| (c.y, c.x));
        assert_eq!(cells, vec![Coord { y: 1, x: 0 }, Coord { y: 2, x: 0 }, Coord { y: 2, x: 1 }]);
    }
}

#[test]
fn reset_then_solve_again_gives_the_same_length() {
    for name in ["breadth_first_search", "dijkstras"] {
        let mut maze = Maze::new(7, 7);
        let mut g = Generator::Ellers(Ellers::new(11));
        while g.status() != GeneratorStatus::Done {
            g.create_maze(&mut maze);
        }
        let start = Coord { y: 0, x: 0 };
        let finish = Coord { y: 6, x: 6 };
        let s = get_solver_algo(name, &start, &finish);
        let mut first = s;
        solve_ref(&mut first, &mut maze);
        let len1 = path_length(&maze);
        first.reset(&mut maze);
        assert!(solution_cells(&maze).is_empty());
        assert!(maze.get_cell_ref(&start).state() == CellState::Start);
        solve(get_solver_algo(name, &start, &finish), &mut maze);
        assert_eq!(path_length(&maze), len1);
    }
}

fn solve_ref(s: &mut Solver, maze: &mut Maze) {
    while s.status() != SolverStatus::Done {
        s.find_solution(maze);
    }
}

#[test]
fn bfs_and_dijkstra_agree_on_generated_mazes() {
    for seed in 0..10 {
        let mut a = Maze::new(8, 5);
        let mut g = Generator::Ellers(Ellers::new(seed));
        while g.status() != GeneratorStatus::Done {
            g.create_maze(&mut a);
        }
        let mut b = Maze::new(8, 5);
        let mut g = Generator::Ellers(Ellers::new(seed));
        while g.status() != GeneratorStatus::Done {
            g.create_maze(&mut b);
        }
        let start = Coord { y: 0, x: 0 };
        let finish = Coord { y: 7, x: 4 };
        solve(Solver::BreadthFirstSearch(BreadthFirstSearch::new(&start, &finish)), &mut a);
        solve(Solver::Djikstras(Djikstras::new(&start, &finish)), &mut b);
        assert_eq!(path_length(&a), path_length(&b));
    }
}

#[test]
fn unreachable_finish_ends_without_a_path() {
    let mut maze = Maze::new(2, 2);
    solve(get_solver_algo("breadth_first_search", &Coord { y: 0, x: 0 }, &Coord { y: 1, x: 1 }), &mut maze);
    assert!(solution_cells(&maze).is_empty());
}

#[test]
fn solver_steps_follow_the_phases() {
    let mut maze = corridor(4);
    let mut s = BreadthFirstSearch::new(&Coord { y: 0, x: 0 }, &Coord { y: 0, x: 3 });
    assert!(*s.status() == SolverStatus::Initialized);
    s.find_solution(&mut maze);
    assert!(*s.status() == SolverStatus::InProgress);
    assert!(maze.get_cell_ref(&Coord { y: 0, x: 1 }).state() == CellState::Unvisited);
    s.find_solution(&mut maze);
    assert!(maze.get_cell_ref(&Coord { y: 0, x: 1 }).state() == CellState::Frontier);
    s.find_solution(&mut maze);
    s.find_solution(&mut maze);
    assert!(*s.status() == SolverStatus::Solved);
    s.find_solution(&mut maze);
    assert!(*s.status() == SolverStatus::Solved);
    s.find_solution(&mut maze);
    assert!(*s.status() == SolverStatus::Done);
}

#[test]
fn reset_solver_keeps_markers() {
    let mut maze = Maze::new(2, 2);
    maze.change_cell_state(&Coord { y: 0, x: 0 }, CellState::Start);
    maze.change_cell_state(&Coord { y: 0, x: 1 }, CellState::Frontier);
    maze.change_cell_state(&Coord { y: 1, x: 1 }, CellState::Finish);
    reset_solver(&mut maze);
    assert!(maze.get_cell_ref(&Coord { y: 0, x: 0 }).state() == CellState::Start);
    assert!(maze.get_cell_ref(&Coord { y: 0, x: 1 }).state() == CellState::Path);
    assert!(maze.get_cell_ref(&Coord { y: 1, x: 0 }).state() == CellState::Path);
    assert!(maze.get_cell_ref(&Coord { y: 1, x: 1 }).state() == CellState::Finish);
}

#[test]
fn solver_options_and_registry() {
    let options = get_solver_options();
    assert_eq!(options.len(), 2);
    assert_eq!(options[0], ("breadth_first_search".to_string(), "Breadth First Search".to_string()));
    assert_eq!(options[1], ("dijkstras".to_string(), "Dijkstra's".to_string()));
    let start = Coord { y: 0, x: 0 };
    assert!(matches!(get_solver_algo("breadth_first_search", &start, &start), Solver::BreadthFirstSearch(_)));
    assert!(matches!(get_solver_algo("dijkstras", &start, &start), Solver::Djikstras(_)));
}

#[test]
fn parent_map_records_parents() {
    let mut explored = ParentMap::new(2, 3);
    assert!(!solved(&explored, &Coord { y: 1, x: 2 }));
    explored.insert(Coord { y: 1, x: 2 }, Coord { y: 0, x: 2 });
    assert!(solved(&explored, &Coord { y: 1, x: 2 }));
    assert_eq!(explored.get(&Coord { y: 1, x: 2 }), Some(Coord { y: 0, x: 2 }));
    assert_eq!(explored.get(&Coord { y: 0, x: 2 }), None);
    assert!(!explored.contains_key(&Coord { y: 5, x: 5 }));
}
