use maze_generator::cell::{CellState, Coord};
use maze_generator::generator_algorithms::ellers::Ellers;
use maze_generator::generator_algorithms::random_prim::RandomPrim;
use maze_generator::generator_algorithms::recursive_backtracker::RecursiveBacktracker;
use maze_generator::generator_algorithms::{
    choose_rand_neighbor, first_matching_direction, get_generator_algo, remove_walls_between_cells, Generator,
    GeneratorStatus,
};
use maze_generator::maze::Maze;
use rand::rngs::StdRng;
use rand::SeedableRng;

fn open_passages(maze: &Maze) -> usize {
    let mut n = 0;
    for y in 0..maze.height() {
        for x in 0..maze.width() {
            let w = maze.get_cell_ref(&Coord { y, x }).walls();
            if x + 1 < maze.width() && !w[1] {
                n += 1;
            }
            if y + 1 < maze.height() && !w[2] {
                n += 1;
            }
        }
    }
    n
}

fn reachable_from_origin(maze: &Maze) -> usize {
    let (h, w) = (maze.height(), maze.width());
    let mut seen = vec![false; h * w];
    let mut stack = vec![Coord { y: 0, x: 0 }];
    seen[0] = true;
    let mut count = 0;
    while let Some(c) = stack.pop() {
        count += 1;
        let walls = *maze.get_cell_ref(&c).walls();
        let mut next = Vec::new();
        if !walls[0] {
            next.push(Coord { y: c.y - 1, x: c.x });
        }
        if !walls[1] {
            next.push(Coord { y: c.y, x: c.x + 1 });
        }
        if !walls[2] {
            next.push(Coord { y: c.y + 1, x: c.x });
        }
        if !walls[3] {
            next.push(Coord { y: c.y, x: c.x - 1 });
        }
        for n in next {
            if !seen[n.y * w + n.x] {
                seen[n.y * w + n.x] = true;
                stack.push(n);
            }
        }
    }
    count
}

fn mirrored(maze: &Maze) -> bool {
    for y in 0..maze.height() {
        for x in 0..maze.width() {
            let w = *maze.get_cell_ref(&Coord { y, x }).walls();
            if x + 1 < maze.width() && w[1] != maze.get_cell_ref(&Coord { y, x: x + 1 }).walls()[3] {
                return false;
            }
            if y + 1 < maze.height() && w[2] != maze.get_cell_ref(&Coord { y: y + 1, x }).walls()[0] {
                return false;
            }
        }
    }
    true
}

fn run(mut g: Generator, maze: &mut Maze) {
    let mut steps = 0;
    while g.status() != GeneratorStatus::Done {
        g.create_maze(maze);
        steps += 1;
        assert!(mirrored(maze));
        assert!(steps < 100_000);
    }
}

fn assert_perfect(maze: &Maze) {
    let cells = maze.height() * maze.width();
    assert_eq!(open_passages(maze), cells - 1);
    assert_eq!(reachable_from_origin(maze), cells);
    for y in 0..maze.height() {
        for x in 0..maze.width() {
            assert!(maze.get_cell_ref(&Coord { y, x }).state() == CellState::Path);
        }
    }
}

#[test]
fn ellers_three_by_three_is_perfect() {
    for seed in 0..20 {
        let mut maze = Maze::new(3, 3);
        run(Generator::Ellers(Ellers::new(seed)), &mut maze);
        assert_eq!(open_passages(&maze), 8);
        assert_perfect(&maze);
    }
}

#[test]
fn random_prim_three_by_three_is_perfect() {
    for seed in 0..20 {
        let mut maze = Maze::new(3, 3);
        run(Generator::RandomPrim(RandomPrim::new(seed)), &mut maze);
        assert_eq!(open_passages(&maze), 8);
        assert_perfect(&maze);
    }
}

#[test]
fn recursive_backtracker_three_by_three_is_perfect() {
    for seed in 0..20 {
        let mut maze = Maze::new(3, 3);
        run(Generator::RecursiveBacktracker(RecursiveBacktracker::new(seed)), &mut maze);
        assert_eq!(open_passages(&maze), 8);
        assert_perfect(&maze);
    }
}

#[test]
fn generators_handle_rectangles_and_single_cells() {
    for (h, w) in [(1, 1), (1, 7), (6, 1), (5, 9), (12, 4)] {
        for name in ["ellers", "random_prim", "recursive_backtracker"] {
            let mut maze = Maze::new(h, w);
            run(get_generator_algo(name, 3), &mut maze);
            assert_perfect(&maze);
        }
    }
}

#[test]
fn registry_picks_the_named_generator() {
    assert!(matches!(get_generator_algo("ellers", 3), Generator::Ellers(_)));
    assert!(matches!(get_generator_algo("random_prim", 3), Generator::RandomPrim(_)));
    assert!(matches!(get_generator_algo("recursive_backtracker", 3), Generator::RecursiveBacktracker(_)));
    assert!(get_generator_algo("ellers", 3).status() == GeneratorStatus::Initialized);
}

#[test]
fn ellers_first_step_starts_work() {
    let mut maze = Maze::new(4, 4);
    let mut g = Ellers::new(0);
    assert!(*g.status() == GeneratorStatus::Initialized);
    g.create_maze(&mut maze);
    assert!(*g.status() == GeneratorStatus::InProgress);
    assert!(maze.get_cell_ref(&Coord { y: 0, x: 0 }).visited());
}

#[test]
fn same_seed_gives_same_maze() {
    let mut a = Maze::new(6, 6);
    let mut b = Maze::new(6, 6);
    run(Generator::RandomPrim(RandomPrim::new(7)), &mut a);
    run(Generator::RandomPrim(RandomPrim::new(7)), &mut b);
    for y in 0..6 {
        for x in 0..6 {
            assert_eq!(a.get_cell_ref(&Coord { y, x }).walls(), b.get_cell_ref(&Coord { y, x }).walls());
        }
    }
}

#[test]
fn remove_walls_between_cells_by_direction() {
    let mut maze = Maze::new(2, 2);
    remove_walls_between_cells(&mut maze, &Coord { y: 1, x: 1 }, 0);
    assert!(!maze.get_cell_ref(&Coord { y: 1, x: 1 }).walls()[0]);
    assert!(!maze.get_cell_ref(&Coord { y: 0, x: 1 }).walls()[2]);
    remove_walls_between_cells(&mut maze, &Coord { y: 1, x: 1 }, 7);
    assert_eq!(open_passages(&maze), 1);
}

#[test]
fn choose_rand_neighbor_finds_the_only_match() {
    let mut maze = Maze::new(3, 3);
    maze.visit_cell(&Coord { y: 1, x: 2 });
    let mut rng = StdRng::seed_from_u64(3);
    for _ in 0..10 {
        assert_eq!(choose_rand_neighbor(&maze, &Coord { y: 1, x: 1 }, true, &mut rng), Ok(1));
    }
    assert!(choose_rand_neighbor(&maze, &Coord { y: 0, x: 0 }, true, &mut rng).is_err());
}

#[test]
fn ellers_ends_with_exactly_one_set() {
    for (h, w, seed) in [(1, 1, 0), (3, 3, 1), (5, 8, 2), (9, 4, 3)] {
        let mut maze = Maze::new(h, w);
        let mut g = Ellers::new(seed);
        while *g.status() != GeneratorStatus::Done {
            g.create_maze(&mut maze);
        }
        let live: Vec<&Vec<Coord>> = g.sets().iter().filter(|s| !s.is_empty()).collect();
        assert_eq!(live.len(), 1);
        assert_eq!(live[0].len(), h * w);
    }
}

#[test]
fn segments_match_walls_at_every_step() {
    let mut maze = Maze::new(5, 6);
    let mut g = Generator::RandomPrim(RandomPrim::new(5));
    loop {
        let svg = maze.svg_elements();
        for y in 0..=5usize {
            let line = &svg.horiz_walls()[y];
            for (i, a) in line.iter().enumerate() {
                assert_eq!(a.y1, 3 * y as i32);
                assert!(a.x1 < a.x2);
                for b in line.iter().skip(i + 1) {
                    assert!(a.x2 <= b.x1 || b.x2 <= a.x1);
                }
            }
            for x in 0..6usize {
                let standing = if y < 5 {
                    maze.get_cell_ref(&Coord { y, x }).walls()[0]
                } else {
                    maze.get_cell_ref(&Coord { y: 4, x }).walls()[2]
                };
                let covered = line.iter().any(|s| s.x1 <= 3 * x as i32 && 3 * x as i32 + 3 <= s.x2);
                assert_eq!(standing, covered);
            }
        }
        for x in 0..=6usize {
            let line = &svg.vert_walls()[x];
            for y in 0..5usize {
                let standing = if x < 6 {
                    maze.get_cell_ref(&Coord { y, x }).walls()[3]
                } else {
                    maze.get_cell_ref(&Coord { y, x: 5 }).walls()[1]
                };
                let covered = line.iter().any(|s| s.y1 <= 3 * y as i32 && 3 * y as i32 + 3 <= s.y2);
                assert_eq!(standing, covered);
            }
        }
        if g.status() == GeneratorStatus::Done {
            break;
        }
        g.create_maze(&mut maze);
    }
}

#[test]
fn first_matching_direction_follows_the_order() {
    let mut maze = Maze::new(3, 3);
    maze.visit_cell(&Coord { y: 1, x: 2 });
    maze.visit_cell(&Coord { y: 0, x: 1 });
    let here = Coord { y: 1, x: 1 };
    assert_eq!(first_matching_direction(&maze, &here, true, &vec![3, 1, 0, 2]), Ok(1));
    assert_eq!(first_matching_direction(&maze, &here, true, &vec![0, 1]), Ok(0));
    assert_eq!(first_matching_direction(&maze, &here, false, &vec![0, 1, 2, 3]), Ok(2));
    assert!(first_matching_direction(&maze, &here, true, &vec![2, 3]).is_err());
    assert!(first_matching_direction(&maze, &Coord { y: 0, x: 0 }, true, &vec![0, 3]).is_err());
}

#[test]
fn neighbor_coord_steps_across_a_side() {
    let maze = Maze::new(3, 3);
    let c = Coord { y: 1, x: 1 };
    assert_eq!(maze.neighbor_coord(&c, 0), Coord { y: 0, x: 1 });
    assert_eq!(maze.neighbor_coord(&c, 1), Coord { y: 1, x: 2 });
    assert_eq!(maze.neighbor_coord(&c, 2), Coord { y: 2, x: 1 });
    assert_eq!(maze.neighbor_coord(&c, 3), Coord { y: 1, x: 0 });
}
