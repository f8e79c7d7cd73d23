use path_finding::astar::AStar;
use path_finding::bfs::Bfs;
use path_finding::cellular_automata::CellularAutomata;
use path_finding::dfs::Dfs;
use path_finding::dijkstra::Dijkstra;
use path_finding::grid::{Cell, Grid};
use path_finding::pathfinding::PathfindingAlgorithm;

type Pos = (usize, usize);

fn steps_to_end<A: PathfindingAlgorithm>(algorithm: &mut A, grid: &Grid) -> usize {
    let mut steps = 1;
    while algorithm.step(grid) {
        steps += 1;
        assert!(steps < 1_000_000);
    }
    steps
}

/// The number of edges on a shortest way from `start` to `end` that enters
/// no wall after `start`, by a plain breadth-first traversal.
fn shortest(grid: &Grid, start: Pos, end: Pos) -> Option<usize> {
    let mut dist = vec![(start, 0usize)];
    let mut next = 0;
    while next < dist.len() {
        let ((x, y), d) = dist[next];
        next += 1;
        if (x, y) == end {
            return Some(d);
        }
        for n in grid.neighbors(x, y) {
            if grid.get(n.0, n.1) != Some(Cell::Wall) && !dist.iter().any(|(p, _)| *p == n) {
                dist.push((n, d + 1));
            }
        }
    }
    None
}

fn caves() -> Vec<Grid> {
    let mut grids = Vec::new();
    for seed in 1u64..=5 {
        let gen = CellularAutomata { seed, smoothing_passes: 0, ..CellularAutomata::default() };
        let mut grid = Grid::new(14, 10);
        gen.generate(&mut grid);
        grids.push(grid);
    }
    grids
}

fn endpoints() -> Vec<(Pos, Pos)> {
    vec![
        ((1, 1), (12, 8)),
        ((3, 4), (9, 2)),
        ((6, 6), (6, 6)),
        ((2, 7), (11, 3)),
        ((0, 0), (5, 5)),
        ((4, 4), (13, 9)),
    ]
}

/// The steps within which a search that drops stale entries ends.
fn queue_bound(grid: &Grid) -> usize {
    4 * grid.width * grid.height + 6
}

/// The steps within which a depth-first search ends.
fn stack_bound(grid: &Grid) -> usize {
    9 * grid.width * grid.height + 11
}

fn check_path(grid: &Grid, path: &[Pos], start: Pos, end: Pos) {
    assert_eq!(path.first(), Some(&start));
    assert_eq!(path.last(), Some(&end));
    for pair in path.windows(2) {
        assert_eq!(pair[0].0.abs_diff(pair[1].0) + pair[0].1.abs_diff(pair[1].1), 1);
    }
    for (i, p) in path.iter().enumerate() {
        if i > 0 {
            assert!(p.0 < grid.width && p.1 < grid.height);
            assert_ne!(grid.get(p.0, p.1), Some(Cell::Wall));
        }
        assert!(!path[..i].contains(p));
    }
}

fn check_search<A: PathfindingAlgorithm>(
    mut algorithm: A,
    grid: &Grid,
    start: Pos,
    end: Pos,
    bound: usize,
    optimal: bool,
) {
    let steps = steps_to_end(&mut algorithm, grid);
    assert!(steps <= bound);
    assert!(algorithm.is_finished());
    let way = shortest(grid, start, end);
    assert_eq!(algorithm.found_path(), way.is_some());
    let path = algorithm.get_path();
    match way {
        Some(edges) => {
            check_path(grid, &path, start, end);
            if optimal {
                assert_eq!(path.len(), edges + 1);
            } else {
                assert!(path.len() >= edges + 1);
            }
        }
        None => assert!(path.is_empty()),
    }
}

#[test]
fn breadth_first_search_among_walls() {
    for grid in caves() {
        for (start, end) in endpoints() {
            check_search(Bfs::new(start, end), &grid, start, end, queue_bound(&grid), true);
        }
    }
}

#[test]
fn uniform_cost_search_among_walls() {
    for grid in caves() {
        for (start, end) in endpoints() {
            check_search(Dijkstra::new(start, end), &grid, start, end, queue_bound(&grid), true);
        }
    }
}

#[test]
fn a_star_search_among_walls() {
    for grid in caves() {
        for (start, end) in endpoints() {
            check_search(AStar::new(start, end), &grid, start, end, queue_bound(&grid), true);
        }
    }
}

#[test]
fn depth_first_search_among_walls() {
    for grid in caves() {
        for (start, end) in endpoints() {
            check_search(Dfs::new(start, end), &grid, start, end, stack_bound(&grid), false);
        }
    }
}

#[test]
fn a_search_from_outside_the_grid_ends() {
    let grid = Grid::new(3, 2);
    // the start lies one column past the grid: its left neighbour is inside
    check_search(Bfs::new((3, 1), (0, 0)), &grid, (3, 1), (0, 0), queue_bound(&grid), true);
    check_search(AStar::new((3, 1), (0, 0)), &grid, (3, 1), (0, 0), queue_bound(&grid), true);
    check_search(Dijkstra::new((7, 7), (0, 0)), &grid, (7, 7), (0, 0), queue_bound(&grid), true);
    check_search(Dfs::new((7, 7), (0, 0)), &grid, (7, 7), (0, 0), stack_bound(&grid), false);
}

#[test]
fn an_open_grid_is_solved_within_the_step_bound() {
    let grid = Grid::new(6, 5);
    let mut bfs = Bfs::new((5, 0), (0, 4));
    let steps = steps_to_end(&mut bfs, &grid);
    assert!(steps <= 4 * 6 * 5 + 6);
    assert!(bfs.found_path());
    assert_eq!(bfs.get_path().len(), 10);
}
