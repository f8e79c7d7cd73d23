use path_finding::astar::{heuristic_manhantan, AStar};
use path_finding::bfs::Bfs;
use path_finding::dfs::Dfs;
use path_finding::dijkstra::Dijkstra;
use path_finding::grid::{Cell, Grid};
use path_finding::pathfinding::{NodeState, PathfindingAlgorithm};

fn run_to_end<A: PathfindingAlgorithm>(algorithm: &mut A, grid: &Grid) -> usize {
    let mut steps = 0;
    while algorithm.step(grid) {
        steps += 1;
        assert!(steps < 10_000);
    }
    steps
}

fn assert_walk(path: &[(usize, usize)], start: (usize, usize), end: (usize, usize)) {
    assert_eq!(path.first(), Some(&start));
    assert_eq!(path.last(), Some(&end));
    for pair in path.windows(2) {
        let dx = pair[0].0.abs_diff(pair[1].0);
        let dy = pair[0].1.abs_diff(pair[1].1);
        assert_eq!(dx + dy, 1);
    }
}

fn enclosed_end() -> Grid {
    let mut grid = Grid::new(5, 5);
    grid.set(2, 3, Cell::Wall);
    grid.set(4, 3, Cell::Wall);
    grid.set(3, 2, Cell::Wall);
    grid.set(3, 4, Cell::Wall);
    grid
}

#[test]
fn test_heuristics() {
    let a = heuristic_manhantan((0, 0), (2, 2));
    assert_eq!(a, 4);

    let b = heuristic_manhantan((2, 2), (0, 0));
    assert_eq!(b, 4);
}

#[test]
fn heuristic_is_symmetric_on_samples() {
    let points = [(0, 0), (3, 1), (1, 7), (usize::MAX, 0), (5, usize::MAX)];
    for a in points {
        for b in points {
            assert_eq!(heuristic_manhantan(a, b), heuristic_manhantan(b, a));
        }
    }
    assert_eq!(heuristic_manhantan((3, 1), (1, 7)), 8);
    assert_eq!(
        heuristic_manhantan((usize::MAX, 0), (0, usize::MAX)),
        2 * (usize::MAX as u128)
    );
}

#[test]
fn bfs_finds_shortest_path_on_open_grid() {
    let grid = Grid::new(3, 3);
    let mut bfs = Bfs::new((0, 0), (2, 2));
    run_to_end(&mut bfs, &grid);
    assert!(bfs.is_finished());
    assert!(bfs.found_path());
    let path = bfs.get_path();
    assert_eq!(path.len(), 5);
    assert_walk(&path, (0, 0), (2, 2));
}

#[test]
fn astar_finds_shortest_path_on_open_grid() {
    let grid = Grid::new(3, 3);
    let mut astar = AStar::new((0, 0), (2, 2));
    run_to_end(&mut astar, &grid);
    assert!(astar.is_finished());
    assert!(astar.found_path());
    let path = astar.get_path();
    assert_eq!(path.len(), 5);
    assert_walk(&path, (0, 0), (2, 2));
}

#[test]
fn dijkstra_finds_shortest_path_on_open_grid() {
    let grid = Grid::new(3, 3);
    let mut dijkstra = Dijkstra::new((0, 0), (2, 2));
    run_to_end(&mut dijkstra, &grid);
    assert!(dijkstra.found_path());
    let path = dijkstra.get_path();
    assert_eq!(path.len(), 5);
    assert_walk(&path, (0, 0), (2, 2));
}

#[test]
fn dfs_finds_a_valid_path_on_open_grid() {
    let grid = Grid::new(3, 3);
    let mut dfs = Dfs::new((0, 0), (2, 2));
    run_to_end(&mut dfs, &grid);
    assert!(dfs.is_finished());
    assert!(dfs.found_path());
    let path = dfs.get_path();
    assert!(path.len() >= 5);
    assert_walk(&path, (0, 0), (2, 2));
}

#[test]
fn shortest_paths_match_manhattan_distance_on_larger_open_grid() {
    let grid = Grid::new(7, 6);
    let start = (5, 1);
    let end = (1, 4);
    let edges = heuristic_manhantan(start, end) as usize;
    assert_eq!(edges, 7);

    let mut bfs = Bfs::new(start, end);
    run_to_end(&mut bfs, &grid);
    assert_eq!(bfs.get_path().len(), edges + 1);
    assert_walk(&bfs.get_path(), start, end);

    let mut dijkstra = Dijkstra::new(start, end);
    run_to_end(&mut dijkstra, &grid);
    assert_eq!(dijkstra.get_path().len(), edges + 1);
    assert_walk(&dijkstra.get_path(), start, end);

    let mut astar = AStar::new(start, end);
    run_to_end(&mut astar, &grid);
    assert_eq!(astar.get_path().len(), edges + 1);
    assert_walk(&astar.get_path(), start, end);

    let mut dfs = Dfs::new(start, end);
    run_to_end(&mut dfs, &grid);
    assert!(dfs.found_path());
    assert_walk(&dfs.get_path(), start, end);
}

#[test]
fn enclosed_end_is_never_found_by_bfs() {
    let grid = enclosed_end();
    let mut bfs = Bfs::new((0, 0), (3, 3));
    run_to_end(&mut bfs, &grid);
    assert!(bfs.is_finished());
    assert!(!bfs.found_path());
    assert!(bfs.get_path().is_empty());
}

#[test]
fn enclosed_end_is_never_found_by_dfs() {
    let grid = enclosed_end();
    let mut dfs = Dfs::new((0, 0), (3, 3));
    run_to_end(&mut dfs, &grid);
    assert!(dfs.is_finished());
    assert!(!dfs.found_path());
    assert!(dfs.get_path().is_empty());
}

#[test]
fn enclosed_end_is_never_found_by_dijkstra() {
    let grid = enclosed_end();
    let mut dijkstra = Dijkstra::new((0, 0), (3, 3));
    run_to_end(&mut dijkstra, &grid);
    assert!(dijkstra.is_finished());
    assert!(!dijkstra.found_path());
    assert!(dijkstra.get_path().is_empty());
}

#[test]
fn enclosed_end_is_never_found_by_astar() {
    let grid = enclosed_end();
    let mut astar = AStar::new((0, 0), (3, 3));
    run_to_end(&mut astar, &grid);
    assert!(astar.is_finished());
    assert!(!astar.found_path());
    assert!(astar.get_path().is_empty());
}

#[test]
fn fresh_search_tags() {
    let bfs = Bfs::new((1, 1), (2, 2));
    let dfs = Dfs::new((1, 1), (2, 2));
    let dijkstra = Dijkstra::new((1, 1), (2, 2));
    let astar = AStar::new((1, 1), (2, 2));
    for y in 0..4 {
        for x in 0..4 {
            if (x, y) != (1, 1) {
                assert_eq!(bfs.get_node_state(x, y), NodeState::Unvisited);
                assert_eq!(dfs.get_node_state(x, y), NodeState::Unvisited);
            }
            assert_eq!(dijkstra.get_node_state(x, y), NodeState::Unvisited);
            assert_eq!(astar.get_node_state(x, y), NodeState::Unvisited);
        }
    }
    assert_eq!(bfs.get_node_state(1, 1), NodeState::InQueue);
    assert_eq!(dfs.get_node_state(1, 1), NodeState::InQueue);
    assert!(!bfs.is_finished() && !bfs.found_path());
    assert!(bfs.get_path().is_empty());
}

#[test]
fn start_is_tagged_after_one_step() {
    let grid = Grid::new(4, 4);
    let mut bfs = Bfs::new((1, 1), (3, 3));
    let mut dfs = Dfs::new((1, 1), (3, 3));
    let mut dijkstra = Dijkstra::new((1, 1), (3, 3));
    let mut astar = AStar::new((1, 1), (3, 3));
    assert!(bfs.step(&grid));
    assert!(dfs.step(&grid));
    assert!(dijkstra.step(&grid));
    assert!(astar.step(&grid));
    assert_eq!(bfs.get_node_state(1, 1), NodeState::Visited);
    assert_eq!(dfs.get_node_state(1, 1), NodeState::Visited);
    assert_eq!(dijkstra.get_node_state(1, 1), NodeState::Visited);
    assert_eq!(astar.get_node_state(1, 1), NodeState::Visited);
    assert_eq!(bfs.get_node_state(0, 1), NodeState::InQueue);
    assert_eq!(bfs.get_node_state(2, 1), NodeState::InQueue);
    assert_eq!(bfs.get_node_state(1, 0), NodeState::InQueue);
    assert_eq!(bfs.get_node_state(1, 2), NodeState::InQueue);
    assert_eq!(bfs.get_node_state(2, 2), NodeState::Unvisited);
}

#[test]
fn step_after_finish_changes_nothing() {
    let grid = Grid::new(3, 3);
    let mut bfs = Bfs::new((0, 0), (2, 0));
    run_to_end(&mut bfs, &grid);
    let path = bfs.get_path();
    let mut tags = Vec::new();
    for y in 0..3 {
        for x in 0..3 {
            tags.push(bfs.get_node_state(x, y));
        }
    }
    assert!(!bfs.step(&grid));
    assert!(!bfs.step(&grid));
    assert!(bfs.is_finished());
    assert!(bfs.found_path());
    assert_eq!(bfs.get_path(), path);
    let mut again = Vec::new();
    for y in 0..3 {
        for x in 0..3 {
            again.push(bfs.get_node_state(x, y));
        }
    }
    assert_eq!(tags, again);
}

#[test]
fn path_is_tagged_when_found() {
    let grid = Grid::new(3, 1);
    let mut dijkstra = Dijkstra::new((0, 0), (2, 0));
    run_to_end(&mut dijkstra, &grid);
    assert_eq!(dijkstra.get_path(), vec![(0, 0), (1, 0), (2, 0)]);
    assert_eq!(dijkstra.get_node_state(0, 0), NodeState::Path);
    assert_eq!(dijkstra.get_node_state(1, 0), NodeState::Path);
    assert_eq!(dijkstra.get_node_state(2, 0), NodeState::Path);
}

#[test]
fn start_equal_to_end_is_found_at_once() {
    let grid = Grid::new(2, 2);
    let mut astar = AStar::new((1, 1), (1, 1));
    assert!(!astar.step(&grid));
    assert!(astar.found_path());
    assert_eq!(astar.get_path(), vec![(1, 1)]);
    assert_eq!(astar.get_node_state(1, 1), NodeState::Path);
}

#[test]
fn walls_are_walked_around() {
    let mut grid = Grid::new(3, 3);
    grid.set(1, 0, Cell::Wall);
    grid.set(1, 1, Cell::Wall);
    let mut bfs = Bfs::new((0, 0), (2, 0));
    run_to_end(&mut bfs, &grid);
    assert!(bfs.found_path());
    assert_eq!(
        bfs.get_path(),
        vec![(0, 0), (0, 1), (0, 2), (1, 2), (2, 2), (2, 1), (2, 0)]
    );
    let mut astar = AStar::new((0, 0), (2, 0));
    run_to_end(&mut astar, &grid);
    assert_eq!(astar.get_path().len(), 7);
    assert_eq!(astar.get_node_state(1, 1), NodeState::Unvisited);
}

#[test]
fn astar_prefers_the_deeper_of_equal_keys() {
    let grid = Grid::new(4, 1);
    let mut astar = AStar::new((0, 0), (3, 0));
    assert!(astar.step(&grid));
    assert!(astar.step(&grid));
    assert_eq!(astar.get_node_state(1, 0), NodeState::Visited);
    assert_eq!(astar.get_node_state(2, 0), NodeState::InQueue);
    assert_eq!(astar.get_node_state(3, 0), NodeState::Unvisited);
}

#[test]
fn dfs_expands_the_newest_entry_first() {
    let grid = Grid::new(3, 3);
    let mut dfs = Dfs::new((1, 1), (0, 0));
    assert!(dfs.step(&grid));
    // The neighbours were pushed left, right, up, down: down is popped next.
    assert!(dfs.step(&grid));
    assert_eq!(dfs.get_node_state(1, 2), NodeState::Visited);
    assert_eq!(dfs.get_node_state(0, 1), NodeState::InQueue);
}

#[test]
fn names_are_the_display_labels() {
    assert_eq!(Bfs::new((0, 0), (0, 0)).name(), "BFS");
    assert_eq!(Dfs::new((0, 0), (0, 0)).name(), "DFS");
    assert_eq!(Dijkstra::new((0, 0), (0, 0)).name(), "Dijkstra");
    assert_eq!(AStar::new((0, 0), (0, 0)).name(), "A*");
}
