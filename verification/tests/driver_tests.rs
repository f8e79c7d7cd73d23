use path_finding::driver::{create_algorithm, find_start_end};
use path_finding::grid::{Cell, Grid};
use path_finding::pathfinding::{AlgorithmType, NodeState, PathfindingAlgorithm};

#[test]
fn all_lists_the_algorithms_in_cycling_order() {
    assert_eq!(
        AlgorithmType::all(),
        &[
            AlgorithmType::Dijkstra,
            AlgorithmType::AStar,
            AlgorithmType::Bfs,
            AlgorithmType::Dfs
        ]
    );
}

#[test]
fn algorithm_names() {
    assert_eq!(AlgorithmType::Dijkstra.name(), "Dijkstra");
    assert_eq!(AlgorithmType::AStar.name(), "A*");
    assert_eq!(AlgorithmType::Bfs.name(), "BFS");
    assert_eq!(AlgorithmType::Dfs.name(), "DFS");
}

#[test]
fn next_cycles_through_all() {
    assert_eq!(AlgorithmType::Dijkstra.next(), AlgorithmType::AStar);
    assert_eq!(AlgorithmType::AStar.next(), AlgorithmType::Bfs);
    assert_eq!(AlgorithmType::Bfs.next(), AlgorithmType::Dfs);
    assert_eq!(AlgorithmType::Dfs.next(), AlgorithmType::Dijkstra);
    let all = AlgorithmType::all();
    for (i, kind) in all.iter().enumerate() {
        assert_eq!(kind.next(), all[(i + 1) % all.len()]);
    }
}

#[test]
fn default_algorithm_is_astar() {
    assert_eq!(AlgorithmType::default(), AlgorithmType::AStar);
}

#[test]
fn created_algorithm_is_of_the_chosen_kind() {
    let grid = Grid::new(4, 3);
    for kind in AlgorithmType::all() {
        let mut algorithm = create_algorithm(*kind, (0, 0), (3, 2));
        assert_eq!(algorithm.name(), kind.name());
        assert!(!algorithm.is_finished());
        assert!(!algorithm.found_path());
        assert_eq!(algorithm.get_node_state(2, 2), NodeState::Unvisited);
        let mut steps = 0;
        while algorithm.step(&grid) {
            steps += 1;
            assert!(steps < 1000);
        }
        assert!(algorithm.is_finished());
        assert!(algorithm.found_path());
        let path = algorithm.get_path();
        assert_eq!(path.first(), Some(&(0, 0)));
        assert_eq!(path.last(), Some(&(3, 2)));
        if *kind != AlgorithmType::Dfs {
            assert_eq!(path.len(), 6);
        }
        assert_eq!(algorithm.get_node_state(3, 2), NodeState::Path);
        assert!(!algorithm.step(&grid));
    }
}

#[test]
fn find_start_end_locates_both() {
    let mut grid = Grid::new(4, 4);
    assert_eq!(find_start_end(&grid), (None, None));
    grid.set(1, 2, Cell::Start);
    assert_eq!(find_start_end(&grid), (Some((1, 2)), None));
    grid.set(3, 0, Cell::End);
    assert_eq!(find_start_end(&grid), (Some((1, 2)), Some((3, 0))));
}

#[test]
fn of_several_starts_the_last_in_scan_order_is_found() {
    let mut grid = Grid::new(3, 3);
    grid.set(2, 0, Cell::Start);
    grid.set(0, 1, Cell::Start);
    grid.set(1, 1, Cell::End);
    grid.set(0, 0, Cell::End);
    assert_eq!(find_start_end(&grid), (Some((0, 1)), Some((1, 1))));
}
