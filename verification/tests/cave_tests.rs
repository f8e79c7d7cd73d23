use path_finding::cellular_automata::{CellularAutomata, DEFAULT_WALL_CHANGE};
use path_finding::grid::{Cell, Grid};

fn grid_from(rows: &[&str]) -> Grid {
    let mut grid = Grid::new(rows[0].len(), rows.len());
    for (y, row) in rows.iter().enumerate() {
        for (x, symbol) in row.chars().enumerate() {
            let cell = match symbol {
                '#' => Cell::Wall,
                'S' => Cell::Start,
                'E' => Cell::End,
                _ => Cell::Empty,
            };
            grid.set(x, y, cell);
        }
    }
    grid
}

fn rows_of(grid: &Grid) -> Vec<String> {
    grid.cells
        .iter()
        .map(|row| {
            row.iter()
                .map(|cell| match cell {
                    Cell::Wall => '#',
                    Cell::Start => 'S',
                    Cell::End => 'E',
                    Cell::Empty => '.',
                })
                .collect()
        })
        .collect()
}

fn find(grid: &Grid, wanted: Cell) -> Vec<(usize, usize)> {
    let mut found = Vec::new();
    for y in 0..grid.height {
        for x in 0..grid.width {
            if grid.get(x, y) == Some(wanted) {
                found.push((x, y));
            }
        }
    }
    found
}

fn reachable_over_empty(grid: &Grid, from: (usize, usize)) -> Vec<(usize, usize)> {
    let mut seen = vec![from];
    let mut next = 0;
    while next < seen.len() {
        let (x, y) = seen[next];
        next += 1;
        for n in grid.neighbors(x, y) {
            if grid.get(n.0, n.1) == Some(Cell::Empty) && !seen.contains(&n) {
                seen.push(n);
            }
        }
    }
    seen
}

#[test]
fn test_count_neighbors_cornre() {
    let mut grid = Grid::new(5, 5);
    let gen = CellularAutomata::default();

    grid.set(0, 0, Cell::Wall);
    // Corner (0,0) has 5 out-of-bounds neighbors + itself
    assert_eq!(gen.count_wall_neighbors(&grid, 0, 0), 6);
}

#[test]
fn default_configuration() {
    let gen = CellularAutomata::default();
    assert_eq!(gen.wall_change, DEFAULT_WALL_CHANGE);
    assert_eq!(gen.wall_change, 7549747);
    assert_eq!(gen.wall_change as f32 / 16777216.0, 0.45f32);
    assert_eq!(gen.smoothing_passes, 1);
    assert_eq!(gen.seed, 12345);
}

#[test]
fn a_word_fills_when_its_top_bits_lie_below_the_threshold() {
    let gen = CellularAutomata { wall_change: 100, smoothing_passes: 0, seed: 0 };
    assert!(gen.wall_drawn(0));
    assert!(gen.wall_drawn(99 << 8));
    assert!(gen.wall_drawn((99 << 8) | 0xff));
    assert!(!gen.wall_drawn(100 << 8));
    assert!(!gen.wall_drawn(u32::MAX));
    let never = CellularAutomata { wall_change: 0, smoothing_passes: 0, seed: 0 };
    assert!(!never.wall_drawn(0));
    let always = CellularAutomata { wall_change: 1 << 24, smoothing_passes: 0, seed: 0 };
    assert!(always.wall_drawn(u32::MAX));
}

#[test]
fn count_wall_neighbors_counts_the_window() {
    let gen = CellularAutomata::default();
    let open = Grid::new(5, 5);
    assert_eq!(gen.count_wall_neighbors(&open, 2, 2), 0);
    assert_eq!(gen.count_wall_neighbors(&open, 0, 0), 5);
    assert_eq!(gen.count_wall_neighbors(&open, 2, 0), 3);
    assert_eq!(gen.count_wall_neighbors(&open, 4, 4), 5);
    assert_eq!(gen.count_wall_neighbors(&open, 7, 7), 9);
    let grid = grid_from(&["#.#", "...", "#.E"]);
    assert_eq!(gen.count_wall_neighbors(&grid, 1, 1), 3);
    let walls = grid_from(&["###", "###", "###"]);
    assert_eq!(gen.count_wall_neighbors(&walls, 1, 1), 9);
}

#[test]
fn smoothing_goes_by_the_count() {
    let gen = CellularAutomata::default();
    // five walls around an empty cell: it becomes a wall
    let mut grid = grid_from(&["###", "#.#", "..."]);
    gen.smooth(&mut grid);
    assert_eq!(rows_of(&grid), vec!["###", "###", "..."]);
    // three walls in the window of a wall: it becomes empty
    let mut grid = grid_from(&["#..", ".#.", "..#"]);
    gen.smooth(&mut grid);
    assert_eq!(rows_of(&grid), vec!["#..", "...", "..#"]);
    // exactly four: unchanged
    let mut grid = grid_from(&["##.", "##.", "..."]);
    gen.smooth(&mut grid);
    assert_eq!(rows_of(&grid), vec!["##.", "##.", "..."]);
    let mut grid = grid_from(&["##.", "#.#", "..."]);
    gen.smooth(&mut grid);
    assert_eq!(rows_of(&grid), vec!["##.", "#.#", "..."]);
}

#[test]
fn smoothing_sees_the_cells_changed_before() {
    let gen = CellularAutomata::default();
    // (1,1) has five walls and becomes a wall; (2,1) then counts it and
    // reaches five as well. On a copy of the first grid it would stay at four.
    let mut grid = grid_from(&["####", "#...", "#..#", "...#"]);
    gen.smooth(&mut grid);
    assert_eq!(rows_of(&grid), vec!["####", "###.", "#..#", "...#"]);
}

#[test]
fn smoothing_leaves_a_grid_without_interior() {
    let gen = CellularAutomata::default();
    let mut grid = grid_from(&[".#", "#."]);
    gen.smooth(&mut grid);
    assert_eq!(rows_of(&grid), vec![".#", "#."]);
    let mut empty = Grid::new(0, 0);
    gen.smooth(&mut empty);
    assert_eq!(empty.cells.len(), 0);
}

#[test]
fn flood_fill_collects_one_region() {
    let gen = CellularAutomata::default();
    let grid = grid_from(&["..#.", "#.#.", "..#."]);
    let mut visited = path_finding::lookup::PosSet::new();
    let mut region = gen.flood_fill(&grid, 0, 0, &mut visited);
    assert_eq!(region[0], (0, 0));
    region.sort();
    assert_eq!(region, vec![(0, 0), (0, 2), (1, 0), (1, 1), (1, 2)]);
    assert!(visited.contains((1, 1)));
    assert!(!visited.contains((3, 0)));
    assert_eq!(visited.len(), 5);
    // a visited start gives nothing, and so does a wall
    assert!(gen.flood_fill(&grid, 1, 1, &mut visited).is_empty());
    assert!(gen.flood_fill(&grid, 2, 0, &mut visited).is_empty());
    assert_eq!(gen.flood_fill(&grid, 3, 1, &mut visited).len(), 3);
}

#[test]
fn find_regions_lists_regions_in_scan_order() {
    let gen = CellularAutomata::default();
    let grid = grid_from(&["#.#.", "#.#.", "..#S"]);
    let regions = gen.find_regions(&grid);
    assert_eq!(regions.len(), 2);
    assert_eq!(regions[0][0], (1, 0));
    assert_eq!(regions[0].len(), 4);
    assert_eq!(regions[1][0], (3, 0));
    assert_eq!(regions[1].len(), 2);
    assert!(gen.find_regions(&grid_from(&["##", "##"])).is_empty());
}

#[test]
fn keep_largest_region_walls_off_the_others() {
    let gen = CellularAutomata::default();
    let mut grid = grid_from(&[".#...", "##.#.", "...#E"]);
    gen.keep_largest_region(&mut grid);
    assert_eq!(rows_of(&grid), vec!["##...", "##.#.", "...#E"]);
    let mut grid = grid_from(&[".#...", "##.##", "...#."]);
    gen.keep_largest_region(&mut grid);
    assert_eq!(rows_of(&grid), vec!["##...", "##.##", "...##"]);
}

#[test]
fn of_equal_regions_the_first_found_is_kept() {
    let gen = CellularAutomata::default();
    let mut grid = grid_from(&["..#..", "###..", "..###"]);
    let mut other = grid_from(&["..#.#", "#####", "..#.."]);
    gen.keep_largest_region(&mut grid);
    assert_eq!(rows_of(&grid), vec!["###..", "###..", "#####"]);
    gen.keep_largest_region(&mut other);
    assert_eq!(rows_of(&other), vec!["..###", "#####", "#####"]);
}

#[test]
fn pruning_a_grid_without_floor_changes_nothing() {
    let gen = CellularAutomata::default();
    let mut grid = grid_from(&["#S", "E#"]);
    gen.keep_largest_region(&mut grid);
    assert_eq!(rows_of(&grid), vec!["#S", "E#"]);
}

#[test]
fn find_furthest_returns_the_last_cell_dequeued() {
    let gen = CellularAutomata::default();
    let corridor = grid_from(&["....."]);
    assert_eq!(gen.find_furthest(&corridor, (0, 0)), (4, 0));
    assert_eq!(gen.find_furthest(&corridor, (4, 0)), (0, 0));
    // from the middle both ends are as far: the right one is queued later
    assert_eq!(gen.find_furthest(&corridor, (2, 0)), (4, 0));
    let open = Grid::new(3, 3);
    assert_eq!(gen.find_furthest(&open, (0, 0)), (2, 2));
    assert_eq!(gen.find_furthest(&open, (1, 1)), (2, 2));
    let alone = grid_from(&["###", "#.#", "###"]);
    assert_eq!(gen.find_furthest(&alone, (1, 1)), (1, 1));
    // the traversal does not ask what the first cell holds
    assert_eq!(gen.find_furthest(&alone, (0, 1)), (1, 1));
}

#[test]
fn collect_floor_resets_endpoints() {
    let gen = CellularAutomata::default();
    let mut grid = grid_from(&["S#.", "#E.", "..#"]);
    let cells = gen.collect_floor(&mut grid);
    assert_eq!(cells, vec![(0, 0), (2, 0), (1, 1), (2, 1), (0, 2), (1, 2)]);
    assert_eq!(rows_of(&grid), vec![".#.", "#..", "..#"]);
}

#[test]
fn place_from_sets_both_endpoints() {
    let gen = CellularAutomata::default();
    let mut grid = grid_from(&["#####", "#...#", "#####"]);
    gen.place_from(&mut grid, (2, 1));
    assert_eq!(rows_of(&grid), vec!["#####", "#E.S#", "#####"]);
    let mut alone = grid_from(&["###", "#.#", "###"]);
    gen.place_from(&mut alone, (1, 1));
    assert_eq!(rows_of(&alone), vec!["###", "#E#", "###"]);
}

#[test]
fn generation_is_deterministic() {
    for seed in [1u64, 2, 12345, 99] {
        let gen = CellularAutomata { seed, ..CellularAutomata::default() };
        let mut first = Grid::new(30, 20);
        let mut second = Grid::new(30, 20);
        // what the grid held before does not matter
        second.set(3, 3, Cell::Start);
        second.set(10, 7, Cell::Wall);
        gen.generate(&mut first);
        gen.generate(&mut second);
        assert_eq!(first.cells, second.cells);
        let again = CellularAutomata { seed, ..CellularAutomata::default() };
        let mut third = Grid::new(30, 20);
        again.generate(&mut third);
        assert_eq!(first.cells, third.cells);
    }
}

#[test]
fn different_seeds_give_different_caves() {
    let mut first = Grid::new(30, 20);
    let mut second = Grid::new(30, 20);
    CellularAutomata { seed: 1, ..CellularAutomata::default() }.generate(&mut first);
    CellularAutomata { seed: 2, ..CellularAutomata::default() }.generate(&mut second);
    assert_ne!(first.cells, second.cells);
}

#[test]
fn generated_cave_is_walled_and_connected() {
    for seed in 1u64..=8 {
        let gen = CellularAutomata { seed, ..CellularAutomata::default() };
        let mut grid = Grid::new(40, 30);
        gen.generate(&mut grid);
        assert_eq!(grid.width, 40);
        assert_eq!(grid.height, 30);
        for x in 0..40 {
            assert_eq!(grid.get(x, 0), Some(Cell::Wall));
            assert_eq!(grid.get(x, 29), Some(Cell::Wall));
        }
        for y in 0..30 {
            assert_eq!(grid.get(0, y), Some(Cell::Wall));
            assert_eq!(grid.get(39, y), Some(Cell::Wall));
        }
        let starts = find(&grid, Cell::Start);
        let ends = find(&grid, Cell::End);
        let empty = find(&grid, Cell::Empty);
        assert!(ends.len() <= 1);
        assert!(starts.len() <= 1);
        if let Some(&start) = starts.first() {
            assert_eq!(ends.len(), 1);
            let reached = reachable_over_empty(&grid, start);
            for cell in &empty {
                assert!(reached.contains(cell));
            }
            assert_eq!(reached.len(), empty.len() + 1);
        } else {
            assert!(empty.is_empty());
        }
    }
}

#[test]
fn default_cave_has_both_endpoints() {
    let mut grid = Grid::new(50, 50);
    CellularAutomata::default().generate(&mut grid);
    assert_eq!(find(&grid, Cell::Start).len(), 1);
    assert_eq!(find(&grid, Cell::End).len(), 1);
    assert!(find(&grid, Cell::Empty).len() > 100);
}

#[test]
fn fill_threshold_bounds_the_walls() {
    let all = CellularAutomata { wall_change: 1 << 24, smoothing_passes: 0, seed: 7 };
    let mut grid = Grid::new(8, 8);
    all.generate(&mut grid);
    assert_eq!(find(&grid, Cell::Wall).len(), 64);
    let none = CellularAutomata { wall_change: 0, smoothing_passes: 0, seed: 7 };
    let mut grid = Grid::new(8, 8);
    none.generate(&mut grid);
    assert_eq!(find(&grid, Cell::Wall).len(), 28);
    assert_eq!(find(&grid, Cell::Start).len(), 1);
    assert_eq!(find(&grid, Cell::End).len(), 1);
    assert_eq!(find(&grid, Cell::Empty).len(), 34);
}

#[test]
fn tiny_grids_are_all_wall() {
    for (w, h) in [(0, 0), (1, 1), (2, 2), (1, 5), (5, 2)] {
        let mut grid = Grid::new(w, h);
        CellularAutomata::default().generate(&mut grid);
        assert_eq!(find(&grid, Cell::Wall).len(), w * h);
    }
}

#[test]
fn a_cave_of_one_cell_holds_the_end_alone() {
    let gen = CellularAutomata { wall_change: 0, smoothing_passes: 0, seed: 3 };
    let mut grid = Grid::new(3, 3);
    gen.generate(&mut grid);
    assert_eq!(rows_of(&grid), vec!["###", "#E#", "###"]);
}

#[test]
fn a_cave_of_two_cells_holds_both_endpoints() {
    for seed in 0u64..16 {
        let gen = CellularAutomata { wall_change: 0, smoothing_passes: 0, seed };
        let mut grid = Grid::new(4, 3);
        gen.generate(&mut grid);
        assert_eq!(find(&grid, Cell::Wall).len(), 10);
        assert_eq!(find(&grid, Cell::Start).len(), 1);
        assert_eq!(find(&grid, Cell::End).len(), 1);
        assert!(find(&grid, Cell::Empty).is_empty());
    }
}

#[test]
fn a_cave_with_an_empty_cell_has_a_start() {
    for seed in 20u64..40 {
        for (w, h) in [(5, 5), (6, 4), (12, 9)] {
            let gen = CellularAutomata { seed, ..CellularAutomata::default() };
            let mut grid = Grid::new(w, h);
            gen.generate(&mut grid);
            let open = w * h - find(&grid, Cell::Wall).len();
            assert_eq!(find(&grid, Cell::End).len(), if open > 0 { 1 } else { 0 });
            assert_eq!(find(&grid, Cell::Start).len(), if open > 1 { 1 } else { 0 });
        }
    }
}

#[test]
fn find_furthest_is_as_far_as_any_cell() {
    for seed in 1u64..=6 {
        let gen = CellularAutomata { seed, ..CellularAutomata::default() };
        let mut grid = Grid::new(24, 16);
        gen.generate(&mut grid);
        let floor_cells = gen.collect_floor(&mut grid);
        for &from in floor_cells.iter().step_by(7) {
            // distances by a plain breadth-first traversal
            let mut dist = vec![(from, 0usize)];
            let mut next = 0;
            while next < dist.len() {
                let ((x, y), d) = dist[next];
                next += 1;
                for n in grid.neighbors(x, y) {
                    if grid.get(n.0, n.1) == Some(Cell::Empty) && !dist.iter().any(|(p, _)| *p == n) {
                        dist.push((n, d + 1));
                    }
                }
            }
            let greatest = dist.iter().map(|(_, d)| *d).max().unwrap();
            let far = gen.find_furthest(&grid, from);
            let reached = dist.iter().find(|(p, _)| *p == far).unwrap();
            assert_eq!(reached.1, greatest);
        }
    }
}
