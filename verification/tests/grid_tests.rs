use path_finding::grid::{Cell, Grid};

#[test]
fn test_grid_new() {
    let grid = Grid::new(3, 2);
    assert_eq!(grid.width, 3);
    assert_eq!(grid.height, 2);
    assert_eq!(grid.cells.len(), 2);
    assert_eq!(grid.cells[0].len(), 3);
    assert_eq!(grid.get(0, 0), Some(Cell::Empty));
    assert_eq!(grid.get(2, 1), Some(Cell::Empty));
    assert_eq!(grid.get(3, 0), None);
    assert_eq!(grid.get(0, 2), None);
}

#[test]
fn test_grid_set_and_get() {
    let mut grid = Grid::new(2, 2);
    grid.set(1, 1, Cell::Wall);
    assert_eq!(grid.get(1, 1), Some(Cell::Wall));
    grid.set(0, 0, Cell::Start);
    assert_eq!(grid.get(0, 0), Some(Cell::Start));
    // Out of bounds should have no effect
    grid.set(2, 0, Cell::End);
    assert_eq!(grid.get(2, 0), None);
}

#[test]
fn test_neighbors_center() {
    let grid = Grid::new(3, 3);
    let neighbors = grid.neighbors(1, 1);
    let expected = vec![(0, 1), (2, 1), (1, 0), (1, 2)];
    neighbors.iter().for_each(|n| assert!(expected.contains(n)));
    assert_eq!(neighbors.len(), 4);
}

#[test]
fn test_neighbors_corner() {
    let grid = Grid::new(3, 3);
    let neighbors = grid.neighbors(0, 0);
    let expected = vec![(1, 0), (0, 1)];
    neighbors.iter().for_each(|n| assert!(expected.contains(n)));
    assert_eq!(neighbors.len(), 2);
}

#[test]
fn test_neighbors_edge() {
    let grid = Grid::new(3, 3);
    let neighbors = grid.neighbors(2, 1);
    let expected = vec![(1, 1), (2, 0), (2, 2)];
    neighbors.iter().for_each(|n| assert!(expected.contains(n)));
    assert_eq!(neighbors.len(), 3);
}

#[test]
fn neighbors_come_left_right_up_down() {
    let grid = Grid::new(3, 3);
    assert_eq!(grid.neighbors(1, 1), vec![(0, 1), (2, 1), (1, 0), (1, 2)]);
}

#[test]
fn neighbors_of_a_position_outside_are_those_inside() {
    let grid = Grid::new(3, 3);
    assert_eq!(grid.neighbors(3, 1), vec![(2, 1)]);
    assert_eq!(grid.neighbors(1, 3), vec![(1, 2)]);
    assert_eq!(grid.neighbors(5, 5), Vec::<(usize, usize)>::new());
    assert_eq!(grid.neighbors(usize::MAX, 0), Vec::<(usize, usize)>::new());
}

#[test]
fn empty_grid_has_no_cells() {
    let mut grid = Grid::new(0, 0);
    assert_eq!(grid.get(0, 0), None);
    grid.set(0, 0, Cell::Wall);
    assert_eq!(grid.get(0, 0), None);
    assert_eq!(grid.neighbors(0, 0).len(), 0);
}

#[test]
fn set_touches_one_cell_only() {
    let mut grid = Grid::new(3, 3);
    grid.set(1, 2, Cell::End);
    for y in 0..3 {
        for x in 0..3 {
            let expected = if x == 1 && y == 2 { Cell::End } else { Cell::Empty };
            assert_eq!(grid.get(x, y), Some(expected));
        }
    }
}
