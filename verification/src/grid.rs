//! The occupancy grid: a fixed-size matrix of cells with bounded reads and
//! writes and four-directional neighbour enumeration.

use vstd::prelude::*;

verus! {

/// A grid coordinate, `(x, y)`: column first, row second.
pub type Pos = (usize, usize);

/// The tag on a grid position.
#[derive(Clone, Copy, PartialEq, Eq, Debug, Structural)]
pub enum Cell {
    Empty,
    Wall,
    Start,
    End,
}

/// A `width` by `height` matrix of cells, stored row by row.
pub struct Grid {
    pub width: usize,
    pub height: usize,
    pub cells: Vec<Vec<Cell>>,
}

/// A cell matrix, one sequence per row.
pub type Matrix = Seq<Seq<Cell>>;

/// The cell of a matrix at column `x` of row `y`, if it has one.
pub open spec fn matrix_cell(m: Matrix, x: int, y: int) -> Option<Cell> {
    if 0 <= y < m.len() && 0 <= x < m[y].len() {
        Some(m[y][x])
    } else {
        None
    }
}

/// The matrix with the cell at column `x` of row `y` replaced, where it has
/// one.
pub open spec fn matrix_set(m: Matrix, x: int, y: int, cell: Cell) -> Matrix {
    if 0 <= y < m.len() && 0 <= x < m[y].len() {
        m.update(y, m[y].update(x, cell))
    } else {
        m
    }
}

/// The matrix has `height` rows of `width` cells each.
pub open spec fn rectangular(m: Matrix, width: int, height: int) -> bool {
    &&& m.len() == height
    &&& forall|y: int| 0 <= y < height ==> (#[trigger] m[y]).len() == width
}

/// Whether the cell of a matrix at `p` holds `cell`.
pub open spec fn holds(m: Matrix, p: Pos, cell: Cell) -> bool {
    matrix_cell(m, p.0 as int, p.1 as int) == Some(cell)
}

/// Whether some cell of a matrix holds `cell`.
pub open spec fn occurs(m: Matrix, cell: Cell) -> bool {
    exists|p: Pos| #[trigger] holds(m, p, cell)
}

/// Whether at most one cell of a matrix holds `cell`.
pub open spec fn at_most_one(m: Matrix, cell: Cell) -> bool {
    forall|a: Pos, b: Pos| #[trigger] holds(m, a, cell) && #[trigger] holds(m, b, cell) ==> a == b
}

/// Whether a matrix has a cell at `(x, y)` that is no wall: one that is
/// empty or holds an endpoint.
pub open spec fn open_cell(m: Matrix, x: int, y: int) -> bool {
    matrix_cell(m, x, y) == Some(Cell::Empty) || matrix_cell(m, x, y) == Some(Cell::Start)
        || matrix_cell(m, x, y) == Some(Cell::End)
}

/// Whether some cell of a matrix is no wall.
pub open spec fn any_open(m: Matrix) -> bool {
    exists|p: Pos| #[trigger] open_cell(m, p.0 as int, p.1 as int)
}

/// Whether every wall of `before` is a wall of `after`.
pub open spec fn keeps_walls(before: Matrix, after: Matrix) -> bool {
    forall|x: int, y: int|
        #![trigger matrix_cell(before, x, y)]
        #![trigger matrix_cell(after, x, y)]
        matrix_cell(before, x, y) == Some(Cell::Wall) ==> matrix_cell(after, x, y) == Some(
            Cell::Wall,
        )
}

/// What a write leaves at `(a, b)`: the cell written if that is where it
/// went, and what was there before otherwise.
pub proof fn lemma_matrix_set_cell(m: Matrix, x: int, y: int, cell: Cell, a: int, b: int)
    ensures
        matrix_cell(matrix_set(m, x, y, cell), a, b) == if a == x && b == y && matrix_cell(
            m,
            x,
            y,
        ).is_some() {
            Some(cell)
        } else {
            matrix_cell(m, a, b)
        },
{
}

/// The positions of a `w` by `h` grid that are adjacent to `p`: left, right,
/// up, down.
pub open spec fn neighbors_in(w: int, h: int, p: Pos) -> Seq<Pos> {
    let (x, y) = p;
    let left: Seq<Pos> = if 0 < x && x - 1 < w && y < h {
        seq![((x - 1) as usize, y)]
    } else {
        seq![]
    };
    let right: Seq<Pos> = if x + 1 < w && y < h && x < usize::MAX {
        seq![((x + 1) as usize, y)]
    } else {
        seq![]
    };
    let up: Seq<Pos> = if 0 < y && y - 1 < h && x < w {
        seq![(x, (y - 1) as usize)]
    } else {
        seq![]
    };
    let down: Seq<Pos> = if y + 1 < h && x < w && y < usize::MAX {
        seq![(x, (y + 1) as usize)]
    } else {
        seq![]
    };
    left + right + up + down
}

/// Two positions are adjacent when they differ by one step along one axis.
pub open spec fn adjacent(a: Pos, b: Pos) -> bool {
    ||| (a.1 == b.1 && (a.0 + 1 == b.0 || b.0 + 1 == a.0))
    ||| (a.0 == b.0 && (a.1 + 1 == b.1 || b.1 + 1 == a.1))
}

impl View for Grid {
    type V = Seq<Seq<Cell>>;

    /// The cell matrix, one sequence per row.
    open spec fn view(&self) -> Seq<Seq<Cell>> {
        Seq::new(self.cells@.len(), |y: int| self.cells@[y]@)
    }
}

impl Grid {
    /// The matrix has `height` rows of `width` cells each.
    pub open spec fn wf(&self) -> bool {
        &&& self.cells@.len() == self.height
        &&& forall|y: int| 0 <= y < self.height ==> (#[trigger] self.cells@[y])@.len() == self.width
    }

    /// A well-formed grid shows a rectangular matrix, and reads its cells
    /// from it.
    pub proof fn lemma_view(&self)
        ensures
            self.wf() <==> rectangular(self@, self.width as int, self.height as int),
            forall|x: usize, y: usize| #[trigger] self.cell(x, y) == matrix_cell(self@, x as int, y as int),
    {
        if rectangular(self@, self.width as int, self.height as int) {
            assert forall|y: int| 0 <= y < self.height implies (#[trigger] self.cells@[y])@.len()
                == self.width by {
                assert(self@[y].len() == self.width);
            }
        }
    }

    /// Whether `(x, y)` addresses a cell of the grid.
    pub open spec fn in_bounds(&self, x: usize, y: usize) -> bool {
        x < self.width && y < self.height
    }

    /// The cell stored at `(x, y)`, or `None` where the matrix has none.
    pub open spec fn cell(&self, x: usize, y: usize) -> Option<Cell> {
        if y < self.cells@.len() && x < self.cells@[y as int]@.len() {
            Some(self.cells@[y as int]@[x as int])
        } else {
            None
        }
    }

    /// The in-bounds positions adjacent to `(x, y)`: left, right, up, down.
    pub open spec fn neighbors_spec(&self, x: usize, y: usize) -> Seq<Pos> {
        neighbors_in(self.width as int, self.height as int, (x, y))
    }

    /// An all-`Empty` grid of the given size.
    pub fn new(width: usize, height: usize) -> (grid: Self)
        ensures
            grid.wf(),
            grid.width == width,
            grid.height == height,
            forall|x: usize, y: usize|
                x < width && y < height ==> #[trigger] grid.cell(x, y) == Some(Cell::Empty),
    {
        let mut cells: Vec<Vec<Cell>> = Vec::new();
        let mut y: usize = 0;
        while y < height
            invariant
                y <= height,
                cells@.len() == y,
                forall|j: int| 0 <= j < y ==> (#[trigger] cells@[j])@.len() == width,
                forall|j: int, i: int|
                    0 <= j < y && 0 <= i < width ==> (#[trigger] cells@[j]@[i]) == Cell::Empty,
            decreases height - y,
        {
            let mut row: Vec<Cell> = Vec::new();
            let mut x: usize = 0;
            while x < width
                invariant
                    x <= width,
                    row@.len() == x,
                    forall|i: int| 0 <= i < x ==> (#[trigger] row@[i]) == Cell::Empty,
                decreases width - x,
            {
                row.push(Cell::Empty);
                x += 1;
            }
            cells.push(row);
            y += 1;
        }
        Grid { width, height, cells }
    }

    /// Reads the cell at `(x, y)`; `None` outside the matrix.
    pub fn get(&self, x: usize, y: usize) -> (cell: Option<Cell>)
        ensures
            cell == self.cell(x, y),
    {
        if y < self.cells.len() {
            let row = &self.cells[y];
            if x < row.len() {
                Some(row[x])
            } else {
                None
            }
        } else {
            None
        }
    }

    /// Overwrites the cell at `(x, y)` when it is in bounds, and does nothing
    /// otherwise.
    pub fn set(&mut self, x: usize, y: usize, cell: Cell)
        requires
            old(self).wf(),
        ensures
            final(self).wf(),
            final(self).width == old(self).width,
            final(self).height == old(self).height,
            final(self)@ == matrix_set(old(self)@, x as int, y as int, cell),
            forall|a: usize, b: usize|
                #[trigger] final(self).cell(a, b) == if a == x && b == y && old(self).in_bounds(
                    x,
                    y,
                ) {
                    Some(cell)
                } else {
                    old(self).cell(a, b)
                },
    {
        if x < self.width && y < self.height {
            self.cells[y][x] = cell;
        }
        proof {
            assert(self@ =~= matrix_set(old(self)@, x as int, y as int, cell));
        }
    }

    /// The up to four orthogonally adjacent in-bounds positions of `(x, y)`,
    /// in the order left, right, up, down.
    pub fn neighbors(&self, x: usize, y: usize) -> (found: Vec<Pos>)
        ensures
            found@ == self.neighbors_spec(x, y),
    {
        let mut found: Vec<Pos> = Vec::new();
        if 0 < x && x - 1 < self.width && y < self.height {
            found.push((x - 1, y));
        }
        if x < usize::MAX && x + 1 < self.width && y < self.height {
            found.push((x + 1, y));
        }
        if 0 < y && y - 1 < self.height && x < self.width {
            found.push((x, y - 1));
        }
        if y < usize::MAX && y + 1 < self.height && x < self.width {
            found.push((x, y + 1));
        }
        proof {
            assert(found@ =~= self.neighbors_spec(x, y));
        }
        found
    }
}

} // verus!
