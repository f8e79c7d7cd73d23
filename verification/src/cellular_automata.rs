//! The cave generator: a seeded random fill, smoothing by neighbour count,
//! pruning to the largest connected region, and placing the two endpoints
//! far apart.

use crate::endpoints::{candidates, cave_connected, pick_in_range, placed};
use crate::grid::{
    any_open, at_most_one, lemma_matrix_set_cell, matrix_cell, matrix_set, occurs, Cell, Grid,
    Matrix,
};
use crate::random::{next_word, seeded_stream, stream_from_seed, word_draw};
use crate::regions::{plain, pruned};
use rand::rngs::StdRng;
use vstd::prelude::*;

verus! {

/// The configuration of a cave generator.
pub struct CellularAutomata {
    /// How likely an interior cell is filled at first, in steps of 2^-24:
    /// a cell is filled when the top 24 bits of its random word lie below
    /// this number.
    pub wall_change: u32,
    /// How often the grid is smoothed.
    pub smoothing_passes: u32,
    /// The seed of the random stream.
    pub seed: u64,
}

/// The fill threshold that stands for a probability of 0.45.
pub const DEFAULT_WALL_CHANGE: u32 = 7549747;

impl Default for CellularAutomata {
    fn default() -> (config: Self)
        ensures
            config.wall_change == DEFAULT_WALL_CHANGE,
            config.smoothing_passes == 1,
            config.seed == 12345,
    {
        Self { wall_change: DEFAULT_WALL_CHANGE, smoothing_passes: 1, seed: 12345 }
    }
}

/// Whether `(x, y)` lies strictly inside a `w` by `h` grid, off its border.
pub open spec fn interior(w: int, h: int, x: int, y: int) -> bool {
    0 < x < w - 1 && 0 < y < h - 1
}

/// Whether every cell on the border of a `w` by `h` matrix is a wall.
pub open spec fn bordered(m: Matrix, w: int, h: int) -> bool {
    forall|x: int, y: int|
        0 <= x < w && 0 <= y < h && !interior(w, h, x, y) ==> #[trigger] matrix_cell(m, x, y)
            == Some(Cell::Wall)
}

/// How many interior cells a row-by-row scan of a `w` by `h` grid has
/// passed when it stands at `(x, y)`.
pub open spec fn draws_before(w: int, h: int, x: int, y: int) -> nat
    decreases y, x,
{
    if x > 0 {
        draws_before(w, h, x - 1, y) + if interior(w, h, x - 1, y) {
            1nat
        } else {
            0nat
        }
    } else if y > 0 && w >= 0 {
        draws_before(w, h, w, y - 1)
    } else {
        0
    }
}

/// The stream after `draws` words were drawn from it.
pub open spec fn stream_after(stream: StdRng, draws: nat) -> StdRng
    decreases draws,
{
    if draws == 0 {
        stream
    } else {
        word_draw(stream_after(stream, (draws - 1) as nat)).1
    }
}

/// The word that a stream yields after `draws` earlier ones.
pub open spec fn word_at(stream: StdRng, draws: nat) -> u32 {
    word_draw(stream_after(stream, draws)).0
}

/// Whether a cell counts as a wall for smoothing: it is one, or it lies
/// outside the matrix.
pub open spec fn counts_as_wall(m: Matrix, x: int, y: int) -> bool {
    matrix_cell(m, x, y).is_none() || matrix_cell(m, x, y) == Some(Cell::Wall)
}

/// How many of the first `k` cells of the three-by-three window around
/// `(x, y)`, taken row by row, count as walls.
pub open spec fn window_count(m: Matrix, x: int, y: int, k: int) -> nat
    decreases k,
{
    if k <= 0 {
        0
    } else {
        window_count(m, x, y, k - 1) + if counts_as_wall(
            m,
            x + (k - 1) % 3 - 1,
            y + (k - 1) / 3 - 1,
        ) {
            1nat
        } else {
            0nat
        }
    }
}

/// How many of the nine cells of the window around `(x, y)`, the cell
/// itself among them, count as walls.
pub open spec fn wall_count(m: Matrix, x: int, y: int) -> nat {
    window_count(m, x, y, 9)
}

/// The matrix after the cell at `(x, y)` was smoothed: a wall with five or
/// more walls in its window, empty with fewer than four, unchanged with
/// exactly four.
pub open spec fn smooth_cell(m: Matrix, x: int, y: int) -> Matrix {
    let count = wall_count(m, x, y);
    if count >= 5 {
        matrix_set(m, x, y, Cell::Wall)
    } else if count < 4 {
        matrix_set(m, x, y, Cell::Empty)
    } else {
        m
    }
}

/// The matrix when an in-place smoothing scan, row by row, stands at
/// `(x, y)`: every interior cell before it was smoothed in turn, each
/// seeing the cells that were changed before it.
pub open spec fn smooth_scan(m: Matrix, w: int, h: int, x: int, y: int) -> Matrix
    decreases y, x,
{
    if x > 0 {
        let before = smooth_scan(m, w, h, x - 1, y);
        if interior(w, h, x - 1, y) {
            smooth_cell(before, x - 1, y)
        } else {
            before
        }
    } else if y > 0 && w >= 0 {
        smooth_scan(m, w, h, w, y - 1)
    } else {
        m
    }
}

/// The matrix after one smoothing pass.
pub open spec fn smoothed(m: Matrix, w: int, h: int) -> Matrix {
    smooth_scan(m, w, h, 0, h)
}

/// The matrix after `passes` smoothing passes.
pub open spec fn smoothed_times(m: Matrix, w: int, h: int, passes: nat) -> Matrix
    decreases passes,
{
    if passes == 0 {
        m
    } else {
        smoothed(smoothed_times(m, w, h, (passes - 1) as nat), w, h)
    }
}

/// Smoothing brings no endpoint into a matrix.
pub proof fn lemma_smooth_scan_plain(m: Matrix, w: int, h: int, x: int, y: int)
    requires
        plain(m),
    ensures
        plain(smooth_scan(m, w, h, x, y)),
    decreases y, x,
{
    if x > 0 {
        lemma_smooth_scan_plain(m, w, h, x - 1, y);
        let before = smooth_scan(m, w, h, x - 1, y);
        let after = smooth_scan(m, w, h, x, y);
        assert forall|a: int, b: int|
            (#[trigger] matrix_cell(after, a, b)) != Some(Cell::Start) && matrix_cell(after, a, b)
                != Some(Cell::End) by {
            assert(matrix_cell(before, a, b) != Some(Cell::Start));
        }
    } else if y > 0 && w >= 0 {
        lemma_smooth_scan_plain(m, w, h, w, y - 1);
    }
}

/// Smoothing leaves the border of a matrix walled.
pub proof fn lemma_smooth_scan_bordered(m: Matrix, w: int, h: int, x: int, y: int)
    requires
        bordered(m, w, h),
    ensures
        bordered(smooth_scan(m, w, h, x, y), w, h),
    decreases y, x,
{
    if x > 0 {
        lemma_smooth_scan_bordered(m, w, h, x - 1, y);
        let before = smooth_scan(m, w, h, x - 1, y);
        let after = smooth_scan(m, w, h, x, y);
        assert forall|a: int, b: int| 0 <= a < w && 0 <= b < h && !interior(w, h, a, b) implies #[trigger] matrix_cell(
            after,
            a,
            b,
        ) == Some(Cell::Wall) by {
            assert(matrix_cell(before, a, b) == Some(Cell::Wall));
            lemma_matrix_set_cell(before, x - 1, y, Cell::Wall, a, b);
            lemma_matrix_set_cell(before, x - 1, y, Cell::Empty, a, b);
        }
    } else if y > 0 && w >= 0 {
        lemma_smooth_scan_bordered(m, w, h, w, y - 1);
    }
}

/// A generator leaves the same cells whenever its configuration and the
/// size of the grid are the same.
pub proof fn lemma_generate_deterministic(
    one: CellularAutomata,
    other: CellularAutomata,
    w: int,
    h: int,
)
    requires
        one.seed == other.seed,
        one.wall_change == other.wall_change,
        one.smoothing_passes == other.smoothing_passes,
    ensures
        one.generated(w, h) == other.generated(w, h),
{
    assert(one == other);
}

impl CellularAutomata {
    /// Whether a random word fills a cell: its top 24 bits lie below the
    /// threshold.
    pub open spec fn fills(&self, word: u32) -> bool {
        (word >> 8) < self.wall_change
    }

    /// The cell that the random fill puts at `(x, y)` of a `w` by `h` grid:
    /// a wall on the border, and inside a wall or an empty cell as the
    /// word drawn for it says.
    pub open spec fn filled_cell(&self, w: int, h: int, stream: StdRng, x: int, y: int) -> Cell {
        if !interior(w, h, x, y) || self.fills(word_at(stream, draws_before(w, h, x, y))) {
            Cell::Wall
        } else {
            Cell::Empty
        }
    }

    /// The matrix that the random fill leaves on a `w` by `h` grid.
    pub open spec fn filled(&self, w: int, h: int, stream: StdRng) -> Matrix {
        Seq::new(
            h as nat,
            |y: int| Seq::new(w as nat, |x: int| self.filled_cell(w, h, stream, x, y)),
        )
    }

    /// The stream as the random fill of a `w` by `h` grid leaves it.
    pub open spec fn stream_after_fill(w: int, h: int, stream: StdRng) -> StdRng {
        stream_after(stream, draws_before(w, h, 0, h))
    }

    /// The matrix that generation has carved on a `w` by `h` grid before
    /// it places the endpoints: filled from the seeded stream, smoothed as
    /// often as configured, and pruned to the largest region.
    pub open spec fn carved(&self, w: int, h: int) -> Matrix {
        let stream = seeded_stream(self.seed);
        let smooth = smoothed_times(self.filled(w, h, stream), w, h, self.smoothing_passes as nat);
        pruned(smooth, w, h)
    }

    /// The matrix that generation leaves on a `w` by `h` grid: carved, and
    /// given its endpoints from the stream as the fill has left it.
    pub open spec fn generated(&self, w: int, h: int) -> Matrix {
        placed(
            self.carved(w, h),
            w,
            h,
            Self::stream_after_fill(w, h, seeded_stream(self.seed)),
        )
    }

    /// Generates a cave in place: random fill, smoothing, pruning to the
    /// largest connected region, endpoint placement. What the grid held
    /// before does not matter, only its size. The border of the cave is
    /// walled. It has at most one start and one end: an end wherever any
    /// cell is no wall, and a start wherever a cell is left empty, from
    /// which every empty cell can be reached. The candidate that the
    /// stream picks for placing them is one of those there are.
    pub fn generate(&self, grid: &mut Grid)
        requires
            old(grid).wf(),
        ensures
            final(grid).wf(),
            final(grid).width == old(grid).width,
            final(grid).height == old(grid).height,
            final(grid)@ == self.generated(old(grid).width as int, old(grid).height as int),
            pick_in_range(
                candidates(
                    self.carved(old(grid).width as int, old(grid).height as int),
                    old(grid).width as int,
                    old(grid).height as int,
                ),
                Self::stream_after_fill(
                    old(grid).width as int,
                    old(grid).height as int,
                    seeded_stream(self.seed),
                ),
            ),
            bordered(final(grid)@, old(grid).width as int, old(grid).height as int),
            at_most_one(final(grid)@, Cell::Start),
            at_most_one(final(grid)@, Cell::End),
            occurs(final(grid)@, Cell::End) <==> any_open(final(grid)@),
            cave_connected(final(grid)@),
    {
        let ghost w = grid.width as int;
        let ghost h = grid.height as int;
        let mut rng = stream_from_seed(self.seed);

        // phase 1: random fill
        self.random_fill(grid, &mut rng);

        // phase 2: smooth
        let mut pass: u32 = 0;
        while pass < self.smoothing_passes
            invariant
                pass <= self.smoothing_passes,
                grid.wf(),
                grid.width == w,
                grid.height == h,
                grid@ == smoothed_times(self.filled(w, h, seeded_stream(self.seed)), w, h, pass as nat),
                plain(grid@),
                bordered(grid@, w, h),
            decreases self.smoothing_passes - pass,
        {
            self.smooth(grid);
            pass += 1;
        }

        // phase 3: keep only largest connected region
        self.keep_largest_region(grid);

        // phase 4: set endpoints
        self.place_endpoints(grid, &mut rng);
    }

    /// Whether the random word drawn for an interior cell fills it.
    pub fn wall_drawn(&self, word: u32) -> (wall: bool)
        ensures
            wall == self.fills(word),
    {
        (word >> 8) < self.wall_change
    }

    /// Phase one: walls on the border, and inside a wall or an empty cell
    /// for each word of the stream, row by row.
    pub(crate) fn random_fill(&self, grid: &mut Grid, rng: &mut StdRng)
        requires
            old(grid).wf(),
        ensures
            final(grid).wf(),
            final(grid).width == old(grid).width,
            final(grid).height == old(grid).height,
            *final(rng) == Self::stream_after_fill(
                old(grid).width as int,
                old(grid).height as int,
                *old(rng),
            ),
            final(grid)@ == self.filled(old(grid).width as int, old(grid).height as int, *old(rng)),
            plain(final(grid)@),
            bordered(final(grid)@, old(grid).width as int, old(grid).height as int),
            forall|x: usize, y: usize|
                x < old(grid).width && y < old(grid).height ==> #[trigger] final(grid).cell(x, y)
                    == Some(
                    self.filled_cell(
                        old(grid).width as int,
                        old(grid).height as int,
                        *old(rng),
                        x as int,
                        y as int,
                    ),
                ),
    {
        let ghost w = grid.width as int;
        let ghost h = grid.height as int;
        let ghost source = *rng;
        let mut y: usize = 0;
        while y < grid.height
            invariant
                grid.wf(),
                grid.width == w,
                grid.height == h,
                y <= h,
                *rng == stream_after(source, draws_before(w, h, 0, y as int)),
                forall|a: usize, b: usize|
                    a < w && b < y ==> #[trigger] grid.cell(a, b) == Some(
                        self.filled_cell(w, h, source, a as int, b as int),
                    ),
            decreases h - y,
        {
            let mut x: usize = 0;
            while x < grid.width
                invariant
                    grid.wf(),
                    grid.width == w,
                    grid.height == h,
                    y < h,
                    x <= w,
                    *rng == stream_after(source, draws_before(w, h, x as int, y as int)),
                    forall|a: usize, b: usize|
                        a < w && (b < y || (b == y && a < x)) ==> #[trigger] grid.cell(a, b) == Some(
                            self.filled_cell(w, h, source, a as int, b as int),
                        ),
                decreases w - x,
            {
                let is_border = x == 0 || y == 0 || x == grid.width - 1 || y == grid.height - 1;
                if is_border {
                    grid.set(x, y, Cell::Wall);
                } else {
                    let word = next_word(rng);
                    if self.wall_drawn(word) {
                        grid.set(x, y, Cell::Wall);
                    } else {
                        grid.set(x, y, Cell::Empty);
                    }
                }
                x += 1;
            }
            y += 1;
        }
        proof {
            grid.lemma_view();
            let target = self.filled(w, h, source);
            assert forall|b: int| 0 <= b < h implies #[trigger] grid@[b] =~= target[b] by {
                assert forall|a: int| 0 <= a < w implies grid@[b][a] == target[b][a] by {
                    assert(grid.cell(a as usize, b as usize) == Some(grid@[b][a]));
                }
            }
            assert(grid@ =~= target);
            assert forall|a: int, b: int|
                (#[trigger] matrix_cell(target, a, b)) != Some(Cell::Start) && matrix_cell(
                    target,
                    a,
                    b,
                ) != Some(Cell::End) by {}
            assert forall|a: int, b: int|
                0 <= a < w && 0 <= b < h && !interior(w, h, a, b) implies #[trigger] matrix_cell(
                target,
                a,
                b,
            ) == Some(Cell::Wall) by {}
        }
    }

    /// How many of the nine cells of the window around `(x, y)` are walls,
    /// the cell itself among them, with every position outside the grid
    /// counted as a wall.
    pub fn count_wall_neighbors(&self, grid: &Grid, x: usize, y: usize) -> (count: u32)
        requires
            grid.wf(),
        ensures
            count == wall_count(grid@, x as int, y as int),
            count <= 9,
    {
        let mut count: u32 = 0;
        let mut k: u8 = 0;
        proof {
            grid.lemma_view();
        }
        while k < 9
            invariant
                k <= 9,
                grid.wf(),
                count <= k,
                count == window_count(grid@, x as int, y as int, k as int),
                forall|a: usize, b: usize| #[trigger] grid.cell(a, b) == matrix_cell(grid@, a as int, b as int),
            decreases 9 - k,
        {
            let nx: i128 = x as i128 + (k % 3) as i128 - 1;
            let ny: i128 = y as i128 + (k / 3) as i128 - 1;
            // a position outside the grid counts like a wall
            if nx < 0 || ny < 0 || nx >= grid.width as i128 || ny >= grid.height as i128 {
                count += 1;
            } else {
                match grid.get(nx as usize, ny as usize) {
                    Some(Cell::Wall) => {
                        count += 1;
                    },
                    _ => {},
                }
            }
            k += 1;
        }
        count
    }

    /// Phase two, one pass: every interior cell in turn, row by row and in
    /// place, becomes a wall with five or more walls in its window and
    /// empty with fewer than four.
    pub fn smooth(&self, grid: &mut Grid)
        requires
            old(grid).wf(),
        ensures
            final(grid).wf(),
            final(grid).width == old(grid).width,
            final(grid).height == old(grid).height,
            final(grid)@ == smoothed(old(grid)@, old(grid).width as int, old(grid).height as int),
            plain(old(grid)@) ==> plain(final(grid)@),
            bordered(old(grid)@, old(grid).width as int, old(grid).height as int) ==> bordered(
                final(grid)@,
                old(grid).width as int,
                old(grid).height as int,
            ),
    {
        let ghost w = grid.width as int;
        let ghost h = grid.height as int;
        let ghost first = grid@;
        proof {
            if plain(first) {
                lemma_smooth_scan_plain(first, w, h, 0, h);
            }
            if bordered(first, w, h) {
                lemma_smooth_scan_bordered(first, w, h, 0, h);
            }
        }
        let mut y: usize = 0;
        while y < grid.height
            invariant
                grid.wf(),
                grid.width == w,
                grid.height == h,
                y <= h,
                grid@ == smooth_scan(first, w, h, 0, y as int),
            decreases h - y,
        {
            let mut x: usize = 0;
            while x < grid.width
                invariant
                    grid.wf(),
                    grid.width == w,
                    grid.height == h,
                    y < h,
                    x <= w,
                    grid@ == smooth_scan(first, w, h, x as int, y as int),
                decreases w - x,
            {
                if 0 < x && x < grid.width - 1 && 0 < y && y < grid.height - 1 {
                    let wall_count = self.count_wall_neighbors(grid, x, y);
                    if wall_count >= 5 {
                        grid.set(x, y, Cell::Wall);
                    } else if wall_count < 4 {
                        grid.set(x, y, Cell::Empty);
                    }
                }
                x += 1;
            }
            y += 1;
        }
    }
}

} // verus!
