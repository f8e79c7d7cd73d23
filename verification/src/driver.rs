//! What a driver of the searches needs besides the searches themselves:
//! choosing among the algorithms, making the chosen one, and locating the
//! endpoints on a grid.

use crate::astar::AStar;
use crate::bfs::Bfs;
use crate::dfs::Dfs;
use crate::dijkstra::Dijkstra;
use crate::grid::{matrix_cell, Cell, Grid, Matrix, Pos};
use crate::pathfinding::{
    begin, label_of, AlgorithmType, NodeState, PathfindingAlgorithm, Search,
};
use vstd::prelude::*;

verus! {

/// The algorithm that follows `kind` when a user cycles through them.
pub open spec fn successor(kind: AlgorithmType) -> AlgorithmType {
    match kind {
        AlgorithmType::Dijkstra => AlgorithmType::AStar,
        AlgorithmType::AStar => AlgorithmType::Bfs,
        AlgorithmType::Bfs => AlgorithmType::Dfs,
        AlgorithmType::Dfs => AlgorithmType::Dijkstra,
    }
}

impl AlgorithmType {
    /// All algorithms, in the order a user cycles through them.
    pub fn all() -> (kinds: &'static [Self])
        ensures
            kinds@ == seq![
                AlgorithmType::Dijkstra,
                AlgorithmType::AStar,
                AlgorithmType::Bfs,
                AlgorithmType::Dfs,
            ],
    {
        &[Self::Dijkstra, Self::AStar, Self::Bfs, Self::Dfs]
    }

    /// The label under which the algorithm is listed.
    pub fn name(&self) -> (label: &'static str)
        ensures
            label@ == label_of(*self),
    {
        match self {
            Self::Dijkstra => "Dijkstra",
            Self::AStar => "A*",
            Self::Bfs => "BFS",
            Self::Dfs => "DFS",
        }
    }

    /// The algorithm after this one, the first following the last.
    pub fn next(&self) -> (following: Self)
        ensures
            following == successor(*self),
    {
        match self {
            Self::Dijkstra => Self::AStar,
            Self::AStar => Self::Bfs,
            Self::Bfs => Self::Dfs,
            Self::Dfs => Self::Dijkstra,
        }
    }
}

impl Default for AlgorithmType {
    fn default() -> (kind: Self)
        ensures
            kind == AlgorithmType::AStar,
    {
        Self::AStar
    }
}

/// A search of any of the four kinds.
pub enum Algorithm {
    Dijkstra(Dijkstra),
    AStar(AStar),
    Bfs(Bfs),
    Dfs(Dfs),
}

impl PathfindingAlgorithm for Algorithm {
    open spec fn model(&self) -> Search {
        match self {
            Algorithm::Dijkstra(search) => search.model(),
            Algorithm::AStar(search) => search.model(),
            Algorithm::Bfs(search) => search.model(),
            Algorithm::Dfs(search) => search.model(),
        }
    }

    open spec fn wf(&self) -> bool {
        match self {
            Algorithm::Dijkstra(search) => search.wf(),
            Algorithm::AStar(search) => search.wf(),
            Algorithm::Bfs(search) => search.wf(),
            Algorithm::Dfs(search) => search.wf(),
        }
    }

    open spec fn kind(&self) -> AlgorithmType {
        match self {
            Algorithm::Dijkstra(_) => AlgorithmType::Dijkstra,
            Algorithm::AStar(_) => AlgorithmType::AStar,
            Algorithm::Bfs(_) => AlgorithmType::Bfs,
            Algorithm::Dfs(_) => AlgorithmType::Dfs,
        }
    }

    fn step(&mut self, grid: &Grid) -> (running: bool) {
        match self {
            Algorithm::Dijkstra(search) => search.step(grid),
            Algorithm::AStar(search) => search.step(grid),
            Algorithm::Bfs(search) => search.step(grid),
            Algorithm::Dfs(search) => search.step(grid),
        }
    }

    fn get_node_state(&self, x: usize, y: usize) -> (state: NodeState) {
        match self {
            Algorithm::Dijkstra(search) => search.get_node_state(x, y),
            Algorithm::AStar(search) => search.get_node_state(x, y),
            Algorithm::Bfs(search) => search.get_node_state(x, y),
            Algorithm::Dfs(search) => search.get_node_state(x, y),
        }
    }

    fn get_path(&self) -> (path: Vec<Pos>) {
        match self {
            Algorithm::Dijkstra(search) => search.get_path(),
            Algorithm::AStar(search) => search.get_path(),
            Algorithm::Bfs(search) => search.get_path(),
            Algorithm::Dfs(search) => search.get_path(),
        }
    }

    fn is_finished(&self) -> (finished: bool) {
        match self {
            Algorithm::Dijkstra(search) => search.is_finished(),
            Algorithm::AStar(search) => search.is_finished(),
            Algorithm::Bfs(search) => search.is_finished(),
            Algorithm::Dfs(search) => search.is_finished(),
        }
    }

    fn found_path(&self) -> (found: bool) {
        match self {
            Algorithm::Dijkstra(search) => search.found_path(),
            Algorithm::AStar(search) => search.found_path(),
            Algorithm::Bfs(search) => search.found_path(),
            Algorithm::Dfs(search) => search.found_path(),
        }
    }

    fn name(&self) -> (label: &'static str) {
        match self {
            Algorithm::Dijkstra(search) => search.name(),
            Algorithm::AStar(search) => search.name(),
            Algorithm::Bfs(search) => search.name(),
            Algorithm::Dfs(search) => search.name(),
        }
    }
}

/// Makes a fresh search of the chosen kind.
pub fn create_algorithm(algorithm_type: AlgorithmType, start: Pos, end: Pos) -> (algorithm: Algorithm)
    ensures
        algorithm.wf(),
        algorithm.kind() == algorithm_type,
        algorithm.model() == begin(algorithm_type, start, end),
{
    match algorithm_type {
        AlgorithmType::Dijkstra => Algorithm::Dijkstra(Dijkstra::new(start, end)),
        AlgorithmType::AStar => Algorithm::AStar(AStar::new(start, end)),
        AlgorithmType::Bfs => Algorithm::Bfs(Bfs::new(start, end)),
        AlgorithmType::Dfs => Algorithm::Dfs(Dfs::new(start, end)),
    }
}

/// The last cell holding `wanted` that a row-by-row scan has passed when
/// it stands at `(x, y)`, if there is one.
pub open spec fn last_seen(m: Matrix, w: int, wanted: Cell, x: int, y: int) -> Option<Pos>
    decreases y, x,
{
    if x > 0 {
        if matrix_cell(m, x - 1, y) == Some(wanted) {
            Some(((x - 1) as usize, y as usize))
        } else {
            last_seen(m, w, wanted, x - 1, y)
        }
    } else if y > 0 && w >= 0 {
        last_seen(m, w, wanted, w, y - 1)
    } else {
        None
    }
}

/// Locates the start and the end on a grid: for each the last cell that
/// holds it, row by row, or `None` where no cell does.
pub fn find_start_end(grid: &Grid) -> (ends: (Option<Pos>, Option<Pos>))
    ensures
        ends.0 == last_seen(grid@, grid.width as int, Cell::Start, 0, grid.height as int),
        ends.1 == last_seen(grid@, grid.width as int, Cell::End, 0, grid.height as int),
{
    let mut start: Option<Pos> = None;
    let mut end: Option<Pos> = None;
    let ghost m = grid@;
    let ghost w = grid.width as int;
    proof {
        grid.lemma_view();
    }
    let mut y: usize = 0;
    while y < grid.height
        invariant
            y <= grid.height,
            grid.width == w,
            grid@ == m,
            forall|a: usize, b: usize| #[trigger] grid.cell(a, b) == matrix_cell(m, a as int, b as int),
            start == last_seen(m, w, Cell::Start, 0, y as int),
            end == last_seen(m, w, Cell::End, 0, y as int),
        decreases grid.height - y,
    {
        let mut x: usize = 0;
        while x < grid.width
            invariant
                y < grid.height,
                x <= grid.width,
                grid.width == w,
                grid@ == m,
                forall|a: usize, b: usize| #[trigger] grid.cell(a, b) == matrix_cell(m, a as int, b as int),
                start == last_seen(m, w, Cell::Start, x as int, y as int),
                end == last_seen(m, w, Cell::End, x as int, y as int),
            decreases grid.width - x,
        {
            match grid.get(x, y) {
                Some(Cell::Start) => {
                    start = Some((x, y));
                },
                Some(Cell::End) => {
                    end = Some((x, y));
                },
                _ => {},
            }
            x += 1;
        }
        y += 1;
    }
    (start, end)
}

} // verus!
