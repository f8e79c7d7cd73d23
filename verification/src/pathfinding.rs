//! What the four search algorithms share: the per-cell visualisation tag, the
//! abstract state of a search, the parent tree and the path read from it, and
//! the interface through which a driver advances a search one step at a time.

use crate::grid::{adjacent, Cell, Grid, Pos};
use crate::lookup::PosMap;
use vstd::prelude::*;

verus! {

/// The visualisation tag of a position during a search.
#[derive(Clone, Copy, PartialEq, Eq, Debug, Structural)]
pub enum NodeState {
    Unvisited,
    InQueue,
    Visited,
    Path,
}

/// The four search algorithms.
#[derive(Clone, Copy, PartialEq, Eq, Debug, Structural)]
pub enum AlgorithmType {
    Dijkstra,
    AStar,
    Bfs,
    Dfs,
}

/// A pending frontier entry: a position with the cost from the start it was
/// pushed with and the priority key it is ordered by.
pub struct Entry {
    pub position: Pos,
    pub cost: nat,
    pub key: nat,
}

/// The abstract state of one search.
pub struct Search {
    /// Where the search begins.
    pub start: Pos,
    /// The position the search looks for.
    pub end: Pos,
    /// The pending entries, in the order they were pushed.
    pub frontier: Seq<Entry>,
    /// The finalised positions.
    pub visited: Set<Pos>,
    /// For each discovered position but the start, the position it was
    /// discovered from.
    pub parents: Map<Pos, Pos>,
    /// For each discovered position, the length of its parent chain.
    pub costs: Map<Pos, nat>,
    /// The tag last recorded for each position that has one.
    pub states: Map<Pos, NodeState>,
    /// The search will not advance any more.
    pub finished: bool,
    /// The end was reached.
    pub found: bool,
}

/// The Manhattan distance between two positions.
pub open spec fn manhattan(a: Pos, b: Pos) -> nat {
    (if a.0 >= b.0 {
        a.0 - b.0
    } else {
        b.0 - a.0
    } + if a.1 >= b.1 {
        a.1 - b.1
    } else {
        b.1 - a.1
    }) as nat
}

/// Every two consecutive positions of `path` are adjacent.
pub open spec fn is_walk(path: Seq<Pos>) -> bool {
    forall|i: int| 0 <= i < path.len() - 1 ==> adjacent(#[trigger] path[i], path[i + 1])
}

/// `path` leads from `start` to `end` along the parent map: it begins at
/// `start`, ends at `end`, and each later position is not `start` and has
/// the position before it as its parent.
pub open spec fn is_trail(parents: Map<Pos, Pos>, start: Pos, end: Pos, path: Seq<Pos>) -> bool {
    &&& path.len() > 0
    &&& path[0] == start
    &&& path.last() == end
    &&& forall|i: int|
        0 < i < path.len() ==> {
            &&& #[trigger] path[i] != start
            &&& parents.contains_key(path[i])
            &&& parents[path[i]] == path[i - 1]
        }
}

/// The trail from `start` to `end`, where there is one.
pub open spec fn trail(parents: Map<Pos, Pos>, start: Pos, end: Pos) -> Seq<Pos> {
    choose|path: Seq<Pos>| is_trail(parents, start, end, path)
}

/// `states` with the tag `Path` laid over every position of `path`.
pub open spec fn overlay(states: Map<Pos, NodeState>, path: Seq<Pos>) -> Map<Pos, NodeState> {
    Map::new(
        |p: Pos| states.contains_key(p) || path.contains(p),
        |p: Pos|
            if path.contains(p) {
                NodeState::Path
            } else {
                states[p]
            },
    )
}

/// The parent map is a tree rooted at `start`: the start has cost zero and no
/// parent, and every other discovered position lies one step from its parent
/// and costs one more.
pub open spec fn rooted(parents: Map<Pos, Pos>, costs: Map<Pos, nat>, start: Pos) -> bool {
    &&& costs.contains_key(start)
    &&& costs[start] == 0
    &&& forall|n: Pos| #[trigger]
        parents.contains_key(n) ==> {
            &&& n != start
            &&& (parents[n] == start || parents.contains_key(parents[n]))
            &&& costs.contains_key(n)
            &&& costs.contains_key(parents[n])
            &&& costs[n] == costs[parents[n]] + 1
            &&& adjacent(parents[n], n)
        }
}

/// Whether the cell of `grid` at `p` lets a search through.
pub open spec fn passable(grid: Grid, p: Pos) -> bool {
    grid.cell(p.0, p.1) != Some(Cell::Wall)
}

impl Search {
    /// A position is discovered when it is the start or has a parent.
    pub open spec fn discovered(self, p: Pos) -> bool {
        p == self.start || self.parents.contains_key(p)
    }

    /// The tag of `p`: the one recorded last, or `Unvisited`.
    pub open spec fn node_state(self, p: Pos) -> NodeState {
        if self.states.contains_key(p) {
            self.states[p]
        } else {
            NodeState::Unvisited
        }
    }

    /// The state after `p` was finalised.
    pub open spec fn visit(self, p: Pos) -> Search {
        Search {
            visited: self.visited.insert(p),
            states: self.states.insert(p, NodeState::Visited),
            ..self
        }
    }

    /// The state after the end was reached: both flags set and the trail
    /// from start to end tagged `Path`.
    pub open spec fn finish(self) -> Search {
        Search {
            finished: true,
            found: true,
            states: overlay(self.states, trail(self.parents, self.start, self.end)),
            ..self
        }
    }

    /// The state after the frontier ran empty.
    pub open spec fn give_up(self) -> Search {
        Search { finished: true, ..self }
    }

    /// The state after the frontier entry at index `i` was taken out.
    pub open spec fn without(self, i: int) -> Search {
        Search { frontier: self.frontier.remove(i), ..self }
    }

    /// The state after `n` was reached from `from` and queued as `entry`:
    /// `from` becomes its parent and its cost is one more than that of
    /// `from`.
    pub open spec fn discover(self, n: Pos, from: Pos, entry: Entry) -> Search {
        Search {
            parents: self.parents.insert(n, from),
            costs: self.costs.insert(n, self.costs[from] + 1),
            frontier: self.frontier.push(entry),
            states: self.states.insert(n, NodeState::InQueue),
            ..self
        }
    }

    /// The state after `n` was queued once more, its parent left as it is.
    pub open spec fn requeue(self, n: Pos) -> Search {
        Search {
            frontier: self.frontier.push(plain_entry(n)),
            states: self.states.insert(n, NodeState::InQueue),
            ..self
        }
    }

    /// The path that the search reports: empty unless the end was reached,
    /// and then the trail from start to end.
    pub open spec fn path(self) -> Seq<Pos> {
        if self.found {
            trail(self.parents, self.start, self.end)
        } else {
            Seq::empty()
        }
    }

    /// What holds of every search state that the algorithms produce.
    pub open spec fn sound(self) -> bool {
        &&& rooted(self.parents, self.costs, self.start)
        &&& forall|i: int|
            0 <= i < self.frontier.len() ==> self.discovered((#[trigger] self.frontier[i]).position)
        &&& self.found ==> self.finished && self.discovered(self.end)
        &&& forall|p: Pos| #[trigger]
            self.states.contains_key(p) ==> self.states[p] != NodeState::Unvisited
        &&& forall|p: Pos| #[trigger]
            self.visited.contains(p) ==> self.discovered(p) && self.states.contains_key(p)
        &&& forall|n: Pos| #[trigger]
            self.parents.contains_key(n) ==> self.visited.contains(self.parents[n])
        &&& self.visited.contains(self.start) || (!self.finished && self.frontier.len() == 1
            && self.frontier[0].position == self.start)
    }
}

/// The frontier entry of an algorithm that orders its frontier by arrival
/// alone.
pub open spec fn plain_entry(p: Pos) -> Entry {
    Entry { position: p, cost: 0, key: 0 }
}

/// `a` is popped before `b`: it has the smaller key, or the same key and the
/// larger cost from the start.
pub open spec fn better(a: Entry, b: Entry) -> bool {
    a.key < b.key || (a.key == b.key && a.cost > b.cost)
}

/// The entry at index `i` is what a priority frontier pops: no entry is
/// better, and of the entries that are as good it was pushed first.
pub open spec fn is_best(frontier: Seq<Entry>, i: int) -> bool {
    &&& 0 <= i < frontier.len()
    &&& forall|j: int| 0 <= j < i ==> better(frontier[i], #[trigger] frontier[j])
    &&& forall|j: int| i < j < frontier.len() ==> !better(#[trigger] frontier[j], frontier[i])
}

/// The index that a priority frontier pops.
pub open spec fn best_index(frontier: Seq<Entry>) -> int {
    choose|i: int| is_best(frontier, i)
}

/// The index of the frontier entry that an algorithm pops: the oldest for
/// breadth-first, the newest for depth-first, the best for the other two.
pub open spec fn pick(kind: AlgorithmType, frontier: Seq<Entry>) -> int {
    match kind {
        AlgorithmType::Bfs => 0,
        AlgorithmType::Dfs => frontier.len() - 1,
        AlgorithmType::Dijkstra => best_index(frontier),
        AlgorithmType::AStar => best_index(frontier),
    }
}

/// Whether an algorithm drops a popped entry whose position is finalised
/// already. Depth-first search expands it once more instead.
pub open spec fn drops_stale(kind: AlgorithmType) -> bool {
    kind != AlgorithmType::Dfs
}

/// The state in which a search from `start` to `end` begins: the start
/// alone on the frontier. Breadth-first and depth-first search tag it
/// `InQueue`; the two priority searches record no tag before their first
/// step.
pub open spec fn begin(kind: AlgorithmType, start: Pos, end: Pos) -> Search {
    Search {
        start,
        end,
        frontier: seq![
            Entry {
                position: start,
                cost: 0,
                key: if kind == AlgorithmType::AStar {
                    manhattan(start, end)
                } else {
                    0
                },
            },
        ],
        visited: Set::empty(),
        parents: Map::empty(),
        costs: Map::empty().insert(start, 0nat),
        states: if kind == AlgorithmType::Bfs || kind == AlgorithmType::Dfs {
            Map::empty().insert(start, NodeState::InQueue)
        } else {
            Map::empty()
        },
        finished: false,
        found: false,
    }
}

/// What an algorithm does with the neighbour `n` of the position `cur` that
/// it expands. A wall or a finalised position is skipped by all four.
/// Breadth-first discovers `n` unless it is tagged `InQueue`; depth-first
/// queues it again and keeps the first parent; the other two discover it
/// anew whenever the way through `cur` is strictly cheaper than what is
/// known.
pub open spec fn reach(kind: AlgorithmType, s: Search, grid: Grid, cur: Pos, n: Pos) -> Search {
    if !passable(grid, n) || s.visited.contains(n) {
        s
    } else {
        match kind {
            AlgorithmType::Bfs => if s.node_state(n) == NodeState::InQueue {
                s
            } else {
                s.discover(n, cur, plain_entry(n))
            },
            AlgorithmType::Dfs => if s.parents.contains_key(n) {
                s.requeue(n)
            } else {
                s.discover(n, cur, plain_entry(n))
            },
            AlgorithmType::Dijkstra => {
                let cost = s.costs[cur] + 1;
                if !s.costs.contains_key(n) || cost < s.costs[n] {
                    s.discover(n, cur, Entry { position: n, cost, key: cost })
                } else {
                    s
                }
            },
            AlgorithmType::AStar => {
                let cost = s.costs[cur] + 1;
                if !s.costs.contains_key(n) || cost < s.costs[n] {
                    s.discover(n, cur, Entry { position: n, cost, key: cost + manhattan(n, s.end) })
                } else {
                    s
                }
            },
        }
    }
}

/// The state after the neighbours `around` of `cur` were reached in turn.
pub open spec fn expand(
    kind: AlgorithmType,
    s: Search,
    grid: Grid,
    cur: Pos,
    around: Seq<Pos>,
) -> Search
    decreases around.len(),
{
    if around.len() == 0 {
        s
    } else {
        reach(kind, expand(kind, s, grid, cur, around.drop_last()), grid, cur, around.last())
    }
}

/// One step of a search: nothing once it is finished; giving up on an empty
/// frontier; else one pop, which finalises the popped position and then
/// either ends the search at the end position or expands the neighbours.
pub open spec fn advance(kind: AlgorithmType, s: Search, grid: Grid) -> Search {
    if s.finished {
        s
    } else if s.frontier.len() == 0 {
        s.give_up()
    } else {
        let i = pick(kind, s.frontier);
        let cur = s.frontier[i].position;
        let popped = s.without(i);
        if drops_stale(kind) && popped.visited.contains(cur) {
            popped
        } else if cur == s.end {
            popped.visit(cur).finish()
        } else {
            expand(kind, popped.visit(cur), grid, cur, grid.neighbors_spec(cur.0, cur.1))
        }
    }
}

/// The state of a search after `steps` steps on one grid.
pub open spec fn run(kind: AlgorithmType, start: Pos, end: Pos, grid: Grid, steps: nat) -> Search
    decreases steps,
{
    if steps == 0 {
        begin(kind, start, end)
    } else {
        advance(kind, run(kind, start, end, grid, (steps - 1) as nat), grid)
    }
}

/// The label under which a user interface lists an algorithm.
pub open spec fn label_of(kind: AlgorithmType) -> Seq<char> {
    match kind {
        AlgorithmType::Dijkstra => "Dijkstra"@,
        AlgorithmType::AStar => "A*"@,
        AlgorithmType::Bfs => "BFS"@,
        AlgorithmType::Dfs => "DFS"@,
    }
}

/// Whether two positions are the same.
pub fn same(a: Pos, b: Pos) -> (equal: bool)
    ensures
        equal == (a == b),
{
    a.0 == b.0 && a.1 == b.1
}

/// Common interface for all pathfinding algorithms.
pub trait PathfindingAlgorithm {
    /// The abstract state of the search.
    spec fn model(&self) -> Search;

    /// The invariant of the search's representation.
    spec fn wf(&self) -> bool;

    /// Which of the four algorithms this is.
    spec fn kind(&self) -> AlgorithmType;

    /// Executes one step of the algorithm: one frontier pop and, unless the
    /// search ends with it, the expansion of what was popped. Returns true
    /// if still running, false if finished. On a finished search it changes
    /// nothing.
    fn step(&mut self, grid: &Grid) -> (running: bool)
        requires
            old(self).wf(),
        ensures
            final(self).wf(),
            final(self).model().sound(),
            final(self).kind() == old(self).kind(),
            final(self).model() == advance(old(self).kind(), old(self).model(), *grid),
            running == !final(self).model().finished,
            final(self).model().start == old(self).model().start,
            final(self).model().end == old(self).model().end,
            old(self).model().finished ==> !running && final(self).model() == old(self).model(),
            final(self).model().node_state(final(self).model().start) != NodeState::Unvisited,
    ;

    /// The visual state of a node for rendering: `Unvisited` unless a tag
    /// was recorded for it, and then the last one.
    fn get_node_state(&self, x: usize, y: usize) -> (state: NodeState)
        ensures
            state == self.model().node_state((x, y)),
    ;

    /// The path from start to end: empty if no path was found, else the
    /// walk along the parent map, from the start to the end inclusive.
    fn get_path(&self) -> (path: Vec<Pos>)
        requires
            self.wf(),
        ensures
            path@ == self.model().path(),
            !self.model().found ==> path@.len() == 0,
            self.model().found ==> {
                &&& is_trail(self.model().parents, self.model().start, self.model().end, path@)
                &&& path@[0] == self.model().start
                &&& path@.last() == self.model().end
                &&& is_walk(path@)
            },
    ;

    /// Whether the algorithm has finished executing.
    fn is_finished(&self) -> (finished: bool)
        ensures
            finished == self.model().finished,
    ;

    /// Whether a path was found.
    fn found_path(&self) -> (found: bool)
        ensures
            found == self.model().found,
    ;

    /// The algorithm's display name.
    fn name(&self) -> (label: &'static str)
        ensures
            label@ == label_of(self.kind()),
    ;
}

/// Every neighbour that a grid enumerates is in bounds and adjacent to the
/// position asked about.
pub proof fn lemma_neighbors_adjacent(grid: Grid, p: Pos)
    ensures
        grid.neighbors_spec(p.0, p.1).len() <= 4,
        forall|i: int|
            0 <= i < grid.neighbors_spec(p.0, p.1).len() ==> {
                let n = #[trigger] grid.neighbors_spec(p.0, p.1)[i];
                adjacent(p, n) && grid.in_bounds(n.0, n.1)
            },
{
}

/// There is at most one trail between two positions.
pub proof fn lemma_trail_unique(
    parents: Map<Pos, Pos>,
    start: Pos,
    end: Pos,
    a: Seq<Pos>,
    b: Seq<Pos>,
)
    requires
        is_trail(parents, start, end, a),
        is_trail(parents, start, end, b),
    ensures
        a == b,
    decreases a.len(),
{
    if end == start {
        assert(a.len() == 1) by {
            if a.len() > 1 {
                assert(a[a.len() - 1] != start);
            }
        }
        assert(b.len() == 1) by {
            if b.len() > 1 {
                assert(b[b.len() - 1] != start);
            }
        }
        assert(a =~= b);
    } else {
        let before = parents[end];
        assert(a[a.len() - 1] == end);
        assert(b[b.len() - 1] == end);
        assert(is_trail(parents, start, before, a.drop_last()));
        assert(is_trail(parents, start, before, b.drop_last()));
        lemma_trail_unique(parents, start, before, a.drop_last(), b.drop_last());
        assert(a =~= a.drop_last().push(end));
        assert(b =~= b.drop_last().push(end));
    }
}

/// In a rooted parent map every discovered position has a trail from the
/// start, with one position more than its cost.
pub proof fn lemma_trail_exists(
    parents: Map<Pos, Pos>,
    costs: Map<Pos, nat>,
    start: Pos,
    end: Pos,
) -> (path: Seq<Pos>)
    requires
        rooted(parents, costs, start),
        end == start || parents.contains_key(end),
    ensures
        is_trail(parents, start, end, path),
        path == trail(parents, start, end),
        path.len() == costs[end] + 1,
    decreases costs[end],
{
    let mut path = seq![start];
    if end != start {
        let before = lemma_trail_exists(parents, costs, start, parents[end]);
        path = before.push(end);
    }
    assert(is_trail(parents, start, end, path));
    lemma_trail_unique(parents, start, end, path, trail(parents, start, end));
    path
}

/// A trail through a rooted parent map is a walk from `start` to `end`
/// whose positions cost as much as their place in it.
pub proof fn lemma_trail_is_walk(
    parents: Map<Pos, Pos>,
    costs: Map<Pos, nat>,
    start: Pos,
    end: Pos,
    path: Seq<Pos>,
)
    requires
        rooted(parents, costs, start),
        is_trail(parents, start, end, path),
    ensures
        is_walk(path),
        path.len() == costs[end] + 1,
        forall|i: int| 0 <= i < path.len() ==> costs[#[trigger] path[i]] == i,
    decreases path.len(),
{
    assert forall|i: int| 0 <= i < path.len() - 1 implies adjacent(#[trigger] path[i], path[i + 1]) by {
        assert(parents[path[i + 1]] == path[i]);
    }
    if path.len() > 1 {
        let before = path.drop_last();
        assert(is_trail(parents, start, parents[end], before));
        lemma_trail_is_walk(parents, costs, start, parents[end], before);
        assert forall|i: int| 0 <= i < path.len() implies costs[#[trigger] path[i]] == i by {
            if i < path.len() - 1 {
                assert(path[i] == before[i]);
            }
        }
    }
}

/// Walks the parent map from `end` back to `start` and returns the positions
/// met, from `start` to `end`.
pub(crate) fn trace_back(
    parents: &PosMap<Pos>,
    start: Pos,
    end: Pos,
    Ghost(costs): Ghost<Map<Pos, nat>>,
) -> (path: Vec<Pos>)
    requires
        rooted(parents@, costs, start),
        end == start || parents@.contains_key(end),
    ensures
        is_trail(parents@, start, end, path@),
        path@ == trail(parents@, start, end),
{
    let mut back: Vec<Pos> = Vec::new();
    let mut current = end;
    while current.0 != start.0 || current.1 != start.1
        invariant
            rooted(parents@, costs, start),
            current == start || parents@.contains_key(current),
            forall|i: int|
                0 <= i < back@.len() ==> {
                    &&& #[trigger] back@[i] != start
                    &&& parents@.contains_key(back@[i])
                    &&& parents@[back@[i]] == if i + 1 < back@.len() {
                        back@[i + 1]
                    } else {
                        current
                    }
                },
            back@.len() > 0 ==> back@[0] == end,
            back@.len() == 0 ==> current == end,
        ensures
            current == start,
        decreases costs[current],
    {
        back.push(current);
        match parents.get(current) {
            Some(parent) => {
                current = parent;
            },
            None => {
                break;
            },
        }
    }
    back.push(start);
    let mut path: Vec<Pos> = Vec::new();
    let mut left: usize = back.len();
    while left > 0
        invariant
            left <= back@.len(),
            path@.len() == back@.len() - left,
            forall|i: int| 0 <= i < path@.len() ==> #[trigger] path@[i] == back@[back@.len() - 1 - i],
        decreases left,
    {
        left -= 1;
        path.push(back[left]);
    }
    proof {
        assert(is_trail(parents@, start, end, path@)) by {
            assert forall|i: int| 0 < i < path@.len() implies {
                &&& #[trigger] path@[i] != start
                &&& parents@.contains_key(path@[i])
                &&& parents@[path@[i]] == path@[i - 1]
            } by {
                let j = back@.len() - 1 - i;
                assert(path@[i] == back@[j]);
                assert(path@[i - 1] == back@[j + 1]);
            }
        }
        let found = lemma_trail_exists(parents@, costs, start, end);
        lemma_trail_unique(parents@, start, end, path@, found);
    }
    path
}

/// Tags every position on the trail from `start` to `end` as `Path`.
pub(crate) fn paint_trail(
    states: &mut PosMap<NodeState>,
    parents: &PosMap<Pos>,
    start: Pos,
    end: Pos,
    Ghost(costs): Ghost<Map<Pos, nat>>,
)
    requires
        rooted(parents@, costs, start),
        end == start || parents@.contains_key(end),
    ensures
        final(states)@ == overlay(old(states)@, trail(parents@, start, end)),
{
    let path = trace_back(parents, start, end, Ghost(costs));
    let mut i: usize = 0;
    while i < path.len()
        invariant
            i <= path@.len(),
            states@ == overlay(old(states)@, path@.take(i as int)),
        decreases path@.len() - i,
    {
        if i == 0 {
            proof {
                assert(states@ =~= old(states)@);
            }
        }
        states.insert(path[i], NodeState::Path);
        proof {
            let before = path@.take(i as int);
            let after = path@.take(i + 1);
            assert(after =~= before.push(path@[i as int]));
            assert forall|p: Pos| after.contains(p) == (before.contains(p) || p == path@[i as int]) by {
                if before.contains(p) {
                    let k = choose|k: int| 0 <= k < before.len() && before[k] == p;
                    assert(after[k] == p);
                }
                if p == path@[i as int] {
                    assert(after[i as int] == p);
                }
            }
            assert(states@ =~= overlay(old(states)@, after));
        }
        i += 1;
    }
    proof {
        assert(path@.take(path@.len() as int) =~= path@);
    }
}

} // verus!
