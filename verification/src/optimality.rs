//! Proof that breadth-first, uniform-cost and A* search find a shortest
//! path: whatever the walls, no passage from the start to the end is
//! shorter than the path they report, and on a grid without walls that
//! path has as many edges as the Manhattan distance from the start to the
//! end.

use crate::completeness::{
    is_passage, lemma_found_iff_passage, lemma_walk_is_passage, passes,
};
use crate::grid::{adjacent, Grid, Pos};
use crate::pathfinding::{
    advance, begin, better, expand, is_walk, lemma_neighbors_adjacent, manhattan, passable, pick,
    plain_entry, reach, run, AlgorithmType, Entry, NodeState, Search,
};
use crate::soundness::{
    lemma_begin_sound, lemma_best_exists, lemma_expand_frame, lemma_path_is_walk,
    lemma_pick_in_range, lemma_run_sound, lemma_step_sound,
};
use crate::termination::{lemma_search_ends, step_bound};
use vstd::prelude::*;

verus! {

/// A grid without walls that holds both endpoints of a search.
pub open spec fn open_grid(grid: Grid, start: Pos, end: Pos) -> bool {
    &&& grid.in_bounds(start.0, start.1)
    &&& grid.in_bounds(end.0, end.1)
    &&& forall|p: Pos| #[trigger] passable(grid, p)
}

/// The algorithms that find shortest paths.
pub open spec fn shortest_first(kind: AlgorithmType) -> bool {
    kind != AlgorithmType::Dfs
}

/// The position `i` steps along the staircase from `start` to `end`: first
/// along the row of `start`, then along the column of `end`.
pub open spec fn stair(start: Pos, end: Pos, i: int) -> Pos {
    let across = if end.0 >= start.0 {
        end.0 - start.0
    } else {
        start.0 - end.0
    };
    if i <= across {
        (
            (if end.0 >= start.0 {
                start.0 + i
            } else {
                start.0 - i
            }) as usize,
            start.1,
        )
    } else {
        (
            end.0,
            (if end.1 >= start.1 {
                start.1 + (i - across)
            } else {
                start.1 - (i - across)
            }) as usize,
        )
    }
}

/// The staircase is a shortest walk from `start` to `end` inside every
/// grid that holds both.
pub proof fn lemma_stair(grid: Grid, start: Pos, end: Pos, i: int)
    requires
        grid.in_bounds(start.0, start.1),
        grid.in_bounds(end.0, end.1),
        0 <= i <= manhattan(start, end),
    ensures
        grid.in_bounds(stair(start, end, i).0, stair(start, end, i).1),
        manhattan(start, stair(start, end, i)) == i,
        manhattan(stair(start, end, i), end) == manhattan(start, end) - i,
        i < manhattan(start, end) ==> adjacent(stair(start, end, i), stair(start, end, i + 1)),
        i == 0 ==> stair(start, end, i) == start,
        i == manhattan(start, end) ==> stair(start, end, i) == end,
{
}

/// Adjacent positions differ by one in their distance to any position.
pub proof fn lemma_adjacent_manhattan(a: Pos, b: Pos, to: Pos)
    requires
        adjacent(a, b),
    ensures
        manhattan(to, b) <= manhattan(to, a) + 1,
        manhattan(to, a) <= manhattan(to, b) + 1,
        manhattan(b, to) <= manhattan(a, to) + 1,
        manhattan(a, to) <= manhattan(b, to) + 1,
{
}

/// The key with which a priority search queues `n` at a given cost.
pub open spec fn key_for(kind: AlgorithmType, cost: nat, n: Pos, end: Pos) -> nat {
    match kind {
        AlgorithmType::AStar => cost + manhattan(n, end),
        AlgorithmType::Dijkstra => cost,
        _ => 0,
    }
}

/// The frontier entry that stands for `n` at the cost known for it.
pub open spec fn current_entry(kind: AlgorithmType, s: Search, n: Pos) -> Entry {
    if kind == AlgorithmType::Bfs {
        plain_entry(n)
    } else {
        Entry { position: n, cost: s.costs[n], key: key_for(kind, s.costs[n], n, s.end) }
    }
}

/// Whether the frontier holds the entry that stands for `n` at the cost
/// known for it.
pub open spec fn queued(kind: AlgorithmType, s: Search, n: Pos) -> bool {
    exists|k: int| 0 <= k < s.frontier.len() && #[trigger] s.frontier[k] == current_entry(kind, s, n)
}

/// The cost known for the position of the frontier entry at index `k`.
pub open spec fn cost_at(s: Search, k: int) -> nat {
    s.costs[s.frontier[k].position]
}

/// What the expansion of a finalised position `v` has done for its
/// neighbour `m`, unless that is a wall or finalised too: `m` is known at
/// a cost of at most one more.
pub open spec fn edge_done(s: Search, grid: Grid, v: Pos, m: Pos) -> bool {
    s.visited.contains(v) && grid.neighbors_spec(v.0, v.1).contains(m) && passable(grid, m)
        && !s.visited.contains(m) ==> s.costs.contains_key(m) && s.costs[m] <= s.costs[v] + 1
}

/// Whether no passage from the start to `v` has fewer positions than the
/// cost known for `v` says.
pub open spec fn no_shorter(s: Search, grid: Grid, v: Pos) -> bool {
    forall|way: Seq<Pos>| #[trigger]
        is_passage(grid, way) && way[0] == s.start && way.last() == v ==> s.costs[v] + 1
            <= way.len()
}

/// What holds of a running search, between steps and during one.
pub open spec fn running(kind: AlgorithmType, s: Search, grid: Grid) -> bool {
    &&& s.costs.contains_key(s.start) && s.costs[s.start] == 0
    &&& s.visited.contains(s.start) || (s.frontier.len() == 1 && s.frontier[0].position == s.start)
    &&& forall|v: Pos| #[trigger] s.visited.contains(v) ==> s.discovered(v)
    &&& forall|k: int| 0 <= k < s.frontier.len() ==> s.discovered((#[trigger] s.frontier[k]).position)
    &&& forall|n: Pos| #[trigger] s.costs.contains_key(n) <==> s.discovered(n)
    &&& forall|v: Pos| #[trigger] s.visited.contains(v) ==> no_shorter(s, grid, v)
    &&& forall|n: Pos|
        s.discovered(n) && !s.visited.contains(n) ==> #[trigger] queued(kind, s, n)
    &&& !s.visited.contains(s.end)
    &&& kind != AlgorithmType::Bfs ==> forall|k: int|
        0 <= k < s.frontier.len() ==> {
            let e = #[trigger] s.frontier[k];
            &&& s.costs.contains_key(e.position)
            &&& e.cost >= s.costs[e.position]
            &&& e.key == key_for(kind, e.cost, e.position, s.end)
        }
    &&& kind == AlgorithmType::Bfs ==> {
        &&& forall|k: int|
            0 <= k < s.frontier.len() ==> {
                let e = #[trigger] s.frontier[k];
                &&& e == plain_entry(e.position)
                &&& !s.visited.contains(e.position)
            }
        &&& forall|k: int, l: int|
            0 <= k < l < s.frontier.len() ==> {
                &&& (#[trigger] s.frontier[k]).position != (#[trigger] s.frontier[l]).position
                &&& cost_at(s, k) <= cost_at(s, l)
            }
        &&& forall|n: Pos|
            !s.visited.contains(n) ==> (s.discovered(n) <==> #[trigger] s.node_state(n)
                == NodeState::InQueue)
    }
}

/// What holds of a running search between two steps.
pub open spec fn steady(kind: AlgorithmType, s: Search, grid: Grid) -> bool {
    &&& running(kind, s, grid)
    &&& forall|v: Pos, m: Pos| #[trigger] edge_done(s, grid, v, m)
    &&& kind == AlgorithmType::Bfs ==> forall|k: int|
        0 <= k < s.frontier.len() ==> #[trigger] cost_at(s, k) <= cost_at(s, 0) + 1
}

/// What holds of a running search while it expands `cur` and has reached
/// the neighbours `done` so far.
pub open spec fn amid(kind: AlgorithmType, s: Search, grid: Grid, cur: Pos, done: Seq<Pos>) -> bool {
    &&& running(kind, s, grid)
    &&& s.visited.contains(cur)
    &&& s.visited.contains(s.start)
    &&& s.costs.contains_key(cur)
    &&& forall|v: Pos, m: Pos| v != cur || done.contains(m) ==> #[trigger] edge_done(s, grid, v, m)
    &&& kind == AlgorithmType::Bfs ==> forall|k: int|
        0 <= k < s.frontier.len() ==> s.costs[cur] <= #[trigger] cost_at(s, k) <= s.costs[cur] + 1
}

/// What the proof maintains: the state is sound; a search that has found
/// the end knows it at a cost that no passage undercuts; a search that is
/// running is steady.
pub open spec fn optimal(kind: AlgorithmType, s: Search, grid: Grid) -> bool {
    &&& s.sound()
    &&& s.found ==> no_shorter(s, grid, s.end)
    &&& !s.finished ==> steady(kind, s, grid)
}

/// A search begins in a state that the proof maintains.
pub proof fn lemma_begin_optimal(kind: AlgorithmType, start: Pos, end: Pos, grid: Grid)
    requires
        shortest_first(kind),
    ensures
        optimal(kind, begin(kind, start, end), grid),
{
    let s = begin(kind, start, end);
    lemma_begin_sound(kind, start, end);
    assert(s.frontier[0] == current_entry(kind, s, start));
    assert forall|n: Pos| s.discovered(n) && !s.visited.contains(n) implies #[trigger] queued(
        kind,
        s,
        n,
    ) by {
        assert(n == start);
        assert(s.frontier[0] == current_entry(kind, s, n));
    }
}

/// The beginning of a passage is a passage.
pub proof fn lemma_passage_prefix(grid: Grid, way: Seq<Pos>, i: int)
    requires
        is_passage(grid, way),
        0 < i <= way.len(),
    ensures
        is_passage(grid, way.take(i)),
        way.take(i)[0] == way[0],
        way.take(i).last() == way[i - 1],
{
    let part = way.take(i);
    assert forall|k: int| 0 < k < part.len() implies #[trigger] passes(grid, part, k) by {
        assert(part[k] == way[k] && part[k - 1] == way[k - 1]);
        assert(passes(grid, way, k));
    }
}

/// Along a passage the Manhattan distance to any position falls by at
/// most one with every step.
pub proof fn lemma_passage_manhattan(grid: Grid, way: Seq<Pos>, j: int, to: Pos)
    requires
        is_passage(grid, way),
        0 <= j < way.len(),
    ensures
        manhattan(way[j], to) <= way.len() - 1 - j + manhattan(way.last(), to),
    decreases way.len() - j,
{
    if j < way.len() - 1 {
        lemma_passage_manhattan(grid, way, j + 1, to);
        assert(passes(grid, way, j + 1));
        lemma_neighbors_adjacent(grid, way[j]);
        let around = grid.neighbors_spec(way[j].0, way[j].1);
        let k = choose|k: int| 0 <= k < around.len() && around[k] == way[j + 1];
        assert(adjacent(way[j], around[k]));
        lemma_adjacent_manhattan(way[j], way[j + 1], to);
    }
}

/// The position of a passage from the start that follows a finalised one
/// and is not finalised itself is known at a cost of at most its place in
/// the passage.
proof fn lemma_next_cost(s: Search, grid: Grid, way: Seq<Pos>, i: int)
    requires
        is_passage(grid, way),
        way[0] == s.start,
        0 < i < way.len(),
        s.visited.contains(way[i - 1]),
        !s.visited.contains(way[i]),
        no_shorter(s, grid, way[i - 1]),
        edge_done(s, grid, way[i - 1], way[i]),
    ensures
        s.costs.contains_key(way[i]),
        s.costs[way[i]] <= i,
{
    let before = way[i - 1];
    assert(passes(grid, way, i));
    lemma_passage_prefix(grid, way, i);
    let part = way.take(i);
    assert(is_passage(grid, part) && part[0] == s.start && part.last() == before);
    assert(s.costs[before] + 1 <= part.len());
}

/// The first position of a passage from the start, from index `i` on,
/// that is not finalised: it is known at a cost of at most its place in
/// the passage.
pub proof fn lemma_first_unvisited(s: Search, grid: Grid, way: Seq<Pos>, i: int) -> (j: int)
    requires
        s.costs.contains_key(s.start),
        s.costs[s.start] == 0,
        forall|v: Pos| #[trigger] s.visited.contains(v) ==> no_shorter(s, grid, v),
        forall|v: Pos, m: Pos| #[trigger] edge_done(s, grid, v, m),
        is_passage(grid, way),
        way[0] == s.start,
        !s.visited.contains(way.last()),
        0 <= i < way.len(),
        forall|k: int| 0 <= k < i ==> s.visited.contains(#[trigger] way[k]),
    ensures
        i <= j < way.len(),
        !s.visited.contains(way[j]),
        s.costs.contains_key(way[j]),
        s.costs[way[j]] <= j,
        forall|k: int| 0 <= k < j ==> s.visited.contains(#[trigger] way[k]),
    decreases way.len() - i,
{
    let here = way[i];
    if s.visited.contains(here) {
        lemma_first_unvisited(s, grid, way, i + 1)
    } else {
        if i > 0 {
            assert(s.visited.contains(way[i - 1]));
            assert(edge_done(s, grid, way[i - 1], way[i]));
            lemma_next_cost(s, grid, way, i);
        }
        i
    }
}

/// The entry that a search pops has a key no larger than any other.
pub proof fn lemma_pick_least(kind: AlgorithmType, s: Search, grid: Grid, k: int)
    requires
        kind != AlgorithmType::Bfs,
        kind != AlgorithmType::Dfs,
        0 <= k < s.frontier.len(),
    ensures
        s.frontier[pick(kind, s.frontier)].key <= s.frontier[k].key,
{
    let i = lemma_best_exists(s.frontier);
    if k < i {
        assert(better(s.frontier[i], s.frontier[k]));
    } else if k > i {
        assert(!better(s.frontier[k], s.frontier[i]));
    }
}

/// Popping a frontier entry whose position is finalised already leaves a
/// priority search steady. A breadth-first search never pops such an entry.
pub proof fn lemma_pop_stale(kind: AlgorithmType, s: Search, grid: Grid)
    requires
        shortest_first(kind),
        steady(kind, s, grid),
        s.frontier.len() > 0,
        s.visited.contains(s.frontier[pick(kind, s.frontier)].position),
    ensures
        kind != AlgorithmType::Bfs,
        steady(kind, s.without(pick(kind, s.frontier)), grid),
{
    lemma_pick_in_range(kind, s.frontier);
    let i = pick(kind, s.frontier);
    let cur = s.frontier[i].position;
    let t = s.without(i);
    if kind == AlgorithmType::Bfs {
        assert(!s.visited.contains(s.frontier[0].position));
    }
    assert forall|k: int| 0 <= k < t.frontier.len() implies t.discovered(
        (#[trigger] t.frontier[k]).position,
    ) by {
        if k < i {
            assert(t.frontier[k] == s.frontier[k]);
        } else {
            assert(t.frontier[k] == s.frontier[k + 1]);
        }
    }
    assert forall|k: int| 0 <= k < t.frontier.len() implies {
        let e = #[trigger] t.frontier[k];
        &&& t.costs.contains_key(e.position)
        &&& e.cost >= t.costs[e.position]
        &&& e.key == key_for(kind, e.cost, e.position, t.end)
    } by {
        if k < i {
            assert(t.frontier[k] == s.frontier[k]);
        } else {
            assert(t.frontier[k] == s.frontier[k + 1]);
        }
    }
    assert forall|n: Pos| t.discovered(n) && !t.visited.contains(n) implies #[trigger] queued(
        kind,
        t,
        n,
    ) by {
        assert(queued(kind, s, n));
        let k = choose|k: int|
            0 <= k < s.frontier.len() && #[trigger] s.frontier[k] == current_entry(kind, s, n);
        if k < i {
            assert(t.frontier[k] == current_entry(kind, t, n));
        } else {
            assert(t.frontier[k - 1] == current_entry(kind, t, n));
        }
    }
    assert forall|v: Pos, m: Pos| #[trigger] edge_done(t, grid, v, m) by {
        assert(edge_done(s, grid, v, m));
    }
}

/// A position that is popped before it is finalised is known at a cost
/// that no passage from the start undercuts.
pub proof fn lemma_popped_cost(kind: AlgorithmType, s: Search, grid: Grid, way: Seq<Pos>)
    requires
        shortest_first(kind),
        steady(kind, s, grid),
        s.frontier.len() > 0,
        !s.visited.contains(s.frontier[pick(kind, s.frontier)].position),
        is_passage(grid, way),
        way[0] == s.start,
        way.last() == s.frontier[pick(kind, s.frontier)].position,
    ensures
        s.costs[way.last()] + 1 <= way.len(),
{
    lemma_pick_in_range(kind, s.frontier);
    let i = pick(kind, s.frontier);
    let e = s.frontier[i];
    let cur = e.position;
    assert(s.discovered(cur));
    assert(s.costs.contains_key(cur));
    let j = lemma_first_unvisited(s, grid, way, 0);
    let witness = way[j];
    assert(s.discovered(witness));
    assert(queued(kind, s, witness));
    let k = choose|k: int|
        0 <= k < s.frontier.len() && #[trigger] s.frontier[k] == current_entry(kind, s, witness);
    if kind == AlgorithmType::Bfs {
        assert(s.frontier[k].position == witness);
        assert(cost_at(s, 0) <= cost_at(s, k)) by {
            if k > 0 {
                assert(s.frontier[0].position != s.frontier[k].position);
            }
        }
    } else {
        lemma_pick_least(kind, s, grid, k);
        assert(e.key == key_for(kind, e.cost, cur, s.end));
        lemma_passage_manhattan(grid, way, j, s.end);
    }
}

/// Popping an entry whose position is not finalised yet, and finalising
/// it, leaves a search that is about to expand that position.
pub proof fn lemma_pop_fresh(kind: AlgorithmType, s: Search, grid: Grid)
    requires
        shortest_first(kind),
        steady(kind, s, grid),
        s.frontier.len() > 0,
        !s.visited.contains(s.frontier[pick(kind, s.frontier)].position),
        s.frontier[pick(kind, s.frontier)].position != s.end,
    ensures
        ({
            let i = pick(kind, s.frontier);
            let cur = s.frontier[i].position;
            amid(kind, s.without(i).visit(cur), grid, cur, Seq::empty())
        }),
{
    lemma_pick_in_range(kind, s.frontier);
    let i = pick(kind, s.frontier);
    let cur = s.frontier[i].position;
    let at = s.without(i).visit(cur);
    assert(s.discovered(cur));
    assert forall|l: int| 0 <= l < at.frontier.len() implies at.discovered(
        (#[trigger] at.frontier[l]).position,
    ) by {
        if l < i {
            assert(at.frontier[l] == s.frontier[l]);
        } else {
            assert(at.frontier[l] == s.frontier[l + 1]);
        }
    }
    assert forall|v: Pos| #[trigger] at.visited.contains(v) implies no_shorter(at, grid, v) by {
        if v == cur {
            assert forall|way: Seq<Pos>| #[trigger]
                is_passage(grid, way) && way[0] == at.start && way.last() == v implies at.costs[v]
                + 1 <= way.len() by {
                lemma_popped_cost(kind, s, grid, way);
            }
        } else {
            assert(s.visited.contains(v));
            assert(no_shorter(s, grid, v));
        }
    }
    assert forall|n: Pos| at.discovered(n) && !at.visited.contains(n) implies #[trigger] queued(
        kind,
        at,
        n,
    ) by {
        assert(queued(kind, s, n));
        let l = choose|l: int|
            0 <= l < s.frontier.len() && #[trigger] s.frontier[l] == current_entry(kind, s, n);
        assert(s.frontier[l].position == n);
        if l < i {
            assert(at.frontier[l] == current_entry(kind, at, n));
        } else {
            assert(at.frontier[l - 1] == current_entry(kind, at, n));
        }
    }
    if kind == AlgorithmType::Bfs {
        lemma_pop_fresh_queue(s, grid);
    } else {
        assert forall|l: int| 0 <= l < at.frontier.len() implies {
            let e = #[trigger] at.frontier[l];
            &&& at.costs.contains_key(e.position)
            &&& e.cost >= at.costs[e.position]
            &&& e.key == key_for(kind, e.cost, e.position, at.end)
        } by {
            if l < i {
                assert(at.frontier[l] == s.frontier[l]);
            } else {
                assert(at.frontier[l] == s.frontier[l + 1]);
            }
        }
    }
    assert forall|v: Pos, m: Pos|
        v != cur || Seq::<Pos>::empty().contains(m) implies #[trigger] edge_done(at, grid, v, m) by {
        assert(edge_done(s, grid, v, m));
    }
}

/// What popping the oldest entry of a breadth-first search keeps of its
/// queue: plain entries of positions that are not finalised, no position
/// twice, in the order of their costs, none costing less than what was
/// popped nor more than one step above it.
proof fn lemma_pop_fresh_queue(s: Search, grid: Grid)
    requires
        steady(AlgorithmType::Bfs, s, grid),
        s.frontier.len() > 0,
    ensures
        ({
            let cur = s.frontier[0].position;
            let at = s.without(0).visit(cur);
            &&& forall|l: int|
                0 <= l < at.frontier.len() ==> {
                    let e = #[trigger] at.frontier[l];
                    &&& e == plain_entry(e.position)
                    &&& !at.visited.contains(e.position)
                }
            &&& forall|a: int, b: int|
                0 <= a < b < at.frontier.len() ==> {
                    &&& (#[trigger] at.frontier[a]).position != (#[trigger] at.frontier[b]).position
                    &&& cost_at(at, a) <= cost_at(at, b)
                }
            &&& forall|l: int|
                0 <= l < at.frontier.len() ==> at.costs[cur] <= #[trigger] cost_at(at, l)
                    <= at.costs[cur] + 1
            &&& forall|n: Pos|
                !at.visited.contains(n) ==> (at.discovered(n) <==> #[trigger] at.node_state(n)
                    == NodeState::InQueue)
        }),
{
    let cur = s.frontier[0].position;
    let at = s.without(0).visit(cur);
    assert forall|l: int| 0 <= l < at.frontier.len() implies {
        let e = #[trigger] at.frontier[l];
        &&& e == plain_entry(e.position)
        &&& !at.visited.contains(e.position)
    } by {
        assert(at.frontier[l] == s.frontier[l + 1]);
        assert(s.frontier[0].position != s.frontier[l + 1].position);
    }
    assert forall|a: int, b: int| 0 <= a < b < at.frontier.len() implies {
        &&& (#[trigger] at.frontier[a]).position != (#[trigger] at.frontier[b]).position
        &&& cost_at(at, a) <= cost_at(at, b)
    } by {
        assert(at.frontier[a] == s.frontier[a + 1]);
        assert(at.frontier[b] == s.frontier[b + 1]);
        assert(cost_at(s, a + 1) <= cost_at(s, b + 1));
    }
    assert forall|l: int| 0 <= l < at.frontier.len() implies at.costs[cur] <= #[trigger] cost_at(
        at,
        l,
    ) <= at.costs[cur] + 1 by {
        assert(at.frontier[l] == s.frontier[l + 1]);
        assert(cost_at(s, l + 1) <= cost_at(s, 0) + 1);
        assert(cost_at(s, 0) <= cost_at(s, l + 1));
    }
    assert forall|n: Pos| !at.visited.contains(n) implies (at.discovered(n) <==> #[trigger] at.node_state(
        n,
    ) == NodeState::InQueue) by {
        assert(s.node_state(n) == at.node_state(n));
    }
}

/// Pushing a frontier entry keeps the entries that were queued.
proof fn lemma_push_keeps_queued(kind: AlgorithmType, s: Search, t: Search, n: Pos, m: Pos)
    requires
        queued(kind, s, m),
        t.frontier == s.frontier.push(current_entry(kind, t, n)),
        current_entry(kind, t, m) == current_entry(kind, s, m),
    ensures
        queued(kind, t, m),
        queued(kind, t, n),
{
    let k = choose|k: int|
        0 <= k < s.frontier.len() && #[trigger] s.frontier[k] == current_entry(kind, s, m);
    assert(t.frontier[k] == current_entry(kind, t, m));
    assert(t.frontier[s.frontier.len() as int] == current_entry(kind, t, n));
}

/// Discovering a neighbour of the position under expansion, at a cost
/// below what was known of it, keeps the search on track.
proof fn lemma_discover_amid(
    kind: AlgorithmType,
    s: Search,
    grid: Grid,
    cur: Pos,
    done: Seq<Pos>,
    n: Pos,
)
    requires
        shortest_first(kind),
        amid(kind, s, grid, cur, done),
        adjacent(cur, n),
        !s.visited.contains(n),
        !s.costs.contains_key(n) || s.costs[cur] + 1 < s.costs[n],
        kind == AlgorithmType::Bfs ==> !s.costs.contains_key(n),
    ensures
        ({
            let t = s.discover(n, cur, current_entry(kind, s.discover(n, cur, plain_entry(n)), n));
            amid(kind, t, grid, cur, done.push(n))
        }),
{
    let fresh = current_entry(kind, s.discover(n, cur, plain_entry(n)), n);
    let t = s.discover(n, cur, fresh);
    let more = done.push(n);
    assert(n != cur && n != s.start);
    assert(fresh == current_entry(kind, t, n));
    assert forall|k: int| 0 <= k < t.frontier.len() implies t.discovered(
        (#[trigger] t.frontier[k]).position,
    ) by {
        if k < s.frontier.len() {
            assert(t.frontier[k] == s.frontier[k]);
        }
    }
    assert forall|m: Pos| #[trigger] t.costs.contains_key(m) <==> t.discovered(m) by {
        assert(s.costs.contains_key(m) <==> s.discovered(m));
    }
    assert forall|v: Pos| #[trigger] t.visited.contains(v) implies no_shorter(t, grid, v) by {
        assert(s.visited.contains(v));
        assert(no_shorter(s, grid, v));
        assert(t.costs[v] == s.costs[v]);
    }
    assert forall|m: Pos| t.discovered(m) && !t.visited.contains(m) implies #[trigger] queued(
        kind,
        t,
        m,
    ) by {
        if m == n {
            assert(t.frontier[s.frontier.len() as int] == current_entry(kind, t, n));
        } else {
            assert(s.discovered(m));
            assert(queued(kind, s, m));
            lemma_push_keeps_queued(kind, s, t, n, m);
        }
    }
    if kind == AlgorithmType::Bfs {
        assert forall|k: int| 0 <= k < s.frontier.len() implies s.frontier[k].position != n by {
            assert(s.discovered((#[trigger] s.frontier[k]).position));
        }
        assert forall|k: int| 0 <= k < t.frontier.len() implies {
            let e = #[trigger] t.frontier[k];
            &&& e == plain_entry(e.position)
            &&& !t.visited.contains(e.position)
        } by {
            if k < s.frontier.len() {
                assert(t.frontier[k] == s.frontier[k]);
            }
        }
        assert forall|k: int| 0 <= k < t.frontier.len() implies t.costs[cur] <= #[trigger] cost_at(
            t,
            k,
        ) <= t.costs[cur] + 1 by {
            if k < s.frontier.len() {
                assert(t.frontier[k] == s.frontier[k]);
                assert(s.frontier[k].position != n);
                assert(s.costs[cur] <= cost_at(s, k) <= s.costs[cur] + 1);
            }
        }
        assert forall|k: int, l: int| 0 <= k < l < t.frontier.len() implies {
            &&& (#[trigger] t.frontier[k]).position != (#[trigger] t.frontier[l]).position
            &&& cost_at(t, k) <= cost_at(t, l)
        } by {
            assert(t.frontier[k] == s.frontier[k]);
            assert(s.frontier[k].position != n);
            assert(cost_at(t, k) <= t.costs[cur] + 1);
            if l < s.frontier.len() {
                assert(t.frontier[l] == s.frontier[l]);
                assert(s.frontier[l].position != n);
                assert(cost_at(s, k) <= cost_at(s, l));
            }
        }
        assert forall|m: Pos| !t.visited.contains(m) implies (t.discovered(m) <==> #[trigger] t.node_state(
            m,
        ) == NodeState::InQueue) by {
            if m != n {
                assert(s.node_state(m) == t.node_state(m));
            }
        }
    } else {
        assert forall|k: int| 0 <= k < t.frontier.len() implies {
            let e = #[trigger] t.frontier[k];
            &&& t.costs.contains_key(e.position)
            &&& e.cost >= t.costs[e.position]
            &&& e.key == key_for(kind, e.cost, e.position, t.end)
        } by {
            if k < s.frontier.len() {
                assert(t.frontier[k] == s.frontier[k]);
            }
        }
    }
    assert forall|v: Pos, m: Pos| v != cur || more.contains(m) implies #[trigger] edge_done(
        t,
        grid,
        v,
        m,
    ) by {
        if t.visited.contains(v) && grid.neighbors_spec(v.0, v.1).contains(m) && passable(grid, m)
            && !t.visited.contains(m) {
            assert(s.costs.contains_key(v));
            if m == n {
                if v != cur {
                    assert(edge_done(s, grid, v, n));
                }
            } else {
                if v == cur {
                    let k = choose|k: int| 0 <= k < more.len() && more[k] == m;
                    assert(done[k] == m);
                }
                assert(edge_done(s, grid, v, m));
            }
        }
    }
}

/// Reaching a neighbour of the position under expansion keeps the search
/// on track.
pub proof fn lemma_reach_amid(
    kind: AlgorithmType,
    s: Search,
    grid: Grid,
    cur: Pos,
    done: Seq<Pos>,
    n: Pos,
)
    requires
        shortest_first(kind),
        amid(kind, s, grid, cur, done),
        adjacent(cur, n),
    ensures
        amid(kind, reach(kind, s, grid, cur, n), grid, cur, done.push(n)),
{
    let t = reach(kind, s, grid, cur, n);
    let more = done.push(n);
    let discovers = passable(grid, n) && !s.visited.contains(n) && if kind == AlgorithmType::Bfs {
        s.node_state(n) != NodeState::InQueue
    } else {
        !s.costs.contains_key(n) || s.costs[cur] + 1 < s.costs[n]
    };
    if discovers {
        lemma_discover_amid(kind, s, grid, cur, done, n);
    } else {
        assert(t == s);
        assert(edge_done(s, grid, cur, n)) by {
            if passable(grid, n) && !s.visited.contains(n) && kind == AlgorithmType::Bfs {
                assert(s.discovered(n));
                assert(queued(kind, s, n));
                let k = choose|k: int|
                    0 <= k < s.frontier.len() && #[trigger] s.frontier[k] == current_entry(kind, s, n);
                assert(cost_at(s, k) <= s.costs[cur] + 1);
            }
        }
        assert forall|v: Pos, m: Pos| v != cur || more.contains(m) implies #[trigger] edge_done(
            s,
            grid,
            v,
            m,
        ) by {
            if v == cur && m != n {
                let k = choose|k: int| 0 <= k < more.len() && more[k] == m;
                assert(done[k] == m);
            }
        }
    }
}

/// Expanding the neighbours of a position keeps the search on track.
pub proof fn lemma_expand_amid(
    kind: AlgorithmType,
    s: Search,
    grid: Grid,
    cur: Pos,
    around: Seq<Pos>,
)
    requires
        shortest_first(kind),
        amid(kind, s, grid, cur, Seq::empty()),
        forall|i: int| 0 <= i < around.len() ==> adjacent(cur, #[trigger] around[i]),
    ensures
        amid(kind, expand(kind, s, grid, cur, around), grid, cur, around),
    decreases around.len(),
{
    if around.len() > 0 {
        let before = around.drop_last();
        assert forall|i: int| 0 <= i < before.len() implies adjacent(cur, #[trigger] before[i]) by {
            assert(before[i] == around[i]);
        }
        lemma_expand_amid(kind, s, grid, cur, before);
        lemma_expand_frame(kind, s, grid, cur, before);
        let t = expand(kind, s, grid, cur, before);
        lemma_reach_amid(kind, t, grid, cur, before, around.last());
        assert(before.push(around.last()) =~= around);
    } else {
        assert(around =~= Seq::<Pos>::empty());
    }
}

/// Once every neighbour of the position under expansion was reached, the
/// search is steady again.
pub proof fn lemma_amid_steady(kind: AlgorithmType, s: Search, grid: Grid, cur: Pos)
    requires
        amid(kind, s, grid, cur, grid.neighbors_spec(cur.0, cur.1)),
    ensures
        steady(kind, s, grid),
{
    let around = grid.neighbors_spec(cur.0, cur.1);
    assert forall|v: Pos, m: Pos| #[trigger] edge_done(s, grid, v, m) by {
        if v == cur && around.contains(m) {
            assert(edge_done(s, grid, cur, m));
        }
    }
    if kind == AlgorithmType::Bfs {
        assert forall|k: int| 0 <= k < s.frontier.len() implies #[trigger] cost_at(s, k) <= cost_at(
            s,
            0,
        ) + 1 by {
            assert(s.costs[cur] <= cost_at(s, 0));
            assert(cost_at(s, k) <= s.costs[cur] + 1);
        }
    }
}

/// A step of a shortest-path algorithm keeps what the proof maintains.
pub proof fn lemma_step_optimal(kind: AlgorithmType, s: Search, grid: Grid)
    requires
        shortest_first(kind),
        optimal(kind, s, grid),
    ensures
        optimal(kind, advance(kind, s, grid), grid),
{
    lemma_step_sound(kind, s, grid);
    if !s.finished && s.frontier.len() > 0 {
        lemma_pick_in_range(kind, s.frontier);
        let i = pick(kind, s.frontier);
        let cur = s.frontier[i].position;
        let popped = s.without(i);
        if popped.visited.contains(cur) {
            lemma_pop_stale(kind, s, grid);
        } else if cur == s.end {
            let t = advance(kind, s, grid);
            assert forall|way: Seq<Pos>| #[trigger]
                is_passage(grid, way) && way[0] == t.start && way.last() == t.end implies t.costs[t.end]
                + 1 <= way.len() by {
                lemma_popped_cost(kind, s, grid, way);
            }
        } else {
            lemma_pop_fresh(kind, s, grid);
            let at = popped.visit(cur);
            let around = grid.neighbors_spec(cur.0, cur.1);
            lemma_neighbors_adjacent(grid, cur);
            lemma_expand_amid(kind, at, grid, cur, around);
            lemma_expand_frame(kind, at, grid, cur, around);
            lemma_amid_steady(kind, expand(kind, at, grid, cur, around), grid, cur);
        }
    }
}

/// Every state that a shortest-path algorithm runs through keeps what the
/// proof maintains.
pub proof fn lemma_run_optimal(kind: AlgorithmType, start: Pos, end: Pos, grid: Grid, steps: nat)
    requires
        shortest_first(kind),
    ensures
        optimal(kind, run(kind, start, end, grid, steps), grid),
    decreases steps,
{
    lemma_run_sound(kind, start, end, grid, steps);
    if steps == 0 {
        lemma_begin_optimal(kind, start, end, grid);
    } else {
        let before = run(kind, start, end, grid, (steps - 1) as nat);
        lemma_run_sound(kind, start, end, grid, (steps - 1) as nat);
        lemma_run_optimal(kind, start, end, grid, (steps - 1) as nat);
        lemma_step_optimal(kind, before, grid);
    }
}

/// Breadth-first, uniform-cost and A* search find a shortest path:
/// whatever the walls and however many steps the search has run, once it
/// has found the end its path is a passage from the start to the end, and
/// no such passage has fewer positions.
pub proof fn lemma_shortest_path(
    kind: AlgorithmType,
    start: Pos,
    end: Pos,
    grid: Grid,
    steps: nat,
)
    requires
        kind == AlgorithmType::Bfs || kind == AlgorithmType::Dijkstra || kind
            == AlgorithmType::AStar,
        run(kind, start, end, grid, steps).found,
    ensures
        is_passage(grid, run(kind, start, end, grid, steps).path()),
        run(kind, start, end, grid, steps).path()[0] == start,
        run(kind, start, end, grid, steps).path().last() == end,
        forall|way: Seq<Pos>| #[trigger]
            is_passage(grid, way) && way[0] == start && way.last() == end ==> run(
                kind,
                start,
                end,
                grid,
                steps,
            ).path().len() <= way.len(),
{
    let s = run(kind, start, end, grid, steps);
    lemma_run_sound(kind, start, end, grid, steps);
    lemma_run_optimal(kind, start, end, grid, steps);
    lemma_path_is_walk(s);
    lemma_found_iff_passage(kind, start, end, grid, steps);
    assert(no_shorter(s, grid, end));
}

/// A walk has at least as many edges as the Manhattan distance between
/// its ends.
pub proof fn lemma_walk_manhattan(path: Seq<Pos>)
    requires
        path.len() > 0,
        is_walk(path),
    ensures
        manhattan(path[0], path.last()) + 1 <= path.len(),
    decreases path.len(),
{
    if path.len() > 1 {
        let before = path.drop_last();
        assert forall|i: int| 0 <= i < before.len() - 1 implies adjacent(
            #[trigger] before[i],
            before[i + 1],
        ) by {
            assert(adjacent(path[i], path[i + 1]));
        }
        lemma_walk_manhattan(before);
        assert(adjacent(path[path.len() - 2], path[path.len() - 1]));
        lemma_adjacent_manhattan(path[path.len() - 2], path[path.len() - 1], path[0]);
    }
}

/// The staircase is a passage from `start` to `end` on every grid
/// without walls that holds both.
pub proof fn lemma_stair_passage(grid: Grid, start: Pos, end: Pos) -> (way: Seq<Pos>)
    requires
        open_grid(grid, start, end),
    ensures
        is_passage(grid, way),
        way[0] == start,
        way.last() == end,
        way.len() == manhattan(start, end) + 1,
{
    let way = Seq::new(manhattan(start, end) + 1, |i: int| stair(start, end, i));
    assert forall|i: int| 0 <= i < way.len() implies grid.in_bounds(
        (#[trigger] way[i]).0,
        way[i].1,
    ) && passable(grid, way[i]) && (i < way.len() - 1 ==> adjacent(way[i], way[i + 1])) by {
        lemma_stair(grid, start, end, i);
    }
    lemma_stair(grid, start, end, 0);
    lemma_stair(grid, start, end, manhattan(start, end) as int);
    lemma_walk_is_passage(grid, way);
    way
}

/// Breadth-first, uniform-cost and A* search find a shortest path on an
/// open grid: however many steps the search has run on a grid without
/// walls that holds both endpoints, once it has found the end its path
/// has as many edges as the Manhattan distance from the start to the end.
pub proof fn lemma_shortest_on_open_grid(
    kind: AlgorithmType,
    start: Pos,
    end: Pos,
    grid: Grid,
    steps: nat,
)
    requires
        kind == AlgorithmType::Bfs || kind == AlgorithmType::Dijkstra || kind
            == AlgorithmType::AStar,
        open_grid(grid, start, end),
        run(kind, start, end, grid, steps).found,
    ensures
        run(kind, start, end, grid, steps).path().len() == manhattan(start, end) + 1,
{
    let s = run(kind, start, end, grid, steps);
    lemma_run_sound(kind, start, end, grid, steps);
    lemma_path_is_walk(s);
    lemma_walk_manhattan(s.path());
    lemma_shortest_path(kind, start, end, grid, steps);
    let way = lemma_stair_passage(grid, start, end);
    assert(is_passage(grid, way) && way[0] == start && way.last() == end);
}

/// On an open grid breadth-first, uniform-cost and A* search find the
/// end by a shortest path: once the search has run for as many steps as
/// it takes at most, it is finished, it has found the end, and its path
/// has as many edges as the Manhattan distance from the start to the end.
pub proof fn lemma_open_grid_solved(
    kind: AlgorithmType,
    start: Pos,
    end: Pos,
    grid: Grid,
    steps: nat,
)
    requires
        kind == AlgorithmType::Bfs || kind == AlgorithmType::Dijkstra || kind
            == AlgorithmType::AStar,
        open_grid(grid, start, end),
        steps >= step_bound(grid),
    ensures
        run(kind, start, end, grid, steps).finished,
        run(kind, start, end, grid, steps).found,
        run(kind, start, end, grid, steps).path().len() == manhattan(start, end) + 1,
{
    lemma_search_ends(kind, start, end, grid, steps);
    let way = lemma_stair_passage(grid, start, end);
    assert(is_passage(grid, way) && way[0] == start && way.last() == end);
    lemma_found_iff_passage(kind, start, end, grid, steps);
    lemma_shortest_on_open_grid(kind, start, end, grid, steps);
}

} // verus!
