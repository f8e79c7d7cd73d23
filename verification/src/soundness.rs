//! Proofs that every step of every algorithm keeps a search state sound, and
//! what follows for the path that a finished search reports.

use crate::grid::{adjacent, Grid, Pos};
use crate::pathfinding::{
    advance, begin, best_index, better, drops_stale, expand, is_best, is_trail, is_walk,
    lemma_neighbors_adjacent, lemma_trail_exists, lemma_trail_is_walk, manhattan, passable,
    pick, plain_entry, reach, rooted, run, AlgorithmType, Entry, NodeState, Search,
};
use vstd::prelude::*;

verus! {

/// A non-empty frontier has an entry that a priority frontier pops.
pub proof fn lemma_best_exists(frontier: Seq<Entry>) -> (i: int)
    requires
        frontier.len() > 0,
    ensures
        is_best(frontier, i),
        i == best_index(frontier),
    decreases frontier.len(),
{
    let mut i: int = 0;
    if frontier.len() > 1 {
        let shorter = frontier.drop_last();
        let j = lemma_best_exists(shorter);
        let last_index = frontier.len() - 1;
        if better(frontier[last_index], shorter[j]) {
            i = last_index;
            assert forall|k: int| 0 <= k < i implies better(frontier[i], #[trigger] frontier[k]) by {
                assert(frontier[k] == shorter[k]);
                if k < j {
                    assert(better(shorter[j], shorter[k]));
                } else if k > j {
                    assert(!better(shorter[k], shorter[j]));
                }
            }
        } else {
            i = j;
            assert forall|k: int| i < k < frontier.len() implies !better(
                #[trigger] frontier[k],
                frontier[i],
            ) by {
                if k < last_index {
                    assert(frontier[k] == shorter[k]);
                }
            }
            assert forall|k: int| 0 <= k < i implies better(frontier[i], #[trigger] frontier[k]) by {
                assert(frontier[k] == shorter[k]);
            }
        }
    }
    assert(is_best(frontier, i));
    lemma_best_unique(frontier, i, best_index(frontier));
    i
}

/// Only one entry of a frontier is the one that a priority frontier pops.
pub proof fn lemma_best_unique(frontier: Seq<Entry>, i: int, j: int)
    requires
        is_best(frontier, i),
        is_best(frontier, j),
    ensures
        i == j,
{
    if i < j {
        assert(better(frontier[j], frontier[i]));
    } else if j < i {
        assert(better(frontier[i], frontier[j]));
    }
}

/// The index that an algorithm pops lies in a non-empty frontier.
pub proof fn lemma_pick_in_range(kind: AlgorithmType, frontier: Seq<Entry>)
    requires
        frontier.len() > 0,
    ensures
        0 <= pick(kind, frontier) < frontier.len(),
{
    let i = lemma_best_exists(frontier);
}

/// A search begins in a sound state.
pub proof fn lemma_begin_sound(kind: AlgorithmType, start: Pos, end: Pos)
    ensures
        begin(kind, start, end).sound(),
{
}

/// What holds while the neighbours of `cur` are expanded: the state is
/// sound and both `cur` and the start are finalised.
pub open spec fn expanding(s: Search, cur: Pos) -> bool {
    s.sound() && s.visited.contains(cur) && s.visited.contains(s.start)
}

/// Discovering a position that is not finalised, from an adjacent finalised
/// one, keeps the state sound.
pub proof fn lemma_discover_sound(s: Search, n: Pos, cur: Pos, entry: Entry)
    requires
        expanding(s, cur),
        !s.visited.contains(n),
        adjacent(cur, n),
        entry.position == n,
    ensures
        expanding(s.discover(n, cur, entry), cur),
{
    let t = s.discover(n, cur, entry);
    assert(s.discovered(cur));
    assert(s.costs.contains_key(cur));
    assert(rooted(t.parents, t.costs, t.start)) by {
        assert forall|m: Pos| #[trigger] t.parents.contains_key(m) implies {
            &&& m != t.start
            &&& (t.parents[m] == t.start || t.parents.contains_key(t.parents[m]))
            &&& t.costs.contains_key(m)
            &&& t.costs.contains_key(t.parents[m])
            &&& t.costs[m] == t.costs[t.parents[m]] + 1
            &&& adjacent(t.parents[m], m)
        } by {
            if m != n {
                assert(s.parents.contains_key(m));
                assert(s.visited.contains(s.parents[m]));
            }
        }
    }
    assert forall|i: int| 0 <= i < t.frontier.len() implies t.discovered(
        (#[trigger] t.frontier[i]).position,
    ) by {
        if i < s.frontier.len() {
            assert(t.frontier[i] == s.frontier[i]);
        }
    }
    assert forall|m: Pos| #[trigger] t.parents.contains_key(m) implies t.visited.contains(
        t.parents[m],
    ) by {
        if m != n {
            assert(s.parents.contains_key(m));
        }
    }
}

/// Queueing a discovered position once more keeps the state sound.
pub proof fn lemma_requeue_sound(s: Search, n: Pos, cur: Pos)
    requires
        expanding(s, cur),
        s.discovered(n),
    ensures
        expanding(s.requeue(n), cur),
{
    let t = s.requeue(n);
    assert forall|i: int| 0 <= i < t.frontier.len() implies t.discovered(
        (#[trigger] t.frontier[i]).position,
    ) by {
        if i < s.frontier.len() {
            assert(t.frontier[i] == s.frontier[i]);
        }
    }
}

/// Reaching an adjacent position keeps the state sound.
pub proof fn lemma_reach_sound(kind: AlgorithmType, s: Search, grid: Grid, cur: Pos, n: Pos)
    requires
        expanding(s, cur),
        adjacent(cur, n),
    ensures
        expanding(reach(kind, s, grid, cur, n), cur),
{
    if s.visited.contains(n) {
    } else {
        let cost = s.costs[cur] + 1;
        lemma_discover_sound(s, n, cur, plain_entry(n));
        lemma_discover_sound(s, n, cur, Entry { position: n, cost, key: cost });
        lemma_discover_sound(
            s,
            n,
            cur,
            Entry { position: n, cost, key: cost + manhattan(n, s.end) },
        );
        if s.parents.contains_key(n) {
            lemma_requeue_sound(s, n, cur);
        }
    }
}

/// Expanding positions that are all adjacent to `cur` keeps the state
/// sound.
pub proof fn lemma_expand_sound(
    kind: AlgorithmType,
    s: Search,
    grid: Grid,
    cur: Pos,
    around: Seq<Pos>,
)
    requires
        expanding(s, cur),
        forall|i: int| 0 <= i < around.len() ==> adjacent(cur, #[trigger] around[i]),
    ensures
        expanding(expand(kind, s, grid, cur, around), cur),
    decreases around.len(),
{
    if around.len() > 0 {
        let before = around.drop_last();
        assert forall|i: int| 0 <= i < before.len() implies adjacent(cur, #[trigger] before[i]) by {
            assert(before[i] == around[i]);
        }
        lemma_expand_sound(kind, s, grid, cur, before);
        lemma_reach_sound(kind, expand(kind, s, grid, cur, before), grid, cur, around.last());
    }
}

/// Finalising the position of a popped frontier entry leaves a sound state
/// in which that position and the start are finalised.
pub proof fn lemma_pop_sound(s: Search, i: int)
    requires
        s.sound(),
        !s.finished,
        0 <= i < s.frontier.len(),
    ensures
        expanding(s.without(i).visit(s.frontier[i].position), s.frontier[i].position),
        s.visited.contains(s.frontier[i].position) ==> s.without(i).sound(),
{
    let cur = s.frontier[i].position;
    let popped = s.without(i);
    let at = popped.visit(cur);
    assert(s.discovered(cur));
    assert forall|k: int| 0 <= k < popped.frontier.len() implies popped.discovered(
        (#[trigger] popped.frontier[k]).position,
    ) by {
        if k < i {
            assert(popped.frontier[k] == s.frontier[k]);
        } else {
            assert(popped.frontier[k] == s.frontier[k + 1]);
        }
    }
    assert(s.visited.contains(s.start) || cur == s.start);
}

/// Ending the search at a finalised, discovered end leaves a sound state.
pub proof fn lemma_finish_sound(s: Search)
    requires
        s.sound(),
        s.visited.contains(s.start),
        s.discovered(s.end),
    ensures
        s.finish().sound(),
{
}

/// A step of any algorithm on any grid keeps a search state sound, and
/// leaves the start finalised.
pub proof fn lemma_step_sound(kind: AlgorithmType, s: Search, grid: Grid)
    requires
        s.sound(),
    ensures
        advance(kind, s, grid).sound(),
        advance(kind, s, grid).visited.contains(s.start),
        advance(kind, s, grid).start == s.start,
        advance(kind, s, grid).end == s.end,
{
    if s.finished {
    } else if s.frontier.len() == 0 {
    } else {
        lemma_pick_in_range(kind, s.frontier);
        let i = pick(kind, s.frontier);
        let cur = s.frontier[i].position;
        let popped = s.without(i);
        lemma_pop_sound(s, i);
        if drops_stale(kind) && popped.visited.contains(cur) {
        } else if cur == s.end {
            lemma_finish_sound(popped.visit(cur));
        } else {
            lemma_neighbors_adjacent(grid, cur);
            lemma_expand_sound(kind, popped.visit(cur), grid, cur, grid.neighbors_spec(cur.0, cur.1));
            lemma_expand_frame(kind, popped.visit(cur), grid, cur, grid.neighbors_spec(cur.0, cur.1));
        }
    }
}

/// Expanding neighbours changes neither the endpoints, nor the flags, nor
/// what is finalised.
pub proof fn lemma_expand_frame(
    kind: AlgorithmType,
    s: Search,
    grid: Grid,
    cur: Pos,
    around: Seq<Pos>,
)
    ensures
        expand(kind, s, grid, cur, around).start == s.start,
        expand(kind, s, grid, cur, around).end == s.end,
        expand(kind, s, grid, cur, around).finished == s.finished,
        expand(kind, s, grid, cur, around).found == s.found,
        expand(kind, s, grid, cur, around).visited == s.visited,
    decreases around.len(),
{
    if around.len() > 0 {
        lemma_expand_frame(kind, s, grid, cur, around.drop_last());
    }
}

/// Every state that a search runs through is sound.
pub proof fn lemma_run_sound(kind: AlgorithmType, start: Pos, end: Pos, grid: Grid, steps: nat)
    ensures
        run(kind, start, end, grid, steps).sound(),
        run(kind, start, end, grid, steps).start == start,
        run(kind, start, end, grid, steps).end == end,
    decreases steps,
{
    if steps == 0 {
        lemma_begin_sound(kind, start, end);
    } else {
        lemma_run_sound(kind, start, end, grid, (steps - 1) as nat);
        lemma_step_sound(kind, run(kind, start, end, grid, (steps - 1) as nat), grid);
    }
}

/// The path of a sound search that reached the end begins at the start,
/// ends at the end, and moves between adjacent positions throughout. It
/// has one position more than the end costs.
pub proof fn lemma_path_is_walk(s: Search)
    requires
        s.sound(),
        s.found,
    ensures
        s.path().len() == s.costs[s.end] + 1,
        s.path()[0] == s.start,
        s.path().last() == s.end,
        is_walk(s.path()),
        is_trail(s.parents, s.start, s.end, s.path()),
{
    let path = lemma_trail_exists(s.parents, s.costs, s.start, s.end);
    lemma_trail_is_walk(s.parents, s.costs, s.start, s.end, path);
}

/// Whether every position that a search has discovered from another lies
/// in the grid and off its walls.
pub open spec fn clear(s: Search, grid: Grid) -> bool {
    forall|n: Pos| #[trigger]
        s.parents.contains_key(n) ==> grid.in_bounds(n.0, n.1) && passable(grid, n)
}

/// Expanding positions of the grid discovers none outside it and none on
/// a wall.
pub proof fn lemma_expand_clear(
    kind: AlgorithmType,
    s: Search,
    grid: Grid,
    cur: Pos,
    around: Seq<Pos>,
)
    requires
        clear(s, grid),
        forall|i: int| 0 <= i < around.len() ==> grid.in_bounds((#[trigger] around[i]).0, around[i].1),
    ensures
        clear(expand(kind, s, grid, cur, around), grid),
    decreases around.len(),
{
    if around.len() > 0 {
        let before = around.drop_last();
        assert forall|i: int| 0 <= i < before.len() implies grid.in_bounds(
            (#[trigger] before[i]).0,
            before[i].1,
        ) by {
            assert(before[i] == around[i]);
        }
        lemma_expand_clear(kind, s, grid, cur, before);
        assert(grid.in_bounds(around[around.len() - 1].0, around[around.len() - 1].1));
    }
}

/// A step discovers no position outside the grid and none on a wall.
pub proof fn lemma_step_clear(kind: AlgorithmType, s: Search, grid: Grid)
    requires
        clear(s, grid),
    ensures
        clear(advance(kind, s, grid), grid),
{
    if !s.finished && s.frontier.len() > 0 {
        let cur = s.frontier[pick(kind, s.frontier)].position;
        let at = s.without(pick(kind, s.frontier)).visit(cur);
        lemma_neighbors_adjacent(grid, cur);
        lemma_expand_clear(kind, at, grid, cur, grid.neighbors_spec(cur.0, cur.1));
    }
}

/// Whatever a search on one grid discovers lies in the grid and off its
/// walls.
pub proof fn lemma_run_clear(kind: AlgorithmType, start: Pos, end: Pos, grid: Grid, steps: nat)
    ensures
        clear(run(kind, start, end, grid, steps), grid),
    decreases steps,
{
    if steps > 0 {
        lemma_run_clear(kind, start, end, grid, (steps - 1) as nat);
        lemma_step_clear(kind, run(kind, start, end, grid, (steps - 1) as nat), grid);
    }
}

/// The path that a search on one grid reports, whichever the algorithm
/// and whatever the walls, repeats no position, and every position on it
/// after the start lies in the grid and off its walls.
pub proof fn lemma_path_clear(kind: AlgorithmType, start: Pos, end: Pos, grid: Grid, steps: nat)
    ensures
        forall|i: int|
            0 < i < run(kind, start, end, grid, steps).path().len() ==> {
                let p = #[trigger] run(kind, start, end, grid, steps).path()[i];
                grid.in_bounds(p.0, p.1) && passable(grid, p)
            },
        forall|i: int, j: int|
            0 <= i < j < run(kind, start, end, grid, steps).path().len() ==> run(
                kind,
                start,
                end,
                grid,
                steps,
            ).path()[i] != run(kind, start, end, grid, steps).path()[j],
{
    let s = run(kind, start, end, grid, steps);
    lemma_run_sound(kind, start, end, grid, steps);
    lemma_run_clear(kind, start, end, grid, steps);
    if s.found {
        let path = s.path();
        lemma_path_is_walk(s);
        lemma_trail_is_walk(s.parents, s.costs, s.start, s.end, path);
        assert forall|i: int| 0 < i < path.len() implies {
            let p = #[trigger] path[i];
            grid.in_bounds(p.0, p.1) && passable(grid, p)
        } by {
            assert(s.parents.contains_key(path[i]));
        }
        assert forall|i: int, j: int| 0 <= i < j < path.len() implies path[i] != path[j] by {
            assert(s.costs[path[i]] == i);
            assert(s.costs[path[j]] == j);
        }
    }
}

/// A step on a finished search changes nothing.
pub proof fn lemma_step_after_finish(kind: AlgorithmType, s: Search, grid: Grid)
    requires
        s.finished,
    ensures
        advance(kind, s, grid) == s,
{
}

/// Before the first step every position but the start is `Unvisited`, and
/// for the two priority searches the start is too.
pub proof fn lemma_begin_unvisited(kind: AlgorithmType, start: Pos, end: Pos, p: Pos)
    requires
        p != start || kind == AlgorithmType::AStar || kind == AlgorithmType::Dijkstra,
    ensures
        begin(kind, start, end).node_state(p) == NodeState::Unvisited,
{
}

/// After at least one step the start is never `Unvisited`.
pub proof fn lemma_start_visited_after_step(
    kind: AlgorithmType,
    start: Pos,
    end: Pos,
    grid: Grid,
    steps: nat,
)
    requires
        steps >= 1,
    ensures
        run(kind, start, end, grid, steps).node_state(start) != NodeState::Unvisited,
{
    lemma_run_sound(kind, start, end, grid, (steps - 1) as nat);
    lemma_step_sound(kind, run(kind, start, end, grid, (steps - 1) as nat), grid);
}

} // verus!
