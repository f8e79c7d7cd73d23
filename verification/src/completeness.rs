//! Proofs that a search which ends without a path has left no way untried:
//! whatever the algorithm and whatever the walls, a finished search has
//! found the end exactly when a passage leads to it from the start.

use crate::grid::{adjacent, Grid, Pos};
use crate::pathfinding::{
    advance, begin, drops_stale, expand, is_walk, lemma_neighbors_adjacent, passable, pick, reach,
    run, AlgorithmType, NodeState, Search,
};
use crate::regions::lemma_neighbors_complete;
use crate::soundness::{
    expanding, lemma_expand_frame, lemma_expand_sound, lemma_path_clear, lemma_path_is_walk,
    lemma_pick_in_range, lemma_pop_sound, lemma_run_sound,
};
use vstd::prelude::*;

verus! {

/// Whether a search can step to the position at index `i` of `path` from
/// the one before: it is a neighbour that the grid enumerates for that
/// one, and no wall.
pub open spec fn passes(grid: Grid, path: Seq<Pos>, i: int) -> bool {
    grid.neighbors_spec(path[i - 1].0, path[i - 1].1).contains(path[i]) && passable(grid, path[i])
}

/// `path` goes from cell to cell as a search does: to each position
/// after the first from the one before.
pub open spec fn is_passage(grid: Grid, path: Seq<Pos>) -> bool {
    &&& path.len() > 0
    &&& forall|i: int| 0 < i < path.len() ==> #[trigger] passes(grid, path, i)
}

/// Whether a passage leads from `a` to `b`.
pub open spec fn passage_between(grid: Grid, a: Pos, b: Pos) -> bool {
    exists|path: Seq<Pos>| #[trigger] is_passage(grid, path) && path[0] == a && path.last() == b
}

/// A walk whose positions after the first lie in the grid and off its
/// walls is a passage.
pub proof fn lemma_walk_is_passage(grid: Grid, path: Seq<Pos>)
    requires
        path.len() > 0,
        is_walk(path),
        forall|i: int|
            0 < i < path.len() ==> grid.in_bounds((#[trigger] path[i]).0, path[i].1) && passable(
                grid,
                path[i],
            ),
    ensures
        is_passage(grid, path),
{
    assert forall|i: int| 0 < i < path.len() implies #[trigger] passes(grid, path, i) by {
        assert(adjacent(path[i - 1], path[i]));
        assert(grid.in_bounds(path[i].0, path[i].1));
        lemma_neighbors_complete(grid.width as int, grid.height as int, path[i - 1], path[i]);
    }
}

/// Whether `p` is the position of a frontier entry.
pub open spec fn pending(s: Search, p: Pos) -> bool {
    exists|k: int| 0 <= k < s.frontier.len() && (#[trigger] s.frontier[k]).position == p
}

/// What a search keeps of its bookkeeping: whatever has a cost or is
/// tagged `InQueue` was discovered, whatever was discovered is finalised
/// or pending, the end is finalised only once it was found, and a search
/// that gave up has nothing pending.
pub open spec fn accounted(s: Search) -> bool {
    &&& forall|n: Pos| #[trigger] s.costs.contains_key(n) ==> s.discovered(n)
    &&& forall|n: Pos| #[trigger] s.node_state(n) == NodeState::InQueue ==> s.discovered(n)
    &&& forall|n: Pos| #[trigger] s.discovered(n) ==> s.visited.contains(n) || pending(s, n)
    &&& !s.found ==> !s.visited.contains(s.end)
    &&& s.finished && !s.found ==> s.frontier.len() == 0
}

/// Whether every neighbour of `v` that is no wall was discovered.
pub open spec fn spread(s: Search, grid: Grid, v: Pos) -> bool {
    forall|n: Pos| #[trigger]
        grid.neighbors_spec(v.0, v.1).contains(n) && passable(grid, n) ==> s.discovered(n)
}

/// What holds of a search on one grid between two steps: its bookkeeping
/// is kept, and every finalised position but the end has spread.
pub open spec fn thorough(s: Search, grid: Grid) -> bool {
    &&& accounted(s)
    &&& forall|v: Pos| #[trigger] s.visited.contains(v) && v != s.end ==> spread(s, grid, v)
}

/// What holds while the neighbours of `cur` are reached in turn, `done`
/// being those that were.
pub open spec fn spreading(s: Search, grid: Grid, cur: Pos, done: Seq<Pos>) -> bool {
    &&& accounted(s)
    &&& !s.finished
    &&& forall|v: Pos|
        #[trigger] s.visited.contains(v) && v != s.end && v != cur ==> spread(s, grid, v)
    &&& forall|k: int|
        0 <= k < done.len() && passable(grid, #[trigger] done[k]) ==> s.discovered(done[k])
}

/// Reaching one more neighbour of `cur` keeps what holds while a position
/// spreads.
pub proof fn lemma_reach_spreading(
    kind: AlgorithmType,
    s: Search,
    grid: Grid,
    cur: Pos,
    done: Seq<Pos>,
    n: Pos,
)
    requires
        expanding(s, cur),
        spreading(s, grid, cur, done),
    ensures
        spreading(reach(kind, s, grid, cur, n), grid, cur, done.push(n)),
{
    let t = reach(kind, s, grid, cur, n);
    let all = done.push(n);
    assert forall|p: Pos| s.discovered(p) implies t.discovered(p) by {}
    assert forall|p: Pos| #[trigger] t.discovered(p) implies t.visited.contains(p) || pending(
        t,
        p,
    ) by {
        if s.discovered(p) && !s.visited.contains(p) {
            let k = choose|k: int|
                0 <= k < s.frontier.len() && (#[trigger] s.frontier[k]).position == p;
            assert(t.frontier[k].position == p);
        } else if !s.discovered(p) {
            assert(p == n);
            assert(t.frontier[s.frontier.len() as int].position == n);
        }
    }
    assert forall|p: Pos| #[trigger] t.node_state(p) == NodeState::InQueue implies t.discovered(
        p,
    ) by {
        if p != n {
            assert(s.node_state(p) == NodeState::InQueue);
        } else if t == s {
            assert(s.node_state(p) == NodeState::InQueue);
        }
    }
    assert forall|v: Pos|
        #[trigger] t.visited.contains(v) && v != t.end && v != cur implies spread(t, grid, v) by {
        assert(s.visited.contains(v));
        assert(spread(s, grid, v));
    }
    assert forall|k: int| 0 <= k < all.len() && passable(grid, #[trigger] all[k]) implies t.discovered(
        all[k],
    ) by {
        if k < done.len() {
            assert(all[k] == done[k]);
        } else {
            assert(all[k] == n);
            if s.visited.contains(n) {
                assert(s.discovered(n));
            }
        }
    }
}

/// Reaching the neighbours `around` of `cur` in turn keeps what holds
/// while a position spreads.
pub proof fn lemma_expand_spreading(
    kind: AlgorithmType,
    s: Search,
    grid: Grid,
    cur: Pos,
    around: Seq<Pos>,
)
    requires
        expanding(s, cur),
        spreading(s, grid, cur, Seq::empty()),
        forall|i: int| 0 <= i < around.len() ==> adjacent(cur, #[trigger] around[i]),
    ensures
        spreading(expand(kind, s, grid, cur, around), grid, cur, around),
    decreases around.len(),
{
    if around.len() == 0 {
        assert(around =~= Seq::empty());
    } else {
        let before = around.drop_last();
        assert forall|i: int| 0 <= i < before.len() implies adjacent(cur, #[trigger] before[i]) by {
            assert(before[i] == around[i]);
        }
        lemma_expand_spreading(kind, s, grid, cur, before);
        lemma_expand_sound(kind, s, grid, cur, before);
        lemma_reach_spreading(
            kind,
            expand(kind, s, grid, cur, before),
            grid,
            cur,
            before,
            around.last(),
        );
        assert(before.push(around.last()) =~= around);
    }
}

/// Taking an entry off the frontier leaves every position pending that
/// was, but the one taken.
pub proof fn lemma_pending_without(s: Search, i: int, p: Pos)
    requires
        0 <= i < s.frontier.len(),
        pending(s, p),
        p != s.frontier[i].position,
    ensures
        pending(s.without(i), p),
{
    let k = choose|k: int| 0 <= k < s.frontier.len() && (#[trigger] s.frontier[k]).position == p;
    let t = s.without(i);
    if k < i {
        assert(t.frontier[k].position == p);
    } else {
        assert(t.frontier[k - 1].position == p);
    }
}

/// A step keeps a search thorough.
pub proof fn lemma_step_thorough(kind: AlgorithmType, s: Search, grid: Grid)
    requires
        s.sound(),
        thorough(s, grid),
    ensures
        thorough(advance(kind, s, grid), grid),
{
    let t = advance(kind, s, grid);
    if s.finished {
    } else if s.frontier.len() == 0 {
        assert forall|p: Pos| #[trigger] t.node_state(p) == NodeState::InQueue implies t.discovered(
            p,
        ) by {
            assert(s.node_state(p) == NodeState::InQueue);
        }
    } else {
        lemma_pick_in_range(kind, s.frontier);
        let i = pick(kind, s.frontier);
        let cur = s.frontier[i].position;
        let popped = s.without(i);
        lemma_pop_sound(s, i);
        assert forall|p: Pos| #[trigger] popped.discovered(p) && p != cur implies popped.visited.contains(
            p,
        ) || pending(popped, p) by {
            assert(s.discovered(p));
            if !s.visited.contains(p) {
                lemma_pending_without(s, i, p);
            }
        }
        if drops_stale(kind) && popped.visited.contains(cur) {
            assert forall|v: Pos|
                #[trigger] popped.visited.contains(v) && v != popped.end implies spread(
                popped,
                grid,
                v,
            ) by {
                assert(spread(s, grid, v));
            }
            assert forall|p: Pos| #[trigger] t.node_state(p) == NodeState::InQueue implies t.discovered(
                p,
            ) by {
                assert(s.node_state(p) == NodeState::InQueue);
            }
        } else {
            let at = popped.visit(cur);
            assert forall|p: Pos| #[trigger] at.discovered(p) implies at.visited.contains(p)
                || pending(at, p) by {
                assert(popped.discovered(p));
                if p != cur && !popped.visited.contains(p) {
                    let k = choose|k: int|
                        0 <= k < popped.frontier.len() && (#[trigger] popped.frontier[k]).position
                            == p;
                    assert(at.frontier[k].position == p);
                }
            }
            assert forall|p: Pos| #[trigger] at.node_state(p) == NodeState::InQueue implies at.discovered(
                p,
            ) by {
                assert(s.node_state(p) == NodeState::InQueue);
            }
            assert forall|v: Pos|
                #[trigger] at.visited.contains(v) && v != at.end && v != cur implies spread(
                at,
                grid,
                v,
            ) by {
                assert(s.visited.contains(v));
                assert(spread(s, grid, v));
            }
            if cur == s.end {
                let done = at.finish();
                assert forall|p: Pos| #[trigger] done.discovered(p) implies done.visited.contains(p)
                    || pending(done, p) by {
                    assert(at.discovered(p));
                    if !at.visited.contains(p) {
                        let k = choose|k: int|
                            0 <= k < at.frontier.len() && (#[trigger] at.frontier[k]).position == p;
                        assert(done.frontier[k].position == p);
                    }
                }
                assert forall|p: Pos| #[trigger] done.node_state(p) == NodeState::InQueue implies done.discovered(
                    p,
                ) by {
                    assert(at.node_state(p) == NodeState::InQueue);
                }
                assert forall|v: Pos|
                    #[trigger] done.visited.contains(v) && v != done.end implies spread(
                    done,
                    grid,
                    v,
                ) by {
                    assert(spread(at, grid, v));
                }
            } else {
                let around = grid.neighbors_spec(cur.0, cur.1);
                lemma_neighbors_adjacent(grid, cur);
                assert(spreading(at, grid, cur, Seq::empty()));
                lemma_expand_spreading(kind, at, grid, cur, around);
                lemma_expand_frame(kind, at, grid, cur, around);
                assert forall|v: Pos| #[trigger] t.visited.contains(v) && v != t.end implies spread(
                    t,
                    grid,
                    v,
                ) by {
                    if v == cur {
                        assert forall|n: Pos| #[trigger]
                            grid.neighbors_spec(v.0, v.1).contains(n) && passable(
                                grid,
                                n,
                            ) implies t.discovered(n) by {
                            let k = choose|k: int| 0 <= k < around.len() && around[k] == n;
                            assert(passable(grid, around[k]));
                        }
                    }
                }
            }
        }
    }
}

/// Every state that a search on one grid runs through is thorough.
pub proof fn lemma_run_thorough(kind: AlgorithmType, start: Pos, end: Pos, grid: Grid, steps: nat)
    ensures
        thorough(run(kind, start, end, grid, steps), grid),
    decreases steps,
{
    if steps == 0 {
        let s = begin(kind, start, end);
        assert(s.frontier[0].position == start);
    } else {
        let before = run(kind, start, end, grid, (steps - 1) as nat);
        lemma_run_sound(kind, start, end, grid, (steps - 1) as nat);
        lemma_run_thorough(kind, start, end, grid, (steps - 1) as nat);
        lemma_step_thorough(kind, before, grid);
    }
}

/// A passage from the start of a search that gave up stays among the
/// finalised positions.
pub proof fn lemma_passage_finalised(s: Search, grid: Grid, path: Seq<Pos>, i: int)
    requires
        s.sound(),
        thorough(s, grid),
        s.finished,
        !s.found,
        is_passage(grid, path),
        path[0] == s.start,
        0 <= i < path.len(),
    ensures
        s.visited.contains(path[i]),
    decreases i,
{
    if i > 0 {
        lemma_passage_finalised(s, grid, path, i - 1);
        assert(passes(grid, path, i));
        assert(spread(s, grid, path[i - 1]));
        assert(s.discovered(path[i]));
        if !s.visited.contains(path[i]) {
            assert(pending(s, path[i]));
        }
    }
}

/// A finished search has found the end exactly when a passage leads to it
/// from the start: whichever the algorithm and whatever the walls, a
/// search that has found the end reports a passage, and one that gave up
/// has left none untried.
pub proof fn lemma_found_iff_passage(
    kind: AlgorithmType,
    start: Pos,
    end: Pos,
    grid: Grid,
    steps: nat,
)
    requires
        run(kind, start, end, grid, steps).finished,
    ensures
        run(kind, start, end, grid, steps).found <==> passage_between(grid, start, end),
        run(kind, start, end, grid, steps).found ==> is_passage(
            grid,
            run(kind, start, end, grid, steps).path(),
        ),
{
    let s = run(kind, start, end, grid, steps);
    lemma_run_sound(kind, start, end, grid, steps);
    lemma_run_thorough(kind, start, end, grid, steps);
    if s.found {
        let path = s.path();
        lemma_path_is_walk(s);
        lemma_path_clear(kind, start, end, grid, steps);
        lemma_walk_is_passage(grid, path);
    } else if passage_between(grid, start, end) {
        let path = choose|path: Seq<Pos>| #[trigger]
            is_passage(grid, path) && path[0] == start && path.last() == end;
        lemma_passage_finalised(s, grid, path, path.len() - 1);
    }
}

} // verus!
