//! Proofs that every search comes to an end: each step either ends the
//! search or leaves less work, and a grid holds only so much.

use crate::completeness::{lemma_found_iff_passage, passage_between};
use crate::grid::{Grid, Pos};
use crate::pathfinding::{
    advance, drops_stale, expand, lemma_neighbors_adjacent, pick, run, AlgorithmType, Search,
};
use crate::regions::{lemma_unvisited_finite, lemma_unvisited_shrinks, unvisited};
use crate::soundness::{
    clear, lemma_expand_frame, lemma_pick_in_range, lemma_run_clear, lemma_run_sound,
    lemma_step_after_finish,
};
use vstd::prelude::*;

verus! {

/// The work that a search has left on a grid: four entries to push for
/// every position not yet finalised, the start among them wherever it
/// lies, and one pop for every pending entry.
pub open spec fn work_left(s: Search, grid: Grid) -> nat {
    4 * unvisited(grid.width as int, grid.height as int, s.visited).len() + if s.visited.contains(
        s.start,
    ) {
        0nat
    } else {
        4nat
    } + s.frontier.len()
}

/// The number of steps within which a search on a grid ends.
pub open spec fn step_bound(grid: Grid) -> nat {
    (4 * (grid.width * grid.height) + 6) as nat
}

/// Reaching neighbours pushes at most one frontier entry for each.
pub proof fn lemma_expand_pushes(
    kind: AlgorithmType,
    s: Search,
    grid: Grid,
    cur: Pos,
    around: Seq<Pos>,
)
    ensures
        expand(kind, s, grid, cur, around).frontier.len() <= s.frontier.len() + around.len(),
    decreases around.len(),
{
    if around.len() > 0 {
        lemma_expand_pushes(kind, s, grid, cur, around.drop_last());
    }
}

/// A step of a search that drops stale entries ends the search or leaves
/// less work.
pub proof fn lemma_step_works(kind: AlgorithmType, s: Search, grid: Grid)
    requires
        drops_stale(kind),
        s.sound(),
        clear(s, grid),
        !s.finished,
    ensures
        advance(kind, s, grid).finished || work_left(advance(kind, s, grid), grid) < work_left(
            s,
            grid,
        ),
{
    let w = grid.width as int;
    let h = grid.height as int;
    let t = advance(kind, s, grid);
    if s.frontier.len() > 0 {
        lemma_pick_in_range(kind, s.frontier);
        let i = pick(kind, s.frontier);
        let cur = s.frontier[i].position;
        let popped = s.without(i);
        if !popped.visited.contains(cur) && cur != s.end {
            let at = popped.visit(cur);
            let around = grid.neighbors_spec(cur.0, cur.1);
            lemma_neighbors_adjacent(grid, cur);
            lemma_expand_pushes(kind, at, grid, cur, around);
            lemma_expand_frame(kind, at, grid, cur, around);
            assert(t.visited == s.visited.insert(cur));
            assert(s.discovered(cur));
            lemma_unvisited_finite(w, h, s.visited);
            if cur.0 < w && cur.1 < h {
                lemma_unvisited_shrinks(w, h, s.visited, cur);
            } else {
                assert(cur == s.start);
                assert(unvisited(w, h, s.visited.insert(cur)) =~= unvisited(w, h, s.visited));
            }
        }
    }
}

/// While a search that drops stale entries runs, the work it has left and
/// the steps it has taken stay within what the grid holds.
pub proof fn lemma_run_works(kind: AlgorithmType, start: Pos, end: Pos, grid: Grid, steps: nat)
    requires
        drops_stale(kind),
    ensures
        run(kind, start, end, grid, steps).finished || work_left(
            run(kind, start, end, grid, steps),
            grid,
        ) + steps + 1 <= step_bound(grid),
    decreases steps,
{
    let w = grid.width as int;
    let h = grid.height as int;
    if steps == 0 {
        lemma_unvisited_finite(w, h, Set::empty());
    } else {
        let before = run(kind, start, end, grid, (steps - 1) as nat);
        lemma_run_works(kind, start, end, grid, (steps - 1) as nat);
        if before.finished {
            lemma_step_after_finish(kind, before, grid);
        } else {
            lemma_run_sound(kind, start, end, grid, (steps - 1) as nat);
            lemma_run_clear(kind, start, end, grid, (steps - 1) as nat);
            lemma_step_works(kind, before, grid);
        }
    }
}

/// Breadth-first, uniform-cost and A* search end: whatever the grid and
/// the endpoints, the search is finished after six steps and four more
/// for every cell of the grid, and stays so.
pub proof fn lemma_search_ends(kind: AlgorithmType, start: Pos, end: Pos, grid: Grid, steps: nat)
    requires
        kind == AlgorithmType::Bfs || kind == AlgorithmType::Dijkstra || kind
            == AlgorithmType::AStar,
        steps >= step_bound(grid),
    ensures
        run(kind, start, end, grid, steps).finished,
{
    lemma_run_works(kind, start, end, grid, steps);
}

/// Whether the entry that a depth-first search pops next is of a
/// position that is not finalised yet.
pub open spec fn top_fresh(s: Search) -> bool {
    s.frontier.len() > 0 && !s.visited.contains(s.frontier.last().position)
}

/// The work that a depth-first search has left on a grid. Popping a
/// position that is not finalised yet pays for the up to four entries it
/// pushes and for one more pop of each of them, which may push four in
/// turn where the position was finalised meanwhile.
pub open spec fn stack_work_left(s: Search, grid: Grid) -> int {
    9 * unvisited(grid.width as int, grid.height as int, s.visited).len() + if s.visited.contains(
        s.start,
    ) {
        0int
    } else {
        9int
    } + s.frontier.len() - if top_fresh(s) {
        4int
    } else {
        0int
    }
}

/// The number of steps within which a depth-first search on a grid ends.
pub open spec fn stack_step_bound(grid: Grid) -> nat {
    (9 * (grid.width * grid.height) + 11) as nat
}

/// A depth-first search pushes behind what is pending, and only positions
/// that are not finalised.
pub proof fn lemma_expand_stacks(s: Search, grid: Grid, cur: Pos, around: Seq<Pos>)
    ensures
        ({
            let t = expand(AlgorithmType::Dfs, s, grid, cur, around);
            &&& s.frontier.len() <= t.frontier.len() <= s.frontier.len() + around.len()
            &&& forall|k: int|
                s.frontier.len() <= k < t.frontier.len() ==> !s.visited.contains(
                    (#[trigger] t.frontier[k]).position,
                )
        }),
    decreases around.len(),
{
    if around.len() > 0 {
        let before = expand(AlgorithmType::Dfs, s, grid, cur, around.drop_last());
        lemma_expand_stacks(s, grid, cur, around.drop_last());
        lemma_expand_frame(AlgorithmType::Dfs, s, grid, cur, around.drop_last());
        let t = expand(AlgorithmType::Dfs, s, grid, cur, around);
        assert forall|k: int| s.frontier.len() <= k < t.frontier.len() implies !s.visited.contains(
            (#[trigger] t.frontier[k]).position,
        ) by {
            if k < before.frontier.len() {
                assert(t.frontier[k] == before.frontier[k]);
            }
        }
    }
}

/// The work that a depth-first search has left is never negative.
pub proof fn lemma_stack_work_left(s: Search, grid: Grid)
    requires
        s.sound(),
        clear(s, grid),
    ensures
        stack_work_left(s, grid) >= 0,
{
    let w = grid.width as int;
    let h = grid.height as int;
    lemma_unvisited_finite(w, h, s.visited);
    if top_fresh(s) {
        let top = s.frontier.last().position;
        assert(s.discovered(s.frontier[s.frontier.len() - 1].position));
        if top != s.start {
            assert(unvisited(w, h, s.visited).contains(top));
            assert(unvisited(w, h, s.visited).len() > 0) by {
                if unvisited(w, h, s.visited).len() == 0 {
                    assert(unvisited(w, h, s.visited) =~= Set::<Pos>::empty());
                }
            }
        }
    }
}

/// A step of a depth-first search ends the search or leaves less work.
pub proof fn lemma_step_stack_works(s: Search, grid: Grid)
    requires
        s.sound(),
        clear(s, grid),
        !s.finished,
    ensures
        advance(AlgorithmType::Dfs, s, grid).finished || stack_work_left(
            advance(AlgorithmType::Dfs, s, grid),
            grid,
        ) < stack_work_left(s, grid),
{
    let kind = AlgorithmType::Dfs;
    let w = grid.width as int;
    let h = grid.height as int;
    let t = advance(kind, s, grid);
    if s.frontier.len() > 0 {
        let i = s.frontier.len() - 1;
        let cur = s.frontier[i].position;
        let popped = s.without(i);
        if cur != s.end {
            let at = popped.visit(cur);
            let around = grid.neighbors_spec(cur.0, cur.1);
            lemma_neighbors_adjacent(grid, cur);
            lemma_expand_stacks(at, grid, cur, around);
            lemma_expand_frame(kind, at, grid, cur, around);
            assert(t.visited == s.visited.insert(cur));
            assert(s.discovered(cur));
            lemma_unvisited_finite(w, h, s.visited);
            if s.visited.contains(cur) {
                assert(s.visited.insert(cur) =~= s.visited);
                if t.frontier.len() > at.frontier.len() {
                    assert(!at.visited.contains(t.frontier[t.frontier.len() - 1].position));
                }
            } else if cur.0 < w && cur.1 < h {
                lemma_unvisited_shrinks(w, h, s.visited, cur);
            } else {
                assert(cur == s.start);
                assert(unvisited(w, h, s.visited.insert(cur)) =~= unvisited(w, h, s.visited));
            }
        }
    }
}

/// While a depth-first search runs, the work it has left and the steps it
/// has taken stay within what the grid holds.
pub proof fn lemma_run_stack_works(start: Pos, end: Pos, grid: Grid, steps: nat)
    ensures
        run(AlgorithmType::Dfs, start, end, grid, steps).finished || stack_work_left(
            run(AlgorithmType::Dfs, start, end, grid, steps),
            grid,
        ) + steps + 1 <= stack_step_bound(grid),
    decreases steps,
{
    let kind = AlgorithmType::Dfs;
    let w = grid.width as int;
    let h = grid.height as int;
    if steps == 0 {
        lemma_unvisited_finite(w, h, Set::empty());
    } else {
        let before = run(kind, start, end, grid, (steps - 1) as nat);
        lemma_run_stack_works(start, end, grid, (steps - 1) as nat);
        if before.finished {
            lemma_step_after_finish(kind, before, grid);
        } else {
            lemma_run_sound(kind, start, end, grid, (steps - 1) as nat);
            lemma_run_clear(kind, start, end, grid, (steps - 1) as nat);
            lemma_step_stack_works(before, grid);
        }
    }
}

/// Depth-first search ends: whatever the grid and the endpoints, the
/// search is finished after eleven steps and nine more for every cell of
/// the grid, and stays so.
pub proof fn lemma_stack_search_ends(start: Pos, end: Pos, grid: Grid, steps: nat)
    requires
        steps >= stack_step_bound(grid),
    ensures
        run(AlgorithmType::Dfs, start, end, grid, steps).finished,
{
    lemma_run_stack_works(start, end, grid, steps);
    lemma_run_sound(AlgorithmType::Dfs, start, end, grid, steps);
    lemma_run_clear(AlgorithmType::Dfs, start, end, grid, steps);
    lemma_stack_work_left(run(AlgorithmType::Dfs, start, end, grid, steps), grid);
}

/// Every search decides whether a passage leads from the start to the
/// end: once it has run for as many steps as its algorithm takes at most
/// on the grid, it is finished, and it has found the end exactly when
/// there is such a passage.
pub proof fn lemma_search_decides(
    kind: AlgorithmType,
    start: Pos,
    end: Pos,
    grid: Grid,
    steps: nat,
)
    requires
        steps >= if kind == AlgorithmType::Dfs {
            stack_step_bound(grid)
        } else {
            step_bound(grid)
        },
    ensures
        run(kind, start, end, grid, steps).finished,
        run(kind, start, end, grid, steps).found <==> passage_between(grid, start, end),
{
    if kind == AlgorithmType::Dfs {
        lemma_stack_search_ends(start, end, grid, steps);
    } else {
        lemma_search_ends(kind, start, end, grid, steps);
    }
    lemma_found_iff_passage(kind, start, end, grid, steps);
}

} // verus!
