//! Endpoint placement: the floor cells of a grid as candidates, the cell
//! that a breadth-first traversal reaches last, and the two endpoints set
//! by two such traversals in a row.

use crate::cellular_automata::CellularAutomata;
use crate::grid::{
    adjacent, any_open, at_most_one, holds, keeps_walls, lemma_matrix_set_cell, matrix_cell,
    matrix_set, neighbors_in, occurs, open_cell, rectangular, Cell, Grid, Matrix, Pos,
};
use crate::pathfinding::{
    is_walk, lemma_neighbors_adjacent, lemma_trail_exists, lemma_trail_is_walk, rooted,
};
use crate::lookup::PosSet;
use crate::random::{index_below, index_draw};
use crate::regions::{
    connected, floor, is_way, joined, plain, lemma_floor_in_bounds, lemma_neighbors_complete, lemma_unvisited_finite,
    lemma_unvisited_shrinks, unvisited,
};
use rand::rngs::StdRng;
use std::collections::VecDeque;
use vstd::prelude::*;

verus! {

/// The queue and the set of seen cells after the neighbours `around` were
/// looked at in turn: each unseen floor cell among them is queued and seen.
pub open spec fn admit_all(m: Matrix, queue: Seq<Pos>, seen: Set<Pos>, around: Seq<Pos>) -> (
    Seq<Pos>,
    Set<Pos>,
)
    decreases around.len(),
{
    if around.len() == 0 {
        (queue, seen)
    } else {
        let (q, s) = admit_all(m, queue, seen, around.drop_last());
        let n = around.last();
        if s.contains(n) || !floor(m, n) {
            (q, s)
        } else {
            (q.push(n), s.insert(n))
        }
    }
}

/// The cell that a breadth-first traversal dequeues last, when it goes on
/// from the given queue and seen cells, `last` being the cell dequeued
/// before, for at most `fuel` more cells.
pub open spec fn sweep(
    m: Matrix,
    w: int,
    h: int,
    queue: Seq<Pos>,
    seen: Set<Pos>,
    last: Pos,
    fuel: nat,
) -> Pos
    decreases fuel,
{
    if queue.len() == 0 || fuel == 0 {
        last
    } else {
        let cur = queue[0];
        let (q, s) = admit_all(m, queue.drop_first(), seen, neighbors_in(w, h, cur));
        sweep(m, w, h, q, s, cur, (fuel - 1) as nat)
    }
}

/// The cell that a breadth-first traversal over floor cells from `from`
/// dequeues last. The traversal dequeues no cell twice, so one step for
/// `from` and one for each cell of the grid see it to its end.
pub open spec fn furthest(m: Matrix, w: int, h: int, from: Pos) -> Pos {
    sweep(m, w, h, seq![from], set![from], from, (w * h + 1) as nat)
}

/// `path` is a walk whose positions after the first are floor cells
/// outside `avoid`.
pub open spec fn is_route(m: Matrix, avoid: Set<Pos>, path: Seq<Pos>) -> bool {
    &&& path.len() > 0
    &&& is_walk(path)
    &&& forall|i: int|
        0 < i < path.len() ==> floor(m, #[trigger] path[i]) && !avoid.contains(path[i])
}

/// Whether a route outside `avoid` leads from `a` to `b`. Nothing is asked
/// of `a` itself.
pub open spec fn linked(m: Matrix, avoid: Set<Pos>, a: Pos, b: Pos) -> bool {
    exists|path: Seq<Pos>| #[trigger] is_route(m, avoid, path) && path[0] == a && path.last() == b
}

/// Whether every floor cell next to `c` was seen, at most one step deeper
/// than `c`.
pub open spec fn closed_at(m: Matrix, seen: Set<Pos>, depth: Map<Pos, nat>, c: Pos) -> bool {
    forall|n: Pos|
        #[trigger] adjacent(c, n) && floor(m, n) ==> seen.contains(n) && depth[n] <= depth[c] + 1
}

/// Whether a route of at most `len` cells leads from `a` to `b`.
pub open spec fn linked_within(m: Matrix, a: Pos, b: Pos, len: nat) -> bool {
    exists|path: Seq<Pos>| #[trigger]
        is_route(m, Set::empty(), path) && path[0] == a && path.last() == b && path.len() <= len
}

/// What a traversal from `from` keeps of the cells it has seen: they are
/// `from` and the floor cells that have a parent, and the parents form a
/// tree rooted at `from` in which `depth` counts the steps.
pub open spec fn traversed(
    m: Matrix,
    from: Pos,
    seen: Set<Pos>,
    parents: Map<Pos, Pos>,
    depth: Map<Pos, nat>,
) -> bool {
    &&& rooted(parents, depth, from)
    &&& forall|p: Pos| #[trigger] seen.contains(p) <==> p == from || parents.contains_key(p)
    &&& forall|p: Pos| #[trigger] parents.contains_key(p) ==> floor(m, p)
}

/// The queue of a traversal holds seen cells in the order of their depth,
/// none above `last` by more than one step and none below it.
pub open spec fn lined_up(queue: Seq<Pos>, seen: Set<Pos>, depth: Map<Pos, nat>, last: Pos) -> bool {
    &&& forall|k: int|
        0 <= k < queue.len() ==> seen.contains(#[trigger] queue[k]) && depth[last] <= depth[queue[k]]
            <= depth[last] + 1
    &&& forall|k: int, l: int|
        0 <= k < l < queue.len() ==> depth[#[trigger] queue[k]] <= depth[#[trigger] queue[l]]
}

/// Taking the first cell off the queue of a traversal leaves the queue
/// lined up behind it, and every seen cell that is neither it nor queued
/// closed and no deeper.
proof fn lemma_dequeued(
    m: Matrix,
    waiting: Seq<Pos>,
    seen: Set<Pos>,
    depth: Map<Pos, nat>,
    last: Pos,
)
    requires
        waiting.len() > 0,
        lined_up(waiting, seen, depth, last),
        forall|c: Pos|
            #[trigger] seen.contains(c) && !waiting.contains(c) ==> depth[c] <= depth[last]
                && closed_at(m, seen, depth, c),
    ensures
        seen.contains(waiting[0]),
        lined_up(waiting.drop_first(), seen, depth, waiting[0]),
        forall|c: Pos|
            #[trigger] seen.contains(c) && !waiting.drop_first().contains(c) && c != waiting[0]
                ==> depth[c] <= depth[waiting[0]] && closed_at(m, seen, depth, c),
{
    let cur = waiting[0];
    let popped = waiting.drop_first();
    assert(depth[last] <= depth[waiting[0]] <= depth[last] + 1);
    assert forall|k: int| 0 <= k < popped.len() implies seen.contains(#[trigger] popped[k])
        && depth[cur] <= depth[popped[k]] <= depth[cur] + 1 by {
        assert(popped[k] == waiting[k + 1]);
        assert(depth[waiting[0]] <= depth[waiting[k + 1]]);
    }
    assert forall|k: int, l: int| 0 <= k < l < popped.len() implies depth[#[trigger] popped[k]]
        <= depth[#[trigger] popped[l]] by {
        assert(popped[k] == waiting[k + 1]);
        assert(popped[l] == waiting[l + 1]);
    }
    assert forall|c: Pos|
        #[trigger] seen.contains(c) && !popped.contains(c) && c != cur implies depth[c] <= depth[cur]
        && closed_at(m, seen, depth, c) by {
        if waiting.contains(c) {
            let k = choose|k: int| 0 <= k < waiting.len() && waiting[k] == c;
            assert(popped[k - 1] == c);
        }
    }
}

/// Once every floor cell among the neighbours of `cur` was seen, `cur` is
/// closed as the other seen cells are that are not queued.
proof fn lemma_expanded(
    m: Matrix,
    w: int,
    h: int,
    queue: Seq<Pos>,
    seen: Set<Pos>,
    depth: Map<Pos, nat>,
    cur: Pos,
    around: Seq<Pos>,
)
    requires
        rectangular(m, w, h),
        around == neighbors_in(w, h, cur),
        forall|k: int|
            0 <= k < around.len() && floor(m, #[trigger] around[k]) ==> seen.contains(around[k])
                && depth[around[k]] <= depth[cur] + 1,
        forall|c: Pos|
            #[trigger] seen.contains(c) && !queue.contains(c) && c != cur ==> depth[c] <= depth[cur]
                && closed_at(m, seen, depth, c),
    ensures
        forall|c: Pos|
            #[trigger] seen.contains(c) && !queue.contains(c) ==> depth[c] <= depth[cur]
                && closed_at(m, seen, depth, c),
{
    assert(closed_at(m, seen, depth, cur)) by {
        assert forall|n: Pos| #[trigger] adjacent(cur, n) && floor(m, n) implies seen.contains(n)
            && depth[n] <= depth[cur] + 1 by {
            lemma_floor_in_bounds(m, w, h, n);
            lemma_neighbors_complete(w, h, cur, n);
            let k = choose|k: int| 0 <= k < around.len() && around[k] == n;
            assert(floor(m, around[k]));
        }
    }
}

/// A route from the root of a traversal stays among the seen cells, and
/// goes no deeper than it is long, once every seen cell has all its floor
/// neighbours seen.
proof fn lemma_route_seen(
    m: Matrix,
    from: Pos,
    seen: Set<Pos>,
    depth: Map<Pos, nat>,
    path: Seq<Pos>,
    i: int,
)
    requires
        is_route(m, Set::empty(), path),
        path[0] == from,
        seen.contains(from),
        depth[from] == 0,
        forall|c: Pos| #[trigger] seen.contains(c) ==> closed_at(m, seen, depth, c),
        0 <= i < path.len(),
    ensures
        seen.contains(path[i]),
        depth[path[i]] <= i,
    decreases i,
{
    if i > 0 {
        lemma_route_seen(m, from, seen, depth, path, i - 1);
        assert(closed_at(m, seen, depth, path[i - 1]));
        assert(adjacent(path[i - 1], path[i]));
        assert(floor(m, path[i]));
    }
}

/// The tree of a traversal holds, for every seen cell, a walk from the
/// root to it that goes one level deeper with every step, and over floor
/// cells after the root.
proof fn lemma_tree_path(
    m: Matrix,
    from: Pos,
    seen: Set<Pos>,
    parents: Map<Pos, Pos>,
    depth: Map<Pos, nat>,
    c: Pos,
) -> (path: Seq<Pos>)
    requires
        traversed(m, from, seen, parents, depth),
        seen.contains(c),
    ensures
        path.len() == depth[c] + 1,
        path[0] == from,
        path.last() == c,
        is_walk(path),
        forall|i: int| 0 <= i < path.len() ==> depth[#[trigger] path[i]] == i,
        forall|i: int| 0 < i < path.len() ==> floor(m, #[trigger] path[i]) && path[i] != from,
{
    let path = lemma_trail_exists(parents, depth, from, c);
    lemma_trail_is_walk(parents, depth, from, c, path);
    assert forall|i: int| 0 < i < path.len() implies floor(m, #[trigger] path[i]) && path[i]
        != from by {
        assert(parents.contains_key(path[i]));
    }
    path
}

/// The tree of a traversal holds a route from the root to every seen
/// cell. Unless the cell is `far` itself, the route passes neither the
/// root again nor `far`, where `far` lies at least as deep as the cell.
proof fn lemma_tree_route(
    m: Matrix,
    from: Pos,
    seen: Set<Pos>,
    parents: Map<Pos, Pos>,
    depth: Map<Pos, nat>,
    far: Pos,
    c: Pos,
)
    requires
        traversed(m, from, seen, parents, depth),
        seen.contains(c),
        depth[c] <= depth[far],
    ensures
        linked(m, Set::empty(), from, c),
        c != far ==> linked(m, set![from, far], from, c),
{
    let path = lemma_tree_path(m, from, seen, parents, depth, c);
    lemma_path_routes(m, from, depth, far, c, path);
}

/// A walk from `from` to `c` that goes one level deeper with every step,
/// over floor cells after `from`, is a route; and it passes neither `from`
/// again nor a cell `far` that lies at least as deep as `c`, unless that
/// is `c` itself.
proof fn lemma_path_routes(
    m: Matrix,
    from: Pos,
    depth: Map<Pos, nat>,
    far: Pos,
    c: Pos,
    path: Seq<Pos>,
)
    requires
        path.len() == depth[c] + 1,
        path[0] == from,
        path.last() == c,
        is_walk(path),
        forall|i: int| 0 <= i < path.len() ==> depth[#[trigger] path[i]] == i,
        forall|i: int| 0 < i < path.len() ==> floor(m, #[trigger] path[i]) && path[i] != from,
        depth[c] <= depth[far],
    ensures
        linked(m, Set::empty(), from, c),
        c != far ==> linked(m, set![from, far], from, c),
{
    assert(is_route(m, Set::empty(), path));
    if c != far {
        assert(is_route(m, set![from, far], path)) by {
            assert forall|i: int| 0 < i < path.len() implies floor(m, #[trigger] path[i]) && !set![
                from,
                far,
            ].contains(path[i]) by {
                assert(depth[path[i]] == i);
            }
        }
    }
}

/// Whatever is linked to the root of a finished traversal was seen.
proof fn lemma_linked_seen(m: Matrix, from: Pos, seen: Set<Pos>, depth: Map<Pos, nat>, c: Pos)
    requires
        seen.contains(from),
        depth[from] == 0,
        forall|c: Pos| #[trigger] seen.contains(c) ==> closed_at(m, seen, depth, c),
        linked(m, Set::empty(), from, c),
    ensures
        seen.contains(c),
{
    let given = choose|path: Seq<Pos>| #[trigger]
        is_route(m, Set::empty(), path) && path[0] == from && path.last() == c;
    lemma_route_seen(m, from, seen, depth, given, given.len() - 1);
}

/// At the end of a traversal the cell dequeued last is linked to the root,
/// and every other cell that is linked to the root is so by a route that
/// passes neither of the two again. The cell dequeued last is the root
/// only where nothing else is linked to it, and no route to it is shorter
/// than the shortest to any other cell.
proof fn lemma_traversal_done(
    m: Matrix,
    from: Pos,
    seen: Set<Pos>,
    parents: Map<Pos, Pos>,
    depth: Map<Pos, nat>,
    far: Pos,
)
    requires
        traversed(m, from, seen, parents, depth),
        seen.contains(far),
        forall|c: Pos| #[trigger] seen.contains(c) ==> depth[c] <= depth[far] && closed_at(m, seen, depth, c),
    ensures
        linked(m, Set::empty(), from, far),
        forall|c: Pos|
            #[trigger] linked(m, Set::empty(), from, c) && c != far ==> linked(
                m,
                set![from, far],
                from,
                c,
            ),
        forall|c: Pos| #[trigger] linked(m, Set::empty(), from, c) && c != from ==> far != from,
        forall|c: Pos, len: nat|
            #![trigger linked_within(m, from, far, len), linked(m, Set::empty(), from, c)]
            linked_within(m, from, far, len) && linked(m, Set::empty(), from, c) ==> linked_within(
                m,
                from,
                c,
                len,
            ),
{
    lemma_tree_route(m, from, seen, parents, depth, far, far);
    assert forall|c: Pos, len: nat|
        #![trigger linked_within(m, from, far, len), linked(m, Set::empty(), from, c)]
        linked_within(m, from, far, len) && linked(
            m,
            Set::empty(),
            from,
            c,
        ) implies linked_within(m, from, c, len) by {
        let way = choose|path: Seq<Pos>| #[trigger]
            is_route(m, Set::empty(), path) && path[0] == from && path.last() == far && path.len()
                <= len;
        lemma_route_seen(m, from, seen, depth, way, way.len() - 1);
        lemma_linked_seen(m, from, seen, depth, c);
        let short = lemma_tree_path(m, from, seen, parents, depth, c);
        assert(is_route(m, Set::empty(), short));
    }
    assert forall|c: Pos| #[trigger] linked(m, Set::empty(), from, c) && c != from implies far
        != from by {
        lemma_linked_seen(m, from, seen, depth, c);
        assert(parents.contains_key(c));
        assert(depth[c] == depth[parents[c]] + 1);
    }
    assert forall|c: Pos| #[trigger] linked(m, Set::empty(), from, c) && c != far implies linked(
        m,
        set![from, far],
        from,
        c,
    ) by {
        lemma_linked_seen(m, from, seen, depth, c);
        lemma_tree_route(m, from, seen, parents, depth, far, c);
    }
}

/// Whether a matrix with an empty cell has a start cell, and every empty
/// cell can be reached from every start cell by steps between adjacent
/// cells, over empty cells only.
pub open spec fn cave_connected(m: Matrix) -> bool {
    &&& occurs(m, Cell::Empty) ==> occurs(m, Cell::Start)
    &&& forall|s: Pos, e: Pos|
        holds(m, s, Cell::Start) && floor(m, e) ==> #[trigger] linked(m, Set::empty(), s, e)
}

/// What two writes, of a start at `far1` and then of an end at `far2`,
/// leave at `(x, y)`.
proof fn lemma_endpoint_cells(m: Matrix, far1: Pos, far2: Pos, x: int, y: int)
    ensures
        matrix_cell(marked(m, far1, far2), x, y) == if matrix_cell(m, x, y).is_none() {
            None
        } else if x == far2.0 && y == far2.1 {
            Some(Cell::End)
        } else if x == far1.0 && y == far1.1 {
            Some(Cell::Start)
        } else {
            matrix_cell(m, x, y)
        },
{
    let first = matrix_set(m, far1.0 as int, far1.1 as int, Cell::Start);
    lemma_matrix_set_cell(m, far1.0 as int, far1.1 as int, Cell::Start, x, y);
    lemma_matrix_set_cell(m, far1.0 as int, far1.1 as int, Cell::Start, far2.0 as int, far2.1 as int);
    lemma_matrix_set_cell(first, far2.0 as int, far2.1 as int, Cell::End, x, y);
}

/// Setting a start and then an end on two floor cells of a matrix without
/// endpoints takes no wall away and leaves one end, and no start but the
/// one set.
pub proof fn lemma_endpoints_tidy(m: Matrix, far1: Pos, far2: Pos)
    requires
        plain(m),
        floor(m, far1),
        floor(m, far2),
    ensures
        keeps_walls(m, marked(m, far1, far2)),
        at_most_one(marked(m, far1, far2), Cell::Start),
        at_most_one(marked(m, far1, far2), Cell::End),
        occurs(marked(m, far1, far2), Cell::End),
        any_open(marked(m, far1, far2)),
{
    let after = marked(m, far1, far2);
    assert forall|x: int, y: int| matrix_cell(m, x, y) == Some(Cell::Wall) implies matrix_cell(
        after,
        x,
        y,
    ) == Some(Cell::Wall) by {
        lemma_endpoint_cells(m, far1, far2, x, y);
    }
    assert forall|a: Pos, b: Pos| #[trigger]
        holds(after, a, Cell::Start) && #[trigger] holds(after, b, Cell::Start) implies a == b by {
        lemma_endpoint_cells(m, far1, far2, a.0 as int, a.1 as int);
        lemma_endpoint_cells(m, far1, far2, b.0 as int, b.1 as int);
        assert(matrix_cell(m, a.0 as int, a.1 as int) != Some(Cell::Start));
        assert(matrix_cell(m, b.0 as int, b.1 as int) != Some(Cell::Start));
        assert(a == far1 && b == far1);
    }
    assert forall|a: Pos, b: Pos| #[trigger]
        holds(after, a, Cell::End) && #[trigger] holds(after, b, Cell::End) implies a == b by {
        lemma_endpoint_cells(m, far1, far2, a.0 as int, a.1 as int);
        lemma_endpoint_cells(m, far1, far2, b.0 as int, b.1 as int);
        assert(matrix_cell(m, a.0 as int, a.1 as int) != Some(Cell::End));
        assert(matrix_cell(m, b.0 as int, b.1 as int) != Some(Cell::End));
        assert(a == far2 && b == far2);
    }
    lemma_endpoint_cells(m, far1, far2, far2.0 as int, far2.1 as int);
    assert(holds(after, far2, Cell::End));
    assert(open_cell(after, far2.0 as int, far2.1 as int));
}

/// A route that begins on a floor cell ends on one.
pub proof fn lemma_linked_floor(m: Matrix, a: Pos, b: Pos)
    requires
        floor(m, a),
        linked(m, Set::empty(), a, b),
    ensures
        floor(m, b),
{
    let path = choose|path: Seq<Pos>| #[trigger]
        is_route(m, Set::empty(), path) && path[0] == a && path.last() == b;
    if path.len() > 1 {
        assert(floor(m, path[path.len() - 1]));
    }
}

/// What emptying the endpoints leaves: no endpoint, every wall, and an
/// empty cell wherever there was an empty cell or an endpoint.
pub proof fn lemma_cleared(m: Matrix)
    ensures
        plain(cleared(m)),
        keeps_walls(m, cleared(m)),
        forall|x: int, y: int|
            open_cell(m, x, y) ==> #[trigger] matrix_cell(cleared(m), x, y) == Some(Cell::Empty),
        forall|x: int, y: int|
            !open_cell(m, x, y) ==> #[trigger] matrix_cell(cleared(m), x, y) == matrix_cell(m, x, y),
{
}

/// Every cell that is empty or holds an endpoint is a candidate, once the
/// scan has passed it.
pub proof fn lemma_candidates_complete(m: Matrix, w: int, h: int, x: int, y: int, a: int, b: int)
    requires
        0 <= a < w <= usize::MAX,
        0 <= b <= usize::MAX,
        0 <= x <= w,
        0 <= y,
        b < y || (b == y && a < x),
        open_cell(m, a, b),
    ensures
        candidates_scan(m, w, h, x, y).contains((a as usize, b as usize)),
    decreases y, x,
{
    if x > 0 {
        let before = candidates_scan(m, w, h, x - 1, y);
        if a == x - 1 && b == y {
            assert(before.push((a as usize, b as usize)).last() == (a as usize, b as usize));
        } else {
            lemma_candidates_complete(m, w, h, x - 1, y, a, b);
            let k = choose|k: int| 0 <= k < before.len() && before[k] == (a as usize, b as usize);
            assert(candidates_scan(m, w, h, x, y)[k] == (a as usize, b as usize));
        }
    } else {
        lemma_candidates_complete(m, w, h, w, y - 1, a, b);
    }
}

/// A matrix without endpoints has nothing to clear.
pub proof fn lemma_cleared_plain(m: Matrix)
    requires
        plain(m),
    ensures
        cleared(m) == m,
{
    assert forall|y: int| 0 <= y < m.len() implies #[trigger] cleared(m)[y] =~= m[y] by {
        assert forall|x: int| 0 <= x < m[y].len() implies cleared(m)[y][x] == m[y][x] by {
            assert(matrix_cell(m, x, y) == Some(m[y][x]));
        }
    }
    assert(cleared(m) =~= m);
}

/// Every candidate is a cell that is empty or holds an endpoint.
pub proof fn lemma_candidates_open(m: Matrix, w: int, h: int, x: int, y: int, k: int)
    requires
        rectangular(m, w, h),
        w <= usize::MAX,
        h <= usize::MAX,
        0 <= k < candidates_scan(m, w, h, x, y).len(),
    ensures
        open_cell(
            m,
            candidates_scan(m, w, h, x, y)[k].0 as int,
            candidates_scan(m, w, h, x, y)[k].1 as int,
        ),
    decreases y, x,
{
    if x > 0 {
        let before = candidates_scan(m, w, h, x - 1, y);
        if k < before.len() {
            lemma_candidates_open(m, w, h, x - 1, y, k);
        }
    } else if y > 0 && w >= 0 {
        lemma_candidates_open(m, w, h, w, y - 1, k);
    }
}

/// Setting the endpoints by two traversals on a matrix without endpoints
/// whose floor is one connected region, begun on a floor cell, leaves
/// every empty cell reachable from the start over empty cells.
pub proof fn lemma_endpoints_connected(m: Matrix, w: int, h: int, from: Pos, far1: Pos, far2: Pos)
    requires
        plain(m),
        joined(m),
        floor(m, from),
        linked(m, Set::empty(), from, far1),
        forall|c: Pos|
            #[trigger] linked(m, Set::empty(), far1, c) && c != far2 ==> linked(
                m,
                set![far1, far2],
                far1,
                c,
            ),
        forall|c: Pos| #[trigger] linked(m, Set::empty(), far1, c) && c != far1 ==> far2 != far1,
    ensures
        cave_connected(marked(m, far1, far2)),
{
    let first = matrix_set(m, far1.0 as int, far1.1 as int, Cell::Start);
    let after = marked(m, far1, far2);
    assert forall|p: Pos| #[trigger] matrix_cell(after, p.0 as int, p.1 as int) == if matrix_cell(
        m,
        p.0 as int,
        p.1 as int,
    ).is_none() {
        None
    } else if p == far2 {
        Some(Cell::End)
    } else if p == far1 {
        Some(Cell::Start)
    } else {
        matrix_cell(m, p.0 as int, p.1 as int)
    } by {
        assert(matrix_cell(first, p.0 as int, p.1 as int) == if matrix_cell(
            m,
            p.0 as int,
            p.1 as int,
        ).is_some() && p == far1 {
            Some(Cell::Start)
        } else {
            matrix_cell(m, p.0 as int, p.1 as int)
        });
    }
    lemma_linked_floor(m, from, far1);
    assert forall|e: Pos| floor(after, e) implies floor(m, e) && e != far1 && e != far2 && linked(
        m,
        Set::empty(),
        far1,
        e,
    ) by {
        assert(floor(m, e) && e != far1 && e != far2);
        assert(connected(m, far1, e));
        let way = choose|path: Seq<Pos>| #[trigger]
            is_way(m, Set::empty(), path) && path[0] == far1 && path.last() == e;
        assert(is_route(m, Set::empty(), way)) by {
            assert forall|i: int| 0 < i < way.len() implies floor(m, #[trigger] way[i])
                && !Set::<Pos>::empty().contains(way[i]) by {}
        }
    }
    if occurs(after, Cell::Empty) {
        let e = choose|e: Pos| #[trigger] holds(after, e, Cell::Empty);
        assert(floor(after, e));
        assert(far2 != far1);
        assert(holds(after, far1, Cell::Start));
    }
    assert forall|s: Pos, e: Pos|
        holds(after, s, Cell::Start) && floor(after, e) implies #[trigger] linked(
        after,
        Set::empty(),
        s,
        e,
    ) by {
        assert(matrix_cell(m, s.0 as int, s.1 as int) != Some(Cell::Start));
        assert(s == far1);
        assert(linked(m, Set::empty(), far1, e));
        let path = choose|path: Seq<Pos>| #[trigger]
            is_route(m, set![far1, far2], path) && path[0] == far1 && path.last() == e;
        assert(is_route(after, Set::empty(), path)) by {
            assert forall|i: int| 0 < i < path.len() implies floor(after, #[trigger] path[i])
                && !Set::<Pos>::empty().contains(path[i]) by {
                assert(floor(m, path[i]) && !set![far1, far2].contains(path[i]));
            }
        }
    }
}

impl CellularAutomata {
    /// The cell that a breadth-first traversal over floor cells, begun at
    /// `from`, dequeues last: a cell as far from `from` as any, though
    /// which of several is left to the order of the traversal. A route
    /// leads from `from` to it; and whatever else a route leads to from
    /// `from`, a route leads there that passes neither it nor `from` again,
    /// and one that is no longer than the shortest to the cell returned.
    /// It is `from` itself only where no route leads anywhere else.
    pub fn find_furthest(&self, grid: &Grid, from: Pos) -> (far: Pos)
        requires
            grid.wf(),
        ensures
            far == furthest(grid@, grid.width as int, grid.height as int, from),
            linked(grid@, Set::empty(), from, far),
            forall|c: Pos|
                #[trigger] linked(grid@, Set::empty(), from, c) && c != far ==> linked(
                    grid@,
                    set![from, far],
                    from,
                    c,
                ),
            forall|c: Pos|
                #[trigger] linked(grid@, Set::empty(), from, c) && c != from ==> far != from,
            forall|c: Pos, len: nat|
                #![trigger linked_within(grid@, from, far, len), linked(grid@, Set::empty(), from, c)]
                linked_within(grid@, from, far, len) && linked(grid@, Set::empty(), from, c)
                    ==> linked_within(grid@, from, c, len),
    {
        let mut visited = PosSet::new();
        let mut queue: VecDeque<Pos> = VecDeque::new();
        let mut furthest_cell = from;
        let ghost m = grid@;
        let ghost w = grid.width as int;
        let ghost h = grid.height as int;
        let ghost mut parents: Map<Pos, Pos> = Map::empty();
        let ghost mut depth: Map<Pos, nat> = Map::empty().insert(from, 0nat);

        queue.push_back(from);
        visited.insert(from);
        let ghost mut fuel: nat = (w * h + 1) as nat;
        proof {
            grid.lemma_view();
            assert(0 <= w * h) by (nonlinear_arith)
                requires
                    0 <= w,
                    0 <= h,
            ;
            lemma_unvisited_finite(w, h, visited@);
            assert(queue@ =~= seq![from]);
            assert(visited@ =~= set![from]);
            assert(queue@[0] == from);
            assert(queue@.contains(from));
        }
        while queue.len() > 0
            invariant
                grid.wf(),
                grid@ == m,
                grid.width == w,
                grid.height == h,
                rectangular(m, w, h),
                visited.wf(),
                fuel >= queue@.len() + unvisited(w, h, visited@).len(),
                furthest(m, w, h, from) == sweep(m, w, h, queue@, visited@, furthest_cell, fuel),
                traversed(m, from, visited@, parents, depth),
                visited@.contains(furthest_cell),
                lined_up(queue@, visited@, depth, furthest_cell),
                forall|c: Pos|
                    #[trigger] visited@.contains(c) && !queue@.contains(c) ==> depth[c]
                        <= depth[furthest_cell] && closed_at(m, visited@, depth, c),
            decreases fuel,
        {
            let ghost waiting = queue@;
            let ghost last = furthest_cell;
            let cur = queue.pop_front().unwrap();
            furthest_cell = cur;
            let around = grid.neighbors(cur.0, cur.1);
            let ghost popped = queue@;
            let ghost seen = visited@;
            proof {
                assert(popped =~= waiting.drop_first());
                assert(cur == waiting[0]);
                lemma_neighbors_adjacent(*grid, cur);
                lemma_dequeued(m, waiting, seen, depth, last);
            }
            let mut i: usize = 0;
            while i < around.len()
                invariant
                    i <= around@.len(),
                    grid.wf(),
                    grid@ == m,
                    grid.width == w,
                    grid.height == h,
                    visited.wf(),
                    forall|k: int|
                        0 <= k < around@.len() ==> (#[trigger] around@[k]).0 < w && around@[k].1 < h
                            && adjacent(cur, around@[k]),
                    (queue@, visited@) == admit_all(m, popped, seen, around@.take(i as int)),
                    queue@.len() + unvisited(w, h, visited@).len() == popped.len() + unvisited(
                        w,
                        h,
                        seen,
                    ).len(),
                    traversed(m, from, visited@, parents, depth),
                    visited@.contains(cur),
                    lined_up(queue@, visited@, depth, cur),
                    forall|c: Pos|
                        #[trigger] visited@.contains(c) && !queue@.contains(c) && c != cur ==> depth[c]
                            <= depth[cur] && closed_at(m, visited@, depth, c),
                    forall|k: int|
                        0 <= k < i && floor(m, #[trigger] around@[k]) ==> visited@.contains(around@[k])
                            && depth[around@[k]] <= depth[cur] + 1,
                decreases around@.len() - i,
            {
                let n = around[i];
                let ghost standing = queue@;
                let ghost known = visited@;
                proof {
                    assert(around@.take(i + 1).drop_last() =~= around@.take(i as int));
                    assert(around@.take(i + 1).last() == n);
                    grid.lemma_view();
                }
                let is_floor = match grid.get(n.0, n.1) {
                    Some(Cell::Empty) => true,
                    _ => false,
                };
                if !visited.contains(n) && is_floor {
                    proof {
                        lemma_unvisited_shrinks(w, h, visited@, n);
                    }
                    visited.insert(n);
                    queue.push_back(n);
                    proof {
                        let before = depth;
                        parents = parents.insert(n, cur);
                        depth = depth.insert(n, before[cur] + 1);
                        assert(n != cur && n != from);
                        assert(before.contains_key(cur));
                        assert forall|p: Pos| #[trigger] parents.contains_key(p) implies {
                            &&& p != from
                            &&& (parents[p] == from || parents.contains_key(parents[p]))
                            &&& depth.contains_key(p)
                            &&& depth.contains_key(parents[p])
                            &&& depth[p] == depth[parents[p]] + 1
                            &&& adjacent(parents[p], p)
                        } by {
                            if p != n {
                                assert(known.contains(parents[p]));
                            }
                        }
                        assert forall|k: int| 0 <= k < queue@.len() implies visited@.contains(
                            #[trigger] queue@[k],
                        ) && depth[cur] <= depth[queue@[k]] <= depth[cur] + 1 by {
                            if k < standing.len() {
                                assert(queue@[k] == standing[k]);
                                assert(known.contains(standing[k]));
                            }
                        }
                        assert forall|k: int, l: int| 0 <= k < l < queue@.len() implies depth[#[trigger] queue@[k]]
                            <= depth[#[trigger] queue@[l]] by {
                            assert(queue@[k] == standing[k]);
                            assert(known.contains(standing[k]));
                            if l < standing.len() {
                                assert(queue@[l] == standing[l]);
                                assert(known.contains(standing[l]));
                            }
                        }
                        assert forall|c: Pos|
                            #[trigger] visited@.contains(c) && !queue@.contains(c) && c != cur implies depth[c]
                            <= depth[cur] && closed_at(m, visited@, depth, c) by {
                            assert(queue@[standing.len() as int] == n);
                            assert(c != n);
                            if standing.contains(c) {
                                let k = choose|k: int| 0 <= k < standing.len() && standing[k] == c;
                                assert(queue@[k] == c);
                            }
                            assert(closed_at(m, known, before, c));
                        }
                    }
                }
                i += 1;
            }
            proof {
                assert(around@.take(around@.len() as int) =~= around@);
                lemma_expanded(m, w, h, queue@, visited@, depth, cur, around@);
                assert(sweep(m, w, h, waiting, seen, last, fuel) == sweep(
                    m,
                    w,
                    h,
                    queue@,
                    visited@,
                    cur,
                    (fuel - 1) as nat,
                ));
                fuel = (fuel - 1) as nat;
            }
        }
        proof {
            lemma_traversal_done(m, from, visited@, parents, depth, furthest_cell);
        }
        furthest_cell
    }

    /// Lists the cells that are empty or hold an endpoint, row by row, and
    /// empties those that hold an endpoint.
    pub fn collect_floor(&self, grid: &mut Grid) -> (floor_cells: Vec<Pos>)
        requires
            old(grid).wf(),
        ensures
            final(grid).wf(),
            final(grid).width == old(grid).width,
            final(grid).height == old(grid).height,
            final(grid)@ == cleared(old(grid)@),
            floor_cells@ == candidates(old(grid)@, old(grid).width as int, old(grid).height as int),
    {
        let mut floor_cells: Vec<Pos> = Vec::new();
        let ghost m = grid@;
        let ghost w = grid.width as int;
        let ghost h = grid.height as int;
        proof {
            grid.lemma_view();
        }
        let mut y: usize = 0;
        while y < grid.height
            invariant
                grid.wf(),
                grid.width == w,
                grid.height == h,
                rectangular(m, w, h),
                y <= h,
                floor_cells@ == candidates_scan(m, w, h, 0, y as int),
                forall|a: usize, b: usize|
                    a < w && b < h ==> #[trigger] grid.cell(a, b) == if b < y {
                        matrix_cell(cleared(m), a as int, b as int)
                    } else {
                        matrix_cell(m, a as int, b as int)
                    },
            decreases h - y,
        {
            let mut x: usize = 0;
            while x < grid.width
                invariant
                    grid.wf(),
                    grid.width == w,
                    grid.height == h,
                    rectangular(m, w, h),
                    y < h,
                    x <= w,
                    floor_cells@ == candidates_scan(m, w, h, x as int, y as int),
                    forall|a: usize, b: usize|
                        a < w && b < h ==> #[trigger] grid.cell(a, b) == if b < y || (b == y && a < x) {
                            matrix_cell(cleared(m), a as int, b as int)
                        } else {
                            matrix_cell(m, a as int, b as int)
                        },
                decreases w - x,
            {
                match grid.get(x, y) {
                    Some(Cell::Empty) => {
                        floor_cells.push((x, y));
                    },
                    Some(Cell::Start) => {
                        grid.set(x, y, Cell::Empty);
                        floor_cells.push((x, y));
                    },
                    Some(Cell::End) => {
                        grid.set(x, y, Cell::Empty);
                        floor_cells.push((x, y));
                    },
                    _ => {},
                }
                x += 1;
            }
            y += 1;
        }
        proof {
            grid.lemma_view();
            let target = cleared(m);
            assert forall|b: int| 0 <= b < h implies #[trigger] grid@[b] =~= target[b] by {
                assert forall|a: int| 0 <= a < w implies grid@[b][a] == target[b][a] by {
                    assert(grid.cell(a as usize, b as usize) == Some(grid@[b][a]));
                }
            }
            assert(grid@ =~= target);
        }
        floor_cells
    }

    /// Sets the two endpoints by two traversals in a row: the start where a
    /// traversal from `from` ends, and the end where a traversal from the
    /// start ends. Where both end on one cell, that cell holds the end.
    /// Begun on a floor cell of a grid without endpoints, this takes no
    /// wall away and leaves one end and at most one start; and where all
    /// floor is one region, a start from which every cell left empty can be
    /// reached, if any is left.
    pub fn place_from(&self, grid: &mut Grid, from: Pos)
        requires
            old(grid).wf(),
        ensures
            final(grid).wf(),
            final(grid).width == old(grid).width,
            final(grid).height == old(grid).height,
            final(grid)@ == with_endpoints(
                old(grid)@,
                old(grid).width as int,
                old(grid).height as int,
                from,
            ),
            plain(old(grid)@) && floor(old(grid)@, from) ==> {
                &&& keeps_walls(old(grid)@, final(grid)@)
                &&& at_most_one(final(grid)@, Cell::Start)
                &&& at_most_one(final(grid)@, Cell::End)
                &&& occurs(final(grid)@, Cell::End)
                &&& any_open(final(grid)@)
            },
            plain(old(grid)@) && joined(old(grid)@) && floor(old(grid)@, from) ==> cave_connected(
                final(grid)@,
            ),
    {
        let far1 = self.find_furthest(grid, from);
        let far2 = self.find_furthest(grid, far1);
        proof {
            let m = grid@;
            if plain(m) && floor(m, from) {
                lemma_linked_floor(m, from, far1);
                lemma_linked_floor(m, far1, far2);
                lemma_endpoints_tidy(m, far1, far2);
                if joined(m) {
                    lemma_endpoints_connected(
                        m,
                        grid.width as int,
                        grid.height as int,
                        from,
                        far1,
                        far2,
                    );
                }
            }
        }

        grid.set(far1.0, far1.1, Cell::Start);
        grid.set(far2.0, far2.1, Cell::End);
    }

    /// Phase four: resets old endpoints, picks one floor cell from the
    /// stream, and places the endpoints from it. A grid without floor is
    /// left without endpoints, and the stream untouched. The cell picked
    /// is one of the candidates. No wall is taken away, and the grid is
    /// left with at most one start and one end: an end wherever any cell
    /// is no wall.
    pub(crate) fn place_endpoints(&self, grid: &mut Grid, rng: &mut StdRng)
        requires
            old(grid).wf(),
        ensures
            final(grid).wf(),
            final(grid).width == old(grid).width,
            final(grid).height == old(grid).height,
            final(grid)@ == placed(
                old(grid)@,
                old(grid).width as int,
                old(grid).height as int,
                *old(rng),
            ),
            pick_in_range(
                candidates(old(grid)@, old(grid).width as int, old(grid).height as int),
                *old(rng),
            ),
            keeps_walls(old(grid)@, final(grid)@),
            at_most_one(final(grid)@, Cell::Start),
            at_most_one(final(grid)@, Cell::End),
            occurs(final(grid)@, Cell::End) <==> any_open(final(grid)@),
            plain(old(grid)@) && joined(old(grid)@) ==> cave_connected(final(grid)@),
    {
        let ghost m = grid@;
        let ghost w = grid.width as int;
        let ghost h = grid.height as int;
        let floor_cells = self.collect_floor(grid);
        proof {
            old(grid).lemma_view();
            lemma_cleared(m);
            if plain(m) {
                lemma_cleared_plain(m);
            }
        }

        if floor_cells.len() == 0 {
            proof {
                assert forall|p: Pos|
                    matrix_cell(m, p.0 as int, p.1 as int).is_some() implies #[trigger] holds(
                    grid@,
                    p,
                    Cell::Wall,
                ) by {
                    if open_cell(m, p.0 as int, p.1 as int) {
                        lemma_candidates_complete(m, w, h, 0, h, p.0 as int, p.1 as int);
                    }
                }
                assert forall|p: Pos| !open_cell(grid@, p.0 as int, p.1 as int) by {
                    if open_cell(grid@, p.0 as int, p.1 as int) {
                        assert(holds(grid@, p, Cell::Wall));
                    }
                }
                assert forall|p: Pos| !holds(grid@, p, Cell::Empty) && !holds(
                    grid@,
                    p,
                    Cell::End,
                ) by {
                    assert(!open_cell(grid@, p.0 as int, p.1 as int));
                }
            }
            return;
        }
        let index = index_below(rng, floor_cells.len() as u64);
        let random_start = floor_cells[index as usize];
        proof {
            lemma_candidates_open(m, w, h, 0, h, index as int);
        }
        self.place_from(grid, random_start);
    }
}

/// The matrix with every endpoint emptied.
pub open spec fn cleared(m: Matrix) -> Matrix {
    Seq::new(
        m.len(),
        |y: int|
            Seq::new(
                m[y].len(),
                |x: int|
                    if m[y][x] == Cell::Start || m[y][x] == Cell::End {
                        Cell::Empty
                    } else {
                        m[y][x]
                    },
            ),
    )
}

/// The cells that are empty or hold an endpoint, among those that a
/// row-by-row scan has passed when it stands at `(x, y)`.
pub open spec fn candidates_scan(m: Matrix, w: int, h: int, x: int, y: int) -> Seq<Pos>
    decreases y, x,
{
    if x > 0 {
        let before = candidates_scan(m, w, h, x - 1, y);
        if open_cell(m, x - 1, y) {
            before.push(((x - 1) as usize, y as usize))
        } else {
            before
        }
    } else if y > 0 && w >= 0 {
        candidates_scan(m, w, h, w, y - 1)
    } else {
        Seq::empty()
    }
}

/// The cells from which endpoint placement picks: those that are empty or
/// hold an endpoint, row by row.
pub open spec fn candidates(m: Matrix, w: int, h: int) -> Seq<Pos> {
    candidates_scan(m, w, h, 0, h)
}

/// The matrix with a start written at `far1` and then an end at `far2`.
pub open spec fn marked(m: Matrix, far1: Pos, far2: Pos) -> Matrix {
    matrix_set(
        matrix_set(m, far1.0 as int, far1.1 as int, Cell::Start),
        far2.0 as int,
        far2.1 as int,
        Cell::End,
    )
}

/// The matrix with the start set where a traversal from `from` ends, and
/// then the end set where a traversal from the start ends.
pub open spec fn with_endpoints(m: Matrix, w: int, h: int, from: Pos) -> Matrix {
    let far1 = furthest(m, w, h, from);
    marked(m, far1, furthest(m, w, h, far1))
}

/// The candidate that the stream picks among `count` of them.
pub open spec fn picked(stream: StdRng, count: nat) -> int {
    index_draw(stream, count as u64).0 as int
}

/// Whether what the stream picks among `spots`, where there are any, is
/// one of them.
pub open spec fn pick_in_range(spots: Seq<Pos>, stream: StdRng) -> bool {
    spots.len() > 0 ==> 0 <= picked(stream, spots.len()) < spots.len()
}

/// The matrix after endpoint placement: old endpoints emptied, and new
/// ones placed from the candidate that the stream picks, where there is
/// any candidate.
pub open spec fn placed(m: Matrix, w: int, h: int, stream: StdRng) -> Matrix {
    let spots = candidates(m, w, h);
    if spots.len() == 0 {
        cleared(m)
    } else {
        with_endpoints(cleared(m), w, h, spots[picked(stream, spots.len())])
    }
}

} // verus!
