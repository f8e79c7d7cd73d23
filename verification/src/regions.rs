//! Connected regions of empty cells: what it means for two cells to be
//! connected, the flood fill that collects one region, and the pruning that
//! keeps the largest region only.

use crate::cellular_automata::CellularAutomata;
use crate::grid::{
    adjacent, keeps_walls, matrix_cell, neighbors_in, rectangular, Cell, Grid, Matrix, Pos,
};
use crate::lookup::PosSet;
use crate::pathfinding::{is_walk, lemma_neighbors_adjacent};
use std::collections::VecDeque;
use vstd::prelude::*;
use vstd::set_lib::{lemma_len_subset, lemma_len_union};

verus! {

/// Whether the cell at `p` is empty floor.
pub open spec fn floor(m: Matrix, p: Pos) -> bool {
    matrix_cell(m, p.0 as int, p.1 as int) == Some(Cell::Empty)
}

/// `path` is a walk over floor cells, none of them in `blocked`.
pub open spec fn is_way(m: Matrix, blocked: Set<Pos>, path: Seq<Pos>) -> bool {
    &&& path.len() > 0
    &&& is_walk(path)
    &&& forall|i: int|
        0 <= i < path.len() ==> floor(m, #[trigger] path[i]) && !blocked.contains(path[i])
}

/// Whether a way outside `blocked` leads from `a` to `b`.
pub open spec fn reaches(m: Matrix, blocked: Set<Pos>, a: Pos, b: Pos) -> bool {
    exists|path: Seq<Pos>| #[trigger] is_way(m, blocked, path) && path[0] == a && path.last() == b
}

/// Whether two floor cells are connected under four-directional adjacency.
pub open spec fn connected(m: Matrix, a: Pos, b: Pos) -> bool {
    reaches(m, Set::empty(), a, b)
}

/// The connected region of `p`: every cell connected to it.
pub open spec fn component(m: Matrix, p: Pos) -> Set<Pos> {
    Set::new(|c: Pos| connected(m, p, c))
}

/// The positions of a `w` by `h` grid.
pub open spec fn rect(w: int, h: int) -> Set<Pos> {
    Set::new(|p: Pos| p.0 < w && p.1 < h)
}

/// The positions of a `w` by `h` grid that are not in `visited`.
pub open spec fn unvisited(w: int, h: int, visited: Set<Pos>) -> Set<Pos> {
    Set::new(|p: Pos| p.0 < w && p.1 < h && !visited.contains(p))
}

/// A grid has finitely many positions, at most `w * h`.
pub proof fn lemma_rect_finite(w: int, h: int)
    requires
        0 <= w,
        0 <= h,
    ensures
        rect(w, h).finite(),
        rect(w, h).len() <= w * h,
    decreases h,
{
    if h == 0 {
        assert(rect(w, h) =~= Set::<Pos>::empty());
        assert(w * h == 0) by (nonlinear_arith)
            requires
                h == 0,
        ;
    } else {
        lemma_rect_finite(w, h - 1);
        lemma_row_finite(w, h - 1);
        let row = Set::new(|p: Pos| p.0 < w && p.1 == h - 1);
        assert(rect(w, h) =~= rect(w, h - 1).union(row));
        lemma_len_union(rect(w, h - 1), row);
        assert(w * h == w * (h - 1) + w) by (nonlinear_arith);
    }
}

/// One row of a grid has finitely many positions, at most `w`.
proof fn lemma_row_finite(w: int, y: int)
    requires
        0 <= w,
    ensures
        Set::new(|p: Pos| p.0 < w && p.1 == y).finite(),
        Set::new(|p: Pos| p.0 < w && p.1 == y).len() <= w,
    decreases w,
{
    let row = Set::new(|p: Pos| p.0 < w && p.1 == y);
    if w == 0 || y < 0 || y > usize::MAX {
        assert(row =~= Set::<Pos>::empty());
    } else {
        lemma_row_finite(w - 1, y);
        let shorter = Set::new(|p: Pos| p.0 < w - 1 && p.1 == y);
        if w - 1 <= usize::MAX {
            assert(row =~= shorter.insert(((w - 1) as usize, y as usize)));
        } else {
            assert(row =~= shorter);
        }
    }
}

/// The unvisited positions of a grid are finitely many.
pub proof fn lemma_unvisited_finite(w: int, h: int, visited: Set<Pos>)
    requires
        0 <= w,
        0 <= h,
    ensures
        unvisited(w, h, visited).finite(),
        unvisited(w, h, visited).len() <= w * h,
{
    lemma_rect_finite(w, h);
    assert(unvisited(w, h, visited).subset_of(rect(w, h)));
    lemma_len_subset(unvisited(w, h, visited), rect(w, h));
}

/// Visiting an unvisited position leaves one fewer.
pub proof fn lemma_unvisited_shrinks(w: int, h: int, visited: Set<Pos>, p: Pos)
    requires
        0 <= w,
        0 <= h,
        p.0 < w,
        p.1 < h,
        !visited.contains(p),
    ensures
        unvisited(w, h, visited.insert(p)).len() + 1 == unvisited(w, h, visited).len(),
{
    lemma_unvisited_finite(w, h, visited);
    assert(unvisited(w, h, visited.insert(p)) =~= unvisited(w, h, visited).remove(p));
}

/// Every position of the grid that is adjacent to `p` is among the
/// neighbours that the grid enumerates for `p`.
pub proof fn lemma_neighbors_complete(w: int, h: int, p: Pos, n: Pos)
    requires
        adjacent(p, n),
        n.0 < w,
        n.1 < h,
    ensures
        neighbors_in(w, h, p).contains(n),
{
    let (x, y) = p;
    let left: Seq<Pos> = if 0 < x && x - 1 < w && y < h {
        seq![((x - 1) as usize, y)]
    } else {
        seq![]
    };
    let right: Seq<Pos> = if x + 1 < w && y < h && x < usize::MAX {
        seq![((x + 1) as usize, y)]
    } else {
        seq![]
    };
    let up: Seq<Pos> = if 0 < y && y - 1 < h && x < w {
        seq![(x, (y - 1) as usize)]
    } else {
        seq![]
    };
    let down: Seq<Pos> = if y + 1 < h && x < w && y < usize::MAX {
        seq![(x, (y + 1) as usize)]
    } else {
        seq![]
    };
    let around = left + right + up + down;
    assert(around == neighbors_in(w, h, p));
    if n.1 == p.1 && n.0 + 1 == p.0 {
        assert(around[0] == n);
    } else if n.1 == p.1 && p.0 + 1 == n.0 {
        assert(around[left.len() as int] == n);
    } else if n.0 == p.0 && n.1 + 1 == p.1 {
        assert(around[(left.len() + right.len()) as int] == n);
    } else {
        assert(around[(left.len() + right.len() + up.len()) as int] == n);
    }
}

/// A floor cell reaches itself.
pub proof fn lemma_reaches_self(m: Matrix, blocked: Set<Pos>, a: Pos)
    requires
        floor(m, a),
        !blocked.contains(a),
    ensures
        reaches(m, blocked, a, a),
{
    let path = seq![a];
    assert(is_way(m, blocked, path) && path[0] == a && path.last() == a);
}

/// A way can be continued by one adjacent floor cell.
pub proof fn lemma_reaches_step(m: Matrix, blocked: Set<Pos>, a: Pos, b: Pos, c: Pos)
    requires
        reaches(m, blocked, a, b),
        adjacent(b, c),
        floor(m, c),
        !blocked.contains(c),
    ensures
        reaches(m, blocked, a, c),
{
    let path = choose|path: Seq<Pos>| #[trigger]
        is_way(m, blocked, path) && path[0] == a && path.last() == b;
    let longer = path.push(c);
    assert(is_way(m, blocked, longer)) by {
        assert forall|i: int| 0 <= i < longer.len() - 1 implies adjacent(
            #[trigger] longer[i],
            longer[i + 1],
        ) by {
            if i < path.len() - 1 {
                assert(adjacent(path[i], path[i + 1]));
            }
        }
        assert forall|i: int| 0 <= i < longer.len() implies floor(m, #[trigger] longer[i])
            && !blocked.contains(longer[i]) by {
            if i < path.len() {
                assert(floor(m, path[i]));
            }
        }
    }
    assert(longer[0] == a && longer.last() == c);
}

/// Two ways, the second beginning where the first ends, make one way.
pub proof fn lemma_reaches_transitive(m: Matrix, blocked: Set<Pos>, a: Pos, b: Pos, c: Pos)
    requires
        reaches(m, blocked, a, b),
        reaches(m, blocked, b, c),
    ensures
        reaches(m, blocked, a, c),
{
    let first = choose|path: Seq<Pos>| #[trigger]
        is_way(m, blocked, path) && path[0] == a && path.last() == b;
    let second = choose|path: Seq<Pos>| #[trigger]
        is_way(m, blocked, path) && path[0] == b && path.last() == c;
    let whole = first + second.drop_first();
    assert(is_way(m, blocked, whole)) by {
        assert forall|i: int| 0 <= i < whole.len() - 1 implies adjacent(
            #[trigger] whole[i],
            whole[i + 1],
        ) by {
            if i < first.len() - 1 {
                assert(adjacent(first[i], first[i + 1]));
            } else {
                let k = i - first.len() + 1;
                assert(adjacent(second[k], second[k + 1]));
            }
        }
        assert forall|i: int| 0 <= i < whole.len() implies floor(m, #[trigger] whole[i])
            && !blocked.contains(whole[i]) by {
            if i < first.len() {
                assert(floor(m, first[i]));
            } else {
                assert(floor(m, second[i - first.len() + 1]));
            }
        }
    }
    assert(whole[0] == a);
    assert(whole.last() == c) by {
        if second.len() == 1 {
            assert(whole =~= first);
        } else {
            assert(whole.last() == second.last());
        }
    }
}

/// A way walked backwards is a way.
pub proof fn lemma_reaches_symmetric(m: Matrix, blocked: Set<Pos>, a: Pos, b: Pos)
    requires
        reaches(m, blocked, a, b),
    ensures
        reaches(m, blocked, b, a),
{
    let path = choose|path: Seq<Pos>| #[trigger]
        is_way(m, blocked, path) && path[0] == a && path.last() == b;
    let back = path.reverse();
    assert(is_way(m, blocked, back)) by {
        assert forall|i: int| 0 <= i < back.len() - 1 implies adjacent(
            #[trigger] back[i],
            back[i + 1],
        ) by {
            let k = path.len() - 2 - i;
            assert(adjacent(path[k], path[k + 1]));
        }
        assert forall|i: int| 0 <= i < back.len() implies floor(m, #[trigger] back[i])
            && !blocked.contains(back[i]) by {
            assert(floor(m, path[path.len() - 1 - i]));
        }
    }
    assert(back[0] == b && back.last() == a);
}

/// A way that avoids more avoids less.
pub proof fn lemma_reaches_unblocked(m: Matrix, blocked: Set<Pos>, a: Pos, b: Pos)
    requires
        reaches(m, blocked, a, b),
    ensures
        connected(m, a, b),
{
    let path = choose|path: Seq<Pos>| #[trigger]
        is_way(m, blocked, path) && path[0] == a && path.last() == b;
    assert(is_way(m, Set::empty(), path)) by {
        assert forall|i: int| 0 <= i < path.len() implies floor(m, #[trigger] path[i])
            && !Set::<Pos>::empty().contains(path[i]) by {
            assert(floor(m, path[i]));
        }
    }
}

/// Whether one of `parts` holds `p`.
pub open spec fn covered(parts: Seq<Set<Pos>>, p: Pos) -> bool {
    exists|i: int| 0 <= i < parts.len() && #[trigger] parts[i].contains(p)
}

/// The connected regions found when a row-by-row scan of the grid stands
/// at `(x, y)`: the region of every floor cell before it that no earlier
/// region holds, in the order the scan met them.
pub open spec fn regions_scan(m: Matrix, w: int, h: int, x: int, y: int) -> Seq<Set<Pos>>
    decreases y, x,
{
    if x > 0 {
        let before = regions_scan(m, w, h, x - 1, y);
        let p = ((x - 1) as usize, y as usize);
        if floor(m, p) && !covered(before, p) {
            before.push(component(m, p))
        } else {
            before
        }
    } else if y > 0 && w >= 0 {
        regions_scan(m, w, h, w, y - 1)
    } else {
        Seq::empty()
    }
}

/// The connected regions of a grid, in the order a row-by-row scan meets
/// their first cells.
pub open spec fn regions_of(m: Matrix, w: int, h: int) -> Seq<Set<Pos>> {
    regions_scan(m, w, h, 0, h)
}

/// The index of the first of the largest among `sizes`.
pub open spec fn first_largest(sizes: Seq<nat>) -> int
    decreases sizes.len(),
{
    if sizes.len() <= 1 {
        0
    } else {
        let i = first_largest(sizes.drop_last());
        if sizes.last() > sizes[i] {
            sizes.len() - 1
        } else {
            i
        }
    }
}

/// The region that pruning keeps: the largest, and of several largest the
/// one found first.
pub open spec fn kept_region(m: Matrix, w: int, h: int) -> Set<Pos> {
    let parts = regions_of(m, w, h);
    parts[first_largest(parts.map_values(|part: Set<Pos>| part.len()))]
}

/// The matrix after pruning: every floor cell outside the kept region has
/// become a wall, and nothing else has changed.
pub open spec fn pruned(m: Matrix, w: int, h: int) -> Matrix {
    if regions_of(m, w, h).len() == 0 {
        m
    } else {
        Seq::new(
            m.len(),
            |y: int|
                Seq::new(
                    m[y].len(),
                    |x: int|
                        if floor(m, (x as usize, y as usize)) && !kept_region(m, w, h).contains(
                            (x as usize, y as usize),
                        ) {
                            Cell::Wall
                        } else {
                            m[y][x]
                        },
                ),
        )
    }
}

/// The beginning of a way is a way.
pub proof fn lemma_way_prefix(m: Matrix, blocked: Set<Pos>, path: Seq<Pos>, k: int)
    requires
        is_way(m, blocked, path),
        0 <= k < path.len(),
    ensures
        reaches(m, blocked, path[0], path[k]),
{
    let head = path.take(k + 1);
    assert(is_way(m, blocked, head)) by {
        assert forall|i: int| 0 <= i < head.len() - 1 implies adjacent(
            #[trigger] head[i],
            head[i + 1],
        ) by {
            assert(adjacent(path[i], path[i + 1]));
        }
        assert forall|i: int| 0 <= i < head.len() implies floor(m, #[trigger] head[i])
            && !blocked.contains(head[i]) by {
            assert(floor(m, path[i]));
        }
    }
    assert(head[0] == path[0] && head.last() == path[k]);
}

/// Where `blocked` holds whole regions only, a cell outside it reaches
/// around `blocked` exactly the cells of its own region.
pub proof fn lemma_fresh_region(m: Matrix, blocked: Set<Pos>, p: Pos, c: Pos)
    requires
        !blocked.contains(p),
        forall|v: Pos, u: Pos| blocked.contains(v) && #[trigger] connected(m, v, u) ==> blocked.contains(u),
    ensures
        reaches(m, blocked, p, c) <==> connected(m, p, c),
{
    if reaches(m, blocked, p, c) {
        lemma_reaches_unblocked(m, blocked, p, c);
    }
    if connected(m, p, c) {
        let path = choose|path: Seq<Pos>| #[trigger]
            is_way(m, Set::empty(), path) && path[0] == p && path.last() == c;
        assert(is_way(m, blocked, path)) by {
            assert forall|i: int| 0 <= i < path.len() implies floor(m, #[trigger] path[i])
                && !blocked.contains(path[i]) by {
                assert(floor(m, path[i]));
                if blocked.contains(path[i]) {
                    lemma_way_prefix(m, Set::empty(), path, i);
                    lemma_reaches_symmetric(m, Set::empty(), p, path[i]);
                    assert(connected(m, path[i], p));
                }
            }
        }
    }
}

/// Whether a set of cells holds any.
pub open spec fn inhabited(part: Set<Pos>) -> bool {
    exists|c: Pos| part.contains(c)
}

/// What holds of the regions that a scan has found: they hold floor cells
/// only, what is connected to a cell of theirs is in one of them, no two
/// share a cell, none is empty, and every floor cell that the scan has
/// passed is in one of them.
pub open spec fn tidy(m: Matrix, w: int, parts: Seq<Set<Pos>>, x: int, y: int) -> bool {
    &&& forall|v: Pos, u: Pos| covered(parts, v) && #[trigger] connected(m, v, u) ==> covered(parts, u)
    &&& forall|i: int, c: Pos| 0 <= i < parts.len() && #[trigger] parts[i].contains(c) ==> floor(m, c)
    &&& forall|i: int, j: int, c: Pos|
        0 <= i < j < parts.len() && #[trigger] parts[i].contains(c) ==> !#[trigger] parts[j].contains(c)
    &&& forall|a: usize, b: usize|
        a < w && (b < y || (b == y && a < x)) && #[trigger] floor(m, (a, b)) ==> covered(parts, (a, b))
    &&& forall|i: int| 0 <= i < parts.len() ==> inhabited(#[trigger] parts[i])
}

/// Each of `parts` is one whole connected region: it holds all that is
/// connected to any of its cells, and its cells are connected to each
/// other.
pub open spec fn whole(m: Matrix, parts: Seq<Set<Pos>>) -> bool {
    &&& forall|i: int, a: Pos, b: Pos|
        0 <= i < parts.len() && #[trigger] parts[i].contains(a) && #[trigger] connected(m, a, b)
            ==> parts[i].contains(b)
    &&& forall|i: int, a: Pos, b: Pos|
        0 <= i < parts.len() && #[trigger] parts[i].contains(a) && #[trigger] parts[i].contains(b)
            ==> connected(m, a, b)
}

/// The regions that a scan finds are tidy.
pub proof fn lemma_regions_scan(m: Matrix, w: int, h: int, x: int, y: int)
    requires
        0 <= x <= w <= usize::MAX,
        0 <= y <= usize::MAX,
    ensures
        tidy(m, w, regions_scan(m, w, h, x, y), x, y),
        whole(m, regions_scan(m, w, h, x, y)),
    decreases y, x,
{
    let parts = regions_scan(m, w, h, x, y);
    if x > 0 {
        lemma_regions_scan(m, w, h, x - 1, y);
        let before = regions_scan(m, w, h, x - 1, y);
        let p = ((x - 1) as usize, y as usize);
        if floor(m, p) && !covered(before, p) {
            let fresh = component(m, p);
            lemma_reaches_self(m, Set::empty(), p);
            assert(parts[before.len() as int] == fresh);
            assert forall|c: Pos| covered(parts, c) <==> covered(before, c) || fresh.contains(c) by {
                if covered(before, c) {
                    let i = choose|i: int| 0 <= i < before.len() && #[trigger] before[i].contains(c);
                    assert(parts[i].contains(c));
                }
                if fresh.contains(c) {
                    assert(parts[before.len() as int].contains(c));
                }
                if covered(parts, c) {
                    let i = choose|i: int| 0 <= i < parts.len() && #[trigger] parts[i].contains(c);
                    if i < before.len() {
                        assert(before[i].contains(c));
                    }
                }
            }
            assert forall|v: Pos, u: Pos| covered(parts, v) && #[trigger] connected(m, v, u) implies covered(
                parts,
                u,
            ) by {
                if !covered(before, v) {
                    lemma_reaches_transitive(m, Set::empty(), p, v, u);
                }
            }
            assert forall|i: int, c: Pos| 0 <= i < parts.len() && #[trigger] parts[i].contains(
                c,
            ) implies floor(m, c) by {
                if i < before.len() {
                    assert(before[i].contains(c));
                } else {
                    let path = choose|path: Seq<Pos>| #[trigger]
                        is_way(m, Set::empty(), path) && path[0] == p && path.last() == c;
                    assert(floor(m, path[path.len() - 1]));
                }
            }
            assert forall|i: int, j: int, c: Pos|
                0 <= i < j < parts.len() && #[trigger] parts[i].contains(c) implies !#[trigger] parts[j].contains(
                c,
            ) by {
                assert(before[i].contains(c));
                if j < before.len() {
                    assert(parts[j] == before[j]);
                } else if fresh.contains(c) {
                    assert(covered(before, c));
                    lemma_reaches_symmetric(m, Set::empty(), p, c);
                    assert(connected(m, c, p));
                }
            }
            assert forall|i: int| 0 <= i < parts.len() implies inhabited(#[trigger] parts[i]) by {
                if i < before.len() {
                    assert(parts[i] == before[i]);
                } else {
                    assert(parts[i].contains(p));
                }
            }
            assert forall|i: int, a: Pos, b: Pos|
                0 <= i < parts.len() && #[trigger] parts[i].contains(a) && #[trigger] connected(
                    m,
                    a,
                    b,
                ) implies parts[i].contains(b) by {
                if i < before.len() {
                    assert(before[i].contains(a));
                } else {
                    lemma_reaches_transitive(m, Set::empty(), p, a, b);
                }
            }
            assert forall|i: int, a: Pos, b: Pos|
                0 <= i < parts.len() && #[trigger] parts[i].contains(a) && #[trigger] parts[i].contains(
                    b,
                ) implies connected(m, a, b) by {
                if i < before.len() {
                    assert(before[i].contains(a) && before[i].contains(b));
                } else {
                    lemma_reaches_symmetric(m, Set::empty(), p, a);
                    lemma_reaches_transitive(m, Set::empty(), a, p, b);
                }
            }
        }
    } else if y > 0 && w >= 0 {
        lemma_regions_scan(m, w, h, w, y - 1);
    } else {
        assert forall|c: Pos| !covered(parts, c) by {}
    }
}

/// The first of the largest sizes lies among them, no size is larger, and
/// every size before it is smaller.
pub proof fn lemma_first_largest(sizes: Seq<nat>)
    requires
        sizes.len() > 0,
    ensures
        0 <= first_largest(sizes) < sizes.len(),
        forall|j: int| 0 <= j < sizes.len() ==> #[trigger] sizes[j] <= sizes[first_largest(sizes)],
        forall|j: int| 0 <= j < first_largest(sizes) ==> #[trigger] sizes[j] < sizes[first_largest(sizes)],
    decreases sizes.len(),
{
    if sizes.len() > 1 {
        let shorter = sizes.drop_last();
        lemma_first_largest(shorter);
        let i = first_largest(shorter);
        assert forall|j: int| 0 <= j < sizes.len() implies #[trigger] sizes[j] <= sizes[first_largest(sizes)] by {
            if j < shorter.len() {
                assert(shorter[j] == sizes[j]);
                assert(shorter[i] == sizes[i]);
            }
        }
        assert forall|j: int| 0 <= j < first_largest(sizes) implies #[trigger] sizes[j] < sizes[first_largest(
            sizes,
        )] by {
            assert(shorter[j] == sizes[j]);
            assert(shorter[i] == sizes[i]);
        }
    }
}

/// Whether all floor cells of a matrix are connected to each other.
pub open spec fn joined(m: Matrix) -> bool {
    forall|a: Pos, b: Pos| floor(m, a) && floor(m, b) ==> #[trigger] connected(m, a, b)
}

/// Whether a matrix holds no endpoint.
pub open spec fn plain(m: Matrix) -> bool {
    forall|x: int, y: int|
        (#[trigger] matrix_cell(m, x, y)) != Some(Cell::Start) && matrix_cell(m, x, y) != Some(
            Cell::End,
        )
}

/// Pruning leaves a rectangular matrix whose floor cells are all
/// connected to each other, brings in no endpoint and takes no wall away.
pub proof fn lemma_pruned_joined(m: Matrix, w: int, h: int)
    requires
        rectangular(m, w, h),
        0 <= w <= usize::MAX,
        0 <= h <= usize::MAX,
    ensures
        rectangular(pruned(m, w, h), w, h),
        joined(pruned(m, w, h)),
        plain(m) ==> plain(pruned(m, w, h)),
        keeps_walls(m, pruned(m, w, h)),
{
    let parts = regions_of(m, w, h);
    let after = pruned(m, w, h);
    lemma_regions_scan(m, w, h, 0, h);
    assert forall|x: int, y: int| matrix_cell(m, x, y) == Some(Cell::Wall) implies matrix_cell(
        after,
        x,
        y,
    ) == Some(Cell::Wall) by {
        if parts.len() > 0 {
            assert(after[y][x] == Cell::Wall);
        }
    }
    if parts.len() == 0 {
        assert forall|a: Pos| !floor(m, a) by {
            if floor(m, a) {
                lemma_floor_in_bounds(m, w, h, a);
                assert(covered(parts, a));
            }
        }
    } else {
        let sizes = parts.map_values(|part: Set<Pos>| part.len());
        lemma_first_largest(sizes);
        let kept = kept_region(m, w, h);
        assert(kept == parts[first_largest(sizes)]);
        assert forall|a: Pos| floor(after, a) implies floor(m, a) && kept.contains(a) by {
            assert(after[a.1 as int][a.0 as int] == Cell::Empty);
        }
        assert forall|a: Pos| floor(m, a) && kept.contains(a) implies floor(after, a) by {
            lemma_floor_in_bounds(m, w, h, a);
            assert(after[a.1 as int][a.0 as int] == Cell::Empty);
        }
        assert forall|a: Pos, b: Pos| floor(after, a) && floor(after, b) implies #[trigger] connected(
            after,
            a,
            b,
        ) by {
            assert(connected(m, a, b));
            let path = choose|path: Seq<Pos>| #[trigger]
                is_way(m, Set::empty(), path) && path[0] == a && path.last() == b;
            assert(is_way(after, Set::empty(), path)) by {
                assert forall|i: int| 0 <= i < path.len() implies floor(after, #[trigger] path[i])
                    && !Set::<Pos>::empty().contains(path[i]) by {
                    lemma_way_prefix(m, Set::empty(), path, i);
                    assert(connected(m, a, path[i]));
                    assert(floor(m, path[i]));
                }
            }
        }
        if plain(m) {
            assert forall|x: int, y: int|
                (#[trigger] matrix_cell(after, x, y)) != Some(Cell::Start) && matrix_cell(
                    after,
                    x,
                    y,
                ) != Some(Cell::End) by {
                assert(matrix_cell(m, x, y) != Some(Cell::Start));
            }
        }
    }
}

/// A way that starts inside a set of cells which holds every unblocked
/// floor neighbour of its members never leaves the set.
proof fn lemma_closed_holds_way(
    m: Matrix,
    blocked: Set<Pos>,
    members: Set<Pos>,
    path: Seq<Pos>,
    i: int,
)
    requires
        is_way(m, blocked, path),
        members.contains(path[0]),
        0 <= i < path.len(),
        forall|c: Pos, n: Pos|
            members.contains(c) && #[trigger] adjacent(c, n) && floor(m, n) && !blocked.contains(n)
                ==> members.contains(n),
    ensures
        members.contains(path[i]),
    decreases i,
{
    if i > 0 {
        lemma_closed_holds_way(m, blocked, members, path, i - 1);
        assert(adjacent(path[i - 1], path[i]));
        assert(floor(m, path[i]));
    }
}

/// A floor cell lies inside a rectangular matrix.
pub proof fn lemma_floor_in_bounds(m: Matrix, w: int, h: int, p: Pos)
    requires
        rectangular(m, w, h),
        floor(m, p),
    ensures
        p.0 < w,
        p.1 < h,
{
}

impl CellularAutomata {
    /// Collects the floor cells that can be reached from the start cell
    /// without entering `visited`, and adds them to `visited`. The region
    /// is empty when the start cell is no floor or was visited already;
    /// otherwise the start cell comes first in it.
    pub fn flood_fill(
        &self,
        grid: &Grid,
        start_x: usize,
        start_y: usize,
        visited: &mut PosSet,
    ) -> (region: Vec<Pos>)
        requires
            grid.wf(),
            old(visited).wf(),
        ensures
            final(visited).wf(),
            final(visited)@ == old(visited)@.union(region@.to_set()),
            region@.no_duplicates(),
            forall|c: Pos|
                region@.contains(c) <==> reaches(grid@, old(visited)@, (start_x, start_y), c),
            region@.len() > 0 ==> region@[0] == (start_x, start_y),
    {
        let mut region: Vec<Pos> = Vec::new();
        let mut queue: VecDeque<Pos> = VecDeque::new();
        let ghost m = grid@;
        let ghost w = grid.width as int;
        let ghost h = grid.height as int;
        let ghost blocked = visited@;
        let ghost start = (start_x, start_y);
        queue.push_back((start_x, start_y));
        proof {
            grid.lemma_view();
            assert(queue@[0] == start);
            assert(visited@ =~= blocked.union(region@.to_set()));
        }
        while queue.len() > 0
            invariant
                grid.wf(),
                grid@ == m,
                grid.width == w,
                grid.height == h,
                rectangular(m, w, h),
                visited.wf(),
                visited@ == blocked.union(region@.to_set()),
                region@.no_duplicates(),
                forall|i: int| 0 <= i < region@.len() ==> reaches(m, blocked, start, #[trigger] region@[i]),
                forall|i: int|
                    0 <= i < queue@.len() ==> (#[trigger] queue@[i]) == start || exists|c: Pos|
                        region@.contains(c) && #[trigger] adjacent(c, queue@[i]),
                forall|c: Pos, n: Pos|
                    region@.contains(c) && #[trigger] adjacent(c, n) && floor(m, n)
                        && !visited@.contains(n) ==> queue@.contains(n),
                region@.len() == 0 ==> queue@.contains(start) || !floor(m, start) || blocked.contains(
                    start,
                ),
                region@.len() > 0 ==> region@[0] == start,
            decreases unvisited(w, h, visited@).len(), queue@.len(),
        {
            let ghost waiting = queue@;
            let ghost members = region@;
            let ghost seen = visited@;
            let cur = queue.pop_front().unwrap();
            let is_floor = match grid.get(cur.0, cur.1) {
                Some(Cell::Empty) => true,
                _ => false,
            };
            proof {
                assert(queue@ =~= waiting.drop_first());
                assert(cur == waiting[0]);
                assert forall|n: Pos| waiting.contains(n) && n != cur implies queue@.contains(n) by {
                    let k = choose|k: int| 0 <= k < waiting.len() && waiting[k] == n;
                    assert(queue@[k - 1] == n);
                }
                assert forall|i: int| 0 <= i < queue@.len() implies (#[trigger] queue@[i]) == start
                    || exists|c: Pos| region@.contains(c) && #[trigger] adjacent(c, queue@[i]) by {
                    assert(queue@[i] == waiting[i + 1]);
                }
            }
            if is_floor && !visited.contains(cur) {
                visited.insert(cur);
                region.push(cur);
                let around = grid.neighbors(cur.0, cur.1);
                proof {
                    lemma_floor_in_bounds(m, w, h, cur);
                    lemma_unvisited_shrinks(w, h, seen, cur);
                    assert(!members.contains(cur)) by {
                        if members.contains(cur) {
                            assert(members.to_set().contains(cur));
                        }
                    }
                    assert(region@ =~= members.push(cur));
                    assert forall|c: Pos| region@.contains(c) == (members.contains(c) || c == cur) by {
                        if members.contains(c) {
                            let k = choose|k: int| 0 <= k < members.len() && members[k] == c;
                            assert(region@[k] == c);
                        }
                        if c == cur {
                            assert(region@[members.len() as int] == c);
                        }
                    }
                    assert(visited@ =~= blocked.union(region@.to_set()));
                    assert(reaches(m, blocked, start, cur)) by {
                        if cur == start {
                            lemma_reaches_self(m, blocked, start);
                        } else {
                            let c = choose|c: Pos| members.contains(c) && #[trigger] adjacent(c, cur);
                            let k = choose|k: int| 0 <= k < members.len() && members[k] == c;
                            assert(reaches(m, blocked, start, members[k]));
                            lemma_reaches_step(m, blocked, start, c, cur);
                        }
                    }
                    assert forall|i: int| 0 <= i < region@.len() implies reaches(
                        m,
                        blocked,
                        start,
                        #[trigger] region@[i],
                    ) by {
                        if i < members.len() {
                            assert(region@[i] == members[i]);
                        }
                    }
                    lemma_neighbors_adjacent(*grid, cur);
                }
                let ghost popped = queue@;
                let mut i: usize = 0;
                while i < around.len()
                    invariant
                        i <= around@.len(),
                        queue@ == popped + around@.take(i as int),
                    decreases around@.len() - i,
                {
                    queue.push_back(around[i]);
                    proof {
                        assert(around@.take(i + 1) =~= around@.take(i as int).push(around@[i as int]));
                        assert(queue@ =~= popped + around@.take(i + 1));
                    }
                    i += 1;
                }
                proof {
                    assert(around@.take(around@.len() as int) =~= around@);
                    assert forall|k: int| 0 <= k < queue@.len() implies (#[trigger] queue@[k]) == start
                        || exists|c: Pos| region@.contains(c) && #[trigger] adjacent(c, queue@[k]) by {
                        if k < popped.len() {
                            assert(queue@[k] == popped[k]);
                            if popped[k] != start {
                                let c = choose|c: Pos|
                                    members.contains(c) && #[trigger] adjacent(c, popped[k]);
                                assert(region@.contains(c) && adjacent(c, queue@[k]));
                            }
                        } else {
                            assert(queue@[k] == around@[k - popped.len()]);
                            assert(region@.contains(cur) && adjacent(cur, queue@[k]));
                        }
                    }
                    assert forall|c: Pos, n: Pos|
                        region@.contains(c) && #[trigger] adjacent(c, n) && floor(m, n)
                            && !visited@.contains(n) implies queue@.contains(n) by {
                        if c == cur {
                            lemma_floor_in_bounds(m, w, h, n);
                            lemma_neighbors_complete(w, h, cur, n);
                            let k = choose|k: int| 0 <= k < around@.len() && around@[k] == n;
                            assert(queue@[popped.len() + k] == n);
                        } else {
                            assert(members.contains(c));
                            assert(waiting.contains(n));
                            let k = choose|k: int| 0 <= k < popped.len() && popped[k] == n;
                            assert(queue@[k] == n);
                        }
                    }
                }
            } else {
                proof {
                    assert(!is_floor ==> !floor(m, cur));
                }
            }
        }
        proof {
            let members = region@.to_set();
            assert forall|c: Pos| reaches(m, blocked, start, c) implies region@.contains(c) by {
                let path = choose|path: Seq<Pos>| #[trigger]
                    is_way(m, blocked, path) && path[0] == start && path.last() == c;
                assert(floor(m, path[0]));
                assert(region@.len() > 0);
                assert(members.contains(start));
                assert forall|a: Pos, n: Pos|
                    members.contains(a) && #[trigger] adjacent(a, n) && floor(m, n)
                        && !blocked.contains(n) implies members.contains(n) by {
                    assert(region@.contains(a));
                    if !visited@.contains(n) {
                        assert(queue@.contains(n));
                    }
                }
                lemma_closed_holds_way(m, blocked, members, path, path.len() - 1);
            }
            assert forall|c: Pos| region@.contains(c) implies reaches(m, blocked, start, c) by {
                let k = choose|k: int| 0 <= k < region@.len() && region@[k] == c;
                assert(reaches(m, blocked, start, region@[k]));
            }
        }
        region
    }

    /// Partitions the floor cells into connected regions, in the order a
    /// row-by-row scan meets their first cells. Each region lists its cells
    /// once.
    pub fn find_regions(&self, grid: &Grid) -> (regions: Vec<Vec<Pos>>)
        requires
            grid.wf(),
        ensures
            listed(regions@, regions_of(grid@, grid.width as int, grid.height as int)),
    {
        let mut regions: Vec<Vec<Pos>> = Vec::new();
        let mut visited = PosSet::new();
        let ghost m = grid@;
        let ghost w = grid.width as int;
        let ghost h = grid.height as int;
        proof {
            grid.lemma_view();
        }
        let mut y: usize = 0;
        while y < grid.height
            invariant
                grid.wf(),
                grid@ == m,
                grid.width == w,
                grid.height == h,
                y <= h,
                visited.wf(),
                listed(regions@, regions_scan(m, w, h, 0, y as int)),
                forall|p: Pos| visited@.contains(p) <==> covered(regions_scan(m, w, h, 0, y as int), p),
            decreases h - y,
        {
            let mut x: usize = 0;
            while x < grid.width
                invariant
                    grid.wf(),
                    grid@ == m,
                    grid.width == w,
                    grid.height == h,
                    y < h,
                    x <= w,
                    visited.wf(),
                    listed(regions@, regions_scan(m, w, h, x as int, y as int)),
                    forall|p: Pos|
                        visited@.contains(p) <==> covered(regions_scan(m, w, h, x as int, y as int), p),
                decreases w - x,
            {
                let ghost parts = regions_scan(m, w, h, x as int, y as int);
                let ghost seen = visited@;
                let ghost found = regions@;
                let is_floor = match grid.get(x, y) {
                    Some(Cell::Empty) => true,
                    _ => false,
                };
                proof {
                    grid.lemma_view();
                    assert(is_floor == floor(m, (x, y)));
                }
                if is_floor && !visited.contains((x, y)) {
                    let region = self.flood_fill(grid, x, y, &mut visited);
                    regions.push(region);
                    proof {
                        let fresh = component(m, (x, y));
                        let after = regions_scan(m, w, h, x + 1, y as int);
                        assert(after == parts.push(fresh));
                        lemma_regions_scan(m, w, h, x as int, y as int);
                        assert forall|c: Pos| region@.to_set().contains(c) == fresh.contains(c) by {
                            lemma_fresh_region(m, seen, (x, y), c);
                        }
                        assert(region@.to_set() =~= fresh);
                        assert forall|i: int| 0 <= i < regions@.len() implies (#[trigger] regions@[i])@.no_duplicates()
                            && regions@[i]@.to_set() == after[i] by {
                            if i < found.len() {
                                assert(regions@[i] == found[i]);
                            }
                        }
                        assert forall|p: Pos| visited@.contains(p) <==> covered(after, p) by {
                            if covered(parts, p) {
                                let i = choose|i: int| 0 <= i < parts.len() && #[trigger] parts[i].contains(p);
                                assert(after[i].contains(p));
                            }
                            if fresh.contains(p) {
                                assert(after[parts.len() as int].contains(p));
                            }
                            if covered(after, p) {
                                let i = choose|i: int| 0 <= i < after.len() && #[trigger] after[i].contains(p);
                                if i < parts.len() {
                                    assert(parts[i].contains(p));
                                }
                            }
                        }
                    }
                }
                x += 1;
            }
            y += 1;
        }
        regions
    }

    /// Phase three: every floor cell outside the largest connected region
    /// becomes a wall. Of several largest regions the one that a
    /// row-by-row scan meets first is kept.
    pub fn keep_largest_region(&self, grid: &mut Grid)
        requires
            old(grid).wf(),
        ensures
            final(grid).wf(),
            final(grid).width == old(grid).width,
            final(grid).height == old(grid).height,
            final(grid)@ == pruned(old(grid)@, old(grid).width as int, old(grid).height as int),
            joined(final(grid)@),
            plain(old(grid)@) ==> plain(final(grid)@),
            keeps_walls(old(grid)@, final(grid)@),
    {
        proof {
            grid.lemma_view();
            lemma_pruned_joined(grid@, grid.width as int, grid.height as int);
        }
        let regions = self.find_regions(grid);
        if regions.len() == 0 {
            return;
        }
        let ghost m = grid@;
        let ghost w = grid.width as int;
        let ghost h = grid.height as int;
        let ghost parts = regions_of(m, w, h);
        let ghost sizes = parts.map_values(|part: Set<Pos>| part.len());
        proof {
            grid.lemma_view();
            lemma_regions_scan(m, w, h, 0, h);
            assert forall|i: int| 0 <= i < regions@.len() implies (#[trigger] regions@[i])@.len() == sizes[i] by {
                regions@[i]@.unique_seq_to_set();
            }
            assert(sizes.take(1).drop_last() =~= Seq::<nat>::empty());
        }
        let mut largest: usize = 0;
        let mut i: usize = 1;
        while i < regions.len()
            invariant
                1 <= i <= regions@.len(),
                regions@.len() == sizes.len(),
                largest < i,
                largest == first_largest(sizes.take(i as int)),
                forall|j: int| 0 <= j < regions@.len() ==> (#[trigger] regions@[j])@.len() == sizes[j],
            decreases regions@.len() - i,
        {
            proof {
                assert(sizes.take(i + 1).drop_last() =~= sizes.take(i as int));
                assert(sizes.take(i + 1).last() == sizes[i as int]);
                assert(sizes.take(i + 1)[largest as int] == sizes[largest as int]);
            }
            if regions[i].len() > regions[largest].len() {
                largest = i;
            }
            i += 1;
        }
        proof {
            assert(sizes.take(sizes.len() as int) =~= sizes);
        }
        let mut i: usize = 0;
        while i < regions.len()
            invariant
                i <= regions@.len(),
                grid.wf(),
                grid.width == w,
                grid.height == h,
                rectangular(m, w, h),
                tidy(m, w, parts, 0, h),
                listed(regions@, parts),
                forall|a: usize, b: usize|
                    a < w && b < h ==> #[trigger] grid.cell(a, b) == if walled(
                        parts,
                        largest as int,
                        i as int,
                        (a, b),
                    ) {
                        Some(Cell::Wall)
                    } else {
                        matrix_cell(m, a as int, b as int)
                    },
            decreases regions@.len() - i,
        {
            if i != largest {
                let cells = &regions[i];
                let mut k: usize = 0;
                while k < cells.len()
                    invariant
                        k <= cells@.len(),
                        i < regions@.len(),
                        regions@.len() == parts.len(),
                        i != largest,
                        rectangular(m, w, h),
                        tidy(m, w, parts, 0, h),
                        cells@.to_set() == parts[i as int],
                        grid.wf(),
                        grid.width == w,
                        grid.height == h,
                        forall|a: usize, b: usize|
                            a < w && b < h ==> #[trigger] grid.cell(a, b) == if walled(
                                parts,
                                largest as int,
                                i as int,
                                (a, b),
                            ) || cells@.take(k as int).contains((a, b)) {
                                Some(Cell::Wall)
                            } else {
                                matrix_cell(m, a as int, b as int)
                            },
                    decreases cells@.len() - k,
                {
                    let (x, y) = cells[k];
                    proof {
                        assert(parts[i as int].contains((x, y))) by {
                            assert(cells@.to_set().contains(cells@[k as int]));
                        }
                        lemma_floor_in_bounds(m, w, h, (x, y));
                        let before = cells@.take(k as int);
                        let after = cells@.take(k + 1);
                        assert(after =~= before.push((x, y)));
                        assert forall|p: Pos| after.contains(p) == (before.contains(p) || p == (x, y)) by {
                            if before.contains(p) {
                                let t = choose|t: int| 0 <= t < before.len() && before[t] == p;
                                assert(after[t] == p);
                            }
                            if p == (x, y) {
                                assert(after[k as int] == p);
                            }
                        }
                    }
                    grid.set(x, y, Cell::Wall);
                    k += 1;
                }
                proof {
                    assert(cells@.take(cells@.len() as int) =~= cells@);
                    assert forall|p: Pos| walled(parts, largest as int, i + 1, p) == (walled(
                        parts,
                        largest as int,
                        i as int,
                        p,
                    ) || cells@.contains(p)) by {
                        if cells@.contains(p) {
                            assert(cells@.to_set().contains(p));
                            assert(parts[i as int].contains(p));
                        }
                        if walled(parts, largest as int, i + 1, p) && !walled(
                            parts,
                            largest as int,
                            i as int,
                            p,
                        ) {
                            let j = choose|j: int|
                                0 <= j < i + 1 && j != largest && #[trigger] parts[j].contains(p);
                            assert(j == i);
                            assert(cells@.to_set().contains(p));
                        }
                        if walled(parts, largest as int, i as int, p) {
                            let j = choose|j: int|
                                0 <= j < i && j != largest && #[trigger] parts[j].contains(p);
                            assert(parts[j].contains(p));
                        }
                    }
                }
            } else {
                proof {
                    assert forall|p: Pos| walled(parts, largest as int, i + 1, p) == walled(
                        parts,
                        largest as int,
                        i as int,
                        p,
                    ) by {
                        if walled(parts, largest as int, i + 1, p) {
                            let j = choose|j: int|
                                0 <= j < i + 1 && j != largest && #[trigger] parts[j].contains(p);
                            assert(parts[j].contains(p));
                        }
                        if walled(parts, largest as int, i as int, p) {
                            let j = choose|j: int|
                                0 <= j < i && j != largest && #[trigger] parts[j].contains(p);
                            assert(parts[j].contains(p));
                        }
                    }
                }
            }
            i += 1;
        }
        proof {
            grid.lemma_view();
            let kept = kept_region(m, w, h);
            assert(kept == parts[largest as int]);
            let target = pruned(m, w, h);
            assert forall|b: int| 0 <= b < h implies #[trigger] grid@[b] =~= target[b] by {
                assert forall|a: int| 0 <= a < w implies grid@[b][a] == target[b][a] by {
                    let p = (a as usize, b as usize);
                    assert(grid.cell(a as usize, b as usize) == Some(grid@[b][a]));
                    if walled(parts, largest as int, regions@.len() as int, p) {
                        let j = choose|j: int|
                            0 <= j < regions@.len() && j != largest && #[trigger] parts[j].contains(p);
                        assert(floor(m, p));
                        if j < largest {
                            assert(!parts[largest as int].contains(p));
                        } else {
                            assert(!parts[j].contains(p) || !parts[largest as int].contains(p));
                        }
                    } else if floor(m, p) {
                        assert(covered(parts, p));
                        let j = choose|j: int| 0 <= j < parts.len() && #[trigger] parts[j].contains(p);
                        assert(j == largest);
                    }
                }
            }
            assert(grid@ =~= target);
        }
    }
}

/// Whether `regions` lists the cells of `parts`, region by region, each
/// cell once.
pub open spec fn listed(regions: Seq<Vec<Pos>>, parts: Seq<Set<Pos>>) -> bool {
    &&& regions.len() == parts.len()
    &&& forall|i: int|
        0 <= i < regions.len() ==> (#[trigger] regions[i])@.no_duplicates() && regions[i]@.to_set()
            == parts[i]
}

/// Whether `p` lies in one of the first `upto` parts other than `kept`.
pub open spec fn walled(parts: Seq<Set<Pos>>, kept: int, upto: int, p: Pos) -> bool {
    exists|j: int| 0 <= j < upto && j < parts.len() && j != kept && #[trigger] parts[j].contains(p)
}

} // verus!
