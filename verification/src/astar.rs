//! A* search: a priority frontier keyed by the cost from the start plus the
//! Manhattan distance to the end, with stale entries dropped when they are
//! popped.

use crate::frontier::{Frontier, Node};
use crate::grid::{Cell, Grid, Pos};
use crate::lookup::{PosMap, PosSet};
use crate::pathfinding::{
    begin, best_index, expand, manhattan, overlay, paint_trail, rooted, same, trace_back, trail,
    AlgorithmType, Entry, NodeState, PathfindingAlgorithm, Search,
};
use crate::soundness::{
    lemma_begin_sound, lemma_expand_frame, lemma_path_is_walk, lemma_pop_sound, lemma_step_sound,
};
use vstd::prelude::*;

verus! {

/// The Manhattan distance from `from` to `to`.
pub fn heuristic_manhantan(from: Pos, to: Pos) -> (estimate: u128)
    ensures
        estimate == manhattan(from, to),
        estimate == manhattan(to, from),
{
    let dx = if from.0 >= to.0 {
        from.0 - to.0
    } else {
        to.0 - from.0
    };
    let dy = if from.1 >= to.1 {
        from.1 - to.1
    } else {
        to.1 - from.1
    };
    dx as u128 + dy as u128
}

/// The Manhattan distance is the same in both directions.
pub proof fn lemma_manhattan_symmetric(a: Pos, b: Pos)
    ensures
        manhattan(a, b) == manhattan(b, a),
{
}

/// An A* search in progress.
pub struct AStar {
    g_costs: PosMap<u128>,
    parents: PosMap<Pos>,
    visited: PosSet,
    node_states: PosMap<NodeState>,
    queue: Frontier,
    start: Pos,
    end: Pos,
    finished: bool,
    found_path: bool,
}

impl View for AStar {
    type V = Search;

    closed spec fn view(&self) -> Search {
        Search {
            start: self.start,
            end: self.end,
            frontier: self.queue@,
            visited: self.visited@,
            parents: self.parents@,
            costs: self.g_costs@.map_values(|d: u128| d as nat),
            states: self.node_states@,
            finished: self.finished,
            found: self.found_path,
        }
    }
}

impl AStar {
    /// No known cost exceeds the number of finalised positions.
    spec fn bounded(&self) -> bool {
        forall|p: Pos| #[trigger]
            self.g_costs@.contains_key(p) ==> self.g_costs@[p] <= self.visited.count()
    }

    /// A search from `start` to `end` with the start queued at cost zero.
    /// Every position is `Unvisited`, the start too.
    pub fn new(start: Pos, end: Pos) -> (astar: Self)
        ensures
            astar.wf(),
            astar@ == begin(AlgorithmType::AStar, start, end),
            forall|p: Pos| #[trigger] astar@.node_state(p) == NodeState::Unvisited,
    {
        let mut astar = AStar {
            g_costs: PosMap::new(),
            parents: PosMap::new(),
            visited: PosSet::new(),
            node_states: PosMap::new(),
            queue: Frontier::new(),
            start,
            end,
            finished: false,
            found_path: false,
        };
        astar.g_costs.insert(start, 0);
        let h = heuristic_manhantan(start, end);
        astar.queue.push(Node { position: start, cost: 0, key: h });
        proof {
            let fresh = begin(AlgorithmType::AStar, start, end);
            assert(astar@.frontier =~= fresh.frontier);
            assert(astar@.costs =~= fresh.costs);
            lemma_begin_sound(AlgorithmType::AStar, start, end);
        }
        astar
    }

    /// Tags the trail from the start to the end as `Path`.
    fn mark_path(&mut self)
        requires
            rooted(old(self)@.parents, old(self)@.costs, old(self)@.start),
            old(self)@.discovered(old(self)@.end),
        ensures
            final(self)@ == (Search {
                states: overlay(
                    old(self)@.states,
                    trail(old(self)@.parents, old(self)@.start, old(self)@.end),
                ),
                ..old(self)@
            }),
            final(self).visited == old(self).visited,
            final(self).g_costs == old(self).g_costs,
    {
        let ghost costs = self@.costs;
        paint_trail(&mut self.node_states, &self.parents, self.start, self.end, Ghost(costs));
    }
}

impl PathfindingAlgorithm for AStar {
    open spec fn model(&self) -> Search {
        self@
    }

    closed spec fn wf(&self) -> bool {
        self@.sound() && self.visited.wf() && self.bounded()
    }

    open spec fn kind(&self) -> AlgorithmType {
        AlgorithmType::AStar
    }

    fn step(&mut self, grid: &Grid) -> (running: bool)
        ensures
            old(self)@.finished ==> *final(self) == *old(self),
    {
        let ghost before = self@;
        proof {
            lemma_step_sound(AlgorithmType::AStar, before, *grid);
        }
        if self.finished {
            return false;
        }
        let current = match self.queue.pop() {
            Some(node) => node,
            None => {
                self.finished = true;
                return false;
            },
        };
        let ghost taken = best_index(before.frontier);
        let pos = current.position;
        if self.visited.contains(pos) {
            return true;
        }
        self.visited.insert(pos);
        self.node_states.insert(pos, NodeState::Visited);
        proof {
            lemma_pop_sound(before, taken);
            self.visited.lemma_count_bounded();
        }
        if same(pos, self.end) {
            self.finished = true;
            self.found_path = true;
            self.mark_path();
            return false;
        }
        let current_g = match self.g_costs.get(pos) {
            Some(g) => g,
            None => u128::MAX,
        };
        let around = grid.neighbors(pos.0, pos.1);
        let ghost at = self@;
        let mut i: usize = 0;
        while i < around.len()
            invariant
                i <= around@.len(),
                self.visited.wf(),
                self.visited.count() <= usize::MAX,
                self.bounded(),
                self.g_costs@.contains_key(pos),
                self.g_costs@[pos] == current_g,
                current_g < self.visited.count(),
                self.visited@.contains(pos),
                self@ == expand(AlgorithmType::AStar, at, *grid, pos, around@.take(i as int)),
            decreases around@.len() - i,
        {
            let n = around[i];
            proof {
                assert(around@.take(i + 1).drop_last() =~= around@.take(i as int));
                assert(around@.take(i + 1).last() == n);
            }
            let ghost so_far = self@;
            let wall = match grid.get(n.0, n.1) {
                Some(cell) => cell == Cell::Wall,
                None => false,
            };
            if !wall && !self.visited.contains(n) {
                let new_g = current_g + 1;
                let old_g = match self.g_costs.get(n) {
                    Some(g) => g,
                    None => u128::MAX,
                };
                if new_g < old_g {
                    let new_f = new_g + heuristic_manhantan(n, self.end);
                    self.g_costs.insert(n, new_g);
                    self.parents.insert(n, pos);
                    self.queue.push(Node { position: n, cost: new_g, key: new_f });
                    self.node_states.insert(n, NodeState::InQueue);
                    proof {
                        let cost = so_far.costs[pos] + 1;
                        assert(self@.costs =~= so_far.costs.insert(n, cost));
                        assert(self@ == so_far.discover(
                            n,
                            pos,
                            Entry { position: n, cost, key: cost + manhattan(n, so_far.end) },
                        ));
                    }
                }
            }
            i += 1;
        }
        proof {
            assert(around@.take(around@.len() as int) =~= around@);
            lemma_expand_frame(AlgorithmType::AStar, at, *grid, pos, around@);
        }
        true
    }

    fn get_node_state(&self, x: usize, y: usize) -> (state: NodeState) {
        match self.node_states.get((x, y)) {
            Some(state) => state,
            None => NodeState::Unvisited,
        }
    }

    fn get_path(&self) -> (path: Vec<Pos>) {
        if !self.found_path {
            return Vec::new();
        }
        proof {
            lemma_path_is_walk(self@);
        }
        trace_back(&self.parents, self.start, self.end, Ghost(self@.costs))
    }

    fn is_finished(&self) -> (finished: bool) {
        self.finished
    }

    fn found_path(&self) -> (found: bool) {
        self.found_path
    }

    fn name(&self) -> (label: &'static str) {
        "A*"
    }
}

} // verus!
