//! Uniform-cost search: a priority frontier keyed by the cost from the
//! start, with stale entries dropped when they are popped.

use crate::frontier::{Frontier, Node};
use crate::grid::{Cell, Grid, Pos};
use crate::lookup::{PosMap, PosSet};
use crate::pathfinding::{
    begin, best_index, expand, overlay, paint_trail, rooted, same, trace_back, trail, AlgorithmType,
    Entry, NodeState, PathfindingAlgorithm, Search,
};
use crate::soundness::{
    lemma_begin_sound, lemma_expand_frame, lemma_path_is_walk, lemma_pop_sound, lemma_step_sound,
};
use vstd::prelude::*;

verus! {

/// A uniform-cost search in progress.
pub struct Dijkstra {
    distances: PosMap<u128>,
    parents: PosMap<Pos>,
    visited: PosSet,
    node_states: PosMap<NodeState>,
    queue: Frontier,
    start: Pos,
    end: Pos,
    finished: bool,
    found_path: bool,
}

impl View for Dijkstra {
    type V = Search;

    closed spec fn view(&self) -> Search {
        Search {
            start: self.start,
            end: self.end,
            frontier: self.queue@,
            visited: self.visited@,
            parents: self.parents@,
            costs: self.distances@.map_values(|d: u128| d as nat),
            states: self.node_states@,
            finished: self.finished,
            found: self.found_path,
        }
    }
}

impl Dijkstra {
    /// No known distance exceeds the number of finalised positions.
    spec fn bounded(&self) -> bool {
        forall|p: Pos| #[trigger]
            self.distances@.contains_key(p) ==> self.distances@[p] <= self.visited.count()
    }

    /// A search from `start` to `end` with the start queued at distance
    /// zero. Every position is `Unvisited` until the first step.
    pub fn new(start: Pos, end: Pos) -> (dijkstra: Self)
        ensures
            dijkstra.wf(),
            dijkstra@ == begin(AlgorithmType::Dijkstra, start, end),
            forall|p: Pos| #[trigger] dijkstra@.node_state(p) == NodeState::Unvisited,
    {
        let mut dijkstra = Dijkstra {
            distances: PosMap::new(),
            parents: PosMap::new(),
            visited: PosSet::new(),
            node_states: PosMap::new(),
            queue: Frontier::new(),
            start,
            end,
            finished: false,
            found_path: false,
        };
        dijkstra.distances.insert(start, 0);
        dijkstra.queue.push(Node { position: start, cost: 0, key: 0 });
        proof {
            let fresh = begin(AlgorithmType::Dijkstra, start, end);
            assert(dijkstra@.frontier =~= fresh.frontier);
            assert(dijkstra@.costs =~= fresh.costs);
            lemma_begin_sound(AlgorithmType::Dijkstra, start, end);
        }
        dijkstra
    }

    /// Tags the trail from the start to the end as `Path`.
    fn mark_path(&mut self)
        requires
            rooted(old(self)@.parents, old(self)@.costs, old(self)@.start),
            old(self)@.discovered(old(self)@.end),
        ensures
            final(self)@ == (Search {
                states: overlay(
                    old(self)@.states,
                    trail(old(self)@.parents, old(self)@.start, old(self)@.end),
                ),
                ..old(self)@
            }),
            final(self).visited == old(self).visited,
            final(self).distances == old(self).distances,
    {
        let ghost costs = self@.costs;
        paint_trail(&mut self.node_states, &self.parents, self.start, self.end, Ghost(costs));
    }
}

impl PathfindingAlgorithm for Dijkstra {
    open spec fn model(&self) -> Search {
        self@
    }

    closed spec fn wf(&self) -> bool {
        self@.sound() && self.visited.wf() && self.bounded()
    }

    open spec fn kind(&self) -> AlgorithmType {
        AlgorithmType::Dijkstra
    }

    fn step(&mut self, grid: &Grid) -> (running: bool)
        ensures
            old(self)@.finished ==> *final(self) == *old(self),
    {
        let ghost before = self@;
        proof {
            lemma_step_sound(AlgorithmType::Dijkstra, before, *grid);
        }
        if self.finished {
            return false;
        }
        let current = match self.queue.pop() {
            Some(node) => node,
            None => {
                self.finished = true;
                return false;
            },
        };
        let ghost taken = best_index(before.frontier);
        let pos = current.position;
        if self.visited.contains(pos) {
            return true;
        }
        self.visited.insert(pos);
        self.node_states.insert(pos, NodeState::Visited);
        proof {
            lemma_pop_sound(before, taken);
            self.visited.lemma_count_bounded();
        }
        if same(pos, self.end) {
            self.finished = true;
            self.found_path = true;
            self.mark_path();
            return false;
        }
        let current_dist = match self.distances.get(pos) {
            Some(d) => d,
            None => u128::MAX,
        };
        let around = grid.neighbors(pos.0, pos.1);
        let ghost at = self@;
        let mut i: usize = 0;
        while i < around.len()
            invariant
                i <= around@.len(),
                self.visited.wf(),
                self.visited.count() <= usize::MAX,
                self.bounded(),
                self.distances@.contains_key(pos),
                self.distances@[pos] == current_dist,
                current_dist < self.visited.count(),
                self.visited@.contains(pos),
                self@ == expand(AlgorithmType::Dijkstra, at, *grid, pos, around@.take(i as int)),
            decreases around@.len() - i,
        {
            let n = around[i];
            proof {
                assert(around@.take(i + 1).drop_last() =~= around@.take(i as int));
                assert(around@.take(i + 1).last() == n);
            }
            let ghost so_far = self@;
            let wall = match grid.get(n.0, n.1) {
                Some(cell) => cell == Cell::Wall,
                None => false,
            };
            if !wall && !self.visited.contains(n) {
                let new_dist = current_dist + 1;
                let old_dist = match self.distances.get(n) {
                    Some(d) => d,
                    None => u128::MAX,
                };
                if new_dist < old_dist {
                    self.distances.insert(n, new_dist);
                    self.parents.insert(n, pos);
                    self.queue.push(Node { position: n, cost: new_dist, key: new_dist });
                    self.node_states.insert(n, NodeState::InQueue);
                    proof {
                        let cost = so_far.costs[pos] + 1;
                        assert(self@.costs =~= so_far.costs.insert(n, cost));
                        assert(self@ == so_far.discover(
                            n,
                            pos,
                            Entry { position: n, cost, key: cost },
                        ));
                    }
                }
            }
            i += 1;
        }
        proof {
            assert(around@.take(around@.len() as int) =~= around@);
            lemma_expand_frame(AlgorithmType::Dijkstra, at, *grid, pos, around@);
        }
        true
    }

    fn get_node_state(&self, x: usize, y: usize) -> (state: NodeState) {
        match self.node_states.get((x, y)) {
            Some(state) => state,
            None => NodeState::Unvisited,
        }
    }

    fn get_path(&self) -> (path: Vec<Pos>) {
        if !self.found_path {
            return Vec::new();
        }
        proof {
            lemma_path_is_walk(self@);
        }
        trace_back(&self.parents, self.start, self.end, Ghost(self@.costs))
    }

    fn is_finished(&self) -> (finished: bool) {
        self.finished
    }

    fn found_path(&self) -> (found: bool) {
        self.found_path
    }

    fn name(&self) -> (label: &'static str) {
        "Dijkstra"
    }
}

} // verus!
