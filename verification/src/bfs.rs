//! Breadth-first search: a first-in-first-out frontier that holds each
//! position at most once.

use crate::grid::{Cell, Grid, Pos};
use crate::lookup::{PosMap, PosSet};
use crate::pathfinding::{
    begin, expand, overlay, paint_trail, plain_entry, rooted, same, trace_back, trail,
    AlgorithmType, NodeState, PathfindingAlgorithm, Search,
};
use crate::soundness::{
    lemma_begin_sound, lemma_expand_frame, lemma_path_is_walk, lemma_pop_sound, lemma_step_sound,
};
use std::collections::VecDeque;
use vstd::prelude::*;

verus! {

/// A breadth-first search in progress.
pub struct Bfs {
    queue: VecDeque<Pos>,
    visited: PosSet,
    parents: PosMap<Pos>,
    node_states: PosMap<NodeState>,
    depths: Ghost<Map<Pos, nat>>,
    start: Pos,
    end: Pos,
    finished: bool,
    found_path: bool,
}

impl View for Bfs {
    type V = Search;

    closed spec fn view(&self) -> Search {
        Search {
            start: self.start,
            end: self.end,
            frontier: self.queue@.map_values(|p: Pos| plain_entry(p)),
            visited: self.visited@,
            parents: self.parents@,
            costs: self.depths@,
            states: self.node_states@,
            finished: self.finished,
            found: self.found_path,
        }
    }
}

impl Bfs {
    /// A search from `start` to `end` with the start queued and tagged
    /// `InQueue`. Every other position is `Unvisited`.
    pub fn new(start: Pos, end: Pos) -> (bfs: Self)
        ensures
            bfs.wf(),
            bfs@ == begin(AlgorithmType::Bfs, start, end),
            forall|p: Pos| p != start ==> #[trigger] bfs@.node_state(p) == NodeState::Unvisited,
    {
        let mut bfs = Self {
            queue: VecDeque::new(),
            visited: PosSet::new(),
            parents: PosMap::new(),
            node_states: PosMap::new(),
            depths: Ghost(Map::empty().insert(start, 0nat)),
            start,
            end,
            finished: false,
            found_path: false,
        };
        bfs.queue.push_back(start);
        bfs.node_states.insert(start, NodeState::InQueue);
        proof {
            assert(bfs@.frontier =~= begin(AlgorithmType::Bfs, start, end).frontier);
            lemma_begin_sound(AlgorithmType::Bfs, start, end);
        }
        bfs
    }

    /// Tags the trail from the start to the end as `Path`.
    fn mark_path(&mut self)
        requires
            rooted(old(self)@.parents, old(self)@.costs, old(self)@.start),
            old(self)@.discovered(old(self)@.end),
        ensures
            final(self)@ == (Search {
                states: overlay(
                    old(self)@.states,
                    trail(old(self)@.parents, old(self)@.start, old(self)@.end),
                ),
                ..old(self)@
            }),
            final(self).visited == old(self).visited,
    {
        paint_trail(&mut self.node_states, &self.parents, self.start, self.end, Ghost(self.depths@));
    }
}

impl PathfindingAlgorithm for Bfs {
    open spec fn model(&self) -> Search {
        self@
    }

    closed spec fn wf(&self) -> bool {
        self@.sound() && self.visited.wf()
    }

    open spec fn kind(&self) -> AlgorithmType {
        AlgorithmType::Bfs
    }

    fn step(&mut self, grid: &Grid) -> (running: bool)
        ensures
            old(self)@.finished ==> *final(self) == *old(self),
    {
        let ghost before = self@;
        proof {
            lemma_step_sound(AlgorithmType::Bfs, before, *grid);
        }
        if self.finished {
            return false;
        }
        let current = match self.queue.pop_front() {
            Some(pos) => pos,
            None => {
                self.finished = true;
                return false;
            },
        };
        proof {
            assert(self@.frontier =~= before.frontier.remove(0));
            assert(before.frontier[0].position == current);
        }
        if self.visited.contains(current) {
            return true;
        }
        self.visited.insert(current);
        self.node_states.insert(current, NodeState::Visited);
        if same(current, self.end) {
            self.finished = true;
            self.found_path = true;
            proof {
                lemma_pop_sound(before, 0);
            }
            self.mark_path();
            return false;
        }
        let around = grid.neighbors(current.0, current.1);
        let ghost at = self@;
        let mut i: usize = 0;
        while i < around.len()
            invariant
                i <= around@.len(),
                self.visited.wf(),
                self@ == expand(AlgorithmType::Bfs, at, *grid, current, around@.take(i as int)),
            decreases around@.len() - i,
        {
            let n = around[i];
            proof {
                assert(around@.take(i + 1).drop_last() =~= around@.take(i as int));
                assert(around@.take(i + 1).last() == n);
            }
            let ghost so_far = self@;
            let wall = match grid.get(n.0, n.1) {
                Some(cell) => cell == Cell::Wall,
                None => false,
            };
            let queued = match self.node_states.get(n) {
                Some(state) => state == NodeState::InQueue,
                None => false,
            };
            if !wall && !self.visited.contains(n) && !queued {
                self.parents.insert(n, current);
                self.queue.push_back(n);
                self.node_states.insert(n, NodeState::InQueue);
                self.depths = Ghost(self.depths@.insert(n, self.depths@[current] + 1));
                proof {
                    assert(self@.frontier =~= so_far.frontier.push(plain_entry(n)));
                }
            }
            i += 1;
        }
        proof {
            assert(around@.take(around@.len() as int) =~= around@);
            lemma_expand_frame(AlgorithmType::Bfs, at, *grid, current, around@);
        }
        true
    }

    fn get_node_state(&self, x: usize, y: usize) -> (state: NodeState) {
        match self.node_states.get((x, y)) {
            Some(state) => state,
            None => NodeState::Unvisited,
        }
    }

    fn get_path(&self) -> (path: Vec<Pos>) {
        if !self.found_path {
            return Vec::new();
        }
        proof {
            lemma_path_is_walk(self@);
        }
        trace_back(&self.parents, self.start, self.end, Ghost(self.depths@))
    }

    fn is_finished(&self) -> (finished: bool) {
        self.finished
    }

    fn found_path(&self) -> (found: bool) {
        self.found_path
    }

    fn name(&self) -> (label: &'static str) {
        "BFS"
    }
}

} // verus!
