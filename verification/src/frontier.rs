//! The priority frontier of the uniform-cost and A* searches: it pops the
//! entry with the smallest key and, among equal keys, the one with the
//! larger cost from the start.

use crate::grid::Pos;
use crate::pathfinding::{best_index, better, is_best, Entry};
use crate::soundness::{lemma_best_exists, lemma_best_unique};
use vstd::prelude::*;

verus! {

/// A frontier entry of a priority search.
#[derive(Clone, Copy, Debug)]
pub struct Node {
    /// The position to expand.
    pub position: Pos,
    /// The cost from the start with which the position was pushed.
    pub cost: u128,
    /// The priority: the smaller, the sooner the node is popped.
    pub key: u128,
}

impl View for Node {
    type V = Entry;

    open spec fn view(&self) -> Entry {
        Entry { position: self.position, cost: self.cost as nat, key: self.key as nat }
    }
}

impl Node {
    /// Whether this node is popped before `other`: on the smaller key, and
    /// on the larger cost where the keys are equal.
    pub fn pops_before(&self, other: &Node) -> (before: bool)
        ensures
            before == better(self@, other@),
    {
        self.key < other.key || (self.key == other.key && self.cost > other.cost)
    }
}

/// The pending nodes of a priority search, in the order they were pushed.
pub struct Frontier {
    nodes: Vec<Node>,
}

impl View for Frontier {
    type V = Seq<Entry>;

    closed spec fn view(&self) -> Seq<Entry> {
        self.nodes@.map_values(|node: Node| node@)
    }
}

impl Frontier {
    /// The empty frontier.
    pub fn new() -> (frontier: Self)
        ensures
            frontier@ == Seq::<Entry>::empty(),
    {
        let frontier = Frontier { nodes: Vec::new() };
        assert(frontier@ =~= Seq::<Entry>::empty());
        frontier
    }

    /// Adds a node behind those that are pending.
    pub fn push(&mut self, node: Node)
        ensures
            final(self)@ == old(self)@.push(node@),
    {
        self.nodes.push(node);
        assert(self@ =~= old(self)@.push(node@));
    }

    /// Takes out the best pending node: none has a smaller key, none with
    /// the same key has a larger cost, and of those that tie on both it was
    /// pushed first. Returns `None` on an empty frontier.
    pub fn pop(&mut self) -> (popped: Option<Node>)
        ensures
            match popped {
                Some(node) => {
                    &&& old(self)@.len() > 0
                    &&& is_best(old(self)@, best_index(old(self)@))
                    &&& node@ == old(self)@[best_index(old(self)@)]
                    &&& final(self)@ == old(self)@.remove(best_index(old(self)@))
                },
                None => old(self)@.len() == 0 && final(self)@ == old(self)@,
            },
    {
        if self.nodes.len() == 0 {
            return None;
        }
        let mut best: usize = 0;
        let mut i: usize = 1;
        while i < self.nodes.len()
            invariant
                1 <= i <= self.nodes@.len(),
                self@ == old(self)@,
                self@.len() == self.nodes@.len(),
                is_best(self@.take(i as int), best as int),
            decreases self.nodes@.len() - i,
        {
            let ghost seen = self@.take(i as int);
            let ghost more = self@.take(i + 1);
            let candidate = &self.nodes[i];
            let leader = &self.nodes[best];
            if candidate.pops_before(leader) {
                proof {
                    assert forall|k: int| 0 <= k < i implies better(more[i as int], #[trigger] more[k]) by {
                        assert(more[k] == seen[k]);
                        if k < best {
                            assert(better(seen[best as int], seen[k]));
                        } else if k > best {
                            assert(!better(seen[k], seen[best as int]));
                        }
                    }
                }
                best = i;
            } else {
                proof {
                    assert forall|k: int| best < k < more.len() implies !better(
                        #[trigger] more[k],
                        more[best as int],
                    ) by {
                        if k < i {
                            assert(more[k] == seen[k]);
                        }
                    }
                    assert forall|k: int| 0 <= k < best implies better(
                        more[best as int],
                        #[trigger] more[k],
                    ) by {
                        assert(more[k] == seen[k]);
                    }
                }
            }
            i += 1;
        }
        proof {
            assert(self@.take(i as int) =~= self@);
            let found = lemma_best_exists(self@);
            lemma_best_unique(self@, best as int, found);
        }
        let node = self.nodes.remove(best);
        assert(self@ =~= old(self)@.remove(best as int));
        Some(node)
    }
}

} // verus!
