//! Sets and maps keyed by grid position.
//!
//! A position is hashed through one integer that packs both coordinates, so
//! that the hash tables work on a key type whose hashing is specified.

use crate::grid::Pos;
use std::collections::{HashMap, HashSet};
use vstd::prelude::*;

verus! {

/// The integer that stands for a position in the hash tables.
pub open spec fn key_of(p: Pos) -> u128 {
    (p.0 as u128 * 0x1_0000_0000_0000_0000u128 + p.1 as u128) as u128
}

/// Different positions have different keys.
pub proof fn lemma_key_injective(p: Pos, q: Pos)
    ensures
        key_of(p) == key_of(q) <==> p == q,
{
    let b: int = 0x1_0000_0000_0000_0000int;
    let (px, py, qx, qy) = (p.0 as int, p.1 as int, q.0 as int, q.1 as int);
    assert(px * b + py < 0x1_0000_0000_0000_0000_0000_0000_0000_0000int) by (nonlinear_arith)
        requires
            0 <= px < b,
            0 <= py < b,
            b == 0x1_0000_0000_0000_0000int,
    ;
    assert(qx * b + qy < 0x1_0000_0000_0000_0000_0000_0000_0000_0000int) by (nonlinear_arith)
        requires
            0 <= qx < b,
            0 <= qy < b,
            b == 0x1_0000_0000_0000_0000int,
    ;
    assert(px * b + py == qx * b + qy ==> px == qx && py == qy) by (nonlinear_arith)
        requires
            0 <= py < b,
            0 <= qy < b,
    ;
}

fn key(p: Pos) -> (k: u128)
    ensures
        k == key_of(p),
{
    let x: u128 = p.0 as u128;
    let y: u128 = p.1 as u128;
    assert(x * 0x1_0000_0000_0000_0000u128 + y < 0x1_0000_0000_0000_0000_0000_0000_0000_0000int)
        by (nonlinear_arith)
        requires
            0 <= x < 0x1_0000_0000_0000_0000u128,
            0 <= y < 0x1_0000_0000_0000_0000u128,
    ;
    x * 0x1_0000_0000_0000_0000u128 + y
}

/// A set of positions.
pub struct PosSet {
    keys: HashSet<u128>,
}

impl View for PosSet {
    type V = Set<Pos>;

    closed spec fn view(&self) -> Set<Pos> {
        Set::new(|p: Pos| self.keys@.contains(key_of(p)))
    }
}

impl PosSet {
    /// The underlying table holds finitely many keys.
    pub closed spec fn wf(&self) -> bool {
        self.keys@.finite()
    }

    /// How many positions the set holds.
    pub closed spec fn count(&self) -> nat {
        self.keys@.len()
    }

    /// A set never holds more positions than a `usize` counts.
    pub proof fn lemma_count_bounded(&self)
        ensures
            self.count() <= usize::MAX,
    {
        assert(self.keys.len() == self.keys@.len());
    }

    /// The empty set.
    pub fn new() -> (set: Self)
        ensures
            set.wf(),
            set@ == Set::<Pos>::empty(),
            set.count() == 0,
    {
        let set = PosSet { keys: HashSet::new() };
        assert(set@ =~= Set::<Pos>::empty());
        set
    }

    /// Whether `p` is in the set.
    pub fn contains(&self, p: Pos) -> (found: bool)
        ensures
            found == self@.contains(p),
    {
        let k = key(p);
        self.keys.contains(&k)
    }

    /// Adds `p` to the set.
    pub fn insert(&mut self, p: Pos)
        requires
            old(self).wf(),
        ensures
            final(self).wf(),
            final(self)@ == old(self)@.insert(p),
            final(self).count() == if old(self)@.contains(p) {
                old(self).count()
            } else {
                old(self).count() + 1
            },
    {
        let k = key(p);
        self.keys.insert(k);
        proof {
            assert forall|q: Pos| #[trigger] self@.contains(q) == old(self)@.insert(p).contains(q) by {
                lemma_key_injective(p, q);
            }
            assert(self@ =~= old(self)@.insert(p));
        }
    }

    /// The number of positions in the set.
    pub fn len(&self) -> (n: usize)
        ensures
            n == self.count(),
    {
        self.keys.len()
    }
}

/// A map from positions to values.
pub struct PosMap<V> {
    entries: HashMap<u128, V>,
}

impl<V> View for PosMap<V> {
    type V = Map<Pos, V>;

    closed spec fn view(&self) -> Map<Pos, V> {
        Map::new(|p: Pos| self.entries@.contains_key(key_of(p)), |p: Pos| self.entries@[key_of(p)])
    }
}

impl<V: Copy> PosMap<V> {
    /// The empty map.
    pub fn new() -> (map: Self)
        ensures
            map@ == Map::<Pos, V>::empty(),
    {
        let map = PosMap { entries: HashMap::new() };
        assert(map@ =~= Map::<Pos, V>::empty());
        map
    }

    /// Whether the map has an entry for `p`.
    pub fn contains_key(&self, p: Pos) -> (found: bool)
        ensures
            found == self@.contains_key(p),
    {
        let k = key(p);
        self.entries.contains_key(&k)
    }

    /// The value stored for `p`, if any.
    pub fn get(&self, p: Pos) -> (value: Option<V>)
        ensures
            value == if self@.contains_key(p) {
                Some(self@[p])
            } else {
                None
            },
    {
        let k = key(p);
        match self.entries.get(&k) {
            Some(v) => Some(*v),
            None => None,
        }
    }

    /// Stores `value` for `p`, replacing what was there.
    pub fn insert(&mut self, p: Pos, value: V)
        ensures
            final(self)@ == old(self)@.insert(p, value),
    {
        let k = key(p);
        self.entries.insert(k, value);
        proof {
            assert forall|q: Pos|
                self@.contains_key(q) == #[trigger] old(self)@.insert(p, value).contains_key(q) by {
                lemma_key_injective(p, q);
            }
            assert forall|q: Pos| #[trigger]
                self@.contains_key(q) implies self@[q] == old(self)@.insert(p, value)[q] by {
                lemma_key_injective(p, q);
            }
            assert(self@ =~= old(self)@.insert(p, value));
        }
    }
}

} // verus!
