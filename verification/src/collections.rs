use vstd::prelude::*;

use crate::model::{Position, ResourceKind};

verus! {

/// A finite set of grid positions.
///
/// The positions are kept in the order in which they were first added,
/// without repetition. A position is a pair of coordinates, and vstd describes std's hash
/// sets and hash maps only for keys whose hashing it models (integers and the like), so
/// these collections keep their contents in vectors.
#[derive(Debug)]
pub struct PositionSet {
    items: Vec<Position>,
}

impl View for PositionSet {
    type V = Set<Position>;

    closed spec fn view(&self) -> Set<Position> {
        self.items@.to_set()
    }
}

impl PositionSet {
    /// The positions in insertion order.
    pub closed spec fn elems(self) -> Seq<Position> {
        self.items@
    }

    #[verifier::type_invariant]
    closed spec fn no_repeats(self) -> bool {
        self.items@.no_duplicates()
    }

    /// An empty set.
    pub fn new() -> (s: PositionSet)
        ensures
            s@ == Set::<Position>::empty(),
            s.elems() == Seq::<Position>::empty(),
    {
        let s = PositionSet { items: Vec::new() };
        assert(s@ =~= Set::<Position>::empty());
        s
    }

    /// Number of positions in the set.
    pub fn len(&self) -> (n: usize)
        ensures
            n == self@.len(),
    {
        proof {
            use_type_invariant(self);
            self.items@.unique_seq_to_set();
        }
        self.items.len()
    }

    /// Whether `p` belongs to the set.
    pub fn contains(&self, p: &Position) -> (b: bool)
        ensures
            b == self@.contains(*p),
    {
        let mut i: usize = 0;
        while i < self.items.len()
            invariant
                i <= self.items@.len(),
                forall|j: int| 0 <= j < i ==> self.items@[j] != *p,
            decreases self.items@.len() - i,
        {
            if self.items[i] == *p {
                assert(self.items@.contains(*p));
                return true;
            }
            i = i + 1;
        }
        false
    }

    /// Adds `p`; answers whether it was absent before.
    pub fn insert(&mut self, p: Position) -> (added: bool)
        ensures
            added == !old(self)@.contains(p),
            final(self)@ == old(self)@.insert(p),
            final(self).elems() == (if added {
                old(self).elems().push(p)
            } else {
                old(self).elems()
            }),
    {
        proof {
            use_type_invariant(&*self);
        }
        if self.contains(&p) {
            assert(old(self)@.insert(p) =~= old(self)@);
            return false;
        }
        let mut items: Vec<Position> = Vec::new();
        std::mem::swap(&mut items, &mut self.items);
        items.push(p);
        assert(items@.no_duplicates()) by {
            assert forall|i: int, j: int|
                0 <= i < items@.len() && 0 <= j < items@.len() && i != j implies items@[i]
                != items@[j] by {
                if i == items@.len() - 1 && items@[i] == items@[j] {
                    assert(old(self).items@[j] == p);
                    assert(old(self).items@.contains(p));
                } else if j == items@.len() - 1 && items@[i] == items@[j] {
                    assert(old(self).items@[i] == p);
                    assert(old(self).items@.contains(p));
                }
            }
        }
        self.items = items;
        assert(self@ =~= old(self)@.insert(p)) by {
            assert forall|q: Position| self@.contains(q) <==> old(self)@.insert(p).contains(q) by {
                if old(self).items@.contains(q) {
                    let k = choose|k: int| 0 <= k < old(self).items@.len() && old(self).items@[k] == q;
                    assert(self.items@[k] == q);
                }
                if q == p {
                    assert(self.items@[self.items@.len() - 1] == p);
                }
            }
        }
        true
    }

    /// The set of the positions of `v`.
    pub fn from_vec(v: Vec<Position>) -> (s: PositionSet)
        ensures
            s@ == v@.to_set(),
    {
        let mut s = PositionSet::new();
        let mut i: usize = 0;
        while i < v.len()
            invariant
                i <= v@.len(),
                s@ == v@.subrange(0, i as int).to_set(),
            decreases v@.len() - i,
        {
            s.insert(v[i]);
            assert(v@.subrange(0, i + 1) =~= v@.subrange(0, i as int).push(v@[i as int]));
            proof {
                v@.subrange(0, i as int).lemma_push_to_set_commute(v@[i as int]);
            }
            i = i + 1;
        }
        assert(v@.subrange(0, v@.len() as int) =~= v@);
        s
    }
}

impl Clone for PositionSet {
    /// A set holding the same positions, in the same order.
    fn clone(&self) -> (c: PositionSet)
        ensures
            c@ == self@,
            c.elems() == self.elems(),
    {
        proof {
            use_type_invariant(self);
        }
        let items = self.items.clone();
        assert(items@ =~= self.items@);
        PositionSet { items }
    }
}

/// A finite map from grid positions to resource kinds.
///
/// Keys are kept in the order in which they were first added, without repetition.
#[derive(Debug)]
pub struct PositionMap {
    keys: Vec<Position>,
    kinds: Vec<ResourceKind>,
}

/// The map whose keys are `keys`, the key at index `i` holding `kinds[i]`.
pub open spec fn map_of(keys: Seq<Position>, kinds: Seq<ResourceKind>) -> Map<Position, ResourceKind> {
    Map::new(|p: Position| keys.contains(p), |p: Position| kinds[keys.index_of(p)])
}

proof fn lemma_map_of_at(keys: Seq<Position>, kinds: Seq<ResourceKind>, i: int)
    requires
        keys.no_duplicates(),
        0 <= i < keys.len(),
    ensures
        map_of(keys, kinds).contains_key(keys[i]),
        map_of(keys, kinds)[keys[i]] == kinds[i],
{
    assert(keys.contains(keys[i]));
    let j = keys.index_of(keys[i]);
    assert(0 <= j < keys.len() && keys[j] == keys[i]);
}

/// The keys listed by `key_seq` are exactly the keys of the map.
pub proof fn lemma_key_seq_lists_keys(m: PositionMap)
    ensures
        forall|p: Position| #[trigger] m@.contains_key(p) <==> m.key_seq().contains(p),
{
}

impl View for PositionMap {
    type V = Map<Position, ResourceKind>;

    closed spec fn view(&self) -> Map<Position, ResourceKind> {
        map_of(self.keys@, self.kinds@)
    }
}

impl PositionMap {
    /// The keys in insertion order.
    pub closed spec fn key_seq(self) -> Seq<Position> {
        self.keys@
    }

    #[verifier::type_invariant]
    closed spec fn well_formed(self) -> bool {
        &&& self.keys@.len() == self.kinds@.len()
        &&& self.keys@.no_duplicates()
    }

    /// An empty map.
    pub fn new() -> (m: PositionMap)
        ensures
            m@ == Map::<Position, ResourceKind>::empty(),
            m.key_seq() == Seq::<Position>::empty(),
    {
        let m = PositionMap { keys: Vec::new(), kinds: Vec::new() };
        assert(m@ =~= Map::<Position, ResourceKind>::empty());
        m
    }

    fn find(&self, p: &Position) -> (r: Option<usize>)
        ensures
            match r {
                Some(i) => i < self.keys@.len() && self.keys@[i as int] == *p,
                None => !self.keys@.contains(*p),
            },
    {
        let mut i: usize = 0;
        while i < self.keys.len()
            invariant
                i <= self.keys@.len(),
                forall|j: int| 0 <= j < i ==> self.keys@[j] != *p,
            decreases self.keys@.len() - i,
        {
            if self.keys[i] == *p {
                return Some(i);
            }
            i = i + 1;
        }
        None
    }

    /// Number of keys.
    pub fn len(&self) -> (n: usize)
        ensures
            n == self@.len(),
    {
        proof {
            use_type_invariant(self);
            assert(self.keys@.to_set() =~= self@.dom());
            self.keys@.unique_seq_to_set();
        }
        self.keys.len()
    }

    /// Whether `p` is a key.
    pub fn contains_key(&self, p: &Position) -> (b: bool)
        ensures
            b == self@.contains_key(*p),
    {
        self.find(p).is_some()
    }

    /// The kind stored under `p`, if any.
    pub fn get(&self, p: &Position) -> (r: Option<ResourceKind>)
        ensures
            r == (if self@.contains_key(*p) {
                Some(self@[*p])
            } else {
                None
            }),
    {
        proof {
            use_type_invariant(self);
        }
        match self.find(p) {
            Some(i) => {
                proof {
                    lemma_map_of_at(self.keys@, self.kinds@, i as int);
                }
                Some(self.kinds[i])
            },
            None => None,
        }
    }

    /// Stores `kind` under `p`, replacing a previous value; answers the previous value.
    /// A new key goes last in `key_seq`.
    pub fn insert(&mut self, p: Position, kind: ResourceKind) -> (prev: Option<ResourceKind>)
        ensures
            final(self)@ == old(self)@.insert(p, kind),
            prev == (if old(self)@.contains_key(p) {
                Some(old(self)@[p])
            } else {
                None
            }),
            final(self).key_seq() == (if old(self)@.contains_key(p) {
                old(self).key_seq()
            } else {
                old(self).key_seq().push(p)
            }),
    {
        proof {
            use_type_invariant(&*self);
        }
        let ghost old_keys = self.keys@;
        let ghost old_kinds = self.kinds@;
        match self.find(&p) {
            Some(i) => {
                let mut taken = PositionMap::new();
                std::mem::swap(&mut taken, self);
                let PositionMap { keys, mut kinds } = taken;
                let previous = kinds[i];
                kinds.set(i, kind);
                *self = PositionMap { keys, kinds };
                proof {
                    lemma_map_of_at(old_keys, old_kinds, i as int);
                    assert(self@ =~= old(self)@.insert(p, kind)) by {
                        assert forall|q: Position| #[trigger]
                            self@.contains_key(q) implies self@[q] == old(self)@.insert(p, kind)[q] by {
                            let k = self.keys@.index_of(q);
                            assert(self.keys@.contains(q));
                            lemma_map_of_at(self.keys@, self.kinds@, k);
                            lemma_map_of_at(old_keys, old_kinds, k);
                        }
                    }
                }
                Some(previous)
            },
            None => {
                let mut taken = PositionMap::new();
                std::mem::swap(&mut taken, self);
                let PositionMap { mut keys, mut kinds } = taken;
                keys.push(p);
                kinds.push(kind);
                assert(keys@.no_duplicates()) by {
                    assert forall|i: int, j: int|
                        0 <= i < keys@.len() && 0 <= j < keys@.len() && i != j implies keys@[i]
                        != keys@[j] by {
                        if i == keys@.len() - 1 && keys@[i] == keys@[j] {
                            assert(old_keys[j] == p);
                            assert(old_keys.contains(p));
                        } else if j == keys@.len() - 1 && keys@[i] == keys@[j] {
                            assert(old_keys[i] == p);
                            assert(old_keys.contains(p));
                        }
                    }
                }
                *self = PositionMap { keys, kinds };
                proof {
                    assert(old(self)@.contains_key(p) == old_keys.contains(p));
                    assert(self@ =~= old(self)@.insert(p, kind)) by {
                        assert forall|q: Position|
                            self@.contains_key(q) <==> old(self)@.insert(p, kind).contains_key(q) by {
                            if old_keys.contains(q) {
                                let k = choose|k: int| 0 <= k < old_keys.len() && old_keys[k] == q;
                                assert(self.keys@[k] == q);
                            }
                            if q == p {
                                assert(self.keys@[self.keys@.len() - 1] == p);
                            }
                        }
                        assert forall|q: Position| #[trigger]
                            self@.contains_key(q) implies self@[q] == old(self)@.insert(p, kind)[q] by {
                            let k = self.keys@.index_of(q);
                            assert(self.keys@.contains(q));
                            lemma_map_of_at(self.keys@, self.kinds@, k);
                            if k < old_keys.len() {
                                lemma_map_of_at(old_keys, old_kinds, k);
                            }
                        }
                    }
                }
                None
            },
        }
    }

    /// Removes the key `p`; answers the value it held. The other keys keep their order.
    pub fn remove(&mut self, p: &Position) -> (prev: Option<ResourceKind>)
        ensures
            final(self)@ == old(self)@.remove(*p),
            prev == (if old(self)@.contains_key(*p) {
                Some(old(self)@[*p])
            } else {
                None
            }),
            old(self)@.contains_key(*p) ==> exists|i: int|
                0 <= i < old(self).key_seq().len() && old(self).key_seq()[i] == *p
                    && final(self).key_seq() == old(self).key_seq().remove(i),
            !old(self)@.contains_key(*p) ==> final(self).key_seq() == old(self).key_seq(),
    {
        proof {
            use_type_invariant(&*self);
        }
        let ghost old_keys = self.keys@;
        let ghost old_kinds = self.kinds@;
        match self.find(p) {
            None => {
                assert(old(self)@.remove(*p) =~= old(self)@);
                None
            },
            Some(i) => {
                let mut taken = PositionMap::new();
                std::mem::swap(&mut taken, self);
                let PositionMap { mut keys, mut kinds } = taken;
                keys.remove(i);
                let previous = kinds.remove(i);
                assert(keys@.no_duplicates()) by {
                    assert forall|a: int, b: int|
                        0 <= a < keys@.len() && 0 <= b < keys@.len() && a != b implies keys@[a]
                        != keys@[b] by {
                        let a2 = if a < i { a } else { a + 1 };
                        let b2 = if b < i { b } else { b + 1 };
                        assert(keys@[a] == old_keys[a2]);
                        assert(keys@[b] == old_keys[b2]);
                    }
                }
                *self = PositionMap { keys, kinds };
                proof {
                    assert(old_keys[i as int] == *p && self.keys@ == old_keys.remove(i as int));
                    assert(old(self).key_seq()[i as int] == *p);
                    assert(self.key_seq() == old(self).key_seq().remove(i as int));
                    lemma_map_of_at(old_keys, old_kinds, i as int);
                    assert(self@ =~= old(self)@.remove(*p)) by {
                        assert forall|q: Position|
                            self@.contains_key(q) <==> old(self)@.remove(*p).contains_key(q) by {
                            if self.keys@.contains(q) {
                                let k = choose|k: int| 0 <= k < self.keys@.len() && self.keys@[k] == q;
                                let k2 = if k < i { k } else { k + 1 };
                                assert(old_keys[k2] == q);
                            }
                            if old_keys.contains(q) && q != *p {
                                let k = choose|k: int| 0 <= k < old_keys.len() && old_keys[k] == q;
                                let k2 = if k < i { k } else { k - 1 };
                                assert(self.keys@[k2] == q);
                            }
                        }
                        assert forall|q: Position| #[trigger]
                            self@.contains_key(q) implies self@[q] == old(self)@.remove(*p)[q] by {
                            let k = self.keys@.index_of(q);
                            assert(self.keys@.contains(q));
                            lemma_map_of_at(self.keys@, self.kinds@, k);
                            let k2 = if k < i { k } else { k + 1 };
                            lemma_map_of_at(old_keys, old_kinds, k2);
                        }
                    }
                }
                Some(previous)
            },
        }
    }

    /// The keys, in `key_seq` order.
    pub fn keys(&self) -> (v: Vec<Position>)
        ensures
            v@ == self.key_seq(),
            v@.no_duplicates(),
            forall|p: Position| self@.contains_key(p) <==> v@.contains(p),
    {
        proof {
            use_type_invariant(self);
        }
        let mut v: Vec<Position> = Vec::new();
        let mut i: usize = 0;
        while i < self.keys.len()
            invariant
                i <= self.keys@.len(),
                v@ == self.keys@.subrange(0, i as int),
            decreases self.keys@.len() - i,
        {
            v.push(self.keys[i]);
            assert(v@ =~= self.keys@.subrange(0, i + 1));
            i = i + 1;
        }
        assert(self.keys@.subrange(0, self.keys@.len() as int) =~= self.keys@);
        v
    }

    /// The map holding the pairs of `v`; a later pair wins over an earlier one with the same key.
    pub fn from_vec(v: Vec<(Position, ResourceKind)>) -> (m: PositionMap)
        ensures
            forall|p: Position| #[trigger]
                m@.contains_key(p) <==> exists|i: int| 0 <= i < v@.len() && v@[i].0 == p,
            forall|i: int|
                0 <= i < v@.len() && (forall|j: int| i < j < v@.len() ==> v@[j].0 != v@[i].0)
                    ==> m@[v@[i].0] == v@[i].1,
    {
        let mut m = PositionMap::new();
        let mut i: usize = 0;
        while i < v.len()
            invariant
                i <= v@.len(),
                forall|p: Position| #[trigger]
                    m@.contains_key(p) <==> exists|k: int| 0 <= k < i && v@[k].0 == p,
                forall|k: int|
                    0 <= k < i && (forall|j: int| k < j < i ==> v@[j].0 != v@[k].0) ==> m@[v@[k].0]
                        == v@[k].1,
            decreases v@.len() - i,
        {
            let (p, kind) = v[i];
            m.insert(p, kind);
            assert forall|q: Position| #[trigger]
                m@.contains_key(q) <==> exists|k: int| 0 <= k < i + 1 && v@[k].0 == q by {
                if q == p {
                    assert(v@[i as int].0 == q);
                }
            }
            i = i + 1;
        }
        m
    }
}

impl Clone for PositionMap {
    /// A map holding the same pairs, its keys in the same order.
    fn clone(&self) -> (c: PositionMap)
        ensures
            c@ == self@,
            c.key_seq() == self.key_seq(),
    {
        proof {
            use_type_invariant(self);
        }
        let keys = self.keys.clone();
        let kinds = self.kinds.clone();
        assert(keys@ =~= self.keys@);
        assert(kinds@ =~= self.kinds@);
        PositionMap { keys, kinds }
    }
}

} // verus!
