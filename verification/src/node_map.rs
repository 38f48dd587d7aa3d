//! A map keyed by [`NodeId`] that remembers the order in which keys arrived.

use crate::graph::{NodeId, NodeKey};
use std::collections::HashMap;
use vstd::hash_map::StringHashMap;
use vstd::prelude::*;

verus! {

broadcast use vstd::std_specs::hash::group_hash_axioms;

/// A finite map from nodes to values. Its view is the mathematical map;
/// [`NodeMap::order`] lists its keys, each once, oldest first.
pub struct NodeMap<V> {
    keys: Vec<NodeId>,
    values: Vec<V>,
    streets: HashMap<i64, usize>,
    stops: StringHashMap<usize>,
    model: Ghost<Map<NodeKey, V>>,
}

impl<V> View for NodeMap<V> {
    type V = Map<NodeKey, V>;

    closed spec fn view(&self) -> Map<NodeKey, V> {
        self.model@
    }
}

impl<V> NodeMap<V> {
    /// The place that the indexes give for `key`.
    spec fn slot(self, key: NodeKey) -> Option<int> {
        match key {
            NodeKey::Street(n) => if self.streets@.contains_key(n) {
                Some(self.streets@[n] as int)
            } else {
                None
            },
            NodeKey::Stop(s) => if self.stops@.contains_key(s) {
                Some(self.stops@[s] as int)
            } else {
                None
            },
        }
    }

    #[verifier::type_invariant]
    spec fn inv(self) -> bool {
        &&& self.keys.len() == self.values.len()
        &&& self.model@.dom().finite()
        &&& self.model@.len() == self.keys.len()
        &&& forall|i: int|
            0 <= i < self.keys.len() ==> self.slot(#[trigger] self.keys[i]@) == Some(i)
        &&& forall|key: NodeKey|
            (#[trigger] self.slot(key)) matches Some(i) ==> 0 <= i < self.keys.len()
                && self.keys[i]@ == key
        &&& forall|key: NodeKey| #[trigger] self.model@.contains_key(key) <==> self.slot(key) is Some
        &&& forall|i: int|
            0 <= i < self.keys.len() ==> self.model@[#[trigger] self.keys[i]@] == self.values[i]
    }

    /// The keys in the order in which they were first inserted.
    pub closed spec fn order(&self) -> Seq<NodeKey> {
        Seq::new(self.keys.len() as nat, |i: int| self.keys[i]@)
    }

    /// A map that binds nothing.
    pub fn new() -> (map: Self)
        ensures
            map@ == Map::<NodeKey, V>::empty(),
            map.order() == Seq::<NodeKey>::empty(),
    {
        let map = NodeMap {
            keys: Vec::new(),
            values: Vec::new(),
            streets: HashMap::new(),
            stops: StringHashMap::new(),
            model: Ghost(Map::empty()),
        };
        assert(map.order() =~= Seq::<NodeKey>::empty());
        map
    }

    /// The number of keys, and what holds of [`NodeMap::order`] in every map.
    pub fn len(&self) -> (n: usize)
        ensures
            n == self@.len(),
            n == self.order().len(),
            self@.dom().finite(),
            self.order().no_duplicates(),
            forall|key: NodeKey| self.order().contains(key) <==> self@.contains_key(key),
    {
        proof {
            use_type_invariant(self);
            assert forall|key: NodeKey| self.order().contains(key) <==> self@.contains_key(
                key,
            ) by {
                if self@.contains_key(key) {
                    let i = self.slot(key)->0;
                    assert(self.order()[i] == key);
                }
                if self.order().contains(key) {
                    let i = choose|i: int| 0 <= i < self.order().len() && self.order()[i] == key;
                    assert(self.slot(self.keys[i]@) == Some(i));
                }
            }
            assert forall|i: int, j: int|
                0 <= i < self.order().len() && 0 <= j < self.order().len() && i
                    != j implies self.order()[i] != self.order()[j] by {
                assert(self.slot(self.keys[i]@) == Some(i));
                assert(self.slot(self.keys[j]@) == Some(j));
            }
        }
        self.keys.len()
    }

    /// The place of `key` among the keys, if it is bound.
    fn index_of(&self, key: &NodeId) -> (at: Option<usize>)
        ensures
            at matches Some(i) ==> self.slot(key@) == Some(i as int) && i < self.keys.len(),
            at is None ==> self.slot(key@) is None,
    {
        proof {
            use_type_invariant(self);
        }
        match key {
            NodeId::Street(n) => match self.streets.get(n) {
                Some(i) => Some(*i),
                None => None,
            },
            NodeId::Stop(s) => match self.stops.get(s.as_str()) {
                Some(i) => Some(*i),
                None => None,
            },
        }
    }

    /// Whether `key` is bound.
    pub fn contains_key(&self, key: &NodeId) -> (found: bool)
        ensures
            found == self@.contains_key(key@),
    {
        proof {
            use_type_invariant(self);
        }
        self.index_of(key).is_some()
    }

    /// What `key` is bound to, if it is bound.
    pub fn get(&self, key: &NodeId) -> (value: Option<&V>)
        ensures
            match value {
                Some(v) => self@.contains_key(key@) && *v == self@[key@],
                None => !self@.contains_key(key@),
            },
    {
        proof {
            use_type_invariant(self);
        }
        match self.index_of(key) {
            Some(i) => Some(&self.values[i]),
            None => None,
        }
    }

    /// The key at place `i` of [`NodeMap::order`].
    pub fn key(&self, i: usize) -> (key: &NodeId)
        requires
            i < self.order().len(),
        ensures
            key@ == self.order()[i as int],
    {
        proof {
            use_type_invariant(self);
        }
        &self.keys[i]
    }

    /// The value of the key at place `i` of [`NodeMap::order`].
    pub fn value(&self, i: usize) -> (value: &V)
        requires
            i < self.order().len(),
        ensures
            self@.contains_key(self.order()[i as int]),
            *value == self@[self.order()[i as int]],
    {
        proof {
            use_type_invariant(self);
            assert(self.slot(self.keys[i as int]@) == Some(i as int));
        }
        &self.values[i]
    }

    /// Binds `key` to `value`, replacing what `key` was bound to before. A
    /// key that is new goes to the end of [`NodeMap::order`].
    pub fn insert(&mut self, key: NodeId, value: V)
        ensures
            final(self)@ == old(self)@.insert(key@, value),
            final(self).order() == if old(self)@.contains_key(key@) {
                old(self).order()
            } else {
                old(self).order().push(key@)
            },
    {
        proof {
            use_type_invariant(&*self);
        }
        let at = self.index_of(&key);
        let mut taken = NodeMap::new();
        std::mem::swap(self, &mut taken);
        let ghost before = taken;
        let NodeMap { mut keys, mut values, mut streets, mut stops, model } = taken;
        let ghost grown = model@.insert(key@, value);
        match at {
            Some(i) => {
                values.set(i, value);
            },
            None => {
                let i = keys.len();
                match &key {
                    NodeId::Street(n) => {
                        streets.insert(*n, i);
                    },
                    NodeId::Stop(s) => {
                        stops.insert(s.clone(), i);
                    },
                }
                keys.push(key);
                values.push(value);
            },
        }
        proof {
            let map = NodeMap { keys, values, streets, stops, model: Ghost(grown) };
            assert forall|k: NodeKey| (#[trigger] map.slot(k)) is Some implies 0 <= map.slot(k)->0
                < map.keys.len() && map.keys[map.slot(k)->0]@ == k by {
                if k != key@ {
                    assert(map.slot(k) == before.slot(k));
                }
            }
            assert forall|i: int| 0 <= i < map.keys.len() implies map.slot(
                #[trigger] map.keys[i]@,
            ) == Some(i) by {
                if i < before.keys.len() {
                    assert(before.slot(before.keys[i]@) == Some(i));
                }
            }
            assert forall|i: int| 0 <= i < map.keys.len() implies map.model@[#[trigger] map.keys[i]@]
                == map.values[i] by {
                if i < before.keys.len() {
                    assert(before.slot(before.keys[i]@) == Some(i));
                }
            }
            assert forall|k: NodeKey| #[trigger]
                map.model@.contains_key(k) <==> map.slot(k) is Some by {
                if k != key@ {
                    assert(map.slot(k) == before.slot(k));
                }
            }
            if at is Some {
                assert(map.order() =~= before.order());
            } else {
                assert(map.order() =~= before.order().push(key@));
            }
            assert(map.inv());
        }
        *self = NodeMap { keys, values, streets, stops, model: Ghost(grown) };
    }
}

impl<T> NodeMap<Vec<T>> {
    /// Appends `item` to the list that `key` is bound to; a key that is new
    /// gets a list of its own and goes to the end of [`NodeMap::order`].
    pub fn push_to(&mut self, key: NodeId, item: T)
        ensures
            final(self)@.dom() == old(self)@.dom().insert(key@),
            final(self)@[key@]@ == (if old(self)@.contains_key(key@) {
                old(self)@[key@]@
            } else {
                Seq::empty()
            }).push(item),
            forall|other: NodeKey|
                other != key@ && old(self)@.contains_key(other) ==> final(self)@[other] == old(
                    self,
                )@[other],
            final(self).order() == if old(self)@.contains_key(key@) {
                old(self).order()
            } else {
                old(self).order().push(key@)
            },
    {
        proof {
            use_type_invariant(&*self);
        }
        let at = self.index_of(&key);
        let mut taken = NodeMap::new();
        std::mem::swap(self, &mut taken);
        let ghost before = taken;
        let NodeMap { mut keys, mut values, mut streets, mut stops, model } = taken;
        match at {
            Some(i) => {
                proof {
                    assert(before.slot(before.keys[i as int]@) == Some(i as int));
                }
                values[i].push(item);
            },
            None => {
                let i = keys.len();
                match &key {
                    NodeId::Street(n) => {
                        streets.insert(*n, i);
                    },
                    NodeId::Stop(s) => {
                        stops.insert(s.clone(), i);
                    },
                }
                keys.push(key);
                let mut list = Vec::new();
                list.push(item);
                values.push(list);
            },
        }
        let ghost place = match at {
            Some(i) => i as int,
            None => before.keys.len() as int,
        };
        let ghost grown = model@.insert(key@, values[place]);
        proof {
            let map = NodeMap { keys, values, streets, stops, model: Ghost(grown) };
            assert forall|k: NodeKey| (#[trigger] map.slot(k)) is Some implies 0 <= map.slot(k)->0
                < map.keys.len() && map.keys[map.slot(k)->0]@ == k by {
                if k != key@ {
                    assert(map.slot(k) == before.slot(k));
                }
            }
            assert forall|i: int| 0 <= i < map.keys.len() implies map.slot(
                #[trigger] map.keys[i]@,
            ) == Some(i) by {
                if i < before.keys.len() {
                    assert(before.slot(before.keys[i]@) == Some(i));
                }
            }
            assert forall|i: int| 0 <= i < map.keys.len() implies map.model@[#[trigger] map.keys[i]@]
                == map.values[i] by {
                if i < before.keys.len() {
                    assert(before.slot(before.keys[i]@) == Some(i));
                }
            }
            assert forall|k: NodeKey| #[trigger]
                map.model@.contains_key(k) <==> map.slot(k) is Some by {
                if k != key@ {
                    assert(map.slot(k) == before.slot(k));
                }
            }
            if at is Some {
                assert(map.order() =~= before.order());
            } else {
                assert(map.order() =~= before.order().push(key@));
            }
            assert(grown.dom() =~= before@.dom().insert(key@));
            assert(map.inv());
        }
        *self = NodeMap { keys, values, streets, stops, model: Ghost(grown) };
    }
}

} // verus!
