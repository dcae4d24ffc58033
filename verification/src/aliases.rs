//! Maps keyed by alias.
//!
//! An alias is the string that joins a declaration of the first corpus to the
//! declaration of the second that documents it. The map keeps its entries in
//! the order in which their aliases were first seen, and no alias twice.

use crate::text::str_eq;
use vstd::prelude::*;

verus! {

/// No alias stands twice among `keys`.
pub open spec fn distinct(keys: Seq<Seq<char>>) -> bool {
    forall|i: int, j: int| 0 <= i < j < keys.len() ==> keys[i] != keys[j]
}

/// Among aliases of which none stands twice, an alias is found at its place.
pub proof fn lemma_place_of(keys: Seq<Seq<char>>, i: int)
    requires
        distinct(keys),
        0 <= i < keys.len(),
    ensures
        keys.contains(keys[i]),
        keys.index_of(keys[i]) == i,
{
    let key = keys[i];
    assert(keys.contains(key));
    let k = keys.index_of(key);
    assert(keys[k] == key);
    if k < i {
        assert(keys[k] != keys[i]);
    } else if i < k {
        assert(keys[i] != keys[k]);
    }
}

/// A map from aliases to values of `V`.
pub struct AliasMap<V> {
    keys: Vec<String>,
    values: Vec<V>,
}

impl<V> AliasMap<V> {
    /// The aliases, in the order in which they were first seen.
    pub closed spec fn keys(&self) -> Seq<Seq<char>> {
        Seq::new(self.keys@.len(), |i: int| self.keys@[i]@)
    }

    /// The values, each at the place of its alias.
    pub closed spec fn values(&self) -> Seq<V> {
        self.values@
    }

    /// Each alias has its value, and no alias stands twice.
    #[verifier::type_invariant]
    pub open spec fn wf(&self) -> bool {
        &&& self.keys().len() == self.values().len()
        &&& distinct(self.keys())
    }

    pub fn new() -> (map: Self)
        ensures
            map.wf(),
            map.keys() == Seq::<Seq<char>>::empty(),
            map.values() == Seq::<V>::empty(),
    {
        AliasMap { keys: Vec::new(), values: Vec::new() }
    }

    /// The number of aliases.
    pub fn len(&self) -> (len: usize)
        ensures
            len == self.keys().len(),
            self.wf(),
    {
        proof {
            use_type_invariant(self);
        }
        self.keys.len()
    }

    /// The alias at place `i`.
    pub fn key(&self, i: usize) -> (key: &String)
        requires
            i < self.keys().len(),
        ensures
            key@ == self.keys()[i as int],
    {
        &self.keys[i]
    }

    /// The value at place `i`.
    pub fn value(&self, i: usize) -> (value: &V)
        requires
            i < self.keys().len(),
        ensures
            *value == self.values()[i as int],
    {
        proof {
            use_type_invariant(self);
        }
        &self.values[i]
    }

    /// Puts `value` at place `i` and hands out the value that stood there.
    pub fn swap_value(&mut self, i: usize, value: V) -> (was: V)
        requires
            i < old(self).keys().len(),
        ensures
            was == old(self).values()[i as int],
            final(self).wf(),
            final(self).keys() == old(self).keys(),
            final(self).values() == old(self).values().update(i as int, value),
    {
        proof {
            use_type_invariant(&*self);
        }
        let mut taken = AliasMap { keys: Vec::new(), values: Vec::new() };
        std::mem::swap(self, &mut taken);
        let AliasMap { keys, mut values } = taken;
        let ghost before = values@;
        values.push(value);
        let was = values.swap_remove(i);
        assert(values@ == before.update(i as int, value));
        *self = AliasMap { keys, values };
        was
    }

    /// The place of `key`.
    pub fn find(&self, key: &str) -> (place: Option<usize>)
        ensures
            match place {
                Some(i) => i < self.keys().len() && self.keys()[i as int] == key@,
                None => !self.keys().contains(key@),
            },
    {
        let mut i: usize = 0;
        while i < self.keys.len()
            invariant
                i <= self.keys@.len(),
                forall|j: int| 0 <= j < i ==> self.keys()[j] != key@,
            decreases self.keys.len() - i,
        {
            if str_eq(self.keys[i].as_str(), key) {
                return Some(i);
            }
            i = i + 1;
        }
        None
    }

    /// Adds an alias that the map does not have yet, with its value.
    pub fn push(&mut self, key: String, value: V)
        requires
            !old(self).keys().contains(key@),
        ensures
            final(self).wf(),
            final(self).keys() == old(self).keys().push(key@),
            final(self).values() == old(self).values().push(value),
    {
        proof {
            use_type_invariant(&*self);
        }
        let ghost before = self.keys();
        let ghost name = key@;
        let mut taken = AliasMap { keys: Vec::new(), values: Vec::new() };
        std::mem::swap(self, &mut taken);
        let AliasMap { mut keys, mut values } = taken;
        keys.push(key);
        values.push(value);
        proof {
            let now = Seq::new(keys@.len(), |i: int| keys@[i]@);
            assert(now == before.push(name));
            assert forall|i: int, j: int| 0 <= i < j < now.len() implies now[i] != now[j] by {
                if j == before.len() {
                    assert(before[i] == now[i]);
                    assert(before.contains(before[i]));
                } else {
                    assert(before[i] != before[j]);
                }
            }
        }
        let grown = AliasMap { keys, values };
        *self = grown;
    }
}

} // verus!
