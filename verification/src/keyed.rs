//! A map from strings to values that remembers the order of insertion.
//!
//! The maps and sets of `std` are not used for string keys: vstd describes
//! them only for keys of whose hashing or order it has a model, and it has
//! none for `String`, so nothing could be proved of what they hold. Where
//! the order in which a sorted map is walked matters, `order::ascending_keys`
//! and `order::sorted_texts` give it.

use crate::assoc::{distinct_keys, has_key, lemma_found_at, lemma_put, lookup, position, put};
use vstd::prelude::*;

verus! {

/// What a vector of pairs holds, as an association sequence of views.
pub open spec fn pairs_view<V: DeepView>(items: Seq<(String, V)>) -> Seq<(Seq<char>, V::V)> {
    Seq::new(items.len(), |i: int| (items[i].0@, items[i].1.deep_view()))
}

/// A map keyed by strings. No key is stored twice, so what the map means is
/// the value that `value_of` finds under each key. The entries stand in the
/// order in which their keys were first inserted, which decides only the
/// order in which `entry_at` hands them out.
#[derive(Debug)]
pub struct KeyedVec<V: DeepView> {
    items: Vec<(String, V)>,
}

impl<V: DeepView> DeepView for KeyedVec<V> {
    type V = Seq<(Seq<char>, V::V)>;

    closed spec fn deep_view(&self) -> Seq<(Seq<char>, V::V)> {
        pairs_view(self.items@)
    }
}

impl<V: DeepView> View for KeyedVec<V> {
    type V = Seq<(Seq<char>, V::V)>;

    open spec fn view(&self) -> Seq<(Seq<char>, V::V)> {
        self.deep_view()
    }
}

impl<V: DeepView> KeyedVec<V> {
    #[verifier::type_invariant]
    spec fn inv(&self) -> bool {
        distinct_keys(pairs_view(self.items@))
    }

    /// The value stored under `key`, as a view.
    pub open spec fn value_of(&self, key: Seq<char>) -> Option<V::V> {
        lookup(self@, key)
    }

    /// A map without entries.
    pub fn new() -> (r: Self)
        ensures
            r@ == Seq::<(Seq<char>, V::V)>::empty(),
    {
        let r = KeyedVec { items: Vec::new() };
        assert(r@ =~= Seq::<(Seq<char>, V::V)>::empty());
        r
    }

    /// The number of entries.
    pub fn len(&self) -> (r: usize)
        ensures
            r == self@.len(),
            distinct_keys(self@),
    {
        proof {
            use_type_invariant(self);
        }
        self.items.len()
    }

    /// Whether the map has no entries.
    pub fn is_empty(&self) -> (r: bool)
        ensures
            r == (self@.len() == 0),
    {
        self.items.len() == 0
    }

    /// The position of `key`, if it is stored.
    pub fn index_of(&self, key: &str) -> (r: Option<usize>)
        ensures
            match r {
                Some(i) => i < self@.len() && self@[i as int].0 == key@ && position(self@, key@) == i
                    && has_key(self@, key@),
                None => !has_key(self@, key@),
            },
            distinct_keys(self@),
    {
        proof {
            use_type_invariant(self);
        }
        let k = String::from_str(key);
        let mut i: usize = 0;
        while i < self.items.len()
            invariant
                i <= self.items@.len(),
                k@ == key@,
                forall|j: int| 0 <= j < i ==> (#[trigger] self@[j]).0 != key@,
            decreases self.items@.len() - i,
        {
            if self.items[i].0 == k {
                proof {
                    use_type_invariant(self);
                    lemma_found_at(self@, key@, i as int);
                }
                return Some(i);
            }
            i += 1;
        }
        None
    }

    /// Whether a value is stored under `key`.
    pub fn contains_key(&self, key: &str) -> (r: bool)
        ensures
            r == has_key(self@, key@),
    {
        self.index_of(key).is_some()
    }

    /// The value stored under `key`.
    pub fn get(&self, key: &str) -> (r: Option<&V>)
        ensures
            match r {
                Some(v) => self.value_of(key@) == Some(v.deep_view()),
                None => self.value_of(key@) is None,
            },
    {
        match self.index_of(key) {
            Some(i) => Some(&self.items[i].1),
            None => None,
        }
    }

    /// The key and the value at position `i`, for positions below the length.
    pub fn entry_at(&self, i: usize) -> (r: Option<(&String, &V)>)
        ensures
            match r {
                Some((k, v)) => i < self@.len() && k@ == self@[i as int].0 && v.deep_view()
                    == self@[i as int].1,
                None => i >= self@.len(),
            },
    {
        if i < self.items.len() {
            Some((&self.items[i].0, &self.items[i].1))
        } else {
            None
        }
    }

    /// The key at position `i`, for positions below the length.
    pub fn key_at(&self, i: usize) -> (r: Option<&String>)
        ensures
            match r {
                Some(k) => i < self@.len() && k@ == self@[i as int].0,
                None => i >= self@.len(),
            },
    {
        match self.entry_at(i) {
            Some((k, _)) => Some(k),
            None => None,
        }
    }

    /// The value at position `i`, for positions below the length.
    pub fn value_at(&self, i: usize) -> (r: Option<&V>)
        ensures
            match r {
                Some(v) => i < self@.len() && v.deep_view() == self@[i as int].1,
                None => i >= self@.len(),
            },
    {
        match self.entry_at(i) {
            Some((_, v)) => Some(v),
            None => None,
        }
    }

    /// Stores `value` under `key`. A key that is already stored keeps its
    /// position; a new key goes to the end.
    pub fn insert(&mut self, key: String, value: V)
        ensures
            final(self)@ == put(old(self)@, key@, value.deep_view()),
            distinct_keys(old(self)@),
            distinct_keys(final(self)@),
    {
        proof {
            use_type_invariant(&*self);
            lemma_put(self@, key@, value.deep_view());
        }
        let found = self.index_of(key.as_str());
        let mut items: Vec<(String, V)> = Vec::new();
        std::mem::swap(&mut self.items, &mut items);
        match found {
            Some(i) => {
                items.set(i, (key, value));
            },
            None => {
                items.push((key, value));
            },
        }
        assert(pairs_view(items@) =~= put(old(self)@, key@, value.deep_view()));
        std::mem::swap(&mut self.items, &mut items);
    }

    /// Puts `value` in the place of the value at position `i` and hands the
    /// old value back.
    pub(crate) fn replace_at(&mut self, i: usize, value: V) -> (r: V)
        requires
            i < old(self)@.len(),
        ensures
            r.deep_view() == old(self)@[i as int].1,
            final(self)@ == old(self)@.update(i as int, (old(self)@[i as int].0, value.deep_view())),
            distinct_keys(old(self)@),
            distinct_keys(final(self)@),
    {
        proof {
            use_type_invariant(&*self);
        }
        let mut items: Vec<(String, V)> = Vec::new();
        std::mem::swap(&mut self.items, &mut items);
        let mut held = value;
        std::mem::swap(&mut items[i].1, &mut held);
        let ghost next = old(self)@.update(i as int, (old(self)@[i as int].0, value.deep_view()));
        assert(pairs_view(items@) =~= next);
        assert(distinct_keys(next)) by {
            assert forall|a: int, b: int| 0 <= a < b < next.len() implies (#[trigger] next[a]).0 != (
            #[trigger] next[b]).0 by {
                assert(next[a].0 == old(self)@[a].0);
                assert(next[b].0 == old(self)@[b].0);
            }
        }
        std::mem::swap(&mut self.items, &mut items);
        held
    }
}

} // verus!
