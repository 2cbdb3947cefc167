//! Memoizing key/value cache.
//!
//! The cache remembers the result computed for each key: the factory
//! handed to a lookup runs only when the key has no entry yet, and its
//! result is stored, so every later lookup of the same key hands back the
//! stored value and runs nothing.

use std::collections::HashMap;
use vstd::prelude::*;

verus! {

broadcast use vstd::std_specs::hash::group_hash_axioms;

/// Cache that remembers the result for each key.
pub struct Cache<V> {
    inner: HashMap<u64, V>,
}

impl<V> Cache<V> {
    /// The remembered key/value entries.
    pub closed spec fn view(&self) -> Map<u64, V> {
        self.inner@
    }

    /// Creates an empty cache.
    pub fn new() -> (c: Self)
        ensures
            c@ == Map::<u64, V>::empty(),
    {
        Cache { inner: HashMap::new() }
    }
}

impl<V: Copy> Cache<V> {
    /// Retrieve the value or insert a new one created by `f`.
    ///
    /// The factory runs exactly when `key` has no entry yet; its result is
    /// stored under `key` and returned. When an entry exists, the stored
    /// value is returned unchanged and the factory is never invoked, so the
    /// factory's own precondition is asked only of a lookup that misses: a
    /// lookup of a cached key may carry a factory that must not run at all.
    pub fn get_or_insert_with<F: FnOnce(u64) -> V>(&mut self, key: u64, f: F) -> (v: V)
        requires
            !old(self)@.contains_key(key) ==> call_requires(f, (key,)),
        ensures
            old(self)@.contains_key(key) ==> v == old(self)@[key] && final(self)@ == old(self)@,
            !old(self)@.contains_key(key) ==> call_ensures(f, (key,), v) && final(self)@ == old(
                self,
            )@.insert(key, v),
            final(self)@.contains_key(key) && final(self)@[key] == v,
    {
        match self.inner.get(&key) {
            Some(stored) => *stored,
            None => {
                let v = f(key);
                self.inner.insert(key, v);
                v
            },
        }
    }
}

/// Memoization: once a lookup has stored a value for a key, the key has an
/// entry and it holds that very value, so every later lookup of the key
/// returns it and runs no factory.
pub proof fn lemma_memoized<V>(m: Map<u64, V>, key: u64, v: V)
    ensures
        m.insert(key, v).contains_key(key),
        m.insert(key, v)[key] == v,
{
}

/// Keys do not interfere: storing a value under one key leaves every other
/// key's entry, present or absent, exactly as it was.
pub proof fn lemma_cross_key<V>(m: Map<u64, V>, key: u64, v: V, other: u64)
    requires
        other != key,
    ensures
        m.insert(key, v).contains_key(other) == m.contains_key(other),
        m.contains_key(other) ==> m.insert(key, v)[other] == m[other],
{
}

impl<V> Default for Cache<V> {
    /// The empty cache.
    fn default() -> (c: Self)
        ensures
            c@ == Map::<u64, V>::empty(),
    {
        Cache::new()
    }
}

} // verus!
