//! A hash table from 64-bit keys to positions, kept by `hashbrown`.

use vstd::prelude::*;

verus! {

/// A `hashbrown::HashMap<u64, usize>`.
///
/// The verifier does not look inside the table: what it holds is known only
/// as [`entries`], and only through the contracts of the methods below.
#[verifier::external_body]
pub struct IndexTable {
    inner: hashbrown::HashMap<u64, usize>,
}

/// The key-value pairs that a table holds.
pub uninterp spec fn entries(table: IndexTable) -> Map<u64, usize>;

impl IndexTable {
    /// `hashbrown::HashMap::new`: a table without entries.
    #[verifier::external_body]
    pub(crate) fn new() -> (table: IndexTable)
        ensures
            forall|key: u64| !entries(table).contains_key(key),
    {
        IndexTable { inner: hashbrown::HashMap::new() }
    }

    /// `hashbrown::HashMap::insert`: binds `key` to `value`, replacing and
    /// returning the value that `key` was bound to, if any. Other keys keep
    /// their values.
    #[verifier::external_body]
    pub(crate) fn insert(&mut self, key: u64, value: usize) -> (previous: Option<usize>)
        ensures
            entries(*final(self)) == entries(*old(self)).insert(key, value),
            previous == entries(*old(self)).get(key),
    {
        self.inner.insert(key, value)
    }

    /// `hashbrown::HashMap::get`: the value that `key` is bound to, if any.
    #[verifier::external_body]
    pub(crate) fn get(&self, key: u64) -> (value: Option<usize>)
        ensures
            value == entries(*self).get(key),
    {
        self.inner.get(&key).copied()
    }

    /// `hashbrown::HashMap::remove`: unbinds `key` and returns the value it
    /// was bound to, if any. Other keys keep their values.
    #[verifier::external_body]
    pub(crate) fn remove(&mut self, key: u64) -> (previous: Option<usize>)
        ensures
            entries(*final(self)) == entries(*old(self)).remove(key),
            previous == entries(*old(self)).get(key),
    {
        self.inner.remove(&key)
    }
}

} // verus!
