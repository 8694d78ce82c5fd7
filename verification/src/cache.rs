//! The lookup table of the hashes that are already known, keyed by path.

use vstd::hash_map::StringHashMap;
use vstd::prelude::*;

verus! {

/// The entries recovered from a checkpoint file. A path has at most one hash.
pub struct Cache {
    map: StringHashMap<u64>,
}

impl View for Cache {
    type V = Map<Seq<char>, u64>;

    closed spec fn view(&self) -> Map<Seq<char>, u64> {
        self.map@
    }
}

impl Cache {
    pub fn new() -> (cache: Cache)
        ensures
            cache@ == Map::<Seq<char>, u64>::empty(),
    {
        Cache { map: StringHashMap::new() }
    }

    /// Records `hash` for `path`, in place of any hash recorded for it before.
    pub fn insert(&mut self, path: String, hash: u64)
        ensures
            final(self)@ == old(self)@.insert(path@, hash),
    {
        self.map.insert(path, hash);
    }

    pub fn contains_key(&self, path: &str) -> (found: bool)
        ensures
            found == self@.contains_key(path@),
    {
        self.map.contains_key(path)
    }

    pub fn get(&self, path: &str) -> (hash: Option<u64>)
        ensures
            hash == if self@.contains_key(path@) {
                Some(self@[path@])
            } else {
                None::<u64>
            },
    {
        match self.map.get(path) {
            Some(hash) => Some(*hash),
            None => None,
        }
    }

    pub fn len(&self) -> (n: usize)
        ensures
            n == self@.len(),
    {
        self.map.len()
    }
}

} // verus!
