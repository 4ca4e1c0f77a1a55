//! The index from a visit to the position where the walk first met it, held
//! in a `foldhash::HashMap` keyed by the visit's four fields.

use vstd::prelude::*;

verus! {

/// A `foldhash::HashMap` from a visit's fields (proc, receiver, exactness,
/// stability) to the visit's position.
#[verifier::external_body]
pub struct VisitIndex {
    map: foldhash::HashMap<(usize, usize, bool, bool), usize>,
}

/// What a `VisitIndex` maps.
pub uninterp spec fn visit_index_entries(index: VisitIndex) -> Map<(usize, usize, bool, bool), usize>;

impl VisitIndex {
    /// `foldhash::HashMap::default()`: an empty map.
    #[verifier::external_body]
    pub(crate) fn new() -> (fresh: VisitIndex)
        ensures
            visit_index_entries(fresh).dom().is_empty(),
    {
        VisitIndex { map: foldhash::HashMap::default() }
    }

    /// `HashMap::get`: the value that `key` maps to, if it maps to any. The
    /// key's `Eq` and `Hash` are those of a tuple of integers and booleans.
    #[verifier::external_body]
    pub(crate) fn get(&self, key: (usize, usize, bool, bool)) -> (value: Option<usize>)
        ensures
            match value {
                Some(v) => visit_index_entries(*self).contains_key(key) && visit_index_entries(
                    *self,
                )[key] == v,
                None => !visit_index_entries(*self).contains_key(key),
            },
    {
        self.map.get(&key).copied()
    }

    /// `HashMap::insert`: `key` maps to `value` afterwards, every other key
    /// as before.
    #[verifier::external_body]
    pub(crate) fn insert(&mut self, key: (usize, usize, bool, bool), value: usize)
        ensures
            visit_index_entries(*final(self)) == visit_index_entries(*old(self)).insert(key, value),
    {
        self.map.insert(key, value);
    }
}

} // verus!
