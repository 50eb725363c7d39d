use vstd::prelude::*;

verus! {

/// A map from state fingerprints to a number of moves. The solution cache
/// and the solver's best-known-distance table are both of this shape.
/// Backed by a hashbrown hash map, which Verus does not read; everything
/// stated about it goes through `fingerprint_entries`.
#[verifier::external_body]
pub struct DistanceCache {
    table: hashbrown::HashMap<u64, i16>,
}

/// The entries that a `DistanceCache` holds.
pub uninterp spec fn fingerprint_entries(c: DistanceCache) -> Map<u64, i16>;

impl DistanceCache {
    /// Relies on hashbrown's `HashMap::new`: a fresh map holds no entry.
    #[verifier::external_body]
    pub fn new() -> (r: DistanceCache)
        ensures
            fingerprint_entries(r) =~= Map::empty(),
    {
        DistanceCache { table: hashbrown::HashMap::new() }
    }

    /// Relies on hashbrown's `HashMap::get` with the `u64` key hashed and
    /// compared by value: the value stored under the key, if one is there.
    #[verifier::external_body]
    pub fn get(&self, key: u64) -> (r: Option<i16>)
        ensures
            match r {
                Some(v) => fingerprint_entries(*self).contains_key(key) && fingerprint_entries(
                    *self,
                )[key] == v,
                None => !fingerprint_entries(*self).contains_key(key),
            },
    {
        self.table.get(&key).copied()
    }

    /// Relies on hashbrown's `HashMap::contains_key`.
    #[verifier::external_body]
    pub fn contains_key(&self, key: u64) -> (r: bool)
        ensures
            r == fingerprint_entries(*self).contains_key(key),
    {
        self.table.contains_key(&key)
    }

    /// Relies on hashbrown's `HashMap::insert`: the key now maps to the
    /// value, every other entry stays.
    #[verifier::external_body]
    pub fn insert(&mut self, key: u64, value: i16)
        ensures
            fingerprint_entries(*final(self)) == fingerprint_entries(*old(self)).insert(
                key,
                value,
            ),
    {
        self.table.insert(key, value);
    }
}

/// Every recorded remaining distance lies between zero and the longest path
/// the move packing can carry.
pub open spec fn entries_ok(m: Map<u64, i16>) -> bool {
    forall|k: u64| #[trigger] m.contains_key(k) ==> 0 <= m[k] <= 31
}

/// The invariant of the solution cache.
pub open spec fn cache_ok(c: DistanceCache) -> bool {
    entries_ok(fingerprint_entries(c))
}

} // verus!
