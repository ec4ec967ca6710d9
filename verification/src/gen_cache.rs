//! The content-addressed cache for derived sources, backed by dashmap's
//! concurrent map: generators store rendered module sources keyed by the
//! identity of the original source.

use vstd::prelude::*;

verus! {

#[verifier::external_type_specification]
#[verifier::external_body]
#[verifier::reject_recursive_types(K)]
#[verifier::reject_recursive_types(V)]
#[verifier::reject_recursive_types(S)]
pub struct ExDashMap<K, V, S>(dashmap::DashMap<K, V, S>);

/// The entries a derived-source cache holds: keys to source texts.
pub uninterp spec fn dash_map_entries(
    m: dashmap::DashMap<u64, String, std::collections::hash_map::RandomState>,
) -> Map<u64, Seq<char>>;

/// A cache of derived sources keyed by the identity of the original source
/// (lock-free concurrent map under the hood).
pub struct GenCache {
    inner: dashmap::DashMap<u64, String>,
}

impl View for GenCache {
    type V = Map<u64, Seq<char>>;

    /// The cached texts by key.
    closed spec fn view(&self) -> Map<u64, Seq<char>> {
        dash_map_entries(self.inner)
    }
}

impl GenCache {
    /// Relies on dashmap's `DashMap::new`: the fresh map is empty.
    #[verifier::external_body]
    fn new_inner() -> (r: GenCache)
        ensures
            forall|k: u64| !dash_map_entries(r.inner).dom().contains(k),
    {
        GenCache { inner: dashmap::DashMap::new() }
    }

    /// Relies on dashmap's `DashMap::insert`: the value is stored under the
    /// key, replacing any previous entry.
    #[verifier::external_body]
    fn insert_inner(&mut self, k: u64, v: String)
        ensures
            dash_map_entries(final(self).inner)
                == dash_map_entries(old(self).inner).insert(k, v@),
    {
        self.inner.insert(k, v);
    }

    /// Relies on dashmap's `DashMap::get`: the value stored under the key,
    /// if present (copied out of the guard).
    #[verifier::external_body]
    fn get_inner(&self, k: u64) -> (r: Option<String>)
        ensures
            match r {
                Some(v) => dash_map_entries(self.inner).dom().contains(k)
                    && v@ == dash_map_entries(self.inner)[k],
                None => !dash_map_entries(self.inner).dom().contains(k),
            },
    {
        self.inner.get(&k).map(|guard| guard.value().clone())
    }

    pub fn new() -> (r: GenCache)
        ensures
            forall|k: u64| !r@.dom().contains(k),
    {
        GenCache::new_inner()
    }

    /// Store a derived source under its key.
    pub fn put(&mut self, k: u64, v: String)
        ensures
            final(self)@ == old(self)@.insert(k, v@),
    {
        self.insert_inner(k, v);
    }

    /// The derived source cached under `k`, if any.
    pub fn get(&self, k: u64) -> (r: Option<String>)
        ensures
            match r {
                Some(v) => self@.dom().contains(k) && v@ == self@[k],
                None => !self@.dom().contains(k),
            },
    {
        self.get_inner(k)
    }
}

} // verus!
