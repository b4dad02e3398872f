//! A concurrently shared, key-addressed store of service instances.
//!
//! A [`ServiceRegistry`] keeps at most one instance per capability key. The
//! store behind it is guarded by a reader/writer lock and shared: a
//! [`RegistryWriteHandle`] created from a registry aliases the same backing
//! store, so a write through any handle is visible through the registry and
//! every other handle as soon as the write returns.
use vstd::prelude::*;
use vstd::rwlock::RwLock;
use std::sync::Arc;

verus! {

/// An author-assigned identity for a service capability. Two keys are equal
/// exactly when their names are equal.
#[derive(Eq, Hash, Debug)]
pub struct TypeKey {
    name: String,
}

impl View for TypeKey {
    type V = Seq<char>;

    closed spec fn view(&self) -> Seq<char> {
        self.name@
    }
}

impl TypeKey {
    /// Creates the key with the given capability name.
    pub fn new(name: &str) -> (r: TypeKey)
        ensures
            r@ == name@,
    {
        TypeKey { name: name.to_owned() }
    }

    /// The capability name this key was created with.
    pub fn label(&self) -> (r: &str)
        ensures
            r@ == self@,
    {
        self.name.as_str()
    }
}

impl Clone for TypeKey {
    /// The clone carries the same name.
    fn clone(&self) -> (r: TypeKey)
        ensures
            r == *self,
    {
        TypeKey { name: self.name.clone() }
    }
}

impl PartialEq for TypeKey {
    fn eq(&self, other: &TypeKey) -> (r: bool) {
        self.name.eq(&other.name)
    }
}

impl vstd::std_specs::cmp::PartialEqSpecImpl for TypeKey {
    open spec fn obeys_eq_spec() -> bool {
        true
    }

    open spec fn eq_spec(&self, other: &TypeKey) -> bool {
        self@ == other@
    }
}

/// Relies on `Arc::clone`: the returned handle points at the same value.
#[verifier::external_body]
pub(crate) fn arc_clone<T>(a: &Arc<T>) -> (r: Arc<T>)
    ensures
        r == *a,
{
    Arc::clone(a)
}

/// The plain data behind a registry: service instances keyed by capability,
/// at most one per key.
pub struct ServiceStore<V> {
    entries: Vec<(TypeKey, V)>,
}

/// The map described by a list of keyed entries; later entries win.
pub open spec fn entries_map<V>(s: Seq<(TypeKey, V)>) -> Map<Seq<char>, V>
    decreases s.len(),
{
    if s.len() == 0 {
        Map::empty()
    } else {
        entries_map(s.drop_last()).insert(s.last().0@, s.last().1)
    }
}

impl<V> ServiceStore<V> {
    /// The keys of the entries, in insertion order.
    pub closed spec fn keys(self) -> Seq<Seq<char>> {
        self.entries@.map_values(|e: (TypeKey, V)| e.0@)
    }

    /// The store invariant: each capability key appears at most once.
    pub closed spec fn wf(self) -> bool {
        self.keys().no_duplicates()
    }

    /// The contents of the store as a map from capability name to instance.
    pub closed spec fn as_map(self) -> Map<Seq<char>, V> {
        entries_map(self.entries@)
    }

    /// Creates an empty store.
    pub fn new() -> (r: ServiceStore<V>)
        ensures
            r.wf(),
            r.as_map() == Map::<Seq<char>, V>::empty(),
    {
        let r = ServiceStore { entries: Vec::new() };
        proof {
            assert(r.keys() =~= Seq::<Seq<char>>::empty());
        }
        r
    }

    /// Stores an instance under a key, replacing any prior instance for the
    /// same key.
    pub fn insert(&mut self, key: &TypeKey, value: V)
        requires
            old(self).wf(),
        ensures
            final(self).wf(),
            final(self).as_map() == old(self).as_map().insert(key@, value),
    {
        let n = self.entries.len();
        for i in 0..n
            invariant
                self.wf(),
                *self == *old(self),
                n == self.entries@.len(),
                forall|m: int| 0 <= m < i ==> self.keys()[m] != key@,
        {
            if self.entries[i].0.eq(key) {
                let ghost pre = self.entries@;
                self.entries[i] = (key.clone(), value);
                proof {
                    assert(self.keys() =~= pre.map_values(|e: (TypeKey, V)| e.0@));
                    lemma_entries_map_update(pre, i as int, (self.entries@[i as int].0, value));
                }
                return ;
            }
        }
        let ghost pre = self.entries@;
        self.entries.push((key.clone(), value));
        proof {
            assert(self.keys() =~= pre.map_values(|e: (TypeKey, V)| e.0@).push(key@));
            assert(self.entries@.drop_last() =~= pre);
            assert forall|m: int| 0 <= m < pre.len() implies (#[trigger] pre[m]).0@ != key@ by {
                assert(pre.map_values(|e: (TypeKey, V)| e.0@)[m] == pre[m].0@);
            }
            lemma_entries_map_not_contained(pre, key@);
        }
    }

    /// Looks up the instance stored under a key.
    pub fn get(&self, key: &TypeKey) -> (r: Option<&V>)
        requires
            self.wf(),
        ensures
            match r {
                Some(v) => self.as_map().dom().contains(key@) && *v == self.as_map()[key@],
                None => !self.as_map().dom().contains(key@),
            },
    {
        let n = self.entries.len();
        for i in 0..n
            invariant
                self.wf(),
                n == self.entries@.len(),
                forall|m: int| 0 <= m < i ==> self.keys()[m] != key@,
        {
            if self.entries[i].0.eq(key) {
                proof {
                    lemma_entries_map_index(self.entries@, i as int);
                }
                return Some(&self.entries[i].1);
            }
        }
        proof {
            assert forall|m: int| 0 <= m < self.entries@.len() implies (
            #[trigger] self.entries@[m]).0@ != key@ by {
                assert(self.keys()[m] == self.entries@[m].0@);
            }
            lemma_entries_map_not_contained(self.entries@, key@);
        }
        None
    }

    /// Whether an instance is stored under a key.
    pub fn contains_key(&self, key: &TypeKey) -> (r: bool)
        requires
            self.wf(),
        ensures
            r == self.as_map().dom().contains(key@),
    {
        self.get(key).is_some()
    }

    /// Removes every entry.
    pub fn clear(&mut self)
        ensures
            final(self).wf(),
            final(self).as_map() == Map::<Seq<char>, V>::empty(),
    {
        self.entries.clear();
        proof {
            assert(self.keys() =~= Seq::<Seq<char>>::empty());
        }
    }
}

/// A key that is on no entry is not in the entries' map, and pushing an entry
/// with that key inserts it.
proof fn lemma_entries_map_not_contained<V>(s: Seq<(TypeKey, V)>, k: Seq<char>)
    requires
        forall|m: int| 0 <= m < s.len() ==> (#[trigger] s[m]).0@ != k,
    ensures
        !entries_map(s).dom().contains(k),
    decreases s.len(),
{
    if s.len() > 0 {
        lemma_entries_map_not_contained(s.drop_last(), k);
    }
}

/// With unique keys, the entry at `i` is what the entries' map stores for its
/// key.
proof fn lemma_entries_map_index<V>(s: Seq<(TypeKey, V)>, i: int)
    requires
        s.map_values(|e: (TypeKey, V)| e.0@).no_duplicates(),
        0 <= i < s.len(),
    ensures
        entries_map(s).dom().contains(s[i].0@),
        entries_map(s)[s[i].0@] == s[i].1,
    decreases s.len(),
{
    let keys = s.map_values(|e: (TypeKey, V)| e.0@);
    if i == s.len() - 1 {
    } else {
        assert(s.drop_last().map_values(|e: (TypeKey, V)| e.0@) =~= keys.drop_last());
        lemma_entries_map_index(s.drop_last(), i);
        assert(keys[i] != keys[s.len() - 1]);
    }
}

/// With unique keys, replacing the entry at `i` by one with an equal key
/// updates the entries' map at that key and nothing else.
proof fn lemma_entries_map_update<V>(s: Seq<(TypeKey, V)>, i: int, x: (TypeKey, V))
    requires
        s.map_values(|e: (TypeKey, V)| e.0@).no_duplicates(),
        0 <= i < s.len(),
        x.0@ == s[i].0@,
    ensures
        entries_map(s.update(i, x)) == entries_map(s).insert(x.0@, x.1),
    decreases s.len(),
{
    let keys = s.map_values(|e: (TypeKey, V)| e.0@);
    if i == s.len() - 1 {
        assert(s.update(i, x).drop_last() =~= s.drop_last());
        assert(s.update(i, x).last() == x);
        assert(entries_map(s.update(i, x)) =~= entries_map(s).insert(x.0@, x.1));
    } else {
        assert(s.update(i, x).drop_last() =~= s.drop_last().update(i, x));
        assert(s.drop_last().map_values(|e: (TypeKey, V)| e.0@) =~= keys.drop_last());
        lemma_entries_map_update(s.drop_last(), i, x);
        assert(s.update(i, x).last() == s.last());
        assert(keys[i] != keys[s.len() - 1]);
        assert(entries_map(s.update(i, x)) =~= entries_map(s).insert(x.0@, x.1));
    }
}

/// What a registry's lock protects: a well-formed store.
pub open spec fn store_inv<V>() -> spec_fn(ServiceStore<V>) -> bool {
    |s: ServiceStore<V>| s.wf()
}

/// A shared registry of service instances, at most one per capability key.
/// Every operation takes the internal lock; the stored data is a well-formed
/// [`ServiceStore`].
#[verifier::reject_recursive_types(V)]
pub struct ServiceRegistry<V> {
    store: Arc<RwLock<ServiceStore<V>, spec_fn(ServiceStore<V>) -> bool>>,
}

/// A write-capable view onto a registry's backing store. It shares the store
/// with the registry it was created from: a registration through the handle
/// is visible through the registry as soon as the call returns.
#[verifier::reject_recursive_types(V)]
pub struct RegistryWriteHandle<V> {
    store: Arc<RwLock<ServiceStore<V>, spec_fn(ServiceStore<V>) -> bool>>,
}

impl<V> ServiceRegistry<V> {
    /// The registry invariant: the lock protects store well-formedness.
    pub closed spec fn wf(self) -> bool {
        self.store.pred() == store_inv::<V>()
    }

    /// Creates an empty registry.
    pub fn new() -> (r: ServiceRegistry<V>)
        ensures
            r.wf(),
    {
        let store = ServiceStore::new();
        proof {
            assert(store_inv::<V>()(store));
        }
        ServiceRegistry { store: Arc::new(RwLock::new(store, Ghost(store_inv::<V>()))) }
    }

    /// Stores an instance under a key, replacing any prior instance for the
    /// same key.
    pub fn register(&self, key: &TypeKey, service: V)
        requires
            self.wf(),
    {
        let (mut store, handle) = self.store.acquire_write();
        proof {
            assert(store_inv::<V>()(store));
        }
        store.insert(key, service);
        proof {
            assert(store_inv::<V>()(store));
        }
        handle.release_write(store);
    }

    /// Returns a copy of the instance stored under a key, if any.
    pub fn get(&self, key: &TypeKey) -> (r: Option<V>) where V: Clone
        requires
            self.wf(),
    {
        let read_handle = self.store.acquire_read();
        proof {
            assert(store_inv::<V>()(read_handle.view()));
        }
        let r = match read_handle.borrow().get(key) {
            Some(v) => Some(v.clone()),
            None => None,
        };
        read_handle.release_read();
        r
    }

    /// Whether an instance is stored under a key.
    pub fn contains(&self, key: &TypeKey) -> (r: bool)
        requires
            self.wf(),
    {
        let read_handle = self.store.acquire_read();
        proof {
            assert(store_inv::<V>()(read_handle.view()));
        }
        let r = read_handle.borrow().contains_key(key);
        read_handle.release_read();
        r
    }

    /// Removes every registered instance.
    pub fn clear(&self)
        requires
            self.wf(),
    {
        let (mut store, handle) = self.store.acquire_write();
        store.clear();
        proof {
            assert(store_inv::<V>()(store));
        }
        handle.release_write(store);
    }

    /// Another view onto the same registry: the result shares this registry's
    /// backing store.
    pub fn share(&self) -> (r: ServiceRegistry<V>)
        ensures
            r == *self,
    {
        ServiceRegistry { store: arc_clone(&self.store) }
    }
}

impl<V> Default for ServiceRegistry<V> {
    /// The default registry is empty.
    fn default() -> (r: ServiceRegistry<V>)
        ensures
            r.wf(),
    {
        ServiceRegistry::new()
    }
}

impl<V> RegistryWriteHandle<V> {
    /// The handle invariant: the shared lock protects store well-formedness.
    pub closed spec fn wf(self) -> bool {
        self.store.pred() == store_inv::<V>()
    }

    /// Whether this handle holds the given registry's backing store — the
    /// very same lock, not a private copy — so a write through the handle is
    /// a write to the registry's store.
    pub closed spec fn shares_store_with(self, registry: ServiceRegistry<V>) -> bool {
        self.store == registry.store
    }

    /// Creates a handle that aliases the given registry's backing store.
    pub fn new(registry: &ServiceRegistry<V>) -> (r: RegistryWriteHandle<V>)
        requires
            registry.wf(),
        ensures
            r.wf(),
            r.shares_store_with(*registry),
    {
        RegistryWriteHandle { store: arc_clone(&registry.store_ref()) }
    }

    /// Stores an instance under a key through the shared store, replacing any
    /// prior instance for the same key.
    pub fn register(&self, key: &TypeKey, service: V)
        requires
            self.wf(),
    {
        let (mut store, handle) = self.store.acquire_write();
        proof {
            assert(store_inv::<V>()(store));
        }
        store.insert(key, service);
        proof {
            assert(store_inv::<V>()(store));
        }
        handle.release_write(store);
    }

    /// Returns a copy of the instance stored under a key, if any.
    pub fn get(&self, key: &TypeKey) -> (r: Option<V>) where V: Clone
        requires
            self.wf(),
    {
        let read_handle = self.store.acquire_read();
        proof {
            assert(store_inv::<V>()(read_handle.view()));
        }
        let r = match read_handle.borrow().get(key) {
            Some(v) => Some(v.clone()),
            None => None,
        };
        read_handle.release_read();
        r
    }

    /// Whether an instance is stored under a key.
    pub fn contains(&self, key: &TypeKey) -> (r: bool)
        requires
            self.wf(),
    {
        let read_handle = self.store.acquire_read();
        proof {
            assert(store_inv::<V>()(read_handle.view()));
        }
        let r = read_handle.borrow().contains_key(key);
        read_handle.release_read();
        r
    }
}

impl<V> ServiceRegistry<V> {
    /// The shared lock; used to create aliasing handles.
    fn store_ref(&self) -> (r: &Arc<RwLock<ServiceStore<V>, spec_fn(ServiceStore<V>) -> bool>>)
        ensures
            *r == self.store,
            self.wf() ==> r.pred() == store_inv::<V>(),
    {
        &self.store
    }
}

/// Registration is immediately visible to resolution: storing an instance for
/// a key and then looking that key up in the resulting store yields exactly
/// the stored instance, whichever view of the shared store performs each
/// step.
pub proof fn lemma_register_then_resolve<V>(m: Map<Seq<char>, V>, k: Seq<char>, v: V)
    ensures
        m.insert(k, v).dom().contains(k),
        m.insert(k, v)[k] == v,
{
}

} // verus!
