use vstd::prelude::*;

verus! {

/// The durable substrate: one managed memory split into two regions, region 0
/// holding the id counter and region 1 the ordered record map.  The map's
/// values are the serialized records produced by this crate's codec.
#[verifier::external_body]
pub struct StorageBackend {
    counter: ic_stable_structures::Cell<
        u64,
        ic_stable_structures::memory_manager::VirtualMemory<
            ic_stable_structures::DefaultMemoryImpl,
        >,
    >,
    map: ic_stable_structures::StableBTreeMap<
        u64,
        String,
        ic_stable_structures::memory_manager::VirtualMemory<
            ic_stable_structures::DefaultMemoryImpl,
        >,
    >,
}

/// What the backend's record map holds, as serialized text per id.
pub uninterp spec fn backend_records(b: StorageBackend) -> Map<u64, Seq<char>>;

/// The backend's persisted counter value.
pub uninterp spec fn backend_counter(b: StorageBackend) -> u64;

impl StorageBackend {
    /// Relies on MemoryManager::init, Cell::init and StableBTreeMap::init: on a
    /// fresh default (in-memory, always-growable) backing store the counter
    /// region decodes to the given default 0 and the map region to an empty map.
    ///
    /// Trusted assumption on durability: this contract describes the default
    /// backing memory of the build it is verified on, which starts empty, so
    /// every store opens fresh.  On a target whose default memory is a
    /// persistent medium, the same initializers instead reload the counter
    /// and map that this library last wrote there — the regions then hold a
    /// state some earlier sequence of these operations produced, not the
    /// fresh one this contract claims, and a caller on such a target must
    /// treat the reopened contents, not this ensures, as the store's state.
    #[verifier::external_body]
    pub(crate) fn new() -> (out: StorageBackend)
        ensures
            backend_counter(out) == 0,
            backend_records(out).dom() == Set::<u64>::empty(),
    {
        let mm = ic_stable_structures::memory_manager::MemoryManager::init(
            ic_stable_structures::DefaultMemoryImpl::default(),
        );
        StorageBackend {
            counter: ic_stable_structures::Cell::init(
                mm.get(ic_stable_structures::memory_manager::MemoryId::new(0)),
                0,
            ),
            map: ic_stable_structures::StableBTreeMap::init(
                mm.get(ic_stable_structures::memory_manager::MemoryId::new(1)),
            ),
        }
    }

    /// Relies on Cell::get: returns the current persisted counter value.
    #[verifier::external_body]
    pub(crate) fn counter_get(&self) -> (c: u64)
        ensures
            c == backend_counter(*self),
    {
        *self.counter.get()
    }

    /// Relies on Cell::set: durably replaces the counter value (a u64 always
    /// fits its region) and touches nothing else.
    #[verifier::external_body]
    pub(crate) fn counter_set(&mut self, v: u64)
        ensures
            backend_counter(*final(self)) == v,
            backend_records(*final(self)) == backend_records(*old(self)),
    {
        self.counter.set(v);
    }

    /// Relies on StableBTreeMap::insert: adds the entry or replaces the one
    /// with the same key, returning the previous value if any.  The node
    /// writer records a value's byte length in 32 bits without checking it
    /// for unbounded types, so only values within the store's schema bound
    /// are admitted here; their UTF-8 form stays far below that limit.
    #[verifier::external_body]
    pub(crate) fn map_insert(&mut self, id: u64, value: String) -> (prev: Option<String>)
        requires
            value@.len() <= crate::MAX_ENCODED_LEN,
        ensures
            backend_records(*final(self)) == backend_records(*old(self)).insert(id, value@),
            backend_counter(*final(self)) == backend_counter(*old(self)),
            prev is Some <==> backend_records(*old(self)).contains_key(id),
            prev matches Some(p) ==> p@ == backend_records(*old(self))[id],
    {
        self.map.insert(id, value)
    }

    /// Relies on StableBTreeMap::get: point lookup with no side effect.
    #[verifier::external_body]
    pub(crate) fn map_get(&self, id: u64) -> (r: Option<String>)
        ensures
            r is Some <==> backend_records(*self).contains_key(id),
            r matches Some(s) ==> s@ == backend_records(*self)[id],
    {
        self.map.get(&id)
    }

    /// Relies on StableBTreeMap::remove: deletes the entry if present and
    /// returns the removed value, leaving every other entry in place.
    #[verifier::external_body]
    pub(crate) fn map_remove(&mut self, id: u64) -> (r: Option<String>)
        ensures
            backend_records(*final(self)) == backend_records(*old(self)).remove(id),
            backend_counter(*final(self)) == backend_counter(*old(self)),
            r is Some <==> backend_records(*old(self)).contains_key(id),
            r matches Some(s) ==> s@ == backend_records(*old(self))[id],
    {
        self.map.remove(&id)
    }

    /// Relies on StableBTreeMap::len: the maintained count of live entries.
    #[verifier::external_body]
    pub(crate) fn map_len(&self) -> (n: u64)
        ensures
            n as nat == backend_records(*self).dom().len(),
    {
        self.map.len()
    }

    /// Relies on StableBTreeMap::iter: a full scan yielding every entry exactly
    /// once, in strictly ascending key order.
    #[verifier::external_body]
    pub(crate) fn map_entries(&self) -> (v: Vec<(u64, String)>)
        ensures
            v@.len() == backend_records(*self).dom().len(),
            forall|i: int|
                0 <= i < v@.len() ==> backend_records(*self).contains_key(v@[i].0) && v@[i].1@
                    == backend_records(*self)[v@[i].0],
            forall|i: int, j: int| 0 <= i < j < v@.len() ==> v@[i].0 < v@[j].0,
            forall|k: u64|
                backend_records(*self).contains_key(k) ==> exists|i: int|
                    0 <= i < v@.len() && v@[i].0 == k,
    {
        self.map.iter().map(|e| e.into_pair()).collect()
    }
}

} // verus!
