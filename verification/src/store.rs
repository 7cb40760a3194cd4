//! The store: a dense arena of stream objects plus the mapping from protocol
//! stream identifier to arena key, with find-or-insert probing and a
//! whole-store sweep. Every identifier in the mapping refers to an occupied
//! arena slot, and no two identifiers share a slot.

use vstd::prelude::*;

use crate::arena::{slab_get, slab_get_mut, slab_insert, slab_new, slab_set, slab_view};
use crate::stream::{Key, Stream, StreamId};

verus! {

broadcast use vstd::std_specs::hash::group_hash_axioms;

/// Storage for streams: the arena and the identifier index. `order` records
/// each bound identifier once, so that sweeps can visit the identifier
/// mapping; it carries no meaning of its own.
pub struct Store {
    slab: slab::Slab<Stream>,
    ids: std::collections::HashMap<StreamId, usize>,
    order: Vec<StreamId>,
}

/// "Pointer" to an entry in the store: a resolved key. The store itself is
/// handed to each dereferencing operation, which keeps access exclusive
/// while still letting list algorithms pivot from one entry to a sibling.
pub struct Ptr {
    key: Key,
}

/// The result of probing the identifier mapping once: either the identifier
/// is already bound to an occupied slot, or the probe found it absent and
/// the binding may be completed without a second lookup.
pub enum Entry {
    Occupied(OccupiedEntry),
    Vacant(VacantEntry),
}

/// An existing binding found by `Store::find_entry`.
pub struct OccupiedEntry {
    key: Key,
}

/// An absent identifier found by `Store::find_entry`; `insert` completes the
/// binding.
pub struct VacantEntry {
    id: StreamId,
}

impl Store {
    /// The arena's contents: each occupied key, mapped to its stream.
    pub closed spec fn streams(self) -> Map<usize, Stream> {
        slab_view(self.slab)
    }

    /// The identifier index: each bound identifier, mapped to its arena key.
    pub closed spec fn ids(self) -> Map<StreamId, usize> {
        self.ids@
    }

    /// Whether some identifier is bound to arena key `k`.
    pub open spec fn has_binding(self, k: usize) -> bool {
        exists|id: StreamId| #[trigger] self.ids().dom().contains(id) && self.ids()[id] == k
    }

    /// The store's invariant: every bound identifier refers to an occupied
    /// arena slot, and no two identifiers share a slot.
    pub closed spec fn wf(self) -> bool {
        &&& forall|id: StreamId|
            self.ids@.dom().contains(id) ==> slab_view(self.slab).dom().contains(
                #[trigger] self.ids@[id],
            )
        &&& forall|a: StreamId, b: StreamId|
            self.ids@.dom().contains(a) && self.ids@.dom().contains(b) && #[trigger] self.ids@[a]
                == #[trigger] self.ids@[b] ==> a == b
        &&& self.order@.no_duplicates()
        &&& forall|id: StreamId|
            #[trigger] self.ids@.dom().contains(id) <==> #[trigger] self.order@.contains(id)
    }

    pub fn new() -> (r: Store)
        ensures
            r.wf(),
            r.streams() == Map::<usize, Stream>::empty(),
            r.ids() == Map::<StreamId, usize>::empty(),
    {
        let r = Store {
            slab: slab_new(),
            ids: std::collections::HashMap::new(),
            order: Vec::new(),
        };
        proof {
            assert(r.streams() =~= Map::<usize, Stream>::empty());
        }
        r
    }

    /// Produce a pointer over an existing key. No validity check happens
    /// here; dereferencing through a key that no slot holds is rejected at
    /// the dereference.
    pub fn resolve(&self, key: Key) -> (p: Ptr)
        ensures
            p@ == key,
    {
        Ptr { key }
    }

    /// O(1) lookup by identifier.
    pub fn find_mut(&mut self, id: &StreamId) -> (r: Option<Ptr>)
        requires
            old(self).wf(),
        ensures
            *final(self) == *old(self),
            match r {
                Some(p) => old(self).ids().dom().contains(*id) && p@.0 == old(self).ids()[*id],
                None => !old(self).ids().dom().contains(*id),
            },
    {
        match self.ids.get(id) {
            Some(key) => Some(Ptr { key: Key(*key) }),
            None => None,
        }
    }

    /// Insert a fresh stream and bind its identifier. Binding an identifier
    /// twice within one store is a bug in the enclosing connection logic
    /// (fatal in release terms), so the precondition excludes it.
    pub fn insert(&mut self, id: StreamId, val: Stream) -> (p: Ptr)
        requires
            old(self).wf(),
            !old(self).ids().dom().contains(id),
        ensures
            final(self).wf(),
            !old(self).streams().dom().contains(p@.0),
            (final(self).streams(), final(self).ids()) == insert_effect(
                old(self).streams(),
                old(self).ids(),
                id,
                p@.0,
                val,
            ),
    {
        let key = slab_insert(&mut self.slab, val);
        proof {
            assert forall|a: StreamId| old(self).ids@.dom().contains(a) implies old(
                self,
            ).ids@[a] != key by {
                assert(slab_view(old(self).slab).dom().contains(old(self).ids@[a]));
            }
            assert(!old(self).order@.contains(id));
        }
        let prev = self.ids.insert(id, key);
        assert(prev is None);
        self.order.push(id);
        proof {
            assert forall|i: StreamId| #[trigger] self.ids@.dom().contains(i) implies self.order@.contains(
                i,
            ) by {
                if i == id {
                    assert(self.order@[self.order@.len() - 1] == id);
                } else {
                    assert(old(self).order@.contains(i));
                    let j = choose|j: int|
                        0 <= j < old(self).order@.len() && old(self).order@[j] == i;
                    assert(self.order@[j] == i);
                }
            }
            assert forall|i: StreamId| #[trigger] self.order@.contains(i) implies self.ids@.dom().contains(
                i,
            ) by {
                let j = choose|j: int| 0 <= j < self.order@.len() && self.order@[j] == i;
                if j < old(self).order@.len() {
                    assert(old(self).order@[j] == i);
                    assert(old(self).order@.contains(i));
                }
            }
        }
        Ptr { key: Key(key) }
    }

    /// Probe the identifier mapping once, yielding either the existing
    /// binding or the insertion point for an absent identifier.
    pub fn find_entry(&mut self, id: StreamId) -> (e: Entry)
        requires
            old(self).wf(),
        ensures
            *final(self) == *old(self),
            match e {
                Entry::Occupied(o) => old(self).ids().dom().contains(id) && o@.0 == old(
                    self,
                ).ids()[id],
                Entry::Vacant(v) => !old(self).ids().dom().contains(id) && v@ == id,
            },
    {
        match self.ids.get(&id) {
            Some(key) => Entry::Occupied(OccupiedEntry { key: Key(*key) }),
            None => Entry::Vacant(VacantEntry { id }),
        }
    }

    /// Apply `f` to every stream reachable through the identifier mapping,
    /// each exactly once, in unspecified order. Arena slots without an
    /// identifier binding are not visited.
    pub fn for_each<F: Fn(Stream) -> Stream>(&mut self, f: F)
        requires
            old(self).wf(),
            forall|s: Stream| #[trigger] f.requires((s,)),
        ensures
            final(self).wf(),
            final(self).ids() == old(self).ids(),
            final(self).streams().dom() == old(self).streams().dom(),
            forall|id: StreamId|
                #[trigger] old(self).ids().dom().contains(id) ==> f.ensures(
                    (old(self).streams()[old(self).ids()[id]],),
                    final(self).streams()[old(self).ids()[id]],
                ),
            forall|k: usize|
                #[trigger] old(self).streams().dom().contains(k) && !old(self).has_binding(k)
                    ==> final(self).streams()[k] == old(self).streams()[k],
    {
        let n = self.order.len();
        let mut i: usize = 0;
        while i < n
            invariant
                old(self).wf(),
                forall|s: Stream| #[trigger] f.requires((s,)),
                self.ids@ == old(self).ids@,
                self.order@ == old(self).order@,
                n == self.order@.len(),
                0 <= i <= n,
                self.streams().dom() == old(self).streams().dom(),
                forall|j: int|
                    0 <= j < i ==> f.ensures(
                        (old(self).streams()[old(self).ids@[#[trigger] self.order@[j]]],),
                        self.streams()[old(self).ids@[self.order@[j]]],
                    ),
                forall|j: int|
                    i <= j < n ==> self.streams()[old(self).ids@[#[trigger] self.order@[j]]] == old(
                        self,
                    ).streams()[old(self).ids@[self.order@[j]]],
                forall|k: usize|
                    #[trigger] old(self).streams().dom().contains(k) && !old(self).has_binding(k)
                        ==> self.streams()[k] == old(self).streams()[k],
            decreases n - i,
        {
            let id = self.order[i];
            proof {
                assert(self.order@[i as int] == id);
                assert(old(self).order@.contains(id));
                assert(old(self).ids@.dom().contains(id));
            }
            let key: usize = match self.ids.get(&id) {
                Some(k) => *k,
                None => {
                    proof {
                        assert(false);
                    }
                    0
                },
            };
            let st = *slab_get(&self.slab, key);
            let new_st = f(st);
            proof {
                assert(old(self).ids@[id] == key);
                assert forall|j: int| i < j < n implies old(self).ids@[#[trigger] self.order@[j]]
                    != key by {
                    assert(old(self).order@.contains(self.order@[j]));
                    assert(old(self).ids@.dom().contains(self.order@[j]));
                    assert(self.order@[j] != id) by {
                        assert(old(self).order@.no_duplicates());
                        assert(old(self).order@[i as int] == id);
                        assert(old(self).order@[j] == self.order@[j]);
                    }
                }
                assert forall|k: usize|
                    old(self).streams().dom().contains(k) && !old(self).has_binding(
                        k,
                    ) implies k != key by {
                    assert(old(self).ids().dom().contains(id) && old(self).ids()[id] == key);
                }
            }
            slab_set(&mut self.slab, key, new_st);
            i = i + 1;
        }
        proof {
            assert forall|id: StreamId| #[trigger] old(self).ids().dom().contains(id) implies f.ensures(
                (old(self).streams()[old(self).ids()[id]],),
                self.streams()[old(self).ids()[id]],
            ) by {
                assert(old(self).order@.contains(id));
                let j = choose|j: int| 0 <= j < old(self).order@.len() && old(self).order@[j] == id;
                assert(self.order@[j] == id);
            }
        }
    }

    /// Direct read through a key, mirroring arena indexing: a key that no
    /// slot holds is a caller invariant violation and is excluded here.
    pub fn get(&self, key: Key) -> (r: &Stream)
        requires
            self.streams().dom().contains(key.0),
        ensures
            *r == self.streams()[key.0],
    {
        slab_get(&self.slab, key.0)
    }

    /// Direct overwrite through a key, mirroring mutable arena indexing.
    pub fn set(&mut self, key: Key, val: Stream)
        requires
            old(self).streams().dom().contains(key.0),
        ensures
            final(self).streams() == old(self).streams().insert(key.0, val),
            final(self).ids() == old(self).ids(),
            old(self).wf() ==> final(self).wf(),
    {
        slab_set(&mut self.slab, key.0, val);
    }

    /// Mutable borrow through a key, mirroring mutable arena indexing.
    pub fn get_mut<'a>(&'a mut self, key: Key) -> (r: &'a mut Stream)
        requires
            old(self).streams().dom().contains(key.0),
        ensures
            *r == old(self).streams()[key.0],
            final(self).streams() == old(self).streams().insert(key.0, *final(r)),
            final(self).ids() == old(self).ids(),
            old(self).wf() ==> final(self).wf(),
    {
        slab_get_mut(&mut self.slab, key.0)
    }
}

/// The store contents after a direct `Store::insert` binds `id` to the fresh
/// arena key `k`, which now holds `val`.
pub open spec fn insert_effect(
    streams: Map<usize, Stream>,
    ids: Map<StreamId, usize>,
    id: StreamId,
    k: usize,
    val: Stream,
) -> (Map<usize, Stream>, Map<StreamId, usize>) {
    (streams.insert(k, val), ids.insert(id, k))
}

/// The store contents after `VacantEntry::insert` fills the probed slot: the
/// fresh arena key `k` holds `val` and `id` is bound to it.
pub open spec fn entry_insert_effect(
    streams: Map<usize, Stream>,
    ids: Map<StreamId, usize>,
    id: StreamId,
    k: usize,
    val: Stream,
) -> (Map<usize, Stream>, Map<StreamId, usize>) {
    (streams.insert(k, val), ids.insert(id, k))
}

/// Law: probing an absent identifier and inserting through the vacant view
/// leaves exactly the bindings that a direct insert leaves, for every store
/// contents, identifier, slot and stream.
pub proof fn lemma_entry_insert_equivalence(
    streams: Map<usize, Stream>,
    ids: Map<StreamId, usize>,
    id: StreamId,
    k: usize,
    val: Stream,
)
    ensures
        insert_effect(streams, ids, id, k, val) == entry_insert_effect(streams, ids, id, k, val),
{
}

impl View for Ptr {
    type V = Key;

    closed spec fn view(&self) -> Key {
        self.key
    }
}

impl Ptr {
    pub fn key(&self) -> (r: Key)
        ensures
            r == self@,
    {
        self.key
    }

    /// Pivot to a sibling entry of the same store.
    pub fn resolve(&self, key: Key) -> (p: Ptr)
        ensures
            p@ == key,
    {
        Ptr { key }
    }

    /// Dereference: read the referenced stream.
    pub fn get<'a>(&self, store: &'a Store) -> (r: &'a Stream)
        requires
            store.streams().dom().contains(self@.0),
        ensures
            *r == store.streams()[self@.0],
    {
        store.get(self.key)
    }

    /// Dereference mutably: a longer-lived exclusive borrow of just the
    /// referenced stream, once the ability to pivot is no longer needed.
    pub fn into_mut<'a>(self, store: &'a mut Store) -> (r: &'a mut Stream)
        requires
            old(store).streams().dom().contains(self@.0),
        ensures
            *r == old(store).streams()[self@.0],
            final(store).streams() == old(store).streams().insert(self@.0, *final(r)),
            final(store).ids() == old(store).ids(),
            old(store).wf() ==> final(store).wf(),
    {
        store.get_mut(self.key)
    }
}

impl View for OccupiedEntry {
    type V = Key;

    closed spec fn view(&self) -> Key {
        self.key
    }
}

impl OccupiedEntry {
    pub fn key(&self) -> (r: Key)
        ensures
            r == self@,
    {
        self.key
    }

    pub fn get<'a>(&self, store: &'a Store) -> (r: &'a Stream)
        requires
            store.streams().dom().contains(self@.0),
        ensures
            *r == store.streams()[self@.0],
    {
        store.get(self.key)
    }

    pub fn get_mut<'a>(&self, store: &'a mut Store) -> (r: &'a mut Stream)
        requires
            old(store).streams().dom().contains(self@.0),
        ensures
            *r == old(store).streams()[self@.0],
            final(store).streams() == old(store).streams().insert(self@.0, *final(r)),
            final(store).ids() == old(store).ids(),
            old(store).wf() ==> final(store).wf(),
    {
        store.get_mut(self.key)
    }

    pub fn into_mut<'a>(self, store: &'a mut Store) -> (r: &'a mut Stream)
        requires
            old(store).streams().dom().contains(self@.0),
        ensures
            *r == old(store).streams()[self@.0],
            final(store).streams() == old(store).streams().insert(self@.0, *final(r)),
            final(store).ids() == old(store).ids(),
            old(store).wf() ==> final(store).wf(),
    {
        store.get_mut(self.key)
    }
}

impl View for VacantEntry {
    type V = StreamId;

    closed spec fn view(&self) -> StreamId {
        self.id
    }
}

impl VacantEntry {
    /// Complete the binding found by the probe: insert the stream and bind
    /// the identifier in one step.
    pub fn insert(self, store: &mut Store, value: Stream) -> (key: Key)
        requires
            old(store).wf(),
            !old(store).ids().dom().contains(self@),
        ensures
            final(store).wf(),
            !old(store).streams().dom().contains(key.0),
            (final(store).streams(), final(store).ids()) == entry_insert_effect(
                old(store).streams(),
                old(store).ids(),
                self@,
                key.0,
                value,
            ),
    {
        let p = store.insert(self.id, value);
        p.key()
    }
}

} // verus!
