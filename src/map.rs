use vstd::prelude::*;

verus! {

/// The first id of the range that the server allocates; the client allocates below it.
pub const SERVER_ID_LIMIT: u32 = 0xFF00_0000;

/// Which endpoint of the connection a map belongs to.
#[derive(Clone, Copy, PartialEq, Eq, Structural, Debug)]
pub enum Role {
    Client,
    Server,
}

/// What the map knows of one protocol object.
///
/// `interface` names the object's interface in the caller's table of interfaces,
/// `queue` the event queue it is bound to.
#[derive(Clone, Copy, PartialEq, Eq, Structural, Debug)]
pub struct Object {
    pub interface: u32,
    pub version: u32,
    pub queue: u32,
    pub alive: bool,
}

/// Why a map operation failed.
#[derive(Clone, Copy, PartialEq, Eq, Structural, Debug)]
pub enum MapError {
    /// The id is not in the range that the operation works on.
    OutOfRange,
    /// A live object already holds the id.
    IdInUse,
    /// Every id of the range is taken.
    IdsExhausted,
}

/// Whether `id` lies in the range that the client allocates.
pub open spec fn in_client_range(id: u32) -> bool {
    1 <= id < SERVER_ID_LIMIT
}

/// Whether `id` lies in the range that the endpoint of `role` allocates itself.
pub open spec fn in_local_range(role: Role, id: u32) -> bool {
    match role {
        Role::Client => in_client_range(id),
        Role::Server => id >= SERVER_ID_LIMIT,
    }
}

/// Whether `id` lies in the range that the peer of an endpoint of `role` allocates.
pub open spec fn in_peer_range(role: Role, id: u32) -> bool {
    match role {
        Role::Client => id >= SERVER_ID_LIMIT,
        Role::Server => in_client_range(id),
    }
}

/// Whether `id` is what an allocation in `m` hands out: the lowest free id of the
/// endpoint's own range.
pub open spec fn allocates(m: Map<u32, Object>, role: Role, id: u32) -> bool {
    &&& in_local_range(role, id)
    &&& !m.contains_key(id)
    &&& forall|j: u32| #![trigger m.contains_key(j)] in_local_range(role, j) && j < id ==> m.contains_key(j)
}

/// The object held under `id`, if it is alive.
pub open spec fn live(m: Map<u32, Object>, id: u32) -> Option<Object> {
    if m.contains_key(id) && m[id].alive {
        Some(m[id])
    } else {
        None
    }
}

/// The objects of one id range, held by their offset from the range's first id.
struct Slots {
    base: u32,
    count: usize,
    slots: Vec<Option<Object>>,
}

impl Slots {
    spec fn wf(&self) -> bool {
        &&& self.slots@.len() <= self.count
        &&& self.base + self.count <= 0x1_0000_0000
    }

    spec fn has(&self, id: u32) -> bool {
        self.base <= id < self.base + self.slots@.len() && self.slots@[id - self.base] is Some
    }

    spec fn at(&self, id: u32) -> Object {
        self.slots@[id - self.base]->Some_0
    }

    fn get(&self, id: u32) -> (r: Option<Object>)
        requires
            self.wf(),
        ensures
            r == (if self.has(id) {
                Some(self.at(id))
            } else {
                None
            }),
    {
        if id < self.base || (id - self.base) as usize >= self.slots.len() {
            None
        } else {
            self.slots[(id - self.base) as usize]
        }
    }

    fn set(&mut self, id: u32, v: Option<Object>)
        requires
            old(self).wf(),
            old(self).base <= id,
            (id - old(self).base) < old(self).count,
        ensures
            final(self).wf(),
            final(self).base == old(self).base,
            final(self).count == old(self).count,
            forall|j: u32| j != id ==> (#[trigger] final(self).has(j)) == old(self).has(j),
            forall|j: u32| j != id && old(self).has(j) ==> #[trigger] final(self).at(j) == old(self).at(j),
            final(self).has(id) == v is Some,
            v matches Some(o) ==> final(self).at(id) == o,
    {
        let idx = (id - self.base) as usize;
        while self.slots.len() <= idx
            invariant
                self.wf(),
                self.base == old(self).base,
                self.count == old(self).count,
                idx < self.count,
                idx == id - self.base,
                old(self).slots@.len() <= self.slots@.len(),
                forall|i: int| 0 <= i < old(self).slots@.len() ==> self.slots@[i] == old(self).slots@[i],
                forall|i: int| old(self).slots@.len() <= i < self.slots@.len() ==> self.slots@[i] is None,
            decreases idx + 1 - self.slots.len(),
        {
            self.slots.push(None);
        }
        self.slots.set(idx, v);
        assert forall|j: u32| j != id implies (#[trigger] self.has(j)) == old(self).has(j) by {
            if self.base <= j < self.base + self.slots@.len() {
                assert(self.slots@[j - self.base] == if j - self.base < old(self).slots@.len() {
                    old(self).slots@[j - self.base]
                } else {
                    None
                });
            }
        }
    }

    /// The lowest free id of the range, or `None` where all are taken.
    fn lowest_free(&self) -> (r: Option<u32>)
        requires
            self.wf(),
        ensures
            r matches Some(id) ==> self.base <= id && id - self.base < self.count && !self.has(id)
                && forall|j: u32| self.base <= j < id ==> #[trigger] self.has(j),
            r is None ==> forall|j: u32| self.base <= j < self.base + self.count ==> #[trigger] self.has(j),
    {
        let mut i: usize = 0;
        while i < self.slots.len()
            invariant
                self.wf(),
                i <= self.slots@.len(),
                forall|k: int| 0 <= k < i ==> self.slots@[k] is Some,
            decreases self.slots.len() - i,
        {
            if self.slots[i].is_none() {
                let id = self.base + i as u32;
                assert forall|j: u32| self.base <= j < id implies #[trigger] self.has(j) by {
                    assert(self.slots@[j - self.base] is Some);
                }
                return Some(id);
            }
            i = i + 1;
        }
        if i < self.count {
            let id = self.base + i as u32;
            assert forall|j: u32| self.base <= j < id implies #[trigger] self.has(j) by {
                assert(self.slots@[j - self.base] is Some);
            }
            Some(id)
        } else {
            assert forall|j: u32| self.base <= j < self.base + self.count implies #[trigger] self.has(j) by {
                assert(self.slots@[j - self.base] is Some);
            }
            None
        }
    }
}

/// The registry of the protocol objects of one connection, by id.
///
/// Ids below `SERVER_ID_LIMIT` (but 0, which is never an object) are allocated
/// by the client, the others by the server.
pub struct ObjectMap {
    role: Role,
    client: Slots,
    server: Slots,
}

impl View for ObjectMap {
    type V = Map<u32, Object>;

    closed spec fn view(&self) -> Map<u32, Object> {
        Map::new(
            |id: u32| self.holds(id),
            |id: u32| self.object(id),
        )
    }
}

impl ObjectMap {
    spec fn holds(&self, id: u32) -> bool {
        if id < SERVER_ID_LIMIT {
            self.client.has(id)
        } else {
            self.server.has(id)
        }
    }

    spec fn object(&self, id: u32) -> Object {
        if id < SERVER_ID_LIMIT {
            self.client.at(id)
        } else {
            self.server.at(id)
        }
    }

    /// The map is well formed.
    pub closed spec fn wf(&self) -> bool {
        &&& self.client.wf()
        &&& self.server.wf()
        &&& self.client.base == 1
        &&& self.client.count == SERVER_ID_LIMIT - 1
        &&& self.server.base == SERVER_ID_LIMIT
        &&& self.server.count == 0x1_0000_0000 - SERVER_ID_LIMIT
    }

    /// The endpoint that this map belongs to.
    pub closed spec fn role(&self) -> Role {
        self.role
    }

    /// An empty map for the endpoint of `role`.
    pub fn new(role: Role) -> (r: ObjectMap)
        ensures
            r.wf(),
            r.role() == role,
            r@ == Map::<u32, Object>::empty(),
    {
        let r = ObjectMap {
            role,
            client: Slots { base: 1, count: (SERVER_ID_LIMIT - 1) as usize, slots: Vec::new() },
            server: Slots {
                base: SERVER_ID_LIMIT,
                count: (0xFFFF_FFFFu32 - SERVER_ID_LIMIT) as usize + 1,
                slots: Vec::new(),
            },
        };
        assert(r@ =~= Map::<u32, Object>::empty());
        r
    }

    /// The object under `id`, alive or not.
    pub fn find(&self, id: u32) -> (r: Option<Object>)
        requires
            self.wf(),
        ensures
            r == (if self@.contains_key(id) {
                Some(self@[id])
            } else {
                None
            }),
    {
        if id < SERVER_ID_LIMIT {
            self.client.get(id)
        } else {
            self.server.get(id)
        }
    }

    /// The object under `id`, if there is one and it is alive.
    pub fn lookup(&self, id: u32) -> (r: Option<Object>)
        requires
            self.wf(),
        ensures
            r == live(self@, id),
    {
        match self.find(id) {
            Some(o) => if o.alive {
                Some(o)
            } else {
                None
            },
            None => None,
        }
    }

    fn put(&mut self, id: u32, v: Option<Object>)
        requires
            old(self).wf(),
            id != 0,
        ensures
            final(self).wf(),
            final(self).role() == old(self).role(),
            final(self)@ == (match v {
                Some(o) => old(self)@.insert(id, o),
                None => old(self)@.remove(id),
            }),
    {
        if id < SERVER_ID_LIMIT {
            self.client.set(id, v);
        } else {
            self.server.set(id, v);
        }
        match v {
            Some(o) => {
                assert(self@ =~= old(self)@.insert(id, o));
            },
            None => {
                assert(self@ =~= old(self)@.remove(id));
            },
        }
    }

    /// Registers `obj` under the lowest free id of this endpoint's own range.
    pub fn allocate_local_id(&mut self, obj: Object) -> (r: Result<u32, MapError>)
        requires
            old(self).wf(),
        ensures
            final(self).wf(),
            final(self).role() == old(self).role(),
            r matches Ok(id) ==> allocates(old(self)@, old(self).role(), id) && final(self)@ == old(
                self,
            )@.insert(id, obj),
            r is Err ==> r == Err::<u32, MapError>(MapError::IdsExhausted) && final(self)@ == old(
                self,
            )@ && forall|j: u32|
                #![trigger old(self)@.contains_key(j)]
                in_local_range(old(self).role(), j) ==> old(self)@.contains_key(j),
    {
        let free = match self.role {
            Role::Client => self.client.lowest_free(),
            Role::Server => self.server.lowest_free(),
        };
        match free {
            Some(id) => {
                proof {
                    assert forall|j: u32| #![trigger self@.contains_key(j)]
                        in_local_range(self.role(), j) && j < id implies self@.contains_key(j) by {
                        assert(self.holds(j));
                    }
                }
                self.put(id, Some(obj));
                Ok(id)
            },
            None => {
                proof {
                    assert forall|j: u32| #![trigger self@.contains_key(j)]
                        in_local_range(self.role(), j) implies self@.contains_key(j) by {
                        assert(self.holds(j));
                    }
                }
                Err(MapError::IdsExhausted)
            },
        }
    }

    /// Registers `obj` under an id that the peer introduced.
    ///
    /// Fails where the id is not in the peer's range, or where a live object
    /// holds it; a dead one is replaced.
    pub fn allocate_peer_id(&mut self, id: u32, obj: Object) -> (r: Result<(), MapError>)
        requires
            old(self).wf(),
        ensures
            final(self).wf(),
            final(self).role() == old(self).role(),
            !in_peer_range(old(self).role(), id) ==> r == Err::<(), MapError>(MapError::OutOfRange)
                && final(self)@ == old(self)@,
            in_peer_range(old(self).role(), id) && live(old(self)@, id) is Some ==> r == Err::<
                (),
                MapError,
            >(MapError::IdInUse) && final(self)@ == old(self)@,
            in_peer_range(old(self).role(), id) && live(old(self)@, id) is None ==> r is Ok
                && final(self)@ == old(self)@.insert(id, obj),
    {
        let in_range = match self.role {
            Role::Client => id >= SERVER_ID_LIMIT,
            Role::Server => 1 <= id && id < SERVER_ID_LIMIT,
        };
        if !in_range {
            return Err(MapError::OutOfRange);
        }
        if self.lookup(id).is_some() {
            return Err(MapError::IdInUse);
        }
        self.put(id, Some(obj));
        Ok(())
    }

    /// Marks the object under `id` dead; it stays in the map until removed.
    pub fn mark_dead(&mut self, id: u32)
        requires
            old(self).wf(),
        ensures
            final(self).wf(),
            final(self).role() == old(self).role(),
            final(self)@ == (if old(self)@.contains_key(id) {
                old(self)@.insert(id, Object { alive: false, ..old(self)@[id] })
            } else {
                old(self)@
            }),
    {
        match self.find(id) {
            Some(o) => {
                self.put(id, Some(Object { alive: false, ..o }));
            },
            None => {},
        }
    }

    /// Removes the object under `id` if it has been marked dead, which frees the id.
    /// Returns whether it did.
    pub fn remove(&mut self, id: u32) -> (r: bool)
        requires
            old(self).wf(),
        ensures
            final(self).wf(),
            final(self).role() == old(self).role(),
            r == (old(self)@.contains_key(id) && !old(self)@[id].alive),
            final(self)@ == (if r {
                old(self)@.remove(id)
            } else {
                old(self)@
            }),
    {
        match self.find(id) {
            Some(o) => {
                if o.alive {
                    false
                } else {
                    self.put(id, None);
                    true
                }
            },
            None => false,
        }
    }

    /// Rebinds the live object under `id` to another queue; returns whether there was one.
    pub fn set_queue(&mut self, id: u32, queue: u32) -> (r: bool)
        requires
            old(self).wf(),
        ensures
            final(self).wf(),
            final(self).role() == old(self).role(),
            r == live(old(self)@, id) is Some,
            final(self)@ == (if r {
                old(self)@.insert(id, Object { queue, ..old(self)@[id] })
            } else {
                old(self)@
            }),
    {
        match self.lookup(id) {
            Some(o) => {
                self.put(id, Some(Object { queue, ..o }));
                true
            },
            None => false,
        }
    }
}

/// Allocation is monotonic: of two allocations in a row, with nothing removed
/// between them, the second hands out a greater id, so no two live objects
/// share one.
pub proof fn lemma_allocation_monotonic(
    m: Map<u32, Object>,
    role: Role,
    a: u32,
    obj: Object,
    b: u32,
)
    requires
        allocates(m, role, a),
        allocates(m.insert(a, obj), role, b),
    ensures
        a < b,
{
    if b < a {
        assert(m.contains_key(b));
    }
    assert(m.insert(a, obj).contains_key(a));
}

/// Once an object is marked dead and removed, its id is not found, and where
/// every lower id of the range is taken, the next allocation hands it out again.
pub proof fn lemma_removed_id_reallocated(m: Map<u32, Object>, role: Role, id: u32)
    requires
        in_local_range(role, id),
        m.contains_key(id),
        forall|j: u32| #![trigger m.contains_key(j)] in_local_range(role, j) && j < id ==> m.contains_key(j),
    ensures
        ({
            let dead = m.insert(id, Object { alive: false, ..m[id] });
            &&& live(dead.remove(id), id) is None
            &&& !dead.remove(id).contains_key(id)
            &&& allocates(dead.remove(id), role, id)
        }),
{
    let dead = m.insert(id, Object { alive: false, ..m[id] });
    let after = dead.remove(id);
    assert forall|j: u32| #![trigger after.contains_key(j)] in_local_range(role, j) && j < id implies after.contains_key(j) by {
        assert(m.contains_key(j));
    }
}

} // verus!
