//! The entity registry: hands out entity handles and tracks where each entity is stored.

use vstd::prelude::*;

use crate::handle::{EntityGeneration, EntityHandle, EntityIndex};
use crate::table::TableRow;

verus! {

/// Marks a free slot in the sparse array.
pub const TOMBSTONE: u32 = 0xFFFF_FFFFu32;

/// Where an entity lives: its handle, the table that stores it (by index) and its row there.
#[derive(Debug, Clone, PartialEq, Eq, Structural)]
pub struct Entity {
    pub handle: EntityHandle,
    pub table: Option<usize>,
    pub row: TableRow,
}

/// The registry of entities.
///
/// `generations[i]` is the current generation of index `i`; `freelist` holds indices that can be
/// handed out again; `dense` holds the spawned entities and `sparse` maps an index to its slot
/// in `dense` (or `TOMBSTONE`).
#[derive(Debug, Clone)]
pub struct Entities {
    next_id: u32,
    freelist: Vec<u32>,
    generations: Vec<u32>,
    dense: Vec<Entity>,
    sparse: Vec<u32>,
}

/// What `allocate` does: a freed index is reused with its generation bumped, otherwise the next
/// fresh index is taken with generation 0.
pub open spec fn allocated(before: Entities, after: Entities, handle: EntityHandle) -> bool {
    &&& after.wf()
    &&& after.dense() == before.dense()
    &&& after.sparse() == before.sparse()
    &&& before.freelist().len() > 0 ==> {
        let id = before.freelist().last();
        &&& handle.spec_index() == id
        &&& handle.spec_generation() == before.generations()[id as int] + 1
        &&& after.freelist() == before.freelist().drop_last()
        &&& after.generations() == before.generations().update(id as int, handle.spec_generation())
        &&& after.next_id() == before.next_id()
    }
    &&& before.freelist().len() == 0 ==> {
        &&& handle.spec_index() == before.next_id()
        &&& handle.spec_generation() == 0
        &&& after.freelist() == before.freelist()
        &&& after.generations() == before.generations().push(0)
        &&& after.next_id() == before.next_id() + 1
    }
}

/// What `spawn` does: the entity is appended to the dense array and its index is pointed at it,
/// growing the sparse array with empty slots where needed.
pub open spec fn spawned(before: Entities, after: Entities, meta: Entity) -> bool {
    &&& after.next_id() == before.next_id()
    &&& after.freelist() == before.freelist()
    &&& after.generations() == before.generations()
    &&& after.dense() == before.dense().push(meta)
    &&& after.sparse().len() == if meta.handle.spec_index() < before.sparse().len() {
        before.sparse().len() as int
    } else {
        meta.handle.spec_index() + 1
    }
    &&& forall|i: int|
        0 <= i < after.sparse().len() ==> #[trigger] after.sparse()[i] == if i
            == meta.handle.spec_index() {
            before.dense().len() as u32
        } else if i < before.sparse().len() {
            before.sparse()[i]
        } else {
            TOMBSTONE
        }
}

/// What `despawn` does: nothing for a stale handle; otherwise the entity at dense position
/// `index` is swapped out, the moved entity's slot is set to `index`, the handle's slot is
/// cleared and its index goes onto the freelist.
pub open spec fn despawned(before: Entities, after: Entities, entity: EntityHandle) -> bool {
    &&& after.wf()
    &&& after.next_id() == before.next_id()
    &&& after.generations() == before.generations()
    &&& before.generations()[entity.spec_index() as int] != entity.spec_generation() ==> {
        &&& after.dense() == before.dense()
        &&& after.sparse() == before.sparse()
        &&& after.freelist() == before.freelist()
    }
    &&& before.generations()[entity.spec_index() as int] == entity.spec_generation() ==> {
        let id = entity.spec_index() as int;
        let moved = before.dense().last().handle.spec_index() as int;
        &&& after.dense() == before.dense().update(id, before.dense().last()).drop_last()
        &&& after.sparse() == before.sparse().update(moved, id as u32).update(id, TOMBSTONE)
        &&& after.freelist() == before.freelist().push(id as u32)
    }
}

/// A handle that was just allocated and then spawned is alive.
pub proof fn lemma_spawned_is_alive(
    e0: Entities,
    e1: Entities,
    e2: Entities,
    handle: EntityHandle,
    meta: Entity,
)
    requires
        e0.wf(),
        allocated(e0, e1, handle),
        spawned(e1, e2, meta),
        meta.handle == handle,
        e1.dense().len() + 1 < TOMBSTONE,
    ensures
        e2.spec_is_alive(handle),
{
    let i = handle.spec_index() as int;
    assert(e2.sparse()[i] == e1.dense().len() as u32);
}

/// Spawning adds one live entity and despawning a live handle removes one: the count of live
/// entities is the number spawned minus the number despawned.
pub proof fn lemma_alive_count_changes(
    e0: Entities,
    e1: Entities,
    e2: Entities,
    meta: Entity,
    handle: EntityHandle,
)
    requires
        spawned(e0, e1, meta),
        despawned(e1, e2, handle),
        handle.spec_index() < e1.generations().len(),
        e1.generations()[handle.spec_index() as int] == handle.spec_generation(),
        handle.spec_index() < e1.dense().len(),
    ensures
        e1.dense().len() == e0.dense().len() + 1,
        e2.dense().len() == e1.dense().len() - 1,
{
}

/// A despawned handle is no longer alive.
pub proof fn lemma_despawned_is_dead(e0: Entities, e1: Entities, handle: EntityHandle)
    requires
        despawned(e0, e1, handle),
        handle.spec_index() < e0.generations().len(),
        e0.generations()[handle.spec_index() as int] == handle.spec_generation(),
        handle.spec_index() < e0.sparse().len(),
        e0.dense().len() > 0,
        e0.dense().last().handle.spec_index() < e0.sparse().len(),
    ensures
        !e1.spec_is_alive(handle),
{
    let id = handle.spec_index() as int;
    let moved = e0.dense().last().handle.spec_index() as int;
    assert(e1.sparse() == e0.sparse().update(moved, id as u32).update(id, TOMBSTONE));
    assert(e1.sparse()[id] == TOMBSTONE);
}

/// The index of a despawned handle is the next one handed out, with a newer generation; the old
/// handle then no longer equals any live handle of that index.
pub proof fn lemma_reuse_bumps_generation(
    e0: Entities,
    e1: Entities,
    e2: Entities,
    old_handle: EntityHandle,
    new_handle: EntityHandle,
)
    requires
        e0.wf(),
        old_handle.spec_index() < e0.generations().len(),
        e0.generations()[old_handle.spec_index() as int] == old_handle.spec_generation(),
        despawned(e0, e1, old_handle),
        allocated(e1, e2, new_handle),
    ensures
        new_handle.spec_index() == old_handle.spec_index(),
        new_handle.spec_generation() == old_handle.spec_generation() + 1,
        new_handle != old_handle,
        e2.generations()[old_handle.spec_index() as int] != old_handle.spec_generation(),
{
    crate::handle::lemma_bits_injective(new_handle, old_handle);
}

impl Entities {
    /// The next fresh index.
    pub closed spec fn next_id(&self) -> u32 {
        self.next_id
    }

    /// The indices waiting to be reused, the last one first.
    pub closed spec fn freelist(&self) -> Seq<u32> {
        self.freelist@
    }

    /// The current generation of every index handed out so far.
    pub closed spec fn generations(&self) -> Seq<u32> {
        self.generations@
    }

    /// The spawned entities, in storage order.
    pub closed spec fn dense(&self) -> Seq<Entity> {
        self.dense@
    }

    /// The slot in `dense` of every index, or `TOMBSTONE`.
    pub closed spec fn sparse(&self) -> Seq<u32> {
        self.sparse@
    }

    /// Every index handed out has a generation, and only such indices are reused.
    pub closed spec fn wf(&self) -> bool {
        &&& self.generations@.len() == self.next_id
        &&& forall|j: int| 0 <= j < self.freelist@.len() ==> #[trigger] self.freelist@[j] < self.next_id
    }

    /// Whether the handle is alive: its index has a slot and its generation is current.
    pub open spec fn spec_is_alive(&self, entity: EntityHandle) -> bool {
        &&& self.sparse()[entity.spec_index() as int] != TOMBSTONE
        &&& self.generations()[entity.spec_index() as int] == entity.spec_generation()
    }

    /// Creates an empty registry.
    pub fn new() -> (r: Entities)
        ensures
            r.wf(),
            r.next_id() == 0,
            r.freelist().len() == 0,
            r.generations().len() == 0,
            r.dense().len() == 0,
            r.sparse().len() == 0,
    {
        Entities {
            next_id: 0,
            freelist: Vec::new(),
            generations: Vec::new(),
            dense: Vec::new(),
            sparse: Vec::new(),
        }
    }

    /// Allocates an entity handle but does not insert it into the registry yet.
    ///
    /// A freed index is reused with its generation bumped; otherwise a fresh index is taken.
    pub fn allocate(&mut self) -> (handle: EntityHandle)
        requires
            old(self).wf(),
            old(self).freelist().len() > 0 ==> old(self).generations()[old(self).freelist().last() as int]
                < u32::MAX,
            old(self).freelist().len() == 0 ==> old(self).next_id() < u32::MAX,
        ensures
            final(self).wf(),
            final(self).dense() == old(self).dense(),
            final(self).sparse() == old(self).sparse(),
            allocated(*old(self), *final(self), handle),
            handle.spec_index() < u32::MAX,
    {
        let popped = self.freelist.pop();
        match popped {
            Some(id) => {
                let generation = self.generations[id as usize] + 1;
                self.generations[id as usize] = generation;
                EntityHandle::from_index_and_generation(
                    EntityIndex::from_bits(id),
                    EntityGeneration::from_bits(generation),
                )
            },
            None => {
                let id = self.next_id;
                self.next_id = self.next_id + 1;
                self.generations.push(0);
                EntityHandle::from_index_and_generation(
                    EntityIndex::from_bits(id),
                    EntityGeneration::first(),
                )
            },
        }
    }

    /// Inserts the given entity metadata into the registry.
    pub fn spawn(&mut self, meta: Entity)
        requires
            old(self).wf(),
            old(self).dense().len() + 1 < u32::MAX,
            meta.handle.spec_index() + 1 <= usize::MAX,
        ensures
            final(self).wf(),
            spawned(*old(self), *final(self), meta),
    {
        let index = meta.handle.index().to_bits() as usize;
        self.dense.push(meta);
        let ghost sparse0 = self.sparse@;
        if index >= self.sparse.len() {
            self.sparse.resize(index + 1, TOMBSTONE);
        }
        let ghost sparse1 = self.sparse@;
        proof {
            assert forall|i: int| 0 <= i < sparse1.len() implies #[trigger] sparse1[i] == if i
                < sparse0.len() {
                sparse0[i]
            } else {
                TOMBSTONE
            } by {
                if i < sparse0.len() && index >= sparse0.len() {
                    assert(sparse1.subrange(0, sparse0.len() as int)[i] == sparse1[i]);
                }
            }
        }
        let slot = (self.dense.len() - 1) as u32;
        self.sparse[index] = slot;
    }

    /// Despawns the entity with the given handle. A handle whose generation is not the current
    /// one of its index is ignored.
    ///
    /// The entity at position `index` of `dense` is removed (the last one takes its place), the
    /// slot of the entity that moved is set to `index`, the handle's own slot is cleared and its
    /// index goes onto the freelist.
    pub fn despawn(&mut self, entity: EntityHandle)
        requires
            old(self).wf(),
            entity.spec_index() < old(self).generations().len(),
            old(self).generations()[entity.spec_index() as int] == entity.spec_generation() ==> {
                &&& entity.spec_index() + 1 < old(self).dense().len()
                &&& entity.spec_index() < old(self).sparse().len()
                &&& old(self).dense().last().handle.spec_index() < old(self).sparse().len()
            },
        ensures
            final(self).wf(),
            despawned(*old(self), *final(self), entity),
    {
        let id = entity.index().to_bits();
        let generation = entity.generation().to_bits();
        if self.generations[id as usize] != generation {
            return;
        }
        self.dense.swap_remove(id as usize);
        let swapped_index = self.dense[id as usize].handle.index().to_bits();
        self.sparse[swapped_index as usize] = id;
        self.sparse[id as usize] = TOMBSTONE;
        self.freelist.push(id);
    }

    /// The number of entities alive: those spawned and not despawned since, one entry each in
    /// the dense array.
    pub fn alive_count(&self) -> (r: usize)
        ensures
            r == self.dense().len(),
    {
        self.dense.len()
    }

    /// Whether the handle refers to a live entity.
    pub fn is_alive(&self, entity: EntityHandle) -> (r: bool)
        requires
            entity.spec_index() < self.sparse().len(),
            self.sparse()[entity.spec_index() as int] != TOMBSTONE ==> entity.spec_index()
                < self.generations().len(),
        ensures
            r == self.spec_is_alive(entity),
    {
        let id = entity.index().to_bits();
        let generation = entity.generation().to_bits();
        self.sparse[id as usize] != TOMBSTONE && self.generations[id as usize] == generation
    }
}

} // verus!
