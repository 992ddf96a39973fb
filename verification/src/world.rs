//! The world: the archetype tables, the entity registry and the tick counter together.

use vstd::prelude::*;

use crate::archetype::{Archetypes, Signature};
use crate::entity::{allocated, lemma_spawned_is_alive, spawned, Entities, Entity, TOMBSTONE};
use crate::component::{assign_all, id_set, signature_lookup, ComponentBundle};
use crate::filter::registered_more;
use crate::handle::{EntityGeneration, EntityHandle, EntityIndex};
use crate::table::Column;

verus! {

/// The world: where entities live and where their components are stored.
pub struct World {
    pub(crate) archetypes: Archetypes,
    pub(crate) entities: Entities,
    pub(crate) current_tick: u32,
}

/// A shared view of a live entity.
pub struct EntityRef<'w> {
    pub(crate) handle: EntityHandle,
    pub(crate) world: &'w World,
}

impl<'w> EntityRef<'w> {
    /// The entity's handle.
    pub closed spec fn spec_handle(&self) -> EntityHandle {
        self.handle
    }

    /// The world the entity lives in.
    pub closed spec fn spec_world(&self) -> World {
        *self.world
    }

    /// The entity's handle.
    pub fn handle(&self) -> (r: EntityHandle)
        ensures
            r == self.spec_handle(),
    {
        self.handle
    }

    /// Whether the entity has all the components of `T`.
    pub fn has<T: ComponentBundle>(&self) -> (r: bool)
        requires
            self.spec_world().wf(),
        ensures
            exists|types: Seq<std::any::TypeId>, sig: Option<Signature>|
                {
                    &&& types.len() == T::count()
                    &&& T::type_ids_are(types)
                    &&& #[trigger] signature_lookup(self.spec_world().archs().reg().ids(), types, sig)
                    &&& r == (sig is Some && self.spec_world().archs().holds(sig->0, self.spec_handle()))
                },
    {
        self.world.has_components::<T>(self.handle)
    }
}

/// Exclusive access to the world through one of its entities.
pub struct EntityMut<'w> {
    pub(crate) world: &'w mut World,
    pub(crate) handle: EntityHandle,
}

impl<'w> EntityMut<'w> {
    /// The entity's handle.
    pub closed spec fn spec_handle(&self) -> EntityHandle {
        self.handle
    }

    /// The entity's handle.
    pub fn handle(&self) -> (r: EntityHandle)
        ensures
            r == self.spec_handle(),
    {
        self.handle
    }

    /// The index part of the entity's handle.
    pub fn index(&self) -> (r: EntityIndex)
        ensures
            r.0 == self.spec_handle().spec_index(),
    {
        self.handle.index()
    }

    /// The generation part of the entity's handle.
    pub fn generation(&self) -> (r: EntityGeneration)
        ensures
            r.0 == self.spec_handle().spec_generation(),
    {
        self.handle.generation()
    }
}

impl World {
    /// The archetype tables.
    pub closed spec fn archs(&self) -> Archetypes {
        self.archetypes
    }

    /// The entity registry.
    pub closed spec fn ents(&self) -> Entities {
        self.entities
    }

    /// The current tick.
    pub closed spec fn tick(&self) -> u32 {
        self.current_tick
    }

    /// The tables and the registry are well formed.
    pub open spec fn wf(&self) -> bool {
        self.archs().wf() && self.ents().wf()
    }

    /// Creates an empty world at tick 0.
    pub fn new() -> (r: World)
        ensures
            r.wf(),
            r.tick() == 0,
            r.archs().tables().len() == 0,
            r.ents().dense().len() == 0,
            r.ents().sparse().len() == 0,
            r.ents().generations().len() == 0,
    {
        World { archetypes: Archetypes::new(), entities: Entities::new(), current_tick: 0 }
    }

    /// Spawns an entity with the components `components` in the archetype `sig`: a handle is
    /// allocated, the components go into the archetype's table (made from `columns` if the
    /// archetype is new), and the entity is recorded with its table and row.
    ///
    /// The components must fit their table and the counters must have room.
    pub fn spawn(
        &mut self,
        sig: Signature,
        columns: Vec<Column>,
        components: &Vec<Vec<u8>>,
    ) -> (r: EntityHandle)
        requires
            old(self).wf(),
            (forall|i: int|
                0 <= i < old(self).archs().sigs().len() ==> (#[trigger] old(self).archs().sigs()[i]).words()
                    != sig.words()) ==> old(self).archs().gen() < u64::MAX,
            forall|i: int|
                0 <= i < old(self).archs().sigs().len() && (#[trigger] old(self).archs().sigs()[i]).words()
                    == sig.words() ==> old(self).archs().fits(i, components@)
                    && old(self).archs().tables()[i].entities().len() < usize::MAX,
            forall|k: int|
                0 <= k < columns@.len() ==> (#[trigger] columns@[k]).wf() && columns@[k]@.len()
                    == 0,
            components@.len() == columns@.len(),
            forall|k: int|
                0 <= k < columns@.len() ==> columns@[k].can_push(#[trigger] components@[k]@),
            old(self).ents().freelist().len() > 0 ==> old(self).ents().generations()[old(
                self,
            ).ents().freelist().last() as int] < u32::MAX,
            old(self).ents().freelist().len() == 0 ==> old(self).ents().next_id() < u32::MAX,
            old(self).ents().dense().len() + 2 < TOMBSTONE,
        ensures
            final(self).wf(),
            final(self).tick() == old(self).tick(),
            final(self).ents().spec_is_alive(r),
            final(self).ents().dense().last().handle == r,
            exists|mid: Entities|
                allocated(old(self).ents(), mid, r) && #[trigger] spawned(
                    mid,
                    final(self).ents(),
                    final(self).ents().dense().last(),
                ),
            final(self).ents().dense().last().table is Some,
            final(self).ents().dense().last().table->0 < final(self).archs().tables().len(),
            final(self).archs().tables()[final(self).ents().dense().last().table->0 as int].entities().last()
                == r,
            final(self).archs().sigs()[final(self).ents().dense().last().table->0 as int].words()
                == sig.words(),
            final(self).ents().dense().last().row.0 == final(self).archs().tables()[
                final(self).ents().dense().last().table->0 as int].entities().len() - 1,
            final(self).archs().tables()[final(self).ents().dense().last().table->0 as int].cols().len()
                == components@.len(),
            forall|k: int|
                #![trigger components@[k]]
                0 <= k < components@.len() ==> {
                    let t = final(self).ents().dense().last().table->0 as int;
                    let before = if t < old(self).archs().tables().len() {
                        old(self).archs().tables()[t].cols()[k]
                    } else {
                        columns@[k]
                    };
                    &&& final(self).archs().tables()[t].cols()[k]@ == before@.push(
                        components@[k]@,
                    )
                    &&& final(self).archs().tables()[t].cols()[k].ty() == before.ty()
                    &&& final(self).archs().tables()[t].cols()[k].layout() == before.layout()
                },
            forall|i: int|
                0 <= i < old(self).archs().tables().len() && i != final(self).ents().dense().last().table->0
                    ==> #[trigger] final(self).archs().tables()[i] == old(self).archs().tables()[i],
    {
        let handle = self.entities.allocate();
        let ghost mid = self.entities;
        let (table, row) = self.archetypes.insert(handle, sig, columns, components);
        let meta = Entity { handle, table: Some(table), row };
        self.entities.spawn(meta);
        proof {
            lemma_spawned_is_alive(old(self).entities, mid, self.entities, handle, meta);
            assert(self.ents().dense().last() == meta);
        }
        handle
    }

    /// A view of the entity, if it is alive.
    ///
    /// The handle's index must have been spawned.
    pub fn get_entity(&self, handle: EntityHandle) -> (r: Option<EntityRef<'_>>)
        requires
            handle.spec_index() < self.ents().sparse().len(),
            self.ents().sparse()[handle.spec_index() as int] != TOMBSTONE ==> handle.spec_index()
                < self.ents().generations().len(),
        ensures
            r is Some <==> self.ents().spec_is_alive(handle),
            r is Some ==> r->0.spec_handle() == handle,
    {
        if self.entities.is_alive(handle) {
            return Some(EntityRef { handle, world: self });
        }
        None
    }

    /// The current tick.
    pub fn current_tick(&self) -> (r: u32)
        ensures
            r == self.tick(),
    {
        self.current_tick
    }

    /// The signature of the components of `T`, assigning ids to those that have none yet.
    pub fn component_signature<T: ComponentBundle>(&mut self) -> (r: Signature)
        requires
            old(self).wf(),
            old(self).archs().reg().next_id() + T::count() <= usize::MAX,
        ensures
            final(self).wf(),
            final(self).ents() == old(self).ents(),
            final(self).tick() == old(self).tick(),
            registered_more(old(self).archs(), final(self).archs(), T::count()),
            exists|types: Seq<std::any::TypeId>|
                {
                    &&& types.len() == T::count()
                    &&& T::type_ids_are(types)
                    &&& (final(self).archs().reg().ids(), final(self).archs().reg().next_id() as int)
                        == #[trigger] assign_all(
                        old(self).archs().reg().ids(),
                        old(self).archs().reg().next_id() as int,
                        types,
                    )
                    &&& r@ == id_set(final(self).archs().reg().ids(), types)
                },
    {
        self.archetypes.assign_signature::<T>()
    }

    /// Whether the entity is in a table with all the components of `T`.
    pub fn has_components<T: ComponentBundle>(&self, entity: EntityHandle) -> (r: bool)
        requires
            self.wf(),
        ensures
            exists|types: Seq<std::any::TypeId>, sig: Option<Signature>|
                {
                    &&& types.len() == T::count()
                    &&& T::type_ids_are(types)
                    &&& #[trigger] signature_lookup(self.archs().reg().ids(), types, sig)
                    &&& r == (sig is Some && self.archs().holds(sig->0, entity))
                },
    {
        self.archetypes.has_components::<T>(entity)
    }

    /// Exclusive access through the entity, if it is alive.
    ///
    /// The handle's index must have been spawned.
    pub fn get_entity_mut(&mut self, handle: EntityHandle) -> (r: Option<EntityMut<'_>>)
        requires
            handle.spec_index() < old(self).ents().sparse().len(),
            old(self).ents().sparse()[handle.spec_index() as int] != TOMBSTONE ==> handle.spec_index()
                < old(self).ents().generations().len(),
        ensures
            r is Some <==> old(self).ents().spec_is_alive(handle),
            r is Some ==> r->0.spec_handle() == handle,
    {
        if self.entities.is_alive(handle) {
            return Some(EntityMut { world: self, handle });
        }
        None
    }

    /// The number of entities alive in this world.
    pub fn alive_count(&self) -> (r: usize)
        ensures
            r == self.ents().dense().len(),
    {
        self.entities.alive_count()
    }

    /// Ends a run of the schedule: the tick moves on.
    ///
    /// The tick must not be at `u32::MAX`.
    pub fn advance_tick(&mut self)
        requires
            old(self).tick() < u32::MAX,
        ensures
            final(self).tick() == old(self).tick() + 1,
            final(self).archs() == old(self).archs(),
            final(self).ents() == old(self).ents(),
    {
        self.current_tick = self.current_tick + 1;
    }
}

impl Default for World {
    fn default() -> (r: World)
        ensures
            r.wf(),
            r.tick() == 0,
    {
        World::new()
    }
}

} // verus!
