//! System parameters: what each kind of parameter declares to the scheduler that it accesses.

use vstd::prelude::*;

use crate::typeid::is_type_id_of;

use crate::component::{assigned, Component, ComponentId, ComponentRegistry};
use crate::entity::Entity;
use crate::event::{Event, EventReader, Events};
use crate::resource::{Resource, ResourceId};
use crate::command::Commands;
use crate::local::Local;
use crate::scheduler::{accesses_conflict, AccessDesc, AccessType};
use crate::time::SystemTick;
use crate::world::World;

verus! {

broadcast use crate::typeid::lemma_type_id_of;

/// Shared access to a global resource.
pub struct Res<'s, R: Resource>(pub &'s R);

/// Exclusive access to a global resource.
pub struct ResMut<'s, R: Resource>(pub &'s mut R);

/// The event buffers of one type are a resource.
impl<T: Event + Send + Sync> Resource for Events<T> {}

/// A system parameter: it declares what it accesses, so that the scheduler can order systems.
pub trait Param {
    /// The accesses of the parameter.
    fn access() -> (r: Vec<AccessDesc>);
}

impl<'s, R: Resource> Param for Res<'s, R> {
    fn access() -> (r: Vec<AccessDesc>)
        ensures
            r@.len() == 1,
            r@[0].ty matches AccessType::Resource(id) && is_type_id_of::<R>(id.0),
            !r@[0].exclusive,
    {
        vec![AccessDesc { ty: AccessType::Resource(ResourceId::of::<R>()), exclusive: false }]
    }
}

/// `ResMut` declares exclusive access to its resource, so that no other system that
/// touches the resource runs alongside it.
impl<'s, R: Resource> Param for ResMut<'s, R> {
    fn access() -> (r: Vec<AccessDesc>)
        ensures
            r@.len() == 1,
            r@[0].ty matches AccessType::Resource(id) && is_type_id_of::<R>(id.0),
            r@[0].exclusive,
    {
        vec![AccessDesc { ty: AccessType::Resource(ResourceId::of::<R>()), exclusive: true }]
    }
}

impl<'a, T: Event + Send + Sync> Param for EventReader<'a, T> {
    fn access() -> (r: Vec<AccessDesc>)
        ensures
            r@.len() == 1,
            r@[0].ty matches AccessType::Resource(id) && is_type_id_of::<Events<T>>(id.0),
            !r@[0].exclusive,
    {
        vec![
            AccessDesc {
                ty: AccessType::Resource(ResourceId::of::<Events<T>>()),
                exclusive: false,
            },
        ]
    }
}

/// Shared access to the whole world reads everything.
impl<'w> Param for &'w World {
    fn access() -> (r: Vec<AccessDesc>)
        ensures
            r@ == seq![AccessDesc { ty: AccessType::World, exclusive: false }],
    {
        vec![AccessDesc { ty: AccessType::World, exclusive: false }]
    }
}

/// Exclusive access to the whole world writes everything.
impl<'w> Param for &'w mut World {
    fn access() -> (r: Vec<AccessDesc>)
        ensures
            r@ == seq![AccessDesc { ty: AccessType::World, exclusive: true }],
    {
        vec![AccessDesc { ty: AccessType::World, exclusive: true }]
    }
}

/// System-local data is the system's own and accesses nothing shared.
impl<'s, T: Default + Send + 'static> Param for Local<'s, T> {
    fn access() -> (r: Vec<AccessDesc>)
        ensures
            r@ == Seq::<AccessDesc>::empty(),
    {
        Vec::new()
    }
}

/// The system's ticks are its own and access nothing shared.
impl Param for SystemTick {
    fn access() -> (r: Vec<AccessDesc>)
        ensures
            r@ == Seq::<AccessDesc>::empty(),
    {
        Vec::new()
    }
}

/// Commands are buffered per thread and access nothing shared.
impl<'s> Param for Commands<'s> {
    fn access() -> (r: Vec<AccessDesc>)
        ensures
            r@ == Seq::<AccessDesc>::empty(),
    {
        Vec::new()
    }
}

/// An item of a query: it declares the one access it makes.
pub trait QueryData {
    /// The access of the item; a component gets an id where it has none yet.
    fn access(reg: &mut ComponentRegistry) -> (r: AccessDesc)
        requires
            old(reg).wf(),
            old(reg).next_id() < usize::MAX,
        ensures
            final(reg).wf(),
            final(reg).next_id() <= old(reg).next_id() + 1,
    ;
}

/// The entity itself accesses nothing.
impl QueryData for Entity {
    fn access(reg: &mut ComponentRegistry) -> (r: AccessDesc)
        ensures
            r == (AccessDesc { ty: AccessType::Nothing, exclusive: false }),
            *final(reg) == *old(reg),
    {
        AccessDesc { ty: AccessType::Nothing, exclusive: false }
    }
}

/// A shared reference to a component reads it.
impl<'a, T: Component> QueryData for &'a T {
    fn access(reg: &mut ComponentRegistry) -> (r: AccessDesc)
        ensures
            !r.exclusive,
            exists|ty: std::any::TypeId, id: ComponentId|
                is_type_id_of::<T>(ty) && r.ty == AccessType::Component(id) && #[trigger] assigned(
                    *old(reg),
                    *final(reg),
                    ty,
                    id,
                ),
    {
        let id = reg.get_or_assign::<T>();
        let r = AccessDesc { ty: AccessType::Component(id), exclusive: false };
        assert(r.ty == AccessType::Component(id));
        r
    }
}

/// A mutable reference to a component writes it.
impl<'a, T: Component> QueryData for &'a mut T {
    fn access(reg: &mut ComponentRegistry) -> (r: AccessDesc)
        ensures
            r.exclusive,
            exists|ty: std::any::TypeId, id: ComponentId|
                is_type_id_of::<T>(ty) && r.ty == AccessType::Component(id) && #[trigger] assigned(
                    *old(reg),
                    *final(reg),
                    ty,
                    id,
                ),
    {
        let id = reg.get_or_assign::<T>();
        let r = AccessDesc { ty: AccessType::Component(id), exclusive: true };
        assert(r.ty == AccessType::Component(id));
        r
    }
}

/// Writing the event buffer of `T` (`ResMut<Events<T>>`) and reading events of `T`
/// (`EventReader<T>`) declare accesses to the same kind of resource: the one identified by the
/// type identity of `Events<T>`. The first is exclusive and the second shared, so the two
/// conflict wherever the identities are the same, and the scheduler orders the systems.
pub proof fn lemma_event_writer_and_reader<T: Event + Send + Sync>(
    w: Vec<AccessDesc>,
    r: Vec<AccessDesc>,
)
    requires
        call_ensures(<ResMut<'static, Events<T>> as Param>::access, (), w),
        call_ensures(<EventReader<'static, T> as Param>::access, (), r),
    ensures
        w@.len() == 1 && r@.len() == 1,
        exists|iw: ResourceId, ir: ResourceId|
            {
                &&& is_type_id_of::<Events<T>>(iw.0)
                &&& is_type_id_of::<Events<T>>(ir.0)
                &&& w@[0].ty == AccessType::Resource(iw)
                &&& r@[0].ty == AccessType::Resource(ir)
                &&& w@[0].exclusive && !r@[0].exclusive
                &&& iw == ir ==> accesses_conflict(w@[0], r@[0])
            },
{
    let iw = choose|iw: ResourceId| w@[0].ty == AccessType::Resource(iw);
    let ir = choose|ir: ResourceId| r@[0].ty == AccessType::Resource(ir);
    assert(w@[0].ty == AccessType::Resource(iw));
    assert(r@[0].ty == AccessType::Resource(ir));
}

} // verus!
