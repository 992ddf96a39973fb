use ecs::command::Commands;
use ecs::component::{Component, ComponentId, ComponentRegistry};
use ecs::entity::Entity;
use ecs::event::{Event, EventReader};
use ecs::local::Local;
use ecs::param::{Param, QueryData, Res, ResMut};
use ecs::resource::{Resource, ResourceId};
use ecs::scheduler::AccessType;
use ecs::time::SystemTick;
use ecs::world::World;

struct Score;
impl Resource for Score {}

#[derive(Debug)]
struct Velocity;
impl Component for Velocity {}

struct Jump;
impl Event for Jump {
    const NAME: &'static str = "jump";
}

#[test]
fn resource_params_declare_their_access() {
    let res = <Res<'static, Score> as Param>::access();
    assert_eq!(res.len(), 1);
    assert!(!res[0].exclusive);
    let score = ResourceId::of::<Score>();
    assert!(res[0].ty.same(&AccessType::Resource(score)));
    let res_mut = <ResMut<'static, Score> as Param>::access();
    assert_eq!(res_mut.len(), 1);
    assert!(res_mut[0].exclusive);
    assert!(res_mut[0].ty.same(&AccessType::Resource(score)));
    let reader = <EventReader<'static, Jump> as Param>::access();
    assert_eq!(reader.len(), 1);
    assert!(!reader[0].ty.same(&AccessType::Resource(score)));
}

#[test]
fn world_and_local_params() {
    let shared = <&World as Param>::access();
    assert!(shared[0].ty.is_world());
    assert!(!shared[0].exclusive);
    let exclusive = <&mut World as Param>::access();
    assert!(exclusive[0].exclusive);
    assert!(<Local<'static, u32> as Param>::access().is_empty());
    assert!(<SystemTick as Param>::access().is_empty());
    assert!(<Commands<'static> as Param>::access().is_empty());
}

#[test]
fn query_items_declare_component_access() {
    let mut reg = ComponentRegistry::new();
    let entity = <Entity as QueryData>::access(&mut reg);
    assert!(entity.ty.same(&AccessType::Nothing));
    let read = <&Velocity as QueryData>::access(&mut reg);
    assert!(!read.exclusive);
    assert!(read.ty.same(&AccessType::Component(ComponentId(0))));
    let write = <&mut Velocity as QueryData>::access(&mut reg);
    assert!(write.exclusive);
    assert!(write.ty.same(&AccessType::Component(ComponentId(0))));
    assert!(read.has_conflict(&write));
}
