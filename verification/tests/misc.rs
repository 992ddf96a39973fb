use ecs::archetype::Signature;
use ecs::change::{ChangeTracker, Ref};
use ecs::command::{CommandQueue, Commands, EntityCommandsHandle, LocalCommandBuffer};
use ecs::entity::Entity;
use ecs::event::{Event, EventId, Events};
use ecs::handle::{EntityGeneration, EntityHandle, EntityIndex};
use ecs::local::LocalState;
use ecs::marker::QueryType;
use ecs::resource::short_name_start;
use ecs::table::{Column, TableRow};
use ecs::time::SystemTick;
use ecs::util::{repeat_layout, Layout, RwFlag, READ, UNLOCKED, WRITE};
use ecs::world::World;

#[derive(Debug, Clone)]
struct Hit;
impl Event for Hit {
    const NAME: &'static str = "hit";
}

#[derive(Debug, Clone)]
struct Miss;
impl Event for Miss {
    const NAME: &'static str = "miss";
}

#[test]
fn layout_of_types() {
    let l = Layout::new::<u64>();
    assert_eq!(l.size(), 8);
    assert_eq!(l.align(), 8);
    let unit = Layout::new::<()>();
    assert_eq!(unit.size(), 0);
    assert_eq!(unit.align(), 1);
}

#[test]
fn layout_from_size_align_checks_alignment() {
    let l = Layout::from_size_align(6, 2).unwrap();
    assert_eq!((l.size(), l.align()), (6, 2));
    assert!(Layout::from_size_align(6, 3).is_none());
    assert!(Layout::from_size_align(6, 0).is_none());
    assert!(Layout::from_size_align(usize::MAX, 1).is_none());
}

#[test]
fn repeat_layout_pads_each_element() {
    let l = Layout::from_size_align(6, 4).unwrap();
    let arr = repeat_layout(l, 3);
    assert_eq!(arr.size(), 24);
    assert_eq!(arr.align(), 4);
    let exact = repeat_layout(Layout::new::<u32>(), 5);
    assert_eq!(exact.size(), 20);
    assert_eq!(repeat_layout(l, 0).size(), 0);
}

#[test]
fn rw_flag_states() {
    let mut f = RwFlag::new();
    assert_eq!(f.state(), UNLOCKED);
    let g = f.read();
    assert_eq!(f.state(), READ);
    f.release(g);
    assert_eq!(f.state(), UNLOCKED);
    let g = f.write();
    assert_eq!(f.state(), WRITE);
    f.release(g);
    f.read_guardless();
    f.unlock_guardless();
    f.write_guardless();
    assert_eq!(f.state(), WRITE);
    f.unlock_guardless();
    assert_eq!(RwFlag::default().state(), UNLOCKED);
}

#[test]
fn system_tick_moves_on() {
    let mut t = SystemTick::init(5);
    assert_eq!(t.this_run().get(), 5);
    assert_eq!(t.last_run().get(), 0);
    let now = t.fetch(9);
    assert_eq!(now.this_run().get(), 9);
    assert_eq!(now.last_run().get(), 5);
    assert_eq!(t, now);
}

#[test]
fn command_buffer_counts_and_stores() {
    let mut b = LocalCommandBuffer::default();
    assert_eq!(b.allocate_deferred_id(), EntityIndex(0));
    assert_eq!(b.allocate_deferred_id(), EntityIndex(1));
    b.push(&[1, 2, 3]);
    b.push(&[4, 5]);
    assert_eq!(b.pending_count(), 2);
    b.reserve(16);
    assert!(b.spare_capacity_len() >= 16);
    assert_eq!(b.reset(), vec![vec![1, 2, 3], vec![4, 5]]);
    assert_eq!(b.pending_count(), 0);
    assert_eq!(b.allocate_deferred_id(), EntityIndex(0));
    b.push(&[9]);
    assert_eq!(b.take_commands(), vec![vec![9]]);
    assert!(b.take_commands().is_empty());
}

#[test]
fn commands_hand_out_deferred_entities() {
    let mut buffer = LocalCommandBuffer::new();
    let mut commands = Commands::new(&mut buffer);
    let first = commands.spawn_empty();
    let second = commands.spawn_empty();
    assert_eq!(first, EntityCommandsHandle::Deferred(EntityIndex(0)));
    assert_eq!(second, EntityCommandsHandle::Deferred(EntityIndex(1)));
    assert!(first.deferred());
    assert_eq!(first.handle(), None);
    let h = EntityHandle::from_index_and_generation(EntityIndex(4), EntityGeneration(1));
    let spawned = commands.entity(Entity { handle: h, table: None, row: TableRow(0) });
    assert!(!spawned.deferred());
    assert_eq!(spawned.handle(), Some(h));
    commands.test();
    let _queue = CommandQueue::default();
}

#[test]
fn events_start_empty_and_ids_differ() {
    let e: Events<Hit> = Events::new();
    let d: Events<Hit> = Events::default();
    let _ = (e, d);
    assert!(EventId::of::<Hit>().same(&EventId::of::<Hit>()));
    assert!(!EventId::of::<Hit>().same(&EventId::of::<Miss>()));
    assert_eq!(Hit::NAME, "hit");
}

#[test]
fn change_tracker_records_ticks() {
    let t = ChangeTracker::new();
    let d = ChangeTracker::default();
    let _ = (t, d);
    let v = 3u8;
    let r = Ref::new(&v);
    assert_eq!(*r.get(), 3);
}

#[test]
fn local_state_persists() {
    let mut s: LocalState<u32> = LocalState::init();
    {
        let local = s.fetch();
        *local.0 += 4;
    }
    let local = s.fetch();
    assert_eq!(*local.get(), 4);
}

#[test]
fn query_types_compare() {
    assert_eq!(QueryType::Has, QueryType::Has);
    assert_ne!(QueryType::Entity, QueryType::Component);
}

#[test]
fn world_spawns_live_entities() {
    let mut w = World::new();
    let mut sig = Signature::new();
    sig.set(0);
    let a = w.spawn(sig.clone(), vec![Column::new::<u32>()], &vec![vec![1, 0, 0, 0]]);
    let b = w.spawn(sig, vec![Column::new::<u32>()], &vec![vec![2, 0, 0, 0]]);
    assert_ne!(a, b);
    assert!(w.get_entity(a).is_some());
    assert_eq!(w.get_entity(b).map(|e| e.handle()), Some(b));
    assert_eq!(w.alive_count(), 2);
    w.advance_tick();
    let _ = World::default();
}

#[derive(Debug)]
struct Speed(u32);
impl ecs::component::Component for Speed {}

#[test]
fn world_entity_views() {
    let mut w = World::new();
    let a = w.spawn(Signature::new(), vec![], &vec![]);
    let r = w.get_entity(a).unwrap();
    assert!(!r.has::<Speed>());
    assert!(!w.has_components::<Speed>(a));
    let m = w.get_entity_mut(a).unwrap();
    assert_eq!(m.handle(), a);
    assert_eq!(m.index(), a.index());
    assert_eq!(m.generation(), a.generation());
    assert_eq!(w.current_tick(), 0);
    w.advance_tick();
    assert_eq!(w.current_tick(), 1);
}

#[test]
fn world_entity_has_its_components() {
    let mut w = World::new();
    let sig = w.component_signature::<Speed>();
    let a = w.spawn(sig, vec![Column::new::<u32>()], &vec![vec![3, 0, 0, 0]]);
    assert!(w.get_entity(a).unwrap().has::<Speed>());
    assert!(w.has_components::<Speed>(a));
    let _ = Speed(3).0;
}

#[test]
fn short_name_takes_the_last_path_segment() {
    assert_eq!(short_name_start(b"game::stats::Score"), 13);
    assert_eq!(&"game::stats::Score"[short_name_start(b"game::stats::Score")..], "Score");
    assert_eq!(short_name_start(b"Score"), 0);
    assert_eq!(short_name_start(b""), 0);
    assert_eq!(short_name_start(b"a:::b"), 3);
    assert_eq!(short_name_start(b"trailing::"), 10);
}
