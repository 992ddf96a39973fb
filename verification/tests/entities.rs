use ecs::entity::{Entities, Entity, TOMBSTONE};
use ecs::handle::{EntityGeneration, EntityHandle, EntityIndex};
use ecs::table::TableRow;

#[test]
fn handle_bits_pack_index_high_generation_low() {
    let h = EntityHandle::from_index_and_generation(EntityIndex(3), EntityGeneration(5));
    assert_eq!(h.to_bits(), (3u64 << 32) | 5);
    assert_eq!(h.index(), EntityIndex(3));
    assert_eq!(h.generation(), EntityGeneration(5));
}

#[test]
fn handle_dangling_is_all_ones() {
    let d = EntityHandle::dangling();
    assert!(d.is_dangling());
    assert_eq!(d.to_bits(), u64::MAX);
    let h = EntityHandle::from_index_and_generation(EntityIndex(0), EntityGeneration(0));
    assert!(!h.is_dangling());
    let almost = EntityHandle::from_index_and_generation(EntityIndex(u32::MAX), EntityGeneration(0));
    assert!(!almost.is_dangling());
}

#[test]
fn index_and_generation_bits_round_trip() {
    assert_eq!(EntityIndex::from_bits(42).to_bits(), 42);
    assert_eq!(EntityGeneration::from_bits(7).to_bits(), 7);
    assert_eq!(EntityIndex::tombstone().to_bits(), u32::MAX);
    assert_eq!(EntityGeneration::first().to_bits(), 0);
}

#[test]
fn handle_order_follows_bits() {
    let a = EntityHandle::from_index_and_generation(EntityIndex(1), EntityGeneration(9));
    let b = EntityHandle::from_index_and_generation(EntityIndex(2), EntityGeneration(0));
    assert!(a.to_bits() < b.to_bits());
    assert!(a < b);
}

#[test]
fn handles_equal_exactly_when_parts_equal() {
    let a = EntityHandle::from_index_and_generation(EntityIndex(7), EntityGeneration(2));
    let same = EntityHandle::from_index_and_generation(EntityIndex(7), EntityGeneration(2));
    let newer = EntityHandle::from_index_and_generation(EntityIndex(7), EntityGeneration(3));
    let other = EntityHandle::from_index_and_generation(EntityIndex(8), EntityGeneration(2));
    assert_eq!(a, same);
    assert_ne!(a, newer);
    assert_ne!(a, other);
    assert!(a < newer);
    assert!(a < other);
}

fn meta(handle: EntityHandle) -> Entity {
    Entity { handle, table: Some(0), row: TableRow(0) }
}

#[test]
fn allocate_takes_fresh_indices_with_first_generation() {
    let mut entities = Entities::new();
    let a = entities.allocate();
    let b = entities.allocate();
    assert_eq!(a.index(), EntityIndex(0));
    assert_eq!(b.index(), EntityIndex(1));
    assert_eq!(a.generation(), EntityGeneration(0));
    assert_eq!(b.generation(), EntityGeneration(0));
}

#[test]
fn spawned_entity_is_alive() {
    let mut entities = Entities::new();
    let a = entities.allocate();
    entities.spawn(meta(a));
    assert!(entities.is_alive(a));
    assert_eq!(entities.alive_count(), 1);
}

#[test]
fn despawn_then_reuse_bumps_generation() {
    let mut entities = Entities::new();
    let a = entities.allocate();
    entities.spawn(meta(a));
    let b = entities.allocate();
    entities.spawn(meta(b));
    let c = entities.allocate();
    entities.spawn(meta(c));
    entities.despawn(a);
    assert!(!entities.is_alive(a));
    let d = entities.allocate();
    assert_eq!(d.index(), a.index());
    assert_eq!(d.generation(), EntityGeneration(1));
    assert_ne!(d, a);
}

#[test]
fn despawn_with_stale_handle_is_ignored() {
    let mut entities = Entities::new();
    let a = entities.allocate();
    entities.spawn(meta(a));
    let b = entities.allocate();
    entities.spawn(meta(b));
    let stale = EntityHandle::from_index_and_generation(EntityIndex(0), EntityGeneration(3));
    entities.despawn(stale);
    assert!(entities.is_alive(a));
    assert!(entities.is_alive(b));
}

#[test]
fn tombstone_marks_empty_slot() {
    assert_eq!(TOMBSTONE, u32::MAX);
}

#[test]
fn alive_count_counts_live_entities() {
    let mut entities = Entities::new();
    let a = entities.allocate();
    entities.spawn(meta(a));
    let b = entities.allocate();
    entities.spawn(meta(b));
    assert_eq!(entities.alive_count(), 2);
    entities.despawn(a);
    assert_eq!(entities.alive_count(), 1);
}
