use std::any::TypeId;

use ecs::archetype::{Archetypes, Signature, TableCache};
use ecs::component::{Component, ComponentBundle, ComponentId, ComponentRegistry};
use ecs::filter::{Changed, Filter, FilterBundle, FilterDesc, Removed, With, Without};
use ecs::handle::{EntityGeneration, EntityHandle, EntityIndex};
use ecs::query::{QueryIter, QueryMeta};
use ecs::table::{Column, Table, TableRow};

#[derive(Debug)]
struct Health(u32);
impl Component for Health {}

#[derive(Debug)]
struct Position(u16, u16);
impl Component for Position {}

#[derive(Debug)]
struct Marker;
impl Component for Marker {}

fn handle(i: u32) -> EntityHandle {
    EntityHandle::from_index_and_generation(EntityIndex(i), EntityGeneration(0))
}

#[test]
fn registry_assigns_consecutive_ids() {
    let mut reg = ComponentRegistry::new();
    assert_eq!(reg.get::<Health>(), None);
    let h = reg.get_or_assign::<Health>();
    let p = reg.get_or_assign::<Position>();
    assert_eq!(h, ComponentId(0));
    assert_eq!(p, ComponentId(1));
    assert_eq!(reg.get_or_assign::<Health>(), ComponentId(0));
    assert_eq!(reg.get::<Position>(), Some(ComponentId(1)));
    assert_eq!(reg.get_by_type_id(&TypeId::of::<Health>()), Some(ComponentId(0)));
    assert_eq!(reg.get_by_type_id(&TypeId::of::<Marker>()), None);
    assert_eq!(reg.get_or_assign_type_id(TypeId::of::<Marker>()), ComponentId(2));
}

#[test]
fn component_id_from_and_get() {
    let id = ComponentId::from(7);
    assert_eq!(id.get(), 7);
}

#[test]
fn registry_signatures_of_types() {
    let mut reg = ComponentRegistry::new();
    let types = vec![TypeId::of::<Position>(), TypeId::of::<Health>()];
    assert!(reg.get_signature(&types).is_none());
    let sig = reg.get_or_assign_signature(&types);
    assert_eq!(sig.count_ones(), 2);
    let mut expected = Signature::new();
    expected.set(0);
    expected.set(1);
    assert!(sig.same_words(&expected));
    let again = reg.get_signature(&types).unwrap();
    assert!(again.same_words(&expected));
    assert_eq!(reg.get::<Position>(), Some(ComponentId(0)));
}

#[test]
fn component_bundle_signatures() {
    let mut reg = ComponentRegistry::new();
    assert!(<(Health, Position)>::get_signature(&reg).is_none());
    let sig = <(Health, Position)>::get_or_assign_signature(&mut reg);
    assert_eq!(sig.count_ones(), 2);
    let single = Marker::get_or_assign_signature(&mut reg);
    let mut expected = Signature::new();
    expected.set(2);
    assert!(single.same_words(&expected));
    assert_eq!(<(Health, Position, Marker)>::type_ids().len(), 3);
}

fn health_column() -> Column {
    Column::new::<u32>()
}

#[test]
fn column_push_get_and_grow() {
    let t = TypeId::of::<u32>();
    let mut c = health_column();
    assert_eq!(c.entry_size(), 4);
    assert_eq!(c.len(), 0);
    assert_eq!(c.capacity(), 0);
    c.push(&t, &[1, 0, 0, 0]);
    assert_eq!(c.capacity(), 4);
    c.push(&t, &[2, 0, 0, 0]);
    c.push(&t, &[3, 0, 0, 0]);
    c.push(&t, &[4, 0, 0, 0]);
    c.push(&t, &[5, 0, 0, 0]);
    assert_eq!(c.capacity(), 8);
    assert_eq!(c.len(), 5);
    assert_eq!(c.get(&t, 1), Some(&[2u8, 0, 0, 0][..]));
    assert_eq!(c.get(&t, 5), None);
}

#[test]
fn column_swap_remove_moves_last() {
    let t = TypeId::of::<u16>();
    let mut c = Column::new::<u16>();
    c.push(&t, &[1, 1]);
    c.push(&t, &[2, 2]);
    c.push(&t, &[3, 3]);
    assert_eq!(c.swap_remove(0), vec![1, 1]);
    assert_eq!(c.len(), 2);
    assert_eq!(c.get(&t, 0), Some(&[3u8, 3][..]));
    assert_eq!(c.get(&t, 1), Some(&[2u8, 2][..]));
    assert_eq!(c.swap_remove(1), vec![2, 2]);
    assert_eq!(c.len(), 1);
    assert_eq!(c.get(&t, 0), Some(&[3u8, 3][..]));
}

#[test]
fn column_take_values_empties_in_order() {
    let t = TypeId::of::<u16>();
    let mut c = Column::new::<u16>();
    c.push(&t, &[1, 1]);
    c.push(&t, &[2, 2]);
    let cap = c.capacity();
    assert_eq!(c.take_values(), vec![vec![1, 1], vec![2, 2]]);
    assert_eq!(c.len(), 0);
    assert_eq!(c.capacity(), cap);
    assert_eq!(c.get(&t, 0), None);
    c.push(&t, &[5, 5]);
    assert_eq!(c.get(&t, 0), Some(&[5u8, 5][..]));
}

#[test]
fn column_of_zero_sized_type_never_allocates() {
    let t = TypeId::of::<()>();
    let mut c = Column::new::<()>();
    assert_eq!(c.entry_size(), 0);
    assert_eq!(c.capacity(), usize::MAX);
    c.push(&t, &[]);
    c.push(&t, &[]);
    assert_eq!(c.len(), 2);
    assert_eq!(c.get(&t, 1), Some(&[0u8; 0][..]));
}

#[test]
fn column_reserve_adds_capacity() {
    let mut c = Column::new::<u64>();
    c.reserve(0);
    assert_eq!(c.capacity(), 0);
    c.reserve(10);
    assert_eq!(c.capacity(), 10);
    assert_eq!(c.len(), 0);
}

fn two_column_table() -> Table {
    let mut sig = Signature::new();
    sig.set(0);
    sig.set(1);
    Table::new(sig, vec![Column::new::<u32>(), Column::new::<u16>()])
}

#[test]
fn table_insert_and_remove_rows() {
    let mut t = two_column_table();
    assert_eq!(t.len(), 0);
    assert_eq!(t.column_index(&TypeId::of::<u32>()), Some(0));
    assert_eq!(t.column_index(&TypeId::of::<u16>()), Some(1));
    assert_eq!(t.column_index(&TypeId::of::<u8>()), None);
    let r0 = t.insert(handle(0), &vec![vec![1, 0, 0, 0], vec![9, 9]]);
    let r1 = t.insert(handle(1), &vec![vec![2, 0, 0, 0], vec![8, 8]]);
    assert_eq!(r0, TableRow(0));
    assert_eq!(r1, TableRow(1));
    assert!(t.contains_entity(handle(1)));
    assert_eq!(t.remove(handle(0)), Some(vec![vec![1, 0, 0, 0], vec![9, 9]]));
    assert_eq!(t.len(), 1);
    assert!(!t.contains_entity(handle(0)));
    assert_eq!(t.column(0).get(&TypeId::of::<u32>(), 0), Some(&[2u8, 0, 0, 0][..]));
    assert_eq!(t.columns()[1].get(&TypeId::of::<u16>(), 0), Some(&[8u8, 8][..]));
    assert_eq!(t.remove(handle(7)), None);
    assert_eq!(t.len(), 1);
    assert_eq!(t.archetype().count_ones(), 2);
}

fn sig_of(bits: &[usize]) -> Signature {
    let mut s = Signature::new();
    for &b in bits {
        s.set(b);
    }
    s
}

#[test]
fn archetypes_reuse_tables_of_the_same_signature() {
    let mut a = Archetypes::new();
    assert_eq!(a.generation(), 0);
    let (t0, r0) = a.insert(handle(0), sig_of(&[0]), vec![Column::new::<u32>()], &vec![vec![1, 0, 0, 0]]);
    let (t1, r1) = a.insert(handle(1), sig_of(&[0]), vec![Column::new::<u32>()], &vec![vec![2, 0, 0, 0]]);
    let (t2, _) = a.insert(handle(2), sig_of(&[1]), vec![Column::new::<u16>()], &vec![vec![3, 0]]);
    assert_eq!((t0, r0), (0, TableRow(0)));
    assert_eq!((t1, r1), (0, TableRow(1)));
    assert_eq!(t2, 1);
    assert_eq!(a.len(), 2);
    assert_eq!(a.generation(), 2);
    assert_eq!(a.get_by_index(0).len(), 2);
    assert_eq!(a.get_by_bitset(&sig_of(&[1])).map(|t| t.len()), Some(1));
    assert!(a.get_by_bitset(&sig_of(&[0, 1])).is_none());
    assert_eq!(a.index_of(&sig_of(&[1])), Some(1));
    assert!(a.holds_entity(&sig_of(&[0]), handle(1)));
    assert!(!a.holds_entity(&sig_of(&[0]), handle(2)));
}

#[test]
fn archetypes_has_components_by_bundle() {
    let mut a = Archetypes::new();
    assert!(!a.has_components::<Health>(handle(0)));
    let sig = a.assign_signature::<Health>();
    a.insert(handle(0), sig, vec![Column::new::<u32>()], &vec![vec![1, 0, 0, 0]]);
    assert!(a.has_components::<Health>(handle(0)));
    assert!(!a.has_components::<Health>(handle(1)));
    assert!(!a.has_components::<Position>(handle(0)));
    assert!(a.get_by_archetype::<Health>().is_some());
    assert_eq!(a.registry().get::<Health>(), Some(ComponentId(0)));
}

#[test]
fn filters_select_tables_by_signature() {
    let mut a = Archetypes::new();
    let with_health = <With<Health> as Filter>::init(&mut a);
    let without_pos = <Without<Position> as Filter>::init(&mut a);
    let changed = <Changed<(Health, Position)> as Filter>::init(&mut a);
    let only_health = sig_of(&[0]);
    let both = sig_of(&[0, 1]);
    assert!(with_health.apply_static_filter(&only_health));
    assert!(without_pos.apply_static_filter(&only_health));
    assert!(!without_pos.apply_static_filter(&both));
    assert!(changed.apply_static_filter(&both));
    assert!(!changed.apply_static_filter(&only_health));
    let bundle = (with_health, without_pos);
    assert!(bundle.apply_static_filters(&only_health));
    assert!(!bundle.apply_static_filters(&both));
    assert!(().apply_static_filters(&both));
}

#[test]
fn removed_filter_describes_its_component() {
    let mut a = Archetypes::new();
    let r: Removed<Marker> = Removed::init(&mut a);
    assert_eq!(r.desc(), FilterDesc::Removed(ComponentId(0)));
    assert_eq!(FilterDesc::default(), FilterDesc::Nothing);
}

#[test]
fn cache_tables_and_query_meta() {
    let mut a = Archetypes::new();
    // The filter registers `Marker`, which gets id 0.
    let filter: Without<Marker> = FilterBundle::init(&mut a);
    a.insert(handle(0), sig_of(&[1]), vec![Column::new::<u32>()], &vec![vec![1, 0, 0, 0]]);
    a.insert(handle(1), sig_of(&[1, 3]), vec![Column::new::<u8>(), Column::new::<u32>()], &vec![vec![7], vec![2, 0, 0, 0]]);
    a.insert(handle(2), sig_of(&[2]), vec![Column::new::<u16>()], &vec![vec![3, 0]]);
    a.insert(handle(3), sig_of(&[0, 1]), vec![Column::new::<u32>()], &vec![vec![5, 0, 0, 0]]);
    let types = vec![TypeId::of::<u32>()];
    let mut cache: Vec<TableCache> = Vec::new();
    a.cache_tables(&sig_of(&[1]), &filter, &types, &mut cache);
    assert_eq!(cache.len(), 2);
    assert_eq!(cache[0].table, 0);
    assert_eq!(cache[0].cols, vec![0]);
    assert_eq!(cache[1].table, 1);
    assert_eq!(cache[1].cols, vec![1]);

    let mut meta = QueryMeta::new(&a, sig_of(&[2]), (), vec![TypeId::of::<u16>()]);
    assert_eq!(meta.count(), 1);
    assert_eq!(meta.generation(), a.generation());
    assert!(meta.archetype().same_words(&sig_of(&[2])));
    assert_eq!(*meta.filters(), ());
    assert_eq!(meta.cache().len(), 1);
    assert_eq!(meta.cache()[0].table, 2);
    meta.update(&a);
    assert_eq!(meta.cache().len(), 1);
    a.insert(handle(4), sig_of(&[2, 3]), vec![Column::new::<u8>(), Column::new::<u16>()], &vec![vec![1], vec![4, 0]]);
    meta.update(&a);
    assert_eq!(meta.cache().len(), 2);
    assert_eq!(meta.cache()[1].table, 4);
    assert_eq!(meta.cache()[1].cols, vec![1]);
}

#[test]
fn column_remembers_its_type() {
    let c = Column::new::<u32>();
    assert_eq!(c.type_id(), TypeId::of::<u32>());
    assert_ne!(c.type_id(), TypeId::of::<u16>());
    assert_eq!(c.entry_align(), 4);
    assert!(c.accepts(&[0, 0, 0, 0]));
    assert!(!c.accepts(&[0, 0]));
}

#[test]
fn query_iter_visits_every_cached_row_in_order() {
    let mut a = Archetypes::new();
    a.insert(handle(0), sig_of(&[1]), vec![Column::new::<u32>()], &vec![vec![1, 0, 0, 0]]);
    a.insert(handle(1), sig_of(&[1, 3]), vec![Column::new::<u8>(), Column::new::<u32>()], &vec![vec![7], vec![2, 0, 0, 0]]);
    a.insert(handle(2), sig_of(&[2]), vec![Column::new::<u16>()], &vec![vec![3, 0]]);
    a.insert(handle(3), sig_of(&[1]), vec![Column::new::<u32>()], &vec![vec![9, 0, 0, 0]]);
    let meta = QueryMeta::new(&a, sig_of(&[1]), (), vec![TypeId::of::<u32>()]);
    let cache = meta.cache();
    assert_eq!(cache.len(), 2);
    let mut it = QueryIter::new();
    let mut seen = Vec::new();
    while let Some((j, row)) = it.next(cache, &a) {
        seen.push((cache[j].table, row));
    }
    assert_eq!(seen, vec![(0, TableRow(0)), (0, TableRow(1)), (1, TableRow(0))]);
    assert_eq!(it.next(cache, &a), None);
}

#[test]
fn query_iter_passes_over_missing_tables() {
    let a = Archetypes::new();
    let cache = vec![TableCache { table: 5, cols: vec![0] }];
    let mut it = QueryIter::new();
    assert_eq!(it.next(&cache, &a), None);
}
