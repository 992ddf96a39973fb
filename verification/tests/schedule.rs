use ecs::component::ComponentId;
use ecs::graph;
use ecs::layering::layer_nodes;
use ecs::resource::{Resource, ResourceId};
use ecs::scheduler;
use ecs::system::{SystemId, SystemMeta};

struct SysA;
struct SysB;
struct SysC;
struct SysD;

struct Gravity;
impl Resource for Gravity {}

struct Wind;
impl Resource for Wind {}

fn old_access(ty: graph::AccessType, exclusive: bool) -> graph::AccessDesc {
    graph::AccessDesc { ty, exclusive }
}

fn new_access(ty: scheduler::AccessType, exclusive: bool) -> scheduler::AccessDesc {
    scheduler::AccessDesc { ty, exclusive }
}

#[test]
fn layer_nodes_peels_a_chain() {
    let adjacency = vec![vec![1, 2], vec![2], vec![]];
    let mut in_degrees = vec![0, 1, 2];
    let layers = layer_nodes(&adjacency, &mut in_degrees);
    assert_eq!(layers, vec![vec![0], vec![1], vec![2]]);
}

#[test]
fn layer_nodes_groups_independent_nodes() {
    let adjacency = vec![vec![2], vec![2], vec![], vec![]];
    let mut in_degrees = vec![0, 0, 2, 0];
    let layers = layer_nodes(&adjacency, &mut in_degrees);
    assert_eq!(layers, vec![vec![0, 1, 3], vec![2]]);
}

#[test]
fn pairwise_access_conflicts() {
    let w = old_access(graph::AccessType::Component(ComponentId(0)), true);
    let r = old_access(graph::AccessType::Component(ComponentId(0)), false);
    let other = old_access(graph::AccessType::Component(ComponentId(1)), true);
    assert!(w.has_conflict(&r));
    assert!(r.has_conflict(&w));
    assert!(!r.has_conflict(&r));
    assert!(!w.has_conflict(&other));
}

#[test]
fn pairwise_graph_orders_conflicting_systems() {
    let mut g = graph::ScheduleGraph::new();
    g.add_node(graph::GraphNode {
        sid: SystemId::of::<(), SysA>(),
        access: vec![old_access(graph::AccessType::Component(ComponentId(0)), true)],
    });
    g.add_node(graph::GraphNode {
        sid: SystemId::of::<(), SysB>(),
        access: vec![old_access(graph::AccessType::Component(ComponentId(0)), false)],
    });
    g.add_node(graph::GraphNode {
        sid: SystemId::of::<(), SysC>(),
        access: vec![old_access(graph::AccessType::Component(ComponentId(1)), false)],
    });
    let schedule = g.sort();
    assert_eq!(schedule.sets, vec![vec![0, 2], vec![1]]);
}

#[test]
fn world_access_conflicts_with_everything_exclusive() {
    let world_read = new_access(scheduler::AccessType::World, false);
    let comp_write = new_access(scheduler::AccessType::Component(ComponentId(3)), true);
    let comp_read = new_access(scheduler::AccessType::Component(ComponentId(3)), false);
    assert!(world_read.has_conflict(&comp_write));
    assert!(comp_write.has_conflict(&world_read));
    assert!(!world_read.has_conflict(&comp_read));
    assert!(!comp_read.has_conflict(&world_read));
    assert!(scheduler::AccessType::World.is_world());
    assert!(!scheduler::AccessType::Nothing.is_world());
}

#[test]
fn scheduler_runs_readers_after_writers() {
    let gravity = ResourceId::of::<Gravity>();
    let mut g = scheduler::ScheduleGraph::new();
    g.add_node(scheduler::GraphNode {
        sid: SystemId::of::<(), SysA>(),
        access: vec![new_access(scheduler::AccessType::Component(ComponentId(0)), true)],
    });
    g.add_node(scheduler::GraphNode {
        sid: SystemId::of::<(), SysB>(),
        access: vec![new_access(scheduler::AccessType::Component(ComponentId(0)), false)],
    });
    g.add_node(scheduler::GraphNode {
        sid: SystemId::of::<(), SysC>(),
        access: vec![new_access(scheduler::AccessType::Resource(gravity), false)],
    });
    g.add_node(scheduler::GraphNode {
        sid: SystemId::of::<(), SysD>(),
        access: vec![new_access(scheduler::AccessType::Component(ComponentId(0)), true)],
    });
    assert_eq!(g.len(), 4);
    assert!(g.successors(0).is_empty());
    let schedule = g.sort();
    assert!(g.system(3).same(&SystemId::of::<(), SysD>()));
    assert_eq!(g.successors(0), &vec![1, 3]);
    assert_eq!(g.successors(1), &vec![3]);
    assert!(g.successors(2).is_empty());
    assert_eq!(schedule.sets.len(), 3);
    assert_eq!(schedule.sets[0].len(), 2);
    assert!(schedule.sets[0][0].same(&SystemId::of::<(), SysA>()));
    assert!(schedule.sets[0][1].same(&SystemId::of::<(), SysC>()));
    assert!(schedule.sets[1][0].same(&SystemId::of::<(), SysB>()));
    assert!(schedule.sets[2][0].same(&SystemId::of::<(), SysD>()));
}

#[test]
fn ids_compare_by_type() {
    assert!(ResourceId::of::<Gravity>().same(&ResourceId::of::<Gravity>()));
    assert!(!ResourceId::of::<Gravity>().same(&ResourceId::of::<Wind>()));
    assert!(!SystemId::of::<(), SysA>().same(&SystemId::of::<(), SysB>()));
    let a = scheduler::AccessType::Resource(ResourceId::of::<Gravity>());
    let b = scheduler::AccessType::Resource(ResourceId::of::<Wind>());
    assert!(!a.same(&b));
    assert!(a.same(&a));
}

#[test]
fn system_meta_getters() {
    let meta = SystemMeta { id: SystemId::of::<(), SysA>(), name: "movement" };
    assert_eq!(meta.name(), "movement");
    assert!(meta.id().same(&SystemId::of::<(), SysA>()));
}

#[test]
fn pairwise_graph_chains_three_systems() {
    let w = |c: usize| old_access(graph::AccessType::Component(ComponentId::from(c)), true);
    let r = |c: usize| old_access(graph::AccessType::Component(ComponentId::from(c)), false);
    let mut g = graph::ScheduleGraph::new();
    g.add_node(graph::GraphNode { sid: SystemId::of::<(), SysA>(), access: vec![w(0)] });
    g.add_node(graph::GraphNode { sid: SystemId::of::<(), SysB>(), access: vec![r(0), w(1)] });
    g.add_node(graph::GraphNode { sid: SystemId::of::<(), SysC>(), access: vec![r(1), r(0)] });
    let schedule = g.sort();
    assert_eq!(schedule.sets, vec![vec![0usize], vec![1], vec![2]]);
    let total: usize = schedule.sets.iter().map(|s| s.len()).sum();
    assert_eq!(total, 3);
}

#[test]
fn pairwise_graph_without_conflicts_sorts_again() {
    let mut g = graph::ScheduleGraph::new();
    g.add_node(graph::GraphNode {
        sid: SystemId::of::<(), SysA>(),
        access: vec![old_access(graph::AccessType::Component(ComponentId(0)), false)],
    });
    g.add_node(graph::GraphNode {
        sid: SystemId::of::<(), SysB>(),
        access: vec![old_access(graph::AccessType::Component(ComponentId(1)), true)],
    });
    let first = g.sort();
    assert_eq!(first.sets, vec![vec![0, 1]]);
    let second = g.sort();
    assert_eq!(second.sets, vec![vec![0, 1]]);
}
