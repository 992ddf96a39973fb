//! A scheduling graph in which every pair of conflicting systems is ordered by insertion.

use vstd::prelude::*;

use crate::component::ComponentId;
use crate::layering::{
    degrees_match, forward_edges, has_edge, layer_nodes, layer_of, layered, lemma_all_placed,
    lemma_deep_view, lemma_edge_raises_layer, lemma_layers_cover, listed, pending_in, total_len,
};
use crate::system::SystemId;
use crate::typeid::type_id_eq;

verus! {

/// What a system accesses.
#[derive(Debug, Copy, Clone)]
pub enum AccessType {
    Entity,
    World,
    Component(ComponentId),
    Resource(std::any::TypeId),
}

/// One access of a system: what it touches and whether it needs exclusive access.
#[derive(Debug, Copy, Clone)]
pub struct AccessDesc {
    pub ty: AccessType,
    pub exclusive: bool,
}

impl AccessType {
    /// Compares two access types.
    pub fn same(&self, other: &AccessType) -> (r: bool)
        ensures
            r == (*self == *other),
    {
        match (self, other) {
            (AccessType::Entity, AccessType::Entity) => true,
            (AccessType::World, AccessType::World) => true,
            (AccessType::Component(a), AccessType::Component(b)) => a.0 == b.0,
            (AccessType::Resource(a), AccessType::Resource(b)) => type_id_eq(a, b),
            _ => false,
        }
    }
}

/// Two accesses conflict when they touch the same thing and one of them is exclusive.
pub open spec fn accesses_conflict(a: AccessDesc, b: AccessDesc) -> bool {
    a.ty == b.ty && (a.exclusive || b.exclusive)
}

impl AccessDesc {
    /// Whether the two accesses conflict.
    pub fn has_conflict(&self, other: &AccessDesc) -> (r: bool)
        ensures
            r == accesses_conflict(*self, *other),
    {
        self.ty.same(&other.ty) && (self.exclusive || other.exclusive)
    }
}

/// A system in the graph, with what it accesses.
#[derive(Debug, Clone)]
pub struct GraphNode {
    pub sid: SystemId,
    pub access: Vec<AccessDesc>,
}

/// Two systems conflict when some access of the one conflicts with some access of the other.
pub open spec fn nodes_conflict(a: Seq<AccessDesc>, b: Seq<AccessDesc>) -> bool {
    exists|p: int, q: int|
        0 <= p < a.len() && 0 <= q < b.len() && accesses_conflict(#[trigger] a[p], #[trigger] b[q])
}

/// The dependency graph of a set of systems.
#[derive(Debug, Clone)]
pub struct ScheduleGraph {
    nodes: Vec<GraphNode>,
    adjacency: Vec<Vec<usize>>,
    in_degrees: Vec<usize>,
}

/// The sets of systems (by node index) that run one after another; the systems of one set
/// may run at the same time.
#[derive(Debug, Clone)]
pub struct Schedule {
    pub sets: Vec<Vec<usize>>,
}

impl ScheduleGraph {
    /// The access lists of the nodes.
    pub closed spec fn accesses(&self) -> Seq<Seq<AccessDesc>> {
        Seq::new(self.nodes.len() as nat, |i: int| self.nodes[i].access@)
    }

    /// The edges, as adjacency lists.
    pub closed spec fn edges(&self) -> Seq<Seq<usize>> {
        self.adjacency.deep_view()
    }

    /// The graph has nodes and no edges yet.
    pub closed spec fn fresh(&self) -> bool {
        &&& self.adjacency.len() == self.nodes.len()
        &&& self.in_degrees.len() == self.nodes.len()
        &&& forall|i: int| 0 <= i < self.adjacency.len() ==> #[trigger] self.adjacency[i].len() == 0
        &&& forall|i: int| 0 <= i < self.in_degrees.len() ==> #[trigger] self.in_degrees[i] == 0
    }

    /// Creates an empty graph.
    pub fn new() -> (r: ScheduleGraph)
        ensures
            r.fresh(),
            r.accesses() == Seq::<Seq<AccessDesc>>::empty(),
            r.edges() == Seq::<Seq<usize>>::empty(),
    {
        let r = ScheduleGraph { nodes: Vec::new(), adjacency: Vec::new(), in_degrees: Vec::new() };
        assert(r.accesses() =~= Seq::<Seq<AccessDesc>>::empty());
        assert(r.adjacency.deep_view() =~= Seq::<Seq<usize>>::empty());
        r
    }

    /// Adds a system to the graph.
    pub fn add_node(&mut self, node: GraphNode)
        ensures
            old(self).fresh() ==> final(self).fresh(),
            final(self).accesses() == old(self).accesses().push(node.access@),
            final(self).edges() == old(self).edges().push(Seq::<usize>::empty()),
    {
        let ghost acc = node.access@;
        self.nodes.push(node);
        self.adjacency.push(Vec::new());
        self.in_degrees.push(0);
        assert(self.accesses() =~= old(self).accesses().push(acc));
        proof {
            lemma_deep_view(&self.adjacency);
            lemma_deep_view(&old(self).adjacency);
            assert(self.adjacency.deep_view() =~= old(self).adjacency.deep_view().push(
                Seq::<usize>::empty(),
            ));
        }
    }

    fn add_edge(&mut self, from: usize, to: usize)
        requires
            from < to < old(self).nodes.len(),
            old(self).adjacency.len() == old(self).nodes.len(),
            degrees_match(old(self).adjacency.deep_view(), old(self).in_degrees@),
            old(self).in_degrees[to as int] < to,
        ensures
            final(self).nodes == old(self).nodes,
            final(self).adjacency.len() == old(self).adjacency.len(),
            final(self).adjacency.deep_view() == old(self).adjacency.deep_view().update(
                from as int,
                old(self).adjacency.deep_view()[from as int].push(to),
            ),
            final(self).in_degrees@ == old(self).in_degrees@.update(
                to as int,
                (old(self).in_degrees[to as int] + 1) as usize,
            ),
            degrees_match(final(self).adjacency.deep_view(), final(self).in_degrees@),
    {
        let ghost adj0 = self.adjacency.deep_view();
        let ghost a0 = self.adjacency@;
        proof {
            lemma_deep_view(&self.adjacency);
        }
        self.adjacency[from].push(to);
        self.in_degrees[to] = self.in_degrees[to] + 1;
        proof {
            lemma_deep_view(&self.adjacency);
            let adj1 = self.adjacency.deep_view();
            assert forall|u: int| 0 <= u < adj1.len() implies #[trigger] adj1[u] == adj0.update(
                from as int,
                adj0[from as int].push(to),
            )[u] by {
                if u != from {
                    assert(self.adjacency@[u] == a0[u]);
                }
            }
            assert(adj1 =~= adj0.update(from as int, adj0[from as int].push(to)));
            assert forall|v: int| 0 <= v < self.in_degrees.len() implies #[trigger] self.in_degrees[v]
                as int == pending_in(adj1, Set::empty(), v, adj1.len() as int) by {
                lemma_pending_push(adj0, from as int, to, v, adj0.len() as int);
            }
        }
    }

    fn has_conflict(&self, a: &GraphNode, b: &GraphNode) -> (r: bool)
        ensures
            r == nodes_conflict(a.access@, b.access@),
    {
        let mut i: usize = 0;
        while i < a.access.len()
            invariant
                i <= a.access.len(),
                forall|p: int, q: int|
                    0 <= p < i && 0 <= q < b.access.len() ==> !accesses_conflict(
                        #[trigger] a.access@[p],
                        #[trigger] b.access@[q],
                    ),
            decreases a.access.len() - i,
        {
            let mut j: usize = 0;
            while j < b.access.len()
                invariant
                    i < a.access.len(),
                    j <= b.access.len(),
                    forall|p: int, q: int|
                        0 <= p < i && 0 <= q < b.access.len() ==> !accesses_conflict(
                            #[trigger] a.access@[p],
                            #[trigger] b.access@[q],
                        ),
                    forall|q: int|
                        0 <= q < j ==> !accesses_conflict(a.access@[i as int], #[trigger] b.access@[q]),
                decreases b.access.len() - j,
            {
                if a.access[i].has_conflict(&b.access[j]) {
                    return true;
                }
                j += 1;
            }
            i += 1;
        }
        false
    }

    /// Adds an edge from every system to every later system that it conflicts with.
    fn build_dependencies(&mut self)
        requires
            old(self).fresh(),
        ensures
            final(self).nodes == old(self).nodes,
            final(self).adjacency.len() == final(self).nodes.len(),
            forward_edges(final(self).edges()),
            degrees_match(final(self).edges(), final(self).in_degrees@),
            forall|u: int, v: int|
                #![trigger has_edge(final(self).edges(), u, v)]
                0 <= u < final(self).nodes.len() && 0 <= v < final(self).nodes.len() ==> (
                has_edge(final(self).edges(), u, v) <==> u < v && nodes_conflict(
                    final(self).accesses()[u],
                    final(self).accesses()[v],
                )),
    {
        let n = self.nodes.len();
        proof {
            lemma_deep_view(&self.adjacency);
            let adj = self.adjacency.deep_view();
            assert forall|u: int, v: int| 0 <= u < n && 0 <= v < n implies !#[trigger] has_edge(
                adj,
                u,
                v,
            ) by {
                assert(old(self).adjacency[u].len() == 0);
                assert(adj[u].len() == 0);
            }
            assert forall|u: int| 0 <= u < adj.len() implies #[trigger] adj[u].len() == 0 by {
                assert(old(self).adjacency[u].len() == 0);
            }
            assert forall|v: int| 0 <= v < n implies #[trigger] self.in_degrees[v] as int
                == pending_in(adj, Set::empty(), v, n as int) by {
                lemma_pending_no_edges(adj, v, n as int);
            }
        }
        let mut i: usize = 0;
        while i < n
            invariant
                n == self.nodes.len(),
                self.nodes == old(self).nodes,
                self.adjacency.len() == n,
                self.in_degrees.len() == n,
                i <= n,
                degrees_match(self.adjacency.deep_view(), self.in_degrees@),
                forall|v: int| 0 <= v < n ==> #[trigger] self.in_degrees[v] <= v && self.in_degrees[v] <= i,
                forall|u: int, v: int|
                    #![trigger has_edge(self.adjacency.deep_view(), u, v)]
                    0 <= u < n && 0 <= v < n ==> (has_edge(self.adjacency.deep_view(), u, v)
                        <==> u < i && u < v && nodes_conflict(
                        self.nodes[u].access@,
                        self.nodes[v].access@,
                    )),
                forall|u: int, j: int|
                    0 <= u < n && 0 <= j < self.adjacency[u].len() ==> u
                        < #[trigger] self.adjacency[u]@[j] < n,
            decreases n - i,
        {
            let mut j: usize = i + 1;
            while j < n
                invariant
                    n == self.nodes.len(),
                    self.nodes == old(self).nodes,
                    self.adjacency.len() == n,
                    self.in_degrees.len() == n,
                    i < n,
                    i + 1 <= j <= n,
                    degrees_match(self.adjacency.deep_view(), self.in_degrees@),
                    forall|v: int|
                        0 <= v < n ==> #[trigger] self.in_degrees[v] <= v && self.in_degrees[v]
                            <= i + 1 && (v >= j ==> self.in_degrees[v] <= i),
                    forall|u: int, v: int|
                        #![trigger has_edge(self.adjacency.deep_view(), u, v)]
                        0 <= u < n && 0 <= v < n ==> (has_edge(self.adjacency.deep_view(), u, v)
                            <==> u < v && ((u < i && nodes_conflict(
                            self.nodes[u].access@,
                            self.nodes[v].access@,
                        )) || (u == i && v < j && nodes_conflict(
                            self.nodes[u].access@,
                            self.nodes[v].access@,
                        )))),
                    forall|u: int, k: int|
                        0 <= u < n && 0 <= k < self.adjacency[u].len() ==> u
                            < #[trigger] self.adjacency[u]@[k] < n,
                decreases n - j,
            {
                if self.has_conflict(&self.nodes[i], &self.nodes[j]) {
                    let ghost adj0 = self.adjacency.deep_view();
                    proof {
                        lemma_deep_view(&self.adjacency);
                    }
                    self.add_edge(i, j);
                    proof {
                        lemma_deep_view(&self.adjacency);
                        let adj1 = self.adjacency.deep_view();
                        assert(adj1[i as int] == adj0[i as int].push(j));
                        assert forall|u: int, v: int|
                            0 <= u < n && 0 <= v < n implies (#[trigger] has_edge(adj1, u, v) <==> (
                            has_edge(adj0, u, v) || (u == i && v == j))) by {
                            lemma_has_edge_push(adj0, i as int, j, u, v);
                        }
                        assert forall|u: int, k: int|
                            0 <= u < n && 0 <= k < self.adjacency[u].len() implies u
                                < #[trigger] self.adjacency[u]@[k] < n by {
                            if u == i && k == adj0[u].len() {
                                assert(adj1[u][k] == j);
                            } else {
                                assert(adj1[u][k] == adj0[u][k]);
                            }
                        }
                    }
                } else {
                    proof {
                        let adj = self.adjacency.deep_view();
                        assert(!has_edge(adj, i as int, j as int));
                    }
                }
                j += 1;
            }
            i += 1;
        }
        proof {
            lemma_deep_view(&self.adjacency);
            let adj = self.adjacency.deep_view();
            assert forall|u: int| 0 <= u < n implies #[trigger] self.accesses()[u] == self.nodes[u].access@ by {}
            assert forall|u: int, k: int|
                0 <= u < adj.len() && 0 <= k < adj[u].len() implies u <= #[trigger] adj[u][k] < adj.len() by {
                assert(adj[u][k] == self.adjacency[u]@[k]);
            }
        }
    }

    /// Orders the systems: conflicting systems run one after another, in the order in which
    /// they were added; the others are grouped into sets that may run at the same time.
    pub fn sort(&mut self) -> (schedule: Schedule)
        requires
            old(self).fresh(),
        ensures
            final(self).accesses() == old(self).accesses(),
            final(self).edges().len() == old(self).accesses().len(),
            (forall|u: int| 0 <= u < final(self).edges().len() ==> #[trigger] final(self).edges()[u].len()
                == 0) ==> final(self).fresh(),
            layered(final(self).edges(), schedule.sets.deep_view()),
            forall|k: int, j: int|
                0 <= k < schedule.sets.len() && 0 <= j < schedule.sets[k].len() ==> #[trigger] schedule.sets[k][j]
                    < old(self).accesses().len(),
            total_len(schedule.sets.deep_view()) == old(self).accesses().len(),
            schedule.sets.len() > 0 ==> forall|a: int, b: int|
                0 <= a < b < schedule.sets[0].len() ==> #[trigger] schedule.sets[0][a]
                    < #[trigger] schedule.sets[0][b],
            forall|k: int| 0 <= k < schedule.sets.len() ==> #[trigger] schedule.sets[k].len() > 0,
            forall|u: int, v: int|
                #![trigger has_edge(final(self).edges(), u, v)]
                0 <= u < old(self).accesses().len() && 0 <= v < old(self).accesses().len() ==> (
                has_edge(final(self).edges(), u, v) <==> u < v && nodes_conflict(
                    old(self).accesses()[u],
                    old(self).accesses()[v],
                )),
            forall|v: int|
                0 <= v < old(self).accesses().len() ==> #[trigger] layer_of(final(self).edges(), v)
                    is Some && exists|k: int|
                    0 <= k < schedule.sets.len() && #[trigger] listed(schedule.sets[k]@, v),
            forall|u: int, v: int|
                0 <= u < v < old(self).accesses().len() && #[trigger] nodes_conflict(
                    old(self).accesses()[u],
                    old(self).accesses()[v],
                ) ==> exists|ku: int, kv: int|
                    0 <= ku < kv < schedule.sets.len() && #[trigger] listed(schedule.sets[ku]@, u)
                        && #[trigger] listed(schedule.sets[kv]@, v),
    {
        self.build_dependencies();
        let layers = layer_nodes(&self.adjacency, &mut self.in_degrees);
        proof {
            let adj = self.edges();
            lemma_deep_view(&layers);
            lemma_deep_view(&self.adjacency);
            let lv = layers.deep_view();
            assert(self.accesses() =~= old(self).accesses());
            assert(adj.len() == self.accesses().len());
            assert forall|v: int| 0 <= v < old(self).accesses().len() implies #[trigger] layer_of(
                self.edges(),
                v,
            ) is Some && exists|k: int|
                0 <= k < layers.len() && #[trigger] listed(layers[k]@, v) by {
                lemma_all_placed(adj, v as nat);
                let k = layer_of(adj, v).unwrap() as int;
                assert(listed(lv[k], v));
                assert(listed(layers[k]@, v));
            }
            assert forall|u: int, v: int|
                0 <= u < v < adj.len() && #[trigger] nodes_conflict(
                    self.accesses()[u],
                    self.accesses()[v],
                ) implies exists|ku: int, kv: int|
                0 <= ku < kv < layers.len() && #[trigger] listed(layers[ku]@, u)
                    && #[trigger] listed(layers[kv]@, v) by {
                lemma_all_placed(adj, u as nat);
                lemma_all_placed(adj, v as nat);
                assert(has_edge(adj, u, v));
                lemma_edge_raises_layer(adj, u, v);
                let ku = layer_of(adj, u).unwrap() as int;
                let kv = layer_of(adj, v).unwrap() as int;
                assert(listed(lv[ku], u));
                assert(listed(lv[kv], v));
            }
            assert(total_len(lv) == adj.len()) by {
                assert forall|v: int| 0 <= v < adj.len() implies #[trigger] layer_of(adj, v) is Some by {
                    lemma_all_placed(adj, v as nat);
                }
                lemma_layers_cover(adj, lv);
            }
            assert(forall|k: int, j: int|
                0 <= k < layers.len() && 0 <= j < layers[k].len() ==> #[trigger] layers[k][j]
                < adj.len()) by {
                assert forall|k: int, j: int|
                    0 <= k < layers.len() && 0 <= j < layers[k].len() implies #[trigger] layers[k][j]
                    < adj.len() by {
                    assert(lv[k][j] == layers[k]@[j]);
                }
            }
        }
        proof {
            lemma_deep_view(&self.adjacency);
            assert((forall|u: int| 0 <= u < self.edges().len() ==> #[trigger] self.edges()[u].len() == 0)
                ==> self.fresh()) by {
                if forall|u: int| 0 <= u < self.edges().len() ==> #[trigger] self.edges()[u].len() == 0 {
                    assert forall|u: int| 0 <= u < self.adjacency.len() implies #[trigger] self.adjacency[u].len()
                        == 0 by {
                        assert(self.edges()[u] == self.adjacency[u]@);
                    }
                }
            }
        }
        Schedule { sets: layers }
    }
}

/// Pushing `to` onto the list of `from` adds one pending edge into `to`.
pub(crate) proof fn lemma_pending_push(adj: Seq<Seq<usize>>, from: int, to: usize, v: int, m: int)
    requires
        0 <= from < adj.len(),
        m <= adj.len(),
    ensures
        pending_in(adj.update(from, adj[from].push(to)), Set::empty(), v, m) == pending_in(
            adj,
            Set::empty(),
            v,
            m,
        ) + if from < m && to as int == v { 1nat } else { 0nat },
    decreases m,
{
    if m > 0 {
        lemma_pending_push(adj, from, to, v, m - 1);
        let adj1 = adj.update(from, adj[from].push(to));
        if m - 1 == from {
            assert(adj1[from].drop_last() =~= adj[from]);
        } else {
            assert(adj1[m - 1] == adj[m - 1]);
        }
    }
}

pub(crate) proof fn lemma_pending_no_edges(adj: Seq<Seq<usize>>, v: int, m: int)
    requires
        m <= adj.len(),
        forall|u: int| 0 <= u < adj.len() ==> #[trigger] adj[u].len() == 0,
    ensures
        pending_in(adj, Set::empty(), v, m) == 0,
    decreases m,
{
    if m > 0 {
        lemma_pending_no_edges(adj, v, m - 1);
    }
}

pub(crate) proof fn lemma_has_edge_push(adj: Seq<Seq<usize>>, from: int, to: usize, u: int, v: int)
    requires
        0 <= from < adj.len(),
    ensures
        has_edge(adj.update(from, adj[from].push(to)), u, v) <==> (has_edge(adj, u, v) || (u
            == from && to as int == v)),
{
    let adj1 = adj.update(from, adj[from].push(to));
    if has_edge(adj, u, v) {
        let j = choose|j: int| 0 <= j < adj[u].len() && adj[u][j] as int == v;
        assert(adj1[u][j] as int == v);
    }
    if u == from && to as int == v {
        assert(adj1[u][adj[from].len() as int] as int == v);
    }
    if has_edge(adj1, u, v) && u != from {
        let j = choose|j: int| 0 <= j < adj1[u].len() && adj1[u][j] as int == v;
        assert(adj[u][j] as int == v);
    }
    if has_edge(adj1, u, v) && u == from && to as int != v {
        let j = choose|j: int| 0 <= j < adj1[u].len() && adj1[u][j] as int == v;
        assert(adj[u][j] as int == v);
    }
}

} // verus!
