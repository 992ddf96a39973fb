//! The scheduler's dependency graph.
//!
//! Systems are added in order. A system that writes something runs after the last earlier
//! writer of it and after every earlier reader of it (or, when there is none, after every
//! earlier reader of the whole world); a system that reads something runs after its last
//! earlier writer, and a reader of the whole world after the last writer of everything.

use vstd::prelude::*;

use crate::component::ComponentId;
use crate::layering::{
    degrees_match, forward_edges, has_edge, layer_nodes, layer_of, layered, lemma_deep_view,
    lemma_edge_raises_layer, listed, pending_in,
};
use crate::resource::ResourceId;
use crate::system::SystemId;

verus! {

/// What a system accesses.
#[derive(Debug, Copy, Clone)]
pub enum AccessType {
    Nothing,
    Entity,
    World,
    Component(ComponentId),
    Resource(ResourceId),
}

/// One access of a system: what it touches and whether it needs exclusive access.
#[derive(Debug, Copy, Clone)]
pub struct AccessDesc {
    pub ty: AccessType,
    pub exclusive: bool,
}

impl AccessType {
    /// Compares two access types.
    pub fn same(&self, other: &AccessType) -> (r: bool)
        ensures
            r == (*self == *other),
    {
        match (self, other) {
            (AccessType::Nothing, AccessType::Nothing) => true,
            (AccessType::Entity, AccessType::Entity) => true,
            (AccessType::World, AccessType::World) => true,
            (AccessType::Component(a), AccessType::Component(b)) => a.0 == b.0,
            (AccessType::Resource(a), AccessType::Resource(b)) => a.same(b),
            _ => false,
        }
    }

    /// Whether this is the access to the whole world.
    pub fn is_world(&self) -> (r: bool)
        ensures
            r == (*self == AccessType::World),
    {
        match self {
            AccessType::World => true,
            _ => false,
        }
    }
}

/// Two accesses conflict when they touch the same thing, or either touches the whole world,
/// and one of them is exclusive.
pub open spec fn accesses_conflict(a: AccessDesc, b: AccessDesc) -> bool {
    (a.ty == b.ty || a.ty == AccessType::World || b.ty == AccessType::World) && (a.exclusive
        || b.exclusive)
}

impl AccessDesc {
    /// Whether the two accesses conflict. `World` conflicts with everything, on either side.
    pub fn has_conflict(&self, other: &AccessDesc) -> (r: bool)
        ensures
            r == accesses_conflict(*self, *other),
    {
        let conflict_ty = self.ty.same(&other.ty) || self.ty.is_world() || other.ty.is_world();
        conflict_ty && (self.exclusive || other.exclusive)
    }
}

/// Conflict between accesses does not depend on the order in which they are compared.
pub proof fn lemma_conflict_symmetric(a: AccessDesc, b: AccessDesc)
    ensures
        accesses_conflict(a, b) == accesses_conflict(b, a),
{
}

/// A system in the graph, with what it accesses.
pub struct GraphNode {
    pub sid: SystemId,
    pub access: Vec<AccessDesc>,
}

/// The node of the last exclusive access to `t` before access `k` of node `i`.
pub open spec fn last_writer(accs: Seq<Seq<AccessDesc>>, t: AccessType, i: nat, k: nat) -> Option<
    nat,
>
    decreases i, k,
{
    if k > 0 {
        if k <= accs[i as int].len() && accs[i as int][k - 1].exclusive && accs[i as int][k
            - 1].ty == t {
            Some(i)
        } else {
            last_writer(accs, t, i, (k - 1) as nat)
        }
    } else if i > 0 {
        last_writer(accs, t, (i - 1) as nat, accs[i - 1].len())
    } else {
        None
    }
}

/// Whether node `u` reads `t` (without exclusivity) before access `k` of node `i`.
pub open spec fn read_before(accs: Seq<Seq<AccessDesc>>, t: AccessType, u: int, i: int, k: int) -> bool {
    0 <= u < accs.len() && exists|q: int|
        0 <= q < accs[u].len() && (u < i || (u == i && q < k)) && !(#[trigger] accs[u][q]).exclusive
            && accs[u][q].ty == t
}

/// Whether anything reads `t` before access `k` of node `i`.
pub open spec fn any_reader(accs: Seq<Seq<AccessDesc>>, t: AccessType, i: int, k: int) -> bool {
    exists|u: int| #[trigger] read_before(accs, t, u, i, k)
}

/// Whether access `k` of node `v` makes `v` depend on `u`.
pub open spec fn edge_at(accs: Seq<Seq<AccessDesc>>, u: int, v: int, k: int) -> bool {
    let a = accs[v][k];
    if a.exclusive {
        ||| last_writer(accs, a.ty, v as nat, k as nat) == Some(u as nat) && u >= 0
        ||| if any_reader(accs, a.ty, v, k) {
            read_before(accs, a.ty, u, v, k)
        } else {
            read_before(accs, AccessType::World, u, v, k)
        }
    } else if a.ty == AccessType::World {
        u >= 0 && exists|t: AccessType| #[trigger] last_writer(accs, t, v as nat, k as nat) == Some(u as nat)
    } else {
        last_writer(accs, a.ty, v as nat, k as nat) == Some(u as nat) && u >= 0
    }
}

/// Whether some access of `v` before access `k` of node `i` makes `v` depend on `u`.
pub open spec fn dep_before(accs: Seq<Seq<AccessDesc>>, u: int, v: int, i: int, k: int) -> bool {
    0 <= v < accs.len() && exists|kk: int|
        0 <= kk < accs[v].len() && (v < i || (v == i && kk < k)) && #[trigger] edge_at(
            accs,
            u,
            v,
            kk,
        )
}

/// Whether system `v` depends on system `u`.
pub open spec fn depends_on(accs: Seq<Seq<AccessDesc>>, u: int, v: int) -> bool {
    dep_before(accs, u, v, accs.len() as int, 0)
}

/// The writers table: each access type with a writer so far, and its last writer.
pub open spec fn writers_ok(
    accs: Seq<Seq<AccessDesc>>,
    lw: Seq<(AccessType, usize)>,
    i: int,
    k: int,
) -> bool {
    &&& forall|a: int, b: int|
        0 <= a < lw.len() && 0 <= b < lw.len() && a != b ==> #[trigger] lw[a].0 != #[trigger] lw[b].0
    &&& forall|a: int|
        0 <= a < lw.len() ==> last_writer(accs, (#[trigger] lw[a]).0, i as nat, k as nat) == Some(
            lw[a].1 as nat,
        )
    &&& forall|t: AccessType|
        #[trigger] last_writer(accs, t, i as nat, k as nat) is Some ==> exists|a: int|
            0 <= a < lw.len() && (#[trigger] lw[a]).0 == t
}

/// The readers table: each access type read so far, and every node that read it.
pub open spec fn readers_ok(
    accs: Seq<Seq<AccessDesc>>,
    rd: Seq<(AccessType, Vec<usize>)>,
    i: int,
    k: int,
) -> bool {
    &&& forall|a: int, b: int|
        0 <= a < rd.len() && 0 <= b < rd.len() && a != b ==> #[trigger] rd[a].0 != #[trigger] rd[b].0
    &&& forall|a: int, u: int|
        0 <= a < rd.len() ==> (#[trigger] listed(rd[a].1@, u) <==> read_before(
            accs,
            rd[a].0,
            u,
            i,
            k,
        ))
    &&& forall|a: int| 0 <= a < rd.len() ==> (#[trigger] rd[a]).1.len() > 0
    &&& forall|t: AccessType|
        #[trigger] any_reader(accs, t, i, k) ==> exists|a: int|
            0 <= a < rd.len() && (#[trigger] rd[a]).0 == t
}

proof fn lemma_last_writer_le(accs: Seq<Seq<AccessDesc>>, t: AccessType, i: nat, k: nat)
    ensures
        last_writer(accs, t, i, k) matches Some(u) ==> u <= i,
    decreases i, k,
{
    if k > 0 {
        lemma_last_writer_le(accs, t, i, (k - 1) as nat);
    } else if i > 0 {
        lemma_last_writer_le(accs, t, (i - 1) as nat, accs[i - 1].len());
    }
}

proof fn lemma_read_step(accs: Seq<Seq<AccessDesc>>, t: AccessType, u: int, i: int, k: int)
    requires
        0 <= i < accs.len(),
        0 <= k < accs[i].len(),
    ensures
        read_before(accs, t, u, i, k + 1) <==> (read_before(accs, t, u, i, k) || (u == i
            && !accs[i][k].exclusive && accs[i][k].ty == t)),
{
    if read_before(accs, t, u, i, k + 1) && !read_before(accs, t, u, i, k) {
        let q = choose|q: int|
            0 <= q < accs[u].len() && (u < i || (u == i && q < k + 1)) && !(
            #[trigger] accs[u][q]).exclusive && accs[u][q].ty == t;
        assert(u == i && q == k);
    }
    if u == i && !accs[i][k].exclusive && accs[i][k].ty == t {
        assert(!accs[u][k].exclusive);
    }
}

proof fn lemma_read_next(accs: Seq<Seq<AccessDesc>>, t: AccessType, u: int, i: int)
    requires
        0 <= i < accs.len(),
    ensures
        read_before(accs, t, u, i + 1, 0) <==> read_before(accs, t, u, i, accs[i].len() as int),
{
    if read_before(accs, t, u, i + 1, 0) {
        let q = choose|q: int|
            0 <= q < accs[u].len() && (u < i + 1 || (u == i + 1 && q < 0)) && !(
            #[trigger] accs[u][q]).exclusive && accs[u][q].ty == t;
    }
    if read_before(accs, t, u, i, accs[i].len() as int) {
        let q = choose|q: int|
            0 <= q < accs[u].len() && (u < i || (u == i && q < accs[i].len())) && !(
            #[trigger] accs[u][q]).exclusive && accs[u][q].ty == t;
    }
}

proof fn lemma_dep_step(accs: Seq<Seq<AccessDesc>>, u: int, v: int, i: int, k: int)
    requires
        0 <= i < accs.len(),
        0 <= k < accs[i].len(),
    ensures
        dep_before(accs, u, v, i, k + 1) <==> (dep_before(accs, u, v, i, k) || (v == i
            && edge_at(accs, u, i, k))),
{
    if dep_before(accs, u, v, i, k + 1) && !dep_before(accs, u, v, i, k) {
        let kk = choose|kk: int|
            0 <= kk < accs[v].len() && (v < i || (v == i && kk < k + 1)) && #[trigger] edge_at(
                accs,
                u,
                v,
                kk,
            );
        assert(v == i && kk == k);
    }
}

proof fn lemma_dep_next(accs: Seq<Seq<AccessDesc>>, u: int, v: int, i: int)
    requires
        0 <= i < accs.len(),
    ensures
        dep_before(accs, u, v, i + 1, 0) <==> dep_before(accs, u, v, i, accs[i].len() as int),
{
    if dep_before(accs, u, v, i + 1, 0) {
        let kk = choose|kk: int|
            0 <= kk < accs[v].len() && (v < i + 1 || (v == i + 1 && kk < 0)) && #[trigger] edge_at(
                accs,
                u,
                v,
                kk,
            );
    }
    if dep_before(accs, u, v, i, accs[i].len() as int) {
        let kk = choose|kk: int|
            0 <= kk < accs[v].len() && (v < i || (v == i && kk < accs[i].len())) && #[trigger] edge_at(
                accs,
                u,
                v,
                kk,
            );
    }
}

fn find_writer(lw: &Vec<(AccessType, usize)>, t: &AccessType) -> (r: Option<usize>)
    ensures
        r matches Some(j) ==> j < lw.len() && lw[j as int].0 == *t,
        r is None ==> forall|j: int| 0 <= j < lw.len() ==> (#[trigger] lw[j]).0 != *t,
{
    let mut j: usize = 0;
    while j < lw.len()
        invariant
            j <= lw.len(),
            forall|j2: int| 0 <= j2 < j ==> (#[trigger] lw[j2]).0 != *t,
        decreases lw.len() - j,
    {
        if lw[j].0.same(t) {
            return Some(j);
        }
        j += 1;
    }
    None
}

fn find_readers(rd: &Vec<(AccessType, Vec<usize>)>, t: &AccessType) -> (r: Option<usize>)
    ensures
        r matches Some(j) ==> j < rd.len() && rd[j as int].0 == *t,
        r is None ==> forall|j: int| 0 <= j < rd.len() ==> (#[trigger] rd[j]).0 != *t,
{
    let mut j: usize = 0;
    while j < rd.len()
        invariant
            j <= rd.len(),
            forall|j2: int| 0 <= j2 < j ==> (#[trigger] rd[j2]).0 != *t,
        decreases rd.len() - j,
    {
        if rd[j].0.same(t) {
            return Some(j);
        }
        j += 1;
    }
    None
}

/// How many times `t` is read (without exclusivity) before access `k` of node `i`.
pub open spec fn reads(accs: Seq<Seq<AccessDesc>>, t: AccessType, i: nat, k: nat) -> nat
    decreases i, k,
{
    if k > 0 {
        let here: nat = if i < accs.len() && k <= accs[i as int].len() && !accs[i as int][k
            - 1].exclusive && accs[i as int][k - 1].ty == t {
            1
        } else {
            0
        };
        reads(accs, t, i, (k - 1) as nat) + here
    } else if i > 0 {
        reads(accs, t, (i - 1) as nat, accs[i - 1].len())
    } else {
        0
    }
}

/// The access types written before access `k` of node `i`, each once, in the order of their
/// first exclusive access.
pub open spec fn written_types(accs: Seq<Seq<AccessDesc>>, i: nat, k: nat) -> Seq<AccessType>
    decreases i, k,
{
    if k > 0 {
        let prev = written_types(accs, i, (k - 1) as nat);
        if k <= accs[i as int].len() && accs[i as int][k - 1].exclusive && !prev.contains(
            accs[i as int][k - 1].ty,
        ) {
            prev.push(accs[i as int][k - 1].ty)
        } else {
            prev
        }
    } else if i > 0 {
        written_types(accs, (i - 1) as nat, accs[i - 1].len())
    } else {
        Seq::empty()
    }
}

/// How many edges into node `i` access `k` adds, repeats included: one from the last writer
/// of what it touches, and for a write one from each earlier read of it (or of the whole
/// world, where it has none); a read of the whole world follows the last writer of every type.
pub open spec fn added(accs: Seq<Seq<AccessDesc>>, i: int, k: int) -> nat {
    let a = accs[i][k];
    let from_writer: nat = if last_writer(accs, a.ty, i as nat, k as nat) is Some {
        1
    } else {
        0
    };
    if a.exclusive {
        from_writer + if any_reader(accs, a.ty, i, k) {
            reads(accs, a.ty, i as nat, k as nat)
        } else if any_reader(accs, AccessType::World, i, k) {
            reads(accs, AccessType::World, i as nat, k as nat)
        } else {
            0
        }
    } else if a.ty == AccessType::World {
        written_types(accs, i as nat, k as nat).len()
    } else {
        from_writer
    }
}

/// How many edges into node `v` its first `k` accesses add.
pub open spec fn added_upto(accs: Seq<Seq<AccessDesc>>, v: int, k: int) -> nat
    decreases k,
{
    if k <= 0 {
        0
    } else {
        added_upto(accs, v, k - 1) + added(accs, v, k - 1)
    }
}

/// How many edges lead into node `v` once every dependency is recorded, repeats included: the
/// in-degree that the sort counts down.
pub open spec fn incoming(accs: Seq<Seq<AccessDesc>>, v: int) -> nat {
    added_upto(accs, v, accs[v].len() as int)
}

proof fn lemma_written_contains(accs: Seq<Seq<AccessDesc>>, t: AccessType, i: nat, k: nat)
    ensures
        written_types(accs, i, k).contains(t) <==> last_writer(accs, t, i, k) is Some,
    decreases i, k,
{
    if k > 0 {
        lemma_written_contains(accs, t, i, (k - 1) as nat);
        let prev = written_types(accs, i, (k - 1) as nat);
        if k <= accs[i as int].len() && accs[i as int][k - 1].exclusive {
            let ty = accs[i as int][k - 1].ty;
            if !prev.contains(ty) {
                assert(prev.push(ty)[prev.len() as int] == ty);
                if prev.push(ty).contains(t) {
                    let j = choose|j: int| 0 <= j < prev.push(ty).len() && prev.push(ty)[j] == t;
                    if j < prev.len() {
                        assert(prev[j] == t);
                    }
                }
                if prev.contains(t) {
                    let j = choose|j: int| 0 <= j < prev.len() && prev[j] == t;
                    assert(prev.push(ty)[j] == t);
                }
            }
        }
    } else if i > 0 {
        lemma_written_contains(accs, t, (i - 1) as nat, accs[i - 1].len());
    }
}

proof fn lemma_reads_positive(accs: Seq<Seq<AccessDesc>>, t: AccessType, i: nat, k: nat)
    ensures
        reads(accs, t, i, k) > 0 ==> any_reader(accs, t, i as int, k as int),
    decreases i, k,
{
    if k > 0 {
        lemma_reads_positive(accs, t, i, (k - 1) as nat);
        if i < accs.len() && k <= accs[i as int].len() && !accs[i as int][k - 1].exclusive
            && accs[i as int][k - 1].ty == t {
            assert(read_before(accs, t, i as int, i as int, k as int));
        } else if reads(accs, t, i, k) > 0 {
            let u = choose|u: int| #[trigger] read_before(accs, t, u, i as int, k - 1);
            assert(read_before(accs, t, u, i as int, k as int));
        }
    } else if i > 0 {
        lemma_reads_positive(accs, t, (i - 1) as nat, accs[i - 1].len());
        if reads(accs, t, i, k) > 0 {
            let u = choose|u: int|
                #[trigger] read_before(accs, t, u, i - 1, accs[i - 1].len() as int);
            assert(read_before(accs, t, u, i as int, 0));
        }
    }
}

proof fn lemma_added_upto_le(accs: Seq<Seq<AccessDesc>>, v: int, a: int, b: int)
    requires
        a <= b,
    ensures
        added_upto(accs, v, a) <= added_upto(accs, v, b),
    decreases b - a,
{
    if a < b {
        lemma_added_upto_le(accs, v, a, b - 1);
    }
}

/// A system runs in a later set than every other system that it depends on.
pub proof fn lemma_dependencies_run_earlier(
    accs: Seq<Seq<AccessDesc>>,
    edges: Seq<Seq<usize>>,
    layers: Seq<Seq<usize>>,
    u: int,
    v: int,
    ku: int,
    kv: int,
)
    requires
        forward_edges(edges),
        layered(edges, layers),
        forall|a: int, b: int| #[trigger] has_edge(edges, a, b) <==> depends_on(accs, a, b),
        depends_on(accs, u, v),
        u != v,
        0 <= ku < layers.len(),
        0 <= kv < layers.len(),
        listed(layers[ku], u),
        listed(layers[kv], v),
    ensures
        ku < kv,
{
    assert(has_edge(edges, u, v));
    crate::layering::lemma_layers_respect_edges(edges, layers, u, v, ku, kv);
}

/// The dependency graph of a set of systems.
pub struct ScheduleGraph {
    nodes: Vec<GraphNode>,
    adjacency: Vec<Vec<usize>>,
    in_degrees: Vec<usize>,
}

/// The sets of systems that run one after another; the systems of one set may run at the
/// same time.
pub struct Schedule {
    pub sets: Vec<Vec<SystemId>>,
    /// The node indices behind `sets`.
    pub layers: Ghost<Seq<Seq<usize>>>,
}

impl ScheduleGraph {
    /// The access lists of the nodes.
    pub closed spec fn accesses(&self) -> Seq<Seq<AccessDesc>> {
        Seq::new(self.nodes.len() as nat, |i: int| self.nodes[i].access@)
    }

    /// The system ids of the nodes.
    pub closed spec fn ids(&self) -> Seq<SystemId> {
        Seq::new(self.nodes.len() as nat, |i: int| self.nodes[i].sid)
    }

    /// The edges, as adjacency lists.
    pub closed spec fn edges(&self) -> Seq<Seq<usize>> {
        self.adjacency.deep_view()
    }

    /// The graph has nodes and no edges yet.
    pub closed spec fn fresh(&self) -> bool {
        &&& self.adjacency.len() == self.nodes.len()
        &&& self.in_degrees.len() == self.nodes.len()
        &&& forall|i: int| 0 <= i < self.adjacency.len() ==> #[trigger] self.adjacency[i].len() == 0
        &&& forall|i: int| 0 <= i < self.in_degrees.len() ==> #[trigger] self.in_degrees[i] == 0
    }

    /// Creates an empty graph.
    pub fn new() -> (r: ScheduleGraph)
        ensures
            r.fresh(),
            r.accesses() == Seq::<Seq<AccessDesc>>::empty(),
            r.edges() == Seq::<Seq<usize>>::empty(),
    {
        let r = ScheduleGraph { nodes: Vec::new(), adjacency: Vec::new(), in_degrees: Vec::new() };
        assert(r.accesses() =~= Seq::<Seq<AccessDesc>>::empty());
        assert(r.adjacency.deep_view() =~= Seq::<Seq<usize>>::empty());
        r
    }

    /// Adds a system to the graph.
    pub fn add_node(&mut self, node: GraphNode)
        ensures
            old(self).fresh() ==> final(self).fresh(),
            final(self).accesses() == old(self).accesses().push(node.access@),
            final(self).ids() == old(self).ids().push(node.sid),
            final(self).edges() == old(self).edges().push(Seq::<usize>::empty()),
    {
        let ghost acc = node.access@;
        let ghost sid = node.sid;
        self.nodes.push(node);
        self.adjacency.push(Vec::new());
        self.in_degrees.push(0);
        assert(self.accesses() =~= old(self).accesses().push(acc));
        assert(self.ids() =~= old(self).ids().push(sid));
        proof {
            lemma_deep_view(&self.adjacency);
            lemma_deep_view(&old(self).adjacency);
            assert(self.adjacency.deep_view() =~= old(self).adjacency.deep_view().push(
                Seq::<usize>::empty(),
            ));
        }
    }

    spec fn shape_ok(&self) -> bool {
        &&& self.adjacency.len() == self.nodes.len()
        &&& self.in_degrees.len() == self.nodes.len()
        &&& forward_edges(self.adjacency.deep_view())
        &&& degrees_match(self.adjacency.deep_view(), self.in_degrees@)
    }

    fn add_edge(&mut self, from: usize, to: usize)
        requires
            old(self).shape_ok(),
            from <= to < old(self).nodes.len(),
            old(self).in_degrees[to as int] < usize::MAX,
        ensures
            final(self).shape_ok(),
            final(self).nodes == old(self).nodes,
            final(self).in_degrees[to as int] == old(self).in_degrees[to as int] + 1,
            forall|v: int|
                0 <= v < final(self).in_degrees.len() && v != to ==> #[trigger] final(self).in_degrees[v]
                    == old(self).in_degrees[v],
            forall|u: int, v: int|
                #[trigger] has_edge(final(self).adjacency.deep_view(), u, v) <==> (has_edge(
                    old(self).adjacency.deep_view(),
                    u,
                    v,
                ) || (u == from && v == to)),
    {
        let ghost adj0 = self.adjacency.deep_view();
        let ghost a0 = self.adjacency@;
        proof {
            lemma_deep_view(&self.adjacency);
        }
        self.adjacency[from].push(to);
        self.in_degrees[to] = self.in_degrees[to] + 1;
        proof {
            lemma_deep_view(&self.adjacency);
            let adj1 = self.adjacency.deep_view();
            assert forall|u: int| 0 <= u < adj1.len() implies #[trigger] adj1[u] == adj0.update(
                from as int,
                adj0[from as int].push(to),
            )[u] by {
                if u != from {
                    assert(self.adjacency@[u] == a0[u]);
                }
            }
            assert(adj1 =~= adj0.update(from as int, adj0[from as int].push(to)));
            assert forall|v: int| 0 <= v < self.in_degrees.len() implies #[trigger] self.in_degrees[v]
                as int == pending_in(adj1, Set::empty(), v, adj1.len() as int) by {
                crate::graph::lemma_pending_push(adj0, from as int, to, v, adj0.len() as int);
            }
            assert forall|u: int, v: int| #[trigger] has_edge(adj1, u, v) <==> (has_edge(adj0, u, v)
                || (u == from && v == to)) by {
                crate::graph::lemma_has_edge_push(adj0, from as int, to, u, v);
            }
            assert forall|u: int, j: int|
                0 <= u < adj1.len() && 0 <= j < adj1[u].len() implies u <= #[trigger] adj1[u][j]
                < adj1.len() by {
                if u == from && j == adj0[u].len() {
                } else {
                    assert(adj1[u][j] == adj0[u][j]);
                }
            }
        }
    }


    /// Everything that holds between two accesses while the dependencies are built.
    spec fn building(
        &self,
        accs: Seq<Seq<AccessDesc>>,
        lw: Seq<(AccessType, usize)>,
        rd: Seq<(AccessType, Vec<usize>)>,
        i: int,
        k: int,
    ) -> bool {
        &&& self.shape_ok()
        &&& accs == self.accesses()
        &&& 0 <= i <= accs.len()
        &&& 0 <= k && (i < accs.len() ==> k <= accs[i].len()) && (i == accs.len() ==> k == 0)
        &&& writers_ok(accs, lw, i, k)
        &&& readers_ok(accs, rd, i, k)
        &&& forall|u: int, v: int|
            #[trigger] has_edge(self.adjacency.deep_view(), u, v) <==> dep_before(accs, u, v, i, k)
        &&& lw.len() == written_types(accs, i as nat, k as nat).len()
        &&& forall|a: int|
            0 <= a < rd.len() ==> (#[trigger] rd[a]).1.len() == reads(accs, rd[a].0, i as nat, k as nat)
        &&& forall|v: int|
            0 <= v < self.in_degrees.len() ==> #[trigger] self.in_degrees[v] <= if v < i {
                incoming(accs, v)
            } else if v == i {
                added_upto(accs, i, k)
            } else {
                0
            }
        &&& forall|a: int| 0 <= a < lw.len() ==> (#[trigger] lw[a]).1 < accs.len()
        &&& forall|a: int, j: int|
            0 <= a < rd.len() && 0 <= j < rd[a].1.len() ==> #[trigger] rd[a].1@[j] <= i && rd[a].1@[j] < accs.len()
    }

    /// Records the dependencies that access `k` of node `i` creates.
    fn process_access(
        &mut self,
        lw: &mut Vec<(AccessType, usize)>,
        rd: &mut Vec<(AccessType, Vec<usize>)>,
        i: usize,
        k: usize,
        Ghost(accs): Ghost<Seq<Seq<AccessDesc>>>,
    )
        requires
            old(self).building(accs, old(lw)@, old(rd)@, i as int, k as int),
            i < accs.len(),
            k < accs[i as int].len(),
            incoming(accs, i as int) <= usize::MAX,
        ensures
            final(self).building(accs, final(lw)@, final(rd)@, i as int, k as int + 1),
            final(self).nodes == old(self).nodes,
    {
        let ghost adj0 = self.adjacency.deep_view();
        let ghost lw0 = lw@;
        let ghost rd0 = rd@;
        let ghost base = added_upto(accs, i as int, k as int);
        proof {
            assert(self.nodes[i as int].access@ == accs[i as int]);
            lemma_added_upto_le(accs, i as int, k as int + 1, accs[i as int].len() as int);
            assert(base + added(accs, i as int, k as int) <= usize::MAX);
            assert(self.in_degrees[i as int] <= base);
        }
        let a = self.nodes[i].access[k];
        assert(a == accs[i as int][k as int]);
        if a.exclusive {
            let w = find_writer(lw, &a.ty);
            if let Some(j) = w {
                let from = lw[j].1;
                proof {
                    lemma_last_writer_le(accs, a.ty, i as nat, k as nat);
                }
                self.add_edge(from, i);
            }
            let ghost from_writer: nat = if last_writer(accs, a.ty, i as nat, k as nat) is Some {
                1
            } else {
                0
            };
            proof {
                if let Some(j) = w {
                    assert(last_writer(accs, lw0[j as int].0, i as nat, k as nat) is Some);
                }
                assert(self.in_degrees[i as int] <= base + from_writer);
            }
            let ghost adj1 = self.adjacency.deep_view();
            let ghost deg1 = self.in_degrees[i as int];
            let r = find_readers(rd, &a.ty);
            let ghost readers_of: AccessType = if r is Some { a.ty } else { AccessType::World };
            match r {
                Some(j) => {
                    proof {
                        assert(rd[j as int].1.len() > 0);
                        assert(listed(rd[j as int].1@, rd[j as int].1@[0] as int));
                        assert(read_before(accs, a.ty, rd[j as int].1@[0] as int, i as int, k as int));
                        assert(any_reader(accs, a.ty, i as int, k as int));
                        assert(rd[j as int].1.len() == reads(accs, a.ty, i as nat, k as nat));
                        assert(added(accs, i as int, k as int) == from_writer + reads(
                            accs,
                            a.ty,
                            i as nat,
                            k as nat,
                        ));
                        assert(base + added(accs, i as int, k as int) <= usize::MAX);
                        assert(self.in_degrees[i as int] <= base + from_writer);
                        assert(self.in_degrees[i as int] + rd[j as int].1.len() <= usize::MAX);
                    }
                    self.add_edges_from(&rd[j].1, i);
                    assert(self.in_degrees[i as int] <= base + added(accs, i as int, k as int));
                },
                None => {
                    proof {
                        if any_reader(accs, a.ty, i as int, k as int) {
                            let aa = choose|aa: int| 0 <= aa < rd.len() && (#[trigger] rd[aa]).0 == a.ty;
                            assert(rd[aa].0 != a.ty);
                        }
                    }
                    let rw = find_readers(rd, &AccessType::World);
                    match rw {
                        Some(j) => {
                            proof {
                                assert(listed(rd[j as int].1@, rd[j as int].1@[0] as int));
                                assert(read_before(
                                    accs,
                                    AccessType::World,
                                    rd[j as int].1@[0] as int,
                                    i as int,
                                    k as int,
                                ));
                                assert(any_reader(accs, AccessType::World, i as int, k as int));
                                assert(added(accs, i as int, k as int) == from_writer + reads(
                                    accs,
                                    AccessType::World,
                                    i as nat,
                                    k as nat,
                                ));
                            }
                            self.add_edges_from(&rd[j].1, i);
                            assert(self.in_degrees[i as int] <= base + added(accs, i as int, k as int));
                        },
                        None => {
                            proof {
                                assert forall|u: int| !read_before(accs, AccessType::World, u, i as int, k as int) by {
                                    if read_before(accs, AccessType::World, u, i as int, k as int) {
                                        assert(any_reader(accs, AccessType::World, i as int, k as int));
                                        let aa = choose|aa: int| 0 <= aa < rd.len() && (#[trigger] rd[aa]).0 == AccessType::World;
                                        assert(rd[aa].0 != AccessType::World);
                                    }
                                }
                                assert(!any_reader(accs, AccessType::World, i as int, k as int));
                                assert(self.in_degrees[i as int] <= base + added(accs, i as int, k as int));
                            }
                        },
                    }
                },
            }
            match w {
                Some(j) => {
                    lw.set(j, (a.ty, i));
                },
                None => {
                    lw.push((a.ty, i));
                },
            }
            proof {
                let adj2 = self.adjacency.deep_view();
                assert forall|u: int| #[trigger] edge_at(accs, u, i as int, k as int) <==> ((w is Some
                    && u == lw0[w.unwrap() as int].1) || read_before(accs, readers_of, u, i as int, k as int)) by {
                    if w is Some {
                        assert(last_writer(accs, a.ty, i as nat, k as nat) == Some(lw0[w.unwrap() as int].1 as nat));
                    } else {
                        if last_writer(accs, a.ty, i as nat, k as nat) is Some {
                            let aa = choose|aa: int| 0 <= aa < lw0.len() && (#[trigger] lw0[aa]).0 == a.ty;
                        }
                    }
                }
                assert forall|u: int, v: int| #[trigger] has_edge(adj2, u, v) <==> dep_before(accs, u, v, i as int, k as int + 1) by {
                    lemma_dep_step(accs, u, v, i as int, k as int);
                }
                assert forall|t: AccessType| #[trigger] last_writer(accs, t, i as nat, (k + 1) as nat) == (if t == a.ty {
                    Some(i as nat) } else { last_writer(accs, t, i as nat, k as nat) }) by {}
                assert forall|t: AccessType, u: int| #[trigger] read_before(accs, t, u, i as int, k as int + 1) == read_before(accs, t, u, i as int, k as int) by {
                    lemma_read_step(accs, t, u, i as int, k as int);
                }
                assert forall|t: AccessType| #[trigger] any_reader(accs, t, i as int, k as int + 1) == any_reader(accs, t, i as int, k as int) by {
                    if any_reader(accs, t, i as int, k as int + 1) {
                        let u = choose|u: int| #[trigger] read_before(accs, t, u, i as int, k as int + 1);
                        assert(read_before(accs, t, u, i as int, k as int));
                    }
                    if any_reader(accs, t, i as int, k as int) {
                        let u = choose|u: int| #[trigger] read_before(accs, t, u, i as int, k as int);
                        assert(read_before(accs, t, u, i as int, k as int + 1));
                    }
                }
                assert(writers_ok(accs, lw@, i as int, k as int + 1)) by {
                    assert forall|t: AccessType| #[trigger] last_writer(accs, t, i as nat, (k + 1) as nat) is Some implies exists|aa: int|
                        0 <= aa < lw.len() && (#[trigger] lw@[aa]).0 == t by {
                        if t == a.ty {
                            if w is Some {
                                assert(lw@[w.unwrap() as int].0 == t);
                            } else {
                                assert(lw@[lw0.len() as int].0 == t);
                            }
                        } else {
                            let aa = choose|aa: int| 0 <= aa < lw0.len() && (#[trigger] lw0[aa]).0 == t;
                            assert(lw@[aa].0 == t);
                        }
                    }
                }
            }
            proof {
                assert forall|t: AccessType| #[trigger] reads(accs, t, i as nat, (k + 1) as nat)
                    == reads(accs, t, i as nat, k as nat) by {}
                lemma_written_contains(accs, a.ty, i as nat, k as nat);
                if w is None && last_writer(accs, a.ty, i as nat, k as nat) is Some {
                    let aa = choose|aa: int| 0 <= aa < lw0.len() && (#[trigger] lw0[aa]).0 == a.ty;
                }
                assert(lw@.len() == written_types(accs, i as nat, (k + 1) as nat).len());
                assert(self.in_degrees[i as int] <= added_upto(accs, i as int, k as int + 1));
            }
        } else {
            if a.ty.is_world() {
                let mut j: usize = 0;
                while j < lw.len()
                    invariant
                        self.shape_ok(),
                        self.nodes == old(self).nodes,
                        lw@ == lw0,
                        i < self.nodes.len(),
                        j <= lw.len(),
                        forall|aa: int| 0 <= aa < lw.len() ==> (#[trigger] lw[aa]).1 < accs.len(),
                        forall|aa: int| 0 <= aa < lw.len() ==> last_writer(accs, (#[trigger] lw[aa]).0, i as nat, k as nat) == Some(lw[aa].1 as nat),
                        self.in_degrees[i as int] <= base + j,
                        base + lw.len() <= usize::MAX,
                        forall|v: int| 0 <= v < self.in_degrees.len() && v != i ==> #[trigger] self.in_degrees[v] == old(self).in_degrees[v],
                        forall|u: int, v: int|
                            #[trigger] has_edge(self.adjacency.deep_view(), u, v) <==> (has_edge(adj0, u, v) || (v == i && exists|aa: int| 0 <= aa < j && (#[trigger] lw@[aa]).1 == u)),
                    decreases lw.len() - j,
                {
                    let from = lw[j].1;
                    proof {
                        lemma_last_writer_le(accs, lw[j as int].0, i as nat, k as nat);
                    }
                    self.add_edge(from, i);
                    proof {
                        assert forall|u: int, v: int|
                            #[trigger] has_edge(self.adjacency.deep_view(), u, v) <==> (has_edge(adj0, u, v) || (v == i && exists|aa: int| 0 <= aa < j + 1 && (#[trigger] lw@[aa]).1 == u)) by {
                            if v == i && u == from {
                                assert(lw@[j as int].1 == u);
                            }
                        }
                    }
                    j += 1;
                }
                proof {
                    assert(self.in_degrees[i as int] <= base + added(accs, i as int, k as int));
                    assert forall|u: int| #[trigger] edge_at(accs, u, i as int, k as int) <==> exists|aa: int| 0 <= aa < lw0.len() && (#[trigger] lw0[aa]).1 == u by {
                        if edge_at(accs, u, i as int, k as int) {
                            let t = choose|t: AccessType| #[trigger] last_writer(accs, t, i as nat, k as nat) == Some(u as nat);
                            let aa = choose|aa: int| 0 <= aa < lw0.len() && (#[trigger] lw0[aa]).0 == t;
                        }
                        if exists|aa: int| 0 <= aa < lw0.len() && (#[trigger] lw0[aa]).1 == u {
                            let aa = choose|aa: int| 0 <= aa < lw0.len() && (#[trigger] lw0[aa]).1 == u;
                            assert(last_writer(accs, lw0[aa].0, i as nat, k as nat) == Some(u as nat));
                        }
                    }
                }
            } else {
                let w = find_writer(lw, &a.ty);
                if let Some(j) = w {
                    let from = lw[j].1;
                    proof {
                        lemma_last_writer_le(accs, a.ty, i as nat, k as nat);
                    }
                    self.add_edge(from, i);
                }
                proof {
                    if let Some(j) = w {
                        assert(last_writer(accs, lw0[j as int].0, i as nat, k as nat) is Some);
                    }
                    assert(self.in_degrees[i as int] <= base + added(accs, i as int, k as int));
                    assert forall|u: int| #[trigger] edge_at(accs, u, i as int, k as int) <==> (w is Some && u == lw0[w.unwrap() as int].1) by {
                        if w is None && last_writer(accs, a.ty, i as nat, k as nat) is Some {
                            let aa = choose|aa: int| 0 <= aa < lw0.len() && (#[trigger] lw0[aa]).0 == a.ty;
                        }
                    }
                }
            }
            let r = find_readers(rd, &a.ty);
            match r {
                Some(j) => {
                    let mut list = Vec::new();
                    std::mem::swap(&mut list, &mut rd[j].1);
                    list.push(i);
                    rd.set(j, (a.ty, list));
                },
                None => {
                    rd.push((a.ty, vec![i]));
                },
            }
            proof {
                let adj2 = self.adjacency.deep_view();
                assert forall|u: int, v: int| #[trigger] has_edge(adj2, u, v) <==> dep_before(accs, u, v, i as int, k as int + 1) by {
                    lemma_dep_step(accs, u, v, i as int, k as int);
                }
                assert forall|t: AccessType| #[trigger] last_writer(accs, t, i as nat, (k + 1) as nat) == last_writer(accs, t, i as nat, k as nat) by {}
                assert forall|t: AccessType, u: int| #[trigger] read_before(accs, t, u, i as int, k as int + 1) == (read_before(accs, t, u, i as int, k as int) || (u == i && t == a.ty)) by {
                    lemma_read_step(accs, t, u, i as int, k as int);
                }
                assert(readers_ok(accs, rd@, i as int, k as int + 1)) by {
                    assert forall|aa: int, u: int| 0 <= aa < rd.len() implies (#[trigger] listed(rd@[aa].1@, u) <==> read_before(accs, rd@[aa].0, u, i as int, k as int + 1)) by {
                        if r is Some && aa == r.unwrap() {
                            crate::layering::lemma_listed_push(rd0[aa].1@, i, u);
                        } else if r is None && aa == rd0.len() {
                            assert(rd@[aa].1@ =~= seq![i]);
                            if listed(rd@[aa].1@, u) {
                                let jj = choose|jj: int| 0 <= jj < rd@[aa].1@.len() && #[trigger] rd@[aa].1@[jj] as int == u;
                            }
                            if u == i {
                                assert(rd@[aa].1@[0] as int == u);
                            }
                            if read_before(accs, a.ty, u, i as int, k as int) {
                                assert(any_reader(accs, a.ty, i as int, k as int));
                                let bb = choose|bb: int| 0 <= bb < rd0.len() && (#[trigger] rd0[bb]).0 == a.ty;
                            }
                        } else {
                            assert(rd@[aa] == rd0[aa]);
                        }
                    }
                    assert forall|t: AccessType| #[trigger] any_reader(accs, t, i as int, k as int + 1) implies exists|aa: int|
                        0 <= aa < rd.len() && (#[trigger] rd@[aa]).0 == t by {
                        let u = choose|u: int| #[trigger] read_before(accs, t, u, i as int, k as int + 1);
                        if t == a.ty {
                            if r is Some {
                                assert(rd@[r.unwrap() as int].0 == t);
                            } else {
                                assert(rd@[rd0.len() as int].0 == t);
                            }
                        } else {
                            assert(read_before(accs, t, u, i as int, k as int));
                            assert(any_reader(accs, t, i as int, k as int));
                            let aa = choose|aa: int| 0 <= aa < rd0.len() && (#[trigger] rd0[aa]).0 == t;
                            assert(rd@[aa].0 == t);
                        }
                    }
                }
                assert forall|t: AccessType| #[trigger] reads(accs, t, i as nat, (k + 1) as nat)
                    == reads(accs, t, i as nat, k as nat) + (if t == a.ty {
                    1nat
                } else {
                    0nat
                }) by {}
                assert(written_types(accs, i as nat, (k + 1) as nat) == written_types(
                    accs,
                    i as nat,
                    k as nat,
                ));
                assert forall|aa: int| 0 <= aa < rd.len() implies (#[trigger] rd@[aa]).1.len()
                    == reads(accs, rd@[aa].0, i as nat, (k + 1) as nat) by {
                    if r is Some && aa == r.unwrap() {
                    } else if r is None && aa == rd0.len() {
                        lemma_reads_positive(accs, a.ty, i as nat, k as nat);
                        if any_reader(accs, a.ty, i as int, k as int) {
                            let bb = choose|bb: int| 0 <= bb < rd0.len() && (#[trigger] rd0[bb]).0 == a.ty;
                        }
                    } else {
                        assert(rd@[aa] == rd0[aa]);
                    }
                }
                assert(self.in_degrees[i as int] <= added_upto(accs, i as int, k as int + 1));
            }
        }
    }

    /// Adds the edges that the accesses of the systems call for (see `depends_on`).
    fn build_dependencies(&mut self)
        requires
            old(self).fresh(),
            forall|v: int|
                0 <= v < old(self).accesses().len() ==> #[trigger] incoming(old(self).accesses(), v)
                    <= usize::MAX,
        ensures
            final(self).shape_ok(),
            final(self).accesses() == old(self).accesses(),
            final(self).nodes == old(self).nodes,
            forall|u: int, v: int|
                #[trigger] has_edge(final(self).adjacency.deep_view(), u, v) <==> depends_on(
                    old(self).accesses(),
                    u,
                    v,
                ),
    {
        let ghost accs = self.accesses();
        // The last writer and the readers of each access type, as lists of pairs with one entry
        // per type.
        let mut writers: Vec<(AccessType, usize)> = Vec::new();
        let mut readers: Vec<(AccessType, Vec<usize>)> = Vec::new();
        let n = self.nodes.len();
        proof {
            lemma_deep_view(&self.adjacency);
            let adj = self.adjacency.deep_view();
            assert forall|u: int| 0 <= u < adj.len() implies #[trigger] adj[u].len() == 0 by {
                assert(old(self).adjacency[u].len() == 0);
            }
            assert forall|u: int, v: int| !#[trigger] has_edge(adj, u, v) by {
                if 0 <= u < adj.len() {
                    assert(adj[u].len() == 0);
                }
            }
            assert forall|v: int| 0 <= v < n implies #[trigger] self.in_degrees[v] as int
                == pending_in(adj, Set::empty(), v, n as int) by {
                crate::graph::lemma_pending_no_edges(adj, v, n as int);
            }
            assert forall|u: int, j: int| 0 <= u < adj.len() && 0 <= j < adj[u].len() implies u
                <= #[trigger] adj[u][j] < adj.len() by {}
            assert forall|u: int, v: int| !#[trigger] dep_before(accs, u, v, 0, 0) by {}
            assert forall|t: AccessType| !(#[trigger] last_writer(accs, t, 0, 0) is Some) by {}
            assert forall|t: AccessType| !#[trigger] any_reader(accs, t, 0, 0) by {
                if any_reader(accs, t, 0, 0) {
                    let u = choose|u: int| #[trigger] read_before(accs, t, u, 0, 0);
                    let q = choose|q: int|
                        0 <= q < accs[u].len() && (u < 0 || (u == 0 && q < 0)) && !(
                        #[trigger] accs[u][q]).exclusive && accs[u][q].ty == t;
                }
            }
        }
        let mut i: usize = 0;
        while i < n
            invariant
                n == self.nodes.len(),
                i <= n,
                self.nodes == old(self).nodes,
                accs == old(self).accesses(),
                forall|v: int| 0 <= v < accs.len() ==> #[trigger] incoming(accs, v) <= usize::MAX,
                self.building(accs, writers@, readers@, i as int, 0),
            decreases n - i,
        {
            let len = self.nodes[i].access.len();
            proof {
                assert(self.nodes[i as int].access@ == accs[i as int]);
            }
            let mut k: usize = 0;
            while k < len
                invariant
                    n == self.nodes.len(),
                    i < n,
                    k <= len,
                    len == accs[i as int].len(),
                    self.nodes == old(self).nodes,
                    accs == old(self).accesses(),
                    incoming(accs, i as int) <= usize::MAX,
                    self.building(accs, writers@, readers@, i as int, k as int),
                decreases len - k,
            {
                self.process_access(&mut writers, &mut readers, i, k, Ghost(accs));
                k += 1;
            }
            proof {
                assert forall|u: int, v: int| #[trigger] dep_before(accs, u, v, i as int + 1, 0)
                    == dep_before(accs, u, v, i as int, len as int) by {
                    lemma_dep_next(accs, u, v, i as int);
                }
                assert forall|t: AccessType, u: int| #[trigger] read_before(
                    accs,
                    t,
                    u,
                    i as int + 1,
                    0,
                ) == read_before(accs, t, u, i as int, len as int) by {
                    lemma_read_next(accs, t, u, i as int);
                }
                assert forall|t: AccessType| #[trigger] any_reader(accs, t, i as int + 1, 0)
                    == any_reader(accs, t, i as int, len as int) by {
                    if any_reader(accs, t, i as int + 1, 0) {
                        let u = choose|u: int| #[trigger] read_before(accs, t, u, i as int + 1, 0);
                        lemma_read_next(accs, t, u, i as int);
                    }
                    if any_reader(accs, t, i as int, len as int) {
                        let u = choose|u: int| #[trigger] read_before(accs, t, u, i as int, len as int);
                        lemma_read_next(accs, t, u, i as int);
                    }
                }
                assert forall|t: AccessType| #[trigger] last_writer(accs, t, (i + 1) as nat, 0)
                    == last_writer(accs, t, i as nat, len as nat) by {}
                assert forall|t: AccessType| #[trigger] reads(accs, t, (i + 1) as nat, 0)
                    == reads(accs, t, i as nat, len as nat) by {}
                assert(written_types(accs, (i + 1) as nat, 0) == written_types(accs, i as nat, len as nat));
            }
            i += 1;
        }
    }

    /// The number of systems in the graph.
    pub fn len(&self) -> (r: usize)
        ensures
            r == self.accesses().len(),
    {
        self.nodes.len()
    }

    /// The system at node `u`.
    pub fn system(&self, u: usize) -> (r: SystemId)
        requires
            u < self.accesses().len(),
        ensures
            r == self.ids()[u as int],
    {
        self.nodes[u].sid
    }

    /// The nodes that run after node `u` because they depend on it.
    pub fn successors(&self, u: usize) -> (r: &Vec<usize>)
        requires
            u < self.edges().len(),
        ensures
            r@ == self.edges()[u as int],
    {
        proof {
            lemma_deep_view(&self.adjacency);
        }
        &self.adjacency[u]
    }

    /// Orders the systems into sets that run one after another: every system runs after the
    /// systems it depends on (see `depends_on`), and the systems of one set may run at the same
    /// time. A system that depends on itself, or on such a system, is left out.
    ///
    /// Each system's count of incoming edges, repeats included (see `incoming`), must fit in a
    /// `usize`.
    pub fn sort(&mut self) -> (schedule: Schedule)
        requires
            old(self).fresh(),
            forall|v: int|
                0 <= v < old(self).accesses().len() ==> #[trigger] incoming(old(self).accesses(), v)
                    <= usize::MAX,
        ensures
            final(self).accesses() == old(self).accesses(),
            final(self).ids() == old(self).ids(),
            final(self).edges().len() == old(self).accesses().len(),
            (forall|u: int| 0 <= u < final(self).edges().len() ==> #[trigger] final(self).edges()[u].len()
                == 0) ==> final(self).fresh(),
            forall|u: int, v: int|
                #[trigger] has_edge(final(self).edges(), u, v) <==> depends_on(
                    old(self).accesses(),
                    u,
                    v,
                ),
            forall|k: int| 0 <= k < schedule.sets.len() ==> #[trigger] schedule.sets[k].len() > 0,
            forward_edges(final(self).edges()),
            layered(final(self).edges(), schedule.layers@),
            schedule.layers@.len() == schedule.sets.len(),
            schedule.layers@.len() > 0 ==> forall|a: int, b: int|
                0 <= a < b < schedule.layers@[0].len() ==> #[trigger] schedule.layers@[0][a]
                    < #[trigger] schedule.layers@[0][b],
            forall|k: int|
                0 <= k < schedule.sets.len() ==> (#[trigger] schedule.layers@[k]).len()
                    == schedule.sets[k].len(),
            forall|k: int, j: int|
                0 <= k < schedule.sets.len() && 0 <= j < schedule.sets[k].len()
                    ==> #[trigger] schedule.sets[k]@[j] == old(self).ids()[schedule.layers@[k][j] as int],
    {
        self.build_dependencies();
        let layers = layer_nodes(&self.adjacency, &mut self.in_degrees);
        let mut sets: Vec<Vec<SystemId>> = Vec::new();
        let mut k: usize = 0;
        proof {
            lemma_deep_view(&layers);
            lemma_deep_view(&self.adjacency);
            let lv = layers.deep_view();
            assert forall|kk: int, j: int|
                0 <= kk < layers.len() && 0 <= j < layers[kk].len() implies #[trigger] layers[kk][j]
                    < self.nodes.len() by {
                assert(lv[kk][j] == layers[kk][j]);
            }
        }
        while k < layers.len()
            invariant
                k <= layers.len(),
                sets.len() == k,
                self.nodes == old(self).nodes,
                forall|kk: int| 0 <= kk < layers.len() ==> #[trigger] layers[kk].len() > 0,
                forall|kk: int, j: int|
                    0 <= kk < layers.len() && 0 <= j < layers[kk].len() ==> #[trigger] layers[kk][j]
                        < self.nodes.len(),
                forall|kk: int| 0 <= kk < k ==> (#[trigger] sets[kk]).len() == layers[kk].len(),
                forall|kk: int, j: int|
                    0 <= kk < k && 0 <= j < layers[kk].len() ==> #[trigger] sets[kk]@[j]
                        == self.nodes[layers[kk][j] as int].sid,
            decreases layers.len() - k,
        {
            let layer = &layers[k];
            let mut ids: Vec<SystemId> = Vec::new();
            let mut j: usize = 0;
            while j < layer.len()
                invariant
                    j <= layer.len(),
                    ids.len() == j,
                    self.nodes == old(self).nodes,
                    forall|j2: int| 0 <= j2 < layer.len() ==> #[trigger] layer[j2] < self.nodes.len(),
                    forall|j2: int| 0 <= j2 < j ==> #[trigger] ids@[j2] == self.nodes[layer[j2] as int].sid,
                decreases layer.len() - j,
            {
                let node = layer[j];
                ids.push(self.nodes[node].sid);
                j += 1;
            }
            sets.push(ids);
            k += 1;
        }
        proof {
            let lv = layers.deep_view();
            assert(self.accesses() =~= old(self).accesses());
            assert(self.ids() =~= old(self).ids());
            assert(lv.len() == sets.len());
            assert forall|kk: int| 0 <= kk < lv.len() implies (#[trigger] lv[kk]).len() == sets[kk].len() by {}
            assert forall|kk: int, j: int|
                0 <= kk < lv.len() && 0 <= j < lv[kk].len() implies #[trigger] sets[kk]@[j]
                    == old(self).ids()[lv[kk][j] as int] by {
                assert(lv[kk][j] == layers[kk][j]);
            }
        }
        proof {
            lemma_deep_view(&self.adjacency);
            assert((forall|u: int| 0 <= u < self.edges().len() ==> #[trigger] self.edges()[u].len() == 0)
                ==> self.fresh()) by {
                if forall|u: int| 0 <= u < self.edges().len() ==> #[trigger] self.edges()[u].len() == 0 {
                    assert forall|u: int| 0 <= u < self.adjacency.len() implies #[trigger] self.adjacency[u].len()
                        == 0 by {
                        assert(self.edges()[u] == self.adjacency[u]@);
                    }
                }
            }
        }
        Schedule { sets, layers: Ghost(layers.deep_view()) }
    }

    /// Adds an edge from every node listed in `sources` to `to`.
    fn add_edges_from(&mut self, sources: &Vec<usize>, to: usize)
        requires
            old(self).shape_ok(),
            to < old(self).nodes.len(),
            forall|j: int| 0 <= j < sources.len() ==> #[trigger] sources[j] <= to,
            old(self).in_degrees[to as int] + sources.len() <= usize::MAX,
        ensures
            final(self).shape_ok(),
            final(self).nodes == old(self).nodes,
            final(self).in_degrees[to as int] == old(self).in_degrees[to as int] + sources.len(),
            forall|v: int|
                0 <= v < final(self).in_degrees.len() && v != to ==> #[trigger] final(self).in_degrees[v]
                    == old(self).in_degrees[v],
            forall|u: int, v: int|
                #[trigger] has_edge(final(self).adjacency.deep_view(), u, v) <==> (has_edge(
                    old(self).adjacency.deep_view(),
                    u,
                    v,
                ) || (v == to && listed(sources@, u))),
    {
        let mut j: usize = 0;
        while j < sources.len()
            invariant
                self.shape_ok(),
                self.nodes == old(self).nodes,
                to < self.nodes.len(),
                j <= sources.len(),
                forall|j2: int| 0 <= j2 < sources.len() ==> #[trigger] sources[j2] <= to,
                self.in_degrees[to as int] == old(self).in_degrees[to as int] + j,
                old(self).in_degrees[to as int] + sources.len() <= usize::MAX,
                forall|v: int|
                    0 <= v < self.in_degrees.len() && v != to ==> #[trigger] self.in_degrees[v]
                        == old(self).in_degrees[v],
                forall|u: int, v: int|
                    #[trigger] has_edge(self.adjacency.deep_view(), u, v) <==> (has_edge(
                        old(self).adjacency.deep_view(),
                        u,
                        v,
                    ) || (v == to && listed(sources@.take(j as int), u))),
            decreases sources.len() - j,
        {
            let from = sources[j];
            self.add_edge(from, to);
            proof {
                assert forall|u: int| #[trigger] listed(sources@.take(j as int + 1), u) <==> (listed(
                    sources@.take(j as int),
                    u,
                ) || from as int == u) by {
                    assert(sources@.take(j as int + 1) =~= sources@.take(j as int).push(from));
                    crate::layering::lemma_listed_push(sources@.take(j as int), from, u);
                }
            }
            j += 1;
        }
        assert(sources@.take(sources.len() as int) =~= sources@);
    }
}

} // verus!
