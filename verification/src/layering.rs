//! Splitting a dependency graph into sets of nodes that can run at the same time.
//!
//! The graph is given as adjacency lists in which every edge points from a node to itself or
//! to a later node. The nodes are peeled off in layers: the first layer holds the nodes that
//! nothing depends on, each following layer the nodes whose predecessors have all been placed.
//! A node on a cycle (only self-loops are possible here) is never placed, nor is anything that
//! depends on it.

use vstd::prelude::*;

verus! {

/// Number of occurrences of `v` in `s`.
pub open spec fn occ(s: Seq<usize>, v: int) -> nat
    decreases s.len(),
{
    if s.len() == 0 {
        0
    } else {
        occ(s.drop_last(), v) + if s.last() as int == v { 1nat } else { 0nat }
    }
}

/// Whether the graph has an edge from `u` to `v`.
pub open spec fn has_edge(adj: Seq<Seq<usize>>, u: int, v: int) -> bool {
    0 <= u < adj.len() && exists|j: int| 0 <= j < adj[u].len() && adj[u][j] as int == v
}

/// Every edge points from a node to itself or to a later node of the graph.
pub open spec fn forward_edges(adj: Seq<Seq<usize>>) -> bool {
    forall|u: int, j: int|
        0 <= u < adj.len() && 0 <= j < adj[u].len() ==> u <= #[trigger] adj[u][j] < adj.len()
}

/// How many edges into `v` leave the nodes below `m` that are not in `done`.
pub open spec fn pending_in(adj: Seq<Seq<usize>>, done: Set<int>, v: int, m: int) -> nat
    decreases m,
{
    if m <= 0 {
        0
    } else {
        pending_in(adj, done, v, m - 1) + if done.contains(m - 1) {
            0nat
        } else {
            occ(adj[m - 1], v)
        }
    }
}

/// The layer of node `v`: 0 for a node without incoming edges, one more than the deepest
/// predecessor otherwise, and `None` for a node on a cycle or after one.
pub open spec fn depth(adj: Seq<Seq<usize>>, v: nat) -> Option<nat>
    decreases v, v + 1,
{
    if has_edge(adj, v as int, v as int) {
        None
    } else {
        preds_depth(adj, v, v)
    }
}

/// The layer that the predecessors of `v` below `m` force on `v`.
pub open spec fn preds_depth(adj: Seq<Seq<usize>>, v: nat, m: nat) -> Option<nat>
    decreases v, m,
{
    if m == 0 {
        Some(0)
    } else {
        let u = (m - 1) as nat;
        let rest = preds_depth(adj, v, u);
        if u < v && has_edge(adj, u as int, v as int) {
            match (rest, depth(adj, u)) {
                (Some(a), Some(d)) => Some(if a >= d + 1 { a } else { d + 1 }),
                _ => None,
            }
        } else {
            rest
        }
    }
}

/// The layer of node `v`, for an integer index.
pub open spec fn layer_of(adj: Seq<Seq<usize>>, v: int) -> Option<nat> {
    depth(adj, v as nat)
}

/// Whether `u` occurs in `s`.
pub open spec fn listed(s: Seq<usize>, u: int) -> bool {
    exists|j: int| 0 <= j < s.len() && #[trigger] s[j] as int == u
}

/// The nodes listed in the first `i` entries of `s`.
pub open spec fn prefix_set(s: Seq<usize>, i: int) -> Set<int> {
    Set::new(|u: int| exists|j: int| 0 <= j < i && j < s.len() && #[trigger] s[j] as int == u)
}

/// The nodes placed in the layers before `k`.
pub open spec fn placed_before(adj: Seq<Seq<usize>>, k: nat) -> Set<int> {
    Set::new(|u: int| 0 <= u < adj.len() && (layer_of(adj, u) matches Some(d) && d < k))
}

/// The in-degree of every node equals the number of edges into it.
pub open spec fn degrees_match(adj: Seq<Seq<usize>>, deg: Seq<usize>) -> bool {
    &&& deg.len() == adj.len()
    &&& forall|v: int|
        0 <= v < deg.len() ==> #[trigger] deg[v] as int == pending_in(
            adj,
            Set::empty(),
            v,
            adj.len() as int,
        )
}

/// `layers[k]` holds exactly the nodes of depth `k`, each once, and every placed node is in
/// some layer.
pub open spec fn layered(adj: Seq<Seq<usize>>, layers: Seq<Seq<usize>>) -> bool {
    &&& forall|k: int| 0 <= k < layers.len() ==> (#[trigger] layers[k]).no_duplicates()
    &&& forall|k: int, j: int|
        0 <= k < layers.len() && 0 <= j < layers[k].len() ==> #[trigger] layers[k][j] < adj.len()
    &&& forall|k: int, v: int|
        0 <= k < layers.len() && 0 <= v < adj.len() ==> (#[trigger] listed(layers[k], v)
            <==> layer_of(adj, v) == Some(k as nat))
    &&& forall|v: int|
        0 <= v < adj.len() ==> (#[trigger] layer_of(adj, v) matches Some(d) ==> d < layers.len())
}

/// The total number of entries in the layers.
pub open spec fn total_len(layers: Seq<Seq<usize>>) -> int
    decreases layers.len(),
{
    if layers.len() == 0 {
        0
    } else {
        total_len(layers.drop_last()) + layers.last().len()
    }
}

/// The nodes listed in a layer.
spec fn layer_set(s: Seq<usize>) -> Set<int> {
    s.map_values(|x: usize| x as int).to_set()
}

/// The nodes listed in the first `k` layers.
spec fn covered(layers: Seq<Seq<usize>>, k: int) -> Set<int>
    decreases k,
{
    if k <= 0 {
        Set::empty()
    } else {
        covered(layers, k - 1) + layer_set(layers[k - 1])
    }
}

proof fn lemma_layer_set(s: Seq<usize>)
    requires
        s.no_duplicates(),
    ensures
        layer_set(s).finite(),
        layer_set(s).len() == s.len(),
        forall|u: int| #[trigger] layer_set(s).contains(u) <==> listed(s, u),
{
    let m = s.map_values(|x: usize| x as int);
    assert(m.no_duplicates()) by {
        assert forall|i: int, j: int| 0 <= i < m.len() && 0 <= j < m.len() && i != j implies m[i] != m[j] by {
            assert(s[i] != s[j]);
        }
    }
    m.unique_seq_to_set();
    assert forall|u: int| #[trigger] layer_set(s).contains(u) <==> listed(s, u) by {
        if layer_set(s).contains(u) {
            assert(m.contains(u));
            let j = choose|j: int| 0 <= j < m.len() && m[j] == u;
            assert(s[j] as int == u);
        }
        if listed(s, u) {
            let j = choose|j: int| 0 <= j < s.len() && #[trigger] s[j] as int == u;
            assert(m[j] == u);
            assert(m.contains(u));
        }
    }
}

proof fn lemma_covered(adj: Seq<Seq<usize>>, layers: Seq<Seq<usize>>, k: int)
    requires
        layered(adj, layers),
        0 <= k <= layers.len(),
    ensures
        covered(layers, k).finite(),
        covered(layers, k).len() == total_len(layers.take(k)),
        forall|u: int| #[trigger] covered(layers, k).contains(u) <==> exists|i: int|
            0 <= i < k && listed(layers[i], u),
    decreases k,
{
    if k > 0 {
        lemma_covered(adj, layers, k - 1);
        lemma_layer_set(layers[k - 1]);
        let a = covered(layers, k - 1);
        let b = layer_set(layers[k - 1]);
        assert(a.disjoint(b)) by {
            assert forall|u: int| !(a.contains(u) && b.contains(u)) by {
                if a.contains(u) && b.contains(u) {
                    let i = choose|i: int| 0 <= i < k - 1 && listed(layers[i], u);
                    let j = choose|j: int| 0 <= j < layers[i].len() && #[trigger] layers[i][j] as int == u;
                    assert(layers[i][j] < adj.len());
                    assert(listed(layers[i], u));
                    assert(listed(layers[k - 1], u));
                }
            }
        }
        vstd::set_lib::lemma_set_disjoint_lens(a, b);
        assert(layers.take(k).drop_last() =~= layers.take(k - 1));
        assert forall|u: int| #[trigger] covered(layers, k).contains(u) <==> exists|i: int|
            0 <= i < k && listed(layers[i], u) by {
            if exists|i: int| 0 <= i < k && listed(layers[i], u) {
                let i = choose|i: int| 0 <= i < k && listed(layers[i], u);
                if i < k - 1 {
                    assert(a.contains(u));
                } else {
                    assert(b.contains(u));
                }
            }
        }
    }
}

/// Layers that place every node hold every node exactly once: their entries add up to the
/// number of nodes.
pub proof fn lemma_layers_cover(adj: Seq<Seq<usize>>, layers: Seq<Seq<usize>>)
    requires
        layered(adj, layers),
        forall|v: int| 0 <= v < adj.len() ==> #[trigger] layer_of(adj, v) is Some,
    ensures
        total_len(layers) == adj.len(),
{
    let n = layers.len() as int;
    lemma_covered(adj, layers, n);
    let r = vstd::set_lib::set_int_range(0, adj.len() as int);
    assert(covered(layers, n) =~= r) by {
        assert forall|u: int| covered(layers, n).contains(u) <==> r.contains(u) by {
            if covered(layers, n).contains(u) {
                let i = choose|i: int| 0 <= i < n && listed(layers[i], u);
                let j = choose|j: int| 0 <= j < layers[i].len() && #[trigger] layers[i][j] as int == u;
                assert(layers[i][j] < adj.len());
            }
            if r.contains(u) {
                assert(layer_of(adj, u) is Some);
                let d = layer_of(adj, u).unwrap() as int;
                assert(listed(layers[d], u));
            }
        }
    }
    vstd::set_lib::lemma_int_range(0, adj.len() as int);
    assert(layers.take(n) =~= layers);
}

pub(crate) proof fn lemma_listed_push(s: Seq<usize>, x: usize, u: int)
    ensures
        listed(s.push(x), u) <==> (listed(s, u) || x as int == u),
{
    if listed(s, u) {
        let j = choose|j: int| 0 <= j < s.len() && #[trigger] s[j] as int == u;
        assert(s.push(x)[j] as int == u);
    }
    if x as int == u {
        assert(s.push(x)[s.len() as int] as int == u);
    }
    if listed(s.push(x), u) {
        let j = choose|j: int| 0 <= j < s.len() + 1 && #[trigger] s.push(x)[j] as int == u;
        if j < s.len() {
            assert(s[j] as int == u);
        }
    }
}

proof fn lemma_occ_pos(s: Seq<usize>, v: int)
    ensures
        occ(s, v) > 0 <==> exists|j: int| 0 <= j < s.len() && s[j] as int == v,
    decreases s.len(),
{
    if s.len() > 0 {
        lemma_occ_pos(s.drop_last(), v);
        if occ(s.drop_last(), v) > 0 {
            let j = choose|j: int| 0 <= j < s.drop_last().len() && s.drop_last()[j] as int == v;
            assert(s[j] as int == v);
        }
        if exists|j: int| 0 <= j < s.len() && s[j] as int == v {
            let j = choose|j: int| 0 <= j < s.len() && s[j] as int == v;
            if j < s.len() - 1 {
                assert(s.drop_last()[j] as int == v);
            }
        }
    }
}

proof fn lemma_occ_take_step(s: Seq<usize>, j: int, v: int)
    requires
        0 <= j < s.len(),
    ensures
        occ(s.take(j + 1), v) == occ(s.take(j), v) + if s[j] as int == v { 1nat } else { 0nat },
{
    assert(s.take(j + 1).drop_last() =~= s.take(j));
}

proof fn lemma_occ_take_le(s: Seq<usize>, j: int, v: int)
    requires
        0 <= j <= s.len(),
    ensures
        occ(s.take(j), v) <= occ(s, v),
    decreases s.len(),
{
    if j == s.len() {
        assert(s.take(j) =~= s);
    } else {
        assert(s.drop_last().take(j) =~= s.take(j));
        lemma_occ_take_le(s.drop_last(), j, v);
    }
}

proof fn lemma_pending_insert(adj: Seq<Seq<usize>>, done: Set<int>, x: int, v: int, m: int)
    requires
        !done.contains(x),
        0 <= x,
    ensures
        x < m ==> pending_in(adj, done.insert(x), v, m) + occ(adj[x], v) == pending_in(
            adj,
            done,
            v,
            m,
        ),
        x >= m ==> pending_in(adj, done.insert(x), v, m) == pending_in(adj, done, v, m),
    decreases m,
{
    if m > 0 {
        lemma_pending_insert(adj, done, x, v, m - 1);
    }
}

proof fn lemma_pending_zero(adj: Seq<Seq<usize>>, done: Set<int>, v: int, m: int)
    ensures
        pending_in(adj, done, v, m) == 0 <==> forall|u: int|
            0 <= u < m && !done.contains(u) ==> occ(#[trigger] adj[u], v) == 0,
    decreases m,
{
    if m > 0 {
        lemma_pending_zero(adj, done, v, m - 1);
    }
}

proof fn lemma_pending_ext(adj: Seq<Seq<usize>>, d1: Set<int>, d2: Set<int>, v: int, m: int)
    requires
        forall|u: int| 0 <= u < m ==> (d1.contains(u) <==> d2.contains(u)),
    ensures
        pending_in(adj, d1, v, m) == pending_in(adj, d2, v, m),
    decreases m,
{
    if m > 0 {
        lemma_pending_ext(adj, d1, d2, v, m - 1);
    }
}

/// Predecessors below `m` allow layer `k` exactly when each of them sits in a layer before `k`.
proof fn lemma_preds_depth_le(adj: Seq<Seq<usize>>, v: nat, m: nat, k: nat)
    ensures
        (preds_depth(adj, v, m) matches Some(d) && d <= k) <==> (forall|u: int|
            0 <= u < m && u < v && has_edge(adj, u, v as int) ==> (depth(adj, u as nat) matches Some(
                du,
            ) && du + 1 <= k)),
    decreases m,
{
    if m > 0 {
        lemma_preds_depth_le(adj, v, (m - 1) as nat, k);
        let u = (m - 1) as int;
        if !(u < v && has_edge(adj, u, v as int)) {
            assert forall|w: int|
                0 <= w < m && w < v && has_edge(adj, w, v as int) implies 0 <= w < m - 1 by {}
        }
    }
}

/// A node is ready after the layers before `k` exactly when its depth is at most `k`.
proof fn lemma_ready(adj: Seq<Seq<usize>>, v: int, k: nat)
    requires
        forward_edges(adj),
        0 <= v < adj.len(),
    ensures
        (pending_in(adj, placed_before(adj, k), v, adj.len() as int) == 0) <==> (depth(
            adj,
            v as nat,
        ) matches Some(d) && d <= k),
{
    let n = adj.len() as int;
    let done = placed_before(adj, k);
    lemma_pending_zero(adj, done, v, n);
    lemma_preds_depth_le(adj, v as nat, v as nat, k);
    assert forall|u: int| 0 <= u < n implies (occ(#[trigger] adj[u], v) > 0 <==> has_edge(
        adj,
        u,
        v,
    )) by {
        lemma_occ_pos(adj[u], v);
    }
    if pending_in(adj, done, v, n) == 0 {
        if has_edge(adj, v, v) {
            assert(occ(adj[v], v) > 0);
            assert(!done.contains(v));
        }
        assert forall|u: int|
            0 <= u < v && has_edge(adj, u, v as int) implies (depth(adj, u as nat) matches Some(du)
            && du + 1 <= k) by {
            assert(occ(adj[u], v) > 0);
            assert(done.contains(u));
        }
    }
    if depth(adj, v as nat) matches Some(d) && d <= k {
        assert forall|u: int| 0 <= u < n && !done.contains(u) implies occ(
            #[trigger] adj[u],
            v,
        ) == 0 by {
            if occ(adj[u], v) > 0 {
                assert(has_edge(adj, u, v));
                let j = choose|j: int| 0 <= j < adj[u].len() && adj[u][j] as int == v;
                assert(u <= adj[u][j]);
                if u == v {
                    assert(false);
                } else {
                    assert(u < v);
                }
            }
        }
    }
}

proof fn lemma_preds_witness(adj: Seq<Seq<usize>>, v: nat, m: nat)
    ensures
        forall|d: nat|
            preds_depth(adj, v, m) == Some(d) && d > 0 ==> exists|u: int|
                0 <= u < m && u < v && #[trigger] layer_of(adj, u) == Some((d - 1) as nat),
    decreases m,
{
    if m > 0 {
        lemma_preds_witness(adj, v, (m - 1) as nat);
        let u = (m - 1) as nat;
        assert forall|d: nat| preds_depth(adj, v, m) == Some(d) && d > 0 implies exists|w: int|
            0 <= w < m && w < v && #[trigger] layer_of(adj, w) == Some((d - 1) as nat) by {
            if u < v && has_edge(adj, u as int, v as int) {
                let rest = preds_depth(adj, v, u);
                if let Some(a) = rest {
                    if let Some(du) = depth(adj, u) {
                        if a >= du + 1 {
                            assert(rest == Some(d));
                        } else {
                            assert(layer_of(adj, u as int) == Some((d - 1) as nat));
                        }
                    }
                }
            }
        }
    }
}

proof fn lemma_depth_witness(adj: Seq<Seq<usize>>, v: nat)
    ensures
        forall|d: nat|
            depth(adj, v) == Some(d) && d > 0 ==> exists|u: int|
                0 <= u < v && #[trigger] layer_of(adj, u) == Some((d - 1) as nat),
{
    lemma_preds_witness(adj, v, v);
}

proof fn lemma_preds_bound(adj: Seq<Seq<usize>>, v: nat, m: nat)
    requires
        m <= v,
    ensures
        preds_depth(adj, v, m) matches Some(d) ==> d <= m,
    decreases v, m,
{
    if m > 0 {
        lemma_preds_bound(adj, v, (m - 1) as nat);
        lemma_depth_bound(adj, (m - 1) as nat);
    }
}

/// The depth of a node never exceeds the node's index.
proof fn lemma_depth_bound(adj: Seq<Seq<usize>>, v: nat)
    ensures
        depth(adj, v) matches Some(d) ==> d <= v,
    decreases v, v + 1,
{
    lemma_preds_bound(adj, v, v);
}

/// If no node has depth `k`, no node has a depth of `k` or more.
proof fn lemma_no_deeper(adj: Seq<Seq<usize>>, n: int, k: nat, w: int)
    requires
        0 <= w < n,
        forall|u: int| 0 <= u < n ==> #[trigger] layer_of(adj, u) != Some(k),
    ensures
        layer_of(adj, w) matches Some(d) ==> d < k,
    decreases w,
{
    if let Some(d) = layer_of(adj, w) {
        if d > k {
            lemma_depth_witness(adj, w as nat);
            let u = choose|u: int| 0 <= u < w && #[trigger] layer_of(adj, u) == Some((d - 1) as nat);
            lemma_no_deeper(adj, n, k, u);
        } else if d == k {
            assert(layer_of(adj, w) != Some(k));
        }
    }
}

/// Without self-loops every node gets a layer.
pub proof fn lemma_all_placed(adj: Seq<Seq<usize>>, v: nat)
    requires
        forall|u: int| 0 <= u < adj.len() ==> !#[trigger] has_edge(adj, u, u),
    ensures
        depth(adj, v) is Some,
    decreases v, v + 1,
{
    lemma_preds_placed(adj, v, v);
}

proof fn lemma_preds_placed(adj: Seq<Seq<usize>>, v: nat, m: nat)
    requires
        m <= v,
        forall|u: int| 0 <= u < adj.len() ==> !#[trigger] has_edge(adj, u, u),
    ensures
        preds_depth(adj, v, m) is Some,
    decreases v, m,
{
    if m > 0 {
        lemma_preds_placed(adj, v, (m - 1) as nat);
        lemma_all_placed(adj, (m - 1) as nat);
    }
}

/// An edge leads to a strictly later layer.
pub proof fn lemma_edge_raises_layer(adj: Seq<Seq<usize>>, u: int, v: int)
    requires
        0 <= u < v,
        has_edge(adj, u, v),
        layer_of(adj, u) is Some,
        layer_of(adj, v) is Some,
    ensures
        layer_of(adj, u).unwrap() < layer_of(adj, v).unwrap(),
{
    let d = preds_depth(adj, v as nat, v as nat).unwrap();
    lemma_preds_depth_le(adj, v as nat, v as nat, d);
}

/// The nested view of a vector of vectors, element by element.
pub proof fn lemma_deep_view(v: &Vec<Vec<usize>>)
    ensures
        v.deep_view().len() == v.len(),
        forall|u: int| 0 <= u < v.len() ==> #[trigger] v.deep_view()[u] == v[u]@,
{
}

/// In a layering, the source of an edge sits in an earlier layer than its target.
pub proof fn lemma_layers_respect_edges(
    adj: Seq<Seq<usize>>,
    layers: Seq<Seq<usize>>,
    u: int,
    v: int,
    ku: int,
    kv: int,
)
    requires
        forward_edges(adj),
        layered(adj, layers),
        has_edge(adj, u, v),
        u != v,
        0 <= ku < layers.len(),
        0 <= kv < layers.len(),
        listed(layers[ku], u),
        listed(layers[kv], v),
    ensures
        ku < kv,
{
    let j = choose|j: int| 0 <= j < adj[u].len() && adj[u][j] as int == v;
    assert(u <= adj[u][j] < adj.len());
    assert(layer_of(adj, u) == Some(ku as nat));
    assert(layer_of(adj, v) == Some(kv as nat));
    lemma_edge_raises_layer(adj, u, v);
}

/// Peels the graph into layers (Kahn's algorithm, one layer at a time).
///
/// `in_degrees` must hold the number of edges into each node; it is used up on the way.
pub fn layer_nodes(adjacency: &Vec<Vec<usize>>, in_degrees: &mut Vec<usize>) -> (layers: Vec<
    Vec<usize>,
>)
    requires
        forward_edges(adjacency.deep_view()),
        degrees_match(adjacency.deep_view(), old(in_degrees)@),
    ensures
        layered(adjacency.deep_view(), layers.deep_view()),
        forall|k: int| 0 <= k < layers.len() ==> #[trigger] layers[k].len() > 0,
        final(in_degrees).len() == old(in_degrees).len(),
        layers.len() > 0 ==> forall|a: int, b: int|
            0 <= a < b < layers[0].len() ==> #[trigger] layers[0][a] < #[trigger] layers[0][b],
        (forall|u: int| 0 <= u < adjacency.len() ==> #[trigger] adjacency[u].len() == 0) ==> forall|
            u: int,
        |
            0 <= u < final(in_degrees).len() ==> #[trigger] final(in_degrees)[u] == 0,
{
    let ghost adj = adjacency.deep_view();
    let n = in_degrees.len();
    proof {
        assert forall|u: int| 0 <= u < n implies #[trigger] adj[u] == adjacency[u]@ by {}
    }
    let mut current: Vec<usize> = Vec::new();
    let mut v: usize = 0;
    while v < n
        invariant
            n == in_degrees.len(),
            n == adj.len(),
            adj == adjacency.deep_view(),
            degrees_match(adj, in_degrees@),
            v <= n,
            current@.no_duplicates(),
            forall|j: int| 0 <= j < current.len() ==> #[trigger] current[j] < v,
            forall|a: int, b: int| 0 <= a < b < current.len() ==> #[trigger] current[a] < #[trigger] current[b],
            forall|u: int|
                0 <= u < v ==> (#[trigger] listed(current@, u) <==> in_degrees[u] == 0),
            forall|u: int| v <= u ==> !#[trigger] listed(current@, u),
        decreases n - v,
    {
        let ghost before = current@;
        if in_degrees[v] == 0 {
            current.push(v);
            proof {
                assert(current@ == before.push(v));
                assert forall|u: int| #[trigger] listed(current@, u) <==> (listed(before, u) || v
                    as int == u) by {
                    lemma_listed_push(before, v, u);
                }
                assert(!listed(before, v as int));
                assert forall|a: int, b: int|
                    0 <= a < current.len() && 0 <= b < current.len() && a != b implies current[a]
                    != current[b] by {
                    if a == before.len() {
                        assert(listed(before, current[b] as int));
                    } else if b == before.len() {
                        assert(listed(before, current[a] as int));
                    }
                }
            }
        }
        v += 1;
    }
    proof {
        assert forall|u: int| 0 <= u < n implies (#[trigger] listed(current@, u) <==> layer_of(
            adj,
            u,
        ) == Some(0nat)) by {
            lemma_ready(adj, u, 0);
            assert forall|w: int| 0 <= w < n implies (placed_before(adj, 0).contains(w)
                <==> Set::<int>::empty().contains(w)) by {}
            lemma_pending_ext(adj, placed_before(adj, 0), Set::empty(), u, n as int);
        }
        assert forall|u: int| 0 <= u < n implies #[trigger] in_degrees[u] as int == pending_in(
            adj,
            placed_before(adj, 0),
            u,
            n as int,
        ) by {
            assert forall|w: int| 0 <= w < n implies (placed_before(adj, 0).contains(w)
                <==> Set::<int>::empty().contains(w)) by {}
            lemma_pending_ext(adj, placed_before(adj, 0), Set::empty(), u, n as int);
        }
    }
    let mut layers: Vec<Vec<usize>> = Vec::new();
    let ghost first = current@;
    while current.len() > 0
        invariant
            layers.len() == 0 ==> current@ == first,
            layers.len() > 0 ==> layers[0]@ == first,
            forall|a: int, b: int| 0 <= a < b < first.len() ==> #[trigger] first[a] < #[trigger] first[b],
            n == in_degrees.len(),
            n == adj.len(),
            adj == adjacency.deep_view(),
            forward_edges(adj),
            forall|u: int| 0 <= u < n ==> #[trigger] adj[u] == adjacency[u]@,
            current@.no_duplicates(),
            forall|j: int| 0 <= j < current.len() ==> #[trigger] current[j] < n,
            forall|u: int|
                0 <= u < n ==> (#[trigger] listed(current@, u) <==> layer_of(adj, u) == Some(
                    layers.len() as nat,
                )),
            forall|k: int| 0 <= k < layers.len() ==> #[trigger] layers[k].len() > 0,
            forall|k: int| 0 <= k < layers.len() ==> (#[trigger] layers[k]@).no_duplicates(),
            forall|k: int, j: int|
                0 <= k < layers.len() && 0 <= j < layers[k].len() ==> #[trigger] layers[k][j] < n,
            forall|k: int, u: int|
                0 <= k < layers.len() && 0 <= u < n ==> (#[trigger] listed(layers[k]@, u)
                    <==> layer_of(adj, u) == Some(k as nat)),
            forall|u: int|
                0 <= u < n ==> #[trigger] in_degrees[u] as int == pending_in(
                    adj,
                    placed_before(adj, layers.len() as nat),
                    u,
                    n as int,
                ),
        decreases n - layers.len(),
    {
        let ghost k = layers.len() as nat;
        let ghost start = placed_before(adj, k);
        proof {
            let w = current[0];
            assert(current@[0] as int == w as int);
            assert(listed(current@, w as int));
            lemma_depth_bound(adj, w as nat);
            assert forall|u: int| 0 <= u < n implies pending_in(
                adj,
                start.union(prefix_set(current@, 0)),
                u,
                n as int,
            ) == pending_in(adj, start, u, n as int) by {
                assert forall|w2: int| 0 <= w2 < n implies (start.union(
                    prefix_set(current@, 0),
                ).contains(w2) <==> start.contains(w2)) by {}
                lemma_pending_ext(adj, start.union(prefix_set(current@, 0)), start, u, n as int);
            }
        }
        let mut next: Vec<usize> = Vec::new();
        let mut i: usize = 0;
        while i < current.len()
            invariant
                n == in_degrees.len(),
                n == adj.len(),
                adj == adjacency.deep_view(),
                forward_edges(adj),
                forall|u: int| 0 <= u < n ==> #[trigger] adj[u] == adjacency[u]@,
                k == layers.len(),
                start == placed_before(adj, k),
                i <= current.len(),
                current@.no_duplicates(),
                forall|j: int| 0 <= j < current.len() ==> #[trigger] current[j] < n,
                forall|u: int|
                    0 <= u < n ==> (#[trigger] listed(current@, u) <==> layer_of(adj, u) == Some(
                        k,
                    )),
                forall|u: int|
                    0 <= u < n ==> #[trigger] in_degrees[u] as int == pending_in(
                        adj,
                        start.union(prefix_set(current@, i as int)),
                        u,
                        n as int,
                    ),
                next@.no_duplicates(),
                forall|j: int| 0 <= j < next.len() ==> #[trigger] next[j] < n,
                forall|u: int|
                    0 <= u < n ==> (#[trigger] listed(next@, u) <==> (pending_in(
                        adj,
                        start,
                        u,
                        n as int,
                    ) > 0 && in_degrees[u] == 0)),
                forall|u: int| n <= u ==> !#[trigger] listed(next@, u),
                forall|u: int|
                    0 <= u < n ==> #[trigger] pending_in(adj, start, u, n as int) >= pending_in(
                        adj,
                        start.union(prefix_set(current@, i as int)),
                        u,
                        n as int,
                    ),
            decreases current.len() - i,
        {
            let x = current[i];
            let ghost done = start.union(prefix_set(current@, i as int));
            proof {
                assert(!done.contains(x as int)) by {
                    if start.contains(x as int) {
                        assert(current@[i as int] as int == x as int);
                        assert(listed(current@, x as int));
                    }
                    if prefix_set(current@, i as int).contains(x as int) {
                        let j = choose|j: int|
                            0 <= j < i && j < current.len() && #[trigger] current@[j] as int == x
                                as int;
                        assert(current[j] == current[i as int]);
                    }
                }
            }
            proof {
                assert(adj[x as int] == adjacency[x as int]@);
            }
            let len = adjacency[x].len();
            let mut j: usize = 0;
            while j < len
                invariant
                    n == in_degrees.len(),
                    n == adj.len(),
                    forward_edges(adj),
                    forall|u: int| 0 <= u < n ==> #[trigger] adj[u] == adjacency[u]@,
                    adjacency.len() == n,
                    x < n,
                    len == adj[x as int].len(),
                    j <= len,
                    !done.contains(x as int),
                    forall|u: int|
                        0 <= u < n ==> #[trigger] in_degrees[u] as int == pending_in(
                            adj,
                            done,
                            u,
                            n as int,
                        ) - occ(adj[x as int].take(j as int), u),
                    next@.no_duplicates(),
                    forall|j2: int| 0 <= j2 < next.len() ==> #[trigger] next[j2] < n,
                    forall|u: int|
                        0 <= u < n ==> (#[trigger] listed(next@, u) <==> (pending_in(
                            adj,
                            start,
                            u,
                            n as int,
                        ) > 0 && in_degrees[u] == 0)),
                    forall|u: int| n <= u ==> !#[trigger] listed(next@, u),
                    forall|u: int|
                        0 <= u < n ==> #[trigger] pending_in(adj, start, u, n as int) >= pending_in(
                            adj,
                            done,
                            u,
                            n as int,
                        ),
                decreases len - j,
            {
                proof {
                    assert(adj[x as int] == adjacency[x as int]@);
                }
                let nb = adjacency[x][j];
                proof {
                    let s = adj[x as int];
                    assert(s[j as int] == nb);
                    assert(x <= nb < n);
                    lemma_occ_take_step(s, j as int, nb as int);
                    lemma_occ_take_le(s, j as int + 1, nb as int);
                    lemma_pending_insert(adj, done, x as int, nb as int, n as int);
                    assert forall|u: int| 0 <= u < n && u != nb implies occ(
                        s.take(j as int + 1),
                        u,
                    ) == occ(s.take(j as int), u) by {
                        lemma_occ_take_step(s, j as int, u);
                    }
                    assert(in_degrees[nb as int] >= 1);
                }
                let ghost before = next@;
                let ghost degs = in_degrees@;
                in_degrees[nb] = in_degrees[nb] - 1;
                if in_degrees[nb] == 0 {
                    proof {
                        assert(degs[nb as int] == 1);
                        assert(!listed(before, nb as int));
                    }
                    next.push(nb);
                    proof {
                        assert forall|u: int| #[trigger] listed(next@, u) <==> (listed(before, u)
                            || nb as int == u) by {
                            lemma_listed_push(before, nb, u);
                        }
                        assert forall|a: int, b: int|
                            0 <= a < next.len() && 0 <= b < next.len() && a != b implies next[a]
                            != next[b] by {
                            if a == before.len() {
                                assert(before[b] == next[b]);
                                assert(listed(before, next[b] as int));
                            } else if b == before.len() {
                                assert(before[a] == next[a]);
                                assert(listed(before, next[a] as int));
                            }
                        }
                    }
                }
                j += 1;
            }
            proof {
                assert(adj[x as int].take(len as int) =~= adj[x as int]);
                let done2 = start.union(prefix_set(current@, i as int + 1));
                assert forall|u: int| 0 <= u < n implies (done2.contains(u) <==> done.insert(
                    x as int,
                ).contains(u)) by {
                    if prefix_set(current@, i as int + 1).contains(u) && u != x as int {
                        let j = choose|j: int|
                            0 <= j < i + 1 && j < current.len() && #[trigger] current@[j] as int
                                == u;
                        assert(prefix_set(current@, i as int).contains(u));
                    }
                    if u == x as int {
                        assert(current@[i as int] as int == u);
                    }
                    if prefix_set(current@, i as int).contains(u) {
                        let j = choose|j: int|
                            0 <= j < i && j < current.len() && #[trigger] current@[j] as int == u;
                        assert(prefix_set(current@, i as int + 1).contains(u));
                    }
                }
                assert forall|u: int| 0 <= u < n implies #[trigger] in_degrees[u] as int
                    == pending_in(adj, done2, u, n as int) && pending_in(adj, done2, u, n as int)
                    <= pending_in(adj, done, u, n as int) by {
                    lemma_pending_insert(adj, done, x as int, u, n as int);
                    lemma_pending_ext(adj, done2, done.insert(x as int), u, n as int);
                }
                assert forall|u: int| 0 <= u < n implies #[trigger] pending_in(adj, start, u, n as int)
                    >= pending_in(adj, done2, u, n as int) by {
                    lemma_pending_insert(adj, done, x as int, u, n as int);
                    lemma_pending_ext(adj, done2, done.insert(x as int), u, n as int);
                }
            }
            i += 1;
        }
        proof {
            let done_end = start.union(prefix_set(current@, current.len() as int));
            let next_start = placed_before(adj, k + 1);
            assert forall|u: int| 0 <= u < n implies (done_end.contains(u) <==> next_start.contains(
                u,
            )) by {
                if prefix_set(current@, current.len() as int).contains(u) {
                    let j = choose|j: int|
                        0 <= j < current.len() && j < current.len() && #[trigger] current@[j] as int
                            == u;
                    assert(listed(current@, u));
                }
                if layer_of(adj, u) == Some(k) {
                    assert(listed(current@, u));
                    let j = choose|j: int| 0 <= j < current.len() && #[trigger] current@[j] as int == u;
                    assert(prefix_set(current@, current.len() as int).contains(u));
                }
            }
            assert forall|u: int| 0 <= u < n implies #[trigger] in_degrees[u] as int == pending_in(
                adj,
                next_start,
                u,
                n as int,
            ) by {
                lemma_pending_ext(adj, done_end, next_start, u, n as int);
            }
            assert forall|u: int| 0 <= u < n implies (#[trigger] listed(next@, u) <==> layer_of(
                adj,
                u,
            ) == Some(k + 1)) by {
                lemma_ready(adj, u, k);
                lemma_ready(adj, u, k + 1);
                lemma_pending_ext(adj, done_end, next_start, u, n as int);
            }
        }
        layers.push(current);
        current = next;
    }
    proof {
        let layers_v = layers.deep_view();
        assert forall|k: int| 0 <= k < layers.len() implies #[trigger] layers_v[k] == layers[k]@ by {}
        assert forall|u: int| 0 <= u < n implies (#[trigger] layer_of(adj, u) matches Some(d) ==> d
            < layers.len()) by {
            assert forall|w: int| 0 <= w < n implies #[trigger] layer_of(adj, w) != Some(
                layers.len() as nat,
            ) by {
                if layer_of(adj, w) == Some(layers.len() as nat) {
                    assert(listed(current@, w));
                }
            }
            lemma_no_deeper(adj, n as int, layers.len() as nat, u);
        }
        if forall|u: int| 0 <= u < adjacency.len() ==> #[trigger] adjacency[u].len() == 0 {
            lemma_deep_view(adjacency);
            assert forall|u: int| 0 <= u < adj.len() implies #[trigger] adj[u].len() == 0 by {
                assert(adj[u] == adjacency[u]@);
                assert(adjacency[u].len() == 0);
            }
            assert forall|u: int| 0 <= u < n implies #[trigger] in_degrees[u] == 0 by {
                lemma_pending_without_edges(
                    adj,
                    placed_before(adj, layers.len() as nat),
                    u,
                    n as int,
                );
            }
        }
    }
    layers
}

/// Without edges nothing is pending.
proof fn lemma_pending_without_edges(adj: Seq<Seq<usize>>, done: Set<int>, v: int, m: int)
    requires
        m <= adj.len(),
        forall|u: int| 0 <= u < adj.len() ==> #[trigger] adj[u].len() == 0,
    ensures
        pending_in(adj, done, v, m) == 0,
    decreases m,
{
    if m > 0 {
        lemma_pending_without_edges(adj, done, v, m - 1);
        assert(adj[m - 1].len() == 0);
    }
}

} // verus!
