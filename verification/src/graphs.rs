use vstd::multiset::Multiset;
use vstd::prelude::*;

use petgraph::graph::Graph;
use petgraph::stable_graph::{EdgeIndex, NodeIndex, StableGraph};
use petgraph::visit::{EdgeRef, IntoEdgeReferences, IntoNodeReferences};
use petgraph::{Directed, Direction};

use crate::DispatchError;
use crate::general::{
    chunk_rel, chunks_of, dispatch_chunks_rel, dispatch_rel, identity_fn, puts_run, results_rel,
    takes_rel, TakePutBack,
};

verus! {

/// petgraph's stable directed graph: node and edge slots keep their index
/// when other elements are removed.
#[verifier::external_type_specification]
#[verifier::external_body]
#[verifier::reject_recursive_types(N)]
#[verifier::reject_recursive_types(E)]
#[verifier::reject_recursive_types(Ty)]
#[verifier::reject_recursive_types(Ix)]
pub struct ExStableGraph<N, E, Ty, Ix>(StableGraph<N, E, Ty, Ix>);

/// petgraph's plain graph.
#[verifier::external_type_specification]
#[verifier::external_body]
#[verifier::reject_recursive_types(N)]
#[verifier::reject_recursive_types(E)]
#[verifier::reject_recursive_types(Ty)]
#[verifier::reject_recursive_types(Ix)]
pub struct ExGraph<N, E, Ty, Ix>(Graph<N, E, Ty, Ix>);

/// petgraph's marker for directed edges.
#[verifier::external_type_specification]
#[verifier::external_body]
pub struct ExDirected(Directed);

/// Identifies a node of a graph, as the plain value of its index.
#[derive(Clone, Copy, Debug, PartialEq, Eq, Structural)]
pub struct NodeKey(pub usize);

/// Identifies an edge of a graph, as the plain value of its index.
#[derive(Clone, Copy, Debug, PartialEq, Eq, Structural)]
pub struct EdgeKey(pub usize);

/// What a stable graph's occupied node slots hold: node key to weight.
pub uninterp spec fn sg_nodes(g: &StableGraph<i64, i64, Directed, usize>) -> Map<nat, i64>;

/// What a stable graph's occupied edge slots hold, keyed by edge index.
pub uninterp spec fn sg_edge_w(g: &StableGraph<i64, i64, Directed, usize>) -> Map<nat, i64>;

/// The edges of a stable graph as a multiset of (source, target, weight)
/// triples; parallel edges count separately.
pub uninterp spec fn sg_edge_ms(g: &StableGraph<i64, i64, Directed, usize>) -> Multiset<
    (nat, nat, i64),
>;

/// The node key the graph hands out next: the most recently freed slot, or
/// a new one.  A deterministic function of the graph value.
pub uninterp spec fn sg_fresh_node_key(g: &StableGraph<i64, i64, Directed, usize>) -> nat;

/// A stable graph's edge endpoints, keyed by edge index: source and
/// target.
pub uninterp spec fn sg_edge_ends(g: &StableGraph<i64, i64, Directed, usize>) -> Map<
    nat,
    (nat, nat),
>;

/// What a plain graph's node slots hold.
pub uninterp spec fn g_nodes(g: &Graph<i64, i64, Directed, usize>) -> Map<nat, i64>;

/// What a plain graph's edge slots hold, keyed by edge index.
pub uninterp spec fn g_edge_w(g: &Graph<i64, i64, Directed, usize>) -> Map<nat, i64>;

/// A plain graph's edge endpoints, keyed by edge index: source and target.
pub uninterp spec fn g_edge_ends(g: &Graph<i64, i64, Directed, usize>) -> Map<nat, (nat, nat)>;

/// A stable directed graph with plain integer weights and stable integer
/// keys: the container the graph adapters work on.
pub type KeyedGraph = StableGraph<i64, i64, Directed, usize>;

/// The edges into node `k`.
pub open spec fn into_node(k: nat) -> spec_fn((nat, nat, i64)) -> bool {
    |t: (nat, nat, i64)| t.1 == k
}

/// The edges out of node `k`.
pub open spec fn from_node(k: nat) -> spec_fn((nat, nat, i64)) -> bool {
    |t: (nat, nat, i64)| t.0 == k
}

/// The edges with neither endpoint at node `k`.
pub open spec fn away_from_node(k: nat) -> spec_fn((nat, nat, i64)) -> bool {
    |t: (nat, nat, i64)| t.0 != k && t.1 != k
}

/// Captured incoming entries as edge triples into node `k`.
pub open spec fn in_triples(cap: Seq<(NodeKey, i64)>, k: nat) -> Seq<(nat, nat, i64)> {
    cap.map_values(|p: (NodeKey, i64)| ((p.0).0 as nat, k, p.1))
}

/// Captured outgoing entries as edge triples out of node `k`.
pub open spec fn out_triples(cap: Seq<(NodeKey, i64)>, k: nat) -> Seq<(nat, nat, i64)> {
    cap.map_values(|p: (NodeKey, i64)| (k, (p.0).0 as nat, p.1))
}

/// Captured self-loop entries as edges from one port to the other.
pub open spec fn loop_triples(cap: Seq<(NodeKey, i64)>, a: nat, b: nat) -> Seq<(nat, nat, i64)> {
    cap.map_values(|p: (NodeKey, i64)| (a, b, p.1))
}

/// The graph holds no nodes and no edges.
pub open spec fn sg_is_empty(g: KeyedGraph) -> bool {
    &&& sg_nodes(&g) == Map::<nat, i64>::empty()
    &&& sg_edge_ms(&g) == Multiset::<(nat, nat, i64)>::empty()
    &&& sg_edge_w(&g) == Map::<nat, i64>::empty()
}

/// Relies on StableGraph::with_capacity: a graph with no nodes and no
/// edges.
#[verifier::external_body]
fn sg_new() -> (r: KeyedGraph)
    ensures
        sg_is_empty(r),
{
    StableGraph::with_capacity(0, 0)
}

/// Relies on StableGraph::contains_node: whether the node slot is
/// occupied.
#[verifier::external_body]
fn sg_contains_node(g: &StableGraph<i64, i64, Directed, usize>, k: NodeKey) -> (r: bool)
    ensures
        r == sg_nodes(g).dom().contains(k.0 as nat),
{
    g.contains_node(NodeIndex::new(k.0))
}

/// Relies on StableGraph::contains_edge: whether some edge runs from `a`
/// to `b`.
#[verifier::external_body]
fn sg_contains_edge(g: &StableGraph<i64, i64, Directed, usize>, a: NodeKey, b: NodeKey) -> (r:
    bool)
    ensures
        r == exists|w: i64| sg_edge_ms(g).contains((a.0 as nat, b.0 as nat, w)),
        r ==> sg_nodes(g).dom().contains(a.0 as nat) && sg_nodes(g).dom().contains(b.0 as nat),
{
    g.contains_edge(NodeIndex::new(a.0), NodeIndex::new(b.0))
}

/// Relies on StableGraph::edge_weight: whether the edge slot is occupied.
#[verifier::external_body]
fn sg_contains_edge_key(g: &StableGraph<i64, i64, Directed, usize>, e: EdgeKey) -> (r: bool)
    ensures
        r == sg_edge_w(g).dom().contains(e.0 as nat),
{
    g.edge_weight(EdgeIndex::new(e.0)).is_some()
}

/// Relies on StableGraph::add_node: occupies the most recently freed node
/// slot, else a new one.  The index-space limit cannot be reached, since
/// the node vector itself cannot grow to that size.
#[verifier::external_body]
fn sg_add_node(g: &mut StableGraph<i64, i64, Directed, usize>, w: i64) -> (k: NodeKey)
    ensures
        k.0 as nat == sg_fresh_node_key(old(g)),
        !sg_nodes(old(g)).dom().contains(k.0 as nat),
        sg_nodes(final(g)) == sg_nodes(old(g)).insert(k.0 as nat, w),
        sg_edge_ms(final(g)) == sg_edge_ms(old(g)),
        sg_edge_w(final(g)) == sg_edge_w(old(g)),
{
    NodeKey(g.add_node(w).index())
}

/// Relies on StableGraph::remove_node: removes the node and every edge
/// touching it, and frees the node's slot as the next one handed out.
#[verifier::external_body]
fn sg_remove_node(g: &mut StableGraph<i64, i64, Directed, usize>, k: NodeKey) -> (r: Option<i64>)
    ensures
        r is Some <==> sg_nodes(old(g)).dom().contains(k.0 as nat),
        r is None ==> *final(g) == *old(g),
        r is Some ==> r == Some(sg_nodes(old(g))[k.0 as nat]),
        r is Some ==> sg_nodes(final(g)) == sg_nodes(old(g)).remove(k.0 as nat),
        r is Some ==> sg_edge_ms(final(g)) == sg_edge_ms(old(g)).filter(
            away_from_node(k.0 as nat),
        ),
        r is Some ==> forall|e: nat|
            sg_edge_w(final(g)).dom().contains(e) ==> sg_edge_w(old(g)).dom().contains(e)
                && sg_edge_w(final(g))[e] == sg_edge_w(old(g))[e],
        r is Some ==> sg_fresh_node_key(final(g)) == k.0 as nat,
{
    g.remove_node(NodeIndex::new(k.0))
}

/// Relies on StableGraph::add_edge.  Panics only if an endpoint is
/// missing, which the caller excludes; the edge index-space limit cannot
/// be reached, since the edge vector itself cannot grow to that size.
#[verifier::external_body]
fn sg_add_edge(
    g: &mut StableGraph<i64, i64, Directed, usize>,
    a: NodeKey,
    b: NodeKey,
    w: i64,
) -> (r: EdgeKey)
    requires
        sg_nodes(old(g)).dom().contains(a.0 as nat),
        sg_nodes(old(g)).dom().contains(b.0 as nat),
    ensures
        sg_edge_ms(final(g)) == sg_edge_ms(old(g)).insert((a.0 as nat, b.0 as nat, w)),
        !sg_edge_w(old(g)).dom().contains(r.0 as nat),
        sg_edge_w(final(g)) == sg_edge_w(old(g)).insert(r.0 as nat, w),
        sg_nodes(final(g)) == sg_nodes(old(g)),
{
    EdgeKey(g.add_edge(NodeIndex::new(a.0), NodeIndex::new(b.0), w).index())
}

/// Relies on StableGraph::node_weight_mut: swaps a new weight into the
/// node slot and hands back the old one.
#[verifier::external_body]
fn sg_swap_node_weight(
    g: &mut StableGraph<i64, i64, Directed, usize>,
    k: NodeKey,
    new: i64,
) -> (r: Option<i64>)
    ensures
        r is Some <==> sg_nodes(old(g)).dom().contains(k.0 as nat),
        r is None ==> *final(g) == *old(g),
        r is Some ==> r == Some(sg_nodes(old(g))[k.0 as nat]),
        r is Some ==> sg_nodes(final(g)) == sg_nodes(old(g)).insert(k.0 as nat, new),
        r is Some ==> sg_edge_ms(final(g)) == sg_edge_ms(old(g)),
        r is Some ==> sg_edge_w(final(g)) == sg_edge_w(old(g)),
        r is Some ==> sg_edge_ends(final(g)) == sg_edge_ends(old(g)),
{
    match g.node_weight_mut(NodeIndex::new(k.0)) {
        Some(z) => Some(core::mem::replace(z, new)),
        None => None,
    }
}

/// Relies on StableGraph::edge_weight_mut: swaps a new weight into the
/// edge slot and hands back the old one.  Endpoints are untouched.
#[verifier::external_body]
fn sg_swap_edge_weight(
    g: &mut StableGraph<i64, i64, Directed, usize>,
    e: EdgeKey,
    new: i64,
) -> (r: Option<i64>)
    ensures
        r is Some <==> sg_edge_w(old(g)).dom().contains(e.0 as nat),
        r is None ==> *final(g) == *old(g),
        r is Some ==> r == Some(sg_edge_w(old(g))[e.0 as nat]),
        r is Some ==> sg_edge_w(final(g)) == sg_edge_w(old(g)).insert(e.0 as nat, new),
        r is Some ==> sg_nodes(final(g)) == sg_nodes(old(g)),
        r is Some ==> sg_edge_ends(final(g)) == sg_edge_ends(old(g)),
        r is Some ==> exists|s: nat, t: nat|
            #![trigger sg_edge_ms(old(g)).contains((s, t, sg_edge_w(old(g))[e.0 as nat]))]
            {
                &&& sg_edge_ms(old(g)).contains((s, t, sg_edge_w(old(g))[e.0 as nat]))
                &&& sg_edge_ms(final(g)) == sg_edge_ms(old(g)).remove(
                    (s, t, sg_edge_w(old(g))[e.0 as nat]),
                ).insert((s, t, new))
            },
{
    match g.edge_weight_mut(EdgeIndex::new(e.0)) {
        Some(z) => Some(core::mem::replace(z, new)),
        None => None,
    }
}

/// Relies on StableGraph::node_indices: every occupied node slot, each
/// once.
#[verifier::external_body]
fn sg_node_keys(g: &StableGraph<i64, i64, Directed, usize>) -> (r: Vec<NodeKey>)
    ensures
        forall|a: int, b: int| 0 <= a < b < r@.len() ==> r@[a].0 != r@[b].0,
        forall|j: int| 0 <= j < r@.len() ==> sg_nodes(g).dom().contains((#[trigger] r@[j]).0 as nat),
        forall|key: nat|
            sg_nodes(g).dom().contains(key) ==> exists|j: int|
                0 <= j < r@.len() && (#[trigger] r@[j]).0 as nat == key,
{
    g.node_indices().map(|ix| NodeKey(ix.index())).collect()
}

/// Relies on StableGraph::edge_indices: every occupied edge slot, each
/// once.
#[verifier::external_body]
fn sg_edge_keys(g: &StableGraph<i64, i64, Directed, usize>) -> (r: Vec<EdgeKey>)
    ensures
        forall|a: int, b: int| 0 <= a < b < r@.len() ==> r@[a].0 != r@[b].0,
        forall|j: int|
            0 <= j < r@.len() ==> sg_edge_w(g).dom().contains((#[trigger] r@[j]).0 as nat),
        forall|key: nat|
            sg_edge_w(g).dom().contains(key) ==> exists|j: int|
                0 <= j < r@.len() && (#[trigger] r@[j]).0 as nat == key,
{
    g.edge_indices().map(|ix| EdgeKey(ix.index())).collect()
}

/// Relies on StableGraph::edges_directed with Direction::Incoming: every
/// edge whose target is the node, as its source and weight; self-loops
/// included.
#[verifier::external_body]
fn sg_in_edges(g: &StableGraph<i64, i64, Directed, usize>, k: NodeKey) -> (r: Vec<(NodeKey, i64)>)
    ensures
        in_triples(r@, k.0 as nat).to_multiset() == sg_edge_ms(g).filter(into_node(k.0 as nat)),
{
    g.edges_directed(NodeIndex::new(k.0), Direction::Incoming)
        .map(|e| (NodeKey(e.source().index()), *e.weight()))
        .collect()
}

/// Relies on StableGraph::edges_directed with Direction::Outgoing: every
/// edge whose source is the node, as its target and weight; self-loops
/// included.
#[verifier::external_body]
fn sg_out_edges(g: &StableGraph<i64, i64, Directed, usize>, k: NodeKey) -> (r: Vec<(NodeKey, i64)>)
    ensures
        out_triples(r@, k.0 as nat).to_multiset() == sg_edge_ms(g).filter(from_node(k.0 as nat)),
{
    g.edges_directed(NodeIndex::new(k.0), Direction::Outgoing)
        .map(|e| (NodeKey(e.target().index()), *e.weight()))
        .collect()
}

/// Relies on StableGraph::node_references: every occupied node slot with
/// its weight, each once.
#[verifier::external_body]
fn sg_node_list(g: &StableGraph<i64, i64, Directed, usize>) -> (r: Vec<(NodeKey, i64)>)
    ensures
        forall|a: int, b: int| 0 <= a < b < r@.len() ==> r@[a].0.0 != r@[b].0.0,
        forall|j: int|
            0 <= j < r@.len() ==> sg_nodes(g).dom().contains((#[trigger] r@[j]).0.0 as nat)
                && r@[j].1 == sg_nodes(g)[r@[j].0.0 as nat],
        forall|key: nat|
            sg_nodes(g).dom().contains(key) ==> exists|j: int|
                0 <= j < r@.len() && (#[trigger] r@[j]).0.0 as nat == key,
{
    g.node_references().map(|(ix, w)| (NodeKey(ix.index()), *w)).collect()
}

/// Relies on StableGraph::edge_references: every edge with its endpoints
/// and weight; endpoints are always occupied node slots.
#[verifier::external_body]
fn sg_edge_list(g: &StableGraph<i64, i64, Directed, usize>) -> (r: Vec<(NodeKey, NodeKey, i64)>)
    ensures
        r@.map_values(|t: (NodeKey, NodeKey, i64)| ((t.0).0 as nat, (t.1).0 as nat, t.2))
            .to_multiset() == sg_edge_ms(g),
        forall|j: int|
            0 <= j < r@.len() ==> sg_nodes(g).dom().contains((#[trigger] r@[j]).0.0 as nat)
                && sg_nodes(g).dom().contains(r@[j].1.0 as nat),
{
    g.edge_references()
        .map(|e| (NodeKey(e.source().index()), NodeKey(e.target().index()), *e.weight()))
        .collect()
}


/// Whether a captured incoming entry still deserves rewiring: its edge is
/// still in the ambient graph, its neighbor is still allowed, and the
/// neighbor is external (not the replaced node itself).
pub open spec fn survives_from(ms: Multiset<(nat, nat, i64)>, k: nat, allowed: Seq<NodeKey>) -> spec_fn((NodeKey, i64)) -> bool {
    |p: (NodeKey, i64)|
        {
            &&& (p.0).0 as nat != k
            &&& exists|w: i64| ms.contains(((p.0).0 as nat, k, w))
            &&& allowed.contains(p.0)
        }
}

/// The outgoing counterpart of `survives_from`.
pub open spec fn survives_to(ms: Multiset<(nat, nat, i64)>, k: nat, allowed: Seq<NodeKey>) -> spec_fn((NodeKey, i64)) -> bool {
    |p: (NodeKey, i64)|
        {
            &&& (p.0).0 as nat != k
            &&& exists|w: i64| ms.contains((k, (p.0).0 as nat, w))
            &&& allowed.contains(p.0)
        }
}

/// Whether a captured incoming entry is a self-loop at the replaced node
/// that still deserves rewiring: the loop still exists and the node is
/// still in its own allowed incoming set.  A self-loop sits in both
/// captured lists; the incoming copy is the one that gets rewired, once,
/// from the exit port to the entry port.
pub open spec fn survives_loop(ms: Multiset<(nat, nat, i64)>, k: nat, allowed: Seq<NodeKey>) -> spec_fn((NodeKey, i64)) -> bool {
    |p: (NodeKey, i64)|
        {
            &&& (p.0).0 as nat == k
            &&& exists|w: i64| ms.contains((k, k, w))
            &&& allowed.contains(p.0)
        }
}

/// The whole effect of a node splice, with its witnesses laid open: `nmap`
/// is the key remapping the disjoint union induced, `rep_edges` an
/// enumeration of the replacement subgraph's edges.
pub open spec fn splice_witness(
    pre: KeyedGraph,
    k: nat,
    allowed_in: Seq<NodeKey>,
    allowed_out: Seq<NodeKey>,
    rep: KeyedGraph,
    entry: nat,
    exit: nat,
    cap_in: Seq<(NodeKey, i64)>,
    cap_out: Seq<(NodeKey, i64)>,
    post: KeyedGraph,
    nmap: Map<nat, nat>,
    rep_edges: Seq<(nat, nat, i64)>,
) -> bool {
    &&& nmap.dom() == sg_nodes(&rep).dom()
    &&& forall|a: nat, b: nat|
        nmap.dom().contains(a) && nmap.dom().contains(b) && a != b ==> #[trigger] nmap[a]
            != #[trigger] nmap[b]
    &&& forall|a: nat|
        nmap.dom().contains(a) ==> !sg_nodes(&pre).remove(k).dom().contains(#[trigger] nmap[a])
    &&& (sg_nodes(&rep).dom() == set![entry] ==> nmap[entry] == k)
    &&& forall|key: nat|
        #[trigger] sg_nodes(&pre).dom().contains(key) && key != k ==> sg_nodes(
            &post,
        ).dom().contains(key) && sg_nodes(&post)[key] == sg_nodes(&pre)[key]
    &&& forall|a: nat|
        nmap.dom().contains(a) ==> sg_nodes(&post).dom().contains(#[trigger] nmap[a]) && sg_nodes(
            &post,
        )[nmap[a]] == sg_nodes(&rep)[a]
    &&& forall|key: nat|
        #[trigger] sg_nodes(&post).dom().contains(key) ==> (sg_nodes(&pre).dom().contains(key)
            && key != k) || (exists|a: nat| nmap.dom().contains(a) && #[trigger] nmap[a] == key)
    &&& rep_edges.to_multiset() == sg_edge_ms(&rep)
    &&& forall|j: int|
        0 <= j < rep_edges.len() ==> nmap.dom().contains((#[trigger] rep_edges[j]).0)
            && nmap.dom().contains(rep_edges[j].1)
    &&& sg_edge_ms(&post) == sg_edge_ms(&pre).filter(away_from_node(k)).add(
        rep_edges.map_values(|t: (nat, nat, i64)| (nmap[t.0], nmap[t.1], t.2)).to_multiset(),
    ).add(
        in_triples(
            cap_in.filter(survives_from(sg_edge_ms(&pre), k, allowed_in)),
            nmap[entry],
        ).to_multiset(),
    ).add(
        out_triples(
            cap_out.filter(survives_to(sg_edge_ms(&pre), k, allowed_out)),
            nmap[exit],
        ).to_multiset(),
    ).add(
        loop_triples(
            cap_in.filter(survives_loop(sg_edge_ms(&pre), k, allowed_in)),
            nmap[exit],
            nmap[entry],
        ).to_multiset(),
    )
}

/// A node splice happened: some injective fresh remapping carried the
/// replacement subgraph into the ambient graph, the replaced node is gone,
/// and the surviving captured edges were rewired onto the two ports.
pub open spec fn splice_rewired(
    pre: KeyedGraph,
    k: nat,
    allowed_in: Seq<NodeKey>,
    allowed_out: Seq<NodeKey>,
    rep: KeyedGraph,
    entry: nat,
    exit: nat,
    cap_in: Seq<(NodeKey, i64)>,
    cap_out: Seq<(NodeKey, i64)>,
    post: KeyedGraph,
) -> bool {
    exists|nmap: Map<nat, nat>, rep_edges: Seq<(nat, nat, i64)>|
        #[trigger] splice_witness(
            pre,
            k,
            allowed_in,
            allowed_out,
            rep,
            entry,
            exit,
            cap_in,
            cap_out,
            post,
            nmap,
            rep_edges,
        )
}


proof fn lemma_to_multiset_filter<A>(s: Seq<A>, q: spec_fn(A) -> bool)
    ensures
        s.filter(q).to_multiset() == s.to_multiset().filter(q),
    decreases s.len(),
{
    broadcast use vstd::seq_lib::group_to_multiset_ensures;
    broadcast use vstd::multiset::group_multiset_axioms;

    reveal(Seq::filter);
    if s.len() == 0 {
        assert(s.filter(q) =~= s);
        assert(s.to_multiset().len() == 0);
        assert(s.filter(q).to_multiset() =~= s.to_multiset().filter(q));
    } else {
        let d = s.drop_last();
        let last = s.last();
        lemma_to_multiset_filter(d, q);
        assert(s =~= d.push(last));
        assert(s.to_multiset() == d.push(last).to_multiset());
        assert forall|x: A| true implies #[trigger] s.filter(q).to_multiset().count(x)
            == s.to_multiset().filter(q).count(x) by {
            if q(last) {
                assert(s.filter(q) == d.filter(q).push(last));
            } else {
                assert(s.filter(q) == d.filter(q));
            }
            assert(d.filter(q).to_multiset().count(x) == d.to_multiset().filter(q).count(x));
        }
        assert(s.filter(q).to_multiset() =~= s.to_multiset().filter(q));
    }
}

proof fn lemma_in_triples_filter(
    cap: Seq<(NodeKey, i64)>,
    k: nat,
    p: spec_fn((NodeKey, i64)) -> bool,
    q: spec_fn((nat, nat, i64)) -> bool,
)
    requires
        forall|j: int|
            #![trigger cap[j]]
            0 <= j < cap.len() ==> (p(cap[j]) <==> q((((cap[j].0).0 as nat, k, cap[j].1)))),
    ensures
        in_triples(cap.filter(p), k) == in_triples(cap, k).filter(q),
    decreases cap.len(),
{
    reveal(Seq::filter);
    if cap.len() == 0 {
        assert(cap.filter(p) =~= cap);
        assert(in_triples(cap, k) =~= Seq::<(nat, nat, i64)>::empty());
        assert(in_triples(cap.filter(p), k) =~= in_triples(cap, k).filter(q));
    } else {
        let d = cap.drop_last();
        let last = cap.last();
        let lastt = (((last.0).0 as nat, k, last.1));
        assert(forall|j: int| 0 <= j < d.len() ==> d[j] == cap[j]);
        lemma_in_triples_filter(d, k, p, q);
        assert(in_triples(cap, k) =~= in_triples(d, k).push(lastt));
        assert(in_triples(d, k).push(lastt).drop_last() =~= in_triples(d, k));
        assert(p(last) <==> q(lastt));
        if p(last) {
            assert(cap.filter(p) == d.filter(p).push(last));
            assert(in_triples(cap.filter(p), k) =~= in_triples(d.filter(p), k).push(lastt));
            assert(in_triples(cap, k).filter(q) == in_triples(d, k).filter(q).push(lastt));
            assert(in_triples(cap.filter(p), k) =~= in_triples(cap, k).filter(q));
        } else {
            assert(cap.filter(p) == d.filter(p));
            assert(in_triples(cap, k).filter(q) == in_triples(d, k).filter(q));
            assert(in_triples(cap.filter(p), k) =~= in_triples(cap, k).filter(q));
        }
    }
}

proof fn lemma_out_triples_filter(
    cap: Seq<(NodeKey, i64)>,
    k: nat,
    p: spec_fn((NodeKey, i64)) -> bool,
    q: spec_fn((nat, nat, i64)) -> bool,
)
    requires
        forall|j: int|
            #![trigger cap[j]]
            0 <= j < cap.len() ==> (p(cap[j]) <==> q((k, (cap[j].0).0 as nat, cap[j].1))),
    ensures
        out_triples(cap.filter(p), k) == out_triples(cap, k).filter(q),
    decreases cap.len(),
{
    reveal(Seq::filter);
    if cap.len() == 0 {
        assert(cap.filter(p) =~= cap);
        assert(out_triples(cap, k) =~= Seq::<(nat, nat, i64)>::empty());
        assert(out_triples(cap.filter(p), k) =~= out_triples(cap, k).filter(q));
    } else {
        let d = cap.drop_last();
        let last = cap.last();
        let lastt = (k, (last.0).0 as nat, last.1);
        assert(forall|j: int| 0 <= j < d.len() ==> d[j] == cap[j]);
        lemma_out_triples_filter(d, k, p, q);
        assert(out_triples(cap, k) =~= out_triples(d, k).push(lastt));
        assert(out_triples(d, k).push(lastt).drop_last() =~= out_triples(d, k));
        assert(p(last) <==> q(lastt));
        if p(last) {
            assert(cap.filter(p) == d.filter(p).push(last));
            assert(out_triples(cap.filter(p), k) =~= out_triples(d.filter(p), k).push(lastt));
            assert(out_triples(cap, k).filter(q) == out_triples(d, k).filter(q).push(lastt));
            assert(out_triples(cap.filter(p), k) =~= out_triples(cap, k).filter(q));
        } else {
            assert(cap.filter(p) == d.filter(p));
            assert(out_triples(cap, k).filter(q) == out_triples(d, k).filter(q));
            assert(out_triples(cap.filter(p), k) =~= out_triples(cap, k).filter(q));
        }
    }
}

proof fn lemma_loop_triples_filter(
    cap: Seq<(NodeKey, i64)>,
    k: nat,
    p: spec_fn((NodeKey, i64)) -> bool,
    q: spec_fn((nat, nat, i64)) -> bool,
)
    requires
        forall|j: int|
            #![trigger cap[j]]
            0 <= j < cap.len() ==> (p(cap[j]) <==> q((((cap[j].0).0 as nat, k, cap[j].1)))),
        forall|j: int| #![trigger cap[j]] 0 <= j < cap.len() && p(cap[j]) ==> (cap[j].0).0 as nat
            == k,
    ensures
        loop_triples(cap.filter(p), k, k) == in_triples(cap, k).filter(q),
    decreases cap.len(),
{
    reveal(Seq::filter);
    if cap.len() == 0 {
        assert(cap.filter(p) =~= cap);
        assert(in_triples(cap, k) =~= Seq::<(nat, nat, i64)>::empty());
        assert(loop_triples(cap.filter(p), k, k) =~= in_triples(cap, k).filter(q));
    } else {
        let d = cap.drop_last();
        let last = cap.last();
        let lastt = (((last.0).0 as nat, k, last.1));
        assert(forall|j: int| 0 <= j < d.len() ==> d[j] == cap[j]);
        lemma_loop_triples_filter(d, k, p, q);
        assert(in_triples(cap, k) =~= in_triples(d, k).push(lastt));
        assert(in_triples(d, k).push(lastt).drop_last() =~= in_triples(d, k));
        assert(p(last) <==> q(lastt));
        if p(last) {
            assert((last.0).0 as nat == k);
            assert(lastt == (k, k, last.1));
            assert(cap.filter(p) == d.filter(p).push(last));
            assert(loop_triples(cap.filter(p), k, k) =~= loop_triples(d.filter(p), k, k).push(
                (k, k, last.1),
            ));
            assert(in_triples(cap, k).filter(q) == in_triples(d, k).filter(q).push(lastt));
            assert(loop_triples(cap.filter(p), k, k) =~= in_triples(cap, k).filter(q));
        } else {
            assert(cap.filter(p) == d.filter(p));
            assert(in_triples(cap, k).filter(q) == in_triples(d, k).filter(q));
            assert(loop_triples(cap.filter(p), k, k) =~= in_triples(cap, k).filter(q));
        }
    }
}

/// Whether the list holds the key.
fn holds_key(v: &Vec<NodeKey>, x: NodeKey) -> (r: bool)
    ensures
        r == v@.contains(x),
{
    let mut j: usize = 0;
    while j < v.len()
        invariant
            j <= v@.len(),
            forall|t: int| 0 <= t < j ==> v@[t] != x,
        decreases v@.len() - j,
    {
        if v[j].0 == x.0 {
            return true;
        }
        j += 1;
    }
    false
}

/// Look a key up in an old-to-new key table.
fn mapped_key(table: &Vec<(NodeKey, NodeKey)>, x: NodeKey) -> (r: NodeKey)
    requires
        exists|t: int| 0 <= t < table@.len() && (#[trigger] table@[t]).0 == x,
    ensures
        exists|t: int| 0 <= t < table@.len() && (#[trigger] table@[t]).0 == x && table@[t].1 == r,
{
    let mut j: usize = 0;
    while j < table.len()
        invariant
            j <= table@.len(),
            forall|t: int| 0 <= t < j ==> (#[trigger] table@[t]).0 != x,
        decreases table@.len() - j,
    {
        if table[j].0.0 == x.0 {
            return table[j].1;
        }
        j += 1;
    }
    proof {
        assert(false);
    }
    NodeKey(0)
}

impl TakePutBack<
    NodeKey,
    (NodeKey, Vec<NodeKey>, Vec<NodeKey>),
> for StableGraph<i64, i64, Directed, usize> {
    type ItemType = (i64, Vec<(NodeKey, i64)>, Vec<(NodeKey, i64)>);

    type PutType = (
        StableGraph<i64, i64, Directed, usize>,
        NodeKey,
        NodeKey,
        Vec<(NodeKey, i64)>,
        Vec<(NodeKey, i64)>,
    );

    open spec fn obs_eq(&self, other: &Self) -> bool {
        &&& sg_nodes(self) == sg_nodes(other)
        &&& sg_edge_ms(self) == sg_edge_ms(other)
    }

    open spec fn valid_take(&self, i: NodeKey) -> bool {
        sg_nodes(self).dom().contains(i.0 as nat)
    }

    open spec fn valid_put(
        &self,
        i: (NodeKey, Vec<NodeKey>, Vec<NodeKey>),
        v: Self::PutType,
    ) -> bool {
        &&& sg_nodes(self).dom().contains(i.0.0 as nat)
        &&& sg_nodes(&v.0).dom().contains((v.1).0 as nat)
        &&& sg_nodes(&v.0).dom().contains((v.2).0 as nat)
    }

    open spec fn valid_put_idx(&self, i: (NodeKey, Vec<NodeKey>, Vec<NodeKey>)) -> bool {
        sg_nodes(self).dom().contains(i.0.0 as nat)
    }

    open spec fn put_err(
        &self,
        i: (NodeKey, Vec<NodeKey>, Vec<NodeKey>),
        v: Self::PutType,
    ) -> DispatchError {
        if !sg_nodes(self).dom().contains(i.0.0 as nat) {
            DispatchError::IndexNotFound
        } else {
            DispatchError::InvariantViolation
        }
    }

    open spec fn take_post(&self, i: NodeKey, post: &Self, item: &Self::ItemType) -> bool {
        &&& sg_nodes(self).dom().contains(i.0 as nat)
        &&& item.0 == sg_nodes(self)[i.0 as nat]
        &&& sg_nodes(post) == sg_nodes(self).insert(i.0 as nat, 0i64)
        &&& sg_edge_ms(post) == sg_edge_ms(self)
        &&& sg_edge_w(post) == sg_edge_w(self)
        &&& sg_edge_ends(post) == sg_edge_ends(self)
        &&& in_triples(item.1@, i.0 as nat).to_multiset() == sg_edge_ms(self).filter(
            into_node(i.0 as nat),
        )
        &&& out_triples(item.2@, i.0 as nat).to_multiset() == sg_edge_ms(self).filter(
            from_node(i.0 as nat),
        )
    }

    open spec fn put_post(
        &self,
        i: (NodeKey, Vec<NodeKey>, Vec<NodeKey>),
        v: Self::PutType,
        post: &Self,
    ) -> bool {
        splice_rewired(
            *self,
            i.0.0 as nat,
            i.1@,
            i.2@,
            v.0,
            (v.1).0 as nat,
            (v.2).0 as nat,
            v.3@,
            v.4@,
            *post,
        )
    }

    open spec fn pair_ok(&self, i1: NodeKey, i2: (NodeKey, Vec<NodeKey>, Vec<NodeKey>)) -> bool {
        &&& i2.0 == i1
        &&& sg_nodes(self).dom().contains(i1.0 as nat)
        &&& forall|s: NodeKey|
            #![trigger i2.1@.contains(s)]
            i2.1@.contains(s) <==> exists|w: i64| sg_edge_ms(self).contains(
                (s.0 as nat, i1.0 as nat, w),
            )
        &&& forall|s: NodeKey|
            #![trigger i2.2@.contains(s)]
            i2.2@.contains(s) <==> exists|w: i64| sg_edge_ms(self).contains(
                (i1.0 as nat, s.0 as nat, w),
            )
    }

    open spec fn nothing_rel(x: Self::ItemType, y: Self::PutType) -> bool {
        &&& exists|j: nat|
            sg_nodes(&y.0) == #[trigger] Map::<nat, i64>::empty().insert(j, x.0) && (y.1).0 as nat
                == j
        &&& y.2 == y.1
        &&& sg_edge_ms(&y.0) == Multiset::<(nat, nat, i64)>::empty()
        &&& y.3@ == x.1@
        &&& y.4@ == x.2@
    }

    open spec fn all_idces_post(
        &self,
        pairs: Seq<(NodeKey, (NodeKey, Vec<NodeKey>, Vec<NodeKey>))>,
    ) -> bool {
        &&& forall|j: int| 0 <= j < pairs.len() ==> ((#[trigger] pairs[j]).1).0 == pairs[j].0
        &&& forall|j: int|
            0 <= j < pairs.len() ==> sg_nodes(self).dom().contains(
                (#[trigger] pairs[j]).0.0 as nat,
            )
        &&& forall|a: int, b: int| 0 <= a < b < pairs.len() ==> pairs[a].0.0 != pairs[b].0.0
        &&& forall|key: nat|
            sg_nodes(self).dom().contains(key) ==> exists|j: int|
                0 <= j < pairs.len() && (#[trigger] pairs[j]).0.0 as nat == key
        &&& forall|j: int, s: NodeKey|
            #![trigger (pairs[j].1).1@.contains(s)]
            0 <= j < pairs.len() ==> ((pairs[j].1).1@.contains(s) <==> exists|w: i64|
                sg_edge_ms(self).contains((s.0 as nat, pairs[j].0.0 as nat, w)))
        &&& forall|j: int, s: NodeKey|
            #![trigger (pairs[j].1).2@.contains(s)]
            0 <= j < pairs.len() ==> ((pairs[j].1).2@.contains(s) <==> exists|w: i64|
                sg_edge_ms(self).contains((pairs[j].0.0 as nat, s.0 as nat, w)))
    }

    fn can_take(&self, index_into: &NodeKey) -> (r: bool) {
        sg_contains_node(self, *index_into)
    }

    fn can_put(&self, index_into: &(NodeKey, Vec<NodeKey>, Vec<NodeKey>)) -> (r: bool) {
        sg_contains_node(self, index_into.0)
    }

    fn take(&mut self, index_into: &NodeKey) -> (r: Result<Self::ItemType, DispatchError>) {
        let k = *index_into;
        match sg_swap_node_weight(self, k, 0) {
            None => Err(DispatchError::IndexNotFound),
            Some(w0) => {
                let ins = sg_in_edges(self, k);
                let outs = sg_out_edges(self, k);
                Ok((w0, ins, outs))
            },
        }
    }

    #[verifier::loop_isolation(false)]
    #[verifier::rlimit(60)]
    fn put_back(
        &mut self,
        index_into: &(NodeKey, Vec<NodeKey>, Vec<NodeKey>),
        reinsert: Self::PutType,
    ) -> (r: Result<(), DispatchError>) {
        let (rep, entry, exit, cap_in, cap_out) = reinsert;
        let node = index_into.0;
        let ghost kn = node.0 as nat;
        if !sg_contains_node(self, node) {
            return Err(DispatchError::IndexNotFound);
        }
        if !sg_contains_node(&rep, entry) || !sg_contains_node(&rep, exit) {
            return Err(DispatchError::InvariantViolation);
        }
        let ghost pre = *self;

        // Filter the captured ambient edges against the current graph.
        let mut surv_in: Vec<(NodeKey, i64)> = Vec::new();
        let mut j: usize = 0;
        while j < cap_in.len()
            invariant
                j <= cap_in@.len(),
                *self == pre,
                surv_in@ =~= cap_in@.take(j as int).filter(
                    survives_from(sg_edge_ms(&pre), kn, index_into.1@),
                ),
                forall|t: int|
                    0 <= t < surv_in@.len() ==> sg_nodes(&pre).dom().contains(
                        (#[trigger] surv_in@[t]).0.0 as nat,
                    ) && surv_in@[t].0.0 != node.0,
            decreases cap_in@.len() - j,
        {
            let p = cap_in[j];
            let keep = p.0.0 != node.0 && sg_contains_edge(self, p.0, node) && holds_key(
                &index_into.1,
                p.0,
            );
            if keep {
                surv_in.push(p);
            }
            j += 1;
            proof {
                reveal_with_fuel(Seq::filter, 3);
                let pred = survives_from(sg_edge_ms(&pre), kn, index_into.1@);
                assert(cap_in@.take(j as int) =~= cap_in@.take(j - 1 as int) + seq![p]);
                assert(cap_in@.take(j - 1 as int).filter(pred) + seq![p].filter(pred)
                    =~= cap_in@.take(j as int).filter(pred)) by {
                    Seq::filter_distributes_over_add(
                        cap_in@.take(j - 1 as int),
                        seq![p],
                        pred,
                    );
                }
                if pred(p) {
                    assert(seq![p].filter(pred) =~= seq![p]) by {
                        assert(seq![p].drop_last() =~= Seq::<(NodeKey, i64)>::empty());
                    }
                } else {
                    assert(seq![p].filter(pred) =~= Seq::<(NodeKey, i64)>::empty()) by {
                        assert(seq![p].drop_last() =~= Seq::<(NodeKey, i64)>::empty());
                    }
                }
            }
        }
        proof {
            assert(cap_in@.take(cap_in@.len() as int) =~= cap_in@);
        }

        let mut surv_out: Vec<(NodeKey, i64)> = Vec::new();
        let mut j: usize = 0;
        while j < cap_out.len()
            invariant
                j <= cap_out@.len(),
                *self == pre,
                surv_out@ =~= cap_out@.take(j as int).filter(
                    survives_to(sg_edge_ms(&pre), kn, index_into.2@),
                ),
                forall|t: int|
                    0 <= t < surv_out@.len() ==> sg_nodes(&pre).dom().contains(
                        (#[trigger] surv_out@[t]).0.0 as nat,
                    ) && surv_out@[t].0.0 != node.0,
            decreases cap_out@.len() - j,
        {
            let p = cap_out[j];
            let keep = p.0.0 != node.0 && sg_contains_edge(self, node, p.0) && holds_key(
                &index_into.2,
                p.0,
            );
            if keep {
                surv_out.push(p);
            }
            j += 1;
            proof {
                reveal_with_fuel(Seq::filter, 3);
                let pred = survives_to(sg_edge_ms(&pre), kn, index_into.2@);
                assert(cap_out@.take(j as int) =~= cap_out@.take(j - 1 as int) + seq![p]);
                assert(cap_out@.take(j - 1 as int).filter(pred) + seq![p].filter(pred)
                    =~= cap_out@.take(j as int).filter(pred)) by {
                    Seq::filter_distributes_over_add(
                        cap_out@.take(j - 1 as int),
                        seq![p],
                        pred,
                    );
                }
                if pred(p) {
                    assert(seq![p].filter(pred) =~= seq![p]) by {
                        assert(seq![p].drop_last() =~= Seq::<(NodeKey, i64)>::empty());
                    }
                } else {
                    assert(seq![p].filter(pred) =~= Seq::<(NodeKey, i64)>::empty()) by {
                        assert(seq![p].drop_last() =~= Seq::<(NodeKey, i64)>::empty());
                    }
                }
            }
        }
        proof {
            assert(cap_out@.take(cap_out@.len() as int) =~= cap_out@);
        }

        // Self-loops at the replaced node sit in both captured lists; the
        // incoming copies are the ones rewired, once each.
        let mut surv_loop: Vec<(NodeKey, i64)> = Vec::new();
        let mut j: usize = 0;
        while j < cap_in.len()
            invariant
                j <= cap_in@.len(),
                *self == pre,
                surv_loop@ =~= cap_in@.take(j as int).filter(
                    survives_loop(sg_edge_ms(&pre), kn, index_into.1@),
                ),
            decreases cap_in@.len() - j,
        {
            let p = cap_in[j];
            let keep = p.0.0 == node.0 && sg_contains_edge(self, node, node) && holds_key(
                &index_into.1,
                p.0,
            );
            if keep {
                surv_loop.push(p);
            }
            j += 1;
            proof {
                reveal_with_fuel(Seq::filter, 3);
                let pred = survives_loop(sg_edge_ms(&pre), kn, index_into.1@);
                assert(cap_in@.take(j as int) =~= cap_in@.take(j - 1 as int) + seq![p]);
                assert(cap_in@.take(j - 1 as int).filter(pred) + seq![p].filter(pred)
                    =~= cap_in@.take(j as int).filter(pred)) by {
                    Seq::filter_distributes_over_add(
                        cap_in@.take(j - 1 as int),
                        seq![p],
                        pred,
                    );
                }
                if pred(p) {
                    assert(seq![p].filter(pred) =~= seq![p]) by {
                        assert(seq![p].drop_last() =~= Seq::<(NodeKey, i64)>::empty());
                    }
                } else {
                    assert(seq![p].filter(pred) =~= Seq::<(NodeKey, i64)>::empty()) by {
                        assert(seq![p].drop_last() =~= Seq::<(NodeKey, i64)>::empty());
                    }
                }
            }
        }
        proof {
            assert(cap_in@.take(cap_in@.len() as int) =~= cap_in@);
        }

        // Remove the replaced node; its edges go with it.
        let removed = sg_remove_node(self, node);

        // Disjoint union with the replacement subgraph, recording the key
        // remapping it induces.
        let rep_nodes = sg_node_list(&rep);
        let rep_edge_list = sg_edge_list(&rep);
        let mut table: Vec<(NodeKey, NodeKey)> = Vec::new();
        let ghost mut nmap: Map<nat, nat> = Map::empty();
        let mut j: usize = 0;
        while j < rep_nodes.len()
            invariant
                j <= rep_nodes@.len(),
                table@.len() == j,
                forall|t: int|
                    0 <= t < j ==> (#[trigger] table@[t]).0 == rep_nodes@[t].0 && nmap.dom(
                    ).contains(table@[t].0.0 as nat) && nmap[table@[t].0.0 as nat] == table@[t].1.0
                        as nat,
                forall|a: nat|
                    #[trigger] nmap.dom().contains(a) ==> exists|t: int|
                        0 <= t < j && (#[trigger] rep_nodes@[t]).0.0 as nat == a,
                forall|a: nat, b: nat|
                    nmap.dom().contains(a) && nmap.dom().contains(b) && a != b ==> #[trigger]
                    nmap[a] != #[trigger] nmap[b],
                forall|a: nat|
                    nmap.dom().contains(a) ==> !sg_nodes(&pre).remove(kn).dom().contains(
                        #[trigger] nmap[a],
                    ),
                forall|key: nat|
                    #[trigger] sg_nodes(&pre).dom().contains(key) && key != kn ==> sg_nodes(
                        self,
                    ).dom().contains(key) && sg_nodes(self)[key] == sg_nodes(&pre)[key],
                forall|a: nat|
                    nmap.dom().contains(a) ==> sg_nodes(self).dom().contains(#[trigger] nmap[a])
                        && sg_nodes(self)[nmap[a]] == sg_nodes(&rep)[a],
                forall|key: nat|
                    #[trigger] sg_nodes(self).dom().contains(key) ==> (sg_nodes(
                        &pre,
                    ).dom().contains(key) && key != kn) || (exists|a: nat|
                        nmap.dom().contains(a) && #[trigger] nmap[a] == key),
                sg_edge_ms(self) == sg_edge_ms(&pre).filter(away_from_node(kn)),
                j >= 1 && rep_nodes@.len() == 1 ==> nmap[rep_nodes@[0].0.0 as nat] == kn,
                j == 0 ==> sg_fresh_node_key(self) == kn,
            decreases rep_nodes@.len() - j,
        {
            let (old_key, weight) = rep_nodes[j];
            proof {
                assert(!nmap.dom().contains(old_key.0 as nat)) by {
                    if nmap.dom().contains(old_key.0 as nat) {
                        let t = choose|t: int|
                            0 <= t < j && (#[trigger] rep_nodes@[t]).0.0 as nat == old_key.0
                                as nat;
                        assert(rep_nodes@[t].0.0 != rep_nodes@[j as int].0.0);
                    }
                }
            }
            let ghost pre_add = *self;
            let ghost nmap0 = nmap;
            let new_key = sg_add_node(self, weight);
            table.push((old_key, new_key));
            proof {
                nmap = nmap.insert(old_key.0 as nat, new_key.0 as nat);
                assert((#[trigger] rep_nodes@[j as int]).0.0 as nat == old_key.0 as nat);
                assert(nmap[old_key.0 as nat] == new_key.0 as nat);
                assert forall|key: nat| #[trigger] sg_nodes(self).dom().contains(key) implies ((
                sg_nodes(&pre).dom().contains(key) && key != kn) || (exists|a: nat|
                    nmap.dom().contains(a) && #[trigger] nmap[a] == key)) by {
                    if key == new_key.0 as nat {
                        assert(nmap.dom().contains(old_key.0 as nat) && nmap[old_key.0 as nat]
                            == key);
                    } else {
                        assert(sg_nodes(&pre_add).dom().contains(key));
                        if !(sg_nodes(&pre).dom().contains(key) && key != kn) {
                            let a = choose|a: nat|
                                nmap0.dom().contains(a) && #[trigger] nmap0[a] == key;
                            assert(a != old_key.0 as nat);
                            assert(nmap.dom().contains(a) && nmap[a] == key);
                        }
                    }
                }
            }
            j += 1;
        }

        // The key remapping covers exactly the replacement's nodes.
        proof {
            assert forall|key: nat| sg_nodes(&rep).dom().contains(key) implies nmap.dom().contains(
                key,
            ) by {
                let t = choose|t: int|
                    0 <= t < rep_nodes@.len() && (#[trigger] rep_nodes@[t]).0.0 as nat == key;
                assert(table@[t].0 == rep_nodes@[t].0);
            }
            assert forall|a: nat| nmap.dom().contains(a) implies sg_nodes(&rep).dom().contains(
                a,
            ) by {
                let t = choose|t: int|
                    0 <= t < rep_nodes@.len() && (#[trigger] rep_nodes@[t]).0.0 as nat == a;
            }
            assert(nmap.dom() =~= sg_nodes(&rep).dom());
        }
        let ghost nu = *self;

        // Add the replacement subgraph's edges under the new keys.
        let ghost rep_edges_nat = rep_edge_list@.map_values(
            |t: (NodeKey, NodeKey, i64)| ((t.0).0 as nat, (t.1).0 as nat, t.2),
        );
        let ghost after_union_ms = sg_edge_ms(self);
        proof {
            broadcast use vstd::seq_lib::group_to_multiset_ensures;
            broadcast use vstd::multiset::group_multiset_axioms;
            let zero = rep_edges_nat.take(0).map_values(
                |t: (nat, nat, i64)| (nmap[t.0], nmap[t.1], t.2),
            );
            assert(zero =~= Seq::<(nat, nat, i64)>::empty());
            assert(zero.to_multiset().len() == 0);
            assert(sg_edge_ms(self) =~= after_union_ms.add(zero.to_multiset()));
        }
        let mut j: usize = 0;
        while j < rep_edge_list.len()
            invariant
                j <= rep_edge_list@.len(),
                sg_nodes(self) == sg_nodes(&nu),
                sg_edge_ms(self) == after_union_ms.add(
                    rep_edges_nat.take(j as int).map_values(
                        |t: (nat, nat, i64)| (nmap[t.0], nmap[t.1], t.2),
                    ).to_multiset(),
                ),
            decreases rep_edge_list@.len() - j,
        {
            let (a_old, b_old, w) = rep_edge_list[j];
            proof {
                assert(sg_nodes(&rep).dom().contains(a_old.0 as nat));
                assert(sg_nodes(&rep).dom().contains(b_old.0 as nat));
                assert(nmap.dom().contains(a_old.0 as nat));
                let ta = choose|t: int|
                    0 <= t < rep_nodes@.len() && (#[trigger] rep_nodes@[t]).0.0 as nat == a_old.0
                        as nat;
                assert(table@[ta].0.0 as nat == a_old.0 as nat);
                assert(table@[ta].0 == a_old);
                assert(nmap.dom().contains(b_old.0 as nat));
                let tb = choose|t: int|
                    0 <= t < rep_nodes@.len() && (#[trigger] rep_nodes@[t]).0.0 as nat == b_old.0
                        as nat;
                assert(table@[tb].0.0 as nat == b_old.0 as nat);
                assert(table@[tb].0 == b_old);
            }
            let a_new = mapped_key(&table, a_old);
            let b_new = mapped_key(&table, b_old);
            proof {
                assert(a_new.0 as nat == nmap[a_old.0 as nat]);
                assert(b_new.0 as nat == nmap[b_old.0 as nat]);
            }
            sg_add_edge(self, a_new, b_new, w);
            j += 1;
            proof {
                let remap = |t: (nat, nat, i64)| (nmap[t.0], nmap[t.1], t.2);
                assert(rep_edges_nat.take(j as int) =~= rep_edges_nat.take((j - 1) as int).push(
                    rep_edges_nat[(j - 1) as int],
                ));
                assert(rep_edges_nat.take(j as int).map_values(remap) =~= rep_edges_nat.take(
                    (j - 1) as int,
                ).map_values(remap).push(remap(rep_edges_nat[(j - 1) as int])));
                broadcast use vstd::seq_lib::group_to_multiset_ensures;
                broadcast use vstd::multiset::group_multiset_axioms;
                assert(sg_edge_ms(self) =~= after_union_ms.add(
                    rep_edges_nat.take(j as int).map_values(remap).to_multiset(),
                ));
            }
        }
        proof {
            assert(rep_edges_nat.take(rep_edges_nat.len() as int) =~= rep_edges_nat);
        }

        // Rewire the surviving ambient edges onto the two ports.
        proof {
            assert(nmap.dom().contains(entry.0 as nat));
            let te = choose|t: int|
                0 <= t < rep_nodes@.len() && (#[trigger] rep_nodes@[t]).0.0 as nat == entry.0
                    as nat;
            assert(table@[te].0.0 as nat == entry.0 as nat);
            assert(table@[te].0 == entry);
            assert(nmap.dom().contains(exit.0 as nat));
            let tx = choose|t: int|
                0 <= t < rep_nodes@.len() && (#[trigger] rep_nodes@[t]).0.0 as nat == exit.0
                    as nat;
            assert(table@[tx].0.0 as nat == exit.0 as nat);
            assert(table@[tx].0 == exit);
        }
        let entry_new = mapped_key(&table, entry);
        let exit_new = mapped_key(&table, exit);
        proof {
            assert(entry_new.0 as nat == nmap[entry.0 as nat]);
            assert(exit_new.0 as nat == nmap[exit.0 as nat]);
        }

        let ghost before_in_ms = sg_edge_ms(self);
        proof {
            broadcast use vstd::seq_lib::group_to_multiset_ensures;
            broadcast use vstd::multiset::group_multiset_axioms;
            let zero = in_triples(surv_in@.take(0), entry_new.0 as nat);
            assert(zero =~= Seq::<(nat, nat, i64)>::empty());
            assert(zero.to_multiset().len() == 0);
            assert(sg_edge_ms(self) =~= before_in_ms.add(zero.to_multiset()));
        }
        let mut j: usize = 0;
        while j < surv_in.len()
            invariant
                j <= surv_in@.len(),
                sg_nodes(self) == sg_nodes(&nu),
                sg_edge_ms(self) == before_in_ms.add(
                    in_triples(surv_in@.take(j as int), entry_new.0 as nat).to_multiset(),
                ),
            decreases surv_in@.len() - j,
        {
            let p = surv_in[j];
            proof {
                assert(sg_nodes(&pre).dom().contains(p.0.0 as nat) && p.0.0 != node.0);
                assert(sg_nodes(self).dom().contains(p.0.0 as nat));
                assert(sg_nodes(self).dom().contains(entry_new.0 as nat));
            }
            sg_add_edge(self, p.0, entry_new, p.1);
            j += 1;
            proof {
                assert(surv_in@.take(j as int) =~= surv_in@.take((j - 1) as int).push(p));
                assert(in_triples(surv_in@.take(j as int), entry_new.0 as nat) =~= in_triples(
                    surv_in@.take((j - 1) as int),
                    entry_new.0 as nat,
                ).push((p.0.0 as nat, entry_new.0 as nat, p.1)));
                broadcast use vstd::seq_lib::group_to_multiset_ensures;
                broadcast use vstd::multiset::group_multiset_axioms;
                assert(sg_edge_ms(self) =~= before_in_ms.add(
                    in_triples(surv_in@.take(j as int), entry_new.0 as nat).to_multiset(),
                ));
            }
        }
        proof {
            assert(surv_in@.take(surv_in@.len() as int) =~= surv_in@);
        }

        let ghost before_out_ms = sg_edge_ms(self);
        proof {
            broadcast use vstd::seq_lib::group_to_multiset_ensures;
            broadcast use vstd::multiset::group_multiset_axioms;
            let zero = out_triples(surv_out@.take(0), exit_new.0 as nat);
            assert(zero =~= Seq::<(nat, nat, i64)>::empty());
            assert(zero.to_multiset().len() == 0);
            assert(sg_edge_ms(self) =~= before_out_ms.add(zero.to_multiset()));
        }
        let mut j: usize = 0;
        while j < surv_out.len()
            invariant
                j <= surv_out@.len(),
                sg_nodes(self) == sg_nodes(&nu),
                sg_edge_ms(self) == before_out_ms.add(
                    out_triples(surv_out@.take(j as int), exit_new.0 as nat).to_multiset(),
                ),
            decreases surv_out@.len() - j,
        {
            let p = surv_out[j];
            proof {
                assert(sg_nodes(&pre).dom().contains(p.0.0 as nat) && p.0.0 != node.0);
                assert(sg_nodes(self).dom().contains(p.0.0 as nat));
                assert(sg_nodes(self).dom().contains(exit_new.0 as nat));
            }
            sg_add_edge(self, exit_new, p.0, p.1);
            j += 1;
            proof {
                assert(surv_out@.take(j as int) =~= surv_out@.take((j - 1) as int).push(p));
                assert(out_triples(surv_out@.take(j as int), exit_new.0 as nat) =~= out_triples(
                    surv_out@.take((j - 1) as int),
                    exit_new.0 as nat,
                ).push((exit_new.0 as nat, p.0.0 as nat, p.1)));
                broadcast use vstd::seq_lib::group_to_multiset_ensures;
                broadcast use vstd::multiset::group_multiset_axioms;
                assert(sg_edge_ms(self) =~= before_out_ms.add(
                    out_triples(surv_out@.take(j as int), exit_new.0 as nat).to_multiset(),
                ));
            }
        }
        // Rewire the surviving self-loops, once each, from the exit port
        // to the entry port.
        let ghost before_loop_ms = sg_edge_ms(self);
        proof {
            broadcast use vstd::seq_lib::group_to_multiset_ensures;
            broadcast use vstd::multiset::group_multiset_axioms;
            assert(surv_out@.take(surv_out@.len() as int) =~= surv_out@);
            let zero = loop_triples(surv_loop@.take(0), exit_new.0 as nat, entry_new.0 as nat);
            assert(zero =~= Seq::<(nat, nat, i64)>::empty());
            assert(zero.to_multiset().len() == 0);
            assert(sg_edge_ms(self) =~= before_loop_ms.add(zero.to_multiset()));
        }
        let mut j: usize = 0;
        while j < surv_loop.len()
            invariant
                j <= surv_loop@.len(),
                sg_nodes(self) == sg_nodes(&nu),
                sg_edge_ms(self) == before_loop_ms.add(
                    loop_triples(
                        surv_loop@.take(j as int),
                        exit_new.0 as nat,
                        entry_new.0 as nat,
                    ).to_multiset(),
                ),
            decreases surv_loop@.len() - j,
        {
            let p = surv_loop[j];
            proof {
                assert(sg_nodes(self).dom().contains(exit_new.0 as nat));
                assert(sg_nodes(self).dom().contains(entry_new.0 as nat));
            }
            sg_add_edge(self, exit_new, entry_new, p.1);
            j += 1;
            proof {
                assert(surv_loop@.take(j as int) =~= surv_loop@.take((j - 1) as int).push(p));
                assert(loop_triples(
                    surv_loop@.take(j as int),
                    exit_new.0 as nat,
                    entry_new.0 as nat,
                ) =~= loop_triples(
                    surv_loop@.take((j - 1) as int),
                    exit_new.0 as nat,
                    entry_new.0 as nat,
                ).push((exit_new.0 as nat, entry_new.0 as nat, p.1)));
                broadcast use vstd::seq_lib::group_to_multiset_ensures;
                broadcast use vstd::multiset::group_multiset_axioms;
                assert(sg_edge_ms(self) =~= before_loop_ms.add(
                    loop_triples(
                        surv_loop@.take(j as int),
                        exit_new.0 as nat,
                        entry_new.0 as nat,
                    ).to_multiset(),
                ));
            }
        }
        proof {
            assert(surv_loop@.take(surv_loop@.len() as int) =~= surv_loop@);
            broadcast use vstd::multiset::group_multiset_axioms;
            if sg_nodes(&rep).dom() == set![entry.0 as nat] {
                assert(sg_nodes(&rep).dom().contains(entry.0 as nat));
                assert(rep_nodes@.len() >= 1) by {
                    assert(exists|t: int|
                        0 <= t < rep_nodes@.len() && (#[trigger] rep_nodes@[t]).0.0 as nat
                            == entry.0 as nat);
                }
                assert(rep_nodes@.len() <= 1) by {
                    if rep_nodes@.len() >= 2 {
                        assert(sg_nodes(&rep).dom().contains(rep_nodes@[0].0.0 as nat));
                        assert(sg_nodes(&rep).dom().contains(rep_nodes@[1].0.0 as nat));
                        assert(set![entry.0 as nat].contains(rep_nodes@[0].0.0 as nat));
                        assert(set![entry.0 as nat].contains(rep_nodes@[1].0.0 as nat));
                        assert(rep_nodes@[0].0.0 as nat == rep_nodes@[1].0.0 as nat);
                        assert(rep_nodes@[0].0.0 != rep_nodes@[1].0.0);
                    }
                }
                assert(sg_nodes(&rep).dom().contains(rep_nodes@[0].0.0 as nat));
                assert(set![entry.0 as nat].contains(rep_nodes@[0].0.0 as nat));
                assert(rep_nodes@[0].0.0 as nat == entry.0 as nat);
                assert(nmap[entry.0 as nat] == kn);
            }
            assert forall|t: int| 0 <= t < rep_edges_nat.len() implies nmap.dom().contains(
                (#[trigger] rep_edges_nat[t]).0,
            ) && nmap.dom().contains(rep_edges_nat[t].1) by {
                assert(rep_edges_nat[t].0 == (#[trigger] rep_edge_list@[t]).0.0 as nat);
                assert(rep_edges_nat[t].1 == rep_edge_list@[t].1.0 as nat);
            }
            assert(surv_in@ == cap_in@.filter(survives_from(sg_edge_ms(&pre), kn, index_into.1@)));
            assert(surv_out@ == cap_out@.filter(survives_to(sg_edge_ms(&pre), kn, index_into.2@)));
            assert(surv_loop@ == cap_in@.filter(
                survives_loop(sg_edge_ms(&pre), kn, index_into.1@),
            ));
            assert(entry_new.0 as nat == nmap[entry.0 as nat]);
            assert(exit_new.0 as nat == nmap[exit.0 as nat]);
            let aw = sg_edge_ms(&pre).filter(away_from_node(kn));
            let remapped_ms = rep_edges_nat.map_values(
                |t: (nat, nat, i64)| (nmap[t.0], nmap[t.1], t.2),
            ).to_multiset();
            let in_ms = in_triples(
                cap_in@.filter(survives_from(sg_edge_ms(&pre), kn, index_into.1@)),
                nmap[entry.0 as nat],
            ).to_multiset();
            let out_ms = out_triples(
                cap_out@.filter(survives_to(sg_edge_ms(&pre), kn, index_into.2@)),
                nmap[exit.0 as nat],
            ).to_multiset();
            let lp_ms = loop_triples(
                cap_in@.filter(survives_loop(sg_edge_ms(&pre), kn, index_into.1@)),
                nmap[exit.0 as nat],
                nmap[entry.0 as nat],
            ).to_multiset();
            assert(after_union_ms == aw);
            assert(before_in_ms == aw.add(remapped_ms));
            assert(in_triples(surv_in@, entry_new.0 as nat).to_multiset() == in_ms);
            assert(before_out_ms == before_in_ms.add(in_ms));
            assert(out_triples(surv_out@, exit_new.0 as nat).to_multiset() == out_ms);
            assert(before_loop_ms == before_out_ms.add(out_ms));
            assert(loop_triples(surv_loop@, exit_new.0 as nat, entry_new.0 as nat).to_multiset()
                == lp_ms);
            assert(sg_edge_ms(self) == before_loop_ms.add(lp_ms));
            assert(sg_edge_ms(self) == aw.add(remapped_ms).add(in_ms).add(out_ms).add(lp_ms));
            assert(splice_witness(
                pre,
                kn,
                index_into.1@,
                index_into.2@,
                rep,
                entry.0 as nat,
                exit.0 as nat,
                cap_in@,
                cap_out@,
                *self,
                nmap,
                rep_edges_nat,
            ));
        }
        Ok(())
    }

    fn do_nothing_process(item: Self::ItemType) -> (r: Self::PutType) {
        let mut g = sg_new();
        let j = sg_add_node(&mut g, item.0);
        proof {
            assert(sg_nodes(&g) == Map::<nat, i64>::empty().insert(j.0 as nat, item.0));
        }
        (g, j, j, item.1, item.2)
    }

    #[verifier::loop_isolation(false)]
    fn all_idces_inout(&self) -> (r: Vec<(NodeKey, (NodeKey, Vec<NodeKey>, Vec<NodeKey>))>) {
        let keys = sg_node_keys(self);
        let mut r: Vec<(NodeKey, (NodeKey, Vec<NodeKey>, Vec<NodeKey>))> = Vec::new();
        let mut j: usize = 0;
        while j < keys.len()
            invariant
                j <= keys@.len(),
                r@.len() == j,
                forall|t: int|
                    0 <= t < j ==> (#[trigger] r@[t]).0 == keys@[t] && (r@[t].1).0 == keys@[t],
                forall|t: int, s: NodeKey|
                    #![trigger (r@[t].1).1@.contains(s)]
                    0 <= t < j ==> ((r@[t].1).1@.contains(s) <==> exists|w: i64|
                        sg_edge_ms(self).contains((s.0 as nat, r@[t].0.0 as nat, w))),
                forall|t: int, s: NodeKey|
                    #![trigger (r@[t].1).2@.contains(s)]
                    0 <= t < j ==> ((r@[t].1).2@.contains(s) <==> exists|w: i64|
                        sg_edge_ms(self).contains((r@[t].0.0 as nat, s.0 as nat, w))),
            decreases keys@.len() - j,
        {
            let k = keys[j];
            let ghost kn = k.0 as nat;
            let ins = sg_in_edges(self, k);
            let outs = sg_out_edges(self, k);
            let mut in_ns: Vec<NodeKey> = Vec::new();
            let mut t: usize = 0;
            while t < ins.len()
                invariant
                    t <= ins@.len(),
                    in_ns@.len() == t,
                    forall|u: int| 0 <= u < t ==> #[trigger] in_ns@[u] == ins@[u].0,
                decreases ins@.len() - t,
            {
                in_ns.push(ins[t].0);
                t += 1;
            }
            let mut out_ns: Vec<NodeKey> = Vec::new();
            let mut t: usize = 0;
            while t < outs.len()
                invariant
                    t <= outs@.len(),
                    out_ns@.len() == t,
                    forall|u: int| 0 <= u < t ==> #[trigger] out_ns@[u] == outs@[u].0,
                decreases outs@.len() - t,
            {
                out_ns.push(outs[t].0);
                t += 1;
            }
            proof {
                broadcast use vstd::seq_lib::group_to_multiset_ensures;
                broadcast use vstd::multiset::group_multiset_axioms;
                assert forall|s: NodeKey| in_ns@.contains(s) implies exists|w: i64|
                    sg_edge_ms(self).contains((s.0 as nat, kn, w)) by {
                    let u = choose|u: int| 0 <= u < in_ns@.len() && in_ns@[u] == s;
                    let trip = (s.0 as nat, kn, ins@[u].1);
                    assert(in_triples(ins@, kn)[u] == trip);
                    assert(in_triples(ins@, kn).contains(trip));
                    assert(in_triples(ins@, kn).to_multiset().contains(trip));
                    assert(sg_edge_ms(self).filter(into_node(kn)).contains(trip));
                    assert(sg_edge_ms(self).contains(trip));
                }
                assert forall|s: NodeKey| (exists|w: i64|
                    sg_edge_ms(self).contains((s.0 as nat, kn, w))) implies in_ns@.contains(s) by {
                    let w = choose|w: i64| sg_edge_ms(self).contains((s.0 as nat, kn, w));
                    let trip = (s.0 as nat, kn, w);
                    assert(into_node(kn)(trip));
                    assert(sg_edge_ms(self).filter(into_node(kn)).contains(trip));
                    assert(in_triples(ins@, kn).to_multiset().contains(trip));
                    assert(in_triples(ins@, kn).contains(trip));
                    let u = choose|u: int|
                        0 <= u < in_triples(ins@, kn).len() && in_triples(ins@, kn)[u] == trip;
                    assert(ins@[u].0.0 as nat == s.0 as nat);
                    assert(ins@[u].0.0 == s.0);
                    assert(in_ns@[u] == ins@[u].0);
                    assert(in_ns@[u] == s);
                }
                assert forall|s: NodeKey| out_ns@.contains(s) implies exists|w: i64|
                    sg_edge_ms(self).contains((kn, s.0 as nat, w)) by {
                    let u = choose|u: int| 0 <= u < out_ns@.len() && out_ns@[u] == s;
                    let trip = (kn, s.0 as nat, outs@[u].1);
                    assert(out_triples(outs@, kn)[u] == trip);
                    assert(out_triples(outs@, kn).contains(trip));
                    assert(out_triples(outs@, kn).to_multiset().contains(trip));
                    assert(sg_edge_ms(self).filter(from_node(kn)).contains(trip));
                    assert(sg_edge_ms(self).contains(trip));
                }
                assert forall|s: NodeKey| (exists|w: i64|
                    sg_edge_ms(self).contains((kn, s.0 as nat, w))) implies out_ns@.contains(s) by {
                    let w = choose|w: i64| sg_edge_ms(self).contains((kn, s.0 as nat, w));
                    let trip = (kn, s.0 as nat, w);
                    assert(from_node(kn)(trip));
                    assert(sg_edge_ms(self).filter(from_node(kn)).contains(trip));
                    assert(out_triples(outs@, kn).to_multiset().contains(trip));
                    assert(out_triples(outs@, kn).contains(trip));
                    let u = choose|u: int|
                        0 <= u < out_triples(outs@, kn).len() && out_triples(outs@, kn)[u] == trip;
                    assert(outs@[u].0.0 as nat == s.0 as nat);
                    assert(outs@[u].0.0 == s.0);
                    assert(out_ns@[u] == outs@[u].0);
                    assert(out_ns@[u] == s);
                }
            }
            r.push((k, (k, in_ns, out_ns)));
            j += 1;
        }
        proof {
            assert forall|key: nat| sg_nodes(self).dom().contains(key) implies exists|t: int|
                0 <= t < r@.len() && (#[trigger] r@[t]).0.0 as nat == key by {
                let jj = choose|jj: int| 0 <= jj < keys@.len() && (#[trigger] keys@[jj]).0 as nat
                    == key;
                assert(r@[jj].0.0 as nat == key);
            }
        }
        r
    }

    proof fn law_take_preserves_valid(
        &self,
        i: NodeKey,
        post: &Self,
        item: &Self::ItemType,
        j: NodeKey,
    ) {
    }

    proof fn law_put_target(&self, i: (NodeKey, Vec<NodeKey>, Vec<NodeKey>), v: Self::PutType) {
    }

    proof fn law_nothing_valid(
        &self,
        i1: NodeKey,
        i2: (NodeKey, Vec<NodeKey>, Vec<NodeKey>),
        mid: &Self,
        item: &Self::ItemType,
        y: Self::PutType,
    ) {
    }

    proof fn law_nothing_restores(
        &self,
        i1: NodeKey,
        i2: (NodeKey, Vec<NodeKey>, Vec<NodeKey>),
        mid: &Self,
        item: &Self::ItemType,
        y: Self::PutType,
        post: &Self,
    ) {
        lemma_splice_put_restores(*mid, i1, i2, *item, y, *post, sg_edge_ms(self));
        assert(sg_nodes(post) =~= sg_nodes(self));
    }
}

impl TakePutBack<NodeKey, NodeKey> for StableGraph<i64, i64, Directed, usize> {
    type ItemType = i64;

    type PutType = i64;

    open spec fn obs_eq(&self, other: &Self) -> bool {
        &&& sg_nodes(self) == sg_nodes(other)
        &&& sg_edge_ms(self) == sg_edge_ms(other)
        &&& sg_edge_w(self) == sg_edge_w(other)
        &&& sg_edge_ends(self) == sg_edge_ends(other)
    }

    open spec fn valid_take(&self, i: NodeKey) -> bool {
        sg_nodes(self).dom().contains(i.0 as nat)
    }

    open spec fn valid_put(&self, i: NodeKey, v: i64) -> bool {
        sg_nodes(self).dom().contains(i.0 as nat)
    }

    open spec fn valid_put_idx(&self, i: NodeKey) -> bool {
        sg_nodes(self).dom().contains(i.0 as nat)
    }

    open spec fn put_err(&self, i: NodeKey, v: i64) -> DispatchError {
        DispatchError::IndexNotFound
    }

    open spec fn take_post(&self, i: NodeKey, post: &Self, item: &i64) -> bool {
        &&& sg_nodes(self).dom().contains(i.0 as nat)
        &&& *item == sg_nodes(self)[i.0 as nat]
        &&& sg_nodes(post) == sg_nodes(self).insert(i.0 as nat, 0i64)
        &&& sg_edge_ms(post) == sg_edge_ms(self)
        &&& sg_edge_w(post) == sg_edge_w(self)
        &&& sg_edge_ends(post) == sg_edge_ends(self)
    }

    open spec fn put_post(&self, i: NodeKey, v: i64, post: &Self) -> bool {
        &&& sg_nodes(self).dom().contains(i.0 as nat)
        &&& sg_nodes(post) == sg_nodes(self).insert(i.0 as nat, v)
        &&& sg_edge_ms(post) == sg_edge_ms(self)
        &&& sg_edge_w(post) == sg_edge_w(self)
        &&& sg_edge_ends(post) == sg_edge_ends(self)
    }

    open spec fn pair_ok(&self, i1: NodeKey, i2: NodeKey) -> bool {
        i2 == i1 && sg_nodes(self).dom().contains(i1.0 as nat)
    }

    open spec fn nothing_rel(x: i64, y: i64) -> bool {
        y == x
    }

    open spec fn all_idces_post(&self, pairs: Seq<(NodeKey, NodeKey)>) -> bool {
        &&& forall|k: int| 0 <= k < pairs.len() ==> (#[trigger] pairs[k]).1 == pairs[k].0
        &&& forall|k: int|
            0 <= k < pairs.len() ==> sg_nodes(self).dom().contains((#[trigger] pairs[k]).0.0 as nat)
        &&& forall|a: int, b: int| 0 <= a < b < pairs.len() ==> pairs[a].0.0 != pairs[b].0.0
        &&& forall|key: nat|
            sg_nodes(self).dom().contains(key) ==> exists|j: int|
                0 <= j < pairs.len() && (#[trigger] pairs[j]).0.0 as nat == key
    }

    fn can_take(&self, index_into: &NodeKey) -> (r: bool) {
        sg_contains_node(self, *index_into)
    }

    fn can_put(&self, index_into: &NodeKey) -> (r: bool) {
        sg_contains_node(self, *index_into)
    }

    fn take(&mut self, index_into: &NodeKey) -> (r: Result<i64, DispatchError>) {
        match sg_swap_node_weight(self, *index_into, 0) {
            Some(x) => Ok(x),
            None => Err(DispatchError::IndexNotFound),
        }
    }

    fn put_back(&mut self, index_into: &NodeKey, reinsert: i64) -> (r: Result<(), DispatchError>) {
        match sg_swap_node_weight(self, *index_into, reinsert) {
            Some(_) => Ok(()),
            None => Err(DispatchError::IndexNotFound),
        }
    }

    #[verifier::loop_isolation(false)]
    fn all_idces_inout(&self) -> (r: Vec<(NodeKey, NodeKey)>) {
        let keys = sg_node_keys(self);
        let mut r: Vec<(NodeKey, NodeKey)> = Vec::new();
        let mut j: usize = 0;
        while j < keys.len()
            invariant
                j <= keys@.len(),
                r@.len() == j,
                forall|t: int| 0 <= t < j ==> #[trigger] r@[t] == (keys@[t], keys@[t]),
            decreases keys@.len() - j,
        {
            let k = keys[j];
            r.push((k, k));
            j += 1;
        }
        proof {
            assert forall|key: nat| sg_nodes(self).dom().contains(key) implies exists|t: int|
                0 <= t < r@.len() && (#[trigger] r@[t]).0.0 as nat == key by {
                let jj = choose|jj: int| 0 <= jj < keys@.len() && (#[trigger] keys@[jj]).0 as nat
                    == key;
                assert(r@[jj].0.0 as nat == key);
            }
        }
        r
    }

    fn do_nothing_process(item: i64) -> (r: i64) {
        item
    }

    proof fn law_take_preserves_valid(&self, i: NodeKey, post: &Self, item: &i64, j: NodeKey) {
    }

    proof fn law_put_target(&self, i: NodeKey, v: i64) {
    }

    proof fn law_nothing_valid(&self, i1: NodeKey, i2: NodeKey, mid: &Self, item: &i64, y: i64) {
    }

    proof fn law_nothing_restores(
        &self,
        i1: NodeKey,
        i2: NodeKey,
        mid: &Self,
        item: &i64,
        y: i64,
        post: &Self,
    ) {
        assert(sg_nodes(post) =~= sg_nodes(self));
    }
}

impl TakePutBack<EdgeKey, EdgeKey> for StableGraph<i64, i64, Directed, usize> {
    type ItemType = i64;

    type PutType = i64;

    open spec fn obs_eq(&self, other: &Self) -> bool {
        &&& sg_nodes(self) == sg_nodes(other)
        &&& sg_edge_w(self) == sg_edge_w(other)
        &&& sg_edge_ends(self) == sg_edge_ends(other)
    }

    open spec fn valid_take(&self, i: EdgeKey) -> bool {
        sg_edge_w(self).dom().contains(i.0 as nat)
    }

    open spec fn valid_put(&self, i: EdgeKey, v: i64) -> bool {
        sg_edge_w(self).dom().contains(i.0 as nat)
    }

    open spec fn valid_put_idx(&self, i: EdgeKey) -> bool {
        sg_edge_w(self).dom().contains(i.0 as nat)
    }

    open spec fn put_err(&self, i: EdgeKey, v: i64) -> DispatchError {
        DispatchError::IndexNotFound
    }

    open spec fn take_post(&self, i: EdgeKey, post: &Self, item: &i64) -> bool {
        &&& sg_edge_w(self).dom().contains(i.0 as nat)
        &&& *item == sg_edge_w(self)[i.0 as nat]
        &&& sg_edge_w(post) == sg_edge_w(self).insert(i.0 as nat, 0i64)
        &&& sg_nodes(post) == sg_nodes(self)
        &&& sg_edge_ends(post) == sg_edge_ends(self)
    }

    open spec fn put_post(&self, i: EdgeKey, v: i64, post: &Self) -> bool {
        &&& sg_edge_w(self).dom().contains(i.0 as nat)
        &&& sg_edge_w(post) == sg_edge_w(self).insert(i.0 as nat, v)
        &&& sg_nodes(post) == sg_nodes(self)
        &&& sg_edge_ends(post) == sg_edge_ends(self)
    }

    open spec fn pair_ok(&self, i1: EdgeKey, i2: EdgeKey) -> bool {
        i2 == i1 && sg_edge_w(self).dom().contains(i1.0 as nat)
    }

    open spec fn nothing_rel(x: i64, y: i64) -> bool {
        y == x
    }

    open spec fn all_idces_post(&self, pairs: Seq<(EdgeKey, EdgeKey)>) -> bool {
        &&& forall|k: int| 0 <= k < pairs.len() ==> (#[trigger] pairs[k]).1 == pairs[k].0
        &&& forall|k: int|
            0 <= k < pairs.len() ==> sg_edge_w(self).dom().contains(
                (#[trigger] pairs[k]).0.0 as nat,
            )
        &&& forall|a: int, b: int| 0 <= a < b < pairs.len() ==> pairs[a].0.0 != pairs[b].0.0
        &&& forall|key: nat|
            sg_edge_w(self).dom().contains(key) ==> exists|j: int|
                0 <= j < pairs.len() && (#[trigger] pairs[j]).0.0 as nat == key
    }

    fn can_take(&self, index_into: &EdgeKey) -> (r: bool) {
        sg_contains_edge_key(self, *index_into)
    }

    fn can_put(&self, index_into: &EdgeKey) -> (r: bool) {
        sg_contains_edge_key(self, *index_into)
    }

    fn take(&mut self, index_into: &EdgeKey) -> (r: Result<i64, DispatchError>) {
        match sg_swap_edge_weight(self, *index_into, 0) {
            Some(x) => Ok(x),
            None => Err(DispatchError::IndexNotFound),
        }
    }

    fn put_back(&mut self, index_into: &EdgeKey, reinsert: i64) -> (r: Result<(), DispatchError>) {
        match sg_swap_edge_weight(self, *index_into, reinsert) {
            Some(_) => Ok(()),
            None => Err(DispatchError::IndexNotFound),
        }
    }

    #[verifier::loop_isolation(false)]
    fn all_idces_inout(&self) -> (r: Vec<(EdgeKey, EdgeKey)>) {
        let keys = sg_edge_keys(self);
        let mut r: Vec<(EdgeKey, EdgeKey)> = Vec::new();
        let mut j: usize = 0;
        while j < keys.len()
            invariant
                j <= keys@.len(),
                r@.len() == j,
                forall|t: int| 0 <= t < j ==> #[trigger] r@[t] == (keys@[t], keys@[t]),
            decreases keys@.len() - j,
        {
            let k = keys[j];
            r.push((k, k));
            j += 1;
        }
        proof {
            assert forall|key: nat| sg_edge_w(self).dom().contains(key) implies exists|t: int|
                0 <= t < r@.len() && (#[trigger] r@[t]).0.0 as nat == key by {
                let jj = choose|jj: int| 0 <= jj < keys@.len() && (#[trigger] keys@[jj]).0 as nat
                    == key;
                assert(r@[jj].0.0 as nat == key);
            }
        }
        r
    }

    fn do_nothing_process(item: i64) -> (r: i64) {
        item
    }

    proof fn law_take_preserves_valid(&self, i: EdgeKey, post: &Self, item: &i64, j: EdgeKey) {
    }

    proof fn law_put_target(&self, i: EdgeKey, v: i64) {
    }

    proof fn law_nothing_valid(&self, i1: EdgeKey, i2: EdgeKey, mid: &Self, item: &i64, y: i64) {
    }

    proof fn law_nothing_restores(
        &self,
        i1: EdgeKey,
        i2: EdgeKey,
        mid: &Self,
        item: &i64,
        y: i64,
        post: &Self,
    ) {
        assert(sg_edge_w(post) =~= sg_edge_w(self));
    }
}

/// Relies on Graph::node_weight for presence of a node.
#[verifier::external_body]
fn g_contains_node(g: &Graph<i64, i64, Directed, usize>, k: NodeKey) -> (r: bool)
    ensures
        r == g_nodes(g).dom().contains(k.0 as nat),
{
    g.node_weight(NodeIndex::new(k.0)).is_some()
}

/// Relies on Graph::edge_weight for presence of an edge key.
#[verifier::external_body]
fn g_contains_edge_key(g: &Graph<i64, i64, Directed, usize>, e: EdgeKey) -> (r: bool)
    ensures
        r == g_edge_w(g).dom().contains(e.0 as nat),
{
    g.edge_weight(EdgeIndex::new(e.0)).is_some()
}

/// Relies on Graph::node_weight_mut: swaps a new weight into the node
/// slot and hands back the old one.
#[verifier::external_body]
fn g_swap_node_weight(g: &mut Graph<i64, i64, Directed, usize>, k: NodeKey, new: i64) -> (r: Option<
    i64,
>)
    ensures
        r is Some <==> g_nodes(old(g)).dom().contains(k.0 as nat),
        r is None ==> *final(g) == *old(g),
        r is Some ==> r == Some(g_nodes(old(g))[k.0 as nat]),
        r is Some ==> g_nodes(final(g)) == g_nodes(old(g)).insert(k.0 as nat, new),
        r is Some ==> g_edge_w(final(g)) == g_edge_w(old(g)),
        r is Some ==> g_edge_ends(final(g)) == g_edge_ends(old(g)),
{
    match g.node_weight_mut(NodeIndex::new(k.0)) {
        Some(z) => Some(core::mem::replace(z, new)),
        None => None,
    }
}

/// Relies on Graph::edge_weight_mut: swaps a new weight into the edge
/// slot and hands back the old one.
#[verifier::external_body]
fn g_swap_edge_weight(g: &mut Graph<i64, i64, Directed, usize>, e: EdgeKey, new: i64) -> (r: Option<
    i64,
>)
    ensures
        r is Some <==> g_edge_w(old(g)).dom().contains(e.0 as nat),
        r is None ==> *final(g) == *old(g),
        r is Some ==> r == Some(g_edge_w(old(g))[e.0 as nat]),
        r is Some ==> g_edge_w(final(g)) == g_edge_w(old(g)).insert(e.0 as nat, new),
        r is Some ==> g_nodes(final(g)) == g_nodes(old(g)),
        r is Some ==> g_edge_ends(final(g)) == g_edge_ends(old(g)),
{
    match g.edge_weight_mut(EdgeIndex::new(e.0)) {
        Some(z) => Some(core::mem::replace(z, new)),
        None => None,
    }
}

/// Relies on Graph::node_indices: every node slot, each once.
#[verifier::external_body]
fn g_node_keys(g: &Graph<i64, i64, Directed, usize>) -> (r: Vec<NodeKey>)
    ensures
        forall|a: int, b: int| 0 <= a < b < r@.len() ==> r@[a].0 != r@[b].0,
        forall|j: int| 0 <= j < r@.len() ==> g_nodes(g).dom().contains((#[trigger] r@[j]).0 as nat),
        forall|key: nat|
            g_nodes(g).dom().contains(key) ==> exists|j: int|
                0 <= j < r@.len() && (#[trigger] r@[j]).0 as nat == key,
{
    g.node_indices().map(|ix| NodeKey(ix.index())).collect()
}

/// Relies on Graph::edge_indices: every edge slot, each once.
#[verifier::external_body]
fn g_edge_keys(g: &Graph<i64, i64, Directed, usize>) -> (r: Vec<EdgeKey>)
    ensures
        forall|a: int, b: int| 0 <= a < b < r@.len() ==> r@[a].0 != r@[b].0,
        forall|j: int| 0 <= j < r@.len() ==> g_edge_w(g).dom().contains((#[trigger] r@[j]).0 as nat),
        forall|key: nat|
            g_edge_w(g).dom().contains(key) ==> exists|j: int|
                0 <= j < r@.len() && (#[trigger] r@[j]).0 as nat == key,
{
    g.edge_indices().map(|ix| EdgeKey(ix.index())).collect()
}

impl TakePutBack<NodeKey, NodeKey> for Graph<i64, i64, Directed, usize> {
    type ItemType = i64;

    type PutType = i64;

    open spec fn obs_eq(&self, other: &Self) -> bool {
        &&& g_nodes(self) == g_nodes(other)
        &&& g_edge_w(self) == g_edge_w(other)
        &&& g_edge_ends(self) == g_edge_ends(other)
    }

    open spec fn valid_take(&self, i: NodeKey) -> bool {
        g_nodes(self).dom().contains(i.0 as nat)
    }

    open spec fn valid_put(&self, i: NodeKey, v: i64) -> bool {
        g_nodes(self).dom().contains(i.0 as nat)
    }

    open spec fn valid_put_idx(&self, i: NodeKey) -> bool {
        g_nodes(self).dom().contains(i.0 as nat)
    }

    open spec fn put_err(&self, i: NodeKey, v: i64) -> DispatchError {
        DispatchError::IndexNotFound
    }

    open spec fn take_post(&self, i: NodeKey, post: &Self, item: &i64) -> bool {
        &&& g_nodes(self).dom().contains(i.0 as nat)
        &&& *item == g_nodes(self)[i.0 as nat]
        &&& g_nodes(post) == g_nodes(self).insert(i.0 as nat, 0i64)
        &&& g_edge_w(post) == g_edge_w(self)
        &&& g_edge_ends(post) == g_edge_ends(self)
    }

    open spec fn put_post(&self, i: NodeKey, v: i64, post: &Self) -> bool {
        &&& g_nodes(self).dom().contains(i.0 as nat)
        &&& g_nodes(post) == g_nodes(self).insert(i.0 as nat, v)
        &&& g_edge_w(post) == g_edge_w(self)
        &&& g_edge_ends(post) == g_edge_ends(self)
    }

    open spec fn pair_ok(&self, i1: NodeKey, i2: NodeKey) -> bool {
        i2 == i1 && g_nodes(self).dom().contains(i1.0 as nat)
    }

    open spec fn nothing_rel(x: i64, y: i64) -> bool {
        y == x
    }

    open spec fn all_idces_post(&self, pairs: Seq<(NodeKey, NodeKey)>) -> bool {
        &&& forall|k: int| 0 <= k < pairs.len() ==> (#[trigger] pairs[k]).1 == pairs[k].0
        &&& forall|k: int|
            0 <= k < pairs.len() ==> g_nodes(self).dom().contains((#[trigger] pairs[k]).0.0 as nat)
        &&& forall|a: int, b: int| 0 <= a < b < pairs.len() ==> pairs[a].0.0 != pairs[b].0.0
        &&& forall|key: nat|
            g_nodes(self).dom().contains(key) ==> exists|j: int|
                0 <= j < pairs.len() && (#[trigger] pairs[j]).0.0 as nat == key
    }

    fn can_take(&self, index_into: &NodeKey) -> (r: bool) {
        g_contains_node(self, *index_into)
    }

    fn can_put(&self, index_into: &NodeKey) -> (r: bool) {
        g_contains_node(self, *index_into)
    }

    fn take(&mut self, index_into: &NodeKey) -> (r: Result<i64, DispatchError>) {
        match g_swap_node_weight(self, *index_into, 0) {
            Some(x) => Ok(x),
            None => Err(DispatchError::IndexNotFound),
        }
    }

    fn put_back(&mut self, index_into: &NodeKey, reinsert: i64) -> (r: Result<(), DispatchError>) {
        match g_swap_node_weight(self, *index_into, reinsert) {
            Some(_) => Ok(()),
            None => Err(DispatchError::IndexNotFound),
        }
    }

    #[verifier::loop_isolation(false)]
    fn all_idces_inout(&self) -> (r: Vec<(NodeKey, NodeKey)>) {
        let keys = g_node_keys(self);
        let mut r: Vec<(NodeKey, NodeKey)> = Vec::new();
        let mut j: usize = 0;
        while j < keys.len()
            invariant
                j <= keys@.len(),
                r@.len() == j,
                forall|t: int| 0 <= t < j ==> #[trigger] r@[t] == (keys@[t], keys@[t]),
            decreases keys@.len() - j,
        {
            let k = keys[j];
            r.push((k, k));
            j += 1;
        }
        proof {
            assert forall|key: nat| g_nodes(self).dom().contains(key) implies exists|t: int|
                0 <= t < r@.len() && (#[trigger] r@[t]).0.0 as nat == key by {
                let jj = choose|jj: int| 0 <= jj < keys@.len() && (#[trigger] keys@[jj]).0 as nat
                    == key;
                assert(r@[jj].0.0 as nat == key);
            }
        }
        r
    }

    fn do_nothing_process(item: i64) -> (r: i64) {
        item
    }

    proof fn law_take_preserves_valid(&self, i: NodeKey, post: &Self, item: &i64, j: NodeKey) {
    }

    proof fn law_put_target(&self, i: NodeKey, v: i64) {
    }

    proof fn law_nothing_valid(&self, i1: NodeKey, i2: NodeKey, mid: &Self, item: &i64, y: i64) {
    }

    proof fn law_nothing_restores(
        &self,
        i1: NodeKey,
        i2: NodeKey,
        mid: &Self,
        item: &i64,
        y: i64,
        post: &Self,
    ) {
        assert(g_nodes(post) =~= g_nodes(self));
    }
}

impl TakePutBack<EdgeKey, EdgeKey> for Graph<i64, i64, Directed, usize> {
    type ItemType = i64;

    type PutType = i64;

    open spec fn obs_eq(&self, other: &Self) -> bool {
        &&& g_nodes(self) == g_nodes(other)
        &&& g_edge_w(self) == g_edge_w(other)
        &&& g_edge_ends(self) == g_edge_ends(other)
    }

    open spec fn valid_take(&self, i: EdgeKey) -> bool {
        g_edge_w(self).dom().contains(i.0 as nat)
    }

    open spec fn valid_put(&self, i: EdgeKey, v: i64) -> bool {
        g_edge_w(self).dom().contains(i.0 as nat)
    }

    open spec fn valid_put_idx(&self, i: EdgeKey) -> bool {
        g_edge_w(self).dom().contains(i.0 as nat)
    }

    open spec fn put_err(&self, i: EdgeKey, v: i64) -> DispatchError {
        DispatchError::IndexNotFound
    }

    open spec fn take_post(&self, i: EdgeKey, post: &Self, item: &i64) -> bool {
        &&& g_edge_w(self).dom().contains(i.0 as nat)
        &&& *item == g_edge_w(self)[i.0 as nat]
        &&& g_edge_w(post) == g_edge_w(self).insert(i.0 as nat, 0i64)
        &&& g_nodes(post) == g_nodes(self)
        &&& g_edge_ends(post) == g_edge_ends(self)
    }

    open spec fn put_post(&self, i: EdgeKey, v: i64, post: &Self) -> bool {
        &&& g_edge_w(self).dom().contains(i.0 as nat)
        &&& g_edge_w(post) == g_edge_w(self).insert(i.0 as nat, v)
        &&& g_nodes(post) == g_nodes(self)
        &&& g_edge_ends(post) == g_edge_ends(self)
    }

    open spec fn pair_ok(&self, i1: EdgeKey, i2: EdgeKey) -> bool {
        i2 == i1 && g_edge_w(self).dom().contains(i1.0 as nat)
    }

    open spec fn nothing_rel(x: i64, y: i64) -> bool {
        y == x
    }

    open spec fn all_idces_post(&self, pairs: Seq<(EdgeKey, EdgeKey)>) -> bool {
        &&& forall|k: int| 0 <= k < pairs.len() ==> (#[trigger] pairs[k]).1 == pairs[k].0
        &&& forall|k: int|
            0 <= k < pairs.len() ==> g_edge_w(self).dom().contains((#[trigger] pairs[k]).0.0 as nat)
        &&& forall|a: int, b: int| 0 <= a < b < pairs.len() ==> pairs[a].0.0 != pairs[b].0.0
        &&& forall|key: nat|
            g_edge_w(self).dom().contains(key) ==> exists|j: int|
                0 <= j < pairs.len() && (#[trigger] pairs[j]).0.0 as nat == key
    }

    fn can_take(&self, index_into: &EdgeKey) -> (r: bool) {
        g_contains_edge_key(self, *index_into)
    }

    fn can_put(&self, index_into: &EdgeKey) -> (r: bool) {
        g_contains_edge_key(self, *index_into)
    }

    fn take(&mut self, index_into: &EdgeKey) -> (r: Result<i64, DispatchError>) {
        match g_swap_edge_weight(self, *index_into, 0) {
            Some(x) => Ok(x),
            None => Err(DispatchError::IndexNotFound),
        }
    }

    fn put_back(&mut self, index_into: &EdgeKey, reinsert: i64) -> (r: Result<(), DispatchError>) {
        match g_swap_edge_weight(self, *index_into, reinsert) {
            Some(_) => Ok(()),
            None => Err(DispatchError::IndexNotFound),
        }
    }

    #[verifier::loop_isolation(false)]
    fn all_idces_inout(&self) -> (r: Vec<(EdgeKey, EdgeKey)>) {
        let keys = g_edge_keys(self);
        let mut r: Vec<(EdgeKey, EdgeKey)> = Vec::new();
        let mut j: usize = 0;
        while j < keys.len()
            invariant
                j <= keys@.len(),
                r@.len() == j,
                forall|t: int| 0 <= t < j ==> #[trigger] r@[t] == (keys@[t], keys@[t]),
            decreases keys@.len() - j,
        {
            let k = keys[j];
            r.push((k, k));
            j += 1;
        }
        proof {
            assert forall|key: nat| g_edge_w(self).dom().contains(key) implies exists|t: int|
                0 <= t < r@.len() && (#[trigger] r@[t]).0.0 as nat == key by {
                let jj = choose|jj: int| 0 <= jj < keys@.len() && (#[trigger] keys@[jj]).0 as nat
                    == key;
                assert(r@[jj].0.0 as nat == key);
            }
        }
        r
    }

    fn do_nothing_process(item: i64) -> (r: i64) {
        item
    }

    proof fn law_take_preserves_valid(&self, i: EdgeKey, post: &Self, item: &i64, j: EdgeKey) {
    }

    proof fn law_put_target(&self, i: EdgeKey, v: i64) {
    }

    proof fn law_nothing_valid(&self, i1: EdgeKey, i2: EdgeKey, mid: &Self, item: &i64, y: i64) {
    }

    proof fn law_nothing_restores(
        &self,
        i1: EdgeKey,
        i2: EdgeKey,
        mid: &Self,
        item: &i64,
        y: i64,
        post: &Self,
    ) {
        assert(g_edge_w(post) =~= g_edge_w(self));
    }
}

/// Every work item pairs a node with itself, in bounds, and no two work
/// items alias.
pub open spec fn node_self_pairs_for(pairs: Seq<(NodeKey, NodeKey)>, dom: Set<nat>) -> bool {
    &&& forall|k: int|
        0 <= k < pairs.len() ==> (#[trigger] pairs[k]).1 == pairs[k].0 && dom.contains(
            pairs[k].0.0 as nat,
        )
    &&& forall|a: int, b: int| 0 <= a < b < pairs.len() ==> pairs[a].0.0 != pairs[b].0.0
}

/// Node `key` is extracted by some work item.
pub open spec fn node_taken(pairs: Seq<(NodeKey, NodeKey)>, key: nat) -> bool {
    exists|k: int| 0 <= k < pairs.len() && (#[trigger] pairs[k]).0.0 as nat == key
}

proof fn lemma_sg_node_takes_identity(
    s0: StableGraph<i64, i64, Directed, usize>,
    pairs: Seq<(NodeKey, NodeKey)>,
    mid: StableGraph<i64, i64, Directed, usize>,
    items: Seq<i64>,
)
    requires
        takes_rel(s0, pairs, mid, items),
        node_self_pairs_for(pairs, sg_nodes(&s0).dom()),
    ensures
        sg_nodes(&mid).dom() == sg_nodes(&s0).dom(),
        sg_edge_ms(&mid) == sg_edge_ms(&s0),
        sg_edge_w(&mid) == sg_edge_w(&s0),
        sg_edge_ends(&mid) == sg_edge_ends(&s0),
        items.len() == pairs.len(),
        forall|k: int|
            0 <= k < pairs.len() ==> items[k] == sg_nodes(&s0)[(#[trigger] pairs[k]).0.0 as nat],
        forall|key: nat|
            sg_nodes(&s0).dom().contains(key) && !node_taken(pairs, key) ==> sg_nodes(&mid)[key]
                == sg_nodes(&s0)[key],
    decreases pairs.len(),
{
    if pairs.len() == 0 {
    } else {
        let m1 = choose|m1: StableGraph<i64, i64, Directed, usize>|
            #[trigger] <StableGraph<i64, i64, Directed, usize> as TakePutBack<
                NodeKey,
                NodeKey,
            >>::take_post(&s0, pairs[0].0, &m1, &items[0]) && takes_rel(
                m1,
                pairs.drop_first(),
                mid,
                items.drop_first(),
            );
        let k0 = pairs[0].0.0 as nat;
        assert(sg_nodes(&m1) == sg_nodes(&s0).insert(k0, 0i64));
        assert(sg_nodes(&m1).dom() =~= sg_nodes(&s0).dom());
        assert(node_self_pairs_for(pairs.drop_first(), sg_nodes(&m1).dom())) by {
            assert(forall|k: int|
                0 <= k < pairs.drop_first().len() ==> pairs.drop_first()[k] == pairs[k + 1]);
        }
        lemma_sg_node_takes_identity(m1, pairs.drop_first(), mid, items.drop_first());
        assert forall|k: int| #![trigger pairs[k]] 0 <= k < pairs.len() implies items[k]
            == sg_nodes(&s0)[pairs[k].0.0 as nat] by {
            if k > 0 {
                assert(pairs.drop_first()[k - 1] == pairs[k]);
                assert(items.drop_first()[k - 1] == items[k]);
                assert(pairs[k].0.0 as nat != k0);
                assert(sg_nodes(&m1)[pairs[k].0.0 as nat] == sg_nodes(&s0)[pairs[k].0.0 as nat]);
            }
        }
        assert forall|key: nat|
            sg_nodes(&s0).dom().contains(key) && !node_taken(pairs, key) implies sg_nodes(
            &mid,
        )[key] == sg_nodes(&s0)[key] by {
            assert(pairs[0].0.0 as nat != key);
            assert(!node_taken(pairs.drop_first(), key)) by {
                if node_taken(pairs.drop_first(), key) {
                    let k = choose|k: int|
                        0 <= k < pairs.drop_first().len() && (#[trigger] pairs.drop_first()[
                            k
                        ]).0.0 as nat == key;
                    assert(pairs[k + 1].0.0 as nat == key);
                }
            }
            assert(sg_nodes(&m1)[key] == sg_nodes(&s0)[key]);
        }
    }
}

proof fn lemma_sg_node_puts_identity(
    base: Map<nat, i64>,
    base_ms: Multiset<(nat, nat, i64)>,
    base_w: Map<nat, i64>,
    base_ends: Map<nat, (nat, nat)>,
    mid: StableGraph<i64, i64, Directed, usize>,
    pairs: Seq<(NodeKey, NodeKey)>,
    results: Seq<i64>,
    s1: StableGraph<i64, i64, Directed, usize>,
    r: Result<(), DispatchError>,
)
    requires
        puts_run(mid, pairs, results, s1, r),
        sg_nodes(&mid).dom() == base.dom(),
        sg_edge_ms(&mid) == base_ms,
        sg_edge_w(&mid) == base_w,
        sg_edge_ends(&mid) == base_ends,
        node_self_pairs_for(pairs, base.dom()),
        results.len() == pairs.len(),
        forall|k: int|
            0 <= k < pairs.len() ==> results[k] == base[(#[trigger] pairs[k]).0.0 as nat],
        forall|key: nat|
            base.dom().contains(key) && !node_taken(pairs, key) ==> sg_nodes(&mid)[key]
                == base[key],
    ensures
        r is Ok,
        sg_nodes(&s1) == base,
        sg_edge_ms(&s1) == base_ms,
        sg_edge_w(&s1) == base_w,
        sg_edge_ends(&s1) == base_ends,
    decreases pairs.len(),
{
    if pairs.len() == 0 {
        assert forall|key: nat| base.dom().contains(key) implies sg_nodes(&s1)[key]
            == base[key] by {
            assert(!node_taken(pairs, key));
        }
        assert(sg_nodes(&s1) =~= base);
    } else {
        let k0 = pairs[0].0.0 as nat;
        assert(<StableGraph<i64, i64, Directed, usize> as TakePutBack<
            NodeKey,
            NodeKey,
        >>::valid_put(&mid, pairs[0].1, results[0]));
        let m2 = choose|m2: StableGraph<i64, i64, Directed, usize>|
            #[trigger] <StableGraph<i64, i64, Directed, usize> as TakePutBack<
                NodeKey,
                NodeKey,
            >>::put_post(&mid, pairs[0].1, results[0], &m2) && puts_run(
                m2,
                pairs.drop_first(),
                results.drop_first(),
                s1,
                r,
            );
        assert(sg_nodes(&m2) == sg_nodes(&mid).insert(k0, base[k0]));
        assert(sg_nodes(&m2).dom() =~= base.dom());
        assert(node_self_pairs_for(pairs.drop_first(), base.dom())) by {
            assert(forall|k: int|
                0 <= k < pairs.drop_first().len() ==> pairs.drop_first()[k] == pairs[k + 1]);
        }
        assert forall|key: nat|
            base.dom().contains(key) && !node_taken(pairs.drop_first(), key) implies sg_nodes(
            &m2,
        )[key] == base[key] by {
            if key == k0 {
            } else {
                assert(!node_taken(pairs, key)) by {
                    if node_taken(pairs, key) {
                        let k = choose|k: int|
                            0 <= k < pairs.len() && (#[trigger] pairs[k]).0.0 as nat == key;
                        assert(k > 0);
                        assert(pairs.drop_first()[k - 1].0.0 as nat == key);
                    }
                }
            }
        }
        assert(forall|k: int|
            0 <= k < pairs.drop_first().len() ==> results.drop_first()[k]
                == base[(#[trigger] pairs.drop_first()[k]).0.0 as nat]) by {
            assert(forall|k: int|
                0 <= k < pairs.drop_first().len() ==> pairs.drop_first()[k] == pairs[k + 1]
                    && results.drop_first()[k] == results[k + 1]);
        }
        lemma_sg_node_puts_identity(
            base,
            base_ms,
            base_w,
            base_ends,
            m2,
            pairs.drop_first(),
            results.drop_first(),
            s1,
            r,
        );
    }
}

proof fn lemma_sg_node_chunk_identity<F: Fn(i64) -> i64>(
    s0: StableGraph<i64, i64, Directed, usize>,
    pairs: Seq<(NodeKey, NodeKey)>,
    f: F,
    s1: StableGraph<i64, i64, Directed, usize>,
    r: Result<(), DispatchError>,
)
    requires
        chunk_rel(s0, pairs, f, s1, r),
        node_self_pairs_for(pairs, sg_nodes(&s0).dom()),
        identity_fn(f),
    ensures
        r is Ok,
        sg_nodes(&s1) == sg_nodes(&s0),
        sg_edge_ms(&s1) == sg_edge_ms(&s0),
        sg_edge_w(&s1) == sg_edge_w(&s0),
        sg_edge_ends(&s1) == sg_edge_ends(&s0),
{
    assert(forall|k: int|
        0 <= k < pairs.len() ==> <StableGraph<i64, i64, Directed, usize> as TakePutBack<
            NodeKey,
            NodeKey,
        >>::valid_take(&s0, (#[trigger] pairs[k]).0));
    let (mid, items, results) = choose|
        mid: StableGraph<i64, i64, Directed, usize>,
        items: Seq<i64>,
        results: Seq<i64>,
    |
        #![trigger takes_rel(s0, pairs, mid, items), results_rel(f, items, results)]
        {
            &&& takes_rel(s0, pairs, mid, items)
            &&& results_rel(f, items, results)
            &&& puts_run(mid, pairs, results, s1, r)
        };
    lemma_sg_node_takes_identity(s0, pairs, mid, items);
    assert forall|k: int| #![trigger pairs[k]] 0 <= k < pairs.len() implies results[k]
        == sg_nodes(&s0)[pairs[k].0.0 as nat] by {
        assert(call_ensures(f, (items[k],), results[k]));
        assert(results[k] == items[k]);
        assert(items[k] == sg_nodes(&s0)[pairs[k].0.0 as nat]);
    }
    lemma_sg_node_puts_identity(
        sg_nodes(&s0),
        sg_edge_ms(&s0),
        sg_edge_w(&s0),
        sg_edge_ends(&s0),
        mid,
        pairs,
        results,
        s1,
        r,
    );
}

proof fn lemma_sg_node_chunked_identity<F: Fn(i64) -> i64>(
    s0: StableGraph<i64, i64, Directed, usize>,
    pairs: Seq<(NodeKey, NodeKey)>,
    f: F,
    p: nat,
    s1: StableGraph<i64, i64, Directed, usize>,
    r: Result<(), DispatchError>,
)
    requires
        p >= 1,
        dispatch_chunks_rel(s0, chunks_of(pairs, p), f, s1, r),
        node_self_pairs_for(pairs, sg_nodes(&s0).dom()),
        identity_fn(f),
    ensures
        r is Ok,
        sg_nodes(&s1) == sg_nodes(&s0),
        sg_edge_ms(&s1) == sg_edge_ms(&s0),
        sg_edge_w(&s1) == sg_edge_w(&s0),
        sg_edge_ends(&s1) == sg_edge_ends(&s0),
    decreases pairs.len(),
{
    if pairs.len() == 0 {
        assert(chunks_of(pairs, p) == Seq::<Seq<(NodeKey, NodeKey)>>::empty());
    } else {
        let chunks = chunks_of(pairs, p);
        let first = if pairs.len() <= p {
            pairs
        } else {
            pairs.take(p as int)
        };
        assert(chunks[0] == first);
        let (mid0, r1) = choose|
            mid0: StableGraph<i64, i64, Directed, usize>,
            r1: Result<(), DispatchError>,
        |
            #![trigger chunk_rel(s0, chunks[0], f, mid0, r1)]
            {
                &&& chunk_rel(s0, chunks[0], f, mid0, r1)
                &&& if r1 is Err {
                    s1 == mid0 && r == r1
                } else {
                    dispatch_chunks_rel(mid0, chunks.drop_first(), f, s1, r)
                }
            };
        assert(node_self_pairs_for(first, sg_nodes(&s0).dom())) by {
            if pairs.len() > p {
                assert(forall|k: int| 0 <= k < first.len() ==> first[k] == pairs[k]);
            }
        }
        lemma_sg_node_chunk_identity(s0, first, f, mid0, r1);
        if pairs.len() <= p {
            assert(chunks.drop_first() =~= Seq::<Seq<(NodeKey, NodeKey)>>::empty());
            assert(s1 == mid0);
        } else {
            let rest = pairs.skip(p as int);
            assert(chunks.drop_first() =~= chunks_of(rest, p));
            assert(node_self_pairs_for(rest, sg_nodes(&mid0).dom())) by {
                assert(sg_nodes(&mid0).dom() =~= sg_nodes(&s0).dom());
                assert(forall|k: int| 0 <= k < rest.len() ==> rest[k] == pairs[k + p]);
            }
            lemma_sg_node_chunked_identity(mid0, rest, f, p, s1, r);
        }
    }
}

/// Identity law for the graph node-weight adapter: dispatching the
/// canonical correspondence list through a processor that can only hand
/// each weight back leaves the graph observably unchanged, and succeeds.
pub proof fn lemma_graph_node_dispatch_identity<F: Fn(i64) -> i64>(
    s0: StableGraph<i64, i64, Directed, usize>,
    pairs: Seq<(NodeKey, NodeKey)>,
    f: F,
    p: nat,
    s1: StableGraph<i64, i64, Directed, usize>,
    r: Result<(), DispatchError>,
)
    requires
        <StableGraph<i64, i64, Directed, usize> as TakePutBack<NodeKey, NodeKey>>::all_idces_post(
            &s0,
            pairs,
        ),
        identity_fn(f),
        dispatch_rel(s0, pairs, f, p, s1, r),
    ensures
        r is Ok,
        <StableGraph<i64, i64, Directed, usize> as TakePutBack<NodeKey, NodeKey>>::obs_eq(
            &s1,
            &s0,
        ),
{
    lemma_sg_node_chunked_identity(s0, pairs, f, p, s1, r);
}

/// Every work item pairs an edge with itself, in bounds, and no two work
/// items alias.
pub open spec fn edge_self_pairs_for(pairs: Seq<(EdgeKey, EdgeKey)>, dom: Set<nat>) -> bool {
    &&& forall|k: int|
        0 <= k < pairs.len() ==> (#[trigger] pairs[k]).1 == pairs[k].0 && dom.contains(
            pairs[k].0.0 as nat,
        )
    &&& forall|a: int, b: int| 0 <= a < b < pairs.len() ==> pairs[a].0.0 != pairs[b].0.0
}

/// Edge `key` is extracted by some work item.
pub open spec fn edge_taken(pairs: Seq<(EdgeKey, EdgeKey)>, key: nat) -> bool {
    exists|k: int| 0 <= k < pairs.len() && (#[trigger] pairs[k]).0.0 as nat == key
}

proof fn lemma_sg_edge_takes_identity(
    s0: StableGraph<i64, i64, Directed, usize>,
    pairs: Seq<(EdgeKey, EdgeKey)>,
    mid: StableGraph<i64, i64, Directed, usize>,
    items: Seq<i64>,
)
    requires
        takes_rel(s0, pairs, mid, items),
        edge_self_pairs_for(pairs, sg_edge_w(&s0).dom()),
    ensures
        sg_edge_w(&mid).dom() == sg_edge_w(&s0).dom(),
        sg_nodes(&mid) == sg_nodes(&s0),
        sg_edge_ends(&mid) == sg_edge_ends(&s0),
        items.len() == pairs.len(),
        forall|k: int|
            0 <= k < pairs.len() ==> items[k] == sg_edge_w(&s0)[(#[trigger] pairs[k]).0.0 as nat],
        forall|key: nat|
            sg_edge_w(&s0).dom().contains(key) && !edge_taken(pairs, key) ==> sg_edge_w(&mid)[key]
                == sg_edge_w(&s0)[key],
    decreases pairs.len(),
{
    if pairs.len() == 0 {
    } else {
        let m1 = choose|m1: StableGraph<i64, i64, Directed, usize>|
            #[trigger] <StableGraph<i64, i64, Directed, usize> as TakePutBack<
                EdgeKey,
                EdgeKey,
            >>::take_post(&s0, pairs[0].0, &m1, &items[0]) && takes_rel(
                m1,
                pairs.drop_first(),
                mid,
                items.drop_first(),
            );
        let k0 = pairs[0].0.0 as nat;
        assert(sg_edge_w(&m1) == sg_edge_w(&s0).insert(k0, 0i64));
        assert(sg_edge_w(&m1).dom() =~= sg_edge_w(&s0).dom());
        assert(edge_self_pairs_for(pairs.drop_first(), sg_edge_w(&m1).dom())) by {
            assert(forall|k: int|
                0 <= k < pairs.drop_first().len() ==> pairs.drop_first()[k] == pairs[k + 1]);
        }
        lemma_sg_edge_takes_identity(m1, pairs.drop_first(), mid, items.drop_first());
        assert forall|k: int| #![trigger pairs[k]] 0 <= k < pairs.len() implies items[k]
            == sg_edge_w(&s0)[pairs[k].0.0 as nat] by {
            if k > 0 {
                assert(pairs.drop_first()[k - 1] == pairs[k]);
                assert(items.drop_first()[k - 1] == items[k]);
                assert(pairs[k].0.0 as nat != k0);
                assert(sg_edge_w(&m1)[pairs[k].0.0 as nat] == sg_edge_w(&s0)[pairs[k].0.0 as nat]);
            }
        }
        assert forall|key: nat|
            sg_edge_w(&s0).dom().contains(key) && !edge_taken(pairs, key) implies sg_edge_w(
            &mid,
        )[key] == sg_edge_w(&s0)[key] by {
            assert(pairs[0].0.0 as nat != key);
            assert(!edge_taken(pairs.drop_first(), key)) by {
                if edge_taken(pairs.drop_first(), key) {
                    let k = choose|k: int|
                        0 <= k < pairs.drop_first().len() && (#[trigger] pairs.drop_first()[
                            k
                        ]).0.0 as nat == key;
                    assert(pairs[k + 1].0.0 as nat == key);
                }
            }
            assert(sg_edge_w(&m1)[key] == sg_edge_w(&s0)[key]);
        }
    }
}

proof fn lemma_sg_edge_puts_identity(
    base: Map<nat, i64>,
    base_nodes: Map<nat, i64>,
    base_ends: Map<nat, (nat, nat)>,
    mid: StableGraph<i64, i64, Directed, usize>,
    pairs: Seq<(EdgeKey, EdgeKey)>,
    results: Seq<i64>,
    s1: StableGraph<i64, i64, Directed, usize>,
    r: Result<(), DispatchError>,
)
    requires
        puts_run(mid, pairs, results, s1, r),
        sg_edge_w(&mid).dom() == base.dom(),
        sg_nodes(&mid) == base_nodes,
        sg_edge_ends(&mid) == base_ends,
        edge_self_pairs_for(pairs, base.dom()),
        results.len() == pairs.len(),
        forall|k: int|
            0 <= k < pairs.len() ==> results[k] == base[(#[trigger] pairs[k]).0.0 as nat],
        forall|key: nat|
            base.dom().contains(key) && !edge_taken(pairs, key) ==> sg_edge_w(&mid)[key]
                == base[key],
    ensures
        r is Ok,
        sg_edge_w(&s1) == base,
        sg_nodes(&s1) == base_nodes,
        sg_edge_ends(&s1) == base_ends,
    decreases pairs.len(),
{
    if pairs.len() == 0 {
        assert forall|key: nat| base.dom().contains(key) implies sg_edge_w(&s1)[key]
            == base[key] by {
            assert(!edge_taken(pairs, key));
        }
        assert(sg_edge_w(&s1) =~= base);
    } else {
        let k0 = pairs[0].0.0 as nat;
        assert(<StableGraph<i64, i64, Directed, usize> as TakePutBack<
            EdgeKey,
            EdgeKey,
        >>::valid_put(&mid, pairs[0].1, results[0]));
        let m2 = choose|m2: StableGraph<i64, i64, Directed, usize>|
            #[trigger] <StableGraph<i64, i64, Directed, usize> as TakePutBack<
                EdgeKey,
                EdgeKey,
            >>::put_post(&mid, pairs[0].1, results[0], &m2) && puts_run(
                m2,
                pairs.drop_first(),
                results.drop_first(),
                s1,
                r,
            );
        assert(sg_edge_w(&m2) == sg_edge_w(&mid).insert(k0, base[k0]));
        assert(sg_edge_w(&m2).dom() =~= base.dom());
        assert(edge_self_pairs_for(pairs.drop_first(), base.dom())) by {
            assert(forall|k: int|
                0 <= k < pairs.drop_first().len() ==> pairs.drop_first()[k] == pairs[k + 1]);
        }
        assert forall|key: nat|
            base.dom().contains(key) && !edge_taken(pairs.drop_first(), key) implies sg_edge_w(
            &m2,
        )[key] == base[key] by {
            if key == k0 {
            } else {
                assert(!edge_taken(pairs, key)) by {
                    if edge_taken(pairs, key) {
                        let k = choose|k: int|
                            0 <= k < pairs.len() && (#[trigger] pairs[k]).0.0 as nat == key;
                        assert(k > 0);
                        assert(pairs.drop_first()[k - 1].0.0 as nat == key);
                    }
                }
            }
        }
        assert(forall|k: int|
            0 <= k < pairs.drop_first().len() ==> results.drop_first()[k]
                == base[(#[trigger] pairs.drop_first()[k]).0.0 as nat]) by {
            assert(forall|k: int|
                0 <= k < pairs.drop_first().len() ==> pairs.drop_first()[k] == pairs[k + 1]
                    && results.drop_first()[k] == results[k + 1]);
        }
        lemma_sg_edge_puts_identity(
            base,
            base_nodes,
            base_ends,
            m2,
            pairs.drop_first(),
            results.drop_first(),
            s1,
            r,
        );
    }
}

proof fn lemma_sg_edge_chunk_identity<F: Fn(i64) -> i64>(
    s0: StableGraph<i64, i64, Directed, usize>,
    pairs: Seq<(EdgeKey, EdgeKey)>,
    f: F,
    s1: StableGraph<i64, i64, Directed, usize>,
    r: Result<(), DispatchError>,
)
    requires
        chunk_rel(s0, pairs, f, s1, r),
        edge_self_pairs_for(pairs, sg_edge_w(&s0).dom()),
        identity_fn(f),
    ensures
        r is Ok,
        sg_edge_w(&s1) == sg_edge_w(&s0),
        sg_nodes(&s1) == sg_nodes(&s0),
        sg_edge_ends(&s1) == sg_edge_ends(&s0),
{
    assert(forall|k: int|
        0 <= k < pairs.len() ==> <StableGraph<i64, i64, Directed, usize> as TakePutBack<
            EdgeKey,
            EdgeKey,
        >>::valid_take(&s0, (#[trigger] pairs[k]).0));
    let (mid, items, results) = choose|
        mid: StableGraph<i64, i64, Directed, usize>,
        items: Seq<i64>,
        results: Seq<i64>,
    |
        #![trigger takes_rel(s0, pairs, mid, items), results_rel(f, items, results)]
        {
            &&& takes_rel(s0, pairs, mid, items)
            &&& results_rel(f, items, results)
            &&& puts_run(mid, pairs, results, s1, r)
        };
    lemma_sg_edge_takes_identity(s0, pairs, mid, items);
    assert forall|k: int| #![trigger pairs[k]] 0 <= k < pairs.len() implies results[k]
        == sg_edge_w(&s0)[pairs[k].0.0 as nat] by {
        assert(call_ensures(f, (items[k],), results[k]));
        assert(results[k] == items[k]);
        assert(items[k] == sg_edge_w(&s0)[pairs[k].0.0 as nat]);
    }
    lemma_sg_edge_puts_identity(
        sg_edge_w(&s0),
        sg_nodes(&s0),
        sg_edge_ends(&s0),
        mid,
        pairs,
        results,
        s1,
        r,
    );
}

proof fn lemma_sg_edge_chunked_identity<F: Fn(i64) -> i64>(
    s0: StableGraph<i64, i64, Directed, usize>,
    pairs: Seq<(EdgeKey, EdgeKey)>,
    f: F,
    p: nat,
    s1: StableGraph<i64, i64, Directed, usize>,
    r: Result<(), DispatchError>,
)
    requires
        p >= 1,
        dispatch_chunks_rel(s0, chunks_of(pairs, p), f, s1, r),
        edge_self_pairs_for(pairs, sg_edge_w(&s0).dom()),
        identity_fn(f),
    ensures
        r is Ok,
        sg_edge_w(&s1) == sg_edge_w(&s0),
        sg_nodes(&s1) == sg_nodes(&s0),
        sg_edge_ends(&s1) == sg_edge_ends(&s0),
    decreases pairs.len(),
{
    if pairs.len() == 0 {
        assert(chunks_of(pairs, p) == Seq::<Seq<(EdgeKey, EdgeKey)>>::empty());
    } else {
        let chunks = chunks_of(pairs, p);
        let first = if pairs.len() <= p {
            pairs
        } else {
            pairs.take(p as int)
        };
        assert(chunks[0] == first);
        let (mid0, r1) = choose|
            mid0: StableGraph<i64, i64, Directed, usize>,
            r1: Result<(), DispatchError>,
        |
            #![trigger chunk_rel(s0, chunks[0], f, mid0, r1)]
            {
                &&& chunk_rel(s0, chunks[0], f, mid0, r1)
                &&& if r1 is Err {
                    s1 == mid0 && r == r1
                } else {
                    dispatch_chunks_rel(mid0, chunks.drop_first(), f, s1, r)
                }
            };
        assert(edge_self_pairs_for(first, sg_edge_w(&s0).dom())) by {
            if pairs.len() > p {
                assert(forall|k: int| 0 <= k < first.len() ==> first[k] == pairs[k]);
            }
        }
        lemma_sg_edge_chunk_identity(s0, first, f, mid0, r1);
        if pairs.len() <= p {
            assert(chunks.drop_first() =~= Seq::<Seq<(EdgeKey, EdgeKey)>>::empty());
            assert(s1 == mid0);
        } else {
            let rest = pairs.skip(p as int);
            assert(chunks.drop_first() =~= chunks_of(rest, p));
            assert(edge_self_pairs_for(rest, sg_edge_w(&mid0).dom())) by {
                assert(sg_edge_w(&mid0).dom() =~= sg_edge_w(&s0).dom());
                assert(forall|k: int| 0 <= k < rest.len() ==> rest[k] == pairs[k + p]);
            }
            lemma_sg_edge_chunked_identity(mid0, rest, f, p, s1, r);
        }
    }
}

/// Identity law for the graph edge-weight adapter: dispatching the
/// canonical correspondence list through a processor that can only hand
/// each weight back leaves the graph observably unchanged, and succeeds.
pub proof fn lemma_graph_edge_dispatch_identity<F: Fn(i64) -> i64>(
    s0: StableGraph<i64, i64, Directed, usize>,
    pairs: Seq<(EdgeKey, EdgeKey)>,
    f: F,
    p: nat,
    s1: StableGraph<i64, i64, Directed, usize>,
    r: Result<(), DispatchError>,
)
    requires
        <StableGraph<i64, i64, Directed, usize> as TakePutBack<EdgeKey, EdgeKey>>::all_idces_post(
            &s0,
            pairs,
        ),
        identity_fn(f),
        dispatch_rel(s0, pairs, f, p, s1, r),
    ensures
        r is Ok,
        <StableGraph<i64, i64, Directed, usize> as TakePutBack<EdgeKey, EdgeKey>>::obs_eq(
            &s1,
            &s0,
        ),
{
    lemma_sg_edge_chunked_identity(s0, pairs, f, p, s1, r);
}

proof fn lemma_g_node_takes_identity(
    s0: Graph<i64, i64, Directed, usize>,
    pairs: Seq<(NodeKey, NodeKey)>,
    mid: Graph<i64, i64, Directed, usize>,
    items: Seq<i64>,
)
    requires
        takes_rel(s0, pairs, mid, items),
        node_self_pairs_for(pairs, g_nodes(&s0).dom()),
    ensures
        g_nodes(&mid).dom() == g_nodes(&s0).dom(),
        g_edge_w(&mid) == g_edge_w(&s0),
        g_edge_ends(&mid) == g_edge_ends(&s0),
        items.len() == pairs.len(),
        forall|k: int|
            0 <= k < pairs.len() ==> items[k] == g_nodes(&s0)[(#[trigger] pairs[k]).0.0 as nat],
        forall|key: nat|
            g_nodes(&s0).dom().contains(key) && !node_taken(pairs, key) ==> g_nodes(&mid)[key]
                == g_nodes(&s0)[key],
    decreases pairs.len(),
{
    if pairs.len() == 0 {
    } else {
        let m1 = choose|m1: Graph<i64, i64, Directed, usize>|
            #[trigger] <Graph<i64, i64, Directed, usize> as TakePutBack<
                NodeKey,
                NodeKey,
            >>::take_post(&s0, pairs[0].0, &m1, &items[0]) && takes_rel(
                m1,
                pairs.drop_first(),
                mid,
                items.drop_first(),
            );
        let k0 = pairs[0].0.0 as nat;
        assert(g_nodes(&m1) == g_nodes(&s0).insert(k0, 0i64));
        assert(g_nodes(&m1).dom() =~= g_nodes(&s0).dom());
        assert(node_self_pairs_for(pairs.drop_first(), g_nodes(&m1).dom())) by {
            assert(forall|k: int|
                0 <= k < pairs.drop_first().len() ==> pairs.drop_first()[k] == pairs[k + 1]);
        }
        lemma_g_node_takes_identity(m1, pairs.drop_first(), mid, items.drop_first());
        assert forall|k: int| #![trigger pairs[k]] 0 <= k < pairs.len() implies items[k]
            == g_nodes(&s0)[pairs[k].0.0 as nat] by {
            if k > 0 {
                assert(pairs.drop_first()[k - 1] == pairs[k]);
                assert(items.drop_first()[k - 1] == items[k]);
                assert(pairs[k].0.0 as nat != k0);
                assert(g_nodes(&m1)[pairs[k].0.0 as nat] == g_nodes(&s0)[pairs[k].0.0 as nat]);
            }
        }
        assert forall|key: nat|
            g_nodes(&s0).dom().contains(key) && !node_taken(pairs, key) implies g_nodes(
            &mid,
        )[key] == g_nodes(&s0)[key] by {
            assert(pairs[0].0.0 as nat != key);
            assert(!node_taken(pairs.drop_first(), key)) by {
                if node_taken(pairs.drop_first(), key) {
                    let k = choose|k: int|
                        0 <= k < pairs.drop_first().len() && (#[trigger] pairs.drop_first()[
                            k
                        ]).0.0 as nat == key;
                    assert(pairs[k + 1].0.0 as nat == key);
                }
            }
            assert(g_nodes(&m1)[key] == g_nodes(&s0)[key]);
        }
    }
}

proof fn lemma_g_node_puts_identity(
    base: Map<nat, i64>,
    base_edges: Map<nat, i64>,
    base_ends: Map<nat, (nat, nat)>,
    mid: Graph<i64, i64, Directed, usize>,
    pairs: Seq<(NodeKey, NodeKey)>,
    results: Seq<i64>,
    s1: Graph<i64, i64, Directed, usize>,
    r: Result<(), DispatchError>,
)
    requires
        puts_run(mid, pairs, results, s1, r),
        g_nodes(&mid).dom() == base.dom(),
        g_edge_w(&mid) == base_edges,
        g_edge_ends(&mid) == base_ends,
        node_self_pairs_for(pairs, base.dom()),
        results.len() == pairs.len(),
        forall|k: int|
            0 <= k < pairs.len() ==> results[k] == base[(#[trigger] pairs[k]).0.0 as nat],
        forall|key: nat|
            base.dom().contains(key) && !node_taken(pairs, key) ==> g_nodes(&mid)[key]
                == base[key],
    ensures
        r is Ok,
        g_nodes(&s1) == base,
        g_edge_w(&s1) == base_edges,
        g_edge_ends(&s1) == base_ends,
    decreases pairs.len(),
{
    if pairs.len() == 0 {
        assert forall|key: nat| base.dom().contains(key) implies g_nodes(&s1)[key]
            == base[key] by {
            assert(!node_taken(pairs, key));
        }
        assert(g_nodes(&s1) =~= base);
    } else {
        let k0 = pairs[0].0.0 as nat;
        assert(<Graph<i64, i64, Directed, usize> as TakePutBack<
            NodeKey,
            NodeKey,
        >>::valid_put(&mid, pairs[0].1, results[0]));
        let m2 = choose|m2: Graph<i64, i64, Directed, usize>|
            #[trigger] <Graph<i64, i64, Directed, usize> as TakePutBack<
                NodeKey,
                NodeKey,
            >>::put_post(&mid, pairs[0].1, results[0], &m2) && puts_run(
                m2,
                pairs.drop_first(),
                results.drop_first(),
                s1,
                r,
            );
        assert(g_nodes(&m2) == g_nodes(&mid).insert(k0, base[k0]));
        assert(g_nodes(&m2).dom() =~= base.dom());
        assert(node_self_pairs_for(pairs.drop_first(), base.dom())) by {
            assert(forall|k: int|
                0 <= k < pairs.drop_first().len() ==> pairs.drop_first()[k] == pairs[k + 1]);
        }
        assert forall|key: nat|
            base.dom().contains(key) && !node_taken(pairs.drop_first(), key) implies g_nodes(
            &m2,
        )[key] == base[key] by {
            if key == k0 {
            } else {
                assert(!node_taken(pairs, key)) by {
                    if node_taken(pairs, key) {
                        let k = choose|k: int|
                            0 <= k < pairs.len() && (#[trigger] pairs[k]).0.0 as nat == key;
                        assert(k > 0);
                        assert(pairs.drop_first()[k - 1].0.0 as nat == key);
                    }
                }
            }
        }
        assert(forall|k: int|
            0 <= k < pairs.drop_first().len() ==> results.drop_first()[k]
                == base[(#[trigger] pairs.drop_first()[k]).0.0 as nat]) by {
            assert(forall|k: int|
                0 <= k < pairs.drop_first().len() ==> pairs.drop_first()[k] == pairs[k + 1]
                    && results.drop_first()[k] == results[k + 1]);
        }
        lemma_g_node_puts_identity(
            base,
            base_edges,
            base_ends,
            m2,
            pairs.drop_first(),
            results.drop_first(),
            s1,
            r,
        );
    }
}

proof fn lemma_g_node_chunk_identity<F: Fn(i64) -> i64>(
    s0: Graph<i64, i64, Directed, usize>,
    pairs: Seq<(NodeKey, NodeKey)>,
    f: F,
    s1: Graph<i64, i64, Directed, usize>,
    r: Result<(), DispatchError>,
)
    requires
        chunk_rel(s0, pairs, f, s1, r),
        node_self_pairs_for(pairs, g_nodes(&s0).dom()),
        identity_fn(f),
    ensures
        r is Ok,
        g_nodes(&s1) == g_nodes(&s0),
        g_edge_w(&s1) == g_edge_w(&s0),
        g_edge_ends(&s1) == g_edge_ends(&s0),
{
    assert(forall|k: int|
        0 <= k < pairs.len() ==> <Graph<i64, i64, Directed, usize> as TakePutBack<
            NodeKey,
            NodeKey,
        >>::valid_take(&s0, (#[trigger] pairs[k]).0));
    let (mid, items, results) = choose|
        mid: Graph<i64, i64, Directed, usize>,
        items: Seq<i64>,
        results: Seq<i64>,
    |
        #![trigger takes_rel(s0, pairs, mid, items), results_rel(f, items, results)]
        {
            &&& takes_rel(s0, pairs, mid, items)
            &&& results_rel(f, items, results)
            &&& puts_run(mid, pairs, results, s1, r)
        };
    lemma_g_node_takes_identity(s0, pairs, mid, items);
    assert forall|k: int| #![trigger pairs[k]] 0 <= k < pairs.len() implies results[k]
        == g_nodes(&s0)[pairs[k].0.0 as nat] by {
        assert(call_ensures(f, (items[k],), results[k]));
        assert(results[k] == items[k]);
        assert(items[k] == g_nodes(&s0)[pairs[k].0.0 as nat]);
    }
    lemma_g_node_puts_identity(
        g_nodes(&s0),
        g_edge_w(&s0),
        g_edge_ends(&s0),
        mid,
        pairs,
        results,
        s1,
        r,
    );
}

proof fn lemma_g_node_chunked_identity<F: Fn(i64) -> i64>(
    s0: Graph<i64, i64, Directed, usize>,
    pairs: Seq<(NodeKey, NodeKey)>,
    f: F,
    p: nat,
    s1: Graph<i64, i64, Directed, usize>,
    r: Result<(), DispatchError>,
)
    requires
        p >= 1,
        dispatch_chunks_rel(s0, chunks_of(pairs, p), f, s1, r),
        node_self_pairs_for(pairs, g_nodes(&s0).dom()),
        identity_fn(f),
    ensures
        r is Ok,
        g_nodes(&s1) == g_nodes(&s0),
        g_edge_w(&s1) == g_edge_w(&s0),
        g_edge_ends(&s1) == g_edge_ends(&s0),
    decreases pairs.len(),
{
    if pairs.len() == 0 {
        assert(chunks_of(pairs, p) == Seq::<Seq<(NodeKey, NodeKey)>>::empty());
    } else {
        let chunks = chunks_of(pairs, p);
        let first = if pairs.len() <= p {
            pairs
        } else {
            pairs.take(p as int)
        };
        assert(chunks[0] == first);
        let (mid0, r1) = choose|
            mid0: Graph<i64, i64, Directed, usize>,
            r1: Result<(), DispatchError>,
        |
            #![trigger chunk_rel(s0, chunks[0], f, mid0, r1)]
            {
                &&& chunk_rel(s0, chunks[0], f, mid0, r1)
                &&& if r1 is Err {
                    s1 == mid0 && r == r1
                } else {
                    dispatch_chunks_rel(mid0, chunks.drop_first(), f, s1, r)
                }
            };
        assert(node_self_pairs_for(first, g_nodes(&s0).dom())) by {
            if pairs.len() > p {
                assert(forall|k: int| 0 <= k < first.len() ==> first[k] == pairs[k]);
            }
        }
        lemma_g_node_chunk_identity(s0, first, f, mid0, r1);
        if pairs.len() <= p {
            assert(chunks.drop_first() =~= Seq::<Seq<(NodeKey, NodeKey)>>::empty());
            assert(s1 == mid0);
        } else {
            let rest = pairs.skip(p as int);
            assert(chunks.drop_first() =~= chunks_of(rest, p));
            assert(node_self_pairs_for(rest, g_nodes(&mid0).dom())) by {
                assert(g_nodes(&mid0).dom() =~= g_nodes(&s0).dom());
                assert(forall|k: int| 0 <= k < rest.len() ==> rest[k] == pairs[k + p]);
            }
            lemma_g_node_chunked_identity(mid0, rest, f, p, s1, r);
        }
    }
}

/// Identity law for the plain-graph node-weight adapter: dispatching the
/// canonical correspondence list through a processor that can only hand
/// each weight back leaves the graph observably unchanged, and succeeds.
pub proof fn lemma_plain_graph_node_dispatch_identity<F: Fn(i64) -> i64>(
    s0: Graph<i64, i64, Directed, usize>,
    pairs: Seq<(NodeKey, NodeKey)>,
    f: F,
    p: nat,
    s1: Graph<i64, i64, Directed, usize>,
    r: Result<(), DispatchError>,
)
    requires
        <Graph<i64, i64, Directed, usize> as TakePutBack<NodeKey, NodeKey>>::all_idces_post(
            &s0,
            pairs,
        ),
        identity_fn(f),
        dispatch_rel(s0, pairs, f, p, s1, r),
    ensures
        r is Ok,
        <Graph<i64, i64, Directed, usize> as TakePutBack<NodeKey, NodeKey>>::obs_eq(
            &s1,
            &s0,
        ),
{
    lemma_g_node_chunked_identity(s0, pairs, f, p, s1, r);
}


proof fn lemma_g_edge_takes_identity(
    s0: Graph<i64, i64, Directed, usize>,
    pairs: Seq<(EdgeKey, EdgeKey)>,
    mid: Graph<i64, i64, Directed, usize>,
    items: Seq<i64>,
)
    requires
        takes_rel(s0, pairs, mid, items),
        edge_self_pairs_for(pairs, g_edge_w(&s0).dom()),
    ensures
        g_edge_w(&mid).dom() == g_edge_w(&s0).dom(),
        g_nodes(&mid) == g_nodes(&s0),
        g_edge_ends(&mid) == g_edge_ends(&s0),
        items.len() == pairs.len(),
        forall|k: int|
            0 <= k < pairs.len() ==> items[k] == g_edge_w(&s0)[(#[trigger] pairs[k]).0.0 as nat],
        forall|key: nat|
            g_edge_w(&s0).dom().contains(key) && !edge_taken(pairs, key) ==> g_edge_w(&mid)[key]
                == g_edge_w(&s0)[key],
    decreases pairs.len(),
{
    if pairs.len() == 0 {
    } else {
        let m1 = choose|m1: Graph<i64, i64, Directed, usize>|
            #[trigger] <Graph<i64, i64, Directed, usize> as TakePutBack<
                EdgeKey,
                EdgeKey,
            >>::take_post(&s0, pairs[0].0, &m1, &items[0]) && takes_rel(
                m1,
                pairs.drop_first(),
                mid,
                items.drop_first(),
            );
        let k0 = pairs[0].0.0 as nat;
        assert(g_edge_w(&m1) == g_edge_w(&s0).insert(k0, 0i64));
        assert(g_edge_w(&m1).dom() =~= g_edge_w(&s0).dom());
        assert(edge_self_pairs_for(pairs.drop_first(), g_edge_w(&m1).dom())) by {
            assert(forall|k: int|
                0 <= k < pairs.drop_first().len() ==> pairs.drop_first()[k] == pairs[k + 1]);
        }
        lemma_g_edge_takes_identity(m1, pairs.drop_first(), mid, items.drop_first());
        assert forall|k: int| #![trigger pairs[k]] 0 <= k < pairs.len() implies items[k]
            == g_edge_w(&s0)[pairs[k].0.0 as nat] by {
            if k > 0 {
                assert(pairs.drop_first()[k - 1] == pairs[k]);
                assert(items.drop_first()[k - 1] == items[k]);
                assert(pairs[k].0.0 as nat != k0);
                assert(g_edge_w(&m1)[pairs[k].0.0 as nat] == g_edge_w(&s0)[pairs[k].0.0 as nat]);
            }
        }
        assert forall|key: nat|
            g_edge_w(&s0).dom().contains(key) && !edge_taken(pairs, key) implies g_edge_w(
            &mid,
        )[key] == g_edge_w(&s0)[key] by {
            assert(pairs[0].0.0 as nat != key);
            assert(!edge_taken(pairs.drop_first(), key)) by {
                if edge_taken(pairs.drop_first(), key) {
                    let k = choose|k: int|
                        0 <= k < pairs.drop_first().len() && (#[trigger] pairs.drop_first()[
                            k
                        ]).0.0 as nat == key;
                    assert(pairs[k + 1].0.0 as nat == key);
                }
            }
            assert(g_edge_w(&m1)[key] == g_edge_w(&s0)[key]);
        }
    }
}

proof fn lemma_g_edge_puts_identity(
    base: Map<nat, i64>,
    base_nodes: Map<nat, i64>,
    base_ends: Map<nat, (nat, nat)>,
    mid: Graph<i64, i64, Directed, usize>,
    pairs: Seq<(EdgeKey, EdgeKey)>,
    results: Seq<i64>,
    s1: Graph<i64, i64, Directed, usize>,
    r: Result<(), DispatchError>,
)
    requires
        puts_run(mid, pairs, results, s1, r),
        g_edge_w(&mid).dom() == base.dom(),
        g_nodes(&mid) == base_nodes,
        g_edge_ends(&mid) == base_ends,
        edge_self_pairs_for(pairs, base.dom()),
        results.len() == pairs.len(),
        forall|k: int|
            0 <= k < pairs.len() ==> results[k] == base[(#[trigger] pairs[k]).0.0 as nat],
        forall|key: nat|
            base.dom().contains(key) && !edge_taken(pairs, key) ==> g_edge_w(&mid)[key]
                == base[key],
    ensures
        r is Ok,
        g_edge_w(&s1) == base,
        g_nodes(&s1) == base_nodes,
        g_edge_ends(&s1) == base_ends,
    decreases pairs.len(),
{
    if pairs.len() == 0 {
        assert forall|key: nat| base.dom().contains(key) implies g_edge_w(&s1)[key]
            == base[key] by {
            assert(!edge_taken(pairs, key));
        }
        assert(g_edge_w(&s1) =~= base);
    } else {
        let k0 = pairs[0].0.0 as nat;
        assert(<Graph<i64, i64, Directed, usize> as TakePutBack<
            EdgeKey,
            EdgeKey,
        >>::valid_put(&mid, pairs[0].1, results[0]));
        let m2 = choose|m2: Graph<i64, i64, Directed, usize>|
            #[trigger] <Graph<i64, i64, Directed, usize> as TakePutBack<
                EdgeKey,
                EdgeKey,
            >>::put_post(&mid, pairs[0].1, results[0], &m2) && puts_run(
                m2,
                pairs.drop_first(),
                results.drop_first(),
                s1,
                r,
            );
        assert(g_edge_w(&m2) == g_edge_w(&mid).insert(k0, base[k0]));
        assert(g_edge_w(&m2).dom() =~= base.dom());
        assert(edge_self_pairs_for(pairs.drop_first(), base.dom())) by {
            assert(forall|k: int|
                0 <= k < pairs.drop_first().len() ==> pairs.drop_first()[k] == pairs[k + 1]);
        }
        assert forall|key: nat|
            base.dom().contains(key) && !edge_taken(pairs.drop_first(), key) implies g_edge_w(
            &m2,
        )[key] == base[key] by {
            if key == k0 {
            } else {
                assert(!edge_taken(pairs, key)) by {
                    if edge_taken(pairs, key) {
                        let k = choose|k: int|
                            0 <= k < pairs.len() && (#[trigger] pairs[k]).0.0 as nat == key;
                        assert(k > 0);
                        assert(pairs.drop_first()[k - 1].0.0 as nat == key);
                    }
                }
            }
        }
        assert(forall|k: int|
            0 <= k < pairs.drop_first().len() ==> results.drop_first()[k]
                == base[(#[trigger] pairs.drop_first()[k]).0.0 as nat]) by {
            assert(forall|k: int|
                0 <= k < pairs.drop_first().len() ==> pairs.drop_first()[k] == pairs[k + 1]
                    && results.drop_first()[k] == results[k + 1]);
        }
        lemma_g_edge_puts_identity(
            base,
            base_nodes,
            base_ends,
            m2,
            pairs.drop_first(),
            results.drop_first(),
            s1,
            r,
        );
    }
}

proof fn lemma_g_edge_chunk_identity<F: Fn(i64) -> i64>(
    s0: Graph<i64, i64, Directed, usize>,
    pairs: Seq<(EdgeKey, EdgeKey)>,
    f: F,
    s1: Graph<i64, i64, Directed, usize>,
    r: Result<(), DispatchError>,
)
    requires
        chunk_rel(s0, pairs, f, s1, r),
        edge_self_pairs_for(pairs, g_edge_w(&s0).dom()),
        identity_fn(f),
    ensures
        r is Ok,
        g_edge_w(&s1) == g_edge_w(&s0),
        g_nodes(&s1) == g_nodes(&s0),
        g_edge_ends(&s1) == g_edge_ends(&s0),
{
    assert(forall|k: int|
        0 <= k < pairs.len() ==> <Graph<i64, i64, Directed, usize> as TakePutBack<
            EdgeKey,
            EdgeKey,
        >>::valid_take(&s0, (#[trigger] pairs[k]).0));
    let (mid, items, results) = choose|
        mid: Graph<i64, i64, Directed, usize>,
        items: Seq<i64>,
        results: Seq<i64>,
    |
        #![trigger takes_rel(s0, pairs, mid, items), results_rel(f, items, results)]
        {
            &&& takes_rel(s0, pairs, mid, items)
            &&& results_rel(f, items, results)
            &&& puts_run(mid, pairs, results, s1, r)
        };
    lemma_g_edge_takes_identity(s0, pairs, mid, items);
    assert forall|k: int| #![trigger pairs[k]] 0 <= k < pairs.len() implies results[k]
        == g_edge_w(&s0)[pairs[k].0.0 as nat] by {
        assert(call_ensures(f, (items[k],), results[k]));
        assert(results[k] == items[k]);
        assert(items[k] == g_edge_w(&s0)[pairs[k].0.0 as nat]);
    }
    lemma_g_edge_puts_identity(
        g_edge_w(&s0),
        g_nodes(&s0),
        g_edge_ends(&s0),
        mid,
        pairs,
        results,
        s1,
        r,
    );
}

proof fn lemma_g_edge_chunked_identity<F: Fn(i64) -> i64>(
    s0: Graph<i64, i64, Directed, usize>,
    pairs: Seq<(EdgeKey, EdgeKey)>,
    f: F,
    p: nat,
    s1: Graph<i64, i64, Directed, usize>,
    r: Result<(), DispatchError>,
)
    requires
        p >= 1,
        dispatch_chunks_rel(s0, chunks_of(pairs, p), f, s1, r),
        edge_self_pairs_for(pairs, g_edge_w(&s0).dom()),
        identity_fn(f),
    ensures
        r is Ok,
        g_edge_w(&s1) == g_edge_w(&s0),
        g_nodes(&s1) == g_nodes(&s0),
        g_edge_ends(&s1) == g_edge_ends(&s0),
    decreases pairs.len(),
{
    if pairs.len() == 0 {
        assert(chunks_of(pairs, p) == Seq::<Seq<(EdgeKey, EdgeKey)>>::empty());
    } else {
        let chunks = chunks_of(pairs, p);
        let first = if pairs.len() <= p {
            pairs
        } else {
            pairs.take(p as int)
        };
        assert(chunks[0] == first);
        let (mid0, r1) = choose|
            mid0: Graph<i64, i64, Directed, usize>,
            r1: Result<(), DispatchError>,
        |
            #![trigger chunk_rel(s0, chunks[0], f, mid0, r1)]
            {
                &&& chunk_rel(s0, chunks[0], f, mid0, r1)
                &&& if r1 is Err {
                    s1 == mid0 && r == r1
                } else {
                    dispatch_chunks_rel(mid0, chunks.drop_first(), f, s1, r)
                }
            };
        assert(edge_self_pairs_for(first, g_edge_w(&s0).dom())) by {
            if pairs.len() > p {
                assert(forall|k: int| 0 <= k < first.len() ==> first[k] == pairs[k]);
            }
        }
        lemma_g_edge_chunk_identity(s0, first, f, mid0, r1);
        if pairs.len() <= p {
            assert(chunks.drop_first() =~= Seq::<Seq<(EdgeKey, EdgeKey)>>::empty());
            assert(s1 == mid0);
        } else {
            let rest = pairs.skip(p as int);
            assert(chunks.drop_first() =~= chunks_of(rest, p));
            assert(edge_self_pairs_for(rest, g_edge_w(&mid0).dom())) by {
                assert(g_edge_w(&mid0).dom() =~= g_edge_w(&s0).dom());
                assert(forall|k: int| 0 <= k < rest.len() ==> rest[k] == pairs[k + p]);
            }
            lemma_g_edge_chunked_identity(mid0, rest, f, p, s1, r);
        }
    }
}

/// Identity law for the plain-graph edge-weight adapter: dispatching the
/// canonical correspondence list through a processor that can only hand
/// each weight back leaves the graph observably unchanged, and succeeds.
pub proof fn lemma_plain_graph_edge_dispatch_identity<F: Fn(i64) -> i64>(
    s0: Graph<i64, i64, Directed, usize>,
    pairs: Seq<(EdgeKey, EdgeKey)>,
    f: F,
    p: nat,
    s1: Graph<i64, i64, Directed, usize>,
    r: Result<(), DispatchError>,
)
    requires
        <Graph<i64, i64, Directed, usize> as TakePutBack<EdgeKey, EdgeKey>>::all_idces_post(
            &s0,
            pairs,
        ),
        identity_fn(f),
        dispatch_rel(s0, pairs, f, p, s1, r),
    ensures
        r is Ok,
        <Graph<i64, i64, Directed, usize> as TakePutBack<EdgeKey, EdgeKey>>::obs_eq(
            &s1,
            &s0,
        ),
{
    lemma_g_edge_chunked_identity(s0, pairs, f, p, s1, r);
}


/// The effect of a do-nothing splice, decoupled from the state the capture
/// was made in: if the graph's edges are still exactly `ms0` and the
/// captured lists reflect `ms0` at node `k`, reinserting the single-node
/// wrap restores the node's weight and every edge.
proof fn lemma_splice_put_restores(
    m: KeyedGraph,
    i1: NodeKey,
    i2: (NodeKey, Vec<NodeKey>, Vec<NodeKey>),
    item: (i64, Vec<(NodeKey, i64)>, Vec<(NodeKey, i64)>),
    y: (KeyedGraph, NodeKey, NodeKey, Vec<(NodeKey, i64)>, Vec<(NodeKey, i64)>),
    post: KeyedGraph,
    ms0: Multiset<(nat, nat, i64)>,
)
    requires
        sg_edge_ms(&m) == ms0,
        sg_nodes(&m).dom().contains(i1.0 as nat),
        in_triples(item.1@, i1.0 as nat).to_multiset() == ms0.filter(into_node(i1.0 as nat)),
        out_triples(item.2@, i1.0 as nat).to_multiset() == ms0.filter(from_node(i1.0 as nat)),
        i2.0 == i1,
        forall|s: NodeKey|
            #![trigger i2.1@.contains(s)]
            i2.1@.contains(s) <==> exists|w: i64| ms0.contains((s.0 as nat, i1.0 as nat, w)),
        forall|s: NodeKey|
            #![trigger i2.2@.contains(s)]
            i2.2@.contains(s) <==> exists|w: i64| ms0.contains((i1.0 as nat, s.0 as nat, w)),
        <KeyedGraph as TakePutBack<NodeKey, (NodeKey, Vec<NodeKey>, Vec<NodeKey>)>>::nothing_rel(
            item,
            y,
        ),
        <KeyedGraph as TakePutBack<NodeKey, (NodeKey, Vec<NodeKey>, Vec<NodeKey>)>>::put_post(
            &m,
            i2,
            y,
            &post,
        ),
    ensures
        sg_nodes(&post) == sg_nodes(&m).insert(i1.0 as nat, item.0),
        sg_edge_ms(&post) == ms0,
{
    broadcast use vstd::seq_lib::group_to_multiset_ensures;
    broadcast use vstd::multiset::group_multiset_axioms;

    let kn = i1.0 as nat;
    let rep = y.0;
    let entry = (y.1).0 as nat;
    let cap_in = y.3@;
    let cap_out = y.4@;
    let jn = choose|j: nat|
        sg_nodes(&rep) == #[trigger] Map::<nat, i64>::empty().insert(j, item.0) && (y.1).0 as nat
            == j;
    assert(sg_nodes(&rep).dom() =~= set![entry]);

    let (nmap, rep_edges) = choose|nmap: Map<nat, nat>, rep_edges: Seq<(nat, nat, i64)>|
        #[trigger] splice_witness(
            m,
            kn,
            i2.1@,
            i2.2@,
            rep,
            entry,
            entry,
            cap_in,
            cap_out,
            post,
            nmap,
            rep_edges,
        );
    assert(nmap[entry] == kn);
    assert(nmap.dom() =~= set![entry]);

    // The node's weight lands back on its own key.
    assert forall|key: nat|
        sg_nodes(&m).dom().contains(key) || key == kn implies sg_nodes(&post).dom().contains(key)
        && sg_nodes(&post)[key] == sg_nodes(&m).insert(kn, item.0)[key] by {
        if key != kn {
            assert(sg_nodes(&m).dom().contains(key));
        } else {
            assert(nmap.dom().contains(entry) && nmap[entry] == kn);
            assert(sg_nodes(&post).dom().contains(kn));
            assert(sg_nodes(&post)[kn] == sg_nodes(&rep)[entry]);
            assert(sg_nodes(&rep)[entry] == item.0);
        }
    }
    assert forall|key: nat| sg_nodes(&post).dom().contains(key) implies sg_nodes(
        &m,
    ).insert(kn, item.0).dom().contains(key) by {
        if sg_nodes(&m).dom().contains(key) && key != kn {
        } else {
            let a = choose|a: nat| nmap.dom().contains(a) && #[trigger] nmap[a] == key;
            assert(a == entry);
        }
    }
    assert(sg_nodes(&post) =~= sg_nodes(&m).insert(kn, item.0));

    // The edges are restored as a multiset.
    assert(rep_edges.to_multiset() =~= Multiset::<(nat, nat, i64)>::empty());
    assert(rep_edges.to_multiset().len() == 0);
    assert(rep_edges =~= Seq::<(nat, nat, i64)>::empty());
    let remapped = rep_edges.map_values(|t: (nat, nat, i64)| (nmap[t.0], nmap[t.1], t.2));
    assert(remapped =~= Seq::<(nat, nat, i64)>::empty());
    assert(remapped.to_multiset() =~= Multiset::<(nat, nat, i64)>::empty());

    // Each captured entry survives exactly the filter that matches its
    // shape: external entries the port rewiring, self-loop entries the
    // loop rewiring.
    let in_pred = survives_from(ms0, kn, i2.1@);
    let loop_pred = survives_loop(ms0, kn, i2.1@);
    let q_ext_in = |t: (nat, nat, i64)| t.0 != kn;
    let q_loop = |t: (nat, nat, i64)| t.0 == kn;
    assert forall|t: int| #![trigger cap_in[t]] 0 <= t < cap_in.len() implies {
        &&& (in_pred(cap_in[t]) <==> q_ext_in((((cap_in[t].0).0 as nat, kn, cap_in[t].1))))
        &&& (loop_pred(cap_in[t]) <==> q_loop((((cap_in[t].0).0 as nat, kn, cap_in[t].1))))
        &&& (loop_pred(cap_in[t]) ==> (cap_in[t].0).0 as nat == kn)
    } by {
        let p = cap_in[t];
        let trip = ((p.0).0 as nat, kn, p.1);
        assert(in_triples(cap_in, kn)[t] == trip);
        assert(in_triples(cap_in, kn).contains(trip));
        assert(in_triples(cap_in, kn).to_multiset().contains(trip));
        assert(ms0.filter(into_node(kn)).contains(trip));
        assert(ms0.contains(trip));
        assert(i2.1@.contains(p.0));
    }
    lemma_in_triples_filter(cap_in, kn, in_pred, q_ext_in);
    lemma_to_multiset_filter(in_triples(cap_in, kn), q_ext_in);
    lemma_loop_triples_filter(cap_in, kn, loop_pred, q_loop);
    lemma_to_multiset_filter(in_triples(cap_in, kn), q_loop);

    let out_pred = survives_to(ms0, kn, i2.2@);
    let q_ext_out = |t: (nat, nat, i64)| t.1 != kn;
    assert forall|t: int| #![trigger cap_out[t]] 0 <= t < cap_out.len() implies (out_pred(
        cap_out[t],
    ) <==> q_ext_out((kn, (cap_out[t].0).0 as nat, cap_out[t].1))) by {
        let p = cap_out[t];
        let trip = (kn, (p.0).0 as nat, p.1);
        assert(out_triples(cap_out, kn)[t] == trip);
        assert(out_triples(cap_out, kn).contains(trip));
        assert(out_triples(cap_out, kn).to_multiset().contains(trip));
        assert(ms0.filter(from_node(kn)).contains(trip));
        assert(ms0.contains(trip));
        assert(i2.2@.contains(p.0));
    }
    lemma_out_triples_filter(cap_out, kn, out_pred, q_ext_out);
    lemma_to_multiset_filter(out_triples(cap_out, kn), q_ext_out);

    assert(in_triples(cap_in.filter(in_pred), nmap[entry]).to_multiset() == ms0.filter(
        into_node(kn),
    ).filter(q_ext_in));
    assert(out_triples(cap_out.filter(out_pred), nmap[entry]).to_multiset() == ms0.filter(
        from_node(kn),
    ).filter(q_ext_out));
    assert(loop_triples(
        cap_in.filter(loop_pred),
        nmap[entry],
        nmap[entry],
    ).to_multiset() == ms0.filter(into_node(kn)).filter(q_loop));

    assert forall|t: (nat, nat, i64)| true implies #[trigger] sg_edge_ms(&post).count(t)
        == ms0.count(t) by {
        if t.0 == kn && t.1 == kn {
            assert(ms0.filter(away_from_node(kn)).count(t) == 0);
            assert(ms0.filter(into_node(kn)).filter(q_ext_in).count(t) == 0);
            assert(ms0.filter(from_node(kn)).filter(q_ext_out).count(t) == 0);
            assert(ms0.filter(into_node(kn)).filter(q_loop).count(t) == ms0.count(t));
        } else if t.1 == kn {
            assert(ms0.filter(away_from_node(kn)).count(t) == 0);
            assert(ms0.filter(into_node(kn)).filter(q_ext_in).count(t) == ms0.count(t));
            assert(ms0.filter(from_node(kn)).filter(q_ext_out).count(t) == 0);
            assert(ms0.filter(into_node(kn)).filter(q_loop).count(t) == 0);
        } else if t.0 == kn {
            assert(ms0.filter(away_from_node(kn)).count(t) == 0);
            assert(ms0.filter(into_node(kn)).filter(q_ext_in).count(t) == 0);
            assert(ms0.filter(from_node(kn)).filter(q_ext_out).count(t) == ms0.count(t));
            assert(ms0.filter(into_node(kn)).filter(q_loop).count(t) == 0);
        } else {
            assert(ms0.filter(away_from_node(kn)).count(t) == ms0.count(t));
            assert(ms0.filter(into_node(kn)).filter(q_ext_in).count(t) == 0);
            assert(ms0.filter(from_node(kn)).filter(q_ext_out).count(t) == 0);
            assert(ms0.filter(into_node(kn)).filter(q_loop).count(t) == 0);
        }
    }
    assert(sg_edge_ms(&post) =~= ms0);
}

/// The splice pairs of a dispatch: each node paired with itself and its
/// current neighbor sets, no two pairs on the same node.
pub open spec fn splice_self_pairs_for(
    s0: KeyedGraph,
    pairs: Seq<(NodeKey, (NodeKey, Vec<NodeKey>, Vec<NodeKey>))>,
) -> bool {
    &&& forall|k: int|
        0 <= k < pairs.len()
            ==> <KeyedGraph as TakePutBack<NodeKey, (NodeKey, Vec<NodeKey>, Vec<NodeKey>)>>::pair_ok(
            &s0,
            (#[trigger] pairs[k]).0,
            pairs[k].1,
        )
    &&& forall|a: int, b: int| 0 <= a < b < pairs.len() ==> pairs[a].0.0 != pairs[b].0.0
}

proof fn lemma_splice_takes_identity(
    s0: KeyedGraph,
    pairs: Seq<(NodeKey, (NodeKey, Vec<NodeKey>, Vec<NodeKey>))>,
    mid: KeyedGraph,
    items: Seq<(i64, Vec<(NodeKey, i64)>, Vec<(NodeKey, i64)>)>,
)
    requires
        takes_rel(s0, pairs, mid, items),
        splice_self_pairs_for(s0, pairs),
    ensures
        sg_nodes(&mid).dom() == sg_nodes(&s0).dom(),
        sg_edge_ms(&mid) == sg_edge_ms(&s0),
        items.len() == pairs.len(),
        forall|k: int|
            0 <= k < pairs.len() ==> (#[trigger] items[k]).0 == sg_nodes(&s0)[pairs[k].0.0 as nat],
        forall|k: int|
            0 <= k < pairs.len() ==> in_triples(
                (#[trigger] items[k]).1@,
                pairs[k].0.0 as nat,
            ).to_multiset() == sg_edge_ms(&s0).filter(into_node(pairs[k].0.0 as nat)),
        forall|k: int|
            0 <= k < pairs.len() ==> out_triples(
                (#[trigger] items[k]).2@,
                pairs[k].0.0 as nat,
            ).to_multiset() == sg_edge_ms(&s0).filter(from_node(pairs[k].0.0 as nat)),
        forall|key: nat|
            sg_nodes(&s0).dom().contains(key) && !node_taken_splice(pairs, key) ==> sg_nodes(
                &mid,
            )[key] == sg_nodes(&s0)[key],
    decreases pairs.len(),
{
    if pairs.len() == 0 {
    } else {
        let m1 = choose|m1: KeyedGraph|
            #[trigger] <KeyedGraph as TakePutBack<
                NodeKey,
                (NodeKey, Vec<NodeKey>, Vec<NodeKey>),
            >>::take_post(&s0, pairs[0].0, &m1, &items[0]) && takes_rel(
                m1,
                pairs.drop_first(),
                mid,
                items.drop_first(),
            );
        let k0 = pairs[0].0.0 as nat;
        assert(sg_nodes(&m1) == sg_nodes(&s0).insert(k0, 0i64));
        assert(sg_nodes(&m1).dom() =~= sg_nodes(&s0).dom());
        assert(splice_self_pairs_for(m1, pairs.drop_first())) by {
            assert(forall|k: int|
                0 <= k < pairs.drop_first().len() ==> pairs.drop_first()[k] == pairs[k + 1]);
        }
        lemma_splice_takes_identity(m1, pairs.drop_first(), mid, items.drop_first());
        assert forall|k: int| #![trigger pairs[k]] 0 <= k < pairs.len() implies items[k].0
            == sg_nodes(&s0)[pairs[k].0.0 as nat] && in_triples(
            items[k].1@,
            pairs[k].0.0 as nat,
        ).to_multiset() == sg_edge_ms(&s0).filter(into_node(pairs[k].0.0 as nat)) && out_triples(
            items[k].2@,
            pairs[k].0.0 as nat,
        ).to_multiset() == sg_edge_ms(&s0).filter(from_node(pairs[k].0.0 as nat)) by {
            if k > 0 {
                assert(pairs.drop_first()[k - 1] == pairs[k]);
                assert(items.drop_first()[k - 1] == items[k]);
                assert(pairs[k].0.0 as nat != k0);
                assert(sg_nodes(&m1)[pairs[k].0.0 as nat] == sg_nodes(&s0)[pairs[k].0.0 as nat]);
            }
        }
        assert forall|key: nat|
            sg_nodes(&s0).dom().contains(key) && !node_taken_splice(pairs, key) implies sg_nodes(
            &mid,
        )[key] == sg_nodes(&s0)[key] by {
            assert(pairs[0].0.0 as nat != key);
            assert(!node_taken_splice(pairs.drop_first(), key)) by {
                if node_taken_splice(pairs.drop_first(), key) {
                    let k = choose|k: int|
                        0 <= k < pairs.drop_first().len() && (#[trigger] pairs.drop_first()[
                            k
                        ]).0.0 as nat == key;
                    assert(pairs[k + 1].0.0 as nat == key);
                }
            }
            assert(sg_nodes(&m1)[key] == sg_nodes(&s0)[key]);
        }
    }
}

/// Node `key` is spliced by some work item.
pub open spec fn node_taken_splice(
    pairs: Seq<(NodeKey, (NodeKey, Vec<NodeKey>, Vec<NodeKey>))>,
    key: nat,
) -> bool {
    exists|k: int| 0 <= k < pairs.len() && (#[trigger] pairs[k]).0.0 as nat == key
}

proof fn lemma_splice_puts_identity(
    base: Map<nat, i64>,
    ms0: Multiset<(nat, nat, i64)>,
    mid: KeyedGraph,
    pairs: Seq<(NodeKey, (NodeKey, Vec<NodeKey>, Vec<NodeKey>))>,
    items: Seq<(i64, Vec<(NodeKey, i64)>, Vec<(NodeKey, i64)>)>,
    results: Seq<(KeyedGraph, NodeKey, NodeKey, Vec<(NodeKey, i64)>, Vec<(NodeKey, i64)>)>,
    s1: KeyedGraph,
    r: Result<(), DispatchError>,
)
    requires
        puts_run(mid, pairs, results, s1, r),
        sg_nodes(&mid).dom() == base.dom(),
        sg_edge_ms(&mid) == ms0,
        forall|k: int|
            0 <= k < pairs.len() ==> (#[trigger] pairs[k]).1.0 == pairs[k].0 && base.dom(
            ).contains(pairs[k].0.0 as nat),
        forall|a: int, b: int| 0 <= a < b < pairs.len() ==> pairs[a].0.0 != pairs[b].0.0,
        forall|k: int, s: NodeKey|
            #![trigger (pairs[k].1).1@.contains(s)]
            0 <= k < pairs.len() ==> ((pairs[k].1).1@.contains(s) <==> exists|w: i64| ms0.contains(
                (s.0 as nat, pairs[k].0.0 as nat, w),
            )),
        forall|k: int, s: NodeKey|
            #![trigger (pairs[k].1).2@.contains(s)]
            0 <= k < pairs.len() ==> ((pairs[k].1).2@.contains(s) <==> exists|w: i64| ms0.contains(
                (pairs[k].0.0 as nat, s.0 as nat, w),
            )),
        items.len() == pairs.len(),
        results.len() == pairs.len(),
        forall|k: int|
            0 <= k < pairs.len() ==> <KeyedGraph as TakePutBack<
                NodeKey,
                (NodeKey, Vec<NodeKey>, Vec<NodeKey>),
            >>::nothing_rel(#[trigger] items[k], results[k]),
        forall|k: int|
            0 <= k < pairs.len() ==> (#[trigger] items[k]).0 == base[pairs[k].0.0 as nat],
        forall|k: int|
            0 <= k < pairs.len() ==> in_triples(
                (#[trigger] items[k]).1@,
                pairs[k].0.0 as nat,
            ).to_multiset() == ms0.filter(into_node(pairs[k].0.0 as nat)),
        forall|k: int|
            0 <= k < pairs.len() ==> out_triples(
                (#[trigger] items[k]).2@,
                pairs[k].0.0 as nat,
            ).to_multiset() == ms0.filter(from_node(pairs[k].0.0 as nat)),
        forall|key: nat|
            base.dom().contains(key) && !node_taken_splice(pairs, key) ==> sg_nodes(&mid)[key]
                == base[key],
    ensures
        r is Ok,
        sg_nodes(&s1) == base,
        sg_edge_ms(&s1) == ms0,
    decreases pairs.len(),
{
    if pairs.len() == 0 {
        assert forall|key: nat| base.dom().contains(key) implies sg_nodes(&s1)[key]
            == base[key] by {
            assert(!node_taken_splice(pairs, key));
        }
        assert(sg_nodes(&s1) =~= base);
    } else {
        let k0 = pairs[0].0.0 as nat;
        assert(<KeyedGraph as TakePutBack<
            NodeKey,
            (NodeKey, Vec<NodeKey>, Vec<NodeKey>),
        >>::valid_put(&mid, pairs[0].1, results[0])) by {
            let jw = choose|j: nat|
                sg_nodes(&results[0].0) == #[trigger] Map::<nat, i64>::empty().insert(
                    j,
                    items[0].0,
                ) && (results[0].1).0 as nat == j;
            assert(sg_nodes(&results[0].0).dom().contains(jw));
        }
        let m2 = choose|m2: KeyedGraph|
            #[trigger] <KeyedGraph as TakePutBack<
                NodeKey,
                (NodeKey, Vec<NodeKey>, Vec<NodeKey>),
            >>::put_post(&mid, pairs[0].1, results[0], &m2) && puts_run(
                m2,
                pairs.drop_first(),
                results.drop_first(),
                s1,
                r,
            );
        lemma_splice_put_restores(
            mid,
            pairs[0].0,
            pairs[0].1,
            items[0],
            results[0],
            m2,
            ms0,
        );
        assert(sg_nodes(&m2) == sg_nodes(&mid).insert(k0, base[k0]));
        assert(sg_nodes(&m2).dom() =~= base.dom());
        assert(forall|k: int|
            0 <= k < pairs.drop_first().len() ==> pairs.drop_first()[k] == pairs[k + 1]
                && items.drop_first()[k] == items[k + 1] && results.drop_first()[k] == results[k
                + 1]);
        assert forall|key: nat|
            base.dom().contains(key) && !node_taken_splice(pairs.drop_first(), key) implies
            sg_nodes(&m2)[key] == base[key] by {
            if key == k0 {
            } else {
                assert(!node_taken_splice(pairs, key)) by {
                    if node_taken_splice(pairs, key) {
                        let k = choose|k: int|
                            0 <= k < pairs.len() && (#[trigger] pairs[k]).0.0 as nat == key;
                        assert(k > 0);
                        assert(pairs.drop_first()[k - 1].0.0 as nat == key);
                    }
                }
            }
        }
        lemma_splice_puts_identity(
            base,
            ms0,
            m2,
            pairs.drop_first(),
            items.drop_first(),
            results.drop_first(),
            s1,
            r,
        );
    }
}

proof fn lemma_splice_chunk_identity<
    F: Fn(
        (i64, Vec<(NodeKey, i64)>, Vec<(NodeKey, i64)>),
    ) -> (KeyedGraph, NodeKey, NodeKey, Vec<(NodeKey, i64)>, Vec<(NodeKey, i64)>),
>(
    s0: KeyedGraph,
    pairs: Seq<(NodeKey, (NodeKey, Vec<NodeKey>, Vec<NodeKey>))>,
    f: F,
    s1: KeyedGraph,
    r: Result<(), DispatchError>,
)
    requires
        chunk_rel(s0, pairs, f, s1, r),
        splice_self_pairs_for(s0, pairs),
        forall|x: (i64, Vec<(NodeKey, i64)>, Vec<(NodeKey, i64)>), y|
            #[trigger] call_ensures(f, (x,), y) ==> <KeyedGraph as TakePutBack<
                NodeKey,
                (NodeKey, Vec<NodeKey>, Vec<NodeKey>),
            >>::nothing_rel(x, y),
    ensures
        r is Ok,
        sg_nodes(&s1) == sg_nodes(&s0),
        sg_edge_ms(&s1) == sg_edge_ms(&s0),
{
    assert(forall|k: int|
        0 <= k < pairs.len() ==> <KeyedGraph as TakePutBack<
            NodeKey,
            (NodeKey, Vec<NodeKey>, Vec<NodeKey>),
        >>::valid_take(&s0, (#[trigger] pairs[k]).0));
    let (mid, items, results) = choose|
        mid: KeyedGraph,
        items: Seq<(i64, Vec<(NodeKey, i64)>, Vec<(NodeKey, i64)>)>,
        results: Seq<(KeyedGraph, NodeKey, NodeKey, Vec<(NodeKey, i64)>, Vec<(NodeKey, i64)>)>,
    |
        #![trigger takes_rel(s0, pairs, mid, items), results_rel(f, items, results)]
        {
            &&& takes_rel(s0, pairs, mid, items)
            &&& results_rel(f, items, results)
            &&& puts_run(mid, pairs, results, s1, r)
        };
    lemma_splice_takes_identity(s0, pairs, mid, items);
    assert forall|k: int| #![trigger items[k]] 0 <= k < pairs.len() implies <KeyedGraph as
        TakePutBack<NodeKey, (NodeKey, Vec<NodeKey>, Vec<NodeKey>)>>::nothing_rel(
        items[k],
        results[k],
    ) by {
        assert(call_ensures(f, (items[k],), results[k]));
    }
    lemma_splice_puts_identity(
        sg_nodes(&s0),
        sg_edge_ms(&s0),
        mid,
        pairs,
        items,
        results,
        s1,
        r,
    );
}

proof fn lemma_splice_chunked_identity<
    F: Fn(
        (i64, Vec<(NodeKey, i64)>, Vec<(NodeKey, i64)>),
    ) -> (KeyedGraph, NodeKey, NodeKey, Vec<(NodeKey, i64)>, Vec<(NodeKey, i64)>),
>(
    s0: KeyedGraph,
    pairs: Seq<(NodeKey, (NodeKey, Vec<NodeKey>, Vec<NodeKey>))>,
    f: F,
    p: nat,
    s1: KeyedGraph,
    r: Result<(), DispatchError>,
)
    requires
        p >= 1,
        dispatch_chunks_rel(s0, chunks_of(pairs, p), f, s1, r),
        splice_self_pairs_for(s0, pairs),
        forall|x: (i64, Vec<(NodeKey, i64)>, Vec<(NodeKey, i64)>), y|
            #[trigger] call_ensures(f, (x,), y) ==> <KeyedGraph as TakePutBack<
                NodeKey,
                (NodeKey, Vec<NodeKey>, Vec<NodeKey>),
            >>::nothing_rel(x, y),
    ensures
        r is Ok,
        sg_nodes(&s1) == sg_nodes(&s0),
        sg_edge_ms(&s1) == sg_edge_ms(&s0),
    decreases pairs.len(),
{
    if pairs.len() == 0 {
        assert(chunks_of(pairs, p) == Seq::<
            Seq<(NodeKey, (NodeKey, Vec<NodeKey>, Vec<NodeKey>))>,
        >::empty());
    } else {
        let chunks = chunks_of(pairs, p);
        let first = if pairs.len() <= p {
            pairs
        } else {
            pairs.take(p as int)
        };
        assert(chunks[0] == first);
        let (mid0, r1) = choose|mid0: KeyedGraph, r1: Result<(), DispatchError>|
            #![trigger chunk_rel(s0, chunks[0], f, mid0, r1)]
            {
                &&& chunk_rel(s0, chunks[0], f, mid0, r1)
                &&& if r1 is Err {
                    s1 == mid0 && r == r1
                } else {
                    dispatch_chunks_rel(mid0, chunks.drop_first(), f, s1, r)
                }
            };
        assert(splice_self_pairs_for(s0, first)) by {
            if pairs.len() > p {
                assert(forall|k: int| 0 <= k < first.len() ==> first[k] == pairs[k]);
            }
        }
        lemma_splice_chunk_identity(s0, first, f, mid0, r1);
        if pairs.len() <= p {
            assert(chunks.drop_first() =~= Seq::<
                Seq<(NodeKey, (NodeKey, Vec<NodeKey>, Vec<NodeKey>))>,
            >::empty());
            assert(s1 == mid0);
        } else {
            let rest = pairs.skip(p as int);
            assert(chunks.drop_first() =~= chunks_of(rest, p));
            assert(splice_self_pairs_for(mid0, rest)) by {
                assert(forall|k: int| 0 <= k < rest.len() ==> rest[k] == pairs[k + p]);
                assert forall|k: int|
                    0 <= k < rest.len() implies <KeyedGraph as TakePutBack<
                    NodeKey,
                    (NodeKey, Vec<NodeKey>, Vec<NodeKey>),
                >>::pair_ok(&mid0, (#[trigger] rest[k]).0, rest[k].1) by {
                    assert(<KeyedGraph as TakePutBack<
                        NodeKey,
                        (NodeKey, Vec<NodeKey>, Vec<NodeKey>),
                    >>::pair_ok(&s0, rest[k].0, rest[k].1));
                }
            }
            lemma_splice_chunked_identity(mid0, rest, f, p, s1, r);
        }
    }
}

/// Identity law for the node-splice adapter: dispatching the canonical
/// correspondence list through a processor that can only wrap each
/// extracted node into its single-node replacement leaves the graph
/// observably unchanged, and succeeds.  A self-loop comes back as the
/// single rewired edge from the exit port to the entry port, which for
/// the single-node wrap is the loop itself.
pub proof fn lemma_graph_splice_dispatch_identity<
    F: Fn(
        (i64, Vec<(NodeKey, i64)>, Vec<(NodeKey, i64)>),
    ) -> (KeyedGraph, NodeKey, NodeKey, Vec<(NodeKey, i64)>, Vec<(NodeKey, i64)>),
>(
    s0: KeyedGraph,
    pairs: Seq<(NodeKey, (NodeKey, Vec<NodeKey>, Vec<NodeKey>))>,
    f: F,
    p: nat,
    s1: KeyedGraph,
    r: Result<(), DispatchError>,
)
    requires
        <KeyedGraph as TakePutBack<
            NodeKey,
            (NodeKey, Vec<NodeKey>, Vec<NodeKey>),
        >>::all_idces_post(&s0, pairs),
        forall|x: (i64, Vec<(NodeKey, i64)>, Vec<(NodeKey, i64)>), y|
            #[trigger] call_ensures(f, (x,), y) ==> <KeyedGraph as TakePutBack<
                NodeKey,
                (NodeKey, Vec<NodeKey>, Vec<NodeKey>),
            >>::nothing_rel(x, y),
        dispatch_rel(s0, pairs, f, p, s1, r),
    ensures
        r is Ok,
        <KeyedGraph as TakePutBack<NodeKey, (NodeKey, Vec<NodeKey>, Vec<NodeKey>)>>::obs_eq(
            &s1,
            &s0,
        ),
{
    assert(splice_self_pairs_for(s0, pairs)) by {
        assert forall|k: int|
            0 <= k < pairs.len() implies <KeyedGraph as TakePutBack<
            NodeKey,
            (NodeKey, Vec<NodeKey>, Vec<NodeKey>),
        >>::pair_ok(&s0, (#[trigger] pairs[k]).0, pairs[k].1) by {
            assert(sg_nodes(&s0).dom().contains(pairs[k].0.0 as nat));
        }
    }
    lemma_splice_chunked_identity(s0, pairs, f, p, s1, r);
}

} // verus!
