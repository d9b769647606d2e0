use petgraph::graph::Graph;
use petgraph::stable_graph::StableGraph;
use petgraph::visit::{EdgeRef, IntoEdgeReferences};
use petgraph::Directed;
use take_put_back::general::{process_all, TakePutBack};
use take_put_back::graphs::{EdgeKey, NodeKey};
use take_put_back::DispatchError;

type SG = StableGraph<i64, i64, Directed, usize>;
type PG = Graph<i64, i64, Directed, usize>;
type SpliceItem = (i64, Vec<(NodeKey, i64)>, Vec<(NodeKey, i64)>);
type SplicePut = (SG, NodeKey, NodeKey, Vec<(NodeKey, i64)>, Vec<(NodeKey, i64)>);

fn three_chain() -> (SG, NodeKey, NodeKey, NodeKey) {
    // a --5--> b --7--> c
    let mut g: SG = StableGraph::with_capacity(0, 0);
    let a = g.add_node(10);
    let b = g.add_node(20);
    let c = g.add_node(30);
    g.add_edge(a, b, 5);
    g.add_edge(b, c, 7);
    (
        g,
        NodeKey(a.index()),
        NodeKey(b.index()),
        NodeKey(c.index()),
    )
}

fn edge_triples(g: &SG) -> Vec<(usize, usize, i64)> {
    let mut v: Vec<(usize, usize, i64)> = g
        .edge_references()
        .map(|e| (e.source().index(), e.target().index(), *e.weight()))
        .collect();
    v.sort();
    v
}

#[test]
fn presence() {
    // the protocol operations exist for graph nodes, graph edges, and the
    // node splice, on both graph kinds
    let (mut g, a, _, _) = three_chain();
    assert!(<SG as TakePutBack<NodeKey, NodeKey>>::can_take(&g, &a));
    assert!(<SG as TakePutBack<EdgeKey, EdgeKey>>::can_take(&g, &EdgeKey(0)));
    assert!(
        <SG as TakePutBack<NodeKey, (NodeKey, Vec<NodeKey>, Vec<NodeKey>)>>::can_take(&g, &a)
    );
    let pairs = <SG as TakePutBack<NodeKey, NodeKey>>::all_idces_inout(&g);
    assert_eq!(pairs.len(), 3);
    let w = <SG as TakePutBack<NodeKey, NodeKey>>::take(&mut g, &a).unwrap();
    <SG as TakePutBack<NodeKey, NodeKey>>::put_back(&mut g, &a, w).unwrap();

    let mut pg: PG = Graph::with_capacity(0, 0);
    let n = pg.add_node(4);
    let nk = NodeKey(n.index());
    assert!(<PG as TakePutBack<NodeKey, NodeKey>>::can_take(&pg, &nk));
    assert!(!<PG as TakePutBack<EdgeKey, EdgeKey>>::can_take(&pg, &EdgeKey(0)));
}

#[test]
fn node_weights_increment() {
    let (mut g, a, b, c) = three_chain();
    let items = [(a, a), (b, b), (c, c)];
    process_all(&mut g, &items, |x: i64| x + 1).unwrap();
    assert_eq!(g[petgraph::stable_graph::NodeIndex::new(a.0)], 11);
    assert_eq!(g[petgraph::stable_graph::NodeIndex::new(b.0)], 21);
    assert_eq!(g[petgraph::stable_graph::NodeIndex::new(c.0)], 31);
    assert_eq!(edge_triples(&g), vec![(a.0, b.0, 5), (b.0, c.0, 7)]);
}

#[test]
fn edge_weights_increment() {
    let (mut g, a, b, c) = three_chain();
    let pairs = <SG as TakePutBack<EdgeKey, EdgeKey>>::all_idces_inout(&g);
    process_all(&mut g, &pairs, |x: i64| x * 2).unwrap();
    assert_eq!(edge_triples(&g), vec![(a.0, b.0, 10), (b.0, c.0, 14)]);
}

#[test]
fn plain_graph_adapters() {
    let mut pg: PG = Graph::with_capacity(0, 0);
    let a = pg.add_node(1);
    let b = pg.add_node(2);
    let e = pg.add_edge(a, b, 9);
    let pairs = [(NodeKey(a.index()), NodeKey(a.index())), (NodeKey(b.index()), NodeKey(b.index()))];
    process_all(&mut pg, &pairs, |x: i64| x - 1).unwrap();
    assert_eq!(pg[a], 0);
    assert_eq!(pg[b], 1);
    let epairs = [(EdgeKey(e.index()), EdgeKey(e.index()))];
    process_all(&mut pg, &epairs, |x: i64| x + 100).unwrap();
    assert_eq!(pg[e], 109);
}

#[test]
fn splice_identity_round_trip() {
    // take a node, wrap it through the do-nothing processing, put it
    // back: the graph is observably what it was
    let (mut g, a, b, c) = three_chain();
    let item: SpliceItem =
        <SG as TakePutBack<NodeKey, (NodeKey, Vec<NodeKey>, Vec<NodeKey>)>>::take(&mut g, &b)
            .unwrap();
    assert_eq!(item.0, 20);
    assert_eq!(item.1, vec![(a, 5)]);
    assert_eq!(item.2, vec![(c, 7)]);
    let put: SplicePut =
        <SG as TakePutBack<NodeKey, (NodeKey, Vec<NodeKey>, Vec<NodeKey>)>>::do_nothing_process(
            item,
        );
    let target = (b, vec![a], vec![c]);
    <SG as TakePutBack<NodeKey, (NodeKey, Vec<NodeKey>, Vec<NodeKey>)>>::put_back(
        &mut g, &target, put,
    )
    .unwrap();
    assert_eq!(g[petgraph::stable_graph::NodeIndex::new(a.0)], 10);
    assert_eq!(g[petgraph::stable_graph::NodeIndex::new(b.0)], 20);
    assert_eq!(g[petgraph::stable_graph::NodeIndex::new(c.0)], 30);
    assert_eq!(edge_triples(&g), vec![(a.0, b.0, 5), (b.0, c.0, 7)]);
}

#[test]
fn splice_expands_node_into_subgraph() {
    // replace b with a two-node pipeline entry -> exit
    let (mut g, a, b, c) = three_chain();
    let item: SpliceItem =
        <SG as TakePutBack<NodeKey, (NodeKey, Vec<NodeKey>, Vec<NodeKey>)>>::take(&mut g, &b)
            .unwrap();
    let mut rep: SG = StableGraph::with_capacity(0, 0);
    let p = rep.add_node(201);
    let q = rep.add_node(202);
    rep.add_edge(p, q, 99);
    let put: SplicePut = (rep, NodeKey(p.index()), NodeKey(q.index()), item.1, item.2);
    let target = (b, vec![a], vec![c]);
    <SG as TakePutBack<NodeKey, (NodeKey, Vec<NodeKey>, Vec<NodeKey>)>>::put_back(
        &mut g, &target, put,
    )
    .unwrap();
    assert_eq!(g.node_count(), 4);
    assert_eq!(g.edge_count(), 3);
    let mut weights: Vec<i64> = g.node_weights().copied().collect();
    weights.sort();
    assert_eq!(weights, vec![10, 30, 201, 202]);
    // a feeds the entry port, the exit port feeds c, entry feeds exit
    let mut by_weight = edge_triples(&g);
    by_weight.sort_by_key(|t| t.2);
    assert_eq!(by_weight.len(), 3);
    assert_eq!(by_weight[0].0, a.0);
    assert_eq!(by_weight[0].2, 5);
    assert_eq!(by_weight[1].1, c.0);
    assert_eq!(by_weight[1].2, 7);
    assert_eq!(by_weight[2].2, 99);
}

#[test]
fn splice_missing_port_is_rejected_without_mutation() {
    let (mut g, a, b, c) = three_chain();
    let item: SpliceItem =
        <SG as TakePutBack<NodeKey, (NodeKey, Vec<NodeKey>, Vec<NodeKey>)>>::take(&mut g, &b)
            .unwrap();
    let nodes_before: Vec<i64> = g.node_weights().copied().collect();
    let edges_before = edge_triples(&g);
    let mut rep: SG = StableGraph::with_capacity(0, 0);
    let p = rep.add_node(50);
    let missing = NodeKey(p.index() + 10);
    let put: SplicePut = (rep, NodeKey(p.index()), missing, item.1, item.2);
    let target = (b, vec![a], vec![c]);
    let r = <SG as TakePutBack<NodeKey, (NodeKey, Vec<NodeKey>, Vec<NodeKey>)>>::put_back(
        &mut g, &target, put,
    );
    assert_eq!(r, Err(DispatchError::InvariantViolation));
    let nodes_after: Vec<i64> = g.node_weights().copied().collect();
    assert_eq!(nodes_after, nodes_before);
    assert_eq!(edge_triples(&g), edges_before);
}

#[test]
fn splice_missing_node_is_rejected() {
    let (mut g, a, b, c) = three_chain();
    let item: SpliceItem =
        <SG as TakePutBack<NodeKey, (NodeKey, Vec<NodeKey>, Vec<NodeKey>)>>::take(&mut g, &b)
            .unwrap();
    let put: SplicePut =
        <SG as TakePutBack<NodeKey, (NodeKey, Vec<NodeKey>, Vec<NodeKey>)>>::do_nothing_process(
            item,
        );
    let target = (NodeKey(77), vec![a], vec![c]);
    let r = <SG as TakePutBack<NodeKey, (NodeKey, Vec<NodeKey>, Vec<NodeKey>)>>::put_back(
        &mut g, &target, put,
    );
    assert_eq!(r, Err(DispatchError::IndexNotFound));
}

#[test]
fn splice_filters_stale_edges() {
    // an edge recorded at extraction but removed before reinsertion must
    // not reappear
    let (mut g, a, b, c) = three_chain();
    let item: SpliceItem =
        <SG as TakePutBack<NodeKey, (NodeKey, Vec<NodeKey>, Vec<NodeKey>)>>::take(&mut g, &b)
            .unwrap();
    assert_eq!(item.1, vec![(a, 5)]);
    let stale = g
        .find_edge(
            petgraph::stable_graph::NodeIndex::new(a.0),
            petgraph::stable_graph::NodeIndex::new(b.0),
        )
        .unwrap();
    g.remove_edge(stale);
    let put: SplicePut =
        <SG as TakePutBack<NodeKey, (NodeKey, Vec<NodeKey>, Vec<NodeKey>)>>::do_nothing_process(
            item,
        );
    let target = (b, vec![a], vec![c]);
    <SG as TakePutBack<NodeKey, (NodeKey, Vec<NodeKey>, Vec<NodeKey>)>>::put_back(
        &mut g, &target, put,
    )
    .unwrap();
    assert_eq!(edge_triples(&g), vec![(b.0, c.0, 7)]);
}

#[test]
fn splice_filters_disallowed_neighbors() {
    // a neighbor outside the allowed set captured at extraction time is
    // not rewired
    let (mut g, _a, b, c) = three_chain();
    let item: SpliceItem =
        <SG as TakePutBack<NodeKey, (NodeKey, Vec<NodeKey>, Vec<NodeKey>)>>::take(&mut g, &b)
            .unwrap();
    let put: SplicePut =
        <SG as TakePutBack<NodeKey, (NodeKey, Vec<NodeKey>, Vec<NodeKey>)>>::do_nothing_process(
            item,
        );
    let target = (b, vec![], vec![c]);
    <SG as TakePutBack<NodeKey, (NodeKey, Vec<NodeKey>, Vec<NodeKey>)>>::put_back(
        &mut g, &target, put,
    )
    .unwrap();
    assert_eq!(edge_triples(&g), vec![(b.0, c.0, 7)]);
}

#[test]
fn splice_all_idces_pair_nodes_with_neighbor_sets() {
    let (g, a, b, c) = three_chain();
    let pairs =
        <SG as TakePutBack<NodeKey, (NodeKey, Vec<NodeKey>, Vec<NodeKey>)>>::all_idces_inout(&g);
    assert_eq!(pairs.len(), 3);
    let for_b = pairs.iter().find(|p| p.0 == b).unwrap();
    assert_eq!(for_b.1 .0, b);
    assert_eq!(for_b.1 .1, vec![a]);
    assert_eq!(for_b.1 .2, vec![c]);
}

#[test]
fn graph_take_swaps_in_neutral_weight() {
    // a second extraction sees the placeholder, not the old weight
    let (mut g, a, _, _) = three_chain();
    let first = <SG as TakePutBack<NodeKey, NodeKey>>::take(&mut g, &a).unwrap();
    assert_eq!(first, 10);
    let second = <SG as TakePutBack<NodeKey, NodeKey>>::take(&mut g, &a).unwrap();
    assert_eq!(second, 0);
}

#[test]
fn graph_node_do_nothing_round_trip() {
    let (mut g, a, b, c) = three_chain();
    let pairs = <SG as TakePutBack<NodeKey, NodeKey>>::all_idces_inout(&g);
    process_all(
        &mut g,
        &pairs,
        <SG as TakePutBack<NodeKey, NodeKey>>::do_nothing_process,
    )
    .unwrap();
    assert_eq!(g[petgraph::stable_graph::NodeIndex::new(a.0)], 10);
    assert_eq!(g[petgraph::stable_graph::NodeIndex::new(b.0)], 20);
    assert_eq!(g[petgraph::stable_graph::NodeIndex::new(c.0)], 30);
    assert_eq!(edge_triples(&g), vec![(a.0, b.0, 5), (b.0, c.0, 7)]);
}

#[test]
fn splice_dispatch_identity() {
    // the identity law through the whole dispatcher: every node spliced
    // with its do-nothing wrap leaves the graph observably unchanged
    let (mut g, a, b, c) = three_chain();
    let pairs = <SG as TakePutBack<NodeKey, (NodeKey, Vec<NodeKey>, Vec<NodeKey>)>>::all_idces_inout(
        &g,
    );
    assert_eq!(pairs.len(), 3);
    process_all(
        &mut g,
        &pairs,
        <SG as TakePutBack<NodeKey, (NodeKey, Vec<NodeKey>, Vec<NodeKey>)>>::do_nothing_process,
    )
    .unwrap();
    assert_eq!(g[petgraph::stable_graph::NodeIndex::new(a.0)], 10);
    assert_eq!(g[petgraph::stable_graph::NodeIndex::new(b.0)], 20);
    assert_eq!(g[petgraph::stable_graph::NodeIndex::new(c.0)], 30);
    assert_eq!(edge_triples(&g), vec![(a.0, b.0, 5), (b.0, c.0, 7)]);
}

#[test]
fn splice_restores_self_loops() {
    // a --5--> b --7--> c with a self-loop at b: the do-nothing round
    // trip brings the loop back, rewired once from exit port to entry port
    let (mut g, a, b, c) = three_chain();
    g.add_edge(
        petgraph::stable_graph::NodeIndex::new(b.0),
        petgraph::stable_graph::NodeIndex::new(b.0),
        9,
    );
    let pairs = <SG as TakePutBack<NodeKey, (NodeKey, Vec<NodeKey>, Vec<NodeKey>)>>::all_idces_inout(
        &g,
    );
    let for_b = pairs.iter().find(|p| p.0 == b).unwrap().clone();
    assert!(for_b.1 .1.contains(&b), "the node is its own incoming neighbor");
    let item: SpliceItem =
        <SG as TakePutBack<NodeKey, (NodeKey, Vec<NodeKey>, Vec<NodeKey>)>>::take(&mut g, &b)
            .unwrap();
    let put: SplicePut =
        <SG as TakePutBack<NodeKey, (NodeKey, Vec<NodeKey>, Vec<NodeKey>)>>::do_nothing_process(
            item,
        );
    <SG as TakePutBack<NodeKey, (NodeKey, Vec<NodeKey>, Vec<NodeKey>)>>::put_back(
        &mut g, &for_b.1, put,
    )
    .unwrap();
    assert_eq!(g[petgraph::stable_graph::NodeIndex::new(b.0)], 20);
    assert_eq!(
        edge_triples(&g),
        vec![(a.0, b.0, 5), (b.0, b.0, 9), (b.0, c.0, 7)]
    );
}

#[test]
fn splice_dispatch_identity_with_self_loop() {
    let (mut g, a, b, c) = three_chain();
    g.add_edge(
        petgraph::stable_graph::NodeIndex::new(b.0),
        petgraph::stable_graph::NodeIndex::new(b.0),
        9,
    );
    let pairs = <SG as TakePutBack<NodeKey, (NodeKey, Vec<NodeKey>, Vec<NodeKey>)>>::all_idces_inout(
        &g,
    );
    process_all(
        &mut g,
        &pairs,
        <SG as TakePutBack<NodeKey, (NodeKey, Vec<NodeKey>, Vec<NodeKey>)>>::do_nothing_process,
    )
    .unwrap();
    assert_eq!(g[petgraph::stable_graph::NodeIndex::new(a.0)], 10);
    assert_eq!(g[petgraph::stable_graph::NodeIndex::new(b.0)], 20);
    assert_eq!(g[petgraph::stable_graph::NodeIndex::new(c.0)], 30);
    assert_eq!(
        edge_triples(&g),
        vec![(a.0, b.0, 5), (b.0, b.0, 9), (b.0, c.0, 7)]
    );
}

#[test]
fn splice_invalid_node_fails_whole_chunk_fast() {
    // one work item names a node that does not exist: nothing is
    // extracted, nothing changes
    let (mut g, a, b, c) = three_chain();
    let pairs = [(b, (b, vec![a], vec![c])), (NodeKey(77), (NodeKey(77), vec![], vec![]))];
    let nodes_before: Vec<i64> = g.node_weights().copied().collect();
    let r = process_all(
        &mut g,
        &pairs,
        <SG as TakePutBack<NodeKey, (NodeKey, Vec<NodeKey>, Vec<NodeKey>)>>::do_nothing_process,
    );
    assert_eq!(r, Err(DispatchError::IndexNotFound));
    let nodes_after: Vec<i64> = g.node_weights().copied().collect();
    assert_eq!(nodes_after, nodes_before);
    assert_eq!(edge_triples(&g), vec![(a.0, b.0, 5), (b.0, c.0, 7)]);
}

#[test]
fn splice_port_violation_surfaces_through_dispatch() {
    // a processor that produces a replacement lacking its ports cannot be
    // screened out up front; the failing reinsertion is reported and
    // leaves the container as the extractions left it
    let (mut g, _a, b, _c) = three_chain();
    fn bad_wrap(item: SpliceItem) -> SplicePut {
        let mut rep: SG = StableGraph::with_capacity(0, 0);
        let p = rep.add_node(item.0);
        (rep, NodeKey(p.index() + 10), NodeKey(p.index()), item.1, item.2)
    }
    let pairs = [(b, (b, vec![_a], vec![_c]))];
    let r = process_all(&mut g, &pairs, bad_wrap);
    assert_eq!(r, Err(DispatchError::InvariantViolation));
}
