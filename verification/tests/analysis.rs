use wikigraph_model::analysis::{check_graph_fits, AnalysisGraph, ConnectedComponents, Scc};
use wikigraph_model::graph::LinkGraph;
use wikigraph_model::object::{NodeRef, WikiPage};

/// 0 -> 1 -> 2 -> 0, 2 -> 3, 3 -> 4, and 4 alone otherwise; 5 isolated.
fn sample() -> LinkGraph {
    let mut g = LinkGraph::new();
    for name in ["a", "b", "c", "d", "e", "f"] {
        g.intern_markdown(name.to_string(), WikiPage::default());
    }
    for (x, y) in [(0, 1), (1, 2), (2, 0), (2, 3), (3, 4), (0, 1)] {
        g.link(NodeRef::new(x), NodeRef::new(y));
    }
    g
}

#[test]
fn shortest_paths_of_a_sample_graph() {
    let ag = AnalysisGraph::new(&sample());
    let sq = ag.export_shortest_paths();
    assert_eq!(sq.len(), 6);
    assert_eq!(sq[0], vec![0, 1, 2, 3, 4, 0]);
    assert_eq!(sq[2], vec![1, 2, 0, 1, 2, 0]);
    assert_eq!(sq[3], vec![0, 0, 0, 0, 1, 0]);
    // A node that reaches nothing else has an empty row.
    assert!(sq[4].is_empty());
    assert!(sq[5].is_empty());
    let sp = ag.shortest_paths();
    assert_eq!(sp.length(NodeRef::new(0), NodeRef::new(4)), Some(4));
    assert_eq!(sp.length(NodeRef::new(4), NodeRef::new(4)), Some(0));
    assert_eq!(sp.length(NodeRef::new(4), NodeRef::new(0)), None);
    assert_eq!(sp.lenths_from(NodeRef::new(1)), &[2, 0, 1, 2, 3, 0]);
}

#[test]
fn strongly_connected_components_of_a_sample_graph() {
    let ag = AnalysisGraph::new(&sample());
    let scc = ag.export_scc();
    assert_eq!(scc.len(), 6);
    assert_eq!(scc[0], scc[1]);
    assert_eq!(scc[1], scc[2]);
    assert_ne!(scc[2], scc[3]);
    assert_ne!(scc[3], scc[4]);
    assert_ne!(scc[4], scc[5]);
    let s = ag.scc();
    assert!(s.are_shared(0, 2));
    assert!(!s.are_shared(0, 3));
    for v in 0..6 {
        let (g, i) = s.find(v);
        assert_eq!(g[petgraph::graph::NodeIndex::new(i)], v);
    }
    let (g, _) = s.find(1);
    assert_eq!(g.node_count(), 3);
    assert_eq!(g.edge_count(), 3);
}

#[test]
fn connected_components_of_a_sample_graph() {
    let g = sample();
    let ag = AnalysisGraph::new(&g);
    let cc = wikigraph_model::analysis::ConnectedComponents::new(ag.graph());
    for v in 0..6 {
        let (sub, i) = cc.find(v);
        assert_eq!(sub[petgraph::graph::NodeIndex::new(i)], v);
    }
    let (big, _) = cc.find(0);
    assert_eq!(big.node_count(), 5);
    assert_eq!(big.edge_count(), 5);
    let (alone, _) = cc.find(5);
    assert_eq!(alone.node_count(), 1);
}

#[test]
fn duplicate_links_become_one_edge() {
    let ag = AnalysisGraph::new(&sample());
    assert_eq!(ag.graph().edge_count(), 5);
}

/// 0 -> 1 -> 3, 0 -> 2 -> 3, 3 -> 0: two shortest paths from 0 to 3.
fn diamond() -> LinkGraph {
    let mut g = LinkGraph::new();
    for name in ["a", "b", "c", "d"] {
        g.intern_markdown(name.to_string(), WikiPage::default());
    }
    for (x, y) in [(0, 1), (0, 2), (1, 3), (2, 3), (3, 0)] {
        g.link(NodeRef::new(x), NodeRef::new(y));
    }
    g
}

#[test]
fn shortest_paths_are_counted_through_each_layer() {
    let ag = AnalysisGraph::new(&diamond());
    let (n, visits) = ag.count_shortest_paths(NodeRef::new(0), NodeRef::new(3));
    assert_eq!(n, 2);
    assert_eq!(visits, vec![2, 1, 1, 0]);
    // From 3 back to 0 there is a single edge.
    let (n, visits) = ag.count_shortest_paths(NodeRef::new(3), NodeRef::new(0));
    assert_eq!(n, 1);
    assert_eq!(visits, vec![0, 0, 0, 1]);
    // From 1 to 2 the only shortest path runs through 3 and 0.
    let (n, visits) = ag.count_shortest_paths(NodeRef::new(1), NodeRef::new(2));
    assert_eq!(n, 1);
    assert_eq!(visits, vec![1, 1, 0, 1]);
}

#[test]
fn counting_from_a_node_to_itself_gives_one() {
    let ag = AnalysisGraph::new(&sample());
    assert_eq!(ag.count_shortest_paths(NodeRef::new(1), NodeRef::new(1)), (1, vec![0; 6]));
    assert_eq!(ag.count_shortest_paths(NodeRef::new(5), NodeRef::new(5)), (1, vec![0; 6]));
}

#[test]
fn counting_from_a_node_that_reaches_nothing_gives_zero() {
    let ag = AnalysisGraph::new(&sample());
    assert_eq!(ag.count_shortest_paths(NodeRef::new(4), NodeRef::new(0)), (0, vec![0; 6]));
}

#[test]
fn counting_in_the_sample_cycle() {
    let ag = AnalysisGraph::new(&sample());
    assert_eq!(
        ag.count_shortest_paths(NodeRef::new(0), NodeRef::new(2)),
        (1, vec![1, 1, 0, 0, 0, 0])
    );
}

#[test]
fn strong_components_come_in_reverse_topological_order() {
    let ag = AnalysisGraph::new(&sample());
    let scc = ag.export_scc();
    // 0 -> 1 -> 2 -> 0, 2 -> 3, 3 -> 4: each edge between components leads to an earlier one.
    assert!(scc[3] < scc[2]);
    assert!(scc[4] < scc[3]);
}

#[test]
fn labels_and_degrees_count_each_link_once() {
    let mut g = LinkGraph::new();
    let a = g.intern_markdown("a".to_string(), WikiPage::default());
    let x = g.intern_external("https://x".to_string());
    let m = g.intern_mystery_file("m".to_string(), false);
    g.link(a, x);
    g.link(a, x);
    g.link(a, m);
    g.link(m, a);
    let v = wikigraph_model::analysis::node_labels_and_degrees(&g);
    assert_eq!(
        v,
        vec![
            ("/a".to_string(), 2, 1, 0),
            ("https://x".to_string(), 0, 1, 1),
            ("/m".to_string(), 1, 1, 2),
        ]
    );
}

#[test]
fn checked_constructors_accept_ordinary_graphs() {

    let ag = AnalysisGraph::new(&sample());
    assert!(check_graph_fits(ag.graph()));
    let scc = Scc::checked_new(ag.graph()).unwrap();
    assert!(scc.are_shared(0, 2));
    assert!(!scc.are_shared(0, 3));
    let cc = ConnectedComponents::checked_new(ag.graph()).unwrap();
    let (big, _) = cc.find(0);
    assert_eq!(big.node_count(), 5);
}
