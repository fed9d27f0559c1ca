use cyclegraph::cycle::Cycle;
use cyclegraph::graph::Graph;

fn empty() -> Graph {
    Graph::new(Vec::new())
}

#[test]
fn found_cycle_passes_check() {
    let mut g = empty();
    assert!(g.connect(1, 2));
    assert!(g.connect(2, 3));
    assert!(g.connect(3, 1));
    let cycle = g.find_cycle().expect("graph has a cycle");
    assert!(g.check_cycle(&cycle));
}

#[test]
fn canonical_rotations_equal() {
    let a = Cycle::new(vec![1, 2, 3]).unwrap();
    let b = Cycle::new(vec![2, 3, 1]).unwrap();
    let c = Cycle::new(vec![3, 1, 2]).unwrap();
    assert!(a == b);
    assert!(b == c);
    assert_eq!(a.slice(), &[1, 2, 3]);
    let d = Cycle::new(vec![9, 5, 7]).unwrap();
    assert_eq!(d.slice(), &[5, 7, 9]);
    let e = Cycle::new(vec![5, 7, 9]).unwrap();
    assert!(d == e);
}

#[test]
fn construction_rules() {
    assert!(Cycle::new(vec![]).is_none());
    assert!(Cycle::new(vec![5]).is_none());
    assert!(Cycle::new(vec![7, 7]).is_none());
    assert!(Cycle::new(vec![1, 2, 2]).is_none());
    let c = Cycle::new(vec![2, 1]).unwrap();
    assert_eq!(c.len(), 2);
    assert_eq!(c.slice(), &[1, 2]);
}

#[test]
fn connect_rejects_self_loop() {
    let mut g = empty();
    assert!(!g.connect(4, 4));
    assert!(g.from(4).is_none());
}

#[test]
fn connect_creates_both_nodes_and_is_idempotent() {
    let mut g = empty();
    assert!(g.connect(1, 2));
    assert!(g.connect(1, 2));
    assert_eq!(g.from(1), Some(vec![2]));
    assert_eq!(g.from(2), Some(vec![]));
}

#[test]
fn disconnect_removes_edge_only() {
    let mut g = empty();
    g.connect(1, 2);
    g.disconnect(1, 2);
    assert_eq!(g.from(1), Some(vec![]));
    assert_eq!(g.from(2), Some(vec![]));
    g.disconnect(9, 2);
    assert!(g.from(9).is_none());
}

#[test]
fn cleanup_removes_true_isolates() {
    let mut g = empty();
    g.connect(1, 2);
    g.connect(5, 6);
    g.disconnect(5, 6);
    g.cleanup();
    assert!(g.from(5).is_none());
    assert!(g.from(6).is_none());
    assert_eq!(g.from(1), Some(vec![2]));
    assert_eq!(g.from(2), Some(vec![]));
}

#[test]
fn predecessors_scan() {
    let mut g = empty();
    g.connect(1, 3);
    g.connect(2, 3);
    assert_eq!(g.to(3), vec![1, 2]);
    assert_eq!(g.to(1), Vec::<u32>::new());
}

#[test]
fn three_cycle_discovery_and_simplify() {
    let mut g = empty();
    g.connect(1, 2);
    g.connect(2, 3);
    g.connect(3, 1);
    let cycle = g.find_cycle().expect("three-cycle present");
    let expected = Cycle::new(vec![1, 2, 3]).unwrap();
    assert!(cycle == expected);
    assert_eq!(g.simplify(), 3);
    assert!(g.find_cycle().is_none());
    assert_eq!(g.simplify(), 0);
    // the surviving node loses all edges and is reclaimed by the final cleanup
    assert!(g.from(1).is_none());
}

#[test]
fn acyclic_chain_ends() {
    let mut g = empty();
    g.connect(1, 2);
    g.connect(2, 3);
    assert!(g.find_cycle().is_none());
    let (sources, sinks) = g.find_ends();
    assert_eq!(sources, vec![1]);
    assert_eq!(sinks, vec![3]);
}

#[test]
fn isolated_node_is_source_and_sink() {
    let mut g = empty();
    g.connect(1, 2);
    g.connect(7, 8);
    g.disconnect(7, 8);
    let (sources, sinks) = g.find_ends();
    assert_eq!(sources, vec![1, 7, 8]);
    assert_eq!(sinks, vec![2, 7, 8]);
}

#[test]
fn subgraph_induces_edges() {
    let mut g = empty();
    g.connect(1, 2);
    g.connect(2, 3);
    let sub = g.subgraph(&[1, 2]);
    assert_eq!(sub.from(1), Some(vec![2]));
    assert_eq!(sub.from(2), Some(vec![]));
    assert!(sub.from(3).is_none());
}

#[test]
fn subgraph_of_nothing_is_empty() {
    let mut g = empty();
    g.connect(1, 2);
    let sub = g.subgraph(&[]);
    assert!(sub.from(1).is_none());
    assert!(sub.from(2).is_none());
}

#[test]
fn collapse_pair_merges_connections() {
    let mut g = empty();
    g.connect(1, 2);
    g.connect(2, 3);
    g.connect(2, 4);
    g.connect(5, 2);
    assert!(g.collapse_pair(1, 2));
    assert!(g.from(2).is_none());
    assert_eq!(g.from(1), Some(vec![3, 4]));
    assert_eq!(g.from(5), Some(vec![1]));
    assert_eq!(g.to(1), vec![5]);
}

#[test]
fn collapse_pair_rejections() {
    let mut g = empty();
    g.connect(1, 2);
    g.connect(3, 4);
    assert!(!g.collapse_pair(1, 1));
    assert!(!g.collapse_pair(1, 9));
    assert!(!g.collapse_pair(9, 1));
    assert!(!g.collapse_pair(1, 3));
    assert_eq!(g.from(1), Some(vec![2]));
    assert_eq!(g.from(3), Some(vec![4]));
}

#[test]
fn collapse_cycle_absorbs_rest() {
    let mut g = empty();
    g.connect(1, 2);
    g.connect(2, 3);
    g.connect(3, 1);
    let cycle = Cycle::new(vec![2, 3, 1]).unwrap();
    assert!(g.collapse_cycle(&cycle));
    assert!(g.from(2).is_none());
    assert!(g.from(3).is_none());
    assert_eq!(g.from(1), Some(vec![]));
}

#[test]
fn collapse_cycle_rejects_missing_edges() {
    let mut g = empty();
    g.connect(1, 2);
    g.connect(2, 3);
    let cycle = Cycle::new(vec![1, 2, 3]).unwrap();
    assert!(!g.collapse_cycle(&cycle));
    assert_eq!(g.from(1), Some(vec![2]));
}

#[test]
fn simplify_two_disjoint_cycles() {
    let mut g = empty();
    g.connect(1, 2);
    g.connect(2, 1);
    g.connect(3, 4);
    g.connect(4, 3);
    assert_eq!(g.simplify(), 4);
    assert!(g.find_cycle().is_none());
    assert_eq!(g.simplify(), 0);
}

#[test]
fn simplified_keeps_acyclic_graph() {
    let mut g = empty();
    g.connect(1, 2);
    g.connect(2, 3);
    let s = g.simplified();
    assert_eq!(s.from(1), Some(vec![2]));
    assert_eq!(s.from(2), Some(vec![3]));
    assert_eq!(s.from(3), Some(vec![]));
}

#[test]
fn needed_to_connect_two_chains() {
    let mut g = empty();
    g.connect(1, 2);
    g.connect(3, 4);
    let r = g.needed_to_connect();
    // sinks [2, 4] then sources [1, 3], chained 2 -> 4 -> 1 -> 3
    assert_eq!(r.from(2), Some(vec![4]));
    assert_eq!(r.from(4), Some(vec![1]));
    assert_eq!(r.from(1), Some(vec![2, 3]));
    assert_eq!(r.from(3), Some(vec![4]));
    // the source graph is untouched
    assert_eq!(g.from(1), Some(vec![2]));
    assert_eq!(g.from(2), Some(vec![]));
}

#[test]
fn graph_construction_from_adjacency() {
    let g = Graph::new(vec![(1, vec![2]), (2, vec![])]);
    assert_eq!(g.from(1), Some(vec![2]));
    assert_eq!(g.from(2), Some(vec![]));
    assert!(g.from(3).is_none());
}

#[test]
fn cycle_rendering() {
    let c = Cycle::new(vec![2, 3, 1]).unwrap();
    assert_eq!(c.render(), "Cycle(1 => 2 => 3)");
    let d = Cycle::new(vec![305, 10]).unwrap();
    assert_eq!(d.render(), "Cycle(10 => 305)");
}

#[test]
fn graph_rendering() {
    let mut g = empty();
    g.connect(1, 2);
    assert_eq!(g.render(), "Graph { 1 => 2; 2 => ; }");
    g.connect(1, 3);
    assert_eq!(g.render(), "Graph { 1 => 2, 3; 2 => ; 3 => ; }");
    assert_eq!(empty().render(), "Graph { }");
}

#[test]
fn graph_rendering_expanded() {
    let mut g = Graph::new(Vec::new());
    g.connect(1, 2);
    g.connect(1, 3);
    assert_eq!(g.render_pretty(), "Graph {\n    1 => 2, 3;\n    2 => ;\n    3 => ;\n}");
}
