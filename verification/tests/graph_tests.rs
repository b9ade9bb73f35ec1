use conservation_spectral_v2::graph::{FixedGraph, Graph, GraphBuilder, GraphBuilt};

fn attribute<'a>(g: &'a Graph<f64>, name: &str) -> Option<&'a [f64]> {
    g.attributes.iter().find(|(k, _)| k == name).map(|(_, v)| v.as_slice())
}

#[test]
fn new_graph_has_no_edges() {
    let g: Graph<f64> = Graph::new(4);
    assert_eq!(g.n, 4);
    assert_eq!(g.offsets, vec![0; 5]);
    assert_eq!(g.edge_count(), 0);
    for i in 0..4 {
        assert_eq!(g.degree(i), 0);
        let (nb, w) = g.neighbors(i);
        assert!(nb.is_empty() && w.is_empty());
    }
    assert!(g.transitions().is_empty());
}

#[test]
fn from_edges_groups_by_source_keeping_order() {
    let edges = [(2, 0, 0.5), (0, 1, 1.0), (2, 1, 0.25), (0, 2, 2.0), (1, 0, 3.0)];
    let g = Graph::from_edges(3, &edges);
    assert_eq!(g.offsets, vec![0, 2, 3, 5]);
    assert_eq!(g.neighbors, vec![1, 2, 0, 0, 1]);
    assert_eq!(g.weights, vec![1.0, 2.0, 3.0, 0.5, 0.25]);
    assert_eq!(g.edge_count(), 5);
    assert_eq!(g.degree(0), 2);
    assert_eq!(g.degree(1), 1);
    assert_eq!(g.degree(2), 2);
    let (nb, w) = g.neighbors(2);
    assert_eq!(nb, &[0, 1]);
    assert_eq!(w, &[0.5, 0.25]);
}

#[test]
fn from_edges_vertex_without_edges() {
    let edges = [(0, 3, 1.0), (3, 0, 1.0)];
    let g = Graph::from_edges(4, &edges);
    assert_eq!(g.offsets, vec![0, 1, 1, 1, 2]);
    assert_eq!(g.degree(1), 0);
    assert_eq!(g.degree(2), 0);
    assert_eq!(g.neighbors(3).0, &[0]);
}

#[test]
fn from_edges_source_equal_to_n_follows_last_run() {
    let edges = [(2, 0, 9.0), (0, 1, 1.0)];
    let g = Graph::from_edges(2, &edges);
    assert_eq!(g.offsets, vec![0, 1, 1]);
    assert_eq!(g.neighbors, vec![1, 0]);
    assert_eq!(g.weights, vec![1.0, 9.0]);
    assert_eq!(g.edge_count(), 2);
}

#[test]
fn from_edges_empty() {
    let edges: [(usize, usize, f64); 0] = [];
    let g = Graph::from_edges(3, &edges);
    assert_eq!(g.offsets, vec![0, 0, 0, 0]);
    assert_eq!(g.edge_count(), 0);
}

fn positive(t: &[f64]) -> Vec<bool> {
    t.iter().map(|w| *w > 0.0).collect()
}

#[test]
fn from_transitions_keeps_positive_entries() {
    let t = vec![0.0, 0.5, 0.5, 1.0, 0.0, 0.0, 0.2, -0.3, 0.8];
    let g = Graph::from_transitions(3, &t, &positive(&t));
    assert_eq!(g.offsets, vec![0, 2, 3, 5]);
    assert_eq!(g.neighbors, vec![1, 2, 0, 0, 2]);
    assert_eq!(g.weights, vec![0.5, 0.5, 1.0, 0.2, 0.8]);
    assert_eq!(g.transitions(), t.as_slice());
}

#[test]
fn add_attribute_inserts_and_replaces() {
    let mut g: Graph<f64> = Graph::new(2);
    g.add_attribute("temp", vec![1.0, 2.0]);
    g.add_attribute("load", vec![3.0, 4.0]);
    assert_eq!(attribute(&g, "temp"), Some(&[1.0, 2.0][..]));
    g.add_attribute("temp", vec![5.0, 6.0]);
    assert_eq!(attribute(&g, "temp"), Some(&[5.0, 6.0][..]));
    assert_eq!(attribute(&g, "load"), Some(&[3.0, 4.0][..]));
    assert_eq!(g.attributes.len(), 2);
    assert_eq!(attribute(&g, "missing"), None);
}

#[test]
fn builder_with_edges_and_attributes() {
    let (g, _built) = GraphBuilder::new(3)
        .edge(1, 2, 0.5)
        .edges(&[(0, 1, 1.0), (1, 0, 2.0)])
        .attribute("a", vec![1.0, 2.0, 3.0])
        .attribute("b", vec![0.0, 0.0, 0.0])
        .attribute("a", vec![7.0, 8.0, 9.0])
        .build();
    assert_eq!(g.n, 3);
    assert_eq!(g.offsets, vec![0, 1, 3, 3]);
    assert_eq!(g.neighbors, vec![1, 2, 0]);
    assert_eq!(g.weights, vec![1.0, 0.5, 2.0]);
    assert_eq!(attribute(&g, "a"), Some(&[7.0, 8.0, 9.0][..]));
    assert_eq!(attribute(&g, "b"), Some(&[0.0, 0.0, 0.0][..]));
    assert_eq!(g.attributes.len(), 2);
    assert!(g.transitions().is_empty());
}

#[test]
fn builder_transitions_take_precedence_over_edges() {
    let t = vec![0.0, 1.0, 0.5, 0.0];
    let (g, _built) = GraphBuilder::new(2)
        .edge(0, 0, 9.0)
        .transitions(&t, &positive(&t))
        .build();
    assert_eq!(g.neighbors, vec![1, 0]);
    assert_eq!(g.weights, vec![1.0, 0.5]);
    assert_eq!(g.transitions(), t.as_slice());
}

#[test]
fn graph_built_marker() {
    let _m: GraphBuilt = GraphBuilt::mark();
}

#[test]
fn fixed_graph_adjacency_bits() {
    let mut g: FixedGraph<f64, 4> = FixedGraph::new();
    assert_eq!(g.adjacency_bits, vec![0; 4]);
    assert!(g.weights.iter().all(|row| row.iter().all(|w| *w == 0.0)));
    g.add_edge(1, 3, 0.5);
    g.add_edge(1, 0, 2.0);
    g.add_edge(2, 2, 1.0);
    assert_eq!(g.adjacency_bits, vec![0, 0b1001, 0b100, 0]);
    assert_eq!(g.weights[1][3], 0.5);
    assert_eq!(g.weights[1][0], 2.0);
    assert_eq!(g.adjacent(1), vec![0, 3]);
    assert_eq!(g.adjacent(2), vec![2]);
    assert_eq!(g.adjacent(0), Vec::<usize>::new());
    assert!(g.layout_ok());
}

#[test]
fn fixed_graph_large_uses_several_words_per_row() {
    let mut g: FixedGraph<f64, 70> = FixedGraph::new();
    assert_eq!(g.adjacency_bits.len(), 140);
    g.add_edge(65, 1, 1.5);
    g.add_edge(1, 66, 2.5);
    g.add_edge(1, 63, 3.5);
    g.add_edge(69, 69, 4.5);
    assert_eq!(g.adjacency_bits[130], 1 << 1);
    assert_eq!(g.adjacency_bits[3], 1 << 2);
    assert_eq!(g.adjacency_bits[2], 1u64 << 63);
    assert_eq!(g.weights[65][1], 1.5);
    assert_eq!(g.weights[1][66], 2.5);
    assert_eq!(g.adjacent(1), vec![63, 66]);
    assert_eq!(g.adjacent(65), vec![1]);
    assert_eq!(g.adjacent(69), vec![69]);
    assert!(g.layout_ok());
}

#[test]
fn fixed_graph_edge_to_vertex_64_is_recorded() {
    let mut g: FixedGraph<f64, 65> = FixedGraph::new();
    g.add_edge(0, 64, 1.0);
    assert_eq!(g.adjacent(0), vec![64]);
    assert_eq!(g.adjacent(64), Vec::<usize>::new());
}

#[test]
fn fixed_graph_layout_check() {
    let mut g: FixedGraph<f64, 3> = FixedGraph::new();
    assert!(g.layout_ok());
    g.adjacency_bits.push(0);
    assert!(!g.layout_ok());
}

#[test]
fn layout_check_detects_broken_offsets() {
    let mut g = Graph::from_edges(2, &[(0, 1, 1.0), (1, 0, 2.0)]);
    assert!(g.layout_ok());
    g.offsets[1] = 2;
    g.offsets[2] = 1;
    assert!(!g.layout_ok());
    let mut h: Graph<f64> = Graph::new(2);
    h.attributes.push(("x".to_string(), conservation_spectral_v2::AlignedVec::from_vec(vec![0.0, 0.0])));
    assert!(h.layout_ok());
    h.attributes.push(("x".to_string(), conservation_spectral_v2::AlignedVec::from_vec(vec![1.0, 1.0])));
    assert!(!h.layout_ok());
}

#[test]
fn builder_reports_vertex_count() {
    let b: GraphBuilder<f64> = GraphBuilder::new(7);
    assert_eq!(b.vertices(), 7);
    assert_eq!(b.edge(1, 2, 0.5).vertices(), 7);
}
