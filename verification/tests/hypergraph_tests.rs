use hcsn_rust::hypergraph::{Hyperedge, Hypergraph, Vertex};
use hcsn_rust::listops::keep_last;

fn two_linked() -> (Hypergraph, u64, u64) {
    let mut h = Hypergraph::new();
    let a = h.add_vertex().id;
    let b = h.add_vertex().id;
    h.add_causal_relation(a, b);
    h.add_hyperedge(vec![a, b]);
    (h, a, b)
}

#[test]
fn vertex_new_is_fresh() {
    let v = Vertex::new(7);
    assert_eq!(v.id, 7);
    assert_eq!(v.depth, 1);
    assert!(v.label == 1 || v.label == -1);
    assert!(v.parents.is_empty());
    assert!(v.children.is_empty());
}

#[test]
fn hyperedge_new_keeps_vertices() {
    let e = Hyperedge::new(3, vec![1, 2, 5]);
    assert_eq!(e.id, 3);
    assert_eq!(e.vertices, vec![1, 2, 5]);
}

#[test]
fn add_vertex_counts_up() {
    let mut h = Hypergraph::new();
    let a = h.add_vertex();
    let b = h.add_vertex();
    assert_eq!(a.id, 0);
    assert_eq!(b.id, 1);
    assert_eq!(h.max_vertex_id(), 2);
    assert_eq!(h.causal_future(a.id), vec![0]);
    assert_eq!(h.causal_past(b.id), vec![1]);
}

#[test]
fn causal_relation_links_and_deepens() {
    let (h, a, b) = two_linked();
    assert!(h.is_causally_related(a, b));
    assert!(!h.is_causally_related(b, a));
    assert_eq!(h.vertices[&b].depth, 2);
    assert_eq!(h.vertices[&a].children, vec![b]);
    assert_eq!(h.vertices[&b].parents, vec![a]);
    let mut past_b = h.causal_past(b);
    past_b.sort();
    assert_eq!(past_b, vec![a, b]);
}

#[test]
fn causal_relation_is_transitive() {
    let mut h = Hypergraph::new();
    let a = h.add_vertex().id;
    let b = h.add_vertex().id;
    let c = h.add_vertex().id;
    h.add_causal_relation(a, b);
    h.add_causal_relation(b, c);
    assert!(h.is_causally_related(a, c));
    let mut fut_a = h.causal_future(a);
    fut_a.sort();
    assert_eq!(fut_a, vec![a, b, c]);
}

#[test]
fn hyperedge_add_then_remove_restores() {
    let (mut h, a, b) = two_linked();
    let before_edges = h.hyperedges.len();
    let before_active = h.active_edge_ids.clone();
    let before_total = h.total_interactions;
    let c = h.add_vertex().id;
    let e = h.add_hyperedge(vec![a, b, c]);
    assert_eq!(h.total_interactions, before_total + 2);
    assert_eq!(h.coordination_number(c), 1);
    let r = h.remove_hyperedge(e.id).unwrap();
    assert_eq!(r.vertices, vec![a, b, c]);
    assert_eq!(h.hyperedges.len(), before_edges);
    assert_eq!(h.active_edge_ids, before_active);
    assert_eq!(h.total_interactions, before_total);
    assert_eq!(h.edges_containing(c), Vec::<u64>::new());
    assert!(h.remove_hyperedge(e.id).is_none());
}

#[test]
fn structural_neighbours_follow_hyperedges() {
    let (mut h, a, b) = two_linked();
    let c = h.add_vertex().id;
    h.add_hyperedge(vec![b, c]);
    let n = h.structural_neighbors(b);
    assert!(n.contains(&a) && n.contains(&c) && n.len() == 2);
    assert!(h.is_structurally_interacting(a, b));
    assert!(!h.is_structurally_interacting(a, c));
    let bs = h.structural_neighbors_bitset(&b).unwrap();
    assert!(bs.contains(a as usize) && bs.contains(c as usize));
    assert_eq!(bs.count_ones(..), 2);
    let lonely = h.add_vertex().id;
    assert!(h.structural_neighbors_bitset(&lonely).is_none());
}

#[test]
fn remove_vertex_scrubs_causal_sets() {
    let (mut h, a, b) = two_linked();
    let v = h.remove_vertex(b).unwrap();
    assert_eq!(v.id, b);
    assert!(!h.is_causally_related(a, b));
    assert!(h.causal_future_bitset(b).is_none());
    assert!(h.remove_vertex(b).is_none());
}

#[test]
fn merge_takes_in_the_removed_history() {
    let mut h = Hypergraph::new();
    let a = h.add_vertex().id;
    let b = h.add_vertex().id;
    let c = h.add_vertex().id;
    h.add_causal_relation(b, c);
    h.merge_causal_identity(a, b);
    assert!(h.is_causally_related(a, c));
}

#[test]
fn chain_length_is_the_longest_worldline() {
    assert_eq!(Hypergraph::new().max_chain_length(), 1);
    let (h, _, _) = two_linked();
    assert_eq!(h.max_chain_length(), 2);
    let mut g = Hypergraph::new();
    let v1 = g.add_vertex().id;
    let v2 = g.add_vertex().id;
    let v3 = g.add_vertex().id;
    g.add_causal_relation(v1, v2);
    g.add_causal_relation(v2, v3);
    assert_eq!(g.max_chain_length(), 3);
    assert_eq!(g.max_depth, 3);
}

#[test]
fn keep_last_drops_the_oldest() {
    let mut v = vec![1, 2, 3, 4, 5];
    keep_last(&mut v, 3);
    assert_eq!(v, vec![3, 4, 5]);
    keep_last(&mut v, 10);
    assert_eq!(v, vec![3, 4, 5]);
    keep_last(&mut v, 0);
    assert!(v.is_empty());
}

#[test]
fn linking_a_chain_closes_it_transitively() {
    let mut h = Hypergraph::new();
    let v1 = h.add_vertex().id;
    let v2 = h.add_vertex().id;
    let v3 = h.add_vertex().id;
    h.add_causal_relation(v1, v2);
    h.add_causal_relation(v2, v3);
    assert!(h.is_causally_related(v1, v3));
    assert!(!h.is_causally_related(v3, v1));
    assert_eq!(h.vertices[&v3].depth, 3);
    assert_eq!(h.vertices[&v2].parents, vec![v1]);
    assert_eq!(h.vertices[&v2].children, vec![v3]);
    assert_eq!(h.causal_past(v3), vec![v1, v2, v3]);
    assert_eq!(h.causal_future(v1), vec![v1, v2, v3]);
}

#[test]
fn closure_reaches_past_any_depth() {
    let mut h = Hypergraph::new();
    let ids: Vec<u64> = (0..12).map(|_| h.add_vertex().id).collect();
    for w in ids.windows(2) {
        h.add_causal_relation(w[0], w[1]);
    }
    assert!(h.is_causally_related(ids[0], ids[11]));
    assert_eq!(h.causal_past(ids[11]), ids);
    assert_eq!(h.max_chain_length(), 12);
}

#[test]
fn coordination_total_sums_edge_lists() {
    assert_eq!(Hypergraph::new().total_coordination(), 0);
    let mut h = Hypergraph::new();
    let a = h.add_vertex().id;
    let b = h.add_vertex().id;
    let c = h.add_vertex().id;
    h.add_hyperedge(vec![a, b]);
    h.add_hyperedge(vec![a, b, c]);
    assert_eq!(h.total_coordination(), 5);
}
