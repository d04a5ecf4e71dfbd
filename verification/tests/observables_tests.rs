use fixedbitset::FixedBitSet;
use hcsn_rust::engine::{ConservationMode, DefectLogEntry, EmergenceMode, Persistence};
use hcsn_rust::hypergraph::Hypergraph;
use hcsn_rust::interaction::{pair_key, process_edge, update_interaction_graph_delta};
use hcsn_rust::observables::{
    causal_interval_size, compute_coherence_raw, count_triangles, label_frustration,
    large_interval_sizes, neighbour_links,
};
use hcsn_rust::rules::UndoRecord;
use std::collections::{HashMap, HashSet};

fn chain(n: usize) -> (Hypergraph, Vec<u64>) {
    let mut h = Hypergraph::new();
    let ids: Vec<u64> = (0..n).map(|_| h.add_vertex().id).collect();
    for w in ids.windows(2) {
        h.add_causal_relation(w[0], w[1]);
    }
    (h, ids)
}

#[test]
fn interval_of_a_chain() {
    let (h, ids) = chain(4);
    assert_eq!(causal_interval_size(&h, ids[0], ids[3]), 4);
    assert_eq!(causal_interval_size(&h, ids[1], ids[2]), 2);
    assert_eq!(causal_interval_size(&h, ids[3], ids[0]), 0);
    assert_eq!(causal_interval_size(&h, 77, ids[0]), 0);
}

#[test]
fn interval_samples_need_two_vertices() {
    let (h, _) = chain(1);
    assert!(large_interval_sizes(&h, 10, 0).is_empty());
    let (h2, _) = chain(3);
    let s = large_interval_sizes(&h2, 50, 2);
    assert!(s.len() <= 50);
    assert!(s.iter().all(|&x| x >= 2 && x <= 3));
}

#[test]
fn frustration_counts_mixed_edges() {
    let mut h = Hypergraph::new();
    let a = h.add_vertex().id;
    let b = h.add_vertex().id;
    let c = h.add_vertex().id;
    h.vertices.get_mut(&a).unwrap().label = 1;
    h.vertices.get_mut(&b).unwrap().label = 1;
    h.vertices.get_mut(&c).unwrap().label = -1;
    h.add_hyperedge(vec![a, b]);
    h.add_hyperedge(vec![a, c]);
    h.add_hyperedge(vec![b, c, 40]);
    h.add_hyperedge(vec![a, 40]);
    assert_eq!(label_frustration(&h), 2);
}

#[test]
fn coherence_of_a_triangle_and_a_tail() {
    let mut h = Hypergraph::new();
    let a = h.add_vertex().id;
    let b = h.add_vertex().id;
    let c = h.add_vertex().id;
    let d = h.add_vertex().id;
    h.add_hyperedge(vec![a, b, c]);
    h.add_hyperedge(vec![c, d]);
    let n: HashSet<u64> = [a, b, c].into_iter().collect();
    assert_eq!(compute_coherence_raw(&n, &h), (3, 1));
}

#[test]
fn neighbour_links_of_a_shared_edge() {
    let mut h = Hypergraph::new();
    let a = h.add_vertex().id;
    let b = h.add_vertex().id;
    let c = h.add_vertex().id;
    let d = h.add_vertex().id;
    h.add_hyperedge(vec![a, b, c]);
    h.add_hyperedge(vec![a, d]);
    assert_eq!(neighbour_links(&h, a), (3, 1));
    assert_eq!(neighbour_links(&h, d), (1, 0));
}

fn graph(edges: &[(u64, u64)]) -> HashMap<u64, FixedBitSet> {
    let mut m: HashMap<u64, FixedBitSet> = HashMap::new();
    for &(u, v) in edges {
        for (x, y) in [(u, v), (v, u)] {
            let bs = m.entry(x).or_insert_with(|| FixedBitSet::with_capacity(16));
            bs.insert(y as usize);
        }
    }
    m
}

#[test]
fn triangles_of_a_square_with_diagonal() {
    let g = graph(&[(1, 2), (2, 3), (3, 4), (4, 1), (1, 3)]);
    assert_eq!(count_triangles(&g), 2);
    let k4 = graph(&[(1, 2), (1, 3), (1, 4), (2, 3), (2, 4), (3, 4)]);
    assert_eq!(count_triangles(&k4), 4);
    assert_eq!(count_triangles(&HashMap::new()), 0);
}

#[test]
fn pair_key_is_symmetric() {
    assert_eq!(pair_key(3, 5), pair_key(5, 3));
    assert_eq!(pair_key(3, 5), (3u128 << 64) + 5);
    assert_ne!(pair_key(3, 5), pair_key(3, 6));
}

#[test]
fn processing_an_edge_counts_and_links() {
    let (h, ids) = chain(3);
    let mut inter: HashMap<u64, FixedBitSet> = HashMap::new();
    let mut counts: HashMap<u128, u16> = HashMap::new();
    let vs = vec![ids[0], ids[1], 99];
    process_edge(&h, &mut inter, &mut counts, &vs, true, 0, 1024);
    assert_eq!(counts[&pair_key(ids[0], ids[1])], 2);
    assert!(inter[&ids[0]].contains(ids[1] as usize));
    assert!(inter[&ids[1]].contains(ids[0] as usize));
    // no vertex lists itself
    assert!(!inter[&ids[0]].contains(ids[0] as usize));
    assert!(!inter[&ids[1]].contains(ids[1] as usize));
    process_edge(&h, &mut inter, &mut counts, &vs, false, 0, 1024);
    assert_eq!(counts[&pair_key(ids[0], ids[1])], 0);
    assert!(!inter[&ids[0]].contains(ids[1] as usize));
    process_edge(&h, &mut inter, &mut counts, &vs, false, 0, 1024);
    assert_eq!(counts[&pair_key(ids[0], ids[1])], 0);
}

#[test]
fn delta_applies_added_edges() {
    let (mut h, ids) = chain(3);
    let e = h.add_hyperedge(vec![ids[0], ids[2]]);
    let mut rec = UndoRecord::default();
    rec.added_edges.push(e.id);
    let mut inter: HashMap<u64, FixedBitSet> = HashMap::new();
    let mut counts: HashMap<u128, u16> = HashMap::new();
    update_interaction_graph_delta(&h, &mut inter, &mut counts, &rec, true);
    assert_eq!(counts[&pair_key(ids[0], ids[2])], 2);
    assert!(inter[&ids[2]].contains(ids[0] as usize));
    assert!(!inter[&ids[2]].contains(ids[2] as usize));
    assert!(!inter[&ids[0]].contains(ids[0] as usize));
    update_interaction_graph_delta(&h, &mut inter, &mut counts, &rec, false);
    assert_eq!(counts[&pair_key(ids[0], ids[2])], 0);
    assert!(!inter[&ids[2]].contains(ids[0] as usize));
}

#[test]
fn header_lists_the_columns() {
    let line = Persistence::write_header();
    assert_eq!(
        line,
        "pre_px,pre_py,post_px,post_py,pre_p_mag,post_p_mag,pre_mass,post_mass,pre_s_sum,post_s_sum,pre_s_mean,post_s_mean,chi,duration,stability_bin,pre_E_total,post_E_total"
    );
    assert_eq!(line.split(',').count(), 17);
}

#[test]
fn engine_records_are_plain() {
    let d = DefectLogEntry { time: 4 };
    assert_eq!(d, DefectLogEntry { time: 4 });
    assert_ne!(ConservationMode::Hybrid, ConservationMode::Baseline);
    assert_eq!(EmergenceMode::Assisted, EmergenceMode::Assisted);
}

#[test]
fn every_draw_counts_when_all_pairs_are_related() {
    let mut h = Hypergraph::new();
    let a = h.add_vertex().id;
    let b = h.add_vertex().id;
    h.add_causal_relation(a, b);
    h.add_causal_relation(b, a);
    assert!(h.is_causally_related(a, b) && h.is_causally_related(b, a));
    let s = large_interval_sizes(&h, 20, 0);
    assert_eq!(s.len(), 20);
    // with a bound above every interval no draw is kept
    assert!(large_interval_sizes(&h, 20, 3).is_empty());
}
