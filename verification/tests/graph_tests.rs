use fixedbitset::FixedBitSet;
use hcsn_rust::clusters::{group_by_label, topo_clusters, xi_clusters};
use hcsn_rust::graph::{
    degree_stats, graph_distance, nearest_distance, neighbour_closure, pick_probe, reachable_within,
    closed_motif_links, select_probe, ProbePick,
};
use rand::SeedableRng;
use hcsn_rust::hypergraph::{Hypergraph, Vertex};
use hcsn_rust::interaction::{initial_interaction_counts, pair_key, worldline_interaction_graph};
use hcsn_rust::knots::{best_match, knot_contacts, merge_seed_regions};
use hcsn_rust::radius::region_distance_totals;
use hcsn_rust::shapes::shape_overlap;
use hcsn_rust::rules::{touched_vertices, UndoRecord};
use std::collections::{HashMap, HashSet};

fn bits(ids: &[usize]) -> FixedBitSet {
    let mut b = FixedBitSet::with_capacity(1024);
    for &i in ids {
        b.insert(i);
    }
    b
}

/// An undirected graph given by its edges.
fn graph(edges: &[(u64, u64)]) -> HashMap<u64, FixedBitSet> {
    let mut m: HashMap<u64, FixedBitSet> = HashMap::new();
    for &(a, b) in edges {
        m.entry(a).or_insert_with(|| FixedBitSet::with_capacity(1024)).insert(b as usize);
        m.entry(b).or_insert_with(|| FixedBitSet::with_capacity(1024)).insert(a as usize);
    }
    m
}

fn set(ids: &[u64]) -> HashSet<u64> {
    ids.iter().cloned().collect()
}

#[test]
fn distance_along_a_path() {
    let g = graph(&[(1, 2), (2, 3), (3, 4)]);
    assert_eq!(graph_distance(&g, 1, &set(&[4]), 10), 3);
    assert_eq!(graph_distance(&g, 1, &set(&[1, 4]), 10), 0);
    assert_eq!(graph_distance(&g, 1, &set(&[3, 4]), 10), 2);
    assert_eq!(graph_distance(&g, 1, &set(&[4]), 2), usize::MAX);
    assert_eq!(graph_distance(&g, 1, &set(&[9]), 10), usize::MAX);
}

#[test]
fn nearest_distance_takes_the_best_probe() {
    let g = graph(&[(1, 2), (2, 3), (3, 4), (4, 5)]);
    assert_eq!(nearest_distance(&g, &vec![1, 3], &set(&[5]), 10), 2);
    assert_eq!(nearest_distance(&g, &vec![1], &set(&[5]), 3), usize::MAX);
    assert_eq!(nearest_distance(&g, &vec![], &set(&[5]), 3), usize::MAX);
}

#[test]
fn nearest_distance_probes_at_most_twenty_five() {
    // the 26th source sits next to the target, but is never probed
    let mut edges: Vec<(u64, u64)> = (0..25).map(|i| (100 + i, 200 + i)).collect();
    edges.push((300, 400));
    let g = graph(&edges);
    let mut sources: Vec<u64> = (0..25).map(|i| 100 + i).collect();
    sources.push(300);
    assert_eq!(nearest_distance(&g, &sources, &set(&[400]), 10), usize::MAX);
    sources.insert(0, 300);
    assert_eq!(nearest_distance(&g, &sources, &set(&[400]), 10), 1);
}

#[test]
fn reachable_within_bounds_the_depth() {
    let g = graph(&[(1, 2), (2, 3), (3, 4), (10, 11)]);
    assert_eq!(reachable_within(&g, &set(&[1]), 0), set(&[1]));
    assert_eq!(reachable_within(&g, &set(&[1]), 2), set(&[1, 2, 3]));
    assert_eq!(reachable_within(&g, &set(&[1, 10]), 1), set(&[1, 2, 10, 11]));
    assert_eq!(reachable_within(&g, &set(&[4]), 100), set(&[1, 2, 3, 4]));
    assert_eq!(reachable_within(&g, &set(&[]), 5), set(&[]));
}

#[test]
fn closed_motifs_need_a_triangle() {
    // a path 1 - 2 - 3: no interaction of 2 closes a triangle
    let path = graph(&[(1, 2), (2, 3)]);
    assert_eq!(closed_motif_links(&path, 2), Some((0, 2)));
    assert_eq!(closed_motif_links(&path, 9), None);
    // a triangle 1 - 2 - 3 with a pendant 4 on 1
    let g = graph(&[(1, 2), (2, 3), (1, 3), (1, 4)]);
    assert_eq!(closed_motif_links(&g, 1), Some((2, 3)));
    assert_eq!(closed_motif_links(&g, 2), Some((2, 2)));
    assert_eq!(closed_motif_links(&g, 4), Some((0, 1)));
    let mut lone: HashMap<u64, FixedBitSet> = HashMap::new();
    lone.insert(5, bits(&[]));
    assert_eq!(closed_motif_links(&lone, 5), Some((0, 0)));
}

#[test]
fn topo_clusters_are_components() {
    let g = graph(&[(1, 2), (2, 3), (7, 8)]);
    let c = topo_clusters(&g);
    assert_eq!(c.len(), 5);
    assert_eq!(c[&1], c[&2]);
    assert_eq!(c[&2], c[&3]);
    assert_eq!(c[&7], c[&8]);
    assert_ne!(c[&1], c[&7]);
    let ids: HashSet<usize> = c.values().cloned().collect();
    assert_eq!(ids, [0usize, 1].iter().cloned().collect());
}

#[test]
fn topo_clusters_reach_neighbours_without_entries() {
    let mut g: HashMap<u64, FixedBitSet> = HashMap::new();
    g.insert(1, bits(&[5]));
    let c = topo_clusters(&g);
    assert_eq!(c.len(), 2);
    assert_eq!(c[&1], c[&5]);
}

#[test]
fn xi_clusters_stay_in_the_support() {
    let g = graph(&[(1, 2), (2, 3), (3, 4)]);
    let c = xi_clusters(&g, &set(&[1, 2, 4]));
    assert_eq!(c.len(), 3);
    assert_eq!(c[&1], c[&2]);
    assert_ne!(c[&1], c[&4]);
    assert!(!c.contains_key(&3));
    assert!(xi_clusters(&g, &set(&[])).is_empty());
}

fn sorted(s: &HashSet<u64>) -> Vec<u64> {
    let mut v: Vec<u64> = s.iter().cloned().collect();
    v.sort();
    v
}

#[test]
fn seeds_merge_transitively() {
    // {1,2,3} and {3,4,5} share one of three: 1/3 > 0.3, merged;
    // {5,6,7} joins through the second; {20,21,22} stays alone
    let seeds = vec![bits(&[1, 2, 3]), bits(&[3, 4, 5]), bits(&[5, 6, 7]), bits(&[20, 21, 22])];
    let mut groups: Vec<Vec<u64>> = merge_seed_regions(&seeds).iter().map(sorted).collect();
    groups.sort();
    assert_eq!(groups, vec![vec![1, 2, 3, 4, 5, 6, 7], vec![20, 21, 22]]);
}

#[test]
fn small_overlaps_do_not_merge() {
    // one shared vertex out of four: 0.25, not above 0.3
    let seeds = vec![bits(&[1, 2, 3, 4]), bits(&[4, 5, 6, 7])];
    let mut groups: Vec<Vec<u64>> = merge_seed_regions(&seeds).iter().map(sorted).collect();
    groups.sort();
    assert_eq!(groups, vec![vec![1, 2, 3, 4], vec![4, 5, 6, 7]]);
    // exactly three tenths is not enough either
    let a: Vec<usize> = (0..10).collect();
    let b: Vec<usize> = (7..17).collect();
    let groups = merge_seed_regions(&vec![bits(&a), bits(&b)]);
    assert_eq!(groups.len(), 2);
    assert!(merge_seed_regions(&vec![]).is_empty());
}

#[test]
fn touched_vertices_of_a_record() {
    assert!(touched_vertices(&None).is_empty());
    let mut rec = UndoRecord::default();
    rec.added_vertices = vec![4, 5];
    rec.removed_vertex = Some(Vertex::new(9));
    assert_eq!(touched_vertices(&Some(rec)), set(&[4, 5, 9]));
}

#[test]
fn worldline_graph_links_shared_edges() {
    let mut h = Hypergraph::new();
    let a = h.add_vertex().id;
    let b = h.add_vertex().id;
    let c = h.add_vertex().id;
    h.add_causal_relation(a, b);
    h.add_hyperedge(vec![a, b]);
    h.add_hyperedge(vec![b, c]);
    let g = worldline_interaction_graph(&h, 0);
    assert_eq!(g.len(), 3);
    assert!(g[&a].contains(b as usize));
    assert!(g[&b].contains(a as usize) && g[&b].contains(c as usize));
    assert!(!g[&a].contains(c as usize));
    // only b lies at depth 2
    let deep = worldline_interaction_graph(&h, 2);
    assert!(deep.is_empty());
    let counts = initial_interaction_counts(&h, 0).expect("small counts");
    assert_eq!(counts.get(&pair_key(a, b)), Some(&1));
    assert_eq!(counts.get(&pair_key(b, c)), Some(&1));
    assert_eq!(counts.get(&pair_key(a, c)), None);
}

#[test]
fn grouping_by_cluster_keeps_order() {
    let mut labels: HashMap<u64, usize> = HashMap::new();
    labels.insert(1, 0);
    labels.insert(2, 1);
    labels.insert(3, 0);
    let g = group_by_label(&labels, &vec![3, 9, 2, 1]);
    assert_eq!(g.len(), 2);
    assert_eq!(g[&0], vec![3, 1]);
    assert_eq!(g[&1], vec![2]);
    assert!(group_by_label(&labels, &vec![]).is_empty());
}

#[test]
fn knots_continue_into_the_best_overlap() {
    let knot = set(&[1, 2, 3, 4]);
    let cands = vec![set(&[1, 9, 10, 11]), set(&[1, 2, 20, 21]), set(&[3, 4, 1, 30]), set(&[1, 2])];
    // overlaps: 1/4, 2/4, 3/4, 2/2
    assert_eq!(best_match(&knot, &cands, 300_000), Some(3));
    assert_eq!(best_match(&knot, &cands[..3].to_vec(), 300_000), Some(2));
    // ties keep the first
    let tie = vec![set(&[1, 2, 7, 8]), set(&[3, 4, 5, 6])];
    assert_eq!(best_match(&knot, &tie, 300_000), Some(0));
    // a quarter is not above three tenths
    assert_eq!(best_match(&knot, &cands[..1].to_vec(), 300_000), None);
    assert_eq!(best_match(&knot, &vec![], 0), None);
    assert_eq!(best_match(&set(&[]), &cands, 0), None);
}

#[test]
fn region_distances_of_a_path() {
    // a path 0 - 1 - 2 of two hyperedges: distances 1,2 / 1,1 / 1,2
    let mut h = Hypergraph::new();
    let a = h.add_vertex().id;
    let b = h.add_vertex().id;
    let c = h.add_vertex().id;
    h.add_hyperedge(vec![a, b]);
    h.add_hyperedge(vec![b, c]);
    assert_eq!(region_distance_totals(&set(&[a, b, c]), &h), (8, 6));
    // leaving out the middle cuts the region in two
    assert_eq!(region_distance_totals(&set(&[a, c]), &h), (0, 0));
    assert_eq!(region_distance_totals(&set(&[a, b]), &h), (2, 2));
    assert_eq!(region_distance_totals(&set(&[]), &h), (0, 0));
}

#[test]
fn knot_contacts_in_row_order() {
    let sets = vec![set(&[1, 2, 3]), set(&[3, 4]), set(&[9]), set(&[1, 4, 5, 6])];
    assert_eq!(
        knot_contacts(&sets),
        vec![(0, 1, 1, 2), (0, 3, 1, 3), (1, 3, 1, 2)]
    );
    assert!(knot_contacts(&vec![set(&[1]), set(&[2])]).is_empty());
    assert!(knot_contacts(&vec![]).is_empty());
}

#[test]
fn neighbour_closure_counts_linked_pairs() {
    // a triangle 1-2-3 with a pendant 4 on 1
    let g = graph(&[(1, 2), (2, 3), (1, 3), (1, 4)]);
    assert_eq!(neighbour_closure(&g, 1), Some((3, 1)));
    assert_eq!(neighbour_closure(&g, 2), Some((2, 1)));
    assert_eq!(neighbour_closure(&g, 4), Some((1, 0)));
    assert_eq!(neighbour_closure(&g, 8), None);
}

#[test]
fn degree_stats_of_a_star() {
    let g = graph(&[(1, 2), (1, 3), (1, 4)]);
    assert_eq!(degree_stats(&g), (3, 6));
    assert_eq!(degree_stats(&HashMap::new()), (0, 0));
}

#[test]
fn shapes_persist_up_to_order() {
    let mut before = Hypergraph::new();
    for _ in 0..4 {
        before.add_vertex();
    }
    before.add_hyperedge(vec![0, 1]);
    before.add_hyperedge(vec![1, 0]);
    before.add_hyperedge(vec![2, 3, 2]);
    before.add_hyperedge(vec![1, 2]);
    let mut after = Hypergraph::new();
    for _ in 0..4 {
        after.add_vertex();
    }
    after.add_hyperedge(vec![1, 0]);
    after.add_hyperedge(vec![2, 2, 3]);
    after.add_hyperedge(vec![2, 3]);
    // shapes before: {0,1}, {2,2,3}, {1,2}; two of them persist
    assert_eq!(shape_overlap(&before, &after), (2, 3));
    assert_eq!(shape_overlap(&after, &after), (3, 3));
    assert_eq!(shape_overlap(&Hypergraph::new(), &after), (0, 0));
}

#[test]
fn probes_go_far_from_the_support() {
    let mut rng = rand::rngs::SmallRng::seed_from_u64(3);
    // a path 1 - 2 - 3 - 4 - 5 with the support at 1
    let g = graph(&[(1, 2), (2, 3), (3, 4), (4, 5)]);
    let all = vec![1, 2, 3, 4, 5];
    match pick_probe(&g, &set(&[1]), &all, 10, 1, 50, &mut rng) {
        ProbePick::Far { vertex, distance } => assert_eq!(distance as u64, vertex - 1),
        _ => panic!("a vertex one step away is always far enough"),
    }
    // nothing lies ten steps away: the farthest drawn is taken instead
    match pick_probe(&g, &set(&[1]), &all, 10, 10, 50, &mut rng) {
        ProbePick::Fallback { vertex, distance } => {
            assert_eq!(distance as u64, vertex - 1);
            assert!(vertex >= 2);
        }
        _ => panic!("fallback expected"),
    }
    assert!(matches!(pick_probe(&g, &set(&[1]), &all, 10, 1, 0, &mut rng), ProbePick::Nothing));
    // a support holding every vertex leaves nothing to draw
    let full = set(&[1, 2, 3, 4, 5]);
    assert!(matches!(pick_probe(&g, &full, &all, 10, 1, 20, &mut rng), ProbePick::Nothing));
}

#[test]
fn worldline_graph_is_undirected_and_clusters_are_components() {
    let mut h = Hypergraph::new();
    let ids: Vec<u64> = (0..6).map(|_| h.add_vertex().id).collect();
    h.add_hyperedge(vec![ids[0], ids[1], ids[2]]);
    h.add_hyperedge(vec![ids[2], ids[3]]);
    h.add_hyperedge(vec![ids[4], ids[5]]);
    let g = worldline_interaction_graph(&h, 0);
    for (&u, bs) in &g {
        for w in bs.ones() {
            assert!(g[&(w as u64)].contains(u as usize));
        }
    }
    let c = topo_clusters(&g);
    assert_eq!(c[&ids[0]], c[&ids[3]]);
    assert_eq!(c[&ids[4]], c[&ids[5]]);
    assert_ne!(c[&ids[0]], c[&ids[4]]);
}

#[test]
fn starting_counts_count_position_pairs() {
    let mut h = Hypergraph::new();
    let a = h.add_vertex().id;
    let b = h.add_vertex().id;
    let c = h.add_vertex().id;
    h.add_hyperedge(vec![a, b, a]);
    h.add_hyperedge(vec![b, a, c]);
    let counts = initial_interaction_counts(&h, 0).expect("small counts");
    // {a, b}: two positions of a times one of b, then one more
    assert_eq!(counts.get(&pair_key(a, b)), Some(&3));
    assert_eq!(counts.get(&pair_key(a, c)), Some(&1));
    assert_eq!(counts.get(&pair_key(b, c)), Some(&1));
    // a pair meeting 300 x 300 times overflows the count
    let mut big = Hypergraph::new();
    let x = big.add_vertex().id;
    let y = big.add_vertex().id;
    let mut vs = vec![x; 300];
    vs.extend(vec![y; 300]);
    big.add_hyperedge(vs);
    assert!(initial_interaction_counts(&big, 0).is_none());
}

#[test]
fn one_draw_suffices_when_every_candidate_is_far() {
    let mut rng = rand::rngs::SmallRng::seed_from_u64(11);
    let g = graph(&[(1, 2), (2, 3)]);
    let all = vec![1, 2, 3];
    match pick_probe(&g, &set(&[1]), &all, 10, 1, 1, &mut rng) {
        ProbePick::Far { vertex, distance } => assert_eq!(distance as u64, vertex - 1),
        _ => panic!("every candidate lies outside the support and within reach"),
    }
}

#[test]
fn probe_selection_follows_the_draws() {
    // a path 1 - 2 - 3 - 4 - 5 with the support at 1
    let g = graph(&[(1, 2), (2, 3), (3, 4), (4, 5)]);
    let support = set(&[1]);
    // the first far draw is taken, not a later one
    match select_probe(&g, &support, &vec![1, 3, 5, 2], 10, 2) {
        ProbePick::Far { vertex, distance } => assert_eq!((vertex, distance), (3, 2)),
        _ => panic!("3 is far enough"),
    }
    // none far enough: the first farthest draw outside the support
    match select_probe(&g, &support, &vec![2, 4, 3, 4, 1], 10, 10) {
        ProbePick::Fallback { vertex, distance } => assert_eq!((vertex, distance), (4, 3)),
        _ => panic!("fallback expected"),
    }
    assert!(matches!(select_probe(&g, &support, &vec![1, 1], 10, 1), ProbePick::Nothing));
    assert!(matches!(select_probe(&g, &support, &vec![], 10, 1), ProbePick::Nothing));
}
