use hcsn_rust::hypergraph::Hypergraph;
use hcsn_rust::rules::{
    edge_creation_rule, inject_defect, nucleate, settle_bridge, vertex_fusion_rule, UndoRecord,
};
use rand::SeedableRng;

fn sorted_edges(h: &Hypergraph) -> Vec<(u64, Vec<u64>)> {
    let mut v: Vec<(u64, Vec<u64>)> = h.hyperedges.iter().map(|(k, e)| (*k, e.vertices.clone())).collect();
    v.sort();
    v
}

fn seed() -> (Hypergraph, u64, u64) {
    let mut h = Hypergraph::new();
    let a = h.add_vertex().id;
    let b = h.add_vertex().id;
    h.add_causal_relation(a, b);
    h.add_hyperedge(vec![a, b]);
    (h, a, b)
}

#[test]
fn undo_record_default_is_blank() {
    let r = UndoRecord::default();
    assert!(r.target.is_empty() && r.added_vertices.is_empty() && r.added_edges.is_empty());
    assert!(r.removed_vertex.is_none() && r.kept_vertex.is_none());
    assert!(r.removed_edges.is_empty() && r.old_parents.is_empty());
}

#[test]
fn edge_creation_on_empty_graph_is_none() {
    let mut h = Hypergraph::new();
    h.add_vertex();
    assert!(edge_creation_rule(&mut h, None, 0).is_none());
    assert_eq!(h.vertices.len(), 1);
}

#[test]
fn edge_creation_with_foreign_anchor_is_none() {
    let (mut h, _, _) = seed();
    let edges_before = sorted_edges(&h);
    assert!(edge_creation_rule(&mut h, Some(99), 0).is_none());
    assert_eq!(sorted_edges(&h), edges_before);
}

#[test]
fn edge_creation_grows_the_picked_edge() {
    let (mut h, a, b) = seed();
    let rec = edge_creation_rule(&mut h, Some(a), 0).unwrap();
    assert_eq!(rec.target, vec![a, b]);
    assert_eq!(rec.added_vertices, vec![2]);
    assert_eq!(rec.added_edges, vec![1]);
    assert_eq!(h.hyperedges[&1].vertices, vec![a, b, 2]);
    assert_eq!(&rec.added_causal[0..2], &[(a, 2), (b, 2)]);
    assert!(h.is_causally_related(a, 2));
    assert!(h.is_causally_related(b, 2));
    assert_eq!(h.vertices.len(), 3);
    assert_eq!(h.active_edge_ids, vec![0, 1]);
}

#[test]
fn edge_creation_with_certain_closure_adds_a_pair_edge_or_not() {
    let (mut h, a, _) = seed();
    let c = h.add_vertex().id;
    let rec = edge_creation_rule(&mut h, Some(a), 1_000_000).unwrap();
    assert!(rec.added_edges.len() == 1 || rec.added_edges.len() == 2);
    if rec.added_edges.len() == 2 {
        let (u, v) = rec.added_causal[0];
        assert_ne!(u, v);
        assert_eq!(h.hyperedges[&rec.added_edges[0]].vertices, vec![u, v]);
        assert!(h.is_causally_related(u, v));
    }
    let _ = c;
}

#[test]
fn undoing_edge_creation_restores_the_structure() {
    let (mut h, a, _) = seed();
    let edges_before = sorted_edges(&h);
    let active_before = h.active_edge_ids.clone();
    let mut verts_before: Vec<u64> = h.vertices.keys().copied().collect();
    verts_before.sort();
    let rec = edge_creation_rule(&mut h, Some(a), 0).unwrap();
    h.execute_undo_record(rec);
    assert_eq!(sorted_edges(&h), edges_before);
    assert_eq!(h.active_edge_ids, active_before);
    let mut verts_after: Vec<u64> = h.vertices.keys().copied().collect();
    verts_after.sort();
    assert_eq!(verts_after, verts_before);
    assert_eq!(h.edges_containing(a), vec![0]);
}

fn fusion_graph() -> (Hypergraph, u64, u64, u64, u64) {
    let mut h = Hypergraph::new();
    let a = h.add_vertex().id;
    let b = h.add_vertex().id;
    let c = h.add_vertex().id;
    let d = h.add_vertex().id;
    h.add_causal_relation(a, b);
    h.add_causal_relation(b, c);
    h.add_hyperedge(vec![a, b, c]);
    h.add_hyperedge(vec![c, d]);
    (h, a, b, c, d)
}

#[test]
fn fusion_merges_second_into_first() {
    let (mut h, a, b, c, d) = fusion_graph();
    let rec = vertex_fusion_rule(&mut h, Some(a)).unwrap();
    assert_eq!(rec.target, vec![b]);
    assert_eq!(rec.kept_vertex, Some(a));
    assert_eq!(rec.removed_vertex.as_ref().unwrap().id, b);
    assert!(!h.vertices.contains_key(&b));
    assert_eq!(sorted_edges(&h), vec![(1, vec![c, d])]);
    assert!(rec.removed_edges.contains_key(&0));
    assert!(h.is_causally_related(a, c));
    assert!(h.vertices[&a].children.contains(&c) || h.vertices[&c].parents.contains(&a));
    assert_eq!(rec.old_vertices.len(), 4);
    assert_eq!(rec.old_vertices[&b].parents, vec![a]);
    // the indexes drop the removed hyperedge
    assert_eq!(h.active_edge_ids, vec![1]);
    assert_eq!(h.edges_containing(a), Vec::<u64>::new());
    assert_eq!(h.edges_containing(c), vec![1]);
    assert_eq!(h.total_interactions, 1);
    assert_eq!(rec.old_total_interactions, Some(4));
}

#[test]
fn fusion_needs_three_vertices_in_the_edge() {
    let (mut h, _, _, c, d) = fusion_graph();
    let before = sorted_edges(&h);
    assert!(vertex_fusion_rule(&mut h, Some(d)).is_none() || h.vertices.contains_key(&c));
    let _ = before;
    let mut small = Hypergraph::new();
    let x = small.add_vertex().id;
    let y = small.add_vertex().id;
    small.add_hyperedge(vec![x, y]);
    assert!(vertex_fusion_rule(&mut small, None).is_none());
}

#[test]
fn undoing_fusion_restores_edges_and_vertex() {
    let (mut h, a, b, _, _) = fusion_graph();
    let edges_before = sorted_edges(&h);
    let b_before = h.vertices[&b].clone();
    let rec = vertex_fusion_rule(&mut h, Some(a)).unwrap();
    h.execute_undo_record(rec);
    assert_eq!(sorted_edges(&h), edges_before);
    assert_eq!(h.vertices[&b].id, b_before.id);
    assert_eq!(h.vertices[&b].parents, b_before.parents);
    assert_eq!(h.vertices[&b].children, b_before.children);
    assert_eq!(h.vertices.len(), 4);
    let mut active = h.active_edge_ids.clone();
    active.sort();
    assert_eq!(active, vec![0, 1]);
    assert_eq!(h.edges_containing(a), vec![0]);
    assert_eq!(h.total_interactions, 4);
}

#[test]
fn injected_defect_grows_at_a_vertex() {
    let mut rng = rand::rngs::SmallRng::seed_from_u64(7);
    let mut empty = Hypergraph::new();
    assert!(inject_defect(&mut empty, &mut rng, 0, 5).is_none());
    let mut h = Hypergraph::new();
    let a = h.add_vertex().id;
    let b = h.add_vertex().id;
    h.add_hyperedge(vec![a, b]);
    assert!(inject_defect(&mut h, &mut rng, 0, 0).is_none());
    assert_eq!(h.vertices.len(), 2);
    let (v, rec) = inject_defect(&mut h, &mut rng, 0, 5).expect("every vertex lies on an edge");
    assert!(v == a || v == b);
    assert_eq!(rec.added_vertices, vec![2]);
    assert_eq!(h.vertices.len(), 3);
    assert_eq!(h.hyperedges.len(), 2);
}

#[test]
fn nucleation_builds_a_linked_simplex() {
    let mut h = Hypergraph::new();
    let a = h.add_vertex().id;
    h.add_hyperedge(vec![a]);
    let ids = nucleate(&mut h);
    assert_eq!(ids, vec![1, 2, 3, 4]);
    assert_eq!(h.vertices.len(), 5);
    assert_eq!(h.hyperedges.len(), 7);
    let mut pairs: Vec<Vec<u64>> = (1..7).map(|k| h.hyperedges[&k].vertices.clone()).collect();
    pairs.sort();
    assert_eq!(pairs, vec![vec![1, 2], vec![1, 3], vec![1, 4], vec![2, 3], vec![2, 4], vec![3, 4]]);
    assert_eq!(h.hyperedges[&1].vertices, vec![1, 2]);
    assert_eq!(h.hyperedges[&6].vertices, vec![3, 4]);
    for i in 1..5u64 {
        for j in (i + 1)..5u64 {
            assert!(h.is_causally_related(i, j));
            assert!(!h.is_causally_related(j, i));
        }
    }
    assert_eq!(h.vertices[&4].depth, 4);
}

#[test]
fn bridges_wait_then_link() {
    let mut h = Hypergraph::new();
    let a = h.add_vertex().id;
    let b = h.add_vertex().id;
    assert!(settle_bridge(&mut h, (a, b), 100, 119));
    assert!(!h.is_causally_related(a, b));
    assert!(!settle_bridge(&mut h, (a, b), 100, 120));
    assert!(h.is_causally_related(a, b));
    // a bridge to a vertex that is gone is dropped without a link
    assert!(!settle_bridge(&mut h, (b, 77), 0, 50));
    assert!(!h.is_causally_related(b, a));
    // a plan from the future waits
    assert!(settle_bridge(&mut h, (b, a), 500, 10));
}

#[test]
fn one_try_suffices_when_every_vertex_lies_on_an_edge() {
    let mut rng = rand::rngs::SmallRng::seed_from_u64(5);
    let mut h = Hypergraph::new();
    let a = h.add_vertex().id;
    let b = h.add_vertex().id;
    let c = h.add_vertex().id;
    h.add_hyperedge(vec![a, b]);
    h.add_hyperedge(vec![b, c]);
    let (v, rec) = inject_defect(&mut h, &mut rng, 0, 1).expect("every vertex lies on an edge");
    assert!(v == a || v == b || v == c);
    assert_eq!(rec.added_vertices, vec![3]);
    assert_eq!(h.vertices.len(), 4);
}

#[test]
fn loop_closure_follows_its_probability() {
    // no causal relation yet: a certain draw always closes a loop
    let mut h = Hypergraph::new();
    let a = h.add_vertex().id;
    let b = h.add_vertex().id;
    let _c = h.add_vertex().id;
    h.add_hyperedge(vec![a, b]);
    let rec = edge_creation_rule(&mut h, None, 1_000_000).expect("a hyperedge exists");
    assert_eq!(rec.added_edges.len(), 2);
    assert_eq!(rec.added_causal[0].0 != rec.added_causal[0].1, true);
    // a zero probability never does
    let mut g = Hypergraph::new();
    let x = g.add_vertex().id;
    let y = g.add_vertex().id;
    let _z = g.add_vertex().id;
    g.add_hyperedge(vec![x, y]);
    let rec = edge_creation_rule(&mut g, None, 0).expect("a hyperedge exists");
    assert_eq!(rec.added_edges.len(), 1);
}

fn state_of(h: &Hypergraph) -> Vec<(u64, usize, i32, Vec<u64>, Vec<u64>, Vec<u64>, Vec<u64>)> {
    let mut v: Vec<(u64, usize, i32, Vec<u64>, Vec<u64>, Vec<u64>, Vec<u64>)> = h
        .vertices
        .values()
        .map(|x| {
            (
                x.id,
                x.depth,
                x.label,
                x.parents.clone(),
                x.children.clone(),
                h.causal_future(x.id),
                h.causal_past(x.id),
            )
        })
        .collect();
    v.sort();
    v
}

#[test]
fn undoing_creation_reverts_everything() {
    let mut h = Hypergraph::new();
    let a = h.add_vertex().id;
    let b = h.add_vertex().id;
    let c = h.add_vertex().id;
    h.add_causal_relation(a, b);
    h.add_hyperedge(vec![a, b]);
    h.add_hyperedge(vec![b, c]);
    let before = state_of(&h);
    let edges_before = sorted_edges(&h);
    let total_before = h.total_interactions;
    let mut active_before = h.active_edge_ids.clone();
    active_before.sort();
    let depth_before = h.max_depth;
    let rec = edge_creation_rule(&mut h, Some(b), 1_000_000).expect("a hyperedge holds b");
    assert!(h.vertices.len() == 4);
    assert!(h.max_depth >= depth_before);
    h.execute_undo_record(rec);
    assert_eq!(h.max_depth, depth_before);
    assert_eq!(state_of(&h), before);
    assert_eq!(sorted_edges(&h), edges_before);
    assert_eq!(h.total_interactions, total_before);
    let mut active = h.active_edge_ids.clone();
    active.sort();
    assert_eq!(active, active_before);
}

#[test]
fn undoing_fusion_reverts_everything() {
    let (mut h, a, _, _, _) = fusion_graph();
    let before = state_of(&h);
    let edges_before = sorted_edges(&h);
    let total_before = h.total_interactions;
    let rec = vertex_fusion_rule(&mut h, Some(a)).unwrap();
    h.execute_undo_record(rec);
    assert_eq!(state_of(&h), before);
    assert_eq!(sorted_edges(&h), edges_before);
    assert_eq!(h.total_interactions, total_before);
    let mut active = h.active_edge_ids.clone();
    active.sort();
    assert_eq!(active, vec![0, 1]);
}

#[test]
fn fusion_redirects_the_links() {
    let (mut h, a, b, c, _) = fusion_graph();
    let rec = vertex_fusion_rule(&mut h, Some(a)).unwrap();
    assert_eq!(rec.target, vec![b]);
    assert!(!h.vertices[&a].children.contains(&b));
    assert_eq!(h.vertices[&c].parents, vec![a]);
    // `a` was the parent of `b`: `b` leaves its child list for `a` itself
    assert_eq!(h.vertices[&a].children, vec![a]);
    assert!(h.is_causally_related(a, c));
}

#[test]
fn thickening_links_come_from_the_past() {
    let mut h = Hypergraph::new();
    let a = h.add_vertex().id;
    let b = h.add_vertex().id;
    let c = h.add_vertex().id;
    h.add_causal_relation(a, b);
    h.add_causal_relation(b, c);
    h.add_hyperedge(vec![b, c]);
    let rec = edge_creation_rule(&mut h, Some(c), 0).expect("a hyperedge holds c");
    let n = rec.added_vertices[0];
    // the picked vertices first, then sources drawn from their pasts
    assert_eq!(rec.added_causal[0], (b, n));
    assert_eq!(rec.added_causal[1], (c, n));
    for &(x, y) in &rec.added_causal[2..] {
        assert_eq!(y, n);
        assert!(x == a || x == b || x == c);
    }
    assert!(h.vertices[&n].parents.contains(&b) && h.vertices[&n].parents.contains(&c));
    assert!(h.is_causally_related(a, n));
    assert_eq!(h.vertices[&n].depth, 4);
}
