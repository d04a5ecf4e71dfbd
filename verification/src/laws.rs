//! Properties of the library that span several calls, stated over the same
//! spec functions as the operations' own contracts and proved.
use crate::hypergraph::{
    active_after_removal, count_of, equals, ids_below, incidence_without_edge, links_restored,
    removed_in_order, repeat_id, restored_ids, saturating_diff, undo_applied, undo_restored,
    vertices_dropped, Hyperedge, Hypergraph, Incidence,
};
use crate::rules::{copies_state, edge_created, fused, holding, UndoRecord};
use crate::listops::{differs_from, lemma_filter_all_pass, lemma_filter_none_pass};
use crate::bitset::bits_of;
use crate::clusters::{clustering, joined};
use crate::interaction::{law_worldline_graph_symmetric, meets};
use fixedbitset::FixedBitSet;
use vstd::prelude::*;

verus! {

/// After `add_causal_relation(u, v)`, `v` lies in the causal future of `u`,
/// whenever `u` has a causal future and the future of `v` holds `v` itself
/// (as it does for every vertex made by `add_vertex`).
pub proof fn law_link_relates(old: Hypergraph, new: Hypergraph, u: u64, v: u64)
    requires
        old.wf(),
        old.causal_future@.contains_key(u),
        old.fut(v).contains(v as usize),
        old.causal_link_effect(new, u, v),
    ensures
        new.fut(u).contains(v as usize),
{
    if !old.fut(u).contains(v as usize) {
        assert(new.causal_future@.contains_key(u));
    }
}

/// When `add_causal_relation(u, v)` adds a new link, the transitive closure
/// holds across it: every vertex `a` of the causal past of `u` has every
/// vertex `b` of the causal future of `v` in its future, and `b` has `a` in
/// its past.
pub proof fn law_link_closes(old: Hypergraph, new: Hypergraph, u: u64, v: u64, a: u64, b: u64)
    requires
        old.wf(),
        old.causal_link_effect(new, u, v),
        !old.fut(u).contains(v as usize),
        old.causal_future@.contains_key(a),
        old.causal_past@.contains_key(b),
        old.past(u).contains(a as usize),
        old.fut(v).contains(b as usize),
    ensures
        new.fut(a).contains(b as usize),
        new.past(b).contains(a as usize),
{
}

/// A new causal link `u -> v` is listed once: when `u` did not list `v`
/// among its children, it lists it exactly once afterwards, and likewise `v`
/// lists `u` once among its parents.
pub proof fn law_link_listed_once(old: Hypergraph, new: Hypergraph, u: u64, v: u64)
    requires
        old.causal_link_effect(new, u, v),
        !old.fut(u).contains(v as usize),
        u != v,
        old.vertices@.contains_key(u),
        old.vertices@.contains_key(v),
        !old.vertices@[u].children@.contains(v),
        !old.vertices@[v].parents@.contains(u),
    ensures
        count_of(new.vertices@[u].children@, v) == 1,
        count_of(new.vertices@[v].parents@, u) == 1,
{
    let c0 = old.vertices@[u].children@;
    let p0 = old.vertices@[v].parents@;
    assert(new.vertices@[u].children@ == c0.push(v));
    assert(new.vertices@[v].parents@ == p0.push(u));
    c0.lemma_filter_push(v, equals(v));
    p0.lemma_filter_push(u, equals(u));
    assert(c0.filter(equals(v)).len() == 0) by {
        if c0.filter(equals(v)).len() > 0 {
            c0.lemma_filter_pred(equals(v), 0);
            let f = c0.filter(equals(v));
            assert(f.contains(f[0]));
            c0.lemma_filter_contains_rev(equals(v), f[0]);
        }
    }
    assert(p0.filter(equals(u)).len() == 0) by {
        if p0.filter(equals(u)).len() > 0 {
            p0.lemma_filter_pred(equals(u), 0);
            let f = p0.filter(equals(u));
            assert(f.contains(f[0]));
            p0.lemma_filter_contains_rev(equals(u), f[0]);
        }
    }
}

/// Adding a causal relation that is already there changes no vertex and no
/// causal set; so adding the same relation twice, where `u` has a causal
/// future and `v` lies in its own, has the effect of adding it once.
pub proof fn law_link_twice(g: Hypergraph, h1: Hypergraph, h2: Hypergraph, u: u64, v: u64)
    requires
        g.wf(),
        g.causal_future@.contains_key(u),
        g.fut(v).contains(v as usize),
        g.causal_link_effect(h1, u, v),
        h1.causal_link_effect(h2, u, v),
    ensures
        h2.vertices@ == h1.vertices@,
        h2.causal_future@ == h1.causal_future@,
        h2.causal_past@ == h1.causal_past@,
{
    law_link_relates(g, h1, u, v);
}

/// Adding a causal relation never removes anything from a causal future or
/// past.
pub proof fn law_link_monotone(old: Hypergraph, new: Hypergraph, u: u64, v: u64)
    requires
        old.causal_link_effect(new, u, v),
    ensures
        forall|k: u64|
            #![trigger new.fut(k)]
            #![trigger new.past(k)]
            old.fut(k).subset_of(new.fut(k)) && old.past(k).subset_of(new.past(k)),
{
    assert forall|k: u64|
        #![trigger new.fut(k)]
        #![trigger new.past(k)]
        old.fut(k).subset_of(new.fut(k)) && old.past(k).subset_of(new.past(k)) by {
        if !old.fut(u).contains(v as usize) {
            if new.causal_future@.contains_key(k) {
            }
            if new.causal_past@.contains_key(k) {
            }
        }
    }
}

/// Two incidences that list the same hyperedges for every vertex and hold
/// the same hyperedges count the same lonely pairs.
pub proof fn lemma_lonely_pairs_same(a: Incidence, b: Incidence, vs: Seq<u64>)
    requires
        forall|k: u64| #[trigger] a.list(k) == b.list(k),
        a.edges == b.edges,
    ensures
        a.lonely_pairs(vs) == b.lonely_pairs(vs),
    decreases vs.len(),
{
    if vs.len() > 0 {
        assert forall|w: u64| #[trigger] a.apart_from(vs[0])(w) == b.apart_from(vs[0])(w) by {
            crate::hypergraph::lemma_shares_local(a, b, vs[0], w, None);
        }
        assert(a.apart_from(vs[0]) =~= b.apart_from(vs[0]));
        lemma_lonely_pairs_same(a, b, vs.drop_first());
    }
}

/// Removing a hyperedge right after adding it restores the hyperedges, the
/// active list, every vertex's hyperedge list and the interaction count.
pub proof fn law_remove_undoes_add(
    g0: Hypergraph,
    g1: Hypergraph,
    g2: Hypergraph,
    vs: Seq<u64>,
    e: Hyperedge,
    r: Option<Hyperedge>,
)
    requires
        g0.wf(),
        g0.edge_added(g1, vs, e),
        g1.edge_removed(g2, e.id, r),
    ensures
        r matches Some(x) && x.same_as(e),
        g2.hyperedges@ == g0.hyperedges@,
        g2.active_edge_ids@ == g0.active_edge_ids@,
        forall|k: u64| #[trigger] g2.edge_list(k) == g0.edge_list(k),
        g2.total_interactions == g0.total_interactions,
{
    let id = e.id;
    assert(!g0.hyperedges@.contains_key(id)) by {
        if g0.hyperedges@.contains_key(id) {
            assert(g0.edge_ok(id));
        }
    }
    assert(g1.hyperedges@.contains_key(id));
    assert(g1.hyperedges@[id].vertices@ == vs);
    // The hyperedges.
    assert(g2.hyperedges@ =~= g0.hyperedges@);
    // The active list.
    let a = g0.active_edge_ids@;
    let a1 = g1.active_edge_ids@;
    assert(a1 == a.push(id));
    assert(a1.contains(id)) by {
        assert(a1[a.len() as int] == id);
    }
    let p = choose|p: int|
        0 <= p < a1.len() && a1[p] == id && forall|q: int| 0 <= q < p ==> a1[q] != id;
    assert(p == a.len()) by {
        if p < a.len() {
            assert(a[p] == id);
            assert(ids_below(a, g0.next_edge_id));
        }
    }
    assert(a1.update(p, a1.last()).drop_last() =~= a);
    assert forall|i: int| 0 <= i < a.len() implies #[trigger] differs_from(id)(a[i]) by {
        assert(ids_below(a, g0.next_edge_id));
        assert(a[i] < id);
    }
    lemma_filter_all_pass(a, differs_from(id));
    // The lists.
    g1.lemma_incidence();
    g2.lemma_incidence();
    g0.lemma_incidence();
    assert forall|k: u64| #[trigger] g2.edge_list(k) == g0.edge_list(k) by {
        let l0 = g0.edge_list(k);
        assert(ids_below(l0, id)) by {
            if g0.vertex_to_edges@.contains_key(k) {
                assert(ids_below(g0.vertex_to_edges@[k]@, g0.next_edge_id));
            }
        }
        assert(g1.edge_list(k) == l0 + repeat_id(id, count_of(vs, k)));
        if g1.vertex_to_edges@.contains_key(k) {
            assert(g2.incidence().list(k) == g2.edge_list(k));
            assert(g2.incidence().lists.contains_key(k));
            if vs.contains(k) {
                assert(g2.edge_list(k) == g1.edge_list(k).filter(differs_from(id)));
                Seq::filter_distributes_over_add(
                    l0,
                    repeat_id(id, count_of(vs, k)),
                    differs_from(id),
                );
                assert forall|i: int| 0 <= i < l0.len() implies #[trigger] differs_from(id)(
                    l0[i],
                ) by {
                    assert(l0[i] < id);
                }
                lemma_filter_all_pass(l0, differs_from(id));
                lemma_filter_none_pass(repeat_id(id, count_of(vs, k)), differs_from(id));
                assert(l0 + Seq::<u64>::empty() =~= l0);
            } else {
                assert forall|i: int| 0 <= i < vs.len() implies !#[trigger] equals(k)(vs[i]) by {
                    if vs[i] == k {
                        assert(vs.contains(k));
                    }
                }
                lemma_filter_none_pass(vs, equals(k));
                assert(count_of(vs, k) == 0);
                assert(repeat_id(id, 0) =~= Seq::<u64>::empty());
                assert(l0 + repeat_id(id, 0) =~= l0);
                assert(g2.edge_list(k) == g1.edge_list(k));
            }
        } else {
            assert(!g2.vertex_to_edges@.contains_key(k));
            assert(!g0.vertex_to_edges@.contains_key(k));
        }
    }
    // The count.
    assert forall|k: u64| #[trigger] g2.incidence().list(k) == g0.incidence().list(k) by {
        assert(g2.edge_list(k) == g0.edge_list(k));
    }
    assert(g2.incidence().edges =~= g0.incidence().edges);
    lemma_lonely_pairs_same(g2.incidence(), g0.incidence(), vs);
}

/// Undoing a vertex fusion reverts it: the hyperedges, the vertices (ids,
/// depths, labels, parent and child lists), the causal futures and pasts,
/// the interaction count and the counters are as before the fusion.
pub proof fn law_fusion_undo(
    g: Hypergraph,
    h: Hypergraph,
    u: Hypergraph,
    anchor: Option<u64>,
    rec: UndoRecord,
)
    requires
        g.wf(),
        fused(g, h, anchor, rec),
        undo_applied(h, u, rec),
    ensures
        u.hyperedges@ == g.hyperedges@,
        u.vertices@.dom() == g.vertices@.dom(),
        forall|k: u64| #[trigger] u.vertices@.contains_key(k) ==> u.vertices@[k].same_as(g.vertices@[k]),
        u.causal_future@.dom() == g.causal_future@.dom(),
        u.causal_past@.dom() == g.causal_past@.dom(),
        forall|k: u64| #![trigger u.fut(k)] #![trigger u.past(k)] u.fut(k) == g.fut(k) && u.past(k) == g.past(k),
        u.total_interactions == g.total_interactions,
        u.max_depth == g.max_depth,
        u.next_vertex_id == g.next_vertex_id,
        u.next_edge_id == g.next_edge_id,
{
    let vr = rec.target@[0];
    let (g1, g2, ks) = choose|g1: Hypergraph, g2: Hypergraph, ks: Seq<u64>|
        vertices_dropped(h, g1, rec.added_vertices@.to_set()) && g1.wf() && removed_in_order(
            g1,
            g2,
            rec.added_edges@,
        ) && g2.wf() && undo_restored(g2, u, rec, ks);
    assert(rec.added_vertices@.to_set() =~= Set::<u64>::empty());
    assert(g1.vertices@ =~= h.vertices@);
    assert(g1.causal_future@ =~= h.causal_future@);
    assert(g1.causal_past@ =~= h.causal_past@);
    assert(g1.same_state(g2));
    assert(u.hyperedges@ =~= g.hyperedges@);
    let v = rec.removed_vertex->0;
    assert(v.id == vr);
    assert(u.vertices@.dom() =~= g.vertices@.dom());
    assert(u.causal_future@.dom() =~= g.causal_future@.dom());
    assert(u.causal_past@.dom() =~= g.causal_past@.dom());
    lemma_copies_restore(g, g2, u, rec, ks);
}

/// When the active list of `g` names each hyperedge once, undoing a vertex
/// fusion gives back an active list with the same ids, each once.
pub proof fn law_fusion_undo_active(
    g: Hypergraph,
    h: Hypergraph,
    u: Hypergraph,
    anchor: Option<u64>,
    rec: UndoRecord,
)
    requires
        g.wf(),
        g.active_edge_ids@.to_set() == g.hyperedges@.dom(),
        g.active_edge_ids@.no_duplicates(),
        fused(g, h, anchor, rec),
        undo_applied(h, u, rec),
    ensures
        u.active_edge_ids@.to_set() == g.active_edge_ids@.to_set(),
        u.active_edge_ids@.no_duplicates(),
{
    let vr = rec.target@[0];
    let hs = holding(g.hyperedges@, vr);
    let (a, b, ks) = choose|a: Hypergraph, b: Hypergraph, ks: Seq<u64>|
        #![trigger removed_in_order(a, b, ks)]
        a.hyperedges@ == g.hyperedges@ && a.vertex_to_edges@ == g.vertex_to_edges@
            && a.active_edge_ids@ == g.active_edge_ids@ && a.total_interactions
            == g.total_interactions && a.wf() && ks.no_duplicates() && ks.to_set() == hs
            && removed_in_order(a, b, ks) && h.vertex_to_edges@ == b.vertex_to_edges@
            && h.active_edge_ids@ == b.active_edge_ids@ && h.total_interactions
            == b.total_interactions;
    lemma_removals_active(a, b, ks);
    let (g1, g2, ks2) = choose|g1: Hypergraph, g2: Hypergraph, ks2: Seq<u64>|
        vertices_dropped(h, g1, rec.added_vertices@.to_set()) && g1.wf() && removed_in_order(
            g1,
            g2,
            rec.added_edges@,
        ) && g2.wf() && undo_restored(g2, u, rec, ks2);
    assert(g1.same_state(g2));
    let rm = rec.removed_edges@;
    assert(rm.dom() =~= hs);
    let added = ks2.map_values(|k: u64| rm[k].id);
    assert(added =~= ks2) by {
        assert forall|i: int| 0 <= i < ks2.len() implies added[i] == ks2[i] by {
            assert(ks2.to_set().contains(ks2[i]));
            assert(g.edge_ok(ks2[i]));
        }
    }
    assert(u.active_edge_ids@ == b.active_edge_ids@ + ks2);
    assert forall|i: int, j: int| 0 <= i < b.active_edge_ids@.len() && 0 <= j < ks2.len() implies b.active_edge_ids@[i]
        != ks2[j] by {
        assert(b.active_edge_ids@.to_set().contains(b.active_edge_ids@[i]));
        assert(ks2.to_set().contains(ks2[j]));
    }
    vstd::seq_lib::lemma_no_dup_in_concat(b.active_edge_ids@, ks2);
    vstd::seq_lib::seq_to_set_distributes_over_add(b.active_edge_ids@, ks2);
    assert(u.active_edge_ids@.to_set() =~= g.active_edge_ids@.to_set());
}

/// When the hyperedge lists of `g` name exactly the hyperedges holding each
/// vertex, undoing a vertex fusion gives every vertex back a list with the
/// same hyperedge ids.
pub proof fn law_fusion_undo_lists(
    g: Hypergraph,
    h: Hypergraph,
    u: Hypergraph,
    anchor: Option<u64>,
    rec: UndoRecord,
    k: u64,
)
    requires
        g.wf(),
        g.active_edge_ids@.to_set() == g.hyperedges@.dom(),
        forall|e: u64| #[trigger]
            g.edge_list(k).contains(e) <==> (g.hyperedges@.contains_key(e)
                && g.hyperedges@[e].vertices@.contains(k)),
        fused(g, h, anchor, rec),
        undo_applied(h, u, rec),
    ensures
        u.edge_list(k).to_set() == g.edge_list(k).to_set(),
{
    let vr = rec.target@[0];
    let hs = holding(g.hyperedges@, vr);
    let (a, b, ks) = choose|a: Hypergraph, b: Hypergraph, ks: Seq<u64>|
        #![trigger removed_in_order(a, b, ks)]
        a.hyperedges@ == g.hyperedges@ && a.vertex_to_edges@ == g.vertex_to_edges@
            && a.active_edge_ids@ == g.active_edge_ids@ && a.total_interactions
            == g.total_interactions && a.wf() && ks.no_duplicates() && ks.to_set() == hs
            && removed_in_order(a, b, ks) && h.vertex_to_edges@ == b.vertex_to_edges@
            && h.active_edge_ids@ == b.active_edge_ids@ && h.total_interactions
            == b.total_interactions;
    assert forall|e: u64| a.edge_list(k).contains(e) implies a.hyperedges@.contains_key(e)
        && a.hyperedges@[e].vertices@.contains(k) by {
        assert(g.edge_list(k).contains(e));
    }
    lemma_removals_lists(a, b, ks, k);
    let (g1, g2, ks2) = choose|g1: Hypergraph, g2: Hypergraph, ks2: Seq<u64>|
        vertices_dropped(h, g1, rec.added_vertices@.to_set()) && g1.wf() && removed_in_order(
            g1,
            g2,
            rec.added_edges@,
        ) && g2.wf() && undo_restored(g2, u, rec, ks2);
    assert(g1.same_state(g2));
    assert(g2.edge_list(k) == b.edge_list(k));
    let rm = rec.removed_edges@;
    assert(rm.dom() =~= hs);
    lemma_restored_set(rm, ks2, k);
    vstd::seq_lib::seq_to_set_distributes_over_add(b.edge_list(k), restored_ids(rm, ks2, k));
    assert forall|e: u64| u.edge_list(k).to_set().contains(e) <==> g.edge_list(k).to_set().contains(e) by {
        assert(g.edge_list(k).to_set().contains(e) <==> g.edge_list(k).contains(e));
        if hs.contains(e) {
            assert(ks2.to_set().contains(e));
            assert(rm[e] == g.hyperedges@[e]);
        }
    }
    assert(u.edge_list(k).to_set() =~= g.edge_list(k).to_set());
}

/// The ids that restoring `ks` appends to the list of `k`: those of `ks`
/// whose hyperedge holds `k`.
proof fn lemma_restored_set(edges: Map<u64, Hyperedge>, ks: Seq<u64>, k: u64)
    ensures
        forall|e: u64| #[trigger]
            restored_ids(edges, ks, k).to_set().contains(e) <==> (ks.to_set().contains(e)
                && edges[e].vertices@.contains(k)),
    decreases ks.len(),
{
    if ks.len() == 0 {
    } else {
        let k0 = ks.drop_last();
        let e0 = ks.last();
        lemma_restored_set(edges, k0, k);
        let vs = edges[e0].vertices@;
        let rep = repeat_id(e0, count_of(vs, k));
        vstd::seq_lib::seq_to_set_distributes_over_add(restored_ids(edges, k0, k), rep);
        assert(count_of(vs, k) > 0 <==> vs.contains(k)) by {
            if vs.contains(k) {
                let i = choose|i: int| 0 <= i < vs.len() && vs[i] == k;
                vs.lemma_filter_contains(equals(k), i);
            }
            if count_of(vs, k) > 0 {
                let f = vs.filter(equals(k));
                vs.lemma_filter_pred(equals(k), 0);
                assert(f.contains(f[0]));
                vs.lemma_filter_contains_rev(equals(k), f[0]);
            }
        }
        assert forall|e: u64| #[trigger]
            restored_ids(edges, ks, k).to_set().contains(e) <==> (ks.to_set().contains(e)
                && edges[e].vertices@.contains(k)) by {
            assert(ks == k0.push(e0));
            crate::listops::lemma_push_contains(k0, e0, e);
            assert(k0.to_set().contains(e) <==> k0.contains(e));
            if rep.to_set().contains(e) {
                let i = choose|i: int| 0 <= i < rep.len() && rep[i] == e;
            }
            if e == e0 && vs.contains(k) {
                assert(rep[0] == e0);
                assert(rep.to_set().contains(e));
            }
        }
    }
}

/// Removing the hyperedges `ks` (each once) in turn takes them out of the
/// list of `k`, when that list names only hyperedges holding `k`.
proof fn lemma_removals_lists(g: Hypergraph, h: Hypergraph, ks: Seq<u64>, k: u64)
    requires
        removed_in_order(g, h, ks),
        ks.no_duplicates(),
        forall|e: u64| g.edge_list(k).contains(e) ==> g.hyperedges@.contains_key(e)
            && g.hyperedges@[e].vertices@.contains(k),
    ensures
        h.hyperedges@ == g.hyperedges@.remove_keys(ks.to_set()),
        h.edge_list(k).to_set() == g.edge_list(k).to_set().difference(ks.to_set()),
    decreases ks.len(),
{
    if ks.len() == 0 {
        assert(ks.to_set() =~= Set::<u64>::empty());
        assert(h.hyperedges@ =~= g.hyperedges@.remove_keys(ks.to_set()));
        assert(h.edge_list(k).to_set() =~= g.edge_list(k).to_set().difference(ks.to_set()));
    } else {
        let e = ks.last();
        let k0 = ks.drop_last();
        let (mid, r) = choose|mid: Hypergraph, r: Option<Hyperedge>|
            #![trigger mid.edge_removed(h, e, r)]
            removed_in_order(g, mid, k0) && mid.wf() && mid.edge_removed(h, e, r);
        assert(k0.no_duplicates()) by {
            assert forall|i: int, j: int| 0 <= i < k0.len() && 0 <= j < k0.len() && i != j implies k0[i]
                != k0[j] by {
                assert(ks[i] == k0[i] && ks[j] == k0[j]);
            }
        }
        lemma_removals_lists(g, mid, k0, k);
        assert(!k0.contains(e)) by {
            if k0.contains(e) {
                let i = choose|i: int| 0 <= i < k0.len() && k0[i] == e;
                assert(ks[i] == ks[ks.len() - 1]);
            }
        }
        assert forall|y: u64| ks.to_set().contains(y) <==> (k0.to_set().contains(y) || y == e) by {
            assert(ks == k0.push(e));
            crate::listops::lemma_push_contains(k0, e, y);
        }
        mid.lemma_incidence();
        h.lemma_incidence();
        assert(!mid.edge_list(k).contains(e) ==> !mid.edge_list(k).to_set().contains(e));
        if mid.hyperedges@.contains_key(e) {
            let vs = mid.hyperedges@[e].vertices@;
            assert(vs == g.hyperedges@[e].vertices@);
            let inc = incidence_without_edge(mid.incidence(), e, vs);
            assert(h.incidence() == inc);
            assert(h.edge_list(k) == inc.list(k));
            assert(mid.edge_list(k) == mid.incidence().list(k));
            if vs.contains(k) {
                if mid.incidence().lists.contains_key(k) {
                    assert(inc.lists.contains_key(k));
                    assert(inc.lists[k] == mid.incidence().lists[k].filter(differs_from(e)));
                    assert(h.edge_list(k) == mid.edge_list(k).filter(differs_from(e)));
                    lemma_filter_out_set(mid.edge_list(k), e);
                } else {
                    assert(!inc.lists.contains_key(k));
                    assert(h.edge_list(k) == mid.edge_list(k));
                }
            } else {
                if mid.incidence().lists.contains_key(k) {
                    assert(inc.lists[k] == mid.incidence().lists[k]);
                }
                assert(h.edge_list(k) == mid.edge_list(k));
                assert(!mid.edge_list(k).to_set().contains(e)) by {
                    if mid.edge_list(k).to_set().contains(e) {
                        assert(g.edge_list(k).to_set().contains(e));
                        assert(g.edge_list(k).contains(e));
                    }
                }
            }
        } else {
            assert(!g.hyperedges@.contains_key(e));
            assert(!mid.edge_list(k).to_set().contains(e)) by {
                if mid.edge_list(k).to_set().contains(e) {
                    assert(g.edge_list(k).to_set().contains(e));
                    assert(g.edge_list(k).contains(e));
                }
            }
        }
        assert(h.hyperedges@ =~= g.hyperedges@.remove_keys(ks.to_set()));
        assert(h.edge_list(k).to_set() =~= g.edge_list(k).to_set().difference(ks.to_set()));
    }
}

/// The hyperedge list of `k` names exactly the hyperedges holding `k`.
pub open spec fn list_exact(h: Hypergraph, k: u64) -> bool {
    forall|e: u64| #[trigger]
        h.edge_list(k).contains(e) <==> (h.hyperedges@.contains_key(e)
            && h.hyperedges@[e].vertices@.contains(k))
}

/// The active list names each hyperedge once, and every hyperedge list
/// names exactly the hyperedges holding its vertex.
pub open spec fn indexes_exact(h: Hypergraph) -> bool {
    &&& h.active_edge_ids@.to_set() == h.hyperedges@.dom()
    &&& h.active_edge_ids@.no_duplicates()
    &&& forall|k: u64| #[trigger] list_exact(h, k)
}

/// Vertex fusion keeps the active list and the hyperedge lists exact, and
/// leaves no hyperedge holding the removed vertex.
pub proof fn law_fusion_indexes(g: Hypergraph, h: Hypergraph, anchor: Option<u64>, rec: UndoRecord)
    requires
        g.wf(),
        indexes_exact(g),
        fused(g, h, anchor, rec),
    ensures
        indexes_exact(h),
        forall|e: u64| #[trigger]
            h.hyperedges@.contains_key(e) ==> !h.hyperedges@[e].vertices@.contains(rec.target@[0]),
{
    let vr = rec.target@[0];
    let hs = holding(g.hyperedges@, vr);
    let (a, b, ks) = choose|a: Hypergraph, b: Hypergraph, ks: Seq<u64>|
        #![trigger removed_in_order(a, b, ks)]
        a.hyperedges@ == g.hyperedges@ && a.vertex_to_edges@ == g.vertex_to_edges@
            && a.active_edge_ids@ == g.active_edge_ids@ && a.total_interactions
            == g.total_interactions && a.wf() && ks.no_duplicates() && ks.to_set() == hs
            && removed_in_order(a, b, ks) && h.vertex_to_edges@ == b.vertex_to_edges@
            && h.active_edge_ids@ == b.active_edge_ids@ && h.total_interactions
            == b.total_interactions;
    lemma_removals_active(a, b, ks);
    assert(h.active_edge_ids@.to_set() =~= h.hyperedges@.dom());
    assert forall|k: u64| #[trigger] list_exact(h, k) by {
        assert(list_exact(g, k));
        assert forall|e: u64| a.edge_list(k).contains(e) implies a.hyperedges@.contains_key(e)
            && a.hyperedges@[e].vertices@.contains(k) by {
            assert(g.edge_list(k).contains(e));
        }
        lemma_removals_lists(a, b, ks, k);
        assert(h.edge_list(k) == b.edge_list(k));
        assert forall|e: u64| #[trigger]
            h.edge_list(k).contains(e) <==> (h.hyperedges@.contains_key(e)
                && h.hyperedges@[e].vertices@.contains(k)) by {
            assert(h.edge_list(k).contains(e) <==> h.edge_list(k).to_set().contains(e));
            assert(g.edge_list(k).contains(e) <==> g.edge_list(k).to_set().contains(e));
            if h.hyperedges@.contains_key(e) {
                assert(h.hyperedges@[e] == g.hyperedges@[e]);
            }
        }
    }
}

/// Adding a hyperedge keeps the active list and the hyperedge lists exact.
pub proof fn law_add_hyperedge_indexes(g: Hypergraph, h: Hypergraph, vs: Seq<u64>, e: Hyperedge)
    requires
        g.wf(),
        indexes_exact(g),
        g.edge_added(h, vs, e),
    ensures
        indexes_exact(h),
{
    assert(!g.hyperedges@.contains_key(e.id)) by {
        if g.hyperedges@.contains_key(e.id) {
            assert(g.edge_ok(e.id));
        }
    }
    assert(!g.active_edge_ids@.contains(e.id)) by {
        if g.active_edge_ids@.contains(e.id) {
            assert(g.active_edge_ids@.to_set().contains(e.id));
        }
    }
    vstd::seq_lib::lemma_no_dup_in_concat(g.active_edge_ids@, seq![e.id]);
    assert(g.active_edge_ids@ + seq![e.id] == h.active_edge_ids@);
    assert(h.active_edge_ids@.to_set() =~= h.hyperedges@.dom()) by {
        assert forall|x: u64| h.active_edge_ids@.to_set().contains(x) <==> h.hyperedges@.dom().contains(x) by {
            crate::listops::lemma_push_contains(g.active_edge_ids@, e.id, x);
            assert(g.active_edge_ids@.contains(x) <==> g.active_edge_ids@.to_set().contains(x));
        }
    }
    assert forall|k: u64| #[trigger] list_exact(h, k) by {
        assert(list_exact(g, k));
        let rep = repeat_id(e.id, count_of(vs, k));
        assert(count_of(vs, k) > 0 <==> vs.contains(k)) by {
            if vs.contains(k) {
                let i = choose|i: int| 0 <= i < vs.len() && vs[i] == k;
                vs.lemma_filter_contains(equals(k), i);
            }
            if count_of(vs, k) > 0 {
                let f = vs.filter(equals(k));
                vs.lemma_filter_pred(equals(k), 0);
                assert(f.contains(f[0]));
                vs.lemma_filter_contains_rev(equals(k), f[0]);
            }
        }
        assert forall|x: u64| #[trigger]
            h.edge_list(k).contains(x) <==> (h.hyperedges@.contains_key(x)
                && h.hyperedges@[x].vertices@.contains(k)) by {
            let l = g.edge_list(k);
            assert(h.edge_list(k) == l + rep);
            if h.edge_list(k).contains(x) {
                let i = choose|i: int| 0 <= i < (l + rep).len() && (l + rep)[i] == x;
                if i >= l.len() {
                    assert(rep[i - l.len()] == e.id);
                    assert(rep.len() > 0);
                    assert(vs.contains(k));
                    assert(h.hyperedges@[e.id].vertices@ == vs);
                } else {
                    assert(l[i] == x);
                    assert(l.contains(x));
                    assert(g.hyperedges@.contains_key(x));
                    assert(x != e.id);
                    assert(h.hyperedges@.remove(e.id)[x] == g.hyperedges@[x]);
                }
            }
            if h.hyperedges@.contains_key(x) && h.hyperedges@[x].vertices@.contains(k) {
                if x == e.id {
                    assert(h.hyperedges@[e.id].vertices@ == vs);
                    assert(rep.len() > 0);
                    assert(rep[0] == e.id);
                    assert((l + rep)[l.len() as int] == x);
                } else {
                    assert(h.hyperedges@.remove(e.id)[x] == g.hyperedges@[x]);
                    assert(l.contains(x));
                    let i = choose|i: int| 0 <= i < l.len() && l[i] == x;
                    assert((l + rep)[i] == x);
                }
            }
        }
    }
}

/// Removing a hyperedge keeps the active list and the hyperedge lists exact.
pub proof fn law_remove_hyperedge_indexes(g: Hypergraph, h: Hypergraph, eid: u64, r: Option<Hyperedge>)
    requires
        g.wf(),
        indexes_exact(g),
        g.edge_removed(h, eid, r),
    ensures
        indexes_exact(h),
{
    let ks = seq![eid];
    assert(ks.drop_last() =~= Seq::<u64>::empty());
    assert(g.same_state(g));
    assert(removed_in_order(g, g, ks.drop_last()));
    assert(ks.last() == eid);
    assert(g.edge_removed(h, ks.last(), r));
    assert(removed_in_order(g, h, ks));
    assert(ks.to_set() =~= Set::<u64>::empty().insert(eid)) by {
        assert(ks[0] == eid);
    }
    lemma_removals_active(g, h, ks);
    assert(h.active_edge_ids@.to_set() =~= h.hyperedges@.dom());
    assert forall|k: u64| #[trigger] list_exact(h, k) by {
        assert(list_exact(g, k));
        lemma_removals_lists(g, h, ks, k);
        assert forall|e: u64| #[trigger]
            h.edge_list(k).contains(e) <==> (h.hyperedges@.contains_key(e)
                && h.hyperedges@[e].vertices@.contains(k)) by {
            assert(h.edge_list(k).contains(e) <==> h.edge_list(k).to_set().contains(e));
            assert(g.edge_list(k).contains(e) <==> g.edge_list(k).to_set().contains(e));
        }
    }
}

/// Filtering keeps a list free of repeats.
proof fn lemma_filter_no_dup(s: Seq<u64>, p: spec_fn(u64) -> bool)
    requires
        s.no_duplicates(),
    ensures
        s.filter(p).no_duplicates(),
    decreases s.len(),
{
    if s.len() > 0 {
        let s0 = s.drop_last();
        let x = s.last();
        assert(s == s0.push(x));
        s0.lemma_filter_push(x, p);
        assert(s0.no_duplicates()) by {
            assert forall|i: int, j: int| 0 <= i < s0.len() && 0 <= j < s0.len() && i != j implies s0[i]
                != s0[j] by {
                assert(s[i] == s0[i] && s[j] == s0[j]);
            }
        }
        lemma_filter_no_dup(s0, p);
        if p(x) {
            assert(!s0.filter(p).contains(x)) by {
                if s0.filter(p).contains(x) {
                    s0.lemma_filter_contains_rev(p, x);
                    let i = choose|i: int| 0 <= i < s0.len() && s0[i] == x;
                    assert(s[i] == s[s.len() - 1]);
                }
            }
            let f = s0.filter(p);
            assert forall|i: int, j: int| 0 <= i < f.push(x).len() && 0 <= j < f.push(x).len() && i
                != j implies f.push(x)[i] != f.push(x)[j] by {
                if i == f.len() {
                    assert(f.contains(f.push(x)[j]));
                } else if j == f.len() {
                    assert(f.contains(f.push(x)[i]));
                }
            }
        }
    }
}

/// Dropping every `e` from `s` takes `e` out of its set of elements.
proof fn lemma_filter_out_set(s: Seq<u64>, e: u64)
    ensures
        s.filter(differs_from(e)).to_set() == s.to_set().remove(e),
{
    let r = s.filter(differs_from(e));
    assert forall|x: u64| r.to_set().contains(x) <==> s.to_set().remove(e).contains(x) by {
        if r.to_set().contains(x) {
            s.lemma_filter_contains_rev(differs_from(e), x);
            let k = choose|k: int| 0 <= k < r.len() && r[k] == x;
            s.lemma_filter_pred(differs_from(e), k);
        }
        if s.to_set().remove(e).contains(x) {
            let q = choose|q: int| 0 <= q < s.len() && s[q] == x;
            s.lemma_filter_contains(differs_from(e), q);
        }
    }
    assert(r.to_set() =~= s.to_set().remove(e));
}

/// Moving the last element of `a` into position `p` and dropping the last
/// place loses only `a[p]` from the set of elements, and keeps a list free
/// of repeats.
proof fn lemma_swap_out(a: Seq<u64>, p: int)
    requires
        0 <= p < a.len(),
    ensures
        a.update(p, a.last()).drop_last().to_set().remove(a[p]) == a.to_set().remove(a[p]),
        a.no_duplicates() ==> a.update(p, a.last()).drop_last().no_duplicates(),
{
    let b = a.update(p, a.last()).drop_last();
    let li = a.len() - 1;
    assert forall|x: u64| b.to_set().remove(a[p]).contains(x) <==> a.to_set().remove(a[p]).contains(x) by {
        if b.to_set().contains(x) {
            let i = choose|i: int| 0 <= i < b.len() && b[i] == x;
            if i == p {
                assert(a[li] == x);
            } else {
                assert(a[i] == x);
            }
        }
        if a.to_set().remove(a[p]).contains(x) {
            let q = choose|q: int| 0 <= q < a.len() && a[q] == x;
            let i: int = if q == li { p } else { q };
            assert(b[i] == x);
        }
    }
    assert(b.to_set().remove(a[p]) =~= a.to_set().remove(a[p]));
    if a.no_duplicates() {
        assert forall|i: int, j: int| 0 <= i < b.len() && 0 <= j < b.len() && i != j implies b[i] != b[j] by {
            let ii: int = if i == p { li } else { i };
            let jj: int = if j == p { li } else { j };
            assert(b[i] == a[ii] && b[j] == a[jj]);
        }
    }
}

/// A list holding `e` has a first position of `e`.
proof fn lemma_first_position(a: Seq<u64>, e: u64)
    requires
        a.contains(e),
    ensures
        exists|p: int| 0 <= p < a.len() && a[p] == e && forall|q: int| 0 <= q < p ==> a[q] != e,
    decreases a.len(),
{
    if a[0] == e {
        assert(0 <= 0 < a.len() && a[0] == e && forall|q: int| 0 <= q < 0 ==> a[q] != e);
    } else {
        let i = choose|i: int| 0 <= i < a.len() && a[i] == e;
        assert(a.drop_first()[i - 1] == e);
        lemma_first_position(a.drop_first(), e);
        let p = choose|p: int|
            0 <= p < a.drop_first().len() && a.drop_first()[p] == e && forall|q: int|
                0 <= q < p ==> a.drop_first()[q] != e;
        assert forall|q: int| 0 <= q < p + 1 implies a[q] != e by {
            if q > 0 {
                assert(a[q] == a.drop_first()[q - 1]);
            }
        }
        assert(a[p + 1] == e);
    }
}

/// Removing `e` from an active list takes `e` out of its set of ids and
/// keeps it free of repeats.
proof fn lemma_active_removal(a: Seq<u64>, e: u64)
    ensures
        active_after_removal(a, e).to_set() == a.to_set().remove(e),
        a.no_duplicates() ==> active_after_removal(a, e).no_duplicates(),
{
    if a.contains(e) {
        lemma_first_position(a, e);
        let p = choose|p: int| 0 <= p < a.len() && a[p] == e && forall|q: int| 0 <= q < p ==> a[q] != e;
        let b = a.update(p, a.last()).drop_last();
        lemma_swap_out(a, p);
        lemma_filter_out_set(b, e);
        assert(b.to_set().remove(e) == a.to_set().remove(e));
        if a.no_duplicates() {
            lemma_filter_no_dup(b, differs_from(e));
        }
    } else {
        lemma_filter_out_set(a, e);
        if a.no_duplicates() {
            lemma_filter_no_dup(a, differs_from(e));
        }
    }
}

/// Removing the hyperedges `ks` (each once) in turn takes them out of the
/// hyperedges and their ids out of the active list, which stays free of
/// repeats, when every active id names a hyperedge.
proof fn lemma_removals_active(g: Hypergraph, h: Hypergraph, ks: Seq<u64>)
    requires
        removed_in_order(g, h, ks),
        ks.no_duplicates(),
        g.active_edge_ids@.to_set().subset_of(g.hyperedges@.dom()),
    ensures
        h.hyperedges@ == g.hyperedges@.remove_keys(ks.to_set()),
        h.active_edge_ids@.to_set() == g.active_edge_ids@.to_set().difference(ks.to_set()),
        g.active_edge_ids@.no_duplicates() ==> h.active_edge_ids@.no_duplicates(),
    decreases ks.len(),
{
    if ks.len() == 0 {
        assert(ks.to_set() =~= Set::<u64>::empty());
        assert(h.hyperedges@ =~= g.hyperedges@.remove_keys(ks.to_set()));
        assert(h.active_edge_ids@.to_set() =~= g.active_edge_ids@.to_set().difference(ks.to_set()));
    } else {
        let e = ks.last();
        let k0 = ks.drop_last();
        let (mid, r) = choose|mid: Hypergraph, r: Option<Hyperedge>|
            #![trigger mid.edge_removed(h, e, r)]
            removed_in_order(g, mid, k0) && mid.wf() && mid.edge_removed(h, e, r);
        assert(k0.no_duplicates()) by {
            assert forall|i: int, j: int| 0 <= i < k0.len() && 0 <= j < k0.len() && i != j implies k0[i]
                != k0[j] by {
                assert(ks[i] == k0[i] && ks[j] == k0[j]);
            }
        }
        lemma_removals_active(g, mid, k0);
        assert(!k0.contains(e)) by {
            if k0.contains(e) {
                let i = choose|i: int| 0 <= i < k0.len() && k0[i] == e;
                assert(ks[i] == ks[ks.len() - 1]);
            }
        }
        assert forall|y: u64| ks.to_set().contains(y) <==> (k0.to_set().contains(y) || y == e) by {
            assert(ks == k0.push(e));
            crate::listops::lemma_push_contains(k0, e, y);
        }
        if mid.hyperedges@.contains_key(e) {
            lemma_active_removal(mid.active_edge_ids@, e);
        } else {
            assert(!g.hyperedges@.contains_key(e));
            assert(!g.active_edge_ids@.to_set().contains(e));
        }
        assert(h.hyperedges@ =~= g.hyperedges@.remove_keys(ks.to_set()));
        assert(h.active_edge_ids@.to_set() =~= g.active_edge_ids@.to_set().difference(ks.to_set()));
    }
}

/// Taking the last id `x` off an active list whose other ids are below it
/// leaves the rest.
proof fn lemma_active_drop_top(a: Seq<u64>, x: u64)
    requires
        ids_below(a, x),
    ensures
        active_after_removal(a.push(x), x) == a,
{
    let a1 = a.push(x);
    assert(a1[a.len() as int] == x);
    let p = choose|p: int|
        0 <= p < a1.len() && a1[p] == x && forall|q: int| 0 <= q < p ==> a1[q] != x;
    assert(p == a.len()) by {
        if p < a.len() {
            assert(a[p] == x);
        }
    }
    assert(a1.update(p, a1.last()).drop_last() =~= a);
    assert forall|i: int| 0 <= i < a.len() implies #[trigger] differs_from(x)(a[i]) by {
        assert(a[i] < x);
    }
    lemma_filter_all_pass(a, differs_from(x));
}

/// Taking `x` off an active list ending in `x, y`, whose other ids are below
/// `x < y`, leaves the rest and `y`.
proof fn lemma_active_drop_second(a: Seq<u64>, x: u64, y: u64)
    requires
        ids_below(a, x),
        x < y,
    ensures
        active_after_removal(a + seq![x, y], x) == a.push(y),
{
    let a1 = a + seq![x, y];
    assert(a1[a.len() as int] == x);
    let p = choose|p: int|
        0 <= p < a1.len() && a1[p] == x && forall|q: int| 0 <= q < p ==> a1[q] != x;
    assert(p == a.len()) by {
        if p < a.len() {
            assert(a1[p] == a[p]);
        }
    }
    assert(a1.update(p, a1.last()).drop_last() =~= a.push(y));
    assert forall|i: int| 0 <= i < a.push(y).len() implies #[trigger] differs_from(x)(a.push(y)[i]) by {
        if i < a.len() {
            assert(a[i] < x);
        }
    }
    lemma_filter_all_pass(a.push(y), differs_from(x));
}

/// Dropping every `x` from a list made of ids below `x`, then copies of `x`,
/// then ids other than `x`, leaves the first and last parts.
proof fn lemma_list_strip(l0: Seq<u64>, x: u64, c: nat, rest: Seq<u64>)
    requires
        ids_below(l0, x),
        forall|i: int| 0 <= i < rest.len() ==> #[trigger] rest[i] != x,
    ensures
        (l0 + repeat_id(x, c) + rest).filter(differs_from(x)) == l0 + rest,
{
    Seq::filter_distributes_over_add(l0 + repeat_id(x, c), rest, differs_from(x));
    Seq::filter_distributes_over_add(l0, repeat_id(x, c), differs_from(x));
    assert forall|i: int| 0 <= i < l0.len() implies #[trigger] differs_from(x)(l0[i]) by {
        assert(l0[i] < x);
    }
    lemma_filter_all_pass(l0, differs_from(x));
    lemma_filter_none_pass(repeat_id(x, c), differs_from(x));
    assert forall|i: int| 0 <= i < rest.len() implies #[trigger] differs_from(x)(rest[i]) by {
    }
    lemma_filter_all_pass(rest, differs_from(x));
    assert(l0 + Seq::<u64>::empty() =~= l0);
}

/// Removing hyperedge `x` over `vs` from `m` (giving `g2`) strips the copies
/// of `x` that follow the lower ids `l0` in the list of `k`.
proof fn lemma_strip_one(
    m: Hypergraph,
    g2: Hypergraph,
    x: u64,
    vs: Seq<u64>,
    k: u64,
    l0: Seq<u64>,
    rest: Seq<u64>,
)
    requires
        g2.incidence() == incidence_without_edge(m.incidence(), x, vs),
        g2.vertex_to_edges@.dom() == m.vertex_to_edges@.dom(),
        m.edge_list(k) == l0 + repeat_id(x, count_of(vs, k)) + rest,
        ids_below(l0, x),
        forall|i: int| 0 <= i < rest.len() ==> #[trigger] rest[i] != x,
    ensures
        g2.edge_list(k) == l0 + rest,
{
    lemma_list_strip(l0, x, count_of(vs, k), rest);
    assert(m.incidence().list(k) == m.edge_list(k));
    assert(g2.incidence().list(k) == g2.edge_list(k));
    if m.vertex_to_edges@.contains_key(k) {
        if !vs.contains(k) {
            assert forall|i: int| 0 <= i < vs.len() implies !#[trigger] equals(k)(vs[i]) by {
                if vs[i] == k {
                    assert(vs.contains(k));
                }
            }
            lemma_filter_none_pass(vs, equals(k));
            assert(repeat_id(x, 0) =~= Seq::<u64>::empty());
            assert(l0 + Seq::<u64>::empty() + rest =~= l0 + rest);
        }
    } else {
        assert(l0 + repeat_id(x, count_of(vs, k)) + rest =~= Seq::<u64>::empty());
        assert(l0 =~= Seq::<u64>::empty());
        assert(rest =~= Seq::<u64>::empty());
        assert(l0 + rest =~= Seq::<u64>::empty());
    }
}

/// The ids a hyperedge list holds before an edge creation are below the
/// edge counter.
proof fn lemma_list_below(g: Hypergraph, k: u64, bound: u64)
    requires
        g.wf(),
        g.next_edge_id <= bound,
    ensures
        ids_below(g.edge_list(k), bound),
{
    if g.vertex_to_edges@.contains_key(k) {
        assert(ids_below(g.vertex_to_edges@[k]@, g.next_edge_id));
    }
}

/// What an edge creation left, as the undo finds it once the new vertex is
/// dropped (`g1`): the hyperedges of `g` plus those of `ae`, the active list
/// of `g` plus `ae`, and every list but that of `n` extended by `ae`.
pub open spec fn creation_left(g: Hypergraph, g1: Hypergraph, ae: Seq<u64>, n: u64) -> bool {
    &&& g.wf()
    &&& forall|i: int| 0 <= i < ae.len() ==> #[trigger] ae[i] == g.next_edge_id + i
    &&& g1.hyperedges@.dom() == g.hyperedges@.dom().union(ae.to_set())
    &&& forall|k: u64| #[trigger]
        g.hyperedges@.contains_key(k) ==> g1.hyperedges@[k] == g.hyperedges@[k]
    &&& g1.active_edge_ids@ == g.active_edge_ids@ + ae
    &&& forall|k: u64|
        k != n ==> #[trigger] g1.edge_list(k) == g.edge_list(k) + restored_ids(g1.hyperedges@, ae, k)
}

/// One hyperedge list through the undo of an edge creation that added one
/// hyperedge `last`: the copies of `last` go.
proof fn lemma_undo_list_one(
    g1: Hypergraph,
    g2: Hypergraph,
    hs: Map<u64, Hyperedge>,
    last: u64,
    l0: Seq<u64>,
    k: u64,
)
    requires
        g2.incidence() == incidence_without_edge(g1.incidence(), last, hs[last].vertices@),
        g2.vertex_to_edges@.dom() == g1.vertex_to_edges@.dom(),
        g1.edge_list(k) == l0 + restored_ids(hs, seq![last], k),
        ids_below(l0, last),
    ensures
        g2.edge_list(k) == l0,
{
    let vs = hs[last].vertices@;
    assert(seq![last].drop_last() =~= Seq::<u64>::empty());
    assert(restored_ids(hs, Seq::<u64>::empty(), k) == Seq::<u64>::empty());
    assert(restored_ids(hs, seq![last], k) =~= repeat_id(last, count_of(vs, k)));
    assert(g1.edge_list(k) =~= l0 + repeat_id(last, count_of(vs, k)) + Seq::<u64>::empty());
    lemma_strip_one(g1, g2, last, vs, k, l0, Seq::<u64>::empty());
    assert(l0 + Seq::<u64>::empty() =~= l0);
}

/// One hyperedge list through the undo of an edge creation that added the
/// hyperedges `first` and then `last`: the copies of both go.
proof fn lemma_undo_list_two(
    g1: Hypergraph,
    m: Hypergraph,
    g2: Hypergraph,
    hs: Map<u64, Hyperedge>,
    first: u64,
    last: u64,
    l0: Seq<u64>,
    k: u64,
)
    requires
        m.incidence() == incidence_without_edge(g1.incidence(), first, hs[first].vertices@),
        m.vertex_to_edges@.dom() == g1.vertex_to_edges@.dom(),
        g2.incidence() == incidence_without_edge(m.incidence(), last, hs[last].vertices@),
        g2.vertex_to_edges@.dom() == m.vertex_to_edges@.dom(),
        g1.edge_list(k) == l0 + restored_ids(hs, seq![first, last], k),
        ids_below(l0, first),
        first < last,
    ensures
        g2.edge_list(k) == l0,
{
    let vs1 = hs[first].vertices@;
    let vs2 = hs[last].vertices@;
    assert(seq![first, last].drop_last() =~= seq![first]);
    assert(seq![first].drop_last() =~= Seq::<u64>::empty());
    assert(restored_ids(hs, Seq::<u64>::empty(), k) == Seq::<u64>::empty());
    assert(restored_ids(hs, seq![first], k) =~= repeat_id(first, count_of(vs1, k)));
    let r2s = repeat_id(last, count_of(vs2, k));
    assert(g1.edge_list(k) =~= l0 + repeat_id(first, count_of(vs1, k)) + r2s);
    assert forall|i: int| 0 <= i < r2s.len() implies #[trigger] r2s[i] != first by {}
    lemma_strip_one(g1, m, first, vs1, k, l0, r2s);
    assert(ids_below(l0, last)) by {
        assert forall|i: int| 0 <= i < l0.len() implies #[trigger] l0[i] < last by {
            assert(l0[i] < first);
        }
    }
    assert(l0 + r2s =~= l0 + r2s + Seq::<u64>::empty());
    lemma_strip_one(m, g2, last, vs2, k, l0, Seq::<u64>::empty());
    assert(l0 + Seq::<u64>::empty() =~= l0);
}

/// Removing the single hyperedge an edge creation added restores the
/// hyperedges, the active list and every list but that of `n`.
proof fn lemma_undo_one(
    g: Hypergraph,
    g1: Hypergraph,
    g2: Hypergraph,
    ae: Seq<u64>,
    n: u64,
    r: Option<Hyperedge>,
)
    requires
        ae.len() == 1,
        creation_left(g, g1, ae, n),
        g1.edge_removed(g2, ae[0], r),
    ensures
        g2.hyperedges@ == g.hyperedges@,
        g2.active_edge_ids@ == g.active_edge_ids@,
        forall|k: u64| k != n ==> #[trigger] g2.edge_list(k) == g.edge_list(k),
{
    let last = ae[0];
    let a = g.active_edge_ids@;
    assert(ae.to_set().contains(last));
    assert(!g.hyperedges@.contains_key(last)) by {
        if g.hyperedges@.contains_key(last) {
            assert(g.edge_ok(last));
        }
    }
    assert(g2.hyperedges@ =~= g.hyperedges@);
    assert(ids_below(a, g.next_edge_id));
    assert(ae =~= seq![last]);
    assert(g1.active_edge_ids@ =~= a.push(last));
    lemma_active_drop_top(a, last);
    assert forall|k: u64| k != n implies #[trigger] g2.edge_list(k) == g.edge_list(k) by {
        lemma_list_below(g, k, last);
        lemma_undo_list_one(g1, g2, g1.hyperedges@, last, g.edge_list(k), k);
    }
}

/// Removing the two hyperedges an edge creation added, in order, restores
/// the hyperedges, the active list and every list but that of `n`.
proof fn lemma_undo_two(
    g: Hypergraph,
    g1: Hypergraph,
    m: Hypergraph,
    g2: Hypergraph,
    ae: Seq<u64>,
    n: u64,
    r1: Option<Hyperedge>,
    r2: Option<Hyperedge>,
)
    requires
        ae.len() == 2,
        creation_left(g, g1, ae, n),
        g1.edge_removed(m, ae[0], r1),
        m.edge_removed(g2, ae[1], r2),
    ensures
        g2.hyperedges@ == g.hyperedges@,
        g2.active_edge_ids@ == g.active_edge_ids@,
        forall|k: u64| k != n ==> #[trigger] g2.edge_list(k) == g.edge_list(k),
{
    let first = ae[0];
    let last = ae[1];
    let a = g.active_edge_ids@;
    assert(ae.to_set().contains(first));
    assert(ae.to_set().contains(last));
    assert(!g.hyperedges@.contains_key(first)) by {
        if g.hyperedges@.contains_key(first) {
            assert(g.edge_ok(first));
        }
    }
    assert(!g.hyperedges@.contains_key(last)) by {
        if g.hyperedges@.contains_key(last) {
            assert(g.edge_ok(last));
        }
    }
    assert(m.hyperedges@.contains_key(last));
    assert(m.hyperedges@[last] == g1.hyperedges@[last]);
    assert(g2.hyperedges@ =~= g.hyperedges@);
    assert(ids_below(a, g.next_edge_id));
    assert(ae =~= seq![first, last]);
    lemma_active_drop_second(a, first, last);
    lemma_active_drop_top(a, last);
    assert forall|k: u64| k != n implies #[trigger] g2.edge_list(k) == g.edge_list(k) by {
        lemma_list_below(g, k, first);
        lemma_undo_list_two(g1, m, g2, g1.hyperedges@, first, last, g.edge_list(k), k);
    }
}

/// Undoing an edge creation reverts it: the hyperedges, the active list, the
/// vertices (ids, depths, labels, parent and child lists), the causal
/// futures and pasts, the interaction count and the hyperedge list of every
/// vertex are as before (that of the new vertex's id too, when it was empty
/// before).
#[verifier::rlimit(50)]
pub proof fn law_creation_undo(
    g: Hypergraph,
    h: Hypergraph,
    u: Hypergraph,
    anchor: Option<u64>,
    rec: UndoRecord,
)
    requires
        g.wf(),
        edge_created(g, h, anchor, rec),
        undo_applied(h, u, rec),
    ensures
        u.hyperedges@ == g.hyperedges@,
        u.active_edge_ids@ == g.active_edge_ids@,
        u.vertices@.dom() == g.vertices@.dom(),
        forall|k: u64| #[trigger] u.vertices@.contains_key(k) ==> u.vertices@[k].same_as(g.vertices@[k]),
        u.causal_future@.dom() == g.causal_future@.dom(),
        u.causal_past@.dom() == g.causal_past@.dom(),
        forall|k: u64| #![trigger u.fut(k)] #![trigger u.past(k)] u.fut(k) == g.fut(k) && u.past(k) == g.past(k),
        u.total_interactions == g.total_interactions,
        u.max_depth == g.max_depth,
        forall|k: u64| #[trigger]
            u.edge_list(k) == g.edge_list(k) || (k == g.next_vertex_id && g.edge_list(k).len()
                > 0),
{
    let n = g.next_vertex_id;
    let ae = rec.added_edges@;
    let (g1, g2, ks) = choose|g1: Hypergraph, g2: Hypergraph, ks: Seq<u64>|
        vertices_dropped(h, g1, rec.added_vertices@.to_set()) && g1.wf() && removed_in_order(
            g1,
            g2,
            rec.added_edges@,
        ) && g2.wf() && undo_restored(g2, u, rec, ks);
    assert(rec.added_vertices@.to_set() =~= Set::<u64>::empty().insert(n)) by {
        assert(rec.added_vertices@[0] == n);
    }
    assert(!g.vertices@.contains_key(n)) by {
        if g.vertices@.contains_key(n) {
            assert(g.vertex_ok(n));
        }
    }
    assert(!g.causal_future@.contains_key(n));
    assert(!g.causal_past@.contains_key(n));
    assert(ks =~= Seq::<u64>::empty()) by {
        if ks.len() > 0 {
            assert(ks.to_set().contains(ks[0]));
        }
    }
    assert forall|k: u64| #[trigger] u.edge_list(k) == g2.edge_list(k) by {
        assert(restored_ids(rec.removed_edges@, ks, k) == Seq::<u64>::empty());
        assert(g2.edge_list(k) + Seq::<u64>::empty() =~= g2.edge_list(k));
    }
    assert(links_restored(
        g2.vertices@.union_prefer_right(rec.old_vertices@),
        u.vertices@,
        rec.old_parents@,
        rec.old_children@,
    ));
    assert(u.hyperedges@ =~= g2.hyperedges@);
    assert(u.active_edge_ids@ =~= g2.active_edge_ids@);
    assert forall|k: u64| k != n implies #[trigger] g1.edge_list(k) == h.edge_list(k) by {
        assert(g1.vertex_to_edges@.contains_key(k) == h.vertex_to_edges@.contains_key(k));
    }
    assert(creation_left(g, g1, ae, n));
    let (m, r2) = choose|m: Hypergraph, r2: Option<Hyperedge>|
        #![trigger m.edge_removed(g2, ae.last(), r2)]
        removed_in_order(g1, m, ae.drop_last()) && m.wf() && m.edge_removed(g2, ae.last(), r2);
    if ae.len() == 1 {
        assert(ae.drop_last() =~= Seq::<u64>::empty());
        assert(g1.same_state(m));
        assert(creation_left(g, m, ae, n)) by {
            assert forall|k: u64| k != n implies #[trigger] m.edge_list(k) == g1.edge_list(k) by {
                assert(m.vertex_to_edges@.contains_key(k) == g1.vertex_to_edges@.contains_key(k));
            }
        }
        lemma_undo_one(g, m, g2, ae, n, r2);
        assert(g2.vertices@.dom() == g1.vertices@.dom());
        assert(g2.causal_future@.dom() == g1.causal_future@.dom());
        assert(g2.causal_past@.dom() == g1.causal_past@.dom());
    } else {
        let (m0, r1) = choose|m0: Hypergraph, r1: Option<Hyperedge>|
            #![trigger m0.edge_removed(m, ae.drop_last().last(), r1)]
            removed_in_order(g1, m0, ae.drop_last().drop_last()) && m0.wf() && m0.edge_removed(
                m,
                ae.drop_last().last(),
                r1,
            );
        assert(ae.drop_last().drop_last() =~= Seq::<u64>::empty());
        assert(ae.drop_last().last() == ae[0]);
        assert(g1.same_state(m0));
        assert(creation_left(g, m0, ae, n)) by {
            assert forall|k: u64| k != n implies #[trigger] m0.edge_list(k) == g1.edge_list(k) by {
                assert(m0.vertex_to_edges@.contains_key(k) == g1.vertex_to_edges@.contains_key(k));
            }
        }
        lemma_undo_two(g, m0, m, g2, ae, n, r1, r2);
        assert(g2.vertices@.dom() == g1.vertices@.dom());
        assert(g2.causal_future@.dom() == g1.causal_future@.dom());
        assert(g2.causal_past@.dom() == g1.causal_past@.dom());
    }
    assert(u.vertices@.dom() =~= g.vertices@.dom());
    assert(u.causal_future@.dom() =~= g.causal_future@.dom());
    assert(u.causal_past@.dom() =~= g.causal_past@.dom());
    lemma_copies_restore(g, g2, u, rec, ks);
}

/// An undo from a record holding a copy of the whole state of `g` (and
/// parent and child lists as `g` had them) gives back the vertices, causal
/// sets and interaction count of `g`, wherever the key sets agree.
proof fn lemma_copies_restore(g: Hypergraph, g2: Hypergraph, u: Hypergraph, rec: UndoRecord, ks: Seq<u64>)
    requires
        copies_state(g, rec),
        undo_restored(g2, u, rec, ks),
        rec.old_total_interactions == Some(g.total_interactions),
        rec.old_max_depth == Some(g.max_depth),
        forall|k: u64| #[trigger]
            rec.old_parents@.contains_key(k) ==> g.vertices@.contains_key(k) && rec.old_parents@[k]@
                == g.vertices@[k].parents@,
        forall|k: u64| #[trigger]
            rec.old_children@.contains_key(k) ==> g.vertices@.contains_key(k) && rec.old_children@[k]@
                == g.vertices@[k].children@,
        u.vertices@.dom() == g.vertices@.dom(),
        u.causal_future@.dom() == g.causal_future@.dom(),
        u.causal_past@.dom() == g.causal_past@.dom(),
    ensures
        forall|k: u64| #[trigger] u.vertices@.contains_key(k) ==> u.vertices@[k].same_as(g.vertices@[k]),
        forall|k: u64| #![trigger u.fut(k)] #![trigger u.past(k)] u.fut(k) == g.fut(k) && u.past(k) == g.past(k),
        u.total_interactions == g.total_interactions,
        u.max_depth == g.max_depth,
{
    let base = match rec.removed_vertex {
        Some(v) => g2.vertices@.insert(v.id, v),
        None => g2.vertices@,
    }.union_prefer_right(rec.old_vertices@);
    assert forall|k: u64| #[trigger] u.vertices@.contains_key(k) implies u.vertices@[k].same_as(g.vertices@[k]) by {
        assert(rec.old_vertices@.contains_key(k));
        assert(base[k] == rec.old_vertices@[k]);
    }
    assert forall|k: u64| #![trigger u.fut(k)] #![trigger u.past(k)] u.fut(k) == g.fut(k) && u.past(k) == g.past(k) by {
        if g.causal_future@.contains_key(k) {
            assert(u.causal_future@[k] == rec.old_causal_future@[k]);
        }
        if g.causal_past@.contains_key(k) {
            assert(u.causal_past@[k] == rec.old_causal_past@[k]);
        }
    }
}

/// The topological clusters of the worldline interaction graph are its
/// connected components: two ids share a cluster number exactly when a
/// path of interactions joins them.
pub proof fn law_topo_clusters_are_components(
    h: Hypergraph,
    cutoff: usize,
    inter: Map<u64, FixedBitSet>,
    ks: Seq<u64>,
    r: Map<u64, usize>,
)
    requires
        h.wf(),
        forall|i: u64| #[trigger] inter.contains_key(i) <==> exists|j: u64| meets(h, cutoff, i, j),
        forall|i: u64, x: usize|
            inter.contains_key(i) ==> (#[trigger] bits_of(inter[i]).contains(x) <==> exists|j: u64|
                meets(h, cutoff, i, j) && x == j as usize),
        clustering(inter, None, ks, r),
    ensures
        forall|a: u64, b: u64|
            #![trigger r[a], r[b]]
            r.contains_key(a) && r.contains_key(b) ==> (r[a] == r[b] <==> joined(inter, None, a, b)),
{
    law_worldline_graph_symmetric(h, cutoff, inter);
}

} // verus!
