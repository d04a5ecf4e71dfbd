//! The two stochastic rewrite rules (edge creation and vertex fusion), the
//! record each rewrite leaves behind so it can be rolled back, and the
//! engine's other structural moves: forced defects, nucleation of a linked
//! simplex, and deferred causal bridges.
use crate::hypergraph::{
    causal_set_ok, count_of, depth_or_one, edges_fit, ids_below, lemma_lonely_pairs_bound, lemma_restored_same,
    pair_count, removed_in_order, repeat_id, restored_ids, Hyperedge, Hypergraph, Vertex, ID_LIMIT,
};
use crate::laws::{law_link_monotone, law_link_relates};
use crate::bitset::{bits_of, bitset_clone, capacity_of};
use crate::listops::{
    copy_ids, keys_of, lemma_fresh_at, lemma_push_contains, vec_contains, vec_without,
};
use crate::random::{rng_choose, thread_choose, thread_choose_two, thread_gen_ratio};
use rand::rngs::SmallRng;
use fixedbitset::FixedBitSet;
use std::collections::{HashMap, HashSet};
use vstd::prelude::*;

verus! {

/// What a rewrite changed.
#[derive(Clone, Debug)]
pub struct UndoRecord {
    pub target: Vec<u64>,
    pub added_vertices: Vec<u64>,
    pub added_edges: Vec<u64>,
    pub added_causal: Vec<(u64, u64)>,
    pub removed_vertex: Option<Vertex>,
    pub kept_vertex: Option<u64>,
    pub removed_edges: HashMap<u64, Hyperedge>,
    pub old_causal_future: HashMap<u64, FixedBitSet>,
    pub old_causal_past: HashMap<u64, FixedBitSet>,
    pub old_parents: HashMap<u64, Vec<u64>>,
    pub old_children: HashMap<u64, Vec<u64>>,
    /// The interaction count before the rewrite.
    pub old_total_interactions: Option<usize>,
    /// The vertices as they were before the rewrite, by id.
    pub old_vertices: HashMap<u64, Vertex>,
    /// The recorded longest worldline before the rewrite.
    pub old_max_depth: Option<usize>,
}

/// Hyperedge `e` of `h` may be picked by a rule: it holds `anchor` when one
/// is given.
pub open spec fn candidate(h: Hypergraph, anchor: Option<u64>, e: u64) -> bool {
    &&& h.hyperedges@.contains_key(e)
    &&& (anchor matches Some(a) ==> h.hyperedges@[e].vertices@.contains(a))
}

/// The ids of the candidate hyperedges, each once, in the map's iteration
/// order.
fn candidate_edges(h: &Hypergraph, anchor: Option<u64>) -> (r: Vec<u64>)
    ensures
        r@.no_duplicates(),
        forall|e: u64| #[trigger] r@.contains(e) <==> candidate(*h, anchor, e),
{
    let ks = keys_of(&h.hyperedges);
    let mut r: Vec<u64> = Vec::new();
    let mut i: usize = 0;
    while i < ks.len()
        invariant
            i <= ks@.len(),
            ks@.no_duplicates(),
            ks@.to_set() == h.hyperedges@.dom(),
            r@.no_duplicates(),
            forall|e: u64| #[trigger]
                r@.contains(e) <==> (ks@.take(i as int).contains(e) && candidate(*h, anchor, e)),
        decreases ks@.len() - i,
    {
        let e = ks[i];
        let ghost r0 = r@;
        proof {
            lemma_fresh_at(ks@, i as int);
            assert(ks@.to_set().contains(e));
        }
        let keep = match anchor {
            Some(a) => match h.hyperedges.get(&e) {
                Some(edge) => vec_contains(&edge.vertices, a),
                None => false,
            },
            None => true,
        };
        if keep {
            r.push(e);
        }
        proof {
            assert forall|x: u64| #[trigger]
                r@.contains(x) <==> (ks@.take(i + 1).contains(x) && candidate(*h, anchor, x)) by {
                lemma_push_contains(ks@.take(i as int), e, x);
                lemma_push_contains(r0, e, x);
            }
            if keep {
                assert(!r0.contains(e));
                assert forall|a: int, b: int| 0 <= a < b < r@.len() implies r@[a] != r@[b] by {
                    if b == r0.len() {
                        assert(r0.contains(r0[a]));
                    } else {
                        assert(r0[a] != r0[b]);
                    }
                }
            }
        }
        i = i + 1;
    }
    proof {
        assert(ks@.take(ks@.len() as int) == ks@);
        assert forall|e: u64| #[trigger] r@.contains(e) <==> candidate(*h, anchor, e) by {
            assert(ks@.contains(e) <==> ks@.to_set().contains(e));
        }
    }
    r
}

/// A hyperedge picked at random among the candidates, if there is one.
fn pick_edge(h: &Hypergraph, anchor: Option<u64>) -> (r: Option<u64>)
    ensures
        r is None <==> !exists|e: u64| #[trigger] candidate(*h, anchor, e),
        r matches Some(e) ==> candidate(*h, anchor, e),
{
    let cands = candidate_edges(h, anchor);
    let r = thread_choose(&cands);
    proof {
        if r is None {
            assert forall|e: u64| !#[trigger] candidate(*h, anchor, e) by {
                if candidate(*h, anchor, e) {
                    assert(cands@.contains(e));
                }
            }
        } else {
            assert(cands@.contains(r->0));
        }
    }
    r
}

/// The shape the rewrite rules need: well formed; hyperedges over ids below
/// the vertex counter; causal bits below it; depths with room for two more
/// levels; counters with room for a new vertex and two new hyperedges; and
/// an interaction count with room for what a new hyperedge over any present
/// one plus a vertex, and a new pair, can add.
pub open spec fn rule_ready(h: Hypergraph) -> bool {
    &&& h.wf()
    &&& h.edges_within(h.next_vertex_id)
    &&& h.causal_within(h.next_vertex_id)
    &&& forall|k: u64| #[trigger]
        h.vertices@.contains_key(k) ==> h.vertices@[k].depth < usize::MAX - 2
    &&& h.next_vertex_id + 1 < ID_LIMIT
    &&& h.next_edge_id + 2 < u64::MAX
    &&& forall|e: u64| #[trigger]
        h.hyperedges@.contains_key(e) ==> h.total_interactions + 1 + pair_count(
            h.hyperedges@[e].vertices@.len() + 1,
        ) <= usize::MAX
}

/// While a rule links vertices to its new vertex `n`: well formed, `n` the
/// last vertex made, present, in its own future, causal bits below the
/// counter, and depths with room for one more level below `n`.
pub open spec fn growing(h: Hypergraph, n: u64) -> bool {
    &&& h.wf()
    &&& h.next_vertex_id == n + 1
    &&& h.causal_within(h.next_vertex_id)
    &&& h.vertices@.contains_key(n)
    &&& h.causal_future@.contains_key(n)
    &&& h.fut(n).contains(n as usize)
    &&& forall|k: u64| #[trigger]
        h.vertices@.contains_key(k) && k != n ==> h.vertices@[k].depth < usize::MAX - 1
    &&& h.vertices@[n].depth < usize::MAX
}

/// Adds the causal relation `x -> n` while a rule grows vertex `n`.
fn link_to_new(h: &mut Hypergraph, x: u64, n: u64)
    requires
        growing(*old(h), n),
        x < old(h).next_vertex_id,
    ensures
        growing(*final(h), n),
        old(h).causal_link_effect(*final(h), x, n),
        final(h).hyperedges@ == old(h).hyperedges@,
        final(h).vertex_to_edges@ == old(h).vertex_to_edges@,
        final(h).active_edge_ids@ == old(h).active_edge_ids@,
        final(h).next_vertex_id == old(h).next_vertex_id,
        final(h).next_edge_id == old(h).next_edge_id,
        final(h).max_depth >= old(h).max_depth,
        final(h).total_interactions == old(h).total_interactions,
        final(h).vertices@.dom() == old(h).vertices@.dom(),
        final(h).causal_future@.dom() == old(h).causal_future@.dom(),
        final(h).causal_past@.dom() == old(h).causal_past@.dom(),
        forall|k: u64|
            #![trigger final(h).fut(k)]
            old(h).fut(k).subset_of(final(h).fut(k)),
        old(h).causal_future@.contains_key(x) ==> final(h).fut(x).contains(n as usize),
{
    let ghost g = *h;
    proof {
        if x != n && g.vertices@.contains_key(x) {
            assert(g.vertices@[x].depth < usize::MAX - 1);
        }
        assert(depth_or_one(g.vertices@, x) < usize::MAX);
    }
    h.add_causal_relation(x, n);
    proof {
        law_link_monotone(g, *h, x, n);
        g.lemma_link_keeps_within(*h, x, n, g.next_vertex_id);
        if g.causal_future@.contains_key(x) {
            law_link_relates(g, *h, x, n);
        }
        if !g.fut(x).contains(n as usize) {
            assert(x != n);
            assert forall|k: u64| #[trigger]
                h.vertices@.contains_key(k) && k != n implies h.vertices@[k].depth < usize::MAX
                - 1 by {
                assert(g.vertices@.contains_key(k));
            }
            assert(g.vertices@.contains_key(n));
            assert(h.vertices@[n].depth < usize::MAX);
        }
        assert(h.fut(n).contains(n as usize)) by {
            assert(g.fut(n).subset_of(h.fut(n)));
        }
    }
}

/// One million: probabilities of the rules are given in millionths.
pub const PPM: u32 = 1_000_000;

/// Every pair of `ac` from position `c` on links some vertex to `n`, and `n`
/// lies in the causal future of that vertex wherever it has one in `h`.
pub open spec fn pairs_reach(h: Hypergraph, ac: Seq<(u64, u64)>, c: int, n: u64) -> bool {
    forall|i: int|
        c <= i < ac.len() ==> (#[trigger] ac[i]).1 == n && (h.causal_future@.contains_key(ac[i].0)
            ==> h.fut(ac[i].0).contains(n as usize))
}

/// `h` is `g` (taken right after vertex `n` was made) with causal relations
/// to `n` added: `growing`, the hyperedges and counters unchanged, no causal
/// future shrunk.
pub open spec fn grown_from(g: Hypergraph, h: Hypergraph, n: u64) -> bool {
    &&& growing(h, n)
    &&& h.hyperedges@ == g.hyperedges@
    &&& h.vertex_to_edges@ == g.vertex_to_edges@
    &&& h.active_edge_ids@ == g.active_edge_ids@
    &&& h.next_vertex_id == g.next_vertex_id
    &&& h.next_edge_id == g.next_edge_id
    &&& h.max_depth >= g.max_depth
    &&& h.total_interactions == g.total_interactions
    &&& h.vertices@.dom() == g.vertices@.dom()
    &&& h.causal_future@.dom() == g.causal_future@.dom()
    &&& h.causal_past@.dom() == g.causal_past@.dom()
    &&& forall|k: u64| #![trigger h.fut(k)] g.fut(k).subset_of(h.fut(k))
}

/// After the loop-closure step of edge creation, from `g` to `h`: either
/// nothing happened (`ae` and `ac` empty), or the relation `ac[0]` and the
/// hyperedge `ae[0]` over its two vertices were added.
pub open spec fn closure_done(g: Hypergraph, h: Hypergraph, ae: Seq<u64>, ac: Seq<(u64, u64)>) -> bool {
    &&& ae.len() == ac.len()
    &&& ae.len() <= 1
    &&& h.wf()
    &&& h.edges_within(g.next_vertex_id)
    &&& h.causal_within(g.next_vertex_id)
    &&& forall|k: u64| #[trigger]
        h.vertices@.contains_key(k) ==> h.vertices@[k].depth < usize::MAX - 1
    &&& h.next_vertex_id == g.next_vertex_id
    &&& h.next_edge_id == g.next_edge_id + ae.len()
    &&& g.total_interactions <= h.total_interactions
    &&& h.total_interactions <= g.total_interactions + ae.len()
    &&& forall|k: u64| #![trigger h.fut(k)] g.fut(k).subset_of(h.fut(k))
    &&& h.vertices@.dom() == g.vertices@.dom()
    &&& h.causal_future@.dom() == g.causal_future@.dom()
    &&& h.causal_past@.dom() == g.causal_past@.dom()
    &&& h.active_edge_ids@ == g.active_edge_ids@ + ae
    &&& forall|k: u64| #[trigger]
        h.edge_list(k) == g.edge_list(k) + restored_ids(h.hyperedges@, ae, k)
    &&& h.hyperedges@.dom() == g.hyperedges@.dom().union(ae.to_set())
    &&& forall|k: u64| #[trigger]
        g.hyperedges@.contains_key(k) ==> h.hyperedges@[k] == g.hyperedges@[k]
    &&& ae.len() == 1 ==> {
        &&& ae[0] == g.next_edge_id
        &&& h.hyperedges@[ae[0]].vertices@ == seq![ac[0].0, ac[0].1]
        &&& ac[0].0 != ac[0].1
        &&& g.vertices@.contains_key(ac[0].0)
        &&& g.vertices@.contains_key(ac[0].1)
        &&& !g.fut(ac[0].0).contains(ac[0].1 as usize)
    }
}

/// `g` and `h` hold the same vertices and causal sets.
pub open spec fn same_causal_state(g: Hypergraph, h: Hypergraph) -> bool {
    &&& h.vertices@ == g.vertices@
    &&& h.causal_future@ == g.causal_future@
    &&& h.causal_past@ == g.causal_past@
}

/// The vertices and causal sets of `h` are those of `g` after
/// `add_causal_relation` on each pair of `pairs` in turn.
pub open spec fn linked_in_order(g: Hypergraph, h: Hypergraph, pairs: Seq<(u64, u64)>) -> bool
    decreases pairs.len(),
{
    if pairs.len() == 0 {
        same_causal_state(g, h)
    } else {
        exists|mid: Hypergraph|
            #![trigger mid.causal_link_effect(h, pairs.last().0, pairs.last().1)]
            linked_in_order(g, mid, pairs.drop_last()) && mid.causal_link_effect(
                h,
                pairs.last().0,
                pairs.last().1,
            )
    }
}

/// One more link extends a chain of links.
pub proof fn lemma_linked_push(
    g: Hypergraph,
    mid: Hypergraph,
    h: Hypergraph,
    pairs: Seq<(u64, u64)>,
    p: (u64, u64),
)
    requires
        linked_in_order(g, mid, pairs),
        mid.causal_link_effect(h, p.0, p.1),
    ensures
        linked_in_order(g, h, pairs.push(p)),
{
    assert(pairs.push(p).drop_last() =~= pairs);
    assert(pairs.push(p).last() == p);
}

/// A chain of links ends in any state with the same vertices and causal
/// sets.
pub proof fn lemma_linked_same(g: Hypergraph, h1: Hypergraph, h2: Hypergraph, pairs: Seq<(u64, u64)>)
    requires
        linked_in_order(g, h1, pairs),
        same_causal_state(h1, h2),
    ensures
        linked_in_order(g, h2, pairs),
{
    if pairs.len() > 0 {
        let mid = choose|mid: Hypergraph|
            #![trigger mid.causal_link_effect(h1, pairs.last().0, pairs.last().1)]
            linked_in_order(g, mid, pairs.drop_last()) && mid.causal_link_effect(
                h1,
                pairs.last().0,
                pairs.last().1,
            );
        assert forall|k: u64| #[trigger] h2.fut(k) == h1.fut(k) && h2.past(k) == h1.past(k) by {}
        assert(mid.causal_link_effect(h2, pairs.last().0, pairs.last().1));
    }
}

/// `b` is `a` with the vertex `n` made by `add_vertex`: depth one, no links,
/// a label of +1 or -1, and itself alone in its causal future and past.
pub open spec fn vertex_made(a: Hypergraph, b: Hypergraph, n: u64) -> bool {
    &&& b.vertices@.dom() == a.vertices@.dom().insert(n)
    &&& b.vertices@.remove(n) == a.vertices@
    &&& b.vertices@[n].id == n
    &&& b.vertices@[n].depth == 1
    &&& (b.vertices@[n].label == 1 || b.vertices@[n].label == -1)
    &&& b.vertices@[n].parents@ == Seq::<u64>::empty()
    &&& b.vertices@[n].children@ == Seq::<u64>::empty()
    &&& b.causal_future@.remove(n) == a.causal_future@
    &&& b.causal_past@.remove(n) == a.causal_past@
    &&& b.fut(n) == Set::<usize>::empty().insert(n as usize)
    &&& b.past(n) == Set::<usize>::empty().insert(n as usize)
}

/// Every pair of `ac` from position `c + t.len()` on starts at a vertex of
/// the causal past, in `g`, of some vertex of `t`.
pub open spec fn thickened_from(g: Hypergraph, t: Seq<u64>, ac: Seq<(u64, u64)>, c: int) -> bool {
    forall|i: int|
        c + t.len() <= i < ac.len() ==> exists|j: int|
            0 <= j < t.len() && g.past(t[j]).contains((#[trigger] ac[i]).0 as usize)
}

/// A link `x -> n` to the newest vertex `n`, whose future is `n` alone and
/// which lies in no other past, extends the chain of links and leaves every
/// other past, and the future of `n`, as they were.
proof fn lemma_link_new_step(
    g1: Hypergraph,
    g2: Hypergraph,
    before: Hypergraph,
    h: Hypergraph,
    pairs: Seq<(u64, u64)>,
    x: u64,
    n: u64,
)
    requires
        before.wf(),
        n < ID_LIMIT,
        x != n,
        g1.causal_within(n),
        before.causal_link_effect(h, x, n),
        linked_in_order(g2, before, pairs),
        forall|k: u64| k != n ==> #[trigger] before.past(k) == g1.past(k),
        before.fut(n) == Set::<usize>::empty().insert(n as usize),
    ensures
        linked_in_order(g2, h, pairs.push((x, n))),
        forall|k: u64| k != n ==> #[trigger] h.past(k) == g1.past(k),
        h.fut(n) == Set::<usize>::empty().insert(n as usize),
{
    lemma_linked_push(g2, before, h, pairs, (x, n));
    assert forall|k: u64| k != n implies #[trigger] h.past(k) == g1.past(k) by {
        assert(before.past(k) == g1.past(k));
        if before.fut(x).contains(n as usize) {
            assert(h.causal_past@ == before.causal_past@);
        } else if h.causal_past@.contains_key(k) {
            assert(before.causal_past@.contains_key(k));
            assert(k < before.next_vertex_id);
            assert(k as usize != n as usize);
            assert(!before.fut(n).contains(k as usize));
            assert(h.past(k) == before.past(k));
        } else {
            assert(!before.causal_past@.contains_key(k));
        }
    }
    assert(!before.past(x).contains(n as usize)) by {
        assert(before.past(x) == g1.past(x));
        if g1.past(x).contains(n as usize) {
            assert((n as usize) < n);
        }
    }
    if before.fut(x).contains(n as usize) {
        assert(h.causal_future@ == before.causal_future@);
    } else if h.causal_future@.contains_key(n) {
        assert(h.fut(n) == before.fut(n));
    } else {
        assert(!before.causal_future@.contains_key(n));
    }
}

/// The record holds a copy of every vertex and every causal set of `g`.
pub open spec fn copies_state(g: Hypergraph, rec: UndoRecord) -> bool {
    &&& rec.old_vertices@.dom() == g.vertices@.dom()
    &&& forall|k: u64| #[trigger]
        rec.old_vertices@.contains_key(k) ==> rec.old_vertices@[k].same_as(g.vertices@[k])
    &&& rec.old_causal_future@.dom() == g.causal_future@.dom()
    &&& forall|k: u64| #[trigger]
        rec.old_causal_future@.contains_key(k) ==> bits_of(rec.old_causal_future@[k]) == bits_of(
            g.causal_future@[k],
        ) && capacity_of(rec.old_causal_future@[k]) == capacity_of(g.causal_future@[k])
    &&& rec.old_causal_past@.dom() == g.causal_past@.dom()
    &&& forall|k: u64| #[trigger]
        rec.old_causal_past@.contains_key(k) ==> bits_of(rec.old_causal_past@[k]) == bits_of(
            g.causal_past@[k],
        ) && capacity_of(rec.old_causal_past@[k]) == capacity_of(g.causal_past@[k])
}

/// The vertices and causal sets of `h` are those of `g` after the first `c`
/// links of `ac` (the loop closure), the new vertex `g.next_vertex_id`, and
/// the remaining links in order; the links from position `c + t.len()` on
/// start in the causal past of a vertex of `t` after the loop closure.
pub open spec fn creation_links(g: Hypergraph, h: Hypergraph, t: Seq<u64>, ac: Seq<(u64, u64)>, c: int) -> bool {
    exists|ga: Hypergraph, gb: Hypergraph|
        #![trigger linked_in_order(g, ga, ac.take(c)), linked_in_order(gb, h, ac.skip(c))]
        linked_in_order(g, ga, ac.take(c)) && vertex_made(ga, gb, g.next_vertex_id)
            && linked_in_order(gb, h, ac.skip(c)) && thickened_from(ga, t, ac, c)
}

/// What `edge_creation_rule` did, from `g` to `h`, by the record `rec`.
pub open spec fn edge_created(g: Hypergraph, h: Hypergraph, anchor: Option<u64>, rec: UndoRecord) -> bool {
    let n = g.next_vertex_id;
    let t = rec.target@;
    let ae = rec.added_edges@;
    let ac = rec.added_causal@;
    let c: int = if ae.len() == 2 {
        1
    } else {
        0
    };
    &&& exists|e: u64| #[trigger] candidate(g, anchor, e) && g.hyperedges@[e].vertices@ == t
    &&& rec.added_vertices@ == seq![n]
    &&& ae.len() == c + 1
    &&& forall|i: int| 0 <= i < ae.len() ==> #[trigger] ae[i] == g.next_edge_id + i
    &&& h.next_edge_id == g.next_edge_id + ae.len()
    &&& h.next_vertex_id == n + 1
    &&& h.hyperedges@.dom() == g.hyperedges@.dom().union(ae.to_set())
    &&& forall|k: u64| #[trigger]
        g.hyperedges@.contains_key(k) ==> h.hyperedges@[k] == g.hyperedges@[k]
    &&& h.hyperedges@[ae.last()].vertices@ == t.push(n)
    &&& c == 1 ==> {
        &&& h.hyperedges@[ae[0]].vertices@ == seq![ac[0].0, ac[0].1]
        &&& ac[0].0 != ac[0].1
        &&& g.vertices@.contains_key(ac[0].0)
        &&& g.vertices@.contains_key(ac[0].1)
        &&& !g.fut(ac[0].0).contains(ac[0].1 as usize)
    }
    &&& h.active_edge_ids@ == g.active_edge_ids@ + ae
    &&& forall|k: u64| #[trigger]
        h.edge_list(k) == g.edge_list(k) + restored_ids(h.hyperedges@, ae, k)
    &&& g.total_interactions <= h.total_interactions
    &&& h.vertices@.dom() == g.vertices@.dom().insert(n)
    &&& h.causal_future@.dom() == g.causal_future@.dom().insert(n)
    &&& h.causal_past@.dom() == g.causal_past@.dom().insert(n)
    &&& forall|k: u64| #![trigger h.fut(k)] g.fut(k).subset_of(h.fut(k))
    &&& ac.len() >= c + t.len()
    &&& forall|i: int| c <= i < c + t.len() ==> #[trigger] ac[i] == (t[i - c], n)
    &&& creation_links(g, h, t, ac, c)
    &&& pairs_reach(h, ac, c, n)
    &&& rec.removed_vertex is None
    &&& rec.kept_vertex is None
    &&& rec.removed_edges@ == Map::<u64, Hyperedge>::empty()
    &&& copies_state(g, rec)
    &&& rec.old_parents@ == Map::<u64, Vec<u64>>::empty()
    &&& rec.old_children@ == Map::<u64, Vec<u64>>::empty()
    &&& rec.old_total_interactions == Some(g.total_interactions)
    &&& rec.old_max_depth == Some(g.max_depth)
    &&& h.wf()
    &&& h.edges_within(h.next_vertex_id)
    &&& h.causal_within(h.next_vertex_id)
}

/// Two distinct vertices of `h`, the second already in the causal future of
/// the first.
pub open spec fn some_pair_related(h: Hypergraph) -> bool {
    exists|u: u64, v: u64|
        #![trigger h.fut(u).contains(v as usize)]
        u != v && h.vertices@.contains_key(u) && h.vertices@.contains_key(v) && h.fut(u).contains(
            v as usize,
        )
}

/// Edge creation. A hyperedge is picked at random (among those holding
/// `anchor_vertex_id` when one is given); `None`, and no change, when there
/// is none. With probability `p_rule_ppm` millionths (capped at one), when
/// there are at least three vertices, two distinct vertices `u`, `v` are
/// picked at random and, unless `v` already lies in the future of `u`, the
/// relation `u -> v` and a hyperedge `[u, v]` are added (loop closure). Then
/// a new vertex is made and linked from every vertex of the picked
/// hyperedge, then from each vertex of their causal pasts with probability
/// 3/10 (causal thickening), and a hyperedge over the picked one's vertices
/// plus the new vertex is added. The record keeps a copy of every vertex and
/// causal set, the interaction count and the longest worldline from before.
pub fn edge_creation_rule(h: &mut Hypergraph, anchor_vertex_id: Option<u64>, p_rule_ppm: u32) -> (r:
    Option<UndoRecord>)
    requires
        rule_ready(*old(h)),
    ensures
        r is None <==> !exists|e: u64| #[trigger] candidate(*old(h), anchor_vertex_id, e),
        r is None ==> *final(h) == *old(h),
        r matches Some(rec) ==> edge_created(*old(h), *final(h), anchor_vertex_id, rec),
        r matches Some(rec) ==> (p_rule_ppm == 0 ==> rec.added_edges@.len() == 1),
        r matches Some(rec) ==> (p_rule_ppm >= PPM && old(h).vertices@.len() >= 3 ==> rec.added_edges@.len()
            == 2 || some_pair_related(*old(h))),
{
    let ghost g0 = *h;
    if h.hyperedges.is_empty() {
        proof {
            assert forall|e: u64| !#[trigger] candidate(g0, anchor_vertex_id, e) by {
                if candidate(g0, anchor_vertex_id, e) {
                    assert(g0.hyperedges@.dom().contains(e));
                }
            }
        }
        return None;
    }
    let eid = match pick_edge(h, anchor_vertex_id) {
        Some(e) => e,
        None => {
            return None;
        },
    };
    let target: Vec<u64> = match h.hyperedges.get(&eid) {
        Some(edge) => copy_ids(&edge.vertices),
        None => Vec::new(),
    };
    let ghost t = target@;
    proof {
        assert(t == g0.hyperedges@[eid].vertices@);
        assert(g0.total_interactions + 1 + pair_count(t.len() + 1) <= usize::MAX);
    }
    let total0 = h.total_interactions;
    let depth0 = h.max_depth;
    let old_vs = copy_vertices(&h.vertices);
    let old_cf = copy_sets(&h.causal_future);
    let old_cp = copy_sets(&h.causal_past);
    let mut added_edges: Vec<u64> = Vec::new();
    let mut added_causal: Vec<(u64, u64)> = Vec::new();
    // Loop closure.
    let ppm = if p_rule_ppm > PPM {
        PPM
    } else {
        p_rule_ppm
    };
    let draw = thread_gen_ratio(ppm, PPM);
    if draw && h.vertices.len() >= 3 {
        let ids = keys_of(&h.vertices);
        let (u_id, v_id) = thread_choose_two(&ids);
        proof {
            let i = choose|i: int, j: int|
                0 <= i < ids@.len() && 0 <= j < ids@.len() && i != j && u_id == ids@[i]
                    && v_id == ids@[j];
            assert(ids@.to_set().contains(u_id));
            assert(ids@.to_set().contains(v_id));
            assert(g0.vertex_ok(u_id));
            assert(g0.vertex_ok(v_id));
        }
        if !h.is_causally_related(u_id, v_id) {
            let ghost ga = *h;
            h.add_causal_relation(u_id, v_id);
            let ghost gb = *h;
            proof {
                ga.lemma_link_keeps_within(gb, u_id, v_id, ga.next_vertex_id);
                law_link_monotone(ga, gb, u_id, v_id);
                lemma_lonely_pairs_bound(gb.incidence(), seq![u_id, v_id]);
                assert(pair_count(2) == 1) by {
                    reveal_with_fuel(pair_count, 3);
                }
            }
            let mut pair: Vec<u64> = Vec::new();
            pair.push(u_id);
            pair.push(v_id);
            proof {
                assert(pair@ == seq![u_id, v_id]);
            }
            let e = h.add_hyperedge(pair);
            added_edges.push(e.id);
            added_causal.push((u_id, v_id));
            proof {
                let ae = added_edges@;
                let ac = added_causal@;
                assert(ae == seq![e.id]);
                assert forall|y: u64| ae.to_set().contains(y) <==> y == e.id by {
                    if y == e.id {
                        assert(ae[0] == y);
                    }
                }
                assert(ae.to_set() =~= Set::<u64>::empty().insert(e.id));
                assert(!g0.hyperedges@.contains_key(e.id)) by {
                    if g0.hyperedges@.contains_key(e.id) {
                        assert(g0.edge_ok(e.id));
                    }
                }
                assert(h.hyperedges@.dom() =~= g0.hyperedges@.dom().union(ae.to_set()));
                assert forall|k: u64| #[trigger]
                    g0.hyperedges@.contains_key(k) implies h.hyperedges@[k] == g0.hyperedges@[k] by {
                    assert(h.hyperedges@.remove(e.id).contains_key(k));
                }
                assert forall|k: u64| #[trigger]
                    h.edge_list(k) == g0.edge_list(k) + restored_ids(h.hyperedges@, ae, k) by {
                    assert(ae.drop_last() =~= Seq::<u64>::empty());
                    assert(restored_ids(h.hyperedges@, Seq::<u64>::empty(), k) == Seq::<u64>::empty());
                    assert(h.hyperedges@[e.id].vertices@ == seq![u_id, v_id]);
                    assert(restored_ids(h.hyperedges@, ae, k) =~= Seq::<u64>::empty() + repeat_id(
                        e.id,
                        count_of(seq![u_id, v_id], k),
                    ));
                }
                assert forall|k: u64| #[trigger]
                    h.vertices@.contains_key(k) implies h.vertices@[k].depth < usize::MAX - 1 by {
                    assert(ga.vertices@.contains_key(k));
                    assert(ga.vertices@.contains_key(u_id));
                }
                assert forall|k: u64| #[trigger]
                    h.hyperedges@.contains_key(k) implies crate::hypergraph::ids_below(
                    h.hyperedges@[k].vertices@,
                    g0.next_vertex_id,
                ) by {
                    if k != e.id {
                        assert(g0.hyperedges@.contains_key(k));
                    }
                }
                assert(h.wf());
                assert(h.edges_within(g0.next_vertex_id));
                assert(h.causal_within(g0.next_vertex_id));
                assert(h.next_edge_id == g0.next_edge_id + ae.len());
                assert(g0.total_interactions <= h.total_interactions);
                assert(h.total_interactions <= g0.total_interactions + ae.len());
                assert(forall|k: u64| #![trigger h.fut(k)] g0.fut(k).subset_of(h.fut(k)));
                assert(h.vertices@.dom() == g0.vertices@.dom());
                assert(h.causal_future@.dom() == g0.causal_future@.dom());
                assert(h.active_edge_ids@ == g0.active_edge_ids@ + ae);
                assert(ae[0] == g0.next_edge_id);
                assert(!g0.fut(ac[0].0).contains(ac[0].1 as usize));
                assert(closure_done(g0, *h, ae, ac));
                assert(linked_in_order(ga, ga, Seq::<(u64, u64)>::empty()));
                lemma_linked_push(ga, ga, gb, Seq::<(u64, u64)>::empty(), (u_id, v_id));
                assert(Seq::<(u64, u64)>::empty().push((u_id, v_id)) =~= ac);
                lemma_linked_same(ga, gb, *h, ac);
                assert(linked_in_order(g0, *h, added_causal@));
            }
        } else {
            proof {
                assert(g0.fut(u_id).contains(v_id as usize));
                assert(some_pair_related(g0));
                assert(added_edges@.to_set() =~= Set::<u64>::empty());
                assert(h.hyperedges@.dom() =~= g0.hyperedges@.dom().union(Set::<u64>::empty()));
                assert(g0.active_edge_ids@ + Seq::<u64>::empty() =~= g0.active_edge_ids@);
                assert forall|k: u64| #[trigger]
                    h.edge_list(k) == g0.edge_list(k) + restored_ids(h.hyperedges@, added_edges@, k) by {
                    assert(g0.edge_list(k) + Seq::<u64>::empty() =~= g0.edge_list(k));
                }
                assert(closure_done(g0, *h, added_edges@, added_causal@));
                assert(linked_in_order(g0, *h, added_causal@));
            }
        }
    } else {
        proof {
            assert(added_edges@.to_set() =~= Set::<u64>::empty());
            assert(h.hyperedges@.dom() =~= g0.hyperedges@.dom().union(Set::<u64>::empty()));
            assert(g0.active_edge_ids@ + Seq::<u64>::empty() =~= g0.active_edge_ids@);
            assert forall|k: u64| #[trigger]
                h.edge_list(k) == g0.edge_list(k) + restored_ids(h.hyperedges@, added_edges@, k) by {
                assert(g0.edge_list(k) + Seq::<u64>::empty() =~= g0.edge_list(k));
            }
            assert(closure_done(g0, *h, added_edges@, added_causal@));
            assert(linked_in_order(g0, *h, added_causal@));
        }
    }
    proof {
        if p_rule_ppm >= PPM && g0.vertices@.len() >= 3 {
            assert(draw);
            assert(added_edges@.len() == 1 || some_pair_related(g0));
        }
        if p_rule_ppm == 0 {
            assert(!draw);
            assert(added_edges@.len() == 0);
        }
    }
    let ghost g1 = *h;
    let ghost ae1 = added_edges@;
    let ghost ac1 = added_causal@;
    let c: usize = added_edges.len();
    // The new vertex.
    let new_vertex = h.add_vertex();
    let n = new_vertex.id;
    let ghost g2 = *h;
    proof {
        assert(n == g0.next_vertex_id);
        assert(!g1.causal_future@.contains_key(n));
        assert(!g1.vertices@.contains_key(n));
        assert forall|k: u64| k != n implies #[trigger] h.fut(k) == g1.fut(k) by {
            assert(h.causal_future@.remove(n).contains_key(k) == g1.causal_future@.contains_key(k));
            if g1.causal_future@.contains_key(k) {
                assert(h.causal_future@[k] == h.causal_future@.remove(n)[k]);
            }
        }
        assert forall|k: u64| k != n implies #[trigger] h.past(k) == g1.past(k) by {
            assert(h.causal_past@.remove(n).contains_key(k) == g1.causal_past@.contains_key(k));
            if g1.causal_past@.contains_key(k) {
                assert(h.causal_past@[k] == h.causal_past@.remove(n)[k]);
            }
        }
        assert(h.fut(n).contains(n as usize));
        assert(h.causal_future@.contains_key(n));
        assert(h.causal_within(h.next_vertex_id));
        assert forall|k: u64| #[trigger]
            h.vertices@.contains_key(k) && k != n implies h.vertices@[k].depth < usize::MAX - 1 by {
            assert(h.vertices@.remove(n).contains_key(k));
        }
        assert(h.fut(n).contains(n as usize));
        assert(growing(*h, n));
        assert(grown_from(g2, *h, n));
        assert(pairs_reach(*h, added_causal@, c as int, n));
        assert(crate::hypergraph::ids_below(t, n)) by {
            assert(g0.hyperedges@.contains_key(eid));
        }
        assert(vertex_made(g1, g2, n)) by {
            assert(h.vertices@[n].same_as(new_vertex));
        }
        assert(added_causal@.skip(c as int) =~= Seq::<(u64, u64)>::empty());
        assert(linked_in_order(g2, *h, added_causal@.skip(c as int)));
        assert(g1.causal_within(n));
        assert(thickened_from(g1, t, added_causal@, c as int));
    }
    // Every vertex of the picked hyperedge comes before the new one.
    let mut i: usize = 0;
    while i < target.len()
        invariant
            target@ == t,
            i <= t.len(),
            crate::hypergraph::ids_below(t, n),
            grown_from(g2, *h, n),
            c as int == ac1.len(),
            added_causal@.len() == c + i,
            forall|j: int| 0 <= j < c ==> #[trigger] added_causal@[j] == ac1[j],
            forall|j: int| c <= j < c + i ==> #[trigger] added_causal@[j] == (t[j - c], n),
            pairs_reach(*h, added_causal@, c as int, n),
            added_edges@ == ae1,
            linked_in_order(g2, *h, added_causal@.skip(c as int)),
            g1.causal_within(n),
            n < ID_LIMIT,
            forall|k: u64| k != n ==> #[trigger] h.past(k) == g1.past(k),
            h.fut(n) == Set::<usize>::empty().insert(n as usize),
        decreases t.len() - i,
    {
        let x = target[i];
        let ghost before = *h;
        let ghost acb = added_causal@;
        link_to_new(h, x, n);
        added_causal.push((x, n));
        proof {
            assert(x < n);
            lemma_link_new_step(g1, g2, before, *h, acb.skip(c as int), x, n);
            assert(added_causal@.skip(c as int) =~= acb.skip(c as int).push((x, n)));
            assert forall|k: u64| #![trigger h.fut(k)] g2.fut(k).subset_of(h.fut(k)) by {
                assert(g2.fut(k).subset_of(before.fut(k)));
                assert(before.fut(k).subset_of(h.fut(k)));
            }
            assert forall|j: int|
                c <= j < added_causal@.len() implies (#[trigger] added_causal@[j]).1 == n && (
                h.causal_future@.contains_key(added_causal@[j].0) ==> h.fut(
                    added_causal@[j].0,
                ).contains(n as usize)) by {
                if j < acb.len() {
                    assert(added_causal@[j] == acb[j]);
                    assert(before.fut(acb[j].0).subset_of(h.fut(acb[j].0)));
                }
            }
        }
        i = i + 1;
    }
    let ghost ac2 = added_causal@;
    // Causal thickening.
    let mut j: usize = 0;
    while j < target.len()
        invariant
            target@ == t,
            j <= t.len(),
            crate::hypergraph::ids_below(t, n),
            grown_from(g2, *h, n),
            ac2.len() == c + t.len(),
            added_causal@.len() >= ac2.len(),
            forall|q: int| 0 <= q < ac2.len() ==> #[trigger] added_causal@[q] == ac2[q],
            pairs_reach(*h, added_causal@, c as int, n),
            added_edges@ == ae1,
            linked_in_order(g2, *h, added_causal@.skip(c as int)),
            g1.causal_within(n),
            n < ID_LIMIT,
            forall|k: u64| k != n ==> #[trigger] h.past(k) == g1.past(k),
            h.fut(n) == Set::<usize>::empty().insert(n as usize),
            thickened_from(g1, t, added_causal@, c as int),
        decreases t.len() - j,
    {
        let past = h.causal_past(target[j]);
        proof {
            assert(t[j as int] < n);
            assert(h.past(t[j as int]) == g1.past(t[j as int]));
            assert forall|p: int| 0 <= p < past@.len() implies #[trigger] past@[p] < n + 1 by {
                assert(past@.to_set().contains(past@[p]));
                assert(h.past(t[j as int]).contains(past@[p] as usize));
            }
        }
        let mut q: usize = 0;
        while q < past.len()
            invariant
                q <= past@.len(),
                forall|p: int| 0 <= p < past@.len() ==> #[trigger] past@[p] < n + 1,
                grown_from(g2, *h, n),
                added_causal@.len() >= ac2.len(),
                forall|r: int| 0 <= r < ac2.len() ==> #[trigger] added_causal@[r] == ac2[r],
                pairs_reach(*h, added_causal@, c as int, n),
                j < t.len(),
                ac2.len() == c + t.len(),
                target@ == t,
                past@.to_set().map(|y: u64| y as usize) == g1.past(t[j as int]),
                linked_in_order(g2, *h, added_causal@.skip(c as int)),
                g1.causal_within(n),
                n < ID_LIMIT,
                forall|k: u64| k != n ==> #[trigger] h.past(k) == g1.past(k),
                h.fut(n) == Set::<usize>::empty().insert(n as usize),
                thickened_from(g1, t, added_causal@, c as int),
            decreases past@.len() - q,
        {
            let x = past[q];
            proof {
                assert(past@.to_set().contains(x));
                assert(past@.to_set().map(|y: u64| y as usize).contains(x as usize));
                assert(g1.past(t[j as int]).contains(x as usize));
                assert(x != n);
            }
            if thread_gen_ratio(3, 10) {
                let ghost before = *h;
                let ghost acb = added_causal@;
                link_to_new(h, x, n);
                added_causal.push((x, n));
                proof {
                    lemma_link_new_step(g1, g2, before, *h, acb.skip(c as int), x, n);
                    assert(added_causal@ == acb.push((x, n)));
                    assert(acb.len() >= c);
                    assert(added_causal@.skip(c as int) =~= acb.skip(c as int).push((x, n)));
                    assert forall|r: int|
                        c + t.len() <= r < added_causal@.len() implies exists|jj: int|
                        0 <= jj < t.len() && g1.past(t[jj]).contains((#[trigger] added_causal@[r]).0 as usize) by {
                        if r < acb.len() {
                            assert(added_causal@[r] == acb[r]);
                        } else {
                            assert(added_causal@[r] == (x, n));
                            assert(g1.past(t[j as int]).contains(x as usize));
                        }
                    }
                    assert forall|k: u64| #![trigger h.fut(k)] g2.fut(k).subset_of(h.fut(k)) by {
                        assert(g2.fut(k).subset_of(before.fut(k)));
                        assert(before.fut(k).subset_of(h.fut(k)));
                    }
                    assert forall|r: int|
                        c <= r < added_causal@.len() implies (#[trigger] added_causal@[r]).1 == n
                        && (h.causal_future@.contains_key(added_causal@[r].0) ==> h.fut(
                        added_causal@[r].0,
                    ).contains(n as usize)) by {
                        if r < acb.len() {
                            assert(added_causal@[r] == acb[r]);
                            assert(before.fut(acb[r].0).subset_of(h.fut(acb[r].0)));
                        }
                    }
                }
            }
            q = q + 1;
        }
        j = j + 1;
    }
    // The new hyperedge: the picked one's vertices plus the new vertex.
    let mut vs = copy_ids(&target);
    vs.push(n);
    let ghost h3 = *h;
    proof {
        lemma_lonely_pairs_bound(h3.incidence(), vs@);
        assert(vs@.len() == t.len() + 1);
    }
    let e = h.add_hyperedge(vs);
    added_edges.push(e.id);
    let mut added_vertices: Vec<u64> = Vec::new();
    added_vertices.push(n);
    let rec = UndoRecord {
        target,
        added_vertices,
        added_edges,
        added_causal,
        removed_vertex: None,
        kept_vertex: None,
        removed_edges: HashMap::new(),
        old_causal_future: old_cf,
        old_causal_past: old_cp,
        old_parents: HashMap::new(),
        old_children: HashMap::new(),
        old_total_interactions: Some(total0),
        old_vertices: old_vs,
        old_max_depth: Some(depth0),
    };
    proof {
        let ae = rec.added_edges@;
        assert(ae == ae1.push(e.id));
        assert(!h3.hyperedges@.contains_key(e.id)) by {
            if h3.hyperedges@.contains_key(e.id) {
                assert(h3.edge_ok(e.id));
            }
        }
        assert forall|k: u64| #[trigger]
            h3.hyperedges@.contains_key(k) implies h.hyperedges@[k] == h3.hyperedges@[k] by {
            assert(h.hyperedges@.remove(e.id).contains_key(k));
        }
        assert(h.hyperedges@[e.id].vertices@ == t.push(n));
        assert forall|y: u64| ae.to_set().contains(y) <==> (ae1.to_set().contains(y) || y == e.id) by {
            crate::listops::lemma_push_contains(ae1, e.id, y);
        }
        assert(h.hyperedges@.dom() =~= g0.hyperedges@.dom().union(ae.to_set()));
        assert forall|k: u64| #[trigger]
            g0.hyperedges@.contains_key(k) implies h.hyperedges@[k] == g0.hyperedges@[k] by {
            assert(h3.hyperedges@.contains_key(k));
        }
        assert forall|i: int| 0 <= i < ae.len() implies #[trigger] ae[i] == g0.next_edge_id + i by {
            if i < ae1.len() {
                assert(ae[i] == ae1[i]);
            }
        }
        assert forall|k: u64| #[trigger]
            h.edge_list(k) == g0.edge_list(k) + restored_ids(h.hyperedges@, ae, k) by {
            assert forall|i: int| 0 <= i < ae1.len() implies (#[trigger] h.hyperedges@[ae1[i]]).vertices@
                == h3.hyperedges@[ae1[i]].vertices@ by {
                assert(ae1.to_set().contains(ae1[i]));
                assert(h3.hyperedges@.contains_key(ae1[i]));
            }
            lemma_restored_same(h.hyperedges@, h3.hyperedges@, ae1, k);
            assert(ae.drop_last() == ae1);
            assert(h3.edge_list(k) == g1.edge_list(k));
            assert(h.edge_list(k) == h3.edge_list(k) + repeat_id(e.id, count_of(t.push(n), k)));
            assert(g0.edge_list(k) + restored_ids(h3.hyperedges@, ae1, k) + repeat_id(
                e.id,
                count_of(t.push(n), k),
            ) =~= g0.edge_list(k) + (restored_ids(h3.hyperedges@, ae1, k) + repeat_id(
                e.id,
                count_of(t.push(n), k),
            )));
        }
        assert(h.active_edge_ids@ =~= g0.active_edge_ids@ + ae);
        assert(h.vertices@.dom() =~= g0.vertices@.dom().insert(n));
        assert(h.causal_future@.dom() =~= g0.causal_future@.dom().insert(n));
        assert(h.causal_past@.dom() =~= g0.causal_past@.dom().insert(n));
        assert forall|k: u64| #![trigger h.fut(k)] g0.fut(k).subset_of(h.fut(k)) by {
            assert(g0.fut(k).subset_of(g1.fut(k)));
            if k != n {
                assert(g2.fut(k) == g1.fut(k));
            } else {
                assert(!g1.causal_future@.contains_key(n));
            }
            assert(g2.fut(k).subset_of(h3.fut(k)));
        }
        assert forall|k: u64| #[trigger]
            h.hyperedges@.contains_key(k) implies crate::hypergraph::ids_below(
            h.hyperedges@[k].vertices@,
            h.next_vertex_id,
        ) by {
            if k != e.id {
                assert(g1.hyperedges@.contains_key(k));
                assert(crate::hypergraph::ids_below(g1.hyperedges@[k].vertices@, n));
            } else {
                assert forall|i: int| 0 <= i < t.push(n).len() implies #[trigger] t.push(n)[i]
                    < h.next_vertex_id by {
                    if i < t.len() {
                        assert(t.push(n)[i] == t[i]);
                    }
                }
            }
        }
        assert forall|i: int| c <= i < c + t.len() implies #[trigger] rec.added_causal@[i] == (
        t[i - c], n) by {
            assert(rec.added_causal@[i] == ac2[i]);
        }
        assert(rec.added_vertices@ =~= seq![n]);
        assert(rec.removed_edges@ == Map::<u64, Hyperedge>::empty());
        assert(candidate(g0, anchor_vertex_id, eid) && g0.hyperedges@[eid].vertices@ == t);
        if ae.len() == 2 {
            assert(ae1.len() == 1);
            assert(rec.added_causal@[0] == ac1[0]);
            assert(h.hyperedges@[ae[0]] == h3.hyperedges@[ae[0]]) by {
                assert(ae1.to_set().contains(ae1[0]));
            }
        }
        let cc: int = if ae.len() == 2 { 1 } else { 0 };
        let ac = rec.added_causal@;
        assert(cc == c);
        assert(ae.len() == cc + 1);
        assert(h.next_edge_id == g0.next_edge_id + ae.len());
        assert(h.next_vertex_id == n + 1);
        assert(h.hyperedges@[ae.last()].vertices@ == t.push(n));
        assert(g0.total_interactions <= h.total_interactions);
        assert(ac.len() >= cc + t.len());
        assert(pairs_reach(*h, ac, cc, n));
        assert(copies_state(g0, rec));
        assert(rec.old_parents@ == Map::<u64, Vec<u64>>::empty());
        assert(rec.old_children@ == Map::<u64, Vec<u64>>::empty());
        assert(h.wf());
        assert(h.edges_within(h.next_vertex_id));
        assert(h.causal_within(h.next_vertex_id)) by {
            assert forall|k: u64, i: usize| #[trigger] h.fut(k).contains(i) implies i
                < h.next_vertex_id by {
                assert(h3.fut(k).contains(i));
            }
            assert forall|k: u64, i: usize| #[trigger] h.past(k).contains(i) implies i
                < h.next_vertex_id by {
                assert(h3.past(k).contains(i));
            }
        }
        assert(rec.target@ == t);
        assert(rec.added_causal@.take(c as int) =~= ac1);
        assert(linked_in_order(g0, g1, rec.added_causal@.take(c as int)));
        lemma_linked_same(g2, h3, *h, rec.added_causal@.skip(c as int));
        assert(vertex_made(g1, g2, n));
        assert(thickened_from(g1, t, rec.added_causal@, c as int));
        assert(creation_links(g0, *h, t, rec.added_causal@, cc)) by {
            assert(linked_in_order(g0, g1, ac.take(cc)));
            assert(linked_in_order(g2, *h, ac.skip(cc)));
        }
        assert(edge_created(g0, *h, anchor_vertex_id, rec));
    }
    Some(rec)
}

/// Whether some hyperedge of `h` does not hold `v`.
fn has_edge_without(h: &Hypergraph, v: u64) -> (r: bool)
    ensures
        r == exists|e: u64| #[trigger]
            h.hyperedges@.contains_key(e) && !h.hyperedges@[e].vertices@.contains(v),
{
    let ks = keys_of(&h.hyperedges);
    let mut i: usize = 0;
    while i < ks.len()
        invariant
            i <= ks@.len(),
            ks@.to_set() == h.hyperedges@.dom(),
            forall|j: int| 0 <= j < i ==> (#[trigger] h.hyperedges@[ks@[j]]).vertices@.contains(v),
        decreases ks@.len() - i,
    {
        let e = ks[i];
        proof {
            assert(ks@.to_set().contains(e));
        }
        match h.hyperedges.get(&e) {
            Some(edge) => {
                if !vec_contains(&edge.vertices, v) {
                    return true;
                }
            },
            None => {},
        }
        i = i + 1;
    }
    proof {
        assert forall|e: u64| #[trigger] h.hyperedges@.contains_key(e) implies h.hyperedges@[e].vertices@.contains(
            v,
        ) by {
            assert(ks@.to_set().contains(e));
            let j = choose|j: int| 0 <= j < ks@.len() && ks@[j] == e;
            assert(h.hyperedges@[ks@[j]].vertices@.contains(v));
        }
    }
    false
}

/// The hyperedges of `edges` that hold `v`.
pub open spec fn holding(edges: Map<u64, Hyperedge>, v: u64) -> Set<u64> {
    Set::new(|e: u64| edges.contains_key(e) && edges[e].vertices@.contains(v))
}

/// Removes every hyperedge holding `v` from `h` with `remove_hyperedge`, so
/// that the active list, the per-vertex lists and the interaction count
/// follow, and returns them by id, with the ids in the order removed.
fn remove_edges_holding(h: &mut Hypergraph, v: u64) -> (r: (HashMap<u64, Hyperedge>, Vec<u64>))
    requires
        old(h).wf(),
    ensures
        final(h).wf(),
        r.0@ == old(h).hyperedges@.restrict(holding(old(h).hyperedges@, v)),
        final(h).hyperedges@ == old(h).hyperedges@.remove_keys(holding(old(h).hyperedges@, v)),
        r.1@.no_duplicates(),
        r.1@.to_set() == holding(old(h).hyperedges@, v),
        removed_in_order(*old(h), *final(h), r.1@),
        final(h).vertices@ == old(h).vertices@,
        final(h).causal_future@ == old(h).causal_future@,
        final(h).causal_past@ == old(h).causal_past@,
        final(h).next_vertex_id == old(h).next_vertex_id,
        final(h).next_edge_id == old(h).next_edge_id,
        final(h).max_depth >= old(h).max_depth,
{
    let ghost g = *h;
    let ghost hs = holding(g.hyperedges@, v);
    let ks = keys_of(&h.hyperedges);
    let mut removed: HashMap<u64, Hyperedge> = HashMap::new();
    let mut order: Vec<u64> = Vec::new();
    let mut i: usize = 0;
    proof {
        assert(ks@.take(0).to_set() =~= Set::<u64>::empty());
        assert(g.hyperedges@.restrict(hs.intersect(Set::<u64>::empty())) =~= removed@);
        assert(g.hyperedges@.remove_keys(hs.intersect(Set::<u64>::empty())) =~= g.hyperedges@);
        assert(order@.to_set() =~= hs.intersect(Set::<u64>::empty()));
        assert(g.same_state(*h));
    }
    while i < ks.len()
        invariant
            i <= ks@.len(),
            h.wf(),
            ks@.no_duplicates(),
            ks@.to_set() == g.hyperedges@.dom(),
            hs == holding(g.hyperedges@, v),
            removed@ == g.hyperedges@.restrict(hs.intersect(ks@.take(i as int).to_set())),
            h.hyperedges@ == g.hyperedges@.remove_keys(hs.intersect(ks@.take(i as int).to_set())),
            order@.no_duplicates(),
            order@.to_set() == hs.intersect(ks@.take(i as int).to_set()),
            removed_in_order(g, *h, order@),
            h.vertices@ == g.vertices@,
            h.causal_future@ == g.causal_future@,
            h.causal_past@ == g.causal_past@,
            h.next_vertex_id == g.next_vertex_id,
            h.next_edge_id == g.next_edge_id,
            h.max_depth >= g.max_depth,
        decreases ks@.len() - i,
    {
        let e = ks[i];
        proof {
            lemma_fresh_at(ks@, i as int);
            assert(ks@.to_set().contains(e));
            assert(h.hyperedges@.contains_key(e));
        }
        let holds = match h.hyperedges.get(&e) {
            Some(edge) => vec_contains(&edge.vertices, v),
            None => false,
        };
        proof {
            assert(!ks@.take(i as int).to_set().contains(e));
            assert(h.hyperedges@[e] == g.hyperedges@[e]);
            assert(holds == hs.contains(e));
        }
        let ghost before = *h;
        let ghost o0 = order@;
        if holds {
            let r = h.remove_hyperedge(e);
            match r {
                Some(edge) => {
                    removed.insert(e, edge);
                },
                None => {},
            }
            order.push(e);
            proof {
                assert(before.edge_removed(*h, e, r));
                assert(order@.drop_last() == o0);
                assert(order@.last() == e);
                assert(removed_in_order(g, *h, order@));
                assert(!o0.contains(e)) by {
                    if o0.contains(e) {
                        assert(o0.to_set().contains(e));
                    }
                }
            }
        }
        proof {
            let s1 = ks@.take(i + 1).to_set();
            assert(ks@.take(i + 1) == ks@.take(i as int).push(e));
            assert forall|y: u64| s1.contains(y) <==> (ks@.take(i as int).to_set().contains(y) || y == e) by {
                crate::listops::lemma_push_contains(ks@.take(i as int), e, y);
            }
            assert forall|y: u64| order@.to_set().contains(y) <==> hs.intersect(s1).contains(y) by {
                crate::listops::lemma_push_contains(o0, e, y);
                assert(o0.to_set().contains(y) <==> o0.contains(y));
                assert(order@.to_set().contains(y) <==> order@.contains(y));
                if holds {
                    assert(order@ == o0.push(e));
                } else {
                    assert(order@ == o0);
                }
            }
            assert(order@.to_set() =~= hs.intersect(s1));
            assert(removed@ =~= g.hyperedges@.restrict(hs.intersect(s1)));
            assert(h.hyperedges@ =~= g.hyperedges@.remove_keys(hs.intersect(s1)));
        }
        i = i + 1;
    }
    proof {
        assert(ks@.take(ks@.len() as int) == ks@);
        assert(hs.intersect(ks@.to_set()) =~= hs);
    }
    (removed, order)
}

/// A copy of every vertex of `vm`, by id.
fn copy_vertices(vm: &HashMap<u64, Vertex>) -> (r: HashMap<u64, Vertex>)
    ensures
        r@.dom() == vm@.dom(),
        forall|k: u64| #[trigger] r@.contains_key(k) ==> r@[k].same_as(vm@[k]),
{
    let ks = keys_of(vm);
    let mut r: HashMap<u64, Vertex> = HashMap::new();
    let mut i: usize = 0;
    proof {
        assert(ks@.take(0).to_set() =~= Set::<u64>::empty());
    }
    while i < ks.len()
        invariant
            i <= ks@.len(),
            ks@.to_set() == vm@.dom(),
            r@.dom() == ks@.take(i as int).to_set(),
            forall|k: u64| #[trigger] r@.contains_key(k) ==> r@[k].same_as(vm@[k]),
        decreases ks@.len() - i,
    {
        let k = ks[i];
        proof {
            assert(ks@.to_set().contains(k));
        }
        match vm.get(&k) {
            Some(v) => {
                r.insert(k, v.duplicate());
            },
            None => {},
        }
        proof {
            assert(ks@.take(i + 1) == ks@.take(i as int).push(k));
            assert forall|y: u64| r@.dom().contains(y) <==> ks@.take(i + 1).to_set().contains(y) by {
                crate::listops::lemma_push_contains(ks@.take(i as int), k, y);
            }
            assert(r@.dom() =~= ks@.take(i + 1).to_set());
        }
        i = i + 1;
    }
    proof {
        assert(ks@.take(ks@.len() as int) == ks@);
    }
    r
}

/// A copy of every causal set of `m`, by id: the same bits and capacity.
fn copy_sets(m: &HashMap<u64, FixedBitSet>) -> (r: HashMap<u64, FixedBitSet>)
    ensures
        r@.dom() == m@.dom(),
        forall|k: u64| #[trigger]
            r@.contains_key(k) ==> bits_of(r@[k]) == bits_of(m@[k]) && capacity_of(r@[k])
                == capacity_of(m@[k]),
{
    let ks = keys_of(m);
    let mut r: HashMap<u64, FixedBitSet> = HashMap::new();
    let mut i: usize = 0;
    proof {
        assert(ks@.take(0).to_set() =~= Set::<u64>::empty());
    }
    while i < ks.len()
        invariant
            i <= ks@.len(),
            ks@.to_set() == m@.dom(),
            r@.dom() == ks@.take(i as int).to_set(),
            forall|k: u64| #[trigger]
                r@.contains_key(k) ==> bits_of(r@[k]) == bits_of(m@[k]) && capacity_of(r@[k])
                    == capacity_of(m@[k]),
        decreases ks@.len() - i,
    {
        let k = ks[i];
        proof {
            assert(ks@.to_set().contains(k));
        }
        match m.get(&k) {
            Some(b) => {
                r.insert(k, bitset_clone(b));
            },
            None => {},
        }
        proof {
            assert(ks@.take(i + 1) == ks@.take(i as int).push(k));
            assert forall|y: u64| r@.dom().contains(y) <==> ks@.take(i + 1).to_set().contains(y) by {
                crate::listops::lemma_push_contains(ks@.take(i as int), k, y);
            }
            assert(r@.dom() =~= ks@.take(i + 1).to_set());
        }
        i = i + 1;
    }
    proof {
        assert(ks@.take(ks@.len() as int) == ks@);
    }
    r
}


/// Every vertex of `h` has depth at most `d`.
pub open spec fn depths_at_most(h: Hypergraph, d: int) -> bool {
    forall|k: u64| #[trigger] h.vertices@.contains_key(k) ==> h.vertices@[k].depth <= d
}

/// `b` is `a` after the list step of rewiring `x`: where `x` is a vertex,
/// its child list (`from_parents`) or parent list drops every `vr` and gains
/// `vk` at its end; nothing else changes.
pub open spec fn links_swapped(a: Hypergraph, b: Hypergraph, x: u64, vr: u64, vk: u64, from_parents: bool) -> bool {
    &&& b.vertices@.dom() == a.vertices@.dom()
    &&& b.causal_future@ == a.causal_future@
    &&& b.causal_past@ == a.causal_past@
    &&& forall|k: u64| #[trigger]
        b.vertices@.contains_key(k) && k != x ==> b.vertices@[k] == a.vertices@[k]
    &&& b.vertices@.contains_key(x) ==> {
        &&& b.vertices@[x].id == a.vertices@[x].id
        &&& b.vertices@[x].depth == a.vertices@[x].depth
        &&& b.vertices@[x].label == a.vertices@[x].label
        &&& side(b, x, !from_parents) == side(a, x, !from_parents).filter(crate::listops::differs_from(vr)).push(vk)
        &&& side(b, x, from_parents) == side(a, x, from_parents)
    }
}

/// The vertices and causal sets of `h` are those of `g` after rewiring each
/// id of `ids` in turn: the list step, then the relation `x -> vk`
/// (`from_parents`) or `vk -> x` added by `add_causal_relation`.
pub open spec fn rewired_in_order(
    g: Hypergraph,
    h: Hypergraph,
    ids: Seq<u64>,
    vr: u64,
    vk: u64,
    from_parents: bool,
) -> bool
    decreases ids.len(),
{
    if ids.len() == 0 {
        same_causal_state(g, h)
    } else {
        let x = ids.last();
        exists|m1: Hypergraph, m2: Hypergraph|
            #![trigger links_swapped(m1, m2, x, vr, vk, from_parents)]
            rewired_in_order(g, m1, ids.drop_last(), vr, vk, from_parents) && links_swapped(
                m1,
                m2,
                x,
                vr,
                vk,
                from_parents,
            ) && (if from_parents {
                m2.causal_link_effect(h, x, vk)
            } else {
                m2.causal_link_effect(h, vk, x)
            })
    }
}

/// The parent list (`parents`) or child list of `k` in `h`.
pub open spec fn side(h: Hypergraph, k: u64, parents: bool) -> Seq<u64> {
    if parents {
        h.vertices@[k].parents@
    } else {
        h.vertices@[k].children@
    }
}

/// Moves the links of `vr` over to `vk`, for each id `x` of `ids` in turn.
/// When `from_parents`, `x` is a parent of `vr`: its child list (where `x`
/// is a vertex) loses `vr` and gains `vk` at its end, and the relation
/// `x -> vk` is added. Otherwise `x` is a child of `vr`: its parent list
/// loses `vr` and gains `vk`, and the relation `vk -> x` is added.
fn rewire(h: &mut Hypergraph, ids: &Vec<u64>, vr: u64, vk: u64, from_parents: bool, d: Ghost<int>)
    requires
        old(h).wf(),
        vk < old(h).next_vertex_id,
        ids_below(ids@, old(h).next_vertex_id),
        depths_at_most(*old(h), d@),
        1 <= d@,
        d@ + ids@.len() + 1 < usize::MAX,
    ensures
        final(h).wf(),
        rewired_in_order(*old(h), *final(h), ids@, vr, vk, from_parents),
        depths_at_most(*final(h), d@ + ids@.len()),
        final(h).hyperedges@ == old(h).hyperedges@,
        final(h).vertex_to_edges@ == old(h).vertex_to_edges@,
        final(h).active_edge_ids@ == old(h).active_edge_ids@,
        final(h).next_vertex_id == old(h).next_vertex_id,
        final(h).next_edge_id == old(h).next_edge_id,
        final(h).max_depth >= old(h).max_depth,
        final(h).total_interactions == old(h).total_interactions,
        final(h).vertices@.dom() == old(h).vertices@.dom(),
        final(h).causal_future@.dom() == old(h).causal_future@.dom(),
        final(h).causal_past@.dom() == old(h).causal_past@.dom(),
        forall|k: u64|
            #![trigger final(h).fut(k)]
            #![trigger final(h).past(k)]
            old(h).fut(k).subset_of(final(h).fut(k)) && old(h).past(k).subset_of(final(h).past(k)),
        forall|i: int|
            0 <= i < ids@.len() && final(h).vertices@.contains_key(#[trigger] ids@[i]) ==> side(
                *final(h),
                ids@[i],
                !from_parents,
            ).contains(vk),
        forall|k: u64, x: u64|
            final(h).vertices@.contains_key(k) && #[trigger] side(*old(h), k, from_parents).contains(
                x,
            ) ==> #[trigger] side(*final(h), k, from_parents).contains(x),
{
    let ghost g = *h;
    let mut i: usize = 0;
    proof {
        assert(ids@.take(0) =~= Seq::<u64>::empty());
    }
    while i < ids.len()
        invariant
            g.wf(),
            h.wf(),
            rewired_in_order(g, *h, ids@.take(i as int), vr, vk, from_parents),
            i <= ids@.len(),
            vk < h.next_vertex_id,
            ids_below(ids@, h.next_vertex_id),
            depths_at_most(*h, d@ + i),
            1 <= d@,
            d@ + ids@.len() + 1 < usize::MAX,
            h.hyperedges@ == g.hyperedges@,
            h.vertex_to_edges@ == g.vertex_to_edges@,
            h.active_edge_ids@ == g.active_edge_ids@,
            h.next_vertex_id == g.next_vertex_id,
            h.next_edge_id == g.next_edge_id,
            h.max_depth >= g.max_depth,
            h.total_interactions == g.total_interactions,
            h.vertices@.dom() == g.vertices@.dom(),
            h.causal_future@.dom() == g.causal_future@.dom(),
            h.causal_past@.dom() == g.causal_past@.dom(),
            forall|k: u64|
                #![trigger h.fut(k)]
                #![trigger h.past(k)]
                g.fut(k).subset_of(h.fut(k)) && g.past(k).subset_of(h.past(k)),
            forall|j: int|
                0 <= j < i && h.vertices@.contains_key(#[trigger] ids@[j]) ==> side(
                    *h,
                    ids@[j],
                    !from_parents,
                ).contains(vk),
            forall|k: u64, x: u64|
                h.vertices@.contains_key(k) && #[trigger] side(g, k, from_parents).contains(x)
                    ==> #[trigger] side(*h, k, from_parents).contains(x),
        decreases ids@.len() - i,
    {
        let x = ids[i];
        let ghost before = *h;
        if let Some(mut xv) = h.vertices.remove(&x) {
            if from_parents {
                let mut l = vec_without(&xv.children, vr);
                l.push(vk);
                xv.children = l;
            } else {
                let mut l = vec_without(&xv.parents, vr);
                l.push(vk);
                xv.parents = l;
            }
            h.vertices.insert(x, xv);
        }
        let ghost mid = *h;
        proof {
            assert(mid.vertices@.dom() =~= before.vertices@.dom());
            assert forall|k: u64| #[trigger] mid.vertices@.contains_key(k) implies mid.vertex_ok(k) by {
                assert(before.vertex_ok(k));
                if k == x {
                    let bp = before.vertices@[k].parents@;
                    let bc = before.vertices@[k].children@;
                    crate::listops::lemma_filter_subset(bp, crate::listops::differs_from(vr));
                    crate::listops::lemma_filter_subset(bc, crate::listops::differs_from(vr));
                    assert forall|q: int| 0 <= q < mid.vertices@[k].parents@.len() implies #[trigger] mid.vertices@[k].parents@[q]
                        < mid.next_vertex_id by {
                        if !from_parents && q < bp.filter(crate::listops::differs_from(vr)).len() {
                            assert(bp.contains(bp.filter(crate::listops::differs_from(vr))[q]));
                        }
                    }
                    assert forall|q: int| 0 <= q < mid.vertices@[k].children@.len() implies #[trigger] mid.vertices@[k].children@[q]
                        < mid.next_vertex_id by {
                        if from_parents && q < bc.filter(crate::listops::differs_from(vr)).len() {
                            assert(bc.contains(bc.filter(crate::listops::differs_from(vr))[q]));
                        }
                    }
                }
            }
            assert(mid.wf());
            assert(depths_at_most(mid, d@ + i));
            if mid.vertices@.contains_key(x) {
                assert(side(mid, x, !from_parents).contains(vk)) by {
                    let sx = side(mid, x, !from_parents);
                    assert(sx[sx.len() - 1] == vk);
                }
            }
        }
        if from_parents {
            h.add_causal_relation(x, vk);
        } else {
            h.add_causal_relation(vk, x);
        }
        proof {
            let (a, b) = if from_parents {
                (x, vk)
            } else {
                (vk, x)
            };
            law_link_monotone(mid, *h, a, b);
            assert forall|k: u64| #[trigger] h.vertices@.contains_key(k) implies h.vertices@[k].depth
                <= d@ + i + 1 by {
                assert(mid.vertices@.contains_key(k));
                if mid.vertices@.contains_key(a) {
                    assert(mid.vertices@[a].depth <= d@ + i);
                }
                assert(depth_or_one(mid.vertices@, a) <= d@ + i);
                if !mid.fut(a).contains(b as usize) {
                    assert(crate::hypergraph::link_recorded(
                        mid.vertices@,
                        h.vertices@,
                        a,
                        b,
                        depth_or_one(mid.vertices@, a),
                    ));
                }
            }
            assert forall|k: u64| #![trigger h.fut(k)] #![trigger h.past(k)] g.fut(k).subset_of(
                h.fut(k),
            ) && g.past(k).subset_of(h.past(k)) by {
                assert(g.fut(k).subset_of(before.fut(k)) && g.past(k).subset_of(before.past(k)));
                assert(mid.fut(k) == before.fut(k) && mid.past(k) == before.past(k));
                assert(mid.fut(k).subset_of(h.fut(k)) && mid.past(k).subset_of(h.past(k)));
            }
            let other = !from_parents;
            assert forall|k: u64, y: u64|
                h.vertices@.contains_key(k) && #[trigger] side(mid, k, other).contains(
                    y,
                ) implies #[trigger] side(*h, k, other).contains(y) by {
                assert(mid.vertices@.contains_key(k));
                if !mid.fut(a).contains(b as usize) {
                    lemma_push_contains(side(mid, k, other), b, y);
                    lemma_push_contains(side(mid, k, other), a, y);
                }
            }
            assert forall|k: u64, y: u64|
                h.vertices@.contains_key(k) && #[trigger] side(mid, k, from_parents).contains(
                    y,
                ) implies #[trigger] side(*h, k, from_parents).contains(y) by {
                assert(mid.vertices@.contains_key(k));
                if !mid.fut(a).contains(b as usize) {
                    lemma_push_contains(side(mid, k, from_parents), b, y);
                    lemma_push_contains(side(mid, k, from_parents), a, y);
                }
            }
            assert forall|j: int|
                0 <= j < i + 1 && h.vertices@.contains_key(#[trigger] ids@[j]) implies side(
                *h,
                ids@[j],
                !from_parents,
            ).contains(vk) by {
                assert(mid.vertices@.contains_key(ids@[j]));
                if ids@[j] != x {
                    assert(before.vertices@.contains_key(ids@[j]));
                    assert(side(mid, ids@[j], !from_parents) == side(before, ids@[j], !from_parents));
                }
            }
            assert forall|k: u64, y: u64|
                h.vertices@.contains_key(k) && #[trigger] side(g, k, from_parents).contains(y)
                    implies #[trigger] side(*h, k, from_parents).contains(y) by {
                assert(before.vertices@.contains_key(k));
                assert(side(before, k, from_parents).contains(y));
                assert(side(mid, k, from_parents) == side(before, k, from_parents));
            }
        }
        proof {
            assert(links_swapped(before, mid, x, vr, vk, from_parents)) by {
                assert forall|k: u64| #[trigger]
                    mid.vertices@.contains_key(k) && k != x implies mid.vertices@[k] == before.vertices@[k] by {}
            }
            let t1 = ids@.take(i + 1);
            assert(t1.drop_last() =~= ids@.take(i as int));
            assert(t1.last() == x);
            if from_parents {
                assert(mid.causal_link_effect(*h, x, vk));
            } else {
                assert(mid.causal_link_effect(*h, vk, x));
            }
            assert(rewired_in_order(g, *h, t1, vr, vk, from_parents));
        }
        i = i + 1;
    }
    proof {
        assert(ids@.take(ids@.len() as int) == ids@);
    }
}

/// The shape vertex fusion needs: well formed; hyperedges over ids below the
/// vertex counter; depths with room for as many levels as any vertex has
/// links, plus two; and the second vertex of every hyperedge the rule may
/// fuse present.
pub open spec fn fusion_ready(h: Hypergraph, anchor: Option<u64>) -> bool {
    &&& h.wf()
    &&& h.edges_within(h.next_vertex_id)
    &&& forall|k: u64, j: u64|
        #![trigger h.vertices@[k], h.vertices@[j]]
        h.vertices@.contains_key(k) && h.vertices@.contains_key(j) ==> h.vertices@[k].depth
            + h.vertices@[j].parents@.len() + h.vertices@[j].children@.len() + 2 < usize::MAX
    &&& forall|e: u64| #[trigger]
        candidate(h, anchor, e) && h.hyperedges@[e].vertices@.len() >= 3 && (exists|f: u64|
            #[trigger] h.hyperedges@.contains_key(f) && !h.hyperedges@[f].vertices@.contains(
                h.hyperedges@[e].vertices@[1],
            )) ==> h.vertices@.contains_key(h.hyperedges@[e].vertices@[1])
}

/// What `vertex_fusion_rule` did, from `g` to `h`, by the record `rec`.
pub open spec fn fused(g: Hypergraph, h: Hypergraph, anchor: Option<u64>, rec: UndoRecord) -> bool {
    let vr = rec.target@[0];
    let vk = match rec.kept_vertex {
        Some(k) => k,
        None => 0,
    };
    let ps = g.vertices@[vr].parents@;
    let cs = g.vertices@[vr].children@;
    &&& rec.target@.len() == 1
    &&& rec.kept_vertex is Some
    &&& exists|e: u64| #[trigger]
        candidate(g, anchor, e) && g.hyperedges@[e].vertices@.len() >= 3
            && g.hyperedges@[e].vertices@[0] == vk && g.hyperedges@[e].vertices@[1] == vr
    &&& exists|f: u64| #[trigger]
        g.hyperedges@.contains_key(f) && !g.hyperedges@[f].vertices@.contains(vr)
    &&& g.vertices@.len() >= 3
    &&& g.vertices@.contains_key(vr)
    &&& rec.removed_vertex matches Some(v) && v.same_as(g.vertices@[vr])
    &&& copies_state(g, rec)
    &&& rec.old_parents@ == Map::<u64, Vec<u64>>::empty()
    &&& rec.old_children@ == Map::<u64, Vec<u64>>::empty()
    &&& rec.removed_edges@ == g.hyperedges@.restrict(holding(g.hyperedges@, vr))
    &&& h.hyperedges@ == g.hyperedges@.remove_keys(holding(g.hyperedges@, vr))
    &&& rec.added_vertices@ == Seq::<u64>::empty()
    &&& rec.added_edges@ == Seq::<u64>::empty()
    &&& rec.added_causal@ == Seq::<(u64, u64)>::empty()
    &&& h.vertices@.dom() == g.vertices@.dom().remove(vr)
    &&& h.causal_future@.dom() == g.causal_future@.dom().remove(vr)
    &&& h.causal_past@.dom() == g.causal_past@.dom().remove(vr)
    &&& forall|k: u64|
        #![trigger h.fut(k)]
        #![trigger h.past(k)]
        k != vr ==> g.fut(k).subset_of(h.fut(k)) && g.past(k).subset_of(h.past(k))
    &&& (vk != vr && g.causal_future@.contains_key(vr) && g.causal_past@.contains_key(vr)
        && g.causal_future@.contains_key(vk)) ==> g.fut(vr).subset_of(h.fut(vk))
    &&& (vk != vr && g.causal_future@.contains_key(vr) && g.causal_past@.contains_key(vr)
        && g.causal_past@.contains_key(vk)) ==> g.past(vr).subset_of(h.past(vk))
    &&& forall|i: int|
        0 <= i < ps.len() && h.vertices@.contains_key(#[trigger] ps[i])
            ==> h.vertices@[ps[i]].children@.contains(vk)
    &&& forall|i: int|
        0 <= i < cs.len() && h.vertices@.contains_key(#[trigger] cs[i])
            ==> h.vertices@[cs[i]].parents@.contains(vk)
    &&& fusion_links(g, h, vr, vk)
    &&& indexes_follow_removals(g, h, holding(g.hyperedges@, vr))
    &&& rec.old_total_interactions == Some(g.total_interactions)
    &&& rec.old_max_depth == Some(g.max_depth)
    &&& h.next_vertex_id == g.next_vertex_id
    &&& h.next_edge_id == g.next_edge_id
    &&& h.max_depth >= g.max_depth
    &&& h.wf()
    &&& rec.fits(h)
}

/// The vertices and causal sets of `h` are those of `g` after vertex `vr` is
/// fused into `vk`: the causal merge, then each parent of `vr` rewired, then
/// each child, and finally `vr` dropped with its causal sets.
pub open spec fn fusion_links(g: Hypergraph, h: Hypergraph, vr: u64, vk: u64) -> bool {
    let ps = g.vertices@[vr].parents@;
    let cs = g.vertices@[vr].children@;
    exists|g1: Hypergraph, g2: Hypergraph, g3: Hypergraph|
        #![trigger rewired_in_order(g1, g2, ps, vr, vk, true), rewired_in_order(g2, g3, cs, vr, vk, false)]
        g.causal_merge_effect(g1, vk, vr) && rewired_in_order(g1, g2, ps, vr, vk, true)
            && rewired_in_order(g2, g3, cs, vr, vk, false) && h.vertices@ == g3.vertices@.remove(vr)
            && h.causal_future@ == g3.causal_future@.remove(vr) && h.causal_past@
            == g3.causal_past@.remove(vr)
}

/// The active list, the per-vertex hyperedge lists and the interaction count
/// of `h` are those of `g` after `remove_hyperedge` on each hyperedge of
/// `hs`, in some order.
pub open spec fn indexes_follow_removals(g: Hypergraph, h: Hypergraph, hs: Set<u64>) -> bool {
    exists|a: Hypergraph, b: Hypergraph, ks: Seq<u64>|
        #![trigger removed_in_order(a, b, ks)]
        a.hyperedges@ == g.hyperedges@ && a.vertex_to_edges@ == g.vertex_to_edges@
            && a.active_edge_ids@ == g.active_edge_ids@ && a.total_interactions
            == g.total_interactions && a.wf() && ks.no_duplicates() && ks.to_set() == hs
            && removed_in_order(a, b, ks) && h.vertex_to_edges@ == b.vertex_to_edges@
            && h.active_edge_ids@ == b.active_edge_ids@ && h.total_interactions
            == b.total_interactions
}

/// Vertex fusion. Needs at least three vertices and a hyperedge; one is
/// picked at random (among those holding `anchor_vertex_id` when one is
/// given). When it has at least three vertices and some hyperedge does not
/// hold its second vertex `vr`, `vr` is fused into its first vertex `vk`:
/// the record keeps `vr`, a copy of every vertex and causal set, the
/// interaction count and the longest worldline; the causal sets of `vk` take in
/// those of `vr`; every parent of `vr` trades `vr` for `vk` among its
/// children and gets the relation to `vk`, every child of `vr` trades it
/// among its parents and gets the relation from `vk`; the hyperedges
/// holding `vr` are removed (the active list, the hyperedge lists and the
/// interaction count follow) and go to the record, and `vr` is removed with
/// its causal sets. `None`, and no change, otherwise.
pub fn vertex_fusion_rule(h: &mut Hypergraph, anchor_vertex_id: Option<u64>) -> (r: Option<
    UndoRecord,
>)
    requires
        fusion_ready(*old(h), anchor_vertex_id),
    ensures
        r is None ==> *final(h) == *old(h),
        old(h).vertices@.len() < 3 || !(exists|e: u64| #[trigger]
            candidate(*old(h), anchor_vertex_id, e)) ==> r is None,
        (old(h).vertices@.len() >= 3 && (exists|e: u64| #[trigger]
            candidate(*old(h), anchor_vertex_id, e)) && (forall|e: u64| #[trigger]
            candidate(*old(h), anchor_vertex_id, e) ==> old(h).hyperedges@[e].vertices@.len() >= 3
                && exists|f: u64| #[trigger]
                old(h).hyperedges@.contains_key(f) && !old(h).hyperedges@[f].vertices@.contains(
                    old(h).hyperedges@[e].vertices@[1],
                ))) ==> r is Some,
        r matches Some(rec) ==> fused(*old(h), *final(h), anchor_vertex_id, rec),
{
    let ghost g0 = *h;
    if h.vertices.len() < 3 || h.hyperedges.is_empty() {
        proof {
            if h.hyperedges@.len() == 0 {
                assert forall|e: u64| !#[trigger] candidate(g0, anchor_vertex_id, e) by {
                    if candidate(g0, anchor_vertex_id, e) {
                        assert(g0.hyperedges@.dom().contains(e));
                    }
                }
            }
        }
        return None;
    }
    let eid = match pick_edge(h, anchor_vertex_id) {
        Some(e) => e,
        None => {
            return None;
        },
    };
    let t: Vec<u64> = match h.hyperedges.get(&eid) {
        Some(edge) => copy_ids(&edge.vertices),
        None => Vec::new(),
    };
    if t.len() < 3 {
        return None;
    }
    let vk = t[0];
    let vr = t[1];
    if !has_edge_without(h, vr) {
        return None;
    }
    proof {
        assert(g0.hyperedges@[eid].vertices@ == t@);
        assert(g0.vertices@.contains_key(vr));
        assert(crate::hypergraph::ids_below(t@, g0.next_vertex_id)) by {
            assert(g0.hyperedges@.contains_key(eid));
        }
        assert(t@[0] < g0.next_vertex_id);
        assert(g0.vertex_ok(vr));
    }
    let removed_vertex = match h.vertices.get(&vr) {
        Some(x) => x.duplicate(),
        None => {
            return None;
        },
    };
    let old_vs = copy_vertices(&h.vertices);
    let old_cf = copy_sets(&h.causal_future);
    let old_cp = copy_sets(&h.causal_past);
    let total0 = h.total_interactions;
    let depth0 = h.max_depth;
    let parents = copy_ids(&removed_vertex.parents);
    let children = copy_ids(&removed_vertex.children);
    let ghost pl = parents@.len() as int;
    let ghost cl = children@.len() as int;
    let ghost d: int = usize::MAX - 2 - pl - cl;
    proof {
        assert forall|k: u64| #[trigger] g0.vertices@.contains_key(k) implies g0.vertices@[k].depth
            <= d by {
            assert(g0.vertices@[k].depth + g0.vertices@[vr].parents@.len()
                + g0.vertices@[vr].children@.len() + 2 < usize::MAX);
        }
        assert(g0.vertices@[vr].depth + pl + cl + 2 < usize::MAX);
    }
    h.merge_causal_identity(vk, vr);
    let ghost g1 = *h;
    rewire(h, &parents, vr, vk, true, Ghost(d));
    let ghost g2 = *h;
    rewire(h, &children, vr, vk, false, Ghost(d + pl));
    let ghost g3 = *h;
    let (removed_edges, removed_order) = remove_edges_holding(h, vr);
    let ghost g4 = *h;
    h.vertices.remove(&vr);
    h.causal_future.remove(&vr);
    h.causal_past.remove(&vr);
    let mut target: Vec<u64> = Vec::new();
    target.push(vr);
    let rec = UndoRecord {
        target,
        added_vertices: Vec::new(),
        added_edges: Vec::new(),
        added_causal: Vec::new(),
        removed_vertex: Some(removed_vertex),
        kept_vertex: Some(vk),
        removed_edges,
        old_causal_future: old_cf,
        old_causal_past: old_cp,
        old_parents: HashMap::new(),
        old_children: HashMap::new(),
        old_total_interactions: Some(total0),
        old_vertices: old_vs,
        old_max_depth: Some(depth0),
    };
    proof {
        let ps = g0.vertices@[vr].parents@;
        let cs = g0.vertices@[vr].children@;
        assert(rec.target@ =~= seq![vr]);
        assert(candidate(g0, anchor_vertex_id, eid));
        assert(g0.vertices@.len() >= 3);
        assert(h.vertices@.dom() =~= g0.vertices@.dom().remove(vr));
        assert(h.causal_future@.dom() =~= g0.causal_future@.dom().remove(vr));
        assert(h.causal_past@.dom() =~= g0.causal_past@.dom().remove(vr));
        assert forall|k: u64|
            #![trigger h.fut(k)]
            #![trigger h.past(k)]
            k != vr implies g0.fut(k).subset_of(h.fut(k)) && g0.past(k).subset_of(h.past(k)) by {
            assert(g0.fut(k).subset_of(g1.fut(k)));
            assert(g0.past(k).subset_of(g1.past(k)));
            assert(g1.fut(k).subset_of(g2.fut(k)) && g1.past(k).subset_of(g2.past(k)));
            assert(g2.fut(k).subset_of(g3.fut(k)) && g2.past(k).subset_of(g3.past(k)));
            assert(g4.fut(k) == g3.fut(k) && g4.past(k) == g3.past(k));
            assert(h.causal_future@.contains_key(k) == g4.causal_future@.contains_key(k));
            assert(h.causal_past@.contains_key(k) == g4.causal_past@.contains_key(k));
            assert(h.fut(k) == g4.fut(k) && h.past(k) == g4.past(k));
        }
        if vk != vr && g0.causal_future@.contains_key(vr) && g0.causal_past@.contains_key(vr) {
            if g0.causal_future@.contains_key(vk) {
                assert(g0.fut(vr).subset_of(g1.fut(vk)));
                assert(g1.fut(vk).subset_of(g2.fut(vk)));
                assert(g2.fut(vk).subset_of(g3.fut(vk)));
                assert(h.fut(vk) == g4.fut(vk));
            }
            if g0.causal_past@.contains_key(vk) {
                assert(g0.past(vr).subset_of(g1.past(vk)));
                assert(g1.past(vk).subset_of(g2.past(vk)));
                assert(g2.past(vk).subset_of(g3.past(vk)));
                assert(h.past(vk) == g4.past(vk));
            }
        }
        assert forall|i: int|
            0 <= i < ps.len() && h.vertices@.contains_key(#[trigger] ps[i]) implies h.vertices@[ps[i]].children@.contains(
            vk,
        ) by {
            assert(parents@[i] == ps[i]);
            assert(g2.vertices@.contains_key(ps[i]));
            assert(side(g2, parents@[i], false).contains(vk));
            assert(side(g3, ps[i], false).contains(vk));
        }
        assert forall|i: int|
            0 <= i < cs.len() && h.vertices@.contains_key(#[trigger] cs[i]) implies h.vertices@[cs[i]].parents@.contains(
            vk,
        ) by {
            assert(children@[i] == cs[i]);
            assert(side(g3, children@[i], true).contains(vk));
        }
        assert(h.wf()) by {
            assert forall|k: u64| #[trigger] h.vertices@.contains_key(k) implies h.vertex_ok(k) by {
                assert(g4.vertex_ok(k));
            }
        }
        assert(rec.fits(*h)) by {
            assert forall|k: u64| #[trigger]
                rec.old_causal_future@.contains_key(k) implies k < h.next_vertex_id && causal_set_ok(
                rec.old_causal_future@[k],
            ) by {
                assert(causal_set_ok(g0.causal_future@[k]));
            }
            assert forall|k: u64| #[trigger]
                rec.old_causal_past@.contains_key(k) implies k < h.next_vertex_id && causal_set_ok(
                rec.old_causal_past@[k],
            ) by {
                assert(causal_set_ok(g0.causal_past@[k]));
            }
            assert forall|k: u64| #[trigger] rec.old_vertices@.contains_key(k) implies {
                &&& k < h.next_vertex_id
                &&& rec.old_vertices@[k].id == k
                &&& ids_below(rec.old_vertices@[k].parents@, h.next_vertex_id)
                &&& ids_below(rec.old_vertices@[k].children@, h.next_vertex_id)
            } by {
                assert(g0.vertex_ok(k));
            }
            assert forall|e: u64| #[trigger] rec.removed_edges@.contains_key(e) implies e
                < h.next_edge_id && rec.removed_edges@[e].id == e by {
                assert(g0.edge_ok(e));
            }
        }
        assert(g3.hyperedges@ == g0.hyperedges@);
        assert(removed_in_order(g3, g4, removed_order@));
        assert(indexes_follow_removals(g0, *h, holding(g0.hyperedges@, vr)));
        assert(parents@ == ps && children@ == cs);
        assert(h.vertices@ =~= g3.vertices@.remove(vr));
        assert(h.causal_future@ =~= g3.causal_future@.remove(vr));
        assert(h.causal_past@ =~= g3.causal_past@.remove(vr));
        assert(fusion_links(g0, *h, vr, vk));
        assert(fused(g0, *h, anchor_vertex_id, rec));
    }
    Some(rec)
}

impl UndoRecord {
    /// What the record holds fits `h`: removed hyperedges keyed by their own
    /// ids below the edge counter, the removed vertex and every recorded
    /// causal set and adjacency list within the vertex counter, causal sets
    /// in good order.
    pub open spec fn fits(self, h: Hypergraph) -> bool {
        let n = h.next_vertex_id;
        &&& edges_fit(self.removed_edges@, h.next_edge_id)
        &&& (self.removed_vertex matches Some(v) ==> {
            &&& v.id < n
            &&& ids_below(v.parents@, n)
            &&& ids_below(v.children@, n)
        })
        &&& forall|k: u64| #[trigger]
            self.old_causal_future@.contains_key(k) ==> k < n && causal_set_ok(
                self.old_causal_future@[k],
            )
        &&& forall|k: u64| #[trigger]
            self.old_causal_past@.contains_key(k) ==> k < n && causal_set_ok(
                self.old_causal_past@[k],
            )
        &&& forall|k: u64| #[trigger]
            self.old_parents@.contains_key(k) ==> ids_below(self.old_parents@[k]@, n)
        &&& forall|k: u64| #[trigger]
            self.old_children@.contains_key(k) ==> ids_below(self.old_children@[k]@, n)
        &&& forall|k: u64| #[trigger]
            self.old_vertices@.contains_key(k) ==> {
                &&& k < n
                &&& self.old_vertices@[k].id == k
                &&& ids_below(self.old_vertices@[k].parents@, n)
                &&& ids_below(self.old_vertices@[k].children@, n)
            }
    }

    /// The record holds nothing.
    pub open spec fn is_blank(self) -> bool {
        &&& self.target@ == Seq::<u64>::empty()
        &&& self.added_vertices@ == Seq::<u64>::empty()
        &&& self.added_edges@ == Seq::<u64>::empty()
        &&& self.added_causal@ == Seq::<(u64, u64)>::empty()
        &&& self.removed_vertex is None
        &&& self.kept_vertex is None
        &&& self.removed_edges@ == Map::<u64, Hyperedge>::empty()
        &&& self.old_causal_future@ == Map::<u64, FixedBitSet>::empty()
        &&& self.old_causal_past@ == Map::<u64, FixedBitSet>::empty()
        &&& self.old_parents@ == Map::<u64, Vec<u64>>::empty()
        &&& self.old_children@ == Map::<u64, Vec<u64>>::empty()
        &&& self.old_total_interactions is None
        &&& self.old_vertices@ == Map::<u64, Vertex>::empty()
        &&& self.old_max_depth is None
    }
}

impl Default for UndoRecord {
    fn default() -> (r: UndoRecord)
        ensures
            r.is_blank(),
    {
        UndoRecord {
            target: Vec::new(),
            added_vertices: Vec::new(),
            added_edges: Vec::new(),
            added_causal: Vec::new(),
            removed_vertex: None,
            kept_vertex: None,
            removed_edges: HashMap::new(),
            old_causal_future: HashMap::new(),
            old_causal_past: HashMap::new(),
            old_parents: HashMap::new(),
            old_children: HashMap::new(),
            old_total_interactions: None,
            old_vertices: HashMap::new(),
            old_max_depth: None,
        }
    }
}

/// The vertices a rewrite touched: those it added and the one it removed.
pub fn touched_vertices(last: &Option<UndoRecord>) -> (r: HashSet<u64>)
    ensures
        forall|v: u64| #[trigger]
            r@.contains(v) <==> (last matches Some(rec) && (rec.added_vertices@.contains(v) || (
            rec.removed_vertex matches Some(x) && x.id == v))),
{
    let mut touched: HashSet<u64> = HashSet::new();
    if let Some(rec) = last {
        let mut i: usize = 0;
        while i < rec.added_vertices.len()
            invariant
                i <= rec.added_vertices@.len(),
                forall|v: u64| #[trigger] touched@.contains(v) <==> rec.added_vertices@.take(i as int).contains(v),
            decreases rec.added_vertices@.len() - i,
        {
            let v = rec.added_vertices[i];
            touched.insert(v);
            proof {
                let t1 = rec.added_vertices@.take(i + 1);
                assert(t1 == rec.added_vertices@.take(i as int).push(v));
                assert forall|x: u64| #[trigger] touched@.contains(x) <==> t1.contains(x) by {
                    if x == v {
                        assert(t1[i as int] == v);
                    } else if t1.contains(x) {
                        let t = choose|t: int| 0 <= t < t1.len() && t1[t] == x;
                        assert(rec.added_vertices@.take(i as int)[t] == x);
                    } else if touched@.contains(x) {
                        let t = choose|t: int| 0 <= t < i && rec.added_vertices@.take(i as int)[t] == x;
                        assert(t1[t] == x);
                    }
                }
            }
            i = i + 1;
        }
        proof {
            assert(rec.added_vertices@.take(rec.added_vertices@.len() as int) == rec.added_vertices@);
        }
        if let Some(x) = &rec.removed_vertex {
            touched.insert(x.id);
        }
    }
    touched
}

/// Every vertex of `h` lies on at least one hyperedge, so the edge-creation
/// rule anchored at any of them rewrites the graph.
pub open spec fn every_vertex_on_edge(h: Hypergraph) -> bool {
    forall|v: u64| #[trigger]
        h.vertices@.contains_key(v) ==> exists|e: u64| #[trigger] candidate(h, Some(v), e)
}

/// Forces a defect: up to `max_tries` times, draws a vertex with `rng` and
/// applies the edge-creation rule anchored there, stopping at the first
/// rewrite, which it returns with its anchor. When every try fails the
/// graph is unchanged.
pub fn inject_defect(h: &mut Hypergraph, rng: &mut SmallRng, p_rule_ppm: u32, max_tries: usize) -> (r:
    Option<(u64, UndoRecord)>)
    requires
        rule_ready(*old(h)),
    ensures
        r is None ==> *final(h) == *old(h),
        r matches Some((v, rec)) ==> old(h).vertices@.contains_key(v) && edge_created(
            *old(h),
            *final(h),
            Some(v),
            rec,
        ),
        old(h).vertices@.len() == 0 || max_tries == 0 ==> r is None,
        old(h).vertices@.len() > 0 && max_tries > 0 && every_vertex_on_edge(*old(h)) ==> r is Some,
        r matches Some((v, rec)) ==> (p_rule_ppm == 0 ==> rec.added_edges@.len() == 1),
        r matches Some((v, rec)) ==> (p_rule_ppm >= PPM && old(h).vertices@.len() >= 3
            ==> rec.added_edges@.len() == 2 || some_pair_related(*old(h))),
{
    if h.vertices.len() == 0 {
        return None;
    }
    let ids = keys_of(&h.vertices);
    let ghost g0 = *h;
    let mut t: usize = 0;
    while t < max_tries
        invariant
            *h == g0,
            g0 == *old(h),
            rule_ready(g0),
            ids@.to_set() == g0.vertices@.dom(),
            ids@.len() == g0.vertices@.dom().len(),
            g0.vertices@.len() > 0,
            t > 0 ==> !every_vertex_on_edge(g0),
        decreases max_tries - t,
    {
        proof {
            vstd::std_specs::hash::axiom_hashmap_view_finite_dom(g0.vertices);
        }
        let vid = match rng_choose(rng, &ids) {
            Some(x) => x,
            None => {
                return None;
            },
        };
        proof {
            assert(ids@.to_set().contains(vid));
        }
        match edge_creation_rule(h, Some(vid), p_rule_ppm) {
            Some(rec) => {
                return Some((vid, rec));
            },
            None => {
                proof {
                    assert(g0.vertices@.contains_key(vid));
                }
            },
        }
        t = t + 1;
    }
    None
}

/// Links `u` causally to `v` and joins the two by a new hyperedge.
fn link_and_join(h: &mut Hypergraph, u: u64, v: u64) -> (e: u64)
    requires
        old(h).wf(),
        u < old(h).next_vertex_id,
        v < old(h).next_vertex_id,
        depth_or_one(old(h).vertices@, u) < usize::MAX,
        old(h).causal_future@.contains_key(u),
        old(h).fut(v).contains(v as usize),
        old(h).next_edge_id + 1 < u64::MAX,
        old(h).total_interactions + 1 <= usize::MAX,
    ensures
        final(h).wf(),
        e == old(h).next_edge_id,
        final(h).next_edge_id == old(h).next_edge_id + 1,
        final(h).next_vertex_id == old(h).next_vertex_id,
        final(h).hyperedges@.dom() == old(h).hyperedges@.dom().insert(e),
        final(h).hyperedges@.remove(e) == old(h).hyperedges@,
        final(h).hyperedges@[e].vertices@ == seq![u, v],
        final(h).fut(u).contains(v as usize),
        forall|k: u64| #![trigger final(h).fut(k)] old(h).fut(k).subset_of(final(h).fut(k)),
        final(h).causal_future@.dom() == old(h).causal_future@.dom(),
        final(h).vertices@.dom() == old(h).vertices@.dom(),
        forall|k: u64| #[trigger]
            final(h).vertices@.contains_key(k) && k != v ==> final(h).vertices@[k].depth == old(h).vertices@[k].depth,
        final(h).vertices@.contains_key(v) ==> final(h).vertices@[v].depth <= old(h).vertices@[v].depth
            || final(h).vertices@[v].depth == depth_or_one(old(h).vertices@, u) + 1,
        final(h).total_interactions <= old(h).total_interactions + 1,
        old(h).causal_link_effect(*final(h), u, v),
{
    let ghost g0 = *h;
    h.add_causal_relation(u, v);
    proof {
        law_link_relates(g0, *h, u, v);
        law_link_monotone(g0, *h, u, v);
    }
    let ghost g1 = *h;
    let mut vs: Vec<u64> = Vec::new();
    vs.push(u);
    vs.push(v);
    proof {
        lemma_lonely_pairs_bound(g1.incidence(), vs@);
        assert(pair_count(0) == 0);
        assert(pair_count(1) == 0);
        assert(pair_count(2) == 1);
    }
    let edge = h.add_hyperedge(vs);
    proof {
        assert(h.fut(u) == g1.fut(u));
        assert forall|k: u64| #![trigger h.fut(k)] g0.fut(k).subset_of(h.fut(k)) by {
            assert(h.fut(k) == g1.fut(k));
            assert(g0.fut(k).subset_of(g1.fut(k)));
        }
        assert(h.hyperedges@[edge.id].vertices@ == seq![u, v]);
        assert forall|k: u64| #[trigger] h.fut(k) == g1.fut(k) && h.past(k) == g1.past(k) by {}
        assert(g0.causal_link_effect(*h, u, v));
    }
    edge.id
}

/// The vertices and causal sets of `h` are those of `g` after `count`
/// calls of `add_vertex`, making the ids `n` to `n + count - 1`.
pub open spec fn vertices_made_from(g: Hypergraph, h: Hypergraph, n: u64, count: nat) -> bool
    decreases count,
{
    if count == 0 {
        same_causal_state(g, h)
    } else {
        exists|mid: Hypergraph|
            #![trigger vertex_made(mid, h, (n + count - 1) as u64)]
            vertices_made_from(g, mid, n, (count - 1) as nat) && vertex_made(mid, h, (n + count - 1) as u64)
    }
}

/// The vertices and causal sets of `h` are those of `g` after four new
/// vertices `n` to `n + 3` and the six links of the simplex over them.
pub open spec fn nucleation_links(g: Hypergraph, h: Hypergraph, n: u64) -> bool {
    exists|g4: Hypergraph|
        #![trigger linked_in_order(g4, h, simplex_pairs(n))]
        vertices_made_from(g, g4, n, 4) && linked_in_order(g4, h, simplex_pairs(n))
}

/// The vertex pairs of a four-vertex simplex over the ids `n` to `n + 3`,
/// in the order they are linked.
pub open spec fn simplex_pairs(n: u64) -> Seq<(u64, u64)> {
    seq![
        (n, (n + 1) as u64),
        (n, (n + 2) as u64),
        (n, (n + 3) as u64),
        ((n + 1) as u64, (n + 2) as u64),
        ((n + 1) as u64, (n + 3) as u64),
        ((n + 2) as u64, (n + 3) as u64),
    ]
}

/// The offsets of the `k`-th simplex pair.
fn simplex_pair(k: usize) -> (r: (u64, u64))
    requires
        k < 6,
    ensures
        r.0 < r.1 < 4,
        simplex_pairs(0)[k as int] == r,
{
    match k {
        0 => (0, 1),
        1 => (0, 2),
        2 => (0, 3),
        3 => (1, 2),
        4 => (1, 3),
        _ => (2, 3),
    }
}

/// Spontaneous nucleation: four new vertices, each pair of them linked in
/// order of creation and joined by a hyperedge of its own.
pub fn nucleate(h: &mut Hypergraph) -> (ids: Vec<u64>)
    requires
        old(h).wf(),
        old(h).next_vertex_id + 5 < ID_LIMIT,
        old(h).next_edge_id + 7 < u64::MAX,
        old(h).total_interactions + 6 <= usize::MAX,
    ensures
        final(h).wf(),
        ids@ == seq![
            old(h).next_vertex_id,
            (old(h).next_vertex_id + 1) as u64,
            (old(h).next_vertex_id + 2) as u64,
            (old(h).next_vertex_id + 3) as u64,
        ],
        final(h).next_vertex_id == old(h).next_vertex_id + 4,
        final(h).next_edge_id == old(h).next_edge_id + 6,
        final(h).vertices@.dom() == old(h).vertices@.dom() + ids@.to_set(),
        forall|k: u64| #[trigger]
            final(h).hyperedges@.contains_key(k) <==> (old(h).hyperedges@.contains_key(k) || (old(
                h,
            ).next_edge_id <= k < old(h).next_edge_id + 6)),
        forall|k: u64| #[trigger]
            old(h).hyperedges@.contains_key(k) ==> final(h).hyperedges@[k] == old(h).hyperedges@[k],
        forall|k: int|
            0 <= k < 6 ==> final(h).hyperedges@[(old(h).next_edge_id + k) as u64].vertices@ == seq![
                (#[trigger] simplex_pairs(old(h).next_vertex_id)[k]).0,
                simplex_pairs(old(h).next_vertex_id)[k].1,
            ],
        forall|k: int|
            0 <= k < 6 ==> final(h).fut((#[trigger] simplex_pairs(old(h).next_vertex_id)[k]).0).contains(
                simplex_pairs(old(h).next_vertex_id)[k].1 as usize,
            ),
        forall|k: u64| #![trigger final(h).fut(k)] old(h).fut(k).subset_of(final(h).fut(k)),
        nucleation_links(*old(h), *final(h), old(h).next_vertex_id),
{
    let ghost g0 = *h;
    let n = h.next_vertex_id;
    let e0 = h.next_edge_id;
    let mut ids: Vec<u64> = Vec::new();
    let mut i: usize = 0;
    while i < 4
        invariant
            i <= 4,
            g0.wf(),
            h.wf(),
            n == g0.next_vertex_id,
            n + 5 < ID_LIMIT,
            h.next_vertex_id == n + i,
            h.next_edge_id == e0,
            e0 == g0.next_edge_id,
            h.hyperedges@ == g0.hyperedges@,
            h.total_interactions == g0.total_interactions,
            ids@.len() == i,
            forall|t: int| 0 <= t < i ==> #[trigger] ids@[t] == n + t,
            h.vertices@.dom() == g0.vertices@.dom() + ids@.to_set(),
            forall|t: int| 0 <= t < i ==> h.vertices@[#[trigger] ids@[t]].depth == 1,
            forall|t: int| 0 <= t < i ==> h.fut(#[trigger] ids@[t]).contains(ids@[t] as usize),
            forall|k: u64| #![trigger h.fut(k)] g0.fut(k).subset_of(h.fut(k)),
            forall|k: u64| #[trigger] g0.vertices@.contains_key(k) ==> !ids@.contains(k),
            forall|k: u64| #[trigger] g0.vertices@.contains_key(k) ==> k < n,
            vertices_made_from(g0, *h, n, i as nat),
        decreases 4 - i,
    {
        let ghost before = *h;
        let ghost ids0 = ids@;
        let v = h.add_vertex();
        proof {
            assert(vertex_made(before, *h, (n + (i + 1) - 1) as u64)) by {
                assert(h.vertices@[v.id].same_as(v));
            }
            assert(vertices_made_from(g0, *h, n, (i + 1) as nat));
            assert(v.id == n + i);
            assert forall|k: u64| #![trigger h.fut(k)] g0.fut(k).subset_of(h.fut(k)) by {
                if k != v.id {
                    assert(h.causal_future@.remove(v.id) == before.causal_future@);
                    if before.causal_future@.contains_key(k) {
                        assert(h.causal_future@[k] == before.causal_future@.remove(v.id)[k]);
                    }
                    assert(h.fut(k) == before.fut(k));
                }
            }
        }
        ids.push(v.id);
        proof {
            assert forall|t: int| 0 <= t < i + 1 implies h.fut(#[trigger] ids@[t]).contains(ids@[t] as usize) by {
                if t < i {
                    assert(before.fut(ids@[t]).contains(ids@[t] as usize));
                    assert(h.causal_future@.remove(v.id) == before.causal_future@);
                    assert(h.causal_future@[ids@[t]] == before.causal_future@[ids@[t]]);
                }
            }
            assert forall|t: int| 0 <= t < i + 1 implies h.vertices@[#[trigger] ids@[t]].depth == 1 by {
                if t < i {
                    assert(h.vertices@.remove(v.id)[ids@[t]] == before.vertices@[ids@[t]]);
                }
            }
            assert(ids@ == ids0.push(v.id));
            ids0.lemma_push_to_set_commute(v.id);
            assert(h.vertices@.dom() =~= g0.vertices@.dom() + ids@.to_set());
            assert forall|k: u64| #[trigger] g0.vertices@.contains_key(k) implies !ids@.contains(k) by {
                if ids@.contains(k) {
                    let t = choose|t: int| 0 <= t < ids@.len() && ids@[t] == k;
                }
            }
        }
        i = i + 1;
    }
    let ghost g4 = *h;
    proof {
        assert(ids@ == seq![n, (n + 1) as u64, (n + 2) as u64, (n + 3) as u64]);
        assert(simplex_pairs(n).take(0) =~= Seq::<(u64, u64)>::empty());
    }
    let mut k: usize = 0;
    while k < 6
        invariant
            k <= 6,
            g0.wf(),
            h.wf(),
            n == g0.next_vertex_id,
            n + 5 < ID_LIMIT,
            h.next_vertex_id == n + 4,
            h.next_edge_id == e0 + k,
            e0 == g0.next_edge_id,
            e0 + 7 < u64::MAX,
            h.total_interactions <= g0.total_interactions + k,
            g0.total_interactions + 6 <= usize::MAX,
            ids@ == seq![n, (n + 1) as u64, (n + 2) as u64, (n + 3) as u64],
            h.vertices@.dom() == g0.vertices@.dom() + ids@.to_set(),
            h.causal_future@.dom().contains(n) && h.causal_future@.dom().contains((n + 1) as u64)
                && h.causal_future@.dom().contains((n + 2) as u64),
            forall|t: int| 0 <= t < 4 ==> h.fut(#[trigger] ids@[t]).contains(ids@[t] as usize),
            forall|t: int| 0 <= t < 4 ==> h.vertices@[#[trigger] ids@[t]].depth <= t + 1,
            forall|x: u64| #![trigger h.fut(x)] g0.fut(x).subset_of(h.fut(x)),
            forall|x: u64| #[trigger]
                h.hyperedges@.contains_key(x) <==> (g0.hyperedges@.contains_key(x) || (e0 <= x < e0 + k)),
            forall|x: u64| #[trigger] g0.hyperedges@.contains_key(x) ==> h.hyperedges@[x] == g0.hyperedges@[x],
            forall|q: int|
                0 <= q < k ==> h.hyperedges@[(e0 + q) as u64].vertices@ == seq![
                    (#[trigger] simplex_pairs(n)[q]).0,
                    simplex_pairs(n)[q].1,
                ],
            forall|q: int| 0 <= q < k ==> h.fut((#[trigger] simplex_pairs(n)[q]).0).contains(simplex_pairs(n)[q].1 as usize),
            vertices_made_from(g0, g4, n, 4),
            linked_in_order(g4, *h, simplex_pairs(n).take(k as int)),
        decreases 6 - k,
    {
        let (a, b) = simplex_pair(k);
        let u = n + a;
        let v = n + b;
        let ghost before = *h;
        proof {
            assert(simplex_pairs(n)[k as int] == (u, v));
            assert(ids@[a as int] == u && ids@[b as int] == v);
            assert(before.vertices@.contains_key(u)) by {
                assert(ids@.to_set().contains(u));
            }
            assert(depth_or_one(before.vertices@, u) <= 3);
            assert(before.fut(u).contains(u as usize));
            assert(before.causal_future@.contains_key(u));
        }
        let e = link_and_join(h, u, v);
        proof {
            assert(before.vertices@[ids@[a as int]].depth <= a + 1);
            assert(depth_or_one(before.vertices@, u) <= a + 1);
            assert forall|t: int| 0 <= t < 4 implies h.vertices@[#[trigger] ids@[t]].depth <= t + 1 by {
                assert(ids@.to_set().contains(ids@[t]));
                assert(before.vertices@.contains_key(ids@[t]));
                assert(h.vertices@.contains_key(ids@[t]));
                assert(before.vertices@[ids@[t]].depth <= t + 1);
                if ids@[t] == v {
                    assert(t == b);
                } else {
                    assert(h.vertices@[ids@[t]].depth == before.vertices@[ids@[t]].depth);
                }
            }
            assert forall|t: int| 0 <= t < 4 implies h.fut(#[trigger] ids@[t]).contains(ids@[t] as usize) by {
                assert(before.fut(ids@[t]).subset_of(h.fut(ids@[t])));
            }
            assert forall|x: u64| #[trigger] h.hyperedges@.contains_key(x) <==> (g0.hyperedges@.contains_key(x) || (
            e0 <= x < e0 + k + 1)) by {}
            assert forall|x: u64| #[trigger] g0.hyperedges@.contains_key(x) implies h.hyperedges@[x] == g0.hyperedges@[x] by {
                assert(h.hyperedges@.remove(e)[x] == before.hyperedges@[x]);
            }
            assert forall|q: int|
                0 <= q < k + 1 implies h.hyperedges@[(e0 + q) as u64].vertices@ == seq![
                (#[trigger] simplex_pairs(n)[q]).0,
                simplex_pairs(n)[q].1,
            ] by {
                if q < k {
                    assert(h.hyperedges@.remove(e)[(e0 + q) as u64] == before.hyperedges@[(e0 + q) as u64]);
                }
            }
            assert forall|q: int| 0 <= q < k + 1 implies h.fut((#[trigger] simplex_pairs(n)[q]).0).contains(
                simplex_pairs(n)[q].1 as usize,
            ) by {
                if q < k {
                    assert(before.fut(simplex_pairs(n)[q].0).subset_of(h.fut(simplex_pairs(n)[q].0)));
                }
            }
        }
        proof {
            lemma_linked_push(g4, before, *h, simplex_pairs(n).take(k as int), (u, v));
            assert(simplex_pairs(n).take(k + 1) =~= simplex_pairs(n).take(k as int).push((u, v)));
        }
        k = k + 1;
    }
    proof {
        assert(simplex_pairs(n).take(6) =~= simplex_pairs(n));
    }
    ids
}

/// How many steps a planned causal bridge waits before it is laid.
pub const BRIDGE_DELAY: usize = 20;

/// A causal bridge from `bridge.0` to `bridge.1` planned at step `planned`:
/// once at least `BRIDGE_DELAY` steps have passed by `now`, it links the two
/// when both are still vertices, and the plan is dropped (`false`);
/// before that nothing changes and the plan is kept (`true`).
pub fn settle_bridge(h: &mut Hypergraph, bridge: (u64, u64), planned: usize, now: usize) -> (kept: bool)
    requires
        rule_ready(*old(h)),
    ensures
        kept <==> now < planned + BRIDGE_DELAY,
        !(!kept && old(h).vertices@.contains_key(bridge.0) && old(h).vertices@.contains_key(bridge.1))
            ==> *final(h) == *old(h),
        !kept && old(h).vertices@.contains_key(bridge.0) && old(h).vertices@.contains_key(bridge.1) ==> {
            &&& final(h).wf()
            &&& old(h).causal_link_effect(*final(h), bridge.0, bridge.1)
            &&& final(h).hyperedges@ == old(h).hyperedges@
        },
{
    if now.saturating_sub(planned) < BRIDGE_DELAY {
        return true;
    }
    let (u, v) = bridge;
    if h.vertices.contains_key(&u) && h.vertices.contains_key(&v) {
        proof {
            assert(h.vertex_ok(u) && h.vertex_ok(v));
        }
        h.add_causal_relation(u, v);
    }
    false
}

} // verus!
