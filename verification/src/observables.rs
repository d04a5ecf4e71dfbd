//! Integer observables of the causal hypergraph: interval sizes, label
//! frustration, neighbourhood coherence counts and triangle counts.
use crate::bitset::{
    bits_of, bitset_clone, bitset_contains, bitset_count_ones, bitset_intersect_with, bitset_ones,
};
use fixedbitset::FixedBitSet;
use std::collections::HashMap;
use crate::hypergraph::{pair_count, Hypergraph};
use crate::listops::{keys_of, lemma_filter_card, set_items};
use std::collections::HashSet;
use crate::random::thread_choose_two;
use vstd::prelude::*;

verus! {

/// |I(u, v)| = |J+(u) ∩ J-(v)|: how many ids lie both in the causal future of
/// `u_id` and in the causal past of `v_id`.
pub fn causal_interval_size(h: &Hypergraph, u_id: u64, v_id: u64) -> (r: usize)
    requires
        h.wf(),
    ensures
        r as nat == h.fut(u_id).intersect(h.past(v_id)).len(),
{
    match h.causal_future.get(&u_id) {
        Some(f) => match h.causal_past.get(&v_id) {
            Some(p) => {
                let mut b = bitset_clone(f);
                bitset_intersect_with(&mut b, p);
                bitset_count_ones(&b)
            },
            None => {
                proof {
                    assert(h.fut(u_id).intersect(h.past(v_id)) =~= Set::<usize>::empty());
                }
                0
            },
        },
        None => {
            proof {
                assert(h.fut(u_id).intersect(h.past(v_id)) =~= Set::<usize>::empty());
            }
            0
        },
    }
}

/// Among the vertices of `vs` present in `h`, two carry different labels.
pub open spec fn mixed_labels(h: Hypergraph, vs: Seq<u64>) -> bool {
    exists|i: int, j: int|
        0 <= i < vs.len() && 0 <= j < vs.len() && h.vertices@.contains_key(#[trigger] vs[i])
            && h.vertices@.contains_key(#[trigger] vs[j]) && h.vertices@[vs[i]].label
            != h.vertices@[vs[j]].label
}

/// The hyperedges of `h` whose present vertices carry more than one label.
pub open spec fn frustrated_edges(h: Hypergraph) -> Set<u64> {
    h.hyperedges@.dom().filter(|e: u64| mixed_labels(h, h.hyperedges@[e].vertices@))
}

/// A hyperedge of `h` counts towards its label frustration exactly when two
/// of its present vertices, at any positions, carry different labels.
pub proof fn law_frustrated_edge(h: Hypergraph, e: u64)
    ensures
        frustrated_edges(h).contains(e) <==> h.hyperedges@.contains_key(e) && exists|i: int, j: int|
            #![trigger h.hyperedges@[e].vertices@[i], h.hyperedges@[e].vertices@[j]]
            0 <= i < h.hyperedges@[e].vertices@.len() && 0 <= j < h.hyperedges@[e].vertices@.len()
                && h.vertices@.contains_key(h.hyperedges@[e].vertices@[i])
                && h.vertices@.contains_key(h.hyperedges@[e].vertices@[j])
                && h.vertices@[h.hyperedges@[e].vertices@[i]].label
                != h.vertices@[h.hyperedges@[e].vertices@[j]].label,
{
}

/// Whether the present vertices of `vs` carry more than one label.
fn labels_mixed(h: &Hypergraph, vs: &Vec<u64>) -> (r: bool)
    ensures
        r == mixed_labels(*h, vs@),
{
    let mut first: Option<i32> = None;
    let ghost mut at: int = 0;
    let mut i: usize = 0;
    while i < vs.len()
        invariant
            i <= vs@.len(),
            first is None ==> forall|j: int| 0 <= j < i ==> !h.vertices@.contains_key(#[trigger] vs@[j]),
            first matches Some(l) ==> 0 <= at < i && h.vertices@.contains_key(vs@[at])
                && h.vertices@[vs@[at]].label == l && forall|j: int|
                0 <= j < i && h.vertices@.contains_key(#[trigger] vs@[j]) ==> h.vertices@[vs@[j]].label
                    == l,
        decreases vs@.len() - i,
    {
        match h.vertices.get(&vs[i]) {
            Some(x) => match first {
                Some(l) => {
                    if x.label != l {
                        proof {
                            assert(h.vertices@.contains_key(vs@[i as int]));
                            assert(h.vertices@.contains_key(vs@[at]));
                        }
                        return true;
                    }
                },
                None => {
                    first = Some(x.label);
                    proof {
                        at = i as int;
                    }
                },
            },
            None => {},
        }
        i = i + 1;
    }
    proof {
        if mixed_labels(*h, vs@) {
            let (a, b) = choose|a: int, b: int|
                0 <= a < vs@.len() && 0 <= b < vs@.len() && h.vertices@.contains_key(
                    #[trigger] vs@[a],
                ) && h.vertices@.contains_key(#[trigger] vs@[b]) && h.vertices@[vs@[a]].label
                    != h.vertices@[vs@[b]].label;
            assert(h.vertices@.contains_key(vs@[a]));
        }
    }
    false
}

/// The number of hyperedges whose present vertices carry more than one
/// label.
pub fn label_frustration(h: &Hypergraph) -> (r: usize)
    ensures
        r as nat == frustrated_edges(*h).len(),
{
    let ks = keys_of(&h.hyperedges);
    let ghost pred = |e: u64| mixed_labels(*h, h.hyperedges@[e].vertices@);
    let mut count: usize = 0;
    let mut i: usize = 0;
    while i < ks.len()
        invariant
            i <= ks@.len(),
            ks@.to_set() == h.hyperedges@.dom(),
            pred == (|e: u64| mixed_labels(*h, h.hyperedges@[e].vertices@)),
            count as nat == ks@.take(i as int).filter(pred).len(),
            count <= i,
        decreases ks@.len() - i,
    {
        let e = ks[i];
        proof {
            assert(ks@.take(i + 1) == ks@.take(i as int).push(e));
            ks@.take(i as int).lemma_filter_push(e, pred);
            assert(ks@.to_set().contains(e));
        }
        let mixed = match h.hyperedges.get(&e) {
            Some(edge) => labels_mixed(h, &edge.vertices),
            None => false,
        };
        if mixed {
            count = count + 1;
        }
        i = i + 1;
    }
    proof {
        assert(ks@.take(ks@.len() as int) == ks@);
        lemma_filter_card(ks@, pred);
        assert(ks@.to_set().filter(pred) =~= frustrated_edges(*h));
    }
    count
}

/// `s` is the size of the causal interval between two distinct vertices of
/// `h`, the second in the causal future of the first.
pub open spec fn related_interval(h: Hypergraph, s: usize) -> bool {
    exists|u: u64, v: u64|
        #![trigger h.fut(u).intersect(h.past(v))]
        u != v && h.vertices@.contains_key(u) && h.vertices@.contains_key(v) && h.fut(u).contains(
            v as usize,
        ) && s as nat == h.fut(u).intersect(h.past(v)).len()
}

/// Each pair of `draws` is two distinct vertices of `h`.
pub open spec fn valid_draws(h: Hypergraph, draws: Seq<(u64, u64)>) -> bool {
    forall|i: int|
        0 <= i < draws.len() ==> {
            &&& (#[trigger] draws[i]).0 != draws[i].1
            &&& h.vertices@.contains_key(draws[i].0)
            &&& h.vertices@.contains_key(draws[i].1)
        }
}

/// In the order of `draws`: the causal interval size of each pair whose
/// second vertex lies in the causal future of the first, when that size is
/// at least `min_interval`.
pub open spec fn kept_interval_sizes(h: Hypergraph, draws: Seq<(u64, u64)>, min_interval: usize) -> Seq<usize>
    decreases draws.len(),
{
    if draws.len() == 0 {
        Seq::empty()
    } else {
        let before = kept_interval_sizes(h, draws.drop_last(), min_interval);
        let (u, v) = draws.last();
        let size = h.fut(u).intersect(h.past(v)).len();
        if h.fut(u).contains(v as usize) && size >= min_interval {
            before.push(size as usize)
        } else {
            before
        }
    }
}

/// Draws `samples` random pairs of distinct vertices and keeps, for each
/// pair whose second lies in the causal future of the first, the size of
/// their causal interval when it is at least `min_interval`. Nothing is
/// drawn when `h` has fewer than two vertices.
pub fn large_interval_sizes(h: &Hypergraph, samples: usize, min_interval: usize) -> (r: Vec<usize>)
    requires
        h.wf(),
    ensures
        r@.len() <= samples,
        h.vertices@.len() < 2 ==> r@.len() == 0,
        forall|i: int| 0 <= i < r@.len() ==> #[trigger] r@[i] >= min_interval && related_interval(*h, r@[i]),
        h.vertices@.len() >= 2 ==> exists|draws: Seq<(u64, u64)>|
            #![trigger kept_interval_sizes(*h, draws, min_interval)]
            draws.len() == samples && valid_draws(*h, draws) && r@ == kept_interval_sizes(
                *h,
                draws,
                min_interval,
            ),
{
    let ids = keys_of(&h.vertices);
    let mut sizes: Vec<usize> = Vec::new();
    if ids.len() < 2 {
        return sizes;
    }
    let mut t: usize = 0;
    let ghost mut draws: Seq<(u64, u64)> = Seq::empty();
    while t < samples
        invariant
            h.wf(),
            draws.len() == t,
            valid_draws(*h, draws),
            sizes@ == kept_interval_sizes(*h, draws, min_interval),
            ids@.len() >= 2,
            ids@.to_set() == h.vertices@.dom(),
            ids@.no_duplicates(),
            t <= samples,
            sizes@.len() <= t,
            forall|i: int| 0 <= i < sizes@.len() ==> #[trigger] sizes@[i] >= min_interval && related_interval(*h, sizes@[i]),
        decreases samples - t,
    {
        let (u_id, v_id) = thread_choose_two(&ids);
        proof {
            let (a, b) = choose|a: int, b: int|
                0 <= a < ids@.len() && 0 <= b < ids@.len() && a != b && u_id == ids@[a] && v_id
                    == ids@[b];
            assert(ids@.to_set().contains(u_id));
            assert(ids@.to_set().contains(v_id));
            assert(u_id != v_id);
        }
        let ghost before = sizes@;
        let ghost next = draws.push((u_id, v_id));
        proof {
            assert(next.drop_last() =~= draws);
            assert(next.last() == (u_id, v_id));
        }
        if h.is_causally_related(u_id, v_id) {
            let i = causal_interval_size(h, u_id, v_id);
            if i >= min_interval {
                sizes.push(i);
                proof {
                    assert(related_interval(*h, i)) by {
                        assert(h.fut(u_id).intersect(h.past(v_id)).len() == i as nat);
                    }
                }
            }
        }
        proof {
            assert(sizes@ == kept_interval_sizes(*h, next, min_interval));
            assert forall|k: int| 0 <= k < next.len() implies {
                &&& (#[trigger] next[k]).0 != next[k].1
                &&& h.vertices@.contains_key(next[k].0)
                &&& h.vertices@.contains_key(next[k].1)
            } by {
                if k < draws.len() {
                    assert(next[k] == draws[k]);
                }
            }
            draws = next;
        }
        t = t + 1;
    }
    sizes
}

/// The ordered pairs `(n, m)` with `n` in `nset` and `m` a structural
/// neighbour of `n`, `m` inside `nset` (`inside`) or outside it.
pub open spec fn neighbour_pairs(h: Hypergraph, nset: Set<u64>, inside: bool) -> Set<(u64, u64)> {
    Set::new(
        |p: (u64, u64)| nset.contains(p.0) && h.neighbors(p.0).contains(p.1) && nset.contains(p.1)
            == inside,
    )
}

/// The pairs of `neighbour_pairs` whose first element is among the first
/// `i` of `items`, or is `items[i]` with the second among the first `j` of
/// `nb`.
pub open spec fn pairs_so_far(
    h: Hypergraph,
    nset: Set<u64>,
    inside: bool,
    items: Seq<u64>,
    i: int,
    nb: Seq<u64>,
    j: int,
) -> Set<(u64, u64)> {
    Set::new(
        |p: (u64, u64)|
            nset.contains(p.1) == inside && ((items.take(i).contains(p.0) && h.neighbors(
                p.0,
            ).contains(p.1)) || (i < items.len() && p.0 == items[i] && nb.take(j).contains(p.1))),
    )
}

/// For the vertices of `neighborhood`: half the number of (vertex,
/// neighbour) pairs with the neighbour inside (each inner link seen from
/// both ends), and the number with the neighbour outside.
pub fn compute_coherence_raw(neighborhood: &HashSet<u64>, h: &Hypergraph) -> (r: (u32, u32))
    requires
        neighbour_pairs(*h, neighborhood@, true).finite(),
        neighbour_pairs(*h, neighborhood@, true).len() <= u32::MAX,
        neighbour_pairs(*h, neighborhood@, false).finite(),
        neighbour_pairs(*h, neighborhood@, false).len() <= u32::MAX,
    ensures
        r.0 as nat == neighbour_pairs(*h, neighborhood@, true).len() / 2,
        r.1 as nat == neighbour_pairs(*h, neighborhood@, false).len(),
{
    let ghost nset = neighborhood@;
    let items = set_items(neighborhood);
    let mut internal: u32 = 0;
    let mut boundary: u32 = 0;
    let ghost mut si = Set::<(u64, u64)>::empty();
    let ghost mut sb = Set::<(u64, u64)>::empty();
    let ghost empty_nb = Seq::<u64>::empty();
    proof {
        assert(si =~= pairs_so_far(*h, nset, true, items@, 0, empty_nb, 0));
        assert(sb =~= pairs_so_far(*h, nset, false, items@, 0, empty_nb, 0));
    }
    let mut i: usize = 0;
    while i < items.len()
        invariant
            nset == neighborhood@,
            items@.to_set() == nset,
            items@.no_duplicates(),
            i <= items@.len(),
            neighbour_pairs(*h, nset, true).finite(),
            neighbour_pairs(*h, nset, true).len() <= u32::MAX,
            neighbour_pairs(*h, nset, false).finite(),
            neighbour_pairs(*h, nset, false).len() <= u32::MAX,
            si == pairs_so_far(*h, nset, true, items@, i as int, empty_nb, 0),
            sb == pairs_so_far(*h, nset, false, items@, i as int, empty_nb, 0),
            si.finite(),
            sb.finite(),
            internal as nat == si.len(),
            boundary as nat == sb.len(),
        decreases items@.len() - i,
    {
        let n = items[i];
        let nbrs = h.structural_neighbors(n);
        let nb = set_items(&nbrs);
        proof {
            assert(si =~= pairs_so_far(*h, nset, true, items@, i as int, nb@, 0));
            assert(sb =~= pairs_so_far(*h, nset, false, items@, i as int, nb@, 0));
        }
        let mut j: usize = 0;
        while j < nb.len()
            invariant
                nset == neighborhood@,
                items@.to_set() == nset,
                items@.no_duplicates(),
                i < items@.len(),
                n == items@[i as int],
                nb@.to_set() == h.neighbors(n),
                nb@.no_duplicates(),
                j <= nb@.len(),
                neighbour_pairs(*h, nset, true).finite(),
                neighbour_pairs(*h, nset, true).len() <= u32::MAX,
                neighbour_pairs(*h, nset, false).finite(),
                neighbour_pairs(*h, nset, false).len() <= u32::MAX,
                si == pairs_so_far(*h, nset, true, items@, i as int, nb@, j as int),
                sb == pairs_so_far(*h, nset, false, items@, i as int, nb@, j as int),
                si.finite(),
                sb.finite(),
                internal as nat == si.len(),
                boundary as nat == sb.len(),
            decreases nb@.len() - j,
        {
            let m = nb[j];
            let ghost p = (n, m);
            proof {
                crate::listops::lemma_fresh_at(nb@, j as int);
                crate::listops::lemma_fresh_at(items@, i as int);
                assert(nb@.to_set().contains(m));
                assert(items@.to_set().contains(n));
            }
            if neighborhood.contains(&m) {
                proof {
                    assert(!si.contains(p));
                    let s1 = si.insert(p);
                    assert(s1.subset_of(neighbour_pairs(*h, nset, true))) by {
                        assert forall|q: (u64, u64)| s1.contains(q) implies neighbour_pairs(
                            *h,
                            nset,
                            true,
                        ).contains(q) by {
                            if q != p {
                                if items@.take(i as int).contains(q.0) {
                                    let a = choose|a: int| 0 <= a < i && items@.take(i as int)[a] == q.0;
                                    assert(items@.to_set().contains(items@[a]));
                                } else {
                                    assert(nb@.take(j as int).contains(q.1));
                                    let a = choose|a: int| 0 <= a < j && nb@.take(j as int)[a] == q.1;
                                    assert(nb@.to_set().contains(nb@[a]));
                                }
                            }
                        }
                    }
                    vstd::set_lib::lemma_len_subset(s1, neighbour_pairs(*h, nset, true));
                }
                internal = internal + 1;
                proof {
                    si = si.insert(p);
                }
            } else {
                proof {
                    assert(!sb.contains(p));
                    let s1 = sb.insert(p);
                    assert(s1.subset_of(neighbour_pairs(*h, nset, false))) by {
                        assert forall|q: (u64, u64)| s1.contains(q) implies neighbour_pairs(
                            *h,
                            nset,
                            false,
                        ).contains(q) by {
                            if q != p {
                                if items@.take(i as int).contains(q.0) {
                                    let a = choose|a: int| 0 <= a < i && items@.take(i as int)[a] == q.0;
                                    assert(items@.to_set().contains(items@[a]));
                                } else {
                                    assert(nb@.take(j as int).contains(q.1));
                                    let a = choose|a: int| 0 <= a < j && nb@.take(j as int)[a] == q.1;
                                    assert(nb@.to_set().contains(nb@[a]));
                                }
                            }
                        }
                    }
                    vstd::set_lib::lemma_len_subset(s1, neighbour_pairs(*h, nset, false));
                }
                boundary = boundary + 1;
                proof {
                    sb = sb.insert(p);
                }
            }
            proof {
                assert(nb@.take(j + 1) == nb@.take(j as int).push(m));
                assert forall|x: u64| nb@.take(j + 1).contains(x) == (nb@.take(j as int).contains(x)
                    || x == m) by {
                    crate::listops::lemma_push_contains(nb@.take(j as int), m, x);
                }
                assert(si =~= pairs_so_far(*h, nset, true, items@, i as int, nb@, j + 1));
                assert(sb =~= pairs_so_far(*h, nset, false, items@, i as int, nb@, j + 1));
            }
            j = j + 1;
        }
        proof {
            assert(nb@.take(nb@.len() as int) == nb@);
            assert(items@.take(i + 1) == items@.take(i as int).push(n));
            assert forall|x: u64| items@.take(i + 1).contains(x) == (items@.take(i as int).contains(
                x,
            ) || x == n) by {
                crate::listops::lemma_push_contains(items@.take(i as int), n, x);
            }
            assert(si =~= pairs_so_far(*h, nset, true, items@, i + 1, empty_nb, 0));
            assert(sb =~= pairs_so_far(*h, nset, false, items@, i + 1, empty_nb, 0));
        }
        i = i + 1;
    }
    proof {
        assert(items@.take(items@.len() as int) == items@);
        assert(si =~= neighbour_pairs(*h, nset, true));
        assert(sb =~= neighbour_pairs(*h, nset, false));
    }
    (internal / 2, boundary)
}

/// `t = (u, v, w)` is a triangle of the graph `m` (each id to the bit set of
/// its neighbours), counted once: `u < v < w`, `v` and `w` neighbours of `u`,
/// `w` a neighbour of `v`.
pub open spec fn is_triangle(m: Map<u64, FixedBitSet>, t: (u64, usize, usize)) -> bool {
    &&& m.contains_key(t.0)
    &&& bits_of(m[t.0]).contains(t.1)
    &&& t.1 as u64 > t.0
    &&& m.contains_key(t.1 as u64)
    &&& bits_of(m[t.0]).contains(t.2)
    &&& t.2 > t.1
    &&& bits_of(m[t.1 as u64]).contains(t.2)
}

/// The triangles of `m`.
pub open spec fn triangles(m: Map<u64, FixedBitSet>) -> Set<(u64, usize, usize)> {
    Set::new(|t: (u64, usize, usize)| is_triangle(m, t))
}

/// The triangles whose first id is among the first `a` of `ks`, or is
/// `ks[a]` with the second among the first `b` of `us`, or is `us[b]` with
/// the third among the first `c` of `us`.
pub open spec fn triangles_so_far(
    m: Map<u64, FixedBitSet>,
    ks: Seq<u64>,
    a: int,
    us: Seq<usize>,
    b: int,
    c: int,
) -> Set<(u64, usize, usize)> {
    Set::new(
        |t: (u64, usize, usize)|
            is_triangle(m, t) && (ks.take(a).contains(t.0) || (a < ks.len() && t.0 == ks[a] && (
            us.take(b).contains(t.1) || (b < us.len() && t.1 == us[b] && us.take(c).contains(
                t.2,
            ))))),
    )
}

/// The number of triangles of the interaction graph `interactions`.
pub fn count_triangles(interactions: &HashMap<u64, FixedBitSet>) -> (r: usize)
    requires
        triangles(interactions@).finite(),
        triangles(interactions@).len() <= usize::MAX,
    ensures
        r as nat == triangles(interactions@).len(),
{
    let ghost m = interactions@;
    let ks = keys_of(interactions);
    let mut count: usize = 0;
    let ghost mut st = Set::<(u64, usize, usize)>::empty();
    let ghost no_us = Seq::<usize>::empty();
    proof {
        assert(st =~= triangles_so_far(m, ks@, 0, no_us, 0, 0));
    }
    let mut a: usize = 0;
    while a < ks.len()
        invariant
            m == interactions@,
            ks@.to_set() == m.dom(),
            ks@.no_duplicates(),
            a <= ks@.len(),
            triangles(m).finite(),
            triangles(m).len() <= usize::MAX,
            st == triangles_so_far(m, ks@, a as int, no_us, 0, 0),
            st.finite(),
            count as nat == st.len(),
        decreases ks@.len() - a,
    {
        let u = ks[a];
        proof {
            crate::listops::lemma_fresh_at(ks@, a as int);
            assert(ks@.to_set().contains(u));
        }
        let us: Vec<usize> = match interactions.get(&u) {
            Some(nbrs_u) => bitset_ones(nbrs_u),
            None => Vec::new(),
        };
        proof {
            assert(us@.to_set() == bits_of(m[u]));
            assert(st =~= triangles_so_far(m, ks@, a as int, us@, 0, 0));
        }
        let mut b: usize = 0;
        while b < us.len()
            invariant
                m == interactions@,
                ks@.to_set() == m.dom(),
                ks@.no_duplicates(),
                a < ks@.len(),
                u == ks@[a as int],
                m.contains_key(u),
                us@.to_set() == bits_of(m[u]),
                us@.no_duplicates(),
                b <= us@.len(),
                triangles(m).finite(),
                triangles(m).len() <= usize::MAX,
                st == triangles_so_far(m, ks@, a as int, us@, b as int, 0),
                st.finite(),
                count as nat == st.len(),
            decreases us@.len() - b,
        {
            let vi = us[b];
            let v = vi as u64;
            proof {
                crate::listops::lemma_fresh_at(ks@, a as int);
                assert(us@.to_set().contains(vi));
                assert(us@.take(b + 1) == us@.take(b as int).push(vi));
                assert forall|x: usize| us@.take(b + 1).contains(x) == (us@.take(b as int).contains(
                    x,
                ) || x == vi) by {
                    crate::listops::lemma_push_contains(us@.take(b as int), vi, x);
                }
                assert(!us@.take(b as int).contains(vi)) by {
                    if us@.take(b as int).contains(vi) {
                        let q = choose|q: int| 0 <= q < b && us@.take(b as int)[q] == vi;
                        assert(us@[q] == us@[b as int]);
                    }
                }
            }
            if v > u {
                match interactions.get(&v) {
                    Some(nbrs_v) => {
                        let mut c: usize = 0;
                        while c < us.len()
                            invariant
                                m == interactions@,
                                ks@.to_set() == m.dom(),
                                ks@.no_duplicates(),
                                a < ks@.len(),
                                u == ks@[a as int],
                                m.contains_key(u),
                                us@.to_set() == bits_of(m[u]),
                                us@.no_duplicates(),
                                b < us@.len(),
                                vi == us@[b as int],
                                v == vi as u64,
                                v > u,
                                m.contains_key(v),
                                *nbrs_v == m[v],
                                c <= us@.len(),
                                triangles(m).finite(),
                                triangles(m).len() <= usize::MAX,
                                st == triangles_so_far(m, ks@, a as int, us@, b as int, c as int),
                                st.finite(),
                                count as nat == st.len(),
                            decreases us@.len() - c,
                        {
                            let wi = us[c];
                            proof {
                                assert(us@.to_set().contains(wi));
                                assert(us@.take(c + 1) == us@.take(c as int).push(wi));
                                assert forall|x: usize| us@.take(c + 1).contains(x) == (us@.take(
                                    c as int,
                                ).contains(x) || x == wi) by {
                                    crate::listops::lemma_push_contains(us@.take(c as int), wi, x);
                                }
                                assert(!us@.take(c as int).contains(wi)) by {
                                    if us@.take(c as int).contains(wi) {
                                        let q = choose|q: int|
                                            0 <= q < c && us@.take(c as int)[q] == wi;
                                        assert(us@[q] == us@[c as int]);
                                    }
                                }
                                crate::listops::lemma_fresh_at(ks@, a as int);
                                assert(!us@.take(b as int).contains(vi)) by {
                                    if us@.take(b as int).contains(vi) {
                                        let q = choose|q: int| 0 <= q < b && us@.take(b as int)[q] == vi;
                                        assert(us@[q] == us@[b as int]);
                                    }
                                }
                            }
                            if (wi as u64) > v && bitset_contains(nbrs_v, wi) {
                                let ghost t = (u, vi, wi);
                                proof {
                                    assert(is_triangle(m, t));
                                    assert(!st.contains(t));
                                    let s1 = st.insert(t);
                                    assert(s1.subset_of(triangles(m)));
                                    vstd::set_lib::lemma_len_subset(s1, triangles(m));
                                }
                                count = count + 1;
                                proof {
                                    st = st.insert(t);
                                }
                            }
                            proof {
                                assert(st =~= triangles_so_far(
                                    m,
                                    ks@,
                                    a as int,
                                    us@,
                                    b as int,
                                    c + 1,
                                ));
                            }
                            c = c + 1;
                        }
                        proof {
                            assert(us@.take(us@.len() as int) == us@);
                            assert(st =~= triangles_so_far(m, ks@, a as int, us@, b + 1, 0));
                        }
                    },
                    None => {
                        proof {
                            assert(st =~= triangles_so_far(m, ks@, a as int, us@, b + 1, 0));
                        }
                    },
                }
            } else {
                proof {
                    assert(st =~= triangles_so_far(m, ks@, a as int, us@, b + 1, 0));
                }
            }
            b = b + 1;
        }
        proof {
            assert(us@.take(us@.len() as int) == us@);
            assert(ks@.take(a + 1) == ks@.take(a as int).push(u));
            assert forall|x: u64| ks@.take(a + 1).contains(x) == (ks@.take(a as int).contains(x)
                || x == u) by {
                crate::listops::lemma_push_contains(ks@.take(a as int), u, x);
            }
            assert(st =~= triangles_so_far(m, ks@, a + 1, no_us, 0, 0));
        }
        a = a + 1;
    }
    proof {
        assert(ks@.take(ks@.len() as int) == ks@);
        assert(st =~= triangles(m));
    }
    count
}

/// The predicate "shares a hyperedge listed for `u`".
pub open spec fn shares_with(h: Hypergraph, u: u64) -> spec_fn(u64) -> bool {
    |w: u64| h.shares_edge(u, w)
}

/// The number of position pairs `i < j` of `vs` whose vertices share a
/// hyperedge (looked up from the vertex at `i`).
pub open spec fn linked_pairs(h: Hypergraph, vs: Seq<u64>) -> nat
    decreases vs.len(),
{
    if vs.len() == 0 {
        0
    } else {
        vs.drop_first().filter(shares_with(h, vs[0])).len() + linked_pairs(h, vs.drop_first())
    }
}

/// At most every position pair is linked.
pub proof fn lemma_linked_pairs_bound(h: Hypergraph, vs: Seq<u64>)
    ensures
        linked_pairs(h, vs) <= pair_count(vs.len()),
    decreases vs.len(),
{
    if vs.len() > 0 {
        lemma_linked_pairs_bound(h, vs.drop_first());
        vs.drop_first().lemma_filter_len(shares_with(h, vs[0]));
    }
}

/// The number of structural neighbours of `v`, and the number of pairs of
/// them that share a hyperedge, counted over one enumeration of the
/// neighbours (the set's iteration order; the pair test looks up the
/// hyperedges of the earlier one).
pub fn neighbour_links(h: &Hypergraph, v: u64) -> (r: (usize, usize))
    requires
        pair_count(h.neighbors(v).len()) <= usize::MAX,
    ensures
        exists|s: Seq<u64>|
            #![trigger linked_pairs(*h, s)]
            s.no_duplicates() && s.to_set() == h.neighbors(v) && r.0 == s.len() && r.1
                == linked_pairs(*h, s),
{
    let nbrs = h.structural_neighbors(v);
    let nv = set_items(&nbrs);
    let ghost sq = nv@;
    let k = nv.len();
    proof {
        lemma_linked_pairs_bound(*h, sq);
        assert(sq.skip(0) == sq);
    }
    let mut links: usize = 0;
    let mut i: usize = 0;
    while i < k
        invariant
            sq == nv@,
            k == sq.len(),
            i <= k,
            linked_pairs(*h, sq) <= usize::MAX,
            links + linked_pairs(*h, sq.skip(i as int)) == linked_pairs(*h, sq),
        decreases k - i,
    {
        let ghost p = shares_with(*h, sq[i as int]);
        proof {
            assert(sq.skip(i as int).drop_first() == sq.skip(i + 1));
            assert(sq.skip(i as int)[0] == sq[i as int]);
        }
        let mut j: usize = i + 1;
        let mut rc: usize = 0;
        proof {
            assert(sq.subrange(i + 1, j as int) =~= Seq::<u64>::empty());
        }
        while j < k
            invariant
                sq == nv@,
                k == sq.len(),
                i < j <= k,
                p == shares_with(*h, sq[i as int]),
                linked_pairs(*h, sq) <= usize::MAX,
                links + sq.skip(i + 1).filter(p).len() + linked_pairs(*h, sq.skip(i + 1))
                    == linked_pairs(*h, sq),
                rc as nat == sq.subrange(i + 1, j as int).filter(p).len(),
            decreases k - j,
        {
            proof {
                let pre = sq.subrange(i + 1, j as int);
                let post = sq.subrange(j as int, k as int);
                assert(sq.skip(i + 1) =~= pre + post);
                Seq::filter_distributes_over_add(pre, post, p);
                assert(post[0] == sq[j as int]);
                assert(post == seq![sq[j as int]] + post.drop_first());
                Seq::filter_distributes_over_add(seq![sq[j as int]], post.drop_first(), p);
                assert(sq.subrange(i + 1, j + 1) == pre.push(sq[j as int]));
                pre.lemma_filter_push(sq[j as int], p);
                if p(sq[j as int]) {
                    assert(seq![sq[j as int]].filter(p).len() == 1) by {
                        reveal(Seq::filter);
                        assert(seq![sq[j as int]].drop_last() =~= Seq::<u64>::empty());
                    }
                }
            }
            if h.is_structurally_interacting(nv[i], nv[j]) {
                rc = rc + 1;
            }
            j = j + 1;
        }
        proof {
            assert(sq.subrange(i + 1, k as int) == sq.skip(i + 1));
        }
        links = links + rc;
        i = i + 1;
    }
    proof {
        assert(sq.skip(k as int) =~= Seq::<u64>::empty());
    }
    (k, links)
}

} // verus!
