//! The shapes of hyperedges (the multiset of vertex ids each one holds) and
//! how many shapes persist from one hypergraph to another.
use crate::hypergraph::Hypergraph;
use crate::listops::keys_of;
use std::collections::HashMap;
use vstd::multiset::Multiset;
use vstd::prelude::*;
use vstd::relations::{sorted_by, total_ordering};

verus! {

/// The order of ids.
pub open spec fn id_leq() -> spec_fn(u64, u64) -> bool {
    |a: u64, b: u64| a <= b
}

/// The vertex multisets of the hyperedges of `h`.
pub open spec fn edge_shapes(h: Hypergraph) -> Set<Multiset<u64>> {
    Set::new(
        |s: Multiset<u64>|
            exists|e: u64| #[trigger] h.hyperedges@.contains_key(e) && h.hyperedges@[e].vertices@.to_multiset() == s,
    )
}

proof fn lemma_id_leq_total()
    ensures
        total_ordering(id_leq()),
{
}

/// The ids of `v`, sorted.
fn sorted_ids(v: &Vec<u64>) -> (r: Vec<u64>)
    ensures
        sorted_by(r@, id_leq()),
        r@.to_multiset() == v@.to_multiset(),
{
    let mut r: Vec<u64> = Vec::new();
    let mut i: usize = 0;
    proof {
        assert(v@.take(0) =~= Seq::<u64>::empty());
    }
    while i < v.len()
        invariant
            i <= v@.len(),
            sorted_by(r@, id_leq()),
            r@.to_multiset() == v@.take(i as int).to_multiset(),
        decreases v@.len() - i,
    {
        let x = v[i];
        let mut pos: usize = 0;
        while pos < r.len() && r[pos] <= x
            invariant
                pos <= r@.len(),
                sorted_by(r@, id_leq()),
                forall|t: int| 0 <= t < pos ==> r@[t] <= x,
            decreases r@.len() - pos,
        {
            pos = pos + 1;
        }
        let ghost r0 = r@;
        proof {
            assert forall|t: int| pos <= t < r0.len() implies x < r0[t] by {
                assert(id_leq()(r0[pos as int], r0[t]) || t == pos);
            }
        }
        r.insert(pos, x);
        proof {
            assert(r@ == r0.insert(pos as int, x));
            assert forall|a: int, b: int| 0 <= a < b < r@.len() implies #[trigger] id_leq()(r@[a], r@[b]) by {
                if b < pos {
                    assert(id_leq()(r0[a], r0[b]));
                } else if b == pos {
                    assert(r@[a] == r0[a]);
                } else if a < pos {
                    assert(r@[a] == r0[a] && r@[b] == r0[b - 1]);
                } else if a == pos {
                    assert(r@[b] == r0[b - 1]);
                } else {
                    assert(r@[a] == r0[a - 1] && r@[b] == r0[b - 1]);
                    assert(id_leq()(r0[a - 1], r0[b - 1]));
                }
            }
            assert(v@.take(i + 1) == v@.take(i as int).push(x));
            vstd::seq_lib::to_multiset_insert(r0, pos as int, x);
            vstd::seq_lib::to_multiset_build(v@.take(i as int), x);
        }
        i = i + 1;
    }
    proof {
        assert(v@.take(v@.len() as int) == v@);
    }
    r
}

/// Whether `a` and `b` hold the same ids in the same order.
fn same_ids(a: &Vec<u64>, b: &Vec<u64>) -> (r: bool)
    ensures
        r == (a@ == b@),
{
    if a.len() != b.len() {
        return false;
    }
    let mut i: usize = 0;
    while i < a.len()
        invariant
            a@.len() == b@.len(),
            i <= a@.len(),
            forall|t: int| 0 <= t < i ==> a@[t] == b@[t],
        decreases a@.len() - i,
    {
        if a[i] != b[i] {
            return false;
        }
        i = i + 1;
    }
    proof {
        assert(a@ =~= b@);
    }
    true
}

/// Sorted id lists with one multiset are one list.
proof fn lemma_sorted_same(x: Seq<u64>, y: Seq<u64>)
    requires
        sorted_by(x, id_leq()),
        sorted_by(y, id_leq()),
    ensures
        x.to_multiset() == y.to_multiset() <==> x == y,
{
    if x.to_multiset() == y.to_multiset() {
        lemma_id_leq_total();
        vstd::seq_lib::lemma_sorted_unique(x, y, id_leq());
    }
}

/// The multisets of the lists `ls`.
pub open spec fn shapes_of(ls: Seq<Vec<u64>>) -> Seq<Multiset<u64>> {
    ls.map_values(|l: Vec<u64>| l@.to_multiset())
}

/// The shapes of the hyperedges of `h`, each once, as sorted id lists.
fn distinct_shapes(h: &Hypergraph) -> (r: Vec<Vec<u64>>)
    ensures
        forall|t: int| 0 <= t < r@.len() ==> sorted_by(#[trigger] r@[t]@, id_leq()),
        shapes_of(r@).no_duplicates(),
        shapes_of(r@).to_set() == edge_shapes(*h),
{
    let ks = keys_of(&h.hyperedges);
    let mut r: Vec<Vec<u64>> = Vec::new();
    let mut i: usize = 0;
    while i < ks.len()
        invariant
            ks@.to_set() == h.hyperedges@.dom(),
            i <= ks@.len(),
            forall|t: int| 0 <= t < r@.len() ==> sorted_by(#[trigger] r@[t]@, id_leq()),
            shapes_of(r@).no_duplicates(),
            forall|s: Multiset<u64>|
                #[trigger] shapes_of(r@).contains(s) <==> exists|q: int|
                    0 <= q < i && h.hyperedges@[#[trigger] ks@[q]].vertices@.to_multiset() == s,
        decreases ks@.len() - i,
    {
        let k = ks[i];
        proof {
            assert(ks@.to_set().contains(k));
        }
        let empty: Vec<u64> = Vec::new();
        let vs = match h.hyperedges.get(&k) {
            Some(e) => &e.vertices,
            None => &empty,
        };
        let s = sorted_ids(vs);
        let mut found = false;
        let mut j: usize = 0;
        while j < r.len()
            invariant
                j <= r@.len(),
                sorted_by(s@, id_leq()),
                forall|t: int| 0 <= t < r@.len() ==> sorted_by(#[trigger] r@[t]@, id_leq()),
                found <==> exists|t: int| 0 <= t < j && r@[t]@ == s@,
            decreases r@.len() - j,
        {
            if same_ids(&r[j], &s) {
                found = true;
            }
            j = j + 1;
        }
        let ghost r0 = r@;
        proof {
            assert(shapes_of(r0).len() == r0.len());
            if found {
                let t = choose|t: int| 0 <= t < j && r0[t]@ == s@;
                assert(shapes_of(r0)[t] == s@.to_multiset());
            } else {
                assert forall|t: int| 0 <= t < r0.len() implies shapes_of(r0)[t] != s@.to_multiset() by {
                    lemma_sorted_same(r0[t]@, s@);
                }
            }
        }
        if !found {
            r.push(s);
        }
        proof {
            if !found {
                assert(shapes_of(r@) == shapes_of(r0).push(s@.to_multiset()));
            }
            assert forall|m: Multiset<u64>|
                #[trigger] shapes_of(r@).contains(m) <==> exists|q: int|
                    0 <= q < i + 1 && h.hyperedges@[#[trigger] ks@[q]].vertices@.to_multiset() == m by {
                if shapes_of(r@).contains(m) && !shapes_of(r0).contains(m) {
                    assert(h.hyperedges@[ks@[i as int]].vertices@.to_multiset() == m);
                }
                if exists|q: int| 0 <= q < i + 1 && h.hyperedges@[#[trigger] ks@[q]].vertices@.to_multiset() == m {
                    let q = choose|q: int| 0 <= q < i + 1 && h.hyperedges@[#[trigger] ks@[q]].vertices@.to_multiset() == m;
                    if q == i {
                        if found {
                            let t = choose|t: int| 0 <= t < r0.len() && r0[t]@ == s@;
                            assert(shapes_of(r@)[t] == m);
                        } else {
                            assert(shapes_of(r@)[r0.len() as int] == m);
                        }
                    } else {
                        assert(shapes_of(r0).contains(m));
                        let t = choose|t: int| 0 <= t < shapes_of(r0).len() && shapes_of(r0)[t] == m;
                        assert(shapes_of(r@)[t] == m);
                    }
                }
            }
        }
        i = i + 1;
    }
    proof {
        assert forall|m: Multiset<u64>| #[trigger] shapes_of(r@).to_set().contains(m) <==> edge_shapes(*h).contains(m) by {
            if edge_shapes(*h).contains(m) {
                let e = choose|e: u64| #[trigger] h.hyperedges@.contains_key(e) && h.hyperedges@[e].vertices@.to_multiset() == m;
                assert(ks@.to_set().contains(e));
                let q = choose|q: int| 0 <= q < ks@.len() && ks@[q] == e;
                assert(shapes_of(r@).contains(m));
            }
            if shapes_of(r@).to_set().contains(m) {
                assert(shapes_of(r@).contains(m));
                let q = choose|q: int| 0 <= q < ks@.len() && h.hyperedges@[#[trigger] ks@[q]].vertices@.to_multiset() == m;
                assert(ks@.to_set().contains(ks@[q]));
            }
        }
        assert(shapes_of(r@).to_set() =~= edge_shapes(*h));
    }
    r
}

/// How many hyperedge shapes of `before` persist in `after`, and how many
/// shapes `before` has: the counts behind the fraction of the adjacency that
/// survives a rewrite.
pub fn shape_overlap(before: &Hypergraph, after: &Hypergraph) -> (r: (usize, usize))
    ensures
        r.0 as nat == edge_shapes(*before).intersect(edge_shapes(*after)).len(),
        r.1 as nat == edge_shapes(*before).len(),
{
    let bs = distinct_shapes(before);
    let as_ = distinct_shapes(after);
    let ghost sb = shapes_of(bs@);
    let ghost sa = edge_shapes(*after);
    let ghost p = |m: Multiset<u64>| sa.contains(m);
    let mut count: usize = 0;
    let mut i: usize = 0;
    while i < bs.len()
        invariant
            sb == shapes_of(bs@),
            sa == edge_shapes(*after),
            shapes_of(as_@).to_set() == sa,
            p == (|m: Multiset<u64>| sa.contains(m)),
            forall|t: int| 0 <= t < bs@.len() ==> sorted_by(#[trigger] bs@[t]@, id_leq()),
            forall|t: int| 0 <= t < as_@.len() ==> sorted_by(#[trigger] as_@[t]@, id_leq()),
            i <= bs@.len(),
            count as nat == sb.take(i as int).filter(p).len(),
            count <= i,
        decreases bs@.len() - i,
    {
        let mut found = false;
        let mut j: usize = 0;
        while j < as_.len()
            invariant
                i < bs@.len(),
                j <= as_@.len(),
                found <==> exists|t: int| 0 <= t < j && as_@[t]@ == bs@[i as int]@,
            decreases as_@.len() - j,
        {
            if same_ids(&as_[j], &bs[i]) {
                found = true;
            }
            j = j + 1;
        }
        proof {
            let m = sb[i as int];
            assert(m == bs@[i as int]@.to_multiset());
            if found {
                let t = choose|t: int| 0 <= t < as_@.len() && as_@[t]@ == bs@[i as int]@;
                assert(shapes_of(as_@)[t] == m);
                assert(shapes_of(as_@).to_set().contains(m));
            } else if p(m) {
                assert(shapes_of(as_@).to_set().contains(m));
                let t = choose|t: int| 0 <= t < shapes_of(as_@).len() && shapes_of(as_@)[t] == m;
                lemma_sorted_same(as_@[t]@, bs@[i as int]@);
            }
            assert(found == p(m));
            assert(sb.take(i + 1) == sb.take(i as int).push(m));
            sb.take(i as int).lemma_filter_push(m, p);
        }
        if found {
            count = count + 1;
        }
        i = i + 1;
    }
    proof {
        assert(sb.take(sb.len() as int) == sb);
        crate::listops::lemma_filter_card(sb, p);
        assert(sb.to_set().filter(p) =~= edge_shapes(*before).intersect(sa));
        sb.unique_seq_to_set();
    }
    (count, bs.len())
}

} // verus!
