//! Breadth-first distances inside a vertex region of the hypergraph, along
//! shared hyperedges, summed over every start in the region: the counts
//! behind the region's mean radius.
use crate::hypergraph::Hypergraph;
use crate::listops::set_items;
use std::collections::HashSet;
use vstd::prelude::*;

verus! {

/// One step inside `comp`: `w` lies in the region and shares a hyperedge
/// with `u`.
pub open spec fn cstep(h: Hypergraph, comp: Set<u64>, u: u64, w: u64) -> bool {
    comp.contains(w) && h.neighbors(u).contains(w)
}

/// `p` steps through the region from its first vertex to its last.
pub open spec fn cwalk(h: Hypergraph, comp: Set<u64>, p: Seq<u64>) -> bool {
    &&& p.len() >= 1
    &&& forall|i: int| 0 <= i < p.len() - 1 ==> cstep(h, comp, #[trigger] p[i], p[i + 1])
}

/// A walk of exactly `n` steps in the region leads from `s` to `t`.
pub open spec fn creach(h: Hypergraph, comp: Set<u64>, s: u64, t: u64, n: nat) -> bool {
    exists|p: Seq<u64>| #[trigger] cwalk(h, comp, p) && p.len() == n + 1 && p[0] == s && p[p.len() - 1] == t
}

/// A walk of at most `d` steps in the region leads from `s` to `t`.
pub open spec fn cwithin(h: Hypergraph, comp: Set<u64>, s: u64, t: u64, d: int) -> bool {
    exists|n: nat| n <= d && #[trigger] creach(h, comp, s, t, n)
}

/// The vertices at most `d` steps from `s`.
pub open spec fn cball(h: Hypergraph, comp: Set<u64>, s: u64, d: int) -> Set<u64> {
    Set::new(|x: u64| cwithin(h, comp, s, x, d))
}

/// The vertices exactly `d` steps from `s`.
pub open spec fn clayer(h: Hypergraph, comp: Set<u64>, s: u64, d: int) -> Set<u64> {
    Set::new(|x: u64| cwithin(h, comp, s, x, d) && !cwithin(h, comp, s, x, d - 1))
}

/// The distances from `s` summed over the vertices at most `d` steps away.
pub open spec fn layer_total(h: Hypergraph, comp: Set<u64>, s: u64, d: nat) -> nat
    decreases d,
{
    if d == 0 {
        0
    } else {
        layer_total(h, comp, s, (d - 1) as nat) + d * clayer(h, comp, s, d as int).len()
    }
}

/// The number of vertices from one to `d` steps from `s`.
pub open spec fn layer_count(h: Hypergraph, comp: Set<u64>, s: u64, d: nat) -> nat
    decreases d,
{
    if d == 0 {
        0
    } else {
        layer_count(h, comp, s, (d - 1) as nat) + clayer(h, comp, s, d as int).len()
    }
}

/// `layer_total` summed over the starts `ss`.
pub open spec fn starts_total(h: Hypergraph, comp: Set<u64>, ss: Seq<u64>, d: nat) -> nat
    decreases ss.len(),
{
    if ss.len() == 0 {
        0
    } else {
        starts_total(h, comp, ss.drop_last(), d) + layer_total(h, comp, ss.last(), d)
    }
}

/// `layer_count` summed over the starts `ss`.
pub open spec fn starts_count(h: Hypergraph, comp: Set<u64>, ss: Seq<u64>, d: nat) -> nat
    decreases ss.len(),
{
    if ss.len() == 0 {
        0
    } else {
        starts_count(h, comp, ss.drop_last(), d) + layer_count(h, comp, ss.last(), d)
    }
}

proof fn lemma_creach_step(h: Hypergraph, comp: Set<u64>, s: u64, v: u64, u: u64, k: nat)
    requires
        creach(h, comp, s, v, k),
        cstep(h, comp, v, u),
    ensures
        creach(h, comp, s, u, k + 1),
{
    let p = choose|p: Seq<u64>|
        #[trigger] cwalk(h, comp, p) && p.len() == k + 1 && p[0] == s && p[p.len() - 1] == v;
    let q = p.push(u);
    assert forall|i: int| 0 <= i < q.len() - 1 implies cstep(h, comp, #[trigger] q[i], q[i + 1]) by {
        if i < p.len() - 1 {
            assert(q[i] == p[i] && q[i + 1] == p[i + 1]);
        } else {
            assert(q[i] == v && q[i + 1] == u);
        }
    }
    assert(cwalk(h, comp, q));
}

proof fn lemma_creach_back(h: Hypergraph, comp: Set<u64>, s: u64, u: u64, k: nat)
    requires
        creach(h, comp, s, u, k + 1),
    ensures
        exists|v: u64| #[trigger] creach(h, comp, s, v, k) && cstep(h, comp, v, u),
{
    let p = choose|p: Seq<u64>|
        #[trigger] cwalk(h, comp, p) && p.len() == k + 2 && p[0] == s && p[p.len() - 1] == u;
    let q = p.drop_last();
    let v = q[q.len() - 1];
    assert forall|i: int| 0 <= i < q.len() - 1 implies cstep(h, comp, #[trigger] q[i], q[i + 1]) by {
        assert(q[i] == p[i] && q[i + 1] == p[i + 1]);
    }
    assert(cwalk(h, comp, q));
    assert(creach(h, comp, s, v, k));
    assert(cstep(h, comp, p[k as int], p[k as int + 1]));
}

proof fn lemma_creach_zero(h: Hypergraph, comp: Set<u64>, s: u64, t: u64)
    ensures
        creach(h, comp, s, t, 0) <==> s == t,
{
    if s == t {
        let p = seq![s];
        assert(cwalk(h, comp, p));
    }
}

proof fn lemma_cwithin_intro(h: Hypergraph, comp: Set<u64>, s: u64, t: u64, k: nat, d: int)
    requires
        creach(h, comp, s, t, k),
        k <= d,
    ensures
        cwithin(h, comp, s, t, d),
{
}

/// The unvisited region neighbours of a layer form the next layer.
proof fn lemma_next_clayer(h: Hypergraph, comp: Set<u64>, s: u64, d: int)
    requires
        0 <= d,
    ensures
        forall|u: u64|
            #![trigger clayer(h, comp, s, d + 1).contains(u)]
            clayer(h, comp, s, d + 1).contains(u) <==> (!cball(h, comp, s, d).contains(u) && exists|v: u64|
                clayer(h, comp, s, d).contains(v) && cstep(h, comp, v, u)),
{
    assert forall|u: u64|
        #![trigger clayer(h, comp, s, d + 1).contains(u)]
        clayer(h, comp, s, d + 1).contains(u) <==> (!cball(h, comp, s, d).contains(u) && exists|v: u64|
            clayer(h, comp, s, d).contains(v) && cstep(h, comp, v, u)) by {
        if clayer(h, comp, s, d + 1).contains(u) {
            let n = choose|n: nat| n <= d + 1 && #[trigger] creach(h, comp, s, u, n);
            if n <= d {
                assert(cwithin(h, comp, s, u, d));
            }
            assert(n == d + 1);
            lemma_creach_back(h, comp, s, u, d as nat);
            let v = choose|v: u64| #[trigger] creach(h, comp, s, v, d as nat) && cstep(h, comp, v, u);
            lemma_cwithin_intro(h, comp, s, v, d as nat, d);
            if cwithin(h, comp, s, v, d - 1) {
                let k = choose|k: nat| k <= d - 1 && #[trigger] creach(h, comp, s, v, k);
                lemma_creach_step(h, comp, s, v, u, k);
                lemma_cwithin_intro(h, comp, s, u, k + 1, d);
            }
            assert(clayer(h, comp, s, d).contains(v));
        }
        if !cball(h, comp, s, d).contains(u) && exists|v: u64|
            clayer(h, comp, s, d).contains(v) && cstep(h, comp, v, u) {
            let v = choose|v: u64| clayer(h, comp, s, d).contains(v) && cstep(h, comp, v, u);
            let k = choose|k: nat| k <= d && #[trigger] creach(h, comp, s, v, k);
            lemma_creach_step(h, comp, s, v, u, k);
            lemma_cwithin_intro(h, comp, s, u, k + 1, d + 1);
        }
    }
}

/// The next ball is the ball and the next layer.
proof fn lemma_next_cball(h: Hypergraph, comp: Set<u64>, s: u64, d: int)
    requires
        0 <= d,
    ensures
        cball(h, comp, s, d + 1) == cball(h, comp, s, d).union(clayer(h, comp, s, d + 1)),
{
    assert forall|u: u64| #[trigger] cball(h, comp, s, d + 1).contains(u) <==> (cball(h, comp, s, d).contains(u)
        || clayer(h, comp, s, d + 1).contains(u)) by {
        if cball(h, comp, s, d).contains(u) {
            let k = choose|k: nat| k <= d && #[trigger] creach(h, comp, s, u, k);
            lemma_cwithin_intro(h, comp, s, u, k, d + 1);
        }
    }
    assert(cball(h, comp, s, d + 1) =~= cball(h, comp, s, d).union(clayer(h, comp, s, d + 1)));
}

/// The ids newly seen while expanding a layer: outside the ball `b`, and a
/// region neighbour of one of the first `i` ids of `fs`, or among the first
/// `j` of `us` (the region neighbours of `fs[i]`).
pub open spec fn cseen(
    h: Hypergraph,
    comp: Set<u64>,
    b: Set<u64>,
    fs: Seq<u64>,
    i: int,
    us: Seq<u64>,
    j: int,
) -> Set<u64> {
    Set::new(
        |u: u64|
            !b.contains(u) && ((exists|q: int| 0 <= q < i && cstep(h, comp, #[trigger] fs[q], u)) || (
            exists|p: int| 0 <= p < j && #[trigger] us[p] == u && comp.contains(u))),
    )
}

/// Every vertex of the region one walk of at most `d` steps leads to lies
/// in the region, when the start does.
proof fn lemma_cball_in_comp(h: Hypergraph, comp: Set<u64>, s: u64, d: int)
    requires
        comp.contains(s),
    ensures
        cball(h, comp, s, d).subset_of(comp),
{
    assert forall|x: u64| cball(h, comp, s, d).contains(x) implies comp.contains(x) by {
        let n = choose|n: nat| n <= d && #[trigger] creach(h, comp, s, x, n);
        let p = choose|p: Seq<u64>|
            #[trigger] cwalk(h, comp, p) && p.len() == n + 1 && p[0] == s && p[p.len() - 1] == x;
        if n > 0 {
            assert(cstep(h, comp, p[n - 1], p[n - 1 + 1]));
        }
    }
}

/// Cutting the loop between two equal positions out of a walk leaves a
/// shorter walk between the same ends.
proof fn lemma_cut_loop(h: Hypergraph, comp: Set<u64>, p: Seq<u64>, a: int, b: int)
    requires
        cwalk(h, comp, p),
        0 <= a < b < p.len(),
        p[a] == p[b],
    ensures
        creach(h, comp, p[0], p[p.len() - 1], (p.len() - 1 - (b - a)) as nat),
{
    let q = p.subrange(0, a) + p.subrange(b, p.len() as int);
    assert(q.len() == p.len() - (b - a));
    assert forall|i: int| 0 <= i < q.len() - 1 implies cstep(h, comp, #[trigger] q[i], q[i + 1]) by {
        if i + 1 < a {
            assert(q[i] == p[i] && q[i + 1] == p[i + 1]);
        } else if i + 1 == a {
            assert(q[i] == p[i] && q[i + 1] == p[b]);
            assert(cstep(h, comp, p[i], p[i + 1]));
        } else {
            let k = i - a + b;
            assert(q[i] == p[k] && q[i + 1] == p[k + 1]);
        }
    }
    if a == 0 {
        assert(q[0] == p[b]);
    } else {
        assert(q[0] == p[0]);
    }
    assert(q[q.len() - 1] == p[p.len() - 1]);
    assert(cwalk(h, comp, q));
}

/// No vertex of the region lies `comp.len()` or more steps from a start in
/// it: a shortest walk visits distinct vertices of the region.
pub proof fn lemma_far_layers_empty(h: Hypergraph, comp: Set<u64>, s: u64, k: int)
    requires
        comp.finite(),
        comp.contains(s),
        k >= comp.len(),
    ensures
        clayer(h, comp, s, k) == Set::<u64>::empty(),
{
    assert forall|x: u64| !clayer(h, comp, s, k).contains(x) by {
        if clayer(h, comp, s, k).contains(x) {
            let n = choose|n: nat| n <= k && #[trigger] creach(h, comp, s, x, n);
            if n < k {
                lemma_cwithin_intro(h, comp, s, x, n, k - 1);
            }
            assert(n == k);
            let p = choose|p: Seq<u64>|
                #[trigger] cwalk(h, comp, p) && p.len() == n + 1 && p[0] == s && p[p.len() - 1] == x;
            assert(p.no_duplicates()) by {
                assert forall|a: int, b: int| 0 <= a < p.len() && 0 <= b < p.len() && a != b implies p[a] != p[b] by {
                    if p[a] == p[b] {
                        if a < b {
                            lemma_cut_loop(h, comp, p, a, b);
                            lemma_cwithin_intro(h, comp, s, x, (p.len() - 1 - (b - a)) as nat, k - 1);
                        } else {
                            lemma_cut_loop(h, comp, p, b, a);
                            lemma_cwithin_intro(h, comp, s, x, (p.len() - 1 - (a - b)) as nat, k - 1);
                        }
                    }
                }
            }
            assert(p.to_set().subset_of(comp)) by {
                assert forall|y: u64| p.to_set().contains(y) implies comp.contains(y) by {
                    let i = choose|i: int| 0 <= i < p.len() && p[i] == y;
                    if i > 0 {
                        assert(cstep(h, comp, p[i - 1], p[i - 1 + 1]));
                    }
                }
            }
            p.unique_seq_to_set();
            vstd::set_lib::lemma_len_subset(p.to_set(), comp);
        }
    }
    assert(clayer(h, comp, s, k) =~= Set::<u64>::empty());
}

/// The distance sum and vertex count of one start, over `rounds` layers.
fn start_totals(h: &Hypergraph, comp: &HashSet<u64>, s: u64, rounds: usize) -> (r: (u128, u128))
    requires
        comp@.contains(s),
        comp@.finite(),
        comp@.len() <= u32::MAX,
        rounds <= comp@.len(),
    ensures
        r.0 as nat == layer_total(*h, comp@, s, rounds as nat),
        r.1 as nat == layer_count(*h, comp@, s, rounds as nat),
        r.0 <= rounds * rounds * comp@.len(),
        r.1 <= rounds * comp@.len(),
{
    let ghost c = comp@;
    let ghost n = comp@.len();
    let mut visited: HashSet<u64> = HashSet::new();
    visited.insert(s);
    let mut frontier: HashSet<u64> = HashSet::new();
    frontier.insert(s);
    let mut total: u128 = 0;
    let mut count: u128 = 0;
    let mut depth: usize = 0;
    proof {
        assert forall|x: u64| visited@.contains(x) == cball(*h, c, s, 0).contains(x) by {
            lemma_creach_zero(*h, c, s, x);
            if cwithin(*h, c, s, x, 0) {
                let k = choose|k: nat| k <= 0 && #[trigger] creach(*h, c, s, x, k);
                assert(k == 0);
            }
            if x == s {
                lemma_cwithin_intro(*h, c, s, x, 0, 0);
            }
        }
        assert(visited@ =~= cball(*h, c, s, 0));
        assert forall|x: u64| frontier@.contains(x) == clayer(*h, c, s, 0).contains(x) by {
            lemma_creach_zero(*h, c, s, x);
            if cwithin(*h, c, s, x, 0) {
                let k = choose|k: nat| k <= 0 && #[trigger] creach(*h, c, s, x, k);
                assert(k == 0);
            }
            if x == s {
                lemma_cwithin_intro(*h, c, s, x, 0, 0);
            }
        }
        assert(frontier@ =~= clayer(*h, c, s, 0));
    }
    while depth < rounds
        invariant
            c == comp@,
            n == c.len(),
            c.finite(),
            c.contains(s),
            n <= u32::MAX,
            depth <= rounds,
            rounds <= n,
            visited@ == cball(*h, c, s, depth as int),
            frontier@ == clayer(*h, c, s, depth as int),
            total as nat == layer_total(*h, c, s, depth as nat),
            count as nat == layer_count(*h, c, s, depth as nat),
            total <= depth * depth * n,
            count <= depth * n,
        decreases rounds - depth,
    {
        let ghost b = visited@;
        let ghost d0 = depth as int;
        let mut next: HashSet<u64> = HashSet::new();
        let fs = set_items(&frontier);
        let ghost no_us = Seq::<u64>::empty();
        proof {
            assert(next@ =~= cseen(*h, c, b, fs@, 0, no_us, 0));
            assert(visited@ =~= b.union(next@));
        }
        let mut i: usize = 0;
        while i < fs.len()
            invariant
                c == comp@,
                0 <= d0,
                b == cball(*h, c, s, d0),
                fs@.to_set() == clayer(*h, c, s, d0),
                i <= fs@.len(),
                next@ == cseen(*h, c, b, fs@, i as int, no_us, 0),
                visited@ == b.union(next@),
            decreases fs@.len() - i,
        {
            let v = fs[i];
            let nb = h.structural_neighbors(v);
            let us = set_items(&nb);
            proof {
                assert(next@ =~= cseen(*h, c, b, fs@, i as int, us@, 0));
            }
            let mut j: usize = 0;
            while j < us.len()
                invariant
                    c == comp@,
                    0 <= d0,
                    b == cball(*h, c, s, d0),
                    fs@.to_set() == clayer(*h, c, s, d0),
                    i < fs@.len(),
                    v == fs@[i as int],
                    us@.to_set() == h.neighbors(v),
                    j <= us@.len(),
                    next@ == cseen(*h, c, b, fs@, i as int, us@, j as int),
                    visited@ == b.union(next@),
                decreases us@.len() - j,
            {
                let u = us[j];
                let ghost before = next@;
                if comp.contains(&u) && !visited.contains(&u) {
                    visited.insert(u);
                    next.insert(u);
                }
                proof {
                    assert forall|x: u64| next@.contains(x) == cseen(*h, c, b, fs@, i as int, us@, j + 1).contains(x) by {
                        if x == u && !b.contains(x) && c.contains(x) {
                            assert(us@[j as int] == x);
                        }
                        if cseen(*h, c, b, fs@, i as int, us@, j + 1).contains(x) && !before.contains(x) {
                            if !(exists|q: int| 0 <= q < i && cstep(*h, c, #[trigger] fs@[q], x)) {
                                let p = choose|p: int| 0 <= p < j + 1 && #[trigger] us@[p] == x && c.contains(x);
                                assert(p == j);
                            }
                        }
                    }
                    assert(next@ =~= cseen(*h, c, b, fs@, i as int, us@, j + 1));
                    assert(visited@ =~= b.union(next@));
                }
                j = j + 1;
            }
            proof {
                assert forall|x: u64| next@.contains(x) == cseen(*h, c, b, fs@, i + 1, no_us, 0).contains(x) by {
                    if cseen(*h, c, b, fs@, i as int, us@, us@.len() as int).contains(x) && !(exists|q: int|
                        0 <= q < i && cstep(*h, c, #[trigger] fs@[q], x)) {
                        let p = choose|p: int| 0 <= p < us@.len() && #[trigger] us@[p] == x && c.contains(x);
                        assert(us@.to_set().contains(us@[p]));
                        assert(cstep(*h, c, fs@[i as int], x));
                    }
                    if (exists|q: int| 0 <= q < i + 1 && cstep(*h, c, #[trigger] fs@[q], x)) && !(exists|q: int|
                        0 <= q < i && cstep(*h, c, #[trigger] fs@[q], x)) && !b.contains(x) {
                        let q = choose|q: int| 0 <= q < i + 1 && cstep(*h, c, #[trigger] fs@[q], x);
                        assert(q == i);
                        assert(us@.to_set().contains(x));
                        let p = choose|p: int| 0 <= p < us@.len() && us@[p] == x;
                        assert(us@[p] == x);
                    }
                }
                assert(next@ =~= cseen(*h, c, b, fs@, i + 1, no_us, 0));
            }
            i = i + 1;
        }
        proof {
            lemma_next_clayer(*h, c, s, d0);
            lemma_next_cball(*h, c, s, d0);
            assert forall|x: u64| next@.contains(x) == clayer(*h, c, s, d0 + 1).contains(x) by {
                if next@.contains(x) {
                    let q = choose|q: int| 0 <= q < fs@.len() && cstep(*h, c, #[trigger] fs@[q], x);
                    assert(fs@.to_set().contains(fs@[q]));
                }
                if clayer(*h, c, s, d0 + 1).contains(x) {
                    let w = choose|w: u64| clayer(*h, c, s, d0).contains(w) && cstep(*h, c, w, x);
                    assert(fs@.to_set().contains(w));
                    let q = choose|q: int| 0 <= q < fs@.len() && fs@[q] == w;
                    assert(cstep(*h, c, fs@[q], x));
                }
            }
            assert(next@ =~= clayer(*h, c, s, d0 + 1));
            assert(visited@ =~= cball(*h, c, s, d0 + 1));
            lemma_cball_in_comp(*h, c, s, d0 + 1);
            assert(next@.subset_of(c));
            vstd::set_lib::lemma_len_subset(next@, c);
        }
        let width = next.len() as u128;
        let step = depth as u128 + 1;
        proof {
            assert(width <= n);
            assert(step * width <= step * n) by (nonlinear_arith)
                requires
                    width <= n,
            ;
            assert(total + step * width <= step * step * n) by (nonlinear_arith)
                requires
                    total <= (step - 1) * (step - 1) * n,
                    step * width <= step * n,
                    step >= 1,
            ;
            assert(step * step * n <= 0xffff_ffff_ffff_ffff_ffff_ffff_ffff_ffffu128) by (nonlinear_arith)
                requires
                    step <= n,
                    n <= u32::MAX,
            ;
            assert(count + width <= step * n) by (nonlinear_arith)
                requires
                    count <= (step - 1) * n,
                    width <= n,
                    step >= 1,
            ;
            assert(step * n <= 0xffff_ffff_ffff_ffff_ffff_ffff_ffff_ffffu128) by (nonlinear_arith)
                requires
                    step <= n,
                    n <= u32::MAX,
            ;
        }
        total = total + step * width;
        count = count + width;
        depth = depth + 1;
        frontier = next;
        proof {
            assert(layer_total(*h, c, s, depth as nat) == layer_total(*h, c, s, (depth - 1) as nat) + depth
                * clayer(*h, c, s, depth as int).len());
        }
    }
    (total, count)
}

/// The distances inside the region `comp` summed over every start and
/// every vertex reached, and the number of (start, vertex) pairs at a
/// positive distance: counted over the first `comp.len()` layers of each
/// start, which hold every vertex the region lets a start reach
/// (`lemma_far_layers_empty`).
pub fn region_distance_totals(comp: &HashSet<u64>, h: &Hypergraph) -> (r: (u128, u128))
    requires
        comp@.len() <= u32::MAX,
    ensures
        exists|ss: Seq<u64>|
            ss.to_set() == comp@ && ss.no_duplicates() && r.0 as nat == #[trigger] starts_total(
                *h,
                comp@,
                ss,
                comp@.len(),
            ) && r.1 as nat == starts_count(*h, comp@, ss, comp@.len()),
{
    let items = set_items(comp);
    let rounds = comp.len();
    let ghost n = comp@.len();
    let mut total: u128 = 0;
    let mut count: u128 = 0;
    let mut i: usize = 0;
    while i < items.len()
        invariant
            items@.to_set() == comp@,
            items@.no_duplicates(),
            items@.len() == n,
            n == comp@.len(),
            rounds == n,
            n <= u32::MAX,
            i <= items@.len(),
            total as nat == starts_total(*h, comp@, items@.take(i as int), n),
            count as nat == starts_count(*h, comp@, items@.take(i as int), n),
            total <= i * n * n * n,
            count <= i * n * n,
        decreases items@.len() - i,
    {
        let s = items[i];
        proof {
            assert(items@.to_set().contains(s));
        }
        proof {
            vstd::seq_lib::seq_to_set_is_finite(items@);
        }
        let (t, k) = start_totals(h, comp, s, rounds);
        proof {
            assert(items@.take(i + 1).drop_last() == items@.take(i as int));
            assert(items@.take(i + 1).last() == s);
            assert(total + t <= (i + 1) * n * n * n) by (nonlinear_arith)
                requires
                    total <= i * n * n * n,
                    t <= n * n * n,
            ;
            assert(count + k <= (i + 1) * n * n) by (nonlinear_arith)
                requires
                    count <= i * n * n,
                    k <= n * n,
            ;
            assert((i + 1) * n * n * n <= n * n * n * n) by (nonlinear_arith)
                requires
                    i + 1 <= n,
            ;
            assert(n * n * n * n <= 0xffff_ffff_ffff_ffff_ffff_ffff_ffff_ffffu128) by (nonlinear_arith)
                requires
                    n <= u32::MAX,
            ;
            assert((i + 1) * n * n <= n * n * n) by (nonlinear_arith)
                requires
                    i + 1 <= n,
            ;
            assert(n * n * n <= n * n * n * n) by (nonlinear_arith)
                requires
                    n <= u32::MAX,
            ;
        }
        total = total + t;
        count = count + k;
        i = i + 1;
    }
    proof {
        assert(items@.take(items@.len() as int) == items@);
    }
    (total, count)
}

} // verus!
