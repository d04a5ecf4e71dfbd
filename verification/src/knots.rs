//! Knot regions: merging of candidate seed regions that overlap by more
//! than three tenths of the smaller one (transitively), the candidate a
//! tracked knot continues into, and the contacts between knots.
use crate::listops::set_items;
use crate::bitset::{
    bits_of, bitset_clone, bitset_intersect_with, bitset_ones, bitset_union_with,
    bitset_with_capacity,
};
use fixedbitset::FixedBitSet;
use std::collections::HashSet;
use vstd::prelude::*;

verus! {

/// Seeds `i` and `j` overlap enough to merge: they share a vertex, and ten
/// times the shared part exceeds three times the smaller seed.
pub open spec fn overlaps(seeds: Seq<Set<usize>>, i: int, j: int) -> bool {
    let shared = seeds[i].intersect(seeds[j]).len();
    let smaller = if seeds[i].len() < seeds[j].len() {
        seeds[i].len()
    } else {
        seeds[j].len()
    };
    &&& shared > 0
    &&& 10 * shared > 3 * smaller
}

/// `p` is a chain of seed indices below `n`, each consecutive pair
/// allowed by `ok`.
pub open spec fn is_chain(ok: spec_fn(int, int) -> bool, n: int, p: Seq<int>) -> bool {
    &&& p.len() >= 1
    &&& forall|k: int| 0 <= k < p.len() ==> 0 <= #[trigger] p[k] < n
    &&& forall|k: int| 0 <= k < p.len() - 1 ==> #[trigger] ok(p[k], p[k + 1])
}

/// A chain allowed by `ok` joins `a` to `b`.
pub open spec fn chained(ok: spec_fn(int, int) -> bool, n: int, a: int, b: int) -> bool {
    exists|p: Seq<int>| #[trigger] is_chain(ok, n, p) && p[0] == a && p[p.len() - 1] == b
}

/// A chain followed by a chain from its end.
pub proof fn lemma_chain_concat(ok: spec_fn(int, int) -> bool, n: int, a: int, b: int, c: int)
    requires
        chained(ok, n, a, b),
        chained(ok, n, b, c),
    ensures
        chained(ok, n, a, c),
{
    let p = choose|p: Seq<int>| #[trigger] is_chain(ok, n, p) && p[0] == a && p[p.len() - 1] == b;
    let q = choose|q: Seq<int>| #[trigger] is_chain(ok, n, q) && q[0] == b && q[q.len() - 1] == c;
    let r = p + q.drop_first();
    assert forall|k: int| 0 <= k < r.len() implies 0 <= #[trigger] r[k] < n by {
        if k < p.len() {
            assert(r[k] == p[k]);
        } else {
            assert(r[k] == q[k - p.len() + 1]);
        }
    }
    assert forall|k: int| 0 <= k < r.len() - 1 implies #[trigger] ok(r[k], r[k + 1]) by {
        if k < p.len() - 1 {
            assert(r[k] == p[k] && r[k + 1] == p[k + 1]);
        } else if k == p.len() - 1 {
            assert(r[k] == b && r[k + 1] == q[1]);
            assert(ok(q[0], q[1]));
        } else {
            assert(r[k] == q[k - p.len() + 1] && r[k + 1] == q[k - p.len() + 2]);
            assert(ok(q[k - p.len() + 1], q[k - p.len() + 1 + 1]));
        }
    }
    if q.len() == 1 {
        assert(r =~= p);
    }
    assert(is_chain(ok, n, r));
}

/// A chain under `ok1` is a chain under any `ok2` that allows at least as
/// much.
pub proof fn lemma_chain_mono(
    ok1: spec_fn(int, int) -> bool,
    ok2: spec_fn(int, int) -> bool,
    n: int,
    a: int,
    b: int,
)
    requires
        chained(ok1, n, a, b),
        forall|x: int, y: int| #[trigger] ok1(x, y) ==> ok2(x, y),
    ensures
        chained(ok2, n, a, b),
{
    let p = choose|p: Seq<int>| #[trigger] is_chain(ok1, n, p) && p[0] == a && p[p.len() - 1] == b;
    assert forall|k: int| 0 <= k < p.len() - 1 implies #[trigger] ok2(p[k], p[k + 1]) by {
        assert(ok1(p[k], p[k + 1]));
    }
    assert(is_chain(ok2, n, p));
}

/// One allowed step is a chain; so is staying put.
pub proof fn lemma_chain_edge(ok: spec_fn(int, int) -> bool, n: int, a: int, b: int)
    requires
        0 <= a < n,
        0 <= b < n,
        ok(a, b) || a == b,
    ensures
        chained(ok, n, a, b),
{
    if a == b {
        let p = seq![a];
        assert(is_chain(ok, n, p));
    } else {
        let p = seq![a, b];
        assert(p[0] == a && p[1] == b);
        assert(is_chain(ok, n, p));
    }
}

/// Along a chain whose steps keep the label, the label stays that of the
/// start.
proof fn lemma_chain_label_upto(
    ok: spec_fn(int, int) -> bool,
    n: int,
    lab: Seq<int>,
    p: Seq<int>,
    k: int,
)
    requires
        is_chain(ok, n, p),
        0 <= k < p.len(),
        lab.len() == n,
        forall|x: int, y: int| 0 <= x < n && 0 <= y < n && #[trigger] ok(x, y) ==> lab[x] == lab[y],
    ensures
        lab[p[0]] == lab[p[k]],
    decreases k,
{
    if k > 0 {
        lemma_chain_label_upto(ok, n, lab, p, k - 1);
        assert(ok(p[k - 1], p[k - 1 + 1]));
        assert(0 <= p[k - 1] < n && 0 <= p[k] < n);
    }
}

/// When every allowed step keeps the label, a chain keeps it.
pub proof fn lemma_chain_label(ok: spec_fn(int, int) -> bool, n: int, lab: Seq<int>, a: int, b: int)
    requires
        chained(ok, n, a, b),
        lab.len() == n,
        forall|x: int, y: int| 0 <= x < n && 0 <= y < n && #[trigger] ok(x, y) ==> lab[x] == lab[y],
    ensures
        lab[a] == lab[b],
{
    let p = choose|p: Seq<int>| #[trigger] is_chain(ok, n, p) && p[0] == a && p[p.len() - 1] == b;
    lemma_chain_label_upto(ok, n, lab, p, p.len() - 1);
}

/// The vertex sets of the seeds.
pub open spec fn seed_sets(seeds: Seq<FixedBitSet>) -> Seq<Set<usize>> {
    seeds.map_values(|b: FixedBitSet| bits_of(b))
}

/// Overlap as the merge relation among the seeds.
pub open spec fn overlap_ok(sv: Seq<Set<usize>>) -> spec_fn(int, int) -> bool {
    |x: int, y: int| overlaps(sv, x, y)
}

/// The pair `{x, y}` comes before `(i, j)` in row order (smaller index
/// first).
pub open spec fn processed(x: int, y: int, i: int, j: int) -> bool {
    let a = if x < y {
        x
    } else {
        y
    };
    let b = if x < y {
        y
    } else {
        x
    };
    a < b && (a < i || (a == i && b < j))
}

/// The merges looked at before `(i, j)`.
pub open spec fn merged_before(sv: Seq<Set<usize>>, i: int, j: int) -> spec_fn(int, int) -> bool {
    |x: int, y: int| overlaps(sv, x, y) && processed(x, y, i, j)
}

/// Every vertex of a seed joined to seed `a` by a chain of overlaps.
pub open spec fn class_union(sv: Seq<Set<usize>>, a: int) -> Set<usize> {
    Set::new(
        |v: usize|
            exists|k: int|
                0 <= k < sv.len() && #[trigger] chained(overlap_ok(sv), sv.len() as int, a, k)
                    && sv[k].contains(v),
    )
}

/// `out` lists the merged regions of the seeds `sv`: one per class of
/// seeds joined by chains of overlaps, each the union of its class, with
/// `reps` naming one seed of each class.
pub open spec fn merged_groups(sv: Seq<Set<usize>>, reps: Seq<int>, out: Seq<Set<u64>>) -> bool {
    let n = sv.len() as int;
    &&& reps.len() == out.len()
    &&& forall|g: int| 0 <= g < reps.len() ==> 0 <= #[trigger] reps[g] < n
    &&& forall|g: int|
        0 <= g < reps.len() ==> #[trigger] out[g] == class_union(sv, reps[g]).map(
            |b: usize| b as u64,
        )
    &&& forall|g: int, h: int|
        0 <= g < h < reps.len() ==> !chained(overlap_ok(sv), n, #[trigger] reps[g], #[trigger] reps[h])
    &&& forall|a: int| 0 <= a < n ==> #[trigger] has_rep(sv, reps, a)
}

/// Seed `a` is joined by a chain of overlaps to one of `reps`.
pub open spec fn has_rep(sv: Seq<Set<usize>>, reps: Seq<int>, a: int) -> bool {
    exists|g: int|
        0 <= g < reps.len() && #[trigger] chained(overlap_ok(sv), sv.len() as int, a, reps[g])
}

/// Whether seeds `i` and `j` overlap enough to merge.
fn seeds_overlap(seeds: &Vec<FixedBitSet>, i: usize, j: usize) -> (r: bool)
    requires
        i < seeds@.len(),
        j < seeds@.len(),
    ensures
        r == overlaps(seed_sets(seeds@), i as int, j as int),
{
    let mut both = bitset_clone(&seeds[i]);
    bitset_intersect_with(&mut both, &seeds[j]);
    let ob = bitset_ones(&both);
    let oi = bitset_ones(&seeds[i]);
    let oj = bitset_ones(&seeds[j]);
    proof {
        ob@.unique_seq_to_set();
        oi@.unique_seq_to_set();
        oj@.unique_seq_to_set();
    }
    let shared = ob.len();
    let li = oi.len();
    let lj = oj.len();
    let smaller = if li < lj {
        li
    } else {
        lj
    };
    proof {
        assert(seed_sets(seeds@)[i as int] == bits_of(seeds@[i as int]));
        assert(seed_sets(seeds@)[j as int] == bits_of(seeds@[j as int]));
    }
    shared > 0 && (shared as u128) * 10 > (smaller as u128) * 3
}

/// Overlap is symmetric.
proof fn lemma_overlap_symmetric(sv: Seq<Set<usize>>)
    ensures
        forall|x: int, y: int| #[trigger] overlaps(sv, x, y) ==> overlaps(sv, y, x),
{
    assert forall|x: int, y: int| #[trigger] overlaps(sv, x, y) implies overlaps(sv, y, x) by {
        assert(sv[x].intersect(sv[y]) =~= sv[y].intersect(sv[x]));
    }
}

/// Labels below `n`, each label a seed that carries itself as label.
pub open spec fn labels_ok(comp: Seq<usize>, n: int) -> bool {
    &&& comp.len() == n
    &&& forall|k: int| 0 <= k < n ==> (#[trigger] comp[k]) < n && comp[comp[k] as int] == comp[k]
}

/// Every step allowed by `ok` joins two seeds of one label.
pub open spec fn labels_keep(comp: Seq<usize>, n: int, ok: spec_fn(int, int) -> bool) -> bool {
    forall|x: int, y: int| 0 <= x < n && 0 <= y < n && #[trigger] ok(x, y) ==> comp[x] == comp[y]
}

/// Seeds of one label are joined by a chain allowed by `ok`.
pub open spec fn labels_join(comp: Seq<usize>, n: int, ok: spec_fn(int, int) -> bool) -> bool {
    forall|x: int, y: int|
        #![trigger comp[x], comp[y]]
        0 <= x < n && 0 <= y < n && comp[x] == comp[y] ==> chained(ok, n, x, y)
}

/// The merges looked at so far form a symmetric relation, growing with
/// each pair.
proof fn lemma_merged_before_facts(sv: Seq<Set<usize>>, i: int, j: int)
    ensures
        forall|x: int, y: int| #[trigger] merged_before(sv, i, j)(x, y) ==> merged_before(sv, i, j)(y, x),
        forall|x: int, y: int| #[trigger] merged_before(sv, i, j)(x, y) ==> merged_before(sv, i, j + 1)(x, y),
        forall|x: int, y: int| #[trigger] merged_before(sv, i, j)(x, y) ==> overlap_ok(sv)(x, y),
{
    lemma_overlap_symmetric(sv);
    assert forall|x: int, y: int| #[trigger] merged_before(sv, i, j)(x, y) implies merged_before(sv, i, j)(y, x) by {
        assert(overlaps(sv, x, y));
    }
}

/// Looking at the pair `(i, j)` without merging keeps both label facts.
proof fn lemma_no_merge(sv: Seq<Set<usize>>, n: int, comp: Seq<usize>, i: int, j: int)
    requires
        sv.len() == n,
        0 <= i < j < n,
        labels_ok(comp, n),
        comp[i] == comp[j] || !overlaps(sv, i, j),
        labels_keep(comp, n, merged_before(sv, i, j)),
        labels_join(comp, n, merged_before(sv, i, j)),
    ensures
        labels_keep(comp, n, merged_before(sv, i, j + 1)),
        labels_join(comp, n, merged_before(sv, i, j + 1)),
{
    lemma_overlap_symmetric(sv);
    lemma_merged_before_facts(sv, i, j);
    assert forall|x: int, y: int|
        0 <= x < n && 0 <= y < n && #[trigger] merged_before(sv, i, j + 1)(x, y) implies comp[x] == comp[y] by {
        if !processed(x, y, i, j) {
            assert(overlaps(sv, x, y));
            if x == i {
                assert(y == j);
            } else {
                assert(x == j && y == i);
                assert(overlaps(sv, i, j));
            }
        } else {
            assert(merged_before(sv, i, j)(x, y));
        }
    }
    assert forall|x: int, y: int|
        #![trigger comp[x], comp[y]]
        0 <= x < n && 0 <= y < n && comp[x] == comp[y] implies chained(merged_before(sv, i, j + 1), n, x, y) by {
        lemma_chain_mono(merged_before(sv, i, j), merged_before(sv, i, j + 1), n, x, y);
    }
}

/// Merging the label of `j` into that of `i`, for an overlapping pair
/// `(i, j)`, keeps both label facts.
proof fn lemma_merge(
    sv: Seq<Set<usize>>,
    n: int,
    old: Seq<usize>,
    new: Seq<usize>,
    i: int,
    j: int,
)
    requires
        sv.len() == n,
        0 <= i < j < n,
        labels_ok(old, n),
        old[i] != old[j],
        overlaps(sv, i, j),
        new.len() == n,
        forall|t: int| 0 <= t < n ==> #[trigger] new[t] == (if old[t] == old[j] {
            old[i]
        } else {
            old[t]
        }),
        labels_keep(old, n, merged_before(sv, i, j)),
        labels_join(old, n, merged_before(sv, i, j)),
    ensures
        labels_ok(new, n),
        labels_keep(new, n, merged_before(sv, i, j + 1)),
        labels_join(new, n, merged_before(sv, i, j + 1)),
{
    let from = old[j];
    let to = old[i];
    let mb = merged_before(sv, i, j);
    let mb1 = merged_before(sv, i, j + 1);
    lemma_overlap_symmetric(sv);
    lemma_merged_before_facts(sv, i, j);
    lemma_merged_before_facts(sv, i, j + 1);
    assert forall|k: int| 0 <= k < n implies (#[trigger] new[k]) < n && new[new[k] as int] == new[k] by {
        assert(old[k] < n && old[old[k] as int] == old[k]);
        assert(old[to as int] == to);
        if old[k] == from {
            assert(new[to as int] == to);
        } else {
            assert(new[old[k] as int] == old[k]);
        }
    }
    assert(new[i] == to && new[j] == to);
    assert forall|x: int, y: int|
        0 <= x < n && 0 <= y < n && #[trigger] mb1(x, y) implies new[x] == new[y] by {
        if processed(x, y, i, j) {
            assert(mb(x, y));
            assert(old[x] == old[y]);
            assert(new[x] == (if old[x] == from { to } else { old[x] }));
            assert(new[y] == (if old[y] == from { to } else { old[y] }));
        } else {
            assert((x == i && y == j) || (x == j && y == i));
        }
    }
    assert(mb1(i, j));
    assert(mb1(j, i));
    lemma_chain_edge(mb1, n, i, j);
    lemma_chain_edge(mb1, n, j, i);
    assert forall|x: int, y: int|
        #![trigger new[x], new[y]]
        0 <= x < n && 0 <= y < n && new[x] == new[y] implies chained(mb1, n, x, y) by {
        assert(new[x] == (if old[x] == from { to } else { old[x] }));
        assert(new[y] == (if old[y] == from { to } else { old[y] }));
        if (old[x] == from) == (old[y] == from) {
            assert(old[x] == old[y]);
            lemma_chain_mono(mb, mb1, n, x, y);
        } else if old[x] == from {
            assert(old[x] == old[j] && old[i] == old[y]);
            lemma_chain_mono(mb, mb1, n, x, j);
            lemma_chain_mono(mb, mb1, n, i, y);
            lemma_chain_concat(mb1, n, x, j, i);
            lemma_chain_concat(mb1, n, x, i, y);
        } else {
            assert(old[x] == old[i] && old[j] == old[y]);
            lemma_chain_mono(mb, mb1, n, x, i);
            lemma_chain_mono(mb, mb1, n, j, y);
            lemma_chain_concat(mb1, n, x, i, j);
            lemma_chain_concat(mb1, n, x, j, y);
        }
    }
}

/// A chain of a symmetric relation, read backwards.
proof fn lemma_chain_reverse(ok: spec_fn(int, int) -> bool, n: int, a: int, b: int)
    requires
        chained(ok, n, a, b),
        forall|x: int, y: int| #[trigger] ok(x, y) ==> ok(y, x),
    ensures
        chained(ok, n, b, a),
{
    let p = choose|p: Seq<int>| #[trigger] is_chain(ok, n, p) && p[0] == a && p[p.len() - 1] == b;
    let q = p.reverse();
    assert forall|k: int| 0 <= k < q.len() implies 0 <= #[trigger] q[k] < n by {
        assert(q[k] == p[p.len() - 1 - k]);
    }
    assert forall|k: int| 0 <= k < q.len() - 1 implies #[trigger] ok(q[k], q[k + 1]) by {
        let m = p.len() - 2 - k;
        assert(q[k] == p[m + 1] && q[k + 1] == p[m]);
        assert(ok(p[m], p[m + 1]));
    }
    assert(is_chain(ok, n, q));
    assert(q[0] == b && q[q.len() - 1] == a);
}

/// Two seeds that share `k > 0` vertices, where ten times `k` exceeds three
/// times the size of the smaller of the two, end up in one merged region:
/// some region holds every vertex of both.
pub proof fn law_overlapping_seeds_merge(
    sv: Seq<Set<usize>>,
    reps: Seq<int>,
    out: Seq<Set<u64>>,
    i: int,
    j: int,
)
    requires
        merged_groups(sv, reps, out),
        0 <= i < sv.len(),
        0 <= j < sv.len(),
        sv[i].intersect(sv[j]).len() > 0,
        sv[i].len() <= sv[j].len() ==> 10 * sv[i].intersect(sv[j]).len() > 3 * sv[i].len(),
        sv[j].len() <= sv[i].len() ==> 10 * sv[i].intersect(sv[j]).len() > 3 * sv[j].len(),
    ensures
        exists|g: int|
            #![trigger out[g]]
            0 <= g < out.len() && forall|v: usize|
                sv[i].contains(v) || sv[j].contains(v) ==> #[trigger] out[g].contains(v as u64),
{
    let n = sv.len() as int;
    let ok = overlap_ok(sv);
    assert(overlaps(sv, i, j));
    assert(ok(i, j));
    lemma_overlap_symmetric(sv);
    assert forall|x: int, y: int| #[trigger] ok(x, y) implies ok(y, x) by {
        assert(overlaps(sv, x, y));
    }
    lemma_chain_edge(ok, n, i, j);
    assert(has_rep(sv, reps, i));
    let g = choose|g: int| 0 <= g < reps.len() && #[trigger] chained(ok, n, i, reps[g]);
    lemma_chain_reverse(ok, n, i, reps[g]);
    lemma_chain_concat(ok, n, reps[g], i, j);
    let cu = class_union(sv, reps[g]);
    assert(out[g] == cu.map(|b: usize| b as u64));
    assert forall|v: usize| sv[i].contains(v) || sv[j].contains(v) implies #[trigger] out[g].contains(
        v as u64,
    ) by {
        if sv[i].contains(v) {
            assert(chained(overlap_ok(sv), n, reps[g], i) && sv[i].contains(v));
        } else {
            assert(chained(overlap_ok(sv), n, reps[g], j) && sv[j].contains(v));
        }
        assert(cu.contains(v));
    }
}

/// A chain that ends elsewhere than it starts takes a step between two
/// different seeds.
proof fn lemma_chain_crosses(ok: spec_fn(int, int) -> bool, n: int, p: Seq<int>, k: int)
    requires
        is_chain(ok, n, p),
        0 <= k < p.len(),
        p[0] != p[k],
    ensures
        exists|t: int| 0 <= t < k && #[trigger] ok(p[t], p[t + 1]) && p[t] != p[t + 1],
    decreases k,
{
    if p[k - 1] != p[k] {
        assert(ok(p[k - 1], p[k - 1 + 1]));
    } else {
        lemma_chain_crosses(ok, n, p, k - 1);
        let t = choose|t: int| 0 <= t < k - 1 && #[trigger] ok(p[t], p[t + 1]) && p[t] != p[t + 1];
    }
}

/// Of two seeds that do not overlap enough to merge, no chain joins one to
/// the other.
proof fn lemma_two_seeds_apart(sv: Seq<Set<usize>>, a: int, b: int)
    requires
        sv.len() == 2,
        !overlaps(sv, 0, 1),
        0 <= a < 2,
        0 <= b < 2,
        chained(overlap_ok(sv), 2, a, b),
    ensures
        a == b,
{
    let ok = overlap_ok(sv);
    if a != b {
        lemma_overlap_symmetric(sv);
        let p = choose|p: Seq<int>| #[trigger] is_chain(ok, 2, p) && p[0] == a && p[p.len() - 1] == b;
        lemma_chain_crosses(ok, 2, p, p.len() - 1);
        let t = choose|t: int| 0 <= t < p.len() - 1 && #[trigger] ok(p[t], p[t + 1]) && p[t] != p[t + 1];
        assert(0 <= p[t] < 2 && 0 <= p[t + 1] < 2);
        assert(overlaps(sv, p[t], p[t + 1]));
        if p[t] == 1 {
            assert(overlaps(sv, 1, 0));
        }
    }
}

/// Two seeds that share no vertex, or share `k` vertices where ten times
/// `k` is at most three times the size of the smaller of the two, stay two
/// regions, each holding exactly the vertices of its own seed.
pub proof fn law_apart_seeds_stay_apart(sv: Seq<Set<usize>>, reps: Seq<int>, out: Seq<Set<u64>>)
    requires
        merged_groups(sv, reps, out),
        sv.len() == 2,
        sv[0].intersect(sv[1]).len() == 0 || (sv[0].len() <= sv[1].len() && 10 * sv[0].intersect(
            sv[1],
        ).len() <= 3 * sv[0].len()) || (sv[1].len() <= sv[0].len() && 10 * sv[0].intersect(
            sv[1],
        ).len() <= 3 * sv[1].len()),
    ensures
        out.len() == 2,
        reps.len() == 2,
        reps[0] != reps[1],
        forall|g: int, v: usize|
            0 <= g < 2 ==> (#[trigger] out[g].contains(v as u64) <==> sv[reps[g]].contains(v)),
{
    let ok = overlap_ok(sv);
    assert(!overlaps(sv, 0, 1));
    assert(has_rep(sv, reps, 0));
    assert(has_rep(sv, reps, 1));
    let g0 = choose|g: int| 0 <= g < reps.len() && #[trigger] chained(ok, 2, 0, reps[g]);
    let g1 = choose|g: int| 0 <= g < reps.len() && #[trigger] chained(ok, 2, 1, reps[g]);
    lemma_two_seeds_apart(sv, 0, reps[g0]);
    lemma_two_seeds_apart(sv, 1, reps[g1]);
    assert(g0 != g1);
    if reps.len() > 2 {
        let (x, y) = if reps[0] == reps[1] {
            (0int, 1int)
        } else if reps[0] == reps[2] {
            (0int, 2int)
        } else {
            (1int, 2int)
        };
        lemma_chain_edge(ok, 2, reps[x], reps[y]);
        assert(!chained(ok, 2, reps[x], reps[y]));
    }
    assert(reps.len() == 2);
    assert(reps[0] != reps[1]) by {
        if reps[0] == reps[1] {
            lemma_chain_edge(ok, 2, reps[0], reps[1]);
            assert(!chained(ok, 2, reps[0], reps[1]));
        }
    }
    assert forall|g: int, v: usize|
        0 <= g < 2 implies (#[trigger] out[g].contains(v as u64) <==> sv[reps[g]].contains(v)) by {
        let cu = class_union(sv, reps[g]);
        assert(out[g] == cu.map(|b: usize| b as u64));
        lemma_chain_edge(ok, 2, reps[g], reps[g]);
        if sv[reps[g]].contains(v) {
            assert(chained(overlap_ok(sv), 2, reps[g], reps[g]) && sv[reps[g]].contains(v));
            assert(cu.contains(v));
        }
        if out[g].contains(v as u64) {
            let x = choose|x: usize| cu.contains(x) && v as u64 == x as u64;
            assert(x == v);
            let k = choose|k: int|
                0 <= k < sv.len() && #[trigger] chained(overlap_ok(sv), sv.len() as int, reps[g], k)
                    && sv[k].contains(v);
            lemma_two_seeds_apart(sv, reps[g], k);
        }
    }
}

/// Labels the seeds so that two share a label exactly when a chain of
/// overlaps joins them; each label is the index of a seed of its class.
fn merge_labels(seeds: &Vec<FixedBitSet>) -> (comp: Vec<usize>)
    ensures
        labels_ok(comp@, seeds@.len() as int),
        forall|x: int, y: int|
            #![trigger comp@[x], comp@[y]]
            #![trigger chained(overlap_ok(seed_sets(seeds@)), seeds@.len() as int, x, y)]
            0 <= x < seeds@.len() && 0 <= y < seeds@.len() ==> (comp@[x] == comp@[y] <==> chained(
                overlap_ok(seed_sets(seeds@)),
                seeds@.len() as int,
                x,
                y,
            )),
{
    let n = seeds.len();
    let ghost sv = seed_sets(seeds@);
    let ghost nn = n as int;
    let mut comp: Vec<usize> = Vec::new();
    let mut k: usize = 0;
    while k < n
        invariant
            k <= n,
            comp@.len() == k,
            forall|t: int| 0 <= t < k ==> #[trigger] comp@[t] == t,
        decreases n - k,
    {
        comp.push(k);
        k = k + 1;
    }
    proof {
        assert forall|x: int, y: int|
            #![trigger comp@[x], comp@[y]]
            0 <= x < nn && 0 <= y < nn && comp@[x] == comp@[y] implies chained(merged_before(sv, 0, 1), nn, x, y) by {
            lemma_chain_edge(merged_before(sv, 0, 1), nn, x, y);
        }
    }
    let mut i: usize = 0;
    while i < n
        invariant
            i <= n,
            n == seeds@.len(),
            nn == n,
            sv == seed_sets(seeds@),
            labels_ok(comp@, nn),
            labels_keep(comp@, nn, merged_before(sv, i as int, i + 1)),
            labels_join(comp@, nn, merged_before(sv, i as int, i + 1)),
        decreases n - i,
    {
        let mut j: usize = i + 1;
        while j < n
            invariant
                i < n,
                i + 1 <= j <= n,
                n == seeds@.len(),
                nn == n,
                sv == seed_sets(seeds@),
                labels_ok(comp@, nn),
                labels_keep(comp@, nn, merged_before(sv, i as int, j as int)),
                labels_join(comp@, nn, merged_before(sv, i as int, j as int)),
            decreases n - j,
        {
            if comp[i] != comp[j] && seeds_overlap(seeds, i, j) {
                let from = comp[j];
                let to = comp[i];
                let ghost old_comp = comp@;
                let mut k: usize = 0;
                while k < n
                    invariant
                        k <= n,
                        comp@.len() == n,
                        old_comp.len() == n,
                        forall|t: int| 0 <= t < k ==> #[trigger] comp@[t] == (if old_comp[t] == from {
                            to
                        } else {
                            old_comp[t]
                        }),
                        forall|t: int| k <= t < n ==> #[trigger] comp@[t] == old_comp[t],
                    decreases n - k,
                {
                    if comp[k] == from {
                        comp.set(k, to);
                    }
                    k = k + 1;
                }
                proof {
                    lemma_merge(sv, nn, old_comp, comp@, i as int, j as int);
                }
            } else {
                proof {
                    lemma_no_merge(sv, nn, comp@, i as int, j as int);
                }
            }
            j = j + 1;
        }
        proof {
            let mb = merged_before(sv, i as int, j as int);
            let mb1 = merged_before(sv, i + 1, i + 2);
            assert forall|x: int, y: int|
                0 <= x < nn && 0 <= y < nn && #[trigger] mb1(x, y) implies comp@[x] == comp@[y] by {
                assert(mb(x, y));
            }
            assert forall|x: int, y: int| #[trigger] mb(x, y) implies mb1(x, y) by {}
            assert forall|x: int, y: int|
                #![trigger comp@[x], comp@[y]]
                0 <= x < nn && 0 <= y < nn && comp@[x] == comp@[y] implies chained(mb1, nn, x, y) by {
                lemma_chain_mono(mb, mb1, nn, x, y);
            }
        }
        i = i + 1;
    }
    proof {
        let mb = merged_before(sv, nn, nn + 1);
        let lab = comp@.map_values(|c: usize| c as int);
        assert forall|x: int, y: int| #[trigger] mb(x, y) implies overlap_ok(sv)(x, y) by {}
        assert forall|x: int, y: int|
            0 <= x < nn && 0 <= y < nn && #[trigger] overlap_ok(sv)(x, y) implies lab[x] == lab[y] by {
            if x != y {
                assert(mb(x, y));
            }
        }
        assert forall|x: int, y: int|
            #![trigger comp@[x], comp@[y]]
            #![trigger chained(overlap_ok(sv), nn, x, y)]
            0 <= x < nn && 0 <= y < nn implies (comp@[x] == comp@[y] <==> chained(overlap_ok(sv), nn, x, y)) by {
            if comp@[x] == comp@[y] {
                lemma_chain_mono(mb, overlap_ok(sv), nn, x, y);
            }
            if chained(overlap_ok(sv), nn, x, y) {
                lemma_chain_label(overlap_ok(sv), nn, lab, x, y);
            }
        }
    }
    comp
}

/// The enabled bits of `b`, as vertex ids.
fn bit_ids(b: &FixedBitSet) -> (r: HashSet<u64>)
    ensures
        r@ == bits_of(*b).map(|i: usize| i as u64),
{
    let items = bitset_ones(b);
    let mut r: HashSet<u64> = HashSet::new();
    let mut k: usize = 0;
    while k < items.len()
        invariant
            k <= items@.len(),
            forall|v: u64| #[trigger] r@.contains(v) <==> exists|t: int| 0 <= t < k && v == items@[t] as u64,
        decreases items@.len() - k,
    {
        let x = items[k];
        r.insert(x as u64);
        proof {
            assert forall|v: u64| #[trigger] r@.contains(v) <==> exists|t: int| 0 <= t < k + 1 && v == items@[t] as u64 by {
                if v == x as u64 {
                    assert(items@[k as int] == x);
                }
            }
        }
        k = k + 1;
    }
    proof {
        let f = |i: usize| i as u64;
        assert forall|v: u64| #[trigger] r@.contains(v) <==> bits_of(*b).map(f).contains(v) by {
            if r@.contains(v) {
                let t = choose|t: int| 0 <= t < items@.len() && v == items@[t] as u64;
                assert(items@.to_set().contains(items@[t]));
                assert(bits_of(*b).contains(items@[t]) && v == f(items@[t]));
            }
            if bits_of(*b).map(f).contains(v) {
                let i = choose|i: usize| bits_of(*b).contains(i) && v == f(i);
                assert(items@.to_set().contains(i));
                let t = choose|t: int| 0 <= t < items@.len() && items@[t] == i;
                assert(v == items@[t] as u64);
            }
        }
        assert(r@ =~= bits_of(*b).map(f));
    }
    r
}

/// The vertex sets of merged regions.
pub open spec fn region_sets(groups: Seq<HashSet<u64>>) -> Seq<Set<u64>> {
    groups.map_values(|g: HashSet<u64>| g@)
}

/// The vertices of the seeds below `k` that carry label `r`.
pub open spec fn labelled_upto(sv: Seq<Set<usize>>, comp: Seq<usize>, r: int, k: int) -> Set<usize> {
    Set::new(|v: usize| exists|t: int| 0 <= t < k && comp[t] == r && #[trigger] sv[t].contains(v))
}

/// Joins the seed regions that overlap by more than three tenths of the
/// smaller one, transitively: one region per class of seeds joined by a
/// chain of such overlaps, holding every vertex of its class.
pub fn merge_seed_regions(seeds: &Vec<FixedBitSet>) -> (groups: Vec<HashSet<u64>>)
    ensures
        exists|reps: Seq<int>|
            #[trigger] merged_groups(seed_sets(seeds@), reps, region_sets(groups@)),
{
    let n = seeds.len();
    let comp = merge_labels(seeds);
    let ghost sv = seed_sets(seeds@);
    let ghost nn = n as int;
    let ghost ok = overlap_ok(sv);
    let mut groups: Vec<HashSet<u64>> = Vec::new();
    let ghost mut reps: Seq<int> = Seq::empty();
    let mut r: usize = 0;
    while r < n
        invariant
            r <= n,
            n == seeds@.len(),
            nn == n,
            sv == seed_sets(seeds@),
            ok == overlap_ok(sv),
            labels_ok(comp@, nn),
            forall|x: int, y: int|
                #![trigger comp@[x], comp@[y]]
                #![trigger chained(ok, nn, x, y)]
                0 <= x < nn && 0 <= y < nn ==> (comp@[x] == comp@[y] <==> chained(ok, nn, x, y)),
            groups@.len() == reps.len(),
            forall|g: int| 0 <= g < reps.len() ==> 0 <= #[trigger] reps[g] < r && comp@[reps[g]] == reps[g],
            forall|g: int, h: int| 0 <= g < h < reps.len() ==> #[trigger] reps[g] < #[trigger] reps[h],
            forall|c: int| 0 <= c < r && comp@[c] == c ==> exists|g: int| 0 <= g < reps.len() && #[trigger] reps[g] == c,
            forall|g: int|
                0 <= g < reps.len() ==> #[trigger] groups@[g]@ == class_union(sv, reps[g]).map(
                    |b: usize| b as u64,
                ),
        decreases n - r,
    {
        let ghost reps0 = reps;
        if comp[r] == r {
            let mut acc = bitset_with_capacity(0);
            let mut k: usize = 0;
            while k < n
                invariant
                    k <= n,
                    r < n,
                    n == seeds@.len(),
                    sv == seed_sets(seeds@),
                    comp@.len() == n,
                    bits_of(acc) == labelled_upto(sv, comp@, r as int, k as int),
                decreases n - k,
            {
                let ghost before = bits_of(acc);
                if comp[k] == r {
                    bitset_union_with(&mut acc, &seeds[k]);
                }
                proof {
                    assert(sv[k as int] == bits_of(seeds@[k as int]));
                    assert(bits_of(acc) =~= labelled_upto(sv, comp@, r as int, k + 1));
                }
                k = k + 1;
            }
            proof {
                assert forall|v: usize| #[trigger] bits_of(acc).contains(v) <==> class_union(sv, r as int).contains(v) by {
                    if bits_of(acc).contains(v) {
                        let t = choose|t: int| 0 <= t < nn && comp@[t] == r && #[trigger] sv[t].contains(v);
                        assert(comp@[r as int] == comp@[t]);
                        assert(chained(ok, nn, r as int, t));
                    }
                    if class_union(sv, r as int).contains(v) {
                        let t = choose|t: int| 0 <= t < sv.len() && #[trigger] chained(ok, nn, r as int, t) && sv[t].contains(v);
                        assert(comp@[r as int] == comp@[t]);
                    }
                }
                assert(bits_of(acc) =~= class_union(sv, r as int));
            }
            let ids = bit_ids(&acc);
            groups.push(ids);
            proof {
                reps = reps.push(r as int);
                assert(groups@[reps.len() - 1]@ == class_union(sv, r as int).map(|b: usize| b as u64));
            }
        }
        proof {
            assert forall|c: int| 0 <= c < r + 1 && comp@[c] == c implies exists|g: int|
                0 <= g < reps.len() && #[trigger] reps[g] == c by {
                if c == r {
                    assert(reps[reps.len() - 1] == c);
                } else {
                    let g = choose|g: int| 0 <= g < reps0.len() && #[trigger] reps0[g] == c;
                    assert(reps[g] == c);
                }
            }
        }
        r = r + 1;
    }
    proof {
        let out = region_sets(groups@);
        assert forall|g: int, h: int| 0 <= g < h < reps.len() implies !chained(ok, nn, #[trigger] reps[g], #[trigger] reps[h]) by {
            assert(comp@[reps[g]] == reps[g]);
            assert(comp@[reps[h]] == reps[h]);
        }
        assert forall|a: int| 0 <= a < nn implies #[trigger] has_rep(sv, reps, a) by {
            let c = comp@[a] as int;
            assert(comp@[c] == c);
            let g = choose|g: int| 0 <= g < reps.len() && #[trigger] reps[g] == c;
            assert(comp@[a] == comp@[reps[g]]);
            assert(chained(ok, nn, a, reps[g]));
            assert(sv.len() == nn);
            assert(chained(overlap_ok(sv), sv.len() as int, a, reps[g]));
        }
        assert forall|g: int| 0 <= g < reps.len() implies #[trigger] out[g] == class_union(sv, reps[g]).map(
            |b: usize| b as u64,
        ) by {
            assert(out[g] == groups@[g]@);
        }
        assert(merged_groups(sv, reps, out));
    }
    groups
}

/// The number of ids shared by `a` and `b`.
fn shared_count(a: &HashSet<u64>, b: &HashSet<u64>) -> (r: usize)
    ensures
        r as nat == a@.intersect(b@).len(),
{
    let items = set_items(a);
    let ghost p = |x: u64| b@.contains(x);
    let mut count: usize = 0;
    let mut i: usize = 0;
    while i < items.len()
        invariant
            i <= items@.len(),
            p == (|x: u64| b@.contains(x)),
            count as nat == items@.take(i as int).filter(p).len(),
            count <= i,
        decreases items@.len() - i,
    {
        proof {
            assert(items@.take(i + 1) == items@.take(i as int).push(items@[i as int]));
            items@.take(i as int).lemma_filter_push(items@[i as int], p);
        }
        if b.contains(&items[i]) {
            count = count + 1;
        }
        i = i + 1;
    }
    proof {
        assert(items@.take(items@.len() as int) == items@);
        crate::listops::lemma_filter_card(items@, p);
        assert(items@.to_set().filter(p) =~= a@.intersect(b@));
    }
    count
}

/// The share of a candidate region that a knot's vertices cover, as the
/// pair (shared ids, size of the smaller of the two).
pub open spec fn overlap_of(knot: Set<u64>, cand: Set<u64>) -> (nat, nat) {
    let smaller = if knot.len() < cand.len() {
        knot.len()
    } else {
        cand.len()
    };
    (knot.intersect(cand).len(), smaller)
}

/// The overlap exceeds `threshold_ppm` millionths.
pub open spec fn passes(o: (nat, nat), threshold_ppm: u32) -> bool {
    o.1 > 0 && o.0 * 1_000_000 > threshold_ppm * o.1
}

/// Overlap `o` is strictly larger than overlap `p` (both with a non-empty
/// smaller side).
pub open spec fn larger(o: (nat, nat), p: (nat, nat)) -> bool {
    o.0 * p.1 > p.0 * o.1
}

/// The candidate a knot continues into: among the candidates whose overlap
/// with the knot exceeds `threshold_ppm` millionths, the first of largest
/// overlap; `None` when there is none.
pub fn best_match(knot: &HashSet<u64>, candidates: &Vec<HashSet<u64>>, threshold_ppm: u32) -> (r: Option<usize>)
    ensures
        r is None <==> forall|j: int|
            0 <= j < candidates@.len() ==> !passes(overlap_of(knot@, #[trigger] candidates@[j]@), threshold_ppm),
        r matches Some(i) ==> {
            &&& i < candidates@.len()
            &&& passes(overlap_of(knot@, candidates@[i as int]@), threshold_ppm)
            &&& forall|j: int|
                0 <= j < candidates@.len() && passes(overlap_of(knot@, #[trigger] candidates@[j]@), threshold_ppm)
                    ==> !larger(overlap_of(knot@, candidates@[j]@), overlap_of(knot@, candidates@[i as int]@))
            &&& forall|j: int|
                0 <= j < i && passes(overlap_of(knot@, #[trigger] candidates@[j]@), threshold_ppm) ==> larger(
                    overlap_of(knot@, candidates@[i as int]@),
                    overlap_of(knot@, candidates@[j]@),
                )
        },
{
    let mut best: Option<usize> = None;
    let mut best_shared: usize = 0;
    let mut best_smaller: usize = 0;
    let mut j: usize = 0;
    while j < candidates.len()
        invariant
            j <= candidates@.len(),
            best is None <==> forall|k: int|
                0 <= k < j ==> !passes(overlap_of(knot@, #[trigger] candidates@[k]@), threshold_ppm),
            best matches Some(i) ==> {
                &&& i < j
                &&& overlap_of(knot@, candidates@[i as int]@) == (best_shared as nat, best_smaller as nat)
                &&& passes(overlap_of(knot@, candidates@[i as int]@), threshold_ppm)
                &&& forall|k: int|
                    0 <= k < j && passes(overlap_of(knot@, #[trigger] candidates@[k]@), threshold_ppm) ==> !larger(
                        overlap_of(knot@, candidates@[k]@),
                        overlap_of(knot@, candidates@[i as int]@),
                    )
                &&& forall|k: int|
                    0 <= k < i && passes(overlap_of(knot@, #[trigger] candidates@[k]@), threshold_ppm) ==> larger(
                        overlap_of(knot@, candidates@[i as int]@),
                        overlap_of(knot@, candidates@[k]@),
                    )
            },
        decreases candidates@.len() - j,
    {
        let cand = &candidates[j];
        let shared = shared_count(knot, cand);
        let lk = knot.len();
        let lc = cand.len();
        let smaller = if lk < lc {
            lk
        } else {
            lc
        };
        let ghost o = overlap_of(knot@, candidates@[j as int]@);
        proof {
            assert(o == (shared as nat, smaller as nat));
        }
        proof {
            lemma_mul_fits(threshold_ppm as u128, smaller as u128);
            lemma_mul_fits(shared as u128, best_smaller as u128);
            lemma_mul_fits(best_shared as u128, smaller as u128);
        }
        let ok = smaller > 0 && (shared as u128) * 1_000_000 > (threshold_ppm as u128) * (smaller as u128);
        let better = match best {
            None => true,
            Some(_) => (shared as u128) * (best_smaller as u128) > (best_shared as u128) * (smaller as u128),
        };
        proof {
            assert((shared as u128) * 1_000_000 == shared * 1_000_000) by (nonlinear_arith)
                requires shared <= usize::MAX, usize::MAX <= u64::MAX;
            assert((threshold_ppm as u128) * (smaller as u128) == threshold_ppm * smaller) by (nonlinear_arith)
                requires smaller <= usize::MAX, usize::MAX <= u64::MAX;
            assert(ok == passes(o, threshold_ppm));
            if best is Some {
                assert((shared as u128) * (best_smaller as u128) == shared * best_smaller) by (nonlinear_arith)
                    requires shared <= usize::MAX, best_smaller <= usize::MAX, usize::MAX <= u64::MAX;
                assert((best_shared as u128) * (smaller as u128) == best_shared * smaller) by (nonlinear_arith)
                    requires best_shared <= usize::MAX, smaller <= usize::MAX, usize::MAX <= u64::MAX;
            }
        }
        if ok && better {
            let ghost prev = best;
            proof {
                if let Some(i0) = prev {
                    let bo = overlap_of(knot@, candidates@[i0 as int]@);
                    assert(larger(o, bo));
                    assert forall|k: int|
                        0 <= k < j + 1 && passes(overlap_of(knot@, #[trigger] candidates@[k]@), threshold_ppm) implies !larger(
                        overlap_of(knot@, candidates@[k]@),
                        o,
                    ) by {
                        let ko = overlap_of(knot@, candidates@[k]@);
                        if k < j {
                            assert(!larger(ko, bo));
                            assert(ko.0 * bo.1 <= bo.0 * ko.1);
                            assert(o.0 * bo.1 > bo.0 * o.1);
                            lemma_larger_trans(ko, bo, o);
                        }
                    }
                    assert forall|k: int|
                        0 <= k < j && passes(overlap_of(knot@, #[trigger] candidates@[k]@), threshold_ppm) implies larger(
                        o,
                        overlap_of(knot@, candidates@[k]@),
                    ) by {
                        let ko = overlap_of(knot@, candidates@[k]@);
                        assert(!larger(ko, bo));
                        lemma_larger_trans2(ko, bo, o);
                    }
                }
            }
            best = Some(j);
            best_shared = shared;
            best_smaller = smaller;
        } else {
            proof {
                if let Some(i0) = best {
                    let bo = overlap_of(knot@, candidates@[i0 as int]@);
                    if ok {
                        assert(!larger(o, bo));
                    }
                }
            }
        }
        j = j + 1;
    }
    best
}

/// Two numbers of at most 64 bits multiply within 128.
proof fn lemma_mul_fits(a: u128, b: u128)
    requires
        a <= u64::MAX,
        b <= u64::MAX,
    ensures
        a * b <= u128::MAX,
{
    assert(a * b <= u64::MAX * u64::MAX) by (nonlinear_arith)
        requires
            a <= u64::MAX,
            b <= u64::MAX,
    ;
}

/// Overlaps compare as fractions: below or equal to `b`, which is below
/// `c`, stays below `c`.
proof fn lemma_larger_trans(a: (nat, nat), b: (nat, nat), c: (nat, nat))
    requires
        a.1 > 0,
        b.1 > 0,
        c.1 > 0,
        a.0 * b.1 <= b.0 * a.1,
        c.0 * b.1 > b.0 * c.1,
    ensures
        !larger(a, c),
{
    assert(a.0 * c.1 <= c.0 * a.1) by (nonlinear_arith)
        requires
            a.1 > 0,
            b.1 > 0,
            c.1 > 0,
            a.0 * b.1 <= b.0 * a.1,
            c.0 * b.1 > b.0 * c.1,
    ;
}

/// Overlaps compare as fractions: `c` above `b`, which is not below `a`,
/// lies strictly above `a`.
proof fn lemma_larger_trans2(a: (nat, nat), b: (nat, nat), c: (nat, nat))
    requires
        a.1 > 0,
        b.1 > 0,
        c.1 > 0,
        !larger(a, b),
        larger(c, b),
    ensures
        larger(c, a),
{
    assert(c.0 * a.1 > a.0 * c.1) by (nonlinear_arith)
        requires
            a.1 > 0,
            b.1 > 0,
            c.1 > 0,
            a.0 * b.1 <= b.0 * a.1,
            c.0 * b.1 > b.0 * c.1,
    ;
}

/// Pair `(a, b)` comes before pair `(c, d)` in row order.
pub open spec fn row_before(a: int, b: int, c: int, d: int) -> bool {
    a < c || (a == c && b < d)
}

/// The contacts between knots: every pair `i < j` of `sets` that shares a
/// vertex, in row order, as `(i, j, shared, smaller)`.
pub fn knot_contacts(sets: &Vec<HashSet<u64>>) -> (r: Vec<(usize, usize, usize, usize)>)
    ensures
        forall|t: int|
            0 <= t < r@.len() ==> {
                let (i, j, sh, sm) = #[trigger] r@[t];
                &&& i < j < sets@.len()
                &&& sh > 0
                &&& overlap_of(sets@[i as int]@, sets@[j as int]@) == (sh as nat, sm as nat)
            },
        forall|i: int, j: int|
            0 <= i < j < sets@.len() && overlap_of(#[trigger] sets@[i]@, #[trigger] sets@[j]@).0 > 0
                ==> exists|t: int| 0 <= t < r@.len() && r@[t].0 == i && r@[t].1 == j,
        forall|t: int, u: int|
            0 <= t < u < r@.len() ==> row_before(
                (#[trigger] r@[t]).0 as int,
                r@[t].1 as int,
                (#[trigger] r@[u]).0 as int,
                r@[u].1 as int,
            ),
{
    let n = sets.len();
    let mut r: Vec<(usize, usize, usize, usize)> = Vec::new();
    let mut i: usize = 0;
    while i < n
        invariant
            n == sets@.len(),
            i <= n,
            forall|t: int|
                0 <= t < r@.len() ==> {
                    let (a, b, sh, sm) = #[trigger] r@[t];
                    &&& a < b < n
                    &&& a < i
                    &&& sh > 0
                    &&& overlap_of(sets@[a as int]@, sets@[b as int]@) == (sh as nat, sm as nat)
                },
            forall|a: int, b: int|
                0 <= a < b < n && a < i && overlap_of(#[trigger] sets@[a]@, #[trigger] sets@[b]@).0 > 0
                    ==> exists|t: int| 0 <= t < r@.len() && r@[t].0 == a && r@[t].1 == b,
            forall|t: int, u: int|
                0 <= t < u < r@.len() ==> row_before(
                    (#[trigger] r@[t]).0 as int,
                    r@[t].1 as int,
                    (#[trigger] r@[u]).0 as int,
                    r@[u].1 as int,
                ),
        decreases n - i,
    {
        let mut j: usize = i + 1;
        while j < n
            invariant
                n == sets@.len(),
                i < n,
                i + 1 <= j <= n,
                forall|t: int|
                    0 <= t < r@.len() ==> {
                        let (a, b, sh, sm) = #[trigger] r@[t];
                        &&& a < b < n
                        &&& row_before(a as int, b as int, i as int, j as int)
                        &&& sh > 0
                        &&& overlap_of(sets@[a as int]@, sets@[b as int]@) == (sh as nat, sm as nat)
                    },
                forall|a: int, b: int|
                    0 <= a < b < n && row_before(a, b, i as int, j as int) && overlap_of(
                        #[trigger] sets@[a]@,
                        #[trigger] sets@[b]@,
                    ).0 > 0 ==> exists|t: int| 0 <= t < r@.len() && r@[t].0 == a && r@[t].1 == b,
                forall|t: int, u: int|
                    0 <= t < u < r@.len() ==> row_before(
                        (#[trigger] r@[t]).0 as int,
                        r@[t].1 as int,
                        (#[trigger] r@[u]).0 as int,
                        r@[u].1 as int,
                    ),
            decreases n - j,
        {
            let shared = shared_count(&sets[i], &sets[j]);
            let li = sets[i].len();
            let lj = sets[j].len();
            let smaller = if li < lj {
                li
            } else {
                lj
            };
            let ghost r0 = r@;
            if shared > 0 {
                r.push((i, j, shared, smaller));
                proof {
                    assert(r@[r0.len() as int] == (i, j, shared, smaller));
                    assert forall|t: int| 0 <= t < r0.len() implies r@[t] == r0[t] by {}
                    assert forall|a: int, b: int|
                        0 <= a < b < n && row_before(a, b, i as int, j + 1) && overlap_of(
                            #[trigger] sets@[a]@,
                            #[trigger] sets@[b]@,
                        ).0 > 0 implies exists|t: int| 0 <= t < r@.len() && r@[t].0 == a && r@[t].1 == b by {
                        if a == i && b == j {
                            assert(r@[r0.len() as int].0 == a && r@[r0.len() as int].1 == b);
                        } else {
                            let t = choose|t: int| 0 <= t < r0.len() && r0[t].0 == a && r0[t].1 == b;
                            assert(r@[t] == r0[t]);
                        }
                    }
                }
            } else {
                proof {
                    assert forall|a: int, b: int|
                        0 <= a < b < n && row_before(a, b, i as int, j + 1) && overlap_of(
                            #[trigger] sets@[a]@,
                            #[trigger] sets@[b]@,
                        ).0 > 0 implies exists|t: int| 0 <= t < r@.len() && r@[t].0 == a && r@[t].1 == b by {
                        if a == i && b == j {
                            assert(overlap_of(sets@[i as int]@, sets@[j as int]@).0 == shared);
                        }
                    }
                }
            }
            j = j + 1;
        }
        proof {
            assert forall|a: int, b: int|
                0 <= a < b < n && a < i + 1 && overlap_of(#[trigger] sets@[a]@, #[trigger] sets@[b]@).0 > 0
                    implies exists|t: int| 0 <= t < r@.len() && r@[t].0 == a && r@[t].1 == b by {
                assert(row_before(a, b, i as int, n as int));
            }
        }
        i = i + 1;
    }
    r
}

} // verus!
