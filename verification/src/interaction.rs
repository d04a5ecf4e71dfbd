//! The engine's incremental interaction graph among worldline vertices: for
//! every unordered pair of worldlines a reference count of how often they
//! meet in a hyperedge, and for every worldline the bit set of those it
//! meets. Applying or undoing a rewrite updates both from the hyperedges
//! the rewrite added or removed.
use crate::bitset::{
    bits_of, bitset_disable, bitset_grow, bitset_insert, bitset_len, bitset_ok,
    bitset_with_capacity, capacity_of,
};
use crate::clusters::symmetric;
use crate::graph::adjacent;
use crate::hypergraph::{Hyperedge, Hypergraph, ID_LIMIT};
use crate::listops::keys_of;
use crate::rules::UndoRecord;
use fixedbitset::FixedBitSet;
use std::collections::HashMap;
use vstd::prelude::*;

verus! {

/// The key of the unordered pair `{i, j}`: the smaller id times 2^64 plus
/// the larger.
pub open spec fn pair_key_of(i: u64, j: u64) -> int {
    if i < j {
        i * 0x1_0000_0000_0000_0000 + j
    } else {
        j * 0x1_0000_0000_0000_0000 + i
    }
}

/// Two pairs with the same key are the same unordered pair.
pub proof fn lemma_pair_key_injective(i: u64, j: u64, a: u64, b: u64)
    requires
        pair_key_of(i, j) == pair_key_of(a, b),
    ensures
        (i == a && j == b) || (i == b && j == a),
{
    let (x, y) = if i < j {
        (i, j)
    } else {
        (j, i)
    };
    let (p, q) = if a < b {
        (a, b)
    } else {
        (b, a)
    };
    assert(x * 0x1_0000_0000_0000_0000 + y == p * 0x1_0000_0000_0000_0000 + q);
    assert(x == p && y == q) by (nonlinear_arith)
        requires
            x * 0x1_0000_0000_0000_0000 + y == p * 0x1_0000_0000_0000_0000 + q,
            0 <= y < 0x1_0000_0000_0000_0000,
            0 <= q < 0x1_0000_0000_0000_0000,
            0 <= x,
            0 <= p,
    {
        if x < p {
            assert(x * 0x1_0000_0000_0000_0000 + 0x1_0000_0000_0000_0000 <= p
                * 0x1_0000_0000_0000_0000);
        }
        if p < x {
            assert(p * 0x1_0000_0000_0000_0000 + 0x1_0000_0000_0000_0000 <= x
                * 0x1_0000_0000_0000_0000);
        }
    }
}

/// The key of the unordered pair `{i, j}`.
pub fn pair_key(i: u64, j: u64) -> (k: u128)
    ensures
        k as int == pair_key_of(i, j),
{
    let (a, b) = if i < j {
        (i, j)
    } else {
        (j, i)
    };
    assert(a * 0x1_0000_0000_0000_0000 + b <= u128::MAX) by (nonlinear_arith)
        requires
            a <= u64::MAX,
            b <= u64::MAX,
    ;
    (a as u128) * 0x1_0000_0000_0000_0000u128 + (b as u128)
}

/// The count recorded under key `k` (zero when none).
pub open spec fn count_at(c: Map<u128, u16>, k: int) -> int {
    if 0 <= k <= u128::MAX && c.contains_key(k as u128) {
        c[k as u128] as int
    } else {
        0
    }
}

/// `j` is among the neighbours of `i` in `inter`.
pub open spec fn linked(inter: Map<u64, FixedBitSet>, i: u64, j: u64) -> bool {
    inter.contains_key(i) && bits_of(inter[i]).contains(j as usize)
}

/// For distinct ids below the id bound, `j` is a neighbour of `i` exactly
/// when the count of the pair is positive.
pub open spec fn graph_consistent(inter: Map<u64, FixedBitSet>, counts: Map<u128, u16>) -> bool {
    forall|i: u64, j: u64|
        #![trigger linked(inter, i, j)]
        i != j && i < ID_LIMIT && j < ID_LIMIT ==> (linked(inter, i, j) <==> count_at(
            counts,
            pair_key_of(i, j),
        ) > 0)
}

/// The vertices of `vs` that are worldlines of `h`: present, with depth at
/// least `cutoff`.
pub open spec fn worldlines(h: Hypergraph, vs: Seq<u64>, cutoff: usize) -> Seq<u64> {
    vs.filter(|x: u64| h.vertices@.contains_key(x) && h.vertices@[x].depth >= cutoff)
}

/// The predicate "other than `x`, and forming with `x` the pair of key `k`".
pub open spec fn partner_of(x: u64, k: int) -> spec_fn(u64) -> bool {
    |y: u64| y != x && pair_key_of(x, y) == k
}

/// The number of ordered position pairs `(a, b)` of `wl`, `a` among the
/// first `n`, whose ids differ and form the pair of key `k`.
pub open spec fn occ_upto(wl: Seq<u64>, n: nat, k: int) -> nat
    decreases n,
{
    if n == 0 || n > wl.len() {
        0
    } else {
        occ_upto(wl, (n - 1) as nat, k) + wl.filter(partner_of(wl[n - 1], k)).len()
    }
}

/// How many ordered position pairs of `wl` form the pair of key `k`.
pub open spec fn occurrences(wl: Seq<u64>, k: int) -> nat {
    occ_upto(wl, wl.len(), k)
}

/// A count `c` after `n` increments (`adding`) or `n` decrements that stop
/// at zero.
pub open spec fn counted(adding: bool, c: int, n: nat) -> int {
    if adding {
        c + n
    } else if c >= n {
        c - n
    } else {
        0
    }
}

/// Every neighbour set of `inter` is a bit set in good order.
pub open spec fn sets_ok(inter: Map<u64, FixedBitSet>) -> bool {
    forall|k: u64| #[trigger] inter.contains_key(k) ==> bitset_ok(inter[k])
}

/// The neighbours of `owner` (none when it has no entry).
pub open spec fn bits_at(inter: Map<u64, FixedBitSet>, owner: u64) -> Set<usize> {
    if inter.contains_key(owner) {
        bits_of(inter[owner])
    } else {
        Set::empty()
    }
}

/// No vertex lists itself among its neighbours.
pub open spec fn loop_free(inter: Map<u64, FixedBitSet>) -> bool {
    forall|k: u64| #[trigger] bits_at(inter, k).contains(k as usize) ==> k >= ID_LIMIT
}

/// Adds `b` to the neighbours of `owner`, making its entry (with capacity
/// `cap`) when it has none and growing it as needed.
fn add_bits(inter: &mut HashMap<u64, FixedBitSet>, owner: u64, b: u64, cap: usize)
    requires
        b < ID_LIMIT,
        sets_ok(old(inter)@),
    ensures
        sets_ok(final(inter)@),
        final(inter)@.dom() == old(inter)@.dom().insert(owner),
        bits_at(final(inter)@, owner) == bits_at(old(inter)@, owner).insert(b as usize),
        forall|k: u64| k != owner ==> #[trigger] final(inter)@.contains_key(k) ==> final(inter)@[k] == old(inter)@[k],
{
    let mut bs = match inter.remove(&owner) {
        Some(x) => x,
        None => bitset_with_capacity(cap),
    };
    proof {
        assert(bitset_ok(bs));
    }
    let needed: usize = b as usize + 1;
    if needed > bitset_len(&bs) {
        bitset_grow(&mut bs, needed);
    }
    bitset_insert(&mut bs, b as usize);
    inter.insert(owner, bs);
    proof {
        assert(final(inter)@.dom() =~= old(inter)@.dom().insert(owner));
    }
}

/// Removes `bit` from the neighbours of `owner`, where it has an entry.
fn clear_bit(inter: &mut HashMap<u64, FixedBitSet>, owner: u64, bit: u64)
    requires
        sets_ok(old(inter)@),
    ensures
        sets_ok(final(inter)@),
        final(inter)@.dom() == old(inter)@.dom(),
        bits_at(final(inter)@, owner) == bits_at(old(inter)@, owner).remove(bit as usize),
        forall|k: u64| k != owner ==> #[trigger] final(inter)@.contains_key(k) ==> final(inter)@[k] == old(inter)@[k],
{
    match inter.remove(&owner) {
        Some(mut bs) => {
            proof {
                assert(bitset_ok(bs));
            }
            if (bit as usize) < bitset_len(&bs) {
                bitset_disable(&mut bs, bit as usize);
            } else {
                proof {
                    assert(!bits_of(bs).contains(bit as usize));
                    assert(bits_of(bs).remove(bit as usize) =~= bits_of(bs));
                }
            }
            inter.insert(owner, bs);
        },
        None => {
            proof {
                assert(bits_at(old(inter)@, owner).remove(bit as usize) =~= Set::<usize>::empty());
            }
        },
    }
    proof {
        assert(final(inter)@.dom() =~= old(inter)@.dom());
    }
}

/// Linking the pair `{x, y}` whose count goes from zero to one keeps the
/// graph consistent.
proof fn lemma_link_consistent(
    inter0: Map<u64, FixedBitSet>,
    c0: Map<u128, u16>,
    inter1: Map<u64, FixedBitSet>,
    c1: Map<u128, u16>,
    x: u64,
    y: u64,
)
    requires
        graph_consistent(inter0, c0),
        x != y,
        x < ID_LIMIT,
        y < ID_LIMIT,
        forall|k: int| #[trigger] count_at(c1, k) == if k == pair_key_of(x, y) {
            1
        } else {
            count_at(c0, k)
        },
        bits_at(inter1, x) == bits_at(inter0, x).insert(y as usize),
        bits_at(inter1, y) == bits_at(inter0, y).insert(x as usize),
        forall|k: u64| k != x && k != y ==> #[trigger] bits_at(inter1, k) == bits_at(inter0, k),
    ensures
        graph_consistent(inter1, c1),
{
    assert forall|i: u64, j: u64|
        i != j && i < ID_LIMIT && j < ID_LIMIT implies (#[trigger] linked(inter1, i, j) <==> count_at(
        c1,
        pair_key_of(i, j),
    ) > 0) by {
        assert(linked(inter1, i, j) == bits_at(inter1, i).contains(j as usize));
        assert(linked(inter0, i, j) == bits_at(inter0, i).contains(j as usize));
        if pair_key_of(i, j) == pair_key_of(x, y) {
            lemma_pair_key_injective(i, j, x, y);
        } else {
            if i == x || i == y {
                assert(j != x && j != y);
                assert(j as usize != x as usize && j as usize != y as usize);
            } else {
                assert(bits_at(inter1, i) == bits_at(inter0, i));
            }
        }
    }
}

/// Unlinking the pair `{x, y}` whose count goes from one to zero keeps the
/// graph consistent.
proof fn lemma_unlink_consistent(
    inter0: Map<u64, FixedBitSet>,
    c0: Map<u128, u16>,
    inter1: Map<u64, FixedBitSet>,
    c1: Map<u128, u16>,
    x: u64,
    y: u64,
)
    requires
        graph_consistent(inter0, c0),
        x != y,
        x < ID_LIMIT,
        y < ID_LIMIT,
        forall|k: int| #[trigger] count_at(c1, k) == if k == pair_key_of(x, y) {
            0
        } else {
            count_at(c0, k)
        },
        bits_at(inter1, x) == bits_at(inter0, x).remove(y as usize),
        bits_at(inter1, y) == bits_at(inter0, y).remove(x as usize),
        forall|k: u64| k != x && k != y ==> #[trigger] bits_at(inter1, k) == bits_at(inter0, k),
    ensures
        graph_consistent(inter1, c1),
{
    assert forall|i: u64, j: u64|
        i != j && i < ID_LIMIT && j < ID_LIMIT implies (#[trigger] linked(inter1, i, j) <==> count_at(
        c1,
        pair_key_of(i, j),
    ) > 0) by {
        assert(linked(inter1, i, j) == bits_at(inter1, i).contains(j as usize));
        assert(linked(inter0, i, j) == bits_at(inter0, i).contains(j as usize));
        if pair_key_of(i, j) == pair_key_of(x, y) {
            lemma_pair_key_injective(i, j, x, y);
        } else {
            if i == x || i == y {
                assert(j as usize != x as usize && j as usize != y as usize);
            } else {
                assert(bits_at(inter1, i) == bits_at(inter0, i));
            }
        }
    }
}

/// A change of counts that keeps every count's sign keeps the graph
/// consistent.
proof fn lemma_recount_consistent(inter: Map<u64, FixedBitSet>, c0: Map<u128, u16>, c1: Map<u128, u16>)
    requires
        graph_consistent(inter, c0),
        forall|k: int| #[trigger] count_at(c1, k) > 0 <==> count_at(c0, k) > 0,
    ensures
        graph_consistent(inter, c1),
{
    assert forall|i: u64, j: u64|
        i != j && i < ID_LIMIT && j < ID_LIMIT implies (#[trigger] linked(inter, i, j) <==> count_at(
        c1,
        pair_key_of(i, j),
    ) > 0) by {
        assert(count_at(c1, pair_key_of(i, j)) > 0 <==> count_at(c0, pair_key_of(i, j)) > 0);
    }
}

/// Occurrences over a prefix grow with the prefix.
proof fn lemma_occ_mono(w: Seq<u64>, a: nat, m: nat, k: int)
    requires
        a <= m <= w.len(),
    ensures
        occ_upto(w, a, k) <= occ_upto(w, m, k),
    decreases m - a,
{
    if a < m {
        lemma_occ_mono(w, a, (m - 1) as nat, k);
    }
}

/// The worldline vertices of `vs`, in order.
fn worldline_ids(h: &Hypergraph, vs: &Vec<u64>, cutoff: usize) -> (r: Vec<u64>)
    ensures
        r@ == worldlines(*h, vs@, cutoff),
{
    let ghost p = |x: u64| h.vertices@.contains_key(x) && h.vertices@[x].depth >= cutoff;
    let mut r: Vec<u64> = Vec::new();
    let mut i: usize = 0;
    while i < vs.len()
        invariant
            i <= vs@.len(),
            p == (|x: u64| h.vertices@.contains_key(x) && h.vertices@[x].depth >= cutoff),
            r@ == vs@.take(i as int).filter(p),
        decreases vs@.len() - i,
    {
        proof {
            assert(vs@.take(i + 1) == vs@.take(i as int).push(vs@[i as int]));
            vs@.take(i as int).lemma_filter_push(vs@[i as int], p);
        }
        let keep = match h.vertices.get(&vs[i]) {
            Some(v) => v.depth >= cutoff,
            None => false,
        };
        if keep {
            r.push(vs[i]);
        }
        i = i + 1;
    }
    proof {
        assert(vs@.take(vs@.len() as int) == vs@);
    }
    r
}

/// Applies the hyperedge over `vs` to the interaction graph: for every
/// ordered position pair of distinct worldline vertices of `vs` (present,
/// with depth at least `cutoff`), the pair's count goes up by one
/// (`adding`; a count leaving zero links the two, new sets made with
/// capacity `cap`), or down by one unless
/// it is zero (a count reaching zero unlinks the two).
pub fn process_edge(
    h: &Hypergraph,
    inter: &mut HashMap<u64, FixedBitSet>,
    counts: &mut HashMap<u128, u16>,
    vs: &Vec<u64>,
    adding: bool,
    cutoff: usize,
    cap: usize,
)
    requires
        h.wf(),
        sets_ok(old(inter)@),
        graph_consistent(old(inter)@, old(counts)@),
        adding ==> forall|k: int| #[trigger]
            count_at(old(counts)@, k) + occurrences(worldlines(*h, vs@, cutoff), k) <= u16::MAX,
    ensures
        sets_ok(final(inter)@),
        graph_consistent(final(inter)@, final(counts)@),
        loop_free(old(inter)@) ==> loop_free(final(inter)@),
        forall|k: int| #[trigger]
            count_at(final(counts)@, k) == counted(
                adding,
                count_at(old(counts)@, k),
                occurrences(worldlines(*h, vs@, cutoff), k),
            ),
{
    let ghost lf = loop_free(inter@);
    let wl = worldline_ids(h, vs, cutoff);
    let ghost w = wl@;
    let ghost c0 = counts@;
    proof {
        let p = |x: u64| h.vertices@.contains_key(x) && h.vertices@[x].depth >= cutoff;
        crate::listops::lemma_filter_subset(vs@, p);
        assert forall|i: int| 0 <= i < w.len() implies #[trigger] w[i] < ID_LIMIT by {
            assert(p(w[i]));
            assert(h.vertex_ok(w[i]));
        }
    }
    let n = wl.len();
    let mut a: usize = 0;
    while a < n
        invariant
            h.wf(),
            w == wl@,
            n == w.len(),
            a <= n,
            forall|i: int| 0 <= i < w.len() ==> #[trigger] w[i] < ID_LIMIT,
            sets_ok(inter@),
            graph_consistent(inter@, counts@),
            lf ==> loop_free(inter@),
            forall|k: int| #[trigger]
                count_at(counts@, k) == counted(adding, count_at(c0, k), occ_upto(w, a as nat, k)),
            adding ==> forall|k: int| #[trigger] count_at(c0, k) + occurrences(w, k) <= u16::MAX,
        decreases n - a,
    {
        let x = wl[a];
        let mut b: usize = 0;
        proof {
            assert(w.take(0) =~= Seq::<u64>::empty());
            assert forall|k: int| #[trigger] count_at(counts@, k) == counted(
                adding,
                count_at(c0, k),
                occ_upto(w, a as nat, k) + w.take(0).filter(partner_of(x, k)).len(),
            ) by {
                assert(w.take(0).filter(partner_of(x, k)) =~= Seq::<u64>::empty());
            }
        }
        while b < n
            invariant
                h.wf(),
                w == wl@,
                n == w.len(),
                a < n,
                x == w[a as int],
                b <= n,
                forall|i: int| 0 <= i < w.len() ==> #[trigger] w[i] < ID_LIMIT,
                sets_ok(inter@),
                graph_consistent(inter@, counts@),
                lf ==> loop_free(inter@),
                forall|k: int| #[trigger]
                    count_at(counts@, k) == counted(
                        adding,
                        count_at(c0, k),
                        occ_upto(w, a as nat, k) + w.take(b as int).filter(partner_of(x, k)).len(),
                    ),
                adding ==> forall|k: int| #[trigger] count_at(c0, k) + occurrences(w, k) <= u16::MAX,
            decreases n - b,
        {
            let y = wl[b];
            let ghost before = counts@;
            proof {
                assert(w.take(b + 1) == w.take(b as int).push(y));
                assert forall|k: int| #[trigger]
                    w.take(b + 1).filter(partner_of(x, k)).len() == w.take(b as int).filter(
                        partner_of(x, k),
                    ).len() + if partner_of(x, k)(y) {
                        1int
                    } else {
                        0
                    } by {
                    w.take(b as int).lemma_filter_push(y, partner_of(x, k));
                }
            }
            if x != y {
                let k0 = pair_key(x, y);
                let ghost kk = k0 as int;
                let cur: u16 = match counts.get(&k0) {
                    Some(c) => *c,
                    None => 0,
                };
                proof {
                    assert(cur as int == count_at(counts@, kk));
                    assert(partner_of(x, kk)(y));
                }
                if adding {
                    proof {
                        let pre = occ_upto(w, a as nat, kk) + w.take(b as int).filter(partner_of(x, kk)).len();
                        w.take(b + 1).lemma_filter_len(partner_of(x, kk));
                        assert(w.take(b + 1).filter(partner_of(x, kk)).len() <= w.filter(partner_of(x, kk)).len()) by {
                            let t1 = w.take(b + 1);
                            let rest = w.skip(b + 1);
                            assert(w =~= t1 + rest);
                            Seq::filter_distributes_over_add(t1, rest, partner_of(x, kk));
                        }
                        assert(occ_upto(w, (a + 1) as nat, kk) == occ_upto(w, a as nat, kk) + w.filter(partner_of(w[a as int], kk)).len());
                        lemma_occ_mono(w, (a + 1) as nat, n as nat, kk);
                        assert(pre + 1 <= occurrences(w, kk));
                        assert(count_at(c0, kk) + occurrences(w, kk) <= u16::MAX);
                    }
                    if cur == 0 {
                        let ghost i0 = inter@;
                        add_bits(inter, x, y, cap);
                        add_bits(inter, y, x, cap);
                        counts.insert(k0, cur + 1);
                        proof {
                            assert forall|k: u64| k != x && k != y implies #[trigger] bits_at(inter@, k)
                                == bits_at(i0, k) by {}
                            lemma_link_consistent(i0, before, inter@, counts@, x, y);
                            if lf {
                                assert forall|k: u64| #[trigger] bits_at(inter@, k).contains(k as usize)
                                    implies k >= ID_LIMIT by {
                                    if k < ID_LIMIT {
                                        assert(!bits_at(i0, k).contains(k as usize));
                                    }
                                }
                            }
                        }
                    } else {
                        counts.insert(k0, cur + 1);
                        proof {
                            lemma_recount_consistent(inter@, before, counts@);
                        }
                    }
                } else if cur > 0 {
                    counts.insert(k0, cur - 1);
                    if cur == 1 {
                        let ghost i0 = inter@;
                        clear_bit(inter, x, y);
                        clear_bit(inter, y, x);
                        proof {
                            assert forall|k: u64| k != x && k != y implies #[trigger] bits_at(inter@, k)
                                == bits_at(i0, k) by {}
                            lemma_unlink_consistent(i0, before, inter@, counts@, x, y);
                            if lf {
                                assert forall|k: u64| #[trigger] bits_at(inter@, k).contains(k as usize)
                                    implies k >= ID_LIMIT by {
                                    if k < ID_LIMIT {
                                        assert(!bits_at(i0, k).contains(k as usize));
                                    }
                                }
                            }
                        }
                    } else {
                        proof {
                            lemma_recount_consistent(inter@, before, counts@);
                        }
                    }
                } else {
                    counts.insert(k0, 0);
                    proof {
                        lemma_recount_consistent(inter@, before, counts@);
                    }
                }
                proof {
                    assert forall|k: int| #[trigger]
                        count_at(counts@, k) == counted(
                            adding,
                            count_at(c0, k),
                            occ_upto(w, a as nat, k) + w.take(b + 1).filter(partner_of(x, k)).len(),
                        ) by {
                        if k == kk {
                            assert(count_at(before, k) == counted(
                                adding,
                                count_at(c0, k),
                                occ_upto(w, a as nat, k) + w.take(b as int).filter(partner_of(x, k)).len(),
                            ));
                        } else {
                            assert(count_at(counts@, k) == count_at(before, k));
                            assert(!partner_of(x, k)(y));
                        }
                    }
                }
            } else {
                proof {
                    assert forall|k: int| !partner_of(x, k)(y) by {}
                }
            }
            b = b + 1;
        }
        proof {
            assert(w.take(n as int) == w);
            assert(occ_upto(w, (a + 1) as nat, 0) == occ_upto(w, a as nat, 0) + w.filter(partner_of(w[a as int], 0)).len());
        }
        a = a + 1;
    }
}

/// The occurrences of key `k` summed over the hyperedges of `ids` that
/// `edges` holds, among their worldlines in `h`.
pub open spec fn edges_occ(
    edges: Map<u64, Hyperedge>,
    ids: Seq<u64>,
    h: Hypergraph,
    cutoff: usize,
    k: int,
) -> nat
    decreases ids.len(),
{
    if ids.len() == 0 {
        0
    } else {
        edges_occ(edges, ids.drop_last(), h, cutoff, k) + if edges.contains_key(ids.last()) {
            occurrences(worldlines(h, edges[ids.last()].vertices@, cutoff), k)
        } else {
            0
        }
    }
}

/// The count of key `k` after `update_interaction_graph_delta` from the
/// count `c`, the removed hyperedges taken in the order `rks`.
pub open spec fn count_after_delta(
    h: Hypergraph,
    record: UndoRecord,
    applying: bool,
    rks: Seq<u64>,
    c: int,
    k: int,
) -> int {
    let cutoff = (h.longest_worldline() / 10) as usize;
    let a = edges_occ(h.hyperedges@, record.added_edges@, h, cutoff, k);
    let r = edges_occ(record.removed_edges@, rks, h, cutoff, k);
    if applying {
        counted(false, c + a, r)
    } else {
        counted(false, c, a) + r
    }
}

/// The largest vertex id of `h`, or zero when it has none.
fn max_vertex_key(h: &Hypergraph) -> (r: u64)
    requires
        h.wf(),
    ensures
        r < ID_LIMIT,
        forall|k: u64| #[trigger] h.vertices@.contains_key(k) ==> k <= r,
        h.vertices@.len() > 0 ==> h.vertices@.contains_key(r),
        h.vertices@.len() == 0 ==> r == 0,
{
    let ks = keys_of(&h.vertices);
    let mut best: u64 = 0;
    let mut i: usize = 0;
    while i < ks.len()
        invariant
            h.wf(),
            i <= ks@.len(),
            ks@.to_set() == h.vertices@.dom(),
            ks@.len() == h.vertices@.dom().len(),
            best < ID_LIMIT,
            forall|j: int| 0 <= j < i ==> #[trigger] ks@[j] <= best,
            i > 0 ==> h.vertices@.contains_key(best),
            i == 0 ==> best == 0,
        decreases ks@.len() - i,
    {
        proof {
            assert(ks@.to_set().contains(ks@[i as int]));
            assert(h.vertex_ok(ks@[i as int]));
        }
        if i == 0 || ks[i] > best {
            best = ks[i];
        }
        i = i + 1;
    }
    proof {
        assert forall|k: u64| #[trigger] h.vertices@.contains_key(k) implies k <= best by {
            assert(ks@.to_set().contains(k));
            let j = choose|j: int| 0 <= j < ks@.len() && ks@[j] == k;
        }
    }
    best
}

/// Applies (`applying`) or rolls back the effect of the rewrite recorded in
/// `record` on the interaction graph among worldlines (vertices of depth at
/// least a tenth of the longest worldline): when applying, the
/// hyperedges it added (those still in `h`) count up and those it removed
/// count down; when rolling back, the other way round. New neighbour sets
/// get a capacity of one past the largest vertex id, and at least 1024.
pub fn update_interaction_graph_delta(
    h: &Hypergraph,
    inter: &mut HashMap<u64, FixedBitSet>,
    counts: &mut HashMap<u128, u16>,
    record: &UndoRecord,
    applying: bool,
)
    requires
        h.wf(),
        sets_ok(old(inter)@),
        graph_consistent(old(inter)@, old(counts)@),
        applying ==> forall|k: int| #[trigger]
            count_at(old(counts)@, k) + edges_occ(
                h.hyperedges@,
                record.added_edges@,
                *h,
                (h.longest_worldline() / 10) as usize,
                k,
            ) <= u16::MAX,
        !applying ==> forall|ks: Seq<u64>, k: int|
            #![trigger edges_occ(record.removed_edges@, ks, *h, (h.longest_worldline() / 10) as usize, k)]
            lists(ks, record.removed_edges@.dom()) ==> counted(
                false,
                count_at(old(counts)@, k),
                edges_occ(h.hyperedges@, record.added_edges@, *h, (h.longest_worldline() / 10) as usize, k),
            ) + edges_occ(record.removed_edges@, ks, *h, (h.longest_worldline() / 10) as usize, k) <= u16::MAX,
    ensures
        sets_ok(final(inter)@),
        graph_consistent(final(inter)@, final(counts)@),
        loop_free(old(inter)@) ==> loop_free(final(inter)@),
        exists|rks: Seq<u64>|
            #![trigger rks.to_set()]
            rks.no_duplicates() && rks.to_set() == record.removed_edges@.dom() && forall|k: int|
                #[trigger] count_at(final(counts)@, k) == count_after_delta(
                    *h,
                    *record,
                    applying,
                    rks,
                    count_at(old(counts)@, k),
                    k,
                ),
{
    let ghost lf = loop_free(inter@);
    let cutoff: usize = h.max_chain_length() / 10;
    let top = max_vertex_key(h);
    let cap: usize = if (top as usize) + 1 > 1024 {
        top as usize + 1
    } else {
        1024
    };
    let ghost c0 = counts@;
    let added = &record.added_edges;
    let rks = keys_of(&record.removed_edges);
    // The hyperedges the rewrite added.
    let mut t: usize = 0;
    proof {
        assert(added@.take(0) =~= Seq::<u64>::empty());
    }
    while t < added.len()
        invariant
            h.wf(),
            t <= added@.len(),
            sets_ok(inter@),
            graph_consistent(inter@, counts@),
            lf ==> loop_free(inter@),
            applying ==> forall|k: int| #[trigger]
                count_at(c0, k) + edges_occ(h.hyperedges@, added@, *h, cutoff, k) <= u16::MAX,
            cutoff == h.longest_worldline() / 10,
            forall|k: int| #[trigger]
                count_at(counts@, k) == counted(
                    applying,
                    count_at(c0, k),
                    edges_occ(h.hyperedges@, added@.take(t as int), *h, cutoff, k),
                ),
        decreases added@.len() - t,
    {
        let eid = added[t];
        let ghost before = counts@;
        proof {
            assert(added@.take(t + 1).drop_last() == added@.take(t as int));
            assert(added@.take(t + 1).last() == eid);
        }
        match h.hyperedges.get(&eid) {
            Some(edge) => {
                proof {
                    if applying {
                        assert forall|k: int| #[trigger]
                            count_at(counts@, k) + occurrences(
                                worldlines(*h, edge.vertices@, cutoff),
                                k,
                            ) <= u16::MAX by {
                            lemma_edges_occ_mono(h.hyperedges@, added@, t + 1, *h, cutoff, k);
                        }
                    }
                }
                process_edge(h, inter, counts, &edge.vertices, applying, cutoff, cap);
                proof {
                    assert forall|k: int| #[trigger] count_at(counts@, k) == counted(
                        applying,
                        count_at(c0, k),
                        edges_occ(h.hyperedges@, added@.take(t + 1), *h, cutoff, k),
                    ) by {
                        assert(count_at(before, k) == counted(
                            applying,
                            count_at(c0, k),
                            edges_occ(h.hyperedges@, added@.take(t as int), *h, cutoff, k),
                        ));
                    }
                }
            },
            None => {
                proof {
                    assert forall|k: int| #[trigger] count_at(counts@, k) == counted(
                        applying,
                        count_at(c0, k),
                        edges_occ(h.hyperedges@, added@.take(t + 1), *h, cutoff, k),
                    ) by {
                        assert(count_at(before, k) == counted(
                            applying,
                            count_at(c0, k),
                            edges_occ(h.hyperedges@, added@.take(t as int), *h, cutoff, k),
                        ));
                    }
                }
            },
        }
        t = t + 1;
    }
    // The hyperedges the rewrite removed.
    let ghost c1 = counts@;
    proof {
        assert(added@.take(added@.len() as int) == added@);
        assert(rks@.take(0) =~= Seq::<u64>::empty());
        assert forall|k: int| #[trigger] count_at(counts@, k) == counted(
            !applying,
            count_at(c1, k),
            edges_occ(record.removed_edges@, rks@.take(0), *h, cutoff, k),
        ) by {}
        if !applying {
            assert(lists(rks@, record.removed_edges@.dom()));
            assert forall|k: int| #[trigger]
                count_at(c1, k) + edges_occ(record.removed_edges@, rks@, *h, cutoff, k) <= u16::MAX by {
                assert(count_at(c1, k) == counted(
                    applying,
                    count_at(c0, k),
                    edges_occ(h.hyperedges@, added@, *h, cutoff, k),
                ));
            }
        }
        assert(rks@.take(0) =~= Seq::<u64>::empty());
    }
    let mut q: usize = 0;
    while q < rks.len()
        invariant
            h.wf(),
            q <= rks@.len(),
            rks@.to_set() == record.removed_edges@.dom(),
            sets_ok(inter@),
            graph_consistent(inter@, counts@),
            lf ==> loop_free(inter@),
            !applying ==> forall|k: int| #[trigger]
                count_at(c1, k) + edges_occ(record.removed_edges@, rks@, *h, cutoff, k) <= u16::MAX,
            cutoff == h.longest_worldline() / 10,
            forall|k: int| #[trigger]
                count_at(counts@, k) == counted(
                    !applying,
                    count_at(c1, k),
                    edges_occ(record.removed_edges@, rks@.take(q as int), *h, cutoff, k),
                ),
            forall|k: int| #[trigger]
                count_at(c1, k) == counted(
                    applying,
                    count_at(c0, k),
                    edges_occ(h.hyperedges@, added@, *h, cutoff, k),
                ),
        decreases rks@.len() - q,
    {
        let eid = rks[q];
        let ghost before = counts@;
        proof {
            assert(rks@.take(q + 1).drop_last() == rks@.take(q as int));
            assert(rks@.take(q + 1).last() == eid);
        }
        match record.removed_edges.get(&eid) {
            Some(edge) => {
                proof {
                    if !applying {
                        assert forall|k: int| #[trigger]
                            count_at(counts@, k) + occurrences(
                                worldlines(*h, edge.vertices@, cutoff),
                                k,
                            ) <= u16::MAX by {
                            lemma_edges_occ_mono(record.removed_edges@, rks@, q + 1, *h, cutoff, k);
                        }
                    }
                }
                process_edge(h, inter, counts, &edge.vertices, !applying, cutoff, cap);
                proof {
                    assert forall|k: int| #[trigger] count_at(counts@, k) == counted(
                        !applying,
                        count_at(c1, k),
                        edges_occ(record.removed_edges@, rks@.take(q + 1), *h, cutoff, k),
                    ) by {
                        assert(count_at(before, k) == counted(
                            !applying,
                            count_at(c1, k),
                            edges_occ(record.removed_edges@, rks@.take(q as int), *h, cutoff, k),
                        ));
                    }
                }
            },
            None => {
                proof {
                    assert forall|k: int| #[trigger] count_at(counts@, k) == counted(
                        !applying,
                        count_at(c1, k),
                        edges_occ(record.removed_edges@, rks@.take(q + 1), *h, cutoff, k),
                    ) by {
                        assert(count_at(before, k) == counted(
                            !applying,
                            count_at(c1, k),
                            edges_occ(record.removed_edges@, rks@.take(q as int), *h, cutoff, k),
                        ));
                    }
                }
            },
        }
        q = q + 1;
    }
    proof {
        assert(rks@.take(rks@.len() as int) == rks@);
        assert forall|k: int| #[trigger] count_at(counts@, k) == count_after_delta(
            *h,
            *record,
            applying,
            rks@,
            count_at(c0, k),
            k,
        ) by {}
    }
}

/// The occurrences over a prefix of the hyperedges are at most those over
/// the whole list.
proof fn lemma_edges_occ_mono(edges: Map<u64, Hyperedge>, ids: Seq<u64>, n: int, h: Hypergraph, cutoff: usize, k: int)
    requires
        0 <= n <= ids.len(),
    ensures
        edges_occ(edges, ids.take(n), h, cutoff, k) <= edges_occ(edges, ids, h, cutoff, k),
    decreases ids.len() - n,
{
    if n < ids.len() {
        lemma_edges_occ_mono(edges, ids, n + 1, h, cutoff, k);
        assert(ids.take(n + 1).drop_last() == ids.take(n));
    } else {
        assert(ids.take(n) == ids);
    }
}


/// `x` is a worldline of `h`: a vertex of depth at least `cutoff`.
pub open spec fn is_worldline(h: Hypergraph, cutoff: usize, x: u64) -> bool {
    h.vertices@.contains_key(x) && h.vertices@[x].depth >= cutoff
}

/// `i` and `j` are distinct worldlines of `h` held together by a hyperedge
/// among `es`.
pub open spec fn meet_in(h: Hypergraph, cutoff: usize, es: Set<u64>, i: u64, j: u64) -> bool {
    &&& i != j
    &&& is_worldline(h, cutoff, i)
    &&& is_worldline(h, cutoff, j)
    &&& exists|e: u64|
        #![trigger es.contains(e), h.hyperedges@[e]]
        es.contains(e) && h.hyperedges@.contains_key(e) && h.hyperedges@[e].vertices@.contains(i)
            && h.hyperedges@[e].vertices@.contains(j)
}

/// `i` and `j` are distinct worldlines of `h` held together by a hyperedge.
pub open spec fn meets(h: Hypergraph, cutoff: usize, i: u64, j: u64) -> bool {
    meet_in(h, cutoff, h.hyperedges@.dom(), i, j)
}

/// The map `r` holds, for every first element of a pair of `ps`, the set of
/// the second elements.
pub open spec fn represents(r: Map<u64, FixedBitSet>, ps: Set<(u64, u64)>) -> bool {
    &&& forall|i: u64| #[trigger] r.contains_key(i) <==> exists|j: u64| ps.contains((i, j))
    &&& forall|i: u64, x: usize|
        r.contains_key(i) ==> (#[trigger] bits_of(r[i]).contains(x) <==> exists|j: u64|
            ps.contains((i, j)) && x == j as usize)
}

/// The pairs met so far: through the hyperedges of `es`, or through the
/// positions of `ids` before `(a, b)` in row order.
pub open spec fn met_so_far(
    h: Hypergraph,
    cutoff: usize,
    es: Set<u64>,
    ids: Seq<u64>,
    a: int,
    b: int,
) -> Set<(u64, u64)> {
    Set::new(
        |p: (u64, u64)|
            meet_in(h, cutoff, es, p.0, p.1) || (p.0 != p.1 && ((exists|s: int, t: int|
                0 <= s < a && 0 <= t < ids.len() && #[trigger] ids[s] == p.0 && #[trigger] ids[t]
                    == p.1) || (0 <= a < ids.len() && ids[a] == p.0 && exists|t: int|
                0 <= t < b && #[trigger] ids[t] == p.1))),
    )
}

/// The interaction graph among worldlines (vertices of depth at least
/// `cutoff`): every worldline sharing a hyperedge with another worldline
/// gets the bit set of those it shares one with; new sets have capacity
/// `max(next_vertex_id + 256, 1024)` and grow to at least twice their size
/// when too small.
pub fn worldline_interaction_graph(h: &Hypergraph, cutoff: usize) -> (r: HashMap<u64, FixedBitSet>)
    requires
        h.wf(),
    ensures
        sets_ok(r@),
        forall|i: u64| #[trigger] r@.contains_key(i) <==> exists|j: u64| meets(*h, cutoff, i, j),
        forall|i: u64, x: usize|
            r@.contains_key(i) ==> (#[trigger] bits_of(r@[i]).contains(x) <==> exists|j: u64|
                meets(*h, cutoff, i, j) && x == j as usize),
{
    let cap: usize = if (h.next_vertex_id as usize) + 256 > 1024 {
        h.next_vertex_id as usize + 256
    } else {
        1024
    };
    let ks = keys_of(&h.hyperedges);
    let mut r: HashMap<u64, FixedBitSet> = HashMap::new();
    let ghost mut ps = Set::<(u64, u64)>::empty();
    let ghost no_ids = Seq::<u64>::empty();
    proof {
        assert(ks@.take(0).to_set() =~= Set::<u64>::empty());
        assert(ps =~= met_so_far(*h, cutoff, ks@.take(0).to_set(), no_ids, 0, 0));
    }
    let mut t: usize = 0;
    while t < ks.len()
        invariant
            h.wf(),
            t <= ks@.len(),
            ks@.no_duplicates(),
            ks@.to_set() == h.hyperedges@.dom(),
            sets_ok(r@),
            represents(r@, ps),
            ps == met_so_far(*h, cutoff, ks@.take(t as int).to_set(), no_ids, 0, 0),
        decreases ks@.len() - t,
    {
        let eid = ks[t];
        let ghost es = ks@.take(t as int).to_set();
        proof {
            crate::listops::lemma_fresh_at(ks@, t as int);
            assert(ks@.to_set().contains(eid));
        }
        let ids: Vec<u64> = match h.hyperedges.get(&eid) {
            Some(edge) => worldline_ids(h, &edge.vertices, cutoff),
            None => Vec::new(),
        };
        let ghost w = ids@;
        proof {
            let p = |x: u64| h.vertices@.contains_key(x) && h.vertices@[x].depth >= cutoff;
            crate::listops::lemma_filter_subset(h.hyperedges@[eid].vertices@, p);
            assert forall|q: int| 0 <= q < w.len() implies #[trigger] w[q] < ID_LIMIT && is_worldline(
                *h,
                cutoff,
                w[q],
            ) && h.hyperedges@[eid].vertices@.contains(w[q]) by {
                assert(p(w[q]));
                assert(h.vertex_ok(w[q]));
            }
            assert(ps =~= met_so_far(*h, cutoff, es, w, 0, 0));
        }
        let n = ids.len();
        let mut a: usize = 0;
        while a < n
            invariant
                h.wf(),
                n == w.len(),
                w == ids@,
                a <= n,
                forall|q: int| 0 <= q < w.len() ==> #[trigger] w[q] < ID_LIMIT && is_worldline(
                    *h,
                    cutoff,
                    w[q],
                ) && h.hyperedges@[eid].vertices@.contains(w[q]),
                sets_ok(r@),
                represents(r@, ps),
                ps == met_so_far(*h, cutoff, es, w, a as int, 0),
            decreases n - a,
        {
            let x = ids[a];
            let mut b: usize = 0;
            while b < n
                invariant
                    h.wf(),
                    n == w.len(),
                    w == ids@,
                    a < n,
                    x == w[a as int],
                    b <= n,
                    forall|q: int| 0 <= q < w.len() ==> #[trigger] w[q] < ID_LIMIT && is_worldline(
                        *h,
                        cutoff,
                        w[q],
                    ) && h.hyperedges@[eid].vertices@.contains(w[q]),
                    sets_ok(r@),
                    represents(r@, ps),
                    ps == met_so_far(*h, cutoff, es, w, a as int, b as int),
                decreases n - b,
            {
                let y = ids[b];
                let ghost before = r@;
                if x != y {
                    let mut bs = match r.remove(&x) {
                        Some(bs) => bs,
                        None => bitset_with_capacity(cap),
                    };
                    proof {
                        assert(bitset_ok(bs));
                    }
                    if (y as usize) >= bitset_len(&bs) {
                        let grown: usize = if (y as usize) + 1 > bitset_len(&bs) * 2 {
                            y as usize + 1
                        } else {
                            bitset_len(&bs) * 2
                        };
                        bitset_grow(&mut bs, grown);
                    }
                    bitset_insert(&mut bs, y as usize);
                    r.insert(x, bs);
                    proof {
                        let ps1 = ps.insert((x, y));
                        assert forall|i: u64| #[trigger] r@.contains_key(i) <==> exists|j: u64|
                            ps1.contains((i, j)) by {
                            if i != x {
                                if r@.contains_key(i) {
                                    assert(before.contains_key(i));
                                    let j = choose|j: u64| ps.contains((i, j));
                                    assert(ps1.contains((i, j)));
                                }
                                if exists|j: u64| ps1.contains((i, j)) {
                                    let j = choose|j: u64| ps1.contains((i, j));
                                    assert(ps.contains((i, j)));
                                }
                            } else {
                                assert(ps1.contains((x, y)));
                            }
                        }
                        let old_bits = if before.contains_key(x) {
                            bits_of(before[x])
                        } else {
                            Set::<usize>::empty()
                        };
                        assert(bits_of(r@[x]) == old_bits.insert(y as usize));
                        assert forall|i: u64, z: usize| r@.contains_key(i) implies (
                        #[trigger] bits_of(r@[i]).contains(z) <==> exists|j: u64|
                            ps1.contains((i, j)) && z == j as usize) by {
                            if i != x {
                                assert(before.contains_key(i));
                                assert(r@[i] == before[i]);
                                if exists|j: u64| ps1.contains((i, j)) && z == j as usize {
                                    let j = choose|j: u64| ps1.contains((i, j)) && z == j as usize;
                                    assert(ps.contains((i, j)));
                                }
                                if bits_of(r@[i]).contains(z) {
                                    let j = choose|j: u64| ps.contains((i, j)) && z == j as usize;
                                    assert(ps1.contains((i, j)));
                                }
                            } else {
                                if bits_of(r@[i]).contains(z) {
                                    if z == y as usize {
                                        assert(ps1.contains((x, y)));
                                    } else {
                                        assert(old_bits.contains(z));
                                        assert(before.contains_key(x));
                                        assert(bits_of(before[x]).contains(z));
                                        let j = choose|j: u64| ps.contains((x, j)) && z == j as usize;
                                        assert(ps1.contains((x, j)));
                                    }
                                }
                                if exists|j: u64| ps1.contains((i, j)) && z == j as usize {
                                    let j = choose|j: u64| ps1.contains((i, j)) && z == j as usize;
                                    if j != y {
                                        assert(ps.contains((x, j)));
                                        assert(before.contains_key(x));
                                        assert(bits_of(before[x]).contains(z));
                                    }
                                }
                            }
                        }
                        ps = ps1;
                    }
                }
                proof {
                    assert(ps =~= met_so_far(*h, cutoff, es, w, a as int, b + 1)) by {
                        assert forall|p: (u64, u64)| ps.contains(p) == met_so_far(
                            *h,
                            cutoff,
                            es,
                            w,
                            a as int,
                            b + 1,
                        ).contains(p) by {
                            if p.0 == x && p.1 == y && x != y {
                                assert(w[b as int] == p.1);
                            }
                        }
                    }
                }
                b = b + 1;
            }
            proof {
                assert(ps =~= met_so_far(*h, cutoff, es, w, a + 1, 0)) by {
                    assert forall|p: (u64, u64)| ps.contains(p) == met_so_far(
                        *h,
                        cutoff,
                        es,
                        w,
                        a + 1,
                        0,
                    ).contains(p) by {
                        if p.0 == x && p.0 != p.1 && (exists|t2: int|
                            0 <= t2 < n && #[trigger] w[t2] == p.1) {
                            let t2 = choose|t2: int| 0 <= t2 < n && #[trigger] w[t2] == p.1;
                            assert(w[a as int] == p.0);
                        }
                    }
                }
            }
            a = a + 1;
        }
        proof {
            let es1 = ks@.take(t + 1).to_set();
            assert(es1 == es.insert(eid));
            lemma_edge_met(*h, cutoff, es, eid, w, ps);
            assert(ps =~= met_so_far(*h, cutoff, es1, no_ids, 0, 0));
        }
        t = t + 1;
    }
    proof {
        assert(ks@.take(ks@.len() as int) == ks@);
        assert forall|i: u64, j: u64| #[trigger] ps.contains((i, j)) == meets(*h, cutoff, i, j) by {}
        assert forall|i: u64| #[trigger] r@.contains_key(i) <==> exists|j: u64|
            meets(*h, cutoff, i, j) by {
            if r@.contains_key(i) {
                let j = choose|j: u64| ps.contains((i, j));
                assert(meets(*h, cutoff, i, j));
            }
            if exists|j: u64| meets(*h, cutoff, i, j) {
                let j = choose|j: u64| meets(*h, cutoff, i, j);
                assert(ps.contains((i, j)));
            }
        }
        assert forall|i: u64, z: usize| r@.contains_key(i) implies (#[trigger] bits_of(
            r@[i],
        ).contains(z) <==> exists|j: u64| meets(*h, cutoff, i, j) && z == j as usize) by {
            if bits_of(r@[i]).contains(z) {
                let j = choose|j: u64| ps.contains((i, j)) && z == j as usize;
                assert(meets(*h, cutoff, i, j));
            }
            if exists|j: u64| meets(*h, cutoff, i, j) && z == j as usize {
                let j = choose|j: u64| meets(*h, cutoff, i, j) && z == j as usize;
                assert(ps.contains((i, j)));
            }
        }
    }
    r
}

/// After all positions of the worldlines of hyperedge `eid`, the pairs met
/// are those met through `es` and `eid`.
proof fn lemma_edge_met(
    h: Hypergraph,
    cutoff: usize,
    es: Set<u64>,
    eid: u64,
    w: Seq<u64>,
    ps: Set<(u64, u64)>,
)
    requires
        h.hyperedges@.contains_key(eid),
        w == worldlines(h, h.hyperedges@[eid].vertices@, cutoff),
        ps == met_so_far(h, cutoff, es, w, w.len() as int, 0),
    ensures
        ps == met_so_far(h, cutoff, es.insert(eid), Seq::<u64>::empty(), 0, 0),
{
    let es1 = es.insert(eid);
    let vs = h.hyperedges@[eid].vertices@;
    let pr = |x: u64| h.vertices@.contains_key(x) && h.vertices@[x].depth >= cutoff;
    let target = met_so_far(h, cutoff, es1, Seq::<u64>::empty(), 0, 0);
    assert forall|p: (u64, u64)| ps.contains(p) implies target.contains(p) by {
        if !meet_in(h, cutoff, es, p.0, p.1) {
            let (s1, t1) = choose|s1: int, t1: int|
                0 <= s1 < w.len() && 0 <= t1 < w.len() && #[trigger] w[s1] == p.0 && #[trigger] w[t1]
                    == p.1;
            vs.lemma_filter_pred(pr, s1);
            vs.lemma_filter_pred(pr, t1);
            vs.lemma_filter_contains_rev(pr, w[s1]);
            vs.lemma_filter_contains_rev(pr, w[t1]);
            assert(w.contains(w[s1]));
            assert(w.contains(w[t1]));
            assert(es1.contains(eid));
            assert(meet_in(h, cutoff, es1, p.0, p.1));
        } else {
            let e = choose|e: u64|
                #![trigger es.contains(e), h.hyperedges@[e]]
                es.contains(e) && h.hyperedges@.contains_key(e) && h.hyperedges@[e].vertices@.contains(
                    p.0,
                ) && h.hyperedges@[e].vertices@.contains(p.1);
            assert(es1.contains(e));
        }
    }
    assert forall|p: (u64, u64)| target.contains(p) implies ps.contains(p) by {
        assert(meet_in(h, cutoff, es1, p.0, p.1));
        if !meet_in(h, cutoff, es, p.0, p.1) {
            let e = choose|e: u64|
                #![trigger es1.contains(e), h.hyperedges@[e]]
                es1.contains(e) && h.hyperedges@.contains_key(e) && h.hyperedges@[e].vertices@.contains(
                    p.0,
                ) && h.hyperedges@[e].vertices@.contains(p.1);
            if e != eid {
                assert(es.contains(e));
                assert(meet_in(h, cutoff, es, p.0, p.1));
            }
            let i0 = choose|i0: int| 0 <= i0 < vs.len() && vs[i0] == p.0;
            let j0 = choose|j0: int| 0 <= j0 < vs.len() && vs[j0] == p.1;
            vs.lemma_filter_contains(pr, i0);
            vs.lemma_filter_contains(pr, j0);
            let s1 = choose|s1: int| 0 <= s1 < w.len() && w[s1] == p.0;
            let t1 = choose|t1: int| 0 <= t1 < w.len() && w[t1] == p.1;
            assert(w[s1] == p.0 && w[t1] == p.1);
        }
    }
    assert(ps =~= target);
}

/// The pair `i < j` was counted so far: met through `es`, or at positions
/// of `w` before `(a, b)` in row order (`i` first).
pub open spec fn counted_so_far(
    h: Hypergraph,
    cutoff: usize,
    es: Set<u64>,
    w: Seq<u64>,
    a: int,
    b: int,
    i: u64,
    j: u64,
) -> bool {
    ||| meet_in(h, cutoff, es, i, j)
    ||| exists|s: int, t: int|
        0 <= s < a && 0 <= t < w.len() && #[trigger] w[s] == i && #[trigger] w[t] == j
    ||| (0 <= a < w.len() && w[a] == i && exists|t: int| 0 <= t < b && #[trigger] w[t] == j)
}

/// The predicate "equal to `x`".
pub open spec fn is_id(x: u64) -> spec_fn(u64) -> bool {
    |y: u64| y == x
}

/// How many times `x` occurs in `w`.
pub open spec fn count_in(w: Seq<u64>, x: u64) -> nat {
    w.filter(is_id(x)).len()
}

/// The starting count of the pair `i < j`: over the hyperedges `ks` of `h`,
/// the position pairs of their worldlines holding `i` and `j`.
pub open spec fn start_count(h: Hypergraph, cutoff: usize, ks: Seq<u64>, i: u64, j: u64) -> nat
    decreases ks.len(),
{
    if ks.len() == 0 {
        0
    } else {
        start_count(h, cutoff, ks.drop_last(), i, j) + if h.hyperedges@.contains_key(ks.last()) {
            count_in(worldlines(h, h.hyperedges@[ks.last()].vertices@, cutoff), i) * count_in(
                worldlines(h, h.hyperedges@[ks.last()].vertices@, cutoff),
                j,
            )
        } else {
            0
        }
    }
}

/// `ks` lists the set `dom`, each element once.
pub open spec fn lists(ks: Seq<u64>, dom: Set<u64>) -> bool {
    ks.no_duplicates() && ks.to_set() == dom
}

/// A longer prefix of the hyperedges counts at least as much.
proof fn lemma_start_count_mono(h: Hypergraph, cutoff: usize, ks: Seq<u64>, n: int, i: u64, j: u64)
    requires
        0 <= n <= ks.len(),
    ensures
        start_count(h, cutoff, ks.take(n), i, j) <= start_count(h, cutoff, ks, i, j),
    decreases ks.len() - n,
{
    if n < ks.len() {
        lemma_start_count_mono(h, cutoff, ks, n + 1, i, j);
        assert(ks.take(n + 1).drop_last() == ks.take(n));
    } else {
        assert(ks.take(n) == ks);
    }
}

/// One more position counts `x` once more when it holds `x`.
proof fn lemma_count_in_push(w: Seq<u64>, k: int, x: u64)
    requires
        0 <= k < w.len(),
    ensures
        count_in(w.take(k + 1), x) == count_in(w.take(k), x) + if w[k] == x {
            1nat
        } else {
            0nat
        },
        count_in(w.take(k), x) <= count_in(w, x),
        count_in(w.take(k + 1), x) <= count_in(w, x),
{
    assert(w.take(k + 1) == w.take(k).push(w[k]));
    w.take(k).lemma_filter_push(w[k], is_id(x));
    lemma_count_in_prefix(w, k, x);
    lemma_count_in_prefix(w, k + 1, x);
}

/// A prefix holds `x` at most as often as the whole list.
proof fn lemma_count_in_prefix(w: Seq<u64>, k: int, x: u64)
    requires
        0 <= k <= w.len(),
    ensures
        count_in(w.take(k), x) <= count_in(w, x),
    decreases w.len() - k,
{
    if k < w.len() {
        lemma_count_in_prefix(w, k + 1, x);
        assert(w.take(k + 1) == w.take(k).push(w[k]));
        w.take(k).lemma_filter_push(w[k], is_id(x));
    } else {
        assert(w.take(k) == w);
    }
}

/// The reference counts the engine starts from: for every hyperedge and
/// every pair of positions holding worldlines `i < j` (vertices of depth at
/// least `cutoff`), one for the pair `{i, j}`; `None` when some pair would
/// count past `u16::MAX`.
pub fn initial_interaction_counts(h: &Hypergraph, cutoff: usize) -> (r: Option<HashMap<u128, u16>>)
    requires
        h.wf(),
    ensures
        exists|ks: Seq<u64>|
            #[trigger] lists(ks, h.hyperedges@.dom()) && (match r {
                None => exists|i: u64, j: u64|
                    i < j < ID_LIMIT && start_count(*h, cutoff, ks, i, j) > u16::MAX,
                Some(m) => forall|i: u64, j: u64|
                    #![trigger count_at(m@, pair_key_of(i, j))]
                    i < j < ID_LIMIT ==> count_at(m@, pair_key_of(i, j)) == start_count(*h, cutoff, ks, i, j),
            }),
        r matches Some(m) ==> forall|i: u64, j: u64|
            #![trigger count_at(m@, pair_key_of(i, j))]
            i != j && i < ID_LIMIT && j < ID_LIMIT ==> (count_at(m@, pair_key_of(i, j)) > 0
                <==> meets(*h, cutoff, i, j)),
{
    let ks = keys_of(&h.hyperedges);
    let mut r: HashMap<u128, u16> = HashMap::new();
    proof {
        assert(ks@.take(0).to_set() =~= Set::<u64>::empty());
        assert(ks@.take(0) =~= Seq::<u64>::empty());
    }
    let mut t: usize = 0;
    while t < ks.len()
        invariant
            h.wf(),
            t <= ks@.len(),
            ks@.no_duplicates(),
            ks@.to_set() == h.hyperedges@.dom(),
            forall|i: u64, j: u64|
                #![trigger count_at(r@, pair_key_of(i, j))]
                i < j < ID_LIMIT ==> count_at(r@, pair_key_of(i, j)) == start_count(
                    *h,
                    cutoff,
                    ks@.take(t as int),
                    i,
                    j,
                ),
            forall|i: u64, j: u64|
                #![trigger count_at(r@, pair_key_of(i, j))]
                i < j < ID_LIMIT ==> (count_at(r@, pair_key_of(i, j)) > 0 <==> meet_in(
                    *h,
                    cutoff,
                    ks@.take(t as int).to_set(),
                    i,
                    j,
                )),
        decreases ks@.len() - t,
    {
        let eid = ks[t];
        let ghost es = ks@.take(t as int).to_set();
        let ghost prev = ks@.take(t as int);
        proof {
            crate::listops::lemma_fresh_at(ks@, t as int);
            assert(ks@.to_set().contains(eid));
            assert(ks@.take(t + 1).drop_last() == ks@.take(t as int));
            assert(ks@.take(t + 1).last() == eid);
        }
        let ids: Vec<u64> = match h.hyperedges.get(&eid) {
            Some(edge) => worldline_ids(h, &edge.vertices, cutoff),
            None => Vec::new(),
        };
        let ghost w = ids@;
        proof {
            let p = |x: u64| h.vertices@.contains_key(x) && h.vertices@[x].depth >= cutoff;
            crate::listops::lemma_filter_subset(h.hyperedges@[eid].vertices@, p);
            assert forall|q: int| 0 <= q < w.len() implies #[trigger] w[q] < ID_LIMIT by {
                assert(p(w[q]));
                assert(h.vertex_ok(w[q]));
            }
            assert(w.take(0) =~= Seq::<u64>::empty());
            assert forall|i: u64, j: u64| #![auto] count_in(w.take(0), i) * count_in(w, j) == 0 by {
                assert(w.take(0).filter(is_id(i)) =~= Seq::<u64>::empty());
                let ci = count_in(w.take(0), i);
                let cj = count_in(w, j);
                assert(ci * cj == 0) by (nonlinear_arith)
                    requires
                        ci == 0,
                ;
            }
        }
        let n = ids.len();
        let mut a: usize = 0;
        while a < n
            invariant
                h.wf(),
                n == w.len(),
                w == ids@,
                a <= n,
                ks@.no_duplicates(),
                ks@.to_set() == h.hyperedges@.dom(),
                t < ks@.len(),
                eid == ks@[t as int],
                prev == ks@.take(t as int),
                w == worldlines(*h, h.hyperedges@[eid].vertices@, cutoff),
                forall|q: int| 0 <= q < w.len() ==> #[trigger] w[q] < ID_LIMIT,
                forall|i: u64, j: u64|
                    #![trigger count_at(r@, pair_key_of(i, j))]
                    i < j < ID_LIMIT ==> count_at(r@, pair_key_of(i, j)) == start_count(*h, cutoff, prev, i, j)
                        + count_in(w.take(a as int), i) * count_in(w, j),
                forall|i: u64, j: u64|
                    #![trigger count_at(r@, pair_key_of(i, j))]
                    i < j < ID_LIMIT ==> (count_at(r@, pair_key_of(i, j)) > 0 <==> counted_so_far(
                        *h,
                        cutoff,
                        es,
                        w,
                        a as int,
                        0,
                        i,
                        j,
                    )),
            decreases n - a,
        {
            let x = ids[a];
            let mut b: usize = 0;
            proof {
                assert(w.take(0) =~= Seq::<u64>::empty());
            }
            while b < n
                invariant
                    h.wf(),
                    n == w.len(),
                    w == ids@,
                    a < n,
                    x == w[a as int],
                    b <= n,
                    ks@.no_duplicates(),
                    ks@.to_set() == h.hyperedges@.dom(),
                    t < ks@.len(),
                    eid == ks@[t as int],
                    prev == ks@.take(t as int),
                    w == worldlines(*h, h.hyperedges@[eid].vertices@, cutoff),
                    forall|q: int| 0 <= q < w.len() ==> #[trigger] w[q] < ID_LIMIT,
                    forall|i: u64, j: u64|
                        #![trigger count_at(r@, pair_key_of(i, j))]
                        i < j < ID_LIMIT ==> count_at(r@, pair_key_of(i, j)) == start_count(*h, cutoff, prev, i, j)
                            + count_in(w.take(a as int), i) * count_in(w, j) + if x == i {
                            count_in(w.take(b as int), j)
                        } else {
                            0
                        },
                    forall|i: u64, j: u64|
                        #![trigger count_at(r@, pair_key_of(i, j))]
                        i < j < ID_LIMIT ==> (count_at(r@, pair_key_of(i, j)) > 0
                            <==> counted_so_far(*h, cutoff, es, w, a as int, b as int, i, j)),
                decreases n - b,
            {
                let y = ids[b];
                let ghost before = r@;
                proof {
                    lemma_count_in_push(w, b as int, y);
                    lemma_count_in_push(w, a as int, x);
                }
                if x < y {
                    let k0 = pair_key(x, y);
                    let cur: u16 = match r.get(&k0) {
                        Some(c) => *c,
                        None => 0,
                    };
                    proof {
                        assert(cur as int == count_at(before, k0 as int));
                    }
                    if cur == u16::MAX {
                        proof {
                            let ty = count_in(w.take(b + 1), y);
                            let ta = count_in(w.take(a as int), x);
                            let cx = count_in(w, x);
                            let cy = count_in(w, y);
                            assert(count_in(w.take(b as int), y) + 1 == ty);
                            assert(ta + 1 <= cx);
                            assert(ty <= cy);
                            assert(ta * cy + ty <= cx * cy) by (nonlinear_arith)
                                requires
                                    ta + 1 <= cx,
                                    ty <= cy,
                            ;
                            assert(ks@.take(t + 1).drop_last() == prev);
                            assert(ks@.take(t + 1).last() == eid);
                            assert(ks@.to_set().contains(eid));
                            assert(start_count(*h, cutoff, ks@.take(t + 1), x, y) == start_count(
                                *h,
                                cutoff,
                                prev,
                                x,
                                y,
                            ) + cx * cy);
                            lemma_start_count_mono(*h, cutoff, ks@, t + 1, x, y);
                            assert(start_count(*h, cutoff, ks@, x, y) > u16::MAX);
                            assert(lists(ks@, h.hyperedges@.dom()));
                        }
                        return None;
                    }
                    r.insert(k0, cur + 1);
                    proof {
                        assert forall|i: u64, j: u64|
                            #![trigger count_at(r@, pair_key_of(i, j))]
                            i < j < ID_LIMIT implies count_at(r@, pair_key_of(i, j)) == start_count(
                                *h,
                                cutoff,
                                prev,
                                i,
                                j,
                            ) + count_in(w.take(a as int), i) * count_in(w, j) + if x == i {
                                count_in(w.take(b + 1), j)
                            } else {
                                0
                            } by {
                            lemma_count_in_push(w, b as int, j);
                            if pair_key_of(i, j) == pair_key_of(x, y) {
                                lemma_pair_key_injective(i, j, x, y);
                            } else {
                                assert(count_at(r@, pair_key_of(i, j)) == count_at(before, pair_key_of(i, j)));
                                if x == i && y == j {
                                    assert(pair_key_of(i, j) == pair_key_of(x, y));
                                }
                            }
                        }
                        assert forall|i: u64, j: u64|
                            #![trigger count_at(r@, pair_key_of(i, j))]
                            i < j < ID_LIMIT implies (count_at(r@, pair_key_of(i, j)) > 0
                                <==> counted_so_far(*h, cutoff, es, w, a as int, b + 1, i, j)) by {
                            if pair_key_of(i, j) == pair_key_of(x, y) {
                                lemma_pair_key_injective(i, j, x, y);
                                assert(w[b as int] == j);
                            } else {
                                assert(count_at(r@, pair_key_of(i, j)) == count_at(
                                    before,
                                    pair_key_of(i, j),
                                ));
                                if counted_so_far(*h, cutoff, es, w, a as int, b + 1, i, j)
                                    && !counted_so_far(*h, cutoff, es, w, a as int, b as int, i, j) {
                                    let q = choose|q: int| 0 <= q < b + 1 && #[trigger] w[q] == j;
                                    assert(q == b);
                                }
                            }
                        }
                    }
                } else {
                    proof {
                        assert forall|i: u64, j: u64|
                            #![trigger count_at(r@, pair_key_of(i, j))]
                            i < j < ID_LIMIT implies count_at(r@, pair_key_of(i, j)) == start_count(
                                *h,
                                cutoff,
                                prev,
                                i,
                                j,
                            ) + count_in(w.take(a as int), i) * count_in(w, j) + if x == i {
                                count_in(w.take(b + 1), j)
                            } else {
                                0
                            } by {
                            lemma_count_in_push(w, b as int, j);
                        }
                        assert forall|i: u64, j: u64|
                            #![trigger count_at(r@, pair_key_of(i, j))]
                            i < j < ID_LIMIT implies (count_at(r@, pair_key_of(i, j)) > 0
                                <==> counted_so_far(*h, cutoff, es, w, a as int, b + 1, i, j)) by {
                            if counted_so_far(*h, cutoff, es, w, a as int, b + 1, i, j)
                                && !counted_so_far(*h, cutoff, es, w, a as int, b as int, i, j) {
                                let q = choose|q: int| 0 <= q < b + 1 && #[trigger] w[q] == j;
                                assert(q == b);
                            }
                        }
                    }
                }
                b = b + 1;
            }
            proof {
                assert(w.take(n as int) == w);
                assert forall|i: u64, j: u64|
                    #![trigger count_at(r@, pair_key_of(i, j))]
                    i < j < ID_LIMIT implies count_at(r@, pair_key_of(i, j)) == start_count(
                        *h,
                        cutoff,
                        prev,
                        i,
                        j,
                    ) + count_in(w.take(a + 1), i) * count_in(w, j) by {
                    lemma_count_in_push(w, a as int, i);
                    let ta = count_in(w.take(a as int), i);
                    let cj = count_in(w, j);
                    assert((ta + 1) * cj == ta * cj + cj) by (nonlinear_arith);
                }
                assert forall|i: u64, j: u64|
                    #![trigger count_at(r@, pair_key_of(i, j))]
                    i < j < ID_LIMIT implies (count_at(r@, pair_key_of(i, j)) > 0
                        <==> counted_so_far(*h, cutoff, es, w, a + 1, 0, i, j)) by {
                    if counted_so_far(*h, cutoff, es, w, a + 1, 0, i, j) && !meet_in(
                        *h,
                        cutoff,
                        es,
                        i,
                        j,
                    ) {
                        let (s1, t1) = choose|s1: int, t1: int|
                            0 <= s1 < a + 1 && 0 <= t1 < w.len() && #[trigger] w[s1] == i
                                && #[trigger] w[t1] == j;
                        if s1 < a {
                            assert(counted_so_far(*h, cutoff, es, w, a as int, n as int, i, j));
                        } else {
                            assert(w[a as int] == i);
                            assert(counted_so_far(*h, cutoff, es, w, a as int, n as int, i, j));
                        }
                    }
                }
            }
            a = a + 1;
        }
        proof {
            assert(w.take(n as int) == w);
            let es1 = ks@.take(t + 1).to_set();
            assert(ks@.take(t + 1).drop_last() == prev);
            assert(ks@.take(t + 1).last() == eid);
            assert forall|i: u64, j: u64|
                #![trigger count_at(r@, pair_key_of(i, j))]
                i < j < ID_LIMIT implies count_at(r@, pair_key_of(i, j)) == start_count(
                    *h,
                    cutoff,
                    ks@.take(t + 1),
                    i,
                    j,
                ) by {}
            assert forall|i: u64, j: u64|
                #![trigger count_at(r@, pair_key_of(i, j))]
                i < j < ID_LIMIT implies (count_at(r@, pair_key_of(i, j)) > 0 <==> meet_in(
                    *h,
                    cutoff,
                    es1,
                    i,
                    j,
                )) by {
                lemma_counted_edge_done(*h, cutoff, es, eid, w, i, j);
            }
        }
        t = t + 1;
    }
    proof {
        assert(ks@.take(ks@.len() as int) == ks@);
        assert(lists(ks@, h.hyperedges@.dom()));
        assert forall|i: u64, j: u64|
            #![trigger count_at(r@, pair_key_of(i, j))]
            i != j && i < ID_LIMIT && j < ID_LIMIT implies (count_at(r@, pair_key_of(i, j)) > 0
                <==> meets(*h, cutoff, i, j)) by {
            if j < i {
                assert(pair_key_of(i, j) == pair_key_of(j, i));
                assert(count_at(r@, pair_key_of(j, i)) > 0 <==> meets(*h, cutoff, j, i));
                if meets(*h, cutoff, j, i) {
                    let e = choose|e: u64|
                        #![trigger h.hyperedges@.dom().contains(e), h.hyperedges@[e]]
                        h.hyperedges@.dom().contains(e) && h.hyperedges@.contains_key(e)
                            && h.hyperedges@[e].vertices@.contains(j)
                            && h.hyperedges@[e].vertices@.contains(i);
                }
                if meets(*h, cutoff, i, j) {
                    let e = choose|e: u64|
                        #![trigger h.hyperedges@.dom().contains(e), h.hyperedges@[e]]
                        h.hyperedges@.dom().contains(e) && h.hyperedges@.contains_key(e)
                            && h.hyperedges@[e].vertices@.contains(i)
                            && h.hyperedges@[e].vertices@.contains(j);
                }
            }
        }
    }
    Some(r)
}

/// After all positions of the worldlines `w` of hyperedge `eid`, a pair was
/// counted exactly when it meets through `es` and `eid`.
proof fn lemma_counted_edge_done(
    h: Hypergraph,
    cutoff: usize,
    es: Set<u64>,
    eid: u64,
    w: Seq<u64>,
    i: u64,
    j: u64,
)
    requires
        h.hyperedges@.contains_key(eid),
        w == worldlines(h, h.hyperedges@[eid].vertices@, cutoff),
        i < j,
    ensures
        counted_so_far(h, cutoff, es, w, w.len() as int, 0, i, j) <==> meet_in(
            h,
            cutoff,
            es.insert(eid),
            i,
            j,
        ),
{
    let es1 = es.insert(eid);
    let vs = h.hyperedges@[eid].vertices@;
    let pr = |x: u64| h.vertices@.contains_key(x) && h.vertices@[x].depth >= cutoff;
    if counted_so_far(h, cutoff, es, w, w.len() as int, 0, i, j) {
        if !meet_in(h, cutoff, es, i, j) {
            let (s1, t1) = choose|s1: int, t1: int|
                0 <= s1 < w.len() && 0 <= t1 < w.len() && #[trigger] w[s1] == i && #[trigger] w[t1]
                    == j;
            vs.lemma_filter_pred(pr, s1);
            vs.lemma_filter_pred(pr, t1);
            vs.lemma_filter_contains_rev(pr, w[s1]);
            vs.lemma_filter_contains_rev(pr, w[t1]);
            assert(w.contains(w[s1]));
            assert(w.contains(w[t1]));
            assert(es1.contains(eid));
        } else {
            let e = choose|e: u64|
                #![trigger es.contains(e), h.hyperedges@[e]]
                es.contains(e) && h.hyperedges@.contains_key(e) && h.hyperedges@[e].vertices@.contains(
                    i,
                ) && h.hyperedges@[e].vertices@.contains(j);
            assert(es1.contains(e));
        }
    }
    if meet_in(h, cutoff, es1, i, j) && !meet_in(h, cutoff, es, i, j) {
        let e = choose|e: u64|
            #![trigger es1.contains(e), h.hyperedges@[e]]
            es1.contains(e) && h.hyperedges@.contains_key(e) && h.hyperedges@[e].vertices@.contains(i)
                && h.hyperedges@[e].vertices@.contains(j);
        if e != eid {
            assert(es.contains(e));
        }
        let i0 = choose|i0: int| 0 <= i0 < vs.len() && vs[i0] == i;
        let j0 = choose|j0: int| 0 <= j0 < vs.len() && vs[j0] == j;
        vs.lemma_filter_contains(pr, i0);
        vs.lemma_filter_contains(pr, j0);
        let s1 = choose|s1: int| 0 <= s1 < w.len() && w[s1] == i;
        let t1 = choose|t1: int| 0 <= t1 < w.len() && w[t1] == j;
        assert(w[s1] == i && w[t1] == j);
    }
}

/// A graph that agrees with its reference counts is symmetric: for distinct
/// ids below the id bound, `j` is a neighbour of `i` exactly when `i` is a
/// neighbour of `j`.
pub proof fn law_consistent_graph_symmetric(inter: Map<u64, FixedBitSet>, counts: Map<u128, u16>, i: u64, j: u64)
    requires
        graph_consistent(inter, counts),
        i != j,
        i < ID_LIMIT,
        j < ID_LIMIT,
    ensures
        linked(inter, i, j) == linked(inter, j, i),
{
    assert(pair_key_of(i, j) == pair_key_of(j, i));
    assert(linked(inter, i, j) <==> count_at(counts, pair_key_of(i, j)) > 0);
    assert(linked(inter, j, i) <==> count_at(counts, pair_key_of(j, i)) > 0);
}

/// Two graphs that agree with the same positive counts link the same
/// pairs of distinct ids below the id bound.
pub proof fn law_same_counts_same_graph(
    inter0: Map<u64, FixedBitSet>,
    c0: Map<u128, u16>,
    inter1: Map<u64, FixedBitSet>,
    c1: Map<u128, u16>,
    i: u64,
    j: u64,
)
    requires
        graph_consistent(inter0, c0),
        graph_consistent(inter1, c1),
        forall|k: int| #[trigger] count_at(c1, k) > 0 <==> count_at(c0, k) > 0,
        i != j,
        i < ID_LIMIT,
        j < ID_LIMIT,
    ensures
        linked(inter1, i, j) == linked(inter0, i, j),
{
    assert(linked(inter0, i, j) <==> count_at(c0, pair_key_of(i, j)) > 0);
    assert(linked(inter1, i, j) <==> count_at(c1, pair_key_of(i, j)) > 0);
}

/// Applying a rewrite's delta and then rolling it back, with the removed
/// hyperedges taken in the same order, gives every count back, where the
/// count was at least what the removed hyperedges contribute.
pub proof fn law_delta_round_trip(h: Hypergraph, record: UndoRecord, rks: Seq<u64>, c: int, k: int)
    requires
        0 <= c,
        c >= edges_occ(record.removed_edges@, rks, h, (h.longest_worldline() / 10) as usize, k),
    ensures
        count_after_delta(h, record, false, rks, count_after_delta(h, record, true, rks, c, k), k) == c,
{
}

/// The engine's starting interaction graph and reference counts agree:
/// for distinct ids below the id bound, one is a neighbour of the other
/// exactly when their pair's count is positive; and no vertex lists itself.
pub proof fn law_initial_graph_consistent(
    h: Hypergraph,
    cutoff: usize,
    inter: Map<u64, FixedBitSet>,
    counts: Map<u128, u16>,
)
    requires
        h.wf(),
        forall|i: u64| #[trigger] inter.contains_key(i) <==> exists|j: u64| meets(h, cutoff, i, j),
        forall|i: u64, x: usize|
            inter.contains_key(i) ==> (#[trigger] bits_of(inter[i]).contains(x) <==> exists|j: u64|
                meets(h, cutoff, i, j) && x == j as usize),
        forall|i: u64, j: u64|
            #![trigger count_at(counts, pair_key_of(i, j))]
            i != j && i < ID_LIMIT && j < ID_LIMIT ==> (count_at(counts, pair_key_of(i, j)) > 0
                <==> meets(h, cutoff, i, j)),
    ensures
        graph_consistent(inter, counts),
        loop_free(inter),
{
    assert forall|k: u64| #[trigger] bits_at(inter, k).contains(k as usize) implies k >= ID_LIMIT by {
        if k < ID_LIMIT {
            let j = choose|j: u64| meets(h, cutoff, k, j) && k as usize == j as usize;
            assert(h.vertex_ok(j));
        }
    }
    assert forall|i: u64, j: u64|
        i != j && i < ID_LIMIT && j < ID_LIMIT implies (#[trigger] linked(inter, i, j) <==> count_at(
        counts,
        pair_key_of(i, j),
    ) > 0) by {
        if linked(inter, i, j) {
            let j2 = choose|j2: u64| meets(h, cutoff, i, j2) && j as usize == j2 as usize;
            assert(j2 < ID_LIMIT) by {
                assert(is_worldline(h, cutoff, j2));
                assert(h.vertex_ok(j2));
            }
            assert(j2 == j);
        }
        if meets(h, cutoff, i, j) {
            assert(inter.contains_key(i));
        }
    }
}

/// The worldline interaction graph links two ids exactly when they meet,
/// so every link is matched by one back: the graph is undirected, and its
/// topological clusters (`crate::clusters::clustering`) are its connected
/// components.
pub proof fn law_worldline_graph_symmetric(h: Hypergraph, cutoff: usize, inter: Map<u64, FixedBitSet>)
    requires
        h.wf(),
        forall|i: u64| #[trigger] inter.contains_key(i) <==> exists|j: u64| meets(h, cutoff, i, j),
        forall|i: u64, x: usize|
            inter.contains_key(i) ==> (#[trigger] bits_of(inter[i]).contains(x) <==> exists|j: u64|
                meets(h, cutoff, i, j) && x == j as usize),
    ensures
        forall|u: u64, w: u64| #[trigger] adjacent(inter, u, w) <==> meets(h, cutoff, u, w),
        symmetric(inter),
{
    assert forall|u: u64, w: u64| #[trigger] adjacent(inter, u, w) <==> meets(h, cutoff, u, w) by {
        if adjacent(inter, u, w) {
            let b = choose|b: usize| #[trigger] bits_of(inter[u]).contains(b) && b as u64 == w;
            let j = choose|j: u64| meets(h, cutoff, u, j) && b == j as usize;
            assert(j < ID_LIMIT) by {
                assert(is_worldline(h, cutoff, j));
                assert(h.vertex_ok(j));
            }
            assert(j == w);
        }
        if meets(h, cutoff, u, w) {
            assert(inter.contains_key(u));
            assert(w < ID_LIMIT) by {
                assert(is_worldline(h, cutoff, w));
                assert(h.vertex_ok(w));
            }
            assert(bits_of(inter[u]).contains(w as usize));
            assert((w as usize) as u64 == w);
        }
    }
    assert forall|u: u64, w: u64| #[trigger] adjacent(inter, u, w) implies adjacent(inter, w, u) by {
        assert(meets(h, cutoff, u, w));
        let e = choose|e: u64|
            #![trigger h.hyperedges@.dom().contains(e), h.hyperedges@[e]]
            h.hyperedges@.dom().contains(e) && h.hyperedges@.contains_key(e) && h.hyperedges@[e].vertices@.contains(u)
                && h.hyperedges@[e].vertices@.contains(w);
        assert(meets(h, cutoff, w, u));
    }
}

/// Two distinct worldlines that both stand in a hyperedge form their pair
/// at least once in its worldline list.
proof fn lemma_pair_occurs(w: Seq<u64>, x: u64, y: u64)
    requires
        w.contains(x),
        w.contains(y),
        x != y,
    ensures
        occurrences(w, pair_key_of(x, y)) >= 1,
{
    let k = pair_key_of(x, y);
    let a = choose|a: int| 0 <= a < w.len() && w[a] == x;
    let b = choose|b: int| 0 <= b < w.len() && w[b] == y;
    w.lemma_filter_contains(partner_of(x, k), b);
    assert(w.filter(partner_of(x, k)).contains(y));
    assert(w.filter(partner_of(x, k)).len() >= 1);
    assert(occ_upto(w, (a + 1) as nat, k) == occ_upto(w, a as nat, k) + w.filter(
        partner_of(w[a], k),
    ).len());
    lemma_occ_mono(w, (a + 1) as nat, w.len(), k);
}

/// The occurrences over a list of hyperedges include those of each listed
/// hyperedge.
proof fn lemma_edges_occ_member(
    edges: Map<u64, Hyperedge>,
    ids: Seq<u64>,
    h: Hypergraph,
    cutoff: usize,
    k: int,
    e: u64,
)
    requires
        ids.contains(e),
        edges.contains_key(e),
    ensures
        edges_occ(edges, ids, h, cutoff, k) >= occurrences(worldlines(h, edges[e].vertices@, cutoff), k),
{
    let t = choose|t: int| 0 <= t < ids.len() && ids[t] == e;
    lemma_edges_occ_mono(edges, ids, t + 1, h, cutoff, k);
    assert(ids.take(t + 1).last() == e);
    assert(ids.take(t + 1).len() == t + 1);
}

/// Every count after a rewrite's delta is the count before, plus the
/// occurrences of its pair over the hyperedges the rewrite added, minus
/// (stopping at zero) those over the hyperedges it removed; rolling back
/// takes the added ones off (stopping at zero) and counts the removed ones
/// back up.
pub proof fn law_delta_counts(h: Hypergraph, record: UndoRecord, rks: Seq<u64>, c: int, k: int)
    requires
        0 <= c,
    ensures
        ({
            let cutoff = (h.longest_worldline() / 10) as usize;
            let added = edges_occ(h.hyperedges@, record.added_edges@, h, cutoff, k);
            let removed = edges_occ(record.removed_edges@, rks, h, cutoff, k);
            &&& count_after_delta(h, record, true, rks, c, k) == if c + added >= removed {
                c + added - removed
            } else {
                0
            }
            &&& count_after_delta(h, record, false, rks, c, k) == if c >= added {
                c - added + removed
            } else {
                removed as int
            }
        }),
{
}

/// A rewrite that only removed hyperedges lowers, when applied, the
/// positive count of any two distinct worldlines that shared one of them,
/// and raises it when rolled back.
pub proof fn law_delta_shared_removed_edge(
    h: Hypergraph,
    record: UndoRecord,
    rks: Seq<u64>,
    c: int,
    e: u64,
    x: u64,
    y: u64,
)
    requires
        record.added_edges@.len() == 0,
        rks.contains(e),
        record.removed_edges@.contains_key(e),
        record.removed_edges@[e].vertices@.contains(x),
        record.removed_edges@[e].vertices@.contains(y),
        x != y,
        is_worldline(h, (h.longest_worldline() / 10) as usize, x),
        is_worldline(h, (h.longest_worldline() / 10) as usize, y),
        c >= 1,
    ensures
        count_after_delta(h, record, true, rks, c, pair_key_of(x, y)) < c,
        count_after_delta(h, record, false, rks, c, pair_key_of(x, y)) > c,
{
    let cutoff = (h.longest_worldline() / 10) as usize;
    let k = pair_key_of(x, y);
    let vs = record.removed_edges@[e].vertices@;
    let pred = |v: u64| h.vertices@.contains_key(v) && h.vertices@[v].depth >= cutoff;
    let w = worldlines(h, vs, cutoff);
    assert(w == vs.filter(pred));
    let a = choose|a: int| 0 <= a < vs.len() && vs[a] == x;
    let b = choose|b: int| 0 <= b < vs.len() && vs[b] == y;
    vs.lemma_filter_contains(pred, a);
    vs.lemma_filter_contains(pred, b);
    lemma_pair_occurs(w, x, y);
    lemma_edges_occ_member(record.removed_edges@, rks, h, cutoff, k, e);
    assert(record.added_edges@ =~= Seq::<u64>::empty());
    assert(edges_occ(h.hyperedges@, record.added_edges@, h, cutoff, k) == 0);
}

} // verus!
