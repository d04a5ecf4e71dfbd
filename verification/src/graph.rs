//! Traversals of the engine's interaction graph (each id to the bit set of
//! its neighbours): layered breadth-first distance to a target set, the
//! ids within a depth of a set of sources, and local link counts.
use crate::bitset::{bits_of, bitset_ones};
use crate::listops::{keys_of, set_items};
use crate::random::rng_choose;
use rand::rngs::SmallRng;
use fixedbitset::FixedBitSet;
use std::collections::{HashMap, HashSet};
use vstd::prelude::*;

verus! {

/// `w` is a neighbour of `u` in `m`.
pub open spec fn adjacent(m: Map<u64, FixedBitSet>, u: u64, w: u64) -> bool {
    m.contains_key(u) && exists|b: usize| #[trigger] bits_of(m[u]).contains(b) && b as u64 == w
}

/// `p` follows neighbour links of `m` from its first id to its last.
pub open spec fn is_walk(m: Map<u64, FixedBitSet>, p: Seq<u64>) -> bool {
    &&& p.len() >= 1
    &&& forall|i: int| 0 <= i < p.len() - 1 ==> adjacent(m, #[trigger] p[i], p[i + 1])
}

/// A walk of exactly `n` steps leads from `s` to `t` in `m`.
pub open spec fn reach(m: Map<u64, FixedBitSet>, s: u64, t: u64, n: nat) -> bool {
    exists|p: Seq<u64>|
        #[trigger] is_walk(m, p) && p.len() == n + 1 && p[0] == s && p[p.len() - 1] == t
}

/// A walk of at most `d` steps leads from `s` to `t` (never, for negative
/// `d`).
pub open spec fn within(m: Map<u64, FixedBitSet>, s: u64, t: u64, d: int) -> bool {
    exists|n: nat| n <= d && #[trigger] reach(m, s, t, n)
}

/// The vertices at distance exactly `d` from `s`.
pub open spec fn layer(m: Map<u64, FixedBitSet>, s: u64, d: int) -> Set<u64> {
    Set::new(|x: u64| within(m, s, x, d) && !within(m, s, x, d - 1))
}

/// The vertices at distance at most `d` from `s`.
pub open spec fn ball(m: Map<u64, FixedBitSet>, s: u64, d: int) -> Set<u64> {
    Set::new(|x: u64| within(m, s, x, d))
}

/// One more step extends a walk.
pub proof fn lemma_reach_step(m: Map<u64, FixedBitSet>, s: u64, v: u64, u: u64, k: nat)
    requires
        reach(m, s, v, k),
        adjacent(m, v, u),
    ensures
        reach(m, s, u, k + 1),
{
    let p = choose|p: Seq<u64>|
        #[trigger] is_walk(m, p) && p.len() == k + 1 && p[0] == s && p[p.len() - 1] == v;
    let q = p.push(u);
    assert forall|i: int| 0 <= i < q.len() - 1 implies adjacent(m, #[trigger] q[i], q[i + 1]) by {
        if i < p.len() - 1 {
            assert(q[i] == p[i] && q[i + 1] == p[i + 1]);
        } else {
            assert(q[i] == v && q[i + 1] == u);
        }
    }
    assert(is_walk(m, q));
}

/// A walk of `k + 1` steps ends with a step from a vertex reached in `k`.
pub proof fn lemma_reach_back(m: Map<u64, FixedBitSet>, s: u64, u: u64, k: nat)
    requires
        reach(m, s, u, k + 1),
    ensures
        exists|v: u64| #[trigger] reach(m, s, v, k) && adjacent(m, v, u),
{
    let p = choose|p: Seq<u64>|
        #[trigger] is_walk(m, p) && p.len() == k + 2 && p[0] == s && p[p.len() - 1] == u;
    let q = p.drop_last();
    let v = q[q.len() - 1];
    assert forall|i: int| 0 <= i < q.len() - 1 implies adjacent(m, #[trigger] q[i], q[i + 1]) by {
        assert(q[i] == p[i] && q[i + 1] == p[i + 1]);
    }
    assert(is_walk(m, q));
    assert(reach(m, s, v, k));
    assert(adjacent(m, p[k as int], p[k as int + 1]));
}

/// The walk of no step.
pub proof fn lemma_reach_zero(m: Map<u64, FixedBitSet>, s: u64, t: u64)
    ensures
        reach(m, s, t, 0) <==> s == t,
{
    if s == t {
        let p = seq![s];
        assert(is_walk(m, p));
    }
}

/// A walk of `k <= d` steps puts `t` within `d`.
pub proof fn lemma_within_intro(m: Map<u64, FixedBitSet>, s: u64, t: u64, k: nat, d: int)
    requires
        reach(m, s, t, k),
        k <= d,
    ensures
        within(m, s, t, d),
{
}

/// The unvisited neighbours of a layer form the next layer, and with the
/// ball they form the next ball.
pub proof fn lemma_next_layer(m: Map<u64, FixedBitSet>, s: u64, d: int)
    requires
        0 <= d,
    ensures
        forall|u: u64|
            #![trigger layer(m, s, d + 1).contains(u)]
            layer(m, s, d + 1).contains(u) <==> (!ball(m, s, d).contains(u) && exists|v: u64|
                layer(m, s, d).contains(v) && adjacent(m, v, u)),
        forall|u: u64|
            #![trigger ball(m, s, d + 1).contains(u)]
            ball(m, s, d + 1).contains(u) <==> (ball(m, s, d).contains(u) || layer(
                m,
                s,
                d + 1,
            ).contains(u)),
{
    assert forall|u: u64|
        #![trigger layer(m, s, d + 1).contains(u)]
        layer(m, s, d + 1).contains(u) <==> (!ball(m, s, d).contains(u) && exists|v: u64|
            layer(m, s, d).contains(v) && adjacent(m, v, u)) by {
        if layer(m, s, d + 1).contains(u) {
            let n = choose|n: nat| n <= d + 1 && #[trigger] reach(m, s, u, n);
            if n <= d {
                assert(within(m, s, u, d));
            }
            assert(n == d + 1);
            lemma_reach_back(m, s, u, d as nat);
            let v = choose|v: u64| #[trigger] reach(m, s, v, d as nat) && adjacent(m, v, u);
            lemma_within_intro(m, s, v, d as nat, d);
            if within(m, s, v, d - 1) {
                let k = choose|k: nat| k <= d - 1 && #[trigger] reach(m, s, v, k);
                lemma_reach_step(m, s, v, u, k);
                lemma_within_intro(m, s, u, k + 1, d);
            }
            assert(layer(m, s, d).contains(v));
        }
        if !ball(m, s, d).contains(u) && exists|v: u64|
            layer(m, s, d).contains(v) && adjacent(m, v, u) {
            let v = choose|v: u64| layer(m, s, d).contains(v) && adjacent(m, v, u);
            let k = choose|k: nat| k <= d && #[trigger] reach(m, s, v, k);
            if k < d {
                lemma_within_intro(m, s, v, k, d - 1);
            }
            lemma_reach_step(m, s, v, u, k);
            lemma_within_intro(m, s, u, k + 1, d + 1);
        }
    }
    assert forall|u: u64|
        #![trigger ball(m, s, d + 1).contains(u)]
        ball(m, s, d + 1).contains(u) <==> (ball(m, s, d).contains(u) || layer(
            m,
            s,
            d + 1,
        ).contains(u)) by {
        if ball(m, s, d).contains(u) {
            let k = choose|k: nat| k <= d && #[trigger] reach(m, s, u, k);
            lemma_within_intro(m, s, u, k, d + 1);
        }
    }
}

/// An empty layer closes the ball: nothing lies farther.
pub proof fn lemma_empty_layer(m: Map<u64, FixedBitSet>, s: u64, d: nat, n: nat)
    requires
        layer(m, s, d as int) == Set::<u64>::empty(),
        d <= n,
    ensures
        forall|u: u64| #[trigger] within(m, s, u, n as int) ==> within(m, s, u, d - 1),
    decreases n - d,
{
    assert forall|u: u64| #[trigger] within(m, s, u, d as int) implies within(m, s, u, d - 1) by {
        if !within(m, s, u, d - 1) {
            assert(layer(m, s, d as int).contains(u));
        }
    }
    if n > d {
        lemma_empty_layer(m, s, d, (n - 1) as nat);
        assert forall|u: u64| #[trigger] within(m, s, u, n as int) implies within(m, s, u, d - 1) by {
            let k = choose|k: nat| k <= n && #[trigger] reach(m, s, u, k);
            if k == n {
                lemma_reach_back(m, s, u, (k - 1) as nat);
                let v = choose|v: u64| #[trigger] reach(m, s, v, (k - 1) as nat) && adjacent(m, v, u);
                lemma_within_intro(m, s, v, (k - 1) as nat, n - 1);
                assert(within(m, s, v, d - 1));
                let j = choose|j: nat| j <= d - 1 && #[trigger] reach(m, s, v, j);
                lemma_reach_step(m, s, v, u, j);
                lemma_within_intro(m, s, u, j + 1, d as int);
            } else {
                lemma_within_intro(m, s, u, k, n - 1);
            }
        }
    }
}

/// The ids newly seen while expanding a layer: outside the ball `b`, and a
/// neighbour of one of the first `i` ids of `fs`, or among the first `j`
/// of `us` (the neighbours of `fs[i]`).
pub open spec fn seen_so_far(
    m: Map<u64, FixedBitSet>,
    b: Set<u64>,
    fs: Seq<u64>,
    i: int,
    us: Seq<usize>,
    j: int,
) -> Set<u64> {
    Set::new(
        |u: u64|
            !b.contains(u) && ((exists|q: int| 0 <= q < i && adjacent(m, #[trigger] fs[q], u)) || (
            exists|p: int| 0 <= p < j && #[trigger] us[p] as u64 == u)),
    )
}

/// A target first met as a neighbour of the layer at `d0` lies `d0 + 1`
/// steps away, and no target lies closer.
proof fn lemma_found(
    m: Map<u64, FixedBitSet>,
    start: u64,
    d0: int,
    v: u64,
    u: u64,
    ts: Set<u64>,
    visited: Set<u64>,
)
    requires
        0 <= d0,
        layer(m, start, d0).contains(v),
        adjacent(m, v, u),
        ball(m, start, d0).subset_of(visited),
        forall|x: u64| #[trigger] visited.contains(x) ==> !ts.contains(x),
    ensures
        reach(m, start, u, (d0 + 1) as nat),
        forall|t: u64, n: nat| n < d0 + 1 && ts.contains(t) ==> !#[trigger] reach(m, start, t, n),
{
    let k = choose|k: nat| k <= d0 && #[trigger] reach(m, start, v, k);
    if k < d0 {
        lemma_within_intro(m, start, v, k, d0 - 1);
    }
    assert(k == d0);
    lemma_reach_step(m, start, v, u, k);
    assert forall|t: u64, n: nat| n < d0 + 1 && ts.contains(t) implies !#[trigger] reach(
        m,
        start,
        t,
        n,
    ) by {
        if reach(m, start, t, n) {
            lemma_within_intro(m, start, t, n, d0);
            assert(ball(m, start, d0).contains(t));
            assert(visited.contains(t));
        }
    }
}

/// One neighbour `u = us[j]` more has been looked at.
proof fn lemma_seen_step(
    m: Map<u64, FixedBitSet>,
    b: Set<u64>,
    fs: Seq<u64>,
    i: int,
    us: Seq<usize>,
    j: int,
    before: Set<u64>,
    after: Set<u64>,
    u: u64,
)
    requires
        0 <= j < us.len(),
        u == us[j] as u64,
        before == seen_so_far(m, b, fs, i, us, j),
        after == (if b.contains(u) || before.contains(u) {
            before
        } else {
            before.insert(u)
        }),
    ensures
        after == seen_so_far(m, b, fs, i, us, j + 1),
{
    assert forall|x: u64| after.contains(x) == seen_so_far(m, b, fs, i, us, j + 1).contains(x) by {
        if x == u && !b.contains(x) {
            assert(us[j] as u64 == x);
        }
        if seen_so_far(m, b, fs, i, us, j + 1).contains(x) && !seen_so_far(
            m,
            b,
            fs,
            i,
            us,
            j,
        ).contains(x) {
            let p = choose|p: int| 0 <= p < j + 1 && #[trigger] us[p] as u64 == x;
            assert(p == j);
        }
    }
    assert(after =~= seen_so_far(m, b, fs, i, us, j + 1));
}

/// The layered breadth-first distance from `start` to the nearest id of
/// `targets`, exploring at most `max_depth` layers: zero when `start` is a
/// target, `usize::MAX` when no target lies within `max_depth` steps.
pub fn graph_distance(
    inter: &HashMap<u64, FixedBitSet>,
    start: u64,
    targets: &HashSet<u64>,
    max_depth: usize,
) -> (r: usize)
    requires
        max_depth < usize::MAX,
    ensures
        r == 0 <==> targets@.contains(start),
        r < usize::MAX ==> r <= max_depth && (exists|t: u64|
            targets@.contains(t) && #[trigger] reach(inter@, start, t, r as nat)) && (forall|
            t: u64,
            n: nat,
        | n < r && targets@.contains(t) ==> !#[trigger] reach(inter@, start, t, n)),
        r == usize::MAX ==> forall|t: u64, n: nat|
            n <= max_depth && targets@.contains(t) ==> !#[trigger] reach(inter@, start, t, n),
{
    let ghost m = inter@;
    let ghost ts = targets@;
    if targets.contains(&start) {
        proof {
            lemma_reach_zero(m, start, start);
        }
        return 0;
    }
    let mut visited: HashSet<u64> = HashSet::new();
    visited.insert(start);
    let mut frontier: HashSet<u64> = HashSet::new();
    frontier.insert(start);
    let mut depth: usize = 0;
    proof {
        assert forall|x: u64| visited@.contains(x) == ball(m, start, 0).contains(x) by {
            lemma_reach_zero(m, start, x);
            if within(m, start, x, 0) {
                let n = choose|n: nat| n <= 0 && #[trigger] reach(m, start, x, n);
                assert(n == 0);
            }
            if x == start {
                lemma_within_intro(m, start, x, 0, 0);
            }
        }
        assert(visited@ =~= ball(m, start, 0));
        assert forall|x: u64| frontier@.contains(x) == layer(m, start, 0).contains(x) by {
            assert(!within(m, start, x, -1));
            lemma_reach_zero(m, start, x);
            if within(m, start, x, 0) {
                let n = choose|n: nat| n <= 0 && #[trigger] reach(m, start, x, n);
                assert(n == 0);
            }
            if x == start {
                lemma_within_intro(m, start, x, 0, 0);
            }
        }
        assert(frontier@ =~= layer(m, start, 0));
    }
    while !frontier.is_empty() && depth < max_depth
        invariant
            m == inter@,
            ts == targets@,
            depth <= max_depth < usize::MAX,
            !ts.contains(start),
            visited@ == ball(m, start, depth as int),
            frontier@ == layer(m, start, depth as int),
            forall|x: u64| #[trigger] visited@.contains(x) ==> !ts.contains(x),
        decreases max_depth - depth,
    {
        let ghost b = visited@;
        let ghost d0 = depth as int;
        depth = depth + 1;
        let mut next: HashSet<u64> = HashSet::new();
        let fs = set_items(&frontier);
        let ghost no_us = Seq::<usize>::empty();
        proof {
            assert(next@ =~= seen_so_far(m, b, fs@, 0, no_us, 0));
            assert(visited@ =~= b.union(next@));
        }
        let mut i: usize = 0;
        while i < fs.len()
            invariant
                m == inter@,
                ts == targets@,
                !ts.contains(start),
                depth == d0 + 1,
                depth <= max_depth,
                max_depth < usize::MAX,
                0 <= d0,
                b == ball(m, start, d0),
                fs@.to_set() == layer(m, start, d0),
                i <= fs@.len(),
                next@ == seen_so_far(m, b, fs@, i as int, no_us, 0),
                visited@ == b.union(next@),
                forall|x: u64| #[trigger] visited@.contains(x) ==> !ts.contains(x),
            decreases fs@.len() - i,
        {
            let v = fs[i];
            let us: Vec<usize> = match inter.get(&v) {
                Some(nbrs) => bitset_ones(nbrs),
                None => Vec::new(),
            };
            proof {
                assert forall|u: u64| next@.contains(u) == seen_so_far(m, b, fs@, i as int, us@, 0).contains(u) by {}
                assert(next@ =~= seen_so_far(m, b, fs@, i as int, us@, 0));
                assert(fs@.to_set().contains(v));
            }
            let mut j: usize = 0;
            while j < us.len()
                invariant
                    m == inter@,
                    ts == targets@,
                    !ts.contains(start),
                    depth == d0 + 1,
                    depth <= max_depth,
                    max_depth < usize::MAX,
                    0 <= d0,
                    b == ball(m, start, d0),
                    fs@.to_set() == layer(m, start, d0),
                    i < fs@.len(),
                    v == fs@[i as int],
                    m.contains_key(v) ==> us@.to_set() == bits_of(m[v]),
                    !m.contains_key(v) ==> us@.len() == 0,
                    j <= us@.len(),
                    next@ == seen_so_far(m, b, fs@, i as int, us@, j as int),
                    visited@ == b.union(next@),
                    forall|x: u64| #[trigger] visited@.contains(x) ==> !ts.contains(x),
                decreases us@.len() - j,
            {
                let u = us[j] as u64;
                let ghost before_next = next@;
                proof {
                    assert(us@.to_set().contains(us@[j as int]));
                    assert(adjacent(m, v, u));
                }
                if !visited.contains(&u) {
                    if targets.contains(&u) {
                        proof {
                            lemma_found(m, start, d0, v, u, ts, visited@);
                        }
                        return depth;
                    }
                    visited.insert(u);
                    next.insert(u);
                }
                proof {
                    lemma_seen_step(m, b, fs@, i as int, us@, j as int, before_next, next@, u);
                    assert(visited@ =~= b.union(next@));
                }
                j = j + 1;
            }
            proof {
                assert forall|x: u64| next@.contains(x) == seen_so_far(
                    m,
                    b,
                    fs@,
                    i + 1,
                    no_us,
                    0,
                ).contains(x) by {
                    if seen_so_far(m, b, fs@, i as int, us@, us@.len() as int).contains(x) && !(
                    exists|q: int| 0 <= q < i && adjacent(m, #[trigger] fs@[q], x)) {
                        let p = choose|p: int| 0 <= p < us@.len() && #[trigger] us@[p] as u64 == x;
                        assert(us@.to_set().contains(us@[p]));
                        assert(adjacent(m, fs@[i as int], x));
                    }
                    if (exists|q: int| 0 <= q < i + 1 && adjacent(m, #[trigger] fs@[q], x)) && !(
                    exists|q: int| 0 <= q < i && adjacent(m, #[trigger] fs@[q], x)) && !b.contains(
                        x,
                    ) {
                        let q = choose|q: int| 0 <= q < i + 1 && adjacent(m, #[trigger] fs@[q], x);
                        assert(q == i);
                        let bb = choose|bb: usize| #[trigger] bits_of(m[v]).contains(bb) && bb as u64 == x;
                        assert(us@.to_set().contains(bb));
                        let p = choose|p: int| 0 <= p < us@.len() && us@[p] == bb;
                        assert(us@[p] as u64 == x);
                    }
                }
                assert(next@ =~= seen_so_far(m, b, fs@, i + 1, no_us, 0));
            }
            i = i + 1;
        }
        proof {
            lemma_next_layer(m, start, d0);
            assert forall|x: u64| next@.contains(x) == layer(m, start, d0 + 1).contains(x) by {
                if next@.contains(x) {
                    let q = choose|q: int| 0 <= q < fs@.len() && adjacent(m, #[trigger] fs@[q], x);
                    assert(fs@.to_set().contains(fs@[q]));
                }
                if layer(m, start, d0 + 1).contains(x) {
                    let w = choose|w: u64| layer(m, start, d0).contains(w) && adjacent(m, w, x);
                    assert(fs@.to_set().contains(w));
                    let q = choose|q: int| 0 <= q < fs@.len() && fs@[q] == w;
                    assert(adjacent(m, fs@[q], x));
                }
            }
            assert(next@ =~= layer(m, start, d0 + 1));
            assert(visited@ =~= ball(m, start, d0 + 1));
        }
        frontier = next;
    }
    proof {
        if depth < max_depth {
            assert(frontier@ =~= Set::<u64>::empty());
            lemma_empty_layer(m, start, depth as nat, max_depth as nat);
        }
        assert forall|t: u64, n: nat|
            n <= max_depth && targets@.contains(t) implies !#[trigger] reach(inter@, start, t, n) by {
            if reach(m, start, t, n) {
                lemma_within_intro(m, start, t, n, max_depth as int);
                if depth < max_depth {
                    assert(within(m, start, t, depth - 1));
                    let k = choose|k: nat| k <= depth - 1 && #[trigger] reach(m, start, t, k);
                    lemma_within_intro(m, start, t, k, depth as int);
                } else {
                    lemma_within_intro(m, start, t, n, depth as int);
                }
                assert(visited@.contains(t));
            }
        }
    }
    usize::MAX
}

/// How many ids of a group the distance memory probes from.
pub const MAX_PROBES: usize = 25;

/// The least number of steps from one of the first `MAX_PROBES` ids of
/// `sources` to an id of `targets`, exploring at most `max_depth` layers
/// from each: `usize::MAX` when no such walk exists.
pub fn nearest_distance(
    inter: &HashMap<u64, FixedBitSet>,
    sources: &Vec<u64>,
    targets: &HashSet<u64>,
    max_depth: usize,
) -> (r: usize)
    requires
        max_depth < usize::MAX,
    ensures
        r < usize::MAX ==> r <= max_depth && (exists|k: int, t: u64|
            0 <= k < sources@.len() && k < MAX_PROBES && targets@.contains(t) && #[trigger] reach(
                inter@,
                sources@[k],
                t,
                r as nat,
            )),
        forall|k: int, t: u64, n: nat|
            0 <= k < sources@.len() && k < MAX_PROBES && targets@.contains(t) && n < r && n <= max_depth
                ==> !#[trigger] reach(inter@, sources@[k], t, n),
{
    let count = if sources.len() < MAX_PROBES {
        sources.len()
    } else {
        MAX_PROBES
    };
    let mut best: usize = usize::MAX;
    let mut i: usize = 0;
    while i < count
        invariant
            count <= sources@.len(),
            count <= MAX_PROBES,
            i <= count,
            max_depth < usize::MAX,
            best < usize::MAX ==> best <= max_depth && (exists|k: int, t: u64|
                0 <= k < i && targets@.contains(t) && #[trigger] reach(inter@, sources@[k], t, best as nat)),
            forall|k: int, t: u64, n: nat|
                0 <= k < i && targets@.contains(t) && n < best && n <= max_depth ==> !#[trigger] reach(
                    inter@,
                    sources@[k],
                    t,
                    n,
                ),
        decreases count - i,
    {
        let d = graph_distance(inter, sources[i], targets, max_depth);
        if d < best {
            best = d;
        }
        proof {
            assert forall|k: int, t: u64, n: nat|
                0 <= k < i + 1 && targets@.contains(t) && n < best && n <= max_depth implies !#[trigger] reach(
                inter@,
                sources@[k],
                t,
                n,
            ) by {
                if k == i {
                    if d < usize::MAX {
                        assert(n < d);
                    }
                }
            }
        }
        i = i + 1;
    }
    best
}

/// A walk of at most `d` steps leads to `t` from some id of `ss`.
pub open spec fn within_any(m: Map<u64, FixedBitSet>, ss: Set<u64>, t: u64, d: int) -> bool {
    exists|s: u64| ss.contains(s) && #[trigger] within(m, s, t, d)
}

/// The ids at most `d` steps from `ss`.
pub open spec fn ball_any(m: Map<u64, FixedBitSet>, ss: Set<u64>, d: int) -> Set<u64> {
    Set::new(|x: u64| within_any(m, ss, x, d))
}

/// The ids exactly `d` steps from `ss`.
pub open spec fn layer_any(m: Map<u64, FixedBitSet>, ss: Set<u64>, d: int) -> Set<u64> {
    Set::new(|x: u64| within_any(m, ss, x, d) && !within_any(m, ss, x, d - 1))
}

/// Layers grow from a set of sources as from one.
proof fn lemma_next_layer_any(m: Map<u64, FixedBitSet>, ss: Set<u64>, d: int)
    requires
        0 <= d,
    ensures
        forall|u: u64|
            #![trigger layer_any(m, ss, d + 1).contains(u)]
            layer_any(m, ss, d + 1).contains(u) <==> (!ball_any(m, ss, d).contains(u) && exists|v: u64|
                layer_any(m, ss, d).contains(v) && adjacent(m, v, u)),
        forall|u: u64|
            #![trigger ball_any(m, ss, d + 1).contains(u)]
            ball_any(m, ss, d + 1).contains(u) <==> (ball_any(m, ss, d).contains(u) || layer_any(
                m,
                ss,
                d + 1,
            ).contains(u)),
{
    assert forall|u: u64|
        #![trigger layer_any(m, ss, d + 1).contains(u)]
        layer_any(m, ss, d + 1).contains(u) <==> (!ball_any(m, ss, d).contains(u) && exists|v: u64|
            layer_any(m, ss, d).contains(v) && adjacent(m, v, u)) by {
        if layer_any(m, ss, d + 1).contains(u) {
            let s = choose|s: u64| ss.contains(s) && #[trigger] within(m, s, u, d + 1);
            let n = choose|n: nat| n <= d + 1 && #[trigger] reach(m, s, u, n);
            if n <= d {
                lemma_within_intro(m, s, u, n, d);
            }
            assert(n == d + 1);
            lemma_reach_back(m, s, u, d as nat);
            let v = choose|v: u64| #[trigger] reach(m, s, v, d as nat) && adjacent(m, v, u);
            lemma_within_intro(m, s, v, d as nat, d);
            if within_any(m, ss, v, d - 1) {
                let s2 = choose|s2: u64| ss.contains(s2) && #[trigger] within(m, s2, v, d - 1);
                let k = choose|k: nat| k <= d - 1 && #[trigger] reach(m, s2, v, k);
                lemma_reach_step(m, s2, v, u, k);
                lemma_within_intro(m, s2, u, k + 1, d);
            }
            assert(layer_any(m, ss, d).contains(v));
        }
        if !ball_any(m, ss, d).contains(u) && exists|v: u64|
            layer_any(m, ss, d).contains(v) && adjacent(m, v, u) {
            let v = choose|v: u64| layer_any(m, ss, d).contains(v) && adjacent(m, v, u);
            let s = choose|s: u64| ss.contains(s) && #[trigger] within(m, s, v, d);
            let k = choose|k: nat| k <= d && #[trigger] reach(m, s, v, k);
            lemma_reach_step(m, s, v, u, k);
            lemma_within_intro(m, s, u, k + 1, d + 1);
        }
    }
    assert forall|u: u64|
        #![trigger ball_any(m, ss, d + 1).contains(u)]
        ball_any(m, ss, d + 1).contains(u) <==> (ball_any(m, ss, d).contains(u) || layer_any(
            m,
            ss,
            d + 1,
        ).contains(u)) by {
        if ball_any(m, ss, d).contains(u) {
            let s = choose|s: u64| ss.contains(s) && #[trigger] within(m, s, u, d);
            let k = choose|k: nat| k <= d && #[trigger] reach(m, s, u, k);
            lemma_within_intro(m, s, u, k, d + 1);
        }
    }
}

/// An empty layer closes the ball of a set of sources.
proof fn lemma_empty_layer_any(m: Map<u64, FixedBitSet>, ss: Set<u64>, d: nat, n: nat)
    requires
        layer_any(m, ss, d as int) == Set::<u64>::empty(),
        d <= n,
    ensures
        forall|u: u64| #[trigger] within_any(m, ss, u, n as int) ==> within_any(m, ss, u, d - 1),
    decreases n - d,
{
    assert forall|u: u64| #[trigger] within_any(m, ss, u, d as int) implies within_any(m, ss, u, d - 1) by {
        if !within_any(m, ss, u, d - 1) {
            assert(layer_any(m, ss, d as int).contains(u));
        }
    }
    if n > d {
        lemma_empty_layer_any(m, ss, d, (n - 1) as nat);
        assert forall|u: u64| #[trigger] within_any(m, ss, u, n as int) implies within_any(m, ss, u, d - 1) by {
            let s = choose|s: u64| ss.contains(s) && #[trigger] within(m, s, u, n as int);
            let k = choose|k: nat| k <= n && #[trigger] reach(m, s, u, k);
            if k == n {
                lemma_reach_back(m, s, u, (k - 1) as nat);
                let v = choose|v: u64| #[trigger] reach(m, s, v, (k - 1) as nat) && adjacent(m, v, u);
                lemma_within_intro(m, s, v, (k - 1) as nat, n - 1);
                assert(within_any(m, ss, v, n - 1));
                assert(within_any(m, ss, v, d - 1));
                let s2 = choose|s2: u64| ss.contains(s2) && #[trigger] within(m, s2, v, d - 1);
                let j = choose|j: nat| j <= d - 1 && #[trigger] reach(m, s2, v, j);
                lemma_reach_step(m, s2, v, u, j);
                lemma_within_intro(m, s2, u, j + 1, d as int);
                assert(within_any(m, ss, u, d as int));
            } else {
                lemma_within_intro(m, s, u, k, n - 1);
                assert(within_any(m, ss, u, n - 1));
            }
        }
    }
}

/// Every id at most `max_depth` steps from an id of `sources` (the sources
/// included), by layered breadth-first search.
pub fn reachable_within(
    inter: &HashMap<u64, FixedBitSet>,
    sources: &HashSet<u64>,
    max_depth: usize,
) -> (r: HashSet<u64>)
    ensures
        r@ == ball_any(inter@, sources@, max_depth as int),
{
    let ghost m = inter@;
    let ghost ss = sources@;
    let items = set_items(sources);
    let mut visited: HashSet<u64> = HashSet::new();
    let mut frontier: HashSet<u64> = HashSet::new();
    let mut k: usize = 0;
    while k < items.len()
        invariant
            k <= items@.len(),
            visited@ == items@.take(k as int).to_set(),
            frontier@ == visited@,
        decreases items@.len() - k,
    {
        visited.insert(items[k]);
        frontier.insert(items[k]);
        proof {
            assert(items@.take(k + 1) == items@.take(k as int).push(items@[k as int]));
            assert forall|x: u64| #[trigger] visited@.contains(x) <==> items@.take(k + 1).to_set().contains(x) by {
                if x == items@[k as int] {
                    assert(items@.take(k + 1)[k as int] == x);
                } else if visited@.contains(x) {
                    let t = choose|t: int| 0 <= t < k && #[trigger] items@.take(k as int)[t] == x;
                    assert(items@.take(k + 1)[t] == x);
                } else if items@.take(k + 1).to_set().contains(x) {
                    let t = choose|t: int| 0 <= t < k + 1 && #[trigger] items@.take(k + 1)[t] == x;
                    assert(items@.take(k as int)[t] == x);
                }
            }
            assert(visited@ =~= items@.take(k + 1).to_set());
            assert(frontier@ =~= visited@);
        }
        k = k + 1;
    }
    let mut depth: usize = 0;
    proof {
        assert(items@.take(items@.len() as int) == items@);
        assert forall|x: u64| #[trigger] visited@.contains(x) == ball_any(m, ss, 0).contains(x) by {
            if visited@.contains(x) {
                lemma_reach_zero(m, x, x);
                lemma_within_intro(m, x, x, 0, 0);
            }
            if ball_any(m, ss, 0).contains(x) {
                let s = choose|s: u64| ss.contains(s) && #[trigger] within(m, s, x, 0);
                let n = choose|n: nat| n <= 0 && #[trigger] reach(m, s, x, n);
                lemma_reach_zero(m, s, x);
            }
        }
        assert(visited@ =~= ball_any(m, ss, 0));
        assert forall|x: u64| #[trigger] frontier@.contains(x) == layer_any(m, ss, 0).contains(x) by {
            if within_any(m, ss, x, -1) {
                let s = choose|s: u64| ss.contains(s) && #[trigger] within(m, s, x, -1);
            }
        }
        assert(frontier@ =~= layer_any(m, ss, 0));
    }
    while !frontier.is_empty() && depth < max_depth
        invariant
            m == inter@,
            ss == sources@,
            depth <= max_depth,
            visited@ == ball_any(m, ss, depth as int),
            frontier@ == layer_any(m, ss, depth as int),
        decreases max_depth - depth,
    {
        let ghost b = visited@;
        let ghost d0 = depth as int;
        depth = depth + 1;
        let mut next: HashSet<u64> = HashSet::new();
        let fs = set_items(&frontier);
        let ghost no_us = Seq::<usize>::empty();
        proof {
            assert(next@ =~= seen_so_far(m, b, fs@, 0, no_us, 0));
            assert(visited@ =~= b.union(next@));
        }
        let mut i: usize = 0;
        while i < fs.len()
            invariant
                m == inter@,
                ss == sources@,
                depth == d0 + 1,
                depth <= max_depth,
                0 <= d0,
                b == ball_any(m, ss, d0),
                fs@.to_set() == layer_any(m, ss, d0),
                i <= fs@.len(),
                next@ == seen_so_far(m, b, fs@, i as int, no_us, 0),
                visited@ == b.union(next@),
            decreases fs@.len() - i,
        {
            let v = fs[i];
            let us: Vec<usize> = match inter.get(&v) {
                Some(nbrs) => bitset_ones(nbrs),
                None => Vec::new(),
            };
            proof {
                assert forall|u: u64| next@.contains(u) == seen_so_far(m, b, fs@, i as int, us@, 0).contains(u) by {}
                assert(next@ =~= seen_so_far(m, b, fs@, i as int, us@, 0));
            }
            let mut j: usize = 0;
            while j < us.len()
                invariant
                    m == inter@,
                    ss == sources@,
                    depth == d0 + 1,
                    depth <= max_depth,
                    0 <= d0,
                    b == ball_any(m, ss, d0),
                    fs@.to_set() == layer_any(m, ss, d0),
                    i < fs@.len(),
                    v == fs@[i as int],
                    m.contains_key(v) ==> us@.to_set() == bits_of(m[v]),
                    !m.contains_key(v) ==> us@.len() == 0,
                    j <= us@.len(),
                    next@ == seen_so_far(m, b, fs@, i as int, us@, j as int),
                    visited@ == b.union(next@),
                decreases us@.len() - j,
            {
                let u = us[j] as u64;
                let ghost before_next = next@;
                if !visited.contains(&u) {
                    visited.insert(u);
                    next.insert(u);
                }
                proof {
                    lemma_seen_step(m, b, fs@, i as int, us@, j as int, before_next, next@, u);
                    assert(visited@ =~= b.union(next@));
                }
                j = j + 1;
            }
            proof {
                assert forall|x: u64| next@.contains(x) == seen_so_far(
                    m,
                    b,
                    fs@,
                    i + 1,
                    no_us,
                    0,
                ).contains(x) by {
                    if seen_so_far(m, b, fs@, i as int, us@, us@.len() as int).contains(x) && !(
                    exists|q: int| 0 <= q < i && adjacent(m, #[trigger] fs@[q], x)) {
                        let p = choose|p: int| 0 <= p < us@.len() && #[trigger] us@[p] as u64 == x;
                        assert(us@.to_set().contains(us@[p]));
                        assert(adjacent(m, fs@[i as int], x));
                    }
                    if (exists|q: int| 0 <= q < i + 1 && adjacent(m, #[trigger] fs@[q], x)) && !(
                    exists|q: int| 0 <= q < i && adjacent(m, #[trigger] fs@[q], x)) && !b.contains(
                        x,
                    ) {
                        let q = choose|q: int| 0 <= q < i + 1 && adjacent(m, #[trigger] fs@[q], x);
                        assert(q == i);
                        let bb = choose|bb: usize| #[trigger] bits_of(m[v]).contains(bb) && bb as u64 == x;
                        assert(us@.to_set().contains(bb));
                        let p = choose|p: int| 0 <= p < us@.len() && us@[p] == bb;
                        assert(us@[p] as u64 == x);
                    }
                }
                assert(next@ =~= seen_so_far(m, b, fs@, i + 1, no_us, 0));
            }
            i = i + 1;
        }
        proof {
            lemma_next_layer_any(m, ss, d0);
            assert forall|x: u64| next@.contains(x) == layer_any(m, ss, d0 + 1).contains(x) by {
                if next@.contains(x) {
                    let q = choose|q: int| 0 <= q < fs@.len() && adjacent(m, #[trigger] fs@[q], x);
                    assert(fs@.to_set().contains(fs@[q]));
                }
                if layer_any(m, ss, d0 + 1).contains(x) {
                    let w = choose|w: u64| layer_any(m, ss, d0).contains(w) && adjacent(m, w, x);
                    assert(fs@.to_set().contains(w));
                    let q = choose|q: int| 0 <= q < fs@.len() && fs@[q] == w;
                    assert(adjacent(m, fs@[q], x));
                }
            }
            assert(next@ =~= layer_any(m, ss, d0 + 1));
            assert(visited@ =~= ball_any(m, ss, d0 + 1));
        }
        frontier = next;
    }
    proof {
        if depth < max_depth {
            assert(frontier@ =~= Set::<u64>::empty());
            lemma_empty_layer_any(m, ss, depth as nat, max_depth as nat);
            assert forall|x: u64| #[trigger] visited@.contains(x) == ball_any(m, ss, max_depth as int).contains(x) by {
                if visited@.contains(x) {
                    let s = choose|s: u64| ss.contains(s) && #[trigger] within(m, s, x, depth as int);
                    let n = choose|n: nat| n <= depth && #[trigger] reach(m, s, x, n);
                    lemma_within_intro(m, s, x, n, max_depth as int);
                }
                if ball_any(m, ss, max_depth as int).contains(x) {
                    assert(within_any(m, ss, x, depth - 1));
                    let s = choose|s: u64| ss.contains(s) && #[trigger] within(m, s, x, depth - 1);
                    let n = choose|n: nat| n <= depth - 1 && #[trigger] reach(m, s, x, n);
                    lemma_within_intro(m, s, x, n, depth as int);
                }
            }
        }
        assert(visited@ =~= ball_any(m, ss, max_depth as int));
    }
    visited
}

/// Neighbour bit `b` of `v` lies in a closed local motif: the entry for `b`
/// lists another neighbour of `v`, so `v`, `b` and that neighbour close a
/// triangle.
pub open spec fn in_closed_motif(m: Map<u64, FixedBitSet>, v: u64) -> spec_fn(usize) -> bool {
    |b: usize|
        exists|c: usize|
            #![trigger bits_of(m[v]).contains(c), bits_of(m[b as u64]).contains(c)]
            c != b && bits_of(m[v]).contains(c) && m.contains_key(b as u64) && bits_of(
                m[b as u64],
            ).contains(c)
}

/// Whether the entry for `b` in `m` lists one of `cs` other than `b`.
fn lists_other(inter: &HashMap<u64, FixedBitSet>, b: usize, cs: &Vec<usize>) -> (r: bool)
    ensures
        r <==> exists|c: usize|
            #![trigger cs@.contains(c), bits_of(inter@[b as u64]).contains(c)]
            c != b && cs@.contains(c) && inter@.contains_key(b as u64) && bits_of(
                inter@[b as u64],
            ).contains(c),
{
    match inter.get(&(b as u64)) {
        None => false,
        Some(nb) => {
            let mut j: usize = 0;
            while j < cs.len()
                invariant
                    j <= cs@.len(),
                    inter@.contains_key(b as u64),
                    *nb == inter@[b as u64],
                    forall|t: int|
                        0 <= t < j ==> cs@[t] == b || !bits_of(*nb).contains(#[trigger] cs@[t]),
                decreases cs@.len() - j,
            {
                let c = cs[j];
                if c != b && crate::bitset::bitset_contains(nb, c) {
                    proof {
                        assert(cs@.contains(c));
                    }
                    return true;
                }
                j = j + 1;
            }
            proof {
                assert forall|c: usize| c != b && cs@.contains(c) implies !bits_of(*nb).contains(c) by {
                    let t = choose|t: int| 0 <= t < cs@.len() && cs@[t] == c;
                }
            }
            false
        },
    }
}

/// For a vertex `v` of the interaction graph, how many of its interactions
/// lie in a closed local motif (the neighbour is itself linked to another
/// neighbour of `v`), and how many neighbours it has; `None` when `v` has
/// no entry.
pub fn closed_motif_links(inter: &HashMap<u64, FixedBitSet>, v: u64) -> (r: Option<(usize, usize)>)
    ensures
        r.is_none() <==> !inter@.contains_key(v),
        r matches Some((closed, deg)) ==> closed as nat == bits_of(inter@[v]).filter(
            in_closed_motif(inter@, v),
        ).len() && deg as nat == bits_of(inter@[v]).len(),
{
    let ghost m = inter@;
    match inter.get(&v) {
        None => None,
        Some(nbrs) => {
            let items = bitset_ones(nbrs);
            let ghost p = in_closed_motif(m, v);
            let mut closed: usize = 0;
            let mut i: usize = 0;
            while i < items.len()
                invariant
                    m == inter@,
                    m.contains_key(v),
                    items@.to_set() == bits_of(m[v]),
                    p == in_closed_motif(m, v),
                    i <= items@.len(),
                    closed as nat == items@.take(i as int).filter(p).len(),
                    closed <= i,
                decreases items@.len() - i,
            {
                let b = items[i];
                let closes = lists_other(inter, b, &items);
                proof {
                    if closes {
                        let c = choose|c: usize|
                            #![trigger items@.contains(c), bits_of(m[b as u64]).contains(c)]
                            c != b && items@.contains(c) && m.contains_key(b as u64) && bits_of(
                                m[b as u64],
                            ).contains(c);
                        assert(items@.to_set().contains(c));
                        assert(bits_of(m[v]).contains(c));
                    }
                    if p(b) {
                        let c = choose|c: usize|
                            #![trigger bits_of(m[v]).contains(c), bits_of(m[b as u64]).contains(c)]
                            c != b && bits_of(m[v]).contains(c) && m.contains_key(b as u64)
                                && bits_of(m[b as u64]).contains(c);
                        assert(items@.to_set().contains(c));
                        assert(items@.contains(c));
                    }
                    assert(closes == p(b));
                    assert(items@.take(i + 1) == items@.take(i as int).push(b));
                    items@.take(i as int).lemma_filter_push(b, p);
                }
                if closes {
                    closed = closed + 1;
                }
                i = i + 1;
            }
            proof {
                assert(items@.take(items@.len() as int) == items@);
                crate::listops::lemma_filter_card(items@, p);
                items@.unique_seq_to_set();
            }
            Some((closed, items.len()))
        },
    }
}

/// Bit `b` is a neighbour of the entry for id `a` in `m`.
pub open spec fn links_to(m: Map<u64, FixedBitSet>, a: usize) -> spec_fn(usize) -> bool {
    |b: usize| m.contains_key(a as u64) && bits_of(m[a as u64]).contains(b)
}

/// The number of position pairs `i < j` of `vs` whose entry for `vs[i]`
/// lists `vs[j]`.
pub open spec fn closed_pairs(m: Map<u64, FixedBitSet>, vs: Seq<usize>) -> nat
    decreases vs.len(),
{
    if vs.len() == 0 {
        0
    } else {
        vs.drop_first().filter(links_to(m, vs[0])).len() + closed_pairs(m, vs.drop_first())
    }
}

/// For a vertex `v` of the interaction graph, its number of neighbours and
/// the number of pairs of them linked to each other (the lower one listing
/// the higher); `None` when `v` has no entry.
pub fn neighbour_closure(inter: &HashMap<u64, FixedBitSet>, v: u64) -> (r: Option<(usize, u128)>)
    ensures
        r is None <==> !inter@.contains_key(v),
        r matches Some((k, links)) ==> exists|s: Seq<usize>|
            #![trigger closed_pairs(inter@, s)]
            (forall|i: int, j: int| 0 <= i < j < s.len() ==> s[i] < s[j]) && s.to_set() == bits_of(
                inter@[v],
            ) && k == s.len() && links == closed_pairs(inter@, s),
{
    let ghost m = inter@;
    match inter.get(&v) {
        None => None,
        Some(nbrs) => {
            let nv = bitset_ones(nbrs);
            let ghost sq = nv@;
            let k = nv.len();
            proof {
                assert(sq.skip(0) == sq);
            }
            let mut links: u128 = 0;
            let mut i: usize = 0;
            while i < k
                invariant
                    m == inter@,
                    sq == nv@,
                    k == sq.len(),
                    i <= k,
                    links + closed_pairs(m, sq.skip(i as int)) == closed_pairs(m, sq),
                    links <= i * k,
                decreases k - i,
            {
                let ghost p = links_to(m, sq[i as int]);
                proof {
                    assert(sq.skip(i as int).drop_first() == sq.skip(i + 1));
                    assert(sq.skip(i as int)[0] == sq[i as int]);
                }
                let a = nv[i];
                let row = inter.get(&(a as u64));
                let mut j: usize = i + 1;
                let mut rc: u128 = 0;
                proof {
                    assert(sq.subrange(i + 1, j as int) =~= Seq::<usize>::empty());
                }
                while j < k
                    invariant
                        m == inter@,
                        sq == nv@,
                        k == sq.len(),
                        i < j <= k,
                        a == sq[i as int],
                        p == links_to(m, sq[i as int]),
                        row == (if m.contains_key(a as u64) {
                            Some(&m[a as u64])
                        } else {
                            None
                        }),
                        links + sq.skip(i + 1).filter(p).len() + closed_pairs(m, sq.skip(i + 1))
                            == closed_pairs(m, sq),
                        rc as nat == sq.subrange(i + 1, j as int).filter(p).len(),
                        rc <= j - i - 1,
                    decreases k - j,
                {
                    proof {
                        let pre = sq.subrange(i + 1, j as int);
                        let post = sq.subrange(j as int, k as int);
                        assert(sq.skip(i + 1) =~= pre + post);
                        Seq::filter_distributes_over_add(pre, post, p);
                        assert(post[0] == sq[j as int]);
                        assert(post == seq![sq[j as int]] + post.drop_first());
                        Seq::filter_distributes_over_add(seq![sq[j as int]], post.drop_first(), p);
                        assert(sq.subrange(i + 1, j + 1) == pre.push(sq[j as int]));
                        pre.lemma_filter_push(sq[j as int], p);
                    }
                    let hit = match row {
                        Some(bs) => crate::bitset::bitset_contains(bs, nv[j]),
                        None => false,
                    };
                    proof {
                        assert(hit == p(sq[j as int]));
                    }
                    if hit {
                        rc = rc + 1;
                    }
                    j = j + 1;
                }
                proof {
                    assert(sq.subrange(i + 1, k as int) == sq.skip(i + 1));
                    assert(links + rc <= (i + 1) * k) by (nonlinear_arith)
                        requires
                            links <= i * k,
                            rc <= k - i - 1,
                            i < k,
                    ;
                    assert((i + 1) * k <= k * k) by (nonlinear_arith)
                        requires
                            i < k,
                    ;
                    assert(k * k <= 0xffff_ffff_ffff_ffff_ffff_ffff_ffff_ffffu128) by (nonlinear_arith)
                        requires
                            k <= usize::MAX,
                            usize::MAX <= u64::MAX,
                    ;
                }
                links = links + rc;
                i = i + 1;
            }
            proof {
                assert(sq.skip(k as int) =~= Seq::<usize>::empty());
            }
            Some((k, links))
        },
    }
}

/// The degrees of the ids `ks` of `m`, summed.
pub open spec fn degree_sum(m: Map<u64, FixedBitSet>, ks: Seq<u64>) -> nat
    decreases ks.len(),
{
    if ks.len() == 0 {
        0
    } else {
        degree_sum(m, ks.drop_last()) + bits_of(m[ks.last()]).len()
    }
}

/// The largest degree of the interaction graph (zero when it is empty) and
/// the sum of all degrees.
pub fn degree_stats(inter: &HashMap<u64, FixedBitSet>) -> (r: (usize, u128))
    ensures
        forall|k: u64| #[trigger] inter@.contains_key(k) ==> bits_of(inter@[k]).len() <= r.0,
        inter@.dom().len() > 0 ==> exists|k: u64|
            #[trigger] inter@.contains_key(k) && bits_of(inter@[k]).len() == r.0,
        inter@.dom().len() == 0 ==> r.0 == 0,
        exists|ks: Seq<u64>|
            ks.to_set() == inter@.dom() && ks.no_duplicates() && r.1 as nat == #[trigger] degree_sum(
                inter@,
                ks,
            ),
{
    let ghost m = inter@;
    let ks = keys_of(inter);
    let mut best: usize = 0;
    let mut sum: u128 = 0;
    let mut i: usize = 0;
    while i < ks.len()
        invariant
            m == inter@,
            ks@.to_set() == m.dom(),
            ks@.no_duplicates(),
            i <= ks@.len(),
            forall|t: int| 0 <= t < i ==> bits_of(m[#[trigger] ks@[t]]).len() <= best,
            i > 0 ==> exists|t: int| 0 <= t < i && bits_of(m[#[trigger] ks@[t]]).len() == best,
            i == 0 ==> best == 0,
            sum as nat == degree_sum(m, ks@.take(i as int)),
            sum <= i * (usize::MAX as nat),
        decreases ks@.len() - i,
    {
        let k = ks[i];
        proof {
            assert(ks@.to_set().contains(k));
        }
        let d = match inter.get(&k) {
            Some(b) => {
                let ones = bitset_ones(b);
                proof {
                    ones@.unique_seq_to_set();
                }
                ones.len()
            },
            None => 0,
        };
        proof {
            assert(ks@.take(i + 1).drop_last() == ks@.take(i as int));
            assert(ks@.take(i + 1).last() == k);
            assert(sum + d <= (i + 1) * (usize::MAX as nat)) by (nonlinear_arith)
                requires
                    sum <= i * (usize::MAX as nat),
                    d <= usize::MAX,
            ;
            assert((i + 1) * (usize::MAX as nat) <= 0xffff_ffff_ffff_ffff_ffff_ffff_ffff_ffffu128) by (nonlinear_arith)
                requires
                    i + 1 <= usize::MAX,
                    usize::MAX <= u64::MAX,
            ;
        }
        let ghost old_best = best;
        if i == 0 || d > best {
            best = d;
        }
        sum = sum + d as u128;
        proof {
            assert forall|t: int| 0 <= t < i + 1 implies bits_of(m[#[trigger] ks@[t]]).len() <= best by {}
            if best == d {
                assert(bits_of(m[ks@[i as int]]).len() == best);
            } else {
                let t = choose|t: int| 0 <= t < i && bits_of(m[#[trigger] ks@[t]]).len() == old_best;
            }
        }
        i = i + 1;
    }
    proof {
        assert(ks@.take(ks@.len() as int) == ks@);
        if m.dom().len() > 0 {
            assert(ks@.len() > 0) by {
                if ks@.len() == 0 {
                    assert(ks@.to_set() =~= Set::<u64>::empty());
                }
            }
            let t = choose|t: int| 0 <= t < ks@.len() && bits_of(m[#[trigger] ks@[t]]).len() == best;
            assert(ks@.to_set().contains(ks@[t]));
        }
        if m.dom().len() == 0 {
            assert(ks@.len() == 0) by {
                if ks@.len() > 0 {
                    assert(ks@.to_set().contains(ks@[0]));
                }
            }
        }
        assert forall|k: u64| #[trigger] m.contains_key(k) implies bits_of(m[k]).len() <= best by {
            assert(ks@.to_set().contains(k));
            let t = choose|t: int| 0 <= t < ks@.len() && ks@[t] == k;
            assert(bits_of(m[ks@[t]]).len() <= best);
        }
    }
    (best, sum)
}

/// `d` is what `graph_distance` gives from `start` to `ts` within
/// `max_depth` layers: zero at a target, else the least number of steps to
/// one, or `usize::MAX` when none lies within reach.
pub open spec fn distance_is(m: Map<u64, FixedBitSet>, start: u64, ts: Set<u64>, max_depth: usize, d: usize) -> bool {
    &&& d == 0 <==> ts.contains(start)
    &&& d < usize::MAX ==> d <= max_depth && (exists|t: u64| ts.contains(t) && #[trigger] reach(m, start, t, d as nat))
        && (forall|t: u64, n: nat| n < d && ts.contains(t) ==> !#[trigger] reach(m, start, t, n))
    &&& d == usize::MAX ==> forall|t: u64, n: nat| n <= max_depth && ts.contains(t) ==> !#[trigger] reach(m, start, t, n)
}

/// Where a second probe is placed.
pub enum ProbePick {
    /// A drawn vertex at least the wanted distance from the support.
    Far { vertex: u64, distance: usize },
    /// No draw was far enough: the farthest vertex drawn.
    Fallback { vertex: u64, distance: usize },
    /// Every draw fell in the support.
    Nothing,
}

/// The vertices a probe is drawn from: those within `max_depth` steps of the
/// support but outside it, or, when there are none, every vertex of `all`.
pub open spec fn probe_candidate(
    m: Map<u64, FixedBitSet>,
    support: Set<u64>,
    all: Seq<u64>,
    max_depth: usize,
    v: u64,
) -> bool {
    let near = ball_any(m, support, max_depth as int).difference(support);
    if near.len() > 0 {
        near.contains(v)
    } else {
        all.contains(v)
    }
}

/// There is a candidate vertex, and none of them lies in the support: every
/// draw then gives a vertex whose distance is measured.
pub open spec fn probe_pool_outside(
    m: Map<u64, FixedBitSet>,
    support: Set<u64>,
    all: Seq<u64>,
    max_depth: usize,
) -> bool {
    &&& exists|v: u64| #[trigger] probe_candidate(m, support, all, max_depth, v)
    &&& forall|v: u64| #[trigger] probe_candidate(m, support, all, max_depth, v) ==> !support.contains(v)
}

/// Every candidate vertex lies at `min_distance` or more from the support,
/// and within reach.
pub open spec fn probe_pool_far(
    m: Map<u64, FixedBitSet>,
    support: Set<u64>,
    all: Seq<u64>,
    max_depth: usize,
    min_distance: usize,
) -> bool {
    forall|v: u64, d: usize|
        #![trigger probe_candidate(m, support, all, max_depth, v), distance_is(m, v, support, max_depth, d)]
        probe_candidate(m, support, all, max_depth, v) && distance_is(m, v, support, max_depth, d)
            ==> min_distance <= d < usize::MAX
}

/// Two distances that both meet `distance_is` are equal.
pub proof fn lemma_distance_unique(
    m: Map<u64, FixedBitSet>,
    start: u64,
    ts: Set<u64>,
    max_depth: usize,
    d1: usize,
    d2: usize,
)
    requires
        distance_is(m, start, ts, max_depth, d1),
        distance_is(m, start, ts, max_depth, d2),
    ensures
        d1 == d2,
{
    if d1 < usize::MAX && d2 < usize::MAX {
        let t1 = choose|t: u64| ts.contains(t) && #[trigger] reach(m, start, t, d1 as nat);
        let t2 = choose|t: u64| ts.contains(t) && #[trigger] reach(m, start, t, d2 as nat);
        if d1 < d2 {
            assert(!reach(m, start, t1, d1 as nat));
        }
        if d2 < d1 {
            assert(!reach(m, start, t2, d2 as nat));
        }
    } else if d1 < usize::MAX {
        let t1 = choose|t: u64| ts.contains(t) && #[trigger] reach(m, start, t, d1 as nat);
        assert(!reach(m, start, t1, d1 as nat));
    } else if d2 < usize::MAX {
        let t2 = choose|t: u64| ts.contains(t) && #[trigger] reach(m, start, t, d2 as nat);
        assert(!reach(m, start, t2, d2 as nat));
    }
}

/// The distance `graph_distance` gives from `v` to `ts` within `max_depth`
/// layers.
pub open spec fn probe_distance(m: Map<u64, FixedBitSet>, v: u64, ts: Set<u64>, max_depth: usize) -> usize {
    choose|d: usize| distance_is(m, v, ts, max_depth, d)
}

/// A distance at least `min_distance` and within reach.
pub open spec fn far_enough(d: usize, min_distance: usize) -> bool {
    min_distance <= d < usize::MAX
}

/// A draw at distance `d` replaces the best so far: there is none yet, or
/// `d` is larger than its distance.
pub open spec fn beats(best: Option<(u64, usize)>, d: usize) -> bool {
    match best {
        None => true,
        Some((_, bd)) => d > bd,
    }
}

/// Scanning `draws` in order: the first draw outside the support that is
/// far enough (with its distance), if any; and, among the draws before it
/// outside the support, the first one of largest distance.
pub open spec fn probe_scan(
    m: Map<u64, FixedBitSet>,
    support: Set<u64>,
    draws: Seq<u64>,
    max_depth: usize,
    min_distance: usize,
) -> (Option<(u64, usize)>, Option<(u64, usize)>)
    decreases draws.len(),
{
    if draws.len() == 0 {
        (None, None)
    } else {
        let (far, best) = probe_scan(m, support, draws.drop_last(), max_depth, min_distance);
        let v = draws.last();
        if far is Some || support.contains(v) {
            (far, best)
        } else {
            let d = probe_distance(m, v, support, max_depth);
            if far_enough(d, min_distance) {
                (Some((v, d)), best)
            } else if beats(best, d) {
                (None, Some((v, d)))
            } else {
                (None, best)
            }
        }
    }
}

/// The probe taken from the draws `draws`: the first draw outside the
/// support that is far enough; else the first draw of largest distance
/// among those outside the support; else nothing.
pub open spec fn probe_selection(
    m: Map<u64, FixedBitSet>,
    support: Set<u64>,
    draws: Seq<u64>,
    max_depth: usize,
    min_distance: usize,
) -> ProbePick {
    match probe_scan(m, support, draws, max_depth, min_distance) {
        (Some((v, d)), _) => ProbePick::Far { vertex: v, distance: d },
        (None, Some((v, d))) => ProbePick::Fallback { vertex: v, distance: d },
        (None, None) => ProbePick::Nothing,
    }
}

/// Once a far draw is found, later draws do not change the scan's choice.
proof fn lemma_scan_far_stays(
    m: Map<u64, FixedBitSet>,
    support: Set<u64>,
    draws: Seq<u64>,
    max_depth: usize,
    min_distance: usize,
    k: int,
    j: int,
)
    requires
        0 <= k <= j <= draws.len(),
        probe_scan(m, support, draws.take(k), max_depth, min_distance).0 is Some,
    ensures
        probe_scan(m, support, draws.take(j), max_depth, min_distance) == probe_scan(
            m,
            support,
            draws.take(k),
            max_depth,
            min_distance,
        ),
    decreases j - k,
{
    if j > k {
        lemma_scan_far_stays(m, support, draws, max_depth, min_distance, k, j - 1);
        assert(draws.take(j).drop_last() =~= draws.take(j - 1));
    }
}

/// Takes a probe from the draws `draws`, in order: the first draw outside
/// the support whose distance to the support is at least `min_distance`
/// (and within `max_depth` layers); when there is none, the first draw of
/// largest distance among those outside the support; else nothing.
pub fn select_probe(
    inter: &HashMap<u64, FixedBitSet>,
    support: &HashSet<u64>,
    draws: &Vec<u64>,
    max_depth: usize,
    min_distance: usize,
) -> (r: ProbePick)
    requires
        max_depth < usize::MAX,
    ensures
        r == probe_selection(inter@, support@, draws@, max_depth, min_distance),
        r matches ProbePick::Far { vertex, distance } ==> {
            &&& draws@.contains(vertex)
            &&& !support@.contains(vertex)
            &&& distance_is(inter@, vertex, support@, max_depth, distance)
            &&& far_enough(distance, min_distance)
        },
        r matches ProbePick::Fallback { vertex, distance } ==> {
            &&& draws@.contains(vertex)
            &&& !support@.contains(vertex)
            &&& distance_is(inter@, vertex, support@, max_depth, distance)
            &&& !far_enough(distance, min_distance)
        },
        (exists|i: int| 0 <= i < draws@.len() && !support@.contains(#[trigger] draws@[i])) ==> !(r is Nothing),
        (exists|i: int| 0 <= i < draws@.len() && !support@.contains(#[trigger] draws@[i])) && (forall|i: int, d: usize|
            #![trigger draws@[i], distance_is(inter@, draws@[i], support@, max_depth, d)]
            0 <= i < draws@.len() && !support@.contains(draws@[i]) && distance_is(
                inter@,
                draws@[i],
                support@,
                max_depth,
                d,
            ) ==> far_enough(d, min_distance)) ==> r is Far,
{
    let ghost m = inter@;
    let ghost s = support@;
    let ghost ds = draws@;
    let mut best: Option<(u64, usize)> = None;
    let mut i: usize = 0;
    proof {
        assert(ds.take(0) =~= Seq::<u64>::empty());
    }
    while i < draws.len()
        invariant
            m == inter@,
            s == support@,
            ds == draws@,
            max_depth < usize::MAX,
            i <= ds.len(),
            probe_scan(m, s, ds.take(i as int), max_depth, min_distance) == (
                None::<(u64, usize)>,
                best,
            ),
            best matches Some((v, d)) ==> {
                &&& ds.contains(v)
                &&& !s.contains(v)
                &&& distance_is(m, v, s, max_depth, d)
                &&& !far_enough(d, min_distance)
            },
            (exists|j: int| 0 <= j < i && !s.contains(#[trigger] ds[j])) ==> best is Some,
            (exists|j: int| 0 <= j < i && !s.contains(#[trigger] ds[j])) ==> !(forall|j: int, d: usize|
                #![trigger ds[j], distance_is(m, ds[j], s, max_depth, d)]
                0 <= j < ds.len() && !s.contains(ds[j]) && distance_is(m, ds[j], s, max_depth, d)
                    ==> far_enough(d, min_distance)),
        decreases ds.len() - i,
    {
        let v = draws[i];
        proof {
            assert(ds.take(i + 1).drop_last() =~= ds.take(i as int));
            assert(ds.take(i + 1).last() == v);
            assert(ds.contains(v));
        }
        if !support.contains(&v) {
            let d = graph_distance(inter, v, support, max_depth);
            proof {
                assert(distance_is(m, v, s, max_depth, d));
                let d2 = probe_distance(m, v, s, max_depth);
                assert(distance_is(m, v, s, max_depth, d2));
                lemma_distance_unique(m, v, s, max_depth, d, d2);
            }
            if d >= min_distance && d != usize::MAX {
                proof {
                    lemma_scan_far_stays(m, s, ds, max_depth, min_distance, i + 1, ds.len() as int);
                    assert(ds.take(ds.len() as int) =~= ds);
                }
                return ProbePick::Far { vertex: v, distance: d };
            }
            let better = match best {
                None => true,
                Some((_, bd)) => d > bd,
            };
            if better {
                best = Some((v, d));
            }
        }
        proof {
            if !s.contains(v) {
                assert(!far_enough(probe_distance(m, v, s, max_depth), min_distance));
            }
            assert forall|j: int| 0 <= j < i + 1 && !s.contains(#[trigger] ds[j]) implies best is Some by {
                if j == i {
                    assert(ds[j] == v);
                }
            }
        }
        i = i + 1;
    }
    proof {
        assert(ds.take(ds.len() as int) =~= ds);
    }
    match best {
        Some((vertex, distance)) => ProbePick::Fallback { vertex, distance },
        None => ProbePick::Nothing,
    }
}

/// Draws `max_tries` candidate vertices with `rng` (none when there is no
/// candidate) and takes the probe from them with `select_probe`: the first
/// draw outside the support at `min_distance` or more (and within reach);
/// when none is, the first farthest draw outside the support.
pub fn pick_probe(
    inter: &HashMap<u64, FixedBitSet>,
    support: &HashSet<u64>,
    all: &Vec<u64>,
    max_depth: usize,
    min_distance: usize,
    max_tries: usize,
    rng: &mut SmallRng,
) -> (r: ProbePick)
    requires
        max_depth < usize::MAX,
    ensures
        r matches ProbePick::Far { vertex, distance } ==> {
            &&& probe_candidate(inter@, support@, all@, max_depth, vertex)
            &&& !support@.contains(vertex)
            &&& distance_is(inter@, vertex, support@, max_depth, distance)
            &&& min_distance <= distance < usize::MAX
        },
        r matches ProbePick::Fallback { vertex, distance } ==> {
            &&& probe_candidate(inter@, support@, all@, max_depth, vertex)
            &&& !support@.contains(vertex)
            &&& distance_is(inter@, vertex, support@, max_depth, distance)
            &&& !(min_distance <= distance < usize::MAX)
        },
        max_tries == 0 ==> r is Nothing,
        max_tries > 0 && probe_pool_outside(inter@, support@, all@, max_depth) ==> !(r is Nothing),
        max_tries > 0 && probe_pool_outside(inter@, support@, all@, max_depth) && probe_pool_far(
            inter@,
            support@,
            all@,
            max_depth,
            min_distance,
        ) ==> r is Far,
        exists|draws: Seq<u64>|
            #![trigger probe_selection(inter@, support@, draws, max_depth, min_distance)]
            draws.len() <= max_tries && (forall|i: int|
                0 <= i < draws.len() ==> probe_candidate(inter@, support@, all@, max_depth, #[trigger] draws[i]))
                && r == probe_selection(inter@, support@, draws, max_depth, min_distance),
{
    let ghost m = inter@;
    let reachable = reachable_within(inter, support, max_depth);
    let items = set_items(&reachable);
    let mut candidates: Vec<u64> = Vec::new();
    let mut k: usize = 0;
    while k < items.len()
        invariant
            k <= items@.len(),
            items@.to_set() == ball_any(m, support@, max_depth as int),
            forall|v: u64| #[trigger] candidates@.contains(v) <==> (items@.take(k as int).contains(v) && !support@.contains(v)),
        decreases items@.len() - k,
    {
        let v = items[k];
        let ghost c0 = candidates@;
        if !support.contains(&v) {
            candidates.push(v);
        }
        proof {
            let t1 = items@.take(k + 1);
            assert(t1 == items@.take(k as int).push(v));
            assert forall|x: u64| #[trigger] candidates@.contains(x) <==> (t1.contains(x) && !support@.contains(x)) by {
                if x == v {
                    assert(t1[k as int] == v);
                    if !support@.contains(x) {
                        assert(candidates@[c0.len() as int] == v);
                    }
                } else {
                    if candidates@.contains(x) {
                        let t = choose|t: int| 0 <= t < candidates@.len() && candidates@[t] == x;
                        if t < c0.len() {
                            assert(c0[t] == x);
                        }
                    }
                    if c0.contains(x) {
                        let t = choose|t: int| 0 <= t < c0.len() && c0[t] == x;
                        assert(candidates@[t] == x);
                    }
                    if t1.contains(x) {
                        let t = choose|t: int| 0 <= t < t1.len() && t1[t] == x;
                        assert(items@.take(k as int)[t] == x);
                    }
                    if items@.take(k as int).contains(x) {
                        let t = choose|t: int| 0 <= t < k && items@.take(k as int)[t] == x;
                        assert(t1[t] == x);
                    }
                }
            }
        }
        k = k + 1;
    }
    let ghost near = ball_any(m, support@, max_depth as int).difference(support@);
    proof {
        assert(items@.take(items@.len() as int) == items@);
        assert forall|v: u64| #[trigger] candidates@.contains(v) <==> near.contains(v) by {
            if near.contains(v) {
                assert(items@.to_set().contains(v));
            }
        }
    }
    let pool: &Vec<u64> = if candidates.len() == 0 {
        all
    } else {
        &candidates
    };
    proof {
        vstd::seq_lib::seq_to_set_is_finite(items@);
        if candidates@.len() == 0 {
            assert(near =~= Set::<u64>::empty()) by {
                assert forall|v: u64| !near.contains(v) by {
                    if near.contains(v) {
                        assert(candidates@.contains(v));
                    }
                }
            }
        } else {
            assert(candidates@.contains(candidates@[0]));
            assert(near.contains(candidates@[0]));
            vstd::set_lib::lemma_len_subset(near, items@.to_set());
            assert(near.finite());
            assert(near.len() > 0);
        }
        assert forall|v: u64| #[trigger] pool@.contains(v) <==> probe_candidate(m, support@, all@, max_depth, v) by {}
    }
    let ghost owed = probe_pool_outside(m, support@, all@, max_depth);
    let ghost some = exists|v: u64| #[trigger] probe_candidate(m, support@, all@, max_depth, v);
    let mut draws: Vec<u64> = Vec::new();
    let mut t: usize = 0;
    while t < max_tries
        invariant
            m == inter@,
            t <= max_tries,
            draws@.len() <= t,
            forall|v: u64| #[trigger] pool@.contains(v) <==> probe_candidate(m, support@, all@, max_depth, v),
            forall|i: int| 0 <= i < draws@.len() ==> probe_candidate(m, support@, all@, max_depth, #[trigger] draws@[i]),
            some == (exists|v: u64| #[trigger] probe_candidate(m, support@, all@, max_depth, v)),
            some ==> draws@.len() == t,
        decreases max_tries - t,
    {
        let ghost d0 = draws@;
        match rng_choose(rng, pool) {
            Some(v) => {
                draws.push(v);
                proof {
                    assert forall|i: int| 0 <= i < draws@.len() implies probe_candidate(m, support@, all@, max_depth, #[trigger] draws@[i]) by {
                        if i < d0.len() {
                            assert(draws@[i] == d0[i]);
                        }
                    }
                }
            },
            None => {
                proof {
                    if some {
                        let w = choose|v: u64| #[trigger] probe_candidate(m, support@, all@, max_depth, v);
                        assert(pool@.contains(w));
                    }
                }
            },
        }
        t = t + 1;
    }
    let r = select_probe(inter, support, &draws, max_depth, min_distance);
    proof {
        if let ProbePick::Far { vertex, distance } = r {
            let i = choose|i: int| 0 <= i < draws@.len() && draws@[i] == vertex;
            assert(probe_candidate(m, support@, all@, max_depth, draws@[i]));
        }
        if let ProbePick::Fallback { vertex, distance } = r {
            let i = choose|i: int| 0 <= i < draws@.len() && draws@[i] == vertex;
            assert(probe_candidate(m, support@, all@, max_depth, draws@[i]));
        }
        if max_tries > 0 && owed {
            assert(some);
            assert(draws@.len() > 0);
            assert(probe_candidate(m, support@, all@, max_depth, draws@[0]));
            assert(!support@.contains(draws@[0]));
            if probe_pool_far(m, support@, all@, max_depth, min_distance) {
                assert forall|i: int, d: usize|
                    #![trigger draws@[i], distance_is(m, draws@[i], support@, max_depth, d)]
                    0 <= i < draws@.len() && !support@.contains(draws@[i]) && distance_is(
                        m,
                        draws@[i],
                        support@,
                        max_depth,
                        d,
                    ) implies far_enough(d, min_distance) by {
                    assert(probe_candidate(m, support@, all@, max_depth, draws@[i]));
                }
            }
        }
    }
    r
}

} // verus!
