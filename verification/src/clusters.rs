//! Connected clusters of the interaction graph, found by depth-first search
//! from a list of start ids, optionally kept inside an allowed id set.
use crate::bitset::{bits_of, bitset_ones};
use crate::graph::{adjacent, is_walk};
use crate::listops::keys_of;
use fixedbitset::FixedBitSet;
use std::collections::{HashMap, HashSet};
use vstd::prelude::*;

verus! {

/// `w` may be entered: there is no restriction, or `w` is allowed.
pub open spec fn may_enter(allowed: Option<Set<u64>>, w: u64) -> bool {
    match allowed {
        Some(a) => a.contains(w),
        None => true,
    }
}

/// The allowed ids of an optional restriction.
pub open spec fn allowed_view(allowed: Option<&HashSet<u64>>) -> Option<Set<u64>> {
    match allowed {
        Some(a) => Some(a@),
        None => None,
    }
}

/// `p` follows neighbour links of `m` and visits allowed ids only.
pub open spec fn is_path_in(m: Map<u64, FixedBitSet>, allowed: Option<Set<u64>>, p: Seq<u64>) -> bool {
    &&& is_walk(m, p)
    &&& forall|i: int| 0 <= i < p.len() ==> may_enter(allowed, #[trigger] p[i])
}

/// Such a path leads from `s` to `t`.
pub open spec fn joined(m: Map<u64, FixedBitSet>, allowed: Option<Set<u64>>, s: u64, t: u64) -> bool {
    exists|p: Seq<u64>| #[trigger] is_path_in(m, allowed, p) && p[0] == s && p[p.len() - 1] == t
}

/// Such a path leads to `t` from one of `starts`.
pub open spec fn joined_from(
    m: Map<u64, FixedBitSet>,
    allowed: Option<Set<u64>>,
    starts: Seq<u64>,
    t: u64,
) -> bool {
    exists|s: u64| starts.contains(s) && #[trigger] joined(m, allowed, s, t)
}

/// Every neighbour link of `m` is matched by one back.
pub open spec fn symmetric(m: Map<u64, FixedBitSet>) -> bool {
    forall|u: u64, w: u64| #[trigger] adjacent(m, u, w) ==> adjacent(m, w, u)
}

/// A map from ids to cluster numbers is the clustering of `m` from
/// `starts` within `allowed`: it holds exactly the ids reached from a
/// start, numbers them below the count of starts, gives one number only to
/// ids reached from one common start, and, when every link of `m` is
/// matched by one back, gives one number exactly to ids joined by a path.
pub open spec fn clustering(
    m: Map<u64, FixedBitSet>,
    allowed: Option<Set<u64>>,
    starts: Seq<u64>,
    r: Map<u64, usize>,
) -> bool {
    &&& forall|w: u64| #[trigger] r.contains_key(w) <==> joined_from(m, allowed, starts, w)
    &&& forall|w: u64| #[trigger] r.contains_key(w) ==> r[w] < starts.len()
    &&& forall|a: u64, b: u64|
        #![trigger r[a], r[b]]
        r.contains_key(a) && r.contains_key(b) && r[a] == r[b] ==> exists|s: u64|
            starts.contains(s) && #[trigger] joined(m, allowed, s, a) && joined(m, allowed, s, b)
    &&& symmetric(m) ==> forall|a: u64, b: u64|
        #![trigger r[a], r[b]]
        #![trigger joined(m, allowed, a, b)]
        r.contains_key(a) && r.contains_key(b) ==> (r[a] == r[b] <==> joined(m, allowed, a, b))
}

/// An allowed id joins itself.
proof fn lemma_joined_refl(m: Map<u64, FixedBitSet>, allowed: Option<Set<u64>>, s: u64)
    requires
        may_enter(allowed, s),
    ensures
        joined(m, allowed, s, s),
{
    let p = seq![s];
    assert(is_path_in(m, allowed, p));
}

/// A path extends by one allowed neighbour.
proof fn lemma_joined_step(
    m: Map<u64, FixedBitSet>,
    allowed: Option<Set<u64>>,
    s: u64,
    u: u64,
    w: u64,
)
    requires
        joined(m, allowed, s, u),
        adjacent(m, u, w),
        may_enter(allowed, w),
    ensures
        joined(m, allowed, s, w),
{
    let p = choose|p: Seq<u64>| #[trigger] is_path_in(m, allowed, p) && p[0] == s && p[p.len() - 1] == u;
    let q = p.push(w);
    assert forall|i: int| 0 <= i < q.len() - 1 implies adjacent(m, #[trigger] q[i], q[i + 1]) by {
        if i < p.len() - 1 {
            assert(q[i] == p[i] && q[i + 1] == p[i + 1]);
        } else {
            assert(q[i] == u && q[i + 1] == w);
        }
    }
    assert forall|i: int| 0 <= i < q.len() implies may_enter(allowed, #[trigger] q[i]) by {
        if i < p.len() {
            assert(q[i] == p[i]);
        }
    }
    assert(is_path_in(m, allowed, q));
}

/// A path read backwards, when every link is matched by one back.
proof fn lemma_joined_reverse(m: Map<u64, FixedBitSet>, allowed: Option<Set<u64>>, s: u64, t: u64)
    requires
        joined(m, allowed, s, t),
        symmetric(m),
    ensures
        joined(m, allowed, t, s),
{
    let p = choose|p: Seq<u64>| #[trigger] is_path_in(m, allowed, p) && p[0] == s && p[p.len() - 1] == t;
    let q = p.reverse();
    assert forall|i: int| 0 <= i < q.len() - 1 implies adjacent(m, #[trigger] q[i], q[i + 1]) by {
        let k = p.len() - 2 - i;
        assert(q[i] == p[k + 1] && q[i + 1] == p[k]);
        assert(adjacent(m, p[k], p[k + 1]));
    }
    assert forall|i: int| 0 <= i < q.len() implies may_enter(allowed, #[trigger] q[i]) by {
        assert(q[i] == p[p.len() - 1 - i]);
    }
    assert(is_path_in(m, allowed, q));
}

/// Two paths end to end.
proof fn lemma_joined_concat(
    m: Map<u64, FixedBitSet>,
    allowed: Option<Set<u64>>,
    a: u64,
    b: u64,
    c: u64,
)
    requires
        joined(m, allowed, a, b),
        joined(m, allowed, b, c),
    ensures
        joined(m, allowed, a, c),
{
    let p = choose|p: Seq<u64>| #[trigger] is_path_in(m, allowed, p) && p[0] == a && p[p.len() - 1] == b;
    let q = choose|q: Seq<u64>| #[trigger] is_path_in(m, allowed, q) && q[0] == b && q[q.len() - 1] == c;
    let r = p + q.drop_first();
    assert forall|i: int| 0 <= i < r.len() - 1 implies adjacent(m, #[trigger] r[i], r[i + 1]) by {
        if i < p.len() - 1 {
            assert(r[i] == p[i] && r[i + 1] == p[i + 1]);
        } else if i == p.len() - 1 {
            assert(r[i] == q[0] && r[i + 1] == q[1]);
        } else {
            let k = i - p.len() + 1;
            assert(r[i] == q[k] && r[i + 1] == q[k + 1]);
        }
    }
    assert forall|i: int| 0 <= i < r.len() implies may_enter(allowed, #[trigger] r[i]) by {
        if i >= p.len() {
            assert(r[i] == q[i - p.len() + 1]);
        }
    }
    if q.len() == 1 {
        assert(r =~= p);
    }
    assert(is_path_in(m, allowed, r));
}

/// The neighbour ids of every vertex of `inter`, and a finite set holding
/// all of them.
fn neighbour_lists(inter: &HashMap<u64, FixedBitSet>) -> (r: (HashMap<u64, Vec<u64>>, Ghost<Set<u64>>))
    ensures
        r.0@.dom() == inter@.dom(),
        forall|u: u64, w: u64|
            #![trigger adjacent(inter@, u, w)]
            r.0@.contains_key(u) ==> (r.0@[u]@.contains(w) <==> adjacent(inter@, u, w)),
        r.1@.finite(),
        forall|u: u64, w: u64| #[trigger] adjacent(inter@, u, w) ==> r.1@.contains(w),
{
    let ghost m = inter@;
    let keys = keys_of(inter);
    let mut lists: HashMap<u64, Vec<u64>> = HashMap::new();
    let ghost mut uni: Set<u64> = Set::empty();
    let mut i: usize = 0;
    while i < keys.len()
        invariant
            m == inter@,
            keys@.to_set() == m.dom(),
            keys@.no_duplicates(),
            i <= keys@.len(),
            lists@.dom() == keys@.take(i as int).to_set(),
            uni.finite(),
            forall|u: u64, w: u64|
                #![trigger adjacent(m, u, w)]
                lists@.contains_key(u) ==> (lists@[u]@.contains(w) <==> adjacent(m, u, w)),
            forall|u: u64, w: u64| lists@.contains_key(u) && #[trigger] adjacent(m, u, w) ==> uni.contains(w),
        decreases keys@.len() - i,
    {
        let u = keys[i];
        proof {
            assert(keys@.to_set().contains(u));
        }
        let items: Vec<usize> = match inter.get(&u) {
            Some(b) => bitset_ones(b),
            None => Vec::new(),
        };
        let mut ids: Vec<u64> = Vec::new();
        let mut k: usize = 0;
        while k < items.len()
            invariant
                k <= items@.len(),
                ids@.len() == k,
                forall|t: int| 0 <= t < k ==> #[trigger] ids@[t] == items@[t] as u64,
            decreases items@.len() - k,
        {
            ids.push(items[k] as u64);
            k = k + 1;
        }
        proof {
            assert forall|w: u64| #[trigger] ids@.contains(w) <==> adjacent(m, u, w) by {
                if ids@.contains(w) {
                    let t = choose|t: int| 0 <= t < ids@.len() && ids@[t] == w;
                    assert(items@.to_set().contains(items@[t]));
                    assert(bits_of(m[u]).contains(items@[t]));
                }
                if adjacent(m, u, w) {
                    let b = choose|b: usize| #[trigger] bits_of(m[u]).contains(b) && b as u64 == w;
                    assert(items@.to_set().contains(b));
                    let t = choose|t: int| 0 <= t < items@.len() && items@[t] == b;
                    assert(ids@[t] == w);
                }
            }
            uni = uni + ids@.to_set();
            assert(keys@.take(i + 1) == keys@.take(i as int).push(u));
            assert(!keys@.take(i as int).contains(u)) by {
                if keys@.take(i as int).contains(u) {
                    let t = choose|t: int| 0 <= t < i && keys@.take(i as int)[t] == u;
                    assert(keys@[t] == keys@[i as int]);
                }
            }
        }
        lists.insert(u, ids);
        proof {
            let t1 = keys@.take(i + 1);
            assert forall|x: u64| #[trigger] t1.to_set().contains(x) <==> lists@.dom().contains(x) by {
                if t1.to_set().contains(x) {
                    let t = choose|t: int| 0 <= t < t1.len() && t1[t] == x;
                    if t < i {
                        assert(keys@.take(i as int)[t] == x);
                        assert(keys@.take(i as int).to_set().contains(x));
                    }
                }
                if lists@.dom().contains(x) && x != u {
                    assert(keys@.take(i as int).to_set().contains(x));
                    let t = choose|t: int| 0 <= t < i && keys@.take(i as int)[t] == x;
                    assert(t1[t] == x);
                }
                if x == u {
                    assert(t1[i as int] == u);
                }
            }
            assert(lists@.dom() =~= keys@.take(i + 1).to_set());
        }
        i = i + 1;
    }
    proof {
        assert(keys@.take(keys@.len() as int) == keys@);
        assert forall|u: u64, w: u64| #[trigger] adjacent(m, u, w) implies uni.contains(w) by {
            assert(lists@.contains_key(u));
        }
    }
    (lists, Ghost(uni))
}

/// Every allowed neighbour of `u` is visited and, when every link is
/// matched by one back, carries the number of `u`.
pub open spec fn closed_at(
    m: Map<u64, FixedBitSet>,
    allowed: Option<Set<u64>>,
    vis: Set<u64>,
    lab: Map<u64, usize>,
    u: u64,
) -> bool {
    forall|w: u64|
        #[trigger] adjacent(m, u, w) && may_enter(allowed, w) ==> vis.contains(w) && (symmetric(m)
            ==> lab[w] == lab[u])
}

/// Visiting a new id keeps an id closed.
proof fn lemma_closed_insert(
    m: Map<u64, FixedBitSet>,
    allowed: Option<Set<u64>>,
    vis: Set<u64>,
    lab: Map<u64, usize>,
    x: u64,
    w: u64,
    c: usize,
)
    requires
        closed_at(m, allowed, vis, lab, x),
        vis.contains(x),
        !vis.contains(w),
    ensures
        closed_at(m, allowed, vis.insert(w), lab.insert(w, c), x),
{
    assert forall|y: u64| #[trigger] adjacent(m, x, y) && may_enter(allowed, y) implies vis.insert(w).contains(y)
        && (symmetric(m) ==> lab.insert(w, c)[y] == lab.insert(w, c)[x]) by {
        assert(vis.contains(y));
    }
}

/// Along a path from a visited id through closed ids, every id is visited
/// and, for a symmetric graph, carries the number of the start.
proof fn lemma_closed_prefix(
    m: Map<u64, FixedBitSet>,
    allowed: Option<Set<u64>>,
    vis: Set<u64>,
    lab: Map<u64, usize>,
    p: Seq<u64>,
    k: int,
)
    requires
        is_path_in(m, allowed, p),
        vis.contains(p[0]),
        0 <= k < p.len(),
        forall|u: u64| #[trigger] vis.contains(u) ==> closed_at(m, allowed, vis, lab, u),
    ensures
        vis.contains(p[k]),
        symmetric(m) ==> lab[p[k]] == lab[p[0]],
    decreases k,
{
    if k > 0 {
        lemma_closed_prefix(m, allowed, vis, lab, p, k - 1);
        assert(adjacent(m, p[k - 1], p[k - 1 + 1]));
        assert(may_enter(allowed, p[k]));
        assert(closed_at(m, allowed, vis, lab, p[k - 1]));
    }
}

/// What a path joins to a visited id is visited, with the same number for
/// a symmetric graph.
proof fn lemma_closed_reach(
    m: Map<u64, FixedBitSet>,
    allowed: Option<Set<u64>>,
    vis: Set<u64>,
    lab: Map<u64, usize>,
    s: u64,
    t: u64,
)
    requires
        vis.contains(s),
        joined(m, allowed, s, t),
        forall|u: u64| #[trigger] vis.contains(u) ==> closed_at(m, allowed, vis, lab, u),
    ensures
        vis.contains(t),
        symmetric(m) ==> lab[t] == lab[s],
{
    let p = choose|p: Seq<u64>| #[trigger] is_path_in(m, allowed, p) && p[0] == s && p[p.len() - 1] == t;
    lemma_closed_prefix(m, allowed, vis, lab, p, p.len() - 1);
}

/// Numbers the clusters of `inter` reached from `starts` within `allowed`
/// (all ids when `None`) by depth-first search, in the order of `starts`.
fn label_clusters(
    inter: &HashMap<u64, FixedBitSet>,
    starts: &Vec<u64>,
    allowed: Option<&HashSet<u64>>,
) -> (r: HashMap<u64, usize>)
    requires
        forall|k: int| 0 <= k < starts@.len() ==> may_enter(allowed_view(allowed), #[trigger] starts@[k]),
    ensures
        clustering(inter@, allowed_view(allowed), starts@, r@),
{
    let ghost m = inter@;
    let ghost al = allowed_view(allowed);
    let (lists, Ghost(nb)) = neighbour_lists(inter);
    let ghost uni = nb + starts@.to_set();
    proof {
        vstd::seq_lib::seq_to_set_is_finite(starts@);
        assert forall|k: int| 0 <= k < starts@.len() implies uni.contains(#[trigger] starts@[k]) by {
            assert(starts@.to_set().contains(starts@[k]));
        }
    }
    let mut visited: HashSet<u64> = HashSet::new();
    let mut clusters: HashMap<u64, usize> = HashMap::new();
    let mut c: usize = 0;
    let ghost mut roots: Seq<u64> = Seq::empty();
    let mut i: usize = 0;
    proof {
        assert(clusters@.dom() =~= visited@);
    }
    while i < starts.len()
        invariant
            m == inter@,
            al == allowed_view(allowed),
            lists@.dom() == m.dom(),
            forall|u: u64, w: u64|
                #![trigger adjacent(m, u, w)]
                lists@.contains_key(u) ==> (lists@[u]@.contains(w) <==> adjacent(m, u, w)),
            uni.finite(),
            forall|u: u64, w: u64| #[trigger] adjacent(m, u, w) ==> uni.contains(w),
            forall|k: int| 0 <= k < starts@.len() ==> uni.contains(#[trigger] starts@[k]),
            forall|k: int| 0 <= k < starts@.len() ==> may_enter(al, #[trigger] starts@[k]),
            i <= starts@.len(),
            c <= i,
            roots.len() == c,
            forall|l: int| 0 <= l < c ==> starts@.contains(#[trigger] roots[l]),
            clusters@.dom() == visited@,
            visited@.subset_of(uni),
            forall|w: u64| #[trigger]
                visited@.contains(w) ==> may_enter(al, w) && clusters@[w] < c && joined(
                    m,
                    al,
                    roots[clusters@[w] as int],
                    w,
                ),
            forall|w: u64| #[trigger] visited@.contains(w) ==> closed_at(m, al, visited@, clusters@, w),
            forall|k: int| 0 <= k < i ==> visited@.contains(#[trigger] starts@[k]),
        decreases starts@.len() - i,
    {
        let s = starts[i];
        if !visited.contains(&s) {
            let ghost vis0 = visited@;
            let ghost lab0 = clusters@;
            visited.insert(s);
            clusters.insert(s, c);
            proof {
                roots = roots.push(s);
                lemma_joined_refl(m, al, s);
                assert(starts@.contains(s));
                assert forall|x: u64| #[trigger]
                    visited@.contains(x) && !seq![s].contains(x) implies closed_at(m, al, visited@, clusters@, x) by {
                    assert(x != s) by {
                        assert(seq![s][0] == s);
                    }
                    assert(vis0.contains(x));
                    lemma_closed_insert(m, al, vis0, lab0, x, s, c);
                }
                assert(clusters@.dom() =~= visited@);
            }
            let mut stack: Vec<u64> = Vec::new();
            stack.push(s);
            proof {
                assert(stack@ == seq![s]);
            }
            while stack.len() > 0
                invariant
                    m == inter@,
                    al == allowed_view(allowed),
                    lists@.dom() == m.dom(),
                    forall|u: u64, w: u64|
                        #![trigger adjacent(m, u, w)]
                        lists@.contains_key(u) ==> (lists@[u]@.contains(w) <==> adjacent(m, u, w)),
                    uni.finite(),
                    forall|u: u64, w: u64| #[trigger] adjacent(m, u, w) ==> uni.contains(w),
                    i < starts@.len(),
                    c <= i,
                    roots.len() == c + 1,
                    forall|l: int| 0 <= l < c + 1 ==> starts@.contains(#[trigger] roots[l]),
                    clusters@.dom() == visited@,
                    visited@.subset_of(uni),
                    forall|w: u64| #[trigger]
                        visited@.contains(w) ==> may_enter(al, w) && clusters@[w] <= c && joined(
                            m,
                            al,
                            roots[clusters@[w] as int],
                            w,
                        ),
                    forall|t: int|
                        0 <= t < stack@.len() ==> visited@.contains(#[trigger] stack@[t]) && clusters@[stack@[t]]
                            == c,
                    stack@.no_duplicates(),
                    forall|w: u64| #[trigger]
                        visited@.contains(w) && !stack@.contains(w) ==> closed_at(m, al, visited@, clusters@, w),
                    forall|k: int| 0 <= k < i ==> visited@.contains(#[trigger] starts@[k]),
                    visited@.contains(s),
                    s == starts@[i as int],
                decreases 2 * (uni.len() - visited@.len()) + stack@.len(),
            {
                proof {
                    vstd::set_lib::lemma_len_subset(visited@, uni);
                }
                let ghost measure0 = 2 * (uni.len() - visited@.len()) + stack@.len();
                let ghost st0 = stack@;
                let u = stack.pop().unwrap();
                proof {
                    assert(u == st0[st0.len() - 1]);
                    assert(stack@ == st0.drop_last());
                    assert(visited@.contains(u) && clusters@[u] == c);
                    assert(!stack@.contains(u)) by {
                        if stack@.contains(u) {
                            let t = choose|t: int| 0 <= t < stack@.len() && stack@[t] == u;
                            assert(st0[t] == st0[st0.len() - 1]);
                        }
                    }
                    assert forall|t: int| 0 <= t < stack@.len() implies visited@.contains(#[trigger] stack@[t])
                        && clusters@[stack@[t]] == c by {
                        assert(stack@[t] == st0[t]);
                    }
                    assert forall|w: u64| #[trigger]
                        visited@.contains(w) && !stack@.contains(w) && w != u implies closed_at(
                        m,
                        al,
                        visited@,
                        clusters@,
                        w,
                    ) by {
                        if st0.contains(w) {
                            let t = choose|t: int| 0 <= t < st0.len() && st0[t] == w;
                            if t < st0.len() - 1 {
                                assert(stack@[t] == w);
                            }
                        }
                    }
                }
                match lists.get(&u) {
                    Some(ns) => {
                        let mut k: usize = 0;
                        while k < ns.len()
                            invariant
                                m == inter@,
                                al == allowed_view(allowed),
                                lists@.dom() == m.dom(),
                                forall|u: u64, w: u64|
                                    #![trigger adjacent(m, u, w)]
                                    lists@.contains_key(u) ==> (lists@[u]@.contains(w) <==> adjacent(m, u, w)),
                                uni.finite(),
                                forall|u: u64, w: u64| #[trigger] adjacent(m, u, w) ==> uni.contains(w),
                                lists@.contains_key(u),
                                ns@ == lists@[u]@,
                                k <= ns@.len(),
                                c <= i,
                                i < starts@.len(),
                                roots.len() == c + 1,
                                clusters@.dom() == visited@,
                                visited@.subset_of(uni),
                                visited@.contains(u),
                                clusters@[u] == c,
                                !stack@.contains(u),
                                forall|w: u64| #[trigger]
                                    visited@.contains(w) ==> may_enter(al, w) && clusters@[w] <= c && joined(
                                        m,
                                        al,
                                        roots[clusters@[w] as int],
                                        w,
                                    ),
                                forall|t: int|
                                    0 <= t < stack@.len() ==> visited@.contains(#[trigger] stack@[t])
                                        && clusters@[stack@[t]] == c,
                                stack@.no_duplicates(),
                                forall|w: u64| #[trigger]
                                    visited@.contains(w) && !stack@.contains(w) && w != u ==> closed_at(
                                        m,
                                        al,
                                        visited@,
                                        clusters@,
                                        w,
                                    ),
                                forall|t: int|
                                    0 <= t < k && may_enter(al, #[trigger] ns@[t]) ==> visited@.contains(ns@[t])
                                        && (symmetric(m) ==> clusters@[ns@[t]] == c),
                                2 * (uni.len() - visited@.len()) + stack@.len() < measure0,
                                forall|k: int| 0 <= k < i ==> visited@.contains(#[trigger] starts@[k]),
                                visited@.contains(s),
                            decreases ns@.len() - k,
                        {
                            let w = ns[k];
                            let enter = match allowed {
                                Some(a) => a.contains(&w),
                                None => true,
                            };
                            proof {
                                assert(enter == may_enter(al, w));
                                assert(lists@[u]@.contains(w));
                                assert(adjacent(m, u, w));
                            }
                            if enter && !visited.contains(&w) {
                                let ghost vis1 = visited@;
                                let ghost lab1 = clusters@;
                                let ghost stk1 = stack@;
                                proof {
                                    lemma_joined_step(m, al, roots[c as int], u, w);
                                    vstd::set_lib::lemma_len_subset(vis1, uni);
                                }
                                visited.insert(w);
                                clusters.insert(w, c);
                                stack.push(w);
                                proof {
                                    assert(clusters@.dom() =~= visited@);
                                    assert(!stk1.contains(w)) by {
                                        if stk1.contains(w) {
                                            let t = choose|t: int| 0 <= t < stk1.len() && stk1[t] == w;
                                        }
                                    }
                                    assert forall|t: int| 0 <= t < stack@.len() implies visited@.contains(
                                        #[trigger] stack@[t],
                                    ) && clusters@[stack@[t]] == c by {
                                        if t < stk1.len() {
                                            assert(stack@[t] == stk1[t]);
                                        }
                                    }
                                    assert forall|x: u64| #[trigger]
                                        visited@.contains(x) && !stack@.contains(x) && x != u implies closed_at(
                                        m,
                                        al,
                                        visited@,
                                        clusters@,
                                        x,
                                    ) by {
                                        assert(x != w) by {
                                            assert(stack@[stk1.len() as int] == w);
                                        }
                                        assert(!stk1.contains(x)) by {
                                            if stk1.contains(x) {
                                                let t = choose|t: int| 0 <= t < stk1.len() && stk1[t] == x;
                                                assert(stack@[t] == x);
                                            }
                                        }
                                        lemma_closed_insert(m, al, vis1, lab1, x, w, c);
                                    }
                                    assert forall|x: u64| #[trigger]
                                        visited@.contains(x) implies may_enter(al, x) && clusters@[x] <= c
                                        && joined(m, al, roots[clusters@[x] as int], x) by {
                                        if x != w {
                                            assert(vis1.contains(x));
                                        }
                                    }
                                    assert(stack@.no_duplicates()) by {
                                        assert forall|a: int, b: int|
                                            0 <= a < b < stack@.len() implies stack@[a] != stack@[b] by {
                                            if b < stk1.len() {
                                                assert(stack@[a] == stk1[a] && stack@[b] == stk1[b]);
                                            } else {
                                                assert(stack@[a] == stk1[a]);
                                                assert(stk1.contains(stk1[a]));
                                            }
                                        }
                                    }
                                }
                            } else {
                                proof {
                                    if enter && symmetric(m) {
                                        if w != u && !stack@.contains(w) {
                                            assert(closed_at(m, al, visited@, clusters@, w));
                                            assert(adjacent(m, w, u));
                                        }
                                        if stack@.contains(w) {
                                            let t = choose|t: int| 0 <= t < stack@.len() && stack@[t] == w;
                                            assert(clusters@[stack@[t]] == c);
                                        }
                                    }
                                }
                            }
                            k = k + 1;
                        }
                        proof {
                            assert forall|w: u64| #[trigger]
                                adjacent(m, u, w) && may_enter(al, w) implies visited@.contains(w) && (
                                symmetric(m) ==> clusters@[w] == clusters@[u]) by {
                                assert(ns@.contains(w));
                                let t = choose|t: int| 0 <= t < ns@.len() && ns@[t] == w;
                                assert(may_enter(al, ns@[t]));
                            }
                            assert(closed_at(m, al, visited@, clusters@, u));
                        }
                    },
                    None => {
                        proof {
                            assert(!m.contains_key(u));
                            assert(closed_at(m, al, visited@, clusters@, u));
                        }
                    },
                }
                proof {
                    assert forall|w: u64| #[trigger]
                        visited@.contains(w) && !stack@.contains(w) implies closed_at(
                        m,
                        al,
                        visited@,
                        clusters@,
                        w,
                    ) by {
                        if w == u {
                            assert(closed_at(m, al, visited@, clusters@, u));
                        }
                    }
                    vstd::set_lib::lemma_len_subset(visited@, uni);
                }
            }
            proof {
                assert forall|w: u64| #[trigger] visited@.contains(w) implies closed_at(
                    m,
                    al,
                    visited@,
                    clusters@,
                    w,
                ) by {
                    assert(!stack@.contains(w));
                }
            }
            c = c + 1;
        }
        i = i + 1;
    }
    proof {
        let r = clusters@;
        assert forall|w: u64| #[trigger] r.contains_key(w) <==> joined_from(m, al, starts@, w) by {
            if r.contains_key(w) {
                let l = r[w] as int;
                assert(starts@.contains(roots[l]));
                assert(joined(m, al, roots[l], w));
            }
            if joined_from(m, al, starts@, w) {
                let s0 = choose|s0: u64| starts@.contains(s0) && #[trigger] joined(m, al, s0, w);
                let k = choose|k: int| 0 <= k < starts@.len() && starts@[k] == s0;
                assert(visited@.contains(starts@[k]));
                lemma_closed_reach(m, al, visited@, clusters@, s0, w);
            }
        }
        assert forall|a: u64, b: u64|
            #![trigger r[a], r[b]]
            r.contains_key(a) && r.contains_key(b) && r[a] == r[b] implies exists|s0: u64|
                starts@.contains(s0) && #[trigger] joined(m, al, s0, a) && joined(m, al, s0, b) by {
            let l = r[a] as int;
            assert(visited@.contains(a) && visited@.contains(b));
            assert(starts@.contains(roots[l]));
            assert(joined(m, al, roots[l], a));
        }
        if symmetric(m) {
            assert forall|a: u64, b: u64|
                #![trigger r[a], r[b]]
                #![trigger joined(m, al, a, b)]
                r.contains_key(a) && r.contains_key(b) implies (r[a] == r[b] <==> joined(m, al, a, b)) by {
                assert(visited@.contains(a) && visited@.contains(b));
                if r[a] == r[b] {
                    let l = r[a] as int;
                    assert(joined(m, al, roots[l], a));
                    assert(joined(m, al, roots[l], b));
                    lemma_joined_reverse(m, al, roots[l], a);
                    lemma_joined_concat(m, al, a, roots[l], b);
                }
                if joined(m, al, a, b) {
                    lemma_closed_reach(m, al, visited@, clusters@, a, b);
                }
            }
        }
        assert(clustering(m, al, starts@, r));
    }
    clusters
}

/// The topological clusters of the interaction graph: every id reached
/// from a vertex of `inter` gets the number of its cluster, the clusters
/// numbered in the order their first vertex comes up among the keys.
pub fn topo_clusters(inter: &HashMap<u64, FixedBitSet>) -> (r: HashMap<u64, usize>)
    ensures
        exists|ks: Seq<u64>|
            ks.to_set() == inter@.dom() && ks.len() == inter@.dom().len() && #[trigger] clustering(
                inter@,
                None,
                ks,
                r@,
            ),
{
    let ks = keys_of(inter);
    let r = label_clusters(inter, &ks, None);
    proof {
        assert(allowed_view(None) == None::<Set<u64>>);
    }
    r
}

/// The clusters of the ids in `support` (the vertices whose memory field is
/// above threshold), linked only through ids of `support`.
pub fn xi_clusters(inter: &HashMap<u64, FixedBitSet>, support: &HashSet<u64>) -> (r: HashMap<u64, usize>)
    ensures
        exists|ks: Seq<u64>|
            ks.to_set() == support@ && ks.len() == support@.len() && #[trigger] clustering(
                inter@,
                Some(support@),
                ks,
                r@,
            ),
{
    let ks = crate::listops::set_items(support);
    proof {
        assert forall|k: int| 0 <= k < ks@.len() implies may_enter(allowed_view(Some(support)), #[trigger] ks@[k]) by {
            assert(ks@.to_set().contains(ks@[k]));
        }
    }
    label_clusters(inter, &ks, Some(support))
}

/// Id `v` carries number `c` in `labels`.
pub open spec fn has_label(labels: Map<u64, usize>, c: usize) -> spec_fn(u64) -> bool {
    |v: u64| labels.contains_key(v) && labels[v] == c
}

/// The ids of `members` that carry a number in `labels`, grouped by that
/// number, each group in the order of `members`.
pub fn group_by_label(labels: &HashMap<u64, usize>, members: &Vec<u64>) -> (r: HashMap<usize, Vec<u64>>)
    ensures
        forall|c: usize| #[trigger]
            r@.contains_key(c) <==> exists|k: int|
                0 <= k < members@.len() && #[trigger] has_label(labels@, c)(members@[k]),
        forall|c: usize| #[trigger]
            r@.contains_key(c) ==> r@[c]@ == members@.filter(has_label(labels@, c)),
{
    let mut r: HashMap<usize, Vec<u64>> = HashMap::new();
    let mut i: usize = 0;
    while i < members.len()
        invariant
            i <= members@.len(),
            forall|c: usize| #[trigger]
                r@.contains_key(c) <==> exists|k: int|
                    0 <= k < i && #[trigger] has_label(labels@, c)(members@[k]),
            forall|c: usize| #[trigger]
                r@.contains_key(c) ==> r@[c]@ == members@.take(i as int).filter(has_label(labels@, c)),
        decreases members@.len() - i,
    {
        let v = members[i];
        let ghost r0 = r@;
        proof {
            assert(members@.take(i + 1) == members@.take(i as int).push(v));
            assert forall|c: usize| #![auto] true implies members@.take(i + 1).filter(has_label(labels@, c))
                == (if has_label(labels@, c)(v) {
                members@.take(i as int).filter(has_label(labels@, c)).push(v)
            } else {
                members@.take(i as int).filter(has_label(labels@, c))
            }) by {
                members@.take(i as int).lemma_filter_push(v, has_label(labels@, c));
            }
        }
        match labels.get(&v) {
            Some(c) => {
                let c = *c;
                let mut list = match r.remove(&c) {
                    Some(l) => l,
                    None => Vec::new(),
                };
                proof {
                    if !r0.contains_key(c) {
                        let f = members@.take(i as int).filter(has_label(labels@, c));
                        if f.len() > 0 {
                            let x = f[0];
                            assert(f.contains(x));
                            members@.take(i as int).lemma_filter_contains_rev(has_label(labels@, c), x);
                            members@.take(i as int).lemma_filter_pred(has_label(labels@, c), 0);
                            let k = choose|k: int| 0 <= k < i && members@.take(i as int)[k] == x;
                            assert(members@[k] == x);
                        }
                        assert(f =~= Seq::<u64>::empty());
                    }
                }
                list.push(v);
                r.insert(c, list);
                proof {
                    assert forall|d: usize| #[trigger]
                        r@.contains_key(d) <==> exists|k: int|
                            0 <= k < i + 1 && #[trigger] has_label(labels@, d)(members@[k]) by {
                        if d == c {
                            assert(has_label(labels@, d)(members@[i as int]));
                        } else if exists|k: int| 0 <= k < i + 1 && #[trigger] has_label(labels@, d)(members@[k]) {
                            let k = choose|k: int| 0 <= k < i + 1 && #[trigger] has_label(labels@, d)(members@[k]);
                            assert(k != i);
                        }
                    }
                }
            },
            None => {
                proof {
                    assert forall|d: usize| #[trigger]
                        r@.contains_key(d) <==> exists|k: int|
                            0 <= k < i + 1 && #[trigger] has_label(labels@, d)(members@[k]) by {
                        if exists|k: int| 0 <= k < i + 1 && #[trigger] has_label(labels@, d)(members@[k]) {
                            let k = choose|k: int| 0 <= k < i + 1 && #[trigger] has_label(labels@, d)(members@[k]);
                            assert(k != i);
                        }
                    }
                }
            },
        }
        i = i + 1;
    }
    proof {
        assert(members@.take(members@.len() as int) == members@);
    }
    r
}

} // verus!
