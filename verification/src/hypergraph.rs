//! The causal hypergraph: vertices (events) with worldline depth and labels,
//! hyperedges grouping vertices, and for every vertex its causal future and
//! past as bit sets of vertex ids.
use crate::bitset::{
    bits_of, bitset_clone, bitset_contains, bitset_disable, bitset_grow, bitset_insert,
    bitset_len, bitset_ok, bitset_ones, bitset_union_with, bitset_with_capacity, capacity_of,
};
use crate::listops::{
    copy_ids, differs_from, keys_of, lemma_filter_idempotent, lemma_filter_subset, lemma_fresh_at,
    overwrite_entries, vec_contains, vec_position, vec_without,
};
use crate::random::thread_gen_ratio;
use crate::rules::UndoRecord;
use fixedbitset::FixedBitSet;
use std::collections::{HashMap, HashSet};
use vstd::prelude::*;

verus! {

/// Vertex ids, and so bit positions, stay below this bound. A vertex id is a
/// bit position in the causal sets, and bit positions are `usize`, which has
/// 32 bits on some platforms; the capacity of a causal set is rounded up to
/// a power of two, so the largest capacity ever asked for, `2^30`, still
/// fits, with room to spare for the `+ 1` of the id after the last one.
/// Ids come from the counter of each hypergraph, starting at zero.
pub const ID_LIMIT: u64 = 0x4000_0000;

/// The capacity every fresh causal bit set starts with.
pub const INITIAL_BITS: usize = 1024;

/// A single event of the causal network.
#[derive(Clone, Debug)]
pub struct Vertex {
    pub id: u64,
    /// Worldline (causal) depth.
    pub depth: usize,
    /// Topological, charge-like label: +1 or -1.
    pub label: i32,
    pub parents: Vec<u64>,
    pub children: Vec<u64>,
}

/// Every element of `s` is below `bound`.
pub open spec fn ids_below(s: Seq<u64>, bound: u64) -> bool {
    forall|i: int| 0 <= i < s.len() ==> #[trigger] s[i] < bound
}

impl Vertex {
    /// `self` and `other` hold the same values in every field.
    pub open spec fn same_as(self, other: Vertex) -> bool {
        &&& self.id == other.id
        &&& self.depth == other.depth
        &&& self.label == other.label
        &&& self.parents@ == other.parents@
        &&& self.children@ == other.children@
    }

    /// A fresh vertex with id `id`: depth one, no parents or children, and a
    /// label of +1 or -1 drawn with equal chance.
    pub fn new(id: u64) -> (v: Vertex)
        ensures
            v.id == id,
            v.depth == 1,
            v.label == 1 || v.label == -1,
            v.parents@ == Seq::<u64>::empty(),
            v.children@ == Seq::<u64>::empty(),
    {
        let label: i32 = if thread_gen_ratio(1, 2) {
            1
        } else {
            -1
        };
        Vertex { id, depth: 1, label, parents: Vec::new(), children: Vec::new() }
    }

    /// A copy of this vertex.
    pub fn duplicate(&self) -> (r: Vertex)
        ensures
            r.same_as(*self),
    {
        Vertex {
            id: self.id,
            depth: self.depth,
            label: self.label,
            parents: copy_ids(&self.parents),
            children: copy_ids(&self.children),
        }
    }
}

/// A group of vertices.
#[derive(Clone, Debug)]
pub struct Hyperedge {
    pub id: u64,
    pub vertices: Vec<u64>,
}

impl Hyperedge {
    /// `self` and `other` hold the same id and the same vertex list.
    pub open spec fn same_as(self, other: Hyperedge) -> bool {
        &&& self.id == other.id
        &&& self.vertices@ == other.vertices@
    }

    /// A hyperedge with id `id` over `vertices`.
    pub fn new(id: u64, vertices: Vec<u64>) -> (e: Hyperedge)
        ensures
            e.id == id,
            e.vertices@ == vertices@,
    {
        Hyperedge { id, vertices }
    }

    /// A copy of this hyperedge.
    pub fn duplicate(&self) -> (r: Hyperedge)
        ensures
            r.same_as(*self),
    {
        Hyperedge { id: self.id, vertices: copy_ids(&self.vertices) }
    }
}

/// The whole causal network.
#[derive(Clone, Debug)]
pub struct Hypergraph {
    pub vertices: HashMap<u64, Vertex>,
    pub hyperedges: HashMap<u64, Hyperedge>,
    /// For each vertex `u`, the ids in J+(u).
    pub causal_future: HashMap<u64, FixedBitSet>,
    /// For each vertex `u`, the ids in J-(u).
    pub causal_past: HashMap<u64, FixedBitSet>,
    /// For each vertex, the ids of the hyperedges it was listed in.
    pub vertex_to_edges: HashMap<u64, Vec<u64>>,
    /// Ids of the hyperedges, for uniform random selection.
    pub active_edge_ids: Vec<u64>,
    /// The longest worldline recorded by the causal links made so far.
    pub max_depth: usize,
    /// Incremental count of structurally interacting vertex pairs.
    pub total_interactions: usize,
    /// The id the next vertex will receive.
    pub next_vertex_id: u64,
    /// The id the next hyperedge will receive.
    pub next_edge_id: u64,
}

/// The depth of `x`, or one when `x` is not a vertex.
pub open spec fn depth_or_one(vm: Map<u64, Vertex>, x: u64) -> int {
    if vm.contains_key(x) {
        vm[x].depth as int
    } else {
        1
    }
}

/// Every vertex lists only parents and children below `bound`.
pub open spec fn links_below(vm: Map<u64, Vertex>, bound: u64) -> bool {
    forall|k: u64| #[trigger]
        vm.contains_key(k) ==> ids_below(vm[k].parents@, bound) && ids_below(
            vm[k].children@,
            bound,
        )
}

/// Whether `b` is a causal bit set in good order: enabled bits below its
/// capacity, capacity within the id bound.
pub open spec fn causal_set_ok(b: FixedBitSet) -> bool {
    &&& bitset_ok(b)
    &&& capacity_of(b) <= ID_LIMIT as nat
}

/// Every set of `sets` whose key is among `members` gains the bits of
/// `delta` (its capacity raised to at least `max_len`); the others stay.
fn spread_union(sets: &mut HashMap<u64, FixedBitSet>, members: &Vec<usize>, delta: &FixedBitSet, max_len: usize)
    requires
        forall|k: u64| #[trigger]
            old(sets)@.contains_key(k) ==> k < ID_LIMIT && causal_set_ok(old(sets)@[k]),
        causal_set_ok(*delta),
        max_len <= ID_LIMIT,
    ensures
        final(sets)@.dom() == old(sets)@.dom(),
        forall|k: u64| #[trigger]
            final(sets)@.contains_key(k) ==> causal_set_ok(final(sets)@[k]) && bits_of(
                final(sets)@[k],
            ) == (if members@.contains(k as usize) {
                bits_of(old(sets)@[k]).union(bits_of(*delta))
            } else {
                bits_of(old(sets)@[k])
            }),
{
    let mut i: usize = 0;
    while i < members.len()
        invariant
            i <= members@.len(),
            causal_set_ok(*delta),
            max_len <= ID_LIMIT,
            sets@.dom() == old(sets)@.dom(),
            forall|k: u64| #[trigger]
                sets@.contains_key(k) ==> k < ID_LIMIT && causal_set_ok(sets@[k]) && bits_of(sets@[k]) == (
                if members@.take(i as int).contains(k as usize) {
                    bits_of(old(sets)@[k]).union(bits_of(*delta))
                } else {
                    bits_of(old(sets)@[k])
                }),
        decreases members@.len() - i,
    {
        let b = members[i];
        let ghost before = sets@;
        if let Some(mut bs) = sets.remove(&(b as u64)) {
            raise_capacity(&mut bs, max_len);
            bitset_union_with(&mut bs, delta);
            sets.insert(b as u64, bs);
        }
        proof {
            assert(members@.take(i + 1) == members@.take(i as int).push(b));
            assert forall|k: u64| #[trigger] sets@.contains_key(k) implies k < ID_LIMIT && causal_set_ok(
                sets@[k],
            ) && bits_of(sets@[k]) == (if members@.take(i + 1).contains(k as usize) {
                bits_of(old(sets)@[k]).union(bits_of(*delta))
            } else {
                bits_of(old(sets)@[k])
            }) by {
                crate::listops::lemma_push_contains(members@.take(i as int), b, k as usize);
                assert(before.contains_key(k));
                if k == b as u64 {
                    assert(k as usize == b);
                } else {
                    assert(k as usize != b);
                    assert(sets@[k] == before[k]);
                }
            }
        }
        i = i + 1;
    }
    proof {
        assert(members@.take(members@.len() as int) == members@);
    }
}

/// The smallest power of two that is at least `max(required, 1024)`.
fn capacity_for(required: usize) -> (r: usize)
    requires
        required <= ID_LIMIT,
    ensures
        r >= required,
        r >= INITIAL_BITS,
        r <= ID_LIMIT,
{
    let target: usize = if required > INITIAL_BITS {
        required
    } else {
        INITIAL_BITS
    };
    let mut p: usize = 1;
    assert(1usize & 0usize == 0) by (bit_vector);
    while p < target
        invariant
            0 < p <= 0x4000_0000,
            p & ((p - 1) as usize) == 0,
            target <= 0x4000_0000,
        decreases 0x4000_0000 - p,
    {
        assert(p > 0 && p < 0x4000_0000 && p & ((p - 1) as usize) == 0 ==> p * 2 <= 0x4000_0000
            && ((p * 2) as usize) & ((p * 2 - 1) as usize) == 0) by (bit_vector);
        p = p * 2;
    }
    p
}

/// Raises the capacity of `bs` to a power of two of at least `required` when
/// it is below `required`.
pub(crate) fn raise_capacity(bs: &mut FixedBitSet, required: usize)
    requires
        required <= ID_LIMIT,
    ensures
        bits_of(*final(bs)) == bits_of(*old(bs)),
        capacity_of(*final(bs)) >= required as nat,
        capacity_of(*final(bs)) >= capacity_of(*old(bs)),
        capacity_of(*old(bs)) <= ID_LIMIT as nat ==> capacity_of(*final(bs)) <= ID_LIMIT as nat,
{
    ensure_capacity(bs, required)
}

/// Raises the capacity of `bs` to a power of two of at least `required` when
/// it is below `required`.
fn ensure_capacity(bs: &mut FixedBitSet, required: usize)
    requires
        required <= ID_LIMIT,
    ensures
        bits_of(*final(bs)) == bits_of(*old(bs)),
        capacity_of(*final(bs)) >= required as nat,
        capacity_of(*final(bs)) >= capacity_of(*old(bs)),
        capacity_of(*old(bs)) <= ID_LIMIT as nat ==> capacity_of(*final(bs)) <= ID_LIMIT as nat,
{
    if bitset_len(bs) < required {
        let cap = capacity_for(required);
        bitset_grow(bs, cap);
    }
}

/// `new_vm` is `old_vm` after recording the link `u -> v`: the depth of `v`
/// is raised to at least `u_depth + 1`, `u` lists `v` among its children and
/// `v` lists `u` among its parents (each added only when missing).
pub open spec fn link_recorded(
    old_vm: Map<u64, Vertex>,
    new_vm: Map<u64, Vertex>,
    u: u64,
    v: u64,
    u_depth: int,
) -> bool {
    &&& new_vm.dom() == old_vm.dom()
    &&& forall|k: u64| #[trigger]
        new_vm.contains_key(k) ==> {
            &&& new_vm[k].id == old_vm[k].id
            &&& new_vm[k].label == old_vm[k].label
            &&& new_vm[k].depth == (if k == v && old_vm[k].depth < u_depth + 1 {
                u_depth + 1
            } else {
                old_vm[k].depth as int
            })
            &&& new_vm[k].children@ == (if k == u && !old_vm[k].children@.contains(v) {
                old_vm[k].children@.push(v)
            } else {
                old_vm[k].children@
            })
            &&& new_vm[k].parents@ == (if k == v && !old_vm[k].parents@.contains(u) {
                old_vm[k].parents@.push(u)
            } else {
                old_vm[k].parents@
            })
        }
}

/// `m`, raised to the depth of `v` in `vm` when that is larger.
pub open spec fn raised_max(m: usize, vm: Map<u64, Vertex>, v: u64) -> usize {
    if vm.contains_key(v) && vm[v].depth > m {
        vm[v].depth
    } else {
        m
    }
}

/// The predicate "equals `k`".
pub open spec fn equals(k: u64) -> spec_fn(u64) -> bool {
    |x: u64| x == k
}

/// How often `k` occurs in `s`.
pub open spec fn count_of(s: Seq<u64>, k: u64) -> nat {
    s.filter(equals(k)).len()
}

/// `n` copies of `id`.
pub open spec fn repeat_id(id: u64, n: nat) -> Seq<u64> {
    Seq::new(n, |_i: int| id)
}

/// `a - b`, or zero when `b` exceeds `a`.
pub open spec fn saturating_diff(a: nat, b: nat) -> nat {
    if a >= b {
        (a - b) as nat
    } else {
        0
    }
}

/// The order `remove_hyperedge` leaves the active edge list in: the first
/// occurrence of `eid` is swapped out with the last element, then every
/// remaining occurrence is dropped.
pub open spec fn active_after_removal(a: Seq<u64>, eid: u64) -> Seq<u64> {
    if a.contains(eid) {
        let p = choose|p: int| 0 <= p < a.len() && a[p] == eid && forall|q: int| 0 <= q < p ==> a[q] != eid;
        a.update(p, a.last()).drop_last().filter(differs_from(eid))
    } else {
        a.filter(differs_from(eid))
    }
}

/// Which hyperedge ids each vertex lists (`lists`) and which vertices each
/// present hyperedge holds (`edges`): all that structural interaction
/// depends on.
pub struct Incidence {
    pub lists: Map<u64, Seq<u64>>,
    pub edges: Map<u64, Seq<u64>>,
}

impl Incidence {
    /// The hyperedge ids listed for `u`.
    pub open spec fn list(self, u: u64) -> Seq<u64> {
        if self.lists.contains_key(u) {
            self.lists[u]
        } else {
            Seq::empty()
        }
    }

    /// Some present hyperedge listed for `u`, other than `exclude`, holds `v`.
    pub open spec fn shares_except(self, u: u64, v: u64, exclude: Option<u64>) -> bool {
        exists|i: int|
            #![trigger self.list(u)[i]]
            0 <= i < self.list(u).len() && exclude != Some(self.list(u)[i])
                && self.edges.contains_key(self.list(u)[i]) && self.edges[self.list(
                u,
            )[i]].contains(v)
    }

    /// The predicate "shares no hyperedge with `u`".
    pub open spec fn apart_from(self, u: u64) -> spec_fn(u64) -> bool {
        |w: u64| !self.shares_except(u, w, None)
    }

    /// The number of position pairs `i < j` of `vs` whose vertices share no
    /// hyperedge (looked up from the vertex at `i`).
    pub open spec fn lonely_pairs(self, vs: Seq<u64>) -> nat
        decreases vs.len(),
    {
        if vs.len() == 0 {
            0
        } else {
            vs.drop_first().filter(self.apart_from(vs[0])).len() + self.lonely_pairs(
                vs.drop_first(),
            )
        }
    }
}

/// The number of position pairs `i < j` among `n` positions.
pub open spec fn pair_count(n: nat) -> nat
    decreases n,
{
    if n == 0 {
        0
    } else {
        ((n - 1) + pair_count((n - 1) as nat)) as nat
    }
}

/// At most every position pair of `vs` is lonely.
pub proof fn lemma_lonely_pairs_bound(inc: Incidence, vs: Seq<u64>)
    ensures
        inc.lonely_pairs(vs) <= pair_count(vs.len()),
    decreases vs.len(),
{
    if vs.len() > 0 {
        lemma_lonely_pairs_bound(inc, vs.drop_first());
        vs.drop_first().lemma_filter_len(inc.apart_from(vs[0]));
    }
}

/// The incidence left after hyperedge `eid`, over `vs`, is removed: `eid`
/// is gone and dropped from the lists of the vertices in `vs`.
pub open spec fn incidence_without_edge(old: Incidence, eid: u64, vs: Seq<u64>) -> Incidence {
    Incidence {
        lists: Map::new(
            |k: u64| old.lists.contains_key(k),
            |k: u64|
                if vs.contains(k) {
                    old.lists[k].filter(differs_from(eid))
                } else {
                    old.lists[k]
                },
        ),
        edges: old.edges.remove(eid),
    }
}

/// Whether `u` shares a hyperedge with `v` depends only on the list of `u`
/// and the hyperedges.
pub proof fn lemma_shares_local(a: Incidence, b: Incidence, u: u64, v: u64, exclude: Option<u64>)
    requires
        a.list(u) == b.list(u),
        a.edges == b.edges,
    ensures
        a.shares_except(u, v, exclude) == b.shares_except(u, v, exclude),
{
    if a.shares_except(u, v, exclude) {
        let i = choose|i: int|
            #![trigger a.list(u)[i]]
            0 <= i < a.list(u).len() && exclude != Some(a.list(u)[i]) && a.edges.contains_key(
                a.list(u)[i],
            ) && a.edges[a.list(u)[i]].contains(v);
        assert(b.list(u)[i] == a.list(u)[i]);
    }
    if b.shares_except(u, v, exclude) {
        let i = choose|i: int|
            #![trigger b.list(u)[i]]
            0 <= i < b.list(u).len() && exclude != Some(b.list(u)[i]) && b.edges.contains_key(
                b.list(u)[i],
            ) && b.edges[b.list(u)[i]].contains(v);
        assert(a.list(u)[i] == b.list(u)[i]);
    }
}

/// The ids appended to the list of `k` when the hyperedges `ks` of `edges`
/// are restored one after another: each id once per occurrence of `k` in
/// its hyperedge.
pub open spec fn restored_ids(edges: Map<u64, Hyperedge>, ks: Seq<u64>, k: u64) -> Seq<u64>
    decreases ks.len(),
{
    if ks.len() == 0 {
        Seq::empty()
    } else {
        restored_ids(edges, ks.drop_last(), k) + repeat_id(
            ks.last(),
            count_of(edges[ks.last()].vertices@, k),
        )
    }
}

/// Restored ids depend only on the vertex lists of the hyperedges listed.
pub proof fn lemma_restored_same(a: Map<u64, Hyperedge>, b: Map<u64, Hyperedge>, ks: Seq<u64>, k: u64)
    requires
        forall|i: int| 0 <= i < ks.len() ==> (#[trigger] a[ks[i]]).vertices@ == b[ks[i]].vertices@,
    ensures
        restored_ids(a, ks, k) == restored_ids(b, ks, k),
    decreases ks.len(),
{
    if ks.len() > 0 {
        assert(a[ks[ks.len() - 1]].vertices@ == b[ks[ks.len() - 1]].vertices@);
        lemma_restored_same(a, b, ks.drop_last(), k);
    }
}

/// Every hyperedge of `edges` is keyed by its own id, below `bound`.
pub open spec fn edges_fit(edges: Map<u64, Hyperedge>, bound: u64) -> bool {
    forall|e: u64| #[trigger] edges.contains_key(e) ==> e < bound && edges[e].id == e
}

/// Restored ids are ids of the restored hyperedges.
pub proof fn lemma_restored_below(edges: Map<u64, Hyperedge>, ks: Seq<u64>, k: u64, bound: u64)
    requires
        forall|i: int| 0 <= i < ks.len() ==> edges.contains_key(#[trigger] ks[i]),
        forall|e: u64| #[trigger] edges.contains_key(e) ==> e < bound,
    ensures
        ids_below(restored_ids(edges, ks, k), bound),
    decreases ks.len(),
{
    if ks.len() > 0 {
        lemma_restored_below(edges, ks.drop_last(), k, bound);
        let a = restored_ids(edges, ks.drop_last(), k);
        let b = repeat_id(ks.last(), count_of(edges[ks.last()].vertices@, k));
        assert(edges.contains_key(ks[ks.len() - 1]));
        assert forall|i: int| 0 <= i < (a + b).len() implies #[trigger] (a + b)[i] < bound by {
            if i < a.len() {
                assert((a + b)[i] == a[i]);
            } else {
                assert((a + b)[i] == b[i - a.len()]);
            }
        }
    }
}

/// `h` is `g` after `remove_hyperedge` was called on each of `eids` in turn.
pub open spec fn removed_in_order(g: Hypergraph, h: Hypergraph, eids: Seq<u64>) -> bool
    decreases eids.len(),
{
    if eids.len() == 0 {
        g.same_state(h)
    } else {
        exists|mid: Hypergraph, r: Option<Hyperedge>|
            #![trigger mid.edge_removed(h, eids.last(), r)]
            removed_in_order(g, mid, eids.drop_last()) && mid.wf() && mid.edge_removed(
                h,
                eids.last(),
                r,
            )
    }
}

/// `g1` is `g` with the vertices `ids` dropped, together with their causal
/// sets and hyperedge lists; nothing else changes.
pub open spec fn vertices_dropped(g: Hypergraph, g1: Hypergraph, ids: Set<u64>) -> bool {
    &&& g1.vertices@ == g.vertices@.remove_keys(ids)
    &&& g1.causal_future@ == g.causal_future@.remove_keys(ids)
    &&& g1.causal_past@ == g.causal_past@.remove_keys(ids)
    &&& g1.vertex_to_edges@ == g.vertex_to_edges@.remove_keys(ids)
    &&& g1.hyperedges@ == g.hyperedges@
    &&& g1.active_edge_ids@ == g.active_edge_ids@
    &&& g1.max_depth == g.max_depth
    &&& g1.total_interactions == g.total_interactions
    &&& g1.next_vertex_id == g.next_vertex_id
    &&& g1.next_edge_id == g.next_edge_id
}

/// `new` is `base` with the parent list of each vertex whose id `parents`
/// holds, and the child list of each whose id `children` holds, replaced by
/// the recorded one.
pub open spec fn links_restored(
    base: Map<u64, Vertex>,
    new: Map<u64, Vertex>,
    parents: Map<u64, Vec<u64>>,
    children: Map<u64, Vec<u64>>,
) -> bool {
    &&& new.dom() == base.dom()
    &&& forall|k: u64| #[trigger]
        new.contains_key(k) ==> {
            &&& new[k].id == base[k].id
            &&& new[k].depth == base[k].depth
            &&& new[k].label == base[k].label
            &&& new[k].parents@ == (if parents.contains_key(k) {
                parents[k]@
            } else {
                base[k].parents@
            })
            &&& new[k].children@ == (if children.contains_key(k) {
                children[k]@
            } else {
                base[k].children@
            })
        }
}

/// The last steps of an undo, from `g2` (added vertices dropped, added
/// hyperedges removed) to `new`: the removed hyperedges are back (in the
/// order `ks`), the removed vertex is back, the recorded causal sets
/// overwrite the current ones and the recorded parent and child lists are
/// restored.
pub open spec fn undo_restored(g2: Hypergraph, new: Hypergraph, rec: UndoRecord, ks: Seq<u64>) -> bool {
    let rm = rec.removed_edges@;
    let base = match rec.removed_vertex {
        Some(v) => g2.vertices@.insert(v.id, v),
        None => g2.vertices@,
    }.union_prefer_right(rec.old_vertices@);
    &&& ks.no_duplicates()
    &&& ks.to_set() == rm.dom()
    &&& new.hyperedges@ == g2.hyperedges@.union_prefer_right(rm)
    &&& new.active_edge_ids@ == g2.active_edge_ids@ + ks.map_values(|k: u64| rm[k].id)
    &&& forall|k: u64| #[trigger] new.edge_list(k) == g2.edge_list(k) + restored_ids(rm, ks, k)
    &&& forall|k: u64| #[trigger]
        new.vertex_to_edges@.contains_key(k) == (g2.vertex_to_edges@.contains_key(k)
            || restored_ids(rm, ks, k).len() > 0)
    &&& new.causal_future@ == g2.causal_future@.union_prefer_right(rec.old_causal_future@)
    &&& new.causal_past@ == g2.causal_past@.union_prefer_right(rec.old_causal_past@)
    &&& links_restored(base, new.vertices@, rec.old_parents@, rec.old_children@)
    &&& new.total_interactions == (match rec.old_total_interactions {
        Some(t) => t,
        None => g2.total_interactions,
    })
    &&& new.max_depth == (match rec.old_max_depth {
        Some(d) => d,
        None => g2.max_depth,
    })
    &&& new.next_vertex_id == g2.next_vertex_id
    &&& new.next_edge_id == g2.next_edge_id
}

/// `new` is `g` after `execute_undo_record(rec)`: the added vertices are
/// dropped (state `g1`), the added hyperedges removed in order (state `g2`),
/// and the recorded state put back.
pub open spec fn undo_applied(g: Hypergraph, new: Hypergraph, rec: UndoRecord) -> bool {
    exists|g1: Hypergraph, g2: Hypergraph, ks: Seq<u64>|
        #![trigger vertices_dropped(g, g1, rec.added_vertices@.to_set()), removed_in_order(g1, g2, rec.added_edges@), undo_restored(g2, new, rec, ks)]
        vertices_dropped(g, g1, rec.added_vertices@.to_set()) && g1.wf() && removed_in_order(
            g1,
            g2,
            rec.added_edges@,
        ) && g2.wf() && undo_restored(g2, new, rec, ks)
}

impl Hypergraph {
    // ---------- Model ----------

    /// `self` and `other` hold the same contents in every field.
    pub open spec fn same_state(self, other: Hypergraph) -> bool {
        &&& self.vertices@ == other.vertices@
        &&& self.hyperedges@ == other.hyperedges@
        &&& self.causal_future@ == other.causal_future@
        &&& self.causal_past@ == other.causal_past@
        &&& self.vertex_to_edges@ == other.vertex_to_edges@
        &&& self.active_edge_ids@ == other.active_edge_ids@
        &&& self.max_depth == other.max_depth
        &&& self.total_interactions == other.total_interactions
        &&& self.next_vertex_id == other.next_vertex_id
        &&& self.next_edge_id == other.next_edge_id
    }

    /// The causal future of `u` (empty when `u` has no entry).
    pub open spec fn fut(self, u: u64) -> Set<usize> {
        if self.causal_future@.contains_key(u) {
            bits_of(self.causal_future@[u])
        } else {
            Set::empty()
        }
    }

    /// The causal past of `u` (empty when `u` has no entry).
    pub open spec fn past(self, u: u64) -> Set<usize> {
        if self.causal_past@.contains_key(u) {
            bits_of(self.causal_past@[u])
        } else {
            Set::empty()
        }
    }

    /// The hyperedge ids listed for `v` (empty when `v` has no entry).
    pub open spec fn edge_list(self, v: u64) -> Seq<u64> {
        if self.vertex_to_edges@.contains_key(v) {
            self.vertex_to_edges@[v]@
        } else {
            Seq::empty()
        }
    }

    /// Which hyperedges each vertex lists, and which vertices each present
    /// hyperedge holds.
    pub open spec fn incidence(self) -> Incidence {
        Incidence {
            lists: self.vertex_to_edges@.map_values(|l: Vec<u64>| l@),
            edges: self.hyperedges@.map_values(|e: Hyperedge| e.vertices@),
        }
    }

    /// The incidence view agrees with the lists and hyperedges.
    pub proof fn lemma_incidence(self)
        ensures
            forall|u: u64| #[trigger] self.incidence().list(u) == self.edge_list(u),
            forall|e: u64| #[trigger]
                self.incidence().edges.contains_key(e) == self.hyperedges@.contains_key(e),
            forall|e: u64| #[trigger]
                self.hyperedges@.contains_key(e) ==> self.incidence().edges[e]
                    == self.hyperedges@[e].vertices@,
    {
    }

    /// Some hyperedge listed for `u` that is still present, and is not
    /// `exclude`, holds `v`.
    pub open spec fn shares_edge_except(self, u: u64, v: u64, exclude: Option<u64>) -> bool {
        self.incidence().shares_except(u, v, exclude)
    }

    /// `u` and `v` share a hyperedge listed for `u`.
    pub open spec fn shares_edge(self, u: u64, v: u64) -> bool {
        self.shares_edge_except(u, v, None)
    }

    /// The number of position pairs `i < j` of `vs` whose vertices share no
    /// hyperedge (looked up from the vertex at `i`).
    pub open spec fn lonely_pairs(self, vs: Seq<u64>) -> nat {
        self.incidence().lonely_pairs(vs)
    }

    /// The vertices that share a present hyperedge listed for `v`, other
    /// than `v` itself.
    pub open spec fn neighbors(self, v: u64) -> Set<u64> {
        Set::new(|n: u64| n != v && self.shares_edge(v, n))
    }

    pub open spec fn vertex_ok(self, k: u64) -> bool {
        &&& k < self.next_vertex_id
        &&& self.vertices@[k].id == k
        &&& ids_below(self.vertices@[k].parents@, self.next_vertex_id)
        &&& ids_below(self.vertices@[k].children@, self.next_vertex_id)
    }

    pub open spec fn edge_ok(self, k: u64) -> bool {
        &&& k < self.next_edge_id
        &&& self.hyperedges@[k].id == k
    }

    /// Well-formedness: ids below the counters, records keyed by their own id,
    /// causal bit sets in good order.
    pub open spec fn wf(self) -> bool {
        &&& self.next_vertex_id < ID_LIMIT
        &&& self.next_edge_id < u64::MAX
        &&& forall|k: u64| #[trigger] self.vertices@.contains_key(k) ==> self.vertex_ok(k)
        &&& forall|k: u64| #[trigger]
            self.causal_future@.contains_key(k) ==> k < self.next_vertex_id && causal_set_ok(
                self.causal_future@[k],
            )
        &&& forall|k: u64| #[trigger]
            self.causal_past@.contains_key(k) ==> k < self.next_vertex_id && causal_set_ok(
                self.causal_past@[k],
            )
        &&& forall|k: u64| #[trigger] self.hyperedges@.contains_key(k) ==> self.edge_ok(k)
        &&& forall|k: u64| #[trigger]
            self.vertex_to_edges@.contains_key(k) ==> ids_below(
                self.vertex_to_edges@[k]@,
                self.next_edge_id,
            )
        &&& ids_below(self.active_edge_ids@, self.next_edge_id)
    }

    // ---------- Construction ----------

    /// An empty hypergraph.
    pub fn new() -> (h: Hypergraph)
        ensures
            h.wf(),
            h.vertices@ == Map::<u64, Vertex>::empty(),
            h.hyperedges@ == Map::<u64, Hyperedge>::empty(),
            h.causal_future@ == Map::<u64, FixedBitSet>::empty(),
            h.causal_past@ == Map::<u64, FixedBitSet>::empty(),
            h.vertex_to_edges@ == Map::<u64, Vec<u64>>::empty(),
            h.active_edge_ids@ == Seq::<u64>::empty(),
            h.max_depth == 1,
            h.total_interactions == 0,
            h.next_vertex_id == 0,
            h.next_edge_id == 0,
    {
        Hypergraph {
            vertices: HashMap::new(),
            hyperedges: HashMap::new(),
            causal_future: HashMap::new(),
            causal_past: HashMap::new(),
            vertex_to_edges: HashMap::new(),
            active_edge_ids: Vec::new(),
            max_depth: 1,
            total_interactions: 0,
            next_vertex_id: 0,
            next_edge_id: 0,
        }
    }

    fn init_bitset() -> (r: FixedBitSet)
        ensures
            bits_of(r) == Set::<usize>::empty(),
            capacity_of(r) == INITIAL_BITS as nat,
    {
        bitset_with_capacity(INITIAL_BITS)
    }

    /// A causal bit set holding exactly `id`.
    fn singleton_bitset(id: u64) -> (r: FixedBitSet)
        requires
            id < ID_LIMIT,
        ensures
            bits_of(r) == Set::<usize>::empty().insert(id as usize),
            causal_set_ok(r),
    {
        let mut b = Self::init_bitset();
        Self::ensure_room(&mut b, id);
        bitset_insert(&mut b, id as usize);
        b
    }

    fn ensure_room(b: &mut FixedBitSet, id: u64)
        requires
            id < ID_LIMIT,
            capacity_of(*old(b)) <= ID_LIMIT as nat,
        ensures
            bits_of(*final(b)) == bits_of(*old(b)),
            capacity_of(*final(b)) > id as nat,
            capacity_of(*final(b)) <= ID_LIMIT as nat,
    {
        ensure_capacity(b, id as usize + 1);
    }

    // ---------- Vertex operations ----------

    /// Adds a fresh vertex (id `next_vertex_id`) whose causal future and past
    /// each hold exactly itself; returns a copy of it.
    pub fn add_vertex(&mut self) -> (v: Vertex)
        requires
            old(self).wf(),
            old(self).next_vertex_id + 1 < ID_LIMIT,
        ensures
            final(self).wf(),
            v.id == old(self).next_vertex_id,
            v.depth == 1,
            v.label == 1 || v.label == -1,
            v.parents@ == Seq::<u64>::empty(),
            v.children@ == Seq::<u64>::empty(),
            final(self).next_vertex_id == old(self).next_vertex_id + 1,
            final(self).vertices@.dom() == old(self).vertices@.dom().insert(v.id),
            final(self).vertices@[v.id].same_as(v),
            final(self).vertices@.remove(v.id) == old(self).vertices@,
            final(self).causal_future@.remove(v.id) == old(self).causal_future@,
            final(self).causal_past@.remove(v.id) == old(self).causal_past@,
            final(self).fut(v.id) == Set::<usize>::empty().insert(v.id as usize),
            final(self).past(v.id) == Set::<usize>::empty().insert(v.id as usize),
            final(self).hyperedges@ == old(self).hyperedges@,
            final(self).vertex_to_edges@ == old(self).vertex_to_edges@,
            final(self).active_edge_ids@ == old(self).active_edge_ids@,
            final(self).next_edge_id == old(self).next_edge_id,
            final(self).max_depth == old(self).max_depth,
            final(self).total_interactions == old(self).total_interactions,
    {
        let id = self.next_vertex_id;
        self.next_vertex_id = id + 1;
        let v = Vertex::new(id);

        let future = Self::singleton_bitset(id);
        self.causal_future.insert(id, future);

        let past = Self::singleton_bitset(id);
        self.causal_past.insert(id, past);

        let copy = v.duplicate();
        self.vertices.insert(id, v);
        proof {
            assert(!old(self).vertices@.contains_key(id));
            assert(!old(self).causal_future@.contains_key(id));
            assert(!old(self).causal_past@.contains_key(id));
            assert(self.vertices@.remove(id) =~= old(self).vertices@);
            assert(self.causal_future@.remove(id) =~= old(self).causal_future@);
            assert(self.causal_past@.remove(id) =~= old(self).causal_past@);
            assert forall|k: u64| #[trigger] self.vertices@.contains_key(k) implies self.vertex_ok(
                k,
            ) by {
                if k != id {
                    assert(old(self).vertex_ok(k));
                }
            }
        }
        copy
    }

    /// The id the next vertex will receive.
    pub fn max_vertex_id(&self) -> (r: u64)
        ensures
            r == self.next_vertex_id,
    {
        self.next_vertex_id
    }

    // ---------- Causal structure ----------

    /// Whether `v` lies in the causal future of `u`.
    pub fn is_causally_related(&self, u_id: u64, v_id: u64) -> (r: bool)
        requires
            self.wf(),
        ensures
            r == self.fut(u_id).contains(v_id as usize),
    {
        match self.causal_future.get(&u_id) {
            Some(bs) => {
                if (v_id as usize) < bitset_len(bs) {
                    bitset_contains(bs, v_id as usize)
                } else {
                    proof {
                        assert(causal_set_ok(*bs));
                    }
                    false
                }
            },
            None => false,
        }
    }

    /// The effect of `add_causal_relation(u, v)` on the vertices and causal
    /// sets, from `self` to `new`: the link is recorded, every vertex of the
    /// past of `u` (and `u` itself) gains the future of `v`, and every vertex
    /// of the future of `v` (and `v` itself) gains the past of `u`.
    pub open spec fn causal_link_effect(self, new: Hypergraph, u: u64, v: u64) -> bool {
        &&& self.fut(u).contains(v as usize) ==> {
            &&& new.vertices@ == self.vertices@
            &&& new.causal_future@ == self.causal_future@
            &&& new.causal_past@ == self.causal_past@
        }
        &&& !self.fut(u).contains(v as usize) ==> {
            let u_depth = depth_or_one(self.vertices@, u);
            &&& link_recorded(self.vertices@, new.vertices@, u, v, u_depth)
            &&& new.causal_future@.dom() == self.causal_future@.dom()
            &&& new.causal_past@.dom() == self.causal_past@.dom()
            &&& forall|k: u64| #[trigger]
                new.causal_future@.contains_key(k) ==> new.fut(k) == (if k == u || self.past(
                    u,
                ).contains(k as usize) {
                    self.fut(k).union(self.fut(v))
                } else {
                    self.fut(k)
                })
            &&& forall|k: u64| #[trigger]
                new.causal_past@.contains_key(k) ==> new.past(k) == (if k == v || self.fut(
                    v,
                ).contains(k as usize) {
                    self.past(k).union(self.past(u))
                } else {
                    self.past(k)
                })
        }
    }

    /// Adds the causal relation `u -> v` (nothing happens when `v` already
    /// lies in the future of `u`). The depth of `v` is raised past that of
    /// `u` (and the recorded longest worldline with it) and the parent/child
    /// lists record the link. Then the transitive
    /// closure is updated: every vertex of the causal past of `u` gains the
    /// future of `v`, and every vertex of the causal future of `v` gains the
    /// past of `u`.
    pub fn add_causal_relation(&mut self, u_id: u64, v_id: u64)
        requires
            old(self).wf(),
            u_id < old(self).next_vertex_id,
            v_id < old(self).next_vertex_id,
            depth_or_one(old(self).vertices@, u_id) < usize::MAX,
        ensures
            final(self).wf(),
            old(self).causal_link_effect(*final(self), u_id, v_id),
            final(self).hyperedges@ == old(self).hyperedges@,
            final(self).vertex_to_edges@ == old(self).vertex_to_edges@,
            final(self).active_edge_ids@ == old(self).active_edge_ids@,
            final(self).next_vertex_id == old(self).next_vertex_id,
            final(self).next_edge_id == old(self).next_edge_id,
            final(self).max_depth == (if old(self).fut(u_id).contains(v_id as usize) {
                old(self).max_depth
            } else {
                raised_max(old(self).max_depth, final(self).vertices@, v_id)
            }),
            final(self).total_interactions == old(self).total_interactions,
    {
        if self.is_causally_related(u_id, v_id) {
            return;
        }
        let ghost vm0 = self.vertices@;
        // The depth of `v` rises past that of `u`.
        let u_depth: usize = match self.vertices.get(&u_id) {
            Some(u) => u.depth,
            None => 1,
        };
        if let Some(mut v) = self.vertices.remove(&v_id) {
            if v.depth < u_depth + 1 {
                v.depth = u_depth + 1;
            }
            // The longest worldline grows with it.
            if v.depth > self.max_depth {
                self.max_depth = v.depth;
            }
            self.vertices.insert(v_id, v);
        }
        let ghost vm1 = self.vertices@;
        // One-hop adjacency, without duplicate entries.
        if let Some(mut u) = self.vertices.remove(&u_id) {
            if !vec_contains(&u.children, v_id) {
                u.children.push(v_id);
            }
            self.vertices.insert(u_id, u);
        }
        let ghost vm2 = self.vertices@;
        if let Some(mut v) = self.vertices.remove(&v_id) {
            if !vec_contains(&v.parents, u_id) {
                v.parents.push(u_id);
            }
            self.vertices.insert(v_id, v);
        }
        proof {
            assert(self.vertices@.dom() =~= vm0.dom());
            assert forall|k: u64| #[trigger] self.vertices@.contains_key(k) implies {
                &&& self.vertices@[k].id == vm0[k].id
                &&& self.vertices@[k].label == vm0[k].label
                &&& self.vertices@[k].depth == (if k == v_id && vm0[k].depth < u_depth + 1 {
                    u_depth + 1
                } else {
                    vm0[k].depth as int
                })
                &&& self.vertices@[k].children@ == (if k == u_id && !vm0[k].children@.contains(
                    v_id,
                ) {
                    vm0[k].children@.push(v_id)
                } else {
                    vm0[k].children@
                })
                &&& self.vertices@[k].parents@ == (if k == v_id && !vm0[k].parents@.contains(u_id) {
                    vm0[k].parents@.push(u_id)
                } else {
                    vm0[k].parents@
                })
            } by {
                assert(vm1.contains_key(k) && vm2.contains_key(k));
            }
            assert(link_recorded(vm0, self.vertices@, u_id, v_id, u_depth as int));
            assert forall|k: u64| #[trigger] self.vertices@.contains_key(k) implies self.vertex_ok(
                k,
            ) by {
                assert(old(self).vertex_ok(k));
                assert(vm0.contains_key(k));
            }
            assert(links_below(self.vertices@, self.next_vertex_id));
        }
        let mut past_u = match self.causal_past.get(&u_id) {
            Some(b) => bitset_clone(b),
            None => Self::init_bitset(),
        };
        let mut future_v = match self.causal_future.get(&v_id) {
            Some(b) => bitset_clone(b),
            None => Self::init_bitset(),
        };
        proof {
            if old(self).causal_past@.contains_key(u_id) {
                assert(causal_set_ok(old(self).causal_past@[u_id]));
            }
            if old(self).causal_future@.contains_key(v_id) {
                assert(causal_set_ok(old(self).causal_future@[v_id]));
            }
        }
        let max_len = if bitset_len(&past_u) > bitset_len(&future_v) {
            bitset_len(&past_u)
        } else {
            bitset_len(&future_v)
        };
        ensure_capacity(&mut past_u, max_len);
        ensure_capacity(&mut future_v, max_len);
        // The past of `u`, and `u` itself, gain the future of `v`.
        let mut ancestors = bitset_ones(&past_u);
        let ghost anc0 = ancestors@;
        ancestors.push(u_id as usize);
        proof {
            assert forall|k: u64| k < ID_LIMIT implies (#[trigger] ancestors@.contains(k as usize) <==> (k
                == u_id || old(self).past(u_id).contains(k as usize))) by {
                crate::listops::lemma_push_contains(anc0, u_id as usize, k as usize);
                assert(anc0.contains(k as usize) <==> anc0.to_set().contains(k as usize));
            }
        }
        spread_union(&mut self.causal_future, &ancestors, &future_v, max_len);
        // The future of `v`, and `v` itself, gain the past of `u`.
        let mut descendants = bitset_ones(&future_v);
        let ghost desc0 = descendants@;
        descendants.push(v_id as usize);
        proof {
            assert forall|k: u64| k < ID_LIMIT implies (#[trigger] descendants@.contains(k as usize) <==> (k
                == v_id || old(self).fut(v_id).contains(k as usize))) by {
                crate::listops::lemma_push_contains(desc0, v_id as usize, k as usize);
                assert(desc0.contains(k as usize) <==> desc0.to_set().contains(k as usize));
            }
        }
        spread_union(&mut self.causal_past, &descendants, &past_u, max_len);
    }

    /// The effect of `merge_causal_identity(keep, remove)` on the vertices and
    /// causal sets, from `self` to `new`: when `remove` has both a future and
    /// a past, the future and past of `keep` (where present) take in those of
    /// `remove`; nothing else changes.
    pub open spec fn causal_merge_effect(self, new: Hypergraph, keep: u64, remove: u64) -> bool {
        let both = self.causal_future@.contains_key(remove) && self.causal_past@.contains_key(remove);
        &&& new.vertices@ == self.vertices@
        &&& new.causal_future@.dom() == self.causal_future@.dom()
        &&& new.causal_past@.dom() == self.causal_past@.dom()
        &&& forall|k: u64|
            #![trigger new.fut(k)]
            new.fut(k) == (if both && k == keep && self.causal_future@.contains_key(k) {
                self.fut(k).union(self.fut(remove))
            } else {
                self.fut(k)
            })
        &&& forall|k: u64|
            #![trigger new.past(k)]
            new.past(k) == (if both && k == keep && self.causal_past@.contains_key(k) {
                self.past(k).union(self.past(remove))
            } else {
                self.past(k)
            })
    }

    /// Merges the causal history of `id_remove` into that of `id_keep`: when
    /// `id_remove` has both a future and a past, the future of `id_keep` (where
    /// present) gains the future of `id_remove`, and its past the past.
    pub fn merge_causal_identity(&mut self, id_keep: u64, id_remove: u64)
        requires
            old(self).wf(),
        ensures
            final(self).wf(),
            old(self).causal_merge_effect(*final(self), id_keep, id_remove),
            final(self).causal_future@.dom() == old(self).causal_future@.dom(),
            final(self).causal_past@.dom() == old(self).causal_past@.dom(),
            ({
                let both = old(self).causal_future@.contains_key(id_remove)
                    && old(self).causal_past@.contains_key(id_remove);
                &&& forall|k: u64|
                    #![trigger final(self).fut(k)]
                    final(self).fut(k) == (if both && k == id_keep && old(
                        self,
                    ).causal_future@.contains_key(k) {
                        old(self).fut(k).union(old(self).fut(id_remove))
                    } else {
                        old(self).fut(k)
                    })
                &&& forall|k: u64|
                    #![trigger final(self).past(k)]
                    final(self).past(k) == (if both && k == id_keep && old(
                        self,
                    ).causal_past@.contains_key(k) {
                        old(self).past(k).union(old(self).past(id_remove))
                    } else {
                        old(self).past(k)
                    })
            }),
            final(self).vertices@ == old(self).vertices@,
            final(self).hyperedges@ == old(self).hyperedges@,
            final(self).vertex_to_edges@ == old(self).vertex_to_edges@,
            final(self).active_edge_ids@ == old(self).active_edge_ids@,
            final(self).next_vertex_id == old(self).next_vertex_id,
            final(self).next_edge_id == old(self).next_edge_id,
            final(self).max_depth == old(self).max_depth,
            final(self).total_interactions == old(self).total_interactions,
    {
        let f_remove_opt = match self.causal_future.get(&id_remove) {
            Some(b) => Some(bitset_clone(b)),
            None => None,
        };
        let p_remove_opt = match self.causal_past.get(&id_remove) {
            Some(b) => Some(bitset_clone(b)),
            None => None,
        };
        if let (Some(mut f_remove), Some(mut p_remove)) = (f_remove_opt, p_remove_opt) {
            proof {
                assert(causal_set_ok(old(self).causal_future@[id_remove]));
                assert(causal_set_ok(old(self).causal_past@[id_remove]));
            }
            if let Some(mut f_keep) = self.causal_future.remove(&id_keep) {
                proof {
                    assert(causal_set_ok(old(self).causal_future@[id_keep]));
                }
                let max_len = if bitset_len(&f_keep) > bitset_len(&f_remove) {
                    bitset_len(&f_keep)
                } else {
                    bitset_len(&f_remove)
                };
                ensure_capacity(&mut f_keep, max_len);
                ensure_capacity(&mut f_remove, max_len);
                bitset_union_with(&mut f_keep, &f_remove);
                self.causal_future.insert(id_keep, f_keep);
                proof {
                    assert forall|k: u64| #![trigger self.fut(k)] k != id_keep implies self.fut(k)
                        == old(self).fut(k) by {
                        assert(self.causal_future@.contains_key(k) == old(
                            self,
                        ).causal_future@.contains_key(k));
                    }
                    assert(self.fut(id_keep) == old(self).fut(id_keep).union(
                        old(self).fut(id_remove),
                    ));
                }
            }
            if let Some(mut p_keep) = self.causal_past.remove(&id_keep) {
                proof {
                    assert(causal_set_ok(old(self).causal_past@[id_keep]));
                }
                let max_len = if bitset_len(&p_keep) > bitset_len(&p_remove) {
                    bitset_len(&p_keep)
                } else {
                    bitset_len(&p_remove)
                };
                ensure_capacity(&mut p_keep, max_len);
                ensure_capacity(&mut p_remove, max_len);
                bitset_union_with(&mut p_keep, &p_remove);
                self.causal_past.insert(id_keep, p_keep);
                proof {
                    assert forall|k: u64| #![trigger self.past(k)] k != id_keep implies self.past(k)
                        == old(self).past(k) by {
                        assert(self.causal_past@.contains_key(k) == old(
                            self,
                        ).causal_past@.contains_key(k));
                    }
                    assert(self.past(id_keep) == old(self).past(id_keep).union(
                        old(self).past(id_remove),
                    ));
                }
            }
        }
        proof {
            assert(self.causal_future@.dom() =~= old(self).causal_future@.dom());
            assert(self.causal_past@.dom() =~= old(self).causal_past@.dom());
        }
    }

    fn interacting(&self, u_id: u64, v_id: u64, exclude: Option<u64>) -> (r: bool)
        ensures
            r == self.shares_edge_except(u_id, v_id, exclude),
    {
        proof {
            self.lemma_incidence();
        }
        match self.vertex_to_edges.get(&u_id) {
            Some(edges) => {
                let mut i: usize = 0;
                while i < edges.len()
                    invariant
                        edges@ == self.edge_list(u_id),
                        i <= edges@.len(),
                        forall|j: int|
                            #![trigger self.edge_list(u_id)[j]]
                            0 <= j < i ==> !(exclude != Some(self.edge_list(u_id)[j])
                                && self.hyperedges@.contains_key(self.edge_list(u_id)[j])
                                && self.hyperedges@[self.edge_list(u_id)[j]].vertices@.contains(
                                v_id,
                            )),
                    decreases edges@.len() - i,
                {
                    let e_id = edges[i];
                    let skip = match exclude {
                        Some(x) => x == e_id,
                        None => false,
                    };
                    if !skip {
                        match self.hyperedges.get(&e_id) {
                            Some(edge) => {
                                if vec_contains(&edge.vertices, v_id) {
                                    proof {
                                        assert(self.incidence().list(u_id)[i as int] == e_id);
                                        assert(self.incidence().edges[e_id] == edge.vertices@);
                                    }
                                    return true;
                                }
                            },
                            None => {},
                        }
                    }
                    i = i + 1;
                }
                false
            },
            None => false,
        }
    }

    /// Whether `u_id` and `v_id` share a hyperedge (one listed for `u_id`).
    pub fn is_structurally_interacting(&self, u_id: u64, v_id: u64) -> (r: bool)
        ensures
            r == self.shares_edge(u_id, v_id),
    {
        self.interacting(u_id, v_id, None)
    }

    /// Whether `u_id` and `v_id` share a hyperedge listed for `u_id` other
    /// than `exclude_eid`.
    pub fn is_structurally_interacting_excluding(&self, u_id: u64, v_id: u64, exclude_eid: u64) -> (r:
        bool)
        ensures
            r == self.shares_edge_except(u_id, v_id, Some(exclude_eid)),
    {
        self.interacting(u_id, v_id, Some(exclude_eid))
    }

    /// The vertices sharing a present hyperedge listed for `v_id`, other than
    /// `v_id` itself.
    pub fn structural_neighbors(&self, v_id: u64) -> (r: HashSet<u64>)
        ensures
            r@ == self.neighbors(v_id),
    {
        let mut neighbors: HashSet<u64> = HashSet::new();
        match self.vertex_to_edges.get(&v_id) {
            Some(edges) => {
                let mut i: usize = 0;
                while i < edges.len()
                    invariant
                        edges@ == self.edge_list(v_id),
                        i <= edges@.len(),
                        forall|n: u64|
                            neighbors@.contains(n) <==> n != v_id && exists|j: int|
                                #![trigger self.edge_list(v_id)[j]]
                                0 <= j < i && self.hyperedges@.contains_key(self.edge_list(v_id)[j])
                                    && self.hyperedges@[self.edge_list(
                                    v_id,
                                )[j]].vertices@.contains(n),
                    decreases edges@.len() - i,
                {
                    let e_id = edges[i];
                    match self.hyperedges.get(&e_id) {
                        Some(edge) => {
                            let mut t: usize = 0;
                            while t < edge.vertices.len()
                                invariant
                                    edges@ == self.edge_list(v_id),
                                    i < edges@.len(),
                                    e_id == self.edge_list(v_id)[i as int],
                                    self.hyperedges@.contains_key(e_id),
                                    *edge == self.hyperedges@[e_id],
                                    t <= edge.vertices@.len(),
                                    forall|n: u64|
                                        neighbors@.contains(n) <==> n != v_id && ((exists|j: int|
                                            #![trigger self.edge_list(v_id)[j]]
                                            0 <= j < i && self.hyperedges@.contains_key(
                                                self.edge_list(v_id)[j],
                                            ) && self.hyperedges@[self.edge_list(
                                                v_id,
                                            )[j]].vertices@.contains(n)) || exists|q: int|
                                            0 <= q < t && edge.vertices@[q] == n),
                                decreases edge.vertices@.len() - t,
                            {
                                let n_id = edge.vertices[t];
                                if n_id != v_id {
                                    neighbors.insert(n_id);
                                }
                                t = t + 1;
                            }
                            proof {
                                assert forall|n: u64|
                                    neighbors@.contains(n) <==> n != v_id && exists|j: int|
                                        #![trigger self.edge_list(v_id)[j]]
                                        0 <= j < i + 1 && self.hyperedges@.contains_key(
                                            self.edge_list(v_id)[j],
                                        ) && self.hyperedges@[self.edge_list(
                                            v_id,
                                        )[j]].vertices@.contains(n) by {
                                    if neighbors@.contains(n) && !(exists|j: int|
                                        #![trigger self.edge_list(v_id)[j]]
                                        0 <= j < i && self.hyperedges@.contains_key(
                                            self.edge_list(v_id)[j],
                                        ) && self.hyperedges@[self.edge_list(
                                            v_id,
                                        )[j]].vertices@.contains(n)) {
                                        assert(self.edge_list(v_id)[i as int] == e_id);
                                    }
                                    if n != v_id && self.hyperedges@[self.edge_list(
                                        v_id,
                                    )[i as int]].vertices@.contains(n) {
                                        let q = choose|q: int|
                                            0 <= q < edge.vertices@.len() && edge.vertices@[q]
                                                == n;
                                    }
                                }
                            }
                        },
                        None => {},
                    }
                    i = i + 1;
                }
            },
            None => {},
        }
        proof {
            self.lemma_incidence();
            let el = self.edge_list(v_id);
            let il = self.incidence().list(v_id);
            assert forall|n: u64| neighbors@.contains(n) == self.neighbors(v_id).contains(n) by {
                if neighbors@.contains(n) {
                    let j = choose|j: int|
                        #![trigger el[j]]
                        0 <= j < el.len() && self.hyperedges@.contains_key(el[j])
                            && self.hyperedges@[el[j]].vertices@.contains(n);
                    assert(il[j] == el[j]);
                    assert(self.incidence().edges[il[j]].contains(n));
                }
                if self.neighbors(v_id).contains(n) {
                    assert(self.shares_edge(v_id, n));
                    let j = choose|j: int|
                        #![trigger il[j]]
                        0 <= j < il.len() && None::<u64> != Some(il[j])
                            && self.incidence().edges.contains_key(il[j])
                            && self.incidence().edges[il[j]].contains(n);
                    assert(il[j] == el[j]);
                    assert(self.hyperedges@[el[j]].vertices@.contains(n));
                }
            }
            assert(neighbors@ =~= self.neighbors(v_id));
        }
        neighbors
    }

    /// With a new hyperedge `id` added to `old` (and `c` copies of `id`
    /// appended to the list of `u`), `u` and `v` share an edge other than
    /// `id` exactly when they shared one before.
    proof fn lemma_shares_besides_new(old: Hypergraph, mid: Hypergraph, id: u64, u: u64, v: u64, c: nat)
        requires
            forall|k: u64| #[trigger]
                old.vertex_to_edges@.contains_key(k) ==> ids_below(old.vertex_to_edges@[k]@, id),
            !old.hyperedges@.contains_key(id),
            mid.hyperedges@.remove(id) == old.hyperedges@,
            mid.edge_list(u) == old.edge_list(u) + repeat_id(id, c),
        ensures
            mid.shares_edge_except(u, v, Some(id)) == old.shares_edge(u, v),
    {
        old.lemma_incidence();
        mid.lemma_incidence();
        let ol = old.incidence().list(u);
        let ml = mid.incidence().list(u);
        if mid.shares_edge_except(u, v, Some(id)) {
            let i = choose|i: int|
                #![trigger ml[i]]
                0 <= i < ml.len() && Some(id) != Some(ml[i]) && mid.incidence().edges.contains_key(
                    ml[i],
                ) && mid.incidence().edges[ml[i]].contains(v);
            assert(i < ol.len());
            assert(ml[i] == ol[i]);
            assert(old.hyperedges@.contains_key(ml[i]));
            assert(old.hyperedges@[ol[i]] == mid.hyperedges@[ml[i]]);
            assert(old.incidence().edges[ol[i]].contains(v));
        }
        if old.shares_edge(u, v) {
            let i = choose|i: int|
                #![trigger ol[i]]
                0 <= i < ol.len() && None::<u64> != Some(ol[i]) && old.incidence().edges.contains_key(
                    ol[i],
                ) && old.incidence().edges[ol[i]].contains(v);
            assert(ml[i] == ol[i]);
            assert(ol[i] < id) by {
                if old.vertex_to_edges@.contains_key(u) {
                    assert(ids_below(old.vertex_to_edges@[u]@, id));
                }
            }
            assert(mid.hyperedges@.contains_key(ml[i]));
            assert(mid.hyperedges@[ml[i]] == old.hyperedges@[ml[i]]);
            assert(mid.incidence().edges[ml[i]].contains(v));
        }
    }

    /// The effect of `add_hyperedge(vs)` returning `e`, from `self` to `new`.
    pub open spec fn edge_added(self, new: Hypergraph, vs: Seq<u64>, e: Hyperedge) -> bool {
        &&& e.id == self.next_edge_id
        &&& e.vertices@ == vs
        &&& new.next_edge_id == self.next_edge_id + 1
        &&& new.hyperedges@.dom() == self.hyperedges@.dom().insert(e.id)
        &&& new.hyperedges@.remove(e.id) == self.hyperedges@
        &&& new.hyperedges@[e.id].same_as(e)
        &&& new.active_edge_ids@ == self.active_edge_ids@.push(e.id)
        &&& new.vertex_to_edges@.dom() == self.vertex_to_edges@.dom().union(vs.to_set())
        &&& forall|k: u64| #[trigger]
            new.edge_list(k) == self.edge_list(k) + repeat_id(e.id, count_of(vs, k))
        &&& new.total_interactions == self.total_interactions + self.lonely_pairs(vs)
        &&& new.vertices@ == self.vertices@
        &&& new.causal_future@ == self.causal_future@
        &&& new.causal_past@ == self.causal_past@
        &&& new.next_vertex_id == self.next_vertex_id
        &&& new.max_depth == self.max_depth
    }

    /// Adds a hyperedge over `vertices` with id `next_edge_id`, lists it for
    /// each vertex (once per occurrence) and in the active list, and counts
    /// every position pair `i < j` of `vertices` whose vertices shared no
    /// hyperedge before as a new interaction.
    pub fn add_hyperedge(&mut self, vertices: Vec<u64>) -> (e: Hyperedge)
        requires
            old(self).wf(),
            old(self).next_edge_id + 1 < u64::MAX,
            old(self).total_interactions + old(self).lonely_pairs(vertices@) <= usize::MAX,
        ensures
            final(self).wf(),
            old(self).edge_added(*final(self), vertices@, e),
    {
        let ghost g0 = *old(self);
        let ghost vs = vertices@;
        let id = self.next_edge_id;
        self.next_edge_id = id + 1;
        let edge = Hyperedge::new(id, copy_ids(&vertices));
        let stored = edge.duplicate();
        self.hyperedges.insert(id, stored);
        self.active_edge_ids.push(id);
        proof {
            assert(!g0.hyperedges@.contains_key(id));
            assert(self.hyperedges@.remove(id) =~= g0.hyperedges@);
            assert(vs.take(0) =~= Seq::<u64>::empty());
            assert(vs.skip(0) =~= vs);
            assert forall|k: u64| #[trigger]
                self.edge_list(k) == g0.edge_list(k) + repeat_id(id, count_of(vs.take(0), k)) by {
                assert(vs.take(0).filter(equals(k)) =~= Seq::<u64>::empty());
                assert(g0.edge_list(k) + repeat_id(id, 0) =~= g0.edge_list(k));
            }
            assert(self.vertex_to_edges@.dom() =~= g0.vertex_to_edges@.dom().union(
                vs.take(0).to_set(),
            ));
        }
        let n = vertices.len();
        let mut i: usize = 0;
        while i < n
            invariant
                n == vs.len(),
                vs == vertices@,
                i <= n,
                g0.wf(),
                id == g0.next_edge_id,
                self.next_edge_id == id + 1,
                id + 1 < u64::MAX,
                !g0.hyperedges@.contains_key(id),
                self.hyperedges@.remove(id) == g0.hyperedges@,
                self.hyperedges@.contains_key(id),
                self.hyperedges@[id].id == id,
                self.hyperedges@[id].vertices@ == vs,
                self.active_edge_ids@ == g0.active_edge_ids@.push(id),
                self.vertices@ == g0.vertices@,
                self.causal_future@ == g0.causal_future@,
                self.causal_past@ == g0.causal_past@,
                self.next_vertex_id == g0.next_vertex_id,
                self.max_depth == g0.max_depth,
                self.vertex_to_edges@.dom() == g0.vertex_to_edges@.dom().union(
                    vs.take(i as int).to_set(),
                ),
                forall|k: u64| #[trigger]
                    self.edge_list(k) == g0.edge_list(k) + repeat_id(
                        id,
                        count_of(vs.take(i as int), k),
                    ),
                self.total_interactions + g0.lonely_pairs(vs.skip(i as int)) == g0.total_interactions
                    + g0.lonely_pairs(vs),
                g0.total_interactions + g0.lonely_pairs(vs) <= usize::MAX,
            decreases n - i,
        {
            let v1 = vertices[i];
            let ghost before = *self;
            let mut list = match self.vertex_to_edges.remove(&v1) {
                Some(l) => l,
                None => Vec::new(),
            };
            proof {
                assert(list@ == before.edge_list(v1));
            }
            list.push(id);
            self.vertex_to_edges.insert(v1, list);
            proof {
                assert(self.edge_list(v1) == before.edge_list(v1).push(id));
            }
            proof {
                assert(vs.take(i + 1) == vs.take(i as int).push(v1));
                assert forall|k: u64| #[trigger]
                    self.edge_list(k) == g0.edge_list(k) + repeat_id(
                        id,
                        count_of(vs.take(i + 1), k),
                    ) by {
                    vs.take(i as int).lemma_filter_push(v1, equals(k));
                    if k == v1 {
                        assert(before.edge_list(k).push(id) == self.edge_list(k));
                        assert(repeat_id(id, count_of(vs.take(i as int), k)).push(id) =~= repeat_id(
                            id,
                            count_of(vs.take(i + 1), k),
                        ));
                        assert(g0.edge_list(k) + repeat_id(id, count_of(vs.take(i as int), k)).push(
                            id,
                        ) =~= (g0.edge_list(k) + repeat_id(id, count_of(vs.take(i as int), k))).push(
                            id,
                        ));
                    } else {
                        assert(self.vertex_to_edges@.contains_key(k)
                            == before.vertex_to_edges@.contains_key(k));
                        if self.vertex_to_edges@.contains_key(k) {
                            assert(self.vertex_to_edges@[k] == before.vertex_to_edges@[k]);
                        }
                        assert(self.edge_list(k) == before.edge_list(k));
                        assert(count_of(vs.take(i + 1), k) == count_of(vs.take(i as int), k));
                    }
                }
                assert(vs.take(i + 1).to_set() =~= vs.take(i as int).to_set().insert(v1)) by {
                    vs.take(i as int).lemma_push_to_set_commute(v1);
                }
                assert(self.vertex_to_edges@.dom() =~= g0.vertex_to_edges@.dom().union(
                    vs.take(i + 1).to_set(),
                ));
                let rest = vs.skip(i as int);
                assert(rest.drop_first() =~= vs.skip(i + 1));
                assert(rest[0] == v1);
            }
            let ghost row_base = self.total_interactions;
            let ghost rest = vs.skip(i + 1);
            let ghost mid = *self;
            let mut j: usize = i + 1;
            while j < n
                invariant
                    n == vs.len(),
                    vs == vertices@,
                    i < n,
                    i + 1 <= j <= n,
                    v1 == vs[i as int],
                    rest == vs.skip(i + 1),
                    self.vertex_to_edges@ == mid.vertex_to_edges@,
                    self.hyperedges@ == mid.hyperedges@,
                    self.active_edge_ids@ == mid.active_edge_ids@,
                    self.vertices@ == mid.vertices@,
                    self.causal_future@ == mid.causal_future@,
                    self.causal_past@ == mid.causal_past@,
                    self.next_vertex_id == mid.next_vertex_id,
                    self.next_edge_id == mid.next_edge_id,
                    self.max_depth == mid.max_depth,
                    g0.wf(),
                    id == g0.next_edge_id,
                    !g0.hyperedges@.contains_key(id),
                    self.hyperedges@.remove(id) == g0.hyperedges@,
                    forall|k: u64| #[trigger]
                        mid.edge_list(k) == g0.edge_list(k) + repeat_id(
                            id,
                            count_of(vs.take(i + 1), k),
                        ),
                    self.total_interactions == row_base + rest.take(j - (i + 1)).filter(
                        g0.incidence().apart_from(v1),
                    ).len(),
                    row_base + rest.filter(g0.incidence().apart_from(v1)).len() <= usize::MAX,
                decreases n - j,
            {
                let v2 = vertices[j];
                proof {
                    Self::lemma_shares_besides_new(
                        g0,
                        mid,
                        id,
                        v1,
                        v2,
                        count_of(vs.take(i + 1), v1),
                    );
                    let t = j - (i + 1);
                    assert(rest.take(t + 1) == rest.take(t).push(v2));
                    rest.take(t).lemma_filter_push(v2, g0.incidence().apart_from(v1));
                    rest.lemma_filter_take_len(g0.incidence().apart_from(v1), t + 1);
                }
                proof {
                    assert(self.edge_list(v1) == mid.edge_list(v1));
                    assert(self.shares_edge_except(v1, v2, Some(id)) == mid.shares_edge_except(
                        v1,
                        v2,
                        Some(id),
                    ));
                }
                if !self.is_structurally_interacting_excluding(v1, v2, id) {
                    self.total_interactions = self.total_interactions + 1;
                }
                j = j + 1;
            }
            proof {
                assert(rest.take(n - (i + 1)) =~= rest);
                assert forall|k: u64| #[trigger]
                    self.edge_list(k) == g0.edge_list(k) + repeat_id(
                        id,
                        count_of(vs.take(i + 1), k),
                    ) by {
                    assert(self.edge_list(k) == mid.edge_list(k));
                }
            }
            i = i + 1;
        }
        proof {
            assert(vs.take(n as int) =~= vs);
            assert(vs.skip(n as int) =~= Seq::<u64>::empty());
            assert forall|k: u64| #[trigger] self.vertices@.contains_key(k) implies self.vertex_ok(
                k,
            ) by {
                assert(g0.vertex_ok(k));
            }
            assert forall|k: u64| #[trigger] self.hyperedges@.contains_key(k) implies self.edge_ok(
                k,
            ) by {
                if k != id {
                    assert(g0.edge_ok(k));
                    assert(g0.hyperedges@.contains_key(k));
                }
            }
            assert forall|k: u64| #[trigger]
                self.vertex_to_edges@.contains_key(k) implies ids_below(
                self.vertex_to_edges@[k]@,
                self.next_edge_id,
            ) by {
                assert(self.edge_list(k) == self.vertex_to_edges@[k]@);
                assert forall|t: int| 0 <= t < self.edge_list(k).len() implies #[trigger] self.edge_list(
                    k,
                )[t] < self.next_edge_id by {
                    if t < g0.edge_list(k).len() {
                        if g0.vertex_to_edges@.contains_key(k) {
                            assert(ids_below(g0.vertex_to_edges@[k]@, g0.next_edge_id));
                        }
                    }
                }
            }
            assert(ids_below(self.active_edge_ids@, self.next_edge_id)) by {
                assert forall|t: int| 0 <= t < self.active_edge_ids@.len() implies #[trigger] self.active_edge_ids@[t]
                    < self.next_edge_id by {
                    if t < g0.active_edge_ids@.len() {
                        assert(self.active_edge_ids@[t] == g0.active_edge_ids@[t]);
                    }
                }
            }
        }
        edge
    }

    /// The effect of `remove_hyperedge(eid)` returning `r`, from `self` to
    /// `new`.
    pub open spec fn edge_removed(self, new: Hypergraph, eid: u64, r: Option<Hyperedge>) -> bool {
        &&& !self.hyperedges@.contains_key(eid) ==> {
            &&& r is None
            &&& new.hyperedges@ == self.hyperedges@
            &&& new.vertex_to_edges@ == self.vertex_to_edges@
            &&& new.active_edge_ids@ == self.active_edge_ids@
            &&& new.total_interactions == self.total_interactions
        }
        &&& self.hyperedges@.contains_key(eid) ==> {
            let vs = self.hyperedges@[eid].vertices@;
            &&& r == Some(self.hyperedges@[eid])
            &&& new.hyperedges@ == self.hyperedges@.remove(eid)
            &&& new.active_edge_ids@ == active_after_removal(self.active_edge_ids@, eid)
            &&& new.vertex_to_edges@.dom() == self.vertex_to_edges@.dom()
            &&& new.incidence() == incidence_without_edge(self.incidence(), eid, vs)
            &&& new.total_interactions == saturating_diff(
                self.total_interactions as nat,
                new.lonely_pairs(vs),
            )
        }
        &&& new.vertices@ == self.vertices@
        &&& new.causal_future@ == self.causal_future@
        &&& new.causal_past@ == self.causal_past@
        &&& new.next_vertex_id == self.next_vertex_id
        &&& new.next_edge_id == self.next_edge_id
        &&& new.max_depth == self.max_depth
    }

    /// Removes hyperedge `edge_id` and returns it (`None`, and no change,
    /// when it is absent). Its id leaves the active list (the first
    /// occurrence is swapped out with the last element) and the lists of its
    /// vertices; each position pair `i < j` of its vertices that shares no
    /// hyperedge afterwards takes one off the interaction count, which stops
    /// at zero.
    pub fn remove_hyperedge(&mut self, edge_id: u64) -> (r: Option<Hyperedge>)
        requires
            old(self).wf(),
        ensures
            final(self).wf(),
            old(self).edge_removed(*final(self), edge_id, r),
    {
        let ghost g0 = *old(self);
        let edge = match self.hyperedges.remove(&edge_id) {
            Some(e) => e,
            None => {
                proof {
                    assert(g0.hyperedges@.remove(edge_id) =~= g0.hyperedges@);
                }
                return None;
            },
        };
        let ghost vs = edge.vertices@;
        let ghost target = incidence_without_edge(g0.incidence(), edge_id, vs);
        // Drop it from the active list (swap with the last element).
        let ghost mut first: int = 0;
        match vec_position(&self.active_edge_ids, edge_id) {
            Some(pos) => {
                proof {
                    first = pos as int;
                }
                self.active_edge_ids.swap_remove(pos);
            },
            None => {},
        }
        proof {
            let a = g0.active_edge_ids@;
            if a.contains(edge_id) {
                assert(0 <= first < a.len() && a[first] == edge_id);
                assert(self.active_edge_ids@ == a.update(first, a.last()).drop_last());
            } else {
                assert(self.active_edge_ids@ == a);
            }
        }
        let ghost swapped = self.active_edge_ids@;
        let n = edge.vertices.len();
        let mut i: usize = 0;
        proof {
            assert(vs.take(0) =~= Seq::<u64>::empty());
            assert(vs.skip(0) =~= vs);
            assert(self.incidence().edges =~= target.edges);
        }
        while i < n
            invariant
                n == vs.len(),
                vs == edge.vertices@,
                i <= n,
                g0.wf(),
                edge == g0.hyperedges@[edge_id],
                target == incidence_without_edge(g0.incidence(), edge_id, vs),
                self.hyperedges@ == g0.hyperedges@.remove(edge_id),
                self.incidence().edges == target.edges,
                self.active_edge_ids@ == swapped,
                self.vertex_to_edges@.dom() == g0.vertex_to_edges@.dom(),
                forall|k: u64| #[trigger]
                    self.vertex_to_edges@.contains_key(k) ==> self.vertex_to_edges@[k]@ == (
                    if vs.take(i as int).contains(k) {
                        g0.vertex_to_edges@[k]@.filter(differs_from(edge_id))
                    } else {
                        g0.vertex_to_edges@[k]@
                    }),
                self.total_interactions == saturating_diff(
                    g0.total_interactions as nat,
                    (target.lonely_pairs(vs) - target.lonely_pairs(vs.skip(i as int))) as nat,
                ),
                target.lonely_pairs(vs) >= target.lonely_pairs(vs.skip(i as int)),
                self.vertices@ == g0.vertices@,
                self.causal_future@ == g0.causal_future@,
                self.causal_past@ == g0.causal_past@,
                self.next_vertex_id == g0.next_vertex_id,
                self.next_edge_id == g0.next_edge_id,
                self.max_depth == g0.max_depth,
            decreases n - i,
        {
            let v1 = edge.vertices[i];
            let ghost before = *self;
            if let Some(list) = self.vertex_to_edges.remove(&v1) {
                let kept = vec_without(&list, edge_id);
                self.vertex_to_edges.insert(v1, kept);
            }
            proof {
                assert(vs.take(i + 1) == vs.take(i as int).push(v1));
                assert forall|k: u64| #[trigger]
                    self.vertex_to_edges@.contains_key(k) implies self.vertex_to_edges@[k]@ == (
                    if vs.take(i + 1).contains(k) {
                        g0.vertex_to_edges@[k]@.filter(differs_from(edge_id))
                    } else {
                        g0.vertex_to_edges@[k]@
                    }) by {
                    crate::listops::lemma_push_contains(vs.take(i as int), v1, k);
                    if k == v1 {
                        if vs.take(i as int).contains(k) {
                            lemma_filter_idempotent(
                                g0.vertex_to_edges@[k]@,
                                differs_from(edge_id),
                            );
                        }
                    } else {
                        assert(self.vertex_to_edges@[k] == before.vertex_to_edges@[k]);
                    }
                }
                assert(vs.contains(v1)) by {
                    assert(vs[i as int] == v1);
                }
                // The list of `v1` is now final.
                assert(self.incidence().list(v1) == target.list(v1));
                let rest = vs.skip(i as int);
                assert(rest.drop_first() =~= vs.skip(i + 1));
                assert(rest[0] == v1);
            }
            let ghost row_base = self.total_interactions;
            let ghost rest = vs.skip(i + 1);
            let ghost mid = *self;
            let mut j: usize = i + 1;
            while j < n
                invariant
                    n == vs.len(),
                    vs == edge.vertices@,
                    i < n,
                    i + 1 <= j <= n,
                    v1 == vs[i as int],
                    rest == vs.skip(i + 1),
                    self.vertex_to_edges@ == mid.vertex_to_edges@,
                    self.hyperedges@ == mid.hyperedges@,
                    self.active_edge_ids@ == mid.active_edge_ids@,
                    self.vertices@ == mid.vertices@,
                    self.causal_future@ == mid.causal_future@,
                    self.causal_past@ == mid.causal_past@,
                    self.next_vertex_id == mid.next_vertex_id,
                    self.next_edge_id == mid.next_edge_id,
                    self.max_depth == mid.max_depth,
                    mid.incidence().list(v1) == target.list(v1),
                    mid.incidence().edges == target.edges,
                    self.total_interactions == saturating_diff(
                        row_base as nat,
                        rest.take(j - (i + 1)).filter(target.apart_from(v1)).len(),
                    ),
                decreases n - j,
            {
                let v2 = edge.vertices[j];
                proof {
                    lemma_shares_local(self.incidence(), target, v1, v2, None);
                    let t = j - (i + 1);
                    assert(rest.take(t + 1) == rest.take(t).push(v2));
                    rest.take(t).lemma_filter_push(v2, target.apart_from(v1));
                }
                if !self.is_structurally_interacting(v1, v2) {
                    self.total_interactions = self.total_interactions.saturating_sub(1);
                }
                j = j + 1;
            }
            proof {
                assert(rest.take(n - (i + 1)) =~= rest);
                assert(target.lonely_pairs(vs.skip(i as int)) == rest.filter(
                    target.apart_from(v1),
                ).len() + target.lonely_pairs(vs.skip(i + 1)));
            }
            i = i + 1;
        }
        // Drop every remaining occurrence from the active list.
        self.active_edge_ids = vec_without(&self.active_edge_ids, edge_id);
        proof {
            assert(vs.take(n as int) =~= vs);
            assert(vs.skip(n as int) =~= Seq::<u64>::empty());
            // The active list.
            let a = g0.active_edge_ids@;
            if a.contains(edge_id) {
                let p = choose|p: int|
                    0 <= p < a.len() && a[p] == edge_id && forall|q: int|
                        0 <= q < p ==> a[q] != edge_id;
                assert(p == first) by {
                    if p < first {
                        assert(a[p] != edge_id);
                    }
                    if first < p {
                        assert(a[first] != edge_id);
                    }
                }
                assert(self.active_edge_ids@ == active_after_removal(a, edge_id));
                assert forall|t: int| 0 <= t < swapped.len() implies #[trigger] swapped[t]
                    < g0.next_edge_id by {
                    if t == first {
                        assert(swapped[t] == a.last());
                        assert(a.last() == a[a.len() - 1]);
                    } else {
                        assert(swapped[t] == a[t]);
                    }
                }
            } else {
                assert(self.active_edge_ids@ == active_after_removal(a, edge_id));
            }
            lemma_filter_subset(swapped, differs_from(edge_id));
            assert forall|t: int| 0 <= t < self.active_edge_ids@.len() implies #[trigger] self.active_edge_ids@[t]
                < self.next_edge_id by {
                let x = self.active_edge_ids@[t];
                assert(swapped.contains(x));
                let w = choose|w: int| 0 <= w < swapped.len() && swapped[w] == x;
            }
            // The lists.
            assert forall|k: u64| #[trigger]
                self.vertex_to_edges@.contains_key(k) implies ids_below(
                self.vertex_to_edges@[k]@,
                self.next_edge_id,
            ) by {
                let l0 = g0.vertex_to_edges@[k]@;
                assert(ids_below(l0, g0.next_edge_id));
                lemma_filter_subset(l0, differs_from(edge_id));
                assert forall|t: int| 0 <= t < self.vertex_to_edges@[k]@.len() implies #[trigger] self.vertex_to_edges@[k]@[t]
                    < self.next_edge_id by {
                    let x = self.vertex_to_edges@[k]@[t];
                    if vs.contains(k) {
                        assert(l0.contains(x));
                        let w = choose|w: int| 0 <= w < l0.len() && l0[w] == x;
                    } else {
                        assert(x == l0[t]);
                    }
                }
            }
            assert forall|k: u64| #[trigger] self.hyperedges@.contains_key(k) implies self.edge_ok(
                k,
            ) by {
                assert(g0.hyperedges@.contains_key(k));
                assert(g0.edge_ok(k));
            }
            assert forall|k: u64| #[trigger] self.vertices@.contains_key(k) implies self.vertex_ok(
                k,
            ) by {
                assert(g0.vertex_ok(k));
            }
            // The incidence view.
            assert(self.incidence().lists =~= target.lists);
            assert(self.incidence() == target);
        }
        Some(edge)
    }

    /// Every bit of every causal future and past is below `bound`.
    pub open spec fn causal_within(self, bound: u64) -> bool {
        &&& forall|k: u64, i: usize| #[trigger] self.fut(k).contains(i) ==> i < bound
        &&& forall|k: u64, i: usize| #[trigger] self.past(k).contains(i) ==> i < bound
    }

    /// Adding a causal relation keeps every causal bit below a bound.
    pub proof fn lemma_link_keeps_within(self, new: Hypergraph, u: u64, v: u64, bound: u64)
        requires
            self.causal_link_effect(new, u, v),
            self.causal_within(bound),
        ensures
            new.causal_within(bound),
    {
        assert forall|k: u64, i: usize| #[trigger] new.fut(k).contains(i) implies i < bound by {
            if !self.fut(u).contains(v as usize) && new.causal_future@.contains_key(k) {
                if self.fut(v).contains(i) {
                    assert(self.fut(v).contains(i));
                } else {
                    assert(self.fut(k).contains(i));
                }
            } else {
                assert(self.fut(k).contains(i));
            }
        }
        assert forall|k: u64, i: usize| #[trigger] new.past(k).contains(i) implies i < bound by {
            if !self.fut(u).contains(v as usize) && new.causal_past@.contains_key(k) {
                if self.past(u).contains(i) {
                    assert(self.past(u).contains(i));
                } else {
                    assert(self.past(k).contains(i));
                }
            } else {
                assert(self.past(k).contains(i));
            }
        }
    }

    /// Every hyperedge holds only vertex ids below `bound`.
    pub open spec fn edges_within(self, bound: u64) -> bool {
        forall|e: u64| #[trigger]
            self.hyperedges@.contains_key(e) ==> ids_below(self.hyperedges@[e].vertices@, bound)
    }

    /// The structural neighbors of `v_id` as a bit set (capacity at least
    /// `next_vertex_id + 1`); `None` when `v_id` lists no hyperedge or has no
    /// neighbor.
    pub fn structural_neighbors_bitset(&self, v_id: &u64) -> (r: Option<FixedBitSet>)
        requires
            self.wf(),
            self.edges_within(ID_LIMIT),
        ensures
            r is None <==> (self.edge_list(*v_id).len() == 0 || self.neighbors(*v_id) == Set::<
                u64,
            >::empty()),
            r matches Some(bs) ==> bits_of(bs) == self.neighbors(*v_id).map(|n: u64| n as usize),
    {
        let v = *v_id;
        let edges = match self.vertex_to_edges.get(&v) {
            Some(edges) => edges,
            None => {
                return None;
            },
        };
        if edges.len() == 0 {
            return None;
        }
        let mut bs = bitset_with_capacity(self.next_vertex_id as usize + 1);
        let mut i: usize = 0;
        while i < edges.len()
            invariant
                self.wf(),
                self.edges_within(ID_LIMIT),
                edges@ == self.edge_list(v),
                i <= edges@.len(),
                capacity_of(bs) <= ID_LIMIT as nat,
                forall|x: usize|
                    bits_of(bs).contains(x) <==> exists|n: u64|
                        #![trigger (n as usize)]
                        n as usize == x && n != v && exists|j: int|
                            #![trigger self.edge_list(v)[j]]
                            0 <= j < i && self.hyperedges@.contains_key(self.edge_list(v)[j])
                                && self.hyperedges@[self.edge_list(v)[j]].vertices@.contains(n),
            decreases edges@.len() - i,
        {
            let e_id = edges[i];
            match self.hyperedges.get(&e_id) {
                Some(edge) => {
                    proof {
                        assert(ids_below(edge.vertices@, ID_LIMIT));
                    }
                    let mut t: usize = 0;
                    while t < edge.vertices.len()
                        invariant
                            edges@ == self.edge_list(v),
                            i < edges@.len(),
                            e_id == self.edge_list(v)[i as int],
                            self.hyperedges@.contains_key(e_id),
                            *edge == self.hyperedges@[e_id],
                            ids_below(edge.vertices@, ID_LIMIT),
                            t <= edge.vertices@.len(),
                            capacity_of(bs) <= ID_LIMIT as nat,
                            forall|x: usize|
                                bits_of(bs).contains(x) <==> exists|n: u64|
                                    #![trigger (n as usize)]
                                    n as usize == x && n != v && ((exists|j: int|
                                        #![trigger self.edge_list(v)[j]]
                                        0 <= j < i && self.hyperedges@.contains_key(
                                            self.edge_list(v)[j],
                                        ) && self.hyperedges@[self.edge_list(
                                            v,
                                        )[j]].vertices@.contains(n)) || exists|q: int|
                                        0 <= q < t && edge.vertices@[q] == n),
                        decreases edge.vertices@.len() - t,
                    {
                        let n_id = edge.vertices[t];
                        if n_id != v {
                            let idx = n_id as usize;
                            if idx >= bitset_len(&bs) {
                                bitset_grow(&mut bs, idx + 1);
                            }
                            bitset_insert(&mut bs, idx);
                            proof {
                                assert forall|x: usize|
                                    bits_of(bs).contains(x) <==> exists|n: u64|
                                        #![trigger (n as usize)]
                                        n as usize == x && n != v && ((exists|j: int|
                                            #![trigger self.edge_list(v)[j]]
                                            0 <= j < i && self.hyperedges@.contains_key(
                                                self.edge_list(v)[j],
                                            ) && self.hyperedges@[self.edge_list(
                                                v,
                                            )[j]].vertices@.contains(n)) || exists|q: int|
                                            0 <= q < t + 1 && edge.vertices@[q] == n) by {
                                    if x == idx {
                                        assert(n_id as usize == x);
                                        assert(edge.vertices@[t as int] == n_id);
                                    }
                                }
                            }
                        }
                        t = t + 1;
                    }
                    proof {
                        assert forall|x: usize|
                            bits_of(bs).contains(x) <==> exists|n: u64|
                                #![trigger (n as usize)]
                                n as usize == x && n != v && exists|j: int|
                                    #![trigger self.edge_list(v)[j]]
                                    0 <= j < i + 1 && self.hyperedges@.contains_key(
                                        self.edge_list(v)[j],
                                    ) && self.hyperedges@[self.edge_list(v)[j]].vertices@.contains(
                                        n,
                                    ) by {
                            if bits_of(bs).contains(x) {
                                let n = choose|n: u64|
                                    #![trigger (n as usize)]
                                    n as usize == x && n != v && ((exists|j: int|
                                        #![trigger self.edge_list(v)[j]]
                                        0 <= j < i && self.hyperedges@.contains_key(
                                            self.edge_list(v)[j],
                                        ) && self.hyperedges@[self.edge_list(
                                            v,
                                        )[j]].vertices@.contains(n)) || exists|q: int|
                                        0 <= q < edge.vertices@.len() && edge.vertices@[q] == n);
                                assert(self.edge_list(v)[i as int] == e_id);
                            }
                            if exists|n: u64|
                                #![trigger (n as usize)]
                                n as usize == x && n != v && exists|j: int|
                                    #![trigger self.edge_list(v)[j]]
                                    0 <= j < i + 1 && self.hyperedges@.contains_key(
                                        self.edge_list(v)[j],
                                    ) && self.hyperedges@[self.edge_list(v)[j]].vertices@.contains(
                                        n,
                                    ) {
                                let n = choose|n: u64|
                                    #![trigger (n as usize)]
                                    n as usize == x && n != v && exists|j: int|
                                        #![trigger self.edge_list(v)[j]]
                                        0 <= j < i + 1 && self.hyperedges@.contains_key(
                                            self.edge_list(v)[j],
                                        ) && self.hyperedges@[self.edge_list(
                                            v,
                                        )[j]].vertices@.contains(n);
                                let j = choose|j: int|
                                    #![trigger self.edge_list(v)[j]]
                                    0 <= j < i + 1 && self.hyperedges@.contains_key(
                                        self.edge_list(v)[j],
                                    ) && self.hyperedges@[self.edge_list(v)[j]].vertices@.contains(
                                        n,
                                    );
                                if j == i {
                                    let q = choose|q: int|
                                        0 <= q < edge.vertices@.len() && edge.vertices@[q] == n;
                                }
                            }
                        }
                    }
                },
                None => {},
            }
            i = i + 1;
        }
        proof {
            self.lemma_incidence();
            let el = self.edge_list(v);
            let il = self.incidence().list(v);
            assert forall|n: u64|
                self.neighbors(v).contains(n) <==> (n != v && exists|j: int|
                    #![trigger el[j]]
                    0 <= j < el.len() && self.hyperedges@.contains_key(el[j])
                        && self.hyperedges@[el[j]].vertices@.contains(n)) by {
                if self.neighbors(v).contains(n) {
                    let j = choose|j: int|
                        #![trigger il[j]]
                        0 <= j < il.len() && None::<u64> != Some(il[j])
                            && self.incidence().edges.contains_key(il[j])
                            && self.incidence().edges[il[j]].contains(n);
                    assert(il[j] == el[j]);
                }
                if n != v && exists|j: int|
                    #![trigger el[j]]
                    0 <= j < el.len() && self.hyperedges@.contains_key(el[j])
                        && self.hyperedges@[el[j]].vertices@.contains(n) {
                    let j = choose|j: int|
                        #![trigger el[j]]
                        0 <= j < el.len() && self.hyperedges@.contains_key(el[j])
                            && self.hyperedges@[el[j]].vertices@.contains(n);
                    assert(il[j] == el[j]);
                    assert(self.incidence().edges[il[j]].contains(n));
                }
            }
            let m = self.neighbors(v).map(|n: u64| n as usize);
            assert forall|x: usize| bits_of(bs).contains(x) == m.contains(x) by {
                if bits_of(bs).contains(x) {
                    let n = choose|n: u64|
                        #![trigger (n as usize)]
                        n as usize == x && n != v && exists|j: int|
                            #![trigger self.edge_list(v)[j]]
                            0 <= j < i && self.hyperedges@.contains_key(self.edge_list(v)[j])
                                && self.hyperedges@[self.edge_list(v)[j]].vertices@.contains(n);
                    assert(self.neighbors(v).contains(n));
                }
                if m.contains(x) {
                    let n = choose|n: u64| self.neighbors(v).contains(n) && n as usize == x;
                    assert(self.neighbors(v).contains(n));
                }
            }
            assert(bits_of(bs) =~= m);
        }
        let ones = bitset_ones(&bs);
        if ones.len() == 0 {
            proof {
                assert forall|n: u64| !self.neighbors(v).contains(n) by {
                    if self.neighbors(v).contains(n) {
                        assert(self.neighbors(v).map(|n: u64| n as usize).contains(n as usize));
                        assert(bits_of(bs).contains(n as usize));
                        assert(ones@.to_set().contains(n as usize));
                    }
                }
                assert(self.neighbors(v) =~= Set::<u64>::empty());
            }
            None
        } else {
            proof {
                let x = ones@[0];
                assert(ones@.to_set().contains(x));
                assert(self.neighbors(v).map(|n: u64| n as usize).contains(x));
                let n = choose|n: u64| self.neighbors(v).contains(n) && n as usize == x;
                assert(self.neighbors(v).contains(n));
                assert(self.neighbors(v) != Set::<u64>::empty());
            }
            Some(bs)
        }
    }

    /// The ids in the causal future of `v_id` (none when it has no entry).
    pub fn causal_future(&self, v_id: u64) -> (r: Vec<u64>)
        requires
            self.wf(),
        ensures
            r@.no_duplicates(),
            r@.to_set().map(|x: u64| x as usize) == self.fut(v_id),
            forall|i: int| 0 <= i < r@.len() ==> #[trigger] r@[i] < ID_LIMIT,
            forall|i: int, j: int| 0 <= i < j < r@.len() ==> r@[i] < r@[j],
    {
        match self.causal_future.get(&v_id) {
            Some(bs) => {
                proof {
                    assert(causal_set_ok(*bs));
                }
                Self::ids_of(bs)
            },
            None => {
                let r: Vec<u64> = Vec::new();
                proof {
                    assert(r@.to_set().map(|x: u64| x as usize) =~= Set::<usize>::empty());
                }
                r
            },
        }
    }

    /// The ids in the causal past of `v_id` (none when it has no entry).
    pub fn causal_past(&self, v_id: u64) -> (r: Vec<u64>)
        requires
            self.wf(),
        ensures
            r@.no_duplicates(),
            r@.to_set().map(|x: u64| x as usize) == self.past(v_id),
            forall|i: int| 0 <= i < r@.len() ==> #[trigger] r@[i] < ID_LIMIT,
            forall|i: int, j: int| 0 <= i < j < r@.len() ==> r@[i] < r@[j],
    {
        match self.causal_past.get(&v_id) {
            Some(bs) => {
                proof {
                    assert(causal_set_ok(*bs));
                }
                Self::ids_of(bs)
            },
            None => {
                let r: Vec<u64> = Vec::new();
                proof {
                    assert(r@.to_set().map(|x: u64| x as usize) =~= Set::<usize>::empty());
                }
                r
            },
        }
    }

    /// The enabled bits of a causal set, as ids.
    fn ids_of(bs: &FixedBitSet) -> (r: Vec<u64>)
        requires
            causal_set_ok(*bs),
        ensures
            r@.no_duplicates(),
            r@.to_set().map(|x: u64| x as usize) == bits_of(*bs),
            forall|i: int| 0 <= i < r@.len() ==> #[trigger] r@[i] < ID_LIMIT,
            forall|i: int, j: int| 0 <= i < j < r@.len() ==> r@[i] < r@[j],
    {
        let ones = bitset_ones(bs);
        let mut r: Vec<u64> = Vec::new();
        let mut i: usize = 0;
        while i < ones.len()
            invariant
                causal_set_ok(*bs),
                ones@.to_set() == bits_of(*bs),
                ones@.no_duplicates(),
                i <= ones@.len(),
                r@.len() == i,
                forall|j: int| 0 <= j < i ==> #[trigger] r@[j] == ones@[j] as u64,
                forall|j: int| 0 <= j < i ==> (#[trigger] r@[j]) < ID_LIMIT,
                forall|a: int, b: int| 0 <= a < b < ones@.len() ==> ones@[a] < ones@[b],
            decreases ones@.len() - i,
        {
            let x = ones[i];
            proof {
                assert(ones@.to_set().contains(x));
                assert(bits_of(*bs).contains(x));
            }
            r.push(x as u64);
            i = i + 1;
        }
        proof {
            assert forall|a: int, b: int| 0 <= a < r@.len() && 0 <= b < r@.len() && a != b implies r@[a]
                != r@[b] by {
                assert(ones@[a] != ones@[b]);
                assert(ones@.to_set().contains(ones@[a]));
                assert(ones@.to_set().contains(ones@[b]));
            }
            assert forall|x: usize| r@.to_set().map(|x: u64| x as usize).contains(x) == bits_of(
                *bs,
            ).contains(x) by {
                if bits_of(*bs).contains(x) {
                    assert(ones@.to_set().contains(x));
                    let j = choose|j: int| 0 <= j < ones@.len() && ones@[j] == x;
                    assert(r@[j] as usize == x);
                    assert(r@.to_set().contains(r@[j]));
                }
                if r@.to_set().map(|x: u64| x as usize).contains(x) {
                    let y = choose|y: u64| r@.to_set().contains(y) && y as usize == x;
                    let j = choose|j: int| 0 <= j < r@.len() && r@[j] == y;
                    assert(ones@.to_set().contains(ones@[j]));
                }
            }
            assert(r@.to_set().map(|x: u64| x as usize) =~= bits_of(*bs));
        }
        r
    }

    /// The causal future bit set of `v_id`, if it has one.
    pub fn causal_future_bitset(&self, v_id: u64) -> (r: Option<&FixedBitSet>)
        ensures
            r is Some <==> self.causal_future@.contains_key(v_id),
            r matches Some(b) ==> *b == self.causal_future@[v_id],
    {
        self.causal_future.get(&v_id)
    }

    /// The causal past bit set of `v_id`, if it has one.
    pub fn causal_past_bitset(&self, v_id: u64) -> (r: Option<&FixedBitSet>)
        ensures
            r is Some <==> self.causal_past@.contains_key(v_id),
            r matches Some(b) ==> *b == self.causal_past@[v_id],
    {
        self.causal_past.get(&v_id)
    }

    /// Removes vertex `v_id` and returns it (`None`, and no change, when it is
    /// absent). Its id is cleared from the future of every vertex in its
    /// past and from the past of every vertex in its future, and its own
    /// causal sets and hyperedge list are dropped. Hyperedges are left as
    /// they are.
    pub fn remove_vertex(&mut self, v_id: u64) -> (r: Option<Vertex>)
        requires
            old(self).wf(),
        ensures
            final(self).wf(),
            !old(self).vertices@.contains_key(v_id) ==> r is None && final(self).vertices@ == old(
                self,
            ).vertices@ && final(self).causal_future@ == old(self).causal_future@
                && final(self).causal_past@ == old(self).causal_past@
                && final(self).vertex_to_edges@ == old(self).vertex_to_edges@,
            old(self).vertices@.contains_key(v_id) ==> {
                &&& r == Some(old(self).vertices@[v_id])
                &&& final(self).vertices@ == old(self).vertices@.remove(v_id)
                &&& final(self).vertex_to_edges@ == old(self).vertex_to_edges@.remove(v_id)
                &&& final(self).causal_future@.dom() == old(self).causal_future@.dom().remove(v_id)
                &&& final(self).causal_past@.dom() == old(self).causal_past@.dom().remove(v_id)
                &&& forall|k: u64| #[trigger]
                    final(self).causal_future@.contains_key(k) ==> final(self).fut(k) == (if old(
                        self,
                    ).past(v_id).contains(k as usize) {
                        old(self).fut(k).remove(v_id as usize)
                    } else {
                        old(self).fut(k)
                    })
                &&& forall|k: u64| #[trigger]
                    final(self).causal_past@.contains_key(k) ==> final(self).past(k) == (if old(
                        self,
                    ).fut(v_id).contains(k as usize) {
                        old(self).past(k).remove(v_id as usize)
                    } else {
                        old(self).past(k)
                    })
            },
            final(self).hyperedges@ == old(self).hyperedges@,
            final(self).active_edge_ids@ == old(self).active_edge_ids@,
            final(self).next_vertex_id == old(self).next_vertex_id,
            final(self).next_edge_id == old(self).next_edge_id,
            final(self).max_depth == old(self).max_depth,
            final(self).total_interactions == old(self).total_interactions,
    {
        let ghost g0 = *old(self);
        let v = match self.vertices.remove(&v_id) {
            Some(v) => v,
            None => {
                proof {
                    assert(g0.vertices@.remove(v_id) =~= g0.vertices@);
                }
                return None;
            },
        };
        proof {
            assert(g0.vertex_ok(v_id));
        }
        // Clear `v_id` from the futures of its past.
        let p_ids: Vec<u64> = match self.causal_past.get(&v_id) {
            Some(p_bs) => {
                proof {
                    assert(causal_set_ok(*p_bs));
                }
                Self::ids_of(p_bs)
            },
            None => Vec::new(),
        };
        proof {
            if !g0.causal_past@.contains_key(v_id) {
                assert(p_ids@.to_set().map(|x: u64| x as usize) =~= Set::<usize>::empty());
            }
        }
        Self::clear_bit_in(&mut self.causal_future, &p_ids, v_id);
        let ghost f1 = self.causal_future@;
        proof {
            assert forall|k: u64| #[trigger] g0.causal_future@.contains_key(k) implies p_ids@.contains(k)
                == g0.past(v_id).contains(k as usize) by {
                Self::lemma_ids_contains(p_ids@, g0.past(v_id), k);
            }
        }
        // Clear `v_id` from the pasts of its future.
        let f_ids: Vec<u64> = match self.causal_future.get(&v_id) {
            Some(f_bs) => {
                proof {
                    assert(causal_set_ok(*f_bs));
                }
                Self::ids_of(f_bs)
            },
            None => Vec::new(),
        };
        proof {
            if !f1.contains_key(v_id) {
                assert(f_ids@.to_set().map(|x: u64| x as usize) =~= Set::<usize>::empty());
            }
        }
        Self::clear_bit_in(&mut self.causal_past, &f_ids, v_id);
        self.causal_future.remove(&v_id);
        self.causal_past.remove(&v_id);
        self.vertex_to_edges.remove(&v_id);
        proof {
            assert forall|k: u64| #[trigger]
                self.causal_past@.contains_key(k) implies self.past(k) == (if g0.fut(v_id).contains(
                k as usize,
            ) {
                g0.past(k).remove(v_id as usize)
            } else {
                g0.past(k)
            }) by {
                assert(k != v_id);
                assert(k < g0.next_vertex_id);
                let fv1 = if f1.contains_key(v_id) {
                    bits_of(f1[v_id])
                } else {
                    Set::<usize>::empty()
                };
                assert(fv1.contains(k as usize) == g0.fut(v_id).contains(k as usize)) by {
                    assert((k as usize) != (v_id as usize));
                }
                Self::lemma_ids_contains(f_ids@, fv1, k);
            }
            assert forall|k: u64| #[trigger] self.vertices@.contains_key(k) implies self.vertex_ok(
                k,
            ) by {
                assert(g0.vertex_ok(k));
            }
            assert forall|k: u64| #[trigger]
                self.vertex_to_edges@.contains_key(k) implies ids_below(
                self.vertex_to_edges@[k]@,
                self.next_edge_id,
            ) by {
                assert(g0.vertex_to_edges@.contains_key(k));
            }
            assert forall|k: u64| #[trigger] self.hyperedges@.contains_key(k) implies self.edge_ok(
                k,
            ) by {
                assert(g0.edge_ok(k));
            }
        }
        Some(v)
    }

    proof fn lemma_ids_contains(ids: Seq<u64>, bits: Set<usize>, k: u64)
        requires
            ids.to_set().map(|x: u64| x as usize) == bits,
            forall|i: int| 0 <= i < ids.len() ==> #[trigger] ids[i] < ID_LIMIT,
            k < ID_LIMIT,
        ensures
            ids.contains(k) == bits.contains(k as usize),
    {
        if ids.contains(k) {
            assert(ids.to_set().contains(k));
            assert(ids.to_set().map(|x: u64| x as usize).contains(k as usize));
        }
        if bits.contains(k as usize) {
            let y = choose|y: u64| ids.to_set().contains(y) && y as usize == k as usize;
            let j = choose|j: int| 0 <= j < ids.len() && ids[j] == y;
            assert(ids[j] < ID_LIMIT);
        }
    }

    /// Clears bit `v_id` in the sets of `m` keyed by the ids in `ids`.
    fn clear_bit_in(m: &mut HashMap<u64, FixedBitSet>, ids: &Vec<u64>, v_id: u64)
        requires
            forall|k: u64| #[trigger]
                old(m)@.contains_key(k) ==> k < ID_LIMIT && causal_set_ok(old(m)@[k]),
            ids@.no_duplicates(),
            forall|i: int| 0 <= i < ids@.len() ==> #[trigger] ids@[i] < ID_LIMIT,
        ensures
            final(m)@.dom() == old(m)@.dom(),
            forall|k: u64| #[trigger]
                final(m)@.contains_key(k) ==> causal_set_ok(final(m)@[k]) && bits_of(final(m)@[k])
                    == (if ids@.contains(k) {
                    bits_of(old(m)@[k]).remove(v_id as usize)
                } else {
                    bits_of(old(m)@[k])
                }),
    {
        let mut t: usize = 0;
        while t < ids.len()
            invariant
                t <= ids@.len(),
                ids@.no_duplicates(),
                m@.dom() == old(m)@.dom(),
                forall|k: u64| #[trigger]
                    m@.contains_key(k) ==> causal_set_ok(m@[k]) && bits_of(m@[k]) == (
                    if ids@.subrange(0, t as int).contains(k) {
                        bits_of(old(m)@[k]).remove(v_id as usize)
                    } else {
                        bits_of(old(m)@[k])
                    }),
            decreases ids@.len() - t,
        {
            let k0 = ids[t];
            proof {
                assert(ids@.subrange(0, t + 1) == ids@.subrange(0, t as int).push(k0));
                assert(!ids@.subrange(0, t as int).contains(k0)) by {
                    if ids@.subrange(0, t as int).contains(k0) {
                        let i = choose|i: int| 0 <= i < t && ids@.subrange(0, t as int)[i] == k0;
                        assert(ids@[i] == ids@[t as int]);
                    }
                }
            }
            if let Some(mut f_bs) = m.remove(&k0) {
                if (v_id as usize) < bitset_len(&f_bs) {
                    bitset_disable(&mut f_bs, v_id as usize);
                } else {
                    proof {
                        assert(!bits_of(f_bs).contains(v_id as usize));
                        assert(bits_of(f_bs).remove(v_id as usize) =~= bits_of(f_bs));
                    }
                }
                m.insert(k0, f_bs);
            }
            proof {
                assert forall|k: u64| #[trigger]
                    m@.contains_key(k) implies causal_set_ok(m@[k]) && bits_of(m@[k]) == (
                    if ids@.subrange(0, t + 1).contains(k) {
                        bits_of(old(m)@[k]).remove(v_id as usize)
                    } else {
                        bits_of(old(m)@[k])
                    }) by {
                    crate::listops::lemma_push_contains(ids@.subrange(0, t as int), k0, k);
                }
            }
            t = t + 1;
        }
        proof {
            assert(ids@.subrange(0, ids@.len() as int) == ids@);
        }
    }

    /// Drops the vertices `ids`, with their causal sets and hyperedge lists.
    fn drop_vertices(&mut self, ids: &Vec<u64>)
        requires
            old(self).wf(),
        ensures
            final(self).wf(),
            final(self).vertices@ == old(self).vertices@.remove_keys(ids@.to_set()),
            final(self).causal_future@ == old(self).causal_future@.remove_keys(ids@.to_set()),
            final(self).causal_past@ == old(self).causal_past@.remove_keys(ids@.to_set()),
            final(self).vertex_to_edges@ == old(self).vertex_to_edges@.remove_keys(
                ids@.to_set(),
            ),
            final(self).hyperedges@ == old(self).hyperedges@,
            final(self).active_edge_ids@ == old(self).active_edge_ids@,
            final(self).max_depth == old(self).max_depth,
            final(self).total_interactions == old(self).total_interactions,
            final(self).next_vertex_id == old(self).next_vertex_id,
            final(self).next_edge_id == old(self).next_edge_id,
    {
        let ghost g0 = *old(self);
        let mut i: usize = 0;
        proof {
            assert(ids@.take(0).to_set() =~= Set::<u64>::empty());
            assert(g0.vertices@.remove_keys(Set::<u64>::empty()) =~= g0.vertices@);
            assert(g0.causal_future@.remove_keys(Set::<u64>::empty()) =~= g0.causal_future@);
            assert(g0.causal_past@.remove_keys(Set::<u64>::empty()) =~= g0.causal_past@);
            assert(g0.vertex_to_edges@.remove_keys(Set::<u64>::empty()) =~= g0.vertex_to_edges@);
        }
        while i < ids.len()
            invariant
                g0.wf(),
                i <= ids@.len(),
                self.vertices@ == g0.vertices@.remove_keys(ids@.take(i as int).to_set()),
                self.causal_future@ == g0.causal_future@.remove_keys(ids@.take(i as int).to_set()),
                self.causal_past@ == g0.causal_past@.remove_keys(ids@.take(i as int).to_set()),
                self.vertex_to_edges@ == g0.vertex_to_edges@.remove_keys(
                    ids@.take(i as int).to_set(),
                ),
                self.hyperedges@ == g0.hyperedges@,
                self.active_edge_ids@ == g0.active_edge_ids@,
                self.max_depth == g0.max_depth,
                self.total_interactions == g0.total_interactions,
                self.next_vertex_id == g0.next_vertex_id,
                self.next_edge_id == g0.next_edge_id,
            decreases ids@.len() - i,
        {
            let v = ids[i];
            self.vertices.remove(&v);
            self.causal_future.remove(&v);
            self.causal_past.remove(&v);
            self.vertex_to_edges.remove(&v);
            proof {
                assert(ids@.take(i + 1) == ids@.take(i as int).push(v));
                ids@.take(i as int).lemma_push_to_set_commute(v);
                assert(self.vertices@ =~= g0.vertices@.remove_keys(ids@.take(i + 1).to_set()));
                assert(self.causal_future@ =~= g0.causal_future@.remove_keys(
                    ids@.take(i + 1).to_set(),
                ));
                assert(self.causal_past@ =~= g0.causal_past@.remove_keys(ids@.take(i + 1).to_set()));
                assert(self.vertex_to_edges@ =~= g0.vertex_to_edges@.remove_keys(
                    ids@.take(i + 1).to_set(),
                ));
            }
            i = i + 1;
        }
        proof {
            assert(ids@.take(ids@.len() as int) == ids@);
            assert forall|k: u64| #[trigger] self.vertices@.contains_key(k) implies self.vertex_ok(
                k,
            ) by {
                assert(g0.vertex_ok(k));
            }
            assert forall|k: u64| #[trigger] self.hyperedges@.contains_key(k) implies self.edge_ok(
                k,
            ) by {
                assert(g0.edge_ok(k));
            }
            assert forall|k: u64| #[trigger]
                self.vertex_to_edges@.contains_key(k) implies ids_below(
                self.vertex_to_edges@[k]@,
                self.next_edge_id,
            ) by {
                assert(g0.vertex_to_edges@.contains_key(k));
            }
        }
    }

    /// Calls `remove_hyperedge` on each of `eids` in turn.
    fn remove_edges_in_order(&mut self, eids: &Vec<u64>)
        requires
            old(self).wf(),
        ensures
            final(self).wf(),
            removed_in_order(*old(self), *final(self), eids@),
            final(self).vertices@ == old(self).vertices@,
            final(self).causal_future@ == old(self).causal_future@,
            final(self).causal_past@ == old(self).causal_past@,
            final(self).next_vertex_id == old(self).next_vertex_id,
            final(self).next_edge_id == old(self).next_edge_id,
            final(self).max_depth == old(self).max_depth,
    {
        let ghost g0 = *old(self);
        let mut i: usize = 0;
        proof {
            assert(eids@.take(0) =~= Seq::<u64>::empty());
        }
        while i < eids.len()
            invariant
                i <= eids@.len(),
                self.wf(),
                removed_in_order(g0, *self, eids@.take(i as int)),
                self.vertices@ == g0.vertices@,
                self.causal_future@ == g0.causal_future@,
                self.causal_past@ == g0.causal_past@,
                self.next_vertex_id == g0.next_vertex_id,
                self.next_edge_id == g0.next_edge_id,
                self.max_depth == g0.max_depth,
            decreases eids@.len() - i,
        {
            let ghost before = *self;
            let r = self.remove_hyperedge(eids[i]);
            proof {
                let t = eids@.take(i + 1);
                assert(t.drop_last() == eids@.take(i as int));
                assert(t.last() == eids@[i as int]);
                assert(before.edge_removed(*self, t.last(), r));
                assert(removed_in_order(g0, before, t.drop_last()));
                assert(removed_in_order(g0, *self, t));
            }
            i = i + 1;
        }
        proof {
            assert(eids@.take(eids@.len() as int) == eids@);
        }
    }

    /// Puts the hyperedges of `removed` back, in the map's iteration order
    /// (returned): each goes into the hyperedge map, its id onto the active
    /// list and onto the list of each of its vertices (once per occurrence).
    fn restore_edges(&mut self, removed: HashMap<u64, Hyperedge>) -> (ks: Vec<u64>)
        requires
            old(self).wf(),
        ensures
            edges_fit(removed@, old(self).next_edge_id) ==> final(self).wf(),
            ks@.no_duplicates(),
            ks@.to_set() == removed@.dom(),
            final(self).hyperedges@ == old(self).hyperedges@.union_prefer_right(removed@),
            final(self).active_edge_ids@ == old(self).active_edge_ids@ + ks@.map_values(
                |k: u64| removed@[k].id,
            ),
            forall|k: u64| #[trigger]
                final(self).edge_list(k) == old(self).edge_list(k) + restored_ids(removed@, ks@, k),
            forall|k: u64| #[trigger]
                final(self).vertex_to_edges@.contains_key(k) == (old(
                    self,
                ).vertex_to_edges@.contains_key(k) || restored_ids(removed@, ks@, k).len() > 0),
            final(self).vertices@ == old(self).vertices@,
            final(self).causal_future@ == old(self).causal_future@,
            final(self).causal_past@ == old(self).causal_past@,
            final(self).max_depth == old(self).max_depth,
            final(self).total_interactions == old(self).total_interactions,
            final(self).next_vertex_id == old(self).next_vertex_id,
            final(self).next_edge_id == old(self).next_edge_id,
    {
        let ghost g0 = *old(self);
        let ghost rm = removed@;
        let ks = keys_of(&removed);
        let mut removed = removed;
        let mut t: usize = 0;
        proof {
            assert(ks@.take(0) =~= Seq::<u64>::empty());
            assert(g0.hyperedges@.union_prefer_right(rm.restrict(Set::<u64>::empty()))
                =~= g0.hyperedges@);
            assert(g0.active_edge_ids@ + ks@.take(0).map_values(|k: u64| rm[k].id)
                =~= g0.active_edge_ids@);
            assert forall|k: u64| #[trigger]
                self.edge_list(k) == g0.edge_list(k) + restored_ids(rm, ks@.take(0), k) by {
                assert(g0.edge_list(k) + Seq::<u64>::empty() =~= g0.edge_list(k));
            }
        }
        while t < ks.len()
            invariant
                g0.wf(),
                t <= ks@.len(),
                ks@.no_duplicates(),
                ks@.to_set() == rm.dom(),
                removed@ == rm.remove_keys(ks@.take(t as int).to_set()),
                self.hyperedges@ == g0.hyperedges@.union_prefer_right(
                    rm.restrict(ks@.take(t as int).to_set()),
                ),
                self.active_edge_ids@ == g0.active_edge_ids@ + ks@.take(t as int).map_values(
                    |k: u64| rm[k].id,
                ),
                forall|k: u64| #[trigger]
                    self.edge_list(k) == g0.edge_list(k) + restored_ids(rm, ks@.take(t as int), k),
                forall|k: u64| #[trigger]
                    self.vertex_to_edges@.contains_key(k) == (g0.vertex_to_edges@.contains_key(k)
                        || restored_ids(rm, ks@.take(t as int), k).len() > 0),
                self.vertices@ == g0.vertices@,
                self.causal_future@ == g0.causal_future@,
                self.causal_past@ == g0.causal_past@,
                self.max_depth == g0.max_depth,
                self.total_interactions == g0.total_interactions,
                self.next_vertex_id == g0.next_vertex_id,
                self.next_edge_id == g0.next_edge_id,
            decreases ks@.len() - t,
        {
            let eid = ks[t];
            let ghost kt = ks@.take(t as int);
            let ghost start = *self;
            proof {
                assert(ks@.take(t + 1) == kt.push(eid));
                assert(ks@.to_set().contains(eid));
                assert(!kt.contains(eid)) by {
                    if kt.contains(eid) {
                        let i = choose|i: int| 0 <= i < kt.len() && kt[i] == eid;
                        assert(ks@[i] == ks@[t as int]);
                    }
                }
                assert(!kt.to_set().contains(eid));
                assert(removed@.contains_key(eid));
            }
            match removed.remove(&eid) {
                Some(e) => {
                    let vs = copy_ids(&e.vertices);
                    let ghost vsq = vs@;
                    let e_id = e.id;
                    self.hyperedges.insert(eid, e);
                    self.active_edge_ids.push(e_id);
                    let ghost mid = *self;
                    let mut q: usize = 0;
                    proof {
                        assert(vsq.take(0) =~= Seq::<u64>::empty());
                        assert forall|k: u64| #[trigger]
                            self.edge_list(k) == mid.edge_list(k) + repeat_id(
                                eid,
                                count_of(vsq.take(0), k),
                            ) by {
                            assert(vsq.take(0).filter(crate::hypergraph::equals(k))
                                =~= Seq::<u64>::empty());
                            assert(mid.edge_list(k) + repeat_id(eid, 0) =~= mid.edge_list(k));
                        }
                        assert(vsq.take(0).to_set() =~= Set::<u64>::empty());
                    }
                    while q < vs.len()
                        invariant
                            q <= vsq.len(),
                            vs@ == vsq,
                            self.hyperedges@ == mid.hyperedges@,
                            self.active_edge_ids@ == mid.active_edge_ids@,
                            self.vertices@ == mid.vertices@,
                            self.causal_future@ == mid.causal_future@,
                            self.causal_past@ == mid.causal_past@,
                            self.max_depth == mid.max_depth,
                            self.total_interactions == mid.total_interactions,
                            self.next_vertex_id == mid.next_vertex_id,
                            self.next_edge_id == mid.next_edge_id,
                            forall|k: u64| #[trigger]
                                self.edge_list(k) == mid.edge_list(k) + repeat_id(
                                    eid,
                                    count_of(vsq.take(q as int), k),
                                ),
                            forall|k: u64| #[trigger]
                                self.vertex_to_edges@.contains_key(k) == (
                                mid.vertex_to_edges@.contains_key(k) || vsq.take(
                                    q as int,
                                ).contains(k)),
                        decreases vsq.len() - q,
                    {
                        let v = vs[q];
                        let ghost before = *self;
                        let mut list = match self.vertex_to_edges.remove(&v) {
                            Some(l) => l,
                            None => Vec::new(),
                        };
                        proof {
                            assert(list@ == before.edge_list(v));
                        }
                        list.push(eid);
                        self.vertex_to_edges.insert(v, list);
                        proof {
                            assert(vsq.take(q + 1) == vsq.take(q as int).push(v));
                            assert forall|k: u64| #[trigger]
                                self.edge_list(k) == mid.edge_list(k) + repeat_id(
                                    eid,
                                    count_of(vsq.take(q + 1), k),
                                ) by {
                                vsq.take(q as int).lemma_filter_push(v, crate::hypergraph::equals(k));
                                if k == v {
                                    assert(self.edge_list(k) == before.edge_list(k).push(eid));
                                    assert(repeat_id(eid, count_of(vsq.take(q as int), k)).push(eid)
                                        =~= repeat_id(eid, count_of(vsq.take(q + 1), k)));
                                    assert(mid.edge_list(k) + repeat_id(
                                        eid,
                                        count_of(vsq.take(q as int), k),
                                    ).push(eid) =~= (mid.edge_list(k) + repeat_id(
                                        eid,
                                        count_of(vsq.take(q as int), k),
                                    )).push(eid));
                                } else {
                                    if self.vertex_to_edges@.contains_key(k) {
                                        assert(self.vertex_to_edges@[k]
                                            == before.vertex_to_edges@[k]);
                                    }
                                    assert(self.edge_list(k) == before.edge_list(k));
                                    assert(count_of(vsq.take(q + 1), k) == count_of(
                                        vsq.take(q as int),
                                        k,
                                    ));
                                }
                            }
                            assert forall|k: u64| #[trigger]
                                self.vertex_to_edges@.contains_key(k) == (
                                mid.vertex_to_edges@.contains_key(k) || vsq.take(
                                    q + 1,
                                ).contains(k)) by {
                                crate::listops::lemma_push_contains(vsq.take(q as int), v, k);
                            }
                        }
                        q = q + 1;
                    }
                    proof {
                        assert(vsq.take(vsq.len() as int) == vsq);
                        assert(rm[eid].vertices@ == vsq);
                        let kt1 = ks@.take(t + 1);
                        assert(kt1.drop_last() == kt);
                        assert forall|k: u64| #[trigger]
                            self.edge_list(k) == g0.edge_list(k) + restored_ids(rm, kt1, k) by {
                            assert(start.edge_list(k) == g0.edge_list(k) + restored_ids(rm, kt, k));
                            assert(mid.edge_list(k) == start.edge_list(k));
                            assert(self.edge_list(k) == mid.edge_list(k) + repeat_id(
                                eid,
                                count_of(vsq.take(vsq.len() as int), k),
                            ));
                            assert(restored_ids(rm, kt1, k) == restored_ids(rm, kt, k) + repeat_id(
                                eid,
                                count_of(rm[eid].vertices@, k),
                            ));
                            assert(g0.edge_list(k) + restored_ids(rm, kt, k) + repeat_id(
                                eid,
                                count_of(vsq, k),
                            ) =~= g0.edge_list(k) + (restored_ids(rm, kt, k) + repeat_id(
                                eid,
                                count_of(vsq, k),
                            )));
                        }
                        assert forall|k: u64| #[trigger]
                            self.vertex_to_edges@.contains_key(k) == (
                            g0.vertex_to_edges@.contains_key(k) || restored_ids(
                                rm,
                                kt1,
                                k,
                            ).len() > 0) by {
                            assert(restored_ids(rm, kt1, k).len() == restored_ids(rm, kt, k).len()
                                + count_of(vsq, k));
                            assert(start.vertex_to_edges@.contains_key(k) == (
                            g0.vertex_to_edges@.contains_key(k) || restored_ids(
                                rm,
                                kt,
                                k,
                            ).len() > 0));
                            assert(mid.vertex_to_edges@ == start.vertex_to_edges@);
                            if vsq.contains(k) {
                                let i = choose|i: int| 0 <= i < vsq.len() && vsq[i] == k;
                                vsq.lemma_filter_contains(crate::hypergraph::equals(k), i);
                            } else {
                                assert forall|i: int| 0 <= i < vsq.len() implies !#[trigger] crate::hypergraph::equals(
                                    k,
                                )(vsq[i]) by {
                                    if vsq[i] == k {
                                        assert(vsq.contains(k));
                                    }
                                }
                                crate::listops::lemma_filter_none_pass(
                                    vsq,
                                    crate::hypergraph::equals(k),
                                );
                            }
                        }
                    }
                },
                None => {},
            }
            proof {
                let kt1 = ks@.take(t + 1);
                kt.lemma_push_to_set_commute(eid);
                assert(removed@ =~= rm.remove_keys(kt1.to_set()));
                assert(self.hyperedges@ =~= g0.hyperedges@.union_prefer_right(
                    rm.restrict(kt1.to_set()),
                ));
                assert(kt1.map_values(|k: u64| rm[k].id) =~= kt.map_values(|k: u64| rm[k].id).push(
                    rm[eid].id,
                ));
                assert(self.active_edge_ids@ =~= g0.active_edge_ids@ + kt1.map_values(
                    |k: u64| rm[k].id,
                ));
            }
            t = t + 1;
        }
        proof {
            assert(ks@.take(ks@.len() as int) == ks@);
            assert(rm.restrict(ks@.to_set()) =~= rm);
            if edges_fit(rm, g0.next_edge_id) {
                self.lemma_restored_wf(g0, rm, ks@);
            }
        }
        ks
    }

    /// Well-formedness after `restore_edges`, when the restored hyperedges
    /// are keyed by their own ids below the edge counter.
    proof fn lemma_restored_wf(self, g0: Hypergraph, rm: Map<u64, Hyperedge>, ks: Seq<u64>)
        requires
            g0.wf(),
            edges_fit(rm, g0.next_edge_id),
            ks.to_set() == rm.dom(),
            self.hyperedges@ == g0.hyperedges@.union_prefer_right(rm),
            self.active_edge_ids@ == g0.active_edge_ids@ + ks.map_values(|k: u64| rm[k].id),
            forall|k: u64| #[trigger] self.edge_list(k) == g0.edge_list(k) + restored_ids(rm, ks, k),
            self.vertices@ == g0.vertices@,
            self.causal_future@ == g0.causal_future@,
            self.causal_past@ == g0.causal_past@,
            self.next_vertex_id == g0.next_vertex_id,
            self.next_edge_id == g0.next_edge_id,
        ensures
            self.wf(),
    {
        {
            assert forall|i: int| 0 <= i < self.active_edge_ids@.len() implies #[trigger] self.active_edge_ids@[i]
                < self.next_edge_id by {
                let a0 = g0.active_edge_ids@;
                if i < a0.len() {
                    assert(self.active_edge_ids@[i] == a0[i]);
                } else {
                    assert(self.active_edge_ids@[i] == rm[ks[i - a0.len()]].id);
                    assert(ks.to_set().contains(ks[i - a0.len()]));
                }
            }
            assert forall|k: u64| #[trigger] self.vertices@.contains_key(k) implies self.vertex_ok(
                k,
            ) by {
                assert(g0.vertex_ok(k));
            }
            assert forall|k: u64| #[trigger] self.hyperedges@.contains_key(k) implies self.edge_ok(
                k,
            ) by {
                if !rm.contains_key(k) {
                    assert(g0.edge_ok(k));
                }
            }
            assert forall|k: u64| #[trigger]
                self.vertex_to_edges@.contains_key(k) implies ids_below(
                self.vertex_to_edges@[k]@,
                self.next_edge_id,
            ) by {
                assert(self.vertex_to_edges@[k]@ == self.edge_list(k));
                lemma_restored_below(rm, ks, k, g0.next_edge_id);
                let l0 = g0.edge_list(k);
                assert(ids_below(l0, g0.next_edge_id)) by {
                    if g0.vertex_to_edges@.contains_key(k) {
                        assert(ids_below(g0.vertex_to_edges@[k]@, g0.next_edge_id));
                    }
                }
                let all = l0 + restored_ids(rm, ks, k);
                assert forall|i: int| 0 <= i < all.len() implies #[trigger] all[i] < g0.next_edge_id by {
                    if i < l0.len() {
                        assert(all[i] == l0[i]);
                    } else {
                        assert(all[i] == restored_ids(rm, ks, k)[i - l0.len()]);
                    }
                }
            }
        }
    }

    /// Replaces, for each vertex present whose id `links` holds, its parent
    /// list (when `parents`) or its child list by the one in `links`.
    fn replace_links(vm: &mut HashMap<u64, Vertex>, links: HashMap<u64, Vec<u64>>, parents: bool)
        ensures
            links_restored(
                old(vm)@,
                final(vm)@,
                if parents {
                    links@
                } else {
                    Map::empty()
                },
                if parents {
                    Map::empty()
                } else {
                    links@
                },
            ),
    {
        let ghost b0 = vm@;
        let ghost l0 = links@;
        let ks = keys_of(&links);
        let mut links = links;
        let mut t: usize = 0;
        proof {
            assert(ks@.take(0).to_set() =~= Set::<u64>::empty());
            assert(l0.remove_keys(Set::<u64>::empty()) =~= l0);
            assert(l0.restrict(Set::<u64>::empty()) =~= Map::<u64, Vec<u64>>::empty());
        }
        while t < ks.len()
            invariant
                t <= ks@.len(),
                ks@.no_duplicates(),
                ks@.to_set() == l0.dom(),
                links@ == l0.remove_keys(ks@.take(t as int).to_set()),
                links_restored(
                    b0,
                    vm@,
                    if parents {
                        l0.restrict(ks@.take(t as int).to_set())
                    } else {
                        Map::empty()
                    },
                    if parents {
                        Map::empty()
                    } else {
                        l0.restrict(ks@.take(t as int).to_set())
                    },
                ),
            decreases ks@.len() - t,
        {
            let k = ks[t];
            let ghost before = vm@;
            proof {
                lemma_fresh_at(ks@, t as int);
                assert(ks@.to_set().contains(k));
            }
            match links.remove(&k) {
                Some(l) => {
                    if let Some(mut v) = vm.remove(&k) {
                        if parents {
                            v.parents = l;
                        } else {
                            v.children = l;
                        }
                        vm.insert(k, v);
                    }
                },
                None => {},
            }
            proof {
                let kt = ks@.take(t as int);
                let kt1 = ks@.take(t + 1);
                assert(links@ =~= l0.remove_keys(kt1.to_set()));
                assert(vm@.dom() =~= b0.dom());
                let r0 = l0.restrict(kt.to_set());
                let r1 = l0.restrict(kt1.to_set());
                assert forall|j: u64| #[trigger] vm@.contains_key(j) implies {
                    &&& vm@[j].id == b0[j].id
                    &&& vm@[j].depth == b0[j].depth
                    &&& vm@[j].label == b0[j].label
                    &&& vm@[j].parents@ == (if parents && r1.contains_key(j) {
                        r1[j]@
                    } else {
                        b0[j].parents@
                    })
                    &&& vm@[j].children@ == (if !parents && r1.contains_key(j) {
                        r1[j]@
                    } else {
                        b0[j].children@
                    })
                } by {
                    assert(before.contains_key(j));
                    if j != k {
                        assert(r1.contains_key(j) == r0.contains_key(j));
                    }
                }
                let e = Map::<u64, Vec<u64>>::empty();
                if parents {
                    assert(links_restored(b0, vm@, r1, e));
                } else {
                    assert(links_restored(b0, vm@, e, r1));
                }
            }
            t = t + 1;
        }
        proof {
            assert(ks@.take(ks@.len() as int) == ks@);
            assert(l0.restrict(ks@.to_set()) =~= l0);
        }
    }

    /// Rolls a rewrite back from its record: drops the added vertices (with
    /// their causal sets and hyperedge lists), removes the added hyperedges
    /// in order, puts the removed hyperedges back (in the map's iteration
    /// order) and the removed vertex, overwrites the recorded causal sets and
    /// vertices, restores the recorded parent and child lists of the vertices
    /// present and the recorded interaction count and longest worldline.
    pub fn execute_undo_record(&mut self, record: UndoRecord)
        requires
            old(self).wf(),
        ensures
            undo_applied(*old(self), *final(self), record),
            record.fits(*old(self)) ==> final(self).wf(),
    {
        let ghost g0 = *old(self);
        let ghost rec = record;
        let UndoRecord {
            target: _,
            added_vertices,
            added_edges,
            added_causal: _,
            removed_vertex,
            kept_vertex: _,
            removed_edges,
            old_causal_future,
            old_causal_past,
            old_parents,
            old_children,
            old_total_interactions,
            old_vertices,
            old_max_depth,
        } = record;
        self.drop_vertices(&added_vertices);
        let ghost g1 = *self;
        self.remove_edges_in_order(&added_edges);
        let ghost g2 = *self;
        let ks = self.restore_edges(removed_edges);
        let ghost g3 = *self;
        if let Some(v) = removed_vertex {
            self.vertices.insert(v.id, v);
        }
        overwrite_entries(&mut self.causal_future, old_causal_future);
        overwrite_entries(&mut self.causal_past, old_causal_past);
        overwrite_entries(&mut self.vertices, old_vertices);
        let ghost vm_base = self.vertices@;
        Self::replace_links(&mut self.vertices, old_parents, true);
        let ghost vm_mid = self.vertices@;
        Self::replace_links(&mut self.vertices, old_children, false);
        if let Some(total) = old_total_interactions {
            self.total_interactions = total;
        }
        if let Some(depth) = old_max_depth {
            self.max_depth = depth;
        }
        proof {
            let base = match rec.removed_vertex {
                Some(v) => g2.vertices@.insert(v.id, v),
                None => g2.vertices@,
            }.union_prefer_right(rec.old_vertices@);
            assert(vm_base == base);
            assert(links_restored(base, self.vertices@, rec.old_parents@, rec.old_children@));
            assert(vertices_dropped(g0, g1, rec.added_vertices@.to_set()));
            let rm = rec.removed_edges@;
            assert(ks@.no_duplicates());
            assert(ks@.to_set() == rm.dom());
            assert(self.hyperedges@ == g2.hyperedges@.union_prefer_right(rm));
            assert(self.active_edge_ids@ == g2.active_edge_ids@ + ks@.map_values(|k: u64| rm[k].id));
            assert(self.vertex_to_edges@ == g3.vertex_to_edges@);
            assert forall|k: u64| #[trigger] self.edge_list(k) == g2.edge_list(k) + restored_ids(rm, ks@, k) by {
                assert(self.edge_list(k) == g3.edge_list(k));
            }
            assert(self.causal_future@ == g2.causal_future@.union_prefer_right(rec.old_causal_future@));
            assert(self.causal_past@ == g2.causal_past@.union_prefer_right(rec.old_causal_past@));
            assert(undo_restored(g2, *self, rec, ks@));
            if rec.fits(g0) {
                self.lemma_undo_wf(g3, rec);
            }
        }
    }

    /// Well-formedness after an undo whose record fits.
    proof fn lemma_undo_wf(self, g3: Hypergraph, rec: UndoRecord)
        requires
            g3.wf(),
            rec.fits(g3),
            self.hyperedges@ == g3.hyperedges@,
            self.active_edge_ids@ == g3.active_edge_ids@,
            self.vertex_to_edges@ == g3.vertex_to_edges@,
            self.next_vertex_id == g3.next_vertex_id,
            self.next_edge_id == g3.next_edge_id,
            self.causal_future@ == g3.causal_future@.union_prefer_right(rec.old_causal_future@),
            self.causal_past@ == g3.causal_past@.union_prefer_right(rec.old_causal_past@),
            links_restored(
                match rec.removed_vertex {
                    Some(v) => g3.vertices@.insert(v.id, v),
                    None => g3.vertices@,
                }.union_prefer_right(rec.old_vertices@),
                self.vertices@,
                rec.old_parents@,
                rec.old_children@,
            ),
        ensures
            self.wf(),
    {
        let base = match rec.removed_vertex {
            Some(v) => g3.vertices@.insert(v.id, v),
            None => g3.vertices@,
        }.union_prefer_right(rec.old_vertices@);
        assert forall|k: u64| #[trigger] self.vertices@.contains_key(k) implies self.vertex_ok(k) by {
            assert(base.contains_key(k));
            if rec.old_vertices@.contains_key(k) {
            } else {
            match rec.removed_vertex {
                Some(v) => {
                    if k != v.id {
                        assert(g3.vertex_ok(k));
                    }
                },
                None => {
                    assert(g3.vertex_ok(k));
                },
            }
            }
            if rec.old_parents@.contains_key(k) {
                assert(ids_below(rec.old_parents@[k]@, self.next_vertex_id));
            }
            if rec.old_children@.contains_key(k) {
                assert(ids_below(rec.old_children@[k]@, self.next_vertex_id));
            }
        }
        assert forall|k: u64| #[trigger]
            self.causal_future@.contains_key(k) implies k < self.next_vertex_id && causal_set_ok(
            self.causal_future@[k],
        ) by {
            if !rec.old_causal_future@.contains_key(k) {
                assert(g3.causal_future@.contains_key(k));
            }
        }
        assert forall|k: u64| #[trigger]
            self.causal_past@.contains_key(k) implies k < self.next_vertex_id && causal_set_ok(
            self.causal_past@[k],
        ) by {
            if !rec.old_causal_past@.contains_key(k) {
                assert(g3.causal_past@.contains_key(k));
            }
        }
        assert forall|k: u64| #[trigger] self.hyperedges@.contains_key(k) implies self.edge_ok(k) by {
            assert(g3.edge_ok(k));
        }
        assert forall|k: u64| #[trigger]
            self.vertex_to_edges@.contains_key(k) implies ids_below(
            self.vertex_to_edges@[k]@,
            self.next_edge_id,
        ) by {
            assert(g3.vertex_to_edges@.contains_key(k));
        }
    }

    // ---------- Observables ----------

    /// The sum of the coordination numbers of the vertices of `ks`.
    pub open spec fn coordination_sum(self, ks: Seq<u64>) -> nat
        decreases ks.len(),
    {
        if ks.len() == 0 {
            0
        } else {
            self.coordination_sum(ks.drop_last()) + self.edge_list(ks.last()).len()
        }
    }

    /// The sum of the coordination numbers over every vertex: the numerator
    /// of the average coordination number <k>, whose denominator is the
    /// number of vertices.
    pub fn total_coordination(&self) -> (r: u128)
        ensures
            exists|ks: Seq<u64>|
                #![trigger self.coordination_sum(ks)]
                ks.no_duplicates() && ks.to_set() == self.vertices@.dom() && r as nat
                    == self.coordination_sum(ks),
    {
        let ks = keys_of(&self.vertices);
        let mut total: u128 = 0;
        let mut i: usize = 0;
        while i < ks.len()
            invariant
                i <= ks@.len(),
                total as nat == self.coordination_sum(ks@.take(i as int)),
                total <= i * (usize::MAX as int),
            decreases ks@.len() - i,
        {
            let d = self.coordination_number(ks[i]);
            proof {
                assert(ks@.take(i + 1).drop_last() == ks@.take(i as int));
                assert(ks@.take(i + 1).last() == ks@[i as int]);
                let m: int = usize::MAX as int;
                assert(total + d <= (i + 1) * m) by (nonlinear_arith)
                    requires
                        total <= i * m,
                        d <= m,
                ;
                assert((i + 1) * m <= m * m) by (nonlinear_arith)
                    requires
                        i + 1 <= m,
                        0 <= m,
                ;
                assert(m * m < 0x1_0000_0000_0000_0000_0000_0000_0000_0000) by (nonlinear_arith)
                    requires
                        m == usize::MAX as int,
                        m < 0x1_0000_0000_0000_0000,
                ;
            }
            total = total + d as u128;
            i = i + 1;
        }
        proof {
            assert(ks@.take(ks@.len() as int) == ks@);
        }
        total
    }

    /// The number of hyperedge ids listed for `v_id`.
    pub fn coordination_number(&self, v_id: u64) -> (r: usize)
        ensures
            r as nat == self.edge_list(v_id).len(),
    {
        match self.vertex_to_edges.get(&v_id) {
            Some(edges) => edges.len(),
            None => 0,
        }
    }

    /// The hyperedge ids listed for `v_id`.
    pub fn edges_containing(&self, v_id: u64) -> (r: Vec<u64>)
        ensures
            r@ == self.edge_list(v_id),
    {
        match self.vertex_to_edges.get(&v_id) {
            Some(edges) => copy_ids(edges),
            None => Vec::new(),
        }
    }

    /// The length of the longest worldline: the largest depth of a vertex,
    /// one when there is no vertex.
    pub open spec fn longest_worldline(self) -> usize {
        if self.vertices@.dom().len() == 0 {
            1
        } else {
            choose|d: usize| #[trigger] self.is_largest_depth(d)
        }
    }

    /// `d` is the depth of some vertex and no vertex is deeper.
    pub open spec fn is_largest_depth(self, d: usize) -> bool {
        &&& exists|k: u64| #[trigger] self.vertices@.contains_key(k) && self.vertices@[k].depth == d
        &&& forall|k: u64| #[trigger] self.vertices@.contains_key(k) ==> self.vertices@[k].depth <= d
    }

    /// The length of the longest worldline: the largest depth of a vertex,
    /// one when there is no vertex.
    pub fn max_chain_length(&self) -> (r: usize)
        ensures
            r == self.longest_worldline(),
            self.vertices@.dom().len() == 0 ==> r == 1,
            self.vertices@.dom().len() > 0 ==> exists|k: u64| #[trigger]
                self.vertices@.contains_key(k) && self.vertices@[k].depth == r,
            forall|k: u64| #[trigger] self.vertices@.contains_key(k) ==> self.vertices@[k].depth <= r,
    {
        let ks = keys_of(&self.vertices);
        if ks.len() == 0 {
            proof {
                assert forall|k: u64| !#[trigger] self.vertices@.contains_key(k) by {
                    if self.vertices@.contains_key(k) {
                        assert(ks@.to_set().contains(k));
                    }
                }
            }
            return 1;
        }
        let mut best: usize = 0;
        let mut i: usize = 0;
        while i < ks.len()
            invariant
                i <= ks@.len(),
                ks@.len() > 0,
                ks@.to_set() == self.vertices@.dom(),
                i > 0 ==> exists|t: int| 0 <= t < i && self.vertices@[#[trigger] ks@[t]].depth == best,
                forall|t: int| 0 <= t < i ==> self.vertices@[#[trigger] ks@[t]].depth <= best,
            decreases ks@.len() - i,
        {
            let k = ks[i];
            proof {
                assert(ks@.to_set().contains(k));
            }
            let d: usize = match self.vertices.get(&k) {
                Some(v) => v.depth,
                None => 0,
            };
            if i == 0 || d > best {
                best = d;
            }
            proof {
                assert(self.vertices@[ks@[i as int]].depth == d);
            }
            i = i + 1;
        }
        proof {
            let t = choose|t: int| 0 <= t < ks@.len() && self.vertices@[#[trigger] ks@[t]].depth == best;
            assert(ks@.to_set().contains(ks@[t]));
            assert forall|k: u64| #[trigger] self.vertices@.contains_key(k) implies self.vertices@[k].depth
                <= best by {
                assert(ks@.to_set().contains(k));
                let t = choose|t: int| 0 <= t < ks@.len() && ks@[t] == k;
                assert(self.vertices@[ks@[t]].depth <= best);
            }
            assert(self.vertices@.dom().len() > 0) by {
                assert(self.vertices@.dom().contains(ks@[t]));
                assert(self.vertices@.dom().finite()) by {
                    vstd::std_specs::hash::axiom_hashmap_view_finite_dom(self.vertices);
                }
            }
            assert(self.is_largest_depth(best));
            let d = self.longest_worldline();
            assert(self.is_largest_depth(d));
            let k1 = choose|k: u64| #[trigger] self.vertices@.contains_key(k) && self.vertices@[k].depth == d;
            assert(self.vertices@[k1].depth <= best);
            assert(self.vertices@[ks@[t]].depth <= d);
        }
        best
    }
}

} // verus!
