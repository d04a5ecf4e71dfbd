//! Small verified operations on id lists and id-keyed maps.
use std::collections::HashMap;
use vstd::prelude::*;
use vstd::std_specs::iter::IteratorSpec;

verus! {

/// Every key of `m`, each once, in the map's iteration order.
pub fn keys_of<V>(m: &HashMap<u64, V>) -> (r: Vec<u64>)
    ensures
        r@.to_set() == m@.dom(),
        r@.no_duplicates(),
        r@.len() == m@.dom().len(),
{
    let mut r: Vec<u64> = Vec::new();
    let ghost all = vstd::std_specs::hash::spec_keys_iter(m).remaining();
    for k in it: m.keys()
        invariant
            it.seq() == all,
            r@.len() == it.index(),
            forall|i: int| 0 <= i < r@.len() ==> r@[i] == *all[i],
    {
        r.push(*k);
    }
    proof {
        assert(r@ =~= all.unref());
    }
    r
}

/// Whether `x` occurs in `v`.
pub fn vec_contains(v: &Vec<u64>, x: u64) -> (r: bool)
    ensures
        r == v@.contains(x),
{
    let mut i: usize = 0;
    while i < v.len()
        invariant
            i <= v@.len(),
            forall|j: int| 0 <= j < i ==> v@[j] != x,
        decreases v@.len() - i,
    {
        if v[i] == x {
            return true;
        }
        i = i + 1;
    }
    false
}

/// The first position of `x` in `v`, if any.
pub fn vec_position(v: &Vec<u64>, x: u64) -> (r: Option<usize>)
    ensures
        r is None <==> !v@.contains(x),
        r matches Some(p) ==> p < v@.len() && v@[p as int] == x && forall|j: int|
            0 <= j < p ==> v@[j] != x,
{
    let mut i: usize = 0;
    while i < v.len()
        invariant
            i <= v@.len(),
            forall|j: int| 0 <= j < i ==> v@[j] != x,
        decreases v@.len() - i,
    {
        if v[i] == x {
            return Some(i);
        }
        i = i + 1;
    }
    None
}

/// The predicate "differs from `x`".
pub open spec fn differs_from(x: u64) -> spec_fn(u64) -> bool {
    |y: u64| y != x
}

/// The elements of `v` other than `x`, in order.
pub fn vec_without(v: &Vec<u64>, x: u64) -> (r: Vec<u64>)
    ensures
        r@ == v@.filter(differs_from(x)),
{
    let mut r: Vec<u64> = Vec::new();
    let mut i: usize = 0;
    while i < v.len()
        invariant
            i <= v@.len(),
            r@ == v@.subrange(0, i as int).filter(differs_from(x)),
        decreases v@.len() - i,
    {
        proof {
            assert(v@.subrange(0, i + 1) == v@.subrange(0, i as int).push(v@[i as int]));
            v@.subrange(0, i as int).lemma_filter_push(v@[i as int], differs_from(x));
        }
        if v[i] != x {
            r.push(v[i]);
        }
        i = i + 1;
    }
    proof {
        assert(v@.subrange(0, v@.len() as int) == v@);
    }
    r
}

/// `ks` holds no repeat, so its element at `t` is not among the first `t`.
pub proof fn lemma_fresh_at(ks: Seq<u64>, t: int)
    requires
        ks.no_duplicates(),
        0 <= t < ks.len(),
    ensures
        !ks.take(t).contains(ks[t]),
        !ks.take(t).to_set().contains(ks[t]),
        ks.take(t + 1) == ks.take(t).push(ks[t]),
        ks.take(t + 1).to_set() == ks.take(t).to_set().insert(ks[t]),
{
    let kt = ks.take(t);
    if kt.contains(ks[t]) {
        let i = choose|i: int| 0 <= i < kt.len() && kt[i] == ks[t];
        assert(ks[i] == ks[t]);
    }
    assert(ks.take(t + 1) =~= kt.push(ks[t]));
    kt.lemma_push_to_set_commute(ks[t]);
}

/// Puts every entry of `src` into `dst`, replacing what `dst` held under
/// the same key.
pub fn overwrite_entries<V>(dst: &mut HashMap<u64, V>, src: HashMap<u64, V>)
    ensures
        final(dst)@ == old(dst)@.union_prefer_right(src@),
{
    let ghost d0 = dst@;
    let ghost s0 = src@;
    let ks = keys_of(&src);
    let mut src = src;
    let mut t: usize = 0;
    proof {
        assert(ks@.take(0).to_set() =~= Set::<u64>::empty());
        assert(s0.remove_keys(Set::<u64>::empty()) =~= s0);
        assert(d0.union_prefer_right(s0.restrict(Set::<u64>::empty())) =~= d0);
    }
    while t < ks.len()
        invariant
            t <= ks@.len(),
            ks@.no_duplicates(),
            ks@.to_set() == s0.dom(),
            src@ == s0.remove_keys(ks@.take(t as int).to_set()),
            dst@ == d0.union_prefer_right(s0.restrict(ks@.take(t as int).to_set())),
        decreases ks@.len() - t,
    {
        let k = ks[t];
        proof {
            lemma_fresh_at(ks@, t as int);
            assert(ks@.to_set().contains(k));
        }
        match src.remove(&k) {
            Some(x) => {
                dst.insert(k, x);
            },
            None => {},
        }
        proof {
            let kt1 = ks@.take(t + 1);
            assert(src@ =~= s0.remove_keys(kt1.to_set()));
            assert(dst@ =~= d0.union_prefer_right(s0.restrict(kt1.to_set())));
        }
        t = t + 1;
    }
    proof {
        assert(ks@.take(ks@.len() as int) == ks@);
        assert(s0.restrict(ks@.to_set()) =~= s0);
    }
}

/// A copy of `v`.
pub fn copy_ids(v: &Vec<u64>) -> (r: Vec<u64>)
    ensures
        r@ == v@,
{
    let r = v.clone();
    proof {
        assert(r@ =~= v@);
    }
    r
}

} // verus!

verus! {

/// An element of `s.push(x)` is `x` or an element of `s`.
pub proof fn lemma_push_contains<A>(s: Seq<A>, x: A, k: A)
    ensures
        s.push(x).contains(k) == (s.contains(k) || k == x),
{
    if s.push(x).contains(k) {
        let i = choose|i: int| 0 <= i < s.push(x).len() && s.push(x)[i] == k;
        if i < s.len() {
            assert(s[i] == k);
        }
    }
    if s.contains(k) {
        let i = choose|i: int| 0 <= i < s.len() && s[i] == k;
        assert(s.push(x)[i] == k);
    }
    if k == x {
        assert(s.push(x)[s.len() as int] == k);
    }
}

} // verus!

verus! {

/// Filtering keeps only elements of the original sequence.
pub proof fn lemma_filter_subset(s: Seq<u64>, p: spec_fn(u64) -> bool)
    ensures
        forall|i: int|
            0 <= i < s.filter(p).len() ==> s.contains(#[trigger] s.filter(p)[i]) && p(
                s.filter(p)[i],
            ),
{
    assert forall|i: int| 0 <= i < s.filter(p).len() implies s.contains(
        #[trigger] s.filter(p)[i],
    ) && p(s.filter(p)[i]) by {
        s.lemma_filter_pred(p, i);
        assert(s.filter(p).contains(s.filter(p)[i]));
        s.lemma_filter_contains_rev(p, s.filter(p)[i]);
    }
}

/// Filtering a sequence all of whose elements pass leaves it unchanged.
pub proof fn lemma_filter_all_pass(s: Seq<u64>, p: spec_fn(u64) -> bool)
    requires
        forall|i: int| 0 <= i < s.len() ==> #[trigger] p(s[i]),
    ensures
        s.filter(p) == s,
    decreases s.len(),
{
    reveal(Seq::filter);
    if s.len() > 0 {
        lemma_filter_all_pass(s.drop_last(), p);
        assert(p(s[s.len() - 1]));
        assert(s.drop_last().push(s.last()) =~= s);
    }
}

/// Filtering a sequence no element of which passes leaves nothing.
pub proof fn lemma_filter_none_pass(s: Seq<u64>, p: spec_fn(u64) -> bool)
    requires
        forall|i: int| 0 <= i < s.len() ==> !#[trigger] p(s[i]),
    ensures
        s.filter(p) == Seq::<u64>::empty(),
    decreases s.len(),
{
    reveal(Seq::filter);
    if s.len() > 0 {
        lemma_filter_none_pass(s.drop_last(), p);
        assert(!p(s[s.len() - 1]));
    }
}

/// Filtering twice by the same predicate is filtering once.
pub proof fn lemma_filter_idempotent(s: Seq<u64>, p: spec_fn(u64) -> bool)
    ensures
        s.filter(p).filter(p) == s.filter(p),
{
    lemma_filter_subset(s, p);
    lemma_filter_all_pass(s.filter(p), p);
}

} // verus!

verus! {

/// Counting the elements of a list without repeats that pass `p` counts
/// the elements of its set that pass `p`.
pub proof fn lemma_filter_card<A>(s: Seq<A>, p: spec_fn(A) -> bool)
    requires
        s.no_duplicates(),
    ensures
        s.filter(p).len() == s.to_set().filter(p).len(),
        s.to_set().filter(p).finite(),
    decreases s.len(),
{
    if s.len() == 0 {
        assert(s.to_set().filter(p) =~= Set::<A>::empty());
    } else {
        let t = s.drop_last();
        let x = s.last();
        assert(s == t.push(x));
        assert(t.no_duplicates()) by {
            assert forall|i: int, j: int| 0 <= i < t.len() && 0 <= j < t.len() && i != j implies t[i]
                != t[j] by {
                assert(s[i] == t[i] && s[j] == t[j]);
            }
        }
        lemma_filter_card(t, p);
        t.lemma_filter_push(x, p);
        t.lemma_push_to_set_commute(x);
        assert(!t.to_set().contains(x)) by {
            if t.contains(x) {
                let i = choose|i: int| 0 <= i < t.len() && t[i] == x;
                assert(s[i] == s[s.len() - 1]);
            }
        }
        if p(x) {
            assert(s.to_set().filter(p) =~= t.to_set().filter(p).insert(x));
        } else {
            assert(s.to_set().filter(p) =~= t.to_set().filter(p));
        }
    }
}

/// Every element of `m`, each once, in the set's iteration order.
pub fn set_items(m: &std::collections::HashSet<u64>) -> (r: Vec<u64>)
    ensures
        r@.to_set() == m@,
        r@.no_duplicates(),
        r@.len() == m@.len(),
{
    let mut r: Vec<u64> = Vec::new();
    let ghost all = vstd::std_specs::hash::spec_hash_keys_iter(m).remaining();
    for k in it: m.iter()
        invariant
            it.seq() == all,
            r@.len() == it.index(),
            forall|i: int| 0 <= i < r@.len() ==> r@[i] == *all[i],
    {
        r.push(*k);
    }
    proof {
        assert(r@ =~= all.unref());
    }
    r
}

/// Drops the oldest entries of `v` so that at most `cap` remain: the last
/// `cap` are kept, in order.
pub fn keep_last<T>(v: &mut Vec<T>, cap: usize)
    ensures
        old(v)@.len() <= cap ==> final(v)@ == old(v)@,
        old(v)@.len() > cap ==> final(v)@ == old(v)@.subrange(
            old(v)@.len() - cap,
            old(v)@.len() as int,
        ),
{
    if v.len() > cap {
        let at = v.len() - cap;
        let tail = v.split_off(at);
        *v = tail;
    }
}

} // verus!
