//! Trusted interface to the `rand` crate, drawing from the thread-local
//! generator or from a caller's seeded `SmallRng`. Nothing is promised of
//! which outcome is drawn; each contract states what holds of every
//! outcome.
use rand::rngs::SmallRng;
use rand::seq::SliceRandom;
use rand::Rng;
use vstd::prelude::*;

verus! {

/// `Rng::gen_ratio` on `rand::thread_rng()`: `true` with probability
/// `numerator / denominator`. The crate documents that a zero numerator never
/// gives `true` and a numerator equal to the denominator always does; it
/// panics when the denominator is zero or below the numerator.
#[verifier::external_body]
pub(crate) fn thread_gen_ratio(numerator: u32, denominator: u32) -> (r: bool)
    requires
        0 < denominator,
        numerator <= denominator,
    ensures
        numerator == 0 ==> !r,
        numerator == denominator ==> r,
{
    rand::thread_rng().gen_ratio(numerator, denominator)
}

/// `SliceRandom::choose` on `rand::thread_rng()`: one element of `v`, or
/// `None` when `v` is empty.
#[verifier::external_body]
pub(crate) fn thread_choose(v: &Vec<u64>) -> (r: Option<u64>)
    ensures
        r is Some <==> v@.len() > 0,
        r matches Some(x) ==> v@.contains(x),
{
    v.choose(&mut rand::thread_rng()).copied()
}

/// `a` and `b` stand at two different positions of `s`.
pub open spec fn picked_two_positions(s: Seq<u64>, a: u64, b: u64) -> bool {
    exists|i: int, j: int| 0 <= i < s.len() && 0 <= j < s.len() && i != j && a == s[i] && b == s[j]
}

/// `SliceRandom::choose_multiple(.., 2)` on `rand::thread_rng()`: the
/// elements at two different positions of `v`.
#[verifier::external_body]
pub(crate) fn thread_choose_two(v: &Vec<u64>) -> (picked: (u64, u64))
    requires
        v@.len() >= 2,
    ensures
        picked_two_positions(v@, picked.0, picked.1),
{
    let s: Vec<&u64> = v.choose_multiple(&mut rand::thread_rng(), 2).collect();
    (*s[0], *s[1])
}

#[verifier::external_type_specification]
#[verifier::external_body]
pub struct ExSmallRng(SmallRng);

/// `SliceRandom::choose` with the caller's generator: one element of `v`,
/// or `None` when `v` is empty. Which element comes out, and the state the
/// generator is left in, are not stated.
#[verifier::external_body]
pub(crate) fn rng_choose(rng: &mut SmallRng, v: &Vec<u64>) -> (r: Option<u64>)
    ensures
        r is Some <==> v@.len() > 0,
        r matches Some(x) ==> v@.contains(x),
{
    v.choose(rng).copied()
}

} // verus!
