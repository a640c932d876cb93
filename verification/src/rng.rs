//! Randomness, drawn from `rand`'s thread-local generator. Every draw is an
//! outside call: the contracts below say only what holds of every outcome.

use rand::rngs::ThreadRng;
use rand::seq::SliceRandom;
use rand::Rng;
use vstd::prelude::*;

verus! {

/// `rand`'s thread-local generator, carried through opaquely.
#[verifier::external_type_specification]
#[verifier::external_body]
pub struct ExThreadRng(rand::rngs::ThreadRng);

/// Calls `rand::Rng::gen_range` on the half-open range `lo..hi`: the result
/// lies in that range. `rand` panics on an empty range, hence `lo < hi`.
/// Which value comes out is left unsaid: it is random.
#[verifier::external_body]
pub(crate) fn random_in(rng: &mut ThreadRng, lo: i32, hi: i32) -> (r: i32)
    requires
        lo < hi,
    ensures
        lo <= r < hi,
{
    rng.gen_range(lo..hi)
}

/// Calls `rand::Rng::gen_ratio(num, den)`: `true` with probability
/// `num / den`, always `false` when `num == 0` and always `true` when
/// `num == den`, as `rand`'s documentation states. `rand` panics when
/// `den == 0` or `num > den`. The outcome otherwise is left unsaid.
#[verifier::external_body]
pub(crate) fn random_ratio(rng: &mut ThreadRng, num: u32, den: u32) -> (b: bool)
    requires
        0 < den,
        num <= den,
    ensures
        num == 0 ==> !b,
        num == den ==> b,
{
    rng.gen_ratio(num, den)
}

/// Calls `rand::seq::SliceRandom::choose` on the items: `None` exactly when
/// there is none, otherwise one of them. Which one is left unsaid.
#[verifier::external_body]
pub(crate) fn random_choice<T: Copy>(rng: &mut ThreadRng, items: &Vec<T>) -> (r: Option<T>)
    ensures
        r is None <==> items@.len() == 0,
        r matches Some(x) ==> items@.contains(x),
{
    items.choose(rng).copied()
}

} // verus!
