//! Random choices.

use rand::Rng;
use vstd::prelude::*;

use crate::query::are_drawn;

verus! {

/// The generator of a thread.
#[verifier::external_type_specification]
#[verifier::external_body]
pub struct ExThreadRng(rand::rngs::ThreadRng);

/// Calls `rand::Rng::gen_range` on `0..n`, which panics where the range is empty
/// and else returns a number in it. Which one is left to chance.
#[verifier::external_body]
pub(crate) fn pick(rng: &mut rand::rngs::ThreadRng, n: usize) -> (r: usize)
    requires
        n > 0,
    ensures
        r < n,
{
    rng.gen_range(0..n)
}

/// Draws so many numbers of a range.
pub(crate) fn draw(rng: &mut rand::rngs::ThreadRng, start: usize, end: usize, n: usize) -> (r: Vec<
    usize,
>)
    requires
        start < end,
    ensures
        are_drawn(r@, start as int, end as int, n as nat),
{
    let mut out: Vec<usize> = Vec::new();
    for i in 0..n
        invariant
            start < end,
            are_drawn(out@, start as int, end as int, i as nat),
    {
        out.push(start + pick(rng, end - start));
    }
    out
}

} // verus!
