//! The random source.

use vstd::prelude::*;

verus! {

/// One uniform draw from `low..=high`, made with `rand`'s thread-local
/// generator: `rand::thread_rng()` followed by `Rng::gen_range` on the
/// inclusive range. `gen_range` panics on an empty range, which `low <= high`
/// leaves out. Its integer sampler turns away the raw values that would
/// favour some numbers over others and returns `low` plus an offset below
/// the width of the range, so the result lies in the range; that is all
/// that is claimed of it here. That each number of the range is as likely as
/// any other rests on that sampler and is not stated.
///
/// The generator is seeded from the operating system on a thread's first
/// draw and seeded anew from time to time; it panics if the operating
/// system's random source fails at either.
#[verifier::external_body]
pub(crate) fn random_between(low: u32, high: u32) -> (drawn: u32)
    requires
        low <= high,
    ensures
        low <= drawn <= high,
{
    rand::Rng::gen_range(&mut rand::thread_rng(), low..=high)
}

} // verus!
