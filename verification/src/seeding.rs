//! Random placement of the initial centers.

use vstd::prelude::*;
use rand::distributions::{IndependentSample, Range};
use crate::center::Center;

verus! {

/// The number of steps between two neighbouring integers at which a random
/// center can be placed.
pub const RESOLUTION: u64 = 0x10_0000;

/// Draws an integer through `rand`: `Range::new(lo, hi)` sampled once with
/// `ind_sample` on `thread_rng()`. `Range::new` panics unless `lo < hi`, and
/// an integer range gives values from `lo` up to, but not including, `hi`.
/// Nothing else is claimed of the value: two calls may differ. This is
/// believed, not proved; `thread_rng()` itself panics on a system that
/// offers no entropy.
#[verifier::external_body]
fn sample_range(lo: i64, hi: i64) -> (r: i64)
    requires
        lo < hi,
    ensures
        lo <= r < hi,
{
    let range = Range::new(lo, hi);
    let mut rng = rand::thread_rng();
    range.ind_sample(&mut rng)
}

/// The center `whole + part / RESOLUTION`.
pub fn seed_from(whole: i64, part: i64) -> (r: Center)
    requires
        0 <= part < RESOLUTION,
    ensures
        r.num == whole * RESOLUTION + part,
        r.den == RESOLUTION,
        r.wf(),
{
    let num: i128 = (whole as i128) * (RESOLUTION as i128) + (part as i128);
    Center { num, den: RESOLUTION }
}

/// A center drawn at random between `lo` and `hi`: `lo` itself where the
/// two are equal, otherwise a point of the grid of `RESOLUTION` steps to the
/// unit, from `lo` up to but not including `hi`, each with the same chance.
pub fn random_center(lo: i64, hi: i64) -> (r: Center)
    requires
        lo <= hi,
    ensures
        r.wf(),
        r.within(lo as int, hi as int),
        lo == hi ==> r == (Center { num: lo as i128, den: 1 }),
        lo < hi ==> r.den == RESOLUTION && r.num < hi * RESOLUTION,
{
    if lo == hi {
        Center::whole(lo)
    } else {
        let whole: i64 = sample_range(lo, hi);
        let part: i64 = sample_range(0, RESOLUTION as i64);
        seed_from(whole, part)
    }
}

} // verus!
