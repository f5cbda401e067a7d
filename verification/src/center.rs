//! Cluster centers as exact fractions, and the order of their distances
//! to a sample.

use vstd::prelude::*;
use num_traits::sign::Signed;

verus! {

/// The largest denominator a center may have: centers with denominators up
/// to this bound are told apart exactly in 128-bit arithmetic.
pub const MAX_DEN: u64 = 0x8000_0000;

/// The magnitude bound of a sample, two to the power 63.
pub const SAMPLE_BOUND: i128 = 0x8000_0000_0000_0000;

/// A cluster center: the fraction `num / den`.
#[derive(Clone, Copy, Debug, PartialEq, Eq, Structural)]
pub struct Center {
    pub num: i128,
    pub den: u64,
}

impl Center {
    /// A center is well formed when its denominator is positive and at most
    /// `MAX_DEN`, and the fraction lies within the range of a sample.
    pub open spec fn wf(&self) -> bool {
        &&& 0 < self.den <= MAX_DEN
        &&& -SAMPLE_BOUND * self.den <= self.num <= SAMPLE_BOUND * self.den
    }

    /// Whether the center is well formed.
    pub fn is_valid(&self) -> (r: bool)
        ensures
            r == self.wf(),
    {
        if self.den == 0 || self.den > MAX_DEN {
            return false;
        }
        let d: i128 = self.den as i128;
        let limit: i128 = SAMPLE_BOUND * d;
        -limit <= self.num && self.num <= limit
    }

    /// The center that sits exactly on a sample value.
    pub fn whole(v: i64) -> (r: Center)
        ensures
            r.wf(),
            r.num == v,
            r.den == 1,
    {
        Center { num: v as i128, den: 1 }
    }

    /// The center lies in the closed interval from `lo` to `hi`.
    pub open spec fn within(&self, lo: int, hi: int) -> bool {
        lo * self.den <= self.num <= hi * self.den
    }
}

/// The distance between a center and the sample value `x`, scaled by the
/// center's denominator.
pub open spec fn gap(c: Center, x: int) -> int {
    if c.num - x * c.den >= 0 {
        c.num - x * c.den
    } else {
        x * c.den - c.num
    }
}

/// Center `a` is strictly closer to `x` than center `b` is.
pub open spec fn closer(a: Center, b: Center, x: int) -> bool {
    gap(a, x) * b.den < gap(b, x) * a.den
}

/// `i` is the index of the center nearest to `x`; among centers at the same
/// smallest distance it is the first.
pub open spec fn is_nearest(centers: Seq<Center>, x: int, i: int) -> bool {
    &&& 0 <= i < centers.len()
    &&& forall|j: int| 0 <= j < i ==> closer(centers[i], #[trigger] centers[j], x)
    &&& forall|j: int| i < j < centers.len() ==> !closer(#[trigger] centers[j], centers[i], x)
}

/// Being strictly closer carries over a center that is no closer: if `a` is
/// closer than `b`, and `c` is not closer than `b`, then `a` is closer than `c`.
pub proof fn lemma_closer_chain(a: Center, b: Center, c: Center, x: int)
    requires
        a.den > 0,
        b.den > 0,
        c.den > 0,
        closer(a, b, x),
        !closer(c, b, x),
    ensures
        closer(a, c, x),
{
    let ga = gap(a, x);
    let gb = gap(b, x);
    let gc = gap(c, x);
    let da = a.den as int;
    let db = b.den as int;
    let dc = c.den as int;
    assert(ga * dc < gc * da) by (nonlinear_arith)
        requires
            da > 0,
            db > 0,
            dc > 0,
            ga >= 0,
            gb >= 0,
            gc >= 0,
            ga * db < gb * da,
            gb * dc <= gc * db,
    {
        assert((ga * db) * dc < (gb * da) * dc);
        assert((gb * dc) * da <= (gc * db) * da);
        assert((ga * dc) * db < (gc * da) * db);
    }
}

/// At most one index is that of the nearest center.
pub proof fn lemma_nearest_unique(centers: Seq<Center>, x: int, i: int, j: int)
    requires
        is_nearest(centers, x, i),
        is_nearest(centers, x, j),
    ensures
        i == j,
{
    if i < j {
        assert(closer(centers[j], centers[i], x));
    } else if j < i {
        assert(closer(centers[i], centers[j], x));
    }
}

/// Among one or more centers, one is nearest to `x`.
pub proof fn lemma_nearest_exists(centers: Seq<Center>, x: int)
    requires
        centers.len() > 0,
        forall|j: int| 0 <= j < centers.len() ==> (#[trigger] centers[j]).den > 0,
    ensures
        exists|i: int| is_nearest(centers, x, i),
    decreases centers.len(),
{
    if centers.len() == 1 {
        assert(is_nearest(centers, x, 0));
    } else {
        let rest = centers.drop_last();
        let n = centers.len() - 1;
        assert forall|j: int| 0 <= j < rest.len() implies (#[trigger] rest[j]).den > 0 by {
            assert(rest[j] == centers[j]);
        }
        lemma_nearest_exists(rest, x);
        let b = choose|i: int| is_nearest(rest, x, i);
        assert(rest[b] == centers[b]);
        if closer(centers[n], centers[b], x) {
            assert forall|m: int| 0 <= m < n implies closer(centers[n], #[trigger] centers[m], x) by {
                assert(rest[m] == centers[m]);
                if m != b {
                    lemma_closer_chain(centers[n], centers[b], centers[m], x);
                }
            }
            assert(is_nearest(centers, x, n));
        } else {
            assert forall|m: int| 0 <= m < b implies closer(centers[b], #[trigger] centers[m], x) by {
                assert(rest[m] == centers[m]);
            }
            assert forall|m: int| b < m < centers.len() implies !closer(
                #[trigger] centers[m],
                centers[b],
                x,
            ) by {
                if m < n {
                    assert(rest[m] == centers[m]);
                }
            }
            assert(is_nearest(centers, x, b));
        }
    }
}

/// The absolute value of `v`, computed by `num_traits`, `Signed::abs` on an
/// `i128`: it hands back the negation of a negative value and any other
/// value as it is. The least `i128` has no negation, so it is left out.
/// This is believed, not proved.
#[verifier::external_body]
fn magnitude(v: i128) -> (r: i128)
    requires
        v > i128::MIN,
    ensures
        v >= 0 ==> r == v,
        v < 0 ==> r == -v,
{
    Signed::abs(&v)
}

/// The scaled distance between a center and a sample value.
pub fn distance(center: &Center, target: i64) -> (r: i128)
    requires
        center.wf(),
    ensures
        r == gap(*center, target as int),
        0 <= r <= 2 * SAMPLE_BOUND * center.den,
{
    let d: i128 = center.den as i128;
    let t: i128 = target as i128;
    assert(-SAMPLE_BOUND * d <= t * d <= SAMPLE_BOUND * d) by (nonlinear_arith)
        requires
            -SAMPLE_BOUND <= t < SAMPLE_BOUND,
            0 < d,
    ;
    assert(2 * SAMPLE_BOUND * d == SAMPLE_BOUND * d + SAMPLE_BOUND * d) by (nonlinear_arith);
    assert(SAMPLE_BOUND * d <= SAMPLE_BOUND * MAX_DEN) by (nonlinear_arith)
        requires
            0 < d <= MAX_DEN,
    ;
    let scaled: i128 = t * d;
    magnitude(center.num - scaled)
}

/// Whether center `a` is strictly closer to `target` than center `b` is.
pub fn is_closer(a: &Center, b: &Center, target: i64) -> (r: bool)
    requires
        a.wf(),
        b.wf(),
    ensures
        r == closer(*a, *b, target as int),
{
    let ga: i128 = distance(a, target);
    let gb: i128 = distance(b, target);
    let da: i128 = a.den as i128;
    let db: i128 = b.den as i128;
    assert(0 <= ga * db <= (2 * SAMPLE_BOUND * MAX_DEN) * MAX_DEN) by (nonlinear_arith)
        requires
            0 <= ga <= 2 * SAMPLE_BOUND * da,
            0 < da <= MAX_DEN,
            0 < db <= MAX_DEN,
    ;
    assert(0 <= gb * da <= (2 * SAMPLE_BOUND * MAX_DEN) * MAX_DEN) by (nonlinear_arith)
        requires
            0 <= gb <= 2 * SAMPLE_BOUND * db,
            0 < da <= MAX_DEN,
            0 < db <= MAX_DEN,
    ;
    ga * db < gb * da
}

} // verus!
