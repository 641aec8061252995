//! The gap that a beat divisor stands for, measured on the chart's own
//! timing points.

use crate::chart::TimingPoint;
use vstd::prelude::*;

verus! {

/// A fraction of a beat, such as 1/8.
#[derive(Clone, Copy, Debug, PartialEq, Eq)]
pub struct BeatDivisor {
    /// Number of parts taken.
    pub numerator: u32,
    /// Number of parts that a beat is cut into; not zero.
    pub denominator: u32,
}

/// Whether `r` is the reference timing point: the first of those with the
/// greatest beat length.
pub open spec fn is_reference_point(points: Seq<TimingPoint>, r: int) -> bool {
    &&& 0 <= r < points.len()
    &&& forall|k: int| 0 <= k < points.len() ==> points[k].beat_length <= points[r].beat_length
    &&& forall|k: int| 0 <= k < r ==> points[k].beat_length < points[r].beat_length
}

/// Index of the reference timing point, found by keeping the first greatest
/// beat length while going through the points in order.
pub open spec fn reference_index(points: Seq<TimingPoint>) -> int
    decreases points.len(),
{
    if points.len() <= 1 {
        0
    } else {
        let r = reference_index(points.drop_last());
        if points.last().beat_length > points[r].beat_length {
            points.len() - 1
        } else {
            r
        }
    }
}

/// `reference_index` names the reference timing point of a chart that has
/// at least one timing point.
pub proof fn lemma_reference_index(points: Seq<TimingPoint>)
    requires
        points.len() > 0,
    ensures
        is_reference_point(points, reference_index(points)),
    decreases points.len(),
{
    if points.len() > 1 {
        lemma_reference_index(points.drop_last());
        let r = reference_index(points.drop_last());
        assert forall|k: int| 0 <= k < points.len() - 1 implies points[k].beat_length
            <= points[r].beat_length by {
            assert(points[k] == points.drop_last()[k]);
        }
        assert forall|k: int| 0 <= k < r implies points[k].beat_length
            < points[r].beat_length by {
            assert(points[k] == points.drop_last()[k]);
        }
    }
}

/// Finds the reference timing point.
pub fn reference_timing_point(points: &Vec<TimingPoint>) -> (r: usize)
    requires
        points.len() > 0,
    ensures
        r == reference_index(points@),
        is_reference_point(points@, r as int),
{
    let mut r: usize = 0;
    let mut k: usize = 1;
    assert(points@.take(1).len() == 1);
    while k < points.len()
        invariant
            1 <= k <= points.len(),
            r < k,
            r == reference_index(points@.take(k as int)),
        decreases points.len() - k,
    {
        proof {
            let longer = points@.take(k + 1);
            assert(longer.drop_last() =~= points@.take(k as int));
            assert(longer.last() == points@[k as int]);
            assert(longer[r as int] == points@[r as int]);
        }
        if points[k].beat_length > points[r].beat_length {
            r = k;
        }
        k += 1;
    }
    proof {
        assert(points@.take(points.len() as int) =~= points@);
        lemma_reference_index(points@);
    }
    r
}

/// The gap that `divisor` stands for: that fraction of the reference timing
/// point's beat length, rounded down to whole ticks.
pub open spec fn divisor_gap(points: Seq<TimingPoint>, divisor: BeatDivisor) -> u64 {
    ((points[reference_index(points)].beat_length * divisor.numerator)
        / divisor.denominator as int) as u64
}

/// Computes the gap that `divisor` stands for.
pub fn compute_divisor_gap(points: &Vec<TimingPoint>, divisor: BeatDivisor) -> (gap: u64)
    requires
        points.len() > 0,
        divisor.denominator > 0,
    ensures
        gap == divisor_gap(points@, divisor),
        gap == (points[reference_index(points@)].beat_length * divisor.numerator)
            / divisor.denominator as int,
{
    let beat_length: u32 = points[reference_timing_point(points)].beat_length;
    assert(0 <= beat_length * divisor.numerator <= 0xffff_ffff * 0xffff_ffff) by (nonlinear_arith)
        requires
            0 <= beat_length <= 0xffff_ffff,
            0 <= divisor.numerator <= 0xffff_ffff,
    ;
    let product: u64 = beat_length as u64 * divisor.numerator as u64;
    product / divisor.denominator as u64
}

} // verus!
