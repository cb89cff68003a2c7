//! Angle estimates and the cascade that reconciles them.
//!
//! Angles are whole micro-degrees (`i64`); a positive angle turns the image
//! counter-clockwise, as the rotation that undoes the skew.
use vstd::prelude::*;

verus! {

/// Micro-degrees in one degree.
pub const MICRO_DEGREES_PER_DEGREE: i64 = 1000000;

/// A singular but tied projection estimate is trusted when the line estimate
/// lies closer than this (0.1 degree).
pub const AGREEMENT_TOLERANCE: i64 = 100000;

/// A plural projection estimate is settled by a candidate closer than this
/// (0.05 degree) to the line estimate.
pub const CANDIDATE_TOLERANCE: i64 = 50000;

/// Confidence of a single-method estimate.
#[derive(Clone, Copy, Debug, PartialEq, Eq, Structural)]
pub enum ResultStatus {
    /// One unambiguous angle.
    Believed,
    /// One angle, reached through ties along the way.
    NeedCheck,
    /// No angle, or several equally good ones.
    NotAResult,
}

/// Failures of the correction pipeline.
#[derive(Clone, Copy, Debug, PartialEq, Eq, Structural)]
pub enum OmrError {
    /// The source image could not be read.
    DecodeFailure,
    /// An image primitive failed.
    PrimitiveFailure,
    /// Line detection found no segment at all.
    EmptyDetectionSet,
    /// A parameter is out of its range.
    InvalidConfiguration,
}

/// An angle estimate with its confidence and the candidates it was chosen
/// from, all in micro-degrees.
#[derive(Clone, Debug)]
pub struct OmrResult {
    pub angle: i64,
    pub status: ResultStatus,
    pub candidates: Vec<i64>,
}

/// `|a - b|` over the integers.
pub open spec fn distance(a: int, b: int) -> int {
    if a >= b {
        a - b
    } else {
        b - a
    }
}

/// Index of the first element of `s` nearest to `x` (zero when `s` is empty).
pub open spec fn first_nearest(s: Seq<i64>, x: int) -> int
    decreases s.len(),
{
    if s.len() <= 1 {
        0
    } else {
        let k = first_nearest(s.drop_last(), x);
        if distance(s.last() as int, x) < distance(s[k] as int, x) {
            s.len() - 1
        } else {
            k
        }
    }
}

/// Final angle and whether it needs a manual check, from the projection
/// estimate and (when that is not believed) the line estimate.
pub open spec fn reconciled(p: OmrResult, e: OmrResult) -> (int, bool) {
    match p.status {
        ResultStatus::Believed => (p.angle as int, false),
        ResultStatus::NeedCheck => if distance(p.angle as int, e.angle as int) < AGREEMENT_TOLERANCE {
            (p.angle as int, false)
        } else {
            (e.angle as int, true)
        },
        ResultStatus::NotAResult => if p.candidates@.len() == 0 {
            (e.angle as int, true)
        } else {
            let c = p.candidates@[first_nearest(p.candidates@, e.angle as int)] as int;
            if distance(c, e.angle as int) < CANDIDATE_TOLERANCE {
                (c, false)
            } else {
                (e.angle as int, true)
            }
        },
    }
}

/// `|a - b|`, exactly.
pub fn angle_distance(a: i64, b: i64) -> (r: u128)
    ensures
        r == distance(a as int, b as int),
{
    if a >= b {
        (a as i128 - b as i128) as u128
    } else {
        (b as i128 - a as i128) as u128
    }
}

/// Whether the projection estimate needs the line estimate beside it.
pub fn needs_second_opinion(projection: &OmrResult) -> (r: bool)
    ensures
        r == (projection.status != ResultStatus::Believed),
{
    projection.status != ResultStatus::Believed
}

/// Reconciles the projection estimate with the line estimate into the final
/// angle and a flag that asks for a manual check (see `reconciled`).
pub fn reconcile(projection: &OmrResult, edges: &OmrResult) -> (r: (i64, bool))
    ensures
        (r.0 as int, r.1) == reconciled(*projection, *edges),
{
    match projection.status {
        ResultStatus::Believed => (projection.angle, false),
        ResultStatus::NeedCheck => {
            if angle_distance(projection.angle, edges.angle) < AGREEMENT_TOLERANCE as u128 {
                (projection.angle, false)
            } else {
                (edges.angle, true)
            }
        },
        ResultStatus::NotAResult => {
            let cands = &projection.candidates;
            if cands.len() == 0 {
                return (edges.angle, true);
            }
            let mut best: usize = 0;
            let mut k: usize = 1;
            while k < cands.len()
                invariant
                    1 <= k <= cands@.len(),
                    best == first_nearest(cands@.take(k as int), edges.angle as int),
                    best < k,
                decreases cands@.len() - k,
            {
                proof {
                    let t = cands@.take(k as int + 1);
                    assert(t.drop_last() =~= cands@.take(k as int));
                    assert(t.last() == cands@[k as int]);
                    assert(cands@.take(k as int)[best as int] == cands@[best as int]);
                }
                if angle_distance(cands[k], edges.angle) < angle_distance(cands[best], edges.angle) {
                    best = k;
                }
                k = k + 1;
            }
            assert(cands@.take(cands@.len() as int) =~= cands@);
            let c = cands[best];
            if angle_distance(c, edges.angle) < CANDIDATE_TOLERANCE as u128 {
                (c, false)
            } else {
                (edges.angle, true)
            }
        },
    }
}

/// A singular but tied projection estimate stands, with no manual check,
/// when the line estimate lies within 0.05 degree of it; when the two lie
/// more than 0.1 degree apart, the line estimate is taken and flagged.
pub proof fn lemma_need_check_reconciliation(p: OmrResult, e: OmrResult)
    requires
        p.status == ResultStatus::NeedCheck,
    ensures
        distance(p.angle as int, e.angle as int) < CANDIDATE_TOLERANCE ==> reconciled(p, e) == (
        p.angle as int, false),
        distance(p.angle as int, e.angle as int) > AGREEMENT_TOLERANCE ==> reconciled(p, e) == (
        e.angle as int, true),
{
}

} // verus!
