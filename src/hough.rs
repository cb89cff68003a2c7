//! The line-voting estimator: line segments vote for their angle, and the
//! angle with the most neighbours wins.
use vstd::prelude::*;
use crate::omr::{OmrError, OmrResult, ResultStatus};

verus! {

/// Two line angles closer than this (0.1 degree) vote for each other.
pub const CLUSTER_TOLERANCE: i64 = 100000;

/// Largest magnitude of a raw line angle: half a turn.
pub const HALF_TURN: i64 = 180000000;

/// Edge of the canonical line-angle range: 45 degrees.
pub const FOLD_LIMIT: i64 = 45000000;

/// A quarter turn: 90 degrees.
pub const QUARTER_TURN: i64 = 90000000;

/// A raw line angle brought into the canonical range around zero by one
/// quarter turn, so that near-horizontal and near-vertical strokes agree.
pub open spec fn fold_line_angle(a: int) -> int {
    if a < -FOLD_LIMIT {
        a + QUARTER_TURN
    } else if a > FOLD_LIMIT {
        a - QUARTER_TURN
    } else {
        a
    }
}

/// Folds one raw line angle (see `fold_line_angle`).
pub fn fold_angle(angle: i64) -> (r: i64)
    requires
        -HALF_TURN <= angle <= HALF_TURN,
    ensures
        r == fold_line_angle(angle as int),
        -QUARTER_TURN <= r <= QUARTER_TURN,
{
    if angle < -FOLD_LIMIT {
        angle + QUARTER_TURN
    } else if angle > FOLD_LIMIT {
        angle - QUARTER_TURN
    } else {
        angle
    }
}

/// `|a - b| < tol`.
pub open spec fn within(a: int, b: int, tol: int) -> bool {
    -tol < a - b < tol
}

/// Number of angles of `s` that lie within `CLUSTER_TOLERANCE` of `x`.
pub open spec fn cluster_size(s: Seq<i64>, x: int) -> nat
    decreases s.len(),
{
    if s.len() == 0 {
        0
    } else {
        cluster_size(s.drop_last(), x) + if within(x, s.last() as int, CLUSTER_TOLERANCE as int) {
            1nat
        } else {
            0nat
        }
    }
}

/// Largest cluster size among the first `k` angles of `s`.
pub open spec fn best_cluster(s: Seq<i64>, k: int) -> nat
    decreases k,
{
    if k <= 0 {
        0
    } else {
        let before = best_cluster(s, k - 1);
        let here = cluster_size(s, s[k - 1] as int);
        if here > before {
            here
        } else {
            before
        }
    }
}

/// The angles among the first `k` of `s` whose cluster has size `m`, in order.
pub open spec fn cluster_members(s: Seq<i64>, k: int, m: nat) -> Seq<i64>
    decreases k,
{
    if k <= 0 {
        Seq::empty()
    } else {
        let before = cluster_members(s, k - 1, m);
        if cluster_size(s, s[k - 1] as int) == m {
            before.push(s[k - 1])
        } else {
            before
        }
    }
}

/// Status of a vote with `n` winners.
pub open spec fn vote_status(n: nat) -> ResultStatus {
    if n == 0 {
        ResultStatus::NotAResult
    } else if n == 1 {
        ResultStatus::Believed
    } else {
        ResultStatus::NeedCheck
    }
}

/// The raw angles folded into the canonical range.
pub open spec fn folded_angles(raw: Seq<i64>) -> Seq<i64> {
    raw.map_values(|a: i64| fold_line_angle(a as int) as i64)
}

/// The angles that win the vote: those with the largest cluster.
pub open spec fn vote_winners(raw: Seq<i64>) -> Seq<i64> {
    let s = folded_angles(raw);
    cluster_members(s, s.len() as int, best_cluster(s, s.len() as int))
}

proof fn lemma_cluster_self(s: Seq<i64>, j: int)
    requires
        0 <= j < s.len(),
    ensures
        cluster_size(s, s[j] as int) >= 1,
    decreases s.len(),
{
    if j < s.len() - 1 {
        lemma_cluster_self(s.drop_last(), j);
        assert(s.drop_last()[j] == s[j]);
    }
}

proof fn lemma_cluster_size_bound(s: Seq<i64>, x: int)
    ensures
        cluster_size(s, x) <= s.len(),
    decreases s.len(),
{
    if s.len() > 0 {
        lemma_cluster_size_bound(s.drop_last(), x);
    }
}

proof fn lemma_no_members_above_best(s: Seq<i64>, k: int, m: nat)
    requires
        m > best_cluster(s, k),
    ensures
        cluster_members(s, k, m) == Seq::<i64>::empty(),
    decreases k,
{
    if k > 0 {
        lemma_no_members_above_best(s, k - 1, m);
    }
}

proof fn lemma_winners_nonempty(s: Seq<i64>, k: int)
    requires
        0 < k <= s.len(),
    ensures
        cluster_members(s, k, best_cluster(s, k)).len() >= 1,
    decreases k,
{
    let here = cluster_size(s, s[k - 1] as int);
    assert(best_cluster(s, 0) == 0);
    if here < best_cluster(s, k) {
        lemma_winners_nonempty(s, k - 1);
    }
}

/// Number of angles of `s` within `CLUSTER_TOLERANCE` of `s[i]`.
fn count_cluster(s: &Vec<i64>, i: usize) -> (r: usize)
    requires
        i < s@.len(),
        forall|k: int| 0 <= k < s@.len() ==> -QUARTER_TURN <= #[trigger] s@[k] <= QUARTER_TURN,
    ensures
        r == cluster_size(s@, s@[i as int] as int),
{
    let x = s[i];
    let mut count: usize = 0;
    let mut j: usize = 0;
    while j < s.len()
        invariant
            i < s@.len(),
            x == s@[i as int],
            j <= s@.len(),
            forall|k: int| 0 <= k < s@.len() ==> -QUARTER_TURN <= #[trigger] s@[k] <= QUARTER_TURN,
            count == cluster_size(s@.take(j as int), x as int),
        decreases s@.len() - j,
    {
        proof {
            assert(s@.take(j as int + 1).drop_last() =~= s@.take(j as int));
            assert(s@.take(j as int + 1).last() == s@[j as int]);
            lemma_cluster_size_bound(s@.take(j as int), x as int);
        }
        let d = x - s[j];
        if -CLUSTER_TOLERANCE < d && d < CLUSTER_TOLERANCE {
            count = count + 1;
        }
        j = j + 1;
    }
    assert(s@.take(s@.len() as int) =~= s@);
    count
}

/// Line-voting estimate from the raw angles (micro-degrees) of the detected
/// segments: each angle is folded, counts the folded angles within
/// `CLUSTER_TOLERANCE` of it, and the angles with the largest count win.
/// The first winner is the estimate; one winner is `Believed`, several are
/// `NeedCheck`. No segment at all is an error.
pub fn get_result_from_edges_detection(raw_angles: &Vec<i64>) -> (r: Result<OmrResult, OmrError>)
    requires
        forall|k: int| 0 <= k < raw_angles@.len() ==> -HALF_TURN <= #[trigger] raw_angles@[k] <= HALF_TURN,
    ensures
        raw_angles@.len() == 0 <==> r == Err::<OmrResult, OmrError>(OmrError::EmptyDetectionSet),
        raw_angles@.len() > 0 <==> r is Ok,
        r is Ok ==> {
            &&& vote_winners(raw_angles@).len() >= 1
            &&& r->Ok_0.candidates@ == vote_winners(raw_angles@)
            &&& r->Ok_0.angle == vote_winners(raw_angles@)[0]
            &&& r->Ok_0.status == vote_status(vote_winners(raw_angles@).len())
        },
{
    if raw_angles.len() == 0 {
        return Err(OmrError::EmptyDetectionSet);
    }
    let mut angles: Vec<i64> = Vec::with_capacity(raw_angles.len());
    let mut k: usize = 0;
    while k < raw_angles.len()
        invariant
            k <= raw_angles@.len(),
            angles@.len() == k,
            forall|j: int| 0 <= j < raw_angles@.len() ==> -HALF_TURN <= #[trigger] raw_angles@[j] <= HALF_TURN,
            forall|j: int| 0 <= j < k ==> #[trigger] angles@[j] == fold_line_angle(raw_angles@[j] as int),
            forall|j: int| 0 <= j < k ==> -QUARTER_TURN <= #[trigger] angles@[j] <= QUARTER_TURN,
        decreases raw_angles@.len() - k,
    {
        let a = fold_angle(raw_angles[k]);
        angles.push(a);
        k = k + 1;
    }
    let ghost s = angles@;
    assert(s =~= folded_angles(raw_angles@));
    let mut target: i64 = angles[0];
    let mut target_count: usize = 0;
    let mut candidates: Vec<i64> = Vec::new();
    let mut i: usize = 0;
    while i < angles.len()
        invariant
            s == angles@,
            s.len() > 0,
            i <= s.len(),
            forall|j: int| 0 <= j < s.len() ==> -QUARTER_TURN <= #[trigger] s[j] <= QUARTER_TURN,
            target_count == best_cluster(s, i as int),
            candidates@ == cluster_members(s, i as int, target_count as nat),
            i > 0 ==> candidates@.len() > 0 && target == candidates@[0],
        decreases s.len() - i,
    {
        let count = count_cluster(&angles, i);
        proof {
            lemma_cluster_self(s, i as int);
        }
        if count > target_count {
            proof {
                lemma_no_members_above_best(s, i as int, count as nat);
            }
            target = angles[i];
            target_count = count;
            candidates = vec![target];
            assert(candidates@ =~= Seq::<i64>::empty().push(s[i as int]));
        } else if count == target_count {
            candidates.push(angles[i]);
        }
        i = i + 1;
    }
    proof {
        lemma_winners_nonempty(s, s.len() as int);
    }
    let status = if candidates.len() == 1 {
        ResultStatus::Believed
    } else {
        ResultStatus::NeedCheck
    };
    Ok(OmrResult { angle: target, status, candidates })
}

} // verus!
