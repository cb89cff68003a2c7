//! The projection estimator: a sweep over candidate angles that keeps the
//! angles whose ink profiles are sharpest.
use vstd::prelude::*;
use crate::calculate::{variance_num, Fraction};
use crate::omr::{OmrError, OmrResult, ResultStatus, MICRO_DEGREES_PER_DEGREE};
use crate::transfer::{get_projection_standard_deviations, horizontal_profile, vertical_profile, GrayImage};

verus! {

/// `a / b` rounded to the nearest integer, halves up, for `a >= 0`, `b > 0`.
pub open spec fn round_div(a: int, b: int) -> int {
    (2 * a + b) / (2 * b)
}

/// Number of sweep steps on each side of zero: `round(max_angle / step)`,
/// with `max_angle` in degrees and `step` in micro-degrees.
pub open spec fn sweep_half_width(max_angle: u16, step: u32) -> int {
    round_div(max_angle * MICRO_DEGREES_PER_DEGREE, step as int)
}

/// Half width `n` of the sweep: the candidate angle indices are `-n .. n`,
/// index `i` standing for `i * step`. Fails when the step is zero or `n`
/// does not fit 16 bits.
pub fn projection_sweep_half_width(max_angle: u16, step: u32) -> (r: Result<u16, OmrError>)
    ensures
        step == 0 ==> r == Err::<u16, OmrError>(OmrError::InvalidConfiguration),
        step > 0 && sweep_half_width(max_angle, step) > u16::MAX ==> r == Err::<u16, OmrError>(
            OmrError::InvalidConfiguration,
        ),
        step > 0 && sweep_half_width(max_angle, step) <= u16::MAX ==> r == Ok::<u16, OmrError>(
            sweep_half_width(max_angle, step) as u16,
        ),
{
    if step == 0 {
        return Err(OmrError::InvalidConfiguration);
    }
    let a: u64 = max_angle as u64 * 1000000;
    let n: u64 = (2 * a + step as u64) / (2 * step as u64);
    if n > u16::MAX as u64 {
        Err(OmrError::InvalidConfiguration)
    } else {
        Ok(n as u16)
    }
}

/// A fraction of value zero.
pub fn zero_fraction() -> (r: Fraction)
    ensures
        r.wf(),
        r.num == 0,
        r.den == 1,
{
    Fraction { num: 0, den: 1 }
}

/// `n + 1`, saturating at `u32::MAX`.
pub open spec fn sat_inc(n: u32) -> u32 {
    if n < u32::MAX {
        (n + 1) as u32
    } else {
        n
    }
}

/// Running state of the projection sweep: the best (row, column) standard
/// deviations seen so far, how many angles tied on each, and the angle
/// indices that survive.
#[derive(Clone, Debug)]
pub struct ProjectionScan {
    pub max_horizontal: Fraction,
    pub max_vertical: Fraction,
    pub horizontal_ties: u32,
    pub vertical_ties: u32,
    pub candidates: Vec<i32>,
}

/// Scores of one candidate angle: row and column standard deviations.
#[derive(Clone, Copy, Debug, PartialEq, Eq, Structural)]
pub struct AngleScore {
    pub horizontal: Fraction,
    pub vertical: Fraction,
}

impl AngleScore {
    pub open spec fn wf(self) -> bool {
        self.horizontal.wf() && self.vertical.wf()
    }
}

/// Scores of a binary image rotated by one candidate angle: the standard
/// deviations of its row and column ink profiles.
pub fn angle_score(rotated: &GrayImage) -> (r: AngleScore)
    requires
        rotated.wf(),
        rotated.width > 0,
        rotated.height > 0,
    ensures
        r.wf(),
        r.horizontal.num == variance_num(horizontal_profile(*rotated)),
        r.horizontal.den == rotated.height * rotated.height,
        r.vertical.num == variance_num(vertical_profile(*rotated)),
        r.vertical.den == rotated.width * rotated.width,
{
    let (vertical, horizontal) = get_projection_standard_deviations(rotated);
    AngleScore { horizontal, vertical }
}

/// Ghost summary of a sweep state.
pub struct ScanModel {
    pub max_horizontal: Fraction,
    pub max_vertical: Fraction,
    pub horizontal_ties: u32,
    pub vertical_ties: u32,
    pub candidates: Seq<i32>,
}

/// State before any angle is seen.
pub open spec fn scan_start() -> ScanModel {
    ScanModel {
        max_horizontal: Fraction { num: 0, den: 1 },
        max_vertical: Fraction { num: 0, den: 1 },
        horizontal_ties: 1,
        vertical_ties: 1,
        candidates: Seq::empty(),
    }
}

/// One step of the lexicographic maximisation on (row, column) deviation,
/// keeping exact ties.
pub open spec fn scan_step(m: ScanModel, index: i32, s: AngleScore) -> ScanModel {
    if m.max_horizontal.spec_lt(s.horizontal) {
        ScanModel {
            max_horizontal: s.horizontal,
            max_vertical: s.vertical,
            horizontal_ties: 1,
            vertical_ties: 1,
            candidates: seq![index],
        }
    } else if m.max_horizontal.spec_same(s.horizontal) {
        if m.max_vertical.spec_lt(s.vertical) {
            ScanModel {
                horizontal_ties: sat_inc(m.horizontal_ties),
                max_vertical: s.vertical,
                vertical_ties: 1,
                candidates: seq![index],
                ..m
            }
        } else if m.max_vertical.spec_same(s.vertical) {
            ScanModel {
                horizontal_ties: sat_inc(m.horizontal_ties),
                vertical_ties: sat_inc(m.vertical_ties),
                candidates: m.candidates.push(index),
                ..m
            }
        } else {
            ScanModel { horizontal_ties: sat_inc(m.horizontal_ties), ..m }
        }
    } else {
        m
    }
}

/// State after the scores of indices `first, first + 1, ...` in order.
pub open spec fn scan_all(first: int, scores: Seq<AngleScore>) -> ScanModel
    decreases scores.len(),
{
    if scores.len() == 0 {
        scan_start()
    } else {
        scan_step(
            scan_all(first, scores.drop_last()),
            (first + scores.len() - 1) as i32,
            scores.last(),
        )
    }
}

/// Status that a sweep state settles on.
pub open spec fn scan_status(m: ScanModel) -> ResultStatus {
    if m.candidates.len() == 1 && m.horizontal_ties == 1 && m.vertical_ties == 1 {
        ResultStatus::Believed
    } else if m.candidates.len() == 1 {
        ResultStatus::NeedCheck
    } else {
        ResultStatus::NotAResult
    }
}

/// Angle that a sweep state settles on: its single candidate, else zero.
pub open spec fn scan_angle(m: ScanModel, step: u32) -> int {
    if m.candidates.len() == 1 {
        m.candidates[0] * step
    } else {
        0
    }
}

/// Candidate angles of a sweep state.
pub open spec fn scan_candidates(m: ScanModel, step: u32) -> Seq<i64> {
    m.candidates.map_values(|i: i32| (i * step) as i64)
}

impl ProjectionScan {
    pub open spec fn view(&self) -> ScanModel {
        ScanModel {
            max_horizontal: self.max_horizontal,
            max_vertical: self.max_vertical,
            horizontal_ties: self.horizontal_ties,
            vertical_ties: self.vertical_ties,
            candidates: self.candidates@,
        }
    }

    pub open spec fn wf(&self) -> bool {
        self.max_horizontal.wf() && self.max_vertical.wf()
    }

    /// A sweep that has seen no angle.
    pub fn new() -> (r: ProjectionScan)
        ensures
            r.wf(),
            r.view() == scan_start(),
    {
        let r = ProjectionScan {
            max_horizontal: zero_fraction(),
            max_vertical: zero_fraction(),
            horizontal_ties: 1,
            vertical_ties: 1,
            candidates: Vec::new(),
        };
        assert(r.view().candidates =~= Seq::<i32>::empty());
        r
    }

    /// Takes in the scores of the angle with index `index`.
    pub fn observe(&mut self, index: i32, score: AngleScore)
        requires
            old(self).wf(),
            score.wf(),
        ensures
            final(self).wf(),
            final(self).view() == scan_step(old(self).view(), index, score),
    {
        if self.max_horizontal.less_than(&score.horizontal) {
            self.max_horizontal = score.horizontal;
            self.max_vertical = score.vertical;
            self.horizontal_ties = 1;
            self.vertical_ties = 1;
            self.candidates = vec![index];
            assert(self.candidates@ =~= seq![index]);
        } else if self.max_horizontal.same_value(&score.horizontal) {
            self.horizontal_ties = self.horizontal_ties.saturating_add(1);
            if self.max_vertical.less_than(&score.vertical) {
                self.max_vertical = score.vertical;
                self.vertical_ties = 1;
                self.candidates = vec![index];
                assert(self.candidates@ =~= seq![index]);
            } else if self.max_vertical.same_value(&score.vertical) {
                self.vertical_ties = self.vertical_ties.saturating_add(1);
                self.candidates.push(index);
            }
        }
    }

    /// The estimate this sweep settles on, with candidate indices scaled by
    /// `step` micro-degrees.
    pub fn result(&self, step: u32) -> (r: OmrResult)
        ensures
            r.status == scan_status(self.view()),
            r.angle == scan_angle(self.view(), step),
            r.candidates@ == scan_candidates(self.view(), step),
    {
        let mut candidates: Vec<i64> = Vec::with_capacity(self.candidates.len());
        let mut k: usize = 0;
        while k < self.candidates.len()
            invariant
                k <= self.candidates@.len(),
                candidates@.len() == k,
                forall|j: int| 0 <= j < k ==> #[trigger] candidates@[j] == (self.candidates@[j] * step) as i64,
            decreases self.candidates@.len() - k,
        {
            let i = self.candidates[k];
            proof {
                lemma_index_times_step(i, step);
            }
            candidates.push(i as i64 * step as i64);
            k = k + 1;
        }
        assert(candidates@ =~= scan_candidates(self.view(), step));
        let n = self.candidates.len();
        if n == 1 {
            proof {
                lemma_index_times_step(self.candidates@[0], step);
            }
            let angle = self.candidates[0] as i64 * step as i64;
            let status = if self.horizontal_ties == 1 && self.vertical_ties == 1 {
                ResultStatus::Believed
            } else {
                ResultStatus::NeedCheck
            };
            OmrResult { angle, status, candidates }
        } else {
            OmrResult { angle: 0, status: ResultStatus::NotAResult, candidates }
        }
    }
}

proof fn lemma_index_times_step(i: i32, step: u32)
    ensures
        i64::MIN <= i * step <= i64::MAX,
{
    assert(-9223372034707292160 <= i * step <= 9223372032559808513) by (nonlinear_arith)
        requires
            -2147483648 <= i <= 2147483647,
            0 <= step <= 4294967295u32,
    ;
}

/// Rotation, in micro-degrees, tried for sweep index `index`.
pub fn sweep_angle(index: i32, step: u32) -> (r: i64)
    ensures
        r == index * step,
{
    proof {
        lemma_index_times_step(index, step);
    }
    index as i64 * step as i64
}

/// Settles the projection sweep from the scores of all indices
/// `-half_width .. half_width`, in order. Both the sequential and the
/// parallel sweep end here, so they agree on the same scores.
pub fn get_result_from_projection(half_width: u16, step: u32, scores: &Vec<AngleScore>) -> (r:
    OmrResult)
    requires
        scores@.len() == 2 * half_width,
        forall|k: int| 0 <= k < scores@.len() ==> #[trigger] scores@[k].wf(),
    ensures
        r.status == scan_status(scan_all(-half_width, scores@)),
        r.angle == scan_angle(scan_all(-half_width, scores@), step),
        r.candidates@ == scan_candidates(scan_all(-half_width, scores@), step),
        r.candidates@ == best_indices(-half_width, scores@, scores@.len() as int).map_values(
            |i: i32| (i * step) as i64,
        ),
{
    proof {
        lemma_sweep_keeps_lexicographic_maxima(-half_width, scores@);
    }
    let mut scan = ProjectionScan::new();
    let first: i32 = -(half_width as i32);
    let mut k: usize = 0;
    while k < scores.len()
        invariant
            k <= scores@.len(),
            scores@.len() == 2 * half_width,
            first == -half_width,
            forall|j: int| 0 <= j < scores@.len() ==> #[trigger] scores@[j].wf(),
            scan.wf(),
            scan.view() == scan_all(first as int, scores@.take(k as int)),
        decreases scores@.len() - k,
    {
        let index: i32 = first + k as i32;
        proof {
            assert(scores@.take(k as int + 1).drop_last() =~= scores@.take(k as int));
            assert(scores@.take(k as int + 1).last() == scores@[k as int]);
        }
        scan.observe(index, scores[k]);
        k = k + 1;
    }
    assert(scores@.take(scores@.len() as int) =~= scores@);
    scan.result(step)
}

/// Per-index scores gathered by a parallel sweep, in any order.
#[derive(Clone, Debug)]
pub struct ScoreTable {
    pub slots: Vec<Option<AngleScore>>,
}

/// Table after writing each `(slot, score)` of `writes` in turn.
pub open spec fn fill(t: Seq<Option<AngleScore>>, writes: Seq<(int, AngleScore)>) -> Seq<Option<AngleScore>>
    decreases writes.len(),
{
    if writes.len() == 0 {
        t
    } else {
        let w = writes.last();
        let before = fill(t, writes.drop_last());
        if 0 <= w.0 < before.len() {
            before.update(w.0, Some(w.1))
        } else {
            before
        }
    }
}

impl ScoreTable {
    /// A table of `len` empty slots.
    pub fn new(len: usize) -> (r: ScoreTable)
        ensures
            r.slots@.len() == len,
            forall|k: int| 0 <= k < len ==> #[trigger] r.slots@[k] is None,
    {
        let mut slots: Vec<Option<AngleScore>> = Vec::with_capacity(len);
        let mut k: usize = 0;
        while k < len
            invariant
                k <= len,
                slots@.len() == k,
                forall|j: int| 0 <= j < k ==> #[trigger] slots@[j] is None,
            decreases len - k,
        {
            slots.push(None);
            k = k + 1;
        }
        ScoreTable { slots }
    }

    /// Writes the scores of one slot.
    pub fn record(&mut self, slot: usize, score: AngleScore)
        requires
            slot < old(self).slots@.len(),
        ensures
            final(self).slots@ == fill(old(self).slots@, seq![(slot as int, score)]),
    {
        self.slots.set(slot, Some(score));
        proof {
            let w = seq![(slot as int, score)];
            assert(w.drop_last() =~= Seq::<(int, AngleScore)>::empty());
            assert(fill(old(self).slots@, w.drop_last()) == old(self).slots@);
            assert(w.last() == (slot as int, score));
        }
    }

    /// All scores in slot order, once every slot is written.
    pub fn complete(&self) -> (r: Option<Vec<AngleScore>>)
        ensures
            r is Some <==> forall|k: int| 0 <= k < self.slots@.len() ==> #[trigger] self.slots@[k] is Some,
            r is Some ==> r->0@.len() == self.slots@.len() && forall|k: int|
                0 <= k < self.slots@.len() ==> self.slots@[k] == Some(#[trigger] r->0@[k]),
    {
        let mut out: Vec<AngleScore> = Vec::with_capacity(self.slots.len());
        let mut k: usize = 0;
        while k < self.slots.len()
            invariant
                k <= self.slots@.len(),
                out@.len() == k,
                forall|j: int| 0 <= j < k ==> self.slots@[j] == Some(#[trigger] out@[j]),
            decreases self.slots@.len() - k,
        {
            match self.slots[k] {
                Some(score) => out.push(score),
                None => return None,
            }
            k = k + 1;
        }
        assert forall|j: int| 0 <= j < self.slots@.len() implies #[trigger] self.slots@[j] is Some by {
            assert(self.slots@[j] == Some(out@[j]));
        }
        Some(out)
    }
}

/// Some write of `writes` goes to slot `k`.
pub open spec fn slot_written(writes: Seq<(int, AngleScore)>, k: int) -> bool {
    exists|a: int| 0 <= a < writes.len() && #[trigger] writes[a].0 == k
}

proof fn lemma_fill_slot(t: Seq<Option<AngleScore>>, writes: Seq<(int, AngleScore)>, scores: Seq<AngleScore>, k: int)
    requires
        0 <= k < t.len(),
        t.len() == scores.len(),
        forall|a: int| 0 <= a < writes.len() && #[trigger] writes[a].0 == k ==> writes[a].1 == scores[k],
    ensures
        fill(t, writes).len() == t.len(),
        slot_written(writes, k) ==> fill(t, writes)[k] == Some(scores[k]),
        (forall|a: int| 0 <= a < writes.len() ==> #[trigger] writes[a].0 != k) ==> fill(t, writes)[k] == t[k],
    decreases writes.len(),
{
    if writes.len() > 0 {
        let rest = writes.drop_last();
        let last = writes.len() - 1;
        assert forall|a: int| 0 <= a < rest.len() && #[trigger] rest[a].0 == k implies rest[a].1 == scores[k] by {
            assert(rest[a] == writes[a]);
        }
        lemma_fill_slot(t, rest, scores, k);
        if writes[last].0 != k {
            if slot_written(writes, k) {
                let a = choose|a: int| 0 <= a < writes.len() && #[trigger] writes[a].0 == k;
                assert(rest[a] == writes[a]);
            }
            if forall|a: int| 0 <= a < writes.len() ==> #[trigger] writes[a].0 != k {
                assert forall|a: int| 0 <= a < rest.len() implies #[trigger] rest[a].0 != k by {
                    assert(rest[a] == writes[a]);
                }
            }
        }
    }
}

/// Whatever order the workers of a parallel sweep write their slots in, and
/// however often a slot is written, as long as every write of a slot carries
/// that angle's scores and every slot of the empty table is written, the
/// table ends up holding exactly the scores that the sequential sweep
/// computes in order, so both settle on the same result.
pub proof fn lemma_parallel_fill_matches_sequential(
    empty: Seq<Option<AngleScore>>,
    writes: Seq<(int, AngleScore)>,
    scores: Seq<AngleScore>,
)
    requires
        empty.len() == scores.len(),
        forall|a: int| 0 <= a < writes.len() ==> 0 <= #[trigger] writes[a].0 < scores.len() && writes[a].1 == scores[writes[a].0],
        forall|k: int| 0 <= k < scores.len() ==> #[trigger] slot_written(writes, k),
    ensures
        fill(empty, writes) == scores.map_values(|s: AngleScore| Some(s)),
{
    let n = scores.len() as int;
    assert forall|k: int| 0 <= k < n implies #[trigger] fill(empty, writes)[k] == Some(scores[k]) by {
        lemma_fill_slot(empty, writes, scores, k);
    }
    if n == 0 {
        assert(fill(empty, writes) =~= empty);
    } else {
        lemma_fill_slot(empty, writes, scores, 0);
    }
    assert(fill(empty, writes) =~= scores.map_values(|s: AngleScore| Some(s)));
}

/// `s` is below `t` in the lexicographic order on (row, column) deviation,
/// by value.
pub open spec fn score_lt(s: AngleScore, t: AngleScore) -> bool {
    s.horizontal.spec_lt(t.horizontal) || (s.horizontal.spec_same(t.horizontal)
        && s.vertical.spec_lt(t.vertical))
}

/// `s` and `t` have equal deviations, by value.
pub open spec fn score_same(s: AngleScore, t: AngleScore) -> bool {
    s.horizontal.spec_same(t.horizontal) && s.vertical.spec_same(t.vertical)
}

/// No score of `scores` lies above `scores[k]`.
pub open spec fn is_best(scores: Seq<AngleScore>, k: int) -> bool {
    forall|j: int| 0 <= j < scores.len() ==> !score_lt(scores[k], #[trigger] scores[j])
}

/// Indices `first + k`, for `k < n` in order, of the scores that no score of
/// `scores` lies above.
pub open spec fn best_indices(first: int, scores: Seq<AngleScore>, n: int) -> Seq<i32>
    decreases n,
{
    if n <= 0 {
        Seq::empty()
    } else {
        let before = best_indices(first, scores, n - 1);
        if is_best(scores, n - 1) {
            before.push((first + n - 1) as i32)
        } else {
            before
        }
    }
}

/// Indices `first + k`, for `k < n` in order, of the scores equal to `m`.
pub open spec fn same_indices(first: int, scores: Seq<AngleScore>, m: AngleScore, n: int) -> Seq<i32>
    decreases n,
{
    if n <= 0 {
        Seq::empty()
    } else {
        let before = same_indices(first, scores, m, n - 1);
        if score_same(scores[n - 1], m) {
            before.push((first + n - 1) as i32)
        } else {
            before
        }
    }
}

/// Best scores of a sweep state, as one score.
pub open spec fn scan_best(m: ScanModel) -> AngleScore {
    AngleScore { horizontal: m.max_horizontal, vertical: m.max_vertical }
}

proof fn lemma_frac_trans(a: Fraction, b: Fraction, c: Fraction)
    requires
        a.wf(),
        b.wf(),
        c.wf(),
    ensures
        a.spec_lt(b) && b.spec_lt(c) ==> a.spec_lt(c),
        a.spec_lt(b) && b.spec_same(c) ==> a.spec_lt(c),
        a.spec_same(b) && b.spec_lt(c) ==> a.spec_lt(c),
        a.spec_same(b) && b.spec_same(c) ==> a.spec_same(c),
{
    let (an, ad, bn, bd, cn, cd) = (a.num as int, a.den as int, b.num as int, b.den as int, c.num as int, c.den as int);
    assert(an * bd * cd <= bn * ad * cd && bn * cd * ad <= cn * bd * ad ==> an * cd * bd <= cn * ad * bd) by (nonlinear_arith);
    assert(an * bd <= bn * ad && bn * cd <= cn * bd ==> an * cd * bd <= cn * ad * bd) by (nonlinear_arith)
        requires
            ad > 0,
            bd > 0,
            cd > 0,
    ;
    assert(an * bd < bn * ad && bn * cd <= cn * bd ==> an * cd * bd < cn * ad * bd) by (nonlinear_arith)
        requires
            ad > 0,
            bd > 0,
            cd > 0,
    ;
    assert(an * bd <= bn * ad && bn * cd < cn * bd ==> an * cd * bd < cn * ad * bd) by (nonlinear_arith)
        requires
            ad > 0,
            bd > 0,
            cd > 0,
    ;
    assert(an * bd == bn * ad && bn * cd == cn * bd ==> an * cd * bd == cn * ad * bd) by (nonlinear_arith)
        requires
            ad > 0,
            bd > 0,
            cd > 0,
    ;
    assert(an * cd * bd == cn * ad * bd ==> an * cd == cn * ad) by (nonlinear_arith)
        requires
            bd > 0,
    ;
    assert(an * cd * bd <= cn * ad * bd ==> an * cd <= cn * ad) by (nonlinear_arith)
        requires
            bd > 0,
    ;
    assert(an * cd * bd < cn * ad * bd ==> an * cd < cn * ad) by (nonlinear_arith)
        requires
            bd > 0,
    ;
}

proof fn lemma_frac_nonneg(a: Fraction)
    ensures
        !a.spec_lt(zero_score().horizontal),
        a.spec_same(zero_score().horizontal) || zero_score().horizontal.spec_lt(a),
{
}

/// `s` is not above `t`.
spec fn score_le(s: AngleScore, t: AngleScore) -> bool {
    !score_lt(t, s)
}

proof fn lemma_score_trans(s: AngleScore, t: AngleScore, u: AngleScore)
    requires
        s.wf(),
        t.wf(),
        u.wf(),
    ensures
        score_le(s, t) && score_le(t, u) ==> score_le(s, u),
        score_le(s, t) && score_lt(t, u) ==> score_lt(s, u),
        score_lt(s, t) && score_le(t, u) ==> score_lt(s, u),
        score_same(s, t) && score_same(t, u) ==> score_same(s, u),
        score_same(s, t) ==> score_same(t, s) && score_le(s, t) && score_le(t, s),
        score_le(s, t) && score_le(t, s) ==> score_same(s, t),
        score_same(s, s),
{
    lemma_frac_trans(s.horizontal, t.horizontal, u.horizontal);
    lemma_frac_trans(s.vertical, t.vertical, u.vertical);
}

proof fn lemma_same_indices_none(first: int, s: Seq<AngleScore>, m: AngleScore, n: int)
    requires
        n <= s.len(),
        forall|k: int| 0 <= k < n ==> !score_same(#[trigger] s[k], m),
    ensures
        same_indices(first, s, m, n) == Seq::<i32>::empty(),
    decreases n,
{
    if n > 0 {
        lemma_same_indices_none(first, s, m, n - 1);
    }
}

proof fn lemma_same_indices_prefix(first: int, s: Seq<AngleScore>, m: AngleScore, n: int)
    requires
        0 <= n < s.len(),
    ensures
        same_indices(first, s, m, n) == same_indices(first, s.drop_last(), m, n),
    decreases n,
{
    if n > 0 {
        lemma_same_indices_prefix(first, s, m, n - 1);
        assert(s[n - 1] == s.drop_last()[n - 1]);
    }
}

/// The start state's best score: zero on both axes.
pub open spec fn zero_score() -> AngleScore {
    AngleScore { horizontal: Fraction { num: 0, den: 1 }, vertical: Fraction { num: 0, den: 1 } }
}

proof fn lemma_scan_tracks_maxima(first: int, s: Seq<AngleScore>)
    requires
        forall|k: int| 0 <= k < s.len() ==> #[trigger] s[k].wf(),
    ensures
        scan_best(scan_all(first, s)).wf(),
        forall|k: int| 0 <= k < s.len() ==> score_le(#[trigger] s[k], scan_best(scan_all(first, s))),
        (scan_best(scan_all(first, s)) == zero_score()) || (exists|k: int|
            0 <= k < s.len() && score_same(#[trigger] s[k], scan_best(scan_all(first, s)))),
        scan_all(first, s).candidates == same_indices(first, s, scan_best(scan_all(first, s)), s.len() as int),
    decreases s.len(),
{
    if s.len() > 0 {
        let t = s.drop_last();
        assert forall|k: int| 0 <= k < t.len() implies #[trigger] t[k].wf() by {
            assert(t[k] == s[k]);
        }
        lemma_scan_tracks_maxima(first, t);
        let m0 = scan_all(first, t);
        let b0 = scan_best(m0);
        let n = s.len() as int;
        let x = s[n - 1];
        assert(s[n - 1].wf());
        let m = scan_all(first, s);
        let b = scan_best(m);
        assert(s.last() == x);
        assert(m == scan_step(m0, (first + n - 1) as i32, x));
        lemma_score_trans(x, b0, x);
        lemma_score_trans(b0, x, b0);
        lemma_score_trans(b, x, b);
        lemma_score_trans(x, b, x);
        lemma_score_trans(b0, b, b0);
        lemma_frac_trans(b0.horizontal, x.horizontal, b0.horizontal);
        lemma_frac_trans(x.horizontal, b0.horizontal, x.horizontal);
        lemma_frac_trans(b0.vertical, x.vertical, b0.vertical);
        lemma_frac_trans(x.vertical, b0.vertical, x.vertical);
        lemma_same_indices_prefix(first, s, b, n - 1);
        // every earlier score stays at or below the best
        assert forall|k: int| 0 <= k < n implies score_le(#[trigger] s[k], b) by {
            if k < n - 1 {
                assert(s[k] == t[k]);
                assert(s[k].wf());
                assert(score_le(t[k], b0));
                lemma_score_trans(s[k], b0, b);
                lemma_frac_trans(s[k].horizontal, b0.horizontal, x.horizontal);
                lemma_frac_trans(s[k].vertical, b0.vertical, x.vertical);
            }
        }
        if b != b0 {
            // the best moved up to x's level: no earlier score equals it
            assert forall|k: int| 0 <= k < n - 1 implies !score_same(#[trigger] s[k], b) by {
                assert(s[k] == t[k]);
                assert(s[k].wf());
                assert(score_le(t[k], b0));
                lemma_frac_trans(s[k].horizontal, b0.horizontal, x.horizontal);
                lemma_frac_trans(s[k].vertical, b0.vertical, x.vertical);
                lemma_frac_trans(s[k].horizontal, b0.horizontal, s[k].horizontal);
                lemma_frac_trans(b0.horizontal, s[k].horizontal, b0.horizontal);
                lemma_frac_trans(s[k].vertical, b.vertical, s[k].vertical);
                lemma_frac_trans(s[k].vertical, x.vertical, b0.vertical);
                lemma_frac_trans(s[k].horizontal, x.horizontal, b0.horizontal);
                lemma_frac_trans(b0.horizontal, s[k].horizontal, x.horizontal);
            }
            lemma_same_indices_none(first, s, b, n - 1);
        } else {
            if exists|k: int| 0 <= k < t.len() && score_same(#[trigger] t[k], b0) {
                let k = choose|k: int| 0 <= k < t.len() && score_same(#[trigger] t[k], b0);
                assert(s[k] == t[k]);
            }
        }
    }
}

proof fn lemma_same_is_best(first: int, s: Seq<AngleScore>, m: AngleScore, n: int)
    requires
        n <= s.len(),
        forall|k: int| 0 <= k < n ==> (score_same(#[trigger] s[k], m) <==> is_best(s, k)),
    ensures
        same_indices(first, s, m, n) == best_indices(first, s, n),
    decreases n,
{
    if n > 0 {
        lemma_same_is_best(first, s, m, n - 1);
        assert(score_same(s[n - 1], m) <==> is_best(s, n - 1));
    }
}

/// The projection sweep keeps exactly the angles whose (row, column)
/// deviations are lexicographically greatest, with exact ties all kept, in
/// sweep order.
pub proof fn lemma_sweep_keeps_lexicographic_maxima(first: int, scores: Seq<AngleScore>)
    requires
        forall|k: int| 0 <= k < scores.len() ==> #[trigger] scores[k].wf(),
    ensures
        scan_all(first, scores).candidates == best_indices(first, scores, scores.len() as int),
{
    lemma_scan_tracks_maxima(first, scores);
    let b = scan_best(scan_all(first, scores));
    assert forall|k: int| 0 <= k < scores.len() implies (score_same(#[trigger] scores[k], b) <==> is_best(scores, k)) by {
        assert(scores[k].wf());
        if score_same(scores[k], b) {
            assert forall|j: int| 0 <= j < scores.len() implies !score_lt(scores[k], #[trigger] scores[j]) by {
                assert(scores[j].wf());
                assert(score_le(scores[j], b));
                lemma_score_trans(scores[j], b, scores[k]);
                lemma_score_trans(scores[k], b, scores[k]);
            }
        }
        if is_best(scores, k) {
            assert(score_le(scores[k], b));
            if b == zero_score() {
                lemma_frac_nonneg(scores[k].horizontal);
                lemma_frac_nonneg(scores[k].vertical);
                lemma_score_trans(scores[k], b, scores[k]);
            } else {
                let j = choose|j: int| 0 <= j < scores.len() && score_same(#[trigger] scores[j], b);
                assert(scores[j].wf());
                assert(!score_lt(scores[k], scores[j]));
                lemma_score_trans(b, scores[j], scores[k]);
                lemma_score_trans(scores[j], b, scores[j]);
                lemma_score_trans(scores[k], b, scores[k]);
            }
        }
    }
    lemma_same_is_best(first, scores, b, scores.len() as int);
}

} // verus!
