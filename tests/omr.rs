use oics::calculate::Fraction;
use oics::hough::{fold_angle, get_result_from_edges_detection};
use oics::omr::{needs_second_opinion, reconcile, OmrError, OmrResult, ResultStatus};
use oics::projection::{
    get_result_from_projection, projection_sweep_half_width, sweep_angle, AngleScore,
    ProjectionScan, ScoreTable,
};

fn frac(num: u128, den: u128) -> Fraction {
    Fraction { num, den }
}

fn score(h: u128, v: u128) -> AngleScore {
    AngleScore { horizontal: frac(h, 1), vertical: frac(v, 1) }
}

fn result(angle: i64, status: ResultStatus, candidates: Vec<i64>) -> OmrResult {
    OmrResult { angle, status, candidates }
}

#[test]
fn sweep_half_width_rounds_to_nearest() {
    assert_eq!(projection_sweep_half_width(45, 200_000), Ok(225));
    assert_eq!(projection_sweep_half_width(1, 300_000), Ok(3));
    assert_eq!(projection_sweep_half_width(1, 400_000), Ok(3));
    assert_eq!(projection_sweep_half_width(1, 600_000), Ok(2));
    assert_eq!(projection_sweep_half_width(0, 200_000), Ok(0));
}

#[test]
fn sweep_half_width_rejects_bad_steps() {
    assert_eq!(projection_sweep_half_width(45, 0), Err(OmrError::InvalidConfiguration));
    assert_eq!(projection_sweep_half_width(45, 1), Err(OmrError::InvalidConfiguration));
}

#[test]
fn sweep_angle_scales_index() {
    assert_eq!(sweep_angle(-35, 200_000), -7_000_000);
    assert_eq!(sweep_angle(3, 250_000), 750_000);
}

#[test]
fn unique_maximum_is_believed() {
    let scores = vec![score(1, 5), score(4, 1), score(2, 9), score(3, 3)];
    let r = get_result_from_projection(2, 200_000, &scores);
    assert_eq!(r.status, ResultStatus::Believed);
    assert_eq!(r.angle, -200_000);
    assert_eq!(r.candidates, vec![-200_000]);
}

#[test]
fn row_tie_broken_by_columns_needs_check() {
    let scores = vec![score(4, 1), score(4, 2), score(1, 9), score(0, 0)];
    let r = get_result_from_projection(2, 100_000, &scores);
    assert_eq!(r.status, ResultStatus::NeedCheck);
    assert_eq!(r.angle, -100_000);
    assert_eq!(r.candidates, vec![-100_000]);
}

#[test]
fn full_tie_is_not_a_result() {
    let scores = vec![score(4, 2), score(1, 1), score(4, 2), score(2, 2)];
    let r = get_result_from_projection(2, 100_000, &scores);
    assert_eq!(r.status, ResultStatus::NotAResult);
    assert_eq!(r.angle, 0);
    assert_eq!(r.candidates, vec![-200_000, 0]);
}

#[test]
fn empty_sweep_is_not_a_result() {
    let r = get_result_from_projection(0, 100_000, &vec![]);
    assert_eq!(r.status, ResultStatus::NotAResult);
    assert!(r.candidates.is_empty());
}

#[test]
fn ties_compare_by_value_not_representation() {
    let scores = vec![
        AngleScore { horizontal: frac(1, 2), vertical: frac(1, 1) },
        AngleScore { horizontal: frac(2, 4), vertical: frac(3, 3) },
    ];
    let r = get_result_from_projection(1, 100_000, &scores);
    assert_eq!(r.status, ResultStatus::NotAResult);
    assert_eq!(r.candidates, vec![-100_000, 0]);
}

#[test]
fn scan_observes_online() {
    let mut scan = ProjectionScan::new();
    scan.observe(-1, score(2, 2));
    scan.observe(0, score(5, 1));
    scan.observe(1, score(5, 0));
    let r = scan.result(1_000_000);
    assert_eq!(r.status, ResultStatus::NeedCheck);
    assert_eq!(r.angle, 0);
    assert_eq!(scan.horizontal_ties, 2);
    assert_eq!(scan.vertical_ties, 1);
}

#[test]
fn parallel_table_matches_sequential_sweep() {
    let scores = vec![score(3, 1), score(7, 2), score(7, 2), score(1, 8), score(7, 1), score(2, 2)];
    let sequential = get_result_from_projection(3, 200_000, &scores);
    let mut table = ScoreTable::new(scores.len());
    for slot in [4usize, 0, 5, 2, 1] {
        table.record(slot, scores[slot]);
        assert!(table.complete().is_none());
    }
    table.record(3, scores[3]);
    let gathered = table.complete().unwrap();
    assert_eq!(gathered, scores);
    let parallel = get_result_from_projection(3, 200_000, &gathered);
    assert_eq!(parallel.status, sequential.status);
    assert_eq!(parallel.angle, sequential.angle);
    assert_eq!(parallel.candidates, sequential.candidates);
    assert_eq!(parallel.candidates, vec![-400_000, -200_000]);
}

#[test]
fn fold_maps_into_quarter_range() {
    assert_eq!(fold_angle(0), 0);
    assert_eq!(fold_angle(45_000_000), 45_000_000);
    assert_eq!(fold_angle(45_000_001), -44_999_999);
    assert_eq!(fold_angle(92_000_000), 2_000_000);
    assert_eq!(fold_angle(-88_000_000), 2_000_000);
    assert_eq!(fold_angle(-45_000_000), -45_000_000);
    assert_eq!(fold_angle(-180_000_000), -90_000_000);
}

#[test]
fn edges_without_segments_fail() {
    assert_eq!(get_result_from_edges_detection(&vec![]).unwrap_err(), OmrError::EmptyDetectionSet);
}

#[test]
fn edges_vote_for_largest_cluster() {
    // folded: 1.0, 1.09, 0.98, -3.0, 1.5 degrees
    let raw = vec![1_000_000, 91_090_000, -89_020_000, -3_000_000, 1_500_000];
    let r = get_result_from_edges_detection(&raw).unwrap();
    assert_eq!(r.status, ResultStatus::Believed);
    assert_eq!(r.angle, 1_000_000);
    assert_eq!(r.candidates, vec![1_000_000]);
}

#[test]
fn edges_tie_needs_check() {
    let raw = vec![2_000_000, -5_000_000, 2_050_000, -5_010_000];
    let r = get_result_from_edges_detection(&raw).unwrap();
    assert_eq!(r.status, ResultStatus::NeedCheck);
    assert_eq!(r.angle, 2_000_000);
    assert_eq!(r.candidates, vec![2_000_000, -5_000_000, 2_050_000, -5_010_000]);
}

#[test]
fn edges_cluster_bound_is_strict() {
    // 0.1 degree apart exactly: no mutual vote
    let raw = vec![0, 100_000, 100_000];
    let r = get_result_from_edges_detection(&raw).unwrap();
    assert_eq!(r.status, ResultStatus::NeedCheck);
    assert_eq!(r.angle, 100_000);
    assert_eq!(r.candidates, vec![100_000, 100_000]);
}

#[test]
fn believed_projection_stands_alone() {
    let p = result(-7_000_000, ResultStatus::Believed, vec![-7_000_000]);
    assert!(!needs_second_opinion(&p));
    let e = result(3_000_000, ResultStatus::Believed, vec![3_000_000]);
    assert_eq!(reconcile(&p, &e), (-7_000_000, false));
}

#[test]
fn need_check_agreeing_with_lines_is_trusted() {
    let p = result(-7_000_000, ResultStatus::NeedCheck, vec![-7_000_000]);
    assert!(needs_second_opinion(&p));
    let e = result(-7_040_000, ResultStatus::Believed, vec![-7_040_000]);
    assert_eq!(reconcile(&p, &e), (-7_000_000, false));
    let e = result(-6_910_000, ResultStatus::Believed, vec![-6_910_000]);
    assert_eq!(reconcile(&p, &e), (-7_000_000, false));
}

#[test]
fn need_check_disagreeing_with_lines_escalates() {
    let p = result(-7_000_000, ResultStatus::NeedCheck, vec![-7_000_000]);
    let e = result(-7_200_000, ResultStatus::Believed, vec![-7_200_000]);
    assert_eq!(reconcile(&p, &e), (-7_200_000, true));
    let e = result(-6_900_000, ResultStatus::NeedCheck, vec![-6_900_000]);
    assert_eq!(reconcile(&p, &e), (-6_900_000, true));
}

#[test]
fn plural_projection_takes_nearest_candidate() {
    let p = result(0, ResultStatus::NotAResult, vec![-2_000_000, 1_000_000, 1_000_000, 4_000_000]);
    let e = result(1_030_000, ResultStatus::Believed, vec![1_030_000]);
    assert_eq!(reconcile(&p, &e), (1_000_000, false));
    let e = result(1_060_000, ResultStatus::Believed, vec![1_060_000]);
    assert_eq!(reconcile(&p, &e), (1_060_000, true));
}

#[test]
fn plural_projection_prefers_first_of_equally_near() {
    let p = result(0, ResultStatus::NotAResult, vec![-20_000, 20_000]);
    let e = result(0, ResultStatus::Believed, vec![0]);
    assert_eq!(reconcile(&p, &e), (-20_000, false));
}

#[test]
fn empty_projection_falls_back_to_lines() {
    let p = result(0, ResultStatus::NotAResult, vec![]);
    let e = result(2_500_000, ResultStatus::NeedCheck, vec![2_500_000, 2_540_000]);
    assert_eq!(reconcile(&p, &e), (2_500_000, true));
}

#[test]
fn rewritten_slots_keep_their_scores() {
    let scores = vec![score(1, 1), score(5, 2), score(3, 3)];
    let mut table = ScoreTable::new(3);
    for slot in [2usize, 1, 2, 0, 1] {
        table.record(slot, scores[slot]);
    }
    assert_eq!(table.complete().unwrap(), scores);
}

#[test]
fn single_segment_is_believed() {
    let r = get_result_from_edges_detection(&vec![170_000_000]).unwrap();
    assert_eq!(r.status, ResultStatus::Believed);
    assert_eq!(r.angle, 80_000_000);
    assert_eq!(r.candidates, vec![80_000_000]);
}
