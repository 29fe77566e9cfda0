use veridict::cli::{
    exit_code_for, power_metric_arg_label, resolve_format, InputFormat, PowerMetric, PowerMetricArg,
};
use veridict::graph::{leave_one_game_out, same_component_pairs, PairRecord};
use veridict::matrix::CellStatus;
use veridict::metrics::{pilot_record, Reading};
use veridict::pairing::{Observation, ValueCollector};
use veridict::plan::{recommendation_note, recommendation_order, RecommendationKey};
use veridict::{CiMethod, MatchOutcome, MetricKind, Verdict, VeridictError};

fn key(has_ci: bool, estimate: Option<u64>, row: &str, col: &str) -> RecommendationKey {
    RecommendationKey { has_ci, estimate, row: row.to_string(), col: col.to_string() }
}

#[test]
fn recommendations_sort_disconnected_pairs_before_finite_ci_pairs() {
    let keys = vec![
        key(true, Some(10), "a", "b"),
        key(false, None, "c", "d"),
        key(true, Some(500), "a", "c"),
    ];
    assert_eq!(recommendation_order(&keys), vec![1, 2, 0]);
}

#[test]
fn recommendation_ties_break_by_row_then_column() {
    let keys = vec![
        key(true, Some(0), "b", "a"),
        key(true, Some(0), "a", "z"),
        key(true, Some(0), "a", "c"),
        key(true, None, "q", "r"),
    ];
    assert_eq!(recommendation_order(&keys), vec![3, 2, 1, 0]);
    assert_eq!(recommendation_order(&[]), Vec::<usize>::new());
}

#[test]
fn recommendation_notes_explain_the_missing_estimate() {
    assert!(recommendation_note(CellStatus::Disconnected).starts_with("disconnected - no head-to-head path"));
    assert!(recommendation_note(CellStatus::Direct).starts_with("connected in the observed data"));
}

#[test]
fn format_follows_the_extension_unless_asked() {
    assert_eq!(resolve_format(Some("csv"), None), InputFormat::Csv);
    assert_eq!(resolve_format(Some("CsV"), None), InputFormat::Csv);
    assert_eq!(resolve_format(Some("jsonl"), None), InputFormat::Jsonl);
    assert_eq!(resolve_format(None, None), InputFormat::Jsonl);
    assert_eq!(resolve_format(Some("csv"), Some(InputFormat::Jsonl)), InputFormat::Jsonl);
}

#[test]
fn exit_codes_follow_the_verdict() {
    assert_eq!(exit_code_for(Verdict::Pass), 0);
    assert_eq!(exit_code_for(Verdict::Fail), 1);
    assert_eq!(exit_code_for(Verdict::Inconclusive), 2);
    assert_eq!(power_metric_arg_label(PowerMetricArg::SignTest), "sign-test");
}

#[test]
fn power_metric_rejects_non_wilson_for_elo() {
    let r: Result<PowerMetric<f64>, VeridictError> = PowerMetric::new(MetricKind::Elo, CiMethod::Exact);
    match r {
        Err(VeridictError::IncompatibleCiMethod { method, metric }) => {
            assert_eq!(method, "exact");
            assert_eq!(metric, "metric elo");
        }
        other => panic!("unexpected {other:?}"),
    }
    let ok: PowerMetric<f64> = PowerMetric::new(MetricKind::Elo, CiMethod::Wilson).unwrap();
    assert_eq!(ok.kind(), MetricKind::Elo);
    assert_eq!(ok.ci_method(), CiMethod::Wilson);
}

#[test]
fn power_metric_rejects_mean_diff() {
    let r: Result<PowerMetric<f64>, VeridictError> = PowerMetric::new(MetricKind::MeanDiff, CiMethod::Wilson);
    assert!(matches!(r, Err(VeridictError::UnsupportedPowerMetric { metric: "metric mean-diff" })));
    let w: PowerMetric<f64> = PowerMetric::new(MetricKind::SignTest, CiMethod::Jeffreys).unwrap();
    assert_eq!(w.ci_method(), CiMethod::Jeffreys);
}

#[test]
fn leaving_one_game_out_drops_an_emptied_pair() {
    let pairs = [
        PairRecord { a: 0, b: 1, a_wins: 1, b_wins: 0, draws: 0 },
        PairRecord { a: 1, b: 2, a_wins: 2, b_wins: 1, draws: 0 },
    ];
    assert!(leave_one_game_out(&pairs, 0, MatchOutcome::Draw).is_none());
    let dropped = leave_one_game_out(&pairs, 0, MatchOutcome::AWin).unwrap();
    assert_eq!(dropped, vec![pairs[1]]);
    let fewer = leave_one_game_out(&pairs, 1, MatchOutcome::BWin).unwrap();
    assert_eq!(fewer[1], PairRecord { a: 1, b: 2, a_wins: 2, b_wins: 0, draws: 0 });
    assert_eq!(fewer[0], pairs[0]);
}

#[test]
fn same_component_pairs_lists_every_comparable_pair_once() {
    assert_eq!(same_component_pairs(&[0, 1, 0, 1, 2]), vec![(0, 2), (1, 3)]);
    assert_eq!(same_component_pairs(&[3, 3, 3]), vec![(0, 1), (0, 2), (1, 2)]);
}

#[test]
fn pilot_records_need_both_numbers() {
    let mut c: ValueCollector<f64> = ValueCollector::new(false);
    match pilot_record(&mut c, 4, Some("a"), None) {
        Err(VeridictError::SchemaMismatch { line, context, detail }) => {
            assert_eq!((line, context), (4, "power --pilot"));
            assert_eq!(detail, "record has no baseline/candidate numeric fields");
        }
        other => panic!("unexpected {other:?}"),
    }
    assert!(matches!(
        pilot_record(&mut c, 5, Some("a"), Some(Reading::NonFinite("candidate"))),
        Err(VeridictError::NonFiniteValue { line: 5, field: "candidate" })
    ));
    pilot_record(&mut c, 6, Some("a"), Some(Reading::Value(0.5))).unwrap();
    assert!(matches!(
        pilot_record(&mut c, 7, Some("a"), Some(Reading::Value(0.5))),
        Err(VeridictError::DuplicateId { .. })
    ));
    let obs = c.finish().unwrap();
    assert!(matches!(obs[..], [Observation::Single(v)] if v == 0.5));
}
