use veridict::metrics::{
    bootstrap_method_label, ci_method_label, effective_outcome, failure_policy_label, metric_label,
    parse_result_outcome, tally_status, FailureCounts,
};
use veridict::{
    BootstrapMethod, CiMethod, FailurePolicy, MatchOutcome, MetricKind, Outcome, Promotion,
    TrialStatus, Validity, Verdict, VeridictError,
};

#[test]
fn effective_outcome_report_only_ignores_a_status_only_failure() {
    let out = effective_outcome(
        FailurePolicy::ReportOnly,
        Some(TrialStatus::Crash),
        None,
        None,
        1,
    )
    .unwrap();
    assert_eq!(out, None);
}

#[test]
fn effective_outcome_report_only_still_honors_a_result_next_to_a_failure() {
    let out = effective_outcome(
        FailurePolicy::ReportOnly,
        None,
        Some(TrialStatus::Crash),
        Some("candidate_win"),
        1,
    )
    .unwrap();
    assert_eq!(out, Some(Outcome::CandidateWin));
}

#[test]
fn effective_outcome_exclude_drops_a_result_next_to_a_failure() {
    let out = effective_outcome(
        FailurePolicy::Exclude,
        None,
        Some(TrialStatus::Crash),
        Some("candidate_win"),
        1,
    )
    .unwrap();
    assert_eq!(out, None);
}

#[test]
fn effective_outcome_exclude_matches_report_only_without_a_failure() {
    let out =
        effective_outcome(FailurePolicy::Exclude, None, None, Some("candidate_win"), 1).unwrap();
    assert_eq!(out, Some(Outcome::CandidateWin));
}

#[test]
fn effective_outcome_loss_synthesizes_baseline_win_on_a_candidate_failure() {
    let out = effective_outcome(
        FailurePolicy::Loss,
        None,
        Some(TrialStatus::Timeout),
        None,
        1,
    )
    .unwrap();
    assert_eq!(out, Some(Outcome::BaselineWin));
}

#[test]
fn effective_outcome_loss_synthesizes_candidate_win_on_a_baseline_failure() {
    let out =
        effective_outcome(FailurePolicy::Loss, Some(TrialStatus::Crash), None, None, 1).unwrap();
    assert_eq!(out, Some(Outcome::CandidateWin));
}

#[test]
fn effective_outcome_loss_both_sides_failing_nets_to_a_draw() {
    let out = effective_outcome(
        FailurePolicy::Loss,
        Some(TrialStatus::Invalid),
        Some(TrialStatus::Crash),
        None,
        1,
    )
    .unwrap();
    assert_eq!(out, Some(Outcome::Draw));
}

#[test]
fn effective_outcome_loss_overrides_a_literal_result() {
    let out = effective_outcome(
        FailurePolicy::Loss,
        None,
        Some(TrialStatus::Crash),
        Some("candidate_win"),
        1,
    )
    .unwrap();
    assert_eq!(out, Some(Outcome::BaselineWin));
}

#[test]
fn effective_outcome_loss_falls_through_to_result_without_a_failure() {
    let out = effective_outcome(FailurePolicy::Loss, None, None, Some("candidate_win"), 1).unwrap();
    assert_eq!(out, Some(Outcome::CandidateWin));
}

#[test]
fn effective_outcome_malformed_result_next_to_a_failure_is_not_an_error_under_exclude() {
    let out = effective_outcome(
        FailurePolicy::Exclude,
        None,
        Some(TrialStatus::Crash),
        Some("not-a-real-outcome"),
        1,
    )
    .unwrap();
    assert_eq!(out, None);
}

#[test]
fn effective_outcome_malformed_result_is_still_an_error_when_actually_consulted() {
    assert!(matches!(
        effective_outcome(
            FailurePolicy::ReportOnly,
            None,
            None,
            Some("not-a-real-outcome"),
            1
        ),
        Err(VeridictError::UnrecognizedOutcome { .. })
    ));
}

#[test]
fn status_parse_accepts_exactly_the_four_spellings() {
    assert_eq!(TrialStatus::parse("ok"), Some(TrialStatus::Succeeded));
    assert_eq!(TrialStatus::parse("timeout"), Some(TrialStatus::Timeout));
    assert_eq!(TrialStatus::parse("crash"), Some(TrialStatus::Crash));
    assert_eq!(TrialStatus::parse("invalid"), Some(TrialStatus::Invalid));
    assert_eq!(TrialStatus::parse("OK"), None);
    assert_eq!(TrialStatus::parse(""), None);
}

#[test]
fn outcome_parse_accepts_exactly_the_three_spellings() {
    assert_eq!(Outcome::parse("baseline_win"), Some(Outcome::BaselineWin));
    assert_eq!(Outcome::parse("candidate_win"), Some(Outcome::CandidateWin));
    assert_eq!(Outcome::parse("draw"), Some(Outcome::Draw));
    assert_eq!(Outcome::parse("win"), None);
    assert_eq!(MatchOutcome::parse("a_win"), Some(MatchOutcome::AWin));
    assert_eq!(MatchOutcome::parse("b_win"), Some(MatchOutcome::BWin));
    assert_eq!(MatchOutcome::parse("draw"), Some(MatchOutcome::Draw));
    assert_eq!(MatchOutcome::parse("candidate_win"), None);
}

#[test]
fn tally_status_counts_only_failures() {
    let mut counts = FailureCounts::new();
    assert_eq!(
        tally_status("ok", 1, "baseline_status", &mut counts).unwrap(),
        TrialStatus::Succeeded
    );
    tally_status("timeout", 2, "baseline_status", &mut counts).unwrap();
    tally_status("crash", 3, "baseline_status", &mut counts).unwrap();
    tally_status("crash", 4, "baseline_status", &mut counts).unwrap();
    tally_status("invalid", 5, "baseline_status", &mut counts).unwrap();
    assert_eq!((counts.timeout, counts.crash, counts.invalid), (1, 2, 1));
}

#[test]
fn tally_status_rejects_an_unknown_status_without_counting_it() {
    let mut counts = FailureCounts::new();
    match tally_status("bogus", 7, "candidate_status", &mut counts) {
        Err(VeridictError::UnrecognizedStatus { line, field, value }) => {
            assert_eq!(line, 7);
            assert_eq!(field, "candidate_status");
            assert_eq!(value, "bogus");
        }
        other => panic!("unexpected {other:?}"),
    }
    assert_eq!((counts.timeout, counts.crash, counts.invalid), (0, 0, 0));
}

#[test]
fn parse_result_outcome_reports_the_expected_spellings() {
    assert_eq!(parse_result_outcome(None, 3).unwrap(), None);
    assert_eq!(parse_result_outcome(Some("draw"), 3).unwrap(), Some(Outcome::Draw));
    match parse_result_outcome(Some("tie"), 3) {
        Err(VeridictError::UnrecognizedOutcome { line, value, expected }) => {
            assert_eq!(line, 3);
            assert_eq!(value, "tie");
            assert_eq!(expected, "baseline_win|candidate_win|draw");
        }
        other => panic!("unexpected {other:?}"),
    }
}

#[test]
fn labels_match_the_cli_spellings() {
    assert_eq!(metric_label(MetricKind::WinRate), "metric winrate");
    assert_eq!(metric_label(MetricKind::QuantileDiff), "metric quantile-diff");
    assert_eq!(ci_method_label(CiMethod::Jeffreys), "jeffreys");
    assert_eq!(failure_policy_label(FailurePolicy::ReportOnly), "report-only");
    assert_eq!(bootstrap_method_label(BootstrapMethod::Bca), "bca");
}

#[test]
fn promotion_needs_valid_data_and_a_pass() {
    assert_eq!(Promotion::decide(Validity::Valid, Verdict::Pass), Promotion::Promoted);
    assert_eq!(Promotion::decide(Validity::Invalid, Verdict::Pass), Promotion::NotPromoted);
    assert_eq!(Promotion::decide(Validity::Valid, Verdict::Inconclusive), Promotion::NotPromoted);
}
