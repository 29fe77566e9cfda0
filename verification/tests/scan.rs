use veridict::metrics::{Gathered, IdTally, Reading, RecordFields, RecordScan};
use veridict::pairing::{Observation, OutcomeCollector, ValueCollector};
use veridict::quality::{collect_data_quality, IdRepetition, TrialCounts};
use veridict::{FailurePolicy, MetricKind, Outcome, VeridictError};

fn rec<'a>(
    id: Option<&'a str>,
    result: Option<&'a str>,
    bs: Option<&'a str>,
    cs: Option<&'a str>,
) -> RecordFields<'a> {
    RecordFields { id, result, baseline_status: bs, candidate_status: cs }
}

fn winrate() -> (MetricKind, FailurePolicy) {
    (MetricKind::WinRate, FailurePolicy::ReportOnly)
}

fn counts_of(g: &Gathered<f64>) -> (u64, u64, u64) {
    match g {
        Gathered::Counts(b, c, d) => (*b, *c, *d),
        _ => panic!("expected counts"),
    }
}

fn observations_of(g: &Gathered<f64>) -> Vec<Observation<f64>> {
    match g {
        Gathered::Observations(v) => v.clone(),
        _ => panic!("expected observations"),
    }
}

#[test]
fn winrate_excludes_draws_from_n() {
    let mut scan: RecordScan<f64> = RecordScan::new(&[winrate()], false);
    scan.ingest(1, rec(Some("a"), Some("candidate_win"), None, None), None).unwrap();
    scan.ingest(2, rec(Some("b"), Some("baseline_win"), None, None), None).unwrap();
    scan.ingest(3, rec(Some("c"), Some("draw"), None, None), None).unwrap();
    let totals = scan.finish().unwrap();
    let (b, c, d) = counts_of(&totals.gathered[0]);
    assert_eq!(b + c, 2);
    assert_eq!(c, 1);
    assert_eq!(d, 1);
}

#[test]
fn mean_diff_rejects_nan() {
    let mut scan: RecordScan<f64> = RecordScan::new(&[(MetricKind::MeanDiff, FailurePolicy::ReportOnly)], false);
    let r = scan.ingest(1, rec(Some("a"), None, None, None), Some(Reading::NonFinite("baseline")));
    assert!(matches!(r, Err(VeridictError::NonFiniteValue { field: "baseline", .. })));
}

#[test]
fn mean_diff_rejects_duplicate_id() {
    let mut scan: RecordScan<f64> = RecordScan::new(&[(MetricKind::MeanDiff, FailurePolicy::ReportOnly)], false);
    scan.ingest(1, rec(Some("dup"), None, None, None), Some(Reading::Value(0.1))).unwrap();
    let r = scan.ingest(2, rec(Some("dup"), None, None, None), Some(Reading::Value(0.1)));
    match r {
        Err(VeridictError::DuplicateId { id, line }) => {
            assert_eq!(id, "dup");
            assert_eq!(line, 2);
        }
        other => panic!("unexpected {other:?}"),
    }
}

#[test]
fn status_only_records_count_but_are_not_schema_mismatch() {
    let mut scan: RecordScan<f64> = RecordScan::new(&[winrate()], false);
    scan.ingest(1, rec(Some("a"), None, Some("ok"), Some("timeout")), None).unwrap();
    let totals = scan.finish().unwrap();
    assert_eq!(totals.failures.candidate.timeout, 1);
    assert_eq!(totals.failures.baseline.timeout, 0);
    assert_eq!(counts_of(&totals.gathered[0]), (0, 0, 0));
}

#[test]
fn metrics_unusable_record_is_schema_mismatch() {
    let mut scan: RecordScan<f64> = RecordScan::new(&[winrate()], false);
    let r = scan.ingest(1, rec(Some("a"), None, None, None), None);
    match r {
        Err(VeridictError::SchemaMismatch { line, context, detail }) => {
            assert_eq!(line, 1);
            assert_eq!(context, "metric winrate");
            assert_eq!(detail, "record has no fields usable by this metric and no status fields");
        }
        other => panic!("unexpected {other:?}"),
    }
}

#[test]
fn unrecognized_status_is_an_error() {
    let mut scan: RecordScan<f64> = RecordScan::new(&[winrate()], false);
    let r = scan.ingest(1, rec(Some("a"), None, Some("bogus"), None), None);
    assert!(matches!(r, Err(VeridictError::UnrecognizedStatus { field: "baseline_status", .. })));
}

#[test]
fn unrecognized_outcome_is_an_error() {
    let mut scan: RecordScan<f64> = RecordScan::new(&[winrate()], false);
    let r = scan.ingest(1, rec(Some("a"), Some("bogus"), None, None), None);
    assert!(matches!(r, Err(VeridictError::UnrecognizedOutcome { .. })));
}

#[test]
fn paired_winrate_nets_two_games_per_id_by_points() {
    let mut scan: RecordScan<f64> = RecordScan::new(&[winrate()], true);
    // Opening 1: the candidate wins both colors; opening 2: one each way.
    scan.ingest(1, rec(Some("o1"), Some("candidate_win"), None, None), None).unwrap();
    scan.ingest(2, rec(Some("o1"), Some("candidate_win"), None, None), None).unwrap();
    scan.ingest(3, rec(Some("o2"), Some("candidate_win"), None, None), None).unwrap();
    scan.ingest(4, rec(Some("o2"), Some("baseline_win"), None, None), None).unwrap();
    let totals = scan.finish().unwrap();
    assert_eq!(counts_of(&totals.gathered[0]), (0, 1, 1));
}

#[test]
fn paired_winrate_unpaired_singleton_still_counts() {
    let mut scan: RecordScan<f64> = RecordScan::new(&[winrate()], true);
    scan.ingest(1, rec(Some("solo"), Some("candidate_win"), None, None), None).unwrap();
    scan.ingest(2, rec(None, Some("baseline_win"), None, None), None).unwrap();
    let totals = scan.finish().unwrap();
    assert_eq!(counts_of(&totals.gathered[0]), (1, 1, 0));
}

#[test]
fn paired_winrate_rejects_triple_id() {
    let mut scan: RecordScan<f64> = RecordScan::new(&[winrate()], true);
    for line in 1..=3 {
        scan.ingest(line, rec(Some("x"), Some("candidate_win"), None, None), None).unwrap();
    }
    match scan.finish() {
        Err(VeridictError::SchemaMismatch { line, context, detail }) => {
            assert_eq!(line, 1);
            assert_eq!(context, "paired-by-id");
            assert_eq!(detail, "id 'x' appears 3 times; paired mode expects at most 2 records per id");
        }
        Err(other) => panic!("unexpected {other:?}"),
        Ok(_) => panic!("expected an error"),
    }
}

#[test]
fn paired_mean_diff_averages_the_pair() {
    let mut scan: RecordScan<f64> = RecordScan::new(&[(MetricKind::MeanDiff, FailurePolicy::ReportOnly)], true);
    scan.ingest(1, rec(Some("a"), None, None, None), Some(Reading::Value(1.0))).unwrap();
    scan.ingest(2, rec(Some("a"), None, None, None), Some(Reading::Value(3.0))).unwrap();
    let totals = scan.finish().unwrap();
    let obs = observations_of(&totals.gathered[0]);
    assert_eq!(obs.len(), 1);
    match obs[0] {
        Observation::Pair(x, y) => assert_eq!((x + y) / 2.0, 2.0),
        Observation::Single(_) => panic!("expected a pair"),
    }
}

#[test]
fn paired_mean_diff_allows_duplicate_id_that_unpaired_mode_rejects() {
    let mut scan: RecordScan<f64> = RecordScan::new(&[(MetricKind::MeanDiff, FailurePolicy::ReportOnly)], true);
    scan.ingest(1, rec(Some("dup"), None, None, None), Some(Reading::Value(1.0))).unwrap();
    scan.ingest(2, rec(Some("dup"), None, None, None), Some(Reading::Value(2.0))).unwrap();
    assert!(scan.finish().is_ok());
}

#[test]
fn paired_sign_test_rejects_triple_id() {
    let mut scan: RecordScan<f64> = RecordScan::new(&[(MetricKind::SignTest, FailurePolicy::ReportOnly)], true);
    for line in 1..=3 {
        scan.ingest(line, rec(Some("t"), None, None, None), Some(Reading::Value(1.0))).unwrap();
    }
    assert!(matches!(
        scan.finish(),
        Err(VeridictError::SchemaMismatch { context: "paired-by-id", .. })
    ));
}

#[test]
fn paired_elo_nets_by_points_too() {
    let mut scan: RecordScan<f64> = RecordScan::new(&[(MetricKind::Elo, FailurePolicy::ReportOnly)], true);
    scan.ingest(1, rec(Some("a"), Some("draw"), None, None), None).unwrap();
    scan.ingest(2, rec(Some("a"), Some("candidate_win"), None, None), None).unwrap();
    let totals = scan.finish().unwrap();
    assert_eq!(counts_of(&totals.gathered[0]), (0, 1, 0));
}

#[test]
fn compute_many_rejects_record_unusable_by_one_of_several_metrics() {
    let mut scan: RecordScan<f64> =
        RecordScan::new(&[winrate(), (MetricKind::MeanDiff, FailurePolicy::ReportOnly)], false);
    // A result and no numbers: winrate can use it, mean-diff cannot.
    match scan.ingest(1, rec(Some("a"), Some("candidate_win"), None, None), None) {
        Err(VeridictError::SchemaMismatch { context, .. }) => assert_eq!(context, "metric mean-diff"),
        other => panic!("unexpected {other:?}"),
    }
}

#[test]
fn unpaired_ids_are_counted_for_the_repetition_check() {
    let mut scan: RecordScan<f64> = RecordScan::new(&[winrate()], false);
    let ids = ["a", "b", "a", "c", "a"];
    for (line, id) in ids.iter().enumerate() {
        scan.ingest(line + 1, rec(Some(id), Some("draw"), None, None), None).unwrap();
    }
    scan.ingest(6, rec(None, Some("draw"), None, None), None).unwrap();
    let totals = scan.finish().unwrap();
    assert_eq!(totals.records_with_id, 5);
    assert_eq!(totals.max_id_count, 3);
}

#[test]
fn loss_policy_counts_a_crash_as_a_loss() {
    let mut scan: RecordScan<f64> = RecordScan::new(&[(MetricKind::WinRate, FailurePolicy::Loss)], false);
    scan.ingest(1, rec(None, Some("candidate_win"), None, Some("crash")), None).unwrap();
    let totals = scan.finish().unwrap();
    assert_eq!(counts_of(&totals.gathered[0]), (1, 0, 0));
    assert_eq!(totals.failures.candidate.crash, 1);
}

#[test]
fn id_tally_tracks_the_most_repeated_id() {
    let mut t = IdTally::new();
    assert_eq!(t.summary(), (0, 0));
    t.note("x");
    t.note("y");
    t.note("y");
    assert_eq!(t.summary(), (3, 2));
}

#[test]
fn outcome_collector_settles_lone_records_and_pairs() {
    let mut c = OutcomeCollector::new(true);
    c.record(1, Some("p"), Outcome::CandidateWin);
    c.record(2, Some("p"), Outcome::Draw);
    c.record(3, Some("q"), Outcome::BaselineWin);
    c.record(4, None, Outcome::Draw);
    assert_eq!(c.finish().unwrap(), (1, 1, 1));
}

#[test]
fn value_collector_lists_lone_values_before_pairs() {
    let mut c: ValueCollector<i32> = ValueCollector::new(true);
    c.record(1, Some("p"), 5).unwrap();
    c.record(2, None, 7).unwrap();
    c.record(3, Some("p"), 9).unwrap();
    c.record(4, Some("q"), 11).unwrap();
    let obs = c.finish().unwrap();
    assert_eq!(obs.len(), 3);
    assert!(matches!(obs[0], Observation::Single(7)));
    assert!(matches!(obs[1], Observation::Pair(5, 9)));
    assert!(matches!(obs[2], Observation::Single(11)));
}

#[test]
fn data_quality_flags_follow_their_thresholds() {
    let counts = TrialCounts {
        paired_count: 29,
        baseline_count: 5,
        candidate_count: 5,
        timeouts: 4,
        crashes: 4,
        invalid: 0,
    };
    let ids = IdRepetition { records_with_id: 10, max_id_count: 3 };
    let q = collect_data_quality(MetricKind::Elo, counts, ids, false, false, false);
    assert!(q.tiny_sample);
    assert!(q.high_failure_rate);
    assert!(q.draw_heavy);
    assert!(q.low_id_diversity);
    let q = collect_data_quality(MetricKind::WinRate, counts, ids, true, true, false);
    assert!(!q.draw_heavy);
    assert!(!q.low_id_diversity);
    assert!(q.effect_within_noise_floor);
}

#[test]
fn data_quality_boundaries_are_exclusive() {
    let counts = TrialCounts {
        paired_count: 30,
        baseline_count: 10,
        candidate_count: 5,
        timeouts: 10,
        crashes: 0,
        invalid: 0,
    };
    // 10 failures of 40 trials is 25%, over a fifth; 15 draws of 30 is exactly half.
    let ids = IdRepetition { records_with_id: 9, max_id_count: 9 };
    let q = collect_data_quality(MetricKind::Elo, counts, ids, false, false, false);
    assert!(!q.tiny_sample);
    assert!(q.high_failure_rate);
    assert!(!q.draw_heavy);
    assert!(!q.low_id_diversity);
    let counts = TrialCounts { timeouts: 7, ..counts };
    // 7 of 37 is under a fifth.
    let q = collect_data_quality(MetricKind::Elo, counts, ids, false, false, false);
    assert!(!q.high_failure_rate);
}
