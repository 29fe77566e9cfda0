use veridict::metrics::RecordFields;
use veridict::sprt::{
    net_pentanomial_buckets, resolve_sprt_hypotheses, PentanomialCollector, PentanomialCounts,
    SprtTally, SprtVariant,
};
use veridict::{FailurePolicy, Outcome, VeridictError};

fn rec<'a>(id: Option<&'a str>, result: Option<&'a str>) -> RecordFields<'a> {
    RecordFields { id, result, baseline_status: None, candidate_status: None }
}

fn feed_pairs(t: &mut SprtTally, n: usize, outcomes: (&str, &str)) {
    for i in 0..n {
        let id = format!("op{i}");
        t.ingest(i * 2 + 1, rec(Some(&id), Some(outcomes.0))).unwrap();
        t.ingest(i * 2 + 2, rec(Some(&id), Some(outcomes.1))).unwrap();
    }
}

#[test]
fn sprt_unusable_record_is_schema_mismatch() {
    let mut t = SprtTally::start(SprtVariant::Wald, false, FailurePolicy::ReportOnly).unwrap();
    match t.ingest(1, rec(None, None)) {
        Err(VeridictError::SchemaMismatch { context, detail, .. }) => {
            assert_eq!(context, "sprt");
            assert_eq!(detail, "record has no result and no status fields");
        }
        other => panic!("unexpected {other:?}"),
    }
}

#[test]
fn paired_by_id_nets_split_pairs_to_a_draw() {
    let mut t = SprtTally::start(SprtVariant::Wald, true, FailurePolicy::ReportOnly).unwrap();
    feed_pairs(&mut t, 1000, ("candidate_win", "baseline_win"));
    let counts = t.finish().unwrap();
    assert_eq!(counts.draws, 1000);
    assert_eq!(counts.candidate_wins, 0);
    assert_eq!(counts.baseline_wins, 0);
}

#[test]
fn pentanomial_buckets_follow_the_pair_scores() {
    let mut t = SprtTally::start(SprtVariant::Pentanomial, true, FailurePolicy::ReportOnly).unwrap();
    feed_pairs(&mut t, 3, ("candidate_win", "candidate_win"));
    let mut i = 100;
    for outcomes in [("candidate_win", "draw"), ("draw", "draw"), ("baseline_win", "draw"), ("baseline_win", "baseline_win")] {
        let id = format!("x{i}");
        t.ingest(i, rec(Some(&id), Some(outcomes.0))).unwrap();
        t.ingest(i + 1, rec(Some(&id), Some(outcomes.1))).unwrap();
        i += 2;
    }
    let counts = t.finish().unwrap();
    let (buckets, records, pairs) = counts.pentanomial.unwrap();
    assert_eq!(buckets, [1, 1, 1, 1, 3]);
    assert_eq!(records, 14);
    assert_eq!(pairs, 7);
    assert_eq!((counts.baseline_wins, counts.candidate_wins, counts.draws), (2, 4, 1));
    let named = PentanomialCounts::from_buckets(buckets);
    assert_eq!(named.score_2_0, 3);
    assert_eq!(named.score_0_0, 1);
}

#[test]
fn pentanomial_incomplete_pair_is_an_error() {
    let mut t = SprtTally::start(SprtVariant::Pentanomial, true, FailurePolicy::ReportOnly).unwrap();
    feed_pairs(&mut t, 50, ("candidate_win", "baseline_win"));
    t.ingest(999, rec(Some("lonely"), Some("candidate_win"))).unwrap();
    match t.finish() {
        Err(VeridictError::SchemaMismatch { line, context, detail }) => {
            assert_eq!(line, 999);
            assert_eq!(context, "pentanomial");
            assert_eq!(
                detail,
                "id 'lonely' appears once; --sprt-variant pentanomial requires exactly 2 records per id (a lone game can't cancel the pair's own bias)"
            );
        }
        Err(other) => panic!("unexpected {other:?}"),
        Ok(_) => panic!("expected an error"),
    }
}

#[test]
fn pentanomial_triple_id_is_an_error() {
    let mut t = SprtTally::start(SprtVariant::Pentanomial, true, FailurePolicy::ReportOnly).unwrap();
    feed_pairs(&mut t, 50, ("candidate_win", "baseline_win"));
    t.ingest(997, rec(Some("op0"), Some("candidate_win"))).unwrap();
    match t.finish() {
        Err(VeridictError::SchemaMismatch { context, detail, .. }) => {
            assert_eq!(context, "pentanomial");
            assert_eq!(detail, "id 'op0' appears 3 times; pentanomial mode expects exactly 2 records per id");
        }
        Err(other) => panic!("unexpected {other:?}"),
        Ok(_) => panic!("expected an error"),
    }
}

#[test]
fn pentanomial_record_without_id_is_an_error() {
    let mut t = SprtTally::start(SprtVariant::Pentanomial, true, FailurePolicy::ReportOnly).unwrap();
    assert!(matches!(
        t.ingest(1, rec(None, Some("candidate_win"))),
        Err(VeridictError::SchemaMismatch { context: "pentanomial", .. })
    ));
}

#[test]
fn pentanomial_without_paired_by_id_is_rejected() {
    assert!(matches!(
        SprtTally::start(SprtVariant::Pentanomial, false, FailurePolicy::ReportOnly),
        Err(VeridictError::InvalidThreshold(_))
    ));
}

#[test]
fn status_failures_are_tallied_per_side() {
    let mut t = SprtTally::start(SprtVariant::Trinomial, false, FailurePolicy::ReportOnly).unwrap();
    let r = RecordFields { id: None, result: None, baseline_status: Some("crash"), candidate_status: Some("timeout") };
    t.ingest(1, r).unwrap();
    let counts = t.finish().unwrap();
    assert_eq!(counts.failures.baseline.crash, 1);
    assert_eq!(counts.failures.candidate.timeout, 1);
    assert_eq!((counts.baseline_wins, counts.candidate_wins, counts.draws), (0, 0, 0));
}

#[test]
fn pentanomial_collector_counts_records_and_pairs() {
    let mut c = PentanomialCollector::new();
    c.record(1, "a", Outcome::CandidateWin);
    c.record(2, "a", Outcome::Draw);
    let (buckets, records, pairs) = c.finish().unwrap();
    assert_eq!(buckets, [0, 0, 0, 1, 0]);
    assert_eq!((records, pairs), (2, 1));
    assert_eq!(net_pentanomial_buckets(&buckets), (0, 1, 0));
}

#[test]
fn hypotheses_come_from_the_variants_own_flags() {
    assert_eq!(resolve_sprt_hypotheses(SprtVariant::Wald, Some(0.0), Some(5.0), None, None, false).unwrap(), (0.0, 5.0));
    assert_eq!(resolve_sprt_hypotheses(SprtVariant::Trinomial, None, None, Some(1.0), Some(3.0), false).unwrap(), (1.0, 3.0));
    match resolve_sprt_hypotheses(SprtVariant::Wald, Some(0.0), Some(5.0), Some(1.0), None, false) {
        Err(VeridictError::InvalidThreshold(m)) => assert!(m.starts_with("--belo0/--belo1 are only used")),
        other => panic!("unexpected {other:?}"),
    }
    match resolve_sprt_hypotheses::<f64>(SprtVariant::Pentanomial, Some(0.0), Some(5.0), None, None, false) {
        Err(VeridictError::InvalidThreshold(m)) => assert_eq!(m, "--sprt-variant pentanomial requires --paired-by-id"),
        other => panic!("unexpected {other:?}"),
    }
    assert!(resolve_sprt_hypotheses::<f64>(SprtVariant::Trinomial, None, None, Some(1.0), None, false).is_err());
    assert_eq!(SprtVariant::Pentanomial.label(), "pentanomial");
}

fn status_rec<'a>(id: Option<&'a str>, result: Option<&'a str>, bs: Option<&'a str>, cs: Option<&'a str>) -> RecordFields<'a> {
    RecordFields { id, result, baseline_status: bs, candidate_status: cs }
}

#[test]
fn sprt_loss_policy_turns_a_candidate_failure_into_a_baseline_win() {
    let mut t = SprtTally::start(SprtVariant::Wald, false, FailurePolicy::Loss).unwrap();
    t.ingest(1, status_rec(None, Some("candidate_win"), None, Some("crash"))).unwrap();
    t.ingest(2, status_rec(None, None, Some("timeout"), None)).unwrap();
    t.ingest(3, status_rec(None, None, Some("timeout"), Some("invalid"))).unwrap();
    let c = t.finish().unwrap();
    assert_eq!((c.baseline_wins, c.candidate_wins, c.draws), (1, 1, 1));
    assert_eq!(c.failures.candidate.crash, 1);
    assert_eq!(c.failures.baseline.timeout, 2);
    assert_eq!(c.failures.candidate.invalid, 1);
}

#[test]
fn sprt_exclude_policy_drops_a_result_next_to_a_failure() {
    let mut t = SprtTally::start(SprtVariant::Wald, false, FailurePolicy::Exclude).unwrap();
    t.ingest(1, status_rec(None, Some("candidate_win"), None, Some("crash"))).unwrap();
    t.ingest(2, status_rec(None, Some("candidate_win"), None, None)).unwrap();
    let c = t.finish().unwrap();
    assert_eq!((c.baseline_wins, c.candidate_wins, c.draws), (0, 1, 0));
}

#[test]
fn sprt_report_only_policy_keeps_a_result_next_to_a_failure() {
    let mut t = SprtTally::start(SprtVariant::Wald, false, FailurePolicy::ReportOnly).unwrap();
    t.ingest(1, status_rec(None, Some("candidate_win"), None, Some("crash"))).unwrap();
    t.ingest(2, status_rec(None, None, None, Some("crash"))).unwrap();
    let c = t.finish().unwrap();
    assert_eq!((c.baseline_wins, c.candidate_wins, c.draws), (0, 1, 0));
}

#[test]
fn sprt_loss_outcome_nets_against_its_pentanomial_partner() {
    let mut t = SprtTally::start(SprtVariant::Pentanomial, true, FailurePolicy::Loss).unwrap();
    t.ingest(1, status_rec(Some("op"), Some("candidate_win"), None, Some("crash"))).unwrap();
    t.ingest(2, status_rec(Some("op"), Some("candidate_win"), None, None)).unwrap();
    let c = t.finish().unwrap();
    let (buckets, raw, pairs) = c.pentanomial.unwrap();
    assert_eq!(buckets, [0, 0, 1, 0, 0]);
    assert_eq!((raw, pairs), (2, 1));
}

#[test]
fn sprt_excluded_failure_needs_no_id_under_pentanomial() {
    let mut t = SprtTally::start(SprtVariant::Pentanomial, true, FailurePolicy::Exclude).unwrap();
    assert!(t.ingest(1, status_rec(None, Some("candidate_win"), Some("crash"), None)).is_ok());
    let mut t = SprtTally::start(SprtVariant::Pentanomial, true, FailurePolicy::Loss).unwrap();
    assert!(matches!(
        t.ingest(1, status_rec(None, None, Some("crash"), None)),
        Err(VeridictError::SchemaMismatch { .. })
    ));
}
