use veridict::correction::Correction;
use veridict::metrics::{check_cluster_flags, Gathered, RecordFields, RecordScan};
use veridict::pairing::OutcomeCollector;
use veridict::{FailurePolicy, MetricKind, Outcome, VeridictError};

fn rec<'a>(id: Option<&'a str>, result: Option<&'a str>) -> RecordFields<'a> {
    RecordFields { id, result, baseline_status: None, candidate_status: None }
}

fn clusters_of(g: &Gathered<f64>) -> Vec<Vec<Outcome>> {
    match g {
        Gathered::Clusters(c) => c.clone(),
        other => panic!("expected clusters, got {other:?}"),
    }
}

#[test]
fn records_sharing_an_id_form_one_cluster_of_any_size() {
    let mut c = OutcomeCollector::new(true);
    c.record(1, Some("op1"), Outcome::CandidateWin);
    c.record(2, Some("op2"), Outcome::Draw);
    c.record(3, Some("op1"), Outcome::BaselineWin);
    c.record(4, Some("op1"), Outcome::CandidateWin);
    c.record(5, None, Outcome::Draw);
    let clusters = c.finish_clusters();
    assert_eq!(
        clusters,
        vec![
            vec![Outcome::CandidateWin, Outcome::BaselineWin, Outcome::CandidateWin],
            vec![Outcome::Draw],
            vec![Outcome::Draw],
        ]
    );
}

#[test]
fn records_without_id_are_clusters_of_their_own() {
    let mut c = OutcomeCollector::new(true);
    c.record(1, None, Outcome::BaselineWin);
    c.record(2, None, Outcome::CandidateWin);
    c.record(3, None, Outcome::BaselineWin);
    let clusters = c.finish_clusters();
    let total: usize = clusters.iter().map(|k| k.len()).sum();
    assert_eq!(clusters.len(), 3);
    assert_eq!(total, 3);
    assert!(clusters.iter().all(|k| k.len() == 1));
}

#[test]
fn clustered_scan_keeps_every_outcome_and_counts_ids() {
    let metrics = [(MetricKind::WinRate, FailurePolicy::ReportOnly), (MetricKind::Elo, FailurePolicy::ReportOnly)];
    let mut scan: RecordScan<f64> = RecordScan::new_clustered(&metrics).unwrap();
    scan.ingest(1, rec(Some("a"), Some("candidate_win")), None).unwrap();
    scan.ingest(2, rec(Some("a"), Some("candidate_win")), None).unwrap();
    scan.ingest(3, rec(Some("a"), Some("draw")), None).unwrap();
    scan.ingest(4, rec(Some("b"), Some("baseline_win")), None).unwrap();
    let totals = scan.finish_clusters();
    assert_eq!(totals.gathered.len(), 2);
    for g in &totals.gathered {
        let c = clusters_of(g);
        assert_eq!(c, vec![vec![Outcome::CandidateWin, Outcome::CandidateWin, Outcome::Draw], vec![Outcome::BaselineWin]]);
    }
    assert_eq!(totals.records_with_id, 4);
    assert_eq!(totals.max_id_count, 3);
}

#[test]
fn clustered_scan_refuses_numeric_metrics() {
    let metrics = [(MetricKind::WinRate, FailurePolicy::ReportOnly), (MetricKind::MeanDiff, FailurePolicy::ReportOnly)];
    match RecordScan::<f64>::new_clustered(&metrics) {
        Err(VeridictError::IncompatibleClusterById { metric }) => assert_eq!(metric, "metric mean-diff"),
        Err(other) => panic!("unexpected {other:?}"),
        Ok(_) => panic!("a numeric metric cannot be clustered"),
    }
}

#[test]
fn cluster_flags_exclude_pairing_and_correction() {
    assert!(matches!(check_cluster_flags(true, Correction::Unadjusted), Err(VeridictError::ClusterByIdConflictsWithPairedById)));
    assert!(matches!(check_cluster_flags(true, Correction::Holm), Err(VeridictError::ClusterByIdConflictsWithPairedById)));
    assert!(matches!(check_cluster_flags(false, Correction::Bonferroni), Err(VeridictError::CorrectionConflictsWithClusterById)));
    assert!(check_cluster_flags(false, Correction::Unadjusted).is_ok());
}
