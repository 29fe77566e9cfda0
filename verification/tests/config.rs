use veridict::metrics::{check_metric_config, quantile_flag_applies};
use veridict::{BootstrapMethod, CiMethod, FailurePolicy, MetricKind, VeridictError};

#[test]
fn default_flags_suit_every_metric() {
    for m in [MetricKind::WinRate, MetricKind::MeanDiff, MetricKind::SignTest, MetricKind::Elo, MetricKind::QuantileDiff] {
        assert!(check_metric_config(m, CiMethod::Wilson, BootstrapMethod::Percentile, FailurePolicy::ReportOnly).is_ok());
    }
}

#[test]
fn exact_ci_is_refused_for_elo() {
    match check_metric_config(MetricKind::Elo, CiMethod::Exact, BootstrapMethod::Percentile, FailurePolicy::ReportOnly) {
        Err(VeridictError::IncompatibleCiMethod { method, metric }) => {
            assert_eq!(method, "exact");
            assert_eq!(metric, "metric elo");
        }
        other => panic!("unexpected {other:?}"),
    }
    assert!(check_metric_config(MetricKind::SignTest, CiMethod::Jeffreys, BootstrapMethod::Percentile, FailurePolicy::ReportOnly).is_ok());
}

#[test]
fn loss_policy_is_refused_for_mean_diff() {
    match check_metric_config(MetricKind::MeanDiff, CiMethod::Wilson, BootstrapMethod::Percentile, FailurePolicy::Loss) {
        Err(VeridictError::IncompatibleFailurePolicy { policy, metric }) => {
            assert_eq!(policy, "loss");
            assert_eq!(metric, "metric mean-diff");
        }
        other => panic!("unexpected {other:?}"),
    }
    assert!(check_metric_config(MetricKind::Elo, CiMethod::Wilson, BootstrapMethod::Percentile, FailurePolicy::Exclude).is_ok());
}

#[test]
fn bca_is_refused_for_quantile_diff_only() {
    match check_metric_config(MetricKind::QuantileDiff, CiMethod::Wilson, BootstrapMethod::Bca, FailurePolicy::ReportOnly) {
        Err(VeridictError::IncompatibleBootstrapMethod { method, metric }) => {
            assert_eq!(method, "bca");
            assert_eq!(metric, "metric quantile-diff");
        }
        other => panic!("unexpected {other:?}"),
    }
    assert!(check_metric_config(MetricKind::MeanDiff, CiMethod::Wilson, BootstrapMethod::Bca, FailurePolicy::ReportOnly).is_ok());
}

#[test]
fn ci_method_mismatch_is_reported_before_policy_mismatch() {
    assert!(matches!(
        check_metric_config(MetricKind::MeanDiff, CiMethod::Exact, BootstrapMethod::Percentile, FailurePolicy::Loss),
        Err(VeridictError::IncompatibleCiMethod { .. })
    ));
}

#[test]
fn quantile_flag_needs_a_quantile_diff_metric() {
    assert!(quantile_flag_applies(&[MetricKind::MeanDiff, MetricKind::QuantileDiff]));
    assert!(!quantile_flag_applies(&[MetricKind::MeanDiff, MetricKind::WinRate]));
    assert!(!quantile_flag_applies(&[]));
}
