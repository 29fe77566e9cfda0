use veridict::correction::{corrected_verdict, holm_step_down, Correction};
use veridict::verdict::{
    aggregate, apply_failure_caps, apply_failure_caps_to_multi, FailureCaps, MultiVerdict,
    ReportVerdict,
};
use veridict::{Promotion, Validity, Verdict};

fn report_with(verdict: Verdict, timeouts: u64, crashes: u64, invalid: u64) -> ReportVerdict {
    ReportVerdict {
        verdict,
        validity: Validity::Valid,
        promotion: Promotion::decide(Validity::Valid, verdict),
        reason: "ok".to_string(),
        estimated_additional_trials: None,
        timeouts,
        crashes,
        invalid,
    }
}

fn caps(max_timeouts: Option<u64>, max_crashes: Option<u64>, max_invalid: Option<u64>) -> FailureCaps {
    FailureCaps { max_timeouts, max_crashes, max_invalid }
}

#[test]
fn aggregate_fail_dominates_pass() {
    let v = aggregate(&[Verdict::Pass, Verdict::Fail, Verdict::Pass]);
    assert_eq!(v, Verdict::Fail);
}

#[test]
fn aggregate_inconclusive_holds_back_pass() {
    let v = aggregate(&[Verdict::Pass, Verdict::Inconclusive, Verdict::Pass]);
    assert_eq!(v, Verdict::Inconclusive);
}

#[test]
fn aggregate_all_pass_is_pass() {
    let v = aggregate(&[Verdict::Pass, Verdict::Pass]);
    assert_eq!(v, Verdict::Pass);
}

#[test]
fn aggregate_of_nothing_is_pass_and_order_does_not_matter() {
    assert_eq!(aggregate(&[]), Verdict::Pass);
    assert_eq!(
        aggregate(&[Verdict::Fail, Verdict::Inconclusive]),
        aggregate(&[Verdict::Inconclusive, Verdict::Fail])
    );
}

#[test]
fn uncapped_report_is_untouched() {
    let mut report = report_with(Verdict::Pass, 5, 5, 5);
    apply_failure_caps(&mut report, &FailureCaps::uncapped());
    assert_eq!(report.verdict, Verdict::Pass);
    assert_eq!(report.validity, Validity::Valid);
    assert_eq!(report.promotion, Promotion::Promoted);
    assert_eq!(report.reason, "ok");
}

#[test]
fn breached_crash_cap_forces_inconclusive_and_not_promoted() {
    let mut report = report_with(Verdict::Pass, 0, 3, 0);
    report.estimated_additional_trials = Some(40);
    apply_failure_caps(&mut report, &caps(None, Some(2), None));
    assert_eq!(report.verdict, Verdict::Inconclusive);
    assert_eq!(report.validity, Validity::Invalid);
    assert_eq!(report.promotion, Promotion::NotPromoted);
    assert!(report.reason.contains("INVALID"));
    assert!(report.reason.contains("3 crash(es)"));
    assert_eq!(report.estimated_additional_trials, None);
}

#[test]
fn cap_at_exactly_the_limit_is_still_valid() {
    let mut report = report_with(Verdict::Pass, 0, 0, 0);
    apply_failure_caps(&mut report, &caps(None, Some(0), None));
    assert_eq!(report.validity, Validity::Valid);
    assert_eq!(report.verdict, Verdict::Pass);
}

#[test]
fn multi_report_invalidated_if_any_member_breaches_a_cap() {
    let clean = report_with(Verdict::Pass, 0, 0, 0);
    let dirty = report_with(Verdict::Fail, 0, 0, 0);
    let mut multi = MultiVerdict {
        verdict: Verdict::Fail,
        validity: Validity::Valid,
        promotion: Promotion::NotPromoted,
        reports: vec![clean, dirty],
    };
    multi.reports[1].timeouts = 5;
    apply_failure_caps_to_multi(&mut multi, &caps(Some(1), None, None));
    assert_eq!(multi.validity, Validity::Invalid);
    assert_eq!(multi.reports[0].validity, Validity::Valid);
    assert_eq!(multi.reports[1].validity, Validity::Invalid);
    assert_eq!(multi.reports[1].verdict, Verdict::Inconclusive);
    assert_eq!(multi.verdict, Verdict::Inconclusive);
    assert_eq!(multi.promotion, Promotion::NotPromoted);
}

#[test]
fn every_exceeded_cap_is_named_in_the_reason() {
    let mut report = report_with(Verdict::Fail, 4, 1, 9);
    apply_failure_caps(&mut report, &caps(Some(3), Some(1), Some(2)));
    assert_eq!(
        report.reason,
        "INVALID: 4 timeout(s) exceeds --max-timeouts 3; 9 invalid result(s) exceeds --max-invalid 2. Strength not evaluated."
    );
    let (validity, reason) = caps(Some(3), Some(1), Some(2)).check(4, 1, 9);
    assert_eq!(validity, Validity::Invalid);
    assert_eq!(
        reason.as_deref(),
        Some("4 timeout(s) exceeds --max-timeouts 3; 9 invalid result(s) exceeds --max-invalid 2")
    );
}

#[test]
fn capping_twice_changes_nothing_more() {
    let mut report = report_with(Verdict::Pass, 0, 7, 0);
    let c = caps(None, Some(1), None);
    apply_failure_caps(&mut report, &c);
    let reason = report.reason.clone();
    apply_failure_caps(&mut report, &c);
    assert_eq!(report.reason, reason);
    assert_eq!(report.verdict, Verdict::Inconclusive);
}

#[test]
fn holm_rejects_every_report_when_the_whole_ordered_prefix_holds() {
    let alpha = 0.05;
    let achieved = [alpha / 3.0 - 1e-6, alpha / 2.0 - 1e-6, alpha - 1e-6];
    let clears: Vec<bool> = achieved
        .iter()
        .enumerate()
        .map(|(rank, a)| *a <= alpha / (3 - rank) as f64)
        .collect();
    assert_eq!(holm_step_down(&clears), vec![true, true, true]);
}

#[test]
fn holm_sequential_stop_holds_back_a_later_rank() {
    assert_eq!(holm_step_down(&[true, false, true]), vec![true, false, false]);
    assert_eq!(holm_step_down(&[]), Vec::<bool>::new());
}

#[test]
fn correction_labels() {
    assert_eq!(Correction::Unadjusted.label(), "none");
    assert_eq!(Correction::Holm.title_label(), "Holm");
    assert_eq!(Correction::Bonferroni.label(), "bonferroni");
}

#[test]
fn unconfirmed_pass_is_held_back_to_inconclusive() {
    assert_eq!(corrected_verdict(Verdict::Pass, Some(false)), Verdict::Inconclusive);
    assert_eq!(corrected_verdict(Verdict::Pass, Some(true)), Verdict::Pass);
    assert_eq!(corrected_verdict(Verdict::Pass, None), Verdict::Pass);
}

#[test]
fn correction_never_invents_a_fail() {
    for v in [Verdict::Pass, Verdict::Fail, Verdict::Inconclusive] {
        for c in [None, Some(true), Some(false)] {
            let r = corrected_verdict(v, c);
            assert_eq!(r == Verdict::Fail, v == Verdict::Fail);
            if r == Verdict::Pass {
                assert_eq!(v, Verdict::Pass);
            }
        }
    }
    assert_eq!(corrected_verdict(Verdict::Fail, Some(false)), Verdict::Fail);
}
