//! Statistical decision layer for candidate-versus-baseline trials: the
//! discrete core (record classification, outcome tallies, pairing,
//! connectivity of a head-to-head graph, verdict aggregation and failure
//! caps), each function with its contract.

use vstd::prelude::*;

pub mod cli;
pub mod correction;
pub mod error;
pub mod graph;
pub mod matrix;
pub mod metrics;
pub mod pairing;
pub mod plan;
pub mod quality;
pub mod sprt;
pub mod text;
pub mod verdict;

pub use error::VeridictError;

use crate::text::str_eq;

verus! {

/// Final decision returned for a comparison run.
#[derive(Debug, Clone, Copy, PartialEq, Eq, Structural)]
pub enum Verdict {
    Pass,
    Fail,
    Inconclusive,
}

/// Health of a single trial's execution, independent of any score it produced.
#[derive(Debug, Clone, Copy, PartialEq, Eq, Structural)]
pub enum TrialStatus {
    Succeeded,
    Timeout,
    Crash,
    Invalid,
}

/// The status a status field's text names, if any.
pub open spec fn status_named(s: Seq<char>) -> Option<TrialStatus> {
    if s == "ok"@ {
        Some(TrialStatus::Succeeded)
    } else if s == "timeout"@ {
        Some(TrialStatus::Timeout)
    } else if s == "crash"@ {
        Some(TrialStatus::Crash)
    } else if s == "invalid"@ {
        Some(TrialStatus::Invalid)
    } else {
        None
    }
}

impl TrialStatus {
    /// `ok`, `timeout`, `crash` or `invalid`; anything else is `None`.
    pub fn parse(s: &str) -> (r: Option<TrialStatus>)
        ensures
            r == status_named(s@),
    {
        if str_eq(s, "ok") {
            Some(TrialStatus::Succeeded)
        } else if str_eq(s, "timeout") {
            Some(TrialStatus::Timeout)
        } else if str_eq(s, "crash") {
            Some(TrialStatus::Crash)
        } else if str_eq(s, "invalid") {
            Some(TrialStatus::Invalid)
        } else {
            None
        }
    }
}

/// Whether a status is a failed execution (anything but `Ok`).
pub open spec fn is_failure(s: Option<TrialStatus>) -> bool {
    match s {
        Some(st) => st != TrialStatus::Succeeded,
        None => false,
    }
}

/// Result of a single win/loss/draw comparison.
#[derive(Debug, Clone, Copy, PartialEq, Eq, Structural)]
pub enum Outcome {
    BaselineWin,
    CandidateWin,
    Draw,
}

/// The outcome a `result` field's text names, if any.
pub open spec fn outcome_named(s: Seq<char>) -> Option<Outcome> {
    if s == "baseline_win"@ {
        Some(Outcome::BaselineWin)
    } else if s == "candidate_win"@ {
        Some(Outcome::CandidateWin)
    } else if s == "draw"@ {
        Some(Outcome::Draw)
    } else {
        None
    }
}

impl Outcome {
    /// `baseline_win`, `candidate_win` or `draw`; anything else is `None`.
    pub fn parse(s: &str) -> (r: Option<Outcome>)
        ensures
            r == outcome_named(s@),
    {
        if str_eq(s, "baseline_win") {
            Some(Outcome::BaselineWin)
        } else if str_eq(s, "candidate_win") {
            Some(Outcome::CandidateWin)
        } else if str_eq(s, "draw") {
            Some(Outcome::Draw)
        } else {
            None
        }
    }
}

/// Result of a head-to-head game between two named competitors `a` and `b`.
#[derive(Debug, Clone, Copy, PartialEq, Eq, Structural)]
pub enum MatchOutcome {
    AWin,
    BWin,
    Draw,
}

/// The match outcome a `result` field's text names, if any.
pub open spec fn match_outcome_named(s: Seq<char>) -> Option<MatchOutcome> {
    if s == "a_win"@ {
        Some(MatchOutcome::AWin)
    } else if s == "b_win"@ {
        Some(MatchOutcome::BWin)
    } else if s == "draw"@ {
        Some(MatchOutcome::Draw)
    } else {
        None
    }
}

impl MatchOutcome {
    /// `a_win`, `b_win` or `draw`; anything else is `None`.
    pub fn parse(s: &str) -> (r: Option<MatchOutcome>)
        ensures
            r == match_outcome_named(s@),
    {
        if str_eq(s, "a_win") {
            Some(MatchOutcome::AWin)
        } else if str_eq(s, "b_win") {
            Some(MatchOutcome::BWin)
        } else if str_eq(s, "draw") {
            Some(MatchOutcome::Draw)
        } else {
            None
        }
    }
}

/// Which statistical method computed the effect size and confidence interval.
#[derive(Debug, Clone, Copy, PartialEq, Eq, Structural)]
pub enum MetricKind {
    WinRate,
    MeanDiff,
    SignTest,
    Elo,
    QuantileDiff,
}

/// Which confidence-interval method `winrate`/`sign-test` use.
#[derive(Debug, Clone, Copy, PartialEq, Eq, Structural)]
pub enum CiMethod {
    Wilson,
    Exact,
    Jeffreys,
}

/// Which bootstrap variant `mean-diff`/`quantile-diff` use.
#[derive(Debug, Clone, Copy, PartialEq, Eq, Structural)]
pub enum BootstrapMethod {
    Percentile,
    Bca,
    Basic,
}

/// How a failed trial (timeout/crash/invalid) affects an outcome-based metric.
#[derive(Debug, Clone, Copy, PartialEq, Eq, Structural)]
pub enum FailurePolicy {
    /// A failure is tallied, but only a literal `result` contributes an outcome.
    ReportOnly,
    /// A failed side's `result` is never counted.
    Exclude,
    /// A failed side's outcome is synthesized as a loss for that side.
    Loss,
}

/// Whether a run's data cleared every configured failure cap.
#[derive(Debug, Clone, Copy, PartialEq, Eq, Structural)]
pub enum Validity {
    Valid,
    Invalid,
}

/// The single go/no-go field of a report.
#[derive(Debug, Clone, Copy, PartialEq, Eq, Structural)]
pub enum Promotion {
    Promoted,
    NotPromoted,
}

impl Promotion {
    /// `Promoted` exactly when the data is `Valid` and the verdict is `Pass`.
    pub fn decide(validity: Validity, verdict: Verdict) -> (r: Promotion)
        ensures
            r == (if validity == Validity::Valid && verdict == Verdict::Pass {
                Promotion::Promoted
            } else {
                Promotion::NotPromoted
            }),
    {
        if validity == Validity::Valid && verdict == Verdict::Pass {
            Promotion::Promoted
        } else {
            Promotion::NotPromoted
        }
    }
}

} // verus!
