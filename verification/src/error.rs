//! Errors the record logic reports. Every variant is bad input or bad
//! configuration; each carries the 1-based line it was found on, where one
//! applies.

use vstd::prelude::*;

verus! {

#[derive(Debug)]
pub enum VeridictError {
    /// A record carried none of the fields that `context` (e.g.
    /// "metric winrate", "sprt") understands, or broke its pairing rules.
    SchemaMismatch { line: usize, context: &'static str, detail: String },
    /// A numeric record repeated an id outside paired mode.
    DuplicateId { id: String, line: usize },
    /// The input held no records at all.
    EmptyInput,
    /// A configuration value is out of its allowed range.
    InvalidThreshold(String),
    /// A status field held something other than ok|timeout|crash|invalid.
    UnrecognizedStatus { line: usize, field: &'static str, value: String },
    /// A result field held something other than the outcomes `expected` lists.
    UnrecognizedOutcome { line: usize, value: String, expected: &'static str },
    /// A numeric field (`baseline` or `candidate`) held a non-finite number.
    NonFiniteValue { line: usize, field: &'static str },
    /// A CI method the metric cannot be paired with.
    IncompatibleCiMethod { method: &'static str, metric: &'static str },
    /// A failure policy the metric cannot be paired with.
    IncompatibleFailurePolicy { policy: &'static str, metric: &'static str },
    /// A bootstrap method the metric cannot be paired with.
    IncompatibleBootstrapMethod { method: &'static str, metric: &'static str },
    /// `--cluster-by-id` asked of a metric without win/loss/draw outcomes.
    IncompatibleClusterById { metric: &'static str },
    /// `--cluster-by-id` together with `--paired-by-id`.
    ClusterByIdConflictsWithPairedById,
    /// `--cluster-by-id` together with a multiple-comparison correction.
    CorrectionConflictsWithClusterById,
    /// A metric the power estimate does not support through this route.
    UnsupportedPowerMetric { metric: &'static str },
}

/// `e` is a `SchemaMismatch` at `line` for `context` with message `detail`.
pub open spec fn is_schema_mismatch(
    e: VeridictError,
    line: usize,
    context: Seq<char>,
    detail: Seq<char>,
) -> bool {
    match e {
        VeridictError::SchemaMismatch { line: l, context: c, detail: d } => l == line && c@
            == context && d@ == detail,
        _ => false,
    }
}

/// `e` is an `UnrecognizedOutcome` at `line` for text `value`, listing `expected`.
pub open spec fn is_unrecognized_outcome(
    e: VeridictError,
    line: usize,
    value: Seq<char>,
    expected: Seq<char>,
) -> bool {
    match e {
        VeridictError::UnrecognizedOutcome { line: l, value: v, expected: x } => l == line && v@
            == value && x@ == expected,
        _ => false,
    }
}

/// `e` is an `UnrecognizedStatus` at `line` in `field` for text `value`.
pub open spec fn is_unrecognized_status(
    e: VeridictError,
    line: usize,
    field: Seq<char>,
    value: Seq<char>,
) -> bool {
    match e {
        VeridictError::UnrecognizedStatus { line: l, field: f, value: v } => l == line && f@
            == field && v@ == value,
        _ => false,
    }
}

} // verus!
