//! Choices the command line makes before any record is read: the input
//! format of a file, the metric a power estimate is for, and the exit code
//! of a verdict.

use vstd::prelude::*;
use vstd::string::StringSliceAdditionalSpecFns;

use crate::error::VeridictError;
use crate::metrics::{ci_method_label, label_of, metric_label};
use crate::{CiMethod, MetricKind, Verdict};

verus! {

/// How an input file is laid out.
#[derive(Debug, Clone, Copy, PartialEq, Eq, Structural)]
pub enum InputFormat {
    Jsonl,
    Csv,
}

/// `c` with an ASCII capital letter made lower case.
pub open spec fn ascii_lower(c: u8) -> u8 {
    if 65 <= c <= 90 {
        (c + 32) as u8
    } else {
        c
    }
}

/// `a` and `b` are equal up to the case of ASCII letters.
pub open spec fn eq_ignoring_ascii_case(a: Seq<u8>, b: Seq<u8>) -> bool {
    a.len() == b.len() && forall|i: int| 0 <= i < a.len() ==> ascii_lower(a[i]) == ascii_lower(b[i])
}

fn lower(c: u8) -> (r: u8)
    ensures
        r == ascii_lower(c),
{
    if 65 <= c && c <= 90 {
        c + 32
    } else {
        c
    }
}

/// Whether `a` and `b` are equal up to the case of ASCII letters.
pub fn same_ignoring_ascii_case(a: &str, b: &str) -> (r: bool)
    ensures
        r == eq_ignoring_ascii_case(a.spec_bytes(), b.spec_bytes()),
{
    let x = a.as_bytes();
    let y = b.as_bytes();
    if x.len() != y.len() {
        return false;
    }
    let mut i: usize = 0;
    while i < x.len()
        invariant
            x@ == a.spec_bytes(),
            y@ == b.spec_bytes(),
            x@.len() == y@.len(),
            0 <= i <= x@.len(),
            forall|k: int| 0 <= k < i ==> ascii_lower(x@[k]) == ascii_lower(y@[k]),
        decreases x@.len() - i,
    {
        if lower(x[i]) != lower(y[i]) {
            return false;
        }
        i = i + 1;
    }
    true
}

/// The input format: the one asked for, else CSV for a file whose extension
/// is `csv` in any letter case, else JSON lines.
pub fn resolve_format(extension: Option<&str>, explicit: Option<InputFormat>) -> (r: InputFormat)
    ensures
        r == (match explicit {
            Some(f) => f,
            None => match extension {
                Some(e) => if eq_ignoring_ascii_case(e.spec_bytes(), "csv".spec_bytes()) {
                    InputFormat::Csv
                } else {
                    InputFormat::Jsonl
                },
                None => InputFormat::Jsonl,
            },
        }),
{
    match explicit {
        Some(f) => f,
        None => match extension {
            Some(e) => {
                if same_ignoring_ascii_case(e, "csv") {
                    InputFormat::Csv
                } else {
                    InputFormat::Jsonl
                }
            },
            None => InputFormat::Jsonl,
        },
    }
}

/// A verdict's exit status: 0 for `Pass`, 1 for `Fail`, 2 for
/// `Inconclusive`.
pub fn exit_code_for(verdict: Verdict) -> (r: u8)
    ensures
        r == (match verdict {
            Verdict::Pass => 0u8,
            Verdict::Fail => 1u8,
            Verdict::Inconclusive => 2u8,
        }),
{
    match verdict {
        Verdict::Pass => 0,
        Verdict::Fail => 1,
        Verdict::Inconclusive => 2,
    }
}

/// The metrics `power` accepts on its command line.
#[derive(Debug, Clone, Copy, PartialEq, Eq, Structural)]
pub enum PowerMetricArg {
    Winrate,
    SignTest,
    Elo,
    MeanDiff,
}

/// The `--metric` spelling of a power metric.
pub fn power_metric_arg_label(m: PowerMetricArg) -> (r: &'static str)
    ensures
        r@ == (match m {
            PowerMetricArg::Winrate => "winrate"@,
            PowerMetricArg::SignTest => "sign-test"@,
            PowerMetricArg::Elo => "elo"@,
            PowerMetricArg::MeanDiff => "mean-diff"@,
        }),
{
    match m {
        PowerMetricArg::Winrate => "winrate",
        PowerMetricArg::SignTest => "sign-test",
        PowerMetricArg::Elo => "elo",
        PowerMetricArg::MeanDiff => "mean-diff",
    }
}

/// What a power estimate is computed for: the metric with the one knob it
/// reads (the CI method, or for `mean-diff` an assumed standard deviation
/// `assume_sd` and where it came from).
#[derive(Debug, Clone, Copy, PartialEq)]
pub enum PowerMetric<T> {
    WinRate { ci_method: CiMethod },
    SignTest { ci_method: CiMethod },
    Elo,
    MeanDiff { assume_sd: T, sd_source: &'static str },
}

impl<T: Copy> PowerMetric<T> {
    /// The metric estimated.
    pub fn kind(&self) -> (r: MetricKind)
        ensures
            r == (match *self {
                PowerMetric::WinRate { .. } => MetricKind::WinRate,
                PowerMetric::SignTest { .. } => MetricKind::SignTest,
                PowerMetric::Elo => MetricKind::Elo,
                PowerMetric::MeanDiff { .. } => MetricKind::MeanDiff,
            }),
    {
        match self {
            PowerMetric::WinRate { .. } => MetricKind::WinRate,
            PowerMetric::SignTest { .. } => MetricKind::SignTest,
            PowerMetric::Elo => MetricKind::Elo,
            PowerMetric::MeanDiff { .. } => MetricKind::MeanDiff,
        }
    }

    /// The CI method a count-based estimate searches with (Wilson where the
    /// metric has no choice).
    pub fn ci_method(&self) -> (r: CiMethod)
        ensures
            r == (match *self {
                PowerMetric::WinRate { ci_method } => ci_method,
                PowerMetric::SignTest { ci_method } => ci_method,
                _ => CiMethod::Wilson,
            }),
    {
        match self {
            PowerMetric::WinRate { ci_method } => *ci_method,
            PowerMetric::SignTest { ci_method } => *ci_method,
            _ => CiMethod::Wilson,
        }
    }

    /// A count-based power metric from `(kind, ci_method)`: `elo` only with
    /// Wilson, and `mean-diff` never by this route (it needs an assumed
    /// standard deviation, not a CI method); `quantile-diff` is unsupported.
    pub fn new(kind: MetricKind, ci_method: CiMethod) -> (r: Result<PowerMetric<T>, VeridictError>)
        ensures
            match kind {
                MetricKind::WinRate => r == Ok::<PowerMetric<T>, VeridictError>(PowerMetric::WinRate { ci_method }),
                MetricKind::SignTest => r == Ok::<PowerMetric<T>, VeridictError>(PowerMetric::SignTest { ci_method }),
                MetricKind::Elo => if ci_method == CiMethod::Wilson {
                    r == Ok::<PowerMetric<T>, VeridictError>(PowerMetric::Elo)
                } else {
                    r matches Err(VeridictError::IncompatibleCiMethod { method, metric })
                        && metric@ == label_of(kind) && method@ == (match ci_method {
                        CiMethod::Wilson => "wilson"@,
                        CiMethod::Exact => "exact"@,
                        CiMethod::Jeffreys => "jeffreys"@,
                    })
                },
                _ => r matches Err(VeridictError::UnsupportedPowerMetric { metric }) && metric@ == label_of(kind),
            },
    {
        match kind {
            MetricKind::WinRate => Ok(PowerMetric::WinRate { ci_method }),
            MetricKind::SignTest => Ok(PowerMetric::SignTest { ci_method }),
            MetricKind::Elo => {
                if ci_method != CiMethod::Wilson {
                    Err(VeridictError::IncompatibleCiMethod { method: ci_method_label(ci_method), metric: metric_label(kind) })
                } else {
                    Ok(PowerMetric::Elo)
                }
            },
            _ => Err(VeridictError::UnsupportedPowerMetric { metric: metric_label(kind) }),
        }
    }
}

} // verus!
