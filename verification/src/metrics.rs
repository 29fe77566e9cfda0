//! Per-record classification shared by every metric: status tallies, the
//! outcome a win/loss/draw record contributes under a failure policy, and
//! the labels error messages use.

use vstd::prelude::*;

use crate::correction::Correction;
use crate::error::{is_schema_mismatch, is_unrecognized_outcome, is_unrecognized_status, VeridictError};
use crate::pairing::{
    clusters_of, clusters_view, entry_count, filed, group_observations, recorded, reports_first_oversized, seen_before, settled,
    single_observations, Observation, OutcomeCollector, ValueCollector,
};
use crate::sprt::{bumped_opt, status_ok};
use crate::text::str_eq;
use crate::{
    is_failure, outcome_named, status_named, BootstrapMethod, CiMethod, FailurePolicy,
    MetricKind, Outcome, TrialStatus,
};

verus! {

/// The text fields of one input record that outcome-based logic reads.
#[derive(Debug, Clone, Copy)]
pub struct RecordFields<'a> {
    pub id: Option<&'a str>,
    pub result: Option<&'a str>,
    pub baseline_status: Option<&'a str>,
    pub candidate_status: Option<&'a str>,
}

/// Per-side failure tally.
#[derive(Debug, Clone, Copy)]
pub struct FailureCounts {
    pub timeout: u64,
    pub crash: u64,
    pub invalid: u64,
}

/// Failure tallies of the baseline side and of the candidate side.
#[derive(Debug, Clone, Copy)]
pub struct FailureBreakdown {
    pub baseline: FailureCounts,
    pub candidate: FailureCounts,
}

impl FailureCounts {
    /// All three tallies at zero.
    pub fn new() -> (r: FailureCounts)
        ensures
            r == (FailureCounts { timeout: 0, crash: 0, invalid: 0 }),
    {
        FailureCounts { timeout: 0, crash: 0, invalid: 0 }
    }
}

impl FailureBreakdown {
    /// Both sides at zero.
    pub fn new() -> (r: FailureBreakdown)
        ensures
            r.baseline == (FailureCounts { timeout: 0, crash: 0, invalid: 0 }),
            r.candidate == (FailureCounts { timeout: 0, crash: 0, invalid: 0 }),
    {
        FailureBreakdown { baseline: FailureCounts::new(), candidate: FailureCounts::new() }
    }
}

/// `c` with the tally for `s` raised by one (`Ok` raises nothing).
pub open spec fn bumped(c: FailureCounts, s: TrialStatus) -> FailureCounts {
    match s {
        TrialStatus::Succeeded => c,
        TrialStatus::Timeout => FailureCounts { timeout: (c.timeout + 1) as u64, ..c },
        TrialStatus::Crash => FailureCounts { crash: (c.crash + 1) as u64, ..c },
        TrialStatus::Invalid => FailureCounts { invalid: (c.invalid + 1) as u64, ..c },
    }
}

/// Room to raise every tally of `c` by one.
pub open spec fn has_room(c: FailureCounts) -> bool {
    c.timeout < u64::MAX && c.crash < u64::MAX && c.invalid < u64::MAX
}

/// Parses a status field and tallies it into `counts` when it is a failure.
/// Returns the parsed status either way; text that names no status is an
/// `UnrecognizedStatus` error at `line` in `field`, and tallies nothing.
pub fn tally_status(
    raw: &str,
    line: usize,
    field: &'static str,
    counts: &mut FailureCounts,
) -> (r: Result<TrialStatus, VeridictError>)
    requires
        has_room(*old(counts)),
    ensures
        match status_named(raw@) {
            Some(s) => r == Ok::<TrialStatus, VeridictError>(s)
                && *final(counts) == bumped(*old(counts), s),
            None => r is Err && is_unrecognized_status(r->Err_0, line, field@, raw@)
                && *final(counts) == *old(counts),
        },
{
    match TrialStatus::parse(raw) {
        Some(TrialStatus::Succeeded) => Ok(TrialStatus::Succeeded),
        Some(TrialStatus::Timeout) => {
            counts.timeout = counts.timeout + 1;
            Ok(TrialStatus::Timeout)
        },
        Some(TrialStatus::Crash) => {
            counts.crash = counts.crash + 1;
            Ok(TrialStatus::Crash)
        },
        Some(TrialStatus::Invalid) => {
            counts.invalid = counts.invalid + 1;
            Ok(TrialStatus::Invalid)
        },
        None => Err(
            VeridictError::UnrecognizedStatus { line, field, value: String::from_str(raw) },
        ),
    }
}

/// The text of an optional field, as characters.
pub open spec fn opt_text(o: Option<&str>) -> Option<Seq<char>> {
    match o {
        Some(s) => Some(s@),
        None => None,
    }
}

/// What a `result` field contributes: `Some(None)` when absent, `Some(Some(o))`
/// when it names `o`, and `None` (an error) when it names no outcome.
pub open spec fn parsed_result(result: Option<Seq<char>>) -> Option<Option<Outcome>> {
    match result {
        None => Some(None),
        Some(r) => match outcome_named(r) {
            Some(o) => Some(Some(o)),
            None => None,
        },
    }
}

/// The outcome a record contributes to a win/loss/draw metric under `policy`
/// (outer `None`: the `result` text had to be read and names no outcome).
pub open spec fn effective_outcome_spec(
    policy: FailurePolicy,
    baseline_status: Option<TrialStatus>,
    candidate_status: Option<TrialStatus>,
    result: Option<Seq<char>>,
) -> Option<Option<Outcome>> {
    let bf = is_failure(baseline_status);
    let cf = is_failure(candidate_status);
    match policy {
        FailurePolicy::ReportOnly => parsed_result(result),
        FailurePolicy::Exclude => if bf || cf {
            Some(None)
        } else {
            parsed_result(result)
        },
        FailurePolicy::Loss => if bf && cf {
            Some(Some(Outcome::Draw))
        } else if bf {
            Some(Some(Outcome::CandidateWin))
        } else if cf {
            Some(Some(Outcome::BaselineWin))
        } else {
            parsed_result(result)
        },
    }
}

/// The outcomes a `result` field may name, as listed in error messages.
pub open spec fn outcome_choices() -> Seq<char> {
    "baseline_win|candidate_win|draw"@
}

/// Reads an optional `result` field: absent is `Ok(None)`, a named outcome
/// is `Ok(Some(..))`, anything else is `UnrecognizedOutcome` at `line`.
pub fn parse_result_outcome(result: Option<&str>, line: usize) -> (r: Result<
    Option<Outcome>,
    VeridictError,
>)
    ensures
        match parsed_result(opt_text(result)) {
            Some(o) => r == Ok::<Option<Outcome>, VeridictError>(o),
            None => r is Err && is_unrecognized_outcome(
                r->Err_0,
                line,
                result->0@,
                outcome_choices(),
            ),
        },
{
    match result {
        None => Ok(None),
        Some(text) => match Outcome::parse(text) {
            Some(o) => Ok(Some(o)),
            None => Err(
                VeridictError::UnrecognizedOutcome {
                    line,
                    value: String::from_str(text),
                    expected: "baseline_win|candidate_win|draw",
                },
            ),
        },
    }
}

/// The outcome to record for a win/loss/draw metric, given the record's
/// parsed per-side statuses and the failure policy. `ReportOnly` reads only
/// `result`; `Exclude` drops the record when either side failed; `Loss`
/// synthesizes a loss for the failed side (a draw when both failed),
/// overriding any `result`. `result` is only validated when it is read.
pub fn effective_outcome(
    policy: FailurePolicy,
    baseline_status: Option<TrialStatus>,
    candidate_status: Option<TrialStatus>,
    result: Option<&str>,
    line: usize,
) -> (r: Result<Option<Outcome>, VeridictError>)
    ensures
        match effective_outcome_spec(
            policy,
            baseline_status,
            candidate_status,
            opt_text(result),
        ) {
            Some(o) => r == Ok::<Option<Outcome>, VeridictError>(o),
            None => r is Err && is_unrecognized_outcome(
                r->Err_0,
                line,
                result->0@,
                outcome_choices(),
            ),
        },
{
    let baseline_failed = match baseline_status {
        Some(s) => s != TrialStatus::Succeeded,
        None => false,
    };
    let candidate_failed = match candidate_status {
        Some(s) => s != TrialStatus::Succeeded,
        None => false,
    };
    match policy {
        FailurePolicy::ReportOnly => parse_result_outcome(result, line),
        FailurePolicy::Exclude => {
            if baseline_failed || candidate_failed {
                Ok(None)
            } else {
                parse_result_outcome(result, line)
            }
        },
        FailurePolicy::Loss => {
            if baseline_failed && candidate_failed {
                Ok(Some(Outcome::Draw))
            } else if baseline_failed {
                Ok(Some(Outcome::CandidateWin))
            } else if candidate_failed {
                Ok(Some(Outcome::BaselineWin))
            } else {
                parse_result_outcome(result, line)
            }
        },
    }
}

/// The label a record-level error names a metric by.
pub open spec fn label_of(metric: MetricKind) -> Seq<char> {
    match metric {
        MetricKind::WinRate => "metric winrate"@,
        MetricKind::MeanDiff => "metric mean-diff"@,
        MetricKind::SignTest => "metric sign-test"@,
        MetricKind::Elo => "metric elo"@,
        MetricKind::QuantileDiff => "metric quantile-diff"@,
    }
}

/// The `--metric` spelling a record-level error names a metric by.
pub fn metric_label(metric: MetricKind) -> (r: &'static str)
    ensures
        r@ == label_of(metric),
{
    match metric {
        MetricKind::WinRate => "metric winrate",
        MetricKind::MeanDiff => "metric mean-diff",
        MetricKind::SignTest => "metric sign-test",
        MetricKind::Elo => "metric elo",
        MetricKind::QuantileDiff => "metric quantile-diff",
    }
}

/// The `--ci-method` spelling of a CI method.
pub fn ci_method_label(ci_method: CiMethod) -> (r: &'static str)
    ensures
        r@ == (match ci_method {
            CiMethod::Wilson => "wilson"@,
            CiMethod::Exact => "exact"@,
            CiMethod::Jeffreys => "jeffreys"@,
        }),
{
    match ci_method {
        CiMethod::Wilson => "wilson",
        CiMethod::Exact => "exact",
        CiMethod::Jeffreys => "jeffreys",
    }
}

/// The `--failure-policy` spelling of a failure policy.
pub fn failure_policy_label(policy: FailurePolicy) -> (r: &'static str)
    ensures
        r@ == (match policy {
            FailurePolicy::ReportOnly => "report-only"@,
            FailurePolicy::Exclude => "exclude"@,
            FailurePolicy::Loss => "loss"@,
        }),
{
    match policy {
        FailurePolicy::ReportOnly => "report-only",
        FailurePolicy::Exclude => "exclude",
        FailurePolicy::Loss => "loss",
    }
}

/// The `--bootstrap-method` spelling of a bootstrap method.
pub fn bootstrap_method_label(method: BootstrapMethod) -> (r: &'static str)
    ensures
        r@ == (match method {
            BootstrapMethod::Percentile => "percentile"@,
            BootstrapMethod::Bca => "bca"@,
            BootstrapMethod::Basic => "basic"@,
        }),
{
    match method {
        BootstrapMethod::Percentile => "percentile",
        BootstrapMethod::Bca => "bca",
        BootstrapMethod::Basic => "basic",
    }
}

/// Whether `metric` reads a binomial CI method: only `winrate` and
/// `sign-test` estimate a plain proportion.
pub open spec fn reads_ci_method(metric: MetricKind) -> bool {
    metric == MetricKind::WinRate || metric == MetricKind::SignTest
}

/// A CI method other than Wilson needs a metric that reads one.
pub open spec fn ci_method_fits(metric: MetricKind, ci_method: CiMethod) -> bool {
    ci_method == CiMethod::Wilson || reads_ci_method(metric)
}

/// A failure policy other than `report-only` needs an outcome-based metric.
pub open spec fn failure_policy_fits(metric: MetricKind, policy: FailurePolicy) -> bool {
    policy == FailurePolicy::ReportOnly || counts_outcomes(metric)
}

/// The BCa bootstrap is refused for `quantile-diff`.
pub open spec fn bootstrap_method_fits(metric: MetricKind, method: BootstrapMethod) -> bool {
    !(metric == MetricKind::QuantileDiff && method == BootstrapMethod::Bca)
}

/// Checks that the shared flags suit one requested metric: the CI method
/// first, then the failure policy, then the bootstrap method; the first
/// mismatch is the error, naming the flag's value and the metric.
pub fn check_metric_config(
    metric: MetricKind,
    ci_method: CiMethod,
    bootstrap_method: BootstrapMethod,
    policy: FailurePolicy,
) -> (r: Result<(), VeridictError>)
    ensures
        r is Ok <==> ci_method_fits(metric, ci_method) && failure_policy_fits(metric, policy)
            && bootstrap_method_fits(metric, bootstrap_method),
        !ci_method_fits(metric, ci_method) ==> (r matches Err(VeridictError::IncompatibleCiMethod { method, metric: m })
            && method@ == (match ci_method {
                CiMethod::Wilson => "wilson"@,
                CiMethod::Exact => "exact"@,
                CiMethod::Jeffreys => "jeffreys"@,
            }) && m@ == label_of(metric)),
        ci_method_fits(metric, ci_method) && !failure_policy_fits(metric, policy)
            ==> (r matches Err(VeridictError::IncompatibleFailurePolicy { policy: p, metric: m })
            && p@ == (match policy {
                FailurePolicy::ReportOnly => "report-only"@,
                FailurePolicy::Exclude => "exclude"@,
                FailurePolicy::Loss => "loss"@,
            }) && m@ == label_of(metric)),
        ci_method_fits(metric, ci_method) && failure_policy_fits(metric, policy)
            && !bootstrap_method_fits(metric, bootstrap_method)
            ==> (r matches Err(VeridictError::IncompatibleBootstrapMethod { method, metric: m })
            && method@ == "bca"@ && m@ == label_of(metric)),
{
    let reads_ci = metric == MetricKind::WinRate || metric == MetricKind::SignTest;
    if ci_method != CiMethod::Wilson && !reads_ci {
        return Err(VeridictError::IncompatibleCiMethod { method: ci_method_label(ci_method), metric: metric_label(metric) });
    }
    let outcome_based = metric == MetricKind::WinRate || metric == MetricKind::Elo;
    if policy != FailurePolicy::ReportOnly && !outcome_based {
        return Err(VeridictError::IncompatibleFailurePolicy { policy: failure_policy_label(policy), metric: metric_label(metric) });
    }
    if metric == MetricKind::QuantileDiff && bootstrap_method == BootstrapMethod::Bca {
        return Err(VeridictError::IncompatibleBootstrapMethod { method: bootstrap_method_label(bootstrap_method), metric: metric_label(metric) });
    }
    Ok(())
}

/// Whether a `--quantile` flag has a metric to apply to: some requested
/// metric is `quantile-diff`.
pub fn quantile_flag_applies(metrics: &[MetricKind]) -> (r: bool)
    ensures
        r == exists|j: int| 0 <= j < metrics@.len() && metrics@[j] == MetricKind::QuantileDiff,
{
    let mut j: usize = 0;
    while j < metrics.len()
        invariant
            0 <= j <= metrics@.len(),
            forall|x: int| 0 <= x < j ==> metrics@[x] != MetricKind::QuantileDiff,
        decreases metrics@.len() - j,
    {
        if metrics[j] == MetricKind::QuantileDiff {
            return true;
        }
        j = j + 1;
    }
    false
}

/// How many times `id` occurs in `ids`.
pub open spec fn occurrences(ids: Seq<Seq<char>>, id: Seq<char>) -> nat
    decreases ids.len(),
{
    if ids.len() == 0 {
        0
    } else {
        occurrences(ids.drop_last(), id) + if ids[ids.len() - 1] == id {
            1nat
        } else {
            0nat
        }
    }
}

/// `m` is the largest number of times any one id occurs in `ids` (zero for
/// no ids).
pub open spec fn is_max_repeat(ids: Seq<Seq<char>>, m: nat) -> bool {
    &&& forall|k: int| 0 <= k < ids.len() ==> occurrences(ids, #[trigger] ids[k]) <= m
    &&& (ids.len() == 0 ==> m == 0)
    &&& (ids.len() > 0 ==> exists|k: int| 0 <= k < ids.len() && occurrences(ids, #[trigger] ids[k]) == m)
}

proof fn lemma_occurrences_push(ids: Seq<Seq<char>>, new_id: Seq<char>, id: Seq<char>)
    ensures
        occurrences(ids.push(new_id), id) == occurrences(ids, id) + if new_id == id { 1nat } else { 0nat },
{
    assert(ids.push(new_id).drop_last() =~= ids);
}

proof fn lemma_occurrences_bounded(ids: Seq<Seq<char>>, id: Seq<char>)
    ensures
        occurrences(ids, id) <= ids.len(),
        ids.contains(id) ==> occurrences(ids, id) >= 1,
        !ids.contains(id) ==> occurrences(ids, id) == 0,
    decreases ids.len(),
{
    if ids.len() > 0 {
        let d = ids.drop_last();
        lemma_occurrences_bounded(d, id);
        if ids.contains(id) && ids[ids.len() - 1] != id {
            let k = choose|k: int| 0 <= k < ids.len() && ids[k] == id;
            assert(d[k] == id);
        }
        if !ids.contains(id) && d.contains(id) {
            let k = choose|k: int| 0 <= k < d.len() && d[k] == id;
            assert(ids[k] == id);
        }
    }
}

/// How often ids repeat across records read without pairing: how many
/// records carried an id, and the largest number sharing one id.
pub struct IdTally {
    records_with_id: u64,
    counts: Vec<(String, u64)>,
    noted: Ghost<Seq<Seq<char>>>,
}

impl IdTally {
    /// The ids noted so far, in order.
    pub closed spec fn noted(&self) -> Seq<Seq<char>> {
        self.noted@
    }

    pub closed spec fn wf(&self) -> bool {
        &&& self.records_with_id as nat == self.noted@.len()
        &&& forall|a: int, b: int| 0 <= a < b < self.counts@.len() ==> self.counts@[a].0@ != self.counts@[b].0@
        &&& forall|a: int| 0 <= a < self.counts@.len() ==> (#[trigger] self.counts@[a]).1 as nat == occurrences(self.noted@, self.counts@[a].0@)
        &&& forall|k: int| 0 <= k < self.noted@.len() ==> exists|a: int| 0 <= a < self.counts@.len() && self.counts@[a].0@ == #[trigger] self.noted@[k]
    }

    pub fn new() -> (r: IdTally)
        ensures
            r.wf(),
            r.noted().len() == 0,
    {
        IdTally { records_with_id: 0, counts: Vec::new(), noted: Ghost(Seq::empty()) }
    }

    /// Notes one record carrying `id`.
    pub fn note(&mut self, id: &str)
        requires
            old(self).wf(),
            old(self).noted().len() < u64::MAX,
        ensures
            final(self).wf(),
            final(self).noted() == old(self).noted().push(id@),
    {
        let ghost ids = self.noted@;
        let ghost new_ids = ids.push(id@);
        let mut i: usize = 0;
        while i < self.counts.len()
            invariant
                self.wf(),
                ids == self.noted@,
                ids == old(self).noted(),
                new_ids == ids.push(id@),
                ids.len() < u64::MAX,
                0 <= i <= self.counts@.len(),
                forall|j: int| 0 <= j < i ==> self.counts@[j].0@ != id@,
            decreases self.counts@.len() - i,
        {
            if str_eq(self.counts[i].0.as_str(), id) {
                proof {
                    lemma_occurrences_bounded(ids, id@);
                }
                let c = self.counts[i].1 + 1;
                let name = self.counts[i].0.clone();
                let ghost old_counts = self.counts@;
                self.counts.set(i, (name, c));
                self.records_with_id = self.records_with_id + 1;
                self.noted = Ghost(new_ids);
                proof {
                    assert forall|a: int| 0 <= a < self.counts@.len() implies (#[trigger] self.counts@[a]).1 as nat == occurrences(new_ids, self.counts@[a].0@) by {
                        lemma_occurrences_push(ids, id@, self.counts@[a].0@);
                        if a != i {
                            assert(self.counts@[a] == old_counts[a]);
                        }
                    }
                    assert forall|k: int| 0 <= k < new_ids.len() implies exists|a: int| 0 <= a < self.counts@.len() && self.counts@[a].0@ == #[trigger] new_ids[k] by {
                        if k < ids.len() {
                            assert(new_ids[k] == ids[k]);
                            let a = choose|a: int| 0 <= a < old_counts.len() && old_counts[a].0@ == ids[k];
                            assert(self.counts@[a].0@ == old_counts[a].0@);
                        } else {
                            assert(self.counts@[i as int].0@ == id@);
                        }
                    }
                    assert forall|a: int, b: int| 0 <= a < b < self.counts@.len() implies self.counts@[a].0@ != self.counts@[b].0@ by {
                        assert(old_counts[a].0@ != old_counts[b].0@);
                    }
                }
                return;
            }
            i = i + 1;
        }
        proof {
            lemma_occurrences_bounded(ids, id@);
            if ids.contains(id@) {
                let k = choose|k: int| 0 <= k < ids.len() && ids[k] == id@;
                let a = choose|a: int| 0 <= a < self.counts@.len() && self.counts@[a].0@ == ids[k];
            }
        }
        let ghost old_counts = self.counts@;
        self.counts.push((String::from_str(id), 1));
        self.records_with_id = self.records_with_id + 1;
        self.noted = Ghost(new_ids);
        proof {
            assert forall|a: int| 0 <= a < self.counts@.len() implies (#[trigger] self.counts@[a]).1 as nat == occurrences(new_ids, self.counts@[a].0@) by {
                lemma_occurrences_push(ids, id@, self.counts@[a].0@);
                if a < old_counts.len() {
                    assert(self.counts@[a] == old_counts[a]);
                }
            }
            assert forall|k: int| 0 <= k < new_ids.len() implies exists|a: int| 0 <= a < self.counts@.len() && self.counts@[a].0@ == #[trigger] new_ids[k] by {
                if k < ids.len() {
                    assert(new_ids[k] == ids[k]);
                    let a = choose|a: int| 0 <= a < old_counts.len() && old_counts[a].0@ == ids[k];
                    assert(self.counts@[a] == old_counts[a]);
                } else {
                    assert(self.counts@[old_counts.len() as int].0@ == id@);
                }
            }
            assert forall|a: int, b: int| 0 <= a < b < self.counts@.len() implies self.counts@[a].0@ != self.counts@[b].0@ by {
                if b < old_counts.len() {
                    assert(old_counts[a].0@ != old_counts[b].0@);
                } else {
                    assert(self.counts@[a] == old_counts[a]);
                }
            }
        }
    }

    /// `(records_with_id, max_id_count)`.
    pub fn summary(&self) -> (r: (u64, u64))
        requires
            self.wf(),
        ensures
            r.0 as nat == self.noted().len(),
            is_max_repeat(self.noted(), r.1 as nat),
    {
        let ghost ids = self.noted@;
        let mut best: u64 = 0;
        let mut at: usize = 0;
        let mut i: usize = 0;
        while i < self.counts.len()
            invariant
                self.wf(),
                ids == self.noted@,
                0 <= i <= self.counts@.len(),
                forall|a: int| 0 <= a < i ==> self.counts@[a].1 <= best,
                i > 0 ==> at < i && self.counts@[at as int].1 == best,
                i == 0 ==> best == 0,
            decreases self.counts@.len() - i,
        {
            if self.counts[i].1 > best || i == 0 {
                best = self.counts[i].1;
                at = i;
            }
            i = i + 1;
        }
        proof {
            assert forall|k: int| 0 <= k < ids.len() implies occurrences(ids, #[trigger] ids[k]) <= best by {
                let a = choose|a: int| 0 <= a < self.counts@.len() && self.counts@[a].0@ == ids[k];
                assert(self.counts@[a].1 as nat == occurrences(ids, self.counts@[a].0@));
            }
            if ids.len() > 0 {
                let a0 = choose|a: int| 0 <= a < self.counts@.len() && self.counts@[a].0@ == ids[0];
                assert(self.counts@.len() > 0);
                let name = self.counts@[at as int].0@;
                assert(self.counts@[at as int].1 as nat == occurrences(ids, name));
                lemma_occurrences_bounded(ids, name);
                if best > 0 {
                    let k = choose|k: int| 0 <= k < ids.len() && ids[k] == name;
                    assert(occurrences(ids, ids[k]) == best);
                } else {
                    assert(occurrences(ids, ids[0]) <= best);
                    lemma_occurrences_bounded(ids, ids[0]);
                    assert(ids.contains(ids[0]));
                }
            }
        }
        (self.records_with_id, best)
    }
}

/// A record's numeric reading for the paired-value metrics.
#[derive(Debug, Clone, Copy)]
pub enum Reading<T> {
    /// `candidate - baseline`.
    Value(T),
    /// The named field (`baseline` or `candidate`) held a non-finite number.
    NonFinite(&'static str),
}

/// One requested metric's record-by-record state: win/loss/draw outcomes
/// for `winrate` and `elo`, numeric differences for the others.
pub enum MetricSlot<T> {
    Outcomes { metric: MetricKind, policy: FailurePolicy, collector: OutcomeCollector },
    Values { metric: MetricKind, collector: ValueCollector<T> },
}

/// The detail of the error for a record a metric can read nothing from.
pub open spec fn unusable_detail() -> Seq<char> {
    "record has no fields usable by this metric and no status fields"@
}

/// The parsed status of an optional, well-formed status field.
pub open spec fn parsed_status(s: Option<&str>) -> Option<TrialStatus> {
    match s {
        Some(t) => status_named(t@),
        None => None,
    }
}

/// Whether `metric` counts win/loss/draw outcomes.
pub open spec fn counts_outcomes(metric: MetricKind) -> bool {
    metric == MetricKind::WinRate || metric == MetricKind::Elo
}

pub open spec fn slot_metric<T>(s: MetricSlot<T>) -> MetricKind {
    match s {
        MetricSlot::Outcomes { metric, .. } => metric,
        MetricSlot::Values { metric, .. } => metric,
    }
}

pub open spec fn slot_wf<T: Copy>(s: MetricSlot<T>) -> bool {
    match s {
        MetricSlot::Outcomes { collector, .. } => collector.wf(),
        MetricSlot::Values { collector, .. } => collector.wf(),
    }
}

/// Observations the slot holds that count against its counters.
pub open spec fn slot_seen<T>(s: MetricSlot<T>) -> nat {
    match s {
        MetricSlot::Outcomes { collector, .. } => collector.seen(),
        MetricSlot::Values { .. } => 0,
    }
}

/// Whether the slot rejects this record.
pub open spec fn slot_fails<T: Copy>(
    s: MetricSlot<T>,
    rec: RecordFields,
    bs: Option<TrialStatus>,
    cs: Option<TrialStatus>,
    reading: Option<Reading<T>>,
) -> bool {
    match s {
        MetricSlot::Outcomes { policy, .. } => effective_outcome_spec(policy, bs, cs, opt_text(rec.result)) is None
            || !(bs is Some || cs is Some || rec.result is Some),
        MetricSlot::Values { collector, .. } => match reading {
            Some(Reading::NonFinite(_)) => true,
            Some(Reading::Value(_)) => !collector.paired() && rec.id is Some && seen_before(collector.seen(), rec.id->0@),
            None => !(bs is Some || cs is Some),
        },
    }
}

/// `e` is the error the slot rejects this record with.
pub open spec fn slot_error<T: Copy>(
    s: MetricSlot<T>,
    line: usize,
    rec: RecordFields,
    bs: Option<TrialStatus>,
    cs: Option<TrialStatus>,
    reading: Option<Reading<T>>,
    e: VeridictError,
) -> bool {
    match s {
        MetricSlot::Outcomes { metric, policy, .. } => if effective_outcome_spec(policy, bs, cs, opt_text(rec.result)) is None {
            is_unrecognized_outcome(e, line, rec.result->0@, outcome_choices())
        } else {
            is_schema_mismatch(e, line, label_of(metric), unusable_detail())
        },
        MetricSlot::Values { metric, .. } => match reading {
            Some(Reading::NonFinite(f)) => e is NonFiniteValue && e->NonFiniteValue_line == line && e->NonFiniteValue_field == f,
            Some(Reading::Value(_)) => e is DuplicateId && e->DuplicateId_id@ == rec.id->0@ && e->DuplicateId_line == line,
            None => is_schema_mismatch(e, line, label_of(metric), unusable_detail()),
        },
    }
}

/// `after` is `before` having accepted this record.
pub open spec fn slot_step<T: Copy>(
    before: MetricSlot<T>,
    after: MetricSlot<T>,
    line: usize,
    rec: RecordFields,
    bs: Option<TrialStatus>,
    cs: Option<TrialStatus>,
    reading: Option<Reading<T>>,
) -> bool {
    match (before, after) {
        (
            MetricSlot::Outcomes { metric: m0, policy: p0, collector: c0 },
            MetricSlot::Outcomes { metric: m1, policy: p1, collector: c1 },
        ) => m1 == m0 && p1 == p0 && match effective_outcome_spec(p0, bs, cs, opt_text(rec.result)) {
            Some(Some(o)) => recorded(c0, c1, line, opt_text(rec.id), o),
            _ => c1 == c0,
        },
        (MetricSlot::Values { metric: m0, collector: c0 }, MetricSlot::Values { metric: m1, collector: c1 }) => m1 == m0
            && c1.paired() == c0.paired() && match reading {
            Some(Reading::Value(v)) => match (c0.paired(), rec.id) {
                (true, Some(i)) => c1.pending() == filed(c0.pending(), i@, line, v) && c1.values() == c0.values()
                    && c1.seen() == c0.seen(),
                (false, Some(i)) => c1.values() == c0.values().push(v) && c1.seen() == c0.seen().push(i@)
                    && c1.pending() == c0.pending(),
                (_, None) => c1.values() == c0.values().push(v) && c1.seen() == c0.seen() && c1.pending() == c0.pending(),
            },
            _ => c1 == c0,
        },
        _ => false,
    }
}

impl<T: Copy> MetricSlot<T> {
    /// A fresh slot for `metric`; `policy` matters to `winrate` and `elo`
    /// only.
    pub fn for_metric(metric: MetricKind, policy: FailurePolicy, paired_by_id: bool) -> (r: MetricSlot<T>)
        ensures
            slot_wf(r),
            slot_metric(r) == metric,
            counts_outcomes(metric) ==> (r matches MetricSlot::Outcomes { policy: p, collector: c, .. } && p == policy
                && c.paired() == paired_by_id && c.counts() == (0nat, 0nat, 0nat) && c.pending().len() == 0),
            !counts_outcomes(metric) ==> (r matches MetricSlot::Values { collector: c, .. } && c.paired() == paired_by_id
                && c.values().len() == 0 && c.seen().len() == 0 && c.pending().len() == 0),
    {
        match metric {
            MetricKind::WinRate | MetricKind::Elo => MetricSlot::Outcomes { metric, policy, collector: OutcomeCollector::new(paired_by_id) },
            _ => MetricSlot::Values { metric, collector: ValueCollector::new(paired_by_id) },
        }
    }

    /// Reads one record into this metric. An outcome metric records the
    /// outcome the failure policy gives it; a numeric metric records the
    /// reading. A record this metric can use nothing of, and that has no
    /// status field, is a `SchemaMismatch`.
    pub fn ingest(
        &mut self,
        line: usize,
        rec: RecordFields,
        bs: Option<TrialStatus>,
        cs: Option<TrialStatus>,
        reading: Option<Reading<T>>,
    ) -> (r: Result<(), VeridictError>)
        requires
            slot_wf(*old(self)),
            slot_seen(*old(self)) < u64::MAX,
        ensures
            r is Err <==> slot_fails(*old(self), rec, bs, cs, reading),
            r is Err ==> slot_error(*old(self), line, rec, bs, cs, reading, r->Err_0),
            r is Ok ==> slot_wf(*final(self)) && slot_step(*old(self), *final(self), line, rec, bs, cs, reading)
                && slot_seen(*final(self)) <= slot_seen(*old(self)) + 1,
    {
        match self {
            MetricSlot::Outcomes { metric, policy, collector } => {
                let used = bs.is_some() || cs.is_some() || rec.result.is_some();
                let outcome = effective_outcome(*policy, bs, cs, rec.result, line)?;
                if !used {
                    return Err(
                        VeridictError::SchemaMismatch {
                            line,
                            context: metric_label(*metric),
                            detail: String::from_str("record has no fields usable by this metric and no status fields"),
                        },
                    );
                }
                match outcome {
                    Some(o) => collector.record(line, rec.id, o),
                    None => {},
                }
                Ok(())
            },
            MetricSlot::Values { metric, collector } => {
                let mut used = bs.is_some() || cs.is_some();
                match reading {
                    Some(Reading::NonFinite(field)) => {
                        return Err(VeridictError::NonFiniteValue { line, field });
                    },
                    Some(Reading::Value(v)) => {
                        used = true;
                        collector.record(line, rec.id, v)?;
                    },
                    None => {},
                }
                if !used {
                    return Err(
                        VeridictError::SchemaMismatch {
                            line,
                            context: metric_label(*metric),
                            detail: String::from_str("record has no fields usable by this metric and no status fields"),
                        },
                    );
                }
                Ok(())
            },
        }
    }
}

/// What one metric gathered over all records: win/loss/draw counts
/// `(baseline_wins, candidate_wins, draws)`, or numeric observations.
#[derive(Debug)]
pub enum Gathered<T> {
    Counts(u64, u64, u64),
    Observations(Vec<Observation<T>>),
    /// Outcomes kept in clusters of records that share an id.
    Clusters(Vec<Vec<Outcome>>),
}

/// Everything a scan gathered: per metric, then the shared tallies.
pub struct ScanTotals<T> {
    pub gathered: Vec<Gathered<T>>,
    pub failures: FailureBreakdown,
    pub records_with_id: u64,
    pub max_id_count: u64,
}

/// Whether the slot's held groups can all be settled (none above two).
pub open spec fn slot_settles<T: Copy>(s: MetricSlot<T>) -> bool {
    match s {
        MetricSlot::Outcomes { collector, .. } => forall|j: int| 0 <= j < collector.pending().len() ==> collector.pending()[j].1.len() <= 2,
        MetricSlot::Values { collector, .. } => forall|j: int| 0 <= j < collector.pending().len() ==> collector.pending()[j].1.len() <= 2,
    }
}

/// `g` is what the slot gathers once settled.
pub open spec fn slot_gathers<T: Copy>(s: MetricSlot<T>, g: Gathered<T>) -> bool {
    match s {
        MetricSlot::Outcomes { collector, .. } => {
            let t = settled(collector.counts(), collector.pending());
            g matches Gathered::Counts(b, c, d) && b == t.0 && c == t.1 && d == t.2
        },
        MetricSlot::Values { collector, .. } => g matches Gathered::Observations(v)
            && v@ == single_observations(collector.values()) + group_observations(collector.pending()),
    }
}

/// `e` reports the first oversized group of the slot.
pub open spec fn slot_oversized<T: Copy>(s: MetricSlot<T>, e: VeridictError) -> bool {
    match s {
        MetricSlot::Outcomes { collector, .. } => reports_first_oversized(collector.pending(), e),
        MetricSlot::Values { collector, .. } => reports_first_oversized(collector.pending(), e),
    }
}

/// One pass over the records for several metrics at once: each record's
/// statuses are tallied once, ids are counted for the repetition check
/// (without pairing), and every metric reads the record in turn.
pub struct RecordScan<T> {
    paired_by_id: bool,
    clustered: bool,
    ingested: u64,
    failures: FailureBreakdown,
    ids: IdTally,
    slots: Vec<MetricSlot<T>>,
}

impl<T: Copy> RecordScan<T> {
    pub closed spec fn paired(&self) -> bool {
        self.paired_by_id
    }

    /// Records read so far.
    pub closed spec fn ingested(&self) -> nat {
        self.ingested as nat
    }

    pub closed spec fn failures(&self) -> FailureBreakdown {
        self.failures
    }

    /// Ids noted for the repetition check.
    pub closed spec fn ids(&self) -> Seq<Seq<char>> {
        self.ids.noted()
    }

    pub closed spec fn slots(&self) -> Seq<MetricSlot<T>> {
        self.slots@
    }

    /// The scan keeps every id's outcomes together as one cluster.
    pub closed spec fn is_clustered(&self) -> bool {
        self.clustered
    }

    pub closed spec fn wf(&self) -> bool {
        &&& self.clustered ==> forall|j: int| 0 <= j < self.slots@.len() ==> #[trigger] self.slots@[j] is Outcomes
        &&& self.ids.wf()
        &&& self.ids.noted().len() <= self.ingested
        &&& forall|j: int| 0 <= j < self.slots@.len() ==> slot_wf(#[trigger] self.slots@[j])
        &&& forall|j: int| 0 <= j < self.slots@.len() ==> slot_seen(#[trigger] self.slots@[j]) <= self.ingested
        &&& self.failures.baseline.timeout <= self.ingested && self.failures.baseline.crash <= self.ingested
            && self.failures.baseline.invalid <= self.ingested
        &&& self.failures.candidate.timeout <= self.ingested && self.failures.candidate.crash <= self.ingested
            && self.failures.candidate.invalid <= self.ingested
    }

    /// A scan for `metrics`, each with its failure policy, in order.
    pub fn new(metrics: &[(MetricKind, FailurePolicy)], paired_by_id: bool) -> (r: RecordScan<T>)
        ensures
            r.wf(),
            r.paired() == paired_by_id,
            !r.is_clustered(),
            r.ingested() == 0,
            r.ids().len() == 0,
            r.failures().baseline == (FailureCounts { timeout: 0, crash: 0, invalid: 0 }),
            r.failures().candidate == (FailureCounts { timeout: 0, crash: 0, invalid: 0 }),
            r.slots().len() == metrics@.len(),
            forall|j: int| 0 <= j < metrics@.len() ==> slot_metric(#[trigger] r.slots()[j]) == metrics@[j].0,
            forall|j: int| 0 <= j < metrics@.len() ==> (counts_outcomes(metrics@[j].0) ==> (r.slots()[j] matches MetricSlot::Outcomes { policy: p, collector: c, .. }
                && p == metrics@[j].1 && c.paired() == paired_by_id && c.counts() == (0nat, 0nat, 0nat) && c.pending().len() == 0)),
            forall|j: int| 0 <= j < metrics@.len() ==> (!counts_outcomes(metrics@[j].0) ==> (r.slots()[j] matches MetricSlot::Values { collector: c, .. }
                && c.paired() == paired_by_id && c.values().len() == 0 && c.seen().len() == 0 && c.pending().len() == 0)),
    {
        let mut slots: Vec<MetricSlot<T>> = Vec::new();
        let mut j: usize = 0;
        while j < metrics.len()
            invariant
                0 <= j <= metrics@.len(),
                slots@.len() == j,
                forall|x: int| 0 <= x < j ==> slot_wf(#[trigger] slots@[x]) && slot_seen(slots@[x]) == 0,
                forall|x: int| 0 <= x < j ==> slot_metric(#[trigger] slots@[x]) == metrics@[x].0,
                forall|x: int| 0 <= x < j ==> (counts_outcomes(metrics@[x].0) ==> (#[trigger] slots@[x] matches MetricSlot::Outcomes { policy: p, collector: c, .. }
                    && p == metrics@[x].1 && c.paired() == paired_by_id && c.counts() == (0nat, 0nat, 0nat) && c.pending().len() == 0)),
                forall|x: int| 0 <= x < j ==> (!counts_outcomes(metrics@[x].0) ==> (#[trigger] slots@[x] matches MetricSlot::Values { collector: c, .. }
                    && c.paired() == paired_by_id && c.values().len() == 0 && c.seen().len() == 0 && c.pending().len() == 0)),
            decreases metrics@.len() - j,
        {
            let (metric, policy) = metrics[j];
            let slot = MetricSlot::for_metric(metric, policy, paired_by_id);
            proof {
                if counts_outcomes(metric) {
                    assert(entry_count(slot->Outcomes_collector.pending()) == 0);
                }
            }
            slots.push(slot);
            j = j + 1;
        }
        RecordScan { paired_by_id, clustered: false, ingested: 0, failures: FailureBreakdown::new(), ids: IdTally::new(), slots }
    }

    /// Whether another record fits the counters.
    pub fn has_room(&self) -> (r: bool)
        ensures
            r == (self.ingested() < u64::MAX),
    {
        self.ingested < u64::MAX
    }

    /// Reads one record. Its status fields are parsed and tallied first
    /// (baseline, then candidate); without pairing, its id is counted; then
    /// every metric reads it in order, and the first metric to reject it
    /// gives the error.
    pub fn ingest(&mut self, line: usize, rec: RecordFields, reading: Option<Reading<T>>) -> (r: Result<(), VeridictError>)
        requires
            old(self).wf(),
            old(self).ingested() < u64::MAX,
        ensures
            rec.baseline_status is Some && status_named(rec.baseline_status->0@) is None ==> r is Err
                && is_unrecognized_status(r->Err_0, line, "baseline_status"@, rec.baseline_status->0@),
            status_ok(rec.baseline_status) && rec.candidate_status is Some && status_named(rec.candidate_status->0@) is None
                ==> r is Err && is_unrecognized_status(r->Err_0, line, "candidate_status"@, rec.candidate_status->0@),
            status_ok(rec.baseline_status) && status_ok(rec.candidate_status) ==> {
                let bs = parsed_status(rec.baseline_status);
                let cs = parsed_status(rec.candidate_status);
                &&& (r is Ok <==> forall|j: int| 0 <= j < old(self).slots().len() ==> !slot_fails(#[trigger] old(self).slots()[j], rec, bs, cs, reading))
                &&& (r is Err ==> exists|j: int| 0 <= j < old(self).slots().len()
                    && (forall|i: int| 0 <= i < j ==> !slot_fails(#[trigger] old(self).slots()[i], rec, bs, cs, reading))
                    && slot_fails(old(self).slots()[j], rec, bs, cs, reading)
                    && slot_error(old(self).slots()[j], line, rec, bs, cs, reading, r->Err_0))
                &&& (r is Ok ==> {
                    &&& final(self).wf()
                    &&& final(self).paired() == old(self).paired()
                    &&& final(self).is_clustered() == old(self).is_clustered()
                    &&& final(self).ingested() == old(self).ingested() + 1
                    &&& final(self).failures().baseline == bumped_opt(old(self).failures().baseline, rec.baseline_status)
                    &&& final(self).failures().candidate == bumped_opt(old(self).failures().candidate, rec.candidate_status)
                    &&& final(self).ids() == (if !old(self).paired() && rec.id is Some {
                        old(self).ids().push(rec.id->0@)
                    } else {
                        old(self).ids()
                    })
                    &&& final(self).slots().len() == old(self).slots().len()
                    &&& forall|j: int| 0 <= j < old(self).slots().len() ==> slot_step(old(self).slots()[j], #[trigger] final(self).slots()[j], line, rec, bs, cs, reading)
                })
            },
    {
        let mut bs: Option<TrialStatus> = None;
        let mut cs: Option<TrialStatus> = None;
        if let Some(status) = rec.baseline_status {
            bs = Some(tally_status(status, line, "baseline_status", &mut self.failures.baseline)?);
        }
        if let Some(status) = rec.candidate_status {
            cs = Some(tally_status(status, line, "candidate_status", &mut self.failures.candidate)?);
        }
        if !self.paired_by_id {
            if let Some(id) = rec.id {
                self.ids.note(id);
            }
        }
        let ghost start = self.slots@;
        let ghost ingested = self.ingested;
        let mut j: usize = 0;
        while j < self.slots.len()
            invariant
                0 <= j <= self.slots@.len(),
                self.slots@.len() == start.len(),
                start == old(self).slots(),
                status_ok(rec.baseline_status),
                status_ok(rec.candidate_status),
                self.paired_by_id == old(self).paired(),
                self.clustered == old(self).is_clustered(),
                self.clustered ==> forall|x: int| 0 <= x < start.len() ==> #[trigger] start[x] is Outcomes,
                self.ids.wf(),
                self.ids.noted() == (if !old(self).paired() && rec.id is Some {
                    old(self).ids().push(rec.id->0@)
                } else {
                    old(self).ids()
                }),
                self.ids.noted().len() <= ingested + 1,
                self.failures.baseline == bumped_opt(old(self).failures().baseline, rec.baseline_status),
                self.failures.candidate == bumped_opt(old(self).failures().candidate, rec.candidate_status),
                self.failures.baseline.timeout <= ingested + 1 && self.failures.baseline.crash <= ingested + 1
                    && self.failures.baseline.invalid <= ingested + 1,
                self.failures.candidate.timeout <= ingested + 1 && self.failures.candidate.crash <= ingested + 1
                    && self.failures.candidate.invalid <= ingested + 1,
                ingested == old(self).ingested(),
                ingested == self.ingested,
                ingested < u64::MAX,
                bs == parsed_status(rec.baseline_status),
                cs == parsed_status(rec.candidate_status),
                forall|x: int| 0 <= x < start.len() ==> slot_wf(#[trigger] start[x]) && slot_seen(start[x]) <= ingested,
                forall|x: int| 0 <= x < j ==> !slot_fails(#[trigger] start[x], rec, bs, cs, reading),
                forall|x: int| 0 <= x < j ==> slot_step(start[x], #[trigger] self.slots@[x], line, rec, bs, cs, reading),
                forall|x: int| 0 <= x < j ==> slot_wf(#[trigger] self.slots@[x]) && slot_seen(self.slots@[x]) <= ingested + 1,
                forall|x: int| j <= x < start.len() ==> #[trigger] self.slots@[x] == start[x],
            decreases start.len() - j,
        {
            let ghost before = self.slots@;
            let res = self.slots[j].ingest(line, rec, bs, cs, reading);
            match res {
                Ok(()) => {},
                Err(e) => {
                    return Err(e);
                },
            }
            proof {
                assert forall|x: int| 0 <= x < j + 1 implies slot_step(start[x], #[trigger] self.slots@[x], line, rec, bs, cs, reading) by {
                    if x < j {
                        assert(self.slots@[x] == before[x]);
                    }
                }
                assert forall|x: int| 0 <= x < j + 1 implies slot_wf(#[trigger] self.slots@[x]) && slot_seen(self.slots@[x]) <= ingested + 1 by {
                    if x < j {
                        assert(self.slots@[x] == before[x]);
                    }
                }
                assert forall|x: int| j + 1 <= x < start.len() implies #[trigger] self.slots@[x] == start[x] by {
                    assert(self.slots@[x] == before[x]);
                }
            }
            j = j + 1;
        }
        proof {
            if self.clustered {
                assert forall|x: int| 0 <= x < self.slots@.len() implies #[trigger] self.slots@[x] is Outcomes by {
                    assert(slot_step(start[x], self.slots@[x], line, rec, bs, cs, reading));
                }
            }
        }
        self.ingested = self.ingested + 1;
        Ok(())
    }
}

impl<T: Copy> MetricSlot<T> {
    /// Settles the slot: win/loss/draw counts, or numeric observations (see
    /// the collectors' `finish`).
    pub fn finish(self) -> (r: Result<Gathered<T>, VeridictError>)
        requires
            slot_wf(self),
        ensures
            r is Ok <==> slot_settles(self),
            r is Ok ==> slot_gathers(self, r->Ok_0),
            r is Err ==> slot_oversized(self, r->Err_0),
    {
        match self {
            MetricSlot::Outcomes { collector, .. } => {
                let (b, c, d) = collector.finish()?;
                Ok(Gathered::Counts(b, c, d))
            },
            MetricSlot::Values { collector, .. } => {
                let v = collector.finish()?;
                Ok(Gathered::Observations(v))
            },
        }
    }
}

impl<T: Copy> RecordScan<T> {
    /// Settles every metric, in order, and hands back what each gathered
    /// with the shared tallies. The first metric that cannot settle (an id
    /// with more than two records under pairing) gives the error.
    pub fn finish(self) -> (r: Result<ScanTotals<T>, VeridictError>)
        requires
            self.wf(),
        ensures
            r is Ok <==> forall|j: int| 0 <= j < self.slots().len() ==> slot_settles(#[trigger] self.slots()[j]),
            r is Ok ==> {
                let t = r->Ok_0;
                &&& t.gathered@.len() == self.slots().len()
                &&& forall|j: int| 0 <= j < self.slots().len() ==> slot_gathers(#[trigger] self.slots()[j], t.gathered@[j])
                &&& t.failures == self.failures()
                &&& t.records_with_id as nat == self.ids().len()
                &&& is_max_repeat(self.ids(), t.max_id_count as nat)
            },
            r is Err ==> exists|j: int| 0 <= j < self.slots().len()
                && (forall|i: int| 0 <= i < j ==> slot_settles(#[trigger] self.slots()[i]))
                && !slot_settles(self.slots()[j]) && slot_oversized(self.slots()[j], r->Err_0),
    {
        let (records_with_id, max_id_count) = self.ids.summary();
        let failures = self.failures;
        let ghost all = self.slots@;
        let mut rest = self.slots;
        let n = rest.len();
        let mut gathered: Vec<Gathered<T>> = Vec::new();
        let mut j: usize = 0;
        while rest.len() > 0
            invariant
                all == self.slots(),
                all.len() == n,
                0 <= j <= all.len(),
                rest@ == all.subrange(j as int, all.len() as int),
                gathered@.len() == j,
                forall|x: int| 0 <= x < all.len() ==> slot_wf(#[trigger] all[x]),
                forall|x: int| 0 <= x < j ==> slot_settles(#[trigger] all[x]),
                forall|x: int| 0 <= x < j ==> slot_gathers(#[trigger] all[x], gathered@[x]),
            decreases rest@.len(),
        {
            let slot = rest.remove(0);
            proof {
                assert(slot == all[j as int]);
            }
            match slot.finish() {
                Ok(g) => {
                    gathered.push(g);
                },
                Err(e) => {
                    return Err(e);
                },
            }
            proof {
                assert(rest@ =~= all.subrange(j + 1, all.len() as int));
            }
            j = j + 1;
        }
        proof {
            assert(j == all.len());
        }
        Ok(ScanTotals { gathered, failures, records_with_id, max_id_count })
    }
}

/// `g` holds the slot's outcomes in clusters (see `clusters_of`).
pub open spec fn slot_clusters<T>(s: MetricSlot<T>, g: Gathered<T>) -> bool {
    match s {
        MetricSlot::Outcomes { collector, .. } => g matches Gathered::Clusters(v)
            && clusters_view(v@) == clusters_of(collector.counts(), collector.pending()),
        MetricSlot::Values { .. } => false,
    }
}

/// Checks the flags that `--cluster-by-id` excludes: pairing by id first,
/// then a multiple-comparison correction.
pub fn check_cluster_flags(paired_by_id: bool, correction: Correction) -> (r: Result<(), VeridictError>)
    ensures
        paired_by_id ==> r matches Err(VeridictError::ClusterByIdConflictsWithPairedById),
        !paired_by_id && correction != Correction::Unadjusted ==> r matches Err(VeridictError::CorrectionConflictsWithClusterById),
        !paired_by_id && correction == Correction::Unadjusted ==> r is Ok,
{
    if paired_by_id {
        Err(VeridictError::ClusterByIdConflictsWithPairedById)
    } else if correction != Correction::Unadjusted {
        Err(VeridictError::CorrectionConflictsWithClusterById)
    } else {
        Ok(())
    }
}

impl<T: Copy> RecordScan<T> {
    /// A scan that keeps the records of each id together as one cluster, for
    /// `metrics` that count win/loss/draw outcomes; the first other metric
    /// is refused. Ids are still counted for the repetition check.
    pub fn new_clustered(metrics: &[(MetricKind, FailurePolicy)]) -> (r: Result<RecordScan<T>, VeridictError>)
        ensures
            r is Ok <==> forall|j: int| 0 <= j < metrics@.len() ==> counts_outcomes(#[trigger] metrics@[j].0),
            r is Err ==> exists|j: int| 0 <= j < metrics@.len()
                && (forall|i: int| 0 <= i < j ==> counts_outcomes(#[trigger] metrics@[i].0))
                && !counts_outcomes(metrics@[j].0)
                && (r->Err_0 matches VeridictError::IncompatibleClusterById { metric } && metric@ == label_of(metrics@[j].0)),
            r is Ok ==> {
                let s = r->Ok_0;
                &&& s.wf()
                &&& s.is_clustered()
                &&& !s.paired()
                &&& s.ingested() == 0
                &&& s.ids().len() == 0
                &&& s.failures().baseline == (FailureCounts { timeout: 0, crash: 0, invalid: 0 })
                &&& s.failures().candidate == (FailureCounts { timeout: 0, crash: 0, invalid: 0 })
                &&& s.slots().len() == metrics@.len()
                &&& forall|j: int| 0 <= j < metrics@.len() ==> (#[trigger] s.slots()[j] matches MetricSlot::Outcomes { metric: m, policy: p, collector: c }
                    && m == metrics@[j].0 && p == metrics@[j].1 && c.paired() && c.counts() == (0nat, 0nat, 0nat) && c.pending().len() == 0)
            },
    {
        let mut slots: Vec<MetricSlot<T>> = Vec::new();
        let mut j: usize = 0;
        while j < metrics.len()
            invariant
                0 <= j <= metrics@.len(),
                slots@.len() == j,
                forall|x: int| 0 <= x < j ==> counts_outcomes(#[trigger] metrics@[x].0),
                forall|x: int| 0 <= x < j ==> slot_wf(#[trigger] slots@[x]) && slot_seen(slots@[x]) == 0,
                forall|x: int| 0 <= x < j ==> (#[trigger] slots@[x] matches MetricSlot::Outcomes { metric: m, policy: p, collector: c }
                    && m == metrics@[x].0 && p == metrics@[x].1 && c.paired() && c.counts() == (0nat, 0nat, 0nat) && c.pending().len() == 0),
            decreases metrics@.len() - j,
        {
            let (metric, policy) = metrics[j];
            if metric != MetricKind::WinRate && metric != MetricKind::Elo {
                return Err(VeridictError::IncompatibleClusterById { metric: metric_label(metric) });
            }
            let slot = MetricSlot::Outcomes { metric, policy, collector: OutcomeCollector::new(true) };
            proof {
                assert(entry_count(slot->Outcomes_collector.pending()) == 0);
            }
            slots.push(slot);
            j = j + 1;
        }
        Ok(RecordScan { paired_by_id: false, clustered: true, ingested: 0, failures: FailureBreakdown::new(), ids: IdTally::new(), slots })
    }

    /// Hands back each metric's outcomes in clusters, with the shared
    /// tallies; nothing is netted, so no id can be over-full.
    pub fn finish_clusters(self) -> (r: ScanTotals<T>)
        requires
            self.wf(),
            self.is_clustered(),
        ensures
            r.gathered@.len() == self.slots().len(),
            forall|j: int| 0 <= j < self.slots().len() ==> slot_clusters(#[trigger] self.slots()[j], r.gathered@[j]),
            r.failures == self.failures(),
            r.records_with_id as nat == self.ids().len(),
            is_max_repeat(self.ids(), r.max_id_count as nat),
    {
        let (records_with_id, max_id_count) = self.ids.summary();
        let failures = self.failures;
        let ghost all = self.slots@;
        let mut rest = self.slots;
        let n = rest.len();
        let mut gathered: Vec<Gathered<T>> = Vec::new();
        let mut j: usize = 0;
        while rest.len() > 0
            invariant
                all == self.slots(),
                all.len() == n,
                0 <= j <= all.len(),
                rest@ == all.subrange(j as int, all.len() as int),
                gathered@.len() == j,
                forall|x: int| 0 <= x < all.len() ==> slot_wf(#[trigger] all[x]) && all[x] is Outcomes,
                forall|x: int| 0 <= x < j ==> slot_clusters(#[trigger] all[x], gathered@[x]),
            decreases rest@.len(),
        {
            let slot = rest.remove(0);
            proof {
                assert(slot == all[j as int]);
            }
            match slot {
                MetricSlot::Outcomes { collector, .. } => {
                    gathered.push(Gathered::Clusters(collector.finish_clusters()));
                },
                MetricSlot::Values { .. } => {
                    proof {
                        assert(all[j as int] is Outcomes);
                    }
                },
            }
            proof {
                assert(rest@ =~= all.subrange(j + 1, all.len() as int));
            }
            j = j + 1;
        }
        ScanTotals { gathered, failures, records_with_id, max_id_count }
    }
}

/// Under `loss` a failed side loses its trial, whatever the record's
/// `result` says and even when that text names no outcome: a failed
/// baseline beside a candidate that did not fail is a candidate win, a
/// failed candidate beside a baseline that did not fail is a baseline win,
/// and two failed sides are a draw.
pub proof fn law_loss_failed_side_loses(bs: Option<TrialStatus>, cs: Option<TrialStatus>, result: Option<Seq<char>>)
    ensures
        is_failure(bs) && !is_failure(cs) ==> effective_outcome_spec(FailurePolicy::Loss, bs, cs, result)
            == Some(Some(Outcome::CandidateWin)),
        !is_failure(bs) && is_failure(cs) ==> effective_outcome_spec(FailurePolicy::Loss, bs, cs, result)
            == Some(Some(Outcome::BaselineWin)),
        is_failure(bs) && is_failure(cs) ==> effective_outcome_spec(FailurePolicy::Loss, bs, cs, result)
            == Some(Some(Outcome::Draw)),
{
}

/// A record that carries a status field counts as used: no metric refuses
/// it for lacking the fields it reads (a numeric metric for lacking
/// numbers, a win/loss/draw metric for lacking a result); only a record with
/// neither a status nor anything the metric reads is refused.
pub proof fn law_status_only_records_are_used<T: Copy>(
    s: MetricSlot<T>,
    rec: RecordFields,
    bs: Option<TrialStatus>,
    cs: Option<TrialStatus>,
)
    ensures
        s is Values && (bs is Some || cs is Some) ==> !slot_fails(s, rec, bs, cs, None),
        s is Values && bs is None && cs is None ==> slot_fails(s, rec, bs, cs, None),
        s is Outcomes && rec.result is None && (bs is Some || cs is Some) ==> !slot_fails(s, rec, bs, cs, None),
        s is Outcomes && rec.result is None && bs is None && cs is None ==> slot_fails(s, rec, bs, cs, None),
{
}

/// Under `loss`, a failed candidate never wins its trial whatever its
/// `result` says; under `exclude`, a trial with a failed side contributes
/// nothing; under `report-only`, statuses never change what `result`
/// contributes.
pub proof fn law_failure_policies(
    bs: Option<TrialStatus>,
    cs: Option<TrialStatus>,
    result: Option<Seq<char>>,
)
    ensures
        is_failure(cs) ==> (effective_outcome_spec(FailurePolicy::Loss, bs, cs, result) == Some(Some(Outcome::BaselineWin))
            || effective_outcome_spec(FailurePolicy::Loss, bs, cs, result) == Some(Some(Outcome::Draw))),
        is_failure(bs) && is_failure(cs) ==> effective_outcome_spec(FailurePolicy::Loss, bs, cs, result) == Some(Some(Outcome::Draw)),
        is_failure(bs) || is_failure(cs) ==> effective_outcome_spec(FailurePolicy::Exclude, bs, cs, result) == Some(None::<Outcome>),
        effective_outcome_spec(FailurePolicy::ReportOnly, bs, cs, result) == effective_outcome_spec(FailurePolicy::ReportOnly, None, None, result),
        !is_failure(bs) && !is_failure(cs) ==> effective_outcome_spec(FailurePolicy::Loss, bs, cs, result) == parsed_result(result)
            && effective_outcome_spec(FailurePolicy::Exclude, bs, cs, result) == parsed_result(result),
{
}

/// The largest number of records sharing one id never exceeds the number
/// of id-tagged records.
pub proof fn law_max_repeat_bounded(ids: Seq<Seq<char>>, m: nat)
    requires
        is_max_repeat(ids, m),
    ensures
        m <= ids.len(),
{
    if ids.len() > 0 {
        let k = choose|k: int| 0 <= k < ids.len() && occurrences(ids, #[trigger] ids[k]) == m;
        lemma_occurrences_bounded(ids, ids[k]);
    }
}

/// The detail of the error for a pilot record without both numbers.
pub open spec fn pilot_missing_detail() -> Seq<char> {
    "record has no baseline/candidate numeric fields"@
}

/// Reads one record of a pilot sample for a power estimate: its reading
/// joins `collector` (see `ValueCollector::record`); a record without both
/// numbers, or with a non-finite one, is an error.
pub fn pilot_record<T: Copy>(
    collector: &mut ValueCollector<T>,
    line: usize,
    id: Option<&str>,
    reading: Option<Reading<T>>,
) -> (r: Result<(), VeridictError>)
    requires
        old(collector).wf(),
    ensures
        final(collector).wf(),
        final(collector).paired() == old(collector).paired(),
        reading is None ==> r is Err && is_schema_mismatch(r->Err_0, line, "power --pilot"@, pilot_missing_detail()),
        reading matches Some(Reading::NonFinite(f)) ==> r matches Err(VeridictError::NonFiniteValue { line: l, field }) && l == line && field == f,
        reading matches Some(Reading::Value(v)) ==> {
            &&& (r is Err <==> !old(collector).paired() && id is Some && seen_before(old(collector).seen(), id->0@))
            &&& (r is Err ==> r->Err_0 is DuplicateId && r->Err_0->DuplicateId_id@ == id->0@ && r->Err_0->DuplicateId_line == line)
            &&& (r is Ok ==> match (old(collector).paired(), id) {
                (true, Some(i)) => final(collector).pending() == filed(old(collector).pending(), i@, line, v)
                    && final(collector).values() == old(collector).values() && final(collector).seen() == old(collector).seen(),
                (false, Some(i)) => final(collector).values() == old(collector).values().push(v)
                    && final(collector).seen() == old(collector).seen().push(i@) && final(collector).pending() == old(collector).pending(),
                (_, None) => final(collector).values() == old(collector).values().push(v)
                    && final(collector).seen() == old(collector).seen() && final(collector).pending() == old(collector).pending(),
            })
        },
{
    match reading {
        Some(Reading::Value(v)) => collector.record(line, id, v),
        Some(Reading::NonFinite(field)) => Err(VeridictError::NonFiniteValue { line, field }),
        None => Err(
            VeridictError::SchemaMismatch {
                line,
                context: "power --pilot",
                detail: String::from_str("record has no baseline/candidate numeric fields"),
            },
        ),
    }
}

} // verus!
