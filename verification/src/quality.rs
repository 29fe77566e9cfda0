//! Advisory data-quality flags of a comparison run. They never change a
//! verdict; they tell a reader when the numbers rest on thin or suspect
//! data.

use vstd::prelude::*;

use crate::MetricKind;

verus! {

/// The counts a metric's result rests on.
#[derive(Debug, Clone, Copy)]
pub struct TrialCounts {
    pub paired_count: u64,
    pub baseline_count: u64,
    pub candidate_count: u64,
    pub timeouts: u64,
    pub crashes: u64,
    pub invalid: u64,
}

/// How often ids repeat among records read without pairing.
#[derive(Debug, Clone, Copy)]
pub struct IdRepetition {
    pub records_with_id: u64,
    pub max_id_count: u64,
}

/// Advisory data-quality flags of one metric's result.
#[derive(Debug, Clone, Copy, PartialEq, Eq, Structural)]
pub struct DataQuality {
    /// Fewer than 30 paired trials.
    pub tiny_sample: bool,
    /// More than a fifth of all trials failed to execute.
    pub high_failure_rate: bool,
    /// `elo` only: more than half of the paired trials were draws.
    pub draw_heavy: bool,
    /// Without pairing: some id repeats 3 or more times among 10 or more
    /// id-tagged records.
    pub low_id_diversity: bool,
    /// The effect is smaller than the confidence interval's half-width
    /// while the sample is not tiny.
    pub effect_within_noise_floor: bool,
    /// `quantile-diff` only: too few observations in the thinner tail for
    /// the measured quantile.
    pub thin_quantile_tail: bool,
}

/// Trials that failed to execute.
pub open spec fn failures_of(c: TrialCounts) -> int {
    c.timeouts + c.crashes + c.invalid
}

/// The draws implied by an `elo` result: paired trials that were neither
/// side's win.
pub open spec fn draws_of(c: TrialCounts) -> int {
    if c.paired_count >= c.baseline_count + c.candidate_count {
        c.paired_count - c.baseline_count - c.candidate_count
    } else {
        0
    }
}

/// The flags of a result, as the rules above state them; the two that rest
/// on the interval's width and the quantile's tail are given.
pub open spec fn flags_of(
    metric: MetricKind,
    c: TrialCounts,
    ids: IdRepetition,
    paired_by_id: bool,
    effect_within_noise_floor: bool,
    thin_quantile_tail: bool,
) -> DataQuality {
    DataQuality {
        tiny_sample: c.paired_count < 30,
        high_failure_rate: 5 * failures_of(c) > c.paired_count + failures_of(c),
        draw_heavy: metric == MetricKind::Elo && c.paired_count > 0 && 2 * draws_of(c) > c.paired_count,
        low_id_diversity: !paired_by_id && ids.records_with_id >= 10 && ids.max_id_count >= 3,
        effect_within_noise_floor,
        thin_quantile_tail,
    }
}

/// The data-quality flags of one metric's result: the count-based ones
/// computed here, the two interval-based ones as given.
pub fn collect_data_quality(
    metric: MetricKind,
    counts: TrialCounts,
    ids: IdRepetition,
    paired_by_id: bool,
    effect_within_noise_floor: bool,
    thin_quantile_tail: bool,
) -> (r: DataQuality)
    ensures
        r == flags_of(metric, counts, ids, paired_by_id, effect_within_noise_floor, thin_quantile_tail),
{
    let failures: u128 = counts.timeouts as u128 + counts.crashes as u128 + counts.invalid as u128;
    let total: u128 = counts.paired_count as u128 + failures;
    let decided: u128 = counts.baseline_count as u128 + counts.candidate_count as u128;
    let draws: u128 = if counts.paired_count as u128 >= decided {
        counts.paired_count as u128 - decided
    } else {
        0
    };
    DataQuality {
        tiny_sample: counts.paired_count < 30,
        high_failure_rate: 5 * failures > total,
        draw_heavy: metric == MetricKind::Elo && counts.paired_count > 0 && 2 * draws > counts.paired_count as u128,
        low_id_diversity: !paired_by_id && ids.records_with_id >= 10 && ids.max_id_count >= 3,
        effect_within_noise_floor,
        thin_quantile_tail,
    }
}

/// The failure rate counts every kind of failed trial: the flag is raised
/// exactly when timeouts, crashes and invalid results together make up more
/// than a fifth of all trials, so more invalid results alone can raise it
/// and never lower it.
pub proof fn law_high_failure_rate_counts_every_failure(
    metric: MetricKind,
    c: TrialCounts,
    more_invalid: u64,
    ids: IdRepetition,
    paired_by_id: bool,
    noise: bool,
    tail: bool,
)
    requires
        more_invalid >= c.invalid,
    ensures
        flags_of(metric, c, ids, paired_by_id, noise, tail).high_failure_rate
            <==> 5 * (c.timeouts + c.crashes + c.invalid) > c.paired_count + c.timeouts + c.crashes + c.invalid,
        flags_of(metric, c, ids, paired_by_id, noise, tail).high_failure_rate
            ==> flags_of(metric, TrialCounts { invalid: more_invalid, ..c }, ids, paired_by_id, noise, tail).high_failure_rate,
{
}

} // verus!
