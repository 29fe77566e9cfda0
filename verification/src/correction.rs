//! Multiple-comparison correction of a metric family: which correction is
//! applied, and Holm's sequential rule, under which a test is only
//! confirmed while every lower-ranked test was confirmed too.

use vstd::prelude::*;

use crate::verdict::severity;
use crate::Verdict;

verus! {

/// Which correction a multi-metric run applies to its family.
#[derive(Debug, Clone, Copy, PartialEq, Eq, Structural)]
pub enum Correction {
    /// No correction (`--correction none`).
    Unadjusted,
    Bonferroni,
    Holm,
}

impl Correction {
    /// The `--correction` spelling.
    pub fn label(self) -> (r: &'static str)
        ensures
            r@ == (match self {
                Correction::Unadjusted => "none"@,
                Correction::Bonferroni => "bonferroni"@,
                Correction::Holm => "holm"@,
            }),
    {
        match self {
            Correction::Unadjusted => "none",
            Correction::Bonferroni => "bonferroni",
            Correction::Holm => "holm",
        }
    }

    /// The label at the start of a sentence.
    pub fn title_label(self) -> (r: &'static str)
        ensures
            r@ == (match self {
                Correction::Unadjusted => "None"@,
                Correction::Bonferroni => "Bonferroni"@,
                Correction::Holm => "Holm"@,
            }),
    {
        match self {
            Correction::Unadjusted => "None",
            Correction::Bonferroni => "Bonferroni",
            Correction::Holm => "Holm",
        }
    }
}

/// Rank `k` is confirmed: it and every rank before it clear their
/// thresholds.
pub open spec fn confirmed(clears: Seq<bool>, k: int) -> bool {
    forall|j: int| 0 <= j <= k ==> clears[j]
}

/// Under Holm's rule the confirmed ranks form a prefix: a confirmed rank's
/// predecessors are all confirmed, and after the first rank that fails
/// its threshold nothing is confirmed.
pub proof fn law_holm_confirms_a_prefix(clears: Seq<bool>, j: int, k: int)
    requires
        0 <= j <= k < clears.len(),
    ensures
        confirmed(clears, k) ==> confirmed(clears, j),
        !clears[j] ==> !confirmed(clears, k),
{
}

/// Holm's step-down rule over tests ranked by significance, most
/// significant first: given whether each rank clears its own corrected
/// threshold, a rank is rejected (its pass confirmed) only when it and
/// every rank before it clear theirs; the first failure holds back every
/// later rank.
pub fn holm_step_down(clears: &[bool]) -> (r: Vec<bool>)
    ensures
        r@.len() == clears@.len(),
        forall|k: int| 0 <= k < clears@.len() ==> #[trigger] r@[k] == confirmed(clears@, k),
{
    let mut r: Vec<bool> = Vec::new();
    let mut still = true;
    let mut k: usize = 0;
    while k < clears.len()
        invariant
            0 <= k <= clears@.len(),
            r@.len() == k,
            still == (forall|j: int| 0 <= j < k ==> clears@[j]),
            forall|x: int| 0 <= x < k ==> #[trigger] r@[x] == (forall|j: int| 0 <= j <= x ==> clears@[j]),
        decreases clears@.len() - k,
    {
        still = still && clears[k];
        r.push(still);
        proof {
            assert(still == (forall|j: int| 0 <= j <= k ==> clears@[j])) by {
                if !still {
                    if !clears@[k as int] {
                    } else {
                        let j0 = choose|j: int| 0 <= j < k && !clears@[j];
                    }
                }
            }
        }
        k = k + 1;
    }
    r
}

/// The verdict a correction leaves: a pass whose significance was tested
/// and not confirmed becomes `Inconclusive`; every other verdict stands.
pub open spec fn spec_corrected(verdict: Verdict, confirmed: Option<bool>) -> Verdict {
    if verdict == Verdict::Pass && confirmed == Some(false) {
        Verdict::Inconclusive
    } else {
        verdict
    }
}

/// Applies a correction's outcome for one metric: `confirmed` is `None`
/// when the metric's significance was not tested (it did not pass, or its
/// interval has no closed form), else whether the corrected threshold
/// confirmed its pass.
pub fn corrected_verdict(verdict: Verdict, confirmed: Option<bool>) -> (r: Verdict)
    ensures
        r == spec_corrected(verdict, confirmed),
{
    match (verdict, confirmed) {
        (Verdict::Pass, Some(false)) => Verdict::Inconclusive,
        _ => verdict,
    }
}

/// A correction only ever holds a pass back: it never produces a `Fail`
/// that was not there, never turns anything into a `Pass`, and never makes
/// a verdict less severe.
pub proof fn law_correction_never_invents_a_fail(verdict: Verdict, confirmed: Option<bool>)
    ensures
        spec_corrected(verdict, confirmed) == Verdict::Fail <==> verdict == Verdict::Fail,
        spec_corrected(verdict, confirmed) == Verdict::Pass ==> verdict == Verdict::Pass,
        severity(spec_corrected(verdict, confirmed)) >= severity(verdict),
        confirmed != Some(false) ==> spec_corrected(verdict, confirmed) == verdict,
{
}

} // verus!
