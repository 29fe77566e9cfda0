//! Combining per-metric verdicts into one overall verdict, and the hard
//! failure caps that can invalidate a run whatever its effect size says.

use vstd::prelude::*;

use crate::text::{decimal, decimal_string};
use crate::{Promotion, Validity, Verdict};

verus! {

/// How bad a verdict is: `Fail` over `Inconclusive` over `Pass`.
pub open spec fn severity(v: Verdict) -> int {
    match v {
        Verdict::Pass => 0,
        Verdict::Inconclusive => 1,
        Verdict::Fail => 2,
    }
}

/// The more severe of two verdicts.
pub open spec fn worse(a: Verdict, b: Verdict) -> Verdict {
    if severity(a) >= severity(b) { a } else { b }
}

/// The overall verdict of a family: `Fail` if any member fails, else
/// `Inconclusive` if any member is inconclusive, else `Pass`.
pub open spec fn spec_aggregate(vs: Seq<Verdict>) -> Verdict {
    if exists|i: int| 0 <= i < vs.len() && vs[i] == Verdict::Fail {
        Verdict::Fail
    } else if exists|i: int| 0 <= i < vs.len() && vs[i] == Verdict::Inconclusive {
        Verdict::Inconclusive
    } else {
        Verdict::Pass
    }
}

/// Combines several metrics' verdicts into one: any `Fail` sinks the whole
/// run, else any `Inconclusive` holds it back, else `Pass` (an empty family
/// is `Pass`).
pub fn aggregate(verdicts: &[Verdict]) -> (r: Verdict)
    ensures
        r == spec_aggregate(verdicts@),
{
    let mut worst = Verdict::Pass;
    let mut i: usize = 0;
    while i < verdicts.len()
        invariant
            0 <= i <= verdicts.len(),
            forall|k: int| 0 <= k < i ==> verdicts@[k] != Verdict::Fail,
            worst == Verdict::Inconclusive <==> exists|k: int| 0 <= k < i && verdicts@[k] == Verdict::Inconclusive,
            worst != Verdict::Fail,
        decreases verdicts.len() - i,
    {
        match verdicts[i] {
            Verdict::Fail => {
                return Verdict::Fail;
            },
            Verdict::Inconclusive => {
                worst = Verdict::Inconclusive;
            },
            Verdict::Pass => {},
        }
        i = i + 1;
    }
    worst
}

/// Hard caps on the failure counts of a run (baseline and candidate
/// together); `None` leaves a count uncapped.
#[derive(Debug, Clone, Copy, PartialEq, Eq, Structural)]
pub struct FailureCaps {
    pub max_timeouts: Option<u64>,
    pub max_crashes: Option<u64>,
    pub max_invalid: Option<u64>,
}

impl FailureCaps {
    /// No caps at all.
    pub fn uncapped() -> (r: FailureCaps)
        ensures
            r.max_timeouts is None && r.max_crashes is None && r.max_invalid is None,
    {
        FailureCaps { max_timeouts: None, max_crashes: None, max_invalid: None }
    }
}

/// `count` exceeds `cap` (a cap is a tolerance: reaching it is fine).
pub open spec fn breached(count: u64, cap: Option<u64>) -> bool {
    match cap {
        Some(max) => count > max,
        None => false,
    }
}

/// Some cap of `caps` is exceeded.
pub open spec fn any_breach(timeouts: u64, crashes: u64, invalid: u64, caps: FailureCaps) -> bool {
    breached(timeouts, caps.max_timeouts) || breached(crashes, caps.max_crashes) || breached(invalid, caps.max_invalid)
}

/// One exceeded cap, in words: `<count> <noun> exceeds <flag> <cap>`.
pub open spec fn breach_note(count: u64, cap: u64, noun: Seq<char>, flag: Seq<char>) -> Seq<char> {
    decimal(count as nat) + " "@ + noun + " exceeds "@ + flag + " "@ + decimal(cap as nat)
}

/// The notes for each exceeded cap: timeouts, then crashes, then invalid
/// results.
pub open spec fn breach_notes(timeouts: u64, crashes: u64, invalid: u64, caps: FailureCaps) -> Seq<Seq<char>> {
    (if breached(timeouts, caps.max_timeouts) {
        seq![breach_note(timeouts, caps.max_timeouts->0, "timeout(s)"@, "--max-timeouts"@)]
    } else {
        Seq::empty()
    }) + (if breached(crashes, caps.max_crashes) {
        seq![breach_note(crashes, caps.max_crashes->0, "crash(es)"@, "--max-crashes"@)]
    } else {
        Seq::empty()
    }) + (if breached(invalid, caps.max_invalid) {
        seq![breach_note(invalid, caps.max_invalid->0, "invalid result(s)"@, "--max-invalid"@)]
    } else {
        Seq::empty()
    })
}

/// `parts` joined with `"; "` between them.
pub open spec fn joined(parts: Seq<Seq<char>>) -> Seq<char>
    decreases parts.len(),
{
    if parts.len() == 0 {
        Seq::empty()
    } else if parts.len() == 1 {
        parts[0]
    } else {
        joined(parts.drop_last()) + "; "@ + parts[parts.len() - 1]
    }
}

fn breach_message(count: u64, cap: u64, noun: &str, flag: &str) -> (s: String)
    ensures
        s@ == breach_note(count, cap, noun@, flag@),
{
    let s = decimal_string(count);
    let s = s.concat(" ");
    let s = s.concat(noun);
    let s = s.concat(" exceeds ");
    let s = s.concat(flag);
    let s = s.concat(" ");
    let digits = decimal_string(cap);
    s.concat(digits.as_str())
}

/// Appends `part` to `text`, after `"; "` unless `text` holds no part yet.
fn join_part(text: String, first: bool, part: String) -> (s: String)
    ensures
        s@ == (if first { part@ } else { text@ + "; "@ + part@ }),
{
    if first {
        part
    } else {
        let s = text.concat("; ");
        s.concat(part.as_str())
    }
}

impl FailureCaps {
    /// Checks the counts against the caps: `Invalid`, with the exceeded caps
    /// in words, when any cap is exceeded; `Valid` and no reason otherwise.
    pub fn check(&self, timeouts: u64, crashes: u64, invalid: u64) -> (r: (Validity, Option<String>))
        ensures
            (r.0 == Validity::Invalid) == any_breach(timeouts, crashes, invalid, *self),
            r.1 is Some == any_breach(timeouts, crashes, invalid, *self),
            r.1 is Some ==> r.1->0@ == joined(breach_notes(timeouts, crashes, invalid, *self)),
    {
        proof {
            reveal_strlit("timeout(s)");
            reveal_strlit("--max-timeouts");
            reveal_strlit("crash(es)");
            reveal_strlit("--max-crashes");
            reveal_strlit("invalid result(s)");
            reveal_strlit("--max-invalid");
        }
        let ghost notes = breach_notes(timeouts, crashes, invalid, *self);
        let ghost mut parts: Seq<Seq<char>> = Seq::empty();
        let mut text = String::new();
        let mut any = false;
        if let Some(max) = self.max_timeouts {
            if timeouts > max {
                let part = breach_message(timeouts, max, "timeout(s)", "--max-timeouts");
                text = join_part(text, !any, part);
                any = true;
                proof {
                    parts = parts.push(breach_note(timeouts, max, "timeout(s)"@, "--max-timeouts"@));
                }
            }
        }
        proof {
            assert(any == (parts.len() > 0));
            if any {
                assert(parts.drop_last() =~= Seq::<Seq<char>>::empty());
            }
            assert(any ==> text@ == joined(parts));
        }
        if let Some(max) = self.max_crashes {
            if crashes > max {
                let part = breach_message(crashes, max, "crash(es)", "--max-crashes");
                let ghost old_parts = parts;
                text = join_part(text, !any, part);
                proof {
                    parts = parts.push(breach_note(crashes, max, "crash(es)"@, "--max-crashes"@));
                    assert(parts.drop_last() =~= old_parts);
                    if !any {
                        assert(old_parts.len() == 0);
                    }
                }
                any = true;
            }
        }
        proof {
            assert(any == (parts.len() > 0));
            assert(any ==> text@ == joined(parts));
        }
        if let Some(max) = self.max_invalid {
            if invalid > max {
                let part = breach_message(invalid, max, "invalid result(s)", "--max-invalid");
                let ghost old_parts = parts;
                text = join_part(text, !any, part);
                proof {
                    parts = parts.push(breach_note(invalid, max, "invalid result(s)"@, "--max-invalid"@));
                    assert(parts.drop_last() =~= old_parts);
                    if !any {
                        assert(old_parts.len() == 0);
                    }
                }
                any = true;
            }
        }
        proof {
            assert(parts =~= notes);
        }
        if any {
            (Validity::Invalid, Some(text))
        } else {
            (Validity::Valid, None)
        }
    }
}

/// The decision part of a report: what caps and aggregation act on.
#[derive(Debug)]
pub struct ReportVerdict {
    pub verdict: Verdict,
    pub validity: Validity,
    pub promotion: Promotion,
    pub reason: String,
    pub estimated_additional_trials: Option<u64>,
    pub timeouts: u64,
    pub crashes: u64,
    pub invalid: u64,
}

/// `Promoted` exactly for valid, passing data.
pub open spec fn promotion_of(validity: Validity, verdict: Verdict) -> Promotion {
    if validity == Validity::Valid && verdict == Verdict::Pass {
        Promotion::Promoted
    } else {
        Promotion::NotPromoted
    }
}

/// The reason an invalidated report gives.
pub open spec fn invalid_reason(notes: Seq<Seq<char>>) -> Seq<char> {
    "INVALID: "@ + joined(notes) + ". Strength not evaluated."@
}

/// `after` is `before` with `caps` applied.
pub open spec fn capped(before: ReportVerdict, after: ReportVerdict, caps: FailureCaps) -> bool {
    let breach = any_breach(before.timeouts, before.crashes, before.invalid, caps);
    &&& after.timeouts == before.timeouts
    &&& after.crashes == before.crashes
    &&& after.invalid == before.invalid
    &&& after.validity == (if breach { Validity::Invalid } else { Validity::Valid })
    &&& after.verdict == (if breach { Verdict::Inconclusive } else { before.verdict })
    &&& after.estimated_additional_trials == (if breach { None } else { before.estimated_additional_trials })
    &&& after.reason@ == (if breach {
        invalid_reason(breach_notes(before.timeouts, before.crashes, before.invalid, caps))
    } else {
        before.reason@
    })
    &&& after.promotion == promotion_of(after.validity, after.verdict)
}

/// Applies `caps` to a finished report: an exceeded cap makes the data
/// `Invalid`, forces the verdict to `Inconclusive` (a run invalidated by
/// failures never surfaces as a clean pass or fail), states why in the
/// reason, and drops the estimate of further trials (more trials cannot
/// fix failing ones). Validity and promotion are always set.
pub fn apply_failure_caps(report: &mut ReportVerdict, caps: &FailureCaps)
    ensures
        capped(*old(report), *final(report), *caps),
{
    let (validity, reason) = caps.check(report.timeouts, report.crashes, report.invalid);
    report.validity = validity;
    if validity == Validity::Invalid {
        report.verdict = Verdict::Inconclusive;
        report.estimated_additional_trials = None;
        if let Some(reason) = reason {
            let text = String::from_str("INVALID: ");
            let text = text.concat(reason.as_str());
            report.reason = text.concat(". Strength not evaluated.");
        }
    }
    report.promotion = Promotion::decide(report.validity, report.verdict);
}

/// A multi-metric run's decision: the overall verdict, validity and
/// promotion, and each metric's own.
#[derive(Debug)]
pub struct MultiVerdict {
    pub verdict: Verdict,
    pub validity: Validity,
    pub promotion: Promotion,
    pub reports: Vec<ReportVerdict>,
}

/// Some report of `rs` is invalid.
pub open spec fn any_invalid(rs: Seq<ReportVerdict>) -> bool {
    exists|i: int| 0 <= i < rs.len() && rs[i].validity == Validity::Invalid
}

/// The verdicts of `rs`, in order.
pub open spec fn verdicts_of(rs: Seq<ReportVerdict>) -> Seq<Verdict> {
    Seq::new(rs.len(), |i: int| rs[i].verdict)
}

/// Applies `caps` to every report, then recomputes the overall verdict
/// (a report forced to `Inconclusive` holds the whole run back), validity
/// (`Invalid` if any report is) and promotion.
pub fn apply_failure_caps_to_multi(multi: &mut MultiVerdict, caps: &FailureCaps)
    ensures
        final(multi).reports@.len() == old(multi).reports@.len(),
        forall|i: int| 0 <= i < old(multi).reports@.len() ==> capped(old(multi).reports@[i], #[trigger] final(multi).reports@[i], *caps),
        final(multi).verdict == spec_aggregate(verdicts_of(final(multi).reports@)),
        final(multi).validity == (if any_invalid(final(multi).reports@) { Validity::Invalid } else { Validity::Valid }),
        final(multi).promotion == promotion_of(final(multi).validity, final(multi).verdict),
{
    let ghost start = multi.reports@;
    let mut i: usize = 0;
    while i < multi.reports.len()
        invariant
            0 <= i <= multi.reports@.len(),
            multi.reports@.len() == start.len(),
            start == old(multi).reports@,
            forall|k: int| 0 <= k < i ==> capped(start[k], #[trigger] multi.reports@[k], *caps),
            forall|k: int| i <= k < start.len() ==> #[trigger] multi.reports@[k] == start[k],
        decreases start.len() - i,
    {
        let ghost before = multi.reports@;
        apply_failure_caps(&mut multi.reports[i], caps);
        proof {
            assert forall|k: int| 0 <= k < i + 1 implies capped(start[k], #[trigger] multi.reports@[k], *caps) by {
                if k < i {
                    assert(multi.reports@[k] == before[k]);
                }
            }
            assert forall|k: int| i + 1 <= k < start.len() implies #[trigger] multi.reports@[k] == start[k] by {
                assert(multi.reports@[k] == before[k]);
            }
        }
        i = i + 1;
    }
    let mut verdicts: Vec<Verdict> = Vec::new();
    let mut invalid = false;
    let mut k: usize = 0;
    while k < multi.reports.len()
        invariant
            0 <= k <= multi.reports@.len(),
            verdicts@ == verdicts_of(multi.reports@.subrange(0, k as int)),
            invalid == exists|x: int| 0 <= x < k && multi.reports@[x].validity == Validity::Invalid,
        decreases multi.reports@.len() - k,
    {
        verdicts.push(multi.reports[k].verdict);
        if multi.reports[k].validity == Validity::Invalid {
            invalid = true;
        }
        proof {
            assert(verdicts@ =~= verdicts_of(multi.reports@.subrange(0, k + 1)));
        }
        k = k + 1;
    }
    proof {
        assert(multi.reports@.subrange(0, multi.reports@.len() as int) =~= multi.reports@);
    }
    multi.verdict = aggregate(verdicts.as_slice());
    multi.validity = if invalid { Validity::Invalid } else { Validity::Valid };
    multi.promotion = Promotion::decide(multi.validity, multi.verdict);
}

/// The verdict of a family made of two parts is the worse of the parts'
/// verdicts, so the order in which metrics are combined never matters.
pub proof fn law_aggregate_of_concatenation(a: Seq<Verdict>, b: Seq<Verdict>)
    ensures
        spec_aggregate(a + b) == worse(spec_aggregate(a), spec_aggregate(b)),
{
    let ab = a + b;
    if exists|i: int| 0 <= i < a.len() && a[i] == Verdict::Fail {
        let i = choose|i: int| 0 <= i < a.len() && a[i] == Verdict::Fail;
        assert(ab[i] == Verdict::Fail);
    }
    if exists|i: int| 0 <= i < b.len() && b[i] == Verdict::Fail {
        let i = choose|i: int| 0 <= i < b.len() && b[i] == Verdict::Fail;
        assert(ab[a.len() + i] == Verdict::Fail);
    }
    if exists|i: int| 0 <= i < a.len() && a[i] == Verdict::Inconclusive {
        let i = choose|i: int| 0 <= i < a.len() && a[i] == Verdict::Inconclusive;
        assert(ab[i] == Verdict::Inconclusive);
    }
    if exists|i: int| 0 <= i < b.len() && b[i] == Verdict::Inconclusive {
        let i = choose|i: int| 0 <= i < b.len() && b[i] == Verdict::Inconclusive;
        assert(ab[a.len() + i] == Verdict::Inconclusive);
    }
    if exists|i: int| 0 <= i < ab.len() && ab[i] == Verdict::Fail {
        let i = choose|i: int| 0 <= i < ab.len() && ab[i] == Verdict::Fail;
        if i < a.len() {
            assert(a[i] == Verdict::Fail);
        } else {
            assert(b[i - a.len()] == Verdict::Fail);
        }
    }
    if exists|i: int| 0 <= i < ab.len() && ab[i] == Verdict::Inconclusive {
        let i = choose|i: int| 0 <= i < ab.len() && ab[i] == Verdict::Inconclusive;
        if i < a.len() {
            assert(a[i] == Verdict::Inconclusive);
        } else {
            assert(b[i - a.len()] == Verdict::Inconclusive);
        }
    }
}

/// Adding a metric to a family can only make its verdict worse or leave
/// it as it was; an empty family passes.
pub proof fn law_aggregate_never_improves(vs: Seq<Verdict>, v: Verdict)
    ensures
        severity(spec_aggregate(vs.push(v))) >= severity(spec_aggregate(vs)),
        severity(spec_aggregate(vs.push(v))) >= severity(v),
        spec_aggregate(Seq::<Verdict>::empty()) == Verdict::Pass,
{
    law_aggregate_of_concatenation(vs, seq![v]);
    assert(vs + seq![v] =~= vs.push(v));
    if v == Verdict::Fail {
        assert(seq![v][0] == Verdict::Fail);
    }
    if v == Verdict::Inconclusive {
        assert(seq![v][0] == Verdict::Inconclusive);
    }
}

/// After the caps, a promoted report is always valid and passing; an
/// exceeded cap always leaves the report invalid, inconclusive and not
/// promoted; a count exactly at its cap leaves the report as valid as the
/// other counts allow; and the caps never turn a report into a pass.
pub proof fn law_caps_guard_promotion(before: ReportVerdict, after: ReportVerdict, caps: FailureCaps)
    requires
        capped(before, after, caps),
    ensures
        after.promotion == Promotion::Promoted ==> after.validity == Validity::Valid && after.verdict == Verdict::Pass,
        any_breach(before.timeouts, before.crashes, before.invalid, caps) ==> after.validity == Validity::Invalid
            && after.verdict == Verdict::Inconclusive && after.promotion == Promotion::NotPromoted,
        caps.max_crashes == Some(before.crashes) && !breached(before.timeouts, caps.max_timeouts)
            && !breached(before.invalid, caps.max_invalid) ==> after.validity == Validity::Valid,
        after.verdict == Verdict::Pass ==> before.verdict == Verdict::Pass,
{
}

/// Applying the same caps twice is the same as applying them once.
pub proof fn law_caps_are_idempotent(r0: ReportVerdict, r1: ReportVerdict, r2: ReportVerdict, caps: FailureCaps)
    requires
        capped(r0, r1, caps),
        capped(r1, r2, caps),
    ensures
        r2.verdict == r1.verdict,
        r2.validity == r1.validity,
        r2.promotion == r1.promotion,
        r2.estimated_additional_trials == r1.estimated_additional_trials,
        r2.reason@ == r1.reason@,
{
}

} // verus!
