//! Record tallying for the sequential probability ratio test: failure
//! statuses, decisive outcomes (optionally netted by id), and for the
//! paired-game variant the five-bucket breakdown of each pair's combined
//! score. The log-likelihood ratio itself is computed from these counts.

use vstd::prelude::*;

use crate::error::{is_schema_mismatch, is_unrecognized_outcome, is_unrecognized_status, VeridictError};
use crate::metrics::{
    bumped, effective_outcome, effective_outcome_spec, has_room, opt_text, outcome_choices, parsed_status, tally_status,
    FailureBreakdown, RecordFields,
};
use crate::pairing::{
    entry_count, filed, half_points, tallied, GroupsView, IdGroups, OutcomeCollector,
};
use crate::text::{decimal, decimal_string};
use crate::{outcome_named, status_named, FailurePolicy, Outcome, TrialStatus};

verus! {

/// Which SPRT is run: the two-outcome Wald test over decisive games, the
/// draw-aware trinomial test, or the paired-game pentanomial test.
#[derive(Debug, Clone, Copy, PartialEq, Eq, Structural)]
pub enum SprtVariant {
    Wald,
    Trinomial,
    Pentanomial,
}

impl SprtVariant {
    /// The `--sprt-variant` spelling.
    pub fn label(self) -> (r: &'static str)
        ensures
            r@ == (match self {
                SprtVariant::Wald => "wald"@,
                SprtVariant::Trinomial => "trinomial"@,
                SprtVariant::Pentanomial => "pentanomial"@,
            }),
    {
        match self {
            SprtVariant::Wald => "wald",
            SprtVariant::Trinomial => "trinomial",
            SprtVariant::Pentanomial => "pentanomial",
        }
    }
}

/// Pentanomial pairs by the candidate's combined score over the pair's two
/// games: 0, 0.5, 1, 1.5 or 2 points.
#[derive(Debug)]
pub struct PentanomialCounts {
    pub score_0_0: u64,
    pub score_0_5: u64,
    pub score_1_0: u64,
    pub score_1_5: u64,
    pub score_2_0: u64,
}

impl PentanomialCounts {
    /// Names the five buckets, lowest score first.
    pub fn from_buckets(buckets: [u64; 5]) -> (r: PentanomialCounts)
        ensures
            r.score_0_0 == buckets[0],
            r.score_0_5 == buckets[1],
            r.score_1_0 == buckets[2],
            r.score_1_5 == buckets[3],
            r.score_2_0 == buckets[4],
    {
        PentanomialCounts {
            score_0_0: buckets[0],
            score_0_5: buckets[1],
            score_1_0: buckets[2],
            score_1_5: buckets[3],
            score_2_0: buckets[4],
        }
    }
}

/// `(baseline_wins, candidate_wins, draws)` netted from the five buckets:
/// a pair below one point is a baseline win, above it a candidate win, at
/// exactly one point a draw.
pub fn net_pentanomial_buckets(buckets: &[u64; 5]) -> (r: (u64, u64, u64))
    requires
        buckets[0] + buckets[1] <= u64::MAX,
        buckets[3] + buckets[4] <= u64::MAX,
    ensures
        r.0 == buckets[0] + buckets[1],
        r.1 == buckets[3] + buckets[4],
        r.2 == buckets[2],
{
    let baseline_wins = buckets[0] + buckets[1];
    let draws = buckets[2];
    let candidate_wins = buckets[3] + buckets[4];
    (baseline_wins, candidate_wins, draws)
}

/// The bucket of a two-game pair: the candidate's half points over both.
pub open spec fn pair_bucket(entries: Seq<(usize, Outcome)>) -> nat {
    half_points(entries[0].1) + half_points(entries[1].1)
}

/// Number of groups of `m` that are pairs in bucket `b`.
pub open spec fn bucket_count(m: GroupsView<Outcome>, b: nat) -> nat
    decreases m.len(),
{
    if m.len() == 0 {
        0
    } else {
        bucket_count(m.drop_last(), b) + if m[m.len() - 1].1.len() == 2 && pair_bucket(
            m[m.len() - 1].1,
        ) == b {
            1nat
        } else {
            0nat
        }
    }
}

/// Error detail for an id seen only once in pentanomial mode.
pub open spec fn lone_detail(id: Seq<char>) -> Seq<char> {
    "id '"@ + id
        + "' appears once; --sprt-variant pentanomial requires exactly 2 records per id (a lone game can't cancel the pair's own bias)"@
}

/// Error detail for an id seen more than twice in pentanomial mode.
pub open spec fn crowd_detail(id: Seq<char>, count: nat) -> Seq<char> {
    "id '"@ + id + "' appears "@ + decimal(count) + " times; pentanomial mode expects exactly 2 records per id"@
}

/// `e` reports the first group of `m` that is not exactly a pair.
pub open spec fn reports_first_unpaired(m: GroupsView<Outcome>, e: VeridictError) -> bool {
    exists|i: int|
        0 <= i < m.len() && m[i].1.len() != 2 && (forall|j: int| 0 <= j < i ==> m[j].1.len() == 2)
            && is_schema_mismatch(
            e,
            m[i].1[0].0,
            "pentanomial"@,
            if m[i].1.len() == 1 {
                lone_detail(m[i].0)
            } else {
                crowd_detail(m[i].0, m[i].1.len())
            },
        )
}

fn lone_message(id: &str) -> (s: String)
    ensures
        s@ == lone_detail(id@),
{
    let s = String::from_str("id '");
    let s = s.concat(id);
    s.concat(
        "' appears once; --sprt-variant pentanomial requires exactly 2 records per id (a lone game can't cancel the pair's own bias)",
    )
}

fn crowd_message(id: &str, count: usize) -> (s: String)
    ensures
        s@ == crowd_detail(id@, count as nat),
{
    let s = String::from_str("id '");
    let s = s.concat(id);
    let s = s.concat("' appears ");
    let digits = decimal_string(count as u64);
    let s = s.concat(digits.as_str());
    s.concat(" times; pentanomial mode expects exactly 2 records per id")
}

/// Strict pairing for the pentanomial test: every id must resolve to
/// exactly two records.
pub struct PentanomialCollector {
    groups: IdGroups<Outcome>,
}

proof fn lemma_bucket_bounded(m: GroupsView<Outcome>, b: nat)
    ensures
        bucket_count(m, b) <= m.len(),
    decreases m.len(),
{
    if m.len() > 0 {
        lemma_bucket_bounded(m.drop_last(), b);
    }
}

impl PentanomialCollector {
    /// Records held, grouped by id.
    pub closed spec fn pending(&self) -> GroupsView<Outcome> {
        self.groups.view()
    }

    pub closed spec fn wf(&self) -> bool {
        &&& self.groups.wf()
        &&& entry_count(self.pending()) <= u64::MAX
    }

    pub fn new() -> (r: PentanomialCollector)
        ensures
            r.wf(),
            r.pending().len() == 0,
    {
        PentanomialCollector { groups: IdGroups::new() }
    }

    /// Holds `outcome` under `id`.
    pub fn record(&mut self, line: usize, id: &str, outcome: Outcome)
        requires
            old(self).wf(),
            entry_count(old(self).pending()) < u64::MAX,
        ensures
            final(self).wf(),
            final(self).pending() == filed(old(self).pending(), id@, line, outcome),
            entry_count(final(self).pending()) == entry_count(old(self).pending()) + 1,
    {
        self.groups.add(id, line, outcome);
    }

    /// `(bucket counts, records, pairs)`: bucket `b` counts the pairs whose
    /// candidate scored `b` half points. An id with one record, or more than
    /// two, is an error, reported for the first such id in order of
    /// appearance.
    pub fn finish(self) -> (r: Result<([u64; 5], u64, u64), VeridictError>)
        requires
            self.wf(),
        ensures
            r is Ok <==> forall|j: int| 0 <= j < self.pending().len() ==> self.pending()[j].1.len() == 2,
            r is Ok ==> {
                &&& forall|b: int| 0 <= b < 5 ==> r->Ok_0.0[b] == bucket_count(self.pending(), b as nat)
                &&& r->Ok_0.1 == entry_count(self.pending())
                &&& r->Ok_0.2 == self.pending().len()
            },
            r is Err ==> reports_first_unpaired(self.pending(), r->Err_0),
    {
        let ghost m = self.pending();
        let groups = self.groups.into_groups();
        let mut buckets: [u64; 5] = [0u64; 5];
        let mut raw_trial_count: u64 = 0;
        let paired_count = groups.len() as u64;
        let mut i: usize = 0;
        proof {
            assert(groups@.len() == m.len());
        }
        while i < groups.len()
            invariant
                0 <= i <= groups@.len(),
                groups@.len() == m.len(),
                m == self.pending(),
                paired_count == m.len(),
                forall|j: int| 0 <= j < m.len() ==> #[trigger] m[j] == (groups@[j].0@, groups@[j].1@),
                forall|j: int| 0 <= j < m.len() ==> m[j].1.len() > 0,
                entry_count(m) <= u64::MAX,
                forall|j: int| 0 <= j < i ==> m[j].1.len() == 2,
                forall|b: int| 0 <= b < 5 ==> buckets[b] == bucket_count(m.subrange(0, i as int), b as nat),
                raw_trial_count == entry_count(m.subrange(0, i as int)),
            decreases groups@.len() - i,
        {
            let ghost pre = m.subrange(0, i as int);
            proof {
                assert(m[i as int] == (groups@[i as int].0@, groups@[i as int].1@));
                crate::pairing::lemma_entry_count_prefix_pub(m, i as int);
                crate::pairing::lemma_entry_count_prefix_pub(m, i as int + 1);
                assert(m.subrange(0, i + 1).drop_last() =~= pre);
                lemma_bucket_bounded(pre, 0);
                lemma_bucket_bounded(pre, 1);
                lemma_bucket_bounded(pre, 2);
                lemma_bucket_bounded(pre, 3);
                lemma_bucket_bounded(pre, 4);
                crate::pairing::lemma_entry_count_ge_len_pub(pre);
            }
            let entries = &groups[i].1;
            raw_trial_count = raw_trial_count + entries.len() as u64;
            if entries.len() == 1 {
                let message = lone_message(groups[i].0.as_str());
                return Err(
                    VeridictError::SchemaMismatch {
                        line: entries[0].0,
                        context: "pentanomial",
                        detail: message,
                    },
                );
            } else if entries.len() == 2 {
                let pa: usize = match entries[0].1 {
                    Outcome::CandidateWin => 2,
                    Outcome::Draw => 1,
                    Outcome::BaselineWin => 0,
                };
                let pb: usize = match entries[1].1 {
                    Outcome::CandidateWin => 2,
                    Outcome::Draw => 1,
                    Outcome::BaselineWin => 0,
                };
                let bucket = pa + pb;
                let ghost old_buckets = buckets;
                buckets[bucket] = buckets[bucket] + 1;
                proof {
                    assert forall|b: int| 0 <= b < 5 implies buckets[b] == bucket_count(m.subrange(0, i + 1), b as nat) by {
                        assert(old_buckets[b] == bucket_count(pre, b as nat));
                    }
                }
            } else {
                let message = crowd_message(groups[i].0.as_str(), entries.len());
                return Err(
                    VeridictError::SchemaMismatch {
                        line: entries[0].0,
                        context: "pentanomial",
                        detail: message,
                    },
                );
            }
            i = i + 1;
        }
        proof {
            assert(m.subrange(0, m.len() as int) =~= m);
        }
        Ok((buckets, raw_trial_count, paired_count))
    }
}

/// A status field is absent or names a status.
pub open spec fn status_ok(s: Option<&str>) -> bool {
    match s {
        Some(t) => status_named(t@) is Some,
        None => true,
    }
}

/// `c` after tallying an optional, well-formed status field.
pub open spec fn bumped_opt(c: crate::metrics::FailureCounts, s: Option<&str>) -> crate::metrics::FailureCounts {
    match s {
        Some(t) => bumped(c, status_named(t@).unwrap()),
        None => c,
    }
}

/// The outcome a record brings to the SPRT under `policy` (see
/// `effective_outcome_spec`; outer `None`: an unreadable `result`).
pub open spec fn sprt_outcome(policy: FailurePolicy, rec: RecordFields) -> Option<Option<Outcome>> {
    effective_outcome_spec(policy, parsed_status(rec.baseline_status), parsed_status(rec.candidate_status), opt_text(rec.result))
}

/// A record the SPRT accepts: well-formed statuses, a readable outcome
/// under the policy, an id for every outcome under the pentanomial
/// variant, and at least one field.
pub open spec fn sprt_accepts(variant: SprtVariant, policy: FailurePolicy, rec: RecordFields) -> bool {
    &&& status_ok(rec.baseline_status)
    &&& status_ok(rec.candidate_status)
    &&& sprt_outcome(policy, rec) is Some
    &&& (sprt_outcome(policy, rec)->0 is Some && variant == SprtVariant::Pentanomial ==> rec.id is Some)
    &&& (rec.result is Some || rec.baseline_status is Some || rec.candidate_status is Some)
}

/// Error detail for a pentanomial record without an id.
pub open spec fn missing_id_detail() -> Seq<char> {
    "record has no id; --sprt-variant pentanomial requires every record to carry one"@
}

/// Error detail for a record the SPRT can read nothing from.
pub open spec fn no_fields_detail() -> Seq<char> {
    "record has no result and no status fields"@
}

/// Counts an SPRT run needs once every record is read.
pub struct SprtCounts {
    pub baseline_wins: u64,
    pub candidate_wins: u64,
    pub draws: u64,
    pub failures: FailureBreakdown,
    /// `(buckets, records, pairs)`, for the pentanomial variant only.
    pub pentanomial: Option<([u64; 5], u64, u64)>,
}

/// The pentanomial part of `c` (meaningful when present).
pub open spec fn pentanomial_part(c: SprtCounts) -> ([u64; 5], u64, u64) {
    c.pentanomial->0
}

/// The SPRT's record-by-record tally.
pub struct SprtTally {
    variant: SprtVariant,
    policy: FailurePolicy,
    ingested: u64,
    failures: FailureBreakdown,
    collector: OutcomeCollector,
    pentanomial: PentanomialCollector,
}

impl SprtTally {
    pub closed spec fn variant(&self) -> SprtVariant {
        self.variant
    }

    /// How a failed side's trial counts.
    pub closed spec fn policy(&self) -> FailurePolicy {
        self.policy
    }

    /// Records read so far.
    pub closed spec fn ingested(&self) -> nat {
        self.ingested as nat
    }

    pub closed spec fn failures(&self) -> FailureBreakdown {
        self.failures
    }

    /// Decisive outcomes of the Wald and trinomial variants.
    pub closed spec fn outcomes(&self) -> OutcomeCollector {
        self.collector
    }

    /// Games held for pairing by the pentanomial variant.
    pub closed spec fn pairs(&self) -> GroupsView<Outcome> {
        self.pentanomial.pending()
    }

    pub closed spec fn wf(&self) -> bool {
        &&& self.collector.wf()
        &&& self.pentanomial.wf()
        &&& self.collector.seen() <= self.ingested
        &&& entry_count(self.pentanomial.pending()) <= self.ingested
        &&& self.failures.baseline.timeout + self.failures.baseline.crash + self.failures.baseline.invalid <= self.ingested
        &&& self.failures.candidate.timeout + self.failures.candidate.crash + self.failures.candidate.invalid <= self.ingested
    }

    /// A tally for `variant` under `policy`; the pentanomial variant needs
    /// pairing by id.
    pub fn start(variant: SprtVariant, paired_by_id: bool, policy: FailurePolicy) -> (r: Result<SprtTally, VeridictError>)
        ensures
            r is Err <==> variant == SprtVariant::Pentanomial && !paired_by_id,
            r is Err ==> r->Err_0 is InvalidThreshold && r->Err_0->InvalidThreshold_0@
                == "--sprt-variant pentanomial requires --paired-by-id"@,
            r is Ok ==> {
                let t = r->Ok_0;
                &&& t.wf()
                &&& t.variant() == variant
                &&& t.policy() == policy
                &&& t.ingested() == 0
                &&& t.outcomes().paired() == paired_by_id
                &&& t.outcomes().counts() == (0nat, 0nat, 0nat)
                &&& t.outcomes().pending().len() == 0
                &&& t.pairs().len() == 0
                &&& t.failures().baseline == (crate::metrics::FailureCounts { timeout: 0, crash: 0, invalid: 0 })
                &&& t.failures().candidate == (crate::metrics::FailureCounts { timeout: 0, crash: 0, invalid: 0 })
            },
    {
        if variant == SprtVariant::Pentanomial && !paired_by_id {
            return Err(
                VeridictError::InvalidThreshold(
                    String::from_str("--sprt-variant pentanomial requires --paired-by-id"),
                ),
            );
        }
        Ok(
            SprtTally {
                variant,
                policy,
                ingested: 0,
                failures: FailureBreakdown::new(),
                collector: OutcomeCollector::new(paired_by_id),
                pentanomial: PentanomialCollector::new(),
            },
        )
    }

    /// Whether another record fits the counters.
    pub fn has_room(&self) -> (r: bool)
        ensures
            r == (self.ingested() < u64::MAX),
    {
        self.ingested < u64::MAX
    }

    /// Reads one record: tallies its failure statuses, then files the
    /// outcome the failure policy gives it (with the pentanomial collector
    /// under its id, or with the outcome collector). The first problem
    /// found is the error, checked in this order: baseline status,
    /// candidate status, result, missing id, no usable field.
    pub fn ingest(&mut self, line: usize, rec: RecordFields) -> (r: Result<(), VeridictError>)
        requires
            old(self).wf(),
            old(self).ingested() < u64::MAX,
        ensures
            r is Ok <==> sprt_accepts(old(self).variant(), old(self).policy(), rec),
            rec.baseline_status is Some && status_named(rec.baseline_status->0@) is None ==> r is Err
                && is_unrecognized_status(r->Err_0, line, "baseline_status"@, rec.baseline_status->0@),
            status_ok(rec.baseline_status) && rec.candidate_status is Some
                && status_named(rec.candidate_status->0@) is None ==> r is Err
                && is_unrecognized_status(r->Err_0, line, "candidate_status"@, rec.candidate_status->0@),
            status_ok(rec.baseline_status) && status_ok(rec.candidate_status)
                && sprt_outcome(old(self).policy(), rec) is None ==> r is Err
                && is_unrecognized_outcome(r->Err_0, line, rec.result->0@, outcome_choices()),
            status_ok(rec.baseline_status) && status_ok(rec.candidate_status)
                && sprt_outcome(old(self).policy(), rec) is Some && sprt_outcome(old(self).policy(), rec)->0 is Some
                && old(self).variant() == SprtVariant::Pentanomial
                && rec.id is None ==> r is Err && is_schema_mismatch(r->Err_0, line, "pentanomial"@, missing_id_detail()),
            rec.result is None && rec.baseline_status is None && rec.candidate_status is None
                ==> r is Err && is_schema_mismatch(r->Err_0, line, "sprt"@, no_fields_detail()),
            r is Ok ==> {
                &&& final(self).wf()
                &&& final(self).variant() == old(self).variant()
                &&& final(self).policy() == old(self).policy()
                &&& final(self).ingested() == old(self).ingested() + 1
                &&& final(self).failures().baseline == bumped_opt(old(self).failures().baseline, rec.baseline_status)
                &&& final(self).failures().candidate == bumped_opt(old(self).failures().candidate, rec.candidate_status)
                &&& match sprt_outcome(old(self).policy(), rec)->0 {
                    Some(o) => if old(self).variant() == SprtVariant::Pentanomial {
                        final(self).pairs() == filed(old(self).pairs(), rec.id->0@, line, o)
                            && final(self).outcomes() == old(self).outcomes()
                    } else {
                        crate::pairing::recorded(old(self).outcomes(), final(self).outcomes(), line, opt_text(rec.id), o)
                            && final(self).pairs() == old(self).pairs()
                    },
                    None => final(self).pairs() == old(self).pairs() && final(self).outcomes() == old(self).outcomes(),
                }
            },
    {
        let mut used = false;
        let mut bs: Option<TrialStatus> = None;
        let mut cs: Option<TrialStatus> = None;
        if let Some(status) = rec.baseline_status {
            used = true;
            bs = Some(tally_status(status, line, "baseline_status", &mut self.failures.baseline)?);
        }
        if let Some(status) = rec.candidate_status {
            used = true;
            cs = Some(tally_status(status, line, "candidate_status", &mut self.failures.candidate)?);
        }
        if rec.result.is_some() {
            used = true;
        }
        proof {
            assert(bs == parsed_status(rec.baseline_status));
            assert(cs == parsed_status(rec.candidate_status));
        }
        let outcome = effective_outcome(self.policy, bs, cs, rec.result, line)?;
        if let Some(outcome) = outcome {
            if self.variant == SprtVariant::Pentanomial {
                match rec.id {
                    Some(id) => {
                        self.pentanomial.record(line, id, outcome);
                    },
                    None => {
                        return Err(
                            VeridictError::SchemaMismatch {
                                line,
                                context: "pentanomial",
                                detail: String::from_str(
                                    "record has no id; --sprt-variant pentanomial requires every record to carry one",
                                ),
                            },
                        );
                    },
                }
            } else {
                self.collector.record(line, rec.id, outcome);
            }
        }
        if !used {
            return Err(
                VeridictError::SchemaMismatch {
                    line,
                    context: "sprt",
                    detail: String::from_str("record has no result and no status fields"),
                },
            );
        }
        self.ingested = self.ingested + 1;
        Ok(())
    }

    /// Settles the held records into final counts (see the collectors'
    /// `finish` for the pairing errors).
    pub fn finish(self) -> (r: Result<SprtCounts, VeridictError>)
        requires
            self.wf(),
        ensures
            self.variant() != SprtVariant::Pentanomial ==> (r is Ok <==> forall|j: int|
                0 <= j < self.outcomes().pending().len() ==> self.outcomes().pending()[j].1.len() <= 2),
            self.variant() != SprtVariant::Pentanomial && r is Ok ==> {
                let s = crate::pairing::settled(self.outcomes().counts(), self.outcomes().pending());
                &&& r->Ok_0.baseline_wins == s.0
                &&& r->Ok_0.candidate_wins == s.1
                &&& r->Ok_0.draws == s.2
                &&& r->Ok_0.pentanomial is None
                &&& r->Ok_0.failures == self.failures()
            },
            self.variant() != SprtVariant::Pentanomial && r is Err
                ==> crate::pairing::reports_first_oversized(self.outcomes().pending(), r->Err_0),
            self.variant() == SprtVariant::Pentanomial ==> (r is Ok <==> forall|j: int|
                0 <= j < self.pairs().len() ==> self.pairs()[j].1.len() == 2),
            self.variant() == SprtVariant::Pentanomial && r is Ok ==> {
                let c = r->Ok_0;
                let m = self.pairs();
                &&& c.pentanomial is Some
                &&& forall|b: int| 0 <= b < 5 ==> pentanomial_part(c).0[b] == bucket_count(m, b as nat)
                &&& pentanomial_part(c).1 == entry_count(m)
                &&& pentanomial_part(c).2 == m.len()
                &&& c.baseline_wins == bucket_count(m, 0) + bucket_count(m, 1)
                &&& c.candidate_wins == bucket_count(m, 3) + bucket_count(m, 4)
                &&& c.draws == bucket_count(m, 2)
                &&& c.failures == self.failures()
            },
            self.variant() == SprtVariant::Pentanomial && r is Err ==> reports_first_unpaired(self.pairs(), r->Err_0),
    {
        let failures = self.failures;
        match self.variant {
            SprtVariant::Pentanomial => {
                let ghost m = self.pentanomial.pending();
                proof {
                    lemma_bucket_pair_bounded(m, 0, 1);
                    lemma_bucket_pair_bounded(m, 3, 4);
                }
                let (buckets, raw_trial_count, paired_count) = match self.pentanomial.finish() {
                    Ok(t) => t,
                    Err(e) => {
                        proof {
                            let i = choose|i: int| 0 <= i < m.len() && m[i].1.len() != 2
                                && (forall|j: int| 0 <= j < i ==> m[j].1.len() == 2)
                                && is_schema_mismatch(e, m[i].1[0].0, "pentanomial"@,
                                    if m[i].1.len() == 1 { lone_detail(m[i].0) } else { crowd_detail(m[i].0, m[i].1.len()) });
                            assert(self.pairs()[i].1.len() != 2);
                        }
                        return Err(e);
                    },
                };
                let (baseline_wins, candidate_wins, draws) = net_pentanomial_buckets(&buckets);
                Ok(
                    SprtCounts {
                        baseline_wins,
                        candidate_wins,
                        draws,
                        failures,
                        pentanomial: Some((buckets, raw_trial_count, paired_count)),
                    },
                )
            },
            _ => {
                let ghost m = self.collector.pending();
                let (baseline_wins, candidate_wins, draws) = match self.collector.finish() {
                    Ok(t) => t,
                    Err(e) => {
                        proof {
                            let i = choose|i: int| 0 <= i < m.len() && m[i].1.len() > 2
                                && (forall|j: int| 0 <= j < i ==> m[j].1.len() <= 2)
                                && is_schema_mismatch(e, m[i].1[0].0, "paired-by-id"@,
                                    crate::pairing::oversize_detail(m[i].0, m[i].1.len()));
                            assert(self.outcomes().pending()[i].1.len() > 2);
                        }
                        return Err(e);
                    },
                };
                Ok(SprtCounts { baseline_wins, candidate_wins, draws, failures, pentanomial: None })
            },
        }
    }
}

proof fn lemma_bucket_pair_bounded(m: GroupsView<Outcome>, a: nat, b: nat)
    requires
        a != b,
    ensures
        bucket_count(m, a) + bucket_count(m, b) <= m.len(),
    decreases m.len(),
{
    if m.len() > 0 {
        lemma_bucket_pair_bounded(m.drop_last(), a, b);
    }
}

/// `e` is an `InvalidThreshold` error saying `text`.
pub open spec fn is_invalid_threshold(e: VeridictError, text: Seq<char>) -> bool {
    e is InvalidThreshold && e->InvalidThreshold_0@ == text
}

/// Picks the hypothesis pair the variant uses: `--elo0/--elo1` for the Wald
/// and pentanomial variants, `--belo0/--belo1` for the trinomial one. The
/// other variant's flags are refused rather than ignored, a missing flag of
/// the pair is an error, and the pentanomial variant also needs pairing by
/// id.
pub fn resolve_sprt_hypotheses<T: Copy>(
    variant: SprtVariant,
    elo0: Option<T>,
    elo1: Option<T>,
    belo0: Option<T>,
    belo1: Option<T>,
    paired_by_id: bool,
) -> (r: Result<(T, T), VeridictError>)
    ensures
        variant == SprtVariant::Wald ==> {
            if belo0 is Some || belo1 is Some {
                r is Err && is_invalid_threshold(r->Err_0,
                    "--belo0/--belo1 are only used with --sprt-variant trinomial; pass --elo0/--elo1 for the default wald variant"@)
            } else if elo0 is Some && elo1 is Some {
                r == Ok::<(T, T), VeridictError>((elo0->0, elo1->0))
            } else {
                r is Err && is_invalid_threshold(r->Err_0, "--elo0 and --elo1 are required for --sprt-variant wald (the default)"@)
            }
        },
        variant == SprtVariant::Trinomial ==> {
            if elo0 is Some || elo1 is Some {
                r is Err && is_invalid_threshold(r->Err_0,
                    "--elo0/--elo1 are only used with --sprt-variant wald; pass --belo0/--belo1 for --sprt-variant trinomial"@)
            } else if belo0 is Some && belo1 is Some {
                r == Ok::<(T, T), VeridictError>((belo0->0, belo1->0))
            } else {
                r is Err && is_invalid_threshold(r->Err_0, "--belo0 and --belo1 are required for --sprt-variant trinomial"@)
            }
        },
        variant == SprtVariant::Pentanomial ==> {
            if belo0 is Some || belo1 is Some {
                r is Err && is_invalid_threshold(r->Err_0,
                    "--belo0/--belo1 are only used with --sprt-variant trinomial; pass --elo0/--elo1 for --sprt-variant pentanomial"@)
            } else if !paired_by_id {
                r is Err && is_invalid_threshold(r->Err_0, "--sprt-variant pentanomial requires --paired-by-id"@)
            } else if elo0 is Some && elo1 is Some {
                r == Ok::<(T, T), VeridictError>((elo0->0, elo1->0))
            } else {
                r is Err && is_invalid_threshold(r->Err_0, "--elo0 and --elo1 are required for --sprt-variant pentanomial"@)
            }
        },
{
    let wald_flags_given = elo0.is_some() || elo1.is_some();
    let trinomial_flags_given = belo0.is_some() || belo1.is_some();
    match variant {
        SprtVariant::Wald => {
            if trinomial_flags_given {
                return Err(VeridictError::InvalidThreshold(String::from_str(
                    "--belo0/--belo1 are only used with --sprt-variant trinomial; pass --elo0/--elo1 for the default wald variant",
                )));
            }
            match (elo0, elo1) {
                (Some(e0), Some(e1)) => Ok((e0, e1)),
                _ => Err(VeridictError::InvalidThreshold(String::from_str(
                    "--elo0 and --elo1 are required for --sprt-variant wald (the default)",
                ))),
            }
        },
        SprtVariant::Trinomial => {
            if wald_flags_given {
                return Err(VeridictError::InvalidThreshold(String::from_str(
                    "--elo0/--elo1 are only used with --sprt-variant wald; pass --belo0/--belo1 for --sprt-variant trinomial",
                )));
            }
            match (belo0, belo1) {
                (Some(b0), Some(b1)) => Ok((b0, b1)),
                _ => Err(VeridictError::InvalidThreshold(String::from_str(
                    "--belo0 and --belo1 are required for --sprt-variant trinomial",
                ))),
            }
        },
        SprtVariant::Pentanomial => {
            if trinomial_flags_given {
                return Err(VeridictError::InvalidThreshold(String::from_str(
                    "--belo0/--belo1 are only used with --sprt-variant trinomial; pass --elo0/--elo1 for --sprt-variant pentanomial",
                )));
            }
            if !paired_by_id {
                return Err(VeridictError::InvalidThreshold(String::from_str(
                    "--sprt-variant pentanomial requires --paired-by-id",
                )));
            }
            match (elo0, elo1) {
                (Some(e0), Some(e1)) => Ok((e0, e1)),
                _ => Err(VeridictError::InvalidThreshold(String::from_str(
                    "--elo0 and --elo1 are required for --sprt-variant pentanomial",
                ))),
            }
        },
    }
}

/// When every id is a pair, the five buckets net to the same
/// `(baseline_wins, candidate_wins, draws)` that netting each pair by
/// points gives: below one point a baseline win, above it a candidate win,
/// exactly one point a draw. And the records are exactly twice the pairs.
pub proof fn law_buckets_net_like_pairs(m: GroupsView<Outcome>)
    requires
        forall|j: int| 0 <= j < m.len() ==> m[j].1.len() == 2,
    ensures
        crate::pairing::settled((0nat, 0nat, 0nat), m) == (
            bucket_count(m, 0) + bucket_count(m, 1),
            bucket_count(m, 3) + bucket_count(m, 4),
            bucket_count(m, 2),
        ),
        entry_count(m) == 2 * m.len(),
    decreases m.len(),
{
    if m.len() > 0 {
        let d = m.drop_last();
        assert forall|j: int| 0 <= j < d.len() implies d[j].1.len() == 2 by {
            assert(d[j] == m[j]);
        }
        law_buckets_net_like_pairs(d);
    }
}

} // verus!
