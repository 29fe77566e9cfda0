//! Grouping records by `id` and netting paired records. Two records that
//! share an id (the same test case run twice, e.g. an opening played with
//! colors swapped) are combined into one observation by the points the
//! candidate scored across the pair, instead of counting as two
//! independent trials.

use vstd::prelude::*;

use crate::error::{is_schema_mismatch, VeridictError};
use crate::text::{decimal, decimal_string, str_eq};
use crate::metrics::opt_text;
use crate::Outcome;

verus! {

/// Records grouped by id, groups in order of each id's first appearance,
/// records of a group in arrival order. Each entry is `(line, value)`.
pub struct IdGroups<T> {
    groups: Vec<(String, Vec<(usize, T)>)>,
}

/// Abstract contents of a grouping: `(id, entries)` per group.
pub type GroupsView<T> = Seq<(Seq<char>, Seq<(usize, T)>)>;

/// Index of the group with id `id`, if any (ids are distinct).
pub open spec fn group_index<T>(m: GroupsView<T>, id: Seq<char>) -> Option<int>
    decreases m.len(),
{
    if m.len() == 0 {
        None
    } else if m[m.len() - 1].0 == id {
        Some(m.len() - 1)
    } else {
        group_index(m.drop_last(), id)
    }
}

/// `m` after filing `(line, value)` under `id`.
pub open spec fn filed<T>(m: GroupsView<T>, id: Seq<char>, line: usize, value: T) -> GroupsView<T> {
    match group_index(m, id) {
        Some(i) => m.update(i, (id, m[i].1.push((line, value)))),
        None => m.push((id, seq![(line, value)])),
    }
}

/// Total number of entries across all groups.
pub open spec fn entry_count<T>(m: GroupsView<T>) -> nat
    decreases m.len(),
{
    if m.len() == 0 {
        0
    } else {
        entry_count(m.drop_last()) + m[m.len() - 1].1.len()
    }
}

proof fn lemma_group_index<T>(m: GroupsView<T>, id: Seq<char>)
    ensures
        match group_index(m, id) {
            Some(i) => 0 <= i < m.len() && m[i].0 == id,
            None => forall|j: int| 0 <= j < m.len() ==> m[j].0 != id,
        },
    decreases m.len(),
{
    if m.len() > 0 && m[m.len() - 1].0 != id {
        lemma_group_index(m.drop_last(), id);
        if group_index(m, id) is None {
            assert forall|j: int| 0 <= j < m.len() implies m[j].0 != id by {
                if j < m.len() - 1 {
                    assert(m.drop_last()[j] == m[j]);
                }
            }
        }
    }
}

proof fn lemma_entry_count_update<T>(m: GroupsView<T>, i: int, g: (Seq<char>, Seq<(usize, T)>))
    requires
        0 <= i < m.len(),
    ensures
        entry_count(m.update(i, g)) + m[i].1.len() == entry_count(m) + g.1.len(),
    decreases m.len(),
{
    if i < m.len() - 1 {
        assert(m.update(i, g).drop_last() =~= m.drop_last().update(i, g));
        lemma_entry_count_update(m.drop_last(), i, g);
    } else {
        assert(m.update(i, g).drop_last() =~= m.drop_last());
    }
}

proof fn lemma_entry_count_push<T>(m: GroupsView<T>, g: (Seq<char>, Seq<(usize, T)>))
    ensures
        entry_count(m.push(g)) == entry_count(m) + g.1.len(),
{
    assert(m.push(g).drop_last() =~= m);
}

impl<T> IdGroups<T> {
    /// Abstract contents.
    pub closed spec fn view(&self) -> GroupsView<T> {
        self.groups@.map_values(|g: (String, Vec<(usize, T)>)| (g.0@, g.1@))
    }

    /// Ids are distinct and no group is empty.
    pub closed spec fn wf(&self) -> bool {
        &&& forall|a: int, b: int|
            0 <= a < b < self.groups@.len() ==> self.groups@[a].0@ != self.groups@[b].0@
        &&& forall|a: int| 0 <= a < self.groups@.len() ==> self.groups@[a].1@.len() > 0
    }

    /// No groups.
    pub fn new() -> (r: IdGroups<T>)
        ensures
            r.wf(),
            r.view().len() == 0,
    {
        IdGroups { groups: Vec::new() }
    }

    /// Files `value`, seen on `line`, under `id`.
    pub fn add(&mut self, id: &str, line: usize, value: T)
        requires
            old(self).wf(),
        ensures
            final(self).wf(),
            final(self).view() == filed(old(self).view(), id@, line, value),
            entry_count(final(self).view()) == entry_count(old(self).view()) + 1,
            final(self).view().len() >= old(self).view().len(),
    {
        let ghost m = self.view();
        proof {
            lemma_group_index(m, id@);
        }
        let mut i: usize = 0;
        while i < self.groups.len()
            invariant
                self.view() == m,
                m == old(self).view(),
                self.wf(),
                0 <= i <= self.groups@.len(),
                forall|j: int| 0 <= j < i ==> self.groups@[j].0@ != id@,
            decreases self.groups@.len() - i,
        {
            if str_eq(self.groups[i].0.as_str(), id) {
                proof {
                    lemma_group_index(m, id@);
                    assert(m[i as int].0 == id@);
                    assert(group_index(m, id@) == Some(i as int)) by {
                        match group_index(m, id@) {
                            Some(j) => {
                                assert(m[j].0 == self.groups@[j].0@);
                                if j != i {
                                    if j < i {
                                        assert(self.groups@[j].0@ != id@);
                                    } else {
                                        assert(self.groups@[i as int].0@ != self.groups@[j].0@);
                                    }
                                }
                            },
                            None => {
                                assert(m[i as int].0 != id@);
                            },
                        }
                    }
                }
                let ghost old_groups = self.groups@;
                self.groups[i].1.push((line, value));
                proof {
                    assert(self.view() =~= filed(m, id@, line, value));
                    lemma_entry_count_update(m, i as int, (id@, m[i as int].1.push((line, value))));
                    assert forall|a: int, b: int|
                        0 <= a < b < self.groups@.len() implies self.groups@[a].0@ != self.groups@[b].0@ by {
                        assert(old_groups[a].0@ != old_groups[b].0@);
                    }
                    assert forall|a: int| 0 <= a < self.groups@.len() implies self.groups@[a].1@.len() > 0 by {
                        assert(old_groups[a].1@.len() > 0);
                    }
                }
                assert(self.view() == filed(m, id@, line, value));
                assert(entry_count(self.view()) == entry_count(m) + 1);
                return;
            }
            i = i + 1;
        }
        proof {
            lemma_group_index(m, id@);
            assert(group_index(m, id@) == None::<int>) by {
                match group_index(m, id@) {
                    Some(j) => {
                        assert(m[j].0 == self.groups@[j].0@);
                        assert(self.groups@[j].0@ != id@);
                    },
                    None => {},
                }
            }
        }
        let mut entries: Vec<(usize, T)> = Vec::new();
        entries.push((line, value));
        let ghost old_groups = self.groups@;
        self.groups.push((String::from_str(id), entries));
        proof {
            assert(self.view() =~= filed(m, id@, line, value));
            lemma_entry_count_push(m, (id@, seq![(line, value)]));
            assert forall|a: int, b: int|
                0 <= a < b < self.groups@.len() implies self.groups@[a].0@ != self.groups@[b].0@ by {
                if b == self.groups@.len() - 1 {
                    assert(old_groups[a].0@ == m[a].0);
                } else {
                    assert(old_groups[a].0@ != old_groups[b].0@);
                }
            }
            assert forall|a: int| 0 <= a < self.groups@.len() implies self.groups@[a].1@.len() > 0 by {
                if a < old_groups.len() {
                    assert(old_groups[a].1@.len() > 0);
                }
            }
        }
    }

    /// The groups, read in place.
    pub fn as_groups(&self) -> (r: &Vec<(String, Vec<(usize, T)>)>)
        requires
            self.wf(),
        ensures
            r@.map_values(|g: (String, Vec<(usize, T)>)| (g.0@, g.1@)) == self.view(),
            forall|j: int| 0 <= j < self.view().len() ==> self.view()[j].1.len() > 0,
    {
        &self.groups
    }

    /// The groups, consumed.
    pub fn into_groups(self) -> (r: Vec<(String, Vec<(usize, T)>)>)
        requires
            self.wf(),
        ensures
            r@.map_values(|g: (String, Vec<(usize, T)>)| (g.0@, g.1@)) == self.view(),
            forall|j: int| 0 <= j < self.view().len() ==> self.view()[j].1.len() > 0,
    {
        self.groups
    }
}

/// A game's score for the candidate, in half points: a win is 2, a draw 1,
/// a loss 0.
pub open spec fn half_points(o: Outcome) -> nat {
    match o {
        Outcome::CandidateWin => 2,
        Outcome::Draw => 1,
        Outcome::BaselineWin => 0,
    }
}

/// The net outcome of two records netted by points: the candidate wins the
/// pair when it scored more than one point across the two, loses it when
/// it scored less, and it is a draw at exactly one point.
pub open spec fn net_outcome(a: Outcome, b: Outcome) -> Outcome {
    let t = half_points(a) + half_points(b);
    if t > 2 {
        Outcome::CandidateWin
    } else if t < 2 {
        Outcome::BaselineWin
    } else {
        Outcome::Draw
    }
}

/// `(baseline_wins, candidate_wins, draws)` after counting one more `o`.
pub open spec fn tallied(c: (nat, nat, nat), o: Outcome) -> (nat, nat, nat) {
    match o {
        Outcome::BaselineWin => (c.0 + 1, c.1, c.2),
        Outcome::CandidateWin => (c.0, c.1 + 1, c.2),
        Outcome::Draw => (c.0, c.1, c.2 + 1),
    }
}

/// The single observation a group of one or two records contributes.
pub open spec fn group_outcome(entries: Seq<(usize, Outcome)>) -> Outcome {
    if entries.len() == 1 {
        entries[0].1
    } else {
        net_outcome(entries[0].1, entries[1].1)
    }
}

/// Counts `c` after adding each group's observation.
pub open spec fn settled(c: (nat, nat, nat), m: GroupsView<Outcome>) -> (nat, nat, nat)
    decreases m.len(),
{
    if m.len() == 0 {
        c
    } else {
        tallied(settled(c, m.drop_last()), group_outcome(m[m.len() - 1].1))
    }
}

/// Error detail for an id seen more than twice in paired mode.
pub open spec fn oversize_detail(id: Seq<char>, count: nat) -> Seq<char> {
    "id '"@ + id + "' appears "@ + decimal(count) + " times; paired mode expects at most 2 records per id"@
}

pub open spec fn count_sum(c: (nat, nat, nat)) -> nat {
    c.0 + c.1 + c.2
}

pub proof fn lemma_entry_count_prefix_pub<T>(m: GroupsView<T>, i: int)
    requires
        0 <= i <= m.len(),
    ensures
        entry_count(m.subrange(0, i)) <= entry_count(m),
        i < m.len() ==> entry_count(m.subrange(0, i + 1)) == entry_count(m.subrange(0, i)) + m[i].1.len(),
{
    lemma_entry_count_prefix(m, i);
}

pub proof fn lemma_entry_count_ge_len_pub<T>(m: GroupsView<T>)
    requires
        forall|j: int| 0 <= j < m.len() ==> m[j].1.len() > 0,
    ensures
        entry_count(m) >= m.len(),
{
    lemma_entry_count_ge_len(m);
}

proof fn lemma_entry_count_prefix<T>(m: GroupsView<T>, i: int)
    requires
        0 <= i <= m.len(),
    ensures
        entry_count(m.subrange(0, i)) <= entry_count(m),
        i < m.len() ==> entry_count(m.subrange(0, i + 1)) == entry_count(m.subrange(0, i)) + m[i].1.len(),
    decreases m.len() - i,
{
    if i < m.len() {
        assert(m.subrange(0, i + 1).drop_last() =~= m.subrange(0, i));
        lemma_entry_count_prefix(m, i + 1);
    } else {
        assert(m.subrange(0, i) =~= m);
    }
}

proof fn lemma_entry_count_ge_len<T>(m: GroupsView<T>)
    requires
        forall|j: int| 0 <= j < m.len() ==> m[j].1.len() > 0,
    ensures
        entry_count(m) >= m.len(),
    decreases m.len(),
{
    if m.len() > 0 {
        lemma_entry_count_ge_len(m.drop_last());
    }
}

proof fn lemma_settled_sum(c: (nat, nat, nat), m: GroupsView<Outcome>)
    ensures
        count_sum(settled(c, m)) == count_sum(c) + m.len(),
    decreases m.len(),
{
    if m.len() > 0 {
        lemma_settled_sum(c, m.drop_last());
    }
}

/// `e` reports the first group of `m` holding more than two records.
pub open spec fn reports_first_oversized<T>(m: GroupsView<T>, e: VeridictError) -> bool {
    exists|i: int|
        0 <= i < m.len() && m[i].1.len() > 2 && (forall|j: int| 0 <= j < i ==> m[j].1.len() <= 2)
            && is_schema_mismatch(e, m[i].1[0].0, "paired-by-id"@, oversize_detail(m[i].0, m[i].1.len()))
}

/// `after` is `before` having recorded `o` from `line` with id `id`: held
/// under the id in paired mode, counted at once otherwise.
pub open spec fn recorded(
    before: OutcomeCollector,
    after: OutcomeCollector,
    line: usize,
    id: Option<Seq<char>>,
    o: Outcome,
) -> bool {
    &&& after.paired() == before.paired()
    &&& after.seen() == before.seen() + 1
    &&& match (before.paired(), id) {
        (true, Some(i)) => after.counts() == before.counts() && after.pending() == filed(
            before.pending(),
            i,
            line,
            o,
        ),
        _ => after.counts() == tallied(before.counts(), o) && after.pending() == before.pending(),
    }
}

/// `id '<id>' appears <count> times; paired mode expects at most 2 records per id`.
fn oversize_message(id: &str, count: usize) -> (s: String)
    ensures
        s@ == oversize_detail(id@, count as nat),
{
    let s = String::from_str("id '");
    let s = s.concat(id);
    let s = s.concat("' appears ");
    let digits = decimal_string(count as u64);
    let s = s.concat(digits.as_str());
    s.concat(" times; paired mode expects at most 2 records per id")
}

/// Win/loss/draw observations of one metric, with optional pairing by id.
/// Without pairing, or for a record with no id, each outcome is counted as
/// it arrives; with pairing, same-id records are held until `finish`.
pub struct OutcomeCollector {
    paired_by_id: bool,
    baseline_wins: u64,
    candidate_wins: u64,
    draws: u64,
    groups: IdGroups<Outcome>,
}

impl OutcomeCollector {
    pub closed spec fn paired(&self) -> bool {
        self.paired_by_id
    }

    /// `(baseline_wins, candidate_wins, draws)` counted so far.
    pub closed spec fn counts(&self) -> (nat, nat, nat) {
        (self.baseline_wins as nat, self.candidate_wins as nat, self.draws as nat)
    }

    /// Paired records held for netting.
    pub closed spec fn pending(&self) -> GroupsView<Outcome> {
        self.groups.view()
    }

    /// Observations still to be counted fit the counters.
    pub closed spec fn wf(&self) -> bool {
        &&& self.groups.wf()
        &&& count_sum(self.counts()) + entry_count(self.pending()) <= u64::MAX
    }

    /// Records seen so far (each counted or held).
    pub open spec fn seen(&self) -> nat {
        count_sum(self.counts()) + entry_count(self.pending())
    }

    pub fn new(paired_by_id: bool) -> (r: OutcomeCollector)
        ensures
            r.wf(),
            r.paired() == paired_by_id,
            r.counts() == (0nat, 0nat, 0nat),
            r.pending().len() == 0,
    {
        OutcomeCollector {
            paired_by_id,
            baseline_wins: 0,
            candidate_wins: 0,
            draws: 0,
            groups: IdGroups::new(),
        }
    }

    /// Counts `outcome` now, unless pairing is on and the record has an id,
    /// in which case it is held under that id.
    pub fn record(&mut self, line: usize, id: Option<&str>, outcome: Outcome)
        requires
            old(self).wf(),
            old(self).seen() < u64::MAX,
        ensures
            final(self).wf(),
            recorded(*old(self), *final(self), line, opt_text(id), outcome),
    {
        match (self.paired_by_id, id) {
            (true, Some(i)) => {
                self.groups.add(i, line, outcome);
            },
            _ => {
                self.tally(outcome);
            },
        }
    }

    fn tally(&mut self, outcome: Outcome)
        requires
            old(self).wf(),
            old(self).seen() < u64::MAX,
        ensures
            final(self).wf(),
            final(self).paired() == old(self).paired(),
            final(self).counts() == tallied(old(self).counts(), outcome),
            final(self).pending() == old(self).pending(),
    {
        match outcome {
            Outcome::BaselineWin => self.baseline_wins = self.baseline_wins + 1,
            Outcome::CandidateWin => self.candidate_wins = self.candidate_wins + 1,
            Outcome::Draw => self.draws = self.draws + 1,
        }
    }

    /// `(baseline_wins, candidate_wins, draws)` once every held group is
    /// settled: a lone record counts as itself, a pair as its net outcome.
    /// A group of more than two records is an error, reported for the first
    /// such id in order of appearance.
    pub fn finish(self) -> (r: Result<(u64, u64, u64), VeridictError>)
        requires
            self.wf(),
        ensures
            r is Ok <==> forall|j: int| 0 <= j < self.pending().len() ==> self.pending()[j].1.len() <= 2,
            r is Ok ==> {
                let s = settled(self.counts(), self.pending());
                &&& r->Ok_0.0 == s.0
                &&& r->Ok_0.1 == s.1
                &&& r->Ok_0.2 == s.2
            },
            r is Err ==> reports_first_oversized(self.pending(), r->Err_0),
    {
        let ghost m = self.pending();
        let ghost c0 = self.counts();
        let mut baseline_wins = self.baseline_wins;
        let mut candidate_wins = self.candidate_wins;
        let mut draws = self.draws;
        let groups = self.groups.into_groups();
        proof {
            assert(groups@.len() == m.len());
        }
        let mut i: usize = 0;
        while i < groups.len()
            invariant
                0 <= i <= groups@.len(),
                groups@.len() == m.len(),
                m == self.pending(),
                c0 == self.counts(),
                forall|j: int| 0 <= j < m.len() ==> #[trigger] m[j] == (groups@[j].0@, groups@[j].1@),
                forall|j: int| 0 <= j < m.len() ==> m[j].1.len() > 0,
                count_sum(c0) + entry_count(m) <= u64::MAX,
                forall|j: int| 0 <= j < i ==> m[j].1.len() <= 2,
                (baseline_wins as nat, candidate_wins as nat, draws as nat) == settled(c0, m.subrange(0, i as int)),
            decreases groups@.len() - i,
        {
            let ghost pre = m.subrange(0, i as int);
            proof {
                assert(m[i as int] == (groups@[i as int].0@, groups@[i as int].1@));
                lemma_entry_count_prefix(m, i as int);
                lemma_entry_count_prefix(m, i as int + 1);
                lemma_settled_sum(c0, pre);
                lemma_entry_count_ge_len(pre);
                assert(m.subrange(0, i + 1).drop_last() =~= pre);
            }
            let entries = &groups[i].1;
            if entries.len() == 1 {
                let o = entries[0].1;
                match o {
                    Outcome::BaselineWin => baseline_wins = baseline_wins + 1,
                    Outcome::CandidateWin => candidate_wins = candidate_wins + 1,
                    Outcome::Draw => draws = draws + 1,
                }
            } else if entries.len() == 2 {
                let a = entries[0].1;
                let b = entries[1].1;
                let pa: u8 = match a {
                    Outcome::CandidateWin => 2,
                    Outcome::Draw => 1,
                    Outcome::BaselineWin => 0,
                };
                let pb: u8 = match b {
                    Outcome::CandidateWin => 2,
                    Outcome::Draw => 1,
                    Outcome::BaselineWin => 0,
                };
                let total = pa + pb;
                if total > 2 {
                    candidate_wins = candidate_wins + 1;
                } else if total < 2 {
                    baseline_wins = baseline_wins + 1;
                } else {
                    draws = draws + 1;
                }
            } else {
                let message = oversize_message(groups[i].0.as_str(), entries.len());
                return Err(
                    VeridictError::SchemaMismatch {
                        line: entries[0].0,
                        context: "paired-by-id",
                        detail: message,
                    },
                );
            }
            i = i + 1;
        }
        proof {
            assert(m.subrange(0, m.len() as int) =~= m);
        }
        Ok((baseline_wins, candidate_wins, draws))
    }
}

/// The outcomes of a held group, in arrival order.
pub open spec fn group_outcomes(entries: Seq<(usize, Outcome)>) -> Seq<Outcome> {
    entries.map_values(|e: (usize, Outcome)| e.1)
}

/// `n` clusters of the single outcome `o`.
pub open spec fn lone_clusters(n: nat, o: Outcome) -> Seq<Seq<Outcome>> {
    Seq::new(n, |i: int| seq![o])
}

/// The clusters a grouping collector holds: each held id's outcomes, ids in
/// order of first appearance, then every record without an id as a cluster
/// of its own (baseline wins, then candidate wins, then draws).
pub open spec fn clusters_of(c: (nat, nat, nat), m: GroupsView<Outcome>) -> Seq<Seq<Outcome>> {
    m.map_values(|g: (Seq<char>, Seq<(usize, Outcome)>)| group_outcomes(g.1))
        + lone_clusters(c.0, Outcome::BaselineWin)
        + lone_clusters(c.1, Outcome::CandidateWin)
        + lone_clusters(c.2, Outcome::Draw)
}

/// The abstract contents of a list of clusters.
pub open spec fn clusters_view(r: Seq<Vec<Outcome>>) -> Seq<Seq<Outcome>> {
    r.map_values(|v: Vec<Outcome>| v@)
}

/// How many outcomes the clusters hold altogether.
pub open spec fn total_len(cs: Seq<Seq<Outcome>>) -> nat
    decreases cs.len(),
{
    if cs.len() == 0 {
        0
    } else {
        total_len(cs.drop_last()) + cs[cs.len() - 1].len()
    }
}

proof fn lemma_total_len_concat(a: Seq<Seq<Outcome>>, b: Seq<Seq<Outcome>>)
    ensures
        total_len(a + b) == total_len(a) + total_len(b),
    decreases b.len(),
{
    if b.len() > 0 {
        assert((a + b).drop_last() =~= a + b.drop_last());
        lemma_total_len_concat(a, b.drop_last());
    } else {
        assert(a + b =~= a);
    }
}

proof fn lemma_total_len_lone(n: nat, o: Outcome)
    ensures
        total_len(lone_clusters(n, o)) == n,
    decreases n,
{
    if n > 0 {
        assert(lone_clusters(n, o).drop_last() =~= lone_clusters((n - 1) as nat, o));
        lemma_total_len_lone((n - 1) as nat, o);
    }
}

proof fn lemma_total_len_groups(m: GroupsView<Outcome>)
    ensures
        total_len(m.map_values(|g: (Seq<char>, Seq<(usize, Outcome)>)| group_outcomes(g.1))) == entry_count(m),
    decreases m.len(),
{
    if m.len() > 0 {
        assert(m.map_values(|g: (Seq<char>, Seq<(usize, Outcome)>)| group_outcomes(g.1)).drop_last()
            =~= m.drop_last().map_values(|g: (Seq<char>, Seq<(usize, Outcome)>)| group_outcomes(g.1)));
        lemma_total_len_groups(m.drop_last());
    }
}

/// Clustering keeps every record and invents none: the clusters hold as
/// many outcomes as were recorded, there is one cluster per held id plus
/// one per record without an id, and no cluster is empty.
pub proof fn law_clusters_hold_every_record(c: (nat, nat, nat), m: GroupsView<Outcome>)
    requires
        forall|j: int| 0 <= j < m.len() ==> #[trigger] m[j].1.len() > 0,
    ensures
        total_len(clusters_of(c, m)) == count_sum(c) + entry_count(m),
        clusters_of(c, m).len() == m.len() + count_sum(c),
        forall|k: int| 0 <= k < clusters_of(c, m).len() ==> #[trigger] clusters_of(c, m)[k].len() > 0,
{
    let g = m.map_values(|g: (Seq<char>, Seq<(usize, Outcome)>)| group_outcomes(g.1));
    let b = lone_clusters(c.0, Outcome::BaselineWin);
    let w = lone_clusters(c.1, Outcome::CandidateWin);
    let d = lone_clusters(c.2, Outcome::Draw);
    lemma_total_len_groups(m);
    lemma_total_len_lone(c.0, Outcome::BaselineWin);
    lemma_total_len_lone(c.1, Outcome::CandidateWin);
    lemma_total_len_lone(c.2, Outcome::Draw);
    lemma_total_len_concat(g, b);
    lemma_total_len_concat(g + b, w);
    lemma_total_len_concat(g + b + w, d);
    let all = clusters_of(c, m);
    assert forall|k: int| 0 <= k < all.len() implies #[trigger] all[k].len() > 0 by {
        if k < g.len() {
            assert(all[k] == group_outcomes(m[k].1));
        } else if k < g.len() + b.len() {
            assert(all[k] == b[k - g.len()]);
        } else if k < g.len() + b.len() + w.len() {
            assert(all[k] == w[k - g.len() - b.len()]);
        } else {
            assert(all[k] == d[k - g.len() - b.len() - w.len()]);
        }
    }
}

/// Appends `n` clusters of the single outcome `o`.
fn push_lone(r: &mut Vec<Vec<Outcome>>, n: u64, o: Outcome)
    ensures
        clusters_view(final(r)@) == clusters_view(old(r)@) + lone_clusters(n as nat, o),
{
    let ghost start = clusters_view(r@);
    let mut k: u64 = 0;
    while k < n
        invariant
            0 <= k <= n,
            clusters_view(r@) == start + lone_clusters(k as nat, o),
        decreases n - k,
    {
        let ghost before = r@;
        let mut one: Vec<Outcome> = Vec::new();
        one.push(o);
        r.push(one);
        proof {
            assert(one@ =~= seq![o]);
            assert(clusters_view(r@) =~= clusters_view(before) + seq![seq![o]]);
            assert(lone_clusters((k + 1) as nat, o) =~= lone_clusters(k as nat, o) + seq![seq![o]]);
            assert(clusters_view(r@) =~= start + lone_clusters((k + 1) as nat, o));
        }
        k = k + 1;
    }
}

impl OutcomeCollector {
    /// Every record as a member of a cluster instead of a netted pair: with
    /// grouping by id, each id's outcomes form one cluster however many
    /// there are, and a record without an id is a cluster of its own.
    pub fn finish_clusters(self) -> (r: Vec<Vec<Outcome>>)
        requires
            self.wf(),
        ensures
            clusters_view(r@) == clusters_of(self.counts(), self.pending()),
    {
        let ghost m = self.pending();
        let groups = self.groups.into_groups();
        let mut r: Vec<Vec<Outcome>> = Vec::new();
        let mut i: usize = 0;
        while i < groups.len()
            invariant
                0 <= i <= groups@.len(),
                groups@.map_values(|g: (String, Vec<(usize, Outcome)>)| (g.0@, g.1@)) == m,
                clusters_view(r@) == m.subrange(0, i as int).map_values(
                    |g: (Seq<char>, Seq<(usize, Outcome)>)| group_outcomes(g.1),
                ),
            decreases groups@.len() - i,
        {
            let entries = &groups[i].1;
            proof {
                assert(m[i as int].1 == entries@);
            }
            let mut c: Vec<Outcome> = Vec::new();
            let mut k: usize = 0;
            while k < entries.len()
                invariant
                    0 <= k <= entries@.len(),
                    c@ == group_outcomes(entries@.subrange(0, k as int)),
                decreases entries@.len() - k,
            {
                c.push(entries[k].1);
                proof {
                    assert(group_outcomes(entries@.subrange(0, k + 1)) =~= group_outcomes(entries@.subrange(0, k as int)).push(entries@[k as int].1));
                }
                k = k + 1;
            }
            let ghost before = r@;
            r.push(c);
            proof {
                assert(entries@.subrange(0, entries@.len() as int) =~= entries@);
                assert(clusters_view(r@) =~= clusters_view(before).push(c@));
                assert(m.subrange(0, i + 1).map_values(|g: (Seq<char>, Seq<(usize, Outcome)>)| group_outcomes(g.1))
                    =~= m.subrange(0, i as int).map_values(|g: (Seq<char>, Seq<(usize, Outcome)>)| group_outcomes(g.1)).push(group_outcomes(m[i as int].1)));
            }
            i = i + 1;
        }
        proof {
            assert(m.subrange(0, m.len() as int) =~= m);
            assert(groups@.len() == m.len());
        }
        push_lone(&mut r, self.baseline_wins, Outcome::BaselineWin);
        push_lone(&mut r, self.candidate_wins, Outcome::CandidateWin);
        push_lone(&mut r, self.draws, Outcome::Draw);
        r
    }
}

/// What one id (or one id-less record) contributes to a numeric metric: a
/// lone value, or the two values of a same-id pair.
#[derive(Debug, Clone, Copy)]
pub enum Observation<T> {
    Single(T),
    Pair(T, T),
}

/// The observation a held group of one or two values makes.
pub open spec fn group_observation<T>(entries: Seq<(usize, T)>) -> Observation<T> {
    if entries.len() == 1 {
        Observation::Single(entries[0].1)
    } else {
        Observation::Pair(entries[0].1, entries[1].1)
    }
}

/// Every held group as its observation, in order of first appearance.
pub open spec fn group_observations<T>(m: GroupsView<T>) -> Seq<Observation<T>> {
    Seq::new(m.len(), |i: int| group_observation(m[i].1))
}

/// `v` with each value a lone observation.
pub open spec fn single_observations<T>(v: Seq<T>) -> Seq<Observation<T>> {
    Seq::new(v.len(), |i: int| Observation::Single(v[i]))
}

/// A record with this id was already seen.
pub open spec fn seen_before(seen: Seq<Seq<char>>, id: Seq<char>) -> bool {
    seen.contains(id)
}

/// Numeric observations of one metric, with optional pairing by id. Without
/// pairing a repeated id is an error; with pairing, same-id values are held
/// until `finish` and records without an id count as they come.
pub struct ValueCollector<T> {
    paired_by_id: bool,
    seen_ids: Vec<String>,
    values: Vec<T>,
    groups: IdGroups<T>,
}

impl<T: Copy> ValueCollector<T> {
    pub closed spec fn paired(&self) -> bool {
        self.paired_by_id
    }

    /// Ids seen so far without pairing.
    pub closed spec fn seen(&self) -> Seq<Seq<char>> {
        self.seen_ids@.map_values(|s: String| s@)
    }

    /// Values counted as lone observations, in arrival order.
    pub closed spec fn values(&self) -> Seq<T> {
        self.values@
    }

    /// Values held by id for pairing.
    pub closed spec fn pending(&self) -> GroupsView<T> {
        self.groups.view()
    }

    pub closed spec fn wf(&self) -> bool {
        self.groups.wf()
    }

    pub fn new(paired_by_id: bool) -> (r: ValueCollector<T>)
        ensures
            r.wf(),
            r.paired() == paired_by_id,
            r.seen().len() == 0,
            r.values().len() == 0,
            r.pending().len() == 0,
    {
        let r = ValueCollector { paired_by_id, seen_ids: Vec::new(), values: Vec::new(), groups: IdGroups::new() };
        proof {
            assert(r.seen() =~= Seq::<Seq<char>>::empty());
        }
        r
    }

    /// Whether `id` was seen before, without pairing.
    fn seen_id(&self, id: &str) -> (r: bool)
        ensures
            r == seen_before(self.seen(), id@),
    {
        let mut i: usize = 0;
        while i < self.seen_ids.len()
            invariant
                0 <= i <= self.seen_ids@.len(),
                forall|j: int| 0 <= j < i ==> self.seen_ids@[j]@ != id@,
            decreases self.seen_ids@.len() - i,
        {
            if str_eq(self.seen_ids[i].as_str(), id) {
                proof {
                    assert(self.seen()[i as int] == id@);
                }
                return true;
            }
            i = i + 1;
        }
        proof {
            if self.seen().contains(id@) {
                let k = choose|k: int| 0 <= k < self.seen().len() && self.seen()[k] == id@;
                assert(self.seen_ids@[k]@ == id@);
            }
        }
        false
    }

    /// Takes `value`, read on `line` from a record with `id`. With pairing
    /// and an id it is held under the id; otherwise it is a lone
    /// observation, except that without pairing an id seen before is a
    /// `DuplicateId` error.
    pub fn record(&mut self, line: usize, id: Option<&str>, value: T) -> (r: Result<(), VeridictError>)
        requires
            old(self).wf(),
        ensures
            final(self).wf(),
            final(self).paired() == old(self).paired(),
            r is Err <==> !old(self).paired() && id is Some && seen_before(old(self).seen(), id->0@),
            r is Err ==> r->Err_0 is DuplicateId && r->Err_0->DuplicateId_id@ == id->0@ && r->Err_0->DuplicateId_line == line,
            r is Ok ==> match (old(self).paired(), id) {
                (true, Some(i)) => final(self).pending() == filed(old(self).pending(), i@, line, value)
                    && final(self).values() == old(self).values() && final(self).seen() == old(self).seen(),
                (false, Some(i)) => final(self).values() == old(self).values().push(value)
                    && final(self).seen() == old(self).seen().push(i@) && final(self).pending() == old(self).pending(),
                (_, None) => final(self).values() == old(self).values().push(value)
                    && final(self).seen() == old(self).seen() && final(self).pending() == old(self).pending(),
            },
    {
        match (self.paired_by_id, id) {
            (true, Some(i)) => {
                self.groups.add(i, line, value);
            },
            (false, Some(i)) => {
                if self.seen_id(i) {
                    return Err(VeridictError::DuplicateId { id: String::from_str(i), line });
                }
                let ghost old_seen = self.seen();
                self.seen_ids.push(String::from_str(i));
                self.values.push(value);
                proof {
                    assert(self.seen() =~= old_seen.push(i@));
                }
            },
            (_, None) => {
                self.values.push(value);
            },
        }
        Ok(())
    }

    /// The observations: lone values in arrival order, then each held id
    /// in order of first appearance (one value as itself, two as a pair).
    /// An id holding more than two values is an error, reported for the
    /// first such id.
    pub fn finish(self) -> (r: Result<Vec<Observation<T>>, VeridictError>)
        requires
            self.wf(),
        ensures
            r is Ok <==> forall|j: int| 0 <= j < self.pending().len() ==> self.pending()[j].1.len() <= 2,
            r is Ok ==> r->Ok_0@ == single_observations(self.values()) + group_observations(self.pending()),
            r is Err ==> reports_first_oversized(self.pending(), r->Err_0),
    {
        let ghost m = self.pending();
        let ghost vals = self.values();
        let values = self.values;
        let groups = self.groups.into_groups();
        let mut out: Vec<Observation<T>> = Vec::new();
        let mut i: usize = 0;
        while i < values.len()
            invariant
                vals == values@,
                0 <= i <= values@.len(),
                out@ == single_observations(vals.subrange(0, i as int)),
            decreases values@.len() - i,
        {
            out.push(Observation::Single(values[i]));
            proof {
                assert(out@ =~= single_observations(vals.subrange(0, i + 1)));
            }
            i = i + 1;
        }
        proof {
            assert(vals.subrange(0, vals.len() as int) =~= vals);
        }
        let ghost head = out@;
        let mut j: usize = 0;
        while j < groups.len()
            invariant
                0 <= j <= groups@.len(),
                groups@.len() == m.len(),
                m == self.pending(),
                forall|x: int| 0 <= x < m.len() ==> #[trigger] m[x] == (groups@[x].0@, groups@[x].1@),
                forall|x: int| 0 <= x < m.len() ==> m[x].1.len() > 0,
                forall|x: int| 0 <= x < j ==> m[x].1.len() <= 2,
                head == single_observations(vals),
                out@ == head + group_observations(m.subrange(0, j as int)),
            decreases groups@.len() - j,
        {
            let entries = &groups[j].1;
            proof {
                assert(m[j as int] == (groups@[j as int].0@, groups@[j as int].1@));
            }
            if entries.len() == 1 {
                out.push(Observation::Single(entries[0].1));
            } else if entries.len() == 2 {
                out.push(Observation::Pair(entries[0].1, entries[1].1));
            } else {
                let message = oversize_message(groups[j].0.as_str(), entries.len());
                let e = VeridictError::SchemaMismatch { line: entries[0].0, context: "paired-by-id", detail: message };
                proof {
                    assert(m[j as int].1.len() > 2);
                    assert(is_schema_mismatch(e, m[j as int].1[0].0, "paired-by-id"@, oversize_detail(m[j as int].0, m[j as int].1.len())));
                }
                return Err(e);
            }
            proof {
                assert(group_observations(m.subrange(0, j + 1)) =~= group_observations(m.subrange(0, j as int)).push(group_observation(m[j as int].1)));
                assert(out@ =~= head + group_observations(m.subrange(0, j + 1)));
            }
            j = j + 1;
        }
        proof {
            assert(m.subrange(0, m.len() as int) =~= m);
        }
        Ok(out)
    }
}

/// The order of a same-id pair's two records does not change what the pair
/// nets to.
pub proof fn law_netting_is_symmetric(a: Outcome, b: Outcome)
    ensures
        net_outcome(a, b) == net_outcome(b, a),
{
}

/// A draw paired with any game nets to that game; a win paired with a loss
/// nets to a draw; two games with the same result net to that result.
pub proof fn law_netting_by_points(a: Outcome)
    ensures
        net_outcome(Outcome::Draw, a) == a,
        net_outcome(Outcome::CandidateWin, Outcome::BaselineWin) == Outcome::Draw,
        net_outcome(a, a) == a,
{
}

/// Settling held groups adds exactly one observation per id: pairing turns
/// two records into one trial, never into zero or two.
pub proof fn law_settling_counts_one_per_id(c: (nat, nat, nat), m: GroupsView<Outcome>)
    ensures
        count_sum(settled(c, m)) == count_sum(c) + m.len(),
{
    lemma_settled_sum(c, m);
}

} // verus!
