//! Head-to-head tallies behind the comparison matrix: every competitor pair
//! keeps `(lo_wins, hi_wins, draws)` under its two names in `str` order, so
//! a pair seen as `(x, y)` or `(y, x)`, from a per-candidate file or a
//! `--matches` record, always lands on the same counts.
//!
//! Fragile bridges: two competitors can be connected in the observed games
//! only through a thin bridge (say one pair tied 1-1) that a bootstrap
//! resample often breaks. A matrix cell whose two competitors stay in one
//! component in too few resamples keeps its rating difference but gets no
//! interval, rather than a falsely narrow one.

use vstd::prelude::*;

use crate::text::{str_eq, str_le, str_le_spec};
use crate::error::{is_schema_mismatch, is_unrecognized_outcome, VeridictError};
use crate::pairing::{entry_count, filed, half_points, net_outcome, GroupsView, IdGroups};
use crate::text::{decimal, decimal_string};
use crate::graph::PairRecord;
use crate::{match_outcome_named, MatchOutcome, Outcome};

verus! {

/// One competitor pair's counts, `lo <= hi` in `str` order.
#[derive(Debug)]
pub struct Edge {
    pub lo: String,
    pub hi: String,
    pub lo_wins: u64,
    pub hi_wins: u64,
    pub draws: u64,
}

/// Abstract edge: `(lo, hi, (lo_wins, hi_wins, draws))`.
pub type EdgeView = (Seq<char>, Seq<char>, (nat, nat, nat));

/// Index of the entry keyed `(lo, hi)`, if any.
pub open spec fn key_index<X>(s: Seq<(Seq<char>, Seq<char>, X)>, lo: Seq<char>, hi: Seq<char>) -> Option<int>
    decreases s.len(),
{
    if s.len() == 0 {
        None
    } else if s[s.len() - 1].0 == lo && s[s.len() - 1].1 == hi {
        Some(s.len() - 1)
    } else {
        key_index(s.drop_last(), lo, hi)
    }
}

/// No two entries share a key.
pub open spec fn distinct_keys<X>(s: Seq<(Seq<char>, Seq<char>, X)>) -> bool {
    forall|a: int, b: int|
        0 <= a < b < s.len() ==> !(s[a].0 == s[b].0 && s[a].1 == s[b].1)
}

pub proof fn lemma_key_index<X>(s: Seq<(Seq<char>, Seq<char>, X)>, lo: Seq<char>, hi: Seq<char>)
    ensures
        match key_index(s, lo, hi) {
            Some(i) => 0 <= i < s.len() && s[i].0 == lo && s[i].1 == hi,
            None => forall|j: int| 0 <= j < s.len() ==> !(s[j].0 == lo && s[j].1 == hi),
        },
    decreases s.len(),
{
    if s.len() > 0 && !(s[s.len() - 1].0 == lo && s[s.len() - 1].1 == hi) {
        lemma_key_index(s.drop_last(), lo, hi);
        if key_index(s, lo, hi) is None {
            assert forall|j: int| 0 <= j < s.len() implies !(s[j].0 == lo && s[j].1 == hi) by {
                if j < s.len() - 1 {
                    assert(s.drop_last()[j] == s[j]);
                }
            }
        }
    }
}

/// With distinct keys, an entry holding the key is the one `key_index` finds.
pub proof fn lemma_key_index_at<X>(s: Seq<(Seq<char>, Seq<char>, X)>, i: int)
    requires
        distinct_keys(s),
        0 <= i < s.len(),
    ensures
        key_index(s, s[i].0, s[i].1) == Some(i),
{
    lemma_key_index(s, s[i].0, s[i].1);
    match key_index(s, s[i].0, s[i].1) {
        Some(j) => {
            if j < i {
                assert(!(s[j].0 == s[i].0 && s[j].1 == s[i].1));
            } else if j > i {
                assert(!(s[i].0 == s[j].0 && s[i].1 == s[j].1));
            }
        },
        None => {},
    }
}

/// Component-wise sum of two count triples.
pub open spec fn add3(c: (nat, nat, nat), d: (nat, nat, nat)) -> (nat, nat, nat) {
    (c.0 + d.0, c.1 + d.1, c.2 + d.2)
}

/// A count triple as naturals.
pub open spec fn counts_view(c: (u64, u64, u64)) -> (nat, nat, nat) {
    (c.0 as nat, c.1 as nat, c.2 as nat)
}

/// Games in a count triple.
pub open spec fn sum3(c: (nat, nat, nat)) -> nat {
    c.0 + c.1 + c.2
}

/// `s` after adding `d` to the counts keyed `(lo, hi)`; a new key starts
/// from zero.
pub open spec fn bumped_edge(s: Seq<EdgeView>, lo: Seq<char>, hi: Seq<char>, d: (nat, nat, nat)) -> Seq<EdgeView> {
    match key_index(s, lo, hi) {
        Some(i) => s.update(i, (lo, hi, add3(s[i].2, d))),
        None => s.push((lo, hi, d)),
    }
}

/// Games recorded across all edges.
pub open spec fn edge_total(s: Seq<EdgeView>) -> nat
    decreases s.len(),
{
    if s.len() == 0 {
        0
    } else {
        edge_total(s.drop_last()) + sum3(s[s.len() - 1].2)
    }
}

proof fn lemma_edge_total_update(s: Seq<EdgeView>, i: int, e: EdgeView)
    requires
        0 <= i < s.len(),
    ensures
        edge_total(s.update(i, e)) + sum3(s[i].2) == edge_total(s) + sum3(e.2),
    decreases s.len(),
{
    if i < s.len() - 1 {
        assert(s.update(i, e).drop_last() =~= s.drop_last().update(i, e));
        lemma_edge_total_update(s.drop_last(), i, e);
    } else {
        assert(s.update(i, e).drop_last() =~= s.drop_last());
    }
}

proof fn lemma_edge_total_ge(s: Seq<EdgeView>, i: int)
    requires
        0 <= i < s.len(),
    ensures
        sum3(s[i].2) <= edge_total(s),
    decreases s.len(),
{
    if i < s.len() - 1 {
        lemma_edge_total_ge(s.drop_last(), i);
    }
}

pub proof fn lemma_bumped_edge(s: Seq<EdgeView>, lo: Seq<char>, hi: Seq<char>, d: (nat, nat, nat))
    requires
        distinct_keys(s),
    ensures
        distinct_keys(bumped_edge(s, lo, hi, d)),
        edge_total(bumped_edge(s, lo, hi, d)) == edge_total(s) + sum3(d),
        bumped_edge(s, lo, hi, d).len() >= s.len(),
        forall|j: int| 0 <= j < s.len() ==> (#[trigger] bumped_edge(s, lo, hi, d)[j]).0 == s[j].0
            && bumped_edge(s, lo, hi, d)[j].1 == s[j].1,
        key_index(bumped_edge(s, lo, hi, d), lo, hi) is Some,
        forall|j: int| 0 <= j < bumped_edge(s, lo, hi, d).len() ==> (j < s.len() && (#[trigger] bumped_edge(s, lo, hi, d)[j]).0 == s[j].0
            && bumped_edge(s, lo, hi, d)[j].1 == s[j].1) || (bumped_edge(s, lo, hi, d)[j].0 == lo && bumped_edge(s, lo, hi, d)[j].1 == hi),
{
    lemma_key_index(s, lo, hi);
    let t = bumped_edge(s, lo, hi, d);
    match key_index(s, lo, hi) {
        Some(i) => {
            lemma_edge_total_update(s, i, (lo, hi, add3(s[i].2, d)));
            assert(distinct_keys(t)) by {
                assert forall|a: int, b: int| 0 <= a < b < t.len() implies !(t[a].0 == t[b].0 && t[a].1 == t[b].1) by {
                    assert(!(s[a].0 == s[b].0 && s[a].1 == s[b].1));
                }
            }
            lemma_key_index_at(t, i);
        },
        None => {
            assert(t.drop_last() =~= s);
            assert(distinct_keys(t));
            lemma_key_index_at(t, s.len() as int);
        },
    }
}

/// The two names in `str` order.
pub open spec fn canonical(a: Seq<char>, b: Seq<char>) -> (Seq<char>, Seq<char>) {
    if str_le_spec(a, b) {
        (a, b)
    } else {
        (b, a)
    }
}

/// `s` after merging `(x_wins, y_wins, draws)` for the pair `{x, y}`.
pub open spec fn with_wins(s: Seq<EdgeView>, x: Seq<char>, x_wins: nat, y: Seq<char>, y_wins: nat, draws: nat) -> Seq<EdgeView> {
    if str_le_spec(x, y) {
        bumped_edge(s, x, y, (x_wins, y_wins, draws))
    } else {
        bumped_edge(s, y, x, (y_wins, x_wins, draws))
    }
}

/// Counts per competitor pair, each pair once.
pub struct EdgeTable {
    edges: Vec<Edge>,
    total: u64,
}

pub open spec fn edge_view(e: Edge) -> EdgeView {
    (e.lo@, e.hi@, (e.lo_wins as nat, e.hi_wins as nat, e.draws as nat))
}

impl EdgeTable {
    pub closed spec fn view(&self) -> Seq<EdgeView> {
        self.edges@.map_values(|e: Edge| edge_view(e))
    }

    pub closed spec fn wf(&self) -> bool {
        &&& distinct_keys(self.view())
        &&& self.total as nat == edge_total(self.view())
    }

    pub fn new() -> (r: EdgeTable)
        ensures
            r.wf(),
            r.view().len() == 0,
    {
        EdgeTable { edges: Vec::new(), total: 0 }
    }

    /// Games recorded so far, over all pairs.
    pub fn total(&self) -> (r: u64)
        requires
            self.wf(),
        ensures
            r == edge_total(self.view()),
    {
        self.total
    }

    /// The edges, in the order their pairs were first seen.
    pub fn edges(&self) -> (r: &Vec<Edge>)
        ensures
            r@.map_values(|e: Edge| edge_view(e)) == self.view(),
    {
        &self.edges
    }

    /// Position of the edge keyed `(lo, hi)`.
    fn find(&self, lo: &str, hi: &str) -> (r: Option<usize>)
        requires
            self.wf(),
        ensures
            match r {
                Some(i) => key_index(self.view(), lo@, hi@) == Some(i as int),
                None => key_index(self.view(), lo@, hi@) is None,
            },
    {
        let ghost s = self.view();
        let mut i: usize = 0;
        while i < self.edges.len()
            invariant
                s == self.view(),
                self.wf(),
                0 <= i <= self.edges@.len(),
                forall|j: int| 0 <= j < i ==> !(s[j].0 == lo@ && s[j].1 == hi@),
            decreases self.edges@.len() - i,
        {
            if str_eq(self.edges[i].lo.as_str(), lo) && str_eq(self.edges[i].hi.as_str(), hi) {
                proof {
                    assert(s[i as int] == edge_view(self.edges@[i as int]));
                    lemma_key_index_at(s, i as int);
                }
                return Some(i);
            }
            proof {
                assert(s[i as int] == edge_view(self.edges@[i as int]));
            }
            i = i + 1;
        }
        proof {
            lemma_key_index(s, lo@, hi@);
            if key_index(s, lo@, hi@) is Some {
                let j = key_index(s, lo@, hi@)->0;
                assert(s[j].0 == lo@ && s[j].1 == hi@);
            }
        }
        None
    }

    /// The counts keyed `(lo, hi)`, if that pair has any.
    pub fn get(&self, lo: &str, hi: &str) -> (r: Option<(u64, u64, u64)>)
        requires
            self.wf(),
        ensures
            match key_index(self.view(), lo@, hi@) {
                Some(i) => r is Some && counts_view(r->0) == self.view()[i].2,
                None => r is None,
            },
    {
        match self.find(lo, hi) {
            Some(i) => {
                proof {
                    lemma_key_index(self.view(), lo@, hi@);
                    assert(self.view()[i as int] == edge_view(self.edges@[i as int]));
                }
                Some((self.edges[i].lo_wins, self.edges[i].hi_wins, self.edges[i].draws))
            },
            None => None,
        }
    }

    /// Adds `(d0, d1, d2)` to the pair keyed `(lo, hi)`.
    fn bump(&mut self, lo: &str, hi: &str, d0: u64, d1: u64, d2: u64)
        requires
            old(self).wf(),
            edge_total(old(self).view()) + d0 + d1 + d2 <= u64::MAX,
        ensures
            final(self).wf(),
            final(self).view() == bumped_edge(old(self).view(), lo@, hi@, (d0 as nat, d1 as nat, d2 as nat)),
    {
        let ghost s = self.view();
        let ghost d = (d0 as nat, d1 as nat, d2 as nat);
        proof {
            lemma_bumped_edge(s, lo@, hi@, d);
            lemma_key_index(s, lo@, hi@);
        }
        match self.find(lo, hi) {
            Some(i) => {
                proof {
                    assert(s[i as int] == edge_view(self.edges@[i as int]));
                    lemma_edge_total_ge(s, i as int);
                    lemma_edge_total_update(s, i as int, (lo@, hi@, add3(s[i as int].2, d)));
                }
                let lw = self.edges[i].lo_wins + d0;
                let hw = self.edges[i].hi_wins + d1;
                let dr = self.edges[i].draws + d2;
                let e = Edge { lo: String::from_str(lo), hi: String::from_str(hi), lo_wins: lw, hi_wins: hw, draws: dr };
                self.edges.set(i, e);
                self.total = self.total + d0 + d1 + d2;
                proof {
                    assert(self.view() =~= bumped_edge(s, lo@, hi@, d));
                }
            },
            None => {
                let e = Edge { lo: String::from_str(lo), hi: String::from_str(hi), lo_wins: d0, hi_wins: d1, draws: d2 };
                self.edges.push(e);
                self.total = self.total + d0 + d1 + d2;
                proof {
                    assert(self.view() =~= bumped_edge(s, lo@, hi@, d));
                }
            },
        }
    }
}

/// Merges `(x_wins, y_wins, draws)` for the pair `{x, y}` into `edges`,
/// under the two names in `str` order, so that the pair lands in one entry
/// whichever way round it is given.
pub fn add_wins(edges: &mut EdgeTable, x: &str, x_wins: u64, y: &str, y_wins: u64, draws: u64)
    requires
        old(edges).wf(),
        edge_total(old(edges).view()) + x_wins + y_wins + draws <= u64::MAX,
    ensures
        final(edges).wf(),
        final(edges).view() == with_wins(old(edges).view(), x@, x_wins as nat, y@, y_wins as nat, draws as nat),
{
    if str_le(x, y) {
        edges.bump(x, y, x_wins, y_wins, draws);
    } else {
        edges.bump(y, x, y_wins, x_wins, draws);
    }
}

/// The two names in `str` order.
pub fn canonical_pair(a: &str, b: &str) -> (r: (String, String))
    ensures
        (r.0@, r.1@) == canonical(a@, b@),
{
    if str_le(a, b) {
        (String::from_str(a), String::from_str(b))
    } else {
        (String::from_str(b), String::from_str(a))
    }
}

/// The candidate-side half points of a game between `a` and `b` for the
/// name that sorts second: a win is 2, a draw 1, a loss 0.
pub open spec fn points_to_hi(a: Seq<char>, b: Seq<char>, outcome: MatchOutcome) -> nat {
    let points_a: nat = match outcome {
        MatchOutcome::AWin => 2,
        MatchOutcome::Draw => 1,
        MatchOutcome::BWin => 0,
    };
    if str_le_spec(a, b) {
        (2 - points_a) as nat
    } else {
        points_a
    }
}

/// Resolves `outcome`, stated for `a` against `b`, into `(lo, hi,
/// points_to_hi)`: the two names in `str` order and the half points (2, 1
/// or 0) the second of them scored.
pub fn canonicalize_outcome(a: &str, b: &str, outcome: MatchOutcome) -> (r: (String, String, u8))
    ensures
        (r.0@, r.1@) == canonical(a@, b@),
        r.2 as nat == points_to_hi(a@, b@, outcome),
{
    let points_a: u8 = match outcome {
        MatchOutcome::AWin => 2,
        MatchOutcome::Draw => 1,
        MatchOutcome::BWin => 0,
    };
    if str_le(a, b) {
        (String::from_str(a), String::from_str(b), 2 - points_a)
    } else {
        (String::from_str(b), String::from_str(a), points_a)
    }
}

/// The count a single game adds, by the half points the second name
/// scored: more than one point is its win, less is the first name's win,
/// exactly one is a draw.
pub open spec fn point_delta(points: nat) -> (nat, nat, nat) {
    if points > 1 {
        (0, 1, 0)
    } else if points < 1 {
        (1, 0, 0)
    } else {
        (0, 0, 1)
    }
}

/// Counts one game between `lo` and `hi` in which `hi` scored
/// `points_to_hi` half points.
pub fn tally_points(edges: &mut EdgeTable, lo: &str, hi: &str, points_to_hi: u8)
    requires
        old(edges).wf(),
        edge_total(old(edges).view()) < u64::MAX,
    ensures
        final(edges).wf(),
        final(edges).view() == bumped_edge(old(edges).view(), lo@, hi@, point_delta(points_to_hi as nat)),
{
    if points_to_hi > 1 {
        edges.bump(lo, hi, 0, 1, 0);
    } else if points_to_hi < 1 {
        edges.bump(lo, hi, 1, 0, 0);
    } else {
        edges.bump(lo, hi, 0, 0, 1);
    }
}

/// What edge `e` adds to `name`'s `(wins, draws, games)`.
pub open spec fn node_share(e: EdgeView, name: Seq<char>) -> (nat, nat, nat) {
    let c = e.2;
    if e.0 == name {
        (c.0, c.2, sum3(c))
    } else if e.1 == name {
        (c.1, c.2, sum3(c))
    } else {
        (0, 0, 0)
    }
}

/// `name`'s `(wins, draws, games)` summed over every edge it is part of.
pub open spec fn node_sum(s: Seq<EdgeView>, name: Seq<char>) -> (nat, nat, nat)
    decreases s.len(),
{
    if s.len() == 0 {
        (0, 0, 0)
    } else {
        add3(node_sum(s.drop_last(), name), node_share(s[s.len() - 1], name))
    }
}

proof fn lemma_node_sum_bounded(s: Seq<EdgeView>, name: Seq<char>)
    ensures
        node_sum(s, name).0 <= node_sum(s, name).2,
        node_sum(s, name).1 <= node_sum(s, name).2,
        node_sum(s, name).2 <= edge_total(s),
    decreases s.len(),
{
    if s.len() > 0 {
        lemma_node_sum_bounded(s.drop_last(), name);
    }
}

proof fn lemma_edge_total_prefix(s: Seq<EdgeView>, i: int)
    requires
        0 <= i <= s.len(),
    ensures
        edge_total(s.subrange(0, i)) <= edge_total(s),
    decreases s.len() - i,
{
    if i < s.len() {
        assert(s.subrange(0, i + 1).drop_last() =~= s.subrange(0, i));
        lemma_edge_total_prefix(s, i + 1);
    } else {
        assert(s.subrange(0, i) =~= s);
    }
}

/// `name`'s own `(wins, draws, games)` across every pair it plays in.
pub fn node_totals(name: &str, edges: &EdgeTable) -> (r: (u64, u64, u64))
    requires
        edges.wf(),
    ensures
        counts_view(r) == node_sum(edges.view(), name@),
{
    let ghost s = edges.view();
    let list = edges.edges();
    let mut wins: u64 = 0;
    let mut draws: u64 = 0;
    let mut n: u64 = 0;
    let mut i: usize = 0;
    while i < list.len()
        invariant
            s == edges.view(),
            list@.map_values(|e: Edge| edge_view(e)) == s,
            edges.wf(),
            0 <= i <= list@.len(),
            (wins as nat, draws as nat, n as nat) == node_sum(s.subrange(0, i as int), name@),
        decreases list@.len() - i,
    {
        proof {
            assert(s.subrange(0, i + 1).drop_last() =~= s.subrange(0, i as int));
            assert(s[i as int] == edge_view(list@[i as int]));
            lemma_node_sum_bounded(s.subrange(0, i + 1), name@);
            lemma_edge_total_prefix(s, i + 1);
            assert(edge_total(s) <= u64::MAX);
        }
        let e = &list[i];
        if str_eq(e.lo.as_str(), name) {
            wins = wins + e.lo_wins;
            draws = draws + e.draws;
            n = n + e.lo_wins + e.hi_wins + e.draws;
        } else if str_eq(e.hi.as_str(), name) {
            wins = wins + e.hi_wins;
            draws = draws + e.draws;
            n = n + e.lo_wins + e.hi_wins + e.draws;
        }
        i = i + 1;
    }
    proof {
        assert(s.subrange(0, s.len() as int) =~= s);
    }
    (wins, draws, n)
}

/// The name every per-candidate file is measured against.
pub open spec fn baseline_name() -> Seq<char> {
    "baseline"@
}

/// `name` is the baseline or one of `order`.
pub open spec fn known(order: Seq<Seq<char>>, name: Seq<char>) -> bool {
    name == baseline_name() || order.contains(name)
}

/// Every name keyed in `s` is known to `order`.
pub open spec fn covers<X>(order: Seq<Seq<char>>, s: Seq<(Seq<char>, Seq<char>, X)>) -> bool {
    forall|i: int| 0 <= i < s.len() ==> known(order, #[trigger] s[i].0) && known(order, s[i].1)
}

/// `order` after meeting `name` in a match record: a competitor other than
/// the baseline joins at the end the first time it is seen.
pub open spec fn introduced(order: Seq<Seq<char>>, name: Seq<char>) -> Seq<Seq<char>> {
    if known(order, name) {
        order
    } else {
        order.push(name)
    }
}

/// Same-id games of one pair, held for netting: `(lo, hi, groups)`, each
/// game stored as the half points `hi` scored.
pub type HeldView = (Seq<char>, Seq<char>, GroupsView<u8>);

struct HeldPair {
    lo: String,
    hi: String,
    groups: IdGroups<u8>,
}

spec fn held_view(p: HeldPair) -> HeldView {
    (p.lo@, p.hi@, p.groups.view())
}

/// `h` after holding a game of `(lo, hi)` with id `id`.
pub open spec fn held(h: Seq<HeldView>, lo: Seq<char>, hi: Seq<char>, id: Seq<char>, line: usize, points: u8) -> Seq<HeldView> {
    match key_index(h, lo, hi) {
        Some(i) => h.update(i, (lo, hi, filed(h[i].2, id, line, points))),
        None => h.push((lo, hi, seq![(id, seq![(line, points)])])),
    }
}

/// Games held over all pairs.
pub open spec fn held_entries(h: Seq<HeldView>) -> nat
    decreases h.len(),
{
    if h.len() == 0 {
        0
    } else {
        held_entries(h.drop_last()) + entry_count(h[h.len() - 1].2)
    }
}

/// The half points a group of one or two same-id games nets to: a lone game
/// as itself; a pair as a win for whoever scored more than one point over
/// the two, or a draw at exactly one point.
pub open spec fn net_points(entries: Seq<(usize, u8)>) -> nat {
    if entries.len() == 1 {
        entries[0].1 as nat
    } else {
        let t = entries[0].1 + entries[1].1;
        if t > 2 {
            2
        } else if t < 2 {
            0
        } else {
            1
        }
    }
}

/// `s` after counting each group of `g` as one game of `(lo, hi)`.
pub open spec fn settle_groups(s: Seq<EdgeView>, lo: Seq<char>, hi: Seq<char>, g: GroupsView<u8>) -> Seq<EdgeView>
    decreases g.len(),
{
    if g.len() == 0 {
        s
    } else {
        bumped_edge(settle_groups(s, lo, hi, g.drop_last()), lo, hi, point_delta(net_points(g[g.len() - 1].1)))
    }
}

/// The game a lone game or a same-id pair of games between `lo` and `hi`
/// settles into, `p1` and `p2` being the half points `hi` scored in each:
/// a pair is a win for `hi` when `hi` scored more than half of the two
/// games' points, a win for `lo` when it scored less, a draw at exactly
/// half; a lone game counts as itself. Settling adds that one game to the
/// pair's counts and nothing else, and the pair nets exactly as
/// `--paired-by-id` nets two win/loss/draw records of one id.
pub proof fn law_same_id_games_net_by_points(
    s: Seq<EdgeView>,
    lo: Seq<char>,
    hi: Seq<char>,
    id: Seq<char>,
    l1: usize,
    p1: u8,
    l2: usize,
    p2: u8,
    o1: Outcome,
    o2: Outcome,
)
    requires
        p1 <= 2,
        p2 <= 2,
    ensures
        settle_groups(s, lo, hi, seq![(id, seq![(l1, p1), (l2, p2)])]) == bumped_edge(s, lo, hi,
            if p1 + p2 > 2 { (0nat, 1nat, 0nat) } else if p1 + p2 < 2 { (1nat, 0nat, 0nat) } else { (0nat, 0nat, 1nat) }),
        settle_groups(s, lo, hi, seq![(id, seq![(l1, p1)])]) == bumped_edge(s, lo, hi,
            if p1 == 2 { (0nat, 1nat, 0nat) } else if p1 == 0 { (1nat, 0nat, 0nat) } else { (0nat, 0nat, 1nat) }),
        half_points(o1) == p1 && half_points(o2) == p2 ==> settle_groups(s, lo, hi, seq![(id, seq![(l1, p1), (l2, p2)])])
            == bumped_edge(s, lo, hi, match net_outcome(o1, o2) {
                Outcome::CandidateWin => (0nat, 1nat, 0nat),
                Outcome::BaselineWin => (1nat, 0nat, 0nat),
                Outcome::Draw => (0nat, 0nat, 1nat),
            }),
{
    let g2: GroupsView<u8> = seq![(id, seq![(l1, p1), (l2, p2)])];
    let g1: GroupsView<u8> = seq![(id, seq![(l1, p1)])];
    assert(g2.drop_last() =~= Seq::<(Seq<char>, Seq<(usize, u8)>)>::empty());
    assert(g1.drop_last() =~= Seq::<(Seq<char>, Seq<(usize, u8)>)>::empty());
    assert(settle_groups(s, lo, hi, g2.drop_last()) == s);
    assert(settle_groups(s, lo, hi, g1.drop_last()) == s);
    assert(g2[0].1.len() == 2);
    assert(g1[0].1.len() == 1);
    assert(g2[0].1[0].1 == p1 && g2[0].1[1].1 == p2);
    assert(g1[0].1[0].1 == p1);
}

/// `s` after settling every held pair, in order.
pub open spec fn settle_held(s: Seq<EdgeView>, h: Seq<HeldView>) -> Seq<EdgeView>
    decreases h.len(),
{
    if h.len() == 0 {
        s
    } else {
        let p = h[h.len() - 1];
        settle_groups(settle_held(s, h.drop_last()), p.0, p.1, p.2)
    }
}

/// No held id has more than two games.
pub open spec fn all_small(h: Seq<HeldView>) -> bool {
    forall|p: int, g: int| 0 <= p < h.len() && 0 <= g < h[p].2.len() ==> #[trigger] h[p].2[g].1.len() <= 2
}

/// Error detail for an id seen more than twice for one pair.
pub open spec fn pair_crowd_detail(id: Seq<char>, count: nat, lo: Seq<char>, hi: Seq<char>) -> Seq<char> {
    "id '"@ + id + "' appears "@ + decimal(count) + " times for pair ("@ + lo + ", "@ + hi
        + "); paired mode expects at most 2 records per id per pair"@
}

/// `e` reports the first held id (pairs in order, ids in order within a
/// pair) with more than two games.
pub open spec fn reports_first_crowded(h: Seq<HeldView>, e: VeridictError) -> bool {
    exists|p: int, g: int|
        #![trigger h[p].2[g]]
        0 <= p < h.len() && 0 <= g < h[p].2.len() && h[p].2[g].1.len() > 2
            && (forall|q: int, k: int| 0 <= q < p && 0 <= k < h[q].2.len() ==> #[trigger] h[q].2[k].1.len() <= 2)
            && (forall|k: int| 0 <= k < g ==> #[trigger] h[p].2[k].1.len() <= 2)
            && is_schema_mismatch(e, h[p].2[g].1[0].0, "paired-by-id"@, pair_crowd_detail(h[p].2[g].0, h[p].2[g].1.len(), h[p].0, h[p].1))
}

/// Error detail for a match record with an empty name.
pub open spec fn empty_name_detail() -> Seq<char> {
    "a and b must both be non-empty competitor names"@
}

/// Error detail for a match record of a competitor against itself.
pub open spec fn self_play_detail(name: Seq<char>) -> Seq<char> {
    "a and b are both '"@ + name + "'; a competitor can't play itself"@
}

/// The expected spellings of a match result.
pub open spec fn match_choices() -> Seq<char> {
    "a_win|b_win|draw"@
}

/// The pair graph of a comparison matrix as records come in: per-candidate
/// files contribute their counts against the baseline, match records a game
/// each (or, with pairing by id, a game held until the pair's same-id
/// records can be netted).
pub struct MatrixTally {
    paired_by_id: bool,
    edges: EdgeTable,
    order: Vec<String>,
    held: Vec<HeldPair>,
    held_count: u64,
}

/// A finished tally: the pair counts and the competitors in order of
/// appearance (per-candidate files first).
pub struct MatrixGraph {
    pub edges: EdgeTable,
    pub order: Vec<String>,
}

pub open spec fn names_view(v: Seq<String>) -> Seq<Seq<char>> {
    v.map_values(|s: String| s@)
}

impl MatrixGraph {
    /// Well formed, and every edge's names are the baseline or in `order`.
    pub open spec fn wf(&self) -> bool {
        &&& self.edges.wf()
        &&& covers(names_view(self.order@), self.edges.view())
    }
}

impl MatrixTally {
    pub closed spec fn paired(&self) -> bool {
        self.paired_by_id
    }

    pub closed spec fn edges(&self) -> Seq<EdgeView> {
        self.edges.view()
    }

    /// Competitors other than the baseline, in order of first appearance.
    pub closed spec fn order(&self) -> Seq<Seq<char>> {
        names_view(self.order@)
    }

    /// Games held for netting by id.
    pub closed spec fn held(&self) -> Seq<HeldView> {
        self.held@.map_values(|p: HeldPair| held_view(p))
    }

    pub closed spec fn wf(&self) -> bool {
        &&& self.edges.wf()
        &&& distinct_keys(self.held())
        &&& forall|i: int| 0 <= i < self.held@.len() ==> (#[trigger] self.held@[i]).groups.wf()
        &&& self.held_count as nat == held_entries(self.held())
        &&& edge_total(self.edges()) + held_entries(self.held()) <= u64::MAX
        &&& covers(self.order(), self.edges())
        &&& covers(self.order(), self.held())
    }

    /// Games counted or held so far.
    pub open spec fn games(&self) -> nat {
        edge_total(self.edges()) + held_entries(self.held())
    }

    pub fn new(paired_by_id: bool) -> (r: MatrixTally)
        ensures
            r.wf(),
            r.paired() == paired_by_id,
            r.edges().len() == 0,
            r.order().len() == 0,
            r.held().len() == 0,
    {
        let r = MatrixTally {
            paired_by_id,
            edges: EdgeTable::new(),
            order: Vec::new(),
            held: Vec::new(),
            held_count: 0,
        };
        proof {
            assert(r.order() =~= Seq::<Seq<char>>::empty());
            assert(r.held() =~= Seq::<HeldView>::empty());
        }
        r
    }

    /// Games counted or held so far.
    pub fn game_count(&self) -> (r: u64)
        requires
            self.wf(),
        ensures
            r == self.games(),
    {
        self.edges.total() + self.held_count
    }
}

/// Draws implied by a per-candidate summary: the games that were neither
/// side's win (zero if the counts say otherwise).
pub open spec fn legacy_draws(baseline_count: nat, candidate_count: nat, paired_count: nat) -> nat {
    if paired_count >= baseline_count + candidate_count {
        (paired_count - baseline_count - candidate_count) as nat
    } else {
        0
    }
}

proof fn lemma_covers_bumped(order: Seq<Seq<char>>, s: Seq<EdgeView>, lo: Seq<char>, hi: Seq<char>, d: (nat, nat, nat))
    requires
        distinct_keys(s),
        covers(order, s),
        known(order, lo),
        known(order, hi),
    ensures
        covers(order, bumped_edge(s, lo, hi, d)),
{
    lemma_bumped_edge(s, lo, hi, d);
    let t = bumped_edge(s, lo, hi, d);
    assert forall|i: int| 0 <= i < t.len() implies known(order, #[trigger] t[i].0) && known(order, t[i].1) by {
        if i < s.len() && t[i].0 == s[i].0 && t[i].1 == s[i].1 {
            assert(known(order, s[i].0));
        }
    }
}

proof fn lemma_covers_grow<X>(order: Seq<Seq<char>>, name: Seq<char>, s: Seq<(Seq<char>, Seq<char>, X)>)
    requires
        covers(order, s),
    ensures
        covers(introduced(order, name), s),
        covers(order.push(name), s),
{
    assert forall|i: int| 0 <= i < s.len() implies known(introduced(order, name), #[trigger] s[i].0) && known(introduced(order, name), s[i].1) by {
        assert(known(order, s[i].0));
        assert(known(order, s[i].1));
        if order.contains(s[i].0) {
            let k = choose|k: int| 0 <= k < order.len() && order[k] == s[i].0;
            assert(order.push(name)[k] == s[i].0);
        }
        if order.contains(s[i].1) {
            let k = choose|k: int| 0 <= k < order.len() && order[k] == s[i].1;
            assert(order.push(name)[k] == s[i].1);
        }
    }
    assert forall|i: int| 0 <= i < s.len() implies known(order.push(name), #[trigger] s[i].0) && known(order.push(name), s[i].1) by {
        assert(known(order, s[i].0));
        assert(known(order, s[i].1));
        if order.contains(s[i].0) {
            let k = choose|k: int| 0 <= k < order.len() && order[k] == s[i].0;
            assert(order.push(name)[k] == s[i].0);
        }
        if order.contains(s[i].1) {
            let k = choose|k: int| 0 <= k < order.len() && order[k] == s[i].1;
            assert(order.push(name)[k] == s[i].1);
        }
    }
}

proof fn lemma_held_entries_update(h: Seq<HeldView>, i: int, x: HeldView)
    requires
        0 <= i < h.len(),
    ensures
        held_entries(h.update(i, x)) + entry_count(h[i].2) == held_entries(h) + entry_count(x.2),
    decreases h.len(),
{
    if i < h.len() - 1 {
        assert(h.update(i, x).drop_last() =~= h.drop_last().update(i, x));
        lemma_held_entries_update(h.drop_last(), i, x);
    } else {
        assert(h.update(i, x).drop_last() =~= h.drop_last());
    }
}

proof fn lemma_held_entries_prefix(h: Seq<HeldView>, i: int)
    requires
        0 <= i <= h.len(),
    ensures
        held_entries(h.subrange(0, i)) <= held_entries(h),
        i < h.len() ==> held_entries(h.subrange(0, i + 1)) == held_entries(h.subrange(0, i)) + entry_count(h[i].2),
    decreases h.len() - i,
{
    if i < h.len() {
        assert(h.subrange(0, i + 1).drop_last() =~= h.subrange(0, i));
        lemma_held_entries_prefix(h, i + 1);
    } else {
        assert(h.subrange(0, i) =~= h);
    }
}

impl MatrixTally {
    /// Whether `name` is the baseline or already in the order.
    fn known_name(&self, name: &str) -> (r: bool)
        ensures
            r == known(self.order(), name@),
    {
        proof {
            reveal_strlit("baseline");
        }
        if str_eq(name, "baseline") {
            return true;
        }
        let mut i: usize = 0;
        while i < self.order.len()
            invariant
                0 <= i <= self.order@.len(),
                name@ != baseline_name(),
                forall|j: int| 0 <= j < i ==> self.order@[j]@ != name@,
            decreases self.order@.len() - i,
        {
            if str_eq(self.order[i].as_str(), name) {
                proof {
                    assert(self.order()[i as int] == name@);
                }
                return true;
            }
            i = i + 1;
        }
        proof {
            if self.order().contains(name@) {
                let k = choose|k: int| 0 <= k < self.order().len() && self.order()[k] == name@;
                assert(self.order@[k]@ == name@);
            }
        }
        false
    }

    /// Adds `name` to the order the first time a match record names it.
    fn introduce(&mut self, name: &str)
        requires
            old(self).wf(),
        ensures
            final(self).wf(),
            final(self).order() == introduced(old(self).order(), name@),
            final(self).edges() == old(self).edges(),
            final(self).held() == old(self).held(),
            final(self).paired() == old(self).paired(),
    {
        if !self.known_name(name) {
            let ghost o = self.order();
            proof {
                lemma_covers_grow(o, name@, self.edges());
                lemma_covers_grow(o, name@, self.held());
            }
            self.order.push(String::from_str(name));
            proof {
                assert(self.order() =~= o.push(name@));
            }
        }
    }

    /// Counts a per-candidate file's summary against the baseline:
    /// `baseline_count` baseline wins, `candidate_count` candidate wins and
    /// the remaining games of `paired_count` as draws; `name` joins the
    /// order.
    pub fn add_legacy(&mut self, name: &str, baseline_count: u64, candidate_count: u64, paired_count: u64)
        requires
            old(self).wf(),
            old(self).games() + baseline_count + candidate_count
                + legacy_draws(baseline_count as nat, candidate_count as nat, paired_count as nat) <= u64::MAX,
        ensures
            final(self).wf(),
            final(self).paired() == old(self).paired(),
            final(self).edges() == with_wins(old(self).edges(), baseline_name(), baseline_count as nat, name@,
                candidate_count as nat, legacy_draws(baseline_count as nat, candidate_count as nat, paired_count as nat)),
            final(self).order() == old(self).order().push(name@),
            final(self).held() == old(self).held(),
    {
        let draws: u64 = if paired_count >= baseline_count && paired_count - baseline_count >= candidate_count {
            paired_count - baseline_count - candidate_count
        } else {
            0
        };
        let ghost o = self.order();
        proof {
            reveal_strlit("baseline");
            lemma_covers_grow(o, name@, self.edges());
            lemma_covers_grow(o, name@, self.held());
        }
        self.order.push(String::from_str(name));
        proof {
            assert(self.order() =~= o.push(name@));
            assert(self.order()[o.len() as int] == name@);
            assert(known(self.order(), name@));
            assert(known(self.order(), baseline_name()));
            lemma_covers_bumped(self.order(), self.edges(), baseline_name(), name@, (baseline_count as nat, candidate_count as nat, draws as nat));
            lemma_covers_bumped(self.order(), self.edges(), name@, baseline_name(), (candidate_count as nat, baseline_count as nat, draws as nat));
            lemma_bumped_edge(self.edges(), baseline_name(), name@, (baseline_count as nat, candidate_count as nat, draws as nat));
            lemma_bumped_edge(self.edges(), name@, baseline_name(), (candidate_count as nat, baseline_count as nat, draws as nat));
        }
        add_wins(&mut self.edges, "baseline", baseline_count, name, candidate_count, draws);
    }

    /// Position of the held pair keyed `(lo, hi)`.
    fn find_held(&self, lo: &str, hi: &str) -> (r: Option<usize>)
        requires
            self.wf(),
        ensures
            match r {
                Some(i) => key_index(self.held(), lo@, hi@) == Some(i as int),
                None => key_index(self.held(), lo@, hi@) is None,
            },
    {
        let ghost h = self.held();
        let mut i: usize = 0;
        while i < self.held.len()
            invariant
                h == self.held(),
                self.wf(),
                0 <= i <= self.held@.len(),
                forall|j: int| 0 <= j < i ==> !(h[j].0 == lo@ && h[j].1 == hi@),
            decreases self.held@.len() - i,
        {
            proof {
                assert(h[i as int] == held_view(self.held@[i as int]));
            }
            if str_eq(self.held[i].lo.as_str(), lo) && str_eq(self.held[i].hi.as_str(), hi) {
                proof {
                    lemma_key_index_at(h, i as int);
                }
                return Some(i);
            }
            i = i + 1;
        }
        proof {
            lemma_key_index(h, lo@, hi@);
            if key_index(h, lo@, hi@) is Some {
                let j = key_index(h, lo@, hi@)->0;
                assert(h[j].0 == lo@ && h[j].1 == hi@);
            }
        }
        None
    }

    /// Holds a game of `(lo, hi)` with id `id` for netting.
    fn hold(&mut self, lo: &str, hi: &str, id: &str, line: usize, points: u8)
        requires
            old(self).wf(),
            old(self).games() < u64::MAX,
            known(old(self).order(), lo@),
            known(old(self).order(), hi@),
        ensures
            final(self).wf(),
            final(self).held() == held(old(self).held(), lo@, hi@, id@, line, points),
            final(self).edges() == old(self).edges(),
            final(self).order() == old(self).order(),
            final(self).paired() == old(self).paired(),
            final(self).games() == old(self).games() + 1,
    {
        let ghost h = self.held();
        proof {
            lemma_key_index(h, lo@, hi@);
        }
        match self.find_held(lo, hi) {
            Some(i) => {
                let ghost old_held = self.held@;
                proof {
                    assert(h[i as int] == held_view(self.held@[i as int]));
                    assert(self.held@[i as int].groups.wf());
                }
                self.held[i].groups.add(id, line, points);
                self.held_count = self.held_count + 1;
                proof {
                    let x = (lo@, hi@, filed(h[i as int].2, id@, line, points));
                    assert(self.held() =~= h.update(i as int, x));
                    lemma_held_entries_update(h, i as int, x);
                    assert forall|k: int| 0 <= k < self.held@.len() implies (#[trigger] self.held@[k]).groups.wf() by {
                        if k != i {
                            assert(self.held@[k] == old_held[k]);
                        }
                    }
                    assert(distinct_keys(self.held())) by {
                        assert forall|a: int, b: int| 0 <= a < b < self.held().len() implies !(self.held()[a].0 == self.held()[b].0 && self.held()[a].1 == self.held()[b].1) by {
                            assert(!(h[a].0 == h[b].0 && h[a].1 == h[b].1));
                        }
                    }
                    assert(covers(self.order(), self.held())) by {
                        assert forall|k: int| 0 <= k < self.held().len() implies known(self.order(), #[trigger] self.held()[k].0) && known(self.order(), self.held()[k].1) by {
                            assert(known(self.order(), h[k].0));
                        }
                    }
                }
            },
            None => {
                let mut groups: IdGroups<u8> = IdGroups::new();
                proof {
                    assert(groups.view() =~= Seq::<(Seq<char>, Seq<(usize, u8)>)>::empty());
                }
                groups.add(id, line, points);
                let ghost old_held = self.held@;
                self.held.push(HeldPair { lo: String::from_str(lo), hi: String::from_str(hi), groups });
                self.held_count = self.held_count + 1;
                proof {
                    let x = (lo@, hi@, seq![(id@, seq![(line, points)])]);
                    assert(filed(Seq::<(Seq<char>, Seq<(usize, u8)>)>::empty(), id@, line, points) =~= seq![(id@, seq![(line, points)])]);
                    assert(self.held() =~= h.push(x));
                    assert(self.held().drop_last() =~= h);
                    assert(entry_count(x.2) == 1) by {
                        assert(x.2.drop_last() =~= Seq::<(Seq<char>, Seq<(usize, u8)>)>::empty());
                        assert(entry_count(x.2.drop_last()) == 0);
                    }
                    assert forall|k: int| 0 <= k < self.held@.len() implies (#[trigger] self.held@[k]).groups.wf() by {
                        if k < old_held.len() {
                            assert(self.held@[k] == old_held[k]);
                        }
                    }
                    assert(covers(self.order(), self.held())) by {
                        assert forall|k: int| 0 <= k < self.held().len() implies known(self.order(), #[trigger] self.held()[k].0) && known(self.order(), self.held()[k].1) by {
                            if k < h.len() {
                                assert(known(self.order(), h[k].0));
                            }
                        }
                    }
                }
            },
        }
    }
}

fn self_play_message(name: &str) -> (s: String)
    ensures
        s@ == self_play_detail(name@),
{
    let s = String::from_str("a and b are both '");
    let s = s.concat(name);
    s.concat("'; a competitor can't play itself")
}

impl MatrixTally {
    /// Reads one match record: `a` against `b` with `result` stated for
    /// `a`. Both names must be non-empty and different; each joins the order
    /// when first seen; the result must be `a_win`, `b_win` or `draw`. The
    /// game is counted for its pair at once, or, with pairing by id and an
    /// id present, held under the pair and the id until `finish`.
    pub fn record(&mut self, line: usize, a: &str, b: &str, result: &str, id: Option<&str>) -> (r: Result<(), VeridictError>)
        requires
            old(self).wf(),
            old(self).games() < u64::MAX,
        ensures
            final(self).wf(),
            r is Ok <==> (a@.len() > 0 && b@.len() > 0 && a@ != b@ && match_outcome_named(result@) is Some),
            a@.len() == 0 || b@.len() == 0 ==> r is Err && is_schema_mismatch(r->Err_0, line, "matrix graph"@, empty_name_detail()),
            a@.len() > 0 && b@.len() > 0 && a@ == b@ ==> r is Err && is_schema_mismatch(r->Err_0, line, "matrix graph"@, self_play_detail(a@)),
            a@.len() > 0 && b@.len() > 0 && a@ != b@ && match_outcome_named(result@) is None ==> r is Err
                && is_unrecognized_outcome(r->Err_0, line, result@, match_choices()),
            r is Ok ==> {
                let o = match_outcome_named(result@)->0;
                let lo = canonical(a@, b@).0;
                let hi = canonical(a@, b@).1;
                let p = points_to_hi(a@, b@, o);
                &&& final(self).paired() == old(self).paired()
                &&& final(self).order() == introduced(introduced(old(self).order(), a@), b@)
                &&& final(self).games() == old(self).games() + 1
                &&& if old(self).paired() && id is Some {
                    &&& final(self).held() == held(old(self).held(), lo, hi, id->0@, line, p as u8)
                    &&& final(self).edges() == old(self).edges()
                } else {
                    &&& final(self).edges() == bumped_edge(old(self).edges(), lo, hi, point_delta(p))
                    &&& final(self).held() == old(self).held()
                }
            },
    {
        if a.is_empty() || b.is_empty() {
            return Err(
                VeridictError::SchemaMismatch {
                    line,
                    context: "matrix graph",
                    detail: String::from_str("a and b must both be non-empty competitor names"),
                },
            );
        }
        if str_eq(a, b) {
            let message = self_play_message(a);
            return Err(VeridictError::SchemaMismatch { line, context: "matrix graph", detail: message });
        }
        self.introduce(a);
        self.introduce(b);
        let outcome = match MatchOutcome::parse(result) {
            Some(o) => o,
            None => {
                return Err(
                    VeridictError::UnrecognizedOutcome {
                        line,
                        value: String::from_str(result),
                        expected: "a_win|b_win|draw",
                    },
                );
            },
        };
        let (lo, hi, points) = canonicalize_outcome(a, b, outcome);
        proof {
            let o1 = introduced(old(self).order(), a@);
            let o2 = introduced(o1, b@);
            assert(known(o1, a@)) by {
                if !known(old(self).order(), a@) {
                    assert(o1[o1.len() - 1] == a@);
                }
            }
            assert(known(o2, a@)) by {
                if o1.contains(a@) && !known(o1, b@) {
                    let k = choose|k: int| 0 <= k < o1.len() && o1[k] == a@;
                    assert(o2[k] == a@);
                }
            }
            assert(known(o2, b@)) by {
                if !known(o1, b@) {
                    assert(o2[o2.len() - 1] == b@);
                }
            }
        }
        match (self.paired_by_id, id) {
            (true, Some(i)) => {
                self.hold(lo.as_str(), hi.as_str(), i, line, points);
            },
            _ => {
                proof {
                    lemma_bumped_edge(self.edges(), lo@, hi@, point_delta(points as nat));
                    lemma_covers_bumped(self.order(), self.edges(), lo@, hi@, point_delta(points as nat));
                }
                tally_points(&mut self.edges, lo.as_str(), hi.as_str(), points);
            },
        }
        Ok(())
    }
}

fn pair_crowd_message(id: &str, count: usize, lo: &str, hi: &str) -> (s: String)
    ensures
        s@ == pair_crowd_detail(id@, count as nat, lo@, hi@),
{
    let s = String::from_str("id '");
    let s = s.concat(id);
    let s = s.concat("' appears ");
    let digits = decimal_string(count as u64);
    let s = s.concat(digits.as_str());
    let s = s.concat(" times for pair (");
    let s = s.concat(lo);
    let s = s.concat(", ");
    let s = s.concat(hi);
    s.concat("); paired mode expects at most 2 records per id per pair")
}

impl MatrixTally {
    /// Settles every held id into its pair's counts (a lone game as itself,
    /// two games netted by points) and returns the finished graph. An id
    /// with more than two games for one pair is an error, reported for the
    /// first such id (pairs in order of first appearance, ids likewise).
    pub fn finish(self) -> (r: Result<MatrixGraph, VeridictError>)
        requires
            self.wf(),
        ensures
            r is Ok <==> all_small(self.held()),
            r is Ok ==> {
                &&& r->Ok_0.wf()
                &&& r->Ok_0.edges.view() == settle_held(self.edges(), self.held())
                &&& names_view(r->Ok_0.order@) == self.order()
            },
            r is Err ==> reports_first_crowded(self.held(), r->Err_0),
    {
        let ghost h = self.held();
        let ghost s0 = self.edges();
        let ghost order = self.order();
        let mut edges = self.edges;
        let names = self.order;
        let held_pairs = self.held;
        let mut pi: usize = 0;
        while pi < held_pairs.len()
            invariant
                0 <= pi <= held_pairs@.len(),
                h == self.held(),
                h == held_pairs@.map_values(|p: HeldPair| held_view(p)),
                forall|i: int| 0 <= i < held_pairs@.len() ==> (#[trigger] held_pairs@[i]).groups.wf(),
                order == names_view(names@),
                edges.wf(),
                edges.view() == settle_held(s0, h.subrange(0, pi as int)),
                edge_total(edges.view()) <= edge_total(s0) + held_entries(h.subrange(0, pi as int)),
                edge_total(s0) + held_entries(h) <= u64::MAX,
                covers(order, edges.view()),
                covers(order, h),
                forall|q: int, k: int| 0 <= q < pi && 0 <= k < h[q].2.len() ==> #[trigger] h[q].2[k].1.len() <= 2,
            decreases held_pairs@.len() - pi,
        {
            let pair = &held_pairs[pi];
            proof {
                assert(h[pi as int] == held_view(held_pairs@[pi as int]));
                assert(held_pairs@[pi as int].groups.wf());
                lemma_held_entries_prefix(h, pi as int);
                lemma_held_entries_prefix(h, pi as int + 1);
                lemma_held_entries_prefix(h.subrange(0, pi + 1), pi as int + 1);
                assert(known(order, h[pi as int].0));
            }
            let groups = pair.groups.as_groups();
            let ghost g = h[pi as int].2;
            let ghost base = settle_held(s0, h.subrange(0, pi as int));
            let ghost lo = h[pi as int].0;
            let ghost hi = h[pi as int].1;
            let ghost before = held_entries(h.subrange(0, pi as int));
            let mut gi: usize = 0;
            while gi < groups.len()
                invariant
                    0 <= pi < held_pairs@.len(),
                    0 <= gi <= groups@.len(),
                    h == self.held(),
                    h == held_pairs@.map_values(|p: HeldPair| held_view(p)),
                    g == h[pi as int].2,
                    lo == h[pi as int].0,
                    hi == h[pi as int].1,
                    pair.lo@ == lo,
                    pair.hi@ == hi,
                    groups@.map_values(|x: (String, Vec<(usize, u8)>)| (x.0@, x.1@)) == g,
                    forall|j: int| 0 <= j < g.len() ==> g[j].1.len() > 0,
                    edges.wf(),
                    edges.view() == settle_groups(base, lo, hi, g.subrange(0, gi as int)),
                    edge_total(edges.view()) <= edge_total(s0) + before + entry_count(g.subrange(0, gi as int)),
                    before + entry_count(g) <= held_entries(h),
                    edge_total(s0) + held_entries(h) <= u64::MAX,
                    covers(order, edges.view()),
                    known(order, lo),
                    known(order, hi),
                    forall|k: int| 0 <= k < gi ==> #[trigger] g[k].1.len() <= 2,
                    forall|q: int, k: int| 0 <= q < pi && 0 <= k < h[q].2.len() ==> #[trigger] h[q].2[k].1.len() <= 2,
                decreases groups@.len() - gi,
            {
                let entries = &groups[gi].1;
                proof {
                    assert(g[gi as int] == (groups@[gi as int].0@, groups@[gi as int].1@));
                    crate::pairing::lemma_entry_count_prefix_pub(g, gi as int);
                    crate::pairing::lemma_entry_count_prefix_pub(g, gi as int + 1);
                    crate::pairing::lemma_entry_count_prefix_pub(g.subrange(0, gi + 1), gi as int + 1);
                    assert(g.subrange(0, gi + 1).drop_last() =~= g.subrange(0, gi as int));
                    assert(g.subrange(0, gi + 1).subrange(0, gi + 1) =~= g.subrange(0, gi + 1));
                }
                let net: u8 = if entries.len() == 1 {
                    entries[0].1
                } else if entries.len() == 2 {
                    let t: u16 = entries[0].1 as u16 + entries[1].1 as u16;
                    if t > 2 {
                        2
                    } else if t < 2 {
                        0
                    } else {
                        1
                    }
                } else {
                    let message = pair_crowd_message(groups[gi].0.as_str(), entries.len(), pair.lo.as_str(), pair.hi.as_str());
                    let e = VeridictError::SchemaMismatch { line: entries[0].0, context: "paired-by-id", detail: message };
                    proof {
                        assert(h[pi as int].2[gi as int].1.len() > 2);
                        assert(is_schema_mismatch(e, h[pi as int].2[gi as int].1[0].0, "paired-by-id"@,
                            pair_crowd_detail(h[pi as int].2[gi as int].0, h[pi as int].2[gi as int].1.len(), h[pi as int].0, h[pi as int].1)));
                    }
                    return Err(e);
                };
                proof {
                    assert(net as nat == net_points(g[gi as int].1));
                    lemma_bumped_edge(edges.view(), lo, hi, point_delta(net as nat));
                    lemma_covers_bumped(order, edges.view(), lo, hi, point_delta(net as nat));
                }
                tally_points(&mut edges, pair.lo.as_str(), pair.hi.as_str(), net);
                gi = gi + 1;
            }
            proof {
                assert(g.subrange(0, g.len() as int) =~= g);
                assert(h.subrange(0, pi + 1).drop_last() =~= h.subrange(0, pi as int));
                assert(h.subrange(0, pi + 1)[pi as int] == h[pi as int]);
                assert forall|q: int, k: int| 0 <= q < pi + 1 && 0 <= k < h[q].2.len() implies #[trigger] h[q].2[k].1.len() <= 2 by {
                    if q == pi {
                        assert(g[k].1.len() <= 2);
                    }
                }
            }
            pi = pi + 1;
        }
        proof {
            assert(h.subrange(0, h.len() as int) =~= h);
        }
        Ok(MatrixGraph { edges, order: names })
    }
}

/// Edge `e` has the baseline on one side.
pub open spec fn touches_baseline(e: EdgeView) -> bool {
    e.0 == baseline_name() || e.1 == baseline_name()
}

/// Position `k` holds the last occurrence of its name in `names`.
#[verifier::opaque]
pub open spec fn last_at(names: Seq<Seq<char>>, k: int) -> bool {
    &&& 0 <= k < names.len()
    &&& forall|j: int| k < j < names.len() ==> names[j] != names[k]
}

/// `p` is edge `e` written over positions of `names`: each name at its
/// last position, with the edge's counts.
#[verifier::opaque]
pub open spec fn pair_of_edge(names: Seq<Seq<char>>, p: PairRecord, e: EdgeView) -> bool {
    &&& last_at(names, p.a as int)
    &&& last_at(names, p.b as int)
    &&& names[p.a as int] == e.0
    &&& names[p.b as int] == e.1
    &&& counts_view((p.a_wins, p.b_wins, p.draws)) == e.2
}

/// `(a, b)` orders before `(c, d)` lexicographically.
pub open spec fn pos_before(a: usize, b: usize, c: usize, d: usize) -> bool {
    a < c || (a == c && b < d)
}

/// The last position of `name` in `names`, or -1.
pub open spec fn last_pos(names: Seq<Seq<char>>, name: Seq<char>) -> int
    decreases names.len(),
{
    if names.len() == 0 {
        -1
    } else if names[names.len() - 1] == name {
        names.len() - 1
    } else {
        last_pos(names.drop_last(), name)
    }
}

proof fn lemma_last_pos(names: Seq<Seq<char>>, name: Seq<char>)
    ensures
        last_pos(names, name) < names.len(),
        last_pos(names, name) >= 0 ==> last_at(names, last_pos(names, name)) && names[last_pos(names, name)] == name,
        names.contains(name) ==> last_pos(names, name) >= 0,
    decreases names.len(),
{
    reveal(last_at);
    if names.len() > 0 && names[names.len() - 1] != name {
        let d = names.drop_last();
        lemma_last_pos(d, name);
        if last_pos(d, name) >= 0 {
            let k = last_pos(d, name);
            assert(names[k] == d[k]);
            assert forall|j: int| k < j < names.len() implies names[j] != names[k] by {
                if j < names.len() - 1 {
                    assert(names[j] == d[j]);
                }
            }
        }
        if names.contains(name) {
            let k = choose|k: int| 0 <= k < names.len() && names[k] == name;
            assert(d[k] == name);
        }
    }
}

proof fn lemma_last_pos_at(names: Seq<Seq<char>>, k: int)
    requires
        last_at(names, k),
    ensures
        last_pos(names, names[k]) == k,
    decreases names.len(),
{
    reveal(last_at);
    if names.len() - 1 != k {
        let d = names.drop_last();
        assert(last_at(d, k));
        lemma_last_pos_at(d, k);
    }
}

impl MatrixGraph {
    /// Whether some pair involves the baseline.
    pub fn has_baseline(&self) -> (r: bool)
        requires
            self.wf(),
        ensures
            r == exists|i: int| 0 <= i < self.edges.view().len() && touches_baseline(#[trigger] self.edges.view()[i]),
    {
        proof {
            reveal_strlit("baseline");
        }
        let list = self.edges.edges();
        let ghost v = self.edges.view();
        let mut i: usize = 0;
        while i < list.len()
            invariant
                0 <= i <= list@.len(),
                v == self.edges.view(),
                list@.map_values(|e: Edge| edge_view(e)) == v,
                forall|j: int| 0 <= j < i ==> !touches_baseline(#[trigger] v[j]),
            decreases list@.len() - i,
        {
            proof {
                assert(v[i as int] == edge_view(list@[i as int]));
            }
            if str_eq(list[i].lo.as_str(), "baseline") || str_eq(list[i].hi.as_str(), "baseline") {
                proof {
                    assert(touches_baseline(v[i as int]));
                }
                return true;
            }
            i = i + 1;
        }
        false
    }

    /// Whether every pair involves the baseline: each candidate only ever
    /// played the baseline.
    pub fn star_shaped(&self) -> (r: bool)
        requires
            self.wf(),
        ensures
            r == forall|i: int| 0 <= i < self.edges.view().len() ==> touches_baseline(#[trigger] self.edges.view()[i]),
    {
        proof {
            reveal_strlit("baseline");
        }
        let list = self.edges.edges();
        let ghost v = self.edges.view();
        let mut i: usize = 0;
        while i < list.len()
            invariant
                0 <= i <= list@.len(),
                v == self.edges.view(),
                list@.map_values(|e: Edge| edge_view(e)) == v,
                forall|j: int| 0 <= j < i ==> touches_baseline(#[trigger] v[j]),
            decreases list@.len() - i,
        {
            proof {
                assert(v[i as int] == edge_view(list@[i as int]));
            }
            if !(str_eq(list[i].lo.as_str(), "baseline") || str_eq(list[i].hi.as_str(), "baseline")) {
                proof {
                    assert(!touches_baseline(v[i as int]));
                }
                return false;
            }
            i = i + 1;
        }
        true
    }

    /// `name`'s games against the baseline as `(baseline_wins,
    /// candidate_wins, draws)`, if the two played.
    pub fn baseline_record(&self, name: &str) -> (r: Option<(u64, u64, u64)>)
        requires
            self.wf(),
        ensures
            ({
                let k = canonical(baseline_name(), name@);
                match key_index(self.edges.view(), k.0, k.1) {
                    Some(i) => r is Some && counts_view(r->0) == (if k.0 == baseline_name() {
                        self.edges.view()[i].2
                    } else {
                        (self.edges.view()[i].2.1, self.edges.view()[i].2.0, self.edges.view()[i].2.2)
                    }),
                    None => r is None,
                }
            }),
    {
        proof {
            reveal_strlit("baseline");
        }
        let key = canonical_pair("baseline", name);
        match self.edges.get(key.0.as_str(), key.1.as_str()) {
            Some((lo_wins, hi_wins, draws)) => {
                if str_eq(key.0.as_str(), "baseline") {
                    Some((lo_wins, hi_wins, draws))
                } else {
                    Some((hi_wins, lo_wins, draws))
                }
            },
            None => None,
        }
    }
}

/// For each position, whether it holds the last occurrence of its name.
fn last_flags(names: &Vec<String>) -> (r: Vec<bool>)
    ensures
        r@.len() == names@.len(),
        forall|k: int| 0 <= k < names@.len() ==> r@[k] == last_at(names_view(names@), k),
{
    let ghost nv = names_view(names@);
    let mut r: Vec<bool> = Vec::new();
    let mut a: usize = 0;
    while a < names.len()
        invariant
            nv == names_view(names@),
            0 <= a <= names@.len(),
            r@.len() == a,
            forall|k: int| 0 <= k < a ==> r@[k] == last_at(nv, k),
        decreases names@.len() - a,
    {
        let mut last = true;
        let mut j: usize = a + 1;
        while j < names.len()
            invariant
                nv == names_view(names@),
                0 <= a < names@.len(),
                a + 1 <= j <= names@.len(),
                last == forall|t: int| a < t < j ==> nv[t] != nv[a as int],
            decreases names@.len() - j,
        {
            if str_eq(names[j].as_str(), names[a].as_str()) {
                last = false;
            }
            proof {
                assert(nv[j as int] == names@[j as int]@);
                assert(nv[a as int] == names@[a as int]@);
            }
            j = j + 1;
        }
        proof {
            reveal(last_at);
        }
        r.push(last);
        a = a + 1;
    }
    r
}

/// Some record of `r` is edge `e` over positions of `names`.
pub open spec fn edge_listed(names: Seq<Seq<char>>, r: Seq<PairRecord>, e: EdgeView) -> bool {
    exists|k: int| 0 <= k < r.len() && pair_of_edge(names, r[k], e)
}

/// Record `p` is some edge of `v` over positions of `names`.
pub open spec fn record_sourced(names: Seq<Seq<char>>, v: Seq<EdgeView>, p: PairRecord) -> bool {
    exists|i: int| 0 <= i < v.len() && pair_of_edge(names, p, v[i])
}

proof fn lemma_listed_grow(names: Seq<Seq<char>>, old_r: Seq<PairRecord>, r: Seq<PairRecord>, e: EdgeView)
    requires
        edge_listed(names, old_r, e),
        r.len() >= old_r.len(),
        forall|k: int| 0 <= k < old_r.len() ==> r[k] == old_r[k],
    ensures
        edge_listed(names, r, e),
{
    let k = choose|k: int| 0 <= k < old_r.len() && pair_of_edge(names, old_r[k], e);
    assert(r[k] == old_r[k]);
}

#[verifier::spinoff_prover]
proof fn lemma_positions_in_range(nv: Seq<Seq<char>>, v: Seq<EdgeView>)
    requires
        forall|i: int| 0 <= i < v.len() ==> nv.contains(#[trigger] v[i].0) && nv.contains(v[i].1),
    ensures
        forall|i: int| 0 <= i < v.len() ==> 0 <= last_pos(nv, (#[trigger] v[i]).0) < nv.len() && 0 <= last_pos(nv, v[i].1) < nv.len(),
{
    assert forall|i: int| 0 <= i < v.len() implies 0 <= last_pos(nv, (#[trigger] v[i]).0) < nv.len() && 0 <= last_pos(nv, v[i].1) < nv.len() by {
        assert(nv.contains(v[i].0) && nv.contains(v[i].1));
        lemma_last_pos(nv, v[i].0);
        lemma_last_pos(nv, v[i].1);
    }
}

proof fn lemma_pairs_step(nv: Seq<Seq<char>>, v: Seq<EdgeView>, old_r: Seq<PairRecord>, r: Seq<PairRecord>, a: int, b: int)
    requires
        forall|i: int| 0 <= i < v.len() && (last_pos(nv, (#[trigger] v[i]).0) < a
            || (last_pos(nv, v[i].0) == a && last_pos(nv, v[i].1) < b)) ==> edge_listed(nv, old_r, v[i]),
        r.len() >= old_r.len(),
        forall|k: int| 0 <= k < old_r.len() ==> r[k] == old_r[k],
        forall|i: int| 0 <= i < v.len() && last_pos(nv, (#[trigger] v[i]).0) == a && last_pos(nv, v[i].1) == b
            ==> edge_listed(nv, r, v[i]),
    ensures
        forall|i: int| 0 <= i < v.len() && (last_pos(nv, (#[trigger] v[i]).0) < a
            || (last_pos(nv, v[i].0) == a && last_pos(nv, v[i].1) < b + 1)) ==> edge_listed(nv, r, v[i]),
{
    assert forall|i: int| 0 <= i < v.len() && (last_pos(nv, (#[trigger] v[i]).0) < a
        || (last_pos(nv, v[i].0) == a && last_pos(nv, v[i].1) < b + 1)) implies edge_listed(nv, r, v[i]) by {
        if !(last_pos(nv, v[i].0) == a && last_pos(nv, v[i].1) == b) {
            lemma_listed_grow(nv, old_r, r, v[i]);
        }
    }
}

impl MatrixGraph {
    /// The competitors of the general graph, the baseline first when any
    /// pair involves it, then the order.
    pub fn nodes(&self, has_baseline: bool) -> (r: Vec<String>)
        ensures
            names_view(r@) == (if has_baseline {
                seq![baseline_name()] + names_view(self.order@)
            } else {
                names_view(self.order@)
            }),
    {
        proof {
            reveal_strlit("baseline");
        }
        let mut r: Vec<String> = Vec::new();
        if has_baseline {
            r.push(String::from_str("baseline"));
        }
        let ghost start = names_view(r@);
        let mut i: usize = 0;
        while i < self.order.len()
            invariant
                0 <= i <= self.order@.len(),
                start == (if has_baseline { seq![baseline_name()] } else { Seq::<Seq<char>>::empty() }),
                names_view(r@) == start + names_view(self.order@).subrange(0, i as int),
            decreases self.order@.len() - i,
        {
            let ghost old_r = r@;
            r.push(self.order[i].clone());
            proof {
                assert(names_view(r@) =~= names_view(old_r).push(self.order@[i as int]@));
                assert(names_view(self.order@).subrange(0, i + 1) =~= names_view(self.order@).subrange(0, i as int).push(self.order@[i as int]@));
                assert(names_view(r@) =~= start + names_view(self.order@).subrange(0, i + 1));
            }
            i = i + 1;
        }
        proof {
            assert(names_view(self.order@).subrange(0, self.order@.len() as int) =~= names_view(self.order@));
            if !has_baseline {
                assert(start + names_view(self.order@) =~= names_view(self.order@));
            }
        }
        r
    }

    /// The pair at positions `(a, b)`: present when both hold the last
    /// occurrence of their names and those names are an edge.
    fn pair_at(&self, names: &Vec<String>, flags: &Vec<bool>, a: usize, b: usize) -> (r: Option<PairRecord>)
        requires
            self.wf(),
            a < names@.len(),
            b < names@.len(),
            flags@.len() == names@.len(),
            forall|k: int| 0 <= k < names@.len() ==> flags@[k] == last_at(names_view(names@), k),
        ensures
            r is Some ==> r->0.a == a && r->0.b == b && record_sourced(names_view(names@), self.edges.view(), r->0),
            forall|i: int| 0 <= i < self.edges.view().len() && last_pos(names_view(names@), (#[trigger] self.edges.view()[i]).0) == a
                && last_pos(names_view(names@), self.edges.view()[i].1) == b
                ==> r is Some && pair_of_edge(names_view(names@), r->0, self.edges.view()[i]),
    {
        let ghost nv = names_view(names@);
        let ghost v = self.edges.view();
        proof {
            reveal(pair_of_edge);
        }
        if flags[a] && flags[b] {
            proof {
                lemma_key_index(v, nv[a as int], nv[b as int]);
                assert(nv[a as int] == names@[a as int]@);
                assert(nv[b as int] == names@[b as int]@);
            }
            match self.edges.get(names[a].as_str(), names[b].as_str()) {
                Some((a_wins, b_wins, draws)) => {
                    let p = PairRecord { a, b, a_wins, b_wins, draws };
                    proof {
                        let i0 = key_index(v, nv[a as int], nv[b as int])->0;
                        assert(pair_of_edge(nv, p, v[i0]));
                        assert forall|i: int| 0 <= i < v.len() && last_pos(nv, (#[trigger] v[i]).0) == a && last_pos(nv, v[i].1) == b
                            implies pair_of_edge(nv, p, v[i]) by {
                            lemma_last_pos(nv, v[i].0);
                            lemma_last_pos(nv, v[i].1);
                            lemma_key_index_at(v, i);
                        }
                    }
                    Some(p)
                },
                None => {
                    proof {
                        assert forall|i: int| 0 <= i < v.len() && last_pos(nv, (#[trigger] v[i]).0) == a && last_pos(nv, v[i].1) == b
                            implies false by {
                            lemma_last_pos(nv, v[i].0);
                            lemma_last_pos(nv, v[i].1);
                            assert(v[i].0 == nv[a as int] && v[i].1 == nv[b as int]);
                        }
                    }
                    None
                },
            }
        } else {
            proof {
                assert forall|i: int| 0 <= i < v.len() && last_pos(nv, (#[trigger] v[i]).0) == a && last_pos(nv, v[i].1) == b
                    implies false by {
                    lemma_last_pos(nv, v[i].0);
                    lemma_last_pos(nv, v[i].1);
                    assert(flags@[a as int] && flags@[b as int]);
                }
            }
            None
        }
    }

    /// The pairs over positions of `names`: each edge once, its names at
    /// their last positions, sorted by `(a, b)`.
    pub fn pair_records(&self, names: &Vec<String>) -> (r: Vec<PairRecord>)
        requires
            self.wf(),
            forall|i: int| 0 <= i < self.edges.view().len() ==> names_view(names@).contains(#[trigger] self.edges.view()[i].0)
                && names_view(names@).contains(self.edges.view()[i].1),
        ensures
            forall|k: int| 0 <= k < r@.len() ==> record_sourced(names_view(names@), self.edges.view(), #[trigger] r@[k]),
            forall|i: int| 0 <= i < self.edges.view().len() ==> edge_listed(names_view(names@), r@, #[trigger] self.edges.view()[i]),
            forall|k1: int, k2: int| 0 <= k1 < k2 < r@.len() ==> pos_before(r@[k1].a, r@[k1].b, r@[k2].a, r@[k2].b),
    {
        let ghost nv = names_view(names@);
        let ghost v = self.edges.view();
        let flags = last_flags(names);
        let n = names.len();
        proof {
            lemma_positions_in_range(nv, v);
        }
        let mut r: Vec<PairRecord> = Vec::new();
        let mut a: usize = 0;
        while a < n
            invariant
                n == names@.len(),
                nv == names_view(names@),
                v == self.edges.view(),
                self.wf(),
                flags@.len() == n,
                forall|k: int| 0 <= k < n ==> flags@[k] == last_at(nv, k),
                0 <= a <= n,
                forall|k: int| 0 <= k < r@.len() ==> record_sourced(nv, v, #[trigger] r@[k]),
                forall|k: int| 0 <= k < r@.len() ==> (#[trigger] r@[k]).a < a,
                forall|k1: int, k2: int| 0 <= k1 < k2 < r@.len() ==> pos_before(r@[k1].a, r@[k1].b, r@[k2].a, r@[k2].b),
                forall|i: int| 0 <= i < v.len() ==> 0 <= last_pos(nv, (#[trigger] v[i]).0) < n && 0 <= last_pos(nv, v[i].1) < n,
                forall|i: int| 0 <= i < v.len() && last_pos(nv, (#[trigger] v[i]).0) < a ==> edge_listed(nv, r@, v[i]),
            decreases n - a,
        {
            let mut b: usize = 0;
            while b < n
                invariant
                    n == names@.len(),
                    nv == names_view(names@),
                    v == self.edges.view(),
                    self.wf(),
                    flags@.len() == n,
                    forall|k: int| 0 <= k < n ==> flags@[k] == last_at(nv, k),
                    0 <= a < n,
                    0 <= b <= n,
                    forall|k: int| 0 <= k < r@.len() ==> record_sourced(nv, v, #[trigger] r@[k]),
                    forall|k: int| 0 <= k < r@.len() ==> pos_before((#[trigger] r@[k]).a, r@[k].b, a, b),
                    forall|k1: int, k2: int| 0 <= k1 < k2 < r@.len() ==> pos_before(r@[k1].a, r@[k1].b, r@[k2].a, r@[k2].b),
                    forall|i: int| 0 <= i < v.len() ==> 0 <= last_pos(nv, (#[trigger] v[i]).0) < n && 0 <= last_pos(nv, v[i].1) < n,
                    forall|i: int| 0 <= i < v.len() && (last_pos(nv, (#[trigger] v[i]).0) < a
                        || (last_pos(nv, v[i].0) == a && last_pos(nv, v[i].1) < b)) ==> edge_listed(nv, r@, v[i]),
                decreases n - b,
            {
                let ghost old_r = r@;
                let found = self.pair_at(names, &flags, a, b);
                match found {
                    Some(p) => {
                        r.push(p);
                        proof {
                            assert(r@[old_r.len() as int] == p);
                            assert forall|k: int| 0 <= k < r@.len() implies record_sourced(nv, v, #[trigger] r@[k]) by {
                                if k < old_r.len() {
                                    assert(r@[k] == old_r[k]);
                                }
                            }
                        }
                    },
                    None => {},
                }
                proof {
                    assert forall|i: int| 0 <= i < v.len() && last_pos(nv, (#[trigger] v[i]).0) == a && last_pos(nv, v[i].1) == b
                        implies edge_listed(nv, r@, v[i]) by {
                        assert(found is Some && pair_of_edge(nv, found->0, v[i]));
                        assert(r@[old_r.len() as int] == found->0);
                    }
                    lemma_pairs_step(nv, v, old_r, r@, a as int, b as int);
                }
                b = b + 1;
            }
            a = a + 1;
        }
        proof {
            assert forall|i: int| 0 <= i < v.len() implies edge_listed(nv, r@, #[trigger] v[i]) by {
                assert(last_pos(nv, v[i].0) < n);
            }
        }
        r
    }
}

/// How a matrix cell's comparison stands.
#[derive(Debug, Clone, Copy, PartialEq, Eq, Structural)]
pub enum CellStatus {
    /// The two played each other.
    Direct,
    /// Same component, never played: a model extrapolation.
    Inferred,
    /// Different components: no finite comparison exists.
    Disconnected,
}

impl MatrixGraph {
    /// The status of the cell `(row, col)`: `Disconnected` across
    /// components, else `Direct` when the two played, else `Inferred`.
    pub fn cell_status(&self, row: &str, col: &str, same_component: bool) -> (r: CellStatus)
        requires
            self.wf(),
        ensures
            r == (if !same_component {
                CellStatus::Disconnected
            } else if key_index(self.edges.view(), canonical(row@, col@).0, canonical(row@, col@).1) is Some {
                CellStatus::Direct
            } else {
                CellStatus::Inferred
            }),
    {
        if !same_component {
            return CellStatus::Disconnected;
        }
        let key = canonical_pair(row, col);
        match self.edges.get(key.0.as_str(), key.1.as_str()) {
            Some(_) => CellStatus::Direct,
            None => CellStatus::Inferred,
        }
    }
}

/// A match result restated from the other player's side.
pub open spec fn swapped(outcome: MatchOutcome) -> MatchOutcome {
    match outcome {
        MatchOutcome::AWin => MatchOutcome::BWin,
        MatchOutcome::BWin => MatchOutcome::AWin,
        MatchOutcome::Draw => MatchOutcome::Draw,
    }
}

/// Merging a pair's counts gives the same table whichever way round the
/// pair is named.
pub proof fn law_add_wins_either_order(s: Seq<EdgeView>, x: Seq<char>, x_wins: nat, y: Seq<char>, y_wins: nat, draws: nat)
    requires
        x != y,
    ensures
        with_wins(s, x, x_wins, y, y_wins, draws) == with_wins(s, y, y_wins, x, x_wins, draws),
{
    crate::text::lemma_str_le_total(x, y);
    if str_le_spec(x, y) && str_le_spec(y, x) {
        crate::text::lemma_str_le_antisymmetric(x, y);
    }
}

/// One game recorded from either player's side lands on the same pair with
/// the same score.
pub proof fn law_one_game_either_side(a: Seq<char>, b: Seq<char>, outcome: MatchOutcome)
    requires
        a != b,
    ensures
        canonical(a, b) == canonical(b, a),
        points_to_hi(a, b, outcome) == points_to_hi(b, a, swapped(outcome)),
{
    crate::text::lemma_str_le_total(a, b);
    if str_le_spec(a, b) && str_le_spec(b, a) {
        crate::text::lemma_str_le_antisymmetric(a, b);
    }
}

} // verus!
