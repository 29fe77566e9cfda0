//! Connectivity of the directed "who scored a point against whom" graph of
//! a set of head-to-head tallies. A Bradley-Terry rating has a finite
//! maximum-likelihood estimate only within a strongly connected component
//! of that graph, so components are computed first and ratings are fit per
//! component.

use vstd::prelude::*;

use crate::MatchOutcome;

verus! {

/// Aggregated head-to-head tally between competitors `a` and `b`, given as
/// 0-based indices into the caller's competitor list.
#[derive(Debug, Clone, Copy, PartialEq, Eq)]
pub struct PairRecord {
    pub a: usize,
    pub b: usize,
    pub a_wins: u64,
    pub b_wins: u64,
    pub draws: u64,
}

/// Which mutually comparable group each competitor belongs to.
#[derive(Debug, Clone)]
pub struct Connectivity {
    pub component_of: Vec<usize>,
    pub num_components: usize,
}

/// In tally `p`, `u` scored a point against `v` (a win, or half a point in a
/// draw, which therefore scores in both directions).
pub open spec fn pair_scores(p: PairRecord, u: usize, v: usize) -> bool {
    ||| p.a == u && p.b == v && (p.a_wins > 0 || p.draws > 0)
    ||| p.b == u && p.a == v && (p.b_wins > 0 || p.draws > 0)
}

/// Some tally records `u` scoring against `v`: the edge `u -> v`.
pub open spec fn scores_against(pairs: Seq<PairRecord>, u: usize, v: usize) -> bool {
    exists|k: int| 0 <= k < pairs.len() && #[trigger] pair_scores(pairs[k], u, v)
}

/// The `i`-th step of walk `w` is an edge.
pub open spec fn walk_step(pairs: Seq<PairRecord>, w: Seq<usize>, i: int) -> bool {
    scores_against(pairs, w[i], w[i + 1])
}

/// `w` is a nonempty sequence of competitors, each scoring against the next.
pub open spec fn is_walk(pairs: Seq<PairRecord>, w: Seq<usize>) -> bool {
    &&& w.len() > 0
    &&& forall|i: int| 0 <= i < w.len() - 1 ==> #[trigger] walk_step(pairs, w, i)
}

/// A walk leads from `u` to `v` (every competitor reaches itself).
pub open spec fn reaches(pairs: Seq<PairRecord>, u: usize, v: usize) -> bool {
    exists|w: Seq<usize>| #[trigger] is_walk(pairs, w) && w[0] == u && w[w.len() - 1] == v
}

/// `u` and `v` reach each other: they lie in one strongly connected component.
pub open spec fn mutually_reachable(pairs: Seq<PairRecord>, u: usize, v: usize) -> bool {
    reaches(pairs, u, v) && reaches(pairs, v, u)
}

/// Every tally names competitors below `n`.
pub open spec fn pairs_in_range(pairs: Seq<PairRecord>, n: nat) -> bool {
    forall|k: int| 0 <= k < pairs.len() ==> (#[trigger] pairs[k]).a < n && pairs[k].b < n
}

/// Every competitor reaches itself.
pub proof fn lemma_reaches_refl(pairs: Seq<PairRecord>, u: usize)
    ensures
        reaches(pairs, u, u),
{
    let w = seq![u];
    assert(is_walk(pairs, w));
}

/// An edge is a walk.
pub proof fn lemma_reaches_edge(pairs: Seq<PairRecord>, u: usize, v: usize)
    requires
        scores_against(pairs, u, v),
    ensures
        reaches(pairs, u, v),
{
    let w = seq![u, v];
    assert(walk_step(pairs, w, 0));
    assert(is_walk(pairs, w));
}

/// Walks compose.
pub proof fn lemma_reaches_trans(pairs: Seq<PairRecord>, u: usize, v: usize, x: usize)
    requires
        reaches(pairs, u, v),
        reaches(pairs, v, x),
    ensures
        reaches(pairs, u, x),
{
    let w1 = choose|w: Seq<usize>| #[trigger] is_walk(pairs, w) && w[0] == u && w[w.len() - 1] == v;
    let w2 = choose|w: Seq<usize>| #[trigger] is_walk(pairs, w) && w[0] == v && w[w.len() - 1] == x;
    let w = w1 + w2.drop_first();
    assert forall|i: int| 0 <= i < w.len() - 1 implies #[trigger] walk_step(pairs, w, i) by {
        if i < w1.len() - 1 {
            assert(walk_step(pairs, w1, i));
        } else {
            let j = i - (w1.len() - 1);
            assert(walk_step(pairs, w2, j));
            assert(w[i] == w2[j]);
            assert(w[i + 1] == w2[j + 1]);
        }
    }
    assert(is_walk(pairs, w));
    if w2.len() == 1 {
        assert(w[w.len() - 1] == x);
    } else {
        assert(w[w.len() - 1] == w2[w2.len() - 1]);
    }
}

/// Walks from an edge source stay within competitors below `n`.
pub proof fn lemma_edge_in_range(pairs: Seq<PairRecord>, n: nat, u: usize, v: usize)
    requires
        pairs_in_range(pairs, n),
        scores_against(pairs, u, v),
    ensures
        u < n,
        v < n,
{
    let k = choose|k: int| 0 <= k < pairs.len() && #[trigger] pair_scores(pairs[k], u, v);
    assert(pairs[k].a < n && pairs[k].b < n);
}

/// A walk that starts inside a region and ends outside it passes through
/// the region's frontier: if every edge out of `inside` lands in `inside` or
/// `frontier`, the start reaches some frontier competitor.
proof fn lemma_escape(
    pairs: Seq<PairRecord>,
    inside: spec_fn(usize) -> bool,
    frontier: spec_fn(usize) -> bool,
    w: Seq<usize>,
)
    requires
        is_walk(pairs, w),
        inside(w[0]),
        !inside(w[w.len() - 1]),
        forall|u: usize, v: usize|
            #[trigger] scores_against(pairs, u, v) && inside(u) ==> inside(v) || frontier(v),
    ensures
        exists|g: usize| frontier(g) && reaches(pairs, w[0], g),
    decreases w.len(),
{
    assert(w.len() >= 2);
    assert(walk_step(pairs, w, 0));
    lemma_reaches_edge(pairs, w[0], w[1]);
    if !inside(w[1]) {
        assert(frontier(w[1]));
    } else {
        let rest = w.drop_first();
        assert forall|i: int| 0 <= i < rest.len() - 1 implies #[trigger] walk_step(pairs, rest, i) by {
            assert(walk_step(pairs, w, i + 1));
        }
        lemma_escape(pairs, inside, frontier, rest);
        let g = choose|g: usize| frontier(g) && reaches(pairs, rest[0], g);
        lemma_reaches_trans(pairs, w[0], w[1], g);
    }
}

/// `adj[u]` lists exactly the competitors `u` scores against (with
/// repetition allowed), every entry below `n`.
pub open spec fn forward_exact(pairs: Seq<PairRecord>, n: nat, adj: Seq<Vec<usize>>) -> bool {
    &&& adj.len() == n
    &&& forall|u: int, k: int|
        0 <= u < n && 0 <= k < adj[u]@.len() ==> #[trigger] adj[u]@[k] < n && scores_against(
            pairs,
            u as usize,
            adj[u]@[k],
        )
    &&& forall|u: usize, v: usize| #[trigger]
        scores_against(pairs, u, v) && u < n ==> adj[u as int]@.contains(v)
}

/// `radj[v]` lists exactly the competitors that score against `v`.
pub open spec fn backward_exact(pairs: Seq<PairRecord>, n: nat, radj: Seq<Vec<usize>>) -> bool {
    &&& radj.len() == n
    &&& forall|v: int, k: int|
        0 <= v < n && 0 <= k < radj[v]@.len() ==> #[trigger] radj[v]@[k] < n && scores_against(
            pairs,
            radj[v]@[k],
            v as usize,
        )
    &&& forall|u: usize, v: usize| #[trigger]
        scores_against(pairs, u, v) && v < n ==> radj[v as int]@.contains(u)
}

proof fn lemma_scores_prefix(pairs: Seq<PairRecord>, i: int, u: usize, v: usize)
    requires
        0 <= i < pairs.len(),
    ensures
        scores_against(pairs.subrange(0, i + 1), u, v) == (scores_against(pairs.subrange(0, i), u, v)
            || pair_scores(pairs[i], u, v)),
{
    let pre = pairs.subrange(0, i);
    let next = pairs.subrange(0, i + 1);
    if scores_against(pre, u, v) {
        let k = choose|k: int| 0 <= k < pre.len() && #[trigger] pair_scores(pre[k], u, v);
        assert(next[k] == pre[k]);
    }
    if pair_scores(pairs[i], u, v) {
        assert(next[i] == pairs[i]);
    }
    if scores_against(next, u, v) {
        let k = choose|k: int| 0 <= k < next.len() && #[trigger] pair_scores(next[k], u, v);
        if k < i {
            assert(pre[k] == next[k]);
        }
    }
}

/// Appends `v` to the list of `u`, keeping every other list; a property
/// `ok` of every (list, entry) survives when `v` has it too.
fn push_neighbor(
    lists: &mut Vec<Vec<usize>>,
    u: usize,
    v: usize,
    Ghost(ok): Ghost<spec_fn(int, usize) -> bool>,
)
    requires
        u < old(lists)@.len(),
        ok(u as int, v),
        forall|x: int, k: int|
            0 <= x < old(lists)@.len() && 0 <= k < old(lists)@[x]@.len()
                ==> ok(x, #[trigger] old(lists)@[x]@[k]),
    ensures
        final(lists)@.len() == old(lists)@.len(),
        final(lists)@[u as int]@.contains(v),
        forall|x: int, w: usize|
            0 <= x < old(lists)@.len() && #[trigger] old(lists)@[x]@.contains(w)
                ==> final(lists)@[x]@.contains(w),
        forall|x: int, k: int|
            0 <= x < final(lists)@.len() && 0 <= k < final(lists)@[x]@.len()
                ==> ok(x, #[trigger] final(lists)@[x]@[k]),
{
    let ghost before = lists@;
    lists[u].push(v);
    proof {
        assert(lists@[u as int]@[before[u as int]@.len() as int] == v);
        assert forall|x: int, w: usize|
            0 <= x < before.len() && #[trigger] before[x]@.contains(w)
            implies lists@[x]@.contains(w) by {
            let k = choose|k: int| 0 <= k < before[x]@.len() && before[x]@[k] == w;
            assert(lists@[x]@[k] == w);
        }
        assert forall|x: int, k: int|
            0 <= x < lists@.len() && 0 <= k < lists@[x]@.len()
            implies ok(x, #[trigger] lists@[x]@[k]) by {
            if k < before[x]@.len() {
                assert(lists@[x]@[k] == before[x]@[k]);
            }
        }
    }
}

/// Adjacency lists of the scoring graph, forward and reversed, in the order
/// the tallies list their edges.
fn build_adjacency(n: usize, pairs: &[PairRecord]) -> (res: (Vec<Vec<usize>>, Vec<Vec<usize>>))
    requires
        pairs_in_range(pairs@, n as nat),
    ensures
        forward_exact(pairs@, n as nat, res.0@),
        backward_exact(pairs@, n as nat, res.1@),
{
    let mut adj: Vec<Vec<usize>> = Vec::new();
    let mut radj: Vec<Vec<usize>> = Vec::new();
    let mut j: usize = 0;
    while j < n
        invariant
            j <= n,
            adj@.len() == j,
            radj@.len() == j,
            forall|x: int| 0 <= x < j ==> (#[trigger] adj@[x])@.len() == 0,
            forall|x: int| 0 <= x < j ==> (#[trigger] radj@[x])@.len() == 0,
        decreases n - j,
    {
        adj.push(Vec::new());
        radj.push(Vec::new());
        j = j + 1;
    }
    let mut i: usize = 0;
    while i < pairs.len()
        invariant
            i <= pairs@.len(),
            pairs_in_range(pairs@, n as nat),
            forward_exact(pairs@.subrange(0, i as int), n as nat, adj@),
            backward_exact(pairs@.subrange(0, i as int), n as nat, radj@),
        decreases pairs@.len() - i,
    {
        let p = pairs[i];
        assert(p.a < n && p.b < n);
        let ghost pre = pairs@.subrange(0, i as int);
        let ghost next = pairs@.subrange(0, i + 1);
        let ghost fwd_ok = |x: int, w: usize| w < n && scores_against(next, x as usize, w);
        let ghost bwd_ok = |x: int, w: usize| w < n && scores_against(next, w, x as usize);
        proof {
            assert forall|x: int, k: int|
                0 <= x < adj@.len() && 0 <= k < adj@[x]@.len() implies fwd_ok(x, #[trigger] adj@[x]@[k]) by {
                lemma_scores_prefix(pairs@, i as int, x as usize, adj@[x]@[k]);
            }
            assert forall|x: int, k: int|
                0 <= x < radj@.len() && 0 <= k < radj@[x]@.len() implies bwd_ok(x, #[trigger] radj@[x]@[k]) by {
                lemma_scores_prefix(pairs@, i as int, radj@[x]@[k], x as usize);
            }
            lemma_scores_prefix(pairs@, i as int, p.a, p.b);
            lemma_scores_prefix(pairs@, i as int, p.b, p.a);
        }
        let ghost adj0 = adj@;
        let ghost radj0 = radj@;
        if p.a_wins > 0 {
            push_neighbor(&mut adj, p.a, p.b, Ghost(fwd_ok));
            push_neighbor(&mut radj, p.b, p.a, Ghost(bwd_ok));
        }
        if p.b_wins > 0 {
            push_neighbor(&mut adj, p.b, p.a, Ghost(fwd_ok));
            push_neighbor(&mut radj, p.a, p.b, Ghost(bwd_ok));
        }
        if p.draws > 0 {
            push_neighbor(&mut adj, p.a, p.b, Ghost(fwd_ok));
            push_neighbor(&mut radj, p.b, p.a, Ghost(bwd_ok));
            push_neighbor(&mut adj, p.b, p.a, Ghost(fwd_ok));
            push_neighbor(&mut radj, p.a, p.b, Ghost(bwd_ok));
        }
        proof {
            assert forall|u: int, k: int|
                0 <= u < n && 0 <= k < adj@[u]@.len() implies #[trigger] adj@[u]@[k] < n
                && scores_against(next, u as usize, adj@[u]@[k]) by {
                assert(fwd_ok(u, adj@[u]@[k]));
            }
            assert forall|v: int, k: int|
                0 <= v < n && 0 <= k < radj@[v]@.len() implies #[trigger] radj@[v]@[k] < n
                && scores_against(next, radj@[v]@[k], v as usize) by {
                assert(bwd_ok(v, radj@[v]@[k]));
            }
            assert forall|u: usize, v: usize| #[trigger]
                scores_against(next, u, v) && u < n implies adj@[u as int]@.contains(v) by {
                lemma_scores_prefix(pairs@, i as int, u, v);
                if scores_against(pre, u, v) {
                    assert(adj0[u as int]@.contains(v));
                }
            }
            assert forall|u: usize, v: usize| #[trigger]
                scores_against(next, u, v) && v < n implies radj@[v as int]@.contains(u) by {
                lemma_scores_prefix(pairs@, i as int, u, v);
                if scores_against(pre, u, v) {
                    assert(radj0[v as int]@.contains(u));
                }
            }
        }
        i = i + 1;
    }
    assert(pairs@.subrange(0, pairs@.len() as int) =~= pairs@);
    (adj, radj)
}

/// Consecutive stack entries are joined by edges.
spec fn stack_step(pairs: Seq<PairRecord>, sn: Seq<usize>, i: int) -> bool {
    scores_against(pairs, sn[i], sn[i + 1])
}

spec fn stack_path(pairs: Seq<PairRecord>, sn: Seq<usize>) -> bool {
    forall|i: int| 0 <= i < sn.len() - 1 ==> #[trigger] stack_step(pairs, sn, i)
}

/// Every finished competitor that reaches an unfinished one shares a
/// component with some competitor still on the stack.
spec fn frontier_ok(pairs: Seq<PairRecord>, f: Seq<usize>, sn: Seq<usize>) -> bool {
    forall|b: usize, w: usize|
        #[trigger] reaches(pairs, b, w) && f.contains(b) && !f.contains(w) ==> exists|i: int|
            0 <= i < sn.len() && mutually_reachable(pairs, sn[i], b)
}

/// The competitor finished at position `p` finishes no later than some
/// member of the component of anything that reaches it from outside its
/// own component: such a member is missing from `order[..=p]`.
pub open spec fn finishes_after(pairs: Seq<PairRecord>, order: Seq<usize>, p: int) -> bool {
    forall|x: usize|
        #[trigger] reaches(pairs, x, order[p]) && !reaches(pairs, order[p], x) ==> exists|z: usize|
            mutually_reachable(pairs, x, z) && !order.subrange(0, p + 1).contains(z)
}

pub open spec fn finishing_ok(pairs: Seq<PairRecord>, order: Seq<usize>) -> bool {
    forall|p: int| 0 <= p < order.len() ==> #[trigger] finishes_after(pairs, order, p)
}

proof fn lemma_stack_reaches(pairs: Seq<PairRecord>, sn: Seq<usize>, i: int, j: int)
    requires
        stack_path(pairs, sn),
        0 <= i <= j < sn.len(),
    ensures
        reaches(pairs, sn[i], sn[j]),
    decreases j - i,
{
    if i == j {
        lemma_reaches_refl(pairs, sn[i]);
    } else {
        assert(stack_step(pairs, sn, i));
        lemma_reaches_edge(pairs, sn[i], sn[i + 1]);
        lemma_stack_reaches(pairs, sn, i + 1, j);
        lemma_reaches_trans(pairs, sn[i], sn[i + 1], sn[j]);
    }
}

/// Finishing the top of the stack keeps the frontier and finishing
/// properties.
proof fn lemma_finish_top(pairs: Seq<PairRecord>, f: Seq<usize>, sn: Seq<usize>)
    requires
        sn.len() > 0,
        !f.contains(sn[sn.len() - 1]),
        sn.no_duplicates(),
        forall|v: usize| !(f.contains(v) && sn.contains(v)),
        stack_path(pairs, sn),
        frontier_ok(pairs, f, sn),
        finishing_ok(pairs, f),
        forall|u: usize, v: usize|
            #[trigger] scores_against(pairs, u, v) && f.push(sn[sn.len() - 1]).contains(u) ==> f.push(
                sn[sn.len() - 1],
            ).contains(v) || sn.drop_last().contains(v),
    ensures
        frontier_ok(pairs, f.push(sn[sn.len() - 1]), sn.drop_last()),
        finishing_ok(pairs, f.push(sn[sn.len() - 1])),
{
    let t = sn[sn.len() - 1];
    let f2 = f.push(t);
    let sn2 = sn.drop_last();
    let top = sn.len() - 1;
    assert(f2[f2.len() - 1] == t);
    assert(f2.contains(t));
    assert forall|v: usize| f.contains(v) implies #[trigger] f2.contains(v) by {
        let k = choose|k: int| 0 <= k < f.len() && f[k] == v;
        assert(f2[k] == v);
    }
    assert forall|v: usize| sn2.contains(v) implies #[trigger] sn.contains(v) by {
        let k = choose|k: int| 0 <= k < sn2.len() && sn2[k] == v;
        assert(sn[k] == v);
    }
    // Whatever the newly finished competitor reaches outside the finished
    // set, it reaches through a competitor still on the stack.
    assert forall|w: usize| #[trigger] reaches(pairs, t, w) && !f2.contains(w) implies exists|i: int|
        0 <= i < sn2.len() && mutually_reachable(pairs, sn2[i], t) by {
        let wk = choose|wk: Seq<usize>| #[trigger] is_walk(pairs, wk) && wk[0] == t && wk[wk.len() - 1] == w;
        let inside = |v: usize| f2.contains(v);
        let frontier = |v: usize| sn2.contains(v);
        lemma_escape(pairs, inside, frontier, wk);
        let g = choose|g: usize| frontier(g) && reaches(pairs, wk[0], g);
        let i = choose|i: int| 0 <= i < sn2.len() && sn2[i] == g;
        lemma_stack_reaches(pairs, sn, i, top);
        assert(mutually_reachable(pairs, sn2[i], t));
    }
    assert forall|b: usize, w: usize|
        #[trigger] reaches(pairs, b, w) && f2.contains(b) && !f2.contains(w) implies exists|i: int|
        0 <= i < sn2.len() && mutually_reachable(pairs, sn2[i], b) by {
        if b == t {
            assert(reaches(pairs, t, w));
        } else {
            assert(f.contains(b));
            assert(!f.contains(w));
            let i = choose|i: int| 0 <= i < sn.len() && mutually_reachable(pairs, sn[i], b);
            if i < top {
                assert(sn2[i] == sn[i]);
            } else {
                lemma_reaches_trans(pairs, t, b, w);
                assert(reaches(pairs, t, w));
                let i2 = choose|i2: int| 0 <= i2 < sn2.len() && mutually_reachable(pairs, sn2[i2], t);
                lemma_reaches_trans(pairs, sn2[i2], t, b);
                lemma_reaches_trans(pairs, b, t, sn2[i2]);
            }
        }
    }
    assert forall|p: int| 0 <= p < f2.len() implies #[trigger] finishes_after(pairs, f2, p) by {
        if p < f.len() {
            assert(finishes_after(pairs, f, p));
            assert(f2.subrange(0, p + 1) =~= f.subrange(0, p + 1));
            assert(f2[p] == f[p]);
        } else {
            assert(f2.subrange(0, p + 1) =~= f2);
            assert forall|x: usize| #[trigger] reaches(pairs, x, f2[p]) && !reaches(pairs, f2[p], x) implies exists|z: usize|
                mutually_reachable(pairs, x, z) && !f2.subrange(0, p + 1).contains(z) by {
                if !f2.contains(x) {
                    lemma_reaches_refl(pairs, x);
                    assert(mutually_reachable(pairs, x, x));
                } else {
                    lemma_reaches_refl(pairs, t);
                    assert(x != t);
                    assert(f.contains(x));
                    assert(!f.contains(t));
                    let i = choose|i: int| 0 <= i < sn.len() && mutually_reachable(pairs, sn[i], x);
                    let g = sn[i];
                    assert(sn.contains(g));
                    if g == t {
                        assert(reaches(pairs, t, x));
                    } else {
                        assert(!f.contains(g));
                        assert(!f2.contains(g));
                        lemma_reaches_trans(pairs, x, g, x);
                        assert(mutually_reachable(pairs, x, g));
                    }
                }
            }
        }
    }
}

spec fn count_unvisited(vis: Seq<bool>) -> nat
    decreases vis.len(),
{
    if vis.len() == 0 {
        0
    } else {
        count_unvisited(vis.drop_last()) + if vis[vis.len() - 1] {
            0nat
        } else {
            1nat
        }
    }
}

proof fn lemma_visit_one(vis: Seq<bool>, j: int)
    requires
        0 <= j < vis.len(),
        !vis[j],
    ensures
        count_unvisited(vis.update(j, true)) + 1 == count_unvisited(vis),
    decreases vis.len(),
{
    let v2 = vis.update(j, true);
    if j == vis.len() - 1 {
        assert(v2.drop_last() =~= vis.drop_last());
    } else {
        assert(v2.drop_last() =~= vis.drop_last().update(j, true));
        lemma_visit_one(vis.drop_last(), j);
    }
}

/// Work left on the explicit DFS stack: unexplored neighbors plus one pop
/// per entry.
spec fn stack_work(st: Seq<(usize, usize)>, adj: Seq<Vec<usize>>) -> nat
    decreases st.len(),
{
    if st.len() == 0 {
        0
    } else {
        let e = st[st.len() - 1];
        stack_work(st.drop_last(), adj) + (adj[e.0 as int]@.len() - e.1) as nat + 1
    }
}

spec fn stack_nodes(st: Seq<(usize, usize)>) -> Seq<usize> {
    st.map_values(|e: (usize, usize)| e.0)
}

/// Depth-first finishing order of every competitor (iterative, starting
/// from each unvisited competitor in index order, neighbors in list order).
fn finish_order(n: usize, adj: &Vec<Vec<usize>>, Ghost(pairs): Ghost<Seq<PairRecord>>) -> (order: Vec<usize>)
    requires
        pairs_in_range(pairs, n as nat),
        forward_exact(pairs, n as nat, adj@),
    ensures
        order@.no_duplicates(),
        forall|k: int| 0 <= k < order@.len() ==> order@[k] < n,
        forall|v: usize| v < n ==> order@.contains(v),
        finishing_ok(pairs, order@),
{
    let mut visited: Vec<bool> = Vec::new();
    let mut j: usize = 0;
    while j < n
        invariant
            j <= n,
            visited@.len() == j,
            forall|x: int| 0 <= x < j ==> !visited@[x],
        decreases n - j,
    {
        visited.push(false);
        j = j + 1;
    }
    let mut order: Vec<usize> = Vec::new();
    let mut start: usize = 0;
    while start < n
        invariant
            start <= n,
            pairs_in_range(pairs, n as nat),
            forward_exact(pairs, n as nat, adj@),
            visited@.len() == n,
            forall|v: usize| v < n ==> (visited@[v as int] <==> order@.contains(v)),
            forall|v: usize| v < start ==> visited@[v as int],
            order@.no_duplicates(),
            forall|k: int| 0 <= k < order@.len() ==> order@[k] < n,
            forall|b: int, k: int|
                0 <= b < order@.len() && 0 <= k < adj@[order@[b] as int]@.len()
                    ==> visited@[#[trigger] adj@[order@[b] as int]@[k] as int],
            frontier_ok(pairs, order@, Seq::<usize>::empty()),
            finishing_ok(pairs, order@),
        decreases n - start,
    {
        if !visited[start] {
            visited.set(start, true);
            let mut stack: Vec<(usize, usize)> = Vec::new();
            stack.push((start, 0));
            proof {
                assert(stack_nodes(stack@) =~= seq![start]);
                assert forall|v: usize| v < n implies (visited@[v as int] <==> (order@.contains(v)
                    || stack_nodes(stack@).contains(v))) by {
                    if stack_nodes(stack@).contains(v) {
                        assert(v == start);
                    }
                    if v == start {
                        assert(stack_nodes(stack@)[0] == start);
                    }
                }
                assert forall|b: usize, w: usize|
                    #[trigger] reaches(pairs, b, w) && order@.contains(b) && !order@.contains(w) implies exists|i: int|
                    0 <= i < stack_nodes(stack@).len() && mutually_reachable(pairs, stack_nodes(stack@)[i], b) by {
                    assert(frontier_ok(pairs, order@, Seq::<usize>::empty()));
                }
            }
            while stack.len() > 0
                invariant
                    start < n,
                    pairs_in_range(pairs, n as nat),
                    forward_exact(pairs, n as nat, adj@),
                    visited@.len() == n,
                    forall|v: usize| v < n ==> (visited@[v as int] <==> (order@.contains(v)
                        || stack_nodes(stack@).contains(v))),
                    forall|v: usize| v <= start ==> visited@[v as int],
                    order@.no_duplicates(),
                    stack_nodes(stack@).no_duplicates(),
                    forall|v: usize| !(order@.contains(v) && stack_nodes(stack@).contains(v)),
                    forall|k: int| 0 <= k < order@.len() ==> order@[k] < n,
                    forall|k: int| 0 <= k < stack@.len() ==> stack@[k].0 < n,
                    stack_path(pairs, stack_nodes(stack@)),
                    forall|i: int| 0 <= i < stack@.len() ==> (#[trigger] stack@[i]).1 <= adj@[stack@[i].0 as int]@.len(),
                    forall|i: int, k: int|
                        0 <= i < stack@.len() && 0 <= k < stack@[i].1
                            ==> visited@[#[trigger] adj@[stack@[i].0 as int]@[k] as int],
                    forall|b: int, k: int|
                        0 <= b < order@.len() && 0 <= k < adj@[order@[b] as int]@.len()
                            ==> visited@[#[trigger] adj@[order@[b] as int]@[k] as int],
                    frontier_ok(pairs, order@, stack_nodes(stack@)),
                    finishing_ok(pairs, order@),
                decreases count_unvisited(visited@), stack_work(stack@, adj@),
            {
                let top = stack.len() - 1;
                let (node, next) = stack[top];
                if next < adj[node].len() {
                    let neighbor = adj[node][next];
                    let ghost st0 = stack@;
                    stack.set(top, (node, next + 1));
                    proof {
                        assert(stack_nodes(stack@) =~= stack_nodes(st0));
                        assert(stack@.drop_last() =~= st0.drop_last());
                        assert(neighbor < n);
                    }
                    if !visited[neighbor] {
                        let ghost vis0 = visited@;
                        let ghost st1 = stack@;
                        visited.set(neighbor, true);
                        stack.push((neighbor, 0));
                        proof {
                            lemma_visit_one(vis0, neighbor as int);
                            assert(stack_nodes(stack@) =~= stack_nodes(st1).push(neighbor));
                            assert(adj@[node as int]@.contains(neighbor));
                            assert(scores_against(pairs, node, neighbor));
                            let sn = stack_nodes(stack@);
                            assert forall|i: int| 0 <= i < sn.len() - 1 implies #[trigger] stack_step(pairs, sn, i) by {
                                if i < sn.len() - 2 {
                                    assert(stack_step(pairs, stack_nodes(st1), i));
                                }
                            }
                            assert forall|v: usize| stack_nodes(st1).contains(v) implies #[trigger] sn.contains(v) by {
                                let k = choose|k: int| 0 <= k < stack_nodes(st1).len() && stack_nodes(st1)[k] == v;
                                assert(sn[k] == v);
                            }
                            assert(sn[sn.len() - 1] == neighbor);
                            assert forall|v: usize| v < n implies (visited@[v as int] <==> (order@.contains(v)
                                || sn.contains(v))) by {
                                if sn.contains(v) && v != neighbor {
                                    let k = choose|k: int| 0 <= k < sn.len() && sn[k] == v;
                                    assert(stack_nodes(st1)[k] == v);
                                }
                            }
                            assert forall|b: usize, w: usize|
                                #[trigger] reaches(pairs, b, w) && order@.contains(b) && !order@.contains(w) implies exists|i: int|
                                0 <= i < sn.len() && mutually_reachable(pairs, sn[i], b) by {
                                let i = choose|i: int| 0 <= i < stack_nodes(st1).len() && mutually_reachable(pairs, stack_nodes(st1)[i], b);
                                assert(sn[i] == stack_nodes(st1)[i]);
                            }
                        }
                    }
                } else {
                    let ghost st0 = stack@;
                    let ghost f0 = order@;
                    proof {
                        let sn = stack_nodes(st0);
                        assert(sn[sn.len() - 1] == node);
                        assert(sn.contains(node));
                        assert forall|u: usize, v: usize|
                            #[trigger] scores_against(pairs, u, v) && f0.push(node).contains(u) implies f0.push(node).contains(v)
                            || sn.drop_last().contains(v) by {
                            lemma_edge_in_range(pairs, n as nat, u, v);
                            assert(adj@[u as int]@.contains(v));
                            let k = choose|k: int| 0 <= k < adj@[u as int]@.len() && adj@[u as int]@[k] == v;
                            let fi = choose|fi: int| 0 <= fi < f0.push(node).len() && f0.push(node)[fi] == u;
                            if fi < f0.len() {
                                assert(visited@[adj@[f0[fi] as int]@[k] as int]);
                            } else {
                                assert(visited@[adj@[st0[top as int].0 as int]@[k] as int]);
                            }
                            assert(visited@[v as int]);
                            if f0.contains(v) {
                                let q = choose|q: int| 0 <= q < f0.len() && f0[q] == v;
                                assert(f0.push(node)[q] == v);
                            } else if v == node {
                                assert(f0.push(node)[f0.len() as int] == v);
                            } else {
                                assert(sn.contains(v));
                                let q = choose|q: int| 0 <= q < sn.len() && sn[q] == v;
                                assert(q != sn.len() - 1);
                                assert(sn.drop_last()[q] == v);
                            }
                        }
                        lemma_finish_top(pairs, f0, sn);
                        assert(!f0.contains(node));
                    }
                    order.push(node);
                    stack.pop();
                    proof {
                        let sn = stack_nodes(st0);
                        assert(stack_nodes(stack@) =~= sn.drop_last());
                        assert(order@ =~= f0.push(node));
                        assert forall|a: int, b: int| 0 <= a < b < order@.len() implies order@[a] != order@[b] by {
                            if b == f0.len() {
                                assert(f0[a] == order@[a]);
                                assert(f0.contains(order@[a]));
                            } else {
                                assert(f0[a] == order@[a] && f0[b] == order@[b]);
                            }
                        }
                        assert forall|v: usize| v < n implies (visited@[v as int] <==> (order@.contains(v)
                            || stack_nodes(stack@).contains(v))) by {
                            if f0.contains(v) {
                                let q = choose|q: int| 0 <= q < f0.len() && f0[q] == v;
                                assert(order@[q] == v);
                            }
                            if stack_nodes(stack@).contains(v) {
                                let q = choose|q: int| 0 <= q < stack_nodes(stack@).len() && stack_nodes(stack@)[q] == v;
                                assert(sn[q] == v);
                            }
                            if sn.contains(v) && v != node {
                                let q = choose|q: int| 0 <= q < sn.len() && sn[q] == v;
                                assert(stack_nodes(stack@)[q] == v);
                            }
                            if order@.contains(v) && v != node {
                                let q = choose|q: int| 0 <= q < order@.len() && order@[q] == v;
                                assert(f0[q] == v);
                            }
                            assert(order@[f0.len() as int] == node);
                        }
                        assert forall|v: usize| !(order@.contains(v) && stack_nodes(stack@).contains(v)) by {
                            if order@.contains(v) && stack_nodes(stack@).contains(v) {
                                let q = choose|q: int| 0 <= q < stack_nodes(stack@).len() && stack_nodes(stack@)[q] == v;
                                assert(sn[q] == v);
                                assert(sn.contains(v));
                                let r = choose|r: int| 0 <= r < order@.len() && order@[r] == v;
                                if r < f0.len() {
                                    assert(f0[r] == v);
                                    assert(f0.contains(v));
                                } else {
                                    assert(sn[q] == sn[sn.len() - 1]);
                                }
                            }
                        }
                        let sn2 = stack_nodes(stack@);
                        assert forall|i: int| 0 <= i < sn2.len() - 1 implies #[trigger] stack_step(pairs, sn2, i) by {
                            assert(stack_step(pairs, sn, i));
                        }
                        assert forall|b: int, k: int|
                            0 <= b < order@.len() && 0 <= k < adj@[order@[b] as int]@.len()
                                implies visited@[#[trigger] adj@[order@[b] as int]@[k] as int] by {
                            if b == f0.len() {
                                assert(st0[top as int].1 == adj@[node as int]@.len());
                            }
                        }
                    }
                }
            }
        }
        start = start + 1;
    }
    proof {
        assert forall|v: usize| v < n implies order@.contains(v) by {
            assert(visited@[v as int]);
        }
    }
    order
}

proof fn lemma_distinct_bounded(s: Seq<usize>, n: nat)
    requires
        s.no_duplicates(),
        forall|k: int| 0 <= k < s.len() ==> s[k] < n,
    ensures
        s.len() <= n,
    decreases n,
{
    if n == 0 {
        if s.len() > 0 {
            assert(s[0] < 0);
        }
    } else {
        let top = (n - 1) as usize;
        if s.contains(top) {
            let k = choose|k: int| 0 <= k < s.len() && s[k] == top;
            let r = s.remove(k);
            assert forall|a: int, b: int| 0 <= a < b < r.len() implies r[a] != r[b] by {
                let a2 = if a < k { a } else { a + 1 };
                let b2 = if b < k { b } else { b + 1 };
                assert(r[a] == s[a2] && r[b] == s[b2]);
            }
            assert forall|j: int| 0 <= j < r.len() implies r[j] < (n - 1) as nat by {
                let j2 = if j < k { j } else { j + 1 };
                assert(r[j] == s[j2]);
                assert(s[j2] != s[k]);
            }
            lemma_distinct_bounded(r, (n - 1) as nat);
        } else {
            assert forall|j: int| 0 <= j < s.len() implies s[j] < (n - 1) as nat by {
                assert(s[j] != top);
            }
            lemma_distinct_bounded(s, (n - 1) as nat);
        }
    }
}

/// A walk between two different competitors stays below `n`.
proof fn lemma_reaches_in_range(pairs: Seq<PairRecord>, n: nat, u: usize, v: usize)
    requires
        pairs_in_range(pairs, n),
        reaches(pairs, u, v),
        u != v,
    ensures
        u < n,
        v < n,
{
    let w = choose|w: Seq<usize>| #[trigger] is_walk(pairs, w) && w[0] == u && w[w.len() - 1] == v;
    assert(w.len() >= 2);
    assert(walk_step(pairs, w, 0));
    lemma_edge_in_range(pairs, n, w[0], w[1]);
    assert(walk_step(pairs, w, w.len() - 2));
    lemma_edge_in_range(pairs, n, w[w.len() - 2], w[w.len() - 1]);
}

/// Any two points of a walk, in order, are connected by a walk.
proof fn lemma_walk_between(pairs: Seq<PairRecord>, w: Seq<usize>, i: int, j: int)
    requires
        is_walk(pairs, w),
        0 <= i <= j < w.len(),
    ensures
        reaches(pairs, w[i], w[j]),
{
    let sub = w.subrange(i, j + 1);
    assert forall|k: int| 0 <= k < sub.len() - 1 implies #[trigger] walk_step(pairs, sub, k) by {
        assert(walk_step(pairs, w, i + k));
    }
    assert(is_walk(pairs, sub));
}

/// The label assigned to `v` (`usize::MAX` while unassigned).
spec fn label(comp: Seq<usize>, v: usize) -> usize {
    comp[v as int]
}

/// Some competitor below `n` carries label `c`.
spec fn label_used(comp: Seq<usize>, n: nat, c: usize) -> bool {
    exists|v: usize| v < n && #[trigger] label(comp, v) == c
}

/// A partial labelling whose assigned competitors form whole components,
/// one label per component, numbered along the reachability order.
spec fn labels_ok(pairs: Seq<PairRecord>, n: nat, comp: Seq<usize>, num: usize) -> bool {
    &&& comp.len() == n
    &&& forall|v: usize| v < n ==> #[trigger] label(comp, v) == usize::MAX || label(comp, v) < num
    &&& forall|u: usize, v: usize|
        u < n && v < n && #[trigger] label(comp, u) != usize::MAX && #[trigger] label(comp, v)
            != usize::MAX ==> (label(comp, u) == label(comp, v) <==> mutually_reachable(pairs, u, v))
    &&& forall|u: usize, v: usize|
        u < n && v < n && label(comp, u) != usize::MAX && #[trigger] mutually_reachable(pairs, u, v)
            ==> label(comp, v) != usize::MAX
    &&& forall|c: usize| c < num ==> #[trigger] label_used(comp, n, c)
    &&& forall|u: usize, v: usize|
        u < n && v < n && label(comp, v) != usize::MAX && label(comp, u) == usize::MAX
            ==> !#[trigger] reaches(pairs, u, v)
    &&& forall|u: usize, v: usize|
        u < n && v < n && label(comp, u) != usize::MAX && label(comp, v) != usize::MAX
            && #[trigger] reaches(pairs, u, v) ==> label(comp, u) <= label(comp, v)
}

/// A competitor that reaches the round's start but is reached back by
/// nothing in it would have a component member finished later, which is
/// already labelled; so every unlabelled competitor reaching the start is
/// in the start's component.
proof fn lemma_reaching_start_is_in_component(
    pairs: Seq<PairRecord>,
    n: nat,
    order: Seq<usize>,
    idx: int,
    comp: Seq<usize>,
    num: usize,
    x: usize,
)
    requires
        pairs_in_range(pairs, n),
        labels_ok(pairs, n, comp, num),
        finishing_ok(pairs, order),
        forall|v: usize| v < n ==> order.contains(v),
        forall|k: int| 0 <= k < order.len() ==> order[k] < n,
        0 <= idx < order.len(),
        forall|q: int| idx < q < order.len() ==> label(comp, #[trigger] order[q]) != usize::MAX,
        x < n,
        label(comp, x) == usize::MAX,
        reaches(pairs, x, order[idx]),
    ensures
        reaches(pairs, order[idx], x),
{
    let start = order[idx];
    if !reaches(pairs, start, x) {
        assert(finishes_after(pairs, order, idx));
        let z = choose|z: usize| mutually_reachable(pairs, x, z) && !order.subrange(0, idx + 1).contains(z);
        if z == x {
            lemma_reaches_refl(pairs, x);
        }
        if z != x {
            lemma_reaches_in_range(pairs, n, x, z);
        }
        assert(order.contains(z));
        let q = choose|q: int| 0 <= q < order.len() && order[q] == z;
        if q <= idx {
            assert(order.subrange(0, idx + 1)[q] == z);
        }
        assert(label(comp, order[q]) != usize::MAX);
        assert(mutually_reachable(pairs, z, x));
        assert(label(comp, x) != usize::MAX);
    }
}

/// One round's labels, pulled back along a walk ending at the round's
/// start: every competitor on the walk carries the round's label.
proof fn lemma_cover_suffix(
    pairs: Seq<PairRecord>,
    n: nat,
    radj: Seq<Vec<usize>>,
    c0: Seq<usize>,
    num: usize,
    comp: Seq<usize>,
    start: usize,
    wk: Seq<usize>,
    j: int,
)
    requires
        pairs_in_range(pairs, n),
        backward_exact(pairs, n, radj),
        labels_ok(pairs, n, c0, num),
        comp.len() == n,
        start < n,
        label(c0, start) == usize::MAX,
        label(comp, start) == num,
        forall|v: usize| v < n && label(c0, v) != usize::MAX ==> #[trigger] label(comp, v) == label(c0, v),
        forall|v: usize| v < n && label(c0, v) == usize::MAX ==> #[trigger] label(comp, v) == usize::MAX || label(comp, v) == num,
        forall|v: usize, k: int|
            v < n && label(comp, v) == num && 0 <= k < radj[v as int]@.len() ==> label(comp, #[trigger] radj[v as int]@[k]) != usize::MAX,
        is_walk(pairs, wk),
        wk[wk.len() - 1] == start,
        reaches(pairs, start, wk[0]),
        0 <= j < wk.len(),
    ensures
        label(comp, wk[j]) == num,
    decreases wk.len() - j,
{
    if j < wk.len() - 1 {
        lemma_cover_suffix(pairs, n, radj, c0, num, comp, start, wk, j + 1);
        assert(walk_step(pairs, wk, j));
        let x = wk[j];
        let y = wk[j + 1];
        lemma_edge_in_range(pairs, n, x, y);
        assert(radj[y as int]@.contains(x));
        let k = choose|k: int| 0 <= k < radj[y as int]@.len() && radj[y as int]@[k] == x;
        assert(label(comp, radj[y as int]@[k]) != usize::MAX);
        lemma_walk_between(pairs, wk, j, wk.len() - 1);
        lemma_walk_between(pairs, wk, 0, j);
        lemma_reaches_trans(pairs, start, wk[0], x);
        assert(mutually_reachable(pairs, x, start));
        if label(c0, x) != usize::MAX {
            assert(label(c0, start) != usize::MAX);
        }
    }
}

/// Closing a round: once the round's search has nothing left to explore,
/// its label covers exactly the start's component and the labelling stays
/// consistent.
proof fn lemma_close_round(
    pairs: Seq<PairRecord>,
    n: nat,
    radj: Seq<Vec<usize>>,
    order: Seq<usize>,
    idx: int,
    c0: Seq<usize>,
    num: usize,
    comp: Seq<usize>,
)
    requires
        pairs_in_range(pairs, n),
        backward_exact(pairs, n, radj),
        labels_ok(pairs, n, c0, num),
        num < usize::MAX,
        finishing_ok(pairs, order),
        forall|v: usize| v < n ==> order.contains(v),
        forall|k: int| 0 <= k < order.len() ==> order[k] < n,
        0 <= idx < order.len(),
        forall|q: int| idx < q < order.len() ==> label(c0, #[trigger] order[q]) != usize::MAX,
        label(c0, order[idx]) == usize::MAX,
        comp.len() == n,
        label(comp, order[idx]) == num,
        forall|v: usize| v < n && label(c0, v) != usize::MAX ==> #[trigger] label(comp, v) == label(c0, v),
        forall|v: usize| v < n && label(c0, v) == usize::MAX ==> #[trigger] label(comp, v) == usize::MAX || label(comp, v) == num,
        forall|v: usize| v < n && #[trigger] label(comp, v) == num ==> mutually_reachable(pairs, v, order[idx]),
        forall|v: usize, k: int|
            v < n && label(comp, v) == num && 0 <= k < radj[v as int]@.len() ==> label(comp, #[trigger] radj[v as int]@[k]) != usize::MAX,
    ensures
        labels_ok(pairs, n, comp, (num + 1) as usize),
        forall|v: usize| v < n && mutually_reachable(pairs, v, order[idx]) ==> #[trigger] label(comp, v) == num,
{
    let start = order[idx];
    assert(start < n);
    assert forall|v: usize| v < n && mutually_reachable(pairs, v, start) implies #[trigger] label(comp, v) == num by {
        let wk = choose|wk: Seq<usize>| #[trigger] is_walk(pairs, wk) && wk[0] == v && wk[wk.len() - 1] == start;
        lemma_cover_suffix(pairs, n, radj, c0, num, comp, start, wk, 0);
    }
    let m = (num + 1) as usize;
    assert forall|v: usize| v < n implies #[trigger] label(comp, v) == usize::MAX || label(comp, v) < m by {
        assert(label(c0, v) == usize::MAX || label(c0, v) < num);
    }
    assert forall|u: usize, v: usize|
        u < n && v < n && #[trigger] label(comp, u) != usize::MAX && #[trigger] label(comp, v) != usize::MAX
        implies (label(comp, u) == label(comp, v) <==> mutually_reachable(pairs, u, v)) by {
        assert(label(c0, u) == usize::MAX || label(c0, u) < num);
        assert(label(c0, v) == usize::MAX || label(c0, v) < num);
        if label(c0, u) != usize::MAX && label(c0, v) != usize::MAX {
        } else if label(c0, u) == usize::MAX && label(c0, v) == usize::MAX {
            if label(comp, u) == num && label(comp, v) == num {
                lemma_reaches_trans(pairs, u, start, v);
                lemma_reaches_trans(pairs, v, start, u);
            }
        } else if label(c0, u) != usize::MAX {
            if mutually_reachable(pairs, u, v) {
                assert(label(c0, v) != usize::MAX);
            }
        } else {
            if mutually_reachable(pairs, u, v) {
                assert(mutually_reachable(pairs, v, u));
                assert(label(c0, u) != usize::MAX);
            }
        }
    }
    assert forall|u: usize, v: usize|
        u < n && v < n && label(comp, u) != usize::MAX && #[trigger] mutually_reachable(pairs, u, v)
        implies label(comp, v) != usize::MAX by {
        if label(c0, u) != usize::MAX {
            assert(label(c0, v) != usize::MAX);
        } else {
            assert(label(comp, u) == num);
            lemma_reaches_trans(pairs, v, u, start);
            lemma_reaches_trans(pairs, start, u, v);
            assert(mutually_reachable(pairs, v, start));
        }
    }
    assert forall|c: usize| c < m implies #[trigger] label_used(comp, n, c) by {
        if c < num {
            assert(label_used(c0, n, c));
            let v = choose|v: usize| v < n && #[trigger] label(c0, v) == c;
            assert(label(comp, v) == c);
        } else {
            assert(label(comp, start) == c);
        }
    }
    assert forall|u: usize, v: usize|
        u < n && v < n && label(comp, v) != usize::MAX && label(comp, u) == usize::MAX
        implies !#[trigger] reaches(pairs, u, v) by {
        if reaches(pairs, u, v) {
            assert(label(c0, u) == usize::MAX);
            if label(c0, v) != usize::MAX {
            } else {
                assert(label(comp, v) == num);
                lemma_reaches_trans(pairs, u, v, start);
                lemma_reaching_start_is_in_component(pairs, n, order, idx, c0, num, u);
                assert(mutually_reachable(pairs, u, start));
            }
        }
    }
    assert forall|u: usize, v: usize|
        u < n && v < n && label(comp, u) != usize::MAX && label(comp, v) != usize::MAX
        && #[trigger] reaches(pairs, u, v) implies label(comp, u) <= label(comp, v) by {
        assert(label(c0, u) == usize::MAX || label(c0, u) < num);
        assert(label(c0, v) == usize::MAX || label(c0, v) < num);
        if label(c0, u) == usize::MAX && label(c0, v) != usize::MAX {
            assert(!reaches(pairs, u, v));
        }
    }
}

/// Some competitor below `n` is in component `c`.
pub open spec fn component_used(component_of: Seq<usize>, n: nat, c: usize) -> bool {
    exists|i: usize| i < n && #[trigger] component_of[i as int] == c
}

spec fn count_unlabeled(comp: Seq<usize>) -> nat
    decreases comp.len(),
{
    if comp.len() == 0 {
        0
    } else {
        count_unlabeled(comp.drop_last()) + if comp[comp.len() - 1] == usize::MAX {
            1nat
        } else {
            0nat
        }
    }
}

proof fn lemma_label_one(comp: Seq<usize>, j: int, c: usize)
    requires
        0 <= j < comp.len(),
        comp[j] == usize::MAX,
        c != usize::MAX,
    ensures
        count_unlabeled(comp.update(j, c)) + 1 == count_unlabeled(comp),
    decreases comp.len(),
{
    let c2 = comp.update(j, c);
    if j == comp.len() - 1 {
        assert(c2.drop_last() =~= comp.drop_last());
    } else {
        assert(c2.drop_last() =~= comp.drop_last().update(j, c));
        lemma_label_one(comp.drop_last(), j, c);
    }
}

/// Kosaraju's algorithm on the directed graph implied by `pairs` (an edge
/// `a -> b` when `a` won at least one game against `b` or they drew at
/// least once; a draw therefore creates edges both ways). Iterative, not
/// recursive. Components are numbered in the order the second pass finds
/// them, which follows reachability: a component that reaches another gets
/// the smaller number.
pub fn strongly_connected_components(n_competitors: usize, pairs: &[PairRecord]) -> (r: Connectivity)
    requires
        pairs_in_range(pairs@, n_competitors as nat),
    ensures
        r.component_of@.len() == n_competitors,
        r.num_components <= n_competitors,
        forall|i: usize| i < n_competitors ==> #[trigger] r.component_of@[i as int] < r.num_components,
        forall|i: usize, j: usize|
            i < n_competitors && j < n_competitors ==> (r.component_of@[i as int] == r.component_of@[j as int]
                <==> #[trigger] mutually_reachable(pairs@, i, j)),
        forall|c: usize| c < r.num_components ==> #[trigger] component_used(r.component_of@, n_competitors as nat, c),
        forall|i: usize, j: usize|
            i < n_competitors && j < n_competitors && #[trigger] reaches(pairs@, i, j)
                ==> r.component_of@[i as int] <= r.component_of@[j as int],
{
    let n = n_competitors;
    let (adj, radj) = build_adjacency(n, pairs);
    let order = finish_order(n, &adj, Ghost(pairs@));
    proof {
        lemma_distinct_bounded(order@, n as nat);
    }
    let mut component_of: Vec<usize> = Vec::new();
    let mut j: usize = 0;
    while j < n
        invariant
            j <= n,
            component_of@.len() == j,
            forall|x: int| 0 <= x < j ==> component_of@[x] == usize::MAX,
        decreases n - j,
    {
        component_of.push(usize::MAX);
        j = j + 1;
    }
    let mut num_components: usize = 0;
    let mut idx: usize = order.len();
    proof {
        assert forall|u: usize, v: usize|
            u < n && v < n && label(component_of@, v) != usize::MAX && label(component_of@, u) == usize::MAX
            implies !#[trigger] reaches(pairs@, u, v) by {
            assert(component_of@[v as int] == usize::MAX);
        }
    }
    while idx > 0
        invariant
            idx <= order@.len() <= n,
            pairs_in_range(pairs@, n as nat),
            backward_exact(pairs@, n as nat, radj@),
            finishing_ok(pairs@, order@),
            forall|v: usize| v < n ==> order@.contains(v),
            forall|k: int| 0 <= k < order@.len() ==> order@[k] < n,
            labels_ok(pairs@, n as nat, component_of@, num_components),
            num_components + idx <= order@.len(),
            forall|q: int| idx <= q < order@.len() ==> label(component_of@, #[trigger] order@[q]) != usize::MAX,
        decreases idx,
    {
        idx = idx - 1;
        let start = order[idx];
        if component_of[start] == usize::MAX {
            let comp = num_components;
            let ghost c0 = component_of@;
            let ghost pos = idx as int;
            num_components = num_components + 1;
            component_of.set(start, comp);
            let mut stack: Vec<usize> = Vec::new();
            stack.push(start);
            proof {
                lemma_reaches_refl(pairs@, start);
                assert(label(component_of@, start) == comp);
                assert(stack@[0] == start);
                assert forall|v: usize| v < n && #[trigger] label(component_of@, v) == comp implies v == start by {
                    if v != start {
                        assert(label(component_of@, v) == label(c0, v));
                        assert(label(c0, v) == usize::MAX || label(c0, v) < comp);
                    }
                }
                assert forall|v: usize| v < n && label(c0, v) != usize::MAX implies #[trigger] label(component_of@, v) == label(c0, v) by {
                    if v == start {
                    }
                }
            }
            while stack.len() > 0
                invariant
                    pairs_in_range(pairs@, n as nat),
                    backward_exact(pairs@, n as nat, radj@),
                    finishing_ok(pairs@, order@),
                    forall|v: usize| v < n ==> order@.contains(v),
                    forall|k: int| 0 <= k < order@.len() ==> order@[k] < n,
                    0 <= pos < order@.len(),
                    order@[pos] == start,
                    start < n,
                    labels_ok(pairs@, n as nat, c0, comp),
                    comp < usize::MAX,
                    forall|q: int| pos < q < order@.len() ==> label(c0, #[trigger] order@[q]) != usize::MAX,
                    label(c0, start) == usize::MAX,
                    component_of@.len() == n,
                    label(component_of@, start) == comp,
                    forall|v: usize| v < n && label(c0, v) != usize::MAX ==> #[trigger] label(component_of@, v) == label(c0, v),
                    forall|v: usize| v < n && label(c0, v) == usize::MAX ==> #[trigger] label(component_of@, v) == usize::MAX || label(component_of@, v) == comp,
                    forall|v: usize| v < n && #[trigger] label(component_of@, v) == comp ==> mutually_reachable(pairs@, v, start),
                    stack@.no_duplicates(),
                    forall|k: int| 0 <= k < stack@.len() ==> (#[trigger] stack@[k]) < n && label(component_of@, stack@[k]) == comp,
                    forall|v: usize, k: int|
                        v < n && label(component_of@, v) == comp && !stack@.contains(v) && 0 <= k < radj@[v as int]@.len()
                            ==> label(component_of@, #[trigger] radj@[v as int]@[k]) != usize::MAX,
                decreases count_unlabeled(component_of@) + stack@.len(),
            {
                let ghost st0 = stack@;
                let node = stack.pop().unwrap();
                proof {
                    assert(stack@ =~= st0.drop_last());
                    assert(node == st0[st0.len() - 1]);
                    assert(!stack@.contains(node)) by {
                        if stack@.contains(node) {
                            let q = choose|q: int| 0 <= q < stack@.len() && stack@[q] == node;
                            assert(st0[q] == st0[st0.len() - 1]);
                        }
                    }
                    assert forall|v: usize| stack@.contains(v) implies #[trigger] st0.contains(v) by {
                        let q = choose|q: int| 0 <= q < stack@.len() && stack@[q] == v;
                        assert(st0[q] == v);
                    }
                    assert forall|v: usize| st0.contains(v) && v != node implies #[trigger] stack@.contains(v) by {
                        let q = choose|q: int| 0 <= q < st0.len() && st0[q] == v;
                        assert(q < st0.len() - 1);
                        assert(stack@[q] == v);
                    }
                }
                let ghost before_scan = count_unlabeled(component_of@) + stack@.len();
                let mut k: usize = 0;
                while k < radj[node].len()
                    invariant
                        pairs_in_range(pairs@, n as nat),
                        backward_exact(pairs@, n as nat, radj@),
                        finishing_ok(pairs@, order@),
                        forall|v: usize| v < n ==> order@.contains(v),
                        forall|k: int| 0 <= k < order@.len() ==> order@[k] < n,
                        0 <= pos < order@.len(),
                        order@[pos] == start,
                        start < n,
                        node < n,
                        labels_ok(pairs@, n as nat, c0, comp),
                        comp < usize::MAX,
                        forall|q: int| pos < q < order@.len() ==> label(c0, #[trigger] order@[q]) != usize::MAX,
                        label(c0, start) == usize::MAX,
                        component_of@.len() == n,
                        label(component_of@, start) == comp,
                        label(component_of@, node) == comp,
                        forall|v: usize| v < n && label(c0, v) != usize::MAX ==> #[trigger] label(component_of@, v) == label(c0, v),
                        forall|v: usize| v < n && label(c0, v) == usize::MAX ==> #[trigger] label(component_of@, v) == usize::MAX || label(component_of@, v) == comp,
                        forall|v: usize| v < n && #[trigger] label(component_of@, v) == comp ==> mutually_reachable(pairs@, v, start),
                        stack@.no_duplicates(),
                        !stack@.contains(node),
                        forall|k: int| 0 <= k < stack@.len() ==> (#[trigger] stack@[k]) < n && label(component_of@, stack@[k]) == comp,
                        forall|v: usize, k: int|
                            v < n && v != node && label(component_of@, v) == comp && !stack@.contains(v) && 0 <= k < radj@[v as int]@.len()
                                ==> label(component_of@, #[trigger] radj@[v as int]@[k]) != usize::MAX,
                        k <= radj@[node as int]@.len(),
                        forall|j: int| 0 <= j < k ==> label(component_of@, #[trigger] radj@[node as int]@[j]) != usize::MAX,
                        count_unlabeled(component_of@) + stack@.len() == before_scan,
                    decreases radj@[node as int]@.len() - k,
                {
                    let neighbor = radj[node][k];
                    if component_of[neighbor] == usize::MAX {
                        let ghost cm = component_of@;
                        let ghost st1 = stack@;
                        proof {
                            assert(neighbor < n);
                            assert(scores_against(pairs@, neighbor, node));
                            lemma_reaches_edge(pairs@, neighbor, node);
                            assert(mutually_reachable(pairs@, node, start));
                            lemma_reaches_trans(pairs@, neighbor, node, start);
                            assert(label(c0, neighbor) == usize::MAX);
                            lemma_reaching_start_is_in_component(pairs@, n as nat, order@, pos, c0, comp, neighbor);
                            lemma_label_one(cm, neighbor as int, comp);
                            assert(!st1.contains(neighbor)) by {
                                if st1.contains(neighbor) {
                                    let q = choose|q: int| 0 <= q < st1.len() && st1[q] == neighbor;
                                    assert(label(cm, st1[q]) == comp);
                                }
                            }
                        }
                        component_of.set(neighbor, comp);
                        stack.push(neighbor);
                        proof {
                            assert(label(component_of@, neighbor) == comp);
                            assert forall|v: usize| v < n && label(c0, v) != usize::MAX implies #[trigger] label(component_of@, v) == label(c0, v) by {
                                if v == neighbor {
                                    assert(label(c0, neighbor) == usize::MAX);
                                } else {
                                    assert(label(component_of@, v) == label(cm, v));
                                    assert(label(cm, v) == label(c0, v));
                                }
                            }
                            assert(mutually_reachable(pairs@, neighbor, start));
                            assert forall|v: usize| v < n && #[trigger] label(component_of@, v) == comp implies mutually_reachable(pairs@, v, start) by {
                                if v != neighbor {
                                    assert(label(component_of@, v) == label(cm, v));
                                }
                            }
                            assert forall|v: usize| v < n && label(c0, v) == usize::MAX implies #[trigger] label(component_of@, v) == usize::MAX || label(component_of@, v) == comp by {
                                if v != neighbor {
                                    assert(label(component_of@, v) == label(cm, v));
                                }
                            }
                            assert forall|v: usize| v < n && label(cm, v) != usize::MAX implies label(component_of@, v) == label(cm, v) by {
                                if v == neighbor {
                                    assert(label(cm, neighbor) == usize::MAX);
                                }
                            }
                            assert forall|a: int, b: int| 0 <= a < b < stack@.len() implies stack@[a] != stack@[b] by {
                                if b == stack@.len() - 1 {
                                    assert(st1[a] == stack@[a]);
                                    assert(st1.contains(stack@[a]));
                                } else {
                                    assert(st1[a] == stack@[a] && st1[b] == stack@[b]);
                                }
                            }
                            assert(!stack@.contains(node)) by {
                                if stack@.contains(node) {
                                    let q = choose|q: int| 0 <= q < stack@.len() && stack@[q] == node;
                                    if q < st1.len() {
                                        assert(st1[q] == node);
                                    } else {
                                        assert(label(cm, node) == comp);
                                    }
                                }
                            }
                            assert forall|v: usize| stack@.contains(v) && v != neighbor implies #[trigger] st1.contains(v) by {
                                let q = choose|q: int| 0 <= q < stack@.len() && stack@[q] == v;
                                assert(st1[q] == v);
                            }
                            assert forall|v: usize| st1.contains(v) implies #[trigger] stack@.contains(v) by {
                                let q = choose|q: int| 0 <= q < st1.len() && st1[q] == v;
                                assert(stack@[q] == v);
                            }
                            assert(stack@[stack@.len() - 1] == neighbor);
                            assert forall|x: usize| x < n && label(cm, x) != usize::MAX implies #[trigger] label(component_of@, x) != usize::MAX by {
                                if x != neighbor {
                                    assert(label(component_of@, x) == label(cm, x));
                                }
                            }
                            assert forall|v: usize, j: int|
                                v < n && v != node && label(component_of@, v) == comp && !stack@.contains(v) && 0 <= j < radj@[v as int]@.len()
                                implies label(component_of@, #[trigger] radj@[v as int]@[j]) != usize::MAX by {
                                assert(v != neighbor);
                                assert(label(component_of@, v) == label(cm, v));
                                assert(!st1.contains(v));
                                assert(label(cm, radj@[v as int]@[j]) != usize::MAX);
                            }
                            assert forall|j: int| 0 <= j <= k implies label(component_of@, #[trigger] radj@[node as int]@[j]) != usize::MAX by {
                                if j < k {
                                    assert(label(cm, radj@[node as int]@[j]) != usize::MAX);
                                }
                            }
                        }
                    }
                    k = k + 1;
                }
            }
            proof {
                lemma_close_round(pairs@, n as nat, radj@, order@, pos, c0, comp, component_of@);
                assert forall|q: int| idx <= q < order@.len() implies label(component_of@, #[trigger] order@[q]) != usize::MAX by {
                    if q > idx {
                        assert(label(c0, order@[q]) != usize::MAX);
                    }
                }
            }
        }
    }
    proof {
        assert forall|v: usize| v < n implies label(component_of@, v) != usize::MAX by {
            assert(order@.contains(v));
            let q = choose|q: int| 0 <= q < order@.len() && order@[q] == v;
            assert(label(component_of@, order@[q]) != usize::MAX);
        }
        assert forall|i: usize| i < n implies #[trigger] component_of@[i as int] < num_components by {
            assert(label(component_of@, i) != usize::MAX);
        }
        assert forall|i: usize, j: usize|
            i < n && j < n implies (component_of@[i as int] == component_of@[j as int]
                <==> #[trigger] mutually_reachable(pairs@, i, j)) by {
            assert(label(component_of@, i) != usize::MAX);
            assert(label(component_of@, j) != usize::MAX);
        }
        assert forall|c: usize| c < num_components implies #[trigger] component_used(component_of@, n as nat, c) by {
            assert(label_used(component_of@, n as nat, c));
            let v = choose|v: usize| v < n && #[trigger] label(component_of@, v) == c;
            assert(component_of@[v as int] == c);
        }
        assert forall|i: usize, j: usize|
            i < n && j < n && #[trigger] reaches(pairs@, i, j) implies component_of@[i as int] <= component_of@[j as int] by {
            assert(label(component_of@, i) != usize::MAX);
            assert(label(component_of@, j) != usize::MAX);
        }
    }
    Connectivity { component_of, num_components }
}

/// The competitors below `k` labelled `c`, in increasing order.
pub open spec fn nodes_in(comp: Seq<usize>, c: usize, k: int) -> Seq<usize>
    decreases k,
{
    if k <= 0 {
        Seq::empty()
    } else if comp[k - 1] == c {
        nodes_in(comp, c, k - 1).push((k - 1) as usize)
    } else {
        nodes_in(comp, c, k - 1)
    }
}

/// `p` restated over positions within component `c`.
pub open spec fn localized(comp: Seq<usize>, c: usize, p: PairRecord) -> PairRecord {
    PairRecord {
        a: nodes_in(comp, c, p.a as int).len() as usize,
        b: nodes_in(comp, c, p.b as int).len() as usize,
        a_wins: p.a_wins,
        b_wins: p.b_wins,
        draws: p.draws,
    }
}

/// The pairs of `pairs` with both ends in component `c`, in order,
/// restated over positions within `c`.
pub open spec fn local_pairs(pairs: Seq<PairRecord>, comp: Seq<usize>, c: usize) -> Seq<PairRecord>
    decreases pairs.len(),
{
    if pairs.len() == 0 {
        Seq::empty()
    } else {
        let p = pairs[pairs.len() - 1];
        let rest = local_pairs(pairs.drop_last(), comp, c);
        if comp[p.a as int] == c && comp[p.b as int] == c {
            rest.push(localized(comp, c, p))
        } else {
            rest
        }
    }
}

/// Each component's members, each competitor's position within its
/// component, and each component's own pairs over those positions.
pub struct ComponentSplit {
    pub members: Vec<Vec<usize>>,
    pub local_index: Vec<usize>,
    pub component_pairs: Vec<Vec<PairRecord>>,
}

proof fn lemma_nodes_in_bounds(comp: Seq<usize>, c: usize, k: int)
    requires
        0 <= k <= comp.len(),
        comp.len() <= usize::MAX,
    ensures
        nodes_in(comp, c, k).len() <= k,
        forall|t: int| 0 <= t < nodes_in(comp, c, k).len() ==> (#[trigger] nodes_in(comp, c, k)[t]) < k
            && comp[nodes_in(comp, c, k)[t] as int] == c,
    decreases k,
{
    if k > 0 {
        lemma_nodes_in_bounds(comp, c, k - 1);
        let prev = nodes_in(comp, c, k - 1);
        let cur = nodes_in(comp, c, k);
        assert forall|t: int| 0 <= t < cur.len() implies (#[trigger] cur[t]) < k && comp[cur[t] as int] == c by {
            if t < prev.len() {
                assert(cur[t] == prev[t]);
            } else {
                assert(cur[t] == (k - 1) as usize);
            }
        }
    }
}

/// Splits a labelled graph into its components: `members[c]` lists the
/// competitors labelled `c` in increasing order, `local_index[g]` is `g`'s
/// position in its component's list, and `component_pairs[c]` holds, in
/// order, the pairs with both ends in `c`, over those positions.
pub fn split_components(n_competitors: usize, pairs: &[PairRecord], connectivity: &Connectivity) -> (r: ComponentSplit)
    requires
        connectivity.component_of@.len() == n_competitors,
        forall|i: int| 0 <= i < n_competitors ==> #[trigger] connectivity.component_of@[i] < connectivity.num_components,
        pairs_in_range(pairs@, n_competitors as nat),
    ensures
        r.members@.len() == connectivity.num_components,
        forall|c: int| 0 <= c < connectivity.num_components ==> (#[trigger] r.members@[c])@ == nodes_in(connectivity.component_of@, c as usize, n_competitors as int),
        r.local_index@.len() == n_competitors,
        forall|g: int| 0 <= g < n_competitors ==> #[trigger] r.local_index@[g] == nodes_in(connectivity.component_of@, connectivity.component_of@[g], g).len(),
        r.component_pairs@.len() == connectivity.num_components,
        forall|c: int| 0 <= c < connectivity.num_components ==> (#[trigger] r.component_pairs@[c])@ == local_pairs(pairs@, connectivity.component_of@, c as usize),
{
    let comp = &connectivity.component_of;
    let k = connectivity.num_components;
    let ghost cv = comp@;
    let mut members: Vec<Vec<usize>> = Vec::new();
    let mut component_pairs: Vec<Vec<PairRecord>> = Vec::new();
    let mut c: usize = 0;
    while c < k
        invariant
            0 <= c <= k,
            members@.len() == c,
            component_pairs@.len() == c,
            forall|x: int| 0 <= x < c ==> (#[trigger] members@[x])@.len() == 0,
            forall|x: int| 0 <= x < c ==> (#[trigger] component_pairs@[x])@.len() == 0,
        decreases k - c,
    {
        members.push(Vec::new());
        component_pairs.push(Vec::new());
        c = c + 1;
    }
    proof {
        assert forall|x: int| 0 <= x < k implies (#[trigger] members@[x])@ == nodes_in(cv, x as usize, 0) by {
            assert(members@[x]@ =~= Seq::<usize>::empty());
        }
    }
    let mut local_index: Vec<usize> = Vec::new();
    let mut g: usize = 0;
    while g < n_competitors
        invariant
            cv == comp@,
            cv.len() == n_competitors,
            forall|i: int| 0 <= i < n_competitors ==> #[trigger] cv[i] < k,
            0 <= g <= n_competitors,
            members@.len() == k,
            forall|x: int| 0 <= x < k ==> (#[trigger] members@[x])@ == nodes_in(cv, x as usize, g as int),
            local_index@.len() == g,
            forall|t: int| 0 <= t < g ==> #[trigger] local_index@[t] == nodes_in(cv, cv[t], t).len(),
        decreases n_competitors - g,
    {
        let cg = comp[g];
        proof {
            lemma_nodes_in_bounds(cv, cg, g as int);
            assert(cv[g as int] < k);
        }
        let pos = members[cg].len();
        local_index.push(pos);
        let ghost old_members = members@;
        members[cg].push(g);
        proof {
            assert forall|x: int| 0 <= x < k implies (#[trigger] members@[x])@ == nodes_in(cv, x as usize, g + 1) by {
                if x != cg {
                    assert(members@[x] == old_members[x]);
                }
            }
        }
        g = g + 1;
    }
    let mut i: usize = 0;
    while i < pairs.len()
        invariant
            cv == comp@,
            cv.len() == n_competitors,
            forall|t: int| 0 <= t < n_competitors ==> #[trigger] cv[t] < k,
            pairs_in_range(pairs@, n_competitors as nat),
            0 <= i <= pairs@.len(),
            local_index@.len() == n_competitors,
            forall|t: int| 0 <= t < n_competitors ==> #[trigger] local_index@[t] == nodes_in(cv, cv[t], t).len(),
            component_pairs@.len() == k,
            forall|x: int| 0 <= x < k ==> (#[trigger] component_pairs@[x])@ == local_pairs(pairs@.subrange(0, i as int), cv, x as usize),
        decreases pairs@.len() - i,
    {
        let p = pairs[i];
        proof {
            assert(pairs@[i as int].a < n_competitors && pairs@[i as int].b < n_competitors);
            assert(pairs@.subrange(0, i + 1).drop_last() =~= pairs@.subrange(0, i as int));
            assert(pairs@.subrange(0, i + 1)[i as int] == p);
        }
        let ca = comp[p.a];
        let ghost old_cp = component_pairs@;
        if ca == comp[p.b] {
            let q = PairRecord { a: local_index[p.a], b: local_index[p.b], a_wins: p.a_wins, b_wins: p.b_wins, draws: p.draws };
            proof {
                assert(cv[p.a as int] < k);
                assert(q == localized(cv, ca, p));
            }
            component_pairs[ca].push(q);
            proof {
                assert forall|x: int| 0 <= x < k implies (#[trigger] component_pairs@[x])@ == local_pairs(pairs@.subrange(0, i + 1), cv, x as usize) by {
                    if x != ca {
                        assert(component_pairs@[x] == old_cp[x]);
                    }
                }
            }
        } else {
            proof {
                assert forall|x: int| 0 <= x < k implies (#[trigger] component_pairs@[x])@ == local_pairs(pairs@.subrange(0, i + 1), cv, x as usize) by {
                    assert(component_pairs@[x] == old_cp[x]);
                }
            }
        }
        i = i + 1;
    }
    proof {
        assert(pairs@.subrange(0, pairs@.len() as int) =~= pairs@);
    }
    ComponentSplit { members, local_index, component_pairs }
}

proof fn lemma_nodes_in_prefix(comp: Seq<usize>, c: usize, g: int, k: int)
    requires
        0 <= g < k <= comp.len(),
        comp.len() <= usize::MAX,
        comp[g] == c,
    ensures
        nodes_in(comp, c, g).len() < nodes_in(comp, c, k).len(),
        nodes_in(comp, c, k)[nodes_in(comp, c, g).len() as int] == g,
    decreases k,
{
    if k - 1 == g {
        assert(nodes_in(comp, c, k) == nodes_in(comp, c, g).push(g as usize));
    } else {
        lemma_nodes_in_prefix(comp, c, g, k - 1);
    }
}

/// Every competitor sits in its own component's member list at its local
/// index, so local positions and global indices translate both ways.
pub proof fn law_local_index_finds_member(comp: Seq<usize>, n: int, g: int)
    requires
        comp.len() == n,
        n <= usize::MAX,
        0 <= g < n,
    ensures
        nodes_in(comp, comp[g], g).len() < nodes_in(comp, comp[g], n).len(),
        nodes_in(comp, comp[g], n)[nodes_in(comp, comp[g], g).len() as int] == g,
{
    lemma_nodes_in_prefix(comp, comp[g], g, n);
}

/// `(a_wins, b_wins, draws)` summed over `pairs`.
pub open spec fn pair_games(pairs: Seq<PairRecord>) -> (int, int, int)
    decreases pairs.len(),
{
    if pairs.len() == 0 {
        (0, 0, 0)
    } else {
        let t = pair_games(pairs.drop_last());
        let p = pairs[pairs.len() - 1];
        (t.0 + p.a_wins, t.1 + p.b_wins, t.2 + p.draws)
    }
}

/// `(a_wins, b_wins, draws)` summed over the pairs of `pairs` whose two
/// competitors are both labelled `c`.
pub open spec fn games_within(pairs: Seq<PairRecord>, comp: Seq<usize>, c: usize) -> (int, int, int)
    decreases pairs.len(),
{
    if pairs.len() == 0 {
        (0, 0, 0)
    } else {
        let t = games_within(pairs.drop_last(), comp, c);
        let p = pairs[pairs.len() - 1];
        if comp[p.a as int] == c && comp[p.b as int] == c {
            (t.0 + p.a_wins, t.1 + p.b_wins, t.2 + p.draws)
        } else {
            t
        }
    }
}

/// How many pairs of `pairs` have both competitors labelled `c`.
pub open spec fn pairs_within(pairs: Seq<PairRecord>, comp: Seq<usize>, c: usize) -> nat
    decreases pairs.len(),
{
    if pairs.len() == 0 {
        0
    } else {
        let p = pairs[pairs.len() - 1];
        pairs_within(pairs.drop_last(), comp, c) + if comp[p.a as int] == c && comp[p.b as int] == c { 1nat } else { 0nat }
    }
}

/// Splitting into components keeps every game: a component's own pairs
/// (what `split_components` hands the rating fit) hold, field by field, as
/// many wins for each side and as many draws as the original pairs with
/// both competitors in that component, one local pair per such pair.
pub proof fn law_split_keeps_every_game(pairs: Seq<PairRecord>, comp: Seq<usize>, c: usize)
    ensures
        pair_games(local_pairs(pairs, comp, c)) == games_within(pairs, comp, c),
        local_pairs(pairs, comp, c).len() == pairs_within(pairs, comp, c),
    decreases pairs.len(),
{
    if pairs.len() > 0 {
        law_split_keeps_every_game(pairs.drop_last(), comp, c);
        let p = pairs[pairs.len() - 1];
        let rest = local_pairs(pairs.drop_last(), comp, c);
        if comp[p.a as int] == c && comp[p.b as int] == c {
            assert(rest.push(localized(comp, c, p)).drop_last() =~= rest);
        }
    }
}

/// Games of `p` across its three kinds of result.
pub open spec fn games_of(p: PairRecord) -> int {
    p.a_wins + p.b_wins + p.draws
}

/// `p` with one game of kind `kind` (a win for `a`, a win for `b`, or a
/// draw) taken away.
pub open spec fn without_one(p: PairRecord, kind: MatchOutcome) -> PairRecord {
    match kind {
        MatchOutcome::AWin => PairRecord { a_wins: (p.a_wins - 1) as u64, ..p },
        MatchOutcome::BWin => PairRecord { b_wins: (p.b_wins - 1) as u64, ..p },
        MatchOutcome::Draw => PairRecord { draws: (p.draws - 1) as u64, ..p },
    }
}

/// How many games of kind `kind` the pair holds.
pub open spec fn count_of(p: PairRecord, kind: MatchOutcome) -> u64 {
    match kind {
        MatchOutcome::AWin => p.a_wins,
        MatchOutcome::BWin => p.b_wins,
        MatchOutcome::Draw => p.draws,
    }
}

/// The graph with one game of kind `kind` of pair `edge` left out, for the
/// leave-one-game-out jackknife: `None` when the pair has no such game; a
/// pair left without games is dropped rather than kept empty.
pub fn leave_one_game_out(pairs: &[PairRecord], edge: usize, kind: MatchOutcome) -> (r: Option<Vec<PairRecord>>)
    requires
        edge < pairs@.len(),
    ensures
        count_of(pairs@[edge as int], kind) == 0 <==> r is None,
        r is Some ==> {
            let p = without_one(pairs@[edge as int], kind);
            r->0@ == (if games_of(p) == 0 {
                pairs@.remove(edge as int)
            } else {
                pairs@.update(edge as int, p)
            })
        },
{
    let p = pairs[edge];
    let q = match kind {
        MatchOutcome::AWin => {
            if p.a_wins == 0 {
                return None;
            }
            PairRecord { a_wins: p.a_wins - 1, ..p }
        },
        MatchOutcome::BWin => {
            if p.b_wins == 0 {
                return None;
            }
            PairRecord { b_wins: p.b_wins - 1, ..p }
        },
        MatchOutcome::Draw => {
            if p.draws == 0 {
                return None;
            }
            PairRecord { draws: p.draws - 1, ..p }
        },
    };
    let empty = q.a_wins == 0 && q.b_wins == 0 && q.draws == 0;
    let mut out: Vec<PairRecord> = Vec::new();
    let mut i: usize = 0;
    while i < pairs.len()
        invariant
            0 <= i <= pairs@.len(),
            edge < pairs@.len(),
            q == without_one(pairs@[edge as int], kind),
            empty == (games_of(q) == 0),
            i <= edge ==> out@ == pairs@.subrange(0, i as int),
            i > edge ==> out@ == (if empty {
                pairs@.subrange(0, i as int).remove(edge as int)
            } else {
                pairs@.subrange(0, i as int).update(edge as int, q)
            }),
        decreases pairs@.len() - i,
    {
        let ghost before = out@;
        if i == edge {
            if !empty {
                out.push(q);
            }
        } else {
            out.push(pairs[i]);
        }
        proof {
            if i < edge {
                assert(out@ =~= pairs@.subrange(0, i + 1));
            } else if empty {
                assert(out@ =~= pairs@.subrange(0, i + 1).remove(edge as int));
            } else {
                assert(out@ =~= pairs@.subrange(0, i + 1).update(edge as int, q));
            }
        }
        i = i + 1;
    }
    proof {
        assert(pairs@.subrange(0, pairs@.len() as int) =~= pairs@);
    }
    Some(out)
}

/// Every pair of competitors `(i, j)`, `i < j`, that share a component, in
/// lexicographic order: the pairs a bootstrap can give an interval.
pub open spec fn same_component(comp: Seq<usize>, p: (usize, usize)) -> bool {
    p.0 < p.1 < comp.len() && comp[p.0 as int] == comp[p.1 as int]
}

/// `(a, b)` comes strictly before `(c, d)` lexicographically.
pub open spec fn lex_before(x: (usize, usize), y: (usize, usize)) -> bool {
    x.0 < y.0 || (x.0 == y.0 && x.1 < y.1)
}

/// The pairs of competitors, `i < j`, with the same label, in
/// lexicographic order.
pub fn same_component_pairs(component_of: &[usize]) -> (r: Vec<(usize, usize)>)
    ensures
        forall|k: int| 0 <= k < r@.len() ==> same_component(component_of@, #[trigger] r@[k]),
        forall|i: usize, j: usize| #![trigger component_of@[i as int], component_of@[j as int]]
            same_component(component_of@, (i, j)) ==> r@.contains((i, j)),
        forall|k1: int, k2: int| 0 <= k1 < k2 < r@.len() ==> lex_before(r@[k1], r@[k2]),
{
    let n = component_of.len();
    let mut r: Vec<(usize, usize)> = Vec::new();
    let mut i: usize = 0;
    while i < n
        invariant
            n == component_of@.len(),
            0 <= i <= n,
            forall|k: int| 0 <= k < r@.len() ==> same_component(component_of@, #[trigger] r@[k]),
            forall|k: int| 0 <= k < r@.len() ==> (#[trigger] r@[k]).0 < i,
            forall|k1: int, k2: int| 0 <= k1 < k2 < r@.len() ==> lex_before(r@[k1], r@[k2]),
            forall|x: usize, y: usize| #![trigger component_of@[x as int], component_of@[y as int]]
                x < i && same_component(component_of@, (x, y)) ==> r@.contains((x, y)),
        decreases n - i,
    {
        let mut j: usize = i + 1;
        while j < n
            invariant
                n == component_of@.len(),
                0 <= i < n,
                i + 1 <= j <= n,
                forall|k: int| 0 <= k < r@.len() ==> same_component(component_of@, #[trigger] r@[k]),
                forall|k: int| 0 <= k < r@.len() ==> lex_before(#[trigger] r@[k], (i, j)),
                forall|k1: int, k2: int| 0 <= k1 < k2 < r@.len() ==> lex_before(r@[k1], r@[k2]),
                forall|x: usize, y: usize| #![trigger component_of@[x as int], component_of@[y as int]]
                    (x < i || (x == i && y < j)) && same_component(component_of@, (x, y)) ==> r@.contains((x, y)),
            decreases n - j,
        {
            let ghost old_r = r@;
            if component_of[i] == component_of[j] {
                r.push((i, j));
                proof {
                    assert(r@[old_r.len() as int] == (i, j));
                    assert forall|x: usize, y: usize| #![trigger component_of@[x as int], component_of@[y as int]]
                        (x < i || (x == i && y < j + 1)) && same_component(component_of@, (x, y)) implies r@.contains((x, y)) by {
                        if x == i && y == j {
                            assert(r@[old_r.len() as int] == (x, y));
                        } else {
                            let k = choose|k: int| 0 <= k < old_r.len() && old_r[k] == (x, y);
                            assert(r@[k] == (x, y));
                        }
                    }
                }
            }
            j = j + 1;
        }
        i = i + 1;
    }
    r
}

} // verus!
