//! The order in which `plan` recommends pairs for more trials: pairs with
//! no interval to narrow yet first, then the most uncertain (largest
//! estimate of further trials) first, ties broken by the pair's names.

use vstd::prelude::*;

use crate::matrix::CellStatus;
use crate::text::{lemma_str_le_antisymmetric, lemma_str_le_total, lemma_str_le_transitive, str_eq, str_le, str_le_spec};

verus! {

/// What a recommendation is ordered by.
#[derive(Debug)]
pub struct RecommendationKey {
    /// The pair has an interval to narrow.
    pub has_ci: bool,
    /// The estimated further trials (`None`: no estimate possible).
    pub estimate: Option<u64>,
    pub row: String,
    pub col: String,
}

/// The estimate with a missing one counting as the largest possible.
pub open spec fn estimate_or_max(k: RecommendationKey) -> u64 {
    match k.estimate {
        Some(e) => e,
        None => u64::MAX,
    }
}

/// `a` sorts strictly before `b` in `str` order.
pub open spec fn name_lt(a: Seq<char>, b: Seq<char>) -> bool {
    str_le_spec(a, b) && a != b
}

/// `a` is ordered strictly before `b`: no interval before an interval,
/// then a larger estimate first, then by row name, then by column name.
pub open spec fn key_lt(a: RecommendationKey, b: RecommendationKey) -> bool {
    if a.has_ci != b.has_ci {
        !a.has_ci
    } else if estimate_or_max(a) != estimate_or_max(b) {
        estimate_or_max(a) > estimate_or_max(b)
    } else if a.row@ != b.row@ {
        name_lt(a.row@, b.row@)
    } else {
        name_lt(a.col@, b.col@)
    }
}

/// Two keys order alike.
pub open spec fn key_same(a: RecommendationKey, b: RecommendationKey) -> bool {
    a.has_ci == b.has_ci && estimate_or_max(a) == estimate_or_max(b) && a.row@ == b.row@ && a.col@ == b.col@
}

/// Recommendation `x` is listed before recommendation `y`: by key, and
/// among equal keys in input order.
pub open spec fn listed_before(keys: Seq<RecommendationKey>, x: usize, y: usize) -> bool {
    key_lt(keys[x as int], keys[y as int]) || (key_same(keys[x as int], keys[y as int]) && x < y)
}

proof fn lemma_name_order(a: Seq<char>, b: Seq<char>, c: Seq<char>)
    ensures
        name_lt(a, b) || name_lt(b, a) || a == b,
        !(name_lt(a, b) && name_lt(b, a)),
        name_lt(a, b) && name_lt(b, c) ==> name_lt(a, c),
{
    lemma_str_le_total(a, b);
    if str_le_spec(a, b) && str_le_spec(b, a) {
        lemma_str_le_antisymmetric(a, b);
    }
    if name_lt(a, b) && name_lt(b, c) {
        lemma_str_le_transitive(a, b, c);
        if a == c {
            lemma_str_le_antisymmetric(a, b);
        }
    }
}

proof fn lemma_key_order(a: RecommendationKey, b: RecommendationKey, c: RecommendationKey)
    ensures
        key_lt(a, b) || key_lt(b, a) || key_same(a, b),
        !(key_lt(a, b) && key_lt(b, a)),
        !(key_lt(a, b) && key_same(a, b)),
        key_lt(a, b) && key_lt(b, c) ==> key_lt(a, c),
        key_lt(a, b) && key_same(b, c) ==> key_lt(a, c),
        key_same(a, b) && key_lt(b, c) ==> key_lt(a, c),
{
    lemma_name_order(a.row@, b.row@, c.row@);
    lemma_name_order(a.col@, b.col@, c.col@);
    lemma_name_order(b.row@, a.row@, c.row@);
    lemma_name_order(b.col@, a.col@, c.col@);
}

fn key_less(a: &RecommendationKey, b: &RecommendationKey) -> (r: bool)
    ensures
        r == key_lt(*a, *b),
{
    if a.has_ci != b.has_ci {
        return !a.has_ci;
    }
    let ea = match a.estimate {
        Some(e) => e,
        None => u64::MAX,
    };
    let eb = match b.estimate {
        Some(e) => e,
        None => u64::MAX,
    };
    if ea != eb {
        return ea > eb;
    }
    if !str_eq(a.row.as_str(), b.row.as_str()) {
        return str_le(a.row.as_str(), b.row.as_str());
    }
    str_le(a.col.as_str(), b.col.as_str()) && !str_eq(a.col.as_str(), b.col.as_str())
}

/// The recommendations' positions in the order `plan` lists them: no
/// interval first, then the largest estimate of further trials first, then
/// by row and column name; equal keys keep their input order.
pub fn recommendation_order(keys: &[RecommendationKey]) -> (r: Vec<usize>)
    ensures
        r@.len() == keys@.len(),
        forall|k: int| 0 <= k < r@.len() ==> #[trigger] r@[k] < keys@.len(),
        forall|k1: int, k2: int| 0 <= k1 < k2 < r@.len() ==> listed_before(keys@, r@[k1], r@[k2]),
        forall|i: usize| i < keys@.len() ==> r@.contains(i),
{
    let n = keys.len();
    let mut r: Vec<usize> = Vec::new();
    let mut i: usize = 0;
    while i < n
        invariant
            n == keys@.len(),
            0 <= i <= n,
            r@.len() == i,
            forall|k: int| 0 <= k < r@.len() ==> #[trigger] r@[k] < i,
            forall|k1: int, k2: int| 0 <= k1 < k2 < r@.len() ==> listed_before(keys@, r@[k1], r@[k2]),
            forall|x: usize| x < i ==> r@.contains(x),
        decreases n - i,
    {
        let mut p: usize = 0;
        while p < r.len() && !key_less(&keys[i], &keys[r[p]])
            invariant
                n == keys@.len(),
                0 <= i < n,
                0 <= p <= r@.len(),
                forall|k: int| 0 <= k < r@.len() ==> #[trigger] r@[k] < i,
                forall|k: int| 0 <= k < p ==> !key_lt(keys@[i as int], keys@[#[trigger] r@[k] as int]),
            decreases r@.len() - p,
        {
            p = p + 1;
        }
        let ghost old_r = r@;
        proof {
            assert(forall|x: usize| x < i ==> old_r.contains(x));
            assert forall|k: int| p <= k < old_r.len() implies key_lt(keys@[i as int], keys@[#[trigger] old_r[k] as int]) by {
                assert(key_lt(keys@[i as int], keys@[old_r[p as int] as int]));
                if k > p {
                    assert(listed_before(keys@, old_r[p as int], old_r[k]));
                    lemma_key_order(keys@[i as int], keys@[old_r[p as int] as int], keys@[old_r[k] as int]);
                }
            }
            assert forall|k: int| 0 <= k < p implies listed_before(keys@, #[trigger] old_r[k], i) by {
                lemma_key_order(keys@[old_r[k] as int], keys@[i as int], keys@[i as int]);
                lemma_key_order(keys@[i as int], keys@[old_r[k] as int], keys@[i as int]);
            }
        }
        r.insert(p, i);
        proof {
            assert(r@ == old_r.insert(p as int, i));
            assert forall|k1: int, k2: int| 0 <= k1 < k2 < r@.len() implies listed_before(keys@, r@[k1], r@[k2]) by {
                if k2 < p {
                    assert(r@[k1] == old_r[k1] && r@[k2] == old_r[k2]);
                } else if k2 == p {
                    assert(r@[k1] == old_r[k1]);
                } else if k1 < p {
                    assert(r@[k1] == old_r[k1] && r@[k2] == old_r[k2 - 1]);
                    assert(listed_before(keys@, old_r[k1], i));
                    assert(key_lt(keys@[i as int], keys@[old_r[k2 - 1] as int]));
                    lemma_key_order(keys@[old_r[k1] as int], keys@[i as int], keys@[old_r[k2 - 1] as int]);
                    if key_same(keys@[old_r[k1] as int], keys@[i as int]) {
                        lemma_key_order(keys@[old_r[k1] as int], keys@[i as int], keys@[old_r[k2 - 1] as int]);
                    }
                } else if k1 == p {
                    assert(r@[k2] == old_r[k2 - 1]);
                } else {
                    assert(r@[k1] == old_r[k1 - 1] && r@[k2] == old_r[k2 - 1]);
                }
            }
            assert forall|k: int| 0 <= k < r@.len() implies #[trigger] r@[k] < i + 1 by {
                if k < p {
                    assert(r@[k] == old_r[k]);
                } else if k > p {
                    assert(r@[k] == old_r[k - 1]);
                }
            }
            assert forall|x: usize| x < i + 1 implies r@.contains(x) by {
                if x == i {
                    assert(r@[p as int] == i);
                } else {
                    assert(old_r.contains(x));
                    let k = choose|k: int| 0 <= k < old_r.len() && old_r[k] == x;
                    if k < p {
                        assert(r@[k] == x);
                    } else {
                        assert(r@[k + 1] == x);
                    }
                }
            }
        }
        i = i + 1;
    }
    r
}

/// Why a pair without an interval has no estimate yet.
pub fn recommendation_note(status: CellStatus) -> (r: &'static str)
    ensures
        r@ == (if status == CellStatus::Disconnected {
            "disconnected - no head-to-head path exists yet; a direct game between these two is needed before any trial estimate is possible"@
        } else {
            "connected in the observed data but too fragile under resampling for a reliable CI yet (see matrix.rs's fragile-bridge note) - more games on this pair or its connecting bridge would help"@
        }),
{
    if status == CellStatus::Disconnected {
        "disconnected - no head-to-head path exists yet; a direct game between these two is needed before any trial estimate is possible"
    } else {
        "connected in the observed data but too fragile under resampling for a reliable CI yet (see matrix.rs's fragile-bridge note) - more games on this pair or its connecting bridge would help"
    }
}

} // verus!
