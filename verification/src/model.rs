//! Victim selection: the shared first-strict-minimum rule and the two
//! metadata-driven policies built on it.

use vstd::prelude::*;
use vstd::slice::slice_to_vec;

use crate::cache::{has_key, table_view, CacheError, Entry, EntryView, Evictor};

verus! {

/// Which eviction policy a cache runs.
#[derive(Clone, Copy, Debug)]
pub enum Model {
    DeepQNetwork,
    LeastRecentlyUsed,
    LeastFrequentlyUsed,
}

/// The index of the minimum of `m`, scanning left to right with a strict
/// comparison, so the first of several equal minima wins.
pub open spec fn min_idx(m: Seq<u64>) -> int
    recommends
        m.len() >= 1,
    decreases m.len(),
{
    if m.len() <= 1 {
        0
    } else {
        let i = min_idx(m.drop_last());
        if m.last() < m[i] {
            m.len() - 1
        } else {
            i
        }
    }
}

/// `min_idx` lands in range, on a minimal element, and on the first one.
pub proof fn lemma_min_idx(m: Seq<u64>)
    requires
        m.len() >= 1,
    ensures
        0 <= min_idx(m) < m.len(),
        forall|j: int| 0 <= j < m.len() ==> m[min_idx(m)] <= #[trigger] m[j],
        forall|j: int| 0 <= j < min_idx(m) ==> #[trigger] m[j] > m[min_idx(m)],
    decreases m.len(),
{
    if m.len() > 1 {
        let p = m.drop_last();
        lemma_min_idx(p);
        let i = min_idx(p);
        assert(forall|j: int| 0 <= j < m.len() - 1 ==> m[j] == #[trigger] p[j]);
        assert(m.last() == m[m.len() - 1]);
        assert forall|j: int| 0 <= j < m.len() implies m[min_idx(m)] <= #[trigger] m[j] by {
            if j < m.len() - 1 {
                assert(p[i] <= p[j]);
            }
        }
        assert forall|j: int| 0 <= j < min_idx(m) implies #[trigger] m[j] > m[min_idx(m)] by {
            assert(m[j] == p[j]);
            if m.last() < p[i] {
                assert(min_idx(m) == m.len() - 1);
                assert(p[i] <= p[j]);
            } else {
                assert(min_idx(m) == i);
                assert(p[j] > p[i]);
            }
        }
    }
}

/// The unique strict minimum is selected: if `m[i]` is below every other
/// element, the scan picks `i`.
pub proof fn lemma_min_idx_unique(m: Seq<u64>, i: int)
    requires
        0 <= i < m.len(),
        forall|j: int| 0 <= j < m.len() && j != i ==> #[trigger] m[j] > m[i],
    ensures
        min_idx(m) == i,
{
    lemma_min_idx(m);
    let k = min_idx(m);
    if k != i {
        assert(m[k] <= m[i]);
        assert(m[k] > m[i]);
    }
}

/// First index of the strictly smallest score.
pub fn min_index(scores: &Vec<u64>) -> (r: usize)
    requires
        scores@.len() >= 1,
    ensures
        r == min_idx(scores@),
{
    let mut best: usize = 0;
    let mut j: usize = 1;
    while j < scores.len()
        invariant
            1 <= j <= scores@.len(),
            0 <= best < j,
            best == min_idx(scores@.take(j as int)),
        decreases scores@.len() - j,
    {
        proof {
            assert(scores@.take(j + 1).drop_last() =~= scores@.take(j as int));
            assert(scores@.take(j + 1).last() == scores@[j as int]);
            lemma_min_idx(scores@.take(j as int));
        }
        if scores[j] < scores[best] {
            best = j;
        }
        j = j + 1;
    }
    proof {
        assert(scores@.take(scores@.len() as int) =~= scores@);
    }
    best
}

/// The timestamps of a table, row by row.
pub open spec fn recency_of(t: Seq<(Seq<u8>, EntryView)>) -> Seq<u64> {
    t.map_values(|p: (Seq<u8>, EntryView)| p.1.accessed_at)
}

/// The access counts of a table, row by row.
pub open spec fn frequency_of(t: Seq<(Seq<u8>, EntryView)>) -> Seq<u64> {
    t.map_values(|p: (Seq<u8>, EntryView)| p.1.access_count)
}

/// What a metadata-driven policy minimises over: timestamps for the
/// least-recently-used policy, counts for the least-frequently-used one.
/// The scored policy reads nothing from the table itself.
pub open spec fn spec_policy_measure(m: Model, t: Seq<(Seq<u8>, EntryView)>) -> Seq<u64> {
    match m {
        Model::LeastRecentlyUsed => recency_of(t),
        Model::LeastFrequentlyUsed => frequency_of(t),
        Model::DeepQNetwork => Seq::empty(),
    }
}

/// The row a metadata-driven policy evicts: the first strict minimum of its
/// measure.
pub open spec fn policy_victim_idx(m: Model, t: Seq<(Seq<u8>, EntryView)>) -> int {
    min_idx(spec_policy_measure(m, t))
}

/// The measure column of a table, for a metadata-driven policy.
pub fn policy_measure(entries: &Vec<(Vec<u8>, Entry)>, m: Model) -> (r: Vec<u64>)
    requires
        !(m == Model::DeepQNetwork),
    ensures
        r@ == spec_policy_measure(m, table_view(entries@)),
{
    let n = entries.len();
    let mut r: Vec<u64> = Vec::new();
    let mut j: usize = 0;
    while j < n
        invariant
            n == entries@.len(),
            j <= n,
            r@.len() == j,
            !(m == Model::DeepQNetwork),
            forall|i: int|
                0 <= i < j ==> #[trigger] r@[i] == spec_policy_measure(m, table_view(entries@))[i],
        decreases n - j,
    {
        let x = match m {
            Model::LeastRecentlyUsed => entries[j].1.accessed_at,
            Model::LeastFrequentlyUsed => entries[j].1.access_count,
            Model::DeepQNetwork => {
                proof {
                    assert(false);
                }
                0
            },
        };
        r.push(x);
        j += 1;
    }
    proof {
        assert(r@ =~= spec_policy_measure(m, table_view(entries@)));
    }
    r
}

/// Evicts the entry touched longest ago.
pub struct LeastRecentlyUsed {}

impl LeastRecentlyUsed {
    /// The stateless least-recently-used policy.
    pub fn new() -> LeastRecentlyUsed {
        LeastRecentlyUsed {}
    }
}

impl Evictor for LeastRecentlyUsed {
    open spec fn victim_of(&self, t: Seq<(Seq<u8>, EntryView)>) -> Seq<u8> {
        t[policy_victim_idx(Model::LeastRecentlyUsed, t)].0
    }

    fn select_victim(&mut self, entries: &Vec<(Vec<u8>, Entry)>) -> (r: Result<
        Vec<u8>,
        CacheError,
    >) {
        if entries.len() == 0 {
            Err(CacheError::EmptyCache)
        } else {
            let meas = policy_measure(entries, Model::LeastRecentlyUsed);
            let i = min_index(&meas);
            proof {
                lemma_min_idx(meas@);
                assert(table_view(entries@)[i as int].0 == entries@[i as int].0@);
            }
            Ok(slice_to_vec(entries[i].0.as_slice()))
        }
    }
}

/// Evicts the entry touched fewest times.
pub struct LeastFrequentlyUsed {}

impl LeastFrequentlyUsed {
    /// The stateless least-frequently-used policy.
    pub fn new() -> LeastFrequentlyUsed {
        LeastFrequentlyUsed {}
    }
}

impl Evictor for LeastFrequentlyUsed {
    open spec fn victim_of(&self, t: Seq<(Seq<u8>, EntryView)>) -> Seq<u8> {
        t[policy_victim_idx(Model::LeastFrequentlyUsed, t)].0
    }

    fn select_victim(&mut self, entries: &Vec<(Vec<u8>, Entry)>) -> (r: Result<
        Vec<u8>,
        CacheError,
    >) {
        if entries.len() == 0 {
            Err(CacheError::EmptyCache)
        } else {
            let meas = policy_measure(entries, Model::LeastFrequentlyUsed);
            let i = min_index(&meas);
            proof {
                lemma_min_idx(meas@);
                assert(table_view(entries@)[i as int].0 == entries@[i as int].0@);
            }
            Ok(slice_to_vec(entries[i].0.as_slice()))
        }
    }
}

/// When one row was touched strictly longest ago, the least-recently-used
/// policy picks exactly that row.
pub proof fn lemma_lru_unique_min(t: Seq<(Seq<u8>, EntryView)>, i: int)
    requires
        0 <= i < t.len(),
        forall|j: int|
            0 <= j < t.len() && j != i ==> (#[trigger] t[j]).1.accessed_at > t[i].1.accessed_at,
    ensures
        policy_victim_idx(Model::LeastRecentlyUsed, t) == i,
{
    let m = recency_of(t);
    assert forall|j: int| 0 <= j < m.len() && j != i implies #[trigger] m[j] > m[i] by {
        assert(m[j] == t[j].1.accessed_at);
    }
    lemma_min_idx_unique(m, i);
}

/// When one row was touched strictly fewest times, the least-frequently-used
/// policy picks exactly that row.
pub proof fn lemma_lfu_unique_min(t: Seq<(Seq<u8>, EntryView)>, i: int)
    requires
        0 <= i < t.len(),
        forall|j: int|
            0 <= j < t.len() && j != i ==> (#[trigger] t[j]).1.access_count > t[i].1.access_count,
    ensures
        policy_victim_idx(Model::LeastFrequentlyUsed, t) == i,
{
    let m = frequency_of(t);
    assert forall|j: int| 0 <= j < m.len() && j != i implies #[trigger] m[j] > m[i] by {
        assert(m[j] == t[j].1.access_count);
    }
    lemma_min_idx_unique(m, i);
}

} // verus!
