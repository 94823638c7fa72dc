//! The bounded key-value table: entries, their access metadata, the eviction
//! hook that policies plug into, and the table operations themselves.

use vstd::prelude::*;
use vstd::slice::slice_to_vec;

use crate::model::{lemma_min_idx, min_idx, min_index, policy_measure, policy_victim_idx, spec_policy_measure, Model};

verus! {

/// One cached record: an opaque byte-string value plus the metadata the
/// eviction policies read.
#[derive(Debug)]
pub struct Entry {
    pub value: Vec<u8>,
    pub accessed_at: u64,
    pub access_count: u64,
}

/// The mathematical image of an [`Entry`].
pub struct EntryView {
    pub value: Seq<u8>,
    pub accessed_at: u64,
    pub access_count: u64,
}

impl View for Entry {
    type V = EntryView;

    open spec fn view(&self) -> EntryView {
        EntryView {
            value: self.value@,
            accessed_at: self.accessed_at,
            access_count: self.access_count,
        }
    }
}

impl Entry {
    /// A fresh entry: first access happens at creation, so the count starts at one.
    pub fn new(value: Vec<u8>, now: u64) -> (r: Entry)
        ensures
            r@.value == value@,
            r@.accessed_at == now,
            r@.access_count == 1,
    {
        Entry { value, accessed_at: now, access_count: 1 }
    }
}

/// Errors the table and its policies can surface.
#[derive(Clone, Copy, Debug, PartialEq, Eq, Structural)]
pub enum CacheError {
    /// A policy was asked to pick a victim from an empty table.
    EmptyCache,
}

/// What a call to [`Cache::set`] did.
#[derive(Clone, Copy, Debug, PartialEq, Eq, Structural)]
pub enum SetOutcome {
    /// The entry is in the table; any eviction it needed has happened.
    Stored,
    /// The table is full, the key is new, and the policy needs externally
    /// computed scores: nothing changed. Follow up with [`Cache::set_scored`].
    NeedsScores,
}

/// The mathematical image of the entry table, in iteration order.
pub open spec fn table_view(s: Seq<(Vec<u8>, Entry)>) -> Seq<(Seq<u8>, EntryView)> {
    s.map_values(|p: (Vec<u8>, Entry)| (p.0@, p.1@))
}

/// No key occurs twice.
pub open spec fn distinct_keys(t: Seq<(Seq<u8>, EntryView)>) -> bool {
    forall|i: int, j: int|
        0 <= i < j < t.len() ==> (#[trigger] t[i]).0 != (#[trigger] t[j]).0
}

/// Some row holds `k`.
pub open spec fn has_key(t: Seq<(Seq<u8>, EntryView)>, k: Seq<u8>) -> bool {
    exists|i: int| 0 <= i < t.len() && (#[trigger] t[i]).0 == k
}

/// The row holding `k` (unique when the keys are distinct).
pub open spec fn idx_of(t: Seq<(Seq<u8>, EntryView)>, k: Seq<u8>) -> int {
    choose|i: int| 0 <= i < t.len() && (#[trigger] t[i]).0 == k
}

/// Addition on counters that sticks at the top instead of wrapping.
pub open spec fn sat_add(a: u64, b: u64) -> u64 {
    if a + b > u64::MAX {
        u64::MAX
    } else {
        (a + b) as u64
    }
}

/// A well-formed table: positive bound respected, keys distinct and of frame
/// length, every count at least one.
pub open spec fn table_wf(t: Seq<(Seq<u8>, EntryView)>, cap: int) -> bool {
    &&& cap >= 1
    &&& t.len() <= cap
    &&& distinct_keys(t)
    &&& forall|i: int| 0 <= i < t.len() ==> 1 <= (#[trigger] t[i]).0.len() <= 255
    &&& forall|i: int| 0 <= i < t.len() ==> (#[trigger] t[i]).1.access_count >= 1
}

/// The table after a store of `(k, e)` that did not need outside scores:
/// an existing row is overwritten in place (counts accumulate), a new row is
/// appended, or — when the table is full — the policy victim is removed first.
pub open spec fn stored_table(
    t: Seq<(Seq<u8>, EntryView)>,
    cap: int,
    m: Model,
    k: Seq<u8>,
    e: EntryView,
) -> Seq<(Seq<u8>, EntryView)> {
    if has_key(t, k) {
        let i = idx_of(t, k);
        t.update(
            i,
            (
                t[i].0,
                EntryView {
                    value: e.value,
                    accessed_at: e.accessed_at,
                    access_count: sat_add(t[i].1.access_count, e.access_count),
                },
            ),
        )
    } else if t.len() < cap {
        t.push((k, e))
    } else {
        t.remove(policy_victim_idx(m, t)).push((k, e))
    }
}

/// The table after a successful read of `k` at time `now`: the count grows by
/// one (saturating) and the timestamp is refreshed; nothing else moves.
pub open spec fn got_table(
    t: Seq<(Seq<u8>, EntryView)>,
    k: Seq<u8>,
    now: u64,
) -> Seq<(Seq<u8>, EntryView)> {
    let i = idx_of(t, k);
    t.update(
        i,
        (
            t[i].0,
            EntryView {
                value: t[i].1.value,
                accessed_at: now,
                access_count: sat_add(t[i].1.access_count, 1),
            },
        ),
    )
}

/// A policy picks the victim when the table is full: handed the table, it
/// returns one of its keys, or refuses an empty table.
pub trait Evictor {
    /// Which key this policy evicts from table `t`.
    spec fn victim_of(&self, t: Seq<(Seq<u8>, EntryView)>) -> Seq<u8>
        recommends
            t.len() > 0,
    ;

    /// Pick the victim: the announced key for a non-empty table, an error for
    /// an empty one.
    fn select_victim(&mut self, entries: &Vec<(Vec<u8>, Entry)>) -> (r: Result<
        Vec<u8>,
        CacheError,
    >)
        ensures
            match r {
                Ok(k) => entries@.len() > 0 && k@ == old(self).victim_of(table_view(entries@))
                    && has_key(table_view(entries@), k@),
                Err(e) => entries@.len() == 0 && e == CacheError::EmptyCache,
            },
    ;
}

/// The bounded table. Keys are byte strings of 1 to 255 bytes; the size never
/// passes the capacity fixed at construction.
pub struct Cache {
    entries: Vec<(Vec<u8>, Entry)>,
    model: Model,
    capacity: usize,
}

impl View for Cache {
    type V = Seq<(Seq<u8>, EntryView)>;

    closed spec fn view(&self) -> Seq<(Seq<u8>, EntryView)> {
        table_view(self.entries@)
    }
}

impl Cache {
    /// The bound fixed at construction.
    pub closed spec fn spec_capacity(self) -> int {
        self.capacity as int
    }

    /// The policy tag fixed at construction.
    pub closed spec fn spec_model(self) -> Model {
        self.model
    }

    /// The table invariant.
    pub open spec fn wf(self) -> bool {
        table_wf(self@, self.spec_capacity())
    }

    /// An empty table with the given policy and positive bound.
    pub fn new(model: Model, capacity: usize) -> (r: Cache)
        requires
            capacity >= 1,
        ensures
            r.wf(),
            r@ == Seq::<(Seq<u8>, EntryView)>::empty(),
            r.spec_capacity() == capacity,
            r.spec_model() == model,
    {
        let r = Cache { entries: Vec::new(), model, capacity };
        proof {
            assert(r@ =~= Seq::<(Seq<u8>, EntryView)>::empty());
        }
        r
    }

    /// How many entries the table holds.
    pub fn len(&self) -> (r: usize)
        ensures
            r == self@.len(),
    {
        self.entries.len()
    }

    /// The bound fixed at construction.
    pub fn capacity(&self) -> (r: usize)
        ensures
            r == self.spec_capacity(),
    {
        self.capacity
    }

    /// The policy tag fixed at construction.
    pub fn model(&self) -> (r: Model)
        ensures
            r == self.spec_model(),
    {
        self.model
    }

    /// The row index holding `key`, if any.
    fn find(&self, key: &[u8]) -> (r: Option<usize>)
        ensures
            match r {
                Some(i) => 0 <= i < self@.len() && self@[i as int].0 == key@,
                None => !has_key(self@, key@),
            },
    {
        let n = self.entries.len();
        let mut j: usize = 0;
        while j < n
            invariant
                n == self.entries@.len(),
                j <= n,
                forall|i: int| 0 <= i < j ==> (#[trigger] self.entries@[i]).0@ != key@,
            decreases n - j,
        {
            if bytes_eq(self.entries[j].0.as_slice(), key) {
                return Some(j);
            }
            j += 1;
        }
        None
    }

    /// Store `entry` under `key`. An existing row is overwritten (its count
    /// accumulating the incoming one), a new row is appended while room is
    /// left, and on a full table the policy evicts first — except that the
    /// externally scored policy reports `NeedsScores` and leaves the table
    /// untouched.
    pub fn set(&mut self, key: &[u8], entry: Entry) -> (r: SetOutcome)
        requires
            old(self).wf(),
            1 <= key@.len() <= 255,
            entry@.access_count >= 1,
        ensures
            final(self).wf(),
            final(self).spec_capacity() == old(self).spec_capacity(),
            final(self).spec_model() == old(self).spec_model(),
            r == SetOutcome::NeedsScores <==> (old(self).spec_model() == Model::DeepQNetwork
                && !has_key(old(self)@, key@) && old(self)@.len() == old(self).spec_capacity()),
            r == SetOutcome::Stored ==> final(self)@ == stored_table(
                old(self)@,
                old(self).spec_capacity(),
                old(self).spec_model(),
                key@,
                entry@,
            ),
            r == SetOutcome::NeedsScores ==> *final(self) == *old(self),
    {
        let ghost t0 = self@;
        match self.find(key) {
            Some(i) => {
                proof {
                    assert(has_key(t0, key@));
                    lemma_idx_of_unique(t0, key@, i as int);
                }
                let old_count = self.entries[i].1.access_count;
                let new_count = saturating_add64(old_count, entry.access_count);
                self.entries[i].1 = Entry {
                    value: entry.value,
                    accessed_at: entry.accessed_at,
                    access_count: new_count,
                };
                proof {
                    assert(self@ =~= stored_table(
                        t0,
                        old(self).spec_capacity(),
                        old(self).spec_model(),
                        key@,
                        entry@,
                    ));
                }
                SetOutcome::Stored
            },
            None => {
                if self.entries.len() < self.capacity {
                    let owned = slice_to_vec(key);
                    self.entries.push((owned, entry));
                    proof {
                        assert(self@ =~= t0.push((key@, entry@)));
                        lemma_push_new_key_wf(t0, old(self).spec_capacity(), key@, entry@);
                    }
                    SetOutcome::Stored
                } else {
                    match self.model {
                        Model::DeepQNetwork => SetOutcome::NeedsScores,
                        _ => {
                            let meas = policy_measure(&self.entries, self.model);
                            let v = min_index(&meas);
                            proof {
                                lemma_min_idx(meas@);
                            }
                            self.entries.remove(v);
                            let owned = slice_to_vec(key);
                            self.entries.push((owned, entry));
                            proof {
                                assert(self@ =~= t0.remove(
                                    policy_victim_idx(old(self).spec_model(), t0),
                                ).push((key@, entry@)));
                                lemma_evict_push_wf(
                                    t0,
                                    old(self).spec_capacity(),
                                    policy_victim_idx(old(self).spec_model(), t0),
                                    key@,
                                    entry@,
                                );
                            }
                            SetOutcome::Stored
                        },
                    }
                }
            },
        }
    }

    /// Complete a store that [`Cache::set`] reported as `NeedsScores`: evict
    /// the row whose score is the first strict minimum, then append the new
    /// entry. `scores` is aligned with the table rows, lowest score most
    /// evictable.
    pub fn set_scored(&mut self, key: &[u8], entry: Entry, scores: &Vec<u64>) -> (victim: Vec<u8>)
        requires
            old(self).wf(),
            1 <= key@.len() <= 255,
            entry@.access_count >= 1,
            !has_key(old(self)@, key@),
            old(self)@.len() == old(self).spec_capacity(),
            scores@.len() == old(self)@.len(),
        ensures
            final(self).wf(),
            final(self).spec_capacity() == old(self).spec_capacity(),
            final(self).spec_model() == old(self).spec_model(),
            victim@ == old(self)@[min_idx(scores@)].0,
            final(self)@ == old(self)@.remove(min_idx(scores@)).push(
                (key@, entry@),
            ),
    {
        let ghost t0 = self@;
        let v = min_index(scores);
        proof {
            lemma_min_idx(scores@);
        }
        let victim = slice_to_vec(self.entries[v].0.as_slice());
        self.entries.remove(v);
        let owned = slice_to_vec(key);
        self.entries.push((owned, entry));
        proof {
            assert(self@ =~= t0.remove(min_idx(scores@)).push((key@, entry@)));
            lemma_evict_push_wf(
                t0,
                old(self).spec_capacity(),
                min_idx(scores@),
                key@,
                entry@,
            );
        }
        victim
    }

    /// Read `key`. On a hit the count grows by one (saturating), the timestamp
    /// becomes `now`, and the updated entry is handed back; a miss changes
    /// nothing. A read never evicts.
    pub fn get(&mut self, key: &[u8], now: u64) -> (r: Option<&Entry>)
        requires
            old(self).wf(),
        ensures
            final(self).wf(),
            final(self).spec_capacity() == old(self).spec_capacity(),
            final(self).spec_model() == old(self).spec_model(),
            match r {
                Some(e) => has_key(old(self)@, key@) && final(self)@ == got_table(
                    old(self)@,
                    key@,
                    now,
                ) && e@ == final(self)@[idx_of(old(self)@, key@)].1,
                None => !has_key(old(self)@, key@) && *final(self) == *old(self),
            },
    {
        let ghost t0 = self@;
        match self.find(key) {
            Some(i) => {
                proof {
                    assert(has_key(t0, key@));
                    lemma_idx_of_unique(t0, key@, i as int);
                }
                let old_count = self.entries[i].1.access_count;
                let new_count = saturating_add64(old_count, 1);
                self.entries[i].1.access_count = new_count;
                self.entries[i].1.accessed_at = now;
                proof {
                    assert(self@ =~= got_table(t0, key@, now));
                }
                Some(&self.entries[i].1)
            },
            None => None,
        }
    }

    /// Remove `key` if present; say whether it was there.
    pub fn remove(&mut self, key: &[u8]) -> (r: bool)
        requires
            old(self).wf(),
        ensures
            final(self).wf(),
            final(self).spec_capacity() == old(self).spec_capacity(),
            final(self).spec_model() == old(self).spec_model(),
            r == has_key(old(self)@, key@),
            r ==> final(self)@ == old(self)@.remove(idx_of(old(self)@, key@)),
            !r ==> *final(self) == *old(self),
    {
        let ghost t0 = self@;
        match self.find(key) {
            Some(i) => {
                proof {
                    assert(has_key(t0, key@));
                    lemma_idx_of_unique(t0, key@, i as int);
                }
                self.entries.remove(i);
                proof {
                    assert(self@ =~= t0.remove(idx_of(t0, key@)));
                    lemma_remove_wf(t0, old(self).spec_capacity(), idx_of(t0, key@));
                }
                true
            },
            None => false,
        }
    }

    /// The metadata rows a scoring policy reads, aligned with the table:
    /// timestamp, count, and value length.
    pub fn snapshot(&self) -> (r: Vec<(u64, u64, u64)>)
        ensures
            r@.len() == self@.len(),
            forall|i: int|
                0 <= i < r@.len() ==> #[trigger] r@[i] == (
                    self@[i].1.accessed_at,
                    self@[i].1.access_count,
                    self@[i].1.value.len() as u64,
                ),
    {
        let n = self.entries.len();
        let mut r: Vec<(u64, u64, u64)> = Vec::new();
        let mut j: usize = 0;
        while j < n
            invariant
                n == self.entries@.len(),
                j <= n,
                r@.len() == j,
                forall|i: int|
                    0 <= i < j ==> #[trigger] r@[i] == (
                        self@[i].1.accessed_at,
                        self@[i].1.access_count,
                        self@[i].1.value.len() as u64,
                    ),
            decreases n - j,
        {
            let e = &self.entries[j].1;
            r.push((e.accessed_at, e.access_count, e.value.len() as u64));
            j += 1;
        }
        r
    }
}

/// With distinct keys, any row holding `k` is the row `idx_of` names.
pub proof fn lemma_idx_of_unique(t: Seq<(Seq<u8>, EntryView)>, k: Seq<u8>, i: int)
    requires
        distinct_keys(t),
        0 <= i < t.len(),
        t[i].0 == k,
    ensures
        has_key(t, k),
        idx_of(t, k) == i,
{
    assert(has_key(t, k));
    let j = idx_of(t, k);
    if j != i {
        if j < i {
            assert(t[j].0 != t[i].0);
        } else {
            assert(t[i].0 != t[j].0);
        }
    }
}

/// Appending a fresh, frame-length key keeps the table well formed.
proof fn lemma_push_new_key_wf(t: Seq<(Seq<u8>, EntryView)>, cap: int, k: Seq<u8>, e: EntryView)
    requires
        table_wf(t, cap),
        t.len() < cap,
        !has_key(t, k),
        1 <= k.len() <= 255,
        e.access_count >= 1,
    ensures
        table_wf(t.push((k, e)), cap),
{
    let t2 = t.push((k, e));
    assert forall|i: int, j: int| 0 <= i < j < t2.len() implies (#[trigger] t2[i]).0
        != (#[trigger] t2[j]).0 by {
        if j == t.len() {
            assert(t2[i] == t[i]);
            assert(!(t[i].0 == k));
        } else {
            assert(t2[i] == t[i]);
            assert(t2[j] == t[j]);
        }
    }
}

/// Removing any row keeps the table well formed.
proof fn lemma_remove_wf(t: Seq<(Seq<u8>, EntryView)>, cap: int, v: int)
    requires
        table_wf(t, cap),
        0 <= v < t.len(),
    ensures
        table_wf(t.remove(v), cap),
{
    let t2 = t.remove(v);
    assert forall|i: int, j: int| 0 <= i < j < t2.len() implies (#[trigger] t2[i]).0
        != (#[trigger] t2[j]).0 by {
        let i0 = if i < v { i } else { i + 1 };
        let j0 = if j < v { j } else { j + 1 };
        assert(t2[i] == t[i0]);
        assert(t2[j] == t[j0]);
    }
    assert forall|i: int| 0 <= i < t2.len() implies 1 <= (#[trigger] t2[i]).0.len() <= 255 by {
        let i0 = if i < v { i } else { i + 1 };
        assert(t2[i] == t[i0]);
    }
    assert forall|i: int| 0 <= i < t2.len() implies (#[trigger] t2[i]).1.access_count >= 1 by {
        let i0 = if i < v { i } else { i + 1 };
        assert(t2[i] == t[i0]);
    }
}

/// Evicting one row and appending a fresh key keeps a full table well formed.
proof fn lemma_evict_push_wf(
    t: Seq<(Seq<u8>, EntryView)>,
    cap: int,
    v: int,
    k: Seq<u8>,
    e: EntryView,
)
    requires
        table_wf(t, cap),
        0 <= v < t.len(),
        t.len() == cap,
        !has_key(t, k),
        1 <= k.len() <= 255,
        e.access_count >= 1,
    ensures
        table_wf(t.remove(v).push((k, e)), cap),
{
    lemma_remove_wf(t, cap, v);
    let tr = t.remove(v);
    assert forall|i: int| 0 <= i < tr.len() implies !((#[trigger] tr[i]).0 == k) by {
        let i0 = if i < v { i } else { i + 1 };
        assert(tr[i] == t[i0]);
    }
    assert(!has_key(tr, k));
    let t2 = tr.push((k, e));
    assert forall|i: int, j: int| 0 <= i < j < t2.len() implies (#[trigger] t2[i]).0
        != (#[trigger] t2[j]).0 by {
        if j == tr.len() {
            assert(t2[i] == tr[i]);
        } else {
            assert(t2[i] == tr[i]);
            assert(t2[j] == tr[j]);
        }
    }
}

/// The table never outgrows its bound.
pub proof fn lemma_size_bounded(c: Cache)
    requires
        c.wf(),
    ensures
        c@.len() <= c.spec_capacity(),
{
}

/// Removing row `v` and appending a fresh key `k` keeps the size, drops
/// exactly the key of row `v`, keeps every other key, and gains `k`.
pub proof fn lemma_exchange(t: Seq<(Seq<u8>, EntryView)>, v: int, k: Seq<u8>, e: EntryView)
    requires
        distinct_keys(t),
        0 <= v < t.len(),
        !has_key(t, k),
    ensures
        ({
            let t2 = t.remove(v).push((k, e));
            &&& t2.len() == t.len()
            &&& !has_key(t2, t[v].0)
            &&& forall|i: int| 0 <= i < t.len() && i != v ==> has_key(t2, (#[trigger] t[i]).0)
            &&& has_key(t2, k)
        }),
{
    let tr = t.remove(v);
    let t2 = tr.push((k, e));
    assert(t2[t.len() - 1].0 == k);
    assert(has_key(t2, k));
    assert forall|j: int| 0 <= j < t2.len() implies !((#[trigger] t2[j]).0 == t[v].0) by {
        if j < t.len() - 1 {
            let j0 = if j < v {
                j
            } else {
                j + 1
            };
            assert(t2[j] == t[j0]);
            if j0 < v {
                assert(t[j0].0 != t[v].0);
            } else {
                assert(t[v].0 != t[j0].0);
            }
        } else {
            assert(t2[j].0 == k);
            assert(has_key(t, t[v].0));
        }
    }
    assert forall|i: int| 0 <= i < t.len() && i != v implies has_key(t2, (#[trigger] t[i]).0) by {
        let j = if i < v {
            i
        } else {
            i - 1
        };
        assert(t2[j] == t[i]);
    }
}

/// After a store of `(k, e)` that went through, the table holds `k` with
/// exactly the incoming value, under a count of at least one, and a read of
/// `k` at any later moment hands that value back.
pub proof fn lemma_set_then_get(
    t: Seq<(Seq<u8>, EntryView)>,
    cap: int,
    m: Model,
    k: Seq<u8>,
    e: EntryView,
    now: u64,
)
    requires
        table_wf(t, cap),
        1 <= k.len() <= 255,
        e.access_count >= 1,
        !(m == Model::DeepQNetwork) || has_key(t, k) || t.len() < cap,
    ensures
        ({
            let t2 = stored_table(t, cap, m, k, e);
            &&& has_key(t2, k)
            &&& t2[idx_of(t2, k)].1.value == e.value
            &&& t2[idx_of(t2, k)].1.access_count >= 1
            &&& got_table(t2, k, now)[idx_of(t2, k)].1.value == e.value
        }),
{
    let t2 = stored_table(t, cap, m, k, e);
    if has_key(t, k) {
        let i = idx_of(t, k);
        assert(t[i].0 == k);
        assert(forall|x: int| 0 <= x < t2.len() ==> (#[trigger] t2[x]).0 == t[x].0);
        assert(distinct_keys(t2));
        lemma_idx_of_unique(t2, k, i);
    } else if t.len() < cap {
        lemma_push_new_key_wf(t, cap, k, e);
        lemma_idx_of_unique(t2, k, t.len() as int);
    } else {
        let v = policy_victim_idx(m, t);
        lemma_victim_in_range(m, t);
        lemma_evict_push_wf(t, cap, v, k, e);
        lemma_idx_of_unique(t2, k, t.len() - 1);
    }
}

/// A successful read bumps the count by exactly one (below the counter's
/// ceiling), refreshes the timestamp without moving it backwards (under a
/// sane clock), and keeps the value.
pub proof fn lemma_get_refreshes(t: Seq<(Seq<u8>, EntryView)>, k: Seq<u8>, now: u64)
    requires
        distinct_keys(t),
        has_key(t, k),
        t[idx_of(t, k)].1.access_count < u64::MAX,
        now >= t[idx_of(t, k)].1.accessed_at,
    ensures
        ({
            let i = idx_of(t, k);
            let t2 = got_table(t, k, now);
            &&& t2[i].1.access_count == t[i].1.access_count + 1
            &&& t2[i].1.accessed_at == now
            &&& t2[i].1.accessed_at >= t[i].1.accessed_at
            &&& t2[i].1.value == t[i].1.value
        }),
{
}

/// A store that evicts leaves the size unchanged, removes exactly the
/// policy's victim among the prior keys, and adds the new one.
pub proof fn lemma_eviction_exchange(
    t: Seq<(Seq<u8>, EntryView)>,
    cap: int,
    m: Model,
    k: Seq<u8>,
    e: EntryView,
)
    requires
        table_wf(t, cap),
        t.len() == cap,
        !has_key(t, k),
        !(m == Model::DeepQNetwork),
    ensures
        ({
            let t2 = stored_table(t, cap, m, k, e);
            let v = policy_victim_idx(m, t);
            &&& 0 <= v < t.len()
            &&& t2.len() == t.len()
            &&& !has_key(t2, t[v].0)
            &&& forall|i: int| 0 <= i < t.len() && i != v ==> has_key(t2, (#[trigger] t[i]).0)
            &&& has_key(t2, k)
        }),
{
    lemma_victim_in_range(m, t);
    lemma_exchange(t, policy_victim_idx(m, t), k, e);
}

/// A metadata-driven policy's victim index is a real row of a non-empty
/// table.
proof fn lemma_victim_in_range(m: Model, t: Seq<(Seq<u8>, EntryView)>)
    requires
        t.len() > 0,
        !(m == Model::DeepQNetwork),
    ensures
        0 <= policy_victim_idx(m, t) < t.len(),
{
    lemma_min_idx(spec_policy_measure(m, t));
}

/// Compare two byte strings for equality.
fn bytes_eq(a: &[u8], b: &[u8]) -> (r: bool)
    ensures
        r == (a@ == b@),
{
    if a.len() != b.len() {
        return false;
    }
    let n = a.len();
    let mut j: usize = 0;
    while j < n
        invariant
            n == a@.len(),
            a@.len() == b@.len(),
            j <= n,
            forall|i: int| 0 <= i < j ==> a@[i] == b@[i],
        decreases n - j,
    {
        if a[j] != b[j] {
            return false;
        }
        j += 1;
    }
    proof {
        assert(a@ =~= b@);
    }
    true
}

/// Counter addition that sticks at the top instead of wrapping.
fn saturating_add64(a: u64, b: u64) -> (r: u64)
    ensures
        r == sat_add(a, b),
{
    if u64::MAX - a < b {
        u64::MAX
    } else {
        a + b
    }
}

} // verus!
