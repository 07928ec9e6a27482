//! The fixed-window counter store.
//!
//! One record per scope key holds the current count and the moment the
//! window expires. A counter is created with expiry `now + window` on the
//! first increment of a window and is not reset until that moment passes;
//! every increment — admitted or denied alike — raises the count by one.
//! The in-memory store below realizes this state machine exactly, against
//! an explicit clock, so that admit/deny sequences can be asserted
//! deterministically; a shared external store must provide the same
//! read-modify-write as one atomic operation.

use vstd::prelude::*;

verus! {

/// One counter record: the requests counted so far in the current window,
/// and the moment (in seconds) at which the window expires.
#[derive(Clone, Copy, Debug, PartialEq, Eq, Structural)]
pub struct CounterRecord {
    pub count: u64,
    pub expires_at: u64,
}

/// Whether `key` has a live (unexpired) record in `m` at time `now`.
pub open spec fn active(m: Map<Seq<char>, CounterRecord>, key: Seq<char>, now: u64) -> bool {
    m.dom().contains(key) && now < m[key].expires_at
}

/// `c + 1`, saturating at the largest representable count.
pub open spec fn sat_inc(c: u64) -> u64 {
    if c == u64::MAX {
        c
    } else {
        (c + 1) as u64
    }
}

/// `a + b`, saturating at the largest representable moment.
pub open spec fn sat_add(a: u64, b: u64) -> u64 {
    if a + b > u64::MAX {
        u64::MAX
    } else {
        (a + b) as u64
    }
}

/// The record for `key` after one increment at time `now`: a live record
/// counts one more request in its window; an absent or expired record starts
/// a fresh window with count one and expiry `now + window`.
pub open spec fn record_after(
    m: Map<Seq<char>, CounterRecord>,
    key: Seq<char>,
    window: u64,
    now: u64,
) -> CounterRecord {
    if active(m, key, now) {
        CounterRecord { count: sat_inc(m[key].count), expires_at: m[key].expires_at }
    } else {
        CounterRecord { count: 1, expires_at: sat_add(now, window) }
    }
}

/// One stored entry: a scope key and its record.
struct StoreEntry {
    key: String,
    rec: CounterRecord,
}

/// The entries as a map from key to record.
spec fn map_of(s: Seq<StoreEntry>) -> Map<Seq<char>, CounterRecord>
    decreases s.len(),
{
    if s.len() == 0 {
        Map::empty()
    } else {
        map_of(s.drop_last()).insert(s.last().key@, s.last().rec)
    }
}

/// No two entries share a key.
spec fn distinct_keys(s: Seq<StoreEntry>) -> bool {
    forall|i: int, j: int| 0 <= i < j < s.len() ==> s[i].key@ != s[j].key@
}

/// `k` is in the map exactly when some entry holds it.
proof fn lemma_map_of_contains(s: Seq<StoreEntry>, k: Seq<char>)
    ensures
        map_of(s).dom().contains(k) <==> exists|i: int| 0 <= i < s.len() && s[i].key@ == k,
    decreases s.len(),
{
    if s.len() > 0 {
        lemma_map_of_contains(s.drop_last(), k);
        if s.last().key@ == k {
            assert(s[s.len() - 1].key@ == k);
        } else {
            if map_of(s).dom().contains(k) {
                let i = choose|i: int| 0 <= i < s.drop_last().len() && s.drop_last()[i].key@ == k;
                assert(s[i].key@ == k);
            }
            if exists|i: int| 0 <= i < s.len() && s[i].key@ == k {
                let i = choose|i: int| 0 <= i < s.len() && s[i].key@ == k;
                assert(s.drop_last()[i].key@ == k);
            }
        }
    }
}

/// With distinct keys, the map sends each entry's key to that entry's record.
proof fn lemma_map_of_get(s: Seq<StoreEntry>, i: int)
    requires
        distinct_keys(s),
        0 <= i < s.len(),
    ensures
        map_of(s).dom().contains(s[i].key@),
        map_of(s)[s[i].key@] == s[i].rec,
    decreases s.len(),
{
    if i == s.len() - 1 {
    } else {
        assert(distinct_keys(s.drop_last()));
        assert(s.drop_last()[i] == s[i]);
        lemma_map_of_get(s.drop_last(), i);
        assert(s[i].key@ != s.last().key@);
    }
}

/// With distinct keys, replacing the record at one entry is, on the map,
/// an insert at that entry's key.
proof fn lemma_map_of_update(s: Seq<StoreEntry>, i: int, e: StoreEntry)
    requires
        distinct_keys(s),
        0 <= i < s.len(),
        e.key@ == s[i].key@,
    ensures
        map_of(s.update(i, e)) =~= map_of(s).insert(e.key@, e.rec),
    decreases s.len(),
{
    let t = s.update(i, e);
    if i == s.len() - 1 {
        assert(t.drop_last() =~= s.drop_last());
        assert(t.last() == e);
    } else {
        assert(distinct_keys(s.drop_last()));
        assert(s.drop_last()[i] == s[i]);
        lemma_map_of_update(s.drop_last(), i, e);
        assert(t.drop_last() =~= s.drop_last().update(i, e));
        assert(t.last() == s.last());
        assert(s[i].key@ != s.last().key@);
    }
}

/// The in-memory counter store: a deterministic realization of the
/// fixed-window state machine against an explicit clock.
pub struct MemoryStore {
    entries: Vec<StoreEntry>,
}

impl View for MemoryStore {
    type V = Map<Seq<char>, CounterRecord>;

    closed spec fn view(&self) -> Map<Seq<char>, CounterRecord> {
        map_of(self.entries@)
    }
}

impl MemoryStore {
    /// Each key names at most one record.
    pub closed spec fn wf(&self) -> bool {
        distinct_keys(self.entries@)
    }

    /// An empty store: no key has a record.
    pub fn new() -> (s: MemoryStore)
        ensures
            s.wf(),
            s@ == Map::<Seq<char>, CounterRecord>::empty(),
    {
        MemoryStore { entries: Vec::new() }
    }

    /// The one atomic read-modify-write of the store: increments `key`'s
    /// counter at time `now`, starting a fresh window of `window_secs`
    /// seconds when none is live, and returns the resulting record.
    pub fn increment(&mut self, key: &String, window_secs: u64, now: u64) -> (r: CounterRecord)
        requires
            old(self).wf(),
        ensures
            final(self).wf(),
            r == record_after(old(self)@, key@, window_secs, now),
            final(self)@ == old(self)@.insert(key@, r),
    {
        let ghost m0 = self@;
        let n = self.entries.len();
        let mut i: usize = 0;
        while i < n
            invariant
                n == self.entries@.len(),
                0 <= i <= n,
                self.wf(),
                self@ == m0,
                m0 == old(self)@,
                forall|j: int| 0 <= j < i ==> self.entries@[j].key@ != key@,
            decreases n - i,
        {
            if self.entries[i].key == *key {
                let old_rec = self.entries[i].rec;
                proof {
                    lemma_map_of_get(self.entries@, i as int);
                }
                let rec = if now < old_rec.expires_at {
                    let c = if old_rec.count == u64::MAX {
                        old_rec.count
                    } else {
                        old_rec.count + 1
                    };
                    CounterRecord { count: c, expires_at: old_rec.expires_at }
                } else {
                    let e = if window_secs > u64::MAX - now {
                        u64::MAX
                    } else {
                        now + window_secs
                    };
                    CounterRecord { count: 1, expires_at: e }
                };
                let new_key = self.entries[i].key.clone();
                proof {
                    lemma_map_of_update(
                        self.entries@,
                        i as int,
                        StoreEntry { key: new_key, rec },
                    );
                }
                self.entries.set(i, StoreEntry { key: new_key, rec });
                assert(self@ =~= m0.insert(key@, rec));
                return rec;
            }
            i = i + 1;
        }
        proof {
            lemma_map_of_contains(self.entries@, key@);
            assert(!m0.dom().contains(key@));
        }
        let e = if window_secs > u64::MAX - now {
            u64::MAX
        } else {
            now + window_secs
        };
        let rec = CounterRecord { count: 1, expires_at: e };
        let ghost before = self.entries@;
        self.entries.push(StoreEntry { key: key.clone(), rec });
        proof {
            assert(self.entries@.drop_last() =~= before);
            assert(self@ =~= m0.insert(key@, rec));
        }
        rec
    }

    /// Increments `key`'s counter and checks it against the quota in one
    /// indivisible operation — never a read-then-write round trip: returns
    /// the fresh count and whether it is within `max_requests`.
    pub fn increment_and_check(
        &mut self,
        key: &String,
        max_requests: u64,
        window_secs: u64,
        now: u64,
    ) -> (r: (u64, bool))
        requires
            old(self).wf(),
        ensures
            final(self).wf(),
            final(self)@ == old(self)@.insert(
                key@,
                record_after(old(self)@, key@, window_secs, now),
            ),
            r.0 == record_after(old(self)@, key@, window_secs, now).count,
            r.1 == (r.0 <= max_requests),
    {
        let rec = self.increment(key, window_secs, now);
        (rec.count, rec.count <= max_requests)
    }
}

} // verus!
