use vstd::prelude::*;

use crate::caches::CacheKey;

verus! {

/// One cache entry: a value together with the time of its last write,
/// in whole seconds, used for age-based eviction.
pub struct Entry<K, V> {
    pub key: K,
    pub value: V,
    pub last_write: u64,
}

/// An entry written at `last_write` is still fresh at `now` when its age
/// does not exceed `ttl` seconds. A write time in the future counts as fresh.
pub open spec fn spec_fresh(last_write: u64, now: u64, ttl: u64) -> bool {
    now - last_write <= ttl
}

/// How many entries of `s` are fresh at `now`.
pub open spec fn fresh_count<K, V>(s: Seq<Entry<K, V>>, now: u64, ttl: u64) -> int
    decreases s.len(),
{
    if s.len() == 0 {
        0
    } else {
        fresh_count(s.drop_last(), now, ttl) + (if spec_fresh(s.last().last_write, now, ttl) {
            1int
        } else {
            0int
        })
    }
}

pub open spec fn has_key<K, V>(s: Seq<Entry<K, V>>, k: K) -> bool {
    exists|i: int| 0 <= i < s.len() && s[i].key == k
}

pub open spec fn key_index<K, V>(s: Seq<Entry<K, V>>, k: K) -> int {
    choose|i: int| 0 <= i < s.len() && s[i].key == k
}

pub open spec fn distinct_keys<K, V>(s: Seq<Entry<K, V>>) -> bool {
    forall|i: int, j: int| 0 <= i < s.len() && 0 <= j < s.len() && s[i].key == s[j].key ==> i == j
}

pub open spec fn distinct_seq<K>(s: Seq<K>) -> bool {
    forall|i: int, j: int| 0 <= i < s.len() && 0 <= j < s.len() && s[i] == s[j] ==> i == j
}

/// Any index whose entry holds `k` is the index `key_index` names.
pub proof fn lemma_key_index<K, V>(s: Seq<Entry<K, V>>, k: K)
    requires
        distinct_keys(s),
        has_key(s, k),
    ensures
        0 <= key_index(s, k) < s.len(),
        s[key_index(s, k)].key == k,
        forall|i: int| 0 <= i < s.len() && s[i].key == k ==> i == key_index(s, k),
{
}

/// No more entries are fresh than there are entries.
pub proof fn lemma_fresh_count_le_len<K, V>(s: Seq<Entry<K, V>>, now: u64, ttl: u64)
    ensures
        0 <= fresh_count(s, now, ttl) <= s.len(),
    decreases s.len(),
{
    if s.len() > 0 {
        lemma_fresh_count_le_len(s.drop_last(), now, ttl);
    }
}

/// Counting fresh entries stepwise along a prefix.
pub proof fn lemma_fresh_count_take<K, V>(s: Seq<Entry<K, V>>, now: u64, ttl: u64, n: int)
    requires
        0 < n <= s.len(),
    ensures
        fresh_count(s.take(n), now, ttl) == fresh_count(s.take(n - 1), now, ttl) + (if spec_fresh(
            s[n - 1].last_write,
            now,
            ttl,
        ) {
            1int
        } else {
            0int
        }),
{
    assert(s.take(n).drop_last() =~= s.take(n - 1));
    assert(s.take(n).last() == s[n - 1]);
}

/// A bounded, age-limited map: a list of entries with pairwise-distinct keys,
/// plus the set of keys written since the analysis pass that last cleared it.
pub struct TtlCache<K, V> {
    pub entries: Vec<Entry<K, V>>,
    pub dirty: Vec<K>,
    /// Maximum entry age, in seconds.
    pub ttl: u64,
    /// Maximum entry count enforced by `cleanup`, if configured.
    pub max_size: Option<usize>,
}

impl<K: CacheKey, V> TtlCache<K, V> {
    pub open spec fn entry_seq(self) -> Seq<Entry<K, V>> {
        self.entries@
    }

    pub open spec fn dirty_seq(self) -> Seq<K> {
        self.dirty@
    }

    pub open spec fn contains_key(self, k: K) -> bool {
        has_key(self.entries@, k)
    }

    pub open spec fn value_of(self, k: K) -> V {
        self.entries@[key_index(self.entries@, k)].value
    }

    pub open spec fn write_time_of(self, k: K) -> u64 {
        self.entries@[key_index(self.entries@, k)].last_write
    }

    pub open spec fn is_dirty(self, k: K) -> bool {
        self.dirty@.contains(k)
    }

    /// Entry keys and dirty keys are pairwise distinct, and every dirty key
    /// has an entry.
    pub open spec fn wf(self) -> bool {
        &&& distinct_keys(self.entries@)
        &&& distinct_seq(self.dirty@)
        &&& forall|i: int|
            0 <= i < self.dirty@.len() ==> has_key(self.entries@, #[trigger] self.dirty@[i])
    }

    pub fn new(ttl: u64, max_size: Option<usize>) -> (r: Self)
        ensures
            r.wf(),
            r.entry_seq().len() == 0,
            r.dirty_seq().len() == 0,
            r.ttl == ttl,
            r.max_size == max_size,
            forall|k: K| !r.contains_key(k),
            forall|k: K| !r.is_dirty(k),
    {
        TtlCache { entries: Vec::new(), dirty: Vec::new(), ttl, max_size }
    }

    fn find(&self, key: &K) -> (r: Option<usize>)
        requires
            distinct_keys(self.entries@),
        ensures
            match r {
                Some(i) => has_key(self.entries@, *key) && i == key_index(self.entries@, *key),
                None => !has_key(self.entries@, *key),
            },
    {
        let mut i: usize = 0;
        while i < self.entries.len()
            invariant
                0 <= i <= self.entries@.len(),
                forall|j: int| 0 <= j < i ==> self.entries@[j].key != *key,
                distinct_keys(self.entries@),
            decreases self.entries@.len() - i,
        {
            if self.entries[i].key.key_eq(key) {
                proof {
                    assert(has_key(self.entries@, *key));
                    lemma_key_index(self.entries@, *key);
                }
                return Some(i);
            }
            i += 1;
        }
        None
    }

    fn dirty_index(&self, key: &K) -> (r: Option<usize>)
        ensures
            match r {
                Some(i) => 0 <= i < self.dirty@.len() && self.dirty@[i as int] == *key,
                None => !self.dirty@.contains(*key),
            },
    {
        let mut i: usize = 0;
        while i < self.dirty.len()
            invariant
                0 <= i <= self.dirty@.len(),
                forall|j: int| 0 <= j < i ==> self.dirty@[j] != *key,
            decreases self.dirty@.len() - i,
        {
            if self.dirty[i].key_eq(key) {
                return Some(i);
            }
            i += 1;
        }
        None
    }

    /// Look a key's current value up, without refreshing it.
    pub fn get(&self, key: &K) -> (r: Option<&V>)
        requires
            self.wf(),
        ensures
            match r {
                Some(v) => self.contains_key(*key) && *v == self.value_of(*key),
                None => !self.contains_key(*key),
            },
    {
        match self.find(key) {
            Some(i) => Some(&self.entries[i].value),
            None => None,
        }
    }

    pub fn len(&self) -> (r: usize)
        ensures
            r == self.entry_seq().len(),
    {
        self.entries.len()
    }

    /// Insert or replace the value under `key`, stamp it as written at `now`,
    /// and mark the key dirty.
    pub fn set_value(&mut self, key: K, value: V, now: u64)
        requires
            old(self).wf(),
        ensures
            final(self).wf(),
            final(self).ttl == old(self).ttl,
            final(self).max_size == old(self).max_size,
            final(self).contains_key(key),
            final(self).value_of(key) == value,
            final(self).write_time_of(key) == now,
            final(self).is_dirty(key),
            forall|k: K| k != key ==> final(self).contains_key(k) == old(self).contains_key(k),
            forall|k: K|
                k != key && old(self).contains_key(k) ==> final(self).value_of(k) == old(
                    self,
                ).value_of(k) && final(self).write_time_of(k) == old(self).write_time_of(k),
            forall|k: K| k != key ==> final(self).is_dirty(k) == old(self).is_dirty(k),
            final(self).entry_seq().len() == old(self).entry_seq().len() + (if old(
                self,
            ).contains_key(key) {
                0int
            } else {
                1int
            }),
    {
        let ghost e0 = self.entries@;
        let entry = Entry { key, value, last_write: now };
        match self.find(&key) {
            Some(i) => {
                proof {
                    lemma_key_index(e0, key);
                }
                self.entries[i] = entry;
                proof {
                    let e1 = self.entries@;
                    assert forall|j: int| 0 <= j < e1.len() implies e1[j].key == e0[j].key by {
                        if j != i {
                            assert(e1[j] == e0[j]);
                        }
                    }
                    assert(distinct_keys(e1));
                    assert(e1[i as int].key == key);
                    assert(has_key(e1, key));
                    lemma_key_index(e1, key);
                    assert forall|k: K| #[trigger] has_key(e0, k) implies has_key(e1, k) by {
                        lemma_key_index(e0, k);
                        assert(e1[key_index(e0, k)].key == k);
                    }
                    assert forall|k: K| k != key && #[trigger] has_key(e1, k) implies has_key(
                        e0,
                        k,
                    ) by {
                        lemma_key_index(e1, k);
                        assert(e0[key_index(e1, k)].key == k);
                    }
                    assert forall|k: K| k != key && has_key(e0, k) implies e1[key_index(e1, k)]
                        == e0[key_index(e0, k)] by {
                        lemma_key_index(e0, k);
                        lemma_key_index(e1, k);
                        let oi = key_index(e0, k);
                        assert(e1[oi].key == k);
                        assert(key_index(e1, k) == oi);
                        assert(oi != i);
                        assert(e1[oi] == e0[oi]);
                    }
                }
            },
            None => {
                self.entries.push(entry);
                proof {
                    let e1 = self.entries@;
                    let n = e0.len() as int;
                    assert(e1[n].key == key);
                    assert forall|i: int, j: int|
                        0 <= i < e1.len() && 0 <= j < e1.len() && e1[i].key == e1[j].key implies i
                        == j by {
                        if i < n && j < n {
                            assert(e1[i] == e0[i]);
                            assert(e1[j] == e0[j]);
                        } else if i < n && j == n {
                            assert(e0[i].key == key);
                            assert(has_key(e0, key));
                        } else if i == n && j < n {
                            assert(e0[j].key == key);
                            assert(has_key(e0, key));
                        }
                    }
                    assert(has_key(e1, key));
                    lemma_key_index(e1, key);
                    assert(key_index(e1, key) == n);
                    assert forall|k: K| #[trigger] has_key(e0, k) implies has_key(e1, k) by {
                        lemma_key_index(e0, k);
                        assert(e1[key_index(e0, k)].key == k);
                    }
                    assert forall|k: K| k != key && #[trigger] has_key(e1, k) implies has_key(
                        e0,
                        k,
                    ) by {
                        lemma_key_index(e1, k);
                        assert(key_index(e1, k) != n);
                        assert(e0[key_index(e1, k)].key == k);
                    }
                    assert forall|k: K| k != key && has_key(e0, k) implies e1[key_index(e1, k)]
                        == e0[key_index(e0, k)] by {
                        lemma_key_index(e0, k);
                        lemma_key_index(e1, k);
                        let oi = key_index(e0, k);
                        assert(e1[oi].key == k);
                        assert(key_index(e1, k) == oi);
                        assert(e1[oi] == e0[oi]);
                    }
                }
            },
        }
        let ghost e1 = self.entries@;
        let ghost d0 = self.dirty@;
        match self.dirty_index(&key) {
            Some(_) => {
                proof {
                    assert(self.dirty@.contains(key));
                }
            },
            None => {
                self.dirty.push(key);
                proof {
                    let d1 = self.dirty@;
                    let m = d0.len() as int;
                    assert forall|i: int, j: int|
                        0 <= i < d1.len() && 0 <= j < d1.len() && d1[i] == d1[j] implies i == j by {
                        if i < m && j < m {
                            assert(d1[i] == d0[i]);
                            assert(d1[j] == d0[j]);
                        } else if i < m && j == m {
                            assert(d0[i] == key);
                            assert(d0.contains(key));
                        } else if i == m && j < m {
                            assert(d0[j] == key);
                            assert(d0.contains(key));
                        }
                    }
                    assert(d1[m] == key);
                    assert(d1.contains(key));
                    assert forall|k: K| k != key implies d1.contains(k) == d0.contains(k) by {
                        if d0.contains(k) {
                            let j = choose|j: int| 0 <= j < d0.len() && d0[j] == k;
                            assert(d1[j] == k);
                        }
                        if d1.contains(k) {
                            let j = choose|j: int| 0 <= j < d1.len() && d1[j] == k;
                            assert(j != m);
                            assert(d0[j] == k);
                        }
                    }
                }
            },
        }
        proof {
            assert forall|i: int| 0 <= i < self.dirty@.len() implies has_key(
                e1,
                #[trigger] self.dirty@[i],
            ) by {
                let k = self.dirty@[i];
                if k != key {
                    assert(i < d0.len());
                    assert(d0[i] == k);
                    assert(has_key(e0, k));
                }
            }
        }
    }

    /// Hand out a copy of the keys touched since the dirty set was last cleared.
    pub fn dirty_keys(&self) -> (r: Vec<K>)
        ensures
            r@ == self.dirty_seq(),
    {
        let mut out: Vec<K> = Vec::new();
        let mut i: usize = 0;
        while i < self.dirty.len()
            invariant
                0 <= i <= self.dirty@.len(),
                out@ == self.dirty@.take(i as int),
            decreases self.dirty@.len() - i,
        {
            let k = self.dirty[i];
            out.push(k);
            proof {
                assert(out@ =~= self.dirty@.take(i + 1 as int));
            }
            i += 1;
        }
        proof {
            assert(out@ =~= self.dirty@);
        }
        out
    }

    /// Empty the dirty set; the entries are untouched.
    pub fn clear_dirty(&mut self)
        requires
            old(self).wf(),
        ensures
            final(self).wf(),
            final(self).entry_seq() == old(self).entry_seq(),
            final(self).dirty_seq().len() == 0,
            final(self).ttl == old(self).ttl,
            final(self).max_size == old(self).max_size,
            forall|k: K| !final(self).is_dirty(k),
    {
        self.dirty.clear();
    }

    /// Remove the entry under `key`, and its dirty mark, unconditionally.
    pub fn evict(&mut self, key: &K)
        requires
            old(self).wf(),
        ensures
            final(self).wf(),
            final(self).ttl == old(self).ttl,
            final(self).max_size == old(self).max_size,
            !final(self).contains_key(*key),
            forall|k: K| k != *key ==> final(self).contains_key(k) == old(self).contains_key(k),
            forall|k: K|
                k != *key && old(self).contains_key(k) ==> final(self).value_of(k) == old(
                    self,
                ).value_of(k) && final(self).write_time_of(k) == old(self).write_time_of(k),
            forall|k: K| final(self).is_dirty(k) == (old(self).is_dirty(k) && k != *key),
            final(self).dirty_seq().len() <= old(self).dirty_seq().len(),
            final(self).entry_seq().len() == old(self).entry_seq().len() - (if old(
                self,
            ).contains_key(*key) {
                1int
            } else {
                0int
            }),
    {
        let ghost e0 = self.entries@;
        match self.find(key) {
            Some(i) => {
                proof {
                    lemma_key_index(e0, *key);
                }
                self.entries.remove(i);
                proof {
                    let e1 = self.entries@;
                    assert forall|i2: int, j2: int|
                        0 <= i2 < e1.len() && 0 <= j2 < e1.len() && e1[i2].key == e1[j2].key
                        implies i2 == j2 by {
                        let oi = if i2 < i { i2 } else { i2 + 1 };
                        let oj = if j2 < i { j2 } else { j2 + 1 };
                        assert(e0[oi].key == e0[oj].key);
                    }
                    assert forall|k: K| #[trigger] has_key(e1, k) implies has_key(e0, k) && k
                        != *key by {
                        lemma_key_index(e1, k);
                        let ni = key_index(e1, k);
                        let oi = if ni < i { ni } else { ni + 1 };
                        assert(e0[oi].key == k);
                        if k == *key {
                            assert(oi == key_index(e0, *key)) by {
                                lemma_key_index(e0, *key);
                            }
                            assert(false);
                        }
                    }
                    assert forall|k: K| k != *key && #[trigger] has_key(e0, k) implies has_key(
                        e1,
                        k,
                    ) && e1[key_index(e1, k)] == e0[key_index(e0, k)] by {
                        lemma_key_index(e0, k);
                        let oi = key_index(e0, k);
                        assert(oi != i as int);
                        let ni = if oi < i { oi } else { oi - 1 };
                        assert(e1[ni] == e0[oi]);
                        assert(e1[ni].key == k);
                        assert(has_key(e1, k));
                        lemma_key_index(e1, k);
                        assert(key_index(e1, k) == ni);
                    }
                }
            },
            None => {},
        }
        let ghost e1 = self.entries@;
        let ghost d0 = self.dirty@;
        match self.dirty_index(key) {
            Some(i) => {
                self.dirty.remove(i);
                proof {
                    let d1 = self.dirty@;
                    assert forall|i2: int, j2: int|
                        0 <= i2 < d1.len() && 0 <= j2 < d1.len() && d1[i2] == d1[j2] implies i2
                        == j2 by {
                        let oi = if i2 < i { i2 } else { i2 + 1 };
                        let oj = if j2 < i { j2 } else { j2 + 1 };
                        assert(d0[oi] == d0[oj]);
                    }
                    assert forall|k: K| #[trigger] d1.contains(k) implies d0.contains(k) && k
                        != *key by {
                        let j = choose|j: int| 0 <= j < d1.len() && d1[j] == k;
                        let oj = if j < i { j } else { j + 1 };
                        assert(d0[oj] == k);
                        if k == *key {
                            assert(oj != i as int);
                            assert(d0[i as int] == *key);
                            assert(false);
                        }
                    }
                    assert forall|k: K| k != *key && #[trigger] d0.contains(k) implies d1.contains(
                        k,
                    ) by {
                        let oj = choose|j: int| 0 <= j < d0.len() && d0[j] == k;
                        assert(oj != i as int);
                        let nj = if oj < i { oj } else { oj - 1 };
                        assert(d1[nj] == k);
                    }
                }
            },
            None => {},
        }
        proof {
            assert forall|i: int| 0 <= i < self.dirty@.len() implies has_key(
                e1,
                #[trigger] self.dirty@[i],
            ) by {
                let k = self.dirty@[i];
                assert(self.dirty@.contains(k));
                assert(d0.contains(k));
                let j = choose|j: int| 0 <= j < d0.len() && d0[j] == k;
                assert(has_key(e0, k));
                assert(k != *key);
            }
        }
    }

    /// Remove the entries and dirty marks of every listed key.
    pub fn evict_all(&mut self, keys: &Vec<K>)
        requires
            old(self).wf(),
        ensures
            final(self).wf(),
            final(self).ttl == old(self).ttl,
            final(self).max_size == old(self).max_size,
            forall|k: K| #[trigger]
                final(self).contains_key(k) == (old(self).contains_key(k) && !keys@.contains(k)),
            forall|k: K| #[trigger]
                final(self).contains_key(k) ==> final(self).value_of(k) == old(self).value_of(k)
                    && final(self).write_time_of(k) == old(self).write_time_of(k),
            forall|k: K| #[trigger]
                final(self).is_dirty(k) == (old(self).is_dirty(k) && !keys@.contains(k)),
            final(self).dirty_seq().len() <= old(self).dirty_seq().len(),
            final(self).entry_seq().len() <= old(self).entry_seq().len(),
    {
        let mut e: usize = 0;
        while e < keys.len()
            invariant
                0 <= e <= keys@.len(),
                self.wf(),
                self.ttl == old(self).ttl,
                self.max_size == old(self).max_size,
                self.entry_seq().len() <= old(self).entry_seq().len(),
                forall|k: K| #[trigger]
                    self.contains_key(k) == (old(self).contains_key(k) && !keys@.take(
                        e as int,
                    ).contains(k)),
                forall|k: K| #[trigger]
                    self.contains_key(k) ==> self.value_of(k) == old(self).value_of(k)
                        && self.write_time_of(k) == old(self).write_time_of(k),
                forall|k: K| #[trigger]
                    self.is_dirty(k) == (old(self).is_dirty(k) && !keys@.take(e as int).contains(
                        k,
                    )),
                self.dirty_seq().len() <= old(self).dirty_seq().len(),
            decreases keys@.len() - e,
        {
            let key = keys[e];
            self.evict(&key);
            proof {
                assert(keys@.take(e + 1 as int)[e as int] == key);
                assert forall|k: K|
                    keys@.take(e + 1 as int).contains(k) == (keys@.take(e as int).contains(k) || k
                        == key) by {
                    if keys@.take(e + 1 as int).contains(k) && k != key {
                        let t = choose|t: int|
                            0 <= t < e + 1 && #[trigger] keys@.take(e + 1 as int)[t] == k;
                        assert(keys@.take(e as int)[t] == k);
                    }
                    if keys@.take(e as int).contains(k) {
                        let t = choose|t: int|
                            0 <= t < e && #[trigger] keys@.take(e as int)[t] == k;
                        assert(keys@.take(e + 1 as int)[t] == k);
                    }
                }
            }
            e += 1;
        }
        proof {
            assert(keys@.take(keys@.len() as int) =~= keys@);
        }
    }

    fn find_oldest(&self) -> (r: usize)
        requires
            self.entries@.len() > 0,
        ensures
            0 <= r < self.entries@.len(),
            forall|j: int|
                0 <= j < self.entries@.len() ==> self.entries@[r as int].last_write
                    <= #[trigger] self.entries@[j].last_write,
    {
        let mut best: usize = 0;
        let mut i: usize = 1;
        while i < self.entries.len()
            invariant
                0 <= best < i <= self.entries@.len(),
                forall|j: int|
                    0 <= j < i ==> self.entries@[best as int].last_write
                        <= #[trigger] self.entries@[j].last_write,
            decreases self.entries@.len() - i,
        {
            if self.entries[i].last_write < self.entries[best].last_write {
                best = i;
            }
            i += 1;
        }
        best
    }

    /// Remove every entry whose age exceeds `ttl`; then, if a maximum size is
    /// configured and still exceeded, remove the oldest remaining entries,
    /// by last write time, until the bound holds. Dirty marks of removed
    /// entries are dropped with them.
    pub fn cleanup(&mut self, now: u64)
        requires
            old(self).wf(),
        ensures
            final(self).wf(),
            final(self).ttl == old(self).ttl,
            final(self).max_size == old(self).max_size,
            forall|k: K| #[trigger] final(self).contains_key(k)
                ==> old(self).contains_key(k)
                    && final(self).value_of(k) == old(self).value_of(k)
                    && final(self).write_time_of(k) == old(self).write_time_of(k)
                    && spec_fresh(old(self).write_time_of(k), now, old(self).ttl),
            old(self).max_size is None ==> forall|k: K| #[trigger] final(self).contains_key(k)
                == (old(self).contains_key(k)
                    && spec_fresh(old(self).write_time_of(k), now, old(self).ttl)),
            old(self).max_size matches Some(m) ==> final(self).entry_seq().len() <= m,
            (old(self).max_size matches Some(m)
                && fresh_count(old(self).entry_seq(), now, old(self).ttl) <= m)
                ==> forall|k: K| #[trigger] final(self).contains_key(k)
                    == (old(self).contains_key(k)
                        && spec_fresh(old(self).write_time_of(k), now, old(self).ttl)),
            (old(self).max_size matches Some(m)
                && fresh_count(old(self).entry_seq(), now, old(self).ttl) > m)
                ==> final(self).entry_seq().len() == old(self).max_size->0,
            forall|k1: K, k2: K|
                #[trigger] old(self).contains_key(k1)
                    && spec_fresh(old(self).write_time_of(k1), now, old(self).ttl)
                    && !final(self).contains_key(k1) && #[trigger] final(self).contains_key(k2)
                    ==> old(self).write_time_of(k1) <= old(self).write_time_of(k2),
            forall|k: K| #[trigger] final(self).is_dirty(k)
                == (old(self).is_dirty(k) && final(self).contains_key(k)),
            final(self).dirty_seq().len() <= old(self).dirty_seq().len(),
    {
        let ghost e0 = self.entries@;
        let ttl = self.ttl;

        // Age pass: keep exactly the fresh entries.
        let mut kept: Vec<Entry<K, V>> = Vec::new();
        while self.entries.len() > 0
            invariant
                self.ttl == ttl,
                self.max_size == old(self).max_size,
                self.dirty@ == old(self).dirty@,
                self.entries@.len() <= e0.len(),
                self.entries@ == e0.take(self.entries@.len() as int),
                distinct_keys(e0),
                distinct_keys(kept@),
                forall|j: int|
                    0 <= j < kept@.len() ==> has_key(e0, #[trigger] kept@[j].key) && kept@[j]
                        == e0[key_index(e0, kept@[j].key)] && spec_fresh(
                        kept@[j].last_write,
                        now,
                        ttl,
                    ),
                forall|l: int|
                    self.entries@.len() <= l < e0.len() && spec_fresh(
                        (#[trigger] e0[l]).last_write,
                        now,
                        ttl,
                    ) ==> has_key(kept@, e0[l].key),
                forall|j: int|
                    0 <= j < kept@.len() ==> key_index(e0, (#[trigger] kept@[j]).key)
                        >= self.entries@.len(),
                kept@.len() == fresh_count(e0, now, ttl) - fresh_count(
                    self.entries@,
                    now,
                    ttl,
                ),
            decreases self.entries@.len(),
        {
            let ghost n = self.entries@.len() as int;
            match self.entries.pop() {
                Option::Some(e) => {
                    proof {
                        assert(e0.take(n).drop_last() =~= e0.take(n - 1));
                        assert(e == e0[n - 1]);
                        lemma_key_index(e0, e.key);
                        assert(key_index(e0, e.key) == n - 1);
                    }
                    let keep = if now >= e.last_write {
                        now - e.last_write <= ttl
                    } else {
                        true
                    };
                    proof {
                        assert(keep == spec_fresh(e.last_write, now, ttl));
                        if has_key(kept@, e.key) {
                            let j = choose|j: int| 0 <= j < kept@.len() && kept@[j].key == e.key;
                            assert(key_index(e0, kept@[j].key) >= n);
                            assert(false);
                        }
                    }
                    let ghost kpre = kept@;
                    if keep {
                        kept.push(e);
                        proof {
                            let k1 = kept@;
                            let m = k1.len() - 1;
                            assert forall|i2: int, j2: int|
                                0 <= i2 < k1.len() && 0 <= j2 < k1.len() && k1[i2].key
                                    == k1[j2].key implies i2 == j2 by {
                                if i2 < m && j2 == m {
                                    assert(has_key(kpre, e.key)) by {
                                        assert(kpre[i2].key == e.key);
                                    }
                                    assert(false);
                                } else if i2 == m && j2 < m {
                                    assert(has_key(kpre, e.key)) by {
                                        assert(kpre[j2].key == e.key);
                                    }
                                    assert(false);
                                }
                            }
                        }
                    }
                    proof {
                        lemma_fresh_count_take(e0, now, ttl, n);
                        assert(self.entries@ =~= e0.take(n - 1));
                        assert forall|l: int|
                            self.entries@.len() <= l < e0.len() && spec_fresh(
                                (#[trigger] e0[l]).last_write,
                                now,
                                ttl,
                            ) implies has_key(kept@, e0[l].key) by {
                            if l == n - 1 {
                                assert(keep);
                                assert(kept@[kept@.len() - 1].key == e.key);
                            } else {
                                assert(has_key(kpre, e0[l].key));
                                let j = choose|j: int|
                                    0 <= j < kpre.len() && kpre[j].key == e0[l].key;
                                assert(kept@[j].key == e0[l].key);
                            }
                        }
                    }
                },
                Option::None => {
                    proof {
                        assert(false);
                    }
                },
            }
        }
        proof {
            assert(fresh_count(self.entries@, now, ttl) == 0);
            assert(kept@.len() == fresh_count(e0, now, ttl));
        }
        self.entries = kept;
        let ghost e1 = self.entries@;

        // Size pass: drop the oldest entries until the bound holds.
        if let Option::Some(m) = self.max_size {
            while self.entries.len() > m
                invariant
                    self.ttl == ttl,
                    self.max_size == old(self).max_size,
                    self.dirty@ == old(self).dirty@,
                    distinct_keys(self.entries@),
                    forall|j: int|
                        0 <= j < self.entries@.len() ==> has_key(
                            e1,
                            (#[trigger] self.entries@[j]).key,
                        ) && self.entries@[j] == e1[key_index(e1, self.entries@[j].key)],
                    forall|k1: K|
                        has_key(e1, k1) && !has_key(self.entries@, k1) ==> (forall|j: int|
                            0 <= j < self.entries@.len() ==> e1[key_index(e1, k1)].last_write
                                <= (#[trigger] self.entries@[j]).last_write),
                    e1.len() > m ==> self.entries@.len() >= m,
                    e1.len() <= m ==> self.entries@ == e1,
                decreases self.entries@.len(),
            {
                let ghost cur = self.entries@;
                let oldest = self.find_oldest();
                let ghost removed = cur[oldest as int];
                self.entries.remove(oldest);
                proof {
                    let c1 = self.entries@;
                    assert forall|i2: int, j2: int|
                        0 <= i2 < c1.len() && 0 <= j2 < c1.len() && c1[i2].key == c1[j2].key
                        implies i2 == j2 by {
                        let oi = if i2 < oldest { i2 } else { i2 + 1 };
                        let oj = if j2 < oldest { j2 } else { j2 + 1 };
                        assert(cur[oi].key == cur[oj].key);
                    }
                    assert forall|j: int| 0 <= j < c1.len() implies has_key(
                        e1,
                        (#[trigger] c1[j]).key,
                    ) && c1[j] == e1[key_index(e1, c1[j].key)] by {
                        let oj = if j < oldest { j } else { j + 1 };
                        assert(c1[j] == cur[oj]);
                    }
                    assert forall|k1: K|
                        has_key(e1, k1) && !has_key(c1, k1) implies (forall|j: int|
                            0 <= j < c1.len() ==> e1[key_index(e1, k1)].last_write
                                <= (#[trigger] c1[j]).last_write) by {
                        if has_key(cur, k1) {
                            // k1 is the entry this step removed.
                            lemma_key_index(cur, k1);
                            let ci = key_index(cur, k1);
                            if ci != oldest {
                                let ni = if ci < oldest { ci } else { ci - 1 };
                                assert(c1[ni] == cur[ci]);
                                assert(has_key(c1, k1)) by {
                                    assert(c1[ni].key == k1);
                                }
                                assert(false);
                            }
                            assert(cur[ci] == e1[key_index(e1, k1)]);
                            assert forall|j: int| 0 <= j < c1.len() implies e1[key_index(
                                e1,
                                k1,
                            )].last_write <= (#[trigger] c1[j]).last_write by {
                                let oj = if j < oldest { j } else { j + 1 };
                                assert(c1[j] == cur[oj]);
                                assert(cur[oldest as int].last_write <= cur[oj].last_write);
                            }
                        } else {
                            // k1 was removed in an earlier step.
                            assert forall|j: int| 0 <= j < c1.len() implies e1[key_index(
                                e1,
                                k1,
                            )].last_write <= (#[trigger] c1[j]).last_write by {
                                let oj = if j < oldest { j } else { j + 1 };
                                assert(c1[j] == cur[oj]);
                            }
                        }
                    }
                }
            }
        }
        let ghost e2 = self.entries@;

        // Keep only the dirty marks whose entries survived.
        let ghost d0 = self.dirty@;
        let mut next_dirty: Vec<K> = Vec::new();
        let mut i: usize = 0;
        while i < self.dirty.len()
            invariant
                0 <= i <= self.dirty@.len(),
                self.ttl == ttl,
                self.max_size == old(self).max_size,
                self.dirty@ == d0,
                self.entries@ == e2,
                distinct_keys(e2),
                distinct_seq(d0),
                distinct_seq(next_dirty@),
                next_dirty@.len() <= i,
                forall|j: int|
                    0 <= j < next_dirty@.len() ==> d0.take(i as int).contains(
                        #[trigger] next_dirty@[j],
                    ) && has_key(e2, next_dirty@[j]),
                forall|l: int|
                    0 <= l < i && has_key(e2, #[trigger] d0[l]) ==> next_dirty@.contains(d0[l]),
            decreases self.dirty@.len() - i,
        {
            let d = self.dirty[i];
            let present = self.find(&d).is_some();
            if present {
                proof {
                    if next_dirty@.contains(d) {
                        let j = choose|j: int|
                            0 <= j < next_dirty@.len() && next_dirty@[j] == d;
                        assert(d0.take(i as int).contains(d));
                        let l = choose|l: int| 0 <= l < i && d0[l] == d;
                        assert(d0[l] == d0[i as int]);
                        assert(false);
                    }
                }
                let ghost ndpre = next_dirty@;
                next_dirty.push(d);
                proof {
                    let nd = next_dirty@;
                    let m = nd.len() - 1;
                    assert forall|i2: int, j2: int|
                        0 <= i2 < nd.len() && 0 <= j2 < nd.len() && nd[i2] == nd[j2] implies i2
                        == j2 by {
                        if i2 < m && j2 == m {
                            assert(ndpre.contains(nd[i2])) by {
                                assert(ndpre[i2] == nd[i2]);
                            }
                            assert(false);
                        } else if i2 == m && j2 < m {
                            assert(ndpre.contains(nd[j2])) by {
                                assert(ndpre[j2] == nd[j2]);
                            }
                            assert(false);
                        }
                    }
                    assert forall|j: int| 0 <= j < nd.len() implies d0.take(i + 1 as int).contains(
                        #[trigger] nd[j],
                    ) && has_key(e2, nd[j]) by {
                        if j < m {
                            assert(ndpre[j] == nd[j]);
                            assert(d0.take(i as int).contains(nd[j]));
                            let l = choose|l: int| 0 <= l < i && d0[l] == nd[j];
                            assert(d0.take(i + 1 as int)[l] == nd[j]);
                        } else {
                            assert(d0.take(i + 1 as int)[i as int] == d);
                        }
                    }
                    assert forall|l: int|
                        0 <= l < i + 1 && has_key(e2, #[trigger] d0[l]) implies nd.contains(
                        d0[l],
                    ) by {
                        if l < i {
                            assert(ndpre.contains(d0[l]));
                            let j = choose|j: int| 0 <= j < ndpre.len() && ndpre[j] == d0[l];
                            assert(nd[j] == d0[l]);
                        } else {
                            assert(nd[nd.len() - 1] == d);
                        }
                    }
                }
            } else {
                proof {
                    assert forall|j: int| 0 <= j < next_dirty@.len() implies d0.take(
                        i + 1 as int,
                    ).contains(#[trigger] next_dirty@[j]) && has_key(e2, next_dirty@[j]) by {
                        assert(d0.take(i as int).contains(next_dirty@[j]));
                        let l = choose|l: int| 0 <= l < i && d0[l] == next_dirty@[j];
                        assert(d0.take(i + 1 as int)[l] == next_dirty@[j]);
                    }
                }
            }
            i += 1;
        }
        self.dirty = next_dirty;

        // Tie the final state to the initial one.
        proof {
            assert(d0.take(d0.len() as int) =~= d0);
            assert forall|k: K| #[trigger] has_key(e2, k) implies has_key(e0, k) && e2[key_index(
                e2,
                k,
            )] == e0[key_index(e0, k)] && spec_fresh(
                e0[key_index(e0, k)].last_write,
                now,
                ttl,
            ) by {
                lemma_key_index(e2, k);
                let i2 = key_index(e2, k);
                assert(has_key(e1, e2[i2].key) && e2[i2] == e1[key_index(e1, e2[i2].key)]);
                let j1 = key_index(e1, k);
                lemma_key_index(e1, k);
                assert(has_key(e0, e1[j1].key) && e1[j1] == e0[key_index(e0, e1[j1].key)]);
            }
            assert forall|k: K| has_key(e1, k) implies has_key(e0, k) && e1[key_index(e1, k)]
                == e0[key_index(e0, k)] && spec_fresh(e0[key_index(e0, k)].last_write, now, ttl) by {
                lemma_key_index(e1, k);
                let j1 = key_index(e1, k);
                assert(has_key(e0, e1[j1].key) && e1[j1] == e0[key_index(e0, e1[j1].key)]);
            }
            assert forall|k: K|
                has_key(e0, k) && spec_fresh(e0[key_index(e0, k)].last_write, now, ttl) implies
                has_key(e1, k) by {
                lemma_key_index(e0, k);
                let oi = key_index(e0, k);
                assert(spec_fresh(e0[oi].last_write, now, ttl));
                assert(has_key(e1, e0[oi].key));
            }
        }
    }
}

} // verus!
