//! A small keyed cache whose entries expire after a fixed duration. Time
//! enters as an explicit millisecond stamp, so freshness is a plain
//! comparison.

use vstd::prelude::*;

verus! {

broadcast use vstd::seq::group_seq_axioms;

/// A cache of values keyed by an integer; an entry older than the duration
/// is treated as absent.
pub struct Cache<V> {
    pub duration_ms: u64,
    pub entries: Vec<(u64, u64, V)>,
}

/// Whether the table holds the key.
pub open spec fn cache_has<V>(es: Seq<(u64, u64, V)>, key: u64) -> bool {
    exists|i: int| 0 <= i < es.len() && (#[trigger] es[i]).0 == key
}

impl<V> Cache<V> {
    /// Keys are never repeated.
    pub open spec fn wf(self) -> bool {
        forall|i: int, j: int|
            0 <= i < j < self.entries@.len() ==> (#[trigger] self.entries@[i]).0 != (
            #[trigger] self.entries@[j]).0
    }

    /// An empty cache whose entries will live for `duration_ms`.
    pub fn new(duration_ms: u64) -> (c: Cache<V>)
        ensures
            c.wf(),
            c.entries@.len() == 0,
            c.duration_ms == duration_ms,
    {
        Cache { duration_ms, entries: Vec::new() }
    }

    fn find(&self, key: u64) -> (r: Option<usize>)
        ensures
            match r {
                Some(i) => i < self.entries@.len() && self.entries@[i as int].0 == key,
                None => !cache_has(self.entries@, key),
            },
    {
        let mut i: usize = 0;
        while i < self.entries.len()
            invariant
                i <= self.entries@.len(),
                forall|k: int| 0 <= k < i ==> (#[trigger] self.entries@[k]).0 != key,
            decreases self.entries@.len() - i,
        {
            if self.entries[i].0 == key {
                return Some(i);
            }
            i = i + 1;
        }
        proof {
            if cache_has(self.entries@, key) {
                let k = choose|k: int|
                    0 <= k < self.entries@.len() && (#[trigger] self.entries@[k]).0 == key;
            }
        }
        None
    }

    /// The entry under `key`, unless it is missing or stale.
    pub fn get(&self, key: u64, now: u64) -> (r: Option<&V>)
        requires
            self.wf(),
        ensures
            match r {
                Some(v) => exists|i: int|
                    0 <= i < self.entries@.len() && (#[trigger] self.entries@[i]).0 == key && now
                        - self.entries@[i].1 <= self.duration_ms && self.entries@[i].2 == *v,
                None => forall|i: int|
                    0 <= i < self.entries@.len() && (#[trigger] self.entries@[i]).0 == key ==> now
                        - self.entries@[i].1 > self.duration_ms,
            },
    {
        match self.find(key) {
            None => None,
            Some(i) => {
                let stamp = self.entries[i].1;
                if now >= stamp && now - stamp > self.duration_ms {
                    proof {
                        assert(forall|k: int|
                            0 <= k < self.entries@.len() && (#[trigger] self.entries@[k]).0
                                == key ==> k == i);
                    }
                    None
                } else {
                    Some(&self.entries[i].2)
                }
            },
        }
    }

    /// Store a value under `key`, stamped `now`; an old entry for the key is
    /// replaced.
    pub fn set(&mut self, key: u64, value: V, now: u64)
        requires
            old(self).wf(),
        ensures
            final(self).wf(),
            final(self).duration_ms == old(self).duration_ms,
            cache_has(final(self).entries@, key),
            exists|i: int|
                0 <= i < final(self).entries@.len() && (#[trigger] final(self).entries@[i]).0 == key && final(self).entries@[i].1 == now && final(self).entries@[i].2 == value,
    {
        match self.find(key) {
            Some(i) => {
                let ghost before = self.entries@;
                let _ = self.entries.remove(i);
                self.entries.insert(i, (key, now, value));
                proof {
                    assert(forall|k: int|
                        0 <= k < self.entries@.len() && k != i ==> #[trigger] self.entries@[k]
                            == before[k]);
                    assert(self.entries@[i as int] == (key, now, value));
                }
            },
            None => {
                self.entries.push((key, now, value));
                proof {
                    assert(self.entries@[self.entries@.len() - 1] == (key, now, value));
                }
            },
        }
    }
}

} // verus!