//! The access counter: a map from byte path to how often it was requested.
//!
//! Counts are created at one on first observation, increment by one per
//! request (saturating at the largest value), and are never decremented or
//! removed while the cache lives.  Their lifetime is deliberately decoupled
//! from residency: a popular file that was evicted stays competitive for
//! re-admission.

use crate::kv::{kv_distinct, kv_has, kv_map, lemma_kv_dom, lemma_kv_index, lemma_kv_push,
    lemma_kv_update};
use crate::paths::bytes_eq;
use vstd::prelude::*;
use vstd::std_specs::vec::vec_index_mut;

verus! {

/// The count a map records for a path, zero when the path is absent.
pub open spec fn peek_spec(m: Map<Seq<u8>, u64>, p: Seq<u8>) -> u64 {
    if m.contains_key(p) {
        m[p]
    } else {
        0
    }
}

/// One more observation: increment by one, saturating at the maximum.
pub open spec fn bumped(c: u64) -> u64 {
    if c == u64::MAX {
        c
    } else {
        (c + 1) as u64
    }
}

/// A mapping from path to a monotonically non-decreasing access count.
pub struct AccessCounter {
    entries: Vec<(Vec<u8>, u64)>,
}

impl View for AccessCounter {
    type V = Map<Seq<u8>, u64>;

    closed spec fn view(&self) -> Map<Seq<u8>, u64> {
        kv_map(self.seq_view())
    }
}

impl AccessCounter {
    /// The stored pairs, path by path, in insertion order.
    pub closed spec fn seq_view(self) -> Seq<(Seq<u8>, u64)> {
        Seq::new(self.entries@.len(), |i: int| (self.entries@[i].0@, self.entries@[i].1))
    }

    /// Paths are stored at most once, and every stored count is positive.
    pub open spec fn wf(self) -> bool {
        &&& kv_distinct(self.seq_view())
        &&& forall|i: int| 0 <= i < self.seq_view().len() ==> (#[trigger] self.seq_view()[i]).1
            >= 1
    }

    /// The map view is the one the entry sequence denotes.
    pub proof fn lemma_view_is_entries(self)
        ensures
            self@ == kv_map(self.seq_view()),
    {
    }

    /// An empty counter: no path has been observed.
    pub fn new() -> (c: AccessCounter)
        ensures
            c.wf(),
            c@ == Map::<Seq<u8>, u64>::empty(),
    {
        let c = AccessCounter { entries: Vec::new() };
        proof {
            assert(c.seq_view() =~= Seq::<(Seq<u8>, u64)>::empty());
        }
        c
    }

    /// The index holding `path`, if any.
    fn find(&self, path: &Vec<u8>) -> (r: Option<usize>)
        ensures
            match r {
                Some(i) => i < self.seq_view().len() && self.seq_view()[i as int].0 == path@,
                None => !kv_has(self.seq_view(), path@),
            },
    {
        let n = self.entries.len();
        let mut i: usize = 0;
        while i < n
            invariant
                0 <= i <= n,
                n == self.seq_view().len(),
                forall|j: int| 0 <= j < i ==> (#[trigger] self.seq_view()[j]).0 != path@,
            decreases n - i,
        {
            if bytes_eq(&self.entries[i].0, path) {
                return Some(i);
            }
            i = i + 1;
        }
        None
    }

    /// Returns the current count for `path` without changing anything.
    pub fn peek(&self, path: &Vec<u8>) -> (c: u64)
        requires
            self.wf(),
        ensures
            c == peek_spec(self@, path@),
    {
        proof {
            lemma_kv_dom(self.seq_view());
        }
        match self.find(path) {
            Some(i) => {
                proof {
                    lemma_kv_index(self.seq_view(), i as int);
                }
                self.entries[i].1
            },
            None => 0,
        }
    }

    /// Records one observation of `path`: its count is created at one or
    /// incremented by one (saturating), and the new count is returned.
    pub fn observe(&mut self, path: &Vec<u8>) -> (c: u64)
        requires
            old(self).wf(),
        ensures
            final(self).wf(),
            c == bumped(peek_spec(old(self)@, path@)),
            c >= 1,
            c >= peek_spec(old(self)@, path@),
            final(self)@ == old(self)@.insert(path@, c),
    {
        proof {
            lemma_kv_dom(self.seq_view());
        }
        match self.find(path) {
            Some(i) => {
                proof {
                    lemma_kv_index(self.seq_view(), i as int);
                }
                let ghost pre = self.seq_view();
                let cur = self.entries[i].1;
                let newc = if cur < u64::MAX {
                    cur + 1
                } else {
                    cur
                };
                let e = vec_index_mut(&mut self.entries, i);
                e.1 = newc;
                proof {
                    assert(self.seq_view() =~= pre.update(i as int, (pre[i as int].0, newc)));
                    lemma_kv_update(pre, i as int, newc);
                    assert(forall|j: int| 0 <= j < self.seq_view().len() && j != i
                        ==> self.seq_view()[j] == pre[j]);
                }
                newc
            },
            None => {
                let ghost pre = self.seq_view();
                self.entries.push((path.clone(), 1u64));
                proof {
                    assert(self.seq_view() =~= pre.push((path@, 1u64)));
                    lemma_kv_push(pre, (path@, 1u64));
                    assert(forall|j: int| 0 <= j < pre.len() ==> self.seq_view()[j] == pre[j]);
                }
                1
            },
        }
    }
}

} // verus!
