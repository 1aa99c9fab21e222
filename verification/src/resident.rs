//! The resident set: the paths whose bytes the cache currently holds.
//!
//! Entries pair a byte path with a shared handle on the file's contents, and
//! the set maintains a running total of resident content bytes.  The
//! well-formedness predicate ties that total to the sum of the entries'
//! sizes; every mutating operation preserves it.

use crate::blob::{share_file, SizedFile};
use crate::kv::{kv_distinct, kv_has, kv_map, lemma_kv_dom, lemma_kv_index, lemma_kv_len,
    lemma_kv_push, lemma_kv_remove, lemma_kv_update};
use crate::paths::bytes_eq;
use std::sync::Arc;
use vstd::prelude::*;
use vstd::std_specs::vec::vec_index_mut;

verus! {

/// The total content size of a sequence of resident entries.
pub open spec fn sum_entry_sizes(s: Seq<(Seq<u8>, Seq<u8>)>) -> nat
    decreases s.len(),
{
    if s.len() == 0 {
        0
    } else {
        sum_entry_sizes(s.drop_last()) + s.last().1.len()
    }
}

/// The size a map holds under a path, zero when the path is absent.
pub open spec fn size_of(m: Map<Seq<u8>, Seq<u8>>, p: Seq<u8>) -> nat {
    if m.contains_key(p) {
        m[p].len()
    } else {
        0
    }
}

/// Removing one entry removes exactly its size from the total.
pub proof fn lemma_sum_remove(s: Seq<(Seq<u8>, Seq<u8>)>, i: int)
    requires
        0 <= i < s.len(),
    ensures
        sum_entry_sizes(s.remove(i)) + s[i].1.len() == sum_entry_sizes(s),
    decreases s.len(),
{
    if i == s.len() - 1 {
        assert(s.remove(i) =~= s.drop_last());
    } else {
        lemma_sum_remove(s.drop_last(), i);
        assert(s.remove(i).drop_last() =~= s.drop_last().remove(i));
        assert(s.remove(i).last() == s.last());
        assert(s.drop_last()[i] == s[i]);
    }
}

/// Replacing one entry's contents adjusts the total by the difference.
pub proof fn lemma_sum_update(s: Seq<(Seq<u8>, Seq<u8>)>, i: int, b: Seq<u8>)
    requires
        0 <= i < s.len(),
    ensures
        sum_entry_sizes(s.update(i, (s[i].0, b))) + s[i].1.len() == sum_entry_sizes(s) + b.len(),
    decreases s.len(),
{
    let t = s.update(i, (s[i].0, b));
    if i == s.len() - 1 {
        assert(t.drop_last() =~= s.drop_last());
        assert(t.last() == (s[i].0, b));
    } else {
        lemma_sum_update(s.drop_last(), i, b);
        assert(s.drop_last()[i] == s[i]);
        assert(t.drop_last() =~= s.drop_last().update(i, (s[i].0, b)));
        assert(t.last() == s.last());
    }
}

/// The map from resident path to its shared bytes, plus the running total.
pub struct ResidentSet {
    entries: Vec<(Vec<u8>, Arc<SizedFile>)>,
    used: usize,
}

impl View for ResidentSet {
    type V = Map<Seq<u8>, Seq<u8>>;

    closed spec fn view(&self) -> Map<Seq<u8>, Seq<u8>> {
        kv_map(self.seq_view())
    }
}

impl ResidentSet {
    /// The stored entries, path and contents, in insertion order.
    pub closed spec fn seq_view(self) -> Seq<(Seq<u8>, Seq<u8>)> {
        Seq::new(self.entries@.len(), |i: int| (self.entries@[i].0@, self.entries@[i].1@))
    }

    /// The running total of resident content bytes.
    pub closed spec fn used(self) -> nat {
        self.used as nat
    }

    /// Paths are stored at most once, and the running total equals the sum
    /// of the entries' sizes.
    pub open spec fn wf(self) -> bool {
        &&& kv_distinct(self.seq_view())
        &&& self.used() == sum_entry_sizes(self.seq_view())
        &&& self.used() <= usize::MAX
    }

    /// The map view is the one the entry sequence denotes.
    pub proof fn lemma_view_is_entries(self)
        ensures
            self@ == kv_map(self.seq_view()),
    {
    }

    /// An empty set holding no bytes.
    pub fn new() -> (r: ResidentSet)
        ensures
            r.wf(),
            r@ == Map::<Seq<u8>, Seq<u8>>::empty(),
            r.used() == 0,
            r.seq_view() == Seq::<(Seq<u8>, Seq<u8>)>::empty(),
    {
        let r = ResidentSet { entries: Vec::new(), used: 0 };
        proof {
            assert(r.seq_view() =~= Seq::<(Seq<u8>, Seq<u8>)>::empty());
        }
        r
    }

    /// The index holding `path`, if any.
    fn find(&self, path: &Vec<u8>) -> (r: Option<usize>)
        ensures
            match r {
                Some(i) => i < self.seq_view().len() && self.seq_view()[i as int].0 == path@,
                None => !kv_has(self.seq_view(), path@),
            },
    {
        let n = self.entries.len();
        let mut i: usize = 0;
        while i < n
            invariant
                0 <= i <= n,
                n == self.seq_view().len(),
                forall|j: int| 0 <= j < i ==> (#[trigger] self.seq_view()[j]).0 != path@,
            decreases n - i,
        {
            if bytes_eq(&self.entries[i].0, path) {
                return Some(i);
            }
            i = i + 1;
        }
        None
    }

    /// Whether `path` is resident.
    pub fn contains(&self, path: &Vec<u8>) -> (r: bool)
        ensures
            r == self@.contains_key(path@),
    {
        proof {
            lemma_kv_dom(self.seq_view());
        }
        match self.find(path) {
            Some(_) => true,
            None => false,
        }
    }

    /// A shared handle on the resident contents of `path`, if any; sharing
    /// is O(1) and copies no bytes.
    pub fn lookup(&self, path: &Vec<u8>) -> (r: Option<Arc<SizedFile>>)
        requires
            self.wf(),
        ensures
            match r {
                Some(f) => self@.contains_key(path@) && f@ == self@[path@],
                None => !self@.contains_key(path@),
            },
    {
        proof {
            lemma_kv_dom(self.seq_view());
        }
        match self.find(path) {
            Some(i) => {
                proof {
                    lemma_kv_index(self.seq_view(), i as int);
                }
                Some(share_file(&self.entries[i].1))
            },
            None => None,
        }
    }

    /// The number of resident entries.
    pub fn len(&self) -> (n: usize)
        ensures
            n == self.seq_view().len(),
    {
        self.entries.len()
    }

    /// The path of the entry at index `i`.
    pub fn path_at(&self, i: usize) -> (p: &Vec<u8>)
        requires
            i < self.seq_view().len(),
        ensures
            p@ == self.seq_view()[i as int].0,
    {
        &self.entries[i].0
    }

    /// The content size of the entry at index `i`.
    pub fn size_at(&self, i: usize) -> (n: usize)
        requires
            i < self.seq_view().len(),
        ensures
            n == self.seq_view()[i as int].1.len(),
    {
        self.entries[i].1.size()
    }

    /// The running total of resident content bytes.
    pub fn used_bytes(&self) -> (n: usize)
        ensures
            n == self.used(),
    {
        self.used
    }

    /// With distinct paths, the entry count is the size of the map's domain.
    pub proof fn lemma_len_is_dom_len(self)
        requires
            self.wf(),
        ensures
            self@.dom().finite(),
            self@.dom().len() == self.seq_view().len(),
    {
        lemma_kv_len(self.seq_view());
    }

    /// Inserts or replaces the entry for `path`, adjusting the total by the
    /// difference in sizes.
    pub fn insert(&mut self, path: Vec<u8>, file: Arc<SizedFile>)
        requires
            old(self).wf(),
            old(self).used() - size_of(old(self)@, path@) + file@.len() <= usize::MAX,
        ensures
            final(self).wf(),
            final(self)@ == old(self)@.insert(path@, file@),
            final(self).used() == old(self).used() - size_of(old(self)@, path@) + file@.len(),
    {
        proof {
            lemma_kv_dom(self.seq_view());
        }
        let size = file.size();
        match self.find(&path) {
            Some(i) => {
                proof {
                    lemma_kv_index(self.seq_view(), i as int);
                }
                let ghost pre = self.seq_view();
                let old_size = self.entries[i].1.size();
                proof {
                    lemma_sum_remove(pre, i as int);
                }
                self.used = self.used - old_size;
                self.used = self.used + size;
                let e = vec_index_mut(&mut self.entries, i);
                e.1 = file;
                proof {
                    assert(self.seq_view() =~= pre.update(i as int, (pre[i as int].0, file@)));
                    lemma_kv_update(pre, i as int, file@);
                    lemma_sum_update(pre, i as int, file@);
                }
            },
            None => {
                let ghost pre = self.seq_view();
                self.used = self.used + size;
                self.entries.push((path, file));
                proof {
                    assert(self.seq_view() =~= pre.push((path@, file@)));
                    lemma_kv_push(pre, (path@, file@));
                    assert(forall|j: int| 0 <= j < pre.len() ==> self.seq_view()[j] == pre[j]);
                    assert(self.seq_view().drop_last() =~= pre);
                }
            },
        }
    }

    /// Removes the entry for `path`, returning its handle and subtracting
    /// its size from the total; the count stays with the access counter.
    pub fn remove(&mut self, path: &Vec<u8>) -> (r: Option<Arc<SizedFile>>)
        requires
            old(self).wf(),
        ensures
            final(self).wf(),
            final(self)@ == old(self)@.remove(path@),
            final(self).used() == old(self).used() - size_of(old(self)@, path@),
            r matches Some(f) ==> old(self)@.contains_key(path@) && f@ == old(self)@[path@],
            r is None ==> !old(self)@.contains_key(path@),
    {
        proof {
            lemma_kv_dom(self.seq_view());
        }
        match self.find(path) {
            Some(i) => {
                proof {
                    lemma_kv_index(self.seq_view(), i as int);
                }
                let ghost pre = self.seq_view();
                let (_, f) = self.entries.remove(i);
                let old_size = f.size();
                proof {
                    assert(self.seq_view() =~= pre.remove(i as int));
                    lemma_kv_remove(pre, i as int);
                    lemma_sum_remove(pre, i as int);
                }
                self.used = self.used - old_size;
                Some(f)
            },
            None => {
                proof {
                    assert(self@ =~= self@.remove(path@));
                }
                None
            },
        }
    }
}

} // verus!
