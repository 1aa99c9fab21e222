//! The cache engine: counting, residency, admission and serving.
//!
//! The engine composes an access counter, a resident set and the admission
//! policy behind the surface a host serves requests with: `get`,
//! `get_or_cache`, `store`, plus diagnostics.  All file reading goes through the injected
//! `FileReader`; the engine is verified against every outcome a read may
//! produce.  The engine is not internally synchronised: a host shares it
//! across request handlers behind a single lock, and a miss performs its
//! read under that lock, so concurrent misses serialise on the disk.

use crate::blob::{share_file, CachedFile, SizedFile};
use crate::counter::{bumped, peek_spec, AccessCounter};
use crate::kv::{kv_has, kv_map, lemma_kv_dom, lemma_kv_index};
use crate::paths::{bytes_lt, clone_bytes, lemma_lex_total, lemma_lex_transitive, lex_lt};
use crate::policy::{all_below, decide, fits, victim_prefix, sum_sizes_of, Decision,
    RejectReason};
use crate::reader::FileReader;
use crate::resident::{size_of, sum_entry_sizes, ResidentSet};
use std::sync::Arc;
use vstd::prelude::*;

verus! {

/// The map after the listed paths are removed, in order.
pub open spec fn remove_all(m: Map<Seq<u8>, Seq<u8>>, v: Seq<Seq<u8>>) -> Map<Seq<u8>, Seq<u8>>
    decreases v.len(),
{
    if v.len() == 0 {
        m
    } else {
        remove_all(m, v.drop_last()).remove(v.last())
    }
}

/// Removing a list of paths removes exactly those paths and changes no
/// other entry.
pub proof fn lemma_remove_all(m: Map<Seq<u8>, Seq<u8>>, v: Seq<Seq<u8>>)
    ensures
        forall|q: Seq<u8>| #[trigger] remove_all(m, v).contains_key(q) <==> (m.contains_key(q)
            && !v.contains(q)),
        forall|q: Seq<u8>| #[trigger] remove_all(m, v).contains_key(q) ==> remove_all(m, v)[q]
            == m[q],
    decreases v.len(),
{
    if v.len() > 0 {
        lemma_remove_all(m, v.drop_last());
        assert forall|q: Seq<u8>| v.contains(q) implies (v.drop_last().contains(q) || q
            == v.last()) by {
            let i = choose|i: int| 0 <= i < v.len() && v[i] == q;
            if i < v.len() - 1 {
                assert(v.drop_last()[i] == q);
            }
        }
        assert forall|q: Seq<u8>| v.drop_last().contains(q) implies v.contains(q) by {
            let i = choose|i: int| 0 <= i < v.drop_last().len() && v.drop_last()[i] == q;
            assert(v[i] == q);
        }
        assert(v.contains(v.last())) by {
            assert(v[v.len() - 1] == v.last());
        }
        assert forall|q: Seq<u8>| #[trigger] remove_all(m, v).contains_key(q) implies (
        m.contains_key(q) && !v.contains(q)) by {
            assert(remove_all(m, v.drop_last()).contains_key(q));
            assert(!v.drop_last().contains(q));
            assert(q != v.last());
        }
        assert forall|q: Seq<u8>| m.contains_key(q) && !v.contains(q) implies #[trigger]
        remove_all(m, v).contains_key(q) by {
            assert(!v.drop_last().contains(q));
            assert(remove_all(m, v.drop_last()).contains_key(q));
            assert(q != v.last());
        }
        assert forall|q: Seq<u8>| #[trigger] remove_all(m, v).contains_key(q) implies remove_all(
            m,
            v,
        )[q] == m[q] by {
            assert(remove_all(m, v.drop_last()).contains_key(q));
            assert(remove_all(m, v)[q] == remove_all(m, v.drop_last())[q]);
        }
    }
}

/// Whether a file of `size` bytes passes the optional size filters.
pub open spec fn within_filters(lo: Option<usize>, hi: Option<usize>, size: nat) -> bool {
    &&& (lo matches Some(n) ==> size >= n)
    &&& (hi matches Some(n) ==> size <= n)
}

/// How one `store` call transforms residency and the byte total, and what
/// it returns.  `cnt` is the candidate's access count at decision time.
pub open spec fn store_outcome(
    m: Map<Seq<u8>, Seq<u8>>,
    used: nat,
    cm: Map<Seq<u8>, u64>,
    cap: nat,
    p: Seq<u8>,
    b: Seq<u8>,
    cnt: u64,
    post_m: Map<Seq<u8>, Seq<u8>>,
    post_used: nat,
    r: Result<(), RejectReason>,
) -> bool {
    let size = b.len();
    let needed = used + size - cap;
    if fits(used, size, cap) {
        &&& r is Ok
        &&& post_m == m.insert(p, b)
        &&& post_used == used - size_of(m, p) + size
    } else if size > cap {
        &&& r == Err::<(), RejectReason>(RejectReason::TooLarge)
        &&& post_m == m
        &&& post_used == used
    } else if exists|v: Seq<Seq<u8>>| victim_prefix(m, cm, needed, v) && all_below(cm, v, cnt) {
        &&& r is Ok
        &&& exists|v: Seq<Seq<u8>>|
            victim_prefix(m, cm, needed, v) && all_below(cm, v, cnt) && post_m == remove_all(
                m,
                v,
            ).insert(p, b) && post_used == used - sum_sizes_of(m, v) - size_of(m, p) + size
    } else {
        &&& r == Err::<(), RejectReason>(RejectReason::InsufficientDemand)
        &&& post_m == m
        &&& post_used == used
    }
}

/// What serving one freshly read file does to residency: nothing when the
/// size filters exclude it, otherwise exactly a `store`.
pub open spec fn cache_read_outcome(
    m: Map<Seq<u8>, Seq<u8>>,
    used: nat,
    cm: Map<Seq<u8>, u64>,
    cap: nat,
    lo: Option<usize>,
    hi: Option<usize>,
    p: Seq<u8>,
    b: Seq<u8>,
    post_m: Map<Seq<u8>, Seq<u8>>,
    post_used: nat,
) -> bool {
    if within_filters(lo, hi, b.len()) {
        exists|r: Result<(), RejectReason>|
            store_outcome(m, used, cm, cap, p, b, peek_spec(cm, p), post_m, post_used, r)
    } else {
        post_m == m && post_used == used
    }
}

/// What `get` returns for a path, as a function of the residency it sees.
pub open spec fn get_result(m: Map<Seq<u8>, Seq<u8>>, p: Seq<u8>) -> Option<Seq<u8>> {
    if m.contains_key(p) {
        Some(m[p])
    } else {
        None
    }
}

/// The cache engine.
pub struct Cache<R: FileReader> {
    size_limit: usize,
    min_size: Option<usize>,
    max_size: Option<usize>,
    resident: ResidentSet,
    counter: AccessCounter,
    reader: R,
}

impl<R: FileReader> Cache<R> {
    /// The resident map: path to content bytes.
    pub closed spec fn residents(self) -> Map<Seq<u8>, Seq<u8>> {
        self.resident@
    }

    /// The resident entries as a sequence, in insertion order.
    pub closed spec fn resident_seq(self) -> Seq<(Seq<u8>, Seq<u8>)> {
        self.resident.seq_view()
    }

    /// The access counts: path to how often it was requested.
    pub closed spec fn counts(self) -> Map<Seq<u8>, u64> {
        self.counter@
    }

    /// The running total of resident content bytes.
    pub closed spec fn used(self) -> nat {
        self.resident.used()
    }

    /// The configured byte limit.
    pub closed spec fn limit(self) -> nat {
        self.size_limit as nat
    }

    /// The optional lower size filter.
    pub closed spec fn min_filter(self) -> Option<usize> {
        self.min_size
    }

    /// The optional upper size filter.
    pub closed spec fn max_filter(self) -> Option<usize> {
        self.max_size
    }

    /// The injected reader's state.
    pub closed spec fn reader_view(self) -> R {
        self.reader
    }

    /// The engine's invariant: components well formed, a positive limit,
    /// the byte total within the limit, and every resident path counted.
    pub closed spec fn wf(self) -> bool {
        &&& self.resident.wf()
        &&& self.counter.wf()
        &&& self.size_limit >= 1
        &&& self.resident.used() <= self.size_limit
        &&& forall|p: Seq<u8>| #[trigger] self.resident@.contains_key(p) ==> peek_spec(
            self.counter@,
            p,
        ) >= 1
    }

    /// The byte total is exactly the sum of the resident entries' sizes,
    /// and the resident map is the one those entries denote.
    pub proof fn lemma_used_is_sum(self)
        requires
            self.wf(),
        ensures
            self.used() == sum_entry_sizes(self.resident_seq()),
            self.residents() == kv_map(self.resident_seq()),
    {
        self.resident.lemma_view_is_entries();
    }

    /// The byte total never exceeds the configured limit.
    pub proof fn lemma_used_within_limit(self)
        requires
            self.wf(),
        ensures
            self.used() <= self.limit(),
            self.limit() >= 1,
    {
    }

    /// Residency implies a positive access count.
    pub proof fn lemma_resident_is_counted(self, p: Seq<u8>)
        requires
            self.wf(),
            self.residents().contains_key(p),
        ensures
            peek_spec(self.counts(), p) >= 1,
    {
    }

    /// An engine with the given byte limit and reader, and no filters.
    pub fn new(size_limit: usize, reader: R) -> (c: Cache<R>)
        requires
            size_limit >= 1,
        ensures
            c.wf(),
            c.residents() == Map::<Seq<u8>, Seq<u8>>::empty(),
            c.counts() == Map::<Seq<u8>, u64>::empty(),
            c.used() == 0,
            c.limit() == size_limit,
            c.min_filter() is None,
            c.max_filter() is None,
            c.reader_view() == reader,
    {
        Cache {
            size_limit,
            min_size: None,
            max_size: None,
            resident: ResidentSet::new(),
            counter: AccessCounter::new(),
            reader,
        }
    }

    /// Records the request and serves `path` from memory if it is
    /// resident.  Never reads the filesystem, never admits, never evicts.
    pub fn get(&mut self, path: &Vec<u8>) -> (r: Option<CachedFile>)
        requires
            old(self).wf(),
        ensures
            final(self).wf(),
            final(self).residents() == old(self).residents(),
            final(self).resident_seq() == old(self).resident_seq(),
            final(self).used() == old(self).used(),
            final(self).limit() == old(self).limit(),
            final(self).min_filter() == old(self).min_filter(),
            final(self).max_filter() == old(self).max_filter(),
            final(self).reader_view() == old(self).reader_view(),
            final(self).counts() == old(self).counts().insert(
                path@,
                bumped(peek_spec(old(self).counts(), path@)),
            ),
            match r {
                Some(h) => h.path_view() == path@ && get_result(old(self).residents(), path@)
                    == Some(h.contents()),
                None => get_result(old(self).residents(), path@) is None,
            },
    {
        let _ = self.counter.observe(path);
        match self.resident.lookup(path) {
            Some(f) => Some(CachedFile::new(clone_bytes(path), f)),
            None => None,
        }
    }

    /// Attempts to retain `file` under `path`, consulting the admission
    /// policy with the path's current count; evicts the policy's victims
    /// first when it says so.  Counts are never changed here.
    pub fn store(&mut self, path: Vec<u8>, file: Arc<SizedFile>) -> (r: Result<(), RejectReason>)
        requires
            old(self).wf(),
            peek_spec(old(self).counts(), path@) >= 1,
        ensures
            final(self).wf(),
            final(self).counts() == old(self).counts(),
            final(self).limit() == old(self).limit(),
            final(self).min_filter() == old(self).min_filter(),
            final(self).max_filter() == old(self).max_filter(),
            final(self).reader_view() == old(self).reader_view(),
            store_outcome(
                old(self).residents(),
                old(self).used(),
                old(self).counts(),
                old(self).limit(),
                path@,
                file@,
                peek_spec(old(self).counts(), path@),
                final(self).residents(),
                final(self).used(),
                r,
            ),
            r is Ok ==> final(self).residents().contains_key(path@)
                && final(self).residents()[path@] == file@,
            r is Err ==> final(self).residents() == old(self).residents() && final(self).used()
                == old(self).used(),
    {
        let ghost m0 = self.resident@;
        let ghost cm0 = self.counter@;
        let ghost used0 = self.resident.used();
        let size = file.size();
        let cnt = self.counter.peek(&path);
        let d = decide(&self.resident, &self.counter, self.size_limit, size, cnt);
        match d {
            Decision::Admit => {
                self.resident.insert(path, file);
                Ok(())
            },
            Decision::AdmitAfterEviction(victims) => {
                let ghost vd = victims.deep_view();
                let ghost needed = used0 + size as nat - self.size_limit as nat;
                proof {
                    assert(victim_prefix(m0, cm0, needed, vd) && all_below(cm0, vd, cnt));
                }
                let n = victims.len();
                let mut i: usize = 0;
                while i < n
                    invariant
                        0 <= i <= n,
                        n == vd.len(),
                        vd == victims.deep_view(),
                        victim_prefix(m0, cm0, needed, vd),
                        all_below(cm0, vd, cnt),
                        self.resident.wf(),
                        self.counter == old(self).counter,
                        self.size_limit == old(self).size_limit,
                        self.min_size == old(self).min_size,
                        self.max_size == old(self).max_size,
                        self.reader == old(self).reader,
                        self.resident@ == remove_all(m0, vd.take(i as int)),
                        self.resident.used() == used0 - sum_sizes_of(m0, vd.take(i as int)),
                    decreases n - i,
                {
                    proof {
                        lemma_remove_all(m0, vd.take(i as int));
                        assert(!vd.take(i as int).contains(vd[i as int])) by {
                            if vd.take(i as int).contains(vd[i as int]) {
                                let j = choose|j: int|
                                    0 <= j < i && vd.take(i as int)[j] == vd[i as int];
                                assert(vd[j] == vd[i as int]);
                                assert(crate::policy::evict_before(m0, cm0, vd[j], vd[i as int]));
                                crate::policy::lemma_evict_before_irreflexive(
                                    m0,
                                    cm0,
                                    vd[i as int],
                                );
                            }
                        }
                        assert(victims@[i as int].deep_view() =~= victims@[i as int]@);
                        assert(victims@[i as int]@ == vd[i as int]);
                        assert(self.resident@.contains_key(vd[i as int]));
                        assert(self.resident@[vd[i as int]] == m0[vd[i as int]]);
                    }
                    let _ = self.resident.remove(&victims[i]);
                    proof {
                        assert(vd.take(i + 1).drop_last() =~= vd.take(i as int));
                        assert(vd.take(i + 1).last() == vd[i as int]);
                        assert(sum_sizes_of(m0, vd.take(i + 1)) == sum_sizes_of(
                            m0,
                            vd.take(i as int),
                        ) + m0[vd[i as int]].len());
                        assert(self.resident@ =~= remove_all(m0, vd.take(i + 1)));
                    }
                    i = i + 1;
                }
                proof {
                    assert(vd.take(n as int) =~= vd);
                    lemma_remove_all(m0, vd);
                    assert(!vd.contains(path@)) by {
                        if vd.contains(path@) {
                            let j = choose|j: int| 0 <= j < vd.len() && vd[j] == path@;
                            assert(peek_spec(cm0, vd[j]) < cnt);
                        }
                    }
                    assert(size_of(self.resident@, path@) == size_of(m0, path@));
                }
                self.resident.insert(path, file);
                Ok(())
            },
            Decision::Reject(reason) => {
                proof {
                    assert(self.resident@ =~= m0);
                }
                Err(reason)
            },
        }
    }

    /// Serves a file that was just read for `path`, and retains it when
    /// the size filters and the admission policy allow: the caller gets a
    /// handle on the bytes whatever the outcome.  A read happens only
    /// after a miss, so the path is observed but not resident.
    pub fn cache_read(&mut self, path: Vec<u8>, file: SizedFile) -> (h: CachedFile)
        requires
            old(self).wf(),
            peek_spec(old(self).counts(), path@) >= 1,
            !old(self).residents().contains_key(path@),
        ensures
            final(self).wf(),
            final(self).counts() == old(self).counts(),
            final(self).limit() == old(self).limit(),
            final(self).min_filter() == old(self).min_filter(),
            final(self).max_filter() == old(self).max_filter(),
            final(self).reader_view() == old(self).reader_view(),
            h.path_view() == path@,
            h.contents() == file@,
            cache_read_outcome(
                old(self).residents(),
                old(self).used(),
                old(self).counts(),
                old(self).limit(),
                old(self).min_filter(),
                old(self).max_filter(),
                path@,
                file@,
                final(self).residents(),
                final(self).used(),
            ),
            final(self).residents().contains_key(path@) ==> final(self).residents()[path@]
                == file@,
            !final(self).residents().contains_key(path@) ==> final(self).residents() == old(self).residents() && final(self).used() == old(self).used(),
            file@.len() > old(self).limit() ==> final(self).residents() == old(self).residents(),
    {
        let shared = Arc::new(file);
        let handle = CachedFile::new(clone_bytes(&path), share_file(&shared));
        let size = shared.size();
        let lo_ok = match self.min_size {
            Some(n) => size >= n,
            None => true,
        };
        let hi_ok = match self.max_size {
            Some(n) => size <= n,
            None => true,
        };
        if lo_ok && hi_ok {
            let _ = self.store(path, shared);
        }
        handle
    }

    /// Serves `path` from memory on a hit; on a miss reads it through the
    /// injected reader, serves the bytes unconditionally, and lets the
    /// admission policy decide whether to retain them.  Returns nothing
    /// exactly when the read fails; the request is counted either way.
    pub fn get_or_cache(&mut self, path: Vec<u8>) -> (r: Option<CachedFile>)
        requires
            old(self).wf(),
        ensures
            final(self).wf(),
            final(self).limit() == old(self).limit(),
            final(self).min_filter() == old(self).min_filter(),
            final(self).max_filter() == old(self).max_filter(),
            final(self).counts() == old(self).counts().insert(
                path@,
                bumped(peek_spec(old(self).counts(), path@)),
            ),
            old(self).residents().contains_key(path@) ==> ({
                &&& r matches Some(h) && h.path_view() == path@ && h.contents() == old(self).residents()[path@]
                &&& final(self).residents() == old(self).residents()
                &&& final(self).used() == old(self).used()
                &&& final(self).reader_view() == old(self).reader_view()
            }),
            r is None ==> !old(self).residents().contains_key(path@) && final(self).residents()
                == old(self).residents() && final(self).used() == old(self).used(),
            r matches Some(h) ==> h.path_view() == path@,
            r matches Some(h) ==> (!old(self).residents().contains_key(path@)
                ==> cache_read_outcome(
                old(self).residents(),
                old(self).used(),
                final(self).counts(),
                old(self).limit(),
                old(self).min_filter(),
                old(self).max_filter(),
                path@,
                h.contents(),
                final(self).residents(),
                final(self).used(),
            )),
            r matches Some(h) ==> (final(self).residents().contains_key(path@) ==> final(self).residents()[path@] == h.contents()),
            r matches Some(h) ==> (h.contents().len() > old(self).limit() ==> final(self).residents() == old(self).residents()),
    {
        let hit = self.get(&path);
        match hit {
            Some(h) => Some(h),
            None => {
                match self.reader.read(&path) {
                    Ok(file) => Some(self.cache_read(path, file)),
                    Err(_) => None,
                }
            },
        }
    }

    /// The access count recorded for `path`, zero when it was never
    /// observed; observes nothing itself.
    pub fn access_count(&self, path: &Vec<u8>) -> (c: u64)
        requires
            self.wf(),
        ensures
            c == peek_spec(self.counts(), path@),
    {
        self.counter.peek(path)
    }

    /// The injected reader, for inspection.
    pub fn reader(&self) -> (r: &R)
        ensures
            r == self.reader_view(),
    {
        &self.reader
    }

    /// Whether `path` is resident; unlike `get` this observes nothing.
    pub fn contains(&self, path: &Vec<u8>) -> (r: bool)
        ensures
            r == self.residents().contains_key(path@),
    {
        self.resident.contains(path)
    }

    /// The total content bytes currently resident.  Only content counts:
    /// path storage, counter storage and transient read buffers do not.
    pub fn used_bytes(&self) -> (n: usize)
        ensures
            n == self.used(),
    {
        self.resident.used_bytes()
    }

    /// The number of resident entries.
    pub fn len(&self) -> (n: usize)
        ensures
            n == self.resident_seq().len(),
    {
        self.resident.len()
    }

    /// The number of resident entries, under the name the host uses.
    pub fn size(&self) -> (n: usize)
        ensures
            n == self.resident_seq().len(),
    {
        self.resident.len()
    }

    /// The resident content bytes, under the name the host uses.
    pub fn size_bytes(&self) -> (n: usize)
        ensures
            n == self.used(),
    {
        self.resident.used_bytes()
    }

    /// The entry count is the size of the resident map's domain.
    pub proof fn lemma_len_is_dom(self)
        requires
            self.wf(),
        ensures
            self.residents().dom().finite(),
            self.residents().dom().len() == self.resident_seq().len(),
    {
        self.resident.lemma_len_is_dom_len();
    }

    /// A diagnostic snapshot of the resident entries, in insertion order:
    /// each path with its content size and its current access count.
    pub fn entries(&self) -> (r: Vec<(Vec<u8>, usize, u64)>)
        requires
            self.wf(),
        ensures
            r@.len() == self.resident_seq().len(),
            forall|i: int| 0 <= i < r@.len() ==> (#[trigger] r@[i]).0@ == self.resident_seq()[i].0
                && r@[i].1 == self.resident_seq()[i].1.len() && r@[i].2 == peek_spec(
                self.counts(),
                self.resident_seq()[i].0,
            ),
    {
        let ghost sv = self.resident.seq_view();
        let n = self.resident.len();
        let mut r: Vec<(Vec<u8>, usize, u64)> = Vec::new();
        let mut i: usize = 0;
        while i < n
            invariant
                self.wf(),
                sv == self.resident.seq_view(),
                n == sv.len(),
                0 <= i <= n,
                r@.len() == i,
                forall|j: int| 0 <= j < i ==> (#[trigger] r@[j]).0@ == sv[j].0 && r@[j].1
                    == sv[j].1.len() && r@[j].2 == peek_spec(self.counter@, sv[j].0),
            decreases n - i,
        {
            let path = clone_bytes(self.resident.path_at(i));
            let size = self.resident.size_at(i);
            let count = self.counter.peek(&path);
            let ghost pre = r@;
            r.push((path, size, count));
            proof {
                assert(forall|j: int| 0 <= j < i ==> r@[j] == pre[j]);
            }
            i = i + 1;
        }
        r
    }

    /// The least-demanded resident entry: the smallest access count, and
    /// the lexicographically first path among those tied for it.
    pub fn lowest_access_count_in_file_map(&self) -> (r: Option<(u64, Vec<u8>)>)
        requires
            self.wf(),
        ensures
            match r {
                None => self.resident_seq().len() == 0,
                Some((c, p)) => {
                    &&& self.residents().contains_key(p@)
                    &&& c == peek_spec(self.counts(), p@)
                    &&& forall|q: Seq<u8>| #[trigger] self.residents().contains_key(q) ==> c
                        <= peek_spec(self.counts(), q)
                    &&& forall|q: Seq<u8>| #[trigger] self.residents().contains_key(q)
                        && peek_spec(self.counts(), q) == c && q != p@ ==> lex_lt(p@, q)
                },
            },
    {
        let ghost sv = self.resident.seq_view();
        let ghost m = self.resident@;
        let ghost cm = self.counter@;
        proof {
            self.resident.lemma_view_is_entries();
            lemma_kv_dom(sv);
        }
        let n = self.resident.len();
        if n == 0 {
            return None;
        }
        let mut best_idx: usize = 0;
        let mut best_count = self.counter.peek(self.resident.path_at(0));
        let mut i: usize = 1;
        while i < n
            invariant
                self.wf(),
                sv == self.resident.seq_view(),
                m == self.resident@,
                cm == self.counter@,
                m == kv_map(sv),
                n == sv.len(),
                best_idx < i <= n,
                best_count == peek_spec(cm, sv[best_idx as int].0),
                forall|j: int| 0 <= j < i && j != best_idx ==> best_count < peek_spec(
                    cm,
                    (#[trigger] sv[j]).0,
                ) || (best_count == peek_spec(cm, sv[j].0) && lex_lt(sv[best_idx as int].0,
                sv[j].0)),
            decreases n - i,
        {
            let c = self.counter.peek(self.resident.path_at(i));
            if c < best_count {
                best_idx = i;
                best_count = c;
            } else if c == best_count {
                if bytes_lt(self.resident.path_at(i), self.resident.path_at(best_idx)) {
                    proof {
                        assert forall|j: int| 0 <= j < i + 1 && j != i as int implies best_count
                            < peek_spec(cm, (#[trigger] sv[j]).0) || (best_count == peek_spec(
                            cm,
                            sv[j].0,
                        ) && lex_lt(sv[i as int].0, sv[j].0)) by {
                            if j != best_idx && best_count == peek_spec(cm, sv[j].0) {
                                lemma_lex_transitive(sv[i as int].0, sv[best_idx as int].0,
                                sv[j].0);
                            }
                        }
                    }
                    best_idx = i;
                } else {
                    proof {
                        assert(sv[i as int].0 != sv[best_idx as int].0);
                        lemma_lex_total(sv[i as int].0, sv[best_idx as int].0);
                    }
                }
            }
            i = i + 1;
        }
        let p = clone_bytes(self.resident.path_at(best_idx));
        proof {
            lemma_kv_index(sv, best_idx as int);
            assert forall|q: Seq<u8>| #[trigger] m.contains_key(q) implies best_count <= peek_spec(
                cm,
                q,
            ) && (peek_spec(cm, q) == best_count && q != p@ ==> lex_lt(p@, q)) by {
                assert(kv_has(sv, q));
                let j = choose|j: int| 0 <= j < sv.len() && sv[j].0 == q;
                if j != best_idx {
                    assert(best_count < peek_spec(cm, sv[j].0) || (best_count == peek_spec(
                        cm,
                        sv[j].0,
                    ) && lex_lt(sv[best_idx as int].0, sv[j].0)));
                }
            }
        }
        Some((best_count, p))
    }
}

/// Which constraints a configuration violates.
#[derive(Clone, Copy, Debug, PartialEq, Eq, Structural)]
pub enum ConfigError {
    /// The byte limit is zero.
    LimitZero,
    /// No reader was supplied.
    ReaderMissing,
    /// Both size filters are set and the lower one exceeds the upper one.
    MinGreaterThanMax,
}

/// Validates a configuration before an engine is built: a positive byte
/// limit, a reader, and optional size filters in the right order.
pub struct CacheBuilder<R: FileReader> {
    size_limit_bytes: usize,
    min_file_size: Option<usize>,
    max_file_size: Option<usize>,
    reader: Option<R>,
}

impl<R: FileReader> CacheBuilder<R> {
    /// The configured byte limit; zero until set.
    pub closed spec fn limit_setting(self) -> usize {
        self.size_limit_bytes
    }

    /// The configured reader, if one was supplied.
    pub closed spec fn reader_setting(self) -> Option<R> {
        self.reader
    }

    /// The configured lower size filter.
    pub closed spec fn min_setting(self) -> Option<usize> {
        self.min_file_size
    }

    /// The configured upper size filter.
    pub closed spec fn max_setting(self) -> Option<usize> {
        self.max_file_size
    }

    /// Every violation the current configuration has, in a fixed order.
    pub open spec fn config_errors(self) -> Seq<ConfigError> {
        (if self.limit_setting() == 0 {
            seq![ConfigError::LimitZero]
        } else {
            Seq::empty()
        }) + (if self.reader_setting() is None {
            seq![ConfigError::ReaderMissing]
        } else {
            Seq::empty()
        }) + (if self.min_setting() matches Some(lo) && self.max_setting() matches Some(hi) && lo
            > hi {
            seq![ConfigError::MinGreaterThanMax]
        } else {
            Seq::empty()
        })
    }

    /// A builder with nothing configured yet.
    pub fn new() -> (b: CacheBuilder<R>)
        ensures
            b.limit_setting() == 0,
            b.reader_setting() is None,
            b.min_setting() is None,
            b.max_setting() is None,
    {
        CacheBuilder { size_limit_bytes: 0, min_file_size: None, max_file_size: None, reader: None }
    }

    /// Sets the byte limit.
    pub fn size_limit_bytes(self, n: usize) -> (b: CacheBuilder<R>)
        ensures
            b.limit_setting() == n,
            b.reader_setting() == self.reader_setting(),
            b.min_setting() == self.min_setting(),
            b.max_setting() == self.max_setting(),
    {
        CacheBuilder {
            size_limit_bytes: n,
            min_file_size: self.min_file_size,
            max_file_size: self.max_file_size,
            reader: self.reader,
        }
    }

    /// Supplies the reader.
    pub fn reader(self, r: R) -> (b: CacheBuilder<R>)
        ensures
            b.limit_setting() == self.limit_setting(),
            b.reader_setting() == Some(r),
            b.min_setting() == self.min_setting(),
            b.max_setting() == self.max_setting(),
    {
        CacheBuilder {
            size_limit_bytes: self.size_limit_bytes,
            min_file_size: self.min_file_size,
            max_file_size: self.max_file_size,
            reader: Some(r),
        }
    }

    /// Sets the lower size filter: smaller files bypass admission.
    pub fn min_file_size(self, n: usize) -> (b: CacheBuilder<R>)
        ensures
            b.limit_setting() == self.limit_setting(),
            b.reader_setting() == self.reader_setting(),
            b.min_setting() == Some(n),
            b.max_setting() == self.max_setting(),
    {
        CacheBuilder {
            size_limit_bytes: self.size_limit_bytes,
            min_file_size: Some(n),
            max_file_size: self.max_file_size,
            reader: self.reader,
        }
    }

    /// Sets the upper size filter: larger files bypass admission.
    pub fn max_file_size(self, n: usize) -> (b: CacheBuilder<R>)
        ensures
            b.limit_setting() == self.limit_setting(),
            b.reader_setting() == self.reader_setting(),
            b.min_setting() == self.min_setting(),
            b.max_setting() == Some(n),
    {
        CacheBuilder {
            size_limit_bytes: self.size_limit_bytes,
            min_file_size: self.min_file_size,
            max_file_size: Some(n),
            reader: self.reader,
        }
    }

    /// Validates the configuration: a ready engine, or else every
    /// violation found.
    pub fn build(self) -> (r: Result<Cache<R>, Vec<ConfigError>>)
        ensures
            r is Ok <==> self.config_errors().len() == 0,
            r matches Ok(c) ==> ({
                &&& c.wf()
                &&& c.residents() == Map::<Seq<u8>, Seq<u8>>::empty()
                &&& c.counts() == Map::<Seq<u8>, u64>::empty()
                &&& c.used() == 0
                &&& c.limit() == self.limit_setting()
                &&& c.min_filter() == self.min_setting()
                &&& c.max_filter() == self.max_setting()
                &&& self.reader_setting() matches Some(rd) && c.reader_view() == rd
            }),
            r matches Err(v) ==> v@ == self.config_errors() && v@.len() > 0,
    {
        let mut errors: Vec<ConfigError> = Vec::new();
        if self.size_limit_bytes == 0 {
            errors.push(ConfigError::LimitZero);
        }
        if self.reader.is_none() {
            errors.push(ConfigError::ReaderMissing);
        }
        let min_gt_max = match (self.min_file_size, self.max_file_size) {
            (Some(lo), Some(hi)) => lo > hi,
            _ => false,
        };
        if min_gt_max {
            errors.push(ConfigError::MinGreaterThanMax);
        }
        proof {
            assert(errors@ =~= self.config_errors());
        }
        if errors.len() > 0 {
            return Err(errors);
        }
        match self.reader {
            Some(rd) => Ok(
                Cache {
                    size_limit: self.size_limit_bytes,
                    min_size: self.min_file_size,
                    max_size: self.max_file_size,
                    resident: ResidentSet::new(),
                    counter: AccessCounter::new(),
                    reader: rd,
                },
            ),
            None => {
                proof {
                    assert(false);
                }
                Err(errors)
            },
        }
    }
}

} // verus!
