//! The reading capability the cache is parameterised over.
//!
//! The cache itself never touches the filesystem: whole-file reads go
//! through a `FileReader` injected at construction.  A production reader
//! wraps the operating system; the in-memory reader below returns canned
//! contents or canned failures, and counts how often it was invoked, so
//! tests can observe exactly when the cache reads.

use crate::blob::SizedFile;
use crate::kv::{kv_distinct, kv_has, kv_map, lemma_kv_dom, lemma_kv_index, lemma_kv_push,
    lemma_kv_update};
use crate::paths::bytes_eq;
use vstd::prelude::*;
use vstd::std_specs::vec::vec_index_mut;

verus! {

/// Why a read failed.
#[derive(Clone, Copy, Debug, PartialEq, Eq, Structural)]
pub enum ReadError {
    /// The path does not resolve to a regular file.
    NotFound,
    /// The file exists but may not be read.
    PermissionDenied,
    /// Any other failure, carrying the operating system's error code when
    /// one is known.
    Io(i32),
}

/// Reads an entire file at a path, or reports why it cannot.  No partial
/// reads: a success carries the full contents.  Nothing is promised of the
/// outcome: the cache is verified against every result a call may return.
pub trait FileReader {
    /// Reads the whole file at `path` into a fresh buffer.
    fn read(&mut self, path: &Vec<u8>) -> Result<SizedFile, ReadError>;
}

/// A reader over canned contents, for tests and examples.  `read` serves a
/// canned failure first, then canned contents, and otherwise reports
/// `NotFound`; every call increments an observable counter.
pub struct MemoryReader {
    files: Vec<(Vec<u8>, Vec<u8>)>,
    failures: Vec<(Vec<u8>, ReadError)>,
    reads: u64,
}

impl MemoryReader {
    /// The canned contents, path by path.
    pub closed spec fn files_view(self) -> Seq<(Seq<u8>, Seq<u8>)> {
        Seq::new(self.files@.len(), |i: int| (self.files@[i].0@, self.files@[i].1@))
    }

    /// The canned failures, path by path.
    pub closed spec fn failures_view(self) -> Seq<(Seq<u8>, ReadError)> {
        Seq::new(self.failures@.len(), |i: int| (self.failures@[i].0@, self.failures@[i].1))
    }

    /// The map of canned contents.
    pub open spec fn canned_files(self) -> Map<Seq<u8>, Seq<u8>> {
        kv_map(self.files_view())
    }

    /// The map of canned failures.
    pub open spec fn canned_failures(self) -> Map<Seq<u8>, ReadError> {
        kv_map(self.failures_view())
    }

    /// How often `read` has been invoked on this reader.
    pub closed spec fn read_count(self) -> u64 {
        self.reads
    }

    /// Each path is canned at most once per table.
    pub open spec fn wf(self) -> bool {
        &&& kv_distinct(self.files_view())
        &&& kv_distinct(self.failures_view())
    }

    /// A reader with nothing canned and no reads recorded.
    pub fn new() -> (r: MemoryReader)
        ensures
            r.wf(),
            r.canned_files() == Map::<Seq<u8>, Seq<u8>>::empty(),
            r.canned_failures() == Map::<Seq<u8>, ReadError>::empty(),
            r.read_count() == 0,
    {
        let r = MemoryReader { files: Vec::new(), failures: Vec::new(), reads: 0 };
        proof {
            assert(r.files_view() =~= Seq::<(Seq<u8>, Seq<u8>)>::empty());
            assert(r.failures_view() =~= Seq::<(Seq<u8>, ReadError)>::empty());
        }
        r
    }

    /// How often `read` has been invoked.
    pub fn reads(&self) -> (n: u64)
        ensures
            n == self.read_count(),
    {
        self.reads
    }

    fn find_file(&self, path: &Vec<u8>) -> (r: Option<usize>)
        ensures
            match r {
                Some(i) => i < self.files_view().len() && self.files_view()[i as int].0 == path@,
                None => !kv_has(self.files_view(), path@),
            },
    {
        let n = self.files.len();
        let mut i: usize = 0;
        while i < n
            invariant
                0 <= i <= n,
                n == self.files_view().len(),
                forall|j: int| 0 <= j < i ==> (#[trigger] self.files_view()[j]).0 != path@,
            decreases n - i,
        {
            if bytes_eq(&self.files[i].0, path) {
                return Some(i);
            }
            i = i + 1;
        }
        None
    }

    fn find_failure(&self, path: &Vec<u8>) -> (r: Option<usize>)
        ensures
            match r {
                Some(i) => i < self.failures_view().len() && self.failures_view()[i as int].0
                    == path@,
                None => !kv_has(self.failures_view(), path@),
            },
    {
        let n = self.failures.len();
        let mut i: usize = 0;
        while i < n
            invariant
                0 <= i <= n,
                n == self.failures_view().len(),
                forall|j: int| 0 <= j < i ==> (#[trigger] self.failures_view()[j]).0 != path@,
            decreases n - i,
        {
            if bytes_eq(&self.failures[i].0, path) {
                return Some(i);
            }
            i = i + 1;
        }
        None
    }

    /// Cans `bytes` as the contents of `path`, replacing earlier contents.
    pub fn add_file(&mut self, path: Vec<u8>, bytes: Vec<u8>)
        requires
            old(self).wf(),
        ensures
            final(self).wf(),
            final(self).canned_files() == old(self).canned_files().insert(path@, bytes@),
            final(self).canned_failures() == old(self).canned_failures(),
            final(self).read_count() == old(self).read_count(),
    {
        let ghost pre = self.files_view();
        match self.find_file(&path) {
            Some(i) => {
                let e = vec_index_mut(&mut self.files, i);
                e.1 = bytes;
                proof {
                    assert(self.files_view() =~= pre.update(i as int, (pre[i as int].0, bytes@)));
                    lemma_kv_update(pre, i as int, bytes@);
                    assert(self.failures_view() =~= old(self).failures_view());
                }
            },
            None => {
                self.files.push((path, bytes));
                proof {
                    assert(self.files_view() =~= pre.push((path@, bytes@)));
                    lemma_kv_push(pre, (path@, bytes@));
                    assert(forall|j: int| 0 <= j < pre.len() ==> self.files_view()[j] == pre[j]);
                    assert(self.failures_view() =~= old(self).failures_view());
                }
            },
        }
    }

    /// Cans `err` as the outcome of reading `path`, replacing an earlier
    /// canned failure.  A canned failure takes precedence over canned
    /// contents for the same path.
    pub fn fail_with(&mut self, path: Vec<u8>, err: ReadError)
        requires
            old(self).wf(),
        ensures
            final(self).wf(),
            final(self).canned_failures() == old(self).canned_failures().insert(path@, err),
            final(self).canned_files() == old(self).canned_files(),
            final(self).read_count() == old(self).read_count(),
    {
        let ghost pre = self.failures_view();
        match self.find_failure(&path) {
            Some(i) => {
                let e = vec_index_mut(&mut self.failures, i);
                e.1 = err;
                proof {
                    assert(self.failures_view() =~= pre.update(i as int, (pre[i as int].0, err)));
                    lemma_kv_update(pre, i as int, err);
                    assert(self.files_view() =~= old(self).files_view());
                }
            },
            None => {
                self.failures.push((path, err));
                proof {
                    assert(self.failures_view() =~= pre.push((path@, err)));
                    lemma_kv_push(pre, (path@, err));
                    assert(forall|j: int| 0 <= j < pre.len() ==> self.failures_view()[j]
                        == pre[j]);
                    assert(self.files_view() =~= old(self).files_view());
                }
            },
        }
    }
}

impl FileReader for MemoryReader {
    /// Serves the canned failure for `path` if one is set, then the canned
    /// contents, and otherwise `NotFound`; always counts the invocation.
    fn read(&mut self, path: &Vec<u8>) -> Result<SizedFile, ReadError> {
        if self.reads < u64::MAX {
            self.reads = self.reads + 1;
        }
        match self.find_failure(path) {
            Some(i) => Err(self.failures[i].1),
            None => {
                match self.find_file(path) {
                    Some(i) => {
                        let bytes = crate::paths::clone_bytes(&self.files[i].1);
                        Ok(SizedFile::new(bytes))
                    },
                    None => Err(ReadError::NotFound),
                }
            },
        }
    }
}

} // verus!
