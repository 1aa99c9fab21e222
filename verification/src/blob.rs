//! Immutable byte buffers and the handle type returned to callers.
//!
//! A `SizedFile` is a byte buffer with its length cached; it is constructed
//! once and never mutated.  The cache shares one buffer among many readers
//! through `Arc<SizedFile>`, so serving a hit never copies file contents.
//! A `CachedFile` is the value handed to a caller: the requested path plus a
//! shared handle on the bytes.  It does not reference the cache, so eviction
//! never invalidates a handle that a caller still holds.

use std::sync::Arc;
use vstd::prelude::*;

verus! {

/// An immutable byte buffer whose length is cached alongside the bytes.
pub struct SizedFile {
    bytes: Vec<u8>,
    size: usize,
}

impl View for SizedFile {
    type V = Seq<u8>;

    closed spec fn view(&self) -> Seq<u8> {
        self.bytes@
    }
}

impl SizedFile {
    #[verifier::type_invariant]
    spec fn size_matches(self) -> bool {
        self.size == self.bytes@.len()
    }

    /// Wraps a freshly read buffer; the cached length is fixed here once.
    pub fn new(bytes: Vec<u8>) -> (f: SizedFile)
        ensures
            f@ == bytes@,
    {
        let size = bytes.len();
        SizedFile { bytes, size }
    }

    /// The length of the contents, from the cached field.
    pub fn size(&self) -> (n: usize)
        ensures
            n == self@.len(),
    {
        proof {
            use_type_invariant(self);
        }
        self.size
    }

    /// The contents as a read-only buffer.
    pub fn bytes(&self) -> (b: &Vec<u8>)
        ensures
            b@ == self@,
    {
        &self.bytes
    }
}

/// Relies on `Arc::clone` from std: the returned handle shares the same
/// underlying `SizedFile` without copying it.
#[verifier::external_body]
pub fn share_file(file: &Arc<SizedFile>) -> (r: Arc<SizedFile>)
    ensures
        r == *file,
{
    Arc::clone(file)
}

/// The extension of a byte path: the bytes after the last `.`, provided no
/// directory separator `/` follows that dot; none when the path has no dot
/// in its final component.
pub open spec fn extension_of(p: Seq<u8>) -> Option<Seq<u8>>
    decreases p.len(),
{
    if p.len() == 0 {
        None
    } else if p.last() == 46u8 {
        Some(Seq::empty())
    } else if p.last() == 47u8 {
        None
    } else {
        match extension_of(p.drop_last()) {
            Some(e) => Some(e.push(p.last())),
            None => None,
        }
    }
}

/// The fixed table from a lower-case extension to a content type.
pub open spec fn mime_for(ext: Option<Seq<u8>>) -> Option<Seq<char>> {
    match ext {
        None => None,
        Some(e) => {
            if e == seq![104u8, 116u8, 109u8, 108u8] {
                Some("text/html"@)
            } else if e == seq![104u8, 116u8, 109u8] {
                Some("text/html"@)
            } else if e == seq![99u8, 115u8, 115u8] {
                Some("text/css"@)
            } else if e == seq![106u8, 115u8] {
                Some("application/javascript"@)
            } else if e == seq![106u8, 115u8, 111u8, 110u8] {
                Some("application/json"@)
            } else if e == seq![112u8, 110u8, 103u8] {
                Some("image/png"@)
            } else if e == seq![106u8, 112u8, 103u8] {
                Some("image/jpeg"@)
            } else if e == seq![106u8, 112u8, 101u8, 103u8] {
                Some("image/jpeg"@)
            } else if e == seq![103u8, 105u8, 102u8] {
                Some("image/gif"@)
            } else if e == seq![115u8, 118u8, 103u8] {
                Some("image/svg+xml"@)
            } else if e == seq![119u8, 97u8, 115u8, 109u8] {
                Some("application/wasm"@)
            } else if e == seq![116u8, 120u8, 116u8] {
                Some("text/plain"@)
            } else {
                None
            }
        },
    }
}

/// A value returned to a caller: the requested path and a shared handle on
/// the file's bytes.  It holds no lock and no reference to the cache; the
/// bytes stay valid after an eviction for as long as the handle lives.
pub struct CachedFile {
    path: Vec<u8>,
    file: Arc<SizedFile>,
}

impl CachedFile {
    /// The path this handle was produced for.
    pub closed spec fn path_view(self) -> Seq<u8> {
        self.path@
    }

    /// The file contents this handle serves.
    pub closed spec fn contents(self) -> Seq<u8> {
        self.file@
    }

    /// Builds a handle from a path and a shared buffer.
    pub fn new(path: Vec<u8>, file: Arc<SizedFile>) -> (h: CachedFile)
        ensures
            h.path_view() == path@,
            h.contents() == file@,
    {
        CachedFile { path, file }
    }

    /// The bytes to stream, without copying them.
    pub fn bytes(&self) -> (b: &Vec<u8>)
        ensures
            b@ == self.contents(),
    {
        self.file.bytes()
    }

    /// The length of the contents.
    pub fn size(&self) -> (n: usize)
        ensures
            n == self.contents().len(),
    {
        self.file.size()
    }

    /// The path the handle was requested under.
    pub fn path(&self) -> (p: &Vec<u8>)
        ensures
            p@ == self.path_view(),
    {
        &self.path
    }

    /// A content-type derived from the path's extension by a fixed table,
    /// or none when the extension is absent or unknown.
    pub fn content_type_hint(&self) -> (r: Option<&'static str>)
        ensures
            match r {
                Some(s) => mime_for(extension_of(self.path_view())) == Some(s@),
                None => mime_for(extension_of(self.path_view())) is None,
            },
    {
        content_type_for_path(&self.path)
    }
}

/// Whether the suffix of `p` from `start` is exactly the two given bytes.
fn tail2(p: &Vec<u8>, start: usize, a: u8, b: u8) -> (r: bool)
    requires
        start <= p@.len(),
    ensures
        r <==> p@.subrange(start as int, p@.len() as int) == seq![a, b],
{
    let r = p.len() - start == 2 && p[start] == a && p[start + 1] == b;
    proof {
        let sub = p@.subrange(start as int, p@.len() as int);
        assert(sub.len() == p@.len() - start);
        if r {
            assert(sub =~= seq![a, b]);
        } else if sub == seq![a, b] {
            assert(sub.len() == 2);
            assert(p@[start as int] == sub[0] && sub[0] == a);
            assert(p@[start as int + 1] == sub[1] && sub[1] == b);
        }
    }
    r
}

/// Whether the suffix of `p` from `start` is exactly the three given bytes.
fn tail3(p: &Vec<u8>, start: usize, a: u8, b: u8, c: u8) -> (r: bool)
    requires
        start <= p@.len(),
    ensures
        r <==> p@.subrange(start as int, p@.len() as int) == seq![a, b, c],
{
    let r = p.len() - start == 3 && p[start] == a && p[start + 1] == b && p[start + 2] == c;
    proof {
        let sub = p@.subrange(start as int, p@.len() as int);
        assert(sub.len() == p@.len() - start);
        if r {
            assert(sub =~= seq![a, b, c]);
        } else if sub == seq![a, b, c] {
            assert(sub.len() == 3);
            assert(p@[start as int] == sub[0] && sub[0] == a);
            assert(p@[start as int + 1] == sub[1] && sub[1] == b);
            assert(p@[start as int + 2] == sub[2] && sub[2] == c);
        }
    }
    r
}

/// Whether the suffix of `p` from `start` is exactly the four given bytes.
fn tail4(p: &Vec<u8>, start: usize, a: u8, b: u8, c: u8, d: u8) -> (r: bool)
    requires
        start <= p@.len(),
    ensures
        r <==> p@.subrange(start as int, p@.len() as int) == seq![a, b, c, d],
{
    let r = p.len() - start == 4 && p[start] == a && p[start + 1] == b && p[start + 2] == c && p[
        start + 3] == d;
    proof {
        let sub = p@.subrange(start as int, p@.len() as int);
        assert(sub.len() == p@.len() - start);
        if r {
            assert(sub =~= seq![a, b, c, d]);
        } else if sub == seq![a, b, c, d] {
            assert(sub.len() == 4);
            assert(p@[start as int] == sub[0] && sub[0] == a);
            assert(p@[start as int + 1] == sub[1] && sub[1] == b);
            assert(p@[start as int + 2] == sub[2] && sub[2] == c);
            assert(p@[start as int + 3] == sub[3] && sub[3] == d);
        }
    }
    r
}

/// Looks the extension's suffix up in the content-type table.
fn mime_from_start(p: &Vec<u8>, start: usize) -> (r: Option<&'static str>)
    requires
        start <= p@.len(),
    ensures
        ({
            let e = Some(p@.subrange(start as int, p@.len() as int));
            match r {
                Some(s) => mime_for(e) == Some(s@),
                None => mime_for(e) is None,
            }
        }),
{
    if tail4(p, start, 104, 116, 109, 108) {
        Some("text/html")
    } else if tail3(p, start, 104, 116, 109) {
        Some("text/html")
    } else if tail3(p, start, 99, 115, 115) {
        Some("text/css")
    } else if tail2(p, start, 106, 115) {
        Some("application/javascript")
    } else if tail4(p, start, 106, 115, 111, 110) {
        Some("application/json")
    } else if tail3(p, start, 112, 110, 103) {
        Some("image/png")
    } else if tail3(p, start, 106, 112, 103) {
        Some("image/jpeg")
    } else if tail4(p, start, 106, 112, 101, 103) {
        Some("image/jpeg")
    } else if tail3(p, start, 103, 105, 102) {
        Some("image/gif")
    } else if tail3(p, start, 115, 118, 103) {
        Some("image/svg+xml")
    } else if tail4(p, start, 119, 97, 115, 109) {
        Some("application/wasm")
    } else if tail3(p, start, 116, 120, 116) {
        Some("text/plain")
    } else {
        None
    }
}

/// Scans for the path's extension and looks it up in the table.
fn content_type_for_path(path: &Vec<u8>) -> (r: Option<&'static str>)
    ensures
        match r {
            Some(s) => mime_for(extension_of(path@)) == Some(s@),
            None => mime_for(extension_of(path@)) is None,
        },
{
    let mut i: usize = path.len();
    proof {
        assert(path@.take(path@.len() as int) =~= path@);
        assert(extension_of(path@) matches Some(e) ==> e + path@.skip(path@.len() as int) =~= e);
    }
    loop
        invariant
            0 <= i <= path@.len(),
            forall|j: int| i <= j < path@.len() ==> path@[j] != 46u8 && path@[j] != 47u8,
            extension_of(path@) == match extension_of(path@.take(i as int)) {
                Some(e) => Some(e + path@.skip(i as int)),
                None => None::<Seq<u8>>,
            },
        decreases i,
    {
        if i == 0 {
            proof {
                assert(path@.take(0) =~= Seq::<u8>::empty());
            }
            return None;
        }
        let b = path[i - 1];
        if b == 46 {
            proof {
                let t = path@.take(i as int);
                assert(t.last() == 46u8);
                assert(Seq::<u8>::empty() + path@.skip(i as int) =~= path@.subrange(
                    i as int,
                    path@.len() as int,
                ));
            }
            return mime_from_start(path, i);
        }
        if b == 47 {
            proof {
                let t = path@.take(i as int);
                assert(t.last() == 47u8);
            }
            return None;
        }
        proof {
            let t = path@.take(i as int);
            assert(t.last() == path@[i - 1]);
            assert(t.drop_last() =~= path@.take(i - 1));
            assert(extension_of(path@.take(i - 1)) matches Some(e) ==> e.push(path@[i - 1])
                + path@.skip(i as int) =~= e + path@.skip(i - 1));
        }
        i = i - 1;
    }
}

} // verus!
