//! Tests for the building blocks: sized buffers, response handles, the
//! content-type table, and the in-memory reader.

use file_cache::blob::{CachedFile, SizedFile};
use file_cache::cache::Cache;
use file_cache::reader::{FileReader, MemoryReader, ReadError};
use std::sync::Arc;

fn p(s: &str) -> Vec<u8> {
    s.as_bytes().to_vec()
}

#[test]
fn sized_file_caches_its_length() {
    let f = SizedFile::new(vec![1, 2, 3, 4, 5]);
    assert_eq!(f.size(), 5);
    assert_eq!(f.bytes(), &vec![1, 2, 3, 4, 5]);
    let empty = SizedFile::new(Vec::new());
    assert_eq!(empty.size(), 0);
}

#[test]
fn cached_file_exposes_path_and_bytes() {
    let f = Arc::new(SizedFile::new(vec![9, 8, 7]));
    let h = CachedFile::new(p("/dir/data.bin"), f);
    assert_eq!(h.path(), &p("/dir/data.bin"));
    assert_eq!(h.bytes(), &vec![9, 8, 7]);
    assert_eq!(h.size(), 3);
}

#[test]
fn content_type_follows_the_extension_table() {
    let cases: &[(&str, Option<&str>)] = &[
        ("/index.html", Some("text/html")),
        ("/index.htm", Some("text/html")),
        ("/style.css", Some("text/css")),
        ("/app.js", Some("application/javascript")),
        ("/data.json", Some("application/json")),
        ("/img.png", Some("image/png")),
        ("/img.jpg", Some("image/jpeg")),
        ("/img.jpeg", Some("image/jpeg")),
        ("/anim.gif", Some("image/gif")),
        ("/icon.svg", Some("image/svg+xml")),
        ("/mod.wasm", Some("application/wasm")),
        ("/notes.txt", Some("text/plain")),
        ("/archive.zip", None),
        ("/no_extension", None),
        ("/UPPER.HTML", None),
        ("/dotted.dir/file", None),
        ("trailing.", None),
    ];
    for (path, want) in cases {
        let f = Arc::new(SizedFile::new(vec![0]));
        let h = CachedFile::new(p(path), f);
        assert_eq!(h.content_type_hint(), *want, "for {path}");
    }
}

#[test]
fn memory_reader_serves_canned_contents() {
    let mut r = MemoryReader::new();
    r.add_file(p("/a"), vec![1, 2, 3]);
    let f = r.read(&p("/a")).ok().unwrap();
    assert_eq!(f.bytes(), &vec![1, 2, 3]);
    assert_eq!(r.reads(), 1);
}

#[test]
fn memory_reader_reports_not_found() {
    let mut r = MemoryReader::new();
    assert_eq!(r.read(&p("/nope")).err().unwrap(), ReadError::NotFound);
    assert_eq!(r.reads(), 1);
}

#[test]
fn memory_reader_failure_takes_precedence() {
    let mut r = MemoryReader::new();
    r.add_file(p("/a"), vec![1]);
    r.fail_with(p("/a"), ReadError::Io(13));
    assert_eq!(r.read(&p("/a")).err().unwrap(), ReadError::Io(13));
}

#[test]
fn memory_reader_replaces_contents() {
    let mut r = MemoryReader::new();
    r.add_file(p("/a"), vec![1]);
    r.add_file(p("/a"), vec![2, 2]);
    let f = r.read(&p("/a")).ok().unwrap();
    assert_eq!(f.bytes(), &vec![2, 2]);
}

#[test]
fn sharing_serves_the_same_bytes_not_a_stale_copy() {
    // The cache holds one shared buffer; the handle a hit returns must
    // expose exactly the resident bytes.
    let mut r = MemoryReader::new();
    r.add_file(p("/a"), vec![5; 64]);
    let mut c = Cache::new(1000, r);
    let first = c.get_or_cache(p("/a")).unwrap();
    let second = c.get(&p("/a")).unwrap();
    assert_eq!(first.bytes(), second.bytes());
    assert_eq!(second.bytes(), &vec![5; 64]);
}

#[test]
fn paths_are_compared_exactly() {
    let mut r = MemoryReader::new();
    r.add_file(p("/a"), vec![1]);
    let mut c = Cache::new(1000, r);
    c.get_or_cache(p("/a")).unwrap();
    assert!(c.contains(&p("/a")));
    assert!(!c.contains(&p("/a/")));
    assert!(!c.contains(&p("a")));
    assert!(!c.contains(&p("/A")));
}
