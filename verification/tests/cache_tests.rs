//! Scenarios over the cache's pure core. The filesystem is played by a
//! small in-test map from paths to file contents, the way the
//! surrounding application drives the library against the real disk.

use image_cache::cache::CacheRoot;
use image_cache::codec::{decode, encode};
use image_cache::errors::CacheError;
use std::collections::HashMap;

fn root() -> CacheRoot {
    CacheRoot::new("/data/app/image_cache".to_string())
}

#[test]
fn root_keeps_its_path() {
    assert_eq!(root().path(), "/data/app/image_cache");
}

#[test]
fn entry_path_joins_filename_verbatim() {
    assert_eq!(root().entry_path("a.png"), "/data/app/image_cache/a.png");
}

#[test]
fn entry_path_does_not_sanitize_the_filename() {
    // The filename is taken verbatim, parent-directory segments and
    // all: the cache deliberately performs no sanitizing.
    assert_eq!(root().entry_path("../up.png"), "/data/app/image_cache/../up.png");
}

#[test]
fn store_decodes_payload_and_resolves_path() {
    let plan = root().prepare_store("a.png", "aGVsbG8=").unwrap();
    assert_eq!(plan.path, "/data/app/image_cache/a.png");
    assert_eq!(plan.bytes, b"hello".to_vec());
}

#[test]
fn store_rejects_malformed_payload_before_any_write() {
    match root().prepare_store("a.png", "not base64!") {
        Err(CacheError::Decode(_)) => {}
        other => panic!("expected a decode failure, got {:?}", other.is_ok()),
    }
}

#[test]
fn two_stores_with_different_filenames_both_succeed() {
    let root = root();
    let mut disk: HashMap<String, Vec<u8>> = HashMap::new();
    let mut dir_creations: u32 = 0;
    for name in ["a.png", "b.png"] {
        let plan = root.prepare_store(name, "Zg==").unwrap();
        if dir_creations == 0 {
            dir_creations += 1; // creating an existing directory is not an error
        }
        disk.insert(plan.path, plan.bytes);
    }
    assert_eq!(dir_creations, 1);
    assert_eq!(disk.len(), 2);
}

#[test]
fn storing_twice_under_one_filename_leaves_the_second_payload() {
    let root = root();
    let mut disk: HashMap<String, Vec<u8>> = HashMap::new();
    let payload1 = encode(&vec![1, 1, 1]);
    let payload2 = encode(&vec![2, 2]);
    let plan1 = root.prepare_store("a.png", &payload1).unwrap();
    disk.insert(plan1.path, plan1.bytes);
    let plan2 = root.prepare_store("a.png", &payload2).unwrap();
    disk.insert(plan2.path, plan2.bytes);
    assert_eq!(disk.len(), 1);
    assert_eq!(disk["/data/app/image_cache/a.png"], vec![2, 2]);
}

#[test]
fn locate_returns_the_path_of_a_present_entry() {
    let root = root();
    let mut disk: HashMap<String, Vec<u8>> = HashMap::new();
    let bytes = vec![9, 8, 7, 6, 5];
    let plan = root.prepare_store("x.png", &encode(&bytes)).unwrap();
    disk.insert(plan.path, plan.bytes);

    let candidate = root.entry_path("x.png");
    let path = root.locate("x.png", disk.contains_key(&candidate)).unwrap();
    assert_eq!(path, "/data/app/image_cache/x.png");
    assert_eq!(disk[&path], bytes);
}

#[test]
fn locate_fails_with_not_found_for_an_absent_entry() {
    let disk: HashMap<String, Vec<u8>> = HashMap::new();
    let candidate = root().entry_path("missing.png");
    match root().locate("missing.png", disk.contains_key(&candidate)) {
        Err(CacheError::NotFound(m)) => {
            assert_eq!(m, "Image not found in cache: missing.png");
        }
        _ => panic!("an absent entry was located"),
    }
}

#[test]
fn read_as_text_of_any_readable_file_decodes_to_its_bytes() {
    // The application reads the file; the library turns its bytes into
    // text, and that text decodes back to the bytes exactly.
    let file_bytes = b"not an image, still cacheable \x00\xff".to_vec();
    let text = encode(&file_bytes);
    assert_eq!(decode(&text).unwrap(), file_bytes);
}

#[test]
fn read_failure_is_reported_as_an_io_error() {
    let e = CacheError::Io("Failed to read file: no such path".to_string());
    assert_eq!(e.message(), "Failed to read file: no such path");
}

#[test]
fn stored_photo_is_located_and_reads_back() {
    let root = root();
    let mut disk: HashMap<String, Vec<u8>> = HashMap::new();

    let payload = encode(&vec![0xff, 0xd8, 0xff, 0xe0]);
    let plan = root.prepare_store("photo1.jpg", &payload).unwrap();
    let echoed = "photo1.jpg"; // the application echoes the filename on success
    disk.insert(plan.path, plan.bytes);
    assert_eq!(echoed, "photo1.jpg");

    let candidate = root.entry_path(echoed);
    let path = root.locate(echoed, disk.contains_key(&candidate)).unwrap();
    assert_eq!(path, "/data/app/image_cache/photo1.jpg");

    let read_back = encode(&disk[&path]);
    assert_eq!(decode(&read_back).unwrap(), vec![0xff, 0xd8, 0xff, 0xe0]);
}
