//! The bounded cache and the queries straight on a tarball.
use rust_assistant::cache::{Crate, CrateCache, CrateTar};
use rust_assistant::CrateVersion;

fn make_tar(root: &str, files: &[(&str, &[u8])]) -> Vec<u8> {
    let mut b = tar::Builder::new(Vec::new());
    for (p, data) in files {
        let mut h = tar::Header::new_gnu();
        h.set_size(data.len() as u64);
        h.set_mode(0o644);
        h.set_cksum();
        let path = format!("{}/{}", root, p);
        b.append_data(&mut h, path, *data).unwrap();
    }
    b.into_inner().unwrap()
}

fn small_crate(name: &str, body: &str) -> (CrateVersion, Crate) {
    let cv = CrateVersion { krate: name.to_string(), version: "0.1.0".to_string() };
    let root = format!("{}-0.1.0", name);
    let tar = make_tar(&root, &[("src/lib.rs", body.as_bytes())]);
    let k = Crate::from_tar(&CrateTar { crate_version: cv.clone(), tar_data: tar }).expect("build");
    (cv, k)
}

#[test]
fn cache_round_trip_returns_equal_package() {
    let (cv, k) = small_crate("alpha", "pub fn one() {}\n");
    let file_count = k.files_index.len();
    let buffer_len = k.data.len();
    let mut cache = CrateCache::new(8);
    assert!(cache.set_crate(cv.clone(), k).is_none());
    let first = cache.get_crate(&cv).expect("first lookup");
    let second = cache.get_crate(&cv).expect("second lookup");
    for got in [&first, &second] {
        assert_eq!(got.files_index.len(), file_count);
        assert_eq!(got.data.len(), buffer_len);
    }
    assert_eq!(first.data, second.data);
}

#[test]
fn cache_replaces_and_returns_previous() {
    let (cv, k1) = small_crate("alpha", "pub fn one() {}\n");
    let (_, k2) = small_crate("alpha", "pub fn one() {}\npub fn two() {}\n");
    let mut cache = CrateCache::new(8);
    assert!(cache.set_crate(cv.clone(), k1).is_none());
    let old = cache.set_crate(cv.clone(), k2).expect("previous entry");
    assert_eq!(old.files_index.len(), 1);
    let now = cache.get_crate(&cv).expect("current entry");
    assert!(now.data.len() > old.data.len());
}

#[test]
fn lru_bound_evicts_oldest() {
    let (cv1, k1) = small_crate("one", "fn a() {}\n");
    let (cv2, k2) = small_crate("two", "fn b() {}\n");
    let (cv3, k3) = small_crate("three", "fn c() {}\n");
    let mut cache = CrateCache::new(2);
    cache.set_crate(cv1.clone(), k1);
    cache.set_crate(cv2.clone(), k2);
    cache.set_crate(cv3.clone(), k3);
    // capacity 2, three distinct misses: the least recently used key is gone
    assert!(cache.get_crate(&cv1).is_none());
    assert!(cache.get_crate(&cv2).is_some());
    assert!(cache.get_crate(&cv3).is_some());
}

#[test]
fn lookups_touch_recency() {
    let (cv1, k1) = small_crate("one", "fn a() {}\n");
    let (cv2, k2) = small_crate("two", "fn b() {}\n");
    let (cv3, k3) = small_crate("three", "fn c() {}\n");
    let mut cache = CrateCache::new(2);
    cache.set_crate(cv1.clone(), k1);
    cache.set_crate(cv2.clone(), k2);
    // touching the older key makes the other one least recently used
    assert!(cache.get_crate(&cv1).is_some());
    cache.set_crate(cv3.clone(), k3);
    assert!(cache.get_crate(&cv2).is_none());
    assert!(cache.get_crate(&cv1).is_some());
}

#[test]
fn tar_get_file_finds_content() {
    let cv = CrateVersion { krate: "demo".to_string(), version: "1.0.0".to_string() };
    let tar = make_tar(
        "demo-1.0.0",
        &[("Cargo.toml", b"[package]\n".as_slice()), ("src/lib.rs", b"l1\nl2\nl3\n".as_slice())],
    );
    let ct = CrateTar { crate_version: cv, tar_data: tar };
    let content = ct.get_file("src/lib.rs").expect("ok").expect("found");
    assert_eq!(content, "l1\nl2\nl3\n");
    assert!(ct.get_file("src/none.rs").expect("ok").is_none());
}

#[test]
fn tar_get_file_by_range_slices_lines() {
    let cv = CrateVersion { krate: "demo".to_string(), version: "1.0.0".to_string() };
    let tar = make_tar("demo-1.0.0", &[("src/lib.rs", b"l1\nl2\nl3\n".as_slice())]);
    let ct = CrateTar { crate_version: cv, tar_data: tar };
    let mid = ct.get_file_by_range("src/lib.rs", Some(2), Some(3)).expect("ok").expect("found");
    assert_eq!(mid, "l2\nl3");
    let all = ct.get_file_by_range("src/lib.rs", None, None).expect("ok").expect("found");
    assert_eq!(all, "l1\nl2\nl3");
}

#[test]
fn tar_file_list_is_sorted_and_relative() {
    let cv = CrateVersion { krate: "demo".to_string(), version: "1.0.0".to_string() };
    let tar = make_tar(
        "demo-1.0.0",
        &[
            ("src/lib.rs", b"x".as_slice()),
            ("Cargo.toml", b"y".as_slice()),
            ("data/a.bin", b"z".as_slice()),
        ],
    );
    let ct = CrateTar { crate_version: cv, tar_data: tar };
    let list = ct.get_all_file_list(0, 100).expect("ok");
    assert_eq!(list, vec!["Cargo.toml", "data/a.bin", "src/lib.rs"]);
    let first_only = ct.get_all_file_list(0, 1).expect("ok");
    assert_eq!(first_only, vec!["src/lib.rs"]);
}

#[test]
fn tar_read_directory_splits_children() {
    let cv = CrateVersion { krate: "demo".to_string(), version: "1.0.0".to_string() };
    let tar = make_tar(
        "demo-1.0.0",
        &[
            ("Cargo.toml", b"y".as_slice()),
            ("src/lib.rs", b"x".as_slice()),
            ("src/deep/more.rs", b"x".as_slice()),
        ],
    );
    let ct = CrateTar { crate_version: cv, tar_data: tar };
    let root = ct.read_directory("").expect("ok");
    assert_eq!(root.files, vec!["Cargo.toml"]);
    assert_eq!(root.directories, vec!["src"]);
    let src = ct.read_directory("src").expect("ok");
    assert_eq!(src.files, vec!["lib.rs"]);
    assert_eq!(src.directories, vec!["deep"]);
}

#[test]
fn malformed_archive_yields_nothing() {
    let cv = CrateVersion { krate: "demo".to_string(), version: "1.0.0".to_string() };
    // garbage bytes: every entry is malformed and skipped
    let ct = CrateTar { crate_version: cv.clone(), tar_data: vec![1u8; 100] };
    assert!(ct.get_file("src/lib.rs").expect("skipped entries").is_none());
    let k = Crate::from_tar(&CrateTar { crate_version: cv, tar_data: vec![1u8; 100] })
        .expect("skipped entries");
    assert!(k.read_directory("").is_none());
}
