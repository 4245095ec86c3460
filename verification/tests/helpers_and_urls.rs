//! The smaller verified pieces: names, addresses, listings, credentials,
//! and the gzip boundary.
use rust_assistant::auth::AuthInfo;
use rust_assistant::download::crate_download_url;
use rust_assistant::github::{build_file_url, build_issue_search_url, directory_from_entries, ListingEntry, Repository};
use rust_assistant::tar_reader::gunzip;
use rust_assistant::{CrateError, CrateVersion, DirectoryMut};

#[test]
fn root_dir_concatenates_name_and_version() {
    let cv = CrateVersion { krate: "tokio".to_string(), version: "1.35.1".to_string() };
    assert_eq!(cv.root_dir(), "tokio-1.35.1");
}

#[test]
fn download_url_has_canonical_shape() {
    let cv = CrateVersion { krate: "tokio".to_string(), version: "1.35.1".to_string() };
    assert_eq!(
        crate_download_url(&cv),
        "https://static.crates.io/crates/tokio/tokio-1.35.1.crate"
    );
}

#[test]
fn repository_urls_have_canonical_shape() {
    let repo = Repository { owner: "acme".to_string(), repo: "widget".to_string() };
    assert_eq!(
        build_file_url(&repo, "src/lib.rs"),
        "https://api.github.com/repos/acme/widget/contents/src/lib.rs"
    );
    assert_eq!(
        build_issue_search_url(&repo, "panic"),
        "https://api.github.com/search/issues?q=panic+repo:acme/widget"
    );
}

#[test]
fn listing_entries_become_a_directory() {
    let entries = vec![
        ListingEntry { kind: "file".to_string(), name: "README.md".to_string() },
        ListingEntry { kind: "dir".to_string(), name: "src".to_string() },
        ListingEntry { kind: "symlink".to_string(), name: "link".to_string() },
        ListingEntry { kind: "file".to_string(), name: "Cargo.toml".to_string() },
    ];
    let d = directory_from_entries(&entries);
    assert_eq!(d.files, vec!["Cargo.toml", "README.md"]);
    assert_eq!(d.directories, vec!["src"]);
}

#[test]
fn credentials_compare_by_exact_equality() {
    let auth = AuthInfo { username: "user".to_string(), password: "pw".to_string() };
    assert!(auth.check("user", "pw"));
    assert!(!auth.check("user", "PW"));
    assert!(!auth.check("", "pw"));
}

#[test]
fn gzip_round_trip() {
    let original = b"some tar bytes, repeated: some tar bytes".to_vec();
    let mut enc = flate2::write::GzEncoder::new(Vec::new(), flate2::Compression::default());
    std::io::Write::write_all(&mut enc, &original).unwrap();
    let compressed = enc.finish().unwrap();
    let decompressed = gunzip(&compressed).expect("valid gzip");
    assert_eq!(decompressed, original);
    assert!(gunzip(&vec![0u8, 1, 2, 3]).is_none());
}

#[test]
fn directory_builder_sorts_and_deduplicates() {
    let mut d = DirectoryMut::new();
    assert!(d.is_empty());
    d.insert_file("b.txt".to_string());
    d.insert_file("a.txt".to_string());
    d.insert_file("b.txt".to_string());
    d.insert_dir("z".to_string());
    d.insert_dir("y".to_string());
    let frozen = d.freeze();
    assert_eq!(frozen.files, vec!["a.txt", "b.txt"]);
    assert_eq!(frozen.directories, vec!["y", "z"]);
}

#[test]
fn error_messages_name_the_failure() {
    assert!(CrateError::TarUnreadable.message().contains("tar"));
    assert!(CrateError::BinaryFile.message().contains("line-range"));
    assert!(CrateError::BadPattern.message().contains("regular expression"));
    assert!(CrateError::NotUtf8.message().contains("UTF-8"));
}
