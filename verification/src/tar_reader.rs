//! Reading a crate archive: the trusted boundary to the `tar` and `flate2`
//! crates, and the plain-value form of an archive entry that the verified
//! build pipeline consumes.
#![allow(unused_imports)]
use vstd::prelude::*;

verus! {

/// Abstract value of a [`TarEntry`].
pub struct TarEntryView {
    pub path: Seq<char>,
    pub is_file: bool,
    pub data: Seq<u8>,
}

/// One entry of a tar archive, reduced to plain values: its path inside the
/// archive, whether it is a regular file, and its content bytes.
#[derive(Debug, Clone)]
pub struct TarEntry {
    /// The path recorded in the entry header.
    pub path: String,
    /// Whether the entry is a regular file.
    pub is_file: bool,
    /// The content bytes of the entry.
    pub data: Vec<u8>,
}

impl View for TarEntry {
    type V = TarEntryView;

    open spec fn view(&self) -> TarEntryView {
        TarEntryView { path: self.path@, is_file: self.is_file, data: self.data@ }
    }
}

impl DeepView for TarEntry {
    type V = TarEntryView;

    open spec fn deep_view(&self) -> TarEntryView {
        self.view()
    }
}

/// The entries of the tar archive held in `data`, in archive order, or
/// `None` when the header table cannot be opened. The result of
/// `tar::Archive::entries` is a function of the bytes alone.
pub uninterp spec fn tar_entries(data: Seq<u8>) -> Option<Seq<TarEntryView>>;

/// Relies on `tar::Archive`: streams the archive's entries in order,
/// yielding each entry's header path, entry type and content bytes; `None`
/// exactly when the header table cannot be opened. An entry whose header or
/// bytes cannot be read, or whose path does not decode as UTF-8, is
/// skipped, as the build treats malformed entries.
#[verifier::external_body]
pub fn read_tar_entries(data: &Vec<u8>) -> (r: Option<Vec<TarEntry>>)
    ensures
        r.deep_view() == tar_entries(data@),
{
    let mut archive = tar::Archive::new(data.as_slice());
    let entries = match archive.entries() { Ok(e) => e, Err(_) => return None };
    let mut out = Vec::new();
    for entry in entries {
        let Ok(mut entry) = entry else { continue };
        let Some(path) = entry.path().ok().and_then(|p| p.to_str().map(String::from)) else { continue };
        let is_file = entry.header().entry_type().is_file();
        let mut bytes = Vec::new();
        if std::io::Read::read_to_end(&mut entry, &mut bytes).is_ok() {
            out.push(TarEntry { path, is_file, data: bytes });
        }
    }
    Some(out)
}

/// The gzip decompression of `data`, or `None` when the stream is not a
/// valid gzip stream; a function of the bytes alone.
pub uninterp spec fn gunzip_of(data: Seq<u8>) -> Option<Seq<u8>>;

/// Relies on `flate2::bufread::GzDecoder`: decompresses a gzip stream to
/// its original bytes; `None` when the stream is malformed.
#[verifier::external_body]
pub fn gunzip(data: &Vec<u8>) -> (r: Option<Vec<u8>>)
    ensures
        r.deep_view() == gunzip_of(data@),
{
    let mut dc = flate2::bufread::GzDecoder::new(data.as_slice());
    let mut out = Vec::new();
    match std::io::Read::read_to_end(&mut dc, &mut out) {
        Ok(_) => Some(out),
        Err(_) => None,
    }
}

} // verus!
