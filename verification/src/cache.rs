//! The indexed package: a frozen byte buffer with a file index, a directory
//! index and a declaration index, the build pipeline that creates it from a
//! tar archive, and the queries that read it.
#![allow(unused_imports)]
use vstd::prelude::*;

use crate::lines::{extract_line_range, extract_lines};
use crate::search::{SearchIndex, SearchIndexBuilder, SearchIndexMut};
use crate::tar_reader::{read_tar_entries, tar_entries, TarEntry, TarEntryView};
use crate::text::{
    extension_str, is_prefix, is_valid_utf8, leaf_of, leaf_str, parent_of, parent_str,
    path_starts_with, str_ascii_ieq, str_eq, str_starts_with,
};
use crate::{
    CrateError, CrateVersion, Directory, DirectoryMut, FileLineRange, Item, ItemQuery, Line,
    LineQuery, SearchMode,
};

verus! {

/// A tarball of a crate: its version key and the raw tar bytes.
#[derive(Debug, Clone)]
pub struct CrateTar {
    /// The name and version the tarball holds.
    pub crate_version: CrateVersion,
    /// The uncompressed tar bytes.
    pub tar_data: Vec<u8>,
}

/// The encoding of a file in the package buffer.
#[derive(Debug, Default, Copy, Clone, PartialEq, Eq, Hash, Structural)]
pub enum CrateFileDataType {
    /// The bytes form valid UTF-8.
    Utf8,
    /// The bytes do not form valid UTF-8.
    #[default]
    NonUtf8,
}

/// A half-open byte range into the package buffer.
#[derive(Debug, Default, Copy, Clone, PartialEq, Eq, Hash, Structural)]
pub struct ByteRange {
    /// First byte of the range.
    pub lo: usize,
    /// One past the last byte of the range.
    pub hi: usize,
}

/// Where a file's bytes stand in the package buffer, and their encoding.
#[derive(Debug, Default, Copy, Clone, PartialEq, Eq, Hash, Structural)]
pub struct CrateFileDataDesc {
    /// The encoding of the file.
    pub data_type: CrateFileDataType,
    /// The byte range of the file in the buffer.
    pub range: ByteRange,
}

/// The bytes handed out for a file query, with their encoding.
#[derive(Debug, Clone)]
pub struct CrateFileContent {
    /// The encoding of the bytes.
    pub data_type: CrateFileDataType,
    /// The bytes themselves.
    pub data: Vec<u8>,
}

/// One file of the package: its relative path and its descriptor.
#[derive(Debug, Clone)]
pub struct FileEntry {
    /// The path of the file, relative to the archive root.
    pub path: String,
    /// Encoding and byte range of the file.
    pub desc: CrateFileDataDesc,
}

/// One directory of the package, frozen.
#[derive(Debug, Clone)]
pub struct DirEntry {
    /// The path of the directory; empty for the root.
    pub path: String,
    /// Its listing.
    pub dir: Directory,
}

/// One directory of the package while the index is being built.
#[derive(Debug)]
pub struct DirMutEntry {
    /// The path of the directory; empty for the root.
    pub path: String,
    /// Its listing under construction.
    pub dir: DirectoryMut,
}

// ---------------------------------------------------------------------------
// Spec-level lookup in the two association vectors
// ---------------------------------------------------------------------------
/// Some file entry has path `p`.
pub open spec fn has_file(files: Seq<FileEntry>, p: Seq<char>) -> bool {
    exists|i: int| 0 <= i < files.len() && files[i].path@ == p
}

/// The file entry with path `p` (unique when keys are unique).
pub open spec fn file_at(files: Seq<FileEntry>, p: Seq<char>) -> FileEntry {
    files[choose|i: int| 0 <= i < files.len() && files[i].path@ == p]
}

/// File paths are unique.
pub open spec fn files_unique(files: Seq<FileEntry>) -> bool {
    forall|i: int, j: int| 0 <= i < j < files.len() ==> files[i].path@ != files[j].path@
}

/// Some frozen directory entry has path `p`.
pub open spec fn has_dir(dirs: Seq<DirEntry>, p: Seq<char>) -> bool {
    exists|i: int| 0 <= i < dirs.len() && dirs[i].path@ == p
}

/// The frozen directory entry with path `p`.
pub open spec fn dir_at(dirs: Seq<DirEntry>, p: Seq<char>) -> DirEntry {
    dirs[choose|i: int| 0 <= i < dirs.len() && dirs[i].path@ == p]
}

/// Directory paths are unique.
pub open spec fn dirs_unique(dirs: Seq<DirEntry>) -> bool {
    forall|i: int, j: int| 0 <= i < j < dirs.len() ==> dirs[i].path@ != dirs[j].path@
}

/// Some directory under construction has path `p`.
pub open spec fn has_dirm(dirs: Seq<DirMutEntry>, p: Seq<char>) -> bool {
    exists|i: int| 0 <= i < dirs.len() && dirs[i].path@ == p
}

/// The directory under construction with path `p`.
pub open spec fn dirm_at(dirs: Seq<DirMutEntry>, p: Seq<char>) -> DirMutEntry {
    dirs[choose|i: int| 0 <= i < dirs.len() && dirs[i].path@ == p]
}

/// Paths of the directories under construction are unique.
pub open spec fn dirsm_unique(dirs: Seq<DirMutEntry>) -> bool {
    forall|i: int, j: int| 0 <= i < j < dirs.len() ==> dirs[i].path@ != dirs[j].path@
}

/// The directory index under construction is closed under parents: keys are
/// unique, every listing is sorted, every non-root directory's parent is
/// present and lists it as a subdirectory, and the root is present as soon
/// as any directory is.
pub open spec fn dirsm_wf(dirs: Seq<DirMutEntry>) -> bool {
    &&& dirsm_unique(dirs)
    &&& forall|i: int| 0 <= i < dirs.len() ==> (#[trigger] dirs[i]).dir.wf()
    &&& forall|i: int|
        0 <= i < dirs.len() && (#[trigger] dirs[i]).path@.len() > 0 ==> has_dirm(
            dirs,
            parent_of(dirs[i].path@),
        ) && dirm_at(dirs, parent_of(dirs[i].path@)).dir.directories.deep_view().contains(
            leaf_of(dirs[i].path@),
        )
    &&& dirs.len() > 0 ==> has_dirm(dirs, Seq::<char>::empty())
    &&& forall|i: int, n: Seq<char>|
        0 <= i < dirs.len() && (#[trigger] dirs[i].dir.directories.deep_view().contains(n))
            ==> has_dirm(dirs, crate::text::join_path(dirs[i].path@, n))
}

/// The frozen directory index is closed under parents, as [`dirsm_wf`]
/// states it for the index under construction.
pub open spec fn dirs_wf(dirs: Seq<DirEntry>) -> bool {
    &&& dirs_unique(dirs)
    &&& forall|i: int| 0 <= i < dirs.len() ==> (#[trigger] dirs[i]).dir.wf()
    &&& forall|i: int|
        0 <= i < dirs.len() && (#[trigger] dirs[i]).path@.len() > 0 ==> has_dir(
            dirs,
            parent_of(dirs[i].path@),
        ) && dir_at(dirs, parent_of(dirs[i].path@)).dir.directories.deep_view().contains(
            leaf_of(dirs[i].path@),
        )
    &&& dirs.len() > 0 ==> has_dir(dirs, Seq::<char>::empty())
    &&& forall|i: int, n: Seq<char>|
        0 <= i < dirs.len() && (#[trigger] dirs[i].dir.directories.deep_view().contains(n))
            ==> has_dir(dirs, crate::text::join_path(dirs[i].path@, n))
}

// ---------------------------------------------------------------------------
// The package
// ---------------------------------------------------------------------------
/// A fully indexed, frozen package: one byte buffer, the file index, the
/// directory index, and the declaration index.
#[derive(Debug, Clone)]
pub struct Crate {
    /// All file bytes, concatenated.
    pub data: Vec<u8>,
    /// Relative path of each file, with encoding and byte range.
    pub files_index: Vec<FileEntry>,
    /// Every directory of the package, closed under parents.
    pub directories_index: Vec<DirEntry>,
    /// The declaration index.
    pub item_search_index: SearchIndex,
}

impl Crate {
    /// The package invariant: unique, non-empty file keys whose byte
    /// ranges partition the buffer in order; a parent-closed directory
    /// index whose root exists whenever a file does, whose listed names all
    /// correspond to existing files and directories, and every file listed
    /// in its parent directory; and a well-formed declaration index. The
    /// invariant does not itself exclude a directory with no file anywhere
    /// beneath it; the build creates directories only on the parent chains
    /// of indexed files.
    pub open spec fn wf(&self) -> bool {
        &&& files_unique(self.files_index@)
        &&& forall|i: int|
            0 <= i < self.files_index@.len() ==> (#[trigger] self.files_index@[i]).desc.range.lo
                <= self.files_index@[i].desc.range.hi <= self.data@.len()
        &&& forall|i: int, j: int|
            0 <= i < j < self.files_index@.len() ==> ((#[trigger] self.files_index@[i]).desc.range.hi
                <= (#[trigger] self.files_index@[j]).desc.range.lo
                || self.files_index@[j].desc.range.hi <= self.files_index@[i].desc.range.lo)
        &&& self.files_index@.len() == 0 ==> self.data@.len() == 0
        &&& self.files_index@.len() > 0 ==> self.files_index@[0].desc.range.lo == 0
            && self.files_index@[self.files_index@.len() - 1].desc.range.hi == self.data@.len()
        &&& forall|i: int|
            0 <= i < self.files_index@.len() - 1 ==> (#[trigger] self.files_index@[i
                + 1]).desc.range.lo == self.files_index@[i].desc.range.hi
        &&& dirs_wf(self.directories_index@)
        &&& forall|i: int|
            0 <= i < self.files_index@.len() ==> has_dir(
                self.directories_index@,
                parent_of((#[trigger] self.files_index@[i]).path@),
            ) && dir_at(
                self.directories_index@,
                parent_of(self.files_index@[i].path@),
            ).dir.files.deep_view().contains(leaf_of(self.files_index@[i].path@))
        &&& self.files_index@.len() > 0 ==> has_dir(self.directories_index@, Seq::<char>::empty())
        &&& forall|i: int|
            0 <= i < self.files_index@.len() ==> (#[trigger] self.files_index@[i]).path@.len() > 0
        &&& forall|i: int, n: Seq<char>|
            0 <= i < self.directories_index@.len() && (#[trigger] self.directories_index@[
                i].dir.files.deep_view().contains(n)) ==> has_file(
                self.files_index@,
                crate::text::join_path(self.directories_index@[i].path@, n),
            )
        &&& self.item_search_index.wf()
    }

    /// The bytes of the file with path `p`.
    pub open spec fn file_slice(&self, p: Seq<char>) -> Seq<u8> {
        let e = file_at(self.files_index@, p);
        self.data@.subrange(e.desc.range.lo as int, e.desc.range.hi as int)
    }

    /// Look up a directory listing; `None` when the path is no directory of
    /// this package.
    pub fn read_directory(&self, path: &str) -> (r: Option<&Directory>)
        requires
            self.wf(),
        ensures
            r is Some <==> has_dir(self.directories_index@, path@),
            r matches Some(d) ==> *d == dir_at(self.directories_index@, path@).dir,
    {
        let dirs = &self.directories_index;
        let mut i: usize = 0;
        while i < dirs.len()
            invariant
                self.wf(),
                dirs == self.directories_index,
                0 <= i <= dirs@.len(),
                forall|j: int| 0 <= j < i ==> dirs@[j].path@ != path@,
            decreases dirs@.len() - i,
        {
            if str_eq(dirs[i].path.as_str(), path) {
                proof {
                    let w = choose|w: int| 0 <= w < dirs@.len() && dirs@[w].path@ == path@;
                    assert(dirs@[w].path@ == dirs@[i as int].path@);
                    assert(w == i as int);
                }
                return Some(&dirs[i].dir);
            }
            i += 1;
        }
        None
    }

    /// Search the declaration index.
    pub fn search_item(&self, query: &ItemQuery) -> (r: Vec<Item>)
        ensures
            r@ == self.item_search_index.search_spec(
                query.type_,
                crate::text::lower_of(query.query@),
                query.path.deep_view(),
            ),
    {
        self.item_search_index.search(query)
    }

    /// Retrieve a file, restricted to the 1-based inclusive line range
    /// `start..=end`; an absent `start` means the first line, an absent
    /// `end` the last. With both bounds absent the raw bytes come back
    /// whatever the encoding; a bounded range is refused on a non-UTF-8
    /// file. A missing file yields `Ok(None)`.
    pub fn get_file_by_line_range(&self, file: &str, start: Option<usize>, end: Option<usize>) -> (r:
        Result<Option<CrateFileContent>, CrateError>)
        requires
            self.wf(),
            start matches Some(s) ==> s >= 1,
            end matches Some(e) ==> e >= 1,
        ensures
            !has_file(self.files_index@, file@) ==> (r matches Ok(o) && o is None),
            has_file(self.files_index@, file@) && start is None && end is None ==> (r matches Ok(o)
                && o matches Some(c) && c.data@ == self.file_slice(file@) && c.data_type == file_at(
                self.files_index@,
                file@,
            ).desc.data_type),
            has_file(self.files_index@, file@) && (start is Some || end is Some) && file_at(
                self.files_index@,
                file@,
            ).desc.data_type == CrateFileDataType::NonUtf8 ==> (r matches Err(e) && e
                == CrateError::BinaryFile),
            has_file(self.files_index@, file@) && (start is Some || end is Some) && file_at(
                self.files_index@,
                file@,
            ).desc.data_type == CrateFileDataType::Utf8 ==> (r matches Ok(o) && o matches Some(c)
                && c.data_type == CrateFileDataType::Utf8 && c.data@ == extract_lines(
                self.file_slice(file@),
                opt_or(start, 1) as nat,
                opt_or(end, usize::MAX) as nat,
            )),
    {
        let idx = match find_file_idx(&self.files_index, file) {
            Option::None => {
                return Ok(None);
            },
            Option::Some(i) => i,
        };
        let entry = &self.files_index[idx];
        proof {
            let w = choose|w: int|
                0 <= w < self.files_index@.len() && self.files_index@[w].path@ == file@;
            assert(self.files_index@[w].path@ == self.files_index@[idx as int].path@);
            assert(w == idx as int);
        }
        let slice = copy_range(&self.data, entry.desc.range.lo, entry.desc.range.hi);
        match (start, end) {
            (Option::None, Option::None) => Ok(
                Some(CrateFileContent { data_type: entry.desc.data_type, data: slice }),
            ),
            (s, e) => {
                if matches!(entry.desc.data_type, CrateFileDataType::NonUtf8) {
                    return Err(CrateError::BinaryFile);
                }
                let lo = match s {
                    Option::Some(v) => v,
                    Option::None => 1,
                };
                let hi = match e {
                    Option::Some(v) => v,
                    Option::None => usize::MAX,
                };
                let out = extract_line_range(slice.as_slice(), lo, hi);
                Ok(Some(CrateFileContent { data_type: CrateFileDataType::Utf8, data: out }))
            },
        }
    }

    /// Retrieve a file by a [`FileLineRange`] request.
    pub fn get_file_by_file_line_range(&self, file: &str, range: FileLineRange) -> (r: Result<
        Option<CrateFileContent>,
        CrateError,
    >)
        requires
            self.wf(),
            range.start matches Some(s) ==> s >= 1,
            range.end matches Some(e) ==> e >= 1,
        ensures
            !has_file(self.files_index@, file@) ==> (r matches Ok(o) && o is None),
            has_file(self.files_index@, file@) && range.start is None && range.end is None ==> (r
                matches Ok(o) && o matches Some(c) && c.data@ == self.file_slice(file@)
                && c.data_type == file_at(self.files_index@, file@).desc.data_type),
            has_file(self.files_index@, file@) && (range.start is Some || range.end is Some)
                && file_at(self.files_index@, file@).desc.data_type == CrateFileDataType::NonUtf8
                ==> (r matches Err(e) && e == CrateError::BinaryFile),
            has_file(self.files_index@, file@) && (range.start is Some || range.end is Some)
                && file_at(self.files_index@, file@).desc.data_type == CrateFileDataType::Utf8 ==> (r
                matches Ok(o) && o matches Some(c) && c.data_type == CrateFileDataType::Utf8
                && c.data@ == extract_lines(
                self.file_slice(file@),
                opt_or(range.start, 1) as nat,
                opt_or(range.end, usize::MAX) as nat,
            )),
    {
        self.get_file_by_line_range(file, range.start, range.end)
    }
}

// ---------------------------------------------------------------------------
// Line search
// ---------------------------------------------------------------------------
/// The bytes of the file at index `fi` of the file index.
pub open spec fn slice_of(c: &Crate, fi: int) -> Seq<u8> {
    c.data@.subrange(
        c.files_index@[fi].desc.range.lo as int,
        c.files_index@[fi].desc.range.hi as int,
    )
}

/// The file passes the path and extension filters of a line query.
pub open spec fn file_passes(f: FileEntry, path: Option<Seq<char>>, exts: Seq<Seq<char>>) -> bool {
    &&& (path matches Some(p) ==> path_starts_with(f.path@, p))
    &&& crate::pattern::ext_passes(crate::text::extension_of(f.path@), exts)
}

/// What holds of every reported line: it names a file of the package that
/// passes the filters; its line number is a line of that file; its text is
/// the UTF-8 decoding of that line's bytes; and its column range is the
/// 1-based byte span of the pattern's leftmost match in the line.
pub open spec fn hit_sound(
    c: &Crate,
    pat: Seq<char>,
    ci: bool,
    path: Option<Seq<char>>,
    exts: Seq<Seq<char>>,
    l: Line,
) -> bool {
    &&& has_file(c.files_index@, l.file@)
    &&& file_passes(file_at(c.files_index@, l.file@), path, exts)
    &&& 1 <= l.line_number
    &&& l.line_number as nat <= crate::lines::line_count(c.file_slice(l.file@))
    &&& vstd::utf8::valid_utf8(crate::lines::line_content(c.file_slice(l.file@), l.line_number as nat))
    &&& l.line@ == vstd::utf8::decode_utf8(
        crate::lines::line_content(c.file_slice(l.file@), l.line_number as nat),
    )
    &&& (crate::pattern::regex_find_spec(
        pat,
        ci,
        crate::lines::line_content(c.file_slice(l.file@), l.line_number as nat),
    ) matches Some(m) && m.0 + 1 == l.column_range.start && m.1 + 1 == l.column_range.end)
}

/// Some reported line names this file and line number.
pub open spec fn hit_included(rs: Seq<Line>, fpath: Seq<char>, ln: nat) -> bool {
    exists|j: int| 0 <= j < rs.len() && rs[j].file@ == fpath && rs[j].line_number as nat == ln
}

/// A line of file `fi` matches the pattern and its match end leaves room
/// for the 1-based column (a machine limit).
pub open spec fn line_matches(c: &Crate, pat: Seq<char>, ci: bool, fi: int, ln: nat) -> bool {
    &&& 1 <= ln <= crate::lines::line_count(slice_of(c, fi))
    &&& (crate::pattern::regex_find_spec(
        pat,
        ci,
        crate::lines::line_content(slice_of(c, fi), ln),
    ) matches Some(m) && m.1 < usize::MAX)
}

/// Some file that passes the filters holds a matching line whose bytes are
/// not valid UTF-8.
pub open spec fn undecodable_hit(
    c: &Crate,
    pat: Seq<char>,
    ci: bool,
    path: Option<Seq<char>>,
    exts: Seq<Seq<char>>,
) -> bool {
    exists|fi: int, ln: nat|
        #![trigger crate::lines::line_content(slice_of(c, fi), ln)]
        0 <= fi < c.files_index@.len() && file_passes(c.files_index@[fi], path, exts) && 1 <= ln
            <= crate::lines::line_count(slice_of(c, fi)) && crate::pattern::regex_find_spec(
            pat,
            ci,
            crate::lines::line_content(slice_of(c, fi), ln),
        ) is Some && !vstd::utf8::valid_utf8(crate::lines::line_content(slice_of(c, fi), ln))
}

/// Scan one file of the package line by line, appending every match to
/// `results` until the cap is reached. `Ok(true)` reports that the cap was
/// reached; `Err` that a matched line was not valid UTF-8.
fn scan_file(
    c: &Crate,
    fi: usize,
    pat: &crate::pattern::LinePattern,
    max_results: Option<usize>,
    results: &mut Vec<Line>,
    Ghost(pathv): Ghost<Option<Seq<char>>>,
    Ghost(extsv): Ghost<Seq<Seq<char>>>,
) -> (r: Result<bool, CrateError>)
    requires
        c.wf(),
        fi < c.files_index@.len(),
        file_passes(c.files_index@[fi as int], pathv, extsv),
        max_results matches Some(m) ==> m >= 1 && old(results)@.len() < m,
        forall|j: int|
            0 <= j < old(results)@.len() ==> hit_sound(
                c,
                pat.spec_pattern(),
                pat.spec_ci(),
                pathv,
                extsv,
                #[trigger] old(results)@[j],
            ),
    ensures
        forall|j: int| 0 <= j < old(results)@.len() ==> final(results)@[j] == old(results)@[j],
        final(results)@.len() >= old(results)@.len(),
        forall|j: int|
            0 <= j < final(results)@.len() ==> hit_sound(
                c,
                pat.spec_pattern(),
                pat.spec_ci(),
                pathv,
                extsv,
                #[trigger] final(results)@[j],
            ),
        max_results matches Some(m) ==> final(results)@.len() <= m,
        r matches Ok(b) ==> (b <==> (max_results matches Some(m) && final(results)@.len() == m)),
        r matches Ok(b) && !b ==> forall|ln: nat|
            line_matches(c, pat.spec_pattern(), pat.spec_ci(), fi as int, ln) ==> hit_included(
                final(results)@,
                c.files_index@[fi as int].path@,
                ln,
            ),
        r is Err ==> (r matches Err(e) && e == CrateError::NotUtf8 && undecodable_hit(
            c,
            pat.spec_pattern(),
            pat.spec_ci(),
            pathv,
            extsv,
        )),
{
    let fe = &c.files_index[fi];
    let slice = copy_range(&c.data, fe.desc.range.lo, fe.desc.range.hi);
    proof {
        assert(slice@ == slice_of(c, fi as int));
    }
    let mut ln0: usize = 0;
    let mut off: usize = 0;
    proof {
        crate::lines::lemma_line_start_bounds(slice@, 1);
    }
    while off < slice.len()
        invariant
            c.wf(),
            fi < c.files_index@.len(),
            file_passes(c.files_index@[fi as int], pathv, extsv),
            fe == &c.files_index@[fi as int],
            slice@ == slice_of(c, fi as int),
            0 <= off <= slice@.len(),
            off == crate::lines::line_start(slice@, (ln0 + 1) as nat),
            max_results matches Some(m) ==> m >= 1 && results@.len() < m,
            forall|j: int| 0 <= j < old(results)@.len() ==> results@[j] == old(results)@[j],
            results@.len() >= old(results)@.len(),
            forall|j: int|
                0 <= j < results@.len() ==> hit_sound(
                    c,
                    pat.spec_pattern(),
                    pat.spec_ci(),
                    pathv,
                    extsv,
                    #[trigger] results@[j],
                ),
            forall|ln: nat|
                1 <= ln <= ln0 && line_matches(c, pat.spec_pattern(), pat.spec_ci(), fi as int, ln)
                    ==> hit_included(results@, c.files_index@[fi as int].path@, ln),
        decreases slice@.len() - off,
    {
        proof {
            crate::lines::lemma_line_exists(slice@, (ln0 + 1) as nat);
            crate::lines::lemma_line_start_lower(slice@, (ln0 + 1) as nat);
        }
        let cend = crate::lines::find_nl_exec(slice.as_slice(), off);
        proof {
            crate::lines::lemma_find_nl_bounds(slice@, off as int);
        }
        let hay = vstd::slice::slice_subrange(slice.as_slice(), off, cend);
        proof {
            assert(hay@ == crate::lines::line_content(slice@, (ln0 + 1) as nat));
        }
        match crate::pattern::find_in_line(pat, hay) {
            Option::Some(m) => {
                let (ms, me) = m;
                if me < usize::MAX {
                    let text = match crate::text::bytes_to_string(hay) {
                        Option::Some(t) => t,
                        Option::None => {
                            proof {
                                assert(undecodable_hit(
                                    c,
                                    pat.spec_pattern(),
                                    pat.spec_ci(),
                                    pathv,
                                    extsv,
                                )) by {
                                    assert(0 <= (fi as int) < c.files_index@.len() && file_passes(
                                        c.files_index@[fi as int],
                                        pathv,
                                        extsv,
                                    ) && 1 <= (ln0 + 1) as nat <= crate::lines::line_count(
                                        slice_of(c, fi as int),
                                    ) && crate::pattern::regex_find_spec(
                                        pat.spec_pattern(),
                                        pat.spec_ci(),
                                        crate::lines::line_content(
                                            slice_of(c, fi as int),
                                            (ln0 + 1) as nat,
                                        ),
                                    ) is Some && !vstd::utf8::valid_utf8(
                                        crate::lines::line_content(
                                            slice_of(c, fi as int),
                                            (ln0 + 1) as nat,
                                        ),
                                    ));
                                }
                            }
                            return Err(CrateError::NotUtf8);
                        },
                    };
                    let line = Line {
                        line: text,
                        file: fe.path.clone(),
                        line_number: ln0 + 1,
                        column_range: crate::LineRange { start: ms + 1, end: me + 1 },
                    };
                    let ghost oldr = results@;
                    results.push(line);
                    proof {
                        assert(results@.drop_last() =~= oldr);
                        let l = results@.last();
                        assert(hit_sound(c, pat.spec_pattern(), pat.spec_ci(), pathv, extsv, l)) by {
                            assert(has_file(c.files_index@, l.file@)) by {
                                assert(c.files_index@[fi as int].path@ == l.file@);
                            }
                            let w = choose|w: int|
                                0 <= w < c.files_index@.len() && c.files_index@[w].path@ == l.file@;
                            assert(w == fi as int);
                            assert(file_at(c.files_index@, l.file@) == c.files_index@[fi as int]);
                            assert(c.file_slice(l.file@) == slice@);
                        }
                        assert forall|ln: nat|
                            1 <= ln <= ln0 + 1 && line_matches(
                                c,
                                pat.spec_pattern(),
                                pat.spec_ci(),
                                fi as int,
                                ln,
                            ) implies hit_included(
                            results@,
                            c.files_index@[fi as int].path@,
                            ln,
                        ) by {
                            if ln <= ln0 {
                                let j = choose|j: int|
                                    0 <= j < oldr.len() && oldr[j].file@
                                        == c.files_index@[fi as int].path@ && oldr[j].line_number as nat
                                        == ln;
                                assert(results@[j].file@ == c.files_index@[fi as int].path@);
                            } else {
                                assert(results@[results@.len() - 1].line_number as nat == ln);
                            }
                        }
                    }
                    match max_results {
                        Option::Some(m) => {
                            if results.len() >= m {
                                return Ok(true);
                            }
                        },
                        Option::None => (),
                    }
                } else {
                    proof {
                        assert forall|ln: nat|
                            1 <= ln <= ln0 + 1 && line_matches(
                                c,
                                pat.spec_pattern(),
                                pat.spec_ci(),
                                fi as int,
                                ln,
                            ) implies hit_included(
                            results@,
                            c.files_index@[fi as int].path@,
                            ln,
                        ) by {
                            if ln <= ln0 {
                            } else {
                                assert(!line_matches(
                                    c,
                                    pat.spec_pattern(),
                                    pat.spec_ci(),
                                    fi as int,
                                    ln,
                                ));
                            }
                        }
                    }
                }
            },
            Option::None => {
                proof {
                    assert forall|ln: nat|
                        1 <= ln <= ln0 + 1 && line_matches(
                            c,
                            pat.spec_pattern(),
                            pat.spec_ci(),
                            fi as int,
                            ln,
                        ) implies hit_included(results@, c.files_index@[fi as int].path@, ln) by {
                        if ln <= ln0 {
                        } else {
                            assert(!line_matches(c, pat.spec_pattern(), pat.spec_ci(), fi as int, ln));
                        }
                    }
                }
            },
        }
        if cend < slice.len() {
            off = cend + 1;
        } else {
            off = slice.len();
        }
        ln0 += 1;
        proof {
            assert(off == crate::lines::line_start(slice@, (ln0 + 1) as nat));
            crate::lines::lemma_line_start_bounds(slice@, (ln0 + 1) as nat);
        }
    }
    proof {
        crate::lines::lemma_line_exists(slice@, (ln0 + 1) as nat);
        assert forall|ln: nat|
            line_matches(c, pat.spec_pattern(), pat.spec_ci(), fi as int, ln) implies hit_included(
            results@,
            c.files_index@[fi as int].path@,
            ln,
        ) by {
            assert(crate::lines::line_count(slice_of(c, fi as int)) <= ln0);
        }
    }
    Ok(false)
}

impl Crate {
    /// Search the package's files line by line. The pattern is the query
    /// (escaped for a plain-text search) wrapped in word-boundary anchors
    /// when whole words are asked for; matching is case-insensitive unless
    /// the query says otherwise. Files are filtered by path prefix and
    /// extension list; every reported line is a real match, and while the
    /// cap is not reached no match is dropped.
    pub fn search_line(&self, query: &LineQuery) -> (r: Result<Vec<Line>, CrateError>)
        requires
            self.wf(),
            query.max_results matches Some(m) ==> m >= 1,
        ensures
            (r matches Err(e) && e == CrateError::BadPattern) <==> !crate::pattern::regex_ok(
                crate::pattern::query_pattern(query.query@, query.mode, query.whole_word),
                !query.case_sensitive,
            ),
            r matches Err(e) ==> ((e == CrateError::BadPattern || e == CrateError::NotUtf8) && (e
                == CrateError::NotUtf8 ==> undecodable_hit(
                self,
                crate::pattern::query_pattern(query.query@, query.mode, query.whole_word),
                !query.case_sensitive,
                query.path.deep_view(),
                crate::pattern::ext_list(query.file_ext@),
            ))),
            r matches Ok(rs) ==> ((forall|j: int|
                0 <= j < rs@.len() ==> hit_sound(
                    self,
                    crate::pattern::query_pattern(query.query@, query.mode, query.whole_word),
                    !query.case_sensitive,
                    query.path.deep_view(),
                    crate::pattern::ext_list(query.file_ext@),
                    #[trigger] rs@[j],
                )) && (query.max_results matches Some(m) ==> rs@.len() <= m) && (rs@.len() < opt_or(
                query.max_results,
                usize::MAX,
            ) ==> forall|fi: int, ln: nat|
                #![trigger crate::lines::line_content(slice_of(self, fi), ln)]
                0 <= fi < self.files_index@.len() && file_passes(
                    self.files_index@[fi],
                    query.path.deep_view(),
                    crate::pattern::ext_list(query.file_ext@),
                ) && line_matches(
                    self,
                    crate::pattern::query_pattern(query.query@, query.mode, query.whole_word),
                    !query.case_sensitive,
                    fi,
                    ln,
                ) ==> hit_included(rs@, self.files_index@[fi].path@, ln))),
    {
        let exts = crate::pattern::ext_list_exec(query.file_ext.as_str());
        let patstr = crate::pattern::build_query_pattern(query);
        let ci = !query.case_sensitive;
        let pat = match crate::pattern::compile_pattern(patstr, ci) {
            Option::Some(p) => p,
            Option::None => {
                return Err(CrateError::BadPattern);
            },
        };
        let ghost pathv = query.path.deep_view();
        let ghost extsv = crate::pattern::ext_list(query.file_ext@);
        let mut results: Vec<Line> = Vec::new();
        let mut fi: usize = 0;
        while fi < self.files_index.len()
            invariant
                self.wf(),
                query.max_results matches Some(m) ==> m >= 1,
                exts.deep_view() == extsv,
                extsv == crate::pattern::ext_list(query.file_ext@),
                pathv == query.path.deep_view(),
                pat.spec_pattern() == crate::pattern::query_pattern(
                    query.query@,
                    query.mode,
                    query.whole_word,
                ),
                pat.spec_ci() == !query.case_sensitive,
                crate::pattern::regex_ok(pat.spec_pattern(), pat.spec_ci()),
                0 <= fi <= self.files_index@.len(),
                query.max_results matches Some(m) ==> results@.len() < m,
                forall|j: int|
                    0 <= j < results@.len() ==> hit_sound(
                        self,
                        pat.spec_pattern(),
                        pat.spec_ci(),
                        pathv,
                        extsv,
                        #[trigger] results@[j],
                    ),
                forall|fj: int, ln: nat|
                    #![trigger crate::lines::line_content(slice_of(self, fj), ln)]
                    0 <= fj < fi && file_passes(self.files_index@[fj], pathv, extsv)
                        && line_matches(self, pat.spec_pattern(), pat.spec_ci(), fj, ln)
                        ==> hit_included(results@, self.files_index@[fj].path@, ln),
            decreases self.files_index@.len() - fi,
        {
            let fe = &self.files_index[fi];
            let pass_path = match &query.path {
                Option::None => true,
                Option::Some(p) => crate::text::path_prefix_matches(fe.path.as_str(), p.as_str()),
            };
            let ext = crate::text::extension_str(fe.path.as_str());
            let ghost extv = crate::pattern::opt_str_view(ext);
            proof {
                assert(extv == crate::text::extension_of(fe.path@));
            }
            let pass_ext = crate::pattern::ext_passes_exec(ext, &exts);
            proof {
                assert(pass_ext == crate::pattern::ext_passes(
                    crate::text::extension_of(fe.path@),
                    extsv,
                ));
                assert(pass_path == (pathv matches Some(p) ==> path_starts_with(fe.path@, p)));
                assert((pass_path && pass_ext) == file_passes(
                    self.files_index@[fi as int],
                    pathv,
                    extsv,
                ));
            }
            if pass_path && pass_ext {
                let ghost r0 = results@;
                match scan_file(
                    self,
                    fi,
                    &pat,
                    query.max_results,
                    &mut results,
                    Ghost(pathv),
                    Ghost(extsv),
                ) {
                    Result::Err(e) => {
                        return Err(e);
                    },
                    Result::Ok(true) => {
                        return Ok(results);
                    },
                    Result::Ok(false) => (),
                }
                proof {
                    assert forall|fj: int, ln: nat|
                        #![trigger crate::lines::line_content(slice_of(self, fj), ln)]
                        0 <= fj < fi + 1 && file_passes(self.files_index@[fj], pathv, extsv)
                            && line_matches(self, pat.spec_pattern(), pat.spec_ci(), fj, ln) implies hit_included(
                        results@,
                        self.files_index@[fj].path@,
                        ln,
                    ) by {
                        if fj < fi {
                            assert(hit_included(r0, self.files_index@[fj].path@, ln));
                            let j = choose|j: int|
                                0 <= j < r0.len() && r0[j].file@ == self.files_index@[fj].path@
                                    && r0[j].line_number as nat == ln;
                            assert(results@[j] == r0[j]);
                        }
                    }
                }
            }
            fi += 1;
        }
        Ok(results)
    }
}

/// The value of an optional number, or the default `d`.
pub open spec fn opt_or(o: Option<usize>, d: usize) -> usize {
    match o {
        Option::Some(v) => v,
        Option::None => d,
    }
}

/// Index of the file entry with path `p`, if any.
pub fn find_file_idx(files: &Vec<FileEntry>, p: &str) -> (r: Option<usize>)
    ensures
        r is Some <==> has_file(files@, p@),
        r matches Some(i) ==> i < files@.len() && files@[i as int].path@ == p@,
{
    let mut i: usize = 0;
    while i < files.len()
        invariant
            0 <= i <= files@.len(),
            forall|j: int| 0 <= j < i ==> files@[j].path@ != p@,
        decreases files@.len() - i,
    {
        if str_eq(files[i].path.as_str(), p) {
            return Some(i);
        }
        i += 1;
    }
    None
}

/// Index of the under-construction directory entry with path `p`, if any.
fn find_dirm_idx(dirs: &Vec<DirMutEntry>, p: &str) -> (r: Option<usize>)
    ensures
        r is Some <==> has_dirm(dirs@, p@),
        r matches Some(i) ==> i < dirs@.len() && dirs@[i as int].path@ == p@,
{
    let mut i: usize = 0;
    while i < dirs.len()
        invariant
            0 <= i <= dirs@.len(),
            forall|j: int| 0 <= j < i ==> dirs@[j].path@ != p@,
        decreases dirs@.len() - i,
    {
        if str_eq(dirs[i].path.as_str(), p) {
            return Some(i);
        }
        i += 1;
    }
    None
}

/// Copy the byte range `[lo, hi)` of `data` into a fresh vector.
pub fn copy_range(data: &Vec<u8>, lo: usize, hi: usize) -> (r: Vec<u8>)
    requires
        lo <= hi <= data@.len(),
    ensures
        r@ == data@.subrange(lo as int, hi as int),
{
    let mut out: Vec<u8> = Vec::new();
    let mut i = lo;
    while i < hi
        invariant
            lo <= i <= hi <= data@.len(),
            out@ == data@.subrange(lo as int, i as int),
        decreases hi - i,
    {
        out.push(data[i]);
        proof {
            assert(out@ =~= data@.subrange(lo as int, i + 1));
        }
        i += 1;
    }
    out
}


// ---------------------------------------------------------------------------
// The package cache
// ---------------------------------------------------------------------------
#[verifier::external_type_specification]
#[verifier::external_body]
#[verifier::reject_recursive_types(K)]
#[verifier::reject_recursive_types(V)]
#[verifier::reject_recursive_types(S)]
pub struct ExLruCache<K, V, S>(lru::LruCache<K, V, S>);

/// The entries of the cache, most recently used first; what
/// `lru::LruCache` holds.
pub uninterp spec fn lru_entries(c: lru::LruCache<CrateVersion, Crate, std::collections::hash_map::RandomState>) -> Seq<
    (CrateVersion, Crate),
>;

/// The fixed capacity the cache was created with.
pub uninterp spec fn lru_cap(c: lru::LruCache<CrateVersion, Crate, std::collections::hash_map::RandomState>) -> nat;

/// Some entry's key has this value.
pub open spec fn lru_has(es: Seq<(CrateVersion, Crate)>, k: crate::CrateVersionKey) -> bool {
    exists|i: int| 0 <= i < es.len() && es[i].0@ == k
}

/// The position of the entry with this key (unique when keys are unique).
pub open spec fn lru_idx(es: Seq<(CrateVersion, Crate)>, k: crate::CrateVersionKey) -> int {
    choose|i: int| 0 <= i < es.len() && es[i].0@ == k
}

/// Entry keys are pairwise distinct.
pub open spec fn lru_keys_unique(es: Seq<(CrateVersion, Crate)>) -> bool {
    forall|i: int, j: int| 0 <= i < j < es.len() ==> es[i].0@ != es[j].0@
}

/// The state of the cache after a lookup of `k` touches recency: the found
/// entry moves to the front.
pub open spec fn lru_get_model(es: Seq<(CrateVersion, Crate)>, k: crate::CrateVersionKey) -> Seq<
    (CrateVersion, Crate),
> {
    if lru_has(es, k) {
        seq![es[lru_idx(es, k)]] + es.remove(lru_idx(es, k))
    } else {
        es
    }
}

/// The state of the cache after `(k, v)` is inserted: the new entry stands
/// at the front; an entry with the same key is replaced; a new key at
/// capacity evicts the least recently used entry.
pub open spec fn lru_put_model(
    es: Seq<(CrateVersion, Crate)>,
    cap: nat,
    k: CrateVersion,
    v: Crate,
) -> Seq<(CrateVersion, Crate)> {
    if lru_has(es, k@) {
        seq![(k, v)] + es.remove(lru_idx(es, k@))
    } else if es.len() < cap {
        seq![(k, v)] + es
    } else {
        seq![(k, v)] + es.drop_last()
    }
}

/// Relies on `lru::LruCache::with_hasher`: an empty cache with the given
/// capacity.
#[verifier::external_body]
fn lru_new(capacity: usize) -> (r: lru::LruCache<CrateVersion, Crate, std::collections::hash_map::RandomState>)
    requires
        capacity >= 1,
    ensures
        lru_entries(r) == Seq::<(CrateVersion, Crate)>::empty(),
        lru_cap(r) == capacity,
{
    lru::LruCache::with_hasher(
        std::num::NonZeroUsize::new(capacity).unwrap(),
        std::collections::hash_map::RandomState::new(),
    )
}

/// Relies on `lru::LruCache::get`: hands out the entry stored for the key,
/// marking it most recently used; the cache is otherwise unchanged. Keys
/// are compared by their derived equality, which compares the two name
/// components.
#[verifier::external_body]
fn lru_get<'a>(c: &'a mut lru::LruCache<CrateVersion, Crate, std::collections::hash_map::RandomState>, k: &CrateVersion) -> (r: Option<
    &'a Crate,
>)
    ensures
        lru_cap(*final(c)) == lru_cap(*old(c)),
        lru_entries(*final(c)) == lru_get_model(lru_entries(*old(c)), k@),
        !lru_has(lru_entries(*old(c)), k@) ==> r is None,
        lru_has(lru_entries(*old(c)), k@) ==> (r matches Some(p) && *p == lru_entries(*old(c))[
            lru_idx(lru_entries(*old(c)), k@)].1),
{
    c.get(k)
}

/// Relies on `lru::LruCache::put`: inserts the pair at the most recent
/// position, returning the value previously stored for the key; a new key
/// arriving at capacity evicts the least recently used entry.
#[verifier::external_body]
fn lru_put(c: &mut lru::LruCache<CrateVersion, Crate, std::collections::hash_map::RandomState>, k: CrateVersion, v: Crate) -> (r: Option<
    Crate,
>)
    ensures
        lru_cap(*final(c)) == lru_cap(*old(c)),
        lru_entries(*final(c)) == lru_put_model(
            lru_entries(*old(c)),
            lru_cap(*old(c)),
            k,
            v,
        ),
        !lru_has(lru_entries(*old(c)), k@) ==> r is None,
        lru_has(lru_entries(*old(c)), k@) ==> (r matches Some(o) && o == lru_entries(*old(c))[
            lru_idx(lru_entries(*old(c)), k@)].1),
{
    c.put(k, v)
}

/// The two packages hold the same content: the same buffer, file index,
/// directory index and declaration index, compared by their views.
pub open spec fn same_crate(a: &Crate, b: &Crate) -> bool {
    &&& a.data@ == b.data@
    &&& a.files_index@ == b.files_index@
    &&& a.directories_index@.len() == b.directories_index@.len()
    &&& forall|i: int|
        0 <= i < a.directories_index@.len() ==> ((#[trigger] a.directories_index@[i]).path
            == b.directories_index@[i].path && a.directories_index@[i].dir.files@
            == b.directories_index@[i].dir.files@ && a.directories_index@[i].dir.directories@
            == b.directories_index@[i].dir.directories@)
    &&& a.item_search_index.structs@ == b.item_search_index.structs@
    &&& a.item_search_index.enums@ == b.item_search_index.enums@
    &&& a.item_search_index.traits@ == b.item_search_index.traits@
    &&& a.item_search_index.impl_types@ == b.item_search_index.impl_types@
    &&& a.item_search_index.impl_trait_for_types@ == b.item_search_index.impl_trait_for_types@
    &&& a.item_search_index.macros@ == b.item_search_index.macros@
    &&& a.item_search_index.attribute_macros@ == b.item_search_index.attribute_macros@
    &&& a.item_search_index.functions@ == b.item_search_index.functions@
    &&& a.item_search_index.type_aliases@ == b.item_search_index.type_aliases@
}

/// An exact copy of a sorted name vector.
fn clone_string_vec(v: &Vec<String>) -> (r: Vec<String>)
    ensures
        r@ == v@,
{
    let mut out: Vec<String> = Vec::new();
    let mut i: usize = 0;
    while i < v.len()
        invariant
            0 <= i <= v@.len(),
            out@ == v@.subrange(0, i as int),
        decreases v@.len() - i,
    {
        out.push(v[i].clone());
        proof {
            assert(out@ =~= v@.subrange(0, i + 1));
        }
        i += 1;
    }
    proof {
        assert(v@.subrange(0, v@.len() as int) =~= v@);
    }
    out
}

/// An exact copy of a byte buffer.
fn clone_bytes(v: &Vec<u8>) -> (r: Vec<u8>)
    ensures
        r@ == v@,
{
    let mut out: Vec<u8> = Vec::new();
    let mut i: usize = 0;
    while i < v.len()
        invariant
            0 <= i <= v@.len(),
            out@ == v@.subrange(0, i as int),
        decreases v@.len() - i,
    {
        out.push(v[i]);
        proof {
            assert(out@ =~= v@.subrange(0, i + 1));
        }
        i += 1;
    }
    proof {
        assert(v@.subrange(0, v@.len() as int) =~= v@);
    }
    out
}

/// An exact copy of the file index.
fn clone_files(v: &Vec<FileEntry>) -> (r: Vec<FileEntry>)
    ensures
        r@ == v@,
{
    let mut out: Vec<FileEntry> = Vec::new();
    let mut i: usize = 0;
    while i < v.len()
        invariant
            0 <= i <= v@.len(),
            out@ == v@.subrange(0, i as int),
        decreases v@.len() - i,
    {
        let e = &v[i];
        out.push(FileEntry { path: e.path.clone(), desc: e.desc });
        proof {
            assert(out@ =~= v@.subrange(0, i + 1));
        }
        i += 1;
    }
    proof {
        assert(v@.subrange(0, v@.len() as int) =~= v@);
    }
    out
}

/// A copy of the directory index, equal listing by listing.
fn clone_dirs(v: &Vec<DirEntry>) -> (r: Vec<DirEntry>)
    ensures
        r@.len() == v@.len(),
        forall|i: int|
            0 <= i < v@.len() ==> ((#[trigger] r@[i]).path == v@[i].path && r@[i].dir.files@
                == v@[i].dir.files@ && r@[i].dir.directories@ == v@[i].dir.directories@),
{
    let mut out: Vec<DirEntry> = Vec::new();
    let mut i: usize = 0;
    while i < v.len()
        invariant
            0 <= i <= v@.len(),
            out@.len() == i,
            forall|j: int|
                0 <= j < i ==> ((#[trigger] out@[j]).path == v@[j].path && out@[j].dir.files@
                    == v@[j].dir.files@ && out@[j].dir.directories@ == v@[j].dir.directories@),
        decreases v@.len() - i,
    {
        let e = &v[i];
        let dir = Directory {
            files: clone_string_vec(&e.dir.files),
            directories: clone_string_vec(&e.dir.directories),
        };
        out.push(DirEntry { path: e.path.clone(), dir });
        i += 1;
    }
    out
}

/// An exact copy of one declaration bucket.
fn clone_bucket(v: &Vec<crate::search::IndexEntry>) -> (r: Vec<crate::search::IndexEntry>)
    ensures
        r@ == v@,
{
    let mut out: Vec<crate::search::IndexEntry> = Vec::new();
    let mut i: usize = 0;
    while i < v.len()
        invariant
            0 <= i <= v@.len(),
            out@ == v@.subrange(0, i as int),
        decreases v@.len() - i,
    {
        let e = &v[i];
        out.push(
            crate::search::IndexEntry {
                key: e.key.clone(),
                item: crate::search::clone_item(&e.item),
            },
        );
        proof {
            assert(out@ =~= v@.subrange(0, i + 1));
        }
        i += 1;
    }
    proof {
        assert(v@.subrange(0, v@.len() as int) =~= v@);
    }
    out
}

/// A copy of the declaration index, equal bucket by bucket.
fn clone_index(v: &SearchIndexMut) -> (r: SearchIndexMut)
    ensures
        r.structs@ == v.structs@,
        r.enums@ == v.enums@,
        r.traits@ == v.traits@,
        r.impl_types@ == v.impl_types@,
        r.impl_trait_for_types@ == v.impl_trait_for_types@,
        r.macros@ == v.macros@,
        r.attribute_macros@ == v.attribute_macros@,
        r.functions@ == v.functions@,
        r.type_aliases@ == v.type_aliases@,
{
    SearchIndexMut {
        structs: clone_bucket(&v.structs),
        enums: clone_bucket(&v.enums),
        traits: clone_bucket(&v.traits),
        impl_types: clone_bucket(&v.impl_types),
        impl_trait_for_types: clone_bucket(&v.impl_trait_for_types),
        macros: clone_bucket(&v.macros),
        attribute_macros: clone_bucket(&v.attribute_macros),
        functions: clone_bucket(&v.functions),
        type_aliases: clone_bucket(&v.type_aliases),
    }
}

/// A copy of a package with the same content.
pub fn clone_crate(c: &Crate) -> (r: Crate)
    ensures
        same_crate(&r, c),
        c.wf() ==> r.wf(),
{
    let r = Crate {
        data: clone_bytes(&c.data),
        files_index: clone_files(&c.files_index),
        directories_index: clone_dirs(&c.directories_index),
        item_search_index: clone_index(&c.item_search_index),
    };
    proof {
        if c.wf() {
            assert(r.wf()) by {
                assert(r.files_index@ == c.files_index@);
                assert(r.item_search_index.wf());
                assert(forall|a: int, b: int|
                    0 <= a < b < r.directories_index@.len()
                        ==> (#[trigger] r.directories_index@[a]).path@ != (
                    #[trigger] r.directories_index@[b]).path@);
                if r.directories_index@.len() > 0 {
                    assert(has_dir(c.directories_index@, Seq::<char>::empty()));
                    let w0 = choose|w0: int|
                        0 <= w0 < c.directories_index@.len() && c.directories_index@[w0].path@
                            =~= Seq::<char>::empty();
                    assert(r.directories_index@[w0].path@ =~= Seq::<char>::empty());
                    assert(has_dir(r.directories_index@, Seq::<char>::empty()));
                }
                assert forall|i: int|
                    0 <= i < r.directories_index@.len() implies (#[trigger] r.directories_index@[i]).dir.wf()
                    && (r.directories_index@[i].path@.len() > 0 ==> has_dir(
                    r.directories_index@,
                    parent_of(r.directories_index@[i].path@),
                ) && dir_at(
                    r.directories_index@,
                    parent_of(r.directories_index@[i].path@),
                ).dir.directories.deep_view().contains(leaf_of(r.directories_index@[i].path@))) by {
                    assert(c.directories_index@[i].dir.wf());
                    assert(r.directories_index@[i].dir.files.deep_view() =~= c.directories_index@[
                        i].dir.files.deep_view());
                    assert(r.directories_index@[i].dir.directories.deep_view()
                        =~= c.directories_index@[i].dir.directories.deep_view());
                    assert(r.directories_index@[i].dir.wf());
                    if r.directories_index@[i].path@.len() > 0 {
                        let pq = parent_of(c.directories_index@[i].path@);
                        let w = choose|w: int|
                            0 <= w < c.directories_index@.len() && c.directories_index@[w].path@
                                == pq;
                        assert(r.directories_index@[w].path@ == pq);
                        assert(has_dir(r.directories_index@, pq));
                        let w2 = choose|w2: int|
                            0 <= w2 < r.directories_index@.len() && r.directories_index@[w2].path@
                                == pq;
                        assert(w2 == w) by {
                            assert(forall|a: int, b: int|
                                0 <= a < b < r.directories_index@.len()
                                    ==> (#[trigger] r.directories_index@[a]).path@ != (
                                #[trigger] r.directories_index@[b]).path@);
                        }
                        assert(r.directories_index@[w].dir.directories.deep_view()
                            =~= c.directories_index@[w].dir.directories.deep_view());
                        assert(dir_at(c.directories_index@, pq) == c.directories_index@[w]) by {
                            let w3 = choose|w3: int|
                                0 <= w3 < c.directories_index@.len() && c.directories_index@[
                                w3].path@ == pq;
                            assert(w3 == w);
                        }
                    }
                }
                assert forall|i: int| 0 <= i < r.files_index@.len() implies has_dir(
                    r.directories_index@,
                    parent_of((#[trigger] r.files_index@[i]).path@),
                ) && dir_at(
                    r.directories_index@,
                    parent_of(r.files_index@[i].path@),
                ).dir.files.deep_view().contains(leaf_of(r.files_index@[i].path@)) by {
                    let pq = parent_of(c.files_index@[i].path@);
                    let w = choose|w: int|
                        0 <= w < c.directories_index@.len() && c.directories_index@[w].path@ == pq;
                    assert(r.directories_index@[w].path@ == pq);
                    let w2 = choose|w2: int|
                        0 <= w2 < r.directories_index@.len() && r.directories_index@[w2].path@
                            == pq;
                    assert(w2 == w);
                    assert(r.directories_index@[w].dir.files.deep_view() =~= c.directories_index@[
                        w].dir.files.deep_view());
                    assert(dir_at(c.directories_index@, pq) == c.directories_index@[w]) by {
                        let w3 = choose|w3: int|
                            0 <= w3 < c.directories_index@.len() && c.directories_index@[w3].path@
                                == pq;
                        assert(w3 == w);
                    }
                }
                if r.files_index@.len() > 0 {
                    let w = choose|w: int|
                        0 <= w < c.directories_index@.len() && c.directories_index@[w].path@
                            =~= Seq::<char>::empty();
                    assert(r.directories_index@[w].path@ =~= Seq::<char>::empty());
                }
                assert forall|i: int, n: Seq<char>|
                    0 <= i < r.directories_index@.len() && (#[trigger] r.directories_index@[
                        i].dir.directories.deep_view().contains(n)) implies has_dir(
                    r.directories_index@,
                    crate::text::join_path(r.directories_index@[i].path@, n),
                ) by {
                    assert(r.directories_index@[i].dir.directories.deep_view()
                        =~= c.directories_index@[i].dir.directories.deep_view());
                    assert(c.directories_index@[i].dir.directories.deep_view().contains(n));
                    assert(r.directories_index@[i].path@ == c.directories_index@[i].path@);
                    let jp = crate::text::join_path(c.directories_index@[i].path@, n);
                    let w = choose|w: int|
                        0 <= w < c.directories_index@.len() && c.directories_index@[w].path@ == jp;
                    assert(r.directories_index@[w].path@ == jp);
                }
                assert forall|i: int, n: Seq<char>|
                    0 <= i < r.directories_index@.len() && (#[trigger] r.directories_index@[
                        i].dir.files.deep_view().contains(n)) implies has_file(
                    r.files_index@,
                    crate::text::join_path(r.directories_index@[i].path@, n),
                ) by {
                    assert(r.directories_index@[i].dir.files.deep_view() =~= c.directories_index@[
                        i].dir.files.deep_view());
                    assert(c.directories_index@[i].dir.files.deep_view().contains(n));
                    assert(r.directories_index@[i].path@ == c.directories_index@[i].path@);
                    assert(has_file(
                        c.files_index@,
                        crate::text::join_path(c.directories_index@[i].path@, n),
                    ));
                }
            }
        }
    }
    r
}

/// A bounded, least-recently-used cache of indexed packages.
pub struct CrateCache {
    lru: lru::LruCache<CrateVersion, Crate, std::collections::hash_map::RandomState>,
}

impl CrateCache {
    /// The entries, most recently used first.
    pub closed spec fn entries(&self) -> Seq<(CrateVersion, Crate)> {
        lru_entries(self.lru)
    }

    /// The fixed capacity.
    pub closed spec fn capacity(&self) -> nat {
        lru_cap(self.lru)
    }

    /// The cache is bounded by its positive capacity, holds each key once,
    /// and holds only well-formed packages.
    pub open spec fn wf(&self) -> bool {
        &&& self.capacity() >= 1
        &&& self.entries().len() <= self.capacity()
        &&& lru_keys_unique(self.entries())
        &&& forall|i: int| 0 <= i < self.entries().len() ==> (#[trigger] self.entries()[i]).1.wf()
    }

    /// An empty cache with the given capacity.
    pub fn new(capacity: usize) -> (r: CrateCache)
        requires
            capacity >= 1,
        ensures
            r.wf(),
            r.capacity() == capacity,
            r.entries().len() == 0,
    {
        CrateCache { lru: lru_new(capacity) }
    }

    /// Look a package up. A hit returns a package with the same content as
    /// the stored one and touches its recency; a miss changes nothing.
    pub fn get_crate(&mut self, crate_version: &CrateVersion) -> (r: Option<Crate>)
        requires
            old(self).wf(),
        ensures
            final(self).wf(),
            final(self).capacity() == old(self).capacity(),
            final(self).entries() == lru_get_model(old(self).entries(), crate_version@),
            !lru_has(old(self).entries(), crate_version@) ==> (r is None && final(self).entries()
                == old(self).entries()),
            lru_has(old(self).entries(), crate_version@) ==> (r matches Some(p) && same_crate(
                &p,
                &old(self).entries()[lru_idx(old(self).entries(), crate_version@)].1,
            ) && p.wf()),
    {
        let ghost es = lru_entries(self.lru);
        let found = lru_get(&mut self.lru, crate_version);
        let out = match found {
            Option::Some(p) => Option::Some(clone_crate(p)),
            Option::None => Option::None,
        };
        proof {
            if lru_has(es, crate_version@) {
                let i = lru_idx(es, crate_version@);
                assert(0 <= i < es.len() && es[i].0@ == crate_version@);
                assert(es[i].1.wf());
                assert(lru_get_model(es, crate_version@) =~= seq![es[i]] + es.remove(i));
                let nes = lru_entries(self.lru);
                assert(nes == seq![es[i]] + es.remove(i));
                assert forall|a: int, b: int| 0 <= a < b < nes.len() implies nes[a].0@
                    != nes[b].0@ by {
                    es.remove_ensures(i);
                    if a == 0 {
                        assert(nes[b] == es.remove(i)[b - 1]);
                    } else {
                        assert(nes[a] == es.remove(i)[a - 1] && nes[b] == es.remove(i)[b - 1]);
                    }
                }
                assert(forall|j: int| 0 <= j < nes.len() ==> (#[trigger] nes[j]).1.wf()) by {
                    es.remove_ensures(i);
                }
            }
        }
        out
    }

    /// Insert or replace a package, returning the one previously stored for
    /// the key. The new entry becomes the most recently used; a new key
    /// arriving at capacity evicts the least recently used entry.
    pub fn set_crate(&mut self, crate_version: CrateVersion, krate: Crate) -> (r: Option<Crate>)
        requires
            old(self).wf(),
            krate.wf(),
        ensures
            final(self).wf(),
            final(self).capacity() == old(self).capacity(),
            final(self).entries() == lru_put_model(
                old(self).entries(),
                old(self).capacity(),
                crate_version,
                krate,
            ),
            !lru_has(old(self).entries(), crate_version@) ==> r is None,
            lru_has(old(self).entries(), crate_version@) ==> (r matches Some(o) && o == old(
                self,
            ).entries()[lru_idx(old(self).entries(), crate_version@)].1),
    {
        let ghost es = lru_entries(self.lru);
        let ghost cap = lru_cap(self.lru);
        let ghost kv = crate_version@;
        let r = lru_put(&mut self.lru, crate_version, krate);
        proof {
            let nes = lru_entries(self.lru);
            if lru_has(es, kv) {
                let i = lru_idx(es, kv);
                es.remove_ensures(i);
                assert(nes.len() == es.len());
                assert forall|a: int, b: int| 0 <= a < b < nes.len() implies nes[a].0@
                    != nes[b].0@ by {
                    if a == 0 {
                        assert(nes[b] == es.remove(i)[b - 1]);
                        assert(es.remove(i)[b - 1].0@ != kv);
                    } else {
                        assert(nes[a] == es.remove(i)[a - 1] && nes[b] == es.remove(i)[b - 1]);
                    }
                }
                assert(forall|j: int| 1 <= j < nes.len() ==> (#[trigger] nes[j]).1.wf());
            } else if es.len() < cap {
                assert forall|a: int, b: int| 0 <= a < b < nes.len() implies nes[a].0@
                    != nes[b].0@ by {
                    if a == 0 {
                        assert(nes[b] == es[b - 1]);
                    } else {
                        assert(nes[a] == es[a - 1] && nes[b] == es[b - 1]);
                    }
                }
            } else {
                assert(nes.len() == es.drop_last().len() + 1 <= cap);
                assert forall|a: int, b: int| 0 <= a < b < nes.len() implies nes[a].0@
                    != nes[b].0@ by {
                    if a == 0 {
                        assert(nes[b] == es.drop_last()[b - 1] && es.drop_last()[b - 1] == es[b
                            - 1]);
                    } else {
                        assert(nes[a] == es[a - 1] && nes[b] == es[b - 1]);
                    }
                }
            }
        }
        r
    }
}

/// Idempotent cache: a package just inserted is found again under its key,
/// with exactly the inserted content, at the front of the recency order.
pub proof fn lemma_cache_idempotent(
    es: Seq<(CrateVersion, Crate)>,
    cap: nat,
    k: CrateVersion,
    v: Crate,
)
    requires
        lru_keys_unique(es),
        cap >= 1,
        es.len() <= cap,
    ensures
        lru_has(lru_put_model(es, cap, k, v), k@),
        lru_put_model(es, cap, k, v)[lru_idx(lru_put_model(es, cap, k, v), k@)].1 == v,
        lru_idx(lru_put_model(es, cap, k, v), k@) == 0,
{
    let nes = lru_put_model(es, cap, k, v);
    assert(nes[0] == (k, v));
    assert(lru_has(nes, k@));
    let i = lru_idx(nes, k@);
    assert(0 <= i < nes.len() && nes[i].0@ == k@);
    if i != 0 {
        if lru_has(es, k@) {
            let w = lru_idx(es, k@);
            es.remove_ensures(w);
            assert(nes[i] == es.remove(w)[i - 1]);
            assert(es.remove(w)[i - 1].0@ != k@);
        } else {
            assert(!lru_has(es, k@));
            if es.len() < cap {
                assert(nes[i] == es[i - 1]);
                assert(es[i - 1].0@ == k@);
            } else {
                assert(nes[i] == es.drop_last()[i - 1] && es.drop_last()[i - 1] == es[i - 1]);
                assert(es[i - 1].0@ == k@);
            }
        }
    }
}

/// LRU bound: when a new key arrives at capacity, the least recently used
/// key is evicted and can no longer be found.
pub proof fn lemma_lru_eviction(es: Seq<(CrateVersion, Crate)>, cap: nat, k: CrateVersion, v: Crate)
    requires
        lru_keys_unique(es),
        es.len() == cap,
        cap >= 1,
        !lru_has(es, k@),
        k@ != es.last().0@,
    ensures
        !lru_has(lru_put_model(es, cap, k, v), es.last().0@),
{
    let nes = lru_put_model(es, cap, k, v);
    let evicted = es.last().0@;
    assert(nes == seq![(k, v)] + es.drop_last());
    assert forall|i: int| 0 <= i < nes.len() implies nes[i].0@ != evicted by {
        if i == 0 {
        } else {
            assert(nes[i] == es.drop_last()[i - 1] && es.drop_last()[i - 1] == es[i - 1]);
            assert(es[i - 1].0@ != es[es.len() - 1].0@);
        }
    }
}


// ---------------------------------------------------------------------------
// Queries straight on a tarball
// ---------------------------------------------------------------------------
/// Index of the first archive entry whose path is `full`, starting at `i`,
/// or the number of entries.
pub open spec fn first_match(es: Seq<TarEntryView>, full: Seq<char>, i: int) -> int
    decreases es.len() - i,
{
    if i < 0 {
        first_match(es, full, 0)
    } else if i >= es.len() {
        es.len() as int
    } else if es[i].path == full {
        i
    } else {
        first_match(es, full, i + 1)
    }
}

/// The entry contributes the immediate child `rest` under `base`: its path
/// lies strictly under `base`, and `rest` is what follows.
pub open spec fn rest_under(p: Seq<char>, base: Seq<char>) -> Seq<char> {
    p.subrange(base.len() as int, p.len() as int)
}

/// Some entry with index in `[start, end)` lies strictly under `base` and
/// leaves `p` behind the prefix.
pub open spec fn listed_rel(
    es: Seq<TarEntryView>,
    base: Seq<char>,
    start: int,
    end: int,
    p: Seq<char>,
) -> bool {
    exists|k: int|
        0 <= k < es.len() && start <= k < end && is_prefix((#[trigger] es[k]).path, base) && es[
        k].path.len() > base.len() && rest_under(es[k].path, base) == p
}

/// Some entry lies strictly under `base` with exactly the single component
/// `n` behind the prefix: an immediate file child.
pub open spec fn child_file_rel(es: Seq<TarEntryView>, base: Seq<char>, n: Seq<char>) -> bool {
    exists|k: int|
        0 <= k < es.len() && is_prefix((#[trigger] es[k]).path, base) && es[k].path.len()
            > base.len() && crate::pattern::find_char(rest_under(es[k].path, base), '/', 0)
            == rest_under(es[k].path, base).len() && rest_under(es[k].path, base) == n
}

/// Some entry lies strictly under `base` with more than one component
/// behind the prefix, the first being `n`: an immediate subdirectory.
pub open spec fn child_dir_rel(es: Seq<TarEntryView>, base: Seq<char>, n: Seq<char>) -> bool {
    exists|k: int|
        0 <= k < es.len() && is_prefix((#[trigger] es[k]).path, base) && es[k].path.len()
            > base.len() && crate::pattern::find_char(rest_under(es[k].path, base), '/', 0)
            < rest_under(es[k].path, base).len() && rest_under(es[k].path, base).subrange(
            0,
            crate::pattern::find_char(rest_under(es[k].path, base), '/', 0),
        ) == n
}

impl CrateTar {
    /// The archive path of a file relative to this crate's root directory.
    pub open spec fn full_path(&self, file: Seq<char>) -> Seq<char> {
        crate::indexer::root_prefix(self.crate_version.krate@, self.crate_version.version@) + file
    }

    fn full_path_exec(&self, file: &str) -> (r: String)
        ensures
            r@ == self.full_path(file@),
    {
        let mut s = self.crate_version.root_dir();
        s.append("/");
        s.append(file);
        proof {
            assert(s@ =~= self.full_path(file@));
        }
        s
    }

    /// Find the first entry with path `full`.
    fn find_entry(entries: &Vec<TarEntry>, full: &str) -> (r: Option<usize>)
        ensures
            ({
                let m = first_match(entries.deep_view(), full@, 0);
                if m == entries.deep_view().len() {
                    r is None
                } else {
                    r matches Some(i) && i < entries@.len() && i as int == m
                }
            }),
    {
        let ghost es = entries.deep_view();
        let mut k: usize = 0;
        while k < entries.len()
            invariant
                es == entries.deep_view(),
                es.len() == entries@.len(),
                0 <= k <= es.len(),
                first_match(es, full@, 0) == first_match(es, full@, k as int),
            decreases es.len() - k,
        {
            proof {
                assert(es[k as int] == entries@[k as int].deep_view());
            }
            if str_eq(entries[k].path.as_str(), full) {
                proof {
                    assert(es[k as int].path == full@);
                    assert(first_match(es, full@, k as int) == k as int);
                }
                return Some(k);
            }
            k += 1;
        }
        None
    }

    /// The content of the archive entry at `file` under the crate's root,
    /// decoded as UTF-8; `Ok(None)` when no entry has that path.
    pub fn get_file(&self, file: &str) -> (r: Result<Option<String>, CrateError>)
        ensures
            (r matches Err(e) && e == CrateError::TarUnreadable) <==> tar_entries(self.tar_data@) is None,
            tar_entries(self.tar_data@) matches Some(es) ==> ({
                let m = first_match(es, self.full_path(file@), 0);
                &&& (m == es.len() ==> (r matches Ok(o) && o is None))
                &&& (m < es.len() && vstd::utf8::valid_utf8(es[m].data) ==> (r matches Ok(o)
                    && o matches Some(s) && s@ == vstd::utf8::decode_utf8(es[m].data)))
                &&& (m < es.len() && !vstd::utf8::valid_utf8(es[m].data) ==> (r matches Err(e) && e
                    == CrateError::NotUtf8))
            }),
    {
        let entries = match read_tar_entries(&self.tar_data) {
            Option::Some(e) => e,
            Option::None => {
                return Err(CrateError::TarUnreadable);
            },
        };
        let full = self.full_path_exec(file);
        match Self::find_entry(&entries, full.as_str()) {
            Option::None => Ok(None),
            Option::Some(i) => {
                proof {
                    assert(entries.deep_view()[i as int] == entries@[i as int].deep_view());
                }
                match crate::text::bytes_to_string(entries[i].data.as_slice()) {
                    Option::Some(s) => Ok(Some(s)),
                    Option::None => Err(CrateError::NotUtf8),
                }
            },
        }
    }

    /// The content of the archive entry at `file`, restricted to the
    /// 1-based inclusive line range `start..=end` (an absent bound is
    /// unbounded), decoded as UTF-8.
    pub fn get_file_by_range(&self, file: &str, start: Option<usize>, end: Option<usize>) -> (r:
        Result<Option<String>, CrateError>)
        requires
            start matches Some(v) ==> v >= 1,
            end matches Some(v) ==> v >= 1,
        ensures
            (r matches Err(e) && e == CrateError::TarUnreadable) <==> tar_entries(self.tar_data@) is None,
            tar_entries(self.tar_data@) matches Some(es) ==> ({
                let m = first_match(es, self.full_path(file@), 0);
                let ex = extract_lines(es[m].data, opt_or(start, 1) as nat, opt_or(end, usize::MAX) as nat);
                &&& (m == es.len() ==> (r matches Ok(o) && o is None))
                &&& (m < es.len() && vstd::utf8::valid_utf8(es[m].data) && vstd::utf8::valid_utf8(ex)
                    ==> (r matches Ok(o) && o matches Some(s) && s@ == vstd::utf8::decode_utf8(ex)))
                &&& (m < es.len() && !(vstd::utf8::valid_utf8(es[m].data) && vstd::utf8::valid_utf8(
                    ex,
                )) ==> (r matches Err(e) && e == CrateError::NotUtf8))
            }),
    {
        let entries = match read_tar_entries(&self.tar_data) {
            Option::Some(e) => e,
            Option::None => {
                return Err(CrateError::TarUnreadable);
            },
        };
        let full = self.full_path_exec(file);
        match Self::find_entry(&entries, full.as_str()) {
            Option::None => Ok(None),
            Option::Some(i) => {
                proof {
                    assert(entries.deep_view()[i as int] == entries@[i as int].deep_view());
                }
                if !is_valid_utf8(entries[i].data.as_slice()) {
                    return Err(CrateError::NotUtf8);
                }
                let lo = match start {
                    Option::Some(v) => v,
                    Option::None => 1,
                };
                let hi = match end {
                    Option::Some(v) => v,
                    Option::None => usize::MAX,
                };
                let ex = extract_line_range(entries[i].data.as_slice(), lo, hi);
                match crate::text::bytes_to_string(ex.as_slice()) {
                    Option::Some(s) => Ok(Some(s)),
                    Option::None => Err(CrateError::NotUtf8),
                }
            },
        }
    }

    /// The paths of the archive entries with indices in `[start, end)`,
    /// relative to the crate's root directory, as a sorted set.
    pub fn get_all_file_list(&self, start: usize, end: usize) -> (r: Result<Vec<String>, CrateError>)
        ensures
            r is Err <==> tar_entries(self.tar_data@) is None,
            r matches Err(e) ==> e == CrateError::TarUnreadable,
            tar_entries(self.tar_data@) matches Some(es) ==> (r matches Ok(v)
                && crate::strictly_sorted(v.deep_view()) && (forall|p: Seq<char>|
                #[trigger] v.deep_view().contains(p) <==> listed_rel(
                    es,
                    self.full_path(Seq::empty()),
                    start as int,
                    end as int,
                    p,
                ))),
    {
        let entries = match read_tar_entries(&self.tar_data) {
            Option::Some(e) => e,
            Option::None => {
                return Err(CrateError::TarUnreadable);
            },
        };
        let ghost es = entries.deep_view();
        let prefix = self.full_path_exec("");
        proof {
            reveal_strlit("");
            assert(""@ =~= Seq::<char>::empty());
            assert(prefix@ == self.full_path(Seq::empty()));
        }
        let plen = prefix.as_str().unicode_len();
        let mut out: Vec<String> = Vec::new();
        let mut k: usize = 0;
        while k < entries.len()
            invariant
                es == entries.deep_view(),
                es.len() == entries@.len(),
                0 <= k <= es.len(),
                plen == prefix@.len(),
                prefix@ == self.full_path(Seq::empty()),
                crate::strictly_sorted(out.deep_view()),
                forall|p: Seq<char>|
                    #[trigger] out.deep_view().contains(p) <==> listed_rel(
                        es.subrange(0, k as int),
                        self.full_path(Seq::empty()),
                        start as int,
                        end as int,
                        p,
                    ),
            decreases es.len() - k,
        {
            proof {
                assert(es[k as int] == entries@[k as int].deep_view());
            }
            let e = &entries[k];
            let elen = e.path.as_str().unicode_len();
            if start <= k && k < end && str_starts_with(e.path.as_str(), prefix.as_str()) && elen
                > plen {
                let rel = e.path.as_str().substring_char(plen, elen).to_owned();
                proof {
                    assert(rel@ == rest_under(es[k as int].path, prefix@));
                    assert(rel@ == rest_under(es[k as int].path, self.full_path(Seq::empty())));
                }
                crate::sorted_insert(&mut out, rel);
            }
            k += 1;
            proof {
                let base = self.full_path(Seq::<char>::empty());
                let pre0 = es.subrange(0, k - 1);
                let pre1 = es.subrange(0, k as int);
                assert(pre1.drop_last() =~= pre0);
                assert(pre1.last() == es[k - 1]);
                assert forall|p: Seq<char>| #[trigger] out.deep_view().contains(p) implies listed_rel(
                    pre1,
                    base,
                    start as int,
                    end as int,
                    p,
                ) by {
                    if start <= k - 1 < end && is_prefix(es[k - 1].path, base) && es[k
                        - 1].path.len() > base.len() && rest_under(es[k - 1].path, base) == p {
                        assert(pre1[k - 1] == es[k - 1]);
                        assert(listed_rel(pre1, base, start as int, end as int, p));
                    } else {
                        let j = choose|j: int|
                            0 <= j < pre0.len() && start <= j < end && is_prefix(
                                (#[trigger] pre0[j]).path,
                                base,
                            ) && pre0[j].path.len() > base.len() && rest_under(pre0[j].path, base)
                                == p;
                        assert(pre1[j] == pre0[j]);
                        assert(listed_rel(pre1, base, start as int, end as int, p));
                    }
                }
                assert forall|p: Seq<char>|
                    listed_rel(pre1, base, start as int, end as int, p) implies #[trigger] out.deep_view().contains(
                    p,
                ) by {
                    let j = choose|j: int|
                        0 <= j < pre1.len() && start <= j < end && is_prefix(
                            (#[trigger] pre1[j]).path,
                            base,
                        ) && pre1[j].path.len() > base.len() && rest_under(pre1[j].path, base)
                            == p;
                    if j < k - 1 {
                        assert(pre0[j] == pre1[j]);
                        assert(listed_rel(pre0, base, start as int, end as int, p));
                    }
                }
            }
        }
        proof {
            assert(tar_entries(self.tar_data@) == Option::Some(es));
            assert(es.subrange(0, es.len() as int) =~= es);
        }
        Ok(out)
    }

    /// The immediate children of `path` (the empty path means the root)
    /// among the archive's entries: an entry one level below contributes a
    /// file name, one deeper a subdirectory name.
    pub fn read_directory(&self, path: &str) -> (r: Result<Directory, CrateError>)
        ensures
            r is Err <==> tar_entries(self.tar_data@) is None,
            r matches Err(e) ==> e == CrateError::TarUnreadable,
            tar_entries(self.tar_data@) matches Some(es) ==> (r matches Ok(d) && d.wf() && (forall|
                n: Seq<char>,
            |
                #[trigger] d.files.deep_view().contains(n) <==> child_file_rel(
                    es,
                    self.dir_base(path@),
                    n,
                )) && (forall|n: Seq<char>|
                #[trigger] d.directories.deep_view().contains(n) <==> child_dir_rel(
                    es,
                    self.dir_base(path@),
                    n,
                ))),
    {
        let entries = match read_tar_entries(&self.tar_data) {
            Option::Some(e) => e,
            Option::None => {
                return Err(CrateError::TarUnreadable);
            },
        };
        let ghost es = entries.deep_view();
        let base = self.dir_base_exec(path);
        let blen = base.as_str().unicode_len();
        let mut dir = DirectoryMut::new();
        let mut k: usize = 0;
        while k < entries.len()
            invariant
                es == entries.deep_view(),
                es.len() == entries@.len(),
                0 <= k <= es.len(),
                blen == base@.len(),
                base@ == self.dir_base(path@),
                dir.wf(),
                forall|n: Seq<char>|
                    #[trigger] dir.files.deep_view().contains(n) <==> child_file_rel(
                        es.subrange(0, k as int),
                        base@,
                        n,
                    ),
                forall|n: Seq<char>|
                    #[trigger] dir.directories.deep_view().contains(n) <==> child_dir_rel(
                        es.subrange(0, k as int),
                        base@,
                        n,
                    ),
            decreases es.len() - k,
        {
            proof {
                assert(es[k as int] == entries@[k as int].deep_view());
            }
            let e = &entries[k];
            let elen = e.path.as_str().unicode_len();
            let ghost before_files = dir.files.deep_view();
            let ghost before_dirs = dir.directories.deep_view();
            let ghost is_new_file = false;
            let ghost is_new_dir = false;
            if str_starts_with(e.path.as_str(), base.as_str()) && elen > blen {
                let rest = e.path.as_str().substring_char(blen, elen).to_owned();
                proof {
                    assert(rest@ == rest_under(es[k as int].path, base@));
                }
                let rlen = rest.as_str().unicode_len();
                let c = crate::pattern::find_char_exec(rest.as_str(), '/', 0);
                if c == rlen {
                    dir.insert_file(rest);
                } else {
                    let name = rest.as_str().substring_char(0, c).to_owned();
                    dir.insert_dir(name);
                }
            }
            k += 1;
            proof {
                let pre0 = es.subrange(0, k - 1);
                let pre1 = es.subrange(0, k as int);
                assert(pre1.drop_last() =~= pre0);
                assert(pre1.last() == es[k - 1]);
                assert(forall|j: int| 0 <= j < pre0.len() ==> #[trigger] pre1[j] == pre0[j]);
                assert forall|n: Seq<char>|
                    #[trigger] dir.files.deep_view().contains(n) implies child_file_rel(
                    pre1,
                    base@,
                    n,
                ) by {
                    if before_files.contains(n) {
                        let j = choose|j: int|
                            0 <= j < pre0.len() && is_prefix((#[trigger] pre0[j]).path, base@)
                                && pre0[j].path.len() > base@.len() && crate::pattern::find_char(
                                rest_under(pre0[j].path, base@),
                                '/',
                                0,
                            ) == rest_under(pre0[j].path, base@).len() && rest_under(
                                pre0[j].path,
                                base@,
                            ) == n;
                        assert(pre1[j] == pre0[j]);
                        assert(child_file_rel(pre1, base@, n));
                    } else {
                        assert(pre1[k - 1] == es[k - 1]);
                        assert(child_file_rel(pre1, base@, n));
                    }
                }
                assert forall|n: Seq<char>| child_file_rel(pre1, base@, n) implies #[trigger] dir.files.deep_view().contains(
                    n,
                ) by {
                    let j = choose|j: int|
                        0 <= j < pre1.len() && is_prefix((#[trigger] pre1[j]).path, base@) && pre1[
                        j].path.len() > base@.len() && crate::pattern::find_char(
                            rest_under(pre1[j].path, base@),
                            '/',
                            0,
                        ) == rest_under(pre1[j].path, base@).len() && rest_under(
                            pre1[j].path,
                            base@,
                        ) == n;
                    if j < k - 1 {
                        assert(pre0[j] == pre1[j]);
                        assert(child_file_rel(pre0, base@, n));
                    }
                }
                assert forall|n: Seq<char>|
                    #[trigger] dir.directories.deep_view().contains(n) implies child_dir_rel(
                    pre1,
                    base@,
                    n,
                ) by {
                    if before_dirs.contains(n) {
                        let j = choose|j: int|
                            0 <= j < pre0.len() && is_prefix((#[trigger] pre0[j]).path, base@)
                                && pre0[j].path.len() > base@.len() && crate::pattern::find_char(
                                rest_under(pre0[j].path, base@),
                                '/',
                                0,
                            ) < rest_under(pre0[j].path, base@).len() && rest_under(
                                pre0[j].path,
                                base@,
                            ).subrange(
                                0,
                                crate::pattern::find_char(rest_under(pre0[j].path, base@), '/', 0),
                            ) == n;
                        assert(pre1[j] == pre0[j]);
                        assert(child_dir_rel(pre1, base@, n));
                    } else {
                        assert(pre1[k - 1] == es[k - 1]);
                        assert(child_dir_rel(pre1, base@, n));
                    }
                }
                assert forall|n: Seq<char>| child_dir_rel(pre1, base@, n) implies #[trigger] dir.directories.deep_view().contains(
                    n,
                ) by {
                    let j = choose|j: int|
                        0 <= j < pre1.len() && is_prefix((#[trigger] pre1[j]).path, base@) && pre1[
                        j].path.len() > base@.len() && crate::pattern::find_char(
                            rest_under(pre1[j].path, base@),
                            '/',
                            0,
                        ) < rest_under(pre1[j].path, base@).len() && rest_under(
                            pre1[j].path,
                            base@,
                        ).subrange(
                            0,
                            crate::pattern::find_char(rest_under(pre1[j].path, base@), '/', 0),
                        ) == n;
                    if j < k - 1 {
                        assert(pre0[j] == pre1[j]);
                        assert(child_dir_rel(pre0, base@, n));
                    }
                }
            }
        }
        proof {
            assert(tar_entries(self.tar_data@) == Option::Some(es));
            assert(es.subrange(0, es.len() as int) =~= es);
        }
        Ok(dir.freeze())
    }

    /// The archive prefix of the directory `path`: the root directory for
    /// the empty path, else the path under the root, each ending in a
    /// separator.
    pub open spec fn dir_base(&self, path: Seq<char>) -> Seq<char> {
        if path.len() == 0 {
            self.full_path(Seq::empty())
        } else {
            self.full_path(path) + "/"@
        }
    }

    fn dir_base_exec(&self, path: &str) -> (r: String)
        ensures
            r@ == self.dir_base(path@),
    {
        let mut s = self.full_path_exec(path);
        if path.unicode_len() > 0 {
            s.append("/");
            proof {
                assert(s@ =~= self.full_path(path@) + "/"@);
            }
        } else {
            proof {
                assert(s@ =~= self.dir_base(path@));
            }
        }
        s
    }
}

} // verus!
