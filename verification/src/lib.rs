//! Verified core of a read-only source-browsing service for a package
//! registry: a bounded LRU cache of fully indexed packages, an index build
//! pipeline over tar archives, and query engines for line ranges, directory
//! listings, declaration lookup and regex line search.
#![allow(unused_imports)]
use vstd::prelude::*;

pub mod indexer;
pub mod auth;
pub mod cache;
pub mod download;
pub mod github;
pub mod lines;
pub mod pattern;
pub mod search;
pub mod syntax;
pub mod tar_reader;
pub mod text;

verus! {

/// Abstract value of a [`CrateVersion`]: the two name components as
/// character sequences.
pub struct CrateVersionKey {
    pub krate: Seq<char>,
    pub version: Seq<char>,
}

/// Name and semantic version of a crate; the cache key.
#[derive(Debug, Clone, PartialEq, Eq, Hash)]
pub struct CrateVersion {
    /// The exact name of the crate.
    pub krate: String,
    /// The semantic version number of the crate.
    pub version: String,
}

impl View for CrateVersion {
    type V = CrateVersionKey;

    open spec fn view(&self) -> CrateVersionKey {
        CrateVersionKey { krate: self.krate@, version: self.version@ }
    }
}

impl CrateVersion {
    /// The top-level directory prefix inside the crate archive,
    /// `"{name}-{version}"`.
    pub fn root_dir(&self) -> (r: String)
        ensures
            r@ == self.krate@ + "-"@ + self.version@,
    {
        let mut s = self.krate.clone();
        s.append("-");
        s.append(self.version.as_str());
        proof {
            assert(s@ == self.krate@ + "-"@ + self.version@) by {
                assert(s@ =~= self.krate@ + "-"@ + self.version@);
            }
        }
        s
    }

    /// Equality of the two components, usable from verified code.
    pub fn same_key(&self, other: &CrateVersion) -> (r: bool)
        ensures
            r == (self@ == other@),
    {
        let r = self.krate.eq(&other.krate) && self.version.eq(&other.version);
        proof {
            if self.krate@ == other.krate@ && self.version@ == other.version@ {
                assert(self@ == other@);
            }
        }
        r
    }
}

/// A crate version together with a path inside its archive.
#[derive(Debug, Clone)]
pub struct CrateVersionPath {
    /// The name and version of the crate.
    pub crate_version: CrateVersion,
    /// The path, relative to the archive root.
    pub path: String,
}

/// An inclusive 1-based line range request; an absent bound is unbounded.
#[derive(Debug, Clone, Copy)]
pub struct FileLineRange {
    /// The first line, 1-based; `None` means from the first line.
    pub start: Option<usize>,
    /// The last line, 1-based and inclusive; `None` means to the last line.
    pub end: Option<usize>,
}

/// Why a query failed.
#[derive(Debug, Clone, Copy, PartialEq, Eq, Structural)]
pub enum CrateError {
    /// The archive's header table could not be read.
    TarUnreadable,
    /// A line-range query was made on a file that is not valid UTF-8.
    BinaryFile,
    /// The search pattern did not compile as a regular expression.
    BadPattern,
    /// A searched line was not valid UTF-8.
    NotUtf8,
}

impl CrateError {
    /// A human-readable description of the error.
    pub fn message(&self) -> (r: &'static str)
        ensures
            r@.len() > 0,
    {
        proof {
            reveal_strlit("failed to read the tar archive");
            reveal_strlit("non-UTF-8 files do not support line-range querying");
            reveal_strlit("the search pattern is not a valid regular expression");
            reveal_strlit("the file holds lines that are not valid UTF-8");
        }
        match self {
            CrateError::TarUnreadable => "failed to read the tar archive",
            CrateError::BinaryFile => "non-UTF-8 files do not support line-range querying",
            CrateError::BadPattern => "the search pattern is not a valid regular expression",
            CrateError::NotUtf8 => "the file holds lines that are not valid UTF-8",
        }
    }
}

// ---------------------------------------------------------------------------
// Sorted name sets and directory listings
// ---------------------------------------------------------------------------
/// The names are in strictly increasing lexicographic order (hence unique).
pub open spec fn strictly_sorted(s: Seq<Seq<char>>) -> bool {
    forall|i: int, j: int| 0 <= i < j < s.len() ==> crate::text::lex_lt(s[i], s[j])
}

/// Insert `x` into the sorted name vector `v`, keeping order and dropping a
/// duplicate.
pub fn sorted_insert(v: &mut Vec<String>, x: String)
    requires
        strictly_sorted(old(v).deep_view()),
    ensures
        strictly_sorted(final(v).deep_view()),
        final(v).deep_view().contains(x@),
        forall|y: Seq<char>|
            #[trigger] final(v).deep_view().contains(y) <==> (old(v).deep_view().contains(y) || y
                == x@),
{
    let ghost vs = v.deep_view();
    let mut idx: usize = 0;
    while idx < v.len() && str_lt_at(v, idx, &x)
        invariant
            vs == v.deep_view(),
            strictly_sorted(vs),
            0 <= idx <= vs.len(),
            forall|i: int| 0 <= i < idx ==> crate::text::lex_lt(vs[i], x@),
        decreases vs.len() - idx,
    {
        idx += 1;
    }
    if idx < v.len() {
        let same = crate::text::str_eq(v[idx].as_str(), x.as_str());
        if same {
            proof {
                assert(v.deep_view()[idx as int] == x@);
                assert(v.deep_view().contains(x@));
                assert(forall|y: Seq<char>|
                    #[trigger] final(v).deep_view().contains(y) <==> (old(
                        v,
                    ).deep_view().contains(y) || y == x@));
            }
            return ;
        }
    }
    proof {
        if idx < vs.len() {
            crate::text::lemma_lex_connected(vs[idx as int], x@);
            assert(crate::text::lex_lt(x@, vs[idx as int]));
        }
    }
    v.insert(idx, x);
    proof {
        let nvs = v.deep_view();
        assert(nvs =~= vs.subrange(0, idx as int) + seq![x@] + vs.subrange(
            idx as int,
            vs.len() as int,
        ));
        assert forall|i: int, j: int| 0 <= i < j < nvs.len() implies crate::text::lex_lt(
            nvs[i],
            nvs[j],
        ) by {
            if i < idx && j == idx {
                assert(nvs[i] == vs[i]);
            } else if i == idx && j > idx {
                assert(nvs[j] == vs[j - 1]);
                if j - 1 > idx {
                    crate::text::lemma_lex_trans(x@, vs[idx as int], vs[j - 1]);
                }
            } else if i < idx && j > idx {
                assert(nvs[i] == vs[i] && nvs[j] == vs[j - 1]);
                if i < j - 1 {
                } else {
                    crate::text::lemma_lex_trans(vs[i], x@, vs[j - 1]);
                }
            } else if i < idx && j < idx {
            } else if i > idx && j > idx {
                assert(nvs[i] == vs[i - 1] && nvs[j] == vs[j - 1]);
            }
        }
        assert(nvs.contains(x@)) by {
            assert(nvs[idx as int] == x@);
        }
        assert forall|y: Seq<char>| #[trigger] nvs.contains(y) implies (vs.contains(y) || y == x@) by {
            let k = choose|k: int| 0 <= k < nvs.len() && nvs[k] == y;
            if k < idx {
                assert(vs[k] == y);
            } else if k > idx {
                assert(vs[k - 1] == y);
            }
        }
        assert forall|y: Seq<char>| vs.contains(y) implies nvs.contains(y) by {
            let k = choose|k: int| 0 <= k < vs.len() && vs[k] == y;
            if k < idx {
                assert(nvs[k] == y);
            } else {
                assert(nvs[k + 1] == y);
            }
        }
    }
}

/// Compare entry `idx` of `v` with `x`; a helper with the borrow written
/// out.
fn str_lt_at(v: &Vec<String>, idx: usize, x: &String) -> (r: bool)
    requires
        idx < v@.len(),
    ensures
        r == crate::text::lex_lt(v.deep_view()[idx as int], x@),
{
    crate::text::str_lt(v[idx].as_str(), x.as_str())
}

/// An immutable directory listing: sorted leaf names of the files and of
/// the subdirectories.
#[derive(Debug, Clone)]
pub struct Directory {
    /// Leaf names of the files in the directory.
    pub files: Vec<String>,
    /// Leaf names of the subdirectories of the directory.
    pub directories: Vec<String>,
}

impl Directory {
    /// Both name sets are strictly sorted.
    pub open spec fn wf(&self) -> bool {
        strictly_sorted(self.files.deep_view()) && strictly_sorted(self.directories.deep_view())
    }

    /// The listing holds no file and no subdirectory.
    pub fn is_empty(&self) -> (r: bool)
        ensures
            r == (self.files@.len() == 0 && self.directories@.len() == 0),
    {
        self.files.is_empty() && self.directories.is_empty()
    }
}

/// A directory listing under construction.
#[derive(Debug)]
pub struct DirectoryMut {
    /// Leaf names of the files seen so far.
    pub files: Vec<String>,
    /// Leaf names of the subdirectories seen so far.
    pub directories: Vec<String>,
}

impl DirectoryMut {
    /// Both name sets are strictly sorted.
    pub open spec fn wf(&self) -> bool {
        strictly_sorted(self.files.deep_view()) && strictly_sorted(self.directories.deep_view())
    }

    /// An empty listing.
    pub fn new() -> (r: DirectoryMut)
        ensures
            r.wf(),
            r.files@.len() == 0,
            r.directories@.len() == 0,
    {
        DirectoryMut { files: Vec::new(), directories: Vec::new() }
    }

    /// The listing holds no file and no subdirectory.
    pub fn is_empty(&self) -> (r: bool)
        ensures
            r == (self.files@.len() == 0 && self.directories@.len() == 0),
    {
        self.files.is_empty() && self.directories.is_empty()
    }

    /// Record a file leaf name.
    pub fn insert_file(&mut self, name: String)
        requires
            old(self).wf(),
        ensures
            final(self).wf(),
            final(self).files.deep_view().contains(name@),
            forall|y: Seq<char>|
                #[trigger] final(self).files.deep_view().contains(y) <==> (old(
                    self,
                ).files.deep_view().contains(y) || y == name@),
            final(self).directories == old(self).directories,
    {
        sorted_insert(&mut self.files, name);
    }

    /// Record a subdirectory leaf name.
    pub fn insert_dir(&mut self, name: String)
        requires
            old(self).wf(),
        ensures
            final(self).wf(),
            final(self).directories.deep_view().contains(name@),
            forall|y: Seq<char>|
                #[trigger] final(self).directories.deep_view().contains(y) <==> (old(
                    self,
                ).directories.deep_view().contains(y) || y == name@),
            final(self).files == old(self).files,
    {
        sorted_insert(&mut self.directories, name);
    }

    /// Freeze the listing into an immutable [`Directory`].
    pub fn freeze(self) -> (r: Directory)
        ensures
            r.files == self.files,
            r.directories == self.directories,
    {
        Directory { files: self.files, directories: self.directories }
    }
}

// ---------------------------------------------------------------------------
// Query and result types
// ---------------------------------------------------------------------------
/// The kinds of declarations the index records, and `All` for a search over
/// every kind.
#[derive(Debug, Clone, Copy, PartialEq, Eq, Structural)]
pub enum ItemType {
    /// Every kind at once.
    All,
    /// A struct definition.
    Struct,
    /// An enum definition.
    Enum,
    /// A trait definition.
    Trait,
    /// A bare `impl` block for a type.
    ImplType,
    /// An `impl Trait for Type` block.
    ImplTraitForType,
    /// A declarative macro with a name binding.
    Macro,
    /// A procedural attribute macro.
    AttributeMacro,
    /// A free function.
    Function,
    /// A type alias.
    TypeAlias,
}

/// An inclusive 1-based range of lines or columns.
#[derive(Debug, Clone, Copy, PartialEq, Eq, Structural)]
pub struct LineRange {
    /// First line or column, 1-based.
    pub start: usize,
    /// Last line or column, 1-based and inclusive.
    pub end: usize,
}

/// A declaration found in a crate.
#[derive(Debug, Clone)]
pub struct Item {
    /// The declared name, in its original case.
    pub name: String,
    /// The kind of the declaration.
    pub type_: ItemType,
    /// The file the declaration stands in.
    pub file: String,
    /// The 1-based inclusive line range of the declaration, extended
    /// leftward over its documentation comments.
    pub line_range: LineRange,
}

impl Item {
    /// Line numbers are 1-based and ordered.
    pub open spec fn wf(&self) -> bool {
        1 <= self.line_range.start <= self.line_range.end
    }
}

/// A declaration search query.
#[derive(Debug, Clone)]
pub struct ItemQuery {
    /// The kind searched for, or `All`.
    pub type_: ItemType,
    /// The name fragment searched for, matched case-insensitively.
    pub query: String,
    /// An optional path-component prefix restricting the files searched.
    pub path: Option<String>,
}

/// Plain-text or regular-expression matching.
#[derive(Debug, Clone, Copy, PartialEq, Eq, Structural)]
pub enum SearchMode {
    /// The query is matched literally.
    PlainText,
    /// The query is a regular expression.
    Regex,
}

/// A line-content search query.
#[derive(Debug, Clone)]
pub struct LineQuery {
    /// The text or pattern searched for.
    pub query: String,
    /// Literal or regular-expression matching.
    pub mode: SearchMode,
    /// Whether matching distinguishes case.
    pub case_sensitive: bool,
    /// Whether matches must stand on word boundaries.
    pub whole_word: bool,
    /// An upper bound on the number of results; `None` is unbounded.
    pub max_results: Option<usize>,
    /// A comma-separated list of file extensions to search; empty means no
    /// filter.
    pub file_ext: String,
    /// An optional path-component prefix restricting the files searched.
    pub path: Option<String>,
}

/// One matching line of a line-content search.
#[derive(Debug, Clone)]
pub struct Line {
    /// The text of the line, without its terminator.
    pub line: String,
    /// The file the line stands in.
    pub file: String,
    /// The 1-based line number.
    pub line_number: usize,
    /// 1-based byte columns of the first match in the line: start of the
    /// match, and one past its end.
    pub column_range: LineRange,
}

} // verus!
