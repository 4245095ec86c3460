//! The data model of the external code-hosting collaborator and the
//! verified parts of its client: URL construction and the conversion of
//! listing entries into a directory.
#![allow(unused_imports)]
use vstd::prelude::*;
use vstd::string::*;

use crate::{Directory, DirectoryMut};

verus! {

/// A repository of the external code-hosting service.
#[derive(Debug, Clone)]
pub struct Repository {
    /// The owner of the repository.
    pub owner: String,
    /// The name of the repository.
    pub repo: String,
}

/// A repository and a path inside it.
#[derive(Debug, Clone)]
pub struct RepositoryPath {
    /// The repository.
    pub repo: Repository,
    /// The path.
    pub path: String,
}

/// A repository and an issue number.
#[derive(Debug, Clone)]
pub struct RepositoryIssue {
    /// The repository.
    pub repo: Repository,
    /// The issue number.
    pub number: u64,
}

/// The query string of an issue search.
#[derive(Debug, Clone)]
pub struct IssueQuery {
    /// The query string.
    pub query: String,
}

impl IssueQuery {
    /// The query string itself.
    pub fn query_str(&self) -> (r: &str)
        ensures
            r@ == self.query@,
    {
        self.query.as_str()
    }
}

/// An issue of the upstream service.
#[derive(Debug, Clone)]
pub struct Issue {
    /// The issue number.
    pub number: u64,
    /// The title of the issue.
    pub title: String,
    /// The web address of the issue.
    pub url: String,
    /// The state of the issue.
    pub state: String,
    /// The body text, if any.
    pub body: Option<String>,
}

/// What an issue search of the upstream service answers.
#[derive(Debug, Clone)]
pub struct SearchIssuesResponse {
    /// The issues found.
    pub items: Vec<Issue>,
}

/// One event of an issue's timeline.
#[derive(Debug, Clone)]
pub struct IssueEvent {
    /// The event type.
    pub event: String,
    /// The actor of the event.
    pub actor: Option<Actor>,
    /// The author of the event.
    pub author: Option<Author>,
    /// When the event was created.
    pub created_at: Option<String>,
    /// The body of the event.
    pub body: Option<String>,
}

/// A user acting on an issue.
#[derive(Debug, Clone)]
pub struct Actor {
    /// The login name.
    pub login: String,
    /// The avatar address.
    pub avatar_url: String,
}

/// The author of a commit or comment.
#[derive(Debug, Clone)]
pub struct Author {
    /// The author's email.
    pub email: String,
    /// The author's name.
    pub name: String,
}

/// The address of the content listing for a path of a repository.
pub fn build_file_url(repo: &Repository, path: &str) -> (r: String)
    ensures
        r@ == "https://api.github.com/repos/"@ + repo.owner@ + "/"@ + repo.repo@ + "/contents/"@
            + path@,
{
    let mut s = String::from_str("https://api.github.com/repos/");
    s.append(repo.owner.as_str());
    s.append("/");
    s.append(repo.repo.as_str());
    s.append("/contents/");
    s.append(path);
    proof {
        assert(s@ =~= "https://api.github.com/repos/"@ + repo.owner@ + "/"@ + repo.repo@
            + "/contents/"@ + path@);
    }
    s
}

/// The address of an issue search over a repository.
pub fn build_issue_search_url(repo: &Repository, keyword: &str) -> (r: String)
    ensures
        r@ == "https://api.github.com/search/issues?q="@ + keyword@ + "+repo:"@ + repo.owner@
            + "/"@ + repo.repo@,
{
    let mut s = String::from_str("https://api.github.com/search/issues?q=");
    s.append(keyword);
    s.append("+repo:");
    s.append(repo.owner.as_str());
    s.append("/");
    s.append(repo.repo.as_str());
    proof {
        assert(s@ =~= "https://api.github.com/search/issues?q="@ + keyword@ + "+repo:"@
            + repo.owner@ + "/"@ + repo.repo@);
    }
    s
}

/// One entry of an upstream directory listing, reduced to plain values.
#[derive(Debug, Clone)]
pub struct ListingEntry {
    /// The kind the service reports: a file, a directory, or something
    /// else.
    pub kind: String,
    /// The leaf name of the entry.
    pub name: String,
}

/// Build a directory from an upstream listing: entries of kind `file`
/// become files, entries of kind `dir` subdirectories, anything else is
/// dropped.
pub fn directory_from_entries(entries: &Vec<ListingEntry>) -> (r: Directory)
    ensures
        r.wf(),
        forall|n: Seq<char>|
            #[trigger] r.files.deep_view().contains(n) <==> exists|i: int|
                0 <= i < entries@.len() && (#[trigger] entries@[i]).kind@ == "file"@
                    && entries@[i].name@ == n,
        forall|n: Seq<char>|
            #[trigger] r.directories.deep_view().contains(n) <==> exists|i: int|
                0 <= i < entries@.len() && (#[trigger] entries@[i]).kind@ == "dir"@
                    && entries@[i].name@ == n,
{
    let mut dir = DirectoryMut::new();
    let mut i: usize = 0;
    while i < entries.len()
        invariant
            0 <= i <= entries@.len(),
            dir.wf(),
            forall|n: Seq<char>|
                #[trigger] dir.files.deep_view().contains(n) <==> exists|j: int|
                    0 <= j < i && (#[trigger] entries@[j]).kind@ == "file"@ && entries@[j].name@
                        == n,
            forall|n: Seq<char>|
                #[trigger] dir.directories.deep_view().contains(n) <==> exists|j: int|
                    0 <= j < i && (#[trigger] entries@[j]).kind@ == "dir"@ && entries@[j].name@
                        == n,
        decreases entries@.len() - i,
    {
        let e = &entries[i];
        if crate::text::str_eq(e.kind.as_str(), "file") {
            dir.insert_file(e.name.clone());
        } else if crate::text::str_eq(e.kind.as_str(), "dir") {
            dir.insert_dir(e.name.clone());
        }
        i += 1;
        proof {
            reveal_strlit("file");
            reveal_strlit("dir");
            assert("file"@.len() == 4);
            assert("dir"@.len() == 3);
            assert("file"@ != "dir"@);
            assert forall|n: Seq<char>| #[trigger] dir.files.deep_view().contains(n) implies exists|
                j: int,
            | 0 <= j < i && (#[trigger] entries@[j]).kind@ == "file"@ && entries@[j].name@ == n by {
                if entries@[i - 1].kind@ == "file"@ && entries@[i - 1].name@ == n {
                } else {
                    let j = choose|j: int|
                        0 <= j < i - 1 && (#[trigger] entries@[j]).kind@ == "file"@ && entries@[
                        j].name@ == n;
                    assert(0 <= j < i && entries@[j].kind@ == "file"@ && entries@[j].name@ == n);
                }
            }
            assert forall|n: Seq<char>|
                #[trigger] dir.directories.deep_view().contains(n) implies exists|j: int|
                0 <= j < i && (#[trigger] entries@[j]).kind@ == "dir"@ && entries@[j].name@ == n by {
                if entries@[i - 1].kind@ == "dir"@ && entries@[i - 1].name@ == n {
                } else {
                    let j = choose|j: int|
                        0 <= j < i - 1 && (#[trigger] entries@[j]).kind@ == "dir"@ && entries@[
                        j].name@ == n;
                    assert(0 <= j < i && entries@[j].kind@ == "dir"@ && entries@[j].name@ == n);
                }
            }
        }
    }
    dir.freeze()
}

} // verus!
