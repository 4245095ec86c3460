//! Building an indexed package from the entries of a tar archive: the
//! buffer and file index, the parent-closed directory index, and the
//! declaration index, with the directory-closure law.
#![allow(unused_imports)]
use vstd::prelude::*;

use crate::cache::{
    dir_at, dirm_at, dirs_unique, dirs_wf, dirsm_unique, dirsm_wf, file_at, files_unique, has_dir,
    has_dirm, has_file, ByteRange, Crate, CrateFileDataDesc, CrateFileDataType, CrateTar, DirEntry,
    DirMutEntry, FileEntry,
};
use crate::search::SearchIndexBuilder;
use crate::tar_reader::{read_tar_entries, tar_entries, TarEntry, TarEntryView};
use crate::text::{
    bytes_to_string, extension_str, is_prefix, is_valid_utf8, leaf_of, leaf_str,
    lemma_last_index_of, parent_of, parent_str, path_starts_with, str_ascii_ieq, str_starts_with,
};
use crate::{CrateError, CrateVersion, Directory, DirectoryMut};
use vstd::utf8::valid_utf8;

verus! {

/// The parent of a non-empty path is strictly shorter.
pub proof fn lemma_parent_shorter(p: Seq<char>)
    requires
        p.len() > 0,
    ensures
        parent_of(p).len() < p.len(),
{
    lemma_last_index_of(p, '/');
}

/// A path lies under its own parent directory.
pub proof fn lemma_parent_prefix(p: Seq<char>)
    ensures
        path_starts_with(p, parent_of(p)),
{
    lemma_last_index_of(p, '/');
}

/// The entry contributes a file: a regular file whose path lies strictly
/// under the root prefix and whose first component is not empty (a path
/// with a doubled separator right after the root is malformed and
/// skipped).
pub open spec fn entry_taken(e: TarEntryView, prefix: Seq<char>) -> bool {
    &&& e.is_file
    &&& is_prefix(e.path, prefix)
    &&& e.path.len() > prefix.len()
    &&& e.path[prefix.len() as int] != '/'
}

/// The entry's path with the root prefix removed.
pub open spec fn strip_prefix(p: Seq<char>, plen: int) -> Seq<char> {
    p.subrange(plen, p.len() as int)
}

/// The file entry `f` records exactly what archive entry `e` held: the
/// prefixed path, the bytes (as a live range of the buffer), and the
/// encoding classification.
pub open spec fn file_from_entry(
    f: FileEntry,
    data: Seq<u8>,
    e: TarEntryView,
    prefix: Seq<char>,
) -> bool {
    &&& e.is_file
    &&& e.path == prefix + f.path@
    &&& f.desc.range.lo <= f.desc.range.hi <= data.len()
    &&& data.subrange(f.desc.range.lo as int, f.desc.range.hi as int) == e.data
    &&& (f.desc.data_type == CrateFileDataType::Utf8 <==> valid_utf8(e.data))
}

/// Index of the first archive entry at or after `i` that contributes the
/// file `p`: a regular file strictly under the prefix whose stripped path
/// is `p`; the number of entries when there is none.
pub open spec fn first_contrib(es: Seq<TarEntryView>, prefix: Seq<char>, p: Seq<char>, i: int) -> int
    decreases es.len() - i,
{
    if i < 0 {
        first_contrib(es, prefix, p, 0)
    } else if i >= es.len() {
        es.len() as int
    } else if entry_taken(es[i], prefix) && strip_prefix(es[i].path, prefix.len() as int) == p {
        i
    } else {
        first_contrib(es, prefix, p, i + 1)
    }
}

/// The file entry records exactly the first archive entry that contributes
/// its path: on duplicate paths inside one archive the first entry stands.
pub open spec fn file_records(
    f: FileEntry,
    data: Seq<u8>,
    es: Seq<TarEntryView>,
    prefix: Seq<char>,
) -> bool {
    let w = first_contrib(es, prefix, f.path@, 0);
    &&& w < es.len()
    &&& file_from_entry(f, data, es[w], prefix)
}

/// Every file of the index records the first archive entry of its path.
pub open spec fn files_sound(
    files: Seq<FileEntry>,
    data: Seq<u8>,
    entries: Seq<TarEntryView>,
    prefix: Seq<char>,
) -> bool {
    forall|i: int| 0 <= i < files.len() ==> file_records(#[trigger] files[i], data, entries, prefix)
}

/// A search for the first contributing entry passes over indices that do
/// not contribute.
proof fn lemma_first_contrib_from(es: Seq<TarEntryView>, prefix: Seq<char>, p: Seq<char>, k: int)
    requires
        0 <= k <= es.len(),
        forall|j: int|
            0 <= j < k ==> !(entry_taken(#[trigger] es[j], prefix) && strip_prefix(
                es[j].path,
                prefix.len() as int,
            ) == p),
    ensures
        first_contrib(es, prefix, p, 0) == first_contrib(es, prefix, p, k),
    decreases k,
{
    if k > 0 {
        lemma_first_contrib_from(es, prefix, p, k - 1);
    }
}

/// Every archive entry that contributes a file is in the index.
pub open spec fn files_complete(
    files: Seq<FileEntry>,
    entries: Seq<TarEntryView>,
    prefix: Seq<char>,
) -> bool {
    forall|k: int|
        0 <= k < entries.len() && entry_taken(#[trigger] entries[k], prefix) ==> has_file(
            files,
            strip_prefix(entries[k].path, prefix.len() as int),
        )
}

/// Every file of the index is listed in its parent directory.
pub open spec fn files_linked(files: Seq<FileEntry>, dirs: Seq<DirMutEntry>) -> bool {
    forall|i: int|
        0 <= i < files.len() ==> has_dirm(dirs, parent_of((#[trigger] files[i]).path@)) && dirm_at(
            dirs,
            parent_of(files[i].path@),
        ).dir.files.deep_view().contains(leaf_of(files[i].path@))
}

/// With unique keys, the entry the index holds for key `q` is the one at
/// any index whose path is `q`.
proof fn lemma_dirm_at(dirs: Seq<DirMutEntry>, i: int)
    requires
        dirsm_unique(dirs),
        0 <= i < dirs.len(),
    ensures
        dirm_at(dirs, dirs[i].path@) == dirs[i],
        has_dirm(dirs, dirs[i].path@),
{
    let q = dirs[i].path@;
    assert(has_dirm(dirs, q));
    let w = choose|w: int| 0 <= w < dirs.len() && dirs[w].path@ == q;
    assert(w == i);
}

/// Ensure `path` and all its ancestors stand in the directory index, each
/// listed as a subdirectory of its parent. Existing listings keep their
/// files and lose no subdirectory.
fn ensure_dir_chain(dirs: &mut Vec<DirMutEntry>, path: String)
    requires
        dirsm_wf(old(dirs)@),
        path@.len() == 0 || path@[0] != '/',
    ensures
        dirsm_wf(final(dirs)@),
        has_dirm(final(dirs)@, path@),
        forall|q: Seq<char>|
            #[trigger] has_dirm(final(dirs)@, q) && !has_dirm(old(dirs)@, q) ==> dirm_at(
                final(dirs)@,
                q,
            ).dir.files@.len() == 0,
        forall|q: Seq<char>|
            #[trigger] has_dirm(old(dirs)@, q) ==> has_dirm(final(dirs)@, q) && dirm_at(
                final(dirs)@,
                q,
            ).dir.files == dirm_at(old(dirs)@, q).dir.files && (forall|y: Seq<char>|
                #[trigger] dirm_at(old(dirs)@, q).dir.directories.deep_view().contains(y)
                    ==> dirm_at(final(dirs)@, q).dir.directories.deep_view().contains(y)),
        forall|q: Seq<char>|
            #[trigger] has_dirm(final(dirs)@, q) ==> has_dirm(old(dirs)@, q) || q.len()
                <= path@.len(),
        forall|q: Seq<char>|
            #[trigger] has_dirm(final(dirs)@, q) ==> has_dirm(old(dirs)@, q) || path_starts_with(
                path@,
                q,
            ),
    decreases path@.len(),
{
    let ghost old_dirs = dirs@;
    if find_dirm_idx_b(dirs, path.as_str()).is_some() {
        return ;
    }
    if path.as_str().is_empty() {
        dirs.push(DirMutEntry { path, dir: DirectoryMut::new() });
        proof {
            let nd = dirs@;
            assert(nd.drop_last() =~= old_dirs);
            assert forall|q: Seq<char>| #[trigger] has_dirm(old_dirs, q) implies has_dirm(nd, q)
                && dirm_at(nd, q).dir.files == dirm_at(old_dirs, q).dir.files && (forall|
                y: Seq<char>,
            |
                #[trigger] dirm_at(old_dirs, q).dir.directories.deep_view().contains(y) ==> dirm_at(
                    nd,
                    q,
                ).dir.directories.deep_view().contains(y)) by {
                let w = choose|w: int| 0 <= w < old_dirs.len() && old_dirs[w].path@ == q;
                assert(nd[w] == old_dirs[w]);
                lemma_dirm_at(nd, w);
                lemma_dirm_at(old_dirs, w);
            }
            assert forall|i: int|
                0 <= i < nd.len() && (#[trigger] nd[i]).path@.len() > 0 implies has_dirm(
                nd,
                parent_of(nd[i].path@),
            ) && dirm_at(nd, parent_of(nd[i].path@)).dir.directories.deep_view().contains(
                leaf_of(nd[i].path@),
            ) by {
                assert(i < old_dirs.len());
                assert(nd[i] == old_dirs[i]);
                let pq = parent_of(old_dirs[i].path@);
                let w = choose|w: int| 0 <= w < old_dirs.len() && old_dirs[w].path@ == pq;
                assert(nd[w] == old_dirs[w]);
                lemma_dirm_at(nd, w);
                lemma_dirm_at(old_dirs, w);
            }
            assert(has_dirm(dirs@, path@)) by {
                assert(dirs@[dirs@.len() - 1].path@ == path@);
            }
            assert(path@ =~= Seq::<char>::empty());
            assert forall|a: int, b: int| 0 <= a < b < nd.len() implies nd[a].path@ != nd[b].path@ by {
                if b < nd.len() - 1 {
                    assert(nd[a] == old_dirs[a] && nd[b] == old_dirs[b]);
                } else {
                    assert(nd[a] == old_dirs[a]);
                    if nd[a].path@ == path@ {
                        lemma_dirm_at(old_dirs, a);
                    }
                }
            }
            assert(has_dirm(nd, Seq::<char>::empty()));
            // the pushed root lists nothing yet; the reverse clause carries over
            assert(nd[nd.len() - 1].dir.directories@.len() == 0);
            assert forall|i: int, n: Seq<char>|
                0 <= i < nd.len() && (#[trigger] nd[i].dir.directories.deep_view().contains(
                    n,
                )) implies has_dirm(nd, crate::text::join_path(nd[i].path@, n)) by {
                assert(i < old_dirs.len());
                assert(nd[i] == old_dirs[i]);
                let jp = crate::text::join_path(old_dirs[i].path@, n);
                let w = choose|w: int| 0 <= w < old_dirs.len() && old_dirs[w].path@ == jp;
                assert(nd[w].path@ == jp);
            }
            assert forall|q: Seq<char>|
                #[trigger] has_dirm(nd, q) && !has_dirm(old_dirs, q) implies dirm_at(
                nd,
                q,
            ).dir.files@.len() == 0 by {
                let w = choose|w: int| 0 <= w < nd.len() && nd[w].path@ == q;
                if w < old_dirs.len() {
                    assert(old_dirs[w].path@ == q);
                } else {
                    lemma_dirm_at(nd, w);
                }
            }
            assert forall|q: Seq<char>|
                #[trigger] has_dirm(nd, q) && !has_dirm(old_dirs, q) implies path_starts_with(
                path@,
                q,
            ) by {
                let w = choose|w: int| 0 <= w < nd.len() && nd[w].path@ == q;
                if w < old_dirs.len() {
                    assert(old_dirs[w].path@ == q);
                } else {
                    assert(q == path@);
                }
            }
        }
        return ;
    }
    let parent = parent_str(path.as_str());
    proof {
        lemma_parent_shorter(path@);
        // the parent starts with the same character, so no leading separator
        crate::text::lemma_last_index_of(path@, '/');
        assert(parent@.len() == 0 || parent@[0] != '/');
    }
    ensure_dir_chain(dirs, parent.clone());
    let ghost mid = dirs@;
    let lf = leaf_str(path.as_str());
    let i = match find_dirm_idx_b(dirs, parent.as_str()) {
        Option::Some(i) => i,
        Option::None => {
            proof {
                assert(false);
            }
            0
        },
    };
    let mut entry = dirs.remove(i);
    entry.dir.insert_dir(lf);
    let ghost newdir = entry.dir;
    dirs.insert(i, entry);
    proof {
        assert(dirs@ =~= mid.update(i as int, DirMutEntry { path: mid[i as int].path, dir: newdir }));
    }
    let ghost mid2 = dirs@;
    dirs.push(DirMutEntry { path, dir: DirectoryMut::new() });
    proof {
        let nd = dirs@;
        let ghost pathv = nd[nd.len() - 1].path@;
        assert(nd.drop_last() =~= mid2);
        // keys of mid2 equal keys of mid; path itself is new
        assert(forall|j: int| 0 <= j < mid2.len() ==> (#[trigger] mid2[j]).path@ == mid[j].path@);
        assert(!has_dirm(mid, pathv)) by {
            if has_dirm(mid, pathv) {
                assert(has_dirm(old_dirs, pathv) || pathv.len() <= parent@.len());
                lemma_parent_shorter(pathv);
            }
        }
        // uniqueness
        assert forall|a: int, b: int| 0 <= a < b < nd.len() implies nd[a].path@ != nd[b].path@ by {
            if b < nd.len() - 1 {
                assert(mid2[a].path@ == mid[a].path@ && mid2[b].path@ == mid[b].path@);
            } else {
                assert(nd[b].path@ == pathv);
                if nd[a].path@ == pathv {
                    assert(mid[a].path@ == pathv);
                    lemma_dirm_at(mid, a);
                }
            }
        }
        // every listing is sorted
        assert(forall|j: int| 0 <= j < nd.len() ==> (#[trigger] nd[j]).dir.wf());
        // parent closure
        assert forall|j: int|
            0 <= j < nd.len() && (#[trigger] nd[j]).path@.len() > 0 implies has_dirm(
            nd,
            parent_of(nd[j].path@),
        ) && dirm_at(nd, parent_of(nd[j].path@)).dir.directories.deep_view().contains(
            leaf_of(nd[j].path@),
        ) by {
            if j == nd.len() - 1 {
                // the pushed entry: its parent is at index i and now lists it
                assert(nd[i as int].path@ == parent@);
                lemma_dirm_at(nd, i as int);
                assert(nd[i as int].dir == newdir);
                assert(newdir.directories.deep_view().contains(leaf_of(pathv)));
            } else if j == i {
                // the updated parent entry: key unchanged, chain as in `mid`
                assert(mid[j].path@ == nd[j].path@);
                if nd[j].path@.len() > 0 {
                    let pq = parent_of(mid[j].path@);
                    let w = choose|w: int| 0 <= w < mid.len() && mid[w].path@ == pq;
                    lemma_dirm_at(mid, w);
                    lemma_dirm_at(mid, j);
                    if w == j {
                        lemma_dirm_at(nd, j);
                        assert(dirm_at(nd, pq).dir.directories.deep_view().contains(
                            leaf_of(nd[j].path@),
                        ));
                    } else {
                        assert(nd[w] == mid[w]);
                        lemma_dirm_at(nd, w);
                    }
                }
            } else {
                assert(nd[j] == mid[j]);
                let pq = parent_of(mid[j].path@);
                let w = choose|w: int| 0 <= w < mid.len() && mid[w].path@ == pq;
                lemma_dirm_at(mid, w);
                lemma_dirm_at(mid, j);
                if w == i {
                    lemma_dirm_at(nd, i as int);
                    assert(nd[i as int].dir == newdir);
                    assert(forall|y: Seq<char>|
                        mid[i as int].dir.directories.deep_view().contains(y)
                            ==> #[trigger] newdir.directories.deep_view().contains(y));
                } else {
                    assert(nd[w] == mid[w]);
                    lemma_dirm_at(nd, w);
                }
            }
        }
        // root present
        assert(has_dirm(nd, Seq::<char>::empty())) by {
            assert(has_dirm(mid, Seq::<char>::empty()));
            let w = choose|w: int| 0 <= w < mid.len() && mid[w].path@ =~= Seq::<char>::empty();
            assert(nd[w].path@ == mid[w].path@);
        }
        assert(has_dirm(nd, pathv)) by {
            assert(nd[nd.len() - 1].path@ == pathv);
        }
        // preservation from old to final
        assert forall|q: Seq<char>| #[trigger] has_dirm(old_dirs, q) implies has_dirm(nd, q)
            && dirm_at(nd, q).dir.files == dirm_at(old_dirs, q).dir.files && (forall|y: Seq<char>|
            #[trigger] dirm_at(old_dirs, q).dir.directories.deep_view().contains(y) ==> dirm_at(
                nd,
                q,
            ).dir.directories.deep_view().contains(y)) by {
            assert(has_dirm(mid, q));
            let w = choose|w: int| 0 <= w < mid.len() && mid[w].path@ == q;
            lemma_dirm_at(mid, w);
            assert(nd[w].path@ == q);
            lemma_dirm_at(nd, w);
            if w == i {
                assert(nd[w].dir == newdir);
            } else {
                assert(nd[w] == mid[w]);
            }
        }
        // the reverse clause: every listed subdirectory name joins to a key
        assert(crate::text::join_path(parent@, leaf_of(pathv)) == pathv) by {
            crate::text::lemma_join_parent_leaf(pathv);
        }
        assert forall|j: int, n: Seq<char>|
            0 <= j < nd.len() && (#[trigger] nd[j].dir.directories.deep_view().contains(
                n,
            )) implies has_dirm(nd, crate::text::join_path(nd[j].path@, n)) by {
            if j == nd.len() - 1 {
                assert(nd[j].dir.directories@.len() == 0);
            } else if j == i {
                assert(nd[j].dir == newdir);
                assert(nd[j].path@ == parent@);
                if n == leaf_of(pathv) {
                    assert(has_dirm(nd, pathv));
                } else {
                    assert(mid[i as int].dir.directories.deep_view().contains(n));
                    lemma_dirm_at(mid, i as int);
                    let jp = crate::text::join_path(mid[i as int].path@, n);
                    let w = choose|w: int| 0 <= w < mid.len() && mid[w].path@ == jp;
                    assert(nd[w].path@ == jp);
                }
            } else {
                assert(nd[j] == mid[j]);
                lemma_dirm_at(mid, j);
                let jp = crate::text::join_path(mid[j].path@, n);
                let w = choose|w: int| 0 <= w < mid.len() && mid[w].path@ == jp;
                assert(nd[w].path@ == jp);
            }
        }
        // fresh directories hold no files yet
        assert forall|q: Seq<char>|
            #[trigger] has_dirm(nd, q) && !has_dirm(old_dirs, q) implies dirm_at(
            nd,
            q,
        ).dir.files@.len() == 0 by {
            let w = choose|w: int| 0 <= w < nd.len() && nd[w].path@ == q;
            lemma_dirm_at(nd, w);
            if w == nd.len() - 1 {
                assert(nd[w].dir.files@.len() == 0);
            } else {
                assert(mid[w].path@ == q);
                lemma_dirm_at(mid, w);
                assert(has_dirm(mid, q) && !has_dirm(old_dirs, q));
                assert(dirm_at(mid, q).dir.files@.len() == 0);
                if w == i {
                    assert(nd[w].dir.files == mid[w].dir.files);
                } else {
                    assert(nd[w] == mid[w]);
                }
            }
        }
        // fresh keys are component-prefixes of `path`
        assert(path_starts_with(pathv, parent@)) by {
            lemma_parent_prefix(pathv);
        }
        assert forall|q: Seq<char>| #[trigger] has_dirm(nd, q) implies has_dirm(old_dirs, q)
            || path_starts_with(pathv, q) by {
            if q != pathv {
                let w = choose|w: int| 0 <= w < nd.len() && nd[w].path@ == q;
                assert(w < mid2.len());
                assert(mid[w].path@ == q);
                lemma_dirm_at(mid, w);
                if !has_dirm(old_dirs, q) {
                    assert(path_starts_with(parent@, q));
                    lemma_path_prefix_trans(pathv, parent@, q);
                }
            } else {
                assert(path_starts_with(pathv, q));
            }
        }
        // no key longer than `path` is new
        assert forall|q: Seq<char>| #[trigger] has_dirm(nd, q) implies has_dirm(old_dirs, q)
            || q.len() <= pathv.len() by {
            if q != pathv {
                let w = choose|w: int| 0 <= w < nd.len() && nd[w].path@ == q;
                assert(w < mid2.len());
                assert(mid[w].path@ == q);
                lemma_dirm_at(mid, w);
                assert(has_dirm(old_dirs, q) || q.len() <= parent@.len());
                lemma_parent_shorter(pathv);
            }
        }
    }
}

/// Append `src` to the byte buffer.
fn append_bytes(data: &mut Vec<u8>, src: &[u8])
    ensures
        final(data)@ == old(data)@ + src@,
{
    let mut i: usize = 0;
    while i < src.len()
        invariant
            0 <= i <= src@.len(),
            data@ == old(data)@ + src@.subrange(0, i as int),
        decreases src@.len() - i,
    {
        data.push(src[i]);
        proof {
            assert(data@ =~= old(data)@ + src@.subrange(0, i + 1));
        }
        i += 1;
    }
    proof {
        assert(old(data)@ + src@.subrange(0, src@.len() as int) =~= old(data)@ + src@);
    }
}

/// With unique keys, the frozen entry the index holds for a key is the one
/// at any index with that key.
pub proof fn lemma_dir_at(dirs: Seq<DirEntry>, i: int)
    requires
        dirs_unique(dirs),
        0 <= i < dirs.len(),
    ensures
        dir_at(dirs, dirs[i].path@) == dirs[i],
        has_dir(dirs, dirs[i].path@),
{
    let q = dirs[i].path@;
    assert(has_dir(dirs, q));
    let w = choose|w: int| 0 <= w < dirs.len() && dirs[w].path@ == q;
    assert(w == i);
}

/// A sound file index stays sound when the buffer grows at its end.
proof fn lemma_sound_grow(
    files: Seq<FileEntry>,
    data0: Seq<u8>,
    data1: Seq<u8>,
    entries: Seq<TarEntryView>,
    prefix: Seq<char>,
)
    requires
        files_sound(files, data0, entries, prefix),
        data0.is_prefix_of(data1),
    ensures
        files_sound(files, data1, entries, prefix),
{
    assert forall|i: int| 0 <= i < files.len() implies file_records(
        #[trigger] files[i],
        data1,
        entries,
        prefix,
    ) by {
        let w = first_contrib(entries, prefix, files[i].path@, 0);
        assert(file_from_entry(files[i], data0, entries[w], prefix));
        assert(data1.subrange(files[i].desc.range.lo as int, files[i].desc.range.hi as int)
            =~= data0.subrange(files[i].desc.range.lo as int, files[i].desc.range.hi as int));
        assert(file_from_entry(files[i], data1, entries[w], prefix));
    }
}

/// A sound file index admits a new file that records the first entry of
/// its path.
proof fn lemma_sound_push(
    files: Seq<FileEntry>,
    f: FileEntry,
    data: Seq<u8>,
    entries: Seq<TarEntryView>,
    prefix: Seq<char>,
)
    requires
        files_sound(files, data, entries, prefix),
        file_records(f, data, entries, prefix),
    ensures
        files_sound(files.push(f), data, entries, prefix),
{
    let nf = files.push(f);
    assert forall|i: int| 0 <= i < nf.len() implies file_records(
        #[trigger] nf[i],
        data,
        entries,
        prefix,
    ) by {
        if i < files.len() {
            assert(nf[i] == files[i]);
        } else {
            assert(nf[i] == f);
        }
    }
}

/// A complete file index stays complete for one more entry that is either
/// not taken or already present, and under any growth of its key set.
proof fn lemma_complete_extend(
    files0: Seq<FileEntry>,
    files1: Seq<FileEntry>,
    entries: Seq<TarEntryView>,
    prefix: Seq<char>,
    k: int,
)
    requires
        0 <= k < entries.len(),
        files_complete(files0, entries.subrange(0, k), prefix),
        forall|q: Seq<char>| #[trigger] has_file(files0, q) ==> has_file(files1, q),
        entry_taken(entries[k], prefix) ==> has_file(
            files1,
            strip_prefix(entries[k].path, prefix.len() as int),
        ),
    ensures
        files_complete(files1, entries.subrange(0, k + 1), prefix),
{
    assert forall|w: int|
        0 <= w < k + 1 && entry_taken(#[trigger] entries.subrange(0, k + 1)[w], prefix) implies has_file(
        files1,
        strip_prefix(entries.subrange(0, k + 1)[w].path, prefix.len() as int),
    ) by {
        assert(entries.subrange(0, k + 1)[w] == entries[w]);
        if w < k {
            assert(entries.subrange(0, k)[w] == entries[w]);
            assert(has_file(files0, strip_prefix(entries[w].path, prefix.len() as int)));
        }
    }
}

/// A pushed file entry keeps every key.
proof fn lemma_has_file_push(files: Seq<FileEntry>, f: FileEntry)
    ensures
        forall|q: Seq<char>| #[trigger] has_file(files, q) ==> has_file(files.push(f), q),
        has_file(files.push(f), f.path@),
{
    let nf = files.push(f);
    assert forall|q: Seq<char>| #[trigger] has_file(files, q) implies has_file(nf, q) by {
        let u = choose|u: int| 0 <= u < files.len() && files[u].path@ == q;
        assert(nf[u].path@ == q);
    }
    assert(nf[nf.len() - 1].path@ == f.path@);
}

/// Build the indexed package from the archive entries: concatenate the
/// regular files under the root prefix into one buffer, classify each
/// file's encoding, index source files' declarations, and close the
/// directory index under parents. On a duplicate path the first entry
/// wins.
#[verifier::rlimit(100)]
#[verifier::spinoff_prover]
pub fn build_from_entries(prefix: &String, entries: &Vec<TarEntry>) -> (r: Crate)
    ensures
        r.wf(),
        files_complete(r.files_index@, entries.deep_view(), prefix@),
        files_sound(r.files_index@, r.data@, entries.deep_view(), prefix@),
        index_records(r.item_search_index, tagged_decls(r.files_index@, r.data@)),
{
    let mut data: Vec<u8> = Vec::new();
    let mut files: Vec<FileEntry> = Vec::new();
    let mut dirs: Vec<DirMutEntry> = Vec::new();
    let mut builder = SearchIndexBuilder::new();
    let plen = prefix.as_str().unicode_len();
    let ghost eview = entries.deep_view();
    proof {
        assert(tagged_decls(files@, data@) == Seq::<DeclOfFile>::empty());
        crate::search::lemma_index_filled_refl(builder.index, Seq::<char>::empty());
        assert(index_records(builder.index, tagged_decls(files@, data@))) by {
            crate::search::lemma_index_filled_refl(builder.index, Seq::<char>::empty());
            lemma_index_records_step(
                builder.index,
                builder.index,
                Seq::<DeclOfFile>::empty(),
                Seq::<crate::syntax::RawItemView>::empty(),
                Seq::<char>::empty(),
            );
            assert(tag_decls(Seq::<crate::syntax::RawItemView>::empty(), Seq::<char>::empty())
                =~= Seq::<DeclOfFile>::empty());
            assert(Seq::<DeclOfFile>::empty() + Seq::<DeclOfFile>::empty() =~= Seq::<
                DeclOfFile,
            >::empty());
        }
    }
    let mut k: usize = 0;
    while k < entries.len()
        invariant
            plen == prefix@.len(),
            eview == entries.deep_view(),
            eview.len() == entries@.len(),
            0 <= k <= entries@.len(),
            files_unique(files@),
            forall|i: int|
                0 <= i < files@.len() ==> (#[trigger] files@[i]).desc.range.lo
                    <= files@[i].desc.range.hi <= data@.len(),
            forall|i: int, j: int|
                0 <= i < j < files@.len() ==> ((#[trigger] files@[i]).desc.range.hi
                    <= (#[trigger] files@[j]).desc.range.lo || files@[j].desc.range.hi
                    <= files@[i].desc.range.lo),
            files@.len() == 0 ==> data@.len() == 0,
            files@.len() > 0 ==> files@[0].desc.range.lo == 0 && files@[files@.len()
                - 1].desc.range.hi == data@.len(),
            forall|i: int|
                0 <= i < files@.len() - 1 ==> (#[trigger] files@[i + 1]).desc.range.lo == files@[
                    i].desc.range.hi,
            dirsm_wf(dirs@),
            files_linked(files@, dirs@),
            forall|i: int| 0 <= i < files@.len() ==> (#[trigger] files@[i]).path@.len() > 0,
            forall|i: int, n: Seq<char>|
                0 <= i < dirs@.len() && (#[trigger] dirs@[i].dir.files.deep_view().contains(n))
                    ==> has_file(files@, crate::text::join_path(dirs@[i].path@, n)),
            files_sound(files@, data@, eview, prefix@),
            files_complete(files@, eview.subrange(0, k as int), prefix@),
            builder.index.wf(),
            index_records(builder.index, tagged_decls(files@, data@)),
        decreases entries@.len() - k,
    {
        let e = &entries[k];
        proof {
            assert(eview[k as int] == entries@[k as int].deep_view());
        }
        let elen = e.path.as_str().unicode_len();
        let take = e.is_file && str_starts_with(e.path.as_str(), prefix.as_str()) && elen > plen
            && e.path.as_str().get_char(plen) != '/';
        let ghost files0 = files@;
        let ghost data0 = data@;
        let ghost dirs0 = dirs@;
        if take {
            let rel = e.path.as_str().substring_char(plen, elen).to_owned();
            proof {
                assert(rel@ == strip_prefix(eview[k as int].path, plen as int));
                assert(eview[k as int].path =~= prefix@ + rel@);
                assert(rel@[0] != '/');
            }
            if crate::cache::find_file_idx(&files, rel.as_str()).is_some() {
                // a path seen before: the first entry stands
                proof {
                    lemma_complete_extend(files0, files@, eview, prefix@, k as int);
                }
            } else {
                let utf8 = is_valid_utf8(e.data.as_slice());
                let dt = if utf8 {
                    CrateFileDataType::Utf8
                } else {
                    CrateFileDataType::NonUtf8
                };
                let is_rs = match extension_str(rel.as_str()) {
                    Option::Some(ext) => str_ascii_ieq(ext.as_str(), "rs"),
                    Option::None => false,
                };
                let ghost idx0 = builder.index;
                let ghost mut dsx: Seq<crate::syntax::RawItemView> = Seq::empty();
                if utf8 && is_rs {
                    match bytes_to_string(e.data.as_slice()) {
                        Option::Some(content) => {
                            let updated = builder.update(rel.as_str(), content.as_str());
                            proof {
                                if updated {
                                    dsx = crate::syntax::decls_of(content@)->Some_0;
                                } else {
                                    crate::search::lemma_index_filled_refl(builder.index, rel@);
                                }
                                assert(dsx == match crate::syntax::decls_of(
                                    vstd::utf8::decode_utf8(eview[k as int].data),
                                ) {
                                    Option::Some(ds) => ds,
                                    Option::None => Seq::<crate::syntax::RawItemView>::empty(),
                                });
                            }
                        },
                        Option::None => {
                            proof {
                                assert(false);
                            }
                        },
                    }
                } else {
                    proof {
                        crate::search::lemma_index_filled_refl(builder.index, rel@);
                    }
                }
                proof {
                    assert(crate::search::index_filled(idx0, builder.index, dsx, rel@));
                }
                let lo = data.len();
                append_bytes(&mut data, e.data.as_slice());
                let hi = data.len();
                let desc = CrateFileDataDesc { data_type: dt, range: ByteRange { lo, hi } };
                let newfile = FileEntry { path: rel.clone(), desc };
                files.push(newfile);
                proof {
                    let f2 = files@;
                    let ghost nf = f2.last();
                    assert(f2.drop_last() =~= files0);
                    assert(data0.is_prefix_of(data@)) by {
                        assert(data0 =~= data@.subrange(0, data0.len() as int));
                    }
                    assert(files_unique(f2)) by {
                        assert forall|a: int, b: int| 0 <= a < b < f2.len() implies f2[a].path@
                            != f2[b].path@ by {
                            if b == f2.len() - 1 {
                                assert(f2[a] == files0[a]);
                                if f2[a].path@ == rel@ {
                                    assert(has_file(files0, rel@));
                                }
                            } else {
                                assert(f2[a] == files0[a] && f2[b] == files0[b]);
                            }
                        }
                    }
                    assert(data@.subrange(lo as int, hi as int) =~= eview[k as int].data);
                    assert(file_from_entry(nf, data@, eview[k as int], prefix@));
                    // no earlier entry contributes this path, so entry `k` is the first
                    assert forall|j: int|
                        0 <= j < k implies !(entry_taken(#[trigger] eview[j], prefix@)
                        && strip_prefix(eview[j].path, prefix@.len() as int) == rel@) by {
                        if entry_taken(eview[j], prefix@) {
                            assert(eview.subrange(0, k as int)[j] == eview[j]);
                            assert(has_file(files0, strip_prefix(eview[j].path, prefix@.len() as int)));
                            if strip_prefix(eview[j].path, prefix@.len() as int) == rel@ {
                                assert(has_file(files0, rel@));
                            }
                        }
                    }
                    lemma_first_contrib_from(eview, prefix@, rel@, k as int);
                    assert(first_contrib(eview, prefix@, rel@, 0) == k as int);
                    assert(file_records(nf, data@, eview, prefix@));
                    lemma_sound_grow(files0, data0, data@, eview, prefix@);
                    assert(f2 =~= files0.push(nf));
                    lemma_sound_push(files0, nf, data@, eview, prefix@);
                    lemma_has_file_push(files0, nf);
                    lemma_complete_extend(files0, f2, eview, prefix@, k as int);
                    // the declaration index records the new file's declarations
                    assert(is_source_file(nf) == (utf8 && is_rs));
                    assert(file_decls(nf, data@) == dsx) by {
                        if is_source_file(nf) {
                            assert(vstd::utf8::decode_utf8(
                                data@.subrange(lo as int, hi as int),
                            ) == vstd::utf8::decode_utf8(eview[k as int].data));
                        }
                    }
                    assert(forall|i: int|
                        0 <= i < files0.len() ==> (#[trigger] files0[i]).desc.range.lo <= files0[
                            i].desc.range.hi <= data0.len());
                    lemma_tagged_grow(files0, data0, data@);
                    assert(tagged_decls(f2, data@) == tagged_decls(files0, data0) + tag_decls(
                        dsx,
                        rel@,
                    )) by {
                        assert(tagged_decls(f2, data@) == tagged_decls(files0, data@) + tag_decls(
                            file_decls(nf, data@),
                            nf.path@,
                        ));
                    }
                    lemma_index_records_step(
                        idx0,
                        builder.index,
                        tagged_decls(files0, data0),
                        dsx,
                        rel@,
                    );
                    // the new range continues the partition of the buffer
                    assert(forall|i: int| 0 <= i < f2.len() - 1 ==> #[trigger] f2[i] == files0[i]);
                }
                let parent = parent_str(rel.as_str());
                let lf = leaf_str(rel.as_str());
                proof {
                    crate::text::lemma_last_index_of(rel@, '/');
                    assert(parent@.len() == 0 || parent@[0] != '/');
                }
                let ghost files2 = files@;
                ensure_dir_chain(&mut dirs, parent.clone());
                let ghost dirs1 = dirs@;
                add_file_to_dir(&mut dirs, parent.as_str(), lf);
                proof {
                    let d2 = dirs@;
                    assert(crate::text::join_path(parent@, lf@) == rel@) by {
                        crate::text::lemma_join_parent_leaf(rel@);
                    }
                    assert(path_starts_with(rel@, parent@)) by {
                        lemma_parent_prefix(rel@);
                    }
                    lemma_parent_shorter(rel@);
                    lemma_dirs_after_new_file(
                        files0,
                        files2,
                        dirs0,
                        dirs1,
                        d2,
                        rel@,
                        parent@,
                        lf@,
                    );
                }
            }
        } else {
            proof {
                assert(!entry_taken(eview[k as int], prefix@));
                lemma_complete_extend(files@, files@, eview, prefix@, k as int);
            }
        }
        k += 1;
    }
    proof {
        assert(eview.subrange(0, eview.len() as int) =~= eview);
    }
    // freeze the directory listings
    let ghost dirsm = dirs@;
    let mut fdirs: Vec<DirEntry> = Vec::new();
    while dirs.len() > 0
        invariant
            fdirs@.len() + dirs@.len() == dirsm.len(),
            forall|i: int|
                0 <= i < fdirs@.len() ==> (#[trigger] fdirs@[i]).path == dirsm[i].path
                    && fdirs@[i].dir.files == dirsm[i].dir.files && fdirs@[i].dir.directories
                    == dirsm[i].dir.directories,
            forall|i: int|
                0 <= i < dirs@.len() ==> #[trigger] dirs@[i] == dirsm[i + fdirs@.len()],
        decreases dirs@.len(),
    {
        let d = dirs.remove(0);
        let frozen = d.dir.freeze();
        fdirs.push(DirEntry { path: d.path, dir: frozen });
    }
    let ghost fd = fdirs@;
    proof {
        assert(fd.len() == dirsm.len());
        // the frozen index mirrors the built one key for key
        assert(dirs_wf(fd)) by {
            assert forall|a: int, b: int| 0 <= a < b < fd.len() implies fd[a].path@ != fd[b].path@ by {
                assert(fd[a].path == dirsm[a].path && fd[b].path == dirsm[b].path);
            }
            assert(forall|i: int| 0 <= i < fd.len() ==> (#[trigger] fd[i]).dir.wf());
            assert forall|i: int|
                0 <= i < fd.len() && (#[trigger] fd[i]).path@.len() > 0 implies has_dir(
                fd,
                parent_of(fd[i].path@),
            ) && dir_at(fd, parent_of(fd[i].path@)).dir.directories.deep_view().contains(
                leaf_of(fd[i].path@),
            ) by {
                assert(fd[i].path@ == dirsm[i].path@);
                let pq = parent_of(dirsm[i].path@);
                lemma_dirm_at(dirsm, i);
                let w = choose|w: int| 0 <= w < dirsm.len() && dirsm[w].path@ == pq;
                assert(fd[w].path@ == pq);
                lemma_dir_at(fd, w);
                lemma_dirm_at(dirsm, w);
                assert(fd[w].dir.directories == dirsm[w].dir.directories);
            }
            if fd.len() > 0 {
                assert(has_dirm(dirsm, Seq::<char>::empty()));
                let w = choose|w: int| 0 <= w < dirsm.len() && dirsm[w].path@ =~= Seq::<char>::empty();
                assert(fd[w].path@ == dirsm[w].path@);
            }
            assert forall|i: int, n: Seq<char>|
                0 <= i < fd.len() && (#[trigger] fd[i].dir.directories.deep_view().contains(
                    n,
                )) implies has_dir(fd, crate::text::join_path(fd[i].path@, n)) by {
                assert(fd[i].dir.directories == dirsm[i].dir.directories);
                assert(dirsm[i].dir.directories.deep_view().contains(n));
                lemma_dirm_at(dirsm, i);
                assert(fd[i].path@ == dirsm[i].path@);
                let jp = crate::text::join_path(dirsm[i].path@, n);
                let w = choose|w: int| 0 <= w < dirsm.len() && dirsm[w].path@ == jp;
                assert(fd[w].path@ == jp);
            }
        }
    }
    let index = builder.finish();
    let r = Crate { data, files_index: files, directories_index: fdirs, item_search_index: index };
    proof {
        // files are linked in the frozen index as they were in the built one
        assert forall|i: int| 0 <= i < r.files_index@.len() implies has_dir(
            r.directories_index@,
            parent_of((#[trigger] r.files_index@[i]).path@),
        ) && dir_at(
            r.directories_index@,
            parent_of(r.files_index@[i].path@),
        ).dir.files.deep_view().contains(leaf_of(r.files_index@[i].path@)) by {
            let pq = parent_of(r.files_index@[i].path@);
            let w = choose|w: int| 0 <= w < dirsm.len() && dirsm[w].path@ == pq;
            assert(fd[w].path@ == pq);
            lemma_dir_at(fd, w);
            lemma_dirm_at(dirsm, w);
            assert(fd[w].dir.files == dirsm[w].dir.files);
        }
        if r.files_index@.len() > 0 {
            assert(has_dirm(dirsm, parent_of(r.files_index@[0].path@)));
            assert(dirsm.len() > 0);
            assert(has_dirm(dirsm, Seq::<char>::empty()));
            let w = choose|w: int| 0 <= w < dirsm.len() && dirsm[w].path@ =~= Seq::<char>::empty();
            assert(fd[w].path@ == dirsm[w].path@);
            assert(has_dir(fd, Seq::<char>::empty()));
        }
        // every listed file name joins to an indexed file, as it did while
        // the index was built
        assert forall|i: int, n: Seq<char>|
            0 <= i < r.directories_index@.len() && (#[trigger] r.directories_index@[
                i].dir.files.deep_view().contains(n)) implies has_file(
            r.files_index@,
            crate::text::join_path(r.directories_index@[i].path@, n),
        ) by {
            assert(fd[i].dir.files == dirsm[i].dir.files);
            assert(dirsm[i].dir.files.deep_view().contains(n));
            assert(fd[i].path@ == dirsm[i].path@);
            assert(has_file(r.files_index@, crate::text::join_path(dirsm[i].path@, n)));
        }
    }
    r
}

/// A declaration paired with the file it stands in.
pub struct DeclOfFile {
    pub d: crate::syntax::RawItemView,
    pub file: Seq<char>,
}

/// The file is handed to the declaration indexer: UTF-8 with the source
/// extension, compared without regard to ASCII case.
pub open spec fn is_source_file(f: FileEntry) -> bool {
    &&& f.desc.data_type == CrateFileDataType::Utf8
    &&& (crate::text::extension_of(f.path@) matches Some(e) && crate::text::ascii_ieq(e, "rs"@))
}

/// The declarations one file contributes to the index: those of its
/// decoded content, or none when it is not a source file or does not
/// parse.
pub open spec fn file_decls(f: FileEntry, data: Seq<u8>) -> Seq<crate::syntax::RawItemView> {
    if is_source_file(f) {
        match crate::syntax::decls_of(
            vstd::utf8::decode_utf8(
                data.subrange(f.desc.range.lo as int, f.desc.range.hi as int),
            ),
        ) {
            Option::Some(ds) => ds,
            Option::None => Seq::empty(),
        }
    } else {
        Seq::empty()
    }
}

/// The declarations of `ds`, each tagged with the file `file`.
pub open spec fn tag_decls(ds: Seq<crate::syntax::RawItemView>, file: Seq<char>) -> Seq<
    DeclOfFile,
> {
    Seq::new(ds.len(), |j: int| DeclOfFile { d: ds[j], file })
}

/// All declarations of the indexed files, in file order, each tagged with
/// its file.
pub open spec fn tagged_decls(files: Seq<FileEntry>, data: Seq<u8>) -> Seq<DeclOfFile>
    decreases files.len(),
{
    if files.len() == 0 {
        Seq::empty()
    } else {
        tagged_decls(files.drop_last(), data) + tag_decls(
            file_decls(files.last(), data),
            files.last().path@,
        )
    }
}

/// The tagged declarations indexed under `kind`, in order.
pub open spec fn tagged_for(ts: Seq<DeclOfFile>, kind: crate::ItemType) -> Seq<DeclOfFile>
    decreases ts.len(),
{
    if ts.len() == 0 {
        Seq::empty()
    } else {
        let rest = tagged_for(ts.drop_last(), kind);
        if crate::search::decl_kind(ts.last().d) == kind {
            rest.push(ts.last())
        } else {
            rest
        }
    }
}

/// The bucket holds exactly one entry per tagged declaration, in order,
/// each recording its declaration for its file.
pub open spec fn bucket_records(b: Seq<crate::search::IndexEntry>, ts: Seq<DeclOfFile>) -> bool {
    &&& b.len() == ts.len()
    &&& forall|j: int|
        0 <= j < ts.len() ==> crate::search::entry_of_decl(b[j], (#[trigger] ts[j]).d, ts[j].file)
}

/// The whole index holds exactly the tagged declarations, each bucket
/// those of its kind.
pub open spec fn index_records(x: crate::search::SearchIndexMut, ts: Seq<DeclOfFile>) -> bool {
    &&& bucket_records(x.structs@, tagged_for(ts, crate::ItemType::Struct))
    &&& bucket_records(x.enums@, tagged_for(ts, crate::ItemType::Enum))
    &&& bucket_records(x.traits@, tagged_for(ts, crate::ItemType::Trait))
    &&& bucket_records(x.impl_types@, tagged_for(ts, crate::ItemType::ImplType))
    &&& bucket_records(x.impl_trait_for_types@, tagged_for(ts, crate::ItemType::ImplTraitForType))
    &&& bucket_records(x.macros@, tagged_for(ts, crate::ItemType::Macro))
    &&& bucket_records(x.attribute_macros@, tagged_for(ts, crate::ItemType::AttributeMacro))
    &&& bucket_records(x.functions@, tagged_for(ts, crate::ItemType::Function))
    &&& bucket_records(x.type_aliases@, tagged_for(ts, crate::ItemType::TypeAlias))
}

/// Tagged declarations do not depend on bytes beyond the files' ranges.
proof fn lemma_tagged_grow(files: Seq<FileEntry>, data0: Seq<u8>, data1: Seq<u8>)
    requires
        forall|i: int|
            0 <= i < files.len() ==> (#[trigger] files[i]).desc.range.lo
                <= files[i].desc.range.hi <= data0.len(),
        data0.is_prefix_of(data1),
    ensures
        tagged_decls(files, data1) == tagged_decls(files, data0),
    decreases files.len(),
{
    if files.len() > 0 {
        assert(forall|i: int|
            0 <= i < files.drop_last().len() ==> #[trigger] files.drop_last()[i] == files[i]);
        lemma_tagged_grow(files.drop_last(), data0, data1);
        let f = files.last();
        assert(data1.subrange(f.desc.range.lo as int, f.desc.range.hi as int) =~= data0.subrange(
            f.desc.range.lo as int,
            f.desc.range.hi as int,
        ));
        assert(file_decls(f, data1) == file_decls(f, data0));
    }
}

/// Filtering tagged declarations distributes over concatenation.
proof fn lemma_tagged_for_concat(a: Seq<DeclOfFile>, b: Seq<DeclOfFile>, kind: crate::ItemType)
    ensures
        tagged_for(a + b, kind) == tagged_for(a, kind) + tagged_for(b, kind),
    decreases b.len(),
{
    if b.len() == 0 {
        assert(a + b =~= a);
        assert(tagged_for(b, kind) == Seq::<DeclOfFile>::empty());
        assert(tagged_for(a, kind) + tagged_for(b, kind) =~= tagged_for(a, kind));
    } else {
        assert((a + b).drop_last() =~= a + b.drop_last());
        assert((a + b).last() == b.last());
        lemma_tagged_for_concat(a, b.drop_last(), kind);
        if crate::search::decl_kind(b.last().d) == kind {
            assert(tagged_for(a + b, kind) =~= tagged_for(a, kind) + tagged_for(b, kind));
        } else {
            assert(tagged_for(a + b, kind) =~= tagged_for(a, kind) + tagged_for(b, kind));
        }
    }
}

/// Tagging then filtering is filtering then tagging.
proof fn lemma_tagged_filter(ds: Seq<crate::syntax::RawItemView>, file: Seq<char>, kind: crate::ItemType)
    ensures
        tagged_for(tag_decls(ds, file), kind) == tag_decls(
            crate::search::decls_for(ds, kind),
            file,
        ),
    decreases ds.len(),
{
    let ts = tag_decls(ds, file);
    if ds.len() == 0 {
        assert(tagged_for(ts, kind) =~= tag_decls(crate::search::decls_for(ds, kind), file));
    } else {
        assert(ts.drop_last() =~= tag_decls(ds.drop_last(), file));
        assert(ts.last() == DeclOfFile { d: ds.last(), file });
        lemma_tagged_filter(ds.drop_last(), file, kind);
        if crate::search::decl_kind(ds.last()) == kind {
            assert(tagged_for(ts, kind) =~= tag_decls(crate::search::decls_for(ds, kind), file));
        } else {
            assert(tagged_for(ts, kind) =~= tag_decls(crate::search::decls_for(ds, kind), file));
        }
    }
}

/// A bucket that records `t` and is then filled from `ds` for file `file`
/// records the extended tagged list.
proof fn lemma_bucket_records_step(
    b0: Seq<crate::search::IndexEntry>,
    b1: Seq<crate::search::IndexEntry>,
    t: Seq<DeclOfFile>,
    ds: Seq<crate::syntax::RawItemView>,
    kind: crate::ItemType,
    file: Seq<char>,
)
    requires
        bucket_records(b0, tagged_for(t, kind)),
        crate::search::bucket_filled(b0, b1, crate::search::decls_for(ds, kind), file),
    ensures
        bucket_records(b1, tagged_for(t + tag_decls(ds, file), kind)),
{
    lemma_tagged_for_concat(t, tag_decls(ds, file), kind);
    lemma_tagged_filter(ds, file, kind);
    let t0 = tagged_for(t, kind);
    let dk = crate::search::decls_for(ds, kind);
    let tnew = tagged_for(t + tag_decls(ds, file), kind);
    assert(tnew == t0 + tag_decls(dk, file));
    assert forall|j: int| 0 <= j < tnew.len() implies crate::search::entry_of_decl(
        b1[j],
        (#[trigger] tnew[j]).d,
        tnew[j].file,
    ) by {
        if j < t0.len() {
            assert(b1[j] == b0[j]);
            assert(tnew[j] == t0[j]);
            assert(crate::search::entry_of_decl(b0[j], t0[j].d, t0[j].file));
        } else {
            let jj = j - t0.len();
            assert(tnew[j] == tag_decls(dk, file)[jj]);
            assert(tag_decls(dk, file)[jj] == DeclOfFile { d: dk[jj], file });
            assert(crate::search::entry_of_decl(b1[b0.len() + jj], dk[jj], file));
        }
    }
}

/// An index that records `t` and is then filled from `ds` for file `file`
/// records the extended tagged list.
proof fn lemma_index_records_step(
    x0: crate::search::SearchIndexMut,
    x1: crate::search::SearchIndexMut,
    t: Seq<DeclOfFile>,
    ds: Seq<crate::syntax::RawItemView>,
    file: Seq<char>,
)
    requires
        index_records(x0, t),
        crate::search::index_filled(x0, x1, ds, file),
    ensures
        index_records(x1, t + tag_decls(ds, file)),
{
    lemma_bucket_records_step(x0.structs@, x1.structs@, t, ds, crate::ItemType::Struct, file);
    lemma_bucket_records_step(x0.enums@, x1.enums@, t, ds, crate::ItemType::Enum, file);
    lemma_bucket_records_step(x0.traits@, x1.traits@, t, ds, crate::ItemType::Trait, file);
    lemma_bucket_records_step(x0.impl_types@, x1.impl_types@, t, ds, crate::ItemType::ImplType, file);
    lemma_bucket_records_step(
        x0.impl_trait_for_types@,
        x1.impl_trait_for_types@,
        t,
        ds,
        crate::ItemType::ImplTraitForType,
        file,
    );
    lemma_bucket_records_step(x0.macros@, x1.macros@, t, ds, crate::ItemType::Macro, file);
    lemma_bucket_records_step(
        x0.attribute_macros@,
        x1.attribute_macros@,
        t,
        ds,
        crate::ItemType::AttributeMacro,
        file,
    );
    lemma_bucket_records_step(x0.functions@, x1.functions@, t, ds, crate::ItemType::Function, file);
    lemma_bucket_records_step(
        x0.type_aliases@,
        x1.type_aliases@,
        t,
        ds,
        crate::ItemType::TypeAlias,
        file,
    );
}

/// After a new file is appended and its directory chain linked, the three
/// directory-to-file invariants hold again: every file is listed in its
/// parent, every listed file name joins to an indexed file, and every
/// directory has an occupant.
#[verifier::rlimit(100)]
proof fn lemma_dirs_after_new_file(
    files0: Seq<FileEntry>,
    files2: Seq<FileEntry>,
    dirs0: Seq<DirMutEntry>,
    dirs1: Seq<DirMutEntry>,
    d2: Seq<DirMutEntry>,
    rel: Seq<char>,
    parent: Seq<char>,
    lf: Seq<char>,
)
    requires
        files2.len() == files0.len() + 1,
        forall|j: int| 0 <= j < files0.len() ==> #[trigger] files2[j] == files0[j],
        files2[files2.len() - 1].path@ == rel,
        rel.len() > 0,
        parent == parent_of(rel),
        lf == leaf_of(rel),
        crate::text::join_path(parent, lf) == rel,
        path_starts_with(rel, parent),
        parent.len() < rel.len(),
        dirsm_unique(dirs0),
        files_linked(files0, dirs0),
        forall|i: int, n: Seq<char>|
            0 <= i < dirs0.len() && (#[trigger] dirs0[i].dir.files.deep_view().contains(n))
                ==> has_file(files0, crate::text::join_path(dirs0[i].path@, n)),
        dirsm_unique(dirs1),
        has_dirm(dirs1, parent),
        forall|q: Seq<char>|
            #[trigger] has_dirm(dirs0, q) ==> has_dirm(dirs1, q) && dirm_at(dirs1, q).dir.files
                == dirm_at(dirs0, q).dir.files,
        forall|q: Seq<char>|
            #[trigger] has_dirm(dirs1, q) && !has_dirm(dirs0, q) ==> dirm_at(
                dirs1,
                q,
            ).dir.files@.len() == 0,
        forall|q: Seq<char>|
            #[trigger] has_dirm(dirs1, q) ==> has_dirm(dirs0, q) || path_starts_with(parent, q),
        forall|q: Seq<char>|
            #[trigger] has_dirm(dirs1, q) ==> has_dirm(dirs0, q) || q.len() <= parent.len(),
        dirsm_unique(d2),
        forall|q: Seq<char>| #[trigger] has_dirm(d2, q) <==> has_dirm(dirs1, q),
        forall|q: Seq<char>, y: Seq<char>|
            has_dirm(dirs1, q) ==> (#[trigger] dirm_at(d2, q).dir.files.deep_view().contains(y)
                <==> (dirm_at(dirs1, q).dir.files.deep_view().contains(y) || (q == parent && y
                == lf))),
        dirm_at(d2, parent).dir.files.deep_view().contains(lf),
    ensures
        files_linked(files2, d2),
        forall|i: int, n: Seq<char>|
            0 <= i < d2.len() && (#[trigger] d2[i].dir.files.deep_view().contains(n)) ==> has_file(
                files2,
                crate::text::join_path(d2[i].path@, n),
            ),
{
    // every listed file name still joins to an indexed file
    assert forall|ii: int, n: Seq<char>|
        0 <= ii < d2.len() && (#[trigger] d2[ii].dir.files.deep_view().contains(n)) implies has_file(
        files2,
        crate::text::join_path(d2[ii].path@, n),
    ) by {
        let q = d2[ii].path@;
        lemma_dirm_at(d2, ii);
        assert(has_dirm(dirs1, q));
        if q == parent && n == lf {
            assert(has_file(files2, rel)) by {
                assert(files2[files2.len() - 1].path@ == rel);
            }
        } else {
            assert(dirm_at(dirs1, q).dir.files.deep_view().contains(n));
            if has_dirm(dirs0, q) {
                assert(dirm_at(dirs1, q).dir.files == dirm_at(dirs0, q).dir.files);
                let w = choose|w: int| 0 <= w < dirs0.len() && dirs0[w].path@ == q;
                lemma_dirm_at(dirs0, w);
                assert(dirs0[w].dir.files.deep_view().contains(n));
                assert(has_file(files0, crate::text::join_path(q, n)));
                let u = choose|u: int|
                    0 <= u < files0.len() && files0[u].path@ == crate::text::join_path(q, n);
                assert(files2[u].path@ == crate::text::join_path(q, n));
            } else {
                assert(dirm_at(dirs1, q).dir.files@.len() == 0);
            }
        }
    }
    // every file is listed in its parent directory
    assert forall|i: int| 0 <= i < files2.len() implies has_dirm(
        d2,
        parent_of((#[trigger] files2[i]).path@),
    ) && dirm_at(d2, parent_of(files2[i].path@)).dir.files.deep_view().contains(
        leaf_of(files2[i].path@),
    ) by {
        if i < files2.len() - 1 {
            assert(files2[i] == files0[i]);
            let pq = parent_of(files0[i].path@);
            assert(has_dirm(dirs0, pq));
            assert(has_dirm(dirs1, pq));
            assert(dirm_at(dirs1, pq).dir.files == dirm_at(dirs0, pq).dir.files);
            assert(dirm_at(dirs0, pq).dir.files.deep_view().contains(leaf_of(files0[i].path@)));
            assert(dirm_at(d2, pq).dir.files.deep_view().contains(leaf_of(files0[i].path@)));
        } else {
            assert(files2[i].path@ == rel);
            assert(has_dirm(dirs1, parent));
            assert(dirm_at(d2, parent).dir.files.deep_view().contains(lf));
        }
    }
}

/// The root directory prefix of a crate version inside its archive,
/// `"{name}-{version}/"`.
pub open spec fn root_prefix(krate: Seq<char>, version: Seq<char>) -> Seq<char> {
    krate + "-"@ + version + "/"@
}

impl Crate {
    /// Build an indexed package from a crate tarball: `Err` exactly when
    /// the archive's header table cannot be opened; otherwise the file
    /// index holds exactly the regular files under the archive's root
    /// directory, with their bytes and encoding.
    pub fn from_tar(tar: &CrateTar) -> (r: Result<Crate, CrateError>)
        ensures
            r is Err <==> tar_entries(tar.tar_data@) is None,
            r matches Err(e) ==> e == CrateError::TarUnreadable,
            r matches Ok(c) ==> (tar_entries(tar.tar_data@) matches Some(es) && c.wf()
                && files_complete(
                c.files_index@,
                es,
                root_prefix(tar.crate_version.krate@, tar.crate_version.version@),
            ) && files_sound(
                c.files_index@,
                c.data@,
                es,
                root_prefix(tar.crate_version.krate@, tar.crate_version.version@),
            ) && index_records(c.item_search_index, tagged_decls(c.files_index@, c.data@))),
    {
        match read_tar_entries(&tar.tar_data) {
            Option::None => Err(CrateError::TarUnreadable),
            Option::Some(entries) => {
                let mut prefix = tar.crate_version.root_dir();
                prefix.append("/");
                proof {
                    assert(prefix@ =~= root_prefix(
                        tar.crate_version.krate@,
                        tar.crate_version.version@,
                    ));
                    assert(entries.deep_view() == tar_entries(tar.tar_data@)->Some_0);
                }
                Ok(build_from_entries(&prefix, &entries))
            },
        }
    }
}

// ---------------------------------------------------------------------------
// The directory-closure law
// ---------------------------------------------------------------------------
/// A strict component-prefix of a path is its parent, or a strict
/// component-prefix of its parent.
proof fn lemma_ancestor_step(p: Seq<char>, a: Seq<char>)
    requires
        p.len() > 0,
        path_starts_with(p, a),
        a != p,
    ensures
        a =~= parent_of(p) || (path_starts_with(parent_of(p), a) && a != parent_of(p)),
{
    lemma_last_index_of(p, '/');
    let lidx = crate::text::last_index_of(p, '/');
    if a.len() == 0 {
        if parent_of(p).len() == 0 {
            assert(a =~= parent_of(p));
        } else {
            assert(path_starts_with(parent_of(p), a));
        }
    } else {
        // a is a proper prefix with a separator right after it
        assert(is_prefix(p, a) && a.len() < p.len() && p[a.len() as int] == '/');
        assert(a.len() as int <= lidx);
        if a.len() as int == lidx {
            assert(a =~= parent_of(p));
        } else {
            let par = parent_of(p);
            assert(par == p.subrange(0, lidx));
            assert(is_prefix(par, a));
            assert(par[a.len() as int] == p[a.len() as int]);
            assert(path_starts_with(par, a));
            assert(a != par);
        }
    }
}

/// Being a component-prefix carries over through an intermediate path.
proof fn lemma_path_prefix_trans(p: Seq<char>, m: Seq<char>, a: Seq<char>)
    requires
        path_starts_with(p, m),
        path_starts_with(m, a),
    ensures
        path_starts_with(p, a),
{
    if a.len() == 0 || m == a || p == m {
    } else {
        assert(is_prefix(m, a) && a.len() < m.len() && m[a.len() as int] == '/');
        assert(is_prefix(p, m) && m.len() < p.len());
        assert(p[a.len() as int] == m[a.len() as int]);
    }
}

/// Every strict component-prefix of a directory of the package is itself a
/// directory of the package, and lists on the way the next directory name.
proof fn lemma_dir_chain(dirs: Seq<DirEntry>, d: Seq<char>, a: Seq<char>)
    requires
        dirs_wf(dirs),
        has_dir(dirs, d),
        path_starts_with(d, a),
        a != d,
    ensures
        has_dir(dirs, a),
        exists|b: Seq<char>|
            #![trigger has_dir(dirs, b)]
            has_dir(dirs, b) && parent_of(b) =~= a && path_starts_with(d, b) && dir_at(
                dirs,
                a,
            ).dir.directories.deep_view().contains(leaf_of(b)),
    decreases d.len(),
{
    assert(d.len() > 0) by {
        if d.len() == 0 {
            assert(a.len() <= d.len());
            assert(a =~= d);
        }
    }
    let i = choose|i: int| 0 <= i < dirs.len() && dirs[i].path@ == d;
    assert(has_dir(dirs, parent_of(d)) && dir_at(
        dirs,
        parent_of(d),
    ).dir.directories.deep_view().contains(leaf_of(d)));
    lemma_ancestor_step(d, a);
    if a =~= parent_of(d) {
        assert(dir_at(dirs, a) == dir_at(dirs, parent_of(d)));
        assert(has_dir(dirs, d) && parent_of(d) =~= a && path_starts_with(d, d) && dir_at(
            dirs,
            a,
        ).dir.directories.deep_view().contains(leaf_of(d)));
    } else {
        lemma_parent_shorter(d);
        lemma_dir_chain(dirs, parent_of(d), a);
        let b = choose|b: Seq<char>|
            #![trigger has_dir(dirs, b)]
            has_dir(dirs, b) && parent_of(b) =~= a && path_starts_with(parent_of(d), b) && dir_at(
                dirs,
                a,
            ).dir.directories.deep_view().contains(leaf_of(b));
        assert(path_starts_with(d, parent_of(d))) by {
            lemma_last_index_of(d, '/');
        }
        lemma_path_prefix_trans(d, parent_of(d), b);
        assert(has_dir(dirs, b) && parent_of(b) =~= a && path_starts_with(d, b) && dir_at(
            dirs,
            a,
        ).dir.directories.deep_view().contains(leaf_of(b)));
    }
}

/// Directory closure: for a file of the package at path `p`, every strict
/// component-prefix `a` of `p` is a directory of the package; the parent of
/// `p` lists the file's leaf name among its files, and every other such
/// prefix lists the next directory name on the way to `p` among its
/// subdirectories.
#[verifier::rlimit(50)]
pub proof fn lemma_directory_closure(c: &Crate, p: Seq<char>, a: Seq<char>)
    requires
        c.wf(),
        has_file(c.files_index@, p),
        path_starts_with(p, a),
        a != p,
    ensures
        has_dir(c.directories_index@, a),
        a =~= parent_of(p) ==> dir_at(c.directories_index@, a).dir.files.deep_view().contains(
            leaf_of(p),
        ),
        !(a =~= parent_of(p)) ==> exists|b: Seq<char>|
            #![trigger has_dir(c.directories_index@, b)]
            has_dir(c.directories_index@, b) && parent_of(b) =~= a && path_starts_with(p, b)
                && dir_at(c.directories_index@, a).dir.directories.deep_view().contains(leaf_of(b)),
{
    let dirs = c.directories_index@;
    let i = choose|i: int| 0 <= i < c.files_index@.len() && c.files_index@[i].path@ == p;
    assert(has_dir(dirs, parent_of(p)) && dir_at(dirs, parent_of(p)).dir.files.deep_view().contains(
        leaf_of(p),
    ));
    if a =~= parent_of(p) {
        assert(dir_at(dirs, a) == dir_at(dirs, parent_of(p)));
    } else {
        assert(p.len() > 0) by {
            if p.len() == 0 {
                assert(a.len() <= p.len());
                assert(a =~= p);
            }
        }
        lemma_ancestor_step(p, a);
        lemma_dir_chain(dirs, parent_of(p), a);
        let b = choose|b: Seq<char>|
            #![trigger has_dir(dirs, b)]
            has_dir(dirs, b) && parent_of(b) =~= a && path_starts_with(parent_of(p), b) && dir_at(
                dirs,
                a,
            ).dir.directories.deep_view().contains(leaf_of(b));
        assert(path_starts_with(p, parent_of(p))) by {
            lemma_last_index_of(p, '/');
        }
        lemma_path_prefix_trans(p, parent_of(p), b);
        assert(has_dir(dirs, b) && parent_of(b) =~= a && path_starts_with(p, b) && dir_at(
            dirs,
            a,
        ).dir.directories.deep_view().contains(leaf_of(b)));
    }
}

/// Index of the under-construction directory entry with path `p`, if any.
fn find_dirm_idx_b(dirs: &Vec<DirMutEntry>, p: &str) -> (r: Option<usize>)
    ensures
        r is Some <==> has_dirm(dirs@, p@),
        r matches Some(i) ==> i < dirs@.len() && dirs@[i as int].path@ == p@,
{
    let mut i: usize = 0;
    while i < dirs.len()
        invariant
            0 <= i <= dirs@.len(),
            forall|j: int| 0 <= j < i ==> dirs@[j].path@ != p@,
        decreases dirs@.len() - i,
    {
        if crate::text::str_eq(dirs[i].path.as_str(), p) {
            return Some(i);
        }
        i += 1;
    }
    None
}

/// Add the file leaf `lf` to the listing of directory `parent`, which must
/// exist. Keys and subdirectory sets stay as they are; file sets only grow.
fn add_file_to_dir(dirs: &mut Vec<DirMutEntry>, parent: &str, lf: String)
    requires
        dirsm_wf(old(dirs)@),
        has_dirm(old(dirs)@, parent@),
    ensures
        dirsm_wf(final(dirs)@),
        forall|q: Seq<char>| #[trigger] has_dirm(final(dirs)@, q) <==> has_dirm(old(dirs)@, q),
        forall|q: Seq<char>|
            #[trigger] has_dirm(old(dirs)@, q) ==> dirm_at(final(dirs)@, q).dir.directories
                == dirm_at(old(dirs)@, q).dir.directories && (forall|y: Seq<char>|
                #[trigger] dirm_at(old(dirs)@, q).dir.files.deep_view().contains(y) ==> dirm_at(
                    final(dirs)@,
                    q,
                ).dir.files.deep_view().contains(y)),
        forall|q: Seq<char>, y: Seq<char>|
            has_dirm(old(dirs)@, q) ==> (#[trigger] dirm_at(
                final(dirs)@,
                q,
            ).dir.files.deep_view().contains(y) <==> (dirm_at(
                old(dirs)@,
                q,
            ).dir.files.deep_view().contains(y) || (q == parent@ && y == lf@))),
        dirm_at(final(dirs)@, parent@).dir.files.deep_view().contains(lf@),
{
    let ghost old_dirs = dirs@;
    let i = match find_dirm_idx_b(dirs, parent) {
        Option::Some(i) => i,
        Option::None => {
            proof {
                assert(false);
            }
            0
        },
    };
    let mut entry = dirs.remove(i);
    entry.dir.insert_file(lf);
    let ghost newdir = entry.dir;
    dirs.insert(i, entry);
    proof {
        let nd = dirs@;
        assert(nd =~= old_dirs.update(i as int, DirMutEntry { path: old_dirs[i as int].path, dir: newdir }));
        assert(forall|j: int| 0 <= j < nd.len() ==> (#[trigger] nd[j]).path@ == old_dirs[j].path@);
        assert forall|q: Seq<char>| #[trigger] has_dirm(nd, q) <==> has_dirm(old_dirs, q) by {
            if has_dirm(nd, q) {
                let w = choose|w: int| 0 <= w < nd.len() && nd[w].path@ == q;
                assert(old_dirs[w].path@ == q);
            }
            if has_dirm(old_dirs, q) {
                let w = choose|w: int| 0 <= w < old_dirs.len() && old_dirs[w].path@ == q;
                assert(nd[w].path@ == q);
            }
        }
        assert forall|q: Seq<char>| #[trigger] has_dirm(old_dirs, q) implies dirm_at(
            nd,
            q,
        ).dir.directories == dirm_at(old_dirs, q).dir.directories && (forall|y: Seq<char>|
            #[trigger] dirm_at(old_dirs, q).dir.files.deep_view().contains(y) ==> dirm_at(
                nd,
                q,
            ).dir.files.deep_view().contains(y)) by {
            let w = choose|w: int| 0 <= w < old_dirs.len() && old_dirs[w].path@ == q;
            lemma_dirm_at(old_dirs, w);
            assert(nd[w].path@ == q);
            lemma_dirm_at(nd, w);
            if w == i {
                assert(nd[w].dir == newdir);
            } else {
                assert(nd[w] == old_dirs[w]);
            }
        }
        // parent closure survives: subdirectory sets are untouched
        assert forall|j: int|
            0 <= j < nd.len() && (#[trigger] nd[j]).path@.len() > 0 implies has_dirm(
            nd,
            parent_of(nd[j].path@),
        ) && dirm_at(nd, parent_of(nd[j].path@)).dir.directories.deep_view().contains(
            leaf_of(nd[j].path@),
        ) by {
            assert(nd[j].path@ == old_dirs[j].path@);
            let pq = parent_of(old_dirs[j].path@);
            lemma_dirm_at(old_dirs, j);
            assert(has_dirm(old_dirs, pq));
            assert(dirm_at(nd, pq).dir.directories == dirm_at(old_dirs, pq).dir.directories);
        }
        assert(has_dirm(nd, Seq::<char>::empty()));
        lemma_dirm_at(nd, i as int);
        assert(dirm_at(nd, parent@).dir.files.deep_view().contains(lf@)) by {
            assert(nd[i as int].path@ == parent@);
            assert(nd[i as int].dir == newdir);
        }
        // the file sets change by exactly the one inserted name
        assert forall|q: Seq<char>, y: Seq<char>| has_dirm(old_dirs, q) implies (
        #[trigger] dirm_at(nd, q).dir.files.deep_view().contains(y) <==> (dirm_at(
            old_dirs,
            q,
        ).dir.files.deep_view().contains(y) || (q == parent@ && y == lf@))) by {
            let w = choose|w: int| 0 <= w < old_dirs.len() && old_dirs[w].path@ == q;
            lemma_dirm_at(old_dirs, w);
            assert(nd[w].path@ == q);
            lemma_dirm_at(nd, w);
            if w == i {
                assert(q == parent@);
                assert(nd[w].dir == newdir);
            } else {
                assert(nd[w] == old_dirs[w]);
                assert(q != parent@) by {
                    if q == parent@ {
                        assert(old_dirs[i as int].path@ == parent@);
                    }
                }
            }
        }
        // the reverse clause survives: subdirectory sets are untouched
        assert forall|j: int, n: Seq<char>|
            0 <= j < nd.len() && (#[trigger] nd[j].dir.directories.deep_view().contains(
                n,
            )) implies has_dirm(nd, crate::text::join_path(nd[j].path@, n)) by {
            lemma_dirm_at(old_dirs, j);
            lemma_dirm_at(nd, j);
            assert(nd[j].dir.directories == old_dirs[j].dir.directories);
            assert(old_dirs[j].dir.directories.deep_view().contains(n));
            let jp = crate::text::join_path(old_dirs[j].path@, n);
            let w = choose|w: int| 0 <= w < old_dirs.len() && old_dirs[w].path@ == jp;
            assert(nd[w].path@ == jp);
        }
    }
}

} // verus!
