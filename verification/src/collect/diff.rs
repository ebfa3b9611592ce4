//! Per-commit diff statistics: how a diff walk's file and line events
//! build the per-file records.

use vstd::prelude::*;
use crate::text::str_eq;

verus! {

/// How a file changed in a commit.
#[derive(Clone, Copy, Debug, PartialEq, Eq, Structural)]
pub enum ChangeType {
    /// The file is new.
    Added,
    /// The file's content changed.
    Modified,
    /// The file was removed.
    Deleted,
    /// The file was moved.
    Renamed,
}

/// Status of one delta of a tree-to-tree diff (libgit2's delta kinds).
#[derive(Clone, Copy, Debug, PartialEq, Eq, Structural)]
pub enum DeltaStatus {
    Unmodified,
    Added,
    Deleted,
    Modified,
    Renamed,
    Copied,
    Ignored,
    Untracked,
    Typechange,
    Unreadable,
    Conflicted,
}

/// The change type stored for a delta: copies and untracked files count
/// as added, everything not added, deleted or renamed as modified.
pub open spec fn change_type_of(d: DeltaStatus) -> ChangeType {
    match d {
        DeltaStatus::Added | DeltaStatus::Copied | DeltaStatus::Untracked => ChangeType::Added,
        DeltaStatus::Deleted => ChangeType::Deleted,
        DeltaStatus::Renamed => ChangeType::Renamed,
        _ => ChangeType::Modified,
    }
}

/// Translate a diff delta's status into a [`ChangeType`].
pub fn map_change_type(d: DeltaStatus) -> (c: ChangeType)
    ensures
        c == change_type_of(d),
{
    match d {
        DeltaStatus::Added | DeltaStatus::Copied | DeltaStatus::Untracked => ChangeType::Added,
        DeltaStatus::Deleted => ChangeType::Deleted,
        DeltaStatus::Renamed => ChangeType::Renamed,
        _ => ChangeType::Modified,
    }
}

/// Per-file diff record.
#[derive(Clone, Debug)]
pub struct FileDiff {
    /// Path relative to the repository root.
    pub path: String,
    /// Type of change.
    pub change_type: ChangeType,
    /// Lines inserted in this file.
    pub insertions: u32,
    /// Lines deleted in this file.
    pub deletions: u32,
}

/// Aggregated diff stats for a single commit.
#[derive(Clone, Debug)]
pub struct CommitDiff {
    /// Files touched by the commit.
    pub files_changed: u32,
    /// Lines inserted across all files.
    pub insertions: u32,
    /// Lines deleted across all files.
    pub deletions: u32,
    /// Per-file change records.
    pub files: Vec<FileDiff>,
}

/// The records as plain values: path, change type, insertions, deletions.
pub open spec fn files_view(files: Seq<FileDiff>) -> Seq<(Seq<char>, ChangeType, u32, u32)> {
    Seq::new(files.len(), |i: int| (files[i].path@, files[i].change_type, files[i].insertions, files[i].deletions))
}

/// Position of the first record with `path`.
pub open spec fn first_with_path(files: Seq<(Seq<char>, ChangeType, u32, u32)>, path: Seq<char>) -> Option<int>
    decreases files.len(),
{
    if files.len() == 0 {
        None
    } else {
        match first_with_path(files.drop_last(), path) {
            Some(k) => Some(k),
            None => if files.last().0 == path {
                Some(files.len() - 1)
            } else {
                None
            },
        }
    }
}

proof fn lemma_first_with_path_prefix(files: Seq<(Seq<char>, ChangeType, u32, u32)>, path: Seq<char>, n: int)
    requires
        0 <= n <= files.len(),
        first_with_path(files.take(n), path) is Some,
    ensures
        first_with_path(files, path) == first_with_path(files.take(n), path),
    decreases files.len() - n,
{
    if n < files.len() {
        assert(files.take(n + 1).drop_last() =~= files.take(n));
        lemma_first_with_path_prefix(files, path, n + 1);
    } else {
        assert(files.take(n) =~= files);
    }
}

/// `files` after one diff line of `path` with origin `origin`: the first
/// record of that path counts a `+` line as an insertion and a `-` line as
/// a deletion (saturating); other lines, and lines of a path without a
/// record, change nothing.
pub open spec fn after_line(
    files: Seq<(Seq<char>, ChangeType, u32, u32)>,
    path: Seq<char>,
    origin: char,
) -> Seq<(Seq<char>, ChangeType, u32, u32)> {
    match first_with_path(files, path) {
        Some(k) => if origin == '+' {
            files.update(k, (files[k].0, files[k].1, if files[k].2 == u32::MAX { u32::MAX } else { (files[k].2 + 1) as u32 }, files[k].3))
        } else if origin == '-' {
            files.update(k, (files[k].0, files[k].1, files[k].2, if files[k].3 == u32::MAX { u32::MAX } else { (files[k].3 + 1) as u32 }))
        } else {
            files
        },
        None => files,
    }
}

/// Count one diff line of `path` (origin `+`, `-` or other) into the
/// first record of that path.
pub fn record_line(files: &mut Vec<FileDiff>, path: &str, origin: char)
    ensures
        files_view(final(files)@) == after_line(files_view(old(files)@), path@, origin),
{
    let ghost v = files_view(files@);
    let mut i: usize = 0;
    while i < files.len()
        invariant
            i <= files@.len(),
            v == files_view(files@),
            v == files_view(old(files)@),
            first_with_path(v.take(i as int), path@) is None,
        decreases files@.len() - i,
    {
        proof {
            assert(v.take(i as int + 1).drop_last() =~= v.take(i as int));
        }
        if str_eq(files[i].path.as_str(), path) {
            proof {
                lemma_first_with_path_prefix(v, path@, i as int + 1);
            }
            if origin == '+' {
                let n = files[i].insertions.saturating_add(1);
                let e = FileDiff {
                    path: String::from_str(files[i].path.as_str()),
                    change_type: files[i].change_type,
                    insertions: n,
                    deletions: files[i].deletions,
                };
                assert(n == if v[i as int].2 == u32::MAX { u32::MAX } else { (v[i as int].2 + 1) as u32 });
                files.set(i, e);
                assert(files_view(files@) =~= after_line(v, path@, origin));
            } else if origin == '-' {
                let n = files[i].deletions.saturating_add(1);
                let e = FileDiff {
                    path: String::from_str(files[i].path.as_str()),
                    change_type: files[i].change_type,
                    insertions: files[i].insertions,
                    deletions: n,
                };
                files.set(i, e);
                assert(files_view(files@) =~= after_line(v, path@, origin));
            } else {
                assert(files_view(files@) =~= after_line(v, path@, origin));
            }
            return;
        }
        i = i + 1;
    }
    assert(v.take(i as int) =~= v);
}

/// Each stored change type comes from exactly its delta kinds: a deleted
/// file is stored as deleted and only then, a renamed one as renamed and
/// only then, an added, copied or untracked one as added and only then;
/// every other delta is stored as modified.
pub proof fn lemma_change_type_by_status(d: DeltaStatus)
    ensures
        change_type_of(d) == ChangeType::Deleted <==> d == DeltaStatus::Deleted,
        change_type_of(d) == ChangeType::Renamed <==> d == DeltaStatus::Renamed,
        change_type_of(d) == ChangeType::Added <==> (d == DeltaStatus::Added || d == DeltaStatus::Copied || d
            == DeltaStatus::Untracked),
        change_type_of(d) == ChangeType::Modified <==> !(d == DeltaStatus::Deleted || d == DeltaStatus::Renamed
            || d == DeltaStatus::Added || d == DeltaStatus::Copied || d == DeltaStatus::Untracked),
{
}

proof fn lemma_first_with_path(files: Seq<(Seq<char>, ChangeType, u32, u32)>, path: Seq<char>)
    ensures
        first_with_path(files, path) matches Some(k) ==> 0 <= k < files.len() && files[k].0 == path && forall|j: int|
            0 <= j < k ==> #[trigger] files[j].0 != path,
        first_with_path(files, path) is None ==> forall|j: int| 0 <= j < files.len() ==> #[trigger] files[j].0 != path,
    decreases files.len(),
{
    if files.len() > 0 {
        let d = files.drop_last();
        lemma_first_with_path(d, path);
        assert forall|j: int| 0 <= j < d.len() implies #[trigger] files[j] == d[j] by {}
    }
}

/// A diff line counts into the record of its file and nowhere else: a `+`
/// line adds one insertion, a `-` line one deletion (both stopping at the
/// `u32` maximum), to the first record with the line's path, and leaves
/// that record's other fields and every other record as they were; any
/// other line, or a line of a path without a record, changes nothing.
pub proof fn lemma_lines_count_into_their_file(
    files: Seq<(Seq<char>, ChangeType, u32, u32)>,
    path: Seq<char>,
    origin: char,
)
    ensures
        after_line(files, path, origin).len() == files.len(),
        (origin != '+' && origin != '-') || (forall|j: int| 0 <= j < files.len() ==> #[trigger] files[j].0 != path)
            ==> after_line(files, path, origin) == files,
        forall|k: int|
            0 <= k < files.len() && #[trigger] files[k].0 == path && (forall|j: int|
                0 <= j < k ==> files[j].0 != path) ==> {
                let a = after_line(files, path, origin);
                &&& a[k].0 == files[k].0
                &&& a[k].1 == files[k].1
                &&& origin == '+' ==> a[k].2 == (if files[k].2 == u32::MAX { files[k].2 as int } else { files[k].2 + 1 })
                    && a[k].3 == files[k].3
                &&& origin == '-' ==> a[k].3 == (if files[k].3 == u32::MAX { files[k].3 as int } else { files[k].3 + 1 })
                    && a[k].2 == files[k].2
                &&& forall|j: int| 0 <= j < files.len() && j != k ==> a[j] == files[j]
            },
{
    lemma_first_with_path(files, path);
    assert forall|k: int|
        0 <= k < files.len() && #[trigger] files[k].0 == path && (forall|j: int| 0 <= j < k ==> files[j].0 != path)
        implies first_with_path(files, path) == Some(k) by {
        match first_with_path(files, path) {
            Some(q) => {
                if q < k {
                    assert(files[q].0 != path);
                } else if q > k {
                    assert(files[k].0 != path);
                }
            },
            None => {
                assert(files[k].0 != path);
            },
        }
    }
}

} // verus!
