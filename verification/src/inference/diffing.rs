//! Line diffs of two texts, and the diff of two snapshots built from them.

use crate::files::{distinct_paths, has_path, position_of, text_at, FileData, FileView};
use crate::seqs::lemma_select_push;
use crate::types::{
    changes_view, deltas_view, ChangeTag, FileChange, FileDelta, LineChange, SnapshotDiff,
    TextChange, TextualVersionDiff, Version,
};
use vstd::prelude::*;

verus! {

/// The line diff of the text `old` against the text `new`, as the Myers
/// algorithm of the `similar` crate gives it: every line of either text, in
/// order, each tagged as equal, deleted or inserted.
pub uninterp spec fn line_diff(old: Seq<char>, new: Seq<char>) -> Seq<LineChange>;

/// Calls `similar::TextDiff::from_lines` and walks the result with
/// `iter_all_changes`. The diff is made without a deadline, so the same two
/// texts always give the same changes: they are the ones that [`line_diff`]
/// names. Each change is handed back field by field.
#[verifier::external_body]
fn diff_lines(old: &str, new: &str) -> (changes: Vec<TextChange>)
    ensures
        changes_view(changes@) == line_diff(old@, new@),
{
    let diff = similar::TextDiff::from_lines(old, new);
    diff.iter_all_changes().map(|c| TextChange {
        tag: match c.tag() {
            similar::ChangeTag::Equal => ChangeTag::Equal,
            similar::ChangeTag::Delete => ChangeTag::Delete,
            similar::ChangeTag::Insert => ChangeTag::Insert,
        },
        old_index: c.old_index(),
        new_index: c.new_index(),
        value: c.value().to_string(),
    }).collect()
}

/// The changes of a diff that change something: all but the equal lines.
pub open spec fn real_changes(changes: Seq<LineChange>) -> Seq<LineChange> {
    changes.filter(|c: LineChange| c.tag != ChangeTag::Equal)
}

/// The inserted and deleted lines that turn the text `old` into the text
/// `new`, in the order of the line diff.
pub open spec fn text_changes(old: Seq<char>, new: Seq<char>) -> Seq<LineChange> {
    real_changes(line_diff(old, new))
}

/// Keeps the changes that change something, in their order.
pub fn keep_real_changes(all: Vec<TextChange>) -> (kept: Vec<TextChange>)
    ensures
        changes_view(kept@) == real_changes(changes_view(all@)),
{
    let ghost whole = changes_view(all@);
    let mut kept: Vec<TextChange> = Vec::new();
    assert(changes_view(kept@) =~= real_changes(whole.take(0))) by {
        assert(whole.take(0) =~= Seq::<LineChange>::empty());
    }
    for change in it: all
        invariant
            whole == changes_view(it.seq()),
            changes_view(kept@) == real_changes(whole.take(it.index() as int)),
    {
        let ghost i = it.index() as int;
        let ghost before = changes_view(kept@);
        proof {
            assert(whole.take(i + 1) =~= whole.take(i).push(whole[i]));
            lemma_real_changes_push(whole.take(i), whole[i]);
            assert(change@ == whole[i]);
        }
        match change.tag {
            ChangeTag::Equal => {},
            _ => {
                kept.push(change);
                assert(changes_view(kept@) =~= before.push(whole[i]));
            },
        }
    }
    assert(whole.take(whole.len() as int) =~= whole);
    kept
}

/// Filtering a sequence with one more change at its end.
pub proof fn lemma_real_changes_push(changes: Seq<LineChange>, last: LineChange)
    ensures
        real_changes(changes.push(last)) == if last.tag != ChangeTag::Equal {
            real_changes(changes).push(last)
        } else {
            real_changes(changes)
        },
{
    let keep = |c: LineChange| c.tag != ChangeTag::Equal;
    assert(changes.push(last).drop_last() =~= changes);
    reveal(Seq::filter);
}

/// Finds the lines that turn `old_text` into `new_text` and puts them at the
/// end of `buffer`.
pub fn push_text_diff_changes(old_text: &str, new_text: &str, buffer: &mut Vec<TextChange>)
    ensures
        changes_view(final(buffer)@) == changes_view(old(buffer)@) + text_changes(
            old_text@,
            new_text@,
        ),
{
    let mut kept = keep_real_changes(diff_lines(old_text, new_text));
    let ghost before = changes_view(buffer@);
    let ghost added = changes_view(kept@);
    buffer.append(&mut kept);
    assert(changes_view(buffer@) =~= before + added);
}

/// The file is in the other snapshot too, with another text.
pub open spec fn changed_in(file: FileView, other: Seq<FileView>) -> bool {
    has_path(other, file.path) && text_at(other, file.path) != file.text
}

/// The file is not in the other snapshot.
pub open spec fn missing_in(file: FileView, other: Seq<FileView>) -> bool {
    !has_path(other, file.path)
}

/// The change to a file that is in both snapshots: the lines that turn its
/// old text into its new one.
pub open spec fn modified_delta(file: FileView, new_files: Seq<FileView>) -> FileDelta {
    FileDelta {
        filename: file.path,
        changes: text_changes(file.text, text_at(new_files, file.path)),
    }
}

/// The change to a file that went: every line of it, against the empty text.
pub open spec fn deleted_delta(file: FileView) -> FileDelta {
    FileDelta { filename: file.path, changes: text_changes(file.text, Seq::<char>::empty()) }
}

/// The change to a file that came: every line of it, from the empty text.
pub open spec fn added_delta(file: FileView) -> FileDelta {
    FileDelta { filename: file.path, changes: text_changes(Seq::<char>::empty(), file.text) }
}

/// The files of the old snapshot whose text differs in the new one, in the
/// old snapshot's order.
pub open spec fn modified_between(old_files: Seq<FileView>, new_files: Seq<FileView>) -> Seq<
    FileDelta,
> {
    old_files.filter(|f: FileView| changed_in(f, new_files)).map_values(
        |f: FileView| modified_delta(f, new_files),
    )
}

/// The files of the old snapshot that the new one lacks, in the old
/// snapshot's order.
pub open spec fn deleted_between(old_files: Seq<FileView>, new_files: Seq<FileView>) -> Seq<
    FileDelta,
> {
    old_files.filter(|f: FileView| missing_in(f, new_files)).map_values(
        |f: FileView| deleted_delta(f),
    )
}

/// The files of the new snapshot that the old one lacks, in the new
/// snapshot's order.
pub open spec fn added_between(old_files: Seq<FileView>, new_files: Seq<FileView>) -> Seq<
    FileDelta,
> {
    new_files.filter(|f: FileView| missing_in(f, old_files)).map_values(
        |f: FileView| added_delta(f),
    )
}

/// The diff of two snapshots: each path of either goes to the added, the
/// deleted or the modified files, or, where both hold the same text under
/// it, to none.
pub open spec fn snapshot_diff(old_files: Seq<FileView>, new_files: Seq<FileView>) -> SnapshotDiff {
    SnapshotDiff {
        added: added_between(old_files, new_files),
        deleted: deleted_between(old_files, new_files),
        modified: modified_between(old_files, new_files),
    }
}

/// The paths of a group of changed files.
pub open spec fn paths_of(group: Seq<FileDelta>) -> Seq<Seq<char>> {
    group.map_values(|d: FileDelta| d.filename)
}

/// The paths of all the files that a diff holds: added, deleted, modified.
pub open spec fn changed_paths(diff: SnapshotDiff) -> Seq<Seq<char>> {
    paths_of(diff.added) + paths_of(diff.deleted) + paths_of(diff.modified)
}

/// The files that are chosen from a snapshot and turned into changes under
/// their own paths have the paths of the chosen files, each once.
pub proof fn lemma_selected_paths(
    files: Seq<FileView>,
    keep: spec_fn(FileView) -> bool,
    to: spec_fn(FileView) -> FileDelta,
)
    requires
        distinct_paths(files),
        forall|f: FileView| (#[trigger] to(f)).filename == f.path,
    ensures
        paths_of(files.filter(keep).map_values(to)).no_duplicates(),
        forall|p: Seq<char>|
            paths_of(files.filter(keep).map_values(to)).contains(p) <==> exists|i: int|
                0 <= i < files.len() && (#[trigger] files[i]).path == p && keep(files[i]),
    decreases files.len(),
{
    let chosen = paths_of(files.filter(keep).map_values(to));
    if files.len() == 0 {
        assert(files.filter(keep) =~= Seq::<FileView>::empty()) by {
            reveal(Seq::filter);
        }
    } else {
        let front = files.drop_last();
        let last = files.last();
        let before = paths_of(front.filter(keep).map_values(to));
        assert(files =~= front.push(last));
        assert(distinct_paths(front)) by {
            assert forall|i: int, j: int|
                0 <= i < front.len() && 0 <= j < front.len() && i != j implies (
            #[trigger] front[i]).path != (#[trigger] front[j]).path by {
                assert(files[i].path != files[j].path);
            }
        }
        lemma_selected_paths(front, keep, to);
        lemma_select_push(front, last, keep, to);
        if keep(last) {
            assert(chosen =~= before.push(last.path));
            assert forall|a: int, b: int|
                0 <= a < chosen.len() && 0 <= b < chosen.len() && a != b implies chosen[a]
                != chosen[b] by {
                if a < before.len() && b < before.len() {
                    assert(before[a] != before[b]);
                } else {
                    let inner = if a < before.len() {
                        a
                    } else {
                        b
                    };
                    assert(before.contains(before[inner]));
                    let i = choose|i: int|
                        0 <= i < front.len() && (#[trigger] front[i]).path == before[inner]
                            && keep(front[i]);
                    assert(files[i].path != files[files.len() - 1].path);
                }
            }
        } else {
            assert(chosen =~= before);
        }
        assert forall|p: Seq<char>| chosen.contains(p) <==> exists|i: int|
            0 <= i < files.len() && (#[trigger] files[i]).path == p && keep(files[i]) by {
            if chosen.contains(p) {
                let at = choose|at: int| 0 <= at < chosen.len() && chosen[at] == p;
                if at < before.len() {
                    assert(before[at] == p);
                    assert(before.contains(p));
                    let i = choose|i: int|
                        0 <= i < front.len() && (#[trigger] front[i]).path == p && keep(front[i]);
                    assert(files[i].path == p && keep(files[i]));
                } else {
                    assert(files[files.len() - 1].path == p && keep(files[files.len() - 1]));
                }
            }
            if exists|i: int|
                0 <= i < files.len() && (#[trigger] files[i]).path == p && keep(files[i]) {
                let i = choose|i: int|
                    0 <= i < files.len() && (#[trigger] files[i]).path == p && keep(files[i]);
                if i < front.len() {
                    assert(front[i].path == p && keep(front[i]));
                    assert(before.contains(p));
                    let at = choose|at: int| 0 <= at < before.len() && before[at] == p;
                    assert(chosen[at] == p);
                } else {
                    assert(chosen[chosen.len() - 1] == p);
                }
            }
        }
    }
}

/// A diff is total. Each path goes to one group at most, once: to the added
/// files where only the new snapshot has it, to the deleted files where
/// only the old snapshot has it, to the modified files where both have it
/// with different text. A path that both hold with the same text goes to
/// none.
pub proof fn lemma_diff_is_total(old_files: Seq<FileView>, new_files: Seq<FileView>)
    requires
        distinct_paths(old_files),
        distinct_paths(new_files),
    ensures
        changed_paths(snapshot_diff(old_files, new_files)).no_duplicates(),
        forall|p: Seq<char>|
            paths_of(snapshot_diff(old_files, new_files).added).contains(p) <==> (has_path(
                new_files,
                p,
            ) && !has_path(old_files, p)),
        forall|p: Seq<char>|
            paths_of(snapshot_diff(old_files, new_files).deleted).contains(p) <==> (has_path(
                old_files,
                p,
            ) && !has_path(new_files, p)),
        forall|p: Seq<char>|
            paths_of(snapshot_diff(old_files, new_files).modified).contains(p) <==> (has_path(
                old_files,
                p,
            ) && has_path(new_files, p) && text_at(old_files, p) != text_at(new_files, p)),
{
    let diff = snapshot_diff(old_files, new_files);
    let added = paths_of(diff.added);
    let deleted = paths_of(diff.deleted);
    let modified = paths_of(diff.modified);
    lemma_selected_paths(
        new_files,
        |f: FileView| missing_in(f, old_files),
        |f: FileView| added_delta(f),
    );
    lemma_selected_paths(
        old_files,
        |f: FileView| missing_in(f, new_files),
        |f: FileView| deleted_delta(f),
    );
    lemma_selected_paths(
        old_files,
        |f: FileView| changed_in(f, new_files),
        |f: FileView| modified_delta(f, new_files),
    );
    assert forall|p: Seq<char>| added.contains(p) <==> (has_path(new_files, p) && !has_path(
        old_files,
        p,
    )) by {
        if has_path(new_files, p) && !has_path(old_files, p) {
            let j = position_of(new_files, p);
            assert(new_files[j].path == p && missing_in(new_files[j], old_files));
        }
    }
    assert forall|p: Seq<char>| deleted.contains(p) <==> (has_path(old_files, p) && !has_path(
        new_files,
        p,
    )) by {
        if has_path(old_files, p) && !has_path(new_files, p) {
            let i = position_of(old_files, p);
            assert(old_files[i].path == p && missing_in(old_files[i], new_files));
        }
    }
    assert forall|p: Seq<char>| modified.contains(p) <==> (has_path(old_files, p) && has_path(
        new_files,
        p,
    ) && text_at(old_files, p) != text_at(new_files, p)) by {
        if modified.contains(p) {
            let i = choose|i: int|
                0 <= i < old_files.len() && (#[trigger] old_files[i]).path == p && changed_in(
                    old_files[i],
                    new_files,
                );
            let at = position_of(old_files, p);
            assert(old_files[at].path == p);
            assert(at == i);
        }
        if has_path(old_files, p) && has_path(new_files, p) && text_at(old_files, p) != text_at(
            new_files,
            p,
        ) {
            let i = position_of(old_files, p);
            assert(old_files[i].path == p && changed_in(old_files[i], new_files));
        }
    }
    assert((added + deleted).no_duplicates()) by {
        assert forall|i: int, j: int| 0 <= i < added.len() && 0 <= j < deleted.len() implies added[i]
            != deleted[j] by {
            assert(added.contains(added[i]));
            assert(deleted.contains(deleted[j]));
        }
        vstd::seq_lib::lemma_no_dup_in_concat(added, deleted);
    }
    assert forall|i: int, j: int|
        0 <= i < (added + deleted).len() && 0 <= j < modified.len() implies (added + deleted)[i]
        != modified[j] by {
        assert(modified.contains(modified[j]));
        if i < added.len() {
            assert(added.contains(added[i]));
        } else {
            assert(deleted.contains(deleted[i - added.len()]));
        }
    }
    vstd::seq_lib::lemma_no_dup_in_concat(added + deleted, modified);
}

/// The two snapshots hold the same paths, with the same text under each.
pub open spec fn same_content(a: Seq<FileView>, b: Seq<FileView>) -> bool {
    &&& forall|i: int|
        0 <= i < a.len() ==> has_path(b, (#[trigger] a[i]).path) && text_at(b, a[i].path)
            == a[i].text
    &&& forall|j: int| 0 <= j < b.len() ==> has_path(a, (#[trigger] b[j]).path)
}

/// The diff in which no file is added, deleted or modified.
pub open spec fn no_diff() -> SnapshotDiff {
    SnapshotDiff {
        added: Seq::<FileDelta>::empty(),
        deleted: Seq::<FileDelta>::empty(),
        modified: Seq::<FileDelta>::empty(),
    }
}

/// Between two snapshots of the same content no file is added, deleted or
/// modified.
pub proof fn lemma_same_content_no_diff(a: Seq<FileView>, b: Seq<FileView>)
    requires
        same_content(a, b),
    ensures
        snapshot_diff(a, b) == no_diff(),
{
    let changed = |f: FileView| changed_in(f, b);
    let missing_new = |f: FileView| missing_in(f, b);
    let missing_old = |f: FileView| missing_in(f, a);
    assert(a.all(|f: FileView| !changed(f)));
    assert(a.all(|f: FileView| !missing_new(f)));
    assert(b.all(|f: FileView| !missing_old(f)));
    a.lemma_all_neg_filter_empty(changed);
    a.lemma_all_neg_filter_empty(missing_new);
    b.lemma_all_neg_filter_empty(missing_old);
    assert(modified_between(a, b) =~= Seq::<FileDelta>::empty());
    assert(deleted_between(a, b) =~= Seq::<FileDelta>::empty());
    assert(added_between(a, b) =~= Seq::<FileDelta>::empty());
}

/// The text by which a file is compared.
fn text_of(data: &FileData) -> (text: &str)
    ensures
        text@ == data.text(),
{
    match &data.text_content {
        Some(s) => s.as_str(),
        None => {
            proof {
                reveal_strlit("");
            }
            assert(""@ =~= Seq::<char>::empty());
            ""
        },
    }
}

/// Whether two files are compared as the same text.
fn same_text(a: &FileData, b: &FileData) -> (same: bool)
    ensures
        same == (a.text() == b.text()),
{
    match (&a.text_content, &b.text_content) {
        (Some(x), Some(y)) => *x == *y,
        (Some(x), None) => {
            let empty = x.as_str().is_empty();
            assert(empty == (x@ =~= Seq::<char>::empty()));
            empty
        },
        (None, Some(y)) => {
            let empty = y.as_str().is_empty();
            assert(empty == (y@ =~= Seq::<char>::empty()));
            empty
        },
        (None, None) => true,
    }
}

/// The change to one file, from one text to another.
fn file_change(path: &String, old_text: &str, new_text: &str) -> (change: FileChange)
    ensures
        change@ == (FileDelta { filename: path@, changes: text_changes(old_text@, new_text@) }),
{
    let mut changes: Vec<TextChange> = Vec::new();
    assert(changes_view(changes@) =~= Seq::<LineChange>::empty());
    push_text_diff_changes(old_text, new_text, &mut changes);
    assert(changes_view(changes@) =~= text_changes(old_text@, new_text@));
    FileChange { filename: path.clone(), changes }
}

/// Finds which files were added, deleted and modified from `old_version` to
/// `new_version`, and by which lines.
pub fn text_diff_versions(old_version: &Version, new_version: &Version) -> (diff:
    TextualVersionDiff)
    ensures
        diff@ == snapshot_diff(old_version.files@, new_version.files@),
{
    let ghost old_files = old_version.files@;
    let ghost new_files = new_version.files@;
    let mut added_files: Vec<FileChange> = Vec::new();
    let mut deleted_files: Vec<FileChange> = Vec::new();
    let mut modified_files: Vec<FileChange> = Vec::new();

    let old_len = old_version.files.len();
    assert(old_files.take(0) =~= Seq::<FileView>::empty());
    assert(deltas_view(deleted_files@) =~= deleted_between(old_files.take(0), new_files));
    assert(deltas_view(modified_files@) =~= modified_between(old_files.take(0), new_files));
    for i in 0..old_len
        invariant
            old_len == old_files.len(),
            old_files == old_version.files@,
            new_files == new_version.files@,
            deltas_view(deleted_files@) == deleted_between(old_files.take(i as int), new_files),
            deltas_view(modified_files@) == modified_between(old_files.take(i as int), new_files),
    {
        let path = old_version.files.path_at(i);
        let old_file = old_version.files.data_at(i);
        let ghost file = old_files[i as int];
        let ghost deleted_before = deltas_view(deleted_files@);
        let ghost modified_before = deltas_view(modified_files@);
        proof {
            assert(old_files.take(i + 1) =~= old_files.take(i as int).push(file));
            lemma_select_push(
                old_files.take(i as int),
                file,
                |f: FileView| missing_in(f, new_files),
                |f: FileView| deleted_delta(f),
            );
            lemma_select_push(
                old_files.take(i as int),
                file,
                |f: FileView| changed_in(f, new_files),
                |f: FileView| modified_delta(f, new_files),
            );
        }
        match new_version.files.get(path.as_str()) {
            Some(new_file) => {
                if !same_text(old_file, new_file) {
                    let change = file_change(path, text_of(old_file), text_of(new_file));
                    modified_files.push(change);
                    assert(deltas_view(modified_files@) =~= modified_before.push(
                        modified_delta(file, new_files),
                    ));
                }
            },
            None => {
                let change = file_change(path, text_of(old_file), "");
                proof {
                    reveal_strlit("");
                    assert(""@ =~= Seq::<char>::empty());
                }
                deleted_files.push(change);
                assert(deltas_view(deleted_files@) =~= deleted_before.push(deleted_delta(file)));
            },
        }
    }
    assert(old_files.take(old_len as int) =~= old_files);

    let new_len = new_version.files.len();
    assert(new_files.take(0) =~= Seq::<FileView>::empty());
    assert(deltas_view(added_files@) =~= added_between(old_files, new_files.take(0)));
    for i in 0..new_len
        invariant
            new_len == new_files.len(),
            old_files == old_version.files@,
            new_files == new_version.files@,
            deltas_view(added_files@) == added_between(old_files, new_files.take(i as int)),
    {
        let path = new_version.files.path_at(i);
        let new_file = new_version.files.data_at(i);
        let ghost file = new_files[i as int];
        let ghost added_before = deltas_view(added_files@);
        proof {
            assert(new_files.take(i + 1) =~= new_files.take(i as int).push(file));
            lemma_select_push(
                new_files.take(i as int),
                file,
                |f: FileView| missing_in(f, old_files),
                |f: FileView| added_delta(f),
            );
        }
        if old_version.files.get(path.as_str()).is_none() {
            let change = file_change(path, "", text_of(new_file));
            proof {
                reveal_strlit("");
                assert(""@ =~= Seq::<char>::empty());
            }
            added_files.push(change);
            assert(deltas_view(added_files@) =~= added_before.push(added_delta(file)));
        }
    }
    assert(new_files.take(new_len as int) =~= new_files);

    TextualVersionDiff { added_files, deleted_files, modified_files }
}

} // verus!
