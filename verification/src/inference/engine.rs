//! The divergence of one snapshot from another, in both directions.

use crate::files::{FileMap, FileView};
use crate::inference::assembly::{
    assemble_version_tree, describes, is_ordering, names_at, names_in, names_of, InferenceError,
};
use crate::inference::driver::{
    calculate_divergence_matrix, files_of, result_between,
};
use crate::inference::edmonds::{find_msa, is_square, matrix_view};
use crate::inference::parents::is_arborescence;
use crate::tree::{size, TreeNode};
use crate::types::{
    changes_view, deltas_view, ChangeTag, DiffInfo, DivCalcResult, FileChange, FileDelta,
    LineChange, SnapshotDiff, TextChange, TextualVersionDiff, Version,
};
use vstd::hash_map::StringHashMap;
use vstd::prelude::*;
use vstd::string::StringExecFns;

verus! {

/// What an added file costs, in hundredths.
pub const ADD_FILE_P: u128 = 200;

/// What a deleted file costs, in hundredths.
pub const DELETE_FILE_P: u128 = 400;

/// What a modified file costs, in hundredths.
pub const MODIFY_FILE_P: u128 = 100;

/// What an inserted line costs, in hundredths.
pub const ADD_LINE_P: u128 = 2;

/// What a deleted line costs, in hundredths.
pub const DELETE_LINE_P: u128 = 5;

/// The number of inserted lines, and of deleted lines, beyond which a file
/// costs no more.
pub const LINE_CAP: usize = 50;

/// The number of changes with a tag.
pub open spec fn tag_count(changes: Seq<LineChange>, tag: ChangeTag) -> nat {
    changes.filter(|c: LineChange| c.tag == tag).len()
}

/// A count of lines, as far as it is charged.
pub open spec fn capped(count: nat) -> nat {
    if count < LINE_CAP {
        count
    } else {
        LINE_CAP as nat
    }
}

/// What the lines of one file cost on the way forward.
pub open spec fn lines_forward(changes: Seq<LineChange>) -> nat {
    capped(tag_count(changes, ChangeTag::Insert)) * ADD_LINE_P as nat + capped(
        tag_count(changes, ChangeTag::Delete),
    ) * DELETE_LINE_P as nat
}

/// What the lines of one file cost on the way back: inserting and deleting
/// change places.
pub open spec fn lines_backward(changes: Seq<LineChange>) -> nat {
    capped(tag_count(changes, ChangeTag::Insert)) * DELETE_LINE_P as nat + capped(
        tag_count(changes, ChangeTag::Delete),
    ) * ADD_LINE_P as nat
}

/// What a group of files costs on the way forward, at a price per file.
pub open spec fn group_forward(files: Seq<FileDelta>, per_file: nat) -> nat
    decreases files.len(),
{
    if files.len() == 0 {
        0
    } else {
        group_forward(files.drop_last(), per_file) + per_file + lines_forward(files.last().changes)
    }
}

/// What a group of files costs on the way back, at a price per file.
pub open spec fn group_backward(files: Seq<FileDelta>, per_file: nat) -> nat
    decreases files.len(),
{
    if files.len() == 0 {
        0
    } else {
        group_backward(files.drop_last(), per_file) + per_file + lines_backward(
            files.last().changes,
        )
    }
}

/// The divergence of the new snapshot from the old one, in hundredths.
pub open spec fn forward_score(diff: SnapshotDiff) -> nat {
    group_forward(diff.added, ADD_FILE_P as nat) + group_forward(
        diff.deleted,
        DELETE_FILE_P as nat,
    ) + group_forward(diff.modified, MODIFY_FILE_P as nat)
}

/// The divergence of the old snapshot from the new one, in hundredths.
pub open spec fn backward_score(diff: SnapshotDiff) -> nat {
    group_backward(diff.added, DELETE_FILE_P as nat) + group_backward(
        diff.deleted,
        ADD_FILE_P as nat,
    ) + group_backward(diff.modified, MODIFY_FILE_P as nat)
}

/// What the diff says of the way from the old snapshot to the new one.
pub open spec fn forward_result(diff: SnapshotDiff) -> DivCalcResult {
    DivCalcResult {
        added: diff.added.len() as usize,
        deleted: diff.deleted.len() as usize,
        modified: diff.modified.len() as usize,
        divergence: forward_score(diff) as u128,
    }
}

/// What the diff says of the way from the new snapshot to the old one.
pub open spec fn backward_result(diff: SnapshotDiff) -> DivCalcResult {
    DivCalcResult {
        added: diff.deleted.len() as usize,
        deleted: diff.added.len() as usize,
        modified: diff.modified.len() as usize,
        divergence: backward_score(diff) as u128,
    }
}

/// The most that one file can cost in either direction, its lines included.
pub open spec fn file_cost_limit() -> nat {
    (DELETE_FILE_P + LINE_CAP as u128 * ADD_LINE_P + LINE_CAP as u128 * DELETE_LINE_P) as nat
}

/// However many lines of a file changed, they cost no more than fifty
/// insertions and fifty deletions.
pub proof fn lemma_line_cost_is_capped(changes: Seq<LineChange>)
    ensures
        lines_forward(changes) <= LINE_CAP * ADD_LINE_P + LINE_CAP * DELETE_LINE_P,
        lines_backward(changes) <= LINE_CAP * ADD_LINE_P + LINE_CAP * DELETE_LINE_P,
        tag_count(changes, ChangeTag::Insert) >= LINE_CAP && tag_count(changes, ChangeTag::Delete)
            >= LINE_CAP ==> lines_forward(changes) == LINE_CAP * ADD_LINE_P + LINE_CAP
            * DELETE_LINE_P,
{
}

/// A group of files costs at most the limit for each of its files.
pub proof fn lemma_group_cost_bounded(files: Seq<FileDelta>, per_file: nat)
    requires
        per_file <= DELETE_FILE_P,
    ensures
        group_forward(files, per_file) <= files.len() * file_cost_limit(),
        group_backward(files, per_file) <= files.len() * file_cost_limit(),
    decreases files.len(),
{
    if files.len() > 0 {
        lemma_group_cost_bounded(files.drop_last(), per_file);
        lemma_line_cost_is_capped(files.last().changes);
        assert(files.len() * file_cost_limit() == (files.len() - 1) * file_cost_limit()
            + file_cost_limit()) by (nonlinear_arith);
    }
}

/// A diff in which no file is added, deleted or modified gives no
/// divergence in either direction.
pub proof fn lemma_no_diff_no_divergence(diff: SnapshotDiff)
    requires
        diff.added.len() == 0,
        diff.deleted.len() == 0,
        diff.modified.len() == 0,
    ensures
        forward_score(diff) == 0,
        backward_score(diff) == 0,
        forward_result(diff) == (DivCalcResult { added: 0, deleted: 0, modified: 0, divergence: 0 }),
        backward_result(diff) == (DivCalcResult {
            added: 0,
            deleted: 0,
            modified: 0,
            divergence: 0,
        }),
{
}

/// Scoring the same diff twice gives the same two results.
pub proof fn lemma_scoring_repeats(
    diff: SnapshotDiff,
    first: (DivCalcResult, DivCalcResult),
    second: (DivCalcResult, DivCalcResult),
)
    requires
        first.0 == forward_result(diff) && first.1 == backward_result(diff),
        second.0 == forward_result(diff) && second.1 == backward_result(diff),
    ensures
        first == second,
{
}

/// Counts the changes with a tag.
pub fn count_tag(changes: &Vec<TextChange>, tag: ChangeTag) -> (count: usize)
    ensures
        count == tag_count(changes_view(changes@), tag),
{
    let ghost whole = changes_view(changes@);
    let ghost keep = |c: LineChange| c.tag == tag;
    let mut count: usize = 0;
    assert(whole.take(0) =~= Seq::<LineChange>::empty());
    for i in 0..changes.len()
        invariant
            whole == changes_view(changes@),
            keep == (|c: LineChange| c.tag == tag),
            count == whole.take(i as int).filter(keep).len(),
            count <= i,
    {
        proof {
            assert(whole.take(i + 1).drop_last() =~= whole.take(i as int));
            assert(whole.take(i + 1).last() == whole[i as int]);
            reveal(Seq::filter);
        }
        if changes[i].tag == tag {
            count = count + 1;
        }
    }
    assert(whole.take(changes.len() as int) =~= whole);
    count
}

/// Two amounts of divergence: one for the way forward, one for the way back.
#[derive(Debug, Clone, Copy, PartialEq, Eq, Structural)]
pub struct Pair(pub u128, pub u128);

impl Pair {
    /// Adds another pair, side by side.
    pub fn accumulate(&mut self, rhs: Pair)
        requires
            old(self).0 + rhs.0 <= u128::MAX,
            old(self).1 + rhs.1 <= u128::MAX,
        ensures
            final(self).0 == old(self).0 + rhs.0,
            final(self).1 == old(self).1 + rhs.1,
    {
        self.0 = self.0 + rhs.0;
        self.1 = self.1 + rhs.1;
    }
}

/// What the changed lines of one file cost, forward and back: inserted and
/// deleted lines at their price, each count charged up to the cap.
pub fn file_heuristic(file_change: &FileChange) -> (cost: Pair)
    ensures
        cost.0 == lines_forward(file_change@.changes),
        cost.1 == lines_backward(file_change@.changes),
{
    let inserted = count_tag(&file_change.changes, ChangeTag::Insert);
    let deleted = count_tag(&file_change.changes, ChangeTag::Delete);
    let adds: u128 = (if inserted < LINE_CAP {
        inserted
    } else {
        LINE_CAP
    }) as u128;
    let deletes: u128 = (if deleted < LINE_CAP {
        deleted
    } else {
        LINE_CAP
    }) as u128;
    Pair(adds * ADD_LINE_P + deletes * DELETE_LINE_P, adds * DELETE_LINE_P + deletes * ADD_LINE_P)
}

/// Adds up one group of files, at a price per file forward and back.
fn group_cost(files: &Vec<FileChange>, forward_p: u128, backward_p: u128) -> (cost: Pair)
    requires
        forward_p <= DELETE_FILE_P,
        backward_p <= DELETE_FILE_P,
    ensures
        cost.0 == group_forward(deltas_view(files@), forward_p as nat),
        cost.1 == group_backward(deltas_view(files@), backward_p as nat),
        cost.0 <= files@.len() * file_cost_limit(),
        cost.1 <= files@.len() * file_cost_limit(),
{
    let ghost whole = deltas_view(files@);
    let mut cost = Pair(0, 0);
    assert(whole.take(0) =~= Seq::<FileDelta>::empty());
    for i in 0..files.len()
        invariant
            whole == deltas_view(files@),
            forward_p <= DELETE_FILE_P,
            backward_p <= DELETE_FILE_P,
            cost.0 == group_forward(whole.take(i as int), forward_p as nat),
            cost.1 == group_backward(whole.take(i as int), backward_p as nat),
    {
        proof {
            assert(whole.take(i + 1).drop_last() =~= whole.take(i as int));
            assert(whole.take(i + 1).last() == whole[i as int]);
            lemma_group_cost_bounded(whole.take(i + 1), forward_p as nat);
            lemma_group_cost_bounded(whole.take(i + 1), backward_p as nat);
            assert((i + 1) * file_cost_limit() <= usize::MAX * file_cost_limit())
                by (nonlinear_arith)
                requires
                    i + 1 <= usize::MAX,
            ;
        }
        let lines = file_heuristic(&files[i]);
        cost.accumulate(Pair(forward_p, backward_p));
        cost.accumulate(lines);
    }
    proof {
        assert(whole.take(files.len() as int) =~= whole);
        lemma_group_cost_bounded(whole, forward_p as nat);
        lemma_group_cost_bounded(whole, backward_p as nat);
    }
    cost
}

/// Turns one snapshot diff into the two results that it stands for: the way
/// from the old snapshot to the new one, and the way back. The way back has
/// the added and deleted files in each other's place, the same modified
/// files, and its own divergence.
pub fn calculate_divergences(text_diff: &TextualVersionDiff) -> (results: (
    DivCalcResult,
    DivCalcResult,
))
    ensures
        results.0 == forward_result(text_diff@),
        results.1 == backward_result(text_diff@),
        results.0.added == results.1.deleted,
        results.0.deleted == results.1.added,
        results.0.modified == results.1.modified,
{
    let added = text_diff.added_files.len();
    let deleted = text_diff.deleted_files.len();
    let modified = text_diff.modified_files.len();

    let mut forward_backward = Pair(0, 0);
    let added_cost = group_cost(&text_diff.added_files, ADD_FILE_P, DELETE_FILE_P);
    let deleted_cost = group_cost(&text_diff.deleted_files, DELETE_FILE_P, ADD_FILE_P);
    let modified_cost = group_cost(&text_diff.modified_files, MODIFY_FILE_P, MODIFY_FILE_P);
    proof {
        let limit = file_cost_limit();
        assert(text_diff.added_files@.len() * limit <= usize::MAX * limit) by (nonlinear_arith)
            requires
                text_diff.added_files@.len() <= usize::MAX,
        ;
        assert(text_diff.deleted_files@.len() * limit <= usize::MAX * limit) by (nonlinear_arith)
            requires
                text_diff.deleted_files@.len() <= usize::MAX,
        ;
        assert(text_diff.modified_files@.len() * limit <= usize::MAX * limit)
            by (nonlinear_arith)
            requires
                text_diff.modified_files@.len() <= usize::MAX,
        ;
    }
    forward_backward.accumulate(added_cost);
    forward_backward.accumulate(deleted_cost);
    forward_backward.accumulate(modified_cost);

    let forward = DivCalcResult { added, deleted, modified, divergence: forward_backward.0 };
    let backward = DivCalcResult {
        added: deleted,
        deleted: added,
        modified,
        divergence: forward_backward.1,
    };
    (forward, backward)
}

/// The names of the snapshots, with the name of the empty snapshot first.
pub open spec fn with_empty_name(names: Seq<Seq<char>>) -> Seq<Seq<char>> {
    seq!["Empty"@] + names
}

/// The files of the snapshots, with those of the empty snapshot, none,
/// first.
pub open spec fn with_empty_files(files: Seq<Seq<FileView>>) -> Seq<Seq<FileView>> {
    seq![Seq::<FileView>::empty()] + files
}

/// The matrix of the results between every two of the snapshots.
pub open spec fn result_matrix(files: Seq<Seq<FileView>>) -> Seq<Seq<DivCalcResult>> {
    Seq::new(files.len(), |i: int| Seq::new(files.len(), |j: int| result_between(files, i, j)))
}

/// Whether no two snapshots have the same name and none has the name of
/// the empty snapshot.
pub fn names_are_distinct(versions: &Vec<Version>) -> (ok: bool)
    ensures
        ok == with_empty_name(names_of(versions@)).no_duplicates(),
{
    let ghost names = names_of(versions@);
    let ghost all = with_empty_name(names);
    let mut seen: StringHashMap<bool> = StringHashMap::new();
    seen.insert(String::from_str("Empty"), true);
    proof {
        assert(names.take(0) =~= Seq::<Seq<char>>::empty());
        assert(with_empty_name(names.take(0)) =~= seq!["Empty"@]);
        assert forall|x: Seq<char>| seen@.contains_key(x) <==> with_empty_name(
            names.take(0),
        ).contains(x) by {
            if x == "Empty"@ {
                assert(with_empty_name(names.take(0))[0] == x);
            }
        }
    }
    for i in 0..versions.len()
        invariant
            names == names_of(versions@),
            all == with_empty_name(names),
            with_empty_name(names.take(i as int)).no_duplicates(),
            forall|x: Seq<char>|
                seen@.contains_key(x) <==> with_empty_name(names.take(i as int)).contains(x),
    {
        let ghost before = with_empty_name(names.take(i as int));
        let ghost after = with_empty_name(names.take(i + 1));
        let name = &versions[i].name;
        proof {
            assert(after =~= before.push(name@));
            assert(names[i as int] == name@);
        }
        if seen.contains_key(name.as_str()) {
            proof {
                let k = choose|k: int| 0 <= k < before.len() && before[k] == name@;
                assert(all[k] == name@);
                assert(all[i + 1] == name@);
            }
            return false;
        }
        seen.insert(name.clone(), true);
        proof {
            assert forall|x: Seq<char>| seen@.contains_key(x) <==> after.contains(x) by {
                if before.contains(x) {
                    let k = choose|k: int| 0 <= k < before.len() && before[k] == x;
                    assert(after[k] == x);
                }
                if x == name@ {
                    assert(after[after.len() - 1] == x);
                }
                if after.contains(x) {
                    let k = choose|k: int| 0 <= k < after.len() && after[k] == x;
                    if k < before.len() {
                        assert(before[k] == x);
                    }
                }
            }
            assert forall|a: int, b: int|
                0 <= a < after.len() && 0 <= b < after.len() && a != b implies after[a]
                != after[b] by {
                if a < before.len() && b < before.len() {
                    assert(before[a] != before[b]);
                } else if a < before.len() {
                    assert(before.contains(before[a]));
                } else {
                    assert(before.contains(before[b]));
                }
            }
        }
    }
    assert(names.take(versions@.len() as int) =~= names);
    true
}

/// Calls `std::path::PathBuf::from`, which makes a path of a text. Nothing
/// is said of the path.
#[verifier::external_body]
fn path_of(text: &str) -> std::path::PathBuf {
    std::path::PathBuf::from(text)
}

/// The divergences of a matrix of results.
fn divergences_of(matrix: &Vec<Vec<DivCalcResult>>) -> (divergences: Vec<Vec<u128>>)
    requires
        is_square(matrix@),
    ensures
        divergences@.len() == matrix@.len(),
        is_square(divergences@),
        forall|i: int, j: int|
            0 <= i < matrix@.len() && 0 <= j < matrix@.len() ==> #[trigger] divergences@[i]@[j]
                == matrix@[i]@[j].divergence,
{
    let n = matrix.len();
    let mut divergences: Vec<Vec<u128>> = Vec::new();
    for i in 0..n
        invariant
            n == matrix@.len(),
            is_square(matrix@),
            divergences@.len() == i,
            forall|x: int| 0 <= x < i ==> (#[trigger] divergences@[x])@.len() == n,
            forall|x: int, y: int|
                0 <= x < i && 0 <= y < n ==> #[trigger] divergences@[x]@[y]
                    == matrix@[x]@[y].divergence,
    {
        let mut row: Vec<u128> = Vec::new();
        for j in 0..n
            invariant
                n == matrix@.len(),
                i < n,
                matrix@[i as int]@.len() == n,
                row@.len() == j,
                forall|y: int| 0 <= y < j ==> #[trigger] row@[y] == matrix@[i as int]@[y].divergence,
        {
            row.push(matrix[i][j].divergence);
        }
        divergences.push(row);
    }
    divergences
}

/// Infers a version tree for the snapshots. The empty snapshot, named
/// `Empty` and without files, is put in front of them as snapshot 0; every
/// two snapshots are compared; a spanning arborescence rooted at the empty
/// snapshot is sought over the divergences; and the tree is built from it.
///
/// Snapshots whose names are not distinct from each other and from `Empty`
/// are refused, and no others. The tree is the one that
/// [`assemble_version_tree`] builds from the arborescence that the solver
/// returns; which of the arborescences that is, the solver decides.
pub fn infer_version_tree(versions: Vec<Version>, multithreading: bool) -> (result: Result<
    TreeNode<DiffInfo>,
    InferenceError,
>)
    ensures
        result == Err::<TreeNode<DiffInfo>, InferenceError>(InferenceError::DuplicateName)
            <==> !with_empty_name(names_of(versions@)).no_duplicates(),
        with_empty_name(names_of(versions@)).no_duplicates() ==> result is Ok,
        result matches Ok(tree) ==> {
            &&& size(tree@) == versions@.len() + 1
            &&& exists|parents: Seq<Option<usize>>| #[trigger]
                is_arborescence(parents, 0) && describes(
                    tree@,
                    0,
                    None,
                    parents,
                    with_empty_name(names_of(versions@)),
                    result_matrix(with_empty_files(files_of(versions@))),
                )
            &&& exists|order: Seq<usize>| #[trigger]
                is_ordering(order, (versions@.len() + 1) as nat) && names_in(tree@) == names_at(
                    with_empty_name(names_of(versions@)),
                    order,
                )
        },
{
    if !names_are_distinct(&versions) {
        return Err(InferenceError::DuplicateName);
    }
    let ghost given = versions@;
    let mut versions = versions;
    let null_version = Version {
        name: String::from_str("Empty"),
        path: path_of("."),
        files: FileMap::new(),
    };
    versions.insert(0, null_version);
    proof {
        assert(names_of(versions@) =~= with_empty_name(names_of(given)));
        assert(files_of(versions@) =~= with_empty_files(files_of(given)));
    }
    let results = calculate_divergence_matrix(&versions, multithreading);
    proof {
        assert(matrix_view(results@) =~= result_matrix(files_of(versions@))) by {
            assert forall|i: int| 0 <= i < results@.len() implies matrix_view(results@)[i]
                =~= result_matrix(files_of(versions@))[i] by {
                assert(results@[i]@.len() == results@.len());
            }
        }
    }
    let divergences = divergences_of(&results);
    let msa = find_msa(&divergences, 0);
    let tree = assemble_version_tree(&versions, &results, &msa);
    proof {
        if tree is Ok {
            assert(is_arborescence(msa@, 0));
        }
    }
    tree
}

} // verus!
