//! The comparison of every snapshot with every other: which pairs are
//! compared, and the matrix that the results fill.

use crate::files::FileView;
use crate::inference::diffing::{
    lemma_same_content_no_diff, same_content, snapshot_diff, text_diff_versions,
};
use crate::inference::edmonds::is_square;
use crate::inference::engine::{
    backward_result, backward_score, calculate_divergences, forward_result, forward_score,
    lemma_no_diff_no_divergence,
};
use crate::types::{DivCalcResult, Version};
use rayon::iter::{IntoParallelRefIterator, ParallelIterator};
use vstd::prelude::*;

verus! {

/// The files of each snapshot.
pub open spec fn files_of(versions: Seq<Version>) -> Seq<Seq<FileView>> {
    Seq::new(versions.len(), |i: int| versions[i].files@)
}

/// What comparing an old set of files with a new one gives: the result for
/// the way forward and the result for the way back.
pub open spec fn compared(old_files: Seq<FileView>, new_files: Seq<FileView>) -> (
    DivCalcResult,
    DivCalcResult,
) {
    (
        forward_result(snapshot_diff(old_files, new_files)),
        backward_result(snapshot_diff(old_files, new_files)),
    )
}

/// The result that says nothing differs.
pub open spec fn no_difference() -> DivCalcResult {
    DivCalcResult { added: 0, deleted: 0, modified: 0, divergence: 0 }
}

/// What the matrix holds for the way from snapshot `i` to snapshot `j`. Each
/// pair is compared once, the earlier snapshot as the old one: the way from
/// the earlier to the later is that comparison's way forward, the way from
/// the later to the earlier its way back. A snapshot does not differ from
/// itself.
pub open spec fn result_between(files: Seq<Seq<FileView>>, i: int, j: int) -> DivCalcResult {
    if i < j {
        compared(files[i], files[j]).0
    } else if j < i {
        compared(files[j], files[i]).1
    } else {
        no_difference()
    }
}

/// The matrix holds, for each two snapshots, the result between them.
pub open spec fn is_result_matrix(matrix: Seq<Vec<DivCalcResult>>, files: Seq<Seq<FileView>>) -> bool {
    &&& matrix.len() == files.len()
    &&& is_square(matrix)
    &&& forall|i: int, j: int|
        0 <= i < files.len() && 0 <= j < files.len() ==> #[trigger] matrix[i]@[j] == result_between(
            files,
            i,
            j,
        )
}

/// Between any two snapshots, the way back has the added and deleted files
/// of the way there in each other's place, and the same modified files.
pub proof fn lemma_results_mirrored(files: Seq<Seq<FileView>>, i: int, j: int)
    ensures
        result_between(files, i, j).added == result_between(files, j, i).deleted,
        result_between(files, i, j).deleted == result_between(files, j, i).added,
        result_between(files, i, j).modified == result_between(files, j, i).modified,
{
}

/// No snapshot diverges from itself, and no divergence is negative.
pub proof fn lemma_divergence_bounds(files: Seq<Seq<FileView>>, i: int, j: int)
    ensures
        result_between(files, i, i).divergence == 0,
        result_between(files, i, j).divergence >= 0,
        forward_score(snapshot_diff(files[i], files[j])) >= 0,
        backward_score(snapshot_diff(files[i], files[j])) >= 0,
{
}

/// Two snapshots of the same content do not diverge, whichever comes first:
/// the result between them says that nothing differs.
pub proof fn lemma_same_content_no_divergence(files: Seq<Seq<FileView>>, i: int, j: int)
    requires
        0 <= i < files.len(),
        0 <= j < files.len(),
        same_content(files[i], files[j]),
        same_content(files[j], files[i]),
    ensures
        result_between(files, i, j) == no_difference(),
        result_between(files, i, j).divergence == 0,
{
    if i < j {
        lemma_same_content_no_diff(files[i], files[j]);
        lemma_no_diff_no_divergence(snapshot_diff(files[i], files[j]));
    } else if j < i {
        lemma_same_content_no_diff(files[j], files[i]);
        lemma_no_diff_no_divergence(snapshot_diff(files[j], files[i]));
    }
}

/// Compares two snapshots: the diff from `old_version` to `new_version`,
/// scored forward and back.
pub fn compare_versions(old_version: &Version, new_version: &Version) -> (results: (
    DivCalcResult,
    DivCalcResult,
))
    ensures
        results == compared(old_version.files@, new_version.files@),
{
    let text_diff = text_diff_versions(old_version, new_version);
    calculate_divergences(&text_diff)
}

/// The pairs with the later snapshot `j`: each earlier snapshot with it.
pub open spec fn pairs_with(j: nat) -> Seq<(usize, usize)> {
    Seq::new(j, |i: int| (i as usize, j as usize))
}

/// The pairs of snapshots to compare among the first `n`: each snapshot
/// with each earlier one, ordered by the later snapshot, then the earlier.
pub open spec fn all_pairs(n: nat) -> Seq<(usize, usize)>
    decreases n,
{
    if n == 0 {
        Seq::<(usize, usize)>::empty()
    } else {
        all_pairs((n - 1) as nat) + pairs_with((n - 1) as nat)
    }
}

/// The pairs to compare are the pairs of an earlier and a later snapshot,
/// and all of those.
pub proof fn lemma_all_pairs(n: nat)
    requires
        n <= usize::MAX,
    ensures
        forall|k: int|
            0 <= k < all_pairs(n).len() ==> (#[trigger] all_pairs(n)[k]).0 < all_pairs(n)[k].1 < n,
        forall|i: usize, j: usize| i < j < n ==> all_pairs(n).contains((i, j)),
    decreases n,
{
    if n > 0 {
        let less = (n - 1) as nat;
        lemma_all_pairs(less);
        let front = all_pairs(less);
        let back = pairs_with(less);
        assert forall|i: usize, j: usize| i < j < n implies all_pairs(n).contains((i, j)) by {
            if j < less {
                assert(front.contains((i, j)));
                let k = choose|k: int| 0 <= k < front.len() && front[k] == (i, j);
                assert((front + back)[k] == (i, j));
            } else {
                assert(back[i as int] == (i, j));
                assert((front + back)[front.len() + i] == (i, j));
            }
        }
    }
}

/// Lists the pairs of snapshots to compare.
pub fn pairs_to_compare(n: usize) -> (pairs: Vec<(usize, usize)>)
    ensures
        pairs@ == all_pairs(n as nat),
{
    let mut to_compare: Vec<(usize, usize)> = Vec::new();
    if n == 0 {
        return to_compare;
    }
    assert(all_pairs(1) =~= Seq::<(usize, usize)>::empty()) by {
        assert(all_pairs(0) =~= Seq::<(usize, usize)>::empty());
        assert(pairs_with(0) =~= Seq::<(usize, usize)>::empty());
    }
    for j in 1..n
        invariant
            to_compare@ == all_pairs(j as nat),
    {
        let ghost before = to_compare@;
        for i in 0..j
            invariant
                to_compare@ == before + pairs_with(j as nat).take(i as int),
        {
            to_compare.push((i, j));
            assert(pairs_with(j as nat).take(i + 1) =~= pairs_with(j as nat).take(i as int).push(
                (i, j),
            ));
        }
        assert(pairs_with(j as nat).take(j as int) =~= pairs_with(j as nat));
    }
    to_compare
}

/// Compares the pairs one after another.
fn compare_in_turn(versions: &Vec<Version>, pairs: &Vec<(usize, usize)>) -> (results: Vec<
    (DivCalcResult, DivCalcResult),
>)
    requires
        forall|k: int|
            0 <= k < pairs@.len() ==> (#[trigger] pairs@[k]).0 < versions@.len() && pairs@[k].1
                < versions@.len(),
    ensures
        results@.len() == pairs@.len(),
        forall|k: int|
            0 <= k < pairs@.len() ==> #[trigger] results@[k] == compared(
                versions@[pairs@[k].0 as int].files@,
                versions@[pairs@[k].1 as int].files@,
            ),
{
    let mut results: Vec<(DivCalcResult, DivCalcResult)> = Vec::new();
    for k in 0..pairs.len()
        invariant
            forall|k: int|
                0 <= k < pairs@.len() ==> (#[trigger] pairs@[k]).0 < versions@.len() && pairs@[k].1
                    < versions@.len(),
            results@.len() == k,
            forall|x: int|
                0 <= x < k ==> #[trigger] results@[x] == compared(
                    versions@[pairs@[x].0 as int].files@,
                    versions@[pairs@[x].1 as int].files@,
                ),
    {
        let (i, j) = pairs[k];
        results.push(compare_versions(&versions[i], &versions[j]));
    }
    results
}

/// Hands the pairs to rayon's `par_iter().map(..).collect()`, which calls
/// [`compare_versions`] on each pair, on the threads of its pool, and puts
/// the results into a vector in the order of the pairs.
#[verifier::external_body]
fn compare_in_parallel(versions: &Vec<Version>, pairs: &Vec<(usize, usize)>) -> (results: Vec<
    (DivCalcResult, DivCalcResult),
>)
    requires
        forall|k: int|
            0 <= k < pairs@.len() ==> (#[trigger] pairs@[k]).0 < versions@.len() && pairs@[k].1
                < versions@.len(),
    ensures
        results@.len() == pairs@.len(),
        forall|k: int|
            0 <= k < pairs@.len() ==> #[trigger] results@[k] == compared(
                versions@[pairs@[k].0 as int].files@,
                versions@[pairs@[k].1 as int].files@,
            ),
{
    pairs.par_iter().map(|&(i, j)| compare_versions(&versions[i], &versions[j])).collect()
}

/// A matrix of `n` rows and `n` columns in which nothing differs.
fn empty_matrix(n: usize) -> (matrix: Vec<Vec<DivCalcResult>>)
    ensures
        matrix@.len() == n,
        is_square(matrix@),
        forall|i: int, j: int| 0 <= i < n && 0 <= j < n ==> #[trigger] matrix@[i]@[j] == no_difference(),
{
    let mut matrix: Vec<Vec<DivCalcResult>> = Vec::new();
    for i in 0..n
        invariant
            matrix@.len() == i,
            forall|x: int| 0 <= x < i ==> (#[trigger] matrix@[x])@.len() == n,
            forall|x: int, y: int|
                0 <= x < i && 0 <= y < n ==> #[trigger] matrix@[x]@[y] == no_difference(),
    {
        let mut row: Vec<DivCalcResult> = Vec::new();
        for j in 0..n
            invariant
                row@.len() == j,
                forall|y: int| 0 <= y < j ==> #[trigger] row@[y] == no_difference(),
        {
            row.push(DivCalcResult::new());
        }
        matrix.push(row);
    }
    matrix
}

/// Compares every snapshot with every other, each pair once, and fills the
/// matrix of results: row `i`, column `j` holds the way from snapshot `i` to
/// snapshot `j`. With `multithreading` the pairs are compared on several
/// threads; the matrix is the same.
pub fn calculate_divergence_matrix(versions: &Vec<Version>, multithreading: bool) -> (matrix: Vec<
    Vec<DivCalcResult>,
>)
    ensures
        is_result_matrix(matrix@, files_of(versions@)),
{
    let n = versions.len();
    let ghost files = files_of(versions@);
    let to_compare = pairs_to_compare(n);
    proof {
        lemma_all_pairs(n as nat);
    }
    let results = if multithreading {
        compare_in_parallel(versions, &to_compare)
    } else {
        compare_in_turn(versions, &to_compare)
    };
    let mut matrix = empty_matrix(n);
    for k in 0..to_compare.len()
        invariant
            n == versions@.len(),
            files == files_of(versions@),
            to_compare@ == all_pairs(n as nat),
            forall|k: int|
                0 <= k < to_compare@.len() ==> (#[trigger] to_compare@[k]).0 < to_compare@[k].1
                    < n,
            results@.len() == to_compare@.len(),
            forall|k: int|
                0 <= k < to_compare@.len() ==> #[trigger] results@[k] == compared(
                    versions@[to_compare@[k].0 as int].files@,
                    versions@[to_compare@[k].1 as int].files@,
                ),
            matrix@.len() == n,
            is_square(matrix@),
            forall|x: int, y: int|
                0 <= x < n && 0 <= y < n ==> #[trigger] matrix@[x]@[y] == result_between(files, x, y)
                    || matrix@[x]@[y] == no_difference(),
            forall|x: int|
                0 <= x < k ==> {
                    let (i, j) = #[trigger] to_compare@[x];
                    &&& matrix@[i as int]@[j as int] == result_between(files, i as int, j as int)
                    &&& matrix@[j as int]@[i as int] == result_between(files, j as int, i as int)
                },
    {
        let (i, j) = to_compare[k];
        let (forward, backward) = results[k];
        matrix[i][j] = forward;
        matrix[j][i] = backward;
    }
    proof {
        assert forall|x: int, y: int| 0 <= x < n && 0 <= y < n implies #[trigger] matrix@[x]@[y]
            == result_between(files, x, y) by {
            if x < y {
                assert(to_compare@.contains((x as usize, y as usize)));
                let k = choose|k: int|
                    0 <= k < to_compare@.len() && to_compare@[k] == (x as usize, y as usize);
                assert(to_compare@[k] == (x as usize, y as usize));
            } else if y < x {
                assert(to_compare@.contains((y as usize, x as usize)));
                let k = choose|k: int|
                    0 <= k < to_compare@.len() && to_compare@[k] == (y as usize, x as usize);
                assert(to_compare@[k] == (y as usize, x as usize));
            }
        }
    }
    matrix
}

} // verus!
