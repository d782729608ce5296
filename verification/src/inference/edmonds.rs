//! The spanning arborescence over the divergences, and the forest that a
//! vector of parents stands for.

use crate::inference::parents::{
    children_below, forest_mirrors, is_arborescence, is_forest, lemma_child_level,
    lemma_children_step, level, mirrors,
};
use crate::text::{decimal, push_decimal};
use crate::tree::{forest_view, lemma_children_view, roots, TreeNode};
use vstd::prelude::*;
use vstd::string::StringExecFns;

verus! {

/// The largest score that is handed to the solver as it is; a larger one is
/// handed over as this one.
pub const SCORE_LIMIT: u128 = 0x4000_0000_0000_0000;

/// Every row of the matrix is as long as the matrix has rows.
pub open spec fn is_square<A>(matrix: Seq<Vec<A>>) -> bool {
    forall|i: int| 0 <= i < matrix.len() ==> (#[trigger] matrix[i])@.len() == matrix.len()
}

/// The rows of a matrix as sequences.
pub open spec fn matrix_view<A>(matrix: Seq<Vec<A>>) -> Seq<Seq<A>> {
    Seq::new(matrix.len(), |i: int| matrix[i]@)
}

/// The weight under which the solver sees a score: the score, or the limit
/// where the score is beyond it, taken negative.
pub open spec fn solver_weight(score: u128) -> int {
    if score <= SCORE_LIMIT {
        -(score as int)
    } else {
        -(SCORE_LIMIT as int)
    }
}

/// Calls `chu_liu_edmonds::chu_liu_edmonds` with the given root, on a
/// matrix that `ndarray::Array2::from_shape_fn` fills with the weights. The
/// solver works on single-precision floating-point numbers: each weight is
/// converted to the nearest one.
///
/// The solver documents that it returns the parent of each vertex in a
/// spanning tree rooted at `root_vertex`, one entry per row of the matrix:
/// that is claimed here, as an arborescence with that root. That the tree
/// is of greatest weight is not claimed: the solver reckons it in its own
/// numbers. Which arborescence comes back is not a function of the weights
/// alone: among arborescences of the same weight the choice follows the
/// order in which the solver walks a hash set.
///
/// The weights are kept within bounds in which the sums that the solver
/// forms stay finite, and the root within the matrix: outside of these the
/// solver gives up.
#[verifier::external_body]
fn spanning_parents(weights: &Vec<Vec<i128>>, root_vertex: usize) -> (parents: Vec<Option<usize>>)
    requires
        is_square(weights@),
        root_vertex < weights@.len(),
        forall|i: int, j: int|
            0 <= i < weights@.len() && 0 <= j < weights@.len() ==> -(SCORE_LIMIT as int) <= (
            #[trigger] weights@[i]@[j]) <= 0,
    ensures
        parents@.len() == weights@.len(),
        is_arborescence(parents@, root_vertex as int),
{
    let n = weights.len();
    let scores = ndarray::Array2::from_shape_fn((n, n), |(i, j)| weights[i][j] as _);
    chu_liu_edmonds::chu_liu_edmonds(scores.view(), root_vertex)
}

/// One row of scores as the solver's weights.
fn solver_row(scores: &Vec<u128>) -> (weights: Vec<i128>)
    ensures
        weights@.len() == scores@.len(),
        forall|j: int| 0 <= j < scores@.len() ==> #[trigger] weights@[j] == solver_weight(scores@[j]),
{
    let mut weights: Vec<i128> = Vec::new();
    for j in 0..scores.len()
        invariant
            weights@.len() == j,
            forall|k: int| 0 <= k < j ==> #[trigger] weights@[k] == solver_weight(scores@[k]),
    {
        let score = scores[j];
        let weight: i128 = if score <= SCORE_LIMIT {
            -(score as i128)
        } else {
            -(SCORE_LIMIT as i128)
        };
        weights.push(weight);
    }
    weights
}

/// Finds a spanning arborescence of the scores, rooted at `root_vertex`,
/// that the solver holds to be of least total score: the solver, which
/// looks for the greatest total weight, is given the scores negated.
/// `scores[parent][child]` is the score of the edge from parent to child.
/// The result holds one entry per vertex, the parent that the solver chose
/// for it: the root has none, every other vertex has one, and the parents
/// lead every vertex to the root.
pub fn find_msa(scores: &Vec<Vec<u128>>, root_vertex: usize) -> (parents: Vec<Option<usize>>)
    requires
        is_square(scores@),
        root_vertex < scores@.len(),
    ensures
        parents@.len() == scores@.len(),
        is_arborescence(parents@, root_vertex as int),
{
    let n = scores.len();
    let mut weights: Vec<Vec<i128>> = Vec::new();
    for i in 0..n
        invariant
            n == scores@.len(),
            is_square(scores@),
            weights@.len() == i,
            forall|k: int| 0 <= k < i ==> (#[trigger] weights@[k])@.len() == n,
            forall|k: int, j: int|
                0 <= k < i && 0 <= j < n ==> #[trigger] weights@[k]@[j] == solver_weight(
                    scores@[k]@[j],
                ),
    {
        let row = solver_row(&scores[i]);
        weights.push(row);
    }
    spanning_parents(&weights, root_vertex)
}

/// How one entry of a vector of parents is written: the parent's number, or
/// `_` where there is none.
pub open spec fn parent_text(parent: Option<usize>) -> Seq<char> {
    match parent {
        Some(p) => decimal(p as nat),
        None => seq!['_'],
    }
}

/// How a vector of parents is written: its entries, with a comma and a space
/// between one and the next.
pub open spec fn parents_text(parents: Seq<Option<usize>>) -> Seq<char>
    decreases parents.len(),
{
    if parents.len() == 0 {
        Seq::<char>::empty()
    } else if parents.len() == 1 {
        parent_text(parents[0])
    } else {
        parents_text(parents.drop_last()) + seq![',', ' '] + parent_text(parents.last())
    }
}

/// Writes a vector of parents on one line, as in `_, 0, 1, 1`.
pub fn msa_to_string(result: &Vec<Option<usize>>) -> (text: String)
    ensures
        text@ == parents_text(result@),
{
    let mut text = String::new();
    assert(result@.take(0) =~= Seq::<Option<usize>>::empty());
    for i in 0..result.len()
        invariant
            text@ == parents_text(result@.take(i as int)),
    {
        let ghost before = text@;
        proof {
            reveal_strlit("_");
            reveal_strlit(", ");
            assert(result@.take(i + 1).drop_last() =~= result@.take(i as int));
            assert(result@.take(i + 1).last() == result@[i as int]);
            assert(result@.take(i + 1)[0] == result@[0]);
        }
        if i > 0 {
            text.append(", ");
            assert(", "@ =~= seq![',', ' ']);
        }
        match result[i] {
            Some(x) => {
                push_decimal(&mut text, x as u128);
            },
            None => {
                text.append("_");
                assert("_"@ =~= seq!['_']);
            },
        }
        assert(text@ =~= parents_text(result@.take(i + 1)));
    }
    assert(result@.take(result@.len() as int) =~= result@);
    text
}

/// Builds the forest that a vector of parents stands for below `parent`:
/// one tree for each vertex that has `parent` as its parent, in the order of
/// the vertices, each holding its own children in the same way. With `None`
/// the trees are those of the vertices without a parent.
pub fn assemble_forest(parents: &Vec<Option<usize>>, parent: Option<usize>) -> (forest: Vec<
    TreeNode<usize>,
>)
    requires
        is_forest(parents@),
    ensures
        forest_mirrors(forest_view(forest@), parents@, parent),
    decreases parents@.len() + 2 - level(parents@, parent),
{
    let n = parents.len();
    let mut forest: Vec<TreeNode<usize>> = Vec::new();
    assert(roots(forest_view(forest@)) =~= children_below(parents@, parent, 0));
    for this in 0..n
        invariant
            n == parents@.len(),
            is_forest(parents@),
            roots(forest_view(forest@)) == children_below(parents@, parent, this as nat),
            forall|i: int| 0 <= i < forest@.len() ==> mirrors(#[trigger] forest@[i]@, parents@),
    {
        let ghost before = forest@;
        proof {
            lemma_children_step(parents@, parent, this as nat);
        }
        if parents[this] == parent {
            proof {
                lemma_child_level(parents@, this, parent);
            }
            let children = assemble_forest(parents, Some(this));
            let node = TreeNode { value: this, children };
            proof {
                lemma_children_view(node);
            }
            forest.push(node);
            assert(roots(forest_view(forest@)) =~= roots(forest_view(before)).push(this));
            assert forall|i: int| 0 <= i < forest@.len() implies mirrors(
                #[trigger] forest@[i]@,
                parents@,
            ) by {
                if i < before.len() {
                    assert(forest@[i] == before[i]);
                }
            }
        }
    }
    forest
}

} // verus!
