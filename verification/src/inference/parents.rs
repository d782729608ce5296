//! Vectors of parents: when one is a forest or an arborescence, and the trees
//! that it stands for.

use crate::tree::{roots, Tree};
use vstd::prelude::*;

verus! {

/// The numbers below `n`, in order.
pub open spec fn indices(n: nat) -> Seq<usize> {
    Seq::new(n, |i: int| i as usize)
}

/// The vertices below `limit` that have the given parent, in order.
pub open spec fn children_below(
    parents: Seq<Option<usize>>,
    parent: Option<usize>,
    limit: nat,
) -> Seq<usize> {
    indices(limit).filter(|v: usize| parents[v as int] == parent)
}

/// The vertices that have the given parent, in order; with `None`, the
/// vertices without a parent.
pub open spec fn children_of(parents: Seq<Option<usize>>, parent: Option<usize>) -> Seq<usize> {
    children_below(parents, parent, parents.len())
}

/// From `v`, following the parents leads to a vertex without a parent in at
/// most `steps` steps, over vertices of the vector only.
pub open spec fn reaches_root(parents: Seq<Option<usize>>, v: int, steps: nat) -> bool
    decreases steps,
{
    0 <= v < parents.len() && match parents[v] {
        None => true,
        Some(p) => steps > 0 && reaches_root(parents, p as int, (steps - 1) as nat),
    }
}

/// Every vertex leads to a vertex without a parent: no parent lies outside
/// the vector, and no vertex is its own ancestor.
pub open spec fn is_forest(parents: Seq<Option<usize>>) -> bool {
    forall|v: int| 0 <= v < parents.len() ==> reaches_root(parents, v, parents.len())
}

/// Exactly one vertex has no parent, and that vertex is `root`.
pub open spec fn single_root(parents: Seq<Option<usize>>, root: int) -> bool {
    &&& 0 <= root < parents.len()
    &&& forall|v: int| 0 <= v < parents.len() ==> ((#[trigger] parents[v]) is None <==> v == root)
}

/// The parents form an arborescence rooted at `root`: a forest with that
/// one root.
pub open spec fn is_arborescence(parents: Seq<Option<usize>>, root: int) -> bool {
    single_root(parents, root) && is_forest(parents)
}

/// The number of steps from `v` to a vertex without a parent, counted as far
/// as `fuel` steps.
pub open spec fn depth(parents: Seq<Option<usize>>, v: int, fuel: nat) -> nat
    decreases fuel,
{
    if fuel == 0 || !(0 <= v < parents.len()) {
        0
    } else {
        match parents[v] {
            None => 0,
            Some(p) => 1 + depth(parents, p as int, (fuel - 1) as nat),
        }
    }
}

/// How far below the roots the children of `parent` stand.
pub open spec fn level(parents: Seq<Option<usize>>, parent: Option<usize>) -> nat {
    match parent {
        None => 0,
        Some(p) => 1 + depth(parents, p as int, parents.len()),
    }
}

/// The tree holds, below its root, what the parents say: the children of
/// each node are the vertices that have the node's value as their parent, in
/// order.
pub open spec fn mirrors(t: Tree<usize>, parents: Seq<Option<usize>>) -> bool
    decreases t,
{
    &&& roots(t.children) == children_of(parents, Some(t.value))
    &&& forall|i: int| 0 <= i < t.children.len() ==> mirrors(#[trigger] t.children[i], parents)
}

/// The forest holds the children of `parent`, in order, each with all that
/// is below it.
pub open spec fn forest_mirrors(
    forest: Seq<Tree<usize>>,
    parents: Seq<Option<usize>>,
    parent: Option<usize>,
) -> bool {
    &&& roots(forest) == children_of(parents, parent)
    &&& forall|i: int| 0 <= i < forest.len() ==> mirrors(#[trigger] forest[i], parents)
}

/// Once a vertex has reached a root, more steps count no further.
pub proof fn lemma_depth_stable(parents: Seq<Option<usize>>, v: int, steps: nat, more: nat)
    requires
        reaches_root(parents, v, steps),
        steps <= more,
    ensures
        depth(parents, v, more) == depth(parents, v, steps),
        depth(parents, v, steps) <= steps,
    decreases steps,
{
    match parents[v] {
        None => {},
        Some(p) => {
            lemma_depth_stable(parents, p as int, (steps - 1) as nat, (more - 1) as nat);
        },
    }
}

/// In a forest a vertex stands one level below its parent.
pub proof fn lemma_child_level(parents: Seq<Option<usize>>, child: usize, parent: Option<usize>)
    requires
        is_forest(parents),
        child < parents.len(),
        parents[child as int] == parent,
    ensures
        level(parents, Some(child)) == level(parents, parent) + 1,
        level(parents, Some(child)) <= parents.len() + 1,
{
    let n = parents.len();
    assert(reaches_root(parents, child as int, n));
    lemma_depth_stable(parents, child as int, n, n);
    match parent {
        None => {},
        Some(p) => {
            assert(reaches_root(parents, p as int, (n - 1) as nat));
            lemma_depth_stable(parents, p as int, (n - 1) as nat, n);
        },
    }
}

/// The children below a limit, with one more vertex under the limit.
pub proof fn lemma_children_step(parents: Seq<Option<usize>>, parent: Option<usize>, limit: nat)
    requires
        limit < usize::MAX,
    ensures
        children_below(parents, parent, limit + 1) == if parents[limit as int] == parent {
            children_below(parents, parent, limit).push(limit as usize)
        } else {
            children_below(parents, parent, limit)
        },
{
    assert(indices(limit + 1).drop_last() =~= indices(limit));
    assert(indices(limit + 1).last() == limit as usize);
    reveal(Seq::filter);
}

} // verus!
