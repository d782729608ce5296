//! From a vector of parents to the tree of the snapshots.

use crate::inference::edmonds::{assemble_forest, is_square, matrix_view};
use crate::inference::parents::{
    children_below, children_of, is_arborescence, is_forest, mirrors,
    reaches_root, single_root,
};
use crate::inference::spanning::{lemma_children_members, lemma_tree_spans};
use crate::tree::{
    flatten, flatten_all, forest_view, lemma_flatten_all_has,
    lemma_flatten_cases, mapped_with_parent, may_map_with_parent, roots, size, Tree, TreeNode,
};
use crate::types::{DiffInfo, DiffSummary, DivCalcResult, Version};
use vstd::prelude::*;

verus! {

/// Why no tree could be inferred.
#[derive(Debug, Clone, Copy, PartialEq, Eq, Structural)]
pub enum InferenceError {
    /// There is no snapshot at all, not even the empty one.
    EmptyInput,
    /// Two snapshots have the same name, or one has the name of the empty
    /// snapshot.
    DuplicateName,
    /// The parents have no root, several roots, or another root than the
    /// empty snapshot.
    MSANotTree,
    /// Some snapshot has no place in the tree: the parents do not lead it
    /// to the root.
    ForestAssembly,
}

/// Whether exactly one vertex has no parent, and that vertex is `root`.
pub fn has_single_root(parents: &Vec<Option<usize>>, root: usize) -> (ok: bool)
    ensures
        ok == single_root(parents@, root as int),
{
    if root >= parents.len() {
        return false;
    }
    for v in 0..parents.len()
        invariant
            root < parents@.len(),
            forall|x: int| 0 <= x < v ==> ((#[trigger] parents@[x]) is None <==> x == root),
    {
        if parents[v].is_none() != (v == root) {
            return false;
        }
    }
    true
}

/// Whether every vertex leads to a vertex without a parent.
pub fn leads_to_roots(parents: &Vec<Option<usize>>) -> (ok: bool)
    ensures
        ok == is_forest(parents@),
{
    let n = parents.len();
    for v in 0..n
        invariant
            n == parents@.len(),
            forall|x: int| 0 <= x < v ==> reaches_root(parents@, x, n as nat),
    {
        let mut at = v;
        let mut left = n;
        loop
            invariant
                n == parents@.len(),
                v < n,
                at < n,
                left <= n,
                reaches_root(parents@, v as int, n as nat) == reaches_root(
                    parents@,
                    at as int,
                    left as nat,
                ),
            ensures
                reaches_root(parents@, v as int, n as nat),
            decreases left,
        {
            match parents[at] {
                None => {
                    break ;
                },
                Some(p) => {
                    if left == 0 || p >= n {
                        proof {
                            if left > 0 {
                                assert(!reaches_root(parents@, p as int, (left - 1) as nat));
                            }
                            assert(!reaches_root(parents@, at as int, left as nat));
                            assert(!reaches_root(parents@, v as int, n as nat));
                        }
                        return false;
                    }
                    at = p;
                    left = left - 1;
                },
            }
        }
    }
    true
}

/// What the node of snapshot `v` says, seen from `parent`: the snapshot's
/// name, and the result for the way from the parent to it. The root is seen
/// from itself, from where nothing differs.
pub open spec fn info_of(
    names: Seq<Seq<char>>,
    results: Seq<Seq<DivCalcResult>>,
    v: usize,
    parent: Option<usize>,
) -> DiffSummary {
    let from = match parent {
        Some(p) => p,
        None => v,
    };
    let forward = results[from as int][v as int];
    DiffSummary {
        name: names[v as int],
        added: forward.added,
        deleted: forward.deleted,
        modified: forward.modified,
        divergence: forward.divergence,
    }
}

/// The tree `out` stands for vertex `v` and all below it: its root says
/// what `v` differs by from `parent`, and its children stand, in order, for
/// the vertices that have `v` as their parent.
pub open spec fn describes(
    out: Tree<DiffInfo>,
    v: usize,
    parent: Option<usize>,
    parents: Seq<Option<usize>>,
    names: Seq<Seq<char>>,
    results: Seq<Seq<DivCalcResult>>,
) -> bool
    decreases out,
{
    &&& out.value@ == info_of(names, results, v, parent)
    &&& out.children.len() == children_of(parents, Some(v)).len()
    &&& forall|i: int|
        0 <= i < out.children.len() ==> describes(
            #[trigger] out.children[i],
            children_of(parents, Some(v))[i],
            Some(v),
            parents,
            names,
            results,
        )
}

/// The two trees have the same shape and say the same at every place.
pub open spec fn same_summaries(first: Tree<DiffInfo>, second: Tree<DiffInfo>) -> bool
    decreases first,
{
    &&& first.value@ == second.value@
    &&& first.children.len() == second.children.len()
    &&& forall|i: int|
        0 <= i < first.children.len() ==> same_summaries(
            #[trigger] first.children[i],
            second.children[i],
        )
}

/// The parents, the names and the results leave one tree only: two trees
/// that describe the same vertex say the same at every place.
pub proof fn lemma_described_trees_agree(
    first: Tree<DiffInfo>,
    second: Tree<DiffInfo>,
    v: usize,
    parent: Option<usize>,
    parents: Seq<Option<usize>>,
    names: Seq<Seq<char>>,
    results: Seq<Seq<DivCalcResult>>,
)
    requires
        describes(first, v, parent, parents, names, results),
        describes(second, v, parent, parents, names, results),
    ensures
        same_summaries(first, second),
    decreases first,
{
    assert forall|i: int| 0 <= i < first.children.len() implies same_summaries(
        #[trigger] first.children[i],
        second.children[i],
    ) by {
        lemma_described_trees_agree(
            first.children[i],
            second.children[i],
            children_of(parents, Some(v))[i],
            Some(v),
            parents,
            names,
            results,
        );
    }
}

/// The names in a tree, each node before its children.
pub open spec fn names_in(out: Tree<DiffInfo>) -> Seq<Seq<char>> {
    flatten(out).map_values(|d: DiffInfo| d.name@)
}

/// The names of the given vertices, in their order.
pub open spec fn names_at(names: Seq<Seq<char>>, order: Seq<usize>) -> Seq<Seq<char>> {
    order.map_values(|v: usize| names[v as int])
}

/// The order holds each vertex below `n` exactly once.
pub open spec fn is_ordering(order: Seq<usize>, n: nat) -> bool {
    &&& order.len() == n
    &&& order.no_duplicates()
    &&& forall|v: usize| order.contains(v) <==> v < n
}

/// `out` has the shape of the tree of vertices `t`, and each of its values
/// says what the vertex at the same place differs by from its parent.
pub open spec fn annotates(
    t: Tree<usize>,
    parent: Option<usize>,
    names: Seq<Seq<char>>,
    results: Seq<Seq<DivCalcResult>>,
    out: Tree<DiffInfo>,
) -> bool
    decreases t,
{
    &&& out.value@ == info_of(names, results, t.value, parent)
    &&& out.children.len() == t.children.len()
    &&& forall|i: int|
        0 <= i < t.children.len() ==> annotates(
            #[trigger] t.children[i],
            Some(t.value),
            names,
            results,
            out.children[i],
        )
}

/// The parent of a node as the mapping function sees it.
pub open spec fn seen_parent(parent: Option<&usize>) -> Option<usize> {
    match parent {
        Some(p) => Some(*p),
        None => None,
    }
}

/// A function that may be called on the vertices below `n` may be called
/// all over a tree of such vertices.
pub proof fn lemma_may_map_vertices<U, F: Fn(&usize, Option<&usize>) -> U>(
    t: Tree<usize>,
    parent: Option<&usize>,
    f: F,
    n: nat,
)
    requires
        forall|x: usize| flatten(t).contains(x) ==> x < n,
        parent matches Some(p) ==> *p < n,
        forall|x: &usize, p: Option<&usize>|
            *x < n && (p matches Some(pv) ==> *pv < n) ==> #[trigger] f.requires((x, p)),
    ensures
        may_map_with_parent(t, parent, f),
    decreases t,
{
    lemma_flatten_cases(t, t.value);
    assert forall|i: int| 0 <= i < t.children.len() implies may_map_with_parent(
        #[trigger] t.children[i],
        Some(&t.value),
        f,
    ) by {
        assert forall|x: usize| flatten(t.children[i]).contains(x) implies x < n by {
            lemma_flatten_all_has(t.children, i, x);
            lemma_flatten_cases(t, x);
        }
        lemma_may_map_vertices(t.children[i], Some(&t.value), f, n);
    }
}

/// A tree mapped by a function that gives each vertex its information is
/// annotated.
pub proof fn lemma_mapped_annotates<F: Fn(&usize, Option<&usize>) -> DiffInfo>(
    t: Tree<usize>,
    parent: Option<&usize>,
    f: F,
    names: Seq<Seq<char>>,
    results: Seq<Seq<DivCalcResult>>,
    out: Tree<DiffInfo>,
)
    requires
        mapped_with_parent(t, parent, f, out),
        forall|x: &usize, p: Option<&usize>, d: DiffInfo| #[trigger]
            f.ensures((x, p), d) ==> d@ == info_of(names, results, *x, seen_parent(p)),
    ensures
        annotates(t, seen_parent(parent), names, results, out),
    decreases t,
{
    assert forall|i: int| 0 <= i < t.children.len() implies annotates(
        #[trigger] t.children[i],
        Some(t.value),
        names,
        results,
        out.children[i],
    ) by {
        lemma_mapped_annotates(t.children[i], Some(&t.value), f, names, results, out.children[i]);
    }
}

/// An annotated tree of a tree that mirrors the parents describes them.
pub proof fn lemma_annotated_describes(
    t: Tree<usize>,
    parent: Option<usize>,
    parents: Seq<Option<usize>>,
    names: Seq<Seq<char>>,
    results: Seq<Seq<DivCalcResult>>,
    out: Tree<DiffInfo>,
)
    requires
        mirrors(t, parents),
        annotates(t, parent, names, results, out),
    ensures
        describes(out, t.value, parent, parents, names, results),
    decreases t,
{
    let below = children_of(parents, Some(t.value));
    assert(roots(t.children).len() == below.len());
    assert forall|i: int| 0 <= i < out.children.len() implies describes(
        #[trigger] out.children[i],
        below[i],
        Some(t.value),
        parents,
        names,
        results,
    ) by {
        assert(roots(t.children)[i] == t.children[i].value);
        lemma_annotated_describes(
            t.children[i],
            Some(t.value),
            parents,
            names,
            results,
            out.children[i],
        );
    }
}

/// The names in the first `k` children of an annotated tree are the names
/// of the vertices in the first `k` children of the tree of vertices.
pub proof fn lemma_children_names(
    t: Tree<usize>,
    parent: Option<usize>,
    names: Seq<Seq<char>>,
    results: Seq<Seq<DivCalcResult>>,
    out: Tree<DiffInfo>,
    k: nat,
)
    requires
        annotates(t, parent, names, results, out),
        k <= t.children.len(),
    ensures
        flatten_all(out.children.take(k as int)).map_values(|d: DiffInfo| d.name@) == names_at(
            names,
            flatten_all(t.children.take(k as int)),
        ),
    decreases t, k,
{
    let name_of = |d: DiffInfo| d.name@;
    let firsts = t.children.take(k as int);
    let outs = out.children.take(k as int);
    if k == 0 {
        assert(flatten_all(outs).map_values(name_of) =~= names_at(names, flatten_all(firsts)));
    } else {
        assert(firsts.drop_last() =~= t.children.take(k - 1));
        assert(outs.drop_last() =~= out.children.take(k - 1));
        lemma_children_names(t, parent, names, results, out, (k - 1) as nat);
        lemma_tree_names(t.children[k - 1], Some(t.value), names, results, out.children[k - 1]);
        let front = flatten_all(t.children.take(k - 1));
        let back = flatten(t.children[k - 1]);
        let out_front = flatten_all(out.children.take(k - 1));
        let out_back = flatten(out.children[k - 1]);
        assert(flatten_all(firsts) == front + back);
        assert(flatten_all(outs) == out_front + out_back);
        assert(out_front.map_values(name_of).len() == front.len());
        assert(out_back.map_values(name_of).len() == back.len());
        assert((out_front + out_back).map_values(name_of) =~= out_front.map_values(name_of)
            + out_back.map_values(name_of));
        assert(names_at(names, front + back) =~= names_at(names, front) + names_at(names, back));
    }
}

/// The names in an annotated tree are the names of the vertices in the tree
/// of vertices, in the same order.
pub proof fn lemma_tree_names(
    t: Tree<usize>,
    parent: Option<usize>,
    names: Seq<Seq<char>>,
    results: Seq<Seq<DivCalcResult>>,
    out: Tree<DiffInfo>,
)
    requires
        annotates(t, parent, names, results, out),
    ensures
        names_in(out) == names_at(names, flatten(t)),
    decreases t, t.children.len() + 1,
{
    let name_of = |d: DiffInfo| d.name@;
    lemma_children_names(t, parent, names, results, out, t.children.len());
    assert(t.children.take(t.children.len() as int) =~= t.children);
    assert(out.children.take(t.children.len() as int) =~= out.children);
    let rest = flatten_all(t.children);
    let out_rest = flatten_all(out.children);
    assert(out_rest.map_values(name_of).len() == rest.len());
    assert((seq![out.value] + out_rest).map_values(name_of) =~= seq![out.value@.name]
        + out_rest.map_values(name_of));
    assert(names_at(names, seq![t.value] + rest) =~= seq![names[t.value as int]] + names_at(
        names,
        rest,
    ));
}

/// The names of the snapshots.
pub open spec fn names_of(versions: Seq<Version>) -> Seq<Seq<char>> {
    Seq::new(versions.len(), |i: int| versions[i].name@)
}

/// The error that a vector of parents for `n` snapshots is refused with, if
/// it is refused.
pub open spec fn assembly_error(n: nat, parents: Seq<Option<usize>>) -> Option<InferenceError> {
    if n == 0 {
        Some(InferenceError::EmptyInput)
    } else if parents.len() != n {
        Some(InferenceError::ForestAssembly)
    } else if !single_root(parents, 0) {
        Some(InferenceError::MSANotTree)
    } else if !is_forest(parents) {
        Some(InferenceError::ForestAssembly)
    } else {
        None
    }
}

/// With the single root 0, the vertices without a parent are vertex 0.
pub proof fn lemma_roots_of_arborescence(parents: Seq<Option<usize>>)
    requires
        single_root(parents, 0),
        parents.len() <= usize::MAX,
    ensures
        children_of(parents, None) == seq![0usize],
{
    let tops = children_below(parents, None, parents.len());
    lemma_children_members(parents, None, parents.len());
    assert(parents[0] == None::<usize>);
    assert(tops.contains(0usize));
    if tops.len() > 1 {
        assert(tops[0] < tops[1]);
        assert(parents[tops[0] as int] is None);
        assert(parents[tops[1] as int] is None);
    }
    assert(parents[tops[0] as int] is None);
    assert(tops =~= seq![0usize]);
}

/// Builds the tree of the snapshots from the parents that were chosen for
/// them. Snapshot 0 is the root. Each node holds its snapshot's name and the
/// result for the way from its parent to it; the root holds a result in
/// which nothing differs, as the matrix has on its diagonal. The children of
/// a node are the snapshots that have it as their parent, in their order.
///
/// The parents are refused where they are no arborescence rooted at
/// snapshot 0. A tree that is built holds every snapshot exactly once.
pub fn assemble_version_tree(
    versions: &Vec<Version>,
    results: &Vec<Vec<DivCalcResult>>,
    parents: &Vec<Option<usize>>,
) -> (result: Result<TreeNode<DiffInfo>, InferenceError>)
    requires
        results@.len() == versions@.len(),
        is_square(results@),
    ensures
        assembly_error(versions@.len(), parents@) matches Some(e) ==> result == Err::<
            TreeNode<DiffInfo>,
            InferenceError,
        >(e),
        assembly_error(versions@.len(), parents@) is None ==> result is Ok,
        result matches Ok(tree) ==> {
            &&& is_arborescence(parents@, 0)
            &&& describes(
                tree@,
                0,
                None,
                parents@,
                names_of(versions@),
                matrix_view(results@),
            )
            &&& size(tree@) == versions@.len()
            &&& exists|order: Seq<usize>| #[trigger]
                is_ordering(order, versions@.len()) && names_in(tree@) == names_at(
                    names_of(versions@),
                    order,
                )
        },
{
    let n = versions.len();
    if n == 0 {
        return Err(InferenceError::EmptyInput);
    }
    if parents.len() != n {
        return Err(InferenceError::ForestAssembly);
    }
    if !has_single_root(parents, 0) {
        return Err(InferenceError::MSANotTree);
    }
    if !leads_to_roots(parents) {
        return Err(InferenceError::ForestAssembly);
    }
    let mut forest = assemble_forest(parents, None);
    let ghost whole = forest_view(forest@);
    proof {
        lemma_roots_of_arborescence(parents@);
        assert(roots(whole).len() == 1);
        assert(roots(whole)[0] == 0);
        assert(whole[0] == forest@[0]@);
    }
    let tree = forest.remove(0);
    let ghost t = tree@;
    let ghost names = names_of(versions@);
    let ghost matrix = matrix_view(results@);
    let describe = |i: &usize, parent: Option<&usize>| -> (info: DiffInfo)
        requires
            *i < n,
            parent matches Some(p) ==> *p < n,
        ensures
            info@ == info_of(
                names_of(versions@),
                matrix_view(results@),
                *i,
                seen_parent(parent),
            ),
        {
            let from = match parent {
                Some(p) => *p,
                None => *i,
            };
            let forward = results[from][*i];
            DiffInfo {
                name: versions[*i].name.clone(),
                added: forward.added,
                deleted: forward.deleted,
                modified: forward.modified,
                divergence: forward.divergence,
            }
        };
    proof {
        lemma_tree_spans(t, parents@);
        lemma_may_map_vertices(t, None, describe, n as nat);
    }
    let out = tree.map_with_parent(&describe, None);
    proof {
        lemma_mapped_annotates(t, None, describe, names, matrix, out@);
        lemma_annotated_describes(t, None, parents@, names, matrix, out@);
        lemma_tree_names(t, None, names, matrix, out@);
        assert(is_ordering(flatten(t), n as nat));
        assert(describes(out@, 0, None, parents@, names, matrix));
        assert(names_in(out@).len() == flatten(out@).len());
        assert(size(out@) == n);
        assert(names_in(out@) == names_at(names, flatten(t)));
    }
    Ok(out)
}

} // verus!
