//! Why the tree of an arborescence holds every vertex exactly once.

use crate::inference::parents::{
    children_below, depth, indices, is_arborescence, is_forest,
    lemma_child_level, lemma_children_step, mirrors, reaches_root,
};
use crate::tree::{
    flatten, flatten_all, lemma_flatten_all_has, lemma_flatten_all_index, lemma_flatten_cases,
    roots, size, Tree,
};
use vstd::prelude::*;
use vstd::seq_lib::lemma_no_dup_in_concat;

verus! {

/// The number of steps from a vertex of a forest to its root.
pub open spec fn depth_of(parents: Seq<Option<usize>>, v: int) -> nat {
    depth(parents, v, parents.len())
}

/// The vertex that stands `k` steps above `v`, or -1 where there is none.
pub open spec fn up(parents: Seq<Option<usize>>, v: int, k: nat) -> int
    decreases k,
{
    if k == 0 {
        v
    } else {
        let below = up(parents, v, (k - 1) as nat);
        if 0 <= below < parents.len() {
            match parents[below] {
                Some(p) => p as int,
                None => -1,
            }
        } else {
            -1
        }
    }
}

/// The children of a parent below a limit are vertices below the limit that
/// have this parent, in rising order, and all of those.
pub proof fn lemma_children_members(
    parents: Seq<Option<usize>>,
    parent: Option<usize>,
    limit: nat,
)
    requires
        limit <= parents.len(),
        limit <= usize::MAX,
    ensures
        forall|k: int|
            0 <= k < children_below(parents, parent, limit).len() ==> {
                &&& (#[trigger] children_below(parents, parent, limit)[k]) < limit
                &&& parents[children_below(parents, parent, limit)[k] as int] == parent
            },
        forall|j: int, k: int|
            0 <= j < k < children_below(parents, parent, limit).len() ==> children_below(
                parents,
                parent,
                limit,
            )[j] < children_below(parents, parent, limit)[k],
        forall|v: usize|
            v < limit && parents[v as int] == parent ==> children_below(
                parents,
                parent,
                limit,
            ).contains(v),
    decreases limit,
{
    if limit == 0 {
        assert(indices(0) =~= Seq::<usize>::empty());
        assert(children_below(parents, parent, 0) =~= Seq::<usize>::empty());
    } else {
        let less = (limit - 1) as nat;
        lemma_children_members(parents, parent, less);
        lemma_children_step(parents, parent, less);
        let before = children_below(parents, parent, less);
        let now = children_below(parents, parent, limit);
        assert forall|v: usize| v < limit && parents[v as int] == parent implies now.contains(
            v,
        ) by {
            if v < less {
                assert(before.contains(v));
                let k = choose|k: int| 0 <= k < before.len() && before[k] == v;
                assert(now[k] == v);
            } else {
                assert(now[now.len() - 1] == v);
            }
        }
    }
}

/// In a tree that mirrors a forest, every value is a vertex at or below the
/// depth of the root, and the root stands above it.
pub proof fn lemma_below_root(t: Tree<usize>, parents: Seq<Option<usize>>, x: usize)
    requires
        is_forest(parents),
        parents.len() <= usize::MAX,
        mirrors(t, parents),
        t.value < parents.len(),
        flatten(t).contains(x),
    ensures
        x < parents.len(),
        depth_of(parents, x as int) >= depth_of(parents, t.value as int),
        up(
            parents,
            x as int,
            (depth_of(parents, x as int) - depth_of(parents, t.value as int)) as nat,
        ) == t.value,
    decreases t,
{
    lemma_flatten_cases(t, x);
    if x != t.value {
        let i = lemma_flatten_all_index(t.children, x);
        let c = t.children[i];
        lemma_children_members(parents, Some(t.value), parents.len());
        assert(roots(t.children)[i] == c.value);
        assert(c.value < parents.len() && parents[c.value as int] == Some(t.value));
        lemma_below_root(c, parents, x);
        lemma_child_level(parents, c.value, Some(t.value));
        let far = (depth_of(parents, x as int) - depth_of(parents, t.value as int)) as nat;
        assert(up(parents, x as int, (far - 1) as nat) == c.value);
    }
}

/// In a tree that mirrors a forest, the values of the first `k` children
/// hold no value twice.
pub proof fn lemma_children_distinct(t: Tree<usize>, parents: Seq<Option<usize>>, k: nat)
    requires
        is_forest(parents),
        parents.len() <= usize::MAX,
        mirrors(t, parents),
        t.value < parents.len(),
        k <= t.children.len(),
    ensures
        flatten_all(t.children.take(k as int)).no_duplicates(),
    decreases t, k,
{
    let firsts = t.children.take(k as int);
    if k > 0 {
        let last = t.children[k - 1];
        assert(firsts.drop_last() =~= t.children.take(k - 1));
        assert(firsts.last() == last);
        lemma_children_members(parents, Some(t.value), parents.len());
        assert(roots(t.children)[k - 1] == last.value);
        lemma_children_distinct(t, parents, (k - 1) as nat);
        lemma_tree_distinct(last, parents);
        let front = flatten_all(t.children.take(k - 1));
        let back = flatten(last);
        assert forall|i: int, j: int| 0 <= i < front.len() && 0 <= j < back.len() implies front[i]
            != back[j] by {
            if front[i] == back[j] {
                let x = front[i];
                assert(front.contains(x));
                assert(back.contains(x));
                let other = lemma_flatten_all_index(t.children.take(k - 1), x);
                let c = t.children[other];
                assert(t.children.take(k - 1)[other] == c);
                assert(roots(t.children)[other] == c.value);
                lemma_below_root(c, parents, x);
                lemma_below_root(last, parents, x);
                lemma_child_level(parents, c.value, Some(t.value));
                lemma_child_level(parents, last.value, Some(t.value));
                assert(c.value == last.value);
            }
        }
        lemma_no_dup_in_concat(front, back);
    }
}

/// A tree that mirrors a forest holds no value twice.
pub proof fn lemma_tree_distinct(t: Tree<usize>, parents: Seq<Option<usize>>)
    requires
        is_forest(parents),
        parents.len() <= usize::MAX,
        mirrors(t, parents),
        t.value < parents.len(),
    ensures
        flatten(t).no_duplicates(),
    decreases t, t.children.len() + 1,
{
    lemma_children_distinct(t, parents, t.children.len());
    assert(t.children.take(t.children.len() as int) =~= t.children);
    let head = seq![t.value];
    let rest = flatten_all(t.children);
    assert forall|i: int, j: int| 0 <= i < head.len() && 0 <= j < rest.len() implies head[i]
        != rest[j] by {
        if head[i] == rest[j] {
            assert(rest.contains(t.value));
            let at = lemma_flatten_all_index(t.children, t.value);
            let c = t.children[at];
            lemma_children_members(parents, Some(t.value), parents.len());
            assert(roots(t.children)[at] == c.value);
            lemma_below_root(c, parents, t.value);
            lemma_child_level(parents, c.value, Some(t.value));
        }
    }
    lemma_no_dup_in_concat(head, rest);
}

/// A tree that mirrors the parents and holds a vertex holds its children.
pub proof fn lemma_holds_child(
    t: Tree<usize>,
    parents: Seq<Option<usize>>,
    p: usize,
    v: usize,
)
    requires
        mirrors(t, parents),
        parents.len() <= usize::MAX,
        flatten(t).contains(p),
        v < parents.len(),
        parents[v as int] == Some(p),
    ensures
        flatten(t).contains(v),
    decreases t,
{
    lemma_flatten_cases(t, p);
    lemma_flatten_cases(t, v);
    if p == t.value {
        lemma_children_members(parents, Some(p), parents.len());
        let heads = roots(t.children);
        assert(heads.contains(v));
        let i = choose|i: int| 0 <= i < heads.len() && heads[i] == v;
        lemma_flatten_cases(t.children[i], v);
        lemma_flatten_all_has(t.children, i, v);
    } else {
        let i = lemma_flatten_all_index(t.children, p);
        lemma_holds_child(t.children[i], parents, p, v);
        lemma_flatten_all_has(t.children, i, v);
    }
}

/// The tree of an arborescence holds every vertex that reaches the root.
pub proof fn lemma_holds_vertex(
    t: Tree<usize>,
    parents: Seq<Option<usize>>,
    v: usize,
    steps: nat,
)
    requires
        is_arborescence(parents, t.value as int),
        parents.len() <= usize::MAX,
        mirrors(t, parents),
        reaches_root(parents, v as int, steps),
    ensures
        flatten(t).contains(v),
    decreases steps,
{
    match parents[v as int] {
        None => {
            lemma_flatten_cases(t, v);
        },
        Some(p) => {
            lemma_holds_vertex(t, parents, p, (steps - 1) as nat);
            lemma_holds_child(t, parents, p, v);
        },
    }
}

/// The tree that mirrors an arborescence from its root holds every vertex
/// exactly once, and so has as many nodes as there are vertices.
pub proof fn lemma_tree_spans(t: Tree<usize>, parents: Seq<Option<usize>>)
    requires
        is_arborescence(parents, t.value as int),
        parents.len() <= usize::MAX,
        mirrors(t, parents),
    ensures
        size(t) == parents.len(),
        flatten(t).no_duplicates(),
        forall|v: usize| flatten(t).contains(v) <==> v < parents.len(),
{
    let n = parents.len();
    let all = flatten(t);
    lemma_tree_distinct(t, parents);
    assert forall|v: usize| all.contains(v) <==> v < n by {
        if all.contains(v) {
            lemma_below_root(t, parents, v);
        }
        if v < n {
            lemma_holds_vertex(t, parents, v, n);
        }
    }
    let each = indices(n);
    assert(each.no_duplicates());
    assert forall|v: usize| each.to_set().contains(v) <==> all.to_set().contains(v) by {
        if v < n {
            assert(each[v as int] == v);
        }
    }
    assert(each.to_set() =~= all.to_set());
    each.unique_seq_to_set();
    all.unique_seq_to_set();
}

} // verus!
