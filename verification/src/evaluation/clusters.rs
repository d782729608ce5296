//! Snapshots that do not differ from their parent: found in the inferred
//! tree, and made siblings of each other in any tree of the same names.

use crate::inference::assembly::names_in;
use crate::tree::{
    flatten, flatten_all, forest_view, lemma_children_view, lemma_mapped_related,
    lemma_may_map_all, related, Tree, TreeNode,
};
use crate::types::DiffInfo;
use disjoint::DisjointSet;
use vstd::hash_map::StringHashMap;
use vstd::prelude::*;

verus! {

/// `disjoint::DisjointSet`: elements named by numbers, in subsets that can
/// be joined. What it holds goes by the names [`joined`] and
/// [`element_count`].
#[verifier::external_type_specification]
#[verifier::external_body]
pub struct ExDisjointSet(DisjointSet);

/// The pairs of elements that stand in the same subset.
pub uninterp spec fn joined(sets: DisjointSet) -> Set<(usize, usize)>;

/// The number of elements that the subsets are made of.
pub uninterp spec fn element_count(sets: DisjointSet) -> nat;

/// The pairs that stand together once the subsets of `first` and `second`
/// are one.
pub open spec fn merged(pairs: Set<(usize, usize)>, first: usize, second: usize) -> Set<
    (usize, usize),
> {
    Set::new(
        |p: (usize, usize)|
            pairs.contains(p) || (pairs.contains((p.0, first)) && pairs.contains((second, p.1)))
                || (pairs.contains((p.0, second)) && pairs.contains((first, p.1))),
    )
}

/// The pairs of `len` elements of which each stands alone.
pub open spec fn apart(len: nat) -> Set<(usize, usize)> {
    Set::new(|p: (usize, usize)| p.0 == p.1 && p.0 < len)
}

/// Calls `disjoint::DisjointSet::with_len`, which makes `len` elements,
/// named 0 to `len - 1`, each in a subset of its own.
#[verifier::external_body]
fn sets_with_len(len: usize) -> (sets: DisjointSet)
    ensures
        element_count(sets) == len,
        joined(sets) == apart(len as nat),
{
    DisjointSet::with_len(len)
}

/// Calls `disjoint::DisjointSet::join`, which makes the subsets of the two
/// elements one, where they are not one already, and says whether they were
/// not. The elements must be among those of the sets: the crate gives up on
/// others.
#[verifier::external_body]
fn join_sets(sets: &mut DisjointSet, first: usize, second: usize) -> (changed: bool)
    requires
        first < element_count(*old(sets)),
        second < element_count(*old(sets)),
    ensures
        element_count(*final(sets)) == element_count(*old(sets)),
        joined(*final(sets)) == merged(joined(*old(sets)), first, second),
        changed == !joined(*old(sets)).contains((first, second)),
{
    sets.join(first, second)
}

/// Calls `disjoint::DisjointSet::is_joined`, which says whether the two
/// elements stand in the same subset. The elements must be among those of
/// the sets: the crate gives up on others.
#[verifier::external_body]
fn in_same_set(sets: &DisjointSet, first: usize, second: usize) -> (same: bool)
    requires
        first < element_count(*sets),
        second < element_count(*sets),
    ensures
        same == joined(*sets).contains((first, second)),
{
    sets.is_joined(first, second)
}

/// The number under which each name is known: the names are numbered from
/// 0 in the order in which they first come; a name that comes again takes
/// the number that is next at that time.
pub open spec fn name_indices(names: Seq<Seq<char>>) -> Map<Seq<char>, usize>
    decreases names.len(),
{
    if names.len() == 0 {
        Map::<Seq<char>, usize>::empty()
    } else {
        let before = name_indices(names.drop_last());
        before.insert(names.last(), before.len() as usize)
    }
}

/// The names so far are numbered in a finite map.
pub proof fn lemma_name_indices_finite(names: Seq<Seq<char>>)
    ensures
        name_indices(names).dom().finite(),
        name_indices(names).len() <= names.len(),
    decreases names.len(),
{
    if names.len() > 0 {
        lemma_name_indices_finite(names.drop_last());
        let before = name_indices(names.drop_last());
        if before.dom().contains(names.last()) {
            assert(before.insert(names.last(), before.len() as usize).dom() =~= before.dom());
        }
    }
}

/// Numbers the names of a tree, node by node.
fn number_names(node: &TreeNode<DiffInfo>, name_map: &mut StringHashMap<usize>, Ghost(seen): Ghost<
    Seq<Seq<char>>,
>)
    requires
        old(name_map)@ == name_indices(seen),
    ensures
        final(name_map)@ == name_indices(seen + names_in(node@)),
    decreases node,
{
    let ghost t = node@;
    let ghost name_of = |d: DiffInfo| d.name@;
    proof {
        lemma_children_view(*node);
        lemma_name_indices_finite(seen);
    }
    let next = name_map.len();
    name_map.insert(node.value.name.clone(), next);
    let ghost first = seen.push(t.value.name@);
    proof {
        assert(first.drop_last() =~= seen);
        assert(t.children.take(0) =~= Seq::<Tree<DiffInfo>>::empty());
        assert(first + flatten_all(t.children.take(0)).map_values(name_of) =~= first);
    }
    for i in 0..node.children.len()
        invariant
            t == node@,
            t.children == forest_view(node.children@),
            name_of == (|d: DiffInfo| d.name@),
            name_map@ == name_indices(
                first + flatten_all(t.children.take(i as int)).map_values(name_of),
            ),
    {
        let ghost so_far = first + flatten_all(t.children.take(i as int)).map_values(name_of);
        let ghost child = t.children[i as int];
        proof {
            assert(child == node.children@[i as int]@);
        }
        number_names(&node.children[i], name_map, Ghost(so_far));
        proof {
            assert(t.children.take(i + 1).drop_last() =~= t.children.take(i as int));
            assert(t.children.take(i + 1).last() == child);
            let less = flatten_all(t.children.take(i as int));
            assert((less + flatten(child)).map_values(name_of) =~= less.map_values(name_of)
                + flatten(child).map_values(name_of));
            assert(first + flatten_all(t.children.take(i + 1)).map_values(name_of) =~= so_far
                + names_in(child));
        }
    }
    proof {
        assert(t.children.take(t.children.len() as int) =~= t.children);
        let rest = flatten_all(t.children);
        assert((seq![t.value] + rest).map_values(name_of) =~= seq![t.value.name@]
            + rest.map_values(name_of));
        assert(first + rest.map_values(name_of) =~= seen + names_in(t));
    }
}

/// Gives every name of the tree a number, from 0 on, in the order of the
/// tree: each node before its children.
pub fn gen_name_map(node: &TreeNode<DiffInfo>) -> (name_map: StringHashMap<usize>)
    ensures
        name_map@ == name_indices(names_in(node@)),
{
    let mut name_map: StringHashMap<usize> = StringHashMap::new();
    number_names(node, &mut name_map, Ghost(Seq::empty()));
    assert(Seq::<Seq<char>>::empty() + names_in(node@) =~= names_in(node@));
    name_map
}

/// The name has a number, and the number is one of the numbers given out.
pub open spec fn is_known(index: Map<Seq<char>, usize>, name: Seq<char>) -> bool {
    index.contains_key(name) && index[name] < index.len()
}

/// The names of a tree of snapshots, in the shape of the tree.
pub open spec fn info_names(t: Tree<DiffInfo>) -> Tree<Seq<char>>
    decreases t,
{
    Tree {
        value: t.value.name@,
        children: Seq::new(
            t.children.len(),
            |i: int|
                if 0 <= i < t.children.len() {
                    info_names(t.children[i])
                } else {
                    arbitrary()
                },
        ),
    }
}

/// The names of a tree of names, in the shape of the tree.
pub open spec fn name_tree(t: Tree<String>) -> Tree<Seq<char>>
    decreases t,
{
    Tree {
        value: t.value@,
        children: Seq::new(
            t.children.len(),
            |i: int|
                if 0 <= i < t.children.len() {
                    name_tree(t.children[i])
                } else {
                    arbitrary()
                },
        ),
    }
}

/// The names of a sequence of trees of names.
pub open spec fn name_forest(forest: Seq<Tree<String>>) -> Seq<Tree<Seq<char>>> {
    Seq::new(forest.len(), |i: int| name_tree(forest[i]))
}

/// Every name of the tree is known.
pub open spec fn all_known(t: Tree<Seq<char>>, index: Map<Seq<char>, usize>) -> bool
    decreases t,
{
    &&& is_known(index, t.value)
    &&& forall|i: int| 0 <= i < t.children.len() ==> all_known(#[trigger] t.children[i], index)
}

/// The snapshot does not differ from its parent by any file.
pub open spec fn unchanged(info: DiffInfo) -> bool {
    info.added == 0 && info.deleted == 0 && info.modified == 0
}

/// The pairs of a snapshot and one of its first `k` children that does not
/// differ from it, by their numbers.
pub open spec fn own_edges(t: Tree<DiffInfo>, index: Map<Seq<char>, usize>, k: nat) -> Seq<
    (usize, usize),
>
    decreases k,
{
    if k == 0 || k > t.children.len() {
        Seq::<(usize, usize)>::empty()
    } else {
        let before = own_edges(t, index, (k - 1) as nat);
        let child = t.children[k - 1];
        if unchanged(child.value) {
            before.push((index[t.value.name@], index[child.value.name@]))
        } else {
            before
        }
    }
}

/// The pairs of parent and unchanged child below the first `k` children of
/// a snapshot.
pub open spec fn edges_below(t: Tree<DiffInfo>, index: Map<Seq<char>, usize>, k: nat) -> Seq<
    (usize, usize),
>
    decreases t, k,
{
    if k == 0 || k > t.children.len() {
        Seq::<(usize, usize)>::empty()
    } else {
        edges_below(t, index, (k - 1) as nat) + unchanged_edges(t.children[k - 1], index)
    }
}

/// All pairs of a snapshot and a child that does not differ from it, by
/// their numbers: those at the root first, then those of each subtree.
pub open spec fn unchanged_edges(t: Tree<DiffInfo>, index: Map<Seq<char>, usize>) -> Seq<
    (usize, usize),
>
    decreases t, t.children.len() + 1,
{
    own_edges(t, index, t.children.len()) + edges_below(t, index, t.children.len())
}

/// The pairs that stand together once the subsets of each of the given
/// pairs have been made one, starting from `len` elements that stand alone.
pub open spec fn joined_after(pairs: Seq<(usize, usize)>, len: nat) -> Set<(usize, usize)>
    decreases pairs.len(),
{
    if pairs.len() == 0 {
        apart(len)
    } else {
        merged(joined_after(pairs.drop_last(), len), pairs.last().0, pairs.last().1)
    }
}

/// The number of a name, if it is known.
fn number_of(name_map: &StringHashMap<usize>, name: &str) -> (number: Option<usize>)
    ensures
        number is Some <==> is_known(name_map@, name@),
        number matches Some(n) ==> n == name_map@[name@],
{
    let count = name_map.len();
    match name_map.get(name) {
        Some(n) => if *n < count {
            Some(*n)
        } else {
            None
        },
        None => None,
    }
}

/// Joins every snapshot of the tree with each child that does not differ
/// from it. Gives up at the first name that is not known.
fn join_unchanged(
    node: &TreeNode<DiffInfo>,
    name_map: &StringHashMap<usize>,
    sets: &mut DisjointSet,
    Ghost(done): Ghost<Seq<(usize, usize)>>,
) -> (ok: bool)
    requires
        element_count(*old(sets)) == name_map@.len(),
        joined(*old(sets)) == joined_after(done, name_map@.len()),
    ensures
        element_count(*final(sets)) == name_map@.len(),
        ok <==> all_known(info_names(node@), name_map@),
        ok ==> joined(*final(sets)) == joined_after(
            done + unchanged_edges(node@, name_map@),
            name_map@.len(),
        ),
    decreases node,
{
    let ghost t = node@;
    let ghost index = name_map@;
    let ghost len = name_map@.len();
    proof {
        lemma_children_view(*node);
    }
    let Some(curr_idx) = number_of(name_map, node.value.name.as_str()) else {
        return false;
    };
    let count = node.children.len();
    for i in 0..count
        invariant
            t == node@,
            index == name_map@,
            len == name_map@.len(),
            t.children == forest_view(node.children@),
            count == t.children.len(),
            curr_idx == index[t.value.name@],
            is_known(index, t.value.name@),
            element_count(*sets) == len,
            forall|k: int| 0 <= k < i ==> is_known(index, (#[trigger] t.children[k]).value.name@),
            joined(*sets) == joined_after(done + own_edges(t, index, i as nat), len),
    {
        let child = &node.children[i];
        proof {
            assert(t.children[i as int] == child@);
        }
        let Some(child_idx) = number_of(name_map, child.value.name.as_str()) else {
            proof {
                assert(info_names(t).children[i as int] == info_names(t.children[i as int]));
                assert(info_names(t.children[i as int]).value == child.value.name@);
                assert(!all_known(info_names(t).children[i as int], index));
            }
            return false;
        };
        if child.value.no_changes() {
            let ghost before = done + own_edges(t, index, i as nat);
            let _ = join_sets(sets, curr_idx, child_idx);
            proof {
                let after = done + own_edges(t, index, (i + 1) as nat);
                assert(after =~= before.push((curr_idx, child_idx)));
                assert(after.drop_last() =~= before);
            }
        }
    }
    let ghost own = done + own_edges(t, index, count as nat);
    proof {
        assert(own + edges_below(t, index, 0) =~= own);
    }
    for i in 0..count
        invariant
            t == node@,
            index == name_map@,
            len == name_map@.len(),
            t.children == forest_view(node.children@),
            count == t.children.len(),
            is_known(index, t.value.name@),
            element_count(*sets) == len,
            forall|k: int| 0 <= k < i ==> all_known(info_names(#[trigger] t.children[k]), index),
            joined(*sets) == joined_after(own + edges_below(t, index, i as nat), len),
    {
        let ghost so_far = own + edges_below(t, index, i as nat);
        proof {
            assert(t.children[i as int] == node.children@[i as int]@);
        }
        if !join_unchanged(&node.children[i], name_map, sets, Ghost(so_far)) {
            proof {
                assert(info_names(t).children[i as int] == info_names(t.children[i as int]));
            }
            return false;
        }
        proof {
            assert(own + edges_below(t, index, (i + 1) as nat) =~= so_far + unchanged_edges(
                t.children[i as int],
                index,
            ));
        }
    }
    proof {
        assert(own + edges_below(t, index, count as nat) =~= done + unchanged_edges(t, index));
        assert forall|k: int| 0 <= k < info_names(t).children.len() implies all_known(
            #[trigger] info_names(t).children[k],
            index,
        ) by {
            assert(all_known(info_names(t.children[k]), index));
        }
    }
    true
}

/// Makes the subsets of the snapshots that do not differ: every snapshot of
/// the tree stands with each of its children that does not differ from it.
/// The snapshots go by the numbers of their names; there is no result where
/// a name of the tree has no number.
pub fn gen_disjoint_set(node: &TreeNode<DiffInfo>, name_map: &StringHashMap<usize>) -> (sets:
    Option<DisjointSet>)
    ensures
        sets is Some <==> all_known(info_names(node@), name_map@),
        sets matches Some(s) ==> element_count(s) == name_map@.len() && joined(s) == joined_after(
            unchanged_edges(node@, name_map@),
            name_map@.len(),
        ),
{
    let mut sets = sets_with_len(name_map.len());
    let ghost none = Seq::<(usize, usize)>::empty();
    if join_unchanged(node, name_map, &mut sets, Ghost(none)) {
        assert(none + unchanged_edges(node@, name_map@) =~= unchanged_edges(node@, name_map@));
        Some(sets)
    } else {
        None
    }
}

/// Two names stand together: their numbers do.
pub open spec fn together(
    index: Map<Seq<char>, usize>,
    same: Set<(usize, usize)>,
    first: Seq<char>,
    second: Seq<char>,
) -> bool {
    same.contains((index[first], index[second]))
}

/// What the first `k` children of a node turn into: the trees that become
/// siblings of the node, and the trees that stay below it.
pub open spec fn gathered(
    t: Tree<Seq<char>>,
    index: Map<Seq<char>, usize>,
    same: Set<(usize, usize)>,
    k: nat,
) -> (Seq<Tree<Seq<char>>>, Seq<Tree<Seq<char>>>)
    decreases t, k,
{
    if k == 0 || k > t.children.len() {
        (Seq::<Tree<Seq<char>>>::empty(), Seq::<Tree<Seq<char>>>::empty())
    } else {
        let before = gathered(t, index, same, (k - 1) as nat);
        let child = t.children[k - 1];
        let from_child = siblings(child, index, same);
        if together(index, same, t.value, child.value) {
            (before.0 + from_child, before.1)
        } else {
            (before.0, before.1 + from_child)
        }
    }
}

/// What a tree turns into when the snapshots that stand together become
/// siblings. Each child turns into its own trees. Where the child stands
/// together with the node, these become siblings of the node; else they
/// stay below the node. The node itself comes last.
pub open spec fn siblings(
    t: Tree<Seq<char>>,
    index: Map<Seq<char>, usize>,
    same: Set<(usize, usize)>,
) -> Seq<Tree<Seq<char>>>
    decreases t, t.children.len() + 1,
{
    let all = gathered(t, index, same, t.children.len());
    all.0.push(Tree { value: t.value, children: all.1 })
}

/// The names of a node of names, from those of its parts.
pub proof fn lemma_name_node(node: TreeNode<String>)
    ensures
        name_tree(node@) == (Tree {
            value: node.value@,
            children: name_forest(forest_view(node.children@)),
        }),
{
    lemma_children_view(node);
    assert(name_tree(node@).children =~= name_forest(forest_view(node.children@)));
}

/// Turns a tree into its siblings. Gives up at the first name that is not
/// known.
fn spread(node: &TreeNode<String>, name_map: &StringHashMap<usize>, sets: &DisjointSet) -> (trees:
    Option<Vec<TreeNode<String>>>)
    requires
        element_count(*sets) == name_map@.len(),
    ensures
        trees is Some <==> all_known(name_tree(node@), name_map@),
        trees matches Some(v) ==> name_forest(forest_view(v@)) == siblings(
            name_tree(node@),
            name_map@,
            joined(*sets),
        ),
    decreases node,
{
    let ghost t = name_tree(node@);
    let ghost index = name_map@;
    let ghost same = joined(*sets);
    proof {
        lemma_name_node(*node);
    }
    let mut identical_siblings: Vec<TreeNode<String>> = Vec::new();
    let mut new_children: Vec<TreeNode<String>> = Vec::new();

    let Some(curr_idx) = number_of(name_map, node.value.as_str()) else {
        return None;
    };
    let count = node.children.len();
    proof {
        assert(name_forest(forest_view(identical_siblings@)) =~= gathered(t, index, same, 0).0);
        assert(name_forest(forest_view(new_children@)) =~= gathered(t, index, same, 0).1);
    }
    for i in 0..count
        invariant
            t == name_tree(node@),
            index == name_map@,
            same == joined(*sets),
            element_count(*sets) == name_map@.len(),
            t.children == name_forest(forest_view(node.children@)),
            count == t.children.len(),
            curr_idx == index[t.value],
            is_known(index, t.value),
            forall|k: int| 0 <= k < i ==> all_known(#[trigger] t.children[k], index),
            name_forest(forest_view(identical_siblings@)) == gathered(t, index, same, i as nat).0,
            name_forest(forest_view(new_children@)) == gathered(t, index, same, i as nat).1,
    {
        let child = &node.children[i];
        proof {
            assert(t.children[i as int] == name_tree(child@));
            lemma_name_node(*child);
        }
        let Some(mut child_identical_siblings) = spread(child, name_map, sets) else {
            return None;
        };
        let Some(child_idx) = number_of(name_map, child.value.as_str()) else {
            return None;
        };
        let ghost from_child = name_forest(forest_view(child_identical_siblings@));
        let ghost ident = name_forest(forest_view(identical_siblings@));
        let ghost kids = name_forest(forest_view(new_children@));
        if in_same_set(sets, curr_idx, child_idx) {
            // Make child and its identical siblings be identical siblings of the current node
            identical_siblings.append(&mut child_identical_siblings);
            assert(name_forest(forest_view(identical_siblings@)) =~= ident + from_child);
        } else {
            new_children.append(&mut child_identical_siblings);
            assert(name_forest(forest_view(new_children@)) =~= kids + from_child);
        }
    }
    let ghost ident = name_forest(forest_view(identical_siblings@));
    let this = TreeNode { value: node.value.clone(), children: new_children };
    proof {
        lemma_name_node(this);
    }
    identical_siblings.push(this);
    assert(name_forest(forest_view(identical_siblings@)) =~= ident.push(name_tree(this@)));
    Some(identical_siblings)
}

/// Makes the snapshots that stand together siblings of each other: a
/// snapshot that stands together with its parent moves up beside it, with
/// all that has moved up beside itself. There is no result where a name of
/// the tree has no number, or where the root does not stay alone at the
/// top.
pub fn convert_identical_clusters_to_siblings(
    tree: &TreeNode<String>,
    name_map: &StringHashMap<usize>,
    disjoint_set: &DisjointSet,
) -> (converted: Option<TreeNode<String>>)
    requires
        element_count(*disjoint_set) == name_map@.len(),
    ensures
        converted is Some <==> (all_known(name_tree(tree@), name_map@) && siblings(
            name_tree(tree@),
            name_map@,
            joined(*disjoint_set),
        ).len() == 1),
        converted matches Some(top) ==> name_tree(top@) == siblings(
            name_tree(tree@),
            name_map@,
            joined(*disjoint_set),
        )[0],
{
    let Some(mut converted_tree_vec) = spread(tree, name_map, disjoint_set) else {
        return None;
    };
    if converted_tree_vec.len() != 1 {
        return None;
    }
    let ghost all = forest_view(converted_tree_vec@);
    let top = converted_tree_vec.remove(0);
    assert(name_forest(all)[0] == name_tree(top@));
    Some(top)
}

/// The name of a snapshot.
fn name_of(info: &DiffInfo) -> (name: String)
    ensures
        name@ == info.name@,
{
    info.name.clone()
}

/// A tree of names that was made name by name from a tree of snapshots has
/// the names of that tree.
pub proof fn lemma_names_of_infos(t: Tree<DiffInfo>, names: Tree<String>)
    requires
        related(t, names, |d: DiffInfo, s: String| s@ == d.name@),
    ensures
        name_tree(names) == info_names(t),
    decreases t,
{
    assert forall|i: int| 0 <= i < t.children.len() implies name_tree(names.children[i])
        == info_names(t.children[i]) by {
        lemma_names_of_infos(t.children[i], names.children[i]);
    }
    assert(name_tree(names).children =~= info_names(t).children);
}

/// The pairs of snapshots of the inferred tree that stand together:
/// snapshots stand together where one does not differ from the other, its
/// parent, or where they stand together with the same third.
pub open spec fn same_in(inferred: Tree<DiffInfo>) -> Set<(usize, usize)> {
    joined_after(
        unchanged_edges(inferred, name_indices(names_in(inferred))),
        name_indices(names_in(inferred)).len(),
    )
}

/// Makes, in the true tree and in the inferred tree alike, siblings of the
/// snapshots that the inferred tree holds to be the same: those that do not
/// differ from their parent. The trees that come out can be compared by
/// the ancestors of every snapshot. There is no result where the true tree
/// holds a name that the inferred tree lacks, where a number is missing, or
/// where a root does not stay alone at the top.
pub fn normalise_identical(ground_tree: &TreeNode<String>, inferred_tree: &TreeNode<DiffInfo>) -> (
    normalised: Option<(TreeNode<String>, TreeNode<String>)>)
    ensures
        normalised matches Some(trees) ==> {
            let index = name_indices(names_in(inferred_tree@));
            &&& name_tree(trees.0@) == siblings(
                name_tree(ground_tree@),
                index,
                same_in(inferred_tree@),
            )[0]
            &&& name_tree(trees.1@) == siblings(
                info_names(inferred_tree@),
                index,
                same_in(inferred_tree@),
            )[0]
        },
        normalised is Some <==> {
            let index = name_indices(names_in(inferred_tree@));
            &&& all_known(info_names(inferred_tree@), index)
            &&& all_known(name_tree(ground_tree@), index)
            &&& siblings(name_tree(ground_tree@), index, same_in(inferred_tree@)).len() == 1
            &&& siblings(info_names(inferred_tree@), index, same_in(inferred_tree@)).len() == 1
        },
{
    let name_map = gen_name_map(inferred_tree);
    let Some(disjoint_set) = gen_disjoint_set(inferred_tree, &name_map) else {
        return None;
    };

    let Some(new_ground_tree) = convert_identical_clusters_to_siblings(
        ground_tree,
        &name_map,
        &disjoint_set,
    ) else {
        return None;
    };
    proof {
        lemma_may_map_all(inferred_tree@, name_of);
    }
    let inferred_names = inferred_tree.map(&name_of);
    proof {
        lemma_mapped_related(
            inferred_tree@,
            name_of,
            inferred_names@,
            |d: DiffInfo, s: String| s@ == d.name@,
        );
        lemma_names_of_infos(inferred_tree@, inferred_names@);
    }
    let Some(new_inferred_tree) = convert_identical_clusters_to_siblings(
        &inferred_names,
        &name_map,
        &disjoint_set,
    ) else {
        return None;
    };
    Some((new_ground_tree, new_inferred_tree))
}

} // verus!
