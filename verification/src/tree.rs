//! An owned tree of values, and the mathematical tree that models it.

use vstd::prelude::*;

verus! {

/// A value together with an ordered sequence of child subtrees.
#[derive(Debug)]
pub struct TreeNode<T> {
    pub value: T,
    pub children: Vec<TreeNode<T>>,
}

/// The mathematical model of a [`TreeNode`]: the same shape, with the
/// children as a sequence.
pub ghost struct Tree<A> {
    pub value: A,
    pub children: Seq<Tree<A>>,
}

/// The model of a node: its value, and the models of its children.
pub open spec fn model<T>(node: TreeNode<T>) -> Tree<T>
    decreases node,
{
    Tree {
        value: node.value,
        children: Seq::new(
            node.children@.len(),
            |i: int|
                if 0 <= i < node.children@.len() {
                    model(node.children@[i])
                } else {
                    arbitrary()
                },
        ),
    }
}

impl<T> View for TreeNode<T> {
    type V = Tree<T>;

    open spec fn view(&self) -> Tree<T> {
        model(*self)
    }
}

/// The models of a sequence of trees.
pub open spec fn forest_view<T>(forest: Seq<TreeNode<T>>) -> Seq<Tree<T>> {
    Seq::new(forest.len(), |i: int| forest[i]@)
}

/// The values at the roots of a sequence of trees.
pub open spec fn roots<A>(forest: Seq<Tree<A>>) -> Seq<A> {
    Seq::new(forest.len(), |i: int| forest[i].value)
}

/// The values of a tree, each node before its children, the children in
/// their order.
pub open spec fn flatten<A>(t: Tree<A>) -> Seq<A>
    decreases t,
{
    seq![t.value] + flatten_all(t.children)
}

/// The values of a sequence of trees, tree after tree.
pub open spec fn flatten_all<A>(forest: Seq<Tree<A>>) -> Seq<A>
    decreases forest,
{
    if forest.len() == 0 {
        Seq::<A>::empty()
    } else {
        flatten_all(forest.drop_last()) + flatten(forest.last())
    }
}

/// The number of nodes of a tree.
pub open spec fn size<A>(t: Tree<A>) -> nat {
    flatten(t).len()
}

/// A value of a sequence of trees is a value of one of the trees.
pub proof fn lemma_flatten_all_index<A>(forest: Seq<Tree<A>>, x: A) -> (i: int)
    requires
        flatten_all(forest).contains(x),
    ensures
        0 <= i < forest.len(),
        flatten(forest[i]).contains(x),
    decreases forest.len(),
{
    if forest.len() == 0 {
        0
    } else {
        let front = flatten_all(forest.drop_last());
        let back = flatten(forest.last());
        let at = choose|at: int| 0 <= at < (front + back).len() && (front + back)[at] == x;
        if at < front.len() {
            assert(front[at] == x);
            lemma_flatten_all_index(forest.drop_last(), x)
        } else {
            assert(back[at - front.len()] == x);
            forest.len() - 1
        }
    }
}

/// A value of one of the trees is a value of the sequence of trees.
pub proof fn lemma_flatten_all_has<A>(forest: Seq<Tree<A>>, i: int, x: A)
    requires
        0 <= i < forest.len(),
        flatten(forest[i]).contains(x),
    ensures
        flatten_all(forest).contains(x),
    decreases forest.len(),
{
    let front = flatten_all(forest.drop_last());
    let back = flatten(forest.last());
    if i == forest.len() - 1 {
        let at = choose|at: int| 0 <= at < back.len() && back[at] == x;
        assert((front + back)[front.len() + at] == x);
    } else {
        lemma_flatten_all_has(forest.drop_last(), i, x);
        let at = choose|at: int| 0 <= at < front.len() && front[at] == x;
        assert((front + back)[at] == x);
    }
}

/// A value of a tree is its root or a value of one of its children.
pub proof fn lemma_flatten_cases<A>(t: Tree<A>, x: A)
    ensures
        flatten(t).contains(x) <==> (x == t.value || flatten_all(t.children).contains(x)),
{
    let head = seq![t.value];
    let rest = flatten_all(t.children);
    if flatten(t).contains(x) {
        let at = choose|at: int| 0 <= at < (head + rest).len() && (head + rest)[at] == x;
        if at > 0 {
            assert(rest[at - 1] == x);
        }
    }
    if x == t.value {
        assert((head + rest)[0] == x);
    }
    if rest.contains(x) {
        let at = choose|at: int| 0 <= at < rest.len() && rest[at] == x;
        assert((head + rest)[at + 1] == x);
    }
}

/// The children of a node are modelled one by one.
pub proof fn lemma_children_view<T>(node: TreeNode<T>)
    ensures
        node@.value == node.value,
        node@.children == forest_view(node.children@),
{
    assert(node@.children =~= forest_view(node.children@));
}

/// The function may be called at every node of the tree, with the node's
/// value and the value of the node's parent (`parent` for the root).
pub open spec fn may_map_with_parent<T, U, F: Fn(&T, Option<&T>) -> U>(
    t: Tree<T>,
    parent: Option<&T>,
    f: F,
) -> bool
    decreases t,
{
    &&& f.requires((&t.value, parent))
    &&& forall|i: int|
        0 <= i < t.children.len() ==> may_map_with_parent(
            #[trigger] t.children[i],
            Some(&t.value),
            f,
        )
}

/// `out` has the shape of `t`, and each of its values is what the function
/// gives for the value at the same place in `t` and the value of that
/// node's parent (`parent` for the root).
pub open spec fn mapped_with_parent<T, U, F: Fn(&T, Option<&T>) -> U>(
    t: Tree<T>,
    parent: Option<&T>,
    f: F,
    out: Tree<U>,
) -> bool
    decreases t,
{
    &&& f.ensures((&t.value, parent), out.value)
    &&& out.children.len() == t.children.len()
    &&& forall|i: int|
        0 <= i < t.children.len() ==> mapped_with_parent(
            #[trigger] t.children[i],
            Some(&t.value),
            f,
            out.children[i],
        )
}

/// The function may be called on every value of the tree.
pub open spec fn may_map<T, U, F: Fn(&T) -> U>(t: Tree<T>, f: F) -> bool
    decreases t,
{
    &&& f.requires((&t.value,))
    &&& forall|i: int| 0 <= i < t.children.len() ==> may_map(#[trigger] t.children[i], f)
}

/// `out` has the shape of `t`, and each of its values is what the function
/// gives for the value at the same place in `t`.
pub open spec fn mapped<T, U, F: Fn(&T) -> U>(t: Tree<T>, f: F, out: Tree<U>) -> bool
    decreases t,
{
    &&& f.ensures((&t.value,), out.value)
    &&& out.children.len() == t.children.len()
    &&& forall|i: int|
        0 <= i < t.children.len() ==> mapped(#[trigger] t.children[i], f, out.children[i])
}

/// Where a function of value and parent may be called wherever a function
/// of the value alone may, it may be called all over the tree.
pub proof fn lemma_may_map_through<T, U, F: Fn(&T) -> U, G: Fn(&T, Option<&T>) -> U>(
    t: Tree<T>,
    parent: Option<&T>,
    f: F,
    g: G,
)
    requires
        may_map(t, f),
        forall|x: &T, p: Option<&T>| f.requires((x,)) ==> #[trigger] g.requires((x, p)),
    ensures
        may_map_with_parent(t, parent, g),
    decreases t,
{
    assert forall|i: int| 0 <= i < t.children.len() implies may_map_with_parent(
        #[trigger] t.children[i],
        Some(&t.value),
        g,
    ) by {
        lemma_may_map_through(t.children[i], Some(&t.value), f, g);
    }
}

/// Where a function of value and parent gives only what a function of the
/// value alone gives, a tree mapped by the first is mapped by the second.
pub proof fn lemma_mapped_through<T, U, F: Fn(&T) -> U, G: Fn(&T, Option<&T>) -> U>(
    t: Tree<T>,
    parent: Option<&T>,
    f: F,
    g: G,
    out: Tree<U>,
)
    requires
        mapped_with_parent(t, parent, g, out),
        forall|x: &T, p: Option<&T>, u: U| #[trigger] g.ensures((x, p), u) ==> f.ensures((x,), u),
    ensures
        mapped(t, f, out),
    decreases t,
{
    assert forall|i: int| 0 <= i < t.children.len() implies mapped(
        #[trigger] t.children[i],
        f,
        out.children[i],
    ) by {
        lemma_mapped_through(t.children[i], Some(&t.value), f, g, out.children[i]);
    }
}

/// `out` has the shape of `t`, and each of its values stands in the given
/// relation to the value at the same place in `t`.
pub open spec fn related<A, B>(t: Tree<A>, out: Tree<B>, relation: spec_fn(A, B) -> bool) -> bool
    decreases t,
{
    &&& relation(t.value, out.value)
    &&& out.children.len() == t.children.len()
    &&& forall|i: int|
        0 <= i < t.children.len() ==> related(#[trigger] t.children[i], out.children[i], relation)
}

/// `out` has the shape of `t`, and each of its values stands in the given
/// relation to the value at the same place in `t` and the value of that
/// node's parent (`parent` for the root).
pub open spec fn related_with_parent<A, B>(
    t: Tree<A>,
    parent: Option<A>,
    out: Tree<B>,
    relation: spec_fn(A, Option<A>, B) -> bool,
) -> bool
    decreases t,
{
    &&& relation(t.value, parent, out.value)
    &&& out.children.len() == t.children.len()
    &&& forall|i: int|
        0 <= i < t.children.len() ==> related_with_parent(
            #[trigger] t.children[i],
            Some(t.value),
            out.children[i],
            relation,
        )
}

/// The value that a reference to a parent stands for.
pub open spec fn parent_value<A>(parent: Option<&A>) -> Option<A> {
    match parent {
        Some(p) => Some(*p),
        None => None,
    }
}

/// A tree mapped by a function whose results stand in a relation to its
/// arguments is related to the tree it was mapped from.
pub proof fn lemma_mapped_related<T, U, F: Fn(&T) -> U>(
    t: Tree<T>,
    f: F,
    out: Tree<U>,
    relation: spec_fn(T, U) -> bool,
)
    requires
        mapped(t, f, out),
        forall|x: &T, u: U| #[trigger] f.ensures((x,), u) ==> relation(*x, u),
    ensures
        related(t, out, relation),
    decreases t,
{
    assert forall|i: int| 0 <= i < t.children.len() implies related(
        #[trigger] t.children[i],
        out.children[i],
        relation,
    ) by {
        lemma_mapped_related(t.children[i], f, out.children[i], relation);
    }
}

/// A tree mapped by a function of value and parent whose results stand in a
/// relation to its arguments is related to the tree it was mapped from.
pub proof fn lemma_mapped_related_with_parent<T, U, F: Fn(&T, Option<&T>) -> U>(
    t: Tree<T>,
    parent: Option<&T>,
    f: F,
    out: Tree<U>,
    relation: spec_fn(T, Option<T>, U) -> bool,
)
    requires
        mapped_with_parent(t, parent, f, out),
        forall|x: &T, p: Option<&T>, u: U| #[trigger]
            f.ensures((x, p), u) ==> relation(*x, parent_value(p), u),
    ensures
        related_with_parent(t, parent_value(parent), out, relation),
    decreases t,
{
    assert forall|i: int| 0 <= i < t.children.len() implies related_with_parent(
        #[trigger] t.children[i],
        Some(t.value),
        out.children[i],
        relation,
    ) by {
        lemma_mapped_related_with_parent(
            t.children[i],
            Some(&t.value),
            f,
            out.children[i],
            relation,
        );
    }
}

/// A function that may be called on every value may be mapped over every
/// tree.
pub proof fn lemma_may_map_all<T, U, F: Fn(&T) -> U>(t: Tree<T>, f: F)
    requires
        forall|x: &T| #[trigger] f.requires((x,)),
    ensures
        may_map(t, f),
    decreases t,
{
    assert forall|i: int| 0 <= i < t.children.len() implies may_map(
        #[trigger] t.children[i],
        f,
    ) by {
        lemma_may_map_all(t.children[i], f);
    }
}

/// A function of value and parent that may be called on all of them may be
/// mapped over every tree.
pub proof fn lemma_may_map_with_parent_all<T, U, F: Fn(&T, Option<&T>) -> U>(
    t: Tree<T>,
    parent: Option<&T>,
    f: F,
)
    requires
        forall|x: &T, p: Option<&T>| #[trigger] f.requires((x, p)),
    ensures
        may_map_with_parent(t, parent, f),
    decreases t,
{
    assert forall|i: int| 0 <= i < t.children.len() implies may_map_with_parent(
        #[trigger] t.children[i],
        Some(&t.value),
        f,
    ) by {
        lemma_may_map_with_parent_all(t.children[i], Some(&t.value), f);
    }
}

/// `copy` has the shape of `t`, and each of its values is a clone of the
/// value at the same place in `t`.
pub open spec fn cloned_tree<T: Clone>(t: Tree<T>, copy: Tree<T>) -> bool
    decreases t,
{
    &&& cloned::<T>(t.value, copy.value)
    &&& copy.children.len() == t.children.len()
    &&& forall|i: int|
        0 <= i < t.children.len() ==> cloned_tree(#[trigger] t.children[i], copy.children[i])
}

impl<T: Clone> Clone for TreeNode<T> {
    /// Clones the tree value by value.
    fn clone(&self) -> (copy: Self)
        ensures
            cloned_tree(self@, copy@),
        decreases self,
    {
        let value = self.value.clone();
        let mut children: Vec<TreeNode<T>> = Vec::new();
        for i in 0..self.children.len()
            invariant
                children@.len() == i,
                forall|k: int|
                    0 <= k < i ==> cloned_tree(self.children@[k]@, #[trigger] children@[k]@),
        {
            let child = self.children[i].clone();
            children.push(child);
        }
        let copy = TreeNode { value, children };
        proof {
            lemma_children_view(*self);
            lemma_children_view(copy);
        }
        copy
    }
}

impl<T> TreeNode<T> {
    /// A tree of one node.
    pub fn leaf(value: T) -> (node: Self)
        ensures
            node@ == (Tree { value, children: Seq::<Tree<T>>::empty() }),
    {
        let node = TreeNode { value, children: Vec::new() };
        assert(node@.children =~= Seq::<Tree<T>>::empty());
        node
    }

    /// Builds a tree of the same shape whose values are what `f` gives for
    /// each value and the value of its parent; for the root, `parent`.
    pub fn map_with_parent<F, U>(&self, f: &F, parent: Option<&T>) -> (out: TreeNode<U>) where
        F: Fn(&T, Option<&T>) -> U,

        requires
            may_map_with_parent(self@, parent, *f),
        ensures
            mapped_with_parent(self@, parent, *f, out@),
        decreases self,
    {
        proof {
            lemma_children_view(*self);
        }
        let value = f(&self.value, parent);
        let mut children: Vec<TreeNode<U>> = Vec::new();
        for i in 0..self.children.len()
            invariant
                self@.children == forest_view(self.children@),
                may_map_with_parent(self@, parent, *f),
                children@.len() == i,
                forall|k: int|
                    0 <= k < i ==> mapped_with_parent(
                        self.children@[k]@,
                        Some(&self.value),
                        *f,
                        #[trigger] children@[k]@,
                    ),
        {
            assert(self@.children[i as int] == self.children@[i as int]@);
            let child = self.children[i].map_with_parent(f, Some(&self.value));
            children.push(child);
        }
        let out = TreeNode { value, children };
        proof {
            lemma_children_view(out);
        }
        out
    }

    /// Builds a tree of the same shape whose values are what `f` gives for
    /// each value.
    pub fn map<F, U>(&self, f: &F) -> (out: TreeNode<U>) where F: Fn(&T) -> U
        requires
            may_map(self@, *f),
        ensures
            mapped(self@, *f, out@),
    {
        let with_parent = |x: &T, p: Option<&T>| -> (u: U)
            requires
                f.requires((x,)),
            ensures
                f.ensures((x,), u),
            { f(x) };
        proof {
            lemma_may_map_through(self@, None, *f, with_parent);
        }
        let out = self.map_with_parent(&with_parent, None);
        proof {
            lemma_mapped_through(self@, None, *f, with_parent, out@);
        }
        out
    }
}

} // verus!
