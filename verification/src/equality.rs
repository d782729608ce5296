//! Equality of trees that does not look at the order of children.

use crate::tree::{lemma_children_view, Tree, TreeNode};
use vstd::prelude::*;
use vstd::std_specs::cmp::{PartialEqSpec, PartialEqSpecImpl};

verus! {

/// `p` pairs the positions below `n` one to one, and `q` pairs them back.
pub open spec fn is_pairing(p: Seq<int>, q: Seq<int>, n: nat) -> bool {
    &&& p.len() == n
    &&& q.len() == n
    &&& forall|i: int| 0 <= i < n ==> 0 <= #[trigger] p[i] < n && q[p[i]] == i
    &&& forall|j: int| 0 <= j < n ==> 0 <= #[trigger] q[j] < n && p[q[j]] == j
}

/// Two trees are the same when their values are equal and their children
/// can be paired one to one so that paired children are the same: the
/// children as two multisets are equal.
pub open spec fn same_tree<T: PartialEq>(a: Tree<T>, b: Tree<T>) -> bool
    decreases a,
{
    &&& a.value.eq_spec(&b.value)
    &&& a.children.len() == b.children.len()
    &&& exists|p: Seq<int>, q: Seq<int>|
        #![trigger is_pairing(p, q, a.children.len())]
        is_pairing(p, q, a.children.len()) && forall|i: int|
            0 <= i < a.children.len() ==> same_tree(#[trigger] a.children[i], b.children[p[i]])
}

/// Under `p`, each child of `a` is the same as its partner among the
/// children of `b`.
pub open spec fn pairs<T: PartialEq>(a: Tree<T>, b: Tree<T>, p: Seq<int>) -> bool {
    forall|i: int|
        0 <= i < a.children.len() ==> same_tree(#[trigger] a.children[i], b.children[p[i]])
}

/// The equality of the values is an equivalence.
pub open spec fn eq_is_equivalence<T: PartialEq>() -> bool {
    &&& forall|x: T| #[trigger] x.eq_spec(&x)
    &&& forall|x: T, y: T| #[trigger] x.eq_spec(&y) ==> y.eq_spec(&x)
    &&& forall|x: T, y: T, z: T| #[trigger]
        x.eq_spec(&y) && #[trigger] y.eq_spec(&z) ==> x.eq_spec(&z)
}

/// A pairing of the children under which paired children are the same, where
/// the two trees are the same.
pub open spec fn pairing_of<T: PartialEq>(a: Tree<T>, b: Tree<T>) -> (Seq<int>, Seq<int>) {
    choose|p: Seq<int>, q: Seq<int>|
        #![trigger is_pairing(p, q, a.children.len())]
        is_pairing(p, q, a.children.len()) && forall|i: int|
            0 <= i < a.children.len() ==> same_tree(#[trigger] a.children[i], b.children[p[i]])
}

/// Trees that are the same have a pairing of their children.
pub proof fn lemma_same_tree_pairing<T: PartialEq>(a: Tree<T>, b: Tree<T>)
    requires
        same_tree(a, b),
    ensures
        a.value.eq_spec(&b.value),
        a.children.len() == b.children.len(),
        is_pairing(pairing_of(a, b).0, pairing_of(a, b).1, a.children.len()),
        pairs(a, b, pairing_of(a, b).0),
{
}

/// Trees with equal values and a pairing of their children are the same.
pub proof fn lemma_pairing_same_tree<T: PartialEq>(
    a: Tree<T>,
    b: Tree<T>,
    p: Seq<int>,
    q: Seq<int>,
)
    requires
        a.value.eq_spec(&b.value),
        a.children.len() == b.children.len(),
        is_pairing(p, q, a.children.len()),
        pairs(a, b, p),
    ensures
        same_tree(a, b),
{
}

/// Every tree is the same as itself.
pub proof fn lemma_same_tree_reflexive<T: PartialEq>(a: Tree<T>)
    requires
        eq_is_equivalence::<T>(),
    ensures
        same_tree(a, a),
    decreases a,
{
    let n = a.children.len();
    let id = Seq::new(n, |i: int| i);
    assert(is_pairing(id, id, n));
    assert forall|i: int| 0 <= i < n implies same_tree(#[trigger] a.children[i], a.children[id[i]]) by {
        lemma_same_tree_reflexive(a.children[i]);
    }
    lemma_pairing_same_tree(a, a, id, id);
}

/// Where one tree is the same as another, the other is the same as the one.
pub proof fn lemma_same_tree_symmetric<T: PartialEq>(a: Tree<T>, b: Tree<T>)
    requires
        eq_is_equivalence::<T>(),
        same_tree(a, b),
    ensures
        same_tree(b, a),
    decreases a,
{
    lemma_same_tree_pairing(a, b);
    let (p, q) = pairing_of(a, b);
    let n = a.children.len();
    assert(is_pairing(q, p, n));
    assert forall|j: int| 0 <= j < n implies same_tree(#[trigger] b.children[j], a.children[q[j]]) by {
        assert(same_tree(a.children[q[j]], b.children[p[q[j]]]));
        lemma_same_tree_symmetric(a.children[q[j]], b.children[j]);
    }
    lemma_pairing_same_tree(b, a, q, p);
}

/// Two trees that are the same as a third are the same.
pub proof fn lemma_same_tree_transitive<T: PartialEq>(a: Tree<T>, b: Tree<T>, c: Tree<T>)
    requires
        eq_is_equivalence::<T>(),
        same_tree(a, b),
        same_tree(b, c),
    ensures
        same_tree(a, c),
    decreases a,
{
    lemma_same_tree_pairing(a, b);
    lemma_same_tree_pairing(b, c);
    let (first_there, first_back) = pairing_of(a, b);
    let (second_there, second_back) = pairing_of(b, c);
    let n = a.children.len();
    let p = Seq::new(n, |i: int| second_there[first_there[i]]);
    let q = Seq::new(n, |j: int| first_back[second_back[j]]);
    assert(is_pairing(p, q, n)) by {
        assert forall|i: int| 0 <= i < n implies 0 <= #[trigger] p[i] < n && q[p[i]] == i by {
            assert(0 <= first_there[i] < n);
            assert(second_back[second_there[first_there[i]]] == first_there[i]);
        }
        assert forall|j: int| 0 <= j < n implies 0 <= #[trigger] q[j] < n && p[q[j]] == j by {
            assert(0 <= second_back[j] < n);
            assert(first_there[first_back[second_back[j]]] == second_back[j]);
        }
    }
    assert forall|i: int| 0 <= i < n implies same_tree(#[trigger] a.children[i], c.children[p[i]]) by {
        assert(same_tree(a.children[i], b.children[first_there[i]]));
        assert(0 <= first_there[i] < n);
        assert(same_tree(b.children[first_there[i]], c.children[second_there[first_there[i]]]));
        lemma_same_tree_transitive(a.children[i], b.children[first_there[i]], c.children[p[i]]);
    }
    lemma_pairing_same_tree(a, c, p, q);
}

/// The number of marks that are set.
pub open spec fn count_set(marks: Seq<bool>) -> nat
    decreases marks.len(),
{
    if marks.len() == 0 {
        0
    } else {
        count_set(marks.drop_last()) + if marks.last() {
            1nat
        } else {
            0nat
        }
    }
}

/// Setting a mark that was not set gives one more mark that is set.
pub proof fn lemma_count_set_one_more(marks: Seq<bool>, j: int)
    requires
        0 <= j < marks.len(),
        !marks[j],
    ensures
        count_set(marks.update(j, true)) == count_set(marks) + 1,
    decreases marks.len(),
{
    let after = marks.update(j, true);
    if j == marks.len() - 1 {
        assert(after.drop_last() =~= marks.drop_last());
    } else {
        assert(after.drop_last() =~= marks.drop_last().update(j, true));
        lemma_count_set_one_more(marks.drop_last(), j);
    }
}

/// Where as many marks are set as there are marks, every mark is set; and
/// never more are set than there are.
pub proof fn lemma_count_set_full(marks: Seq<bool>)
    ensures
        count_set(marks) <= marks.len(),
        count_set(marks) == marks.len() ==> forall|j: int| 0 <= j < marks.len() ==> marks[j],
    decreases marks.len(),
{
    if marks.len() > 0 {
        lemma_count_set_full(marks.drop_last());
        if count_set(marks) == marks.len() {
            assert forall|j: int| 0 <= j < marks.len() implies marks[j] by {
                if j < marks.len() - 1 {
                    assert(marks.drop_last()[j]);
                }
            }
        }
    }
}

/// No mark of a sequence of cleared marks is set.
pub proof fn lemma_count_set_none(marks: Seq<bool>)
    requires
        forall|j: int| 0 <= j < marks.len() ==> !marks[j],
    ensures
        count_set(marks) == 0,
    decreases marks.len(),
{
    if marks.len() > 0 {
        lemma_count_set_none(marks.drop_last());
    }
}

/// A pairing under which `i` has the partner `j`, made from one under which
/// it has another: the two partners change places.
pub proof fn lemma_pairing_exchange<T: PartialEq>(
    a: Tree<T>,
    b: Tree<T>,
    p: Seq<int>,
    q: Seq<int>,
    i: int,
    j: int,
) -> (r: (Seq<int>, Seq<int>))
    requires
        eq_is_equivalence::<T>(),
        a.children.len() == b.children.len(),
        is_pairing(p, q, a.children.len()),
        pairs(a, b, p),
        0 <= i < a.children.len(),
        0 <= j < a.children.len(),
        same_tree(a.children[i], b.children[j]),
    ensures
        is_pairing(r.0, r.1, a.children.len()),
        pairs(a, b, r.0),
        r.0[i] == j,
        forall|k: int| 0 <= k < a.children.len() && k != i && k != q[j] ==> r.0[k] == p[k],
{
    let k = q[j];
    let j0 = p[i];
    if k == i {
        (p, q)
    } else {
        let there = p.update(i, j).update(k, j0);
        let back = q.update(j, i).update(j0, k);
        assert(p[k] == j);
        assert(same_tree(a.children[k], b.children[j]));
        assert(same_tree(a.children[i], b.children[j0]));
        lemma_same_tree_symmetric(a.children[i], b.children[j]);
        lemma_same_tree_transitive(a.children[k], b.children[j], a.children[i]);
        lemma_same_tree_transitive(a.children[k], a.children[i], b.children[j0]);
        assert forall|x: int| 0 <= x < a.children.len() implies same_tree(
            #[trigger] a.children[x],
            b.children[there[x]],
        ) by {
            if x != i && x != k {
                assert(same_tree(a.children[x], b.children[p[x]]));
            }
        }
        assert(is_pairing(there, back, a.children.len())) by {
            let n = a.children.len();
            assert forall|x: int| 0 <= x < n implies 0 <= #[trigger] there[x] < n && back[there[x]]
                == x by {
                if x != i && x != k {
                    assert(q[p[x]] == x);
                    assert(p[x] != j);
                    assert(p[x] != j0);
                }
            }
            assert forall|y: int| 0 <= y < n implies 0 <= #[trigger] back[y] < n && there[back[y]]
                == y by {
                if y != j && y != j0 {
                    assert(p[q[y]] == y);
                    assert(q[y] != i);
                    assert(q[y] != k);
                }
            }
        }
        (there, back)
    }
}

impl<T: Eq> PartialEq for TreeNode<T> {
    /// Whether the two trees have equal values and, whatever the order of
    /// their children, the same children.
    fn eq(&self, other: &Self) -> (r: bool)
        decreases self,
    {
        let ghost obeys = T::obeys_eq_spec() && eq_is_equivalence::<T>();
        let ghost a = self@;
        let ghost b = other@;
        proof {
            lemma_children_view(*self);
            lemma_children_view(*other);
        }
        if !(self.value == other.value) {
            return false;
        }
        if self.children.len() != other.children.len() {
            return false;
        }
        let n = self.children.len();
        let mut used: Vec<bool> = Vec::new();
        for k in 0..n
            invariant
                used@.len() == k,
                forall|j: int| 0 <= j < k ==> !used@[j],
        {
            used.push(false);
        }
        let ghost has = same_tree(a, b);
        let ghost mut there: Seq<int> = Seq::empty();
        let ghost mut back: Seq<int> = Seq::new(n as nat, |j: int| -1);
        let ghost mut p: Seq<int> = Seq::empty();
        let ghost mut q: Seq<int> = Seq::empty();
        proof {
            lemma_count_set_none(used@);
            if has {
                lemma_same_tree_pairing(a, b);
                p = pairing_of(a, b).0;
                q = pairing_of(a, b).1;
            }
        }
        for i in 0..n
            invariant
                obeys == (T::obeys_eq_spec() && eq_is_equivalence::<T>()),
                a == self@,
                b == other@,
                a.children == crate::tree::forest_view(self.children@),
                b.children == crate::tree::forest_view(other.children@),
                n == self.children@.len(),
                n == other.children@.len(),
                used@.len() == n,
                there.len() == i,
                back.len() == n,
                count_set(used@) == i,
                forall|k: int|
                    0 <= k < i ==> 0 <= #[trigger] there[k] < n && used@[there[k]] && back[there[k]]
                        == k,
                forall|j: int|
                    0 <= j < n && #[trigger] used@[j] ==> 0 <= back[j] < i && there[back[j]] == j,
                obeys ==> forall|k: int|
                    0 <= k < i ==> same_tree(#[trigger] a.children[k], b.children[there[k]]),
                obeys && has ==> is_pairing(p, q, n as nat) && pairs(a, b, p) && forall|k: int|
                    0 <= k < i ==> #[trigger] p[k] == there[k],
                obeys ==> a.value.eq_spec(&b.value),
                has == same_tree(a, b),
        {
            let mut j: usize = 0;
            let mut hit: Option<usize> = None;
            while j < n && hit.is_none()
                invariant
                    obeys == (T::obeys_eq_spec() && eq_is_equivalence::<T>()),
                    a == self@,
                    b == other@,
                    a.children == crate::tree::forest_view(self.children@),
                    b.children == crate::tree::forest_view(other.children@),
                    n == self.children@.len(),
                    n == other.children@.len(),
                    used@.len() == n,
                    i < n,
                    j <= n,
                    hit matches Some(h) ==> h < n && !used@[h as int] && (obeys ==> same_tree(
                        a.children[i as int],
                        b.children[h as int],
                    )),
                    hit is None ==> forall|k: int|
                        0 <= k < j ==> #[trigger] used@[k] || (obeys ==> !same_tree(
                            a.children[i as int],
                            b.children[k],
                        )),
                decreases
                        n - j + if hit is None {
                            1int
                        } else {
                            0int
                        },
            {
                if !used[j] && self.children[i] == other.children[j] {
                    hit = Some(j);
                } else {
                    j = j + 1;
                }
            }
            match hit {
                Some(h) => {
                    proof {
                        if obeys && has {
                            assert(0 <= q[h as int] < n);
                            let r = lemma_pairing_exchange(a, b, p, q, i as int, h as int);
                            assert forall|k: int| 0 <= k < i implies #[trigger] r.0[k]
                                == there[k] by {
                                assert(p[k] == there[k]);
                                assert(used@[there[k]]);
                                if k == q[h as int] {
                                    assert(p[q[h as int]] == h);
                                }
                            }
                            p = r.0;
                            q = r.1;
                        }
                        lemma_count_set_one_more(used@, h as int);
                        there = there.push(h as int);
                        back = back.update(h as int, i as int);
                    }
                    used.set(h, true);
                },
                None => {
                    proof {
                        if obeys && has {
                            let partner = p[i as int];
                            assert(0 <= partner < n);
                            assert(same_tree(a.children[i as int], b.children[partner]));
                            if used@[partner] {
                                let k0 = back[partner];
                                assert(there[k0] == partner);
                                assert(p[k0] == partner);
                                assert(q[p[k0]] == k0);
                                assert(q[p[i as int]] == i);
                            }
                        }
                    }
                    return false;
                },
            }
        }
        proof {
            lemma_count_set_full(used@);
            assert forall|j: int| 0 <= j < n implies 0 <= #[trigger] back[j] < n && there[back[j]]
                == j by {
                assert(used@[j]);
            }
            assert forall|k: int| 0 <= k < n implies 0 <= #[trigger] there[k] < n && back[there[k]]
                == k by {}
            if obeys {
                assert(is_pairing(there, back, n as nat));
                lemma_pairing_same_tree(a, b, there, back);
            }
        }
        true
    }
}

impl<T: Eq> Eq for TreeNode<T> {

}

impl<T: Eq> PartialEqSpecImpl for TreeNode<T> {
    open spec fn obeys_eq_spec() -> bool {
        T::obeys_eq_spec() && eq_is_equivalence::<T>()
    }

    open spec fn eq_spec(&self, other: &Self) -> bool {
        same_tree(self@, other@)
    }
}

} // verus!
