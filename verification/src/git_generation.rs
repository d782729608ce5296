//! The instructions by which a version tree becomes a repository: which
//! snapshot is committed on which branch.

use crate::tree::{forest_view, lemma_children_view, Tree, TreeNode};
use crate::types::DiffInfo;
use vstd::prelude::*;

verus! {

/// Git instruction
#[derive(Debug)]
pub enum GitI {
    /// Version name
    CreateCommit(String),
    /// Version name, branch name
    CreateBranch(String, String),
}

/// The model of a [`GitI`].
pub ghost enum Instruction {
    /// Commit the snapshot on the branch that is checked out.
    CreateCommit(Seq<char>),
    /// Start the branch, and commit the snapshot on it.
    CreateBranch(Seq<char>, Seq<char>),
}

impl View for GitI {
    type V = Instruction;

    open spec fn view(&self) -> Instruction {
        match self {
            GitI::CreateCommit(version) => Instruction::CreateCommit(version@),
            GitI::CreateBranch(version, branch) => Instruction::CreateBranch(version@, branch@),
        }
    }
}

/// The model of a tree of instructions.
pub open spec fn instruction_tree(t: Tree<GitI>) -> Tree<Instruction>
    decreases t,
{
    Tree {
        value: t.value@,
        children: Seq::new(
            t.children.len(),
            |i: int|
                if 0 <= i < t.children.len() {
                    instruction_tree(t.children[i])
                } else {
                    arbitrary()
                },
        ),
    }
}

/// The models of a sequence of trees of instructions.
pub open spec fn instruction_forest(forest: Seq<Tree<GitI>>) -> Seq<Tree<Instruction>> {
    Seq::new(forest.len(), |i: int| instruction_tree(forest[i]))
}

/// The greatest height among the first `k` children of a node.
pub open spec fn max_height(t: Tree<DiffInfo>, k: nat) -> nat
    decreases t, k,
{
    if k == 0 || k > t.children.len() {
        0
    } else {
        let rest = max_height(t, (k - 1) as nat);
        let last = height(t.children[k - 1]);
        if last >= rest {
            last
        } else {
            rest
        }
    }
}

/// The number of steps from a node down to its farthest descendant.
pub open spec fn height(t: Tree<DiffInfo>) -> nat
    decreases t, t.children.len() + 1,
{
    if t.children.len() == 0 {
        0
    } else {
        1 + max_height(t, t.children.len())
    }
}

/// The place, among the first `k` children of a node, of the child of
/// greatest height; of several such, the last.
pub open spec fn deepest(t: Tree<DiffInfo>, k: nat) -> int
    decreases k,
{
    if k <= 1 {
        0
    } else if height(t.children[k - 1]) >= max_height(t, (k - 1) as nat) {
        k - 1
    } else {
        deepest(t, (k - 1) as nat)
    }
}

/// The place of the deepest child among all children of a node.
pub open spec fn next_commit(t: Tree<DiffInfo>) -> int {
    deepest(t, t.children.len())
}

/// The branch that a snapshot is committed on: the one named after the
/// snapshot at the end of the line of deepest children that starts here.
pub open spec fn branch_of(t: Tree<DiffInfo>) -> Seq<char>
    decreases t,
{
    if t.children.len() == 0 {
        t.value.name@
    } else {
        let next = next_commit(t);
        if 0 <= next < t.children.len() {
            branch_of(t.children[next])
        } else {
            arbitrary()
        }
    }
}

/// The child that stands at place `i` once the deepest child has been taken
/// out and the last child has been put in its place.
pub open spec fn other_child(t: Tree<DiffInfo>, i: int) -> int {
    if i == next_commit(t) {
        t.children.len() - 1
    } else {
        i
    }
}

/// The instructions below a snapshot. The deepest child comes first, as the
/// next commit on the same branch. Every other child starts a branch of its
/// own, named after the end of its line of deepest children; these stand in
/// the order of the children, but that the last child stands where the
/// deepest was.
pub open spec fn instructions(t: Tree<DiffInfo>) -> Seq<Tree<Instruction>>
    decreases t,
{
    Seq::new(
        t.children.len(),
        |k: int|
            if 0 <= k < t.children.len() {
                if k == 0 {
                    let next = next_commit(t);
                    if 0 <= next < t.children.len() {
                        Tree {
                            value: Instruction::CreateCommit(t.children[next].value.name@),
                            children: instructions(t.children[next]),
                        }
                    } else {
                        arbitrary()
                    }
                } else {
                    let c = other_child(t, k - 1);
                    if 0 <= c < t.children.len() {
                        Tree {
                            value: Instruction::CreateBranch(
                                t.children[c].value.name@,
                                branch_of(t.children[c]),
                            ),
                            children: instructions(t.children[c]),
                        }
                    } else {
                        arbitrary()
                    }
                }
            } else {
                arbitrary()
            },
    )
}

/// The branch that starts with a snapshot: named after the end of its line
/// of deepest children, with the instructions below the snapshot.
pub open spec fn branch_tree(t: Tree<DiffInfo>) -> Tree<Instruction> {
    Tree {
        value: Instruction::CreateBranch(t.value.name@, branch_of(t)),
        children: instructions(t),
    }
}

/// The instructions for a whole version tree: one branch for each child of
/// the root, in their order.
pub open spec fn instruction_trees(t: Tree<DiffInfo>) -> Seq<Tree<Instruction>> {
    Seq::new(t.children.len(), |i: int| branch_tree(t.children[i]))
}

/// The deepest of the first `k` children is one of them and as high as any
/// of them.
pub proof fn lemma_deepest(t: Tree<DiffInfo>, k: nat)
    requires
        1 <= k <= t.children.len(),
    ensures
        0 <= deepest(t, k) < k,
        height(t.children[deepest(t, k)]) == max_height(t, k),
        forall|i: int| 0 <= i < k ==> height(#[trigger] t.children[i]) <= max_height(t, k),
    decreases k,
{
    if k > 1 {
        lemma_deepest(t, (k - 1) as nat);
    } else {
        assert(max_height(t, 0) == 0);
    }
}

/// What is known of a snapshot once the instructions below it are made.
pub struct Planned {
    /// The height of the snapshot in the version tree.
    pub depth: usize,
    /// The name of the snapshot.
    pub commit: String,
    /// The branch that the snapshot is committed on.
    pub branch: String,
    /// The instructions below the snapshot.
    pub children: Vec<TreeNode<GitI>>,
}

/// The plan is the one for this snapshot.
pub open spec fn plans(plan: Planned, t: Tree<DiffInfo>) -> bool {
    &&& plan.depth == height(t)
    &&& plan.commit@ == t.value.name@
    &&& plan.branch@ == branch_of(t)
    &&& instruction_forest(forest_view(plan.children@)) == instructions(t)
}

/// The model of a node of instructions, from those of its parts.
pub proof fn lemma_instruction_node(node: TreeNode<GitI>)
    ensures
        instruction_tree(node@) == (Tree {
            value: node.value@,
            children: instruction_forest(forest_view(node.children@)),
        }),
{
    lemma_children_view(node);
    assert(instruction_tree(node@).children =~= instruction_forest(forest_view(node.children@)));
}

/// Makes the instructions below a snapshot, and says on which branch the
/// snapshot itself is committed.
fn plan(node: &TreeNode<DiffInfo>) -> (planned: Planned)
    requires
        height(node@) < usize::MAX,
    ensures
        plans(planned, node@),
    decreases node,
{
    let ghost t = node@;
    proof {
        lemma_children_view(*node);
    }
    let count = node.children.len();
    let mut below: Vec<Planned> = Vec::new();
    for i in 0..count
        invariant
            t == node@,
            t.children == forest_view(node.children@),
            count == node.children@.len(),
            height(t) < usize::MAX,
            below@.len() == i,
            forall|k: int| 0 <= k < i ==> plans(#[trigger] below@[k], t.children[k]),
    {
        proof {
            lemma_deepest(t, count as nat);
            assert(t.children[i as int] == node.children@[i as int]@);
        }
        below.push(plan(&node.children[i]));
    }
    if count == 0 {
        let planned = Planned {
            depth: 0,
            commit: node.value.name.clone(),
            branch: node.value.name.clone(),
            children: Vec::new(),
        };
        assert(instruction_forest(forest_view(planned.children@)) =~= instructions(t));
        return planned;
    }
    // The child with the deepest subtree is the next commit on the same
    // branch; of several such, the last.
    let mut next: usize = 0;
    proof {
        lemma_deepest(t, 1);
    }
    for i in 1..count
        invariant
            t == node@,
            count == t.children.len(),
            below@.len() == count,
            forall|k: int| 0 <= k < count ==> plans(#[trigger] below@[k], t.children[k]),
            next < i,
            next == deepest(t, i as nat),
            below@[next as int].depth == max_height(t, i as nat),
    {
        proof {
            lemma_deepest(t, i as nat);
        }
        if below[i].depth >= below[next].depth {
            next = i;
        }
    }
    proof {
        lemma_deepest(t, count as nat);
        assert(next == next_commit(t));
    }
    let ghost all = below@;
    let first = below.swap_remove(next);
    let Planned { depth, commit: next_name, branch, children: next_children } = first;
    let head = TreeNode { value: GitI::CreateCommit(next_name), children: next_children };
    proof {
        lemma_instruction_node(head);
    }
    let mut new_children: Vec<TreeNode<GitI>> = Vec::new();
    new_children.push(head);
    let ghost others = below@;
    proof {
        assert(instruction_forest(forest_view(new_children@)) =~= instructions(t).take(1));
        assert forall|k: int| 0 <= k < others.len() implies plans(
            #[trigger] others[k],
            t.children[other_child(t, k)],
        ) by {
            if k == next {
                assert(others[k] == all[count - 1]);
            } else {
                assert(others[k] == all[k]);
            }
        }
    }
    for other in it: below
        invariant
            t == node@,
            count == t.children.len(),
            count > 0,
            next == next_commit(t),
            0 <= next < count,
            others == it.seq(),
            others.len() == count - 1,
            forall|k: int|
                0 <= k < others.len() ==> plans(
                    #[trigger] others[k],
                    t.children[other_child(t, k)],
                ),
            new_children@.len() == it.index() + 1,
            instruction_forest(forest_view(new_children@)) == instructions(t).take(
                it.index() + 1,
            ),
    {
        let ghost k = it.index() as int;
        let ghost before = instruction_forest(forest_view(new_children@));
        proof {
            assert(other == others[k]);
            assert(plans(others[k], t.children[other_child(t, k)]));
        }
        let Planned { depth: _, commit: child_commit, branch: child_branch, children } = other;
        let branch_node = TreeNode {
            value: GitI::CreateBranch(child_commit, child_branch),
            children,
        };
        proof {
            lemma_instruction_node(branch_node);
        }
        new_children.push(branch_node);
        proof {
            assert(instruction_forest(forest_view(new_children@)) =~= before.push(
                instruction_tree(branch_node@),
            ));
            assert(instructions(t).take(k + 2) =~= instructions(t).take(k + 1).push(
                instructions(t)[k + 1],
            ));
        }
    }
    proof {
        assert(instructions(t).take(count as int) =~= instructions(t));
    }
    Planned { depth: depth + 1, commit: node.value.name.clone(), branch, children: new_children }
}

/// Makes the instructions by which the version tree becomes a repository.
/// Each child of the root starts a branch. Below every snapshot, the child
/// with the deepest subtree is the next commit on the snapshot's branch and
/// stands first; every other child starts a branch of its own. A branch is
/// named after the snapshot at the end of its line of next commits.
///
/// The root of a version tree is the empty snapshot, `Empty`.
pub fn build_instruction_trees(version_tree: &TreeNode<DiffInfo>) -> (trees: Vec<TreeNode<GitI>>)
    requires
        version_tree@.value.name@ == "Empty"@,
        height(version_tree@) < usize::MAX,
    ensures
        instruction_forest(forest_view(trees@)) == instruction_trees(version_tree@),
{
    let ghost t = version_tree@;
    proof {
        lemma_children_view(*version_tree);
    }
    let count = version_tree.children.len();
    let mut trees: Vec<TreeNode<GitI>> = Vec::new();
    for i in 0..count
        invariant
            t == version_tree@,
            t.children == forest_view(version_tree.children@),
            count == version_tree.children@.len(),
            height(t) < usize::MAX,
            trees@.len() == i,
            forall|k: int|
                0 <= k < i ==> instruction_tree(#[trigger] trees@[k]@) == branch_tree(
                    t.children[k],
                ),
    {
        proof {
            lemma_deepest(t, count as nat);
            assert(t.children[i as int] == version_tree.children@[i as int]@);
        }
        let Planned { depth: _, commit, branch, children } = plan(&version_tree.children[i]);
        let tree = TreeNode { value: GitI::CreateBranch(commit, branch), children };
        proof {
            lemma_instruction_node(tree);
        }
        trees.push(tree);
    }
    assert(instruction_forest(forest_view(trees@)) =~= instruction_trees(t));
    trees
}

} // verus!
