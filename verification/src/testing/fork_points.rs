//! The tree of one repository and its forks, assembled from the points at
//! which the forks left it.

use crate::testing::forks::VersionRef;
use crate::tree::{forest_view, lemma_children_view, Tree, TreeNode};
use vstd::prelude::*;
use vstd::string::StringExecFns;

verus! {

/// A fork of a repository: how many commits behind the head it left the
/// repository, at which commit, and the tree of the fork and its own forks.
#[derive(Debug)]
pub struct Fork {
    pub behind_by: u64,
    pub sha: String,
    pub tree: TreeNode<VersionRef>,
}

/// A fork left the repository at this point, or the point is the head.
pub open spec fn is_point(forks: Seq<Fork>, point: u64) -> bool {
    point == 0 || exists|i: int| 0 <= i < forks.len() && (#[trigger] forks[i]).behind_by == point
}

/// The trees of the forks that left at a point, in their order.
pub open spec fn trees_at(forks: Seq<Fork>, point: u64) -> Seq<Tree<VersionRef>> {
    forks.filter(|f: Fork| f.behind_by == point).map_values(|f: Fork| f.tree@)
}

/// The commit at a point: the head's, or the one that the first fork that
/// left there names.
pub open spec fn commit_at(forks: Seq<Fork>, head_sha: Seq<char>, point: u64) -> Seq<char> {
    if point == 0 {
        head_sha
    } else {
        forks.filter(|f: Fork| f.behind_by == point).first().sha@
    }
}

/// The forks agree on the commits: forks that left at the same point name
/// the same commit, and forks that left at the head name the head's.
pub open spec fn commits_agree(forks: Seq<Fork>, head_sha: Seq<char>) -> bool {
    &&& forall|i: int, j: int|
        0 <= i < forks.len() && 0 <= j < forks.len() && (#[trigger] forks[i]).behind_by == (
        #[trigger] forks[j]).behind_by ==> forks[i].sha@ == forks[j].sha@
    &&& forall|i: int|
        0 <= i < forks.len() && (#[trigger] forks[i]).behind_by == 0 ==> forks[i].sha@ == head_sha
}

/// The point next to `point` on the side of the head: the farthest point
/// that is nearer to the head.
pub open spec fn is_next_nearer(forks: Seq<Fork>, point: u64, nearer: u64) -> bool {
    &&& is_point(forks, nearer)
    &&& nearer < point
    &&& forall|q: u64| is_point(forks, q) && q < point ==> q <= nearer
}

/// The farthest point of all.
pub open spec fn is_farthest(forks: Seq<Fork>, point: u64) -> bool {
    &&& is_point(forks, point)
    &&& forall|q: u64| is_point(forks, q) ==> q <= point
}

/// The tree stands for the repository from `point` towards the head. Its
/// root is the version at `point`, with the given number. Below it stands
/// first, unless the point is the head, the tree from the next nearer point
/// with the next number, and then the forks that left at `point`.
pub open spec fn is_chain(
    t: Tree<VersionRef>,
    forks: Seq<Fork>,
    owner: Seq<char>,
    repo: Seq<char>,
    head_sha: Seq<char>,
    point: u64,
    number: nat,
) -> bool
    decreases t,
{
    &&& t.value.owner@ == owner
    &&& t.value.repo@ == repo
    &&& t.value.commit@ == commit_at(forks, head_sha, point)
    &&& t.value.is_head == (point == 0)
    &&& t.value.version_no == number
    &&& if point == 0 {
        t.children == trees_at(forks, point)
    } else {
        &&& t.children.len() > 0
        &&& t.children.skip(1) == trees_at(forks, point)
        &&& exists|nearer: u64|
            #![trigger is_next_nearer(forks, point, nearer)]
            is_next_nearer(forks, point, nearer) && is_chain(
                t.children[0],
                forks,
                owner,
                repo,
                head_sha,
                nearer,
                number + 1,
            )
    }
}

/// The forks that left at one point.
struct Point {
    behind_by: u64,
    sha: String,
    trees: Vec<TreeNode<VersionRef>>,
}

/// The points hold the forks: they are in rising order from the head, and
/// each holds the commit at its point and the trees of the forks that left
/// there.
spec fn holds(points: Seq<Point>, forks: Seq<Fork>, head_sha: Seq<char>) -> bool {
    &&& points.len() > 0
    &&& points[0].behind_by == 0
    &&& forall|i: int, j: int|
        0 <= i < j < points.len() ==> (#[trigger] points[i]).behind_by < (
        #[trigger] points[j]).behind_by
    &&& forall|i: int| 0 <= i < points.len() ==> is_point(forks, (#[trigger] points[i]).behind_by)
    &&& forall|q: u64|
        is_point(forks, q) ==> exists|i: int|
            0 <= i < points.len() && (#[trigger] points[i]).behind_by == q
    &&& forall|i: int|
        0 <= i < points.len() ==> (#[trigger] points[i]).sha@ == commit_at(
            forks,
            head_sha,
            points[i].behind_by,
        )
    &&& forall|i: int|
        0 <= i < points.len() ==> forest_view((#[trigger] points[i]).trees@) == trees_at(
            forks,
            points[i].behind_by,
        )
}

/// The forks that left at a point, with one more fork.
proof fn lemma_trees_at_push(forks: Seq<Fork>, fork: Fork, point: u64)
    ensures
        trees_at(forks.push(fork), point) == if fork.behind_by == point {
            trees_at(forks, point).push(fork.tree@)
        } else {
            trees_at(forks, point)
        },
        forks.push(fork).filter(|f: Fork| f.behind_by == point) == if fork.behind_by == point {
            forks.filter(|f: Fork| f.behind_by == point).push(fork)
        } else {
            forks.filter(|f: Fork| f.behind_by == point)
        },
{
    let keep = |f: Fork| f.behind_by == point;
    let to = |f: Fork| f.tree@;
    assert(forks.push(fork).drop_last() =~= forks);
    reveal(Seq::filter);
    if keep(fork) {
        assert(forks.push(fork).filter(keep) =~= forks.filter(keep).push(fork));
        assert(forks.filter(keep).push(fork).map_values(to) =~= forks.filter(keep).map_values(
            to,
        ).push(to(fork)));
    } else {
        assert(forks.push(fork).filter(keep) =~= forks.filter(keep));
    }
}

/// Where a fork left at a point, the forks that left there are not none,
/// and where none did, no fork left there.
proof fn lemma_point_has_forks(forks: Seq<Fork>, point: u64)
    ensures
        (exists|i: int| 0 <= i < forks.len() && (#[trigger] forks[i]).behind_by == point)
            <==> forks.filter(|f: Fork| f.behind_by == point).len() > 0,
        forks.filter(|f: Fork| f.behind_by == point).len() > 0 ==> forks.filter(
            |f: Fork| f.behind_by == point,
        ).first().behind_by == point,
    decreases forks.len(),
{
    let keep = |f: Fork| f.behind_by == point;
    reveal(Seq::filter);
    if forks.len() > 0 {
        let front = forks.drop_last();
        lemma_point_has_forks(front, point);
        if exists|i: int| 0 <= i < forks.len() && (#[trigger] forks[i]).behind_by == point {
            let i = choose|i: int| 0 <= i < forks.len() && (#[trigger] forks[i]).behind_by == point;
            if i < front.len() {
                assert(front[i].behind_by == point);
            }
        }
        if forks.filter(keep).len() > 0 {
            if !keep(forks.last()) {
                let i = choose|i: int|
                    0 <= i < front.len() && (#[trigger] front[i]).behind_by == point;
                assert(forks[i].behind_by == point);
            } else {
                assert(forks[forks.len() - 1].behind_by == point);
            }
        }
    }
}

/// A point of some forks is a point of these with one more.
proof fn lemma_is_point_push(forks: Seq<Fork>, fork: Fork, point: u64)
    ensures
        is_point(forks.push(fork), point) <==> (is_point(forks, point) || point == fork.behind_by),
{
    let more = forks.push(fork);
    if is_point(forks, point) && point != 0 {
        let i = choose|i: int| 0 <= i < forks.len() && (#[trigger] forks[i]).behind_by == point;
        assert(more[i].behind_by == point);
    }
    if point == fork.behind_by {
        assert(more[forks.len() as int].behind_by == point);
    }
    if is_point(more, point) && point != 0 {
        let i = choose|i: int| 0 <= i < more.len() && (#[trigger] more[i]).behind_by == point;
        if i < forks.len() {
            assert(forks[i].behind_by == point);
        }
    }
}

/// The commit at a point stays what it is when a fork is added that agrees
/// with the others.
proof fn lemma_commit_at_push(forks: Seq<Fork>, fork: Fork, head_sha: Seq<char>, point: u64)
    requires
        commits_agree(forks.push(fork), head_sha),
    ensures
        is_point(forks, point) ==> commit_at(forks.push(fork), head_sha, point) == commit_at(
            forks,
            head_sha,
            point,
        ),
        point == fork.behind_by ==> commit_at(forks.push(fork), head_sha, point) == fork.sha@,
{
    let more = forks.push(fork);
    let keep = |f: Fork| f.behind_by == point;
    lemma_trees_at_push(forks, fork, point);
    lemma_point_has_forks(forks, point);
    lemma_point_has_forks(more, point);
    if point != 0 {
        if is_point(forks, point) {
            assert(forks.filter(keep).len() > 0);
            assert(more.filter(keep).first() == forks.filter(keep).first());
        }
        if point == fork.behind_by {
            let first = more.filter(keep).first();
            assert(more.filter(keep).contains(first));
            more.lemma_filter_contains_rev(keep, first);
            let i = choose|i: int| 0 <= i < more.len() && more[i] == first;
            assert(more[i].behind_by == more[forks.len() as int].behind_by);
        }
    } else if point == fork.behind_by {
        assert(more[forks.len() as int].behind_by == 0);
    }
}

/// Puts one more fork where it left the repository.
fn place_fork(
    points: &mut Vec<Point>,
    fork: Fork,
    Ghost(forks): Ghost<Seq<Fork>>,
    Ghost(head_sha): Ghost<Seq<char>>,
)
    requires
        holds(old(points)@, forks, head_sha),
        commits_agree(forks.push(fork), head_sha),
    ensures
        holds(final(points)@, forks.push(fork), head_sha),
        final(points)@.len() <= old(points)@.len() + 1,
{
    let ghost before = points@;
    let ghost more = forks.push(fork);
    let ghost key = fork.behind_by;
    proof {
        assert forall|q: u64| is_point(more, q) <==> (is_point(forks, q) || q == key) by {
            lemma_is_point_push(forks, fork, q);
        }
        assert forall|q: u64| is_point(forks, q) implies commit_at(more, head_sha, q)
            == commit_at(forks, head_sha, q) by {
            lemma_commit_at_push(forks, fork, head_sha, q);
        }
        lemma_commit_at_push(forks, fork, head_sha, key);
        assert forall|q: u64| q != key implies trees_at(more, q) == trees_at(forks, q) by {
            lemma_trees_at_push(forks, fork, q);
        }
        lemma_trees_at_push(forks, fork, key);
    }
    let Fork { behind_by, sha, tree } = fork;
    let mut i: usize = 0;
    while i < points.len() && points[i].behind_by < behind_by
        invariant
            points@ == before,
            i <= before.len(),
            forall|k: int| 0 <= k < i ==> (#[trigger] before[k]).behind_by < behind_by,
        decreases before.len() - i,
    {
        i = i + 1;
    }
    if i < points.len() && points[i].behind_by == behind_by {
        let ghost trees_before = forest_view(points@[i as int].trees@);
        points[i].trees.push(tree);
        proof {
            let after = points@;
            assert(forest_view(after[i as int].trees@) =~= trees_before.push(tree@));
            assert forall|k: int| 0 <= k < after.len() implies forest_view(
                (#[trigger] after[k]).trees@,
            ) == trees_at(more, after[k].behind_by) by {
                if k != i {
                    assert(after[k] == before[k]);
                    assert(before[k].behind_by != key) by {
                        if k < i {
                            assert(before[k].behind_by < before[i as int].behind_by);
                        } else {
                            assert(before[i as int].behind_by < before[k].behind_by);
                        }
                    }
                }
            }
            assert forall|k: int, j: int| 0 <= k < j < after.len() implies (
            #[trigger] after[k]).behind_by < (#[trigger] after[j]).behind_by by {
                assert(before[k].behind_by < before[j].behind_by);
            }
            assert forall|k: int| 0 <= k < after.len() implies is_point(
                more,
                (#[trigger] after[k]).behind_by,
            ) by {
                assert(is_point(forks, before[k].behind_by));
            }
            assert forall|q: u64| is_point(more, q) implies exists|k: int|
                0 <= k < after.len() && (#[trigger] after[k]).behind_by == q by {
                if q == key {
                    assert(after[i as int].behind_by == q);
                } else {
                    let k = choose|k: int|
                        0 <= k < before.len() && (#[trigger] before[k]).behind_by == q;
                    assert(after[k].behind_by == q);
                }
            }
            assert forall|k: int| 0 <= k < after.len() implies (#[trigger] after[k]).sha@
                == commit_at(more, head_sha, after[k].behind_by) by {
                assert(before[k].sha@ == commit_at(forks, head_sha, before[k].behind_by));
                assert(is_point(forks, before[k].behind_by));
            }
        }
    } else {
        let mut trees: Vec<TreeNode<VersionRef>> = Vec::new();
        trees.push(tree);
        assert(forest_view(trees@) =~= seq![tree@]);
        proof {
            if is_point(forks, key) {
                let k = choose|k: int|
                    0 <= k < before.len() && (#[trigger] before[k]).behind_by == key;
                if k < i {
                    assert(before[k].behind_by < behind_by);
                } else if i < before.len() {
                    assert(before[i as int].behind_by <= before[k].behind_by) by {
                        if (i as int) < k {
                            assert(before[i as int].behind_by < before[k].behind_by);
                        }
                    }
                }
            }
            assert(!is_point(forks, key));
            lemma_point_has_forks(forks, key);
            assert(trees_at(forks, key) =~= Seq::<Tree<VersionRef>>::empty());
            assert(trees_at(more, key) =~= seq![tree@]);
        }
        let point = Point { behind_by, sha, trees };
        points.insert(i, point);
        proof {
            let after = points@;
            assert(i > 0) by {
                assert(before[0].behind_by == 0);
            }
            assert forall|k: int| 0 <= k < after.len() implies {
                &&& is_point(more, (#[trigger] after[k]).behind_by)
                &&& after[k].sha@ == commit_at(more, head_sha, after[k].behind_by)
                &&& forest_view(after[k].trees@) == trees_at(more, after[k].behind_by)
            } by {
                if k < i {
                    assert(after[k] == before[k]);
                    assert(is_point(forks, before[k].behind_by));
                    assert(before[k].behind_by < key);
                } else if k > i {
                    assert(after[k] == before[k - 1]);
                    assert(is_point(forks, before[k - 1].behind_by));
                    assert(before[i as int].behind_by <= before[k - 1].behind_by) by {
                        if (i as int) < k - 1 {
                            assert(before[i as int].behind_by < before[k - 1].behind_by);
                        }
                    }
                }
            }
            assert forall|k: int, j: int| 0 <= k < j < after.len() implies (
            #[trigger] after[k]).behind_by < (#[trigger] after[j]).behind_by by {
                let a = if k < i {
                    k
                } else {
                    k - 1
                };
                let b = if j < i {
                    j
                } else {
                    j - 1
                };
                if k != i && j != i {
                    assert(before[a].behind_by < before[b].behind_by);
                } else if k == i {
                    assert(before[i as int].behind_by <= before[b].behind_by) by {
                        if (i as int) < b {
                            assert(before[i as int].behind_by < before[b].behind_by);
                        }
                    }
                } else {
                    assert(before[a].behind_by < key);
                }
            }
            assert forall|q: u64| is_point(more, q) implies exists|k: int|
                0 <= k < after.len() && (#[trigger] after[k]).behind_by == q by {
                if q == key {
                    assert(after[i as int].behind_by == q);
                } else {
                    let k = choose|k: int|
                        0 <= k < before.len() && (#[trigger] before[k]).behind_by == q;
                    if k < i {
                        assert(after[k].behind_by == q);
                    } else {
                        assert(after[k + 1].behind_by == q);
                    }
                }
            }
        }
    }
}

/// Forks that agree on their commits still agree when only the first of
/// them are looked at.
proof fn lemma_commits_agree_take(forks: Seq<Fork>, head_sha: Seq<char>, n: int)
    requires
        commits_agree(forks, head_sha),
        0 <= n <= forks.len(),
    ensures
        commits_agree(forks.take(n), head_sha),
{
    let first = forks.take(n);
    assert forall|i: int, j: int|
        0 <= i < first.len() && 0 <= j < first.len() && (#[trigger] first[i]).behind_by == (
        #[trigger] first[j]).behind_by implies first[i].sha@ == first[j].sha@ by {
        assert(forks[i].behind_by == forks[j].behind_by);
    }
    assert forall|i: int| 0 <= i < first.len() && (#[trigger] first[i]).behind_by
        == 0 implies first[i].sha@ == head_sha by {
        assert(forks[i].behind_by == 0);
    }
}

/// Assembles the tree of a repository and its forks. The repository is a
/// chain of versions, one for each point at which a fork left it, from the
/// farthest point down to the head; each version holds, after the next
/// version of the chain, the forks that left at its point. The versions are
/// numbered from 1 at the farthest point up to the head.
///
/// Forks that left at the same point must name the same commit, forks that
/// left at the head the head's commit; and the numbers must fit.
pub fn assemble_fork_tree(owner: &str, repo: &str, head_sha: String, forks: Vec<Fork>) -> (tree:
    TreeNode<VersionRef>)
    requires
        forks@.len() < 255,
        commits_agree(forks@, head_sha@),
    ensures
        exists|farthest: u64|
            #![trigger is_farthest(forks@, farthest)]
            is_farthest(forks@, farthest) && is_chain(
                tree@,
                forks@,
                owner@,
                repo@,
                head_sha@,
                farthest,
                1,
            ),
{
    let ghost all = forks@;
    let ghost head = head_sha@;
    let mut points: Vec<Point> = Vec::new();
    points.push(Point { behind_by: 0, sha: head_sha, trees: Vec::new() });
    proof {
        let none = all.take(0);
        assert(none =~= Seq::<Fork>::empty());
        lemma_point_has_forks(none, 0);
        assert(trees_at(none, 0) =~= Seq::<Tree<VersionRef>>::empty());
        assert(forest_view(points@[0].trees@) =~= Seq::<Tree<VersionRef>>::empty());
        assert forall|q: u64| is_point(none, q) implies q == 0 by {}
    }
    for fork in it: forks
        invariant
            all == it.seq(),
            commits_agree(all, head),
            holds(points@, all.take(it.index() as int), head),
            points@.len() <= it.index() + 1,
    {
        let ghost i = it.index() as int;
        proof {
            assert(all.take(i + 1) =~= all.take(i).push(fork));
            lemma_commits_agree_take(all, head, i + 1);
        }
        place_fork(&mut points, fork, Ghost(all.take(i)), Ghost(head));
    }
    assert(all.take(all.len() as int) =~= all);

    let ghost pts = points@;
    let count = points.len();
    let mut chain: Option<TreeNode<VersionRef>> = None;
    let mut placed: usize = 0;
    for point in it: points
        invariant
            pts == it.seq(),
            placed == it.index(),
            holds(pts, all, head),
            count == pts.len(),
            count <= 255,
            it.index() == 0 ==> chain is None,
            it.index() > 0 ==> chain is Some && is_chain(
                chain->0@,
                all,
                owner@,
                repo@,
                head,
                pts[it.index() - 1].behind_by,
                (count - it.index() + 1) as nat,
            ),
    {
        let ghost j = it.index() as int;
        let number = (count - placed) as u8;
        let Point { behind_by, sha, trees } = point;
        let mut trees = trees;
        let mut children: Vec<TreeNode<VersionRef>> = Vec::new();
        let ghost below = forest_view(trees@);
        assert(below == trees_at(all, behind_by)) by {
            assert(pts[j].trees == trees);
        }
        match chain {
            Some(nearer) => {
                children.push(nearer);
            },
            None => {},
        }
        let ghost head_of_chain = forest_view(children@);
        children.append(&mut trees);
        let node = TreeNode {
            value: VersionRef {
                owner: String::from_str(owner),
                repo: String::from_str(repo),
                commit: sha,
                is_head: behind_by == 0,
                version_no: number,
            },
            children,
        };
        proof {
            lemma_children_view(node);
            assert(node@.children =~= head_of_chain + below);
            assert(pts[j].sha == sha && pts[j].behind_by == behind_by);
            if j == 0 {
                assert(head_of_chain =~= Seq::<Tree<VersionRef>>::empty());
                assert(node@.children =~= below);
            } else {
                let nearer = pts[j - 1].behind_by;
                assert(pts[j - 1].behind_by < pts[j].behind_by);
                assert(pts[0].behind_by == 0);
                assert(behind_by != 0) by {
                    if j - 1 > 0 {
                        assert(pts[0].behind_by < pts[j - 1].behind_by);
                    }
                }
                assert(node@.children.skip(1) =~= below);
                assert forall|q: u64| is_point(all, q) && q < behind_by implies q <= nearer by {
                    let k = choose|k: int| 0 <= k < pts.len() && (#[trigger] pts[k]).behind_by == q;
                    if k > j {
                        assert(pts[j].behind_by < pts[k].behind_by);
                    }
                    if k < j - 1 {
                        assert(pts[k].behind_by < pts[j - 1].behind_by);
                    }
                }
                assert(is_next_nearer(all, behind_by, nearer));
            }
        }
        chain = Some(node);
        placed = placed + 1;
    }
    proof {
        let last = pts[count - 1].behind_by;
        assert forall|q: u64| is_point(all, q) implies q <= last by {
            let k = choose|k: int| 0 <= k < pts.len() && (#[trigger] pts[k]).behind_by == q;
            if k < count - 1 {
                assert(pts[k].behind_by < pts[count - 1].behind_by);
            }
        }
        assert(is_farthest(all, last));
    }
    chain.unwrap()
}

} // verus!
