//! Which commits of which repositories a tree of forks asks for.

use crate::testing::forks::{gen_version_name, version_name, VersionRef};
use crate::tree::{
    flatten, flatten_all, forest_view, lemma_children_view, Tree, TreeNode,
};
use vstd::prelude::*;
use vstd::string::StringExecFns;

verus! {

/// One commit to fetch: by which handle it is found, and under which name
/// it is stored.
#[derive(Debug, Hash, PartialEq, Eq)]
pub struct Commit {
    pub handle: String,
    pub name: String,
}

/// The model of a [`Commit`].
pub ghost struct CommitView {
    pub handle: Seq<char>,
    pub name: Seq<char>,
}

impl View for Commit {
    type V = CommitView;

    open spec fn view(&self) -> CommitView {
        CommitView { handle: self.handle@, name: self.name@ }
    }
}

/// The commits to fetch from one repository.
#[derive(Debug)]
pub struct RepoCommits {
    /// The full name of the repository, `owner/repo`.
    pub repo_full_name: String,
    /// The commits, each once.
    pub commits: Vec<Commit>,
}

/// The full name of the repository of a version.
pub open spec fn full_name_of(version: VersionRef) -> Seq<char> {
    version.owner@ + "/"@ + version.repo@
}

/// The commit that a version asks for.
pub open spec fn commit_of(version: VersionRef) -> CommitView {
    CommitView { handle: version.commit@, name: version_name(version) }
}

/// The groups list the commit under the repository.
pub open spec fn lists(groups: Seq<RepoCommits>, repo: Seq<char>, commit: CommitView) -> bool {
    exists|g: int, c: int|
        0 <= g < groups.len() && 0 <= c < groups[g].commits@.len() && groups[g].repo_full_name@
            == repo && #[trigger] groups[g].commits@[c]@ == commit
}

/// No repository has two groups, and no group lists a commit twice.
pub open spec fn tidy(groups: Seq<RepoCommits>) -> bool {
    &&& forall|g: int, h: int|
        0 <= g < groups.len() && 0 <= h < groups.len() && g != h ==> (
        #[trigger] groups[g]).repo_full_name@ != (#[trigger] groups[h]).repo_full_name@
    &&& forall|g: int, c: int, d: int|
        0 <= g < groups.len() && 0 <= c < groups[g].commits@.len() && 0 <= d
            < groups[g].commits@.len() && c != d ==> (#[trigger] groups[g].commits@[c])@ != (
        #[trigger] groups[g].commits@[d])@
}

/// Some version of the sequence asks for the commit from the repository.
pub open spec fn asks_for(versions: Seq<VersionRef>, repo: Seq<char>, commit: CommitView) -> bool {
    exists|i: int|
        0 <= i < versions.len() && full_name_of(#[trigger] versions[i]) == repo && commit_of(
            versions[i],
        ) == commit
}

/// Lists a commit under a repository, unless it is listed there already.
fn list_commit(groups: &mut Vec<RepoCommits>, repo: String, commit: Commit)
    requires
        tidy(old(groups)@),
    ensures
        tidy(final(groups)@),
        forall|r: Seq<char>, c: CommitView|
            #![trigger lists(final(groups)@, r, c)]
            lists(final(groups)@, r, c) <==> (lists(old(groups)@, r, c) || (r == repo@ && c
                == commit@)),
{
    let ghost before = groups@;
    let mut g: usize = 0;
    while g < groups.len()
        invariant
            groups@ == before,
            before == old(groups)@,
            tidy(before),
            g <= groups@.len(),
            forall|k: int| 0 <= k < g ==> (#[trigger] before[k]).repo_full_name@ != repo@,
        decreases groups@.len() - g,
    {
        if groups[g].repo_full_name == repo {
            let mut c: usize = 0;
            while c < groups[g].commits.len()
                invariant
                    groups@ == before,
                    before == old(groups)@,
                    tidy(before),
                    g < groups@.len(),
                    before[g as int].repo_full_name@ == repo@,
                    c <= before[g as int].commits@.len(),
                    forall|k: int| 0 <= k < c ==> (#[trigger] before[g as int].commits@[k])@
                        != commit@,
                decreases before[g as int].commits@.len() - c,
            {
                let listed = &groups[g].commits[c];
                if listed.handle == commit.handle && listed.name == commit.name {
                    assert(before[g as int].commits@[c as int]@ == commit@);
                    assert(lists(before, repo@, commit@));
                    return ;
                }
                c = c + 1;
            }
            groups[g].commits.push(commit);
            proof {
                let after = groups@;
                assert(after[g as int].commits@ == before[g as int].commits@.push(commit));
                assert forall|r: Seq<char>, x: CommitView| #![trigger lists(after, r, x)]
                    lists(after, r, x) <==> (lists(before, r, x) || (r == repo@ && x
                        == commit@)) by {
                    if lists(before, r, x) {
                        let (h, d) = choose|h: int, d: int|
                            0 <= h < before.len() && 0 <= d < before[h].commits@.len()
                                && before[h].repo_full_name@ == r
                                && #[trigger] before[h].commits@[d]@ == x;
                        assert(after[h].commits@[d]@ == x);
                    }
                    if r == repo@ && x == commit@ {
                        assert(after[g as int].commits@[c as int]@ == x);
                    }
                    if lists(after, r, x) {
                        let (h, d) = choose|h: int, d: int|
                            0 <= h < after.len() && 0 <= d < after[h].commits@.len()
                                && after[h].repo_full_name@ == r
                                && #[trigger] after[h].commits@[d]@ == x;
                        if h != g || d < c {
                            assert(before[h].commits@[d]@ == x);
                        }
                    }
                }
                assert(tidy(after)) by {
                    assert forall|h: int, k: int|
                        0 <= h < after.len() && 0 <= k < after.len() && h != k implies (
                    #[trigger] after[h]).repo_full_name@ != (#[trigger] after[k]).repo_full_name@ by {
                        assert(before[h].repo_full_name@ != before[k].repo_full_name@);
                    }
                    assert forall|h: int, x: int, y: int|
                        0 <= h < after.len() && 0 <= x < after[h].commits@.len() && 0 <= y
                            < after[h].commits@.len() && x != y implies (
                    #[trigger] after[h].commits@[x])@ != (#[trigger] after[h].commits@[y])@ by {
                        if h != g {
                            assert(before[h].commits@[x]@ != before[h].commits@[y]@);
                        } else if x < c && y < c {
                            assert(before[h].commits@[x]@ != before[h].commits@[y]@);
                        }
                    }
                }
            }
            return ;
        }
        g = g + 1;
    }
    let mut commits: Vec<Commit> = Vec::new();
    commits.push(commit);
    groups.push(RepoCommits { repo_full_name: repo, commits });
    proof {
        let after = groups@;
        let last = before.len() as int;
        assert forall|r: Seq<char>, x: CommitView| #![trigger lists(after, r, x)]
            lists(after, r, x) <==> (lists(before, r, x) || (r == repo@ && x == commit@)) by {
            if lists(before, r, x) {
                let (h, d) = choose|h: int, d: int|
                    0 <= h < before.len() && 0 <= d < before[h].commits@.len()
                        && before[h].repo_full_name@ == r && #[trigger] before[h].commits@[d]@ == x;
                assert(after[h].commits@[d]@ == x);
            }
            if r == repo@ && x == commit@ {
                assert(after[last].commits@[0]@ == x);
            }
            if lists(after, r, x) {
                let (h, d) = choose|h: int, d: int|
                    0 <= h < after.len() && 0 <= d < after[h].commits@.len()
                        && after[h].repo_full_name@ == r && #[trigger] after[h].commits@[d]@ == x;
                if h < last {
                    assert(before[h].commits@[d]@ == x);
                }
            }
        }
        assert(tidy(after)) by {
            assert forall|h: int, k: int|
                0 <= h < after.len() && 0 <= k < after.len() && h != k implies (
            #[trigger] after[h]).repo_full_name@ != (#[trigger] after[k]).repo_full_name@ by {
                if h < last && k < last {
                    assert(before[h].repo_full_name@ != before[k].repo_full_name@);
                } else if h < last {
                    assert(before[h].repo_full_name@ != repo@);
                } else {
                    assert(before[k].repo_full_name@ != repo@);
                }
            }
            assert forall|h: int, x: int, y: int|
                0 <= h < after.len() && 0 <= x < after[h].commits@.len() && 0 <= y
                    < after[h].commits@.len() && x != y implies (#[trigger] after[h].commits@[x])@
                != (#[trigger] after[h].commits@[y])@ by {
                if h < last {
                    assert(before[h].commits@[x]@ != before[h].commits@[y]@);
                }
            }
        }
    }
}

/// Lists what a tree of forks asks for, node by node.
fn list_tree(node: &TreeNode<VersionRef>, groups: &mut Vec<RepoCommits>)
    requires
        tidy(old(groups)@),
    ensures
        tidy(final(groups)@),
        forall|r: Seq<char>, c: CommitView|
            #![trigger lists(final(groups)@, r, c)]
            lists(final(groups)@, r, c) <==> (lists(old(groups)@, r, c) || asks_for(
                flatten(node@),
                r,
                c,
            )),
    decreases node,
{
    let ghost t = node@;
    let ghost before = groups@;
    proof {
        lemma_children_view(*node);
    }
    let mut repo = node.value.owner.clone();
    repo.append("/");
    repo.append(node.value.repo.as_str());
    let commit = Commit { handle: node.value.commit.clone(), name: gen_version_name(&node.value) };
    assert(repo@ == full_name_of(t.value) && commit@ == commit_of(t.value));
    list_commit(groups, repo, commit);
    let ghost first = groups@;
    proof {
        assert(t.children.take(0) =~= Seq::<Tree<VersionRef>>::empty());
        assert forall|r: Seq<char>, c: CommitView| !asks_for(
            flatten_all(t.children.take(0)),
            r,
            c,
        ) by {}
    }
    for i in 0..node.children.len()
        invariant
            t == node@,
            t.children == forest_view(node.children@),
            tidy(groups@),
            forall|r: Seq<char>, c: CommitView|
                #![trigger lists(groups@, r, c)]
                lists(groups@, r, c) <==> (lists(first, r, c) || asks_for(
                    flatten_all(t.children.take(i as int)),
                    r,
                    c,
                )),
    {
        let ghost so_far = groups@;
        let ghost child = t.children[i as int];
        proof {
            assert(child == node.children@[i as int]@);
        }
        list_tree(&node.children[i], groups);
        proof {
            let less = flatten_all(t.children.take(i as int));
            let more = flatten_all(t.children.take(i + 1));
            assert(t.children.take(i + 1).drop_last() =~= t.children.take(i as int));
            assert(t.children.take(i + 1).last() == child);
            assert(more == less + flatten(child));
            assert forall|r: Seq<char>, c: CommitView| lists(groups@, r, c) <==> (lists(
                first,
                r,
                c,
            ) || asks_for(more, r, c)) by {
                lemma_asks_for_concat(less, flatten(child), r, c);
                assert(lists(groups@, r, c) <==> (lists(so_far, r, c) || asks_for(
                    flatten(child),
                    r,
                    c,
                )));
                assert(lists(so_far, r, c) <==> (lists(first, r, c) || asks_for(less, r, c)));
            }
        }
    }
    proof {
        assert(t.children.take(t.children.len() as int) =~= t.children);
        assert forall|r: Seq<char>, c: CommitView| lists(groups@, r, c) <==> (lists(
            before,
            r,
            c,
        ) || asks_for(flatten(t), r, c)) by {
            assert(lists(groups@, r, c) <==> (lists(first, r, c) || asks_for(
                flatten_all(t.children),
                r,
                c,
            )));
            assert(lists(first, r, c) <==> (lists(before, r, c) || (r == full_name_of(t.value)
                && c == commit_of(t.value))));
            lemma_asks_for_concat(seq![t.value], flatten_all(t.children), r, c);
            if asks_for(seq![t.value], r, c) {
                let i = choose|i: int|
                    0 <= i < seq![t.value].len() && full_name_of(#[trigger] seq![t.value][i]) == r
                        && commit_of(seq![t.value][i]) == c;
                assert(seq![t.value][i] == t.value);
            }
            if r == full_name_of(t.value) && c == commit_of(t.value) {
                assert(seq![t.value][0] == t.value);
            }
        }
    }
}

/// What two sequences of versions ask for together is what one or the
/// other asks for.
pub proof fn lemma_asks_for_concat(
    first: Seq<VersionRef>,
    second: Seq<VersionRef>,
    repo: Seq<char>,
    commit: CommitView,
)
    ensures
        asks_for(first + second, repo, commit) <==> (asks_for(first, repo, commit) || asks_for(
            second,
            repo,
            commit,
        )),
{
    let both = first + second;
    if asks_for(both, repo, commit) {
        let i = choose|i: int|
            0 <= i < both.len() && full_name_of(#[trigger] both[i]) == repo && commit_of(both[i])
                == commit;
        if i < first.len() {
            assert(first[i] == both[i]);
        } else {
            assert(second[i - first.len()] == both[i]);
        }
    }
    if asks_for(first, repo, commit) {
        let i = choose|i: int|
            0 <= i < first.len() && full_name_of(#[trigger] first[i]) == repo && commit_of(
                first[i],
            ) == commit;
        assert(both[i] == first[i]);
    }
    if asks_for(second, repo, commit) {
        let i = choose|i: int|
            0 <= i < second.len() && full_name_of(#[trigger] second[i]) == repo && commit_of(
                second[i],
            ) == commit;
        assert(both[first.len() + i] == second[i]);
    }
}

/// Gathers the commits that a tree of forks asks for, repository by
/// repository: each repository once, with each of its commits once. A node
/// asks for its commit under the name that the version is stored by.
pub fn commits_by_repository(tree: &TreeNode<VersionRef>) -> (groups: Vec<RepoCommits>)
    ensures
        tidy(groups@),
        forall|repo: Seq<char>, commit: CommitView|
            #![trigger lists(groups@, repo, commit)]
            lists(groups@, repo, commit) <==> asks_for(flatten(tree@), repo, commit),
{
    let mut groups: Vec<RepoCommits> = Vec::new();
    list_tree(tree, &mut groups);
    groups
}

} // verus!
