use version_history_inference::testing::cloning::{commits_by_repository, Commit, RepoCommits};
use version_history_inference::testing::fork_points::{assemble_fork_tree, Fork};
use version_history_inference::testing::forks::VersionRef;
use version_history_inference::tree::TreeNode;

fn version(owner: &str, repo: &str, commit: &str, is_head: bool, no: u8) -> VersionRef {
    VersionRef {
        owner: owner.to_string(),
        repo: repo.to_string(),
        commit: commit.to_string(),
        is_head,
        version_no: no,
    }
}

fn fork_of(owner: &str, behind_by: u64, sha: &str) -> Fork {
    Fork {
        behind_by,
        sha: sha.to_string(),
        tree: TreeNode { value: version(owner, "repo", "tip", true, 1), children: vec![] },
    }
}

fn shape(tree: &TreeNode<VersionRef>) -> TreeNode<String> {
    tree.map(&|v: &VersionRef| {
        format!(
            "{}/{}@{} {} v{}",
            v.owner,
            v.repo,
            v.commit,
            if v.is_head { "HEAD" } else { "OLD" },
            v.version_no
        )
    })
}

fn text(value: &str, children: Vec<TreeNode<String>>) -> TreeNode<String> {
    TreeNode { value: value.to_string(), children }
}

fn leaf(value: &str) -> TreeNode<String> {
    text(value, vec![])
}

fn by_repo(groups: &[RepoCommits], repo: &str) -> Vec<(String, String)> {
    let group: Vec<&RepoCommits> = groups.iter().filter(|g| g.repo_full_name == repo).collect();
    assert_eq!(group.len(), 1);
    group[0].commits.iter().map(|c| (c.handle.clone(), c.name.clone())).collect()
}

#[test]
fn a_repository_without_forks_is_its_head() {
    let tree = assemble_fork_tree("me", "repo", "h".to_string(), vec![]);
    assert_eq!(shape(&tree), leaf("me/repo@h HEAD v1"));
}

#[test]
fn forks_at_the_head_hang_below_the_head() {
    let tree = assemble_fork_tree(
        "me",
        "repo",
        "h".to_string(),
        vec![fork_of("a", 0, "h"), fork_of("b", 0, "h")],
    );
    assert_eq!(
        shape(&tree),
        text("me/repo@h HEAD v1", vec![leaf("a/repo@tip HEAD v1"), leaf("b/repo@tip HEAD v1")])
    );
}

#[test]
fn fork_points_form_a_chain_from_the_farthest_to_the_head() {
    let tree = assemble_fork_tree(
        "me",
        "repo",
        "h".to_string(),
        vec![
            fork_of("a", 9, "s9"),
            fork_of("b", 0, "h"),
            fork_of("c", 5, "s5"),
            fork_of("d", 9, "s9"),
            fork_of("e", 5, "s5"),
            fork_of("f", 7, "s7"),
        ],
    );
    let expected = text(
        "me/repo@s9 OLD v1",
        vec![
            text(
                "me/repo@s7 OLD v2",
                vec![
                    text(
                        "me/repo@s5 OLD v3",
                        vec![
                            text("me/repo@h HEAD v4", vec![leaf("b/repo@tip HEAD v1")]),
                            leaf("c/repo@tip HEAD v1"),
                            leaf("e/repo@tip HEAD v1"),
                        ],
                    ),
                    leaf("f/repo@tip HEAD v1"),
                ],
            ),
            leaf("a/repo@tip HEAD v1"),
            leaf("d/repo@tip HEAD v1"),
        ],
    );
    let shown = shape(&tree);
    assert_eq!(shown, expected);
    // the next version of the chain stands first, the forks in their order
    assert_eq!(shown.children[0].value, "me/repo@s7 OLD v2");
    assert_eq!(shown.children[1].value, "a/repo@tip HEAD v1");
    assert_eq!(shown.children[2].value, "d/repo@tip HEAD v1");
}

#[test]
fn each_commit_is_listed_once_under_its_repository() {
    let tree = TreeNode {
        value: version("me", "repo", "s9", false, 1),
        children: vec![
            TreeNode {
                value: version("me", "repo", "h", true, 2),
                children: vec![TreeNode {
                    value: version("you", "repo", "y", true, 1),
                    children: vec![],
                }],
            },
            TreeNode { value: version("me", "repo", "s9", false, 1), children: vec![] },
            TreeNode { value: version("you", "other", "y", true, 1), children: vec![] },
            TreeNode { value: version("me", "repo", "s9", false, 3), children: vec![] },
        ],
    };
    let groups = commits_by_repository(&tree);

    assert_eq!(groups.len(), 3);
    assert_eq!(
        by_repo(&groups, "me/repo"),
        vec![
            ("s9".to_string(), "me-repo-OLD-v1".to_string()),
            ("h".to_string(), "me-repo-HEAD-v2".to_string()),
            ("s9".to_string(), "me-repo-OLD-v3".to_string()),
        ]
    );
    assert_eq!(by_repo(&groups, "you/repo"), vec![("y".to_string(), "you-repo-HEAD-v1".to_string())]);
    assert_eq!(
        by_repo(&groups, "you/other"),
        vec![("y".to_string(), "you-other-HEAD-v1".to_string())]
    );
    assert!(groups[0].commits[0] == Commit {
        handle: "s9".to_string(),
        name: "me-repo-OLD-v1".to_string()
    });
}
