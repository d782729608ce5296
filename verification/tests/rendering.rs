use std::path::PathBuf;

use version_history_inference::files::{FileData, FileMap};
use version_history_inference::git_generation::{build_instruction_trees, GitI};
use version_history_inference::rendering::{produce_diff_tree, produce_label_tree};
use version_history_inference::testing::forks::{
    gen_version_display_name, gen_version_name, has_one_slash, split_full_name, VersionRef,
};
use version_history_inference::text::decimal_string;
use version_history_inference::tree::TreeNode;
use version_history_inference::types::{DiffInfo, Version};

fn version(name: &str, files: &[(&str, &str)]) -> Version {
    let mut map = FileMap::new();
    for (path, content) in files {
        map.insert(path.to_string(), FileData { text_content: Some(content.to_string()) });
    }
    Version { name: name.to_string(), path: PathBuf::from("."), files: map }
}

fn info(name: &str, children: Vec<TreeNode<DiffInfo>>) -> TreeNode<DiffInfo> {
    TreeNode {
        value: DiffInfo { name: name.to_string(), added: 0, deleted: 0, modified: 0, divergence: 0 },
        children,
    }
}

fn shown(trees: &Vec<TreeNode<GitI>>) -> Vec<TreeNode<String>> {
    trees
        .iter()
        .map(|tree| {
            tree.map(&|i: &GitI| match i {
                GitI::CreateCommit(v) => format!("commit {v}"),
                GitI::CreateBranch(v, b) => format!("branch {b}: {v}"),
            })
        })
        .collect()
}

fn text(value: &str, children: Vec<TreeNode<String>>) -> TreeNode<String> {
    TreeNode { value: value.to_string(), children }
}

#[test]
fn a_label_holds_the_name_and_the_counts() {
    let tree = TreeNode {
        value: DiffInfo {
            name: "Empty".to_string(),
            added: 0,
            deleted: 0,
            modified: 0,
            divergence: 0,
        },
        children: vec![TreeNode {
            value: DiffInfo {
                name: "version_1".to_string(),
                added: 12,
                deleted: 3,
                modified: 105,
                divergence: 9999,
            },
            children: vec![],
        }],
    };
    let labels = produce_label_tree(&tree);
    assert_eq!(labels.value, "Empty - FILES: 0 A, 0 D, 0 M");
    assert_eq!(labels.children.len(), 1);
    assert_eq!(labels.children[0].value, "version_1 - FILES: 12 A, 3 D, 105 M");
    assert!(labels.children[0].children.is_empty());
}

#[test]
fn the_diff_tree_compares_each_snapshot_with_its_parent() {
    let tree = TreeNode {
        value: version("base", &[("a", "1\n"), ("b", "2\n")]),
        children: vec![
            TreeNode { value: version("more", &[("a", "1\n"), ("b", "2\n"), ("c", "3\n")]), children: vec![] },
            TreeNode {
                value: version("less", &[("a", "one\n")]),
                children: vec![TreeNode { value: version("none", &[]), children: vec![] }],
            },
        ],
    };
    let diffs = produce_diff_tree(&tree);

    assert_eq!(diffs.value.name, "base");
    assert!(diffs.value.no_changes());
    assert_eq!(diffs.value.divergence, 0);
    let more = &diffs.children[0].value;
    assert_eq!((more.name.as_str(), more.added, more.deleted, more.modified), ("more", 1, 0, 0));
    assert_eq!(more.divergence, 202);
    let less = &diffs.children[1].value;
    assert_eq!((less.name.as_str(), less.added, less.deleted, less.modified), ("less", 0, 1, 1));
    assert_eq!(less.divergence, 405 + 107);
    let none = &diffs.children[1].children[0].value;
    assert_eq!((none.name.as_str(), none.added, none.deleted, none.modified), ("none", 0, 1, 0));
    assert_eq!(none.divergence, 405);
    assert!(!none.no_changes());
}

#[test]
fn numbers_are_written_in_decimal() {
    assert_eq!(decimal_string(0), "0");
    assert_eq!(decimal_string(7), "7");
    assert_eq!(decimal_string(10), "10");
    assert_eq!(decimal_string(1234567890), "1234567890");
    assert_eq!(decimal_string(u128::MAX), u128::MAX.to_string());
}

#[test]
fn a_version_is_named_after_owner_repository_and_number() {
    let head = VersionRef {
        owner: "ocornut".to_string(),
        repo: "imgui".to_string(),
        commit: "abc123".to_string(),
        is_head: true,
        version_no: 1,
    };
    assert_eq!(gen_version_name(&head), "ocornut-imgui-HEAD-v1");
    assert_eq!(gen_version_display_name(&head), "ocornut/imgui - HEAD: v1");
    let old = VersionRef { is_head: false, version_no: 255, ..head.clone() };
    assert_eq!(gen_version_name(&old), "ocornut-imgui-OLD-v255");
    assert_eq!(gen_version_display_name(&old), "ocornut/imgui - OLD: v255");
}

#[test]
fn a_full_name_is_split_at_its_slash() {
    assert_eq!(split_full_name("ocornut/imgui"), ("ocornut", "imgui"));
    assert_eq!(split_full_name("/repo"), ("", "repo"));
    assert_eq!(split_full_name("owner/"), ("owner", ""));
    assert_eq!(split_full_name("/"), ("", ""));
    assert_eq!(split_full_name("ünï/cödé"), ("ünï", "cödé"));
}

#[test]
fn slashes_are_counted_before_a_name_is_split() {
    assert!(has_one_slash("ocornut/imgui"));
    assert!(has_one_slash("/"));
    assert!(!has_one_slash(""));
    assert!(!has_one_slash("ocornut"));
    assert!(!has_one_slash("a/b/c"));
    assert!(!has_one_slash("//"));
}

#[test]
fn a_tree_without_snapshots_needs_no_instructions() {
    assert!(build_instruction_trees(&info("Empty", vec![])).is_empty());
}

#[test]
fn a_chain_is_one_branch() {
    let tree = info("Empty", vec![info("v1", vec![info("v2", vec![info("v3", vec![])])])]);
    assert_eq!(
        shown(&build_instruction_trees(&tree)),
        vec![text(
            "branch v3: v1",
            vec![text("commit v2", vec![text("commit v3", vec![])])]
        )]
    );
}

#[test]
fn the_deepest_child_goes_on_and_the_others_branch_off() {
    let tree = info(
        "Empty",
        vec![info(
            "v1",
            vec![
                info("v2b", vec![]),
                info("v2a", vec![info("v3", vec![])]),
                info("v2c", vec![]),
                info("v2d", vec![info("v3d", vec![])]),
                info("v2e", vec![]),
            ],
        )],
    );
    // Of the two deepest children the last goes on; the last child takes
    // its place among the others.
    assert_eq!(
        shown(&build_instruction_trees(&tree)),
        vec![text(
            "branch v3d: v1",
            vec![
                text("commit v2d", vec![text("commit v3d", vec![])]),
                text("branch v2b: v2b", vec![]),
                text("branch v3: v2a", vec![text("commit v3", vec![])]),
                text("branch v2c: v2c", vec![]),
                text("branch v2e: v2e", vec![]),
            ]
        )]
    );
}

#[test]
fn every_child_of_the_root_starts_a_branch() {
    let tree = info("Empty", vec![info("a", vec![]), info("b", vec![info("c", vec![])])]);
    assert_eq!(
        shown(&build_instruction_trees(&tree)),
        vec![text("branch a: a", vec![]), text("branch c: b", vec![text("commit c", vec![])])]
    );
}
