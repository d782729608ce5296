use std::path::PathBuf;

use version_history_inference::files::{FileData, FileMap};
use version_history_inference::inference::assembly::{
    assemble_version_tree, has_single_root, leads_to_roots, InferenceError,
};
use version_history_inference::inference::diffing::text_diff_versions;
use version_history_inference::inference::driver::{
    calculate_divergence_matrix, compare_versions, pairs_to_compare,
};
use version_history_inference::inference::edmonds::find_msa;
use version_history_inference::inference::engine::{
    calculate_divergences, count_tag, file_heuristic, infer_version_tree, names_are_distinct,
    Pair,
};
use version_history_inference::tree::TreeNode;
use version_history_inference::types::{
    ChangeTag, DiffInfo, DivCalcResult, FileChange, TextChange, TextualVersionDiff, Version,
};

fn version(name: &str, files: &[(&str, &str)]) -> Version {
    let mut map = FileMap::new();
    for (path, content) in files {
        map.insert(path.to_string(), FileData { text_content: Some(content.to_string()) });
    }
    Version { name: name.to_string(), path: PathBuf::from("."), files: map }
}

fn node(value: &str, children: Vec<TreeNode<String>>) -> TreeNode<String> {
    TreeNode { value: value.to_owned(), children }
}

fn lines(tag: ChangeTag, count: usize) -> Vec<TextChange> {
    (0..count)
        .map(|i| TextChange { tag, old_index: None, new_index: None, value: format!("{i}\n") })
        .collect()
}

fn file_change(name: &str, inserted: usize, deleted: usize) -> FileChange {
    let mut changes = lines(ChangeTag::Insert, inserted);
    changes.extend(lines(ChangeTag::Delete, deleted));
    FileChange { filename: name.to_string(), changes }
}

fn names_of(tree: &TreeNode<DiffInfo>) -> Vec<String> {
    let mut names = vec![tree.value.name.clone()];
    for child in &tree.children {
        names.extend(names_of(child));
    }
    names
}

fn handcrafted_1_versions() -> Vec<Version> {
    vec![
        version("version_1", &[("file_a.txt", "file_a\n"), ("file_b.txt", "file_b\n")]),
        version("version_2a", &[("file_a.txt", "file_a\nabc\n"), ("file_b.txt", "file_b\ndef\n")]),
        version("version_2b", &[("file_a.txt", "file_a\n123\n"), ("file_b.txt", "file_b\n456\n")]),
        version(
            "version_3",
            &[("file_a.txt", "file_a\nabc\nuvw\n"), ("file_b.txt", "file_b\ndef\nxyz\n")],
        ),
    ]
}

fn handcrafted_2_versions() -> Vec<Version> {
    vec![
        version("version_1", &[("file_a.txt", "This\nis the\nfirst\nversion\n")]),
        version("version_2", &[("file_a.txt", "This\nis\nthe\nsecond\nversion!\n")]),
        version("version_3", &[("file_a.txt", "Now\nthis\nis\nthe\nthird\nversion!\n")]),
        version(
            "version_4",
            &[("file_a.txt", "Now\nthis\nis\nthe\nversion\nafter\nthe\nthird\n")],
        ),
    ]
}

#[test]
fn handcrafted_1() {
    let version_tree = infer_version_tree(handcrafted_1_versions(), true).unwrap();
    let name_tree = version_tree.map(&|v: &DiffInfo| v.name.to_owned());

    let expected = node(
        "Empty",
        vec![node(
            "version_1",
            vec![
                node("version_2a", vec![node("version_3", vec![])]),
                node("version_2b", vec![]),
            ],
        )],
    );

    assert_eq!(name_tree, expected);
}

#[test]
fn handcrafted_2() {
    let version_tree = infer_version_tree(handcrafted_2_versions(), true).unwrap();
    let name_tree = version_tree.map(&|v: &DiffInfo| v.name.to_owned());

    let expected = node(
        "Empty",
        vec![node(
            "version_1",
            vec![node("version_2", vec![node("version_3", vec![node("version_4", vec![])])])],
        )],
    );

    assert_eq!(name_tree, expected);
}

#[test]
fn engine_handcrafted_1() {
    let version_tree = infer_version_tree(handcrafted_1_versions(), false).unwrap();
    let name_tree = version_tree.map(&|v: &DiffInfo| v.name.to_owned());

    let expected = node(
        "Empty",
        vec![node(
            "version_1",
            vec![
                node("version_2b", vec![]),
                node("version_2a", vec![node("version_3", vec![])]),
            ],
        )],
    );

    assert_eq!(name_tree, expected);

    assert_eq!(version_tree.value.added, 0);
    assert_eq!(version_tree.value.deleted, 0);
    assert_eq!(version_tree.value.modified, 0);
    assert_eq!(version_tree.value.divergence, 0);
    let first = &version_tree.children[0].value;
    assert_eq!((first.added, first.deleted, first.modified), (2, 0, 0));
    assert_eq!(first.divergence, 404);
    let second = &version_tree.children[0].children[0].value;
    assert_eq!(second.name, "version_2a");
    assert_eq!((second.added, second.deleted, second.modified), (0, 0, 2));
    assert_eq!(second.divergence, 204);
}

#[test]
fn engine_handcrafted_2() {
    let version_tree = infer_version_tree(handcrafted_2_versions(), false).unwrap();
    let name_tree = version_tree.map(&|v: &DiffInfo| v.name.to_owned());

    let expected = node(
        "Empty",
        vec![node(
            "version_1",
            vec![node("version_2", vec![node("version_3", vec![node("version_4", vec![])])])],
        )],
    );

    assert_eq!(name_tree, expected);
    assert_eq!(
        names_of(&version_tree),
        vec!["Empty", "version_1", "version_2", "version_3", "version_4"]
    );
}

#[test]
fn the_snapshots_may_come_in_any_order() {
    let mut versions = handcrafted_2_versions();
    versions.reverse();
    let version_tree = infer_version_tree(versions, true).unwrap();
    assert_eq!(
        names_of(&version_tree),
        vec!["Empty", "version_1", "version_2", "version_3", "version_4"]
    );
}

#[test]
fn one_snapshot_hangs_below_the_empty_one() {
    let versions = vec![version("only", &[("main", "text\n")])];
    let tree = infer_version_tree(versions, true).unwrap();

    assert_eq!(tree.value.name, "Empty");
    assert_eq!(tree.children.len(), 1);
    assert_eq!(tree.children[0].value.name, "only");
    assert!(tree.children[0].children.is_empty());
    assert_eq!(tree.children[0].value.added, 1);
    assert_eq!(tree.children[0].value.deleted, 0);
    assert_eq!(tree.children[0].value.modified, 0);
    assert_eq!(tree.children[0].value.divergence, 202);
}

#[test]
fn no_snapshot_gives_the_empty_one_alone() {
    let tree = infer_version_tree(Vec::new(), true).unwrap();
    assert_eq!(tree.value.name, "Empty");
    assert!(tree.children.is_empty());
    assert!(tree.value.no_changes());
    assert_eq!(tree.value.divergence, 0);
}

#[test]
fn two_identical_snapshots_form_a_chain() {
    let versions = vec![
        version("left", &[("a", "one\ntwo\n"), ("b", "three\n")]),
        version("right", &[("a", "one\ntwo\n"), ("b", "three\n")]),
    ];
    let tree = infer_version_tree(versions, true).unwrap();

    assert_eq!(tree.value.name, "Empty");
    assert_eq!(tree.children.len(), 1);
    let upper = &tree.children[0];
    assert_eq!(upper.children.len(), 1);
    let lower = &upper.children[0];
    assert!(lower.children.is_empty());
    let mut names = vec![upper.value.name.clone(), lower.value.name.clone()];
    names.sort();
    assert_eq!(names, vec!["left", "right"]);
    assert!(lower.value.no_changes());
    assert_eq!(lower.value.divergence, 0);
    assert_eq!(upper.value.added, 2);
}

#[test]
fn snapshots_of_different_sizes_do_not_all_hang_below_the_empty_one() {
    let big: String = (0..400).map(|i| format!("line {i}\n")).collect();
    let versions = vec![
        version("small", &[("a", "x\n")]),
        version("medium", &[("a", "x\n"), ("b", "y\n"), ("c", "z\n")]),
        version("large", &[("a", "x\n"), ("b", "y\n"), ("c", "z\n"), ("d", big.as_str())]),
    ];
    let tree = infer_version_tree(versions, false).unwrap();

    assert_eq!(names_of(&tree).len(), 4);
    assert!(tree.children.len() < 3);
    assert!(tree.children.iter().any(|child| !child.children.is_empty()));
}

#[test]
fn the_tree_holds_every_name_once() {
    let tree = infer_version_tree(handcrafted_1_versions(), true).unwrap();
    let mut names = names_of(&tree);
    names.sort();
    assert_eq!(names, vec!["Empty", "version_1", "version_2a", "version_2b", "version_3"]);
}

#[test]
fn inference_twice_gives_the_same_tree() {
    let first = infer_version_tree(handcrafted_1_versions(), true).unwrap();
    let second = infer_version_tree(handcrafted_1_versions(), false).unwrap();
    let names = |tree: &TreeNode<DiffInfo>| tree.map(&|v: &DiffInfo| v.name.to_owned());
    assert_eq!(names(&first), names(&second));
}

#[test]
fn equal_names_are_refused() {
    let versions = vec![
        version("twin", &[("a", "1\n")]),
        version("other", &[("a", "2\n")]),
        version("twin", &[("a", "3\n")]),
    ];
    assert!(!names_are_distinct(&versions));
    assert_eq!(infer_version_tree(versions, true).unwrap_err(), InferenceError::DuplicateName);
}

#[test]
fn the_name_of_the_empty_snapshot_is_refused() {
    let versions = vec![version("Empty", &[("a", "1\n")])];
    assert!(!names_are_distinct(&versions));
    assert_eq!(infer_version_tree(versions, false).unwrap_err(), InferenceError::DuplicateName);
    assert!(names_are_distinct(&vec![version("empty", &[]), version("Empty ", &[])]));
}

#[test]
fn an_added_file_costs_less_than_a_deleted_one() {
    let diff = TextualVersionDiff {
        added_files: vec![file_change("new", 3, 0)],
        deleted_files: vec![],
        modified_files: vec![],
    };
    let (forward, backward) = calculate_divergences(&diff);

    assert_eq!(forward, DivCalcResult { added: 1, deleted: 0, modified: 0, divergence: 206 });
    assert_eq!(backward, DivCalcResult { added: 0, deleted: 1, modified: 0, divergence: 415 });
}

#[test]
fn every_group_is_charged_at_its_price() {
    let diff = TextualVersionDiff {
        added_files: vec![file_change("a1", 1, 0), file_change("a2", 2, 0)],
        deleted_files: vec![file_change("d", 0, 4)],
        modified_files: vec![file_change("m1", 1, 1), file_change("m2", 0, 0), file_change("m3", 3, 2)],
    };
    let (forward, backward) = calculate_divergences(&diff);

    // files: 2 * 200 + 400 + 3 * 100; lines: 7 inserted at 2, 7 deleted at 5
    assert_eq!(forward.divergence, 400 + 400 + 300 + 7 * 2 + 7 * 5);
    // files: 2 * 400 + 200 + 3 * 100; lines: 7 inserted at 5, 7 deleted at 2
    assert_eq!(backward.divergence, 800 + 200 + 300 + 7 * 5 + 7 * 2);
    assert_eq!((forward.added, forward.deleted, forward.modified), (2, 1, 3));
    assert_eq!((backward.added, backward.deleted, backward.modified), (1, 2, 3));
}

#[test]
fn forward_and_backward_mirror_each_other() {
    let old = version("old", &[("kept", "a\nb\n"), ("gone", "c\n"), ("gone too", "d\n")]);
    let new = version("new", &[("kept", "a\nB\n"), ("came", "e\n")]);
    let (forward, backward) = compare_versions(&old, &new);

    assert_eq!(forward.added, backward.deleted);
    assert_eq!(forward.deleted, backward.added);
    assert_eq!(forward.modified, backward.modified);
    assert_eq!((forward.added, forward.deleted, forward.modified), (1, 2, 1));
    assert_eq!(forward.divergence, 200 + 2 + 2 * (400 + 5) + 100 + 2 + 5);
    assert_eq!(backward.divergence, 400 + 5 + 2 * (200 + 2) + 100 + 5 + 2);
}

#[test]
fn an_empty_diff_costs_nothing() {
    let diff = TextualVersionDiff {
        added_files: vec![],
        deleted_files: vec![],
        modified_files: vec![],
    };
    let (forward, backward) = calculate_divergences(&diff);
    assert_eq!(forward, DivCalcResult::new());
    assert_eq!(backward, DivCalcResult::new());
}

#[test]
fn snapshots_of_the_same_content_do_not_diverge() {
    let left = version("left", &[("a", "one\n"), ("b", "two\n")]);
    let right = version("right", &[("b", "two\n"), ("a", "one\n")]);
    let (forward, backward) = compare_versions(&left, &right);
    assert_eq!(forward.divergence, 0);
    assert_eq!(backward.divergence, 0);
    assert_eq!(forward, DivCalcResult::new());
}

#[test]
fn scoring_twice_gives_the_same_results() {
    let old = version("old", &[("kept", "a\nb\n"), ("gone", "c\n")]);
    let new = version("new", &[("kept", "a\nB\n"), ("came", "e\n")]);
    let diff = text_diff_versions(&old, &new);
    assert_eq!(calculate_divergences(&diff), calculate_divergences(&diff));
}

#[test]
fn the_lines_of_a_file_are_charged_up_to_the_cap() {
    let capped = file_heuristic(&file_change("rewritten", 120, 130));
    assert_eq!(capped, Pair(50 * 2 + 50 * 5, 50 * 5 + 50 * 2));
    let at_cap = file_heuristic(&file_change("at the cap", 50, 50));
    assert_eq!(capped, at_cap);
    let below = file_heuristic(&file_change("below", 49, 3));
    assert_eq!(below, Pair(49 * 2 + 3 * 5, 49 * 5 + 3 * 2));

    let diff = TextualVersionDiff {
        added_files: vec![],
        deleted_files: vec![],
        modified_files: vec![file_change("rewritten", 120, 130)],
    };
    let (forward, backward) = calculate_divergences(&diff);
    assert_eq!(forward.divergence, 100 + 350);
    assert_eq!(backward.divergence, 100 + 350);
}

#[test]
fn tags_are_counted_one_by_one() {
    let mut changes = lines(ChangeTag::Insert, 3);
    changes.extend(lines(ChangeTag::Delete, 2));
    changes.extend(lines(ChangeTag::Insert, 1));
    assert_eq!(count_tag(&changes, ChangeTag::Insert), 4);
    assert_eq!(count_tag(&changes, ChangeTag::Delete), 2);
    assert_eq!(count_tag(&changes, ChangeTag::Equal), 0);
    assert_eq!(count_tag(&Vec::new(), ChangeTag::Insert), 0);
}

#[test]
fn pairs_add_up_side_by_side() {
    let mut pair = Pair(1, 2);
    pair.accumulate(Pair(10, 20));
    assert_eq!(pair, Pair(11, 22));
}

#[test]
fn each_snapshot_is_paired_with_each_earlier_one() {
    assert_eq!(pairs_to_compare(0), vec![]);
    assert_eq!(pairs_to_compare(1), vec![]);
    assert_eq!(pairs_to_compare(2), vec![(0, 1)]);
    assert_eq!(pairs_to_compare(4), vec![(0, 1), (0, 2), (1, 2), (0, 3), (1, 3), (2, 3)]);
    assert_eq!(pairs_to_compare(10).len(), 45);
}

#[test]
fn the_matrix_holds_both_ways_of_every_pair() {
    let versions = vec![
        version("Empty", &[]),
        version("one", &[("a", "1\n")]),
        version("two", &[("a", "1\n2\n"), ("b", "3\n")]),
    ];
    let matrix = calculate_divergence_matrix(&versions, false);

    assert_eq!(matrix.len(), 3);
    for (i, row) in matrix.iter().enumerate() {
        assert_eq!(row.len(), 3);
        assert_eq!(row[i], DivCalcResult::new());
        for (j, cell) in row.iter().enumerate() {
            assert_eq!(cell.added, matrix[j][i].deleted);
            assert_eq!(cell.deleted, matrix[j][i].added);
            assert_eq!(cell.modified, matrix[j][i].modified);
        }
    }
    assert_eq!(matrix[0][1], DivCalcResult { added: 1, deleted: 0, modified: 0, divergence: 202 });
    assert_eq!(matrix[1][0], DivCalcResult { added: 0, deleted: 1, modified: 0, divergence: 405 });
    assert_eq!(matrix[0][2], DivCalcResult { added: 2, deleted: 0, modified: 0, divergence: 406 });
    assert_eq!(matrix[1][2], DivCalcResult { added: 1, deleted: 0, modified: 1, divergence: 304 });
    assert_eq!(matrix[2][1], DivCalcResult { added: 0, deleted: 1, modified: 1, divergence: 510 });
}

#[test]
fn comparing_on_several_threads_gives_the_same_matrix() {
    let mut versions = vec![version("Empty", &[])];
    versions.extend(handcrafted_1_versions());
    versions.extend(handcrafted_2_versions().into_iter().map(|mut v| {
        v.name = format!("other {}", v.name);
        v
    }));
    let in_turn = calculate_divergence_matrix(&versions, false);
    let in_parallel = calculate_divergence_matrix(&versions, true);
    assert_eq!(in_turn, in_parallel);
    assert_eq!(in_parallel[1][2], compare_versions(&versions[1], &versions[2]).0);
    assert_eq!(in_parallel[5][3], compare_versions(&versions[3], &versions[5]).1);
}

fn tree_from(parents: Vec<Option<usize>>) -> Result<TreeNode<DiffInfo>, InferenceError> {
    let versions = vec![
        version("Empty", &[]),
        version("one", &[("a", "1\n")]),
        version("two", &[("a", "1\n2\n")]),
    ];
    let results = calculate_divergence_matrix(&versions, false);
    assemble_version_tree(&versions, &results, &parents)
}

#[test]
fn the_tree_follows_the_parents() {
    let tree = tree_from(vec![None, Some(0), Some(1)]).unwrap();
    assert_eq!(names_of(&tree), vec!["Empty", "one", "two"]);
    assert_eq!(tree.children.len(), 1);
    assert_eq!(tree.children[0].children.len(), 1);
    assert_eq!(tree.children[0].children[0].value.modified, 1);
    assert_eq!(tree.children[0].children[0].value.divergence, 102);

    let flat = tree_from(vec![None, Some(0), Some(0)]).unwrap();
    assert_eq!(flat.children.len(), 2);
    assert_eq!(flat.children[1].value.name, "two");
    assert_eq!(flat.children[1].value.added, 1);
    assert_eq!(flat.children[1].value.divergence, 204);

    let turned = tree_from(vec![None, Some(2), Some(0)]).unwrap();
    assert_eq!(names_of(&turned), vec!["Empty", "two", "one"]);
    assert_eq!(turned.children[0].children[0].value.divergence, 105);
}

#[test]
fn parents_without_a_single_root_are_refused() {
    assert_eq!(tree_from(vec![None, None, Some(0)]).unwrap_err(), InferenceError::MSANotTree);
    assert_eq!(tree_from(vec![Some(1), Some(2), Some(0)]).unwrap_err(), InferenceError::MSANotTree);
    assert_eq!(tree_from(vec![Some(1), None, Some(1)]).unwrap_err(), InferenceError::MSANotTree);
}

#[test]
fn parents_that_leave_a_snapshot_out_are_refused() {
    assert_eq!(tree_from(vec![None, Some(2), Some(1)]).unwrap_err(), InferenceError::ForestAssembly);
    assert_eq!(tree_from(vec![None, Some(1), Some(0)]).unwrap_err(), InferenceError::ForestAssembly);
    assert_eq!(tree_from(vec![None, Some(0), Some(7)]).unwrap_err(), InferenceError::ForestAssembly);
    assert_eq!(tree_from(vec![None, Some(0)]).unwrap_err(), InferenceError::ForestAssembly);
    assert_eq!(
        tree_from(vec![None, Some(0), Some(0), Some(0)]).unwrap_err(),
        InferenceError::ForestAssembly
    );
}

#[test]
fn no_snapshot_at_all_is_refused() {
    let versions: Vec<Version> = Vec::new();
    let results: Vec<Vec<DivCalcResult>> = Vec::new();
    assert_eq!(
        assemble_version_tree(&versions, &results, &vec![]).unwrap_err(),
        InferenceError::EmptyInput
    );
    assert_eq!(
        assemble_version_tree(&versions, &results, &vec![None]).unwrap_err(),
        InferenceError::EmptyInput
    );
}

#[test]
fn roots_and_forests_are_told_apart() {
    assert!(has_single_root(&vec![None, Some(0), Some(1)], 0));
    assert!(!has_single_root(&vec![None, Some(0), Some(1)], 1));
    assert!(!has_single_root(&vec![None, Some(0), None], 0));
    assert!(!has_single_root(&vec![Some(0)], 0));
    assert!(!has_single_root(&vec![], 0));
    assert!(has_single_root(&vec![Some(1), None], 1));

    assert!(leads_to_roots(&vec![]));
    assert!(leads_to_roots(&vec![None, None, Some(1)]));
    assert!(leads_to_roots(&vec![Some(1), Some(2), Some(3), None]));
    assert!(!leads_to_roots(&vec![Some(0)]));
    assert!(!leads_to_roots(&vec![None, Some(2), Some(1)]));
    assert!(!leads_to_roots(&vec![None, Some(5)]));
}

#[test]
fn the_solver_roots_its_answer_at_the_root() {
    let scores = vec![
        vec![0, 202, 406, 800],
        vec![405, 0, 304, 700],
        vec![810, 510, 0, 300],
        vec![900, 905, 410, 0],
    ];
    for root in 0..4 {
        let parents = find_msa(&scores, root);
        assert_eq!(parents.len(), 4);
        assert!(has_single_root(&parents, root));
        assert!(leads_to_roots(&parents));
    }
}
