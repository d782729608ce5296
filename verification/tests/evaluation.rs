use version_history_inference::evaluation::ancestors::{
    compare_ancestor_sets, make_ancestor_sets, AncestorSets, Overlap,
};
use version_history_inference::evaluation::clusters::{
    convert_identical_clusters_to_siblings, gen_disjoint_set, gen_name_map, normalise_identical,
};
use version_history_inference::tree::TreeNode;
use version_history_inference::types::DiffInfo;

fn info(name: &str, changed: usize, children: Vec<TreeNode<DiffInfo>>) -> TreeNode<DiffInfo> {
    TreeNode {
        value: DiffInfo {
            name: name.to_string(),
            added: 0,
            deleted: 0,
            modified: changed,
            divergence: 100 * changed as u128,
        },
        children,
    }
}

fn node(value: &str, children: Vec<TreeNode<String>>) -> TreeNode<String> {
    TreeNode { value: value.to_string(), children }
}

fn leaf(value: &str) -> TreeNode<String> {
    node(value, vec![])
}

fn listed(sets: &AncestorSets) -> Vec<(String, Vec<String>)> {
    (0..sets.len())
        .map(|i| {
            let (name, ancestors) = sets.entry(i);
            (name.clone(), ancestors.clone())
        })
        .collect()
}

fn entry(name: &str, ancestors: &[&str]) -> (String, Vec<String>) {
    (name.to_string(), ancestors.iter().map(|a| a.to_string()).collect())
}

/// Empty, then a, then b, which does not differ from a, then c.
fn inferred_chain() -> TreeNode<DiffInfo> {
    info("Empty", 0, vec![info("a", 1, vec![info("b", 0, vec![info("c", 1, vec![])])])])
}

#[test]
fn names_are_numbered_in_the_order_of_the_tree() {
    let tree = info("Empty", 0, vec![info("a", 1, vec![info("b", 0, vec![])]), info("c", 2, vec![])]);
    let numbers = gen_name_map(&tree);
    assert_eq!(numbers.len(), 4);
    assert_eq!(numbers.get("Empty"), Some(&0));
    assert_eq!(numbers.get("a"), Some(&1));
    assert_eq!(numbers.get("b"), Some(&2));
    assert_eq!(numbers.get("c"), Some(&3));
    assert_eq!(numbers.get("d"), None);
}

#[test]
fn a_snapshot_stands_with_the_child_that_does_not_differ() {
    let tree = inferred_chain();
    let numbers = gen_name_map(&tree);
    let sets = gen_disjoint_set(&tree, &numbers).unwrap();
    assert_eq!(sets.len(), 4);
    assert!(sets.is_joined(1, 2));
    assert!(!sets.is_joined(0, 1));
    assert!(!sets.is_joined(2, 3));
    assert!(!sets.is_joined(1, 3));
}

#[test]
fn unchanged_snapshots_stand_together_along_a_chain() {
    let tree = info(
        "Empty",
        0,
        vec![info("a", 1, vec![info("b", 0, vec![info("c", 0, vec![])]), info("d", 0, vec![])])],
    );
    let numbers = gen_name_map(&tree);
    let sets = gen_disjoint_set(&tree, &numbers).unwrap();
    for (first, second) in [(1, 2), (1, 3), (1, 4), (2, 4), (3, 4)] {
        assert!(sets.is_joined(first, second));
    }
    assert!(!sets.is_joined(0, 1));
}

#[test]
fn a_name_without_a_number_gives_no_sets() {
    let tree = inferred_chain();
    let numbers = gen_name_map(&info("Empty", 0, vec![info("a", 1, vec![])]));
    assert!(gen_disjoint_set(&tree, &numbers).is_none());
}

#[test]
fn snapshots_that_stand_together_become_siblings() {
    let inferred = inferred_chain();
    let numbers = gen_name_map(&inferred);
    let sets = gen_disjoint_set(&inferred, &numbers).unwrap();

    let chain = node("Empty", vec![node("a", vec![node("b", vec![leaf("c")])])]);
    let converted = convert_identical_clusters_to_siblings(&chain, &numbers, &sets).unwrap();
    assert_eq!(converted.value, "Empty");
    assert_eq!(converted.children.len(), 2);
    assert_eq!(converted.children[0].value, "b");
    assert_eq!(converted.children[0].children[0].value, "c");
    assert_eq!(converted.children[1].value, "a");
    assert!(converted.children[1].children.is_empty());

    let other = node("Empty", vec![node("a", vec![leaf("b"), leaf("c")])]);
    let converted = convert_identical_clusters_to_siblings(&other, &numbers, &sets).unwrap();
    assert_eq!(converted, node("Empty", vec![leaf("b"), node("a", vec![leaf("c")])]));
}

#[test]
fn a_tree_is_not_converted_where_a_name_is_missing_or_the_root_moves() {
    let inferred = inferred_chain();
    let numbers = gen_name_map(&inferred);
    let sets = gen_disjoint_set(&inferred, &numbers).unwrap();

    let unknown = node("Empty", vec![leaf("a"), leaf("z")]);
    assert!(convert_identical_clusters_to_siblings(&unknown, &numbers, &sets).is_none());
    // b stands together with a, and would move up beside the root a
    let rooted_at_a = node("a", vec![leaf("b")]);
    assert!(convert_identical_clusters_to_siblings(&rooted_at_a, &numbers, &sets).is_none());
}

#[test]
fn both_trees_are_normalised_by_what_the_inferred_tree_holds_to_be_the_same() {
    let inferred = inferred_chain();
    let ground = node("Empty", vec![node("a", vec![leaf("b"), leaf("c")])]);
    let (new_ground, new_inferred) = normalise_identical(&ground, &inferred).unwrap();

    assert_eq!(new_ground, node("Empty", vec![leaf("b"), node("a", vec![leaf("c")])]));
    assert_eq!(new_inferred, node("Empty", vec![node("b", vec![leaf("c")]), leaf("a")]));

    let stranger = node("Empty", vec![leaf("zzz")]);
    assert!(normalise_identical(&stranger, &inferred).is_none());
}

#[test]
fn every_name_is_entered_with_the_names_above_it() {
    let tree = node("Empty", vec![node("a", vec![leaf("b"), node("c", vec![leaf("d")])]), leaf("e")]);
    let sets = make_ancestor_sets(&tree);
    assert_eq!(
        listed(&sets),
        vec![
            entry("Empty", &[]),
            entry("a", &["Empty"]),
            entry("b", &["Empty", "a"]),
            entry("c", &["Empty", "a"]),
            entry("d", &["Empty", "a", "c"]),
            entry("e", &["Empty"]),
        ]
    );
}

#[test]
fn a_name_that_comes_again_takes_the_place_of_its_entry() {
    let tree = node("r", vec![node("x", vec![leaf("y")]), node("q", vec![node("x", vec![leaf("x")])])]);
    let sets = make_ancestor_sets(&tree);
    assert_eq!(
        listed(&sets),
        vec![
            entry("r", &[]),
            entry("x", &["r", "q", "x"]),
            entry("y", &["r", "x"]),
            entry("q", &["r"]),
        ]
    );
}

#[test]
fn the_root_of_all_trees_is_taken_out() {
    let tree = node("Empty", vec![node("a", vec![leaf("b")]), leaf("c")]);
    let mut sets = make_ancestor_sets(&tree);
    sets.remove_empty();
    assert_eq!(listed(&sets), vec![entry("a", &[]), entry("b", &["a"]), entry("c", &[])]);
    sets.remove_empty();
    assert_eq!(sets.len(), 3);
}

#[test]
fn ancestors_are_put_side_by_side() {
    let mut ground = make_ancestor_sets(&node(
        "Empty",
        vec![leaf("b"), node("a", vec![node("c", vec![leaf("d")])])],
    ));
    let mut inferred = make_ancestor_sets(&node(
        "Empty",
        vec![node("b", vec![node("c", vec![node("a", vec![leaf("d")])])])],
    ));
    ground.remove_empty();
    inferred.remove_empty();

    let overlaps = compare_ancestor_sets(&ground, &inferred).unwrap();
    assert_eq!(
        overlaps,
        vec![
            // b: no ancestors in either tree
            Overlap { common: 0, ground: 0, inferred: 0 },
            // a: none in the true tree, b and c in the inferred one
            Overlap { common: 0, ground: 0, inferred: 2 },
            // c: a in the true tree, b in the inferred one
            Overlap { common: 0, ground: 1, inferred: 1 },
            // d: a and c in the true tree; b, c and a in the inferred one
            Overlap { common: 2, ground: 2, inferred: 3 },
        ]
    );
}

#[test]
fn a_name_that_the_inferred_tree_lacks_gives_no_comparison() {
    let ground = make_ancestor_sets(&node("Empty", vec![leaf("a"), leaf("b")]));
    let inferred = make_ancestor_sets(&node("Empty", vec![leaf("a")]));
    assert!(compare_ancestor_sets(&ground, &inferred).is_none());
    assert_eq!(compare_ancestor_sets(&inferred, &ground).unwrap().len(), 2);
}
