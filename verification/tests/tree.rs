use version_history_inference::tree::TreeNode;

fn node(value: &str, children: Vec<TreeNode<String>>) -> TreeNode<String> {
    TreeNode { value: value.to_owned(), children }
}

fn leaf(value: &str) -> TreeNode<String> {
    node(value, vec![])
}

fn sample() -> TreeNode<String> {
    node("r", vec![node("a", vec![leaf("x"), leaf("y")]), leaf("b"), node("a", vec![leaf("y")])])
}

#[test]
fn a_tree_equals_itself() {
    assert_eq!(sample(), sample());
    assert_eq!(leaf("alone"), leaf("alone"));
    assert!(sample() == sample().clone());
}

#[test]
fn equality_does_not_look_at_the_order_of_children() {
    let turned =
        node("r", vec![node("a", vec![leaf("y")]), node("a", vec![leaf("y"), leaf("x")]), leaf("b")]);
    assert_eq!(sample(), turned);
    assert_eq!(turned, sample());
}

#[test]
fn equality_counts_equal_children() {
    let twice_a = node("r", vec![leaf("a"), leaf("a"), leaf("b")]);
    let twice_b = node("r", vec![leaf("a"), leaf("b"), leaf("b")]);
    assert_ne!(twice_a, twice_b);
    assert_ne!(twice_b, twice_a);
    assert_eq!(twice_a, node("r", vec![leaf("a"), leaf("b"), leaf("a")]));
}

#[test]
fn trees_of_other_values_or_shapes_differ() {
    assert_ne!(leaf("a"), leaf("b"));
    assert_ne!(node("r", vec![leaf("a")]), node("r", vec![leaf("a"), leaf("a")]));
    assert_ne!(node("r", vec![leaf("a")]), node("r", vec![node("a", vec![leaf("a")])]));
    assert_ne!(
        node("r", vec![node("a", vec![leaf("x")]), node("b", vec![leaf("y")])]),
        node("r", vec![node("a", vec![leaf("y")]), node("b", vec![leaf("x")])])
    );
}

#[test]
fn equality_is_symmetric_and_transitive() {
    let first = node("r", vec![leaf("a"), node("b", vec![leaf("c"), leaf("d")]), leaf("e")]);
    let second = node("r", vec![leaf("e"), leaf("a"), node("b", vec![leaf("d"), leaf("c")])]);
    let third = node("r", vec![node("b", vec![leaf("c"), leaf("d")]), leaf("e"), leaf("a")]);
    assert!(first == second && second == first);
    assert!(second == third && third == second);
    assert!(first == third && third == first);
    let other = node("r", vec![node("b", vec![leaf("c")]), leaf("e"), leaf("a")]);
    assert!(first != other && other != first);
    assert!(second != other);
}

#[test]
fn a_later_child_is_not_held_back_by_an_earlier_match() {
    // The first child of the left tree finds its partner at the first place
    // of the right tree; the second must then find the other one.
    let left = node("r", vec![node("a", vec![leaf("x")]), node("a", vec![leaf("x")])]);
    let right = node("r", vec![node("a", vec![leaf("x")]), node("a", vec![leaf("z")])]);
    assert_ne!(left, right);
    assert_ne!(right, left);
}

#[test]
fn map_keeps_the_shape() {
    let lengths = sample().map(&|name: &String| name.len() + 1);
    assert_eq!(lengths.value, 2);
    assert_eq!(lengths.children.len(), 3);
    assert_eq!(lengths.children[0].children.len(), 2);
    assert_eq!(lengths.children[2].children[0].value, 2);
    let names = TreeNode { value: 1usize, children: vec![TreeNode { value: 2, children: vec![] }] }
        .map(&|n: &usize| format!("v{n}"));
    assert_eq!(names, node("v1", vec![leaf("v2")]));
}

#[test]
fn map_with_parent_sees_the_parent() {
    let paths = sample().map_with_parent(
        &|name: &String, parent: Option<&String>| match parent {
            Some(p) => format!("{p}/{name}"),
            None => format!("/{name}"),
        },
        None,
    );
    assert_eq!(
        paths,
        node(
            "/r",
            vec![
                node("r/a", vec![leaf("a/x"), leaf("a/y")]),
                leaf("r/b"),
                node("r/a", vec![leaf("a/y")])
            ]
        )
    );
    let below = leaf("child").map_with_parent(
        &|name: &String, parent: Option<&String>| format!("{:?} {name}", parent),
        Some(&"given".to_string()),
    );
    assert_eq!(below.value, "Some(\"given\") child");
}

#[test]
fn a_clone_is_a_tree_of_its_own() {
    let first = sample();
    let mut copy = first.clone();
    copy.children[0].value.push('!');
    assert_eq!(first.children[0].value, "a");
    assert_eq!(copy.children[0].value, "a!");
    assert_ne!(first, copy);
    assert_eq!(TreeNode::leaf(5).children.len(), 0);
}
