use std::path::PathBuf;

use version_history_inference::files::{FileData, FileMap};
use version_history_inference::inference::diffing::{
    keep_real_changes, push_text_diff_changes, text_diff_versions,
};
use version_history_inference::types::{ChangeTag, TextChange, Version};

fn text(content: &str) -> FileData {
    FileData { text_content: Some(content.to_string()) }
}

fn version(name: &str, files: Vec<(&str, FileData)>) -> Version {
    let mut map = FileMap::new();
    for (path, data) in files {
        map.insert(path.to_string(), data);
    }
    Version { name: name.to_string(), path: PathBuf::from("."), files: map }
}

#[test]
fn test_push_text_diff_changes_add_one() {
    let mut changes: Vec<TextChange> = Vec::new();
    push_text_diff_changes("abc\n", "abc\n123\n", &mut changes);

    assert_eq!(changes.len(), 1);

    assert_eq!(changes[0].tag, ChangeTag::Insert);
    assert_eq!(changes[0].value, "123\n");
}

#[test]
fn test_push_text_diff_changes_delete_one() {
    let mut changes: Vec<TextChange> = Vec::new();
    push_text_diff_changes("abc\n123\n", "123\n", &mut changes);

    assert_eq!(changes.len(), 1);

    assert_eq!(changes[0].tag, ChangeTag::Delete);
    assert_eq!(changes[0].value, "abc\n");
}

#[test]
fn test_push_text_diff_changes_replace() {
    let mut changes: Vec<TextChange> = Vec::new();
    push_text_diff_changes("abc\n123\n", "abc\ndef\n", &mut changes);

    assert_eq!(changes.len(), 2);

    assert_eq!(changes[0].tag, ChangeTag::Delete);
    assert_eq!(changes[0].value, "123\n");

    assert_eq!(changes[1].tag, ChangeTag::Insert);
    assert_eq!(changes[1].value, "def\n");
}

#[test]
fn test_push_text_diff_changes_replace_two() {
    let mut changes: Vec<TextChange> = Vec::new();
    push_text_diff_changes(
        "abc\n123\nxyz\n456\nend\n",
        "abc\ndef\nxyz\nghi\nend\n",
        &mut changes,
    );

    assert_eq!(changes.len(), 4);

    assert_eq!(changes[0].tag, ChangeTag::Delete);
    assert_eq!(changes[0].value, "123\n");

    assert_eq!(changes[1].tag, ChangeTag::Insert);
    assert_eq!(changes[1].value, "def\n");

    assert_eq!(changes[2].tag, ChangeTag::Delete);
    assert_eq!(changes[2].value, "456\n");

    assert_eq!(changes[3].tag, ChangeTag::Insert);
    assert_eq!(changes[3].value, "ghi\n");
}

#[test]
fn test_text_diff_versions() {
    let old = version(
        "old",
        vec![("modified", text("ok_code\n")), ("deleted", text("bad_code\n"))],
    );
    let new = version(
        "new",
        vec![("modified", text("better_code\n")), ("added", text("good_code\n"))],
    );

    let diff = text_diff_versions(&old, &new);

    assert_eq!(diff.added_files.len(), 1);
    assert_eq!(diff.added_files[0].filename, "added");
    assert_eq!(diff.added_files[0].changes.len(), 1);

    assert_eq!(diff.deleted_files.len(), 1);
    assert_eq!(diff.deleted_files[0].filename, "deleted");
    assert_eq!(diff.deleted_files[0].changes.len(), 1);

    assert_eq!(diff.modified_files.len(), 1);
    assert_eq!(diff.modified_files[0].filename, "modified");
    assert_eq!(diff.modified_files[0].changes.len(), 2);
}

#[test]
fn diffing_test_push_text_diff_changes_add_one() {
    let mut changes: Vec<TextChange> = Vec::new();
    push_text_diff_changes("abc\n", "abc\n123\n", &mut changes);

    assert_eq!(changes.len(), 1);

    assert_eq!(changes[0].tag, ChangeTag::Insert);
    assert_eq!(changes[0].value, "123\n");
    assert_eq!(changes[0].old_index, None);
    assert_eq!(changes[0].new_index, Some(1));
}

#[test]
fn diffing_test_push_text_diff_changes_delete_one() {
    let mut changes: Vec<TextChange> = Vec::new();
    push_text_diff_changes("abc\n123\n", "123\n", &mut changes);

    assert_eq!(changes.len(), 1);

    assert_eq!(changes[0].tag, ChangeTag::Delete);
    assert_eq!(changes[0].value, "abc\n");
    assert_eq!(changes[0].old_index, Some(0));
    assert_eq!(changes[0].new_index, None);
}

#[test]
fn diffing_test_push_text_diff_changes_replace() {
    let mut changes: Vec<TextChange> = Vec::new();
    push_text_diff_changes("abc\n123\n", "abc\ndef\n", &mut changes);

    assert_eq!(changes.len(), 2);

    assert_eq!(changes[0].tag, ChangeTag::Delete);
    assert_eq!(changes[0].value, "123\n");
    assert_eq!(changes[0].old_index, Some(1));

    assert_eq!(changes[1].tag, ChangeTag::Insert);
    assert_eq!(changes[1].value, "def\n");
    assert_eq!(changes[1].new_index, Some(1));
}

#[test]
fn diffing_test_push_text_diff_changes_replace_two() {
    let mut changes: Vec<TextChange> = Vec::new();
    push_text_diff_changes(
        "abc\n123\nxyz\n456\nend\n",
        "abc\ndef\nxyz\nghi\nend\n",
        &mut changes,
    );

    assert_eq!(changes.len(), 4);

    assert_eq!(changes[0].tag, ChangeTag::Delete);
    assert_eq!(changes[0].value, "123\n");

    assert_eq!(changes[1].tag, ChangeTag::Insert);
    assert_eq!(changes[1].value, "def\n");

    assert_eq!(changes[2].tag, ChangeTag::Delete);
    assert_eq!(changes[2].value, "456\n");

    assert_eq!(changes[3].tag, ChangeTag::Insert);
    assert_eq!(changes[3].value, "ghi\n");

    let shown: Vec<String> = changes.iter().map(|c| c.to_string()).collect();
    assert_eq!(shown, vec!["- 123", "+ def", "- 456", "+ ghi"]);
}

#[test]
fn diffing_test_text_diff_versions() {
    let old = version(
        "old",
        vec![("modified", text("ok_code\n")), ("deleted", text("bad_code\n"))],
    );
    let new = version(
        "new",
        vec![("modified", text("better_code\n")), ("added", text("good_code\n"))],
    );

    let diff = text_diff_versions(&old, &new);

    assert_eq!(diff.added_files.len(), 1);
    assert_eq!(diff.added_files[0].filename, "added");

    assert_eq!(diff.deleted_files.len(), 1);
    assert_eq!(diff.deleted_files[0].filename, "deleted");

    assert_eq!(diff.modified_files.len(), 1);
    assert_eq!(diff.modified_files[0].filename, "modified");
    assert_eq!(diff.modified_files[0].changes[0].value, "ok_code\n");
    assert_eq!(diff.modified_files[0].changes[1].value, "better_code\n");

    // two lines came or went with the added and the deleted file
    let add_delete_changes: usize =
        diff.added_files.iter().chain(diff.deleted_files.iter()).map(|f| f.changes.len()).sum();
    assert_eq!(add_delete_changes, 2);
    // two lines changed in the modified file
    let modify_changes: usize = diff.modified_files.iter().map(|f| f.changes.len()).sum();
    assert_eq!(modify_changes, 2);
}

#[test]
fn changes_are_put_behind_what_the_buffer_holds() {
    let mut changes: Vec<TextChange> = vec![TextChange {
        tag: ChangeTag::Delete,
        old_index: Some(7),
        new_index: None,
        value: "kept\n".to_string(),
    }];
    push_text_diff_changes("abc\n", "abc\n123\n", &mut changes);

    assert_eq!(changes.len(), 2);
    assert_eq!(changes[0].value, "kept\n");
    assert_eq!(changes[0].old_index, Some(7));
    assert_eq!(changes[1].tag, ChangeTag::Insert);
    assert_eq!(changes[1].value, "123\n");
}

#[test]
fn the_diff_the_other_way_round_swaps_added_and_deleted() {
    let old = version(
        "old",
        vec![("modified", text("ok_code\n")), ("deleted", text("bad_code\n"))],
    );
    let new = version(
        "new",
        vec![("modified", text("better_code\n")), ("added", text("good_code\n"))],
    );

    let diff = text_diff_versions(&new, &old);

    assert_eq!(diff.added_files.len(), 1);
    assert_eq!(diff.added_files[0].filename, "deleted");
    assert_eq!(diff.deleted_files.len(), 1);
    assert_eq!(diff.deleted_files[0].filename, "added");
    assert_eq!(diff.modified_files.len(), 1);
    assert_eq!(diff.modified_files[0].changes[0].value, "better_code\n");
    assert_eq!(diff.modified_files[0].changes[1].value, "ok_code\n");
}

#[test]
fn empty_old_text_gives_only_insertions() {
    let mut changes: Vec<TextChange> = Vec::new();
    push_text_diff_changes("", "one\ntwo\nthree\n", &mut changes);

    assert_eq!(changes.len(), 3);
    for (i, change) in changes.iter().enumerate() {
        assert_eq!(change.tag, ChangeTag::Insert);
        assert_eq!(change.old_index, None);
        assert_eq!(change.new_index, Some(i));
    }
    assert_eq!(changes[2].value, "three\n");
}

#[test]
fn empty_new_text_gives_only_deletions() {
    let mut changes: Vec<TextChange> = Vec::new();
    push_text_diff_changes("one\ntwo\n", "", &mut changes);

    assert_eq!(changes.len(), 2);
    for (i, change) in changes.iter().enumerate() {
        assert_eq!(change.tag, ChangeTag::Delete);
        assert_eq!(change.old_index, Some(i));
        assert_eq!(change.new_index, None);
    }
}

#[test]
fn equal_texts_give_no_changes() {
    let mut changes: Vec<TextChange> = Vec::new();
    push_text_diff_changes("same\ntext\n", "same\ntext\n", &mut changes);
    assert!(changes.is_empty());
}

#[test]
fn the_same_texts_give_the_same_changes() {
    let old = "This\nis the\nfirst\nversion\n";
    let new = "This\nis\nthe\nsecond\nversion!\n";
    let mut first: Vec<TextChange> = Vec::new();
    let mut second: Vec<TextChange> = Vec::new();
    push_text_diff_changes(old, new, &mut first);
    push_text_diff_changes(old, new, &mut second);

    assert_eq!(first.len(), second.len());
    for (a, b) in first.iter().zip(second.iter()) {
        assert_eq!(a.tag, b.tag);
        assert_eq!(a.old_index, b.old_index);
        assert_eq!(a.new_index, b.new_index);
        assert_eq!(a.value, b.value);
    }
}

#[test]
fn changes_turn_the_old_text_into_the_new() {
    let old = "Now\nthis\nis\nthe\nthird\nversion!\n";
    let new = "Now\nthis\nis\nthe\nversion\nafter\nthe\nthird\n";
    let mut changes: Vec<TextChange> = Vec::new();
    push_text_diff_changes(old, new, &mut changes);

    let old_lines: Vec<&str> = old.split_inclusive('\n').collect();
    let deleted: Vec<usize> = changes
        .iter()
        .filter(|c| c.tag == ChangeTag::Delete)
        .map(|c| c.old_index.unwrap())
        .collect();
    let mut kept: Vec<String> = old_lines
        .iter()
        .enumerate()
        .filter(|(i, _)| !deleted.contains(i))
        .map(|(_, line)| line.to_string())
        .collect();
    for change in changes.iter().filter(|c| c.tag == ChangeTag::Insert) {
        kept.insert(change.new_index.unwrap(), change.value.clone());
    }
    assert_eq!(kept.concat(), new);
}

#[test]
fn keep_real_changes_drops_equal_lines() {
    let change = |tag, value: &str| TextChange {
        tag,
        old_index: None,
        new_index: None,
        value: value.to_string(),
    };
    let kept = keep_real_changes(vec![
        change(ChangeTag::Equal, "a\n"),
        change(ChangeTag::Delete, "b\n"),
        change(ChangeTag::Equal, "c\n"),
        change(ChangeTag::Insert, "d\n"),
    ]);
    assert_eq!(kept.len(), 2);
    assert_eq!(kept[0].value, "b\n");
    assert_eq!(kept[1].value, "d\n");
}

#[test]
fn a_change_is_shown_without_its_newline() {
    let change = |tag, value: &str| TextChange {
        tag,
        old_index: None,
        new_index: None,
        value: value.to_string(),
    };
    assert_eq!(change(ChangeTag::Insert, "line\n").to_string(), "+ line");
    assert_eq!(change(ChangeTag::Delete, "line").to_string(), "- line");
    assert_eq!(change(ChangeTag::Equal, "\n").to_string(), "= ");
    assert_eq!(change(ChangeTag::Equal, "").to_string(), "= ");
    assert_eq!(change(ChangeTag::Insert, "two\n\n").to_string(), "+ two\n");
}

#[test]
fn a_file_that_is_not_text_counts_as_empty() {
    let old = version(
        "old",
        vec![
            ("binary", FileData { text_content: None }),
            ("emptied", text("was here\n")),
            ("same", FileData { text_content: None }),
        ],
    );
    let new = version(
        "new",
        vec![
            ("binary", text("")),
            ("emptied", FileData { text_content: None }),
            ("same", FileData { text_content: None }),
        ],
    );

    let diff = text_diff_versions(&old, &new);

    assert!(diff.added_files.is_empty());
    assert!(diff.deleted_files.is_empty());
    assert_eq!(diff.modified_files.len(), 1);
    assert_eq!(diff.modified_files[0].filename, "emptied");
    assert_eq!(diff.modified_files[0].changes.len(), 1);
    assert_eq!(diff.modified_files[0].changes[0].tag, ChangeTag::Delete);
}

#[test]
fn every_path_goes_to_one_group_or_none() {
    let old = version(
        "old",
        vec![("a", text("1\n")), ("b", text("2\n")), ("c", text("3\n")), ("d", text("4\n"))],
    );
    let new = version(
        "new",
        vec![("b", text("2\n")), ("c", text("three\n")), ("e", text("5\n")), ("f", text("6\n"))],
    );

    let diff = text_diff_versions(&old, &new);

    let names = |files: &Vec<version_history_inference::types::FileChange>| -> Vec<String> {
        files.iter().map(|f| f.filename.clone()).collect()
    };
    assert_eq!(names(&diff.deleted_files), vec!["a", "d"]);
    assert_eq!(names(&diff.modified_files), vec!["c"]);
    assert_eq!(names(&diff.added_files), vec!["e", "f"]);
}

#[test]
fn a_file_map_keeps_each_path_once() {
    let mut map = FileMap::new();
    assert_eq!(map.len(), 0);
    map.insert("a".to_string(), text("first"));
    map.insert("b".to_string(), text("second"));
    map.insert("a".to_string(), text("third"));

    assert_eq!(map.len(), 2);
    assert_eq!(map.path_at(0), "a");
    assert_eq!(map.path_at(1), "b");
    assert_eq!(map.data_at(0).text_content.as_deref(), Some("third"));
    assert_eq!(map.get("b").unwrap().text_content.as_deref(), Some("second"));
    assert!(map.get("c").is_none());
}
