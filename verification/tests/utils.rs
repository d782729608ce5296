use std::path::PathBuf;

use version_history_inference::files::{FileData, FileMap};
use version_history_inference::types::Version;
use version_history_inference::utils::InferencePerformanceTracker;

fn version(name: &str, paths: &[&str]) -> Version {
    let mut map = FileMap::new();
    for path in paths {
        map.insert(path.to_string(), FileData { text_content: None });
    }
    Version { name: name.to_string(), path: PathBuf::from("."), files: map }
}

fn recorded(tracker: &InferencePerformanceTracker) -> Vec<(String, String)> {
    (0..tracker.len())
        .map(|i| {
            let (key, value) = tracker.entry(i);
            (key.clone(), value.clone())
        })
        .collect()
}

fn is_seconds(text: &str) -> bool {
    let (whole, decimals) = text.split_once('.').unwrap();
    !whole.is_empty()
        && whole.chars().all(|c| c.is_ascii_digit())
        && decimals.len() == 2
        && decimals.chars().all(|c| c.is_ascii_digit())
}

#[test]
fn a_new_tracker_has_recorded_nothing() {
    let tracker = InferencePerformanceTracker::new(PathBuf::from("some/where"));
    assert_eq!(tracker.len(), 0);
    assert_eq!(tracker.save_dir(), &PathBuf::from("some/where"));
    assert!(tracker.elapsed().as_secs() < 60);
}

#[test]
fn loading_records_the_size_of_the_input() {
    let mut tracker = InferencePerformanceTracker::new(PathBuf::from("."));
    let versions = vec![
        version("one", &["a", "b", "c"]),
        version("two", &["a", "b", "c", "d"]),
        version("three", &["a"]),
    ];
    tracker.done_loading(&versions);

    let trace = recorded(&tracker);
    assert_eq!(trace.len(), 3);
    assert_eq!(trace[0].0, "load_versions_rt");
    assert!(is_seconds(&trace[0].1));
    assert_eq!(trace[1], ("no_versions".to_string(), "3".to_string()));
    // eight files over three snapshots, rounded down
    assert_eq!(trace[2], ("avg_files_per_version".to_string(), "2".to_string()));
}

#[test]
fn every_stage_is_recorded_under_its_key() {
    let mut tracker = InferencePerformanceTracker::new(PathBuf::from("."));
    tracker.done_loading(&vec![version("one", &[])]);
    tracker.done_inferring();
    tracker.done_saving();
    tracker.done_all();

    let trace = recorded(&tracker);
    let keys: Vec<&str> = trace.iter().map(|(key, _)| key.as_str()).collect();
    assert_eq!(
        keys,
        vec![
            "load_versions_rt",
            "no_versions",
            "avg_files_per_version",
            "infer_rt",
            "saving_rt",
            "total_rt"
        ]
    );
    assert_eq!(trace[1].1, "1");
    assert_eq!(trace[2].1, "0");
    for key in [0, 3, 4, 5] {
        assert!(is_seconds(&trace[key].1));
    }
}

#[test]
fn a_key_is_recorded_once() {
    let mut tracker = InferencePerformanceTracker::new(PathBuf::from("."));
    tracker.done_inferring();
    tracker.done_saving();
    tracker.done_inferring();
    tracker.done_loading(&vec![version("one", &["a"]), version("two", &["b"])]);
    tracker.done_loading(&vec![version("one", &["a", "b", "c", "d", "e"])]);

    let trace = recorded(&tracker);
    let keys: Vec<&str> = trace.iter().map(|(key, _)| key.as_str()).collect();
    assert_eq!(
        keys,
        vec!["infer_rt", "saving_rt", "load_versions_rt", "no_versions", "avg_files_per_version"]
    );
    assert_eq!(trace[3].1, "1");
    assert_eq!(trace[4].1, "5");
}
