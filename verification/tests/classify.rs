use show_changed_tests::classify::{classify, has_extension};
use show_changed_tests::{changes_in_tests, DiffLine, Version};

fn record(path: Option<&str>, content: &str, old: Option<u32>, new: Option<u32>) -> DiffLine {
    DiffLine {
        new_path: path.map(|p| p.to_string()),
        content: content.to_string(),
        old_lineno: old,
        new_lineno: new,
    }
}

#[test]
fn an_added_line_is_read_after_the_change() {
    let change = classify(&record(Some("a.feature"), "Given x\n", None, Some(7)), "feature")
        .unwrap();
    assert_eq!(change.line, 7);
    assert_eq!(change.version, Version::New);
    assert_eq!(change.path, "a.feature");
    assert_eq!(change.text, "Given x\n");
}

#[test]
fn a_line_of_both_sides_is_read_after_the_change() {
    let change = classify(&record(Some("a.feature"), "Given x\n", Some(3), Some(7)), "feature")
        .unwrap();
    assert_eq!(change.line, 7);
    assert_eq!(change.version, Version::New);
}

#[test]
fn a_removed_line_is_read_before_the_change() {
    let change = classify(&record(Some("a.feature"), "Given x\n", Some(3), None), "feature")
        .unwrap();
    assert_eq!(change.line, 3);
    assert_eq!(change.version, Version::Old);
}

#[test]
fn a_record_without_line_numbers_is_no_change() {
    assert!(classify(&record(Some("a.feature"), "@@ -1 +1 @@\n", None, None), "feature").is_none());
}

#[test]
fn a_record_without_path_is_no_change() {
    assert!(classify(&record(None, "Given x\n", None, Some(1)), "feature").is_none());
}

#[test]
fn blank_content_is_no_change() {
    assert!(classify(&record(Some("a.feature"), "", None, Some(1)), "feature").is_none());
    assert!(classify(&record(Some("a.feature"), "\n", None, Some(1)), "feature").is_none());
    assert!(classify(&record(Some("a.feature"), "  \t\r\n", Some(1), None), "feature").is_none());
    assert!(classify(&record(Some("a.feature"), "\u{a0}\u{3000}\n", None, Some(1)), "feature")
        .is_none());
}

#[test]
fn content_with_a_visible_character_is_a_change() {
    assert!(classify(&record(Some("a.feature"), "   #\n", None, Some(1)), "feature").is_some());
    assert!(classify(&record(Some("a.feature"), "\u{200b}\n", None, Some(1)), "feature").is_some());
}

#[test]
fn files_of_another_type_give_no_change_whatever_they_hold() {
    let records = vec![
        record(Some("README.md"), "@tc:1\n", None, Some(1)),
        record(Some("src/feature"), "Scenario: x\n", None, Some(2)),
        record(Some("feature.rs"), "Given x\n", Some(3), None),
        record(Some("a.feature.bak"), "Given x\n", Some(3), Some(3)),
        record(Some(".feature"), "Given x\n", None, Some(4)),
        record(Some("dir.feature/notes"), "Given x\n", None, Some(5)),
        record(Some("a.Feature"), "Given x\n", None, Some(6)),
        record(Some("a.features"), "Given x\n", None, Some(7)),
    ];
    assert!(changes_in_tests(&records, "feature").is_empty());
}

#[test]
fn changes_follow_the_order_of_the_records() {
    let records = vec![
        record(Some("b.feature"), "Then b\n", None, Some(9)),
        record(Some("notes.txt"), "text\n", None, Some(1)),
        record(Some("a.feature"), "Given a\n", Some(2), None),
        record(Some("a.feature"), "\n", None, Some(3)),
        record(Some("b.feature"), "Then b\n", None, Some(9)),
    ];
    let changes = changes_in_tests(&records, "feature");
    let lines: Vec<(&str, u32, Version)> = changes
        .iter()
        .map(|c| (c.path.as_str(), c.line, c.version))
        .collect();
    assert_eq!(
        lines,
        vec![
            ("b.feature", 9, Version::New),
            ("a.feature", 2, Version::Old),
            ("b.feature", 9, Version::New),
        ]
    );
}

#[test]
fn no_records_give_no_changes() {
    assert!(changes_in_tests(&Vec::new(), "feature").is_empty());
}

#[test]
fn the_extension_follows_the_last_dot_of_the_file_name() {
    assert!(has_extension("a.feature", "feature"));
    assert!(has_extension("dir/sub/a.feature", "feature"));
    assert!(has_extension("dir.d/a.b.feature", "feature"));
    assert!(has_extension(".hidden.feature", "feature"));
    assert!(has_extension("a.tar.gz", "gz"));
    assert!(!has_extension("a.tar.gz", "tar.gz"));
    assert!(!has_extension("a.feature", "eature"));
    assert!(!has_extension("a.feature", "a.feature"));
    assert!(has_extension("a.", ""));
    assert!(has_extension("...", ""));
}

#[test]
fn some_file_names_have_no_extension() {
    assert!(!has_extension("feature", "feature"));
    assert!(!has_extension(".feature", "feature"));
    assert!(!has_extension("dir/.feature", "feature"));
    assert!(!has_extension("a.feature/b", "feature"));
    assert!(!has_extension("", ""));
    assert!(!has_extension("a", ""));
    assert!(!has_extension("..", ""));
    assert!(!has_extension("dir/..", ""));
    assert!(!has_extension(".", ""));
}

#[test]
fn the_extension_agrees_with_the_standard_library_on_repository_paths() {
    for path in [
        "a.feature",
        "dir/a.feature",
        ".feature",
        "dir/.feature",
        "a.b.feature",
        "a.feature.bak",
        "feature",
        "dir.feature/a",
        "..",
        "...",
        "a.",
        "..feature",
    ] {
        let expected = std::path::Path::new(path)
            .extension()
            .is_some_and(|e| e == "feature");
        assert_eq!(has_extension(path, "feature"), expected, "{}", path);
    }
}
