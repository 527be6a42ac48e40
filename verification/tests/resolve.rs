use show_changed_tests::aggregate::aggregate;
use show_changed_tests::document::{Document, Scenario};
use show_changed_tests::resolve::{resolve, resolve_change};
use show_changed_tests::span::Span;
use show_changed_tests::{
    changed_test_numbers, Change, ChangedDocument, ExtractNumberError, Options, Version,
};

fn scenario(start: usize, end: usize, tags: &[&str]) -> Scenario {
    Scenario {
        span: Span { start, end },
        tags: tags.iter().map(|tag| tag.to_string()).collect(),
    }
}

fn document() -> Document {
    Document {
        background: Some(Span { start: 10, end: 50 }),
        scenarios: vec![
            scenario(60, 100, &["tc:333"]),
            scenario(100, 150, &["slow", "tc:111", "tc:999"]),
            scenario(150, 200, &["tc:222"]),
            scenario(200, 250, &["untracked"]),
        ],
    }
}

const TEXT: &str = "Feature: f

@tc:111
Scenario: a
  Given x

Scenario: b
  Given y
";

fn changed(line: u32, text: &str) -> ChangedDocument {
    ChangedDocument {
        change: Change {
            line,
            path: "a.feature".to_string(),
            version: Version::New,
            text: String::new(),
        },
        text: text.to_string(),
    }
}

#[test]
fn a_change_inside_a_scenario_gives_that_scenario_s_identifier() {
    assert_eq!(resolve(&document(), &(110..120), "tc:"), vec![111]);
    assert_eq!(resolve(&document(), &(60..70), "tc:"), vec![333]);
    assert_eq!(resolve(&document(), &(190..200), "tc:"), vec![222]);
}

#[test]
fn a_change_inside_a_scenario_without_identifier_gives_nothing() {
    assert_eq!(resolve(&document(), &(210..220), "tc:"), Vec::<u32>::new());
    assert_eq!(resolve(&document(), &(110..120), "id:"), Vec::<u32>::new());
}

#[test]
fn a_change_across_two_scenarios_belongs_to_the_first() {
    assert_eq!(resolve(&document(), &(90..110), "tc:"), vec![333]);
    assert_eq!(resolve(&document(), &(140..150), "tc:"), vec![111]);
}

#[test]
fn a_change_inside_the_background_gives_every_identifier() {
    assert_eq!(resolve(&document(), &(20..30), "tc:"), vec![333, 111, 222]);
    assert_eq!(aggregate(resolve(&document(), &(20..30), "tc:")), vec![111, 222, 333]);
}

#[test]
fn a_change_that_ends_in_a_scenario_is_no_change_of_the_background() {
    assert_eq!(resolve(&document(), &(40..60), "tc:"), vec![333]);
}

#[test]
fn a_change_outside_of_all_spans_gives_nothing() {
    assert_eq!(resolve(&document(), &(0..5), "tc:"), Vec::<u32>::new());
    assert_eq!(resolve(&document(), &(50..55), "tc:"), Vec::<u32>::new());
    assert_eq!(resolve(&document(), &(250..260), "tc:"), Vec::<u32>::new());
}

#[test]
fn a_change_around_a_span_gives_nothing() {
    let document = Document {
        background: None,
        scenarios: vec![scenario(20, 30, &["tc:1"])],
    };
    assert_eq!(resolve(&document, &(10..40), "tc:"), Vec::<u32>::new());
}

#[test]
fn a_document_without_background_has_nothing_to_fan_out() {
    let document = Document {
        background: None,
        scenarios: vec![scenario(20, 30, &["tc:1"])],
    };
    assert_eq!(resolve(&document, &(0..10), "tc:"), Vec::<u32>::new());
}

#[test]
fn a_changed_step_is_resolved_to_its_scenario() {
    assert_eq!(resolve_change(TEXT, 5, "tc:").unwrap(), Some(vec![111]));
    assert_eq!(resolve_change(TEXT, 4, "tc:").unwrap(), Some(vec![111]));
}

#[test]
fn a_changed_step_of_a_scenario_without_tag_gives_nothing() {
    assert_eq!(resolve_change(TEXT, 8, "tc:").unwrap(), Some(vec![]));
    assert_eq!(resolve_change(TEXT, 7, "tc:").unwrap(), Some(vec![]));
}

#[test]
fn a_changed_line_before_all_scenarios_gives_nothing() {
    assert_eq!(resolve_change(TEXT, 1, "tc:").unwrap(), Some(vec![]));
}

#[test]
fn another_prefix_finds_other_tags() {
    assert_eq!(resolve_change(TEXT, 5, "id:").unwrap(), Some(vec![]));
    let text = TEXT.replace("@tc:111", "@id:7 @tc:111");
    assert_eq!(resolve_change(&text, 5, "id:").unwrap(), Some(vec![7]));
    assert_eq!(resolve_change(&text, 5, "tc:").unwrap(), Some(vec![111]));
}

#[test]
fn a_text_that_is_no_feature_is_passed_over() {
    assert_eq!(resolve_change("this is no feature\n", 1, "tc:").unwrap(), None);
    assert_eq!(resolve_change("this is no feature\n", 99, "tc:").unwrap(), None);
    assert_eq!(resolve_change("", 0, "tc:").unwrap(), None);
}

#[test]
fn a_line_outside_of_the_document_is_an_error() {
    assert!(matches!(
        resolve_change(TEXT, 9, "tc:"),
        Err(ExtractNumberError::OutOfRange)
    ));
    assert!(matches!(
        resolve_change(TEXT, 0, "tc:"),
        Err(ExtractNumberError::OutOfRange)
    ));
}

#[test]
fn only_the_changed_scenario_with_a_tag_contributes() {
    let documents = vec![changed(5, TEXT)];
    let extraction = changed_test_numbers(&documents, &Options::default()).unwrap();
    assert_eq!(extraction.numbers, vec![111]);
    assert!(extraction.unparsed.is_empty());
}

#[test]
fn identifiers_of_many_changes_come_out_once_and_sorted() {
    let other = "Feature: g

Background:
  Given z

@tc:30 @tc:31
Scenario: c
  Given x

@tc:20
Scenario: d
  Given y
";
    let documents = vec![
        changed(11, other),
        changed(5, TEXT),
        changed(4, other),
        changed(8, TEXT),
        changed(5, TEXT),
    ];
    let extraction = changed_test_numbers(&documents, &Options::default()).unwrap();
    assert_eq!(extraction.numbers, vec![20, 30, 111]);
}

#[test]
fn unparsed_documents_are_reported_and_the_others_count() {
    let documents = vec![
        changed(1, "no feature"),
        changed(5, TEXT),
        changed(70, "no feature either"),
    ];
    let extraction = changed_test_numbers(&documents, &Options::default()).unwrap();
    assert_eq!(extraction.numbers, vec![111]);
    assert_eq!(extraction.unparsed, vec![0, 2]);
}

#[test]
fn a_line_outside_of_its_document_fails_the_extraction() {
    let documents = vec![changed(5, TEXT), changed(9, TEXT)];
    assert!(matches!(
        changed_test_numbers(&documents, &Options::default()),
        Err(ExtractNumberError::OutOfRange)
    ));
}

#[test]
fn no_changes_give_no_identifiers() {
    let extraction = changed_test_numbers(&Vec::new(), &Options::default()).unwrap();
    assert!(extraction.numbers.is_empty());
    assert!(extraction.unparsed.is_empty());
}

#[test]
fn the_configured_prefix_selects_the_tags() {
    let text = TEXT.replace("@tc:111", "@case-5");
    let options = Options {
        test_prefix: "case-".to_string(),
    };
    let extraction = changed_test_numbers(&vec![changed(5, &text)], &options).unwrap();
    assert_eq!(extraction.numbers, vec![5]);
}
