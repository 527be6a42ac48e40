use show_changed_tests::extend_message;
use show_changed_tests::message::{rewrites_message, same_text};

#[test]
fn the_trailer_goes_to_the_end_where_no_line_is_blank() {
    assert_eq!(
        extend_message("Fix the parser\n", "Tests: #1"),
        "Fix the parser\n\nTests: #1\n"
    );
}

#[test]
fn a_message_without_final_newline_gets_one() {
    assert_eq!(
        extend_message("Fix the parser", "Tests: #1"),
        "Fix the parser\n\nTests: #1\n"
    );
}

#[test]
fn the_trailer_goes_before_the_last_blank_line() {
    assert_eq!(
        extend_message("subject\n\nbody\n\n# comment\n", "Tests: #1"),
        "subject\n\nbody\n\nTests: #1\n\n# comment\n"
    );
}

#[test]
fn a_line_of_white_space_counts_as_blank() {
    assert_eq!(
        extend_message("subject\n \t \n# comment\n", "Tests: #1"),
        "subject\n\nTests: #1\n \t \n# comment\n"
    );
    assert_eq!(
        extend_message("subject\n\u{a0}\u{2003}\n# comment\n", "Tests: #1"),
        "subject\n\nTests: #1\n\u{a0}\u{2003}\n# comment\n"
    );
}

#[test]
fn a_line_with_other_characters_is_not_blank() {
    assert_eq!(
        extend_message("subject\n . \n# comment\n", "Tests: #1"),
        "subject\n . \n# comment\n\nTests: #1\n"
    );
}

#[test]
fn a_blank_last_line_takes_the_trailer_before_it() {
    assert_eq!(extend_message("subject\n\n", "Tests: #1"), "subject\n\nTests: #1\n\n");
}

#[test]
fn carriage_returns_before_newlines_are_dropped() {
    assert_eq!(
        extend_message("subject\r\n\r\n# comment\r\n", "Tests: #1"),
        "subject\n\nTests: #1\n\n# comment\n"
    );
}

#[test]
fn a_carriage_return_without_newline_stays() {
    assert_eq!(
        extend_message("subject\rmore\ntail\r", "Tests: #1"),
        "subject\rmore\ntail\r\n\nTests: #1\n"
    );
}

#[test]
fn a_trailer_of_several_lines_is_put_in_as_it_is() {
    assert_eq!(
        extend_message("subject\n\n# comment\n", "Tests: #1\nTests: #2"),
        "subject\n\nTests: #1\nTests: #2\n\n# comment\n"
    );
}

#[test]
fn the_message_is_rewritten_for_a_person_s_message_only() {
    assert!(rewrites_message(None));
    assert!(rewrites_message(Some("template")));
    assert!(rewrites_message(Some("message")));
    assert!(!rewrites_message(Some("merge")));
    assert!(!rewrites_message(Some("squash")));
    assert!(!rewrites_message(Some("commit")));
    assert!(!rewrites_message(Some("")));
    assert!(!rewrites_message(Some("Template")));
    assert!(!rewrites_message(Some("message ")));
}

#[test]
fn texts_are_the_same_when_their_characters_are() {
    assert!(same_text("", ""));
    assert!(same_text("a\u{e9}", "a\u{e9}"));
    assert!(!same_text("a", "b"));
    assert!(!same_text("a", "ab"));
}
