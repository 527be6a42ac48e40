use show_changed_tests::offsets::{calculate_line_spans, line_to_byte_offset};

#[test]
fn every_line_runs_up_to_and_including_its_newline() {
    assert_eq!(calculate_line_spans("ab\ncde\n"), vec![0..3, 3..7]);
}

#[test]
fn what_follows_the_last_newline_is_a_line() {
    assert_eq!(calculate_line_spans("ab\ncde"), vec![0..3, 3..6]);
    assert_eq!(calculate_line_spans("x"), vec![0..1]);
}

#[test]
fn the_empty_text_has_no_line() {
    assert_eq!(calculate_line_spans(""), Vec::<std::ops::Range<usize>>::new());
}

#[test]
fn empty_lines_hold_their_newline() {
    assert_eq!(calculate_line_spans("\n\na\n"), vec![0..1, 1..2, 2..4]);
}

#[test]
fn a_carriage_return_belongs_to_its_line() {
    assert_eq!(calculate_line_spans("a\r\nb\r\n"), vec![0..3, 3..6]);
}

#[test]
fn ranges_count_bytes() {
    // "é" takes two bytes, "日" three.
    assert_eq!(calculate_line_spans("é\n日本\nz"), vec![0..3, 3..10, 10..11]);
}

#[test]
fn the_ranges_cover_the_text_without_gap() {
    let text = "Feature: a\n\n  Scenario: b\n    Given c\n\n    Then d";
    let table = calculate_line_spans(text);
    assert_eq!(table.len(), 6);
    assert_eq!(table[0].start, 0);
    assert_eq!(table[table.len() - 1].end, text.len());
    for pair in table.windows(2) {
        assert_eq!(pair[0].end, pair[1].start);
    }
    for (range, line) in table.iter().zip(text.split_inclusive('\n')) {
        assert_eq!(&text[range.clone()], line);
    }
}

#[test]
fn lines_are_counted_from_one() {
    let table = calculate_line_spans("ab\ncde\nf");
    assert_eq!(line_to_byte_offset(table.clone(), 1), 0..3);
    assert_eq!(line_to_byte_offset(table.clone(), 2), 3..7);
    assert_eq!(line_to_byte_offset(table, 3), 7..8);
}
