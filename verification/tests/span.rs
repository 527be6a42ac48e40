use show_changed_tests::span::Span;

#[test]
fn a_span_holds_its_start_and_not_its_end() {
    let span = Span { start: 10, end: 20 };
    assert!(span.contains(10));
    assert!(span.contains(19));
    assert!(!span.contains(20));
    assert!(!span.contains(9));
}

#[test]
fn an_empty_span_holds_nothing() {
    let span = Span { start: 10, end: 10 };
    assert!(!span.contains(10));
    assert!(!span.intersects(&(10..10)));
}

#[test]
fn a_range_inside_the_span_meets_it() {
    let span = Span { start: 10, end: 20 };
    assert!(span.intersects(&(12..15)));
    assert!(span.intersects(&(10..20)));
}

#[test]
fn a_range_with_one_end_inside_meets_the_span() {
    let span = Span { start: 10, end: 20 };
    assert!(span.intersects(&(5..10)));
    assert!(span.intersects(&(5..11)));
    assert!(span.intersects(&(19..30)));
}

#[test]
fn a_range_next_to_the_span_does_not_meet_it() {
    let span = Span { start: 10, end: 20 };
    assert!(!span.intersects(&(0..9)));
    assert!(!span.intersects(&(20..30)));
    assert!(!span.intersects(&(21..30)));
}

#[test]
fn a_range_around_the_span_does_not_meet_it() {
    let span = Span { start: 10, end: 20 };
    assert!(!span.intersects(&(5..25)));
    assert!(!span.intersects(&(9..20)));
}
