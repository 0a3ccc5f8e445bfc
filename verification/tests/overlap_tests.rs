use puzzles::overlap::count;
use puzzles::overlap::is_fully_overlapping;
use puzzles::overlap::is_partially_overlapping;
use puzzles::overlap::parse_line;
use puzzles::overlap::OverlapKind;
use puzzles::overlap::Span;
use puzzles::SolveError;

const INPUT: &str = "2-4,6-8
2-3,4-5
5-7,7-9
2-8,3-7
6-6,4-6
2-6,4-8";

fn span(start: i32, end: i32) -> Span {
    Span { start, end }
}

#[test]
fn test_parse_line() {
    assert_eq!(parse_line(b"1-3,2-4"), Ok((span(1, 3), span(2, 4))));
}

#[test]
fn test_is_fully_overlapping() {
    assert!(is_fully_overlapping(span(1, 3), span(2, 3)));
    assert!(is_fully_overlapping(span(2, 3), span(1, 3)));
    assert!(!is_fully_overlapping(span(2, 4), span(1, 3)));
}

#[test]
fn day4_test_part_1() {
    assert_eq!(count(INPUT.as_bytes(), OverlapKind::Full), Ok(2));
    assert_eq!(count(INPUT.as_bytes(), OverlapKind::Partial), Ok(4));
}

#[test]
fn overlap_predicates_are_symmetric_on_samples() {
    let pairs = [
        (span(1, 3), span(2, 3)),
        (span(2, 4), span(6, 8)),
        (span(5, 7), span(7, 9)),
        (span(6, 6), span(4, 6)),
    ];
    for (a, b) in pairs {
        assert_eq!(is_fully_overlapping(a, b), is_fully_overlapping(b, a));
        assert_eq!(
            is_partially_overlapping(a, b),
            is_partially_overlapping(b, a)
        );
    }
}

#[test]
fn parse_line_rejects_bad_shapes() {
    assert_eq!(parse_line(b"1-3"), Err(SolveError::Malformed));
    assert_eq!(parse_line(b"1-3,2"), Err(SolveError::Malformed));
    assert_eq!(parse_line(b"a-3,2-4"), Err(SolveError::Malformed));
    assert_eq!(parse_line(b"1-3,2-4,5-6"), Err(SolveError::Malformed));
    assert_eq!(parse_line(b"-1-3,2-4"), Err(SolveError::Malformed));
}

#[test]
fn count_rejects_malformed_line() {
    assert_eq!(
        count(b"2-4,6-8\nbroken", OverlapKind::Full),
        Err(SolveError::Malformed)
    );
}

#[test]
fn count_of_empty_input_is_zero() {
    assert_eq!(count(b"", OverlapKind::Full), Ok(0));
    assert_eq!(count(b"", OverlapKind::Partial), Ok(0));
}
