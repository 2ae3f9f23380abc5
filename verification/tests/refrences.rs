//! The ticket-reference scanner and the in-line range type.

use refrences_lsp::refrence_finder::find_refrences_in_text;
use refrences_lsp::refrence_finder::InFileRefrence;
use refrences_lsp::refrence_finder::InFileRefrenceType;
use refrences_lsp::refrence_finder::InlineRange;
use refrences_lsp::refrence_finder::InlineRangeTryFromError;
use refrences_lsp::refrence_finder::Position;
use refrences_lsp::refrence_finder::Range;

fn ticket_of(r: &InFileRefrence) -> &str {
    match &r.marker {
        InFileRefrenceType::JiraRefrence { ticket } => ticket.as_str(),
        _ => panic!("expected a ticket reference"),
    }
}

#[test]
fn finds_single_reference() {
    let refs = find_refrences_in_text("ABC-123");
    assert_eq!(refs.len(), 1);
    assert_eq!(ticket_of(&refs[0]), "ABC-123");
    assert_eq!(refs[0].range.start_position(), Position { line: 0, character: 0 });
    assert_eq!(refs[0].range.end_position(), Position { line: 0, character: 7 });
}

#[test]
fn finds_references_across_lines() {
    let refs = find_refrences_in_text("x ABC-1\nDEF-22 y\n");
    assert_eq!(refs.len(), 2);
    assert_eq!(ticket_of(&refs[0]), "ABC-1");
    assert_eq!(refs[0].range.start_position(), Position { line: 0, character: 2 });
    assert_eq!(refs[0].range.end_position(), Position { line: 0, character: 7 });
    assert_eq!(ticket_of(&refs[1]), "DEF-22");
    assert_eq!(refs[1].range.start_position(), Position { line: 1, character: 0 });
    assert_eq!(refs[1].range.end_position(), Position { line: 1, character: 6 });
}

#[test]
fn short_capital_runs_are_not_references() {
    assert!(find_refrences_in_text("AB-1 and A-2").is_empty());
}

#[test]
fn reference_needs_digits() {
    assert!(find_refrences_in_text("ABC- and ABCD").is_empty());
}

#[test]
fn capital_run_is_taken_whole() {
    let refs = find_refrences_in_text("ABCABC-5");
    assert_eq!(refs.len(), 1);
    assert_eq!(ticket_of(&refs[0]), "ABCABC-5");
}

#[test]
fn digits_end_the_reference() {
    let refs = find_refrences_in_text("see ABC-12x");
    assert_eq!(refs.len(), 1);
    assert_eq!(ticket_of(&refs[0]), "ABC-12");
    assert_eq!(refs[0].range.end_position(), Position { line: 0, character: 10 });
}

#[test]
fn reference_after_lowercase_neighbour_counts() {
    let refs = find_refrences_in_text("xABC-1");
    assert_eq!(refs.len(), 1);
    assert_eq!(ticket_of(&refs[0]), "ABC-1");
    assert_eq!(refs[0].range.start_position(), Position { line: 0, character: 1 });
}

#[test]
fn adjacent_references_are_both_found() {
    let refs = find_refrences_in_text("ABC-1DEF-2");
    assert_eq!(refs.len(), 2);
    assert_eq!(ticket_of(&refs[0]), "ABC-1");
    assert_eq!(ticket_of(&refs[1]), "DEF-2");
}

#[test]
fn reference_at_end_of_text_is_found() {
    let refs = find_refrences_in_text("fixes ABC-9");
    assert_eq!(refs.len(), 1);
    assert_eq!(ticket_of(&refs[0]), "ABC-9");
    assert_eq!(refs[0].range.end_position(), Position { line: 0, character: 11 });
}

#[test]
fn empty_text_has_no_references() {
    assert!(find_refrences_in_text("").is_empty());
}

#[test]
fn contains_position_is_half_open() {
    let range = InlineRange::try_from(Range {
        start: Position { line: 2, character: 3 },
        end: Position { line: 2, character: 6 },
    })
    .unwrap();
    assert!(range.contains_position(Position { line: 2, character: 3 }));
    assert!(range.contains_position(Position { line: 2, character: 5 }));
    assert!(!range.contains_position(Position { line: 2, character: 6 }));
    assert!(!range.contains_position(Position { line: 3, character: 4 }));
}

#[test]
fn inline_range_round_trips_through_range() {
    let original = Range {
        start: Position { line: 4, character: 1 },
        end: Position { line: 4, character: 9 },
    };
    let inline = InlineRange::try_from(original).unwrap();
    assert_eq!(inline.to_range(), original);
}

#[test]
fn multi_line_range_is_rejected() {
    let err = InlineRange::try_from(Range {
        start: Position { line: 1, character: 0 },
        end: Position { line: 2, character: 0 },
    })
    .unwrap_err();
    assert_eq!(err, InlineRangeTryFromError::MultiLineRange);
}
