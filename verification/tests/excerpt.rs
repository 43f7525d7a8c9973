use codegraide::analyzer::{SourcePosition, SourceSpan};
use codegraide::excerpt::{source_for_span, text_lines};

fn span(start_byte: usize, end_byte: usize, line: usize, column: usize) -> SourceSpan {
    SourceSpan {
        start_byte,
        end_byte,
        start: SourcePosition { line, column },
        end: SourcePosition { line, column },
    }
}

#[test]
fn source_excerpt_uses_one_based_inclusive_line_spans() {
    let source = "first\nsecond\nthird\nfourth\n";
    let excerpt = source_for_span(
        source,
        SourceSpan {
            start_byte: 6,
            end_byte: 18,
            start: SourcePosition { line: 2, column: 1 },
            end: SourcePosition { line: 3, column: 6 },
        },
    )
    .expect("source excerpt");

    assert_eq!(excerpt.start_line, 2);
    assert_eq!(excerpt.end_line, 3);
    assert_eq!(excerpt.lines, ["second", "third"]);
}

#[test]
fn excerpts_outside_the_source_or_off_boundaries_are_missing() {
    assert!(source_for_span("abc", span(1, 9, 1, 2)).is_none());
    assert!(source_for_span("abc", span(2, 1, 1, 3)).is_none());
    assert!(source_for_span("é", span(1, 2, 1, 1)).is_none());
    assert!(source_for_span("abc", span(1, 1, 1, 2)).is_none());
}

#[test]
fn lines_drop_carriage_returns_and_a_final_empty_line() {
    assert_eq!(text_lines("a\r\nb\n"), vec!["a".to_owned(), "b".to_owned()]);
    assert_eq!(text_lines("a\n\nb"), vec!["a".to_owned(), String::new(), "b".to_owned()]);
    assert!(text_lines("").is_empty());
}
