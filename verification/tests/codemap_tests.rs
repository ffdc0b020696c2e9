use starlark::codemap::{CodeMap, LineCol, Pos, ResolvedSpan, Span};

#[test]
fn line_col_of_offsets() {
    let cm = CodeMap::new("a.star".to_owned(), "ab\ncd\n\nxyz".to_owned());
    assert_eq!(cm.line_count(), 4);
    assert_eq!(cm.find_line_col(Pos::new(0)), LineCol { line: 0, column: 0 });
    assert_eq!(cm.find_line_col(Pos::new(2)), LineCol { line: 0, column: 2 });
    assert_eq!(cm.find_line_col(Pos::new(3)), LineCol { line: 1, column: 0 });
    assert_eq!(cm.find_line_col(Pos::new(7)), LineCol { line: 3, column: 0 });
    assert_eq!(cm.find_line_col(Pos::new(10)), LineCol { line: 3, column: 3 });
    assert_eq!(
        cm.resolve_span(Span::new(Pos::new(4), Pos::new(8))),
        ResolvedSpan { begin_line: 1, begin_column: 1, end_line: 3, end_column: 1 }
    );
}

#[test]
fn line_begins_at_column_zero() {
    let cm = CodeMap::new("a.star".to_owned(), "x\n\n  y\n".to_owned());
    for line in 0..cm.line_count() {
        let begin = cm.line_span(line).begin();
        assert_eq!(cm.find_line_col(begin), LineCol { line, column: 0 });
    }
    assert_eq!(cm.line_count(), 4);
    assert_eq!(cm.find_line_col(Pos::new(7)), LineCol { line: 3, column: 0 });
}

#[test]
fn empty_source_has_one_line() {
    let cm = CodeMap::new("e.star".to_owned(), String::new());
    assert_eq!(cm.line_count(), 1);
    assert_eq!(cm.line_span(0), Span::new(Pos::new(0), Pos::new(0)));
    assert_eq!(cm.find_line_col(Pos::new(0)), LineCol { line: 0, column: 0 });
}
