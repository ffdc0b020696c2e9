use starlark::codemap::ResolvedSpan;
use starlark::fixture::{scan_fixture, FixtureError, FixtureWithRanges};
use textwrap::dedent;

#[test]
fn parses_fixtures() -> Result<(), FixtureError> {
    let fixture = dedent(
        r#"
            load("foo.star", <a>"bar"</a>);

            x = 1
            <bar_highlight><bar_click>b</bar_click>ar</bar_highlight>(<x>x</x>)
            "#,
    )
    .trim()
    .to_owned();

    let expected_program = dedent(
        r#"
            load("foo.star", "bar");

            x = 1
            bar(x)
            "#,
    )
    .trim()
    .to_owned();

    let expected_locations = [
        ("a", 0, 17, 0, 22),
        ("bar_highlight", 3, 0, 3, 3),
        ("bar_click", 3, 0, 3, 1),
        ("x", 3, 4, 3, 5),
    ]
    .into_iter()
    .map(|(id, begin_line, begin_column, end_line, end_column)| {
        let span = ResolvedSpan {
            begin_line,
            begin_column,
            end_line,
            end_column,
        };
        (id.to_owned(), span)
    })
    .collect();

    let expected = FixtureWithRanges {
        filename: "test.star".to_owned(),
        program: expected_program,
        ranges: expected_locations,
    };

    let parsed = FixtureWithRanges::from_fixture("test.star", &fixture)?;

    assert_eq!(expected, parsed);

    Ok(())
}

#[test]
fn fixture_lookups() {
    let parsed = FixtureWithRanges::from_fixture("t.star", "ab\n  <x>cd</x> <y>e</y>").unwrap();
    assert_eq!(parsed.begin_line("x"), 1);
    assert_eq!(parsed.begin_column("x"), 2);
    assert_eq!(parsed.begin_column("y"), 5);
    assert_eq!(
        parsed.span("x"),
        ResolvedSpan { begin_line: 1, begin_column: 2, end_line: 1, end_column: 4 }
    );
    assert_eq!(parsed.program, "ab\n  cd e");
}

#[test]
fn fixture_duplicate_open_tag() {
    assert_eq!(
        FixtureWithRanges::from_fixture("t.star", "<a>x</a><a>"),
        Err(FixtureError::DuplicateOpenTag("a".to_owned()))
    );
}

#[test]
fn fixture_closing_tag_without_open_tag() {
    assert_eq!(
        FixtureWithRanges::from_fixture("t.star", "x</b>"),
        Err(FixtureError::ClosingTagWithoutOpenTag("b".to_owned()))
    );
}

#[test]
fn fixture_closing_twice_moves_the_end() {
    let parsed = FixtureWithRanges::from_fixture("t.star", "<a>x</a>yz</a>").unwrap();
    assert_eq!(parsed.program, "xyz");
    assert_eq!(
        parsed.span("a"),
        ResolvedSpan { begin_line: 0, begin_column: 0, end_line: 0, end_column: 3 }
    );
}

#[test]
fn fixture_text_that_is_no_tag_stays() {
    let parsed = FixtureWithRanges::from_fixture("t.star", "a < b > c <> </> <a-b> <<c>>d</c>").unwrap();
    assert_eq!(parsed.program, "a < b > c <> </> <a-b> <>d");
    assert_eq!(parsed.ranges.len(), 1);
    assert_eq!(
        parsed.span("c"),
        ResolvedSpan { begin_line: 0, begin_column: 24, end_line: 0, end_column: 26 }
    );
}

#[test]
fn fixture_unicode_word_names_and_columns() {
    let parsed = FixtureWithRanges::from_fixture("t.star", "é <βeta>ü</βeta>").unwrap();
    assert_eq!(parsed.program, "é ü");
    assert_eq!(
        parsed.span("βeta"),
        ResolvedSpan { begin_line: 0, begin_column: 2, end_line: 0, end_column: 3 }
    );
}

#[test]
fn fixture_unclosed_range() {
    assert!(FixtureWithRanges::try_from_fixture("t.star", "<a>x").is_none());
    let scanned = scan_fixture("<a>x").unwrap();
    assert_eq!(scanned.program, "x");
    assert_eq!(scanned.ranges[0].end, None);
    assert_eq!(FixtureWithRanges::try_from_fixture("t.star", "<a>x</a>"), Some(FixtureWithRanges::from_fixture("t.star", "<a>x</a>")));
}

#[test]
fn fixture_without_tags_is_its_own_program() {
    let text = "x = 1\ny = x > 0\n";
    let parsed = FixtureWithRanges::from_fixture("t.star", text).unwrap();
    assert_eq!(parsed.program, text);
    assert!(parsed.ranges.is_empty());
    assert_eq!(parsed.filename, "t.star");
}

#[test]
fn fixture_equality_ignores_range_order() {
    let a = FixtureWithRanges::from_fixture("t.star", "<a><b>x</b></a>").unwrap();
    let b = FixtureWithRanges::from_fixture("t.star", "<b><a>x</a></b>").unwrap();
    assert_eq!(a, b);
    let c = FixtureWithRanges::from_fixture("t.star", "<a>x</a><b></b>").unwrap();
    assert_ne!(a, c);
    let d = FixtureWithRanges::from_fixture("u.star", "<a><b>x</b></a>").unwrap();
    assert_ne!(a, d);
    let e = FixtureWithRanges::from_fixture("t.star", "<a>x</a>").unwrap();
    assert_ne!(a, e);
}
