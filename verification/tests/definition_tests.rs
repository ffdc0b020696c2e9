use starlark::bind::{Assigner, AstIdent, Bind, Binding, Scope};
use starlark::codemap::{CodeMap, Pos, Span};
use starlark::definition::AstModule;
use starlark::fixture::{FixtureError, FixtureWithRanges};
use textwrap::dedent;

/// The byte offset of `col` on line `line` of `program`.
fn offset(program: &str, line: usize, col: usize) -> u32 {
    let before: usize = program.split('\n').take(line).map(|l| l.len() + 1).sum();
    (before + col) as u32
}

fn span_at(program: &str, line: usize, col: usize, len: usize) -> Span {
    Span::new(
        Pos::new(offset(program, line, col)),
        Pos::new(offset(program, line, col + len)),
    )
}

fn ident(program: &str, name: &str, line: usize, col: usize) -> AstIdent {
    AstIdent { node: name.to_owned(), span: span_at(program, line, col, name.len()) }
}

fn put(program: &str, assigner: Assigner, name: &str, line: usize, col: usize) -> Bind {
    Bind::Put(assigner, ident(program, name, line, col))
}

fn get(program: &str, name: &str, line: usize, col: usize) -> Bind {
    Bind::Get(ident(program, name, line, col))
}

fn binding(program: &str, name: &str, assigner: Assigner, line: usize, col: usize, len: usize) -> Binding {
    Binding { name: name.to_owned(), assigner, span: span_at(program, line, col, len) }
}

/// The scope tree of the program shared by the tests below:
///
/// ```text
/// load("bar.star", "print");
///
/// x = 1
/// y = 2
///
/// def add(y: "int"):
///     return x + y
///
/// def invalid_symbol():
///     return y + z
///
/// print(x)
/// add(3)
/// invalid_symbol()
/// ```
fn module_scope(p: &str) -> Scope {
    let load = || Assigner::Load { path: "bar.star".to_owned(), name: "print".to_owned() };
    let add_body = Scope {
        inner: vec![
            put(p, Assigner::Argument, "y", 5, 8),
            Bind::Flow,
            get(p, "x", 6, 11),
            get(p, "y", 6, 15),
        ],
        bound: vec![binding(p, "y", Assigner::Argument, 5, 8, 1)],
    };
    let invalid_symbol_body = Scope {
        inner: vec![Bind::Flow, get(p, "y", 9, 11), get(p, "z", 9, 15)],
        bound: vec![],
    };
    Scope {
        inner: vec![
            Bind::Put(load(), AstIdent { node: "print".to_owned(), span: span_at(p, 0, 17, 7) }),
            put(p, Assigner::Assign, "x", 2, 0),
            put(p, Assigner::Assign, "y", 3, 0),
            put(p, Assigner::Assign, "add", 5, 4),
            Bind::Scope(add_body),
            put(p, Assigner::Assign, "invalid_symbol", 8, 4),
            Bind::Scope(invalid_symbol_body),
            get(p, "print", 11, 0),
            get(p, "x", 11, 6),
            get(p, "add", 12, 0),
            get(p, "invalid_symbol", 13, 0),
        ],
        bound: vec![
            binding(p, "print", load(), 0, 17, 7),
            binding(p, "x", Assigner::Assign, 2, 0, 1),
            binding(p, "y", Assigner::Assign, 3, 0, 1),
            binding(p, "add", Assigner::Assign, 5, 4, 3),
            binding(p, "invalid_symbol", Assigner::Assign, 8, 4, 14),
        ],
    }
}

/// The module of a parsed fixture, with the scope tree of its program.
fn module_of(parsed: &FixtureWithRanges) -> AstModule {
    let codemap = CodeMap::new(parsed.filename.clone(), parsed.program.clone());
    AstModule::new(codemap, module_scope(&parsed.program)).expect("the scope tree fits the program")
}

#[test]
fn find_definition_loaded_symbol() -> Result<(), FixtureError> {
    let contents = dedent(
        r#"
        load("bar.star", <print>"print"</print>);

        x = 1
        y = 2

        def add(y: "int"):
            return x + y

        def invalid_symbol():
            return y + z

        <p1>p</p1>r<p2>i</p2>n<p3>t</p3>(x)
        add(3)
        invalid_symbol()
        "#,
    )
    .trim()
    .to_owned();
    let parsed = FixtureWithRanges::from_fixture("foo.star", &contents)?;
    let module = module_of(&parsed);

    assert_eq!(
        Some(parsed.span("print")),
        module.find_definition(parsed.begin_line("p1"), parsed.begin_column("p1"))
    );
    assert_eq!(
        Some(parsed.span("print")),
        module.find_definition(parsed.begin_line("p2"), parsed.begin_column("p2"))
    );
    assert_eq!(
        Some(parsed.span("print")),
        module.find_definition(parsed.begin_line("p3"), parsed.begin_column("p3"))
    );
    Ok(())
}

#[test]
fn find_definition_function_calls() -> Result<(), FixtureError> {
    let contents = dedent(
        r#"
        load("bar.star", "print");

        x = 1
        y = 2

        def <add>add</add>(y: "int"):
            return x + y

        def <invalid_symbol>invalid_symbol</invalid_symbol>():
            return y + z

        print(x)
        <a1>a</a1><a2>d</a2><a3>d</a3>(3)
        <i1>i</i1>nv<i2>a</i2>lid_symbo<i3>l</i3>()
        "#,
    )
    .trim()
    .to_owned();
    let parsed = FixtureWithRanges::from_fixture("foo.star", &contents)?;
    let module = module_of(&parsed);

    assert_eq!(
        Some(parsed.span("add")),
        module.find_definition(parsed.begin_line("a1"), parsed.begin_column("a1"))
    );
    assert_eq!(
        Some(parsed.span("add")),
        module.find_definition(parsed.begin_line("a2"), parsed.begin_column("a2"))
    );
    assert_eq!(
        Some(parsed.span("add")),
        module.find_definition(parsed.begin_line("a3"), parsed.begin_column("a3"))
    );

    assert_eq!(
        Some(parsed.span("invalid_symbol")),
        module.find_definition(parsed.begin_line("i1"), parsed.begin_column("i1"))
    );
    assert_eq!(
        Some(parsed.span("invalid_symbol")),
        module.find_definition(parsed.begin_line("i2"), parsed.begin_column("i2"))
    );
    assert_eq!(
        Some(parsed.span("invalid_symbol")),
        module.find_definition(parsed.begin_line("i3"), parsed.begin_column("i3"))
    );
    Ok(())
}

#[test]
fn find_definition_function_params() -> Result<(), FixtureError> {
    let contents = dedent(
        r#"
        load("bar.star", "print");

        <x>x</x> = 1
        y = 2

        def add(y: "int"):
            return x + y

        def invalid_symbol():
            return y + z

        print(<x_param>x</x_param>)
        add(3)
        invalid_symbol()
        "#,
    )
    .trim()
    .to_owned();
    let parsed = FixtureWithRanges::from_fixture("foo.star", &contents)?;
    let module = module_of(&parsed);

    assert_eq!(
        Some(parsed.span("x")),
        module.find_definition(parsed.begin_line("x_param"), parsed.begin_column("x_param"))
    );
    Ok(())
}

#[test]
fn find_definition_scopes_locals() -> Result<(), FixtureError> {
    let contents = dedent(
        r#"
        load("bar.star", "print");

        <x>x</x> = 1
        <y1>y</y1> = 2

        def add(<y2>y</y2>: "int"):
            return <x_var>x</x_var> + <y_var1>y</y_var1>

        def invalid_symbol():
            return <y_var2>y</y_var2> + <z_var>z</z_var>

        print(x)
        add(3)
        invalid_symbol()
        "#,
    )
    .trim()
    .to_owned();
    let parsed = FixtureWithRanges::from_fixture("foo.star", &contents)?;
    let module = module_of(&parsed);

    assert_eq!(
        Some(parsed.span("x")),
        module.find_definition(parsed.begin_line("x_var"), parsed.begin_column("x_var"))
    );
    assert_eq!(
        Some(parsed.span("y2")),
        module.find_definition(parsed.begin_line("y_var1"), parsed.begin_column("y_var1"))
    );

    assert_eq!(
        Some(parsed.span("y1")),
        module.find_definition(parsed.begin_line("y_var2"), parsed.begin_column("y_var2"))
    );
    assert_eq!(
        None,
        module.find_definition(parsed.begin_line("z_var"), parsed.begin_column("z_var"))
    );
    Ok(())
}

#[test]
fn find_definition_unknown_clicks() -> Result<(), FixtureError> {
    let contents = dedent(
        r#"
        load("bar.star", "print");

        x = 1
        y = 2

        def <no_def>add</no_def>(y: "int"):
            return x + y

        def invalid_symbol():
            return y + z

        print(x)
        add(3)
        invalid_symbol()
        "#,
    )
    .trim()
    .to_owned();
    let parsed = FixtureWithRanges::from_fixture("foo.star", &contents)?;
    let module = module_of(&parsed);

    assert_eq!(
        None,
        module.find_definition(parsed.begin_line("no_def"), parsed.begin_column("no_def"))
    );

    Ok(())
}
