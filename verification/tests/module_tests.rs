use starlark::bind::{check_scope, lookup_bound, Assigner, AstIdent, Bind, Binding, Scope};
use starlark::codemap::{CodeMap, LineCol, Pos, ResolvedSpan, Span};
use starlark::definition::AstModule;

fn sp(begin: u32, end: u32) -> Span {
    Span::new(Pos::new(begin), Pos::new(end))
}

fn ident(name: &str, begin: u32) -> AstIdent {
    AstIdent { node: name.to_owned(), span: sp(begin, begin + name.len() as u32) }
}

fn binding(name: &str, begin: u32) -> Binding {
    Binding { name: name.to_owned(), assigner: Assigner::Assign, span: sp(begin, begin + name.len() as u32) }
}

// Program (offsets in brackets):
// line 0: "a = 1"            a[0]
// line 1: "def f(a):"        f[10] a[12]
// line 2: "  return a + b"   a[25] b[29]
// line 3: "a"                a[31]
const PROGRAM: &str = "a = 1\ndef f(a):\n  return a + b\na";

fn program_scope() -> Scope {
    Scope {
        inner: vec![
            Bind::Put(Assigner::Assign, ident("a", 0)),
            Bind::Put(Assigner::Assign, ident("f", 10)),
            Bind::Scope(Scope {
                inner: vec![
                    Bind::Put(Assigner::Argument, ident("a", 12)),
                    Bind::Get(ident("a", 25)),
                    Bind::Get(ident("b", 29)),
                ],
                bound: vec![Binding { name: "a".to_owned(), assigner: Assigner::Argument, span: sp(12, 13) }],
            }),
            Bind::Get(ident("a", 31)),
        ],
        bound: vec![binding("a", 0), binding("f", 10)],
    }
}

fn program_module() -> AstModule {
    AstModule::new(CodeMap::new("m.star".to_owned(), PROGRAM.to_owned()), program_scope()).unwrap()
}

#[test]
fn parameter_shadows_global() {
    let m = program_module();
    assert_eq!(
        m.find_definition(2, 9),
        Some(ResolvedSpan { begin_line: 1, begin_column: 6, end_line: 1, end_column: 7 })
    );
}

#[test]
fn global_read_at_module_level() {
    let m = program_module();
    assert_eq!(
        m.find_definition(3, 0),
        Some(ResolvedSpan { begin_line: 0, begin_column: 0, end_line: 0, end_column: 1 })
    );
}

#[test]
fn unbound_name_has_no_definition() {
    let m = program_module();
    assert_eq!(m.find_definition(2, 13), None);
}

#[test]
fn no_read_under_cursor() {
    let m = program_module();
    // `def` keyword, and the assigned `a` on line 0.
    assert_eq!(m.find_definition(1, 0), None);
    assert_eq!(m.find_definition(0, 0), None);
}

#[test]
fn columns_past_line_end_clamp() {
    let m = program_module();
    // Line 3 is `a`: every column at or past its end puts the cursor on the end of `a`.
    assert_eq!(m.find_definition(3, 1), m.find_definition(3, 1000));
    assert_eq!(m.find_definition(3, u32::MAX), m.find_definition(3, 0));
    // A line's span ends where the next line begins, so a column past the end of
    // line 2 puts the cursor on the `a` that begins line 3.
    assert_eq!(m.find_definition(2, 1000), m.find_definition(3, 0));
    assert!(m.find_definition(2, 1000).is_some());
}

#[test]
fn whole_identifier_span_is_clickable() {
    let m = program_module();
    // The span of a read covers its end too; the column before it is no read.
    assert_eq!(m.find_definition(2, 9), m.find_definition(2, 10));
    assert!(m.find_definition(2, 10).is_some());
    assert_eq!(m.find_definition(2, 8), None);
}

#[test]
fn module_refuses_name_bound_twice() {
    let mut scope = program_scope();
    scope.bound.push(binding("a", 31));
    assert!(!check_scope(&scope, &CodeMap::new("m.star".to_owned(), PROGRAM.to_owned())));
    assert!(AstModule::new(CodeMap::new("m.star".to_owned(), PROGRAM.to_owned()), scope).is_none());
}

#[test]
fn module_refuses_binding_outside_source() {
    let scope = Scope { inner: vec![], bound: vec![binding("zz", 100)] };
    assert!(AstModule::new(CodeMap::new("m.star".to_owned(), PROGRAM.to_owned()), scope).is_none());
}

#[test]
fn module_refuses_binding_inside_a_character() {
    let source = "é = 1";
    let scope = Scope { inner: vec![], bound: vec![Binding { name: "é".to_owned(), assigner: Assigner::Assign, span: sp(1, 2) }] };
    assert!(AstModule::new(CodeMap::new("m.star".to_owned(), source.to_owned()), scope).is_none());
    let scope = Scope { inner: vec![], bound: vec![Binding { name: "é".to_owned(), assigner: Assigner::Assign, span: sp(0, 2) }] };
    assert!(AstModule::new(CodeMap::new("m.star".to_owned(), source.to_owned()), scope).is_some());
}

#[test]
fn nested_scope_checked_too() {
    let scope = Scope {
        inner: vec![Bind::Scope(Scope { inner: vec![], bound: vec![binding("a", 0), binding("a", 0)] })],
        bound: vec![],
    };
    assert!(AstModule::new(CodeMap::new("m.star".to_owned(), PROGRAM.to_owned()), scope).is_none());
}

#[test]
fn lookup_of_bound_names() {
    let bound = vec![binding("a", 0), binding("f", 10)];
    assert_eq!(lookup_bound(&bound, &"f".to_owned()), Some(sp(10, 11)));
    assert_eq!(lookup_bound(&bound, &"g".to_owned()), None);
}

#[test]
fn codemap_columns_count_characters() {
    let cm = CodeMap::new("u.star".to_owned(), "é = 1\nß = ü".to_owned());
    assert_eq!(cm.line_count(), 2);
    assert_eq!(cm.find_line_col(Pos::new(2)), LineCol { line: 0, column: 1 });
    assert_eq!(cm.find_line_col(Pos::new(7)), LineCol { line: 1, column: 0 });
    assert_eq!(cm.find_line_col(Pos::new(14)), LineCol { line: 1, column: 5 });
    assert_eq!(cm.find_line_col(Pos::new(12)), LineCol { line: 1, column: 4 });
    assert_eq!(cm.line_span(0), sp(0, 7));
    assert_eq!(cm.line_span(1), sp(7, 14));
    assert_eq!(cm.full_span(), sp(0, 14));
    assert!(cm.is_char_boundary(Pos::new(2)));
    assert!(!cm.is_char_boundary(Pos::new(1)));
    assert!(!cm.is_char_boundary(Pos::new(13)));
    assert!(!cm.is_char_boundary(Pos::new(15)));
    assert_eq!(cm.find_line(Pos::new(14)), 1);
    assert_eq!(cm.find_line(Pos::new(6)), 0);
    assert_eq!(cm.filename(), "u.star");
}

// Program (offsets in brackets):
// line 0: "a = 1"              a[0]
// line 1: "def f():"           f[10]
// line 2: " def g(b):"         g[20] b[22]
// line 3: "  a; b"             a[28] b[31]
const NESTED: &str = "a = 1\ndef f():\n def g(b):\n  a; b";

fn nested_module(f_binds_a: bool) -> AstModule {
    let g_body = Scope {
        inner: vec![
            Bind::Put(Assigner::Argument, ident("b", 22)),
            Bind::Get(ident("a", 28)),
            Bind::Get(ident("b", 31)),
        ],
        bound: vec![Binding { name: "b".to_owned(), assigner: Assigner::Argument, span: sp(22, 23) }],
    };
    let f_body = Scope {
        inner: vec![Bind::Put(Assigner::Assign, ident("g", 20)), Bind::Scope(g_body)],
        bound: if f_binds_a {
            vec![binding("g", 20), Binding { name: "a".to_owned(), assigner: Assigner::Assign, span: sp(15, 16) }]
        } else {
            vec![binding("g", 20)]
        },
    };
    let scope = Scope {
        inner: vec![
            Bind::Put(Assigner::Assign, ident("a", 0)),
            Bind::Put(Assigner::Assign, ident("f", 10)),
            Bind::Scope(f_body),
        ],
        bound: vec![binding("a", 0), binding("f", 10)],
    };
    AstModule::new(CodeMap::new("n.star".to_owned(), NESTED.to_owned()), scope).unwrap()
}

#[test]
fn innermost_enclosing_binding_at_depth_two() {
    let m = nested_module(false);
    // `a` in g: neither g nor f binds it, so the module's `a`.
    assert_eq!(
        m.find_definition(3, 2),
        Some(ResolvedSpan { begin_line: 0, begin_column: 0, end_line: 0, end_column: 1 })
    );
    // `b` in g: g's parameter.
    assert_eq!(
        m.find_definition(3, 5),
        Some(ResolvedSpan { begin_line: 2, begin_column: 7, end_line: 2, end_column: 8 })
    );
    // With f binding `a` as well (at offset 15), f's binding is the innermost one.
    let m = nested_module(true);
    assert_eq!(
        m.find_definition(3, 2),
        Some(ResolvedSpan { begin_line: 2, begin_column: 0, end_line: 2, end_column: 1 })
    );
}
