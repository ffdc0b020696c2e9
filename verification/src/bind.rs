//! The binding scopes of a module: which names each scope binds, and the
//! reads, writes and nested scopes that occur in it, in source order.
use vstd::prelude::*;
use crate::codemap::{CodeMap, Pos, Span};
use vstd::utf8::*;

verus! {

/// How a name came to be bound.
#[derive(Debug)]
pub enum Assigner {
    /// By a `load` statement, of symbol `name` from module `path`.
    Load { path: String, name: String },
    /// As a parameter of a function.
    Argument,
    /// By an assignment.
    Assign,
}

/// An identifier together with the span where it occurs.
#[derive(Debug)]
pub struct AstIdent {
    pub node: String,
    pub span: Span,
}

/// A name bound by a scope, with how and where it was bound.
#[derive(Debug)]
pub struct Binding {
    pub name: String,
    pub assigner: Assigner,
    pub span: Span,
}

/// One event of a scope, in source order.
#[derive(Debug)]
pub enum Bind {
    /// The identifier is assigned.
    Put(Assigner, AstIdent),
    /// The identifier is read.
    Get(AstIdent),
    /// A nested scope, such as the body of a function.
    Scope(Scope),
    /// A point where control flow may branch.
    Flow,
}

/// A scope: the events in it, and the names that it binds.
#[derive(Debug)]
pub struct Scope {
    pub inner: Vec<Bind>,
    pub bound: Vec<Binding>,
}

/// Whether `span` lies within `src` at character boundaries on both ends.
pub open spec fn span_in_source(src: Seq<u8>, span: Span) -> bool {
    &&& is_char_boundary(src, span.begin.0 as int)
    &&& is_char_boundary(src, span.end.0 as int)
}

/// No name is bound twice in `bound`.
pub open spec fn names_distinct(bound: Seq<Binding>) -> bool {
    forall|i: int, j: int|
        0 <= i < j < bound.len() ==> #[trigger] bound[i].name@ != #[trigger] bound[j].name@
}

/// Every binding of `bound` has a span within `src`.
pub open spec fn bindings_in_source(bound: Seq<Binding>, src: Seq<u8>) -> bool {
    forall|i: int| 0 <= i < bound.len() ==> span_in_source(src, #[trigger] bound[i].span)
}

/// The span where `bound` binds `name`, if it does.
pub open spec fn bound_span(bound: Seq<Binding>, name: Seq<char>) -> Option<Span> {
    if exists|i: int| 0 <= i < bound.len() && #[trigger] bound[i].name@ == name {
        let i = choose|i: int| 0 <= i < bound.len() && #[trigger] bound[i].name@ == name;
        Some(bound[i].span)
    } else {
        None
    }
}

/// `scope` and every scope nested in it bind each name at most once, at a span within `src`.
pub open spec fn scope_wf(scope: Scope, src: Seq<u8>) -> bool
    decreases scope,
{
    &&& names_distinct(scope.bound@)
    &&& bindings_in_source(scope.bound@, src)
    &&& forall|i: int|
        0 <= i < scope.inner@.len() ==> match #[trigger] scope.inner@[i] {
            Bind::Scope(s) => scope_wf(s, src),
            _ => true,
        }
}

/// Whether `scope` or a scope nested in it binds a name at `span`.
pub open spec fn binds_at(scope: Scope, span: Span) -> bool
    decreases scope,
{
    ||| exists|i: int| 0 <= i < scope.bound@.len() && #[trigger] scope.bound@[i].span == span
    ||| exists|i: int|
        0 <= i < scope.inner@.len() && match #[trigger] scope.inner@[i] {
            Bind::Scope(s) => binds_at(s, span),
            _ => false,
        }
}

/// The span where `bound` binds `name`, if it does.
pub fn lookup_bound(bound: &Vec<Binding>, name: &String) -> (res: Option<Span>)
    requires
        names_distinct(bound@),
    ensures
        res == bound_span(bound@, name@),
{
    let n = bound.len();
    let mut j: usize = 0;
    while j < n
        invariant
            n == bound@.len(),
            names_distinct(bound@),
            0 <= j <= n,
            forall|k: int| 0 <= k < j ==> #[trigger] bound@[k].name@ != name@,
        decreases n - j,
    {
        if bound[j].name == *name {
            proof {
                let c = choose|i: int| 0 <= i < bound@.len() && #[trigger] bound@[i].name@ == name@;
                assert(bound@[j as int].name@ == name@);
                if c != j as int {
                    if c < j as int {
                        assert(bound@[c].name@ != name@);
                    } else {
                        assert(bound@[j as int].name@ != bound@[c].name@);
                    }
                }
            }
            return Some(bound[j].span);
        }
        j = j + 1;
    }
    None
}

/// Whether `bound` binds each name at most once, at a span within the source of `codemap`.
fn check_bindings(bound: &Vec<Binding>, codemap: &CodeMap) -> (res: bool)
    ensures
        res == (names_distinct(bound@) && bindings_in_source(bound@, codemap@)),
{
    let n = bound.len();
    let mut i: usize = 0;
    while i < n
        invariant
            n == bound@.len(),
            0 <= i <= n,
            forall|a: int, b: int|
                0 <= a < b < n && a < i ==> #[trigger] bound@[a].name@ != #[trigger] bound@[b].name@,
            forall|a: int| 0 <= a < i ==> span_in_source(codemap@, #[trigger] bound@[a].span),
        decreases n - i,
    {
        let span = bound[i].span;
        if !codemap.is_char_boundary(span.begin) || !codemap.is_char_boundary(span.end) {
            return false;
        }
        let mut j: usize = i + 1;
        while j < n
            invariant
                n == bound@.len(),
                i < n,
                i + 1 <= j <= n,
                forall|b: int| i < b < j ==> bound@[i as int].name@ != #[trigger] bound@[b].name@,
            decreases n - j,
        {
            if bound[i].name == bound[j].name {
                return false;
            }
            j = j + 1;
        }
        i = i + 1;
    }
    true
}

/// Whether `scope` and every scope nested in it bind each name at most once,
/// at a span within the source of `codemap`.
pub fn check_scope(scope: &Scope, codemap: &CodeMap) -> (res: bool)
    ensures
        res == scope_wf(*scope, codemap@),
    decreases scope,
{
    if !check_bindings(&scope.bound, codemap) {
        return false;
    }
    let n = scope.inner.len();
    let mut i: usize = 0;
    while i < n
        invariant
            n == scope.inner@.len(),
            0 <= i <= n,
            names_distinct(scope.bound@),
            bindings_in_source(scope.bound@, codemap@),
            forall|k: int|
                0 <= k < i ==> match #[trigger] scope.inner@[k] {
                    Bind::Scope(s) => scope_wf(s, codemap@),
                    _ => true,
                },
        decreases n - i,
    {
        match &scope.inner[i] {
            Bind::Scope(s) => {
                if !check_scope(s, codemap) {
                    return false;
                }
            },
            _ => {},
        }
        i = i + 1;
    }
    true
}

} // verus!
