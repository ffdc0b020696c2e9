//! Finding where the name under a cursor is defined.
use vstd::prelude::*;
use crate::bind::{
    binds_at, bound_span, AstIdent, lookup_bound, check_scope, scope_wf, span_in_source, Bind, Scope,
};
use crate::codemap::{
    law_line_start_follows_newline, lemma_line_starts_shape, line_begin, line_count, line_end,
    resolved_span, CodeMap, Pos,
    ResolvedSpan, Span,
};

verus! {

/// What the search of a scope for the identifier at a position found.
pub enum SearchResult {
    /// The identifier is bound at this span.
    Location(Span),
    /// The identifier with this name is at the position, but the scopes searched
    /// so far do not bind it; an enclosing scope may.
    Name(Seq<char>),
    /// No identifier that is read is at the position.
    NotFound,
}

/// The executable form of `SearchResult`, borrowing the name from the scope tree.
pub enum DefinitionLocation<'a> {
    Location(Span),
    Name(&'a String),
    NotFound,
}

impl<'a> View for DefinitionLocation<'a> {
    type V = SearchResult;

    open spec fn view(&self) -> SearchResult {
        match *self {
            DefinitionLocation::Location(span) => SearchResult::Location(span),
            DefinitionLocation::Name(name) => SearchResult::Name(name@),
            DefinitionLocation::NotFound => SearchResult::NotFound,
        }
    }
}

/// Whether `pos` lies within `span`, both ends included.
pub open spec fn covers(span: Span, pos: int) -> bool {
    span.begin.0 <= pos <= span.end.0
}

/// Completes `found` with the bindings of `scope`: a name that `scope` binds
/// becomes the location of that binding.
pub open spec fn resolve_in(scope: Scope, found: SearchResult) -> SearchResult {
    match found {
        SearchResult::Name(name) => match bound_span(scope.bound@, name) {
            Some(span) => SearchResult::Location(span),
            None => SearchResult::Name(name),
        },
        _ => found,
    }
}

/// Searches the events of `scope` from index `i` on, in order, for the first
/// read of an identifier whose span covers `pos`, descending into nested scopes,
/// and resolves its name from the innermost scope that holds it outwards up to `scope`.
pub open spec fn search_from(scope: Scope, pos: int, i: int) -> SearchResult
    decreases scope, scope.inner@.len() - i,
{
    if i < 0 || i >= scope.inner@.len() {
        SearchResult::NotFound
    } else {
        match scope.inner@[i] {
            Bind::Get(g) => if covers(g.span, pos) {
                resolve_in(scope, SearchResult::Name(g.node@))
            } else {
                search_from(scope, pos, i + 1)
            },
            Bind::Scope(s) => match search_from(s, pos, 0) {
                SearchResult::NotFound => search_from(scope, pos, i + 1),
                found => resolve_in(scope, found),
            },
            _ => search_from(scope, pos, i + 1),
        }
    }
}

/// Searches all of `scope` for the identifier read at `pos`.
pub open spec fn search(scope: Scope, pos: int) -> SearchResult {
    search_from(scope, pos, 0)
}

/// The span where the identifier read at `pos` in the module with scope `scope` is defined, if any.
pub open spec fn definition_span(scope: Scope, pos: int) -> Option<Span> {
    match search(scope, pos) {
        SearchResult::Location(span) => Some(span),
        SearchResult::Name(name) => bound_span(scope.bound@, name),
        SearchResult::NotFound => None,
    }
}

/// The offset of the cursor at line `line` and column `col` of `src`: `col`
/// bytes into the line, but no further than the end of the line.
pub open spec fn cursor_pos(src: Seq<u8>, line: int, col: int) -> int {
    if line_begin(src, line) + col < line_end(src, line) {
        line_begin(src, line) + col
    } else {
        line_end(src, line)
    }
}

/// Where the name under the cursor at `line` and `col` is defined, as lines and columns.
pub open spec fn definition_at(src: Seq<u8>, scope: Scope, line: int, col: int) -> Option<
    ResolvedSpan,
> {
    match definition_span(scope, cursor_pos(src, line, col)) {
        Some(span) => Some(resolved_span(src, span)),
        None => None,
    }
}

/// A found location is a binding of `scope` or of a scope nested in it, and so
/// lies within the source.
pub proof fn lemma_search_finds_binding(scope: Scope, pos: int, i: int, src: Seq<u8>)
    requires
        scope_wf(scope, src),
    ensures
        search_from(scope, pos, i) matches SearchResult::Location(span) ==> binds_at(scope, span)
            && span_in_source(src, span),
    decreases scope, scope.inner@.len() - i,
{
    if 0 <= i < scope.inner@.len() {
        match scope.inner@[i] {
            Bind::Get(g) => {
                if covers(g.span, pos) {
                    lemma_bound_span_is_binding(scope, g.node@, src);
                } else {
                    lemma_search_finds_binding(scope, pos, i + 1, src);
                }
            },
            Bind::Scope(s) => {
                assert(scope_wf(s, src));
                lemma_search_finds_binding(s, pos, 0, src);
                match search_from(s, pos, 0) {
                    SearchResult::NotFound => {
                        lemma_search_finds_binding(scope, pos, i + 1, src);
                    },
                    SearchResult::Location(span) => {
                        assert(binds_at(s, span));
                        assert(match scope.inner@[i] {
                            Bind::Scope(s) => binds_at(s, span),
                            _ => false,
                        });
                    },
                    SearchResult::Name(name) => {
                        lemma_bound_span_is_binding(scope, name, src);
                    },
                }
            },
            _ => {
                lemma_search_finds_binding(scope, pos, i + 1, src);
            },
        }
    }
}

/// The span at which a scope binds a name is one of its bindings, within the source.
pub proof fn lemma_bound_span_is_binding(scope: Scope, name: Seq<char>, src: Seq<u8>)
    requires
        scope_wf(scope, src),
    ensures
        bound_span(scope.bound@, name) matches Some(span) ==> binds_at(scope, span)
            && span_in_source(src, span),
{
    if exists|i: int| 0 <= i < scope.bound@.len() && #[trigger] scope.bound@[i].name@ == name {
        let i = choose|i: int| 0 <= i < scope.bound@.len() && #[trigger] scope.bound@[i].name@ == name;
        assert(scope.bound@[i].span == scope.bound@[i].span);
    }
}

/// Whether `b` holds a read of an identifier whose span covers `pos`, itself
/// or in a scope nested in it.
pub open spec fn reads(b: Bind, pos: int) -> bool
    decreases b,
{
    match b {
        Bind::Get(g) => g.span.begin.0 <= pos <= g.span.end.0,
        Bind::Scope(s) => exists|i: int|
            0 <= i < s.inner@.len() && reads(#[trigger] s.inner@[i], pos),
        _ => false,
    }
}

/// Whether an event of `scope` or of a scope nested in it reads an identifier at `pos`.
pub open spec fn reads_at(scope: Scope, pos: int) -> bool {
    exists|i: int| 0 <= i < scope.inner@.len() && reads(#[trigger] scope.inner@[i], pos)
}

/// The search from index `i` on finds nothing exactly when no event from `i` on reads at `pos`.
pub proof fn lemma_search_from_not_found(scope: Scope, pos: int, i: int)
    requires
        0 <= i,
    ensures
        (search_from(scope, pos, i) == SearchResult::NotFound) <==> !(exists|j: int|
            i <= j < scope.inner@.len() && reads(#[trigger] scope.inner@[j], pos)),
    decreases scope, scope.inner@.len() - i,
{
    if i < scope.inner@.len() {
        lemma_search_from_not_found(scope, pos, i + 1);
        match scope.inner@[i] {
            Bind::Scope(s) => {
                lemma_search_from_not_found(s, pos, 0);
            },
            _ => {},
        }
        if search_from(scope, pos, i) == SearchResult::NotFound {
            assert forall|j: int| i <= j < scope.inner@.len() implies !reads(
                #[trigger] scope.inner@[j],
                pos,
            ) by {}
        } else {
            if !reads(scope.inner@[i], pos) {
                let j = choose|j: int|
                    i + 1 <= j < scope.inner@.len() && reads(#[trigger] scope.inner@[j], pos);
                assert(i <= j < scope.inner@.len() && reads(scope.inner@[j], pos));
            }
        }
    }
}

/// Law: the search finds nothing exactly when no identifier read in the scope tree covers `pos`.
pub proof fn law_not_found_iff_no_read(scope: Scope, pos: int)
    ensures
        (search(scope, pos) == SearchResult::NotFound) <==> !reads_at(scope, pos),
{
    lemma_search_from_not_found(scope, pos, 0);
}

/// Law: where no identifier read in the scope tree covers the position, no
/// definition is found.
pub proof fn law_no_read_no_definition(scope: Scope, pos: int)
    requires
        !reads_at(scope, pos),
    ensures
        definition_span(scope, pos) == None::<Span>,
{
    law_not_found_iff_no_read(scope, pos);
}

/// Events that do not read at `pos` are passed over by the search.
pub proof fn lemma_skip_non_reads(scope: Scope, pos: int, i: int)
    requires
        0 <= i <= scope.inner@.len(),
        forall|j: int| 0 <= j < i ==> !reads(#[trigger] scope.inner@[j], pos),
    ensures
        search(scope, pos) == search_from(scope, pos, i),
    decreases i,
{
    if i > 0 {
        lemma_skip_non_reads(scope, pos, i - 1);
        assert(!reads(scope.inner@[i - 1], pos));
        match scope.inner@[i - 1] {
            Bind::Scope(s) => {
                lemma_search_from_not_found(s, pos, 0);
            },
            _ => {},
        }
    }
}

/// Law: the first read of the scope itself that covers the position is resolved
/// by the bindings of the scope.
pub proof fn law_read_in_scope(scope: Scope, pos: int, k: int, g: AstIdent)
    requires
        0 <= k < scope.inner@.len(),
        scope.inner@[k] == Bind::Get(g),
        g.span.begin.0 <= pos <= g.span.end.0,
        forall|j: int| 0 <= j < k ==> !reads(#[trigger] scope.inner@[j], pos),
    ensures
        definition_span(scope, pos) == bound_span(scope.bound@, g.node@),
{
    lemma_skip_non_reads(scope, pos, k);
}

/// Law: a name read in a nested scope (such as a function body) that the nested
/// scope binds (such as a parameter) resolves to that binding, even where the
/// enclosing scope binds the same name.
pub proof fn law_inner_binding_shadows(
    scope: Scope,
    pos: int,
    i: int,
    s: Scope,
    k: int,
    g: AstIdent,
    span: Span,
)
    requires
        0 <= i < scope.inner@.len(),
        scope.inner@[i] == Bind::Scope(s),
        forall|j: int| 0 <= j < i ==> !reads(#[trigger] scope.inner@[j], pos),
        0 <= k < s.inner@.len(),
        s.inner@[k] == Bind::Get(g),
        g.span.begin.0 <= pos <= g.span.end.0,
        forall|j: int| 0 <= j < k ==> !reads(#[trigger] s.inner@[j], pos),
        bound_span(s.bound@, g.node@) == Some(span),
    ensures
        definition_span(scope, pos) == Some(span),
{
    lemma_skip_non_reads(scope, pos, i);
    lemma_skip_non_reads(s, pos, k);
}

/// Law: a name read in a nested scope that the nested scope does not bind
/// resolves to the binding of the enclosing scope.
pub proof fn law_outer_binding_visible(
    scope: Scope,
    pos: int,
    i: int,
    s: Scope,
    k: int,
    g: AstIdent,
    span: Span,
)
    requires
        0 <= i < scope.inner@.len(),
        scope.inner@[i] == Bind::Scope(s),
        forall|j: int| 0 <= j < i ==> !reads(#[trigger] scope.inner@[j], pos),
        0 <= k < s.inner@.len(),
        s.inner@[k] == Bind::Get(g),
        g.span.begin.0 <= pos <= g.span.end.0,
        forall|j: int| 0 <= j < k ==> !reads(#[trigger] s.inner@[j], pos),
        bound_span(s.bound@, g.node@) == None::<Span>,
        bound_span(scope.bound@, g.node@) == Some(span),
    ensures
        definition_span(scope, pos) == Some(span),
{
    lemma_skip_non_reads(scope, pos, i);
    lemma_skip_non_reads(s, pos, k);
}

/// The read `g` is reached from `scope` along `path`: each index of `path` but
/// the last selects a nested scope of the scope reached so far, and the last
/// selects the read itself; its span covers `pos`, and no event that comes
/// before the path's event, in a scope on the path, reads at `pos`.
pub open spec fn read_on_path(scope: Scope, pos: int, path: Seq<int>, g: AstIdent) -> bool
    decreases path.len(),
{
    if path.len() == 0 {
        false
    } else {
        let i = path[0];
        &&& 0 <= i < scope.inner@.len()
        &&& forall|j: int| 0 <= j < i ==> !reads(#[trigger] scope.inner@[j], pos)
        &&& if path.len() == 1 {
            scope.inner@[i] == Bind::Get(g) && g.span.begin.0 <= pos <= g.span.end.0
        } else {
            match scope.inner@[i] {
                Bind::Scope(s) => read_on_path(s, pos, path.drop_first(), g),
                _ => false,
            }
        }
    }
}

/// The binding of `name` in the innermost of the scopes along `path` (from
/// `scope` down to the scope that holds the path's last event) that binds it.
pub open spec fn innermost_binding(scope: Scope, path: Seq<int>, name: Seq<char>) -> Option<Span>
    decreases path.len(),
{
    if path.len() <= 1 {
        bound_span(scope.bound@, name)
    } else {
        match scope.inner@[path[0]] {
            Bind::Scope(s) => match innermost_binding(s, path.drop_first(), name) {
                Some(span) => Some(span),
                None => bound_span(scope.bound@, name),
            },
            _ => None,
        }
    }
}

/// The search of `scope` for a read reached along `path` finds its innermost binding,
/// or its name where no scope along the path binds it.
pub proof fn lemma_search_along_path(scope: Scope, pos: int, path: Seq<int>, g: AstIdent)
    requires
        read_on_path(scope, pos, path, g),
    ensures
        search(scope, pos) == match innermost_binding(scope, path, g.node@) {
            Some(span) => SearchResult::Location(span),
            None => SearchResult::Name(g.node@),
        },
    decreases path.len(),
{
    let i = path[0];
    lemma_skip_non_reads(scope, pos, i);
    if path.len() > 1 {
        match scope.inner@[i] {
            Bind::Scope(s) => {
                lemma_search_along_path(s, pos, path.drop_first(), g);
            },
            _ => {},
        }
    }
}

/// Law: a read at any depth of the scope tree resolves to the binding of its
/// name in the innermost enclosing scope that binds it, and to nothing where no
/// enclosing scope binds it.
pub proof fn law_innermost_enclosing_binding(scope: Scope, pos: int, path: Seq<int>, g: AstIdent)
    requires
        read_on_path(scope, pos, path, g),
    ensures
        definition_span(scope, pos) == innermost_binding(scope, path, g.node@),
{
    lemma_search_along_path(scope, pos, path, g);
    if path.len() > 1 {
        match scope.inner@[path[0]] {
            Bind::Scope(s) => {},
            _ => {},
        }
    }
}

/// Law: `find_definition` at a cursor on a read reached along `path` gives the
/// lines and columns of the binding of its name in the innermost enclosing scope
/// that binds it, and `None` where no enclosing scope binds it.
pub proof fn law_find_definition_innermost_binding(
    src: Seq<u8>,
    scope: Scope,
    line: int,
    col: int,
    path: Seq<int>,
    g: AstIdent,
)
    requires
        read_on_path(scope, cursor_pos(src, line, col), path, g),
    ensures
        definition_at(src, scope, line, col) == match innermost_binding(scope, path, g.node@) {
            Some(span) => Some(resolved_span(src, span)),
            None => None,
        },
{
    law_innermost_enclosing_binding(scope, cursor_pos(src, line, col), path, g);
}

/// Law: all positions within the span of a read (both ends included) that is
/// reached along `path` as the first read containing them give one definition,
/// whatever the length of the identifier.
pub proof fn law_positions_within_read_agree(scope: Scope, path: Seq<int>, g: AstIdent, p: int)
    requires
        read_on_path(scope, p, path, g),
        read_on_path(scope, g.span.begin.0 as int, path, g),
    ensures
        definition_span(scope, p) == definition_span(scope, g.span.begin.0 as int),
        definition_span(scope, p) == innermost_binding(scope, path, g.node@),
{
    law_innermost_enclosing_binding(scope, p, path, g);
    law_innermost_enclosing_binding(scope, g.span.begin.0 as int, path, g);
}

/// Law: every position within the span of the same identifier read gives the
/// same definition.
pub proof fn law_same_identifier_same_definition(
    scope: Scope,
    p1: int,
    p2: int,
    k: int,
    g: AstIdent,
)
    requires
        0 <= k < scope.inner@.len(),
        scope.inner@[k] == Bind::Get(g),
        g.span.begin.0 <= p1 <= g.span.end.0,
        g.span.begin.0 <= p2 <= g.span.end.0,
        forall|j: int| 0 <= j < k ==> !reads(#[trigger] scope.inner@[j], p1),
        forall|j: int| 0 <= j < k ==> !reads(#[trigger] scope.inner@[j], p2),
    ensures
        definition_span(scope, p1) == definition_span(scope, p2),
{
    law_read_in_scope(scope, p1, k, g);
    law_read_in_scope(scope, p2, k, g);
}

/// Law: a definition that is found is a binding of the module's scope tree, given as
/// the lines and columns of that binding's span.
pub proof fn law_definition_is_binding(src: Seq<u8>, scope: Scope, line: int, col: int)
    requires
        scope_wf(scope, src),
    ensures
        definition_at(src, scope, line, col) matches Some(r) ==> exists|span: Span|
            binds_at(scope, span) && span_in_source(src, span) && r == resolved_span(src, span),
{
    let pos = cursor_pos(src, line, col);
    lemma_search_finds_binding(scope, pos, 0, src);
    match search(scope, pos) {
        SearchResult::Name(name) => {
            lemma_bound_span_is_binding(scope, name, src);
        },
        _ => {},
    }
}

/// Law: the cursor at `line` and `col` lies on that line: `col` bytes after the
/// line's start where the line is longer than that, and at the line's end otherwise.
pub proof fn law_cursor_on_line(src: Seq<u8>, line: int, col: int)
    requires
        0 <= line < line_count(src),
        0 <= col,
    ensures
        line_begin(src, line) <= cursor_pos(src, line, col) <= line_end(src, line),
        col < line_end(src, line) - line_begin(src, line) ==> cursor_pos(src, line, col)
            == line_begin(src, line) + col,
        col >= line_end(src, line) - line_begin(src, line) ==> cursor_pos(src, line, col)
            == line_end(src, line),
{
    law_line_start_follows_newline(src, 0, line);
}

/// Law: every column at or past the end of a line puts the cursor at the end of
/// that line, so all such columns give the same definition.
pub proof fn law_columns_past_line_end(src: Seq<u8>, scope: Scope, line: int, c1: int, c2: int)
    requires
        c1 >= line_end(src, line) - line_begin(src, line),
        c2 >= line_end(src, line) - line_begin(src, line),
    ensures
        definition_at(src, scope, line, c1) == definition_at(src, scope, line, c2),
{
}

/// The search of a scope for `pos`, searching its events in order.
fn find_definition_in_scope<'a>(scope: &'a Scope, pos: Pos, Ghost(src): Ghost<Seq<u8>>) -> (res:
    DefinitionLocation<'a>)
    requires
        scope_wf(*scope, src),
    ensures
        res@ == search(*scope, pos.0 as int),
    decreases scope,
{
    let n = scope.inner.len();
    let mut i: usize = 0;
    while i < n
        invariant
            n == scope.inner@.len(),
            0 <= i <= n,
            scope_wf(*scope, src),
            search(*scope, pos.0 as int) == search_from(*scope, pos.0 as int, i as int),
        decreases n - i,
    {
        match &scope.inner[i] {
            Bind::Put(_, _) => {},
            Bind::Get(g) => {
                if g.span.begin.0 <= pos.0 && pos.0 <= g.span.end.0 {
                    let res = match lookup_bound(&scope.bound, &g.node) {
                        Some(span) => DefinitionLocation::Location(span),
                        None => DefinitionLocation::Name(&g.node),
                    };
                    return res;
                }
            },
            Bind::Flow => {},
            Bind::Scope(inner_scope) => match find_definition_in_scope(inner_scope, pos, Ghost(src)) {
                DefinitionLocation::Location(span) => {
                    return DefinitionLocation::Location(span);
                },
                DefinitionLocation::Name(missing_symbol) => {
                    return match lookup_bound(&scope.bound, missing_symbol) {
                        None => DefinitionLocation::Name(missing_symbol),
                        Some(span) => DefinitionLocation::Location(span),
                    };
                },
                DefinitionLocation::NotFound => {},
            },
        }
        i = i + 1;
    }
    DefinitionLocation::NotFound
}

/// A parsed module, as far as finding definitions needs it: its source text
/// and its scope tree.
pub struct AstModule {
    codemap: CodeMap,
    scope: Scope,
}

impl AstModule {
    #[verifier::type_invariant]
    spec fn inv(self) -> bool {
        scope_wf(self.scope, self.codemap@)
    }

    /// The source text of the module.
    pub closed spec fn spec_codemap(self) -> CodeMap {
        self.codemap
    }

    /// The scope of the module.
    pub closed spec fn spec_scope(self) -> Scope {
        self.scope
    }

    /// Puts together a module from its source text and its scope tree; `None`
    /// where a scope binds a name twice or at a span that does not lie within
    /// the source at character boundaries.
    pub fn new(codemap: CodeMap, scope: Scope) -> (res: Option<AstModule>)
        ensures
            res is Some <==> scope_wf(scope, codemap@),
            res matches Some(m) ==> m.spec_codemap() == codemap && m.spec_scope() == scope,
    {
        if check_scope(&scope, &codemap) {
            Some(AstModule { codemap, scope })
        } else {
            None
        }
    }

    /// The source text of the module.
    pub fn codemap(&self) -> (res: &CodeMap)
        ensures
            *res == self.spec_codemap(),
    {
        &self.codemap
    }

    /// Attempts to find the location where a symbol is defined in the module, or
    /// `None` if it was not defined anywhere in this file.
    ///
    /// `line` and `col` are zero based indexes of a location of the symbol to
    /// attempt to look up. The search handles scoping: a read of `foo` in a
    /// function resolves to the parameter `foo` of that function, even where
    /// there is a global called `foo`.
    pub fn find_definition(&self, line: u32, col: u32) -> (res: Option<ResolvedSpan>)
        requires
            (line as int) < line_count(self.spec_codemap()@),
        ensures
            res == definition_at(
                self.spec_codemap()@,
                self.spec_scope(),
                line as int,
                col as int,
            ),
    {
        proof {
            use_type_invariant(self);
        }
        let ghost src = self.codemap@;
        proof {
            lemma_line_starts_shape(src, src.len() as int);
            lemma_search_finds_binding(self.scope, cursor_pos(src, line as int, col as int), 0, src);
            lemma_bound_span_is_binding(
                self.scope,
                match search(self.scope, cursor_pos(src, line as int, col as int)) {
                    SearchResult::Name(name) => name,
                    _ => Seq::empty(),
                },
                src,
            );
        }
        let scope = &self.scope;
        let line_span = self.codemap.line_span(line as usize);
        let current_pos = if col < line_span.end.0 - line_span.begin.0 {
            Pos(line_span.begin.0 + col)
        } else {
            line_span.end
        };
        match find_definition_in_scope(scope, current_pos, Ghost(src)) {
            DefinitionLocation::Location(span) => Some(self.codemap.resolve_span(span)),
            DefinitionLocation::Name(missing_symbol) => match lookup_bound(
                &scope.bound,
                missing_symbol,
            ) {
                Some(span) => Some(self.codemap.resolve_span(span)),
                None => None,
            },
            DefinitionLocation::NotFound => None,
        }
    }
}

} // verus!
