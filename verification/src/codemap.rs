//! Positions in a source text, and the lines and columns that they fall on.
use vstd::prelude::*;
use vstd::utf8::*;

verus! {

broadcast use vstd::utf8::encode_utf8_valid_utf8;

/// A byte offset into the source text of a `CodeMap`.
#[derive(Clone, Copy, Debug, PartialEq, Eq, Structural)]
pub struct Pos(pub u32);

impl Pos {
    pub fn new(x: u32) -> (p: Pos)
        ensures
            p.0 == x,
    {
        Pos(x)
    }

    pub fn get(self) -> (x: u32)
        ensures
            x == self.0,
    {
        self.0
    }
}

/// A range of byte offsets, `begin` included and `end` excluded.
#[derive(Clone, Copy, Debug, PartialEq, Eq, Structural)]
pub struct Span {
    pub begin: Pos,
    pub end: Pos,
}

impl Span {
    pub fn new(begin: Pos, end: Pos) -> (s: Span)
        requires
            begin.0 <= end.0,
        ensures
            s.begin == begin,
            s.end == end,
    {
        Span { begin, end }
    }

    pub fn begin(self) -> (p: Pos)
        ensures
            p == self.begin,
    {
        self.begin
    }

    pub fn end(self) -> (p: Pos)
        ensures
            p == self.end,
    {
        self.end
    }
}

/// A line and a column, both counted from zero; the column counts characters.
#[derive(Clone, Copy, Debug, PartialEq, Eq, Structural)]
pub struct LineCol {
    pub line: usize,
    pub column: usize,
}

/// A span given by the lines and columns of its two ends.
#[derive(Clone, Copy, Debug, PartialEq, Eq, Structural)]
pub struct ResolvedSpan {
    pub begin_line: usize,
    pub begin_column: usize,
    pub end_line: usize,
    pub end_column: usize,
}

pub open spec fn is_newline(b: u8) -> bool {
    b == 10u8
}

/// The offsets in `0..=n` at which a line of `src` begins: offset 0, and each
/// offset that directly follows a newline byte of `src.take(n)`, in increasing order.
pub open spec fn line_starts(src: Seq<u8>, n: int) -> Seq<int>
    decreases n,
{
    if n <= 0 {
        seq![0int]
    } else if is_newline(src[n - 1]) {
        line_starts(src, n - 1).push(n)
    } else {
        line_starts(src, n - 1)
    }
}

/// The offsets at which the lines of `src` begin.
pub open spec fn all_line_starts(src: Seq<u8>) -> Seq<int> {
    line_starts(src, src.len() as int)
}

/// The number of lines of `src`: one more than the number of its newline bytes.
pub open spec fn line_count(src: Seq<u8>) -> int {
    all_line_starts(src).len() as int
}

/// The offset at which line `l` of `src` begins.
pub open spec fn line_begin(src: Seq<u8>, l: int) -> int {
    all_line_starts(src)[l]
}

/// The offset at which line `l` of `src` ends: where the next line begins (so
/// the newline byte belongs to the line), or the end of `src` for the last line.
pub open spec fn line_end(src: Seq<u8>, l: int) -> int {
    if l + 1 < line_count(src) {
        all_line_starts(src)[l + 1]
    } else {
        src.len() as int
    }
}

/// The line that holds offset `pos`: the number of newline bytes before `pos`.
pub open spec fn line_of(src: Seq<u8>, pos: int) -> int {
    line_starts(src, pos).len() - 1
}

/// The offset at which the line holding `pos` begins.
pub open spec fn line_start_of(src: Seq<u8>, pos: int) -> int {
    line_starts(src, pos).last()
}

/// The number of characters that begin in `bytes`: its bytes that are not
/// continuation bytes of a UTF-8 encoding.
pub open spec fn char_count(bytes: Seq<u8>) -> int
    decreases bytes.len(),
{
    if bytes.len() == 0 {
        0
    } else if is_continuation_byte(bytes.last()) {
        char_count(bytes.drop_last())
    } else {
        char_count(bytes.drop_last()) + 1
    }
}

/// The column of offset `pos`: the number of characters between the start of its line and `pos`.
pub open spec fn column_of(src: Seq<u8>, pos: int) -> int {
    char_count(src.subrange(line_start_of(src, pos), pos))
}

/// The line and column of offset `pos` of `src`.
pub open spec fn line_col_of(src: Seq<u8>, pos: int) -> LineCol {
    LineCol { line: line_of(src, pos) as usize, column: column_of(src, pos) as usize }
}

/// The lines and columns of the two ends of `span`.
pub open spec fn resolved_span(src: Seq<u8>, span: Span) -> ResolvedSpan {
    ResolvedSpan {
        begin_line: line_of(src, span.begin.0 as int) as usize,
        begin_column: column_of(src, span.begin.0 as int) as usize,
        end_line: line_of(src, span.end.0 as int) as usize,
        end_column: column_of(src, span.end.0 as int) as usize,
    }
}

/// The line starts up to `n` begin with 0, increase strictly, and lie in `0..=n`.
pub proof fn lemma_line_starts_shape(src: Seq<u8>, n: int)
    requires
        0 <= n,
    ensures
        line_starts(src, n).len() >= 1,
        line_starts(src, n)[0] == 0,
        line_starts(src, n).len() <= n + 1,
        forall|k: int|
            0 <= k < line_starts(src, n).len() ==> 0 <= #[trigger] line_starts(src, n)[k] <= n,
        forall|a: int, b: int|
            0 <= a < b < line_starts(src, n).len() ==> #[trigger] line_starts(src, n)[a]
                < #[trigger] line_starts(src, n)[b],
    decreases n,
{
    if n > 0 {
        lemma_line_starts_shape(src, n - 1);
    }
}

/// The line starts up to `m` are the first line starts up to `n >= m`; the
/// remaining ones lie beyond `m`.
pub proof fn lemma_line_starts_prefix(src: Seq<u8>, m: int, n: int)
    requires
        0 <= m <= n,
    ensures
        line_starts(src, m).len() <= line_starts(src, n).len(),
        forall|k: int|
            0 <= k < line_starts(src, m).len() ==> #[trigger] line_starts(src, n)[k]
                == line_starts(src, m)[k],
        forall|k: int|
            line_starts(src, m).len() <= k < line_starts(src, n).len() ==> #[trigger] line_starts(
                src,
                n,
            )[k] > m,
    decreases n,
{
    if n > m {
        lemma_line_starts_prefix(src, m, n - 1);
    }
}

/// Law: the offsets from the start of a line up to its end (its newline byte
/// included, the end of the text for the last line) lie on that line.
pub proof fn law_offsets_of_line(src: Seq<u8>, l: int, p: int)
    requires
        0 <= l < line_count(src),
        line_begin(src, l) <= p,
        p < line_end(src, l) || (l + 1 == line_count(src) && p <= src.len()),
    ensures
        line_of(src, p) == l,
        line_start_of(src, p) == line_begin(src, l),
{
    let n = src.len() as int;
    lemma_line_starts_shape(src, n);
    lemma_line_starts_prefix(src, p, n);
    lemma_line_starts_shape(src, p);
    let c = line_starts(src, p).len() as int;
    if l >= c {
        assert(all_line_starts(src)[l] > p);
    }
    if l + 1 < c {
        assert(all_line_starts(src)[l + 1] == line_starts(src, p)[l + 1]);
    }
}

/// The line holding `p` begins at offset 0 or just after a newline byte, and no
/// newline byte lies between it and `p`.
proof fn lemma_line_start_of(src: Seq<u8>, p: int)
    requires
        0 <= p <= src.len(),
    ensures
        0 <= line_start_of(src, p) <= p,
        line_start_of(src, p) == 0 || src[line_start_of(src, p) - 1] == 10u8,
        forall|q: int| line_start_of(src, p) <= q < p ==> src[q] != 10u8,
    decreases p,
{
    if p > 0 {
        lemma_line_start_of(src, p - 1);
    }
}

/// Law: the start of the line that holds `p` is offset 0 or the offset just
/// after a newline byte, with no newline byte from there up to `p`; and line `l`
/// begins after exactly `l` newline bytes.
pub proof fn law_line_start_follows_newline(src: Seq<u8>, p: int, l: int)
    requires
        0 <= p <= src.len(),
        0 <= l < line_count(src),
    ensures
        0 <= line_start_of(src, p) <= p,
        line_start_of(src, p) == 0 || src[line_start_of(src, p) - 1] == 10u8,
        forall|q: int| line_start_of(src, p) <= q < p ==> src[q] != 10u8,
        count_newline_bytes(src.take(line_begin(src, l))) == l,
        line_begin(src, l) == 0 || src[line_begin(src, l) - 1] == 10u8,
        line_begin(src, l) <= line_end(src, l) <= src.len(),
{
    lemma_line_start_of(src, p);
    let n = src.len() as int;
    lemma_line_starts_shape(src, n);
    if l + 1 < line_count(src) {
        assert(all_line_starts(src)[l] < all_line_starts(src)[l + 1]);
    }
    let b = line_begin(src, l);
    law_offsets_of_line(src, l, b);
    law_lines_count_newline_bytes(src, b);
    lemma_line_start_of(src, b);
}

/// Law: a line begins at column 0 of that line.
pub proof fn law_line_begin_column_zero(src: Seq<u8>, l: int)
    requires
        0 <= l < line_count(src),
    ensures
        line_col_of(src, line_begin(src, l)) == (LineCol { line: l as usize, column: 0 }),
{
    let n = src.len() as int;
    lemma_line_starts_shape(src, n);
    if l + 1 < line_count(src) {
        assert(all_line_starts(src)[l] < all_line_starts(src)[l + 1]);
    }
    law_offsets_of_line(src, l, line_begin(src, l));
    assert(src.subrange(line_begin(src, l), line_begin(src, l)) =~= Seq::<u8>::empty());
}

/// The number of newline bytes (byte 10) in `s`.
pub open spec fn count_newline_bytes(s: Seq<u8>) -> int {
    s.filter(|b: u8| b == 10u8).len() as int
}

/// The line starts up to `n` are one more than the newline bytes among the first `n` bytes.
proof fn lemma_line_starts_count(src: Seq<u8>, n: int)
    requires
        0 <= n <= src.len(),
    ensures
        line_starts(src, n).len() == count_newline_bytes(src.take(n)) + 1,
    decreases n,
{
    reveal_with_fuel(Seq::<u8>::filter, 1);
    if n > 0 {
        lemma_line_starts_count(src, n - 1);
        assert(src.take(n).drop_last() =~= src.take(n - 1));
        assert(src.take(n).last() == src[n - 1]);
    } else {
        assert(src.take(n) =~= Seq::<u8>::empty());
    }
}

/// Law: the line of offset `p` is the number of newline bytes before `p`, and a
/// source has one line more than it has newline bytes.
pub proof fn law_lines_count_newline_bytes(src: Seq<u8>, p: int)
    requires
        0 <= p <= src.len(),
    ensures
        line_of(src, p) == count_newline_bytes(src.take(p)),
        line_count(src) == count_newline_bytes(src) + 1,
{
    lemma_line_starts_count(src, p);
    lemma_line_starts_count(src, src.len() as int);
    assert(src.take(src.len() as int) =~= src);
}

/// The characters that begin in a concatenation are those of its parts.
proof fn lemma_char_count_concat(a: Seq<u8>, b: Seq<u8>)
    ensures
        char_count(a + b) == char_count(a) + char_count(b),
    decreases b.len(),
{
    if b.len() == 0 {
        assert(a + b =~= a);
    } else {
        lemma_char_count_concat(a, b.drop_last());
        assert((a + b).drop_last() =~= a + b.drop_last());
        assert((a + b).last() == b.last());
    }
}

/// One character begins in the UTF-8 encoding of a character.
proof fn lemma_char_count_scalar(c: char)
    ensures
        char_count(encode_scalar(c as u32)) == 1,
{
    let s = c as u32;
    let e = encode_scalar(s);
    assert(e.len() >= 1);
    assert(0xc0u8 <= (0xC0u8 | (((s >> 6u32) & 0x1Fu32) as u8))) by (bit_vector);
    assert(0xe0u8 <= (0xE0u8 | (((s >> 12u32) & 0x0Fu32) as u8))) by (bit_vector);
    assert(0xf0u8 <= (0xF0u8 | (((s >> 18u32) & 0x7u32) as u8))) by (bit_vector);
    assert(((s & 0x7Fu32) as u8) <= 0x7fu8) by (bit_vector);
    assert(0x80u8 <= (0x80u8 | ((s & 0x3Fu32) as u8)) <= 0xbfu8) by (bit_vector);
    assert(0x80u8 <= (0x80u8 | (((s >> 6u32) & 0x3Fu32) as u8)) <= 0xbfu8) by (bit_vector);
    assert(0x80u8 <= (0x80u8 | (((s >> 12u32) & 0x3Fu32) as u8)) <= 0xbfu8) by (bit_vector);
    char_is_scalar(c);
    if has_width_1_encoding(s) {
        assert(e =~= seq![leading_byte_width_1(s)]);
    } else if has_width_2_encoding(s) {
        assert(e =~= seq![leading_byte_width_2(s), last_continuation_byte(s)]);
    } else if has_width_3_encoding(s) {
        assert(e =~= seq![leading_byte_width_3(s), second_last_continuation_byte(s), last_continuation_byte(s)]);
    } else {
        assert(has_width_4_encoding(s));
    }
    assert(!is_continuation_byte(e[0]));
    assert(forall|i: int| 1 <= i < e.len() ==> is_continuation_byte(#[trigger] e[i]));
    assert(e =~= seq![e[0]] + e.subrange(1, e.len() as int));
    lemma_char_count_concat(seq![e[0]], e.subrange(1, e.len() as int));
    lemma_char_count_continuations(e.subrange(1, e.len() as int));
    assert(seq![e[0]].drop_last() =~= Seq::<u8>::empty());
    assert(char_count(Seq::<u8>::empty()) == 0);
    assert(seq![e[0]].last() == e[0]);
    assert(char_count(seq![e[0]]) == 1);
}

/// No character begins in a run of continuation bytes.
proof fn lemma_char_count_continuations(t: Seq<u8>)
    requires
        forall|i: int| 0 <= i < t.len() ==> is_continuation_byte(#[trigger] t[i]),
    ensures
        char_count(t) == 0,
    decreases t.len(),
{
    if t.len() > 0 {
        assert(is_continuation_byte(t[t.len() - 1]));
        lemma_char_count_continuations(t.drop_last());
    }
}

/// At most every byte begins a character.
pub proof fn lemma_char_count_bounds(s: Seq<u8>)
    ensures
        0 <= char_count(s) <= s.len(),
    decreases s.len(),
{
    if s.len() > 0 {
        lemma_char_count_bounds(s.drop_last());
    }
}

/// Law: the UTF-8 encoding of `cs` counts as `cs.len()` characters, so the
/// column after a line prefix `cs` is the number of its characters, whatever
/// their widths.
pub proof fn law_char_count_of_encoding(cs: Seq<char>)
    ensures
        char_count(encode_utf8(cs)) == cs.len(),
    decreases cs.len(),
{
    if cs.len() > 0 {
        law_char_count_of_encoding(cs.drop_first());
        lemma_char_count_scalar(cs[0]);
        lemma_char_count_concat(encode_scalar(cs[0] as u32), encode_utf8(cs.drop_first()));
    }
}

/// A source text together with the offsets at which its lines begin.
pub struct CodeMap {
    filename: String,
    source: String,
    lines: Vec<Pos>,
}

impl View for CodeMap {
    type V = Seq<u8>;

    /// The UTF-8 bytes of the source text.
    closed spec fn view(&self) -> Seq<u8> {
        encode_utf8(self.source@)
    }
}

impl CodeMap {
    #[verifier::type_invariant]
    spec fn inv(self) -> bool {
        let src = encode_utf8(self.source@);
        &&& src.len() <= u32::MAX
        &&& self.lines@.len() == all_line_starts(src).len()
        &&& forall|k: int|
            0 <= k < self.lines@.len() ==> #[trigger] self.lines@[k].0 == all_line_starts(src)[k]
    }

    /// The name of the file that the source text came from.
    pub closed spec fn spec_filename(self) -> Seq<char> {
        self.filename@
    }

    /// Records `source` and the offsets at which its lines begin.
    pub fn new(filename: String, source: String) -> (res: CodeMap)
        requires
            encode_utf8(source@).len() <= u32::MAX,
        ensures
            res@ == encode_utf8(source@),
            res.spec_filename() == filename@,
    {
        let mut lines: Vec<Pos> = Vec::new();
        lines.push(Pos(0));
        {
            let bytes = source.as_str().as_bytes();
            let n = bytes.len();
            let ghost src = encode_utf8(source@);
            let mut i: usize = 0;
            while i < n
                invariant
                    bytes@ == src,
                    n == src.len(),
                    n <= u32::MAX,
                    0 <= i <= n,
                    lines@.len() == line_starts(src, i as int).len(),
                    forall|k: int|
                        0 <= k < lines@.len() ==> #[trigger] lines@[k].0 == line_starts(
                            src,
                            i as int,
                        )[k],
                decreases n - i,
            {
                if bytes[i] == 10u8 {
                    lines.push(Pos((i + 1) as u32));
                }
                i = i + 1;
            }
        }
        CodeMap { filename, source, lines }
    }

    /// The name of the file that the source text came from.
    pub fn filename(&self) -> (res: &str)
        ensures
            res@ == self.spec_filename(),
    {
        self.filename.as_str()
    }

    /// The number of lines of the source text.
    pub fn line_count(&self) -> (res: usize)
        ensures
            res == line_count(self@),
    {
        proof {
            use_type_invariant(self);
        }
        self.lines.len()
    }

    /// The span of the whole source text.
    pub fn full_span(&self) -> (res: Span)
        ensures
            res.begin.0 == 0,
            res.end.0 == self@.len(),
    {
        proof {
            use_type_invariant(self);
        }
        let n = self.source.as_str().len();
        Span { begin: Pos(0), end: Pos(n as u32) }
    }

    /// Whether offset `pos` is the start of a character or the end of the source text.
    pub fn is_char_boundary(&self, pos: Pos) -> (res: bool)
        ensures
            res == is_char_boundary(self@, pos.0 as int),
    {
        proof {
            use_type_invariant(self);
        }
        self.source.as_str().is_char_boundary(pos.0 as usize)
    }

    /// The line that holds offset `pos`.
    pub fn find_line(&self, pos: Pos) -> (line: usize)
        requires
            pos.0 <= self@.len(),
        ensures
            line == line_of(self@, pos.0 as int),
            line < line_count(self@),
    {
        proof {
            use_type_invariant(self);
        }
        let ghost src = self@;
        let ghost p = pos.0 as int;
        proof {
            lemma_line_starts_shape(src, src.len() as int);
            lemma_line_starts_shape(src, p);
            lemma_line_starts_prefix(src, p, src.len() as int);
        }
        let n = self.lines.len();
        let mut lo: usize = 0;
        let mut hi: usize = n;
        while lo + 1 < hi
            invariant
                n == self.lines@.len(),
                n == all_line_starts(src).len(),
                forall|k: int| 0 <= k < n ==> #[trigger] self.lines@[k].0 == all_line_starts(src)[k],
                lo < hi <= n,
                self.lines@[lo as int].0 <= pos.0,
                hi < n ==> self.lines@[hi as int].0 > pos.0,
            decreases hi - lo,
        {
            let mid = lo + (hi - lo) / 2;
            if self.lines[mid].0 <= pos.0 {
                lo = mid;
            } else {
                hi = mid;
            }
        }
        proof {
            let c = line_starts(src, p).len() as int;
            if lo as int >= c {
                assert(all_line_starts(src)[lo as int] > p);
            }
            if (lo as int) + 1 < c {
                assert(all_line_starts(src)[lo + 1] <= p);
            }
        }
        lo
    }

    /// The span of line `line`, its newline byte included.
    pub fn line_span(&self, line: usize) -> (res: Span)
        requires
            line < line_count(self@),
        ensures
            res.begin.0 == line_begin(self@, line as int),
            res.end.0 == line_end(self@, line as int),
    {
        proof {
            use_type_invariant(self);
        }
        let n = self.lines.len();
        let begin = self.lines[line];
        if line < n - 1 {
            Span { begin, end: self.lines[line + 1] }
        } else {
            let n = self.source.as_str().len();
            Span { begin, end: Pos(n as u32) }
        }
    }

    /// The line and column of offset `pos`.
    pub fn find_line_col(&self, pos: Pos) -> (res: LineCol)
        requires
            is_char_boundary(self@, pos.0 as int),
        ensures
            res == line_col_of(self@, pos.0 as int),
    {
        proof {
            use_type_invariant(self);
        }
        let ghost src = self@;
        let ghost p = pos.0 as int;
        proof {
            if p != 0 {
                assert(p <= src.len());
            }
            lemma_line_starts_shape(src, p);
            lemma_line_starts_prefix(src, p, src.len() as int);
        }
        let line = self.find_line(pos);
        let line_span = self.line_span(line);
        let begin = line_span.begin.0 as usize;
        let end = pos.0 as usize;
        let bytes = self.source.as_str().as_bytes();
        assert(begin == line_start_of(src, p));
        let mut column: usize = 0;
        let mut j: usize = begin;
        while j < end
            invariant
                bytes@ == src,
                begin <= j <= end <= src.len(),
                column <= j - begin,
                column == char_count(src.subrange(begin as int, j as int)),
            decreases end - j,
        {
            assert(src.subrange(begin as int, j + 1).drop_last() =~= src.subrange(
                begin as int,
                j as int,
            ));
            let b = bytes[j];
            if !(0x80u8 <= b && b <= 0xbfu8) {
                column = column + 1;
            }
            j = j + 1;
        }
        LineCol { line, column }
    }

    /// The lines and columns of the two ends of `span`.
    pub fn resolve_span(&self, span: Span) -> (res: ResolvedSpan)
        requires
            is_char_boundary(self@, span.begin.0 as int),
            is_char_boundary(self@, span.end.0 as int),
        ensures
            res == resolved_span(self@, span),
    {
        let begin = self.find_line_col(span.begin);
        let end = self.find_line_col(span.end);
        ResolvedSpan {
            begin_line: begin.line,
            begin_column: begin.column,
            end_line: end.line,
            end_column: end.column,
        }
    }
}

} // verus!
