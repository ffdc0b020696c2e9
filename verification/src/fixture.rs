//! Programs with named ranges marked by tags: `<name>` opens the range `name`
//! and `</name>` closes it. Removing the tags gives the program; the ranges are
//! resolved to lines and columns of that program.
use vstd::prelude::*;
use vstd::utf8::*;
use crate::codemap::{
    column_of, count_newline_bytes, law_lines_count_newline_bytes, lemma_char_count_bounds,
    lemma_line_starts_shape, line_start_of, resolved_span, CodeMap, Pos, ResolvedSpan, Span,
};
use vstd::std_specs::cmp::{PartialEqSpec, PartialEqSpecImpl};

verus! {

broadcast use {
    vstd::utf8::encode_utf8_valid_utf8,
    vstd::utf8::is_char_boundary_iff_not_is_continuation_byte,
    vstd::string::group_string_axioms,
};

/// Whether `c` is a word character of regular expressions (`\w`): a character
/// of the Unicode properties Alphabetic or Join_Control, or of the general
/// categories Decimal_Number, Mark or Connector_Punctuation.
pub uninterp spec fn is_word_char(c: char) -> bool;

/// Whether `c` is one of `_`, `0`-`9`, `a`-`z`, `A`-`Z`.
pub open spec fn is_ascii_word_char(c: char) -> bool {
    ||| c == '_'
    ||| ('0' as u32) <= (c as u32) <= ('9' as u32)
    ||| ('a' as u32) <= (c as u32) <= ('z' as u32)
    ||| ('A' as u32) <= (c as u32) <= ('Z' as u32)
}

/// `regex_syntax::is_word_character`: whether `c` is a Unicode word character.
/// Claimed: the result is `is_word_char(c)`, and among ASCII characters exactly
/// `_`, digits and letters are word characters (the crate answers for these
/// from a byte test and from its table, whose ASCII ranges are these).
/// It does not panic, since the crate's default features include its Perl
/// Unicode tables.
#[verifier::external_body]
fn word_character(c: char) -> (res: bool)
    ensures
        res == is_word_char(c),
        (c as u32) < 128 ==> (res == is_ascii_word_char(c)),
{
    regex_syntax::is_word_character(c)
}

/// The end of the run of word characters of `s` that starts at `j`.
pub open spec fn word_run_end(s: Seq<char>, j: int) -> int
    decreases s.len() - j,
{
    if j < 0 || j >= s.len() || !is_word_char(s[j]) {
        j
    } else {
        word_run_end(s, j + 1)
    }
}

/// The tag `<name>` or `</name>` of the pattern `<(/)?(\w+)>` that starts at
/// index `i` of `s`, if there is one: the index just after it, whether it is a
/// closing tag, and the name. As `/` is no word character, this is the match of
/// the pattern that starts at `i`, if any.
pub open spec fn tag_at(s: Seq<char>, i: int) -> Option<(int, bool, Seq<char>)> {
    if 0 <= i && i + 1 < s.len() && s[i] == '<' {
        let closing = s[i + 1] == '/';
        let j = if closing {
            i + 2
        } else {
            i + 1
        };
        let k = word_run_end(s, j);
        if j < k && k < s.len() && s[k] == '>' {
            Some((k + 1, closing, s.subrange(j, k)))
        } else {
            None
        }
    } else {
        None
    }
}

/// The number of bytes of the UTF-8 encoding of `s`.
pub open spec fn utf8_len(s: Seq<char>) -> int {
    encode_utf8(s).len() as int
}

/// The UTF-8 encoding of a concatenation is the concatenation of the encodings.
pub proof fn lemma_encode_utf8_concat(a: Seq<char>, b: Seq<char>)
    ensures
        encode_utf8(a + b) == encode_utf8(a) + encode_utf8(b),
    decreases a.len(),
{
    if a.len() == 0 {
        assert(a + b =~= b);
        assert(encode_utf8(a) + encode_utf8(b) =~= encode_utf8(b));
    } else {
        assert((a + b).drop_first() =~= a.drop_first() + b);
        assert((a + b)[0] == a[0]);
        lemma_encode_utf8_concat(a.drop_first(), b);
        assert(encode_utf8(a + b) =~= encode_utf8(a) + encode_utf8(b));
    }
}

/// The end of the encoding of a prefix is a character boundary of the encoding of the whole.
pub proof fn lemma_boundary_after_prefix(a: Seq<char>, b: Seq<char>)
    ensures
        is_char_boundary(encode_utf8(a + b), utf8_len(a)),
    decreases a.len(),
{
    if a.len() > 0 {
        let ab = a + b;
        let bytes = encode_utf8(ab);
        encode_utf8_first_scalar(ab);
        assert(ab[0] == a[0]);
        assert(ab.drop_first() =~= a.drop_first() + b);
        lemma_encode_utf8_concat(a.drop_first(), b);
        lemma_encode_utf8_concat(a, b);
        let l = length_of_first_scalar(bytes);
        assert(pop_first_scalar(bytes) =~= encode_utf8(a.drop_first() + b));
        lemma_boundary_after_prefix(a.drop_first(), b);
        assert(utf8_len(a) - l == utf8_len(a.drop_first()));
    }
}

/// A character boundary of the encoding of `a` stays one when more characters follow.
pub proof fn lemma_boundary_extends(a: Seq<char>, b: Seq<char>, x: int)
    requires
        is_char_boundary(encode_utf8(a), x),
    ensures
        is_char_boundary(encode_utf8(a + b), x),
        0 <= x <= utf8_len(a),
{
    let ea = encode_utf8(a);
    lemma_encode_utf8_concat(a, b);
    if x != 0 {
        assert(0 < x <= ea.len());
    }
    if x == utf8_len(a) {
        lemma_boundary_after_prefix(a, b);
    } else if x != 0 {
        assert(encode_utf8(a + b)[x] == ea[x]);
        is_char_boundary_iff_not_is_continuation_byte(ea, x);
        is_char_boundary_iff_not_is_continuation_byte(encode_utf8(a + b), x);
    }
}

/// A range as far as the scan has found it: its name, the byte offset in the
/// program where it opens, and where it closes, once it has.
pub struct RangeMark {
    pub name: Seq<char>,
    pub start: int,
    pub end: Option<int>,
}

/// Why a fixture is refused.
pub enum FixtureFault {
    /// A range is opened a second time.
    DuplicateOpenTag(Seq<char>),
    /// A range is closed that was never opened.
    ClosingTagWithoutOpenTag(Seq<char>),
}

/// The index of the first range named `name`, if any.
pub open spec fn first_range(ranges: Seq<RangeMark>, name: Seq<char>) -> Option<int> {
    if exists|k: int|
        0 <= k < ranges.len() && #[trigger] ranges[k].name == name && forall|j: int|
            0 <= j < k ==> ranges[j].name != name {
        Some(
            choose|k: int|
                0 <= k < ranges.len() && #[trigger] ranges[k].name == name && forall|j: int|
                    0 <= j < k ==> ranges[j].name != name,
        )
    } else {
        None
    }
}

/// Scans `s` from index `i` on, where `program` holds the text kept so far and
/// `ranges` the ranges found so far. A tag is dropped from the program; it opens
/// a range that is not open yet at the current length in bytes of the program,
/// or closes (again) an opened range there. Every other character is kept.
pub open spec fn scan_from(s: Seq<char>, i: int, program: Seq<char>, ranges: Seq<RangeMark>) -> Result<
    (Seq<char>, Seq<RangeMark>),
    FixtureFault,
>
    decreases s.len() - i,
{
    if i < 0 || i >= s.len() {
        Ok((program, ranges))
    } else {
        match tag_at(s, i) {
            None => scan_from(s, i + 1, program.push(s[i]), ranges),
            Some((end, closing, name)) => {
                let pos = utf8_len(program);
                match first_range(ranges, name) {
                    None => if closing {
                        Err(FixtureFault::ClosingTagWithoutOpenTag(name))
                    } else {
                        scan_from(
                            s,
                            end,
                            program,
                            ranges.push(RangeMark { name, start: pos, end: None }),
                        )
                    },
                    Some(k) => if closing {
                        scan_from(
                            s,
                            end,
                            program,
                            ranges.update(
                                k,
                                RangeMark { name: ranges[k].name, start: ranges[k].start, end: Some(pos) },
                            ),
                        )
                    } else {
                        Err(FixtureFault::DuplicateOpenTag(name))
                    },
                }
            },
        }
    }
}

/// The program and the ranges of the fixture `s`, or why it is refused.
pub open spec fn scan(s: Seq<char>) -> Result<(Seq<char>, Seq<RangeMark>), FixtureFault> {
    scan_from(s, 0, Seq::empty(), Seq::empty())
}

/// Law: a fixture without a `<` holds no tags: it is its own program, with no ranges.
pub proof fn law_fixture_without_tags(s: Seq<char>)
    requires
        forall|i: int| 0 <= i < s.len() ==> s[i] != '<',
    ensures
        scan(s) == Ok::<(Seq<char>, Seq<RangeMark>), FixtureFault>((s, Seq::empty())),
{
    lemma_scan_without_tags(s, 0);
    assert(s.take(0) =~= Seq::<char>::empty());
    assert(s.take(s.len() as int) =~= s);
}

/// Scanning from `i` a fixture without a `<` keeps every character.
proof fn lemma_scan_without_tags(s: Seq<char>, i: int)
    requires
        0 <= i <= s.len(),
        forall|j: int| 0 <= j < s.len() ==> s[j] != '<',
    ensures
        scan_from(s, i, s.take(i), Seq::empty()) == Ok::<(Seq<char>, Seq<RangeMark>), FixtureFault>(
            (s.take(s.len() as int), Seq::empty()),
        ),
    decreases s.len() - i,
{
    if i < s.len() {
        assert(s.take(i).push(s[i]) =~= s.take(i + 1));
        lemma_scan_without_tags(s, i + 1);
    } else {
        assert(s.take(i) =~= s.take(s.len() as int));
    }
}

/// Law: the run of word characters from `j` ends at the first character from
/// `j` on that is no word character, or at the end of `s`.
pub proof fn law_word_run_end(s: Seq<char>, j: int)
    requires
        0 <= j <= s.len(),
    ensures
        j <= word_run_end(s, j) <= s.len(),
        forall|q: int| j <= q < word_run_end(s, j) ==> is_word_char(#[trigger] s[q]),
        word_run_end(s, j) == s.len() || !is_word_char(s[word_run_end(s, j)]),
    decreases s.len() - j,
{
    if j < s.len() && is_word_char(s[j]) {
        law_word_run_end(s, j + 1);
    }
}

/// Law: a tag at `i` is `<`, an optional `/` (then it closes), a non-empty run of
/// word characters, which is its name, and `>`; and every such text is a tag.
pub proof fn law_tag_at(s: Seq<char>, i: int)
    requires
        0 <= i < s.len(),
    ensures
        tag_at(s, i) matches Some((e, closing, name)) ==> {
            let j = e - 1 - name.len();
            &&& s[i] == '<'
            &&& e <= s.len()
            &&& s[e - 1] == '>'
            &&& name.len() > 0
            &&& name == s.subrange(j, e - 1)
            &&& forall|q: int| j <= q < e - 1 ==> is_word_char(#[trigger] s[q])
            &&& (closing ==> j == i + 2 && s[i + 1] == '/')
            &&& (!closing ==> j == i + 1 && s[i + 1] != '/')
        },
        forall|k: int|
            i + 1 < k < s.len() && s[i] == '<' && s[i + 1] != '/' && s[k] == '>' && !is_word_char(
                s[k],
            ) && (forall|q: int| i + 1 <= q < k ==> is_word_char(#[trigger] s[q])) ==> tag_at(
                s,
                i,
            ) == Some((k + 1, false, s.subrange(i + 1, k))),
        forall|k: int|
            i + 2 < k < s.len() && s[i] == '<' && s[i + 1] == '/' && s[k] == '>' && !is_word_char(
                s[k],
            ) && (forall|q: int| i + 2 <= q < k ==> is_word_char(#[trigger] s[q])) ==> tag_at(
                s,
                i,
            ) == Some((k + 1, true, s.subrange(i + 2, k))),
{
    if i + 1 < s.len() {
        law_word_run_end(s, i + 1);
        if i + 2 <= s.len() {
            law_word_run_end(s, i + 2);
        }
        assert forall|k: int|
            i + 1 < k < s.len() && s[i] == '<' && s[i + 1] != '/' && s[k] == '>' && !is_word_char(
                s[k],
            ) && (forall|q: int| i + 1 <= q < k ==> is_word_char(#[trigger] s[q])) implies tag_at(
            s,
            i,
        ) == Some((k + 1, false, s.subrange(i + 1, k))) by {
            let w = word_run_end(s, i + 1);
            if w < k {
                assert(is_word_char(s[w]));
            }
            if w > k {
                assert(is_word_char(s[k]));
            }
        }
        assert forall|k: int|
            i + 2 < k < s.len() && s[i] == '<' && s[i + 1] == '/' && s[k] == '>' && !is_word_char(
                s[k],
            ) && (forall|q: int| i + 2 <= q < k ==> is_word_char(#[trigger] s[q])) implies tag_at(
            s,
            i,
        ) == Some((k + 1, true, s.subrange(i + 2, k))) by {
            let w = word_run_end(s, i + 2);
            if w < k {
                assert(is_word_char(s[w]));
            }
            if w > k {
                assert(is_word_char(s[k]));
            }
        }
    }
}

/// Scanning a stretch without `<` keeps its characters.
proof fn lemma_scan_stretch(
    s: Seq<char>,
    i: int,
    m: int,
    program: Seq<char>,
    ranges: Seq<RangeMark>,
)
    requires
        0 <= i <= m <= s.len(),
        forall|q: int| i <= q < m ==> s[q] != '<',
    ensures
        scan_from(s, i, program, ranges) == scan_from(s, m, program + s.subrange(i, m), ranges),
    decreases m - i,
{
    if i < m {
        lemma_scan_stretch(s, i + 1, m, program.push(s[i]), ranges);
        assert(program.push(s[i]) + s.subrange(i + 1, m) =~= program + s.subrange(i, m));
    } else {
        assert(program + s.subrange(i, m) =~= program);
    }
}

/// Law: in a fixture `x<n>y</n>z`, where `x`, `y` and `z` hold no `<` and the
/// name `n` is a non-empty run of word characters, the program is `xyz` and the
/// one range `n` spans the bytes of `y`.
pub proof fn law_fixture_with_one_range(x: Seq<char>, n: Seq<char>, y: Seq<char>, z: Seq<char>)
    requires
        forall|q: int| 0 <= q < x.len() ==> x[q] != '<',
        forall|q: int| 0 <= q < y.len() ==> y[q] != '<',
        forall|q: int| 0 <= q < z.len() ==> z[q] != '<',
        n.len() > 0,
        n[0] != '/',
        forall|q: int| 0 <= q < n.len() ==> is_word_char(#[trigger] n[q]),
        !is_word_char('>'),
    ensures
        scan(x + seq!['<'] + n + seq!['>'] + y + seq!['<', '/'] + n + seq!['>'] + z) == Ok::<
            (Seq<char>, Seq<RangeMark>),
            FixtureFault,
        >(
            (
                x + y + z,
                seq![RangeMark { name: n, start: utf8_len(x), end: Some(utf8_len(x + y)) }],
            ),
        ),
{
    let s = x + seq!['<'] + n + seq!['>'] + y + seq!['<', '/'] + n + seq!['>'] + z;
    let i0 = x.len() as int;
    let i1 = i0 + n.len() + 2;
    let i2 = i1 + y.len();
    let i3 = i2 + n.len() + 3;
    let e = s.len() as int;
    assert(e == i3 + z.len());
    assert forall|q: int| 0 <= q < i0 implies s[q] != '<' by {
        assert(s[q] == x[q]);
    }
    assert forall|q: int| i1 <= q < i2 implies s[q] != '<' by {
        assert(s[q] == y[q - i1]);
    }
    assert forall|q: int| i3 <= q < e implies s[q] != '<' by {
        assert(s[q] == z[q - i3]);
    }
    assert(s.subrange(0, i0) =~= x);
    assert(s.subrange(i0 + 1, i1 - 1) =~= n);
    assert(s.subrange(i1, i2) =~= y);
    assert(s.subrange(i2 + 2, i3 - 1) =~= n);
    assert(s.subrange(i3, e) =~= z);
    assert(s[i0] == '<');
    assert(s[i0 + 1] == n[0]);
    assert(s[i1 - 1] == '>');
    assert(s[i2] == '<');
    assert(s[i2 + 1] == '/');
    assert(s[i3 - 1] == '>');
    assert forall|q: int| i0 + 1 <= q < i1 - 1 implies is_word_char(#[trigger] s[q]) by {
        assert(s[q] == n[q - i0 - 1]);
    }
    assert forall|q: int| i2 + 2 <= q < i3 - 1 implies is_word_char(#[trigger] s[q]) by {
        assert(s[q] == n[q - i2 - 2]);
    }
    law_tag_at(s, i0);
    law_tag_at(s, i2);
    assert(tag_at(s, i0) == Some((i1, false, n)));
    assert(tag_at(s, i2) == Some((i3, true, n)));
    let empty = Seq::<char>::empty();
    lemma_scan_stretch(s, 0, i0, empty, Seq::empty());
    assert(empty + x =~= x);
    let m0 = RangeMark { name: n, start: utf8_len(x), end: None };
    let rs0 = Seq::<RangeMark>::empty().push(m0);
    assert(first_range(Seq::<RangeMark>::empty(), n) is None);
    assert(scan_from(s, i0, x, Seq::empty()) == scan_from(s, i1, x, rs0));
    lemma_scan_stretch(s, i1, i2, x, rs0);
    assert(rs0[0].name == n);
    assert(first_range(rs0, n) == Some(0int));
    let m1 = RangeMark { name: n, start: utf8_len(x), end: Some(utf8_len(x + y)) };
    assert(rs0.update(0, m1) =~= seq![m1]);
    assert(scan_from(s, i2, x + y, rs0) == scan_from(s, i3, x + y, seq![m1]));
    lemma_scan_stretch(s, i3, e, x + y, seq![m1]);
}

/// A range of a scanned fixture: its name and the byte offsets in the program
/// where it opens and where it closes, if it does.
#[derive(Debug, Clone)]
pub struct TagRange {
    pub name: String,
    pub start: usize,
    pub end: Option<usize>,
}

impl View for TagRange {
    type V = RangeMark;

    open spec fn view(&self) -> RangeMark {
        RangeMark {
            name: self.name@,
            start: self.start as int,
            end: match self.end {
                Some(e) => Some(e as int),
                None => None,
            },
        }
    }
}

/// A fixture with its tags removed, and the ranges that they marked in the order
/// in which they were opened.
#[derive(Debug, Clone)]
pub struct ScannedFixture {
    pub program: String,
    pub ranges: Vec<TagRange>,
}

impl View for ScannedFixture {
    type V = (Seq<char>, Seq<RangeMark>);

    open spec fn view(&self) -> (Seq<char>, Seq<RangeMark>) {
        (self.program@, self.ranges@.map_values(|r: TagRange| r@))
    }
}

/// Why a fixture is refused.
#[derive(Debug, Clone, PartialEq, Eq)]
pub enum FixtureError {
    /// A range is opened a second time.
    DuplicateOpenTag(String),
    /// A range is closed that was never opened.
    ClosingTagWithoutOpenTag(String),
}

impl View for FixtureError {
    type V = FixtureFault;

    open spec fn view(&self) -> FixtureFault {
        match self {
            FixtureError::DuplicateOpenTag(n) => FixtureFault::DuplicateOpenTag(n@),
            FixtureError::ClosingTagWithoutOpenTag(n) => FixtureFault::ClosingTagWithoutOpenTag(
                n@,
            ),
        }
    }
}

/// Names are distinct, every range opens before it closes, and both ends are
/// character boundaries of the encoding of `program`.
pub open spec fn marks_wf(program: Seq<char>, ranges: Seq<RangeMark>) -> bool {
    &&& forall|a: int, b: int|
        0 <= a < b < ranges.len() ==> #[trigger] ranges[a].name != #[trigger] ranges[b].name
    &&& forall|k: int|
        0 <= k < ranges.len() ==> is_char_boundary(encode_utf8(program), #[trigger] ranges[k].start)
    &&& forall|k: int|
        0 <= k < ranges.len() ==> (#[trigger] ranges[k].end matches Some(e) ==> ranges[k].start <= e
            && is_char_boundary(encode_utf8(program), e))
}

/// The characters of `s`.
fn collect_chars(s: &str) -> (res: Vec<char>)
    ensures
        res@ == s@,
{
    let mut v: Vec<char> = Vec::new();
    for c in it: s.chars()
        invariant
            v@ == it.seq().take(it.index() as int),
    {
        v.push(c);
    }
    v
}

/// The end of the run of word characters of `chars` that starts at `j`.
fn find_word_run_end(chars: &Vec<char>, j: usize) -> (k: usize)
    requires
        j <= chars@.len(),
    ensures
        k == word_run_end(chars@, j as int),
        j <= k <= chars@.len(),
{
    let n = chars.len();
    let mut k = j;
    while k < n
        invariant
            n == chars@.len(),
            j <= k <= n,
            word_run_end(chars@, j as int) == word_run_end(chars@, k as int),
        decreases n - k,
    {
        if !word_character(chars[k]) {
            return k;
        }
        k = k + 1;
    }
    k
}

/// The tag that starts at index `i` of `chars`, if any: the index just after it,
/// whether it closes, and where its name begins and ends.
fn find_tag(chars: &Vec<char>, i: usize) -> (res: Option<(usize, bool, usize, usize)>)
    requires
        i < chars@.len(),
    ensures
        match res {
            None => tag_at(chars@, i as int) is None,
            Some((end, closing, j, k)) => {
                &&& tag_at(chars@, i as int) == Some((end as int, closing, chars@.subrange(j as int, k as int)))
                &&& i < j < k < end <= chars@.len()
            },
        },
{
    let n = chars.len();
    if i + 1 < n && chars[i] == '<' {
        let closing = chars[i + 1] == '/';
        let j = if closing {
            i + 2
        } else {
            i + 1
        };
        let k = find_word_run_end(chars, j);
        if j < k && k < n && chars[k] == '>' {
            Some((k + 1, closing, j, k))
        } else {
            None
        }
    } else {
        None
    }
}

/// The index of the first range named `name`, if any.
fn find_range(ranges: &Vec<TagRange>, name: &String) -> (res: Option<usize>)
    ensures
        match res {
            None => first_range(ranges@.map_values(|r: TagRange| r@), name@) is None,
            Some(k) => first_range(ranges@.map_values(|r: TagRange| r@), name@) == Some(k as int),
        },
{
    let ghost rs = ranges@.map_values(|r: TagRange| r@);
    let n = ranges.len();
    let mut k: usize = 0;
    while k < n
        invariant
            n == ranges@.len(),
            rs == ranges@.map_values(|r: TagRange| r@),
            0 <= k <= n,
            forall|j: int| 0 <= j < k ==> rs[j].name != name@,
        decreases n - k,
    {
        if ranges[k].name == *name {
            proof {
                assert(rs[k as int].name == name@);
                let c = choose|c: int|
                    0 <= c < rs.len() && #[trigger] rs[c].name == name@ && forall|j: int|
                        0 <= j < c ==> rs[j].name != name@;
                if c < k as int {
                    assert(rs[c].name != name@);
                } else if c > k as int {
                    assert(rs[k as int].name != name@);
                }
            }
            return Some(k);
        }
        k = k + 1;
    }
    None
}

/// Removes the tags from `fixture` and records the ranges that they mark; an
/// error where a range is opened twice or closed without being opened.
pub fn scan_fixture(fixture: &str) -> (res: Result<ScannedFixture, FixtureError>)
    ensures
        match res {
            Ok(sf) => scan(fixture@) == Ok::<(Seq<char>, Seq<RangeMark>), FixtureFault>(sf@)
                && marks_wf(sf@.0, sf@.1) && utf8_len(sf@.0) <= utf8_len(fixture@),
            Err(e) => scan(fixture@) == Err::<(Seq<char>, Seq<RangeMark>), FixtureFault>(e@),
        },
{
    let ghost s = fixture@;
    let total = fixture.as_bytes().len();
    let chars = collect_chars(fixture);
    let n = chars.len();
    let mut program = String::new();
    let mut ranges: Vec<TagRange> = Vec::new();
    let mut fixture_idx: usize = 0;
    let mut i: usize = 0;
    let ghost mut prog: Seq<char> = Seq::empty();
    let ghost mut rs: Seq<RangeMark> = Seq::empty();
    proof {
        assert(program@ + s.subrange(0, 0) =~= prog);
        assert(ranges@.map_values(|r: TagRange| r@) =~= rs);
        assert(s.take(0) =~= Seq::<char>::empty());
    }
    while i < n
        invariant
            chars@ == s,
            fixture@ == s,
            n == s.len(),
            total == utf8_len(s),
            fixture_idx <= i <= n,
            program@ + s.subrange(fixture_idx as int, i as int) == prog,
            rs == ranges@.map_values(|r: TagRange| r@),
            scan(s) == scan_from(s, i as int, prog, rs),
            utf8_len(prog) <= utf8_len(s.take(i as int)),
            marks_wf(prog, rs),
            forall|k: int|
                0 <= k < rs.len() ==> #[trigger] rs[k].start <= utf8_len(prog) && (rs[k].end matches Some(
                    e,
                ) ==> e <= utf8_len(prog)),
        decreases n - i,
    {
        match find_tag(&chars, i) {
            None => {
                proof {
                    let c = s[i as int];
                    lemma_encode_utf8_concat(prog, seq![c]);
                    lemma_encode_utf8_concat(s.take(i as int), seq![c]);
                    assert(s.take(i + 1) =~= s.take(i as int) + seq![c]);
                    assert(prog.push(c) =~= prog + seq![c]);
                    assert(program@ + s.subrange(fixture_idx as int, i + 1) =~= prog.push(c));
                    assert forall|k: int| 0 <= k < rs.len() implies is_char_boundary(
                        encode_utf8(prog.push(c)),
                        #[trigger] rs[k].start,
                    ) by {
                        lemma_boundary_extends(prog, seq![c], rs[k].start);
                    }
                    assert forall|k: int| 0 <= k < rs.len() implies (#[trigger] rs[k].end matches Some(
                        e,
                    ) ==> is_char_boundary(encode_utf8(prog.push(c)), e)) by {
                        if let Some(e) = rs[k].end {
                            lemma_boundary_extends(prog, seq![c], e);
                        }
                    }
                    prog = prog.push(c);
                }
                i = i + 1;
            },
            Some((end, closing, j, k)) => {
                let piece = fixture.substring_char(fixture_idx, i);
                program.append(piece);
                let name = fixture.substring_char(j, k).to_owned();
                proof {
                    assert(program@ =~= prog);
                    lemma_encode_utf8_concat(s.take(i as int), s.skip(i as int));
                    assert(s.take(i as int) + s.skip(i as int) =~= s);
                    lemma_encode_utf8_concat(s.take(i as int), s.subrange(i as int, end as int));
                    assert(s.take(end as int) =~= s.take(i as int) + s.subrange(i as int, end as int));
                    is_char_boundary_start_end_of_seq(encode_utf8(prog));
                }
                let pos = program.as_str().len();
                match find_range(&ranges, &name) {
                    None => {
                        if closing {
                            return Err(FixtureError::ClosingTagWithoutOpenTag(name));
                        }
                        let ghost mark = RangeMark { name: name@, start: pos as int, end: None };
                        proof {
                            assert forall|a: int| 0 <= a < rs.len() implies #[trigger] rs[a].name
                                != name@ by {
                                if rs[a].name == name@ {
                                    assert(forall|b: int| 0 <= b < a ==> rs[b].name != rs[a].name);
                                }
                            }
                        }
                        ranges.push(TagRange { name, start: pos, end: None });
                        proof {
                            rs = rs.push(mark);
                            assert(ranges@.map_values(|r: TagRange| r@) =~= rs);
                        }
                    },
                    Some(r) => {
                        if !closing {
                            return Err(FixtureError::DuplicateOpenTag(name));
                        }
                        let updated = TagRange {
                            name: ranges[r].name.clone(),
                            start: ranges[r].start,
                            end: Some(pos),
                        };
                        let ghost mark = RangeMark {
                            name: rs[r as int].name,
                            start: rs[r as int].start,
                            end: Some(pos as int),
                        };
                        ranges.set(r, updated);
                        proof {
                            rs = rs.update(r as int, mark);
                            assert(ranges@.map_values(|r: TagRange| r@) =~= rs);
                        }
                    },
                }
                proof {
                    assert(program@ + s.subrange(end as int, end as int) =~= prog);
                }
                i = end;
                fixture_idx = end;
            },
        }
    }
    let rest = fixture.substring_char(fixture_idx, n);
    program.append(rest);
    proof {
        assert(s.take(n as int) =~= s);
    }
    Ok(ScannedFixture { program, ranges })
}

/// Every range is closed.
pub open spec fn all_closed(ranges: Seq<RangeMark>) -> bool {
    forall|k: int| 0 <= k < ranges.len() ==> #[trigger] ranges[k].end is Some
}

/// The span from where `r` opens to where it closes.
pub open spec fn mark_span(r: RangeMark) -> Span {
    Span {
        begin: Pos(r.start as u32),
        end: Pos(
            match r.end {
                Some(e) => e,
                None => r.start,
            } as u32,
        ),
    }
}

/// The ranges, each with the lines and columns of its span in `program`.
pub open spec fn resolved_marks(program: Seq<char>, ranges: Seq<RangeMark>) -> Seq<
    (Seq<char>, ResolvedSpan),
> {
    ranges.map_values(|r: RangeMark| (r.name, resolved_span(encode_utf8(program), mark_span(r))))
}

/// The span of the first range named `name`, if any.
pub open spec fn range_span(ranges: Seq<(Seq<char>, ResolvedSpan)>, name: Seq<char>) -> Option<
    ResolvedSpan,
> {
    if exists|k: int|
        0 <= k < ranges.len() && #[trigger] ranges[k].0 == name && forall|j: int|
            0 <= j < k ==> ranges[j].0 != name {
        let k = choose|k: int|
            0 <= k < ranges.len() && #[trigger] ranges[k].0 == name && forall|j: int|
                0 <= j < k ==> ranges[j].0 != name;
        Some(ranges[k].1)
    } else {
        None
    }
}

/// A fixture after parsing: its file name, the program with the tags removed,
/// and each named range with the lines and columns that it spans in the program,
/// in the order in which the ranges were opened. Two fixtures are equal when
/// their file names and programs are, and their ranges are equal as maps from
/// name to span, whatever their order.
#[derive(Debug, Clone, Eq)]
pub struct FixtureWithRanges {
    pub filename: String,
    pub program: String,
    pub ranges: Vec<(String, ResolvedSpan)>,
}

impl View for FixtureWithRanges {
    type V = (Seq<char>, Seq<char>, Seq<(Seq<char>, ResolvedSpan)>);

    open spec fn view(&self) -> (Seq<char>, Seq<char>, Seq<(Seq<char>, ResolvedSpan)>) {
        (
            self.filename@,
            self.program@,
            self.ranges@.map_values(|p: (String, ResolvedSpan)| (p.0@, p.1)),
        )
    }
}

/// Resolves the ranges of a scanned fixture to lines and columns of its program.
pub fn resolve_fixture(filename: &str, scanned: ScannedFixture) -> (res: FixtureWithRanges)
    requires
        marks_wf(scanned@.0, scanned@.1),
        all_closed(scanned@.1),
        utf8_len(scanned@.0) <= u32::MAX,
    ensures
        res@ == (filename@, scanned@.0, resolved_marks(scanned@.0, scanned@.1)),
{
    let ghost rs = scanned@.1;
    let ghost prog = scanned@.0;
    let code_map = CodeMap::new(filename.to_owned(), scanned.program.clone());
    let n = scanned.ranges.len();
    let mut spans: Vec<(String, ResolvedSpan)> = Vec::new();
    let mut i: usize = 0;
    while i < n
        invariant
            n == scanned.ranges@.len(),
            rs == scanned.ranges@.map_values(|r: TagRange| r@),
            prog == scanned.program@,
            code_map@ == encode_utf8(prog),
            marks_wf(prog, rs),
            all_closed(rs),
            utf8_len(prog) <= u32::MAX,
            0 <= i <= n,
            spans@.len() == i,
            forall|k: int|
                0 <= k < i ==> (#[trigger] spans@[k]).0@ == rs[k].name && spans@[k].1
                    == resolved_span(encode_utf8(prog), mark_span(rs[k])),
        decreases n - i,
    {
        let r = &scanned.ranges[i];
        proof {
            assert(rs[i as int] == r@);
            assert(rs[i as int].end is Some);
            lemma_boundary_extends(prog, Seq::empty(), r.start as int);
            lemma_boundary_extends(prog, Seq::empty(), r.end->0 as int);
            assert(prog + Seq::<char>::empty() =~= prog);
        }
        let end = r.end.unwrap();
        let span = Span::new(Pos::new(r.start as u32), Pos::new(end as u32));
        let resolved = code_map.resolve_span(span);
        spans.push((r.name.clone(), resolved));
        i = i + 1;
    }
    let res = FixtureWithRanges {
        filename: filename.to_owned(),
        program: scanned.program,
        ranges: spans,
    };
    proof {
        assert(res@.2 =~= resolved_marks(prog, rs));
    }
    res
}

/// Whether every range of `ranges` is closed.
fn check_all_closed(ranges: &Vec<TagRange>) -> (res: bool)
    ensures
        res == all_closed(ranges@.map_values(|r: TagRange| r@)),
{
    let ghost rs = ranges@.map_values(|r: TagRange| r@);
    let n = ranges.len();
    let mut i: usize = 0;
    while i < n
        invariant
            n == ranges@.len(),
            rs == ranges@.map_values(|r: TagRange| r@),
            0 <= i <= n,
            forall|k: int| 0 <= k < i ==> #[trigger] rs[k].end is Some,
        decreases n - i,
    {
        if ranges[i].end.is_none() {
            assert(rs[i as int].end is None);
            return false;
        }
        i = i + 1;
    }
    true
}

/// The span of the first range of `ranges` named `name`, if any.
fn find_range_span(ranges: &Vec<(String, ResolvedSpan)>, name: &String) -> (res: Option<
    ResolvedSpan,
>)
    ensures
        res == range_span(ranges@.map_values(|p: (String, ResolvedSpan)| (p.0@, p.1)), name@),
{
    let ghost rs = ranges@.map_values(|p: (String, ResolvedSpan)| (p.0@, p.1));
    let n = ranges.len();
    let mut k: usize = 0;
    while k < n
        invariant
            n == ranges@.len(),
            rs == ranges@.map_values(|p: (String, ResolvedSpan)| (p.0@, p.1)),
            0 <= k <= n,
            forall|j: int| 0 <= j < k ==> rs[j].0 != name@,
        decreases n - k,
    {
        if ranges[k].0 == *name {
            proof {
                assert(rs[k as int].0 == name@);
                let c = choose|c: int|
                    0 <= c < rs.len() && #[trigger] rs[c].0 == name@ && forall|j: int|
                        0 <= j < c ==> rs[j].0 != name@;
                if c < k as int {
                    assert(rs[c].0 != name@);
                } else if c > k as int {
                    assert(rs[k as int].0 != name@);
                }
            }
            return Some(ranges[k].1);
        }
        k = k + 1;
    }
    None
}

/// `a` and `b` hold the same ranges as maps from name to span compare: as many
/// entries, and each name of `a` looked up in `b` gives its span in `a`.
pub open spec fn same_ranges(
    a: Seq<(Seq<char>, ResolvedSpan)>,
    b: Seq<(Seq<char>, ResolvedSpan)>,
) -> bool {
    &&& a.len() == b.len()
    &&& forall|i: int| 0 <= i < a.len() ==> range_span(b, (#[trigger] a[i]).0) == Some(a[i].1)
}

impl PartialEq for FixtureWithRanges {
    fn eq(&self, other: &Self) -> (r: bool) {
        if !(self.filename == other.filename) || !(self.program == other.program) {
            return false;
        }
        let ghost a = self@.2;
        let ghost b = other@.2;
        let n = self.ranges.len();
        if n != other.ranges.len() {
            return false;
        }
        let mut i: usize = 0;
        while i < n
            invariant
                n == self.ranges@.len(),
                a == self@.2,
                b == other@.2,
                a.len() == b.len(),
                0 <= i <= n,
                forall|k: int| 0 <= k < i ==> range_span(b, (#[trigger] a[k]).0) == Some(a[k].1),
            decreases n - i,
        {
            match find_range_span(&other.ranges, &self.ranges[i].0) {
                Some(span) => {
                    if span != self.ranges[i].1 {
                        assert(range_span(b, a[i as int].0) != Some(a[i as int].1));
                        return false;
                    }
                },
                None => {
                    assert(range_span(b, a[i as int].0) != Some(a[i as int].1));
                    return false;
                },
            }
            i = i + 1;
        }
        true
    }
}

impl PartialEqSpecImpl for FixtureWithRanges {
    open spec fn obeys_eq_spec() -> bool {
        true
    }

    open spec fn eq_spec(&self, other: &FixtureWithRanges) -> bool {
        &&& self.filename@ == other.filename@
        &&& self.program@ == other.program@
        &&& same_ranges(self@.2, other@.2)
    }
}

/// Law: each range of a fixture is resolved by the lines and columns of its byte
/// span in the program: its lines are the numbers of newline bytes of the
/// program before its two ends.
pub proof fn law_resolved_marks_lines(program: Seq<char>, ranges: Seq<RangeMark>, k: int)
    requires
        marks_wf(program, ranges),
        all_closed(ranges),
        utf8_len(program) <= u32::MAX,
        0 <= k < ranges.len(),
    ensures
        resolved_marks(program, ranges).len() == ranges.len(),
        resolved_marks(program, ranges)[k].0 == ranges[k].name,
        resolved_marks(program, ranges)[k].1.begin_line == count_newline_bytes(
            encode_utf8(program).take(ranges[k].start),
        ),
        resolved_marks(program, ranges)[k].1.end_line == count_newline_bytes(
            encode_utf8(program).take(ranges[k].end->0),
        ),
        resolved_marks(program, ranges)[k].1.begin_column == column_of(
            encode_utf8(program),
            ranges[k].start,
        ),
        resolved_marks(program, ranges)[k].1.end_column == column_of(
            encode_utf8(program),
            ranges[k].end->0,
        ),
{
    let src = encode_utf8(program);
    let r = ranges[k];
    let e = r.end->0;
    assert(program + Seq::<char>::empty() =~= program);
    lemma_boundary_extends(program, Seq::empty(), r.start);
    lemma_boundary_extends(program, Seq::empty(), e);
    law_lines_count_newline_bytes(src, r.start);
    law_lines_count_newline_bytes(src, e);
    lemma_line_starts_shape(src, r.start);
    lemma_line_starts_shape(src, e);
    lemma_line_starts_shape(src, r.start);
    lemma_char_count_bounds(src.subrange(line_start_of(src, r.start), r.start));
    lemma_char_count_bounds(src.subrange(line_start_of(src, e), e));
}

/// Law: equal fixtures have the same file name and the same program, and each
/// range of one is found in the other with the same span.
pub proof fn law_equal_fixtures_agree(a: FixtureWithRanges, b: FixtureWithRanges)
    requires
        PartialEqSpec::eq_spec(&a, &b),
    ensures
        a.filename@ == b.filename@,
        a.program@ == b.program@,
        a.ranges@.len() == b.ranges@.len(),
        forall|i: int|
            0 <= i < a.ranges@.len() ==> range_span(b@.2, (#[trigger] a.ranges@[i]).0@)
                == Some(a.ranges@[i].1),
{
    assert forall|i: int| 0 <= i < a.ranges@.len() implies range_span(
        b@.2,
        (#[trigger] a.ranges@[i]).0@,
    ) == Some(a.ranges@[i].1) by {
        assert(a@.2[i] == (a.ranges@[i].0@, a.ranges@[i].1));
    }
}

/// Law: a fixture whose ranges have distinct names equals itself, and a fixture
/// with another file name or another program does not.
pub proof fn law_fixture_equality_reflexive(a: FixtureWithRanges, b: FixtureWithRanges)
    requires
        forall|i: int, j: int|
            0 <= i < j < a.ranges@.len() ==> (#[trigger] a.ranges@[i]).0@ != (#[trigger] a.ranges@[j]).0@,
    ensures
        PartialEqSpec::eq_spec(&a, &a),
        a.filename@ != b.filename@ || a.program@ != b.program@ ==> !PartialEqSpec::eq_spec(&a, &b),
{
    let rs = a@.2;
    assert forall|i: int| 0 <= i < rs.len() implies range_span(rs, (#[trigger] rs[i]).0) == Some(
        rs[i].1,
    ) by {
        assert(rs[i] == (a.ranges@[i].0@, a.ranges@[i].1));
        assert forall|j: int| 0 <= j < i implies rs[j].0 != rs[i].0 by {
            assert(rs[j] == (a.ranges@[j].0@, a.ranges@[j].1));
        }
        let c = choose|c: int|
            0 <= c < rs.len() && #[trigger] rs[c].0 == rs[i].0 && forall|j: int|
                0 <= j < c ==> rs[j].0 != rs[i].0;
        if c < i {
            assert(rs[c] == (a.ranges@[c].0@, a.ranges@[c].1));
        } else if c > i {
            assert(rs[i].0 != rs[i].0);
        }
    }
}

impl FixtureWithRanges {
    /// Parses a program that has markers in it indicating a "range" by name.
    ///
    /// Markers are `<name>` and `</name>` tags, where a name is a run of word
    /// characters. The program is the fixture with these markers removed. For example
    ///
    /// ```text
    /// load("foo.star", <a>"bar"</a>);
    ///
    /// x = 1
    /// <bar_highlight><bar_click>b</bar_click>ar</bar_highlight>(<x>x</x>)
    /// ```
    ///
    /// gives the program
    ///
    /// ```text
    /// load("foo.star", "bar");
    ///
    /// x = 1
    /// bar(x)
    /// ```
    ///
    /// and the ranges `a`: 0:17-0:22, `bar_highlight`: 3:0-3:3, `bar_click`: 3:0-3:1
    /// and `x`: 3:4-3:5.
    ///
    /// Every range that is opened must be closed.
    pub fn from_fixture(filename: &str, fixture: &str) -> (res: Result<FixtureWithRanges, FixtureError>)
        requires
            utf8_len(fixture@) <= u32::MAX,
            scan(fixture@) matches Ok((_, ranges)) ==> all_closed(ranges),
        ensures
            match scan(fixture@) {
                Ok((program, ranges)) => res matches Ok(f) && f@ == (
                    filename@,
                    program,
                    resolved_marks(program, ranges),
                ),
                Err(fault) => res matches Err(e) && e@ == fault,
            },
    {
        match scan_fixture(fixture) {
            Ok(scanned) => Ok(resolve_fixture(filename, scanned)),
            Err(e) => Err(e),
        }
    }

    /// `FixtureWithRanges::from_fixture`, where the fixture leaves a range open: `None`.
    pub fn try_from_fixture(filename: &str, fixture: &str) -> (res: Option<
        Result<FixtureWithRanges, FixtureError>,
    >)
        requires
            utf8_len(fixture@) <= u32::MAX,
        ensures
            res is None <==> (scan(fixture@) matches Ok((_, ranges)) && !all_closed(ranges)),
            res matches Some(r) ==> match scan(fixture@) {
                Ok((program, ranges)) => r matches Ok(f) && f@ == (
                    filename@,
                    program,
                    resolved_marks(program, ranges),
                ),
                Err(fault) => r matches Err(e) && e@ == fault,
            },
    {
        match scan_fixture(fixture) {
            Ok(scanned) => {
                if !check_all_closed(&scanned.ranges) {
                    return None;
                }
            },
            Err(_) => {},
        }
        Some(Self::from_fixture(filename, fixture))
    }

    /// The lines and columns of the range `identifier`, which must be present.
    pub fn span(&self, identifier: &str) -> (res: ResolvedSpan)
        requires
            range_span(self@.2, identifier@) is Some,
        ensures
            range_span(self@.2, identifier@) == Some(res),
    {
        let name = identifier.to_owned();
        find_range_span(&self.ranges, &name).unwrap()
    }

    /// The line at which the range `identifier` begins.
    pub fn begin_line(&self, identifier: &str) -> (res: u32)
        requires
            range_span(self@.2, identifier@) is Some,
        ensures
            res == (range_span(self@.2, identifier@)->0.begin_line as u32),
    {
        self.span(identifier).begin_line as u32
    }

    /// The column at which the range `identifier` begins.
    pub fn begin_column(&self, identifier: &str) -> (res: u32)
        requires
            range_span(self@.2, identifier@) is Some,
        ensures
            res == (range_span(self@.2, identifier@)->0.begin_column as u32),
    {
        self.span(identifier).begin_column as u32
    }
}

} // verus!
