//! The grammar: line classification (notes and attributes), sections and
//! whole documents, all parametric in the note marker.
use vstd::prelude::*;
use crate::model::{Document, Section};
use crate::scanner::{
    agrees, fail, is_line_end, lemma_scan_line_end_bounds, lone_cr_at, scan_line, scan_line_end,
    scan_until_line_or, chars_of, string_of, ErrorKind, ParseError,
};

verus! {

// ---------------------------------------------------------------------------
// What the grammar recognizes, over the characters `s` of the input and the
// note marker `m`. Positions are character indices.
// ---------------------------------------------------------------------------

pub open spec fn is_blank(c: char) -> bool {
    c == ' ' || c == '\t'
}

/// Skips spaces, tabs, `\n` and `\r\n` pairs (a lone `\r` stops the skip).
pub open spec fn skip_ws(s: Seq<char>, i: int) -> int
    decreases s.len() - i,
{
    if 0 <= i < s.len() && (is_blank(s[i]) || s[i] == '\n') {
        skip_ws(s, i + 1)
    } else if 0 <= i && i + 1 < s.len() && s[i] == '\r' && s[i + 1] == '\n' {
        skip_ws(s, i + 2)
    } else {
        i
    }
}

/// `m` occurs in `s` at `i`.
pub open spec fn has_at(s: Seq<char>, i: int, m: Seq<char>) -> bool {
    0 <= i && i + m.len() <= s.len() && s.subrange(i, i + m.len()) == m
}

/// Characters that end a key: brackets, the separator and the marker's first character.
pub open spec fn key_stop(m: Seq<char>) -> Seq<char> {
    seq!['[', ']', ':', m[0]]
}

/// The end of the value of an attribute followed by a note: the first index
/// at or after `i` where the whole marker begins, a bracket stands or a line
/// ends, or the end of `s`.
pub open spec fn noted_value_end(s: Seq<char>, i: int, m: Seq<char>) -> int
    decreases s.len() - i,
{
    if i >= s.len() || s[i] == '[' || s[i] == ']' || crate::scanner::is_line_end_char(s[i])
        || has_at(s, i, m) {
        i
    } else {
        noted_value_end(s, i + 1, m)
    }
}

/// Scanning a noted value: its end, or a failure where it ends on a `\r`
/// that is no line terminator.
pub open spec fn scan_noted_value(s: Seq<char>, i: int, m: Seq<char>) -> Result<int, ParseError> {
    let j = noted_value_end(s, i, m);
    if lone_cr_at(s, j) {
        Err(fail(ErrorKind::MalformedLineEnding, j))
    } else {
        Ok(j)
    }
}

/// Characters that end the value of a bare attribute.
pub open spec fn value_stop() -> Seq<char> {
    seq!['[', ']']
}

/// Characters that end a section name.
pub open spec fn name_stop(m: Seq<char>) -> Seq<char> {
    seq![']', m[0]]
}

/// What one line means.
pub enum LineView {
    Attribute(Seq<char>, Seq<char>),
    AttributeWithNote(Seq<char>, Seq<char>, Seq<char>),
    Note(Seq<char>),
}

pub type LineResult = Result<(LineView, int), ParseError>;

/// A note: optional whitespace (line endings included), the marker, then
/// text up to the line ending. A bare `\r` where the whitespace ends is a
/// malformed line ending, whatever the marker.
pub open spec fn note_spec(s: Seq<char>, i: int, m: Seq<char>) -> LineResult {
    let b = skip_ws(s, i);
    if lone_cr_at(s, b) {
        Err(fail(ErrorKind::MalformedLineEnding, b))
    } else if !has_at(s, b, m) {
        Err(fail(ErrorKind::Unrecognized, b))
    } else {
        match scan_line(s, b + m.len(), seq![]) {
            Err(e) => Err(e),
            Ok(e) => Ok((LineView::Note(s.subrange(b + m.len(), e)), e)),
        }
    }
}

/// The index of the `:` that ends the key starting at `i`.
pub open spec fn key_spec(s: Seq<char>, i: int, m: Seq<char>) -> Result<int, ParseError> {
    match scan_line(s, i, key_stop(m)) {
        Err(e) => Err(e),
        Ok(k) => if k < s.len() && s[k] == ':' {
            Ok(k)
        } else {
            Err(fail(ErrorKind::MalformedAttribute, k))
        },
    }
}

/// `key:value`, then the marker, then a note up to the line ending.
pub open spec fn attribute_with_note_spec(s: Seq<char>, i: int, m: Seq<char>) -> LineResult {
    match key_spec(s, i, m) {
        Err(e) => Err(e),
        Ok(k) => match scan_noted_value(s, k + 1, m) {
            Err(e) => Err(e),
            Ok(v) => if !has_at(s, v, m) {
                Err(fail(ErrorKind::Unrecognized, v))
            } else {
                match scan_line(s, v + m.len(), seq![]) {
                    Err(e) => Err(e),
                    Ok(e) => Ok(
                        (
                            LineView::AttributeWithNote(
                                s.subrange(i, k),
                                s.subrange(k + 1, v),
                                s.subrange(v + m.len(), e),
                            ),
                            e,
                        ),
                    ),
                }
            },
        },
    }
}

/// `key:value`, the value running up to a bracket or the line ending.
pub open spec fn attribute_spec(s: Seq<char>, i: int, m: Seq<char>) -> LineResult {
    match key_spec(s, i, m) {
        Err(e) => Err(e),
        Ok(k) => match scan_line(s, k + 1, value_stop()) {
            Err(e) => Err(e),
            Ok(v) => Ok((LineView::Attribute(s.subrange(i, k), s.subrange(k + 1, v)), v)),
        },
    }
}

/// The line classifier: a note, else an attribute with a note, else a bare
/// attribute; the first that matches wins. A candidate that fails on a bare
/// `\r` ends the search with that failure; when none matches otherwise, the
/// bare attribute's failure is reported.
pub open spec fn line_spec(s: Seq<char>, i: int, m: Seq<char>) -> LineResult {
    match note_spec(s, i, m) {
        Ok(r) => Ok(r),
        Err(e) => if e.kind == ErrorKind::MalformedLineEnding {
            Err(e)
        } else {
            match attribute_with_note_spec(s, i, m) {
                Ok(r) => Ok(r),
                Err(e) => if e.kind == ErrorKind::MalformedLineEnding {
                    Err(e)
                } else {
                    attribute_spec(s, i, m)
                },
            }
        },
    }
}

/// The key/value pair that a line contributes, if any.
pub open spec fn line_pair(t: LineView) -> Option<(Seq<char>, Seq<char>)> {
    match t {
        LineView::Attribute(k, v) => Some((k, v)),
        LineView::AttributeWithNote(k, v, _) => Some((k, v)),
        LineView::Note(_) => None,
    }
}

pub open spec fn add_pair(
    acc: Map<Seq<char>, Seq<char>>,
    p: Option<(Seq<char>, Seq<char>)>,
) -> Map<Seq<char>, Seq<char>> {
    match p {
        Some((k, v)) => acc.insert(k, v),
        None => acc,
    }
}

/// Where a line's successor may begin: a line ending or the end of input.
pub open spec fn at_line_boundary(s: Seq<char>, e: int) -> bool {
    e >= s.len() || (e >= 0 && crate::scanner::is_line_end_char(s[e]))
}

/// The lines of a section body from `pos`, folded into `acc` (later keys
/// win). The body ends where, after whitespace, the input ends or a `[`
/// begins the next header; it returns the folded map and that end position
/// (before the skipped whitespace).
pub open spec fn body_spec(s: Seq<char>, pos: int, m: Seq<char>, acc: Map<Seq<char>, Seq<char>>) -> Result<
    (Map<Seq<char>, Seq<char>>, int),
    ParseError,
>
    decreases s.len() - pos,
    via body_decreases
{
    let j = skip_ws(s, pos);
    if pos < 0 || j >= s.len() || s[j] == '[' {
        Ok((acc, pos))
    } else {
        match line_spec(s, j, m) {
            Err(e) => Err(e),
            Ok((t, e)) => if !at_line_boundary(s, e) {
                Err(fail(ErrorKind::MalformedAttribute, e))
            } else {
                body_spec(s, e, m, add_pair(acc, line_pair(t)))
            },
        }
    }
}

pub proof fn lemma_skip_ws(s: Seq<char>, i: int)
    requires
        0 <= i,
    ensures
        i <= skip_ws(s, i),
        i <= s.len() ==> skip_ws(s, i) <= s.len(),
        skip_ws(s, i) < s.len() ==> !is_blank(s[skip_ws(s, i)]) && s[skip_ws(s, i)] != '\n'
            && !(s[skip_ws(s, i)] == '\r' && skip_ws(s, i) + 1 < s.len() && s[skip_ws(s, i) + 1] == '\n'),
    decreases s.len() - i,
{
    if i < s.len() && (is_blank(s[i]) || s[i] == '\n') {
        lemma_skip_ws(s, i + 1);
    } else if i + 1 < s.len() && s[i] == '\r' && s[i + 1] == '\n' {
        lemma_skip_ws(s, i + 2);
    }
}

pub proof fn lemma_scan_line_ok(s: Seq<char>, i: int, stop: Seq<char>)
    requires
        0 <= i <= s.len(),
    ensures
        scan_line(s, i, stop) is Ok ==> i <= scan_line(s, i, stop)->Ok_0 <= s.len(),
        scan_line(s, i, stop) is Err ==> scan_line(s, i, stop)->Err_0.kind == ErrorKind::MalformedLineEnding,
{
    lemma_scan_line_end_bounds(s, i, stop);
}

pub proof fn lemma_noted_value_end(s: Seq<char>, i: int, m: Seq<char>)
    requires
        0 <= i <= s.len(),
    ensures
        i <= noted_value_end(s, i, m) <= s.len(),
    decreases s.len() - i,
{
    if !(i >= s.len() || s[i] == '[' || s[i] == ']' || crate::scanner::is_line_end_char(s[i])
        || has_at(s, i, m)) {
        lemma_noted_value_end(s, i + 1, m);
    }
}

/// A line that starts on a character that is neither whitespace nor part of
/// a line ending consumes at least one character.
pub proof fn lemma_line_progress(s: Seq<char>, j: int, m: Seq<char>)
    requires
        0 <= j < s.len(),
        !is_blank(s[j]),
        s[j] != '\n',
        !(s[j] == '\r' && j + 1 < s.len() && s[j + 1] == '\n'),
        line_spec(s, j, m) is Ok,
    ensures
        j < line_spec(s, j, m)->Ok_0.1 <= s.len(),
{
    if note_spec(s, j, m) is Ok {
        let b = skip_ws(s, j);
        assert(b == j);
        lemma_scan_line_ok(s, b + m.len(), seq![]);
        lemma_scan_line_end_bounds(s, b + m.len(), seq![]);
        if m.len() == 0 {
            let e = scan_line_end(s, j, seq![]);
            if e == j {
                assert(crate::scanner::is_line_end_char(s[j]));
            }
        }
    } else {
        lemma_scan_line_ok(s, j, key_stop(m));
        let k = key_spec(s, j, m)->Ok_0;
        if attribute_with_note_spec(s, j, m) is Ok {
            lemma_noted_value_end(s, k + 1, m);
            let v = scan_noted_value(s, k + 1, m)->Ok_0;
            lemma_scan_line_ok(s, v + m.len(), seq![]);
        } else {
            lemma_scan_line_ok(s, k + 1, value_stop());
        }
    }
}

#[via_fn]
proof fn body_decreases(s: Seq<char>, pos: int, m: Seq<char>, acc: Map<Seq<char>, Seq<char>>) {
    let j = skip_ws(s, pos);
    if !(pos < 0 || j >= s.len() || s[j] == '[') {
        lemma_skip_ws(s, pos);
        if line_spec(s, j, m) is Ok {
            lemma_line_progress(s, j, m);
        }
    }
}

pub proof fn lemma_body_end(s: Seq<char>, pos: int, m: Seq<char>, acc: Map<Seq<char>, Seq<char>>)
    requires
        0 <= pos <= s.len(),
    ensures
        body_spec(s, pos, m, acc) is Ok ==> pos <= body_spec(s, pos, m, acc)->Ok_0.1 <= s.len(),
    decreases s.len() - pos,
{
    let j = skip_ws(s, pos);
    lemma_skip_ws(s, pos);
    if !(j >= s.len() || s[j] == '[') {
        if line_spec(s, j, m) is Ok {
            lemma_line_progress(s, j, m);
            let (t, e) = line_spec(s, j, m)->Ok_0;
            if at_line_boundary(s, e) {
                lemma_body_end(s, e, m, add_pair(acc, line_pair(t)));
            }
        }
    }
}

/// The end of a header line: past an optional note that follows `]`.
pub open spec fn header_end(s: Seq<char>, h: int, m: Seq<char>) -> Result<int, ParseError> {
    if has_at(s, h, m) {
        scan_line(s, h + m.len(), seq![])
    } else {
        Ok(h)
    }
}

pub type SectionResult = Result<Option<(Seq<char>, Map<Seq<char>, Seq<char>>, int)>, ParseError>;

/// A section from `i`: after whitespace, `[name]`, an optional note, then the
/// body. `Ok(None)` when no `[` follows the whitespace.
pub open spec fn section_spec(s: Seq<char>, i: int, m: Seq<char>) -> SectionResult {
    let j = skip_ws(s, i);
    if !(0 <= j < s.len() && s[j] == '[') {
        Ok(None)
    } else {
        match scan_line(s, j + 1, name_stop(m)) {
            Err(e) => Err(e),
            Ok(n) => if !(n < s.len() && s[n] == ']') {
                Err(fail(ErrorKind::MalformedHeader, n))
            } else {
                match header_end(s, n + 1, m) {
                    Err(e) => Err(e),
                    Ok(h) => match body_spec(s, h, m, Map::empty()) {
                        Err(e) => Err(e),
                        Ok((a, end)) => Ok(Some((s.subrange(j + 1, n), a, end))),
                    },
                }
            },
        }
    }
}

pub proof fn lemma_section_end(s: Seq<char>, i: int, m: Seq<char>)
    requires
        0 <= i <= s.len(),
    ensures
        section_spec(s, i, m) matches Ok(Some((_, _, end))) ==> i < end <= s.len(),
{
    let j = skip_ws(s, i);
    lemma_skip_ws(s, i);
    if 0 <= j < s.len() && s[j] == '[' {
        lemma_scan_line_ok(s, j + 1, name_stop(m));
        if let Ok(n) = scan_line(s, j + 1, name_stop(m)) {
            if n < s.len() && s[n] == ']' {
                if has_at(s, n + 1, m) {
                    lemma_scan_line_ok(s, n + 1 + m.len(), seq![]);
                }
                if let Ok(h) = header_end(s, n + 1, m) {
                    lemma_body_end(s, h, m, Map::empty());
                }
            }
        }
    }
}

pub type DocumentMap = Map<Seq<char>, Map<Seq<char>, Seq<char>>>;

/// The sections from `pos`, folded into `acc` (later names win); returns the
/// map and the position where no further section begins.
pub open spec fn document_spec(s: Seq<char>, pos: int, m: Seq<char>, acc: DocumentMap) -> Result<
    (DocumentMap, int),
    ParseError,
>
    decreases s.len() - pos,
    via document_decreases
{
    if !(0 <= pos <= s.len()) {
        Ok((acc, pos))
    } else {
        match section_spec(s, pos, m) {
            Err(e) => Err(e),
            Ok(None) => Ok((acc, pos)),
            Ok(Some((name, a, end))) => document_spec(s, end, m, acc.insert(name, a)),
        }
    }
}

#[via_fn]
proof fn document_decreases(s: Seq<char>, pos: int, m: Seq<char>, acc: DocumentMap) {
    if 0 <= pos <= s.len() {
        lemma_section_end(s, pos, m);
    }
}

/// The whole input: the document and the position where the unconsumed
/// residue begins.
pub open spec fn parse_spec(s: Seq<char>, m: Seq<char>) -> Result<(DocumentMap, int), ParseError> {
    document_spec(s, 0, m, Map::empty())
}

// ---------------------------------------------------------------------------
// The executable parser.
// ---------------------------------------------------------------------------

/// One classified line, as the classifier found it.
#[derive(Debug, PartialEq, Eq)]
pub enum AttributeOrNote {
    Attribute((String, String)),
    AttributeWithNote { attribute: (String, String), note: String },
    Note(String),
}

impl View for AttributeOrNote {
    type V = LineView;

    open spec fn view(&self) -> LineView {
        match self {
            AttributeOrNote::Attribute((k, v)) => LineView::Attribute(k@, v@),
            AttributeOrNote::AttributeWithNote { attribute: (k, v), note } => LineView::AttributeWithNote(
                k@,
                v@,
                note@,
            ),
            AttributeOrNote::Note(n) => LineView::Note(n@),
        }
    }
}

pub open spec fn agrees_line(r: Result<(AttributeOrNote, usize), ParseError>, t: LineResult) -> bool {
    match (r, t) {
        (Ok((a, e)), Ok((v, f))) => a@ == v && e as int == f,
        (Err(x), Err(y)) => x == y,
        _ => false,
    }
}

fn skip_ws_at(s: &[char], from: usize) -> (r: usize)
    requires
        from <= s.len(),
    ensures
        r == skip_ws(s@, from as int),
        from <= r <= s.len(),
{
    proof {
        lemma_skip_ws(s@, from as int);
    }
    let mut i = from;
    loop
        invariant
            from <= i <= s.len(),
            skip_ws(s@, i as int) == skip_ws(s@, from as int),
        decreases s.len() - i,
    {
        if i < s.len() && (s[i] == ' ' || s[i] == '\t' || s[i] == '\n') {
            i = i + 1;
        } else if i < s.len() && s[i] == '\r' && i + 1 < s.len() && s[i + 1] == '\n' {
            i = i + 2;
        } else {
            return i;
        }
    }
}

fn has_at_exec(s: &[char], i: usize, m: &[char]) -> (r: bool)
    requires
        i <= s.len(),
    ensures
        r == has_at(s@, i as int, m@),
{
    if m.len() > s.len() - i {
        return false;
    }
    let mut k: usize = 0;
    while k < m.len()
        invariant
            k <= m.len(),
            i + m.len() <= s.len(),
            forall|q: int| 0 <= q < k ==> s@[i + q] == m@[q],
        decreases m.len() - k,
    {
        if s[i + k] != m[k] {
            assert(s@.subrange(i as int, i + m.len())[k as int] != m@[k as int]);
            return false;
        }
        k = k + 1;
    }
    assert(s@.subrange(i as int, i + m.len()) =~= m@);
    true
}

fn scan_noted_value_at(s: &[char], from: usize, m: &[char]) -> (r: Result<usize, ParseError>)
    requires
        from <= s.len(),
    ensures
        agrees(r, scan_noted_value(s@, from as int, m@)),
        r is Ok ==> from <= r->Ok_0 <= s.len(),
{
    proof {
        lemma_noted_value_end(s@, from as int, m@);
    }
    let mut i = from;
    while i < s.len() && s[i] != '[' && s[i] != ']' && !is_line_end(s[i]) && !has_at_exec(s, i, m)
        invariant
            from <= i <= s.len(),
            noted_value_end(s@, i as int, m@) == noted_value_end(s@, from as int, m@),
        decreases s.len() - i,
    {
        i = i + 1;
    }
    if i < s.len() && s[i] == '\r' && !(i + 1 < s.len() && s[i + 1] == '\n') {
        Err(ParseError { kind: ErrorKind::MalformedLineEnding, position: i })
    } else {
        Ok(i)
    }
}

fn no_stop() -> (r: Vec<char>)
    ensures
        r@ == Seq::<char>::empty(),
{
    Vec::new()
}

fn parse_key(s: &[char], i: usize, m: &[char]) -> (r: Result<usize, ParseError>)
    requires
        i <= s.len(),
        m@.len() > 0,
    ensures
        agrees(r, key_spec(s@, i as int, m@)),
        r is Ok ==> i <= r->Ok_0 < s.len(),
{
    let stop = vec!['[', ']', ':', m[0]];
    assert(stop@ =~= key_stop(m@));
    match scan_until_line_or(s, i, stop.as_slice()) {
        Err(e) => Err(e),
        Ok(k) => {
            if k < s.len() && s[k] == ':' {
                Ok(k)
            } else {
                Err(ParseError { kind: ErrorKind::MalformedAttribute, position: k })
            }
        },
    }
}

/// A note line at `i` of `s`, with marker `m`.
pub fn parse_note(s: &[char], i: usize, m: &[char]) -> (r: Result<(AttributeOrNote, usize), ParseError>)
    requires
        i <= s.len(),
        m@.len() > 0,
    ensures
        agrees_line(r, note_spec(s@, i as int, m@)),
        r is Ok ==> i <= r->Ok_0.1 <= s.len(),
{
    let b = skip_ws_at(s, i);
    if b < s.len() && s[b] == '\r' && !(b + 1 < s.len() && s[b + 1] == '\n') {
        return Err(ParseError { kind: ErrorKind::MalformedLineEnding, position: b });
    }
    if !has_at_exec(s, b, m) {
        return Err(ParseError { kind: ErrorKind::Unrecognized, position: b });
    }
    let none = no_stop();
    let t = b + m.len();
    match scan_until_line_or(s, t, none.as_slice()) {
        Err(e) => Err(e),
        Ok(e) => Ok((AttributeOrNote::Note(string_of(s, t, e)), e)),
    }
}

/// `key:value` followed by the marker and a note, at `i` of `s`.
pub fn parse_attribute_with_note(s: &[char], i: usize, m: &[char]) -> (r: Result<(AttributeOrNote, usize), ParseError>)
    requires
        i <= s.len(),
        m@.len() > 0,
    ensures
        agrees_line(r, attribute_with_note_spec(s@, i as int, m@)),
        r is Ok ==> i <= r->Ok_0.1 <= s.len(),
{
    let k = match parse_key(s, i, m) {
        Err(e) => return Err(e),
        Ok(k) => k,
    };
    let v = match scan_noted_value_at(s, k + 1, m) {
        Err(e) => return Err(e),
        Ok(v) => v,
    };
    if !has_at_exec(s, v, m) {
        return Err(ParseError { kind: ErrorKind::Unrecognized, position: v });
    }
    let none = no_stop();
    let t = v + m.len();
    match scan_until_line_or(s, t, none.as_slice()) {
        Err(e) => Err(e),
        Ok(e) => {
            let key = string_of(s, i, k);
            let value = string_of(s, k + 1, v);
            let note = string_of(s, t, e);
            Ok((AttributeOrNote::AttributeWithNote { attribute: (key, value), note }, e))
        },
    }
}

/// A bare `key:value` at `i` of `s`.
pub fn parse_attribute(s: &[char], i: usize, m: &[char]) -> (r: Result<(AttributeOrNote, usize), ParseError>)
    requires
        i <= s.len(),
        m@.len() > 0,
    ensures
        agrees_line(r, attribute_spec(s@, i as int, m@)),
        r is Ok ==> i <= r->Ok_0.1 <= s.len(),
{
    let k = match parse_key(s, i, m) {
        Err(e) => return Err(e),
        Ok(k) => k,
    };
    let stop = vec!['[', ']'];
    assert(stop@ =~= value_stop());
    match scan_until_line_or(s, k + 1, stop.as_slice()) {
        Err(e) => Err(e),
        Ok(v) => {
            let key = string_of(s, i, k);
            let value = string_of(s, k + 1, v);
            Ok((AttributeOrNote::Attribute((key, value)), v))
        },
    }
}

/// The line classifier. Policy: the candidates are tried in the order note,
/// attribute with note, bare attribute; the first that matches wins. A
/// candidate that fails on a bare `\r` ends the search with that failure;
/// when none matches otherwise, the bare attribute's failure is the result.
pub fn parse_line(s: &[char], i: usize, m: &[char]) -> (r: Result<(AttributeOrNote, usize), ParseError>)
    requires
        i <= s.len(),
        m@.len() > 0,
    ensures
        agrees_line(r, line_spec(s@, i as int, m@)),
        r is Ok ==> i <= r->Ok_0.1 <= s.len(),
{
    match parse_note(s, i, m) {
        Ok(r) => return Ok(r),
        Err(e) => if e.kind == ErrorKind::MalformedLineEnding {
            return Err(e);
        },
    }
    match parse_attribute_with_note(s, i, m) {
        Ok(r) => return Ok(r),
        Err(e) => if e.kind == ErrorKind::MalformedLineEnding {
            return Err(e);
        },
    }
    parse_attribute(s, i, m)
}

/// The body of a section from `h`: its lines folded into a section, and
/// the position where the body ends.
pub fn parse_body(s: &[char], h: usize, m: &[char]) -> (r: Result<(Section, usize), ParseError>)
    requires
        h <= s.len(),
        m@.len() > 0,
    ensures
        match (r, body_spec(s@, h as int, m@, Map::empty())) {
            (Ok((sec, e)), Ok((a, f))) => sec.wf() && sec@ == a && e as int == f && e <= s.len(),
            (Err(x), Err(y)) => x == y,
            _ => false,
        },
{
    let mut acc = Section::new();
    let mut pos = h;
    loop
        invariant
            h <= pos <= s.len(),
            m@.len() > 0,
            acc.wf(),
            body_spec(s@, pos as int, m@, acc@) == body_spec(s@, h as int, m@, Map::empty()),
        decreases s.len() - pos,
    {
        let j = skip_ws_at(s, pos);
        if j >= s.len() || s[j] == '[' {
            return Ok((acc, pos));
        }
        proof {
            lemma_skip_ws(s@, pos as int);
        }
        match parse_line(s, j, m) {
            Err(e) => return Err(e),
            Ok((t, e)) => {
                proof {
                    lemma_line_progress(s@, j as int, m@);
                }
                if e < s.len() && !is_line_end(s[e]) {
                    return Err(ParseError { kind: ErrorKind::MalformedAttribute, position: e });
                }
                match t {
                    AttributeOrNote::Attribute((k, v)) => acc.insert(k, v),
                    AttributeOrNote::AttributeWithNote { attribute: (k, v), .. } => acc.insert(k, v),
                    AttributeOrNote::Note(_) => {},
                }
                pos = e;
            },
        }
    }
}

pub open spec fn agrees_section(r: Result<Option<(String, Section, usize)>, ParseError>, t: SectionResult) -> bool {
    match (r, t) {
        (Ok(None), Ok(None)) => true,
        (Ok(Some((n, sec, e))), Ok(Some((n2, a, f)))) => n@ == n2 && sec.wf() && sec@ == a && e as int == f,
        (Err(x), Err(y)) => x == y,
        _ => false,
    }
}

/// A section from `i` of `s`: `None` when, after whitespace, no `[` follows.
pub fn parse_section(s: &[char], i: usize, m: &[char]) -> (r: Result<Option<(String, Section, usize)>, ParseError>)
    requires
        i <= s.len(),
        m@.len() > 0,
    ensures
        agrees_section(r, section_spec(s@, i as int, m@)),
        r matches Ok(Some((_, _, e))) ==> i < e <= s.len(),
{
    proof {
        lemma_section_end(s@, i as int, m@);
    }
    let j = skip_ws_at(s, i);
    if !(j < s.len() && s[j] == '[') {
        return Ok(None);
    }
    let stop = vec![']', m[0]];
    assert(stop@ =~= name_stop(m@));
    let n = match scan_until_line_or(s, j + 1, stop.as_slice()) {
        Err(e) => return Err(e),
        Ok(n) => n,
    };
    if !(n < s.len() && s[n] == ']') {
        return Err(ParseError { kind: ErrorKind::MalformedHeader, position: n });
    }
    let h = if has_at_exec(s, n + 1, m) {
        let none = no_stop();
        match scan_until_line_or(s, n + 1 + m.len(), none.as_slice()) {
            Err(e) => return Err(e),
            Ok(h) => h,
        }
    } else {
        n + 1
    };
    match parse_body(s, h, m) {
        Err(e) => Err(e),
        Ok((sec, end)) => Ok(Some((string_of(s, j + 1, n), sec, end))),
    }
}

/// A whole document: its sections folded into a document (later names
/// win), and the position where the unconsumed residue begins.
pub fn parse_document(s: &[char], m: &[char]) -> (r: Result<(Document, usize), ParseError>)
    requires
        m@.len() > 0,
    ensures
        match (r, parse_spec(s@, m@)) {
            (Ok((d, e)), Ok((a, f))) => d.wf() && d@ == a && e as int == f && e <= s.len(),
            (Err(x), Err(y)) => x == y,
            _ => false,
        },
{
    let mut doc = Document::new();
    let mut pos: usize = 0;
    loop
        invariant
            pos <= s.len(),
            m@.len() > 0,
            doc.wf(),
            document_spec(s@, pos as int, m@, doc@) == parse_spec(s@, m@),
        decreases s.len() - pos,
    {
        match parse_section(s, pos, m) {
            Err(e) => return Err(e),
            Ok(None) => return Ok((doc, pos)),
            Ok(Some((name, sec, end))) => {
                doc.insert(name, sec);
                pos = end;
            },
        }
    }
}

// ---------------------------------------------------------------------------
// Entry points over text; each returns the unconsumed rest with its result.
// ---------------------------------------------------------------------------

/// The characters of `s` from `e` on.
pub open spec fn rest_from(s: Seq<char>, e: int) -> Seq<char> {
    s.subrange(e, s.len() as int)
}

pub open spec fn agrees_text_line(
    r: Result<(String, AttributeOrNote), ParseError>,
    s: Seq<char>,
    t: LineResult,
) -> bool {
    match (r, t) {
        (Ok((rest, a)), Ok((v, e))) => a@ == v && rest@ == rest_from(s, e),
        (Err(x), Err(y)) => x == y,
        _ => false,
    }
}

fn line_on_text(
    r: Result<(AttributeOrNote, usize), ParseError>,
    s: &Vec<char>,
    Ghost(t): Ghost<LineResult>,
) -> (o: Result<(String, AttributeOrNote), ParseError>)
    requires
        agrees_line(r, t),
        r is Ok ==> r->Ok_0.1 <= s.len(),
    ensures
        agrees_text_line(o, s@, t),
{
    match r {
        Err(e) => Err(e),
        Ok((a, e)) => Ok((string_of(s.as_slice(), e, s.len()), a)),
    }
}

/// A standalone note line, with marker `note_starting`.
pub fn custom_note(note_starting: &str, input: &str) -> (r: Result<(String, AttributeOrNote), ParseError>)
    requires
        note_starting@.len() > 0,
    ensures
        agrees_text_line(r, input@, note_spec(input@, 0, note_starting@)),
        lone_cr_at(input@, skip_ws(input@, 0)) ==> r == Err::<(String, AttributeOrNote), ParseError>(
            fail(ErrorKind::MalformedLineEnding, skip_ws(input@, 0)),
        ),
{
    let m = chars_of(note_starting);
    let s = chars_of(input);
    let r = parse_note(s.as_slice(), 0, m.as_slice());
    line_on_text(r, &s, Ghost(note_spec(input@, 0, note_starting@)))
}

/// `key:value`, then the marker `note_starting` and a note.
pub fn custom_attribute_with_note(note_starting: &str, input: &str) -> (r: Result<(String, AttributeOrNote), ParseError>)
    requires
        note_starting@.len() > 0,
    ensures
        agrees_text_line(r, input@, attribute_with_note_spec(input@, 0, note_starting@)),
{
    let m = chars_of(note_starting);
    let s = chars_of(input);
    let r = parse_attribute_with_note(s.as_slice(), 0, m.as_slice());
    line_on_text(r, &s, Ghost(attribute_with_note_spec(input@, 0, note_starting@)))
}

/// A bare `key:value`, keys stopping at the marker `note_starting` too.
pub fn custom_attribute(note_starting: &str, input: &str) -> (r: Result<(String, AttributeOrNote), ParseError>)
    requires
        note_starting@.len() > 0,
    ensures
        agrees_text_line(r, input@, attribute_spec(input@, 0, note_starting@)),
{
    let m = chars_of(note_starting);
    let s = chars_of(input);
    let r = parse_attribute(s.as_slice(), 0, m.as_slice());
    line_on_text(r, &s, Ghost(attribute_spec(input@, 0, note_starting@)))
}

pub open spec fn pair_view(p: Option<(String, String)>) -> Option<(Seq<char>, Seq<char>)> {
    match p {
        Some((k, v)) => Some((k@, v@)),
        None => None,
    }
}

/// One classified line: the key/value pair of an attribute, `None` for a note.
pub fn custom_attribute_or_note(note_starting: &str, input: &str) -> (r: Result<(String, Option<(String, String)>), ParseError>)
    requires
        note_starting@.len() > 0,
    ensures
        match (r, line_spec(input@, 0, note_starting@)) {
            (Ok((rest, p)), Ok((v, e))) => pair_view(p) == line_pair(v) && rest@ == rest_from(input@, e),
            (Err(x), Err(y)) => x == y,
            _ => false,
        },
{
    let m = chars_of(note_starting);
    let s = chars_of(input);
    match parse_line(s.as_slice(), 0, m.as_slice()) {
        Err(e) => Err(e),
        Ok((a, e)) => {
            let rest = string_of(s.as_slice(), e, s.len());
            let p = match a {
                AttributeOrNote::Attribute(kv) => Some(kv),
                AttributeOrNote::AttributeWithNote { attribute, .. } => Some(attribute),
                AttributeOrNote::Note(_) => None,
            };
            Ok((rest, p))
        },
    }
}

/// One section: its name and attributes. Fails with `Unrecognized` where no
/// `[` follows the leading whitespace.
pub fn custom_section(note_starting: &str, input: &str) -> (r: Result<(String, (String, Section)), ParseError>)
    requires
        note_starting@.len() > 0,
    ensures
        match (r, section_spec(input@, 0, note_starting@)) {
            (Ok((rest, (n, sec))), Ok(Some((n2, a, e)))) => n@ == n2 && sec.wf() && sec@ == a
                && rest@ == rest_from(input@, e),
            (Err(x), Ok(None)) => x == fail(ErrorKind::Unrecognized, skip_ws(input@, 0)),
            (Err(x), Err(y)) => x == y,
            _ => false,
        },
{
    let m = chars_of(note_starting);
    let s = chars_of(input);
    match parse_section(s.as_slice(), 0, m.as_slice()) {
        Err(e) => Err(e),
        Ok(None) => Err(ParseError { kind: ErrorKind::Unrecognized, position: skip_ws_at(s.as_slice(), 0) }),
        Ok(Some((n, sec, e))) => Ok((string_of(s.as_slice(), e, s.len()), (n, sec))),
    }
}

/// A whole document with marker `note_starting`: the unconsumed residue
/// (whatever follows the last section, when it begins no header) and the
/// document.
pub fn custom_document(note_starting: &str, input: &str) -> (r: Result<(String, Document), ParseError>)
    requires
        note_starting@.len() > 0,
    ensures
        match (r, parse_spec(input@, note_starting@)) {
            (Ok((rest, d)), Ok((a, e))) => d.wf() && d@ == a && rest@ == rest_from(input@, e),
            (Err(x), Err(y)) => x == y,
            _ => false,
        },
{
    let m = chars_of(note_starting);
    let s = chars_of(input);
    match parse_document(s.as_slice(), m.as_slice()) {
        Err(e) => Err(e),
        Ok((d, e)) => Ok((string_of(s.as_slice(), e, s.len()), d)),
    }
}

/// A whole document with marker `note_starting`; the residue is dropped.
pub fn parse_with_marker(note_starting: &str, input: &str) -> (r: Result<Document, ParseError>)
    requires
        note_starting@.len() > 0,
    ensures
        match (r, parse_spec(input@, note_starting@)) {
            (Ok(d), Ok((a, _))) => d.wf() && d@ == a,
            (Err(x), Err(y)) => x == y,
            _ => false,
        },
{
    let m = chars_of(note_starting);
    let s = chars_of(input);
    match parse_document(s.as_slice(), m.as_slice()) {
        Err(e) => Err(e),
        Ok((d, _)) => Ok(d),
    }
}

} // verus!
