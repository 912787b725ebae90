//! Bounded scanning: consuming a prefix of the input up to the first
//! character of a stop set, optionally also stopping at line endings.
use vstd::prelude::*;

verus! {

/// What went wrong, and where (as an index into the characters of the input).
#[derive(Clone, Copy, Debug, PartialEq, Eq, Structural)]
pub enum ErrorKind {
    /// A `[` without its closing `]` on the same line.
    MalformedHeader,
    /// A line that is neither a note nor `key:value`.
    MalformedAttribute,
    /// A `\r` that is not followed by `\n`.
    MalformedLineEnding,
    /// The input does not begin with the construct asked for; only the
    /// recognizers of a single construct report this.
    Unrecognized,
}

/// A parse failure: its kind and the character index at which it was found.
#[derive(Clone, Copy, Debug, PartialEq, Eq, Structural)]
pub struct ParseError {
    pub kind: ErrorKind,
    pub position: usize,
}

pub open spec fn fail(kind: ErrorKind, position: int) -> ParseError {
    ParseError { kind, position: position as usize }
}

/// The first index at or after `i` whose character lies in `stop`, or the
/// end of `s` when there is none.
pub open spec fn scan_end(s: Seq<char>, i: int, stop: Seq<char>) -> int
    decreases s.len() - i,
{
    if i >= s.len() || stop.contains(s[i]) {
        i
    } else {
        scan_end(s, i + 1, stop)
    }
}

pub open spec fn is_line_end_char(c: char) -> bool {
    c == '\n' || c == '\r'
}

/// The first index at or after `i` whose character lies in `stop` or ends a
/// line, or the end of `s` when there is none.
pub open spec fn scan_line_end(s: Seq<char>, i: int, stop: Seq<char>) -> int
    decreases s.len() - i,
{
    if i >= s.len() || stop.contains(s[i]) || is_line_end_char(s[i]) {
        i
    } else {
        scan_line_end(s, i + 1, stop)
    }
}

/// `\r` at `j` that does not begin a `\r\n` pair.
pub open spec fn lone_cr_at(s: Seq<char>, j: int) -> bool {
    0 <= j < s.len() && s[j] == '\r' && !(j + 1 < s.len() && s[j + 1] == '\n')
}

/// Scanning up to `stop` or a line ending: the end of the run, or a
/// failure where the run ends on a `\r` that is no line terminator.
pub open spec fn scan_line(s: Seq<char>, i: int, stop: Seq<char>) -> Result<int, ParseError> {
    let j = scan_line_end(s, i, stop);
    if lone_cr_at(s, j) {
        Err(fail(ErrorKind::MalformedLineEnding, j))
    } else {
        Ok(j)
    }
}

/// An executable result that agrees with a spec result.
pub open spec fn agrees(r: Result<usize, ParseError>, t: Result<int, ParseError>) -> bool {
    match (r, t) {
        (Ok(a), Ok(b)) => a as int == b,
        (Err(x), Err(y)) => x == y,
        _ => false,
    }
}

pub proof fn lemma_scan_end_bounds(s: Seq<char>, i: int, stop: Seq<char>)
    requires
        0 <= i <= s.len(),
    ensures
        i <= scan_end(s, i, stop) <= s.len(),
        scan_end(s, i, stop) < s.len() ==> stop.contains(s[scan_end(s, i, stop)]),
        forall|k: int| i <= k < scan_end(s, i, stop) ==> !stop.contains(#[trigger] s[k]),
    decreases s.len() - i,
{
    if i < s.len() && !stop.contains(s[i]) {
        lemma_scan_end_bounds(s, i + 1, stop);
    }
}

pub proof fn lemma_scan_line_end_bounds(s: Seq<char>, i: int, stop: Seq<char>)
    requires
        0 <= i <= s.len(),
    ensures
        i <= scan_line_end(s, i, stop) <= s.len(),
        scan_line_end(s, i, stop) < s.len() ==> (stop.contains(s[scan_line_end(s, i, stop)])
            || is_line_end_char(s[scan_line_end(s, i, stop)])),
        forall|k: int|
            i <= k < scan_line_end(s, i, stop) ==> !stop.contains(#[trigger] s[k])
                && !is_line_end_char(s[k]),
    decreases s.len() - i,
{
    if i < s.len() && !stop.contains(s[i]) && !is_line_end_char(s[i]) {
        lemma_scan_line_end_bounds(s, i + 1, stop);
    }
}

fn contains_char(set: &[char], c: char) -> (r: bool)
    ensures
        r == set@.contains(c),
{
    let mut k: usize = 0;
    while k < set.len()
        invariant
            k <= set.len(),
            forall|q: int| 0 <= q < k ==> set@[q] != c,
        decreases set.len() - k,
    {
        if set[k] == c {
            return true;
        }
        k = k + 1;
    }
    false
}

/// Consumes characters from `from` up to (not including) the first one in
/// `stop`, or to the end; returns the index where the run ends.
pub fn scan_until(s: &[char], from: usize, stop: &[char]) -> (r: usize)
    requires
        from <= s.len(),
    ensures
        r == scan_end(s@, from as int, stop@),
        from <= r <= s.len(),
{
    proof { lemma_scan_end_bounds(s@, from as int, stop@); }
    let mut i = from;
    while i < s.len() && !contains_char(stop, s[i])
        invariant
            from <= i <= s.len(),
            scan_end(s@, i as int, stop@) == scan_end(s@, from as int, stop@),
        decreases s.len() - i,
    {
        i = i + 1;
    }
    i
}

pub fn is_line_end(c: char) -> (r: bool)
    ensures
        r == is_line_end_char(c),
{
    c == '\n' || c == '\r'
}

/// Like [`scan_until`], but a line ending stops the run too; a `\r` at the
/// end of the run must begin `\r\n`, else the scan fails.
pub fn scan_until_line_or(s: &[char], from: usize, stop: &[char]) -> (r: Result<usize, ParseError>)
    requires
        from <= s.len(),
    ensures
        agrees(r, scan_line(s@, from as int, stop@)),
        r is Ok ==> from <= r->Ok_0 <= s.len(),
{
    proof {
        lemma_scan_line_end_bounds(s@, from as int, stop@);
    }
    let mut i = from;
    while i < s.len() && !is_line_end(s[i]) && !contains_char(stop, s[i])
        invariant
            from <= i <= s.len(),
            scan_line_end(s@, i as int, stop@) == scan_line_end(s@, from as int, stop@),
        decreases s.len() - i,
    {
        i = i + 1;
    }
    if i < s.len() && s[i] == '\r' && !(i + 1 < s.len() && s[i + 1] == '\n') {
        Err(ParseError { kind: ErrorKind::MalformedLineEnding, position: i })
    } else {
        Ok(i)
    }
}

/// Relies on `String::push`: it appends one character.
#[verifier::external_body]
fn push_char(s: &mut String, c: char)
    ensures
        final(s)@ == old(s)@.push(c),
{
    s.push(c);
}

/// The characters `from..to` of `s` as a string.
pub fn string_of(s: &[char], from: usize, to: usize) -> (r: String)
    requires
        from <= to <= s.len(),
    ensures
        r@ == s@.subrange(from as int, to as int),
{
    let mut r = String::new();
    let mut i = from;
    while i < to
        invariant
            from <= i <= to <= s.len(),
            r@ == s@.subrange(from as int, i as int),
        decreases to - i,
    {
        push_char(&mut r, s[i]);
        i = i + 1;
        assert(r@ =~= s@.subrange(from as int, i as int));
    }
    r
}

/// The characters of `text`.
pub fn chars_of(text: &str) -> (r: Vec<char>)
    ensures
        r@ == text@,
{
    let mut r: Vec<char> = Vec::new();
    for c in it: text.chars()
        invariant
            r@ == it.seq().take(it.index() as int),
    {
        r.push(c);
    }
    assert(r@ =~= text@);
    r
}

/// The text `input` split where the first character of `chars` occurs:
/// returns the rest (from that character on) and the consumed prefix.
pub fn without_chars(input: &str, chars: &str) -> (r: (String, String))
    ensures
        r.1@ == input@.subrange(0, scan_end(input@, 0, chars@)),
        r.0@ == input@.subrange(scan_end(input@, 0, chars@), input@.len() as int),
{
    let s = chars_of(input);
    let stop = chars_of(chars);
    let e = scan_until(s.as_slice(), 0, stop.as_slice());
    (string_of(s.as_slice(), e, s.len()), string_of(s.as_slice(), 0, e))
}

/// Like [`without_chars`], but a line ending stops the prefix too, and a
/// `\r` there that does not begin `\r\n` is an error.
pub fn without_chars_and_line_ending(input: &str, chars: &str) -> (r: Result<(String, String), ParseError>)
    ensures
        match (r, scan_line(input@, 0, chars@)) {
            (Ok((rest, taken)), Ok(e)) => taken@ == input@.subrange(0, e)
                && rest@ == input@.subrange(e, input@.len() as int),
            (Err(x), Err(y)) => x == y,
            _ => false,
        },
{
    let s = chars_of(input);
    let stop = chars_of(chars);
    match scan_until_line_or(s.as_slice(), 0, stop.as_slice()) {
        Err(e) => Err(e),
        Ok(e) => Ok((string_of(s.as_slice(), e, s.len()), string_of(s.as_slice(), 0, e))),
    }
}

} // verus!
