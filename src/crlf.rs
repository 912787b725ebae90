//! Line endings: a text whose lines end in `\n` parses as the same text with
//! every `\n` written `\r\n`.
use vstd::prelude::*;
use crate::grammar::{
    add_pair, at_line_boundary, body_spec,
    document_spec, has_at, header_end, key_spec, key_stop, lemma_line_progress,
    lemma_section_end, lemma_skip_ws, line_pair, line_spec, name_stop, noted_value_end,
    parse_spec, scan_noted_value, section_spec, skip_ws, value_stop, LineResult, SectionResult,
};
use crate::scanner::{
    is_line_end_char, lemma_scan_line_end_bounds, lone_cr_at, scan_line, scan_line_end, ParseError,
};

verus! {

pub open spec fn crlf_piece(c: char) -> Seq<char> {
    if c == '\n' {
        seq!['\r', '\n']
    } else {
        seq![c]
    }
}

/// `s` with every `\n` written `\r\n`.
pub open spec fn crlf(s: Seq<char>) -> Seq<char>
    decreases s.len(),
{
    if s.len() == 0 {
        seq![]
    } else {
        crlf(s.drop_last()) + crlf_piece(s.last())
    }
}

/// Where the character at `i` of `s` stands in `crlf(s)`.
pub open spec fn crlf_pos(s: Seq<char>, i: int) -> int
    decreases i,
{
    if i <= 0 {
        0
    } else {
        crlf_pos(s, i - 1) + if s[i - 1] == '\n' {
            2int
        } else {
            1int
        }
    }
}

pub open spec fn no_cr(s: Seq<char>) -> bool {
    forall|i: int| 0 <= i < s.len() ==> s[i] != '\r'
}

/// A marker that holds no line ending.
pub open spec fn line_marker(m: Seq<char>) -> bool {
    m.len() > 0 && forall|k: int| 0 <= k < m.len() ==> !is_line_end_char(#[trigger] m[k])
}

proof fn lemma_pos_prefix(s: Seq<char>, r: Seq<char>, i: int)
    requires
        0 <= i <= r.len() <= s.len(),
        forall|k: int| 0 <= k < r.len() ==> r[k] == s[k],
    ensures
        crlf_pos(s, i) == crlf_pos(r, i),
    decreases i,
{
    if i > 0 {
        lemma_pos_prefix(s, r, i - 1);
    }
}

proof fn lemma_pos_mono(s: Seq<char>, i: int, j: int)
    requires
        0 <= i <= j,
    ensures
        crlf_pos(s, i) + (j - i) <= crlf_pos(s, j),
    decreases j,
{
    if j > i {
        lemma_pos_mono(s, i, j - 1);
    }
}

proof fn lemma_crlf_len(s: Seq<char>)
    ensures
        crlf(s).len() == crlf_pos(s, s.len() as int),
    decreases s.len(),
{
    if s.len() > 0 {
        let r = s.drop_last();
        lemma_crlf_len(r);
        lemma_pos_prefix(s, r, r.len() as int);
    }
}

/// The character at `i` and its image.
proof fn lemma_crlf_at(s: Seq<char>, i: int)
    requires
        0 <= i < s.len(),
    ensures
        crlf(s)[crlf_pos(s, i)] == (if s[i] == '\n' { '\r' } else { s[i] }),
        s[i] == '\n' ==> crlf(s)[crlf_pos(s, i) + 1] == '\n',
        crlf_pos(s, i + 1) == crlf_pos(s, i) + (if s[i] == '\n' { 2int } else { 1int }),
        crlf_pos(s, i + 1) <= crlf(s).len(),
        0 <= crlf_pos(s, i),
    decreases s.len(),
{
    let r = s.drop_last();
    lemma_crlf_len(r);
    lemma_crlf_len(s);
    lemma_pos_mono(s, 0, i);
    lemma_pos_mono(s, i + 1, s.len() as int);
    lemma_pos_prefix(s, r, r.len() as int);
    if i < r.len() {
        lemma_crlf_at(r, i);
        lemma_pos_prefix(s, r, i);
        lemma_pos_prefix(s, r, i + 1);
        lemma_pos_mono(r, i + 1, r.len() as int);
    } else {
        lemma_pos_prefix(s, r, i);
        assert(crlf(s) == crlf(r) + crlf_piece(s.last()));
    }
}

proof fn lemma_crlf_end(s: Seq<char>, i: int)
    requires
        0 <= i <= s.len(),
    ensures
        crlf_pos(s, i) <= crlf(s).len(),
        crlf_pos(s, i) == crlf(s).len() <==> i == s.len(),
        0 <= crlf_pos(s, i),
{
    lemma_crlf_len(s);
    lemma_pos_mono(s, 0, i);
    lemma_pos_mono(s, i, s.len() as int);
}

proof fn lemma_crlf_no_lone(s: Seq<char>, j: int)
    requires
        no_cr(s),
        0 <= j <= s.len(),
    ensures
        !lone_cr_at(crlf(s), crlf_pos(s, j)),
        !lone_cr_at(s, j),
{
    lemma_crlf_end(s, j);
    if j < s.len() {
        lemma_crlf_at(s, j);
    }
}

proof fn lemma_crlf_skip_ws(s: Seq<char>, i: int)
    requires
        no_cr(s),
        0 <= i <= s.len(),
    ensures
        skip_ws(crlf(s), crlf_pos(s, i)) == crlf_pos(s, skip_ws(s, i)),
    decreases s.len() - i,
{
    lemma_crlf_end(s, i);
    if i < s.len() {
        lemma_crlf_at(s, i);
        if is_blank_or_lf(s[i]) {
            lemma_crlf_skip_ws(s, i + 1);
        }
    }
}

pub open spec fn is_blank_or_lf(c: char) -> bool {
    c == ' ' || c == '\t' || c == '\n'
}

proof fn lemma_crlf_scan(s: Seq<char>, i: int, st: Seq<char>)
    requires
        no_cr(s),
        0 <= i <= s.len(),
        !st.contains('\r'),
    ensures
        scan_line_end(crlf(s), crlf_pos(s, i), st) == crlf_pos(s, scan_line_end(s, i, st)),
        scan_line(crlf(s), crlf_pos(s, i), st) == Ok::<int, ParseError>(crlf_pos(s, scan_line_end(s, i, st))),
        scan_line(s, i, st) == Ok::<int, ParseError>(scan_line_end(s, i, st)),
    decreases s.len() - i,
{
    lemma_crlf_end(s, i);
    lemma_scan_line_end_bounds(s, i, st);
    if i < s.len() {
        lemma_crlf_at(s, i);
        if !st.contains(s[i]) && !is_line_end_char(s[i]) {
            lemma_crlf_scan(s, i + 1, st);
        }
    }
    lemma_crlf_no_lone(s, scan_line_end(s, i, st));
}

proof fn lemma_crlf_match_fwd(s: Seq<char>, i: int, m: Seq<char>, k: int)
    requires
        line_marker(m),
        0 <= i,
        has_at(s, i, m),
        0 <= k <= m.len(),
    ensures
        crlf_pos(s, i + k) == crlf_pos(s, i) + k,
        forall|q: int| 0 <= q < k ==> crlf(s)[crlf_pos(s, i) + q] == #[trigger] m[q],
    decreases k,
{
    if k > 0 {
        lemma_crlf_match_fwd(s, i, m, k - 1);
        assert(s[i + k - 1] == s.subrange(i, i + m.len())[k - 1]);
        lemma_crlf_at(s, i + k - 1);
    }
}

proof fn lemma_crlf_match_back(s: Seq<char>, i: int, m: Seq<char>, k: int)
    requires
        line_marker(m),
        0 <= i <= s.len(),
        has_at(crlf(s), crlf_pos(s, i), m),
        0 <= k <= m.len(),
    ensures
        i + k <= s.len(),
        crlf_pos(s, i + k) == crlf_pos(s, i) + k,
        forall|q: int| 0 <= q < k ==> s[i + q] == #[trigger] m[q],
    decreases k,
{
    if k > 0 {
        let t = crlf(s);
        lemma_crlf_match_back(s, i, m, k - 1);
        let p = crlf_pos(s, i);
        assert(t[p + k - 1] == t.subrange(p, p + m.len())[k - 1]);
        lemma_crlf_end(s, i + k - 1);
        lemma_crlf_at(s, i + k - 1);
    }
}

proof fn lemma_crlf_has_at(s: Seq<char>, i: int, m: Seq<char>)
    requires
        line_marker(m),
        0 <= i <= s.len(),
    ensures
        has_at(crlf(s), crlf_pos(s, i), m) == has_at(s, i, m),
        has_at(s, i, m) ==> crlf_pos(s, i + m.len()) == crlf_pos(s, i) + m.len(),
{
    let t = crlf(s);
    let p = crlf_pos(s, i);
    lemma_crlf_end(s, i);
    if has_at(s, i, m) {
        lemma_crlf_match_fwd(s, i, m, m.len() as int);
        lemma_crlf_end(s, i + m.len());
        assert(t.subrange(p, p + m.len()) =~= m);
    }
    if has_at(t, p, m) {
        lemma_crlf_match_back(s, i, m, m.len() as int);
        assert(s.subrange(i, i + m.len()) =~= m);
    }
}

proof fn lemma_crlf_noted(s: Seq<char>, i: int, m: Seq<char>)
    requires
        no_cr(s),
        line_marker(m),
        0 <= i <= s.len(),
    ensures
        noted_value_end(crlf(s), crlf_pos(s, i), m) == crlf_pos(s, noted_value_end(s, i, m)),
        i <= noted_value_end(s, i, m) <= s.len(),
        forall|k: int| i <= k < noted_value_end(s, i, m) ==> !is_line_end_char(#[trigger] s[k]),
        scan_noted_value(s, i, m) == Ok::<int, ParseError>(noted_value_end(s, i, m)),
        scan_noted_value(crlf(s), crlf_pos(s, i), m) == Ok::<int, ParseError>(crlf_pos(s, noted_value_end(s, i, m))),
    decreases s.len() - i,
{
    lemma_crlf_end(s, i);
    lemma_crlf_has_at(s, i, m);
    if i < s.len() {
        lemma_crlf_at(s, i);
        if !(s[i] == '[' || s[i] == ']' || is_line_end_char(s[i]) || has_at(s, i, m)) {
            lemma_crlf_noted(s, i + 1, m);
        }
    }
    lemma_crlf_no_lone(s, noted_value_end(s, i, m));
}

proof fn lemma_crlf_run(s: Seq<char>, x: int, y: int)
    requires
        0 <= x <= y <= s.len(),
        forall|k: int| x <= k < y ==> !is_line_end_char(#[trigger] s[k]),
    ensures
        crlf_pos(s, y) == crlf_pos(s, x) + (y - x),
        forall|q: int| 0 <= q < y - x ==> crlf(s)[crlf_pos(s, x) + q] == #[trigger] s[x + q],
    decreases y - x,
{
    if y > x {
        lemma_crlf_run(s, x, y - 1);
        lemma_crlf_at(s, y - 1);
        assert(s[x + (y - 1 - x)] == s[y - 1]);
    }
}

proof fn lemma_crlf_sub(s: Seq<char>, x: int, y: int)
    requires
        0 <= x <= y <= s.len(),
        forall|k: int| x <= k < y ==> !is_line_end_char(#[trigger] s[k]),
    ensures
        crlf_pos(s, y) == crlf_pos(s, x) + (y - x),
        crlf(s).subrange(crlf_pos(s, x), crlf_pos(s, y)) == s.subrange(x, y),
{
    lemma_crlf_run(s, x, y);
    lemma_crlf_end(s, x);
    lemma_crlf_end(s, y);
    let t = crlf(s);
    assert forall|q: int| 0 <= q < y - x implies t.subrange(crlf_pos(s, x), crlf_pos(s, y))[q] == s.subrange(x, y)[q] by {
        assert(t[crlf_pos(s, x) + q] == s[x + q]);
    }
    assert(t.subrange(crlf_pos(s, x), crlf_pos(s, y)) =~= s.subrange(x, y));
}

proof fn lemma_stops(m: Seq<char>)
    requires
        line_marker(m),
    ensures
        !key_stop(m).contains('\r'),
        !name_stop(m).contains('\r'),
        !value_stop().contains('\r'),
        !Seq::<char>::empty().contains('\r'),
{
    assert(!is_line_end_char(m[0]));
    if key_stop(m).contains('\r') {
        let q = choose|q: int| 0 <= q < key_stop(m).len() && key_stop(m)[q] == '\r';
        assert(q == 0 || q == 1 || q == 2 || q == 3);
    }
    if name_stop(m).contains('\r') {
        let q = choose|q: int| 0 <= q < name_stop(m).len() && name_stop(m)[q] == '\r';
        assert(q == 0 || q == 1);
    }
    if value_stop().contains('\r') {
        let q = choose|q: int| 0 <= q < value_stop().len() && value_stop()[q] == '\r';
        assert(q == 0 || q == 1);
    }
}

/// The two classifications fail with the same kind of error, or succeed
/// with corresponding ends and the same key/value pair.
pub open spec fn crlf_line(s: Seq<char>, x: LineResult, y: LineResult) -> bool {
    match (x, y) {
        (Ok((p, e)), Ok((q, f))) => e == crlf_pos(s, f) && line_pair(p) == line_pair(q),
        (Err(u), Err(v)) => u.kind == v.kind,
        _ => false,
    }
}

proof fn lemma_crlf_line(s: Seq<char>, i: int, m: Seq<char>)
    requires
        no_cr(s),
        line_marker(m),
        0 <= i <= s.len(),
    ensures
        crlf_line(s, line_spec(crlf(s), crlf_pos(s, i), m), line_spec(s, i, m)),
{
    let t = crlf(s);
    let e0 = Seq::<char>::empty();
    assert(e0 =~= seq![]);
    lemma_stops(m);
    lemma_crlf_end(s, i);
    // the note candidate
    lemma_crlf_skip_ws(s, i);
    lemma_skip_ws(s, i);
    let b = skip_ws(s, i);
    lemma_crlf_no_lone(s, b);
    lemma_crlf_has_at(s, b, m);
    if has_at(s, b, m) {
        lemma_crlf_scan(s, b + m.len(), e0);
    }
    // the key
    lemma_crlf_scan(s, i, key_stop(m));
    lemma_scan_line_end_bounds(s, i, key_stop(m));
    let k = scan_line_end(s, i, key_stop(m));
    lemma_crlf_end(s, k);
    if k < s.len() {
        lemma_crlf_at(s, k);
    }
    if key_spec(s, i, m) is Ok {
        lemma_crlf_sub(s, i, k);
        lemma_crlf_noted(s, k + 1, m);
        let v = noted_value_end(s, k + 1, m);
        lemma_crlf_sub(s, k + 1, v);
        lemma_crlf_has_at(s, v, m);
        if has_at(s, v, m) {
            lemma_crlf_scan(s, v + m.len(), e0);
        }
        lemma_crlf_scan(s, k + 1, value_stop());
        lemma_scan_line_end_bounds(s, k + 1, value_stop());
        lemma_crlf_sub(s, k + 1, scan_line_end(s, k + 1, value_stop()));
    }
}

pub open spec fn crlf_body(
    s: Seq<char>,
    x: Result<(Map<Seq<char>, Seq<char>>, int), ParseError>,
    y: Result<(Map<Seq<char>, Seq<char>>, int), ParseError>,
) -> bool {
    match (x, y) {
        (Ok((a, e)), Ok((b, f))) => a == b && e == crlf_pos(s, f),
        (Err(u), Err(v)) => u.kind == v.kind,
        _ => false,
    }
}

proof fn lemma_crlf_body(s: Seq<char>, pos: int, m: Seq<char>, acc: Map<Seq<char>, Seq<char>>)
    requires
        no_cr(s),
        line_marker(m),
        0 <= pos <= s.len(),
    ensures
        crlf_body(s, body_spec(crlf(s), crlf_pos(s, pos), m, acc), body_spec(s, pos, m, acc)),
    decreases s.len() - pos,
{
    lemma_crlf_end(s, pos);
    lemma_crlf_skip_ws(s, pos);
    lemma_skip_ws(s, pos);
    let j = skip_ws(s, pos);
    lemma_crlf_end(s, j);
    if j < s.len() {
        lemma_crlf_at(s, j);
        if s[j] != '[' {
            lemma_crlf_line(s, j, m);
            if let Ok((l, e)) = line_spec(s, j, m) {
                lemma_line_progress(s, j, m);
                lemma_crlf_end(s, e);
                if e < s.len() {
                    lemma_crlf_at(s, e);
                }
                if at_line_boundary(s, e) {
                    lemma_crlf_body(s, e, m, add_pair(acc, line_pair(l)));
                }
            }
        }
    }
}

pub open spec fn crlf_section(s: Seq<char>, x: SectionResult, y: SectionResult) -> bool {
    match (x, y) {
        (Ok(None), Ok(None)) => true,
        (Ok(Some((n, a, e))), Ok(Some((n2, b, f)))) => n == n2 && a == b && e == crlf_pos(s, f),
        (Err(u), Err(v)) => u.kind == v.kind,
        _ => false,
    }
}

proof fn lemma_crlf_section(s: Seq<char>, i: int, m: Seq<char>)
    requires
        no_cr(s),
        line_marker(m),
        0 <= i <= s.len(),
    ensures
        crlf_section(s, section_spec(crlf(s), crlf_pos(s, i), m), section_spec(s, i, m)),
{
    let e0 = Seq::<char>::empty();
    assert(e0 =~= seq![]);
    lemma_stops(m);
    lemma_crlf_skip_ws(s, i);
    lemma_skip_ws(s, i);
    let j = skip_ws(s, i);
    lemma_crlf_end(s, j);
    if j < s.len() {
        lemma_crlf_at(s, j);
        if s[j] == '[' {
            lemma_crlf_scan(s, j + 1, name_stop(m));
            lemma_scan_line_end_bounds(s, j + 1, name_stop(m));
            let n = scan_line_end(s, j + 1, name_stop(m));
            lemma_crlf_end(s, n);
            if n < s.len() {
                lemma_crlf_at(s, n);
                if s[n] == ']' {
                    lemma_crlf_sub(s, j + 1, n);
                    lemma_crlf_end(s, n + 1);
                    lemma_crlf_has_at(s, n + 1, m);
                    if has_at(s, n + 1, m) {
                        lemma_crlf_scan(s, n + 1 + m.len(), e0);
                        lemma_scan_line_end_bounds(s, n + 1 + m.len(), e0);
                    }
                    if let Ok(h) = header_end(s, n + 1, m) {
                        lemma_crlf_body(s, h, m, Map::empty());
                    }
                }
            }
        }
    }
}

proof fn lemma_crlf_document(s: Seq<char>, pos: int, m: Seq<char>, acc: Map<Seq<char>, Map<Seq<char>, Seq<char>>>)
    requires
        no_cr(s),
        line_marker(m),
        0 <= pos <= s.len(),
    ensures
        match (document_spec(crlf(s), crlf_pos(s, pos), m, acc), document_spec(s, pos, m, acc)) {
            (Ok((a, e)), Ok((b, f))) => a == b && e == crlf_pos(s, f),
            (Err(u), Err(v)) => u.kind == v.kind,
            _ => false,
        },
    decreases s.len() - pos,
{
    lemma_crlf_end(s, pos);
    lemma_crlf_section(s, pos, m);
    lemma_section_end(s, pos, m);
    if let Ok(Some((name, a, end))) = section_spec(s, pos, m) {
        lemma_crlf_document(s, end, m, acc.insert(name, a));
    }
}

/// Line endings: a text without `\r` and the same text with every `\n`
/// written `\r\n` parse alike, for any marker without a line ending: both
/// give the same document, or both fail with the same kind of error.
pub proof fn lemma_crlf_equivalent(s: Seq<char>, m: Seq<char>)
    requires
        no_cr(s),
        line_marker(m),
    ensures
        parse_spec(crlf(s), m) is Ok <==> parse_spec(s, m) is Ok,
        parse_spec(s, m) is Ok ==> parse_spec(crlf(s), m)->Ok_0.0 == parse_spec(s, m)->Ok_0.0,
        parse_spec(s, m) is Err ==> parse_spec(crlf(s), m)->Err_0.kind == parse_spec(s, m)->Err_0.kind,
{
    lemma_crlf_document(s, 0, m, Map::empty());
}

} // verus!
