//! Laws of the grammar, proved over its specification.
use vstd::prelude::*;
use crate::grammar::{
    add_pair, body_spec, document_spec, has_at, header_end,
    is_blank, key_stop, line_spec, name_stop, noted_value_end, parse_spec,
    line_pair, section_spec, skip_ws, value_stop, LineView,
};
use crate::model::map_of;
use crate::grammar::{
    attribute_with_note_spec, at_line_boundary, key_spec, lemma_line_progress,
    lemma_section_end, lemma_skip_ws, note_spec, scan_noted_value, LineResult,
};
use crate::scanner::{
    is_line_end_char, lemma_scan_line_end_bounds, lone_cr_at, scan_line, scan_line_end,
};

verus! {

/// `r` occurs in `s` at `p`.
pub open spec fn occurs_at(s: Seq<char>, p: int, r: Seq<char>) -> bool {
    0 <= p && p + r.len() <= s.len() && forall|t: int| 0 <= t < r.len() ==> s[p + t] == #[trigger] r[t]
}

/// A line terminator: `\n` or `\r\n`.
pub open spec fn eol_ok(eol: Seq<char>) -> bool {
    eol == seq!['\n'] || eol == seq!['\r', '\n']
}

/// The text of one line, ended by `eol`; notes are introduced by `m`.
pub open spec fn render_line(t: LineView, m: Seq<char>, eol: Seq<char>) -> Seq<char> {
    match t {
        LineView::Attribute(k, v) => k + seq![':'] + v + eol,
        LineView::AttributeWithNote(k, v, n) => k + seq![':'] + v + m + n + eol,
        LineView::Note(n) => m + n + eol,
    }
}

pub open spec fn render_lines(ls: Seq<LineView>, m: Seq<char>, eol: Seq<char>) -> Seq<char>
    decreases ls.len(),
{
    if ls.len() == 0 {
        seq![]
    } else {
        render_line(ls[0], m, eol) + render_lines(ls.drop_first(), m, eol)
    }
}

/// The header line of a section: `[name]`, an optional note, `eol`.
pub open spec fn render_header(name: Seq<char>, note: Option<Seq<char>>, m: Seq<char>, eol: Seq<char>) -> Seq<char> {
    seq!['['] + name + seq![']'] + match note {
        Some(n) => m + n,
        None => seq![],
    } + eol
}

/// A section as written: its name, the note on its header line, its lines.
pub type RenderedSection = (Seq<char>, Option<Seq<char>>, Seq<LineView>);

pub type Rendered = Seq<RenderedSection>;

pub open spec fn render_section(e: RenderedSection, m: Seq<char>, eol: Seq<char>) -> Seq<char> {
    render_header(e.0, e.1, m, eol) + render_lines(e.2, m, eol)
}

/// The text of a document: its sections one after another.
pub open spec fn render_document(d: Rendered, m: Seq<char>, eol: Seq<char>) -> Seq<char>
    decreases d.len(),
{
    if d.len() == 0 {
        seq![]
    } else {
        render_section(d[0], m, eol) + render_document(d.drop_first(), m, eol)
    }
}

/// The attributes that lines stand for: their pairs inserted in order, notes
/// contributing nothing.
pub open spec fn fold_lines(acc: Map<Seq<char>, Seq<char>>, ls: Seq<LineView>) -> Map<Seq<char>, Seq<char>>
    decreases ls.len(),
{
    if ls.len() == 0 {
        acc
    } else {
        fold_lines(add_pair(acc, line_pair(ls[0])), ls.drop_first())
    }
}

pub open spec fn section_map(e: RenderedSection) -> (Seq<char>, Map<Seq<char>, Seq<char>>) {
    (e.0, fold_lines(Map::empty(), e.2))
}

/// The document that written sections stand for; a later section of the
/// same name replaces an earlier one.
pub open spec fn document_of(d: Rendered) -> Map<Seq<char>, Map<Seq<char>, Seq<char>>> {
    map_of(d.map_values(|e: RenderedSection| section_map(e)))
}

pub open spec fn marker_ok(m: Seq<char>) -> bool {
    &&& m.len() > 0
    &&& m[0] != ':' && m[0] != '[' && !is_line_end_char(m[0]) && !is_blank(m[0])
}

pub open spec fn name_ok(n: Seq<char>, m: Seq<char>) -> bool {
    forall|t: int| 0 <= t < n.len() ==> #[trigger] n[t] != ']' && n[t] != m[0] && !is_line_end_char(n[t])
}

pub open spec fn key_ok(k: Seq<char>, m: Seq<char>) -> bool {
    &&& forall|t: int| 0 <= t < k.len() ==> #[trigger] k[t] != '[' && k[t] != ']' && k[t] != ':'
        && k[t] != m[0] && !is_line_end_char(k[t])
    &&& k.len() > 0 ==> !is_blank(k[0])
}

pub open spec fn value_ok(v: Seq<char>, m: Seq<char>) -> bool {
    forall|t: int| 0 <= t < v.len() ==> #[trigger] v[t] != '[' && v[t] != ']' && v[t] != m[0]
        && !is_line_end_char(v[t])
}

pub open spec fn note_ok(n: Seq<char>) -> bool {
    forall|t: int| 0 <= t < n.len() ==> !is_line_end_char(#[trigger] n[t])
}

pub open spec fn line_ok(t: LineView, m: Seq<char>) -> bool {
    match t {
        LineView::Attribute(k, v) => key_ok(k, m) && value_ok(v, m),
        LineView::AttributeWithNote(k, v, n) => key_ok(k, m) && value_ok(v, m) && note_ok(n),
        LineView::Note(n) => note_ok(n),
    }
}

pub open spec fn section_ok(e: RenderedSection, m: Seq<char>) -> bool {
    &&& name_ok(e.0, m)
    &&& e.1 matches Some(n) ==> note_ok(n)
    &&& forall|i: int| 0 <= i < e.2.len() ==> line_ok(#[trigger] e.2[i], m)
}

pub open spec fn document_ok(d: Rendered, m: Seq<char>) -> bool {
    forall|i: int| 0 <= i < d.len() ==> section_ok(#[trigger] d[i], m)
}

/// Inserting the entries in order, from the front.
pub open spec fn fold_pairs<V>(acc: Map<Seq<char>, V>, a: Seq<(Seq<char>, V)>) -> Map<Seq<char>, V>
    decreases a.len(),
{
    if a.len() == 0 {
        acc
    } else {
        fold_pairs(acc.insert(a[0].0, a[0].1), a.drop_first())
    }
}

proof fn lemma_fold_push<V>(acc: Map<Seq<char>, V>, a: Seq<(Seq<char>, V)>, p: (Seq<char>, V))
    ensures
        fold_pairs(acc, a.push(p)) == fold_pairs(acc, a).insert(p.0, p.1),
    decreases a.len(),
{
    if a.len() == 0 {
        assert(a.push(p).drop_first() =~= a);
        assert(a.push(p)[0] == p);
        assert(fold_pairs(acc.insert(p.0, p.1), a) == acc.insert(p.0, p.1));
    } else {
        assert(a.push(p).drop_first() =~= a.drop_first().push(p));
        assert(a.push(p)[0] == a[0]);
        lemma_fold_push(acc.insert(a[0].0, a[0].1), a.drop_first(), p);
    }
}

proof fn lemma_fold_is_map_of<V>(a: Seq<(Seq<char>, V)>)
    ensures
        fold_pairs(Map::empty(), a) == map_of(a),
    decreases a.len(),
{
    if a.len() > 0 {
        lemma_fold_is_map_of(a.drop_last());
        lemma_fold_push(Map::empty(), a.drop_last(), a.last());
        assert(a.drop_last().push(a.last()) =~= a);
    }
}

proof fn lemma_occurs_split(s: Seq<char>, p: int, a: Seq<char>, b: Seq<char>)
    requires
        occurs_at(s, p, a + b),
    ensures
        occurs_at(s, p, a),
        occurs_at(s, p + a.len(), b),
{
    assert forall|t: int| 0 <= t < a.len() implies s[p + t] == #[trigger] a[t] by {
        assert((a + b)[t] == a[t]);
    }
    assert forall|t: int| 0 <= t < b.len() implies s[p + a.len() + t] == #[trigger] b[t] by {
        assert((a + b)[a.len() + t] == b[t]);
    }
}

proof fn lemma_scan_line_run(s: Seq<char>, i: int, j: int, stop: Seq<char>)
    requires
        0 <= i <= j < s.len(),
        forall|k: int| i <= k < j ==> !stop.contains(#[trigger] s[k]) && !is_line_end_char(s[k]),
        stop.contains(s[j]) || is_line_end_char(s[j]),
    ensures
        scan_line_end(s, i, stop) == j,
    decreases j - i,
{
    if i < j {
        lemma_scan_line_run(s, i + 1, j, stop);
    }
}

proof fn lemma_contains4(st: Seq<char>, c: char)
    requires
        st.len() == 4 || st.len() == 3 || st.len() == 2,
    ensures
        st.contains(c) <==> (st[0] == c || st[1] == c || (st.len() > 2 && st[2] == c) || (st.len() > 3
            && st[3] == c)),
{
    if st.contains(c) {
        let q = choose|q: int| 0 <= q < st.len() && st[q] == c;
        assert(q == 0 || q == 1 || q == 2 || q == 3);
    }
    if st[0] == c {
        assert(st.contains(c));
    } else if st[1] == c {
        assert(st.contains(c));
    } else if st.len() > 2 && st[2] == c {
        assert(st.contains(c));
    } else if st.len() > 3 && st[3] == c {
        assert(st.contains(c));
    }
}

proof fn lemma_scan_copy(s: Seq<char>, p: int, r: Seq<char>, stop: Seq<char>)
    requires
        occurs_at(s, p, r),
        p + r.len() < s.len(),
        forall|t: int| 0 <= t < r.len() ==> !stop.contains(#[trigger] r[t]) && !is_line_end_char(r[t]),
        stop.contains(s[p + r.len()]) || is_line_end_char(s[p + r.len()]),
    ensures
        scan_line_end(s, p, stop) == p + r.len(),
        s.subrange(p, p + r.len()) == r,
{
    assert forall|k: int| p <= k < p + r.len() implies !stop.contains(#[trigger] s[k]) && !is_line_end_char(s[k]) by {
        assert(s[p + (k - p)] == r[k - p]);
    }
    lemma_scan_line_run(s, p, p + r.len(), stop);
    assert forall|t: int| 0 <= t < r.len() implies s.subrange(p, p + r.len())[t] == r[t] by {
        assert(s[p + t] == r[t]);
    }
    assert(s.subrange(p, p + r.len()) =~= r);
}

/// Facts of a line terminator that occurs at `q`.
proof fn lemma_eol(s: Seq<char>, q: int, eol: Seq<char>)
    requires
        eol_ok(eol),
        occurs_at(s, q, eol),
    ensures
        q < s.len(),
        is_line_end_char(s[q]),
        !lone_cr_at(s, q),
        skip_ws(s, q) == skip_ws(s, q + eol.len()),
{
    assert(s[q + 0] == eol[0]);
    if eol.len() == 2 {
        assert(s[q + 1] == eol[1]);
    }
}

/// Whitespace skipping stays on a character that is neither whitespace nor
/// a line ending.
proof fn lemma_skip_none(s: Seq<char>, p: int)
    requires
        0 <= p,
        p == s.len() || (p < s.len() && !is_blank(s[p]) && !is_line_end_char(s[p])),
    ensures
        skip_ws(s, p) == p,
{
}

proof fn lemma_not_at(s: Seq<char>, q: int, m: Seq<char>)
    requires
        marker_ok(m),
        0 <= q < s.len(),
        s[q] != m[0],
    ensures
        !has_at(s, q, m),
{
    if has_at(s, q, m) {
        assert(s.subrange(q, q + m.len())[0] == s[q]);
    }
}

/// A value that holds no bracket, line ending or marker character runs up to
/// the position `p + v.len()`, when a stop stands there.
proof fn lemma_noted_copy(s: Seq<char>, p: int, v: Seq<char>, m: Seq<char>)
    requires
        marker_ok(m),
        value_ok(v, m),
        occurs_at(s, p, v),
        p + v.len() < s.len(),
        s[p + v.len()] == '[' || s[p + v.len()] == ']' || is_line_end_char(s[p + v.len()])
            || has_at(s, p + v.len(), m),
    ensures
        noted_value_end(s, p, m) == p + v.len(),
        s.subrange(p, p + v.len()) == v,
    decreases v.len(),
{
    if v.len() > 0 {
        assert(s[p + 0] == v[0]);
        lemma_not_at(s, p, m);
        let w = v.drop_first();
        assert forall|t: int| 0 <= t < w.len() implies s[p + 1 + t] == #[trigger] w[t] by {
            assert(s[p + (t + 1)] == v[t + 1]);
        }
        assert(value_ok(w, m)) by {
            assert forall|t: int| 0 <= t < w.len() implies #[trigger] w[t] != '[' && w[t] != ']' && w[t] != m[0] && !is_line_end_char(w[t]) by {
                assert(w[t] == v[t + 1]);
            }
        }
        lemma_noted_copy(s, p + 1, w, m);
    }
    assert forall|t: int| 0 <= t < v.len() implies s.subrange(p, p + v.len())[t] == v[t] by {
        assert(s[p + t] == v[t]);
    }
    assert(s.subrange(p, p + v.len()) =~= v);
}

proof fn lemma_empty_stop(c: char)
    ensures
        !Seq::<char>::empty().contains(c),
{
}

/// A written line is classified as that line, ending where its terminator begins.
proof fn lemma_line(s: Seq<char>, p: int, m: Seq<char>, eol: Seq<char>, t: LineView)
    requires
        marker_ok(m),
        eol_ok(eol),
        line_ok(t, m),
        occurs_at(s, p, render_line(t, m, eol)),
    ensures
        line_spec(s, p, m) == Ok::<(LineView, int), crate::scanner::ParseError>(
            (t, p + render_line(t, m, eol).len() - eol.len()),
        ),
{
    let line = render_line(t, m, eol);
    let e = p + line.len() - eol.len();
    assert(line.len() > 0) by {
        assert(eol.len() > 0);
    }
    assert(s[p + 0] == line[0]);
    match t {
        LineView::Note(n) => {
            lemma_occurs_split(s, p, m + n, eol);
            lemma_occurs_split(s, p, m, n);
            lemma_eol(s, e, eol);
            assert(line[0] == m[0]);
            lemma_skip_none(s, p);
            assert forall|q: int| 0 <= q < m.len() implies s.subrange(p, p + m.len())[q] == m[q] by {
                assert(s[p + q] == m[q]);
            }
            assert(s.subrange(p, p + m.len()) =~= m);
            assert forall|q: int| 0 <= q < n.len() implies !Seq::<char>::empty().contains(#[trigger] n[q]) && !is_line_end_char(n[q]) by {
                lemma_empty_stop(n[q]);
            }
            lemma_empty_stop(s[e]);
            lemma_scan_copy(s, p + m.len(), n, Seq::<char>::empty());
            assert(Seq::<char>::empty() =~= seq![]);

        },
        LineView::Attribute(k, v) => {
            let c = p + k.len();
            lemma_occurs_split(s, p, k + seq![':'] + v, eol);
            lemma_occurs_split(s, p, k + seq![':'], v);
            lemma_occurs_split(s, p, k, seq![':']);
            lemma_eol(s, e, eol);
            assert(s[c] == ':') by { assert(s[c + 0] == seq![':'][0]); }
            if k.len() > 0 {
                assert(line[0] == k[0]);
            } else {
                assert(line[0] == ':');
            }
            lemma_skip_none(s, p);
            lemma_not_at(s, p, m);
            assert forall|q: int| 0 <= q < k.len() implies !key_stop(m).contains(#[trigger] k[q]) && !is_line_end_char(k[q]) by {
                lemma_contains4(key_stop(m), k[q]);
            }
            lemma_contains4(key_stop(m), ':');
            lemma_scan_copy(s, p, k, key_stop(m));
            lemma_noted_copy(s, c + 1, v, m);
            lemma_not_at(s, e, m);
            assert forall|q: int| 0 <= q < v.len() implies !value_stop().contains(#[trigger] v[q]) && !is_line_end_char(v[q]) by {
                lemma_contains4(value_stop(), v[q]);
            }
            lemma_scan_copy(s, c + 1, v, value_stop());
        },
        LineView::AttributeWithNote(k, v, n) => {
            let c = p + k.len();
            let f = c + 1 + v.len();
            lemma_occurs_split(s, p, k + seq![':'] + v + m + n, eol);
            lemma_occurs_split(s, p, k + seq![':'] + v + m, n);
            lemma_occurs_split(s, p, k + seq![':'] + v, m);
            lemma_occurs_split(s, p, k + seq![':'], v);
            lemma_occurs_split(s, p, k, seq![':']);
            lemma_eol(s, e, eol);
            assert(s[c] == ':') by { assert(s[c + 0] == seq![':'][0]); }
            assert(s[f] == m[0]) by { assert(s[f + 0] == m[0]); }
            if k.len() > 0 {
                assert(line[0] == k[0]);
            } else {
                assert(line[0] == ':');
            }
            lemma_skip_none(s, p);
            lemma_not_at(s, p, m);
            assert forall|q: int| 0 <= q < k.len() implies !key_stop(m).contains(#[trigger] k[q]) && !is_line_end_char(k[q]) by {
                lemma_contains4(key_stop(m), k[q]);
            }
            lemma_contains4(key_stop(m), ':');
            lemma_scan_copy(s, p, k, key_stop(m));
            assert(!lone_cr_at(s, f));
            assert forall|q: int| 0 <= q < m.len() implies s.subrange(f, f + m.len())[q] == m[q] by {
                assert(s[f + q] == m[q]);
            }
            assert(s.subrange(f, f + m.len()) =~= m);
            lemma_noted_copy(s, c + 1, v, m);
            assert forall|q: int| 0 <= q < n.len() implies !Seq::<char>::empty().contains(#[trigger] n[q]) && !is_line_end_char(n[q]) by {
                lemma_empty_stop(n[q]);
            }
            lemma_empty_stop(s[e]);
            lemma_scan_copy(s, f + m.len(), n, Seq::<char>::empty());
            assert(Seq::<char>::empty() =~= seq![]);

        },
    }
}

/// A written line starts on a character that whitespace skipping keeps, and
/// its terminator follows its text.
proof fn lemma_line_start(s: Seq<char>, p: int, m: Seq<char>, eol: Seq<char>, t: LineView)
    requires
        marker_ok(m),
        eol_ok(eol),
        line_ok(t, m),
        occurs_at(s, p, render_line(t, m, eol)),
    ensures
        skip_ws(s, p) == p,
        p < s.len() && s[p] != '[',
        occurs_at(s, p + render_line(t, m, eol).len() - eol.len(), eol),
{
    let line = render_line(t, m, eol);
    let e = p + line.len() - eol.len();
    assert(s[p + 0] == line[0]);
    match t {
        LineView::Attribute(k, v) => {
            lemma_occurs_split(s, p, k + seq![':'] + v, eol);
            if k.len() > 0 {
                assert(line[0] == k[0]);
            } else {
                assert(line[0] == ':');
            }
        },
        LineView::AttributeWithNote(k, v, n) => {
            lemma_occurs_split(s, p, k + seq![':'] + v + m + n, eol);
            if k.len() > 0 {
                assert(line[0] == k[0]);
            } else {
                assert(line[0] == ':');
            }
        },
        LineView::Note(n) => {
            lemma_occurs_split(s, p, m + n, eol);
            assert(line[0] == m[0]);
        },
    }
    lemma_skip_none(s, p);
}

/// The written lines after a terminator at `q` fold into the map; the body
/// then stands at the last line's terminator.
proof fn lemma_lines(
    s: Seq<char>,
    q: int,
    m: Seq<char>,
    eol: Seq<char>,
    acc: Map<Seq<char>, Seq<char>>,
    ls: Seq<LineView>,
)
    requires
        marker_ok(m),
        eol_ok(eol),
        forall|i: int| 0 <= i < ls.len() ==> line_ok(#[trigger] ls[i], m),
        occurs_at(s, q, eol),
        occurs_at(s, q + eol.len(), render_lines(ls, m, eol)),
    ensures
        occurs_at(s, q + render_lines(ls, m, eol).len(), eol),
        body_spec(s, q, m, acc) == body_spec(s, q + render_lines(ls, m, eol).len(), m, fold_lines(acc, ls)),
    decreases ls.len(),
{
    if ls.len() > 0 {
        let t = ls[0];
        let line = render_line(t, m, eol);
        let rest = ls.drop_first();
        assert forall|i: int| 0 <= i < rest.len() implies line_ok(#[trigger] rest[i], m) by {
            assert(rest[i] == ls[i + 1]);
        }
        assert(line_ok(ls[0], m));
        let p = q + eol.len();
        lemma_occurs_split(s, p, line, render_lines(rest, m, eol));
        lemma_line(s, p, m, eol, t);
        let e = p + line.len() - eol.len();
        lemma_line_start(s, p, m, eol, t);
        lemma_eol(s, q, eol);
        lemma_eol(s, e, eol);
        assert(e == q + line.len());
        assert(body_spec(s, q, m, acc) == body_spec(s, e, m, add_pair(acc, line_pair(t))));
        lemma_lines(s, e, m, eol, add_pair(acc, line_pair(t)), rest);
    }
}

/// A terminator followed by `[` or the end of the input ends a body.
proof fn lemma_body_stop(s: Seq<char>, q: int, m: Seq<char>, eol: Seq<char>, acc: Map<Seq<char>, Seq<char>>)
    requires
        eol_ok(eol),
        occurs_at(s, q, eol),
        q + eol.len() == s.len() || s[q + eol.len()] == '[',
    ensures
        body_spec(s, q, m, acc) == Ok::<(Map<Seq<char>, Seq<char>>, int), crate::scanner::ParseError>((acc, q)),
        skip_ws(s, q) == q + eol.len(),
{
    lemma_eol(s, q, eol);
    lemma_skip_none(s, q + eol.len());
}

/// A written section is parsed back to its name and attribute map, and ends
/// where its last terminator begins.
#[verifier::rlimit(40)]
proof fn lemma_section(s: Seq<char>, pos: int, i: int, m: Seq<char>, eol: Seq<char>, e: RenderedSection)
    requires
        marker_ok(m),
        eol_ok(eol),
        section_ok(e, m),
        0 <= pos,
        skip_ws(s, pos) == i,
        occurs_at(s, i, render_section(e, m, eol)),
        i + render_section(e, m, eol).len() == s.len() || s[i + render_section(e, m, eol).len()] == '[',
    ensures
        section_spec(s, pos, m) == Ok::<Option<(Seq<char>, Map<Seq<char>, Seq<char>>, int)>, crate::scanner::ParseError>(
            Some((e.0, fold_lines(Map::empty(), e.2), i + render_section(e, m, eol).len() - eol.len())),
        ),
        occurs_at(s, i + render_section(e, m, eol).len() - eol.len(), eol),
{
    let name = e.0;
    let hn = e.1;
    let ls = e.2;
    let tail = match hn {
        Some(n) => m + n,
        None => seq![],
    };
    let header = render_header(name, hn, m, eol);
    let n = i + 1 + name.len();
    let h = n + 1 + tail.len();
    lemma_occurs_split(s, i, header, render_lines(ls, m, eol));
    lemma_occurs_split(s, i, seq!['['] + name + seq![']'] + tail, eol);
    lemma_occurs_split(s, i, seq!['['] + name + seq![']'], tail);
    lemma_occurs_split(s, i, seq!['['] + name, seq![']']);
    lemma_occurs_split(s, i, seq!['['], name);
    assert(s[i] == '[') by { assert(s[i + 0] == seq!['['][0]); }
    assert(s[n] == ']') by { assert(s[n + 0] == seq![']'][0]); }
    lemma_eol(s, h, eol);
    assert forall|q: int| 0 <= q < name.len() implies !name_stop(m).contains(#[trigger] name[q]) && !is_line_end_char(name[q]) by {
        lemma_contains4(name_stop(m), name[q]);
    }
    lemma_contains4(name_stop(m), ']');
    lemma_scan_copy(s, i + 1, name, name_stop(m));
    assert(!lone_cr_at(s, n));
    match hn {
        Some(note) => {
            lemma_occurs_split(s, n + 1, m, note);
            assert forall|q: int| 0 <= q < m.len() implies s.subrange(n + 1, n + 1 + m.len())[q] == m[q] by {
                assert(s[n + 1 + q] == m[q]);
            }
            assert(s.subrange(n + 1, n + 1 + m.len()) =~= m);
            assert forall|q: int| 0 <= q < note.len() implies !Seq::<char>::empty().contains(#[trigger] note[q]) && !is_line_end_char(note[q]) by {
                lemma_empty_stop(note[q]);
            }
            lemma_empty_stop(s[h]);
            lemma_scan_copy(s, n + 1 + m.len(), note, Seq::<char>::empty());
            assert(Seq::<char>::empty() =~= seq![]);
            assert(header_end(s, n + 1, m) == Ok::<int, crate::scanner::ParseError>(h));
        },
        None => {
            assert(tail.len() == 0);
            assert(s[h + 0] == eol[0]);
            lemma_not_at(s, n + 1, m);
            assert(header_end(s, n + 1, m) == Ok::<int, crate::scanner::ParseError>(h));
        },
    }
    assert(occurs_at(s, h + eol.len(), render_lines(ls, m, eol)));
    lemma_lines(s, h, m, eol, Map::empty(), ls);
    let q = h + render_lines(ls, m, eol).len();
    assert(q == i + render_section(e, m, eol).len() - eol.len());
    lemma_body_stop(s, q, m, eol, fold_lines(Map::empty(), ls));
}

/// A written document, running to the end of the input, is parsed back to
/// its sections.
proof fn lemma_document(s: Seq<char>, pos: int, i: int, m: Seq<char>, eol: Seq<char>, acc: Map<Seq<char>, Map<Seq<char>, Seq<char>>>, d: Rendered)
    requires
        marker_ok(m),
        eol_ok(eol),
        document_ok(d, m),
        0 <= pos <= s.len(),
        skip_ws(s, pos) == i,
        occurs_at(s, i, render_document(d, m, eol)),
        i + render_document(d, m, eol).len() == s.len(),
    ensures
        document_spec(s, pos, m, acc) is Ok,
        document_spec(s, pos, m, acc)->Ok_0.0 == fold_pairs(acc, d.map_values(|e: RenderedSection| section_map(e))),
    decreases d.len(),
{
    let f = |e: RenderedSection| section_map(e);
    if d.len() == 0 {
        assert(d.map_values(f).len() == 0);
    } else {
        let e = d[0];
        let rest = d.drop_first();
        let rs = render_section(e, m, eol);
        assert(section_ok(d[0], m));
        assert forall|j: int| 0 <= j < rest.len() implies section_ok(#[trigger] rest[j], m) by {
            assert(rest[j] == d[j + 1]);
        }
        lemma_occurs_split(s, i, rs, render_document(rest, m, eol));
        let next = i + rs.len();
        if rest.len() > 0 {
            let r0 = render_section(rest[0], m, eol);
            assert(render_document(rest, m, eol)[0] == r0[0]);
            assert(r0[0] == '[');
            assert(s[next + 0] == render_document(rest, m, eol)[0]);
        }
        lemma_section(s, pos, i, m, eol, e);
        let end = next - eol.len();
        lemma_body_stop(s, end, m, eol, Map::empty());
        lemma_document(s, end, next, m, eol, acc.insert(e.0, fold_lines(Map::empty(), e.2)), rest);
        assert(d.map_values(f).drop_first() =~= rest.map_values(f));
        assert(d.map_values(f)[0] == section_map(e));
    }
}

/// Re-parsing: a document written out as `[name]` header lines, each
/// followed by its lines (`key:value`, `key:value` with a note, or a note
/// alone), parses back to its sections' attributes, whatever the marker and
/// whether lines end in `\n` or `\r\n`: notes leave no trace, a repeated key
/// or section name keeps its last occurrence. This holds where names, keys,
/// values and notes hold no character that would end them, no key starts
/// with a blank, and the marker starts with none of `:`, `[`, a blank or a
/// line ending.
pub proof fn lemma_reparse(d: Rendered, m: Seq<char>, eol: Seq<char>)
    requires
        marker_ok(m),
        eol_ok(eol),
        document_ok(d, m),
    ensures
        parse_spec(render_document(d, m, eol), m) is Ok,
        parse_spec(render_document(d, m, eol), m)->Ok_0.0 == document_of(d),
{
    let s = render_document(d, m, eol);
    let f = |e: RenderedSection| section_map(e);
    if d.len() > 0 {
        assert(s[0] == render_section(d[0], m, eol)[0]);
    }
    lemma_skip_none(s, 0);
    assert(occurs_at(s, 0, s));
    lemma_document(s, 0, 0, m, eol, Map::empty(), d);
    lemma_fold_is_map_of(d.map_values(f));
}

/// The marker is a parameter: the same document written with either of two
/// markers, each parsed with its own, gives the same result.
pub proof fn lemma_marker_independent(d: Rendered, m1: Seq<char>, m2: Seq<char>, eol: Seq<char>)
    requires
        marker_ok(m1),
        marker_ok(m2),
        eol_ok(eol),
        document_ok(d, m1),
        document_ok(d, m2),
    ensures
        parse_spec(render_document(d, m1, eol), m1) is Ok,
        parse_spec(render_document(d, m2, eol), m2) is Ok,
        parse_spec(render_document(d, m1, eol), m1)->Ok_0.0 == parse_spec(render_document(d, m2, eol), m2)->Ok_0.0,
{
    lemma_reparse(d, m1, eol);
    lemma_reparse(d, m2, eol);
}

/// Line endings: the same document written with `\r\n` and with `\n` parses
/// to the same result.
pub proof fn lemma_crlf_same(d: Rendered, m: Seq<char>)
    requires
        marker_ok(m),
        document_ok(d, m),
    ensures
        parse_spec(render_document(d, m, seq!['\r', '\n']), m) is Ok,
        parse_spec(render_document(d, m, seq!['\n']), m) is Ok,
        parse_spec(render_document(d, m, seq!['\r', '\n']), m)->Ok_0.0 == parse_spec(render_document(d, m, seq!['\n']), m)->Ok_0.0,
{
    lemma_reparse(d, m, seq!['\r', '\n']);
    lemma_reparse(d, m, seq!['\n']);
}

// ---------------------------------------------------------------------------
// Substituting one marker character for another.
// ---------------------------------------------------------------------------

pub open spec fn swap_char(c: char, a: char, b: char) -> char {
    if c == a {
        b
    } else {
        c
    }
}

/// `s` with every `a` replaced by `b`.
pub open spec fn swap_marker(s: Seq<char>, a: char, b: char) -> Seq<char> {
    s.map_values(|c: char| swap_char(c, a, b))
}

/// Characters that the grammar gives a meaning of their own.
pub open spec fn structural(c: char) -> bool {
    c == '[' || c == ']' || c == ':' || is_line_end_char(c) || is_blank(c)
}

/// `a` and `b` are distinct marker characters with no other meaning, and
/// `b` does not occur in `s`.
pub open spec fn swap_ok(s: Seq<char>, a: char, b: char) -> bool {
    &&& !structural(a) && !structural(b) && a != b
    &&& forall|i: int| 0 <= i < s.len() ==> s[i] != b
}

proof fn lemma_swap_chars(s: Seq<char>, a: char, b: char)
    ensures
        swap_marker(s, a, b).len() == s.len(),
        forall|i: int| 0 <= i < s.len() ==> #[trigger] swap_marker(s, a, b)[i] == swap_char(s[i], a, b),
{
}

proof fn lemma_swap_skip_ws(s: Seq<char>, a: char, b: char, i: int)
    requires
        swap_ok(s, a, b),
        0 <= i,
    ensures
        skip_ws(swap_marker(s, a, b), i) == skip_ws(s, i),
    decreases s.len() - i,
{
    let t = swap_marker(s, a, b);
    lemma_swap_chars(s, a, b);
    if i < s.len() && (is_blank(s[i]) || s[i] == '\n') {
        lemma_swap_skip_ws(s, a, b, i + 1);
    } else if i + 1 < s.len() && s[i] == '\r' && s[i + 1] == '\n' {
        lemma_swap_skip_ws(s, a, b, i + 2);
    }
}

proof fn lemma_swap_scan(s: Seq<char>, a: char, b: char, i: int, st1: Seq<char>, st2: Seq<char>)
    requires
        swap_ok(s, a, b),
        0 <= i,
        forall|k: int| 0 <= k < s.len() ==> (st2.contains(#[trigger] swap_marker(s, a, b)[k]) <==> st1.contains(s[k])),
    ensures
        scan_line_end(swap_marker(s, a, b), i, st2) == scan_line_end(s, i, st1),
        scan_line(swap_marker(s, a, b), i, st2) == scan_line(s, i, st1),
    decreases s.len() - i,
{
    lemma_swap_chars(s, a, b);
    if i < s.len() && !st1.contains(s[i]) && !is_line_end_char(s[i]) {
        lemma_swap_scan(s, a, b, i + 1, st1, st2);
    }
}

proof fn lemma_swap_stops(s: Seq<char>, a: char, b: char)
    requires
        swap_ok(s, a, b),
    ensures
        forall|k: int| 0 <= k < s.len() ==> (key_stop(seq![b]).contains(#[trigger] swap_marker(s, a, b)[k]) <==> key_stop(seq![a]).contains(s[k])),
        forall|k: int| 0 <= k < s.len() ==> (name_stop(seq![b]).contains(#[trigger] swap_marker(s, a, b)[k]) <==> name_stop(seq![a]).contains(s[k])),
        forall|k: int| 0 <= k < s.len() ==> (value_stop().contains(#[trigger] swap_marker(s, a, b)[k]) <==> value_stop().contains(s[k])),
        forall|k: int| 0 <= k < s.len() ==> (Seq::<char>::empty().contains(#[trigger] swap_marker(s, a, b)[k]) <==> Seq::<char>::empty().contains(s[k])),
        forall|k: int| 0 <= k < s.len() && key_stop(seq![a]).contains(s[k]) ==> s[k] == '[' || s[k] == ']' || s[k] == ':' || s[k] == a,
        forall|k: int| 0 <= k < s.len() && !key_stop(seq![a]).contains(s[k]) ==> s[k] != a,
        forall|k: int| 0 <= k < s.len() && !name_stop(seq![a]).contains(s[k]) ==> s[k] != a,
        forall|k: int| 0 <= k < s.len() ==> (value_stop().contains(s[k]) <==> s[k] == '[' || s[k] == ']'),
{
    let t = swap_marker(s, a, b);
    lemma_swap_chars(s, a, b);
    assert forall|k: int| 0 <= k < s.len() implies (key_stop(seq![b]).contains(#[trigger] t[k]) <==> key_stop(seq![a]).contains(s[k]))
        && (name_stop(seq![b]).contains(t[k]) <==> name_stop(seq![a]).contains(s[k]))
        && (value_stop().contains(t[k]) <==> value_stop().contains(s[k]))
        && (Seq::<char>::empty().contains(t[k]) <==> Seq::<char>::empty().contains(s[k]))
        && (key_stop(seq![a]).contains(s[k]) ==> s[k] == '[' || s[k] == ']' || s[k] == ':' || s[k] == a)
        && (!key_stop(seq![a]).contains(s[k]) ==> s[k] != a)
        && (!name_stop(seq![a]).contains(s[k]) ==> s[k] != a)
        && (value_stop().contains(s[k]) <==> s[k] == '[' || s[k] == ']') by {
        assert(seq![a][0] == a);
        assert(seq![b][0] == b);
        lemma_contains4(key_stop(seq![a]), s[k]);
        lemma_contains4(key_stop(seq![b]), t[k]);
        lemma_contains4(name_stop(seq![a]), s[k]);
        lemma_contains4(name_stop(seq![b]), t[k]);
        lemma_contains4(value_stop(), s[k]);
        lemma_contains4(value_stop(), t[k]);
        lemma_empty_stop(s[k]);
        lemma_empty_stop(t[k]);
    }
}

proof fn lemma_swap_has_at(s: Seq<char>, a: char, b: char, i: int)
    requires
        swap_ok(s, a, b),
    ensures
        has_at(swap_marker(s, a, b), i, seq![b]) == has_at(s, i, seq![a]),
        has_at(s, i, seq![a]) <==> (0 <= i < s.len() && s[i] == a),
{
    let t = swap_marker(s, a, b);
    lemma_swap_chars(s, a, b);
    if 0 <= i < s.len() {
        if s[i] == a {
            assert(s.subrange(i, i + 1) =~= seq![a]);
            assert(t.subrange(i, i + 1) =~= seq![b]);
        } else {
            assert(s.subrange(i, i + 1)[0] != seq![a][0]);
            assert(t.subrange(i, i + 1)[0] != seq![b][0]);
        }
    }
}

proof fn lemma_swap_sub(s: Seq<char>, a: char, b: char, x: int, y: int)
    requires
        0 <= x <= y <= s.len(),
        forall|k: int| x <= k < y ==> s[k] != a,
    ensures
        swap_marker(s, a, b).subrange(x, y) == s.subrange(x, y),
{
    lemma_swap_chars(s, a, b);
    assert(swap_marker(s, a, b).subrange(x, y) =~= s.subrange(x, y));
}

proof fn lemma_swap_noted(s: Seq<char>, a: char, b: char, i: int)
    requires
        swap_ok(s, a, b),
        0 <= i <= s.len(),
    ensures
        noted_value_end(swap_marker(s, a, b), i, seq![b]) == noted_value_end(s, i, seq![a]),
        scan_noted_value(swap_marker(s, a, b), i, seq![b]) == scan_noted_value(s, i, seq![a]),
        i <= noted_value_end(s, i, seq![a]) <= s.len(),
        forall|k: int| i <= k < noted_value_end(s, i, seq![a]) ==> #[trigger] s[k] != a && s[k] != '['
            && s[k] != ']' && !is_line_end_char(s[k]),
        noted_value_end(s, i, seq![a]) < s.len() ==> {
            let j = noted_value_end(s, i, seq![a]);
            s[j] == a || s[j] == '[' || s[j] == ']' || is_line_end_char(s[j])
        },
    decreases s.len() - i,
{
    lemma_swap_chars(s, a, b);
    lemma_swap_has_at(s, a, b, i);
    if i < s.len() && !(s[i] == '[' || s[i] == ']' || is_line_end_char(s[i]) || has_at(s, i, seq![a])) {
        lemma_swap_noted(s, a, b, i + 1);
    }
}

/// Both classifications fail alike, or both succeed with the same end and
/// the same key/value pair.
pub open spec fn same_line(x: LineResult, y: LineResult) -> bool {
    match (x, y) {
        (Ok((p, e)), Ok((q, f))) => e == f && line_pair(p) == line_pair(q),
        (Err(u), Err(v)) => u == v,
        _ => false,
    }
}

proof fn lemma_swap_line(s: Seq<char>, a: char, b: char, i: int)
    requires
        swap_ok(s, a, b),
        0 <= i <= s.len(),
    ensures
        same_line(line_spec(swap_marker(s, a, b), i, seq![b]), line_spec(s, i, seq![a])),
{
    let t = swap_marker(s, a, b);
    let ma = seq![a];
    let mb = seq![b];
    lemma_swap_chars(s, a, b);
    lemma_swap_stops(s, a, b);
    assert(ma.len() == 1 && mb.len() == 1);
    // the note candidate
    lemma_swap_skip_ws(s, a, b, i);
    lemma_skip_ws(s, i);
    let bb = skip_ws(s, i);
    lemma_swap_has_at(s, a, b, bb);
    if has_at(s, bb, ma) {
        lemma_swap_scan(s, a, b, bb + 1, Seq::<char>::empty(), Seq::<char>::empty());
        assert(Seq::<char>::empty() =~= seq![]);
    }
    assert(note_spec(t, i, mb) is Ok <==> note_spec(s, i, ma) is Ok);
    assert(note_spec(t, i, mb) is Err ==> note_spec(t, i, mb) == note_spec(s, i, ma));
    // the key
    lemma_swap_scan(s, a, b, i, key_stop(ma), key_stop(mb));
    lemma_scan_line_end_bounds(s, i, key_stop(ma));
    assert(key_spec(t, i, mb) == key_spec(s, i, ma));
    if let Ok(k) = key_spec(s, i, ma) {
        lemma_swap_sub(s, a, b, i, k);
        lemma_swap_noted(s, a, b, k + 1);
        let v = noted_value_end(s, k + 1, ma);
        lemma_swap_has_at(s, a, b, v);
        lemma_swap_sub(s, a, b, k + 1, v);
        if has_at(s, v, ma) {
            lemma_swap_scan(s, a, b, v + 1, Seq::<char>::empty(), Seq::<char>::empty());
            assert(Seq::<char>::empty() =~= seq![]);
        }
        lemma_swap_scan(s, a, b, k + 1, value_stop(), value_stop());
        lemma_scan_line_end_bounds(s, k + 1, value_stop());
        let w = scan_line_end(s, k + 1, value_stop());
        if attribute_with_note_spec(s, i, ma) is Err && !lone_cr_at(s, v) && !has_at(s, v, ma) {
            // the bare value ends where the noted one did, so it holds no marker
            assert(w == v);
            lemma_swap_sub(s, a, b, k + 1, w);
        }
    }
}

proof fn lemma_swap_body(s: Seq<char>, a: char, b: char, pos: int, acc: Map<Seq<char>, Seq<char>>)
    requires
        swap_ok(s, a, b),
        0 <= pos <= s.len(),
    ensures
        body_spec(swap_marker(s, a, b), pos, seq![b], acc) == body_spec(s, pos, seq![a], acc),
    decreases s.len() - pos,
{
    lemma_swap_chars(s, a, b);
    lemma_swap_skip_ws(s, a, b, pos);
    lemma_skip_ws(s, pos);
    let j = skip_ws(s, pos);
    if !(j >= s.len() || s[j] == '[') {
        lemma_swap_line(s, a, b, j);
        if let Ok((l, e)) = line_spec(s, j, seq![a]) {
            lemma_line_progress(s, j, seq![a]);
            if at_line_boundary(s, e) {
                lemma_swap_body(s, a, b, e, add_pair(acc, line_pair(l)));
            }
        }
    }
}

proof fn lemma_swap_section(s: Seq<char>, a: char, b: char, i: int)
    requires
        swap_ok(s, a, b),
        0 <= i <= s.len(),
    ensures
        section_spec(swap_marker(s, a, b), i, seq![b]) == section_spec(s, i, seq![a]),
{
    let ma = seq![a];
    lemma_swap_chars(s, a, b);
    lemma_swap_stops(s, a, b);
    lemma_swap_skip_ws(s, a, b, i);
    lemma_skip_ws(s, i);
    let j = skip_ws(s, i);
    if 0 <= j < s.len() && s[j] == '[' {
        lemma_swap_scan(s, a, b, j + 1, name_stop(ma), name_stop(seq![b]));
        lemma_scan_line_end_bounds(s, j + 1, name_stop(ma));
        if let Ok(n) = scan_line(s, j + 1, name_stop(ma)) {
            if n < s.len() && s[n] == ']' {
                lemma_swap_sub(s, a, b, j + 1, n);
                lemma_swap_has_at(s, a, b, n + 1);
                if has_at(s, n + 1, ma) {
                    lemma_swap_scan(s, a, b, n + 2, Seq::<char>::empty(), Seq::<char>::empty());
                    assert(Seq::<char>::empty() =~= seq![]);
                    lemma_scan_line_end_bounds(s, n + 2, Seq::<char>::empty());
                }
                if let Ok(h) = header_end(s, n + 1, ma) {
                    lemma_swap_body(s, a, b, h, Map::empty());
                }
            }
        }
    }
}

proof fn lemma_swap_document(s: Seq<char>, a: char, b: char, pos: int, acc: Map<Seq<char>, Map<Seq<char>, Seq<char>>>)
    requires
        swap_ok(s, a, b),
        0 <= pos <= s.len(),
    ensures
        document_spec(swap_marker(s, a, b), pos, seq![b], acc) == document_spec(s, pos, seq![a], acc),
    decreases s.len() - pos,
{
    lemma_swap_chars(s, a, b);
    lemma_swap_section(s, a, b, pos);
    lemma_section_end(s, pos, seq![a]);
    if let Ok(Some((name, m, end))) = section_spec(s, pos, seq![a]) {
        lemma_swap_document(s, a, b, end, acc.insert(name, m));
    }
}

/// Marker substitution: replacing every marker character `a` of a text by
/// another character `b` that the text does not hold, and parsing with `b`
/// as the marker, gives exactly what parsing the text with `a` gives: the
/// same document and residue, or the same failure. Neither character may
/// be a bracket, `:`, a blank or a line ending.
pub proof fn lemma_marker_substitution(s: Seq<char>, a: char, b: char)
    requires
        swap_ok(s, a, b),
    ensures
        parse_spec(swap_marker(s, a, b), seq![b]) == parse_spec(s, seq![a]),
{
    lemma_swap_document(s, a, b, 0, Map::empty());
}

} // verus!
