//! The conf dialect: notes start with `#`.
use vstd::prelude::*;
use crate::grammar::{
    agrees_text_line, attribute_spec, attribute_with_note_spec, custom_attribute,
    custom_attribute_or_note, custom_attribute_with_note, custom_document, custom_note,
    custom_section, line_pair, line_spec, note_spec, pair_view, parse_spec, parse_with_marker,
    rest_from, section_spec, skip_ws,
};
pub use crate::grammar::AttributeOrNote;
use crate::model::{Document, Section};
use crate::scanner::{fail, ErrorKind, ParseError};

verus! {

/// The note marker of the dialect.
pub open spec fn conf_marker() -> Seq<char> {
    seq!['#']
}

proof fn lemma_conf_marker()
    ensures
        "#"@ == conf_marker(),
{
    reveal_strlit("#");
    assert("#"@ =~= conf_marker());
}

/// Parses `str` as a conf document; text after the last section that begins
/// no header is left unread.
pub fn from_str(str: &str) -> (r: Result<Document, ParseError>)
    ensures
        match (r, parse_spec(str@, conf_marker())) {
            (Ok(d), Ok((a, _))) => d.wf() && d@ == a,
            (Err(x), Err(y)) => x == y,
            _ => false,
        },
{
    proof { lemma_conf_marker(); }
    parse_with_marker("#", str)
}

/// Parses `str` as a document whose notes start with `note_starting`.
pub fn from_str_custom(note_starting: &str, str: &str) -> (r: Result<Document, ParseError>)
    requires
        note_starting@.len() > 0,
    ensures
        match (r, parse_spec(str@, note_starting@)) {
            (Ok(d), Ok((a, _))) => d.wf() && d@ == a,
            (Err(x), Err(y)) => x == y,
            _ => false,
        },
{
    parse_with_marker(note_starting, str)
}

/// A whole document whose notes start with `note_starting`, with the
/// unconsumed residue.
pub fn custom_conf(note_starting: &str, input: &str) -> (r: Result<(String, Document), ParseError>)
    requires
        note_starting@.len() > 0,
    ensures
        match (r, parse_spec(input@, note_starting@)) {
            (Ok((rest, d)), Ok((a, e))) => d.wf() && d@ == a && rest@ == rest_from(input@, e),
            (Err(x), Err(y)) => x == y,
            _ => false,
        },
{
    custom_document(note_starting, input)
}

/// A whole conf document, with the unconsumed residue.
pub fn conf(input: &str) -> (r: Result<(String, Document), ParseError>)
    ensures
        match (r, parse_spec(input@, conf_marker())) {
            (Ok((rest, d)), Ok((a, e))) => d.wf() && d@ == a && rest@ == rest_from(input@, e),
            (Err(x), Err(y)) => x == y,
            _ => false,
        },
{
    proof { lemma_conf_marker(); }
    custom_document("#", input)
}

/// One section of a conf document, with the unconsumed rest.
pub fn section(input: &str) -> (r: Result<(String, (String, Section)), ParseError>)
    ensures
        match (r, section_spec(input@, 0, conf_marker())) {
            (Ok((rest, (n, sec))), Ok(Some((n2, a, e)))) => n@ == n2 && sec.wf() && sec@ == a
                && rest@ == rest_from(input@, e),
            (Err(x), Ok(None)) => x == fail(ErrorKind::Unrecognized, skip_ws(input@, 0)),
            (Err(x), Err(y)) => x == y,
            _ => false,
        },
{
    proof { lemma_conf_marker(); }
    custom_section("#", input)
}

/// A bare `key:value` line of a conf document.
pub fn attribute(input: &str) -> (r: Result<(String, AttributeOrNote), ParseError>)
    ensures
        agrees_text_line(r, input@, attribute_spec(input@, 0, conf_marker())),
{
    proof { lemma_conf_marker(); }
    custom_attribute("#", input)
}

/// `key:value` followed by a `#` note.
pub fn attribute_with_note(input: &str) -> (r: Result<(String, AttributeOrNote), ParseError>)
    ensures
        agrees_text_line(r, input@, attribute_with_note_spec(input@, 0, conf_marker())),
{
    proof { lemma_conf_marker(); }
    custom_attribute_with_note("#", input)
}

/// A standalone `#` note line.
pub fn note(input: &str) -> (r: Result<(String, AttributeOrNote), ParseError>)
    ensures
        agrees_text_line(r, input@, note_spec(input@, 0, conf_marker())),
{
    proof { lemma_conf_marker(); }
    custom_note("#", input)
}

/// One classified conf line: its key/value pair, or `None` for a note.
pub fn attribute_or_note(input: &str) -> (r: Result<(String, Option<(String, String)>), ParseError>)
    ensures
        match (r, line_spec(input@, 0, conf_marker())) {
            (Ok((rest, p)), Ok((v, e))) => pair_view(p) == line_pair(v) && rest@ == rest_from(input@, e),
            (Err(x), Err(y)) => x == y,
            _ => false,
        },
{
    proof { lemma_conf_marker(); }
    custom_attribute_or_note("#", input)
}

} // verus!
