//! The INI dialect: notes start with `;`.
use vstd::prelude::*;
use crate::grammar::{
    custom_attribute, custom_section, parse_spec, parse_with_marker, rest_from, attribute_spec,
    section_spec, skip_ws, agrees_text_line,
};
pub use crate::grammar::AttributeOrNote;
use crate::model::{Document, Section};
use crate::scanner::{fail, ErrorKind, ParseError};


verus! {

/// The note marker of the dialect.
pub open spec fn ini_marker() -> Seq<char> {
    seq![';']
}

/// Parses `str` as an INI document; text after the last section that begins
/// no header is left unread.
pub fn from_str(str: &str) -> (r: Result<Document, ParseError>)
    ensures
        match (r, parse_spec(str@, ini_marker())) {
            (Ok(d), Ok((a, _))) => d.wf() && d@ == a,
            (Err(x), Err(y)) => x == y,
            _ => false,
        },
{
    proof {
        reveal_strlit(";");
        assert(";"@ =~= ini_marker());
    }
    parse_with_marker(";", str)
}

/// Parses `str` as a document whose notes start with `note_starting`.
pub fn from_str_custom(note_starting: &str, str: &str) -> (r: Result<Document, ParseError>)
    requires
        note_starting@.len() > 0,
    ensures
        match (r, parse_spec(str@, note_starting@)) {
            (Ok(d), Ok((a, _))) => d.wf() && d@ == a,
            (Err(x), Err(y)) => x == y,
            _ => false,
        },
{
    parse_with_marker(note_starting, str)
}

/// One section of an INI document, with the unconsumed rest.
pub fn section(input: &str) -> (r: Result<(String, (String, Section)), ParseError>)
    ensures
        match (r, section_spec(input@, 0, ini_marker())) {
            (Ok((rest, (n, sec))), Ok(Some((n2, a, e)))) => n@ == n2 && sec.wf() && sec@ == a
                && rest@ == rest_from(input@, e),
            (Err(x), Ok(None)) => x == fail(ErrorKind::Unrecognized, skip_ws(input@, 0)),
            (Err(x), Err(y)) => x == y,
            _ => false,
        },
{
    proof {
        reveal_strlit(";");
        assert(";"@ =~= ini_marker());
    }
    custom_section(";", input)
}

/// A bare `key:value` line of an INI document, with the unconsumed rest.
pub fn attribute(input: &str) -> (r: Result<(String, AttributeOrNote), ParseError>)
    ensures
        agrees_text_line(r, input@, attribute_spec(input@, 0, ini_marker())),
{
    proof {
        reveal_strlit(";");
        assert(";"@ =~= ini_marker());
    }
    custom_attribute(";", input)
}

} // verus!
