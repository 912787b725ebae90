use confini::conf;
use confini::grammar::{custom_attribute_or_note, custom_document, custom_note, AttributeOrNote};
use confini::ini::{from_str, from_str_custom};
use confini::model::Document;
use confini::scanner::{without_chars, without_chars_and_line_ending, ErrorKind, ParseError};

fn value<'a>(doc: &'a Document, name: &str, key: &str) -> Option<&'a String> {
    doc.get(name).and_then(|s| s.get(key))
}

#[test]
fn duplicate_key_last_wins() {
    let doc = from_str("[a]\nk:1\nk:2\n").unwrap();
    assert_eq!(doc.len(), 1);
    assert_eq!(doc.get("a").unwrap().len(), 1);
    assert_eq!(value(&doc, "a", "k"), Some(&"2".to_owned()));
}

#[test]
fn inline_note_is_stripped() {
    let doc = from_str("[a]\nk:v;note text\n").unwrap();
    let a = doc.get("a").unwrap();
    assert_eq!(a.len(), 1);
    assert_eq!(a.get("k"), Some(&"v".to_owned()));
    assert_eq!(a.get("note text"), None);
}

#[test]
fn standalone_note_is_ignored() {
    let doc = from_str("[a]\n;just a note\nk:v\n").unwrap();
    let a = doc.get("a").unwrap();
    assert_eq!(a.len(), 1);
    assert_eq!(a.get("k"), Some(&"v".to_owned()));
}

#[test]
fn marker_is_a_parameter() {
    let semi = from_str("[a];head\n;note\nk:v;tail\n[b]\nx:y\n").unwrap();
    let hash = from_str_custom("#", "[a]#head\n#note\nk:v#tail\n[b]\nx:y\n").unwrap();
    let conf_doc = conf::from_str("[a]#head\n#note\nk:v#tail\n[b]\nx:y\n").unwrap();
    for doc in [&semi, &hash, &conf_doc] {
        assert_eq!(doc.len(), 2);
        assert_eq!(doc.get("a").unwrap().len(), 1);
        assert_eq!(value(doc, "a", "k"), Some(&"v".to_owned()));
        assert_eq!(doc.get("b").unwrap().len(), 1);
        assert_eq!(value(doc, "b", "x"), Some(&"y".to_owned()));
    }
}

#[test]
fn duplicate_section_last_wins() {
    let doc = from_str("[a]\nk:1\n[a]\nk:2\n").unwrap();
    assert_eq!(doc.len(), 1);
    assert_eq!(doc.get("a").unwrap().len(), 1);
    assert_eq!(value(&doc, "a", "k"), Some(&"2".to_owned()));
}

#[test]
fn duplicate_section_replaces_not_merges() {
    let doc = from_str("[a]\nk:1\nj:0\n[a]\nk:2\n").unwrap();
    assert_eq!(doc.get("a").unwrap().len(), 1);
    assert_eq!(value(&doc, "a", "j"), None);
}

#[test]
fn crlf_matches_lf() {
    let lf = from_str("[s1]\nk1:v1\nk2:v2;n\n\n[s2]\n;x\nk3:v3\n").unwrap();
    let crlf = from_str("[s1]\r\nk1:v1\r\nk2:v2;n\r\n\r\n[s2]\r\n;x\r\nk3:v3\r\n").unwrap();
    for doc in [&lf, &crlf] {
        assert_eq!(doc.len(), 2);
        assert_eq!(doc.get("s1").unwrap().len(), 2);
        assert_eq!(value(doc, "s1", "k1"), Some(&"v1".to_owned()));
        assert_eq!(value(doc, "s1", "k2"), Some(&"v2".to_owned()));
        assert_eq!(doc.get("s2").unwrap().len(), 1);
        assert_eq!(value(doc, "s2", "k3"), Some(&"v3".to_owned()));
    }
}

#[test]
fn empty_input_is_empty_document() {
    let doc = from_str("").unwrap();
    assert_eq!(doc.len(), 0);
    let doc = from_str("  \n\r\n").unwrap();
    assert_eq!(doc.len(), 0);
}

#[test]
fn unterminated_header_fails() {
    assert_eq!(
        from_str("[a\nk:v\n").unwrap_err(),
        ParseError { kind: ErrorKind::MalformedHeader, position: 2 }
    );
}

#[test]
fn header_with_marker_in_name_fails() {
    assert_eq!(
        from_str("[a;b]\n").unwrap_err(),
        ParseError { kind: ErrorKind::MalformedHeader, position: 2 }
    );
}

#[test]
fn line_without_separator_fails() {
    assert_eq!(
        from_str("[a]\nk:v\noops\n").unwrap_err(),
        ParseError { kind: ErrorKind::MalformedAttribute, position: 12 }
    );
}

#[test]
fn bracket_in_value_fails() {
    assert_eq!(
        from_str("[a]\nk:v]\n").unwrap_err(),
        ParseError { kind: ErrorKind::MalformedAttribute, position: 7 }
    );
}

#[test]
fn lone_cr_fails() {
    assert_eq!(
        from_str("[a]\nk:v\rw\n").unwrap_err(),
        ParseError { kind: ErrorKind::MalformedLineEnding, position: 7 }
    );
    assert_eq!(
        from_str("[a]\nk:v\r").unwrap_err(),
        ParseError { kind: ErrorKind::MalformedLineEnding, position: 7 }
    );
}

#[test]
fn residue_before_first_section() {
    let (rest, doc) = custom_document(";", "k:v\n[a]\n").unwrap();
    assert_eq!(rest, "k:v\n[a]\n");
    assert_eq!(doc.len(), 0);
    let (rest, doc) = custom_document(";", "[a]\nk:v\n  ").unwrap();
    assert_eq!(rest, "\n  ");
    assert_eq!(doc.len(), 1);
}

#[test]
fn empty_value_and_key() {
    let doc = from_str("[a]\nk:\n:v\n").unwrap();
    assert_eq!(value(&doc, "a", "k"), Some(&"".to_owned()));
    assert_eq!(value(&doc, "a", ""), Some(&"v".to_owned()));
}

#[test]
fn multi_char_marker() {
    let doc = from_str_custom("//", "[a]//h\n// n\nurl:http://x\nk:v//c\n").unwrap();
    let a = doc.get("a").unwrap();
    assert_eq!(a.len(), 2);
    assert_eq!(a.get("url"), Some(&"http:".to_owned()));
    assert_eq!(a.get("k"), Some(&"v".to_owned()));
}

#[test]
fn classifier_order() {
    assert_eq!(
        custom_attribute_or_note(";", "  ;k:v\nrest"),
        Ok(("\nrest".to_owned(), None))
    );
    assert_eq!(
        custom_attribute_or_note(";", "k:v;n"),
        Ok(("".to_owned(), Some(("k".to_owned(), "v".to_owned()))))
    );
    assert_eq!(
        custom_note(";", " ;hello\r\nx"),
        Ok(("\r\nx".to_owned(), AttributeOrNote::Note("hello".to_owned())))
    );
    assert_eq!(
        conf::attribute_with_note("k:v#n"),
        Ok((
            "".to_owned(),
            AttributeOrNote::AttributeWithNote {
                attribute: ("k".to_owned(), "v".to_owned()),
                note: "n".to_owned()
            }
        ))
    );
    assert_eq!(
        conf::note("k:v").unwrap_err().kind,
        ErrorKind::Unrecognized
    );
}

#[test]
fn scanners() {
    assert_eq!(without_chars("ab:cd", ":;"), ("ab:cd".get(2..).unwrap().to_owned(), "ab".to_owned()));
    assert_eq!(without_chars("abc", ":"), ("".to_owned(), "abc".to_owned()));
    assert_eq!(without_chars(":x", ":"), (":x".to_owned(), "".to_owned()));
    assert_eq!(
        without_chars_and_line_ending("ab\r\ncd", ":"),
        Ok(("\r\ncd".to_owned(), "ab".to_owned()))
    );
    assert_eq!(
        without_chars_and_line_ending("ab\ncd", ":"),
        Ok(("\ncd".to_owned(), "ab".to_owned()))
    );
    assert_eq!(
        without_chars_and_line_ending("ab\rcd", ":").unwrap_err(),
        ParseError { kind: ErrorKind::MalformedLineEnding, position: 2 }
    );
    assert_eq!(
        without_chars_and_line_ending("ab\r", ":").unwrap_err().kind,
        ErrorKind::MalformedLineEnding
    );
}

#[test]
fn conf_dialect() {
    let (rest, doc) = conf::conf("[s]\nk:v#n\n").unwrap();
    assert_eq!(rest, "\n");
    assert_eq!(value(&doc, "s", "k"), Some(&"v".to_owned()));
    let (rest, (name, sec)) = conf::section("[s]#n\n#c\nk:v\n").unwrap();
    assert_eq!(rest, "\n");
    assert_eq!(name, "s");
    assert_eq!(sec.get("k"), Some(&"v".to_owned()));
    assert_eq!(conf::attribute_or_note("#x").unwrap().1, None);
    assert_eq!(conf::section("k:v").unwrap_err().kind, ErrorKind::Unrecognized);
}

fn write_document(sections: &[(&str, Option<&str>, &[(&str, &str, Option<&str>)])], marker: &str, eol: &str) -> String {
    let mut text = String::new();
    for (name, head_note, lines) in sections {
        text.push('[');
        text.push_str(name);
        text.push(']');
        if let Some(n) = head_note {
            text.push_str(marker);
            text.push_str(n);
        }
        text.push_str(eol);
        for (k, v, note) in lines.iter() {
            if k.is_empty() && v.is_empty() {
                text.push_str(marker);
                text.push_str(note.unwrap_or(""));
            } else {
                text.push_str(k);
                text.push(':');
                text.push_str(v);
                if let Some(n) = note {
                    text.push_str(marker);
                    text.push_str(n);
                }
            }
            text.push_str(eol);
        }
    }
    text
}

#[test]
fn written_document_reparses() {
    let a: &[(&str, &str, Option<&str>)] = &[
        ("host", "example.org", None),
        ("port", "8080", Some(" the port [x]")),
        ("", "", Some("a standalone note")),
        ("host", "other", None),
    ];
    let b: &[(&str, &str, Option<&str>)] = &[("path", "/tmp/x y", None), ("", "", None)];
    let sections: &[(&str, Option<&str>, &[(&str, &str, Option<&str>)])] =
        &[("server", Some("head"), a), ("files", None, b), ("empty", None, &[])];
    for (marker, eol) in [(";", "\n"), ("#", "\r\n"), ("//", "\n"), ("#", "\n")] {
        let text = write_document(sections, marker, eol);
        let doc = from_str_custom(marker, &text).unwrap();
        assert_eq!(doc.len(), 3);
        let server = doc.get("server").unwrap();
        assert_eq!(server.len(), 2);
        assert_eq!(server.get("host"), Some(&"other".to_owned()));
        assert_eq!(server.get("port"), Some(&"8080".to_owned()));
        let files = doc.get("files").unwrap();
        assert_eq!(files.len(), 1);
        assert_eq!(files.get("path"), Some(&"/tmp/x y".to_owned()));
        assert_eq!(doc.get("empty").unwrap().len(), 0);
    }
}

#[test]
fn note_after_line_endings() {
    assert_eq!(
        custom_note(";", "\n;x"),
        Ok(("".to_owned(), AttributeOrNote::Note("x".to_owned())))
    );
    assert_eq!(custom_attribute_or_note(";", "\r\n \n;x:y\nz"), Ok(("\nz".to_owned(), None)));
    assert_eq!(
        custom_note(";", "\r;x").unwrap_err().kind,
        ErrorKind::MalformedLineEnding
    );
}

#[test]
fn multi_char_marker_value_stops_at_whole_marker() {
    assert_eq!(
        custom_attribute_or_note("//", "k:a/b//c"),
        Ok(("".to_owned(), Some(("k".to_owned(), "a/b".to_owned()))))
    );
    assert_eq!(
        confini::grammar::custom_attribute_with_note("//", "k:a/b//c/d\n"),
        Ok((
            "\n".to_owned(),
            AttributeOrNote::AttributeWithNote {
                attribute: ("k".to_owned(), "a/b".to_owned()),
                note: "c/d".to_owned()
            }
        ))
    );
    assert_eq!(
        custom_attribute_or_note("//", "k:a/b"),
        Ok(("".to_owned(), Some(("k".to_owned(), "a/b".to_owned()))))
    );
}

#[test]
fn listing_names_and_entries() {
    let doc = from_str("[b]\nk:1\nj:2\nk:3\n[a]\n[b]\nx:y\ny:z\n").unwrap();
    let mut names = doc.names();
    names.sort();
    assert_eq!(names, vec!["a".to_owned(), "b".to_owned()]);
    let mut entries = doc.get("b").unwrap().entries();
    entries.sort();
    assert_eq!(
        entries,
        vec![("x".to_owned(), "y".to_owned()), ("y".to_owned(), "z".to_owned())]
    );
    assert!(doc.get("a").unwrap().entries().is_empty());
}

#[test]
fn bare_cr_in_note_is_final() {
    assert_eq!(
        custom_attribute_or_note(";", "k:v;x[\ry"),
        Err(ParseError { kind: ErrorKind::MalformedLineEnding, position: 6 })
    );
    assert_eq!(
        custom_attribute_or_note(";", ";x\ry"),
        Err(ParseError { kind: ErrorKind::MalformedLineEnding, position: 2 })
    );
}

#[test]
fn marker_substitution_on_any_text() {
    let texts = [
        "junk;x\n[a];h\nk:v;n\n ;c\nj:w\n",
        "[a]\nk:v;x[\n",
        "[a;b]\nk:v\n",
        "[a]\n;x\ry\n",
        "[s]\r\nk:;\r\n[t];\r\n",
    ];
    for text in texts {
        let semi = custom_document(";", text);
        let swapped = text.replace(';', "#");
        let hash = custom_document("#", &swapped);
        match (semi, hash) {
            (Ok((r1, d1)), Ok((r2, d2))) => {
                assert_eq!(r1.replace(';', "#"), r2);
                let mut n1 = d1.names();
                let mut n2 = d2.names();
                n1.sort();
                n2.sort();
                assert_eq!(n1, n2);
                for n in &n1 {
                    let mut e1 = d1.get(n).unwrap().entries();
                    let mut e2 = d2.get(n).unwrap().entries();
                    e1.sort();
                    e2.sort();
                    assert_eq!(e1, e2);
                }
            }
            (Err(e1), Err(e2)) => assert_eq!(e1, e2),
            (x, y) => panic!("results differ: {:?} / {:?}", x, y),
        }
    }
}

#[test]
fn bare_cr_before_marker_is_rejected() {
    assert_eq!(
        custom_note("\rx", "\rx"),
        Err(ParseError { kind: ErrorKind::MalformedLineEnding, position: 0 })
    );
    assert_eq!(
        custom_note(";", " \n\r;x"),
        Err(ParseError { kind: ErrorKind::MalformedLineEnding, position: 2 })
    );
    assert_eq!(
        custom_attribute_or_note(";", "\r;x"),
        Err(ParseError { kind: ErrorKind::MalformedLineEnding, position: 0 })
    );
}

#[test]
fn crlf_matches_lf_on_any_text() {
    let texts = [
        "junk\n[a];h\nk:v;n\n\n ;c\nj:w\n",
        "[a]\nk:v]\n",
        "[a\nk:v\n",
        "[a]\noops\n",
        "\n\n[s]\nk:\n[t]\n\n",
    ];
    for text in texts {
        let lf = custom_document(";", text);
        let crlf = custom_document(";", &text.replace('\n', "\r\n"));
        match (lf, crlf) {
            (Ok((r1, d1)), Ok((r2, d2))) => {
                assert_eq!(r1.replace('\n', "\r\n"), r2);
                let mut n1 = d1.names();
                let mut n2 = d2.names();
                n1.sort();
                n2.sort();
                assert_eq!(n1, n2);
                for n in &n1 {
                    let mut e1 = d1.get(n).unwrap().entries();
                    let mut e2 = d2.get(n).unwrap().entries();
                    e1.sort();
                    e2.sort();
                    assert_eq!(e1, e2);
                }
            }
            (Err(e1), Err(e2)) => assert_eq!(e1.kind, e2.kind),
            (x, y) => panic!("results differ: {:?} / {:?}", x, y),
        }
    }
}
