use confini::ini::{attribute, from_str, section, AttributeOrNote};

#[test]
fn ini() {
    assert_eq!(
        attribute("key:value"),
        Ok((
            "".to_owned(),
            AttributeOrNote::Attribute(("key".to_owned(), "value".to_owned()))
        ))
    );

    let (rest, (name, sec)) =
        section("[section];note1\nkey1:value1;note2\nkey2:value2\n").unwrap();
    assert_eq!(rest, "\n");
    assert_eq!(name, "section");
    assert_eq!(sec.len(), 2);
    assert_eq!(sec.get("key1"), Some(&"value1".to_owned()));
    assert_eq!(sec.get("key2"), Some(&"value2".to_owned()));

    let doc = from_str("[section1]\nkey1:value1\nkey2:value2\n\n[section2]\n\n\nkey3:value3").unwrap();
    assert_eq!(doc.len(), 2);
    let s1 = doc.get("section1").unwrap();
    assert_eq!(s1.len(), 2);
    assert_eq!(s1.get("key1"), Some(&"value1".to_owned()));
    assert_eq!(s1.get("key2"), Some(&"value2".to_owned()));
    let s2 = doc.get("section2").unwrap();
    assert_eq!(s2.len(), 1);
    assert_eq!(s2.get("key3"), Some(&"value3".to_owned()));
}
