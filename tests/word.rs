use autoword::word::{Member, WordError, WordParser, DEFAULT_MODE};

fn member(name: &str, data: &[u8], mode: Option<u32>) -> Member {
    Member { name: name.to_string(), data: data.to_vec(), unix_mode: mode }
}

#[test]
fn body_member_is_decoded_and_repaired() {
    let ms = vec![
        member("[Content_Types].xml", b"<Types/>", None),
        member("word/document.xml", "<w:t>{{</w:t><w:t>x}}</w:t> \u{e9}".as_bytes(), Some(0o644)),
    ];
    match WordParser::document_xml_of(&ms) {
        Ok(s) => assert_eq!(s, "<w:t>{{ x }}</w:t> \u{e9}"),
        Err(_) => panic!("body should be found"),
    }
}

#[test]
fn missing_body_member_is_not_found() {
    let ms = vec![member("word/styles.xml", b"<s/>", None)];
    assert!(matches!(WordParser::document_xml_of(&ms), Err(WordError::Other(_))));
}

#[test]
fn invalid_utf8_body_is_a_decode_error() {
    let ms = vec![member("word/document.xml", &[0xff, 0xfe, 0x41], None)];
    assert!(matches!(WordParser::document_xml_of(&ms), Err(WordError::FromUTF(_))));
}

#[test]
fn writing_replaces_only_the_body_member() {
    let ms = vec![
        member("a.bin", &[1, 2, 3], Some(0o600)),
        member("word/document.xml", b"old", None),
        member("media/x.png", &[9, 9], None),
    ];
    let out = WordParser::with_document_xml(&ms, "n\u{e9}w");
    assert_eq!(out.len(), 3);
    assert_eq!(out[0], ms[0]);
    assert_eq!(out[1].name, "word/document.xml");
    assert_eq!(out[1].data, "n\u{e9}w".as_bytes().to_vec());
    assert_eq!(out[2], ms[2]);
}

#[test]
fn round_trip_keeps_repaired_text() {
    let ms = vec![
        member("a.bin", &[0, 159, 146, 150], None),
        member("word/document.xml", b"<w:t>{{<b>a</b>.b}}</w:t>", None),
    ];
    let first = match WordParser::document_xml_of(&ms) {
        Ok(s) => s,
        Err(_) => panic!("body should be found"),
    };
    let written = WordParser::with_document_xml(&ms, &first);
    let second = match WordParser::document_xml_of(&written) {
        Ok(s) => s,
        Err(_) => panic!("body should be found"),
    };
    assert_eq!(first, second);
    assert_eq!(written[0].data, ms[0].data);
}

#[test]
fn mode_defaults_when_absent() {
    assert_eq!(WordParser::mode_of(&member("x", b"", None)), DEFAULT_MODE);
    assert_eq!(DEFAULT_MODE, 0o755);
    assert_eq!(WordParser::mode_of(&member("x", b"", Some(0o600))), 0o600);
}
