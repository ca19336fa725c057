use autoword::schemas::BlockData;
use autoword::templater::{BodyChild, Templater, TemplaterError};
use autoword::xml::XmlNode;

fn doc(body: &str) -> String {
    format!(
        "<w:document xmlns:w=\"http://schemas.openxmlformats.org/wordprocessingml/2006/main\"><w:body>{}</w:body></w:document>",
        body
    )
}

fn para(text: &str) -> String {
    format!("<w:p><w:r><w:t>{}</w:t></w:r></w:p>", text)
}

fn find<'a>(blocks: &'a [BlockData], name: &str) -> Option<&'a str> {
    blocks.iter().find(|b| b.block_name == name).map(|b| b.block_content.as_str())
}

fn child(text: &str, raw: &str) -> BodyChild {
    BodyChild { text: text.to_string(), raw: raw.to_string() }
}

#[test]
fn escaped_paragraph_in_block_gives_its_text() {
    let xml = doc(&format!("{}{}{}", para("#! BLOCK: intro"), para("#!Hello {{ x }}"), para("#! ENDBLOCK")));
    let blocks = match Templater::parse_document_xml(&xml) {
        Ok(b) => b,
        Err(_) => panic!("document should parse"),
    };
    assert_eq!(blocks.len(), 1);
    assert_eq!(find(&blocks, "intro"), Some("Hello {{ x }}"));
}

#[test]
fn plain_paragraph_in_block_keeps_its_markup() {
    let p = para("Dear {{ name }}");
    let xml = doc(&format!("{}{}{}{}", para("#! BLOCK: letter"), p, para("tail"), para("  #! ENDBLOCK done")));
    let blocks = match Templater::parse_document_xml(&xml) {
        Ok(b) => b,
        Err(_) => panic!("document should parse"),
    };
    let expected = format!("{}\n{}", p, para("tail"));
    assert_eq!(find(&blocks, "letter"), Some(expected.as_str()));
}

#[test]
fn unterminated_block_is_dropped() {
    let xml = doc(&format!(
        "{}{}{}{}{}",
        para("#! BLOCK: a"),
        para("one"),
        para("#! ENDBLOCK"),
        para("#! BLOCK: b"),
        para("two")
    ));
    let blocks = match Templater::parse_document_xml(&xml) {
        Ok(b) => b,
        Err(_) => panic!("document should parse"),
    };
    assert_eq!(blocks.len(), 1);
    assert!(find(&blocks, "a").is_some());
    assert!(find(&blocks, "b").is_none());
}

#[test]
fn distinct_blocks_give_one_fragment_each() {
    let mut body = String::new();
    for name in ["a", "b", "c"].iter() {
        body.push_str(&para(&format!("#! BLOCK: {}", name)));
        body.push_str(&para(&format!("text {}", name)));
        body.push_str(&para("#! ENDBLOCK"));
        body.push_str(&para("between"));
    }
    let xml = doc(&body);
    let first = match Templater::parse_document_xml(&xml) {
        Ok(b) => b,
        Err(_) => panic!("document should parse"),
    };
    let second = match Templater::parse_document_xml(&xml) {
        Ok(b) => b,
        Err(_) => panic!("document should parse"),
    };
    assert_eq!(first.len(), 3);
    for name in ["a", "b", "c"].iter() {
        assert_eq!(find(&first, name), find(&second, name));
        assert!(find(&first, name).is_some());
    }
}

#[test]
fn duplicate_name_keeps_the_later_block() {
    let children = vec![
        child("#! BLOCK: x", "o1"),
        child("first", "<p>first</p>"),
        child("#! ENDBLOCK", "c1"),
        child("#! BLOCK: x", "o2"),
        child("second", "<p>second</p>"),
        child("#! ENDBLOCK", "c2"),
    ];
    let blocks = Templater::extract_blocks(&children);
    assert_eq!(blocks.len(), 1);
    assert_eq!(find(&blocks, "x"), Some("<p>second</p>"));
}

#[test]
fn block_name_drops_every_marker_and_trims() {
    let children = vec![
        child("#! BLOCK:  my name  ", "o"),
        child("#! ENDBLOCK", "c"),
    ];
    let blocks = Templater::extract_blocks(&children);
    assert_eq!(find(&blocks, "my name"), Some(""));
}

#[test]
fn opening_marker_must_start_the_text() {
    let children = vec![
        child(" #! BLOCK: a", "o"),
        child("body", "<p/>"),
        child("#! ENDBLOCK", "c"),
    ];
    assert!(Templater::extract_blocks(&children).is_empty());
}

#[test]
fn escape_strips_marker_and_normalizes_quotes() {
    assert_eq!(
        Templater::escape_xml_tag("  #!{% if a == \u{201c}b\u{201d} %}", "<raw/>"),
        "  {% if a == \"b\" %}"
    );
    assert_eq!(Templater::escape_xml_tag("#!x #!y", "<raw/>"), "x #!y");
    assert_eq!(Templater::escape_xml_tag("plain", "<raw/>"), "<raw/>");
}

#[test]
fn document_without_body_is_missing_body() {
    let xml = "<w:document xmlns:w=\"urn:x\"><w:other/></w:document>";
    assert!(matches!(Templater::parse_document_xml(xml), Err(TemplaterError::MissingBody)));
}

#[test]
fn malformed_xml_is_an_xml_error() {
    assert!(matches!(Templater::parse_document_xml("<a><b></a>"), Err(TemplaterError::XmlError(_))));
}

fn node(is_element: bool, name: &str, text: &str, depth: usize, start: usize, end: usize) -> XmlNode {
    XmlNode {
        is_element,
        is_text: !is_element && depth > 1,
        name: name.to_string(),
        text: text.to_string(),
        depth,
        start,
        end,
        attributes: vec![],
    }
}

#[test]
fn node_text_concatenates_text_descendants() {
    let xml = "<b><p><r>He</r><r>llo</r></p><q/></b>";
    let nodes = vec![
        node(false, "", "", 1, 0, 37),
        node(true, "b", "", 2, 0, 37),
        node(true, "p", "", 3, 3, 29),
        node(true, "r", "", 4, 6, 15),
        node(false, "", "He", 5, 9, 11),
        node(true, "r", "", 4, 15, 25),
        node(false, "", "llo", 5, 18, 21),
        node(true, "q", "", 3, 29, 33),
    ];
    assert_eq!(Templater::get_node_text(&nodes, 2), "Hello");
    assert_eq!(Templater::get_node_text(&nodes, 7), "");
    let children = Templater::body_children_of(xml, &nodes, 1);
    assert_eq!(children.len(), 2);
    assert_eq!(children[0].text, "Hello");
    assert_eq!(children[0].raw, "<p><r>He</r><r>llo</r></p>");
    assert_eq!(children[1].raw, "<q/>");
}
