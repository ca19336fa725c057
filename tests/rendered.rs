use autoword::rendered::{RenderError, Renderer};

#[test]
fn body_is_replaced_by_rendered_blocks_and_section_properties() {
    let xml = "<?xml version=\"1.0\"?><w:document xmlns:w=\"urn:w\"><w:body a=\"1\"><w:p>old</w:p><w:sectPr><w:pgSz/></w:sectPr></w:body></w:document>";
    let blocks = vec!["<w:p>X</w:p>".to_string(), "<w:p>Y</w:p>".to_string()];
    match Renderer::assemble_document(xml, &blocks) {
        Ok(s) => assert_eq!(
            s,
            "<?xml version=\"1.0\"?><w:document xmlns:w=\"urn:w\"><w:body a=\"1\"><w:p>X</w:p><w:p>Y</w:p><w:sectPr><w:pgSz/></w:sectPr></w:body></w:document>"
        ),
        Err(_) => panic!("document should assemble"),
    }
}

#[test]
fn body_without_section_properties_gets_none() {
    let xml = "<d><body><p/></body>\u{e9}</d>";
    match Renderer::assemble_document(xml, &vec![]) {
        Ok(s) => assert_eq!(s, "<d><w:body></w:body>\u{e9}</d>"),
        Err(_) => panic!("document should assemble"),
    }
}

#[test]
fn render_needs_a_body() {
    assert!(matches!(Renderer::assemble_document("<d/>", &vec![]), Err(RenderError::MissingBody)));
    assert!(matches!(Renderer::assemble_document("<d>", &vec![]), Err(RenderError::XmlError(_))));
}
