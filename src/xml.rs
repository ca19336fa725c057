use vstd::prelude::*;
use vstd::string::StringSliceAdditionalSpecFns;
use vstd::utf8::is_char_boundary;

verus! {

/// roxmltree's parse error, carried as an XML error.
#[verifier::external_type_specification]
#[verifier::external_body]
pub struct ExXmlError(roxmltree::Error);

/// An attribute of an element: its qualified name and its value.
#[derive(Debug, Clone, PartialEq)]
pub struct XmlAttribute {
    pub name: String,
    pub value: String,
}

/// One node of a parsed XML document, as the nodes stand in document order.
#[derive(Debug, Clone, PartialEq)]
pub struct XmlNode {
    pub is_element: bool,
    pub is_text: bool,
    /// Local tag name of an element; empty for other nodes.
    pub name: String,
    /// Text of a text node.
    pub text: String,
    /// Number of nodes from this one up to the document root, both included.
    pub depth: usize,
    /// Byte range of the node in the document.
    pub start: usize,
    pub end: usize,
    pub attributes: Vec<XmlAttribute>,
}

/// Every node's byte range is a slice of the document.
pub open spec fn ranges_in(doc: Seq<u8>, nodes: Seq<XmlNode>) -> bool {
    forall|i: int|
        0 <= i < nodes.len() ==> {
            let n = #[trigger] nodes[i];
            &&& n.start <= n.end <= doc.len()
            &&& is_char_boundary(doc, n.start as int)
            &&& is_char_boundary(doc, n.end as int)
        }
}

/// The nodes, in document order, of the XML document with this text; `None` where it is not
/// well-formed XML.
pub uninterp spec fn xml_nodes_of(xml: Seq<char>) -> Option<Seq<XmlNode>>;

/// Relies on roxmltree: `Document::parse` (an error exactly where the text is not well-formed
/// XML) and `Node::descendants` (the nodes in document order), with each node's kind, local tag
/// name, text, ancestors, byte range (a slice of the text) and attributes.
#[verifier::external_body]
pub(crate) fn parse_xml(xml: &str) -> (r: Result<Vec<XmlNode>, roxmltree::Error>)
    ensures
        match r {
            Ok(v) => xml_nodes_of(xml@) == Some(v@) && ranges_in(xml.spec_bytes(), v@),
            Err(_) => xml_nodes_of(xml@) is None,
        },
{
    let doc = roxmltree::Document::parse(xml)?;
    Ok(doc.descendants().map(|n| XmlNode {
        is_element: n.is_element(),
        is_text: n.is_text(),
        name: n.tag_name().name().to_string(),
        text: n.text().unwrap_or("").to_string(),
        depth: n.ancestors().count(),
        start: n.range().start,
        end: n.range().end,
        attributes: n.attributes().map(|a| XmlAttribute { name: a.name().to_string(), value: a.value().to_string() }).collect(),
    }).collect())
}

} // verus!
