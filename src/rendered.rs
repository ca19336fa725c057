use vstd::prelude::*;
use vstd::string::StringSliceAdditionalSpecFns;
use vstd::utf8::encode_utf8;
use crate::templater::{find_body, find_shallow, raw_of, subtree_end, Templater};
use crate::text::{chars_of, push_all, slice_str, starts_with_chars, string_of, suffix_str};
use crate::xml::{parse_xml, xml_nodes_of, XmlAttribute, XmlNode};

verus! {

broadcast use vstd::utf8::encode_utf8_valid_utf8;

/// Puts rendered fragments back into a document body.
pub struct Renderer {}

pub enum RenderError {
    XmlError(roxmltree::Error),
    MissingBody,
}

pub open spec fn sect_pr_name() -> Seq<char> {
    seq!['s', 'e', 'c', 't', 'P', 'r']
}

/// The first element named `name` at depth `d` among `nodes[from..end]`, or -1.
pub open spec fn find_named(nodes: Seq<XmlNode>, d: int, name: Seq<char>, from: int, end: int) -> int
    decreases end - from,
{
    if from < 0 || from >= end || from >= nodes.len() {
        -1
    } else if nodes[from].depth == d && nodes[from].is_element && nodes[from].name@ == name {
        from
    } else {
        find_named(nodes, d, name, from + 1, end)
    }
}

/// ` name="value"` for each attribute, in order.
pub open spec fn attrs_text(attrs: Seq<XmlAttribute>) -> Seq<char>
    decreases attrs.len(),
{
    if attrs.len() == 0 {
        seq![]
    } else {
        attrs_text(attrs.drop_last()) + seq![' '] + attrs.last().name@ + seq!['=', '"']
            + attrs.last().value@ + seq!['"']
    }
}

pub open spec fn concat_texts(ts: Seq<Seq<char>>) -> Seq<char>
    decreases ts.len(),
{
    if ts.len() == 0 {
        seq![]
    } else {
        concat_texts(ts.drop_last()) + ts.last()
    }
}

pub open spec fn open_tag() -> Seq<char> {
    seq!['<', 'w', ':', 'b', 'o', 'd', 'y']
}

pub open spec fn close_tag() -> Seq<char> {
    seq!['<', '/', 'w', ':', 'b', 'o', 'd', 'y', '>']
}

/// The body's section properties child, as raw XML, or nothing.
pub open spec fn sect_pr_of(xml: Seq<char>, nodes: Seq<XmlNode>, b: int) -> Seq<char> {
    let s = find_named(nodes, nodes[b].depth + 1, sect_pr_name(), b + 1, subtree_end(nodes, b));
    if s >= 0 {
        raw_of(xml, nodes[s].start as int, nodes[s].end as int)
    } else {
        seq![]
    }
}

/// The document with its body `b` replaced: the body's own tag and attributes, the rendered
/// fragments in order, the section properties, and the closing tag.
pub open spec fn rendered_document(
    xml: Seq<char>,
    nodes: Seq<XmlNode>,
    b: int,
    blocks: Seq<Seq<char>>,
) -> Seq<char> {
    let body = nodes[b];
    raw_of(xml, 0, body.start as int) + open_tag() + attrs_text(body.attributes@) + seq!['>']
        + concat_texts(blocks) + sect_pr_of(xml, nodes, b) + close_tag() + raw_of(
        xml,
        body.end as int,
        encode_utf8(xml).len() as int,
    )
}

pub open spec fn texts_view(v: Seq<String>) -> Seq<Seq<char>> {
    v.map_values(|s: String| s@)
}

fn push_str(out: &mut Vec<char>, s: &str)
    ensures
        final(out)@ == old(out)@ + s@,
{
    let c = chars_of(s);
    push_all(out, &c);
}

impl Renderer {
    fn find_sect_pr(nodes: &Vec<XmlNode>, b: usize) -> (r: Option<usize>)
        requires
            b < nodes@.len(),
        ensures
            match r {
                Some(s) => s < nodes@.len() && s as int == find_named(
                    nodes@,
                    nodes@[b as int].depth + 1,
                    sect_pr_name(),
                    b + 1,
                    subtree_end(nodes@, b as int),
                ),
                None => find_named(
                    nodes@,
                    nodes@[b as int].depth + 1,
                    sect_pr_name(),
                    b + 1,
                    subtree_end(nodes@, b as int),
                ) < 0,
            },
    {
        let d = nodes[b].depth;
        let name: Vec<char> = vec!['s', 'e', 'c', 't', 'P', 'r'];
        let len = nodes.len();
        let mut j: usize = b + 1;
        let ghost end = subtree_end(nodes@, b as int);
        while j < nodes.len() && nodes[j].depth > d
            invariant
                b < j <= nodes@.len(),
                d == nodes@[b as int].depth,
                name@ == sect_pr_name(),
                end == subtree_end(nodes@, b as int),
                find_shallow(nodes@, d as int, b + 1) == find_shallow(nodes@, d as int, j as int),
                find_named(nodes@, d + 1, sect_pr_name(), b + 1, end) == find_named(
                    nodes@,
                    d + 1,
                    sect_pr_name(),
                    j as int,
                    end,
                ),
            decreases nodes@.len() - j,
        {
            proof {
                lemma_find_shallow_ge(nodes@, d as int, j + 1);
                assert(find_shallow(nodes@, d as int, j as int)
                    == find_shallow(nodes@, d as int, j + 1));
            }
            if nodes[j].depth - 1 == d && nodes[j].is_element {
                let n = chars_of(&nodes[j].name);
                if n.len() == 6 && starts_with_chars(&n, &name) {
                    assert(n@ =~= n@.subrange(0, 6));
                    return Some(j);
                }
                assert(n@ != sect_pr_name()) by {
                    if n@ == sect_pr_name() {
                        assert(n@.subrange(0, 6) =~= n@);
                    }
                }
            }
            j = j + 1;
        }
        None
    }

    /// The document text with its body replaced by the rendered fragments, in order, between
    /// the body's own tag and the section properties the body had.
    pub fn assemble_document(document_xml: &str, rendered_blocks: &Vec<String>) -> (r: Result<String, RenderError>)
        ensures
            match xml_nodes_of(document_xml@) {
                None => r matches Err(RenderError::XmlError(_)),
                Some(nodes) => if find_body(nodes, 0) < 0 {
                    r matches Err(RenderError::MissingBody)
                } else {
                    r matches Ok(s) && s@ == rendered_document(
                        document_xml@,
                        nodes,
                        find_body(nodes, 0),
                        texts_view(rendered_blocks@),
                    )
                },
            },
    {
        let nodes = match parse_xml(document_xml) {
            Ok(nodes) => nodes,
            Err(e) => {
                return Err(RenderError::XmlError(e));
            },
        };
        let b = match Templater::find_body_index(&nodes) {
            Some(b) => b,
            None => {
                return Err(RenderError::MissingBody);
            },
        };
        let ghost xml = document_xml@;
        let ghost bytes = document_xml.spec_bytes();
        let body = &nodes[b];
        assert(body.start <= body.end <= bytes.len());
        proof {
            vstd::utf8::is_char_boundary_start_end_of_seq(bytes);
        }
        let mut out: Vec<char> = Vec::new();
        push_str(&mut out, slice_str(document_xml, 0, body.start));
        let head: Vec<char> = vec!['<', 'w', ':', 'b', 'o', 'd', 'y'];
        push_all(&mut out, &head);
        let mut a: usize = 0;
        let ghost base = out@;
        assert(body.attributes@.subrange(0, 0) =~= Seq::<XmlAttribute>::empty());
        while a < body.attributes.len()
            invariant
                a <= body.attributes@.len(),
                out@ == base + attrs_text(body.attributes@.subrange(0, a as int)),
            decreases body.attributes@.len() - a,
        {
            let attr = &body.attributes[a];
            out.push(' ');
            push_str(&mut out, attr.name.as_str());
            out.push('=');
            out.push('"');
            push_str(&mut out, attr.value.as_str());
            out.push('"');
            proof {
                let s = body.attributes@.subrange(0, a + 1);
                assert(s.drop_last() =~= body.attributes@.subrange(0, a as int));
                assert(out@ =~= base + attrs_text(s));
            }
            a = a + 1;
        }
        assert(body.attributes@.subrange(0, a as int) =~= body.attributes@);
        out.push('>');
        let ghost before_blocks = out@;
        let mut k: usize = 0;
        assert(texts_view(rendered_blocks@).subrange(0, 0) =~= Seq::<Seq<char>>::empty());
        while k < rendered_blocks.len()
            invariant
                k <= rendered_blocks@.len(),
                out@ == before_blocks + concat_texts(texts_view(rendered_blocks@).subrange(0, k as int)),
            decreases rendered_blocks@.len() - k,
        {
            push_str(&mut out, rendered_blocks[k].as_str());
            proof {
                let s = texts_view(rendered_blocks@).subrange(0, k + 1);
                assert(s.drop_last() =~= texts_view(rendered_blocks@).subrange(0, k as int));
                assert(out@ =~= before_blocks + concat_texts(s));
            }
            k = k + 1;
        }
        assert(texts_view(rendered_blocks@).subrange(0, k as int) =~= texts_view(rendered_blocks@));
        let ghost before_sect = out@;
        match Self::find_sect_pr(&nodes, b) {
            Some(s) => {
                let n = &nodes[s];
                assert(n.start <= n.end <= bytes.len());
                push_str(&mut out, slice_str(document_xml, n.start, n.end));
            },
            None => {},
        }
        assert(out@ == before_sect + sect_pr_of(xml, nodes@, b as int));
        let tail: Vec<char> = vec!['<', '/', 'w', ':', 'b', 'o', 'd', 'y', '>'];
        push_all(&mut out, &tail);
        push_str(&mut out, suffix_str(document_xml, body.end));
        assert(out@ =~= rendered_document(xml, nodes@, b as int, texts_view(rendered_blocks@)));
        Ok(string_of(&out))
    }
}

proof fn lemma_find_shallow_ge(nodes: Seq<XmlNode>, d: int, from: int)
    requires
        0 <= from <= nodes.len(),
    ensures
        from <= find_shallow(nodes, d, from) <= nodes.len(),
    decreases nodes.len() - from,
{
    if from < nodes.len() && nodes[from].depth > d {
        lemma_find_shallow_ge(nodes, d, from + 1);
    }
}

} // verus!
