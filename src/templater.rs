use vstd::prelude::*;
use vstd::string::StringSliceAdditionalSpecFns;
use vstd::utf8::{decode_utf8, encode_utf8};
use crate::schemas::BlockData;
use crate::text::{
    chars_of, has_prefix, is_ws, leading_ws, prefix_at, push_all, slice_str, string_of, trim,
    trim_chars, trim_start,
};
use crate::xml::{parse_xml, ranges_in, xml_nodes_of, XmlNode};

verus! {

/// std's I/O error, carried as a file error.
#[verifier::external_type_specification]
#[verifier::external_body]
pub struct ExIoError(std::io::Error);

/// Splits a document body into named template fragments.
pub struct Templater {}

/// A direct child element of the document body: its flattened text and its raw XML.
#[derive(Debug, Clone, PartialEq)]
pub struct BodyChild {
    pub text: String,
    pub raw: String,
}

pub enum TemplaterError {
    Io(std::io::Error),
    XmlError(roxmltree::Error),
    MissingBody,
}

/// Opens a fragment: `#! BLOCK: name`.
pub open spec fn block_marker() -> Seq<char> {
    seq!['#', '!', ' ', 'B', 'L', 'O', 'C', 'K', ':']
}

/// Closes a fragment: `#! ENDBLOCK`.
pub open spec fn end_marker() -> Seq<char> {
    seq!['#', '!', ' ', 'E', 'N', 'D', 'B', 'L', 'O', 'C', 'K']
}

/// Marks authoring text inside a fragment: `#!`.
pub open spec fn escape_marker() -> Seq<char> {
    seq!['#', '!']
}

/// `s` with every occurrence of `p` taken out, scanning left to right.
pub open spec fn remove_all(s: Seq<char>, p: Seq<char>) -> Seq<char>
    decreases s.len(),
{
    if p.len() == 0 || s.len() == 0 {
        s
    } else if has_prefix(s, p) {
        remove_all(s.subrange(p.len() as int, s.len() as int), p)
    } else {
        seq![s[0]] + remove_all(s.drop_first(), p)
    }
}

pub open spec fn opens_block(text: Seq<char>) -> bool {
    has_prefix(text, block_marker())
}

pub open spec fn closes_block(text: Seq<char>) -> bool {
    has_prefix(trim_start(text), end_marker())
}

/// The fragment name that an opening marker's text gives.
pub open spec fn block_name(text: Seq<char>) -> Seq<char> {
    trim(remove_all(text, block_marker()))
}

pub open spec fn is_escaped(text: Seq<char>) -> bool {
    has_prefix(trim_start(text), escape_marker())
}

/// Typographic double quotes made plain.
pub open spec fn unquote(s: Seq<char>) -> Seq<char> {
    s.map_values(|c: char| if c == '\u{201c}' || c == '\u{201d}' { '"' } else { c })
}

/// What a node inside a fragment contributes: for escaped authoring text, the text without its
/// first `#!` and with plain quotes; for any other node, its raw XML.
pub open spec fn escaped_line(text: Seq<char>, raw: Seq<char>) -> Seq<char> {
    if is_escaped(text) {
        let k = text.len() - trim_start(text).len();
        unquote(text.subrange(0, k) + text.subrange(k + 2, text.len() as int))
    } else {
        raw
    }
}

/// The lines joined with a newline between each two.
pub open spec fn join_lines(ls: Seq<Seq<char>>) -> Seq<char>
    decreases ls.len(),
{
    if ls.len() == 0 {
        seq![]
    } else if ls.len() == 1 {
        ls[0]
    } else {
        join_lines(ls.drop_last()) + seq!['\n'] + ls.last()
    }
}

/// State of the scan over the body's children.
pub struct Scan {
    pub in_block: bool,
    pub name: Seq<char>,
    pub lines: Seq<Seq<char>>,
    pub blocks: Map<Seq<char>, Seq<char>>,
}

pub open spec fn start_scan() -> Scan {
    Scan { in_block: false, name: seq![], lines: seq![], blocks: Map::empty() }
}

/// One child, given as (text, raw XML).
pub open spec fn scan_step(st: Scan, c: (Seq<char>, Seq<char>)) -> Scan {
    if !st.in_block {
        if opens_block(c.0) {
            Scan { in_block: true, name: block_name(c.0), lines: seq![], ..st }
        } else {
            st
        }
    } else if closes_block(c.0) {
        Scan { in_block: false, blocks: st.blocks.insert(st.name, join_lines(st.lines)), ..st }
    } else {
        Scan { lines: st.lines.push(escaped_line(c.0, c.1)), ..st }
    }
}

pub open spec fn scan_from(st: Scan, cs: Seq<(Seq<char>, Seq<char>)>) -> Scan
    decreases cs.len(),
{
    if cs.len() == 0 {
        st
    } else {
        scan_step(scan_from(st, cs.drop_last()), cs.last())
    }
}

/// The fragments, by name, that the children given as (text, raw XML) hold.
pub open spec fn extracted(cs: Seq<(Seq<char>, Seq<char>)>) -> Map<Seq<char>, Seq<char>> {
    scan_from(start_scan(), cs).blocks
}

pub open spec fn children_view(cs: Seq<BodyChild>) -> Seq<(Seq<char>, Seq<char>)> {
    cs.map_values(|c: BodyChild| (c.text@, c.raw@))
}

/// The fragments as a map from name to content.
pub open spec fn blocks_map(bs: Seq<BlockData>) -> Map<Seq<char>, Seq<char>>
    decreases bs.len(),
{
    if bs.len() == 0 {
        Map::empty()
    } else {
        blocks_map(bs.drop_last()).insert(bs.last().block_name@, bs.last().block_content@)
    }
}

pub open spec fn names_distinct(bs: Seq<BlockData>) -> bool {
    forall|i: int, j: int| #![trigger bs[i], bs[j]] 0 <= i < j < bs.len() ==> bs[i].block_name@ != bs[j].block_name@
}

// The parsed document's nodes, as `parse_xml` gives them.

/// The first element named `body` from `from` on, or -1.
pub open spec fn find_body(nodes: Seq<XmlNode>, from: int) -> int
    decreases nodes.len() - from,
{
    if from < 0 || from >= nodes.len() {
        -1
    } else if nodes[from].is_element && nodes[from].name@ == seq!['b', 'o', 'd', 'y'] {
        from
    } else {
        find_body(nodes, from + 1)
    }
}

/// The first node from `from` on at depth `d` or less, or the number of nodes.
pub open spec fn find_shallow(nodes: Seq<XmlNode>, d: int, from: int) -> int
    decreases nodes.len() - from,
{
    if from < 0 || from >= nodes.len() {
        nodes.len() as int
    } else if nodes[from].depth <= d {
        from
    } else {
        find_shallow(nodes, d, from + 1)
    }
}

/// One past the last descendant of node `i`.
pub open spec fn subtree_end(nodes: Seq<XmlNode>, i: int) -> int {
    find_shallow(nodes, nodes[i].depth as int, i + 1)
}

/// The text nodes among `nodes[a..b]`, concatenated.
pub open spec fn text_range(nodes: Seq<XmlNode>, a: int, b: int) -> Seq<char>
    decreases b - a,
{
    if b <= a {
        seq![]
    } else {
        text_range(nodes, a, b - 1) + if nodes[b - 1].is_text {
            nodes[b - 1].text@
        } else {
            seq![]
        }
    }
}

/// The text content of node `i`: its text descendants, in order.
pub open spec fn node_text(nodes: Seq<XmlNode>, i: int) -> Seq<char> {
    text_range(nodes, i, subtree_end(nodes, i))
}

/// The characters of the document's UTF-8 bytes `a..b`.
pub open spec fn raw_of(xml: Seq<char>, a: int, b: int) -> Seq<char> {
    decode_utf8(encode_utf8(xml).subrange(a, b))
}

/// The element children, at depth `d`, among `nodes[a..e]`, as (text, raw XML).
pub open spec fn kids(xml: Seq<char>, nodes: Seq<XmlNode>, d: int, a: int, e: int) -> Seq<
    (Seq<char>, Seq<char>),
>
    decreases e - a,
{
    if e <= a {
        seq![]
    } else {
        kids(xml, nodes, d, a, e - 1) + if nodes[e - 1].depth == d && nodes[e - 1].is_element {
            seq![
                (node_text(nodes, e - 1), raw_of(xml, nodes[e - 1].start as int, nodes[e - 1].end as int)),
            ]
        } else {
            seq![]
        }
    }
}

/// The element children of the body node `b`.
pub open spec fn body_children(xml: Seq<char>, nodes: Seq<XmlNode>, b: int) -> Seq<
    (Seq<char>, Seq<char>),
> {
    kids(xml, nodes, nodes[b].depth + 1, b + 1, subtree_end(nodes, b))
}

proof fn lemma_blocks_map_update(bs: Seq<BlockData>, i: int, b: BlockData)
    requires
        names_distinct(bs),
        0 <= i < bs.len(),
        bs[i].block_name@ == b.block_name@,
    ensures
        names_distinct(bs.update(i, b)),
        blocks_map(bs.update(i, b)) == blocks_map(bs).insert(b.block_name@, b.block_content@),
    decreases bs.len(),
{
    let u = bs.update(i, b);
    assert forall|p: int, q: int| 0 <= p < q < u.len() implies #[trigger] u[p].block_name@
        != #[trigger] u[q].block_name@ by {
        assert(bs[p].block_name@ != bs[q].block_name@);
        assert(u[p].block_name@ == bs[p].block_name@);
        assert(u[q].block_name@ == bs[q].block_name@);
    }
    let k = b.block_name@;
    if i == bs.len() - 1 {
        assert(u.drop_last() =~= bs.drop_last());
        assert(blocks_map(bs).insert(k, b.block_content@) =~= blocks_map(bs.drop_last()).insert(
            k,
            b.block_content@,
        ));
    } else {
        let d = bs.drop_last();
        assert forall|p: int, q: int| 0 <= p < q < d.len() implies #[trigger] d[p].block_name@
            != #[trigger] d[q].block_name@ by {
            assert(d[p] == bs[p] && d[q] == bs[q]);
            assert(bs[p].block_name@ != bs[q].block_name@);
        }
        assert(u.drop_last() =~= d.update(i, b));
        assert(d[i] == bs[i]);
        lemma_blocks_map_update(d, i, b);
        assert(bs[bs.len() - 1].block_name@ != bs[i].block_name@);
        assert(bs.last().block_name@ != k);
        assert(blocks_map(u) =~= blocks_map(bs).insert(k, b.block_content@));
    }
}

/// Adds a fragment, replacing one of the same name.
fn put_block(blocks: &mut Vec<BlockData>, name: String, content: String)
    requires
        names_distinct(old(blocks)@),
    ensures
        names_distinct(final(blocks)@),
        blocks_map(final(blocks)@) == blocks_map(old(blocks)@).insert(name@, content@),
{
    let mut i: usize = 0;
    while i < blocks.len()
        invariant
            i <= blocks@.len(),
            blocks@ == old(blocks)@,
            names_distinct(blocks@),
            forall|k: int| 0 <= k < i ==> #[trigger] blocks@[k].block_name@ != name@,
        decreases blocks@.len() - i,
    {
        if blocks[i].block_name == name {
            let b = BlockData { block_name: name, block_content: content };
            proof {
                lemma_blocks_map_update(blocks@, i as int, b);
            }
            blocks[i] = b;
            return;
        }
        i = i + 1;
    }
    let ghost pre = blocks@;
    let b = BlockData { block_name: name, block_content: content };
    blocks.push(b);
    proof {
        assert(blocks@.drop_last() =~= pre);
        assert forall|p: int, q: int| 0 <= p < q < blocks@.len() implies #[trigger] blocks@[p].block_name@
            != #[trigger] blocks@[q].block_name@ by {
            if q == blocks@.len() - 1 {
                assert(blocks@[p] == pre[p]);
                assert(pre[p].block_name@ != name@);
            } else {
                assert(blocks@[p] == pre[p] && blocks@[q] == pre[q]);
                assert(pre[p].block_name@ != pre[q].block_name@);
            }
        }
    }
}

/// `v` with every occurrence of `p` taken out.
fn remove_all_chars(v: &[char], p: &[char]) -> (r: Vec<char>)
    requires
        p@.len() > 0,
    ensures
        r@ == remove_all(v@, p@),
{
    let mut out: Vec<char> = Vec::new();
    let mut i: usize = 0;
    assert(v@.subrange(0, v@.len() as int) =~= v@);
    assert(out@ + remove_all(v@, p@) =~= remove_all(v@, p@));
    while i < v.len()
        invariant
            p@.len() > 0,
            i <= v@.len(),
            out@ + remove_all(v@.subrange(i as int, v@.len() as int), p@) == remove_all(v@, p@),
        decreases v@.len() - i,
    {
        let ghost t = v@.subrange(i as int, v@.len() as int);
        if prefix_at(v, i, p) {
            assert(t.subrange(p@.len() as int, t.len() as int) =~= v@.subrange(
                i + p@.len(),
                v@.len() as int,
            ));
            i = i + p.len();
        } else {
            let ghost o = out@;
            out.push(v[i]);
            assert(t.drop_first() =~= v@.subrange(i + 1, v@.len() as int));
            assert(out@ + remove_all(t.drop_first(), p@) =~= o + (seq![t[0]] + remove_all(
                t.drop_first(),
                p@,
            )));
            i = i + 1;
        }
    }
    assert(v@.subrange(i as int, v@.len() as int) =~= Seq::<char>::empty());
    out
}

impl Templater {
    /// The fragment name of an opening marker's text: every `#! BLOCK:` taken out, trimmed.
    pub fn block_name_of(text: &[char]) -> (r: Vec<char>)
        ensures
            r@ == block_name(text@),
    {
        let marker: Vec<char> = vec!['#', '!', ' ', 'B', 'L', 'O', 'C', 'K', ':'];
        assert(marker@ == block_marker());
        let removed = remove_all_chars(text, &marker);
        trim_chars(&removed)
    }

    /// What a node inside a fragment contributes: escaped authoring text loses its first `#!`
    /// and gets plain quotes; any other node gives its raw XML.
    pub fn escape_xml_tag(text: &str, raw_xml: &str) -> (r: String)
        ensures
            r@ == escaped_line(text@, raw_xml@),
    {
        let v = chars_of(text);
        let k = leading_ws(&v);
        if !(k < v.len() && k + 1 < v.len() && v[k] == '#' && v[k + 1] == '!') {
            proof {
                let t = trim_start(v@);
                if has_prefix(t, escape_marker()) {
                    assert(t.subrange(0, 2)[0] == t[0] && t.subrange(0, 2)[1] == t[1]);
                }
            }
            return raw_xml.to_owned();
        }
        proof {
            let t = trim_start(v@);
            assert(t.subrange(0, 2) =~= escape_marker());
        }
        let mut out: Vec<char> = Vec::new();
        let mut i: usize = 0;
        let ghost src = v@.subrange(0, k as int) + v@.subrange(k + 2, v@.len() as int);
        while i < v.len()
            invariant
                k + 1 < v@.len(),
                i <= v@.len(),
                src == v@.subrange(0, k as int) + v@.subrange(k + 2, v@.len() as int),
                i <= k ==> out@ == unquote(src.subrange(0, i as int)),
                k < i <= k + 2 ==> out@ == unquote(src.subrange(0, k as int)),
                i > k + 2 ==> out@ == unquote(src.subrange(0, i - 2)),
            decreases v@.len() - i,
        {
            if i != k && i != k + 1 {
                let c = v[i];
                let ghost o = out@;
                if c == '\u{201c}' || c == '\u{201d}' {
                    out.push('"');
                } else {
                    out.push(c);
                }
                proof {
                    let j: int = if i < k { i as int } else { i - 2 };
                    assert(src[j] == c);
                    assert(src.subrange(0, j + 1) =~= src.subrange(0, j).push(c));
                    assert(unquote(src.subrange(0, j + 1)) =~= unquote(src.subrange(0, j)).push(
                        out@.last(),
                    ));
                }
            }
            i = i + 1;
        }
        proof {
            assert(src.subrange(0, v@.len() - 2) =~= src);
            assert(v@.len() - trim_start(v@).len() == k);
        }
        string_of(&out)
    }

    /// The fragments, by name, among the body's children in order: from each `#! BLOCK: name`
    /// to the next `#! ENDBLOCK`, the nodes between, each as `escape_xml_tag` gives it, joined
    /// with newlines. A later fragment replaces an earlier one of the same name; a fragment
    /// that is not closed is dropped.
    pub fn extract_blocks(children: &Vec<BodyChild>) -> (r: Vec<BlockData>)
        ensures
            names_distinct(r@),
            blocks_map(r@) == extracted(children_view(children@)),
    {
        let ghost cv = children_view(children@);
        let open_marker: Vec<char> = vec!['#', '!', ' ', 'B', 'L', 'O', 'C', 'K', ':'];
        let close_marker: Vec<char> = vec!['#', '!', ' ', 'E', 'N', 'D', 'B', 'L', 'O', 'C', 'K'];
        let mut blocks: Vec<BlockData> = Vec::new();
        let mut in_block = false;
        let mut name: Vec<char> = Vec::new();
        let mut content: Vec<char> = Vec::new();
        let mut n_lines: usize = 0;
        let ghost mut lines: Seq<Seq<char>> = seq![];
        let mut i: usize = 0;
        while i < children.len()
            invariant
                cv == children_view(children@),
                open_marker@ == block_marker(),
                close_marker@ == end_marker(),
                i <= children@.len(),
                names_distinct(blocks@),
                content@ == join_lines(lines),
                n_lines == lines.len(),
                lines.len() <= i,
                scan_from(start_scan(), cv.subrange(0, i as int)) == (Scan {
                    in_block,
                    name: name@,
                    lines,
                    blocks: blocks_map(blocks@),
                }),
            decreases children@.len() - i,
        {
            let ghost before = Scan { in_block, name: name@, lines, blocks: blocks_map(blocks@) };
            let text = chars_of(&children[i].text);
            proof {
                assert(cv.subrange(0, i + 1).drop_last() =~= cv.subrange(0, i as int));
                assert(cv.subrange(0, i + 1).last() == (children@[i as int].text@, children@[i as int].raw@));
            }
            if !in_block {
                if starts_with_marker(&text, &open_marker) {
                    in_block = true;
                    name = Self::block_name_of(&text);
                    content = Vec::new();
                    n_lines = 0;
                    proof {
                        lines = seq![];
                    }
                }
            } else {
                let k = leading_ws(&text);
                if prefix_at(&text, k, &close_marker) {
                    let block_name = string_of(&name);
                    let block_content = string_of(&content);
                    put_block(&mut blocks, block_name, block_content);
                    in_block = false;
                } else {
                    let line = Self::escape_xml_tag(&children[i].text, &children[i].raw);
                    let line_chars = chars_of(&line);
                    if n_lines > 0 {
                        content.push('\n');
                    }
                    push_all(&mut content, &line_chars);
                    proof {
                        let nl = lines.push(line@);
                        assert(nl.drop_last() =~= lines);
                        if lines.len() == 0 {
                            assert(content@ =~= nl[0]);
                        } else {
                            assert(content@ =~= join_lines(lines) + seq!['\n'] + line@);
                        }
                        lines = nl;
                    }
                    n_lines = n_lines + 1;
                }
            }
            proof {
                assert(scan_step(before, cv.subrange(0, i + 1).last()) == (Scan {
                    in_block,
                    name: name@,
                    lines,
                    blocks: blocks_map(blocks@),
                }));
            }
            i = i + 1;
        }
        assert(cv.subrange(0, i as int) =~= cv);
        blocks
    }
}

impl Templater {
    /// The text content of node `i`: the text of its text descendants, in document order.
    pub fn get_node_text(nodes: &Vec<XmlNode>, i: usize) -> (r: String)
        requires
            i < nodes@.len(),
        ensures
            r@ == node_text(nodes@, i as int),
    {
        let d = nodes[i].depth;
        let mut out: Vec<char> = Vec::new();
        if nodes[i].is_text {
            let t = chars_of(&nodes[i].text);
            push_all(&mut out, &t);
        }
        assert(text_range(nodes@, i as int, i as int) =~= Seq::<char>::empty());
        assert(out@ =~= text_range(nodes@, i as int, i + 1));
        let n = nodes.len();
        let mut j: usize = i + 1;
        while j < nodes.len() && nodes[j].depth > d
            invariant
                i < j <= nodes@.len(),
                d == nodes@[i as int].depth,
                out@ == text_range(nodes@, i as int, j as int),
                find_shallow(nodes@, d as int, i + 1) == find_shallow(nodes@, d as int, j as int),
            decreases nodes@.len() - j,
        {
            if nodes[j].is_text {
                let t = chars_of(&nodes[j].text);
                push_all(&mut out, &t);
            }
            assert(out@ =~= text_range(nodes@, i as int, j + 1));
            j = j + 1;
        }
        string_of(&out)
    }

    /// The element children of the body node `b`, each with its text and its raw XML.
    pub fn body_children_of(xml: &str, nodes: &Vec<XmlNode>, b: usize) -> (r: Vec<BodyChild>)
        requires
            b < nodes@.len(),
            ranges_in(xml.spec_bytes(), nodes@),
        ensures
            children_view(r@) == body_children(xml@, nodes@, b as int),
    {
        let d = nodes[b].depth;
        let mut out: Vec<BodyChild> = Vec::new();
        let len = nodes.len();
        let mut j: usize = b + 1;
        assert(children_view(out@) =~= kids(xml@, nodes@, d + 1, b + 1, j as int));
        while j < nodes.len() && nodes[j].depth > d
            invariant
                b < j <= nodes@.len(),
                d == nodes@[b as int].depth,
                ranges_in(xml.spec_bytes(), nodes@),
                children_view(out@) == kids(xml@, nodes@, d + 1, b + 1, j as int),
                find_shallow(nodes@, d as int, b + 1) == find_shallow(nodes@, d as int, j as int),
            decreases nodes@.len() - j,
        {
            if nodes[j].depth - 1 == d && nodes[j].is_element {
                let text = Self::get_node_text(nodes, j);
                let n = &nodes[j];
                assert(n.start <= n.end <= xml.spec_bytes().len());
                let raw = slice_str(xml, n.start, n.end).to_owned();
                let ghost pre = out@;
                out.push(BodyChild { text, raw });
                assert(children_view(out@) =~= children_view(pre).push((text@, raw@)));
            }
            assert(children_view(out@) =~= kids(xml@, nodes@, d + 1, b + 1, j + 1));
            j = j + 1;
        }
        out
    }

    /// The first element named `body`.
    pub(crate) fn find_body_index(nodes: &Vec<XmlNode>) -> (r: Option<usize>)
        ensures
            match r {
                Some(b) => b == find_body(nodes@, 0) && b < nodes@.len(),
                None => find_body(nodes@, 0) < 0,
            },
    {
        let body: Vec<char> = vec!['b', 'o', 'd', 'y'];
        let mut i: usize = 0;
        while i < nodes.len()
            invariant
                i <= nodes@.len(),
                body@ == seq!['b', 'o', 'd', 'y'],
                find_body(nodes@, 0) == find_body(nodes@, i as int),
            decreases nodes@.len() - i,
        {
            if nodes[i].is_element {
                let name = chars_of(&nodes[i].name);
                if name.len() == 4 && starts_with_marker(&name, &body) {
                    assert(name@ =~= name@.subrange(0, 4));
                    return Some(i);
                }
                assert(name@ != seq!['b', 'o', 'd', 'y']) by {
                    if name@ == seq!['b', 'o', 'd', 'y'] {
                        assert(name@.subrange(0, 4) =~= name@);
                    }
                }
            }
            i = i + 1;
        }
        None
    }

    /// Parses the body XML and splits its body's children into named fragments, as
    /// `extract_blocks` does.
    pub fn parse_document_xml(xml_content: &str) -> (r: Result<Vec<BlockData>, TemplaterError>)
        ensures
            match xml_nodes_of(xml_content@) {
                None => r matches Err(TemplaterError::XmlError(_)),
                Some(nodes) => if find_body(nodes, 0) < 0 {
                    r matches Err(TemplaterError::MissingBody)
                } else {
                    r matches Ok(bs) && names_distinct(bs@) && blocks_map(bs@) == extracted(
                        body_children(xml_content@, nodes, find_body(nodes, 0)),
                    )
                },
            },
    {
        let nodes = match parse_xml(xml_content) {
            Ok(nodes) => nodes,
            Err(e) => {
                return Err(TemplaterError::XmlError(e));
            },
        };
        let b = match Self::find_body_index(&nodes) {
            Some(b) => b,
            None => {
                return Err(TemplaterError::MissingBody);
            },
        };
        let children = Self::body_children_of(xml_content, &nodes, b);
        Ok(Self::extract_blocks(&children))
    }
}

/// A well-formed fragment in the body: its opening marker with the name, nodes none of which
/// closes, and a closing marker.
pub open spec fn well_formed_block(b: Seq<(Seq<char>, Seq<char>)>, name: Seq<char>) -> bool {
    &&& b.len() >= 2
    &&& opens_block(b[0].0)
    &&& block_name(b[0].0) == name
    &&& closes_block(b.last().0)
    &&& forall|k: int| 1 <= k < b.len() - 1 ==> !closes_block(#[trigger] b[k].0)
}

pub open spec fn concat_all(bs: Seq<Seq<(Seq<char>, Seq<char>)>>) -> Seq<(Seq<char>, Seq<char>)>
    decreases bs.len(),
{
    if bs.len() == 0 {
        seq![]
    } else {
        concat_all(bs.drop_last()) + bs.last()
    }
}

proof fn lemma_scan_concat(st: Scan, a: Seq<(Seq<char>, Seq<char>)>, b: Seq<(Seq<char>, Seq<char>)>)
    ensures
        scan_from(st, a + b) == scan_from(scan_from(st, a), b),
    decreases b.len(),
{
    if b.len() == 0 {
        assert(a + b =~= a);
    } else {
        assert((a + b).drop_last() =~= a + b.drop_last());
        assert((a + b).last() == b.last());
        lemma_scan_concat(st, a, b.drop_last());
    }
}

/// Inside an open fragment, nodes that do not close it keep it open and commit nothing.
proof fn lemma_scan_open(st: Scan, rest: Seq<(Seq<char>, Seq<char>)>)
    requires
        st.in_block,
        forall|k: int| 0 <= k < rest.len() ==> !closes_block(#[trigger] rest[k].0),
    ensures
        scan_from(st, rest).in_block,
        scan_from(st, rest).name == st.name,
        scan_from(st, rest).blocks == st.blocks,
    decreases rest.len(),
{
    if rest.len() > 0 {
        let d = rest.drop_last();
        assert forall|k: int| 0 <= k < d.len() implies !closes_block(#[trigger] d[k].0) by {
            assert(d[k] == rest[k]);
        }
        lemma_scan_open(st, d);
        assert(!closes_block(rest[rest.len() - 1].0));
    }
}

/// A well-formed fragment, scanned outside any fragment, adds exactly its own name.
proof fn lemma_scan_block(st: Scan, b: Seq<(Seq<char>, Seq<char>)>, name: Seq<char>)
    requires
        !st.in_block,
        well_formed_block(b, name),
    ensures
        !scan_from(st, b).in_block,
        scan_from(st, b).blocks.dom() == st.blocks.dom().insert(name),
{
    let opened = scan_step(st, b[0]);
    let first = b.subrange(0, 1);
    let mid = b.subrange(1, b.len() - 1);
    assert(first.drop_last() =~= Seq::<(Seq<char>, Seq<char>)>::empty());
    assert(scan_from(st, Seq::<(Seq<char>, Seq<char>)>::empty()) == st);
    assert(first.last() == b[0]);
    assert(scan_from(st, first) == opened);
    assert forall|k: int| 0 <= k < mid.len() implies !closes_block(#[trigger] mid[k].0) by {
        assert(mid[k] == b[k + 1]);
    }
    lemma_scan_open(opened, mid);
    lemma_scan_concat(st, first, mid);
    assert(b.drop_last() =~= first + mid);
    let inner = scan_from(st, b.drop_last());
    assert(inner.blocks.insert(name, join_lines(inner.lines)).dom() =~= st.blocks.dom().insert(name));
}

/// A body made of well-formed fragments with distinct names gives exactly one fragment for
/// each name.
pub proof fn lemma_well_formed_blocks(
    blocks: Seq<Seq<(Seq<char>, Seq<char>)>>,
    names: Seq<Seq<char>>,
)
    requires
        blocks.len() == names.len(),
        names.no_duplicates(),
        forall|k: int| 0 <= k < blocks.len() ==> well_formed_block(#[trigger] blocks[k], names[k]),
    ensures
        extracted(concat_all(blocks)).dom() == names.to_set(),
        extracted(concat_all(blocks)).dom().len() == names.len(),
        !scan_from(start_scan(), concat_all(blocks)).in_block,
    decreases blocks.len(),
{
    if blocks.len() == 0 {
        assert(names.to_set() =~= Set::<Seq<char>>::empty());
    } else {
        let bd = blocks.drop_last();
        let nd = names.drop_last();
        assert forall|k: int| 0 <= k < bd.len() implies well_formed_block(#[trigger] bd[k], nd[k]) by {
            assert(bd[k] == blocks[k]);
            assert(well_formed_block(blocks[k], names[k]));
        }
        assert forall|i: int, j: int| 0 <= i < nd.len() && 0 <= j < nd.len() && i != j implies nd[i]
            != nd[j] by {
            assert(nd[i] == names[i] && nd[j] == names[j]);
        }
        lemma_well_formed_blocks(bd, nd);
        let last = blocks.last();
        assert(well_formed_block(blocks[blocks.len() - 1], names[names.len() - 1]));
        lemma_scan_concat(start_scan(), concat_all(bd), last);
        lemma_scan_block(scan_from(start_scan(), concat_all(bd)), last, names.last());
        assert(names.to_set() =~= nd.to_set().insert(names.last())) by {
            assert forall|x: Seq<char>| names.contains(x) implies nd.contains(x) || x == names.last() by {
                let i = choose|i: int| 0 <= i < names.len() && names[i] == x;
                if i < names.len() - 1 {
                    assert(nd[i] == x);
                }
            }
            assert forall|x: Seq<char>| nd.contains(x) implies names.contains(x) by {
                let i = choose|i: int| 0 <= i < nd.len() && nd[i] == x;
                assert(names[i] == x);
            }
            assert(names[names.len() - 1] == names.last());
        }
        names.unique_seq_to_set();
    }
}

/// A fragment that is opened and never closed before the body ends adds nothing: the
/// fragments are those found before its opening marker.
pub proof fn lemma_unterminated_block_dropped(
    before: Seq<(Seq<char>, Seq<char>)>,
    opener: (Seq<char>, Seq<char>),
    rest: Seq<(Seq<char>, Seq<char>)>,
)
    requires
        !scan_from(start_scan(), before).in_block,
        opens_block(opener.0),
        forall|k: int| 0 <= k < rest.len() ==> !closes_block(#[trigger] rest[k].0),
    ensures
        extracted(before + seq![opener] + rest) == extracted(before),
{
    let st = scan_from(start_scan(), before);
    lemma_scan_concat(start_scan(), before, seq![opener]);
    lemma_scan_concat(start_scan(), before + seq![opener], rest);
    let s1 = seq![opener];
    assert(s1.drop_last() =~= Seq::<(Seq<char>, Seq<char>)>::empty());
    assert(scan_from(st, Seq::<(Seq<char>, Seq<char>)>::empty()) == st);
    assert(s1.last() == opener);
    assert(scan_from(st, s1) == scan_step(st, opener));
    lemma_scan_open(scan_step(st, opener), rest);
}

fn starts_with_marker(text: &Vec<char>, marker: &Vec<char>) -> (r: bool)
    ensures
        r == has_prefix(text@, marker@),
{
    let r = prefix_at(text, 0, marker);
    assert(text@.subrange(0, text@.len() as int) =~= text@);
    r
}

} // verus!
