use vstd::prelude::*;
use vstd::string::StringSliceAdditionalSpecFns;
use vstd::utf8::{decode_utf8, encode_utf8, valid_utf8};
use crate::repair::{lemma_repair_idempotent, repair, sanitize_broken_tags, settled};

verus! {

broadcast use vstd::utf8::encode_utf8_valid_utf8, vstd::utf8::encode_utf8_decode_utf8;

/// std's UTF-8 decoding error, carried as a decode error.
#[verifier::external_type_specification]
#[verifier::external_body]
pub struct ExFromUtf8Error(std::string::FromUtf8Error);

/// zip's error type, carried as an archive error.
#[verifier::external_type_specification]
#[verifier::external_body]
pub struct ExZipError(zip::result::ZipError);

pub enum WordError {
    Io(std::io::Error),
    FromUTF(std::string::FromUtf8Error),
    Zip(zip::result::ZipError),
    Other(String),
}

/// One member of a document package: its name, its bytes and its Unix permission bits, if the
/// archive records them.
#[derive(Debug, Clone, PartialEq)]
pub struct Member {
    pub name: String,
    pub data: Vec<u8>,
    pub unix_mode: Option<u32>,
}

/// Reads and rewrites the body XML of a document package.
pub struct WordParser {}

/// The name of the package member that holds the body XML: `word/document.xml`.
pub open spec fn body_member() -> Seq<char> {
    seq!['w', 'o', 'r', 'd', '/', 'd', 'o', 'c', 'u', 'm', 'e', 'n', 't', '.', 'x', 'm', 'l']
}

/// Permission bits given to a member that records none.
pub const DEFAULT_MODE: u32 = 0o755;

/// The first member from `from` on that holds the body XML, or -1.
pub open spec fn find_member(ms: Seq<Member>, from: int) -> int
    decreases ms.len() - from,
{
    if from < 0 || from >= ms.len() {
        -1
    } else if ms[from].name@ == body_member() {
        from
    } else {
        find_member(ms, from + 1)
    }
}

/// The repaired body text of a package, where it has a body member holding valid UTF-8.
pub open spec fn read_body(ms: Seq<Member>) -> Option<Seq<char>> {
    let k = find_member(ms, 0);
    if k >= 0 && valid_utf8(ms[k].data@) {
        Some(repair(decode_utf8(ms[k].data@)))
    } else {
        None
    }
}

/// `after` is `before` with the body member's bytes replaced by the UTF-8 of `text`; every
/// other member, and every name and mode, is kept.
pub open spec fn writes_body(before: Seq<Member>, after: Seq<Member>, text: Seq<char>) -> bool {
    &&& after.len() == before.len()
    &&& forall|i: int|
        #![trigger after[i]]
        0 <= i < before.len() ==> {
            &&& after[i].name@ == before[i].name@
            &&& after[i].unix_mode == before[i].unix_mode
            &&& after[i].data@ == if before[i].name@ == body_member() {
                encode_utf8(text)
            } else {
                before[i].data@
            }
        }
}

/// Relies on `String::from_utf8`: the string where the bytes are valid UTF-8, an error where
/// they are not.
#[verifier::external_body]
fn string_from_utf8(b: Vec<u8>) -> (r: Result<String, std::string::FromUtf8Error>)
    ensures
        match r {
            Ok(s) => valid_utf8(b@) && s@ == decode_utf8(b@),
            Err(_) => !valid_utf8(b@),
        },
{
    String::from_utf8(b)
}

fn copy_bytes(b: &[u8]) -> (r: Vec<u8>)
    ensures
        r@ == b@,
{
    let mut r: Vec<u8> = Vec::new();
    let mut i: usize = 0;
    while i < b.len()
        invariant
            i <= b@.len(),
            r@ == b@.subrange(0, i as int),
        decreases b@.len() - i,
    {
        r.push(b[i]);
        i = i + 1;
        assert(r@ =~= b@.subrange(0, i as int));
    }
    assert(b@.subrange(0, b@.len() as int) =~= b@);
    r
}

fn is_body_member(name: &String) -> (r: bool)
    ensures
        r == (name@ == body_member()),
{
    let target = String::from_str("word/document.xml");
    proof {
        reveal_strlit("word/document.xml");
        assert(target@ =~= body_member());
    }
    *name == target
}

impl WordParser {
    /// The repaired body text of the package's members: the first member named
    /// `word/document.xml`, decoded as UTF-8, with placeholder repair applied.
    pub fn document_xml_of(members: &Vec<Member>) -> (r: Result<String, WordError>)
        ensures
            find_member(members@, 0) < 0 <==> r matches Err(WordError::Other(_)),
            ({
                let k = find_member(members@, 0);
                k >= 0 && !valid_utf8(members@[k].data@) <==> r matches Err(WordError::FromUTF(_))
            }),
            r matches Ok(s) ==> read_body(members@) == Some(s@),
            r is Ok <==> read_body(members@) is Some,
    {
        let mut i: usize = 0;
        while i < members.len()
            invariant
                i <= members@.len(),
                find_member(members@, 0) == find_member(members@, i as int),
            decreases members@.len() - i,
        {
            if is_body_member(&members[i].name) {
                let data = copy_bytes(members[i].data.as_slice());
                return match string_from_utf8(data) {
                    Ok(text) => Ok(sanitize_broken_tags(text.as_str())),
                    Err(e) => Err(WordError::FromUTF(e)),
                };
            }
            i = i + 1;
        }
        Err(WordError::Other(String::from_str("document.xml not found")))
    }

    /// The package's members with the body member's bytes replaced by `new_document_xml`.
    pub fn with_document_xml(members: &Vec<Member>, new_document_xml: &str) -> (r: Vec<Member>)
        ensures
            writes_body(members@, r@, new_document_xml@),
    {
        let bytes = new_document_xml.as_bytes();
        let mut out: Vec<Member> = Vec::new();
        let mut i: usize = 0;
        while i < members.len()
            invariant
                i <= members@.len(),
                bytes@ == encode_utf8(new_document_xml@),
                out@.len() == i,
                writes_body(members@.subrange(0, i as int), out@, new_document_xml@),
            decreases members@.len() - i,
        {
            let m = &members[i];
            let data = if is_body_member(&m.name) {
                copy_bytes(bytes)
            } else {
                copy_bytes(m.data.as_slice())
            };
            let ghost pre = out@;
            out.push(Member { name: m.name.clone(), data, unix_mode: m.unix_mode });
            proof {
                let b = members@.subrange(0, i + 1);
                assert forall|j: int| 0 <= j < b.len() implies #[trigger] out@[j].name@ == b[j].name@
                    && out@[j].unix_mode == b[j].unix_mode && out@[j].data@ == (if b[j].name@
                    == body_member() {
                    encode_utf8(new_document_xml@)
                } else {
                    b[j].data@
                }) by {
                    if j < i {
                        assert(out@[j] == pre[j]);
                        assert(b[j] == members@.subrange(0, i as int)[j]);
                    }
                }
            }
            i = i + 1;
        }
        assert(members@.subrange(0, members@.len() as int) =~= members@);
        out
    }

    /// The permission bits to write a member with: its own, or `DEFAULT_MODE`.
    pub fn mode_of(m: &Member) -> (r: u32)
        ensures
            r == match m.unix_mode {
                Some(x) => x,
                None => DEFAULT_MODE,
            },
    {
        match m.unix_mode {
            Some(x) => x,
            None => DEFAULT_MODE,
        }
    }
}

/// Writing a package's repaired body back and reading it again gives the same text, and
/// keeps every other member's bytes; this holds wherever no repaired placeholder of the body
/// holds `}}`.
pub proof fn lemma_round_trip(p: Seq<Member>, after: Seq<Member>, text: Seq<char>)
    requires
        read_body(p) == Some(text),
        settled(decode_utf8(p[find_member(p, 0)].data@)),
        writes_body(p, after, text),
    ensures
        read_body(after) == Some(text),
        forall|i: int|
            0 <= i < p.len() && p[i].name@ != body_member() ==> (#[trigger] after[i]).data@
                == p[i].data@,
{
    let k = find_member(p, 0);
    lemma_find_member_same(p, after, 0);
    assert(after[k].data@ == encode_utf8(text));
    lemma_repair_idempotent(decode_utf8(p[k].data@));
}

proof fn lemma_find_member_same(p: Seq<Member>, after: Seq<Member>, from: int)
    requires
        p.len() == after.len(),
        forall|i: int| 0 <= i < p.len() ==> (#[trigger] after[i]).name@ == p[i].name@,
        from >= 0,
    ensures
        find_member(after, from) == find_member(p, from),
        find_member(p, from) >= 0 ==> from <= find_member(p, from) < p.len() && p[find_member(p, from)].name@ == body_member(),
    decreases p.len() - from,
{
    if from < p.len() {
        assert(after[from].name@ == p[from].name@);
        lemma_find_member_same(p, after, from + 1);
    }
}

} // verus!
