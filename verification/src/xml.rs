//! XML event stream: tokens, the tokenizer boundary, and byte emission.
//!
//! A member's XML is turned into a sequence of tokens, each carrying the exact
//! byte slice it came from, so that re-emitting untouched tokens reproduces
//! the input bytes exactly.

use vstd::prelude::*;

use crate::Error;

verus! {

/// What kind of XML event a token stands for.
#[derive(Clone, Copy, Debug, PartialEq, Eq, Structural)]
pub enum TokenKind {
    /// An opening tag with attributes, `<tag ...>`.
    StartTag,
    /// A closing tag, `</tag>`.
    EndTag,
    /// A self-closing tag with attributes, `<tag ... />`.
    EmptyTag,
    /// Any other event (text, comments, declarations, ...), kept verbatim.
    Other,
}

/// The mathematical model of one token.
pub ghost struct TokenModel {
    pub kind: TokenKind,
    pub name: Seq<u8>,
    pub attrs: Seq<(Seq<u8>, Seq<u8>)>,
    pub raw: Seq<u8>,
}

/// One XML event: its kind, element name, attributes (raw keys and values),
/// and the exact input bytes it spans.
pub struct XmlToken {
    pub kind: TokenKind,
    pub name: Vec<u8>,
    pub attrs: Vec<(Vec<u8>, Vec<u8>)>,
    pub raw: Vec<u8>,
}

/// The models of an attribute vector's elements.
pub open spec fn attrs_view(s: Seq<(Vec<u8>, Vec<u8>)>) -> Seq<(Seq<u8>, Seq<u8>)> {
    s.map_values(|p: (Vec<u8>, Vec<u8>)| (p.0@, p.1@))
}

impl View for XmlToken {
    type V = TokenModel;

    open spec fn view(&self) -> TokenModel {
        TokenModel {
            kind: self.kind,
            name: self.name@,
            attrs: attrs_view(self.attrs@),
            raw: self.raw@,
        }
    }
}

/// The models of a token vector's elements.
pub open spec fn toks_view(s: Seq<XmlToken>) -> Seq<TokenModel> {
    s.map_values(|t: XmlToken| t@)
}

/// The concatenation of every token's raw bytes.
pub open spec fn concat_raws(s: Seq<TokenModel>) -> Seq<u8>
    decreases s.len(),
{
    if s.len() == 0 {
        Seq::empty()
    } else {
        concat_raws(s.drop_last()) + s.last().raw
    }
}

/// The token sequence the XML tokenizer yields for the given bytes, or `None`
/// when it rejects them as malformed. The result depends on the bytes alone.
pub uninterp spec fn xml_tokens_of(b: Seq<u8>) -> Option<Seq<TokenModel>>;

#[verifier::external_type_specification]
#[verifier::external_body]
#[verifier::reject_recursive_types(T)]
pub struct ExCursor<T>(std::io::Cursor<T>);

#[verifier::external_type_specification]
#[verifier::external_body]
#[verifier::reject_recursive_types(R)]
pub struct ExReader<R>(quick_xml::reader::Reader<R>);

#[verifier::external_type_specification]
#[verifier::external_body]
pub struct ExBytesStart<'a>(quick_xml::events::BytesStart<'a>);

#[verifier::external_type_specification]
#[verifier::external_body]
pub struct ExBytesEnd<'a>(quick_xml::events::BytesEnd<'a>);

#[verifier::external_type_specification]
#[verifier::external_body]
pub struct ExEvent<'a>(quick_xml::events::Event<'a>);

/// An XML scan in progress: the reader, and a sticky failure flag so that a
/// scan that has reported an error cannot be resumed. The flag is private
/// and never cleared, so a scanner without it is one with a clean history.
pub struct XmlScanner {
    inner: quick_xml::reader::Reader<std::io::Cursor<Vec<u8>>>,
    failed: bool,
}

/// The bytes a scanner was opened over.
pub uninterp spec fn xml_doc(sc: XmlScanner) -> Seq<u8>;

/// How many of those bytes the scanner has consumed.
pub uninterp spec fn xml_pos(sc: XmlScanner) -> int;

/// The models of the tokens the scanner has yielded so far.
pub uninterp spec fn xml_read(sc: XmlScanner) -> Seq<TokenModel>;

/// Opens a scanner over a copy of the given bytes.
///
/// Relies on quick-xml's `Reader::from_reader`: a fresh reader stands at the
/// start of its input with nothing consumed.
#[verifier::external_body]
fn xml_open(src: &Vec<u8>) -> (r: XmlScanner)
    ensures
        xml_doc(r) == src@,
        xml_pos(r) == 0,
        xml_read(r) == Seq::<TokenModel>::empty(),
        !r.failed,
{
    let inner = quick_xml::reader::Reader::from_reader(std::io::Cursor::new(src.clone()));
    XmlScanner { inner, failed: false }
}

/// The element name of a start or empty tag.
///
/// Relies on quick-xml's `BytesStart::name`.
#[verifier::external_body]
fn name_of(e: &quick_xml::events::BytesStart) -> Vec<u8> {
    e.name().as_ref().as_bytes().to_vec()
}

/// The attributes of a start or empty tag, as raw key and value bytes, or a
/// markup error when an attribute is malformed.
///
/// Relies on quick-xml's `BytesStart::attributes`.
#[verifier::external_body]
fn attrs_of(e: &quick_xml::events::BytesStart) -> (r: Result<Vec<(Vec<u8>, Vec<u8>)>, Error>) {
    e.attributes().map(
        |a| a.ok().map(|a| (a.key.as_ref().as_bytes().to_vec(), a.value.as_bytes().to_vec())),
    ).collect::<Option<Vec<(Vec<u8>, Vec<u8>)>>>().ok_or(Error::Markup)
}

/// The element name of a closing tag.
///
/// Relies on quick-xml's `BytesEnd::name`.
#[verifier::external_body]
fn end_name_of(e: &quick_xml::events::BytesEnd) -> Vec<u8> {
    e.name().as_ref().as_bytes().to_vec()
}

/// Converts one XML event into a token carrying the given raw span: one arm
/// per event kind, moving the name and attributes over.
///
/// Relies on quick-xml's `Event` variants.
#[verifier::external_body]
fn mk_token(ev: &quick_xml::events::Event, raw: Vec<u8>) -> (r: Result<Option<XmlToken>, Error>) {
    Ok(match ev {
        quick_xml::events::Event::Eof => None,
        quick_xml::events::Event::Start(e) => Some(XmlToken { kind: TokenKind::StartTag, name: name_of(e), attrs: attrs_of(e)?, raw }),
        quick_xml::events::Event::Empty(e) => Some(XmlToken { kind: TokenKind::EmptyTag, name: name_of(e), attrs: attrs_of(e)?, raw }),
        quick_xml::events::Event::End(e) => Some(XmlToken { kind: TokenKind::EndTag, name: end_name_of(e), attrs: Vec::new(), raw }),
        _ => Some(XmlToken { kind: TokenKind::Other, name: Vec::new(), attrs: Vec::new(), raw }),
    })
}

/// Reads the next XML event of a clean scan as a token.
///
/// Relies on quick-xml's `Reader::read_event_into` and `buffer_position`:
/// events come in input order and parsing errs exactly on malformed markup;
/// positions grow with each event and slice the input into contiguous raw
/// spans; a clean scan reaches end of input exactly when every byte is
/// consumed, and by then the events read are the whole token sequence of the
/// document. Parsing depends on the input bytes alone. A failure, whether
/// from the reader or from attribute extraction, marks the scanner failed,
/// and a failed scanner may not be read again.
#[verifier::external_body]
fn xml_next(sc: &mut XmlScanner) -> (r: Result<Option<XmlToken>, Error>)
    requires
        !old(sc).failed,
    ensures
        xml_doc(*final(sc)) == xml_doc(*old(sc)),
        r matches Ok(Some(t)) ==> !final(sc).failed && xml_read(*final(sc)) == xml_read(
            *old(sc),
        ).push(t@) && xml_pos(*old(sc)) < xml_pos(*final(sc)) <= xml_doc(*final(sc)).len()
            && t@.raw == xml_doc(*final(sc)).subrange(xml_pos(*old(sc)), xml_pos(*final(sc))),
        r == Result::<Option<XmlToken>, Error>::Ok(None) ==> !final(sc).failed && xml_tokens_of(
            xml_doc(*final(sc)),
        ) == Some(xml_read(*old(sc))) && xml_pos(*old(sc)) == xml_doc(*final(sc)).len() && xml_pos(
            *final(sc),
        ) == xml_pos(*old(sc)) && xml_read(*final(sc)) == xml_read(*old(sc)),
        r matches Err(e) ==> final(sc).failed && e == Error::Markup && xml_tokens_of(
            xml_doc(*final(sc)),
        ) is None,
{
    let pos = sc.inner.buffer_position() as usize;
    let mut buf: Vec<u8> = Vec::new();
    let ev = match sc.inner.read_event_into(&mut buf) {
        Ok(e) => e,
        Err(_) => { sc.failed = true; return Err(Error::Markup); },
    };
    let end = sc.inner.buffer_position() as usize;
    let raw = sc.inner.get_ref().get_ref()[pos..end].to_vec();
    match mk_token(&ev, raw) {
        Ok(t) => Ok(t),
        Err(e) => { sc.failed = true; Err(e) },
    }
}

/// Tokenizes one XML member: the returned tokens are the document's event
/// stream, and their raw spans concatenate to exactly the input bytes.
pub fn tokenize(src: &Vec<u8>) -> (r: Result<Vec<XmlToken>, Error>)
    ensures
        r matches Ok(toks) ==> xml_tokens_of(src@) == Some(toks_view(toks@)) && concat_raws(
            toks_view(toks@),
        ) == src@,
        r matches Err(e) ==> xml_tokens_of(src@) is None && e == Error::Markup,
{
    let mut rd = xml_open(src);
    let mut toks: Vec<XmlToken> = Vec::new();
    proof {
        assert(src@.subrange(0, 0) =~= Seq::<u8>::empty());
        assert(toks_view(toks@) =~= Seq::<TokenModel>::empty());
    }
    loop
        invariant
            !rd.failed,
            xml_doc(rd) == src@,
            xml_read(rd) == toks_view(toks@),
            0 <= xml_pos(rd) <= src@.len(),
            concat_raws(toks_view(toks@)) == src@.subrange(0, xml_pos(rd)),
        decreases src@.len() - xml_pos(rd),
    {
        let ghost prev_pos = xml_pos(rd);
        let ghost prev = toks@;
        match xml_next(&mut rd) {
            Ok(Some(t)) => {
                toks.push(t);
                proof {
                    assert(toks_view(toks@) =~= toks_view(prev).push(toks@[prev.len() as int]@));
                    assert(toks_view(toks@).drop_last() =~= toks_view(prev));
                    assert(toks_view(toks@).last() == toks@[prev.len() as int]@);
                    assert(src@.subrange(0, xml_pos(rd)) =~= src@.subrange(0, prev_pos)
                        + src@.subrange(prev_pos, xml_pos(rd)));
                }
            },
            Ok(None) => {
                proof {
                    assert(src@.subrange(0, src@.len() as int) =~= src@);
                }
                return Ok(toks);
            },
            Err(e) => {
                return Err(e);
            },
        }
    }
}

/// Compares two byte strings.
pub fn bytes_eq(a: &[u8], b: &[u8]) -> (r: bool)
    ensures
        r == (a@ == b@),
{
    if a.len() != b.len() {
        return false;
    }
    let mut i: usize = 0;
    while i < a.len()
        invariant
            i <= a@.len(),
            a@.len() == b@.len(),
            forall|j: int| 0 <= j < i ==> a@[j] == b@[j],
        decreases a@.len() - i,
    {
        if a[i] != b[i] {
            return false;
        }
        i = i + 1;
    }
    proof {
        assert(a@ =~= b@);
    }
    true
}

/// Serializes tokens back to bytes by concatenating their raw spans.
pub fn emit(toks: &Vec<XmlToken>) -> (r: Vec<u8>)
    ensures
        r@ == concat_raws(toks_view(toks@)),
{
    let mut out: Vec<u8> = Vec::new();
    let mut i: usize = 0;
    while i < toks.len()
        invariant
            i <= toks@.len(),
            out@ == concat_raws(toks_view(toks@.take(i as int))),
        decreases toks@.len() - i,
    {
        let mut k: usize = 0;
        let raw = &toks[i].raw;
        while k < raw.len()
            invariant
                k <= raw@.len(),
                i < toks@.len(),
                raw == &toks@[i as int].raw,
                out@ == concat_raws(toks_view(toks@.take(i as int))) + raw@.take(k as int),
            decreases raw@.len() - k,
        {
            out.push(raw[k]);
            k = k + 1;
        }
        proof {
            assert(raw@.take(raw@.len() as int) =~= raw@);
            assert(toks_view(toks@.take(i + 1)).drop_last() =~= toks_view(toks@.take(i as int)));
            assert(toks_view(toks@.take(i + 1)).last() == toks@[i as int]@);
        }
        i = i + 1;
    }
    proof {
        assert(toks@.take(toks@.len() as int) =~= toks@);
    }
    out
}

} // verus!
