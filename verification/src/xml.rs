//! The pieces of an XML text.
use crate::xml::XmlEvent::{Decl, End, Eof, Fault, Other, Start, Text};
use quick_xml::events::Event::{Decl as Head, End as Close, Eof as Over, Start as Open, Text as Chars};
use vstd::prelude::*;

verus! {

/// A piece of an XML text.
#[derive(Debug)]
pub enum XmlEvent {
    /// The start of an element: its name, and its attributes or what is wrong with them.
    Start(String, Vec<Result<(String, String), String>>),
    /// The end of an element.
    End(String),
    /// A text between pieces, with its entities as they stand.
    Text(String),
    /// The declaration at the head, without its marks.
    Decl(String),
    /// A comment, or another piece.
    Other,
    /// The end of the text.
    Eof,
    /// The text is no XML: why.
    Fault(String),
}

/// What an attribute is: its name and its value, or what is wrong with it.
pub type SpecAttr = Result<(Seq<char>, Seq<char>), Seq<char>>;

/// What a piece is: the model of [`XmlEvent`].
pub enum SpecXml {
    Start(Seq<char>, Seq<SpecAttr>),
    End(Seq<char>),
    Text(Seq<char>),
    Decl(Seq<char>),
    Other,
    Eof,
    Fault(Seq<char>),
}

/// The model of an attribute.
pub open spec fn attr_model(a: Result<(String, String), String>) -> SpecAttr {
    match a {
        Ok(p) => Ok((p.0@, p.1@)),
        Err(e) => Err(e@),
    }
}

/// The models of attributes.
pub open spec fn attr_models(s: Seq<Result<(String, String), String>>) -> Seq<SpecAttr> {
    Seq::new(s.len(), |i: int| attr_model(s[i]))
}

impl View for XmlEvent {
    type V = SpecXml;

    open spec fn view(&self) -> SpecXml {
        match *self {
            XmlEvent::Start(name, attrs) => SpecXml::Start(name@, attr_models(attrs@)),
            XmlEvent::End(name) => SpecXml::End(name@),
            XmlEvent::Text(t) => SpecXml::Text(t@),
            XmlEvent::Decl(t) => SpecXml::Decl(t@),
            XmlEvent::Other => SpecXml::Other,
            XmlEvent::Eof => SpecXml::Eof,
            XmlEvent::Fault(e) => SpecXml::Fault(e@),
        }
    }
}

/// Whether nothing comes behind a piece.
pub open spec fn ends(e: SpecXml) -> bool {
    e is Eof || e is Fault
}

/// Whether pieces end, and only at their end.
pub open spec fn terminated(es: Seq<SpecXml>) -> bool {
    &&& es.len() > 0
    &&& ends(es.last())
    &&& forall|i: int| 0 <= i < es.len() - 1 ==> !ends(#[trigger] es[i])
}

/// The text of an attribute.
pub open spec fn attr_text(a: SpecAttr) -> Seq<char> {
    match a {
        Ok(p) => seq![' '] + p.0 + seq!['=', '"'] + p.1 + seq!['"'],
        Err(_) => Seq::<char>::empty(),
    }
}

/// The text of attributes.
pub open spec fn attrs_text(s: Seq<SpecAttr>) -> Seq<char>
    decreases s.len(),
{
    if s.len() == 0 {
        Seq::<char>::empty()
    } else {
        attrs_text(s.drop_last()) + attr_text(s.last())
    }
}

/// The text of a piece.
pub open spec fn piece_text(e: SpecXml) -> Seq<char> {
    match e {
        SpecXml::Start(name, attrs) => seq!['<'] + name + attrs_text(attrs) + seq!['>'],
        SpecXml::End(name) => seq!['<', '/'] + name + seq!['>'],
        SpecXml::Text(t) => t,
        SpecXml::Decl(t) => seq!['<', '?'] + t + seq!['?', '>'],
        _ => Seq::<char>::empty(),
    }
}

/// The text of pieces, one behind the other.
pub open spec fn markup(es: Seq<SpecXml>) -> Seq<char>
    decreases es.len(),
{
    if es.len() == 0 {
        Seq::<char>::empty()
    } else {
        markup(es.drop_last()) + piece_text(es.last())
    }
}

/// Whether a name is made of the letters a to z.
pub open spec fn is_word(s: Seq<char>) -> bool {
    s.len() > 0 && forall|i: int| 0 <= i < s.len() ==> 'a' <= #[trigger] s[i] <= 'z'
}

/// Whether a text holds none of the characters that mark pieces, attributes and
/// entities.
pub open spec fn is_unmarked(s: Seq<char>) -> bool {
    forall|i: int|
        0 <= i < s.len() ==> #[trigger] s[i] != '<' && s[i] != '>' && s[i] != '"' && s[i] != '&'
            && s[i] != '\''
}

/// Whether attributes can stand in a text as they are: words with unmarked values,
/// each word once.
pub open spec fn good_attrs(s: Seq<SpecAttr>) -> bool {
    &&& forall|i: int|
        0 <= i < s.len() ==> (#[trigger] s[i]) is Ok && is_word(s[i]->Ok_0.0) && is_unmarked(
            s[i]->Ok_0.1,
        )
    &&& forall|i: int, j: int|
        0 <= i < j < s.len() ==> (#[trigger] s[i])->Ok_0.0 != (#[trigger] s[j])->Ok_0.0
}

/// Whether a piece can stand in a text as it is.
pub open spec fn good_piece(e: SpecXml) -> bool {
    match e {
        SpecXml::Start(name, attrs) => is_word(name) && good_attrs(attrs),
        SpecXml::End(name) => is_word(name),
        SpecXml::Text(t) => t.len() > 0 && !t.contains('<'),
        SpecXml::Decl(t) => t.len() > 4 && t.take(4) == seq!['x', 'm', 'l', ' '] && !t.contains('?')
            && !t.contains('>'),
        _ => false,
    }
}

/// The names of the elements that are open behind pieces; `None` where one ended that
/// was not the innermost.
pub open spec fn open_names(es: Seq<SpecXml>) -> Option<Seq<Seq<char>>>
    decreases es.len(),
{
    if es.len() == 0 {
        Some(Seq::<Seq<char>>::empty())
    } else {
        match open_names(es.drop_last()) {
            None => None,
            Some(names) => match es.last() {
                SpecXml::Start(name, _) => Some(names.push(name)),
                SpecXml::End(name) => if names.len() > 0 && names.last() == name {
                    Some(names.drop_last())
                } else {
                    None
                },
                _ => Some(names),
            },
        }
    }
}

/// Whether pieces can stand in a text one behind the other: each as it is, no text
/// behind a text or at the head, and elements within each other.
pub open spec fn good_pieces(es: Seq<SpecXml>) -> bool {
    &&& forall|i: int| 0 <= i < es.len() ==> good_piece(#[trigger] es[i])
    &&& forall|i: int|
        0 < i < es.len() ==> !((#[trigger] es[i]) is Text && es[i - 1] is Text)
    &&& es.len() > 0 ==> !(es[0] is Text)
    &&& open_names(es) is Some
}

/// A `quick_xml::Reader` over a text.
#[verifier::external_body]
pub struct XmlReader<'a> {
    inner: quick_xml::Reader<&'a [u8]>,
}

/// The pieces of a text, up to its end or to what is wrong with it.
pub uninterp spec fn xml_pieces(text: Seq<char>) -> Seq<SpecXml>;

/// The pieces that a reader has still to give.
pub uninterp spec fn xml_rest(r: XmlReader) -> Seq<SpecXml>;

impl<'a> XmlReader<'a> {
    /// `quick_xml::Reader::from_str`: a reader over a text, which gives its pieces up to
    /// its end or to the first error. A text that is put together of pieces that can
    /// stand in a text is read as those.
    #[verifier::external_body]
    pub(crate) fn new(text: &'a str) -> (r: XmlReader<'a>)
        ensures
            xml_rest(r) == xml_pieces(text@),
            terminated(xml_rest(r)),
            forall|es: Seq<SpecXml>|
                good_pieces(es) && text@ == #[trigger] markup(es) ==> xml_rest(r) == es.push(
                    SpecXml::Eof,
                ),
    {
        XmlReader { inner: quick_xml::Reader::from_str(text) }
    }

    /// `quick_xml::Reader::read_event`: the next piece.
    #[verifier::external_body]
    pub(crate) fn next(&mut self) -> (r: XmlEvent)
        requires
            xml_rest(*old(self)).len() > 0,
        ensures
            r@ == xml_rest(*old(self))[0],
            xml_rest(*final(self)) == xml_rest(*old(self)).skip(1),
    {
        let text = |b: &[u8]| String::from_utf8_lossy(b).into_owned();
        match self.inner.read_event() {
            Ok(Open(e)) => Start(
                text(e.name().0),
                e.attributes().map(
                    |a| a.map(|a| (text(a.key.0), text(&a.value))).map_err(|e| e.to_string()),
                ).collect(),
            ),
            Ok(Close(e)) => End(text(e.name().0)),
            Ok(Chars(t)) => Text(text(&t)),
            Ok(Head(t)) => Decl(text(&t)),
            Ok(Over) => Eof,
            Err(e) => Fault(e.to_string()),
            _ => Other,
        }
    }
}

} // verus!
