//! The boundary to the XML tokenizer and writer: what the codec takes from
//! `quick_xml`, and what it assumes of it.

use vstd::prelude::*;
use quick_xml::events::{BytesEnd, BytesStart, BytesText, Event};
use quick_xml::{Reader, Writer};
use crate::xmltree::{pairs, XmlAttribute};

verus! {

/// A tokenizer of quick_xml over a text: its `Reader` on the text's bytes,
/// and the event that it read last.
#[verifier::external_body]
pub struct TokenReader<'a> {
    inner: Reader<&'a [u8]>,
    held: Option<Event<'static>>,
}

/// The kinds of event that the tokenizer tells apart.
#[derive(Debug, Clone, Copy, PartialEq, Eq, Structural)]
pub enum EventKind {
    /// An opening tag.
    Start,
    /// A closing tag.
    End,
    /// An element that closes itself.
    Empty,
    /// Character data.
    Text,
    /// A comment.
    Comment,
    /// A section of unparsed character data.
    CData,
    /// The declaration at the head of a document.
    Decl,
    /// A processing instruction.
    PI,
    /// A document type.
    DocType,
    /// The end of the input.
    Eof,
    /// Input that the tokenizer rejects.
    Malformed,
}

/// One event of the tokenizer, with what the codec reads of it.
pub ghost enum Piece {
    /// An opening tag: its name, where its bytes are text, and its
    /// attributes in their order with their values unescaped, where all of
    /// them are well formed.
    Start { tag: Option<Seq<char>>, attributes: Option<Seq<(Seq<char>, Seq<char>)>> },
    /// A closing tag: its name, where its bytes are text.
    End { tag: Option<Seq<char>> },
    /// Character data with its entities resolved, where all of them are
    /// known.
    Text { value: Option<Seq<char>> },
    Empty,
    Comment,
    CData,
    Decl,
    PI,
    DocType,
    Malformed,
}

/// The kind of an event.
pub open spec fn kind_of(piece: Piece) -> EventKind {
    match piece {
        Piece::Start { .. } => EventKind::Start,
        Piece::End { .. } => EventKind::End,
        Piece::Text { .. } => EventKind::Text,
        Piece::Empty => EventKind::Empty,
        Piece::Comment => EventKind::Comment,
        Piece::CData => EventKind::CData,
        Piece::Decl => EventKind::Decl,
        Piece::PI => EventKind::PI,
        Piece::DocType => EventKind::DocType,
        Piece::Malformed => EventKind::Malformed,
    }
}

/// The name that a tag bears; nothing for another event.
pub open spec fn name_in(piece: Piece) -> Option<Seq<char>> {
    match piece {
        Piece::Start { tag, .. } => tag,
        Piece::End { tag } => tag,
        _ => None,
    }
}

/// The attributes of an opening tag; nothing for another event.
pub open spec fn attributes_in(piece: Piece) -> Option<Seq<(Seq<char>, Seq<char>)>> {
    match piece {
        Piece::Start { attributes, .. } => attributes,
        _ => None,
    }
}

/// The character data of a text event; nothing for another event.
pub open spec fn value_in(piece: Piece) -> Option<Seq<char>> {
    match piece {
        Piece::Text { value } => value,
        _ => None,
    }
}

/// The text that an optional string holds.
pub open spec fn text_of(s: Option<String>) -> Option<Seq<char>> {
    match s {
        Some(s) => Some(s@),
        None => None,
    }
}

/// The events that a tokenizer of quick_xml yields for `text`, one by one,
/// before it reports the end of the input: a `Reader` on the text, with
/// `trim_text` switched on.
pub uninterp spec fn events(text: Seq<char>) -> Seq<Piece>;

/// The events that a reader will still yield before it reports the end of
/// its input.
pub uninterp spec fn pending(reader: TokenReader) -> Seq<Piece>;

/// The event that a reader read last.
pub uninterp spec fn held(reader: TokenReader) -> Piece;

/// `Reader::from_str` of quick_xml, with `Reader::trim_text` switched on: a
/// tokenizer at the start of `text`. Character data comes without the white
/// space around it, and not at all where nothing is left. What the reader
/// will yield is a function of the text alone.
#[verifier::external_body]
pub(crate) fn open_reader<'a>(text: &'a str) -> (reader: TokenReader<'a>)
    ensures
        pending(reader) == events(text@),
{
    let mut inner = Reader::from_str(text);
    inner.trim_text(true);
    TokenReader { inner, held: None }
}

/// `Reader::read_event` of quick_xml: reads the next of the pending events
/// and tells its kind, or the end of the input where none is pending. The
/// input is finite and every event consumes some of it; after the end of
/// the input, and after an error of the reader, nothing is pending.
#[verifier::external_body]
pub(crate) fn next_kind(reader: &mut TokenReader) -> (kind: EventKind)
    ensures
        pending(*old(reader)).len() == 0 ==> kind is Eof && pending(*final(reader)).len() == 0,
        pending(*old(reader)).len() > 0 ==> kind == kind_of(pending(*old(reader))[0]) && held(
            *final(reader),
        ) == pending(*old(reader))[0] && pending(*final(reader)) == pending(
            *old(reader),
        ).drop_first(),
{
    reader.held = reader.inner.read_event(&mut Vec::new()).map(|e| e.into_owned()).ok();
    match &reader.held {
        Some(Event::Start(_)) => EventKind::Start,
        Some(Event::End(_)) => EventKind::End,
        Some(Event::Empty(_)) => EventKind::Empty,
        Some(Event::Text(_)) => EventKind::Text,
        Some(Event::Comment(_)) => EventKind::Comment,
        Some(Event::CData(_)) => EventKind::CData,
        Some(Event::Decl(_)) => EventKind::Decl,
        Some(Event::PI(_)) => EventKind::PI,
        Some(Event::DocType(_)) => EventKind::DocType,
        Some(Event::Eof) => EventKind::Eof,
        None => EventKind::Malformed,
    }
}

/// `BytesStart::name` and `BytesEnd::name` of quick_xml, on the tag that
/// the reader read last: its name, or nothing where its bytes are no text
/// or the event is no tag.
#[verifier::external_body]
pub(crate) fn held_name(reader: &TokenReader) -> (name: Option<String>)
    ensures
        text_of(name) == name_in(held(*reader)),
{
    match &reader.held {
        Some(Event::Start(e)) => String::from_utf8(e.name().to_vec()).ok(),
        Some(Event::End(e)) => String::from_utf8(e.name().to_vec()).ok(),
        _ => None,
    }
}

/// `BytesStart::attributes` of quick_xml, on the opening tag that the
/// reader read last: its attributes in their order, each value unescaped by
/// `Attribute::unescaped_value`, or nothing where one of them is malformed
/// or the event is no opening tag.
#[verifier::external_body]
pub(crate) fn held_attributes(reader: &TokenReader) -> (attributes: Option<Vec<XmlAttribute>>)
    ensures
        match attributes {
            Some(list) => attributes_in(held(*reader)) == Some(pairs(list@)),
            None => attributes_in(held(*reader)) is None,
        },
{
    match &reader.held {
        Some(Event::Start(e)) => e.attributes().map(
            |a|
                {
                    let a = a.ok()?;
                    let key = String::from_utf8(a.key.to_vec()).ok()?;
                    let value = String::from_utf8(a.unescaped_value().ok()?.into_owned()).ok()?;
                    Some(XmlAttribute { key, value })
                },
        ).collect(),
        _ => None,
    }
}

/// `BytesText::unescaped` of quick_xml, on the character data that the
/// reader read last: the text with its entities resolved, or nothing where
/// one of them is unknown or the event is no text.
#[verifier::external_body]
pub(crate) fn held_text(reader: &TokenReader) -> (value: Option<String>)
    ensures
        text_of(value) == value_in(held(*reader)),
{
    match &reader.held {
        Some(Event::Text(e)) => String::from_utf8(e.unescaped().ok()?.into_owned()).ok(),
        _ => None,
    }
}

/// What stands for one character in escaped text: its entity for each of
/// the five characters that markup reserves, the character itself for any
/// other.
pub open spec fn entity(c: char) -> Seq<char> {
    if c == '<' {
        "&lt;"@
    } else if c == '>' {
        "&gt;"@
    } else if c == '\'' {
        "&apos;"@
    } else if c == '&' {
        "&amp;"@
    } else if c == '"' {
        "&quot;"@
    } else {
        seq![c]
    }
}

/// A text with the characters that markup reserves replaced by their
/// entities, as `quick_xml::escape::escape` does it.
pub open spec fn escaped(text: Seq<char>) -> Seq<char>
    decreases text.len(),
{
    if text.len() == 0 {
        Seq::empty()
    } else {
        escaped(text.drop_last()) + entity(text.last())
    }
}

/// One attribute as it stands in an opening tag.
pub open spec fn attribute_markup(key: Seq<char>, value: Seq<char>) -> Seq<char> {
    " "@ + key + "=\""@ + escaped(value) + "\""@
}

/// The attributes of an opening tag, in their order.
pub open spec fn attributes_markup(attributes: Seq<(Seq<char>, Seq<char>)>) -> Seq<char>
    decreases attributes.len(),
{
    if attributes.len() == 0 {
        Seq::empty()
    } else {
        attributes_markup(attributes.drop_last()) + attribute_markup(
            attributes.last().0,
            attributes.last().1,
        )
    }
}

/// An opening tag.
pub open spec fn open_tag(tag: Seq<char>, attributes: Seq<(Seq<char>, Seq<char>)>) -> Seq<char> {
    "<"@ + tag + attributes_markup(attributes) + ">"@
}

/// A closing tag.
pub open spec fn close_tag(tag: Seq<char>) -> Seq<char> {
    "</"@ + tag + ">"@
}

/// `Writer::write_event` of quick_xml on a start event that
/// `BytesStart::push_attribute` has filled: `<`, the name, then for each
/// attribute a space, the key, `="`, the escaped value and `"`, then `>`.
#[verifier::external_body]
pub(crate) fn start_markup(tag: &str, attributes: &Vec<XmlAttribute>) -> (text: String)
    ensures
        text@ == open_tag(tag@, pairs(attributes@)),
{
    let mut start = BytesStart::borrowed_name(tag.as_bytes());
    for a in attributes.iter() {
        start.push_attribute((a.key.as_str(), a.value.as_str()));
    }
    let mut writer = Writer::new(Vec::new());
    let _ = writer.write_event(Event::Start(start));
    String::from_utf8(writer.into_inner()).unwrap_or_default()
}

/// `Writer::write_event` of quick_xml on an end event: `</`, the name, `>`.
#[verifier::external_body]
pub(crate) fn end_markup(tag: &str) -> (text: String)
    ensures
        text@ == close_tag(tag@),
{
    let mut writer = Writer::new(Vec::new());
    let _ = writer.write_event(Event::End(BytesEnd::borrowed(tag.as_bytes())));
    String::from_utf8(writer.into_inner()).unwrap_or_default()
}

/// `Writer::write_event` of quick_xml on a text event that
/// `BytesText::from_plain_str` made: the escaped text.
#[verifier::external_body]
pub(crate) fn text_markup(text: &str) -> (markup: String)
    ensures
        markup@ == escaped(text@),
{
    let mut writer = Writer::new(Vec::new());
    let _ = writer.write_event(Event::Text(BytesText::from_plain_str(text)));
    String::from_utf8(writer.into_inner()).unwrap_or_default()
}

} // verus!
