//! The codec of a document: decoding a stream of markup tokens into
//! elements, and encoding elements as tokens and text.

use vstd::prelude::*;
use vstd::string::StringExecFns;
use crate::markup::{
    close_tag, end_markup, escaped, events, held, held_attributes, held_name, held_text,
    next_kind, open_reader, open_tag, pending, start_markup, text_markup, EventKind, Piece,
};
use crate::xmltree::{
    bare, elements_of, lemma_element, pairs, with_elements, Element, XmlAttribute, XmlElement,
};

verus! {

/// One token of markup.
#[derive(Debug, Clone, PartialEq, Eq)]
pub enum XmlToken {
    /// An opening tag.
    Start { tag: String, attributes: Vec<XmlAttribute> },
    /// Character data.
    Text(String),
    /// A closing tag, with the name it bears.
    End(String),
}

/// The mathematical form of a token.
pub ghost enum Token {
    Start { tag: Seq<char>, attributes: Seq<(Seq<char>, Seq<char>)> },
    Text(Seq<char>),
    End(Seq<char>),
}

impl View for XmlToken {
    type V = Token;

    open spec fn view(&self) -> Token {
        match self {
            XmlToken::Start { tag, attributes } => Token::Start {
                tag: tag@,
                attributes: pairs(attributes@),
            },
            XmlToken::Text(t) => Token::Text(t@),
            XmlToken::End(tag) => Token::End(tag@),
        }
    }
}

/// The forms of a sequence of tokens.
pub open spec fn tokens_of(tokens: Seq<XmlToken>) -> Seq<Token> {
    tokens.map_values(|t: XmlToken| t@)
}

/// Why a document could not be decoded.
#[derive(Debug, PartialEq, Eq, Structural)]
pub enum DecodeError {
    /// The tokenizer rejected the input.
    Malformed,
    /// A closing tag stands where no element is open.
    UnmatchedEnd,
    /// A closing tag bears another name than the element that it closes.
    MismatchedEnd,
    /// The input ends while an element is open.
    Truncated,
}

/// One step of decoding. `open` holds the elements that are open, the
/// outermost first. An opening tag opens a new element; text becomes the
/// text of the innermost open element; a closing tag that bears that
/// element's tag closes it and appends it to the children of the one around
/// it. A closing tag with nothing but the root open is an error, and so is
/// one that bears another name than the element that it would close.
pub open spec fn step(open: Seq<Element>, token: Token) -> Result<Seq<Element>, DecodeError>
    recommends
        open.len() >= 1,
{
    let top = open.last();
    match token {
        Token::Start { tag, attributes } => Ok(open.push(bare(tag, attributes))),
        Token::Text(text) => Ok(
            open.drop_last().push(
                Element { tag: top.tag, text, attributes: top.attributes, children: top.children },
            ),
        ),
        Token::End(tag) => if open.len() <= 1 {
            Err(DecodeError::UnmatchedEnd)
        } else if tag != top.tag {
            Err(DecodeError::MismatchedEnd)
        } else {
            let outer = open[open.len() - 2];
            Ok(
                open.drop_last().drop_last().push(
                    Element {
                        tag: outer.tag,
                        text: outer.text,
                        attributes: outer.attributes,
                        children: outer.children.push(top),
                    },
                ),
            )
        },
    }
}

/// The open elements after `tokens` have been decoded one by one, starting
/// from `open`, or the first error among the steps.
pub open spec fn run(open: Seq<Element>, tokens: Seq<Token>) -> Result<Seq<Element>, DecodeError>
    decreases tokens.len(),
{
    if tokens.len() == 0 {
        Ok(open)
    } else {
        match run(open, tokens.drop_last()) {
            Ok(before) => step(before, tokens.last()),
            Err(e) => Err(e),
        }
    }
}

/// What decoding `tokens` into `root` gives: `root` with the decoded
/// elements appended to its children, or the reason for which the tokens
/// are no document: the error of the first step that fails, or `Truncated`
/// where an element is still open at the end.
pub open spec fn decode(root: Element, tokens: Seq<Token>) -> Result<Element, DecodeError> {
    match run(seq![root], tokens) {
        Err(e) => Err(e),
        Ok(open) => if open.len() == 1 {
            Ok(open[0])
        } else {
            Err(DecodeError::Truncated)
        },
    }
}

/// The tokens that encode an element: its opening tag, its text where it
/// has any, its children in order, and its closing tag.
pub open spec fn events_of(e: Element) -> Seq<Token>
    decreases e,
{
    let text = if e.text.len() > 0 {
        seq![Token::Text(e.text)]
    } else {
        Seq::empty()
    };
    seq![Token::Start { tag: e.tag, attributes: e.attributes }] + text + forest_events(e.children)
        + seq![Token::End(e.tag)]
}

/// The tokens that encode a sequence of elements, one after the other.
pub open spec fn forest_events(nodes: Seq<Element>) -> Seq<Token>
    decreases nodes,
{
    if nodes.len() == 0 {
        Seq::empty()
    } else {
        forest_events(nodes.drop_last()) + events_of(nodes.last())
    }
}

/// The text of one token.
pub open spec fn token_markup(token: Token) -> Seq<char> {
    match token {
        Token::Start { tag, attributes } => open_tag(tag, attributes),
        Token::Text(text) => escaped(text),
        Token::End(tag) => close_tag(tag),
    }
}

/// The text of a sequence of tokens.
pub open spec fn markup(tokens: Seq<Token>) -> Seq<char>
    decreases tokens.len(),
{
    if tokens.len() == 0 {
        Seq::empty()
    } else {
        markup(tokens.drop_last()) + token_markup(tokens.last())
    }
}

/// `markup` of two runs of tokens is the one behind the other.
pub proof fn lemma_markup_add(a: Seq<Token>, b: Seq<Token>)
    ensures
        markup(a + b) == markup(a) + markup(b),
    decreases b.len(),
{
    if b.len() == 0 {
        assert(a + b =~= a);
        assert(markup(a) + markup(b) =~= markup(a));
    } else {
        assert((a + b).drop_last() =~= a + b.drop_last());
        lemma_markup_add(a, b.drop_last());
        assert(markup(a + b) =~= markup(a) + markup(b));
    }
}

/// The markup of an element: its opening tag, its escaped text where it
/// has any, the markup of its children in order, and its closing tag.
pub proof fn lemma_element_markup(e: Element)
    ensures
        markup(events_of(e)) == open_tag(e.tag, e.attributes) + (if e.text.len() > 0 {
            escaped(e.text)
        } else {
            Seq::<char>::empty()
        }) + markup(forest_events(e.children)) + close_tag(e.tag),
{
    let start = seq![Token::Start { tag: e.tag, attributes: e.attributes }];
    let text = if e.text.len() > 0 {
        seq![Token::Text(e.text)]
    } else {
        Seq::<Token>::empty()
    };
    let end = seq![Token::End(e.tag)];
    reveal_with_fuel(markup, 2);
    assert(markup(start) =~= open_tag(e.tag, e.attributes)) by {
        assert(start.drop_last() =~= Seq::<Token>::empty());
    }
    assert(markup(end) =~= close_tag(e.tag)) by {
        assert(end.drop_last() =~= Seq::<Token>::empty());
    }
    if e.text.len() > 0 {
        assert(text.drop_last() =~= Seq::<Token>::empty());
        assert(markup(text) =~= escaped(e.text));
    }
    lemma_markup_add(start, text);
    lemma_markup_add(start + text, forest_events(e.children));
    lemma_markup_add(start + text + forest_events(e.children), end);
}

/// A copy of `attributes`.
fn copy_attributes(attributes: &Vec<XmlAttribute>) -> (copy: Vec<XmlAttribute>)
    ensures
        pairs(copy@) == pairs(attributes@),
{
    let mut copy: Vec<XmlAttribute> = Vec::new();
    let mut k: usize = 0;
    while k < attributes.len()
        invariant
            0 <= k <= attributes.len(),
            pairs(copy@) == pairs(attributes@).subrange(0, k as int),
        decreases attributes.len() - k,
    {
        let ghost held = pairs(copy@);
        copy.push(XmlAttribute { key: attributes[k].key.clone(), value: attributes[k].value.clone() });
        assert(pairs(copy@) =~= held.push((attributes@[k as int].key@, attributes@[k as int].value@)));
        assert(pairs(copy@) =~= pairs(attributes@).subrange(0, k + 1));
        k += 1;
    }
    assert(pairs(attributes@).subrange(0, k as int) =~= pairs(attributes@));
    copy
}

/// What one event of the tokenizer contributes: a token for a tag or a
/// text, nothing for an event that is passed over (an element that closes
/// itself, a comment, a section of unparsed data, a declaration, a
/// processing instruction, a document type), or `Malformed` where the
/// tokenizer rejected the input or the event's name, attributes or text
/// cannot be read.
pub open spec fn token_of(event: Piece) -> Option<Result<Token, DecodeError>> {
    match event {
        Piece::Start { tag: Some(tag), attributes: Some(attributes) } => Some(
            Ok(Token::Start { tag, attributes }),
        ),
        Piece::Start { .. } => Some(Err(DecodeError::Malformed)),
        Piece::End { tag: Some(tag) } => Some(Ok(Token::End(tag))),
        Piece::End { .. } => Some(Err(DecodeError::Malformed)),
        Piece::Text { value: Some(value) } => Some(Ok(Token::Text(value))),
        Piece::Text { .. } => Some(Err(DecodeError::Malformed)),
        Piece::Malformed => Some(Err(DecodeError::Malformed)),
        Piece::Empty => None,
        Piece::Comment => None,
        Piece::CData => None,
        Piece::Decl => None,
        Piece::PI => None,
        Piece::DocType => None,
    }
}

/// The tokens that a run of events gives, in order, or the first error
/// among them.
pub open spec fn collect(events: Seq<Piece>) -> Result<Seq<Token>, DecodeError>
    decreases events.len(),
{
    if events.len() == 0 {
        Ok(Seq::empty())
    } else {
        match collect(events.drop_last()) {
            Err(e) => Err(e),
            Ok(tokens) => match token_of(events.last()) {
                None => Ok(tokens),
                Some(Ok(token)) => Ok(tokens.push(token)),
                Some(Err(e)) => Err(e),
            },
        }
    }
}

/// The tokens of a text: those of the events that the tokenizer yields
/// for it.
pub open spec fn tokens_in(text: Seq<char>) -> Result<Seq<Token>, DecodeError> {
    collect(events(text))
}

/// Once the first `k` events have met an error, all of them end in it.
pub proof fn lemma_collect_stops(events: Seq<Piece>, k: int)
    requires
        0 <= k <= events.len(),
        collect(events.subrange(0, k)) is Err,
    ensures
        collect(events) == collect(events.subrange(0, k)),
    decreases events.len(),
{
    if k == events.len() {
        assert(events.subrange(0, k) =~= events);
    } else {
        assert(events.drop_last().subrange(0, k) =~= events.subrange(0, k));
        lemma_collect_stops(events.drop_last(), k);
    }
}

/// The tokens of `text` as the tokenizer reads them, white space around
/// character data trimmed. Markup that is neither tag nor text is passed
/// over; what the tokenizer rejects, and a tag or a text that cannot be
/// read, ends the reading with `Malformed`.
pub fn read_tokens(text: &str) -> (r: Result<Vec<XmlToken>, DecodeError>)
    ensures
        match tokens_in(text@) {
            Ok(tokens) => r is Ok && tokens_of(r->Ok_0@) == tokens,
            Err(e) => r == Err::<Vec<XmlToken>, DecodeError>(e),
        },
{
    let mut reader = open_reader(text);
    let mut tokens: Vec<XmlToken> = Vec::new();
    let ghost all = events(text@);
    let ghost mut seen: int = 0;
    proof {
        assert(all.subrange(0, 0) =~= Seq::<Piece>::empty());
        assert(all.subrange(0, all.len() as int) =~= all);
        assert(tokens_of(tokens@) =~= Seq::<Token>::empty());
    }
    loop
        invariant
            all == events(text@),
            0 <= seen <= all.len(),
            pending(reader) == all.subrange(seen, all.len() as int),
            collect(all.subrange(0, seen)) == Ok::<Seq<Token>, DecodeError>(tokens_of(tokens@)),
        decreases pending(reader).len(),
    {
        let ghost before = tokens_of(tokens@);
        let kind = next_kind(&mut reader);
        proof {
            if seen < all.len() {
                assert(held(reader) == all[seen]);
                assert(all.subrange(seen, all.len() as int).drop_first() =~= all.subrange(
                    seen + 1,
                    all.len() as int,
                ));
                assert(all.subrange(0, seen + 1).drop_last() =~= all.subrange(0, seen));
                assert(all.subrange(0, seen + 1).last() == held(reader));
            } else {
                assert(all.subrange(0, seen) =~= all);
            }
        }
        let token = match kind {
            EventKind::Eof => {
                return Ok(tokens);
            },
            EventKind::Malformed => None,
            EventKind::Start => match (held_name(&reader), held_attributes(&reader)) {
                (Some(tag), Some(attributes)) => Some(XmlToken::Start { tag, attributes }),
                _ => None,
            },
            EventKind::End => match held_name(&reader) {
                Some(tag) => Some(XmlToken::End(tag)),
                None => None,
            },
            EventKind::Text => match held_text(&reader) {
                Some(value) => Some(XmlToken::Text(value)),
                None => None,
            },
            EventKind::Empty
            | EventKind::Comment
            | EventKind::CData
            | EventKind::Decl
            | EventKind::PI
            | EventKind::DocType => {
                proof {
                    seen = seen + 1;
                }
                continue ;
            },
        };
        match token {
            Some(token) => {
                tokens.push(token);
                assert(tokens_of(tokens@) =~= before.push(token@));
            },
            None => {
                proof {
                    lemma_collect_stops(all, seen + 1);
                }
                return Err(DecodeError::Malformed);
            },
        }
        proof {
            seen = seen + 1;
        }
    }
}

impl XmlElement {
    /// Decodes `tokens` into `root`: the decoded elements are appended to
    /// its children. An opening tag opens a child of the innermost open
    /// element, text becomes that element's text (the last one stays), and a
    /// closing tag closes it.
    pub fn build_from_tokens(root: XmlElement, tokens: &Vec<XmlToken>) -> (r: Result<
        XmlElement,
        DecodeError,
    >)
        ensures
            match decode(root@, tokens_of(tokens@)) {
                Ok(e) => r is Ok && r->Ok_0@ == e,
                Err(e) => r == Err::<XmlElement, DecodeError>(e),
            },
    {
        let ghost all = tokens_of(tokens@);
        let ghost start = root@;
        let mut open: Vec<XmlElement> = Vec::new();
        open.push(root);
        let mut k: usize = 0;
        proof {
            assert(all.subrange(0, 0) =~= Seq::<Token>::empty());
            assert(elements_of(open@) =~= seq![start]);
        }
        while k < tokens.len()
            invariant
                0 <= k <= tokens.len(),
                all == tokens_of(tokens@),
                start == root@,
                open.len() >= 1,
                run(seq![start], all.subrange(0, k as int)) == Ok::<Seq<Element>, DecodeError>(
                    elements_of(open@),
                ),
            decreases tokens.len() - k,
        {
            let ghost before = elements_of(open@);
            let ghost held = open@;
            proof {
                assert(all.subrange(0, k + 1).drop_last() =~= all.subrange(0, k as int));
                assert(all.subrange(0, k + 1).last() == tokens@[k as int]@);
            }
            let n = open.len();
            match &tokens[k] {
                XmlToken::Start { tag, attributes } => {
                    let e = XmlElement::from_start(tag.clone(), copy_attributes(attributes));
                    open.push(e);
                    assert(elements_of(open@) =~= before.push(e@));
                },
                XmlToken::Text(text) => {
                    let top = &mut open[n - 1];
                    top.text = text.clone();
                    proof {
                        lemma_element(held[n - 1]);
                        lemma_element(open@[n - 1]);
                        assert(elements_of(held)[n - 1] == held[n - 1]@);
                        assert(elements_of(open@) =~= step(before, tokens@[k as int]@)->Ok_0) by {
                            assert forall|j: int| 0 <= j < n - 1 implies elements_of(open@)[j]
                                == before[j] by {
                                assert(elements_of(held)[j] == before[j]);
                            }
                        }
                    }
                },
                XmlToken::End(tag) => {
                    if n <= 1 {
                        proof {
                            assert(before.len() == n);
                            assert(step(before, all.subrange(0, k + 1).last()) is Err);
                            assert(run(seq![start], all.subrange(0, k + 1)) is Err);
                            lemma_run_stops(seq![start], all, k + 1);
                        }
                        return Err(DecodeError::UnmatchedEnd);
                    }
                    if *tag != open[n - 1].tag {
                        proof {
                            lemma_element(held[n - 1]);
                            assert(before[n - 1] == held[n - 1]@);
                            assert(step(before, all.subrange(0, k + 1).last()) is Err);
                            assert(run(seq![start], all.subrange(0, k + 1)) is Err);
                            lemma_run_stops(seq![start], all, k + 1);
                        }
                        return Err(DecodeError::MismatchedEnd);
                    }
                    proof {
                        lemma_element(held[n - 1]);
                        assert(before[n - 1] == held[n - 1]@);
                    }
                    let top = open.pop().unwrap();
                    let ghost middle = open@;
                    let outer = &mut open[n - 2];
                    outer.sub_elements.push(top);
                    proof {
                        lemma_element(middle[n - 2]);
                        lemma_element(open@[n - 2]);
                        assert(elements_of(held)[n - 1] == top@);
                        assert(elements_of(held)[n - 2] == held[n - 2]@);
                        assert(open@[n - 2]@.children =~= middle[n - 2]@.children.push(top@));
                        assert(elements_of(open@) =~= step(before, tokens@[k as int]@)->Ok_0) by {
                            assert forall|j: int| 0 <= j < n - 2 implies elements_of(open@)[j]
                                == before[j] by {
                                assert(elements_of(held)[j] == before[j]);
                            }
                        }
                    }
                },
            }
            k += 1;
        }
        assert(all.subrange(0, k as int) =~= all);
        if open.len() != 1 {
            return Err(DecodeError::Truncated);
        }
        let e = open.pop().unwrap();
        Ok(e)
    }

    /// Appends to `out` the tokens that encode this element and everything
    /// in it.
    pub fn write_tokens(&self, out: &mut Vec<XmlToken>)
        ensures
            tokens_of(final(out)@) == tokens_of(old(out)@) + events_of(self@),
        decreases self@,
    {
        proof {
            lemma_element(*self);
        }
        let ghost start = tokens_of(out@);
        let ghost below = self@.children;
        out.push(XmlToken::Start { tag: self.tag.clone(), attributes: copy_attributes(&self.attributes) });
        assert(tokens_of(out@) =~= start + seq![Token::Start { tag: self@.tag, attributes: self@.attributes }]);
        if self.text.as_str().unicode_len() > 0 {
            let ghost held = tokens_of(out@);
            out.push(XmlToken::Text(self.text.clone()));
            assert(tokens_of(out@) =~= held + seq![Token::Text(self@.text)]);
        }
        let ghost head = tokens_of(out@);
        let mut k: usize = 0;
        assert(below.subrange(0, 0) =~= Seq::<Element>::empty());
        assert(head + forest_events(below.subrange(0, 0)) =~= head);
        while k < self.sub_elements.len()
            invariant
                0 <= k <= self.sub_elements.len(),
                below == elements_of(self.sub_elements@),
                below == self@.children,
                tokens_of(out@) == head + forest_events(below.subrange(0, k as int)),
            decreases self.sub_elements.len() - k,
        {
            assert(below[k as int] == self.sub_elements@[k as int]@);
            self.sub_elements[k].write_tokens(out);
            proof {
                assert(below.subrange(0, k + 1).drop_last() =~= below.subrange(0, k as int));
                assert(tokens_of(out@) =~= head + forest_events(below.subrange(0, k + 1)));
            }
            k += 1;
        }
        assert(below.subrange(0, k as int) =~= below);
        let ghost held = tokens_of(out@);
        out.push(XmlToken::End(self.tag.clone()));
        assert(tokens_of(out@) =~= held + seq![Token::End(self@.tag)]);
        assert(tokens_of(out@) =~= start + events_of(self@));
    }

    /// Appends to `writer` the markup of this element and of everything in
    /// it: its opening tag with the attributes in stored order, its text,
    /// its children, and its closing tag. An element without children is
    /// written with both tags too.
    pub fn write_to_writer(&self, writer: &mut String)
        ensures
            final(writer)@ == old(writer)@ + markup(events_of(self@)),
    {
        let mut tokens: Vec<XmlToken> = Vec::new();
        self.write_tokens(&mut tokens);
        assert(tokens_of(tokens@) =~= events_of(self@));
        write_markup(&tokens, writer);
    }
}

/// Once a prefix of `tokens` has met an error, the whole of `tokens` ends
/// in it.
pub proof fn lemma_run_stops(open: Seq<Element>, tokens: Seq<Token>, k: int)
    requires
        0 <= k <= tokens.len(),
        run(open, tokens.subrange(0, k)) is Err,
    ensures
        run(open, tokens) == run(open, tokens.subrange(0, k)),
    decreases tokens.len(),
{
    if k == tokens.len() {
        assert(tokens.subrange(0, k) =~= tokens);
    } else {
        assert(tokens.drop_last().subrange(0, k) =~= tokens.subrange(0, k));
        lemma_run_stops(open, tokens.drop_last(), k);
    }
}

/// Appends to `out` the text of each of `tokens`.
fn write_markup(tokens: &Vec<XmlToken>, out: &mut String)
    ensures
        final(out)@ == old(out)@ + markup(tokens_of(tokens@)),
{
    let ghost all = tokens_of(tokens@);
    let ghost start = out@;
    let mut k: usize = 0;
    assert(all.subrange(0, 0) =~= Seq::<Token>::empty());
    assert(start + markup(all.subrange(0, 0)) =~= start);
    while k < tokens.len()
        invariant
            0 <= k <= tokens.len(),
            all == tokens_of(tokens@),
            out@ == start + markup(all.subrange(0, k as int)),
        decreases tokens.len() - k,
    {
        proof {
            assert(all.subrange(0, k + 1).drop_last() =~= all.subrange(0, k as int));
            assert(all.subrange(0, k + 1).last() == tokens@[k as int]@);
        }
        let piece = match &tokens[k] {
            XmlToken::Start { tag, attributes } => start_markup(tag.as_str(), attributes),
            XmlToken::Text(text) => text_markup(text.as_str()),
            XmlToken::End(tag) => end_markup(tag.as_str()),
        };
        out.append(piece.as_str());
        assert(out@ =~= start + markup(all.subrange(0, k + 1)));
        k += 1;
    }
    assert(all.subrange(0, k as int) =~= all);
}

/// Decoding in two parts: the tokens `b` are decoded from where the tokens
/// `a` ended.
pub proof fn lemma_run_add(open: Seq<Element>, a: Seq<Token>, b: Seq<Token>)
    ensures
        run(open, a + b) == match run(open, a) {
            Ok(middle) => run(middle, b),
            Err(e) => Err(e),
        },
    decreases b.len(),
{
    if b.len() == 0 {
        assert(a + b =~= a);
    } else {
        assert((a + b).drop_last() =~= a + b.drop_last());
        assert((a + b).last() == b.last());
        lemma_run_add(open, a, b.drop_last());
    }
}

/// Decoding one token is one step.
pub proof fn lemma_run_one(open: Seq<Element>, token: Token)
    ensures
        run(open, seq![token]) == step(open, token),
{
    reveal_with_fuel(run, 2);
    assert(seq![token].drop_last() =~= Seq::<Token>::empty());
}

/// `open` with `e` appended to the children of its innermost element.
pub open spec fn adopt(open: Seq<Element>, e: Element) -> Seq<Element>
    recommends
        open.len() >= 1,
{
    open.drop_last().push(with_elements(open.last(), open.last().children.push(e)))
}

/// `open` with each of `nodes` appended to the children of its innermost
/// element.
pub open spec fn adopt_all(open: Seq<Element>, nodes: Seq<Element>) -> Seq<Element>
    recommends
        open.len() >= 1,
{
    open.drop_last().push(with_elements(open.last(), open.last().children + nodes))
}

/// Decoding the tokens of an element, whatever is open, appends that very
/// element to the innermost open element.
pub proof fn lemma_decode_element(open: Seq<Element>, e: Element)
    requires
        open.len() >= 1,
    ensures
        run(open, events_of(e)) == Ok::<Seq<Element>, DecodeError>(adopt(open, e)),
    decreases e, 1nat,
{
    let start = seq![Token::Start { tag: e.tag, attributes: e.attributes }];
    let text = if e.text.len() > 0 {
        seq![Token::Text(e.text)]
    } else {
        Seq::<Token>::empty()
    };
    let end = seq![Token::End(e.tag)];
    let opened = open.push(bare(e.tag, e.attributes));
    assert(run(open, start) == Ok::<Seq<Element>, DecodeError>(opened)) by {
        lemma_run_one(open, start[0]);
    }
    let texted = open.push(
        Element { tag: e.tag, text: e.text, attributes: e.attributes, children: Seq::empty() },
    );
    assert(run(opened, text) == Ok::<Seq<Element>, DecodeError>(texted)) by {
        if e.text.len() > 0 {
            lemma_run_one(opened, text[0]);
            assert(opened.drop_last() =~= open);
        } else {
            assert(e.text =~= Seq::<char>::empty());
        }
    }
    lemma_decode_forest(texted, e.children);
    let filled = adopt_all(texted, e.children);
    assert(filled =~= open.push(e)) by {
        assert(texted.drop_last() =~= open);
        assert(Seq::<Element>::empty() + e.children =~= e.children);
    }
    assert(run(filled, end) == Ok::<Seq<Element>, DecodeError>(adopt(open, e))) by {
        lemma_run_one(filled, end[0]);
        assert(filled.drop_last() =~= open);
        assert(filled.drop_last().drop_last() =~= open.drop_last());
    }
    lemma_run_add(open, start, text);
    lemma_run_add(open, start + text, forest_events(e.children));
    lemma_run_add(open, start + text + forest_events(e.children), end);
}

/// Decoding the tokens of a sequence of elements, whatever is open, appends
/// those elements in order to the innermost open element.
pub proof fn lemma_decode_forest(open: Seq<Element>, nodes: Seq<Element>)
    requires
        open.len() >= 1,
    ensures
        run(open, forest_events(nodes)) == Ok::<Seq<Element>, DecodeError>(adopt_all(open, nodes)),
    decreases nodes, 0nat,
{
    if nodes.len() == 0 {
        assert(open.last().children + nodes =~= open.last().children);
        assert(adopt_all(open, nodes) =~= open);
    } else {
        let before = nodes.drop_last();
        lemma_decode_forest(open, before);
        let middle = adopt_all(open, before);
        lemma_decode_element(middle, nodes.last());
        lemma_run_add(open, forest_events(before), events_of(nodes.last()));
        assert(adopt(middle, nodes.last()) =~= adopt_all(open, nodes)) by {
            assert(middle.drop_last() =~= open.drop_last());
            assert((open.last().children + before).push(nodes.last()) =~= open.last().children
                + nodes);
        }
    }
}

/// Round trip: the tokens that encode a sequence of elements decode, into
/// any root, to that root with those very elements appended: the same
/// tags, attributes in the same order, the same text, the same children in
/// the same order.
pub proof fn lemma_round_trip(root: Element, nodes: Seq<Element>)
    ensures
        decode(root, forest_events(nodes)) == Ok::<Element, DecodeError>(
            with_elements(root, root.children + nodes),
        ),
{
    lemma_decode_forest(seq![root], nodes);
    assert(seq![root].drop_last() =~= Seq::<Element>::empty());
}

} // verus!
