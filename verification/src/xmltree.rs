//! A document as a tree of elements: a tag, a text, attributes and
//! children, each in stored order.

use vstd::prelude::*;
use crate::codec::{
    decode, events_of, forest_events, lemma_markup_add, markup, read_tokens, tokens_in,
    DecodeError,
};
use crate::indent::{indent, indented};
use crate::search::{
    first_equal, first_index, is_text, lemma_first_index_corresponds, lemma_first_index_is,
};
use crate::text::{lowercase, names_match, same_name, texts, to_lowercase};

verus! {

/// A key with its value, as an element carries it.
#[derive(Debug, Clone, PartialEq, Eq)]
pub struct XmlAttribute {
    pub key: String,
    pub value: String,
}

impl XmlAttribute {
    /// An attribute with the given key and value.
    pub fn new(key: &str, value: &str) -> (a: XmlAttribute)
        ensures
            a.key@ == key@,
            a.value@ == value@,
    {
        XmlAttribute { key: key.to_owned(), value: value.to_owned() }
    }
}

/// Keys and values of a sequence of attributes, in order.
pub open spec fn pairs(attributes: Seq<XmlAttribute>) -> Seq<(Seq<char>, Seq<char>)> {
    attributes.map_values(|a: XmlAttribute| (a.key@, a.value@))
}

/// An element of a document.
#[derive(Debug, PartialEq, Eq)]
pub struct XmlElement {
    pub tag: String,
    pub text: String,
    pub attributes: Vec<XmlAttribute>,
    pub sub_elements: Vec<XmlElement>,
}

/// The mathematical form of an element: its tag, its text, its attributes
/// and its children, each in stored order.
pub ghost struct Element {
    pub tag: Seq<char>,
    pub text: Seq<char>,
    pub attributes: Seq<(Seq<char>, Seq<char>)>,
    pub children: Seq<Element>,
}

/// The element that an `XmlElement` stands for.
pub open spec fn element_of(e: XmlElement) -> Element
    decreases e,
{
    Element {
        tag: e.tag@,
        text: e.text@,
        attributes: pairs(e.attributes@),
        children: Seq::new(
            e.sub_elements@.len(),
            |i: int|
                if 0 <= i < e.sub_elements@.len() {
                    element_of(e.sub_elements@[i])
                } else {
                    arbitrary()
                },
        ),
    }
}

/// The elements that a sequence of `XmlElement`s stands for.
pub open spec fn elements_of(nodes: Seq<XmlElement>) -> Seq<Element> {
    nodes.map_values(|e: XmlElement| element_of(e))
}

impl View for XmlElement {
    type V = Element;

    open spec fn view(&self) -> Element {
        element_of(*self)
    }
}

/// The parts of an element's view are the views of its parts.
pub proof fn lemma_element(e: XmlElement)
    ensures
        e@.tag == e.tag@,
        e@.text == e.text@,
        e@.attributes == pairs(e.attributes@),
        e@.children == elements_of(e.sub_elements@),
{
    assert(e@.children =~= elements_of(e.sub_elements@));
}

/// An element with nothing in it yet.
pub open spec fn bare(tag: Seq<char>, attributes: Seq<(Seq<char>, Seq<char>)>) -> Element {
    Element { tag, text: Seq::empty(), attributes, children: Seq::empty() }
}

/// The property of bearing the tag `tag`, compared without regard to case.
pub open spec fn tagged(tag: Seq<char>) -> spec_fn(Element) -> bool {
    |e: Element| same_name(e.tag, tag)
}

/// `e` with its children replaced.
pub open spec fn with_elements(e: Element, children: Seq<Element>) -> Element {
    Element { tag: e.tag, text: e.text, attributes: e.attributes, children }
}

/// Merge of the element `e` among `children`: where none bears its tag, `e`
/// is appended; where one does, the first such child absorbs `e`'s children
/// one by one, and keeps its own tag, text and attributes.
pub open spec fn absorb(children: Seq<Element>, e: Element) -> Seq<Element>
    decreases e,
{
    let i = first_index(children, tagged(e.tag));
    if !(0 <= i < children.len()) {
        children.push(e)
    } else {
        children.update(i, with_elements(children[i], absorb_all(children[i].children, e.children)))
    }
}

/// Merge of each of `items` in turn.
pub open spec fn absorb_all(children: Seq<Element>, items: Seq<Element>) -> Seq<Element>
    decreases items,
{
    if items.len() == 0 {
        children
    } else {
        absorb(absorb_all(children, items.drop_last()), items.last())
    }
}

/// The tags of `children` in lower case, in order.
fn folded_tags(children: &Vec<XmlElement>) -> (folded: Vec<String>)
    ensures
        folded.len() == children.len(),
        forall|j: int|
            0 <= j < children.len() ==> (#[trigger] folded@[j])@ == lowercase(children@[j].tag@),
{
    let mut folded: Vec<String> = Vec::new();
    let mut k: usize = 0;
    while k < children.len()
        invariant
            0 <= k <= children.len(),
            folded.len() == k,
            forall|j: int| 0 <= j < k ==> (#[trigger] folded@[j])@ == lowercase(children@[j].tag@),
        decreases children.len() - k,
    {
        folded.push(to_lowercase(children[k].tag.as_str()));
        k += 1;
    }
    folded
}

/// The position of the first of `children` whose tag matches `tag`.
fn find_element(children: &Vec<XmlElement>, tag: &str) -> (i: usize)
    ensures
        i == first_index(elements_of(children@), tagged(tag@)),
        i <= children.len(),
{
    let folded = folded_tags(children);
    let wanted = to_lowercase(tag);
    proof {
        lemma_first_index_corresponds(
            elements_of(children@),
            tagged(tag@),
            texts(folded@),
            is_text(wanted@),
        );
    }
    first_equal(&folded, wanted.as_str())
}

/// Merge of `element` among `children`.
fn absorb_into(children: &mut Vec<XmlElement>, element: XmlElement)
    ensures
        elements_of(final(children)@) == absorb(elements_of(old(children)@), element@),
    decreases element@,
{
    proof {
        lemma_element(element);
    }
    let i = find_element(children, element.tag.as_str());
    if i >= children.len() {
        children.push(element);
        assert(elements_of(children@) =~= elements_of(old(children)@).push(element@));
        return ;
    }
    let ghost before = elements_of(children@);
    let ghost items = element@.children;
    let mut rest = element.sub_elements;
    let total = rest.len();
    let mut done: usize = 0;
    proof {
        assert(before =~= before.update(
            i as int,
            with_elements(before[i as int], before[i as int].children),
        ));
        assert(items.subrange(0, 0) =~= Seq::<Element>::empty());
        assert(items.len() == total);
    }
    while rest.len() > 0
        invariant
            elements_of(rest@) == items.subrange(done as int, items.len() as int),
            0 <= done <= items.len(),
            done + rest.len() == items.len(),
            items.len() <= usize::MAX,
            i < children.len() == before.len(),
            elements_of(children@) == before.update(
                i as int,
                with_elements(
                    before[i as int],
                    absorb_all(before[i as int].children, items.subrange(0, done as int)),
                ),
            ),
            forall|k: int| 0 <= k < items.len() ==> decreases_to!(element@ => #[trigger] items[k]),
        decreases rest.len(),
    {
        let ghost pending = rest@;
        let ghost held = children@;
        let item = rest.remove(0);
        proof {
            assert(elements_of(pending)[0] == items.subrange(done as int, items.len() as int)[0]);
            assert(item@ == items[done as int]);
            assert forall|k: int| 0 <= k < rest@.len() implies elements_of(rest@)[k] == items[done
                + 1 + k] by {
                assert(elements_of(pending)[k + 1] == items.subrange(
                    done as int,
                    items.len() as int,
                )[k + 1]);
            }
            assert(elements_of(rest@) =~= items.subrange(done + 1, items.len() as int));
            assert(items.subrange(0, done + 1).drop_last() =~= items.subrange(0, done as int));
            lemma_element(held[i as int]);
            assert(elements_of(held)[i as int] == held[i as int]@);
        }
        let target = &mut children[i];
        absorb_into(&mut target.sub_elements, item);
        proof {
            lemma_element(children@[i as int]);
            assert(elements_of(children@) =~= before.update(
                i as int,
                with_elements(
                    before[i as int],
                    absorb_all(before[i as int].children, items.subrange(0, done + 1)),
                ),
            )) by {
                assert forall|k: int| 0 <= k < children@.len() && k != i implies elements_of(
                    children@,
                )[k] == before[k] by {
                    assert(elements_of(held)[k] == before[k]);
                }
            }
        }
        done += 1;
    }
    assert(items.subrange(0, done as int) =~= items);
}

/// What a predicate may answer: `verdicts(p)(child, e, r)` says that `p`,
/// asked whether `child` takes `e`, may answer `r`.
pub open spec fn verdicts<F: Fn(&XmlElement, &XmlElement) -> bool>(predicate: F) -> spec_fn(
    XmlElement,
    XmlElement,
    bool,
) -> bool {
    |child: XmlElement, e: XmlElement, r: bool| call_ensures(predicate, (&child, &e), r)
}

/// Whether `after` is what the merge of `e` among `before` may give, the
/// answers of the predicate being `answers`. Where every child is refused,
/// `e` is appended. Otherwise the first child that is accepted keeps its
/// tag, text and attributes and takes `e`'s children, one by one, in the
/// same way; the other children stay as they are.
pub open spec fn merged(
    answers: spec_fn(XmlElement, XmlElement, bool) -> bool,
    before: Seq<XmlElement>,
    e: XmlElement,
    after: Seq<XmlElement>,
) -> bool
    decreases e,
{
    ||| {
        &&& forall|j: int| 0 <= j < before.len() ==> answers(#[trigger] before[j], e, false)
        &&& after == before.push(e)
    }
    ||| exists|i: int|
        {
            &&& 0 <= i < before.len()
            &&& forall|j: int| 0 <= j < i ==> answers(#[trigger] before[j], e, false)
            &&& answers(before[i], e, true)
            &&& after.len() == before.len()
            &&& forall|k: int| 0 <= k < before.len() && k != i ==> #[trigger] after[k] == before[k]
            &&& after[i].tag == before[i].tag
            &&& after[i].text == before[i].text
            &&& after[i].attributes == before[i].attributes
            &&& merged_all(
                answers,
                before[i].sub_elements@,
                e.sub_elements@,
                #[trigger] after[i].sub_elements@,
            )
        }
}

/// Marks a state of the children between two merges.
pub open spec fn between(children: Seq<XmlElement>) -> bool {
    true
}

/// Whether `after` is what the merge of each of `items` in turn may give:
/// whether there is a state of the children after each merge but the last,
/// from which the last of `items` gives `after`.
pub open spec fn merged_all(
    answers: spec_fn(XmlElement, XmlElement, bool) -> bool,
    before: Seq<XmlElement>,
    items: Seq<XmlElement>,
    after: Seq<XmlElement>,
) -> bool
    decreases items,
{
    if items.len() == 0 {
        after == before
    } else {
        exists|middle: Seq<XmlElement>|
            {
                &&& #[trigger] between(middle)
                &&& merged_all(answers, before, items.drop_last(), middle)
                &&& merged(answers, middle, items.last(), after)
            }
    }
}

/// The position of the first of `children` that `predicate` accepts for
/// `element`.
fn first_accepted<F: Fn(&XmlElement, &XmlElement) -> bool>(
    children: &Vec<XmlElement>,
    element: &XmlElement,
    predicate: &F,
) -> (i: usize)
    requires
        forall|x: &XmlElement, y: &XmlElement| call_requires(*predicate, (x, y)),
    ensures
        i <= children.len(),
        forall|j: int| 0 <= j < i ==> verdicts(*predicate)(#[trigger] children@[j], *element, false),
        i < children.len() ==> verdicts(*predicate)(children@[i as int], *element, true),
{
    let mut i: usize = 0;
    while i < children.len()
        invariant
            0 <= i <= children.len(),
            forall|x: &XmlElement, y: &XmlElement| call_requires(*predicate, (x, y)),
            forall|j: int| 0 <= j < i ==> verdicts(*predicate)(#[trigger] children@[j], *element, false),
        decreases children.len() - i,
    {
        if predicate(&children[i], element) {
            return i;
        }
        i += 1;
    }
    i
}

/// Merge of `element` among `children`, with `predicate` to say which child
/// takes it.
fn merge_into<F: Fn(&XmlElement, &XmlElement) -> bool>(
    children: &mut Vec<XmlElement>,
    element: XmlElement,
    predicate: &F,
)
    requires
        forall|x: &XmlElement, y: &XmlElement| call_requires(*predicate, (x, y)),
    ensures
        merged(verdicts(*predicate), old(children)@, element, final(children)@),
    decreases element,
{
    let i = first_accepted(children, &element, predicate);
    if i >= children.len() {
        children.push(element);
        return ;
    }
    let ghost before = children@;
    let ghost items = element.sub_elements@;
    let mut rest = element.sub_elements;
    let total = rest.len();
    let mut done: usize = 0;
    proof {
        assert(items.subrange(0, 0) =~= Seq::<XmlElement>::empty());
        assert(rest@ =~= items.subrange(0, items.len() as int));
    }
    while rest.len() > 0
        invariant
            forall|x: &XmlElement, y: &XmlElement| call_requires(*predicate, (x, y)),
            rest@ == items.subrange(done as int, items.len() as int),
            0 <= done <= items.len(),
            done + rest.len() == items.len(),
            items.len() == total,
            i < children.len() == before.len(),
            forall|k: int| 0 <= k < before.len() && k != i ==> #[trigger] children@[k] == before[k],
            children@[i as int].tag == before[i as int].tag,
            children@[i as int].text == before[i as int].text,
            children@[i as int].attributes == before[i as int].attributes,
            merged_all(
                verdicts(*predicate),
                before[i as int].sub_elements@,
                items.subrange(0, done as int),
                children@[i as int].sub_elements@,
            ),
            forall|k: int| 0 <= k < items.len() ==> decreases_to!(element => #[trigger] items[k]),
        decreases rest.len(),
    {
        let ghost pending = rest@;
        let ghost middle = children@[i as int].sub_elements@;
        let item = rest.remove(0);
        proof {
            assert(pending[0] == items.subrange(done as int, items.len() as int)[0]);
            assert(item == items[done as int]);
            assert(rest@ =~= items.subrange(done + 1, items.len() as int));
            assert(items.subrange(0, done + 1).drop_last() =~= items.subrange(0, done as int));
            assert(items.subrange(0, done + 1).last() == item);
        }
        let target = &mut children[i];
        merge_into(&mut target.sub_elements, item, predicate);
        proof {
            let so_far = items.subrange(0, done + 1);
            let now = children@[i as int].sub_elements@;
            assert(merged(verdicts(*predicate), middle, so_far.last(), now));
            assert(merged_all(
                verdicts(*predicate),
                before[i as int].sub_elements@,
                so_far.drop_last(),
                middle,
            ));
            assert(between(middle));
            assert(merged_all(verdicts(*predicate), before[i as int].sub_elements@, so_far, now));
        }
        done += 1;
    }
    proof {
        assert(items.subrange(0, done as int) =~= items);
    }
}

/// With a predicate that answers by the tag alone, without regard to case,
/// the merge by predicate gives what the merge by tag gives.
pub proof fn lemma_merged_by_tag(
    answers: spec_fn(XmlElement, XmlElement, bool) -> bool,
    before: Seq<XmlElement>,
    e: XmlElement,
    after: Seq<XmlElement>,
)
    requires
        forall|a: XmlElement, b: XmlElement, r: bool| #[trigger]
            answers(a, b, r) ==> r == same_name(a.tag@, b.tag@),
        merged(answers, before, e, after),
    ensures
        elements_of(after) == absorb(elements_of(before), e@),
    decreases e, 1nat,
{
    lemma_element(e);
    let old_view = elements_of(before);
    if (forall|j: int| 0 <= j < before.len() ==> answers(#[trigger] before[j], e, false))
        && after == before.push(e) {
        assert forall|j: int| 0 <= j < old_view.len() implies !tagged(e@.tag)(
            #[trigger] old_view[j],
        ) by {
            assert(answers(before[j], e, false));
            lemma_element(before[j]);
        }
        lemma_first_index_is(old_view, tagged(e@.tag), old_view.len() as int);
        assert(elements_of(after) =~= old_view.push(e@));
    } else {
        let i = choose|i: int|
            {
                &&& 0 <= i < before.len()
                &&& forall|j: int| 0 <= j < i ==> answers(#[trigger] before[j], e, false)
                &&& answers(before[i], e, true)
                &&& after.len() == before.len()
                &&& forall|k: int|
                    0 <= k < before.len() && k != i ==> #[trigger] after[k] == before[k]
                &&& after[i].tag == before[i].tag
                &&& after[i].text == before[i].text
                &&& after[i].attributes == before[i].attributes
                &&& merged_all(
                    answers,
                    before[i].sub_elements@,
                    e.sub_elements@,
                    #[trigger] after[i].sub_elements@,
                )
            };
        assert forall|j: int| 0 <= j < i implies !tagged(e@.tag)(#[trigger] old_view[j]) by {
            assert(answers(before[j], e, false));
            lemma_element(before[j]);
        }
        lemma_element(before[i]);
        lemma_element(after[i]);
        lemma_first_index_is(old_view, tagged(e@.tag), i);
        lemma_merged_all_by_tag(answers, before[i].sub_elements@, e.sub_elements@, after[i].sub_elements@);
        assert(elements_of(after) =~= old_view.update(
            i,
            with_elements(old_view[i], absorb_all(old_view[i].children, e@.children)),
        ));
    }
}

/// The same of a run of merges.
pub proof fn lemma_merged_all_by_tag(
    answers: spec_fn(XmlElement, XmlElement, bool) -> bool,
    before: Seq<XmlElement>,
    items: Seq<XmlElement>,
    after: Seq<XmlElement>,
)
    requires
        forall|a: XmlElement, b: XmlElement, r: bool| #[trigger]
            answers(a, b, r) ==> r == same_name(a.tag@, b.tag@),
        merged_all(answers, before, items, after),
    ensures
        elements_of(after) == absorb_all(elements_of(before), elements_of(items)),
    decreases items, 0nat,
{
    if items.len() > 0 {
        let middle = choose|middle: Seq<XmlElement>|
            {
                &&& #[trigger] between(middle)
                &&& merged_all(answers, before, items.drop_last(), middle)
                &&& merged(answers, middle, items.last(), after)
            };
        lemma_merged_all_by_tag(answers, before, items.drop_last(), middle);
        lemma_merged_by_tag(answers, middle, items.last(), after);
        assert(elements_of(items).drop_last() =~= elements_of(items.drop_last()));
    }
}

impl XmlElement {
    /// An element with the given parts.
    pub fn new(
        tag: &str,
        text: &str,
        attributes: Vec<XmlAttribute>,
        sub_elements: Vec<XmlElement>,
    ) -> (e: XmlElement)
        ensures
            e@.tag == tag@,
            e@.text == text@,
            e@.attributes == pairs(attributes@),
            e@.children == elements_of(sub_elements@),
    {
        let e = XmlElement { tag: tag.to_owned(), text: text.to_owned(), attributes, sub_elements };
        proof {
            lemma_element(e);
        }
        e
    }

    /// The element that an opening tag begins: its name and attributes,
    /// without text or children.
    pub fn from_start(tag: String, attributes: Vec<XmlAttribute>) -> (e: XmlElement)
        ensures
            e@ == bare(tag@, pairs(attributes@)),
    {
        let e = XmlElement { tag, text: String::new(), attributes, sub_elements: Vec::new() };
        proof {
            lemma_element(e);
            assert(e@.children =~= Seq::<Element>::empty());
        }
        e
    }

    /// Removes the first child for which `predicate` holds, and returns it.
    /// The other children keep their order.
    pub fn remove<F: Fn(&XmlElement) -> bool>(&mut self, predicate: F) -> (r: Option<XmlElement>)
        requires
            forall|i: int|
                0 <= i < old(self).sub_elements@.len() ==> predicate.requires(
                    (&#[trigger] old(self).sub_elements@[i],),
                ),
        ensures
            final(self).tag == old(self).tag,
            final(self).text == old(self).text,
            final(self).attributes == old(self).attributes,
            match r {
                Some(removed) => exists|i: int|
                    {
                        &&& 0 <= i < old(self).sub_elements@.len()
                        &&& predicate.ensures((&old(self).sub_elements@[i],), true)
                        &&& forall|j: int|
                            0 <= j < i ==> predicate.ensures(
                                (&#[trigger] old(self).sub_elements@[j],),
                                false,
                            )
                        &&& removed == old(self).sub_elements@[i]
                        &&& final(self).sub_elements@ == old(self).sub_elements@.remove(i)
                    },
                None => {
                    &&& final(self).sub_elements@ == old(self).sub_elements@
                    &&& forall|j: int|
                        0 <= j < old(self).sub_elements@.len() ==> predicate.ensures(
                            (&#[trigger] old(self).sub_elements@[j],),
                            false,
                        )
                },
            },
    {
        let mut i: usize = 0;
        while i < self.sub_elements.len()
            invariant
                0 <= i <= self.sub_elements.len(),
                *self == *old(self),
                forall|j: int|
                    0 <= j < self.sub_elements@.len() ==> predicate.requires(
                        (&#[trigger] self.sub_elements@[j],),
                    ),
                forall|j: int|
                    0 <= j < i ==> predicate.ensures((&#[trigger] self.sub_elements@[j],), false),
            decreases self.sub_elements.len() - i,
        {
            if predicate(&self.sub_elements[i]) {
                let removed = self.sub_elements.remove(i);
                return Some(removed);
            }
            i += 1;
        }
        None
    }

    /// The children, in order.
    pub fn elements(&self) -> (r: &Vec<XmlElement>)
        ensures
            r == &self.sub_elements,
    {
        &self.sub_elements
    }

    /// The attributes, in order.
    pub fn attributes(&self) -> (r: &Vec<XmlAttribute>)
        ensures
            r == &self.attributes,
    {
        &self.attributes
    }

    /// The tag.
    pub fn tag(&self) -> (r: &str)
        ensures
            r@ == self@.tag,
    {
        proof {
            lemma_element(*self);
        }
        self.tag.as_str()
    }

    /// Appends `element` to the children.
    pub fn add_element(&mut self, element: XmlElement)
        ensures
            final(self)@ == with_elements(old(self)@, old(self)@.children.push(element@)),
    {
        proof {
            lemma_element(*self);
        }
        self.sub_elements.push(element);
        proof {
            lemma_element(*self);
            assert(self@.children =~= old(self)@.children.push(element@));
        }
    }

    /// Whether `a` and `b` bear the same tag, compared without regard to
    /// case: the rule by which `merge_by_tag` merges, in the form that
    /// `merge_with_or_add` takes.
    pub fn same_tag(a: &XmlElement, b: &XmlElement) -> (r: bool)
        ensures
            r == same_name(a.tag@, b.tag@),
    {
        names_match(a.tag.as_str(), b.tag.as_str())
    }

    /// Adds `element` to the children, or merges it where `predicate` says
    /// so: the first child that `predicate` accepts for `element` takes over
    /// `element`'s children in the same way, and `element` itself is not
    /// added; where it accepts none, `element` is appended.
    pub fn merge_with_or_add<F: Fn(&XmlElement, &XmlElement) -> bool>(
        &mut self,
        element: XmlElement,
        predicate: &F,
    )
        requires
            forall|x: &XmlElement, y: &XmlElement| call_requires(*predicate, (x, y)),
        ensures
            final(self).tag == old(self).tag,
            final(self).text == old(self).text,
            final(self).attributes == old(self).attributes,
            merged(
                verdicts(*predicate),
                old(self).sub_elements@,
                element,
                final(self).sub_elements@,
            ),
    {
        merge_into(&mut self.sub_elements, element, predicate);
    }

    /// Adds `element` to the children, or merges it by its tag: where a
    /// child bears its tag already, the first such child takes over
    /// `element`'s children in the same way, and no second element with that
    /// tag is made.
    pub fn merge_by_tag(&mut self, element: XmlElement)
        ensures
            final(self)@ == with_elements(old(self)@, absorb(old(self)@.children, element@)),
    {
        proof {
            lemma_element(*self);
        }
        absorb_into(&mut self.sub_elements, element);
        proof {
            lemma_element(*self);
        }
    }

    /// The children, for changing them.
    pub fn elements_mut(&mut self) -> (r: &mut Vec<XmlElement>)
        ensures
            *r == old(self).sub_elements,
            *final(self) == (XmlElement {
                tag: old(self).tag,
                text: old(self).text,
                attributes: old(self).attributes,
                sub_elements: *final(r),
            }),
    {
        &mut self.sub_elements
    }

    /// The attributes, for changing them.
    pub fn attributes_mut(&mut self) -> (r: &mut Vec<XmlAttribute>)
        ensures
            *r == old(self).attributes,
            *final(self) == (XmlElement {
                tag: old(self).tag,
                text: old(self).text,
                attributes: *final(r),
                sub_elements: old(self).sub_elements,
            }),
    {
        &mut self.attributes
    }
}

/// A document: a nameless root that holds the document's elements.
#[derive(Debug, PartialEq, Eq)]
pub struct XmlTree {
    pub root: XmlElement,
}

impl XmlTree {
    /// The document that `text` holds. The text is cut into tokens and the
    /// tokens are decoded into a fresh root; input that the tokenizer
    /// rejects, a closing tag without an open element, and an element left
    /// open at the end are errors.
    pub fn from_str(text: &str) -> (r: Result<XmlTree, DecodeError>)
        ensures
            match tokens_in(text@) {
                Err(e) => r == Err::<XmlTree, DecodeError>(e),
                Ok(tokens) => match decode(bare(Seq::empty(), Seq::empty()), tokens) {
                    Ok(root) => r is Ok && r->Ok_0.root@ == root,
                    Err(e) => r == Err::<XmlTree, DecodeError>(e),
                },
            },
    {
        let root = XmlElement {
            tag: String::new(),
            text: String::new(),
            attributes: Vec::new(),
            sub_elements: Vec::new(),
        };
        proof {
            lemma_element(root);
            assert(root@ =~= bare(Seq::empty(), Seq::empty())) by {
                assert(root@.children =~= Seq::<Element>::empty());
                assert(root@.attributes =~= Seq::<(Seq<char>, Seq<char>)>::empty());
            }
        }
        let tokens = match read_tokens(text) {
            Ok(tokens) => tokens,
            Err(e) => {
                return Err(e);
            },
        };
        match XmlElement::build_from_tokens(root, &tokens) {
            Ok(root) => Ok(XmlTree { root }),
            Err(e) => Err(e),
        }
    }

    /// The markup of the document: each element of the root, one after the
    /// other, without white space between them.
    pub fn as_string(&self) -> (text: String)
        ensures
            text@ == markup(forest_events(self.root@.children)),
    {
        proof {
            lemma_element(self.root);
        }
        let ghost roots = self.root@.children;
        let mut text = String::new();
        let mut k: usize = 0;
        assert(roots.subrange(0, 0) =~= Seq::<Element>::empty());
        while k < self.root.sub_elements.len()
            invariant
                0 <= k <= self.root.sub_elements.len(),
                roots == elements_of(self.root.sub_elements@),
                text@ == markup(forest_events(roots.subrange(0, k as int))),
            decreases self.root.sub_elements.len() - k,
        {
            assert(roots[k as int] == self.root.sub_elements@[k as int]@);
            self.root.sub_elements[k].write_to_writer(&mut text);
            proof {
                assert(roots.subrange(0, k + 1).drop_last() =~= roots.subrange(0, k as int));
                lemma_markup_add(
                    forest_events(roots.subrange(0, k as int)),
                    events_of(roots[k as int]),
                );
            }
            k += 1;
        }
        assert(roots.subrange(0, k as int) =~= roots);
        text
    }

    /// The markup of the document, one tag on each line, indented by its
    /// depth.
    pub fn as_indented_string(&self) -> (text: String)
        ensures
            text@ == indented(markup(forest_events(self.root@.children))),
    {
        let flat = self.as_string();
        indent(flat.as_str())
    }

    /// The elements of the document, in order.
    pub fn roots(&self) -> (r: &Vec<XmlElement>)
        ensures
            r == &self.root.sub_elements,
    {
        &self.root.sub_elements
    }

    /// The elements of the document, for changing them.
    pub fn roots_mut(&mut self) -> (r: &mut Vec<XmlElement>)
        ensures
            *r == old(self).root.sub_elements,
            final(self).root == (XmlElement {
                tag: old(self).root.tag,
                text: old(self).root.text,
                attributes: old(self).root.attributes,
                sub_elements: *final(r),
            }),
    {
        &mut self.root.sub_elements
    }
}

} // verus!
