use project_manager::codec::{read_tokens, DecodeError, XmlToken};
use project_manager::indent::indent;
use project_manager::xmltree::{XmlAttribute, XmlElement, XmlTree};

fn el(tag: &str, text: &str, attrs: &[(&str, &str)], children: Vec<XmlElement>) -> XmlElement {
    XmlElement::new(tag, text, attrs.iter().map(|(k, v)| XmlAttribute::new(k, v)).collect(), children)
}

fn tree_of(roots: Vec<XmlElement>) -> XmlTree {
    XmlTree { root: el("", "", &[], roots) }
}

#[test]
fn as_string_writes_both_tags_and_the_attributes_in_order() {
    let t = tree_of(vec![el("a", "", &[("k1", "v1"), ("k2", "v2")], vec![el("b", "", &[], vec![])])]);
    assert_eq!(t.as_string(), "<a k1=\"v1\" k2=\"v2\"><b></b></a>");
}

#[test]
fn as_string_writes_text_before_the_children() {
    let t = tree_of(vec![el("a", "hello", &[], vec![el("b", "x", &[], vec![])]), el("c", "", &[], vec![])]);
    assert_eq!(t.as_string(), "<a>hello<b>x</b></a><c></c>");
}

#[test]
fn as_string_escapes_what_markup_reserves() {
    let t = tree_of(vec![el("a", "1 < 2 & 3", &[("k", "x\"y'z<>&")], vec![])]);
    assert_eq!(t.as_string(), "<a k=\"x&quot;y&apos;z&lt;&gt;&amp;\">1 &lt; 2 &amp; 3</a>");
}

#[test]
fn from_str_reads_elements_attributes_and_text() {
    let t = XmlTree::from_str("<a k1=\"v1\" k2='v2'>hello<b>x</b></a><c></c>").unwrap();
    assert_eq!(
        t.root.sub_elements,
        vec![el("a", "hello", &[("k1", "v1"), ("k2", "v2")], vec![el("b", "x", &[], vec![])]), el("c", "", &[], vec![])]
    );
}

#[test]
fn from_str_trims_text_and_keeps_the_last_one() {
    let t = XmlTree::from_str("<a>  first  <b></b>\n  second\n</a>").unwrap();
    assert_eq!(t.root.sub_elements, vec![el("a", "second", &[], vec![el("b", "", &[], vec![])])]);
}

#[test]
fn from_str_resolves_entities() {
    let t = XmlTree::from_str("<a k=\"x&quot;y&lt;\">1 &lt; 2 &amp; 3</a>").unwrap();
    assert_eq!(t.root.sub_elements, vec![el("a", "1 < 2 & 3", &[("k", "x\"y<")], vec![])]);
}

#[test]
fn from_str_passes_over_other_markup() {
    let t = XmlTree::from_str("<?xml version=\"1.0\"?><!-- note --><a><empty/></a>").unwrap();
    assert_eq!(t.root.sub_elements, vec![el("a", "", &[], vec![])]);
}

#[test]
fn from_str_of_nothing_is_an_empty_document() {
    assert_eq!(XmlTree::from_str("").unwrap().root.sub_elements, vec![]);
    assert_eq!(XmlTree::from_str("").unwrap().as_string(), "");
}

#[test]
fn malformed_input_is_an_error() {
    assert_eq!(XmlTree::from_str("<a><b></a>"), Err(DecodeError::Malformed));
    assert_eq!(XmlTree::from_str("</a>"), Err(DecodeError::Malformed));
    assert_eq!(XmlTree::from_str("<a k=v></a>"), Err(DecodeError::Malformed));
    assert_eq!(XmlTree::from_str("<a>&bogus;</a>"), Err(DecodeError::Malformed));
}

#[test]
fn truncated_input_is_an_error() {
    assert_eq!(XmlTree::from_str("<a><b></b>"), Err(DecodeError::Truncated));
    assert_eq!(XmlTree::from_str("<a>"), Err(DecodeError::Truncated));
}

#[test]
fn read_tokens_gives_the_tokens_in_order() {
    assert_eq!(
        read_tokens("<a k=\"v\"> t </a>").unwrap(),
        vec![
            XmlToken::Start { tag: "a".to_string(), attributes: vec![XmlAttribute::new("k", "v")] },
            XmlToken::Text("t".to_string()),
            XmlToken::End("a".to_string()),
        ]
    );
    assert_eq!(read_tokens("<a>"), Ok(vec![XmlToken::Start { tag: "a".to_string(), attributes: vec![] }]));
}

#[test]
fn build_from_tokens_rejects_a_closing_tag_with_nothing_open() {
    let tokens = vec![XmlToken::End("a".to_string())];
    assert_eq!(XmlElement::build_from_tokens(el("", "", &[], vec![]), &tokens), Err(DecodeError::UnmatchedEnd));
    let tokens = vec![
        XmlToken::Start { tag: "a".to_string(), attributes: vec![] },
        XmlToken::End("a".to_string()),
        XmlToken::End("a".to_string()),
        XmlToken::Start { tag: "b".to_string(), attributes: vec![] },
    ];
    assert_eq!(XmlElement::build_from_tokens(el("", "", &[], vec![]), &tokens), Err(DecodeError::UnmatchedEnd));
}

#[test]
fn build_from_tokens_appends_to_the_root() {
    let tokens = vec![
        XmlToken::Text("top".to_string()),
        XmlToken::Start { tag: "a".to_string(), attributes: vec![XmlAttribute::new("k", "v")] },
        XmlToken::Text("one".to_string()),
        XmlToken::Start { tag: "b".to_string(), attributes: vec![] },
        XmlToken::End("b".to_string()),
        XmlToken::Text("two".to_string()),
        XmlToken::End("a".to_string()),
    ];
    let root = el("r", "", &[], vec![el("old", "", &[], vec![])]);
    let built = XmlElement::build_from_tokens(root, &tokens).unwrap();
    assert_eq!(
        built,
        el("r", "top", &[], vec![el("old", "", &[], vec![]), el("a", "two", &[("k", "v")], vec![el("b", "", &[], vec![])])])
    );
    let dangling = vec![XmlToken::Start { tag: "a".to_string(), attributes: vec![] }];
    assert_eq!(XmlElement::build_from_tokens(el("", "", &[], vec![]), &dangling), Err(DecodeError::Truncated));
}

#[test]
fn write_tokens_encodes_an_element() {
    let e = el("a", "t", &[("k", "v")], vec![el("b", "", &[], vec![])]);
    let mut tokens = vec![];
    e.write_tokens(&mut tokens);
    assert_eq!(
        tokens,
        vec![
            XmlToken::Start { tag: "a".to_string(), attributes: vec![XmlAttribute::new("k", "v")] },
            XmlToken::Text("t".to_string()),
            XmlToken::Start { tag: "b".to_string(), attributes: vec![] },
            XmlToken::End("b".to_string()),
            XmlToken::End("a".to_string()),
        ]
    );
    let built = XmlElement::build_from_tokens(el("", "", &[], vec![]), &tokens).unwrap();
    assert_eq!(built.sub_elements, vec![e]);
}

#[test]
fn write_to_writer_appends_the_markup() {
    let mut out = String::from("x");
    el("a", "", &[("k", "v")], vec![]).write_to_writer(&mut out);
    assert_eq!(out, "x<a k=\"v\"></a>");
}

fn nest(depth: usize, width: usize, label: &str) -> XmlElement {
    let mut children = vec![];
    if depth > 1 {
        for i in 0..width {
            children.push(nest(depth - 1, width, &format!("{}{}", label, i)));
        }
    }
    let text = if depth % 2 == 0 { format!("text of {} & <more>", label) } else { String::new() };
    let value = format!("v\"{}'", label);
    el(&format!("n{}", label), &text, &[("id", label), ("q", &value), ("empty", "")], children)
}

#[test]
fn round_trip() {
    let roots = vec![nest(5, 2, "a"), nest(1, 0, "b"), nest(3, 3, "c")];
    let t = tree_of(roots);
    let text = t.as_string();
    let back = XmlTree::from_str(&text).unwrap();
    assert_eq!(back.root.sub_elements, t.root.sub_elements);
    assert_eq!(back.as_string(), text);
}

#[test]
fn round_trip_through_the_indented_form() {
    let t = tree_of(vec![nest(4, 2, "a")]);
    let back = XmlTree::from_str(&t.as_indented_string()).unwrap();
    assert_eq!(back, t);
}

#[test]
fn indent_puts_each_tag_on_a_line() {
    assert_eq!(indent("<a><b></b></a>"), "<a>\n  <b>\n  </b>\n</a>\n");
    assert_eq!(indent("<a k=\"v\"><b><c></c></b><d></d></a>"), "<a k=\"v\">\n  <b>\n    <c>\n    </c>\n  </b>\n  <d>\n  </d>\n</a>\n");
    assert_eq!(indent(""), "");
    assert_eq!(indent("plain"), "plain");
}

#[test]
fn indent_keeps_text_and_tolerates_stray_tags() {
    assert_eq!(indent("<a>hi</a>"), "<a>\nhi</a>\n");
    assert_eq!(indent("</a><b>"), "</a>\n<b>\n");
    assert_eq!(indent("</a></b><c><d>"), "</a>\n</b>\n<c>\n<d>\n");
    assert_eq!(indent("<a><"), "<a>\n  <");
    assert_eq!(indent("<>"), "<>\n");
}

#[test]
fn as_indented_string_lays_the_document_out() {
    let t = tree_of(vec![el("a", "", &[], vec![el("b", "", &[], vec![])])]);
    assert_eq!(t.as_indented_string(), "<a>\n  <b>\n  </b>\n</a>\n");
}

#[test]
fn remove_takes_the_first_child_that_the_predicate_accepts() {
    let mut e = el("r", "", &[], vec![el("a", "", &[], vec![]), el("b", "1", &[], vec![]), el("b", "2", &[], vec![])]);
    let removed = e.remove(|c: &XmlElement| c.tag() == "b");
    assert_eq!(removed, Some(el("b", "1", &[], vec![])));
    assert_eq!(e.sub_elements, vec![el("a", "", &[], vec![]), el("b", "2", &[], vec![])]);
    assert_eq!(e.remove(|c: &XmlElement| c.tag() == "zz"), None);
    assert_eq!(e.sub_elements.len(), 2);
}

#[test]
fn remove_does_not_descend() {
    let mut e = el("r", "", &[], vec![el("a", "", &[], vec![el("b", "", &[], vec![])])]);
    assert_eq!(e.remove(|c: &XmlElement| c.tag() == "b"), None);
}

#[test]
fn accessors_give_the_parts() {
    let mut e = el("r", "", &[("k", "v")], vec![el("a", "", &[], vec![])]);
    assert_eq!(e.tag(), "r");
    assert_eq!(e.elements().len(), 1);
    assert_eq!(e.attributes()[0], XmlAttribute::new("k", "v"));
    e.elements_mut().push(el("b", "", &[], vec![]));
    e.attributes_mut().clear();
    assert_eq!(e, el("r", "", &[], vec![el("a", "", &[], vec![]), el("b", "", &[], vec![])]));
    e.add_element(el("c", "", &[], vec![]));
    assert_eq!(e.elements()[2].tag(), "c");
    let mut t = tree_of(vec![e]);
    assert_eq!(t.roots().len(), 1);
    t.roots_mut().clear();
    assert_eq!(t.as_string(), "");
}

#[test]
fn merge_by_tag_grafts_onto_the_first_match() {
    let mut root = el("", "", &[], vec![]);
    root.merge_by_tag(el("A", "keep", &[("k", "v")], vec![el("b", "", &[], vec![])]));
    root.merge_by_tag(el("a", "drop", &[], vec![el("c", "", &[], vec![]), el("B", "", &[], vec![el("d", "", &[], vec![])])]));
    root.merge_by_tag(el("e", "", &[], vec![]));
    root.merge_by_tag(el("E", "", &[], vec![]));
    assert_eq!(
        root.sub_elements,
        vec![
            el("A", "keep", &[("k", "v")], vec![el("b", "", &[], vec![el("d", "", &[], vec![])]), el("c", "", &[], vec![])]),
            el("e", "", &[], vec![]),
        ]
    );
}

#[test]
fn read_tokens_passes_over_other_markup_and_stops_at_the_first_error() {
    assert_eq!(
        read_tokens("<?xml version=\"1.0\"?><a><!-- c --><e/>t</a>").unwrap(),
        vec![
            XmlToken::Start { tag: "a".to_string(), attributes: vec![] },
            XmlToken::Text("t".to_string()),
            XmlToken::End("a".to_string()),
        ]
    );
    assert_eq!(read_tokens("<a></b><c>"), Err(DecodeError::Malformed));
    assert_eq!(read_tokens("<a k=\"1\" k=\"2\">"), Err(DecodeError::Malformed));
    assert_eq!(read_tokens("<a>&nope;</a>"), Err(DecodeError::Malformed));
    assert_eq!(read_tokens(""), Ok(vec![]));
    assert_eq!(read_tokens("   \n "), Ok(vec![]));
}

#[test]
fn build_from_tokens_rejects_a_closing_tag_with_another_name() {
    let tokens = vec![
        XmlToken::Start { tag: "a".to_string(), attributes: vec![] },
        XmlToken::End("b".to_string()),
    ];
    assert_eq!(XmlElement::build_from_tokens(el("", "", &[], vec![]), &tokens), Err(DecodeError::MismatchedEnd));
    let tokens = vec![
        XmlToken::Start { tag: "a".to_string(), attributes: vec![] },
        XmlToken::Start { tag: "b".to_string(), attributes: vec![] },
        XmlToken::End("a".to_string()),
        XmlToken::End("b".to_string()),
    ];
    assert_eq!(XmlElement::build_from_tokens(el("", "", &[], vec![]), &tokens), Err(DecodeError::MismatchedEnd));
    let tokens = vec![
        XmlToken::Start { tag: "a".to_string(), attributes: vec![] },
        XmlToken::End("A".to_string()),
    ];
    assert_eq!(XmlElement::build_from_tokens(el("", "", &[], vec![]), &tokens), Err(DecodeError::MismatchedEnd));
    let tokens = vec![XmlToken::End("".to_string())];
    assert_eq!(XmlElement::build_from_tokens(el("", "", &[], vec![]), &tokens), Err(DecodeError::UnmatchedEnd));
}

#[test]
fn from_start_makes_a_bare_element() {
    let e = XmlElement::from_start("a".to_string(), vec![XmlAttribute::new("k", "v")]);
    assert_eq!(e, el("a", "", &[("k", "v")], vec![]));
}

#[test]
fn each_reserved_character_is_written_as_its_entity() {
    let t = tree_of(vec![el("a", "<>'&\"x", &[], vec![])]);
    assert_eq!(t.as_string(), "<a>&lt;&gt;&apos;&amp;&quot;x</a>");
    let t = tree_of(vec![el("a", "äö€", &[("k", "é<")], vec![])]);
    assert_eq!(t.as_string(), "<a k=\"é&lt;\">äö€</a>");
}

#[test]
fn merge_with_or_add_by_tag_gives_what_merge_by_tag_gives() {
    let build = |by_predicate: bool| {
        let mut root = el("", "", &[], vec![]);
        let incoming = vec![
            el("A", "keep", &[("k", "v")], vec![el("b", "", &[], vec![])]),
            el("a", "drop", &[], vec![el("c", "", &[], vec![]), el("B", "", &[], vec![el("d", "", &[], vec![])])]),
            el("e", "", &[], vec![]),
            el("E", "", &[], vec![]),
        ];
        for e in incoming {
            if by_predicate {
                root.merge_with_or_add(e, &XmlElement::same_tag);
            } else {
                root.merge_by_tag(e);
            }
        }
        root
    };
    assert_eq!(build(true), build(false));
    assert_eq!(build(true).sub_elements.len(), 2);
}

#[test]
fn merge_with_or_add_follows_the_predicate() {
    let same_id = |a: &XmlElement, b: &XmlElement| {
        a.attributes().first().map(|x| &x.value) == b.attributes().first().map(|x| &x.value)
    };
    let mut root = el("", "", &[], vec![]);
    root.merge_with_or_add(el("p", "", &[("id", "1")], vec![el("x", "", &[("id", "7")], vec![])]), &same_id);
    root.merge_with_or_add(el("q", "", &[("id", "2")], vec![]), &same_id);
    root.merge_with_or_add(
        el("other", "t", &[("id", "1")], vec![el("y", "", &[("id", "8")], vec![]), el("z", "", &[("id", "7")], vec![el("w", "", &[], vec![])])]),
        &same_id,
    );
    assert_eq!(
        root.sub_elements,
        vec![
            el("p", "", &[("id", "1")], vec![el("x", "", &[("id", "7")], vec![el("w", "", &[], vec![])]), el("y", "", &[("id", "8")], vec![])]),
            el("q", "", &[("id", "2")], vec![]),
        ]
    );
    let never = |_: &XmlElement, _: &XmlElement| false;
    root.merge_with_or_add(el("p", "", &[("id", "1")], vec![]), &never);
    assert_eq!(root.sub_elements.len(), 3);
    let always = |_: &XmlElement, _: &XmlElement| true;
    let before = root.sub_elements.len();
    root.merge_with_or_add(el("n", "", &[], vec![el("m", "", &[], vec![])]), &always);
    assert_eq!(root.sub_elements.len(), before);
    assert_eq!(root.sub_elements[0].sub_elements[0].sub_elements, vec![el("w", "", &[], vec![])]);
    let first_only = |a: &XmlElement, _: &XmlElement| a.tag() == "p" || a.tag() == "y";
    root.merge_with_or_add(el("n", "", &[], vec![el("m", "", &[], vec![el("deep", "", &[], vec![])])]), &first_only);
    assert_eq!(root.sub_elements[0].sub_elements[1], el("y", "", &[("id", "8")], vec![el("deep", "", &[], vec![])]));
}

#[test]
fn same_tag_ignores_case() {
    assert!(XmlElement::same_tag(&el("Ab", "x", &[], vec![]), &el("aB", "", &[("k", "v")], vec![])));
    assert!(!XmlElement::same_tag(&el("a", "", &[], vec![]), &el("b", "", &[], vec![])));
}
