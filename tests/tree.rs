use parsenip::attributes::extract_attributes;
use parsenip::lex::{lex, Token};
use parsenip::node::{ChildrenType, Node};
use parsenip::parse::{parse, ParserError};
use parsenip::tag::Tag;

fn s(x: &str) -> String {
    x.to_string()
}

fn build(html: &str) -> Result<Option<Node>, ParserError> {
    parse(lex(html).unwrap())
}

fn leaf(element: &str, inner: Option<&str>) -> Node {
    Node {
        tag: Tag { element: s(element), inner: inner.map(s), attributes: None },
        child: ChildrenType::NoChildren,
    }
}

#[test]
fn self_close_builds_leaf() {
    let root = build("<img src=\"x\"/>").unwrap().unwrap();
    assert_eq!(root.tag.element, "img");
    assert_eq!(root.tag.inner, None);
    assert_eq!(root.tag.attributes, Some(vec![(s("src"), vec![s("x")])]));
    assert_eq!(root.child, ChildrenType::NoChildren);
}

#[test]
fn siblings_keep_document_order() {
    let root = build("<ul><li>A</li><li>B</li></ul>").unwrap().unwrap();
    let expected = Node {
        tag: Tag { element: s("ul"), inner: None, attributes: None },
        child: ChildrenType::Children(vec![leaf("li", Some("A")), leaf("li", Some("B"))]),
    };
    assert_eq!(root, expected);
}

#[test]
fn minimal_round_trip() {
    let root = build("<div><h1>Hi</h1></div>").unwrap().unwrap();
    let expected = Node {
        tag: Tag { element: s("div"), inner: None, attributes: None },
        child: ChildrenType::Child(Box::new(leaf("h1", Some("Hi")))),
    };
    assert_eq!(root, expected);
}

#[test]
fn mismatched_close_is_rejected() {
    assert_eq!(build("<div><span></div>"), Err(ParserError::UnmatchedTag(s("span"))));
}

#[test]
fn crossing_tags_are_malformed() {
    assert_eq!(build("<div><span></div></span>"), Err(ParserError::MalformedHTML));
}

#[test]
fn stray_close_inside_element_is_malformed() {
    assert_eq!(build("<div></span></div>"), Err(ParserError::MalformedHTML));
}

#[test]
fn unmatched_root_is_rejected() {
    assert_eq!(build("<div>"), Err(ParserError::UnmatchedTag(s("div"))));
}

#[test]
fn root_that_is_text_is_internal_error() {
    assert!(matches!(build("lead<a></a>"), Err(ParserError::InternalError(_))));
}

#[test]
fn empty_input_builds_nothing() {
    assert_eq!(build(""), Ok(None));
    assert_eq!(build("   \n "), Ok(None));
    assert_eq!(parse(vec![]), Ok(None));
}

#[test]
fn same_name_nesting_builds_two_levels() {
    let root = build("<div><div></div></div>").unwrap().unwrap();
    let expected = Node {
        tag: Tag { element: s("div"), inner: None, attributes: None },
        child: ChildrenType::Child(Box::new(leaf("div", None))),
    };
    assert_eq!(root, expected);
}

#[test]
fn deep_tree_is_built() {
    let html = "<div><div><h1>T</h1><ul><li>1</li><li>2</li></ul></div><p>x<b>y</b>z</p></div>";
    let root = build(html).unwrap().unwrap();
    let expected = Node {
        tag: Tag { element: s("div"), inner: None, attributes: None },
        child: ChildrenType::Children(vec![
            Node {
                tag: Tag { element: s("div"), inner: None, attributes: None },
                child: ChildrenType::Children(vec![
                    leaf("h1", Some("T")),
                    Node {
                        tag: Tag { element: s("ul"), inner: None, attributes: None },
                        child: ChildrenType::Children(vec![
                            leaf("li", Some("1")),
                            leaf("li", Some("2")),
                        ]),
                    },
                ]),
            },
            Node {
                tag: Tag { element: s("p"), inner: Some(s("x")), attributes: None },
                child: ChildrenType::Child(Box::new(leaf("b", Some("y")))),
            },
        ]),
    };
    assert_eq!(root, expected);
}

#[test]
fn tokens_after_root_are_ignored() {
    let root = build("<a></a><b></b>").unwrap().unwrap();
    assert_eq!(root, leaf("a", None));
}

#[test]
fn parse_of_hand_made_tokens() {
    let tokens = vec![
        Token::Open(s("p"), s("id=k")),
        Token::Inner(s("t")),
        Token::SelfClose(s("br"), s("")),
        Token::Close(s("p")),
    ];
    let root = parse(tokens).unwrap().unwrap();
    assert_eq!(root.tag.element, "p");
    assert_eq!(root.tag.inner, Some(s("t")));
    assert_eq!(root.tag.attributes, Some(vec![(s("id"), vec![s("k")])]));
    assert_eq!(root.child, ChildrenType::Child(Box::new(leaf("br", None))));
}

#[test]
fn attributes_empty_text_is_none() {
    assert_eq!(extract_attributes(&s("")), None);
}

#[test]
fn attributes_of_several_forms() {
    let a = extract_attributes(&s("href=\"x y\" id=z checked data-v='a  b'")).unwrap();
    assert_eq!(
        a,
        vec![
            (s("href"), vec![s("x"), s("y")]),
            (s("id"), vec![s("z")]),
            (s("checked"), vec![]),
            (s("data-v"), vec![s("a"), s("b")]),
        ]
    );
}

#[test]
fn attributes_unclosed_quote_ends_with_text() {
    let a = extract_attributes(&s("title=\"one two")).unwrap();
    assert_eq!(a, vec![(s("title"), vec![s("one"), s("two")])]);
}

#[test]
fn attributes_key_with_empty_value() {
    let a = extract_attributes(&s("alt= src=p")).unwrap();
    assert_eq!(a, vec![(s("alt"), vec![]), (s("src"), vec![s("p")])]);
}

#[test]
fn attributes_repeated_key_adds_values() {
    let a = extract_attributes(&s("class=a id=k class=\"b c\"")).unwrap();
    assert_eq!(a, vec![(s("class"), vec![s("a"), s("b"), s("c")]), (s("id"), vec![s("k")])]);
}

#[test]
fn nested_unmatched_tag_is_rejected() {
    assert_eq!(
        build("<div><p><span></p></div>"),
        Err(ParserError::UnmatchedTag(s("span")))
    );
}

#[test]
fn first_fault_in_breadth_first_order_is_reported() {
    // the crossing `b` sits one level above the unmatched `i`
    assert_eq!(build("<r><a><x><i></x></a><b></r></b></r>"), Err(ParserError::MalformedHTML));
}

#[test]
fn header_with_attribute_is_a_leaf() {
    let root = build("<h1 id=\"header\">Hello world</h1>").unwrap().unwrap();
    let expected = Node {
        tag: Tag {
            element: s("h1"),
            inner: Some(s("Hello world")),
            attributes: Some(vec![(s("id"), vec![s("header")])]),
        },
        child: ChildrenType::NoChildren,
    };
    assert_eq!(root, expected);
}
