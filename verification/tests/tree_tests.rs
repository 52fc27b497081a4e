#![allow(non_snake_case)]

use xml::{Element, Xml};

#[test]
fn lib_test_show_element() {
    let elem = Element::new("a".to_owned(), None, vec![]);
    assert_eq!(elem.to_xml_string(), "<a/>");

    let elem = Element::new(
        "a".to_owned(),
        None,
        vec![("href".to_owned(), None, "http://rust-lang.org".to_owned())],
    );
    assert_eq!(elem.to_xml_string(), "<a href='http://rust-lang.org'/>");

    let mut elem = Element::new("a".to_owned(), None, vec![]);
    elem.tag(Element::new("b".to_owned(), None, vec![]));
    assert_eq!(elem.to_xml_string(), "<a><b/></a>");

    let mut elem = Element::new(
        "a".to_owned(),
        None,
        vec![("href".to_owned(), None, "http://rust-lang.org".to_owned())],
    );
    elem.tag(Element::new("b".to_owned(), None, vec![]));
    assert_eq!(
        elem.to_xml_string(),
        "<a href='http://rust-lang.org'><b/></a>",
    );
}

#[test]
fn test_show_element_xmlns() {
    let elem: Element = "<a xmlns='urn:test'/>".parse().unwrap();
    assert_eq!(elem.to_xml_string(), "<a xmlns='urn:test'/>");

    let elem: Element = "<a xmlns='urn:test'><b xmlns='urn:toast'/></a>"
        .parse()
        .unwrap();
    assert_eq!(
        elem.to_xml_string(),
        "<a xmlns='urn:test'><b xmlns='urn:toast'/></a>",
    );

    let elem = Element::new(
        "a".to_owned(),
        Some("urn:test".to_owned()),
        vec![("href".to_owned(), None, "http://rust-lang.org".to_owned())],
    );
    assert_eq!(
        elem.to_xml_string(),
        "<a xmlns='urn:test' href='http://rust-lang.org'/>",
    );
}

#[test]
fn lib_test_show_characters() {
    let chars = Xml::CharacterNode("some text".to_owned());
    assert_eq!(chars.to_xml_string(), "some text");
}

#[test]
fn lib_test_show_cdata() {
    let chars = Xml::CDATANode("some text".to_owned());
    assert_eq!(chars.to_xml_string(), "<![CDATA[some text]]>");
}

#[test]
fn lib_test_show_comment() {
    let chars = Xml::CommentNode("some text".to_owned());
    assert_eq!(chars.to_xml_string(), "<!--some text-->");
}

#[test]
fn lib_test_show_pi() {
    let chars = Xml::PINode("xml version='1.0'".to_owned());
    assert_eq!(chars.to_xml_string(), "<?xml version='1.0'?>");
}

#[test]
fn lib_test_content_str() {
    let mut elem = Element::new("a".to_owned(), None, vec![]);
    elem.pi("processing information".to_owned());
    elem.cdata("<hello/>".to_owned());
    elem.tag_stay(Element::new("b".to_owned(), None, vec![]));
    elem.text("World".to_owned());
    elem.comment("Nothing to see".to_owned());
    assert_eq!(elem.content_str(), "<hello/>World");
}

#[test]
fn test_get_children() {
    let elem: Element = "<a><b/><c/><b/></a>".parse().unwrap();
    assert_eq!(
        elem.get_children("b", None).elems,
        vec![
            &Element::new("b".to_owned(), None, vec![]),
            &Element::new("b".to_owned(), None, vec![])
        ],
    );
}

#[test]
fn test_get_child() {
    let elem: Element = "<a><b/><c/><b/></a>".parse().unwrap();
    assert_eq!(
        elem.get_child("b", None),
        Some(&Element::new("b".to_owned(), None, vec![])),
    );
}

#[test]
fn test_to_str_element() {
    let elem = Element::new("a".to_owned(), None, vec![]);
    assert_eq!(elem.to_xml_string(), "<a/>".to_string());

    let elem = Element::new(
        "a".to_owned(),
        None,
        vec![("href".to_owned(), None, "http://rust-lang.org".to_owned())],
    );
    assert_eq!(elem.to_xml_string(), "<a href='http://rust-lang.org'/>".to_string());

    let mut elem = Element::new("a".to_owned(), None, vec![]);
    elem.tag(Element::new("b".to_owned(), None, vec![]));
    assert_eq!(elem.to_xml_string(), "<a><b/></a>".to_string());

    let mut elem = Element::new(
        "a".to_owned(),
        None,
        vec![("href".to_owned(), None, "http://rust-lang.org".to_owned())],
    );
    elem.tag(Element::new("b".to_owned(), None, vec![]));
    assert_eq!(
        elem.to_xml_string(),
        "<a href='http://rust-lang.org'><b/></a>".to_string()
    );
}

#[test]
fn test_to_str_characters() {
    let chars = Xml::CharacterNode("some text".to_owned());
    assert_eq!(chars.to_xml_string(), "some text".to_string());
}

#[test]
fn test_to_str_CDATA() {
    let chars = Xml::CDATANode("some text".to_owned());
    assert_eq!(chars.to_xml_string(), "<![CDATA[some text]]>".to_string());
}

#[test]
fn test_to_str_comment() {
    let chars = Xml::CommentNode("some text".to_owned());
    assert_eq!(chars.to_xml_string(), "<!--some text-->".to_string());
}

#[test]
fn test_to_str_pi() {
    let chars = Xml::PINode("xml version='1.0'".to_owned());
    assert_eq!(chars.to_xml_string(), "<?xml version='1.0'?>".to_string());
}

#[test]
fn base_test_content_str() {
    let mut elem = Element::new("a".to_owned(), None, vec![]);
    elem.pi("processing information".to_owned());
    elem.cdata("<hello/>".to_owned());
    elem.tag_stay(Element::new("b".to_owned(), None, vec![]));
    elem.text("World".to_owned());
    elem.comment("Nothing to see".to_owned());
    assert_eq!(elem.content_str(), "<hello/>World".to_string());
}

#[test]
fn test_test_show_element() {
    let elem = Element::new("a".to_owned(), None, Vec::new());
    assert_eq!(elem.to_xml_string(), "<a/>");

    let elem = Element::new(
        "a".to_owned(),
        None,
        vec![("href".to_owned(), None, "http://rust-lang.org".to_owned())],
    );
    assert_eq!(elem.to_xml_string(), "<a href='http://rust-lang.org'/>");

    let mut elem = Element::new("a".to_owned(), None, Vec::new());
    elem.tag(Element::new("b".to_owned(), None, Vec::new()));
    assert_eq!(elem.to_xml_string(), "<a><b/></a>");

    let mut elem = Element::new(
        "a".to_owned(),
        None,
        vec![("href".to_owned(), None, "http://rust-lang.org".to_owned())],
    );
    elem.tag(Element::new("b".to_owned(), None, Vec::new()));
    assert_eq!(elem.to_xml_string(), "<a href='http://rust-lang.org'><b/></a>");
}

#[test]
fn test_test_show_characters() {
    let chars = Xml::CharacterNode("some text".to_owned());
    assert_eq!(chars.to_xml_string(), "some text");
}

#[test]
fn test_test_show_cdata() {
    let chars = Xml::CDATANode("some text".to_owned());
    assert_eq!(chars.to_xml_string(), "<![CDATA[some text]]>");
}

#[test]
fn test_test_show_comment() {
    let chars = Xml::CommentNode("some text".to_owned());
    assert_eq!(chars.to_xml_string(), "<!--some text-->");
}

#[test]
fn test_test_show_pi() {
    let chars = Xml::PINode("xml version='1.0'".to_owned());
    assert_eq!(chars.to_xml_string(), "<?xml version='1.0'?>");
}

#[test]
fn test_test_content_str() {
    let mut elem = Element::new("a".to_owned(), None, Vec::new());
    elem.pi("processing information".to_owned());
    elem.cdata("<hello/>".to_owned());
    elem.tag_stay(Element::new("b".to_owned(), None, Vec::new()));
    elem.text("World".to_owned());
    elem.comment("Nothing to see".to_owned());
    assert_eq!(elem.content_str(), "<hello/>World".to_string());
}

#[test]
fn test_show_element() {
    let elem = Element::new("a".to_owned(), None, Vec::new());
    assert_eq!(elem.to_xml_string(), "<a/>");

    let elem = Element::new(
        "a".to_owned(),
        None,
        vec![("href".to_owned(), None, "http://rust-lang.org".to_owned())],
    );
    assert_eq!(elem.to_xml_string(), "<a href='http://rust-lang.org'/>");

    let mut elem = Element::new("a".to_owned(), None, Vec::new());
    elem.tag(Element::new("b".to_owned(), None, Vec::new()));
    assert_eq!(elem.to_xml_string(), "<a><b/></a>");

    let mut elem = Element::new(
        "a".to_owned(),
        None,
        vec![("href".to_owned(), None, "http://rust-lang.org".to_owned())],
    );
    elem.tag(Element::new("b".to_owned(), None, Vec::new()));
    assert_eq!(elem.to_xml_string(), "<a href='http://rust-lang.org'><b/></a>");
}

#[test]
fn test_show_characters() {
    let chars = Xml::CharacterNode("some text".to_owned());
    assert_eq!(chars.to_xml_string(), "some text");
}

#[test]
fn test_show_cdata() {
    let chars = Xml::CDATANode("some text".to_owned());
    assert_eq!(chars.to_xml_string(), "<![CDATA[some text]]>");
}

#[test]
fn test_show_comment() {
    let chars = Xml::CommentNode("some text".to_owned());
    assert_eq!(chars.to_xml_string(), "<!--some text-->");
}

#[test]
fn test_show_pi() {
    let chars = Xml::PINode("xml version='1.0'".to_owned());
    assert_eq!(chars.to_xml_string(), "<?xml version='1.0'?>");
}

#[test]
fn test_content_str() {
    let mut elem = Element::new("a".to_owned(), None, Vec::new());
    elem.pi("processing information".to_owned());
    elem.cdata("<hello/>".to_owned());
    elem.tag_stay(Element::new("b".to_owned(), None, Vec::new()));
    elem.text("World".to_owned());
    elem.comment("Nothing to see".to_owned());
    assert_eq!(elem.content_str(), "<hello/>World".to_string());
}
