use xml::{
    AttrMap, BuilderError, Element, ElementBuilder, EndTag, Event, Parser, ParserError, StartTag,
};

fn events_of(input: &str) -> Vec<Result<Event, ParserError>> {
    let mut p = Parser::new();
    p.feed_str(input);
    let mut v = Vec::new();
    while let Some(event) = p.next_event() {
        v.push(event);
    }
    v
}

fn first_error(input: &str) -> ParserError {
    for event in events_of(input) {
        if let Err(e) = event {
            return e;
        }
    }
    panic!("expected a parse error for {}", input);
}

#[test]
fn namespace_resolution_reaches_children() {
    let v = events_of("<a xmlns='urn:x'><b/></a>");
    match &v[1] {
        Ok(Event::ElementStart(t)) => {
            assert_eq!(t.name, "b");
            assert_eq!(t.ns, Some("urn:x".to_string()));
        }
        other => panic!("unexpected event {:?}", other),
    }
}

#[test]
fn namespace_override_with_empty_value_removes_it() {
    let v = events_of("<a xmlns='urn:x'><b xmlns=''/></a>");
    match &v[1] {
        Ok(Event::ElementStart(t)) => {
            assert_eq!(t.name, "b");
            assert_eq!(t.ns, None);
        }
        other => panic!("unexpected event {:?}", other),
    }
}

#[test]
fn unbound_prefix_is_an_error_not_a_panic() {
    let mut p = Parser::new();
    p.feed_str("<foo:a/>");
    match p.next_event() {
        Some(Err(e)) => {
            assert_eq!(e.msg, "Unbound namespace prefix in tag name");
        }
        other => panic!("unexpected result {:?}", other),
    }
    // once failed, the stream has ended
    assert_eq!(p.next_event(), None);
}

#[test]
fn single_cdata_event() {
    let v = events_of("<![CDATA[<html>x</html>]]>");
    assert_eq!(v, vec![Ok(Event::CDATA("<html>x</html>".to_string()))]);
}

#[test]
fn apostrophe_entity_in_text() {
    let v = events_of("<text>it&apos;s ok</text>");
    assert_eq!(v.len(), 3);
    assert_eq!(v[1], Ok(Event::Characters("it's ok".to_string())));
}

#[test]
fn parse_render_round_trip() {
    let doc = "<a xmlns='urn:x' href='h'><b>text<![CDATA[x]]><!--c--><?pi?></b><c xmlns=''/></a>";
    let t: Element = doc.parse().unwrap();
    let s = t.to_xml_string();
    let t2: Element = s.parse().unwrap();
    assert_eq!(t, t2);
}

#[test]
fn prefixed_tree_round_trip() {
    let doc = "<x:a xmlns:x='urn:x'><x:b/></x:a>";
    let t: Element = doc.parse().unwrap();
    let s = t.to_xml_string();
    let t2: Element = s.parse().unwrap();
    assert_eq!(t, t2);
}

#[test]
fn builder_yields_one_root_for_balanced_events() {
    let mut b = ElementBuilder::new();
    let mut roots = 0;
    for event in events_of("<a><b/><c/><b/></a>") {
        match b.handle_event(event) {
            None => {}
            Some(Ok(root)) => {
                roots += 1;
                assert_eq!(root.name, "a");
                assert_eq!(root.children.len(), 3);
            }
            Some(Err(e)) => panic!("unexpected error {:?}", e),
        }
    }
    assert_eq!(roots, 1);
}

#[test]
fn builder_accepts_sibling_roots() {
    let mut b = ElementBuilder::new();
    let mut names = Vec::new();
    for event in events_of("<a/><b/>") {
        if let Some(Ok(root)) = b.handle_event(event) {
            names.push(root.name);
        }
    }
    assert_eq!(names, vec!["a".to_string(), "b".to_string()]);
}

#[test]
fn improper_nesting_is_a_builder_error() {
    let mut b = ElementBuilder::new();
    let mut result = None;
    for event in events_of("<a><b></a></b>") {
        if let Some(r) = b.handle_event(event) {
            result = Some(r);
            break;
        }
    }
    assert_eq!(result, Some(Err(BuilderError::ImproperNesting)));
}

#[test]
fn end_tag_without_start_is_improper_nesting() {
    let mut b = ElementBuilder::new();
    let mut result = None;
    for event in events_of("</a>") {
        if let Some(r) = b.handle_event(event) {
            result = Some(r);
        }
    }
    assert_eq!(result, Some(Err(BuilderError::ImproperNesting)));
}

#[test]
fn empty_input_gives_no_element() {
    let r: Result<Element, BuilderError> = "".parse();
    assert_eq!(r, Err(BuilderError::NoElement));
    let r: Result<Element, BuilderError> = "<!--only trivia-->".parse();
    assert_eq!(r, Err(BuilderError::NoElement));
}

#[test]
fn parser_errors_are_forwarded_by_the_builder() {
    let r: Result<Element, BuilderError> = "<foo:a/>".parse();
    match r {
        Err(BuilderError::Parser(e)) => {
            assert_eq!(e.msg, "Unbound namespace prefix in tag name");
        }
        other => panic!("unexpected result {:?}", other),
    }
}

#[test]
fn duplicate_attribute_is_an_error() {
    let e = first_error("<a x='1' x='2'>");
    assert_eq!(e.msg, "Duplicate attribute");
}

#[test]
fn duplicate_detection_uses_the_resolved_namespace() {
    // two raw names resolving to the same (name, namespace) pair
    let e = first_error("<a xmlns:p='urn:x' xmlns:q='urn:x' p:k='1' q:k='2'>");
    assert_eq!(e.msg, "Duplicate attribute");
}

#[test]
fn space_in_attribute_name_is_an_error() {
    let e = first_error("<a b c='1'>");
    assert_eq!(e.msg, "Space occured in attribute name");
}

#[test]
fn missing_attribute_delimiter_is_an_error() {
    let e = first_error("<a b=x>");
    assert_eq!(e.msg, "Attribute value not enclosed in ' or \"");
}

#[test]
fn unbound_attribute_prefix_is_an_error() {
    let e = first_error("<a foo:b='1'/>");
    assert_eq!(e.msg, "Unbound namespace prefix in attribute name");
}

#[test]
fn malformed_bang_construct_is_an_error() {
    let e = first_error("<!x");
    assert_eq!(e.msg, "Malformed XML");
}

#[test]
fn invalid_cdata_opening_is_an_error() {
    let e = first_error("<![CDAT!");
    assert_eq!(e.msg, "Invalid CDATA opening sequence");
}

#[test]
fn missing_second_comment_dash_is_an_error() {
    let e = first_error("<!-x");
    assert_eq!(e.msg, "Expected 2nd '-' to start comment");
}

#[test]
fn double_dash_inside_comment_is_an_error() {
    let e = first_error("<!--a--b-->");
    assert_eq!(e.msg, "No more than one adjacent '-' allowed in a comment");
}

#[test]
fn invalid_doctype_is_an_error() {
    let e = first_error("<!DOCTYPEx>");
    assert_eq!(e.msg, "Invalid DOCTYPE");
}

#[test]
fn missing_self_close_angle_is_an_error() {
    let e = first_error("<a/b>");
    assert_eq!(e.msg, "Expected '>' to close tag");
}

#[test]
fn close_tag_trailing_junk_is_an_error() {
    let e = first_error("</a b>");
    assert_eq!(e.msg, "Expected '>' to close tag, or LWS");
}

#[test]
fn invalid_entity_in_text_is_an_error() {
    let e = first_error("<t>&nbsp;</t>");
    assert_eq!(e.msg, "Found invalid entity");
}

#[test]
fn invalid_entity_in_attribute_value_is_an_error() {
    let e = first_error("<a b='&nope;'/>");
    assert_eq!(e.msg, "Found invalid entity");
}

#[test]
fn error_positions_count_lines_and_columns() {
    let e = first_error("<a>\n<!x");
    assert_eq!(e.line, 2);
    assert_eq!(e.col, 3);
}

#[test]
fn streaming_across_chunk_boundaries() {
    let mut p = Parser::new();
    p.feed_str("<regi");
    assert_eq!(p.next_event(), None);
    p.feed_str("ster/>");
    let mut v = Vec::new();
    while let Some(event) = p.next_event() {
        v.push(event);
    }
    assert_eq!(
        v,
        vec![
            Ok(Event::ElementStart(StartTag {
                name: "register".to_string(),
                ns: None,
                prefix: None,
                attributes: AttrMap::new()
            })),
            Ok(Event::ElementEnd(EndTag {
                name: "register".to_string(),
                ns: None,
                prefix: None,
            }))
        ]
    );
}

#[test]
fn top_level_trivia_is_dropped_without_error() {
    let doc = "<?pi?> <!--c--> <a/> ";
    let t: Element = doc.parse().unwrap();
    assert_eq!(t.name, "a");
}

#[test]
fn attribute_accessors() {
    let mut e = Element::new(
        "a".to_string(),
        None,
        vec![("k".to_string(), None, "v".to_string())],
    );
    assert_eq!(e.get_attribute("k", None), Some("v"));
    assert_eq!(e.get_attribute("k", Some("urn:x")), None);
    assert_eq!(e.set_attribute("k".to_string(), None, "w".to_string()), Some("v".to_string()));
    assert_eq!(e.get_attribute("k", None), Some("w"));
    assert_eq!(e.remove_attribute("k", None), Some("w".to_string()));
    assert_eq!(e.get_attribute("k", None), None);
}

#[test]
fn attribute_with_name_ignores_the_namespace() {
    let t: Element = "<a xmlns:p='urn:x' p:k='1'/>".parse().unwrap();
    let attr = t.attribute_with_name("k").unwrap();
    assert_eq!(attr.ns, Some("urn:x".to_string()));
    assert_eq!(attr.value, "1");
    let attr = t.attribute_with_name_and_ns("k", Some("urn:x")).unwrap();
    assert_eq!(attr.value, "1");
    assert!(t.attribute_with_name_and_ns("k", None).is_none());
}

#[test]
fn child_lookup_by_name_only() {
    let t: Element = "<a xmlns='urn:x'><b/><c/></a>".parse().unwrap();
    assert!(t.child_with_name("b").is_some());
    assert!(t.child_with_name_and_ns("b", Some("urn:x")).is_some());
    assert!(t.child_with_name_and_ns("b", None).is_none());
    assert_eq!(t.children_with_name("b").len(), 1);
    assert_eq!(t.children_with_name_and_ns("c", Some("urn:x")).len(), 1);
}

#[test]
fn push_event_reports_roots_and_errors() {
    let mut b = ElementBuilder::new();
    let mut roots = 0;
    for event in events_of("<a/>") {
        match b.push_event(event.unwrap()) {
            Ok(Some(root)) => {
                roots += 1;
                assert_eq!(root.name, "a");
            }
            Ok(None) => {}
            Err(e) => panic!("unexpected error {:?}", e),
        }
    }
    assert_eq!(roots, 1);
    let end = Event::ElementEnd(EndTag {
        name: "zz".to_string(),
        ns: None,
        prefix: None,
    });
    assert_eq!(b.push_event(end), Err(BuilderError::ImproperNesting));
}

#[test]
fn define_prefix_names_a_namespace_when_rendering() {
    let t: Element = "<x:a xmlns:x='urn:x'/>".parse().unwrap();
    assert_eq!(t.ns, Some("urn:x".to_string()));
    assert_eq!(t.to_xml_string(), "<x:a xmlns:x='urn:x'/>");
}

#[test]
fn builder_default_ns_can_be_preset() {
    let mut b = ElementBuilder::new();
    b.set_default_ns("urn:d".to_string());
    b.define_prefix("p".to_string(), "urn:q".to_string());
    let mut root = None;
    for event in events_of("<a/>") {
        if let Some(Ok(e)) = b.handle_event(event) {
            root = Some(e);
        }
    }
    let root = root.unwrap();
    // the preset default namespace is in effect for serialization
    assert_eq!(root.default_ns, Some("urn:d".to_string()));
}
