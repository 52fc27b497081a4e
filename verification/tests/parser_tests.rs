#![allow(non_snake_case)]

use xml::{AttrMap, EndTag, Event, Parser, ParserError, StartTag};

fn collect(p: &mut Parser) -> Vec<Result<Event, ParserError>> {
    let mut v = Vec::new();
    while let Some(event) = p.next_event() {
        v.push(event);
    }
    v
}

#[test]
fn parser_test_start_tag() {
    let mut p = Parser::new();
    let mut i = 0u8;
    p.feed_str("<a>");
    while let Some(event) = p.next_event() {
        i += 1;
        assert_eq!(
            event,
            Ok(Event::ElementStart(StartTag {
                name: "a".to_owned(),
                ns: None,
                prefix: None,
                attributes: AttrMap::new()
            })),
        );
    }
    assert_eq!(i, 1u8);
}

#[test]
fn parser_test_end_tag() {
    let mut p = Parser::new();
    let mut i = 0u8;
    p.feed_str("</a>");
    while let Some(event) = p.next_event() {
        i += 1;
        assert_eq!(
            event,
            Ok(Event::ElementEnd(EndTag {
                name: "a".to_owned(),
                ns: None,
                prefix: None
            })),
        );
    }
    assert_eq!(i, 1u8);
}

#[test]
fn parser_test_self_closing_with_space() {
    let mut p = Parser::new();
    p.feed_str("<register />");

    let v = collect(&mut p);
    assert_eq!(
        v,
        vec![
            Ok(Event::ElementStart(StartTag {
                name: "register".to_owned(),
                ns: None,
                prefix: None,
                attributes: AttrMap::new()
            })),
            Ok(Event::ElementEnd(EndTag {
                name: "register".to_owned(),
                ns: None,
                prefix: None,
            }))
        ],
    );
}

#[test]
fn parser_test_self_closing_without_space() {
    let mut p = Parser::new();
    p.feed_str("<register/>");

    let v = collect(&mut p);
    assert_eq!(
        v,
        vec![
            Ok(Event::ElementStart(StartTag {
                name: "register".to_owned(),
                ns: None,
                prefix: None,
                attributes: AttrMap::new()
            })),
            Ok(Event::ElementEnd(EndTag {
                name: "register".to_owned(),
                ns: None,
                prefix: None,
            }))
        ],
    );
}

#[test]
fn parser_test_self_closing_namespace() {
    let mut p = Parser::new();
    p.feed_str("<foo:a xmlns:foo='urn:foo'/>");

    let v = collect(&mut p);
    let mut attr = AttrMap::new();
    attr.insert(
        "foo".to_owned(),
        Some("http://www.w3.org/2000/xmlns/".to_owned()),
        "urn:foo".to_owned(),
    );
    assert_eq!(
        v,
        vec![
            Ok(Event::ElementStart(StartTag {
                name: "a".to_owned(),
                ns: Some("urn:foo".to_owned()),
                prefix: Some("foo".to_owned()),
                attributes: attr,
            })),
            Ok(Event::ElementEnd(EndTag {
                name: "a".to_owned(),
                ns: Some("urn:foo".to_owned()),
                prefix: Some("foo".to_owned()),
            }))
        ],
    );
}

#[test]
fn parser_test_pi() {
    let mut p = Parser::new();
    let mut i = 0u8;
    p.feed_str("<?xml version='1.0' encoding='utf-8'?>");
    while let Some(event) = p.next_event() {
        i += 1;
        assert_eq!(
            event,
            Ok(Event::PI("xml version='1.0' encoding='utf-8'".to_owned())),
        );
    }
    assert_eq!(i, 1u8);
}

#[test]
fn parser_test_comment() {
    let mut p = Parser::new();
    let mut i = 0u8;
    p.feed_str("<!--Nothing to see-->");
    while let Some(event) = p.next_event() {
        i += 1;
        assert_eq!(event, Ok(Event::Comment("Nothing to see".to_owned())));
    }
    assert_eq!(i, 1u8);
}

#[test]
fn parser_test_cdata() {
    let mut p = Parser::new();
    let mut i = 0u8;
    p.feed_str("<![CDATA[<html><head><title>x</title></head><body/></html>]]>");
    while let Some(event) = p.next_event() {
        i += 1;
        assert_eq!(
            event,
            Ok(Event::CDATA(
                "<html><head><title>x</title></head><body/></html>".to_owned()
            )),
        );
    }
    assert_eq!(i, 1u8);
}

#[test]
fn parser_test_characters() {
    let mut p = Parser::new();
    let mut i = 0u8;
    p.feed_str("<text>Hello World, it&apos;s a nice day</text>");
    while let Some(event) = p.next_event() {
        i += 1;
        if i == 2 {
            assert_eq!(
                event,
                Ok(Event::Characters("Hello World, it's a nice day".to_owned())),
            );
        }
    }
    assert_eq!(i, 3u8);
}

#[test]
fn parser_test_doctype() {
    let mut p = Parser::new();
    let mut i = 0u8;
    p.feed_str("<!DOCTYPE html>");
    while let Some(_) = p.next_event() {
        i += 1;
    }
    assert_eq!(i, 0u8);
}

#[test]
fn test_test_start_tag() {
    let mut p = Parser::new();
    let mut i = 0;
    p.feed_str("<a>");
    while let Some(event) = p.next_event() {
        i += 1;
        assert_eq!(
            event,
            Ok(Event::ElementStart(StartTag {
                name: "a".to_string(),
                ns: None,
                prefix: None,
                attributes: AttrMap::new()
            }))
        );
    }
    assert_eq!(i, 1);
}

#[test]
fn test_test_end_tag() {
    let mut p = Parser::new();
    let mut i = 0;
    p.feed_str("</a>");
    while let Some(event) = p.next_event() {
        i += 1;
        assert_eq!(
            event,
            Ok(Event::ElementEnd(EndTag {
                name: "a".to_string(),
                ns: None,
                prefix: None
            }))
        );
    }
    assert_eq!(i, 1);
}

#[test]
fn test_test_self_closing_with_space() {
    let mut p = Parser::new();
    p.feed_str("<register />");
    let v = collect(&mut p);
    assert_eq!(
        v,
        vec![
            Ok(Event::ElementStart(StartTag {
                name: "register".to_string(),
                ns: None,
                prefix: None,
                attributes: AttrMap::new()
            })),
            Ok(Event::ElementEnd(EndTag {
                name: "register".to_string(),
                ns: None,
                prefix: None,
            }))
        ]
    );
}

#[test]
fn test_test_self_closing_without_space() {
    let mut p = Parser::new();
    p.feed_str("<register/>");
    let v = collect(&mut p);
    assert_eq!(
        v,
        vec![
            Ok(Event::ElementStart(StartTag {
                name: "register".to_string(),
                ns: None,
                prefix: None,
                attributes: AttrMap::new()
            })),
            Ok(Event::ElementEnd(EndTag {
                name: "register".to_string(),
                ns: None,
                prefix: None,
            }))
        ]
    );
}

#[test]
fn test_test_self_closing_namespace() {
    let mut p = Parser::new();
    p.feed_str("<foo:a xmlns:foo='urn:foo'/>");
    let v = collect(&mut p);
    let mut attr = AttrMap::new();
    attr.insert(
        "foo".to_string(),
        Some("http://www.w3.org/2000/xmlns/".to_string()),
        "urn:foo".to_string(),
    );
    assert_eq!(
        v,
        vec![
            Ok(Event::ElementStart(StartTag {
                name: "a".to_string(),
                ns: Some("urn:foo".to_string()),
                prefix: Some("foo".to_string()),
                attributes: attr,
            })),
            Ok(Event::ElementEnd(EndTag {
                name: "a".to_string(),
                ns: Some("urn:foo".to_string()),
                prefix: Some("foo".to_string()),
            }))
        ]
    );
}

#[test]
fn test_test_pi() {
    let mut p = Parser::new();
    let mut i = 0;
    p.feed_str("<?xml version='1.0' encoding='utf-8'?>");
    while let Some(event) = p.next_event() {
        i += 1;
        assert_eq!(
            event,
            Ok(Event::PI("xml version='1.0' encoding='utf-8'".to_string()))
        );
    }
    assert_eq!(i, 1);
}

#[test]
fn test_test_comment() {
    let mut p = Parser::new();
    let mut i = 0;
    p.feed_str("<!--Nothing to see-->");
    while let Some(event) = p.next_event() {
        i += 1;
        assert_eq!(event, Ok(Event::Comment("Nothing to see".to_string())));
    }
    assert_eq!(i, 1);
}

#[test]
fn test_test_cdata() {
    let mut p = Parser::new();
    let mut i = 0;
    p.feed_str("<![CDATA[<html><head><title>x</title></head><body/></html>]]>");
    while let Some(event) = p.next_event() {
        i += 1;
        assert_eq!(
            event,
            Ok(Event::CDATA(
                "<html><head><title>x</title></head><body/></html>".to_string()
            ))
        );
    }
    assert_eq!(i, 1);
}

#[test]
fn test_test_characters() {
    let mut p = Parser::new();
    let mut i = 0;
    p.feed_str("<text>Hello World, it&apos;s a nice day</text>");
    while let Some(event) = p.next_event() {
        i += 1;
        if i == 2 {
            assert_eq!(
                event,
                Ok(Event::Characters("Hello World, it's a nice day".to_string()))
            );
        }
    }
    assert_eq!(i, 3);
}

#[test]
fn test_test_doctype() {
    let mut p = Parser::new();
    let mut i = 0;
    p.feed_str("<!DOCTYPE html>");
    while let Some(_) = p.next_event() {
        i += 1;
    }
    assert_eq!(i, 0);
}

#[test]
fn Parser_test_start_tag() {
    let mut p = Parser::new();
    let mut i = 0;
    p.feed_str("<a>");
    while let Some(event) = p.next_event() {
        i += 1;
        assert_eq!(
            event,
            Ok(Event::ElementStart(StartTag {
                name: "a".to_string(),
                ns: None,
                prefix: None,
                attributes: AttrMap::new()
            }))
        );
    }
    assert_eq!(i, 1);
}

#[test]
fn Parser_test_end_tag() {
    let mut p = Parser::new();
    let mut i = 0;
    p.feed_str("</a>");
    while let Some(event) = p.next_event() {
        i += 1;
        assert_eq!(
            event,
            Ok(Event::ElementEnd(EndTag {
                name: "a".to_string(),
                ns: None,
                prefix: None
            }))
        );
    }
    assert_eq!(i, 1);
}

#[test]
fn test_PI() {
    let mut p = Parser::new();
    let mut i = 0;
    p.feed_str("<?xml version='1.0' encoding='utf-8'?>");
    while let Some(event) = p.next_event() {
        i += 1;
        assert_eq!(
            event,
            Ok(Event::PI("xml version='1.0' encoding='utf-8'".to_string()))
        );
    }
    assert_eq!(i, 1);
}

#[test]
fn Parser_test_comment() {
    let mut p = Parser::new();
    let mut i = 0;
    p.feed_str("<!--Nothing to see-->");
    while let Some(event) = p.next_event() {
        i += 1;
        assert_eq!(event, Ok(Event::Comment("Nothing to see".to_string())));
    }
    assert_eq!(i, 1);
}

#[test]
fn test_CDATA() {
    let mut p = Parser::new();
    let mut i = 0;
    p.feed_str("<![CDATA[<html><head><title>x</title></head><body/></html>]]>");
    while let Some(event) = p.next_event() {
        i += 1;
        assert_eq!(
            event,
            Ok(Event::CDATA(
                "<html><head><title>x</title></head><body/></html>".to_string()
            ))
        );
    }
    assert_eq!(i, 1);
}

#[test]
fn Parser_test_characters() {
    let mut p = Parser::new();
    let mut i = 0;
    p.feed_str("<text>Hello World, it&apos;s a nice day</text>");
    while let Some(event) = p.next_event() {
        i += 1;
        if i == 2 {
            assert_eq!(
                event,
                Ok(Event::Characters("Hello World, it's a nice day".to_string()))
            );
        }
    }
    assert_eq!(i, 3);
}

#[test]
fn Parser_test_doctype() {
    let mut p = Parser::new();
    let mut i = 0;
    p.feed_str("<!DOCTYPE html>");
    while let Some(_) = p.next_event() {
        i += 1;
    }
    assert_eq!(i, 0);
}

#[test]
fn test_start_tag() {
    let mut p = Parser::new();
    let mut i = 0;
    p.feed_str("<a>");
    while let Some(event) = p.next_event() {
        i += 1;
        assert_eq!(
            event,
            Ok(Event::ElementStart(StartTag {
                name: "a".to_string(),
                ns: None,
                prefix: None,
                attributes: AttrMap::new()
            }))
        );
    }
    assert_eq!(i, 1);
}

#[test]
fn test_end_tag() {
    let mut p = Parser::new();
    let mut i = 0;
    p.feed_str("</a>");
    while let Some(event) = p.next_event() {
        i += 1;
        assert_eq!(
            event,
            Ok(Event::ElementEnd(EndTag {
                name: "a".to_string(),
                ns: None,
                prefix: None
            }))
        );
    }
    assert_eq!(i, 1);
}

#[test]
fn test_self_closing_with_space() {
    let mut p = Parser::new();
    p.feed_str("<register />");
    let v = collect(&mut p);
    assert_eq!(
        v,
        vec![
            Ok(Event::ElementStart(StartTag {
                name: "register".to_string(),
                ns: None,
                prefix: None,
                attributes: AttrMap::new()
            })),
            Ok(Event::ElementEnd(EndTag {
                name: "register".to_string(),
                ns: None,
                prefix: None,
            }))
        ]
    );
}

#[test]
fn test_self_closing_without_space() {
    let mut p = Parser::new();
    p.feed_str("<register/>");
    let v = collect(&mut p);
    assert_eq!(
        v,
        vec![
            Ok(Event::ElementStart(StartTag {
                name: "register".to_string(),
                ns: None,
                prefix: None,
                attributes: AttrMap::new()
            })),
            Ok(Event::ElementEnd(EndTag {
                name: "register".to_string(),
                ns: None,
                prefix: None,
            }))
        ]
    );
}

#[test]
fn test_self_closing_namespace() {
    let mut p = Parser::new();
    p.feed_str("<foo:a xmlns:foo='urn:foo'/>");
    let v = collect(&mut p);
    let mut attr = AttrMap::new();
    attr.insert(
        "foo".to_string(),
        Some("http://www.w3.org/2000/xmlns/".to_string()),
        "urn:foo".to_string(),
    );
    assert_eq!(
        v,
        vec![
            Ok(Event::ElementStart(StartTag {
                name: "a".to_string(),
                ns: Some("urn:foo".to_string()),
                prefix: Some("foo".to_string()),
                attributes: attr,
            })),
            Ok(Event::ElementEnd(EndTag {
                name: "a".to_string(),
                ns: Some("urn:foo".to_string()),
                prefix: Some("foo".to_string()),
            }))
        ]
    );
}

#[test]
fn test_pi() {
    let mut p = Parser::new();
    let mut i = 0;
    p.feed_str("<?xml version='1.0' encoding='utf-8'?>");
    while let Some(event) = p.next_event() {
        i += 1;
        assert_eq!(
            event,
            Ok(Event::PI("xml version='1.0' encoding='utf-8'".to_string()))
        );
    }
    assert_eq!(i, 1);
}

#[test]
fn test_comment() {
    let mut p = Parser::new();
    let mut i = 0;
    p.feed_str("<!--Nothing to see-->");
    while let Some(event) = p.next_event() {
        i += 1;
        assert_eq!(event, Ok(Event::Comment("Nothing to see".to_string())));
    }
    assert_eq!(i, 1);
}

#[test]
fn test_cdata() {
    let mut p = Parser::new();
    let mut i = 0;
    p.feed_str("<![CDATA[<html><head><title>x</title></head><body/></html>]]>");
    while let Some(event) = p.next_event() {
        i += 1;
        assert_eq!(
            event,
            Ok(Event::CDATA(
                "<html><head><title>x</title></head><body/></html>".to_string()
            ))
        );
    }
    assert_eq!(i, 1);
}

#[test]
fn test_characters() {
    let mut p = Parser::new();
    let mut i = 0;
    p.feed_str("<text>Hello World, it&apos;s a nice day</text>");
    while let Some(event) = p.next_event() {
        i += 1;
        if i == 2 {
            assert_eq!(
                event,
                Ok(Event::Characters("Hello World, it's a nice day".to_string()))
            );
        }
    }
    assert_eq!(i, 3);
}

#[test]
fn test_doctype() {
    let mut p = Parser::new();
    let mut i = 0;
    p.feed_str("<!DOCTYPE html>");
    while let Some(_) = p.next_event() {
        i += 1;
    }
    assert_eq!(i, 0);
}
