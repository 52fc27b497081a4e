use xml::codec::{escape, unescape};

#[test]
fn base_test_escape() {
    let esc = escape("&<>'\"");
    assert_eq!(esc, "&amp;&lt;&gt;&apos;&quot;".to_string());
}

#[test]
fn base_test_unescape() {
    let unesc = unescape("&amp;lt;&lt;&gt;&apos;&quot;");
    assert_eq!(unesc, Ok("&lt;<>'\"".to_string()));
}

#[test]
fn lib_test_escape() {
    let esc = escape("&<>'\"");
    assert_eq!(esc, "&amp;&lt;&gt;&apos;&quot;");
}

#[test]
fn lib_test_unescape() {
    let unesc = unescape("&amp;lt;&lt;&gt;&apos;&quot;&#x201c;&#x201d;&#38;&#34;");
    assert_eq!(
        unesc.as_ref().map(|x| &x[..]),
        Ok("&lt;<>'\"\u{201c}\u{201d}&\"")
    );
}

#[test]
fn lib_test_unescape_invalid() {
    let unesc = unescape("&amp;&nbsp;");
    assert_eq!(unesc.as_ref().map_err(|x| &x[..]), Err("&nbsp;"));
}

#[test]
fn test_test_escape() {
    let esc = escape("&<>'\"");
    assert_eq!(esc, "&amp;&lt;&gt;&apos;&quot;".to_string());
}

#[test]
fn test_test_unescape() {
    let unesc = unescape("&amp;lt;&lt;&gt;&apos;&quot;&#x201c;&#x201d;&#38;&#34;");
    assert_eq!(unesc, Ok("&lt;<>'\"\u{201c}\u{201d}&\"".to_string()));
}

#[test]
fn test_test_unescape_invalid() {
    let unesc = unescape("&amp;&nbsp;");
    assert_eq!(unesc, Err("&nbsp;".to_string()));
}

#[test]
fn test_escape() {
    let esc = escape("&<>'\"");
    assert_eq!(esc, "&amp;&lt;&gt;&apos;&quot;".to_string());
}

#[test]
fn test_unescape() {
    let unesc = unescape("&amp;lt;&lt;&gt;&apos;&quot;&#x201c;&#x201d;&#38;&#34;");
    assert_eq!(unesc, Ok("&lt;<>'\"\u{201c}\u{201d}&\"".to_string()));
}

#[test]
fn test_unescape_invalid() {
    let unesc = unescape("&amp;&nbsp;");
    assert_eq!(unesc, Err("&nbsp;".to_string()));
}

#[test]
fn escape_plain_text_is_kept() {
    assert_eq!(escape("hello world"), "hello world".to_string());
}

#[test]
fn unescape_decimal_and_hex_references() {
    assert_eq!(unescape("&#65;&#x41;&#x6a;"), Ok("AAj".to_string()));
    assert_eq!(unescape("&#x2014;"), Ok("\u{2014}".to_string()));
    // only a lowercase x introduces a hexadecimal reference
    assert_eq!(unescape("&#X4A;"), Err("&#X4A;".to_string()));
}

#[test]
fn unescape_accepts_plus_sign_as_the_integer_parser_does() {
    assert_eq!(unescape("&#+65;"), Ok("A".to_string()));
}

#[test]
fn unescape_rejects_surrogates_and_out_of_range_points() {
    assert_eq!(unescape("&#xD800;"), Err("&#xD800;".to_string()));
    assert_eq!(unescape("&#x110000;"), Err("&#x110000;".to_string()));
    assert_eq!(unescape("&#4294967296;"), Err("&#4294967296;".to_string()));
}

#[test]
fn unescape_rejects_unterminated_and_empty_entities() {
    assert_eq!(unescape("abc&amp"), Err("&amp".to_string()));
    assert_eq!(unescape("&;x"), Err("&;".to_string()));
    assert_eq!(unescape("&#;"), Err("&#;".to_string()));
    assert_eq!(unescape("&#x;"), Err("&#x;".to_string()));
}

#[test]
fn unescape_keeps_text_after_an_entity() {
    assert_eq!(unescape("a&lt;b&gt;c"), Ok("a<b>c".to_string()));
}

#[test]
fn unescape_escape_round_trip_on_reserved_strings() {
    for s in ["", "&", "<>", "&<>'\"", "\"\"''&&&<<<>>>"] {
        assert_eq!(unescape(&escape(s)), Ok(s.to_string()));
    }
}
