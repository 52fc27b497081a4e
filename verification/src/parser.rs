//! The streaming tokenizer: a character-at-a-time finite state machine that
//! turns XML text into a stream of [`Event`]s, resolving namespace prefixes
//! against a stack of scopes as tags complete.
//!
//! The whole machine is mirrored by a transition function on a mathematical
//! image of the parser state ([`ParserV`], [`step`]); pulling the next event
//! is the reflexive-transitive closure of that function ([`pump`]).

use crate::attrs::{attr_has_key, AttrMap, AttrV};
use crate::codec::{find_char, unescape_seq};
use crate::strmap::StrMap;
use crate::strutil::{chars_to_string, opt_string_clone, str_to_chars};
use vstd::prelude::*;
use vstd::string::StringExecFns;

verus! {

/// An opening tag: local name, resolved namespace, original prefix, and the
/// attributes with their namespaces resolved.
#[derive(Debug, PartialEq)]
pub struct StartTag {
    /// The tag's local name.
    pub name: String,
    /// The tag's resolved namespace.
    pub ns: Option<String>,
    /// The tag's prefix.
    pub prefix: Option<String>,
    /// The tag's attributes.
    pub attributes: AttrMap,
}

/// A closing tag: local name, resolved namespace, and original prefix.
#[derive(Debug, PartialEq)]
pub struct EndTag {
    /// The tag's local name.
    pub name: String,
    /// The tag's resolved namespace.
    pub ns: Option<String>,
    /// The tag's prefix.
    pub prefix: Option<String>,
}

/// Events returned by the `Parser`.
#[derive(Debug, PartialEq)]
pub enum Event {
    /// Processing information was found.
    PI(String),
    /// A start tag was found.
    ElementStart(StartTag),
    /// An end tag was found.
    ElementEnd(EndTag),
    /// Character data was found.
    Characters(String),
    /// CDATA was found.
    CDATA(String),
    /// A comment was found.
    Comment(String),
}

/// The structure returned when erroneous XML is read.
#[derive(Debug, PartialEq, Clone)]
pub struct ParserError {
    /// The line number at which the error occurred.
    pub line: u32,
    /// The column number at which the error occurred.
    pub col: u32,
    /// A message describing the type of the error.
    pub msg: &'static str,
}

/// The mathematical image of a start tag.
#[verifier::ext_equal]
pub struct StartTagV {
    /// The tag's local name.
    pub name: Seq<char>,
    /// The tag's resolved namespace.
    pub ns: Option<Seq<char>>,
    /// The tag's prefix.
    pub prefix: Option<Seq<char>>,
    /// The tag's attributes, in document order.
    pub attributes: Seq<AttrV>,
}

/// The mathematical image of an end tag.
#[verifier::ext_equal]
pub struct EndTagV {
    /// The tag's local name.
    pub name: Seq<char>,
    /// The tag's resolved namespace.
    pub ns: Option<Seq<char>>,
    /// The tag's prefix.
    pub prefix: Option<Seq<char>>,
}

/// The mathematical image of an event.
#[verifier::ext_equal]
pub enum EventV {
    /// Processing information.
    PI(Seq<char>),
    /// A start tag.
    ElementStart(StartTagV),
    /// An end tag.
    ElementEnd(EndTagV),
    /// Character data.
    Characters(Seq<char>),
    /// CDATA.
    CDATA(Seq<char>),
    /// A comment.
    Comment(Seq<char>),
}

/// The mathematical image of a parser error.
#[verifier::ext_equal]
pub struct ParserErrorV {
    /// The line number at which the error occurred.
    pub line: u32,
    /// The column number at which the error occurred.
    pub col: u32,
    /// A message describing the type of the error.
    pub msg: Seq<char>,
}

impl View for StartTag {
    type V = StartTagV;

    open spec fn view(&self) -> StartTagV {
        StartTagV {
            name: self.name@,
            ns: self.ns.deep_view(),
            prefix: self.prefix.deep_view(),
            attributes: self.attributes@,
        }
    }
}

impl View for EndTag {
    type V = EndTagV;

    open spec fn view(&self) -> EndTagV {
        EndTagV { name: self.name@, ns: self.ns.deep_view(), prefix: self.prefix.deep_view() }
    }
}

impl View for Event {
    type V = EventV;

    open spec fn view(&self) -> EventV {
        match self {
            Event::PI(s) => EventV::PI(s@),
            Event::ElementStart(t) => EventV::ElementStart(t@),
            Event::ElementEnd(t) => EventV::ElementEnd(t@),
            Event::Characters(s) => EventV::Characters(s@),
            Event::CDATA(s) => EventV::CDATA(s@),
            Event::Comment(s) => EventV::Comment(s@),
        }
    }
}

impl View for ParserError {
    type V = ParserErrorV;

    open spec fn view(&self) -> ParserErrorV {
        ParserErrorV { line: self.line, col: self.col, msg: self.msg@ }
    }
}

/// The views of a handler's result.
pub open spec fn pr_view(r: Result<Option<Event>, ParserError>) -> Result<
    Option<EventV>,
    ParserErrorV,
> {
    match r {
        Ok(None) => Ok(None),
        Ok(Some(e)) => Ok(Some(e@)),
        Err(e) => Err(e@),
    }
}

/// The views of a pulled result.
pub open spec fn pull_view(r: Option<Result<Event, ParserError>>) -> Option<
    Result<EventV, ParserErrorV>,
> {
    match r {
        None => None,
        Some(Ok(e)) => Some(Ok(e@)),
        Some(Err(e)) => Some(Err(e@)),
    }
}

/// The tokenizer's states, one per construct being scanned.
#[derive(Clone, Copy, Debug)]
#[allow(missing_docs)]
pub enum State {
    OutsideTag,
    TagOpened,
    InProcessingInstructions,
    InTagName,
    InCloseTagName,
    InTag,
    InAttrName,
    InAttrValue,
    ExpectDelimiter,
    ExpectClose,
    ExpectSpaceOrClose,
    InExclamationMark,
    InCDATAOpening,
    InCDATA,
    InCommentOpening,
    InComment1,
    InComment2,
    InDoctype,
}

/// A raw attribute as collected while scanning a tag: local name, prefix (not
/// yet resolved), and value.
#[derive(Debug)]
pub(crate) struct RawAttr {
    pub(crate) name: String,
    pub(crate) prefix: Option<String>,
    pub(crate) value: String,
}

/// The mathematical image of a raw attribute.
#[verifier::ext_equal]
pub struct RawAttrV {
    /// The attribute's local name.
    pub name: Seq<char>,
    /// The attribute's unresolved prefix.
    pub prefix: Option<Seq<char>>,
    /// The attribute's value.
    pub value: Seq<char>,
}

impl View for RawAttr {
    type V = RawAttrV;

    closed spec fn view(&self) -> RawAttrV {
        RawAttrV { name: self.name@, prefix: self.prefix.deep_view(), value: self.value@ }
    }
}

impl DeepView for RawAttr {
    type V = RawAttrV;

    closed spec fn deep_view(&self) -> RawAttrV {
        self@
    }
}

/// The mathematical image of the whole tokenizer state.
#[verifier::ext_equal]
pub struct ParserV {
    /// The current line, starting at one.
    pub line: u32,
    /// The current column, reset by each newline.
    pub col: u32,
    /// Whether an error has been reported; a failed tokenizer stays silent.
    pub failed: bool,
    /// The characters fed but not yet consumed.
    pub data: Seq<char>,
    /// The text buffered for the construct being scanned.
    pub buf: Seq<char>,
    /// The stack of namespace scopes, innermost last.
    pub namespaces: Seq<Map<Seq<char>, Seq<char>>>,
    /// The raw attributes collected for the tag being scanned.
    pub attributes: Seq<RawAttrV>,
    /// The automaton's state.
    pub st: State,
    /// The pending tag name, split into prefix and local part.
    pub name: Option<(Option<Seq<char>>, Seq<char>)>,
    /// The pending attribute name, split into prefix and local part.
    pub attr: Option<(Option<Seq<char>>, Seq<char>)>,
    /// The delimiter that closes the attribute value being scanned.
    pub delim: Option<char>,
    /// A small counter whose meaning depends on the state: progress through a
    /// literal pattern, a run of `]` or `-`, or a flag.
    pub level: u8,
}

/// The result of one transition: the state after it, and the event or error
/// it produced.
#[verifier::ext_equal]
pub struct TokStep {
    /// The state after the transition.
    pub m: ParserV,
    /// What the transition produced.
    pub out: Result<Option<EventV>, ParserErrorV>,
}

/// Whitespace, as the tokenizer understands it.
pub open spec fn ws_char(c: char) -> bool {
    c == ' ' || c == '\t' || c == '\r' || c == '\n'
}

/// An error at the current position.
pub open spec fn perr(m: ParserV, msg: Seq<char>) -> ParserErrorV {
    ParserErrorV { line: m.line, col: m.col, msg }
}

/// Splits a qualified name on its first `:` into prefix and local part.
pub open spec fn qname_split(q: Seq<char>) -> (Option<Seq<char>>, Seq<char>) {
    match find_char(q, ':') {
        Some(i) => (Some(q.take(i)), q.skip(i + 1)),
        None => (None, q),
    }
}

/// Resolution of a prefix against the scope stack, innermost first: a binding
/// to the empty string means "explicitly no namespace" and stops the search.
pub open spec fn ns_for_prefix(scopes: Seq<Map<Seq<char>, Seq<char>>>, p: Seq<char>) -> Option<
    Seq<char>,
>
    decreases scopes.len(),
{
    if scopes.len() == 0 {
        None
    } else if scopes.last().contains_key(p) {
        if scopes.last()[p].len() == 0 {
            None
        } else {
            Some(scopes.last()[p])
        }
    } else {
        ns_for_prefix(scopes.drop_last(), p)
    }
}

/// Resolution of a tag's own prefix: no prefix falls back to the default
/// namespace; an explicit prefix that resolves to nothing is an error.
pub open spec fn resolve_tag_prefix(
    scopes: Seq<Map<Seq<char>, Seq<char>>>,
    prefix: Option<Seq<char>>,
) -> Result<Option<Seq<char>>, ()> {
    match prefix {
        None => Ok(ns_for_prefix(scopes, Seq::empty())),
        Some(p) => match ns_for_prefix(scopes, p) {
            None => Err(()),
            Some(ns) => Ok(Some(ns)),
        },
    }
}

/// Resolution of the collected raw attributes, in order: an unprefixed
/// attribute has no namespace; a prefixed one resolves against the scopes; a
/// repeated (name, namespace) key is an error. The error carries the message.
pub open spec fn build_attrs(
    raw: Seq<RawAttrV>,
    acc: Seq<AttrV>,
    scopes: Seq<Map<Seq<char>, Seq<char>>>,
) -> Result<Seq<AttrV>, Seq<char>>
    decreases raw.len(),
{
    if raw.len() == 0 {
        Ok(acc)
    } else {
        let a = raw[0];
        let nsr = match a.prefix {
            None => Ok(None),
            Some(p) => match ns_for_prefix(scopes, p) {
                None => Err(()),
                Some(ns) => Ok(Some(ns)),
            },
        };
        match nsr {
            Err(_) => Err("Unbound namespace prefix in attribute name"@),
            Ok(ns) => if attr_has_key(acc, a.name, ns) {
                Err("Duplicate attribute"@)
            } else {
                build_attrs(
                    raw.drop_first(),
                    acc.push(AttrV { name: a.name, ns, value: a.value }),
                    scopes,
                )
            },
        }
    }
}

/// The buffer with its last `n` characters stripped, or empty if shorter.
pub open spec fn strip_last(s: Seq<char>, n: int) -> Seq<char> {
    if s.len() >= n {
        s.take(s.len() - n)
    } else {
        Seq::empty()
    }
}

/// One transition while outside any tag.
pub open spec fn step_outside_tag(m: ParserV, c: char) -> TokStep {
    if c == '<' {
        if m.buf.len() == 0 {
            TokStep { m: ParserV { st: State::TagOpened, ..m }, out: Ok(None) }
        } else {
            let m1 = ParserV { st: State::TagOpened, buf: Seq::empty(), ..m };
            match unescape_seq(m.buf) {
                Ok(t) => TokStep { m: m1, out: Ok(Some(EventV::Characters(t))) },
                Err(_) => TokStep { m: m1, out: Err(perr(m, "Found invalid entity"@)) },
            }
        }
    } else {
        TokStep { m: ParserV { buf: m.buf.push(c), ..m }, out: Ok(None) }
    }
}

/// One transition on the character after `<`.
pub open spec fn step_tag_opened(m: ParserV, c: char) -> TokStep {
    if c == '?' {
        TokStep { m: ParserV { st: State::InProcessingInstructions, ..m }, out: Ok(None) }
    } else if c == '!' {
        TokStep { m: ParserV { st: State::InExclamationMark, ..m }, out: Ok(None) }
    } else if c == '/' {
        TokStep { m: ParserV { st: State::InCloseTagName, ..m }, out: Ok(None) }
    } else {
        TokStep { m: ParserV { st: State::InTagName, buf: m.buf.push(c), ..m }, out: Ok(None) }
    }
}

/// One transition inside a processing instruction.
pub open spec fn step_in_pi(m: ParserV, c: char) -> TokStep {
    if c == '?' {
        TokStep { m: ParserV { level: 1, buf: m.buf.push(c), ..m }, out: Ok(None) }
    } else if c == '>' && m.level == 1 {
        TokStep {
            m: ParserV { level: 0, st: State::OutsideTag, buf: Seq::empty(), ..m },
            out: Ok(Some(EventV::PI(strip_last(m.buf, 1)))),
        }
    } else {
        TokStep { m: ParserV { buf: m.buf.push(c), ..m }, out: Ok(None) }
    }
}

/// One transition inside an opening tag's name.
pub open spec fn step_in_tag_name(m: ParserV, c: char) -> TokStep {
    if c == '/' || c == '>' {
        let (prefix, local) = qname_split(m.buf);
        let m1 = ParserV { buf: Seq::empty(), ..m };
        match resolve_tag_prefix(m.namespaces, prefix) {
            Err(_) => TokStep {
                m: m1,
                out: Err(perr(m, "Unbound namespace prefix in tag name"@)),
            },
            Ok(ns) => {
                let m2 = ParserV {
                    namespaces: m1.namespaces.push(Map::empty()),
                    st: if c == '/' {
                        State::ExpectClose
                    } else {
                        State::OutsideTag
                    },
                    name: if c == '/' {
                        Some((prefix, local))
                    } else {
                        m.name
                    },
                    ..m1
                };
                TokStep {
                    m: m2,
                    out: Ok(
                        Some(
                            EventV::ElementStart(
                                StartTagV { name: local, ns, prefix, attributes: Seq::empty() },
                            ),
                        ),
                    ),
                }
            },
        }
    } else if ws_char(c) {
        TokStep {
            m: ParserV {
                namespaces: m.namespaces.push(Map::empty()),
                name: Some(qname_split(m.buf)),
                buf: Seq::empty(),
                st: State::InTag,
                ..m
            },
            out: Ok(None),
        }
    } else {
        TokStep { m: ParserV { buf: m.buf.push(c), ..m }, out: Ok(None) }
    }
}

/// One transition inside a closing tag's name.
pub open spec fn step_in_close_tag_name(m: ParserV, c: char) -> TokStep {
    if ws_char(c) || c == '>' {
        let (prefix, local) = qname_split(m.buf);
        let m1 = ParserV { buf: Seq::empty(), ..m };
        match resolve_tag_prefix(m.namespaces, prefix) {
            Err(_) => TokStep {
                m: m1,
                out: Err(perr(m, "Unbound namespace prefix in tag name"@)),
            },
            Ok(ns) => TokStep {
                m: ParserV {
                    namespaces: if m1.namespaces.len() > 0 {
                        m1.namespaces.drop_last()
                    } else {
                        m1.namespaces
                    },
                    st: if c == '>' {
                        State::OutsideTag
                    } else {
                        State::ExpectSpaceOrClose
                    },
                    ..m1
                },
                out: Ok(Some(EventV::ElementEnd(EndTagV { name: local, ns, prefix }))),
            },
        }
    } else {
        TokStep { m: ParserV { buf: m.buf.push(c), ..m }, out: Ok(None) }
    }
}

/// One transition while scanning a tag for attributes.
pub open spec fn step_in_tag(m: ParserV, c: char) -> TokStep {
    if c == '/' || c == '>' {
        match m.name {
            None => TokStep { m, out: Ok(None) },  // excluded by well-formedness
            Some((prefix, local)) => {
                let m1 = ParserV { attributes: Seq::empty(), name: None, ..m };
                match resolve_tag_prefix(m.namespaces, prefix) {
                    Err(_) => TokStep {
                        m: m1,
                        out: Err(perr(m, "Unbound namespace prefix in tag name"@)),
                    },
                    Ok(ns) => match build_attrs(m.attributes, Seq::empty(), m.namespaces) {
                        Err(msg) => TokStep { m: m1, out: Err(perr(m, msg)) },
                        Ok(resolved) => {
                            let m2 = ParserV {
                                st: if c == '/' {
                                    State::ExpectClose
                                } else {
                                    State::OutsideTag
                                },
                                name: if c == '/' {
                                    Some((prefix, local))
                                } else {
                                    None
                                },
                                ..m1
                            };
                            TokStep {
                                m: m2,
                                out: Ok(
                                    Some(
                                        EventV::ElementStart(
                                            StartTagV {
                                                name: local,
                                                ns,
                                                prefix,
                                                attributes: resolved,
                                            },
                                        ),
                                    ),
                                ),
                            }
                        },
                    },
                }
            },
        }
    } else if ws_char(c) {
        TokStep { m, out: Ok(None) }
    } else {
        TokStep {
            m: ParserV { buf: m.buf.push(c), st: State::InAttrName, ..m },
            out: Ok(None),
        }
    }
}

/// One transition inside an attribute's name.
pub open spec fn step_in_attr_name(m: ParserV, c: char) -> TokStep {
    if c == '=' {
        TokStep {
            m: ParserV {
                level: 0,
                attr: Some(qname_split(m.buf)),
                buf: Seq::empty(),
                st: State::ExpectDelimiter,
                ..m
            },
            out: Ok(None),
        }
    } else if ws_char(c) {
        TokStep { m: ParserV { level: 1, ..m }, out: Ok(None) }
    } else if m.level == 0 {
        TokStep { m: ParserV { buf: m.buf.push(c), ..m }, out: Ok(None) }
    } else {
        TokStep { m, out: Err(perr(m, "Space occured in attribute name"@)) }
    }
}

/// One transition inside an attribute's value.
pub open spec fn step_in_attr_value(m: ParserV, c: char) -> TokStep {
    if m.delim == Some(c) {
        match m.attr {
            None => TokStep { m, out: Ok(None) },  // excluded by well-formedness
            Some((prefix, local)) => {
                let m1 = ParserV {
                    delim: None,
                    st: State::InTag,
                    attr: None,
                    buf: Seq::empty(),
                    ..m
                };
                match unescape_seq(m.buf) {
                    Err(_) => TokStep { m: m1, out: Err(perr(m, "Found invalid entity"@)) },
                    Ok(value) => {
                        let top = m.namespaces.last();
                        let top2 = if prefix is None && local == "xmlns"@ {
                            top.insert(Seq::empty(), value)
                        } else if prefix matches Some(p) && p == "xmlns"@ {
                            top.insert(local, value)
                        } else {
                            top
                        };
                        let m2 = ParserV {
                            namespaces: m.namespaces.drop_last().push(top2),
                            attributes: m.attributes.push(
                                RawAttrV { name: local, prefix, value },
                            ),
                            ..m1
                        };
                        TokStep { m: m2, out: Ok(None) }
                    },
                }
            },
        }
    } else {
        TokStep { m: ParserV { buf: m.buf.push(c), ..m }, out: Ok(None) }
    }
}

/// One transition while expecting an attribute value's opening delimiter.
pub open spec fn step_expect_delimiter(m: ParserV, c: char) -> TokStep {
    if c == '"' || c == '\'' {
        TokStep { m: ParserV { delim: Some(c), st: State::InAttrValue, ..m }, out: Ok(None) }
    } else if ws_char(c) {
        TokStep { m, out: Ok(None) }
    } else {
        TokStep { m, out: Err(perr(m, "Attribute value not enclosed in ' or \""@)) }
    }
}

/// One transition while expecting the `>` of a self-closing tag.
pub open spec fn step_expect_close(m: ParserV, c: char) -> TokStep {
    if c == '>' {
        match m.name {
            None => TokStep { m, out: Ok(None) },  // excluded by well-formedness
            Some((prefix, local)) => {
                let m1 = ParserV { st: State::OutsideTag, name: None, ..m };
                match resolve_tag_prefix(m.namespaces, prefix) {
                    Err(_) => TokStep {
                        m: m1,
                        out: Err(perr(m, "Unbound namespace prefix in tag name"@)),
                    },
                    Ok(ns) => TokStep {
                        m: ParserV {
                            namespaces: if m1.namespaces.len() > 0 {
                                m1.namespaces.drop_last()
                            } else {
                                m1.namespaces
                            },
                            ..m1
                        },
                        out: Ok(Some(EventV::ElementEnd(EndTagV { name: local, ns, prefix }))),
                    },
                }
            },
        }
    } else {
        TokStep { m, out: Err(perr(m, "Expected '>' to close tag"@)) }
    }
}

/// One transition while expecting whitespace or the `>` of a close tag.
pub open spec fn step_expect_space_or_close(m: ParserV, c: char) -> TokStep {
    if ws_char(c) {
        TokStep { m, out: Ok(None) }
    } else if c == '>' {
        TokStep { m: ParserV { st: State::OutsideTag, ..m }, out: Ok(None) }
    } else {
        TokStep { m, out: Err(perr(m, "Expected '>' to close tag, or LWS"@)) }
    }
}

/// One transition on the character after `<!`.
pub open spec fn step_in_exclamation_mark(m: ParserV, c: char) -> TokStep {
    if c == '-' {
        TokStep { m: ParserV { st: State::InCommentOpening, ..m }, out: Ok(None) }
    } else if c == '[' {
        TokStep { m: ParserV { st: State::InCDATAOpening, ..m }, out: Ok(None) }
    } else if c == 'D' {
        TokStep { m: ParserV { st: State::InDoctype, ..m }, out: Ok(None) }
    } else {
        TokStep { m, out: Err(perr(m, "Malformed XML"@)) }
    }
}

/// The fixed pattern `CDATA[` that must follow `<![`.
pub open spec fn cdata_pattern_char(i: int) -> char {
    if i == 0 {
        'C'
    } else if i == 1 {
        'D'
    } else if i == 2 {
        'A'
    } else if i == 3 {
        'T'
    } else if i == 4 {
        'A'
    } else {
        '['
    }
}

/// One transition while matching the CDATA opening sequence.
pub open spec fn step_in_cdata_opening(m: ParserV, c: char) -> TokStep {
    if c == cdata_pattern_char(m.level as int) {
        if m.level + 1 == 6 {
            TokStep { m: ParserV { level: 0, st: State::InCDATA, ..m }, out: Ok(None) }
        } else {
            TokStep { m: ParserV { level: (m.level + 1) as u8, ..m }, out: Ok(None) }
        }
    } else {
        TokStep { m, out: Err(perr(m, "Invalid CDATA opening sequence"@)) }
    }
}

/// One transition inside a CDATA section. The counter follows the current run
/// of `]` characters, capped at the two that matter.
pub open spec fn step_in_cdata(m: ParserV, c: char) -> TokStep {
    if c == ']' {
        TokStep {
            m: ParserV {
                buf: m.buf.push(c),
                level: if m.level < 2 {
                    (m.level + 1) as u8
                } else {
                    2
                },
                ..m
            },
            out: Ok(None),
        }
    } else if c == '>' && m.level >= 2 {
        TokStep {
            m: ParserV { st: State::OutsideTag, level: 0, buf: Seq::empty(), ..m },
            out: Ok(Some(EventV::CDATA(strip_last(m.buf, 2)))),
        }
    } else {
        TokStep { m: ParserV { buf: m.buf.push(c), level: 0, ..m }, out: Ok(None) }
    }
}

/// One transition on the character after `<!-`.
pub open spec fn step_in_comment_opening(m: ParserV, c: char) -> TokStep {
    if c == '-' {
        TokStep { m: ParserV { st: State::InComment1, level: 0, ..m }, out: Ok(None) }
    } else {
        TokStep { m, out: Err(perr(m, "Expected 2nd '-' to start comment"@)) }
    }
}

/// One transition inside a comment, counting consecutive dashes.
pub open spec fn step_in_comment1(m: ParserV, c: char) -> TokStep {
    let lvl: u8 = if c == '-' {
        (m.level + 1) as u8
    } else {
        0
    };
    if lvl == 2 {
        TokStep {
            m: ParserV { level: 0, st: State::InComment2, buf: m.buf.push(c), ..m },
            out: Ok(None),
        }
    } else {
        TokStep { m: ParserV { level: lvl, buf: m.buf.push(c), ..m }, out: Ok(None) }
    }
}

/// One transition after two consecutive dashes inside a comment.
pub open spec fn step_in_comment2(m: ParserV, c: char) -> TokStep {
    if c != '>' {
        TokStep { m, out: Err(perr(m, "No more than one adjacent '-' allowed in a comment"@)) }
    } else {
        TokStep {
            m: ParserV { st: State::OutsideTag, buf: Seq::empty(), ..m },
            out: Ok(Some(EventV::Comment(strip_last(m.buf, 2)))),
        }
    }
}

/// The fixed pattern `OCTYPE` that must follow `<!D`.
pub open spec fn doctype_pattern_char(i: int) -> char {
    if i == 0 {
        'O'
    } else if i == 1 {
        'C'
    } else if i == 2 {
        'T'
    } else if i == 3 {
        'Y'
    } else if i == 4 {
        'P'
    } else {
        'E'
    }
}

/// One transition inside a DOCTYPE, which is skipped without an event.
pub open spec fn step_in_doctype(m: ParserV, c: char) -> TokStep {
    if m.level <= 5 {
        if c == doctype_pattern_char(m.level as int) {
            TokStep { m: ParserV { level: (m.level + 1) as u8, ..m }, out: Ok(None) }
        } else {
            TokStep { m, out: Err(perr(m, "Invalid DOCTYPE"@)) }
        }
    } else if m.level == 6 {
        if ws_char(c) {
            TokStep { m: ParserV { level: 7, ..m }, out: Ok(None) }
        } else {
            TokStep { m, out: Err(perr(m, "Invalid DOCTYPE"@)) }
        }
    } else if c == '>' {
        TokStep { m: ParserV { level: 0, st: State::OutsideTag, ..m }, out: Ok(None) }
    } else {
        TokStep { m, out: Ok(None) }
    }
}

/// One transition of the automaton, on an already-consumed character.
pub open spec fn step(m: ParserV, c: char) -> TokStep {
    match m.st {
        State::OutsideTag => step_outside_tag(m, c),
        State::TagOpened => step_tag_opened(m, c),
        State::InProcessingInstructions => step_in_pi(m, c),
        State::InTagName => step_in_tag_name(m, c),
        State::InCloseTagName => step_in_close_tag_name(m, c),
        State::InTag => step_in_tag(m, c),
        State::InAttrName => step_in_attr_name(m, c),
        State::InAttrValue => step_in_attr_value(m, c),
        State::ExpectDelimiter => step_expect_delimiter(m, c),
        State::ExpectClose => step_expect_close(m, c),
        State::ExpectSpaceOrClose => step_expect_space_or_close(m, c),
        State::InExclamationMark => step_in_exclamation_mark(m, c),
        State::InCDATAOpening => step_in_cdata_opening(m, c),
        State::InCDATA => step_in_cdata(m, c),
        State::InCommentOpening => step_in_comment_opening(m, c),
        State::InComment1 => step_in_comment1(m, c),
        State::InComment2 => step_in_comment2(m, c),
        State::InDoctype => step_in_doctype(m, c),
    }
}

/// A counter one further, stopping at the largest value rather than wrapping.
pub open spec fn sat_inc(x: u32) -> u32 {
    if x == u32::MAX {
        x
    } else {
        (x + 1) as u32
    }
}

/// Consuming one character from the front of the queue: position bookkeeping
/// happens here, before the automaton looks at the character.
pub open spec fn tick(m: ParserV, c: char) -> ParserV {
    if c == '\n' {
        ParserV { data: m.data.drop_first(), line: sat_inc(m.line), col: 0, ..m }
    } else {
        ParserV { data: m.data.drop_first(), col: sat_inc(m.col), ..m }
    }
}

/// Pulling the next event: characters are consumed until the automaton
/// produces an event or an error, or the queue runs dry. An error marks the
/// tokenizer as failed for good.
pub open spec fn pump(m: ParserV) -> (ParserV, Option<Result<EventV, ParserErrorV>>)
    decreases m.data.len(),
{
    if m.data.len() == 0 {
        (m, None)
    } else {
        let c = m.data[0];
        let s = step(tick(m, c), c);
        match s.out {
            Ok(None) => pump(s.m),
            Ok(Some(ev)) => (s.m, Some(Ok(ev))),
            Err(e) => (ParserV { failed: true, ..s.m }, Some(Err(e))),
        }
    }
}

/// The state a fresh tokenizer starts in: position one-zero, an empty queue,
/// and the two fixed namespace bindings in the bottom scope.
pub open spec fn initial_parser() -> ParserV {
    ParserV {
        line: 1,
        col: 0,
        failed: false,
        data: Seq::empty(),
        buf: Seq::empty(),
        namespaces: seq![
            Map::empty().insert("xml"@, "http://www.w3.org/XML/1998/namespace"@).insert(
                "xmlns"@,
                "http://www.w3.org/2000/xmlns/"@,
            ),
        ],
        attributes: Seq::empty(),
        st: State::OutsideTag,
        name: None,
        attr: None,
        delim: None,
        level: 0,
    }
}

/// A transition changes nothing but the automaton's own bookkeeping: the
/// input queue is untouched.
pub proof fn lemma_step_data(m: ParserV, c: char)
    ensures
        step(m, c).m.data == m.data,
{
}

/// Pulling consumes input: producing an event or error takes at least one
/// character, and a pull that produces nothing ends with an empty queue.
pub proof fn lemma_pump_consumes(m: ParserV)
    ensures
        pump(m).1 is Some ==> pump(m).0.data.len() < m.data.len(),
        pump(m).1 is None ==> pump(m).0.data.len() == 0,
    decreases m.data.len(),
{
    if m.data.len() > 0 {
        let c = m.data[0];
        let m1 = tick(m, c);
        let s = step(m1, c);
        lemma_step_data(m1, c);
        match s.out {
            Ok(None) => {
                lemma_pump_consumes(s.m);
            },
            Ok(Some(_)) => {},
            Err(_) => {},
        }
    }
}

/// The internal conditions each reachable tokenizer state meets; they rule
/// out the failures (index out of range, a missing pending name) that the
/// transitions would otherwise not exclude.
pub open spec fn wf_parser(m: ParserV) -> bool {
    &&& (m.st matches State::InTag ==> m.name is Some && m.namespaces.len() >= 1)
    &&& (m.st matches State::InAttrName ==> m.name is Some && m.namespaces.len() >= 1)
    &&& (m.st matches State::ExpectDelimiter ==> m.name is Some && m.attr is Some
        && m.namespaces.len() >= 1)
    &&& (m.st matches State::InAttrValue ==> m.name is Some && m.attr is Some && m.delim is Some
        && m.namespaces.len() >= 1)
    &&& (m.st matches State::ExpectClose ==> m.name is Some)
    &&& (m.st matches State::InCDATA ==> m.level <= 2 && m.buf.len() >= m.level)
    &&& (m.st matches State::InComment1 ==> m.level <= 1 && m.buf.len() >= m.level)
    &&& (m.st matches State::InComment2 ==> m.buf.len() >= 2)
    &&& (m.st matches State::InDoctype ==> m.level <= 7)
    &&& (!(m.st matches State::InDoctype) ==> m.level <= 5)
}

/// A streaming XML tokenizer.
///
/// Text is fed with [`Parser::feed_str`]; completed events and errors are
/// pulled one at a time with [`Parser::next_event`]. Feeding and pulling can
/// be interleaved freely.
pub struct Parser {
    line: u32,
    col: u32,
    has_error: bool,
    data: Vec<char>,
    pos: usize,
    buf: Vec<char>,
    namespaces: Vec<StrMap>,
    attributes: Vec<RawAttr>,
    st: State,
    name: Option<(Option<String>, String)>,
    attr: Option<(Option<String>, String)>,
    delim: Option<char>,
    level: u8,
}

/// The view of a pending qualified name.
pub open spec fn qname_view(q: Option<(Option<String>, String)>) -> Option<
    (Option<Seq<char>>, Seq<char>),
> {
    match q {
        None => None,
        Some((p, l)) => Some((p.deep_view(), l@)),
    }
}

impl View for Parser {
    type V = ParserV;

    closed spec fn view(&self) -> ParserV {
        ParserV {
            line: self.line,
            col: self.col,
            failed: self.has_error,
            data: self.data@.skip(self.pos as int),
            buf: self.buf@,
            namespaces: self.namespaces.deep_view(),
            attributes: self.attributes.deep_view(),
            st: self.st,
            name: qname_view(self.name),
            attr: qname_view(self.attr),
            delim: self.delim,
            level: self.level,
        }
    }
}

impl Parser {
    /// The queue position is inside the backing vector.
    closed spec fn pos_ok(&self) -> bool {
        self.pos <= self.data@.len()
    }

    /// Whether every internal condition of the tokenizer holds. A failed
    /// tokenizer never parses again, so its automaton state no longer
    /// matters.
    pub closed spec fn wf(&self) -> bool {
        self.pos_ok() && (self@.failed || wf_parser(self@))
    }

    /// Returns a new `Parser`.
    pub fn new() -> (p: Parser)
        ensures
            p.wf(),
            p@ == initial_parser(),
    {
        let mut ns = StrMap::new();
        ns.insert(
            String::from_str("xml"),
            String::from_str("http://www.w3.org/XML/1998/namespace"),
        );
        ns.insert(
            String::from_str("xmlns"),
            String::from_str("http://www.w3.org/2000/xmlns/"),
        );
        let mut namespaces: Vec<StrMap> = Vec::new();
        namespaces.push(ns);
        let p = Parser {
            line: 1,
            col: 0,
            has_error: false,
            data: Vec::new(),
            pos: 0,
            buf: Vec::new(),
            namespaces,
            attributes: Vec::new(),
            st: State::OutsideTag,
            name: None,
            attr: None,
            delim: None,
            level: 0,
        };
        proof {
            assert(p@.data =~= initial_parser().data);
            assert(p@.namespaces =~= initial_parser().namespaces);
            assert(p@.attributes =~= initial_parser().attributes);
            assert(p@ =~~= initial_parser());
        }
        p
    }

    /// Feeds a string slice to the parser's input queue.
    pub fn feed_str(&mut self, data: &str)
        requires
            old(self).wf(),
        ensures
            final(self).wf(),
            final(self)@ == (ParserV { data: old(self)@.data + data@, ..old(self)@ }),
    {
        let chars = str_to_chars(data);
        let ghost n0 = self.data@.len();
        let mut i: usize = 0;
        while i < chars.len()
            invariant
                old(self).wf(),
                i <= chars@.len(),
                chars@ == data@,
                self.data@ == old(self).data@ + chars@.take(i as int),
                self.pos == old(self).pos,
                self.line == old(self).line,
                self.col == old(self).col,
                self.has_error == old(self).has_error,
                self.buf == old(self).buf,
                self.namespaces == old(self).namespaces,
                self.attributes == old(self).attributes,
                self.st == old(self).st,
                self.name == old(self).name,
                self.attr == old(self).attr,
                self.delim == old(self).delim,
                self.level == old(self).level,
            decreases chars@.len() - i,
        {
            self.data.push(chars[i]);
            proof {
                assert((old(self).data@ + chars@.take(i as int)).push(chars@[i as int]) =~= old(
                    self,
                ).data@ + chars@.take(i as int + 1));
            }
            i += 1;
        }
        proof {
            assert(chars@.take(chars@.len() as int) =~= chars@);
            assert(self.data@.skip(self.pos as int) =~= old(self)@.data + data@);
            assert(self@ =~~= ParserV { data: old(self)@.data + data@, ..old(self)@ });
        }
    }
}

/// Whitespace, as the tokenizer understands it.
fn is_whitespace(c: char) -> (r: bool)
    ensures
        r == ws_char(c),
{
    c == ' ' || c == '\t' || c == '\r' || c == '\n'
}

/// Splits a qualified name on its first `:` into prefix and local part.
#[verifier::loop_isolation(false)]
fn parse_qname(q: Vec<char>) -> (r: (Option<String>, String))
    ensures
        (r.0.deep_view(), r.1@) == qname_split(q@),
{
    let mut i: usize = 0;
    while i < q.len()
        invariant
            0 <= i <= q@.len(),
            forall|j: int| 0 <= j < i ==> q@[j] != ':',
        decreases q@.len() - i,
    {
        if q[i] == ':' {
            proof {
                crate::codec::lemma_find_char_at(q@, ':', i as int);
                assert(q@.subrange(0, i as int) =~= q@.take(i as int));
                assert(q@.subrange(i as int + 1, q@.len() as int) =~= q@.skip(i as int + 1));
            }
            let prefix = chars_to_string(&crate::strutil::subvec(&q, 0, i));
            let local = chars_to_string(&crate::strutil::subvec(&q, i + 1, q.len()));
            return (Some(prefix), local);
        }
        i += 1;
    }
    proof {
        crate::codec::lemma_find_char_none(q@, ':');
    }
    let local = chars_to_string(&q);
    (None, local)
}

/// The views of a resolution result.
pub open spec fn resolve_view(r: Result<Option<String>, ()>) -> Result<Option<Seq<char>>, ()> {
    match r {
        Ok(ns) => Ok(ns.deep_view()),
        Err(_) => Err(()),
    }
}

impl Parser {
    /// The namespace currently bound to a prefix, searching the scope stack
    /// from the innermost scope outward.
    #[verifier::loop_isolation(false)]
    fn namespace_for_prefix(&self, prefix: &String) -> (r: Option<String>)
        ensures
            r.deep_view() == ns_for_prefix(self@.namespaces, prefix@),
    {
        let ghost full = self@.namespaces;
        let mut i: usize = self.namespaces.len();
        proof {
            assert(full.take(i as int) =~= full);
        }
        while i > 0
            invariant
                0 <= i <= self.namespaces@.len(),
                ns_for_prefix(full, prefix@) == ns_for_prefix(full.take(i as int), prefix@),
            decreases i,
        {
            i -= 1;
            let ghost upto = full.take(i as int + 1);
            proof {
                assert(upto.last() == full[i as int]);
                assert(full[i as int] == self.namespaces@[i as int]@);
                assert(upto.drop_last() =~= full.take(i as int));
            }
            match self.namespaces[i].get(prefix) {
                Some(v) => {
                    if v.as_str().is_empty() {
                        return None;
                    }
                    return Some(v);
                },
                None => {},
            }
        }
        proof {
            assert(full.take(0) =~= Seq::<Map<Seq<char>, Seq<char>>>::empty());
        }
        None
    }

    /// Resolution of a tag's own prefix: an unprefixed name takes the default
    /// namespace; an explicitly prefixed one must resolve.
    fn resolve_prefix_exec(&self, prefix: &Option<String>) -> (r: Result<Option<String>, ()>)
        ensures
            resolve_view(r) == resolve_tag_prefix(self@.namespaces, prefix.deep_view()),
    {
        match prefix {
            None => {
                let empty = String::new();
                Ok(self.namespace_for_prefix(&empty))
            },
            Some(p) => match self.namespace_for_prefix(p) {
                None => Err(()),
                Some(ns) => Ok(Some(ns)),
            },
        }
    }

    /// An error at the current position.
    fn error_now(&self, msg: &'static str) -> (e: ParserError)
        ensures
            e@ == perr(self@, msg@),
    {
        let e = ParserError { line: self.line, col: self.col, msg };
        proof {
            assert(e@ =~= perr(self@, msg@));
        }
        e
    }

    fn outside_tag(&mut self, c: char) -> (r: Result<Option<Event>, ParserError>)
        requires
            old(self).pos_ok(),
            wf_parser(old(self)@),
            old(self)@.st matches State::OutsideTag,
        ensures
            final(self).pos_ok(),
            r is Ok ==> wf_parser(final(self)@),
            step(old(self)@, c) == (TokStep { m: final(self)@, out: pr_view(r) }),
    {
        let ghost m0 = self@;
        if c == '<' {
            if self.buf.len() == 0 {
                self.st = State::TagOpened;
                proof {
                    assert(step(m0, c) =~~= (TokStep { m: self@, out: pr_view(Ok(None)) }));
                }
                Ok(None)
            } else {
                self.st = State::TagOpened;
                let mut b: Vec<char> = Vec::new();
                core::mem::swap(&mut b, &mut self.buf);
                proof {
                    assert(self@.buf =~= Seq::<char>::empty());
                }
                let s = chars_to_string(&b);
                match crate::codec::unescape(s.as_str()) {
                    Ok(unescaped) => {
                        let ev = Event::Characters(unescaped);
                        proof {
                            assert(step(m0, c) =~~= (TokStep {
                                m: self@,
                                out: pr_view(Ok(Some(ev))),
                            }));
                        }
                        Ok(Some(ev))
                    },
                    Err(_) => {
                        let e = self.error_now("Found invalid entity");
                        proof {
                            assert(step(m0, c) =~~= (TokStep { m: self@, out: pr_view(Err(e)) }));
                        }
                        Err(e)
                    },
                }
            }
        } else {
            self.buf.push(c);
            proof {
                assert(step(m0, c) =~~= (TokStep { m: self@, out: pr_view(Ok(None)) }));
            }
            Ok(None)
        }
    }

    fn tag_opened(&mut self, c: char) -> (r: Result<Option<Event>, ParserError>)
        requires
            old(self).pos_ok(),
            wf_parser(old(self)@),
            old(self)@.st matches State::TagOpened,
        ensures
            final(self).pos_ok(),
            r is Ok ==> wf_parser(final(self)@),
            step(old(self)@, c) == (TokStep { m: final(self)@, out: pr_view(r) }),
    {
        let ghost m0 = self@;
        if c == '?' {
            self.st = State::InProcessingInstructions;
        } else if c == '!' {
            self.st = State::InExclamationMark;
        } else if c == '/' {
            self.st = State::InCloseTagName;
        } else {
            self.buf.push(c);
            self.st = State::InTagName;
        }
        proof {
            assert(step(m0, c) =~~= (TokStep { m: self@, out: pr_view(Ok(None)) }));
        }
        Ok(None)
    }

    fn in_processing_instructions(&mut self, c: char) -> (r: Result<Option<Event>, ParserError>)
        requires
            old(self).pos_ok(),
            wf_parser(old(self)@),
            old(self)@.st matches State::InProcessingInstructions,
        ensures
            final(self).pos_ok(),
            r is Ok ==> wf_parser(final(self)@),
            step(old(self)@, c) == (TokStep { m: final(self)@, out: pr_view(r) }),
    {
        let ghost m0 = self@;
        if c == '?' {
            self.level = 1;
            self.buf.push(c);
            proof {
                assert(step(m0, c) =~~= (TokStep { m: self@, out: pr_view(Ok(None)) }));
            }
            Ok(None)
        } else if c == '>' && self.level == 1 {
            self.level = 0;
            self.st = State::OutsideTag;
            let _ = self.buf.pop();
            let mut b: Vec<char> = Vec::new();
            core::mem::swap(&mut b, &mut self.buf);
            let ev = Event::PI(chars_to_string(&b));
            proof {
                if m0.buf.len() > 0 {
                    assert(b@ =~= strip_last(m0.buf, 1));
                } else {
                    assert(b@ =~= strip_last(m0.buf, 1));
                }
                assert(self@.buf =~= Seq::<char>::empty());
                assert(step(m0, c) =~~= (TokStep { m: self@, out: pr_view(Ok(Some(ev))) }));
            }
            Ok(Some(ev))
        } else {
            self.buf.push(c);
            proof {
                assert(step(m0, c) =~~= (TokStep { m: self@, out: pr_view(Ok(None)) }));
            }
            Ok(None)
        }
    }

    fn in_attr_name(&mut self, c: char) -> (r: Result<Option<Event>, ParserError>)
        requires
            old(self).pos_ok(),
            wf_parser(old(self)@),
            old(self)@.st matches State::InAttrName,
        ensures
            final(self).pos_ok(),
            r is Ok ==> wf_parser(final(self)@),
            step(old(self)@, c) == (TokStep { m: final(self)@, out: pr_view(r) }),
    {
        let ghost m0 = self@;
        if c == '=' {
            self.level = 0;
            let mut b: Vec<char> = Vec::new();
            core::mem::swap(&mut b, &mut self.buf);
            self.attr = Some(parse_qname(b));
            self.st = State::ExpectDelimiter;
            proof {
                assert(self@.buf =~= Seq::<char>::empty());
                assert(step(m0, c) =~~= (TokStep { m: self@, out: pr_view(Ok(None)) }));
            }
            Ok(None)
        } else if is_whitespace(c) {
            self.level = 1;
            proof {
                assert(step(m0, c) =~~= (TokStep { m: self@, out: pr_view(Ok(None)) }));
            }
            Ok(None)
        } else if self.level == 0 {
            self.buf.push(c);
            proof {
                assert(step(m0, c) =~~= (TokStep { m: self@, out: pr_view(Ok(None)) }));
            }
            Ok(None)
        } else {
            let e = self.error_now("Space occured in attribute name");
            proof {
                assert(step(m0, c) =~~= (TokStep { m: self@, out: pr_view(Err(e)) }));
            }
            Err(e)
        }
    }

    fn expect_delimiter(&mut self, c: char) -> (r: Result<Option<Event>, ParserError>)
        requires
            old(self).pos_ok(),
            wf_parser(old(self)@),
            old(self)@.st matches State::ExpectDelimiter,
        ensures
            final(self).pos_ok(),
            r is Ok ==> wf_parser(final(self)@),
            step(old(self)@, c) == (TokStep { m: final(self)@, out: pr_view(r) }),
    {
        let ghost m0 = self@;
        if c == '"' || c == '\'' {
            self.delim = Some(c);
            self.st = State::InAttrValue;
            proof {
                assert(step(m0, c) =~~= (TokStep { m: self@, out: pr_view(Ok(None)) }));
            }
            Ok(None)
        } else if is_whitespace(c) {
            proof {
                assert(step(m0, c) =~~= (TokStep { m: self@, out: pr_view(Ok(None)) }));
            }
            Ok(None)
        } else {
            let e = self.error_now("Attribute value not enclosed in ' or \"");
            proof {
                assert(step(m0, c) =~~= (TokStep { m: self@, out: pr_view(Err(e)) }));
            }
            Err(e)
        }
    }

    fn expect_space_or_close(&mut self, c: char) -> (r: Result<Option<Event>, ParserError>)
        requires
            old(self).pos_ok(),
            wf_parser(old(self)@),
            old(self)@.st matches State::ExpectSpaceOrClose,
        ensures
            final(self).pos_ok(),
            r is Ok ==> wf_parser(final(self)@),
            step(old(self)@, c) == (TokStep { m: final(self)@, out: pr_view(r) }),
    {
        let ghost m0 = self@;
        if is_whitespace(c) {
            proof {
                assert(step(m0, c) =~~= (TokStep { m: self@, out: pr_view(Ok(None)) }));
            }
            Ok(None)
        } else if c == '>' {
            self.st = State::OutsideTag;
            proof {
                assert(step(m0, c) =~~= (TokStep { m: self@, out: pr_view(Ok(None)) }));
            }
            Ok(None)
        } else {
            let e = self.error_now("Expected '>' to close tag, or LWS");
            proof {
                assert(step(m0, c) =~~= (TokStep { m: self@, out: pr_view(Err(e)) }));
            }
            Err(e)
        }
    }

    fn in_exclamation_mark(&mut self, c: char) -> (r: Result<Option<Event>, ParserError>)
        requires
            old(self).pos_ok(),
            wf_parser(old(self)@),
            old(self)@.st matches State::InExclamationMark,
        ensures
            final(self).pos_ok(),
            r is Ok ==> wf_parser(final(self)@),
            step(old(self)@, c) == (TokStep { m: final(self)@, out: pr_view(r) }),
    {
        let ghost m0 = self@;
        if c == '-' {
            self.st = State::InCommentOpening;
        } else if c == '[' {
            self.st = State::InCDATAOpening;
        } else if c == 'D' {
            self.st = State::InDoctype;
        } else {
            let e = self.error_now("Malformed XML");
            proof {
                assert(step(m0, c) =~~= (TokStep { m: self@, out: pr_view(Err(e)) }));
            }
            return Err(e);
        }
        proof {
            assert(step(m0, c) =~~= (TokStep { m: self@, out: pr_view(Ok(None)) }));
        }
        Ok(None)
    }

    fn in_cdata_opening(&mut self, c: char) -> (r: Result<Option<Event>, ParserError>)
        requires
            old(self).pos_ok(),
            wf_parser(old(self)@),
            old(self)@.st matches State::InCDATAOpening,
        ensures
            final(self).pos_ok(),
            r is Ok ==> wf_parser(final(self)@),
            step(old(self)@, c) == (TokStep { m: final(self)@, out: pr_view(r) }),
    {
        let ghost m0 = self@;
        let expected: char = if self.level == 0 {
            'C'
        } else if self.level == 1 {
            'D'
        } else if self.level == 2 {
            'A'
        } else if self.level == 3 {
            'T'
        } else if self.level == 4 {
            'A'
        } else {
            '['
        };
        if c == expected {
            if self.level + 1 == 6 {
                self.level = 0;
                self.st = State::InCDATA;
            } else {
                self.level = self.level + 1;
            }
            proof {
                assert(step(m0, c) =~~= (TokStep { m: self@, out: pr_view(Ok(None)) }));
            }
            Ok(None)
        } else {
            let e = self.error_now("Invalid CDATA opening sequence");
            proof {
                assert(step(m0, c) =~~= (TokStep { m: self@, out: pr_view(Err(e)) }));
            }
            Err(e)
        }
    }

    fn in_cdata(&mut self, c: char) -> (r: Result<Option<Event>, ParserError>)
        requires
            old(self).pos_ok(),
            wf_parser(old(self)@),
            old(self)@.st matches State::InCDATA,
        ensures
            final(self).pos_ok(),
            r is Ok ==> wf_parser(final(self)@),
            step(old(self)@, c) == (TokStep { m: final(self)@, out: pr_view(r) }),
    {
        let ghost m0 = self@;
        if c == ']' {
            self.buf.push(c);
            if self.level < 2 {
                self.level = self.level + 1;
            } else {
                self.level = 2;
            }
            proof {
                assert(step(m0, c) =~~= (TokStep { m: self@, out: pr_view(Ok(None)) }));
            }
            Ok(None)
        } else if c == '>' && self.level >= 2 {
            self.st = State::OutsideTag;
            self.level = 0;
            let mut b: Vec<char> = Vec::new();
            core::mem::swap(&mut b, &mut self.buf);
            let n = b.len();
            b.truncate(n - 2);
            let ev = Event::CDATA(chars_to_string(&b));
            proof {
                assert(b@ =~= strip_last(m0.buf, 2));
                assert(self@.buf =~= Seq::<char>::empty());
                assert(step(m0, c) =~~= (TokStep { m: self@, out: pr_view(Ok(Some(ev))) }));
            }
            Ok(Some(ev))
        } else {
            self.buf.push(c);
            self.level = 0;
            proof {
                assert(step(m0, c) =~~= (TokStep { m: self@, out: pr_view(Ok(None)) }));
            }
            Ok(None)
        }
    }

    fn in_comment_opening(&mut self, c: char) -> (r: Result<Option<Event>, ParserError>)
        requires
            old(self).pos_ok(),
            wf_parser(old(self)@),
            old(self)@.st matches State::InCommentOpening,
        ensures
            final(self).pos_ok(),
            r is Ok ==> wf_parser(final(self)@),
            step(old(self)@, c) == (TokStep { m: final(self)@, out: pr_view(r) }),
    {
        let ghost m0 = self@;
        if c == '-' {
            self.st = State::InComment1;
            self.level = 0;
            proof {
                assert(step(m0, c) =~~= (TokStep { m: self@, out: pr_view(Ok(None)) }));
            }
            Ok(None)
        } else {
            let e = self.error_now("Expected 2nd '-' to start comment");
            proof {
                assert(step(m0, c) =~~= (TokStep { m: self@, out: pr_view(Err(e)) }));
            }
            Err(e)
        }
    }

    fn in_comment1(&mut self, c: char) -> (r: Result<Option<Event>, ParserError>)
        requires
            old(self).pos_ok(),
            wf_parser(old(self)@),
            old(self)@.st matches State::InComment1,
        ensures
            final(self).pos_ok(),
            r is Ok ==> wf_parser(final(self)@),
            step(old(self)@, c) == (TokStep { m: final(self)@, out: pr_view(r) }),
    {
        let ghost m0 = self@;
        if c == '-' {
            self.level = self.level + 1;
        } else {
            self.level = 0;
        }
        if self.level == 2 {
            self.level = 0;
            self.st = State::InComment2;
        }
        self.buf.push(c);
        proof {
            assert(step(m0, c) =~~= (TokStep { m: self@, out: pr_view(Ok(None)) }));
        }
        Ok(None)
    }

    fn in_comment2(&mut self, c: char) -> (r: Result<Option<Event>, ParserError>)
        requires
            old(self).pos_ok(),
            wf_parser(old(self)@),
            old(self)@.st matches State::InComment2,
        ensures
            final(self).pos_ok(),
            r is Ok ==> wf_parser(final(self)@),
            step(old(self)@, c) == (TokStep { m: final(self)@, out: pr_view(r) }),
    {
        let ghost m0 = self@;
        if c != '>' {
            let e = self.error_now("No more than one adjacent '-' allowed in a comment");
            proof {
                assert(step(m0, c) =~~= (TokStep { m: self@, out: pr_view(Err(e)) }));
            }
            Err(e)
        } else {
            self.st = State::OutsideTag;
            let mut b: Vec<char> = Vec::new();
            core::mem::swap(&mut b, &mut self.buf);
            let n = b.len();
            b.truncate(n - 2);
            let ev = Event::Comment(chars_to_string(&b));
            proof {
                assert(b@ =~= strip_last(m0.buf, 2));
                assert(self@.buf =~= Seq::<char>::empty());
                assert(step(m0, c) =~~= (TokStep { m: self@, out: pr_view(Ok(Some(ev))) }));
            }
            Ok(Some(ev))
        }
    }

    fn in_doctype(&mut self, c: char) -> (r: Result<Option<Event>, ParserError>)
        requires
            old(self).pos_ok(),
            wf_parser(old(self)@),
            old(self)@.st matches State::InDoctype,
        ensures
            final(self).pos_ok(),
            r is Ok ==> wf_parser(final(self)@),
            step(old(self)@, c) == (TokStep { m: final(self)@, out: pr_view(r) }),
    {
        let ghost m0 = self@;
        if self.level <= 5 {
            let expected: char = if self.level == 0 {
                'O'
            } else if self.level == 1 {
                'C'
            } else if self.level == 2 {
                'T'
            } else if self.level == 3 {
                'Y'
            } else if self.level == 4 {
                'P'
            } else {
                'E'
            };
            if c == expected {
                self.level = self.level + 1;
                proof {
                    assert(step(m0, c) =~~= (TokStep { m: self@, out: pr_view(Ok(None)) }));
                }
                Ok(None)
            } else {
                let e = self.error_now("Invalid DOCTYPE");
                proof {
                    assert(step(m0, c) =~~= (TokStep { m: self@, out: pr_view(Err(e)) }));
                }
                Err(e)
            }
        } else if self.level == 6 {
            if is_whitespace(c) {
                self.level = 7;
                proof {
                    assert(step(m0, c) =~~= (TokStep { m: self@, out: pr_view(Ok(None)) }));
                }
                Ok(None)
            } else {
                let e = self.error_now("Invalid DOCTYPE");
                proof {
                    assert(step(m0, c) =~~= (TokStep { m: self@, out: pr_view(Err(e)) }));
                }
                Err(e)
            }
        } else if c == '>' {
            self.level = 0;
            self.st = State::OutsideTag;
            proof {
                assert(step(m0, c) =~~= (TokStep { m: self@, out: pr_view(Ok(None)) }));
            }
            Ok(None)
        } else {
            proof {
                assert(step(m0, c) =~~= (TokStep { m: self@, out: pr_view(Ok(None)) }));
            }
            Ok(None)
        }
    }

    fn in_tag_name(&mut self, c: char) -> (r: Result<Option<Event>, ParserError>)
        requires
            old(self).pos_ok(),
            wf_parser(old(self)@),
            old(self)@.st matches State::InTagName,
        ensures
            final(self).pos_ok(),
            r is Ok ==> wf_parser(final(self)@),
            step(old(self)@, c) == (TokStep { m: final(self)@, out: pr_view(r) }),
    {
        let ghost m0 = self@;
        if c == '/' || c == '>' {
            let mut b: Vec<char> = Vec::new();
            core::mem::swap(&mut b, &mut self.buf);
            proof {
                assert(self@.buf =~= Seq::<char>::empty());
            }
            let (prefix, local) = parse_qname(b);
            match self.resolve_prefix_exec(&prefix) {
                Err(_) => {
                    let e = self.error_now("Unbound namespace prefix in tag name");
                    proof {
                        assert(step(m0, c) =~~= (TokStep { m: self@, out: pr_view(Err(e)) }));
                    }
                    Err(e)
                },
                Ok(ns) => {
                    self.namespaces.push(StrMap::new());
                    if c == '/' {
                        self.name = Some((opt_string_clone(&prefix), local.clone()));
                        self.st = State::ExpectClose;
                    } else {
                        self.st = State::OutsideTag;
                    }
                    let ev = Event::ElementStart(
                        StartTag { name: local, ns, prefix, attributes: AttrMap::new() },
                    );
                    proof {
                        assert(self@.namespaces =~= m0.namespaces.push(
                            Map::<Seq<char>, Seq<char>>::empty(),
                        ));
                        assert(ev@ =~~= step(m0, c).out->Ok_0->Some_0);
                        assert(step(m0, c) =~~= (TokStep { m: self@, out: pr_view(Ok(Some(ev))) }));
                    }
                    Ok(Some(ev))
                },
            }
        } else if is_whitespace(c) {
            self.namespaces.push(StrMap::new());
            let mut b: Vec<char> = Vec::new();
            core::mem::swap(&mut b, &mut self.buf);
            self.name = Some(parse_qname(b));
            self.st = State::InTag;
            proof {
                assert(self@.buf =~= Seq::<char>::empty());
                assert(self@.namespaces =~= m0.namespaces.push(
                    Map::<Seq<char>, Seq<char>>::empty(),
                ));
                assert(step(m0, c) =~~= (TokStep { m: self@, out: pr_view(Ok(None)) }));
            }
            Ok(None)
        } else {
            self.buf.push(c);
            proof {
                assert(step(m0, c) =~~= (TokStep { m: self@, out: pr_view(Ok(None)) }));
            }
            Ok(None)
        }
    }

    fn in_close_tag_name(&mut self, c: char) -> (r: Result<Option<Event>, ParserError>)
        requires
            old(self).pos_ok(),
            wf_parser(old(self)@),
            old(self)@.st matches State::InCloseTagName,
        ensures
            final(self).pos_ok(),
            r is Ok ==> wf_parser(final(self)@),
            step(old(self)@, c) == (TokStep { m: final(self)@, out: pr_view(r) }),
    {
        let ghost m0 = self@;
        if is_whitespace(c) || c == '>' {
            let mut b: Vec<char> = Vec::new();
            core::mem::swap(&mut b, &mut self.buf);
            proof {
                assert(self@.buf =~= Seq::<char>::empty());
            }
            let (prefix, local) = parse_qname(b);
            match self.resolve_prefix_exec(&prefix) {
                Err(_) => {
                    let e = self.error_now("Unbound namespace prefix in tag name");
                    proof {
                        assert(step(m0, c) =~~= (TokStep { m: self@, out: pr_view(Err(e)) }));
                    }
                    Err(e)
                },
                Ok(ns) => {
                    let _ = self.namespaces.pop();
                    self.st = if c == '>' {
                        State::OutsideTag
                    } else {
                        State::ExpectSpaceOrClose
                    };
                    let ev = Event::ElementEnd(EndTag { name: local, ns, prefix });
                    proof {
                        if m0.namespaces.len() > 0 {
                            assert(self@.namespaces =~= m0.namespaces.drop_last());
                        } else {
                            assert(self@.namespaces =~= m0.namespaces);
                        }
                        assert(ev@ =~~= step(m0, c).out->Ok_0->Some_0);
                        assert(step(m0, c) =~~= (TokStep { m: self@, out: pr_view(Ok(Some(ev))) }));
                    }
                    Ok(Some(ev))
                },
            }
        } else {
            self.buf.push(c);
            proof {
                assert(step(m0, c) =~~= (TokStep { m: self@, out: pr_view(Ok(None)) }));
            }
            Ok(None)
        }
    }

    #[verifier::loop_isolation(false)]
    fn in_tag(&mut self, c: char) -> (r: Result<Option<Event>, ParserError>)
        requires
            old(self).pos_ok(),
            wf_parser(old(self)@),
            old(self)@.st matches State::InTag,
        ensures
            final(self).pos_ok(),
            r is Ok ==> wf_parser(final(self)@),
            step(old(self)@, c) == (TokStep { m: final(self)@, out: pr_view(r) }),
    {
        let ghost m0 = self@;
        if c == '/' || c == '>' {
            let mut raw: Vec<RawAttr> = Vec::new();
            core::mem::swap(&mut raw, &mut self.attributes);
            let mut nm: Option<(Option<String>, String)> = None;
            core::mem::swap(&mut nm, &mut self.name);
            proof {
                assert(self@.attributes =~= Seq::<RawAttrV>::empty());
                assert(raw.deep_view() == m0.attributes);
            }
            let (prefix, local) = match nm {
                Some(q) => q,
                None => unreached(),
            };
            let ns = match self.resolve_prefix_exec(&prefix) {
                Ok(ns) => ns,
                Err(_) => {
                    let e = self.error_now("Unbound namespace prefix in tag name");
                    proof {
                        assert(step(m0, c) =~~= (TokStep { m: self@, out: pr_view(Err(e)) }));
                    }
                    return Err(e);
                },
            };
            let ghost scopes = m0.namespaces;
            let mut attributes = AttrMap::new();
            let mut i: usize = 0;
            proof {
                assert(raw.deep_view().skip(0) =~= raw.deep_view());
            }
            while i < raw.len()
                invariant
                    0 <= i <= raw@.len(),
                    build_attrs(raw.deep_view(), Seq::empty(), scopes) == build_attrs(
                        raw.deep_view().skip(i as int),
                        attributes@,
                        scopes,
                    ),
                decreases raw@.len() - i,
            {
                let ghost rest = raw.deep_view().skip(i as int);
                proof {
                    assert(rest[0] == raw.deep_view()[i as int]);
                    assert(rest.drop_first() =~= raw.deep_view().skip(i as int + 1));
                }
                let a_name = raw[i].name.clone();
                let a_value = raw[i].value.clone();
                let ans: Option<String> = match &raw[i].prefix {
                    None => None,
                    Some(p) => match self.namespace_for_prefix(p) {
                        None => {
                            let e = self.error_now("Unbound namespace prefix in attribute name");
                            proof {
                                assert(step(m0, c) =~~= (TokStep {
                                    m: self@,
                                    out: pr_view(Err(e)),
                                }));
                            }
                            return Err(e);
                        },
                        Some(x) => Some(x),
                    },
                };
                match attributes.insert(a_name, ans, a_value) {
                    Some(_) => {
                        let e = self.error_now("Duplicate attribute");
                        proof {
                            assert(step(m0, c) =~~= (TokStep { m: self@, out: pr_view(Err(e)) }));
                        }
                        return Err(e);
                    },
                    None => {},
                }
                i += 1;
            }
            proof {
                assert(raw.deep_view().skip(raw@.len() as int) =~= Seq::<RawAttrV>::empty());
            }
            if c == '/' {
                self.name = Some((opt_string_clone(&prefix), local.clone()));
                self.st = State::ExpectClose;
            } else {
                self.st = State::OutsideTag;
            }
            let ev = Event::ElementStart(StartTag { name: local, ns, prefix, attributes });
            proof {
                assert(ev@ =~~= step(m0, c).out->Ok_0->Some_0);
                assert(step(m0, c) =~~= (TokStep { m: self@, out: pr_view(Ok(Some(ev))) }));
            }
            Ok(Some(ev))
        } else if is_whitespace(c) {
            proof {
                assert(step(m0, c) =~~= (TokStep { m: self@, out: pr_view(Ok(None)) }));
            }
            Ok(None)
        } else {
            self.buf.push(c);
            self.st = State::InAttrName;
            proof {
                assert(step(m0, c) =~~= (TokStep { m: self@, out: pr_view(Ok(None)) }));
            }
            Ok(None)
        }
    }

    fn in_attr_value(&mut self, c: char) -> (r: Result<Option<Event>, ParserError>)
        requires
            old(self).pos_ok(),
            wf_parser(old(self)@),
            old(self)@.st matches State::InAttrValue,
        ensures
            final(self).pos_ok(),
            r is Ok ==> wf_parser(final(self)@),
            step(old(self)@, c) == (TokStep { m: final(self)@, out: pr_view(r) }),
    {
        let ghost m0 = self@;
        let d = match self.delim {
            Some(d) => d,
            None => unreached(),
        };
        if c == d {
            self.delim = None;
            self.st = State::InTag;
            let mut at: Option<(Option<String>, String)> = None;
            core::mem::swap(&mut at, &mut self.attr);
            let (prefix, local) = match at {
                Some(q) => q,
                None => unreached(),
            };
            let mut b: Vec<char> = Vec::new();
            core::mem::swap(&mut b, &mut self.buf);
            proof {
                assert(self@.buf =~= Seq::<char>::empty());
            }
            let s = chars_to_string(&b);
            let value = match crate::codec::unescape(s.as_str()) {
                Ok(v) => v,
                Err(_) => {
                    let e = self.error_now("Found invalid entity");
                    proof {
                        assert(step(m0, c) =~~= (TokStep { m: self@, out: pr_view(Err(e)) }));
                    }
                    return Err(e);
                },
            };
            let is_default = prefix.is_none() && crate::strutil::str_eq(local.as_str(), "xmlns");
            let is_prefix_decl = match &prefix {
                Some(p) => crate::strutil::str_eq(p.as_str(), "xmlns"),
                None => false,
            };
            let mut top = match self.namespaces.pop() {
                Some(t) => t,
                None => unreached(),
            };
            if is_default {
                top.insert(String::new(), value.clone());
            } else if is_prefix_decl {
                top.insert(local.clone(), value.clone());
            }
            self.namespaces.push(top);
            self.attributes.push(RawAttr { name: local, prefix, value });
            proof {
                assert(self@.namespaces =~= step(m0, c).m.namespaces);
                assert(self@.attributes =~= step(m0, c).m.attributes);
                assert(step(m0, c) =~~= (TokStep { m: self@, out: pr_view(Ok(None)) }));
            }
            Ok(None)
        } else {
            self.buf.push(c);
            proof {
                assert(step(m0, c) =~~= (TokStep { m: self@, out: pr_view(Ok(None)) }));
            }
            Ok(None)
        }
    }

    fn expect_close(&mut self, c: char) -> (r: Result<Option<Event>, ParserError>)
        requires
            old(self).pos_ok(),
            wf_parser(old(self)@),
            old(self)@.st matches State::ExpectClose,
        ensures
            final(self).pos_ok(),
            r is Ok ==> wf_parser(final(self)@),
            step(old(self)@, c) == (TokStep { m: final(self)@, out: pr_view(r) }),
    {
        let ghost m0 = self@;
        if c == '>' {
            self.st = State::OutsideTag;
            let mut nm: Option<(Option<String>, String)> = None;
            core::mem::swap(&mut nm, &mut self.name);
            let (prefix, local) = match nm {
                Some(q) => q,
                None => unreached(),
            };
            match self.resolve_prefix_exec(&prefix) {
                Err(_) => {
                    let e = self.error_now("Unbound namespace prefix in tag name");
                    proof {
                        assert(step(m0, c) =~~= (TokStep { m: self@, out: pr_view(Err(e)) }));
                    }
                    Err(e)
                },
                Ok(ns) => {
                    let _ = self.namespaces.pop();
                    let ev = Event::ElementEnd(EndTag { name: local, ns, prefix });
                    proof {
                        if m0.namespaces.len() > 0 {
                            assert(self@.namespaces =~= m0.namespaces.drop_last());
                        } else {
                            assert(self@.namespaces =~= m0.namespaces);
                        }
                        assert(ev@ =~~= step(m0, c).out->Ok_0->Some_0);
                        assert(step(m0, c) =~~= (TokStep { m: self@, out: pr_view(Ok(Some(ev))) }));
                    }
                    Ok(Some(ev))
                },
            }
        } else {
            let e = self.error_now("Expected '>' to close tag");
            proof {
                assert(step(m0, c) =~~= (TokStep { m: self@, out: pr_view(Err(e)) }));
            }
            Err(e)
        }
    }

    /// One transition of the automaton on an already-consumed character.
    fn parse_character(&mut self, c: char) -> (r: Result<Option<Event>, ParserError>)
        requires
            old(self).pos_ok(),
            wf_parser(old(self)@),
        ensures
            final(self).pos_ok(),
            r is Ok ==> wf_parser(final(self)@),
            step(old(self)@, c) == (TokStep { m: final(self)@, out: pr_view(r) }),
    {
        match self.st {
            State::OutsideTag => self.outside_tag(c),
            State::TagOpened => self.tag_opened(c),
            State::InProcessingInstructions => self.in_processing_instructions(c),
            State::InTagName => self.in_tag_name(c),
            State::InCloseTagName => self.in_close_tag_name(c),
            State::InTag => self.in_tag(c),
            State::InAttrName => self.in_attr_name(c),
            State::InAttrValue => self.in_attr_value(c),
            State::ExpectDelimiter => self.expect_delimiter(c),
            State::ExpectClose => self.expect_close(c),
            State::ExpectSpaceOrClose => self.expect_space_or_close(c),
            State::InExclamationMark => self.in_exclamation_mark(c),
            State::InCDATAOpening => self.in_cdata_opening(c),
            State::InCDATA => self.in_cdata(c),
            State::InCommentOpening => self.in_comment_opening(c),
            State::InComment1 => self.in_comment1(c),
            State::InComment2 => self.in_comment2(c),
            State::InDoctype => self.in_doctype(c),
        }
    }

    /// Pulls the next event, consuming queued characters until the automaton
    /// yields one, an error occurs, or the queue runs dry. Once an error has
    /// been reported the stream has ended for good.
    #[verifier::loop_isolation(false)]
    #[verifier::rlimit(50)]
    pub fn next_event(&mut self) -> (r: Option<Result<Event, ParserError>>)
        requires
            old(self).wf(),
        ensures
            final(self).wf(),
            old(self)@.failed ==> final(self)@ == old(self)@ && r is None,
            !old(self)@.failed ==> final(self)@ == pump(old(self)@).0 && pull_view(r) == pump(
                old(self)@,
            ).1,
            final(self)@.failed == (old(self)@.failed || r matches Some(Err(_))),
    {
        if self.has_error {
            return None;
        }
        loop
            invariant
                self.pos_ok(),
                wf_parser(self@),
                !self@.failed,
                !old(self)@.failed,
                pump(old(self)@) == pump(self@),
            decreases self@.data.len(),
        {
            if self.pos == self.data.len() {
                proof {
                    assert(self@.data =~= Seq::<char>::empty());
                }
                return None;
            }
            let c = self.data[self.pos];
            proof {
                assert(self@.data[0] == c);
            }
            let ghost m_before = self@;
            self.pos += 1;
            if c == '\n' {
                if self.line < u32::MAX {
                    self.line = self.line + 1;
                }
                self.col = 0;
            } else {
                if self.col < u32::MAX {
                    self.col = self.col + 1;
                }
            }
            proof {
                assert(self@.data =~= m_before.data.drop_first());
                assert(self@ =~~= tick(m_before, c));
            }
            match self.parse_character(c) {
                Ok(None) => {},
                Ok(Some(ev)) => {
                    return Some(Ok(ev));
                },
                Err(e) => {
                    self.has_error = true;
                    proof {
                        assert(self@ =~~= (ParserV {
                            failed: true,
                            ..step(tick(m_before, c), c).m
                        }));
                    }
                    return Some(Err(e));
                },
            }
        }
    }
}

} // verus!
