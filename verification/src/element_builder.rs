//! The tree builder: a pull-based consumer of the tokenizer's event stream
//! that maintains a stack of in-progress elements and yields each completed
//! root, validating tag nesting as it goes.

use crate::attrs::AttrV;
use crate::element::{elem_view, ElemV, Element, Xml, XmlV};
use crate::parser::{EndTag, Event, EventV, ParserError, ParserErrorV, StartTag, StartTagV};
use crate::strmap::StrMap;
use crate::strutil::{opt_string_clone, opt_string_eq, str_eq};
use vstd::prelude::*;
use vstd::string::StringExecFns;

verus! {

broadcast use vstd::seq::axiom_seq_index_decreases;

/// The structure returned for errors encountered while building an
/// `Element`.
#[derive(Debug, PartialEq)]
pub enum BuilderError {
    /// An error encountered by the `Parser`.
    Parser(ParserError),
    /// Elements were improperly nested, e.g. `<a><b></a></b>`.
    ImproperNesting,
    /// No element was found.
    NoElement,
}

/// The mathematical image of a builder error.
#[verifier::ext_equal]
pub enum BuilderErrorV {
    /// An error encountered by the tokenizer.
    Parser(ParserErrorV),
    /// Elements were improperly nested.
    ImproperNesting,
    /// No element was found.
    NoElement,
}

impl View for BuilderError {
    type V = BuilderErrorV;

    open spec fn view(&self) -> BuilderErrorV {
        match self {
            BuilderError::Parser(e) => BuilderErrorV::Parser(e@),
            BuilderError::ImproperNesting => BuilderErrorV::ImproperNesting,
            BuilderError::NoElement => BuilderErrorV::NoElement,
        }
    }
}

/// The mathematical image of the builder's state.
#[verifier::ext_equal]
pub struct BuilderV {
    /// The in-progress elements, outermost first.
    pub stack: Seq<ElemV>,
    /// The default namespace in effect at each open element.
    pub default_ns: Seq<Option<Seq<char>>>,
    /// The prefix bound to each namespace seen so far.
    pub prefixes: Map<Seq<char>, Seq<char>>,
}

/// An element builder, building [`Element`]s from [`Event`]s as produced by
/// the parser.
pub struct ElementBuilder {
    stack: Vec<Element>,
    default_ns: Vec<Option<String>>,
    prefixes: StrMap,
}

impl View for ElementBuilder {
    type V = BuilderV;

    closed spec fn view(&self) -> BuilderV {
        BuilderV {
            stack: self.stack.deep_view(),
            default_ns: self.default_ns.deep_view(),
            prefixes: self.prefixes@,
        }
    }
}

/// The state a fresh builder starts in: empty stacks and the two fixed
/// namespace bindings in the prefix table.
pub open spec fn initial_builder() -> BuilderV {
    BuilderV {
        stack: Seq::empty(),
        default_ns: Seq::empty(),
        prefixes: Map::empty().insert("http://www.w3.org/XML/1998/namespace"@, "xml"@).insert(
            "http://www.w3.org/2000/xmlns/"@,
            "xmlns"@,
        ),
    }
}

/// A node appended as a child of the innermost open element, or dropped when
/// no element is open.
pub open spec fn append_node(stack: Seq<ElemV>, node: XmlV) -> Seq<ElemV> {
    if stack.len() > 0 {
        let top = stack.last();
        stack.update(stack.len() - 1, ElemV { children: top.children.push(node), ..top })
    } else {
        stack
    }
}

/// The effect a start tag's attributes have, in document order: a bare
/// `xmlns` replaces the innermost default namespace (the empty value meaning
/// none); an attribute in the `xmlns` namespace binds its value, a namespace,
/// to its name, the declared prefix.
pub open spec fn scan_attrs(
    attrs: Seq<AttrV>,
    dns: Seq<Option<Seq<char>>>,
    prefixes: Map<Seq<char>, Seq<char>>,
) -> (Seq<Option<Seq<char>>>, Map<Seq<char>, Seq<char>>)
    decreases attrs.len(),
{
    if attrs.len() == 0 {
        (dns, prefixes)
    } else {
        let a = attrs[0];
        if a.ns is None && a.name == "xmlns"@ {
            let dns1 = if dns.len() > 0 {
                dns.drop_last()
            } else {
                dns
            };
            let dns2 = dns1.push(
                if a.value.len() == 0 {
                    None
                } else {
                    Some(a.value)
                },
            );
            scan_attrs(attrs.drop_first(), dns2, prefixes)
        } else if a.ns == Some("http://www.w3.org/2000/xmlns/"@) {
            scan_attrs(attrs.drop_first(), dns, prefixes.insert(a.value, a.name))
        } else {
            scan_attrs(attrs.drop_first(), dns, prefixes)
        }
    }
}

/// One step of the builder on one event: the state after it, and the
/// completed root or error it yields, if any.
pub open spec fn bstep(m: BuilderV, e: EventV) -> (BuilderV, Option<Result<ElemV, BuilderErrorV>>) {
    match e {
        EventV::PI(s) => (BuilderV { stack: append_node(m.stack, XmlV::PINode(s)), ..m }, None),
        EventV::Characters(s) => (
            BuilderV { stack: append_node(m.stack, XmlV::CharacterNode(s)), ..m },
            None,
        ),
        EventV::CDATA(s) => (
            BuilderV { stack: append_node(m.stack, XmlV::CDATANode(s)), ..m },
            None,
        ),
        EventV::Comment(s) => (
            BuilderV { stack: append_node(m.stack, XmlV::CommentNode(s)), ..m },
            None,
        ),
        EventV::ElementStart(t) => {
            let dns0 = if m.default_ns.len() > 0 {
                m.default_ns.push(m.default_ns.last())
            } else {
                m.default_ns
            };
            let (dns1, eprefixes) = scan_attrs(t.attributes, dns0, m.prefixes);
            let edns = if dns1.len() > 0 {
                dns1.last()
            } else {
                None
            };
            let elem = ElemV {
                name: t.name,
                ns: t.ns,
                attributes: t.attributes,
                children: Seq::empty(),
                prefixes: eprefixes,
                default_ns: edns,
            };
            (BuilderV { stack: m.stack.push(elem), default_ns: dns1, ..m }, None)
        },
        EventV::ElementEnd(t) => {
            if m.stack.len() == 0 {
                (m, Some(Err(BuilderErrorV::ImproperNesting)))
            } else {
                let elem = m.stack.last();
                let stack1 = m.stack.drop_last();
                let dns1 = if m.default_ns.len() > 0 {
                    m.default_ns.drop_last()
                } else {
                    m.default_ns
                };
                let m1 = BuilderV { stack: stack1, default_ns: dns1, ..m };
                if elem.name != t.name || elem.ns != t.ns {
                    (m1, Some(Err(BuilderErrorV::ImproperNesting)))
                } else if stack1.len() > 0 {
                    (
                        BuilderV {
                            stack: append_node(stack1, XmlV::ElementNode(elem)),
                            ..m1
                        },
                        None,
                    )
                } else {
                    (m1, Some(Ok(elem)))
                }
            }
        },
    }
}

/// The views of what the builder hands back.
pub open spec fn b_out_view(r: Option<Result<Element, BuilderError>>) -> Option<
    Result<ElemV, BuilderErrorV>,
> {
    match r {
        None => None,
        Some(Ok(e)) => Some(Ok(e@)),
        Some(Err(e)) => Some(Err(e@)),
    }
}

impl ElementBuilder {
    /// Returns a new `ElementBuilder`.
    pub fn new() -> (b: ElementBuilder)
        ensures
            b@ == initial_builder(),
    {
        let mut prefixes = StrMap::new();
        prefixes.insert(
            String::from_str("http://www.w3.org/XML/1998/namespace"),
            String::from_str("xml"),
        );
        prefixes.insert(
            String::from_str("http://www.w3.org/2000/xmlns/"),
            String::from_str("xmlns"),
        );
        let b = ElementBuilder { stack: Vec::new(), default_ns: Vec::new(), prefixes };
        proof {
            assert(b@.stack =~= initial_builder().stack);
            assert(b@.default_ns =~= initial_builder().default_ns);
            assert(b@ =~~= initial_builder());
        }
        b
    }

    /// Bind a prefix to a namespace.
    pub fn define_prefix(&mut self, prefix: String, ns: String)
        ensures
            final(self)@ == (BuilderV {
                prefixes: old(self)@.prefixes.insert(ns@, prefix@),
                ..old(self)@
            }),
    {
        self.prefixes.insert(ns, prefix);
        proof {
            assert(self@ =~~= (BuilderV { prefixes: self@.prefixes, ..old(self)@ }));
        }
    }

    /// Set the default namespace.
    pub fn set_default_ns(&mut self, ns: String)
        ensures
            final(self)@ == (BuilderV {
                default_ns: seq![Some(ns@)],
                ..old(self)@
            }),
    {
        let mut dns: Vec<Option<String>> = Vec::new();
        dns.push(Some(ns));
        self.default_ns = dns;
        proof {
            assert(self@.default_ns =~= seq![Some(ns@)]);
            assert(self@ =~~= (BuilderV { default_ns: self@.default_ns, ..old(self)@ }));
        }
    }

    /// Appends a node to the innermost open element, dropping it when none
    /// is open.
    fn push_child(&mut self, node: Xml)
        ensures
            final(self)@ == (BuilderV {
                stack: append_node(old(self)@.stack, node@),
                ..old(self)@
            }),
    {
        let ghost m0 = self@;
        if self.stack.len() > 0 {
            let mut top = match self.stack.pop() {
                Some(t) => t,
                None => unreached(),
            };
            let ghost topv = elem_view(top);
            let ghost n0 = top.children.len() as int;
            top.children.push(node);
            proof {
                crate::element::lemma_children_view(top.children, top.children.len() as int);
                crate::element::lemma_children_view(old(self).stack@.last().children, n0);
                assert(elem_view(top).children =~= topv.children.push(node@));
                assert(elem_view(top) =~~= (ElemV {
                    children: topv.children.push(node@),
                    ..topv
                }));
            }
            self.stack.push(top);
            proof {
                assert(self@.stack =~= append_node(m0.stack, node@));
                assert(self@ =~~= (BuilderV { stack: append_node(m0.stack, node@), ..m0 }));
            }
        } else {
            proof {
                assert(self@ =~~= (BuilderV { stack: append_node(m0.stack, node@), ..m0 }));
            }
        }
    }

    /// Let the builder process an `Event` to ultimately build an `Element`.
    ///
    /// While no root element has been finished `None` is returned.
    /// Once sufficient data has been received an `Element` is returned as
    /// `Some(Ok(element))`; on improper nesting or a forwarded parser error,
    /// `Some(Err(error))`.
    #[verifier::loop_isolation(false)]
    #[verifier::rlimit(50)]
    pub fn handle_event(&mut self, e: Result<Event, ParserError>) -> (r: Option<
        Result<Element, BuilderError>,
    >)
        ensures
            match e {
                Err(pe) => final(self)@ == old(self)@ && b_out_view(r) == Some(
                    Err::<ElemV, BuilderErrorV>(BuilderErrorV::Parser(pe@)),
                ),
                Ok(ev) => (final(self)@, b_out_view(r)) == bstep(old(self)@, ev@),
            },
    {
        let ghost m0 = self@;
        let ev = match e {
            Ok(o) => o,
            Err(pe) => {
                return Some(Err(BuilderError::Parser(pe)));
            },
        };
        match ev {
            Event::PI(cont) => {
                self.push_child(Xml::PINode(cont));
                None
            },
            Event::Characters(chars) => {
                self.push_child(Xml::CharacterNode(chars));
                None
            },
            Event::CDATA(chars) => {
                self.push_child(Xml::CDATANode(chars));
                None
            },
            Event::Comment(cont) => {
                self.push_child(Xml::CommentNode(cont));
                None
            },
            Event::ElementStart(t) => {
                let ghost tv = t@;
                let StartTag { name, ns, prefix: _, attributes } = t;
                // duplicate the innermost default namespace
                if self.default_ns.len() > 0 {
                    let last = opt_string_clone(&self.default_ns[self.default_ns.len() - 1]);
                    self.default_ns.push(last);
                    proof {
                        assert(self@.default_ns =~= m0.default_ns.push(m0.default_ns.last()));
                    }
                }
                let ghost dns0 = self@.default_ns;
                let mut eprefixes = self.prefixes.dup();
                let ghost av = attributes@;
                let mut i: usize = 0;
                proof {
                    assert(av.skip(0) =~= av);
                }
                while i < attributes.len()
                    invariant
                        0 <= i <= av.len(),
                        scan_attrs(av, dns0, m0.prefixes) == scan_attrs(
                            av.skip(i as int),
                            self@.default_ns,
                            eprefixes@,
                        ),
                        self@.stack == m0.stack,
                        self@.prefixes == m0.prefixes,
                    decreases av.len() - i,
                {
                    let ghost rest = av.skip(i as int);
                    let ghost dnsc = self@.default_ns;
                    let ghost pc = eprefixes@;
                    proof {
                        assert(rest[0] == av[i as int]);
                        assert(rest.drop_first() =~= av.skip(i as int + 1));
                    }
                    let a = attributes.entry_at(i);
                    let is_default_decl = a.ns.is_none() && str_eq(a.name.as_str(), "xmlns");
                    if is_default_decl {
                        if self.default_ns.len() > 0 {
                            let _ = self.default_ns.pop();
                            proof {
                                assert(self@.default_ns =~= dnsc.drop_last());
                            }
                        }
                        let ghost dns_mid = self@.default_ns;
                        proof {
                            assert(dns_mid == (if dnsc.len() > 0 {
                                dnsc.drop_last()
                            } else {
                                dnsc
                            }));
                        }
                        if a.value.as_str().is_empty() {
                            self.default_ns.push(None);
                            proof {
                                assert(self@.default_ns =~= dns_mid.push(None::<Seq<char>>));
                            }
                        } else {
                            self.default_ns.push(Some(a.value.clone()));
                            proof {
                                assert(self@.default_ns =~= dns_mid.push(Some(rest[0].value)));
                            }
                        }
                        proof {
                            assert(scan_attrs(rest, dnsc, pc) == scan_attrs(
                                rest.drop_first(),
                                self@.default_ns,
                                eprefixes@,
                            ));
                        }
                    } else {
                        let is_prefix_decl = match &a.ns {
                            Some(ans) => str_eq(
                                ans.as_str(),
                                "http://www.w3.org/2000/xmlns/",
                            ),
                            None => false,
                        };
                        if is_prefix_decl {
                            eprefixes.insert(a.value.clone(), a.name.clone());
                            proof {
                                assert(eprefixes@ == pc.insert(rest[0].value, rest[0].name));
                                assert(scan_attrs(rest, dnsc, pc) == scan_attrs(
                                    rest.drop_first(),
                                    self@.default_ns,
                                    eprefixes@,
                                ));
                            }
                        } else {
                            proof {
                                assert(scan_attrs(rest, dnsc, pc) == scan_attrs(
                                    rest.drop_first(),
                                    self@.default_ns,
                                    eprefixes@,
                                ));
                            }
                        }
                    }
                    i += 1;
                }
                proof {
                    assert(av.skip(av.len() as int) =~= Seq::<AttrV>::empty());
                }
                let edns: Option<String> = if self.default_ns.len() > 0 {
                    opt_string_clone(&self.default_ns[self.default_ns.len() - 1])
                } else {
                    None
                };
                let elem = Element {
                    name,
                    ns,
                    attributes,
                    children: Vec::new(),
                    prefixes: eprefixes,
                    default_ns: edns,
                };
                proof {
                    crate::element::lemma_children_view(elem.children, 0);
                    assert(elem_view(elem).children =~= Seq::<XmlV>::empty());
                    assert(elem_view(elem) =~~= bstep(m0, EventV::ElementStart(tv)).0.stack.last());
                }
                self.stack.push(elem);
                proof {
                    assert(self@.stack =~= bstep(m0, EventV::ElementStart(tv)).0.stack);
                    assert(self@ =~~= bstep(m0, EventV::ElementStart(tv)).0);
                }
                None
            },
            Event::ElementEnd(t) => {
                let ghost tv = t@;
                let EndTag { name, ns, prefix: _ } = t;
                let elem = match self.stack.pop() {
                    Some(e) => e,
                    None => {
                        return Some(Err(BuilderError::ImproperNesting));
                    },
                };
                if self.default_ns.len() > 0 {
                    let _ = self.default_ns.pop();
                }
                proof {
                    if m0.default_ns.len() > 0 {
                        assert(self@.default_ns =~= m0.default_ns.drop_last());
                    }
                    assert(self@.stack =~= m0.stack.drop_last());
                    assert(elem_view(elem) == m0.stack.last());
                }
                if !(elem.name == name) || !opt_string_eq(&elem.ns, &ns) {
                    return Some(Err(BuilderError::ImproperNesting));
                }
                if self.stack.len() > 0 {
                    self.push_child(Xml::ElementNode(elem));
                    proof {
                        assert(self@ =~~= bstep(
                            m0,
                            EventV::ElementEnd(tv),
                        ).0);
                    }
                    None
                } else {
                    Some(Ok(elem))
                }
            },
        }
    }

    /// Lets the builder process one event, handing back a completed root as
    /// `Ok(Some(element))` once its close tag has been seen.
    pub fn push_event(&mut self, e: Event) -> (r: Result<Option<Element>, BuilderError>)
        ensures
            ({
                let (m1, out) = bstep(old(self)@, e@);
                final(self)@ == m1 && match out {
                    None => r matches Ok(None),
                    Some(Ok(ev)) => r matches Ok(Some(el)) && el@ == ev,
                    Some(Err(be)) => r matches Err(b) && b@ == be,
                }
            }),
    {
        match self.handle_event(Ok(e)) {
            None => Ok(None),
            Some(Ok(el)) => Ok(Some(el)),
            Some(Err(err)) => Err(err),
        }
    }
}

/// What parsing one complete text yields: the tokenizer is pumped and each
/// event handed to the builder until a root or an error comes out; a text
/// whose events finish no root yields `NoElement`.
pub open spec fn drain(
    pm: crate::parser::ParserV,
    bm: BuilderV,
) -> Result<ElemV, BuilderErrorV>
    decreases pm.data.len(),
    via drain_decreases
{
    let (pm2, out) = crate::parser::pump(pm);
    match out {
        None => Err(BuilderErrorV::NoElement),
        Some(Err(pe)) => Err(BuilderErrorV::Parser(pe)),
        Some(Ok(ev)) => {
            let (bm2, bout) = bstep(bm, ev);
            match bout {
                None => drain(pm2, bm2),
                Some(Ok(el)) => Ok(el),
                Some(Err(be)) => Err(be),
            }
        },
    }
}

#[via_fn]
proof fn drain_decreases(pm: crate::parser::ParserV, bm: BuilderV) {
    crate::parser::lemma_pump_consumes(pm);
}

impl Element {
    /// Parses a complete text into its first element tree: the text's events
    /// are folded through a fresh builder until a root completes. A text with
    /// no completed root gives `NoElement`; lexical errors and improper
    /// nesting give the corresponding error.
    #[verifier::loop_isolation(false)]
    pub fn from_text(data: &str) -> (r: Result<Element, BuilderError>)
        ensures
            ({
                let d = drain(
                    crate::parser::ParserV { data: data@, ..crate::parser::initial_parser() },
                    initial_builder(),
                );
                match r {
                    Ok(el) => d == Ok::<ElemV, BuilderErrorV>(el@),
                    Err(e) => d == Err::<ElemV, BuilderErrorV>(e@),
                }
            }),
    {
        let mut p = crate::parser::Parser::new();
        let mut b = ElementBuilder::new();
        p.feed_str(data);
        let ghost pv0 = p@;
        proof {
            assert(Seq::<char>::empty() + data@ =~= data@);
            assert(pv0 =~~= (crate::parser::ParserV {
                data: data@,
                ..crate::parser::initial_parser()
            }));
        }
        loop
            invariant
                p.wf(),
                !p@.failed,
                drain(p@, b@) == drain(pv0, initial_builder()),
            decreases p@.data.len(),
        {
            let ghost pm = p@;
            let ghost bm = b@;
            proof {
                crate::parser::lemma_pump_consumes(pm);
            }
            match p.next_event() {
                None => {
                    return Err(BuilderError::NoElement);
                },
                Some(ev_or_err) => {
                    match b.handle_event(ev_or_err) {
                        Some(result) => {
                            return result;
                        },
                        None => {},
                    }
                },
            }
        }
    }
}

impl core::str::FromStr for Element {
    type Err = BuilderError;

    fn from_str(data: &str) -> Result<Element, BuilderError> {
        Element::from_text(data)
    }
}

/// Whether a character can stand anywhere in a plain tag name: nothing that
/// ends the name, opens another construct, or splits off a prefix.
pub open spec fn plain_name_char(c: char) -> bool {
    &&& !crate::parser::ws_char(c)
    &&& c != '<'
    &&& c != '>'
    &&& c != '/'
    &&& c != '?'
    &&& c != '!'
    &&& c != ':'
}

/// Pulling while inside an opening tag's name buffers the plain characters
/// until a closing `/`, then emits the start tag with the whole name.
proof fn lemma_pump_name_selfclose(m: crate::parser::ParserV, rest: Seq<char>, after: Seq<char>)
    requires
        m.st matches crate::parser::State::InTagName,
        !m.failed,
        m.data == rest + seq!['/'] + after,
        forall|i: int| 0 <= i < rest.len() ==> plain_name_char(#[trigger] rest[i]),
        crate::codec::find_char(m.buf, ':') is None,
        crate::parser::ns_for_prefix(m.namespaces, Seq::empty()) is None,
    ensures
        ({
            let (m2, out) = crate::parser::pump(m);
            &&& out == Some(
                Ok::<EventV, ParserErrorV>(
                    EventV::ElementStart(
                        StartTagV {
                            name: m.buf + rest,
                            ns: None,
                            prefix: None,
                            attributes: Seq::empty(),
                        },
                    ),
                ),
            )
            &&& m2.data == after
            &&& m2.st matches crate::parser::State::ExpectClose
            &&& m2.buf == Seq::<char>::empty()
            &&& m2.name == Some((None::<Seq<char>>, m.buf + rest))
            &&& m2.namespaces == m.namespaces.push(Map::<Seq<char>, Seq<char>>::empty())
            &&& !m2.failed
        }),
    decreases rest.len(),
{
    let full = rest + seq!['/'] + after;
    if rest.len() == 0 {
        assert(full[0] == '/');
        let m1 = crate::parser::tick(m, '/');
        assert(m1.data =~= after);
        crate::codec::lemma_find_char(m.buf, ':');
        assert(crate::parser::qname_split(m.buf) == (None::<Seq<char>>, m.buf));
        let s = crate::parser::step(m1, '/');
        assert(m.buf + rest =~= m.buf);
        assert(s.out == Ok::<Option<EventV>, ParserErrorV>(
            Some(
                EventV::ElementStart(
                    StartTagV {
                        name: m.buf,
                        ns: None,
                        prefix: None,
                        attributes: Seq::empty(),
                    },
                ),
            ),
        ));
    } else {
        let c = rest[0];
        assert(full[0] == c);
        let m1 = crate::parser::tick(m, c);
        assert(m1.data =~= rest.drop_first() + seq!['/'] + after);
        let s = crate::parser::step(m1, c);
        assert(s.out == Ok::<Option<EventV>, ParserErrorV>(None));
        assert(s.m.buf == m.buf.push(c));
        crate::codec::lemma_find_char(m.buf, ':');
        crate::codec::lemma_find_char_none(m.buf.push(c), ':');
        assert(forall|i: int|
            0 <= i < rest.drop_first().len() ==> plain_name_char(
                #[trigger] rest.drop_first()[i],
            ));
        lemma_pump_name_selfclose(s.m, rest.drop_first(), after);
        assert(s.m.buf + rest.drop_first() =~= m.buf + rest);
    }
}

/// Pulling while inside an opening tag's name buffers the plain characters
/// until a closing `>`, then emits the start tag with the whole name.
proof fn lemma_pump_name_open(m: crate::parser::ParserV, rest: Seq<char>, after: Seq<char>)
    requires
        m.st matches crate::parser::State::InTagName,
        !m.failed,
        m.data == rest + seq!['>'] + after,
        forall|i: int| 0 <= i < rest.len() ==> plain_name_char(#[trigger] rest[i]),
        crate::codec::find_char(m.buf, ':') is None,
        crate::parser::ns_for_prefix(m.namespaces, Seq::empty()) is None,
    ensures
        ({
            let (m2, out) = crate::parser::pump(m);
            &&& out == Some(
                Ok::<EventV, ParserErrorV>(
                    EventV::ElementStart(
                        StartTagV {
                            name: m.buf + rest,
                            ns: None,
                            prefix: None,
                            attributes: Seq::empty(),
                        },
                    ),
                ),
            )
            &&& m2.data == after
            &&& m2.st matches crate::parser::State::OutsideTag
            &&& m2.buf == Seq::<char>::empty()
            &&& m2.namespaces == m.namespaces.push(Map::<Seq<char>, Seq<char>>::empty())
            &&& !m2.failed
        }),
    decreases rest.len(),
{
    let full = rest + seq!['>'] + after;
    if rest.len() == 0 {
        assert(full[0] == '>');
        let m1 = crate::parser::tick(m, '>');
        assert(m1.data =~= after);
        crate::codec::lemma_find_char(m.buf, ':');
        assert(crate::parser::qname_split(m.buf) == (None::<Seq<char>>, m.buf));
        let s = crate::parser::step(m1, '>');
        assert(m.buf + rest =~= m.buf);
        assert(s.out == Ok::<Option<EventV>, ParserErrorV>(
            Some(
                EventV::ElementStart(
                    StartTagV {
                        name: m.buf,
                        ns: None,
                        prefix: None,
                        attributes: Seq::empty(),
                    },
                ),
            ),
        ));
    } else {
        let c = rest[0];
        assert(full[0] == c);
        let m1 = crate::parser::tick(m, c);
        assert(m1.data =~= rest.drop_first() + seq!['>'] + after);
        let s = crate::parser::step(m1, c);
        assert(s.out == Ok::<Option<EventV>, ParserErrorV>(None));
        assert(s.m.buf == m.buf.push(c));
        crate::codec::lemma_find_char(m.buf, ':');
        crate::codec::lemma_find_char_none(m.buf.push(c), ':');
        assert(forall|i: int|
            0 <= i < rest.drop_first().len() ==> plain_name_char(
                #[trigger] rest.drop_first()[i],
            ));
        lemma_pump_name_open(s.m, rest.drop_first(), after);
        assert(s.m.buf + rest.drop_first() =~= m.buf + rest);
    }
}

/// Pulling while inside a closing tag's name buffers the plain characters
/// until the `>`, then emits the end tag with the whole name and pops the
/// innermost namespace scope.
proof fn lemma_pump_close_name(m: crate::parser::ParserV, rest: Seq<char>, after: Seq<char>)
    requires
        m.st matches crate::parser::State::InCloseTagName,
        !m.failed,
        m.namespaces.len() > 0,
        m.data == rest + seq!['>'] + after,
        forall|i: int| 0 <= i < rest.len() ==> plain_name_char(#[trigger] rest[i]),
        crate::codec::find_char(m.buf, ':') is None,
        crate::parser::ns_for_prefix(m.namespaces, Seq::empty()) is None,
    ensures
        ({
            let (m2, out) = crate::parser::pump(m);
            &&& out == Some(
                Ok::<EventV, ParserErrorV>(
                    EventV::ElementEnd(
                        crate::parser::EndTagV { name: m.buf + rest, ns: None, prefix: None },
                    ),
                ),
            )
            &&& m2.data == after
            &&& m2.st matches crate::parser::State::OutsideTag
            &&& m2.buf == Seq::<char>::empty()
            &&& m2.namespaces == m.namespaces.drop_last()
            &&& !m2.failed
        }),
    decreases rest.len(),
{
    let full = rest + seq!['>'] + after;
    if rest.len() == 0 {
        assert(full[0] == '>');
        let m1 = crate::parser::tick(m, '>');
        assert(m1.data =~= after);
        crate::codec::lemma_find_char(m.buf, ':');
        assert(crate::parser::qname_split(m.buf) == (None::<Seq<char>>, m.buf));
        let s = crate::parser::step(m1, '>');
        assert(m.buf + rest =~= m.buf);
        assert(s.out == Ok::<Option<EventV>, ParserErrorV>(
            Some(
                EventV::ElementEnd(
                    crate::parser::EndTagV { name: m.buf, ns: None, prefix: None },
                ),
            ),
        ));
    } else {
        let c = rest[0];
        assert(full[0] == c);
        let m1 = crate::parser::tick(m, c);
        assert(m1.data =~= rest.drop_first() + seq!['>'] + after);
        let s = crate::parser::step(m1, c);
        assert(s.out == Ok::<Option<EventV>, ParserErrorV>(None));
        assert(s.m.buf == m.buf.push(c));
        crate::codec::lemma_find_char(m.buf, ':');
        crate::codec::lemma_find_char_none(m.buf.push(c), ':');
        assert(forall|i: int|
            0 <= i < rest.drop_first().len() ==> plain_name_char(
                #[trigger] rest.drop_first()[i],
            ));
        lemma_pump_close_name(s.m, rest.drop_first(), after);
        assert(s.m.buf + rest.drop_first() =~= m.buf + rest);
    }
}

/// Whether no scope of a stack binds the empty prefix, so that unprefixed
/// names resolve to no namespace.
pub open spec fn no_default_binding(scopes: Seq<Map<Seq<char>, Seq<char>>>) -> bool {
    forall|i: int|
        0 <= i < scopes.len() ==> !(#[trigger] scopes[i]).contains_key(Seq::<char>::empty())
}

proof fn lemma_no_default_lookup(scopes: Seq<Map<Seq<char>, Seq<char>>>)
    requires
        no_default_binding(scopes),
    ensures
        crate::parser::ns_for_prefix(scopes, Seq::empty()) is None,
    decreases scopes.len(),
{
    if scopes.len() > 0 {
        assert(!scopes[scopes.len() - 1].contains_key(Seq::<char>::empty()));
        assert(forall|i: int|
            0 <= i < scopes.drop_last().len() ==> scopes.drop_last()[i] == scopes[i]);
        lemma_no_default_lookup(scopes.drop_last());
    }
}

/// The fixed bottom scope binds prefixes, never the default namespace.
proof fn lemma_initial_no_default()
    ensures
        no_default_binding(crate::parser::initial_parser().namespaces),
{
    reveal_strlit("xml");
    reveal_strlit("xmlns");
    let base = Map::<Seq<char>, Seq<char>>::empty().insert(
        "xml"@,
        "http://www.w3.org/XML/1998/namespace"@,
    ).insert("xmlns"@, "http://www.w3.org/2000/xmlns/"@);
    assert("xml"@.len() == 3);
    assert("xmlns"@.len() == 5);
    assert(!base.contains_key(Seq::<char>::empty()));
    let scopes = crate::parser::initial_parser().namespaces;
    assert(scopes.len() == 1);
    assert(scopes[0] == base);
}

/// A tree of matching start and end tags: the shape of a balanced event
/// sequence, in which every end tag carries the name and namespace of the
/// start tag at its depth.
pub struct EvTree {
    /// The tag's name.
    pub name: Seq<char>,
    /// The tag's resolved namespace.
    pub ns: Option<Seq<char>>,
    /// The nested tags, in document order.
    pub kids: Seq<EvTree>,
}

/// The event sequence a tree stands for: its start tag, the events of its
/// children in order, and its matching end tag.
pub open spec fn events_of(t: EvTree) -> Seq<EventV>
    decreases t,
{
    seq![
        EventV::ElementStart(
            StartTagV { name: t.name, ns: t.ns, prefix: None, attributes: Seq::empty() },
        ),
    ] + events_of_seq(t.kids) + seq![
        EventV::ElementEnd(crate::parser::EndTagV { name: t.name, ns: t.ns, prefix: None }),
    ]
}

/// The event sequences of a forest, concatenated in order.
pub open spec fn events_of_seq(ts: Seq<EvTree>) -> Seq<EventV>
    decreases ts,
{
    if ts.len() == 0 {
        Seq::empty()
    } else {
        events_of(ts[0]) + events_of_seq(ts.drop_first())
    }
}

/// Folding a sequence of events through the builder, collecting what each
/// step hands back.
pub open spec fn bfold(m: BuilderV, evs: Seq<EventV>) -> (
    BuilderV,
    Seq<Option<Result<ElemV, BuilderErrorV>>>,
)
    decreases evs.len(),
{
    if evs.len() == 0 {
        (m, Seq::empty())
    } else {
        let (m1, o) = bstep(m, evs[0]);
        let (m2, rest) = bfold(m1, evs.drop_first());
        (m2, seq![o] + rest)
    }
}

/// The default namespace in effect for the next element opened.
pub open spec fn effective_default(m: BuilderV) -> Option<Seq<char>> {
    if m.default_ns.len() > 0 {
        m.default_ns.last()
    } else {
        None
    }
}

/// The element a balanced tree builds, under a prefix table and a default
/// namespace in effect: its children stand in document order.
pub open spec fn built_of(
    t: EvTree,
    prefixes: Map<Seq<char>, Seq<char>>,
    dns: Option<Seq<char>>,
) -> ElemV
    decreases t,
{
    ElemV {
        name: t.name,
        ns: t.ns,
        attributes: Seq::empty(),
        children: built_kids(t.kids, prefixes, dns),
        prefixes,
        default_ns: dns,
    }
}

/// The elements a forest builds, in document order.
pub open spec fn built_kids(
    ts: Seq<EvTree>,
    prefixes: Map<Seq<char>, Seq<char>>,
    dns: Option<Seq<char>>,
) -> Seq<XmlV>
    decreases ts,
{
    if ts.len() == 0 {
        Seq::empty()
    } else {
        seq![XmlV::ElementNode(built_of(ts[0], prefixes, dns))] + built_kids(
            ts.drop_first(),
            prefixes,
            dns,
        )
    }
}

/// A sequence holding nothing, of the given length.
pub open spec fn no_outputs(n: int) -> Seq<Option<Result<ElemV, BuilderErrorV>>> {
    Seq::new(n as nat, |i: int| None)
}

proof fn lemma_bfold_one(m: BuilderV, e: EventV)
    ensures
        bfold(m, seq![e]).0 == bstep(m, e).0,
        bfold(m, seq![e]).1 == seq![bstep(m, e).1],
{
    let s = seq![e];
    assert(s[0] == e);
    assert(s.drop_first() =~= Seq::<EventV>::empty());
    assert(bfold(bstep(m, e).0, Seq::<EventV>::empty()).0 == bstep(m, e).0);
    assert(bfold(m, s).1 =~= seq![bstep(m, e).1]);
}

proof fn lemma_bfold_concat(m: BuilderV, a: Seq<EventV>, b: Seq<EventV>)
    ensures
        bfold(m, a + b).0 == bfold(bfold(m, a).0, b).0,
        bfold(m, a + b).1 == bfold(m, a).1 + bfold(bfold(m, a).0, b).1,
    decreases a.len(),
{
    if a.len() == 0 {
        assert(a + b =~= b);
        assert(bfold(m, a).1 + bfold(bfold(m, a).0, b).1 =~= bfold(m, b).1);
    } else {
        assert((a + b)[0] == a[0]);
        let (m1, o) = bstep(m, a[0]);
        assert((a + b).drop_first() =~= a.drop_first() + b);
        lemma_bfold_concat(m1, a.drop_first(), b);
        assert(seq![o] + (bfold(m1, a.drop_first()).1 + bfold(
            bfold(m1, a.drop_first()).0,
            b,
        ).1) =~= (seq![o] + bfold(m1, a.drop_first()).1) + bfold(bfold(m1, a.drop_first()).0, b).1);
    }
}

/// Feeding the events of one balanced tree while an element is open leaves
/// every stack below it alone, appends exactly the built element as the next
/// child of the innermost open element, and yields nothing.
proof fn lemma_tree_nested(m: BuilderV, t: EvTree)
    requires
        m.stack.len() > 0,
    ensures
        ({
            let (m2, outs) = bfold(m, events_of(t));
            &&& m2 == (BuilderV {
                stack: append_node(
                    m.stack,
                    XmlV::ElementNode(built_of(t, m.prefixes, effective_default(m))),
                ),
                ..m
            })
            &&& outs == no_outputs(events_of(t).len() as int)
        }),
    decreases t, 1int,
{
    let sev = EventV::ElementStart(
        StartTagV { name: t.name, ns: t.ns, prefix: None, attributes: Seq::empty() },
    );
    let eev = EventV::ElementEnd(
        crate::parser::EndTagV { name: t.name, ns: t.ns, prefix: None },
    );
    let evs = events_of(t);
    let head = seq![sev];
    let mid = events_of_seq(t.kids);
    let tail = seq![eev];
    // the start tag pushes a fresh element
    let (m_in, o1) = bstep(m, sev);
    assert(o1 is None);
    assert(m_in.stack == m.stack.push(
        ElemV {
            name: t.name,
            ns: t.ns,
            attributes: Seq::empty(),
            children: Seq::empty(),
            prefixes: m.prefixes,
            default_ns: effective_default(m),
        },
    ));
    assert(effective_default(m_in) == effective_default(m));
    assert(m_in.prefixes == m.prefixes);
    // the children's events fill it, in order
    lemma_kids_nested(m_in, t.kids);
    let (m_mid, outs_mid) = bfold(m_in, mid);
    let filled = ElemV {
        name: t.name,
        ns: t.ns,
        attributes: Seq::empty(),
        children: built_kids(t.kids, m.prefixes, effective_default(m)),
        prefixes: m.prefixes,
        default_ns: effective_default(m),
    };
    assert(m_mid.stack =~= m.stack.push(filled));
    // the end tag pops it and appends it below
    let (m_end, o3) = bstep(m_mid, eev);
    assert(m_mid.stack.last() == filled);
    assert(m_mid.stack.drop_last() =~= m.stack);
    assert(o3 is None);
    assert(filled == built_of(t, m.prefixes, effective_default(m)));
    assert(m_end.default_ns =~= m.default_ns);
    assert(m_end == (BuilderV {
        stack: append_node(
            m.stack,
            XmlV::ElementNode(built_of(t, m.prefixes, effective_default(m))),
        ),
        ..m
    }));
    // assemble the fold over head + mid + tail
    assert(evs =~= head + (mid + tail));
    lemma_bfold_concat(m, head, mid + tail);
    lemma_bfold_one(m, sev);
    assert(bfold(m, head).0 == m_in);
    assert(bfold(m, head).1 =~= seq![o1]);
    lemma_bfold_concat(m_in, mid, tail);
    lemma_bfold_one(m_mid, eev);
    assert(bfold(m_mid, tail).0 == m_end);
    assert(bfold(m_mid, tail).1 =~= seq![o3]);
    let (m2, outs) = bfold(m, evs);
    assert(m2 == m_end);
    assert(outs =~= seq![o1] + (outs_mid + seq![o3]));
    assert(outs =~= no_outputs(evs.len() as int));
}

/// Feeding the events of a forest while an element is open appends exactly
/// the built elements, in document order, as children of the innermost open
/// element, and yields nothing.
proof fn lemma_kids_nested(m: BuilderV, ts: Seq<EvTree>)
    requires
        m.stack.len() > 0,
    ensures
        ({
            let (m2, outs) = bfold(m, events_of_seq(ts));
            let top = m.stack.last();
            &&& m2 == (BuilderV {
                stack: m.stack.update(
                    m.stack.len() - 1,
                    ElemV {
                        children: top.children + built_kids(
                            ts,
                            m.prefixes,
                            effective_default(m),
                        ),
                        ..top
                    },
                ),
                ..m
            })
            &&& outs == no_outputs(events_of_seq(ts).len() as int)
        }),
    decreases ts, 0int,
{
    let top = m.stack.last();
    if ts.len() == 0 {
        assert(top.children + built_kids(ts, m.prefixes, effective_default(m)) =~= top.children);
        assert(m.stack.update(
            m.stack.len() - 1,
            ElemV { children: top.children, ..top },
        ) =~= m.stack);
        assert(bfold(m, events_of_seq(ts)).0 =~~= (BuilderV {
            stack: m.stack.update(
                m.stack.len() - 1,
                ElemV {
                    children: top.children + built_kids(ts, m.prefixes, effective_default(m)),
                    ..top
                },
            ),
            ..m
        }));
        assert(bfold(m, events_of_seq(ts)).1 =~= no_outputs(0));
    } else {
        let first = events_of(ts[0]);
        let rest = events_of_seq(ts.drop_first());
        assert(events_of_seq(ts) == first + rest);
        lemma_bfold_concat(m, first, rest);
        lemma_tree_nested(m, ts[0]);
        let built0 = built_of(ts[0], m.prefixes, effective_default(m));
        let m1 = bfold(m, first).0;
        assert(m1.stack =~= m.stack.update(
            m.stack.len() - 1,
            ElemV { children: top.children.push(XmlV::ElementNode(built0)), ..top },
        ));
        assert(m1.stack.len() == m.stack.len());
        assert(m1.prefixes == m.prefixes);
        assert(m1.default_ns == m.default_ns);
        lemma_kids_nested(m1, ts.drop_first());
        let m2 = bfold(m1, rest).0;
        let top1 = m1.stack.last();
        assert(top1.children =~= top.children.push(XmlV::ElementNode(built0)));
        assert(top.children.push(XmlV::ElementNode(built0)) + built_kids(
            ts.drop_first(),
            m.prefixes,
            effective_default(m),
        ) =~= top.children + built_kids(ts, m.prefixes, effective_default(m)));
        assert(m2.stack =~= m.stack.update(
            m.stack.len() - 1,
            ElemV {
                children: top.children + built_kids(ts, m.prefixes, effective_default(m)),
                ..top
            },
        ));
        assert(bfold(m, events_of_seq(ts)).0 =~~= (BuilderV {
            stack: m2.stack,
            ..m
        }));
        assert(bfold(m, events_of_seq(ts)).1 =~= no_outputs(
            events_of_seq(ts).len() as int,
        ));
    }
}

/// Nesting law: a balanced sequence of start and end events — one in which
/// every end tag matches, in name and namespace, the start tag at its depth —
/// fed to a builder with no element open yields exactly one completed root,
/// at its final event, with the built children in document order.
pub proof fn lemma_balanced_events_build_one_root(m: BuilderV, t: EvTree)
    requires
        m.stack.len() == 0,
    ensures
        ({
            let evs = events_of(t);
            let (m2, outs) = bfold(m, evs);
            &&& outs.len() == evs.len()
            &&& (forall|i: int| 0 <= i < outs.len() - 1 ==> outs[i] is None)
            &&& outs.last() == Some(
                Ok::<ElemV, BuilderErrorV>(built_of(t, m.prefixes, effective_default(m))),
            )
            &&& m2.stack.len() == 0
        }),
{
    let sev = EventV::ElementStart(
        StartTagV { name: t.name, ns: t.ns, prefix: None, attributes: Seq::empty() },
    );
    let eev = EventV::ElementEnd(
        crate::parser::EndTagV { name: t.name, ns: t.ns, prefix: None },
    );
    let evs = events_of(t);
    let head = seq![sev];
    let mid = events_of_seq(t.kids);
    let tail = seq![eev];
    let (m_in, o1) = bstep(m, sev);
    assert(o1 is None);
    assert(m_in.stack.len() == 1);
    assert(effective_default(m_in) == effective_default(m));
    assert(m_in.prefixes == m.prefixes);
    lemma_kids_nested(m_in, t.kids);
    let (m_mid, outs_mid) = bfold(m_in, mid);
    let filled = ElemV {
        name: t.name,
        ns: t.ns,
        attributes: Seq::empty(),
        children: built_kids(t.kids, m.prefixes, effective_default(m)),
        prefixes: m.prefixes,
        default_ns: effective_default(m),
    };
    assert(m_mid.stack =~= Seq::<ElemV>::empty().push(filled));
    let (m_end, o3) = bstep(m_mid, eev);
    assert(m_mid.stack.last() == filled);
    assert(m_mid.stack.drop_last() =~= Seq::<ElemV>::empty());
    assert(filled == built_of(t, m.prefixes, effective_default(m)));
    assert(o3 == Some(Ok::<ElemV, BuilderErrorV>(built_of(t, m.prefixes, effective_default(m)))));
    assert(m_end.stack.len() == 0);
    assert(evs =~= head + (mid + tail));
    lemma_bfold_concat(m, head, mid + tail);
    lemma_bfold_one(m, sev);
    assert(bfold(m, head).0 == m_in);
    assert(bfold(m, head).1 =~= seq![o1]);
    lemma_bfold_concat(m_in, mid, tail);
    lemma_bfold_one(m_mid, eev);
    assert(bfold(m_mid, tail).0 == m_end);
    assert(bfold(m_mid, tail).1 =~= seq![o3]);
    let (m2, outs) = bfold(m, evs);
    assert(m2 == m_end);
    assert(outs =~= seq![o1] + (outs_mid + seq![o3]));
    assert(outs.len() == evs.len());
    assert forall|i: int| 0 <= i < outs.len() - 1 implies outs[i] is None by {
        if i > 0 {
            assert(outs[i] == outs_mid[i - 1]);
            assert(outs_mid[i - 1] == no_outputs(mid.len() as int)[i - 1]);
        }
    }
    assert(outs.last() == o3);
}


/// Whether every tag of a tree has a plain, non-empty name, no namespace,
/// and plain children.
pub open spec fn plain_tree(t: EvTree) -> bool
    decreases t,
{
    &&& t.ns is None
    &&& t.name.len() > 0
    &&& (forall|i: int| 0 <= i < t.name.len() ==> plain_name_char(#[trigger] t.name[i]))
    &&& plain_forest(t.kids)
}

/// Whether every tree of a forest is plain.
pub open spec fn plain_forest(ts: Seq<EvTree>) -> bool
    decreases ts,
{
    if ts.len() == 0 {
        true
    } else {
        plain_tree(ts[0]) && plain_forest(ts.drop_first())
    }
}

/// The text a plain tree renders to: a self-closing tag for a leaf, and an
/// open tag, the children's texts, and a close tag otherwise.
pub open spec fn text_of(t: EvTree) -> Seq<char>
    decreases t,
{
    if t.kids.len() == 0 {
        seq!['<'] + t.name + seq!['/', '>']
    } else {
        seq!['<'] + t.name + seq!['>'] + texts_of(t.kids) + seq!['<', '/'] + t.name + seq!['>']
    }
}

/// The texts of a forest, concatenated in order.
pub open spec fn texts_of(ts: Seq<EvTree>) -> Seq<char>
    decreases ts,
{
    if ts.len() == 0 {
        Seq::empty()
    } else {
        text_of(ts[0]) + texts_of(ts.drop_first())
    }
}

/// A tokenizer state between constructs: outside any tag, with nothing
/// buffered and no error reported.
pub open spec fn ready_tok(m: crate::parser::ParserV) -> bool {
    &&& m.st matches crate::parser::State::OutsideTag
    &&& m.buf == Seq::<char>::empty()
    &&& !m.failed
}

/// The landing state after one construct: ready again, with the given queue
/// and scope stack.
pub open spec fn tok_done(
    rest: Seq<char>,
    scopes: Seq<Map<Seq<char>, Seq<char>>>,
    pm2: crate::parser::ParserV,
) -> bool {
    &&& ready_tok(pm2)
    &&& pm2.data == rest
    &&& pm2.namespaces == scopes
}

/// Feeding the text of one plain tree while an element is open: the
/// tokenizer comes back ready with the same scopes, and the interleaved
/// parse continues with the builder having folded the tree's events.
#[verifier::rlimit(100)]
proof fn lemma_tok_tree_nested(
    pm: crate::parser::ParserV,
    bm: BuilderV,
    t: EvTree,
    rest: Seq<char>,
)
    requires
        ready_tok(pm),
        plain_tree(t),
        pm.data == text_of(t) + rest,
        no_default_binding(pm.namespaces),
        bm.stack.len() > 0,
    ensures
        exists|pm2: crate::parser::ParserV|
            #[trigger] tok_done(rest, pm.namespaces, pm2) && drain(pm, bm) == drain(
                pm2,
                bfold(bm, events_of(t)).0,
            ),
    decreases t, 1int,
{
    let name = t.name;
    let sev = EventV::ElementStart(
        StartTagV { name, ns: None, prefix: None, attributes: Seq::empty() },
    );
    let eev = EventV::ElementEnd(
        crate::parser::EndTagV { name, ns: None, prefix: None },
    );
    let evs = events_of(t);
    let head = seq![sev];
    let mid = events_of_seq(t.kids);
    let tail = seq![eev];
    assert(evs =~= head + (mid + tail));
    lemma_no_default_lookup(pm.namespaces);
    // the opening `<` and the first name character
    assert(pm.data[0] == '<');
    let pm_a = crate::parser::tick(pm, '<');
    let s_a = crate::parser::step(pm_a, '<');
    assert(s_a.out == Ok::<Option<EventV>, ParserErrorV>(None));
    let c0 = name[0];
    assert(s_a.m.data[0] == c0);
    let pm_b = crate::parser::tick(s_a.m, c0);
    let s_b = crate::parser::step(pm_b, c0);
    assert(s_b.out == Ok::<Option<EventV>, ParserErrorV>(None));
    assert(s_b.m.buf == pm.buf.push(c0));
    crate::codec::lemma_find_char_none(s_b.m.buf, ':');
    assert(forall|i: int|
        0 <= i < name.drop_first().len() ==> plain_name_char(#[trigger] name.drop_first()[i]));
    let pushed = pm.namespaces.push(Map::<Seq<char>, Seq<char>>::empty());
    assert(no_default_binding(pushed)) by {
        assert(forall|i: int|
            0 <= i < pm.namespaces.len() ==> pushed[i] == pm.namespaces[i]);
    }
    let (bm_in, bo1) = bstep(bm, sev);
    assert(bo1 is None);
    if t.kids.len() == 0 {
        assert(pm.data =~= seq!['<'] + name + seq!['/', '>'] + rest);
        assert(pm_b.data =~= name.drop_first() + seq!['/'] + (seq!['>'] + rest));
        lemma_pump_name_selfclose(s_b.m, name.drop_first(), seq!['>'] + rest);
        assert(s_b.m.buf + name.drop_first() =~= name);
        let (pm1, out1) = crate::parser::pump(s_b.m);
        assert(crate::parser::pump(pm) == crate::parser::pump(s_a.m));
        assert(crate::parser::pump(s_a.m) == crate::parser::pump(s_b.m));
        assert(out1 == Some(Ok::<EventV, ParserErrorV>(sev)));
        assert(pm1.namespaces == pushed);
        // the closing `>`
        assert(pm1.data[0] == '>');
        let pm_c = crate::parser::tick(pm1, '>');
        assert(pm_c.data =~= rest);
        lemma_no_default_lookup(pushed);
        let s_c = crate::parser::step(pm_c, '>');
        assert(s_c.out == Ok::<Option<EventV>, ParserErrorV>(Some(eev)));
        assert(s_c.m.namespaces =~= pm.namespaces);
        let (pm2, out2) = crate::parser::pump(pm1);
        assert(out2 == Some(Ok::<EventV, ParserErrorV>(eev)));
        assert(pm2 == s_c.m);
        // the builder folds the two events below the open element
        let (bm_end, bo2) = bstep(bm_in, eev);
        assert(bm_in.stack.drop_last() =~= bm.stack);
        assert(bo2 is None);
        assert(drain(pm, bm) == drain(pm1, bm_in));
        assert(drain(pm1, bm_in) == drain(pm2, bm_end));
        lemma_bfold_one(bm, sev);
        lemma_bfold_concat(bm, head, mid + tail);
        lemma_bfold_one(bm_in, eev);
        assert(mid =~= Seq::<EventV>::empty());
        assert(mid + tail =~= tail);
        assert(bfold(bm, evs).0 == bm_end);
        assert(tok_done(rest, pm.namespaces, pm2));
        assert(drain(pm, bm) == drain(pm2, bfold(bm, events_of(t)).0));
    } else {
        let close = seq!['<', '/'] + name + seq!['>'];
        assert(pm.data =~= seq!['<'] + name + seq!['>'] + texts_of(t.kids) + close + rest);
        assert(pm_b.data =~= name.drop_first() + seq!['>'] + (texts_of(t.kids) + close + rest));
        lemma_pump_name_open(s_b.m, name.drop_first(), texts_of(t.kids) + close + rest);
        assert(s_b.m.buf + name.drop_first() =~= name);
        let (pm_o, out1) = crate::parser::pump(s_b.m);
        assert(crate::parser::pump(pm) == crate::parser::pump(s_a.m));
        assert(crate::parser::pump(s_a.m) == crate::parser::pump(s_b.m));
        assert(out1 == Some(Ok::<EventV, ParserErrorV>(sev)));
        assert(pm_o.namespaces == pushed);
        assert(drain(pm, bm) == drain(pm_o, bm_in));
        // the children's texts fill the open element
        assert(pm_o.data =~= texts_of(t.kids) + (close + rest));
        lemma_tok_forest(pm_o, bm_in, t.kids, close + rest);
        let pm_f = choose|pm2: crate::parser::ParserV|
            #[trigger] tok_done(close + rest, pm_o.namespaces, pm2) && drain(pm_o, bm_in)
                == drain(pm2, bfold(bm_in, events_of_seq(t.kids)).0);
        let bm_f = bfold(bm_in, mid).0;
        lemma_kids_nested(bm_in, t.kids);
        assert(bm_f.stack.len() == bm_in.stack.len());
        // the closing tag
        assert(pm_f.data[0] == '<');
        let pm_c1 = crate::parser::tick(pm_f, '<');
        let s_c1 = crate::parser::step(pm_c1, '<');
        assert(s_c1.out == Ok::<Option<EventV>, ParserErrorV>(None));
        assert(s_c1.m.data[0] == '/');
        let pm_c2 = crate::parser::tick(s_c1.m, '/');
        let s_c2 = crate::parser::step(pm_c2, '/');
        assert(s_c2.out == Ok::<Option<EventV>, ParserErrorV>(None));
        assert(s_c2.m.st matches crate::parser::State::InCloseTagName);
        assert(s_c2.m.buf == pm_f.buf);
        crate::codec::lemma_find_char_none(s_c2.m.buf, ':');
        lemma_no_default_lookup(pushed);
        assert(s_c2.m.data =~= name + seq!['>'] + rest);
        lemma_pump_close_name(s_c2.m, name, rest);
        assert(s_c2.m.buf + name =~= name);
        let (pm2, out2) = crate::parser::pump(s_c2.m);
        assert(crate::parser::pump(pm_f) == crate::parser::pump(s_c1.m));
        assert(crate::parser::pump(s_c1.m) == crate::parser::pump(s_c2.m));
        assert(out2 == Some(Ok::<EventV, ParserErrorV>(eev)));
        assert(pm2.namespaces =~= pm.namespaces);
        // the builder pops the filled element and appends it below
        let (bm_end, bo2) = bstep(bm_f, eev);
        assert(bm_f.stack.last().name == name && bm_f.stack.last().ns is None);
        assert(bm_f.stack.drop_last().len() == bm.stack.len());
        assert(bo2 is None);
        assert(drain(pm_f, bm_f) == drain(pm2, bm_end));
        lemma_bfold_one(bm, sev);
        lemma_bfold_concat(bm, head, mid + tail);
        lemma_bfold_concat(bm_in, mid, tail);
        lemma_bfold_one(bm_f, eev);
        assert(bfold(bm, evs).0 == bm_end);
        assert(tok_done(rest, pm.namespaces, pm2));
        assert(drain(pm, bm) == drain(pm2, bfold(bm, events_of(t)).0));
    }
}

/// Feeding the texts of a plain forest while an element is open: each tree
/// lands ready in turn, and the builder folds all their events.
proof fn lemma_tok_forest(
    pm: crate::parser::ParserV,
    bm: BuilderV,
    ts: Seq<EvTree>,
    rest: Seq<char>,
)
    requires
        ready_tok(pm),
        plain_forest(ts),
        pm.data == texts_of(ts) + rest,
        no_default_binding(pm.namespaces),
        bm.stack.len() > 0,
    ensures
        exists|pm2: crate::parser::ParserV|
            #[trigger] tok_done(rest, pm.namespaces, pm2) && drain(pm, bm) == drain(
                pm2,
                bfold(bm, events_of_seq(ts)).0,
            ),
    decreases ts, 0int,
{
    if ts.len() == 0 {
        assert(pm.data =~= rest);
        assert(bfold(bm, events_of_seq(ts)).0 == bm);
        assert(tok_done(rest, pm.namespaces, pm));
    } else {
        assert(pm.data =~= text_of(ts[0]) + (texts_of(ts.drop_first()) + rest));
        lemma_tok_tree_nested(pm, bm, ts[0], texts_of(ts.drop_first()) + rest);
        let pm_a = choose|pm2: crate::parser::ParserV|
            #[trigger] tok_done(texts_of(ts.drop_first()) + rest, pm.namespaces, pm2) && drain(
                pm,
                bm,
            ) == drain(pm2, bfold(bm, events_of(ts[0])).0);
        let bm_a = bfold(bm, events_of(ts[0])).0;
        lemma_tree_nested(bm, ts[0]);
        assert(bm_a.stack.len() == bm.stack.len());
        assert(bm_a.prefixes == bm.prefixes);
        lemma_tok_forest(pm_a, bm_a, ts.drop_first(), rest);
        let pm_b = choose|pm2: crate::parser::ParserV|
            #[trigger] tok_done(rest, pm_a.namespaces, pm2) && drain(pm_a, bm_a) == drain(
                pm2,
                bfold(bm_a, events_of_seq(ts.drop_first())).0,
            );
        assert(events_of_seq(ts) == events_of(ts[0]) + events_of_seq(ts.drop_first()));
        lemma_bfold_concat(bm, events_of(ts[0]), events_of_seq(ts.drop_first()));
        assert(bfold(bm, events_of_seq(ts)).0 == bfold(
            bm_a,
            events_of_seq(ts.drop_first()),
        ).0);
        assert(tok_done(rest, pm.namespaces, pm_b));
        assert(drain(pm, bm) == drain(pm_b, bfold(bm, events_of_seq(ts)).0));
    }
}

/// Feeding the text of one plain tree with no element open: the parse ends
/// at the tree's final character, yielding the built root.
#[verifier::rlimit(100)]
proof fn lemma_tok_tree_root(pm: crate::parser::ParserV, bm: BuilderV, t: EvTree, rest: Seq<char>)
    requires
        ready_tok(pm),
        plain_tree(t),
        pm.data == text_of(t) + rest,
        no_default_binding(pm.namespaces),
        bm.stack.len() == 0,
    ensures
        drain(pm, bm) == Ok::<ElemV, BuilderErrorV>(
            built_of(t, bm.prefixes, effective_default(bm)),
        ),
{
    let name = t.name;
    let sev = EventV::ElementStart(
        StartTagV { name, ns: None, prefix: None, attributes: Seq::empty() },
    );
    let eev = EventV::ElementEnd(
        crate::parser::EndTagV { name, ns: None, prefix: None },
    );
    lemma_no_default_lookup(pm.namespaces);
    assert(pm.data[0] == '<');
    let pm_a = crate::parser::tick(pm, '<');
    let s_a = crate::parser::step(pm_a, '<');
    assert(s_a.out == Ok::<Option<EventV>, ParserErrorV>(None));
    let c0 = name[0];
    assert(s_a.m.data[0] == c0);
    let pm_b = crate::parser::tick(s_a.m, c0);
    let s_b = crate::parser::step(pm_b, c0);
    assert(s_b.out == Ok::<Option<EventV>, ParserErrorV>(None));
    assert(s_b.m.buf == pm.buf.push(c0));
    crate::codec::lemma_find_char_none(s_b.m.buf, ':');
    assert(forall|i: int|
        0 <= i < name.drop_first().len() ==> plain_name_char(#[trigger] name.drop_first()[i]));
    let pushed = pm.namespaces.push(Map::<Seq<char>, Seq<char>>::empty());
    assert(no_default_binding(pushed)) by {
        assert(forall|i: int|
            0 <= i < pm.namespaces.len() ==> pushed[i] == pm.namespaces[i]);
    }
    let (bm_in, bo1) = bstep(bm, sev);
    assert(bo1 is None);
    assert(bm_in.stack.len() == 1);
    let filled = ElemV {
        name,
        ns: None,
        attributes: Seq::empty(),
        children: built_kids(t.kids, bm.prefixes, effective_default(bm)),
        prefixes: bm.prefixes,
        default_ns: effective_default(bm),
    };
    assert(filled == built_of(t, bm.prefixes, effective_default(bm)));
    if t.kids.len() == 0 {
        assert(pm.data =~= seq!['<'] + name + seq!['/', '>'] + rest);
        assert(pm_b.data =~= name.drop_first() + seq!['/'] + (seq!['>'] + rest));
        lemma_pump_name_selfclose(s_b.m, name.drop_first(), seq!['>'] + rest);
        assert(s_b.m.buf + name.drop_first() =~= name);
        let (pm1, out1) = crate::parser::pump(s_b.m);
        assert(crate::parser::pump(pm) == crate::parser::pump(s_a.m));
        assert(crate::parser::pump(s_a.m) == crate::parser::pump(s_b.m));
        assert(out1 == Some(Ok::<EventV, ParserErrorV>(sev)));
        assert(pm1.namespaces == pushed);
        assert(pm1.data[0] == '>');
        let pm_c = crate::parser::tick(pm1, '>');
        lemma_no_default_lookup(pushed);
        let s_c = crate::parser::step(pm_c, '>');
        assert(s_c.out == Ok::<Option<EventV>, ParserErrorV>(Some(eev)));
        let (pm2, out2) = crate::parser::pump(pm1);
        assert(out2 == Some(Ok::<EventV, ParserErrorV>(eev)));
        let (bm_end, bo2) = bstep(bm_in, eev);
        assert(bm_in.stack.drop_last() =~= Seq::<ElemV>::empty());
        assert(bm_in.stack.last().children =~= filled.children);
        assert(bm_in.stack.last() =~~= filled);
        assert(bo2 == Some(Ok::<ElemV, BuilderErrorV>(filled)));
        assert(drain(pm, bm) == drain(pm1, bm_in));
        assert(drain(pm1, bm_in) == Ok::<ElemV, BuilderErrorV>(filled));
    } else {
        let close = seq!['<', '/'] + name + seq!['>'];
        assert(pm.data =~= seq!['<'] + name + seq!['>'] + texts_of(t.kids) + close + rest);
        assert(pm_b.data =~= name.drop_first() + seq!['>'] + (texts_of(t.kids) + close + rest));
        lemma_pump_name_open(s_b.m, name.drop_first(), texts_of(t.kids) + close + rest);
        assert(s_b.m.buf + name.drop_first() =~= name);
        let (pm_o, out1) = crate::parser::pump(s_b.m);
        assert(crate::parser::pump(pm) == crate::parser::pump(s_a.m));
        assert(crate::parser::pump(s_a.m) == crate::parser::pump(s_b.m));
        assert(out1 == Some(Ok::<EventV, ParserErrorV>(sev)));
        assert(pm_o.namespaces == pushed);
        assert(drain(pm, bm) == drain(pm_o, bm_in));
        assert(pm_o.data =~= texts_of(t.kids) + (close + rest));
        lemma_tok_forest(pm_o, bm_in, t.kids, close + rest);
        let pm_f = choose|pm2: crate::parser::ParserV|
            #[trigger] tok_done(close + rest, pm_o.namespaces, pm2) && drain(pm_o, bm_in)
                == drain(pm2, bfold(bm_in, events_of_seq(t.kids)).0);
        let bm_f = bfold(bm_in, events_of_seq(t.kids)).0;
        lemma_kids_nested(bm_in, t.kids);
        assert(bm_f.stack.len() == 1);
        assert(bm_f.stack.last().children =~= filled.children);
        assert(bm_f.stack.last() =~~= filled);
        assert(pm_f.data[0] == '<');
        let pm_c1 = crate::parser::tick(pm_f, '<');
        let s_c1 = crate::parser::step(pm_c1, '<');
        assert(s_c1.out == Ok::<Option<EventV>, ParserErrorV>(None));
        assert(s_c1.m.data[0] == '/');
        let pm_c2 = crate::parser::tick(s_c1.m, '/');
        let s_c2 = crate::parser::step(pm_c2, '/');
        assert(s_c2.out == Ok::<Option<EventV>, ParserErrorV>(None));
        assert(s_c2.m.st matches crate::parser::State::InCloseTagName);
        assert(s_c2.m.buf == pm_f.buf);
        crate::codec::lemma_find_char_none(s_c2.m.buf, ':');
        lemma_no_default_lookup(pushed);
        assert(s_c2.m.data =~= name + seq!['>'] + rest);
        lemma_pump_close_name(s_c2.m, name, rest);
        assert(s_c2.m.buf + name =~= name);
        let (pm2, out2) = crate::parser::pump(s_c2.m);
        assert(crate::parser::pump(pm_f) == crate::parser::pump(s_c1.m));
        assert(crate::parser::pump(s_c1.m) == crate::parser::pump(s_c2.m));
        assert(out2 == Some(Ok::<EventV, ParserErrorV>(eev)));
        let (bm_end, bo2) = bstep(bm_f, eev);
        assert(bm_f.stack.drop_last() =~= Seq::<ElemV>::empty());
        assert(bo2 == Some(Ok::<ElemV, BuilderErrorV>(filled)));
        assert(drain(pm_f, bm_f) == Ok::<ElemV, BuilderErrorV>(filled));
    }
}


/// Rendering the element a plain tree builds gives exactly the tree's text,
/// whatever prefix table it carries, at the root or below a parent with no
/// default namespace.
proof fn lemma_render_built(
    t: EvTree,
    p: Map<Seq<char>, Seq<char>>,
    q: Map<Seq<char>, Seq<char>>,
    pd: Option<Option<Seq<char>>>,
)
    requires
        plain_tree(t),
        pd == None::<Option<Seq<char>>> || pd == Some(None::<Seq<char>>),
    ensures
        crate::element::render_elem(built_of(t, p, None), pd, q) == text_of(t),
    decreases t, 1int,
{
    let e = built_of(t, p, None);
    let all2 = q.union_prefer_right(e.prefixes);
    reveal_strlit("<");
    reveal_strlit("/>");
    reveal_strlit("</");
    reveal_strlit(">");
    assert(!crate::element::has_xmlns_attr(e.attributes));
    assert(crate::element::render_name(e, all2) == t.name);
    assert(crate::element::render_xmlns(e, pd) == Seq::<char>::empty());
    assert(crate::element::render_attrs(e.attributes, all2) == Seq::<char>::empty());
    if t.kids.len() == 0 {
        assert(e.children.len() == 0);
        assert(crate::element::render_elem(e, pd, q) =~= text_of(t));
    } else {
        assert(e.children.len() > 0);
        lemma_render_kids(t.kids, p, all2);
        assert(crate::element::render_children(e.children, e.default_ns, all2) == texts_of(
            t.kids,
        ));
        assert(crate::element::render_elem(e, pd, q) =~= text_of(t));
    }
}

/// Rendering the elements a plain forest builds gives the forest's texts.
proof fn lemma_render_kids(ts: Seq<EvTree>, p: Map<Seq<char>, Seq<char>>, all2: Map<Seq<char>, Seq<char>>)
    requires
        plain_forest(ts),
    ensures
        crate::element::render_children(built_kids(ts, p, None), None, all2) == texts_of(ts),
    decreases ts, 0int,
{
    if ts.len() == 0 {
        assert(built_kids(ts, p, None).len() == 0);
    } else {
        let ck = built_kids(ts, p, None);
        assert(ck[0] == XmlV::ElementNode(built_of(ts[0], p, None)));
        assert(ck.drop_first() =~= built_kids(ts.drop_first(), p, None));
        lemma_render_built(ts[0], p, all2, Some(None::<Seq<char>>));
        lemma_render_kids(ts.drop_first(), p, all2);
        assert(crate::element::render_children(ck, None, all2)
            == crate::element::render_node(ck[0], None, all2) + crate::element::render_children(
            ck.drop_first(),
            None,
            all2,
        ));
        assert(crate::element::render_node(ck[0], None, all2) == crate::element::render_elem(
            built_of(ts[0], p, None),
            Some(None::<Seq<char>>),
            all2,
        ));
        assert(texts_of(ts) == text_of(ts[0]) + texts_of(ts.drop_first()));
        assert(crate::element::render_children(ck, None, all2) =~= texts_of(ts));
    }
}

/// Round-trip law, shown for the trees of plainly named elements with no
/// attributes and no namespaces: rendering such a tree and parsing the text
/// back yields the same tree — name, namespace, attributes, and children in
/// document order — with only the prefix table, a cosmetic choice, exchanged
/// for the builder's own.
pub proof fn lemma_plain_tree_round_trip(t: EvTree, p: Map<Seq<char>, Seq<char>>)
    requires
        plain_tree(t),
    ensures
        ({
            let text = crate::element::render_elem(
                built_of(t, p, None),
                None,
                Map::<Seq<char>, Seq<char>>::empty(),
            );
            drain(
                crate::parser::ParserV { data: text, ..crate::parser::initial_parser() },
                initial_builder(),
            ) == Ok::<ElemV, BuilderErrorV>(built_of(t, initial_builder().prefixes, None))
        }),
{
    lemma_render_built(t, p, Map::<Seq<char>, Seq<char>>::empty(), None);
    let text = crate::element::render_elem(
        built_of(t, p, None),
        None,
        Map::<Seq<char>, Seq<char>>::empty(),
    );
    let pm0 = crate::parser::ParserV { data: text, ..crate::parser::initial_parser() };
    lemma_initial_no_default();
    assert(ready_tok(pm0));
    assert(pm0.data =~= text_of(t) + Seq::<char>::empty());
    lemma_tok_tree_root(pm0, initial_builder(), t, Seq::empty());
    assert(effective_default(initial_builder()) is None);
}

} // verus!
