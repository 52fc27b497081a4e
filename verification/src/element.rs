//! The element tree: the node data model the builder produces, its
//! accessors, and the serializer that renders a tree back to XML text with
//! minimal namespace declarations.

use crate::attrs::{attr_find, attrs_insert, AttrMap, AttrV};
use crate::codec::{escape, escape_seq};
use crate::strmap::StrMap;
use crate::strutil::{opt_str_string_eq, push_str_chars, str_eq};
use vstd::prelude::*;
use vstd::string::StringExecFns;

verus! {

broadcast use vstd::std_specs::vec::axiom_vec_index_decreases, vstd::seq::axiom_seq_index_decreases;

/// An XML node.
#[derive(Debug, PartialEq)]
pub enum Xml {
    /// An XML element.
    ElementNode(Element),
    /// Character data.
    CharacterNode(String),
    /// CDATA.
    CDATANode(String),
    /// An XML comment.
    CommentNode(String),
    /// Processing information.
    PINode(String),
}

/// An XML element: its name, resolved namespace, attributes, and children,
/// together with the prefix table and default namespace the serializer uses.
#[derive(Debug, PartialEq)]
pub struct Element {
    /// The element's name.
    pub name: String,
    /// The element's namespace.
    pub ns: Option<String>,
    /// The element's attributes.
    pub attributes: AttrMap,
    /// The element's child nodes.
    pub children: Vec<Xml>,
    /// The prefixes set for known namespaces.
    pub prefixes: StrMap,
    /// The element's default namespace, as the serializer uses it.
    pub default_ns: Option<String>,
}

/// The mathematical image of a node.
#[verifier::ext_equal]
pub enum XmlV {
    /// An element.
    ElementNode(ElemV),
    /// Character data.
    CharacterNode(Seq<char>),
    /// CDATA.
    CDATANode(Seq<char>),
    /// A comment.
    CommentNode(Seq<char>),
    /// Processing information.
    PINode(Seq<char>),
}

/// The mathematical image of an element.
#[verifier::ext_equal]
pub struct ElemV {
    /// The element's name.
    pub name: Seq<char>,
    /// The element's namespace.
    pub ns: Option<Seq<char>>,
    /// The element's attributes, in document order.
    pub attributes: Seq<AttrV>,
    /// The element's children, in document order.
    pub children: Seq<XmlV>,
    /// The prefix bound to each known namespace.
    pub prefixes: Map<Seq<char>, Seq<char>>,
    /// The element's default namespace.
    pub default_ns: Option<Seq<char>>,
}

/// The images of the first `n` children.
pub open spec fn children_view(v: Vec<Xml>, n: int) -> Seq<XmlV>
    decreases v, n,
{
    if n <= 0 || n > v.len() {
        Seq::empty()
    } else {
        children_view(v, n - 1).push(xml_view(v[n - 1]))
    }
}

/// The image of an element.
pub open spec fn elem_view(e: Element) -> ElemV
    decreases e,
{
    ElemV {
        name: e.name@,
        ns: e.ns.deep_view(),
        attributes: e.attributes@,
        children: children_view(e.children, e.children.len() as int),
        prefixes: e.prefixes@,
        default_ns: e.default_ns.deep_view(),
    }
}

/// The image of a node.
pub open spec fn xml_view(x: Xml) -> XmlV
    decreases x,
{
    match x {
        Xml::ElementNode(e) => XmlV::ElementNode(elem_view(e)),
        Xml::CharacterNode(s) => XmlV::CharacterNode(s@),
        Xml::CDATANode(s) => XmlV::CDATANode(s@),
        Xml::CommentNode(s) => XmlV::CommentNode(s@),
        Xml::PINode(s) => XmlV::PINode(s@),
    }
}

impl View for Element {
    type V = ElemV;

    open spec fn view(&self) -> ElemV {
        elem_view(*self)
    }
}

impl DeepView for Element {
    type V = ElemV;

    open spec fn deep_view(&self) -> ElemV {
        elem_view(*self)
    }
}

impl View for Xml {
    type V = XmlV;

    open spec fn view(&self) -> XmlV {
        xml_view(*self)
    }
}

impl DeepView for Xml {
    type V = XmlV;

    open spec fn deep_view(&self) -> XmlV {
        xml_view(*self)
    }
}

pub proof fn lemma_children_view(v: Vec<Xml>, n: int)
    requires
        0 <= n <= v.len(),
    ensures
        children_view(v, n).len() == n,
        forall|i: int| 0 <= i < n ==> children_view(v, n)[i] == xml_view(v[i]),
    decreases n,
{
    if n > 0 {
        lemma_children_view(v, n - 1);
    }
}

/// The character and CDATA content of a node sequence, in document order.
pub open spec fn children_content(s: Seq<XmlV>) -> Seq<char>
    decreases s,
{
    if s.len() == 0 {
        Seq::empty()
    } else {
        xml_content(s[0]) + children_content(s.drop_first())
    }
}

/// The character and CDATA content of one node: elements contribute their own
/// content recursively, comments and processing instructions nothing.
pub open spec fn xml_content(x: XmlV) -> Seq<char>
    decreases x,
{
    match x {
        XmlV::ElementNode(e) => children_content(e.children),
        XmlV::CharacterNode(s) => s,
        XmlV::CDATANode(s) => s,
        XmlV::CommentNode(_) => Seq::empty(),
        XmlV::PINode(_) => Seq::empty(),
    }
}

/// The images of the first elements among a node sequence whose name and
/// namespace match, in document order.
pub open spec fn filter_children(s: Seq<XmlV>, name: Seq<char>, ns: Option<Seq<char>>) -> Seq<
    ElemV,
>
    decreases s.len(),
{
    if s.len() == 0 {
        Seq::empty()
    } else {
        let rest = filter_children(s.drop_first(), name, ns);
        match s[0] {
            XmlV::ElementNode(e) => if e.name == name && e.ns == ns {
                seq![e] + rest
            } else {
                rest
            },
            _ => rest,
        }
    }
}

impl Element {
    /// Create a new `Element`, with specified name and namespace.
    /// Attributes are specified as a `Vec` of `(name, namespace, value)`
    /// tuples; the namespace also becomes the element's default namespace.
    #[verifier::loop_isolation(false)]
    pub fn new(name: String, ns: Option<String>, attrs: Vec<(String, Option<String>, String)>) -> (r:
        Element)
        ensures
            r@.name == name@,
            r@.ns == ns.deep_view(),
            r@.default_ns == ns.deep_view(),
            r@.prefixes == Map::<Seq<char>, Seq<char>>::empty().insert(
                "http://www.w3.org/XML/1998/namespace"@,
                "xml"@,
            ).insert("http://www.w3.org/2000/xmlns/"@, "xmlns"@),
            r@.attributes == attrs_from_list(attrs.deep_view()),
            r@.children == Seq::<XmlV>::empty(),
    {
        let mut prefixes = StrMap::new();
        prefixes.insert(
            String::from_str("http://www.w3.org/XML/1998/namespace"),
            String::from_str("xml"),
        );
        prefixes.insert(
            String::from_str("http://www.w3.org/2000/xmlns/"),
            String::from_str("xmlns"),
        );
        let mut attributes = AttrMap::new();
        let mut i: usize = 0;
        proof {
            assert(attrs.deep_view().take(0) =~= Seq::<(Seq<char>, Option<Seq<char>>, Seq<
                char,
            >)>::empty());
        }
        while i < attrs.len()
            invariant
                0 <= i <= attrs@.len(),
                attributes@ == attrs_from_list(attrs.deep_view().take(i as int)),
            decreases attrs@.len() - i,
        {
            let (an, ans, av) = (attrs[i].0.clone(), crate::strutil::opt_string_clone(&attrs[i].1), attrs[i].2.clone());
            attributes.insert(an, ans, av);
            proof {
                let t = attrs.deep_view().take(i as int + 1);
                assert(t.drop_last() =~= attrs.deep_view().take(i as int));
                assert(attrs.deep_view()[i as int] == attrs@[i as int].deep_view());
                assert(attributes@ =~= attrs_from_list(t));
            }
            i += 1;
        }
        proof {
            assert(attrs.deep_view().take(attrs@.len() as int) =~= attrs.deep_view());
        }
        let dns = crate::strutil::opt_string_clone(&ns);
        let r = Element {
            name,
            ns,
            default_ns: dns,
            prefixes,
            attributes,
            children: Vec::new(),
        };
        proof {
            assert(children_view(r.children, 0) =~= Seq::<XmlV>::empty());
        }
        r
    }

    /// Returns the character and CDATA contained in the element.
    #[verifier::loop_isolation(false)]
    pub fn content_str(&self) -> (r: String)
        ensures
            r@ == children_content(self@.children),
        decreases *self,
    {
        let mut res: Vec<char> = Vec::new();
        let ghost cv = self@.children;
        proof {
            lemma_children_view(self.children, self.children.len() as int);
            assert(cv.skip(0) =~= cv);
        }
        let mut i: usize = 0;
        while i < self.children.len()
            invariant
                0 <= i <= self.children@.len(),
                res@ + children_content(cv.skip(i as int)) == children_content(cv),
            decreases self.children@.len() - i,
        {
            let ghost rest = cv.skip(i as int);
            let ghost r0 = res@;
            proof {
                assert(rest[0] == cv[i as int]);
                assert(rest.drop_first() =~= cv.skip(i as int + 1));
                assert(children_content(rest) == xml_content(rest[0]) + children_content(
                    rest.drop_first(),
                ));
            }
            match &self.children[i] {
                Xml::ElementNode(e) => {
                    let sub = e.content_str();
                    push_str_chars(&mut res, sub.as_str());
                    proof {
                        assert(rest[0] == XmlV::ElementNode(elem_view(*e)));
                        assert(res@ =~= r0 + xml_content(rest[0]));
                    }
                },
                Xml::CharacterNode(s) => {
                    push_str_chars(&mut res, s.as_str());
                    proof {
                        assert(rest[0] == XmlV::CharacterNode(s@));
                        assert(res@ =~= r0 + xml_content(rest[0]));
                    }
                },
                Xml::CDATANode(s) => {
                    push_str_chars(&mut res, s.as_str());
                    proof {
                        assert(rest[0] == XmlV::CDATANode(s@));
                        assert(res@ =~= r0 + xml_content(rest[0]));
                    }
                },
                Xml::CommentNode(_) => {
                    proof {
                        assert(xml_content(rest[0]) == Seq::<char>::empty());
                        assert(res@ =~= r0 + xml_content(rest[0]));
                    }
                },
                Xml::PINode(_) => {
                    proof {
                        assert(xml_content(rest[0]) == Seq::<char>::empty());
                        assert(res@ =~= r0 + xml_content(rest[0]));
                    }
                },
            }
            proof {
                assert(res@ + children_content(cv.skip(i as int + 1)) =~= children_content(cv));
            }
            i += 1;
        }
        proof {
            assert(cv.skip(cv.len() as int) =~= Seq::<XmlV>::empty());
            assert(res@ =~= children_content(cv));
        }
        crate::strutil::chars_to_string(&res)
    }

    /// Gets an attribute with the specified name and namespace. When an
    /// attribute with the specified name does not exist `None` is returned.
    pub fn get_attribute<'a>(&'a self, name: &str, ns: Option<&str>) -> (r: Option<&'a str>)
        ensures
            match attr_find(self@.attributes, name@, ns.deep_view()) {
                Some(i) => r matches Some(v) && v@ == self@.attributes[i].value,
                None => r is None,
            },
    {
        self.attributes.get(name, ns)
    }

    /// Sets the attribute with the specified name and namespace.
    /// Returns the original value.
    pub fn set_attribute(&mut self, name: String, ns: Option<String>, value: String) -> (r: Option<
        String,
    >)
        ensures
            final(self)@ == (ElemV {
                attributes: attrs_insert(
                    old(self)@.attributes,
                    AttrV { name: name@, ns: ns.deep_view(), value: value@ },
                ),
                ..old(self)@
            }),
            match attr_find(old(self)@.attributes, name@, ns.deep_view()) {
                Some(i) => r matches Some(v) && v@ == old(self)@.attributes[i].value,
                None => r is None,
            },
    {
        let r = self.attributes.insert(name, ns, value);
        proof {
            assert(self@ =~~= (ElemV { attributes: self@.attributes, ..old(self)@ }));
        }
        r
    }

    /// Remove the attribute with the specified name and namespace.
    /// Returns the original value.
    pub fn remove_attribute(&mut self, name: &str, ns: Option<&str>) -> (r: Option<String>)
        ensures
            match attr_find(old(self)@.attributes, name@, ns.deep_view()) {
                Some(i) => final(self)@ == (ElemV {
                    attributes: old(self)@.attributes.remove(i),
                    ..old(self)@
                }) && (r matches Some(v) && v@ == old(self)@.attributes[i].value),
                None => final(self)@ == old(self)@ && r is None,
            },
    {
        let r = self.attributes.remove(name, ns);
        proof {
            assert(self@ =~~= (ElemV { attributes: self@.attributes, ..old(self)@ }));
        }
        r
    }

    /// Appends a child element.
    pub fn tag(&mut self, child: Element)
        ensures
            final(self)@ == (ElemV {
                children: old(self)@.children.push(XmlV::ElementNode(child@)),
                ..old(self)@
            }),
    {
        let ghost n0 = self.children.len() as int;
        self.children.push(Xml::ElementNode(child));
        proof {
            lemma_children_view(self.children, self.children.len() as int);
            lemma_children_view(old(self).children, n0);
            assert(self@.children =~= old(self)@.children.push(XmlV::ElementNode(child@)));
            assert(self@ =~~= (ElemV {
                children: old(self)@.children.push(XmlV::ElementNode(child@)),
                ..old(self)@
            }));
        }
    }

    /// Appends a child element; where [`Element::tag`] hands the caller
    /// nothing back, this keeps the element available for further appends.
    pub fn tag_stay(&mut self, child: Element)
        ensures
            final(self)@ == (ElemV {
                children: old(self)@.children.push(XmlV::ElementNode(child@)),
                ..old(self)@
            }),
    {
        self.tag(child)
    }

    /// Appends characters.
    pub fn text(&mut self, text: String)
        ensures
            final(self)@ == (ElemV {
                children: old(self)@.children.push(XmlV::CharacterNode(text@)),
                ..old(self)@
            }),
    {
        let ghost n0 = self.children.len() as int;
        self.children.push(Xml::CharacterNode(text));
        proof {
            lemma_children_view(self.children, self.children.len() as int);
            lemma_children_view(old(self).children, n0);
            assert(self@.children =~= old(self)@.children.push(
                self@.children[self@.children.len() - 1],
            ));
            assert(self@ =~~= (ElemV {
                children: self@.children,
                ..old(self)@
            }));
        }
    }

    /// Appends CDATA.
    pub fn cdata(&mut self, text: String)
        ensures
            final(self)@ == (ElemV {
                children: old(self)@.children.push(XmlV::CDATANode(text@)),
                ..old(self)@
            }),
    {
        let ghost n0 = self.children.len() as int;
        self.children.push(Xml::CDATANode(text));
        proof {
            lemma_children_view(self.children, self.children.len() as int);
            lemma_children_view(old(self).children, n0);
            assert(self@.children =~= old(self)@.children.push(
                self@.children[self@.children.len() - 1],
            ));
            assert(self@ =~~= (ElemV { children: self@.children, ..old(self)@ }));
        }
    }

    /// Appends a comment.
    pub fn comment(&mut self, text: String)
        ensures
            final(self)@ == (ElemV {
                children: old(self)@.children.push(XmlV::CommentNode(text@)),
                ..old(self)@
            }),
    {
        let ghost n0 = self.children.len() as int;
        self.children.push(Xml::CommentNode(text));
        proof {
            lemma_children_view(self.children, self.children.len() as int);
            lemma_children_view(old(self).children, n0);
            assert(self@.children =~= old(self)@.children.push(
                self@.children[self@.children.len() - 1],
            ));
            assert(self@ =~~= (ElemV { children: self@.children, ..old(self)@ }));
        }
    }

    /// Appends processing information.
    pub fn pi(&mut self, text: String)
        ensures
            final(self)@ == (ElemV {
                children: old(self)@.children.push(XmlV::PINode(text@)),
                ..old(self)@
            }),
    {
        let ghost n0 = self.children.len() as int;
        self.children.push(Xml::PINode(text));
        proof {
            lemma_children_view(self.children, self.children.len() as int);
            lemma_children_view(old(self).children, n0);
            assert(self@.children =~= old(self)@.children.push(
                self@.children[self@.children.len() - 1],
            ));
            assert(self@ =~~= (ElemV { children: self@.children, ..old(self)@ }));
        }
    }
}

/// The attribute list a `(name, namespace, value)` list denotes, inserted in
/// order with replacement on a repeated key.
pub open spec fn attrs_from_list(l: Seq<(Seq<char>, Option<Seq<char>>, Seq<char>)>) -> Seq<AttrV>
    decreases l.len(),
{
    if l.len() == 0 {
        Seq::empty()
    } else {
        attrs_insert(
            attrs_from_list(l.drop_last()),
            AttrV { name: l.last().0, ns: l.last().1, value: l.last().2 },
        )
    }
}

/// The images of the first elements among a node sequence with a given name,
/// in any namespace, in document order.
pub open spec fn filter_children_named(s: Seq<XmlV>, name: Seq<char>) -> Seq<ElemV>
    decreases s.len(),
{
    if s.len() == 0 {
        Seq::empty()
    } else {
        let rest = filter_children_named(s.drop_first(), name);
        match s[0] {
            XmlV::ElementNode(e) => if e.name == name {
                seq![e] + rest
            } else {
                rest
            },
            _ => rest,
        }
    }
}

/// The filtered child elements of another element, in document order.
pub struct ChildElements<'a> {
    /// The matching children.
    pub elems: Vec<&'a Element>,
}

impl Element {
    /// Get all child elements with the specified name and namespace. When no
    /// child with the specified name exists an empty vector is returned.
    #[verifier::loop_isolation(false)]
    pub fn children_with_name_and_ns<'a>(&'a self, name: &str, ns: Option<&str>) -> (r: Vec<
        &'a Element,
    >)
        ensures
            r.deep_view() == filter_children(self@.children, name@, ns.deep_view()),
    {
        let ghost cv = self@.children;
        proof {
            lemma_children_view(self.children, self.children.len() as int);
            assert(cv.skip(0) =~= cv);
        }
        let mut r: Vec<&'a Element> = Vec::new();
        let mut i: usize = 0;
        while i < self.children.len()
            invariant
                0 <= i <= self.children@.len(),
                r.deep_view() + filter_children(cv.skip(i as int), name@, ns.deep_view())
                    == filter_children(cv, name@, ns.deep_view()),
            decreases self.children@.len() - i,
        {
            let ghost rest = cv.skip(i as int);
            let ghost r0 = r.deep_view();
            proof {
                assert(rest[0] == cv[i as int]);
                assert(rest.drop_first() =~= cv.skip(i as int + 1));
            }
            match &self.children[i] {
                Xml::ElementNode(e) => {
                    if str_eq(e.name.as_str(), name) && opt_str_string_eq(ns, &e.ns) {
                        r.push(e);
                        proof {
                            assert(rest[0] == XmlV::ElementNode(elem_view(*e)));
                            assert(r.deep_view() =~= r0 + seq![elem_view(*e)]);
                            assert(r.deep_view() + filter_children(
                                cv.skip(i as int + 1),
                                name@,
                                ns.deep_view(),
                            ) =~= filter_children(cv, name@, ns.deep_view()));
                        }
                    } else {
                        proof {
                            assert(rest[0] == XmlV::ElementNode(elem_view(*e)));
                        }
                    }
                },
                _ => {},
            }
            i += 1;
        }
        proof {
            assert(cv.skip(cv.len() as int) =~= Seq::<XmlV>::empty());
            assert(r.deep_view() =~= filter_children(cv, name@, ns.deep_view()));
        }
        r
    }

    /// Get all children `Element` with the specified name and namespace.
    /// When no child with the specified name exists an empty vector is
    /// returned.
    pub fn get_children<'a>(&'a self, name: &str, ns: Option<&str>) -> (r: ChildElements<'a>)
        ensures
            r.elems.deep_view() == filter_children(self@.children, name@, ns.deep_view()),
    {
        ChildElements { elems: self.children_with_name_and_ns(name, ns) }
    }

    /// Gets the first child `Element` with the specified name and namespace.
    /// When no child with the specified name exists `None` is returned.
    pub fn get_child<'a>(&'a self, name: &str, ns: Option<&str>) -> (r: Option<&'a Element>)
        ensures
            ({
                let f = filter_children(self@.children, name@, ns.deep_view());
                match r {
                    Some(e) => f.len() > 0 && e@ == f[0],
                    None => f.len() == 0,
                }
            }),
    {
        let all = self.children_with_name_and_ns(name, ns);
        if all.len() == 0 {
            None
        } else {
            proof {
                assert(all.deep_view()[0] == all@[0].deep_view());
            }
            Some(all[0])
        }
    }

    /// Gets the first child `Element` with the specified name and namespace.
    pub fn child_with_name_and_ns<'a>(&'a self, name: &str, ns: Option<&str>) -> (r: Option<
        &'a Element,
    >)
        ensures
            ({
                let f = filter_children(self@.children, name@, ns.deep_view());
                match r {
                    Some(e) => f.len() > 0 && e@ == f[0],
                    None => f.len() == 0,
                }
            }),
    {
        self.get_child(name, ns)
    }

    /// Get all children `Element` with the specified name, in any namespace.
    #[verifier::loop_isolation(false)]
    pub fn children_with_name<'a>(&'a self, name: &str) -> (r: Vec<&'a Element>)
        ensures
            r.deep_view() == filter_children_named(self@.children, name@),
    {
        let ghost cv = self@.children;
        proof {
            lemma_children_view(self.children, self.children.len() as int);
            assert(cv.skip(0) =~= cv);
        }
        let mut r: Vec<&'a Element> = Vec::new();
        let mut i: usize = 0;
        while i < self.children.len()
            invariant
                0 <= i <= self.children@.len(),
                r.deep_view() + filter_children_named(cv.skip(i as int), name@)
                    == filter_children_named(cv, name@),
            decreases self.children@.len() - i,
        {
            let ghost rest = cv.skip(i as int);
            let ghost r0 = r.deep_view();
            proof {
                assert(rest[0] == cv[i as int]);
                assert(rest.drop_first() =~= cv.skip(i as int + 1));
            }
            match &self.children[i] {
                Xml::ElementNode(e) => {
                    if str_eq(e.name.as_str(), name) {
                        r.push(e);
                        proof {
                            assert(rest[0] == XmlV::ElementNode(elem_view(*e)));
                            assert(r.deep_view() =~= r0 + seq![elem_view(*e)]);
                            assert(r.deep_view() + filter_children_named(
                                cv.skip(i as int + 1),
                                name@,
                            ) =~= filter_children_named(cv, name@));
                        }
                    } else {
                        proof {
                            assert(rest[0] == XmlV::ElementNode(elem_view(*e)));
                        }
                    }
                },
                _ => {},
            }
            i += 1;
        }
        proof {
            assert(cv.skip(cv.len() as int) =~= Seq::<XmlV>::empty());
            assert(r.deep_view() =~= filter_children_named(cv, name@));
        }
        r
    }

    /// Gets the first child `Element` with the specified name, in any
    /// namespace.
    pub fn child_with_name<'a>(&'a self, name: &str) -> (r: Option<&'a Element>)
        ensures
            ({
                let f = filter_children_named(self@.children, name@);
                match r {
                    Some(e) => f.len() > 0 && e@ == f[0],
                    None => f.len() == 0,
                }
            }),
    {
        let all = self.children_with_name(name);
        if all.len() == 0 {
            None
        } else {
            proof {
                assert(all.deep_view()[0] == all@[0].deep_view());
            }
            Some(all[0])
        }
    }

    /// Gets the first attribute with the specified name, in any namespace.
    pub fn attribute_with_name<'a>(&'a self, name: &str) -> (r: Option<&'a crate::attrs::Attribute>)
        ensures
            match crate::attrs::attr_find_named(self@.attributes, name@) {
                Some(i) => r matches Some(a) && a@ == self@.attributes[i],
                None => r is None,
            },
    {
        self.attributes.first_named(name)
    }

    /// Gets the attribute with the specified name and namespace.
    pub fn attribute_with_name_and_ns<'a>(&'a self, name: &str, ns: Option<&str>) -> (r: Option<
        &'a crate::attrs::Attribute,
    >)
        ensures
            match attr_find(self@.attributes, name@, ns.deep_view()) {
                Some(i) => r matches Some(a) && a@ == self@.attributes[i],
                None => r is None,
            },
    {
        self.attributes.entry_for(name, ns)
    }
}

/// The key an element's namespace is looked up under in the prefix table:
/// the namespace itself, or the empty string for none.
pub open spec fn ns_lookup_key(ns: Option<Seq<char>>) -> Seq<char> {
    match ns {
        Some(s) => s,
        None => Seq::empty(),
    }
}

/// Whether the attributes hold a literal `xmlns`, which suppresses the
/// generated declaration.
pub open spec fn has_xmlns_attr(attrs: Seq<AttrV>) -> bool {
    exists|i: int| 0 <= i < attrs.len() && (#[trigger] attrs[i]).name == "xmlns"@
}

/// The rendered form of one attribute.
pub open spec fn render_attr(a: AttrV, all2: Map<Seq<char>, Seq<char>>) -> Seq<char> {
    match a.ns {
        Some(ns) => " "@ + all2[ns] + ":"@ + a.name + "='"@ + escape_seq(a.value) + "'"@,
        None => " "@ + a.name + "='"@ + escape_seq(a.value) + "'"@,
    }
}

/// The rendered form of an attribute list, in document order.
pub open spec fn render_attrs(attrs: Seq<AttrV>, all2: Map<Seq<char>, Seq<char>>) -> Seq<char>
    decreases attrs.len(),
{
    if attrs.len() == 0 {
        Seq::empty()
    } else {
        render_attr(attrs[0], all2) + render_attrs(attrs.drop_first(), all2)
    }
}

/// The tag name as printed: prefixed when the element's namespace differs
/// from its default namespace.
pub open spec fn render_name(e: ElemV, all2: Map<Seq<char>, Seq<char>>) -> Seq<char> {
    if e.ns != e.default_ns {
        all2[ns_lookup_key(e.ns)] + ":"@ + e.name
    } else {
        e.name
    }
}

/// The generated `xmlns` declaration: at the root, whenever a default
/// namespace is set; below, whenever it differs from the parent's.
pub open spec fn render_xmlns(e: ElemV, parent_default: Option<Option<Seq<char>>>) -> Seq<char> {
    if has_xmlns_attr(e.attributes) {
        Seq::empty()
    } else {
        match parent_default {
            None => match e.default_ns {
                Some(d) => " xmlns='"@ + d + "'"@,
                None => Seq::empty(),
            },
            Some(pd) => if pd != e.default_ns {
                " xmlns='"@ + ns_lookup_key(e.default_ns) + "'"@
            } else {
                Seq::empty()
            },
        }
    }
}

/// The rendered form of an element, given the parent's default namespace
/// (`None` at the root) and the prefix table accumulated from its ancestors.
pub open spec fn render_elem(
    e: ElemV,
    parent_default: Option<Option<Seq<char>>>,
    prefixes: Map<Seq<char>, Seq<char>>,
) -> Seq<char>
    decreases e,
{
    let all2 = prefixes.union_prefer_right(e.prefixes);
    let head = "<"@ + render_name(e, all2) + render_xmlns(e, parent_default) + render_attrs(
        e.attributes,
        all2,
    );
    if e.children.len() == 0 {
        head + "/>"@
    } else {
        head + ">"@ + render_children(e.children, e.default_ns, all2) + "</"@ + render_name(
            e,
            all2,
        ) + ">"@
    }
}

/// The rendered forms of a node sequence, in document order.
pub open spec fn render_children(
    s: Seq<XmlV>,
    parent_default: Option<Seq<char>>,
    all2: Map<Seq<char>, Seq<char>>,
) -> Seq<char>
    decreases s,
{
    if s.len() == 0 {
        Seq::empty()
    } else {
        render_node(s[0], parent_default, all2) + render_children(
            s.drop_first(),
            parent_default,
            all2,
        )
    }
}

/// The rendered form of one node below an element: text is escaped; CDATA,
/// comment, and processing-instruction bodies are emitted verbatim inside
/// their delimiters.
pub open spec fn render_node(
    x: XmlV,
    parent_default: Option<Seq<char>>,
    all2: Map<Seq<char>, Seq<char>>,
) -> Seq<char>
    decreases x,
{
    match x {
        XmlV::ElementNode(e) => render_elem(e, Some(parent_default), all2),
        XmlV::CharacterNode(s) => escape_seq(s),
        XmlV::CDATANode(s) => "<![CDATA["@ + s + "]]>"@,
        XmlV::CommentNode(s) => "<!--"@ + s + "-->"@,
        XmlV::PINode(s) => "<?"@ + s + "?>"@,
    }
}

/// Whether every namespace the serializer must print a prefix for is bound
/// in the prefix table in scope. Rendering is defined only on such trees.
pub open spec fn renderable_elem(e: ElemV, prefixes: Map<Seq<char>, Seq<char>>) -> bool
    decreases e,
{
    let all2 = prefixes.union_prefer_right(e.prefixes);
    &&& (e.ns != e.default_ns ==> all2.contains_key(ns_lookup_key(e.ns)))
    &&& (forall|i: int|
        0 <= i < e.attributes.len() ==> ((#[trigger] e.attributes[i]).ns matches Some(ns)
            ==> all2.contains_key(ns)))
    &&& renderable_children(e.children, all2)
}

/// Whether every node of a sequence is renderable under the given table.
pub open spec fn renderable_children(s: Seq<XmlV>, all2: Map<Seq<char>, Seq<char>>) -> bool
    decreases s,
{
    if s.len() == 0 {
        true
    } else {
        renderable_node(s[0], all2) && renderable_children(s.drop_first(), all2)
    }
}

/// Whether one node is renderable under the given table.
pub open spec fn renderable_node(x: XmlV, all2: Map<Seq<char>, Seq<char>>) -> bool
    decreases x,
{
    match x {
        XmlV::ElementNode(e) => renderable_elem(e, all2),
        _ => true,
    }
}

proof fn lemma_renderable_children_index(s: Seq<XmlV>, all2: Map<Seq<char>, Seq<char>>, i: int)
    requires
        renderable_children(s, all2),
        0 <= i < s.len(),
    ensures
        renderable_node(s[i], all2),
    decreases i,
{
    if i > 0 {
        lemma_renderable_children_index(s.drop_first(), all2, i - 1);
        assert(s.drop_first()[i - 1] == s[i]);
    }
}

/// Appends the rendered attributes onto `out`.
#[verifier::loop_isolation(false)]
fn render_attrs_into(attrs: &AttrMap, all2: &StrMap, out: &mut Vec<char>)
    requires
        forall|i: int|
            0 <= i < attrs@.len() ==> ((#[trigger] attrs@[i]).ns matches Some(ns)
                ==> all2@.contains_key(ns)),
    ensures
        final(out)@ == old(out)@ + render_attrs(attrs@, all2@),
{
    let ghost av = attrs@;
    proof {
        assert(av.skip(0) =~= av);
    }
    let n = attrs.len();
    let mut i: usize = 0;
    while i < n
        invariant
            0 <= i <= n,
            n == av.len(),
            old(out)@ + render_attrs(av, all2@) == out@ + render_attrs(av.skip(i as int), all2@),
        decreases n - i,
    {
        let ghost rest = av.skip(i as int);
        let ghost o0 = out@;
        proof {
            assert(rest[0] == av[i as int]);
            assert(rest.drop_first() =~= av.skip(i as int + 1));
            assert(render_attrs(rest, all2@) == render_attr(rest[0], all2@) + render_attrs(
                rest.drop_first(),
                all2@,
            ));
        }
        let a = attrs.entry_at(i);
        out.push(' ');
        match &a.ns {
            Some(ns_s) => {
                let p = match all2.get(ns_s) {
                    Some(p) => p,
                    None => unreached(),
                };
                push_str_chars(out, p.as_str());
                out.push(':');
            },
            None => {},
        }
        push_str_chars(out, a.name.as_str());
        push_str_chars(out, "='");
        let esc = escape(a.value.as_str());
        push_str_chars(out, esc.as_str());
        out.push('\'');
        proof {
            reveal_strlit(" ");
            assert(" "@ =~= seq![' ']);
            reveal_strlit(":");
            assert(":"@ =~= seq![':']);
            reveal_strlit("'");
            assert("'"@ =~= seq!['\'']);
            assert(out@ =~= o0 + render_attr(rest[0], all2@));
            assert(old(out)@ + render_attrs(av, all2@) =~= out@ + render_attrs(
                av.skip(i as int + 1),
                all2@,
            ));
        }
        i += 1;
    }
    proof {
        assert(av.skip(n as int) =~= Seq::<AttrV>::empty());
        assert(out@ =~= old(out)@ + render_attrs(av, all2@));
    }
}

/// Appends the rendered form of one node onto `out`.
fn render_node_into(x: &Xml, parent_default: &Option<String>, all2: &StrMap, out: &mut Vec<char>)
    requires
        renderable_node(x@, all2@),
    ensures
        final(out)@ == old(out)@ + render_node(x@, parent_default.deep_view(), all2@),
    decreases *x,
{
    match x {
        Xml::ElementNode(e) => {
            render_elem_into(e, Some(parent_default), all2, out);
        },
        Xml::CharacterNode(s) => {
            let esc = escape(s.as_str());
            push_str_chars(out, esc.as_str());
        },
        Xml::CDATANode(s) => {
            push_str_chars(out, "<![CDATA[");
            push_str_chars(out, s.as_str());
            push_str_chars(out, "]]>");
            proof {
                assert(out@ =~= old(out)@ + ("<![CDATA["@ + s@ + "]]>"@));
            }
        },
        Xml::CommentNode(s) => {
            push_str_chars(out, "<!--");
            push_str_chars(out, s.as_str());
            push_str_chars(out, "-->");
            proof {
                assert(out@ =~= old(out)@ + ("<!--"@ + s@ + "-->"@));
            }
        },
        Xml::PINode(s) => {
            push_str_chars(out, "<?");
            push_str_chars(out, s.as_str());
            push_str_chars(out, "?>");
            proof {
                assert(out@ =~= old(out)@ + ("<?"@ + s@ + "?>"@));
            }
        },
    }
}

/// Appends the rendered form of an element onto `out`.
#[verifier::loop_isolation(false)]
#[verifier::rlimit(100)]
fn render_elem_into(
    e: &Element,
    parent_default: Option<&Option<String>>,
    prefixes: &StrMap,
    out: &mut Vec<char>,
)
    requires
        renderable_elem(elem_view(*e), prefixes@),
    ensures
        final(out)@ == old(out)@ + render_elem(
            elem_view(*e),
            pd_view(parent_default),
            prefixes@,
        ),
    decreases *e,
{
    let ghost ev = elem_view(*e);
    let ghost pdv = pd_view(parent_default);
    let all2 = prefixes.merge(&e.prefixes);
    proof {
        assert(all2@ == prefixes@.union_prefer_right(ev.prefixes));
        lemma_children_view(e.children, e.children.len() as int);
    }
    out.push('<');
    let needs_prefix = !crate::strutil::opt_string_eq(&e.ns, &e.default_ns);
    if needs_prefix {
        let p = match &e.ns {
            Some(s) => all2.get(s),
            None => {
                let empty = String::new();
                all2.get(&empty)
            },
        };
        let p = match p {
            Some(p) => p,
            None => unreached(),
        };
        push_str_chars(out, p.as_str());
        out.push(':');
        push_str_chars(out, e.name.as_str());
        proof {
            reveal_strlit(":");
            assert(":"@ =~= seq![':']);
            assert(out@ =~= old(out)@ + (seq!['<'] + render_name(ev, all2@)));
        }
    } else {
        push_str_chars(out, e.name.as_str());
        proof {
            assert(out@ =~= old(out)@ + (seq!['<'] + render_name(ev, all2@)));
        }
    }
    let ghost after_name = out@;
    // the xmlns declaration
    if !e.attributes.any_named("xmlns") {
        match parent_default {
            None => {
                match &e.default_ns {
                    Some(d) => {
                        push_str_chars(out, " xmlns='");
                        push_str_chars(out, d.as_str());
                        out.push('\'');
                        proof {
                            reveal_strlit("'");
            assert("'"@ =~= seq!['\'']);
                            assert(out@ =~= after_name + render_xmlns(ev, pdv));
                        }
                    },
                    None => {
                        proof {
                            assert(out@ =~= after_name + render_xmlns(ev, pdv));
                        }
                    },
                }
            },
            Some(pd) => {
                if !crate::strutil::opt_string_eq(pd, &e.default_ns) {
                    push_str_chars(out, " xmlns='");
                    match &e.default_ns {
                        Some(d) => {
                            push_str_chars(out, d.as_str());
                        },
                        None => {},
                    }
                    out.push('\'');
                    proof {
                        reveal_strlit("'");
            assert("'"@ =~= seq!['\'']);
                        assert(out@ =~= after_name + render_xmlns(ev, pdv));
                    }
                } else {
                    proof {
                        assert(out@ =~= after_name + render_xmlns(ev, pdv));
                    }
                }
            },
        }
    } else {
        proof {
            assert(out@ =~= after_name + render_xmlns(ev, pdv));
        }
    }
    render_attrs_into(&e.attributes, &all2, out);
    let ghost head = "<"@ + render_name(ev, all2@) + render_xmlns(ev, pdv) + render_attrs(
        ev.attributes,
        all2@,
    );
    proof {
        reveal_strlit("<");
        assert("<"@ =~= seq!['<']);
        assert(out@ =~= old(out)@ + head);
    }
    if e.children.len() == 0 {
        push_str_chars(out, "/>");
        proof {
            assert(out@ =~= old(out)@ + render_elem(ev, pdv, prefixes@));
        }
    } else {
        out.push('>');
        let ghost cv = ev.children;
        proof {
            assert(cv.skip(0) =~= cv);
        }
        let mut i: usize = 0;
        while i < e.children.len()
            invariant
                0 <= i <= e.children@.len(),
                out@ == old(out)@ + head + seq!['>'] + render_children(
                    cv.take(i as int),
                    ev.default_ns,
                    all2@,
                ),
            decreases e.children@.len() - i,
        {
            let ghost o0 = out@;
            proof {
                lemma_renderable_children_index(cv, all2@, i as int);
                assert(cv[i as int] == xml_view(e.children[i as int]));
            }
            render_node_into(&e.children[i], &e.default_ns, &all2, out);
            proof {
                lemma_render_children_take(cv, ev.default_ns, all2@, i as int);
                assert(out@ =~= old(out)@ + head + seq!['>'] + render_children(
                    cv.take(i as int + 1),
                    ev.default_ns,
                    all2@,
                ));
            }
            i += 1;
        }
        proof {
            assert(cv.take(cv.len() as int) =~= cv);
        }
        push_str_chars(out, "</");
        if needs_prefix {
            let p = match &e.ns {
                Some(s) => all2.get(s),
                None => {
                    let empty = String::new();
                    all2.get(&empty)
                },
            };
            let p = match p {
                Some(p) => p,
                None => unreached(),
            };
            push_str_chars(out, p.as_str());
            out.push(':');
        }
        push_str_chars(out, e.name.as_str());
        out.push('>');
        proof {
            reveal_strlit(">");
            assert(">"@ =~= seq!['>']);
            reveal_strlit(":");
            assert(":"@ =~= seq![':']);
            assert(out@ =~= old(out)@ + render_elem(ev, pdv, prefixes@));
        }
    }
}

/// The view of a borrowed parent default namespace.
pub open spec fn pd_view(p: Option<&Option<String>>) -> Option<Option<Seq<char>>> {
    match p {
        None => None,
        Some(d) => Some(d.deep_view()),
    }
}

proof fn lemma_render_children_take(
    s: Seq<XmlV>,
    parent_default: Option<Seq<char>>,
    all2: Map<Seq<char>, Seq<char>>,
    i: int,
)
    requires
        0 <= i < s.len(),
    ensures
        render_children(s.take(i + 1), parent_default, all2) == render_children(
            s.take(i),
            parent_default,
            all2,
        ) + render_node(s[i], parent_default, all2),
    decreases i,
{
    if i == 0 {
        assert(s.take(1)[0] == s[0]);
        assert(s.take(1).drop_first() =~= Seq::<XmlV>::empty());
        assert(s.take(0) =~= Seq::<XmlV>::empty());
        assert(render_children(s.take(1), parent_default, all2) =~= render_children(
            s.take(0),
            parent_default,
            all2,
        ) + render_node(s[0], parent_default, all2));
    } else {
        lemma_render_children_take(s.drop_first(), parent_default, all2, i - 1);
        assert(s.take(i + 1)[0] == s[0]);
        assert(s.take(i + 1).drop_first() =~= s.drop_first().take(i));
        assert(s.take(i)[0] == s[0]);
        assert(s.take(i).drop_first() =~= s.drop_first().take(i - 1));
        assert(s.drop_first()[i - 1] == s[i]);
        assert(render_children(s.take(i + 1), parent_default, all2) =~= render_children(
            s.take(i),
            parent_default,
            all2,
        ) + render_node(s[i], parent_default, all2));
    }
}

/// Decides [`renderable_elem`]: whether every namespace the serializer must
/// print a prefix for is bound in scope.
#[verifier::loop_isolation(false)]
fn renderable_check(e: &Element, prefixes: &StrMap) -> (r: bool)
    ensures
        r == renderable_elem(elem_view(*e), prefixes@),
    decreases *e,
{
    let ghost ev = elem_view(*e);
    let all2 = prefixes.merge(&e.prefixes);
    proof {
        lemma_children_view(e.children, e.children.len() as int);
    }
    if !crate::strutil::opt_string_eq(&e.ns, &e.default_ns) {
        let key_ok = match &e.ns {
            Some(s) => all2.get(s).is_some(),
            None => {
                let empty = String::new();
                all2.get(&empty).is_some()
            },
        };
        if !key_ok {
            return false;
        }
    }
    let mut i: usize = 0;
    while i < e.attributes.len()
        invariant
            0 <= i <= ev.attributes.len(),
            forall|m: int|
                0 <= m < i ==> ((#[trigger] ev.attributes[m]).ns matches Some(ns)
                    ==> all2@.contains_key(ns)),
        decreases ev.attributes.len() - i,
    {
        let a = e.attributes.entry_at(i);
        match &a.ns {
            Some(ns_s) => {
                if all2.get(ns_s).is_none() {
                    return false;
                }
            },
            None => {},
        }
        i += 1;
    }
    let ghost cv = ev.children;
    proof {
        assert(cv.skip(0) =~= cv);
    }
    let mut j: usize = 0;
    while j < e.children.len()
        invariant
            0 <= j <= e.children@.len(),
            renderable_children(cv, all2@) == renderable_children(cv.skip(j as int), all2@),
        decreases e.children@.len() - j,
    {
        let ghost rest = cv.skip(j as int);
        proof {
            assert(rest[0] == cv[j as int]);
            assert(rest.drop_first() =~= cv.skip(j as int + 1));
            assert(renderable_children(rest, all2@) == (renderable_node(rest[0], all2@)
                && renderable_children(rest.drop_first(), all2@)));
        }
        match &e.children[j] {
            Xml::ElementNode(el) => {
                proof {
                    assert(rest[0] == XmlV::ElementNode(elem_view(*el)));
                }
                if !renderable_check(el, &all2) {
                    proof {
                        assert(!renderable_children(cv, all2@));
                        assert(!renderable_elem(ev, prefixes@));
                    }
                    return false;
                }
            },
            _ => {
                proof {
                    assert(renderable_node(rest[0], all2@));
                }
            },
        }
        j += 1;
    }
    proof {
        assert(cv.skip(cv.len() as int) =~= Seq::<XmlV>::empty());
    }
    true
}

impl Element {
    /// Renders the element as XML text when every namespace it needs a
    /// prefix for is bound; `None` otherwise.
    pub fn try_to_xml_string(&self) -> (r: Option<String>)
        ensures
            match r {
                Some(s) => renderable_elem(self@, Map::<Seq<char>, Seq<char>>::empty()) && s@
                    == render_elem(self@, None, Map::<Seq<char>, Seq<char>>::empty()),
                None => !renderable_elem(self@, Map::<Seq<char>, Seq<char>>::empty()),
            },
    {
        let empty = StrMap::new();
        if renderable_check(self, &empty) {
            Some(self.to_xml_string())
        } else {
            None
        }
    }

    /// Renders the element as XML text, with single-quoted attribute values
    /// and minimal namespace declarations.
    pub fn to_xml_string(&self) -> (r: String)
        requires
            renderable_elem(self@, Map::<Seq<char>, Seq<char>>::empty()),
        ensures
            r@ == render_elem(self@, None, Map::<Seq<char>, Seq<char>>::empty()),
    {
        let empty = StrMap::new();
        let mut out: Vec<char> = Vec::new();
        render_elem_into(self, None, &empty, &mut out);
        proof {
            assert(out@ =~= render_elem(self@, None, Map::<Seq<char>, Seq<char>>::empty()));
        }
        crate::strutil::chars_to_string(&out)
    }
}

/// The rendered form of a node standing on its own, outside any element.
pub open spec fn render_root_node(x: XmlV) -> Seq<char> {
    match x {
        XmlV::ElementNode(e) => render_elem(e, None, Map::empty()),
        XmlV::CharacterNode(s) => escape_seq(s),
        XmlV::CDATANode(s) => "<![CDATA["@ + s + "]]>"@,
        XmlV::CommentNode(s) => "<!--"@ + s + "-->"@,
        XmlV::PINode(s) => "<?"@ + s + "?>"@,
    }
}

impl Xml {
    /// Renders the node as XML text.
    pub fn to_xml_string(&self) -> (r: String)
        requires
            (self@ matches XmlV::ElementNode(e) ==> renderable_elem(
                e,
                Map::<Seq<char>, Seq<char>>::empty(),
            )),
        ensures
            r@ == render_root_node(self@),
    {
        match self {
            Xml::ElementNode(e) => e.to_xml_string(),
            Xml::CharacterNode(s) => escape(s.as_str()),
            Xml::CDATANode(s) => {
                let mut out: Vec<char> = Vec::new();
                push_str_chars(&mut out, "<![CDATA[");
                push_str_chars(&mut out, s.as_str());
                push_str_chars(&mut out, "]]>");
                proof {
                    assert(out@ =~= "<![CDATA["@ + s@ + "]]>"@);
                }
                crate::strutil::chars_to_string(&out)
            },
            Xml::CommentNode(s) => {
                let mut out: Vec<char> = Vec::new();
                push_str_chars(&mut out, "<!--");
                push_str_chars(&mut out, s.as_str());
                push_str_chars(&mut out, "-->");
                proof {
                    assert(out@ =~= "<!--"@ + s@ + "-->"@);
                }
                crate::strutil::chars_to_string(&out)
            },
            Xml::PINode(s) => {
                let mut out: Vec<char> = Vec::new();
                push_str_chars(&mut out, "<?");
                push_str_chars(&mut out, s.as_str());
                push_str_chars(&mut out, "?>");
                proof {
                    assert(out@ =~= "<?"@ + s@ + "?>"@);
                }
                crate::strutil::chars_to_string(&out)
            },
        }
    }
}

} // verus!
