//! The attribute collection of a tag or element: an association list keyed by
//! local name and resolved namespace, with each key held once. Inserting keeps
//! document order, which the serializer follows.

use crate::strutil::{opt_str_string_eq, opt_string_eq};
use vstd::prelude::*;

verus! {

/// One attribute: local name, resolved namespace, and value.
#[derive(Debug)]
pub struct Attribute {
    /// The attribute's local name.
    pub name: String,
    /// The attribute's resolved namespace, if any.
    pub ns: Option<String>,
    /// The attribute's value.
    pub value: String,
}

/// The mathematical image of one attribute.
pub struct AttrV {
    /// The attribute's local name.
    pub name: Seq<char>,
    /// The attribute's resolved namespace, if any.
    pub ns: Option<Seq<char>>,
    /// The attribute's value.
    pub value: Seq<char>,
}

impl View for Attribute {
    type V = AttrV;

    open spec fn view(&self) -> AttrV {
        AttrV { name: self.name@, ns: self.ns.deep_view(), value: self.value@ }
    }
}

impl DeepView for Attribute {
    type V = AttrV;

    open spec fn deep_view(&self) -> AttrV {
        self@
    }
}

/// The index of the first attribute with the given name and namespace.
pub open spec fn attr_find(s: Seq<AttrV>, name: Seq<char>, ns: Option<Seq<char>>) -> Option<int>
    decreases s.len(),
{
    if s.len() == 0 {
        None
    } else if s[0].name == name && s[0].ns == ns {
        Some(0)
    } else {
        match attr_find(s.drop_first(), name, ns) {
            Some(i) => Some(i + 1),
            None => None,
        }
    }
}

pub proof fn lemma_attr_find(s: Seq<AttrV>, name: Seq<char>, ns: Option<Seq<char>>)
    ensures
        match attr_find(s, name, ns) {
            Some(i) => 0 <= i < s.len() && s[i].name == name && s[i].ns == ns && (forall|j: int|
                0 <= j < i ==> !(s[j].name == name && s[j].ns == ns)),
            None => forall|j: int| 0 <= j < s.len() ==> !(s[j].name == name && s[j].ns == ns),
        },
    decreases s.len(),
{
    if s.len() > 0 && !(s[0].name == name && s[0].ns == ns) {
        let d = s.drop_first();
        lemma_attr_find(d, name, ns);
        assert(forall|j: int| 0 <= j < d.len() ==> d[j] == s[j + 1]);
        match attr_find(d, name, ns) {
            Some(i) => {
                assert(s[i + 1] == d[i]);
                assert forall|j: int| 0 <= j < i + 1 implies !(s[j].name == name && s[j].ns
                    == ns) by {
                    if j > 0 {
                        assert(s[j] == d[j - 1]);
                    }
                }
            },
            None => {
                assert forall|j: int| 0 <= j < s.len() implies !(s[j].name == name && s[j].ns
                    == ns) by {
                    if j > 0 {
                        assert(s[j] == d[j - 1]);
                    }
                }
            },
        }
    }
}

/// The index of the first attribute with the given name, in any namespace.
pub open spec fn attr_find_named(s: Seq<AttrV>, name: Seq<char>) -> Option<int>
    decreases s.len(),
{
    if s.len() == 0 {
        None
    } else if s[0].name == name {
        Some(0)
    } else {
        match attr_find_named(s.drop_first(), name) {
            Some(i) => Some(i + 1),
            None => None,
        }
    }
}

pub proof fn lemma_attr_find_named(s: Seq<AttrV>, name: Seq<char>)
    ensures
        match attr_find_named(s, name) {
            Some(i) => 0 <= i < s.len() && s[i].name == name && (forall|j: int|
                0 <= j < i ==> s[j].name != name),
            None => forall|j: int| 0 <= j < s.len() ==> s[j].name != name,
        },
    decreases s.len(),
{
    if s.len() > 0 && s[0].name != name {
        let d = s.drop_first();
        lemma_attr_find_named(d, name);
        assert(forall|j: int| 0 <= j < d.len() ==> d[j] == s[j + 1]);
        match attr_find_named(d, name) {
            Some(i) => {
                assert(s[i + 1] == d[i]);
                assert forall|j: int| 0 <= j < i + 1 implies s[j].name != name by {
                    if j > 0 {
                        assert(s[j] == d[j - 1]);
                    }
                }
            },
            None => {
                assert forall|j: int| 0 <= j < s.len() implies s[j].name != name by {
                    if j > 0 {
                        assert(s[j] == d[j - 1]);
                    }
                }
            },
        }
    }
}

/// Whether the list holds an attribute with the given name and namespace.
pub open spec fn attr_has_key(s: Seq<AttrV>, name: Seq<char>, ns: Option<Seq<char>>) -> bool {
    attr_find(s, name, ns) is Some
}

/// The list after binding a key to a value: the first attribute with that key
/// is replaced in place, or the attribute is appended.
pub open spec fn attrs_insert(s: Seq<AttrV>, a: AttrV) -> Seq<AttrV> {
    match attr_find(s, a.name, a.ns) {
        Some(i) => s.update(i, a),
        None => s.push(a),
    }
}

/// The finite mapping an attribute list denotes.
pub open spec fn attrs_as_map(s: Seq<AttrV>) -> Map<(Seq<char>, Option<Seq<char>>), Seq<char>>
    decreases s.len(),
{
    if s.len() == 0 {
        Map::empty()
    } else {
        attrs_as_map(s.drop_last()).insert((s.last().name, s.last().ns), s.last().value)
    }
}

spec fn unique_attr_keys(s: Seq<AttrV>) -> bool {
    forall|i: int, j: int|
        0 <= i < j < s.len() ==> !(s[i].name == s[j].name && s[i].ns == s[j].ns)
}

proof fn lemma_attr_entries_map(s: Seq<AttrV>)
    requires
        unique_attr_keys(s),
    ensures
        forall|k: (Seq<char>, Option<Seq<char>>)|
            #[trigger] attrs_as_map(s).contains_key(k) <==> exists|i: int|
                0 <= i < s.len() && (#[trigger] s[i]).name == k.0 && s[i].ns == k.1,
        forall|i: int|
            0 <= i < s.len() ==> attrs_as_map(s).contains_key(((#[trigger] s[i]).name, s[i].ns))
                && attrs_as_map(s)[(s[i].name, s[i].ns)] == s[i].value,
    decreases s.len(),
{
    if s.len() > 0 {
        let d = s.drop_last();
        lemma_attr_entries_map(d);
        assert(forall|i: int| 0 <= i < d.len() ==> d[i] == s[i]);
        assert forall|i: int|
            0 <= i < s.len() implies attrs_as_map(s).contains_key(
            ((#[trigger] s[i]).name, s[i].ns),
        ) && attrs_as_map(s)[(s[i].name, s[i].ns)] == s[i].value by {
            if i < s.len() - 1 {
                assert(!(s[i].name == s.last().name && s[i].ns == s.last().ns));
            }
        }
        assert forall|k: (Seq<char>, Option<Seq<char>>)| #[trigger]
            attrs_as_map(s).contains_key(k) implies exists|i: int|
            0 <= i < s.len() && (#[trigger] s[i]).name == k.0 && s[i].ns == k.1 by {
            if k == ((s.last().name, s.last().ns)) {
                assert(s[s.len() - 1].name == k.0 && s[s.len() - 1].ns == k.1);
            } else {
                assert(attrs_as_map(d).contains_key(k));
                let i = choose|i: int|
                    0 <= i < d.len() && (#[trigger] d[i]).name == k.0 && d[i].ns == k.1;
                assert(s[i].name == k.0 && s[i].ns == k.1);
            }
        }
    }
}

/// An ordered collection of attributes with unique (name, namespace) keys.
#[derive(Debug)]
pub struct AttrMap {
    entries: Vec<Attribute>,
}

impl View for AttrMap {
    type V = Seq<AttrV>;

    closed spec fn view(&self) -> Seq<AttrV> {
        self.entries.deep_view()
    }
}

impl AttrMap {
    #[verifier::type_invariant]
    spec fn inv(&self) -> bool {
        unique_attr_keys(self@)
    }

    /// Returns an empty collection.
    pub fn new() -> (r: AttrMap)
        ensures
            r@ == Seq::<AttrV>::empty(),
    {
        let r = AttrMap { entries: Vec::new() };
        proof {
            assert(r@ =~= Seq::<AttrV>::empty());
        }
        r
    }

    /// The number of attributes held.
    pub fn len(&self) -> (r: usize)
        ensures
            r == self@.len(),
    {
        self.entries.len()
    }

    /// The attribute at the given position, in document order.
    pub fn entry_at(&self, i: usize) -> (r: &Attribute)
        requires
            i < self@.len(),
        ensures
            r@ == self@[i as int],
    {
        &self.entries[i]
    }

    /// Binds the key to the value, returning any value it replaced.
    #[verifier::loop_isolation(false)]
    pub fn insert(&mut self, name: String, ns: Option<String>, value: String) -> (r: Option<
        String,
    >)
        ensures
            match attr_find(old(self)@, name@, ns.deep_view()) {
                Some(i) => final(self)@ == old(self)@.update(
                    i,
                    AttrV { name: name@, ns: ns.deep_view(), value: value@ },
                ) && (r matches Some(v) && v@ == old(self)@[i].value),
                None => final(self)@ == old(self)@.push(
                    AttrV { name: name@, ns: ns.deep_view(), value: value@ },
                ) && r is None,
            },
    {
        proof {
            use_type_invariant(&*self);
            lemma_attr_find(self@, name@, ns.deep_view());
        }
        let ghost s0 = self@;
        let mut entries: Vec<Attribute> = Vec::new();
        core::mem::swap(&mut entries, &mut self.entries);
        let mut i: usize = 0;
        let mut hit: Option<usize> = None;
        while i < entries.len()
            invariant
                0 <= i <= entries@.len(),
                entries.deep_view() == s0,
                hit is None ==> forall|m: int|
                    0 <= m < i ==> !((#[trigger] s0[m]).name == name@ && s0[m].ns
                        == ns.deep_view()),
                hit matches Some(h) ==> h < s0.len() && s0[h as int].name == name@
                    && s0[h as int].ns == ns.deep_view() && (forall|m: int|
                    0 <= m < h ==> !((#[trigger] s0[m]).name == name@ && s0[m].ns
                        == ns.deep_view())),
            decreases entries@.len() - i,
        {
            proof {
                assert(entries.deep_view()[i as int] == entries@[i as int]@);
            }
            if entries[i].name == name && opt_string_eq(&entries[i].ns, &ns) {
                hit = Some(i);
                break ;
            }
            i += 1;
        }
        match hit {
            Some(h) => {
                proof {
                    assert(attr_find(s0, name@, ns.deep_view()) == Some(h as int));
                }
                let mut old_entry = Attribute { name, ns, value };
                core::mem::swap(&mut old_entry, &mut entries[h]);
                proof {
                    assert(entries.deep_view() =~= s0.update(
                        h as int,
                        AttrV { name: s0[h as int].name, ns: s0[h as int].ns, value: value@ },
                    ));
                    assert forall|m: int, l: int|
                        #![trigger entries.deep_view()[m], entries.deep_view()[l]]
                        0 <= m < l < entries.deep_view().len() implies !((
                        entries.deep_view()[m]).name == entries.deep_view()[l].name
                        && entries.deep_view()[m].ns == entries.deep_view()[l].ns) by {
                        assert(!(s0[m].name == s0[l].name && s0[m].ns == s0[l].ns));
                    }
                }
                let out = AttrMap { entries };
                *self = out;
                Some(old_entry.value)
            },
            None => {
                proof {
                    assert(attr_find(s0, name@, ns.deep_view()) is None);
                }
                entries.push(Attribute { name, ns, value });
                proof {
                    assert(entries.deep_view() =~= s0.push(
                        entries@[entries@.len() - 1]@,
                    ));
                    assert forall|m: int, l: int|
                        #![trigger entries.deep_view()[m], entries.deep_view()[l]]
                        0 <= m < l < entries.deep_view().len() implies !((
                        entries.deep_view()[m]).name == entries.deep_view()[l].name
                        && entries.deep_view()[m].ns == entries.deep_view()[l].ns) by {
                        if l < entries.deep_view().len() - 1 {
                            assert(!(s0[m].name == s0[l].name && s0[m].ns == s0[l].ns));
                        }
                    }
                }
                let out = AttrMap { entries };
                *self = out;
                None
            },
        }
    }

    /// The value bound to the given name and namespace, if any.
    #[verifier::loop_isolation(false)]
    pub fn get<'a>(&'a self, name: &str, ns: Option<&str>) -> (r: Option<&'a str>)
        ensures
            match attr_find(self@, name@, ns.deep_view()) {
                Some(i) => r matches Some(v) && v@ == self@[i].value,
                None => r is None,
            },
    {
        proof {
            use_type_invariant(&*self);
            lemma_attr_find(self@, name@, ns.deep_view());
        }
        let mut i: usize = 0;
        while i < self.entries.len()
            invariant
                0 <= i <= self@.len(),
                forall|m: int|
                    0 <= m < i ==> !((#[trigger] self@[m]).name == name@ && self@[m].ns
                        == ns.deep_view()),
            decreases self@.len() - i,
        {
            proof {
                assert(self@[i as int] == self.entries@[i as int]@);
            }
            if crate::strutil::str_eq(self.entries[i].name.as_str(), name) && opt_str_string_eq(
                ns,
                &self.entries[i].ns,
            ) {
                return Some(self.entries[i].value.as_str());
            }
            i += 1;
        }
        None
    }

    /// Removes the binding for the given name and namespace, returning its
    /// value if it was present.
    #[verifier::loop_isolation(false)]
    pub fn remove(&mut self, name: &str, ns: Option<&str>) -> (r: Option<String>)
        ensures
            match attr_find(old(self)@, name@, ns.deep_view()) {
                Some(i) => final(self)@ == old(self)@.remove(i) && (r matches Some(v) && v@ == old(
                    self,
                )@[i].value),
                None => final(self)@ == old(self)@ && r is None,
            },
    {
        proof {
            use_type_invariant(&*self);
            lemma_attr_find(self@, name@, ns.deep_view());
        }
        let ghost s0 = self@;
        let mut entries: Vec<Attribute> = Vec::new();
        core::mem::swap(&mut entries, &mut self.entries);
        let mut i: usize = 0;
        let mut r: Option<String> = None;
        while i < entries.len()
            invariant
                0 <= i <= entries@.len(),
                entries.deep_view() == s0,
                forall|m: int|
                    0 <= m < i ==> !((#[trigger] s0[m]).name == name@ && s0[m].ns
                        == ns.deep_view()),
            decreases entries@.len() - i,
        {
            proof {
                assert(s0[i as int] == entries@[i as int]@);
            }
            if crate::strutil::str_eq(entries[i].name.as_str(), name) && opt_str_string_eq(
                ns,
                &entries[i].ns,
            ) {
                let e = entries.remove(i);
                r = Some(e.value);
                proof {
                    assert(attr_find(s0, name@, ns.deep_view()) == Some(i as int));
                    assert(entries.deep_view() =~= s0.remove(i as int));
                    assert forall|m: int, l: int|
                        #![trigger entries.deep_view()[m], entries.deep_view()[l]]
                        0 <= m < l < entries.deep_view().len() implies !((
                        entries.deep_view()[m]).name == entries.deep_view()[l].name
                        && entries.deep_view()[m].ns == entries.deep_view()[l].ns) by {
                        let m2 = if m < i { m } else { m + 1 };
                        let l2 = if l < i { l } else { l + 1 };
                        assert(!(s0[m2].name == s0[l2].name && s0[m2].ns == s0[l2].ns));
                    }
                }
                let out = AttrMap { entries };
                *self = out;
                return r;
            }
            i += 1;
        }
        proof {
            assert(attr_find(s0, name@, ns.deep_view()) is None);
        }
        let out = AttrMap { entries };
        *self = out;
        None
    }

    /// Whether any attribute, in any namespace, has the given name.
    #[verifier::loop_isolation(false)]
    pub fn any_named(&self, name: &str) -> (r: bool)
        ensures
            r == (exists|i: int| 0 <= i < self@.len() && (#[trigger] self@[i]).name == name@),
    {
        let mut i: usize = 0;
        while i < self.entries.len()
            invariant
                0 <= i <= self@.len(),
                forall|m: int| 0 <= m < i ==> (#[trigger] self@[m]).name != name@,
            decreases self@.len() - i,
        {
            proof {
                assert(self@[i as int] == self.entries@[i as int]@);
            }
            if crate::strutil::str_eq(self.entries[i].name.as_str(), name) {
                return true;
            }
            i += 1;
        }
        false
    }

    /// The first attribute with the given name, in any namespace.
    #[verifier::loop_isolation(false)]
    pub fn first_named<'a>(&'a self, name: &str) -> (r: Option<&'a Attribute>)
        ensures
            match attr_find_named(self@, name@) {
                Some(i) => r matches Some(a) && a@ == self@[i],
                None => r is None,
            },
    {
        proof {
            lemma_attr_find_named(self@, name@);
        }
        let mut i: usize = 0;
        while i < self.entries.len()
            invariant
                0 <= i <= self@.len(),
                forall|m: int| 0 <= m < i ==> (#[trigger] self@[m]).name != name@,
            decreases self@.len() - i,
        {
            proof {
                assert(self@[i as int] == self.entries@[i as int]@);
            }
            if crate::strutil::str_eq(self.entries[i].name.as_str(), name) {
                return Some(&self.entries[i]);
            }
            i += 1;
        }
        None
    }

    /// The first attribute with the given name and namespace.
    #[verifier::loop_isolation(false)]
    pub fn entry_for<'a>(&'a self, name: &str, ns: Option<&str>) -> (r: Option<&'a Attribute>)
        ensures
            match attr_find(self@, name@, ns.deep_view()) {
                Some(i) => r matches Some(a) && a@ == self@[i],
                None => r is None,
            },
    {
        proof {
            lemma_attr_find(self@, name@, ns.deep_view());
        }
        let mut i: usize = 0;
        while i < self.entries.len()
            invariant
                0 <= i <= self@.len(),
                forall|m: int|
                    0 <= m < i ==> !((#[trigger] self@[m]).name == name@ && self@[m].ns
                        == ns.deep_view()),
            decreases self@.len() - i,
        {
            proof {
                assert(self@[i as int] == self.entries@[i as int]@);
            }
            if crate::strutil::str_eq(self.entries[i].name.as_str(), name) && opt_str_string_eq(
                ns,
                &self.entries[i].ns,
            ) {
                return Some(&self.entries[i]);
            }
            i += 1;
        }
        None
    }

    /// Whether `self` denotes a submapping of `other`.
    #[verifier::loop_isolation(false)]
    fn submap_check(&self, other: &AttrMap) -> (r: bool)
        ensures
            r == attrs_as_map(self@).submap_of(attrs_as_map(other@)),
    {
        proof {
            use_type_invariant(&*self);
            use_type_invariant(&*other);
            lemma_attr_entries_map(self@);
            lemma_attr_entries_map(other@);
        }
        let mut i: usize = 0;
        while i < self.entries.len()
            invariant
                0 <= i <= self@.len(),
                forall|m: int|
                    0 <= m < i ==> {
                        let k = ((#[trigger] self@[m]).name, self@[m].ns);
                        attrs_as_map(other@).contains_key(k) && attrs_as_map(other@)[k]
                            == self@[m].value
                    },
            decreases self@.len() - i,
        {
            proof {
                assert(self@[i as int] == self.entries@[i as int]@);
                lemma_attr_find(other@, self@[i as int].name, self@[i as int].ns);
            }
            let ghost k = (self@[i as int].name, self@[i as int].ns);
            let e = &self.entries[i];
            let ns_ref: Option<&str> = crate::strutil::opt_as_str(&e.ns);
            match other.get(e.name.as_str(), ns_ref) {
                Some(v) => {
                    proof {
                        let j = attr_find(other@, k.0, k.1)->Some_0;
                        assert(attrs_as_map(other@).contains_key(
                            (other@[j].name, other@[j].ns),
                        ));
                        assert(attrs_as_map(other@)[k] == other@[j].value);
                        assert(attrs_as_map(self@).contains_key((self@[i as int].name, self@[
                            i as int].ns)));
                        assert(attrs_as_map(self@)[k] == self@[i as int].value);
                    }
                    if !crate::strutil::str_eq(v, e.value.as_str()) {
                        proof {
                            assert(!attrs_as_map(self@).submap_of(attrs_as_map(other@)));
                        }
                        return false;
                    }
                },
                None => {
                    proof {
                        assert(attrs_as_map(self@).contains_key((self@[i as int].name, self@[
                            i as int].ns)));
                        if attrs_as_map(other@).contains_key(k) {
                            let m = choose|m: int|
                                0 <= m < other@.len() && (#[trigger] other@[m]).name == k.0
                                    && other@[m].ns == k.1;
                            assert(false);
                        }
                        assert(!attrs_as_map(self@).submap_of(attrs_as_map(other@)));
                    }
                    return false;
                },
            }
            i += 1;
        }
        proof {
            assert forall|k: (Seq<char>, Option<Seq<char>>)| #[trigger]
                attrs_as_map(self@).contains_key(k) implies attrs_as_map(other@).contains_key(k)
                && attrs_as_map(other@)[k] == attrs_as_map(self@)[k] by {
                let m = choose|m: int|
                    0 <= m < self@.len() && (#[trigger] self@[m]).name == k.0 && self@[m].ns == k.1;
                assert(attrs_as_map(other@).contains_key((self@[m].name, self@[m].ns)));
            }
        }
        true
    }

    /// Whether the two collections hold the same attributes, in any order.
    pub fn map_eq(&self, other: &AttrMap) -> (r: bool)
        ensures
            r == (attrs_as_map(self@) == attrs_as_map(other@)),
    {
        proof {
            attrs_as_map(self@).lemma_submap_eq_iff(attrs_as_map(other@));
        }
        self.submap_check(other) && other.submap_check(self)
    }
}

impl PartialEq for AttrMap {
    /// Two collections are equal when they hold the same attributes, in any
    /// order, as the maps they denote.
    fn eq(&self, other: &AttrMap) -> (r: bool) {
        self.map_eq(other)
    }
}

impl vstd::std_specs::cmp::PartialEqSpecImpl for AttrMap {
    open spec fn obeys_eq_spec() -> bool {
        true
    }

    open spec fn eq_spec(&self, other: &AttrMap) -> bool {
        attrs_as_map(self@) == attrs_as_map(other@)
    }
}

} // verus!
