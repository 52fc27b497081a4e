//! A string-to-string association list with unique keys. It stands in for a
//! hash map so that contracts can speak of its contents as a `Map` of
//! character sequences.

use vstd::prelude::*;

verus! {

/// The mapping an entry list denotes: later entries win, as repeated
/// insertion would have it.
pub open spec fn str_pairs_map(s: Seq<(String, String)>) -> Map<Seq<char>, Seq<char>>
    decreases s.len(),
{
    if s.len() == 0 {
        Map::empty()
    } else {
        str_pairs_map(s.drop_last()).insert(s.last().0@, s.last().1@)
    }
}

/// A mapping from strings to strings, with each key held once.
#[derive(Debug)]
pub struct StrMap {
    entries: Vec<(String, String)>,
}

impl View for StrMap {
    type V = Map<Seq<char>, Seq<char>>;

    closed spec fn view(&self) -> Map<Seq<char>, Seq<char>> {
        str_pairs_map(self.entries@)
    }
}

impl DeepView for StrMap {
    type V = Map<Seq<char>, Seq<char>>;

    open spec fn deep_view(&self) -> Map<Seq<char>, Seq<char>> {
        self@
    }
}

spec fn unique_str_keys(s: Seq<(String, String)>) -> bool {
    forall|i: int, j: int| 0 <= i < j < s.len() ==> s[i].0@ != s[j].0@
}

proof fn lemma_str_entries_map(s: Seq<(String, String)>)
    requires
        unique_str_keys(s),
    ensures
        forall|k: Seq<char>|
            #[trigger] str_pairs_map(s).contains_key(k) <==> exists|i: int|
                0 <= i < s.len() && s[i].0@ == k,
        forall|i: int|
            0 <= i < s.len() ==> str_pairs_map(s).contains_key(#[trigger] s[i].0@)
                && str_pairs_map(s)[s[i].0@] == s[i].1@,
    decreases s.len(),
{
    if s.len() > 0 {
        let d = s.drop_last();
        lemma_str_entries_map(d);
        assert(forall|i: int| 0 <= i < d.len() ==> d[i] == s[i]);
        assert forall|i: int|
            0 <= i < s.len() implies str_pairs_map(s).contains_key(#[trigger] s[i].0@)
            && str_pairs_map(s)[s[i].0@] == s[i].1@ by {
            if i < s.len() - 1 {
                assert(s[i].0@ != s.last().0@);
            }
        }
        assert forall|k: Seq<char>| #[trigger]
            str_pairs_map(s).contains_key(k) implies exists|i: int|
            0 <= i < s.len() && s[i].0@ == k by {
            if k == s.last().0@ {
                assert(s[s.len() - 1].0@ == k);
            } else {
                assert(str_pairs_map(d).contains_key(k));
                let i = choose|i: int| 0 <= i < d.len() && d[i].0@ == k;
                assert(s[i].0@ == k);
            }
        }
    }
}

impl StrMap {
    #[verifier::type_invariant]
    spec fn inv(&self) -> bool {
        unique_str_keys(self.entries@)
    }

    /// Returns an empty mapping.
    pub fn new() -> (r: StrMap)
        ensures
            r@ == Map::<Seq<char>, Seq<char>>::empty(),
    {
        StrMap { entries: Vec::new() }
    }

    /// Binds `k` to `v`, replacing any earlier binding of `k`.
    #[verifier::loop_isolation(false)]
    pub fn insert(&mut self, k: String, v: String)
        ensures
            final(self)@ == old(self)@.insert(k@, v@),
    {
        proof {
            use_type_invariant(&*self);
        }
        let mut entries: Vec<(String, String)> = Vec::new();
        core::mem::swap(&mut entries, &mut self.entries);
        let ghost s0 = entries@;
        let mut i: usize = 0;
        let mut found = false;
        while i < entries.len() && !found
            invariant
                0 <= i <= entries@.len(),
                entries@ == s0,
                unique_str_keys(s0),
                !found ==> forall|m: int| 0 <= m < i ==> s0[m].0@ != k@,
                found ==> 1 <= i && i - 1 < s0.len() && s0[i - 1].0@ == k@,
            decreases entries@.len() - i,
        {
            if entries[i].0 == k {
                found = true;
            }
            i += 1;
        }
        if found {
            let j = i - 1;
            entries[j] = (k, v);
            proof {
                lemma_update_str_entry(s0, j as int, entries@[j as int]);
            }
        } else {
            entries.push((k, v));
            proof {
                assert(entries@.drop_last() =~= s0);
                assert forall|m: int, l: int|
                    0 <= m < l < entries@.len() implies entries@[m].0@ != entries@[l].0@ by {
                    if l < entries@.len() - 1 {
                        assert(entries@[m] == s0[m] && entries@[l] == s0[l]);
                    } else {
                        assert(entries@[m] == s0[m]);
                    }
                }
            }
        }
        let r = StrMap { entries };
        *self = r;
    }

    /// The value bound to `k`, if any.
    #[verifier::loop_isolation(false)]
    pub fn get(&self, k: &String) -> (r: Option<String>)
        ensures
            match r {
                Some(v) => self@.contains_key(k@) && v@ == self@[k@],
                None => !self@.contains_key(k@),
            },
    {
        proof {
            use_type_invariant(&*self);
            lemma_str_entries_map(self.entries@);
        }
        let mut i: usize = 0;
        while i < self.entries.len()
            invariant
                0 <= i <= self.entries@.len(),
                forall|m: int| 0 <= m < i ==> self.entries@[m].0@ != k@,
            decreases self.entries@.len() - i,
        {
            if self.entries[i].0 == *k {
                return Some(self.entries[i].1.clone());
            }
            i += 1;
        }
        None
    }

    /// A copy with the same contents.
    #[verifier::loop_isolation(false)]
    pub fn dup(&self) -> (r: StrMap)
        ensures
            r@ == self@,
    {
        proof {
            use_type_invariant(&*self);
        }
        let mut entries: Vec<(String, String)> = Vec::new();
        let mut i: usize = 0;
        while i < self.entries.len()
            invariant
                0 <= i <= self.entries@.len(),
                entries@.len() == i,
                forall|m: int| 0 <= m < i ==> entries@[m] == self.entries@[m],
            decreases self.entries@.len() - i,
        {
            let k = self.entries[i].0.clone();
            let v = self.entries[i].1.clone();
            entries.push((k, v));
            i += 1;
        }
        proof {
            assert(entries@ =~= self.entries@);
        }
        StrMap { entries }
    }

    /// Whether `self` maps every key it holds as `other` does.
    #[verifier::loop_isolation(false)]
    fn submap_check(&self, other: &StrMap) -> (r: bool)
        ensures
            r == self@.submap_of(other@),
    {
        proof {
            use_type_invariant(&*self);
            use_type_invariant(&*other);
            lemma_str_entries_map(self.entries@);
            lemma_str_entries_map(other.entries@);
        }
        let mut i: usize = 0;
        while i < self.entries.len()
            invariant
                0 <= i <= self.entries@.len(),
                unique_str_keys(self.entries@),
                forall|m: int|
                    0 <= m < i ==> other@.contains_key(#[trigger] self.entries@[m].0@)
                        && other@[self.entries@[m].0@] == self.entries@[m].1@,
            decreases self.entries@.len() - i,
        {
            match other.get(&self.entries[i].0) {
                Some(v) => {
                    if !(v == self.entries[i].1) {
                        proof {
                            assert(self@.contains_key(self.entries@[i as int].0@));
                            assert(!self@.submap_of(other@));
                        }
                        return false;
                    }
                },
                None => {
                    proof {
                        assert(self@.contains_key(self.entries@[i as int].0@));
                        assert(!self@.submap_of(other@));
                    }
                    return false;
                },
            }
            i += 1;
        }
        proof {
            assert forall|k: Seq<char>| #[trigger]
                self@.contains_key(k) implies other@.contains_key(k) && other@[k] == self@[k] by {
                let m = choose|m: int| 0 <= m < self.entries@.len() && self.entries@[m].0@ == k;
                assert(other@.contains_key(self.entries@[m].0@));
            }
        }
        true
    }

    /// Whether the two mappings are equal as mappings.
    pub fn map_eq(&self, other: &StrMap) -> (r: bool)
        ensures
            r == (self@ == other@),
    {
        proof {
            self@.lemma_submap_eq_iff(other@);
        }
        self.submap_check(other) && other.submap_check(self)
    }

    /// A mapping holding the bindings of both, `other`'s winning on a shared
    /// key.
    #[verifier::loop_isolation(false)]
    pub fn merge(&self, other: &StrMap) -> (r: StrMap)
        ensures
            r@ == self@.union_prefer_right(other@),
    {
        proof {
            use_type_invariant(&*other);
        }
        let mut r = self.dup();
        let mut i: usize = 0;
        proof {
            assert(other.entries@.take(0) =~= Seq::<(String, String)>::empty());
            assert(r@ =~= self@.union_prefer_right(str_pairs_map(other.entries@.take(0))));
        }
        while i < other.entries.len()
            invariant
                0 <= i <= other.entries@.len(),
                r@ == self@.union_prefer_right(str_pairs_map(other.entries@.take(i as int))),
            decreases other.entries@.len() - i,
        {
            let k = other.entries[i].0.clone();
            let v = other.entries[i].1.clone();
            r.insert(k, v);
            proof {
                let t = other.entries@.take(i as int + 1);
                assert(t.drop_last() =~= other.entries@.take(i as int));
                assert(str_pairs_map(t) == str_pairs_map(other.entries@.take(i as int)).insert(
                    other.entries@[i as int].0@,
                    other.entries@[i as int].1@,
                ));
                assert(r@ =~= self@.union_prefer_right(str_pairs_map(t)));
            }
            i += 1;
        }
        proof {
            assert(other.entries@.take(other.entries@.len() as int) =~= other.entries@);
        }
        r
    }
}

impl PartialEq for StrMap {
    /// Two mappings are equal when they hold the same bindings.
    fn eq(&self, other: &StrMap) -> (r: bool) {
        self.map_eq(other)
    }
}

impl vstd::std_specs::cmp::PartialEqSpecImpl for StrMap {
    open spec fn obeys_eq_spec() -> bool {
        true
    }

    open spec fn eq_spec(&self, other: &StrMap) -> bool {
        self@ == other@
    }
}

proof fn lemma_update_str_entry(s: Seq<(String, String)>, i: int, p: (String, String))
    requires
        unique_str_keys(s),
        0 <= i < s.len(),
        s[i].0@ == p.0@,
    ensures
        unique_str_keys(s.update(i, p)),
        str_pairs_map(s.update(i, p)) == str_pairs_map(s).insert(p.0@, p.1@),
{
    let t = s.update(i, p);
    assert forall|m: int, l: int| 0 <= m < l < t.len() implies t[m].0@ != t[l].0@ by {
        assert(s[m].0@ != s[l].0@);
    }
    lemma_str_entries_map(s);
    lemma_str_entries_map(t);
    let ms = str_pairs_map(s).insert(p.0@, p.1@);
    let mt = str_pairs_map(t);
    assert forall|k: Seq<char>| #[trigger] ms.contains_key(k) implies mt.contains_key(k)
        && mt[k] == ms[k] by {
        if k == p.0@ {
            assert(t[i].0@ == k && t[i].1@ == p.1@);
        } else {
            let m = choose|m: int| 0 <= m < s.len() && s[m].0@ == k;
            assert(m != i);
            assert(t[m].0@ == k && t[m].1@ == s[m].1@);
        }
    }
    assert forall|k: Seq<char>| #[trigger] mt.contains_key(k) implies ms.contains_key(k) by {
        let m = choose|m: int| 0 <= m < t.len() && t[m].0@ == k;
        if m == i {
        } else {
            assert(s[m].0@ == k);
        }
    }
    assert(mt =~= ms);
}

} // verus!
