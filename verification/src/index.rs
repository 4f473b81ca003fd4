//! Fact classification and the extraction index.
//!
//! Two passes build the index.  The first reads type facts and fills a
//! [`TypeMap`] from resource identifier to type name; a later type fact for
//! the same resource wins.  The second reads property facts whose object is
//! numeric and appends the value under the key (type of subject, property),
//! dropping facts whose subject has no known type.  Namespace prefixes are
//! stripped from identifiers, and type names that still hold a path
//! separator are excluded as ontology-root types.

use vstd::prelude::*;
use crate::strutil::{
    contains_char, contains_seq, contains_str, is_prefix, strip_prefix_or_self,
};

verus! {

/// A subject-predicate-object statement from a knowledge base.
pub struct Fact {
    pub subject: String,
    pub predicate: String,
    pub object: String,
}

impl View for Fact {
    type V = (Seq<char>, Seq<char>, Seq<char>);

    open spec fn view(&self) -> (Seq<char>, Seq<char>, Seq<char>) {
        (self.subject@, self.predicate@, self.object@)
    }
}

/// A property fact whose object has already been read as a numeric value
/// key, or `None` when the object is not numeric.
pub struct PropertyFact {
    pub subject: String,
    pub predicate: String,
    pub value: Option<i64>,
}

impl View for PropertyFact {
    type V = (Seq<char>, Seq<char>, Option<i64>);

    open spec fn view(&self) -> (Seq<char>, Seq<char>, Option<i64>) {
        (self.subject@, self.predicate@, self.value)
    }
}

/// The marker that identifies an is-a/type predicate.
pub open spec fn spec_type_marker() -> Seq<char> {
    "22-rdf-syntax-ns#type"@
}

/// The namespace prefix stripped from resource identifiers.
pub open spec fn spec_resource_prefix() -> Seq<char> {
    "http://dbpedia.org/resource/"@
}

/// The namespace prefix stripped from type names.
pub open spec fn spec_ontology_prefix() -> Seq<char> {
    "http://dbpedia.org/ontology/"@
}

/// The namespace prefix stripped from property names.
pub open spec fn spec_property_prefix() -> Seq<char> {
    "http://dbpedia.org/property/"@
}

/// `s` with the prefix `p` removed when present, `s` unchanged otherwise.
pub open spec fn spec_strip(s: Seq<char>, p: Seq<char>) -> Seq<char> {
    if is_prefix(p, s) {
        s.skip(p.len() as int)
    } else {
        s
    }
}

/// The map from keys to values described by an association list read left
/// to right, a later pair overriding an earlier one with the same key.
pub open spec fn map_of<K, V>(s: Seq<(K, V)>) -> Map<K, V>
    decreases s.len(),
{
    if s.len() == 0 {
        Map::empty()
    } else {
        map_of(s.drop_last()).insert(s.last().0, s.last().1)
    }
}

/// The keys of the association list are pairwise distinct.
pub open spec fn unique_keys<K, V>(s: Seq<(K, V)>) -> bool {
    forall|i: int, j: int| 0 <= i < j < s.len() ==> (#[trigger] s[i]).0 != (#[trigger] s[j]).0
}

proof fn lemma_map_of_lookup<K, V>(s: Seq<(K, V)>, i: int)
    requires
        unique_keys(s),
        0 <= i < s.len(),
    ensures
        map_of(s).contains_key(s[i].0),
        map_of(s)[s[i].0] == s[i].1,
    decreases s.len(),
{
    if i == s.len() - 1 {
    } else {
        assert(unique_keys(s.drop_last())) by {
            assert(forall|x: int|
                0 <= x < s.len() - 1 ==> #[trigger] s.drop_last()[x] == s[x]);
        }
        lemma_map_of_lookup(s.drop_last(), i);
        assert(s.drop_last()[i] == s[i]);
        assert(s[i].0 != s.last().0);
    }
}

proof fn lemma_map_of_absent<K, V>(s: Seq<(K, V)>, k: K)
    requires
        forall|i: int| 0 <= i < s.len() ==> (#[trigger] s[i]).0 != k,
    ensures
        !map_of(s).contains_key(k),
    decreases s.len(),
{
    if s.len() > 0 {
        assert(forall|i: int|
            0 <= i < s.len() - 1 ==> #[trigger] s.drop_last()[i] == s[i]);
        lemma_map_of_absent(s.drop_last(), k);
    }
}

proof fn lemma_map_of_update<K, V>(s: Seq<(K, V)>, i: int, p: (K, V))
    requires
        unique_keys(s),
        0 <= i < s.len(),
        s[i].0 == p.0,
    ensures
        map_of(s.update(i, p)) == map_of(s).insert(p.0, p.1),
    decreases s.len(),
{
    let t = s.update(i, p);
    if i == s.len() - 1 {
        assert(t.drop_last() =~= s.drop_last());
        assert(t.last() == p);
        assert(map_of(t) == map_of(s.drop_last()).insert(p.0, p.1));
        assert(map_of(s.drop_last()).insert(s.last().0, s.last().1).insert(p.0, p.1)
            =~= map_of(s.drop_last()).insert(p.0, p.1));
    } else {
        assert(unique_keys(s.drop_last())) by {
            assert(forall|x: int|
                0 <= x < s.len() - 1 ==> #[trigger] s.drop_last()[x] == s[x]);
        }
        assert(s.drop_last()[i] == s[i]);
        lemma_map_of_update(s.drop_last(), i, p);
        assert(t.drop_last() =~= s.drop_last().update(i, p));
        assert(t.last() == s.last());
        assert(s[i].0 != s.last().0);
        assert(map_of(t) == map_of(s.drop_last()).insert(p.0, p.1).insert(
            s.last().0,
            s.last().1,
        ));
        assert(map_of(s.drop_last()).insert(p.0, p.1).insert(s.last().0, s.last().1)
            =~= map_of(s.drop_last()).insert(s.last().0, s.last().1).insert(p.0, p.1));
    }
}

/// Mapping from resource identifier to its (single) type name; the last
/// type fact processed for a resource wins.
pub struct TypeMap {
    pub entries: Vec<(String, String)>,
}

impl TypeMap {
    /// Association pairs of the map, as character sequences.
    pub open spec fn pairs(self) -> Seq<(Seq<char>, Seq<char>)> {
        self.entries@.map_values(|p: (String, String)| (p.0@, p.1@))
    }

    /// No resource occurs twice.
    pub open spec fn wf(self) -> bool {
        unique_keys(self.pairs())
    }

    /// The mapping the entries describe.
    pub open spec fn view(self) -> Map<Seq<char>, Seq<char>> {
        map_of(self.pairs())
    }

    /// An empty map.
    pub fn new() -> (r: TypeMap)
        ensures
            r.wf(),
            r@ == Map::<Seq<char>, Seq<char>>::empty(),
    {
        let r = TypeMap { entries: Vec::new() };
        proof {
            assert(r.pairs() =~= Seq::<(Seq<char>, Seq<char>)>::empty());
        }
        r
    }

    /// Binds `resource` to `tname`, replacing any earlier binding.
    pub fn insert(&mut self, resource: String, tname: String)
        requires
            old(self).wf(),
        ensures
            final(self).wf(),
            final(self)@ == old(self)@.insert(resource@, tname@),
    {
        let ghost old_pairs = self.pairs();
        let mut i: usize = 0;
        while i < self.entries.len()
            invariant
                i <= self.entries@.len(),
                self == old(self),
                self.wf(),
                forall|j: int| 0 <= j < i ==> (#[trigger] self.pairs()[j]).0 != resource@,
            decreases self.entries@.len() - i,
        {
            if self.entries[i].0 == resource {
                proof {
                    assert(self.pairs()[i as int].0 == resource@);
                }
                let ghost pre = self.pairs();
                self.entries.set(i, (resource, tname));
                proof {
                    assert(self.pairs() =~= pre.update(i as int, (resource@, tname@)));
                    lemma_map_of_update(pre, i as int, (resource@, tname@));
                    assert(self.wf()) by {
                        assert(forall|x: int|
                            0 <= x < pre.len() && x != i ==> #[trigger] self.pairs()[x] == pre[x]);
                    }
                }
                return ;
            }
            i += 1;
        }
        let ghost pre = self.pairs();
        self.entries.push((resource, tname));
        proof {
            assert(self.pairs() =~= pre.push((resource@, tname@)));
            assert(self.pairs().drop_last() =~= pre);
            lemma_map_of_absent(pre, resource@);
            assert(self.wf()) by {
                assert(forall|x: int| 0 <= x < pre.len() ==> #[trigger] self.pairs()[x] == pre[x]);
            }
        }
    }

    /// The type bound to `resource`, if any.
    pub fn get(&self, resource: &String) -> (r: Option<&String>)
        requires
            self.wf(),
        ensures
            r is Some <==> self@.contains_key(resource@),
            r matches Some(v) ==> v@ == self@[resource@],
    {
        let mut i: usize = 0;
        while i < self.entries.len()
            invariant
                i <= self.entries@.len(),
                self.wf(),
                forall|j: int| 0 <= j < i ==> (#[trigger] self.pairs()[j]).0 != resource@,
            decreases self.entries@.len() - i,
        {
            if self.entries[i].0 == *resource {
                proof {
                    assert(self.pairs()[i as int].0 == resource@);
                    lemma_map_of_lookup(self.pairs(), i as int);
                }
                return Some(&self.entries[i].1);
            }
            i += 1;
        }
        proof {
            lemma_map_of_absent(self.pairs(), resource@);
        }
        None
    }

    /// Number of resources bound.
    pub fn len(&self) -> (r: usize)
        ensures
            r == self.entries@.len(),
    {
        self.entries.len()
    }
}

/// One fact of the type pass, applied to the map built so far.
pub open spec fn type_step(
    m: Map<Seq<char>, Seq<char>>,
    f: (Seq<char>, Seq<char>, Seq<char>),
) -> Map<Seq<char>, Seq<char>> {
    if !contains_seq(f.1, spec_type_marker()) {
        m
    } else {
        let res = spec_strip(f.0, spec_resource_prefix());
        let ty = spec_strip(f.2, spec_ontology_prefix());
        if ty.contains('/') {
            m
        } else {
            m.insert(res, ty)
        }
    }
}

/// The resource-to-type map that a sequence of facts builds, first to last.
pub open spec fn spec_type_map(
    facts: Seq<(Seq<char>, Seq<char>, Seq<char>)>,
) -> Map<Seq<char>, Seq<char>>
    decreases facts.len(),
{
    if facts.len() == 0 {
        Map::empty()
    } else {
        type_step(spec_type_map(facts.drop_last()), facts.last())
    }
}

/// First pass: builds the resource-to-type map from the type facts.
pub fn build_type_map(facts: &Vec<Fact>) -> (r: TypeMap)
    ensures
        r.wf(),
        r@ == spec_type_map(facts@.map_values(|f: Fact| f@)),
{
    let mut tm = TypeMap::new();
    let mut i: usize = 0;
    proof {
        assert(facts@.take(0).map_values(|f: Fact| f@) =~= Seq::<(
            Seq<char>,
            Seq<char>,
            Seq<char>,
        )>::empty());
    }
    while i < facts.len()
        invariant
            i <= facts@.len(),
            tm.wf(),
            tm@ == spec_type_map(facts@.take(i as int).map_values(|f: Fact| f@)),
        decreases facts@.len() - i,
    {
        let f = &facts[i];
        proof {
            reveal_strlit("22-rdf-syntax-ns#type");
            let prev = facts@.take(i as int).map_values(|f: Fact| f@);
            let cur = facts@.take(i as int + 1).map_values(|f: Fact| f@);
            assert(facts@.take(i as int + 1) =~= facts@.take(i as int).push(facts@[i as int]));
            assert(cur =~= prev.push(facts@[i as int]@));
            assert(cur.drop_last() =~= prev);
            assert(cur.last() == facts@[i as int]@);
        }
        if contains_str(&f.predicate, "22-rdf-syntax-ns#type") {
            let resource = strip_prefix_or_self(&f.subject, "http://dbpedia.org/resource/");
            let tname = strip_prefix_or_self(&f.object, "http://dbpedia.org/ontology/");
            proof {
                assert(resource@ == spec_strip(f.subject@, spec_resource_prefix()));
                assert(tname@ == spec_strip(f.object@, spec_ontology_prefix()));
            }
            if !contains_char(tname.as_str(), '/') {
                tm.insert(resource, tname);
            }
        }
        i += 1;
    }
    proof {
        assert(facts@.take(facts@.len() as int) =~= facts@);
    }
    tm
}

/// One distribution of the index: the values that one (type, property)
/// pair takes, in the order the facts were processed.
pub struct Entry {
    pub tname: String,
    pub property: String,
    pub values: Vec<i64>,
}

/// Mapping from (type, property) to the non-empty list of values extracted
/// for that pair.
pub struct ExtensionIndex {
    pub entries: Vec<Entry>,
}

impl ExtensionIndex {
    /// Association pairs of the index, as plain sequences.
    pub open spec fn pairs(self) -> Seq<((Seq<char>, Seq<char>), Seq<i64>)> {
        self.entries@.map_values(|e: Entry| ((e.tname@, e.property@), e.values@))
    }

    /// Keys are pairwise distinct and every value list is non-empty.
    pub open spec fn wf(self) -> bool {
        unique_keys(self.pairs()) && forall|i: int|
            0 <= i < self.pairs().len() ==> (#[trigger] self.pairs()[i]).1.len() > 0
    }

    /// The mapping the entries describe.
    pub open spec fn view(self) -> Map<(Seq<char>, Seq<char>), Seq<i64>> {
        map_of(self.pairs())
    }

    /// An empty index.
    pub fn new() -> (r: ExtensionIndex)
        ensures
            r.wf(),
            r@ == Map::<(Seq<char>, Seq<char>), Seq<i64>>::empty(),
            r.entries@.len() == 0,
    {
        let r = ExtensionIndex { entries: Vec::new() };
        proof {
            assert(r.pairs() =~= Seq::<((Seq<char>, Seq<char>), Seq<i64>)>::empty());
        }
        r
    }

    /// Number of (type, property) pairs held.
    pub fn len(&self) -> (r: usize)
        ensures
            r == self.entries@.len(),
    {
        self.entries.len()
    }

    /// The values recorded under `(tname, property)`, if any.
    pub fn get(&self, tname: &String, property: &String) -> (r: Option<&Vec<i64>>)
        requires
            self.wf(),
        ensures
            r is Some <==> self@.contains_key((tname@, property@)),
            r matches Some(v) ==> v@ == self@[(tname@, property@)],
    {
        let mut i: usize = 0;
        while i < self.entries.len()
            invariant
                i <= self.entries@.len(),
                self.wf(),
                forall|j: int|
                    0 <= j < i ==> (#[trigger] self.pairs()[j]).0 != (tname@, property@),
            decreases self.entries@.len() - i,
        {
            if self.entries[i].tname == *tname && self.entries[i].property == *property {
                proof {
                    assert(self.pairs()[i as int].0 == (tname@, property@));
                    lemma_map_of_lookup(self.pairs(), i as int);
                }
                return Some(&self.entries[i].values);
            }
            proof {
                assert(self.pairs()[i as int].0 != (tname@, property@));
            }
            i += 1;
        }
        proof {
            lemma_map_of_absent(self.pairs(), (tname@, property@));
        }
        None
    }

    /// Appends `v` to the values of `(tname, property)`, creating the entry
    /// when it is new.
    pub fn append_value(&mut self, tname: String, property: String, v: i64)
        requires
            old(self).wf(),
        ensures
            final(self).wf(),
            final(self)@ == old(self)@.insert(
                (tname@, property@),
                if old(self)@.contains_key((tname@, property@)) {
                    old(self)@[(tname@, property@)].push(v)
                } else {
                    seq![v]
                },
            ),
    {
        let ghost key = (tname@, property@);
        let mut i: usize = 0;
        while i < self.entries.len()
            invariant
                i <= self.entries@.len(),
                self == old(self),
                self.wf(),
                forall|j: int| 0 <= j < i ==> (#[trigger] self.pairs()[j]).0 != key,
                key == (tname@, property@),
            decreases self.entries@.len() - i,
        {
            if self.entries[i].tname == tname && self.entries[i].property == property {
                proof {
                    assert(self.pairs()[i as int].0 == key);
                    lemma_map_of_lookup(self.pairs(), i as int);
                }
                let ghost pre = self.pairs();
                let ghost old_values = self.entries@[i as int].values@;
                let mut values = Vec::new();
                core::mem::swap(&mut values, &mut self.entries[i].values);
                values.push(v);
                core::mem::swap(&mut values, &mut self.entries[i].values);
                proof {
                    assert(self.entries@[i as int].values@ =~= old_values.push(v));
                    assert(self.entries@[i as int].tname@ == tname@);
                    assert(self.pairs() =~= pre.update(i as int, (key, old_values.push(v))));
                    assert(pre.update(i as int, (key, old_values.push(v)))[i as int] == (
                        key,
                        old_values.push(v),
                    ));
                    assert(self.pairs()[i as int] == (key, old_values.push(v)));
                    assert(self.pairs()[i as int].1.len() == old_values.len() + 1);
                    lemma_map_of_update(pre, i as int, (key, old_values.push(v)));
                    assert(forall|x: int|
                        0 <= x < pre.len() && x != i ==> #[trigger] self.pairs()[x] == pre[x]);
                    assert(self.wf());
                }
                return ;
            }
            proof {
                assert(self.pairs()[i as int].0 != key);
            }
            i += 1;
        }
        let ghost pre = self.pairs();
        let mut values = Vec::new();
        values.push(v);
        self.entries.push(Entry { tname, property, values });
        proof {
            assert(self.pairs() =~= pre.push((key, seq![v])));
            assert(self.pairs().drop_last() =~= pre);
            lemma_map_of_absent(pre, key);
            assert(self.wf()) by {
                assert(forall|x: int| 0 <= x < pre.len() ==> #[trigger] self.pairs()[x] == pre[x]);
                assert(self.pairs()[pre.len() as int].1.len() > 0);
            }
        }
    }

    /// Replaces the values of `(tname, property)` with `values`, creating
    /// the entry when it is new.
    pub fn set_values(&mut self, tname: String, property: String, values: Vec<i64>)
        requires
            old(self).wf(),
            values@.len() > 0,
        ensures
            final(self).wf(),
            final(self)@ == old(self)@.insert((tname@, property@), values@),
    {
        let ghost key = (tname@, property@);
        let mut i: usize = 0;
        while i < self.entries.len()
            invariant
                i <= self.entries@.len(),
                self == old(self),
                self.wf(),
                values@.len() > 0,
                forall|j: int| 0 <= j < i ==> (#[trigger] self.pairs()[j]).0 != key,
                key == (tname@, property@),
            decreases self.entries@.len() - i,
        {
            if self.entries[i].tname == tname && self.entries[i].property == property {
                proof {
                    assert(self.pairs()[i as int].0 == key);
                }
                let ghost pre = self.pairs();
                self.entries.set(i, Entry { tname, property, values });
                proof {
                    assert(self.pairs() =~= pre.update(i as int, (key, values@)));
                    lemma_map_of_update(pre, i as int, (key, values@));
                    assert(self.wf()) by {
                        assert(forall|x: int|
                            0 <= x < pre.len() && x != i ==> #[trigger] self.pairs()[x] == pre[x]);
                        assert(self.pairs()[i as int].1.len() > 0);
                    }
                }
                return ;
            }
            proof {
                assert(self.pairs()[i as int].0 != key);
            }
            i += 1;
        }
        let ghost pre = self.pairs();
        self.entries.push(Entry { tname, property, values });
        proof {
            assert(self.pairs() =~= pre.push((key, self.entries@.last().values@)));
            assert(self.pairs().drop_last() =~= pre);
            lemma_map_of_absent(pre, key);
            assert(self.wf()) by {
                assert(forall|x: int| 0 <= x < pre.len() ==> #[trigger] self.pairs()[x] == pre[x]);
                assert(self.pairs()[pre.len() as int].1.len() > 0);
            }
        }
    }
}

/// One fact of the property pass, applied to the index built so far: a
/// numeric fact whose subject has a known type appends its value under
/// (type of subject, stripped property); every other fact is dropped.
pub open spec fn prop_step(
    tm: Map<Seq<char>, Seq<char>>,
    idx: Map<(Seq<char>, Seq<char>), Seq<i64>>,
    f: (Seq<char>, Seq<char>, Option<i64>),
) -> Map<(Seq<char>, Seq<char>), Seq<i64>> {
    match f.2 {
        Option::None => idx,
        Option::Some(v) => {
            let res = spec_strip(f.0, spec_resource_prefix());
            let prop = spec_strip(f.1, spec_property_prefix());
            if !tm.contains_key(res) {
                idx
            } else {
                let key = (tm[res], prop);
                if idx.contains_key(key) {
                    idx.insert(key, idx[key].push(v))
                } else {
                    idx.insert(key, seq![v])
                }
            }
        },
    }
}

/// The extension index that a sequence of property facts builds over a
/// fixed resource-to-type map, first fact to last.
pub open spec fn spec_extension_index(
    tm: Map<Seq<char>, Seq<char>>,
    facts: Seq<(Seq<char>, Seq<char>, Option<i64>)>,
) -> Map<(Seq<char>, Seq<char>), Seq<i64>>
    decreases facts.len(),
{
    if facts.len() == 0 {
        Map::empty()
    } else {
        prop_step(tm, spec_extension_index(tm, facts.drop_last()), facts.last())
    }
}

/// Second pass: builds the extension index from the property facts, using
/// the resource-to-type map of the first pass.
pub fn build_extension_index(tm: &TypeMap, facts: &Vec<PropertyFact>) -> (r: ExtensionIndex)
    requires
        tm.wf(),
    ensures
        r.wf(),
        r@ == spec_extension_index(tm@, facts@.map_values(|f: PropertyFact| f@)),
{
    let mut idx = ExtensionIndex::new();
    let mut i: usize = 0;
    proof {
        assert(facts@.take(0).map_values(|f: PropertyFact| f@) =~= Seq::<(
            Seq<char>,
            Seq<char>,
            Option<i64>,
        )>::empty());
    }
    while i < facts.len()
        invariant
            i <= facts@.len(),
            tm.wf(),
            idx.wf(),
            idx@ == spec_extension_index(tm@, facts@.take(i as int).map_values(
                |f: PropertyFact| f@,
            )),
        decreases facts@.len() - i,
    {
        let f = &facts[i];
        proof {
            let prev = facts@.take(i as int).map_values(|f: PropertyFact| f@);
            let cur = facts@.take(i as int + 1).map_values(|f: PropertyFact| f@);
            assert(facts@.take(i as int + 1) =~= facts@.take(i as int).push(facts@[i as int]));
            assert(cur =~= prev.push(facts@[i as int]@));
            assert(cur.drop_last() =~= prev);
            assert(cur.last() == facts@[i as int]@);
        }
        match f.value {
            Option::None => {},
            Option::Some(v) => {
                let resource = strip_prefix_or_self(&f.subject, "http://dbpedia.org/resource/");
                let property = strip_prefix_or_self(&f.predicate, "http://dbpedia.org/property/");
                proof {
                    assert(resource@ == spec_strip(f.subject@, spec_resource_prefix()));
                    assert(property@ == spec_strip(f.predicate@, spec_property_prefix()));
                }
                match tm.get(&resource) {
                    Option::None => {},
                    Option::Some(tname) => {
                        idx.append_value(tname.clone(), property, v);
                    },
                }
            },
        }
        i += 1;
    }
    proof {
        assert(facts@.take(facts@.len() as int) =~= facts@);
    }
    idx
}

/// Spec-level form of "the last type fact wins": whatever `prefix` bound a
/// resource to, a later accepted type fact for that resource binds it to
/// that fact's type, and facts that do not re-bind the resource keep it.
pub open spec fn assigns_type(
    f: (Seq<char>, Seq<char>, Seq<char>),
    resource: Seq<char>,
) -> bool {
    &&& contains_seq(f.1, spec_type_marker())
    &&& !spec_strip(f.2, spec_ontology_prefix()).contains('/')
    &&& spec_strip(f.0, spec_resource_prefix()) == resource
}

/// The type a fact assigns, after prefix stripping.
pub open spec fn assigned_type(f: (Seq<char>, Seq<char>, Seq<char>)) -> Seq<char> {
    spec_strip(f.2, spec_ontology_prefix())
}

/// Last write wins: when an accepted type fact `f` for a resource is
/// followed only by facts that do not re-bind that resource, the built map
/// binds the resource to the type of `f`, whatever `prefix` held.
pub proof fn lemma_type_map_last_wins(
    prefix: Seq<(Seq<char>, Seq<char>, Seq<char>)>,
    f: (Seq<char>, Seq<char>, Seq<char>),
    suffix: Seq<(Seq<char>, Seq<char>, Seq<char>)>,
)
    requires
        assigns_type(f, spec_strip(f.0, spec_resource_prefix())),
        forall|k: int|
            0 <= k < suffix.len() ==> !assigns_type(
                #[trigger] suffix[k],
                spec_strip(f.0, spec_resource_prefix()),
            ),
    ensures
        spec_type_map(prefix + seq![f] + suffix).contains_key(
            spec_strip(f.0, spec_resource_prefix()),
        ),
        spec_type_map(prefix + seq![f] + suffix)[spec_strip(f.0, spec_resource_prefix())]
            == assigned_type(f),
    decreases suffix.len(),
{
    let key = spec_strip(f.0, spec_resource_prefix());
    if suffix.len() == 0 {
        let s = prefix + seq![f] + suffix;
        assert(s =~= prefix + seq![f]);
        assert((prefix + seq![f]).drop_last() =~= prefix);
        assert((prefix + seq![f]).last() == f);
    } else {
        let g = suffix.last();
        assert(forall|k: int|
            0 <= k < suffix.len() - 1 ==> #[trigger] suffix.drop_last()[k] == suffix[k]);
        lemma_type_map_last_wins(prefix, f, suffix.drop_last());
        let s = prefix + seq![f] + suffix;
        assert(s.drop_last() =~= prefix + seq![f] + suffix.drop_last());
        assert(s.last() == g);
        assert(suffix[suffix.len() - 1] == g);
        assert(!assigns_type(g, key));
        let m = spec_type_map(s.drop_last());
        if !contains_seq(g.1, spec_type_marker()) {
        } else {
            let ty = spec_strip(g.2, spec_ontology_prefix());
            if ty.contains('/') {
            } else {
                assert(spec_strip(g.0, spec_resource_prefix()) != key);
            }
        }
    }
}

} // verus!
