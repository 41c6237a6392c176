//! The two `hashbrown` maps that hold an INI file: the keys of one section, and
//! the sections of a file.
//!
//! Each map sits in a private field of a struct whose body Verus does not see;
//! what it holds is named by `section_entries` and `ini_sections`, and every
//! method below states its effect over those names.
use vstd::prelude::*;

verus! {

/// The keys and values of one section, in a `hashbrown::HashMap<String, String>`.
#[verifier::external_body]
pub struct Section {
    map: hashbrown::HashMap<String, String>,
}

/// The sections of a file, each a [`Section`], keyed by the section's name.
#[verifier::external_body]
pub struct Sections {
    map: hashbrown::HashMap<String, Section>,
}

/// What a [`Section`] holds: each key's characters mapped to its value's.
pub uninterp spec fn section_entries(m: Section) -> Map<Seq<char>, Seq<char>>;

/// What a [`Sections`] holds: each section name mapped to what that section holds.
pub uninterp spec fn ini_sections(m: Sections) -> Map<Seq<char>, Map<Seq<char>, Seq<char>>>;

impl View for Section {
    type V = Map<Seq<char>, Seq<char>>;

    open spec fn view(&self) -> Map<Seq<char>, Seq<char>> {
        section_entries(*self)
    }
}

impl View for Sections {
    type V = Map<Seq<char>, Map<Seq<char>, Seq<char>>>;

    open spec fn view(&self) -> Map<Seq<char>, Map<Seq<char>, Seq<char>>> {
        ini_sections(*self)
    }
}

/// The characters of each key and value of `es`.
pub open spec fn pairs_view(es: Seq<(String, String)>) -> Seq<(Seq<char>, Seq<char>)> {
    es.map_values(|e: (String, String)| (e.0@, e.1@))
}

/// The characters of each string of `ns`.
pub open spec fn strings_view(ns: Seq<String>) -> Seq<Seq<char>> {
    ns.map_values(|n: String| n@)
}

/// `es` lists the entries of `m`: each key once, each with its value.
pub open spec fn lists_entries(es: Seq<(Seq<char>, Seq<char>)>, m: Map<Seq<char>, Seq<char>>) -> bool {
    &&& forall|i: int| 0 <= i < es.len() ==> #[trigger] m.contains_key(es[i].0) && m[es[i].0] == es[i].1
    &&& forall|k: Seq<char>| #[trigger] m.contains_key(k) ==> exists|i: int| 0 <= i < es.len() && es[i].0 == k
    &&& forall|i: int, j: int| 0 <= i < j < es.len() ==> es[i].0 != es[j].0
}

/// `ns` lists the keys of `m`, each once.
pub open spec fn lists_keys<V>(ns: Seq<Seq<char>>, m: Map<Seq<char>, V>) -> bool {
    &&& forall|i: int| 0 <= i < ns.len() ==> #[trigger] m.contains_key(ns[i])
    &&& forall|k: Seq<char>| #[trigger] m.contains_key(k) ==> exists|i: int| 0 <= i < ns.len() && ns[i] == k
    &&& forall|i: int, j: int| 0 <= i < j < ns.len() ==> ns[i] != ns[j]
}

impl Section {
    /// `hashbrown::HashMap::new`: an empty map.
    #[verifier::external_body]
    pub(crate) fn new() -> (r: Section)
        ensures
            section_entries(r).dom().is_empty(),
    {
        Section { map: hashbrown::HashMap::new() }
    }

    /// `hashbrown::HashMap::insert`: `k` now maps to `v`, every other key as before.
    #[verifier::external_body]
    pub(crate) fn insert(&mut self, k: String, v: String)
        ensures
            section_entries(*final(self)) == section_entries(*old(self)).insert(k@, v@),
    {
        self.map.insert(k, v);
    }

    /// `hashbrown::HashMap::get`: the value of `k`, if `k` is a key.
    #[verifier::external_body]
    pub(crate) fn get(&self, k: &String) -> (r: Option<&String>)
        ensures
            match r {
                Some(v) => section_entries(*self).contains_key(k@) && v@ == section_entries(*self)[k@],
                None => !section_entries(*self).contains_key(k@),
            },
    {
        self.map.get(k)
    }

    /// `hashbrown::HashMap::contains_key`: whether `k` is a key.
    #[verifier::external_body]
    pub(crate) fn contains_key(&self, k: &String) -> (r: bool)
        ensures
            r == section_entries(*self).contains_key(k@),
    {
        self.map.contains_key(k)
    }

    /// `hashbrown::HashMap::remove`: `k` is no longer a key, every other key as before.
    #[verifier::external_body]
    pub(crate) fn remove(&mut self, k: &String)
        ensures
            section_entries(*final(self)) == section_entries(*old(self)).remove(k@),
    {
        self.map.remove(k);
    }

    /// `Clone` of `hashbrown::HashMap`: a map with the same entries.
    #[verifier::external_body]
    pub(crate) fn duplicate(&self) -> (r: Section)
        ensures
            section_entries(r) == section_entries(*self),
    {
        Section { map: self.map.clone() }
    }

    /// `hashbrown::HashMap::iter`: the entries, copied out in the map's own order,
    /// which the contract leaves open.
    #[verifier::external_body]
    pub(crate) fn entries(&self) -> (r: Vec<(String, String)>)
        ensures
            lists_entries(pairs_view(r@), section_entries(*self)),
    {
        let mut r = Vec::new();
        for (k, v) in self.map.iter() {
            r.push((k.clone(), v.clone()));
        }
        r
    }
}

impl Sections {
    /// `hashbrown::HashMap::new`: no sections.
    #[verifier::external_body]
    pub(crate) fn new() -> (r: Sections)
        ensures
            ini_sections(r).dom().is_empty(),
    {
        Sections { map: hashbrown::HashMap::new() }
    }

    /// `hashbrown::HashMap::insert`: section `k` is now `s`, every other section as before.
    #[verifier::external_body]
    pub(crate) fn insert(&mut self, k: String, s: Section)
        ensures
            ini_sections(*final(self)) == ini_sections(*old(self)).insert(k@, section_entries(s)),
    {
        self.map.insert(k, s);
    }

    /// `hashbrown::HashMap::get`: section `k`, if there is one.
    #[verifier::external_body]
    pub(crate) fn get(&self, k: &String) -> (r: Option<&Section>)
        ensures
            match r {
                Some(s) => ini_sections(*self).contains_key(k@) && section_entries(*s) == ini_sections(*self)[k@],
                None => !ini_sections(*self).contains_key(k@),
            },
    {
        self.map.get(k)
    }

    /// `hashbrown::HashMap::remove`: takes section `k` out, if there is one.
    #[verifier::external_body]
    pub(crate) fn remove(&mut self, k: &String) -> (r: Option<Section>)
        ensures
            ini_sections(*final(self)) == ini_sections(*old(self)).remove(k@),
            match r {
                Some(s) => ini_sections(*old(self)).contains_key(k@) && section_entries(s) == ini_sections(*old(self))[k@],
                None => !ini_sections(*old(self)).contains_key(k@),
            },
    {
        self.map.remove(k)
    }

    /// `hashbrown::HashMap::keys`: the section names, in the map's own order,
    /// which the contract leaves open.
    #[verifier::external_body]
    pub(crate) fn names(&self) -> (r: Vec<String>)
        ensures
            lists_keys(strings_view(r@), ini_sections(*self)),
    {
        let mut r = Vec::new();
        for k in self.map.keys() {
            r.push(k.clone());
        }
        r
    }
}

} // verus!
