//! `copyFrom`: a unit file builds on the files that its `core` section names.
//!
//! Reading those files is work on the file system; this module decides which
//! files they are, merges what was read, and settles the file afterwards.
use vstd::prelude::*;
use crate::ini::{Ini, IniView, section_or_empty, core_name, copy_from_key, dont_load_key};
use crate::maps::{Section, lists_entries, lists_keys, pairs_view, strings_view};
use crate::code::{clean_image_path, clean_path};
use crate::text::{find_char_from, first_index, from_chars, has_prefix, is_first, is_space, lemma_first_unique,
    lemma_trim_end_prefix, lemma_trim_start_spaces, slice_of, starts_with, to_chars, trim, trim_chars, trim_end,
    trim_start};

verus! {

/// The map that the pairs `es` make when they are set one after the other.
pub open spec fn entries_map(es: Seq<(Seq<char>, Seq<char>)>) -> Map<Seq<char>, Seq<char>>
    decreases es.len(),
{
    if es.len() == 0 {
        Map::empty()
    } else {
        entries_map(es.drop_last()).insert(es.last().0, es.last().1)
    }
}

proof fn lemma_entries_map(es: Seq<(Seq<char>, Seq<char>)>)
    ensures
        forall|k: Seq<char>| #[trigger] entries_map(es).contains_key(k) <==> exists|i: int| 0 <= i < es.len() && es[i].0 == k,
        forall|i: int| 0 <= i < es.len() && (forall|j: int| i < j < es.len() ==> es[j].0 != es[i].0)
            ==> #[trigger] entries_map(es)[es[i].0] == es[i].1,
    decreases es.len(),
{
    if es.len() > 0 {
        let p = es.drop_last();
        lemma_entries_map(p);
        assert forall|k: Seq<char>| #[trigger] entries_map(es).contains_key(k) <==> exists|i: int| 0 <= i < es.len() && es[i].0 == k by {
            if k == es.last().0 {
                assert(es[es.len() - 1].0 == k);
            }
            if entries_map(es).contains_key(k) && k != es.last().0 {
                assert(entries_map(p).contains_key(k));
                let i = choose|i: int| 0 <= i < p.len() && p[i].0 == k;
                assert(es[i].0 == k);
            }
            if exists|i: int| 0 <= i < es.len() && es[i].0 == k {
                let i = choose|i: int| 0 <= i < es.len() && es[i].0 == k;
                if i < p.len() {
                    assert(p[i].0 == k);
                    assert(entries_map(p).contains_key(k));
                }
            }
        }
        assert forall|i: int| 0 <= i < es.len() && (forall|j: int| i < j < es.len() ==> es[j].0 != es[i].0)
            implies #[trigger] entries_map(es)[es[i].0] == es[i].1 by {
            if i < p.len() {
                assert(p[i] == es[i]);
                assert forall|j: int| i < j < p.len() implies p[j].0 != p[i].0 by {
                    assert(p[j] == es[j]);
                }
                assert(entries_map(p)[p[i].0] == p[i].1);
                assert(es[es.len() - 1].0 != es[i].0);
            }
        }
    }
}

/// Pairs that list a section's entries make that section.
pub proof fn lemma_listed_entries_map(es: Seq<(Seq<char>, Seq<char>)>, m: Map<Seq<char>, Seq<char>>)
    requires
        lists_entries(es, m),
    ensures
        entries_map(es) == m,
{
    lemma_entries_map(es);
    assert forall|k: Seq<char>| entries_map(es).contains_key(k) <==> m.contains_key(k) by {
        if m.contains_key(k) {
            let i = choose|i: int| 0 <= i < es.len() && es[i].0 == k;
        }
    }
    assert forall|k: Seq<char>| #[trigger] entries_map(es).contains_key(k) implies entries_map(es)[k] == m[k] by {
        let i = choose|i: int| 0 <= i < es.len() && es[i].0 == k;
        assert forall|j: int| i < j < es.len() implies es[j].0 != es[i].0 by {
            assert(es[i].0 != es[j].0);
        }
        assert(entries_map(es)[es[i].0] == es[i].1);
        assert(m.contains_key(es[i].0) && m[es[i].0] == es[i].1);
    }
    assert(entries_map(es) =~= m);
}

/// Section `n` of the merge of `a` and `b`: the keys of both, `b`'s value where both have one.
pub open spec fn merged_section(a: IniView, b: IniView, n: Seq<char>) -> Map<Seq<char>, Seq<char>> {
    section_or_empty(a, n).union_prefer_right(section_or_empty(b, n))
}

/// Section `n` of `b` has keys.
pub open spec fn has_keys(b: IniView, n: Seq<char>) -> bool {
    b.contains_key(n) && exists|k: Seq<char>| b[n].contains_key(k)
}

/// `a` with every key of `b` set to `b`'s value (a section of `b` with no keys adds nothing).
pub open spec fn merged(a: IniView, b: IniView) -> IniView {
    Map::new(|n: Seq<char>| a.contains_key(n) || has_keys(b, n), |n: Seq<char>| merged_section(a, b, n))
}

/// `m` once the pairs `es` are set in section `name`; with no pairs, `m` as it is.
pub open spec fn with_entries(m: IniView, name: Seq<char>, es: Seq<(Seq<char>, Seq<char>)>) -> IniView {
    if es.len() == 0 {
        m
    } else {
        m.insert(name, section_or_empty(m, name).union_prefer_right(entries_map(es)))
    }
}


/// `s` cut at each `c`, as `str::split` cuts it: the pieces between, empty ones included.
pub open spec fn split_at(s: Seq<char>, c: char) -> Seq<Seq<char>>
    decreases s.len(),
{
    if s.contains(c) && 0 <= first_index(s, c) < s.len() {
        seq![s.take(first_index(s, c))] + split_at(s.skip(first_index(s, c) + 1), c)
    } else {
        seq![s]
    }
}

/// A file that `copyFrom` names: under the mod's root folder, or under the
/// folder of the file that names it, at path `rel`.
#[derive(Debug, PartialEq, Eq)]
pub struct CopySource {
    pub from_root: bool,
    pub rel: String,
}

/// Where the piece `p` of a `copyFrom` value points: `(from_root, rel)`.
pub open spec fn source_of(p: Seq<char>) -> (bool, Seq<char>) {
    (starts_with(trim(p), "ROOT:"@), clean_path(trim(p)))
}

/// Law: where a piece of a `copyFrom` value is read from does not depend on
/// the white space before it (after `copyFrom:` or after a comma), and a piece
/// that starts with `ROOT:`, after any such white space, is read from the mod's
/// root folder.
pub proof fn law_copy_source_ignores_leading_space(ws: Seq<char>, p: Seq<char>, q: Seq<char>)
    requires
        forall|i: int| 0 <= i < ws.len() ==> is_space(#[trigger] ws[i]),
    ensures
        source_of(ws + p) == source_of(p),
        source_of(ws + "ROOT:"@ + q).0,
{
    lemma_trim_start_spaces(ws, p);
    let x = "ROOT:"@ + q;
    lemma_trim_start_spaces(ws, x);
    assert(ws + "ROOT:"@ + q == ws + x);
    reveal_strlit("ROOT:");
    assert(x[0] == 'R');
    assert(trim_start(x) == x);
    lemma_trim_end_prefix(x);
    let t = trim_end(x);
    assert(x[4] == ':');
    if t.len() <= 4 {
        assert(is_space(x[4]));
    }
    assert(t.take(5) == x.take(5));
    assert(x.take(5) == "ROOT:"@);
}

/// What a file does about `copyFrom`.
#[derive(Debug, PartialEq, Eq)]
pub enum CopyPlan {
    /// It has no `core` section: nothing.
    NoCore,
    /// Its `core` section names no file: it only drops `dont_load`.
    Own,
    /// It builds on these files, in this order.
    From(Vec<CopySource>),
}

pub open spec fn sources_view(v: Seq<CopySource>) -> Seq<(bool, Seq<char>)> {
    v.map_values(|c: CopySource| (c.from_root, c.rel@))
}

/// `r` is what the file `m` does about `copyFrom`.
pub open spec fn copy_plan_is(r: CopyPlan, m: IniView) -> bool {
    if !m.contains_key(core_name()) {
        r is NoCore
    } else if !m[core_name()].contains_key(copy_from_key()) {
        r is Own
    } else {
        r matches CopyPlan::From(v) && sources_view(v@) == split_at(m[core_name()][copy_from_key()], ',').map_values(
            |p: Seq<char>| source_of(p),
        )
    }
}

/// Law: after a merge, every key of `b` reads `b`'s value, and every key that
/// only `a` has reads `a`'s value; no other section or key appears.
pub proof fn law_merge_prefers_other(a: IniView, b: IniView, n: Seq<char>, k: Seq<char>)
    ensures
        b.contains_key(n) && b[n].contains_key(k) ==> merged(a, b).contains_key(n) && merged(a, b)[n].contains_key(k)
            && merged(a, b)[n][k] == b[n][k],
        a.contains_key(n) && a[n].contains_key(k) && !(b.contains_key(n) && b[n].contains_key(k))
            ==> merged(a, b).contains_key(n) && merged(a, b)[n].contains_key(k) && merged(a, b)[n][k] == a[n][k],
        merged(a, b).contains_key(n) && merged(a, b)[n].contains_key(k) ==> (a.contains_key(n) && a[n].contains_key(k))
            || (b.contains_key(n) && b[n].contains_key(k)),
{
}

/// Law: merging the same file a second time changes nothing.
pub proof fn law_merge_twice(a: IniView, b: IniView)
    ensures
        merged(merged(a, b), b) == merged(a, b),
{
    let m = merged(a, b);
    assert forall|n: Seq<char>| #[trigger] merged(m, b).contains_key(n) implies merged(m, b)[n] == m[n] by {
        assert(merged_section(m, b, n) =~= m[n]);
    }
    assert(merged(m, b) =~= m);
}

impl Ini {
    /// Sets each of the pairs `es` in section `name`, one after the other.
    fn set_entries(&mut self, name: &String, es: &Vec<(String, String)>)
        ensures
            final(self)@ == with_entries(old(self)@, name@, pairs_view(es@)),
            final(self).path == old(self).path,
            final(self).ppath == old(self).ppath,
    {
        let ghost base = section_or_empty(old(self)@, name@);
        let ghost start = old(self)@;
        let ghost pv = pairs_view(es@);
        let mut i: usize = 0;
        while i < es.len()
            invariant
                i <= es.len(),
                pv == pairs_view(es@),
                base == section_or_empty(start, name@),
                self.path == old(self).path,
                self.ppath == old(self).ppath,
                self@ == with_entries(start, name@, pv.take(i as int)),
            decreases es.len() - i,
        {
            self.set_kv(name.clone(), es[i].0.clone(), es[i].1.clone());
            proof {
                assert(pv.take(i + 1).drop_last() == pv.take(i as int));
                assert(pv.take(i + 1).last() == (es@[i as int].0@, es@[i as int].1@));
                if i == 0 {
                    assert(pv.take(0).len() == 0);
                    assert(entries_map(pv.take(0)) =~= Map::<Seq<char>, Seq<char>>::empty());
                }
                let kv = (es@[i as int].0@, es@[i as int].1@);
                assert(entries_map(pv.take(i + 1)) == entries_map(pv.take(i as int)).insert(kv.0, kv.1));
                assert(base.union_prefer_right(entries_map(pv.take(i + 1))) =~= base.union_prefer_right(
                    entries_map(pv.take(i as int)),
                ).insert(kv.0, kv.1));
                assert(pv.len() == es.len());
                assert(pv.take(i as int).len() == i);
                if i == 0 {
                    assert(base.union_prefer_right(entries_map(pv.take(0))) =~= base);
                }
                assert(section_or_empty(with_entries(start, name@, pv.take(i as int)), name@)
                    == base.union_prefer_right(entries_map(pv.take(i as int))));
                assert(self@ =~= with_entries(start, name@, pv.take(i + 1)));
            }
            i = i + 1;
        }
        proof {
            assert(pv.take(es.len() as int) == pv);
        }
    }
    /// Sets every key of `other` in this file, section by section: `other`'s
    /// values win, the keys that only this file has stay.
    pub fn merge_from(&mut self, other: &Ini)
        ensures
            final(self)@ == merged(old(self)@, other@),
            final(self).path == old(self).path,
            final(self).ppath == old(self).ppath,
    {
        let ghost start = self@;
        let ghost b = other@;
        let names = other.data.names();
        let ghost ns = strings_view(names@);
        let mut i: usize = 0;
        while i < names.len()
            invariant
                i <= names.len(),
                start == old(self)@,
                b == other@,
                ns == strings_view(names@),
                lists_keys(ns, b),
                self.path == old(self).path,
                self.ppath == old(self).ppath,
                forall|n: Seq<char>| #[trigger] self@.contains_key(n) <==> start.contains_key(n) || (
                ns.take(i as int).contains(n) && has_keys(b, n)),
                forall|n: Seq<char>| #[trigger] self@.contains_key(n) ==> self@[n] == if ns.take(
                    i as int,
                ).contains(n) {
                    merged_section(start, b, n)
                } else {
                    start[n]
                },
            decreases names.len() - i,
        {
            let ghost before = self@;
            let ghost n = ns[i as int];
            assert(names@[i as int]@ == n);
            let es = match other.data.get(&names[i]) {
                Some(sec) => sec.entries(),
                None => Vec::new(),
            };
            proof {
                assert(b.contains_key(n));
                lemma_listed_entries_map(pairs_view(es@), b[n]);
                assert(!ns.take(i as int).contains(n)) by {
                    if ns.take(i as int).contains(n) {
                        let j = choose|j: int| 0 <= j < i && ns.take(i as int)[j] == n;
                        assert(ns[j] == ns[i as int]);
                    }
                }
                assert(section_or_empty(before, n) == section_or_empty(start, n));
            }
            self.set_entries(&names[i], &es);
            proof {
                assert(ns.take(i + 1) == ns.take(i as int).push(n));
                if pairs_view(es@).len() == 0 {
                    assert(!has_keys(b, n)) by {
                        if has_keys(b, n) {
                            let k = choose|k: Seq<char>| b[n].contains_key(k);
                            assert(entries_map(pairs_view(es@)).contains_key(k));
                        }
                    }
                } else {
                    assert(entries_map(pairs_view(es@)).contains_key(pairs_view(es@)[0].0));
                    assert(has_keys(b, n));
                }
                assert forall|m: Seq<char>| #[trigger] self@.contains_key(m) <==> start.contains_key(m) || (
                ns.take(i + 1).contains(m) && has_keys(b, m)) by {
                    if m != n {
                        assert(ns.take(i + 1).contains(m) <==> ns.take(i as int).contains(m));
                    } else {
                        assert(ns.take(i + 1)[i as int] == n);
                    }
                }
                assert forall|m: Seq<char>| #[trigger] self@.contains_key(m) implies self@[m] == if ns.take(
                    i + 1,
                ).contains(m) {
                    merged_section(start, b, m)
                } else {
                    start[m]
                } by {
                    if m != n {
                        assert(ns.take(i + 1).contains(m) <==> ns.take(i as int).contains(m));
                    } else {
                        assert(ns.take(i + 1)[i as int] == n);
                    }
                }
            }
            i = i + 1;
        }
        proof {
            assert(ns.take(names.len() as int) == ns);
            assert forall|n: Seq<char>| #[trigger] self@.contains_key(n) implies self@[n] == merged_section(start, b, n) by {
                if !ns.contains(n) {
                    assert(!b.contains_key(n));
                    assert(merged_section(start, b, n) =~= start[n]);
                }
            }
            assert forall|n: Seq<char>| #[trigger] self@.contains_key(n) <==> merged(start, b).contains_key(n) by {
                if has_keys(b, n) {
                    assert(b.contains_key(n));
                    let j = choose|j: int| 0 <= j < ns.len() && ns[j] == n;
                    assert(ns[j] == n);
                }
            }
            assert(self@ =~= merged(start, b));
        }
    }
    /// What this file does about `copyFrom`.
    pub fn copy_plan(&self) -> (r: CopyPlan)
        ensures
            copy_plan_is(r, self@),
    {
        proof {
            reveal_strlit("core");
            reveal_strlit("copyFrom");
        }
        let core = from_chars(to_chars("core").as_slice());
        let key = from_chars(to_chars("copyFrom").as_slice());
        match self.data.get(&core) {
            None => CopyPlan::NoCore,
            Some(sec) => match sec.get(&key) {
                None => CopyPlan::Own,
                Some(v) => CopyPlan::From(copy_sources(&to_chars(v.as_str()))),
            },
        }
    }

    /// The `core` section holds `copyFrom`.
    pub fn has_copy_from(&self) -> (r: bool)
        ensures
            r == (self@.contains_key(core_name()) && self@[core_name()].contains_key(copy_from_key())),
    {
        proof {
            reveal_strlit("core");
            reveal_strlit("copyFrom");
        }
        let core = from_chars(to_chars("core").as_slice());
        let key = from_chars(to_chars("copyFrom").as_slice());
        match self.data.get(&core) {
            None => false,
            Some(sec) => sec.contains_key(&key),
        }
    }

    /// The `core` section holds `dont_load`: the file is skipped.
    pub fn skips_loading(&self) -> (r: bool)
        ensures
            r == (self@.contains_key(core_name()) && self@[core_name()].contains_key(dont_load_key())),
    {
        let core = from_chars(to_chars("core").as_slice());
        let key = from_chars(to_chars("dont_load").as_slice());
        match self.data.get(&core) {
            None => false,
            Some(sec) => sec.contains_key(&key),
        }
    }

    /// Takes key `key` out of section `name`, which must exist.
    pub fn remove_key(&mut self, name: &String, key: &String)
        requires
            old(self)@.contains_key(name@),
        ensures
            final(self)@ == old(self)@.insert(name@, old(self)@[name@].remove(key@)),
            final(self).path == old(self).path,
            final(self).ppath == old(self).ppath,
    {
        match self.data.remove(name) {
            Some(mut sec) => {
                sec.remove(key);
                self.data.insert(name.clone(), sec);
            },
            None => {},
        }
        assert(self@ =~= old(self)@.insert(name@, old(self)@[name@].remove(key@)));
    }

    /// Takes `dont_load` out of the `core` section, which must exist: a file
    /// that builds on others is loaded.
    pub fn drop_dont_load(&mut self)
        requires
            old(self)@.contains_key(core_name()),
        ensures
            final(self)@ == old(self)@.insert(core_name(), old(self)@[core_name()].remove(dont_load_key())),
            final(self).path == old(self).path,
            final(self).ppath == old(self).ppath,
    {
        let core = from_chars(to_chars("core").as_slice());
        let key = from_chars(to_chars("dont_load").as_slice());
        self.remove_key(&core, &key);
    }
}

/// The files that a `copyFrom` value names, in order.
fn copy_sources(v: &Vec<char>) -> (r: Vec<CopySource>)
    ensures
        sources_view(r@) == split_at(v@, ',').map_values(|p: Seq<char>| source_of(p)),
{
    let mut r: Vec<CopySource> = Vec::new();
    let mut start: usize = 0;
    let ghost full = split_at(v@, ',');
    assert(v@.skip(0) == v@);
    assert(full.len() >= 1);
    assert(full.take(0) + full =~= full);
    loop
        invariant
            start <= v.len(),
            full == split_at(v@, ','),
            r.len() < full.len(),
            full == split_at(v@, ',').take(r.len() as int) + split_at(v@.skip(start as int), ','),
            sources_view(r@) == split_at(v@, ',').take(r.len() as int).map_values(|p: Seq<char>| source_of(p)),
        decreases v.len() - start,
    {
        let ghost rest = v@.skip(start as int);
        let piece_end = match find_char_from(v, ',', start) {
            Some(e) => e,
            None => v.len(),
        };
        let piece = slice_of(v, start, piece_end);
        let t = trim_chars(&piece);
        let from_root = has_prefix(&t, &to_chars("ROOT:"));
        let rel = from_chars(clean_image_path(&t).as_slice());
        let ghost before = r@;
        r.push(CopySource { from_root, rel });
        if piece_end == v.len() {
            proof {
                assert(piece@ == rest);
                assert(split_at(rest, ',') == seq![rest]);
                assert(full == full.take(before.len() as int) + seq![rest]);
                assert(full.len() == r.len());
                assert(full.take(r.len() as int) =~= full);
                assert(sources_view(r@) =~= sources_view(before).push(source_of(piece@)));
                assert(full.take(r.len() as int) =~= full.take(before.len() as int).push(rest));
                assert(sources_view(r@) =~= split_at(v@, ',').take(r.len() as int).map_values(
                    |p: Seq<char>| source_of(p),
                ));
            }
            return r;
        }
        proof {
            let e = piece_end - start;
            assert(is_first(rest, ',', e));
            lemma_first_unique(rest, ',', e);
            assert(rest.take(e) == piece@);
            assert(rest.skip(e + 1) == v@.skip(piece_end + 1));
            let rest2 = v@.skip(piece_end + 1);
            assert(split_at(rest, ',') == seq![piece@] + split_at(rest2, ','));
            assert(split_at(rest2, ',').len() >= 1);
            assert(full == full.take(before.len() as int) + (seq![piece@] + split_at(rest2, ',')));
            assert(full[before.len() as int] == piece@);
            assert(full.take(r.len() as int) =~= full.take(before.len() as int).push(piece@));
            assert(full =~= full.take(r.len() as int) + split_at(rest2, ','));
            assert(sources_view(r@) =~= sources_view(before).push(source_of(piece@)));
            assert(sources_view(r@) =~= split_at(v@, ',').take(r.len() as int).map_values(
                |p: Seq<char>| source_of(p),
            ));
        }
        start = piece_end + 1;
    }
}

/// `coopyFrom`: the key that a file which built on others has taken out of
/// its `core` section once it is merged (a key that files do not hold, so
/// taking it out leaves them as they are).
pub open spec fn coopy_from_key() -> Seq<char> {
    "coopyFrom"@
}

/// `m` without `dont_load` in its `core` section.
pub open spec fn without_dont_load(m: IniView) -> IniView {
    m.insert(core_name(), m[core_name()].remove(dont_load_key()))
}

/// The files that the `copyFrom` of `m` names, in order.
pub open spec fn sources_of(m: IniView) -> Seq<(bool, Seq<char>)> {
    split_at(m[core_name()][copy_from_key()], ',').map_values(|p: Seq<char>| source_of(p))
}

/// `m` holds `copyFrom` in its `core` section.
pub open spec fn names_sources(m: IniView) -> bool {
    m.contains_key(core_name()) && m[core_name()].contains_key(copy_from_key())
}

/// One file being completed from the files it builds on: the file, the files
/// it names, how many of them are merged, and what they have given so far.
#[verifier::ext_equal]
pub struct FrameView {
    pub ini: IniView,
    pub path: Seq<char>,
    pub ppath: Seq<char>,
    pub sources: Seq<(bool, Seq<char>)>,
    pub next: int,
    pub total: IniView,
    pub total_path: Seq<char>,
    pub total_ppath: Seq<char>,
}

/// A file that starts building on the files that `m` names.
pub open spec fn new_frame(m: IniView, path: Seq<char>, ppath: Seq<char>) -> FrameView {
    FrameView {
        ini: m,
        path,
        ppath,
        sources: sources_of(m),
        next: 0,
        total: Map::empty(),
        total_path: Seq::empty(),
        total_ppath: Seq::empty(),
    }
}

/// A file completed: what it builds on merged into it, `dont_load` dropped.
pub open spec fn completed(f: FrameView) -> IniView {
    without_dont_load(merged(f.ini, f.total))
}

/// Where the work on `copyFrom` stands.
pub enum InheritView {
    /// The file is complete: its contents, path and folder.
    Finished(IniView, Seq<char>, Seq<char>),
    /// Files are still to be read; the last frame is the one being worked on.
    Working(Seq<FrameView>),
}

/// The stack `fs` once every frame whose files are all merged is completed,
/// each completed file becoming (less `coopyFrom`) what its parent frame has
/// gathered.
pub open spec fn settle(fs: Seq<FrameView>) -> InheritView
    decreases fs.len(),
{
    if fs.len() == 0 || fs.last().next < fs.last().sources.len() {
        InheritView::Working(fs)
    } else {
        let f = fs.last();
        let done = completed(f);
        if fs.len() == 1 {
            InheritView::Finished(done, f.path, f.ppath)
        } else {
            let p = fs[fs.len() - 2];
            settle(
                fs.drop_last().drop_last().push(
                    FrameView {
                        total: done.insert(core_name(), done[core_name()].remove(coopy_from_key())),
                        total_path: f.path,
                        total_ppath: f.ppath,
                        ..p
                    },
                ),
            )
        }
    }
}

/// The stack `fs` once the file that its top frame asked for is read, as `l`
/// at folder `lp`: it is merged into what that frame gathered, and where the
/// result itself names files, a frame for it goes on top.
pub open spec fn after_load(fs: Seq<FrameView>, l: IniView, lp: Seq<char>) -> Seq<FrameView> {
    let top = fs.last();
    let t = merged(top.total, l);
    if names_sources(t) {
        fs.drop_last().push(
            FrameView { next: top.next + 1, total: Map::empty(), total_path: Seq::empty(), total_ppath: Seq::empty(), ..top },
        ).push(new_frame(t, top.total_path, lp))
    } else {
        fs.drop_last().push(FrameView { next: top.next + 1, total: t, total_ppath: lp, ..top })
    }
}

/// What starting on `copyFrom` for the file `m` gives.
pub open spec fn start_view(m: IniView, path: Seq<char>, ppath: Seq<char>) -> InheritView {
    if !m.contains_key(core_name()) {
        InheritView::Finished(m, path, ppath)
    } else if !m[core_name()].contains_key(copy_from_key()) {
        InheritView::Finished(without_dont_load(m), path, ppath)
    } else {
        InheritView::Working(seq![new_frame(m, path, ppath)])
    }
}

/// Settling never touches the bottom frame's file, path or folder.
proof fn lemma_settle_keeps_base(fs: Seq<FrameView>)
    requires
        fs.len() > 0,
    ensures
        settle(fs) matches InheritView::Working(gs) ==> gs.len() > 0 && gs[0].ini == fs[0].ini && gs[0].path
            == fs[0].path && gs[0].ppath == fs[0].ppath,
    decreases fs.len(),
{
    if fs.last().next < fs.last().sources.len() || fs.len() == 1 {
    } else {
        let f = fs.last();
        let done = completed(f);
        let p = fs[fs.len() - 2];
        let gs = fs.drop_last().drop_last().push(
            FrameView {
                total: done.insert(core_name(), done[core_name()].remove(coopy_from_key())),
                total_path: f.path,
                total_ppath: f.ppath,
                ..p
            },
        );
        assert(gs[0].ini == fs[0].ini && gs[0].path == fs[0].path && gs[0].ppath == fs[0].ppath);
        lemma_settle_keeps_base(gs);
    }
}

/// Law: however many files have been read, the work still holds the file it
/// started on, as it was: giving up at any point gives that file back.
pub proof fn law_loading_keeps_the_file(fs: Seq<FrameView>, l: IniView, lp: Seq<char>)
    requires
        fs.len() > 0,
    ensures
        settle(after_load(fs, l, lp)) matches InheritView::Working(gs) ==> gs.len() > 0 && gs[0].ini == fs[0].ini
            && gs[0].path == fs[0].path && gs[0].ppath == fs[0].ppath,
{
    let hs = after_load(fs, l, lp);
    assert(hs[0].ini == fs[0].ini && hs[0].path == fs[0].path && hs[0].ppath == fs[0].ppath);
    lemma_settle_keeps_base(hs);
}

/// Law: when the last file that a file names is read, and what was gathered
/// names no file itself, the file is complete: everything gathered merged
/// into it (the gathered values winning), `dont_load` dropped, its path and
/// folder its own.
pub proof fn law_last_file_completes(f: FrameView, l: IniView, lp: Seq<char>)
    requires
        f.next + 1 == f.sources.len(),
        !names_sources(merged(f.total, l)),
    ensures
        settle(after_load(seq![f], l, lp)) == InheritView::Finished(
            without_dont_load(merged(f.ini, merged(f.total, l))),
            f.path,
            f.ppath,
        ),
{
    let hs = after_load(seq![f], l, lp);
    assert(hs.len() == 1 && hs.last().next == hs.last().sources.len());
    assert(completed(hs.last()) == without_dont_load(merged(f.ini, merged(f.total, l))));
}

/// One file being completed.
struct Frame {
    ini: Ini,
    sources: Vec<CopySource>,
    next: usize,
    total: Ini,
}

/// A frame's file has a `core` section, and no more of its files are merged
/// than it names.
spec fn frame_ok(f: Frame) -> bool {
    f.ini@.contains_key(core_name()) && f.next <= f.sources.len()
}

spec fn frame_view(f: Frame) -> FrameView {
    FrameView {
        ini: f.ini@,
        path: f.ini.path@,
        ppath: f.ini.ppath@,
        sources: sources_view(f.sources@),
        next: f.next as int,
        total: f.total@,
        total_path: f.total.path@,
        total_ppath: f.total.ppath@,
    }
}

/// A file being completed from the files that its `copyFrom` names, and from
/// the files that those name in turn. Reading a file is work on the file
/// system: the caller reads the file that `request` names and hands it to
/// `loaded`.
pub struct Inheritance {
    frames: Vec<Frame>,
}

/// What `start` and `loaded` give: the completed file, or the work still to do.
pub enum Inherit {
    Finished(Ini),
    Working(Inheritance),
}

/// A file to read: under the mod's root folder, or under `base`, at `rel`.
#[derive(Debug, PartialEq, Eq)]
pub struct CopyRequest {
    pub from_root: bool,
    pub rel: String,
    pub base: String,
}

impl Inheritance {
    pub closed spec fn frames_view(&self) -> Seq<FrameView> {
        self.frames@.map_values(|f: Frame| frame_view(f))
    }

    /// Every frame's file has a `core` section, and the top frame has a file
    /// still to read.
    pub closed spec fn wf(&self) -> bool {
        &&& self.frames.len() > 0
        &&& forall|i: int| 0 <= i < self.frames.len() ==> frame_ok(#[trigger] self.frames@[i])
        &&& self.frames@.last().next < self.frames@.last().sources.len()
    }
}

/// The view of what `start` or `loaded` gives.
pub open spec fn inherit_is(r: Inherit, v: InheritView) -> bool {
    match r {
        Inherit::Finished(ini) => v == InheritView::Finished(ini@, ini.path@, ini.ppath@),
        Inherit::Working(w) => w.wf() && v == InheritView::Working(w.frames_view()),
    }
}

/// A piece of a `copyFrom` value is never missing: there is at least one.
proof fn lemma_split_nonempty(s: Seq<char>, c: char)
    ensures
        split_at(s, c).len() >= 1,
{
}

impl Inheritance {
    /// Starts completing `ini` from the files that its `copyFrom` names.
    pub fn start(ini: Ini) -> (r: Inherit)
        ensures
            inherit_is(r, start_view(ini@, ini.path@, ini.ppath@)),
    {
        let mut ini = ini;
        match ini.copy_plan() {
            CopyPlan::NoCore => Inherit::Finished(ini),
            CopyPlan::Own => {
                ini.drop_dont_load();
                Inherit::Finished(ini)
            },
            CopyPlan::From(sources) => {
                proof {
                    lemma_split_nonempty(ini@[core_name()][copy_from_key()], ',');
                    assert(sources_view(sources@).len() == sources@.len());
                }
                let f = Frame { ini, sources, next: 0, total: Ini::new() };
                let mut frames: Vec<Frame> = Vec::new();
                frames.push(f);
                let w = Inheritance { frames };
                proof {
                    assert(w.frames_view() =~= seq![new_frame(f.ini@, f.ini.path@, f.ini.ppath@)]);
                }
                Inherit::Working(w)
            },
        }
    }

    /// The file to read next.
    pub fn request(&self) -> (r: CopyRequest)
        requires
            self.wf(),
        ensures
            ({
                let top = self.frames_view().last();
                (r.from_root, r.rel@) == top.sources[top.next] && r.base@ == top.ppath
            }),
    {
        let top = &self.frames[self.frames.len() - 1];
        let s = &top.sources[top.next];
        proof {
            assert(self.frames_view().last() == frame_view(self.frames@.last()));
        }
        CopyRequest { from_root: s.from_root, rel: s.rel.clone(), base: top.ini.ppath.clone() }
    }

    /// The file asked for could not be read: the file being completed, as it
    /// was before any of this.
    pub fn abandon(self) -> (r: Ini)
        requires
            self.wf(),
        ensures
            r@ == self.frames_view()[0].ini,
            r.path@ == self.frames_view()[0].path,
            r.ppath@ == self.frames_view()[0].ppath,
    {
        let mut frames = self.frames;
        proof {
            assert(self.frames_view()[0] == frame_view(frames@[0]));
        }
        frames.swap_remove(0).ini
    }

    /// The file that `request` named, read as `l`: it is merged into what the
    /// top frame has gathered; where that names files of its own, they are
    /// worked on first; then every frame whose files are all merged is
    /// completed.
    pub fn loaded(self, l: Ini) -> (r: Inherit)
        requires
            self.wf(),
        ensures
            inherit_is(r, settle(after_load(self.frames_view(), l@, l.ppath@))),
    {
        let ghost fs = self.frames_view();
        let mut frames = self.frames;
        proof {
            assert(frames@.last() == frames@[frames.len() - 1]);
            assert(frame_ok(frames@[frames.len() - 1]));
            assert(fs.last() == frame_view(frames@.last()));
        }
        let top = frames.pop().unwrap();
        let Frame { ini, sources, next, mut total } = top;
        total.ppath = l.ppath.clone();
        total.merge_from(&l);
        let next = next + 1;
        let ghost t = total@;
        match total.copy_plan() {
            CopyPlan::From(names) => {
                proof {
                    lemma_split_nonempty(t[core_name()][copy_from_key()], ',');
                    assert(sources_view(names@).len() == names@.len());
                }
                let parent = Frame { ini, sources, next, total: Ini::new() };
                let child = Frame { ini: total, sources: names, next: 0, total: Ini::new() };
                frames.push(parent);
                frames.push(child);
                proof {
                    assert(frames@.map_values(|f: Frame| frame_view(f)) =~= after_load(fs, l@, l.ppath@));
                }
            },
            _ => {
                let parent = Frame { ini, sources, next, total };
                frames.push(parent);
                proof {
                    assert(frames@.map_values(|f: Frame| frame_view(f)) =~= after_load(fs, l@, l.ppath@));
                }
            },
        }
        Self::settle_frames(frames)
    }

    /// Completes, from the top, every frame whose files are all merged.
    fn settle_frames(stack: Vec<Frame>) -> (r: Inherit)
        requires
            stack.len() > 0,
            forall|i: int| 0 <= i < stack.len() ==> frame_ok(#[trigger] stack@[i]),
        ensures
            inherit_is(r, settle(stack@.map_values(|f: Frame| frame_view(f)))),
    {
        let ghost goal = settle(stack@.map_values(|f: Frame| frame_view(f)));
        let mut frames = stack;
        let core = from_chars(to_chars("core").as_slice());
        let coopy = from_chars(to_chars("coopyFrom").as_slice());
        loop
            invariant
                frames.len() > 0,
                forall|i: int| 0 <= i < frames.len() ==> frame_ok(#[trigger] frames@[i]),
                settle(frames@.map_values(|f: Frame| frame_view(f))) == goal,
                goal == settle(stack@.map_values(|f: Frame| frame_view(f))),
                core@ == core_name(),
                coopy@ == coopy_from_key(),
            decreases frames.len(),
        {
            let ghost fs = frames@.map_values(|f: Frame| frame_view(f));
            let ghost before = frames@;
            let n = frames.len();
            proof {
                assert(frame_ok(frames@[n - 1]));
                assert(fs.last() == frame_view(frames@[n - 1]));
            }
            if frames[n - 1].next < frames[n - 1].sources.len() {
                let w = Inheritance { frames };
                proof {
                    assert(w.frames_view() == fs);
                }
                return Inherit::Working(w);
            }
            let f = frames.pop().unwrap();
            let Frame { ini, sources, next, total } = f;
            let mut done = ini;
            done.merge_from(&total);
            done.drop_dont_load();
            if frames.len() == 0 {
                return Inherit::Finished(done);
            }
            proof {
                assert(frame_ok(frames@[frames.len() - 1]));
                assert(fs[fs.len() - 2] == frame_view(frames@[frames.len() - 1]));
            }
            let p = frames.pop().unwrap();
            let Frame { ini: p_ini, sources: p_sources, next: p_next, total: _ } = p;
            done.remove_key(&core, &coopy);
            frames.push(Frame { ini: p_ini, sources: p_sources, next: p_next, total: done });
            proof {
                let ghost fs2 = frames@.map_values(|f: Frame| frame_view(f));
                let last = fs.last();
                let d = completed(last);
                let pv = fs[fs.len() - 2];
                assert(fs2 =~= fs.drop_last().drop_last().push(
                    FrameView {
                        total: d.insert(core_name(), d[core_name()].remove(coopy_from_key())),
                        total_path: last.path,
                        total_ppath: last.ppath,
                        ..pv
                    },
                ));
                assert forall|i: int| 0 <= i < frames.len() implies frame_ok(#[trigger] frames@[i]) by {
                    if i < frames.len() - 1 {
                        assert(frames@[i] == before[i]);
                    }
                }
            }
        }
    }
}

} // verus!
