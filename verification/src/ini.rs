//! Rusted Warfare unit files: the `Ini` type, how its lines are read, and how
//! a key is set.
use vstd::prelude::*;
use crate::maps::{Section, Sections, lists_entries, lists_keys, pairs_view, strings_view};
use crate::text::{
    ends_with, first_index, from_chars, has_prefix, has_suffix, is_ascii_char, is_ascii_char_exec,
    is_space, slice_of, starts_with, to_chars, trim, trim_chars, trim_end, trim_start,
    contains_char, find_char,
};

verus! {

/// The contents of a file: section name, then key, then value.
pub type IniView = Map<Seq<char>, Map<Seq<char>, Seq<char>>>;

/// One unit file: where it was read from and what it holds.
pub struct Ini {
    /// The file's path, as it was given.
    pub path: String,
    /// The folder that holds the file; relative paths inside it start there.
    pub ppath: String,
    pub data: Sections,
}

impl View for Ini {
    type V = IniView;

    open spec fn view(&self) -> IniView {
        self.data@
    }
}

/// Section `name` of `m`, or no keys where there is none.
pub open spec fn section_or_empty(m: IniView, name: Seq<char>) -> Map<Seq<char>, Seq<char>> {
    if m.contains_key(name) {
        m[name]
    } else {
        Map::empty()
    }
}

/// `m` once key `k` of section `name` is `v`; the section is made where there is none.
pub open spec fn with_key(m: IniView, name: Seq<char>, k: Seq<char>, v: Seq<char>) -> IniView {
    m.insert(name, section_or_empty(m, name).insert(k, v))
}

/// `core`, the main section of a unit file.
pub open spec fn core_name() -> Seq<char> {
    "core"@
}

/// `copyFrom`, the key that names the files a unit file builds on.
pub open spec fn copy_from_key() -> Seq<char> {
    "copyFrom"@
}

/// `dont_load`, the key that marks a file the game does not load by itself.
pub open spec fn dont_load_key() -> Seq<char> {
    "dont_load"@
}

/// The sections of a file in some order, each with its entries in some order.
pub type Listing = Seq<(Seq<char>, Seq<(Seq<char>, Seq<char>)>)>;

/// `l` lists the sections of `m`, each with its entries, each once.
#[verifier::opaque]
pub open spec fn lists_ini(l: Listing, m: IniView) -> bool {
    &&& lists_keys(l.map_values(|e: (Seq<char>, Seq<(Seq<char>, Seq<char>)>)| e.0), m)
    &&& forall|i: int| 0 <= i < l.len() ==> lists_entries(#[trigger] l[i].1, m[l[i].0])
}

/// The characters of a listing.
pub open spec fn listing_view(l: Seq<(String, Vec<(String, String)>)>) -> Listing {
    l.map_values(|e: (String, Vec<(String, String)>)| (e.0@, pairs_view(e.1@)))
}

/// The text of entries `es`: a `key:value` line for each.
pub open spec fn entries_text(es: Seq<(Seq<char>, Seq<char>)>) -> Seq<char>
    decreases es.len(),
{
    if es.len() == 0 {
        Seq::empty()
    } else {
        entries_text(es.drop_last()) + es.last().0 + seq![':'] + es.last().1 + seq!['\n']
    }
}

/// The text of listing `l`: for each section a `[name]` line, then its entries.
pub open spec fn listing_text(l: Listing) -> Seq<char>
    decreases l.len(),
{
    if l.len() == 0 {
        Seq::empty()
    } else {
        listing_text(l.drop_last()) + seq!['['] + l.last().0 + seq![']', '\n'] + entries_text(l.last().1)
    }
}

/// How a line of a unit file is read.
#[derive(PartialEq, Eq, Structural, Clone, Copy, Debug)]
pub enum LineType {
    /// A line of text that is kept out of the data: a comment, or text in a comment section.
    STR,
    /// `key:value`.
    KV,
    /// `[name]`.
    SECTION,
    /// Nothing but white space.
    EMPTY,
    /// None of the above: the file is malformed.
    UNKNOW,
}

/// Whether the reader is between keys, or inside a value that spans lines.
#[derive(PartialEq, Eq, Structural, Clone, Copy, Debug)]
pub enum Mode {
    COM,
    STR,
}

pub open spec fn triple_quote() -> Seq<char> {
    seq!['"', '"', '"']
}

pub open spec fn comment_prefix() -> Seq<char> {
    seq!['c', 'o', 'm', 'm', 'e', 'n', 't', '_']
}

/// How `line` is read while the current section is `sname`.
pub open spec fn line_type(line: Seq<char>, sname: Seq<char>) -> LineType {
    let t = trim(line);
    if starts_with(t, seq!['[']) && ends_with(t, seq![']']) {
        LineType::SECTION
    } else if t.contains(':') && !ends_with(t, seq![':']) {
        LineType::KV
    } else if t.len() == 0 {
        LineType::EMPTY
    } else if ends_with(t, triple_quote()) || starts_with(t, seq!['#']) || starts_with(
        sname,
        comment_prefix(),
    ) {
        LineType::STR
    } else {
        LineType::UNKNOW
    }
}

/// What the reader knows after some lines.
#[verifier::ext_equal]
pub struct ReadState {
    /// Inside a value that spans lines.
    pub in_str: bool,
    /// The value read so far, when `in_str`.
    pub st: Seq<char>,
    /// The key of that value.
    pub stname: Seq<char>,
    /// The name of the current section; empty before the first.
    pub sname: Seq<char>,
    /// The keys of the current section read so far.
    pub section: Map<Seq<char>, Seq<char>>,
    /// The sections that are closed.
    pub data: IniView,
}

/// The result of reading some lines.
pub enum ReadStep {
    /// Go on from this state.
    Next(ReadState),
    /// The file is malformed: the line number that the error names, and the line.
    Malformed(int, Seq<char>),
    /// A section header whose first or last character is not a single byte:
    /// taking its name by byte offsets would cut a character.
    Unsliceable(int, Seq<char>),
}

pub open spec fn initial_state() -> ReadState {
    ReadState {
        in_str: false,
        st: Seq::empty(),
        stname: Seq::empty(),
        sname: Seq::empty(),
        section: Map::empty(),
        data: Map::empty(),
    }
}

/// `line` split at its first `:`: the key before it, the value after it.
pub open spec fn kv_key(line: Seq<char>) -> Seq<char> {
    line.take(first_index(line, ':'))
}

pub open spec fn kv_value(line: Seq<char>) -> Seq<char> {
    line.skip(first_index(line, ':') + 1)
}

/// The state once `k` has value `v` in the current section.
pub open spec fn add_key(s: ReadState, k: Seq<char>, v: Seq<char>) -> ReadState {
    ReadState { section: s.section.insert(k, v), ..s }
}

/// The closed sections, with the current one added when it has a name.
pub open spec fn close_section(s: ReadState) -> IniView {
    if s.sname.len() > 0 {
        s.data.insert(s.sname, s.section)
    } else {
        s.data
    }
}

/// Reading line number `i` (counted from 0), `line`, in state `s`.
pub open spec fn read_line(s: ReadState, i: int, line: Seq<char>) -> ReadStep {
    if s.in_str {
        let st = s.st + seq!['\n'] + line;
        if ends_with(line, triple_quote()) {
            ReadStep::Next(
                ReadState {
                    in_str: false,
                    st: Seq::empty(),
                    stname: Seq::empty(),
                    section: s.section.insert(s.stname, st),
                    ..s
                },
            )
        } else {
            ReadStep::Next(ReadState { st: st, ..s })
        }
    } else {
        match line_type(line, s.sname) {
            LineType::STR => ReadStep::Next(s),
            LineType::EMPTY => ReadStep::Next(s),
            LineType::KV => {
                if s.sname.len() == 0 {
                    ReadStep::Malformed(i, line)
                } else {
                    let k = kv_key(line);
                    let v = kv_value(line);
                    if starts_with(v, triple_quote()) && !(v.len() >= 6 && ends_with(
                        v,
                        triple_quote(),
                    )) {
                        ReadStep::Next(ReadState { in_str: true, stname: k, st: v, ..s })
                    } else {
                        ReadStep::Next(add_key(s, k, v))
                    }
                }
            },
            LineType::SECTION => {
                if is_ascii_char(line[0]) && is_ascii_char(line.last()) {
                    ReadStep::Next(
                        ReadState {
                            data: close_section(s),
                            section: Map::empty(),
                            sname: line.subrange(1, line.len() - 1),
                            ..s
                        },
                    )
                } else {
                    ReadStep::Unsliceable(i, line)
                }
            },
            LineType::UNKNOW => ReadStep::Malformed(i + 1, line),
        }
    }
}

/// Law: once key `k` of section `n` is set to `v`, it reads `v`; every other
/// section, and every other key of section `n`, reads as before.
pub proof fn law_set_kv_reads_back(m: IniView, n: Seq<char>, k: Seq<char>, v: Seq<char>)
    ensures
        with_key(m, n, k, v).contains_key(n),
        with_key(m, n, k, v)[n].contains_key(k),
        with_key(m, n, k, v)[n][k] == v,
        forall|n2: Seq<char>| n2 != n ==> (#[trigger] with_key(m, n, k, v).contains_key(n2) <==> m.contains_key(n2)),
        forall|n2: Seq<char>| n2 != n && m.contains_key(n2) ==> #[trigger] with_key(m, n, k, v)[n2] == m[n2],
        forall|k2: Seq<char>| k2 != k ==> (#[trigger] with_key(m, n, k, v)[n].contains_key(k2) <==> section_or_empty(m, n).contains_key(k2)),
        forall|k2: Seq<char>| k2 != k && section_or_empty(m, n).contains_key(k2) ==> #[trigger] with_key(m, n, k, v)[n][k2] == m[n][k2],
{
}

/// Reading `lines` from the start.
pub open spec fn read_lines(lines: Seq<Seq<char>>) -> ReadStep
    decreases lines.len(),
{
    if lines.len() == 0 {
        ReadStep::Next(initial_state())
    } else {
        match read_lines(lines.drop_last()) {
            ReadStep::Next(s) => read_line(s, lines.len() - 1, lines.last()),
            other => other,
        }
    }
}

/// Once reading stops, further lines change nothing.
pub proof fn lemma_read_stops(lines: Seq<Seq<char>>, i: int)
    requires
        0 <= i <= lines.len(),
        !(read_lines(lines.take(i)) is Next),
    ensures
        read_lines(lines) == read_lines(lines.take(i)),
    decreases lines.len(),
{
    if i < lines.len() {
        assert(lines.drop_last().take(i) == lines.take(i));
        lemma_read_stops(lines.drop_last(), i);
    } else {
        assert(lines.take(i) == lines);
    }
}

/// Law: outside a value that spans lines, a line that trims to nothing leaves
/// the reader where it was: the section being read stays open.
pub proof fn law_blank_line_changes_nothing(s: ReadState, i: int, line: Seq<char>)
    requires
        !s.in_str,
        trim(line).len() == 0,
    ensures
        read_line(s, i, line) == ReadStep::Next(s),
{
    assert(line_type(line, s.sname) == LineType::EMPTY);
}

/// A line's number shows only in the errors it gives: read as any other
/// line, it takes the reader to the same state.
proof fn lemma_line_number_only_in_errors(s: ReadState, i: int, j: int, x: Seq<char>)
    ensures
        (read_line(s, i, x) is Next) == (read_line(s, j, x) is Next),
        read_line(s, i, x) is Next ==> read_line(s, i, x) == read_line(s, j, x),
{
}

/// Law: a blank line between lines read so far and the next one changes
/// nothing but the next line's number: lines `ls`, a blank line `e`, then `x`
/// read to the same file as `ls` then `x` (so a key after a blank line lands
/// in the section above it), unless a value spans lines at that point.
pub proof fn law_blank_line_keeps_section(ls: Seq<Seq<char>>, e: Seq<char>, x: Seq<char>)
    requires
        read_lines(ls) matches ReadStep::Next(s) && !s.in_str,
        trim(e).len() == 0,
    ensures
        read_lines(ls.push(e)) == read_lines(ls),
        (read_lines(ls.push(e).push(x)) is Next) == (read_lines(ls.push(x)) is Next),
        read_lines(ls.push(x)) is Next ==> read_lines(ls.push(e).push(x)) == read_lines(ls.push(x)),
{
    let s = read_lines(ls)->Next_0;
    assert(ls.push(e).drop_last() == ls);
    law_blank_line_changes_nothing(s, ls.len() as int, e);
    assert(ls.push(e).push(x).drop_last() == ls.push(e));
    assert(ls.push(x).drop_last() == ls);
    lemma_line_number_only_in_errors(s, (ls.len() + 1) as int, ls.len() as int, x);
}

/// Why a file could not be read.
#[derive(Debug, PartialEq, Eq)]
pub enum LoadError {
    /// The file is malformed at the line `line_no` names (see [`read_line`]).
    Malformed { line_no: usize, line: String },
    /// A section header `line` whose name cannot be cut out by byte offsets.
    Unsliceable { line_no: usize, line: String },
}

/// The reader's working state.
struct Tmp {
    mode: Mode,
    st: String,
    stname: String,
    section_name: String,
    section: Section,
}

impl Tmp {
    spec fn state(&self, data: IniView) -> ReadState {
        ReadState {
            in_str: self.mode == Mode::STR,
            st: self.st@,
            stname: self.stname@,
            sname: self.section_name@,
            section: self.section@,
            data: data,
        }
    }

    /// How `line` is read in the current section.
    fn gettype(&self, line: &Vec<char>) -> (r: LineType)
        ensures
            r == line_type(line@, self.section_name@),
    {
        let t = trim_chars(line);
        let n = t.len();
        if n > 0 && t[0] == '[' && t[n - 1] == ']' {
            proof {
                assert(t@.take(1) == seq!['[']);
                assert(t@.skip(n - 1) == seq![']']);
            }
            return LineType::SECTION;
        }
        proof {
            if starts_with(t@, seq!['[']) && ends_with(t@, seq![']']) {
                assert(t@.take(1)[0] == '[');
                assert(t@.skip(n - 1)[0] == ']');
            }
        }
        if contains_char(&t, ':') && !(n > 0 && t[n - 1] == ':') {
            proof {
                if ends_with(t@, seq![':']) {
                    assert(t@.skip(n - 1)[0] == ':');
                }
            }
            return LineType::KV;
        }
        proof {
            if n > 0 && t@[n - 1] == ':' {
                assert(t@.skip(n - 1) == seq![':']);
            }
        }
        if n == 0 {
            return LineType::EMPTY;
        }
        let tq = vec!['"', '"', '"'];
        let hash = vec!['#'];
        let cp = vec!['c', 'o', 'm', 'm', 'e', 'n', 't', '_'];
        let sname = to_chars(self.section_name.as_str());
        assert(tq@ == triple_quote());
        assert(hash@ == seq!['#']);
        assert(cp@ == comment_prefix());
        if has_suffix(&t, &tq) || has_prefix(&t, &hash) || has_prefix(&sname, &cp) {
            LineType::STR
        } else {
            LineType::UNKNOW
        }
    }

    fn turn(&mut self)
        ensures
            final(self).mode != old(self).mode,
            final(self).st == old(self).st,
            final(self).stname == old(self).stname,
            final(self).section_name == old(self).section_name,
            final(self).section == old(self).section,
    {
        match self.mode {
            Mode::COM => self.mode = Mode::STR,
            Mode::STR => self.mode = Mode::COM,
        }
    }

    fn getstr(&self) -> (r: String)
        ensures
            r@ == self.st@,
    {
        self.st.clone()
    }

    fn setstr(&mut self, s: String)
        ensures
            *final(self) == (Tmp { st: s, ..*old(self) }),
    {
        self.st = s
    }

    fn setsname(&mut self, s: String)
        ensures
            *final(self) == (Tmp { section_name: s, ..*old(self) }),
    {
        self.section_name = s
    }

    fn getsname(&self) -> (r: String)
        ensures
            r@ == self.section_name@,
    {
        self.section_name.clone()
    }

    fn addkv(&mut self, k: String, v: String)
        ensures
            final(self).section@ == old(self).section@.insert(k@, v@),
            final(self).mode == old(self).mode,
            final(self).st == old(self).st,
            final(self).stname == old(self).stname,
            final(self).section_name == old(self).section_name,
    {
        self.section.insert(k, v);
    }

    fn getsection(&self) -> (r: Section)
        ensures
            r@ == self.section@,
    {
        self.section.duplicate()
    }

    fn setstrname(&mut self, sname: String)
        ensures
            *final(self) == (Tmp { stname: sname, ..*old(self) }),
    {
        self.stname = sname
    }

    fn getstrname(&self) -> (r: String)
        ensures
            r@ == self.stname@,
    {
        self.stname.clone()
    }

    fn clearsection(&mut self)
        ensures
            final(self).section@ == Map::<Seq<char>, Seq<char>>::empty(),
            final(self).section_name@ == Seq::<char>::empty(),
            final(self).mode == old(self).mode,
            final(self).st == old(self).st,
            final(self).stname == old(self).stname,
    {
        self.section = Section::new();
        self.section_name = String::new();
        assert(self.section@ =~= Map::<Seq<char>, Seq<char>>::empty());
    }

    fn clearstr(&mut self)
        ensures
            final(self).st@ == Seq::<char>::empty(),
            final(self).stname@ == Seq::<char>::empty(),
            final(self).mode == old(self).mode,
            final(self).section_name == old(self).section_name,
            final(self).section == old(self).section,
    {
        self.st = String::new();
        self.stname = String::new();
    }
}

impl Ini {
    /// An empty file with empty paths.
    pub fn new() -> (r: Ini)
        ensures
            r@ == IniView::empty(),
            r.path@ == Seq::<char>::empty(),
            r.ppath@ == Seq::<char>::empty(),
    {
        let r = Ini { path: String::new(), ppath: String::new(), data: Sections::new() };
        assert(r@ =~= IniView::empty());
        r
    }

    /// Sets key `k` of section `name` to `v`, making the section where there is none.
    pub fn set_kv(&mut self, name: String, k: String, v: String)
        ensures
            final(self)@ == with_key(old(self)@, name@, k@, v@),
            final(self).path == old(self).path,
            final(self).ppath == old(self).ppath,
    {
        match self.data.remove(&name) {
            Some(mut sec) => {
                sec.insert(k, v);
                self.data.insert(name, sec);
            },
            None => {
                let mut sec = Section::new();
                assert(sec@ =~= Map::<Seq<char>, Seq<char>>::empty());
                sec.insert(k, v);
                self.data.insert(name, sec);
            },
        }
        assert(self@ =~= with_key(old(self)@, name@, k@, v@));
    }

    /// The value of key `key` of section `name`, where both exist.
    pub fn get(&self, name: &String, key: &String) -> (r: Option<String>)
        ensures
            match r {
                Some(v) => self@.contains_key(name@) && self@[name@].contains_key(key@) && v@ == self@[name@][key@],
                None => !(self@.contains_key(name@) && self@[name@].contains_key(key@)),
            },
    {
        match self.data.get(name) {
            Some(sec) => match sec.get(key) {
                Some(v) => Some(v.clone()),
                None => None,
            },
            None => None,
        }
    }

    /// The file has section `name`.
    pub fn has_section(&self, name: &String) -> (r: bool)
        ensures
            r == self@.contains_key(name@),
    {
        self.data.get(name).is_some()
    }

    /// The sections, each with its entries, in the maps' own order.
    pub fn listing(&self) -> (r: Vec<(String, Vec<(String, String)>)>)
        ensures
            lists_ini(listing_view(r@), self@),
    {
        let names = self.data.names();
        let mut listing: Vec<(String, Vec<(String, String)>)> = Vec::new();
        let mut i: usize = 0;
        while i < names.len()
            invariant
                i <= names.len(),
                lists_keys(strings_view(names@), self@),
                listing.len() == i,
                forall|j: int| 0 <= j < i ==> (#[trigger] listing@[j]).0@ == names@[j]@,
                forall|j: int| 0 <= j < i ==> lists_entries(pairs_view((#[trigger] listing@[j]).1@), self@[names@[j]@]),
            decreases names.len() - i,
        {
            assert(strings_view(names@)[i as int] == names@[i as int]@);
            let entries = match self.data.get(&names[i]) {
                Some(s) => s.entries(),
                None => Vec::new(),
            };
            listing.push((names[i].clone(), entries));
            i = i + 1;
        }
        proof {
            reveal(lists_ini);
            let l = listing_view(listing@);
            let ns = l.map_values(|e: (Seq<char>, Seq<(Seq<char>, Seq<char>)>)| e.0);
            assert(ns =~= strings_view(names@));
            assert forall|j: int| 0 <= j < l.len() implies lists_entries(#[trigger] l[j].1, self@[l[j].0]) by {
                assert(l[j].0 == names@[j]@);
            }
        }
        listing
    }

    /// The file's text: for each section, `[name]` and then a `key:value`
    /// line for each of its keys, in the maps' own order.
    pub fn to_text(&self) -> (r: String)
        ensures
            exists|l: Listing| lists_ini(l, self@) && r@ == listing_text(l),
    {
        let l = self.listing();
        let r = render_listing(&l);
        assert(lists_ini(listing_view(l@), self@) && r@ == listing_text(listing_view(l@)));
        r
    }

    /// Reads the lines of a unit file, numbered from 0: what [`read_lines`] gives,
    /// with the last section closed.
    pub fn load_from_lines(path: String, ppath: String, lines: &Vec<String>) -> (r: Result<
        Ini,
        LoadError,
    >)
        ensures
            match read_lines(lines.deep_view()) {
                ReadStep::Next(s) => r matches Ok(ini) && ini@ == close_section(s) && ini.path
                    == path && ini.ppath == ppath,
                ReadStep::Malformed(n, l) => r matches Err(LoadError::Malformed { line_no, line })
                    && line_no == n && line@ == l,
                ReadStep::Unsliceable(n, l) => r matches Err(
                    LoadError::Unsliceable { line_no, line },
                ) && line_no == n && line@ == l,
            },
    {
        let ghost all = lines.deep_view();
        let mut data = Sections::new();
        let mut tmp = Tmp {
            mode: Mode::COM,
            st: String::new(),
            section_name: String::new(),
            section: Section::new(),
            stname: String::new(),
        };
        proof {
            assert(data@ =~= IniView::empty());
            assert(tmp.section@ =~= Map::<Seq<char>, Seq<char>>::empty());
            assert(all.take(0) =~= Seq::<Seq<char>>::empty());
        }
        let mut i: usize = 0;
        while i < lines.len()
            invariant
                i <= lines.len(),
                all == lines.deep_view(),
                read_lines(all.take(i as int)) == ReadStep::Next(tmp.state(data@)),
            decreases lines.len() - i,
        {
            let line_s = &lines[i];
            let line = to_chars(line_s.as_str());
            let ghost before = tmp.state(data@);
            proof {
                assert(all[i as int] == line@);
                assert(all.take(i + 1).drop_last() == all.take(i as int));
                assert(all.take(i + 1).last() == line@);
            }
            match tmp.mode {
                Mode::COM => {
                    match tmp.gettype(&line) {
                        LineType::STR => {
                            assert(read_line(before, i as int, line@) == ReadStep::Next(tmp.state(data@)));
                        },
                        LineType::EMPTY => {
                            assert(read_line(before, i as int, line@) == ReadStep::Next(tmp.state(data@)));
                        },
                        LineType::KV => {
                            if tmp.section_name.as_str().is_empty() {
                                proof {
                                    lemma_read_stops(all, i + 1);
                                }
                                return Err(LoadError::Malformed { line_no: i, line: line_s.clone() });
                            }
                            proof {
                                lemma_trim_contains(line@, ':');
                            }
                            let (k, v) = split_kv(&line);
                            let tq = vec!['"', '"', '"'];
                            if has_prefix(&v, &tq) {
                                if v.len() >= 6 && has_suffix(&v, &tq) {
                                    tmp.addkv(from_chars(k.as_slice()), from_chars(v.as_slice()));
                                } else {
                                    tmp.turn();
                                    tmp.setstrname(from_chars(k.as_slice()));
                                    tmp.setstr(from_chars(v.as_slice()));
                                }
                            } else {
                                tmp.addkv(from_chars(k.as_slice()), from_chars(v.as_slice()));
                            }
                            assert(read_line(before, i as int, line@) == ReadStep::Next(tmp.state(data@)));
                        },
                        LineType::SECTION => {
                            let n = line.len();
                            proof {
                                let t = trim(line@);
                                assert(t.take(1)[0] == '[');
                                assert(t.skip(t.len() - 1)[0] == ']');
                                assert(t.len() >= 2);
                                lemma_trim_nonempty(line@);
                            }
                            if !(is_ascii_char_exec(line[0]) && is_ascii_char_exec(line[n - 1])) {
                                proof {
                                    lemma_read_stops(all, i + 1);
                                }
                                return Err(
                                    LoadError::Unsliceable { line_no: i, line: line_s.clone() },
                                );
                            }
                            if !tmp.getsname().as_str().is_empty() {
                                data.insert(tmp.getsname(), tmp.getsection());
                            }
                            tmp.clearsection();
                            tmp.setsname(from_chars(slice_of(&line, 1, n - 1).as_slice()));
                            proof {
                                assert(data@ =~= close_section(before));
                                assert(tmp.section@ =~= Map::<Seq<char>, Seq<char>>::empty());
                            }
                            assert(read_line(before, i as int, line@) == ReadStep::Next(tmp.state(data@)));
                        },
                        LineType::UNKNOW => {
                            proof {
                                lemma_read_stops(all, i + 1);
                            }
                            return Err(LoadError::Malformed { line_no: i + 1, line: line_s.clone() });
                        },
                    }
                },
                Mode::STR => {
                    let mut st = tmp.getstr();
                    proof {
                        reveal_strlit("\n");
                    }
                    st.append("\n");
                    st.append(line_s.as_str());
                    tmp.setstr(st);
                    let tq = vec!['"', '"', '"'];
                    assert(tq@ == triple_quote());
                    assert(tmp.st@ == before.st + seq!['\n'] + line@);
                    if has_suffix(&line, &tq) {
                        tmp.addkv(tmp.getstrname(), tmp.getstr());
                        tmp.clearstr();
                        tmp.turn();
                    }
                    assert(read_line(before, i as int, line@) == ReadStep::Next(tmp.state(data@)));
                },
            }
            assert(read_lines(all.take(i + 1)) == read_line(before, i as int, line@));
            assert(read_line(before, i as int, line@) == ReadStep::Next(tmp.state(data@)));
            i = i + 1;
        }
        proof {
            assert(all.take(lines.len() as int) == all);
        }
        if !tmp.getsname().as_str().is_empty() {
            data.insert(tmp.getsname(), tmp.getsection());
        }
        Ok(Ini { path, data, ppath })
    }
}

/// The text of a listing: see [`listing_text`].
pub fn render_listing(l: &Vec<(String, Vec<(String, String)>)>) -> (r: String)
    ensures
        r@ == listing_text(listing_view(l@)),
{
    let mut out: Vec<char> = Vec::new();
    let ghost lv = listing_view(l@);
    let mut i: usize = 0;
    while i < l.len()
        invariant
            i <= l.len(),
            lv == listing_view(l@),
            out@ == listing_text(lv.take(i as int)),
        decreases l.len() - i,
    {
        let es = &l[i].1;
        let ghost before = out@;
        out.push('[');
        out.append(&mut to_chars(l[i].0.as_str()));
        out.push(']');
        out.push('\n');
        let ghost head = out@;
        let ghost ev = pairs_view(es@);
        let mut j: usize = 0;
        while j < es.len()
            invariant
                j <= es.len(),
                ev == pairs_view(es@),
                out@ == head + entries_text(ev.take(j as int)),
            decreases es.len() - j,
        {
            let ghost b2 = out@;
            out.append(&mut to_chars(es[j].0.as_str()));
            out.push(':');
            out.append(&mut to_chars(es[j].1.as_str()));
            out.push('\n');
            proof {
                assert(ev.take(j + 1).drop_last() == ev.take(j as int));
                assert(ev.take(j + 1).last() == (es@[j as int].0@, es@[j as int].1@));
                assert(out@ =~= head + entries_text(ev.take(j + 1)));
            }
            j = j + 1;
        }
        proof {
            assert(ev.take(es.len() as int) == ev);
            assert(lv.take(i + 1).drop_last() == lv.take(i as int));
            assert(lv.take(i + 1).last() == (l@[i as int].0@, ev));
            assert(out@ =~= listing_text(lv.take(i + 1)));
        }
        i = i + 1;
    }
    assert(lv.take(l.len() as int) == lv);
    from_chars(out.as_slice())
}

/// A line that trims to something non-empty is non-empty.
proof fn lemma_trim_nonempty(s: Seq<char>)
    ensures
        trim(s).len() <= s.len(),
        trim(s).len() > 0 ==> s.len() > 0,
    decreases s.len(),
{
    lemma_trim_start_len(s);
    lemma_trim_end_len(trim_start(s));
}

/// What the trimmed line holds, the line holds.
proof fn lemma_trim_contains(s: Seq<char>, c: char)
    ensures
        trim(s).contains(c) ==> s.contains(c),
{
    lemma_trim_start_contains(s, c);
    lemma_trim_end_contains(trim_start(s), c);
}

proof fn lemma_trim_start_contains(s: Seq<char>, c: char)
    ensures
        trim_start(s).contains(c) ==> s.contains(c),
    decreases s.len(),
{
    if s.len() > 0 && is_space(s[0]) {
        lemma_trim_start_contains(s.drop_first(), c);
        if trim_start(s).contains(c) {
            let j = choose|j: int| 0 <= j < s.drop_first().len() && s.drop_first()[j] == c;
            assert(s[j + 1] == c);
        }
    }
}

proof fn lemma_trim_end_contains(s: Seq<char>, c: char)
    ensures
        trim_end(s).contains(c) ==> s.contains(c),
    decreases s.len(),
{
    if s.len() > 0 && is_space(s.last()) {
        lemma_trim_end_contains(s.drop_last(), c);
        if trim_end(s).contains(c) {
            let j = choose|j: int| 0 <= j < s.drop_last().len() && s.drop_last()[j] == c;
            assert(s[j] == c);
        }
    }
}

proof fn lemma_trim_start_len(s: Seq<char>)
    ensures
        trim_start(s).len() <= s.len(),
    decreases s.len(),
{
    if s.len() > 0 && is_space(s[0]) {
        lemma_trim_start_len(s.drop_first());
    }
}

proof fn lemma_trim_end_len(s: Seq<char>)
    ensures
        trim_end(s).len() <= s.len(),
    decreases s.len(),
{
    if s.len() > 0 && is_space(s.last()) {
        lemma_trim_end_len(s.drop_last());
    }
}

/// `line` split at its first `:`.
fn split_kv(line: &Vec<char>) -> (r: (Vec<char>, Vec<char>))
    requires
        line@.contains(':'),
    ensures
        r.0@ == kv_key(line@),
        r.1@ == kv_value(line@),
{
    match find_char(line, ':') {
        Some(p) => {
            let n = line.len();
            assert(p < n);
            (slice_of(line, 0, p), slice_of(line, p + 1, n))
        },
        None => (Vec::new(), Vec::new()),
    }
}

} // verus!
