//! The text that a file is written as reads back as the same file.
use vstd::prelude::*;
use crate::ini::{
    add_key, close_section, entries_text, initial_state, kv_key, kv_value, line_type, lists_ini,
    listing_text, read_line, read_lines, triple_quote, IniView, LineType, Listing, ReadState, ReadStep,
};
use crate::inherit::{entries_map, lemma_listed_entries_map};
use crate::maps::lists_entries;
use crate::text::{ends_with, first_index, is_first, is_space, lemma_first_unique,
    starts_with, trim, trim_end, trim_start};

verus! {

/// `[name]`.
pub open spec fn section_line(n: Seq<char>) -> Seq<char> {
    seq!['['] + n + seq![']']
}

/// `key:value`.
pub open spec fn entry_line(k: Seq<char>, v: Seq<char>) -> Seq<char> {
    k + seq![':'] + v
}

pub open spec fn entries_lines(es: Seq<(Seq<char>, Seq<char>)>) -> Seq<Seq<char>>
    decreases es.len(),
{
    if es.len() == 0 {
        Seq::empty()
    } else {
        entries_lines(es.drop_last()).push(entry_line(es.last().0, es.last().1))
    }
}

/// The lines of listing `l`: for each section its `[name]` line, then a
/// `key:value` line for each entry.
pub open spec fn listing_lines(l: Listing) -> Seq<Seq<char>>
    decreases l.len(),
{
    if l.len() == 0 {
        Seq::empty()
    } else {
        listing_lines(l.drop_last()) + seq![section_line(l.last().0)] + entries_lines(l.last().1)
    }
}

/// Lines joined, each ended by a line feed.
pub open spec fn lines_text(ls: Seq<Seq<char>>) -> Seq<char>
    decreases ls.len(),
{
    if ls.len() == 0 {
        Seq::empty()
    } else {
        lines_text(ls.drop_last()) + ls.last() + seq!['\n']
    }
}

/// The line `key:value` reads back as that key and value: the key holds no
/// `:`, the trimmed line neither looks like `[...]` nor ends in `:`, and the
/// value does not open a value that spans lines.
pub open spec fn entry_readable(k: Seq<char>, v: Seq<char>) -> bool {
    let t = trim(entry_line(k, v));
    &&& !k.contains(':')
    &&& !(starts_with(t, seq!['[']) && ends_with(t, seq![']']))
    &&& !ends_with(t, seq![':'])
    &&& !(starts_with(v, triple_quote()) && !(v.len() >= 6 && ends_with(v, triple_quote())))
}

/// Every section has a name and every entry reads back.
pub open spec fn listing_readable(l: Listing) -> bool {
    forall|i: int|
        0 <= i < l.len() ==> (#[trigger] l[i]).0.len() > 0 && forall|j: int|
            0 <= j < l[i].1.len() ==> entry_readable((#[trigger] l[i].1[j]).0, l[i].1[j].1)
}

/// The file that listing `l` describes.
pub open spec fn listing_map(l: Listing) -> IniView
    decreases l.len(),
{
    if l.len() == 0 {
        Map::empty()
    } else {
        listing_map(l.drop_last()).insert(l.last().0, entries_map(l.last().1))
    }
}

/// Reading lines `b`, numbered from `start`, from `st` on.
pub open spec fn run_lines(st: ReadStep, start: int, b: Seq<Seq<char>>) -> ReadStep
    decreases b.len(),
{
    if b.len() == 0 {
        st
    } else {
        match run_lines(st, start, b.drop_last()) {
            ReadStep::Next(s) => read_line(s, start + b.len() - 1, b.last()),
            other => other,
        }
    }
}

proof fn lemma_read_is_run(a: Seq<Seq<char>>)
    ensures
        read_lines(a) == run_lines(ReadStep::Next(initial_state()), 0, a),
    decreases a.len(),
{
    if a.len() > 0 {
        lemma_read_is_run(a.drop_last());
    }
}

proof fn lemma_run_concat(st: ReadStep, start: int, b: Seq<Seq<char>>, c: Seq<Seq<char>>)
    ensures
        run_lines(st, start, b + c) == run_lines(run_lines(st, start, b), start + b.len(), c),
    decreases c.len(),
{
    if c.len() == 0 {
        assert(b + c == b);
    } else {
        assert((b + c).drop_last() == b + c.drop_last());
        assert((b + c).last() == c.last());
        lemma_run_concat(st, start, b, c.drop_last());
    }
}

/// A character that is not white space survives trimming.
proof fn lemma_trim_keeps(s: Seq<char>, c: char)
    requires
        s.contains(c),
        !is_space(c),
    ensures
        trim(s).contains(c),
{
    lemma_trim_start_keeps(s, c);
    lemma_trim_end_keeps(trim_start(s), c);
}

proof fn lemma_trim_start_keeps(s: Seq<char>, c: char)
    requires
        s.contains(c),
        !is_space(c),
    ensures
        trim_start(s).contains(c),
    decreases s.len(),
{
    if s.len() > 0 && is_space(s[0]) {
        let i = choose|i: int| 0 <= i < s.len() && s[i] == c;
        assert(i > 0);
        assert(s.drop_first()[i - 1] == c);
        lemma_trim_start_keeps(s.drop_first(), c);
    }
}

proof fn lemma_trim_end_keeps(s: Seq<char>, c: char)
    requires
        s.contains(c),
        !is_space(c),
    ensures
        trim_end(s).contains(c),
    decreases s.len(),
{
    if s.len() > 0 && is_space(s.last()) {
        let i = choose|i: int| 0 <= i < s.len() && s[i] == c;
        assert(i < s.len() - 1);
        assert(s.drop_last()[i] == c);
        lemma_trim_end_keeps(s.drop_last(), c);
    }
}

/// A `[name]` line opens section `name`.
proof fn lemma_section_line(s: ReadState, i: int, n: Seq<char>)
    requires
        !s.in_str,
    ensures
        read_line(s, i, section_line(n)) == ReadStep::Next(
            ReadState { data: close_section(s), section: Map::empty(), sname: n, ..s },
        ),
{
    let l = section_line(n);
    assert(trim_start(l) == l);
    assert(trim_end(l) == l);
    assert(l.take(1) == seq!['[']);
    assert(l.skip(l.len() - 1) == seq![']']);
    assert(line_type(l, s.sname) == LineType::SECTION);
    assert(l.subrange(1, l.len() - 1) == n);
}

/// A readable `key:value` line adds that key in a named section.
proof fn lemma_entry_line(s: ReadState, i: int, k: Seq<char>, v: Seq<char>)
    requires
        !s.in_str,
        s.sname.len() > 0,
        entry_readable(k, v),
    ensures
        read_line(s, i, entry_line(k, v)) == ReadStep::Next(add_key(s, k, v)),
{
    let l = entry_line(k, v);
    assert(l[k.len() as int] == ':');
    lemma_trim_keeps(l, ':');
    assert(line_type(l, s.sname) == LineType::KV);
    assert forall|j: int| 0 <= j < k.len() implies l[j] != ':' by {
        assert(l[j] == k[j]);
    }
    lemma_first_unique(l, ':', k.len() as int);
    assert(kv_key(l) == k);
    assert(kv_value(l) == v);
}

/// The entry lines of a section read into that section.
proof fn lemma_entries(s: ReadState, start: int, es: Seq<(Seq<char>, Seq<char>)>)
    requires
        !s.in_str,
        s.sname.len() > 0,
        forall|j: int| 0 <= j < es.len() ==> entry_readable((#[trigger] es[j]).0, es[j].1),
    ensures
        run_lines(ReadStep::Next(s), start, entries_lines(es)) == ReadStep::Next(
            ReadState { section: s.section.union_prefer_right(entries_map(es)), ..s },
        ),
    decreases es.len(),
{
    if es.len() == 0 {
        assert(s.section.union_prefer_right(entries_map(es)) =~= s.section);
        assert(ReadState { section: s.section, ..s } == s);
    } else {
        let p = es.drop_last();
        let b = entries_lines(p);
        assert forall|j: int| 0 <= j < p.len() implies entry_readable((#[trigger] p[j]).0, p[j].1) by {
            assert(p[j] == es[j]);
        }
        lemma_entries(s, start, p);
        assert(entries_lines(es).drop_last() == b);
        let mid = ReadState { section: s.section.union_prefer_right(entries_map(p)), ..s };
        let e = es.last();
        assert(entry_readable(es[es.len() - 1].0, es[es.len() - 1].1));
        lemma_entry_line(mid, start + b.len(), e.0, e.1);
        assert(mid.section.insert(e.0, e.1) =~= s.section.union_prefer_right(entries_map(es)));
        assert(add_key(mid, e.0, e.1) == ReadState { section: s.section.union_prefer_right(entries_map(es)), ..s });
    }
}

/// What reading the lines of a readable listing leaves: the last section still
/// open, the ones before it closed.
proof fn lemma_read_listing(l: Listing)
    requires
        listing_readable(l),
    ensures
        l.len() == 0 ==> read_lines(listing_lines(l)) == ReadStep::Next(initial_state()),
        l.len() > 0 ==> read_lines(listing_lines(l)) == ReadStep::Next(
            ReadState {
                in_str: false,
                st: Seq::empty(),
                stname: Seq::empty(),
                sname: l.last().0,
                section: entries_map(l.last().1),
                data: listing_map(l.drop_last()),
            },
        ),
    decreases l.len(),
{
    if l.len() > 0 {
        let p = l.drop_last();
        assert forall|i: int| 0 <= i < p.len() implies (#[trigger] p[i]).0.len() > 0 && forall|j: int|
            0 <= j < p[i].1.len() ==> entry_readable((#[trigger] p[i].1[j]).0, p[i].1[j].1) by {
            assert(p[i] == l[i]);
        }
        lemma_read_listing(p);
        let a = listing_lines(p);
        let n = l.last().0;
        let es = l.last().1;
        let sl: Seq<Seq<char>> = seq![section_line(n)];
        let el = entries_lines(es);
        assert(listing_lines(l) == a + sl + el);
        lemma_read_is_run(a + sl + el);
        lemma_read_is_run(a);
        lemma_run_concat(ReadStep::Next(initial_state()), 0, a + sl, el);
        lemma_run_concat(ReadStep::Next(initial_state()), 0, a, sl);
        let before = if p.len() == 0 {
            initial_state()
        } else {
            ReadState {
                in_str: false,
                st: Seq::empty(),
                stname: Seq::empty(),
                sname: p.last().0,
                section: entries_map(p.last().1),
                data: listing_map(p.drop_last()),
            }
        };
        assert(read_lines(a) == ReadStep::Next(before));
        assert(sl.drop_last().len() == 0);
        lemma_section_line(before, a.len() as int, n);
        let opened = ReadState { data: close_section(before), section: Map::empty(), sname: n, ..before };
        assert(run_lines(ReadStep::Next(before), a.len() as int, sl.drop_last()) == ReadStep::Next(before));
        assert(sl.last() == section_line(n));
        assert(run_lines(ReadStep::Next(before), a.len() as int, sl) == ReadStep::Next(opened));
        assert(l[l.len() - 1].0.len() > 0);
        assert forall|j: int| 0 <= j < es.len() implies entry_readable((#[trigger] es[j]).0, es[j].1) by {
            assert(es[j] == l[l.len() - 1].1[j]);
        }
        lemma_entries(opened, (a.len() + 1) as int, es);
        lemma_run_concat(ReadStep::Next(initial_state()), 0, a, sl);
        assert((a + sl).len() == a.len() + 1);
        assert(Map::<Seq<char>, Seq<char>>::empty().union_prefer_right(entries_map(es)) =~= entries_map(es));
        if p.len() == 0 {
            assert(close_section(before) =~= listing_map(p));
        } else {
            assert(p[p.len() - 1].0.len() > 0);
            assert(close_section(before) == listing_map(p));
        }
    }
}

/// The file that a listing of `m` describes is `m`.
proof fn lemma_listing_map(l: Listing, m: IniView)
    requires
        lists_ini(l, m),
    ensures
        listing_map(l) == m,
{
    reveal(lists_ini);
    lemma_listing_map_facts(l);
    let ns = l.map_values(|e: (Seq<char>, Seq<(Seq<char>, Seq<char>)>)| e.0);
    assert forall|n: Seq<char>| listing_map(l).contains_key(n) <==> m.contains_key(n) by {
        if m.contains_key(n) {
            let i = choose|i: int| 0 <= i < ns.len() && ns[i] == n;
            assert(l[i].0 == n);
        }
        if listing_map(l).contains_key(n) {
            let i = choose|i: int| 0 <= i < l.len() && l[i].0 == n;
            assert(ns[i] == n);
        }
    }
    assert forall|n: Seq<char>| #[trigger] listing_map(l).contains_key(n) implies listing_map(l)[n] == m[n] by {
        let i = choose|i: int| 0 <= i < l.len() && l[i].0 == n;
        assert(ns[i] == n);
        assert forall|j: int| i < j < l.len() implies l[j].0 != l[i].0 by {
            assert(ns[i] != ns[j]);
        }
        assert(listing_map(l)[l[i].0] == entries_map(l[i].1));
        assert(lists_entries(l[i].1, m[l[i].0]));
        lemma_listed_entries_map(l[i].1, m[l[i].0]);
    }
    assert(listing_map(l) =~= m);
}

proof fn lemma_listing_map_facts(l: Listing)
    ensures
        forall|n: Seq<char>| #[trigger] listing_map(l).contains_key(n) <==> exists|i: int| 0 <= i < l.len() && l[i].0 == n,
        forall|i: int| 0 <= i < l.len() && (forall|j: int| i < j < l.len() ==> l[j].0 != l[i].0)
            ==> #[trigger] listing_map(l)[l[i].0] == entries_map(l[i].1),
    decreases l.len(),
{
    if l.len() > 0 {
        let p = l.drop_last();
        lemma_listing_map_facts(p);
        assert forall|n: Seq<char>| #[trigger] listing_map(l).contains_key(n) <==> exists|i: int| 0 <= i < l.len() && l[i].0 == n by {
            if n == l.last().0 {
                assert(l[l.len() - 1].0 == n);
            }
            if listing_map(l).contains_key(n) && n != l.last().0 {
                assert(listing_map(p).contains_key(n));
                let i = choose|i: int| 0 <= i < p.len() && p[i].0 == n;
                assert(l[i].0 == n);
            }
            if exists|i: int| 0 <= i < l.len() && l[i].0 == n {
                let i = choose|i: int| 0 <= i < l.len() && l[i].0 == n;
                if i < p.len() {
                    assert(p[i].0 == n);
                    assert(listing_map(p).contains_key(n));
                }
            }
        }
        assert forall|i: int| 0 <= i < l.len() && (forall|j: int| i < j < l.len() ==> l[j].0 != l[i].0)
            implies #[trigger] listing_map(l)[l[i].0] == entries_map(l[i].1) by {
            if i < p.len() {
                assert(p[i] == l[i]);
                assert forall|j: int| i < j < p.len() implies p[j].0 != p[i].0 by {
                    assert(p[j] == l[j]);
                }
                assert(listing_map(p)[p[i].0] == entries_map(p[i].1));
                assert(l[l.len() - 1].0 != l[i].0);
            }
        }
    }
}

/// The text of a listing is its lines, each ended by a line feed.
proof fn lemma_text_is_lines(l: Listing)
    ensures
        listing_text(l) == lines_text(listing_lines(l)),
    decreases l.len(),
{
    if l.len() > 0 {
        lemma_text_is_lines(l.drop_last());
        lemma_lines_text_concat(listing_lines(l.drop_last()) + seq![section_line(l.last().0)], entries_lines(l.last().1));
        lemma_lines_text_concat(listing_lines(l.drop_last()), seq![section_line(l.last().0)]);
        lemma_entries_text(l.last().1);
        let one: Seq<Seq<char>> = seq![section_line(l.last().0)];
        assert(one.drop_last().len() == 0);
        assert(lines_text(one.drop_last()) == Seq::<char>::empty());
        assert(lines_text(one) == section_line(l.last().0) + seq!['\n']);
    }
}

proof fn lemma_entries_text(es: Seq<(Seq<char>, Seq<char>)>)
    ensures
        entries_text(es) == lines_text(entries_lines(es)),
    decreases es.len(),
{
    if es.len() > 0 {
        lemma_entries_text(es.drop_last());
        assert(entries_lines(es).drop_last() == entries_lines(es.drop_last()));
    }
}

proof fn lemma_lines_text_concat(a: Seq<Seq<char>>, b: Seq<Seq<char>>)
    ensures
        lines_text(a + b) == lines_text(a) + lines_text(b),
    decreases b.len(),
{
    if b.len() == 0 {
        assert(a + b == a);
    } else {
        assert((a + b).drop_last() == a + b.drop_last());
        lemma_lines_text_concat(a, b.drop_last());
    }
}

/// Every section of `m` has a name and every entry reads back.
pub open spec fn ini_readable(m: IniView) -> bool {
    forall|n: Seq<char>| #[trigger] m.contains_key(n) ==> n.len() > 0 && forall|k: Seq<char>|
        #[trigger] m[n].contains_key(k) ==> entry_readable(k, m[n][k])
}

proof fn lemma_readable_listing(l: Listing, m: IniView)
    requires
        lists_ini(l, m),
        ini_readable(m),
    ensures
        listing_readable(l),
{
    reveal(lists_ini);
    let ns = l.map_values(|e: (Seq<char>, Seq<(Seq<char>, Seq<char>)>)| e.0);
    assert forall|i: int| 0 <= i < l.len() implies (#[trigger] l[i]).0.len() > 0 && forall|j: int|
        0 <= j < l[i].1.len() ==> entry_readable((#[trigger] l[i].1[j]).0, l[i].1[j].1) by {
        assert(ns[i] == l[i].0);
        assert(m.contains_key(l[i].0));
        assert(lists_entries(l[i].1, m[l[i].0]));
        assert forall|j: int| 0 <= j < l[i].1.len() implies entry_readable((#[trigger] l[i].1[j]).0, l[i].1[j].1) by {
            assert(m[l[i].0].contains_key(l[i].1[j].0));
        }
    }
}

/// Law: a file's text is its lines, each ended by a line feed, and those lines,
/// read back, give the same file, where every section has a name and every
/// entry reads back (see [`entry_readable`]); whatever order the sections and
/// entries were written in.
pub proof fn law_text_reads_back(l: Listing, m: IniView)
    requires
        lists_ini(l, m),
        ini_readable(m),
    ensures
        listing_text(l) == lines_text(listing_lines(l)),
        read_lines(listing_lines(l)) matches ReadStep::Next(s) && close_section(s) == m,
{
    lemma_readable_listing(l, m);
    lemma_text_is_lines(l);
    lemma_read_listing(l);
    lemma_listing_map(l, m);
    if l.len() == 0 {
        assert(close_section(initial_state()) =~= listing_map(l));
    } else {
        assert(l[l.len() - 1].0.len() > 0);
    }
}

/// `s` without a carriage return at its end.
pub open spec fn without_cr(s: Seq<char>) -> Seq<char> {
    if s.len() > 0 && s.last() == '\r' {
        s.drop_last()
    } else {
        s
    }
}

/// The lines of text `t` as `BufRead::lines` gives them: cut at each line
/// feed, a carriage return just before a line feed dropped with it, and no
/// empty line after a final line feed.
pub open spec fn text_lines(t: Seq<char>) -> Seq<Seq<char>>
    decreases t.len(),
{
    if t.contains('\n') && 0 <= first_index(t, '\n') < t.len() {
        seq![without_cr(t.take(first_index(t, '\n')))] + text_lines(t.skip(first_index(t, '\n') + 1))
    } else if t.len() == 0 {
        Seq::empty()
    } else {
        seq![t]
    }
}

/// A line that cutting the text into lines gives back as it is: it holds no
/// line feed and does not end with a carriage return.
pub open spec fn single_line(s: Seq<char>) -> bool {
    !s.contains('\n') && !(s.len() > 0 && s.last() == '\r')
}

/// No section name, key or value of `m` holds a line feed, and no value ends
/// with a carriage return.
pub open spec fn ini_single_lines(m: IniView) -> bool {
    forall|n: Seq<char>| #[trigger] m.contains_key(n) ==> !n.contains('\n') && forall|k: Seq<char>|
        #[trigger] m[n].contains_key(k) ==> !k.contains('\n') && single_line(m[n][k])
}

/// Lines joined with line feeds, cut again, are those lines.
proof fn lemma_text_lines_back(ls: Seq<Seq<char>>)
    requires
        forall|i: int| 0 <= i < ls.len() ==> single_line(#[trigger] ls[i]),
    ensures
        text_lines(lines_text(ls)) == ls,
    decreases ls.len(),
{
    if ls.len() > 0 {
        let a = ls[0];
        let rest = ls.drop_first();
        assert(ls == seq![a] + rest);
        lemma_lines_text_concat(seq![a], rest);
        let one: Seq<Seq<char>> = seq![a];
        assert(one.drop_last().len() == 0);
        assert(lines_text(one.drop_last()) == Seq::<char>::empty());
        assert(lines_text(one) == a + seq!['\n']);
        let t = lines_text(ls);
        assert(t == a + seq!['\n'] + lines_text(rest));
        assert(single_line(ls[0]));
        assert(is_first(t, '\n', a.len() as int)) by {
            assert forall|j: int| 0 <= j < a.len() implies t[j] != '\n' by {
                assert(t[j] == a[j]);
            }
        }
        lemma_first_unique(t, '\n', a.len() as int);
        assert(t.take(a.len() as int) == a);
        assert(t.skip(a.len() as int + 1) == lines_text(rest));
        assert forall|i: int| 0 <= i < rest.len() implies single_line(#[trigger] rest[i]) by {
            assert(rest[i] == ls[i + 1]);
        }
        lemma_text_lines_back(rest);
        assert(without_cr(a) == a);
    }
}

/// A section line, and an entry line whose parts hold no line feed, are single lines.
proof fn lemma_single_lines(n: Seq<char>, k: Seq<char>, v: Seq<char>)
    requires
        !n.contains('\n'),
        !k.contains('\n'),
        single_line(v),
    ensures
        single_line(section_line(n)),
        single_line(entry_line(k, v)),
{
    let sl = section_line(n);
    assert forall|j: int| 0 <= j < sl.len() implies sl[j] != '\n' by {
        if 1 <= j < sl.len() - 1 {
            assert(sl[j] == n[j - 1]);
        }
    }
    let el = entry_line(k, v);
    assert forall|j: int| 0 <= j < el.len() implies el[j] != '\n' by {
        if j < k.len() {
            assert(el[j] == k[j]);
        } else if j > k.len() {
            assert(el[j] == v[j - k.len() - 1]);
        }
    }
    if v.len() > 0 {
        assert(el.last() == v.last());
    }
}

proof fn lemma_entries_single(es: Seq<(Seq<char>, Seq<char>)>, n: Seq<char>)
    requires
        !n.contains('\n'),
        forall|j: int| 0 <= j < es.len() ==> !(#[trigger] es[j]).0.contains('\n') && single_line(es[j].1),
    ensures
        forall|i: int| 0 <= i < entries_lines(es).len() ==> single_line(#[trigger] entries_lines(es)[i]),
        entries_lines(es).len() == es.len(),
    decreases es.len(),
{
    if es.len() > 0 {
        lemma_entries_single(es.drop_last(), n);
        let e = es.last();
        assert(es[es.len() - 1] == e);
        lemma_single_lines(n, e.0, e.1);
        assert forall|i: int| 0 <= i < entries_lines(es).len() implies single_line(#[trigger] entries_lines(es)[i]) by {
            if i < es.len() - 1 {
                assert(entries_lines(es)[i] == entries_lines(es.drop_last())[i]);
                assert(es.drop_last()[i] == es[i]);
            }
        }
    }
}

/// Every section name, key and value of listing `l` keeps to one line.
pub open spec fn listing_single(l: Listing) -> bool {
    forall|i: int|
        0 <= i < l.len() ==> !(#[trigger] l[i]).0.contains('\n') && forall|j: int|
            0 <= j < l[i].1.len() ==> !(#[trigger] l[i].1[j]).0.contains('\n') && single_line(l[i].1[j].1)
}

proof fn lemma_single_listing(l: Listing, m: IniView)
    requires
        lists_ini(l, m),
        ini_single_lines(m),
    ensures
        listing_single(l),
{
    reveal(lists_ini);
    let ns = l.map_values(|e: (Seq<char>, Seq<(Seq<char>, Seq<char>)>)| e.0);
    assert forall|i: int| 0 <= i < l.len() implies !(#[trigger] l[i]).0.contains('\n') && forall|j: int|
        0 <= j < l[i].1.len() ==> !(#[trigger] l[i].1[j]).0.contains('\n') && single_line(l[i].1[j].1) by {
        assert(ns[i] == l[i].0);
        assert(m.contains_key(l[i].0));
        assert(lists_entries(l[i].1, m[l[i].0]));
        assert forall|j: int| 0 <= j < l[i].1.len() implies !(#[trigger] l[i].1[j]).0.contains('\n') && single_line(
            l[i].1[j].1,
        ) by {
            assert(m[l[i].0].contains_key(l[i].1[j].0));
        }
    }
}

proof fn lemma_listing_lines_single(l: Listing)
    requires
        listing_single(l),
    ensures
        forall|i: int| 0 <= i < listing_lines(l).len() ==> single_line(#[trigger] listing_lines(l)[i]),
    decreases l.len(),
{
    if l.len() > 0 {
        let p = l.drop_last();
        assert forall|i: int| 0 <= i < p.len() implies !(#[trigger] p[i]).0.contains('\n') && forall|j: int|
            0 <= j < p[i].1.len() ==> !(#[trigger] p[i].1[j]).0.contains('\n') && single_line(p[i].1[j].1) by {
            assert(p[i] == l[i]);
        }
        lemma_listing_lines_single(p);
        let last = l.last();
        assert(l[l.len() - 1] == last);
        assert forall|j: int| 0 <= j < last.1.len() implies !(#[trigger] last.1[j]).0.contains('\n') && single_line(
            last.1[j].1,
        ) by {
            assert(l[l.len() - 1].1[j] == last.1[j]);
        }
        lemma_entries_single(last.1, last.0);
        lemma_single_lines(last.0, Seq::empty(), Seq::empty());
        let a = listing_lines(p);
        let b: Seq<Seq<char>> = seq![section_line(last.0)];
        let c = entries_lines(last.1);
        assert(listing_lines(l) == a + b + c);
        assert forall|i: int| 0 <= i < listing_lines(l).len() implies single_line(#[trigger] listing_lines(l)[i]) by {
            if i < a.len() {
                assert(listing_lines(l)[i] == a[i]);
            } else if i == a.len() {
                assert(listing_lines(l)[i] == b[0]);
            } else {
                assert(listing_lines(l)[i] == c[i - a.len() - 1]);
            }
        }
    }
}

/// Law: the text that a file is written as, cut into lines as `BufRead::lines`
/// cuts it, reads back as the same file, where every section has a name, every
/// entry reads back (see [`entry_readable`]), and no name, key or value holds a
/// line feed or ends a value with a carriage return.
pub proof fn law_written_text_reads_back(l: Listing, m: IniView)
    requires
        lists_ini(l, m),
        ini_readable(m),
        ini_single_lines(m),
    ensures
        text_lines(listing_text(l)) == listing_lines(l),
        read_lines(text_lines(listing_text(l))) matches ReadStep::Next(s) && close_section(s) == m,
{
    law_text_reads_back(l, m);
    lemma_single_listing(l, m);
    lemma_listing_lines_single(l);
    lemma_text_lines_back(listing_lines(l));
}

} // verus!
