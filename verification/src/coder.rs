//! Obfuscating one unit file, entry by entry.
//!
//! The source is split into three files. The main file keeps the keys that the
//! game reads as they are, and the images under new names; every other value
//! moves to a data file under a random section and key, and a config file
//! points at it with a `${section.key}` reference.
//!
//! Copying an image is work on the file system, so a [`Coder`] stops at each
//! image and says what to copy; the caller copies it and reports back.
use vstd::prelude::*;
use rand::rngs::ThreadRng;
use crate::code::{
    first_reference, find_reference, getrf, sref_section, sref_tail, image_action_is, image_kept, key_kind, kind_of_key,
    lemma_first_reference_shape, plan_image, ref_type, reference_search_fails, resolve, resolve_reference, uppercase,
    ImageAction, KeyKind, RefType,
};
use crate::ini::{Ini, IniView, with_key, core_name, copy_from_key, lists_ini, Listing};
use crate::maps::{lists_entries, pairs_view};
use crate::names::{get_bin, is_name, is_name_char, law_name_shape, name_of};
use crate::text::{concat, from_chars, lemma_first_unique, replace, starts_with, to_chars, trim};

verus! {

/// The three files being written: main, config and data.
#[verifier::ext_equal]
pub struct CodeView {
    pub core: IniView,
    pub conf: IniView,
    pub data: IniView,
}

/// The reference that the config file holds for a value moved to key `ck` of
/// section `cs` of the data file: `${cs.ck}`.
pub open spec fn conf_ref(cs: Seq<char>, ck: Seq<char>) -> Seq<char> {
    seq!['$', '{'] + cs + seq!['.'] + ck + seq!['}']
}

/// Key `k` of section `n` kept in the main file with value `v`.
pub open spec fn keep(o: CodeView, n: Seq<char>, k: Seq<char>, v: Seq<char>) -> CodeView {
    CodeView { core: with_key(o.core, n, k, v), ..o }
}

/// Key `k` of section `n`, of value `value`, moved to key `ck` of section `cs`
/// of the data file, the config file pointing at it.
pub open spec fn conceal(
    o: CodeView,
    n: Seq<char>,
    k: Seq<char>,
    value: Seq<char>,
    cs: Seq<char>,
    ck: Seq<char>,
) -> CodeView {
    CodeView { conf: with_key(o.conf, n, k, conf_ref(cs, ck)), data: with_key(o.data, cs, ck, value), ..o }
}

/// An entry moved to the data file: its place in the listing, its section and
/// key, the value it moved with, and the names it moved under.
pub struct Concealed {
    pub sec: int,
    pub key: int,
    pub n: Seq<char>,
    pub k: Seq<char>,
    pub value: Seq<char>,
    pub cs: Seq<char>,
    pub ck: Seq<char>,
}

/// An entry kept in the main file: its place in the listing, its section and
/// key, and the value it was kept with.
pub struct Kept {
    pub sec: int,
    pub key: int,
    pub n: Seq<char>,
    pub k: Seq<char>,
    pub value: Seq<char>,
}

/// Where a coder stands.
#[verifier::ext_equal]
pub struct CoderView {
    /// The sections of the source, each with its entries, in the order they are taken.
    pub listing: Listing,
    /// The section being worked on.
    pub sec: int,
    /// The entry being worked on in that section.
    pub key: int,
    /// The coder waits to hear how the copy of an image went.
    pub waiting: bool,
    /// The files written so far.
    pub out: CodeView,
    /// The source file.
    pub source: IniView,
    /// The entries moved to the data file so far, in order.
    pub hidden: Seq<Concealed>,
    /// The entries kept in the main file so far, in order.
    pub kept: Seq<Kept>,
    /// For each section where an image could not be copied, the place of that
    /// image: it and the entries after it were skipped.
    pub failed: Map<int, int>,
}

pub open spec fn at_end(c: CoderView) -> bool {
    c.sec >= c.listing.len()
}

/// Every entry of the current section has been taken.
pub open spec fn section_done(c: CoderView) -> bool {
    !at_end(c) && c.key >= c.listing[c.sec].1.len()
}

pub open spec fn entry_section(c: CoderView) -> Seq<char> {
    c.listing[c.sec].0
}

pub open spec fn entry_key(c: CoderView) -> Seq<char> {
    c.listing[c.sec].1[c.key].0
}

pub open spec fn entry_value(c: CoderView) -> Seq<char> {
    c.listing[c.sec].1[c.key].1
}

/// On to the next entry, with the files now `o`.
pub open spec fn advanced(c: CoderView, o: CodeView) -> CoderView {
    CoderView { key: c.key + 1, out: o, waiting: false, ..c }
}

/// On to the next entry, the current one kept in the main file with value `v`.
pub open spec fn kept_step(c: CoderView, n: Seq<char>, k: Seq<char>, v: Seq<char>) -> CoderView {
    CoderView {
        kept: c.kept.push(Kept { sec: c.sec, key: c.key, n, k, value: v }),
        ..advanced(c, keep(c.out, n, k, v))
    }
}

/// On to the next section, the image at the current place not copied.
pub open spec fn failed_step(c: CoderView) -> CoderView {
    CoderView { failed: c.failed.insert(c.sec, c.key), ..next_section(c) }
}

/// On to the next entry, the current one moved to key `ck` of section `cs` of
/// the data file with value `value`.
pub open spec fn concealed_step(
    c: CoderView,
    n: Seq<char>,
    k: Seq<char>,
    value: Seq<char>,
    cs: Seq<char>,
    ck: Seq<char>,
) -> CoderView {
    CoderView {
        hidden: c.hidden.push(Concealed { sec: c.sec, key: c.key, n, k, value, cs, ck }),
        ..advanced(c, conceal(c.out, n, k, value, cs, ck))
    }
}

/// On to the next section.
pub open spec fn next_section(c: CoderView) -> CoderView {
    CoderView { sec: c.sec + 1, key: 0, waiting: false, ..c }
}

/// What a hidden value becomes once the reference `found` in it (if any) is followed.
pub open spec fn hidden_value(src: IniView, n: Seq<char>, v: Seq<char>, found: Option<Seq<char>>) -> Seq<char> {
    match found {
        Some(m) => resolve(src, n, v, m)->0,
        None => v,
    }
}

/// What the coder asks of its caller.
#[derive(Debug, PartialEq, Eq)]
pub enum Action {
    /// An entry was handled; go on.
    Next,
    /// Copy an image (see `ImageAction::Copy`) under a new name, then call
    /// `image_copied` or `image_failed`.
    CopyImage { from_root: bool, rel: String },
    /// An entry was handled whose reference is an expression: show it.
    ShowExpression(String),
    /// A reference that names no section or key that exists (or cannot be cut
    /// out): the file cannot be obfuscated.
    Unresolved(String),
    /// The pattern engine failed on a value.
    MatchError,
    /// Every entry is handled.
    Finished,
}

/// An image entry handled: `t` is its trimmed value.
pub open spec fn image_step_is(old: CoderView, new: CoderView, r: Action, n: Seq<char>, k: Seq<char>, t: Seq<char>) -> bool {
    match r {
        Action::Next => !starts_with(t, "ROOT:"@) && image_kept(t, uppercase(t)) && new == kept_step(
            old,
            n,
            k,
            t,
        ),
        Action::CopyImage { from_root, rel } => image_action_is(
            ImageAction::Copy { from_root, rel },
            t,
            uppercase(t),
        ) && new == CoderView { waiting: true, ..old },
        _ => false,
    }
}

/// A hidden entry handled: key `k` of section `n`, of value `v`.
pub open spec fn hidden_step_is(old: CoderView, new: CoderView, r: Action, n: Seq<char>, k: Seq<char>, v: Seq<char>) -> bool {
    let found = first_reference(v);
    match r {
        Action::MatchError => reference_search_fails(v) && new == old,
        Action::Unresolved(m) => !reference_search_fails(v) && found == Some(m@) && resolve(old.source, n, v, m@) is None
            && new == old,
        _ => {
            &&& !reference_search_fails(v)
            &&& (found matches Some(m) ==> resolve(old.source, n, v, m) is Some)
            &&& (r matches Action::ShowExpression(m) ==> found == Some(m@) && ref_type(m@)
                == RefType::BDS)
            &&& (r is Next ==> !(found matches Some(m) && ref_type(m) == RefType::BDS))
            &&& (r is Next || r is ShowExpression)
            &&& exists|cs: Seq<char>, ck: Seq<char>|
                is_name(cs) && is_name(ck) && new == concealed_step(old, n, k, hidden_value(old.source, n, v, found), cs, ck)
        },
    }
}

/// What one call of `next_action` does, from `old` to `new`, answering `r`.
pub open spec fn next_action_is(old: CoderView, new: CoderView, r: Action) -> bool {
    if at_end(old) {
        r is Finished && new == old
    } else if section_done(old) {
        r is Next && new == next_section(old)
    } else {
        let n = entry_section(old);
        let k = entry_key(old);
        let v = entry_value(old);
        match key_kind(k) {
            KeyKind::Plain => r is Next && new == kept_step(old, n, k, v),
            KeyKind::Image => image_step_is(old, new, r, n, k, trim(v)),
            KeyKind::Hidden => hidden_step_is(old, new, r, n, k, v),
        }
    }
}

/// Entry `h` was taken before where `c` stands.
pub open spec fn taken_before(c: CoderView, h: Concealed) -> bool {
    h.sec < c.sec || (h.sec == c.sec && h.key < c.key)
}

/// What the config and data files hold for each entry moved so far: the
/// config file points at the entry's names, and the data file holds the value
/// under them unless a later entry drew the same names.
#[verifier::opaque]
pub open spec fn log_ok(c: CoderView) -> bool {
    forall|i: int|
        0 <= i < c.hidden.len() ==> {
            let h = #[trigger] c.hidden[i];
            &&& 0 <= h.sec < c.listing.len()
            &&& 0 <= h.key < c.listing[h.sec].1.len()
            &&& taken_before(c, h)
            &&& h.n == c.listing[h.sec].0
            &&& h.k == c.listing[h.sec].1[h.key].0
            &&& h.value == hidden_value(
                c.source,
                h.n,
                c.listing[h.sec].1[h.key].1,
                first_reference(c.listing[h.sec].1[h.key].1),
            )
            &&& is_name(h.cs)
            &&& is_name(h.ck)
            &&& c.out.conf.contains_key(h.n)
            &&& c.out.conf[h.n].contains_key(h.k)
            &&& c.out.conf[h.n][h.k] == conf_ref(h.cs, h.ck)
            &&& (forall|j: int| i < j < c.hidden.len() ==> c.hidden[j].cs != h.cs || c.hidden[j].ck != h.ck)
                ==> c.out.data.contains_key(h.cs) && c.out.data[h.cs].contains_key(h.ck) && c.out.data[h.cs][h.ck]
                == h.value
        }
}

/// Two places of a listing hold different section-and-key pairs.
proof fn lemma_places_differ(l: Listing, m: IniView, s1: int, k1: int, s2: int, k2: int)
    requires
        lists_ini(l, m),
        0 <= s1 < l.len(),
        0 <= s2 < l.len(),
        0 <= k1 < l[s1].1.len(),
        0 <= k2 < l[s2].1.len(),
        s1 != s2 || k1 != k2,
    ensures
        l[s1].0 != l[s2].0 || l[s1].1[k1].0 != l[s2].1[k2].0,
{
    reveal(lists_ini);
    let ns = l.map_values(|e: (Seq<char>, Seq<(Seq<char>, Seq<char>)>)| e.0);
    if s1 != s2 {
        assert(ns[s1] == l[s1].0);
        assert(ns[s2] == l[s2].0);
        if s1 < s2 {
            assert(ns[s1] != ns[s2]);
        } else {
            assert(ns[s2] != ns[s1]);
        }
    } else {
        assert(lists_entries(l[s1].1, m[l[s1].0]));
        if k1 < k2 {
            assert(l[s1].1[k1].0 != l[s1].1[k2].0);
        } else {
            assert(l[s1].1[k2].0 != l[s1].1[k1].0);
        }
    }
}

/// Moving on, or keeping an entry in the main file, leaves the log as it was.
proof fn lemma_log_frame(c: CoderView, c2: CoderView)
    requires
        log_ok(c),
        c2.listing == c.listing,
        c2.source == c.source,
        c2.hidden == c.hidden,
        c2.out.conf == c.out.conf,
        c2.out.data == c.out.data,
        c.sec < c2.sec || (c.sec == c2.sec && c.key <= c2.key),
    ensures
        log_ok(c2),
{
    reveal(log_ok);
    assert forall|i: int| 0 <= i < c2.hidden.len() implies taken_before(c2, #[trigger] c2.hidden[i]) by {
        assert(taken_before(c, c.hidden[i]));
    }
}

/// Moving the current entry to the data file keeps the log.
proof fn lemma_log_conceal(c: CoderView, n: Seq<char>, k: Seq<char>, value: Seq<char>, cs: Seq<char>, ck: Seq<char>)
    requires
        log_ok(c),
        lists_ini(c.listing, c.source),
        !at_end(c),
        !section_done(c),
        0 <= c.key,
        0 <= c.sec,
        n == entry_section(c),
        k == entry_key(c),
        value == hidden_value(c.source, n, entry_value(c), first_reference(entry_value(c))),
        is_name(cs),
        is_name(ck),
    ensures
        log_ok(concealed_step(c, n, k, value, cs, ck)),
{
    reveal(log_ok);
    let c2 = concealed_step(c, n, k, value, cs, ck);
    let last = c.hidden.len() as int;
    assert forall|i: int| 0 <= i < c2.hidden.len() implies ({
        let h = #[trigger] c2.hidden[i];
        &&& 0 <= h.sec < c2.listing.len()
        &&& 0 <= h.key < c2.listing[h.sec].1.len()
        &&& taken_before(c2, h)
        &&& h.n == c2.listing[h.sec].0
        &&& h.k == c2.listing[h.sec].1[h.key].0
        &&& h.value == hidden_value(
            c2.source,
            h.n,
            c2.listing[h.sec].1[h.key].1,
            first_reference(c2.listing[h.sec].1[h.key].1),
        )
        &&& is_name(h.cs)
        &&& is_name(h.ck)
        &&& c2.out.conf.contains_key(h.n)
        &&& c2.out.conf[h.n].contains_key(h.k)
        &&& c2.out.conf[h.n][h.k] == conf_ref(h.cs, h.ck)
        &&& (forall|j: int| i < j < c2.hidden.len() ==> c2.hidden[j].cs != h.cs || c2.hidden[j].ck != h.ck)
            ==> c2.out.data.contains_key(h.cs) && c2.out.data[h.cs].contains_key(h.ck) && c2.out.data[h.cs][h.ck]
            == h.value
    }) by {
        if i < last {
            let h = c.hidden[i];
            assert(c2.hidden[i] == h);
            assert(taken_before(c, h));
            lemma_places_differ(c.listing, c.source, h.sec, h.key, c.sec, c.key);
            assert(h.n != n || h.k != k);
            if forall|j: int| i < j < c2.hidden.len() ==> c2.hidden[j].cs != h.cs || c2.hidden[j].ck != h.ck {
                assert(c2.hidden[last].cs != h.cs || c2.hidden[last].ck != h.ck);
                assert forall|j: int| i < j < c.hidden.len() implies c.hidden[j].cs != h.cs || c.hidden[j].ck != h.ck by {
                    assert(c2.hidden[j] == c.hidden[j]);
                }
            }
        }
    }
}

/// Law: at every point of a coder's run, each entry moved to the data file so
/// far is reached from the config file: its key there holds `${cs.ck}`, and
/// that reference, followed in the data file the way this tool follows
/// references, gives the value the entry moved with (its own value, with the
/// reference in it followed in the source), unless a later entry drew the same
/// two names.
pub proof fn law_moved_entries_resolve(c: &Coder, i: int)
    requires
        c.wf(),
        0 <= i < c@.hidden.len(),
        forall|j: int| i < j < c@.hidden.len() ==> c@.hidden[j].cs != c@.hidden[i].cs || c@.hidden[j].ck != c@.hidden[i].ck,
    ensures
        ({
            let h = c@.hidden[i];
            let r = c@.out.conf[h.n][h.k];
            &&& c@.out.conf.contains_key(h.n) && c@.out.conf[h.n].contains_key(h.k)
            &&& h.n == c@.listing[h.sec].0
            &&& h.k == c@.listing[h.sec].1[h.key].0
            &&& h.value == hidden_value(c@.source, h.n, c@.listing[h.sec].1[h.key].1, first_reference(c@.listing[h.sec].1[h.key].1))
            &&& resolve(c@.out.data, h.n, r, r) == Some(h.value)
        }),
{
    reveal(log_ok);
    let h = c@.hidden[i];
    lemma_conf_ref_resolves(c@.out.data, h.n, h.cs, h.ck);
}

/// The place `(s, j)` lies before where `c` stands.
pub open spec fn before_pos(c: CoderView, s: int, j: int) -> bool {
    s < c.sec || (s == c.sec && j < c.key)
}

/// The entry at place `(s, j)` was kept in the main file.
pub open spec fn kept_at(c: CoderView, s: int, j: int) -> bool {
    exists|i: int| 0 <= i < c.kept.len() && c.kept[i].sec == s && c.kept[i].key == j
}

/// The entry at place `(s, j)` was moved to the data file.
pub open spec fn hidden_at(c: CoderView, s: int, j: int) -> bool {
    exists|i: int| 0 <= i < c.hidden.len() && c.hidden[i].sec == s && c.hidden[i].key == j
}

/// The entry at place `(s, j)` was skipped: an image before it in its section
/// (or it itself) could not be copied.
pub open spec fn skipped(c: CoderView, s: int, j: int) -> bool {
    c.failed.contains_key(s) && c.failed[s] <= j
}

/// Where each entry taken so far went: each kept entry is in the main file
/// with its value (a plain key with its own value), no place was both kept
/// and moved, every key of the main file and of the config file comes from a
/// kept or moved entry, and every place before the cursor was kept, moved or
/// skipped.
#[verifier::opaque]
pub open spec fn run_ok(c: CoderView) -> bool {
    &&& forall|i: int|
        0 <= i < c.kept.len() ==> {
            let e = #[trigger] c.kept[i];
            &&& 0 <= e.sec < c.listing.len()
            &&& 0 <= e.key < c.listing[e.sec].1.len()
            &&& before_pos(c, e.sec, e.key)
            &&& e.n == c.listing[e.sec].0
            &&& e.k == c.listing[e.sec].1[e.key].0
            &&& (key_kind(e.k) == KeyKind::Plain ==> e.value == c.listing[e.sec].1[e.key].1)
            &&& c.out.core.contains_key(e.n)
            &&& c.out.core[e.n].contains_key(e.k)
            &&& c.out.core[e.n][e.k] == e.value
        }
    &&& forall|i: int, j: int|
        0 <= i < c.kept.len() && 0 <= j < c.hidden.len() ==> #[trigger] c.kept[i].sec != #[trigger] c.hidden[j].sec
            || c.kept[i].key != c.hidden[j].key
    &&& forall|n: Seq<char>, k: Seq<char>|
        c.out.core.contains_key(n) && #[trigger] c.out.core[n].contains_key(k) ==> exists|i: int|
            0 <= i < c.kept.len() && c.kept[i].n == n && c.kept[i].k == k
    &&& forall|n: Seq<char>, k: Seq<char>|
        c.out.conf.contains_key(n) && #[trigger] c.out.conf[n].contains_key(k) ==> exists|i: int|
            0 <= i < c.hidden.len() && c.hidden[i].n == n && c.hidden[i].k == k
    &&& forall|s: int, j: int|
        0 <= s < c.listing.len() && 0 <= j < c.listing[s].1.len() && #[trigger] before_pos(c, s, j) ==> skipped(c, s, j)
            || kept_at(c, s, j) || hidden_at(c, s, j)
    &&& forall|s: int| #[trigger] c.failed.contains_key(s) ==> s < c.sec
}

/// Waiting, or moving on past a finished section, keeps `run_ok`.
proof fn lemma_run_frame(c: CoderView, c2: CoderView)
    requires
        run_ok(c),
        c2.listing == c.listing,
        c2.out == c.out,
        c2.kept == c.kept,
        c2.hidden == c.hidden,
        c2.failed == c.failed,
        (c2.sec == c.sec && c2.key == c.key) || (section_done(c) && c2.sec == c.sec + 1 && c2.key == 0),
    ensures
        run_ok(c2),
{
    reveal(run_ok);
    assert forall|i: int| 0 <= i < c2.kept.len() implies before_pos(c2, (#[trigger] c2.kept[i]).sec, c2.kept[i].key) by {
        assert(before_pos(c, c.kept[i].sec, c.kept[i].key));
    }
    assert forall|s: int, j: int|
        0 <= s < c2.listing.len() && 0 <= j < c2.listing[s].1.len() && #[trigger] before_pos(c2, s, j) implies skipped(c2, s, j)
            || kept_at(c2, s, j) || hidden_at(c2, s, j) by {
        assert(before_pos(c, s, j));
        if kept_at(c, s, j) {
            let i = choose|i: int| 0 <= i < c.kept.len() && c.kept[i].sec == s && c.kept[i].key == j;
            assert(c2.kept[i] == c.kept[i]);
        }
        if hidden_at(c, s, j) {
            let i = choose|i: int| 0 <= i < c.hidden.len() && c.hidden[i].sec == s && c.hidden[i].key == j;
            assert(c2.hidden[i] == c.hidden[i]);
        }
    }
}

/// Keeping the current entry in the main file keeps `run_ok`.
proof fn lemma_run_keep(c: CoderView, n: Seq<char>, k: Seq<char>, v: Seq<char>)
    requires
        run_ok(c),
        log_ok(c),
        lists_ini(c.listing, c.source),
        !at_end(c),
        !section_done(c),
        0 <= c.key,
        0 <= c.sec,
        n == entry_section(c),
        k == entry_key(c),
        key_kind(k) == KeyKind::Plain ==> v == entry_value(c),
    ensures
        run_ok(kept_step(c, n, k, v)),
{
    reveal(run_ok);
    reveal(log_ok);
    let c2 = kept_step(c, n, k, v);
    let last = c.kept.len() as int;
    assert forall|i: int| 0 <= i < c2.kept.len() implies ({
        let e = #[trigger] c2.kept[i];
        &&& 0 <= e.sec < c2.listing.len()
        &&& 0 <= e.key < c2.listing[e.sec].1.len()
        &&& before_pos(c2, e.sec, e.key)
        &&& e.n == c2.listing[e.sec].0
        &&& e.k == c2.listing[e.sec].1[e.key].0
        &&& (key_kind(e.k) == KeyKind::Plain ==> e.value == c2.listing[e.sec].1[e.key].1)
        &&& c2.out.core.contains_key(e.n)
        &&& c2.out.core[e.n].contains_key(e.k)
        &&& c2.out.core[e.n][e.k] == e.value
    }) by {
        if i < last {
            let e = c.kept[i];
            assert(c2.kept[i] == e);
            assert(before_pos(c, e.sec, e.key));
            lemma_places_differ(c.listing, c.source, e.sec, e.key, c.sec, c.key);
        }
    }
    assert forall|i: int, j: int| 0 <= i < c2.kept.len() && 0 <= j < c2.hidden.len() implies #[trigger] c2.kept[i].sec
        != #[trigger] c2.hidden[j].sec || c2.kept[i].key != c2.hidden[j].key by {
        if i == last {
            assert(taken_before(c, c.hidden[j]));
        } else {
            assert(c2.kept[i] == c.kept[i]);
        }
    }
    assert forall|m: Seq<char>, q: Seq<char>| c2.out.core.contains_key(m) && #[trigger] c2.out.core[m].contains_key(q) implies exists|i: int|
        0 <= i < c2.kept.len() && c2.kept[i].n == m && c2.kept[i].k == q by {
        if m == n && q == k {
            assert(c2.kept[last].n == m && c2.kept[last].k == q);
        } else {
            assert(c.out.core.contains_key(m) && c.out.core[m].contains_key(q));
            let i = choose|i: int| 0 <= i < c.kept.len() && c.kept[i].n == m && c.kept[i].k == q;
            assert(c2.kept[i] == c.kept[i]);
        }
    }
    assert forall|s: int, j: int|
        0 <= s < c2.listing.len() && 0 <= j < c2.listing[s].1.len() && #[trigger] before_pos(c2, s, j) implies skipped(c2, s, j)
            || kept_at(c2, s, j) || hidden_at(c2, s, j) by {
        if s == c.sec && j == c.key {
            assert(c2.kept[last].sec == s && c2.kept[last].key == j);
            assert(kept_at(c2, s, j));
        } else {
            assert(before_pos(c, s, j));
            assert(skipped(c, s, j) || kept_at(c, s, j) || hidden_at(c, s, j));
            if kept_at(c, s, j) {
                let i = choose|i: int| 0 <= i < c.kept.len() && c.kept[i].sec == s && c.kept[i].key == j;
                assert(c2.kept[i] == c.kept[i]);
                assert(kept_at(c2, s, j));
            } else if hidden_at(c, s, j) {
                let i = choose|i: int| 0 <= i < c.hidden.len() && c.hidden[i].sec == s && c.hidden[i].key == j;
                assert(c2.hidden[i] == c.hidden[i]);
                assert(hidden_at(c2, s, j));
            } else {
                assert(skipped(c2, s, j));
            }
        }
    }
    assert forall|m: Seq<char>, q: Seq<char>| c2.out.conf.contains_key(m) && #[trigger] c2.out.conf[m].contains_key(q) implies exists|i: int|
        0 <= i < c2.hidden.len() && c2.hidden[i].n == m && c2.hidden[i].k == q by {
        assert(c.out.conf.contains_key(m) && c.out.conf[m].contains_key(q));
        let i = choose|i: int| 0 <= i < c.hidden.len() && c.hidden[i].n == m && c.hidden[i].k == q;
        assert(c2.hidden[i] == c.hidden[i]);
    }
}

/// Moving the current entry to the data file keeps `run_ok`.
proof fn lemma_run_conceal(c: CoderView, n: Seq<char>, k: Seq<char>, value: Seq<char>, cs: Seq<char>, ck: Seq<char>)
    requires
        run_ok(c),
        log_ok(c),
        lists_ini(c.listing, c.source),
        !at_end(c),
        !section_done(c),
        0 <= c.key,
        0 <= c.sec,
        n == entry_section(c),
        k == entry_key(c),
    ensures
        run_ok(concealed_step(c, n, k, value, cs, ck)),
{
    reveal(run_ok);
    reveal(log_ok);
    let c2 = concealed_step(c, n, k, value, cs, ck);
    let last = c.hidden.len() as int;
    assert forall|i: int| 0 <= i < c2.kept.len() implies before_pos(c2, (#[trigger] c2.kept[i]).sec, c2.kept[i].key) by {
        assert(before_pos(c, c.kept[i].sec, c.kept[i].key));
    }
    assert forall|i: int, j: int| 0 <= i < c2.kept.len() && 0 <= j < c2.hidden.len() implies #[trigger] c2.kept[i].sec
        != #[trigger] c2.hidden[j].sec || c2.kept[i].key != c2.hidden[j].key by {
        assert(before_pos(c, c.kept[i].sec, c.kept[i].key));
        if j < last {
            assert(c2.hidden[j] == c.hidden[j]);
        }
    }
    assert forall|m: Seq<char>, q: Seq<char>| c2.out.conf.contains_key(m) && #[trigger] c2.out.conf[m].contains_key(q) implies exists|i: int|
        0 <= i < c2.hidden.len() && c2.hidden[i].n == m && c2.hidden[i].k == q by {
        if m == n && q == k {
            assert(c2.hidden[last].n == m && c2.hidden[last].k == q);
        } else {
            assert(c.out.conf.contains_key(m) && c.out.conf[m].contains_key(q));
            let i = choose|i: int| 0 <= i < c.hidden.len() && c.hidden[i].n == m && c.hidden[i].k == q;
            assert(c2.hidden[i] == c.hidden[i]);
        }
    }
    assert forall|s: int, j: int|
        0 <= s < c2.listing.len() && 0 <= j < c2.listing[s].1.len() && #[trigger] before_pos(c2, s, j) implies skipped(c2, s, j)
            || kept_at(c2, s, j) || hidden_at(c2, s, j) by {
        if s == c.sec && j == c.key {
            assert(c2.hidden[last].sec == s && c2.hidden[last].key == j);
            assert(hidden_at(c2, s, j));
        } else {
            assert(before_pos(c, s, j));
            assert(skipped(c, s, j) || kept_at(c, s, j) || hidden_at(c, s, j));
            if hidden_at(c, s, j) {
                let i = choose|i: int| 0 <= i < c.hidden.len() && c.hidden[i].sec == s && c.hidden[i].key == j;
                assert(c2.hidden[i] == c.hidden[i]);
                assert(hidden_at(c2, s, j));
            } else if kept_at(c, s, j) {
                let i = choose|i: int| 0 <= i < c.kept.len() && c.kept[i].sec == s && c.kept[i].key == j;
                assert(c2.kept[i] == c.kept[i]);
                assert(kept_at(c2, s, j));
            } else {
                assert(skipped(c2, s, j));
            }
        }
    }
}

/// Skipping the rest of a section after a failed copy keeps `run_ok`.
proof fn lemma_run_failed(c: CoderView)
    requires
        run_ok(c),
        !at_end(c),
        0 <= c.key,
    ensures
        run_ok(failed_step(c)),
{
    reveal(run_ok);
    let c2 = failed_step(c);
    assert(!c.failed.contains_key(c.sec));
    assert forall|i: int| 0 <= i < c2.kept.len() implies before_pos(c2, (#[trigger] c2.kept[i]).sec, c2.kept[i].key) by {
        assert(before_pos(c, c.kept[i].sec, c.kept[i].key));
    }
    assert forall|s: int, j: int|
        0 <= s < c2.listing.len() && 0 <= j < c2.listing[s].1.len() && #[trigger] before_pos(c2, s, j) implies skipped(c2, s, j)
            || kept_at(c2, s, j) || hidden_at(c2, s, j) by {
        if s == c.sec && j >= c.key {
            assert(skipped(c2, s, j));
        } else {
            assert(before_pos(c, s, j));
            assert(skipped(c, s, j) || kept_at(c, s, j) || hidden_at(c, s, j));
            if skipped(c, s, j) {
                assert(s != c.sec);
                assert(c2.failed[s] == c.failed[s]);
                assert(skipped(c2, s, j));
            } else if hidden_at(c, s, j) {
                let i = choose|i: int| 0 <= i < c.hidden.len() && c.hidden[i].sec == s && c.hidden[i].key == j;
                assert(c2.hidden[i] == c.hidden[i]);
                assert(hidden_at(c2, s, j));
            } else {
                let i = choose|i: int| 0 <= i < c.kept.len() && c.kept[i].sec == s && c.kept[i].key == j;
                assert(c2.kept[i] == c.kept[i]);
                assert(kept_at(c2, s, j));
            }
        }
    }
    assert forall|m: Seq<char>, q: Seq<char>| c2.out.conf.contains_key(m) && #[trigger] c2.out.conf[m].contains_key(q) implies exists|i: int|
        0 <= i < c2.hidden.len() && c2.hidden[i].n == m && c2.hidden[i].k == q by {
        assert(c.out.conf.contains_key(m) && c.out.conf[m].contains_key(q));
        let i = choose|i: int| 0 <= i < c.hidden.len() && c.hidden[i].n == m && c.hidden[i].k == q;
        assert(c2.hidden[i] == c.hidden[i]);
    }
}

/// Law: at every point of a coder's run, every entry taken so far went to
/// exactly one place. Each kept entry is in the main file with the value it
/// was kept with (a plain key with its own value); no section-and-key is in
/// both the main file and the config file; every key of those two files comes
/// from an entry of the source; and every entry before the coder's place was
/// kept, moved to the data file, or skipped after an image of its section
/// could not be copied. Once the coder is at the end with no copy failed,
/// every entry of the source was kept or moved.
pub proof fn law_run_places_every_entry(c: &Coder)
    requires
        c.wf(),
    ensures
        forall|i: int|
            0 <= i < c@.kept.len() ==> {
                let e = #[trigger] c@.kept[i];
                &&& e.n == c@.listing[e.sec].0
                &&& e.k == c@.listing[e.sec].1[e.key].0
                &&& (key_kind(e.k) == KeyKind::Plain ==> e.value == c@.listing[e.sec].1[e.key].1)
                &&& c@.out.core.contains_key(e.n) && c@.out.core[e.n].contains_key(e.k)
                &&& c@.out.core[e.n][e.k] == e.value
            },
        forall|n: Seq<char>, k: Seq<char>|
            !(c@.out.core.contains_key(n) && #[trigger] c@.out.core[n].contains_key(k) && c@.out.conf.contains_key(n)
                && #[trigger] c@.out.conf[n].contains_key(k)),
        forall|s: int, j: int|
            0 <= s < c@.listing.len() && 0 <= j < c@.listing[s].1.len() && #[trigger] before_pos(c@, s, j) ==> skipped(c@, s, j)
                || kept_at(c@, s, j) || hidden_at(c@, s, j),
        at_end(c@) && c@.failed.dom().is_empty() ==> forall|s: int, j: int|
            #![trigger kept_at(c@, s, j)]
            #![trigger hidden_at(c@, s, j)]
            0 <= s < c@.listing.len() && 0 <= j < c@.listing[s].1.len() ==> kept_at(c@, s, j) || hidden_at(c@, s, j),
{
    reveal(run_ok);
    reveal(log_ok);
    let v = c@;
    assert forall|n: Seq<char>, k: Seq<char>|
        !(v.out.core.contains_key(n) && #[trigger] v.out.core[n].contains_key(k) && v.out.conf.contains_key(n)
            && #[trigger] v.out.conf[n].contains_key(k)) by {
        if v.out.core.contains_key(n) && v.out.core[n].contains_key(k) && v.out.conf.contains_key(n)
            && v.out.conf[n].contains_key(k) {
            let i = choose|i: int| 0 <= i < v.kept.len() && v.kept[i].n == n && v.kept[i].k == k;
            let j = choose|j: int| 0 <= j < v.hidden.len() && v.hidden[j].n == n && v.hidden[j].k == k;
            let e = v.kept[i];
            let h = v.hidden[j];
            assert(e.sec != h.sec || e.key != h.key);
            lemma_places_differ(v.listing, v.source, e.sec, e.key, h.sec, h.key);
        }
    }
    if at_end(v) && v.failed.dom().is_empty() {
        assert forall|s: int, j: int|
            #![trigger kept_at(v, s, j)]
            #![trigger hidden_at(v, s, j)]
            0 <= s < v.listing.len() && 0 <= j < v.listing[s].1.len() implies kept_at(v, s, j) || hidden_at(v, s, j) by {
            assert(before_pos(v, s, j));
            assert(!v.failed.contains_key(s));
        }
    }
}

/// Works through a source file: see the module's documentation.
pub struct Coder {
    listing: Vec<(String, Vec<(String, String)>)>,
    sec: usize,
    key: usize,
    waiting: bool,
    source: Ghost<IniView>,
    hidden: Ghost<Seq<Concealed>>,
    kept: Ghost<Seq<Kept>>,
    failed: Ghost<Map<int, int>>,
    core: Ini,
    conf: Ini,
    data: Ini,
}

impl View for Coder {
    type V = CoderView;

    closed spec fn view(&self) -> CoderView {
        CoderView {
            listing: self.listing@.map_values(
                |e: (String, Vec<(String, String)>)| (e.0@, pairs_view(e.1@)),
            ),
            sec: self.sec as int,
            key: self.key as int,
            waiting: self.waiting,
            out: CodeView { core: self.core@, conf: self.conf@, data: self.data@ },
            source: self.source@,
            hidden: self.hidden@,
            kept: self.kept@,
            failed: self.failed@,
        }
    }
}

impl Coder {
    /// The coder is in a consistent state.
    pub closed spec fn wf(&self) -> bool {
        &&& lists_ini(self@.listing, self@.source)
        &&& self.sec <= self.listing.len()
        &&& self.sec < self.listing.len() ==> self.key <= self.listing@[self.sec as int].1.len()
        &&& self.waiting ==> self.sec < self.listing.len() && self.key < self.listing@[self.sec as int].1.len()
        &&& self.waiting ==> key_kind(entry_key(self@)) == KeyKind::Image
        &&& log_ok(self@)
        &&& run_ok(self@)
        &&& self.core.path@ == Seq::<char>::empty() && self.core.ppath@ == Seq::<char>::empty()
        &&& self.conf.path@ == Seq::<char>::empty() && self.conf.ppath@ == Seq::<char>::empty()
        &&& self.data.path@ == Seq::<char>::empty() && self.data.ppath@ == Seq::<char>::empty()
    }

    /// A coder at the start of `src`, the three files empty.
    pub fn new(src: &Ini) -> (r: Coder)
        ensures
            r.wf(),
            lists_ini(r@.listing, src@),
            r@.sec == 0,
            r@.key == 0,
            !r@.waiting,
            r@.source == src@,
            r@.out == (CodeView { core: IniView::empty(), conf: IniView::empty(), data: IniView::empty() }),
            r@.hidden.len() == 0,
            r@.kept.len() == 0,
            r@.failed == Map::<int, int>::empty(),
    {
        let listing = src.listing();
        let r = Coder {
            listing,
            sec: 0,
            key: 0,
            waiting: false,
            source: Ghost(src@),
            hidden: Ghost(Seq::empty()),
            kept: Ghost(Seq::empty()),
            failed: Ghost(Map::empty()),
            core: Ini::new(),
            conf: Ini::new(),
            data: Ini::new(),
        };
        proof {
            reveal(log_ok);
            reveal(run_ok);
        }
        r
    }

    /// Handles the entry the coder stands at, or moves on to the next section:
    /// see [`next_action_is`]. Random names come from `random`.
    pub fn next_action(&mut self, src: &Ini, random: &mut ThreadRng) -> (r: Action)
        requires
            old(self).wf(),
            !old(self)@.waiting,
            src@ == old(self)@.source,
        ensures
            final(self).wf(),
            next_action_is(old(self)@, final(self)@, r),
    {
        if self.sec >= self.listing.len() {
            return Action::Finished;
        }
        if self.key >= self.listing[self.sec].1.len() {
            self.sec = self.sec + 1;
            self.key = 0;
            proof {
                assert(self@ =~= next_section(old(self)@));
                lemma_log_frame(old(self)@, self@);
                lemma_run_frame(old(self)@, self@);
            }
            return Action::Next;
        }
        let ghost c = self@;
        let n = self.listing[self.sec].0.clone();
        let k = self.listing[self.sec].1[self.key].0.clone();
        let v = self.listing[self.sec].1[self.key].1.clone();
        proof {
            assert(n@ == entry_section(c));
            assert(k@ == entry_key(c));
            assert(v@ == entry_value(c));
        }
        let kc = to_chars(k.as_str());
        match kind_of_key(&kc) {
            KeyKind::Plain => {
                let ghost nv = n@;
                let ghost kv = k@;
                let ghost vv = v@;
                self.core.set_kv(n, k, v);
                self.key = self.key + 1;
                self.kept = Ghost(c.kept.push(Kept { sec: c.sec, key: c.key, n: nv, k: kv, value: vv }));
                proof {
                    assert(self@ =~= kept_step(c, nv, kv, vv));
                    lemma_log_frame(c, self@);
                    lemma_run_keep(c, nv, kv, vv);
                }
                Action::Next
            },
            KeyKind::Image => {
                match plan_image(&v) {
                    ImageAction::Keep(t) => {
                        let ghost nv = n@;
                        let ghost kv = k@;
                        let ghost tv = t@;
                        self.core.set_kv(n, k, t);
                        self.key = self.key + 1;
                        self.kept = Ghost(c.kept.push(Kept { sec: c.sec, key: c.key, n: nv, k: kv, value: tv }));
                        proof {
                            assert(self@ =~= kept_step(c, nv, kv, tv));
                            lemma_log_frame(c, self@);
                            lemma_run_keep(c, nv, kv, tv);
                        }
                        Action::Next
                    },
                    ImageAction::Copy { from_root, rel } => {
                        self.waiting = true;
                        proof {
                            assert(self@ =~= CoderView { waiting: true, ..c });
                            lemma_log_frame(c, self@);
                            lemma_run_frame(c, self@);
                        }
                        Action::CopyImage { from_root, rel }
                    },
                }
            },
            KeyKind::Hidden => self.take_hidden(src, random, n, k, v),
        }
    }

    /// Moves the current entry, `k` of section `n` with value `v`, behind a
    /// random reference.
    fn take_hidden(&mut self, src: &Ini, random: &mut ThreadRng, n: String, k: String, v: String) -> (r: Action)
        requires
            old(self).wf(),
            !old(self)@.waiting,
            src@ == old(self)@.source,
            !at_end(old(self)@),
            !section_done(old(self)@),
            n@ == entry_section(old(self)@),
            k@ == entry_key(old(self)@),
            v@ == entry_value(old(self)@),
        ensures
            final(self).wf(),
            hidden_step_is(old(self)@, final(self)@, r, n@, k@, v@),
    {
        let ghost c = self@;
        let ghost found = first_reference(v@);
        let cs = get_bin(random);
        let ck = get_bin(random);
        let (value, expression) = match value_for(src, &n, &v) {
            Ok(p) => p,
            Err(a) => {
                return a;
            },
        };
        let reference = conf_reference(&cs, &ck);
        let ghost csv = cs@;
        let ghost ckv = ck@;
        let ghost nv = n@;
        let ghost kv = k@;
        let ghost valv = value@;
        self.conf.set_kv(n, k, reference);
        self.data.set_kv(cs, ck, value);
        self.key = self.key + 1;
        self.hidden = Ghost(c.hidden.push(Concealed { sec: c.sec, key: c.key, n: nv, k: kv, value: valv, cs: csv, ck: ckv }));
        proof {
            assert(self@ =~= concealed_step(c, nv, kv, hidden_value(c.source, nv, v@, found), csv, ckv));
            lemma_log_conceal(c, nv, kv, valv, csv, ckv);
            lemma_run_conceal(c, nv, kv, valv, csv, ckv);
        }
        match expression {
            Some(m) => Action::ShowExpression(m),
            None => Action::Next,
        }
    }

    /// The image asked for was copied under the name `file_name`: the main file
    /// takes that name as the entry's value.
    pub fn image_copied(&mut self, file_name: String)
        requires
            old(self).wf(),
            old(self)@.waiting,
        ensures
            final(self).wf(),
            final(self)@ == kept_step(old(self)@, entry_section(old(self)@), entry_key(old(self)@), file_name@),
    {
        let ghost c = self@;
        let ghost fv = file_name@;
        let n = self.listing[self.sec].0.clone();
        let k = self.listing[self.sec].1[self.key].0.clone();
        self.core.set_kv(n, k, file_name);
        self.key = self.key + 1;
        self.waiting = false;
        self.kept = Ghost(c.kept.push(Kept { sec: c.sec, key: c.key, n: entry_section(c), k: entry_key(c), value: fv }));
        proof {
            assert(self@ =~= kept_step(c, entry_section(c), entry_key(c), fv));
            lemma_log_frame(c, self@);
            lemma_run_keep(c, entry_section(c), entry_key(c), fv);
        }
    }

    /// The image asked for could not be copied: the rest of its section is skipped.
    pub fn image_failed(&mut self)
        requires
            old(self).wf(),
            old(self)@.waiting,
        ensures
            final(self).wf(),
            final(self)@ == failed_step(old(self)@),
    {
        let ghost c = self@;
        self.sec = self.sec + 1;
        self.key = 0;
        self.waiting = false;
        self.failed = Ghost(c.failed.insert(c.sec, c.key));
        proof {
            assert(self@ =~= failed_step(c));
            lemma_log_frame(c, self@);
            lemma_run_failed(c);
        }
    }

    /// The three files: main, config and data. The main file's `core` section
    /// gets `copyFrom:` the data file's name, a comma, and the config file's name.
    /// None of the three has a path or a folder: the caller names the files.
    pub fn finish(self, data_name: &String, conf_name: &String) -> (r: (Ini, Ini, Ini))
        requires
            self.wf(),
        ensures
            r.0@ == with_key(self@.out.core, core_name(), copy_from_key(), data_name@ + seq![','] + conf_name@),
            r.1@ == self@.out.conf,
            r.2@ == self@.out.data,
            r.0.path@ == Seq::<char>::empty(),
            r.0.ppath@ == Seq::<char>::empty(),
            r.1.path@ == Seq::<char>::empty(),
            r.1.ppath@ == Seq::<char>::empty(),
            r.2.path@ == Seq::<char>::empty(),
            r.2.ppath@ == Seq::<char>::empty(),
    {
        let mut core = self.core;
        let comma = vec![','];
        assert(comma@ == seq![',']);
        let link = concat(&concat(&to_chars(data_name.as_str()), &comma), &to_chars(conf_name.as_str()));
        proof {
            reveal_strlit("core");
            reveal_strlit("copyFrom");
        }
        core.set_kv(from_chars(to_chars("core").as_slice()), from_chars(to_chars("copyFrom").as_slice()), from_chars(link.as_slice()));
        (core, self.conf, self.data)
    }
}

/// The value that a hidden entry `v` of section `n` moves with (its reference
/// followed), and the expression to show, if its reference is one; or what to
/// tell the caller where that cannot be done.
fn value_for(src: &Ini, n: &String, v: &String) -> (r: Result<(String, Option<String>), Action>)
    ensures
        match r {
            Err(a) => (a is MatchError && reference_search_fails(v@)) || (a matches Action::Unresolved(m)
                && !reference_search_fails(v@) && first_reference(v@) == Some(m@) && resolve(src@, n@, v@, m@) is None),
            Ok((value, e)) => {
                &&& !reference_search_fails(v@)
                &&& value@ == hidden_value(src@, n@, v@, first_reference(v@))
                &&& (first_reference(v@) matches Some(m) ==> resolve(src@, n@, v@, m) is Some)
                &&& match e {
                    Some(m) => first_reference(v@) == Some(m@) && ref_type(m@) == RefType::BDS,
                    None => !(first_reference(v@) matches Some(m) && ref_type(m) == RefType::BDS),
                }
            },
        },
{
    let found = match find_reference(v) {
        Ok(f) => f,
        Err(_) => {
            return Err(Action::MatchError);
        },
    };
    match found {
        None => Ok((v.clone(), None)),
        Some(m) => {
            proof {
                lemma_first_reference_shape(v@);
            }
            let mc = to_chars(m.as_str());
            match resolve_reference(src, n, &to_chars(v.as_str()), &mc) {
                None => Err(Action::Unresolved(m)),
                Some(x) => {
                    let value = from_chars(x.as_slice());
                    if getrf(m.as_str()) == RefType::BDS {
                        Ok((value, Some(m)))
                    } else {
                        Ok((value, None))
                    }
                },
            }
        },
    }
}

/// `${cs.ck}`.
fn conf_reference(cs: &String, ck: &String) -> (r: String)
    ensures
        r@ == conf_ref(cs@, ck@),
{
    let a = concat(&vec!['$', '{'], &to_chars(cs.as_str()));
    let b = concat(&a, &vec!['.']);
    let c = concat(&b, &to_chars(ck.as_str()));
    let d = concat(&c, &vec!['}']);
    from_chars(d.as_slice())
}

/// Replacing a whole string by `t` gives `t`.
proof fn lemma_replace_whole(s: Seq<char>, t: Seq<char>)
    requires
        s.len() > 0,
    ensures
        replace(s, s, t) == t,
{
    assert(s.take(s.len() as int) == s);
    assert(s.skip(s.len() as int).len() == 0);
    assert(replace(s.skip(s.len() as int), s, t) == s.skip(s.len() as int));
    assert(t + s.skip(s.len() as int) == t);
}

proof fn lemma_name_chars(s: Seq<char>)
    requires
        is_name(s),
    ensures
        s.len() >= 1,
        forall|i: int| 0 <= i < s.len() ==> is_name_char(#[trigger] s[i]),
{
    let n = choose|n: nat| 1 <= n <= u32::MAX && s == name_of(n);
    law_name_shape(n);
}

/// The reference `${cs.ck}`, for names `cs` and `ck`, is read as a reference
/// to key `ck` of section `cs`, and followed in `data` gives what that key holds.
pub proof fn lemma_conf_ref_resolves(data: IniView, n: Seq<char>, cs: Seq<char>, ck: Seq<char>)
    requires
        is_name(cs),
        is_name(ck),
    ensures
        ref_type(conf_ref(cs, ck)) == RefType::SREF,
        sref_section(conf_ref(cs, ck)) == cs,
        sref_tail(conf_ref(cs, ck)) == ck + seq!['}'],
        data.contains_key(cs) && data[cs].contains_key(ck) ==> resolve(data, n, conf_ref(cs, ck), conf_ref(cs, ck))
            == Some(data[cs][ck]),
{
    let r = conf_ref(cs, ck);
    lemma_name_chars(cs);
    lemma_name_chars(ck);
    let d: int = cs.len() as int + 2;
    assert(r[d] == '.');
    assert forall|j: int| 0 <= j < d implies r[j] != '.' by {
        if j >= 2 {
            assert(r[j] == cs[j - 2]);
        }
    }
    lemma_first_unique(r, '.', d);
    assert(r.subrange(2, d) == cs);
    let rest = r.skip(d + 1);
    assert(rest == ck + seq!['}']);
    assert forall|j: int| 0 <= j < rest.len() implies rest[j] != '.' by {
        if j < ck.len() {
            assert(rest[j] == ck[j]);
        }
    }
    assert(!rest.contains('.'));
    assert(rest.last() == '}');
    assert(rest.drop_last() == ck);
    assert forall|j: int| 0 <= j < r.len() implies r[j] != '+' && r[j] != '-' && r[j] != '*' && r[j] != '/' by {
        if 2 <= j < d {
            assert(r[j] == cs[j - 2]);
        } else if d < j < r.len() - 1 {
            assert(r[j] == ck[j - d - 1]);
        }
    }
    assert(r.contains('.'));
    assert(ref_type(r) == RefType::SREF);
    if data.contains_key(cs) && data[cs].contains_key(ck) {
        lemma_replace_whole(r, data[cs][ck]);
    }
}

/// Law: the reference that the config file holds for a hidden entry, followed
/// in the data file the way this tool follows `${section.key}` references,
/// gives back the entry's value; the main file is left as it was.
pub proof fn law_hidden_entry_resolves(
    o: CodeView,
    n: Seq<char>,
    k: Seq<char>,
    value: Seq<char>,
    cs: Seq<char>,
    ck: Seq<char>,
)
    requires
        is_name(cs),
        is_name(ck),
    ensures
        ({
            let h = conceal(o, n, k, value, cs, ck);
            let r = h.conf[n][k];
            &&& r == conf_ref(cs, ck)
            &&& ref_type(r) == RefType::SREF
            &&& sref_section(r) == cs
            &&& sref_tail(r) == ck + seq!['}']
            &&& resolve(h.data, n, r, r) == Some(value)
            &&& h.core == o.core
        }),
{
    let h = conceal(o, n, k, value, cs, ck);
    lemma_conf_ref_resolves(h.data, n, cs, ck);
}


} // verus!
