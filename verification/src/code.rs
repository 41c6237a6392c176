//! The rules of the obfuscator: which keys stay readable, how image paths are
//! read, and how `${...}` references in values are resolved.
use vstd::prelude::*;
use crate::ini::{Ini, IniView};
use crate::text::{
    first_index, from_chars, has_prefix, is_ascii_char, is_ascii_char_exec, replace, replace_all,
    slice_of, starts_with, to_chars, trim, trim_chars, contains_char, find_char, find_char_from,
    is_first, lemma_first_unique, lemma_replace_absent, lemma_replace_clear_prefix, lemma_replace_front,
    lemma_replace_lacking,
};

verus! {

/// How a reference found in a value is read.
#[derive(PartialEq, Eq, Structural, Clone, Copy, Debug)]
pub enum RefType {
    /// `${section.key}`: a key of another section.
    SREF,
    /// `${key}`: a key of the same section.
    REF,
    /// An expression (it holds `+`, `-`, `*` or `/`); it is left as it is.
    BDS,
}

pub open spec fn ref_type(s: Seq<char>) -> RefType {
    if s.contains('+') || s.contains('-') || s.contains('*') || s.contains('/') {
        RefType::BDS
    } else if s.contains('.') {
        RefType::SREF
    } else {
        RefType::REF
    }
}

/// How the reference `s` is read.
pub fn getrf(s: &str) -> (r: RefType)
    ensures
        r == ref_type(s@),
{
    let cs = to_chars(s);
    if contains_char(&cs, '+') || contains_char(&cs, '-') || contains_char(&cs, '*')
        || contains_char(&cs, '/') {
        RefType::BDS
    } else if contains_char(&cs, '.') {
        RefType::SREF
    } else {
        RefType::REF
    }
}

/// What becomes of a key of the source file.
#[derive(PartialEq, Eq, Structural, Clone, Copy, Debug)]
pub enum KeyKind {
    /// The game reads it before references are resolved: it stays in the main file as it is.
    Plain,
    /// An image path: the image is copied out under a new name.
    Image,
    /// Anything else: its value moves to the data file behind a random reference.
    Hidden,
}

/// The keys whose values the game needs as they are.
pub open spec fn plain_key_strs() -> Seq<&'static str> {
    seq![
        "name",
        "copyFrom",
        "altNames",
        "class",
        "overrideAndReplace",
        "onNewMapSpawn",
        "canOnlyBeAttackedByUnitsWithTags",
        "tags",
        "similarResourcesHaveTag",
        "displayText",
        "displayDescription",
        "displayLocaleKey",
        "transportUnitsRequireTag",
        "canReclaimResourcesOnlyWithTags",
        "unitsSpawnedOnDeath",
        "soundOnDeath",
        "isLockedMessage",
        "isLockedAltMessage",
        "isLockedAlt2Message",
        "teamColoringMode",
        "drawLayer",
        "attackMovement",
        "interceptProjectiles_withTags",
        "shoot_sound",
        "friendlyFire",
        "movementType",
        "upgradedFrom",
        "onlyUseAsHarvester_ifBaseHasUnitTagged",
        "priority",
        "stripIndex",
        "onActions",
        "text",
        "textPostFix",
        "description",
        "displayType",
        "showMessageToAllEnemyPlayers",
        "showQuickWarLogToPlayer",
        "showQuickWarLogToAllPlayers",
        "anyRuleInGroup",
        "cannotPlaceMessage",
        "displayName",
        "displayNameShort",
        "autoTriggerOnEvent",
        "fireTurretXAtGround_onlyOverPassableTileOf",
        "deleteNumUnitsFromTransport_onlyWithTags",
        "addWaypoint_target_randomUnit_team",
        "attachments_onlyOnSlots",
        "showMessageToPlayer",
        "showMessageToAllPlayers",
        ""
    ]
}

/// The keys that name images.
pub open spec fn image_key_strs() -> Seq<&'static str> {
    seq!["image", "image_wreak", "image_turret", "image_shadow", "image_back"]
}

pub open spec fn views_of(ss: Seq<&'static str>) -> Seq<Seq<char>> {
    ss.map_values(|s: &'static str| s@)
}

pub open spec fn key_kind(k: Seq<char>) -> KeyKind {
    if views_of(plain_key_strs()).contains(k) {
        KeyKind::Plain
    } else if views_of(image_key_strs()).contains(k) {
        KeyKind::Image
    } else {
        KeyKind::Hidden
    }
}

/// Tells whether `a` and `b` hold the same characters.
pub fn same_chars(a: &Vec<char>, b: &Vec<char>) -> (r: bool)
    ensures
        r == (a@ == b@),
{
    if a.len() != b.len() {
        return false;
    }
    let mut i: usize = 0;
    while i < a.len()
        invariant
            a.len() == b.len(),
            i <= a.len(),
            forall|j: int| 0 <= j < i ==> a@[j] == b@[j],
        decreases a.len() - i,
    {
        if a[i] != b[i] {
            return false;
        }
        i = i + 1;
    }
    assert(a@ == b@);
    true
}

/// Tells whether `k` is one of `names`.
fn one_of(k: &Vec<char>, names: &Vec<&'static str>) -> (r: bool)
    ensures
        r == views_of(names@).contains(k@),
{
    let mut i: usize = 0;
    while i < names.len()
        invariant
            i <= names.len(),
            forall|j: int| 0 <= j < i ==> views_of(names@)[j] != k@,
        decreases names.len() - i,
    {
        let n = to_chars(names[i]);
        if same_chars(&n, k) {
            assert(views_of(names@)[i as int] == k@);
            return true;
        }
        i = i + 1;
    }
    assert forall|j: int| 0 <= j < views_of(names@).len() implies views_of(names@)[j] != k@ by {}
    false
}

/// What becomes of key `k`.
pub fn kind_of_key(k: &Vec<char>) -> (r: KeyKind)
    ensures
        r == key_kind(k@),
{
    let plain: Vec<&'static str> = vec![
        "name",
        "copyFrom",
        "altNames",
        "class",
        "overrideAndReplace",
        "onNewMapSpawn",
        "canOnlyBeAttackedByUnitsWithTags",
        "tags",
        "similarResourcesHaveTag",
        "displayText",
        "displayDescription",
        "displayLocaleKey",
        "transportUnitsRequireTag",
        "canReclaimResourcesOnlyWithTags",
        "unitsSpawnedOnDeath",
        "soundOnDeath",
        "isLockedMessage",
        "isLockedAltMessage",
        "isLockedAlt2Message",
        "teamColoringMode",
        "drawLayer",
        "attackMovement",
        "interceptProjectiles_withTags",
        "shoot_sound",
        "friendlyFire",
        "movementType",
        "upgradedFrom",
        "onlyUseAsHarvester_ifBaseHasUnitTagged",
        "priority",
        "stripIndex",
        "onActions",
        "text",
        "textPostFix",
        "description",
        "displayType",
        "showMessageToAllEnemyPlayers",
        "showQuickWarLogToPlayer",
        "showQuickWarLogToAllPlayers",
        "anyRuleInGroup",
        "cannotPlaceMessage",
        "displayName",
        "displayNameShort",
        "autoTriggerOnEvent",
        "fireTurretXAtGround_onlyOverPassableTileOf",
        "deleteNumUnitsFromTransport_onlyWithTags",
        "addWaypoint_target_randomUnit_team",
        "attachments_onlyOnSlots",
        "showMessageToPlayer",
        "showMessageToAllPlayers",
        ""
    ];
    assert(plain@ == plain_key_strs());
    let images: Vec<&'static str> = vec!["image", "image_wreak", "image_turret", "image_shadow", "image_back"];
    assert(images@ == image_key_strs());
    if one_of(k, &plain) {
        KeyKind::Plain
    } else if one_of(k, &images) {
        KeyKind::Image
    } else {
        KeyKind::Hidden
    }
}

/// What `str::to_uppercase` gives for a string: a function of the string alone.
pub uninterp spec fn uppercase(s: Seq<char>) -> Seq<char>;

/// `str::to_uppercase`: the string in upper case, which the contract only
/// names (`uppercase`): a function of the string alone, not spelled out here.
#[verifier::external_body]
fn to_upper(s: &str) -> (r: String)
    ensures
        r@ == uppercase(s@),
{
    s.to_uppercase()
}

/// An image path as the game reads it: `\n` written out, `ROOT:/` and `ROOT:` taken away.
pub open spec fn clean_path(t: Seq<char>) -> Seq<char> {
    replace(replace(replace(t, "\n"@, "\\n"@), "ROOT:/"@, Seq::empty()), "ROOT:"@, Seq::empty())
}

/// An image value that stays as it is: a shared or shadow image, `NONE` or `AUTO`
/// in any case (`up` is the value in upper case).
pub open spec fn image_kept(t: Seq<char>, up: Seq<char>) -> bool {
    starts_with(t, "SHARED:"@) || starts_with(t, "SHADOW:"@) || up == "NONE"@ || up == "AUTO"@
}

/// What to do with an image value.
#[derive(Debug, PartialEq, Eq)]
pub enum ImageAction {
    /// Keep this value.
    Keep(String),
    /// Copy the image at `rel`, under the mod's root folder or under the file's
    /// folder, and use the copy's name.
    Copy { from_root: bool, rel: String },
}

/// `r` is what is done with the trimmed image value `t`, `up` being `t` in upper case.
pub open spec fn image_action_is(r: ImageAction, t: Seq<char>, up: Seq<char>) -> bool {
    if starts_with(t, "ROOT:"@) {
        r matches ImageAction::Copy { from_root, rel } && from_root && rel@ == clean_path(t)
    } else if image_kept(t, up) {
        r matches ImageAction::Keep(s) && s@ == t
    } else {
        r matches ImageAction::Copy { from_root, rel } && !from_root && rel@ == clean_path(t)
    }
}

/// The path of an image, `t` written as the game reads it.
pub fn clean_image_path(t: &Vec<char>) -> (r: Vec<char>)
    ensures
        r@ == clean_path(t@),
{
    proof {
        reveal_strlit("\n");
        reveal_strlit("ROOT:/");
        reveal_strlit("ROOT:");
    }
    let nl = to_chars("\n");
    let esc = to_chars("\\n");
    let root_slash = to_chars("ROOT:/");
    let root = to_chars("ROOT:");
    let none: Vec<char> = Vec::new();
    assert(none@ == Seq::<char>::empty());
    let a = replace_all(t, &nl, &esc);
    let b = replace_all(&a, &root_slash, &none);
    replace_all(&b, &root, &none)
}

/// What to do with the trimmed image value `t`, given `up`, `t` in upper case.
pub fn image_action(t: &Vec<char>, up: &String) -> (r: ImageAction)
    ensures
        image_action_is(r, t@, up@),
{
    let upc = to_chars(up.as_str());
    if has_prefix(t, &to_chars("ROOT:")) {
        ImageAction::Copy { from_root: true, rel: from_chars(clean_image_path(t).as_slice()) }
    } else if has_prefix(t, &to_chars("SHARED:")) || has_prefix(t, &to_chars("SHADOW:"))
        || same_chars(&upc, &to_chars("NONE")) || same_chars(&upc, &to_chars("AUTO")) {
        ImageAction::Keep(from_chars(t.as_slice()))
    } else {
        ImageAction::Copy { from_root: false, rel: from_chars(clean_image_path(t).as_slice()) }
    }
}

/// What to do with image value `v`: it is trimmed first.
pub fn plan_image(v: &String) -> (r: ImageAction)
    ensures
        image_action_is(r, trim(v@), uppercase(trim(v@))),
{
    let t = trim_chars(&to_chars(v.as_str()));
    let ts = from_chars(t.as_slice());
    let up = to_upper(ts.as_str());
    image_action(&t, &up)
}

/// The pattern of a reference: `${`, then anything but a line break, then `}`.
pub open spec fn reference_pattern() -> Seq<char> {
    "\\$\\{.{0,}\\}"@
}

/// `v[i..j]` is a reference: `${`, characters other than a line break, `}`.
pub open spec fn ref_span(v: Seq<char>, i: int, j: int) -> bool {
    &&& 0 <= i
    &&& i + 3 <= j <= v.len()
    &&& v[i] == '$'
    &&& v[i + 1] == '{'
    &&& v[j - 1] == '}'
    &&& no_line_break(v, i + 2, j - 1)
}

/// No line break in `v[a..b]`.
#[verifier::opaque]
pub open spec fn no_line_break(v: Seq<char>, a: int, b: int) -> bool {
    forall|x: int| a <= x < b ==> v[x] != '\n'
}

/// A reference starts at `i`.
pub open spec fn starts_ref(v: Seq<char>, i: int) -> bool {
    exists|j: int| ref_span(v, i, j)
}

pub open spec fn has_ref(v: Seq<char>) -> bool {
    exists|i: int| starts_ref(v, i)
}

/// Where the leftmost reference starts.
pub open spec fn ref_start(v: Seq<char>) -> int {
    choose|i: int| #[trigger] starts_ref(v, i) && forall|i2: int| #[trigger] starts_ref(v, i2) ==> i <= i2
}

/// Where the leftmost reference ends, taking in as much as it can.
pub open spec fn ref_end(v: Seq<char>) -> int {
    choose|j: int| #[trigger] ref_span(v, ref_start(v), j) && forall|j2: int| #[trigger]
        ref_span(v, ref_start(v), j2) ==> j2 <= j
}

/// The first reference in `v`, as the pattern finds it: leftmost, then longest.
pub open spec fn first_reference(v: Seq<char>) -> Option<Seq<char>> {
    if has_ref(v) {
        Some(v.subrange(ref_start(v), ref_end(v)))
    } else {
        None
    }
}

#[verifier::external_type_specification]
#[verifier::external_body]
pub struct ExPcre2Error(pcre2::Error);

/// Whether `pcre2`, searching `s` for the reference pattern, gives up with an
/// error (a match or depth limit): a function of `s` alone, since the pattern
/// and the engine's configuration are fixed.
pub uninterp spec fn reference_search_fails(s: Seq<char>) -> bool;

/// `pcre2::bytes::Regex::new(pattern)`, then `captures` on the bytes of `subject`:
/// the whole match, if there is one. For the reference pattern that is the
/// leftmost match, extended as far as it goes, `.` taking any byte but a line
/// feed. It fails exactly where the search gives up, which is named
/// (`reference_search_fails`), not spelled out.
#[verifier::external_body]
fn first_match(pattern: &str, subject: &str) -> (r: Result<Option<String>, pcre2::Error>)
    requires
        pattern@ == reference_pattern(),
    ensures
        r is Err <==> reference_search_fails(subject@),
        r matches Ok(found) ==> match found {
            Some(m) => first_reference(subject@) == Some(m@),
            None => first_reference(subject@) is None,
        },
{
    let re = pcre2::bytes::Regex::new(pattern)?;
    match re.captures(subject.as_bytes())? {
        Some(caps) => Ok(Some(String::from_utf8_lossy(&caps[0]).into_owned())),
        None => Ok(None),
    }
}

/// The first reference in `v`; `Err` where the pattern engine gives up on `v`.
pub fn find_reference(v: &String) -> (r: Result<Option<String>, pcre2::Error>)
    ensures
        r is Err <==> reference_search_fails(v@),
        r matches Ok(found) ==> match found {
            Some(m) => first_reference(v@) == Some(m@),
            None => first_reference(v@) is None,
        },
{
    first_match("\\$\\{.{0,}\\}", v.as_str())
}

proof fn lemma_least_start(v: Seq<char>, i: int)
    requires
        starts_ref(v, i),
    ensures
        exists|k: int| #[trigger] starts_ref(v, k) && forall|i2: int| #[trigger] starts_ref(v, i2) ==> k <= i2,
    decreases i,
{
    if exists|i2: int| #[trigger] starts_ref(v, i2) && i2 < i {
        let i2 = choose|i2: int| #[trigger] starts_ref(v, i2) && i2 < i;
        let j2 = choose|j: int| ref_span(v, i2, j);
        assert(i2 >= 0);
        lemma_least_start(v, i2);
    } else {
        assert(starts_ref(v, i) && forall|i2: int| #[trigger] starts_ref(v, i2) ==> i <= i2);
    }
}

proof fn lemma_greatest_end(v: Seq<char>, i: int, j: int)
    requires
        ref_span(v, i, j),
    ensures
        exists|k: int| #[trigger] ref_span(v, i, k) && forall|j2: int| #[trigger] ref_span(v, i, j2) ==> j2 <= k,
    decreases v.len() - j,
{
    if exists|j2: int| #[trigger] ref_span(v, i, j2) && j2 > j {
        let j2 = choose|j2: int| #[trigger] ref_span(v, i, j2) && j2 > j;
        lemma_greatest_end(v, i, j2);
    } else {
        assert(ref_span(v, i, j) && forall|j2: int| #[trigger] ref_span(v, i, j2) ==> j2 <= j);
    }
}

/// The first reference of `v` spans `ref_start(v)` to `ref_end(v)`, and is a
/// reference: `${`, then no line break, then `}`.
pub proof fn lemma_first_reference(v: Seq<char>)
    requires
        has_ref(v),
    ensures
        ref_span(v, ref_start(v), ref_end(v)),
        forall|i2: int| #[trigger] starts_ref(v, i2) ==> ref_start(v) <= i2,
        forall|j2: int| #[trigger] ref_span(v, ref_start(v), j2) ==> j2 <= ref_end(v),
{
    let i = choose|i: int| starts_ref(v, i);
    lemma_least_start(v, i);
    let s = ref_start(v);
    assert(starts_ref(v, s));
    let j = choose|j: int| ref_span(v, s, j);
    lemma_greatest_end(v, s, j);
}

/// A reference: `${`, at least one more character, ending in `}`.
pub open spec fn ref_shaped(m: Seq<char>) -> bool {
    m.len() >= 3 && m[0] == '$' && m[1] == '{' && m[m.len() - 1] == '}'
}

pub proof fn lemma_first_reference_shape(v: Seq<char>)
    requires
        has_ref(v),
    ensures
        ref_shaped(first_reference(v)->0),
{
    lemma_first_reference(v);
    lemma_span_shape(v, ref_start(v), ref_end(v));
}

proof fn lemma_span_shape(v: Seq<char>, i: int, j: int)
    requires
        ref_span(v, i, j),
    ensures
        ref_shaped(v.subrange(i, j)),
{
    let m = v.subrange(i, j);
    assert(m[0] == v[i]);
    assert(m[1] == v[i + 1]);
    assert(m[m.len() - 1] == v[j - 1]);
}

/// `${section.key}` split: the section, and the text after the first `.` up to
/// the next `.` or the end (the key with the closing `}` still on it).
pub open spec fn sref_section(m: Seq<char>) -> Seq<char> {
    m.subrange(2, first_index(m, '.'))
}

pub open spec fn sref_tail(m: Seq<char>) -> Seq<char> {
    let rest = m.skip(first_index(m, '.') + 1);
    if rest.contains('.') {
        rest.take(first_index(rest, '.'))
    } else {
        rest
    }
}

/// The value of `v` once its reference `m` is replaced by what it names in `src`
/// (`sec` being the section of `v`); an expression leaves `v` as it is. `None`
/// where the reference cannot be followed: its section or key is missing, or the
/// key cannot be cut out by byte offsets.
pub open spec fn resolve(src: IniView, sec: Seq<char>, v: Seq<char>, m: Seq<char>) -> Option<Seq<char>> {
    match ref_type(m) {
        RefType::BDS => Some(v),
        RefType::SREF => {
            let rs = sref_section(m);
            let p1 = sref_tail(m);
            if p1.len() > 0 && is_ascii_char(p1.last()) && src.contains_key(rs) && src[rs].contains_key(
                p1.drop_last(),
            ) {
                Some(replace(v, m, src[rs][p1.drop_last()]))
            } else {
                None
            }
        },
        RefType::REF => {
            let rk = m.subrange(2, m.len() - 1);
            if src.contains_key(sec) && src[sec].contains_key(rk) {
                Some(replace(v, m, src[sec][rk]))
            } else {
                None
            }
        },
    }
}

/// The value of entry `v` of section `sec` once the reference `m` found in it
/// is followed (see [`resolve`]).
pub fn resolve_reference(src: &Ini, sec: &String, v: &Vec<char>, m: &Vec<char>) -> (r: Option<
    Vec<char>,
>)
    requires
        ref_shaped(m@),
    ensures
        match r {
            Some(x) => resolve(src@, sec@, v@, m@) == Some(x@),
            None => resolve(src@, sec@, v@, m@) is None,
        },
{
    let ms = from_chars(m.as_slice());
    match getrf(ms.as_str()) {
        RefType::BDS => Some(v.clone()),
        RefType::SREF => {
            let d = match find_char(m, '.') {
                Some(d) => d,
                None => {
                    return None;
                },
            };
            let rs = slice_of(m, 2, d);
            let p1 = match find_char_from(m, '.', d + 1) {
                Some(e) => slice_of(m, d + 1, e),
                None => slice_of(m, d + 1, m.len()),
            };
            proof {
                let rest = m@.skip(d + 1);
                if rest.contains('.') {
                    assert(p1@ == rest.take(first_index(rest, '.')));
                } else {
                    assert(p1@ == rest);
                }
            }
            if p1.len() == 0 || !is_ascii_char_exec(p1[p1.len() - 1]) {
                return None;
            }
            let rk = slice_of(&p1, 0, p1.len() - 1);
            assert(rk@ == p1@.drop_last());
            match src.data.get(&from_chars(rs.as_slice())) {
                Some(section) => match section.get(&from_chars(rk.as_slice())) {
                    Some(rv) => Some(replace_all(v, m, &to_chars(rv.as_str()))),
                    None => None,
                },
                None => None,
            }
        },
        RefType::REF => {
            let rk = slice_of(m, 2, m.len() - 1);
            match src.data.get(sec) {
                Some(section) => match section.get(&from_chars(rk.as_slice())) {
                    Some(rv) => Some(replace_all(v, m, &to_chars(rv.as_str()))),
                    None => None,
                },
                None => None,
            }
        },
    }
}

/// A part of a reference's name that holds no `.` and no `+`, `-`, `*` or `/`.
pub open spec fn plain_ref_part(x: Seq<char>) -> bool {
    !x.contains('.') && !x.contains('+') && !x.contains('-') && !x.contains('*') && !x.contains('/')
}

/// The reference `${s.k}`.
pub open spec fn section_ref(s: Seq<char>, k: Seq<char>) -> Seq<char> {
    seq!['$', '{'] + s + seq!['.'] + k + seq!['}']
}

/// The reference `${k}`.
pub open spec fn key_ref(k: Seq<char>) -> Seq<char> {
    seq!['$', '{'] + k + seq!['}']
}

/// `${s.k}` is read as section `s`, key `k`.
proof fn lemma_section_ref(s: Seq<char>, k: Seq<char>)
    requires
        plain_ref_part(s),
        plain_ref_part(k),
    ensures
        ref_type(section_ref(s, k)) == RefType::SREF,
        sref_section(section_ref(s, k)) == s,
        sref_tail(section_ref(s, k)) == k + seq!['}'],
{
    let m = section_ref(s, k);
    let d = (s.len() + 2) as int;
    assert forall|i: int| 0 <= i < m.len() implies m[i] != '+' && m[i] != '-' && m[i] != '*' && m[i] != '/' && (i
        != d ==> m[i] != '.') by {
        if 2 <= i < d {
            assert(m[i] == s[i - 2]);
        } else if d < i < m.len() - 1 {
            assert(m[i] == k[i - d - 1]);
        }
    }
    assert(m[d] == '.');
    assert(is_first(m, '.', d));
    lemma_first_unique(m, '.', d);
    assert(m.subrange(2, d) == s);
    let rest = m.skip(d + 1);
    assert(rest == k + seq!['}']);
    assert(!rest.contains('.')) by {
        assert forall|i: int| 0 <= i < rest.len() implies rest[i] != '.' by {
            assert(rest[i] == m[d + 1 + i]);
        }
    }
}

/// `${k}` is read as key `k` of the entry's own section.
proof fn lemma_key_ref(k: Seq<char>)
    requires
        plain_ref_part(k),
    ensures
        ref_type(key_ref(k)) == RefType::REF,
        key_ref(k).subrange(2, key_ref(k).len() - 1) == k,
{
    let m = key_ref(k);
    assert forall|i: int| 0 <= i < m.len() implies m[i] != '+' && m[i] != '-' && m[i] != '*' && m[i] != '/' && m[i]
        != '.' by {
        if 2 <= i < m.len() - 1 {
            assert(m[i] == k[i - 2]);
        }
    }
    assert(m.subrange(2, m.len() - 1) == k);
}

/// Replacing the reference `m` (which starts with `$`) in `a + m + b`, where
/// neither `a` nor `b` holds a `$`, gives `a + value + b`.
proof fn lemma_replace_in_place(a: Seq<char>, m: Seq<char>, b: Seq<char>, value: Seq<char>)
    requires
        m.len() > 0,
        m[0] == '$',
        !a.contains('$'),
        !b.contains('$'),
    ensures
        replace(a + m + b, m, value) == a + value + b,
{
    assert(a + m + b == a + (m + b));
    lemma_replace_clear_prefix(a, m + b, m, value);
    lemma_replace_front(m, b, value);
    lemma_replace_absent(b, m, value);
    assert(a + (value + b) == a + value + b);
}

/// Law: following a reference replaces it where it stands and keeps the text
/// around it. In a value `a + m + b` with no `$` in `a` or `b`, where neither
/// `s` nor `k` holds `.`, `+`, `-`, `*` or `/`: the reference `m = ${s.k}`,
/// where section `s` holds key `k`, gives `a`, that key's value, then `b`; and
/// the reference `m = ${k}`, where the value's own section holds `k`, gives
/// `a`, that key's value, then `b`.
pub proof fn law_reference_replaced_in_place(
    src: IniView,
    sec: Seq<char>,
    a: Seq<char>,
    b: Seq<char>,
    s: Seq<char>,
    k: Seq<char>,
)
    requires
        !a.contains('$'),
        !b.contains('$'),
        plain_ref_part(s),
        plain_ref_part(k),
    ensures
        src.contains_key(s) && src[s].contains_key(k) ==> resolve(
            src,
            sec,
            a + section_ref(s, k) + b,
            section_ref(s, k),
        ) == Some(a + src[s][k] + b),
        src.contains_key(sec) && src[sec].contains_key(k) ==> resolve(src, sec, a + key_ref(k) + b, key_ref(k))
            == Some(a + src[sec][k] + b),
{
    lemma_section_ref(s, k);
    lemma_key_ref(k);
    let sr = section_ref(s, k);
    let kr = key_ref(k);
    assert((k + seq!['}']).drop_last() == k);
    assert(is_ascii_char('}'));
    if src.contains_key(s) && src[s].contains_key(k) {
        lemma_replace_in_place(a, sr, b, src[s][k]);
    }
    if src.contains_key(sec) && src[sec].contains_key(k) {
        lemma_replace_in_place(a, kr, b, src[sec][k]);
    }
}

/// Law: every key that the game reads as it is stays in the main file as it
/// was written, never moved behind a reference: `name`, `copyFrom`,
/// `altNames`, `class` and the others of this list.
pub proof fn law_game_keys_stay_plain(k: Seq<char>)
    requires
        seq![
            "name"@,
            "copyFrom"@,
            "altNames"@,
            "class"@,
            "overrideAndReplace"@,
            "onNewMapSpawn"@,
            "canOnlyBeAttackedByUnitsWithTags"@,
            "tags"@,
            "similarResourcesHaveTag"@,
            "displayText"@,
            "displayDescription"@,
            "displayLocaleKey"@,
            "transportUnitsRequireTag"@,
            "canReclaimResourcesOnlyWithTags"@,
            "unitsSpawnedOnDeath"@,
            "soundOnDeath"@,
            "isLockedMessage"@,
            "isLockedAltMessage"@,
            "isLockedAlt2Message"@,
            "teamColoringMode"@,
            "drawLayer"@,
            "attackMovement"@,
            "interceptProjectiles_withTags"@,
            "shoot_sound"@,
            "friendlyFire"@,
            "movementType"@,
            "upgradedFrom"@,
            "onlyUseAsHarvester_ifBaseHasUnitTagged"@,
            "priority"@,
            "stripIndex"@,
            "onActions"@,
            "text"@,
            "textPostFix"@,
            "description"@,
            "displayType"@,
            "showMessageToAllEnemyPlayers"@,
            "showQuickWarLogToPlayer"@,
            "showQuickWarLogToAllPlayers"@,
            "anyRuleInGroup"@,
            "cannotPlaceMessage"@,
            "displayName"@,
            "displayNameShort"@,
            "autoTriggerOnEvent"@,
            "fireTurretXAtGround_onlyOverPassableTileOf"@,
            "deleteNumUnitsFromTransport_onlyWithTags"@,
            "addWaypoint_target_randomUnit_team"@,
            "attachments_onlyOnSlots"@,
            "showMessageToPlayer"@,
            "showMessageToAllPlayers"@,
            ""@
        ].contains(k),
    ensures
        key_kind(k) == KeyKind::Plain,
{
    let keys: Seq<Seq<char>> = seq![
        "name"@,
        "copyFrom"@,
        "altNames"@,
        "class"@,
        "overrideAndReplace"@,
        "onNewMapSpawn"@,
        "canOnlyBeAttackedByUnitsWithTags"@,
        "tags"@,
        "similarResourcesHaveTag"@,
        "displayText"@,
        "displayDescription"@,
        "displayLocaleKey"@,
        "transportUnitsRequireTag"@,
        "canReclaimResourcesOnlyWithTags"@,
        "unitsSpawnedOnDeath"@,
        "soundOnDeath"@,
        "isLockedMessage"@,
        "isLockedAltMessage"@,
        "isLockedAlt2Message"@,
        "teamColoringMode"@,
        "drawLayer"@,
        "attackMovement"@,
        "interceptProjectiles_withTags"@,
        "shoot_sound"@,
        "friendlyFire"@,
        "movementType"@,
        "upgradedFrom"@,
        "onlyUseAsHarvester_ifBaseHasUnitTagged"@,
        "priority"@,
        "stripIndex"@,
        "onActions"@,
        "text"@,
        "textPostFix"@,
        "description"@,
        "displayType"@,
        "showMessageToAllEnemyPlayers"@,
        "showQuickWarLogToPlayer"@,
        "showQuickWarLogToAllPlayers"@,
        "anyRuleInGroup"@,
        "cannotPlaceMessage"@,
        "displayName"@,
        "displayNameShort"@,
        "autoTriggerOnEvent"@,
        "fireTurretXAtGround_onlyOverPassableTileOf"@,
        "deleteNumUnitsFromTransport_onlyWithTags"@,
        "addWaypoint_target_randomUnit_team"@,
        "attachments_onlyOnSlots"@,
        "showMessageToPlayer"@,
        "showMessageToAllPlayers"@,
        ""@
    ];
    assert(views_of(plain_key_strs()) =~= keys);
}

/// `t` holds no `:` and no line feed.
pub open spec fn no_colon_line(t: Seq<char>) -> bool {
    !t.contains(':') && !t.contains('\n')
}

/// A path with no `:` and no line feed is the path the game reads.
proof fn lemma_clean_plain(q: Seq<char>)
    requires
        no_colon_line(q),
    ensures
        clean_path(q) == q,
{
    reveal_strlit("\n");
    reveal_strlit("ROOT:/");
    reveal_strlit("ROOT:");
    lemma_replace_lacking(q, "\n"@, "\\n"@, 0);
    lemma_replace_lacking(q, "ROOT:/"@, Seq::empty(), 4);
    lemma_replace_lacking(q, "ROOT:"@, Seq::empty(), 4);
}

/// Law: an image is copied from the path written in its value, each character
/// as written, letter case included. For a trimmed value `t` with no `:` and no
/// line feed that is not kept as it is, the copy is made from the unit's
/// folder at `t`; for `ROOT:/` or `ROOT:` followed by such a path `q` (after
/// `ROOT:`, one that does not start with `/`), from the mod's root at `q`.
pub proof fn law_image_path_as_written(r: ImageAction, t: Seq<char>, up: Seq<char>, q: Seq<char>)
    requires
        image_action_is(r, t, up),
    ensures
        no_colon_line(t) && !image_kept(t, up) ==> (r matches ImageAction::Copy { from_root, rel } && !from_root
            && rel@ == t),
        t == "ROOT:/"@ + q && no_colon_line(q) ==> (r matches ImageAction::Copy { from_root, rel } && from_root
            && rel@ == q),
        t == "ROOT:"@ + q && no_colon_line(q) && !(q.len() > 0 && q[0] == '/') ==> (r matches ImageAction::Copy {
            from_root,
            rel,
        } && from_root && rel@ == q),
{
    reveal_strlit("\n");
    reveal_strlit("ROOT:/");
    reveal_strlit("ROOT:");
    if no_colon_line(t) && !image_kept(t, up) {
        if starts_with(t, "ROOT:"@) {
            assert(t[4] == "ROOT:"@[4]);
        }
        lemma_clean_plain(t);
    }
    if t == "ROOT:/"@ + q && no_colon_line(q) {
        let p = "ROOT:/"@;
        assert(t.take(5) == "ROOT:"@);
        assert(!t.contains('\n')) by {
            assert forall|i: int| 0 <= i < t.len() implies t[i] != '\n' by {
                if i >= 6 {
                    assert(t[i] == q[i - 6]);
                }
            }
        }
        lemma_replace_lacking(t, "\n"@, "\\n"@, 0);
        lemma_replace_front(p, q, Seq::empty());
        assert(Seq::<char>::empty() + q == q);
        lemma_replace_lacking(q, p, Seq::empty(), 4);
        lemma_replace_lacking(q, "ROOT:"@, Seq::empty(), 4);
    }
    if t == "ROOT:"@ + q && no_colon_line(q) && !(q.len() > 0 && q[0] == '/') {
        let p = "ROOT:"@;
        let ps = "ROOT:/"@;
        assert(t.take(5) == p);
        assert(!t.contains('\n')) by {
            assert forall|i: int| 0 <= i < t.len() implies t[i] != '\n' by {
                if i >= 5 {
                    assert(t[i] == q[i - 5]);
                }
            }
        }
        lemma_replace_lacking(t, "\n"@, "\\n"@, 0);
        // No `ROOT:/` in `ROOT:` + q: after the first letter, `OOT:` + q holds no `R` up front.
        let o = t.drop_first().take(4);
        assert(t.drop_first() == o + q);
        assert(!o.contains(ps[0])) by {
            assert forall|i: int| 0 <= i < o.len() implies o[i] != 'R' by {
                assert(o[i] == t[i + 1]);
            }
        }
        lemma_replace_clear_prefix(o, q, ps, Seq::empty());
        lemma_replace_lacking(q, ps, Seq::empty(), 4);
        if t.len() >= ps.len() {
            assert(t[5] != ps[5]);
            assert(t.take(ps.len() as int) != ps);
        }
        assert(seq![t[0]] + (o + q) == t);
        lemma_replace_front(p, q, Seq::empty());
        assert(Seq::<char>::empty() + q == q);
        lemma_replace_lacking(q, p, Seq::empty(), 4);
    }
}

} // verus!
