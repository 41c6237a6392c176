use rwc::code::{find_reference, getrf, kind_of_key, plan_image, resolve_reference, ImageAction, KeyKind, RefType};
use rwc::ini::Ini;
use rwc::names::{bin_name, get_bin};
use rwc::text::{find_char, has_prefix, has_suffix, replace_all, to_chars, trim_chars};

fn s(x: &str) -> String {
    x.to_string()
}

fn c(x: &str) -> Vec<char> {
    x.chars().collect()
}

#[test]
fn trim_cuts_unicode_white_space() {
    assert_eq!(trim_chars(&c("  a b \t")), c("a b"));
    assert_eq!(trim_chars(&c("\u{3000}x\u{a0}\u{2029}")), c("x"));
    assert_eq!(trim_chars(&c(" \n ")), c(""));
    assert_eq!(trim_chars(&c("x\u{200b}")), c("x\u{200b}"));
}

#[test]
fn replace_all_matches_str_replace() {
    for (text, from, to) in [
        ("ROOT:/a/ROOT:b", "ROOT:", ""),
        ("aaaa", "aa", "b"),
        ("abc", "x", "y"),
        ("a\nb\n", "\n", "\\n"),
        ("${a}${a}", "${a}", "7"),
        ("", "a", "b"),
    ] {
        assert_eq!(replace_all(&c(text), &c(from), &c(to)), c(&text.replace(from, to)));
    }
}

#[test]
fn prefixes_suffixes_and_search() {
    assert!(has_prefix(&c("ROOT:/x"), &c("ROOT:")));
    assert!(!has_prefix(&c("ROO"), &c("ROOT:")));
    assert!(has_suffix(&c("abc\"\"\""), &c("\"\"\"")));
    assert!(!has_suffix(&c("\"\""), &c("\"\"\"")));
    assert_eq!(find_char(&c("a:b:c"), ':'), Some(1));
    assert_eq!(find_char(&c("abc"), ':'), None);
}

#[test]
fn chars_of_a_string() {
    let text = "黑风雷 ${x.y}";
    assert_eq!(to_chars(text), c(text));
    let mut ini = Ini::new();
    ini.set_kv(s(text), s("k"), s(text));
    assert_eq!(ini.get(&s(text), &s("k")), Some(s(text)));
}

#[test]
fn names_in_base_three() {
    assert_eq!(bin_name(1), c("I"));
    assert_eq!(bin_name(2), c("l"));
    assert_eq!(bin_name(3), c("I1"));
    assert_eq!(bin_name(5), c("Il"));
    assert_eq!(bin_name(9), c("I11"));
    assert_eq!(bin_name(26), c("lll"));
    assert_eq!(bin_name(u32::MAX), c("I1l11l1lll1IllIIIIlI1"));
}

#[test]
fn different_numbers_different_names() {
    let mut seen = std::collections::HashSet::new();
    for n in 1..5000u32 {
        assert!(seen.insert(bin_name(n)));
    }
}

#[test]
fn random_names_use_three_characters() {
    let mut rng = rand::thread_rng();
    for _ in 0..200 {
        let name = get_bin(&mut rng);
        assert!(!name.is_empty());
        assert!(name.chars().all(|ch| ch == 'I' || ch == 'l' || ch == '1'));
        assert!(!name.starts_with('1'));
        assert!(name.len() <= 21);
    }
}

#[test]
fn reference_kinds() {
    assert_eq!(getrf("${core.hp}"), RefType::SREF);
    assert_eq!(getrf("${hp}"), RefType::REF);
    assert_eq!(getrf("${hp+1}"), RefType::BDS);
    assert_eq!(getrf("${a-b.c}"), RefType::BDS);
    assert_eq!(getrf("${a*2}"), RefType::BDS);
    assert_eq!(getrf("${a/2}"), RefType::BDS);
}

#[test]
fn key_kinds() {
    assert_eq!(kind_of_key(&c("name")), KeyKind::Plain);
    assert_eq!(kind_of_key(&c("")), KeyKind::Plain);
    assert_eq!(kind_of_key(&c("showMessageToAllPlayers")), KeyKind::Plain);
    assert_eq!(kind_of_key(&c("image")), KeyKind::Image);
    assert_eq!(kind_of_key(&c("image_back")), KeyKind::Image);
    assert_eq!(kind_of_key(&c("maxHp")), KeyKind::Hidden);
    assert_eq!(kind_of_key(&c("Name")), KeyKind::Hidden);
}

#[test]
fn image_values() {
    assert_eq!(plan_image(&s(" ROOT:/units/a.png ")), ImageAction::Copy { from_root: true, rel: s("units/a.png") });
    assert_eq!(plan_image(&s("ROOT:ROOT:/z.png")), ImageAction::Copy { from_root: true, rel: s("z.png") });
    assert_eq!(plan_image(&s("units/b.png")), ImageAction::Copy { from_root: false, rel: s("units/b.png") });
    assert_eq!(plan_image(&s("a\nb.png")), ImageAction::Copy { from_root: false, rel: s("a\\nb.png") });
    assert_eq!(plan_image(&s(" none ")), ImageAction::Keep(s("none")));
    assert_eq!(plan_image(&s("Auto")), ImageAction::Keep(s("Auto")));
    assert_eq!(plan_image(&s("SHARED:tank.png")), ImageAction::Keep(s("SHARED:tank.png")));
    assert_eq!(plan_image(&s("SHADOW:AUTO")), ImageAction::Keep(s("SHADOW:AUTO")));
    assert_eq!(plan_image(&s("shared:x.png")), ImageAction::Copy { from_root: false, rel: s("shared:x.png") });
}

#[test]
fn first_reference_is_leftmost_and_longest() {
    assert_eq!(find_reference(&s("a${x.y}b")).unwrap(), Some(s("${x.y}")));
    assert_eq!(find_reference(&s("${a}+${b}")).unwrap(), Some(s("${a}+${b}")));
    assert_eq!(find_reference(&s("x}${y}")).unwrap(), Some(s("${y}")));
    assert_eq!(find_reference(&s("${a\n}")).unwrap(), None);
    assert_eq!(find_reference(&s("${a}\n${b}")).unwrap(), Some(s("${a}")));
    assert_eq!(find_reference(&s("${}")).unwrap(), Some(s("${}")));
    assert_eq!(find_reference(&s("plain")).unwrap(), None);
    assert_eq!(find_reference(&s("黑${风}雷")).unwrap(), Some(s("${风}")));
}

#[test]
fn references_are_followed() {
    let mut ini = Ini::new();
    ini.set_kv(s("core"), s("hp"), s("100"));
    ini.set_kv(s("attack"), s("dmg"), s("${core.hp}"));
    ini.set_kv(s("attack"), s("range"), s("${dmg}x"));
    assert_eq!(resolve_reference(&ini, &s("attack"), &c("${core.hp}"), &c("${core.hp}")), Some(c("100")));
    assert_eq!(resolve_reference(&ini, &s("attack"), &c("2*${dmg}"), &c("${dmg}")), Some(c("2*${core.hp}")));
    assert_eq!(resolve_reference(&ini, &s("attack"), &c("${hp-1}"), &c("${hp-1}")), Some(c("${hp-1}")));
    assert_eq!(resolve_reference(&ini, &s("attack"), &c("${core.mp}"), &c("${core.mp}")), None);
    assert_eq!(resolve_reference(&ini, &s("attack"), &c("${nope}"), &c("${nope}")), None);
    assert_eq!(resolve_reference(&ini, &s("attack"), &c("${core..}"), &c("${core..}")), None);
    assert_eq!(resolve_reference(&ini, &s("core"), &c("${core.hp.x}"), &c("${core.hp.x}")), None);
}

#[test]
fn white_space_is_what_char_is_whitespace_says() {
    for code in 0..=0x10FFFFu32 {
        if let Some(ch) = char::from_u32(code) {
            assert_eq!(rwc::text::is_space_char(ch), ch.is_whitespace(), "{:x}", code);
        }
    }
}

#[test]
fn upper_case_keeps_none_and_auto_in_any_case() {
    assert_eq!(plan_image(&s("nOnE")), ImageAction::Keep(s("nOnE")));
    assert_eq!(plan_image(&s("aUtO")), ImageAction::Keep(s("aUtO")));
    assert_eq!(plan_image(&s("nones")), ImageAction::Copy { from_root: false, rel: s("nones") });
}

#[test]
fn ascii_characters_are_single_bytes() {
    assert!(rwc::text::is_ascii_char_exec('['));
    assert!(rwc::text::is_ascii_char_exec('\u{7f}'));
    assert!(!rwc::text::is_ascii_char_exec('\u{80}'));
    assert!(!rwc::text::is_ascii_char_exec('黑'));
}
