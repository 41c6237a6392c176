use rwc::ini::{Ini, LoadError};

fn lines(ls: &[&str]) -> Vec<String> {
    ls.iter().map(|l| l.to_string()).collect()
}

fn s(x: &str) -> String {
    x.to_string()
}

fn value(ini: &Ini, sec: &str, key: &str) -> Option<String> {
    ini.get(&s(sec), &s(key))
}

fn load(ls: &[&str]) -> Result<Ini, LoadError> {
    Ini::load_from_lines(s("units/tank.ini"), s("units"), &lines(ls))
}

#[test]
fn reads_sections_and_keys() {
    let ini = load(&["[core]", "name:tank", "price: 100", "", "# a comment", "[attack]", "damage:12"]).unwrap();
    assert_eq!(value(&ini, "core", "name"), Some(s("tank")));
    assert_eq!(value(&ini, "core", "price"), Some(s(" 100")));
    assert_eq!(value(&ini, "attack", "damage"), Some(s("12")));
    assert_eq!(ini.listing().len(), 2);
    assert_eq!(ini.path, s("units/tank.ini"));
    assert_eq!(ini.ppath, s("units"));
}

#[test]
fn key_keeps_leading_space_and_value_keeps_colons() {
    let ini = load(&["[core]", "  name:a:b"]).unwrap();
    assert_eq!(value(&ini, "core", "  name"), Some(s("a:b")));
}

#[test]
fn multiline_value_spans_lines() {
    let ini = load(&["[core]", "text:\"\"\"first", "second", "third\"\"\"", "name:x"]).unwrap();
    assert_eq!(value(&ini, "core", "text"), Some(s("\"\"\"first\nsecond\nthird\"\"\"")));
    assert_eq!(value(&ini, "core", "name"), Some(s("x")));
}

#[test]
fn closed_triple_quote_on_one_line() {
    let ini = load(&["[core]", "text:\"\"\"abc\"\"\"", "name:x"]).unwrap();
    assert_eq!(value(&ini, "core", "text"), Some(s("\"\"\"abc\"\"\"")));
    assert_eq!(value(&ini, "core", "name"), Some(s("x")));
}

#[test]
fn short_triple_quote_opens_a_multiline_value() {
    let ini = load(&["[core]", "text:\"\"\"\"", "end\"\"\""]).unwrap();
    assert_eq!(value(&ini, "core", "text"), Some(s("\"\"\"\"\nend\"\"\"")));
}

#[test]
fn key_before_any_section_is_malformed() {
    match load(&["", "a:b"]) {
        Err(LoadError::Malformed { line_no, line }) => {
            assert_eq!(line_no, 1);
            assert_eq!(line, s("a:b"));
        },
        _ => panic!("expected a malformed file"),
    }
}

#[test]
fn unknown_line_is_malformed_one_based() {
    match load(&["[core]", "junk"]) {
        Err(LoadError::Malformed { line_no, line }) => {
            assert_eq!(line_no, 2);
            assert_eq!(line, s("junk"));
        },
        _ => panic!("expected a malformed file"),
    }
}

#[test]
fn key_without_value_is_malformed() {
    assert_eq!(load(&["[core]", "name:"]).err(), Some(LoadError::Malformed { line_no: 2, line: s("name:") }));
}

#[test]
fn comment_section_keeps_free_text_out() {
    let ini = load(&["[comment_notes]", "free text here", "[core]", "name:x"]).unwrap();
    assert_eq!(value(&ini, "core", "name"), Some(s("x")));
    assert!(ini.has_section(&s("comment_notes")));
}

#[test]
fn section_header_with_wide_space_cannot_be_cut() {
    match load(&["\u{a0}[core]"]) {
        Err(LoadError::Unsliceable { line_no, line }) => {
            assert_eq!(line_no, 0);
            assert_eq!(line, s("\u{a0}[core]"));
        },
        _ => panic!("expected an unsliceable header"),
    }
}

#[test]
fn repeated_section_replaces_the_first() {
    let ini = load(&["[a]", "x:1", "[a]", "y:2"]).unwrap();
    assert_eq!(value(&ini, "a", "x"), None);
    assert_eq!(value(&ini, "a", "y"), Some(s("2")));
}

#[test]
fn empty_section_is_kept_and_unnamed_one_dropped() {
    let ini = load(&["[]", "[a]"]).unwrap();
    assert!(ini.has_section(&s("a")));
    assert!(!ini.has_section(&s("")));
}

#[test]
fn section_name_may_hold_a_colon() {
    let ini = load(&["[a:b]", "k:v"]).unwrap();
    assert_eq!(value(&ini, "a:b", "k"), Some(s("v")));
}

#[test]
fn unfinished_multiline_value_is_dropped() {
    let ini = load(&["[core]", "text:\"\"\"open", "never closed"]).unwrap();
    assert_eq!(value(&ini, "core", "text"), None);
    assert!(ini.has_section(&s("core")));
}

#[test]
fn set_kv_reads_back_and_keeps_the_rest() {
    let mut ini = Ini::new();
    ini.set_kv(s("core"), s("name"), s("tank"));
    ini.set_kv(s("core"), s("price"), s("5"));
    ini.set_kv(s("core"), s("name"), s("ship"));
    ini.set_kv(s("attack"), s("x"), s("1"));
    assert_eq!(value(&ini, "core", "name"), Some(s("ship")));
    assert_eq!(value(&ini, "core", "price"), Some(s("5")));
    assert_eq!(value(&ini, "attack", "x"), Some(s("1")));
}

#[test]
fn text_of_one_section() {
    let mut ini = Ini::new();
    ini.set_kv(s("core"), s("name"), s("tank"));
    assert_eq!(ini.to_text(), s("[core]\nname:tank\n"));
}

#[test]
fn text_reads_back() {
    let mut ini = Ini::new();
    ini.set_kv(s("core"), s("name"), s("tank"));
    ini.set_kv(s("core"), s("price"), s("100"));
    ini.set_kv(s("attack"), s("damage"), s("7"));
    let text = ini.to_text();
    let ls: Vec<String> = text.lines().map(|l| l.to_string()).collect();
    let back = Ini::load_from_lines(s(""), s(""), &ls).unwrap();
    assert_eq!(value(&back, "core", "name"), Some(s("tank")));
    assert_eq!(value(&back, "core", "price"), Some(s("100")));
    assert_eq!(value(&back, "attack", "damage"), Some(s("7")));
    assert_eq!(back.listing().len(), 2);
}

#[test]
fn get_and_has_section() {
    let ini = load(&["[core]", "name:tank", "[empty]"]).unwrap();
    assert_eq!(ini.get(&s("core"), &s("name")), Some(s("tank")));
    assert_eq!(ini.get(&s("core"), &s("price")), None);
    assert_eq!(ini.get(&s("attack"), &s("name")), None);
    assert!(ini.has_section(&s("empty")));
    assert!(!ini.has_section(&s("attack")));
}

#[test]
fn listing_gives_each_entry_once() {
    let mut ini = Ini::new();
    ini.set_kv(s("core"), s("a"), s("1"));
    ini.set_kv(s("core"), s("b"), s("2"));
    ini.set_kv(s("core"), s("a"), s("3"));
    let listing = ini.listing();
    assert_eq!(listing.len(), 1);
    let mut es = listing[0].1.clone();
    es.sort();
    assert_eq!(es, vec![(s("a"), s("3")), (s("b"), s("2"))]);
    ini.remove_key(&s("core"), &s("a"));
    assert_eq!(ini.listing()[0].1, vec![(s("b"), s("2"))]);
}
