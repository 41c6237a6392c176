use rwc::coder::{Action, Coder};
use rwc::inherit::{CopyPlan, CopyRequest, CopySource, Inherit, Inheritance};
use rwc::ini::Ini;

fn s(x: &str) -> String {
    x.to_string()
}

fn value(ini: &Ini, sec: &str, key: &str) -> Option<String> {
    ini.get(&s(sec), &s(key))
}

fn ini_of(entries: &[(&str, &str, &str)]) -> Ini {
    let mut ini = Ini::new();
    for (sec, k, v) in entries {
        ini.set_kv(s(sec), s(k), s(v));
    }
    ini
}

/// Runs a coder to the end, copying every image under the name `copied`
/// (or failing each copy), and collecting what it asked to show.
fn run(ini: &Ini, copy_ok: bool) -> (Ini, Ini, Ini, Vec<Action>) {
    let mut rng = rand::thread_rng();
    let mut coder = Coder::new(ini);
    let mut asked = Vec::new();
    loop {
        let a = coder.next_action(ini, &mut rng);
        let copying = matches!(a, Action::CopyImage { .. });
        match a {
            Action::Finished => break,
            Action::Next => {},
            other => asked.push(other),
        }
        if copying {
            if copy_ok {
                coder.image_copied(s("copied"));
            } else {
                coder.image_failed();
            }
        }
    }
    let (core, conf, data) = coder.finish(&s("DATA"), &s("CONF"));
    (core, conf, data, asked)
}

/// Follows a `${cs.ck}` reference of the config file into the data file.
fn follow(conf: &Ini, data: &Ini, sec: &str, key: &str) -> Option<String> {
    let r = value(conf, sec, key)?;
    assert!(r.starts_with("${") && r.ends_with('}'));
    let inner = &r[2..r.len() - 1];
    let (cs, ck) = inner.split_once('.')?;
    assert!(cs.chars().all(|c| c == 'I' || c == 'l' || c == '1'));
    assert!(ck.chars().all(|c| c == 'I' || c == 'l' || c == '1'));
    value(data, cs, ck)
}

#[test]
fn plain_keys_stay_and_others_move_behind_references() {
    let ini = ini_of(&[("core", "name", "tank"), ("core", "maxHp", "100"), ("attack", "dmg", "${core.maxHp}")]);
    let (core, conf, data, asked) = run(&ini, true);
    assert!(asked.is_empty());
    assert_eq!(value(&core, "core", "name"), Some(s("tank")));
    assert_eq!(value(&core, "core", "maxHp"), None);
    assert_eq!(follow(&conf, &data, "core", "maxHp"), Some(s("100")));
    assert_eq!(follow(&conf, &data, "attack", "dmg"), Some(s("100")));
    assert_eq!(value(&conf, "core", "name"), None);
}

#[test]
fn main_file_links_data_and_config() {
    let ini = ini_of(&[("core", "name", "tank")]);
    let (core, _, _, _) = run(&ini, true);
    assert_eq!(value(&core, "core", "copyFrom"), Some(s("DATA,CONF")));
}

#[test]
fn finished_files_have_no_path() {
    let mut ini = ini_of(&[("core", "name", "tank"), ("core", "maxHp", "100")]);
    ini.path = s("u/tank.ini");
    ini.ppath = s("u");
    let (core, conf, data, _) = run(&ini, true);
    for f in [&core, &conf, &data] {
        assert_eq!(f.path, s(""));
        assert_eq!(f.ppath, s(""));
    }
}

#[test]
fn local_reference_is_followed_in_its_section() {
    let ini = ini_of(&[("weapon", "base", "5"), ("weapon", "shown", "x${base}y")]);
    let (_, conf, data, _) = run(&ini, true);
    assert_eq!(follow(&conf, &data, "weapon", "shown"), Some(s("x5y")));
}

#[test]
fn expression_is_shown_and_kept() {
    let ini = ini_of(&[("core", "speed", "${a+1}")]);
    let (_, conf, data, asked) = run(&ini, true);
    assert_eq!(asked, vec![Action::ShowExpression(s("${a+1}"))]);
    assert_eq!(follow(&conf, &data, "core", "speed"), Some(s("${a+1}")));
}

#[test]
fn missing_reference_is_reported() {
    let ini = ini_of(&[("core", "speed", "${nowhere.x}")]);
    let mut rng = rand::thread_rng();
    let mut coder = Coder::new(&ini);
    let mut seen = Vec::new();
    for _ in 0..4 {
        seen.push(coder.next_action(&ini, &mut rng));
    }
    assert_eq!(seen[0], Action::Unresolved(s("${nowhere.x}")));
}

#[test]
fn images_are_copied_or_kept() {
    let ini = ini_of(&[("core", "image", "units/a.png"), ("turret", "image_turret", " NONE "), ("leg", "image_back", "ROOT:/b.png")]);
    let (core, conf, _, mut asked) = run(&ini, true);
    asked.sort_by_key(|a| format!("{:?}", a));
    assert_eq!(
        asked,
        vec![
            Action::CopyImage { from_root: false, rel: s("units/a.png") },
            Action::CopyImage { from_root: true, rel: s("b.png") },
        ]
    );
    assert_eq!(value(&core, "core", "image"), Some(s("copied")));
    assert_eq!(value(&core, "leg", "image_back"), Some(s("copied")));
    assert_eq!(value(&core, "turret", "image_turret"), Some(s("NONE")));
    assert_eq!(value(&conf, "core", "image"), None);
}

#[test]
fn failed_copy_skips_the_rest_of_the_section() {
    let ini = ini_of(&[("core", "image", "a.png")]);
    let (core, conf, _, asked) = run(&ini, false);
    assert_eq!(asked.len(), 1);
    assert_eq!(value(&core, "core", "image"), None);
    assert_eq!(value(&conf, "core", "image"), None);
}

#[test]
fn empty_source_gives_only_the_link() {
    let ini = Ini::new();
    let (core, conf, data, _) = run(&ini, true);
    assert_eq!(core.listing().len(), 1);
    assert_eq!(conf.listing().len(), 0);
    assert_eq!(data.listing().len(), 0);
}

#[test]
fn copy_plan_reads_copy_from() {
    assert_eq!(ini_of(&[("attack", "x", "1")]).copy_plan(), CopyPlan::NoCore);
    assert_eq!(ini_of(&[("core", "name", "a")]).copy_plan(), CopyPlan::Own);
    assert_eq!(
        ini_of(&[("core", "copyFrom", "ROOT:/base.ini, ../b.ini,ROOT:c.ini")]).copy_plan(),
        CopyPlan::From(vec![
            CopySource { from_root: true, rel: s("base.ini") },
            CopySource { from_root: false, rel: s("../b.ini") },
            CopySource { from_root: true, rel: s("c.ini") },
        ])
    );
    assert_eq!(
        ini_of(&[("core", "copyFrom", "")]).copy_plan(),
        CopyPlan::From(vec![CopySource { from_root: false, rel: s("") }])
    );
}

#[test]
fn merge_prefers_the_copied_file() {
    let mut own = ini_of(&[("core", "name", "tank"), ("core", "price", "5"), ("core", "dont_load", "true")]);
    let parent = ini_of(&[("core", "price", "9"), ("attack", "dmg", "3")]);
    assert!(own.skips_loading());
    assert!(!own.has_copy_from());
    own.merge_from(&parent);
    assert_eq!(value(&own, "core", "name"), Some(s("tank")));
    assert_eq!(value(&own, "core", "price"), Some(s("9")));
    assert_eq!(value(&own, "attack", "dmg"), Some(s("3")));
    own.merge_from(&parent);
    assert_eq!(own.listing().len(), 2);
    own.drop_dont_load();
    assert!(!own.skips_loading());
    assert_eq!(value(&own, "core", "dont_load"), None);
}

#[test]
fn remove_key_takes_one_key_out() {
    let mut ini = ini_of(&[("core", "copyFrom", "a.ini"), ("core", "name", "x")]);
    assert!(ini.has_copy_from());
    ini.remove_key(&s("core"), &s("coopyFrom"));
    assert!(ini.has_copy_from());
    ini.remove_key(&s("core"), &s("copyFrom"));
    assert!(!ini.has_copy_from());
    assert_eq!(value(&ini, "core", "name"), Some(s("x")));
}

fn file_at(path: &str, ppath: &str, entries: &[(&str, &str, &str)]) -> Ini {
    let mut ini = ini_of(entries);
    ini.path = s(path);
    ini.ppath = s(ppath);
    ini
}

fn finished(r: Inherit) -> Ini {
    match r {
        Inherit::Finished(ini) => ini,
        Inherit::Working(_) => panic!("still working"),
    }
}

fn working(r: Inherit) -> Inheritance {
    match r {
        Inherit::Finished(_) => panic!("finished too early"),
        Inherit::Working(w) => w,
    }
}

#[test]
fn inherit_start_without_copy_from() {
    let plain = file_at("u/a.ini", "u", &[("attack", "x", "1")]);
    let done = finished(Inheritance::start(plain));
    assert_eq!(value(&done, "attack", "x"), Some(s("1")));
    assert_eq!(done.path, s("u/a.ini"));
    let own = file_at("u/b.ini", "u", &[("core", "name", "b"), ("core", "dont_load", "true")]);
    let done = finished(Inheritance::start(own));
    assert_eq!(value(&done, "core", "dont_load"), None);
    assert_eq!(value(&done, "core", "name"), Some(s("b")));
    assert_eq!(done.ppath, s("u"));
}

#[test]
fn inherit_reads_each_named_file_in_order() {
    let unit = file_at(
        "units/tank.ini",
        "units",
        &[("core", "copyFrom", "ROOT:/base.ini, b.ini"), ("core", "name", "tank"), ("core", "price", "5"), ("core", "dont_load", "true")],
    );
    let w = working(Inheritance::start(unit));
    assert_eq!(w.request(), CopyRequest { from_root: true, rel: s("base.ini"), base: s("units") });
    let base = file_at("root/base.ini", "root", &[("core", "price", "9"), ("attack", "dmg", "3")]);
    let w = working(w.loaded(base));
    assert_eq!(w.request(), CopyRequest { from_root: false, rel: s("b.ini"), base: s("units") });
    let b = file_at("units/b.ini", "units", &[("attack", "dmg", "4")]);
    let done = finished(w.loaded(b));
    assert_eq!(done.path, s("units/tank.ini"));
    assert_eq!(done.ppath, s("units"));
    assert_eq!(value(&done, "core", "name"), Some(s("tank")));
    assert_eq!(value(&done, "core", "price"), Some(s("9")));
    assert_eq!(value(&done, "attack", "dmg"), Some(s("4")));
    assert_eq!(value(&done, "core", "dont_load"), None);
    assert_eq!(value(&done, "core", "copyFrom"), Some(s("ROOT:/base.ini, b.ini")));
}

#[test]
fn inherit_follows_nested_copy_from() {
    let unit = file_at("u/tank.ini", "u", &[("core", "copyFrom", "a.ini"), ("core", "name", "tank")]);
    let w = working(Inheritance::start(unit));
    assert_eq!(w.request(), CopyRequest { from_root: false, rel: s("a.ini"), base: s("u") });
    let a = file_at("u/p/a.ini", "u/p", &[("core", "copyFrom", "ROOT:b.ini"), ("core", "x", "1")]);
    let w = working(w.loaded(a));
    assert_eq!(w.request(), CopyRequest { from_root: true, rel: s("b.ini"), base: s("u/p") });
    let b = file_at("b.ini", "", &[("core", "x", "5"), ("core", "y", "2")]);
    let done = finished(w.loaded(b));
    assert_eq!(done.path, s("u/tank.ini"));
    assert_eq!(value(&done, "core", "name"), Some(s("tank")));
    assert_eq!(value(&done, "core", "x"), Some(s("5")));
    assert_eq!(value(&done, "core", "y"), Some(s("2")));
    assert_eq!(value(&done, "core", "copyFrom"), Some(s("ROOT:b.ini")));
}

#[test]
fn inherit_abandon_gives_the_file_back() {
    let unit = file_at("u/tank.ini", "u", &[("core", "copyFrom", "a.ini, b.ini"), ("core", "dont_load", "true")]);
    let w = working(Inheritance::start(unit));
    let a = file_at("u/a.ini", "u", &[("core", "price", "3")]);
    let w = working(w.loaded(a));
    let back = w.abandon();
    assert_eq!(back.path, s("u/tank.ini"));
    assert_eq!(back.ppath, s("u"));
    assert_eq!(value(&back, "core", "dont_load"), Some(s("true")));
    assert_eq!(value(&back, "core", "price"), None);
    assert_eq!(back.listing().len(), 1);
}
