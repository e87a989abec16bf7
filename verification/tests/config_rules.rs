use cc_switcher::cli::{confirms_deletion, external_run_target, parse_external_args};
use cc_switcher::config::store::ConfigStore;
use cc_switcher::config::{
    choose_editor, is_safe_editor_name, new_config_file_name, validate_config_name, Config, ConfigManager,
    EMPTY_LISTING, LISTING_FOOTER, LISTING_HEADER,
};
use cc_switcher::error::CcsError;
use cc_switcher::pin::{pin_search_dirs, PinConfig};
use cc_switcher::run::resolve_config;
use cc_switcher::text::{is_blank, trim_str};

fn cfg(name: &str, path: &str) -> Config {
    Config::new(name.to_string(), path.to_string(), None)
}

fn store_of(names: &[&str]) -> ConfigStore {
    let configs = names.iter().map(|n| cfg(n, &format!("/cfg/{}.json", n))).collect();
    ConfigStore::from_configs(configs)
}

fn strings(v: &[&str]) -> Vec<String> {
    v.iter().map(|s| s.to_string()).collect()
}

#[test]
fn name_is_trimmed() {
    assert_eq!(validate_config_name("  work \t"), Ok("work".to_string()));
    assert_eq!(validate_config_name("deep seek"), Ok("deep seek".to_string()));
}

#[test]
fn name_empty_is_refused() {
    assert_eq!(validate_config_name(""), Err(CcsError::EmptyName));
    assert_eq!(validate_config_name("   \u{3000}"), Err(CcsError::EmptyName));
}

#[test]
fn name_with_separator_or_forbidden_char_is_refused() {
    for n in ["a/b", "a\\b", "c:", "x<y", "x>y", "q\"", "a|b", "what?", "st*r", "nul\0"] {
        assert_eq!(validate_config_name(n), Err(CcsError::ForbiddenChar), "{}", n);
    }
}

#[test]
fn name_dot_and_dotdot_are_refused() {
    assert_eq!(validate_config_name("."), Err(CcsError::ReservedName));
    assert_eq!(validate_config_name(" .. "), Err(CcsError::ReservedName));
    assert_eq!(validate_config_name("..."), Err(CcsError::BadEnding));
}

#[test]
fn name_ending_in_dot_is_refused() {
    assert_eq!(validate_config_name("work."), Err(CcsError::BadEnding));
    assert_eq!(validate_config_name(".work"), Ok(".work".to_string()));
}

#[test]
fn name_length_counts_characters() {
    let ok = "a".repeat(64);
    assert_eq!(validate_config_name(&ok), Ok(ok.clone()));
    assert_eq!(validate_config_name(&"a".repeat(65)), Err(CcsError::NameTooLong));
    // 22 characters of three bytes each: 66 bytes, but 22 characters.
    let cjk = "\u{914d}".repeat(22);
    assert_eq!(validate_config_name(&cjk), Ok(cjk.clone()));
    let cjk_max = "\u{914d}".repeat(64);
    assert_eq!(validate_config_name(&cjk_max), Ok(cjk_max.clone()));
    assert_eq!(validate_config_name(&"\u{914d}".repeat(65)), Err(CcsError::NameTooLong));
}

#[test]
fn name_check_is_idempotent() {
    let once = validate_config_name("  personal  ").unwrap();
    assert_eq!(validate_config_name(&once), Ok(once.clone()));
}

#[test]
fn new_config_file_is_named_after_config() {
    assert_eq!(new_config_file_name(" work "), Ok(("work".to_string(), "work.json".to_string())));
    assert_eq!(new_config_file_name("../x"), Err(CcsError::ForbiddenChar));
}

#[test]
fn store_add_then_get() {
    let mut s = ConfigStore::new();
    assert_eq!(s.add(cfg("work", "/w.json")), Ok(()));
    assert_eq!(s.add(cfg("personal", "/p.json")), Ok(()));
    let c = s.get("work").unwrap();
    assert_eq!(c.path, "/w.json");
    assert!(!c.is_default);
    assert_eq!(s.list().len(), 2);
    assert_eq!(s.get("nope").err(), Some(CcsError::NotFound));
}

#[test]
fn store_refuses_duplicate_name() {
    let mut s = store_of(&["work"]);
    assert_eq!(s.add(cfg("work", "/other.json")), Err(CcsError::NameTaken));
    assert_eq!(s.list().len(), 1);
    assert_eq!(s.get("work").unwrap().path, "/cfg/work.json");
}

#[test]
fn store_set_default_marks_exactly_one() {
    let mut s = store_of(&["a", "b", "c"]);
    assert!(s.get_default().is_none());
    assert_eq!(s.set_default("b"), Ok(()));
    assert_eq!(s.get_default().unwrap().name, "b");
    let defaults: Vec<&str> = s.list().iter().filter(|c| c.is_default).map(|c| c.name.as_str()).collect();
    assert_eq!(defaults, vec!["b"]);
    assert_eq!(s.set_default("c"), Ok(()));
    assert_eq!(s.get_default().unwrap().name, "c");
    assert!(!s.get("b").unwrap().is_default);
    assert_eq!(s.set_default("zzz"), Err(CcsError::NotFound));
    assert_eq!(s.get_default().unwrap().name, "c");
}

#[test]
fn store_remove_reports_and_forgets() {
    let mut s = store_of(&["a", "b"]);
    s.set_default("a").unwrap();
    let info = s.remove("a").unwrap();
    assert!(info.was_default);
    assert_eq!(info.path, "/cfg/a.json");
    assert!(s.get("a").is_err());
    assert!(s.get_default().is_none());
    let info = s.remove("b").unwrap();
    assert!(!info.was_default);
    assert!(s.remove("b").is_err());
    assert_eq!(s.list().len(), 0);
}

#[test]
fn store_remove_undoes_add() {
    let mut s = store_of(&["x", "y"]);
    s.add(cfg("z", "/z.json")).unwrap();
    s.remove("z").unwrap();
    let names: Vec<&str> = s.list().iter().map(|c| c.name.as_str()).collect();
    assert_eq!(names, vec!["x", "y"]);
}

#[test]
fn manager_add_requires_existing_file() {
    let mut m = ConfigManager::new(ConfigStore::new());
    assert_eq!(m.add("w".to_string(), "/nowhere.json".to_string(), false, None), Err(CcsError::FileMissing));
    assert!(!m.has_config("w"));
    assert_eq!(m.add("w".to_string(), "/w.json".to_string(), true, Some("d".to_string())), Ok(()));
    assert!(m.has_config("w"));
    assert_eq!(m.get_config("w").unwrap().description.as_deref(), Some("d"));
    assert_eq!(m.add("w".to_string(), "/w2.json".to_string(), true, None), Err(CcsError::NameTaken));
    assert_eq!(m.add("w".to_string(), "/w2.json".to_string(), false, None), Err(CcsError::FileMissing));
}

#[test]
fn manager_default_name() {
    let mut m = ConfigManager::new(store_of(&["a", "b"]));
    assert_eq!(m.get_default(), None);
    m.set_default("b").unwrap();
    assert_eq!(m.get_default(), Some("b".to_string()));
    assert_eq!(m.get_default_config().unwrap().path, "/cfg/b.json");
}

#[test]
fn manager_new_config_registers() {
    let mut m = ConfigManager::new(ConfigStore::new());
    assert_eq!(m.new_config("n".to_string(), "/c/n.json".to_string(), None), Ok(()));
    assert_eq!(m.get_config("n").unwrap().path, "/c/n.json");
    assert_eq!(m.new_config("n".to_string(), "/c/n.json".to_string(), None), Err(CcsError::NameTaken));
    assert_eq!(m.new_config(" n ".to_string(), "/c/n.json".to_string(), None), Err(CcsError::NameTaken));
}

#[test]
fn manager_new_config_checks_and_trims_the_name() {
    let mut m = ConfigManager::new(ConfigStore::new());
    assert_eq!(m.new_config("a/b".to_string(), "/c/x.json".to_string(), None), Err(CcsError::ForbiddenChar));
    assert_eq!(m.new_config("  ".to_string(), "/c/x.json".to_string(), None), Err(CcsError::EmptyName));
    assert_eq!(m.configs().len(), 0);
    assert_eq!(m.new_config("  work  ".to_string(), "/c/work.json".to_string(), None), Ok(()));
    assert_eq!(m.configs()[0].name, "work");
    assert!(m.has_config("work"));
}

#[test]
fn listing_lines() {
    let empty = ConfigManager::new(ConfigStore::new());
    assert_eq!(empty.list(), vec![EMPTY_LISTING.to_string()]);
    let mut s = ConfigStore::new();
    s.add(Config::new("work".into(), "/w.json".into(), Some("office".into()))).unwrap();
    s.add(cfg("home", "/h.json")).unwrap();
    s.set_default("work").unwrap();
    let m = ConfigManager::new(s);
    assert_eq!(
        m.list(),
        vec![
            LISTING_HEADER.to_string(),
            "  \u{2605} work \u{2192} /w.json office".to_string(),
            "    home \u{2192} /h.json ".to_string(),
            LISTING_FOOTER.to_string(),
        ]
    );
    assert_eq!(LISTING_HEADER, "配置列表:");
    assert_eq!(LISTING_FOOTER, "\n  ★ 全局默认");
}

#[test]
fn resolve_prefers_user_then_pin_then_default() {
    let mut s = store_of(&["work", "personal", "deepseek"]);
    s.set_default("work").unwrap();
    let m = ConfigManager::new(s);
    let pin = || Some(PinConfig { config: "personal".to_string(), description: None });
    assert_eq!(resolve_config(Some("deepseek".into()), pin(), &m).unwrap().name, "deepseek");
    assert_eq!(resolve_config(None, pin(), &m).unwrap().name, "personal");
    assert_eq!(resolve_config(None, None, &m).unwrap().name, "work");
}

#[test]
fn resolve_errors() {
    let m = ConfigManager::new(store_of(&["work"]));
    assert_eq!(resolve_config(Some("nope".into()), None, &m).err(), Some(CcsError::NotFound));
    let bad_pin = Some(PinConfig { config: "gone".to_string(), description: None });
    assert_eq!(resolve_config(None, bad_pin, &m).err(), Some(CcsError::PinTargetMissing));
    assert_eq!(resolve_config(None, None, &m).err(), Some(CcsError::NoConfigAvailable));
}

#[test]
fn external_args_split() {
    assert_eq!(
        parse_external_args(&strings(&["deepseek", "--", "-p", "hi"])),
        ("deepseek".to_string(), strings(&["-p", "hi"]))
    );
    assert_eq!(parse_external_args(&strings(&["work", "-p"])), ("work".to_string(), strings(&["-p"])));
    assert_eq!(parse_external_args(&strings(&["work"])), ("work".to_string(), vec![]));
    assert_eq!(parse_external_args(&strings(&["w", "x", "--"])), ("w".to_string(), strings(&["x", "--"])));
    assert_eq!(external_run_target(&vec![]), Err(CcsError::MissingConfigName));
    assert_eq!(external_run_target(&strings(&["a", "--"])), Ok(("a".to_string(), vec![])));
}

#[test]
fn delete_confirmation() {
    assert!(confirms_deletion("y\n"));
    assert!(confirms_deletion("  Y "));
    assert!(!confirms_deletion("yes"));
    assert!(!confirms_deletion("n"));
    assert!(!confirms_deletion(""));
}

#[test]
fn editor_names() {
    assert!(is_safe_editor_name("code"));
    assert!(is_safe_editor_name("nvim-qt.exe"));
    assert!(is_safe_editor_name("gvim_2"));
    assert!(is_safe_editor_name("编辑器"));
    assert!(!is_safe_editor_name("/usr/bin/vim"));
    assert!(!is_safe_editor_name("code --wait"));
    assert!(!is_safe_editor_name("vim;rm"));
    assert_eq!(choose_editor(Some("vim".into()), Some("emacs".into())), "vim");
    assert_eq!(choose_editor(None, Some("emacs".into())), "emacs");
    assert_eq!(choose_editor(None, None), "code");
}

#[test]
fn pin_search_goes_twenty_levels_up() {
    assert_eq!(pin_search_dirs(0), 0);
    assert_eq!(pin_search_dirs(5), 5);
    assert_eq!(pin_search_dirs(21), 21);
    assert_eq!(pin_search_dirs(40), 21);
}

#[test]
fn trimming() {
    assert_eq!(trim_str("\u{a0} a b \u{2003}"), "a b");
    assert!(is_blank(" \t\r"));
    assert!(!is_blank(" x "));
}
