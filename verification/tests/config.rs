use md_orphan::collections::{StringMap, StringSet};
use md_orphan::config::{
    ancestors, config_from_json, default_config_path, expand_path, extract_repos,
    find_project_ignore_ancestor, load_global_config, load_project_ignore, project_ignore_exists,
    project_ignore_path, xdg_config_home, ConfigError, ConfigFile, ConfigJson, Env, GlobalConfig,
    Member,
};

fn env(vars: &[(&str, &str)], users: &[(&str, &str)]) -> Env {
    let mut e = Env {
        home: "/home/me".to_string(),
        users: StringMap::new(),
        vars: StringMap::new(),
    };
    for (k, v) in vars {
        e.vars.insert(k.to_string(), v.to_string());
    }
    for (k, v) in users {
        e.users.insert(k.to_string(), v.to_string());
    }
    e
}

fn set(items: &[&str]) -> StringSet {
    let mut s = StringSet::new();
    for i in items {
        s.insert(i.to_string());
    }
    s
}

fn load(text: &str) -> Result<GlobalConfig, ConfigError> {
    load_global_config("config.json", &ConfigFile::Text(text.to_string()), &env(&[], &[]))
}

#[test]
fn expand_path_home_and_env() {
    let e = env(&[("MD_ORPHAN_TEST_X", "/tmp/something")], &[]);
    assert_eq!(expand_path("$MD_ORPHAN_TEST_X/sub", "test", &e).unwrap(), "/tmp/something/sub");
    assert_eq!(expand_path("${MD_ORPHAN_TEST_X}/sub", "test", &e).unwrap(), "/tmp/something/sub");
    assert_eq!(expand_path("~", "test", &e).unwrap(), "/home/me");
    assert_eq!(expand_path("~/x", "test", &e).unwrap(), "/home/me/x");
}

#[test]
fn expand_path_missing_var_throws() {
    let r = expand_path("$NOPE_NOT_DEFINED_VAR/x", "r", &env(&[], &[]));
    assert!(matches!(r, Err(ConfigError::RepoPathExpansion { .. })));
}

#[test]
fn expand_path_unclosed_brace_throws() {
    let r = expand_path("${MD_ORPHAN_RT_X/sub", "r", &env(&[("MD_ORPHAN_RT_X", "/x")], &[]));
    assert!(matches!(r, Err(ConfigError::UnclosedBrace { .. })));
}

#[test]
fn expand_path_tilde_user() {
    let e = env(&[], &[("me", "/home/me")]);
    assert_eq!(expand_path("~me/x", "r", &e).unwrap(), "/home/me/x");
    assert_eq!(expand_path("~me", "r", &e).unwrap(), "/home/me");
}

#[test]
fn expand_path_unknown_user_throws() {
    let r = expand_path("~no_such_user_zzz/x", "r", &env(&[], &[]));
    assert!(matches!(r, Err(ConfigError::UnknownUser { .. })), "got: {r:?}");
}

#[test]
fn dollar_without_a_name_stands_for_itself() {
    let e = env(&[("A", "1"), ("B_2", "2")], &[]);
    assert_eq!(expand_path("a$", "r", &e).unwrap(), "a$");
    assert_eq!(expand_path("a$/b", "r", &e).unwrap(), "a$/b");
    assert_eq!(expand_path("${}x", "r", &e).unwrap(), "${}x");
    assert_eq!(expand_path("$A$B_2-$A", "r", &e).unwrap(), "12-1");
    assert_eq!(expand_path("\u{e9}/$A", "r", &e).unwrap(), "\u{e9}/1");
    assert_eq!(expand_path("/plain/path", "r", &e).unwrap(), "/plain/path");
}

#[test]
fn errors_tell_what_is_wrong() {
    let e = env(&[], &[]);
    assert_eq!(
        expand_path("$X/y", "n", &e).unwrap_err().text(),
        "repo 'n' path '$X/y': undefined env var $X"
    );
    assert_eq!(
        expand_path("${X", "n", &e).unwrap_err().text(),
        "repo 'n' path '${X': unclosed `${` brace expansion"
    );
    assert_eq!(
        expand_path("~u/y", "n", &e).unwrap_err().text(),
        "repo 'n' path '~u/y': unknown user in `~u/` expansion"
    );
    let unreadable = ConfigFile::Unreadable("denied".to_string());
    assert_eq!(
        load_global_config("c.json", &unreadable, &e).err().unwrap().text(),
        "c.json: cannot read: denied"
    );
    assert!(load("{").err().unwrap().text().starts_with("config.json: malformed JSON: "));
}

#[test]
fn load_project_ignore_parses_lines() {
    let patterns = load_project_ignore(Some("# comment\nLibrary/\n\ndocs/draft-*.md\n"));
    assert_eq!(patterns, vec!["Library/", "docs/draft-*.md"]);
}

#[test]
fn load_project_ignore_returns_empty_when_absent() {
    let patterns = load_project_ignore(None);
    assert!(patterns.is_empty());
}

#[test]
fn ignore_lines_are_trimmed() {
    let patterns = load_project_ignore(Some("  a b \r\n\u{a0}#x\n\t# y\n\u{2003}z\u{2003}"));
    assert_eq!(patterns, vec!["a b", "z"]);
}

#[test]
fn project_ignore_exists_distinguishes_absent_from_empty() {
    assert!(!project_ignore_exists("/r", &set(&[])));
    assert!(project_ignore_exists("/r", &set(&["/r/.md-orphan"])));
    assert_eq!(project_ignore_path("/"), "/.md-orphan");
}

#[test]
fn find_project_ignore_ancestor_walks_strictly_upward() {
    let existing = set(&["/root/.md-orphan"]);
    assert_eq!(
        find_project_ignore_ancestor("/root/docs/specs", &existing).as_deref(),
        Some("/root")
    );
    assert!(find_project_ignore_ancestor("/root", &existing).is_none());
}

#[test]
fn find_project_ignore_ancestor_none_when_no_match() {
    assert!(find_project_ignore_ancestor("/dir/a/b", &set(&[])).is_none());
}

#[test]
fn find_project_ignore_ancestor_returns_nearest() {
    let existing = set(&["/dir/.md-orphan", "/dir/mid/.md-orphan"]);
    assert_eq!(
        find_project_ignore_ancestor("/dir/mid/leaf", &existing).as_deref(),
        Some("/dir/mid")
    );
}

#[test]
fn directories_above_a_path() {
    assert_eq!(ancestors("/a/b/c"), vec!["/a/b", "/a", "/"]);
    assert_eq!(ancestors("a/b"), vec!["a", ""]);
    assert!(ancestors("/").is_empty());
    assert_eq!(ancestors("/x/y/."), vec!["/x", "/"]);
    assert_eq!(ancestors("/x/./y//z/"), vec!["/x/y", "/x", "/"]);
    assert_eq!(ancestors("./a"), vec![".", ""]);
    assert_eq!(ancestors("a/../b"), vec!["a/..", "a", ""]);
}

#[test]
fn start_itself_is_no_ancestor() {
    let existing = set(&["/x/y/.md-orphan"]);
    assert_eq!(find_project_ignore_ancestor("/x/y/.", &existing), None);
    assert_eq!(find_project_ignore_ancestor("/x/y/z/.", &existing).as_deref(), Some("/x/y"));
}

#[test]
fn load_global_config_wrapped_form() {
    let cfg = load(r#"{"repos":{"foo":"/tmp/foo","bar":"/tmp/bar"}}"#).ok().unwrap();
    assert_eq!(cfg.repos.get("foo"), Some(&"/tmp/foo".to_string()));
    assert_eq!(cfg.repos.get("bar"), Some(&"/tmp/bar".to_string()));
}

#[test]
fn load_global_config_flat_form() {
    let cfg = load(r#"{"foo":"/tmp/foo","bar":"/tmp/bar"}"#).ok().unwrap();
    assert_eq!(cfg.repos.len(), 2);
}

#[test]
fn load_global_config_missing_returns_empty() {
    let cfg = load_global_config("nope.json", &ConfigFile::Missing, &env(&[], &[])).ok().unwrap();
    assert!(cfg.repos.is_empty());
}

#[test]
fn other_shapes_are_malformed() {
    let text = |t: &str| load(t).err().unwrap().text();
    assert_eq!(text("[]"), "config.json: malformed JSON: top-level must be an object");
    assert_eq!(
        text(r#"{"repos":3}"#),
        "config.json: malformed JSON: 'repos' must be a {string:string} map"
    );
    assert_eq!(
        text(r#"{"repos":{"a":"/x","b":1}}"#),
        "config.json: malformed JSON: value for 'b' must be a string"
    );
    assert_eq!(
        text(r#"{"a":"/x","b":[]}"#),
        "config.json: malformed JSON: expected {\"repos\": {...}} or a flat {name: path} map"
    );
}

#[test]
fn paths_in_the_file_are_expanded() {
    let file = ConfigFile::Text(r#"{"a":"~/x","b":"$V/y"}"#.to_string());
    let cfg = load_global_config("c", &file, &env(&[("V", "/v")], &[])).ok().unwrap();
    assert_eq!(cfg.repos.get("a"), Some(&"/home/me/x".to_string()));
    assert_eq!(cfg.repos.get("b"), Some(&"/v/y".to_string()));
    let broken = load_global_config("c", &file, &env(&[], &[]));
    assert!(matches!(broken, Err(ConfigError::RepoPathExpansion { .. })));
}

#[test]
fn parsed_configuration_is_read_as_it_is() {
    let json = ConfigJson::Object(vec![
        ("a".to_string(), Member::Text("/x".to_string())),
        ("repos".to_string(), Member::Texts(vec![("r".to_string(), Some("/y".to_string()))])),
    ]);
    let pairs = extract_repos(&json, "p").unwrap();
    assert_eq!(pairs, vec![("r".to_string(), "/y".to_string())]);
    let cfg = config_from_json(Ok(json), "p", &env(&[], &[])).ok().unwrap();
    assert_eq!(cfg.repos.len(), 1);
    let failed = config_from_json(Err("why".to_string()), "p", &env(&[], &[]));
    assert_eq!(failed.err().unwrap().text(), "p: malformed JSON: why");
    assert!(extract_repos(&ConfigJson::Other, "p").is_err());
}

#[test]
fn retain_existing_drops_missing_paths() {
    let mut cfg = GlobalConfig { repos: StringMap::new() };
    cfg.repos.insert("present".to_string(), "/real".to_string());
    cfg.repos.insert("absent".to_string(), "/tmp/__md_orphan_nope_no_such_dir__".to_string());
    cfg.retain_existing(&set(&["/real"]));
    assert!(cfg.repos.contains_key("present"));
    assert!(!cfg.repos.contains_key("absent"));
}

#[test]
fn retain_existing_drops_path_that_is_a_file_not_a_dir() {
    let mut cfg = GlobalConfig { repos: StringMap::new() };
    cfg.repos.insert("file-not-dir".to_string(), "/not-a-dir".to_string());
    cfg.retain_existing(&set(&[]));
    assert!(cfg.repos.is_empty());
}

#[test]
fn place_of_the_configuration() {
    assert_eq!(xdg_config_home(Some("/xdg"), "/home/me"), "/xdg");
    assert_eq!(xdg_config_home(Some(""), "/home/me"), "/home/me/.config");
    assert_eq!(xdg_config_home(None, "/home/me"), "/home/me/.config");
    assert_eq!(default_config_path("/xdg"), "/xdg/md-orphan/md-orphan.json");
}
