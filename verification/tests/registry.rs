use indexmap::IndexMap;
use mise_config::keyed::KeyedVec;
use mise_config::model::{ConfigFile, Dialect, Version};
use mise_config::registry::{
    get_tracked_config_files, load_all_config_files, load_legacy_files, parse_plan, paths_to_parse,
    plan_for_name, reads_legacy_files, ConfigError, ParsePlan,
};
use mise_config::settings::Settings;

fn strings(v: &[&str]) -> Vec<String> {
    v.iter().map(|s| s.to_string()).collect()
}

fn settings(enabled: bool, disabled: &[&str]) -> Settings {
    Settings {
        legacy_version_file: enabled,
        legacy_version_file_disable_tools: strings(disabled),
        env_file: None,
    }
}

fn tool(id: &str, names: Option<&[&str]>) -> (String, Option<Vec<String>>) {
    (id.to_string(), names.map(strings))
}

fn file(path: &str) -> ConfigFile {
    ConfigFile::new(path.to_string(), Dialect::Standard)
}

fn keys(m: &IndexMap<String, ConfigFile>) -> Vec<String> {
    m.keys().cloned().collect()
}

#[test]
fn legacy_files_grouped_by_name() {
    let tools = vec![
        tool("node", Some(&[".nvmrc", ".node-version"])),
        tool("ruby", Some(&[".ruby-version"])),
        tool("bun", Some(&[".nvmrc"])),
    ];
    let legacy = load_legacy_files(&settings(true, &[]), &tools);
    assert_eq!(legacy.len(), 3);
    assert_eq!(legacy.get(".nvmrc"), Some(&strings(&["node", "bun"])));
    assert_eq!(legacy.get(".node-version"), Some(&strings(&["node"])));
    assert_eq!(legacy.get(".ruby-version"), Some(&strings(&["ruby"])));
    assert_eq!(legacy.get(".python-version"), None);
    assert_eq!(legacy.key_at(0).unwrap(), ".nvmrc");
    assert_eq!(legacy.key_at(1).unwrap(), ".node-version");
    assert_eq!(legacy.key_at(2).unwrap(), ".ruby-version");
}

#[test]
fn legacy_files_switched_off() {
    let tools = vec![tool("node", Some(&[".nvmrc"]))];
    let legacy = load_legacy_files(&settings(false, &[]), &tools);
    assert_eq!(legacy.len(), 0);
    assert_eq!(legacy.get(".nvmrc"), None);
}

#[test]
fn legacy_files_skip_disabled_tools() {
    let tools = vec![
        tool("node", Some(&[".nvmrc", ".node-version"])),
        tool("bun", Some(&[".nvmrc"])),
    ];
    let legacy = load_legacy_files(&settings(true, &["node"]), &tools);
    assert_eq!(legacy.len(), 1);
    assert_eq!(legacy.get(".nvmrc"), Some(&strings(&["bun"])));
    assert_eq!(legacy.get(".node-version"), None);
}

#[test]
fn legacy_files_skip_tools_that_could_not_say() {
    let tools = vec![tool("node", None), tool("ruby", Some(&[".ruby-version"])), tool("go", Some(&[]))];
    let legacy = load_legacy_files(&settings(true, &[]), &tools);
    assert_eq!(legacy.len(), 1);
    assert_eq!(legacy.get(".ruby-version"), Some(&strings(&["ruby"])));
}

#[test]
fn legacy_files_keep_repeated_claims() {
    let tools = vec![tool("node", Some(&[".nvmrc", ".nvmrc"]))];
    let legacy = load_legacy_files(&settings(true, &[]), &tools);
    assert_eq!(legacy.get(".nvmrc"), Some(&strings(&["node", "node"])));
}

#[test]
fn legacy_files_of_no_tools() {
    let legacy = load_legacy_files(&settings(true, &[]), &Vec::new());
    assert!(legacy.is_empty());
}

#[test]
fn parse_plan_uses_the_file_name() {
    let mut legacy: KeyedVec<Vec<String>> = KeyedVec::new();
    legacy.insert(".nvmrc".to_string(), strings(&["node", "bun"]));
    let registered = strings(&["bun", "go", "node"]);
    assert_eq!(
        parse_plan("/work/project/.nvmrc", &legacy, &registered),
        ParsePlan::Legacy(strings(&["bun", "node"]))
    );
    assert_eq!(parse_plan(".nvmrc", &legacy, &registered), ParsePlan::Legacy(strings(&["bun", "node"])));
    assert_eq!(parse_plan("/work/project/.mise.toml", &legacy, &registered), ParsePlan::Standard);
    assert_eq!(parse_plan("/work/.nvmrc/config.toml", &legacy, &registered), ParsePlan::Standard);
}

#[test]
fn parse_plan_without_file_name_is_standard() {
    let mut legacy: KeyedVec<Vec<String>> = KeyedVec::new();
    legacy.insert("..".to_string(), strings(&["node"]));
    legacy.insert("".to_string(), strings(&["node"]));
    let registered = strings(&["node"]);
    assert_eq!(parse_plan("/work/..", &legacy, &registered), ParsePlan::Standard);
    assert_eq!(parse_plan("/", &legacy, &registered), ParsePlan::Standard);
    assert_eq!(parse_plan("", &legacy, &registered), ParsePlan::Standard);
}

#[test]
fn plan_for_name_keeps_registered_tools_in_their_order() {
    let mut legacy: KeyedVec<Vec<String>> = KeyedVec::new();
    legacy.insert(".ruby-version".to_string(), strings(&["ruby", "jruby", "gone"]));
    let registered = strings(&["jruby", "node", "ruby"]);
    assert_eq!(
        plan_for_name(&Some(".ruby-version".to_string()), &legacy, &registered),
        ParsePlan::Legacy(strings(&["jruby", "ruby"]))
    );
    assert_eq!(
        plan_for_name(&Some(".ruby-version".to_string()), &legacy, &Vec::new()),
        ParsePlan::Legacy(Vec::new())
    );
    assert_eq!(plan_for_name(&Some(".nvmrc".to_string()), &legacy, &registered), ParsePlan::Standard);
    assert_eq!(plan_for_name(&None, &legacy, &registered), ParsePlan::Standard);
}

#[test]
fn paths_to_parse_each_once() {
    assert_eq!(
        paths_to_parse(&strings(&["/a", "/b", "/a", "/c", "/b"])),
        strings(&["/a", "/b", "/c"])
    );
    assert_eq!(paths_to_parse(&Vec::new()), Vec::<String>::new());
}

#[test]
fn load_all_config_files_in_order() {
    let parsed = vec![
        ("/w/p/.mise.toml".to_string(), Ok(file("/w/p/.mise.toml"))),
        ("/w/.tool-versions".to_string(), Ok(file("/w/.tool-versions"))),
        ("/etc/mise/config.toml".to_string(), Ok(file("/etc/mise/config.toml"))),
    ];
    let map = load_all_config_files(parsed).unwrap();
    assert_eq!(keys(&map), strings(&["/w/p/.mise.toml", "/w/.tool-versions", "/etc/mise/config.toml"]));
    assert_eq!(map["/w/.tool-versions"].path, "/w/.tool-versions");
}

#[test]
fn load_all_config_files_of_nothing() {
    let map = load_all_config_files(Vec::new()).unwrap();
    assert!(map.is_empty());
}

#[test]
fn load_all_config_files_fails_on_the_first_failure() {
    let parsed = vec![
        ("/a".to_string(), Ok(file("/a"))),
        ("/b".to_string(), Err("unexpected token".to_string())),
        ("/c".to_string(), Ok(file("/c"))),
        ("/d".to_string(), Err("other".to_string())),
    ];
    let err = load_all_config_files(parsed).unwrap_err();
    assert_eq!(
        err,
        ConfigError::Parse { path: "/b".to_string(), cause: "unexpected token".to_string() }
    );
}

#[test]
fn load_all_config_files_same_path_twice_keeps_place_and_last_file() {
    let mut second = file("/a");
    second.min_version = Some(Version::new(1, 2, 3));
    let parsed = vec![
        ("/a".to_string(), Ok(file("/a"))),
        ("/b".to_string(), Ok(file("/b"))),
        ("/a".to_string(), Ok(second)),
    ];
    let map = load_all_config_files(parsed).unwrap();
    assert_eq!(keys(&map), strings(&["/a", "/b"]));
    assert_eq!(map["/a"].min_version, Some(Version::new(1, 2, 3)));
}

#[test]
fn tracked_config_files_leave_out_what_did_not_parse() {
    let parsed = vec![
        ("/a".to_string(), Some(file("/a"))),
        ("/gone".to_string(), None),
        ("/b".to_string(), Some(file("/b"))),
    ];
    let map = get_tracked_config_files(parsed);
    assert_eq!(keys(&map), strings(&["/a", "/b"]));
    let none = get_tracked_config_files(vec![("/gone".to_string(), None)]);
    assert!(none.is_empty());
}

#[test]
fn error_messages_name_path_and_versions() {
    let parse = ConfigError::Parse { path: "/w/.mise.toml".to_string(), cause: "bad".to_string() };
    assert_eq!(parse.message(), "error parsing config file: /w/.mise.toml");
    let version = ConfigError::MinVersion {
        required: Version::new(2024, 2, 0),
        current: Version::new(2024, 1, 16),
    };
    assert_eq!(version.message(), "mise version 2024.2.0 is required, but you are using 2024.1.16");
}

#[test]
fn reads_legacy_files_follows_the_settings() {
    assert!(reads_legacy_files(&settings(true, &[]), "node"));
    assert!(reads_legacy_files(&settings(true, &["ruby"]), "node"));
    assert!(!reads_legacy_files(&settings(true, &["ruby", "node"]), "node"));
    assert!(!reads_legacy_files(&settings(false, &[]), "node"));
}
