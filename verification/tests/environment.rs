use indexmap::IndexMap;
use mise_config::environment::{
    env_with_sources, load_env, path_dirs, plain_env, watch_files, EnvResults,
};
use mise_config::model::{ConfigFile, Dialect, EnvDirective};

fn strings(v: &[&str]) -> Vec<String> {
    v.iter().map(|s| s.to_string()).collect()
}

fn val(k: &str, v: &str) -> EnvDirective {
    EnvDirective::Val(k.to_string(), v.to_string())
}

fn file_with_env(path: &str, directives: Vec<EnvDirective>) -> ConfigFile {
    let mut f = ConfigFile::new(path.to_string(), Dialect::Standard);
    f.env_entries = directives;
    f
}

fn files(list: Vec<ConfigFile>) -> IndexMap<String, ConfigFile> {
    let mut m = IndexMap::new();
    for f in list {
        m.insert(f.path.clone(), f);
    }
    m
}

fn sourced(entries: &[(&str, &str, &str)]) -> IndexMap<String, (String, String)> {
    let mut m = IndexMap::new();
    for (k, v, s) in entries {
        m.insert(k.to_string(), (v.to_string(), s.to_string()));
    }
    m
}

fn line(k: &str, v: &str) -> Option<(String, String)> {
    Some((k.to_string(), v.to_string()))
}

fn listed(m: &IndexMap<String, (String, String)>) -> Vec<(String, String, String)> {
    m.iter().map(|(k, (v, s))| (k.clone(), v.clone(), s.clone())).collect()
}

fn triple(k: &str, v: &str, s: &str) -> (String, String, String) {
    (k.to_string(), v.to_string(), s.to_string())
}

#[test]
fn load_env_takes_files_from_last_to_first() {
    let local = file_with_env("/w/p/.mise.toml", vec![val("A", "local"), val("B", "1")]);
    let global = file_with_env(
        "/home/me/.config/mise/config.toml",
        vec![val("A", "global"), EnvDirective::Rm("C".to_string())],
    );
    let entries = load_env(&files(vec![local, global]));
    assert_eq!(
        entries,
        vec![
            (val("A", "global"), "/home/me/.config/mise/config.toml".to_string()),
            (EnvDirective::Rm("C".to_string()), "/home/me/.config/mise/config.toml".to_string()),
            (val("A", "local"), "/w/p/.mise.toml".to_string()),
            (val("B", "1"), "/w/p/.mise.toml".to_string()),
        ]
    );
}

#[test]
fn load_env_local_directives_come_after_global_ones() {
    let local = file_with_env("/local", vec![val("X", "local")]);
    let middle = file_with_env("/middle", vec![]);
    let global = file_with_env("/global", vec![val("X", "global")]);
    let entries = load_env(&files(vec![local, middle, global]));
    let at = |source: &str| entries.iter().position(|(_, s)| s == source).unwrap();
    assert!(at("/global") < at("/local"));
    assert_eq!(entries.len(), 2);
    assert_eq!(entries.last().unwrap(), &(val("X", "local"), "/local".to_string()));
}

#[test]
fn load_env_tags_with_the_path_of_the_registry() {
    let mut map = IndexMap::new();
    map.insert(
        "/as/discovered".to_string(),
        file_with_env(
            "/as/parsed",
            vec![
                EnvDirective::File(".env".to_string()),
                EnvDirective::Path("bin".to_string()),
            ],
        ),
    );
    assert_eq!(
        load_env(&map),
        vec![
            (EnvDirective::File(".env".to_string()), "/as/discovered".to_string()),
            (EnvDirective::Path("bin".to_string()), "/as/discovered".to_string()),
        ]
    );
    assert_eq!(load_env(&IndexMap::new()), Vec::new());
}

#[test]
fn env_file_joins_with_lowest_priority() {
    let resolved = sourced(&[("A", "from-config", "/w/.mise.toml"), ("B", "b", "/w/.mise.toml")]);
    let read = Some(vec![line("A", "from-file"), line("C", "c"), line("D", "d")]);
    let (merged, warn) = env_with_sources(resolved, &Some("/w/.env".to_string()), &read);
    assert!(!warn);
    assert_eq!(
        listed(&merged),
        vec![
            triple("A", "from-config", "/w/.mise.toml"),
            triple("B", "b", "/w/.mise.toml"),
            triple("C", "c", "/w/.env"),
            triple("D", "d", "/w/.env"),
        ]
    );
}

#[test]
fn env_file_last_line_of_a_variable_wins() {
    let resolved = sourced(&[("A", "a", "/cfg")]);
    let read = Some(vec![line("X", "1"), line("Y", "2"), line("X", "3"), line("A", "z")]);
    let (merged, warn) = env_with_sources(resolved, &Some(".env".to_string()), &read);
    assert!(!warn);
    assert_eq!(
        listed(&merged),
        vec![triple("A", "a", "/cfg"), triple("X", "3", ".env"), triple("Y", "2", ".env")]
    );
}

#[test]
fn env_file_missing_is_ignored() {
    let resolved = sourced(&[("A", "a", "/cfg")]);
    let (merged, warn) = env_with_sources(resolved, &Some("/w/.env".to_string()), &None);
    assert!(!warn);
    assert_eq!(listed(&merged), vec![triple("A", "a", "/cfg")]);
}

#[test]
fn env_file_not_named_is_ignored() {
    let resolved = sourced(&[("A", "a", "/cfg")]);
    let read = Some(vec![line("B", "b")]);
    let (merged, warn) = env_with_sources(resolved, &None, &read);
    assert!(!warn);
    assert_eq!(listed(&merged), vec![triple("A", "a", "/cfg")]);
    let (merged, warn) = env_with_sources(sourced(&[]), &None, &None);
    assert!(!warn);
    assert!(merged.is_empty());
}

#[test]
fn env_file_malformed_warns_and_contributes_nothing() {
    let resolved = sourced(&[("A", "a", "/cfg"), ("B", "b", "/cfg")]);
    let read = Some(vec![line("C", "c"), None, line("D", "d")]);
    let (merged, warn) = env_with_sources(resolved, &Some("/w/.env".to_string()), &read);
    assert!(warn);
    assert_eq!(listed(&merged), vec![triple("A", "a", "/cfg"), triple("B", "b", "/cfg")]);
    let (merged, warn) = env_with_sources(sourced(&[]), &Some("/w/.env".to_string()), &Some(vec![None]));
    assert!(warn);
    assert!(merged.is_empty());
}

#[test]
fn env_file_empty_changes_nothing() {
    let resolved = sourced(&[("A", "a", "/cfg")]);
    let (merged, warn) = env_with_sources(resolved, &Some("/w/.env".to_string()), &Some(Vec::new()));
    assert!(!warn);
    assert_eq!(listed(&merged), vec![triple("A", "a", "/cfg")]);
}

#[test]
fn env_file_into_empty_environment() {
    let read = Some(vec![line("B", "2"), line("A", "1")]);
    let (merged, warn) = env_with_sources(sourced(&[]), &Some("e".to_string()), &read);
    assert!(!warn);
    assert_eq!(listed(&merged), vec![triple("B", "2", "e"), triple("A", "1", "e")]);
}

#[test]
fn env_drops_the_sources_and_keeps_the_order() {
    let with_sources = sourced(&[("B", "2", "/x"), ("A", "1", "/y"), ("C", "", "/x")]);
    let plain = plain_env(&with_sources);
    let pairs: Vec<(String, String)> = plain.iter().map(|(k, v)| (k.clone(), v.clone())).collect();
    assert_eq!(
        pairs,
        vec![
            ("B".to_string(), "2".to_string()),
            ("A".to_string(), "1".to_string()),
            ("C".to_string(), "".to_string()),
        ]
    );
    assert!(plain_env(&sourced(&[])).is_empty());
}

#[test]
fn path_dirs_are_those_of_resolution() {
    let results = EnvResults {
        env: sourced(&[]),
        env_paths: strings(&["/w/bin", "/w/node_modules/.bin"]),
        env_files: Vec::new(),
    };
    assert_eq!(path_dirs(&results), &strings(&["/w/bin", "/w/node_modules/.bin"]));
}

#[test]
fn watch_files_are_config_files_and_env_files_each_once() {
    let map = files(vec![file_with_env("/w/.mise.toml", vec![]), file_with_env("/g", vec![])]);
    let env_files = strings(&["/w/.env", "/g", "/w/.env", "/w/.env.local"]);
    assert_eq!(
        watch_files(&map, &env_files),
        strings(&["/g", "/w/.env", "/w/.env.local", "/w/.mise.toml"])
    );
    assert_eq!(watch_files(&IndexMap::new(), &Vec::new()), Vec::<String>::new());
}

#[test]
fn watch_files_stand_in_ascending_order() {
    let map = files(vec![file_with_env("/b", vec![])]);
    assert_eq!(watch_files(&map, &strings(&["/a"])), strings(&["/a", "/b"]));
    let map = files(vec![file_with_env("/z", vec![]), file_with_env("/m", vec![])]);
    let watched = watch_files(&map, &strings(&["/y", "/a", "/m"]));
    assert_eq!(watched, strings(&["/a", "/m", "/y", "/z"]));
    let as_set: std::collections::BTreeSet<String> =
        strings(&["/z", "/m", "/y", "/a", "/m"]).into_iter().collect();
    assert_eq!(watched, as_set.into_iter().collect::<Vec<_>>());
}
