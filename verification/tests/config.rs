use either::Either;
use indexmap::IndexMap;
use mise_config::config::{
    get_project_root, load_repo_urls, store_once, validate_files, Config,
};
use mise_config::environment::EnvResults;
use mise_config::keyed::KeyedVec;
use mise_config::model::{ConfigFile, Dialect, EnvDirective, StrMap, Task, Version};
use mise_config::registry::ConfigError;

fn strings(v: &[&str]) -> Vec<String> {
    v.iter().map(|s| s.to_string()).collect()
}

fn table(pairs: &[(&str, &str)]) -> StrMap {
    let mut t: StrMap = KeyedVec::new();
    for (k, v) in pairs {
        t.insert(k.to_string(), v.to_string());
    }
    t
}

fn task(name: &str, aliases: &[&str], source: &str) -> Task {
    Task {
        name: name.to_string(),
        description: String::new(),
        aliases: strings(aliases),
        config_source: source.to_string(),
    }
}

fn file(path: &str) -> ConfigFile {
    ConfigFile::new(path.to_string(), Dialect::Standard)
}

fn files(list: Vec<ConfigFile>) -> IndexMap<String, ConfigFile> {
    let mut m = IndexMap::new();
    for f in list {
        m.insert(f.path.clone(), f);
    }
    m
}

fn results(vars: &[(&str, &str, &str)], paths: &[&str], env_files: &[&str]) -> EnvResults {
    let mut env = IndexMap::new();
    for (k, v, s) in vars {
        env.insert(k.to_string(), (v.to_string(), s.to_string()));
    }
    EnvResults { env, env_paths: strings(paths), env_files: strings(env_files) }
}

fn outcomes(map: IndexMap<String, ConfigFile>) -> Vec<(String, Result<ConfigFile, String>)> {
    map.into_iter().map(|(path, file)| (path, Ok(file))).collect()
}

fn current() -> Version {
    Version::new(2024, 1, 16)
}

fn project() -> IndexMap<String, ConfigFile> {
    let mut local = file("/w/p/.mise.toml");
    local.project_root = Some("/w/p".to_string());
    local.min_version = Some(Version::new(2024, 1, 0));
    local.env_entries = vec![EnvDirective::Val("NODE_ENV".to_string(), "dev".to_string())];
    local.tasks = vec![task("build", &["b"], "/w/p/.mise.toml")];
    local.plugins = table(&[("node", "https://example.com/local-node.git")]);
    let mut node = table(&[("lts", "20")]);
    node.insert("next".to_string(), "22".to_string());
    local.aliases.insert("node".to_string(), node);
    let mut versions = ConfigFile::new("/w/.nvmrc".to_string(), Dialect::Legacy);
    versions.project_root = Some("/w".to_string());
    let mut global = file("/home/me/.config/mise/config.toml");
    global.plugins =
        table(&[("node", "https://example.com/node.git"), ("zig", "https://example.com/zig.git")]);
    global.aliases.insert("node".to_string(), table(&[("lts", "18")]));
    files(vec![local, versions, global])
}

#[test]
fn test_load() {
    let config = Config::load(outcomes(project()), &current()).unwrap();
    assert_eq!(
        config.config_files.keys().cloned().collect::<Vec<_>>(),
        strings(&["/w/p/.mise.toml", "/w/.nvmrc", "/home/me/.config/mise/config.toml"])
    );
    assert_eq!(config.project_root, Some("/w/p".to_string()));
    assert_eq!(config.aliases.len(), 1);
    let node = config.aliases.get("node").unwrap();
    assert_eq!(node.get("lts"), Some(&"18".to_string()));
    assert_eq!(node.get("next"), Some(&"22".to_string()));
    assert_eq!(config.repo_urls.get("node"), Some(&"https://example.com/node.git".to_string()));
    assert_eq!(config.repo_urls.get("zig"), Some(&"https://example.com/zig.git".to_string()));
    assert!(config.views.env.is_none());
    assert!(config.views.env_with_sources.is_none());
    assert!(config.views.all_aliases.is_none());
    assert!(config.views.shorthands.is_none());
    assert!(config.views.tasks.is_none());
    assert!(config.views.tasks_with_aliases.is_none());
    assert_eq!(config.config_files["/w/.nvmrc"].dialect, Dialect::Legacy);
}

#[test]
fn load_of_no_files() {
    let config = Config::from_files(IndexMap::new(), &current()).unwrap();
    assert!(config.config_files.is_empty());
    assert!(config.aliases.is_empty());
    assert_eq!(config.project_root, None);
    assert!(config.repo_urls.is_empty());
}

#[test]
fn load_fails_when_a_file_needs_a_later_version() {
    let mut f = file("/w/.mise.toml");
    f.min_version = Some(Version::new(2024, 2, 0));
    let err = Config::from_files(files(vec![file("/a"), f]), &current()).unwrap_err();
    assert_eq!(
        err,
        ConfigError::MinVersion { required: Version::new(2024, 2, 0), current: current() }
    );
}

#[test]
fn load_names_the_first_file_that_is_not_satisfied() {
    let mut a = file("/a");
    a.min_version = Some(Version::new(2024, 1, 16));
    let mut b = file("/b");
    b.min_version = Some(Version::new(2025, 0, 0));
    let mut c = file("/c");
    c.min_version = Some(Version::new(2024, 1, 17));
    let err = Config::from_files(files(vec![a, b, c]), &current()).unwrap_err();
    assert_eq!(
        err,
        ConfigError::MinVersion { required: Version::new(2025, 0, 0), current: current() }
    );
}

#[test]
fn load_succeeds_with_satisfied_or_absent_minimum() {
    let mut equal = file("/equal");
    equal.min_version = Some(current());
    let mut older = file("/older");
    older.min_version = Some(Version::new(2023, 12, 31));
    let none = file("/none");
    assert!(Config::from_files(files(vec![equal, older, none]), &current()).is_ok());
}

#[test]
fn validate_follows_the_version_given() {
    let config = Config::from_files(project(), &current()).unwrap();
    assert_eq!(config.validate(&current()), Ok(()));
    assert_eq!(config.validate(&Version::new(2024, 1, 0)), Ok(()));
    assert_eq!(
        config.validate(&Version::new(2023, 9, 9)),
        Err(ConfigError::MinVersion {
            required: Version::new(2024, 1, 0),
            current: Version::new(2023, 9, 9)
        })
    );
    assert_eq!(validate_files(&IndexMap::new(), &Version::new(0, 0, 0)), Ok(()));
}

#[test]
fn project_root_of_the_first_file_that_names_one() {
    let mut a = file("/a");
    a.project_root = None;
    let mut b = file("/b");
    b.project_root = Some("/root/b".to_string());
    let mut c = file("/c");
    c.project_root = Some("/root/c".to_string());
    assert_eq!(get_project_root(&files(vec![a, b, c])), Some("/root/b".to_string()));
    assert_eq!(get_project_root(&files(vec![file("/x"), file("/y")])), None);
    assert_eq!(get_project_root(&IndexMap::new()), None);
}

#[test]
fn repo_urls_last_file_wins() {
    let mut a = file("/a");
    a.plugins = table(&[("node", "one"), ("go", "go-one")]);
    let mut b = file("/b");
    b.plugins = table(&[("node", "two")]);
    let urls = load_repo_urls(&files(vec![a, b]));
    assert_eq!(urls.get("node"), Some(&"two".to_string()));
    assert_eq!(urls.get("go"), Some(&"go-one".to_string()));
    assert_eq!(urls.get("zig"), None);
    assert_eq!(urls.len(), 2);
}

#[test]
fn repo_url_from_files_then_from_shorthands() {
    let mut config = Config::from_files(project(), &current()).unwrap();
    let shorthands = table(&[("node", "short-node"), ("deno", "short-deno")]);
    assert_eq!(
        config.get_repo_url("node", shorthands),
        Some("https://example.com/node.git".to_string())
    );
    assert_eq!(config.get_repo_url("deno", table(&[])), Some("short-deno".to_string()));
    assert_eq!(config.get_repo_url("elixir", table(&[("elixir", "late")])), None);
}

#[test]
fn configured_repo_url_only_asks_the_files() {
    let config = Config::from_files(project(), &current()).unwrap();
    assert_eq!(config.configured_repo_url("zig"), Some("https://example.com/zig.git".to_string()));
    assert_eq!(config.configured_repo_url("deno"), None);
    assert!(config.views.shorthands.is_none());
}

#[test]
fn shorthands_are_stored_once() {
    let mut config = Config::from_files(project(), &current()).unwrap();
    let first = config.get_shorthands(table(&[("a", "1")])).get("a").cloned();
    assert_eq!(first, Some("1".to_string()));
    let second = config.get_shorthands(table(&[("a", "2"), ("b", "3")]));
    assert_eq!(second.get("a"), Some(&"1".to_string()));
    assert_eq!(second.get("b"), None);
    assert_eq!(second.len(), 1);
}

#[test]
fn env_results_are_stored_once() {
    let mut config = Config::from_files(project(), &current()).unwrap();
    let first = config.env_results(results(&[("A", "1", "/f")], &["/bin1"], &["/e1"]));
    assert_eq!(first.env_paths, strings(&["/bin1"]));
    let second = config.env_results(results(&[("A", "2", "/g")], &["/bin2"], &["/e2"]));
    assert_eq!(second.env_paths, strings(&["/bin1"]));
    assert_eq!(second.env["A"], ("1".to_string(), "/f".to_string()));
    assert_eq!(config.path_dirs(results(&[], &["/bin3"], &[])), &strings(&["/bin1"]));
}

#[test]
fn env_with_sources_is_computed_once() {
    let mut config = Config::from_files(project(), &current()).unwrap();
    let env_file = Some("/w/.env".to_string());
    let read = Some(vec![Some(("B".to_string(), "file".to_string()))]);
    let (first, warn) =
        config.env_with_sources(results(&[("A", "1", "/f")], &[], &[]), &env_file, &read);
    let first: Vec<_> = first.iter().map(|(k, v)| (k.clone(), v.clone())).collect();
    assert!(!warn);
    assert_eq!(
        first,
        vec![
            ("A".to_string(), ("1".to_string(), "/f".to_string())),
            ("B".to_string(), ("file".to_string(), "/w/.env".to_string())),
        ]
    );
    let other = Some(vec![Some(("C".to_string(), "late".to_string())), None]);
    let (second, warn) =
        config.env_with_sources(results(&[("Z", "9", "/z")], &[], &[]), &env_file, &other);
    let second: Vec<_> = second.iter().map(|(k, v)| (k.clone(), v.clone())).collect();
    assert!(!warn);
    assert_eq!(second, first);
    let (plain, warn) = config.env(results(&[], &[], &[]), &None, &None);
    assert!(!warn);
    assert_eq!(
        plain.into_iter().collect::<Vec<_>>(),
        vec![("A".to_string(), "1".to_string()), ("B".to_string(), "file".to_string())]
    );
}

#[test]
fn env_with_sources_builds_on_stored_results() {
    let mut config = Config::from_files(project(), &current()).unwrap();
    config.env_results(results(&[("A", "stored", "/f")], &[], &[]));
    let (env, warn) = config.env(results(&[("A", "given", "/g")], &[], &[]), &None, &None);
    assert!(!warn);
    assert_eq!(env.into_iter().collect::<Vec<_>>(), vec![("A".to_string(), "stored".to_string())]);
}

#[test]
fn env_with_sources_warns_of_a_malformed_file_when_it_computes() {
    let mut config = Config::from_files(project(), &current()).unwrap();
    let env_file = Some("/w/.env".to_string());
    let read = Some(vec![Some(("B".to_string(), "file".to_string())), None]);
    let (env, warn) = config.env(results(&[("A", "1", "/f")], &[], &[]), &env_file, &read);
    assert!(warn);
    assert_eq!(env.into_iter().collect::<Vec<_>>(), vec![("A".to_string(), "1".to_string())]);
    let (_, again) = config.env_with_sources(results(&[], &[], &[]), &env_file, &read);
    assert!(!again);
}

#[test]
fn all_aliases_are_computed_once() {
    let mut config = Config::from_files(project(), &current()).unwrap();
    let provided = vec![("node".to_string(), table(&[("lts", "16"), ("hydrogen", "18")]))];
    let first = config.get_all_aliases(&provided);
    assert_eq!(first.get("node").unwrap().get("lts"), Some(&"18".to_string()));
    assert_eq!(first.get("node").unwrap().get("hydrogen"), Some(&"18".to_string()));
    assert_eq!(first.get("node").unwrap().get("next"), Some(&"22".to_string()));
    let later = vec![("node".to_string(), table(&[("iron", "20")]))];
    let second = config.get_all_aliases(&later);
    assert_eq!(second.get("node").unwrap().get("iron"), None);
    assert_eq!(second.get("node").unwrap().get("hydrogen"), Some(&"18".to_string()));
    assert_eq!(config.aliases.get("node").unwrap().get("hydrogen"), None);
}

#[test]
fn config_resolve_alias() {
    let config = Config::from_files(project(), &current()).unwrap();
    let tool = table(&[("lts", "16"), ("latest", "21")]);
    assert_eq!(config.resolve_alias("node", &tool, "lts"), "18");
    assert_eq!(config.resolve_alias("node", &tool, "latest"), "21");
    assert_eq!(config.resolve_alias("node", &tool, "20.1.0"), "20.1.0");
}

#[test]
fn tasks_are_computed_once() {
    let mut config = Config::from_files(project(), &current()).unwrap();
    let sources = vec![Either::Left(0), Either::Right("/w/p/.mise/tasks/lint".to_string())];
    let parsed = vec![None, Some(task("lint", &["l"], "/w/p/.mise/tasks/lint"))];
    {
        let named = config.tasks(&sources, &parsed);
        assert_eq!(named.len(), 2);
        assert_eq!(named.get("build"), Some(&task("build", &["b"], "/w/p/.mise.toml")));
        assert_eq!(named.get("lint"), Some(&task("lint", &["l"], "/w/p/.mise/tasks/lint")));
        assert_eq!(named.get("b"), None);
    }
    {
        let again = config.tasks(&Vec::new(), &Vec::new());
        assert_eq!(again.len(), 2);
        assert_eq!(again.get("build"), Some(&task("build", &["b"], "/w/p/.mise.toml")));
    }
    {
        let all = config.tasks_with_aliases(&sources, &parsed);
        assert_eq!(all.len(), 4);
        assert_eq!(all.get("b"), Some(&task("build", &["b"], "/w/p/.mise.toml")));
        assert_eq!(all.get("l"), Some(&task("lint", &["l"], "/w/p/.mise/tasks/lint")));
    }
    let again = config.tasks_with_aliases(&Vec::new(), &Vec::new());
    assert_eq!(again.len(), 4);
    let fresh = config.load_all_tasks(&Vec::new(), &Vec::new());
    assert!(fresh.is_empty());
}

#[test]
fn config_watch_files() {
    let mut config = Config::from_files(project(), &current()).unwrap();
    let watched = config.watch_files(results(&[], &[], &["/w/p/.env", "/w/.nvmrc"]));
    assert_eq!(
        watched,
        strings(&[
            "/home/me/.config/mise/config.toml",
            "/w/.nvmrc",
            "/w/p/.env",
            "/w/p/.mise.toml",
        ])
    );
    let again = config.watch_files(results(&[], &[], &["/other"]));
    assert_eq!(again, watched);
}

#[test]
fn store_once_keeps_the_first_value() {
    let mut cell: Option<u32> = None;
    assert_eq!(*store_once(&mut cell, 1), 1);
    assert_eq!(*store_once(&mut cell, 2), 1);
    assert_eq!(cell, Some(1));
    let mut full = Some("kept".to_string());
    assert_eq!(store_once(&mut full, "dropped".to_string()), "kept");
}

#[test]
fn config_paths_are_found_beside_the_configuration() {
    let found = strings(&["/a", "/b", "/a"]);
    let paths = mise_config::config::load_config_paths(&found, &strings(&["/b", "/g"]), &Vec::new());
    assert_eq!(paths, strings(&["/a", "/b", "/g"]));
    assert!(mise_config::config::is_global_config("/g", &strings(&["/g"]), &Vec::new()));
}

#[test]
fn load_fails_when_one_file_does_not_parse() {
    let mut parsed = outcomes(project());
    parsed.insert(1, ("/w/broken.toml".to_string(), Err("unexpected token".to_string())));
    let err = Config::load(parsed, &current()).unwrap_err();
    assert_eq!(
        err,
        ConfigError::Parse { path: "/w/broken.toml".to_string(), cause: "unexpected token".to_string() }
    );
    assert_eq!(err.message(), "error parsing config file: /w/broken.toml");
}

#[test]
fn load_names_the_first_file_that_does_not_parse() {
    let parsed = vec![
        ("/a".to_string(), Ok(file("/a"))),
        ("/b".to_string(), Err("first".to_string())),
        ("/c".to_string(), Err("second".to_string())),
    ];
    let err = Config::load(parsed, &current()).unwrap_err();
    assert_eq!(err, ConfigError::Parse { path: "/b".to_string(), cause: "first".to_string() });
    let only = vec![("/x".to_string(), Err("bad".to_string()))];
    assert!(Config::load(only, &current()).is_err());
}

#[test]
fn load_parse_failure_comes_before_version_failure() {
    let mut newer = file("/newer");
    newer.min_version = Some(Version::new(9999, 0, 0));
    let parsed =
        vec![("/newer".to_string(), Ok(newer)), ("/broken".to_string(), Err("bad".to_string()))];
    let err = Config::load(parsed, &current()).unwrap_err();
    assert_eq!(err, ConfigError::Parse { path: "/broken".to_string(), cause: "bad".to_string() });
}

#[test]
fn load_of_parsed_files_merges_and_validates() {
    let mut newer = file("/newer");
    newer.min_version = Some(Version::new(2024, 2, 0));
    let err = Config::load(outcomes(files(vec![file("/a"), newer])), &current()).unwrap_err();
    assert_eq!(
        err,
        ConfigError::MinVersion { required: Version::new(2024, 2, 0), current: current() }
    );
    let empty = Config::load(Vec::new(), &current()).unwrap();
    assert!(empty.config_files.is_empty());
    let config = Config::load(outcomes(project()), &current()).unwrap();
    assert_eq!(config.project_root, Some("/w/p".to_string()));
    assert_eq!(config.aliases.get("node").unwrap().get("lts"), Some(&"18".to_string()));
}
