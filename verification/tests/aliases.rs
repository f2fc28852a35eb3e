use indexmap::IndexMap;
use mise_config::aliases::{
    config_alias, load_aliases, load_all_aliases, merge_aliases, merge_table, resolve_alias,
    set_alias,
};
use mise_config::keyed::KeyedVec;
use mise_config::model::{AliasMap, ConfigFile, Dialect, StrMap};

fn table(pairs: &[(&str, &str)]) -> StrMap {
    let mut t: StrMap = KeyedVec::new();
    for (k, v) in pairs {
        t.insert(k.to_string(), v.to_string());
    }
    t
}

fn alias_map(tools: &[(&str, &[(&str, &str)])]) -> AliasMap {
    let mut m: AliasMap = KeyedVec::new();
    for (tool, pairs) in tools {
        m.insert(tool.to_string(), table(pairs));
    }
    m
}

fn file_with_aliases(path: &str, tools: &[(&str, &[(&str, &str)])]) -> ConfigFile {
    let mut f = ConfigFile::new(path.to_string(), Dialect::Standard);
    f.aliases = alias_map(tools);
    f
}

fn files(list: Vec<ConfigFile>) -> IndexMap<String, ConfigFile> {
    let mut m = IndexMap::new();
    for f in list {
        m.insert(f.path.clone(), f);
    }
    m
}

fn alias(m: &AliasMap, tool: &str, name: &str) -> Option<String> {
    m.get(tool).and_then(|t| t.get(name)).cloned()
}

#[test]
fn alias_merge_last_file_wins() {
    let f1 = file_with_aliases("/f1", &[("node", &[("lts", "20")])]);
    let f2 = file_with_aliases("/f2", &[("node", &[("lts", "21")])]);
    let merged = load_aliases(&files(vec![f1, f2]));
    assert_eq!(alias(&merged, "node", "lts"), Some("21".to_string()));
    assert_eq!(merged.len(), 1);
    assert_eq!(merged.get("node").unwrap().len(), 1);
}

#[test]
fn alias_merge_first_file_wins_when_it_comes_last() {
    let f1 = file_with_aliases("/f1", &[("node", &[("lts", "20")])]);
    let f2 = file_with_aliases("/f2", &[("node", &[("lts", "21")])]);
    let merged = load_aliases(&files(vec![f2, f1]));
    assert_eq!(alias(&merged, "node", "lts"), Some("20".to_string()));
}

#[test]
fn alias_merge_is_per_tool_and_name() {
    let f1 = file_with_aliases(
        "/f1",
        &[("node", &[("lts", "20"), ("old", "16")]), ("python", &[("lts", "3.11")])],
    );
    let f2 = file_with_aliases("/f2", &[("node", &[("lts", "21"), ("new", "22")])]);
    let f3 = file_with_aliases("/f3", &[]);
    let merged = load_aliases(&files(vec![f1, f2, f3]));
    assert_eq!(alias(&merged, "node", "lts"), Some("21".to_string()));
    assert_eq!(alias(&merged, "node", "old"), Some("16".to_string()));
    assert_eq!(alias(&merged, "node", "new"), Some("22".to_string()));
    assert_eq!(alias(&merged, "python", "lts"), Some("3.11".to_string()));
    assert_eq!(alias(&merged, "python", "new"), None);
    assert_eq!(alias(&merged, "ruby", "lts"), None);
    assert_eq!(merged.len(), 2);
}

#[test]
fn alias_merge_of_no_files_is_empty() {
    let merged = load_aliases(&IndexMap::new());
    assert!(merged.is_empty());
}

#[test]
fn alias_merge_makes_no_empty_tables() {
    let f1 = file_with_aliases("/f1", &[("node", &[]), ("go", &[("stable", "1.22")])]);
    let merged = load_aliases(&files(vec![f1]));
    assert!(merged.get("node").is_none());
    assert_eq!(merged.len(), 1);
    assert_eq!(alias(&merged, "go", "stable"), Some("1.22".to_string()));
}

#[test]
fn set_alias_adds_and_replaces() {
    let mut m: AliasMap = KeyedVec::new();
    set_alias(&mut m, "node", "lts".to_string(), "18".to_string());
    set_alias(&mut m, "node", "next".to_string(), "22".to_string());
    set_alias(&mut m, "go", "lts".to_string(), "1.21".to_string());
    set_alias(&mut m, "node", "lts".to_string(), "20".to_string());
    assert_eq!(alias(&m, "node", "lts"), Some("20".to_string()));
    assert_eq!(alias(&m, "node", "next"), Some("22".to_string()));
    assert_eq!(alias(&m, "go", "lts"), Some("1.21".to_string()));
    assert_eq!(m.len(), 2);
    assert_eq!(m.key_at(0).unwrap(), "node");
    assert_eq!(m.get("node").unwrap().key_at(0).unwrap(), "lts");
}

#[test]
fn merge_table_and_merge_aliases_replace_names() {
    let mut m = alias_map(&[("node", &[("lts", "18"), ("old", "16")])]);
    merge_table(&mut m, "node", &table(&[("lts", "20")]));
    merge_table(&mut m, "go", &table(&[]));
    assert_eq!(alias(&m, "node", "lts"), Some("20".to_string()));
    assert_eq!(alias(&m, "node", "old"), Some("16".to_string()));
    assert!(m.get("go").is_none());
    merge_aliases(
        &mut m,
        &alias_map(&[("node", &[("old", "14")]), ("ruby", &[("lts", "3.3")])]),
    );
    assert_eq!(alias(&m, "node", "lts"), Some("20".to_string()));
    assert_eq!(alias(&m, "node", "old"), Some("14".to_string()));
    assert_eq!(alias(&m, "ruby", "lts"), Some("3.3".to_string()));
}

#[test]
fn all_aliases_configuration_wins_over_tools() {
    let config = alias_map(&[("node", &[("lts", "20")])]);
    let provided = vec![
        ("node".to_string(), table(&[("lts", "18"), ("lts-hydrogen", "18")])),
        ("python".to_string(), table(&[("latest", "3.12")])),
    ];
    let all = load_all_aliases(&config, &provided);
    assert_eq!(alias(&all, "node", "lts"), Some("20".to_string()));
    assert_eq!(alias(&all, "node", "lts-hydrogen"), Some("18".to_string()));
    assert_eq!(alias(&all, "python", "latest"), Some("3.12".to_string()));
    assert_eq!(alias(&all, "python", "lts"), None);
}

#[test]
fn all_aliases_tool_without_table_contributes_nothing() {
    let config = alias_map(&[("go", &[("stable", "1.22")])]);
    let provided = vec![("node".to_string(), table(&[])), ("ruby".to_string(), table(&[]))];
    let all = load_all_aliases(&config, &provided);
    assert_eq!(all.len(), 1);
    assert_eq!(alias(&all, "go", "stable"), Some("1.22".to_string()));
    assert!(all.get("node").is_none());
}

#[test]
fn all_aliases_last_table_of_a_tool_wins() {
    let config: AliasMap = KeyedVec::new();
    let provided = vec![
        ("node".to_string(), table(&[("lts", "18"), ("a", "1")])),
        ("node".to_string(), table(&[("lts", "20")])),
    ];
    let all = load_all_aliases(&config, &provided);
    assert_eq!(alias(&all, "node", "lts"), Some("20".to_string()));
    assert_eq!(alias(&all, "node", "a"), Some("1".to_string()));
}

#[test]
fn resolve_alias_prefers_configuration_then_tool_then_itself() {
    let config = alias_map(&[("node", &[("lts", "20")])]);
    let tool = table(&[("lts", "18"), ("latest", "22")]);
    assert_eq!(resolve_alias(&config, "node", &tool, "lts"), "20");
    assert_eq!(resolve_alias(&config, "node", &tool, "latest"), "22");
    assert_eq!(resolve_alias(&config, "node", &tool, "19.1.0"), "19.1.0");
    assert_eq!(resolve_alias(&config, "python", &tool, "lts"), "18");
    assert_eq!(resolve_alias(&config, "python", &table(&[]), "lts"), "lts");
    assert_eq!(resolve_alias(&config, "node", &table(&[]), ""), "");
}

#[test]
fn config_alias_only_asks_the_configuration() {
    let config = alias_map(&[("node", &[("lts", "20")])]);
    assert_eq!(config_alias(&config, "node", "lts"), Some("20".to_string()));
    assert_eq!(config_alias(&config, "node", "latest"), None);
    assert_eq!(config_alias(&config, "go", "lts"), None);
}
