//! The configuration as a whole: the files in discovery order, what is
//! merged from them at once, and the views that are computed when first
//! asked for and kept from then on.

use crate::aliases::{
    alias_in, alias_maps, load_aliases, load_all_aliases, merged_alias, provided_alias,
    resolve_alias, tables_filled,
};
use crate::assoc::{
    distinct_keys, lemma_distinct_take, lemma_lookup_push, lemma_put, lookup,
};
use crate::bindings::{
    config_entries, config_map_get_index, config_map_len, sourced_clone, sourced_entries,
    sources_view, var_entries,
};
use crate::environment::{
    env_file_malformed, env_with_file, env_with_sources, plain_env, plain_vars, watch_files,
    EnvResults,
};
use crate::keyed::KeyedVec;
use crate::model::{
    version_le, AliasMap, ConfigFile, ConfigFileView, StrMap, Task, TaskMap, Version,
};
use crate::registry::{
    entry_files, files_of, get_tracked_config_files, kept_files, load_all_config_files,
    loaded_files, outcomes_view, paths_of, ConfigError,
};
use crate::order::ascending;
use crate::tasks::{collected_tasks, load_all_tasks, named_tasks, task_for};
use either::Either;
use indexmap::IndexMap;
use vstd::prelude::*;

pub use crate::paths::{
    global_config_files, is_global_config, load_config_paths, system_config_files,
};

verus! {

/// The project root of the first file that names one.
pub open spec fn first_root(files: Seq<ConfigFileView>) -> Option<Seq<char>>
    decreases files.len(),
{
    if files.len() == 0 {
        None
    } else {
        match first_root(files.drop_last()) {
            Some(root) => Some(root),
            None => files.last().project_root,
        }
    }
}

/// Whether a file asking for `min` can be read by version `current`.
pub open spec fn satisfied(min: Option<Version>, current: Version) -> bool {
    match min {
        Some(m) => version_le(m, current),
        None => true,
    }
}

/// The minimum version of the first file that `current` does not satisfy.
pub open spec fn first_unsatisfied(files: Seq<ConfigFileView>, current: Version) -> Option<Version>
    decreases files.len(),
{
    if files.len() == 0 {
        None
    } else {
        match first_unsatisfied(files.drop_last(), current) {
            Some(m) => Some(m),
            None => if satisfied(files.last().min_version, current) {
                None
            } else {
                files.last().min_version
            },
        }
    }
}

/// Where the plugin of `tool` is fetched from according to the files: the
/// last file that says decides.
pub open spec fn plugin_url(files: Seq<ConfigFileView>, tool: Seq<char>) -> Option<Seq<char>>
    decreases files.len(),
{
    if files.len() == 0 {
        None
    } else {
        match lookup(files.last().plugins, tool) {
            Some(url) => Some(url),
            None => plugin_url(files.drop_last(), tool),
        }
    }
}

/// The value of a view after it was asked for: what was stored, or else
/// what was computed on this occasion.
pub open spec fn kept<T>(stored: Option<T>, computed: T) -> T {
    match stored {
        Some(value) => value,
        None => computed,
    }
}

/// Stores `computed` in a cell that holds nothing yet, and hands out what
/// the cell holds then. A cell that holds a value keeps it, and `computed`
/// is dropped.
pub fn store_once<T>(cell: &mut Option<T>, computed: T) -> (r: &T)
    ensures
        *final(cell) == Some(kept(*old(cell), computed)),
        *r == kept(*old(cell), computed),
{
    if cell.is_none() {
        *cell = Some(computed);
    }
    cell.as_ref().unwrap()
}

/// Asking again gives what the first asking gave, whatever is computed on
/// the second occasion.
pub proof fn lemma_kept_once<T>(stored: Option<T>, first: T, second: T)
    ensures
        kept(Some(kept(stored, first)), second) == kept(stored, first),
{
}

/// Every file is satisfied exactly when none is the first unsatisfied one.
pub proof fn lemma_first_unsatisfied(files: Seq<ConfigFileView>, current: Version)
    ensures
        first_unsatisfied(files, current) is None <==> forall|i: int|
            0 <= i < files.len() ==> satisfied((#[trigger] files[i]).min_version, current),
        first_unsatisfied(files, current) matches Some(m) ==> !version_le(m, current) && exists|
            i: int,
        |
            0 <= i < files.len() && (#[trigger] files[i]).min_version == Some(m),
    decreases files.len(),
{
    if files.len() > 0 {
        let rest = files.drop_last();
        let n = files.len() - 1;
        lemma_first_unsatisfied(rest, current);
        match first_unsatisfied(rest, current) {
            Some(m) => {
                let i = choose|i: int| 0 <= i < rest.len() && (#[trigger] rest[i]).min_version == Some(m);
                assert(rest[i] == files[i]);
                assert(!satisfied(files[i].min_version, current));
            },
            None => {
                assert forall|i: int| 0 <= i < n implies satisfied(
                    (#[trigger] files[i]).min_version,
                    current,
                ) by {
                    assert(rest[i] == files[i]);
                }
                if !satisfied(files[n].min_version, current) {
                    assert(files[n].min_version == Some(files[n].min_version.unwrap()));
                }
            },
        }
    }
}

/// A file that names a root, after files that name none, decides the root.
proof fn lemma_first_root_found(files: Seq<ConfigFileView>, i: int)
    requires
        0 <= i < files.len(),
        files[i].project_root is Some,
        first_root(files.take(i)) is None,
    ensures
        first_root(files) == files[i].project_root,
    decreases files.len(),
{
    let rest = files.drop_last();
    if i == files.len() - 1 {
        assert(rest =~= files.take(i));
    } else {
        assert(rest[i] == files[i]);
        assert(rest.take(i) =~= files.take(i));
        lemma_first_root_found(rest, i);
    }
}

/// A file that is not satisfied, after files that are, is the first such.
proof fn lemma_first_unsatisfied_found(files: Seq<ConfigFileView>, current: Version, i: int)
    requires
        0 <= i < files.len(),
        !satisfied(files[i].min_version, current),
        first_unsatisfied(files.take(i), current) is None,
    ensures
        first_unsatisfied(files, current) == files[i].min_version,
    decreases files.len(),
{
    let rest = files.drop_last();
    if i == files.len() - 1 {
        assert(rest =~= files.take(i));
    } else {
        assert(rest[i] == files[i]);
        assert(rest.take(i) =~= files.take(i));
        lemma_first_unsatisfied_found(rest, current, i);
    }
}

/// The project root of the configuration: that of the first file in
/// discovery order that names one.
pub fn get_project_root(config_files: &IndexMap<String, ConfigFile>) -> (r: Option<String>)
    ensures
        r.deep_view() == first_root(files_of(*config_files)),
{
    let ghost files = files_of(*config_files);
    let n = config_map_len(config_files);
    let mut i: usize = 0;
    assert(files.take(0) =~= Seq::empty());
    while i < n
        invariant
            i <= n,
            n == files.len(),
            files == files_of(*config_files),
            first_root(files.take(i as int)) is None,
        decreases n - i,
    {
        proof {
            assert(files.take(i + 1).drop_last() =~= files.take(i as int));
            assert(files.take(i + 1).last() == files[i as int]);
        }
        match config_map_get_index(config_files, i) {
            Some((_, file)) => match &file.project_root {
                Some(root) => {
                    proof {
                        lemma_first_root_found(files, i as int);
                    }
                    return Some(root.clone());
                },
                None => {},
            },
            None => {},
        }
        i += 1;
    }
    assert(files.take(n as int) =~= files);
    None
}

/// Checks that the running version satisfies every file: the error names
/// the minimum of the first file that it does not satisfy.
pub fn validate_files(config_files: &IndexMap<String, ConfigFile>, current: &Version) -> (r: Result<
    (),
    ConfigError,
>)
    ensures
        match r {
            Ok(_) => first_unsatisfied(files_of(*config_files), *current) is None,
            Err(e) => first_unsatisfied(files_of(*config_files), *current) matches Some(m) && e
                == (ConfigError::MinVersion { required: m, current: *current }),
        },
{
    let ghost files = files_of(*config_files);
    let n = config_map_len(config_files);
    let mut i: usize = 0;
    assert(files.take(0) =~= Seq::empty());
    while i < n
        invariant
            i <= n,
            n == files.len(),
            files == files_of(*config_files),
            first_unsatisfied(files.take(i as int), *current) is None,
        decreases n - i,
    {
        proof {
            assert(files.take(i + 1).drop_last() =~= files.take(i as int));
            assert(files.take(i + 1).last() == files[i as int]);
        }
        match config_map_get_index(config_files, i) {
            Some((_, file)) => match file.min_version {
                Some(min) => {
                    if !current.at_least(&min) {
                        proof {
                            lemma_first_unsatisfied_found(files, *current, i as int);
                        }
                        return Err(ConfigError::MinVersion { required: min, current: *current });
                    }
                },
                None => {},
            },
            None => {},
        }
        i += 1;
    }
    assert(files.take(n as int) =~= files);
    Ok(())
}

/// Enters every pair of `from`, replacing what the keys stood for.
fn merge_str_map(into: &mut StrMap, from: &StrMap)
    ensures
        forall|k: Seq<char>| #[trigger]
            lookup(final(into)@, k) == match lookup(from@, k) {
                Some(v) => Some(v),
                None => lookup(old(into)@, k),
            },
{
    let n = from.len();
    let mut j: usize = 0;
    while j < n
        invariant
            j <= n,
            n == from@.len(),
            distinct_keys(from@),
            forall|k: Seq<char>| #[trigger]
                lookup(into@, k) == match lookup(from@.take(j as int), k) {
                    Some(v) => Some(v),
                    None => lookup(old(into)@, k),
                },
        decreases n - j,
    {
        let ghost seen = from@.take(j as int);
        let ghost before = into@;
        proof {
            assert(from@.take(j + 1) =~= seen.push(from@[j as int]));
            lemma_distinct_take(from@, j + 1);
            lemma_lookup_push(seen, from@[j as int]);
        }
        match from.entry_at(j) {
            Some((key, value)) => {
                into.insert(key.clone(), value.clone());
                proof {
                    lemma_put(before, from@[j as int].0, from@[j as int].1);
                }
            },
            None => {},
        }
        j += 1;
    }
    assert(from@.take(n as int) =~= from@);
}

/// Where the plugins are fetched from according to the files.
pub fn load_repo_urls(config_files: &IndexMap<String, ConfigFile>) -> (r: StrMap)
    ensures
        forall|k: Seq<char>| #[trigger] lookup(r@, k) == plugin_url(files_of(*config_files), k),
{
    let ghost files = files_of(*config_files);
    let mut r: StrMap = KeyedVec::new();
    let n = config_map_len(config_files);
    let mut i: usize = 0;
    assert(files.take(0) =~= Seq::empty());
    while i < n
        invariant
            i <= n,
            n == files.len(),
            files == files_of(*config_files),
            forall|k: Seq<char>| #[trigger] lookup(r@, k) == plugin_url(files.take(i as int), k),
        decreases n - i,
    {
        proof {
            assert(files.take(i + 1).drop_last() =~= files.take(i as int));
            assert(files.take(i + 1).last() == files[i as int]);
        }
        match config_map_get_index(config_files, i) {
            Some((_, file)) => {
                merge_str_map(&mut r, &file.plugins);
            },
            None => {},
        }
        i += 1;
    }
    assert(files.take(n as int) =~= files);
    r
}

/// The views of a configuration that are computed when first asked for.
/// `None` stands for a view that was not asked for yet.
#[derive(Debug)]
pub struct Views {
    /// What resolution made of the directives.
    pub env: Option<EnvResults>,
    /// The resolved variables, joined by those of the env file.
    pub env_with_sources: Option<IndexMap<String, (String, String)>>,
    /// The aliases of the configuration and of the tools.
    pub all_aliases: Option<AliasMap>,
    /// The table from a tool's short name to the place of its plugin.
    pub shorthands: Option<StrMap>,
    /// The tasks by name.
    pub tasks: Option<TaskMap>,
    /// The tasks by name and by alias.
    pub tasks_with_aliases: Option<TaskMap>,
}

/// What is stored is kept for good: where `before` holds a value, `after`
/// holds the same.
pub open spec fn keeps<T>(before: Option<T>, after: Option<T>) -> bool {
    before is Some ==> after == before
}

impl Views {
    /// No view was asked for yet.
    pub open spec fn none_stored(&self) -> bool {
        &&& self.env is None
        &&& self.env_with_sources is None
        &&& self.all_aliases is None
        &&& self.shorthands is None
        &&& self.tasks is None
        &&& self.tasks_with_aliases is None
    }

    /// Every view that `before` held is held unchanged.
    pub open spec fn grown_from(&self, before: &Views) -> bool {
        &&& keeps(before.env, self.env)
        &&& keeps(before.env_with_sources, self.env_with_sources)
        &&& keeps(before.all_aliases, self.all_aliases)
        &&& keeps(before.shorthands, self.shorthands)
        &&& keeps(before.tasks, self.tasks)
        &&& keeps(before.tasks_with_aliases, self.tasks_with_aliases)
    }

    /// Views only grow: what is stored after any number of steps that each
    /// keep what was stored is what was stored first.
    pub proof fn lemma_grown_transitive(first: Views, second: Views, third: Views)
        requires
            second.grown_from(&first),
            third.grown_from(&second),
        ensures
            third.grown_from(&first),
    {
    }
}

/// The configuration that holds for one working directory.
#[derive(Debug)]
pub struct Config {
    /// The aliases that the configuration files define.
    pub aliases: AliasMap,
    /// The configuration files by path, in discovery order.
    pub config_files: IndexMap<String, ConfigFile>,
    /// The project root of the first file that names one.
    pub project_root: Option<String>,
    /// Where the configuration files say that plugins are fetched from.
    pub repo_urls: StrMap,
    /// The views as far as they were asked for.
    pub views: Views,
}

impl Config {
    /// The two configurations differ in their views at most.
    pub open spec fn same_files(&self, other: &Config) -> bool {
        &&& self.aliases == other.aliases
        &&& self.config_files == other.config_files
        &&& self.project_root == other.project_root
        &&& self.repo_urls == other.repo_urls
    }

    /// What is merged from `files` at once.
    pub open spec fn merged_from(&self, files: Seq<ConfigFileView>) -> bool {
        &&& forall|t: Seq<char>, n: Seq<char>| #[trigger]
            alias_in(self.aliases@, t, n) == merged_alias(alias_maps(files), t, n)
        &&& tables_filled(self.aliases@)
        &&& self.project_root.deep_view() == first_root(files)
        &&& forall|k: Seq<char>| #[trigger] lookup(self.repo_urls@, k) == plugin_url(files, k)
    }

    /// The configuration of the files that parsed, which stand in discovery
    /// order. It fails where a file asks for a later version of the program
    /// than `current`; else the files are merged and no view is computed.
    pub fn from_files(config_files: IndexMap<String, ConfigFile>, current: &Version) -> (r: Result<
        Config,
        ConfigError,
    >)
        ensures
            match r {
                Ok(config) => first_unsatisfied(files_of(config_files), *current) is None
                    && config.config_files == config_files && config.merged_from(
                    files_of(config_files),
                ) && config.views.none_stored(),
                Err(e) => first_unsatisfied(files_of(config_files), *current) matches Some(m) && e
                    == (ConfigError::MinVersion { required: m, current: *current }),
            },
    {
        let aliases = load_aliases(&config_files);
        let project_root = get_project_root(&config_files);
        let repo_urls = load_repo_urls(&config_files);
        let config = Config {
            aliases,
            config_files,
            project_root,
            repo_urls,
            views: Views {
                env: None,
                env_with_sources: None,
                all_aliases: None,
                shorthands: None,
                tasks: None,
                tasks_with_aliases: None,
            },
        };
        match config.validate(current) {
            Ok(_) => Ok(config),
            Err(e) => Err(e),
        }
    }

    /// The configuration of the discovered files, from what parsing each
    /// path gave, in discovery order. Loading is all or nothing: one file
    /// that did not parse fails it, and the error names the first such file
    /// and why it failed, whatever the other files hold. Where every file
    /// parsed, loading fails where a file asks for a later version of the
    /// program than `current`; else the files are merged and no view is
    /// computed.
    pub fn load(parsed: Vec<(String, Result<ConfigFile, String>)>, current: &Version) -> (r: Result<
        Config,
        ConfigError,
    >)
        ensures
            match loaded_files(outcomes_view(parsed@)) {
                Err(failure) => r matches Err(e) && e.deep_view() == failure,
                Ok(entries) => match r {
                    Ok(config) => config_entries(config.config_files) == entries
                        && first_unsatisfied(entry_files(entries), *current) is None
                        && config.merged_from(entry_files(entries)) && config.views.none_stored(),
                    Err(e) => first_unsatisfied(entry_files(entries), *current) matches Some(m)
                        && e == (ConfigError::MinVersion { required: m, current: *current }),
                },
            },
    {
        match load_all_config_files(parsed) {
            Ok(config_files) => Config::from_files(config_files, current),
            Err(e) => Err(e),
        }
    }

    /// Checks that the running version satisfies every file.
    pub fn validate(&self, current: &Version) -> (r: Result<(), ConfigError>)
        ensures
            match r {
                Ok(_) => first_unsatisfied(files_of(self.config_files), *current) is None,
                Err(e) => first_unsatisfied(files_of(self.config_files), *current) matches Some(m)
                    && e == (ConfigError::MinVersion { required: m, current: *current }),
            },
    {
        validate_files(&self.config_files, current)
    }

    /// What resolution made of the directives. `resolved` is stored where
    /// nothing was stored yet, and what is stored is returned.
    pub fn env_results(&mut self, resolved: EnvResults) -> (r: &EnvResults)
        ensures
            *r == kept(old(self).views.env, resolved),
            final(self).views == (Views { env: Some(*r), ..old(self).views }),
            final(self).same_files(old(self)),
            final(self).views.grown_from(&old(self).views),
    {
        store_once(&mut self.views.env, resolved)
    }

    /// The directories that resolution put on the search path.
    pub fn path_dirs(&mut self, resolved: EnvResults) -> (r: &Vec<String>)
        ensures
            *r == kept(old(self).views.env, resolved).env_paths,
            final(self).views == (Views {
                env: Some(kept(old(self).views.env, resolved)),
                ..old(self).views
            }),
            final(self).same_files(old(self)),
            final(self).views.grown_from(&old(self).views),
    {
        &self.env_results(resolved).env_paths
    }

    /// The variables of the environment with their sources: the resolved
    /// variables, joined by those of the env file. They are computed where
    /// nothing was stored yet, from what is stored as resolved or else from
    /// `resolved`; what is stored is returned. The second result says
    /// whether to warn that the env file is malformed, which can be only
    /// when the variables are computed.
    pub fn env_with_sources(
        &mut self,
        resolved: EnvResults,
        env_file: &Option<String>,
        read: &Option<Vec<Option<(String, String)>>>,
    ) -> (r: (&IndexMap<String, (String, String)>, bool))
        ensures
            old(self).views.env_with_sources matches Some(stored) ==> *r.0 == stored && !r.1
                && *final(self) == *old(self),
            old(self).views.env_with_sources is None ==> sourced_entries(*r.0) == env_with_file(
                sourced_entries(kept(old(self).views.env, resolved).env),
                env_file.deep_view(),
                read.deep_view(),
            ) && r.1 == env_file_malformed(env_file.deep_view(), read.deep_view())
                && final(self).views == (Views {
                env: Some(kept(old(self).views.env, resolved)),
                env_with_sources: Some(*r.0),
                ..old(self).views
            }),
            final(self).same_files(old(self)),
            final(self).views.grown_from(&old(self).views),
    {
        let mut warn = false;
        if self.views.env_with_sources.is_none() {
            let base = sourced_clone(&store_once(&mut self.views.env, resolved).env);
            let (merged, malformed) = env_with_sources(base, env_file, read);
            warn = malformed;
            self.views.env_with_sources = Some(merged);
        }
        (self.views.env_with_sources.as_ref().unwrap(), warn)
    }

    /// The variables of the environment with their values, and whether to
    /// warn that the env file is malformed.
    pub fn env(
        &mut self,
        resolved: EnvResults,
        env_file: &Option<String>,
        read: &Option<Vec<Option<(String, String)>>>,
    ) -> (r: (IndexMap<String, String>, bool))
        ensures
            old(self).views.env_with_sources matches Some(stored) ==> var_entries(r.0)
                == plain_vars(sourced_entries(stored)) && !r.1 && *final(self) == *old(self),
            old(self).views.env_with_sources is None ==> var_entries(r.0) == plain_vars(
                env_with_file(
                    sourced_entries(kept(old(self).views.env, resolved).env),
                    env_file.deep_view(),
                    read.deep_view(),
                ),
            ) && r.1 == env_file_malformed(env_file.deep_view(), read.deep_view()),
            old(self).views.env_with_sources is None ==> final(self).views.env == Some(
                kept(old(self).views.env, resolved),
            ),
            old(self).views.env_with_sources is None ==> (
            final(self).views.env_with_sources matches Some(stored) && sourced_entries(stored)
                == env_with_file(
                sourced_entries(kept(old(self).views.env, resolved).env),
                env_file.deep_view(),
                read.deep_view(),
            )),
            final(self).same_files(old(self)),
            final(self).views.grown_from(&old(self).views),
    {
        let (sourced, warn) = self.env_with_sources(resolved, env_file, read);
        (plain_env(sourced), warn)
    }

    /// The table from a tool's short name to where its plugin is fetched
    /// from. `loaded` is stored where nothing was stored yet, and what is
    /// stored is returned.
    pub fn get_shorthands(&mut self, loaded: StrMap) -> (r: &StrMap)
        ensures
            *r == kept(old(self).views.shorthands, loaded),
            final(self).views == (Views { shorthands: Some(*r), ..old(self).views }),
            final(self).same_files(old(self)),
            final(self).views.grown_from(&old(self).views),
    {
        store_once(&mut self.views.shorthands, loaded)
    }

    /// Where the configuration files say that the plugin of a tool is
    /// fetched from. Where they say nothing, the table of short names is
    /// worth loading.
    pub fn configured_repo_url(&self, plugin_name: &str) -> (r: Option<String>)
        ensures
            r.deep_view() == lookup(self.repo_urls@, plugin_name@),
    {
        match self.repo_urls.get(plugin_name) {
            Some(url) => Some(url.clone()),
            None => None,
        }
    }

    /// Where the plugin of a tool is fetched from: what the configuration
    /// files say, else what the table of short names says. `loaded` is
    /// stored as that table where none was stored yet.
    pub fn get_repo_url(&mut self, plugin_name: &str, loaded: StrMap) -> (r: Option<String>)
        ensures
            r.deep_view() == match lookup(old(self).repo_urls@, plugin_name@) {
                Some(url) => Some(url),
                None => lookup(kept(old(self).views.shorthands, loaded)@, plugin_name@),
            },
            final(self).views == (Views {
                shorthands: Some(kept(old(self).views.shorthands, loaded)),
                ..old(self).views
            }),
            final(self).same_files(old(self)),
            final(self).views.grown_from(&old(self).views),
    {
        let shorthands = store_once(&mut self.views.shorthands, loaded);
        match self.repo_urls.get(plugin_name) {
            Some(url) => Some(url.clone()),
            None => match shorthands.get(plugin_name) {
                Some(url) => Some(url.clone()),
                None => None,
            },
        }
    }

    /// The aliases of the configuration together with those that the tools
    /// provide. They are computed from `provided` where nothing was stored
    /// yet, and what is stored is returned.
    pub fn get_all_aliases(&mut self, provided: &Vec<(String, StrMap)>) -> (r: &AliasMap)
        ensures
            old(self).views.all_aliases matches Some(stored) ==> *r == stored && *final(self)
                == *old(self),
            old(self).views.all_aliases is None ==> tables_filled(r@) && (forall|
                t: Seq<char>,
                n: Seq<char>,
            | #[trigger]
                alias_in(r@, t, n) == match alias_in(old(self).aliases@, t, n) {
                    Some(v) => Some(v),
                    None => provided_alias(provided.deep_view(), t, n),
                }) && final(self).views == (Views { all_aliases: Some(*r), ..old(self).views }),
            final(self).same_files(old(self)),
            final(self).views.grown_from(&old(self).views),
    {
        if self.views.all_aliases.is_none() {
            let all = load_all_aliases(&self.aliases, provided);
            self.views.all_aliases = Some(all);
        }
        self.views.all_aliases.as_ref().unwrap()
    }

    /// The version that `v` stands for with `tool`: what the configuration
    /// says, else what the tool's own table says, else `v` itself.
    pub fn resolve_alias(&self, tool: &str, tool_aliases: &StrMap, v: &str) -> (r: String)
        ensures
            r@ == match alias_in(self.aliases@, tool@, v@) {
                Some(version) => version,
                None => match lookup(tool_aliases@, v@) {
                    Some(version) => version,
                    None => v@,
                },
            },
    {
        resolve_alias(&self.aliases, tool, tool_aliases, v)
    }

    /// The task found under each name and alias, computed anew.
    pub fn load_all_tasks(
        &self,
        sources: &Vec<Either<usize, String>>,
        parsed: &Vec<Option<Task>>,
    ) -> (r: TaskMap)
        ensures
            forall|k: Seq<char>| #[trigger]
                r.value_of(k) == task_for(
                    collected_tasks(
                        files_of(self.config_files),
                        sources_view(sources@),
                        parsed.deep_view(),
                    ),
                    k,
                ),
    {
        load_all_tasks(&self.config_files, sources, parsed)
    }

    /// The tasks by name. They are computed where nothing was stored yet,
    /// and what is stored is returned.
    pub fn tasks(&mut self, sources: &Vec<Either<usize, String>>, parsed: &Vec<Option<Task>>) -> (r:
        &TaskMap)
        ensures
            old(self).views.tasks matches Some(stored) ==> *r == stored && *final(self) == *old(
                self,
            ),
            old(self).views.tasks is None ==> (forall|k: Seq<char>| #[trigger]
                r.value_of(k) == match task_for(
                    collected_tasks(
                        files_of(old(self).config_files),
                        sources_view(sources@),
                        parsed.deep_view(),
                    ),
                    k,
                ) {
                    Some(t) => if t.name == k {
                        Some(t)
                    } else {
                        None
                    },
                    None => None,
                }) && final(self).views == (Views { tasks: Some(*r), ..old(self).views }),
            final(self).same_files(old(self)),
            final(self).views.grown_from(&old(self).views),
    {
        if self.views.tasks.is_none() {
            let all = load_all_tasks(&self.config_files, sources, parsed);
            let named = named_tasks(&all);
            self.views.tasks = Some(named);
        }
        self.views.tasks.as_ref().unwrap()
    }

    /// The tasks by name and by alias. They are computed where nothing was
    /// stored yet, and what is stored is returned.
    pub fn tasks_with_aliases(
        &mut self,
        sources: &Vec<Either<usize, String>>,
        parsed: &Vec<Option<Task>>,
    ) -> (r: &TaskMap)
        ensures
            old(self).views.tasks_with_aliases matches Some(stored) ==> *r == stored
                && *final(self) == *old(self),
            old(self).views.tasks_with_aliases is None ==> (forall|k: Seq<char>| #[trigger]
                r.value_of(k) == task_for(
                    collected_tasks(
                        files_of(old(self).config_files),
                        sources_view(sources@),
                        parsed.deep_view(),
                    ),
                    k,
                )) && final(self).views == (Views {
                tasks_with_aliases: Some(*r),
                ..old(self).views
            }),
            final(self).same_files(old(self)),
            final(self).views.grown_from(&old(self).views),
    {
        if self.views.tasks_with_aliases.is_none() {
            let all = load_all_tasks(&self.config_files, sources, parsed);
            self.views.tasks_with_aliases = Some(all);
        }
        self.views.tasks_with_aliases.as_ref().unwrap()
    }

    /// The map of the tracked configuration files that still parse.
    /// `parsed` holds each tracked path with its file, `None` where it did
    /// not parse: such a path is left out.
    pub fn get_tracked_config_files(&self, parsed: Vec<(String, Option<ConfigFile>)>) -> (r: IndexMap<
        String,
        ConfigFile,
    >)
        ensures
            config_entries(r) == kept_files(parsed.deep_view()),
    {
        get_tracked_config_files(parsed)
    }

    /// The files to watch for changes: the configuration files and the
    /// files that resolution read, as a set that is walked in ascending
    /// order, each path once.
    pub fn watch_files(&mut self, resolved: EnvResults) -> (r: Vec<String>)
        ensures
            ascending(r.deep_view()),
            forall|p: Seq<char>| #[trigger]
                r.deep_view().contains(p) <==> (paths_of(old(self).config_files) + kept(
                    old(self).views.env,
                    resolved,
                ).env_files.deep_view()).contains(p),
            final(self).views == (Views {
                env: Some(kept(old(self).views.env, resolved)),
                ..old(self).views
            }),
            final(self).same_files(old(self)),
            final(self).views.grown_from(&old(self).views),
    {
        let results = store_once(&mut self.views.env, resolved);
        watch_files(&self.config_files, &results.env_files)
    }
}

} // verus!
