//! The registry of configuration files: which parser reads a file, and how
//! the parsed files become one ordered map.

use crate::assoc::{distinct_keys, has_key, lemma_found_at, lemma_put, lookup, position, put};
use crate::bindings::{
    config_entries, config_map_insert, config_map_new, file_name_of, path_file_name,
    unique_strings,
};
use crate::keyed::KeyedVec;
use crate::model::{version_text, ConfigFile, ConfigFileView, Version};
use crate::seqs::dedup_first;
use crate::settings::Settings;
use crate::text::{contains_text, copy_text, copy_texts};
use indexmap::IndexMap;
use vstd::prelude::*;

verus! {

/// For each name of a version file, the tools that read files of that name.
pub type LegacyFiles = KeyedVec<Vec<String>>;

/// What a table of version files holds.
pub type LegacyFilesView = Seq<(Seq<char>, Seq<Seq<char>>)>;

/// A tool and the names of its version files; `None` where the tool could
/// not say.
pub type ToolFilesView = (Seq<char>, Option<Seq<Seq<char>>>);

/// Why a configuration could not be loaded.
#[derive(Debug, PartialEq, Eq)]
pub enum ConfigError {
    /// The file at `path` did not parse.
    Parse { path: String, cause: String },
    /// A file asks for a later version of the program than the one running.
    MinVersion { required: Version, current: Version },
}

/// An error as a mathematical value.
pub enum ConfigErrorView {
    Parse { path: Seq<char>, cause: Seq<char> },
    MinVersion { required: Version, current: Version },
}

impl DeepView for ConfigError {
    type V = ConfigErrorView;

    open spec fn deep_view(&self) -> ConfigErrorView {
        match self {
            ConfigError::Parse { path, cause } => ConfigErrorView::Parse {
                path: path@,
                cause: cause@,
            },
            ConfigError::MinVersion { required, current } => ConfigErrorView::MinVersion {
                required: *required,
                current: *current,
            },
        }
    }
}

/// What an error says.
pub open spec fn error_text(e: ConfigErrorView) -> Seq<char> {
    match e {
        ConfigErrorView::Parse { path, cause } => "error parsing config file: "@ + path,
        ConfigErrorView::MinVersion { required, current } => "mise version "@ + version_text(
            required,
        ) + " is required, but you are using "@ + version_text(current),
    }
}

impl ConfigError {
    /// What the error says, for the user to read.
    pub fn message(&self) -> (r: String)
        ensures
            r@ == error_text(self.deep_view()),
    {
        match self {
            ConfigError::Parse { path, cause } => {
                let mut r = copy_text("error parsing config file: ");
                r.append(path.as_str());
                r
            },
            ConfigError::MinVersion { required, current } => {
                let mut r = copy_text("mise version ");
                r.append(required.text().as_str());
                r.append(" is required, but you are using ");
                r.append(current.text().as_str());
                r
            },
        }
    }
}

/// How a configuration file is to be parsed.
#[derive(Debug, PartialEq, Eq)]
pub enum ParsePlan {
    /// As a file in the standard format.
    Standard,
    /// As the version file of these tools.
    Legacy(Vec<String>),
}

/// A plan as a mathematical value.
pub enum ParsePlanView {
    Standard,
    Legacy(Seq<Seq<char>>),
}

impl DeepView for ParsePlan {
    type V = ParsePlanView;

    open spec fn deep_view(&self) -> ParsePlanView {
        match self {
            ParsePlan::Standard => ParsePlanView::Standard,
            ParsePlan::Legacy(tools) => ParsePlanView::Legacy(tools.deep_view()),
        }
    }
}

/// The configuration files of the entries of a map, in order.
pub open spec fn entry_files(entries: Seq<(Seq<char>, ConfigFileView)>) -> Seq<ConfigFileView> {
    Seq::new(entries.len(), |i: int| entries[i].1)
}

/// The configuration files of a map, in order.
pub open spec fn files_of(m: IndexMap<String, ConfigFile>) -> Seq<ConfigFileView> {
    entry_files(config_entries(m))
}

/// The paths of the configuration files, in order.
pub open spec fn paths_of(m: IndexMap<String, ConfigFile>) -> Seq<Seq<char>> {
    Seq::new(config_entries(m).len(), |i: int| config_entries(m)[i].0)
}

/// The file names that one tool claims, each with the tool: none for a tool
/// that is disabled or could not say.
pub open spec fn tool_claims(tool: ToolFilesView, disabled: Seq<Seq<char>>) -> Seq<
    (Seq<char>, Seq<char>),
> {
    match tool.1 {
        Some(names) => if disabled.contains(tool.0) {
            Seq::empty()
        } else {
            Seq::new(names.len(), |i: int| (names[i], tool.0))
        },
        None => Seq::empty(),
    }
}

/// The claims of all tools, in the order of the tools.
pub open spec fn legacy_claims(tools: Seq<ToolFilesView>, disabled: Seq<Seq<char>>) -> Seq<
    (Seq<char>, Seq<char>),
>
    decreases tools.len(),
{
    if tools.len() == 0 {
        Seq::empty()
    } else {
        legacy_claims(tools.drop_last(), disabled) + tool_claims(tools.last(), disabled)
    }
}

/// The tools that claim `name`, in the order of their claims.
pub open spec fn claimants(claims: Seq<(Seq<char>, Seq<char>)>, name: Seq<char>) -> Seq<Seq<char>>
    decreases claims.len(),
{
    if claims.len() == 0 {
        Seq::empty()
    } else if claims.last().0 == name {
        claimants(claims.drop_last(), name).push(claims.last().1)
    } else {
        claimants(claims.drop_last(), name)
    }
}

/// The table of the claims: each name at the place of its first claim, with
/// its tools in the order of their claims.
pub open spec fn legacy_table(claims: Seq<(Seq<char>, Seq<char>)>) -> LegacyFilesView
    decreases claims.len(),
{
    if claims.len() == 0 {
        Seq::empty()
    } else {
        let before = legacy_table(claims.drop_last());
        let tools = match lookup(before, claims.last().0) {
            Some(tools) => tools.push(claims.last().1),
            None => seq![claims.last().1],
        };
        put(before, claims.last().0, tools)
    }
}

/// The names of version files with their tools, as the settings want them.
pub open spec fn legacy_files(
    enabled: bool,
    tools: Seq<ToolFilesView>,
    disabled: Seq<Seq<char>>,
) -> LegacyFilesView {
    if enabled {
        legacy_table(legacy_claims(tools, disabled))
    } else {
        Seq::empty()
    }
}

/// The registered tools that are among `tools`, in the order of registration.
pub open spec fn registered_among(registered: Seq<Seq<char>>, tools: Seq<Seq<char>>) -> Seq<
    Seq<char>,
>
    decreases registered.len(),
{
    if registered.len() == 0 {
        Seq::empty()
    } else if tools.contains(registered.last()) {
        registered_among(registered.drop_last(), tools).push(registered.last())
    } else {
        registered_among(registered.drop_last(), tools)
    }
}

/// How the file with this file name is parsed: as a version file of the
/// tools that claim the name, if any does, else in the standard format.
pub open spec fn plan_for(
    file_name: Option<Seq<char>>,
    legacy: LegacyFilesView,
    registered: Seq<Seq<char>>,
) -> ParsePlanView {
    match file_name {
        Some(name) => match lookup(legacy, name) {
            Some(tools) => ParsePlanView::Legacy(registered_among(registered, tools)),
            None => ParsePlanView::Standard,
        },
        None => ParsePlanView::Standard,
    }
}

/// What parsing a file gave: the file, or why it failed.
pub open spec fn outcome_view(outcome: Result<ConfigFile, String>) -> Result<
    ConfigFileView,
    Seq<char>,
> {
    match outcome {
        Ok(file) => Ok(file.deep_view()),
        Err(cause) => Err(cause@),
    }
}

/// The paths with what parsing each gave.
pub open spec fn outcomes_view(parsed: Seq<(String, Result<ConfigFile, String>)>) -> Seq<
    (Seq<char>, Result<ConfigFileView, Seq<char>>),
> {
    Seq::new(parsed.len(), |i: int| (parsed[i].0@, outcome_view(parsed[i].1)))
}

/// The first file that did not parse, if there is one.
pub open spec fn first_failure(outcomes: Seq<(Seq<char>, Result<ConfigFileView, Seq<char>>)>)
    -> Option<int>
    decreases outcomes.len(),
{
    if outcomes.len() == 0 {
        None
    } else {
        match first_failure(outcomes.drop_last()) {
            Some(i) => Some(i),
            None => if outcomes.last().1 is Err {
                Some(outcomes.len() - 1)
            } else {
                None
            },
        }
    }
}

/// The map of the files that parsed, in order.
pub open spec fn parsed_files(outcomes: Seq<(Seq<char>, Result<ConfigFileView, Seq<char>>)>)
    -> Seq<(Seq<char>, ConfigFileView)>
    decreases outcomes.len(),
{
    if outcomes.len() == 0 {
        Seq::empty()
    } else {
        let before = parsed_files(outcomes.drop_last());
        match outcomes.last().1 {
            Ok(file) => put(before, outcomes.last().0, file),
            Err(_) => before,
        }
    }
}

/// What loading makes of the parsed files: the map of all of them, or the
/// first failure.
pub open spec fn loaded_files(outcomes: Seq<(Seq<char>, Result<ConfigFileView, Seq<char>>)>)
    -> Result<Seq<(Seq<char>, ConfigFileView)>, ConfigErrorView> {
    match first_failure(outcomes) {
        Some(i) => Err(
            ConfigErrorView::Parse { path: outcomes[i].0, cause: outcomes[i].1->Err_0 },
        ),
        None => Ok(parsed_files(outcomes)),
    }
}

/// The table holds a name exactly when a tool claims it, with the tools
/// that claim it in the order of their claims.
pub proof fn lemma_legacy_table(claims: Seq<(Seq<char>, Seq<char>)>, name: Seq<char>)
    ensures
        distinct_keys(legacy_table(claims)),
        lookup(legacy_table(claims), name) == if claimants(claims, name).len() > 0 {
            Some(claimants(claims, name))
        } else {
            None
        },
    decreases claims.len(),
{
    if claims.len() > 0 {
        let rest = claims.drop_last();
        let before = legacy_table(rest);
        let last = claims.last();
        lemma_legacy_table(rest, name);
        lemma_legacy_table(rest, last.0);
        let tools = match lookup(before, last.0) {
            Some(tools) => tools.push(last.1),
            None => seq![last.1],
        };
        lemma_put(before, last.0, tools);
        if last.0 == name {
            assert(tools =~= claimants(rest, name).push(last.1));
        }
    }
}

/// The first failure is a failure, and nothing before it is.
pub proof fn lemma_first_failure(outcomes: Seq<(Seq<char>, Result<ConfigFileView, Seq<char>>)>)
    ensures
        match first_failure(outcomes) {
            Some(i) => 0 <= i < outcomes.len() && outcomes[i].1 is Err && forall|j: int|
                0 <= j < i ==> (#[trigger] outcomes[j]).1 is Ok,
            None => forall|j: int| 0 <= j < outcomes.len() ==> (#[trigger] outcomes[j]).1 is Ok,
        },
    decreases outcomes.len(),
{
    if outcomes.len() > 0 {
        let rest = outcomes.drop_last();
        lemma_first_failure(rest);
        match first_failure(rest) {
            Some(i) => {
                assert(rest[i] == outcomes[i]);
                assert forall|j: int| 0 <= j < i implies (#[trigger] outcomes[j]).1 is Ok by {
                    assert(rest[j] == outcomes[j]);
                }
            },
            None => {
                assert forall|j: int| 0 <= j < outcomes.len() - 1 implies (
                #[trigger] outcomes[j]).1 is Ok by {
                    assert(rest[j] == outcomes[j]);
                }
            },
        }
    }
}

/// All or nothing: one file that did not parse fails the load, whatever
/// the other files hold, and the error names a file that did not parse.
pub proof fn lemma_failure_fails_load(
    outcomes: Seq<(Seq<char>, Result<ConfigFileView, Seq<char>>)>,
    i: int,
)
    requires
        0 <= i < outcomes.len(),
        outcomes[i].1 is Err,
    ensures
        loaded_files(outcomes) matches Err(ConfigErrorView::Parse { path, cause }) && exists|j: int|
            0 <= j <= i && #[trigger] outcomes[j] == (
                path,
                Err::<ConfigFileView, Seq<char>>(cause),
            ),
{
    lemma_first_failure(outcomes);
    let j = first_failure(outcomes).unwrap();
    assert(0 <= j <= i);
    assert(outcomes[j] == (outcomes[j].0, Err::<ConfigFileView, Seq<char>>(outcomes[j].1->Err_0)));
}

/// Files that all parsed, at paths that are all different, make a map with
/// one entry for each, in their order.
pub proof fn lemma_parsed_files_distinct(
    outcomes: Seq<(Seq<char>, Result<ConfigFileView, Seq<char>>)>,
)
    requires
        distinct_keys(outcomes),
        forall|j: int| 0 <= j < outcomes.len() ==> (#[trigger] outcomes[j]).1 is Ok,
    ensures
        parsed_files(outcomes) == Seq::new(
            outcomes.len(),
            |i: int| (outcomes[i].0, outcomes[i].1->Ok_0),
        ),
    decreases outcomes.len(),
{
    let target = Seq::new(outcomes.len(), |i: int| (outcomes[i].0, outcomes[i].1->Ok_0));
    if outcomes.len() == 0 {
        assert(parsed_files(outcomes) =~= target);
    } else {
        let rest = outcomes.drop_last();
        let n = outcomes.len() - 1;
        assert forall|i: int, j: int| 0 <= i < j < rest.len() implies (#[trigger] rest[i]).0 != (
        #[trigger] rest[j]).0 by {
            assert(rest[i] == outcomes[i]);
            assert(rest[j] == outcomes[j]);
        }
        assert forall|j: int| 0 <= j < rest.len() implies (#[trigger] rest[j]).1 is Ok by {
            assert(rest[j] == outcomes[j]);
        }
        lemma_parsed_files_distinct(rest);
        let before = parsed_files(rest);
        assert(outcomes[n].1 is Ok);
        if has_key(before, outcomes[n].0) {
            let p = position(before, outcomes[n].0);
            assert(before[p].0 == rest[p].0);
            assert(rest[p] == outcomes[p]);
            assert(outcomes[p].0 != outcomes[n].0);
        }
        assert(parsed_files(outcomes) =~= target);
    }
}

/// Whether a tool is asked for the names of its version files at all: the
/// settings read such files and do not disable the tool.
pub fn reads_legacy_files(settings: &Settings, tool: &str) -> (r: bool)
    ensures
        r == (settings.legacy_version_file
            && !settings.legacy_version_file_disable_tools.deep_view().contains(tool@)),
{
    settings.legacy_version_file && !contains_text(
        &settings.legacy_version_file_disable_tools,
        tool,
    )
}

/// Appends the claims of one tool.
fn push_tool_claims(
    out: &mut Vec<(String, String)>,
    tool: &(String, Option<Vec<String>>),
    disabled: &Vec<String>,
)
    ensures
        final(out).deep_view() == old(out).deep_view() + tool_claims(
            tool.deep_view(),
            disabled.deep_view(),
        ),
{
    let ghost start = out.deep_view();
    match &tool.1 {
        Some(names) => {
            if !contains_text(disabled, tool.0.as_str()) {
                let mut i: usize = 0;
                while i < names.len()
                    invariant
                        i <= names@.len(),
                        out.deep_view().len() == start.len() + i,
                        forall|p: int| 0 <= p < start.len() ==> #[trigger] out.deep_view()[p] == start[p],
                        forall|p: int|
                            start.len() <= p < start.len() + i ==> #[trigger] out.deep_view()[p] == (
                                names@[p - start.len()]@,
                                tool.0@,
                            ),
                    decreases names@.len() - i,
                {
                    let ghost before = out.deep_view();
                    let name = names[i].clone();
                    let id = tool.0.clone();
                    out.push((name, id));
                    assert(out.deep_view() =~= before.push((names@[i as int]@, tool.0@)));
                    i += 1;
                }
            }
        },
        None => {},
    }
    assert(out.deep_view() =~= start + tool_claims(tool.deep_view(), disabled.deep_view()));
}

/// Every claim of every tool, in the order of the tools.
fn collect_claims(tools: &Vec<(String, Option<Vec<String>>)>, disabled: &Vec<String>) -> (r: Vec<
    (String, String),
>)
    ensures
        r.deep_view() == legacy_claims(tools.deep_view(), disabled.deep_view()),
{
    let ghost all = tools.deep_view();
    let mut r: Vec<(String, String)> = Vec::new();
    let mut i: usize = 0;
    assert(all.take(0) =~= Seq::empty());
    assert(r.deep_view() =~= Seq::empty());
    while i < tools.len()
        invariant
            i <= tools@.len(),
            all == tools.deep_view(),
            r.deep_view() == legacy_claims(all.take(i as int), disabled.deep_view()),
        decreases tools@.len() - i,
    {
        proof {
            assert(all.take(i + 1).drop_last() =~= all.take(i as int));
            assert(all.take(i + 1).last() == tools@[i as int].deep_view());
        }
        push_tool_claims(&mut r, &tools[i], disabled);
        i += 1;
    }
    assert(all.take(tools@.len() as int) =~= all);
    r
}

/// The names of the version files that are read, each with the tools that
/// read it. `tools` holds each registered tool with the names that it
/// gave, `None` where it could not give them. Nothing is read where the
/// settings switch version files off, and nothing for a disabled tool.
pub fn load_legacy_files(settings: &Settings, tools: &Vec<(String, Option<Vec<String>>)>) -> (r:
    LegacyFiles)
    ensures
        r@ == legacy_files(
            settings.legacy_version_file,
            tools.deep_view(),
            settings.legacy_version_file_disable_tools.deep_view(),
        ),
{
    let mut r: LegacyFiles = KeyedVec::new();
    if !settings.legacy_version_file {
        return r;
    }
    let claims = collect_claims(tools, &settings.legacy_version_file_disable_tools);
    let ghost all = claims.deep_view();
    let mut i: usize = 0;
    assert(all.take(0) =~= Seq::empty());
    while i < claims.len()
        invariant
            i <= claims@.len(),
            all == claims.deep_view(),
            r@ == legacy_table(all.take(i as int)),
        decreases claims@.len() - i,
    {
        let ghost before = r@;
        proof {
            assert(all.take(i + 1).drop_last() =~= all.take(i as int));
            assert(all.take(i + 1).last() == (claims@[i as int].0@, claims@[i as int].1@));
        }
        let name = claims[i].0.clone();
        let tool = claims[i].1.clone();
        match r.index_of(name.as_str()) {
            Some(p) => {
                let mut held = r.replace_at(p, Vec::new());
                held.push(tool);
                let ghost tools_now = held.deep_view();
                r.replace_at(p, held);
                proof {
                    lemma_found_at(before, name@, p as int);
                    assert(tools_now =~= before[p as int].1.push(tool@));
                    assert(r@ =~= put(before, name@, tools_now));
                }
            },
            None => {
                let mut held: Vec<String> = Vec::new();
                held.push(tool);
                assert(held.deep_view() =~= seq![tool@]);
                r.insert(name, held);
            },
        }
        i += 1;
    }
    assert(all.take(claims@.len() as int) =~= all);
    r
}

/// The registered tools that are among `tools`, in the order of registration.
fn keep_registered(registered: &Vec<String>, tools: &Vec<String>) -> (r: Vec<String>)
    ensures
        r.deep_view() == registered_among(registered.deep_view(), tools.deep_view()),
{
    let ghost all = registered.deep_view();
    let mut r: Vec<String> = Vec::new();
    let mut i: usize = 0;
    assert(all.take(0) =~= Seq::empty());
    assert(r.deep_view() =~= Seq::empty());
    while i < registered.len()
        invariant
            i <= registered@.len(),
            all == registered.deep_view(),
            r.deep_view() == registered_among(all.take(i as int), tools.deep_view()),
        decreases registered@.len() - i,
    {
        let ghost before = r.deep_view();
        proof {
            assert(all.take(i + 1).drop_last() =~= all.take(i as int));
            assert(all.take(i + 1).last() == registered@[i as int]@);
        }
        if contains_text(tools, registered[i].as_str()) {
            r.push(registered[i].clone());
            assert(r.deep_view() =~= before.push(registered@[i as int]@));
        }
        i += 1;
    }
    assert(all.take(registered@.len() as int) =~= all);
    r
}

/// How a file is parsed, given its file name: as a version file of the
/// registered tools that claim the name, if the name is claimed, else in
/// the standard format.
pub fn plan_for_name(file_name: &Option<String>, legacy: &LegacyFiles, registered: &Vec<String>)
    -> (r: ParsePlan)
    ensures
        r.deep_view() == plan_for(file_name.deep_view(), legacy@, registered.deep_view()),
{
    match file_name {
        Some(name) => match legacy.get(name.as_str()) {
            Some(tools) => ParsePlan::Legacy(keep_registered(registered, tools)),
            None => ParsePlan::Standard,
        },
        None => ParsePlan::Standard,
    }
}

/// How the file at `path` is parsed: its file name decides.
pub fn parse_plan(path: &str, legacy: &LegacyFiles, registered: &Vec<String>) -> (r: ParsePlan)
    ensures
        r.deep_view() == plan_for(path_file_name(path@), legacy@, registered.deep_view()),
{
    let file_name = file_name_of(path);
    plan_for_name(&file_name, legacy, registered)
}

/// The paths to parse: each discovered path once, in order.
pub fn paths_to_parse(paths: &Vec<String>) -> (r: Vec<String>)
    ensures
        r.deep_view() == dedup_first(paths.deep_view()),
{
    unique_strings(copy_texts(paths))
}

/// The map of the configuration files from what parsing each path gave, in
/// the order given. One file that did not parse fails the whole: the error
/// names the first such file and why it failed.
pub fn load_all_config_files(parsed: Vec<(String, Result<ConfigFile, String>)>) -> (r: Result<
    IndexMap<String, ConfigFile>,
    ConfigError,
>)
    ensures
        match r {
            Ok(m) => loaded_files(outcomes_view(parsed@)) == Ok::<
                Seq<(Seq<char>, ConfigFileView)>,
                ConfigErrorView,
            >(config_entries(m)),
            Err(e) => loaded_files(outcomes_view(parsed@)) == Err::<
                Seq<(Seq<char>, ConfigFileView)>,
                ConfigErrorView,
            >(e.deep_view()),
        },
{
    let ghost all = outcomes_view(parsed@);
    let mut rest = parsed;
    let mut m = config_map_new();
    let n = rest.len();
    let mut i: usize = 0;
    assert(all.take(0) =~= Seq::empty());
    while i < n
        invariant
            i <= n,
            n == all.len(),
            rest@.len() == n,
            all == outcomes_view(parsed@),
            forall|j: int| i <= j < n ==> #[trigger] outcomes_view(rest@)[j] == all[j],
            first_failure(all.take(i as int)) is None,
            config_entries(m) == parsed_files(all.take(i as int)),
        decreases n - i,
    {
        let ghost seen = all.take(i as int);
        let ghost held = outcomes_view(rest@);
        proof {
            assert(all.take(i + 1).drop_last() =~= seen);
            assert(all.take(i + 1).last() == all[i as int]);
            assert(held[i as int] == all[i as int]);
        }
        let path = rest[i].0.clone();
        let mut outcome: Result<ConfigFile, String> = Err(String::new());
        std::mem::swap(&mut rest[i].1, &mut outcome);
        proof {
            assert(path@ == all[i as int].0);
            assert(outcome_view(outcome) == all[i as int].1);
            assert forall|j: int| i + 1 <= j < n implies #[trigger] outcomes_view(rest@)[j]
                == all[j] by {
                assert(held[j] == all[j]);
            }
        }
        match outcome {
            Ok(file) => {
                config_map_insert(&mut m, path, file);
            },
            Err(cause) => {
                proof {
                    lemma_failure_found(all, i as int);
                    assert(all[i as int].1->Err_0 == cause@);
                }
                return Err(ConfigError::Parse { path, cause });
            },
        }
        i += 1;
    }
    assert(all.take(n as int) =~= all);
    Ok(m)
}

/// A failure with nothing failing before it is the first failure.
proof fn lemma_failure_found(outcomes: Seq<(Seq<char>, Result<ConfigFileView, Seq<char>>)>, i: int)
    requires
        0 <= i < outcomes.len(),
        outcomes[i].1 is Err,
        first_failure(outcomes.take(i)) is None,
    ensures
        first_failure(outcomes) == Some(i),
    decreases outcomes.len(),
{
    let rest = outcomes.drop_last();
    if i == outcomes.len() - 1 {
        assert(rest =~= outcomes.take(i));
    } else {
        assert(rest[i] == outcomes[i]);
        assert(rest.take(i) =~= outcomes.take(i));
        lemma_failure_found(rest, i);
    }
}

/// The files that parsed, of what parsing each path gave, in order.
pub open spec fn kept_files(parsed: Seq<(Seq<char>, Option<ConfigFileView>)>) -> Seq<
    (Seq<char>, ConfigFileView),
>
    decreases parsed.len(),
{
    if parsed.len() == 0 {
        Seq::empty()
    } else {
        let before = kept_files(parsed.drop_last());
        match parsed.last().1 {
            Some(file) => put(before, parsed.last().0, file),
            None => before,
        }
    }
}

/// The map of the tracked configuration files that still parse. `parsed`
/// holds each tracked path with its file, `None` where it did not parse:
/// such a path is left out.
pub fn get_tracked_config_files(parsed: Vec<(String, Option<ConfigFile>)>) -> (r: IndexMap<
    String,
    ConfigFile,
>)
    ensures
        config_entries(r) == kept_files(parsed.deep_view()),
{
    let ghost all = parsed.deep_view();
    let mut rest = parsed;
    let mut m = config_map_new();
    let n = rest.len();
    let mut i: usize = 0;
    assert(all.take(0) =~= Seq::empty());
    while i < n
        invariant
            i <= n,
            n == all.len(),
            rest@.len() == n,
            forall|j: int| i <= j < n ==> #[trigger] rest.deep_view()[j] == all[j],
            config_entries(m) == kept_files(all.take(i as int)),
        decreases n - i,
    {
        let ghost held = rest.deep_view();
        proof {
            assert(all.take(i + 1).drop_last() =~= all.take(i as int));
            assert(all.take(i + 1).last() == all[i as int]);
            assert(held[i as int] == all[i as int]);
        }
        let path = rest[i].0.clone();
        let mut outcome: Option<ConfigFile> = None;
        std::mem::swap(&mut rest[i].1, &mut outcome);
        proof {
            assert forall|j: int| i + 1 <= j < n implies #[trigger] rest.deep_view()[j] == all[j] by {
                assert(held[j] == all[j]);
            }
        }
        match outcome {
            Some(file) => {
                config_map_insert(&mut m, path, file);
            },
            None => {},
        }
        i += 1;
    }
    assert(all.take(n as int) =~= all);
    m
}

} // verus!
