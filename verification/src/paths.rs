//! Discovery: the file names that are looked for, and the ordered list of
//! the configuration files that were found.

use crate::bindings::{joined_path, path_join, unique_strings};
use crate::seqs::{dedup_first, first_index, lemma_dedup_first, lemma_dedup_first_idempotent};
use crate::settings::Locations;
use crate::text::{append_texts, contains_text, copy_text, copy_texts};
use vstd::prelude::*;

verus! {

/// The file names of the standard ladder that do not depend on an
/// environment name, after the file of tool versions.
pub open spec fn ladder_names(default_config: Seq<char>) -> Seq<Seq<char>> {
    seq![
        ".config/mise/config.toml"@,
        ".config/mise.toml"@,
        ".mise/config.toml"@,
        ".rtx.toml"@,
        default_config,
        ".config/mise/config.local.toml"@,
        ".config/mise.local.toml"@,
        ".mise/config.local.toml"@,
        ".rtx.local.toml"@,
        ".mise.local.toml"@,
    ]
}

/// The file names for the environment named `env`: the four places of a
/// configuration file, then the local counterpart of each.
pub open spec fn env_ladder_names(env: Seq<char>) -> Seq<Seq<char>> {
    seq![
        ".config/mise/config."@ + env + ".toml"@,
        ".config/mise."@ + env + ".toml"@,
        ".mise/config."@ + env + ".toml"@,
        ".mise."@ + env + ".toml"@,
        ".config/mise/config."@ + env + ".local.toml"@,
        ".config/mise."@ + env + ".local.toml"@,
        ".mise/config."@ + env + ".local.toml"@,
        ".mise."@ + env + ".local.toml"@,
    ]
}

/// The default file names, in the order in which they are looked for. With
/// the standard name for a project's file the whole ladder is used, else
/// the file of tool versions and the configured name.
pub open spec fn default_filenames(
    default_config: Seq<char>,
    tool_versions: Seq<char>,
    env_name: Option<Seq<char>>,
) -> Seq<Seq<char>> {
    if default_config == ".mise.toml"@ {
        seq![tool_versions] + ladder_names(default_config) + match env_name {
            Some(env) => env_ladder_names(env),
            None => Seq::empty(),
        }
    } else {
        seq![tool_versions, default_config]
    }
}

/// Whether the file of tool versions in the home directory counts as a
/// global configuration file: not when a configuration file is named
/// explicitly or only the standard format is wanted.
pub open spec fn home_file_wanted(at: Locations) -> bool {
    !at.config_file_set && !at.global_config_file_set && !at.use_toml
}

/// The global configuration files, given which of the two candidates exist.
pub open spec fn global_files(at: Locations, home_is_file: bool, global_is_file: bool) -> Seq<
    Seq<char>,
> {
    (if home_file_wanted(at) && home_is_file {
        seq![joined_path(at.home_dir@, at.default_tool_versions_filename@)]
    } else {
        Seq::empty()
    }) + (if global_is_file {
        seq![at.global_config_file@]
    } else {
        Seq::empty()
    })
}

/// The system-wide configuration files, given whether the candidate exists.
pub open spec fn system_files(at: Locations, is_file: bool) -> Seq<Seq<char>> {
    if is_file {
        seq![joined_path(at.system_dir@, "config.toml"@)]
    } else {
        Seq::empty()
    }
}

/// The paths of all configuration files: those found from the working
/// directory upwards, then the global ones, then the system-wide ones, each
/// path once, at the place where it came first.
pub open spec fn config_paths(
    found: Seq<Seq<char>>,
    global: Seq<Seq<char>>,
    system: Seq<Seq<char>>,
) -> Seq<Seq<char>> {
    dedup_first(found + global + system)
}

fn framed(prefix: &str, middle: &str, suffix: &str) -> (r: String)
    ensures
        r@ == prefix@ + middle@ + suffix@,
{
    let mut r = copy_text(prefix);
    r.append(middle);
    r.append(suffix);
    r
}

/// Where neither candidate exists there are no global configuration files,
/// and where its candidate does not exist there is no system-wide one.
pub proof fn lemma_missing_files_contribute_nothing(at: Locations)
    ensures
        global_files(at, false, false) == Seq::<Seq<char>>::empty(),
        system_files(at, false) == Seq::<Seq<char>>::empty(),
{
    assert(global_files(at, false, false) =~= Seq::<Seq<char>>::empty());
}

/// Discovery is stable: paths that are already discovered pass through it
/// unchanged.
pub proof fn lemma_config_paths_stable(
    found: Seq<Seq<char>>,
    global: Seq<Seq<char>>,
    system: Seq<Seq<char>>,
)
    ensures
        config_paths(found, global, system).no_duplicates(),
        config_paths(config_paths(found, global, system), Seq::empty(), Seq::empty())
            == config_paths(found, global, system),
{
    let all = found + global + system;
    lemma_dedup_first(all);
    lemma_dedup_first_idempotent(all);
    assert(dedup_first(all) + Seq::<Seq<char>>::empty() + Seq::<Seq<char>>::empty() =~= dedup_first(
        all,
    ));
}

/// The default file names to look for in each directory, in the order in
/// which they are looked for.
pub fn default_config_filenames(
    default_config_filename: &str,
    default_tool_versions_filename: &str,
    env_name: &Option<String>,
) -> (r: Vec<String>)
    ensures
        r.deep_view() == default_filenames(
            default_config_filename@,
            default_tool_versions_filename@,
            env_name.deep_view(),
        ),
{
    let standard = copy_text(".mise.toml");
    let configured = copy_text(default_config_filename);
    let mut r: Vec<String> = Vec::new();
    r.push(copy_text(default_tool_versions_filename));
    if configured == standard {
        r.push(copy_text(".config/mise/config.toml"));
        r.push(copy_text(".config/mise.toml"));
        r.push(copy_text(".mise/config.toml"));
        r.push(copy_text(".rtx.toml"));
        r.push(configured);
        r.push(copy_text(".config/mise/config.local.toml"));
        r.push(copy_text(".config/mise.local.toml"));
        r.push(copy_text(".mise/config.local.toml"));
        r.push(copy_text(".rtx.local.toml"));
        r.push(copy_text(".mise.local.toml"));
        assert(r.deep_view() =~= seq![default_tool_versions_filename@] + ladder_names(
            default_config_filename@,
        ));
        match env_name {
            Some(env) => {
                let ghost before = r.deep_view();
                let env = env.as_str();
                r.push(framed(".config/mise/config.", env, ".toml"));
                r.push(framed(".config/mise.", env, ".toml"));
                r.push(framed(".mise/config.", env, ".toml"));
                r.push(framed(".mise.", env, ".toml"));
                r.push(framed(".config/mise/config.", env, ".local.toml"));
                r.push(framed(".config/mise.", env, ".local.toml"));
                r.push(framed(".mise/config.", env, ".local.toml"));
                r.push(framed(".mise.", env, ".local.toml"));
                assert(r.deep_view() =~= before + env_ladder_names(env@));
            },
            None => {
                assert(r.deep_view() =~= r.deep_view() + Seq::<Seq<char>>::empty());
            },
        }
    } else {
        r.push(configured);
        assert(r.deep_view() =~= seq![default_tool_versions_filename@, default_config_filename@]);
    }
    r
}

/// The file of tool versions in the home directory, where it counts as a
/// global configuration file: the caller looks whether it exists.
pub fn home_config_path(at: &Locations) -> (r: Option<String>)
    ensures
        r.deep_view() == if home_file_wanted(*at) {
            Some(joined_path(at.home_dir@, at.default_tool_versions_filename@))
        } else {
            None
        },
{
    if !at.config_file_set && !at.global_config_file_set && !at.use_toml {
        Some(path_join(at.home_dir.as_str(), at.default_tool_versions_filename.as_str()))
    } else {
        None
    }
}

/// The global configuration files: the file of tool versions in the home
/// directory, where it counts and exists, then the global configuration
/// file, where it exists. A file that does not exist contributes nothing.
pub fn global_config_files(at: &Locations, home_is_file: bool, global_is_file: bool) -> (r: Vec<
    String,
>)
    ensures
        r.deep_view() == global_files(*at, home_is_file, global_is_file),
{
    let mut r: Vec<String> = Vec::new();
    match home_config_path(at) {
        Some(home_config) => {
            if home_is_file {
                r.push(home_config);
            }
        },
        None => {},
    }
    if global_is_file {
        r.push(at.global_config_file.clone());
    }
    assert(r.deep_view() =~= global_files(*at, home_is_file, global_is_file));
    r
}

/// The system-wide configuration file: the caller looks whether it exists.
pub fn system_config_path(at: &Locations) -> (r: String)
    ensures
        r@ == joined_path(at.system_dir@, "config.toml"@),
{
    path_join(at.system_dir.as_str(), "config.toml")
}

/// The system-wide configuration files: the one file, where it exists.
pub fn system_config_files(at: &Locations, is_file: bool) -> (r: Vec<String>)
    ensures
        r.deep_view() == system_files(*at, is_file),
{
    let mut r: Vec<String> = Vec::new();
    if is_file {
        r.push(system_config_path(at));
    }
    assert(r.deep_view() =~= system_files(*at, is_file));
    r
}

/// Whether `path` is one of the global or system-wide configuration files.
pub fn is_global_config(path: &str, global: &Vec<String>, system: &Vec<String>) -> (r: bool)
    ensures
        r == (global.deep_view() + system.deep_view()).contains(path@),
{
    let in_global = contains_text(global, path);
    let in_system = contains_text(system, path);
    proof {
        let all = global.deep_view() + system.deep_view();
        if in_global {
            let i = choose|i: int| 0 <= i < global.deep_view().len() && global.deep_view()[i] == path@;
            assert(all[i] == path@);
        }
        if in_system {
            let i = choose|i: int| 0 <= i < system.deep_view().len() && system.deep_view()[i] == path@;
            assert(all[global.deep_view().len() + i] == path@);
        }
        if all.contains(path@) {
            let i = choose|i: int| 0 <= i < all.len() && all[i] == path@;
            if i < global.deep_view().len() {
                assert(global.deep_view()[i] == path@);
            } else {
                assert(system.deep_view()[i - global.deep_view().len()] == path@);
            }
        }
    }
    in_global || in_system
}

/// The paths of all configuration files in the order of discovery: those
/// found from the working directory upwards, then the global ones, then the
/// system-wide ones. No path occurs twice, and the paths stand in the order
/// in which each came first.
pub fn load_config_paths(found: &Vec<String>, global: &Vec<String>, system: &Vec<String>) -> (r:
    Vec<String>)
    ensures
        r.deep_view() == config_paths(found.deep_view(), global.deep_view(), system.deep_view()),
        r.deep_view().no_duplicates(),
        forall|p: Seq<char>| #[trigger]
            r.deep_view().contains(p) <==> (found.deep_view() + global.deep_view()
                + system.deep_view()).contains(p),
        forall|i: int, j: int|
            0 <= i < j < r.deep_view().len() ==> first_index(
                found.deep_view() + global.deep_view() + system.deep_view(),
                #[trigger] r.deep_view()[i],
            ) < first_index(
                found.deep_view() + global.deep_view() + system.deep_view(),
                #[trigger] r.deep_view()[j],
            ),
{
    let mut all = copy_texts(found);
    append_texts(&mut all, global);
    append_texts(&mut all, system);
    proof {
        lemma_dedup_first(found.deep_view() + global.deep_view() + system.deep_view());
    }
    unique_strings(all)
}

} // verus!
