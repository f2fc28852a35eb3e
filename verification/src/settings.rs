//! What the caller has read from the settings and the process environment.

use vstd::prelude::*;

verus! {

/// The settings that the configuration depends on.
#[derive(Debug)]
pub struct Settings {
    /// Whether the version files of single tools are read at all.
    pub legacy_version_file: bool,
    /// The tools whose version files are not read.
    pub legacy_version_file_disable_tools: Vec<String>,
    /// A file of variables to join to the environment.
    pub env_file: Option<String>,
}

/// Where configuration files are looked for.
#[derive(Debug)]
pub struct Locations {
    /// An explicit configuration file is named in the environment.
    pub config_file_set: bool,
    /// An explicit global configuration file is named in the environment.
    pub global_config_file_set: bool,
    /// Only files in the standard format are wanted.
    pub use_toml: bool,
    /// The name of a project's configuration file.
    pub default_config_filename: String,
    /// The name of a file of tool versions.
    pub default_tool_versions_filename: String,
    /// The name of the active environment, if one is set.
    pub env_name: Option<String>,
    /// The home directory.
    pub home_dir: String,
    /// The global configuration file.
    pub global_config_file: String,
    /// The directory of the system-wide configuration.
    pub system_dir: String,
}

} // verus!
