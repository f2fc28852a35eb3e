//! The data that a configuration file contributes, as plain values.

use crate::keyed::KeyedVec;
use crate::text::{copy_texts, decimal, decimal_text};
use vstd::prelude::*;

verus! {

/// A release number of the running program.
#[derive(Clone, Copy, Debug, PartialEq, Eq, Structural)]
pub struct Version {
    pub major: u64,
    pub minor: u64,
    pub patch: u64,
}

/// `a` is no later than `b`, comparing major, then minor, then patch.
pub open spec fn version_le(a: Version, b: Version) -> bool {
    a.major < b.major || (a.major == b.major && (a.minor < b.minor || (a.minor == b.minor
        && a.patch <= b.patch)))
}

/// A version as it is written: the three numbers with dots between them.
pub open spec fn version_text(v: Version) -> Seq<char> {
    decimal_text(v.major as nat) + "."@ + decimal_text(v.minor as nat) + "."@ + decimal_text(
        v.patch as nat,
    )
}

impl Version {
    /// The version as it is written.
    pub fn text(&self) -> (r: String)
        ensures
            r@ == version_text(*self),
    {
        let mut r = decimal(self.major);
        r.append(".");
        r.append(decimal(self.minor).as_str());
        r.append(".");
        r.append(decimal(self.patch).as_str());
        r
    }

    /// The version with these three numbers.
    pub fn new(major: u64, minor: u64, patch: u64) -> (r: Version)
        ensures
            r == (Version { major, minor, patch }),
    {
        Version { major, minor, patch }
    }

    /// Whether this version satisfies the minimum `min`.
    pub fn at_least(&self, min: &Version) -> (r: bool)
        ensures
            r == version_le(*min, *self),
    {
        if min.major != self.major {
            min.major < self.major
        } else if min.minor != self.minor {
            min.minor < self.minor
        } else {
            min.patch <= self.patch
        }
    }
}

/// The two kinds of configuration file.
#[derive(Clone, Copy, Debug, PartialEq, Eq, Structural)]
pub enum Dialect {
    /// A file in the standard format.
    Standard,
    /// A version file that one tool defined before this program existed.
    Legacy,
}

/// A named unit of work. It is found under its name and under each alias.
#[derive(Debug, PartialEq, Eq)]
pub struct Task {
    /// The name under which the task is run.
    pub name: String,
    /// What the task is for.
    pub description: String,
    /// Other names under which the task is found.
    pub aliases: Vec<String>,
    /// The file that defines the task.
    pub config_source: String,
}

/// A task as a mathematical value.
pub struct TaskView {
    pub name: Seq<char>,
    pub description: Seq<char>,
    pub aliases: Seq<Seq<char>>,
    pub config_source: Seq<char>,
}

impl DeepView for Task {
    type V = TaskView;

    open spec fn deep_view(&self) -> TaskView {
        TaskView {
            name: self.name@,
            description: self.description@,
            aliases: self.aliases.deep_view(),
            config_source: self.config_source@,
        }
    }
}

impl Clone for Task {
    fn clone(&self) -> (r: Self)
        ensures
            r.deep_view() == self.deep_view(),
    {
        Task {
            name: self.name.clone(),
            description: self.description.clone(),
            aliases: copy_texts(&self.aliases),
            config_source: self.config_source.clone(),
        }
    }
}

/// One instruction of a configuration file on the environment. What each
/// does is decided where the environment is resolved.
#[derive(Debug, PartialEq, Eq)]
pub enum EnvDirective {
    /// Set a variable to a value.
    Val(String, String),
    /// Remove a variable.
    Rm(String),
    /// Read variables from a file.
    File(String),
    /// Put a directory on the search path.
    Path(String),
}

/// A directive as a mathematical value.
pub enum EnvDirectiveView {
    Val(Seq<char>, Seq<char>),
    Rm(Seq<char>),
    File(Seq<char>),
    Path(Seq<char>),
}

impl DeepView for EnvDirective {
    type V = EnvDirectiveView;

    open spec fn deep_view(&self) -> EnvDirectiveView {
        match self {
            EnvDirective::Val(k, v) => EnvDirectiveView::Val(k@, v@),
            EnvDirective::Rm(k) => EnvDirectiveView::Rm(k@),
            EnvDirective::File(p) => EnvDirectiveView::File(p@),
            EnvDirective::Path(p) => EnvDirectiveView::Path(p@),
        }
    }
}

impl Clone for EnvDirective {
    fn clone(&self) -> (r: Self)
        ensures
            r.deep_view() == self.deep_view(),
    {
        match self {
            EnvDirective::Val(k, v) => EnvDirective::Val(k.clone(), v.clone()),
            EnvDirective::Rm(k) => EnvDirective::Rm(k.clone()),
            EnvDirective::File(p) => EnvDirective::File(p.clone()),
            EnvDirective::Path(p) => EnvDirective::Path(p.clone()),
        }
    }
}

/// A map from strings to strings.
pub type StrMap = KeyedVec<String>;

/// For each tool, its table from alias to version.
pub type AliasMap = KeyedVec<KeyedVec<String>>;

/// Tasks by the key under which they are found.
pub type TaskMap = KeyedVec<Task>;

/// What a map from strings to strings holds.
pub type StrMapView = Seq<(Seq<char>, Seq<char>)>;

/// What an alias map holds.
pub type AliasMapView = Seq<(Seq<char>, Seq<(Seq<char>, Seq<char>)>)>;

/// One parsed configuration file.
#[derive(Debug)]
pub struct ConfigFile {
    /// Where the file lies. No two files of one configuration share a path.
    pub path: String,
    /// The kind of file.
    pub dialect: Dialect,
    /// The oldest version of the program that may read this file.
    pub min_version: Option<Version>,
    /// The directory of the project that the file belongs to.
    pub project_root: Option<String>,
    /// The directives on the environment, in the order of the file.
    pub env_entries: Vec<EnvDirective>,
    /// The tasks that the file defines inline, in the order of the file.
    pub tasks: Vec<Task>,
    /// For each tool, where its plugin is fetched from.
    pub plugins: StrMap,
    /// For each tool, the aliases that the file defines.
    pub aliases: AliasMap,
}

/// A configuration file as a mathematical value.
pub struct ConfigFileView {
    pub path: Seq<char>,
    pub dialect: Dialect,
    pub min_version: Option<Version>,
    pub project_root: Option<Seq<char>>,
    pub env_entries: Seq<EnvDirectiveView>,
    pub tasks: Seq<TaskView>,
    pub plugins: StrMapView,
    pub aliases: AliasMapView,
}

impl DeepView for ConfigFile {
    type V = ConfigFileView;

    open spec fn deep_view(&self) -> ConfigFileView {
        ConfigFileView {
            path: self.path@,
            dialect: self.dialect,
            min_version: self.min_version,
            project_root: self.project_root.deep_view(),
            env_entries: self.env_entries.deep_view(),
            tasks: self.tasks.deep_view(),
            plugins: self.plugins@,
            aliases: self.aliases@,
        }
    }
}

impl ConfigFile {
    /// A file at `path` that contributes nothing.
    pub fn new(path: String, dialect: Dialect) -> (r: ConfigFile)
        ensures
            r.deep_view() == (ConfigFileView {
                path: path@,
                dialect,
                min_version: None,
                project_root: None,
                env_entries: Seq::empty(),
                tasks: Seq::empty(),
                plugins: Seq::empty(),
                aliases: Seq::empty(),
            }),
    {
        let r = ConfigFile {
            path,
            dialect,
            min_version: None,
            project_root: None,
            env_entries: Vec::new(),
            tasks: Vec::new(),
            plugins: KeyedVec::new(),
            aliases: KeyedVec::new(),
        };
        assert(r.env_entries.deep_view() =~= Seq::empty());
        assert(r.tasks.deep_view() =~= Seq::empty());
        r
    }
}

} // verus!
