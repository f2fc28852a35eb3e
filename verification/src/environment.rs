//! The environment: which directives are handed to resolution and in which
//! order, and how the variables of an env file join the resolved variables.

use crate::assoc::{
    distinct_keys, has_key, last_value, lemma_found_at, lemma_put, lookup, position, put,
};
use crate::bindings::{
    config_entries, config_map_get_index, config_map_len, sourced_entries, sourced_get_index,
    sourced_get_index_of, sourced_insert, sourced_len, var_entries, var_map_insert,
    var_map_new,
};
use crate::model::{ConfigFile, ConfigFileView, EnvDirective, EnvDirectiveView};
use crate::order::{ascending, sorted_texts};
use crate::registry::paths_of;
use crate::text::{append_texts, copy_text};
use indexmap::IndexMap;
use vstd::prelude::*;

verus! {

/// What resolution made of the directives.
#[derive(Debug)]
pub struct EnvResults {
    /// For each variable, its value and the file that it comes from.
    pub env: IndexMap<String, (String, String)>,
    /// The directories to put on the search path.
    pub env_paths: Vec<String>,
    /// The files that were read.
    pub env_files: Vec<String>,
}

/// A resolved variable: its name, then its value and its source.
pub type Sourced = (Seq<char>, (Seq<char>, Seq<char>));

/// The directives of one file, each with the path of the file.
pub open spec fn file_directives(file: ConfigFileView, source: Seq<char>) -> Seq<
    (EnvDirectiveView, Seq<char>),
> {
    Seq::new(file.env_entries.len(), |i: int| (file.env_entries[i], source))
}

/// The directives of all files, those of the file discovered last first.
pub open spec fn env_directives(entries: Seq<(Seq<char>, ConfigFileView)>) -> Seq<
    (EnvDirectiveView, Seq<char>),
>
    decreases entries.len(),
{
    if entries.len() == 0 {
        Seq::empty()
    } else {
        file_directives(entries.last().1, entries.last().0) + env_directives(entries.drop_last())
    }
}

/// The number of directives of the files after the file at `i`.
pub open spec fn directives_after(entries: Seq<(Seq<char>, ConfigFileView)>, i: int) -> int
    decreases entries.len(),
{
    if entries.len() == 0 || i >= entries.len() - 1 {
        0
    } else {
        entries.last().1.env_entries.len() + directives_after(entries.drop_last(), i)
    }
}

/// Every line of the env file parsed.
pub open spec fn all_parsed(items: Seq<Option<(Seq<char>, Seq<char>)>>) -> bool {
    forall|i: int| 0 <= i < items.len() ==> (#[trigger] items[i]) is Some
}

/// The variables of an env file whose lines all parsed.
pub open spec fn file_vars(items: Seq<Option<(Seq<char>, Seq<char>)>>) -> Seq<
    (Seq<char>, Seq<char>),
> {
    Seq::new(items.len(), |i: int| items[i].unwrap())
}

/// The resolved variables after the variables of an env file have joined
/// them. A variable that was resolved keeps its value and source. Another
/// gets the value of its last line in the file, with the file as its source,
/// at the place where its first line put it.
pub open spec fn with_file_vars(
    resolved: Seq<Sourced>,
    vars: Seq<(Seq<char>, Seq<char>)>,
    file: Seq<char>,
) -> Seq<Sourced>
    decreases vars.len(),
{
    if vars.len() == 0 {
        resolved
    } else {
        let before = with_file_vars(resolved, vars.drop_last(), file);
        if has_key(resolved, vars.last().0) {
            before
        } else {
            put(before, vars.last().0, (vars.last().1, file))
        }
    }
}

/// The resolved variables after an env file was read. `read` is `None`
/// where the file could not be opened, else its lines, `None` for a line
/// that did not parse. A file with such a line contributes nothing.
pub open spec fn env_with_file(
    resolved: Seq<Sourced>,
    env_file: Option<Seq<char>>,
    read: Option<Seq<Option<(Seq<char>, Seq<char>)>>>,
) -> Seq<Sourced> {
    match (env_file, read) {
        (Some(file), Some(items)) => if all_parsed(items) {
            with_file_vars(resolved, file_vars(items), file)
        } else {
            resolved
        },
        _ => resolved,
    }
}

/// Whether reading the env file calls for a warning: it was opened and a
/// line of it did not parse.
pub open spec fn env_file_malformed(
    env_file: Option<Seq<char>>,
    read: Option<Seq<Option<(Seq<char>, Seq<char>)>>>,
) -> bool {
    env_file is Some && read is Some && !all_parsed(read.unwrap())
}

/// The variables with their values, without the sources.
pub open spec fn plain_vars(sourced: Seq<Sourced>) -> Seq<(Seq<char>, Seq<char>)> {
    Seq::new(sourced.len(), |i: int| (sourced[i].0, sourced[i].1.0))
}

/// What joining an env file does: resolved variables stay as and where they
/// are, and each other variable of the file has the value of its last line.
pub proof fn lemma_with_file_vars(
    resolved: Seq<Sourced>,
    vars: Seq<(Seq<char>, Seq<char>)>,
    file: Seq<char>,
)
    requires
        distinct_keys(resolved),
    ensures
        distinct_keys(with_file_vars(resolved, vars, file)),
        with_file_vars(resolved, vars, file).len() >= resolved.len(),
        with_file_vars(resolved, vars, file).take(resolved.len() as int) == resolved,
        forall|k: Seq<char>| #[trigger]
            lookup(with_file_vars(resolved, vars, file), k) == match lookup(resolved, k) {
                Some(x) => Some(x),
                None => match last_value(vars, k) {
                    Some(v) => Some((v, file)),
                    None => None,
                },
            },
    decreases vars.len(),
{
    let after = with_file_vars(resolved, vars, file);
    if vars.len() == 0 {
        assert(after.take(resolved.len() as int) =~= resolved);
    } else {
        let rest = vars.drop_last();
        let before = with_file_vars(resolved, rest, file);
        let key = vars.last().0;
        let value = (vars.last().1, file);
        lemma_with_file_vars(resolved, rest, file);
        if !has_key(resolved, key) {
            lemma_put(before, key, value);
            if has_key(before, key) {
                let p = position(before, key);
                if p < resolved.len() {
                    assert(before.take(resolved.len() as int)[p] == before[p]);
                    assert(resolved[p].0 == key);
                }
            }
            assert(after.take(resolved.len() as int) =~= before.take(resolved.len() as int));
        }
        assert forall|k: Seq<char>| #[trigger]
            lookup(after, k) == match lookup(resolved, k) {
                Some(x) => Some(x),
                None => match last_value(vars, k) {
                    Some(v) => Some((v, file)),
                    None => None,
                },
            } by {
            assert(lookup(before, k) == match lookup(resolved, k) {
                Some(x) => Some(x),
                None => match last_value(rest, k) {
                    Some(v) => Some((v, file)),
                    None => None,
                },
            });
        }
    }
}

/// An env file that is not named, cannot be opened or has a line that does
/// not parse leaves the resolved variables as they are.
pub proof fn lemma_env_file_without_effect(
    resolved: Seq<Sourced>,
    env_file: Option<Seq<char>>,
    read: Option<Seq<Option<(Seq<char>, Seq<char>)>>>,
)
    requires
        env_file is None || read is None || !all_parsed(read.unwrap()),
    ensures
        env_with_file(resolved, env_file, read) == resolved,
        env_file_malformed(env_file, read) <==> env_file is Some && read is Some,
{
}

/// Where the directive at `a` of the file at `i` stands in the list, and
/// that the directives of a file discovered later stand before it.
pub proof fn lemma_directive_order(entries: Seq<(Seq<char>, ConfigFileView)>, i: int, a: int)
    requires
        0 <= i < entries.len(),
        0 <= a < entries[i].1.env_entries.len(),
    ensures
        0 <= directives_after(entries, i),
        directives_after(entries, i) + a < env_directives(entries).len(),
        env_directives(entries)[directives_after(entries, i) + a] == (
            entries[i].1.env_entries[a],
            entries[i].0,
        ),
        forall|j: int|
            i < j < entries.len() ==> #[trigger] directives_after(entries, j)
                + entries[j].1.env_entries.len() <= directives_after(entries, i),
    decreases entries.len(),
{
    let rest = entries.drop_last();
    let head = file_directives(entries.last().1, entries.last().0);
    if i < entries.len() - 1 {
        assert(rest[i] == entries[i]);
        lemma_directive_order(rest, i, a);
        assert forall|j: int| i < j < entries.len() implies #[trigger] directives_after(entries, j)
            + entries[j].1.env_entries.len() <= directives_after(entries, i) by {
            if j < entries.len() - 1 {
                assert(rest[j] == entries[j]);
                assert(directives_after(rest, j) + rest[j].1.env_entries.len() <= directives_after(
                    rest,
                    i,
                ));
            }
        }
    }
}

/// The value that the last directive to set `var` gives it, with the file
/// of that directive.
pub open spec fn last_assignment(
    directives: Seq<(EnvDirectiveView, Seq<char>)>,
    var: Seq<char>,
) -> Option<(Seq<char>, Seq<char>)>
    decreases directives.len(),
{
    if directives.len() == 0 {
        None
    } else {
        match directives.last().0 {
            EnvDirectiveView::Val(k, v) => if k == var {
                Some((v, directives.last().1))
            } else {
                last_assignment(directives.drop_last(), var)
            },
            _ => last_assignment(directives.drop_last(), var),
        }
    }
}

/// What the file at `i` sets `var` to, with the path of the file.
pub open spec fn file_assignment(
    entries: Seq<(Seq<char>, ConfigFileView)>,
    i: int,
    var: Seq<char>,
) -> Option<(Seq<char>, Seq<char>)> {
    last_assignment(file_directives(entries[i].1, entries[i].0), var)
}

/// Of two lists one after the other, the second decides where it sets `var`.
pub proof fn lemma_last_assignment_concat(
    a: Seq<(EnvDirectiveView, Seq<char>)>,
    b: Seq<(EnvDirectiveView, Seq<char>)>,
    var: Seq<char>,
)
    ensures
        last_assignment(a + b, var) == match last_assignment(b, var) {
            Some(x) => Some(x),
            None => last_assignment(a, var),
        },
    decreases b.len(),
{
    if b.len() == 0 {
        assert(a + b =~= a);
    } else {
        assert((a + b).drop_last() =~= a + b.drop_last());
        assert((a + b).last() == b.last());
        lemma_last_assignment_concat(a, b.drop_last(), var);
    }
}

/// What a file sets carries the path of the file.
pub proof fn lemma_file_assignment_source(
    file: ConfigFileView,
    source: Seq<char>,
    var: Seq<char>,
)
    ensures
        last_assignment(file_directives(file, source), var) matches Some(x) ==> x.1 == source,
{
    lemma_assignment_source(file_directives(file, source), source, var);
}

proof fn lemma_assignment_source(
    directives: Seq<(EnvDirectiveView, Seq<char>)>,
    source: Seq<char>,
    var: Seq<char>,
)
    requires
        forall|i: int| 0 <= i < directives.len() ==> (#[trigger] directives[i]).1 == source,
    ensures
        last_assignment(directives, var) matches Some(x) ==> x.1 == source,
    decreases directives.len(),
{
    if directives.len() > 0 {
        let rest = directives.drop_last();
        assert(directives[directives.len() - 1].1 == source);
        assert forall|i: int| 0 <= i < rest.len() implies (#[trigger] rest[i]).1 == source by {
            assert(rest[i] == directives[i]);
        }
        lemma_assignment_source(rest, source, var);
    }
}

/// Where no file sets `var`, the list does not set it.
pub proof fn lemma_unset_variable(entries: Seq<(Seq<char>, ConfigFileView)>, var: Seq<char>)
    requires
        forall|j: int| 0 <= j < entries.len() ==> #[trigger] file_assignment(entries, j, var) is None,
    ensures
        last_assignment(env_directives(entries), var) is None,
    decreases entries.len(),
{
    if entries.len() > 0 {
        let rest = entries.drop_last();
        let n = entries.len() - 1;
        assert(file_assignment(entries, n, var) is None);
        assert forall|j: int| 0 <= j < rest.len() implies #[trigger] file_assignment(rest, j, var)
            is None by {
            assert(rest[j] == entries[j]);
            assert(file_assignment(entries, j, var) is None);
        }
        lemma_unset_variable(rest, var);
        lemma_last_assignment_concat(
            file_directives(entries.last().1, entries.last().0),
            env_directives(rest),
            var,
        );
    }
}

/// Local over global: in the list that is handed to resolution, the last
/// directive to set a variable is that of the first file in discovery order
/// that sets it, and it carries the path of that file. A resolution in which
/// the last assignment decides therefore gives the variable the value and
/// the source of the most local file.
pub proof fn lemma_local_assignment_is_last(
    entries: Seq<(Seq<char>, ConfigFileView)>,
    var: Seq<char>,
    i: int,
)
    requires
        0 <= i < entries.len(),
        file_assignment(entries, i, var) is Some,
        forall|j: int| 0 <= j < i ==> #[trigger] file_assignment(entries, j, var) is None,
    ensures
        last_assignment(env_directives(entries), var) == file_assignment(entries, i, var),
        last_assignment(env_directives(entries), var).unwrap().1 == entries[i].0,
    decreases entries.len(),
{
    let rest = entries.drop_last();
    let head = file_directives(entries.last().1, entries.last().0);
    lemma_last_assignment_concat(head, env_directives(rest), var);
    lemma_file_assignment_source(entries[i].1, entries[i].0, var);
    if i == entries.len() - 1 {
        assert forall|j: int| 0 <= j < rest.len() implies #[trigger] file_assignment(rest, j, var)
            is None by {
            assert(rest[j] == entries[j]);
            assert(file_assignment(entries, j, var) is None);
        }
        lemma_unset_variable(rest, var);
    } else {
        assert(rest[i] == entries[i]);
        assert forall|j: int| 0 <= j < i implies #[trigger] file_assignment(rest, j, var) is None by {
            assert(rest[j] == entries[j]);
            assert(file_assignment(entries, j, var) is None);
        }
        lemma_local_assignment_is_last(rest, var, i);
    }
}

/// The directives to resolve, each with the path of its file: the files are
/// taken from the last discovered to the first, the directives of a file in
/// their own order.
pub fn load_env(config_files: &IndexMap<String, ConfigFile>) -> (r: Vec<(EnvDirective, String)>)
    ensures
        r.deep_view() == env_directives(config_entries(*config_files)),
{
    let ghost entries = config_entries(*config_files);
    let n = config_map_len(config_files);
    let mut r: Vec<(EnvDirective, String)> = Vec::new();
    let mut i: usize = 0;
    assert(entries.take(0) =~= Seq::empty());
    assert(r.deep_view() =~= Seq::empty());
    while i < n
        invariant
            i <= n,
            n == entries.len(),
            entries == config_entries(*config_files),
            r.deep_view() == env_directives(entries.take(i as int)),
        decreases n - i,
    {
        let ghost seen = entries.take(i as int);
        let ghost next = entries.take(i + 1);
        proof {
            assert(next.drop_last() =~= seen);
            assert(next.last() == entries[i as int]);
        }
        let mut head: Vec<(EnvDirective, String)> = Vec::new();
        match config_map_get_index(config_files, i) {
            Some((path, file)) => {
                let mut a: usize = 0;
                while a < file.env_entries.len()
                    invariant
                        a <= file.env_entries@.len(),
                        head@.len() == a,
                        forall|b: int|
                            0 <= b < a ==> #[trigger] head.deep_view()[b] == (
                                file.env_entries@[b].deep_view(),
                                path@,
                            ),
                    decreases file.env_entries@.len() - a,
                {
                    let ghost before = head.deep_view();
                    let directive = file.env_entries[a].clone();
                    let source = path.clone();
                    head.push((directive, source));
                    assert(head.deep_view() =~= before.push(
                        (file.env_entries@[a as int].deep_view(), path@),
                    ));
                    a += 1;
                }
                assert(head.deep_view() =~= file_directives(entries[i as int].1, entries[i as int].0));
            },
            None => {},
        }
        let ghost head_view = head.deep_view();
        let ghost tail_view = r.deep_view();
        head.append(&mut r);
        r = head;
        assert(r.deep_view() =~= head_view + tail_view);
        i += 1;
    }
    assert(entries.take(n as int) =~= entries);
    r
}

/// Joins the variables of an env file whose lines all parsed to the
/// resolved variables.
fn merge_file_vars(
    env: &mut IndexMap<String, (String, String)>,
    env_file: &str,
    items: &Vec<Option<(String, String)>>,
)
    requires
        all_parsed(items.deep_view()),
    ensures
        sourced_entries(*final(env)) == with_file_vars(
            sourced_entries(*old(env)),
            file_vars(items.deep_view()),
            env_file@,
        ),
{
    let ghost resolved = sourced_entries(*env);
    let ghost vars = file_vars(items.deep_view());
    let n0 = sourced_len(env);
    let mut j: usize = 0;
    assert(vars.take(0) =~= Seq::empty());
    while j < items.len()
        invariant
            j <= items@.len(),
            n0 == resolved.len(),
            distinct_keys(resolved),
            all_parsed(items.deep_view()),
            vars == file_vars(items.deep_view()),
            sourced_entries(*env) == with_file_vars(resolved, vars.take(j as int), env_file@),
        decreases items@.len() - j,
    {
        let ghost seen = vars.take(j as int);
        let ghost before = sourced_entries(*env);
        proof {
            assert(vars.take(j + 1).drop_last() =~= seen);
            assert(vars.take(j + 1).last() == vars[j as int]);
            assert(items.deep_view()[j as int] is Some);
            lemma_with_file_vars(resolved, seen, env_file@);
        }
        match &items[j] {
            Some((key, value)) => {
                let resolved_here = match sourced_get_index_of(env, key.as_str()) {
                    Some(p) => p < n0,
                    None => false,
                };
                proof {
                    assert(vars[j as int] == (key@, value@));
                    if resolved_here {
                        let p = position(before, key@);
                        let q = choose|q: int| 0 <= q < n0 && before[q].0 == key@;
                        assert(before.take(n0 as int)[q] == before[q]);
                        assert(resolved[q].0 == key@);
                    } else if has_key(resolved, key@) {
                        let q = position(resolved, key@);
                        assert(before.take(n0 as int)[q] == before[q]);
                        lemma_found_at(before, key@, q);
                    }
                    assert(resolved_here == has_key(resolved, key@));
                }
                if !resolved_here {
                    sourced_insert(env, key.clone(), value.clone(), copy_text(env_file));
                }
            },
            None => {},
        }
        j += 1;
    }
    assert(vars.take(items@.len() as int) =~= vars);
}

/// Whether every line parsed.
fn every_line_parsed(items: &Vec<Option<(String, String)>>) -> (r: bool)
    ensures
        r == all_parsed(items.deep_view()),
{
    let mut j: usize = 0;
    while j < items.len()
        invariant
            j <= items@.len(),
            forall|k: int| 0 <= k < j ==> (#[trigger] items.deep_view()[k]) is Some,
        decreases items@.len() - j,
    {
        if items[j].is_none() {
            assert(items.deep_view()[j as int] is None);
            return false;
        }
        assert(items.deep_view()[j as int] is Some);
        j += 1;
    }
    true
}

/// The resolved variables after the env file of the settings was read, and
/// whether to warn that the file is malformed. `read` is `None` where the
/// file could not be opened, which is no fault; else it holds the lines of
/// the file, `None` for a line that did not parse. Resolved variables keep
/// their values. A malformed file contributes nothing.
pub fn env_with_sources(
    resolved: IndexMap<String, (String, String)>,
    env_file: &Option<String>,
    read: &Option<Vec<Option<(String, String)>>>,
) -> (r: (IndexMap<String, (String, String)>, bool))
    ensures
        sourced_entries(r.0) == env_with_file(
            sourced_entries(resolved),
            env_file.deep_view(),
            read.deep_view(),
        ),
        r.1 == env_file_malformed(env_file.deep_view(), read.deep_view()),
{
    let mut env = resolved;
    match (env_file, read) {
        (Some(file), Some(items)) => {
            if every_line_parsed(items) {
                merge_file_vars(&mut env, file.as_str(), items);
                (env, false)
            } else {
                (env, true)
            }
        },
        _ => (env, false),
    }
}

/// The variables with their values, in the order of `sourced`.
pub fn plain_env(sourced: &IndexMap<String, (String, String)>) -> (r: IndexMap<String, String>)
    ensures
        var_entries(r) == plain_vars(sourced_entries(*sourced)),
{
    let ghost all = sourced_entries(*sourced);
    let n = sourced_len(sourced);
    let mut r = var_map_new();
    let mut i: usize = 0;
    assert(plain_vars(all).take(0) =~= Seq::empty());
    while i < n
        invariant
            i <= n,
            n == all.len(),
            all == sourced_entries(*sourced),
            distinct_keys(all),
            var_entries(r) == plain_vars(all).take(i as int),
        decreases n - i,
    {
        let ghost before = var_entries(r);
        match sourced_get_index(sourced, i) {
            Some((key, value)) => {
                proof {
                    if has_key(before, key@) {
                        let p = position(before, key@);
                        assert(before[p] == plain_vars(all)[p]);
                        assert(all[p].0 != all[i as int].0);
                    }
                    assert(plain_vars(all).take(i + 1) =~= before.push((key@, value.0@)));
                }
                var_map_insert(&mut r, key.clone(), value.0.clone());
            },
            None => {},
        }
        i += 1;
    }
    assert(plain_vars(all).take(n as int) =~= plain_vars(all));
    r
}

/// The directories that resolution put on the search path.
pub fn path_dirs(results: &EnvResults) -> (r: &Vec<String>)
    ensures
        r == &results.env_paths,
{
    &results.env_paths
}

/// The files to watch for changes: the configuration files and the files
/// that resolution read, as a set that is walked in ascending order, each
/// path once. The paths are ordered as strings.
pub fn watch_files(config_files: &IndexMap<String, ConfigFile>, env_files: &Vec<String>) -> (r: Vec<
    String,
>)
    ensures
        ascending(r.deep_view()),
        forall|p: Seq<char>| #[trigger]
            r.deep_view().contains(p) <==> (paths_of(*config_files)
                + env_files.deep_view()).contains(p),
{
    let ghost paths = paths_of(*config_files);
    let n = config_map_len(config_files);
    let mut all: Vec<String> = Vec::new();
    let mut i: usize = 0;
    assert(all.deep_view() =~= paths.take(0));
    while i < n
        invariant
            i <= n,
            n == config_entries(*config_files).len(),
            paths == paths_of(*config_files),
            all.deep_view() == paths.take(i as int),
        decreases n - i,
    {
        let ghost before = all.deep_view();
        match config_map_get_index(config_files, i) {
            Some((path, _)) => {
                all.push(path.clone());
                assert(all.deep_view() =~= before.push(path@));
            },
            None => {},
        }
        assert(all.deep_view() =~= paths.take(i + 1));
        i += 1;
    }
    assert(paths.take(n as int) =~= paths);
    append_texts(&mut all, env_files);
    sorted_texts(&all)
}

} // verus!
