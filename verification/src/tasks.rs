//! Tasks: where they are looked for, and which definition wins a name.
//!
//! A configuration file defines tasks inline, and a file under one of the
//! task directories of its project defines one task. Listing directories and
//! parsing task files happen elsewhere; the functions here decide what is
//! listed, in which order the sources count, and which task is found under
//! each name and alias.

use crate::assoc::{
    distinct_keys, first_value, has_key, lemma_distinct_take, lemma_first_value_concat,
    lemma_first_value_front, lemma_first_value_member, lemma_first_value_some, lemma_lookup_push,
    lemma_put, lookup, position,
};
use crate::bindings::{
    config_entries, config_map_get_index, config_map_len, joined_path, path_join, source_view,
    sources_view, unique_sources,
};
use crate::keyed::{pairs_view, KeyedVec};
use crate::model::{ConfigFile, ConfigFileView, Task, TaskMap, TaskView};
use crate::registry::files_of;
use crate::seqs::{dedup_first, lemma_dedup_first_concat, lemma_dedup_first_head, without};
use either::Either;
use indexmap::IndexMap;
use vstd::prelude::*;

verus! {

/// A source of tasks: the inline tasks of the configuration file at an index,
/// or the task file at a path.
pub type SourceView = Either<usize, Seq<char>>;

/// The directories that hold the task files of the project at `root`.
pub open spec fn project_task_dirs(root: Seq<char>) -> Seq<Seq<char>> {
    seq![
        joined_path(joined_path(root, ".mise"@), "tasks"@),
        joined_path(joined_path(joined_path(root, ".config"@), "mise"@), "tasks"@),
    ]
}

/// The directories to list for one configuration file: those of its project,
/// none if it names no project root.
pub open spec fn file_task_dirs(file: ConfigFileView) -> Seq<Seq<char>> {
    match file.project_root {
        Some(root) => project_task_dirs(root),
        None => Seq::empty(),
    }
}

/// The sources that one configuration file contributes: each task file found
/// for it, then the file's own inline tasks.
pub open spec fn file_sources(found: Seq<Seq<char>>, index: usize) -> Seq<SourceView> {
    Seq::new(found.len(), |j: int| Either::<usize, Seq<char>>::Right(found[j])).push(
        Either::Left(index),
    )
}

/// The sources of all configuration files in discovery order, `found[i]`
/// being the task files found for the file at index `i`.
pub open spec fn scan_sources(found: Seq<Seq<Seq<char>>>) -> Seq<SourceView>
    decreases found.len(),
{
    if found.len() == 0 {
        Seq::empty()
    } else {
        scan_sources(found.drop_last()) + file_sources(
            found.last(),
            (found.len() - 1) as usize,
        )
    }
}

/// The sources in the order in which they count: the last discovered first,
/// each source once.
pub open spec fn ordered_sources(found: Seq<Seq<Seq<char>>>) -> Seq<SourceView> {
    dedup_first(scan_sources(found).reverse())
}

/// The parse result that belongs to the source at position `j`.
pub open spec fn parsed_at(parsed: Seq<Option<TaskView>>, j: int) -> Option<TaskView> {
    if 0 <= j < parsed.len() {
        parsed[j]
    } else {
        None
    }
}

/// The tasks that one source yields: the inline tasks of a configuration
/// file, or the one task that its file parsed to, if it did.
pub open spec fn source_tasks(
    files: Seq<ConfigFileView>,
    source: SourceView,
    parsed: Option<TaskView>,
) -> Seq<TaskView> {
    match source {
        Either::Left(i) => if i < files.len() {
            files[i as int].tasks
        } else {
            Seq::empty()
        },
        Either::Right(_) => match parsed {
            Some(t) => seq![t],
            None => Seq::empty(),
        },
    }
}

/// The tasks of all sources, in the order of the sources.
pub open spec fn collected_tasks(
    files: Seq<ConfigFileView>,
    sources: Seq<SourceView>,
    parsed: Seq<Option<TaskView>>,
) -> Seq<TaskView>
    decreases sources.len(),
{
    if sources.len() == 0 {
        Seq::empty()
    } else {
        collected_tasks(files, sources.drop_last(), parsed) + source_tasks(
            files,
            sources.last(),
            parsed_at(parsed, sources.len() - 1),
        )
    }
}

/// The keys under which a task is found: its aliases, then its name.
pub open spec fn task_keys(t: TaskView) -> Seq<(Seq<char>, TaskView)> {
    Seq::new(t.aliases.len(), |i: int| (t.aliases[i], t)).push((t.name, t))
}

/// The keys of all tasks, in the order of the tasks.
pub open spec fn task_pairs(tasks: Seq<TaskView>) -> Seq<(Seq<char>, TaskView)>
    decreases tasks.len(),
{
    if tasks.len() == 0 {
        Seq::empty()
    } else {
        task_pairs(tasks.drop_last()) + task_keys(tasks.last())
    }
}

/// The task found under `key`: the first of `tasks` that has it as a name or
/// an alias.
pub open spec fn task_for(tasks: Seq<TaskView>, key: Seq<char>) -> Option<TaskView> {
    first_value(task_pairs(tasks), key)
}

/// The order of the sources, file by file: the file discovered last comes
/// first, with its inline tasks before its task files, which stand from the
/// last found to the first, each once; then come the sources of the files
/// before it in their own order, without the task files that the last file
/// listed too.
pub proof fn lemma_ordered_sources(found: Seq<Seq<Seq<char>>>)
    requires
        found.len() > 0,
    ensures
        ordered_sources(found) == dedup_first(
            file_sources(found.last(), (found.len() - 1) as usize).reverse(),
        ) + without(
            ordered_sources(found.drop_last()),
            file_sources(found.last(), (found.len() - 1) as usize).reverse(),
        ),
        ordered_sources(found).len() > 0,
        ordered_sources(found)[0] == Either::<usize, Seq<char>>::Left((found.len() - 1) as usize),
{
    let last = file_sources(found.last(), (found.len() - 1) as usize);
    let rest = scan_sources(found.drop_last());
    assert((rest + last).reverse() =~= last.reverse() + rest.reverse());
    lemma_dedup_first_concat(last.reverse(), rest.reverse());
    lemma_dedup_first_head(last.reverse());
    assert(last.reverse()[0] == last[last.len() - 1]);
}

/// Whether a task is found under `key`: by its name or by an alias.
pub open spec fn answers_to(t: TaskView, key: Seq<char>) -> bool {
    t.name == key || t.aliases.contains(key)
}

/// Under each of its keys a task, taken alone, is found; under no other.
pub proof fn lemma_task_keys(t: TaskView, key: Seq<char>)
    ensures
        first_value(task_keys(t), key) == if answers_to(t, key) {
            Some(t)
        } else {
            None
        },
{
    let pairs = task_keys(t);
    lemma_first_value_some(pairs, key);
    lemma_first_value_member(pairs, key);
    if answers_to(t, key) {
        if t.name == key {
            assert(pairs[t.aliases.len() as int].0 == key);
        } else {
            let i = choose|i: int| 0 <= i < t.aliases.len() && t.aliases[i] == key;
            assert(pairs[i].0 == key);
        }
    } else if has_key(pairs, key) {
        let i = position(pairs, key);
        if i < t.aliases.len() {
            assert(t.aliases[i] == key);
        }
    }
}

/// Of the tasks that are found under a key, the first in order is the one
/// found: a task at `i` that no task before it shares the key with.
pub proof fn lemma_task_for_first(tasks: Seq<TaskView>, key: Seq<char>, i: int)
    requires
        0 <= i < tasks.len(),
        answers_to(tasks[i], key),
        forall|j: int| 0 <= j < i ==> !answers_to(#[trigger] tasks[j], key),
    ensures
        task_for(tasks, key) == Some(tasks[i]),
    decreases tasks.len(),
{
    let rest = tasks.drop_last();
    lemma_first_value_concat(task_pairs(rest), task_keys(tasks.last()), key);
    lemma_task_keys(tasks.last(), key);
    if i == tasks.len() - 1 {
        assert forall|j: int| 0 <= j < rest.len() implies !answers_to(#[trigger] rest[j], key) by {
            assert(rest[j] == tasks[j]);
        }
        lemma_task_for_none(rest, key);
    } else {
        assert(rest[i] == tasks[i]);
        assert forall|j: int| 0 <= j < i implies !answers_to(#[trigger] rest[j], key) by {
            assert(rest[j] == tasks[j]);
        }
        lemma_task_for_first(rest, key, i);
    }
}

/// A key that no task has as a name or an alias finds nothing.
pub proof fn lemma_task_for_none(tasks: Seq<TaskView>, key: Seq<char>)
    requires
        forall|j: int| 0 <= j < tasks.len() ==> !answers_to(#[trigger] tasks[j], key),
    ensures
        task_for(tasks, key) is None,
    decreases tasks.len(),
{
    if tasks.len() > 0 {
        let rest = tasks.drop_last();
        lemma_first_value_concat(task_pairs(rest), task_keys(tasks.last()), key);
        lemma_task_keys(tasks.last(), key);
        assert(!answers_to(tasks[tasks.len() - 1], key));
        assert forall|j: int| 0 <= j < rest.len() implies !answers_to(#[trigger] rest[j], key) by {
            assert(rest[j] == tasks[j]);
        }
        lemma_task_for_none(rest, key);
    }
}

/// The tasks of the first source come first.
pub proof fn lemma_collected_front(
    files: Seq<ConfigFileView>,
    sources: Seq<SourceView>,
    parsed: Seq<Option<TaskView>>,
)
    requires
        sources.len() > 0,
    ensures
        source_tasks(files, sources[0], parsed_at(parsed, 0)).is_prefix_of(
            collected_tasks(files, sources, parsed),
        ),
    decreases sources.len(),
{
    let first = source_tasks(files, sources[0], parsed_at(parsed, 0));
    let rest = sources.drop_last();
    if sources.len() == 1 {
        assert(collected_tasks(files, rest, parsed) =~= Seq::empty());
        assert(collected_tasks(files, sources, parsed) =~= first);
    } else {
        assert(rest[0] == sources[0]);
        lemma_collected_front(files, rest, parsed);
    }
}

/// Inline over listed: where the sources are taken in their order, a task
/// that the file discovered last defines inline is found under its keys
/// before any task of a task file or of another file. Of the inline tasks
/// that share a key, the first in the file is the one found.
pub proof fn lemma_inline_task_wins(
    files: Seq<ConfigFileView>,
    found: Seq<Seq<Seq<char>>>,
    parsed: Seq<Option<TaskView>>,
    key: Seq<char>,
    a: int,
)
    requires
        0 < found.len() <= files.len(),
        found.len() - 1 <= usize::MAX,
        0 <= a < files[found.len() - 1].tasks.len(),
        answers_to(files[found.len() - 1].tasks[a], key),
        forall|b: int| 0 <= b < a ==> !answers_to(#[trigger] files[found.len() - 1].tasks[b], key),
    ensures
        task_for(collected_tasks(files, ordered_sources(found), parsed), key) == Some(
            files[found.len() - 1].tasks[a],
        ),
{
    let sources = ordered_sources(found);
    let inline = files[found.len() - 1].tasks;
    let all = collected_tasks(files, sources, parsed);
    lemma_ordered_sources(found);
    lemma_collected_front(files, sources, parsed);
    assert(source_tasks(files, sources[0], parsed_at(parsed, 0)) == inline);
    assert(all[a] == inline[a]);
    assert forall|b: int| 0 <= b < a implies !answers_to(#[trigger] all[b], key) by {
        assert(all[b] == inline[b]);
    }
    lemma_task_for_first(all, key, a);
}

/// The directories that hold the task files of the project at `project_root`.
pub fn task_dirs(project_root: &str) -> (r: Vec<String>)
    ensures
        r.deep_view() == project_task_dirs(project_root@),
{
    let local = path_join(project_root, ".mise");
    let local_tasks = path_join(local.as_str(), "tasks");
    let config = path_join(project_root, ".config");
    let shared = path_join(config.as_str(), "mise");
    let shared_tasks = path_join(shared.as_str(), "tasks");
    let mut r: Vec<String> = Vec::new();
    r.push(local_tasks);
    r.push(shared_tasks);
    assert(r.deep_view() =~= project_task_dirs(project_root@));
    r
}

/// For each configuration file, in order, the directories to list for task
/// files.
pub fn all_task_dirs(config_files: &IndexMap<String, ConfigFile>) -> (r: Vec<Vec<String>>)
    ensures
        r.deep_view().len() == files_of(*config_files).len(),
        forall|i: int|
            0 <= i < files_of(*config_files).len() ==> #[trigger] r.deep_view()[i]
                == file_task_dirs(files_of(*config_files)[i]),
{
    let n = config_map_len(config_files);
    let mut r: Vec<Vec<String>> = Vec::new();
    let mut i: usize = 0;
    while i < n
        invariant
            i <= n,
            n == config_entries(*config_files).len(),
            r@.len() == i,
            forall|k: int|
                0 <= k < i ==> #[trigger] r.deep_view()[k] == file_task_dirs(
                    files_of(*config_files)[k],
                ),
        decreases n - i,
    {
        let dirs = match config_map_get_index(config_files, i) {
            Some((_, file)) => match &file.project_root {
                Some(root) => task_dirs(root.as_str()),
                None => Vec::new(),
            },
            None => Vec::new(),
        };
        assert(dirs.deep_view() =~= file_task_dirs(files_of(*config_files)[i as int]));
        let ghost before = r.deep_view();
        r.push(dirs);
        assert(r.deep_view() =~= before.push(dirs.deep_view()));
        i += 1;
    }
    r
}

/// Appends the sources that the configuration file at `index` contributes.
fn push_file_sources(out: &mut Vec<Either<usize, String>>, found: &Vec<String>, index: usize)
    ensures
        sources_view(final(out)@) == sources_view(old(out)@) + file_sources(
            found.deep_view(),
            index,
        ),
{
    let ghost start = sources_view(out@);
    let mut j: usize = 0;
    while j < found.len()
        invariant
            j <= found@.len(),
            sources_view(out@).len() == start.len() + j,
            forall|k: int| 0 <= k < start.len() ==> #[trigger] sources_view(out@)[k] == start[k],
            forall|p: int|
                start.len() <= p < start.len() + j ==> #[trigger] sources_view(out@)[p] == Either::<
                    usize,
                    Seq<char>,
                >::Right(found@[p - start.len()]@),
        decreases found@.len() - j,
    {
        let ghost before = sources_view(out@);
        out.push(Either::Right(found[j].clone()));
        assert(sources_view(out@) =~= before.push(Either::Right(found@[j as int]@)));
        j += 1;
    }
    let ghost before = sources_view(out@);
    out.push(Either::Left(index));
    assert(sources_view(out@) =~= before.push(Either::Left(index)));
    assert(sources_view(out@) =~= start + file_sources(found.deep_view(), index));
}

/// The items of `v` from the last to the first.
fn reversed_sources(v: Vec<Either<usize, String>>) -> (r: Vec<Either<usize, String>>)
    ensures
        sources_view(r@) == sources_view(v@).reverse(),
{
    let ghost all = sources_view(v@);
    let mut rest = v;
    let mut r: Vec<Either<usize, String>> = Vec::new();
    while rest.len() > 0
        invariant
            rest@.len() + r@.len() == all.len(),
            forall|k: int| 0 <= k < rest@.len() ==> #[trigger] sources_view(rest@)[k] == all[k],
            forall|k: int|
                0 <= k < r@.len() ==> #[trigger] sources_view(r@)[k] == all[all.len() - 1 - k],
        decreases rest@.len(),
    {
        let ghost m = rest@.len() as int;
        let ghost seen = sources_view(rest@);
        let ghost before = sources_view(r@);
        let item = rest.pop().unwrap();
        assert(source_view(item) == seen[m - 1]);
        r.push(item);
        assert forall|k: int| 0 <= k < rest@.len() implies #[trigger] sources_view(rest@)[k]
            == all[k] by {
            assert(sources_view(rest@)[k] == seen[k]);
        }
        assert forall|k: int| 0 <= k < r@.len() implies #[trigger] sources_view(r@)[k] == all[all.len()
            - 1 - k] by {
            if k < before.len() {
                assert(sources_view(r@)[k] == before[k]);
            }
        }
    }
    assert(sources_view(r@) =~= all.reverse());
    r
}

/// The sources of tasks in the order in which they count, given for each
/// configuration file, in discovery order, the task files found under its
/// directories. What was discovered last comes first, and a task file that
/// was found for two configuration files is read once.
pub fn task_sources(found: &Vec<Vec<String>>) -> (r: Vec<Either<usize, String>>)
    ensures
        sources_view(r@) == ordered_sources(found.deep_view()),
{
    let mut all: Vec<Either<usize, String>> = Vec::new();
    let mut i: usize = 0;
    assert(found.deep_view().take(0) =~= Seq::empty());
    assert(sources_view(all@) =~= Seq::empty());
    while i < found.len()
        invariant
            i <= found@.len(),
            sources_view(all@) == scan_sources(found.deep_view().take(i as int)),
        decreases found@.len() - i,
    {
        push_file_sources(&mut all, &found[i], i);
        proof {
            let next = found.deep_view().take(i + 1);
            assert(next.drop_last() =~= found.deep_view().take(i as int));
            assert(next.last() == found@[i as int].deep_view());
        }
        i += 1;
    }
    assert(found.deep_view().take(found@.len() as int) =~= found.deep_view());
    unique_sources(reversed_sources(all))
}

/// Appends a copy of every task of `more` to `out`.
fn append_tasks(out: &mut Vec<Task>, more: &Vec<Task>)
    ensures
        final(out).deep_view() == old(out).deep_view() + more.deep_view(),
{
    let mut i: usize = 0;
    while i < more.len()
        invariant
            i <= more@.len(),
            out.deep_view() == old(out).deep_view() + more.deep_view().take(i as int),
        decreases more@.len() - i,
    {
        let ghost before = out.deep_view();
        let copy = more[i].clone();
        out.push(copy);
        assert(out.deep_view() =~= before.push(more@[i as int].deep_view()));
        assert(more.deep_view().take(i + 1) =~= more.deep_view().take(i as int).push(
            more@[i as int].deep_view(),
        ));
        assert(out.deep_view() =~= old(out).deep_view() + more.deep_view().take(i + 1));
        i += 1;
    }
    assert(more.deep_view().take(more@.len() as int) =~= more.deep_view());
}

/// The tasks of all sources, in the order of the sources. `parsed[j]` is the
/// task that the file of `sources[j]` parsed to, `None` where it did not
/// parse; for a source that is a configuration file it is not read.
pub fn collect_tasks(
    config_files: &IndexMap<String, ConfigFile>,
    sources: &Vec<Either<usize, String>>,
    parsed: &Vec<Option<Task>>,
) -> (r: Vec<Task>)
    ensures
        r.deep_view() == collected_tasks(
            files_of(*config_files),
            sources_view(sources@),
            parsed.deep_view(),
        ),
{
    let ghost files = files_of(*config_files);
    let ghost srcs = sources_view(sources@);
    let mut r: Vec<Task> = Vec::new();
    let mut j: usize = 0;
    assert(srcs.take(0) =~= Seq::empty());
    assert(r.deep_view() =~= Seq::empty());
    while j < sources.len()
        invariant
            j <= sources@.len(),
            files == files_of(*config_files),
            srcs == sources_view(sources@),
            r.deep_view() == collected_tasks(files, srcs.take(j as int), parsed.deep_view()),
        decreases sources@.len() - j,
    {
        let ghost before = r.deep_view();
        let ghost next = srcs.take(j + 1);
        proof {
            assert(next.drop_last() =~= srcs.take(j as int));
            assert(next.last() == source_view(sources@[j as int]));
        }
        match &sources[j] {
            Either::Left(i) => {
                match config_map_get_index(config_files, *i) {
                    Some((_, file)) => {
                        append_tasks(&mut r, &file.tasks);
                    },
                    None => {},
                }
            },
            Either::Right(_) => {
                if j < parsed.len() {
                    match &parsed[j] {
                        Some(task) => {
                            let copy = task.clone();
                            r.push(copy);
                            assert(r.deep_view() =~= before + seq![task.deep_view()]);
                        },
                        None => {},
                    }
                }
            },
        }
        assert(r.deep_view() =~= before + source_tasks(
            files,
            next.last(),
            parsed_at(parsed.deep_view(), j as int),
        ));
        j += 1;
    }
    assert(srcs.take(sources@.len() as int) =~= srcs);
    r
}

/// Appends the keys of one task, each with a copy of the task.
fn push_task_keys(out: &mut Vec<(String, Task)>, task: &Task)
    ensures
        pairs_view(final(out)@) == pairs_view(old(out)@) + task_keys(task.deep_view()),
{
    let ghost start = pairs_view(out@);
    let ghost t = task.deep_view();
    let mut i: usize = 0;
    while i < task.aliases.len()
        invariant
            i <= task.aliases@.len(),
            t == task.deep_view(),
            pairs_view(out@).len() == start.len() + i,
            forall|k: int| 0 <= k < start.len() ==> #[trigger] pairs_view(out@)[k] == start[k],
            forall|p: int|
                start.len() <= p < start.len() + i ==> #[trigger] pairs_view(out@)[p] == (
                    t.aliases[p - start.len()],
                    t,
                ),
        decreases task.aliases@.len() - i,
    {
        let ghost before = pairs_view(out@);
        let key = task.aliases[i].clone();
        let copy = task.clone();
        out.push((key, copy));
        assert(pairs_view(out@) =~= before.push((t.aliases[i as int], t)));
        i += 1;
    }
    let ghost before = pairs_view(out@);
    let key = task.name.clone();
    let copy = task.clone();
    out.push((key, copy));
    assert(pairs_view(out@) =~= before.push((t.name, t)));
    assert(pairs_view(out@) =~= start + task_keys(t));
}

/// Every key of every task, in the order of the tasks.
pub fn expand_tasks(tasks: &Vec<Task>) -> (r: Vec<(String, Task)>)
    ensures
        pairs_view(r@) == task_pairs(tasks.deep_view()),
{
    let mut r: Vec<(String, Task)> = Vec::new();
    let mut i: usize = 0;
    assert(tasks.deep_view().take(0) =~= Seq::empty());
    assert(pairs_view(r@) =~= Seq::empty());
    while i < tasks.len()
        invariant
            i <= tasks@.len(),
            pairs_view(r@) == task_pairs(tasks.deep_view().take(i as int)),
        decreases tasks@.len() - i,
    {
        push_task_keys(&mut r, &tasks[i]);
        proof {
            let next = tasks.deep_view().take(i + 1);
            assert(next.drop_last() =~= tasks.deep_view().take(i as int));
            assert(next.last() == tasks@[i as int].deep_view());
        }
        i += 1;
    }
    assert(tasks.deep_view().take(tasks@.len() as int) =~= tasks.deep_view());
    r
}

/// The table of tasks by key. Of two pairs with one key the earlier wins:
/// the pairs are entered from the last to the first, each replacing what
/// stood under its key.
pub fn index_tasks(pairs: &Vec<(String, Task)>) -> (r: TaskMap)
    ensures
        forall|k: Seq<char>| #[trigger] r.value_of(k) == first_value(pairs_view(pairs@), k),
{
    let ghost all = pairs_view(pairs@);
    let mut r: TaskMap = KeyedVec::new();
    let mut i: usize = pairs.len();
    assert(all.skip(i as int) =~= Seq::empty());
    while i > 0
        invariant
            i <= pairs@.len(),
            all == pairs_view(pairs@),
            forall|k: Seq<char>| #[trigger] lookup(r@, k) == first_value(all.skip(i as int), k),
        decreases i,
    {
        i -= 1;
        let ghost before = r@;
        let key = pairs[i].0.clone();
        let task = pairs[i].1.clone();
        r.insert(key, task);
        proof {
            lemma_put(before, all[i as int].0, all[i as int].1);
            assert(all.skip(i as int) =~= seq![all[i as int]] + all.skip(i + 1));
            assert forall|k: Seq<char>| #[trigger] lookup(r@, k) == first_value(
                all.skip(i as int),
                k,
            ) by {
                lemma_first_value_front(all[i as int], all.skip(i + 1), k);
                assert(lookup(before, k) == first_value(all.skip(i + 1), k));
            }
        }
    }
    assert(all.skip(0) =~= all);
    r
}

/// The task found under each name and alias. The sources are taken in the
/// order given, and the first task that has a key is the one found under it.
pub fn load_all_tasks(
    config_files: &IndexMap<String, ConfigFile>,
    sources: &Vec<Either<usize, String>>,
    parsed: &Vec<Option<Task>>,
) -> (r: TaskMap)
    ensures
        forall|k: Seq<char>| #[trigger]
            r.value_of(k) == task_for(
                collected_tasks(
                    files_of(*config_files),
                    sources_view(sources@),
                    parsed.deep_view(),
                ),
                k,
            ),
{
    let tasks = collect_tasks(config_files, sources, parsed);
    let pairs = expand_tasks(&tasks);
    index_tasks(&pairs)
}

/// The entries of `all` whose key is the name of their task.
pub fn named_tasks(all: &TaskMap) -> (r: TaskMap)
    ensures
        forall|k: Seq<char>| #[trigger]
            r.value_of(k) == match all.value_of(k) {
                Some(t) => if t.name == k {
                    Some(t)
                } else {
                    None
                },
                None => None,
            },
{
    let mut r: TaskMap = KeyedVec::new();
    let n = all.len();
    let mut i: usize = 0;
    while i < n
        invariant
            i <= n,
            n == all@.len(),
            distinct_keys(all@),
            forall|k: Seq<char>| #[trigger]
                lookup(r@, k) == match lookup(all@.take(i as int), k) {
                    Some(t) => if t.name == k {
                        Some(t)
                    } else {
                        None
                    },
                    None => None,
                },
        decreases n - i,
    {
        let ghost before = r@;
        let ghost seen = all@.take(i as int);
        let ghost next = all@.take(i + 1);
        proof {
            assert(next =~= seen.push(all@[i as int]));
            lemma_distinct_take(all@, i + 1);
            lemma_distinct_take(all@, i as int);
            lemma_lookup_push(seen, all@[i as int]);
        }
        match all.entry_at(i) {
            Some((key, task)) => {
                if task.name == *key {
                    let copy = task.clone();
                    r.insert(key.clone(), copy);
                    proof {
                        lemma_put(before, key@, task.deep_view());
                    }
                }
            },
            None => {},
        }
        i += 1;
    }
    assert(all@.take(n as int) =~= all@);
    r
}

} // verus!
