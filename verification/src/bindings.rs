//! The outside code that this crate relies on, and what it takes for granted
//! about it. Nothing in this file is proved: each contract restates what the
//! named function of `indexmap`, `itertools` or `std` documents.

use crate::assoc::{has_key, put};
use crate::model::{ConfigFile, ConfigFileView};
use crate::seqs::dedup_first;
use either::Either;
use indexmap::IndexMap;
use itertools::Itertools;
use std::path::Path;
use vstd::prelude::*;

verus! {

/// `indexmap::IndexMap`, a map that keeps its entries in the order of
/// insertion. Nothing of its inside is seen here: what a map holds is
/// named by `config_entries`, `sourced_entries` and `var_entries`.
#[verifier::external_type_specification]
#[verifier::external_body]
#[verifier::reject_recursive_types(K)]
#[verifier::reject_recursive_types(V)]
#[verifier::reject_recursive_types(S)]
pub struct ExIndexMap<K, V, S>(IndexMap<K, V, S>);

/// `either::Either`, with its two variants `Left` and `Right`.
#[verifier::external_type_specification]
#[verifier::reject_recursive_types(L)]
#[verifier::reject_recursive_types(R)]
pub struct ExEither<L, R>(Either<L, R>);

/// The entries of an `IndexMap` of configuration files by path, in the
/// order of insertion.
pub uninterp spec fn config_entries(m: IndexMap<String, ConfigFile>) -> Seq<
    (Seq<char>, ConfigFileView),
>;

/// The entries of an `IndexMap` from variable to value and source, in the
/// order of insertion.
pub uninterp spec fn sourced_entries(m: IndexMap<String, (String, String)>) -> Seq<
    (Seq<char>, (Seq<char>, Seq<char>)),
>;

/// The entries of an `IndexMap` from variable to value, in the order of
/// insertion.
pub uninterp spec fn var_entries(m: IndexMap<String, String>) -> Seq<(Seq<char>, Seq<char>)>;

/// What `Path::join` makes of a base path and a path to append.
pub uninterp spec fn joined_path(base: Seq<char>, rel: Seq<char>) -> Seq<char>;

/// What `Path::file_name` finds as the last component of a path.
pub uninterp spec fn path_file_name(path: Seq<char>) -> Option<Seq<char>>;

/// A source of tasks with its path as a sequence of characters.
pub open spec fn source_view(e: Either<usize, String>) -> Either<usize, Seq<char>> {
    match e {
        Either::Left(i) => Either::Left(i),
        Either::Right(p) => Either::Right(p@),
    }
}

/// The views of a sequence of task sources.
pub open spec fn sources_view(s: Seq<Either<usize, String>>) -> Seq<Either<usize, Seq<char>>> {
    Seq::new(s.len(), |i: int| source_view(s[i]))
}

/// `IndexMap::new`: the new map has no entries.
#[verifier::external_body]
pub(crate) fn config_map_new() -> (r: IndexMap<String, ConfigFile>)
    ensures
        config_entries(r) == Seq::<(Seq<char>, ConfigFileView)>::empty(),
{
    IndexMap::new()
}

/// `IndexMap::insert`: a key that the map holds keeps its place and gets the
/// new value; a new key goes to the end.
#[verifier::external_body]
pub(crate) fn config_map_insert(m: &mut IndexMap<String, ConfigFile>, path: String, file: ConfigFile)
    ensures
        config_entries(*final(m)) == put(config_entries(*old(m)), path@, file.deep_view()),
{
    m.insert(path, file);
}

/// `IndexMap::len`: the number of entries. Below that number no two
/// positions hold the same key.
#[verifier::external_body]
pub(crate) fn config_map_len(m: &IndexMap<String, ConfigFile>) -> (r: usize)
    ensures
        r == config_entries(*m).len(),
        forall|i: int, j: int|
            0 <= i < j < r ==> (#[trigger] config_entries(*m)[i]).0 != (#[trigger] config_entries(
                *m,
            )[j]).0,
{
    m.len()
}

/// `IndexMap::get_index`: the entry at a position, for positions below the length.
#[verifier::external_body]
pub(crate) fn config_map_get_index(m: &IndexMap<String, ConfigFile>, i: usize) -> (r: Option<
    (&String, &ConfigFile),
>)
    ensures
        match r {
            Some((k, f)) => i < config_entries(*m).len() && k@ == config_entries(*m)[i as int].0
                && f.deep_view() == config_entries(*m)[i as int].1,
            None => i >= config_entries(*m).len(),
        },
{
    m.get_index(i)
}

/// `IndexMap::len`: the number of entries. Below that number no two
/// positions hold the same key.
#[verifier::external_body]
pub(crate) fn sourced_len(m: &IndexMap<String, (String, String)>) -> (r: usize)
    ensures
        r == sourced_entries(*m).len(),
        forall|i: int, j: int|
            0 <= i < j < r ==> (#[trigger] sourced_entries(*m)[i]).0 != (#[trigger] sourced_entries(
                *m,
            )[j]).0,
{
    m.len()
}

/// `IndexMap::get_index`: the entry at a position, for positions below the length.
#[verifier::external_body]
pub(crate) fn sourced_get_index(m: &IndexMap<String, (String, String)>, i: usize) -> (r: Option<
    (&String, &(String, String)),
>)
    ensures
        match r {
            Some((k, v)) => i < sourced_entries(*m).len() && k@ == sourced_entries(*m)[i as int].0
                && (v.0@, v.1@) == sourced_entries(*m)[i as int].1,
            None => i >= sourced_entries(*m).len(),
        },
{
    m.get_index(i)
}

/// `IndexMap::get_index_of`: the position of the entry with this key, if
/// there is one.
#[verifier::external_body]
pub(crate) fn sourced_get_index_of(m: &IndexMap<String, (String, String)>, key: &str) -> (r: Option<
    usize,
>)
    ensures
        match r {
            Some(i) => i < sourced_entries(*m).len() && sourced_entries(*m)[i as int].0 == key@,
            None => !has_key(sourced_entries(*m), key@),
        },
{
    m.get_index_of(key)
}

/// `IndexMap::insert`: a key that the map holds keeps its place and gets the
/// new value; a new key goes to the end.
#[verifier::external_body]
pub(crate) fn sourced_insert(
    m: &mut IndexMap<String, (String, String)>,
    key: String,
    value: String,
    source: String,
)
    ensures
        sourced_entries(*final(m)) == put(sourced_entries(*old(m)), key@, (value@, source@)),
{
    m.insert(key, (value, source));
}

/// `IndexMap::clone`: the copy has the entries of the map, in its order.
#[verifier::external_body]
pub(crate) fn sourced_clone(m: &IndexMap<String, (String, String)>) -> (r: IndexMap<
    String,
    (String, String),
>)
    ensures
        sourced_entries(r) == sourced_entries(*m),
{
    m.clone()
}

/// `IndexMap::new`: the new map has no entries.
#[verifier::external_body]
pub(crate) fn var_map_new() -> (r: IndexMap<String, String>)
    ensures
        var_entries(r) == Seq::<(Seq<char>, Seq<char>)>::empty(),
{
    IndexMap::new()
}

/// `IndexMap::insert`: a key that the map holds keeps its place and gets the
/// new value; a new key goes to the end.
#[verifier::external_body]
pub(crate) fn var_map_insert(m: &mut IndexMap<String, String>, key: String, value: String)
    ensures
        var_entries(*final(m)) == put(var_entries(*old(m)), key@, value@),
{
    m.insert(key, value);
}

/// `Itertools::unique` on strings: of equal strings the first stays, and what
/// stays keeps its order.
#[verifier::external_body]
pub(crate) fn unique_strings(v: Vec<String>) -> (r: Vec<String>)
    ensures
        r.deep_view() == dedup_first(v.deep_view()),
{
    v.into_iter().unique().collect()
}

/// `Itertools::unique` on task sources: of equal sources the first stays, and
/// what stays keeps its order.
#[verifier::external_body]
pub(crate) fn unique_sources(v: Vec<Either<usize, String>>) -> (r: Vec<Either<usize, String>>)
    ensures
        sources_view(r@) == dedup_first(sources_view(v@)),
{
    v.into_iter().unique().collect()
}

/// `Path::join`: the result depends on the two paths alone.
#[verifier::external_body]
pub(crate) fn path_join(base: &str, rel: &str) -> (r: String)
    ensures
        r@ == joined_path(base@, rel@),
{
    Path::new(base).join(rel).to_string_lossy().into_owned()
}

/// `Path::file_name`: the result depends on the path alone.
#[verifier::external_body]
pub(crate) fn file_name_of(path: &str) -> (r: Option<String>)
    ensures
        r.deep_view() == path_file_name(path@),
{
    match Path::new(path).file_name() {
        Some(name) => Some(name.to_string_lossy().into_owned()),
        None => None,
    }
}

} // verus!
