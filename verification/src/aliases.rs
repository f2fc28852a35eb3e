//! Tool aliases: each tool has a table from alias to version, and tables from
//! several places are merged, the later place winning.

use crate::assoc::{
    distinct_keys, lemma_distinct_take, lemma_found_at, lemma_lookup_push, lemma_put, lookup, put,
};
use crate::bindings::{config_entries, config_map_get_index, config_map_len};
use crate::keyed::KeyedVec;
use crate::model::{AliasMap, AliasMapView, ConfigFile, ConfigFileView, StrMap, StrMapView};
use crate::registry::files_of;
use crate::text::copy_text;
use indexmap::IndexMap;
use vstd::prelude::*;

verus! {

/// The version that `name` stands for with `tool`, if the map says.
pub open spec fn alias_in(a: AliasMapView, tool: Seq<char>, name: Seq<char>) -> Option<Seq<char>> {
    match lookup(a, tool) {
        Some(table) => lookup(table, name),
        None => None,
    }
}

/// No tool has an empty table.
pub open spec fn tables_filled(a: AliasMapView) -> bool {
    forall|i: int| 0 <= i < a.len() ==> (#[trigger] a[i]).1.len() > 0
}

/// The alias maps of the configuration files, in order.
pub open spec fn alias_maps(files: Seq<ConfigFileView>) -> Seq<AliasMapView> {
    Seq::new(files.len(), |i: int| files[i].aliases)
}

/// What `name` stands for with `tool` after merging the maps in order: the
/// answer of the last map that has one.
pub open spec fn merged_alias(maps: Seq<AliasMapView>, tool: Seq<char>, name: Seq<char>) -> Option<
    Seq<char>,
>
    decreases maps.len(),
{
    if maps.len() == 0 {
        None
    } else {
        match alias_in(maps.last(), tool, name) {
            Some(v) => Some(v),
            None => merged_alias(maps.drop_last(), tool, name),
        }
    }
}

/// What `name` stands for with `tool` according to the tools themselves: the
/// answer of the last table given for that tool that has one.
pub open spec fn provided_alias(
    provided: Seq<(Seq<char>, StrMapView)>,
    tool: Seq<char>,
    name: Seq<char>,
) -> Option<Seq<char>>
    decreases provided.len(),
{
    if provided.len() == 0 {
        None
    } else if provided.last().0 == tool && lookup(provided.last().1, name) is Some {
        lookup(provided.last().1, name)
    } else {
        provided_alias(provided.drop_last(), tool, name)
    }
}

/// Makes `name` stand for `value` with `tool`, whatever it stood for.
pub fn set_alias(aliases: &mut AliasMap, tool: &str, name: String, value: String)
    ensures
        forall|t: Seq<char>, n: Seq<char>| #[trigger]
            alias_in(final(aliases)@, t, n) == if t == tool@ && n == name@ {
                Some(value@)
            } else {
                alias_in(old(aliases)@, t, n)
            },
        tables_filled(old(aliases)@) ==> tables_filled(final(aliases)@),
{
    let ghost before = aliases@;
    match aliases.index_of(tool) {
        Some(i) => {
            let mut table = aliases.replace_at(i, KeyedVec::new());
            let ghost old_table = table@;
            table.insert(name, value);
            let ghost new_table = table@;
            aliases.replace_at(i, table);
            proof {
                assert(aliases@ =~= before.update(i as int, (tool@, new_table)));
                assert(aliases@ =~= put(before, tool@, new_table));
                lemma_put(before, tool@, new_table);
                lemma_put(old_table, name@, value@);
                lemma_found_at(before, tool@, i as int);
                assert forall|t: Seq<char>, n: Seq<char>| #[trigger]
                    alias_in(aliases@, t, n) == if t == tool@ && n == name@ {
                        Some(value@)
                    } else {
                        alias_in(before, t, n)
                    } by {
                    if t == tool@ {
                        assert(lookup(aliases@, t) == Some(new_table));
                        assert(lookup(before, t) == Some(old_table));
                        if n != name@ {
                            assert(lookup(new_table, n) == lookup(old_table, n));
                        }
                    } else {
                        assert(lookup(aliases@, t) == lookup(before, t));
                    }
                }
                if tables_filled(before) {
                    assert forall|k: int| 0 <= k < aliases@.len() implies (#[trigger] aliases@[k]).1.len()
                        > 0 by {
                        if k != i {
                            assert(aliases@[k] == before[k]);
                        }
                    }
                }
            }
        },
        None => {
            let mut table: StrMap = KeyedVec::new();
            table.insert(name, value);
            let ghost new_table = table@;
            aliases.insert(copy_text(tool), table);
            proof {
                lemma_put(before, tool@, new_table);
                lemma_put(Seq::<(Seq<char>, Seq<char>)>::empty(), name@, value@);
                assert forall|t: Seq<char>, n: Seq<char>| #[trigger]
                    alias_in(aliases@, t, n) == if t == tool@ && n == name@ {
                        Some(value@)
                    } else {
                        alias_in(before, t, n)
                    } by {
                    if t == tool@ {
                        assert(lookup(aliases@, t) == Some(new_table));
                        assert(lookup(before, t) is None);
                        if n != name@ {
                            assert(lookup(new_table, n) == lookup(
                                Seq::<(Seq<char>, Seq<char>)>::empty(),
                                n,
                            ));
                        }
                    } else {
                        assert(lookup(aliases@, t) == lookup(before, t));
                    }
                }
                if tables_filled(before) {
                    assert forall|k: int| 0 <= k < aliases@.len() implies (#[trigger] aliases@[k]).1.len()
                        > 0 by {
                        if k < before.len() {
                            assert(aliases@[k] == before[k]);
                        }
                    }
                }
            }
        },
    }
}

/// Enters every alias of `table` for `tool`, replacing what the names stood for.
pub fn merge_table(aliases: &mut AliasMap, tool: &str, table: &StrMap)
    ensures
        forall|t: Seq<char>, n: Seq<char>| #[trigger]
            alias_in(final(aliases)@, t, n) == if t == tool@ && lookup(table@, n) is Some {
                lookup(table@, n)
            } else {
                alias_in(old(aliases)@, t, n)
            },
        tables_filled(old(aliases)@) ==> tables_filled(final(aliases)@),
{
    let n = table.len();
    let mut j: usize = 0;
    while j < n
        invariant
            j <= n,
            n == table@.len(),
            distinct_keys(table@),
            forall|t: Seq<char>, q: Seq<char>| #[trigger]
                alias_in(aliases@, t, q) == if t == tool@ && lookup(table@.take(j as int), q)
                    is Some {
                    lookup(table@.take(j as int), q)
                } else {
                    alias_in(old(aliases)@, t, q)
                },
            tables_filled(old(aliases)@) ==> tables_filled(aliases@),
        decreases n - j,
    {
        let ghost seen = table@.take(j as int);
        proof {
            assert(table@.take(j + 1) =~= seen.push(table@[j as int]));
            lemma_distinct_take(table@, j + 1);
            lemma_lookup_push(seen, table@[j as int]);
        }
        match table.entry_at(j) {
            Some((name, value)) => {
                set_alias(aliases, tool, name.clone(), value.clone());
            },
            None => {},
        }
        j += 1;
    }
    assert(table@.take(n as int) =~= table@);
}

/// Enters every alias of `from`, replacing what the names stood for.
pub fn merge_aliases(aliases: &mut AliasMap, from: &AliasMap)
    ensures
        forall|t: Seq<char>, n: Seq<char>| #[trigger]
            alias_in(final(aliases)@, t, n) == match alias_in(from@, t, n) {
                Some(v) => Some(v),
                None => alias_in(old(aliases)@, t, n),
            },
        tables_filled(old(aliases)@) ==> tables_filled(final(aliases)@),
{
    let n = from.len();
    let mut i: usize = 0;
    while i < n
        invariant
            i <= n,
            n == from@.len(),
            distinct_keys(from@),
            forall|t: Seq<char>, q: Seq<char>| #[trigger]
                alias_in(aliases@, t, q) == match alias_in(from@.take(i as int), t, q) {
                    Some(v) => Some(v),
                    None => alias_in(old(aliases)@, t, q),
                },
            tables_filled(old(aliases)@) ==> tables_filled(aliases@),
        decreases n - i,
    {
        let ghost seen = from@.take(i as int);
        let ghost before = aliases@;
        proof {
            assert(from@.take(i + 1) =~= seen.push(from@[i as int]));
            lemma_distinct_take(from@, i + 1);
            lemma_lookup_push(seen, from@[i as int]);
        }
        match from.entry_at(i) {
            Some((tool, table)) => {
                merge_table(aliases, tool.as_str(), table);
                proof {
                    assert forall|t: Seq<char>, q: Seq<char>| #[trigger]
                        alias_in(aliases@, t, q) == match alias_in(from@.take(i + 1), t, q) {
                            Some(v) => Some(v),
                            None => alias_in(old(aliases)@, t, q),
                        } by {
                        assert(alias_in(before, t, q) == match alias_in(seen, t, q) {
                            Some(v) => Some(v),
                            None => alias_in(old(aliases)@, t, q),
                        });
                        if t == tool@ {
                            assert(lookup(from@.take(i + 1), t) == Some(table@));
                            assert(lookup(seen, t) is None);
                        } else {
                            assert(lookup(from@.take(i + 1), t) == lookup(seen, t));
                        }
                    }
                }
            },
            None => {},
        }
        i += 1;
    }
    assert(from@.take(n as int) =~= from@);
}

/// The aliases of all configuration files: the files are taken in discovery
/// order, and what a later file says of a tool and a name replaces what an
/// earlier one said.
pub fn load_aliases(config_files: &IndexMap<String, ConfigFile>) -> (r: AliasMap)
    ensures
        forall|t: Seq<char>, n: Seq<char>| #[trigger]
            alias_in(r@, t, n) == merged_alias(alias_maps(files_of(*config_files)), t, n),
        tables_filled(r@),
{
    let ghost maps = alias_maps(files_of(*config_files));
    let mut r: AliasMap = KeyedVec::new();
    let n = config_map_len(config_files);
    let mut i: usize = 0;
    assert(maps.take(0) =~= Seq::empty());
    while i < n
        invariant
            i <= n,
            n == config_entries(*config_files).len(),
            maps == alias_maps(files_of(*config_files)),
            forall|t: Seq<char>, q: Seq<char>| #[trigger]
                alias_in(r@, t, q) == merged_alias(maps.take(i as int), t, q),
            tables_filled(r@),
        decreases n - i,
    {
        proof {
            assert(maps.take(i + 1).drop_last() =~= maps.take(i as int));
            assert(maps.take(i + 1).last() == maps[i as int]);
        }
        match config_map_get_index(config_files, i) {
            Some((_, file)) => {
                merge_aliases(&mut r, &file.aliases);
            },
            None => {},
        }
        i += 1;
    }
    assert(maps.take(n as int) =~= maps);
    r
}

/// The aliases of the configuration together with those that the tools
/// provide themselves. `provided` holds, for each tool that was asked, its
/// name and its table. Where the configuration has an alias, it stands; else
/// the last table given for the tool decides.
pub fn load_all_aliases(config_aliases: &AliasMap, provided: &Vec<(String, StrMap)>) -> (r:
    AliasMap)
    ensures
        forall|t: Seq<char>, n: Seq<char>| #[trigger]
            alias_in(r@, t, n) == match alias_in(config_aliases@, t, n) {
                Some(v) => Some(v),
                None => provided_alias(provided.deep_view(), t, n),
            },
        tables_filled(r@),
{
    let ghost all = provided.deep_view();
    let mut r: AliasMap = KeyedVec::new();
    let mut i: usize = 0;
    assert(all.take(0) =~= Seq::empty());
    while i < provided.len()
        invariant
            i <= provided@.len(),
            all == provided.deep_view(),
            forall|t: Seq<char>, q: Seq<char>| #[trigger]
                alias_in(r@, t, q) == provided_alias(all.take(i as int), t, q),
            tables_filled(r@),
        decreases provided@.len() - i,
    {
        proof {
            assert(all.take(i + 1).drop_last() =~= all.take(i as int));
            assert(all.take(i + 1).last() == all[i as int]);
            assert(all[i as int] == (provided@[i as int].0@, provided@[i as int].1@));
        }
        merge_table(&mut r, provided[i].0.as_str(), &provided[i].1);
        i += 1;
    }
    assert(all.take(provided@.len() as int) =~= all);
    merge_aliases(&mut r, config_aliases);
    r
}

/// What the configuration makes of version `v` of `tool`: the version that
/// `v` is an alias for, if the configuration has such an alias.
pub fn config_alias(config_aliases: &AliasMap, tool: &str, v: &str) -> (r: Option<String>)
    ensures
        r.deep_view() == alias_in(config_aliases@, tool@, v@),
{
    match config_aliases.get(tool) {
        Some(table) => match table.get(v) {
            Some(version) => Some(version.clone()),
            None => None,
        },
        None => None,
    }
}

/// The version that `v` stands for with `tool`: what the configuration says,
/// else what the tool's own table says, else `v` itself.
pub fn resolve_alias(config_aliases: &AliasMap, tool: &str, tool_aliases: &StrMap, v: &str) -> (r:
    String)
    ensures
        r@ == match alias_in(config_aliases@, tool@, v@) {
            Some(version) => version,
            None => match lookup(tool_aliases@, v@) {
                Some(version) => version,
                None => v@,
            },
        },
{
    match config_alias(config_aliases, tool, v) {
        Some(version) => version,
        None => match tool_aliases.get(v) {
            Some(version) => version.clone(),
            None => copy_text(v),
        },
    }
}

/// Of two files that give `name` a version for `tool`, the later decides:
/// the merged answer is that of the file at `i` when no file after it has one.
pub proof fn lemma_alias_last_write_wins(
    maps: Seq<AliasMapView>,
    tool: Seq<char>,
    name: Seq<char>,
    i: int,
)
    requires
        0 <= i < maps.len(),
        alias_in(maps[i], tool, name) is Some,
        forall|j: int| i < j < maps.len() ==> alias_in(#[trigger] maps[j], tool, name) is None,
    ensures
        merged_alias(maps, tool, name) == alias_in(maps[i], tool, name),
    decreases maps.len(),
{
    if i < maps.len() - 1 {
        let d = maps.drop_last();
        assert(alias_in(maps[maps.len() - 1], tool, name) is None);
        assert(d[i] == maps[i]);
        assert forall|j: int| i < j < d.len() implies alias_in(#[trigger] d[j], tool, name)
            is None by {
            assert(d[j] == maps[j]);
        }
        lemma_alias_last_write_wins(d, tool, name, i);
    }
}

/// A name that no file gives a version for `tool` has none after merging.
pub proof fn lemma_alias_absent(maps: Seq<AliasMapView>, tool: Seq<char>, name: Seq<char>)
    requires
        forall|j: int| 0 <= j < maps.len() ==> alias_in(#[trigger] maps[j], tool, name) is None,
    ensures
        merged_alias(maps, tool, name) is None,
    decreases maps.len(),
{
    if maps.len() > 0 {
        let d = maps.drop_last();
        assert(alias_in(maps[maps.len() - 1], tool, name) is None);
        assert forall|j: int| 0 <= j < d.len() implies alias_in(#[trigger] d[j], tool, name)
            is None by {
            assert(d[j] == maps[j]);
        }
        lemma_alias_absent(d, tool, name);
    }
}

} // verus!
