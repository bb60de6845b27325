//! The two exact duplicate indices: sources grouped by schema fingerprint and
//! files grouped by content checksum. Groups of one are dropped, and groups
//! are listed in ascending key order.

use std::collections::HashMap;
use vstd::prelude::*;
use vstd::std_specs::hash::group_hash_axioms;
use crate::model::{Crc32HashEntry, DirectoryEntry, SimilarityHashEntry};
use crate::sources::{
    all_hashes, all_schemas, collect_column_sets, collect_content_hashes, content_list,
    copy_strings, schema_list, ColumnSet, ContentHash, ContentView, SchemaView,
};
use crate::text::{lemma_text_lt_le, lemma_text_not_le, str_le, text_le, text_lt, texts};

verus! {

/// Labels of the schemas with fingerprint `hash`, in order.
pub open spec fn sources_with_fingerprint(schemas: Seq<SchemaView>, hash: u32) -> Seq<Seq<char>>
    decreases schemas.len(),
{
    if schemas.len() == 0 {
        Seq::empty()
    } else if schemas.last().fingerprint == hash {
        sources_with_fingerprint(schemas.drop_last(), hash).push(schemas.last().source)
    } else {
        sources_with_fingerprint(schemas.drop_last(), hash)
    }
}

/// Columns of the first schema with fingerprint `hash`.
pub open spec fn example_columns(schemas: Seq<SchemaView>, hash: u32) -> Seq<Seq<char>>
    decreases schemas.len(),
{
    if schemas.len() == 0 {
        Seq::empty()
    } else if sources_with_fingerprint(schemas.drop_last(), hash).len() > 0 {
        example_columns(schemas.drop_last(), hash)
    } else if schemas.last().fingerprint == hash {
        schemas.last().columns
    } else {
        Seq::empty()
    }
}

/// Whether `entry` lists exactly the schemas that share its fingerprint.
pub open spec fn is_fingerprint_group(entry: SimilarityHashEntry, schemas: Seq<SchemaView>) -> bool
{
    &&& texts(entry.sources@) == sources_with_fingerprint(schemas, entry.hash)
    &&& texts(entry.example_columns@) == example_columns(schemas, entry.hash)
}

/// Whether `table` is the fingerprint index of `schemas`: one group for each
/// fingerprint that two or more schemas share, and no other, in strictly
/// ascending order of fingerprint.
pub open spec fn is_fingerprint_table(
    table: Seq<SimilarityHashEntry>,
    schemas: Seq<SchemaView>,
) -> bool {
    &&& forall|k: int|
        0 <= k < table.len() ==> is_fingerprint_group(#[trigger] table[k], schemas)
            && table[k].sources.len() >= 2
    &&& forall|a: int, b: int| 0 <= a < b < table.len() ==> table[a].hash < table[b].hash
    &&& forall|hash: u32| #[trigger]
        sources_with_fingerprint(schemas, hash).len() >= 2 ==> exists|k: int|
            0 <= k < table.len() && #[trigger] table[k].hash == hash
}

/// Groups the schemas by fingerprint.
pub fn group_by_fingerprint(sets: &Vec<ColumnSet>) -> (table: Vec<SimilarityHashEntry>)
    ensures
        is_fingerprint_table(table@, schema_list(sets@)),
{
    broadcast use group_hash_axioms;

    let ghost all = schema_list(sets@);
    // The groups in the order in which their fingerprints were first met,
    // and where each fingerprint's group stands.
    let mut groups: Vec<SimilarityHashEntry> = Vec::new();
    let mut index: HashMap<u32, usize> = HashMap::new();
    let mut i: usize = 0;
    assert(all.take(0) =~= Seq::<SchemaView>::empty());
    while i < sets.len()
        invariant
            i <= sets.len(),
            all == schema_list(sets@),
            forall|k: int|
                0 <= k < groups.len() ==> is_fingerprint_group(
                    #[trigger] groups[k],
                    all.take(i as int),
                ) && groups[k].sources.len() >= 1,
            forall|k: int|
                0 <= k < groups.len() ==> index@.contains_key((#[trigger] groups[k]).hash)
                    && index@[groups[k].hash] == k,
            forall|h: u32|
                index@.contains_key(h) ==> (#[trigger] index@[h]) < groups.len()
                    && groups[index@[h] as int].hash == h,
            forall|h: u32| #[trigger]
                sources_with_fingerprint(all.take(i as int), h).len() >= 1
                    ==> index@.contains_key(h),
        decreases sets.len() - i,
    {
        let set = &sets[i];
        let hash = set.fingerprint;
        let ghost seen = all.take(i as int);
        let ghost now = all.take(i + 1);
        proof {
            assert(now.drop_last() =~= seen);
            assert(now.last() == set@);
        }
        let found: Option<usize> = match index.get(&hash) {
            Some(pos) => Some(*pos),
            None => None,
        };
        let ghost old_groups = groups@;
        match found {
            Some(pos) => {
                let mut group = groups.remove(pos);
                let ghost before = group.sources@;
                group.sources.push(set.source.clone());
                assert(texts(group.sources@) =~= texts(before).push(set.source@));
                groups.insert(pos, group);
                proof {
                    assert forall|k: int| 0 <= k < groups.len() implies is_fingerprint_group(
                        #[trigger] groups[k],
                        now,
                    ) && groups[k].sources.len() >= 1 && index@.contains_key(groups[k].hash)
                        && index@[groups[k].hash] == k by {
                        if k != pos {
                            assert(groups[k] == old_groups[k]);
                            assert(old_groups[k].hash != hash);
                        }
                    }
                    assert forall|h: u32| index@.contains_key(h) implies (#[trigger] index@[h])
                        < groups.len() && groups[index@[h] as int].hash == h by {
                        assert(groups[index@[h] as int].hash == old_groups[index@[h] as int].hash);
                    }
                    assert(index@.contains_key(hash));
                    assert forall|h: u32| #[trigger]
                        sources_with_fingerprint(now, h).len() >= 1 implies index@.contains_key(
                        h,
                    ) by {
                        if h != hash {
                            assert(sources_with_fingerprint(seen, h).len() >= 1);
                        }
                    }
                }
            },
            None => {
                proof {
                    assert(sources_with_fingerprint(seen, hash) =~= Seq::<Seq<char>>::empty());
                }
                let mut sources: Vec<String> = Vec::new();
                sources.push(set.source.clone());
                assert(texts(sources@) =~= seq![set.source@]);
                index.insert(hash, groups.len());
                groups.push(
                    SimilarityHashEntry {
                        hash,
                        example_columns: copy_strings(&set.columns),
                        sources,
                    },
                );
                proof {
                    assert forall|k: int| 0 <= k < groups.len() implies is_fingerprint_group(
                        #[trigger] groups[k],
                        now,
                    ) && groups[k].sources.len() >= 1 && index@.contains_key(groups[k].hash)
                        && index@[groups[k].hash] == k by {
                        if k < old_groups.len() {
                            assert(groups[k] == old_groups[k]);
                            assert(old_groups[k].hash != hash);
                        }
                    }
                    assert forall|h: u32| index@.contains_key(h) implies (#[trigger] index@[h])
                        < groups.len() && groups[index@[h] as int].hash == h by {
                        if h != hash {
                            assert(groups[index@[h] as int] == old_groups[index@[h] as int]);
                        }
                    }
                    assert(index@.contains_key(hash));
                    assert forall|h: u32| #[trigger]
                        sources_with_fingerprint(now, h).len() >= 1 implies index@.contains_key(
                        h,
                    ) by {
                        if h != hash {
                            assert(sources_with_fingerprint(seen, h).len() >= 1);
                        }
                    }
                }
            },
        }
        i += 1;
    }
    assert(all.take(sets.len() as int) =~= all);
    proof {
        assert forall|hash: u32| #[trigger]
            sources_with_fingerprint(all, hash).len() >= 1 implies exists|m: int|
            0 <= m < groups.len() && #[trigger] groups[m].hash == hash by {
            assert(groups[index@[hash] as int].hash == hash);
        }
    }
    // The groups of two or more, in ascending order of fingerprint.
    let mut table: Vec<SimilarityHashEntry> = Vec::new();
    let mut g: usize = 0;
    while g < groups.len()
        invariant
            g <= groups.len(),
            forall|k: int|
                0 <= k < groups.len() ==> is_fingerprint_group(#[trigger] groups[k], all),
            forall|a: int, b: int|
                0 <= a < b < groups.len() ==> (#[trigger] groups[a]).hash != (
                #[trigger] groups[b]).hash,
            forall|k: int|
                0 <= k < table.len() ==> is_fingerprint_group(#[trigger] table[k], all)
                    && table[k].sources.len() >= 2,
            forall|k: int|
                0 <= k < table.len() ==> exists|m: int|
                    0 <= m < g && groups[m].hash == (#[trigger] table[k]).hash,
            forall|a: int, b: int| 0 <= a < b < table.len() ==> table[a].hash < table[b].hash,
            forall|m: int|
                0 <= m < g && (#[trigger] groups[m]).sources.len() >= 2 ==> exists|k: int|
                    0 <= k < table.len() && #[trigger] table[k].hash == groups[m].hash,
        decreases groups.len() - g,
    {
        if groups[g].sources.len() >= 2 {
            let hash = groups[g].hash;
            let mut pos: usize = 0;
            while pos < table.len() && table[pos].hash < hash
                invariant
                    pos <= table.len(),
                    forall|k: int| 0 <= k < pos ==> table[k].hash < hash,
                decreases table.len() - pos,
            {
                pos += 1;
            }
            let ghost old_table = table@;
            proof {
                if pos < table.len() {
                    let m = choose|m: int|
                        0 <= m < g && groups[m].hash == old_table[pos as int].hash;
                    assert(groups[m].hash != groups[g as int].hash);
                }
            }
            let entry = SimilarityHashEntry {
                hash,
                example_columns: copy_strings(&groups[g].example_columns),
                sources: copy_strings(&groups[g].sources),
            };
            assert(texts(entry.sources@).len() == entry.sources@.len());
            assert(texts(groups[g as int].sources@).len() == groups[g as int].sources@.len());
            table.insert(pos, entry);
            proof {
                assert forall|k: int| 0 <= k < table.len() implies is_fingerprint_group(
                    #[trigger] table[k],
                    all,
                ) && table[k].sources.len() >= 2 && exists|m: int|
                    0 <= m < g + 1 && groups[m].hash == table[k].hash by {
                    if k < pos {
                        assert(table[k] == old_table[k]);
                        let m = choose|m: int| 0 <= m < g && groups[m].hash == old_table[k].hash;
                        assert(groups[m].hash == table[k].hash);
                    } else if k > pos {
                        assert(table[k] == old_table[k - 1]);
                        let m = choose|m: int|
                            0 <= m < g && groups[m].hash == old_table[k - 1].hash;
                        assert(groups[m].hash == table[k].hash);
                    } else {
                        assert(groups[g as int].hash == table[k].hash);
                    }
                }
                assert forall|a: int, b: int| 0 <= a < b < table.len() implies table[a].hash
                    < table[b].hash by {
                    if a < pos {
                        assert(table[a] == old_table[a]);
                    } else if a > pos {
                        assert(table[a] == old_table[a - 1]);
                    }
                    if b < pos {
                        assert(table[b] == old_table[b]);
                    } else if b > pos {
                        assert(table[b] == old_table[b - 1]);
                    }
                }
                assert forall|m: int|
                    0 <= m < g + 1 && (#[trigger] groups[m]).sources.len() >= 2 implies exists|
                    k: int,
                | 0 <= k < table.len() && #[trigger] table[k].hash == groups[m].hash by {
                    if m < g {
                        let k = choose|k: int|
                            0 <= k < old_table.len() && #[trigger] old_table[k].hash
                                == groups[m].hash;
                        if k < pos {
                            assert(table[k].hash == groups[m].hash);
                        } else {
                            assert(table[k + 1].hash == groups[m].hash);
                        }
                    } else {
                        assert(table[pos as int].hash == groups[m].hash);
                    }
                }
            }
        }
        g += 1;
    }
    proof {
        assert forall|hash: u32| #[trigger]
            sources_with_fingerprint(all, hash).len() >= 2 implies exists|k: int|
            0 <= k < table.len() && #[trigger] table[k].hash == hash by {
            let m = choose|m: int| 0 <= m < groups.len() && #[trigger] groups[m].hash == hash;
            assert(is_fingerprint_group(groups[m], all));
            assert(texts(groups[m].sources@).len() == groups[m].sources@.len());
            assert(groups[m].sources.len() >= 2);
        }
    }
    table
}

/// The exact-schema index of a scan: the sources that share a schema
/// fingerprint, for every fingerprint that two or more sources have, in
/// ascending order of fingerprint. A worksheet counts as a source of its own.
pub fn build_similarity_table(directories: &Vec<DirectoryEntry>) -> (table: Vec<
    SimilarityHashEntry,
>)
    ensures
        is_fingerprint_table(table@, all_schemas(directories@)),
{
    let sets = collect_column_sets(directories);
    group_by_fingerprint(&sets)
}

/// Labels of the files with content checksum `key`, in order.
pub open spec fn sources_with_hash(hashes: Seq<ContentView>, key: Seq<char>) -> Seq<Seq<char>>
    decreases hashes.len(),
{
    if hashes.len() == 0 {
        Seq::empty()
    } else if hashes.last().hash == key {
        sources_with_hash(hashes.drop_last(), key).push(hashes.last().source)
    } else {
        sources_with_hash(hashes.drop_last(), key)
    }
}

/// Whether `table` is the content index of `hashes`: one group for each
/// checksum that two or more files share, and no other, in strictly ascending
/// order of the checksum text.
pub open spec fn is_content_table(table: Seq<Crc32HashEntry>, hashes: Seq<ContentView>) -> bool {
    &&& forall|k: int|
        0 <= k < table.len() ==> texts((#[trigger] table[k]).sources@) == sources_with_hash(
            hashes,
            table[k].hash@,
        ) && table[k].sources.len() >= 2
    &&& forall|a: int, b: int|
        0 <= a < b < table.len() ==> text_lt(#[trigger] table[a].hash@, #[trigger] table[b].hash@)
    &&& forall|key: Seq<char>| #[trigger]
        sources_with_hash(hashes, key).len() >= 2 ==> exists|k: int|
            0 <= k < table.len() && #[trigger] table[k].hash@ == key
}

/// The labels of the files that share a checksum hold the label of each such
/// file, at the position of its rank among them.
proof fn lemma_sources_with_hash_at(hashes: Seq<ContentView>, i: int)
    requires
        0 <= i < hashes.len(),
    ensures
        sources_with_hash(hashes.take(i), hashes[i].hash).len() < sources_with_hash(
            hashes,
            hashes[i].hash,
        ).len(),
        sources_with_hash(hashes, hashes[i].hash)[sources_with_hash(
            hashes.take(i),
            hashes[i].hash,
        ).len() as int] == hashes[i].source,
    decreases hashes.len(),
{
    let key = hashes[i].hash;
    if i == hashes.len() - 1 {
        assert(hashes.take(i) =~= hashes.drop_last());
    } else {
        let shorter = hashes.drop_last();
        lemma_sources_with_hash_at(shorter, i);
        assert(shorter.take(i) =~= hashes.take(i));
    }
}

/// Every label listed for a checksum belongs to a file with that checksum.
proof fn lemma_sources_with_hash_origin(hashes: Seq<ContentView>, key: Seq<char>, p: int)
    requires
        0 <= p < sources_with_hash(hashes, key).len(),
    ensures
        exists|i: int|
            0 <= i < hashes.len() && (#[trigger] hashes[i]).hash == key && hashes[i].source
                == sources_with_hash(hashes, key)[p],
    decreases hashes.len(),
{
    let shorter = hashes.drop_last();
    if hashes.last().hash == key && p == sources_with_hash(shorter, key).len() {
        assert(hashes[hashes.len() - 1].hash == key);
    } else {
        lemma_sources_with_hash_origin(shorter, key, p);
        let i = choose|i: int|
            0 <= i < shorter.len() && (#[trigger] shorter[i]).hash == key && shorter[i].source
                == sources_with_hash(shorter, key)[p];
        assert(hashes[i] == shorter[i]);
    }
}

/// Two files with the same content checksum are listed in one group of the
/// content table.
pub proof fn lemma_same_checksum_same_group(
    table: Seq<Crc32HashEntry>,
    hashes: Seq<ContentView>,
    i: int,
    j: int,
)
    requires
        is_content_table(table, hashes),
        0 <= i < j < hashes.len(),
        hashes[i].hash == hashes[j].hash,
    ensures
        exists|k: int|
            0 <= k < table.len() && (#[trigger] table[k]).hash@ == hashes[i].hash && texts(
                table[k].sources@,
            ).contains(hashes[i].source) && texts(table[k].sources@).contains(hashes[j].source),
{
    let key = hashes[i].hash;
    let all = sources_with_hash(hashes, key);
    lemma_sources_with_hash_at(hashes, i);
    lemma_sources_with_hash_at(hashes, j);
    lemma_sources_with_hash_at(hashes.take(j), i);
    assert(hashes.take(j).take(i) =~= hashes.take(i));
    let pi = sources_with_hash(hashes.take(i), key).len() as int;
    let pj = sources_with_hash(hashes.take(j), key).len() as int;
    assert(pi < pj < all.len());
    assert(all[pi] == hashes[i].source);
    assert(all[pj] == hashes[j].source);
    let k = choose|k: int| 0 <= k < table.len() && #[trigger] table[k].hash@ == key;
    assert(texts(table[k].sources@) == all);
}

/// A group of the content table lists only files that have the group's
/// checksum.
pub proof fn lemma_group_members_have_checksum(
    table: Seq<Crc32HashEntry>,
    hashes: Seq<ContentView>,
    k: int,
    p: int,
)
    requires
        is_content_table(table, hashes),
        0 <= k < table.len(),
        0 <= p < table[k].sources.len(),
    ensures
        exists|i: int|
            0 <= i < hashes.len() && (#[trigger] hashes[i]).hash == table[k].hash@
                && hashes[i].source == table[k].sources[p]@,
{
    assert(texts(table[k].sources@) == sources_with_hash(hashes, table[k].hash@));
    assert(texts(table[k].sources@)[p] == table[k].sources[p]@);
    lemma_sources_with_hash_origin(hashes, table[k].hash@, p);
}

/// Groups the files by content checksum.
pub fn group_by_content_hash(hashes: &Vec<ContentHash>) -> (table: Vec<Crc32HashEntry>)
    ensures
        is_content_table(table@, content_list(hashes@)),
{
    let ghost all = content_list(hashes@);
    let mut groups: Vec<Crc32HashEntry> = Vec::new();
    let mut i: usize = 0;
    assert(all.take(0) =~= Seq::<ContentView>::empty());
    while i < hashes.len()
        invariant
            i <= hashes.len(),
            all == content_list(hashes@),
            forall|k: int|
                0 <= k < groups.len() ==> texts((#[trigger] groups[k]).sources@)
                    == sources_with_hash(all.take(i as int), groups[k].hash@)
                    && groups[k].sources.len() >= 1,
            forall|a: int, b: int|
                0 <= a < b < groups.len() ==> text_lt(
                    #[trigger] groups[a].hash@,
                    #[trigger] groups[b].hash@,
                ),
            forall|key: Seq<char>| #[trigger]
                sources_with_hash(all.take(i as int), key).len() >= 1 ==> exists|k: int|
                    0 <= k < groups.len() && #[trigger] groups[k].hash@ == key,
        decreases hashes.len() - i,
    {
        let item = &hashes[i];
        let ghost key = item.hash@;
        let ghost seen = all.take(i as int);
        let ghost now = all.take(i + 1);
        proof {
            assert(now.drop_last() =~= seen);
            assert(now.last() == item@);
        }
        let mut pos: usize = 0;
        while pos < groups.len() && !str_le(item.hash.as_str(), groups[pos].hash.as_str())
            invariant
                pos <= groups.len(),
                key == item.hash@,
                forall|k: int| 0 <= k < pos ==> text_lt(#[trigger] groups[k].hash@, key),
            decreases groups.len() - pos,
        {
            proof {
                lemma_text_not_le(key, groups[pos as int].hash@);
            }
            pos += 1;
        }
        let ghost old_groups = groups@;
        if pos < groups.len() && groups[pos].hash == item.hash {
            let mut group = groups.remove(pos);
            let ghost before = group.sources@;
            group.sources.push(item.source.clone());
            assert(texts(group.sources@) =~= texts(before).push(item.source@));
            groups.insert(pos, group);
            proof {
                assert forall|k: int| 0 <= k < groups.len() implies texts(
                    (#[trigger] groups[k]).sources@,
                ) == sources_with_hash(now, groups[k].hash@) && groups[k].sources.len() >= 1 by {
                    if k != pos {
                        assert(groups[k] == old_groups[k]);
                        if k < pos {
                            assert(text_lt(old_groups[k].hash@, old_groups[pos as int].hash@));
                        } else {
                            assert(text_lt(old_groups[pos as int].hash@, old_groups[k].hash@));
                        }
                    }
                }
                assert forall|a: int, b: int| 0 <= a < b < groups.len() implies text_lt(
                    #[trigger] groups[a].hash@,
                    #[trigger] groups[b].hash@,
                ) by {
                    assert(groups[a].hash == old_groups[a].hash);
                    assert(groups[b].hash == old_groups[b].hash);
                }
                assert forall|h: Seq<char>| #[trigger]
                    sources_with_hash(now, h).len() >= 1 implies exists|k: int|
                    0 <= k < groups.len() && #[trigger] groups[k].hash@ == h by {
                    if h == key {
                        assert(groups[pos as int].hash@ == h);
                    } else {
                        assert(sources_with_hash(seen, h).len() >= 1);
                        let k = choose|k: int|
                            0 <= k < old_groups.len() && #[trigger] old_groups[k].hash@ == h;
                        assert(groups[k].hash@ == h);
                    }
                }
            }
        } else {
            proof {
                if sources_with_hash(seen, key).len() >= 1 {
                    let k = choose|k: int|
                        0 <= k < old_groups.len() && #[trigger] old_groups[k].hash@ == key;
                    if k < pos {
                        assert(text_lt(old_groups[k].hash@, key));
                    } else if k > pos {
                        assert(text_lt(old_groups[pos as int].hash@, old_groups[k].hash@));
                        lemma_text_le_antisym_step(key, old_groups[pos as int].hash@);
                    }
                    assert(false);
                }
            }
            let mut sources: Vec<String> = Vec::new();
            sources.push(item.source.clone());
            assert(texts(sources@) =~= seq![item.source@]);
            let group = Crc32HashEntry { hash: item.hash.clone(), sources };
            groups.insert(pos, group);
            proof {
                assert(sources_with_hash(seen, key) =~= Seq::<Seq<char>>::empty());
                assert forall|k: int| 0 <= k < groups.len() implies texts(
                    (#[trigger] groups[k]).sources@,
                ) == sources_with_hash(now, groups[k].hash@) && groups[k].sources.len() >= 1 by {
                    if k < pos {
                        assert(groups[k] == old_groups[k]);
                        assert(text_lt(old_groups[k].hash@, key));
                    } else if k > pos {
                        assert(groups[k] == old_groups[k - 1]);
                        if k - 1 > pos {
                            assert(text_lt(old_groups[pos as int].hash@, old_groups[k - 1].hash@));
                            lemma_text_le_antisym_step(key, old_groups[pos as int].hash@);
                        }
                    }
                }
                assert forall|a: int, b: int| 0 <= a < b < groups.len() implies text_lt(
                    #[trigger] groups[a].hash@,
                    #[trigger] groups[b].hash@,
                ) by {
                    if a < pos {
                        assert(groups[a] == old_groups[a]);
                        assert(text_lt(old_groups[a].hash@, key));
                    } else if a > pos {
                        assert(groups[a] == old_groups[a - 1]);
                    }
                    if b < pos {
                        assert(groups[b] == old_groups[b]);
                    } else if b > pos {
                        assert(groups[b] == old_groups[b - 1]);
                        if a <= pos {
                            if b - 1 > pos {
                                assert(text_lt(
                                    old_groups[pos as int].hash@,
                                    old_groups[b - 1].hash@,
                                ));
                            } else {
                                crate::text::lemma_text_le_refl(groups[b].hash@);
                            }
                            lemma_text_lt_le(key, old_groups[pos as int].hash@, groups[b].hash@);
                            if a < pos {
                                lemma_text_lt_le(groups[a].hash@, key, groups[b].hash@);
                            }
                        }
                    }
                }
                assert forall|h: Seq<char>| #[trigger]
                    sources_with_hash(now, h).len() >= 1 implies exists|k: int|
                    0 <= k < groups.len() && #[trigger] groups[k].hash@ == h by {
                    if h == key {
                        assert(groups[pos as int].hash@ == h);
                    } else {
                        assert(sources_with_hash(seen, h).len() >= 1);
                        let k = choose|k: int|
                            0 <= k < old_groups.len() && #[trigger] old_groups[k].hash@ == h;
                        if k < pos {
                            assert(groups[k].hash@ == h);
                        } else {
                            assert(groups[k + 1].hash@ == h);
                        }
                    }
                }
            }
        }
        i += 1;
    }
    assert(all.take(hashes.len() as int) =~= all);
    let mut table: Vec<Crc32HashEntry> = Vec::new();
    let mut g: usize = 0;
    while g < groups.len()
        invariant
            g <= groups.len(),
            forall|k: int|
                0 <= k < groups.len() ==> texts((#[trigger] groups[k]).sources@)
                    == sources_with_hash(all, groups[k].hash@),
            forall|a: int, b: int|
                0 <= a < b < groups.len() ==> text_lt(
                    #[trigger] groups[a].hash@,
                    #[trigger] groups[b].hash@,
                ),
            forall|k: int|
                0 <= k < table.len() ==> texts((#[trigger] table[k]).sources@)
                    == sources_with_hash(all, table[k].hash@) && table[k].sources.len() >= 2,
            forall|k: int|
                0 <= k < table.len() ==> exists|m: int|
                    0 <= m < g && groups[m].hash@ == (#[trigger] table[k]).hash@,
            forall|a: int, b: int|
                0 <= a < b < table.len() ==> text_lt(
                    #[trigger] table[a].hash@,
                    #[trigger] table[b].hash@,
                ),
            forall|m: int|
                0 <= m < g && (#[trigger] groups[m]).sources.len() >= 2 ==> exists|k: int|
                    0 <= k < table.len() && #[trigger] table[k].hash@ == groups[m].hash@,
        decreases groups.len() - g,
    {
        if groups[g].sources.len() >= 2 {
            let ghost old_table = table@;
            let entry = Crc32HashEntry {
                hash: groups[g].hash.clone(),
                sources: copy_strings(&groups[g].sources),
            };
            assert(texts(entry.sources@).len() == entry.sources@.len());
            assert(texts(groups[g as int].sources@).len() == groups[g as int].sources@.len());
            table.push(entry);
            proof {
                let last = table.len() - 1;
                assert forall|k: int| 0 <= k < table.len() implies exists|m: int|
                    0 <= m < g + 1 && groups[m].hash@ == (#[trigger] table[k]).hash@ by {
                    if k < last {
                        assert(table[k] == old_table[k]);
                        let m = choose|m: int| 0 <= m < g && groups[m].hash@ == old_table[k].hash@;
                        assert(groups[m].hash@ == table[k].hash@);
                    } else {
                        assert(groups[g as int].hash@ == table[k].hash@);
                    }
                }
                assert forall|a: int, b: int| 0 <= a < b < table.len() implies text_lt(
                    #[trigger] table[a].hash@,
                    #[trigger] table[b].hash@,
                ) by {
                    if b < last {
                        assert(table[a] == old_table[a] && table[b] == old_table[b]);
                    } else {
                        assert(table[a] == old_table[a]);
                        let m = choose|m: int| 0 <= m < g && groups[m].hash@ == old_table[a].hash@;
                        assert(text_lt(groups[m].hash@, groups[g as int].hash@));
                    }
                }
                assert forall|m: int|
                    0 <= m < g + 1 && (#[trigger] groups[m]).sources.len() >= 2 implies exists|
                    k: int,
                | 0 <= k < table.len() && #[trigger] table[k].hash@ == groups[m].hash@ by {
                    if m < g {
                        let k = choose|k: int|
                            0 <= k < old_table.len() && #[trigger] old_table[k].hash@
                                == groups[m].hash@;
                        assert(table[k] == old_table[k]);
                    } else {
                        assert(table[last].hash@ == groups[m].hash@);
                    }
                }
            }
        }
        g += 1;
    }
    proof {
        assert forall|key: Seq<char>| #[trigger]
            sources_with_hash(all, key).len() >= 2 implies exists|k: int|
            0 <= k < table.len() && #[trigger] table[k].hash@ == key by {
            let m = choose|m: int| 0 <= m < groups.len() && #[trigger] groups[m].hash@ == key;
            assert(texts(groups[m].sources@).len() == groups[m].sources@.len());
            assert(groups[m].sources.len() >= 2);
        }
    }
    table
}

/// `key <= other` and `other < later` rule out `later == key`.
proof fn lemma_text_le_antisym_step(key: Seq<char>, other: Seq<char>)
    requires
        text_le(key, other),
    ensures
        forall|later: Seq<char>| text_lt(other, later) ==> later != key,
{
    assert forall|later: Seq<char>| text_lt(other, later) implies later != key by {
        if later == key {
            crate::text::lemma_text_le_antisym(key, other);
        }
    }
}

/// The exact-content index of a scan: the files that share a content
/// checksum, for every checksum that two or more files have, in ascending
/// order of the checksum text. Files without a checksum take no part.
pub fn build_crc32_table(directories: &Vec<DirectoryEntry>) -> (table: Vec<Crc32HashEntry>)
    ensures
        is_content_table(table@, all_hashes(directories@)),
{
    let hashes = collect_content_hashes(directories);
    group_by_content_hash(&hashes)
}

} // verus!
