//! Greedy single-link clustering of column lists: each unclaimed item, in
//! input order, seeds a cluster and claims every later unclaimed item whose
//! columns resemble the seed's.

use vstd::prelude::*;
use crate::model::{DirectoryEntry, FuzzySimilarityGroup, Threshold};
use crate::similarity::{calculate_column_set_similarity, fraction_meets, set_similarity};
use crate::sources::{all_schemas, collect_column_sets, schema_list, ColumnSet, SchemaView};
use crate::text::{lemma_text_le_total_ordering, sort_strings, text_leq, texts};

verus! {

/// The column names of item `k`.
pub open spec fn columns_at(items: Seq<SchemaView>, k: int) -> Seq<Seq<char>> {
    items[k].columns
}

/// Whether a later item with columns `other` joins a cluster seeded with
/// columns `seed`.
pub open spec fn resembles(seed: Seq<Seq<char>>, other: Seq<Seq<char>>, level: Threshold) -> bool {
    fraction_meets(set_similarity(seed, other).0, set_similarity(seed, other).1, level)
}

/// The first seed at or after `from` and before `j` that item `j` resembles,
/// or `j` itself when there is none. An item is a seed when no earlier seed
/// claims it.
pub open spec fn claimant(items: Seq<SchemaView>, level: Threshold, j: int, from: int) -> int
    decreases j, j - from,
{
    if from < 0 || from >= j {
        j
    } else if claimant(items, level, from, 0) == from && resembles(
        columns_at(items, from),
        columns_at(items, j),
        level,
    ) {
        from
    } else {
        claimant(items, level, j, from + 1)
    }
}

/// The seed of the cluster that item `j` belongs to.
pub open spec fn owner(items: Seq<SchemaView>, level: Threshold, j: int) -> int {
    claimant(items, level, j, 0)
}

/// `acc` followed by the names of `extra` that it does not hold yet, each
/// once, in order.
pub open spec fn merge_names(acc: Seq<Seq<char>>, extra: Seq<Seq<char>>) -> Seq<Seq<char>>
    decreases extra.len(),
{
    if extra.len() == 0 {
        acc
    } else {
        let merged = merge_names(acc, extra.drop_last());
        if merged.contains(extra.last()) {
            merged
        } else {
            merged.push(extra.last())
        }
    }
}

/// Labels of the members of the cluster seeded at `seed`, among the items
/// before `upto`, in input order.
pub open spec fn cluster_sources(
    items: Seq<SchemaView>,
    level: Threshold,
    seed: int,
    upto: int,
) -> Seq<Seq<char>>
    decreases upto - seed,
{
    if upto <= seed + 1 {
        seq![items[seed].source]
    } else {
        let earlier = cluster_sources(items, level, seed, upto - 1);
        if owner(items, level, upto - 1) == seed {
            earlier.push(items[upto - 1].source)
        } else {
            earlier
        }
    }
}

/// Column names gathered by the cluster seeded at `seed` from the items
/// before `upto`: the names of the seed, then each member's new names, every
/// name once.
pub open spec fn cluster_columns(
    items: Seq<SchemaView>,
    level: Threshold,
    seed: int,
    upto: int,
) -> Seq<Seq<char>>
    decreases upto - seed,
{
    if upto <= seed + 1 {
        merge_names(Seq::empty(), columns_at(items, seed))
    } else {
        let earlier = cluster_columns(items, level, seed, upto - 1);
        if owner(items, level, upto - 1) == seed {
            merge_names(earlier, columns_at(items, upto - 1))
        } else {
            earlier
        }
    }
}

/// The seeds before `upto` whose clusters have at least two members, in
/// input order.
pub open spec fn reported_seeds(items: Seq<SchemaView>, level: Threshold, upto: int) -> Seq<int>
    decreases upto,
{
    if upto <= 0 {
        Seq::empty()
    } else {
        let earlier = reported_seeds(items, level, upto - 1);
        if owner(items, level, upto - 1) == upto - 1 && cluster_sources(
            items,
            level,
            upto - 1,
            items.len() as int,
        ).len() >= 2 {
            earlier.push(upto - 1)
        } else {
            earlier
        }
    }
}

/// Whether `group` is the report of the cluster seeded at `seed`, numbered
/// `id`.
pub open spec fn is_group_of(
    group: FuzzySimilarityGroup,
    items: Seq<SchemaView>,
    level: Threshold,
    seed: int,
    id: int,
) -> bool {
    &&& group.group_id == id
    &&& group.similarity_score == level
    &&& texts(group.sources@) == cluster_sources(items, level, seed, items.len() as int)
    &&& texts(group.representative_columns@) == cluster_columns(
        items,
        level,
        seed,
        items.len() as int,
    ).sort_by(text_leq())
}

/// Whether `groups` is the report of the clustering of `items`: one group
/// for each seed whose cluster has two or more members, in the order of the
/// seeds, numbered from zero.
pub open spec fn is_cluster_report(
    groups: Seq<FuzzySimilarityGroup>,
    items: Seq<SchemaView>,
    level: Threshold,
) -> bool {
    let seeds = reported_seeds(items, level, items.len() as int);
    &&& groups.len() == seeds.len()
    &&& forall|k: int|
        0 <= k < groups.len() ==> is_group_of(#[trigger] groups[k], items, level, seeds[k], k)
}

proof fn lemma_claimant_range(items: Seq<SchemaView>, level: Threshold, j: int, from: int)
    requires
        0 <= from <= j,
    ensures
        from <= claimant(items, level, j, from) <= j,
    decreases j - from,
{
    if from < j {
        lemma_claimant_range(items, level, j, from + 1);
    }
}

proof fn lemma_claimant_found(items: Seq<SchemaView>, level: Threshold, j: int, from: int)
    requires
        0 <= from <= j,
        claimant(items, level, j, from) < j,
    ensures
        owner(items, level, claimant(items, level, j, from)) == claimant(items, level, j, from),
        resembles(
            columns_at(items, claimant(items, level, j, from)),
            columns_at(items, j),
            level,
        ),
    decreases j - from,
{
    if from < j {
        if claimant(items, level, from, 0) == from && resembles(
            columns_at(items, from),
            columns_at(items, j),
            level,
        ) {
        } else {
            lemma_claimant_found(items, level, j, from + 1);
        }
    }
}

proof fn lemma_claimant_skip(items: Seq<SchemaView>, level: Threshold, j: int, a: int, b: int)
    requires
        0 <= a <= b <= j,
        claimant(items, level, j, a) >= b,
    ensures
        claimant(items, level, j, a) == claimant(items, level, j, b),
    decreases b - a,
{
    if a < b {
        lemma_claimant_skip(items, level, j, a + 1, b);
    }
}

/// Every item is owned by itself or by an earlier seed.
pub proof fn lemma_owner_is_seed(items: Seq<SchemaView>, level: Threshold, j: int)
    requires
        0 <= j,
    ensures
        0 <= owner(items, level, j) <= j,
        owner(items, level, owner(items, level, j)) == owner(items, level, j),
{
    lemma_claimant_range(items, level, j, 0);
    if owner(items, level, j) < j {
        lemma_claimant_found(items, level, j, 0);
    }
}

/// Merging adds no name twice: a list without repeated names stays one.
pub proof fn lemma_merge_names_distinct(acc: Seq<Seq<char>>, extra: Seq<Seq<char>>)
    requires
        acc.no_duplicates(),
    ensures
        merge_names(acc, extra).no_duplicates(),
        forall|name: Seq<char>|
            merge_names(acc, extra).contains(name) <==> acc.contains(name) || extra.contains(name),
    decreases extra.len(),
{
    if extra.len() > 0 {
        let merged = merge_names(acc, extra.drop_last());
        lemma_merge_names_distinct(acc, extra.drop_last());
        let full = merge_names(acc, extra);
        assert forall|name: Seq<char>| full.contains(name) <==> acc.contains(name)
            || extra.contains(name) by {
            if extra.contains(name) {
                let k = choose|k: int| 0 <= k < extra.len() && extra[k] == name;
                if k < extra.len() - 1 {
                    assert(extra.drop_last()[k] == name);
                }
            }
            if extra.drop_last().contains(name) {
                let k = choose|k: int|
                    0 <= k < extra.drop_last().len() && extra.drop_last()[k] == name;
                assert(extra[k] == name);
            }
            if merged.contains(name) {
                let k = choose|k: int| 0 <= k < merged.len() && merged[k] == name;
                if !merged.contains(extra.last()) {
                    assert(full[k] == name);
                }
            }
            if !merged.contains(extra.last()) {
                assert(full[full.len() - 1] == extra.last());
                assert(extra[extra.len() - 1] == extra.last());
                if full.contains(name) {
                    let k = choose|k: int| 0 <= k < full.len() && full[k] == name;
                    if k < merged.len() {
                        assert(merged[k] == name);
                    }
                }
            }
        }
    }
}

/// The representative columns of a cluster hold no name twice, before and
/// after sorting.
pub proof fn lemma_cluster_columns_distinct(
    items: Seq<SchemaView>,
    level: Threshold,
    seed: int,
    upto: int,
)
    ensures
        cluster_columns(items, level, seed, upto).no_duplicates(),
        cluster_columns(items, level, seed, upto).sort_by(text_leq()).no_duplicates(),
    decreases upto - seed,
{
    let columns = cluster_columns(items, level, seed, upto);
    if upto <= seed + 1 {
        lemma_merge_names_distinct(Seq::empty(), columns_at(items, seed));
    } else {
        lemma_cluster_columns_distinct(items, level, seed, upto - 1);
        lemma_merge_names_distinct(
            cluster_columns(items, level, seed, upto - 1),
            columns_at(items, upto - 1),
        );
    }
    lemma_text_le_total_ordering();
    columns.lemma_sort_by_ensures(text_leq());
    columns.lemma_multiset_has_no_duplicates();
    columns.sort_by(text_leq()).lemma_multiset_has_no_duplicates_conv();
}

/// Every reported seed is an item that no earlier seed claims and whose
/// cluster has two or more members, and the reported seeds ascend.
pub proof fn lemma_reported_seeds(items: Seq<SchemaView>, level: Threshold, upto: int)
    ensures
        forall|k: int|
            0 <= k < reported_seeds(items, level, upto).len() ==> {
                let seed = #[trigger] reported_seeds(items, level, upto)[k];
                &&& 0 <= seed < upto
                &&& owner(items, level, seed) == seed
                &&& cluster_sources(items, level, seed, items.len() as int).len() >= 2
            },
        forall|a: int, b: int|
            0 <= a < b < reported_seeds(items, level, upto).len() ==> reported_seeds(
                items,
                level,
                upto,
            )[a] < reported_seeds(items, level, upto)[b],
    decreases upto,
{
    if upto > 0 {
        lemma_reported_seeds(items, level, upto - 1);
        let earlier = reported_seeds(items, level, upto - 1);
        let now = reported_seeds(items, level, upto);
        assert forall|k: int| 0 <= k < now.len() implies {
            let seed = #[trigger] now[k];
            &&& 0 <= seed < upto
            &&& owner(items, level, seed) == seed
            &&& cluster_sources(items, level, seed, items.len() as int).len() >= 2
        } by {
            if k < earlier.len() {
                assert(now[k] == earlier[k]);
            }
        }
        assert forall|a: int, b: int| 0 <= a < b < now.len() implies now[a] < now[b] by {
            assert(now[a] == earlier[a]);
            if b < earlier.len() {
                assert(now[b] == earlier[b]);
            }
        }
    }
}

/// An item that no seed before `i` claims is claimed by `i` exactly when `i`
/// is a seed that it resembles.
proof fn lemma_owner_step(items: Seq<SchemaView>, level: Threshold, j: int, i: int)
    requires
        0 <= i < j,
        owner(items, level, j) >= i,
    ensures
        owner(items, level, j) == i <==> owner(items, level, i) == i && resembles(
            columns_at(items, i),
            columns_at(items, j),
            level,
        ),
{
    lemma_claimant_skip(items, level, j, 0, i);
    lemma_claimant_range(items, level, j, i + 1);
}

/// Whether `name` occurs in `names`.
pub fn contains_string(names: &Vec<String>, name: &String) -> (r: bool)
    ensures
        r == texts(names@).contains(name@),
{
    let mut k: usize = 0;
    while k < names.len()
        invariant
            k <= names.len(),
            forall|m: int| 0 <= m < k ==> texts(names@)[m] != name@,
        decreases names.len() - k,
    {
        if names[k] == *name {
            assert(texts(names@)[k as int] == name@);
            return true;
        }
        k += 1;
    }
    false
}

/// Appends to `acc` each name of `extra` that it does not hold yet.
pub fn merge_columns(acc: &mut Vec<String>, extra: &Vec<String>)
    ensures
        texts(final(acc)@) == merge_names(texts(old(acc)@), texts(extra@)),
{
    let mut k: usize = 0;
    assert(texts(extra@).take(0) =~= Seq::<Seq<char>>::empty());
    while k < extra.len()
        invariant
            k <= extra.len(),
            texts(acc@) == merge_names(texts(old(acc)@), texts(extra@).take(k as int)),
        decreases extra.len() - k,
    {
        proof {
            let now = texts(extra@).take(k + 1);
            assert(now.drop_last() =~= texts(extra@).take(k as int));
            assert(now.last() == extra@[k as int]@);
        }
        if !contains_string(acc, &extra[k]) {
            let ghost before = acc@;
            acc.push(extra[k].clone());
            assert(texts(acc@) =~= texts(before).push(extra@[k as int]@));
        }
        k += 1;
    }
    assert(texts(extra@).take(extra.len() as int) =~= texts(extra@));
}

/// Clusters the column lists at the given similarity level.
///
/// Items are visited in input order. An item that no earlier cluster has
/// claimed seeds a new cluster and claims every later unclaimed item whose
/// columns resemble the seed's own. Clusters of two or more members are
/// reported, in the order of their seeds and numbered from zero, each with
/// its members' labels in input order and the sorted union of their columns.
pub fn cluster_column_sets(items: &Vec<ColumnSet>, level: Threshold) -> (groups: Vec<
    FuzzySimilarityGroup,
>)
    ensures
        is_cluster_report(groups@, schema_list(items@), level),
        items.len() < 2 ==> groups.len() == 0,
{
    let ghost all = schema_list(items@);
    let n = items.len();
    let mut groups: Vec<FuzzySimilarityGroup> = Vec::new();
    if n < 2 {
        proof {
            reveal_with_fuel(reported_seeds, 3);
            reveal_with_fuel(cluster_sources, 2);
        }
        return groups;
    }
    let mut used: Vec<bool> = vec![false; n];
    let mut i: usize = 0;
    proof {
        assert forall|k: int| 0 <= k < n implies used@[k] == (owner(all, level, k) < 0) by {
            lemma_owner_is_seed(all, level, k);
        }
    }
    while i < n
        invariant
            n == items.len(),
            all == schema_list(items@),
            used.len() == n,
            i <= n,
            forall|k: int| 0 <= k < n ==> #[trigger] used@[k] == (owner(all, level, k) < i),
            groups.len() == reported_seeds(all, level, i as int).len(),
            forall|k: int|
                0 <= k < groups.len() ==> is_group_of(
                    #[trigger] groups[k],
                    all,
                    level,
                    reported_seeds(all, level, i as int)[k],
                    k,
                ),
        decreases n - i,
    {
        if !used[i] {
            proof {
                lemma_owner_is_seed(all, level, i as int);
            }
            let mut sources: Vec<String> = Vec::new();
            sources.push(items[i].source.clone());
            let mut columns: Vec<String> = Vec::new();
            assert(texts(columns@) =~= Seq::<Seq<char>>::empty());
            merge_columns(&mut columns, &items[i].columns);
            used.set(i, true);
            let mut j: usize = i + 1;
            assert(texts(sources@) =~= cluster_sources(all, level, i as int, j as int));
            proof {
                assert forall|k: int| 0 <= k < n implies owner(all, level, k) <= k by {
                    lemma_owner_is_seed(all, level, k);
                }
            }
            while j < n
                invariant
                    n == items.len(),
                    all == schema_list(items@),
                    used.len() == n,
                    i < j <= n,
                    owner(all, level, i as int) == i,
                    forall|k: int|
                        0 <= k < n ==> #[trigger] used@[k] == (owner(all, level, k) < i || (
                        owner(all, level, k) == i && k < j)),
                    texts(sources@) == cluster_sources(all, level, i as int, j as int),
                    texts(columns@) == cluster_columns(all, level, i as int, j as int),
                    sources.len() >= 1,
                decreases n - j,
            {
                proof {
                    lemma_owner_is_seed(all, level, j as int);
                }
                if !used[j] {
                    let similarity = calculate_column_set_similarity(
                        &items[i].columns,
                        &items[j].columns,
                    );
                    proof {
                        lemma_owner_step(all, level, j as int, i as int);
                    }
                    if similarity.meets(level) {
                        let ghost before = sources@;
                        sources.push(items[j].source.clone());
                        assert(texts(sources@) =~= texts(before).push(items@[j as int].source@));
                        merge_columns(&mut columns, &items[j].columns);
                        used.set(j, true);
                    }
                }
                j += 1;
            }
            if sources.len() > 1 {
                let sorted = sort_strings(&columns);
                let ghost id = groups.len();
                groups.push(
                    FuzzySimilarityGroup {
                        group_id: groups.len(),
                        similarity_score: level,
                        representative_columns: sorted,
                        sources,
                    },
                );
                assert(is_group_of(groups[id as int], all, level, i as int, id as int));
            }
        } else {
            proof {
                assert forall|k: int| 0 <= k < n implies owner(all, level, k) != i by {
                    lemma_owner_is_seed(all, level, k);
                }
            }
        }
        i += 1;
    }
    groups
}

/// The fuzzy index of a scan: the schemas of the scan, clustered at the given
/// similarity level.
pub fn build_fuzzy_similarity_groups(
    directories: &Vec<DirectoryEntry>,
    level: Threshold,
) -> (groups: Vec<FuzzySimilarityGroup>)
    ensures
        is_cluster_report(groups@, all_schemas(directories@), level),
        all_schemas(directories@).len() < 2 ==> groups.len() == 0,
{
    let sets = collect_column_sets(directories);
    cluster_column_sets(&sets, level)
}

} // verus!
