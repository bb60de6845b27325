//! The three duplicate indices of a finished scan.

use vstd::prelude::*;
use crate::cluster::{cluster_column_sets, is_cluster_report};
use crate::model::{
    Crc32HashEntry, DirectoryEntry, FuzzySimilarityGroup, SimilarityHashEntry, Threshold,
};
use crate::sources::{all_hashes, all_schemas, collect_column_sets};
use crate::tables::{
    build_crc32_table, group_by_fingerprint, is_content_table, is_fingerprint_table,
};

verus! {

/// The duplicate indices of a scan.
#[derive(Clone, Debug)]
pub struct DuplicateIndices {
    /// Sources with the same schema fingerprint.
    pub column_similarity_table: Vec<SimilarityHashEntry>,
    /// Files with the same content checksum.
    pub crc32_similarity_table: Vec<Crc32HashEntry>,
    /// Sources with similar column names.
    pub fuzzy_similarity_groups: Vec<FuzzySimilarityGroup>,
}

/// Builds the three duplicate indices from the records of a scan. A
/// similarity level of zero switches the fuzzy index off.
pub fn build_duplicate_indices(directories: &Vec<DirectoryEntry>, level: Threshold) -> (indices:
    DuplicateIndices)
    ensures
        is_fingerprint_table(indices.column_similarity_table@, all_schemas(directories@)),
        is_content_table(indices.crc32_similarity_table@, all_hashes(directories@)),
        level.num() == 0 ==> indices.fuzzy_similarity_groups.len() == 0,
        level.num() > 0 ==> is_cluster_report(
            indices.fuzzy_similarity_groups@,
            all_schemas(directories@),
            level,
        ),
{
    let sets = collect_column_sets(directories);
    let column_similarity_table = group_by_fingerprint(&sets);
    let crc32_similarity_table = build_crc32_table(directories);
    let fuzzy_similarity_groups = if level.numerator() > 0 {
        cluster_column_sets(&sets, level)
    } else {
        Vec::new()
    };
    DuplicateIndices { column_similarity_table, crc32_similarity_table, fuzzy_similarity_groups }
}

} // verus!
