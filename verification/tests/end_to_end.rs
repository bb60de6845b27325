use doc_inventory::directories::DirectoryIndex;
use doc_inventory::indices::build_duplicate_indices;
use doc_inventory::model::Threshold;
use doc_inventory::scan::{process_file, FileFacts};

fn csv_file(name: &str, text: &str) -> FileFacts {
    FileFacts {
        file_name: name.to_string(),
        extension: Some("csv".to_string()),
        created: "2024-01-01T00:00".to_string(),
        size: text.len() as u64,
        content: Some(text.as_bytes().to_vec()),
        sheets: None,
    }
}

fn scan(files: &[(&str, &str)], level: Threshold) -> doc_inventory::indices::DuplicateIndices {
    let mut index = DirectoryIndex::new();
    for (name, text) in files {
        let details = process_file(&csv_file(name, text), true, 524288).unwrap();
        assert_eq!(details.csv_metadata.as_ref().unwrap().row_count, 3);
        index = index.add("data", details);
    }
    build_duplicate_indices(&index.into_entries(), level)
}

fn names(list: &[&str]) -> Vec<String> {
    list.iter().map(|s| s.to_string()).collect()
}

#[test]
fn two_csv_files_with_the_same_schema() {
    let indices = scan(
        &[("a.csv", "Name,Age\nann,1\nbob,2\ncat,3\n"), ("b.csv", "name, age\ndan,4\neve,5\nfay,6\n")],
        Threshold::new(4, 5).unwrap(),
    );
    // Case and blanks do not count for the fingerprint: one exact-schema group.
    assert_eq!(indices.column_similarity_table.len(), 1);
    assert_eq!(indices.column_similarity_table[0].sources, names(&["data/a.csv", "data/b.csv"]));
    assert_eq!(indices.column_similarity_table[0].example_columns, names(&["Name", "Age"]));
    assert_eq!(indices.column_similarity_table[0].hash, crc32fast::hash(b"age,name"));
    // The contents differ.
    assert!(indices.crc32_similarity_table.is_empty());
    // Of the two names only `Name` has a close match, which makes a third.
    assert!(indices.fuzzy_similarity_groups.is_empty());
}

#[test]
fn two_csv_files_with_close_names() {
    let files = [
        ("a.csv", "Name,Age\nann,1\nbob,2\ncat,3\n"),
        ("b.csv", "name, age\ndan,4\neve,5\nfay,6\n"),
    ];
    let third = scan(&files, Threshold::new(1, 3).unwrap());
    assert_eq!(third.fuzzy_similarity_groups.len(), 1);
    let group = &third.fuzzy_similarity_groups[0];
    assert_eq!(group.group_id, 0);
    assert_eq!(group.sources, names(&["data/a.csv", "data/b.csv"]));
    assert_eq!(group.representative_columns, names(&[" age", "Age", "Name", "name"]));
    let more = scan(&files, Threshold::new(34, 100).unwrap());
    assert!(more.fuzzy_similarity_groups.is_empty());
}

#[test]
fn two_csv_files_with_the_same_names() {
    let indices = scan(
        &[("a.csv", "Name,Age\nann,1\nbob,2\ncat,3\n"), ("b.csv", "Name,Age\ndan,4\neve,5\nfay,6\n")],
        Threshold::new(4, 5).unwrap(),
    );
    assert_eq!(indices.column_similarity_table.len(), 1);
    assert_eq!(indices.fuzzy_similarity_groups.len(), 1);
    assert_eq!(indices.fuzzy_similarity_groups[0].sources, names(&["data/a.csv", "data/b.csv"]));
    assert_eq!(indices.fuzzy_similarity_groups[0].representative_columns, names(&["Age", "Name"]));
}
