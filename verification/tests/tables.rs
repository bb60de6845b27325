use doc_inventory::cluster::build_fuzzy_similarity_groups;
use doc_inventory::indices::build_duplicate_indices;
use doc_inventory::model::{
    CsvMetadata, DirectoryEntry, ExcelMetadata, FileDetails, FileType, SheetMetadata, Threshold,
};
use doc_inventory::sources::{
    collect_column_sets, collect_content_hashes, make_file_label, make_sheet_label, ColumnSet,
    ContentHash,
};
use doc_inventory::tables::{
    build_crc32_table, build_similarity_table, group_by_content_hash, group_by_fingerprint,
};

fn names(list: &[&str]) -> Vec<String> {
    list.iter().map(|s| s.to_string()).collect()
}

fn plain(name: &str, hash: Option<&str>) -> FileDetails {
    FileDetails {
        name: name.to_string(),
        created: "2024-01-01T00:00".to_string(),
        file_type: Some(FileType::Pdf),
        file_size: None,
        crc32_hash: hash.map(|h| h.to_string()),
        csv_metadata: None,
        excel_metadata: None,
    }
}

fn csv(name: &str, columns: &[&str], hash: u32) -> FileDetails {
    FileDetails {
        name: name.to_string(),
        created: "2024-01-01T00:00".to_string(),
        file_type: Some(FileType::Csv),
        file_size: Some(1),
        crc32_hash: None,
        csv_metadata: Some(CsvMetadata {
            columns: names(columns),
            row_count: 1,
            column_similarity_hash: hash,
            stopped_row_count_at: None,
        }),
        excel_metadata: None,
    }
}

fn book(name: &str, sheets: &[(&str, &[&str], u32)]) -> FileDetails {
    FileDetails {
        name: name.to_string(),
        created: "2024-01-01T00:00".to_string(),
        file_type: Some(FileType::Excel),
        file_size: Some(1),
        crc32_hash: None,
        csv_metadata: None,
        excel_metadata: Some(ExcelMetadata {
            sheets: sheets
                .iter()
                .map(|(sheet, columns, hash)| SheetMetadata {
                    sheet_name: sheet.to_string(),
                    columns: names(columns),
                    row_count: 1,
                    column_similarity_hash: *hash,
                    stopped_row_count_at: None,
                })
                .collect(),
        }),
    }
}

fn dir(path: &str, files: Vec<FileDetails>) -> DirectoryEntry {
    DirectoryEntry { path: path.to_string(), files }
}

#[test]
fn labels() {
    assert_eq!(make_file_label("a/b", "c.csv"), "a/b/c.csv");
    assert_eq!(make_file_label("", "c.csv"), "/c.csv");
    assert_eq!(make_sheet_label("a/b/c.xlsx", "Sheet 1"), "a/b/c.xlsx (Sheet 1)");
}

#[test]
fn identical_content_is_grouped() {
    let dirs = vec![
        dir("x", vec![plain("one.pdf", Some("0000beef")), plain("big.pdf", None)]),
        dir("y", vec![plain("two.pdf", Some("0000beef")), plain("three.pdf", Some("0000bee0"))]),
    ];
    let table = build_crc32_table(&dirs);
    assert_eq!(table.len(), 1);
    assert_eq!(table[0].hash, "0000beef");
    assert_eq!(table[0].sources, names(&["x/one.pdf", "y/two.pdf"]));
}

#[test]
fn content_groups_are_in_hash_order() {
    let dirs = vec![dir(
        "d",
        vec![
            plain("1", Some("ffff0000")),
            plain("2", Some("0a000000")),
            plain("3", Some("ffff0000")),
            plain("4", Some("0a000000")),
            plain("5", Some("7b000000")),
            plain("6", Some("7b000000")),
            plain("7", Some("7b000000")),
            plain("8", Some("11111111")),
        ],
    )];
    let table = build_crc32_table(&dirs);
    let hashes: Vec<&str> = table.iter().map(|e| e.hash.as_str()).collect();
    assert_eq!(hashes, vec!["0a000000", "7b000000", "ffff0000"]);
    assert_eq!(table[1].sources, names(&["d/5", "d/6", "d/7"]));
    assert_eq!(table[2].sources, names(&["d/1", "d/3"]));
}

#[test]
fn no_hashes_give_an_empty_content_table() {
    assert!(build_crc32_table(&Vec::new()).is_empty());
    let dirs = vec![dir("d", vec![plain("1", None), plain("2", Some("00000001"))])];
    assert!(build_crc32_table(&dirs).is_empty());
    assert!(group_by_content_hash(&Vec::new()).is_empty());
    let one = vec![ContentHash { hash: "a".to_string(), source: "s".to_string() }];
    assert!(group_by_content_hash(&one).is_empty());
}

#[test]
fn equal_fingerprints_are_grouped() {
    let dirs = vec![
        dir(
            "d",
            vec![
                csv("a.csv", &["Name", "Age"], 9),
                csv("b.csv", &["name", " age"], 9),
                csv("c.csv", &["other"], 4),
                plain("x.pdf", None),
            ],
        ),
        dir(
            "e",
            vec![book("w.xlsx", &[("S1", &["age", "name"], 9), ("S2", &["zip"], 2), ("S3", &["zip", ""], 2)])],
        ),
    ];
    let table = build_similarity_table(&dirs);
    assert_eq!(table.len(), 2);
    assert_eq!(table[0].hash, 2);
    assert_eq!(table[0].example_columns, names(&["zip"]));
    assert_eq!(table[0].sources, names(&["e/w.xlsx (S2)", "e/w.xlsx (S3)"]));
    assert_eq!(table[1].hash, 9);
    assert_eq!(table[1].example_columns, names(&["Name", "Age"]));
    assert_eq!(table[1].sources, names(&["d/a.csv", "d/b.csv", "e/w.xlsx (S1)"]));
}

#[test]
fn single_schemas_give_an_empty_table() {
    assert!(build_similarity_table(&Vec::new()).is_empty());
    let dirs = vec![dir("d", vec![csv("a.csv", &["x"], 1), csv("b.csv", &["y"], 2)])];
    assert!(build_similarity_table(&dirs).is_empty());
    let one = vec![ColumnSet { fingerprint: 1, columns: names(&["x"]), source: "s".to_string() }];
    assert!(group_by_fingerprint(&one).is_empty());
}

#[test]
fn schemas_are_listed_in_scan_order() {
    let dirs = vec![
        dir("d", vec![csv("a.csv", &["x"], 1), book("w.xlsx", &[("S", &["y"], 2)])]),
        dir("e", vec![plain("p.pdf", Some("00000000")), csv("b.csv", &["z"], 3)]),
    ];
    let sets = collect_column_sets(&dirs);
    let sources: Vec<&str> = sets.iter().map(|s| s.source.as_str()).collect();
    assert_eq!(sources, vec!["d/a.csv", "d/w.xlsx (S)", "e/b.csv"]);
    assert_eq!(sets[1].fingerprint, 2);
    assert_eq!(sets[1].columns, names(&["y"]));
    let hashes = collect_content_hashes(&dirs);
    assert_eq!(hashes.len(), 1);
    assert_eq!(hashes[0].hash, "00000000");
    assert_eq!(hashes[0].source, "e/p.pdf");
}

#[test]
fn fuzzy_groups_of_a_scan() {
    let dirs = vec![dir(
        "d",
        vec![
            csv("a.csv", &["customer", "amount"], 1),
            book("w.xlsx", &[("S", &["customers", "amount"], 2)]),
            csv("c.csv", &["zzz"], 3),
        ],
    )];
    let groups = build_fuzzy_similarity_groups(&dirs, Threshold::new(4, 5).unwrap());
    assert_eq!(groups.len(), 1);
    assert_eq!(groups[0].sources, names(&["d/a.csv", "d/w.xlsx (S)"]));
    assert_eq!(groups[0].representative_columns, names(&["amount", "customer", "customers"]));
}

#[test]
fn level_zero_switches_fuzzy_groups_off() {
    let dirs = vec![dir("d", vec![csv("a.csv", &["x"], 1), csv("b.csv", &["x"], 1)])];
    let off = build_duplicate_indices(&dirs, Threshold::new(0, 1).unwrap());
    assert!(off.fuzzy_similarity_groups.is_empty());
    assert_eq!(off.column_similarity_table.len(), 1);
    assert!(off.crc32_similarity_table.is_empty());
    let on = build_duplicate_indices(&dirs, Threshold::new(4, 5).unwrap());
    assert_eq!(on.fuzzy_similarity_groups.len(), 1);
    assert_eq!(on.fuzzy_similarity_groups[0].sources, names(&["d/a.csv", "d/b.csv"]));
}
