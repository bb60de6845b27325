use doc_inventory::directories::DirectoryIndex;
use doc_inventory::excel::{SheetSource, Worksheet};
use doc_inventory::indices::build_duplicate_indices;
use doc_inventory::model::{FileDetails, FileType, Threshold};
use doc_inventory::scan::{
    classify_extension, get_creation_time, is_supported_file_type, plan_reading, process_file,
    should_hash, FileFacts, ProcessError, MAX_HASH_SIZE,
};
use doc_inventory::tables::build_crc32_table;

fn facts(name: &str, extension: Option<&str>, content: Option<&[u8]>) -> FileFacts {
    FileFacts {
        file_name: name.to_string(),
        extension: extension.map(|e| e.to_string()),
        created: "2024-05-06T07:08".to_string(),
        size: content.map(|c| c.len() as u64).unwrap_or(0),
        content: content.map(|c| c.to_vec()),
        sheets: None,
    }
}

fn record(name: &str) -> FileDetails {
    FileDetails {
        name: name.to_string(),
        created: String::new(),
        file_type: None,
        file_size: Some(0),
        crc32_hash: None,
        csv_metadata: None,
        excel_metadata: None,
    }
}

#[test]
fn supported_extensions() {
    for ext in ["csv", "xlsx", "xls", "xlsm", "xlsb", "pdf", "docx", "eml", "CSV", "Xlsx", "PDF"] {
        assert!(is_supported_file_type(Some(ext)), "{}", ext);
    }
    for ext in ["", "txt", "doc", "csvx", "ods", "xlsxx", "ｐｄｆ"] {
        assert!(!is_supported_file_type(Some(ext)), "{}", ext);
    }
    assert!(!is_supported_file_type(None));
}

#[test]
fn extensions_give_kinds() {
    assert_eq!(classify_extension("csv"), Some(FileType::Csv));
    assert_eq!(classify_extension("XLS"), Some(FileType::Excel));
    assert_eq!(classify_extension("xlsx"), Some(FileType::Excel));
    assert_eq!(classify_extension("xlsm"), Some(FileType::Excel));
    assert_eq!(classify_extension("xlsb"), Some(FileType::Excel));
    assert_eq!(classify_extension("Pdf"), Some(FileType::Pdf));
    assert_eq!(classify_extension("docx"), Some(FileType::Docx));
    assert_eq!(classify_extension("eml"), Some(FileType::Eml));
    assert_eq!(classify_extension("txt"), None);
}

#[test]
fn hashing_has_a_hard_cutoff() {
    assert_eq!(MAX_HASH_SIZE, 128 * 1024);
    assert!(should_hash(true, 0));
    assert!(should_hash(true, 128 * 1024));
    assert!(!should_hash(true, 128 * 1024 + 1));
    assert!(!should_hash(false, 10));
}

#[test]
fn small_file_is_hashed() {
    let d = process_file(&facts("report 1234567890.pdf", Some("PDF"), Some(b"123456789")), true, 10).unwrap();
    assert_eq!(d.name, "report [REDACTED].pdf");
    assert_eq!(d.created, "2024-05-06T07:08");
    assert_eq!(d.file_type, Some(FileType::Pdf));
    assert_eq!(d.crc32_hash.as_deref(), Some("cbf43926"));
    assert_eq!(d.file_size, None);
    assert!(d.csv_metadata.is_none());
    assert!(d.excel_metadata.is_none());
}

#[test]
fn large_or_unhashed_file_reports_its_size() {
    let mut big = facts("big.docx", Some("docx"), None);
    big.size = 128 * 1024 + 1;
    let d = process_file(&big, true, 10).unwrap();
    assert_eq!(d.crc32_hash, None);
    assert_eq!(d.file_size, Some(128 * 1024 + 1));
    assert_eq!(d.file_type, Some(FileType::Docx));
    let off = process_file(&facts("a.eml", Some("eml"), Some(b"abc")), false, 10).unwrap();
    assert_eq!(off.crc32_hash, None);
    assert_eq!(off.file_size, Some(3));
    assert_eq!(off.file_type, Some(FileType::Eml));
}

#[test]
fn missing_content_gives_no_record() {
    let r = process_file(&facts("a.pdf", Some("pdf"), None), true, 10);
    assert_eq!(r.err(), Some(ProcessError::ContentUnavailable));
}

#[test]
fn csv_file_gets_its_schema() {
    let d = process_file(&facts("a.csv", Some("csv"), Some(b"Name,Age\n1,2\n3,4\n")), true, 10).unwrap();
    assert_eq!(d.file_type, Some(FileType::Csv));
    let meta = d.csv_metadata.unwrap();
    assert_eq!(meta.columns, vec!["Name".to_string(), "Age".to_string()]);
    assert_eq!(meta.row_count, 2);
    assert!(d.crc32_hash.is_some());
}

#[test]
fn csv_file_with_malformed_header_gives_no_record() {
    let r = process_file(&facts("a.csv", Some("csv"), Some(b"\xff\xfe\n1\n")), true, 10);
    assert_eq!(r.err(), Some(ProcessError::MalformedCsvHeader));
    let off = process_file(&facts("a.csv", Some("CSV"), Some(b"a,\xff\n1,2\n")), false, 10);
    assert_eq!(off.err(), Some(ProcessError::MalformedCsvHeader));
}

#[test]
fn csv_file_without_content_gives_no_record() {
    let mut unread = facts("b.csv", Some("csv"), None);
    unread.size = 1 << 20;
    let r = process_file(&unread, true, 10);
    assert_eq!(r.err(), Some(ProcessError::ContentUnavailable));
    let off = process_file(&unread, false, 10);
    assert_eq!(off.err(), Some(ProcessError::ContentUnavailable));
}

#[test]
fn workbook_that_did_not_open_gives_no_record() {
    let r = process_file(&facts("c.xlsx", Some("xlsx"), Some(b"x")), true, 10);
    assert_eq!(r.err(), Some(ProcessError::WorkbookUnreadable));
    let mut big = facts("c.xls", Some("XLS"), None);
    big.size = 1 << 20;
    assert_eq!(process_file(&big, true, 10).err(), Some(ProcessError::WorkbookUnreadable));
    // A content that is to be hashed and was not read comes first.
    let small = facts("c.xlsb", Some("xlsb"), None);
    assert_eq!(process_file(&small, true, 10).err(), Some(ProcessError::ContentUnavailable));
}

#[test]
fn malformed_data_rows_do_not_fail_the_file() {
    let d = process_file(&facts("a.csv", Some("csv"), Some(b"a,b\n1,2\n1,2,3\n\xff,4\n5,6\n")), true, 10)
        .unwrap();
    assert_eq!(d.csv_metadata.unwrap().row_count, 2);
}

#[test]
fn workbook_gets_its_sheets() {
    let mut f = facts("w.XLSX", Some("XLSX"), Some(b"zip"));
    f.sheets = Some(vec![SheetSource {
        name: "S".to_string(),
        sheet: Some(Worksheet {
            height: 3,
            leading_rows: vec![
                vec!["a".to_string(), "b".to_string()],
                vec!["1".to_string(), "2".to_string()],
            ],
        }),
    }]);
    let d = process_file(&f, false, 10).unwrap();
    assert_eq!(d.file_type, Some(FileType::Excel));
    let book = d.excel_metadata.unwrap();
    assert_eq!(book.sheets.len(), 1);
    assert_eq!(book.sheets[0].row_count, 2);
    assert!(d.csv_metadata.is_none());
}

#[test]
fn file_without_known_kind_has_no_tag() {
    let d = process_file(&facts("README", None, Some(b"x")), true, 10).unwrap();
    assert_eq!(d.file_type, None);
    let e = process_file(&facts("a.txt", Some("txt"), Some(b"Name\n1\n")), true, 10).unwrap();
    assert_eq!(e.file_type, None);
    assert!(e.csv_metadata.is_none());
}

#[test]
fn identical_files_share_a_content_group() {
    let same = vec![7u8; 1000];
    let mut other = same.clone();
    other[999] = 8;
    let mut index = DirectoryIndex::new();
    for (dir, name, bytes) in [("d", "a.pdf", &same), ("e", "b.pdf", &same), ("d", "c.pdf", &other)] {
        let details = process_file(&facts(name, Some("pdf"), Some(bytes)), true, 10).unwrap();
        index = index.add(dir, details);
    }
    let dirs = index.into_entries();
    let table = build_crc32_table(&dirs);
    assert_eq!(table.len(), 1);
    assert_eq!(table[0].sources, vec!["d/a.pdf".to_string(), "e/b.pdf".to_string()]);
    assert_eq!(table[0].hash.len(), 8);
}

#[test]
fn files_over_the_cutoff_join_no_content_group() {
    let big = vec![1u8; 128 * 1024 + 1];
    let mut index = DirectoryIndex::new();
    for name in ["a.pdf", "b.pdf"] {
        let details = process_file(&facts(name, Some("pdf"), Some(&big)), true, 10).unwrap();
        assert_eq!(details.file_size, Some(128 * 1024 + 1));
        index = index.add("d", details);
    }
    let indices = build_duplicate_indices(&index.into_entries(), Threshold::new(4, 5).unwrap());
    assert!(indices.crc32_similarity_table.is_empty());
}

#[test]
fn records_are_collected_by_directory_in_path_order() {
    let mut index = DirectoryIndex::new();
    for (dir, name) in [("z/y", "1"), ("a", "2"), ("z/y", "3"), ("m/1234567890", "4"), ("a", "5")] {
        index = index.add(dir, record(name));
    }
    let dirs = index.into_entries();
    let paths: Vec<&str> = dirs.iter().map(|d| d.path.as_str()).collect();
    assert_eq!(paths, vec!["a", "m/[REDACTED]", "z/y"]);
    let files: Vec<Vec<&str>> =
        dirs.iter().map(|d| d.files.iter().map(|f| f.name.as_str()).collect()).collect();
    assert_eq!(files, vec![vec!["2", "5"], vec!["4"], vec!["1", "3"]]);
    assert!(DirectoryIndex::new().into_entries().is_empty());
}

#[test]
fn directories_with_the_same_redacted_path_stay_apart() {
    let mut index = DirectoryIndex::new();
    for (dir, name) in [("0987654321", "1"), ("b", "2"), ("1234567890", "3"), ("0987654321", "4")] {
        index = index.add(dir, record(name));
    }
    let dirs = index.into_entries();
    let paths: Vec<&str> = dirs.iter().map(|d| d.path.as_str()).collect();
    assert_eq!(paths, vec!["[REDACTED]", "[REDACTED]", "b"]);
    assert_eq!(dirs[0].files.len(), 2);
    assert_eq!(dirs[0].files[0].name, "1");
    assert_eq!(dirs[1].files[0].name, "3");
}

#[test]
fn creation_time_to_the_minute() {
    assert_eq!(get_creation_time(Some(0), None).as_deref(), Some("1970-01-01T00:00"));
    assert_eq!(get_creation_time(Some(1_700_000_000), Some(5)).as_deref(), Some("2023-11-14T22:13"));
    assert_eq!(get_creation_time(None, Some(86_399)).as_deref(), Some("1970-01-01T23:59"));
    assert_eq!(get_creation_time(None, None).as_deref(), Some("1970-01-01T00:00"));
    assert_eq!(get_creation_time(Some(-1), None).as_deref(), Some("1969-12-31T23:59"));
    assert_eq!(get_creation_time(Some(i64::MAX), None), None);
}

#[test]
fn reading_is_planned_by_kind_and_size() {
    let small = plan_reading(Some("pdf"), 10, true);
    assert_eq!(small.kind, Some(FileType::Pdf));
    assert!(small.content);
    assert!(!small.workbook);
    let big_csv = plan_reading(Some("CSV"), 1 << 20, true);
    assert_eq!(big_csv.kind, Some(FileType::Csv));
    assert!(big_csv.content);
    let unhashed_csv = plan_reading(Some("csv"), 10, false);
    assert!(unhashed_csv.content);
    let big_pdf = plan_reading(Some("pdf"), 1 << 20, true);
    assert!(!big_pdf.content);
    let unhashed_pdf = plan_reading(Some("pdf"), 10, false);
    assert!(!unhashed_pdf.content);
    let book = plan_reading(Some("xlsm"), 1 << 20, true);
    assert_eq!(book.kind, Some(FileType::Excel));
    assert!(!book.content);
    assert!(book.workbook);
    let none = plan_reading(None, 10, false);
    assert_eq!(none.kind, None);
    assert!(!none.content);
    assert!(!none.workbook);
}

#[test]
fn every_directory_entry_holds_a_file() {
    let mut index = DirectoryIndex::new();
    for (dir, name) in [("b", "1"), ("a", "2"), ("b", "3")] {
        index = index.add(dir, record(name));
    }
    let dirs = index.into_entries();
    assert_eq!(dirs.len(), 2);
    assert!(dirs.iter().all(|d| !d.files.is_empty()));
}
