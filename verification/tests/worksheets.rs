use calamine::{Data, Range};
use doc_inventory::excel::{
    extract_excel_columns_with_header_row, extract_excel_metadata, extract_sheet_metadata,
    fallback_row, find_header_row, is_numeric_text, read_worksheet, scan_row, trim_text,
    SheetSource, Worksheet, HEADER_SEARCH_ROWS,
};
use doc_inventory::row_cap::cap_row_count;

fn row(cells: &[&str]) -> Vec<String> {
    cells.iter().map(|s| s.to_string()).collect()
}

fn sheet(height: usize, rows: &[&[&str]]) -> Worksheet {
    Worksheet { height, leading_rows: rows.iter().map(|r| row(r)).collect() }
}

#[test]
fn labels_below_numbers_are_the_header() {
    let s = sheet(5, &[&["1", "2.5", "3"], &["Name", "Age", "Town"], &["ann", "31", "x"]]);
    let (columns, index) = find_header_row(&s);
    assert_eq!(index, 1);
    assert_eq!(columns, row(&["Name", "Age", "Town"]));
    let meta = extract_sheet_metadata("Sheet1", &s, 100);
    assert_eq!(meta.row_count, 3);
    assert_eq!(meta.stopped_row_count_at, None);
    assert_eq!(meta.columns, row(&["Name", "Age", "Town"]));
    assert_eq!(meta.column_similarity_hash, crc32fast::hash(b"age,name,town"));
}

#[test]
fn first_row_wins_a_tie() {
    let s = sheet(3, &[&["a", "b"], &["c", "d"], &["e", "1"]]);
    let (columns, index) = find_header_row(&s);
    assert_eq!(index, 0);
    assert_eq!(columns, row(&["a", "b"]));
}

#[test]
fn highest_score_wins() {
    let s = sheet(4, &[&["Report", "", ""], &["", "", ""], &["id", "name", "7"], &["x", "y", "z"]]);
    let (columns, index) = find_header_row(&s);
    assert_eq!(index, 3);
    assert_eq!(columns, row(&["x", "y", "z"]));
}

#[test]
fn header_cells_are_trimmed_and_redacted_and_blanks_dropped() {
    let s = sheet(2, &[&["  Name ", "", " 1234567890 ", "\t", "x 123 456 7890"], &["1", "2", "3", "4", "5"]]);
    let (columns, index) = find_header_row(&s);
    assert_eq!(index, 0);
    assert_eq!(columns, row(&["Name", "[REDACTED]", "x [REDACTED]"]));
}

#[test]
fn only_the_first_rows_are_considered() {
    assert_eq!(HEADER_SEARCH_ROWS, 5);
    let s = sheet(
        7,
        &[&["1"], &["2"], &["3"], &["4"], &["5"], &["label"], &["6"]],
    );
    let (columns, index) = find_header_row(&s);
    assert_eq!(index, 0);
    assert_eq!(columns, row(&["1"]));
}

#[test]
fn numeric_sheet_falls_back_to_first_row() {
    let s = sheet(3, &[&["1", " ", "2.0 "], &["3", "4", "5"], &["6", "7", "8"]]);
    let (columns, index) = find_header_row(&s);
    assert_eq!(index, 0);
    assert_eq!(columns, row(&["1", "", "2.0"]));
    let meta = extract_sheet_metadata("s", &s, 100);
    assert_eq!(meta.row_count, 2);
}

#[test]
fn empty_sheet_has_no_columns() {
    let s = sheet(0, &[]);
    let (columns, index) = find_header_row(&s);
    assert_eq!(index, 0);
    assert!(columns.is_empty());
    let meta = extract_sheet_metadata("s", &s, 100);
    assert_eq!(meta.row_count, 0);
    assert_eq!(meta.stopped_row_count_at, None);
}

#[test]
fn header_in_last_row_leaves_no_data_rows() {
    let s = sheet(2, &[&["1", "2"], &["a", "b"]]);
    let meta = extract_sheet_metadata("s", &s, 100);
    assert_eq!(meta.columns, row(&["a", "b"]));
    assert_eq!(meta.row_count, 0);
    assert_eq!(meta.stopped_row_count_at, None);
}

#[test]
fn sheet_rows_are_capped() {
    let s = sheet(1001, &[&["a", "b"], &["1", "2"]]);
    let meta = extract_sheet_metadata("s", &s, 10);
    assert_eq!(meta.row_count, 10);
    assert_eq!(meta.stopped_row_count_at, Some(10));
    let open = extract_sheet_metadata("s", &s, 1001);
    assert_eq!(open.row_count, 1000);
    assert_eq!(open.stopped_row_count_at, None);
}

#[test]
fn row_cap_rule() {
    assert_eq!(cap_row_count(5, 10), (5, None));
    assert_eq!(cap_row_count(10, 10), (10, Some(10)));
    assert_eq!(cap_row_count(11, 10), (10, Some(10)));
    assert_eq!(cap_row_count(0, 0), (0, Some(0)));
    assert_eq!(cap_row_count(0, 1), (0, None));
}

#[test]
fn unreadable_sheets_are_left_out() {
    let sources = vec![
        SheetSource { name: "first".to_string(), sheet: Some(sheet(2, &[&["a"], &["1"]])) },
        SheetSource { name: "broken".to_string(), sheet: None },
        SheetSource { name: "id 1234567890".to_string(), sheet: Some(sheet(3, &[&["b"], &["1"], &["2"]])) },
    ];
    let book = extract_excel_metadata(&sources, 100);
    assert_eq!(book.sheets.len(), 2);
    assert_eq!(book.sheets[0].sheet_name, "first");
    assert_eq!(book.sheets[0].columns, row(&["a"]));
    assert_eq!(book.sheets[0].row_count, 1);
    assert_eq!(book.sheets[1].sheet_name, "id [REDACTED]");
    assert_eq!(book.sheets[1].columns, row(&["b"]));
    assert_eq!(book.sheets[1].row_count, 2);
    assert!(extract_excel_metadata(&Vec::new(), 100).sheets.is_empty());
}

#[test]
fn scores_count_labels() {
    let (headers, score) = scan_row(&row(&["Name", "12", " ", "3.5", "x1", "."]));
    assert_eq!(headers, row(&["Name", "12", "3.5", "x1", "."]));
    assert_eq!(score, 2);
    assert_eq!(fallback_row(&row(&[" a ", "", "1234567890"])), row(&["a", "", "[REDACTED]"]));
}

#[test]
fn trims_white_space() {
    assert_eq!(trim_text("  a b \t\n"), "a b");
    assert_eq!(trim_text("\u{a0}x\u{2003}"), "x");
    assert_eq!(trim_text("   "), "");
    assert_eq!(trim_text(""), "");
    assert_eq!(trim_text("abc"), "abc");
}

#[test]
fn numeric_text() {
    assert!(is_numeric_text("123"));
    assert!(is_numeric_text("1.5"));
    assert!(is_numeric_text("..."));
    assert!(is_numeric_text(""));
    assert!(is_numeric_text("٣٤"));
    assert!(!is_numeric_text("1,5"));
    assert!(!is_numeric_text("-1"));
    assert!(!is_numeric_text("12a"));
}

fn text(s: &str) -> Data {
    Data::String(s.to_string())
}

#[test]
fn range_with_labels_below_numbers() {
    let mut range: Range<Data> = Range::new((0, 0), (3, 2));
    range.set_value((0, 0), Data::Int(1));
    range.set_value((0, 1), Data::Float(2.5));
    range.set_value((0, 2), Data::Int(3));
    range.set_value((1, 0), text(" Name "));
    range.set_value((1, 1), text("Age"));
    range.set_value((1, 2), text("nhs 1234567890"));
    range.set_value((2, 0), text("ann"));
    range.set_value((2, 1), Data::Int(31));
    range.set_value((3, 0), text("bob"));
    let (columns, index) = extract_excel_columns_with_header_row(&range);
    assert_eq!(index, 1);
    assert_eq!(columns, row(&["Name", "Age", "nhs [REDACTED]"]));
    let sheet = read_worksheet(&range);
    assert_eq!(sheet.height, 4);
    assert_eq!(sheet.leading_rows.len(), 4);
    assert_eq!(sheet.leading_rows[0], row(&["1", "2.5", "3"]));
    assert_eq!(sheet.leading_rows[2], row(&["ann", "31", ""]));
    let meta = extract_sheet_metadata("People", &sheet, 100);
    assert_eq!(meta.row_count, 2);
    assert_eq!(meta.columns, row(&["Name", "Age", "nhs [REDACTED]"]));
}

#[test]
fn range_of_numbers_falls_back_to_first_row() {
    let mut range: Range<Data> = Range::new((2, 1), (4, 2));
    range.set_value((2, 1), Data::Int(7));
    range.set_value((3, 1), Data::Float(1.25));
    range.set_value((3, 2), Data::Bool(true));
    range.set_value((4, 2), Data::Int(9));
    // `true` in the second row is a label.
    let (columns, index) = extract_excel_columns_with_header_row(&range);
    assert_eq!(index, 1);
    assert_eq!(columns, row(&["1.25", "true"]));
    let mut numbers: Range<Data> = Range::new((0, 0), (1, 1));
    numbers.set_value((0, 0), Data::Int(7));
    numbers.set_value((1, 1), Data::Float(0.5));
    let (columns, index) = extract_excel_columns_with_header_row(&numbers);
    assert_eq!(index, 0);
    assert_eq!(columns, row(&["7", ""]));
}

#[test]
fn empty_range_has_no_columns() {
    let range: Range<Data> = Range::empty();
    let sheet = read_worksheet(&range);
    assert_eq!(sheet.height, 0);
    assert!(sheet.leading_rows.is_empty());
    let (columns, index) = extract_excel_columns_with_header_row(&range);
    assert_eq!(index, 0);
    assert!(columns.is_empty());
}

#[test]
fn only_leading_rows_of_a_range_are_read() {
    let mut range: Range<Data> = Range::new((0, 0), (9, 0));
    for r in 0..10u32 {
        range.set_value((r, 0), Data::Int(i64::from(r)));
    }
    range.set_value((7, 0), text("late label"));
    let sheet = read_worksheet(&range);
    assert_eq!(sheet.height, 10);
    assert_eq!(sheet.leading_rows.len(), 5);
    assert_eq!(sheet.leading_rows[4], row(&["4"]));
    let (columns, index) = extract_excel_columns_with_header_row(&range);
    assert_eq!(index, 0);
    assert_eq!(columns, row(&["0"]));
}

#[test]
fn white_space_is_the_listed_set() {
    let listed = |code: u32| {
        (0x09..=0x0D).contains(&code)
            || [0x20, 0x85, 0xA0, 0x1680, 0x2028, 0x2029, 0x202F, 0x205F, 0x3000].contains(&code)
            || (0x2000..=0x200A).contains(&code)
    };
    let mut count = 0;
    for code in 0..=0x10FFFFu32 {
        if let Some(c) = char::from_u32(code) {
            assert_eq!(c.is_whitespace(), listed(code), "{:x}", code);
            if listed(code) {
                count += 1;
                assert_eq!(trim_text(&format!("{}a{}", c, c)), "a");
            }
        }
    }
    assert_eq!(count, 25);
    assert_eq!(trim_text("\u{200B}a"), "\u{200B}a");
}
