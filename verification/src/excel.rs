//! Worksheet schemas: the header row is looked for among the first rows of a
//! sheet, and the rows below it are counted.

use vstd::prelude::*;
use crate::fingerprint::{calculate_column_similarity_hash, fingerprint};
use crate::model::{ExcelMetadata, SheetMetadata};
use crate::redact::{redact_nhs_numbers, redacted};
use crate::row_cap::{cap_row_count, capped, count_view};
use crate::text::{push_char, texts};

verus! {

/// Whether a character is white space: one of the twenty-five characters
/// with the Unicode property `White_Space`.
pub open spec fn is_whitespace_char(c: char) -> bool {
    let code = c as u32;
    ||| 0x09 <= code <= 0x0D
    ||| code == 0x20
    ||| code == 0x85
    ||| code == 0xA0
    ||| code == 0x1680
    ||| 0x2000 <= code <= 0x200A
    ||| code == 0x2028
    ||| code == 0x2029
    ||| code == 0x202F
    ||| code == 0x205F
    ||| code == 0x3000
}

/// `char::is_whitespace`: whether the character has the Unicode property
/// `White_Space`.
#[verifier::external_body]
fn is_whitespace(c: char) -> (r: bool)
    ensures
        r == is_whitespace_char(c),
{
    c.is_whitespace()
}

/// Whether a character is a number of any script or kind.
pub uninterp spec fn is_numeric_char(c: char) -> bool;

/// `char::is_numeric`.
#[verifier::external_body]
fn is_numeric(c: char) -> (r: bool)
    ensures
        r == is_numeric_char(c),
{
    c.is_numeric()
}

/// `calamine::Range`, a grid of cells, carried as it is.
#[verifier::external_type_specification]
#[verifier::external_body]
#[verifier::reject_recursive_types(T)]
pub struct ExRange<T>(calamine::Range<T>);

/// `calamine::Data`, the value of one cell, carried as it is.
#[verifier::external_type_specification]
#[verifier::external_body]
pub struct ExData(calamine::Data);

/// The rows of a cell range, top to bottom, each cell as the text it is
/// displayed as.
pub uninterp spec fn range_rows(range: calamine::Range<calamine::Data>) -> Seq<Seq<Seq<char>>>;

/// The number of rows that a cell range spans.
pub uninterp spec fn range_height(range: calamine::Range<calamine::Data>) -> usize;

/// `calamine::Range::height`: the number of rows between the first and the
/// last position of the range, zero for an empty range.
#[verifier::external_body]
fn height_of(range: &calamine::Range<calamine::Data>) -> (height: usize)
    ensures
        height == range_height(*range),
{
    range.height()
}

/// `calamine::Range::rows` and the display form of `calamine::Data`: the
/// texts of the cells of the row with the given index, counted from the top
/// of the range, or `None` where the range has no such row.
#[verifier::external_body]
fn row_texts(range: &calamine::Range<calamine::Data>, index: usize) -> (r: Option<Vec<String>>)
    ensures
        match r {
            Some(cells) => index < range_rows(*range).len() && texts(cells@) == range_rows(
                *range,
            )[index as int],
            None => index >= range_rows(*range).len(),
        },
{
    range.rows().nth(index).map(|row| row.iter().map(|cell| cell.to_string()).collect())
}

/// The text without its leading white space.
pub open spec fn strip_leading(s: Seq<char>) -> Seq<char>
    decreases s.len(),
{
    if s.len() > 0 && is_whitespace_char(s[0]) {
        strip_leading(s.drop_first())
    } else {
        s
    }
}

/// The text without its trailing white space.
pub open spec fn strip_trailing(s: Seq<char>) -> Seq<char>
    decreases s.len(),
{
    if s.len() > 0 && is_whitespace_char(s.last()) {
        strip_trailing(s.drop_last())
    } else {
        s
    }
}

/// The text without leading and trailing white space.
pub open spec fn trimmed(s: Seq<char>) -> Seq<char> {
    strip_trailing(strip_leading(s))
}

/// Whether the text is made of numeric characters and full stops only.
pub open spec fn looks_numeric(s: Seq<char>) -> bool {
    forall|i: int| 0 <= i < s.len() ==> is_numeric_char(#[trigger] s[i]) || s[i] == '.'
}

/// The characters of a string.
pub fn chars_of(s: &str) -> (r: Vec<char>)
    ensures
        r@ == s@,
{
    let mut out: Vec<char> = Vec::new();
    for c in it: s.chars()
        invariant
            it.seq() == s@,
            out@ == s@.take(it.index() as int),
    {
        out.push(c);
        assert(s@.take(it.index() + 1) =~= s@.take(it.index() as int).push(c));
    }
    assert(s@.take(s@.len() as int) =~= s@);
    out
}

/// Removes leading and trailing white space.
pub fn trim_text(s: &str) -> (r: String)
    ensures
        r@ == trimmed(s@),
{
    let chars = chars_of(s);
    let n = chars.len();
    let mut from: usize = 0;
    assert(chars@.skip(0) =~= chars@);
    while from < n && is_whitespace(chars[from])
        invariant
            from <= n,
            n == chars.len(),
            strip_leading(chars@) == strip_leading(chars@.skip(from as int)),
        decreases n - from,
    {
        assert(chars@.skip(from as int).drop_first() =~= chars@.skip(from + 1));
        from += 1;
    }
    assert(strip_leading(chars@) == chars@.skip(from as int)) by {
        if from < n {
            assert(chars@.skip(from as int)[0] == chars@[from as int]);
        }
    }
    let mut to: usize = n;
    assert(chars@.subrange(from as int, n as int) =~= chars@.skip(from as int));
    while to > from && is_whitespace(chars[to - 1])
        invariant
            from <= to <= n,
            n == chars.len(),
            strip_trailing(chars@.skip(from as int)) == strip_trailing(
                chars@.subrange(from as int, to as int),
            ),
        decreases to,
    {
        assert(chars@.subrange(from as int, to as int).drop_last() =~= chars@.subrange(
            from as int,
            to - 1,
        ));
        assert(chars@.subrange(from as int, to as int).last() == chars@[to - 1]);
        to -= 1;
    }
    assert(strip_trailing(chars@.skip(from as int)) == chars@.subrange(from as int, to as int)) by {
        if to > from {
            assert(chars@.subrange(from as int, to as int).last() == chars@[to - 1]);
        }
    }
    let mut out = String::new();
    let mut k: usize = from;
    while k < to
        invariant
            from <= k <= to <= n,
            n == chars.len(),
            out@ == chars@.subrange(from as int, k as int),
        decreases to - k,
    {
        push_char(&mut out, chars[k]);
        assert(chars@.subrange(from as int, k + 1) =~= chars@.subrange(from as int, k as int).push(
            chars@[k as int],
        ));
        k += 1;
    }
    out
}

/// Whether the text is made of numeric characters and full stops only.
pub fn is_numeric_text(s: &str) -> (r: bool)
    ensures
        r == looks_numeric(s@),
{
    let chars = chars_of(s);
    let mut k: usize = 0;
    while k < chars.len()
        invariant
            k <= chars.len(),
            chars@ == s@,
            forall|i: int| 0 <= i < k ==> is_numeric_char(#[trigger] s@[i]) || s@[i] == '.',
        decreases chars.len() - k,
    {
        if !(is_numeric(chars[k]) || chars[k] == '.') {
            assert(!(is_numeric_char(s@[k as int]) || s@[k as int] == '.'));
            return false;
        }
        k += 1;
    }
    true
}

/// A worksheet as it was read: the number of its rows and the text of each
/// cell of its first rows.
#[derive(Clone, Debug)]
pub struct Worksheet {
    pub height: usize,
    pub leading_rows: Vec<Vec<String>>,
}

/// What a worksheet stands for: the number of its rows and the cell texts of
/// its first rows.
pub struct SheetView {
    pub height: nat,
    pub rows: Seq<Seq<Seq<char>>>,
}

/// The cell texts of a list of rows.
pub open spec fn grid_texts(rows: Seq<Vec<String>>) -> Seq<Seq<Seq<char>>> {
    rows.map_values(|row: Vec<String>| texts(row@))
}

impl View for Worksheet {
    type V = SheetView;

    open spec fn view(&self) -> SheetView {
        SheetView { height: self.height as nat, rows: grid_texts(self.leading_rows@) }
    }
}

/// A worksheet name with the worksheet, where it could be read.
#[derive(Clone, Debug)]
pub struct SheetSource {
    pub name: String,
    pub sheet: Option<Worksheet>,
}

/// How many rows from the top are considered as the header row.
pub const HEADER_SEARCH_ROWS: usize = 5;

/// The cell texts of row `i`; none for a row that the sheet does not hold.
pub open spec fn row_cells(sheet: SheetView, i: int) -> Seq<Seq<char>> {
    if 0 <= i < sheet.rows.len() {
        sheet.rows[i]
    } else {
        Seq::empty()
    }
}

/// The header names a row gives: its cells trimmed and redacted, blank cells
/// left out.
pub open spec fn header_names(cells: Seq<Seq<char>>) -> Seq<Seq<char>>
    decreases cells.len(),
{
    if cells.len() == 0 {
        Seq::empty()
    } else if trimmed(cells.last()).len() > 0 {
        header_names(cells.drop_last()).push(redacted(trimmed(cells.last())))
    } else {
        header_names(cells.drop_last())
    }
}

/// How many cells of a row look like labels: not blank and not numeric.
pub open spec fn label_score(cells: Seq<Seq<char>>) -> nat
    decreases cells.len(),
{
    if cells.len() == 0 {
        0
    } else if trimmed(cells.last()).len() > 0 && !looks_numeric(trimmed(cells.last())) {
        label_score(cells.drop_last()) + 1
    } else {
        label_score(cells.drop_last())
    }
}

/// Every cell of a row trimmed and redacted, blank cells included.
pub open spec fn fallback_names(cells: Seq<Seq<char>>) -> Seq<Seq<char>> {
    cells.map_values(|cell: Seq<char>| redacted(trimmed(cell)))
}

/// The number of rows that are considered as the header row.
pub open spec fn search_limit(sheet: SheetView) -> int {
    if sheet.height < HEADER_SEARCH_ROWS {
        sheet.height as int
    } else {
        HEADER_SEARCH_ROWS as int
    }
}

/// Whether row `i` is the header row: it has the highest score of the rows
/// considered, that score is not zero, and no row above it has the same.
pub open spec fn is_header_row(sheet: SheetView, i: int) -> bool {
    &&& 0 <= i < search_limit(sheet)
    &&& label_score(row_cells(sheet, i)) > 0
    &&& forall|j: int|
        0 <= j < search_limit(sheet) ==> label_score(#[trigger] row_cells(sheet, j)) <= label_score(
            row_cells(sheet, i),
        )
    &&& forall|j: int|
        0 <= j < i ==> label_score(#[trigger] row_cells(sheet, j)) < label_score(
            row_cells(sheet, i),
        )
}

/// The column names of a sheet and the index of its header row. Where no row
/// considered holds a label, the first row is taken as it is.
pub open spec fn header_of(sheet: SheetView) -> (Seq<Seq<char>>, int) {
    if exists|i: int| is_header_row(sheet, i) {
        let i = choose|i: int| is_header_row(sheet, i);
        (header_names(row_cells(sheet, i)), i)
    } else {
        (fallback_names(row_cells(sheet, 0)), 0)
    }
}

/// At most one row is the header row.
pub proof fn lemma_header_row_unique(sheet: SheetView, a: int, b: int)
    requires
        is_header_row(sheet, a),
        is_header_row(sheet, b),
    ensures
        a == b,
{
    if a < b {
        assert(label_score(row_cells(sheet, a)) < label_score(row_cells(sheet, b)));
    } else if b < a {
        assert(label_score(row_cells(sheet, b)) < label_score(row_cells(sheet, a)));
    }
}

/// A row of labels directly below a first row without any is the header
/// row, unless a row further down holds more labels.
pub proof fn lemma_labels_below_numbers(sheet: SheetView)
    requires
        search_limit(sheet) >= 2,
        label_score(row_cells(sheet, 0)) == 0,
        label_score(row_cells(sheet, 1)) > 0,
        forall|j: int|
            2 <= j < search_limit(sheet) ==> label_score(#[trigger] row_cells(sheet, j))
                <= label_score(row_cells(sheet, 1)),
    ensures
        header_of(sheet).1 == 1,
        header_of(sheet).0 == header_names(row_cells(sheet, 1)),
{
    assert(is_header_row(sheet, 1)) by {
        assert forall|j: int| 0 <= j < search_limit(sheet) implies label_score(
            #[trigger] row_cells(sheet, j),
        ) <= label_score(row_cells(sheet, 1)) by {}
    }
    let chosen = choose|i: int| is_header_row(sheet, i);
    lemma_header_row_unique(sheet, chosen, 1);
}

/// The header names and the score of one row.
pub fn scan_row(row: &Vec<String>) -> (r: (Vec<String>, usize))
    ensures
        texts(r.0@) == header_names(texts(row@)),
        r.1 == label_score(texts(row@)),
{
    let mut headers: Vec<String> = Vec::new();
    let mut score: usize = 0;
    let mut c: usize = 0;
    assert(texts(row@).take(0) =~= Seq::<Seq<char>>::empty());
    assert(texts(headers@) =~= Seq::<Seq<char>>::empty());
    while c < row.len()
        invariant
            c <= row.len(),
            score <= c,
            texts(headers@) == header_names(texts(row@).take(c as int)),
            score == label_score(texts(row@).take(c as int)),
        decreases row.len() - c,
    {
        let cell = trim_text(row[c].as_str());
        proof {
            let now = texts(row@).take(c + 1);
            assert(now.drop_last() =~= texts(row@).take(c as int));
            assert(now.last() == row@[c as int]@);
        }
        if !cell.as_str().is_empty() {
            let ghost before = headers@;
            let name = redact_nhs_numbers(cell.as_str());
            headers.push(name);
            assert(texts(headers@) =~= texts(before).push(name@));
            if !is_numeric_text(cell.as_str()) {
                score += 1;
            }
        }
        c += 1;
    }
    assert(texts(row@).take(row.len() as int) =~= texts(row@));
    (headers, score)
}

/// Every cell of the row trimmed and redacted.
pub fn fallback_row(row: &Vec<String>) -> (r: Vec<String>)
    ensures
        texts(r@) == fallback_names(texts(row@)),
{
    let mut names: Vec<String> = Vec::new();
    let mut c: usize = 0;
    while c < row.len()
        invariant
            c <= row.len(),
            names.len() == c,
            forall|k: int| 0 <= k < c ==> (#[trigger] names@[k])@ == redacted(trimmed(row@[k]@)),
        decreases row.len() - c,
    {
        let cell = trim_text(row[c].as_str());
        names.push(redact_nhs_numbers(cell.as_str()));
        c += 1;
    }
    assert(texts(names@) =~= fallback_names(texts(row@)));
    names
}

/// Finds the header row of a sheet and gives its column names.
///
/// Of the first rows, five at most, the one with the most cells that are
/// neither blank nor numeric is the header row, the topmost on a tie. Its
/// names are its non-blank cells, trimmed and redacted. Where no row holds
/// such a cell, the first row is the header, with every one of its cells.
pub fn find_header_row(sheet: &Worksheet) -> (r: (Vec<String>, usize))
    ensures
        texts(r.0@) == header_of(sheet@).0,
        r.1 == header_of(sheet@).1,
{
    let limit = if sheet.height < HEADER_SEARCH_ROWS {
        sheet.height
    } else {
        HEADER_SEARCH_ROWS
    };
    let mut best_headers: Vec<String> = Vec::new();
    let mut best_score: usize = 0;
    let mut best_row: usize = 0;
    let mut row: usize = 0;
    while row < limit
        invariant
            row <= limit,
            limit == search_limit(sheet@),
            forall|j: int|
                0 <= j < row ==> label_score(#[trigger] row_cells(sheet@, j)) <= best_score,
            best_score > 0 ==> {
                &&& best_row < row
                &&& label_score(row_cells(sheet@, best_row as int)) == best_score
                &&& texts(best_headers@) == header_names(row_cells(sheet@, best_row as int))
                &&& forall|j: int|
                    0 <= j < best_row ==> label_score(#[trigger] row_cells(sheet@, j)) < best_score
            },
        decreases limit - row,
    {
        if row < sheet.leading_rows.len() {
            let (headers, score) = scan_row(&sheet.leading_rows[row]);
            if score > best_score {
                best_score = score;
                best_headers = headers;
                best_row = row;
            }
        } else {
            assert(label_score(row_cells(sheet@, row as int)) == 0);
        }
        row += 1;
    }
    if best_score > 0 {
        proof {
            assert(is_header_row(sheet@, best_row as int));
            let chosen = choose|i: int| is_header_row(sheet@, i);
            lemma_header_row_unique(sheet@, chosen, best_row as int);
        }
        (best_headers, best_row)
    } else {
        proof {
            assert forall|i: int| !is_header_row(sheet@, i) by {
                if 0 <= i < search_limit(sheet@) {
                    assert(label_score(row_cells(sheet@, i)) <= 0);
                }
            }
        }
        if sheet.leading_rows.len() > 0 {
            (fallback_row(&sheet.leading_rows[0]), 0)
        } else {
            let none: Vec<String> = Vec::new();
            assert(texts(none@) =~= fallback_names(row_cells(sheet@, 0)));
            (none, 0)
        }
    }
}

/// How many of the given rows count as leading rows.
pub open spec fn leading_count(rows: Seq<Seq<Seq<char>>>) -> int {
    if rows.len() < HEADER_SEARCH_ROWS {
        rows.len() as int
    } else {
        HEADER_SEARCH_ROWS as int
    }
}

/// What is read of a cell range: its height and its leading rows.
pub open spec fn range_view(range: calamine::Range<calamine::Data>) -> SheetView {
    SheetView {
        height: range_height(range) as nat,
        rows: range_rows(range).take(leading_count(range_rows(range))),
    }
}

/// Reads the height and the leading rows of a cell range.
pub fn read_worksheet(range: &calamine::Range<calamine::Data>) -> (sheet: Worksheet)
    ensures
        sheet@ == range_view(*range),
{
    let height = height_of(range);
    let mut rows: Vec<Vec<String>> = Vec::new();
    let mut more = true;
    let ghost all = range_rows(*range);
    assert(grid_texts(rows@) =~= all.take(0));
    while more && rows.len() < HEADER_SEARCH_ROWS
        invariant
            all == range_rows(*range),
            rows.len() <= HEADER_SEARCH_ROWS,
            rows.len() <= all.len(),
            grid_texts(rows@) == all.take(rows.len() as int),
            !more ==> rows.len() == all.len(),
        decreases HEADER_SEARCH_ROWS - rows.len() + if more { 1int } else { 0int },
    {
        match row_texts(range, rows.len()) {
            Some(cells) => {
                let ghost before = rows@;
                rows.push(cells);
                assert(grid_texts(rows@) =~= grid_texts(before).push(texts(cells@)));
                assert(all.take(rows.len() as int) =~= all.take(before.len() as int).push(
                    all[before.len() as int],
                ));
            },
            None => {
                more = false;
            },
        }
    }
    Worksheet { height, leading_rows: rows }
}

/// Finds the header row of a cell range and gives its column names: see
/// `find_header_row`.
pub fn extract_excel_columns_with_header_row(range: &calamine::Range<calamine::Data>) -> (r: (
    Vec<String>,
    usize,
))
    ensures
        texts(r.0@) == header_of(range_view(*range)).0,
        r.1 == header_of(range_view(*range)).1,
{
    let sheet = read_worksheet(range);
    find_header_row(&sheet)
}

/// The number of rows below the header row.
pub open spec fn data_rows(height: int, header_row: int) -> int {
    if height > header_row + 1 {
        height - header_row - 1
    } else {
        0
    }
}

/// Whether `meta` is the schema of the worksheet `sheet` named `name`, read
/// under the row cap `max_rows`.
pub open spec fn is_sheet_metadata(
    meta: SheetMetadata,
    name: Seq<char>,
    sheet: SheetView,
    max_rows: usize,
) -> bool {
    &&& meta.sheet_name@ == redacted(name)
    &&& texts(meta.columns@) == header_of(sheet).0
    &&& meta.column_similarity_hash == fingerprint(header_of(sheet).0)
    &&& count_view(meta.row_count, meta.stopped_row_count_at) == capped(
        data_rows(sheet.height as int, header_of(sheet).1),
        max_rows as int,
    )
}

/// The schema of one worksheet.
pub fn extract_sheet_metadata(name: &str, sheet: &Worksheet, max_rows: usize) -> (meta:
    SheetMetadata)
    ensures
        is_sheet_metadata(meta, name@, sheet@, max_rows),
{
    let (columns, header_row) = find_header_row(sheet);
    let total = if sheet.height > header_row + 1 {
        sheet.height - header_row - 1
    } else {
        0
    };
    let (row_count, stopped_at) = cap_row_count(total, max_rows);
    let hash = calculate_column_similarity_hash(&columns);
    SheetMetadata {
        sheet_name: redact_nhs_numbers(name),
        columns,
        row_count,
        column_similarity_hash: hash,
        stopped_row_count_at: stopped_at,
    }
}

/// The indices before `upto` of the worksheets that could be read.
pub open spec fn readable_sheets(sources: Seq<SheetSource>, upto: int) -> Seq<int>
    decreases upto,
{
    if upto <= 0 {
        Seq::empty()
    } else if sources[upto - 1].sheet is Some {
        readable_sheets(sources, upto - 1).push(upto - 1)
    } else {
        readable_sheets(sources, upto - 1)
    }
}

/// Whether `sheets` holds the schemas of the readable worksheets among the
/// first `upto` of `sources`, in order.
pub open spec fn is_workbook_metadata(
    sheets: Seq<SheetMetadata>,
    sources: Seq<SheetSource>,
    upto: int,
    max_rows: usize,
) -> bool {
    let readable = readable_sheets(sources, upto);
    &&& sheets.len() == readable.len()
    &&& forall|k: int|
        0 <= k < sheets.len() ==> is_sheet_metadata(
            #[trigger] sheets[k],
            sources[readable[k]].name@,
            sources[readable[k]].sheet->0@,
            max_rows,
        )
}

/// The schemas of the worksheets of a workbook, in workbook order. A
/// worksheet that could not be read is left out.
pub fn extract_excel_metadata(sources: &Vec<SheetSource>, max_rows: usize) -> (book: ExcelMetadata)
    ensures
        is_workbook_metadata(book.sheets@, sources@, sources.len() as int, max_rows),
{
    let mut sheets: Vec<SheetMetadata> = Vec::new();
    let mut s: usize = 0;
    while s < sources.len()
        invariant
            s <= sources.len(),
            is_workbook_metadata(sheets@, sources@, s as int, max_rows),
        decreases sources.len() - s,
    {
        if let Some(sheet) = &sources[s].sheet {
            let ghost before = sheets@;
            let meta = extract_sheet_metadata(sources[s].name.as_str(), sheet, max_rows);
            sheets.push(meta);
            proof {
                let readable = readable_sheets(sources@, s + 1);
                assert forall|k: int| 0 <= k < sheets.len() implies is_sheet_metadata(
                    #[trigger] sheets[k],
                    sources[readable[k]].name@,
                    sources[readable[k]].sheet->0@,
                    max_rows,
                ) by {
                    if k < before.len() {
                        assert(sheets[k] == before[k]);
                    }
                }
            }
        }
        s += 1;
    }
    ExcelMetadata { sheets }
}

} // verus!
