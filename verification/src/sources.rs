//! Source labels, and the flat lists of schemas and content checksums that
//! the duplicate indices are built from.

use vstd::prelude::*;
use crate::model::{DirectoryEntry, FileDetails, SheetMetadata};
use crate::text::texts;

verus! {

/// A column list, its fingerprint, and the label of the source it was read
/// from.
#[derive(Clone, Debug)]
pub struct ColumnSet {
    pub fingerprint: u32,
    pub columns: Vec<String>,
    pub source: String,
}

/// A content checksum and the label of the file that has it.
#[derive(Clone, Debug)]
pub struct ContentHash {
    pub hash: String,
    pub source: String,
}

/// What a `ColumnSet` stands for.
pub struct SchemaView {
    pub fingerprint: u32,
    pub columns: Seq<Seq<char>>,
    pub source: Seq<char>,
}

/// What a `ContentHash` stands for.
pub struct ContentView {
    pub hash: Seq<char>,
    pub source: Seq<char>,
}

impl View for ColumnSet {
    type V = SchemaView;

    open spec fn view(&self) -> SchemaView {
        SchemaView {
            fingerprint: self.fingerprint,
            columns: texts(self.columns@),
            source: self.source@,
        }
    }
}

impl View for ContentHash {
    type V = ContentView;

    open spec fn view(&self) -> ContentView {
        ContentView { hash: self.hash@, source: self.source@ }
    }
}

/// The views of a list of column sets.
pub open spec fn schema_list(sets: Seq<ColumnSet>) -> Seq<SchemaView> {
    sets.map_values(|s: ColumnSet| s@)
}

/// The views of a list of content checksums.
pub open spec fn content_list(hashes: Seq<ContentHash>) -> Seq<ContentView> {
    hashes.map_values(|h: ContentHash| h@)
}

/// Label of a file: its directory and name with a slash between them.
pub open spec fn file_label(dir: Seq<char>, name: Seq<char>) -> Seq<char> {
    dir + seq!['/'] + name
}

/// Label of a worksheet: the file's label, then the sheet name in round
/// brackets.
pub open spec fn sheet_label(file: Seq<char>, sheet: Seq<char>) -> Seq<char> {
    file + seq![' ', '('] + sheet + seq![')']
}

/// The schemas of the given worksheets of the file labelled `file`.
pub open spec fn sheet_schemas(file: Seq<char>, sheets: Seq<SheetMetadata>) -> Seq<SchemaView>
    decreases sheets.len(),
{
    if sheets.len() == 0 {
        Seq::empty()
    } else {
        sheet_schemas(file, sheets.drop_last()).push(
            SchemaView {
                fingerprint: sheets.last().column_similarity_hash,
                columns: texts(sheets.last().columns@),
                source: sheet_label(file, sheets.last().sheet_name@),
            },
        )
    }
}

/// The schemas that one file contributes: its CSV schema if it has one, then
/// one per worksheet.
pub open spec fn file_schemas(dir: Seq<char>, file: FileDetails) -> Seq<SchemaView> {
    let label = file_label(dir, file.name@);
    let flat = match file.csv_metadata {
        Some(meta) => seq![
            SchemaView {
                fingerprint: meta.column_similarity_hash,
                columns: texts(meta.columns@),
                source: label,
            },
        ],
        None => Seq::empty(),
    };
    let sheets = match file.excel_metadata {
        Some(book) => sheet_schemas(label, book.sheets@),
        None => Seq::empty(),
    };
    flat + sheets
}

/// The schemas of the given files of directory `dir`, in order.
pub open spec fn directory_schemas(dir: Seq<char>, files: Seq<FileDetails>) -> Seq<SchemaView>
    decreases files.len(),
{
    if files.len() == 0 {
        Seq::empty()
    } else {
        directory_schemas(dir, files.drop_last()) + file_schemas(dir, files.last())
    }
}

/// Every schema of the scan, in scan order.
pub open spec fn all_schemas(directories: Seq<DirectoryEntry>) -> Seq<SchemaView>
    decreases directories.len(),
{
    if directories.len() == 0 {
        Seq::empty()
    } else {
        all_schemas(directories.drop_last()) + directory_schemas(
            directories.last().path@,
            directories.last().files@,
        )
    }
}

/// The content checksums of the given files of directory `dir`, in order;
/// files without a checksum contribute nothing.
pub open spec fn directory_hashes(dir: Seq<char>, files: Seq<FileDetails>) -> Seq<ContentView>
    decreases files.len(),
{
    if files.len() == 0 {
        Seq::empty()
    } else {
        let earlier = directory_hashes(dir, files.drop_last());
        match files.last().crc32_hash {
            Some(hash) => earlier.push(
                ContentView { hash: hash@, source: file_label(dir, files.last().name@) },
            ),
            None => earlier,
        }
    }
}

/// Every content checksum of the scan, in scan order.
pub open spec fn all_hashes(directories: Seq<DirectoryEntry>) -> Seq<ContentView>
    decreases directories.len(),
{
    if directories.len() == 0 {
        Seq::empty()
    } else {
        all_hashes(directories.drop_last()) + directory_hashes(
            directories.last().path@,
            directories.last().files@,
        )
    }
}

/// The label of a file.
pub fn make_file_label(dir: &str, name: &str) -> (label: String)
    ensures
        label@ == file_label(dir@, name@),
{
    let mut label = String::new();
    label.append(dir);
    proof {
        reveal_strlit("/");
        assert("/"@ =~= seq!['/']);
    }
    label.append("/");
    label.append(name);
    assert(label@ =~= file_label(dir@, name@));
    label
}

/// The label of a worksheet of the file labelled `file`.
pub fn make_sheet_label(file: &str, sheet: &str) -> (label: String)
    ensures
        label@ == sheet_label(file@, sheet@),
{
    let mut label = String::new();
    label.append(file);
    proof {
        reveal_strlit(" (");
        reveal_strlit(")");
        assert(" ("@ =~= seq![' ', '(']);
        assert(")"@ =~= seq![')']);
    }
    label.append(" (");
    label.append(sheet);
    label.append(")");
    assert(label@ =~= sheet_label(file@, sheet@));
    label
}

/// A copy of a list of strings.
pub fn copy_strings(v: &Vec<String>) -> (r: Vec<String>)
    ensures
        texts(r@) == texts(v@),
{
    let mut out: Vec<String> = Vec::new();
    let mut k: usize = 0;
    while k < v.len()
        invariant
            k <= v.len(),
            out.len() == k,
            texts(out@) == texts(v@.take(k as int)),
        decreases v.len() - k,
    {
        let ghost before = out@;
        out.push(v[k].clone());
        assert(texts(out@) =~= texts(before).push(v@[k as int]@));
        assert(texts(v@.take(k + 1)) =~= texts(v@.take(k as int)).push(v@[k as int]@));
        k += 1;
    }
    assert(v@.take(v.len() as int) =~= v@);
    out
}

/// Appends the schemas of one file to `out`.
fn collect_file_schemas(dir: &str, file: &FileDetails, out: &mut Vec<ColumnSet>)
    ensures
        schema_list(final(out)@) == schema_list(old(out)@) + file_schemas(dir@, *file),
{
    let label = make_file_label(dir, file.name.as_str());
    let ghost start = schema_list(out@);
    if let Some(meta) = &file.csv_metadata {
        let ghost before = out@;
        out.push(
            ColumnSet {
                fingerprint: meta.column_similarity_hash,
                columns: copy_strings(&meta.columns),
                source: label.clone(),
            },
        );
        assert(schema_list(out@) =~= schema_list(before).push(out@.last()@));
    }
    let ghost flat = schema_list(out@);
    if let Some(book) = &file.excel_metadata {
        let mut s: usize = 0;
        assert(book.sheets@.take(0) =~= Seq::<SheetMetadata>::empty());
        while s < book.sheets.len()
            invariant
                s <= book.sheets.len(),
                schema_list(out@) == flat + sheet_schemas(label@, book.sheets@.take(s as int)),
            decreases book.sheets.len() - s,
        {
            let sheet = &book.sheets[s];
            let ghost before = out@;
            out.push(
                ColumnSet {
                    fingerprint: sheet.column_similarity_hash,
                    columns: copy_strings(&sheet.columns),
                    source: make_sheet_label(label.as_str(), sheet.sheet_name.as_str()),
                },
            );
            proof {
                assert(schema_list(out@) =~= schema_list(before).push(out@.last()@));
                let now = book.sheets@.take(s + 1);
                assert(now.drop_last() =~= book.sheets@.take(s as int));
                assert(now.last() == book.sheets@[s as int]);
            }
            s += 1;
        }
        assert(book.sheets@.take(book.sheets.len() as int) =~= book.sheets@);
    }
    assert(schema_list(out@) =~= start + file_schemas(dir@, *file));
}

/// Every schema of the scan, in scan order: for each directory and each of its
/// files, the CSV schema if there is one, then one schema per worksheet.
pub fn collect_column_sets(directories: &Vec<DirectoryEntry>) -> (sets: Vec<ColumnSet>)
    ensures
        schema_list(sets@) == all_schemas(directories@),
{
    let mut out: Vec<ColumnSet> = Vec::new();
    let mut d: usize = 0;
    assert(directories@.take(0) =~= Seq::<DirectoryEntry>::empty());
    assert(schema_list(out@) =~= Seq::<SchemaView>::empty());
    while d < directories.len()
        invariant
            d <= directories.len(),
            schema_list(out@) == all_schemas(directories@.take(d as int)),
        decreases directories.len() - d,
    {
        let dir = &directories[d];
        let ghost base = schema_list(out@);
        let mut f: usize = 0;
        assert(dir.files@.take(0) =~= Seq::<FileDetails>::empty());
        assert(base + Seq::<SchemaView>::empty() =~= base);
        while f < dir.files.len()
            invariant
                f <= dir.files.len(),
                schema_list(out@) == base + directory_schemas(dir.path@, dir.files@.take(f as int)),
            decreases dir.files.len() - f,
        {
            collect_file_schemas(dir.path.as_str(), &dir.files[f], &mut out);
            proof {
                let now = dir.files@.take(f + 1);
                assert(now.drop_last() =~= dir.files@.take(f as int));
                assert(now.last() == dir.files@[f as int]);
                assert((base + directory_schemas(dir.path@, dir.files@.take(f as int)))
                    + file_schemas(dir.path@, dir.files@[f as int]) =~= base + directory_schemas(
                    dir.path@,
                    now,
                ));
            }
            f += 1;
        }
        proof {
            assert(dir.files@.take(dir.files.len() as int) =~= dir.files@);
            let now = directories@.take(d + 1);
            assert(now.drop_last() =~= directories@.take(d as int));
            assert(now.last() == directories@[d as int]);
        }
        d += 1;
    }
    assert(directories@.take(directories.len() as int) =~= directories@);
    out
}

/// Every content checksum of the scan with its file's label, in scan order.
pub fn collect_content_hashes(directories: &Vec<DirectoryEntry>) -> (hashes: Vec<ContentHash>)
    ensures
        content_list(hashes@) == all_hashes(directories@),
{
    let mut out: Vec<ContentHash> = Vec::new();
    let mut d: usize = 0;
    assert(directories@.take(0) =~= Seq::<DirectoryEntry>::empty());
    assert(content_list(out@) =~= Seq::<ContentView>::empty());
    while d < directories.len()
        invariant
            d <= directories.len(),
            content_list(out@) == all_hashes(directories@.take(d as int)),
        decreases directories.len() - d,
    {
        let dir = &directories[d];
        let ghost base = content_list(out@);
        let mut f: usize = 0;
        assert(dir.files@.take(0) =~= Seq::<FileDetails>::empty());
        assert(base + Seq::<ContentView>::empty() =~= base);
        while f < dir.files.len()
            invariant
                f <= dir.files.len(),
                content_list(out@) == base + directory_hashes(dir.path@, dir.files@.take(f as int)),
            decreases dir.files.len() - f,
        {
            let file = &dir.files[f];
            proof {
                let now = dir.files@.take(f + 1);
                assert(now.drop_last() =~= dir.files@.take(f as int));
                assert(now.last() == dir.files@[f as int]);
            }
            if let Some(hash) = &file.crc32_hash {
                let ghost before = out@;
                out.push(
                    ContentHash {
                        hash: hash.clone(),
                        source: make_file_label(dir.path.as_str(), file.name.as_str()),
                    },
                );
                assert(content_list(out@) =~= content_list(before).push(out@.last()@));
                assert(content_list(out@) =~= base + directory_hashes(
                    dir.path@,
                    dir.files@.take(f + 1),
                ));
            }
            f += 1;
        }
        proof {
            assert(dir.files@.take(dir.files.len() as int) =~= dir.files@);
            let now = directories@.take(d + 1);
            assert(now.drop_last() =~= directories@.take(d as int));
            assert(now.last() == directories@[d as int]);
        }
        d += 1;
    }
    assert(directories@.take(directories.len() as int) =~= directories@);
    out
}

} // verus!
