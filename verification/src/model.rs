//! The records that a scan produces and the duplicate indices derived from
//! them.

use vstd::prelude::*;

verus! {

/// The kind of document a file was recognised as.
#[derive(Clone, Copy, Debug, PartialEq, Eq, Structural)]
pub enum FileType {
    Csv,
    Excel,
    Pdf,
    Docx,
    Eml,
}

/// Schema of a CSV file.
#[derive(Clone, Debug)]
pub struct CsvMetadata {
    /// Header names, redacted, in file order, repetitions kept.
    pub columns: Vec<String>,
    /// Number of data rows counted.
    pub row_count: usize,
    /// Fingerprint of the column names.
    pub column_similarity_hash: u32,
    /// The row cap, when the count reached it.
    pub stopped_row_count_at: Option<usize>,
}

/// Schema of one worksheet.
#[derive(Clone, Debug)]
pub struct SheetMetadata {
    /// Worksheet name, redacted.
    pub sheet_name: String,
    /// Header names, redacted, in sheet order.
    pub columns: Vec<String>,
    /// Number of data rows below the header, capped.
    pub row_count: usize,
    /// Fingerprint of the column names.
    pub column_similarity_hash: u32,
    /// The row cap, when the sheet has at least that many data rows.
    pub stopped_row_count_at: Option<usize>,
}

/// Schemas of the worksheets of a workbook, in workbook order.
#[derive(Clone, Debug)]
pub struct ExcelMetadata {
    pub sheets: Vec<SheetMetadata>,
}

/// What is recorded of one file.
#[derive(Clone, Debug)]
pub struct FileDetails {
    /// File name, redacted.
    pub name: String,
    /// Creation time to the minute.
    pub created: String,
    pub file_type: Option<FileType>,
    /// Size in bytes, present exactly when the content was not hashed.
    pub file_size: Option<u64>,
    /// Content checksum as eight hexadecimal digits.
    pub crc32_hash: Option<String>,
    pub csv_metadata: Option<CsvMetadata>,
    pub excel_metadata: Option<ExcelMetadata>,
}

/// The files recorded for one directory.
#[derive(Clone, Debug)]
pub struct DirectoryEntry {
    /// Directory path, redacted.
    pub path: String,
    pub files: Vec<FileDetails>,
}

/// Sources whose column names have the same fingerprint.
#[derive(Clone, Debug)]
pub struct SimilarityHashEntry {
    pub hash: u32,
    /// Column names of the first source with this fingerprint.
    pub example_columns: Vec<String>,
    pub sources: Vec<String>,
}

/// Files with the same content checksum.
#[derive(Clone, Debug)]
pub struct Crc32HashEntry {
    pub hash: String,
    pub sources: Vec<String>,
}

/// A similarity level as a fraction. Levels for clustering lie between zero
/// and one; a larger one is met only where the similarity itself exceeds one.
#[derive(Clone, Copy, Debug)]
pub struct Threshold {
    numerator: u32,
    denominator: u32,
}

impl Threshold {
    #[verifier::type_invariant]
    spec fn well_formed(self) -> bool {
        0 < self.denominator
    }

    /// Numerator of the fraction.
    pub closed spec fn num(self) -> nat {
        self.numerator as nat
    }

    /// Denominator of the fraction; never zero.
    pub closed spec fn den(self) -> nat {
        self.denominator as nat
    }

    /// The level `numerator / denominator`, unless the denominator is zero.
    pub fn new(numerator: u32, denominator: u32) -> (r: Option<Threshold>)
        ensures
            r is Some <==> 0 < denominator,
            r is Some ==> r->0.num() == numerator && r->0.den() == denominator,
    {
        if 0 < denominator {
            Some(Threshold { numerator, denominator })
        } else {
            None
        }
    }

    pub fn numerator(&self) -> (r: u32)
        ensures
            r == self.num(),
    {
        self.numerator
    }

    pub fn denominator(&self) -> (r: u32)
        ensures
            r == self.den(),
            r > 0,
    {
        proof {
            use_type_invariant(self);
        }
        self.denominator
    }

}

/// Sources whose column names are similar at the given level.
#[derive(Clone, Debug)]
pub struct FuzzySimilarityGroup {
    /// Position among the groups reported, from zero.
    pub group_id: usize,
    /// The level the clustering ran at.
    pub similarity_score: Threshold,
    /// Union of the members' column names, every name once, sorted.
    pub representative_columns: Vec<String>,
    pub sources: Vec<String>,
}

} // verus!
