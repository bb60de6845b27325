//! What is recorded of one file, and the collection of the records by
//! directory.

use std::fmt::Write;
use vstd::prelude::*;
use crate::csv_schema::{csv_header, csv_rows, extract_csv_metadata, is_csv_metadata};
use crate::excel::{extract_excel_metadata, is_workbook_metadata, SheetSource};
use crate::fingerprint::{calculate_crc32, crc32_of, hex8};
use crate::model::{FileDetails, FileType};
use crate::redact::{redact_nhs_numbers, redacted};
use crate::text::{lowercase_of, same_text, to_lowercase};

verus! {

/// The largest size, in bytes, at which a file's content is hashed.
pub const MAX_HASH_SIZE: u64 = 131072;

/// The document kind that a lower-case file extension stands for.
pub open spec fn extension_type(extension: Seq<char>) -> Option<FileType> {
    if extension == "csv"@ {
        Some(FileType::Csv)
    } else if extension == "xlsx"@ || extension == "xls"@ || extension == "xlsm"@ || extension
        == "xlsb"@ {
        Some(FileType::Excel)
    } else if extension == "pdf"@ {
        Some(FileType::Pdf)
    } else if extension == "docx"@ {
        Some(FileType::Docx)
    } else if extension == "eml"@ {
        Some(FileType::Eml)
    } else {
        None
    }
}

/// The document kind of a file with the given extension, whatever its case;
/// none without an extension.
pub open spec fn file_type_of(extension: Option<Seq<char>>) -> Option<FileType> {
    match extension {
        Some(ext) => extension_type(lowercase_of(ext)),
        None => None,
    }
}

/// The document kind that a file extension stands for, whatever its case.
pub fn classify_extension(extension: &str) -> (r: Option<FileType>)
    ensures
        r == extension_type(lowercase_of(extension@)),
{
    let lowered = to_lowercase(extension);
    let ext = lowered.as_str();
    if same_text(ext, "csv") {
        Some(FileType::Csv)
    } else if same_text(ext, "xlsx") || same_text(ext, "xls") || same_text(ext, "xlsm")
        || same_text(ext, "xlsb") {
        Some(FileType::Excel)
    } else if same_text(ext, "pdf") {
        Some(FileType::Pdf)
    } else if same_text(ext, "docx") {
        Some(FileType::Docx)
    } else if same_text(ext, "eml") {
        Some(FileType::Eml)
    } else {
        None
    }
}

/// Whether a file with this extension is recorded at all.
pub fn is_supported_file_type(extension: Option<&str>) -> (r: bool)
    ensures
        r == match extension {
            Some(ext) => file_type_of(Some(ext@)) is Some,
            None => false,
        },
{
    match extension {
        Some(ext) => classify_extension(ext).is_some(),
        None => false,
    }
}

/// Whether the content of a file of this size is hashed.
pub open spec fn hashes_content(enable_hash: bool, size: u64) -> bool {
    enable_hash && size <= MAX_HASH_SIZE
}

/// Whether the content of a file of this size is to be hashed.
pub fn should_hash(enable_hash: bool, size: u64) -> (r: bool)
    ensures
        r == hashes_content(enable_hash, size),
{
    enable_hash && size <= MAX_HASH_SIZE
}

/// The UTC date and time of the moment `secs` seconds and `nanos`
/// nanoseconds after the start of 1970, written in the given layout; `None`
/// for a moment out of range or a layout that cannot be written.
pub uninterp spec fn utc_text(secs: i64, nanos: u32, layout: Seq<char>) -> Option<Seq<char>>;

/// `chrono::DateTime::from_timestamp` and `DateTime::format`: the moment as
/// UTC date and time, written in the layout. `None` where the moment is
/// outside the range of dates and where the layout holds an item that cannot
/// be written. The text depends on the moment and the layout alone.
#[verifier::external_body]
fn format_utc(secs: i64, nanos: u32, layout: &str) -> (r: Option<String>)
    ensures
        match r {
            Some(text) => utc_text(secs, nanos, layout@) == Some(text@),
            None => utc_text(secs, nanos, layout@) is None,
        },
{
    let moment = chrono::DateTime::from_timestamp(secs, nanos)?;
    let mut out = String::new();
    write!(out, "{}", moment.format(layout)).ok().map(|_| out)
}

/// Year, month, day, hour and minute.
pub open spec fn minute_layout() -> Seq<char> {
    "%Y-%m-%dT%H:%M"@
}

/// The moment a file counts as created at: its creation time, else its
/// modification time, else the start of 1970.
pub open spec fn creation_moment(created: Option<i64>, modified: Option<i64>) -> i64 {
    match created {
        Some(moment) => moment,
        None => match modified {
            Some(moment) => moment,
            None => 0,
        },
    }
}

/// The creation time of a file to the minute, in UTC, from its creation and
/// modification times in seconds since the start of 1970, where they are
/// known.
pub fn get_creation_time(created: Option<i64>, modified: Option<i64>) -> (r: Option<String>)
    ensures
        match r {
            Some(text) => utc_text(creation_moment(created, modified), 0, minute_layout())
                == Some(text@),
            None => utc_text(creation_moment(created, modified), 0, minute_layout()) is None,
        },
{
    let moment = match created {
        Some(moment) => moment,
        None => match modified {
            Some(moment) => moment,
            None => 0,
        },
    };
    format_utc(moment, 0, "%Y-%m-%dT%H:%M")
}

/// What is to be read of a file before its record is made.
#[derive(Clone, Copy, Debug)]
pub struct ReadPlan {
    /// The document kind of the file.
    pub kind: Option<FileType>,
    /// Whether the bytes of the file are to be read.
    pub content: bool,
    /// Whether the file is to be opened as a workbook.
    pub workbook: bool,
}

/// Whether the record of a file of this kind and size is made from its
/// bytes: they are hashed, or they hold a CSV schema.
pub open spec fn needs_content(kind: Option<FileType>, size: u64, enable_hash: bool) -> bool {
    hashes_content(enable_hash, size) || kind == Some(FileType::Csv)
}

/// Says what is to be read of a file with the given extension and size.
pub fn plan_reading(extension: Option<&str>, size: u64, enable_hash: bool) -> (plan: ReadPlan)
    ensures
        plan.kind == match extension {
            Some(ext) => file_type_of(Some(ext@)),
            None => None,
        },
        plan.content == needs_content(plan.kind, size, enable_hash),
        plan.workbook == (plan.kind == Some(FileType::Excel)),
{
    let kind = match extension {
        Some(ext) => classify_extension(ext),
        None => None,
    };
    let is_csv = match kind {
        Some(FileType::Csv) => true,
        _ => false,
    };
    let workbook = match kind {
        Some(FileType::Excel) => true,
        _ => false,
    };
    ReadPlan { kind, content: should_hash(enable_hash, size) || is_csv, workbook }
}

/// What was read of one file.
#[derive(Clone, Debug)]
pub struct FileFacts {
    /// The file's name.
    pub file_name: String,
    /// The file's extension, without the dot.
    pub extension: Option<String>,
    /// The file's creation time, as text.
    pub created: String,
    /// The file's size in bytes.
    pub size: u64,
    /// The file's bytes, where they were read.
    pub content: Option<Vec<u8>>,
    /// The file's worksheets, where it opened as a workbook.
    pub sheets: Option<Vec<SheetSource>>,
}

/// Why a file gives no record.
#[derive(Clone, Copy, Debug, PartialEq, Eq, Structural)]
pub enum ProcessError {
    /// The content is needed and was not read.
    ContentUnavailable,
    /// The header of a CSV file is not valid text.
    MalformedCsvHeader,
    /// The file did not open as a workbook.
    WorkbookUnreadable,
}

/// The extension of the file as text.
pub open spec fn extension_text(facts: FileFacts) -> Option<Seq<char>> {
    match facts.extension {
        Some(ext) => Some(ext@),
        None => None,
    }
}

/// Why the file described by `facts` gives no record, if it gives none:
/// its content is needed and was not read, it is a CSV file with a header
/// that is not valid text, or it is a workbook that did not open.
pub open spec fn failure_of(facts: FileFacts, enable_hash: bool) -> Option<ProcessError> {
    let kind = file_type_of(extension_text(facts));
    if needs_content(kind, facts.size, enable_hash) && facts.content is None {
        Some(ProcessError::ContentUnavailable)
    } else if kind == Some(FileType::Csv) && csv_header(facts.content->0@) is None {
        Some(ProcessError::MalformedCsvHeader)
    } else if kind == Some(FileType::Excel) && facts.sheets is None {
        Some(ProcessError::WorkbookUnreadable)
    } else {
        None
    }
}

/// Whether `details` is the record of the file described by `facts`.
pub open spec fn is_record_of(
    details: FileDetails,
    facts: FileFacts,
    enable_hash: bool,
    max_rows: usize,
) -> bool {
    let kind = file_type_of(extension_text(facts));
    &&& details.name@ == redacted(facts.file_name@)
    &&& details.created@ == facts.created@
    &&& details.file_type == kind
    &&& if hashes_content(enable_hash, facts.size) {
        &&& details.file_size is None
        &&& details.crc32_hash is Some
        &&& facts.content is Some
        &&& details.crc32_hash->0@ == hex8(crc32_of(facts.content->0@))
    } else {
        &&& details.file_size == Some(facts.size)
        &&& details.crc32_hash is None
    }
    &&& if kind == Some(FileType::Csv) {
        &&& details.csv_metadata is Some
        &&& facts.content is Some
        &&& csv_header(facts.content->0@) is Some
        &&& is_csv_metadata(
            details.csv_metadata->0,
            csv_header(facts.content->0@)->0,
            csv_rows(facts.content->0@),
            max_rows,
        )
    } else {
        details.csv_metadata is None
    }
    &&& if kind == Some(FileType::Excel) {
        &&& details.excel_metadata is Some
        &&& facts.sheets is Some
        &&& is_workbook_metadata(
            details.excel_metadata->0.sheets@,
            facts.sheets->0@,
            facts.sheets->0.len() as int,
            max_rows,
        )
    } else {
        details.excel_metadata is None
    }
}

/// Files with the same content get the same checksum text: two records made
/// with hashing of files that are within the size limit and hold the same
/// bytes carry the same checksum.
pub proof fn lemma_identical_content_same_checksum(
    first: FileDetails,
    first_facts: FileFacts,
    second: FileDetails,
    second_facts: FileFacts,
    max_rows: usize,
)
    requires
        is_record_of(first, first_facts, true, max_rows),
        is_record_of(second, second_facts, true, max_rows),
        first_facts.size <= MAX_HASH_SIZE,
        second_facts.size <= MAX_HASH_SIZE,
        first_facts.content->0@ == second_facts.content->0@,
    ensures
        first.crc32_hash is Some,
        second.crc32_hash is Some,
        first.crc32_hash->0@ == second.crc32_hash->0@,
{
}

/// Makes the record of one file.
///
/// The name is redacted. The content is hashed where hashing is enabled and
/// the file is no larger than `MAX_HASH_SIZE`; otherwise the size is
/// recorded. The extension gives the document kind, and a CSV file or a
/// workbook gets its schema. A file gives no record at all where its content
/// is needed and was not read, where it is a CSV file whose header is not
/// valid text, and where it is a workbook that did not open.
pub fn process_file(facts: &FileFacts, enable_hash: bool, max_rows: usize) -> (r: Result<
    FileDetails,
    ProcessError,
>)
    ensures
        match r {
            Ok(details) => failure_of(*facts, enable_hash) is None && is_record_of(
                details,
                *facts,
                enable_hash,
                max_rows,
            ),
            Err(e) => failure_of(*facts, enable_hash) == Some(e),
        },
{
    let plan = plan_reading(
        match &facts.extension {
            Some(ext) => Some(ext.as_str()),
            None => None,
        },
        facts.size,
        enable_hash,
    );
    if plan.content && facts.content.is_none() {
        return Err(ProcessError::ContentUnavailable);
    }
    let mut csv_metadata = None;
    let mut excel_metadata = None;
    match plan.kind {
        Some(FileType::Csv) => {
            match &facts.content {
                Some(bytes) => match extract_csv_metadata(bytes.as_slice(), max_rows) {
                    Ok(meta) => {
                        csv_metadata = Some(meta);
                    },
                    Err(_) => {
                        return Err(ProcessError::MalformedCsvHeader);
                    },
                },
                None => {
                    return Err(ProcessError::ContentUnavailable);
                },
            }
        },
        Some(FileType::Excel) => {
            match &facts.sheets {
                Some(sheets) => {
                    excel_metadata = Some(extract_excel_metadata(sheets, max_rows));
                },
                None => {
                    return Err(ProcessError::WorkbookUnreadable);
                },
            }
        },
        _ => {},
    }
    let mut crc32_hash: Option<String> = None;
    let mut file_size: Option<u64> = None;
    if should_hash(enable_hash, facts.size) {
        match &facts.content {
            Some(bytes) => {
                crc32_hash = Some(calculate_crc32(bytes.as_slice()));
            },
            None => {
                return Err(ProcessError::ContentUnavailable);
            },
        }
    } else {
        file_size = Some(facts.size);
    }
    Ok(
        FileDetails {
            name: redact_nhs_numbers(facts.file_name.as_str()),
            created: facts.created.clone(),
            file_type: plan.kind,
            file_size,
            crc32_hash,
            csv_metadata,
            excel_metadata,
        },
    )
}

} // verus!
