//! CSV schemas: the first record is the header, and the records after it are
//! counted up to a cap.

use vstd::prelude::*;
use crate::fingerprint::{calculate_column_similarity_hash, fingerprint};
use crate::model::CsvMetadata;
use crate::redact::{redact_nhs_numbers, redacted};
use crate::row_cap::{cap_row_count, capped, count_view};
use crate::text::texts;

verus! {

/// `csv::Reader`, carried as it is.
#[verifier::external_type_specification]
#[verifier::external_body]
#[verifier::reject_recursive_types(R)]
pub struct ExCsvReader<R>(csv::Reader<R>);

/// `csv::Error`, carried as it is.
#[verifier::external_type_specification]
#[verifier::external_body]
pub struct ExCsvError(csv::Error);

/// The fields of the first record of a CSV text, or `None` where that record
/// is not valid UTF-8.
pub uninterp spec fn csv_header(data: Seq<u8>) -> Option<Seq<Seq<char>>>;

/// For each record after the first of a CSV text, in order, whether the
/// reader accepts it: a record that is not valid UTF-8, or has another number
/// of fields than the first, is not accepted.
pub uninterp spec fn csv_rows(data: Seq<u8>) -> Seq<bool>;

/// For each record that the reader has yet to hand out, in order, whether
/// the reader accepts it.
pub uninterp spec fn csv_pending(reader: csv::Reader<&[u8]>) -> Seq<bool>;

/// `csv::Reader::from_reader`, then `Reader::headers`: a reader over the
/// bytes in the default configuration, in which the first record is the
/// header, and the fields of that record, or the error where it is not valid
/// UTF-8. The reader hands out the records after the header.
#[verifier::external_body]
fn csv_open<'a>(data: &'a [u8]) -> (r: (csv::Reader<&'a [u8]>, Result<Vec<String>, csv::Error>))
    ensures
        csv_pending(r.0) == csv_rows(data@),
        match r.1 {
            Ok(fields) => csv_header(data@) == Some(texts(fields@)),
            Err(_) => csv_header(data@) is None,
        },
{
    let mut reader = csv::Reader::from_reader(data);
    let header = reader.headers().map(|h| h.iter().map(|f| f.to_string()).collect());
    (reader, header)
}

/// `csv::Reader::records` and one step of its iterator: whether the next
/// record is accepted, or `None` at the end of the data. A record that is not
/// accepted is consumed like any other.
#[verifier::external_body]
fn csv_next(reader: &mut csv::Reader<&[u8]>) -> (r: Option<bool>)
    ensures
        match r {
            Some(ok) => csv_pending(*old(reader)).len() > 0 && ok == csv_pending(*old(reader))[0]
                && csv_pending(*final(reader)) == csv_pending(*old(reader)).skip(1),
            None => csv_pending(*old(reader)).len() == 0 && csv_pending(*final(reader))
                == csv_pending(*old(reader)),
        },
{
    reader.records().next().map(|record| record.is_ok())
}

/// Why no schema could be read from a CSV text.
#[derive(Clone, Copy, Debug, PartialEq, Eq, Structural)]
pub enum CsvError {
    /// The header record is not valid text.
    MalformedHeader,
}

/// The number of well-formed records.
pub open spec fn count_good(rows: Seq<bool>) -> nat
    decreases rows.len(),
{
    if rows.len() == 0 {
        0
    } else if rows.last() {
        count_good(rows.drop_last()) + 1
    } else {
        count_good(rows.drop_last())
    }
}

/// Each name redacted.
pub open spec fn redacted_names(names: Seq<Seq<char>>) -> Seq<Seq<char>> {
    names.map_values(|name: Seq<char>| redacted(name))
}

/// Whether `meta` is the schema of a CSV text with the given header fields
/// and record outcomes, read under the row cap `max_rows`.
pub open spec fn is_csv_metadata(
    meta: CsvMetadata,
    header: Seq<Seq<char>>,
    rows: Seq<bool>,
    max_rows: usize,
) -> bool {
    &&& texts(meta.columns@) == redacted_names(header)
    &&& meta.column_similarity_hash == fingerprint(redacted_names(header))
    &&& count_view(meta.row_count, meta.stopped_row_count_at) == capped(
        count_good(rows) as int,
        max_rows as int,
    )
}

proof fn lemma_count_good_split(rows: Seq<bool>, k: int)
    requires
        0 <= k <= rows.len(),
    ensures
        count_good(rows) == count_good(rows.take(k)) + count_good(rows.skip(k)),
    decreases rows.len() - k,
{
    if k == rows.len() {
        assert(rows.take(k) =~= rows);
        assert(rows.skip(k) =~= Seq::<bool>::empty());
    } else {
        lemma_count_good_split(rows, k + 1);
        assert(rows.take(k + 1).drop_last() =~= rows.take(k));
        assert(rows.take(k + 1).last() == rows[k]);
        lemma_count_good_first(rows.skip(k));
        assert(rows.skip(k).skip(1) =~= rows.skip(k + 1));
    }
}

proof fn lemma_count_good_first(rows: Seq<bool>)
    requires
        rows.len() > 0,
    ensures
        count_good(rows) == count_good(rows.skip(1)) + if rows[0] {
            1nat
        } else {
            0nat
        },
    decreases rows.len(),
{
    if rows.len() == 1 {
        assert(rows.drop_last() =~= Seq::<bool>::empty());
        assert(rows.skip(1) =~= Seq::<bool>::empty());
    } else {
        lemma_count_good_first(rows.drop_last());
        assert(rows.drop_last().skip(1) =~= rows.skip(1).drop_last());
    }
}

/// The column names of the header fields, each redacted.
pub fn redact_names(names: &Vec<String>) -> (r: Vec<String>)
    ensures
        texts(r@) == redacted_names(texts(names@)),
{
    let mut out: Vec<String> = Vec::new();
    let mut k: usize = 0;
    while k < names.len()
        invariant
            k <= names.len(),
            out.len() == k,
            forall|m: int| 0 <= m < k ==> (#[trigger] out@[m])@ == redacted(names@[m]@),
        decreases names.len() - k,
    {
        out.push(redact_nhs_numbers(names[k].as_str()));
        k += 1;
    }
    assert(texts(out@) =~= redacted_names(texts(names@)));
    out
}

/// The schema of a CSV text from its header fields and the number of its
/// well-formed rows: the fields redacted, their fingerprint, and the row
/// count under the cap.
pub fn finish_csv_metadata(fields: &Vec<String>, good_rows: usize, max_rows: usize) -> (meta:
    CsvMetadata)
    ensures
        texts(meta.columns@) == redacted_names(texts(fields@)),
        meta.column_similarity_hash == fingerprint(redacted_names(texts(fields@))),
        count_view(meta.row_count, meta.stopped_row_count_at) == capped(
            good_rows as int,
            max_rows as int,
        ),
{
    let columns = redact_names(fields);
    let hash = calculate_column_similarity_hash(&columns);
    let (row_count, stopped_at) = cap_row_count(good_rows, max_rows);
    CsvMetadata {
        columns,
        row_count,
        column_similarity_hash: hash,
        stopped_row_count_at: stopped_at,
    }
}

/// Reads the schema of a CSV text.
///
/// The first record is the header; its fields, redacted, are the column
/// names. The well-formed records after it are counted until the data ends or
/// the count reaches `max_rows`; malformed records are passed over. A header
/// that is not valid text is an error.
pub fn extract_csv_metadata(data: &[u8], max_rows: usize) -> (r: Result<CsvMetadata, CsvError>)
    ensures
        match r {
            Ok(meta) => csv_header(data@) is Some && is_csv_metadata(
                meta,
                csv_header(data@)->0,
                csv_rows(data@),
                max_rows,
            ),
            Err(e) => csv_header(data@) is None && e == CsvError::MalformedHeader,
        },
{
    let (mut reader, header) = csv_open(data);
    let fields = match header {
        Ok(fields) => fields,
        Err(_) => {
            return Err(CsvError::MalformedHeader);
        },
    };
    let ghost rows = csv_rows(data@);
    let ghost mut seen: int = 0;
    let mut row_count: usize = 0;
    let mut at_end = false;
    assert(rows.take(0) =~= Seq::<bool>::empty());
    assert(rows.skip(0) =~= rows);
    while row_count < max_rows && !at_end
        invariant
            0 <= seen <= rows.len(),
            csv_pending(reader) == rows.skip(seen),
            row_count == count_good(rows.take(seen)),
            row_count <= max_rows,
            at_end ==> seen == rows.len(),
        decreases rows.len() - seen + if at_end { 0int } else { 1int },
    {
        match csv_next(&mut reader) {
            Some(ok) => {
                proof {
                    assert(rows.skip(seen)[0] == rows[seen]);
                    assert(rows.skip(seen).skip(1) =~= rows.skip(seen + 1));
                    assert(rows.take(seen + 1).drop_last() =~= rows.take(seen));
                    assert(rows.take(seen + 1).last() == rows[seen]);
                    seen = seen + 1;
                }
                if ok {
                    row_count += 1;
                }
            },
            None => {
                at_end = true;
            },
        }
    }
    proof {
        lemma_count_good_split(rows, seen);
        if at_end {
            assert(rows.take(seen) =~= rows);
        }
    }
    Ok(finish_csv_metadata(&fields, row_count, max_rows))
}

} // verus!
