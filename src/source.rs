//! Reading a table out of comma-separated text.

use vstd::prelude::*;
use crate::classify::table_view;
use crate::convert::{convert_rows, converts_header, converts_to, table_header, Conversion};
use crate::header::{Column, HeaderIndex};

verus! {

/// csv's error type, carried as an opaque value.
#[verifier::external_type_specification]
#[verifier::external_body]
pub struct ExCsvError(csv::Error);

/// The rows that the csv reader finds in `data`, each as its fields.
pub uninterp spec fn csv_rows(data: Seq<u8>) -> Seq<Seq<Seq<char>>>;

/// Whether the csv reader accepts all of `data`.
pub uninterp spec fn csv_parses(data: Seq<u8>) -> bool;

/// Relies on csv's `Reader` built with `has_headers(false)` and `flexible(true)`:
/// every record, the header row included, with its fields in order; records
/// may differ in length.
#[verifier::external_body]
fn read_records(data: &[u8]) -> (r: Result<Vec<Vec<String>>, csv::Error>)
    ensures
        r is Ok <==> csv_parses(data@),
        r is Ok ==> table_view(r->Ok_0@) == csv_rows(data@),
{
    let mut rdr = csv::ReaderBuilder::new().has_headers(false).flexible(true).from_reader(data);
    rdr.records().map(|rec| rec.map(|rec| rec.iter().map(String::from).collect())).collect()
}

/// Why a table could not be converted.
pub enum ConvertError {
    /// The text is not a well-formed table.
    Csv(csv::Error),
    /// The header lacks this required column.
    MissingColumn(Column),
}

/// A table read from comma-separated text, with its header resolved.
pub struct SourceTable {
    pub records: Vec<Vec<String>>,
    pub header: HeaderIndex,
}

/// Reads comma-separated text whose first record is the header, and resolves
/// the header.
pub fn read_table(data: &[u8]) -> (r: Result<SourceTable, ConvertError>)
    ensures
        match r {
            Ok(t) => {
                &&& table_view(t.records@) == csv_rows(data@)
                &&& t.records.len() >= 1
                &&& converts_header(csv_rows(data@), Ok(t.header))
            },
            Err(ConvertError::MissingColumn(c)) => converts_header(csv_rows(data@), Err(c)),
            Err(ConvertError::Csv(_)) => !csv_parses(data@),
        },
{
    match read_records(data) {
        Ok(records) => match table_header(&records) {
            Ok(header) => Ok(SourceTable { records, header }),
            Err(c) => Err(ConvertError::MissingColumn(c)),
        },
        Err(e) => Err(ConvertError::Csv(e)),
    }
}

/// Converts comma-separated text whose first record is the header, with the data
/// rows shared among `worker_count` workers.
pub fn convert_csv(data: &[u8], worker_count: usize) -> (r: Result<Conversion, ConvertError>)
    requires
        worker_count >= 1,
    ensures
        match r {
            Ok(c) => converts_to(csv_rows(data@), Ok(c)),
            Err(ConvertError::MissingColumn(c)) => converts_to(csv_rows(data@), Err(c)),
            Err(ConvertError::Csv(_)) => !csv_parses(data@),
        },
{
    match read_table(data) {
        Ok(t) => {
            let logs = convert_rows(&t.records, &t.header, worker_count);
            Ok(Conversion { header: t.header, logs })
        },
        Err(e) => Err(e),
    }
}

} // verus!
