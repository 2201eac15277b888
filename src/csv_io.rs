//! Reading and writing delimited text through the `csv` crate.
use vstd::prelude::*;
use crate::record::{Record, Table, TableView};
use csv::Error as CsvError;

verus! {

#[verifier::external_type_specification]
#[verifier::external_body]
pub struct ExCsvError(CsvError);

/// What the `csv` crate reads from `data` with `delimiter` and a header row:
/// the header's fields, then each data record's line and fields; `None` where the
/// crate rejects the data.
pub uninterp spec fn csv_read(data: Seq<u8>, delimiter: u8) -> Option<TableView>;

/// What the `csv` crate writes for `rows` with `delimiter`.
pub uninterp spec fn csv_text(rows: Seq<Seq<Seq<u8>>>, delimiter: u8) -> Seq<u8>;

/// Relies on `csv::ReaderBuilder` (with `delimiter`, a header row, and the default strict
/// field counts), `Reader::headers` and `Reader::into_byte_records`: the header and each
/// record's fields and line, as the crate parses them. The strict reader rejects a
/// record whose field count differs from the header's.
#[verifier::external_body]
pub(crate) fn read_table(data: &[u8], delimiter: u8) -> (r: Result<Table, CsvError>)
    ensures
        r is Ok <==> csv_read(data@, delimiter) is Some,
        r matches Ok(t) ==> csv_read(data@, delimiter) == Some(t@),
        r matches Ok(t) ==> forall|i: int|
            0 <= i < t.records@.len() ==> (#[trigger] t.records@[i]).fields@.len() == t.header@.len(),
{
    let mut rdr = csv::ReaderBuilder::new().delimiter(delimiter).has_headers(true).from_reader(data);
    let header = rdr.headers()?.iter().map(|f| f.as_bytes().to_vec()).collect();
    let mut records = Vec::new();
    for rec in rdr.into_byte_records() {
        let rec = rec?;
        let line = rec.position().map(|p| p.line()).unwrap_or_default();
        records.push(Record { line, fields: rec.iter().map(|f| f.to_vec()).collect() });
    }
    Ok(Table { header, records })
}

/// Relies on `csv::WriterBuilder` with `delimiter` and `Writer::write_record`: the bytes
/// the crate writes for `rows`, one record per row. The strict writer fails only on a
/// record whose field count differs from the first record's; writing into a `Vec`
/// cannot fail otherwise.
#[verifier::external_body]
pub(crate) fn write_rows(rows: &Vec<Vec<Vec<u8>>>, delimiter: u8) -> (r: Result<Vec<u8>, CsvError>)
    ensures
        r is Ok <==> forall|i: int| 0 <= i < rows@.len() ==> (#[trigger] rows@[i])@.len() == rows@[0]@.len(),
        r matches Ok(b) ==> b@ == csv_text(rows.deep_view(), delimiter),
{
    let mut buf = Vec::new();
    {
        let mut wtr = csv::WriterBuilder::new().delimiter(delimiter).from_writer(&mut buf);
        for row in rows {
            wtr.write_record(row)?;
        }
        wtr.flush()?;
    }
    Ok(buf)
}

} // verus!
