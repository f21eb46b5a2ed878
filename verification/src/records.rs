//! Edge files as bytes: rows read from and written as comma separated values.
use vstd::prelude::*;
use crate::error::Error;
use crate::line::{line_of, Line, LineModel};

verus! {

/// The records that the `csv` crate reads from `bytes`, each with its
/// fields, when it takes no first record as a header; with `flexible` the
/// records may differ in their number of fields. Nothing where it fails on
/// a record.
pub uninterp spec fn csv_rows(bytes: Seq<u8>, flexible: bool) -> Option<Seq<Seq<Seq<char>>>>;

/// The bytes that the `csv` crate writes for `rows`, one record for each,
/// without a header. Nothing where it fails.
pub uninterp spec fn csv_bytes(rows: Seq<Seq<Seq<char>>>) -> Option<Seq<u8>>;

/// Reads the records of `bytes` with a reader of the `csv` crate, built by
/// `csv::ReaderBuilder` without headers and with `flexible` as given, through
/// `csv::Reader::records`. The result is what the reader yields, record for
/// record and field for field, or `None` where the reader fails on a record.
/// This is taken on trust from the `csv` crate.
#[verifier::external_body]
pub(crate) fn read_records(bytes: &[u8], flexible: bool) -> (r: Option<Vec<Vec<String>>>)
    ensures
        r.deep_view() == csv_rows(bytes@, flexible),
{
    let mut reader =
        csv::ReaderBuilder::new().has_headers(false).flexible(flexible).from_reader(bytes);
    let mut rows: Vec<Vec<String>> = Vec::new();
    for record in reader.records() {
        match record {
            Ok(fields) => rows.push(fields.iter().map(|field| field.to_owned()).collect()),
            Err(_) => return None,
        }
    }
    Some(rows)
}

/// Writes `rows` with a writer of the `csv` crate, built by
/// `csv::WriterBuilder` without headers and flexible, through
/// `csv::Writer::write_record`, and hands back the bytes written, or `None`
/// where the writer fails. This is taken on trust from the `csv` crate.
#[verifier::external_body]
pub(crate) fn write_records(rows: &Vec<Vec<String>>) -> (r: Option<Vec<u8>>)
    ensures
        r.deep_view() == csv_bytes(rows.deep_view()),
{
    let mut writer =
        csv::WriterBuilder::new().has_headers(false).flexible(true).from_writer(Vec::new());
    for row in rows {
        if writer.write_record(row).is_err() {
            return None;
        }
    }
    writer.into_inner().ok()
}

/// The rows that records stand for, record for record.
pub open spec fn lines_of_rows(rows: Seq<Seq<Seq<char>>>) -> Seq<LineModel> {
    Seq::new(rows.len(), |i: int| line_of(rows[i]))
}

/// The records that rows are written as: each with its two columns.
pub open spec fn rows_of_lines(lines: Seq<LineModel>) -> Seq<Seq<Seq<char>>> {
    Seq::new(lines.len(), |i: int| seq![lines[i].key, lines[i].value])
}

/// The rows of an edge file with the content `bytes`: each record gives a
/// row, with empty columns where it has fewer than two fields. A file that
/// cannot be read as comma separated values is refused.
pub open spec fn lines_read(bytes: Seq<u8>, flexible: bool) -> Result<Seq<LineModel>, Error> {
    match csv_rows(bytes, flexible) {
        Some(rows) => Ok(lines_of_rows(rows)),
        None => Err(Error::CsvFormatError),
    }
}

/// The content of an edge file with the rows `lines`.
pub open spec fn lines_written(lines: Seq<LineModel>) -> Result<Seq<u8>, Error> {
    match csv_bytes(rows_of_lines(lines)) {
        Some(bytes) => Ok(bytes),
        None => Err(Error::CsvFormatError),
    }
}

/// The rows that records stand for: see [`lines_of_rows`].
pub fn lines_from_records(rows: &Vec<Vec<String>>) -> (r: Vec<Line>)
    ensures
        r.deep_view() == lines_of_rows(rows.deep_view()),
{
    let mut out: Vec<Line> = Vec::new();
    let mut i: usize = 0;
    while i < rows.len()
        invariant
            i <= rows.len(),
            out.len() == i,
            forall|k: int| 0 <= k < i ==> (#[trigger] out@[k])@ == line_of(rows@[k].deep_view()),
        decreases rows.len() - i,
    {
        out.push(Line::from_fields(&rows[i]));
        i += 1;
    }
    assert(out.deep_view() =~= lines_of_rows(rows.deep_view()));
    out
}

/// The records that rows are written as: see [`rows_of_lines`].
pub fn records_from_lines(lines: &Vec<Line>) -> (r: Vec<Vec<String>>)
    ensures
        r.deep_view() == rows_of_lines(lines.deep_view()),
{
    let mut out: Vec<Vec<String>> = Vec::new();
    let mut i: usize = 0;
    while i < lines.len()
        invariant
            i <= lines.len(),
            out.len() == i,
            forall|k: int|
                0 <= k < i ==> (#[trigger] out@[k]).deep_view() == seq![
                    lines@[k]@.key,
                    lines@[k]@.value,
                ],
        decreases lines.len() - i,
    {
        let mut row: Vec<String> = Vec::new();
        row.push(lines[i].key.clone());
        row.push(lines[i].value.clone());
        assert(row.deep_view() =~= seq![lines@[i as int]@.key, lines@[i as int]@.value]);
        out.push(row);
        i += 1;
    }
    assert(out.deep_view() =~= rows_of_lines(lines.deep_view()));
    out
}

/// The rows of an edge file with the content `bytes`: see [`lines_read`].
/// With `flexible` the records may differ in their number of fields.
pub fn read_lines(bytes: &[u8], flexible: bool) -> (r: Result<Vec<Line>, Error>)
    ensures
        r matches Ok(lines) ==> lines_read(bytes@, flexible) == Ok::<Seq<LineModel>, Error>(
            lines.deep_view(),
        ),
        r matches Err(e) ==> lines_read(bytes@, flexible) == Err::<Seq<LineModel>, Error>(e),
{
    match read_records(bytes, flexible) {
        Some(rows) => Ok(lines_from_records(&rows)),
        None => Err(Error::CsvFormatError),
    }
}

/// The content of an edge file with the rows `lines`: see [`lines_written`].
pub fn write_lines(lines: &Vec<Line>) -> (r: Result<Vec<u8>, Error>)
    ensures
        r matches Ok(bytes) ==> lines_written(lines.deep_view()) == Ok::<Seq<u8>, Error>(bytes@),
        r matches Err(e) ==> lines_written(lines.deep_view()) == Err::<Seq<u8>, Error>(e),
{
    let rows = records_from_lines(lines);
    match write_records(&rows) {
        Some(bytes) => {
            assert(bytes.deep_view() =~= bytes@);
            Ok(bytes)
        },
        None => Err(Error::CsvFormatError),
    }
}

/// What takes the place of an edge file that is to hold the rows `lines`: its
/// new content, or `None` where no row is left, so that no file is left.
pub open spec fn file_written(lines: Seq<LineModel>) -> Result<Option<Seq<u8>>, Error> {
    if lines.len() == 0 {
        Ok(None)
    } else {
        match lines_written(lines) {
            Ok(bytes) => Ok(Some(bytes)),
            Err(e) => Err(e),
        }
    }
}

/// What takes the place of an edge file that is to hold the rows `lines`:
/// see [`file_written`].
pub fn write_file(lines: &Vec<Line>) -> (r: Result<Option<Vec<u8>>, Error>)
    ensures
        (match file_written(lines.deep_view()) {
            Ok(None) => r matches Ok(None),
            Ok(Some(bytes)) => r matches Ok(Some(out)) && out@ == bytes,
            Err(e) => r matches Err(x) && x == e,
        }),
{
    if lines.len() == 0 {
        return Ok(None);
    }
    match write_lines(lines) {
        Ok(bytes) => Ok(Some(bytes)),
        Err(e) => Err(e),
    }
}

} // verus!
