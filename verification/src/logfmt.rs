//! The persisted form of the relocation log: CSV rows of two columns,
//! original path and relocated path, one record per row, no header.
//!
//! Encoding and parsing are done by the csv crate; its calls stand behind
//! the two trusted items below, whose results are named by the two
//! uninterpreted spec functions. The shell reads and writes the log file;
//! the library only turns records into row bytes and row bytes into
//! records.

use vstd::prelude::*;

verus! {

/// The CSV spelling of one two-column row; a function of the two fields
/// alone (default quoting, trailing record terminator included).
pub uninterp spec fn csv_row_of(original: Seq<u8>, relocated: Seq<u8>) -> Seq<u8>;

/// The rows a CSV document parses to: for each row, its first two
/// columns. A function of the document bytes alone.
pub uninterp spec fn csv_rows_of(data: Seq<u8>) -> Seq<(Seq<u8>, Seq<u8>)>;

/// Whether a document is a readable CSV log: every row parses and
/// carries its two columns. A function of the document bytes alone.
pub uninterp spec fn csv_doc_ok(data: Seq<u8>) -> bool;

/// The views of a sequence of byte-pair rows.
pub open spec fn row_views(s: Seq<(Vec<u8>, Vec<u8>)>) -> Seq<(Seq<u8>, Seq<u8>)> {
    Seq::new(s.len(), |i: int| (s[i].0@, s[i].1@))
}

/// Relies on csv::Writer::write_byte_record (default configuration) for
/// the spelling of one two-column row. Writing into a `Vec` cannot fail,
/// and the bytes produced depend on the two fields alone.
#[verifier::external_body]
pub(crate) fn csv_encode_row(original: &Vec<u8>, relocated: &Vec<u8>) -> (r: Vec<u8>)
    ensures
        r@ == csv_row_of(original@, relocated@),
{
    let mut w = csv::Writer::from_writer(std::vec::Vec::new());
    let mut rec = csv::ByteRecord::new();
    rec.push_field(original.as_slice());
    rec.push_field(relocated.as_slice());
    w.write_byte_record(&rec).expect("writing into a Vec cannot fail");
    w.into_inner().expect("flushing into a Vec cannot fail")
}

/// Relies on csv::Reader (headerless, default configuration) for parsing
/// the log document into rows; `None` exactly when a row fails to parse
/// or lacks its two columns. Reading from an in-memory slice raises no
/// I/O error, so whether parsing succeeds, and what it returns, depend
/// on the bytes alone.
#[verifier::external_body]
pub(crate) fn csv_parse_rows(data: &Vec<u8>) -> (r: Option<Vec<(Vec<u8>, Vec<u8>)>>)
    ensures
        r is Some <==> csv_doc_ok(data@),
        r matches Some(v) ==> row_views(v@) == csv_rows_of(data@),
{
    let mut rdr = csv::ReaderBuilder::new().has_headers(false).from_reader(data.as_slice());
    let mut out = std::vec::Vec::new();
    for rec in rdr.byte_records() {
        match rec {
            Ok(rec) => match (rec.get(0), rec.get(1)) {
                (Some(a), Some(b)) => out.push((a.to_vec(), b.to_vec())),
                _ => return None,
            },
            Err(_) => return None,
        }
    }
    Some(out)
}

} // verus!
