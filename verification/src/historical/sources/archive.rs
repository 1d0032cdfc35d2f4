//! The records of a ZIP file that holds one CSV file.

use std::io::{Cursor, Read};

use vstd::prelude::*;
use zip::ZipArchive;

use crate::historical::merge::texts;

verus! {

/// The `zip` crate's error.
#[verifier::external_type_specification]
#[verifier::external_body]
pub struct ExZipError(zip::result::ZipError);

/// The `csv` crate's error.
#[verifier::external_type_specification]
#[verifier::external_body]
pub struct ExCsvError(csv::Error);

/// The number of files that `zip::ZipArchive::new` finds in the bytes of a ZIP
/// file; nothing where it finds the bytes to be none.
pub uninterp spec fn zip_entry_count(bytes: Seq<u8>) -> Option<nat>;

/// The contents of the first file in the bytes of a ZIP file, as
/// `zip::ZipArchive::by_index` opens it: nothing where it cannot be opened, and
/// nothing inside where it cannot be read to its end.
pub uninterp spec fn zip_first_entry(bytes: Seq<u8>) -> Option<Option<Seq<u8>>>;

/// The records that `csv::Reader::records` finds in bytes that start without a
/// header, field by field; nothing where one of them is malformed.
pub uninterp spec fn csv_records(bytes: Seq<u8>) -> Option<Seq<Seq<Seq<char>>>>;

/// Opens a ZIP file with `zip::ZipArchive::new` and counts its files with
/// `len`. The outcome depends on the bytes alone.
#[verifier::external_body]
fn count_entries(bytes: &[u8]) -> (r: Result<usize, zip::result::ZipError>)
    ensures
        zip_entry_count(bytes@) == (match r {
            Ok(n) => Some(n as nat),
            Err(_) => None,
        }),
{
    ZipArchive::new(Cursor::new(bytes)).map(|archive| archive.len())
}

/// Opens the first file of a ZIP file with `zip::ZipArchive::by_index` and reads
/// it to its end. The outcome depends on the bytes alone.
#[verifier::external_body]
fn read_first_entry(bytes: &[u8]) -> (r: Result<Option<Vec<u8>>, zip::result::ZipError>)
    ensures
        zip_first_entry(bytes@) == (match r {
            Ok(Some(content)) => Some(Some(content@)),
            Ok(None) => Some(None),
            Err(_) => None,
        }),
{
    let mut archive = ZipArchive::new(Cursor::new(bytes))?;
    let mut entry = archive.by_index(0)?;
    let mut content = Vec::new();
    Ok(entry.read_to_end(&mut content).ok().map(|_| content))
}

/// Reads CSV bytes with a reader of `csv::ReaderBuilder` that expects no header,
/// and takes the fields of all its records. The outcome depends on the bytes
/// alone.
#[verifier::external_body]
fn read_csv(bytes: &[u8]) -> (r: Result<Vec<Vec<String>>, csv::Error>)
    ensures
        csv_records(bytes@) == (match r {
            Ok(records) => Some(record_texts(records@)),
            Err(_) => None,
        }),
{
    let mut reader = csv::ReaderBuilder::new().has_headers(false).from_reader(bytes);
    reader.records().map(|r| r.map(|rec| rec.iter().map(String::from).collect())).collect()
}

/// The fields of records.
pub open spec fn record_texts(records: Seq<Vec<String>>) -> Seq<Seq<Seq<char>>> {
    records.map_values(|r: Vec<String>| texts(r@))
}

/// Why the records of a month's ZIP file cannot be had.
#[derive(Clone, Copy, Debug, PartialEq, Eq, Structural)]
pub enum ArchiveError {
    /// The bytes are no ZIP file.
    Open,
    /// The ZIP file of a month holds no file.
    Empty { year: i32, month: u32 },
    /// The file in the ZIP file cannot be opened.
    Entry,
    /// The file in the ZIP file cannot be read.
    Content,
    /// A record is malformed.
    Record,
}

/// Accepts a month's ZIP file that could be opened and holds a file.
pub fn require_file(files: Option<usize>, year: i32, month: u32) -> (r: Result<(), ArchiveError>)
    ensures
        r == match files {
            None => Err::<(), ArchiveError>(ArchiveError::Open),
            Some(n) => if n == 0 {
                Err(ArchiveError::Empty { year, month })
            } else {
                Ok(())
            },
        },
{
    match files {
        None => Err(ArchiveError::Open),
        Some(n) => if n == 0 {
            Err(ArchiveError::Empty { year, month })
        } else {
            Ok(())
        },
    }
}

/// Whether an outcome is that of reading a month's ZIP file: the records of its
/// first file, or the first thing that stands in the way.
pub open spec fn reads_archive(
    bytes: Seq<u8>,
    year: i32,
    month: u32,
    r: Result<Vec<Vec<String>>, ArchiveError>,
) -> bool {
    match zip_entry_count(bytes) {
        None => r == Err::<Vec<Vec<String>>, ArchiveError>(ArchiveError::Open),
        Some(n) => if n == 0 {
            r == Err::<Vec<Vec<String>>, ArchiveError>(ArchiveError::Empty { year, month })
        } else {
            match zip_first_entry(bytes) {
                None => r == Err::<Vec<Vec<String>>, ArchiveError>(ArchiveError::Entry),
                Some(None) => r == Err::<Vec<Vec<String>>, ArchiveError>(ArchiveError::Content),
                Some(Some(content)) => match csv_records(content) {
                    None => r == Err::<Vec<Vec<String>>, ArchiveError>(ArchiveError::Record),
                    Some(fields) => r matches Ok(records) && record_texts(records@) == fields,
                },
            }
        },
    }
}

/// Reads the records of the CSV file in a month's ZIP file.
pub fn read_archive(bytes: &[u8], year: i32, month: u32) -> (r: Result<
    Vec<Vec<String>>,
    ArchiveError,
>)
    ensures
        reads_archive(bytes@, year, month, r),
{
    let files: Option<usize> = match count_entries(bytes) {
        Ok(n) => Some(n),
        Err(_) => None,
    };
    match require_file(files, year, month) {
        Err(e) => return Err(e),
        Ok(_) => {},
    }
    let content = match read_first_entry(bytes) {
        Err(_) => return Err(ArchiveError::Entry),
        Ok(None) => return Err(ArchiveError::Content),
        Ok(Some(content)) => content,
    };
    match read_csv(content.as_slice()) {
        Err(_) => Err(ArchiveError::Record),
        Ok(records) => Ok(records),
    }
}

// ── Fields ──────────────────────────────────────────────────────────────────

/// A field of a record, or the empty text where the record is shorter.
pub open spec fn field_or_empty(record: Seq<String>, i: int) -> Seq<char> {
    if i < record.len() {
        record[i]@
    } else {
        Seq::empty()
    }
}

/// A field of a record, or the empty text where the record is shorter.
pub fn field_text(record: &Vec<String>, i: usize) -> (s: String)
    ensures
        s@ == field_or_empty(record@, i as int),
        i < record@.len() ==> s@ == record@[i as int]@,
        i >= record@.len() ==> s@.len() == 0,
{
    if i < record.len() {
        record[i].clone()
    } else {
        String::new()
    }
}

/// What is read of a month's ZIP file is its first file's CSV records, field by
/// field and record by record, or the first thing that stands in the way: no ZIP
/// file, no file in it, one that cannot be opened, one that cannot be read, or a
/// record that is malformed.
pub proof fn law_archives_are_read_field_by_field(
    bytes: Seq<u8>,
    year: i32,
    month: u32,
    r: Result<Vec<Vec<String>>, ArchiveError>,
)
    requires
        reads_archive(bytes, year, month, r),
    ensures
        zip_entry_count(bytes) is None <==> r is Err && r->Err_0 is Open,
        zip_entry_count(bytes) == Some(0nat) <==> r is Err && r->Err_0 is Empty,
        r is Err && r->Err_0 is Empty ==> r->Err_0 == (ArchiveError::Empty { year, month }),
        r is Ok ==> {
            &&& zip_entry_count(bytes) matches Some(n) && n > 0
            &&& zip_first_entry(bytes) matches Some(Some(content)) && csv_records(content) matches Some(
                fields,
            ) && r->Ok_0@.len() == fields.len() && forall|i: int|
                0 <= i < fields.len() ==> {
                    let record = #[trigger] r->Ok_0@[i]@;
                    record.len() == fields[i].len() && forall|j: int|
                        0 <= j < record.len() ==> (#[trigger] record[j])@ == fields[i][j]
                }
        },
        zip_entry_count(bytes) is Some && zip_entry_count(bytes)->0 > 0 ==> match zip_first_entry(
            bytes,
        ) {
            None => r is Err && r->Err_0 is Entry,
            Some(None) => r is Err && r->Err_0 is Content,
            Some(Some(content)) => (csv_records(content) is Some <==> r is Ok) && (csv_records(
                content,
            ) is None ==> r is Err && r->Err_0 is Record),
        },
{
    if r is Ok {
        let content = zip_first_entry(bytes)->0->0;
        let fields = csv_records(content)->0;
        let records = r->Ok_0@;
        assert(record_texts(records) == fields);
        assert forall|i: int| 0 <= i < fields.len() implies {
            let record = #[trigger] records[i]@;
            record.len() == fields[i].len() && forall|j: int|
                0 <= j < record.len() ==> (#[trigger] record[j])@ == fields[i][j]
        } by {
            assert(record_texts(records)[i] == texts(records[i]@));
            let record = records[i]@;
            assert forall|j: int| 0 <= j < record.len() implies (#[trigger] record[j])@
                == fields[i][j] by {
                assert(texts(record)[j] == record[j]@);
            }
        }
    }
}

/// A field that is not there is empty, and one that is there is taken as it is.
pub proof fn law_missing_fields_are_empty(record: Seq<String>, i: int)
    requires
        0 <= i,
    ensures
        i < record.len() ==> field_or_empty(record, i) == record[i]@,
        i >= record.len() ==> field_or_empty(record, i).len() == 0,
{
}

} // verus!
