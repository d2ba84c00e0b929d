//! Listing the entries of a ZIP archive held in memory.

use vstd::prelude::*;
use std::io::Cursor;
use zip::result::ZipError;
use zip::ZipArchive;

verus! {

#[verifier::external_type_specification]
#[verifier::external_body]
#[verifier::reject_recursive_types(R)]
pub struct ExZipArchive<R>(ZipArchive<R>);

#[verifier::external_type_specification]
#[verifier::external_body]
#[verifier::reject_recursive_types(T)]
pub struct ExCursor<T>(Cursor<T>);

#[verifier::external_type_specification]
#[verifier::external_body]
pub struct ExZipError(ZipError);

/// The names of the entries of an opened archive, in central-directory order.
pub uninterp spec fn entry_names(archive: ZipArchive<Cursor<Vec<u8>>>) -> Seq<Seq<char>>;

/// The bytes an opened archive reads its entries from.
pub uninterp spec fn archive_source(archive: ZipArchive<Cursor<Vec<u8>>>) -> Seq<u8>;

/// The entry names that `ZipArchive::new` finds in `bytes`, or `None` when
/// it refuses them.
pub uninterp spec fn opened_names(bytes: Seq<u8>) -> Option<Seq<Seq<char>>>;

/// Whether `ZipArchive::by_index` opens entry `i` of the archive read from
/// `bytes` (its local header is readable and its compression is supported).
pub uninterp spec fn entry_opens(bytes: Seq<u8>, i: int) -> bool;

/// Calls `zip::ZipArchive::new` on the bytes. Trusted: the archive opens
/// exactly when `opened_names` of the bytes is `Some`, and then holds those
/// entry names and reads from those bytes; opening reads the bytes only, so
/// the same bytes always give the same outcome.
#[verifier::external_body]
fn open_archive(bytes: Vec<u8>) -> (r: Result<ZipArchive<Cursor<Vec<u8>>>, ZipError>)
    ensures
        r is Ok <==> opened_names(bytes@) is Some,
        r matches Ok(a) ==> entry_names(a) == opened_names(bytes@)->0,
        r matches Ok(a) ==> archive_source(a) == bytes@,
{
    ZipArchive::new(Cursor::new(bytes))
}

/// Calls `zip::ZipArchive::len`. Trusted: it returns the number of entry
/// names (the length of the archive's name-indexed file map).
#[verifier::external_body]
fn entry_count(archive: &ZipArchive<Cursor<Vec<u8>>>) -> (n: usize)
    ensures
        n == entry_names(*archive).len(),
{
    archive.len()
}

/// Calls `zip::ZipArchive::by_index` and `ZipFile::name`. Trusted: the call
/// succeeds exactly when `i` is an entry index and `entry_opens` holds of the
/// archive's bytes and `i` (it seeks to the entry's recorded header, so the
/// outcome depends on the bytes and `i` alone); on success the name is the
/// `i`-th entry name; the entry names and the bytes are left as they were;
/// on failure the error is passed on.
#[verifier::external_body]
fn entry_name(archive: &mut ZipArchive<Cursor<Vec<u8>>>, i: usize) -> (r: Result<String, ZipError>)
    ensures
        entry_names(*final(archive)) == entry_names(*old(archive)),
        archive_source(*final(archive)) == archive_source(*old(archive)),
        r is Ok <==> i < entry_names(*old(archive)).len() && entry_opens(archive_source(*old(archive)), i as int),
        r matches Ok(s) ==> s@ == entry_names(*old(archive))[i as int],
{
    match archive.by_index(i) {
        Ok(f) => Ok(f.name().to_string()),
        Err(e) => Err(e),
    }
}

/// Formats a `zip::result::ZipError` with its `Debug` implementation.
/// Nothing is promised of the text.
#[verifier::external_body]
fn zip_error_text(e: &ZipError) -> String {
    format!("{:?}", e)
}

/// Why an archive could not be listed in full.
#[derive(Clone, Debug)]
pub struct ArchiveError {
    pub message: String,
}

/// The entry names read, in order, and the error that stopped the
/// listing, if any.
#[derive(Clone, Debug)]
pub struct ArchiveListing {
    pub names: Vec<String>,
    pub error: Option<ArchiveError>,
}

/// Lists the entry names of the archive in `bytes`, opening each entry in
/// turn and stopping, with its error, at the first that cannot be opened.
pub fn list_archive(bytes: Vec<u8>) -> (listing: ArchiveListing)
    ensures
        match opened_names(bytes@) {
            None => listing.names@.len() == 0 && listing.error is Some,
            Some(all) => {
                &&& listing.names@.len() <= all.len()
                &&& forall|i: int| 0 <= i < listing.names@.len() ==> #[trigger] listing.names@[i]@ == all[i]
                &&& listing.error is None <==> listing.names@.len() == all.len()
                &&& forall|i: int| 0 <= i < listing.names@.len() ==> #[trigger] entry_opens(bytes@, i)
                &&& listing.error is Some ==> !entry_opens(bytes@, listing.names@.len() as int)
            },
        },
{
    let ghost all = opened_names(bytes@);
    let mut archive = match open_archive(bytes) {
        Ok(a) => a,
        Err(e) => {
            return ArchiveListing { names: Vec::new(), error: Some(ArchiveError { message: zip_error_text(&e) }) };
        },
    };
    let ghost names = entry_names(archive);
    let ghost src = archive_source(archive);
    let n = entry_count(&archive);
    let mut out: Vec<String> = Vec::new();
    let mut i: usize = 0;
    while i < n
        invariant
            all == opened_names(bytes@),
            all == Some(names),
            entry_names(archive) == names,
            archive_source(archive) == src,
            src == bytes@,
            forall|j: int| 0 <= j < i ==> #[trigger] entry_opens(src, j),
            n == names.len(),
            i <= n,
            out@.len() == i,
            forall|j: int| 0 <= j < i ==> #[trigger] out@[j]@ == names[j],
        decreases n - i,
    {
        match entry_name(&mut archive, i) {
            Ok(s) => {
                out.push(s);
            },
            Err(e) => {
                return ArchiveListing { names: out, error: Some(ArchiveError { message: zip_error_text(&e) }) };
            },
        }
        i += 1;
    }
    ArchiveListing { names: out, error: None }
}

} // verus!
