use vstd::prelude::*;
use crate::records::LoadError;

verus! {

/// The uncompressed bytes of the entry `name` of the zip archive `archive`;
/// `None` when the archive cannot be read or holds no such entry.
pub uninterp spec fn zip_entry(archive: Seq<u8>, name: Seq<char>) -> Option<Seq<u8>>;

/// The text that the windows-1251 decoder makes of `bytes`, without
/// looking for a byte-order mark.
pub uninterp spec fn cp1251_text(bytes: Seq<u8>) -> Seq<char>;

/// Relies on zip::ZipArchive::new, ZipArchive::by_name and reading the found
/// entry to its end: whether they succeed, and the entry's content when they
/// do, depend on the archive and the name alone. The crate's `FileNotFound`
/// error becomes `MissingEntry`; every other error becomes `Archive`.
#[verifier::external_body]
pub(crate) fn unpack(archive: &[u8], name: &str) -> (r: Result<Vec<u8>, LoadError>)
    ensures
        r is Ok <==> zip_entry(archive@, name@) is Some,
        r is Ok ==> r->Ok_0@ == zip_entry(archive@, name@)->Some_0,
        r is Err ==> r->Err_0 == LoadError::Archive || r->Err_0 == LoadError::MissingEntry,
{
    let mut zip = zip::ZipArchive::new(std::io::Cursor::new(archive)).map_err(
        |_| LoadError::Archive,
    )?;
    let mut entry = zip.by_name(name).map_err(|e| match e {
        zip::result::ZipError::FileNotFound => LoadError::MissingEntry,
        _ => LoadError::Archive,
    })?;
    let mut bytes: Vec<u8> = Vec::new();
    std::io::Read::read_to_end(&mut entry, &mut bytes).map_err(|_| LoadError::Archive)?;
    Ok(bytes)
}

/// Relies on encoding_rs::WINDOWS_1251.decode_without_bom_handling (lossy):
/// the text depends on the bytes alone. The call panics only when the size
/// of its output buffer overflows `usize`, which the bound excludes.
#[verifier::external_body]
pub(crate) fn decode_cp1251(bytes: &[u8]) -> (r: String)
    requires
        bytes@.len() <= usize::MAX / 4,
    ensures
        r@ == cp1251_text(bytes@),
{
    encoding_rs::WINDOWS_1251.decode_without_bom_handling(bytes).0.into_owned()
}

/// Relies on collecting characters into a `String`: the string of `cs`.
#[verifier::external_body]
pub(crate) fn string_of(cs: &[char]) -> (r: String)
    ensures
        r@ == cs@,
{
    cs.iter().collect()
}

} // verus!
