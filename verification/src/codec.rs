//! Trusted boundary to the container codec.
//!
//! The binary encoding of the archive container is delegated to the `zip`
//! crate and not re-specified here: writing an entry and iterating a
//! container's entries are taken as already-solved primitives.  Everything
//! in this module is therefore trusted: each item's contract states no more
//! than the codec's source shows, over two named models — the entries a
//! writer holds, and the entries a byte string decodes to.

use vstd::prelude::*;

use crate::compress::Compression;
use crate::entries::{EntryModel, PlannedModel, RawEntry, entries_correspond};
use crate::names::is_dir_name;

verus! {

#[verifier::external_type_specification]
#[verifier::external_body]
pub struct ExZipError(zip::result::ZipError);

/// A container being written to an in-memory buffer.  The codec's writer
/// cannot be declared to the verifier (its type bounds are the `Write` and
/// `Seek` traits), so it is held opaquely in this struct; `writer_entries`
/// names what it holds.
#[verifier::external_body]
pub struct ContainerWriter {
    inner: zip::ZipWriter<std::io::Cursor<Vec<u8>>>,
}

/// The entries a container writer holds, in the order they were written.
pub uninterp spec fn writer_entries(w: ContainerWriter) -> Seq<PlannedModel>;

/// The entries a byte string decodes to as an archive container, in central
/// directory order, or `None` when the codec rejects the bytes.
pub uninterp spec fn archive_entries(bytes: Seq<u8>) -> Option<Seq<EntryModel>>;

/// Relies on `zip::ZipWriter::new`: a fresh writer over an empty in-memory
/// buffer holds no entries.
#[verifier::external_body]
pub(crate) fn writer_new() -> (w: ContainerWriter)
    ensures
        writer_entries(w) == Seq::<PlannedModel>::empty(),
{
    ContainerWriter { inner: zip::ZipWriter::new(std::io::Cursor::new(Vec::new())) }
}

/// Relies on `zip::ZipWriter::add_directory`: on success it appends one
/// directory entry under the given `/`-terminated name, carrying the given
/// Unix permission bits (the codec keeps their low nine bits) and no
/// contents.  A name already in the archive is refused.
#[verifier::external_body]
pub(crate) fn writer_add_directory(
    w: &mut ContainerWriter,
    name: &str,
    mode: u32,
) -> (r: Result<(), zip::result::ZipError>)
    requires
        is_dir_name(name@),
    ensures
        r is Ok ==> writer_entries(*final(w)) == writer_entries(*old(w)).push(
            PlannedModel { name: name@, is_dir: true, mode, content: Seq::<u8>::empty() },
        ),
{
    let opts = zip::write::SimpleFileOptions::default().unix_permissions(mode);
    w.inner.add_directory(name, opts)
}

/// Relies on `zip::ZipWriter::start_file` and the writer's `Write`
/// implementation: on success it appends one file entry with the given
/// name, Unix permission bits (the codec keeps their low nine bits),
/// contents, and compression method.  A name already in the archive is
/// refused.
#[verifier::external_body]
pub(crate) fn add_file_to_zip_with_permissions(
    w: &mut ContainerWriter,
    name: &str,
    mode: u32,
    content: &Vec<u8>,
    method: Compression,
) -> (r: Result<(), zip::result::ZipError>)
    ensures
        r is Ok ==> writer_entries(*final(w)) == writer_entries(*old(w)).push(
            PlannedModel { name: name@, is_dir: false, mode, content: content@ },
        ),
{
    let codec_method = match method {
        Compression::Stored => zip::CompressionMethod::Stored,
        Compression::Deflate => zip::CompressionMethod::Deflated,
        Compression::Bzip2 => zip::CompressionMethod::Bzip2,
        Compression::Zstd => zip::CompressionMethod::Zstd,
    };
    let opts = zip::write::SimpleFileOptions::default()
        .unix_permissions(mode)
        .compression_method(codec_method);
    w.inner.start_file(name, opts)?;
    std::io::Write::write_all(&mut w.inner, content.as_slice())?;
    Ok(())
}

/// Relies on `zip::ZipWriter::finish` and the container round-trip the
/// codec documents: reading a finished archive back yields exactly the
/// entries written, in order, with names and contents unchanged and the low
/// nine permission bits preserved.
#[verifier::external_body]
pub(crate) fn writer_finish(w: ContainerWriter) -> (r: Result<
    Vec<u8>,
    zip::result::ZipError,
>)
    ensures
        r matches Ok(bytes) ==> (archive_entries(bytes@) matches Some(es)
            && entries_correspond(writer_entries(w), es)),
{
    match w.inner.finish() {
        Ok(cursor) => Ok(cursor.into_inner()),
        Err(e) => Err(e),
    }
}

/// Relies on `zip::ZipArchive`: the codec's single iteration primitive.
/// Opening an in-memory archive and walking it by index yields every
/// entry's stored name, optional Unix mode, and fully decompressed
/// contents, in central directory order; the codec accepts or rejects a
/// given byte string deterministically.
#[verifier::external_body]
pub(crate) fn read_archive_entries(bytes: &Vec<u8>) -> (r: Result<Vec<RawEntry>, zip::result::ZipError>)
    ensures
        r matches Ok(v) ==> (archive_entries(bytes@) matches Some(es) && v.deep_view() == es),
        r is Err ==> archive_entries(bytes@) is None,
{
    let mut archive = zip::ZipArchive::new(std::io::Cursor::new(bytes.as_slice()))?;
    let mut out: Vec<RawEntry> = Vec::new();
    for i in 0..archive.len() {
        let mut entry = archive.by_index(i)?;
        let mut content: Vec<u8> = Vec::new();
        std::io::Read::read_to_end(&mut entry, &mut content)?;
        out.push(RawEntry { name: entry.name().to_string(), mode: entry.unix_mode(), content });
    }
    Ok(out)
}

/// Relies on `zip::result::ZipError`'s `Display` implementation: renders a
/// codec error for the caller's report.
#[verifier::external_body]
pub(crate) fn zip_error_text(e: &zip::result::ZipError) -> String {
    format!("{}", e)
}

} // verus!
