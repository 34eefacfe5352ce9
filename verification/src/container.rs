//! ZIP containers through the `zip` crate. An archive is opened over a copy of
//! the input bytes; what the logic reads of it comes back as plain values.
//! Reading a ZIP archive is a function of its bytes alone, so each result is
//! named over those bytes.
use std::io::{Cursor, Read, Write};
use vstd::prelude::*;
use zip::write::SimpleFileOptions;
use zip::{CompressionMethod, DateTime, ZipArchive, ZipWriter};

verus! {

#[verifier::external_type_specification]
#[verifier::external_body]
#[verifier::reject_recursive_types(T)]
pub struct ExCursor<T>(Cursor<T>);

#[verifier::external_type_specification]
#[verifier::external_body]
#[verifier::reject_recursive_types(R)]
pub struct ExZipArchive<R>(ZipArchive<R>);

/// A `ZipWriter` over an in-memory buffer. Verus refuses to declare
/// `ZipWriter` (its bounds name std's `Write` and `Seek`), so it is held
/// here, hidden.
#[verifier::external_body]
pub struct ZipSink {
    writer: ZipWriter<Cursor<Vec<u8>>>,
}

/// A call made on the writer, as plain values: a directory or a file started
/// with its name, whether it is stored (else deflated) and its permission
/// bits, or data written into the file last started.
pub enum ZipOp {
    Directory(Seq<char>, bool, u32),
    File(Seq<char>, bool, u32),
    Data(Seq<u8>),
}

/// An archive being written to memory, with the calls made on it so far.
pub struct ArchiveWriter {
    sink: ZipSink,
    log: Ghost<Seq<ZipOp>>,
}

impl ArchiveWriter {
    /// The calls made on the writer so far.
    pub closed spec fn log(&self) -> Seq<ZipOp> {
        self.log@
    }
}

/// Whether a `ZipWriter` made by `new_writer` accepts each of `ops` in turn
/// (`add_directory`, `start_file`, `write_all`), every one returning `Ok`.
/// The writer holds its entries in memory and timestamps them with a fixed
/// date, so this depends on the calls alone.
pub uninterp spec fn zip_accepts(ops: Seq<ZipOp>) -> bool;

/// What `ZipWriter::finish` gives after `ops`: the archive's bytes, or
/// `None` where it reports an error.
pub uninterp spec fn zip_finished(ops: Seq<ZipOp>) -> Option<Seq<u8>>;

/// An archive read from memory.
pub type Archive = ZipArchive<Cursor<Vec<u8>>>;

/// How an entry's data is stored.
#[derive(Debug, Clone, Copy, PartialEq, Eq, Structural)]
pub enum Compression {
    Stored,
    Deflated,
    Other,
}

/// What the central directory says of one entry.
#[derive(Debug, Clone, PartialEq, Eq)]
pub struct EntryInfo {
    pub name: String,
    /// The name stays inside the extraction directory.
    pub enclosed: bool,
    pub encrypted: bool,
    pub symlink: bool,
    pub directory: bool,
    /// The uncompressed size the directory declares.
    pub size: u64,
    pub compression: Compression,
    pub unix_mode: Option<u32>,
}

/// Why an entry's data could not be read.
#[derive(Debug, Clone, Copy, PartialEq, Eq, Structural)]
pub enum ReadFailure {
    /// The entry could not be located or opened.
    Zip,
    /// Decompressing or reading its data failed.
    Io,
}

/// The bytes an archive was opened over.
pub uninterp spec fn archive_source(archive: Archive) -> Seq<u8>;

/// Whether `ZipArchive::new` accepts `bytes`.
pub uninterp spec fn zip_opens(bytes: Seq<u8>) -> bool;

/// `ZipArchive::offset` of the archive over `bytes`.
pub uninterp spec fn zip_offset(bytes: Seq<u8>) -> u64;

/// `ZipArchive::len` of the archive over `bytes`.
pub uninterp spec fn zip_len(bytes: Seq<u8>) -> usize;

/// `ZipArchive::decompressed_size` of the archive over `bytes`.
pub uninterp spec fn zip_decompressed_size(bytes: Seq<u8>) -> Option<u128>;

/// `ZipArchive::has_overlapping_files` of the archive over `bytes`; `None`
/// where it fails.
pub uninterp spec fn zip_overlapping(bytes: Seq<u8>) -> Option<bool>;

/// The facts of entry `index` of the archive over `bytes`; `None` where
/// `ZipArchive::by_index` or the entry's name fails.
pub uninterp spec fn zip_entry(bytes: Seq<u8>, index: int) -> Option<EntryInfo>;

/// `ZipArchive::name_for_index` of the archive over `bytes`; `None` where
/// there is no such entry or its name cannot be decoded.
pub uninterp spec fn zip_name_for_index(bytes: Seq<u8>, index: int) -> Option<Seq<char>>;

/// The data of entry `index` of the archive over `bytes`, decompressed and
/// cut after `limit` bytes.
pub uninterp spec fn zip_entry_data(bytes: Seq<u8>, index: int, limit: u64) -> Result<
    Seq<u8>,
    ReadFailure,
>;

/// `ZipArchive::new` over a copy of `bytes`: an archive whose results are
/// those named over `bytes`, or `None` where the crate rejects it.
#[verifier::external_body]
pub(crate) fn open_archive(bytes: &[u8]) -> (r: Option<Archive>)
    ensures
        r is Some <==> zip_opens(bytes@),
        r matches Some(archive) ==> archive_source(archive) == bytes@,
{
    ZipArchive::new(Cursor::new(bytes.to_vec())).ok()
}

/// `ZipArchive::offset`: where the archive starts in its bytes.
#[verifier::external_body]
pub(crate) fn archive_offset(archive: &Archive) -> (r: u64)
    ensures
        r == zip_offset(archive_source(*archive)),
{
    archive.offset()
}

/// `ZipArchive::len`: the number of entries.
#[verifier::external_body]
pub(crate) fn archive_len(archive: &Archive) -> (r: usize)
    ensures
        r == zip_len(archive_source(*archive)),
{
    archive.len()
}

/// `ZipArchive::decompressed_size`: the total size the entries declare, or
/// `None` where it cannot be computed.
#[verifier::external_body]
pub(crate) fn archive_decompressed_size(archive: &Archive) -> (r: Option<u128>)
    ensures
        r == zip_decompressed_size(archive_source(*archive)),
{
    archive.decompressed_size()
}

/// `ZipArchive::has_overlapping_files`: whether compressed data is shared by
/// entries; `None` where the check fails.
#[verifier::external_body]
pub(crate) fn archive_has_overlap(archive: &mut Archive) -> (r: Option<bool>)
    ensures
        archive_source(*final(archive)) == archive_source(*old(archive)),
        r == zip_overlapping(archive_source(*old(archive))),
{
    archive.has_overlapping_files().ok()
}

/// `ZipArchive::by_index` and the entry's name, `enclosed_name`, `encrypted`,
/// `is_symlink`, `is_dir`, `size`, `compression` and `unix_mode`.
#[verifier::external_body]
pub(crate) fn entry_info(archive: &mut Archive, index: usize) -> (r: Option<EntryInfo>)
    ensures
        archive_source(*final(archive)) == archive_source(*old(archive)),
        r == zip_entry(archive_source(*old(archive)), index as int),
{
    let file = archive.by_index(index).ok()?;
    Some(EntryInfo {
        name: file.name().ok()?.into_owned(),
        enclosed: file.enclosed_name().is_some(),
        encrypted: file.encrypted(),
        symlink: file.is_symlink(),
        directory: file.is_dir(),
        size: file.size(),
        compression: match file.compression() {
            CompressionMethod::Stored => Compression::Stored,
            CompressionMethod::Deflated => Compression::Deflated,
            _ => Compression::Other,
        },
        unix_mode: file.unix_mode(),
    })
}

/// `ZipArchive::name_for_index`: the name of entry `index`.
#[verifier::external_body]
pub(crate) fn entry_name(archive: &Archive, index: usize) -> (r: Option<String>)
    ensures
        r is Some <==> zip_name_for_index(archive_source(*archive), index as int) is Some,
        r matches Some(name) ==> name@ == zip_name_for_index(
            archive_source(*archive),
            index as int,
        )->Some_0,
{
    archive.name_for_index(index)?.ok().map(|name| name.into_owned())
}

/// `ZipArchive::by_index`, then `Read::take(limit)` and `read_to_end` of the
/// entry: its decompressed data, of which at most `limit` bytes are read.
#[verifier::external_body]
pub(crate) fn entry_data(archive: &mut Archive, index: usize, limit: u64) -> (r: Result<
    Vec<u8>,
    ReadFailure,
>)
    ensures
        archive_source(*final(archive)) == archive_source(*old(archive)),
        r matches Ok(data) ==> data@.len() <= limit,
        match r {
            Ok(data) => zip_entry_data(archive_source(*old(archive)), index as int, limit) == Ok::<
                Seq<u8>,
                ReadFailure,
            >(data@),
            Err(e) => zip_entry_data(archive_source(*old(archive)), index as int, limit) == Err::<
                Seq<u8>,
                ReadFailure,
            >(e),
        },
{
    let file = archive.by_index(index).map_err(|_| ReadFailure::Zip)?;
    let mut data = Vec::new();
    file.take(limit).read_to_end(&mut data).map_err(|_| ReadFailure::Io)?;
    Ok(data)
}

/// `ZipWriter::new` over an empty in-memory buffer; no call made yet.
#[verifier::external_body]
pub(crate) fn new_writer() -> (w: ArchiveWriter)
    ensures
        w.log() == Seq::<ZipOp>::empty(),
        zip_accepts(w.log()),
{
    ArchiveWriter {
        sink: ZipSink { writer: ZipWriter::new(Cursor::new(Vec::new())) },
        log: Ghost(Seq::empty()),
    }
}

/// `ZipWriter::add_directory` with `SimpleFileOptions` of the given
/// compression (stored or deflated), the 1980-01-01 timestamp and the given
/// permission bits; whether the crate accepts it.
#[verifier::external_body]
pub(crate) fn add_directory(
    writer: &mut ArchiveWriter,
    name: &str,
    stored: bool,
    permissions: u32,
) -> (r: bool)
    requires
        zip_accepts(old(writer).log()),
    ensures
        final(writer).log() == old(writer).log().push(ZipOp::Directory(name@, stored, permissions)),
        r == zip_accepts(final(writer).log()),
{
    writer.log = Ghost(writer.log@.push(ZipOp::Directory(name@, stored, permissions)));
    let method = if stored { CompressionMethod::Stored } else { CompressionMethod::Deflated };
    let options = SimpleFileOptions::default().compression_method(method)
        .last_modified_time(DateTime::default()).unix_permissions(permissions);
    writer.sink.writer.add_directory(name, options).is_ok()
}

/// `ZipWriter::start_file` with options as for `add_directory`; whether the
/// crate accepts it.
#[verifier::external_body]
pub(crate) fn start_file(
    writer: &mut ArchiveWriter,
    name: &str,
    stored: bool,
    permissions: u32,
) -> (r: bool)
    requires
        zip_accepts(old(writer).log()),
    ensures
        final(writer).log() == old(writer).log().push(ZipOp::File(name@, stored, permissions)),
        r == zip_accepts(final(writer).log()),
{
    writer.log = Ghost(writer.log@.push(ZipOp::File(name@, stored, permissions)));
    let method = if stored { CompressionMethod::Stored } else { CompressionMethod::Deflated };
    let options = SimpleFileOptions::default().compression_method(method)
        .last_modified_time(DateTime::default()).unix_permissions(permissions);
    writer.sink.writer.start_file(name, options).is_ok()
}

/// `Write::write_all` of an entry's data; whether the crate accepts it.
#[verifier::external_body]
pub(crate) fn write_data(writer: &mut ArchiveWriter, data: &[u8]) -> (r: bool)
    requires
        zip_accepts(old(writer).log()),
    ensures
        final(writer).log() == old(writer).log().push(ZipOp::Data(data@)),
        r == zip_accepts(final(writer).log()),
{
    writer.log = Ghost(writer.log@.push(ZipOp::Data(data@)));
    writer.sink.writer.write_all(data).is_ok()
}

/// `ZipWriter::finish`: the bytes of the archive, or `None` on an error.
#[verifier::external_body]
pub(crate) fn finish_writer(writer: ArchiveWriter) -> (r: Option<Vec<u8>>)
    requires
        zip_accepts(writer.log()),
    ensures
        match r {
            Some(bytes) => zip_finished(writer.log()) == Some(bytes@),
            None => zip_finished(writer.log()) is None,
        },
{
    writer.sink.writer.finish().ok().map(|cursor| cursor.into_inner())
}

} // verus!
