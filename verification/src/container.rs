use vstd::prelude::*;
use std::io::Cursor;
use std::io::Read;
use std::io::Write;
use zip::read::ZipArchive;
use zip::result::ZipError;
use zip::write::FileOptions;
use zip::write::ZipWriter;
use zip::CompressionMethod;
use crate::archive::Compression;

verus! {

/// Declares `std::io::Cursor`, which is carried through and never looked
/// into.
#[verifier::external_type_specification]
#[verifier::external_body]
#[verifier::reject_recursive_types(T)]
pub struct ExCursor<T>(Cursor<T>);

/// Declares `zip::read::ZipArchive`, of which nothing is known but what
/// [`archive_image`] names.
#[verifier::external_type_specification]
#[verifier::external_body]
#[verifier::reject_recursive_types(R)]
pub struct ExZipArchive<R>(ZipArchive<R>);

/// Declares `zip::result::ZipError`, which is carried through and never
/// looked into.
#[verifier::external_type_specification]
#[verifier::external_body]
pub struct ExZipError(ZipError);

/// A `zip::write::ZipWriter` that collects the archive in memory, in a
/// cursor over a vector.
///
/// Nothing is known of it but what [`sink_records`] names.
#[verifier::external_body]
pub struct ArchiveSink {
    inner: ZipWriter<Cursor<Vec<u8>>>,
}

/// One record as it comes out of an archive: the name as stored, the Unix
/// mode where the archive gives one, and the content.
#[derive(Clone, Debug, PartialEq, Eq)]
pub struct RawRecord {
    pub name: String,
    pub mode: Option<u32>,
    pub data: Vec<u8>,
}

/// The bytes that an opened archive reads from.
pub uninterp spec fn archive_image(archive: ZipArchive<Cursor<Vec<u8>>>) -> Seq<u8>;

/// The number of records in the central directory of `image`; `None` where
/// `image` does not open as an archive.
pub uninterp spec fn zip_entry_count(image: Seq<u8>) -> Option<nat>;

/// Record `index` of the archive `image` as name, mode and unpacked content;
/// `None` where it cannot be read.
pub uninterp spec fn zip_entry(image: Seq<u8>, index: nat) -> Option<
    (Seq<char>, Option<u32>, Seq<u8>),
>;

/// The records written to a sink so far, each as stored name, mode, whether
/// the content is deflated, and content.
pub uninterp spec fn sink_records(sink: ArchiveSink) -> Seq<(Seq<char>, u32, bool, Seq<u8>)>;

/// Whether a sink still takes records: every call on it has succeeded, and
/// it was not closed.
pub uninterp spec fn sink_intact(sink: ArchiveSink) -> bool;

/// The archive that a sink gives out for the records written to it.
pub uninterp spec fn zip_image(records: Seq<(Seq<char>, u32, bool, Seq<u8>)>) -> Seq<u8>;

/// Whether an intact sink that holds `records` starts the file record
/// `record`.
/// The writer closes the record before it first, and refuses where that
/// record has grown beyond what a record without the large-file mark can
/// state.
pub uninterp spec fn zip_starts(
    records: Seq<(Seq<char>, u32, bool, Seq<u8>)>,
    record: (Seq<char>, u32, bool, Seq<u8>),
) -> bool;

/// Whether an intact sink that holds `records` takes `data` for the
/// content of its last record. The writer refuses where that record is no
/// file that was just started, and where the content passes what a record
/// without the large-file mark can state.
pub uninterp spec fn zip_writes(
    records: Seq<(Seq<char>, u32, bool, Seq<u8>)>,
    data: Seq<u8>,
) -> bool;

/// Whether an intact sink that holds `records` adds the directory record
/// `record`.
/// The writer closes the record before it first, as for a file.
pub uninterp spec fn zip_adds(
    records: Seq<(Seq<char>, u32, bool, Seq<u8>)>,
    record: (Seq<char>, u32, bool, Seq<u8>),
) -> bool;

/// Whether an intact sink that holds `records` closes the archive. The writer
/// closes the last record first, as before a new one.
pub uninterp spec fn zip_finishes(records: Seq<(Seq<char>, u32, bool, Seq<u8>)>) -> bool;

/// The record that `start_file` starts.
pub open spec fn started_record(name: Seq<char>, compression: Compression, permissions: u32) -> (
    Seq<char>,
    u32,
    bool,
    Seq<u8>,
) {
    (name, file_mode(permissions), compression == Compression::Deflated, Seq::<u8>::empty())
}

/// The record that `add_directory` adds.
pub open spec fn directory_record(name: Seq<char>, permissions: u32) -> (
    Seq<char>,
    u32,
    bool,
    Seq<u8>,
) {
    (directory_name(name), directory_mode(permissions), false, Seq::<u8>::empty())
}

/// Whether `name`, as it is stored, is short enough for the two bytes in
/// which a record states the length of its name.
pub open spec fn name_fits_record(name: Seq<char>) -> bool {
    vstd::utf8::encode_utf8(name).len() <= 65535
}

/// The mode stored for a file of the given permissions.
pub open spec fn file_mode(permissions: u32) -> u32 {
    (permissions & 0o777) | 0o100000
}

/// The mode stored for a directory of the given permissions.
pub open spec fn directory_mode(permissions: u32) -> u32 {
    (permissions & 0o777) | 0o40000
}

/// The name stored for a directory: `name`, closed by a separator.
pub open spec fn directory_name(name: Seq<char>) -> Seq<char> {
    if name.len() > 0 && (name.last() == '/' || name.last() == '\\') {
        name
    } else {
        name.push('/')
    }
}

/// Opens `image` as a zip archive.
///
/// Calls `ZipArchive::new` on a cursor over the bytes. It succeeds where the
/// central directory parses, which is what `zip_entry_count` names, and the
/// archive then reads from these bytes.
#[verifier::external_body]
pub(crate) fn open_archive(image: Vec<u8>) -> (opened: Result<
    ZipArchive<Cursor<Vec<u8>>>,
    ZipError,
>)
    ensures
        opened is Ok <==> zip_entry_count(image@) is Some,
        opened is Ok ==> archive_image(opened->Ok_0) == image@,
{
    ZipArchive::new(Cursor::new(image))
}

/// The number of records of an opened archive.
///
/// Calls `ZipArchive::len`, the length of the list that opening made from
/// the central directory.
#[verifier::external_body]
pub(crate) fn archive_len(archive: &ZipArchive<Cursor<Vec<u8>>>) -> (count: usize)
    ensures
        zip_entry_count(archive_image(*archive)) == Some(count as nat),
{
    archive.len()
}

/// Reads record `index` of an opened archive.
///
/// Calls `ZipArchive::by_index_decrypt` with an empty password, which hands
/// back as a value what `by_index` would panic on, then reads the record to
/// its end and takes `ZipFile::name` and `ZipFile::unix_mode`. A record that
/// cannot be opened or read, or that the empty password does not open,
/// comes back as an error. What comes back depends on the archive's bytes
/// and the index alone; the archive still reads from the same bytes
/// afterwards.
#[verifier::external_body]
pub(crate) fn read_record(archive: &mut ZipArchive<Cursor<Vec<u8>>>, index: usize) -> (record:
    Result<RawRecord, ZipError>)
    ensures
        archive_image(*final(archive)) == archive_image(*old(archive)),
        match record {
            Ok(r) => zip_entry(archive_image(*old(archive)), index as nat) == Some(
                (r.name@, r.mode, r.data@),
            ),
            Err(_) => zip_entry(archive_image(*old(archive)), index as nat) is None,
        },
{
    let mut file = match archive.by_index_decrypt(index, &[])? {
        Ok(file) => file,
        Err(_) => return Err(ZipError::UnsupportedArchive(ZipError::PASSWORD_REQUIRED)),
    };
    let mut data = Vec::new();
    file.read_to_end(&mut data)?;
    Ok(RawRecord { name: file.name().to_string(), mode: file.unix_mode(), data })
}

/// A sink with nothing written to it.
///
/// Calls `ZipWriter::new` on a cursor over an empty vector. The sink is
/// intact until a call on it fails or closes it.
#[verifier::external_body]
pub(crate) fn new_sink() -> (sink: ArchiveSink)
    ensures
        sink_intact(sink),
        sink_records(sink) == Seq::<(Seq<char>, u32, bool, Seq<u8>)>::empty(),
{
    ArchiveSink { inner: ZipWriter::new(Cursor::new(Vec::new())) }
}

/// Starts a file record.
///
/// Calls `ZipWriter::start_file` with default options but for the method
/// and the permissions. The writer works in memory, so whether it succeeds
/// depends on the records it holds and the record to come alone, which is
/// what `zip_starts` names. Where it succeeds, a record of that name,
/// without content yet, follows the earlier ones; its mode is the
/// permission bits marked as a regular file. A name too long for a record
/// is left out, since the writer would cut its length short without a
/// word.
#[verifier::external_body]
pub(crate) fn start_file(
    sink: &mut ArchiveSink,
    name: &str,
    compression: Compression,
    permissions: u32,
) -> (started: Result<(), ZipError>)
    requires
        sink_intact(*old(sink)),
        name_fits_record(name@),
    ensures
        started is Ok ==> sink_intact(*final(sink)),
        started is Ok <==> zip_starts(
            sink_records(*old(sink)),
            started_record(name@, compression, permissions),
        ),
        started is Ok ==> sink_records(*final(sink)) == sink_records(*old(sink)).push(
            started_record(name@, compression, permissions),
        ),
{
    let method = match compression {
        Compression::Stored => CompressionMethod::Stored,
        Compression::Deflated => CompressionMethod::Deflated,
    };
    let options = FileOptions::default().compression_method(method).unix_permissions(permissions);
    sink.inner.start_file(name, options)
}

/// Writes the content of the record that was started last.
///
/// Calls `write_all` of the writer, once for the whole content. Whether
/// it succeeds depends on the records and the content alone, which is what
/// `zip_writes` names. Where it succeeds, the last record holds `data`.
#[verifier::external_body]
pub(crate) fn write_content(sink: &mut ArchiveSink, data: &Vec<u8>) -> (written: Result<
    (),
    ZipError,
>)
    requires
        sink_intact(*old(sink)),
        sink_records(*old(sink)).len() > 0,
        sink_records(*old(sink)).last().3.len() == 0,
    ensures
        written is Ok ==> sink_intact(*final(sink)),
        written is Ok <==> zip_writes(sink_records(*old(sink)), data@),
        written is Ok ==> sink_records(*final(sink)) == sink_records(*old(sink)).drop_last().push(
            (
                sink_records(*old(sink)).last().0,
                sink_records(*old(sink)).last().1,
                sink_records(*old(sink)).last().2,
                data@,
            ),
        ),
{
    Ok(sink.inner.write_all(data)?)
}

/// Adds a directory record.
///
/// Calls `ZipWriter::add_directory` with default options but for the
/// permissions. Whether it succeeds depends on the records and the record
/// to come alone, which is what `zip_adds` names. Where it succeeds, a
/// record without content follows the
/// earlier ones: its name is closed by a separator, it is stored as it is,
/// and its mode is the permission bits marked as a directory. A name too
/// long for a record is left out, as for a file.
#[verifier::external_body]
pub(crate) fn add_directory(sink: &mut ArchiveSink, name: &str, permissions: u32) -> (added:
    Result<(), ZipError>)
    requires
        sink_intact(*old(sink)),
        name_fits_record(directory_name(name@)),
    ensures
        added is Ok ==> sink_intact(*final(sink)),
        added is Ok <==> zip_adds(sink_records(*old(sink)), directory_record(name@, permissions)),
        added is Ok ==> sink_records(*final(sink)) == sink_records(*old(sink)).push(
            directory_record(name@, permissions),
        ),
{
    let options = FileOptions::default().unix_permissions(permissions);
    sink.inner.add_directory(name, options)
}

/// Closes the archive and hands out its bytes.
///
/// Calls `ZipWriter::finish` and takes the vector out of the cursor.
/// Whether it succeeds depends on the records alone, which is what
/// `zip_finishes` names, and so do the bytes: the crate is built without
/// its clock, so every record carries the same fixed date.
#[verifier::external_body]
pub(crate) fn finish(sink: &mut ArchiveSink) -> (image: Result<Vec<u8>, ZipError>)
    requires
        sink_intact(*old(sink)),
    ensures
        image is Ok <==> zip_finishes(sink_records(*old(sink))),
        image is Ok ==> image->Ok_0@ == zip_image(sink_records(*old(sink))),
{
    Ok(sink.inner.finish()?.into_inner())
}

/// Lets go of a sink whose writer has refused to close a record.
///
/// Calls `std::mem::forget` on the writer. The writer tries to close the
/// archive once more when it is dropped, and after such a refusal it does
/// so from the middle of a record; this keeps it from trying. What the
/// sink held is not given back to the allocator.
#[verifier::external_body]
pub(crate) fn discard(sink: ArchiveSink) {
    std::mem::forget(sink.inner)
}

} // verus!
