//! The container: a ZIP archive of stored entries, written in memory by the
//! `zip` crate. The functions that call the crate are not proved; each states
//! what is assumed of the code it calls. The loop over the entries is.

use vstd::prelude::*;
use vstd::string::*;
use vstd::utf8::encode_utf8;
use crate::dzi::{blobs_view, TileBlob};
use crate::error::TilingError;

verus! {

/// Unix permission bits recorded for every entry.
pub const ENTRY_MODE: u32 = 0o755;

/// Largest number of bytes that the name of an entry can have: the format
/// records the length in sixteen bits.
pub const NAME_LIMIT: usize = 65535;

/// The error type of the `zip` crate, carried through unread.
#[verifier::external_type_specification]
#[verifier::external_body]
pub struct ExZipError(zip::result::ZipError);

/// The archive writer of the `zip` crate over an in-memory buffer. Its
/// state is known only through `archive_entries`.
#[verifier::external_body]
pub struct ArchiveWriter {
    inner: zip::ZipWriter<std::io::Cursor<Vec<u8>>>,
}

/// The entries that have been handed to a writer so far, in order: the name,
/// the permission bits and the content of each.
pub uninterp spec fn archive_entries(writer: ArchiveWriter) -> Seq<
    (Seq<char>, u32, Seq<u8>),
>;

/// What `ZipWriter::finish` gives for a writer that holds the given
/// entries: the bytes of the finished archive, each entry stored without
/// compression and dated with the format's earliest date, or nothing where
/// the writer cannot be finished.
pub uninterp spec fn stored_archive(entries: Seq<(Seq<char>, u32, Seq<u8>)>) -> Option<Seq<u8>>;

/// Whether a writer that holds the given entries takes one more of the
/// given name and permission bits: what `ZipWriter::start_file` decides.
pub uninterp spec fn start_accepted(
    entries: Seq<(Seq<char>, u32, Seq<u8>)>,
    path: Seq<char>,
    mode: u32,
) -> bool;

/// Whether a writer that holds the given entries takes the given bytes as
/// further content of the last one: what `write_all` decides.
pub uninterp spec fn write_accepted(
    entries: Seq<(Seq<char>, u32, Seq<u8>)>,
    bytes: Seq<u8>,
) -> bool;

/// No entry has the given name.
pub open spec fn name_is_new(entries: Seq<(Seq<char>, u32, Seq<u8>)>, path: Seq<char>) -> bool {
    forall|i: int| 0 <= i < entries.len() ==> (#[trigger] entries[i]).0 != path
}

/// The entries with `bytes` added to the content of the last one.
pub open spec fn with_content_appended(
    entries: Seq<(Seq<char>, u32, Seq<u8>)>,
    bytes: Seq<u8>,
) -> Seq<(Seq<char>, u32, Seq<u8>)> {
    if entries.len() == 0 {
        entries
    } else {
        let last = entries.last();
        entries.drop_last().push((last.0, last.1, last.2 + bytes))
    }
}

/// Calls `ZipWriter::new` on an empty `Cursor`.
///
/// Assumed: the new writer holds no entry.
#[verifier::external_body]
pub(crate) fn archive_begin() -> (writer: ArchiveWriter)
    ensures
        archive_entries(writer) == Seq::<(Seq<char>, u32, Seq<u8>)>::empty(),
{
    ArchiveWriter { inner: zip::ZipWriter::new(std::io::Cursor::new(Vec::new())) }
}

/// Calls `ZipWriter::start_file` with the method `Stored`, the given
/// permission bits and the default `DateTime`.
///
/// Assumed: whether the call succeeds depends on the entries that the
/// writer holds and on the arguments alone, and it does not succeed with a
/// name that the writer already holds. Where it succeeds, the writer has
/// one more entry, of the given name and bits and with no content yet,
/// behind the ones it had. The call panics on a name of more bytes than
/// the format can record, and keeps only the low nine permission bits; such
/// arguments are left out.
#[verifier::external_body]
pub(crate) fn archive_start_file(
    writer: &mut ArchiveWriter,
    path: &str,
    mode: u32,
) -> (started: Result<(), zip::result::ZipError>)
    requires
        mode <= 0o777,
        encode_utf8(path@).len() <= NAME_LIMIT,
    ensures
        started is Ok <==> start_accepted(archive_entries(*old(writer)), path@, mode),
        started is Ok ==> name_is_new(archive_entries(*old(writer)), path@),
        started is Ok ==> archive_entries(*final(writer)) == archive_entries(*old(writer)).push(
            (path@, mode, Seq::<u8>::empty()),
        ),
{
    let options = zip::write::SimpleFileOptions::default()
        .compression_method(zip::CompressionMethod::Stored)
        .unix_permissions(mode)
        .last_modified_time(zip::DateTime::default());
    writer.inner.start_file(path, options)
}

/// Calls `write_all` of the writer's `std::io::Write`.
///
/// Assumed: whether the call succeeds depends on the entries that the
/// writer holds and on the bytes alone. Where it succeeds, the bytes have
/// been added to the content of the writer's last entry.
#[verifier::external_body]
pub(crate) fn archive_write(
    writer: &mut ArchiveWriter,
    bytes: &[u8],
) -> (written: Result<(), zip::result::ZipError>)
    ensures
        written is Ok <==> write_accepted(archive_entries(*old(writer)), bytes@),
        written is Ok ==> archive_entries(*final(writer)) == with_content_appended(
            archive_entries(*old(writer)),
            bytes@,
        ),
{
    std::io::Write::write_all(&mut writer.inner, bytes).map_err(zip::result::ZipError::Io)
}

/// Calls `ZipWriter::finish` and takes the buffer out of the `Cursor`.
///
/// Assumed: whether the call succeeds, and the bytes where it does, depend
/// on the entries that the writer holds alone.
#[verifier::external_body]
pub(crate) fn archive_finish(writer: ArchiveWriter) -> (finished: Result<
    Vec<u8>,
    zip::result::ZipError,
>)
    ensures
        finished is Ok <==> stored_archive(archive_entries(writer)) is Some,
        finished matches Ok(bytes) ==> stored_archive(archive_entries(writer)) == Some(bytes@),
{
    writer.inner.finish().map(std::io::Cursor::into_inner)
}

/// The entries that the given files become: each keeps its path and
/// content and gets the permission bits of every entry.
pub open spec fn entries_of(blobs: Seq<(Seq<char>, Seq<u8>)>) -> Seq<(Seq<char>, u32, Seq<u8>)> {
    blobs.map_values(|blob: (Seq<char>, Seq<u8>)| (blob.0, ENTRY_MODE, blob.1))
}

/// Every path is short enough to be the name of an entry.
pub open spec fn archivable(blobs: Seq<(Seq<char>, Seq<u8>)>) -> bool {
    forall|i: int| 0 <= i < blobs.len() ==> encode_utf8((#[trigger] blobs[i]).0).len() <= NAME_LIMIT
}

/// The container takes the first `count` of the given entries one after
/// another, each with its content.
pub open spec fn accepted_upto(entries: Seq<(Seq<char>, u32, Seq<u8>)>, count: nat) -> bool
    decreases count,
{
    if count == 0 {
        true
    } else {
        let i = count - 1;
        let held = entries.take(i);
        &&& accepted_upto(entries, i as nat)
        &&& start_accepted(held, entries[i].0, entries[i].1)
        &&& write_accepted(
            held.push((entries[i].0, entries[i].1, Seq::<u8>::empty())),
            entries[i].2,
        )
    }
}

/// The container takes the given entries one after another and can then be
/// finished.
pub open spec fn accepted(entries: Seq<(Seq<char>, u32, Seq<u8>)>) -> bool {
    accepted_upto(entries, entries.len()) && stored_archive(entries) is Some
}

/// No two of the given files have the same path.
pub open spec fn paths_distinct(blobs: Seq<(Seq<char>, Seq<u8>)>) -> bool {
    forall|i: int, j: int|
        0 <= i < j < blobs.len() ==> (#[trigger] blobs[i]).0 != (#[trigger] blobs[j]).0
}

/// What writing the given files gives: the archive of their entries where
/// the container takes them, and a failure of the container where it does
/// not. It takes no two files of the same path.
pub open spec fn is_archive_of(
    blobs: Seq<(Seq<char>, Seq<u8>)>,
    written: Result<Vec<u8>, TilingError>,
) -> bool {
    &&& written is Ok <==> accepted(entries_of(blobs))
    &&& written is Ok ==> paths_distinct(blobs)
    &&& match written {
        Ok(bytes) => stored_archive(entries_of(blobs)) == Some(bytes@),
        Err(e) => e is IOFailure,
    }
}

/// If the container takes some entries it takes the first of them.
pub proof fn lemma_accepted_upto_earlier(
    entries: Seq<(Seq<char>, u32, Seq<u8>)>,
    count: nat,
    earlier: nat,
)
    requires
        earlier <= count,
        accepted_upto(entries, count),
    ensures
        accepted_upto(entries, earlier),
    decreases count,
{
    if earlier < count {
        lemma_accepted_upto_earlier(entries, (count - 1) as nat, earlier);
    }
}

/// The failure that a step of writing the container ends in, if the
/// container refused it.
pub fn container_failure(outcome: Result<(), zip::result::ZipError>) -> (failure: Option<
    TilingError,
>)
    ensures
        failure is None <==> outcome is Ok,
        failure matches Some(e) ==> e is IOFailure,
{
    match outcome {
        Ok(()) => None,
        Err(e) => Some(TilingError::IOFailure(e)),
    }
}

/// Whether every path is short enough to be the name of an entry.
pub fn fits_archive(blobs: &Vec<TileBlob>) -> (fits: bool)
    ensures
        fits == archivable(blobs_view(blobs@)),
{
    let mut i: usize = 0;
    while i < blobs.len()
        invariant
            i <= blobs@.len(),
            forall|j: int|
                0 <= j < i ==> encode_utf8((#[trigger] blobs_view(blobs@)[j]).0).len()
                    <= NAME_LIMIT,
        decreases blobs@.len() - i,
    {
        assert(blobs_view(blobs@)[i as int].0 == blobs@[i as int].path@);
        if blobs[i].path.as_str().as_bytes().len() > NAME_LIMIT {
            return false;
        }
        i = i + 1;
    }
    true
}

/// Writes the given files, in their order, into one archive of stored
/// entries. It succeeds exactly where the `zip` crate takes every file and
/// finishes; the archive then holds exactly these files.
pub fn write_archive(blobs: &Vec<TileBlob>) -> (written: Result<Vec<u8>, TilingError>)
    requires
        archivable(blobs_view(blobs@)),
    ensures
        is_archive_of(blobs_view(blobs@), written),
{
    let ghost files = blobs_view(blobs@);
    let ghost wanted = entries_of(files);
    let mut writer = archive_begin();
    let mut i: usize = 0;
    assert(wanted.take(0) =~= Seq::<(Seq<char>, u32, Seq<u8>)>::empty());
    while i < blobs.len()
        invariant
            i <= blobs@.len(),
            files == blobs_view(blobs@),
            wanted == entries_of(files),
            archivable(files),
            archive_entries(writer) == wanted.take(i as int),
            accepted_upto(wanted, i as nat),
            forall|a: int, b: int|
                0 <= a < b < i ==> (#[trigger] files[a]).0 != (#[trigger] files[b]).0,
        decreases blobs@.len() - i,
    {
        let blob = &blobs[i];
        let ghost held = archive_entries(writer);
        proof {
            assert(files[i as int] == (blob.path@, blob.bytes@));
            assert(wanted[i as int] == (blob.path@, ENTRY_MODE, blob.bytes@));
            if accepted_upto(wanted, wanted.len()) {
                lemma_accepted_upto_earlier(wanted, wanted.len(), (i + 1) as nat);
            }
        }
        let started = archive_start_file(&mut writer, blob.path.as_str(), ENTRY_MODE);
        if let Some(e) = container_failure(started) {
            return Err(e);
        }
        let written = archive_write(&mut writer, blob.bytes.as_slice());
        if let Some(e) = container_failure(written) {
            return Err(e);
        }
        proof {
            let begun = held.push((blob.path@, ENTRY_MODE, Seq::<u8>::empty()));
            assert(begun.drop_last() =~= held);
            assert(Seq::<u8>::empty() + blob.bytes@ =~= blob.bytes@);
            assert(wanted.take(i as int + 1) =~= held.push(wanted[i as int]));
            let path = files[i as int].0;
            assert forall|a: int| 0 <= a < i implies (#[trigger] files[a]).0 != path by {
                assert(held[a] == wanted[a]);
                assert(wanted[a].0 == files[a].0);
            }
        }
        i = i + 1;
    }
    assert(wanted.take(i as int) =~= wanted);
    match archive_finish(writer) {
        Ok(bytes) => Ok(bytes),
        Err(e) => Err(TilingError::IOFailure(e)),
    }
}

} // verus!
