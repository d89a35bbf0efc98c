//! Packing files into archives, one archive for each file.
//!
//! The archives are built in memory. Reading the files and storing the
//! archives is left to the caller.

use vstd::prelude::*;
use vstd::string::*;

verus! {

/// `zip::result::ZipError`, of which nothing is known until its variants are
/// told apart.
#[verifier::external_type_specification]
#[verifier::external_body]
pub struct ExZipError(zip::result::ZipError);

/// An archive that is being written into a buffer in memory. It holds a
/// `zip::ZipWriter` over a `std::io::Cursor`, which nothing but the functions
/// of this file can reach.
#[verifier::external_body]
pub struct ArchiveWriter {
    inner: zip::ZipWriter<std::io::Cursor<Vec<u8>>>,
}

/// The most bytes that one entry can hold: the writer refuses more, since no
/// entry is started as a large file.
pub const ENTRY_LIMIT: u64 = 0xFFFF_FFFF;

/// The entries that the archive holds so far, in the order in which they were
/// started, each by its name and by the bytes written into it.
pub uninterp spec fn archive_entries(writer: ArchiveWriter) -> Seq<(Seq<char>, Seq<u8>)>;

/// Whether the archive is in order: it is open and stands at the end of its
/// buffer, the buffer holds what the entries so far call for and nothing
/// else, no entry holds more than `ENTRY_LIMIT` bytes, and the entry started
/// last, if there is one, still takes bytes. A step that fails may leave it
/// otherwise.
pub uninterp spec fn archive_intact(writer: ArchiveWriter) -> bool;

/// The bytes that the writer hands back at the end for an archive of
/// `entries`, each entry stored as it is, dated 1980-01-01 and with the
/// permissions of an ordinary file. A name of more than 65,535 bytes is
/// written with its length cut off.
pub uninterp spec fn archive_bytes(entries: Seq<(Seq<char>, Seq<u8>)>) -> Seq<u8>;

/// The entries after `content` was written into the entry started last.
pub open spec fn extended(entries: Seq<(Seq<char>, Seq<u8>)>, content: Seq<u8>) -> Seq<
    (Seq<char>, Seq<u8>),
> {
    if entries.len() == 0 {
        entries
    } else {
        entries.update(entries.len() - 1, (entries.last().0, entries.last().1 + content))
    }
}

/// A file to pack: the path it was read from, and what it holds.
pub struct SourceFile {
    pub path: String,
    pub content: Vec<u8>,
}

/// A finished archive: the name to store it under, and its bytes.
pub struct Archive {
    pub name: String,
    pub bytes: Vec<u8>,
}

/// Why a file could not be packed.
#[derive(Debug)]
pub enum CompressError {
    /// Writing into the archive failed.
    Io(String),
    /// The archive is damaged.
    InvalidArchive(String),
    /// The archive asks for something that is not supported.
    UnsupportedArchive(String),
    /// The archive does not hold the file asked for.
    FileNotFound,
}

/// `zip::ZipWriter::new`, over an empty buffer. The archive it returns is in
/// order and holds no entry.
#[verifier::external_body]
fn open_archive() -> (writer: ArchiveWriter)
    ensures
        archive_intact(writer),
        archive_entries(writer) == Seq::<(Seq<char>, Seq<u8>)>::empty(),
{
    ArchiveWriter { inner: zip::ZipWriter::new(std::io::Cursor::new(Vec::new())) }
}

/// `zip::ZipWriter::start_file`, for an entry that is stored as it is and
/// dated by `zip::DateTime::default`, with the options that
/// `zip::write::FileOptions::default` gives otherwise. On an archive that is
/// in order it succeeds, since it only closes the entry before and writes a
/// header into the buffer in memory; the archive then stays in order and
/// holds one more entry, of that name and still empty. Nothing is claimed of
/// an archive that is not in order.
#[verifier::external_body]
fn start_stored(writer: &mut ArchiveWriter, name: &str) -> (started: Result<
    (),
    zip::result::ZipError,
>)
    ensures
        archive_intact(*old(writer)) ==> started is Ok,
        archive_intact(*old(writer)) ==> archive_intact(*final(writer)) && archive_entries(
            *final(writer),
        ) == archive_entries(*old(writer)).push((name@, Seq::empty())),
{
    let options = zip::write::FileOptions::default().compression_method(
        zip::CompressionMethod::Stored,
    ).last_modified_time(zip::DateTime::default());
    writer.inner.start_file(name, options)
}

/// `std::io::Write::write_all` on the `zip::ZipWriter`; of a failure it keeps
/// the message. On an archive that is in order and holds an entry it succeeds
/// exactly if the entry started last holds no more than `ENTRY_LIMIT` bytes
/// afterwards: the buffer in memory takes every write, and the writer counts
/// the bytes of the entry and refuses the write that takes it over the
/// limit. Where it succeeds on an archive that is in
/// order, the archive stays in order and the bytes stand at the end of the
/// entry started last. Nothing is claimed of the archive after a failure.
#[verifier::external_body]
fn write_content(writer: &mut ArchiveWriter, content: &Vec<u8>) -> (written: Result<(), String>)
    ensures
        archive_intact(*old(writer)) && archive_entries(*old(writer)).len() > 0 ==> (written is Ok
            <==> archive_entries(*old(writer)).last().1.len() + content@.len() <= ENTRY_LIMIT),
        written is Ok && archive_intact(*old(writer)) ==> archive_intact(*final(writer))
            && archive_entries(*final(writer)) == extended(
            archive_entries(*old(writer)),
            content@,
        ),
{
    match std::io::Write::write_all(&mut writer.inner, content) {
        Ok(()) => Ok(()),
        Err(error) => Err(error.to_string()),
    }
}

/// `zip::ZipWriter::finish`, and the buffer taken out of the cursor that it
/// hands back. On an archive that is in order it succeeds, since it only
/// closes the last entry and writes the directory into the buffer in memory,
/// and the bytes are those of the finished archive of the entries written.
/// Nothing is claimed of an archive that is not in order.
#[verifier::external_body]
fn close_archive(writer: &mut ArchiveWriter) -> (closed: Result<Vec<u8>, zip::result::ZipError>)
    ensures
        archive_intact(*old(writer)) ==> (closed matches Ok(bytes) && bytes@ == archive_bytes(
            archive_entries(*old(writer)),
        )),
{
    match writer.inner.finish() {
        Ok(buffer) => Ok(buffer.into_inner()),
        Err(error) => Err(error),
    }
}

/// Tells the variants of `zip::result::ZipError` apart and keeps the message
/// of each. Nothing is claimed of the fault it returns.
#[verifier::external_body]
fn fault_of(error: zip::result::ZipError) -> (fault: CompressError) {
    match error {
        zip::result::ZipError::Io(cause) => CompressError::Io(cause.to_string()),
        zip::result::ZipError::InvalidArchive(what) => CompressError::InvalidArchive(
            what.to_string(),
        ),
        zip::result::ZipError::UnsupportedArchive(what) => CompressError::UnsupportedArchive(
            what.to_string(),
        ),
        zip::result::ZipError::FileNotFound => CompressError::FileNotFound,
    }
}

/// Packs every file into an archive of its own.
pub struct ZipCompressor;

impl ZipCompressor {
    /// The name of the archive of the file at `path`: the path, and `.zip`
    /// behind it.
    pub open spec fn archive_name(path: Seq<char>) -> Seq<char> {
        path + ".zip"@
    }

    /// The name to store the archive of the file at `path` under.
    pub fn name_archive(path: &str) -> (name: String)
        ensures
            name@ == Self::archive_name(path@),
    {
        let mut name = String::from_str(path);
        name.append(".zip");
        name
    }

    /// What packing the file at `path` comes to, given what came of writing
    /// its archive: the archive under its name, or the fault.
    pub fn packed(path: &str, outcome: Result<Vec<u8>, CompressError>) -> (result: Result<
        Archive,
        CompressError,
    >)
        ensures
            match outcome {
                Ok(bytes) => result matches Ok(archive) && archive.name@ == Self::archive_name(
                    path@,
                ) && archive.bytes == bytes,
                Err(fault) => result == Err::<Archive, CompressError>(fault),
            },
    {
        match outcome {
            Ok(bytes) => Ok(Archive { name: Self::name_archive(path), bytes }),
            Err(fault) => Err(fault),
        }
    }

    /// The bytes of the archive whose one entry has `path` for its name and
    /// `content`, unchanged, for what it holds.
    pub open spec fn archive_of(path: Seq<char>, content: Seq<u8>) -> Seq<u8> {
        archive_bytes(seq![(path, content)])
    }

    /// Whether a file of that content can be packed: an entry holds no more
    /// than `ENTRY_LIMIT` bytes.
    pub open spec fn packs(content: Seq<u8>) -> bool {
        content.len() <= ENTRY_LIMIT
    }

    /// What packing `file` has to come to: its archive under its name where
    /// the file can be packed, and a fault of writing where it cannot.
    pub open spec fn packed_as(file: SourceFile, result: Result<Archive, CompressError>) -> bool {
        match result {
            Ok(archive) => {
                &&& Self::packs(file.content@)
                &&& archive.name@ == Self::archive_name(file.path@)
                &&& archive.bytes@ == Self::archive_of(file.path@, file.content@)
            },
            Err(fault) => !Self::packs(file.content@) && fault is Io,
        }
    }

    /// Packs `file` into an archive of one entry, which has the file's path
    /// for its name and holds the file's content unchanged. A file of more
    /// than `ENTRY_LIMIT` bytes is not packed: writing it fails, and the
    /// fault says so.
    pub fn compress_file(&self, file: &SourceFile) -> (result: Result<Archive, CompressError>)
        ensures
            Self::packed_as(*file, result),
    {
        let mut writer = open_archive();
        match start_stored(&mut writer, file.path.as_str()) {
            Ok(()) => {},
            Err(error) => {
                return Self::packed(file.path.as_str(), Err(fault_of(error)));
            },
        }
        match write_content(&mut writer, &file.content) {
            Ok(()) => {},
            Err(message) => {
                return Self::packed(file.path.as_str(), Err(CompressError::Io(message)));
            },
        }
        proof {
            let started = seq![(file.path@, Seq::<u8>::empty())];
            assert(Seq::<(Seq<char>, Seq<u8>)>::empty().push((file.path@, Seq::<u8>::empty()))
                =~= started);
            assert(Seq::<u8>::empty() + file.content@ =~= file.content@);
            assert(extended(started, file.content@) =~= seq![(file.path@, file.content@)]);
        }
        let outcome = match close_archive(&mut writer) {
            Ok(bytes) => Ok(bytes),
            Err(error) => Err(fault_of(error)),
        };
        Self::packed(file.path.as_str(), outcome)
    }

    /// Packs every file of `files`, each into an archive of its own. The
    /// results stand in the order of the files, and each is what packing its
    /// file alone comes to: a file that fails does not keep the others from
    /// being packed.
    pub fn compress(&self, files: &Vec<SourceFile>) -> (results: Vec<Result<Archive, CompressError>>)
        ensures
            results@.len() == files@.len(),
            forall|i: int|
                0 <= i < files@.len() ==> Self::packed_as(files@[i], #[trigger] results@[i]),
    {
        let mut results: Vec<Result<Archive, CompressError>> = Vec::new();
        let mut i: usize = 0;
        while i < files.len()
            invariant
                i <= files@.len(),
                results@.len() == i,
                forall|k: int| 0 <= k < i ==> Self::packed_as(files@[k], #[trigger] results@[k]),
            decreases files@.len() - i,
        {
            let result = self.compress_file(&files[i]);
            results.push(result);
            i += 1;
        }
        results
    }
}

} // verus!
