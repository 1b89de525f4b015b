//! Reading the export archive: the conversations document and the files that
//! attachment pointers refer to.

use crate::text::{after_last, chars_of, contains, contains_text, text_after_last, text_eq};
use std::io::Cursor;
use std::io::Read;
use vstd::prelude::*;
use zip::result::ZipError;
use zip::ZipArchive;

verus! {

/// `std::io::Cursor`, the reader over bytes in memory that an archive is
/// opened on.
#[verifier::external_type_specification]
#[verifier::external_body]
#[verifier::reject_recursive_types(T)]
pub struct ExCursor<T>(Cursor<T>);

/// `zip::ZipArchive`, an archive that was opened on a reader.
#[verifier::external_type_specification]
#[verifier::external_body]
#[verifier::reject_recursive_types(R)]
pub struct ExZipArchive<R>(ZipArchive<R>);

/// `zip::result::ZipError`, with which the archive refuses a request.
#[verifier::external_type_specification]
#[verifier::external_body]
pub struct ExZipError(ZipError);

/// `std::io::Error`, with which the reading of an entry fails.
#[verifier::external_type_specification]
#[verifier::external_body]
pub struct ExIoError(std::io::Error);

/// The bytes that an archive was opened on.
pub uninterp spec fn archive_source(archive: ZipArchive<Cursor<&[u8]>>) -> Seq<u8>;

/// Whether `ZipArchive::new` accepts the bytes as an archive.
pub uninterp spec fn zip_readable(bytes: Seq<u8>) -> bool;

/// The number of entries that `ZipArchive::len` reports of the archive.
pub uninterp spec fn zip_len(bytes: Seq<u8>) -> nat;

/// Whether `ZipArchive::by_index_decrypt`, given the empty password, answers
/// for the entry at `index` that the password is invalid.
pub uninterp spec fn zip_entry_locked(bytes: Seq<u8>, index: nat) -> bool;

/// The name of the entry that `ZipArchive::by_index` opens at `index`; none
/// where it does not open the entry.
pub uninterp spec fn zip_entry_name(bytes: Seq<u8>, index: nat) -> Option<Seq<char>>;

/// What `read_to_end` reads of the entry that `ZipArchive::by_index` opens at
/// `index`; none where it fails.
pub uninterp spec fn zip_entry_payload(bytes: Seq<u8>, index: nat) -> Option<Seq<u8>>;

/// Whether `ZipArchive::by_name_decrypt`, given the empty password, answers
/// for the entry called `name` that the password is invalid.
pub uninterp spec fn zip_document_locked(bytes: Seq<u8>, name: Seq<char>) -> bool;

/// What `read_to_string` reads of the entry that `ZipArchive::by_name` opens
/// under `name`: none where the entry is not opened; where it is, the text,
/// or none where the read fails.
pub uninterp spec fn zip_document(bytes: Seq<u8>, name: Seq<char>) -> Option<Option<Seq<char>>>;

/// The text that `str::to_lowercase` makes of a text.
pub uninterp spec fn lowercase(text: Seq<char>) -> Seq<char>;

/// Why an archive could not be read.
#[derive(Debug, Clone, Copy, PartialEq, Eq)]
pub enum ArchiveError {
    /// The bytes are no archive that can be read.
    Unreadable,
    /// The archive holds no entry of the document's name that can be opened.
    DocumentMissing,
    /// The document's entry cannot be read to its end as text.
    DocumentUnreadable,
    /// The entry at this index cannot be opened.
    EntryUnreadable(usize),
    /// The entry at this index cannot be read to its end.
    PayloadUnreadable(usize),
}

/// What is said of a failure.
pub open spec fn error_text(error: ArchiveError) -> Seq<char> {
    match error {
        ArchiveError::Unreadable => "Failed to read zip archive"@,
        ArchiveError::DocumentMissing => "conversations.json not found in zip file"@,
        ArchiveError::DocumentUnreadable => "Failed to read conversations.json from zip"@,
        ArchiveError::EntryUnreadable(_) => "Failed to open an entry of the zip archive"@,
        ArchiveError::PayloadUnreadable(_) => "Failed to read a file from the zip archive"@,
    }
}

impl ArchiveError {
    /// What is said of the failure.
    pub fn message(&self) -> (text: String)
        ensures
            text@ == error_text(*self),
    {
        let text = match self {
            ArchiveError::Unreadable => "Failed to read zip archive",
            ArchiveError::DocumentMissing => "conversations.json not found in zip file",
            ArchiveError::DocumentUnreadable => "Failed to read conversations.json from zip",
            ArchiveError::EntryUnreadable(_) => "Failed to open an entry of the zip archive",
            ArchiveError::PayloadUnreadable(_) => "Failed to read a file from the zip archive",
        };
        text.to_owned()
    }
}

/// A file of the archive that an attachment pointer resolved to. Where no
/// entry matched, the three fields are empty and `matched` is false.
#[derive(Debug, Clone, PartialEq, Eq)]
pub struct ResolvedFile {
    pub content: Vec<u8>,
    pub file_name: String,
    pub mime_type: String,
    pub matched: bool,
}

/// A resolved file, as a value.
pub struct FileView {
    pub content: Seq<u8>,
    pub file_name: Seq<char>,
    pub mime_type: Seq<char>,
    pub matched: bool,
}

impl View for ResolvedFile {
    type V = FileView;

    open spec fn view(&self) -> FileView {
        FileView {
            content: self.content@,
            file_name: self.file_name@,
            mime_type: self.mime_type@,
            matched: self.matched,
        }
    }
}

/// How the search for an entry ends.
pub enum Lookup {
    /// The entry at this index is the first whose name holds the id.
    Found(nat),
    /// The entry at this index, which the search reached, cannot be opened.
    Failed(nat),
    /// No entry's name holds the id.
    Missing,
}

/// The marker that precedes the bare id in an attachment pointer.
pub open spec fn file_marker() -> Seq<char> {
    seq!['f', 'i', 'l', 'e', '-']
}

/// The bare id of an attachment pointer: what follows the last `file-` in it,
/// or all of it where it holds no `file-`.
pub open spec fn asset_id(pointer: Seq<char>) -> Seq<char> {
    after_last(pointer, file_marker())
}

/// The extension of a file name: what follows its last dot. A name without
/// a dot has none.
pub open spec fn extension(file_name: Seq<char>) -> Option<Seq<char>> {
    if contains_text(file_name, seq!['.']) {
        Some(after_last(file_name, seq!['.']))
    } else {
        None
    }
}

/// The MIME type of a file whose kind is not known.
pub open spec fn generic_mime() -> Seq<char> {
    "application/octet-stream"@
}

/// The MIME type that belongs to an extension in lower case.
pub open spec fn mime_of_extension(extension: Seq<char>) -> Seq<char> {
    if extension == "jpg"@ || extension == "jpeg"@ {
        "image/jpeg"@
    } else if extension == "png"@ {
        "image/png"@
    } else if extension == "gif"@ {
        "image/gif"@
    } else if extension == "webp"@ {
        "image/webp"@
    } else if extension == "pdf"@ {
        "application/pdf"@
    } else if extension == "txt"@ {
        "text/plain"@
    } else if extension == "json"@ {
        "application/json"@
    } else {
        generic_mime()
    }
}

/// The MIME type of a file, by the extension of its name without regard to
/// case: the generic type where the name has no extension or the table does
/// not hold it.
pub open spec fn mime_of(file_name: Seq<char>) -> Seq<char> {
    match extension(file_name) {
        Some(extension) => mime_of_extension(lowercase(extension)),
        None => generic_mime(),
    }
}

/// The entry at `index` cannot be opened: it asks for a password, or the
/// archive refuses to open it.
pub open spec fn entry_unreadable(bytes: Seq<u8>, index: nat) -> bool {
    zip_entry_locked(bytes, index) || zip_entry_name(bytes, index) is None
}

/// The search through the entries from `from` on, in the order of their
/// indices, for the first whose name holds `id`. It ends at an entry that
/// cannot be opened.
pub open spec fn search(bytes: Seq<u8>, id: Seq<char>, from: nat) -> Lookup
    decreases zip_len(bytes) - from,
{
    if from >= zip_len(bytes) {
        Lookup::Missing
    } else if entry_unreadable(bytes, from) {
        Lookup::Failed(from)
    } else if contains_text(zip_entry_name(bytes, from).unwrap(), id) {
        Lookup::Found(from)
    } else {
        search(bytes, id, from + 1)
    }
}

/// What an attachment pointer resolves to in an archive.
pub open spec fn resolution(bytes: Seq<u8>, pointer: Seq<char>) -> Result<FileView, ArchiveError> {
    if !zip_readable(bytes) {
        Err(ArchiveError::Unreadable)
    } else {
        match search(bytes, asset_id(pointer), 0) {
            Lookup::Failed(index) => Err(ArchiveError::EntryUnreadable(index as usize)),
            Lookup::Missing => Ok(
                FileView {
                    content: Seq::empty(),
                    file_name: Seq::empty(),
                    mime_type: Seq::empty(),
                    matched: false,
                },
            ),
            Lookup::Found(index) => match zip_entry_payload(bytes, index) {
                Some(content) => Ok(
                    FileView {
                        content,
                        file_name: zip_entry_name(bytes, index).unwrap(),
                        mime_type: mime_of(zip_entry_name(bytes, index).unwrap()),
                        matched: true,
                    },
                ),
                None => Err(ArchiveError::PayloadUnreadable(index as usize)),
            },
        }
    }
}

/// The result of a resolution, as a value.
pub open spec fn outcome(r: Result<ResolvedFile, ArchiveError>) -> Result<FileView, ArchiveError> {
    match r {
        Ok(file) => Ok(file@),
        Err(error) => Err(error),
    }
}

/// Resolving the same pointer against the same archive a second time gives
/// the same result: the same content, file name and MIME type, or the same
/// failure.
pub proof fn lemma_resolution_repeats(
    archive: Seq<u8>,
    pointer: Seq<char>,
    first: Result<ResolvedFile, ArchiveError>,
    second: Result<ResolvedFile, ArchiveError>,
)
    requires
        outcome(first) == resolution(archive, pointer),
        outcome(second) == resolution(archive, pointer),
    ensures
        outcome(first) == outcome(second),
        first matches Ok(a) ==> second matches Ok(b) && a.content@ == b.content@ && a.file_name@
            == b.file_name@ && a.mime_type@ == b.mime_type@ && a.matched == b.matched,
        first matches Err(error) ==> second == Err::<ResolvedFile, ArchiveError>(error),
{
}

/// The name of the entry that holds the conversations.
pub open spec fn document_name() -> Seq<char> {
    "conversations.json"@
}

/// The text of the conversations document of an archive.
pub open spec fn document(bytes: Seq<u8>) -> Result<Seq<char>, ArchiveError> {
    if !zip_readable(bytes) {
        Err(ArchiveError::Unreadable)
    } else if zip_document_locked(bytes, document_name()) {
        Err(ArchiveError::DocumentMissing)
    } else {
        match zip_document(bytes, document_name()) {
            None => Err(ArchiveError::DocumentMissing),
            Some(None) => Err(ArchiveError::DocumentUnreadable),
            Some(Some(text)) => Ok(text),
        }
    }
}

/// Calls `ZipArchive::new` on a cursor over `bytes`, which reads the central
/// directory. What it answers is taken to depend on the bytes alone.
#[verifier::external_body]
fn open_archive<'a>(bytes: &'a [u8]) -> (r: Result<ZipArchive<Cursor<&'a [u8]>>, ZipError>)
    ensures
        r is Ok == zip_readable(bytes@),
        r matches Ok(archive) ==> archive_source(archive) == bytes@,
{
    ZipArchive::new(Cursor::new(bytes))
}

/// Calls `ZipArchive::len`: the number of entries in the central directory.
#[verifier::external_body]
fn archive_len(archive: &ZipArchive<Cursor<&[u8]>>) -> (n: usize)
    ensures
        n == zip_len(archive_source(*archive)),
{
    archive.len()
}

/// Calls `ZipArchive::by_index_decrypt` with the empty password and tells
/// whether the answer is that the password is invalid. That is the answer for
/// an entry that carries an AES record without being marked as encrypted, on
/// which `ZipArchive::by_index` panics; so the functions that call `by_index`
/// require that this one answered no. It can also be the answer for an entry
/// that is encrypted with the older cipher, which `by_index` refuses. The
/// archive stays the same.
#[verifier::external_body]
fn entry_locked(archive: &mut ZipArchive<Cursor<&[u8]>>, index: usize) -> (r: bool)
    ensures
        archive_source(*final(archive)) == archive_source(*old(archive)),
        r == zip_entry_locked(archive_source(*old(archive)), index as nat),
{
    matches!(archive.by_index_decrypt(index, &[]), Ok(Err(_)))
}

/// Calls `ZipArchive::by_index` and `ZipFile::name`: the name that the
/// central directory records for the entry, or the error with which the entry
/// is not opened. The archive stays the same.
#[verifier::external_body]
fn entry_name(archive: &mut ZipArchive<Cursor<&[u8]>>, index: usize) -> (r: Result<String, ZipError>)
    requires
        !zip_entry_locked(archive_source(*old(archive)), index as nat),
    ensures
        archive_source(*final(archive)) == archive_source(*old(archive)),
        match r {
            Ok(name) => zip_entry_name(archive_source(*old(archive)), index as nat) == Some(name@),
            Err(_) => zip_entry_name(archive_source(*old(archive)), index as nat) is None,
        },
{
    match archive.by_index(index) {
        Ok(file) => Ok(file.name().to_string()),
        Err(error) => Err(error),
    }
}

/// Calls `ZipArchive::by_index` and reads the entry to its end with
/// `read_to_end`: the outer error is that of opening the entry, the inner one
/// that of reading it. The archive stays the same.
#[verifier::external_body]
fn entry_payload(archive: &mut ZipArchive<Cursor<&[u8]>>, index: usize) -> (r: Result<
    Result<Vec<u8>, std::io::Error>,
    ZipError,
>)
    requires
        !zip_entry_locked(archive_source(*old(archive)), index as nat),
    ensures
        archive_source(*final(archive)) == archive_source(*old(archive)),
        r is Ok == zip_entry_name(archive_source(*old(archive)), index as nat) is Some,
        match r {
            Ok(Ok(content)) => zip_entry_payload(archive_source(*old(archive)), index as nat)
                == Some(content@),
            Ok(Err(_)) => zip_entry_payload(archive_source(*old(archive)), index as nat) is None,
            Err(_) => true,
        },
{
    match archive.by_index(index) {
        Ok(mut file) => {
            let mut content = Vec::new();
            match file.read_to_end(&mut content) {
                Ok(_) => Ok(Ok(content)),
                Err(error) => Ok(Err(error)),
            }
        },
        Err(error) => Err(error),
    }
}

/// Calls `ZipArchive::by_name_decrypt` with the empty password and tells
/// whether the answer is that the password is invalid, as `entry_locked` does
/// by index. Where it is, `ZipArchive::by_name` may panic, so `document_text`
/// requires that this function answered no. The archive stays the same.
#[verifier::external_body]
fn document_locked(archive: &mut ZipArchive<Cursor<&[u8]>>, name: &str) -> (r: bool)
    ensures
        archive_source(*final(archive)) == archive_source(*old(archive)),
        r == zip_document_locked(archive_source(*old(archive)), name@),
{
    matches!(archive.by_name_decrypt(name, &[]), Ok(Err(_)))
}

/// Calls `ZipArchive::by_name` and reads the entry to its end with
/// `read_to_string`: the outer error is that of finding and opening the
/// entry, the inner one that of reading it as text. The archive stays the
/// same.
#[verifier::external_body]
fn document_text(archive: &mut ZipArchive<Cursor<&[u8]>>, name: &str) -> (r: Result<
    Result<String, std::io::Error>,
    ZipError,
>)
    requires
        !zip_document_locked(archive_source(*old(archive)), name@),
    ensures
        archive_source(*final(archive)) == archive_source(*old(archive)),
        match r {
            Ok(Ok(text)) => zip_document(archive_source(*old(archive)), name@) == Some(
                Some(text@),
            ),
            Ok(Err(_)) => zip_document(archive_source(*old(archive)), name@) == Some(
                None::<Seq<char>>,
            ),
            Err(_) => zip_document(archive_source(*old(archive)), name@) is None,
        },
{
    match archive.by_name(name) {
        Ok(mut file) => {
            let mut text = String::new();
            match file.read_to_string(&mut text) {
                Ok(_) => Ok(Ok(text)),
                Err(error) => Ok(Err(error)),
            }
        },
        Err(error) => Err(error),
    }
}

/// Calls `str::to_lowercase`: the text in lower case, by the rules of
/// Unicode.
#[verifier::external_body]
fn to_lowercase(text: &str) -> (r: String)
    ensures
        r@ == lowercase(text@),
{
    text.to_lowercase()
}

/// The bare id of an attachment pointer.
pub fn extract_asset_id(asset_pointer: &str) -> (id: String)
    ensures
        id@ == asset_id(asset_pointer@),
{
    let marker: Vec<char> = vec!['f', 'i', 'l', 'e', '-'];
    assert(marker@ =~= file_marker());
    text_after_last(asset_pointer, &marker)
}

/// The MIME type that belongs to an extension in lower case; the generic
/// binary type where the extension is not known.
pub fn mime_for_extension(extension: &str) -> (mime: String)
    ensures
        mime@ == mime_of_extension(extension@),
{
    let mime = if text_eq(extension, "jpg") || text_eq(extension, "jpeg") {
        "image/jpeg"
    } else if text_eq(extension, "png") {
        "image/png"
    } else if text_eq(extension, "gif") {
        "image/gif"
    } else if text_eq(extension, "webp") {
        "image/webp"
    } else if text_eq(extension, "pdf") {
        "application/pdf"
    } else if text_eq(extension, "txt") {
        "text/plain"
    } else if text_eq(extension, "json") {
        "application/json"
    } else {
        "application/octet-stream"
    };
    mime.to_owned()
}

/// The MIME type of a file, by the extension of its name.
pub fn guess_mime_type(file_name: &str) -> (mime: String)
    ensures
        mime@ == mime_of(file_name@),
{
    let dot: Vec<char> = vec!['.'];
    assert(dot@ =~= seq!['.']);
    let name = chars_of(file_name);
    if contains(&name, &dot) {
        let extension = text_after_last(file_name, &dot);
        let lowered = to_lowercase(extension.as_str());
        mime_for_extension(lowered.as_str())
    } else {
        "application/octet-stream".to_owned()
    }
}

/// Resolves an attachment pointer against the archive: the first entry, in
/// the order of the indices, whose name holds the pointer's bare id, with its
/// content and the MIME type of its name. Where no entry matches, the result
/// is empty and not matched. It fails where the bytes are no archive, where
/// an entry up to the first match cannot be opened, and where the matching
/// entry cannot be read.
pub fn extract_file_from_zip(archive: &[u8], asset_pointer: &str) -> (r: Result<
    ResolvedFile,
    ArchiveError,
>)
    ensures
        outcome(r) == resolution(archive@, asset_pointer@),
{
    let mut zip = match open_archive(archive) {
        Ok(zip) => zip,
        Err(_) => {
            return Err(ArchiveError::Unreadable);
        },
    };
    let id = extract_asset_id(asset_pointer);
    let id_chars = chars_of(id.as_str());
    let n = archive_len(&zip);
    let mut i: usize = 0;
    while i < n
        invariant
            archive_source(zip) == archive@,
            zip_readable(archive@),
            n == zip_len(archive@),
            i <= n,
            id@ == asset_id(asset_pointer@),
            id_chars@ == id@,
            search(archive@, id@, 0) == search(archive@, id@, i as nat),
        decreases n - i,
    {
        if entry_locked(&mut zip, i) {
            return Err(ArchiveError::EntryUnreadable(i));
        }
        let file_name = match entry_name(&mut zip, i) {
            Ok(name) => name,
            Err(_) => {
                return Err(ArchiveError::EntryUnreadable(i));
            },
        };
        let name_chars = chars_of(file_name.as_str());
        if contains(&name_chars, &id_chars) {
            let content = match entry_payload(&mut zip, i) {
                Ok(Ok(content)) => content,
                _ => {
                    return Err(ArchiveError::PayloadUnreadable(i));
                },
            };
            let mime_type = guess_mime_type(file_name.as_str());
            return Ok(ResolvedFile { content, file_name, mime_type, matched: true });
        }
        i += 1;
    }
    Ok(
        ResolvedFile {
            content: Vec::new(),
            file_name: String::new(),
            mime_type: String::new(),
            matched: false,
        },
    )
}

/// The text of the conversations document of the archive: of the entries
/// called `conversations.json` the last. It fails where the bytes are no
/// archive, where there is no such entry that can be opened, and where the
/// entry cannot be read as text.
pub fn extract_conversations_from_zip(archive: &[u8]) -> (r: Result<String, ArchiveError>)
    ensures
        match r {
            Ok(text) => document(archive@) == Ok::<Seq<char>, ArchiveError>(text@),
            Err(error) => document(archive@) == Err::<Seq<char>, ArchiveError>(error),
        },
{
    let mut zip = match open_archive(archive) {
        Ok(zip) => zip,
        Err(_) => {
            return Err(ArchiveError::Unreadable);
        },
    };
    if document_locked(&mut zip, "conversations.json") {
        return Err(ArchiveError::DocumentMissing);
    }
    match document_text(&mut zip, "conversations.json") {
        Ok(Ok(text)) => Ok(text),
        Ok(Err(_)) => Err(ArchiveError::DocumentUnreadable),
        Err(_) => Err(ArchiveError::DocumentMissing),
    }
}

} // verus!
