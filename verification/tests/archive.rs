use importer::{
    extract_asset_id, extract_conversations_from_zip, extract_file_from_zip, guess_mime_type,
    mime_for_extension, ArchiveError,
};
use std::io::Write;

fn archive_of(entries: &[(&str, &[u8])]) -> Vec<u8> {
    let mut writer = zip::ZipWriter::new(std::io::Cursor::new(Vec::new()));
    for (name, content) in entries {
        writer
            .start_file(*name, zip::write::FileOptions::default())
            .unwrap();
        writer.write_all(content).unwrap();
    }
    writer.finish().unwrap().into_inner()
}

#[test]
fn pointer_resolves_to_the_entry_that_holds_its_id() {
    let archive = archive_of(&[
        ("conversations.json", b"[]"),
        ("images/abc123.png", b"\x89PNG rest"),
    ]);
    let file = extract_file_from_zip(&archive, "file-service://file-abc123").unwrap();
    assert!(file.matched);
    assert_eq!(file.mime_type, "image/png");
    assert_eq!(file.file_name, "images/abc123.png");
    assert_eq!(file.content, b"\x89PNG rest".to_vec());
}

#[test]
fn pointer_without_entry_resolves_to_nothing() {
    let archive = archive_of(&[("conversations.json", b"[]"), ("images/abc123.png", b"x")]);
    let file = extract_file_from_zip(&archive, "file-service://file-zzz").unwrap();
    assert!(!file.matched);
    assert!(file.content.is_empty());
    assert_eq!(file.file_name, "");
    assert_eq!(file.mime_type, "");
}

#[test]
fn first_matching_entry_wins() {
    let archive = archive_of(&[("a/id7.txt", b"first"), ("b/id7.pdf", b"second")]);
    let file = extract_file_from_zip(&archive, "sediment://file-id7").unwrap();
    assert_eq!(file.file_name, "a/id7.txt");
    assert_eq!(file.mime_type, "text/plain");
    assert_eq!(file.content, b"first".to_vec());
}

#[test]
fn bytes_that_are_no_archive_are_refused() {
    assert_eq!(
        extract_file_from_zip(b"not a zip", "file-1"),
        Err(ArchiveError::Unreadable)
    );
    assert_eq!(
        extract_conversations_from_zip(b"not a zip"),
        Err(ArchiveError::Unreadable)
    );
}

#[test]
fn document_is_read_from_the_archive() {
    let archive = archive_of(&[("x.bin", b"\x00"), ("conversations.json", b"[{\"a\": 1}]")]);
    assert_eq!(
        extract_conversations_from_zip(&archive),
        Ok("[{\"a\": 1}]".to_string())
    );
}

#[test]
fn missing_document_is_reported() {
    let archive = archive_of(&[("x.bin", b"\x00")]);
    assert_eq!(
        extract_conversations_from_zip(&archive),
        Err(ArchiveError::DocumentMissing)
    );
}

#[test]
fn document_that_is_no_text_is_reported() {
    let archive = archive_of(&[("conversations.json", b"\xff\xfe\xfd")]);
    assert_eq!(
        extract_conversations_from_zip(&archive),
        Err(ArchiveError::DocumentUnreadable)
    );
}

#[test]
fn asset_id_follows_the_last_marker() {
    assert_eq!(extract_asset_id("file-service://file-abc123"), "abc123");
    assert_eq!(extract_asset_id("no marker here"), "no marker here");
    assert_eq!(extract_asset_id("file-"), "");
    assert_eq!(extract_asset_id(""), "");
    assert_eq!(extract_asset_id("file-a-file-b"), "b");
}

#[test]
fn mime_type_goes_by_the_extension() {
    assert_eq!(guess_mime_type("a.jpg"), "image/jpeg");
    assert_eq!(guess_mime_type("a.JPEG"), "image/jpeg");
    assert_eq!(guess_mime_type("dir.d/a.Png"), "image/png");
    assert_eq!(guess_mime_type("a.gif"), "image/gif");
    assert_eq!(guess_mime_type("a.webp"), "image/webp");
    assert_eq!(guess_mime_type("a.pdf"), "application/pdf");
    assert_eq!(guess_mime_type("a.txt"), "text/plain");
    assert_eq!(guess_mime_type("a.json"), "application/json");
    assert_eq!(guess_mime_type("a.tar.gz"), "application/octet-stream");
    assert_eq!(guess_mime_type(".png"), "image/png");
    assert_eq!(guess_mime_type("png"), "application/octet-stream");
    assert_eq!(guess_mime_type("dir.d/png"), "application/octet-stream");
    assert_eq!(guess_mime_type("README"), "application/octet-stream");
    assert_eq!(guess_mime_type(""), "application/octet-stream");
    assert_eq!(guess_mime_type("a."), "application/octet-stream");
}

#[test]
fn mime_table_is_exact() {
    assert_eq!(mime_for_extension("jpg"), "image/jpeg");
    assert_eq!(mime_for_extension("JPG"), "application/octet-stream");
    assert_eq!(mime_for_extension("jpe"), "application/octet-stream");
}

struct RawEntry {
    name: &'static str,
    content: &'static [u8],
    method: u16,
    flags: u16,
    extra: Vec<u8>,
    checksum: Option<u32>,
}

fn plain(name: &'static str, content: &'static [u8]) -> RawEntry {
    RawEntry { name, content, method: 0, flags: 0, extra: vec![], checksum: None }
}

fn checksum_of(data: &[u8]) -> u32 {
    let mut crc = 0xffff_ffffu32;
    for byte in data {
        crc ^= *byte as u32;
        for _ in 0..8 {
            crc = if crc & 1 == 1 { (crc >> 1) ^ 0xedb8_8320 } else { crc >> 1 };
        }
    }
    !crc
}

fn raw_archive(entries: &[RawEntry]) -> Vec<u8> {
    let mut out: Vec<u8> = Vec::new();
    let mut directory: Vec<u8> = Vec::new();
    for entry in entries {
        let offset = out.len() as u32;
        let crc = entry.checksum.unwrap_or(checksum_of(entry.content));
        let size = entry.content.len() as u32;
        out.extend_from_slice(&0x0403_4b50u32.to_le_bytes());
        out.extend_from_slice(&20u16.to_le_bytes());
        out.extend_from_slice(&entry.flags.to_le_bytes());
        out.extend_from_slice(&entry.method.to_le_bytes());
        out.extend_from_slice(&[0, 0, 0x21, 0]);
        out.extend_from_slice(&crc.to_le_bytes());
        out.extend_from_slice(&size.to_le_bytes());
        out.extend_from_slice(&size.to_le_bytes());
        out.extend_from_slice(&(entry.name.len() as u16).to_le_bytes());
        out.extend_from_slice(&0u16.to_le_bytes());
        out.extend_from_slice(entry.name.as_bytes());
        out.extend_from_slice(entry.content);
        directory.extend_from_slice(&0x0201_4b50u32.to_le_bytes());
        directory.extend_from_slice(&20u16.to_le_bytes());
        directory.extend_from_slice(&20u16.to_le_bytes());
        directory.extend_from_slice(&entry.flags.to_le_bytes());
        directory.extend_from_slice(&entry.method.to_le_bytes());
        directory.extend_from_slice(&[0, 0, 0x21, 0]);
        directory.extend_from_slice(&crc.to_le_bytes());
        directory.extend_from_slice(&size.to_le_bytes());
        directory.extend_from_slice(&size.to_le_bytes());
        directory.extend_from_slice(&(entry.name.len() as u16).to_le_bytes());
        directory.extend_from_slice(&(entry.extra.len() as u16).to_le_bytes());
        directory.extend_from_slice(&[0, 0, 0, 0, 0, 0, 0, 0, 0, 0]);
        directory.extend_from_slice(&offset.to_le_bytes());
        directory.extend_from_slice(entry.name.as_bytes());
        directory.extend_from_slice(&entry.extra);
    }
    let start = out.len() as u32;
    let count = entries.len() as u16;
    out.extend_from_slice(&directory);
    out.extend_from_slice(&0x0605_4b50u32.to_le_bytes());
    out.extend_from_slice(&[0, 0, 0, 0]);
    out.extend_from_slice(&count.to_le_bytes());
    out.extend_from_slice(&count.to_le_bytes());
    out.extend_from_slice(&(directory.len() as u32).to_le_bytes());
    out.extend_from_slice(&start.to_le_bytes());
    out.extend_from_slice(&[0, 0]);
    out
}

#[test]
fn archive_written_by_hand_is_read() {
    let archive = raw_archive(&[plain("docs/k9.TXT", b"by hand"), plain("conversations.json", b"{}")]);
    let file = extract_file_from_zip(&archive, "file-k9").unwrap();
    assert!(file.matched);
    assert_eq!(file.file_name, "docs/k9.TXT");
    assert_eq!(file.mime_type, "text/plain");
    assert_eq!(file.content, b"by hand".to_vec());
    assert_eq!(extract_conversations_from_zip(&archive), Ok("{}".to_string()));
}

#[test]
fn archive_without_entries_holds_no_file() {
    let archive = raw_archive(&[]);
    let file = extract_file_from_zip(&archive, "file-k9").unwrap();
    assert!(!file.matched);
    assert_eq!(extract_conversations_from_zip(&archive), Err(ArchiveError::DocumentMissing));
}

#[test]
fn empty_id_matches_the_first_entry() {
    let archive = raw_archive(&[plain("one.gif", b"1"), plain("two.gif", b"2")]);
    let file = extract_file_from_zip(&archive, "file-").unwrap();
    assert_eq!(file.file_name, "one.gif");
    assert_eq!(file.mime_type, "image/gif");
}

#[test]
fn pointer_without_marker_is_its_own_id() {
    let archive = raw_archive(&[plain("a/whole-pointer.webp", b"w")]);
    let file = extract_file_from_zip(&archive, "whole-pointer").unwrap();
    assert_eq!(file.file_name, "a/whole-pointer.webp");
    assert_eq!(file.mime_type, "image/webp");
}

#[test]
fn entry_of_unknown_compression_cannot_be_opened() {
    let packed = RawEntry { method: 12, ..plain("b/target.bin", b"??") };
    let archive = raw_archive(&[plain("a.txt", b"a"), packed, plain("c/target.txt", b"c")]);
    assert_eq!(
        extract_file_from_zip(&archive, "file-target"),
        Err(ArchiveError::EntryUnreadable(1))
    );
    let early = extract_file_from_zip(&archive, "file-a.txt").unwrap();
    assert_eq!(early.file_name, "a.txt");
}

#[test]
fn search_ends_at_an_entry_that_cannot_be_opened() {
    let packed = RawEntry { method: 14, ..plain("first.bin", b"??") };
    let archive = raw_archive(&[packed, plain("second.txt", b"s")]);
    assert_eq!(
        extract_file_from_zip(&archive, "file-second"),
        Err(ArchiveError::EntryUnreadable(0))
    );
    assert_eq!(
        extract_file_from_zip(&archive, "file-nothing"),
        Err(ArchiveError::EntryUnreadable(0))
    );
}

#[test]
fn encrypted_entry_cannot_be_opened() {
    let secret = RawEntry { flags: 1, ..plain("secret.txt", b"0123456789abcdef") };
    let archive = raw_archive(&[secret]);
    assert_eq!(
        extract_file_from_zip(&archive, "file-secret"),
        Err(ArchiveError::EntryUnreadable(0))
    );
}

#[test]
fn entry_with_an_encryption_record_cannot_be_opened() {
    let record = vec![0x01, 0x99, 0x07, 0x00, 0x02, 0x00, 0x41, 0x45, 0x03, 0x00, 0x00];
    let marked = RawEntry { extra: record, ..plain("marked.txt", b"text") };
    let archive = raw_archive(&[marked]);
    assert_eq!(
        extract_file_from_zip(&archive, "file-marked"),
        Err(ArchiveError::EntryUnreadable(0))
    );
}

#[test]
fn document_with_an_encryption_record_counts_as_missing() {
    let record = vec![0x01, 0x99, 0x07, 0x00, 0x02, 0x00, 0x41, 0x45, 0x03, 0x00, 0x00];
    let marked = RawEntry { extra: record, ..plain("conversations.json", b"[]") };
    assert_eq!(
        extract_conversations_from_zip(&raw_archive(&[marked])),
        Err(ArchiveError::DocumentMissing)
    );
    let secret = RawEntry { flags: 1, ..plain("conversations.json", b"0123456789abcdef") };
    assert_eq!(
        extract_conversations_from_zip(&raw_archive(&[secret])),
        Err(ArchiveError::DocumentMissing)
    );
}

#[test]
fn entry_with_a_wrong_checksum_cannot_be_read() {
    let broken = RawEntry { checksum: Some(7), ..plain("x/broken.pdf", b"content") };
    let archive = raw_archive(&[plain("fine.pdf", b"fine"), broken]);
    assert_eq!(
        extract_file_from_zip(&archive, "file-broken"),
        Err(ArchiveError::PayloadUnreadable(1))
    );
    let broken_document = RawEntry { checksum: Some(7), ..plain("conversations.json", b"[]") };
    assert_eq!(
        extract_conversations_from_zip(&raw_archive(&[broken_document])),
        Err(ArchiveError::DocumentUnreadable)
    );
}

#[test]
fn of_two_entries_with_one_name_the_document_is_the_later() {
    let archive = raw_archive(&[
        plain("conversations.json", b"first"),
        plain("conversations.json", b"second"),
    ]);
    assert_eq!(extract_conversations_from_zip(&archive), Ok("second".to_string()));
}

#[test]
fn resolution_is_the_same_every_time() {
    let archive = archive_of(&[("images/abc123.png", b"png bytes"), ("b.txt", b"b")]);
    for pointer in ["file-service://file-abc123", "file-none", "file-b"] {
        let first = extract_file_from_zip(&archive, pointer);
        let second = extract_file_from_zip(&archive, pointer);
        assert_eq!(first, second);
    }
    let broken = b"garbage".to_vec();
    assert_eq!(
        extract_file_from_zip(&broken, "file-x"),
        extract_file_from_zip(&broken, "file-x")
    );
}

#[test]
fn every_failure_has_its_message() {
    assert_eq!(ArchiveError::Unreadable.message(), "Failed to read zip archive");
    assert_eq!(
        ArchiveError::DocumentMissing.message(),
        "conversations.json not found in zip file"
    );
    assert_eq!(
        ArchiveError::DocumentUnreadable.message(),
        "Failed to read conversations.json from zip"
    );
    assert_eq!(
        ArchiveError::EntryUnreadable(3).message(),
        "Failed to open an entry of the zip archive"
    );
    assert_eq!(
        ArchiveError::PayloadUnreadable(0).message(),
        "Failed to read a file from the zip archive"
    );
}
