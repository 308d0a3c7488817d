use std::io::Cursor;
use std::io::Read;

use dzp::archive::{fits_archive, write_archive};
use dzp::dzi::TileBlob;
use dzp::error::TilingError;

fn blob(path: &str, bytes: &[u8]) -> TileBlob {
    TileBlob { path: path.to_string(), bytes: bytes.to_vec() }
}

#[test]
fn archive_holds_the_files_in_their_order() {
    let blobs = vec![blob("b.dzi", b"second"), blob("a_files/0/0_0.jpg", b""), blob("c", &[0u8; 1000])];
    let archive = write_archive(&blobs).unwrap();
    let mut reader = zip::ZipArchive::new(Cursor::new(archive)).unwrap();
    assert_eq!(reader.len(), 3);
    for (i, expected) in blobs.iter().enumerate() {
        let mut file = reader.by_index(i).unwrap();
        assert_eq!(file.name(), expected.path);
        assert_eq!(file.compression(), zip::CompressionMethod::Stored);
        assert_eq!(file.unix_mode().map(|m| m & 0o777), Some(0o755));
        assert_eq!(file.size(), expected.bytes.len() as u64);
        assert_eq!(file.compressed_size(), expected.bytes.len() as u64);
        let mut bytes = Vec::new();
        file.read_to_end(&mut bytes).unwrap();
        assert_eq!(bytes, expected.bytes);
    }
}

#[test]
fn archive_of_no_files_is_an_empty_archive() {
    let archive = write_archive(&Vec::new()).unwrap();
    let reader = zip::ZipArchive::new(Cursor::new(archive)).unwrap();
    assert_eq!(reader.len(), 0);
}

#[test]
fn archive_bytes_depend_on_the_files_alone() {
    let blobs = vec![blob("x", b"one"), blob("y", b"two")];
    assert_eq!(write_archive(&blobs).unwrap(), write_archive(&blobs).unwrap());
    let other = vec![blob("x", b"one"), blob("y", b"twO")];
    assert_ne!(write_archive(&blobs).unwrap(), write_archive(&other).unwrap());
}

#[test]
fn a_path_given_twice_is_refused_by_the_container() {
    let blobs = vec![blob("x", b"one"), blob("x", b"two")];
    assert!(matches!(write_archive(&blobs), Err(TilingError::IOFailure(_))));
}

#[test]
fn names_longer_than_the_format_records_do_not_fit() {
    let fine = vec![blob(&"a".repeat(65535), b""), blob("b", b"x")];
    assert!(fits_archive(&fine));
    let long = vec![blob("b", b"x"), blob(&"a".repeat(65536), b"")];
    assert!(!fits_archive(&long));
    let wide = vec![blob(&"\u{e9}".repeat(32768), b"")];
    assert!(!fits_archive(&wide));
    assert!(fits_archive(&Vec::new()));
}

#[test]
fn a_name_of_the_longest_length_is_written() {
    let blobs = vec![blob(&"a".repeat(65535), b"content")];
    let archive = write_archive(&blobs).unwrap();
    let mut reader = zip::ZipArchive::new(Cursor::new(archive)).unwrap();
    assert_eq!(reader.by_index(0).unwrap().name().len(), 65535);
}
