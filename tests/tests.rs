use rpak::{PakArchive, PakError, PakFileEntry, PakHeader};

const PAYLOAD: &[u8] = b"hello world!\n";

fn le32(n: u32) -> Vec<u8> {
    vec![n as u8, (n >> 8) as u8, (n >> 16) as u8, (n >> 24) as u8]
}

fn header_image(table_offset: u32, table_size: u32) -> Vec<u8> {
    let mut out = b"PACK".to_vec();
    out.extend(le32(table_offset));
    out.extend(le32(table_size));
    out
}

fn entry_image(name: &str, offset: u32, size: u32) -> Vec<u8> {
    let mut out = name.as_bytes().to_vec();
    out.resize(56, 0);
    out.extend(le32(offset));
    out.extend(le32(size));
    out
}

fn expected_single() -> Vec<u8> {
    let mut out = header_image(25, 64);
    out.extend_from_slice(PAYLOAD);
    out.extend(entry_image("test.txt", 12, 13));
    out
}

fn expected_multiple() -> Vec<u8> {
    let mut out = header_image(51, 192);
    for _ in 0..3 {
        out.extend_from_slice(PAYLOAD);
    }
    out.extend(entry_image("1.txt", 12, 13));
    out.extend(entry_image("2.txt", 25, 13));
    out.extend(entry_image("3.txt", 38, 13));
    out
}

#[test]
fn archive_create_single_file() {
    let expected = expected_single();
    let mut archive = PakArchive::new();
    archive.add_file(String::from("test.txt"), b"hello world!\n");
    let output = archive.as_bytes().unwrap();

    assert_eq!(output.len(), expected.len());
    assert_eq!(output[..], expected[..]);
}

#[test]
fn archive_create_multiple_files() {
    let expected = expected_multiple();
    let mut archive = PakArchive::new();
    archive.add_file(String::from("1.txt"), b"hello world!\n");
    archive.add_file(String::from("2.txt"), b"hello world!\n");
    archive.add_file(String::from("3.txt"), b"hello world!\n");
    let output = archive.as_bytes().unwrap();

    assert_eq!(output.len(), expected.len());
    assert_eq!(output[..], expected[..]);
}

#[test]
fn archive_read() {
    let input = expected_multiple();
    let archive = PakArchive::from_bytes(&input[..]).unwrap();

    assert_eq!(archive.files.len(), 3);
    assert_eq!(archive.files[0].0, String::from("1.txt"));
    assert_eq!(archive.files[1].0, String::from("2.txt"));
    assert_eq!(archive.files[2].0, String::from("3.txt"));
}

#[test]
fn header_as_bytes() {
    let expected = header_image(64, 64);
    let header = PakHeader::new(64, 64);
    let output = header.as_bytes();

    assert_eq!(output.len(), expected.len());
    assert_eq!(output[..], expected[..]);
}

#[test]
fn header_from_bytes() {
    let input = header_image(64, 64);
    let header = PakHeader::from_bytes(&input[..]).unwrap();

    assert_eq!(header.table_offset, 64);
    assert_eq!(header.table_size, 64);
}

#[test]
fn file_entry_as_bytes() {
    let expected = entry_image("test.txt", 64, 8);
    let file_entry = PakFileEntry::new(String::from("test.txt"), 64, 8);
    let output = file_entry.as_bytes();

    assert_eq!(output.len(), expected.len());
    assert_eq!(output[..], expected[..]);
}

#[test]
fn file_entry_from_bytes() {
    let input = entry_image("test.txt", 64, 8);
    let file_entry = PakFileEntry::from_bytes(&input[..]);

    assert_eq!(file_entry.get_name(), String::from("test.txt"));
    assert_eq!(file_entry.offset, 64);
    assert_eq!(file_entry.size, 8);
}

#[test]
fn archive_read_single_data() {
    let input = expected_single();
    let archive = PakArchive::from_bytes(&input[..]).unwrap();
    assert_eq!(archive.files.len(), 1);
    assert_eq!(archive.files[0].0, "test.txt");
    assert_eq!(archive.files[0].1, PAYLOAD);
}

#[test]
fn archive_round_trip_keeps_order_and_duplicates() {
    let a: &[u8] = b"first";
    let b: &[u8] = b"";
    let c: &[u8] = &[0, 1, 2, 255];
    let mut archive = PakArchive::new();
    archive.add_file(String::from("same.bin"), a);
    archive.add_file(String::from("same.bin"), b);
    archive.add_file(String::from("caf\u{e9}/\u{1f600}.dat"), c);
    let bytes = archive.as_bytes().unwrap();
    assert_eq!(bytes.len(), 12 + 9 + 3 * 64);
    let decoded = PakArchive::from_bytes(&bytes[..]).unwrap();
    assert_eq!(decoded.files.len(), 3);
    assert_eq!(decoded.files[0].0, "same.bin");
    assert_eq!(decoded.files[0].1, a);
    assert_eq!(decoded.files[1].0, "same.bin");
    assert_eq!(decoded.files[1].1, b);
    assert_eq!(decoded.files[2].0, "caf\u{e9}/\u{1f600}.dat");
    assert_eq!(decoded.files[2].1, c);
}

#[test]
fn empty_archive_round_trip() {
    let archive = PakArchive::new();
    let bytes = archive.as_bytes().unwrap();
    assert_eq!(bytes, header_image(12, 0));
    let decoded = PakArchive::from_bytes(&bytes[..]).unwrap();
    assert_eq!(decoded.files.len(), 0);
}

#[test]
fn header_round_trip_large_values() {
    let header = PakHeader::new(0x0102_0304, 0xFFFF_FFFE);
    let bytes = header.as_bytes();
    assert_eq!(bytes, vec![b'P', b'A', b'C', b'K', 4, 3, 2, 1, 0xFE, 0xFF, 0xFF, 0xFF]);
    let back = PakHeader::from_bytes(&bytes[..]).unwrap();
    assert_eq!(back.table_offset, 0x0102_0304);
    assert_eq!(back.table_size, 0xFFFF_FFFE);
}

#[test]
fn header_default_is_zero() {
    let header = PakHeader::default();
    assert_eq!(header.table_offset, 0);
    assert_eq!(header.table_size, 0);
}

#[test]
fn header_bad_magic_is_format_error() {
    let mut input = header_image(12, 0);
    input[0] = b'Q';
    assert_eq!(PakHeader::from_bytes(&input[..]).err(), Some(PakError::Format));
    assert_eq!(PakArchive::from_bytes(&input[..]).err(), Some(PakError::Format));
}

#[test]
fn header_short_buffer_is_bounds_error() {
    let input = b"PACK\x0c\x00\x00".to_vec();
    assert_eq!(PakHeader::from_bytes(&input[..]).err(), Some(PakError::Bounds));
    assert_eq!(PakArchive::from_bytes(&input[..]).err(), Some(PakError::Bounds));
}

#[test]
fn archive_table_offset_past_end_is_bounds_error() {
    let input = header_image(13, 0);
    assert_eq!(PakArchive::from_bytes(&input[..]).err(), Some(PakError::Bounds));
}

#[test]
fn archive_partial_record_is_bounds_error() {
    let mut input = expected_single();
    input.pop();
    assert_eq!(PakArchive::from_bytes(&input[..]).err(), Some(PakError::Bounds));
}

#[test]
fn archive_record_past_end_is_bounds_error() {
    let mut input = header_image(12, 64);
    input.extend(entry_image("x", 70, 7));
    assert_eq!(PakArchive::from_bytes(&input[..]).err(), Some(PakError::Bounds));
    let mut input = header_image(12, 64);
    input.extend(entry_image("x", 0xFFFF_FFFF, 0xFFFF_FFFF));
    assert_eq!(PakArchive::from_bytes(&input[..]).err(), Some(PakError::Bounds));
}

#[test]
fn long_name_is_truncated_to_55_bytes() {
    let name = "abcdefghij".repeat(6);
    assert_eq!(name.len(), 60);
    let entry = PakFileEntry::new(name.clone(), 0, 0);
    assert_eq!(entry.get_name(), name[..55].to_string());
    assert_eq!(entry.name_bytes[55], 0);
}

#[test]
fn name_cut_inside_character_falls_back() {
    let name = format!("{}\u{e9}", "a".repeat(54));
    let entry = PakFileEntry::new(name, 0, 0);
    assert_eq!(entry.get_name(), "unknown.bin");
}

#[test]
fn invalid_name_bytes_fall_back() {
    let mut input = entry_image("", 1, 2);
    input[0] = 0xFF;
    input[1] = b'a';
    let entry = PakFileEntry::from_bytes(&input[..]);
    assert_eq!(entry.get_name(), "unknown.bin");
}

#[test]
fn name_without_terminator_uses_whole_field() {
    let input = vec![b'z'; 64];
    let entry = PakFileEntry::from_bytes(&input[..]);
    assert_eq!(entry.get_name(), "z".repeat(56));
    assert_eq!(entry.offset, 0x7A7A_7A7A);
}

#[test]
fn set_name_replaces_old_name() {
    let mut entry = PakFileEntry::new(String::from("a-much-longer-name.txt"), 7, 9);
    entry.set_name(String::from("b"));
    assert_eq!(entry.get_name(), "b");
    assert_eq!(entry.name_bytes[1..], [0u8; 55][..]);
    assert_eq!(entry.offset, 7);
    assert_eq!(entry.size, 9);
}
