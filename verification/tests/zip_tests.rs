use rust365::inflate::{construct, inflate_raw, Huffman};
use rust365::zip::ZipArchive;

/// A ZIP archive built by hand: (name, method, stored bytes, uncompressed size).
fn build_zip(entries: &[(&str, u16, &[u8], u32)]) -> Vec<u8> {
    let mut out = Vec::new();
    let mut central = Vec::new();
    for (name, method, data, usize_) in entries {
        let off = out.len() as u32;
        out.extend_from_slice(&0x04034b50u32.to_le_bytes());
        out.extend_from_slice(&20u16.to_le_bytes());
        out.extend_from_slice(&0u16.to_le_bytes());
        out.extend_from_slice(&method.to_le_bytes());
        out.extend_from_slice(&[0u8; 8]);
        out.extend_from_slice(&(data.len() as u32).to_le_bytes());
        out.extend_from_slice(&usize_.to_le_bytes());
        out.extend_from_slice(&(name.len() as u16).to_le_bytes());
        out.extend_from_slice(&0u16.to_le_bytes());
        out.extend_from_slice(name.as_bytes());
        out.extend_from_slice(data);

        central.extend_from_slice(&0x02014b50u32.to_le_bytes());
        central.extend_from_slice(&20u16.to_le_bytes());
        central.extend_from_slice(&20u16.to_le_bytes());
        central.extend_from_slice(&0u16.to_le_bytes());
        central.extend_from_slice(&method.to_le_bytes());
        central.extend_from_slice(&[0u8; 8]);
        central.extend_from_slice(&(data.len() as u32).to_le_bytes());
        central.extend_from_slice(&usize_.to_le_bytes());
        central.extend_from_slice(&(name.len() as u16).to_le_bytes());
        central.extend_from_slice(&[0u8; 12]);
        central.extend_from_slice(&off.to_le_bytes());
        central.extend_from_slice(name.as_bytes());
    }
    let cd_off = out.len() as u32;
    let cd_len = central.len() as u32;
    out.extend_from_slice(&central);
    out.extend_from_slice(&0x06054b50u32.to_le_bytes());
    out.extend_from_slice(&[0u8; 4]);
    out.extend_from_slice(&(entries.len() as u16).to_le_bytes());
    out.extend_from_slice(&(entries.len() as u16).to_le_bytes());
    out.extend_from_slice(&cd_len.to_le_bytes());
    out.extend_from_slice(&cd_off.to_le_bytes());
    out.extend_from_slice(&0u16.to_le_bytes());
    out
}

const HELLO_FIXED: [u8; 7] = [203, 72, 205, 201, 201, 7, 0];

const DYNAMIC: [u8; 167] = [
    197, 206, 89, 14, 68, 48, 0, 0, 208, 43, 85, 44, 85, 68, 99, 75, 209, 50, 98, 75, 133, 210, 34,
    150, 225, 254, 223, 115, 140, 121, 39, 120, 0, 50, 125, 63, 28, 78, 146, 234, 110, 89, 125, 50,
    28, 84, 96, 226, 171, 191, 143, 10, 114, 74, 7, 180, 205, 87, 120, 206, 43, 228, 89, 218, 27,
    130, 75, 52, 55, 253, 149, 59, 40, 89, 104, 76, 21, 113, 253, 242, 157, 134, 61, 184, 228, 233,
    203, 182, 219, 19, 253, 117, 106, 87, 183, 41, 88, 22, 173, 112, 44, 220, 99, 19, 177, 87, 136,
    111, 106, 190, 176, 52, 207, 7, 207, 159, 98, 128, 11, 151, 246, 88, 213, 107, 172, 3, 175, 195,
    182, 95, 219, 215, 237, 13, 36, 46, 143, 138, 48, 25, 91, 48, 81, 159, 188, 121, 154, 172, 148,
    145, 105, 4, 34, 139, 216, 154, 225, 176, 177, 54, 165, 81, 11, 252, 163, 253, 3,
];

const FOX: [u8; 55] = [
    11, 201, 72, 85, 40, 44, 205, 76, 206, 86, 72, 42, 202, 47, 207, 83, 72, 203, 175, 80, 200, 42,
    205, 45, 40, 86, 200, 47, 75, 45, 82, 40, 1, 74, 231, 36, 86, 85, 42, 164, 228, 167, 235, 41, 132,
    140, 42, 30, 85, 60, 170, 152, 218, 138, 1,
];

fn dynamic_text() -> Vec<u8> {
    (0..300u64).map(|i| ((i * i * 7 + i / 3) % 61 + 48) as u8).collect()
}

#[test]
fn inflate_stored_block() {
    let src = [1u8, 5, 0, 0xFA, 0xFF, b'h', b'e', b'l', b'l', b'o'];
    assert_eq!(inflate_raw(&src, 0).unwrap(), b"hello");
    assert_eq!(inflate_raw(&src, 5).unwrap(), b"hello");
}

#[test]
fn inflate_stored_block_with_bad_length_check_fails() {
    let src = [1u8, 5, 0, 0xFA, 0xFE, b'h', b'e', b'l', b'l', b'o'];
    assert!(inflate_raw(&src, 0).is_none());
}

#[test]
fn inflate_two_stored_blocks() {
    let src = [0u8, 2, 0, 0xFD, 0xFF, b'a', b'b', 1, 1, 0, 0xFE, 0xFF, b'c'];
    assert_eq!(inflate_raw(&src, 0).unwrap(), b"abc");
}

#[test]
fn inflate_fixed_huffman() {
    assert_eq!(inflate_raw(&HELLO_FIXED, 5).unwrap(), b"hello");
}

#[test]
fn inflate_fixed_huffman_with_back_references() {
    let text = b"The quick brown fox jumps over the lazy dog. ".repeat(20);
    assert_eq!(inflate_raw(&FOX, text.len()).unwrap(), text);
    assert_eq!(inflate_raw(&FOX, 0).unwrap(), text);
}

#[test]
fn inflate_dynamic_huffman() {
    assert_eq!(inflate_raw(&DYNAMIC, 300).unwrap(), dynamic_text());
}

#[test]
fn inflate_respects_the_output_cap() {
    assert!(inflate_raw(&HELLO_FIXED, 3).is_none());
    assert!(inflate_raw(&FOX, 100).is_none());
    let src = [1u8, 5, 0, 0xFA, 0xFF, b'h', b'e', b'l', b'l', b'o'];
    assert!(inflate_raw(&src, 4).is_none());
}

#[test]
fn inflate_rejects_truncated_and_reserved_blocks() {
    assert!(inflate_raw(&[], 0).is_none());
    assert!(inflate_raw(&HELLO_FIXED[..3], 0).is_none());
    assert!(inflate_raw(&[0x07], 0).is_none());
}

#[test]
fn zip_lists_finds_and_extracts_stored_entries() {
    let z = build_zip(&[("a.txt", 0, b"alpha", 5), ("dir/b.xml", 0, b"<b/>", 4)]);
    let archive = ZipArchive::open(&z).expect("archive");
    assert_eq!(archive.entries().len(), 2);
    assert_eq!(archive.entries()[1].name, "dir/b.xml");
    let e = archive.find("dir/b.xml").expect("entry");
    assert_eq!(e.method, 0);
    assert_eq!(archive.extract(e).unwrap(), b"<b/>");
    assert!(archive.find("missing").is_none());
    let a = archive.find("a.txt").unwrap();
    assert_eq!(a.local_offset, 0);
    assert_eq!(archive.extract(a).unwrap(), b"alpha");
}

#[test]
fn zip_extracts_deflated_entries() {
    let z = build_zip(&[("hello.txt", 8, &HELLO_FIXED, 5), ("data.bin", 8, &DYNAMIC, 300)]);
    let archive = ZipArchive::open(&z).unwrap();
    assert_eq!(archive.extract(archive.find("hello.txt").unwrap()).unwrap(), b"hello");
    assert_eq!(archive.extract(archive.find("data.bin").unwrap()).unwrap(), dynamic_text());
}

#[test]
fn zip_rejects_size_mismatch_and_unknown_method() {
    let z = build_zip(&[("s", 0, b"abc", 4), ("d", 8, &HELLO_FIXED, 6), ("m", 12, b"xyz", 3)]);
    let archive = ZipArchive::open(&z).unwrap();
    assert!(archive.extract(archive.find("s").unwrap()).is_none());
    assert!(archive.extract(archive.find("d").unwrap()).is_none());
    assert!(archive.extract(archive.find("m").unwrap()).is_none());
}

#[test]
fn zip_open_rejects_non_archives() {
    assert!(ZipArchive::open(b"").is_none());
    assert!(ZipArchive::open(b"this is not a zip file at all").is_none());
    let mut z = build_zip(&[("a", 0, b"x", 1)]);
    let n = z.len();
    z[n - 22] = 0;
    assert!(ZipArchive::open(&z).is_none());
}

#[test]
fn zip_first_entry_wins_for_duplicate_names() {
    let z = build_zip(&[("x", 0, b"first", 5), ("x", 0, b"second", 6)]);
    let archive = ZipArchive::open(&z).unwrap();
    assert_eq!(archive.extract(archive.find("x").unwrap()).unwrap(), b"first");
}

#[test]
fn zip_open_finds_record_behind_a_comment() {
    let mut z = build_zip(&[("a", 0, b"x", 1)]);
    let n = z.len();
    z[n - 2] = 3;
    z.extend_from_slice(b"abc");
    let archive = ZipArchive::open(&z).unwrap();
    assert_eq!(archive.entries().len(), 1);
}

#[test]
fn zip_names_with_invalid_utf8_are_replaced() {
    let mut z = build_zip(&[("ab", 0, b"x", 1)]);
    // the central directory copy of the name begins 2 bytes before the end record
    let n = z.len();
    z[n - 22 - 2] = 0xFF;
    let archive = ZipArchive::open(&z).unwrap();
    assert_eq!(archive.entries()[0].name, "\u{FFFD}b");
}

#[test]
fn inflate_rejects_bad_code_tables_and_distances() {
    // dynamic block whose first code-length symbol repeats a length that does not exist
    assert!(inflate_raw(&[0x05, 0x00, 0x02, 0x24], 0).is_none());
    // fixed block whose first symbol copies from before the start of the output
    assert!(inflate_raw(&[0x03, 0x02, 0x00], 0).is_none());
}

#[test]
fn zip_empty_deflated_entry_is_capped() {
    let empty_stream: &[u8] = &[0x01, 0x00, 0x00, 0xff, 0xff];
    let two_bytes: &[u8] = &[0x01, 0x02, 0x00, 0xfd, 0xff, b'h', b'i'];
    let z = build_zip(&[("empty", 8, empty_stream, 0), ("liar", 8, two_bytes, 0), ("big", 8, &HELLO_FIXED, 0)]);
    let archive = ZipArchive::open(&z).unwrap();
    assert_eq!(archive.extract(archive.find("empty").unwrap()).unwrap(), b"");
    assert!(archive.extract(archive.find("liar").unwrap()).is_none());
    assert!(archive.extract(archive.find("big").unwrap()).is_none());
}

#[test]
fn zip_reads_the_last_end_record() {
    let mut z = build_zip(&[("a", 0, b"x", 1), ("b", 0, b"y", 1)]);
    assert_eq!(ZipArchive::open(&z).unwrap().entries().len(), 2);
    // a later record that lists no entries takes precedence
    z.extend_from_slice(&0x06054b50u32.to_le_bytes());
    z.extend_from_slice(&[0u8; 18]);
    assert_eq!(ZipArchive::open(&z).unwrap().entries().len(), 0);
}

#[test]
fn construct_reports_the_unused_code_space() {
    let mut h = Huffman::new();
    assert_eq!(construct(&mut h, &[1, 1], 0, 2), 0);
    let mut h = Huffman::new();
    assert_eq!(construct(&mut h, &[1], 0, 1), 16384);
    let mut h = Huffman::new();
    assert_eq!(construct(&mut h, &[2, 2, 2], 0, 3), 8192);
    let mut h = Huffman::new();
    assert!(construct(&mut h, &[1, 1, 1], 0, 3) < 0);
    let mut h = Huffman::new();
    assert_eq!(construct(&mut h, &[0, 0], 0, 2), 0);
}
