use ost_mcp::mac_outlook::hxstore::{
    check_header, crc32, scan_blocks, CrcTable, BLOCK_HEADER_LEN, FILE_MAGIC, KNOWN_VERSIONS,
    MAX_INFLATED_LEN,
};
use ost_mcp::mailbox::Error;

const BLOCK_MAGIC: u64 = 0x5d02_4564_3b70_6a05;

#[test]
fn crc32_matches_known_test_vectors() {
    assert_eq!(crc32(b""), 0);
    assert_eq!(crc32(b"a"), 0xE8B7BE43);
    assert_eq!(crc32(b"123456789"), 0xCBF43926);
}

fn header(version: u8) -> Vec<u8> {
    let mut v = vec![0u8; 0x40];
    v[..8].copy_from_slice(&FILE_MAGIC);
    v[8] = version;
    v[0x38..0x40].copy_from_slice(&4096u64.to_le_bytes());
    v
}

#[test]
fn accepts_known_versions() {
    assert!(check_header(&header(b'i')).unwrap().known_version);
    assert!(check_header(&header(b'h')).unwrap().known_version);
}

#[test]
fn flags_unknown_version_without_failing() {
    let h = check_header(&header(b'z')).unwrap();
    assert!(!h.known_version);
    assert_eq!(h.version, b'z');
}

#[test]
fn rejects_missing_magic() {
    assert!(check_header(&[0u8; 0x40]).is_err());
}

#[test]
fn rejects_too_small_file() {
    assert!(check_header(&[0u8; 8]).is_err());
}

fn synthetic_block(kind: u32, payload_plain: &[u8]) -> Vec<u8> {
    // A single literals-only LZ4 sequence for a payload under 15 bytes,
    // which is all these tests need.
    assert!(payload_plain.len() < 15);
    let mut compressed = vec![(payload_plain.len() as u8) << 4];
    compressed.extend_from_slice(payload_plain);

    let mut block = vec![0u8; BLOCK_HEADER_LEN];
    block[0x08..0x10].copy_from_slice(&BLOCK_MAGIC.to_le_bytes());
    block[0x10..0x14].copy_from_slice(&kind.to_le_bytes());
    block[0x14..0x18].copy_from_slice(&(compressed.len() as u32).to_le_bytes());
    block[0x18..0x1c].copy_from_slice(&(payload_plain.len() as u32).to_le_bytes());
    block.extend_from_slice(&compressed);

    let crc_body = crc32(&block[8..]);
    block[0x04..0x08].copy_from_slice(&crc_body.to_le_bytes());
    let crc_header = crc32(&block[4..0x20]);
    block[0x00..0x04].copy_from_slice(&crc_header.to_le_bytes());
    block
}

#[test]
fn scans_and_decodes_a_well_formed_block() {
    let block = synthetic_block(8, b"hello hx");
    let blocks = scan_blocks(&block);
    assert_eq!(blocks.len(), 1);
    assert_eq!(blocks[0].kind, 8);
    assert_eq!(blocks[0].data, b"hello hx");
}

#[test]
fn a_bit_flip_fails_checksum_and_is_skipped() {
    let mut block = synthetic_block(8, b"hello hx");
    let last = block.len() - 1;
    block[last] ^= 0x01;
    assert!(scan_blocks(&block).is_empty());
}

#[test]
fn magic_bytes_inside_garbage_do_not_produce_a_false_positive() {
    let mut data = vec![0xAAu8; 64];
    data.extend_from_slice(&BLOCK_MAGIC.to_le_bytes());
    data.extend_from_slice(&[0xBBu8; 64]);
    assert!(scan_blocks(&data).is_empty());
}

#[test]
fn truncated_file_does_not_panic() {
    let mut block = synthetic_block(8, b"hello hx");
    block.truncate(block.len() - 3);
    assert!(scan_blocks(&block).is_empty());
}

#[test]
fn header_gives_version_and_page_size() {
    let h = check_header(&header(b'i')).unwrap();
    assert_eq!(h.version, b'i');
    assert_eq!(h.page_size, 4096);
    assert_eq!(KNOWN_VERSIONS, [b'i', b'h']);
    assert_eq!(&FILE_MAGIC, b"Nostromo");
    assert_eq!(MAX_INFLATED_LEN, 32 * 1024 * 1024);
}

#[test]
fn header_errors_are_format_errors() {
    assert!(matches!(check_header(&[0u8; 8]), Err(Error::Format(_))));
    assert!(matches!(check_header(&[0u8; 0x40]), Err(Error::Format(_))));
}

#[test]
fn crc_of_a_range_is_the_crc_of_its_bytes() {
    let table = CrcTable::new();
    assert_eq!(table.crc(b"xx123456789yy", 2, 11), 0xCBF43926);
    assert_eq!(table.crc(b"xx", 1, 1), 0);
}

#[test]
fn blocks_come_out_in_file_order_with_garbage_between() {
    let mut data = header(b'i');
    data.extend(synthetic_block(8, b"first"));
    data.extend_from_slice(&[0xCC; 37]);
    data.extend(synthetic_block(9, b"second"));
    let mut broken = synthetic_block(9, b"third");
    broken[0x18] ^= 1;
    data.extend(broken);
    data.extend(synthetic_block(10, b"fourth"));
    let blocks = scan_blocks(&data);
    let got: Vec<(u32, &[u8])> = blocks.iter().map(|b| (b.kind, b.data.as_slice())).collect();
    assert_eq!(got, vec![(8, b"first".as_slice()), (9, b"second"), (10, b"fourth")]);
}
