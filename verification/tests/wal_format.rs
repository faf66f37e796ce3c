use bytes::Bytes;
use quickwit::wal::format::{
    decode_block, decode_footer, decode_wal_object, encode_fence_object, encode_wal_object,
    footer_range, WalBlock, WalObjectHeader, TRAILER_LEN,
};
use quickwit::wal::{parse_wal_object_path, wal_object_path, WalError, WalId};

fn header(wal_id: u64) -> WalObjectHeader {
    WalObjectHeader {
        ingester_id: "ingester-1".to_string(),
        epoch: 7,
        generation_id: 70,
        wal_id: WalId(wal_id),
        is_fence: false,
    }
}

fn block(queue_id: &str, first_position: u64, records: &[&str]) -> WalBlock {
    WalBlock {
        queue_id: queue_id.to_string(),
        first_position,
        records: records
            .iter()
            .map(|record| Bytes::copy_from_slice(record.as_bytes()))
            .collect(),
    }
}

#[test]
fn test_roundtrip_small_and_large_blocks() {
    let big_record = "x".repeat(10_000);
    let blocks = vec![
        block("idx/src/00000000000000000000", 0, &["a", "b", "c"]),
        block("idx/src/00000000000000000001", 41, &[&big_record, "tail"]),
        block("idx/src/00000000000000000000", 3, &["d"]),
    ];
    let encoded = encode_wal_object(&header(1), &blocks);
    // Compression kicked in for the large block.
    assert!(encoded.len() < 10_000);

    let (decoded_header, decoded_blocks) = decode_wal_object(&encoded).unwrap();
    assert_eq!(decoded_header, header(1));
    assert_eq!(decoded_blocks, blocks);

    let footer = decode_footer(&encoded[encoded.len() - 400.min(encoded.len())..]).unwrap();
    assert_eq!(footer.header, header(1));
    assert_eq!(footer.blocks.len(), 3);
    assert_eq!(footer.blocks[1].last_position(), 42);
    assert!(footer.has_records_after("idx/src/00000000000000000000", 3));
    assert!(!footer.has_records_after("idx/src/00000000000000000000", 4));
    assert!(!footer.has_records_after("idx/src/00000000000000000009", 0));

    // Range-read one block using footer metadata only.
    let block_meta = &footer.blocks[1];
    let records = decode_block(block_meta, &encoded[block_meta.byte_range()]).unwrap();
    assert_eq!(records[0].len(), 10_000);
    assert_eq!(&records[1][..], b"tail");
}

#[test]
fn test_footer_range_from_trailer() {
    let encoded = encode_wal_object(&header(1), &[block("q", 0, &["a"])]);
    let trailer = &encoded[encoded.len() - TRAILER_LEN..];
    let range = footer_range(encoded.len() as u64, trailer).unwrap();
    let footer = decode_footer(&encoded[range.start..]).unwrap();
    assert_eq!(footer.blocks.len(), 1);
}

#[test]
fn test_fence_object() {
    let encoded = encode_fence_object("ingester-1", 9, 90, WalId(12));
    let (decoded_header, blocks) = decode_wal_object(&encoded).unwrap();
    assert!(decoded_header.is_fence);
    assert_eq!(decoded_header.epoch, 9);
    assert_eq!(decoded_header.generation_id, 90);
    assert_eq!(decoded_header.wal_id, WalId(12));
    assert!(blocks.is_empty());
    assert!(encoded.len() < 128);
}

#[test]
fn test_corruption_is_detected() {
    let encoded = encode_wal_object(&header(1), &[block("q", 0, &["hello", "world"])]);

    // Flip a byte in the payload.
    let mut corrupted = encoded.to_vec();
    let footer = decode_footer(&encoded).unwrap();
    let payload_offset = footer.blocks[0].byte_offset as usize + 2 + 1 + 8 + 4 + 1 + 4 + 4;
    corrupted[payload_offset] ^= 0xff;
    let error = decode_wal_object(&corrupted).unwrap_err();
    assert!(matches!(error, WalError::Corrupted(msg) if msg.contains("checksum")));

    // Flip a byte in the footer.
    let mut corrupted = encoded.to_vec();
    let len = corrupted.len();
    corrupted[len - TRAILER_LEN - 3] ^= 0xff;
    assert!(matches!(
        decode_footer(&corrupted),
        Err(WalError::Corrupted(_))
    ));

    // Truncate.
    assert!(matches!(
        decode_footer(&encoded[..encoded.len() - 1]),
        Err(WalError::Corrupted(_))
    ));
    assert!(matches!(
        decode_footer(&encoded[..5]),
        Err(WalError::Corrupted(_))
    ));
}

#[test]
fn test_queue_marker_roundtrip() {
    let blocks = vec![
        WalBlock::queue_marker("q-new".to_string()),
        block("q", 5, &["a"]),
    ];
    let encoded = encode_wal_object(&header(1), &blocks);
    let (decoded_header, decoded_blocks) = decode_wal_object(&encoded).unwrap();
    assert!(!decoded_header.is_fence);
    assert_eq!(decoded_blocks, blocks);
    let footer = decode_footer(&encoded).unwrap();
    assert!(footer.blocks[0].is_queue_marker());
    assert!(!footer.blocks[1].is_queue_marker());
    assert!(!footer.has_records_after("q-new", 0));
    assert!(footer.has_records_after("q", 5));
}

#[test]
fn test_wal_object_path_roundtrip() {
    let path = wal_object_path("ingester-1", WalId(42));
    assert_eq!(path, "ingester-1/wal/00000000000000000042.wal");
    assert_eq!(parse_wal_object_path(&path), Some(WalId(42)));
    assert_eq!(parse_wal_object_path("ingester-1/wal/foo.wal"), None);
    assert_eq!(parse_wal_object_path("ingester-1/wal/42.wal"), None);
    assert_eq!(
        parse_wal_object_path("ingester-1/wal/00000000000000000042.tmp"),
        None
    );
}

#[test]
fn test_wal_id_sorts_lexicographically() {
    assert!(WalId(9).to_text() < WalId(10).to_text());
    assert!(WalId(u64::MAX - 1).to_text() < WalId(u64::MAX).to_text());
}

/// Lengths, checksums and magics stand where the layout puts them.
#[test]
fn encoded_bytes_follow_the_layout() {
    let encoded = encode_wal_object(&header(0x0102), &[block("q", 5, &["ab"])]);
    let mut expected: Vec<u8> = b"QWL3\x01\x00".to_vec();
    expected.extend(7u64.to_le_bytes());
    expected.extend(70u64.to_le_bytes());
    expected.extend(0x0102u64.to_le_bytes());
    expected.extend(10u16.to_le_bytes());
    expected.extend(b"ingester-1");
    let head = expected.clone();
    let block_offset = expected.len() as u64;
    expected.extend(b"\x01\x00q");
    expected.extend(5u64.to_le_bytes());
    expected.extend(1u32.to_le_bytes());
    expected.push(0);
    expected.extend(6u32.to_le_bytes());
    expected.extend(6u32.to_le_bytes());
    let payload = b"\x02\x00\x00\x00ab";
    expected.extend(payload);
    expected.extend(crc32fast::hash(payload).to_le_bytes());
    let block_len = expected.len() as u32 - block_offset as u32;
    let mut footer = head;
    footer.extend(1u32.to_le_bytes());
    footer.extend(b"\x01\x00q");
    footer.extend(5u64.to_le_bytes());
    footer.extend(1u32.to_le_bytes());
    footer.extend(block_offset.to_le_bytes());
    footer.extend(block_len.to_le_bytes());
    expected.extend(&footer);
    expected.extend((footer.len() as u32).to_le_bytes());
    expected.extend(crc32fast::hash(&footer).to_le_bytes());
    expected.extend(b"3LWQ");
    assert_eq!(&encoded[..], &expected[..]);
}

#[test]
fn names_are_text() {
    let blocks = vec![block("index/quelle-\u{fc}/\u{2713}", 0, &["a"])];
    let encoded = encode_wal_object(&header(1), &blocks);
    assert_eq!(decode_wal_object(&encoded).unwrap().1, blocks);

    // A name that is no text is a fault, though all checksums are right.
    let encoded = encode_wal_object(&header(1), &[block("name", 0, &["a"])]);
    let footer_at = footer_range(encoded.len() as u64, &encoded[encoded.len() - TRAILER_LEN..])
        .unwrap()
        .start as usize;
    let footer_end = encoded.len() - TRAILER_LEN;
    let mut bad = encoded.to_vec();
    let name_at = footer_at
        + bad[footer_at..footer_end].windows(4).position(|bytes| bytes == b"name").unwrap();
    bad[name_at] = 0xff;
    let checksum = crc32fast::hash(&bad[footer_at..footer_end]);
    bad[footer_end + 4..footer_end + 8].copy_from_slice(&checksum.to_le_bytes());
    assert!(matches!(
        decode_footer(&bad[footer_at..]),
        Err(WalError::Corrupted(_))
    ));
}

#[test]
fn footers_of_short_objects_are_refused() {
    let object = encode_fence_object("node", 1, 0, WalId(1));
    let trailer = &object[object.len() - 12..];
    assert!(matches!(footer_range(11, trailer), Err(WalError::Corrupted(_))));
    assert!(matches!(footer_range(3, &trailer[1..]), Err(WalError::Corrupted(_))));
}
