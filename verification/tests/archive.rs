use lsarc::errors::ArchiveError;
use lsarc::pack::{compress_archive, zstd_file};
use lsarc::encode::encode_archive;
use lsarc::parse::parse_archive;
use lsarc::slice::slice_size;
use lsarc::types::{ArchivedFile, PackedArchive, PackedFile, PackedOffset};

fn make_file(path: &str, data: Vec<u8>) -> PackedFile {
    PackedFile::new(path.as_bytes().to_vec(), data).unwrap()
}

fn fresh_file_with_slice(path: &str, data: Vec<u8>, slice: u64) -> PackedFile {
    PackedFile {
        pointers: Vec::new(),
        path: path.as_bytes().to_vec(),
        byte_done: 0,
        byte_size: data.len() as u64,
        bytes: data,
        done: false,
        slice,
    }
}

fn pattern_bytes(n: usize) -> Vec<u8> {
    (0..n).map(|i| (i % 251) as u8).collect()
}

#[test]
fn slice_size_boundaries() {
    assert_eq!(slice_size(1).unwrap(), 1);
    assert_eq!(slice_size(100).unwrap(), 10);
    assert_eq!(slice_size(999).unwrap(), 100);
    assert_eq!(slice_size(1000).unwrap(), 100);
}

#[test]
fn slice_size_small_values() {
    assert_eq!(slice_size(2).unwrap(), 1);
    assert_eq!(slice_size(9).unwrap(), 1);
    assert_eq!(slice_size(10).unwrap(), 1);
    assert_eq!(slice_size(11).unwrap(), 10);
    assert_eq!(slice_size(101).unwrap(), 100);
    assert_eq!(slice_size(10001).unwrap(), 10000);
}

#[test]
fn slice_size_zero_is_domain_error() {
    assert_eq!(slice_size(0), Err(ArchiveError::DomainError));
}

#[test]
fn zstd_hook_is_identity() {
    let mut b = vec![1u8, 2, 3, 4, 5];
    zstd_file(&mut b);
    assert_eq!(b, vec![1u8, 2, 3, 4, 5]);
}

#[test]
fn packed_file_new_assigns_slice() {
    let f = make_file("x.bin", pattern_bytes(100));
    assert_eq!(f.slice, 10);
    assert_eq!(f.byte_size, 100);
    assert_eq!(f.byte_done, 0);
    assert!(!f.done);
    assert!(f.pointers.is_empty());
}

#[test]
fn packed_file_new_rejects_empty() {
    match PackedFile::new(b"empty.txt".to_vec(), Vec::new()) {
        Err(ArchiveError::DomainError) => {}
        other => panic!("expected a domain error, got {:?}", other),
    }
}

#[test]
fn pointer_coverage_after_pack() {
    let mut files = vec![
        make_file("a.bin", pattern_bytes(10)),
        make_file("b.bin", pattern_bytes(1000)),
        make_file("c.bin", pattern_bytes(7)),
    ];
    let originals: Vec<(Vec<u8>, Vec<u8>)> = files
        .iter()
        .map(|f| (f.path.clone(), f.bytes.clone()))
        .collect();
    let archive = compress_archive(&mut files).unwrap();
    assert_eq!(archive.header.len(), originals.len());
    for (entry, (path, data)) in archive.header.iter().zip(originals.iter()) {
        assert_eq!(&entry.path, path);
        let total: u64 = entry.pointers.iter().map(|p| p.1 - p.0 + 1).sum();
        assert_eq!(total, data.len() as u64);
        let mut rebuilt = Vec::new();
        for p in &entry.pointers {
            rebuilt.extend_from_slice(&archive.bytes[p.0 as usize..=p.1 as usize]);
        }
        assert_eq!(&rebuilt, data);
    }
}

#[test]
fn interleaving_two_files() {
    // Sizes 10 and 1000: the sizer gives them slices 1 and 100, so each
    // needs ten rounds, and the rounds alternate one byte of the first file
    // with a hundred bytes of the second.
    let a = pattern_bytes(10);
    let b: Vec<u8> = (0..1000).map(|i| (i % 13) as u8).collect();
    let mut files = vec![make_file("a.bin", a.clone()), make_file("b.bin", b.clone())];
    assert_eq!(files[0].slice, 1);
    assert_eq!(files[1].slice, 100);
    let archive = compress_archive(&mut files).unwrap();
    assert_eq!(archive.header[0].pointers.len(), 10);
    assert_eq!(archive.header[1].pointers.len(), 10);
    assert_eq!(archive.header[0].pointers[0], PackedOffset(0, 0));
    assert_eq!(archive.header[1].pointers[0], PackedOffset(1, 100));
    assert_eq!(archive.header[0].pointers[1], PackedOffset(101, 101));
    assert_eq!(archive.bytes.len(), 1010);
    // No pointer of one file overlaps a pointer of the other.
    for p in &archive.header[0].pointers {
        for q in &archive.header[1].pointers {
            assert!(p.1 < q.0 || q.1 < p.0);
        }
    }
}

#[test]
fn interleaving_matches_schedule() {
    // A ten-byte file with a ten-byte slice finishes in its first round;
    // the thousand-byte file then owns the remaining rounds alone.
    let a = pattern_bytes(10);
    let b: Vec<u8> = (0..1000).map(|i| (i % 13) as u8).collect();
    let mut files = vec![
        fresh_file_with_slice("a.bin", a, 10),
        fresh_file_with_slice("b.bin", b, 100),
    ];
    let archive = compress_archive(&mut files).unwrap();
    assert_eq!(archive.header[0].pointers, vec![PackedOffset(0, 9)]);
    let expected: Vec<PackedOffset> = (0..10u64)
        .map(|r| PackedOffset(10 + 100 * r, 109 + 100 * r))
        .collect();
    assert_eq!(archive.header[1].pointers, expected);
}

#[test]
fn single_chunk_file_completes_in_first_round() {
    let mut files = vec![
        make_file("tiny.bin", vec![42u8]),
        make_file("big.bin", pattern_bytes(1000)),
    ];
    let archive = compress_archive(&mut files).unwrap();
    assert_eq!(archive.header[0].pointers.len(), 1);
    assert_eq!(archive.header[0].pointers[0], PackedOffset(0, 0));
    assert_eq!(archive.header[1].pointers.len(), 10);
}

#[test]
fn pack_marks_files_done() {
    let mut files = vec![make_file("a.bin", pattern_bytes(25))];
    let archive = compress_archive(&mut files).unwrap();
    assert!(files[0].done);
    assert_eq!(files[0].byte_done, 25);
    assert_eq!(files[0].pointers.len(), archive.header[0].pointers.len());
}

#[test]
fn capacity_boundary_255_chunks_pack() {
    let mut files = vec![fresh_file_with_slice("exact.bin", pattern_bytes(255), 1)];
    let archive = compress_archive(&mut files).unwrap();
    assert_eq!(archive.header[0].pointers.len(), 255);
    let encoded = encode_archive(&archive).unwrap();
    let parsed = parse_archive(&encoded).unwrap();
    assert_eq!(parsed[0].data, pattern_bytes(255));
}

#[test]
fn capacity_boundary_256_chunks_fail() {
    let mut files = vec![fresh_file_with_slice("toomany.bin", pattern_bytes(256), 1)];
    match compress_archive(&mut files) {
        Err(ArchiveError::CapacityError) => {}
        other => panic!("expected a capacity error, got {:?}", other),
    }
}

#[test]
fn pack_zero_slice_is_domain_error() {
    let mut files = vec![fresh_file_with_slice("bad.bin", pattern_bytes(5), 0)];
    match compress_archive(&mut files) {
        Err(ArchiveError::DomainError) => {}
        other => panic!("expected a domain error, got {:?}", other),
    }
}

#[test]
fn encode_rejects_oversized_pointer_count() {
    let pointers: Vec<PackedOffset> = (0..256u64).map(|i| PackedOffset(i, i)).collect();
    let archive = PackedArchive {
        header: vec![ArchivedFile { pointers, path: b"a.bin".to_vec() }],
        bytes: vec![0u8; 256],
    };
    match encode_archive(&archive) {
        Err(ArchiveError::CapacityError) => {}
        other => panic!("expected a capacity error, got {:?}", other),
    }
}

#[test]
fn offset_field_and_layout() {
    let data = pattern_bytes(42);
    let mut files = vec![make_file("f.bin", data.clone())];
    let archive = compress_archive(&mut files).unwrap();
    let encoded = encode_archive(&archive).unwrap();

    let off = u32::from_be_bytes(encoded[0..4].try_into().unwrap()) as usize;
    // Magic sits right after the offset field.
    assert_eq!(&encoded[4..10], b"LSArc1");
    // The payload begins exactly at the offset, and is the flat chunk
    // stream the packer built.
    assert_eq!(&encoded[off..], &archive.bytes[..]);
    // Entry encodings fill everything between magic and payload:
    // path, nul, count, then 16 bytes per pointer.
    let expected_entries_len = "f.bin".len() + 2 + 16 * archive.header[0].pointers.len();
    assert_eq!(off, 10 + expected_entries_len);
    assert_eq!(encoded[10..15], b"f.bin"[..]);
    assert_eq!(encoded[15], 0);
    assert_eq!(encoded[16] as usize, archive.header[0].pointers.len());
}

#[test]
fn round_trip_multiple_files() {
    let inputs: Vec<(&str, Vec<u8>)> = vec![
        ("one.txt", b"hello archive".to_vec()),
        ("two.dat", pattern_bytes(999)),
        ("three.bin", pattern_bytes(1)),
        ("four.raw", pattern_bytes(1000)),
    ];
    let mut files: Vec<PackedFile> = inputs
        .iter()
        .map(|(p, d)| make_file(p, d.clone()))
        .collect();
    let archive = compress_archive(&mut files).unwrap();
    let encoded = encode_archive(&archive).unwrap();
    let parsed = parse_archive(&encoded).unwrap();
    assert_eq!(parsed.len(), inputs.len());
    for (got, (path, data)) in parsed.iter().zip(inputs.iter()) {
        assert_eq!(got.path, path.as_bytes());
        assert_eq!(&got.data, data);
    }
}

#[test]
fn nested_path_round_trip() {
    let mut files = vec![make_file("a/b/c.txt", b"nested content".to_vec())];
    let archive = compress_archive(&mut files).unwrap();
    let encoded = encode_archive(&archive).unwrap();
    let parsed = parse_archive(&encoded).unwrap();
    assert_eq!(parsed.len(), 1);
    assert_eq!(parsed[0].path, b"a/b/c.txt".to_vec());
    assert_eq!(parsed[0].data, b"nested content".to_vec());
}

#[test]
fn parse_rejects_short_input() {
    match parse_archive(&vec![0u8; 9]) {
        Err(ArchiveError::ParseError) => {}
        other => panic!("expected a parse error, got {:?}", other),
    }
}

#[test]
fn parse_rejects_offset_past_end() {
    // Offset claims 100 bytes but the file has 10.
    let mut bytes = vec![0u8, 0, 0, 100];
    bytes.extend_from_slice(b"LSArc1");
    match parse_archive(&bytes) {
        Err(ArchiveError::ParseError) => {}
        other => panic!("expected a parse error, got {:?}", other),
    }
}

#[test]
fn parse_rejects_offset_below_preamble() {
    let mut bytes = vec![0u8, 0, 0, 4];
    bytes.extend_from_slice(b"LSArc1");
    match parse_archive(&bytes) {
        Err(ArchiveError::ParseError) => {}
        other => panic!("expected a parse error, got {:?}", other),
    }
}

#[test]
fn parse_rejects_unterminated_path() {
    // Header region holds path bytes with no zero terminator.
    let mut bytes = vec![0u8, 0, 0, 13];
    bytes.extend_from_slice(b"LSArc1");
    bytes.extend_from_slice(b"abc");
    match parse_archive(&bytes) {
        Err(ArchiveError::ParseError) => {}
        other => panic!("expected a parse error, got {:?}", other),
    }
}

#[test]
fn parse_rejects_pointer_fields_past_header() {
    // Count claims a pointer but the header region ends before it.
    let mut bytes = vec![0u8, 0, 0, 13];
    bytes.extend_from_slice(b"LSArc1");
    bytes.push(b'a');
    bytes.push(0);
    bytes.push(1);
    match parse_archive(&bytes) {
        Err(ArchiveError::ParseError) => {}
        other => panic!("expected a parse error, got {:?}", other),
    }
}

#[test]
fn parse_rejects_pointer_past_payload() {
    // One pointer (0, 5) but only a one-byte payload.
    let mut bytes = vec![0u8, 0, 0, 29];
    bytes.extend_from_slice(b"LSArc1");
    bytes.push(b'a');
    bytes.push(0);
    bytes.push(1);
    bytes.extend_from_slice(&0u64.to_be_bytes());
    bytes.extend_from_slice(&5u64.to_be_bytes());
    bytes.push(7);
    match parse_archive(&bytes) {
        Err(ArchiveError::ParseError) => {}
        other => panic!("expected a parse error, got {:?}", other),
    }
}

#[test]
fn parse_rejects_inverted_pointer() {
    // A pointer whose end lies before its start.
    let mut bytes = vec![0u8, 0, 0, 29];
    bytes.extend_from_slice(b"LSArc1");
    bytes.push(b'a');
    bytes.push(0);
    bytes.push(1);
    bytes.extend_from_slice(&3u64.to_be_bytes());
    bytes.extend_from_slice(&1u64.to_be_bytes());
    bytes.extend_from_slice(&[9u8, 9, 9, 9]);
    match parse_archive(&bytes) {
        Err(ArchiveError::ParseError) => {}
        other => panic!("expected a parse error, got {:?}", other),
    }
}

#[test]
fn parse_minimal_archive_by_hand() {
    // A hand-written archive: one file "a" whose single chunk is the whole
    // two-byte payload.
    let mut bytes = vec![0u8, 0, 0, 29];
    bytes.extend_from_slice(b"LSArc1");
    bytes.push(b'a');
    bytes.push(0);
    bytes.push(1);
    bytes.extend_from_slice(&0u64.to_be_bytes());
    bytes.extend_from_slice(&1u64.to_be_bytes());
    bytes.extend_from_slice(&[0xAB, 0xCD]);
    let parsed = parse_archive(&bytes).unwrap();
    assert_eq!(parsed.len(), 1);
    assert_eq!(parsed[0].path, b"a".to_vec());
    assert_eq!(parsed[0].data, vec![0xAB, 0xCD]);
}

#[test]
fn parse_does_not_examine_magic_content() {
    // The reader trusts the offset field and skips the magic's bytes.
    let mut bytes = vec![0u8, 0, 0, 29];
    bytes.extend_from_slice(b"XXXXXX");
    bytes.push(b'a');
    bytes.push(0);
    bytes.push(1);
    bytes.extend_from_slice(&0u64.to_be_bytes());
    bytes.extend_from_slice(&1u64.to_be_bytes());
    bytes.extend_from_slice(&[1u8, 2]);
    let parsed = parse_archive(&bytes).unwrap();
    assert_eq!(parsed[0].data, vec![1u8, 2]);
}

#[test]
fn error_descriptions() {
    assert_eq!(
        ArchiveError::DomainError.describe(),
        "zero-byte input has no chunk size"
    );
    assert_eq!(ArchiveError::CapacityError.describe(), "archive capacity exceeded");
    assert_eq!(ArchiveError::ParseError.describe(), "truncated or malformed archive");
}

#[test]
fn empty_archive_round_trip() {
    let mut files: Vec<PackedFile> = Vec::new();
    let archive = compress_archive(&mut files).unwrap();
    assert!(archive.header.is_empty());
    assert!(archive.bytes.is_empty());
    let encoded = encode_archive(&archive).unwrap();
    assert_eq!(encoded.len(), 10);
    let parsed = parse_archive(&encoded).unwrap();
    assert!(parsed.is_empty());
}
