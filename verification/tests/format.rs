//! The storage format.

use mini_obs::agent::json::{log_json, read_logs};
use mini_obs::shared::format::{
    align_up, bloom_hash, crc32, hash_path, manifest_flags, now_ms, padding_needed,
    parse_segment_name, segment_name, ChunkEntry, ChunkSummary, FormatError, LogLine,
    ManifestEntry, ManifestHeader, ParsedSegment, SegmentFooter, SegmentHeader, SegmentSummary,
    WalRecord, ALIGNMENT, CHUNK_ENTRY_SIZE, CHUNK_SUMMARY_SIZE, FORMAT_VERSION_V1,
    FORMAT_VERSION_V2, MANIFEST_ENTRY_SIZE, MOBS_MAGIC, SEGMENT_FOOTER_SIZE, SEGMENT_HEADER_SIZE,
};
use std::io;

#[test]
fn test_segment_header_v2_roundtrip() {
    let mut h = SegmentHeader::new(42, 3);
    h.set_v2_meta(5, 128, 256, 4096);
    let bytes = h.to_bytes();
    assert_eq!(bytes.len(), 64);
    let h2 = SegmentHeader::from_bytes(&bytes).unwrap();
    assert_eq!(h2.version, FORMAT_VERSION_V2);
    assert_eq!(h2.pattern_count(), 5);
    assert_eq!(h2.pattern_table_len(), 128);
    assert_eq!(h2.summary_offset(), 256);
    assert_eq!(h2.data_offset_v2(), 4096);
}

#[test]
fn test_segment_header_v1_compat() {
    let h = SegmentHeader::new_v1(7, 1);
    let bytes = h.to_bytes();
    let h2 = SegmentHeader::from_bytes(&bytes).unwrap();
    assert_eq!(h2.version, FORMAT_VERSION_V1);
    assert_eq!(h2.pattern_count(), 0);
    assert_eq!(h2.data_offset(), align_up(SEGMENT_HEADER_SIZE + CHUNK_ENTRY_SIZE, ALIGNMENT));
}

#[test]
fn test_chunk_summary_roundtrip() {
    let mut bloom = [0u8; 64];
    bloom[0] = 0xFF;
    bloom[63] = 0x01;
    let s = ChunkSummary::new(0b1010, 0b0011, bloom);
    let bytes = s.to_bytes();
    assert_eq!(bytes.len(), 80);
    let s2 = ChunkSummary::from_bytes(&bytes).unwrap();
    assert_eq!(s2.pattern_mask, 0b1010);
    assert_eq!(s2.level_mask, 0b0011);
    assert_eq!(s2.param_bloom[0], 0xFF);
    assert_eq!(s2.param_bloom[63], 0x01);
}

#[test]
fn test_chunk_summary_bloom() {
    let mut s = ChunkSummary::new(0, 0, [0; 64]);
    for seed in 0..5 {
        let pos = ChunkSummary::bloom_hash("hello", seed);
        let byte_idx = pos / 8;
        let bit_idx = pos % 8;
        s.param_bloom[byte_idx] |= 1 << bit_idx;
    }
    assert!(s.bloom_may_contain("hello"));
    assert!(!s.bloom_may_contain("world"));
}

#[test]
fn test_chunk_summary_pattern_mask() {
    let s = ChunkSummary::new(0b1010, 0, [0; 64]);
    assert!(s.may_contain_pattern(1));
    assert!(!s.may_contain_pattern(0));
    assert!(s.may_contain_pattern(65));
}

#[test]
fn test_parsed_segment_v2_layout() {
    let mut header = SegmentHeader::new(1, 1);
    let pattern_table = vec![0x01, 0x00, 0x05, b'h', b'e', b'l', b'l', b'o'];
    let chunk = ChunkEntry::new(0, 10, 100, 5, 1000, 2000);
    let summary = ChunkSummary::new(0b1, 0b0010, [0; 64]);

    let table_start = SEGMENT_HEADER_SIZE + pattern_table.len();
    let summary_start = table_start + CHUNK_ENTRY_SIZE;
    let data_offset = align_up(summary_start + CHUNK_SUMMARY_SIZE, ALIGNMENT) as u32;

    header.set_v2_meta(1, pattern_table.len() as u16, summary_start as u32, data_offset);

    let mut content = Vec::new();
    content.extend_from_slice(&header.to_bytes());
    content.extend_from_slice(&pattern_table);
    content.extend_from_slice(&chunk.to_bytes());
    content.extend_from_slice(&summary.to_bytes());
    content.resize(data_offset as usize, 0);
    content.extend_from_slice(&[0u8; 10]);

    let mut footer = SegmentFooter::new(SEGMENT_HEADER_SIZE as u32);
    footer.crc32 = crc32(&content);
    content.extend_from_slice(&footer.to_bytes());

    let seg = ParsedSegment::parse(&content).unwrap();
    assert_eq!(seg.header.version, FORMAT_VERSION_V2);
    assert_eq!(seg.chunks.len(), 1);
    assert_eq!(seg.summaries.len(), 1);
    assert_eq!(seg.summaries[0].pattern_mask, 0b1);
    assert_eq!(seg.data_offset, data_offset as usize);
}

#[test]
fn test_crc32_consistency() {
    let data = b"hello world";
    let c1 = crc32(data);
    let c2 = crc32(data);
    assert_eq!(c1, c2);
    assert_eq!(c1, 0x0d4a1185);
}

#[test]
fn test_alignment() {
    assert_eq!(align_up(64, 4096), 4096);
    assert_eq!(align_up(4096, 4096), 4096);
    assert_eq!(align_up(4097, 4096), 8192);
}

#[test]
fn test_wal_record_roundtrip() {
    let line = r#"{"t":1715424000000,"s":"ngx","l":"E","m":"test"}"#;
    let encoded = WalRecord::encode(line);
    let (decoded, rest) = WalRecord::decode(&encoded).unwrap();
    assert_eq!(decoded, line);
    assert!(rest.is_empty());
}

#[test]
fn test_segment_name_parsing() {
    assert_eq!(parse_segment_name("segment-00000042.mobs"), Some(42));
    assert_eq!(parse_segment_name("segment-12345678.mobs"), Some(12345678));
    assert_eq!(parse_segment_name("bad.txt"), None);
}

#[test]
fn test_segment_footer_roundtrip() {
    let f = SegmentFooter::new(1234);
    let bytes = f.to_bytes();
    assert_eq!(bytes.len(), SEGMENT_FOOTER_SIZE);
    let f2 = SegmentFooter::from_bytes(&bytes).unwrap();
    assert_eq!(f2.chunk_table_offset, 1234);
}

#[test]
fn test_footer_crc_verify_success() {
    let content = b"some segment content for crc";
    let mut footer = SegmentFooter::new(0);
    footer.crc32 = crc32(content);
    assert!(footer.verify(content).is_ok());
}

#[test]
fn test_footer_crc_verify_failure() {
    let content = b"some segment content for crc";
    let mut footer = SegmentFooter::new(0);
    footer.crc32 = 0xDEADBEEF;
    assert!(footer.verify(content).is_err());
}

#[test]
fn test_manifest_entry_roundtrip_with_summary() {
    let mut summary = SegmentSummary::default();
    summary.pattern_mask = 0b101010;
    summary.level_mask = 0b0011;
    summary.flags = SegmentSummary::HAS_SUMMARY;

    let entry = ManifestEntry::new(42, 1000, 2000, 256, "/data/segments/segment-00000042.mobs")
        .with_summary(&summary);

    let bytes = entry.to_bytes();
    assert_eq!(bytes.len(), MANIFEST_ENTRY_SIZE);

    let entry2 = ManifestEntry::from_bytes(&bytes).unwrap();
    assert_eq!(entry2.segment_id, 42);
    assert_eq!(entry2.min_ts, 1000);
    assert_eq!(entry2.max_ts, 2000);
    assert_eq!(entry2.line_count, 256);

    let sum2 = entry2.segment_summary();
    assert!(sum2.has_summary());
    assert_eq!(sum2.pattern_mask, 0b101010);
    assert_eq!(sum2.level_mask, 0b0011);
}

#[test]
fn test_manifest_header_roundtrip() {
    let h = ManifestHeader::new(100);
    let bytes = h.to_bytes();
    assert_eq!(bytes.len(), 9);
    let h2 = ManifestHeader::from_bytes(&bytes).unwrap();
    assert_eq!(h2.entry_count, 100);
}

#[test]
fn test_manifest_header_bad_magic() {
    let mut bytes = [0u8; 9];
    bytes[0..4].copy_from_slice(b"BAD!");
    assert!(ManifestHeader::from_bytes(&bytes).is_err());
}

#[test]
fn test_format_error_display() {
    let e = FormatError::BadMagic {
        expected: *MOBS_MAGIC,
        got: [0xDE, 0xAD, 0xBE, 0xEF],
    };
    let s = e.to_string();
    assert!(s.contains("bad magic"));

    let e2 = FormatError::CrcMismatch {
        expected: 0x12345678,
        computed: 0x87654321,
    };
    let s2 = e2.to_string();
    assert!(s2.contains("crc mismatch"));
}

#[test]
fn test_format_error_io_conversion() {
    let e = FormatError::UnexpectedEof { needed: 64, got: 10 };
    let io_err: io::Error = e.into();
    assert_eq!(io_err.kind(), io::ErrorKind::InvalidData);
}

#[test]
fn test_corrupted_segment_header_bad_magic() {
    let mut bytes = [0u8; 64];
    bytes[0..4].copy_from_slice(b"BAD!");
    assert!(SegmentHeader::from_bytes(&bytes).is_err());
}

#[test]
fn test_corrupted_segment_header_unsupported_version() {
    let h = SegmentHeader::new(1, 1);
    let mut bytes = h.to_bytes();
    bytes[4] = 99;
    assert!(SegmentHeader::from_bytes(&bytes).is_err());
}

#[test]
fn test_corrupted_segment_header_crc_mismatch() {
    let h = SegmentHeader::new(1, 1);
    let mut bytes = h.to_bytes();
    bytes[16] = bytes[16].wrapping_add(1);
    assert!(SegmentHeader::from_bytes(&bytes).is_err());
}

#[test]
fn test_corrupted_chunk_entry_eof() {
    assert!(ChunkEntry::from_bytes(&[0u8; 10]).is_err());
}

#[test]
fn test_padding_needed() {
    assert_eq!(padding_needed(64, 4096), 4032);
    assert_eq!(padding_needed(4096, 4096), 0);
    assert_eq!(padding_needed(4097, 4096), 4095);
    assert_eq!(padding_needed(0, 4096), 0);
}

#[test]
fn test_hash_path_consistency() {
    let h1 = hash_path("/var/lib/mini-obs/segments/segment-00000001.mobs");
    let h2 = hash_path("/var/lib/mini-obs/segments/segment-00000001.mobs");
    assert_eq!(h1, h2);
    let h3 = hash_path("/var/lib/mini-obs/segments/segment-00000002.mobs");
    assert_ne!(h1, h3);
}

#[test]
fn test_segment_summary_bloom_true_negative() {
    let mut summary = SegmentSummary::default();
    summary.flags = SegmentSummary::HAS_SUMMARY;
    assert!(!summary.bloom_may_contain_service("hello"));
    assert!(!summary.bloom_may_contain_param("world"));
}

#[test]
fn test_segment_summary_bloom_after_insert() {
    let mut summary = SegmentSummary::default();
    summary.flags = SegmentSummary::HAS_SUMMARY;

    for i in 0..3 {
        let pos = bloom_hash("test", i);
        let byte_idx = pos / 8;
        let bit_idx = pos % 8;
        if byte_idx < summary.service_bloom.len() {
            summary.service_bloom[byte_idx] |= 1 << bit_idx;
        }
    }

    assert!(summary.bloom_may_contain_service("test"));
}

#[test]
fn test_manifest_entry_overlaps() {
    let e = ManifestEntry::new(1, 1000, 2000, 10, "path");
    assert!(e.overlaps(500, 1500));
    assert!(e.overlaps(1500, 2500));
    assert!(e.overlaps(1200, 1800));
    assert!(!e.overlaps(0, 999));
    assert!(!e.overlaps(2001, 3000));
    assert!(e.overlaps(1000, 2000));
}

#[test]
fn test_manifest_entry_tombstone() {
    let mut e = ManifestEntry::new(1, 1000, 2000, 10, "path");
    assert!(!e.is_deleted());
    e.flags = manifest_flags::TOMBSTONE;
    assert!(e.is_deleted());
}

#[test]
fn test_wal_record_multiple() {
    let lines = vec!["line1", "line2", "line3"];
    let mut buf = Vec::new();
    for line in &lines {
        buf.extend_from_slice(&WalRecord::encode(line));
    }

    let mut rest = &buf[..];
    for expected in &lines {
        let (decoded, remaining) = WalRecord::decode(rest).unwrap();
        assert_eq!(decoded, *expected);
        rest = remaining;
    }
    assert!(rest.is_empty());
}

#[test]
fn test_wal_record_empty() {
    let enc = WalRecord::encode("");
    let (dec, rest) = WalRecord::decode(&enc).unwrap();
    assert_eq!(dec, "");
    assert!(rest.is_empty());
}

#[test]
fn test_wal_record_truncated() {
    let enc = WalRecord::encode("hello");
    assert!(WalRecord::decode(&enc[..2]).is_err());
    assert!(WalRecord::decode(&enc[..4]).is_err());
}

#[test]
fn test_parsed_segment_v1_minimal() {
    let header = SegmentHeader::new_v1(1, 1);
    let chunk = ChunkEntry::new(4096, 10, 100, 2, 1000, 2000);
    let mut content = Vec::new();
    content.extend_from_slice(&header.to_bytes());
    content.extend_from_slice(&chunk.to_bytes());
    content.resize(header.data_offset(), 0);
    content.extend_from_slice(&[0u8; 10]);

    let mut footer = SegmentFooter::new(SEGMENT_HEADER_SIZE as u32);
    footer.crc32 = crc32(&content);
    content.extend_from_slice(&footer.to_bytes());

    let seg = ParsedSegment::parse(&content).unwrap();
    assert_eq!(seg.header.version, FORMAT_VERSION_V1);
    assert_eq!(seg.chunks.len(), 1);
    assert!(seg.summaries.is_empty());
}

#[test]
fn test_parsed_segment_corrupted_footer() {
    let header = SegmentHeader::new_v1(1, 1);
    let chunk = ChunkEntry::new(4096, 10, 100, 2, 1000, 2000);
    let mut content = Vec::new();
    content.extend_from_slice(&header.to_bytes());
    content.extend_from_slice(&chunk.to_bytes());
    content.resize(header.data_offset(), 0);
    content.extend_from_slice(&[0u8; 10]);

    let mut footer = SegmentFooter::new(SEGMENT_HEADER_SIZE as u32);
    footer.crc32 = 0xBADBAD;
    content.extend_from_slice(&footer.to_bytes());

    assert!(ParsedSegment::parse(&content).is_err());
}

#[test]
fn test_logline_json_compact() {
    let log = LogLine {
        ts: 1715424000000,
        service: "auth".into(),
        level: "E".into(),
        message: "login failed".into(),
    };
    let json = log_json(&log);
    assert!(json.contains("\"t\":1715424000000"));
    assert!(json.contains("\"s\":\"auth\""));
    assert!(json.contains("\"l\":\"E\""));
    assert!(json.contains("\"m\":\"login failed\""));

    let decoded = read_logs(json.as_bytes());
    assert_eq!(decoded.len(), 1);
    assert_eq!(decoded[0].ts, log.ts);
    assert_eq!(decoded[0].service, log.service);
}

#[test]
fn clock_does_not_go_back() {
    let t1 = now_ms();
    let t2 = now_ms();
    assert!(t2 >= t1);
    assert!(t1 > 1_600_000_000_000);
}

#[test]
fn header_bytes_are_exact() {
    let h = SegmentHeader::with_time(2, 0x0403_0201, 0x0605, 0x1122);
    let b = h.to_bytes();
    assert_eq!(&b[0..8], b"MOBS\x02\x00\x05\x06");
    assert_eq!(&b[8..16], &[0x22, 0x11, 0, 0, 0, 0, 0, 0]);
    assert_eq!(&b[16..20], &[1, 2, 3, 4]);
}

#[test]
fn header_errors_name_their_cause() {
    let good = SegmentHeader::new(7, 1).to_bytes();
    assert_eq!(
        SegmentHeader::from_bytes(&good[..63]).unwrap_err(),
        FormatError::UnexpectedEof { needed: 64, got: 63 }
    );
    let mut bad = good;
    bad[0] = b'X';
    assert!(matches!(
        SegmentHeader::from_bytes(&bad).unwrap_err(),
        FormatError::BadMagic { got: [b'X', b'O', b'B', b'S'], .. }
    ));
    let mut version = good;
    version[4] = 9;
    assert!(matches!(
        SegmentHeader::from_bytes(&version).unwrap_err(),
        FormatError::UnsupportedVersion { got: 9, .. }
    ));
    let mut sum = good;
    sum[16] ^= 1;
    assert!(matches!(
        SegmentHeader::from_bytes(&sum).unwrap_err(),
        FormatError::CrcMismatch { .. }
    ));
}

#[test]
fn error_messages_are_exact() {
    let e = FormatError::BadMagic { expected: *MOBS_MAGIC, got: [0xde, 0xad, 0x0e, 0xef] };
    assert_eq!(e.to_string(), "bad magic: expected [4d, 4f, 42, 53], got [de, ad, 0e, ef]");
    let e = FormatError::UnsupportedVersion { expected: 2, got: 9 };
    assert_eq!(e.to_string(), "unsupported version: expected 2, got 9");
    let e = FormatError::UnexpectedEof { needed: 64, got: 10 };
    assert_eq!(e.to_string(), "unexpected eof: needed 64, got 10");
    let e = FormatError::CrcMismatch { expected: 0x12, computed: 0x8765_4321 };
    assert_eq!(e.to_string(), "crc mismatch: expected 00000012, computed 87654321");
    let e = FormatError::InvalidField { field: "level", value: 7 };
    assert_eq!(e.to_string(), "invalid field level: 7");
    let e = FormatError::Misaligned { offset: 65, alignment: 64 };
    assert_eq!(e.to_string(), "misaligned: offset 65 not aligned to 64");
}

#[test]
fn crc_of_known_texts() {
    assert_eq!(crc32(b""), 0);
    assert_eq!(crc32(b"123456789"), 0xcbf4_3926);
}

#[test]
fn segment_names_roundtrip() {
    assert_eq!(segment_name(42), "segment-00000042.mobs");
    assert_eq!(segment_name(u32::MAX), "segment-4294967295.mobs");
    let ids = [0u32, 1, 99_999_999, 100_000_000, u32::MAX];
    let mut i = 0;
    while i < ids.len() {
        assert_eq!(parse_segment_name(&segment_name(ids[i])), Some(ids[i]));
        i += 1;
    }
    assert_eq!(parse_segment_name("segment-4294967296.mobs"), None);
    assert_eq!(parse_segment_name("segment-.mobs"), None);
}

#[test]
fn path_hash_is_fnv1a() {
    assert_eq!(hash_path(""), 0xcbf2_9ce4_8422_2325);
    assert_eq!(hash_path("a"), 0xaf63_dc4c_8601_ec8c);
}

#[test]
fn footer_errors_name_their_cause() {
    assert_eq!(
        SegmentFooter::from_bytes(&[0u8; 7]).unwrap_err(),
        FormatError::UnexpectedEof { needed: 8, got: 7 }
    );
    let footer = SegmentFooter::new(64);
    assert_eq!(
        footer.verify(b"123456789").unwrap_err(),
        FormatError::CrcMismatch { expected: 0, computed: 0xcbf4_3926 }
    );
}

#[test]
fn folded_filter_keeps_marked_texts() {
    let mut chunk = ChunkSummary::new(0, 0, [0; 64]);
    let words = ["hello", "disk full", "42"];
    let mut i = 0;
    while i < words.len() {
        mini_obs::shared::chunk::bloom_insert(&mut chunk.param_bloom, words[i]);
        i += 1;
    }
    let summary = SegmentSummary::of_chunks(&[chunk]);
    assert!(summary.has_summary());
    let mut i = 0;
    while i < words.len() {
        assert!(chunk.bloom_may_contain(words[i]));
        assert!(summary.bloom_may_contain_param(words[i]));
        i += 1;
    }
}

#[test]
fn level_masks() {
    let s = ChunkSummary::new(0, 0b1000, [0; 64]);
    assert!(s.may_contain_level("E"));
    assert!(!s.may_contain_level("D"));
}

#[test]
fn chunk_entry_roundtrip_and_overlap() {
    let e = ChunkEntry::new(1, 2, 3, 4, 1000, 2000);
    let b = e.to_bytes();
    let back = ChunkEntry::from_bytes(&b).unwrap();
    assert_eq!(back.to_bytes(), b);
    assert_eq!(back.offset, 1);
    assert!(e.overlaps(2000, 3000));
    assert!(!e.overlaps(2001, 3000));
    assert!(!e.overlaps(0, 999));
}

#[test]
fn chunk_data_of_parsed_segments() {
    let mut header = SegmentHeader::new(1, 1);
    let chunk = ChunkEntry::new(0, 3, 3, 1, 5, 6);
    let summary = ChunkSummary::new(1, 1, [0; 64]);
    header.set_v2_meta(0, 0, 96, 4096);
    let mut content = Vec::new();
    content.extend_from_slice(&header.to_bytes());
    content.extend_from_slice(&chunk.to_bytes());
    content.extend_from_slice(&summary.to_bytes());
    content.resize(4096, 0);
    content.extend_from_slice(b"abc");
    let mut footer = SegmentFooter::new(SEGMENT_HEADER_SIZE as u32);
    footer.crc32 = crc32(&content);
    content.extend_from_slice(&footer.to_bytes());
    let seg = ParsedSegment::parse(&content).unwrap();
    assert_eq!(seg.chunk_data(&content, 0), Some(&b"abc"[..]));
    assert_eq!(seg.chunk_data(&content, 1), None);
    assert_eq!(seg.chunk_summary(0).unwrap().pattern_mask, 1);
    assert!(seg.chunk_summary(1).is_none());
}

#[test]
fn every_changed_byte_is_noticed() {
    let header = SegmentHeader::new_v1(1, 1);
    let chunk = ChunkEntry::new(4096, 10, 100, 2, 1000, 2000);
    let mut content = Vec::new();
    content.extend_from_slice(&header.to_bytes());
    content.extend_from_slice(&chunk.to_bytes());
    content.resize(header.data_offset(), 0);
    content.extend_from_slice(&[7u8; 10]);
    let mut footer = SegmentFooter::new(SEGMENT_HEADER_SIZE as u32);
    footer.crc32 = crc32(&content);
    content.extend_from_slice(&footer.to_bytes());
    assert!(ParsedSegment::parse(&content).is_ok());

    let n = content.len();
    for j in (0..200).chain(n - 30..n - 8).chain(n - 4..n) {
        let kept = content[j];
        content[j] = kept ^ 0x20;
        assert!(ParsedSegment::parse(&content).is_err(), "byte {}", j);
        content[j] = kept;
    }
    content[n - 8] ^= 0x20;
    assert!(ParsedSegment::parse(&content).is_ok());
}
