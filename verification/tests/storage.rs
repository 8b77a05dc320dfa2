//! The storage engine.

use mini_obs::agent::chunk_legacy::read_legacy_chunk;
use mini_obs::agent::chunk_read::read_chunk;
use mini_obs::agent::chunk_text::write_chunk;
use mini_obs::agent::index::Index;
use mini_obs::agent::index_scan::SegmentFile;
use mini_obs::agent::json::log_json;
use mini_obs::agent::storage::{read_segment_size_stats, StorageEngine, WrittenSegment};
use mini_obs::agent::template::TemplateExtractor;
use mini_obs::agent::{StorageConfig, StorageStats};
use mini_obs::shared::error::DataError;
use mini_obs::shared::format::{
    crc32, ChunkEntry, FormatError, LogLine, ParsedSegment, SegmentFooter, SegmentHeader,
    SEGMENT_HEADER_SIZE,
};

/// A data directory in memory.
struct Disk {
    segments: Vec<(String, Vec<u8>)>,
    manifest: Option<Vec<u8>>,
    wal: Vec<u8>,
}

impl Disk {
    fn new() -> Disk {
        Disk { segments: Vec::new(), manifest: None, wal: Vec::new() }
    }

    fn write(&mut self, w: WrittenSegment) {
        self.segments.push((w.name, w.data));
        self.manifest = Some(w.manifest);
        self.wal.clear();
    }

    fn files(&self) -> Vec<SegmentFile<'_>> {
        self.segments
            .iter()
            .map(|s| SegmentFile { name: s.0.clone(), data: &s.1 })
            .collect()
    }
}

/// An engine with its data directory.
struct Store<'a> {
    disk: &'a mut Disk,
    engine: StorageEngine,
}

impl<'a> Store<'a> {
    fn open(disk: &'a mut Disk, config: StorageConfig) -> Result<Store<'a>, DataError> {
        let opened = {
            let files = disk.files();
            StorageEngine::open(
                "/data",
                config,
                disk.manifest.as_deref(),
                &files,
                &disk.wal,
                1_700_000_000_000,
            )?
        };
        if let Some(m) = opened.manifest {
            disk.manifest = Some(m);
        }
        if let Some(w) = opened.segment {
            disk.write(w);
        }
        Ok(Store { disk, engine: opened.engine })
    }

    fn append(&mut self, l: LogLine) -> Result<(), DataError> {
        let a = self.engine.append(l);
        self.disk.wal.extend_from_slice(&a.wal);
        if a.full {
            self.flush()?;
        }
        Ok(())
    }

    fn flush(&mut self) -> Result<(), DataError> {
        if let Some(w) = self.engine.flush(1_700_000_000_000)? {
            self.disk.write(w);
        }
        Ok(())
    }

    fn query(
        &self,
        start: u64,
        end: u64,
        keyword: &str,
        limit: usize,
    ) -> Result<Vec<LogLine>, DataError> {
        let files = self.disk.files();
        self.engine.query(start, end, keyword, limit, &files)
    }

    fn stats(&self) -> StorageStats {
        self.engine.stats()
    }
}

fn ratio_of(s: &StorageStats) -> f64 {
    s.total_original_bytes as f64 / s.total_compressed_bytes as f64
}

fn make_log(ts: u64, svc: &str, lvl: &str, msg: &str) -> LogLine {
    LogLine {
        ts,
        service: svc.to_string(),
        level: lvl.to_string(),
        message: msg.to_string(),
    }
}

#[test]
fn test_v2_write_and_query() {
    let mut dir = Disk::new();
    let cfg = StorageConfig {
        max_buffer_lines: 3,
        chunk_size: 2,
        ..Default::default()
    };
    let mut engine = Store::open(&mut dir, cfg).unwrap();

    engine.append(make_log(1000, "svc", "I", "User 12345 logged in")).unwrap();
    engine.append(make_log(2000, "svc", "I", "User 67890 logged in")).unwrap();
    engine.append(make_log(3000, "svc", "E", "Connection timeout")).unwrap();

    let stats = engine.stats();
    assert_eq!(stats.segment_count, 1);
    assert_eq!(stats.total_lines, 3);

    let all = engine.query(0, u64::MAX, "", 100).unwrap();
    assert_eq!(all.len(), 3);

    let err = engine.query(0, u64::MAX, "timeout", 100).unwrap();
    assert_eq!(err.len(), 1);
    assert_eq!(err[0].level, "E");
}

#[test]
fn test_v2_chunk_skip_filter() {
    let mut dir = Disk::new();
    let cfg = StorageConfig {
        max_buffer_lines: 10,
        chunk_size: 5,
        ..Default::default()
    };
    let mut engine = Store::open(&mut dir, cfg).unwrap();

    for i in 0..10 {
        engine
            .append(make_log(
                1000 + i as u64 * 100,
                "svc",
                "I",
                &format!("User {} logged in", i),
            ))
            .unwrap();
    }

    let none = engine.query(0, u64::MAX, "NONEXISTENT_KEYWORD_999", 100).unwrap();
    assert!(none.is_empty());
}

#[test]
fn test_v1_backward_compat() {
    let mut dir = Disk::new();

    let fake_logs = vec![
        make_log(1000, "a", "I", "alpha"),
        make_log(2000, "a", "I", "beta"),
        make_log(3000, "a", "E", "gamma"),
    ];
    let fake_json = fake_logs
        .iter()
        .map(|l| log_json(l))
        .collect::<Vec<_>>()
        .join("\n");
    let fake_compressed = zstd::encode_all(fake_json.as_bytes(), 3).unwrap();

    let header = SegmentHeader::new_v1(1, 1);
    let chunk = ChunkEntry::new(4096, fake_compressed.len() as u32, fake_json.len() as u32, 3, 1000, 3000);

    let mut content = Vec::new();
    content.extend_from_slice(&header.to_bytes());
    content.extend_from_slice(&chunk.to_bytes());
    let data_offset = header.data_offset();
    content.resize(data_offset, 0);

    content.extend_from_slice(&fake_compressed);

    let mut footer = SegmentFooter::new(SEGMENT_HEADER_SIZE as u32);
    footer.crc32 = crc32(&content);
    content.extend_from_slice(&footer.to_bytes());

    dir.segments.push(("segment-00000001.mobs".to_string(), content));

    let engine = Store::open(&mut dir, StorageConfig::default()).unwrap();
    let all = engine.query(0, u64::MAX, "", 100).unwrap();
    assert_eq!(all.len(), 3);
}

#[test]
fn test_enhanced_chunk_binary_timestamp_constant() {
    let logs: Vec<LogLine> = (0..10)
        .map(|i| make_log(1000 + i as u64 * 100, "svc", "I", &format!("msg {}", i)))
        .collect();
    let batch = TemplateExtractor::extract(&logs);
    let text_params: Vec<(u16, Vec<String>)> = batch.records.iter()
        .map(|r| (r.pat_id, r.params.iter().map(|p| p.to_string()).collect()))
        .collect();
    let binary = write_chunk(&logs, &text_params);
    let decoded = read_chunk(&binary, &batch.templates).unwrap();
    assert_eq!(decoded, logs);
}

#[test]
fn test_enhanced_chunk_binary_multiple_services() {
    let logs: Vec<LogLine> = (0..6)
        .map(|i| {
            let svc = if i % 2 == 0 { "auth" } else { "payment" };
            make_log(1000 + i as u64, svc, "I", &format!("msg {}", i))
        })
        .collect();
    let batch = TemplateExtractor::extract(&logs);
    let text_params: Vec<(u16, Vec<String>)> = batch.records.iter()
        .map(|r| (r.pat_id, r.params.iter().map(|p| p.to_string()).collect()))
        .collect();
    let binary = write_chunk(&logs, &text_params);
    let decoded = read_chunk(&binary, &batch.templates).unwrap();
    assert_eq!(decoded, logs);
}

#[test]
fn test_enhanced_chunk_binary_mixed_levels() {
    let logs: Vec<LogLine> = (0..8)
        .map(|i| {
            let lvl = match i % 4 {
                0 => "D",
                1 => "I",
                2 => "W",
                _ => "E",
            };
            make_log(1000 + i as u64 * 10, "svc", lvl, &format!("msg {}", i))
        })
        .collect();
    let batch = TemplateExtractor::extract(&logs);
    let text_params: Vec<(u16, Vec<String>)> = batch.records.iter()
        .map(|r| (r.pat_id, r.params.iter().map(|p| p.to_string()).collect()))
        .collect();
    let binary = write_chunk(&logs, &text_params);
    let decoded = read_chunk(&binary, &batch.templates).unwrap();
    assert_eq!(decoded, logs);
}

#[test]
fn test_legacy_chunk_binary_compat() {
    let logs = vec![
        make_log(1000, "svc", "I", "alpha"),
        make_log(2000, "svc", "W", "beta"),
        make_log(3000, "svc", "E", "gamma"),
    ];

    let mut binary = Vec::new();
    for log in &logs {
        binary.extend_from_slice(&log.ts.to_le_bytes());
        let svc = log.service.as_bytes();
        binary.extend_from_slice(&(svc.len() as u16).to_le_bytes());
        binary.extend_from_slice(svc);
        binary.push(log.level.as_bytes()[0]);
        binary.extend_from_slice(&0u16.to_le_bytes());
        binary.extend_from_slice(&0u16.to_le_bytes());
        binary.extend_from_slice(&0u32.to_le_bytes());
    }

    let decoded = read_legacy_chunk(&binary, &[]).unwrap();
    assert_eq!(decoded.len(), logs.len());
    for (a, b) in decoded.iter().zip(logs.iter()) {
        assert_eq!(a.ts, b.ts);
        assert_eq!(a.service, b.service);
        assert_eq!(a.level, b.level);
    }
}

#[test]
fn storage_test_wal_crash_recovery() {
    let mut dir = Disk::new();
    let cfg = StorageConfig {
        max_buffer_lines: 100,
        ..Default::default()
    };

    {
        let mut engine = Store::open(&mut dir, cfg.clone()).unwrap();
        engine.append(make_log(1000, "svc", "I", "wal line 1")).unwrap();
        engine.append(make_log(2000, "svc", "I", "wal line 2")).unwrap();
        engine.append(make_log(3000, "svc", "E", "wal line 3")).unwrap();
    }

    let engine = Store::open(&mut dir, cfg).unwrap();
    let stats = engine.stats();
    assert_eq!(stats.total_lines, 3);
    assert_eq!(stats.segment_count, 1);

    let all = engine.query(0, u64::MAX, "", 100).unwrap();
    assert_eq!(all.len(), 3);
    assert!(all.iter().any(|l| l.message == "wal line 1"));
    assert!(all.iter().any(|l| l.message == "wal line 3"));
}

#[test]
fn storage_test_auto_flush_multiple_segments() {
    let mut dir = Disk::new();
    let cfg = StorageConfig {
        max_buffer_lines: 5,
        chunk_size: 5,
        ..Default::default()
    };
    let mut engine = Store::open(&mut dir, cfg).unwrap();

    for i in 0..23 {
        engine.append(make_log(1000 + i as u64 * 100, "svc", "I", &format!("msg {}", i))).unwrap();
    }

    let stats = engine.stats();
    assert_eq!(stats.total_lines + stats.buffered_lines as u64, 23);
    assert!(stats.segment_count >= 3);
    assert_eq!(stats.buffered_lines, 3);
}

#[test]
fn storage_test_query_time_range_boundaries() {
    let mut dir = Disk::new();
    let cfg = StorageConfig {
        max_buffer_lines: 3,
        chunk_size: 3,
        ..Default::default()
    };
    let mut engine = Store::open(&mut dir, cfg).unwrap();

    engine.append(make_log(1000, "svc", "I", "alpha")).unwrap();
    engine.append(make_log(2000, "svc", "I", "beta")).unwrap();
    engine.append(make_log(3000, "svc", "E", "gamma")).unwrap();

    let exact = engine.query(1000, 3000, "", 100).unwrap();
    assert_eq!(exact.len(), 3);

    let narrow = engine.query(1500, 2500, "", 100).unwrap();
    assert_eq!(narrow.len(), 1);
    assert_eq!(narrow[0].message, "beta");

    let miss = engine.query(4000, 5000, "", 100).unwrap();
    assert!(miss.is_empty());
}

#[test]
fn storage_test_query_limit_truncation() {
    let mut dir = Disk::new();
    let cfg = StorageConfig {
        max_buffer_lines: 10,
        chunk_size: 5,
        ..Default::default()
    };
    let mut engine = Store::open(&mut dir, cfg).unwrap();

    for i in 0..20 {
        engine.append(make_log(1000 + i as u64 * 100, "svc", "I", &format!("msg {}", i))).unwrap();
    }

    let limited = engine.query(0, u64::MAX, "", 5).unwrap();
    assert_eq!(limited.len(), 5);

    let unlimited = engine.query(0, u64::MAX, "", 100).unwrap();
    assert_eq!(unlimited.len(), 20);
}

#[test]
fn storage_test_query_keyword_no_match() {
    let mut dir = Disk::new();
    let cfg = StorageConfig {
        max_buffer_lines: 5,
        chunk_size: 5,
        ..Default::default()
    };
    let mut engine = Store::open(&mut dir, cfg).unwrap();

    for i in 0..10 {
        engine.append(make_log(1000 + i as u64 * 100, "svc", "I", &format!("standard log {}", i))).unwrap();
    }

    let none = engine.query(0, u64::MAX, "NONEXISTENT_KEYWORD_12345", 100).unwrap();
    assert!(none.is_empty());
}

#[test]
fn storage_test_empty_directory_startup() {
    let mut dir = Disk::new();
    let cfg = StorageConfig::default();
    let engine = Store::open(&mut dir, cfg).unwrap();

    let stats = engine.stats();
    assert_eq!(stats.segment_count, 0);
    assert_eq!(stats.total_lines, 0);
    assert_eq!(stats.buffered_lines, 0);
}

#[test]
fn storage_test_stats_accumulation() {
    let mut dir = Disk::new();
    let cfg = StorageConfig {
        max_buffer_lines: 5,
        chunk_size: 5,
        ..Default::default()
    };
    let mut engine = Store::open(&mut dir, cfg).unwrap();

    for i in 0..15 {
        engine.append(make_log(1000 + i as u64 * 100, "svc", "I", &format!("msg {}", i))).unwrap();
    }

    let stats = engine.stats();
    assert_eq!(stats.total_lines, 15);
    assert_eq!(stats.segment_count, 3);
    assert!(stats.total_original_bytes > 0);
    assert!(stats.total_compressed_bytes > 0);
    assert!(ratio_of(&stats) > 0.0);
}

#[test]
fn storage_test_append_large_message() {
    let mut dir = Disk::new();
    let cfg = StorageConfig {
        max_buffer_lines: 2,
        chunk_size: 2,
        ..Default::default()
    };
    let mut engine = Store::open(&mut dir, cfg).unwrap();

    let big_msg = "x".repeat(1024 * 1024);
    engine.append(make_log(1000, "svc", "E", &big_msg)).unwrap();
    engine.append(make_log(2000, "svc", "E", &big_msg)).unwrap();

    let all = engine.query(0, u64::MAX, "", 100).unwrap();
    assert_eq!(all.len(), 2);
    assert_eq!(all[0].message.len(), 1024 * 1024);
}

#[test]
fn storage_test_high_frequency_append() {
    let mut dir = Disk::new();
    let cfg = StorageConfig {
        max_buffer_lines: 100,
        chunk_size: 50,
        ..Default::default()
    };
    let mut engine = Store::open(&mut dir, cfg).unwrap();

    for i in 0..1000 {
        engine.append(make_log(1000 + i as u64, "svc", "I", &format!("high freq {}", i))).unwrap();
    }

    let stats = engine.stats();
    assert_eq!(stats.total_lines, 1000);
    assert_eq!(stats.buffered_lines, 0);
}

#[test]
fn storage_test_query_keyword_in_service() {
    let mut dir = Disk::new();
    let cfg = StorageConfig {
        max_buffer_lines: 5,
        chunk_size: 5,
        ..Default::default()
    };
    let mut engine = Store::open(&mut dir, cfg).unwrap();

    engine.append(make_log(1000, "auth-service", "I", "login ok")).unwrap();
    engine.append(make_log(2000, "payment-service", "I", "pay ok")).unwrap();
    engine.append(make_log(3000, "auth-service", "E", "login fail")).unwrap();

    let auth = engine.query(0, u64::MAX, "auth", 100).unwrap();
    assert_eq!(auth.len(), 2);
}

#[test]
fn storage_test_query_keyword_in_level() {
    let mut dir = Disk::new();
    let cfg = StorageConfig {
        max_buffer_lines: 5,
        chunk_size: 5,
        ..Default::default()
    };
    let mut engine = Store::open(&mut dir, cfg).unwrap();

    for i in 0..10 {
        let lvl = if i % 3 == 0 { "E" } else { "I" };
        engine.append(make_log(1000 + i as u64 * 100, "svc", lvl, &format!("msg {}", i))).unwrap();
    }

    let errors = engine.query(0, u64::MAX, "E", 100).unwrap();
    assert!(!errors.is_empty());
}

#[test]
fn storage_test_flush_empty_buffer() {
    let mut dir = Disk::new();
    let cfg = StorageConfig::default();
    let mut engine = Store::open(&mut dir, cfg).unwrap();

    engine.flush().unwrap();

    let stats = engine.stats();
    assert_eq!(stats.segment_count, 0);
}

#[test]
fn storage_test_segment_file_corruption_graceful() {
    let mut dir = Disk::new();
    let cfg = StorageConfig {
        max_buffer_lines: 3,
        chunk_size: 3,
        ..Default::default()
    };
    let mut engine = Store::open(&mut dir, cfg).unwrap();

    engine.append(make_log(1000, "svc", "I", "msg1")).unwrap();
    engine.append(make_log(2000, "svc", "I", "msg2")).unwrap();
    engine.append(make_log(3000, "svc", "I", "msg3")).unwrap();

    assert_eq!(engine.disk.segments[0].0, "segment-00000001.mobs");
    engine.disk.segments[0].1 = b"CORRUPTED".to_vec();

    let result = engine.query(0, u64::MAX, "", 100);
    assert!(result.is_err() || result.unwrap().is_empty());
}

#[test]
fn storage_more_tests_test_wal_crash_recovery() {
    let mut dir = Disk::new();
    let cfg = StorageConfig {
        max_buffer_lines: 100,
        ..Default::default()
    };

    {
        let mut engine = Store::open(&mut dir, cfg.clone()).unwrap();
        engine.append(make_log(1000, "svc", "I", "wal line 1")).unwrap();
        engine.append(make_log(2000, "svc", "I", "wal line 2")).unwrap();
        engine.append(make_log(3000, "svc", "E", "wal line 3")).unwrap();
    }

    let engine = Store::open(&mut dir, cfg).unwrap();
    let stats = engine.stats();
    assert_eq!(stats.total_lines, 3);
    assert_eq!(stats.segment_count, 1);

    let all = engine.query(0, u64::MAX, "", 100).unwrap();
    assert_eq!(all.len(), 3);
    assert!(all.iter().any(|l| l.message == "wal line 1"));
    assert!(all.iter().any(|l| l.message == "wal line 3"));
}

#[test]
fn storage_more_tests_test_query_time_range_boundaries() {
    let mut dir = Disk::new();
    let cfg = StorageConfig {
        max_buffer_lines: 3,
        chunk_size: 3,
        ..Default::default()
    };
    let mut engine = Store::open(&mut dir, cfg).unwrap();

    engine.append(make_log(1000, "svc", "I", "alpha")).unwrap();
    engine.append(make_log(2000, "svc", "I", "beta")).unwrap();
    engine.append(make_log(3000, "svc", "E", "gamma")).unwrap();

    let exact = engine.query(1000, 3000, "", 100).unwrap();
    assert_eq!(exact.len(), 3);

    let narrow = engine.query(1500, 2500, "", 100).unwrap();
    assert_eq!(narrow.len(), 1);
    assert_eq!(narrow[0].message, "beta");

    let miss = engine.query(4000, 5000, "", 100).unwrap();
    assert!(miss.is_empty());
}

#[test]
fn storage_more_tests_test_query_limit_truncation() {
    let mut dir = Disk::new();
    let cfg = StorageConfig {
        max_buffer_lines: 10,
        chunk_size: 5,
        ..Default::default()
    };
    let mut engine = Store::open(&mut dir, cfg).unwrap();

    for i in 0..20 {
        engine.append(make_log(1000 + i as u64 * 100, "svc", "I", &format!("msg {}", i))).unwrap();
    }

    let limited = engine.query(0, u64::MAX, "", 5).unwrap();
    assert_eq!(limited.len(), 5);

    let unlimited = engine.query(0, u64::MAX, "", 100).unwrap();
    assert_eq!(unlimited.len(), 20);
}

#[test]
fn storage_more_tests_test_query_keyword_no_match() {
    let mut dir = Disk::new();
    let cfg = StorageConfig {
        max_buffer_lines: 5,
        chunk_size: 5,
        ..Default::default()
    };
    let mut engine = Store::open(&mut dir, cfg).unwrap();

    for i in 0..10 {
        engine.append(make_log(1000 + i as u64 * 100, "svc", "I", &format!("standard log {}", i))).unwrap();
    }

    let none = engine.query(0, u64::MAX, "NONEXISTENT_KEYWORD_12345", 100).unwrap();
    assert!(none.is_empty());
}

#[test]
fn storage_more_tests_test_empty_directory_startup() {
    let mut dir = Disk::new();
    let cfg = StorageConfig::default();
    let engine = Store::open(&mut dir, cfg).unwrap();

    let stats = engine.stats();
    assert_eq!(stats.segment_count, 0);
    assert_eq!(stats.total_lines, 0);
    assert_eq!(stats.buffered_lines, 0);
}

#[test]
fn storage_more_tests_test_stats_accumulation() {
    let mut dir = Disk::new();
    let cfg = StorageConfig {
        max_buffer_lines: 5,
        chunk_size: 5,
        ..Default::default()
    };
    let mut engine = Store::open(&mut dir, cfg).unwrap();

    for i in 0..15 {
        engine.append(make_log(1000 + i as u64 * 100, "svc", "I", &format!("msg {}", i))).unwrap();
    }

    let stats = engine.stats();
    assert_eq!(stats.total_lines, 15);
    assert_eq!(stats.segment_count, 3);
    assert!(stats.total_original_bytes > 0);
    assert!(stats.total_compressed_bytes > 0);
    assert!(ratio_of(&stats) > 0.0);
}

#[test]
fn storage_more_tests_test_append_large_message() {
    let mut dir = Disk::new();
    let cfg = StorageConfig {
        max_buffer_lines: 2,
        chunk_size: 2,
        ..Default::default()
    };
    let mut engine = Store::open(&mut dir, cfg).unwrap();

    let big_msg = "x".repeat(1024 * 1024);
    engine.append(make_log(1000, "svc", "E", &big_msg)).unwrap();
    engine.append(make_log(2000, "svc", "E", &big_msg)).unwrap();

    let all = engine.query(0, u64::MAX, "", 100).unwrap();
    assert_eq!(all.len(), 2);
    assert_eq!(all[0].message.len(), 1024 * 1024);
}

#[test]
fn storage_more_tests_test_high_frequency_append() {
    let mut dir = Disk::new();
    let cfg = StorageConfig {
        max_buffer_lines: 100,
        chunk_size: 50,
        ..Default::default()
    };
    let mut engine = Store::open(&mut dir, cfg).unwrap();

    for i in 0..1000 {
        engine.append(make_log(1000 + i as u64, "svc", "I", &format!("high freq {}", i))).unwrap();
    }

    let stats = engine.stats();
    assert_eq!(stats.total_lines, 1000);
    assert_eq!(stats.buffered_lines, 0);
}

#[test]
fn storage_more_tests_test_query_keyword_in_service() {
    let mut dir = Disk::new();
    let cfg = StorageConfig {
        max_buffer_lines: 5,
        chunk_size: 5,
        ..Default::default()
    };
    let mut engine = Store::open(&mut dir, cfg).unwrap();

    engine.append(make_log(1000, "auth-service", "I", "login ok")).unwrap();
    engine.append(make_log(2000, "payment-service", "I", "pay ok")).unwrap();
    engine.append(make_log(3000, "auth-service", "E", "login fail")).unwrap();

    let auth = engine.query(0, u64::MAX, "auth", 100).unwrap();
    assert_eq!(auth.len(), 2);
}

#[test]
fn storage_more_tests_test_query_keyword_in_level() {
    let mut dir = Disk::new();
    let cfg = StorageConfig {
        max_buffer_lines: 5,
        chunk_size: 5,
        ..Default::default()
    };
    let mut engine = Store::open(&mut dir, cfg).unwrap();

    for i in 0..10 {
        let lvl = if i % 3 == 0 { "E" } else { "I" };
        engine.append(make_log(1000 + i as u64 * 100, "svc", lvl, &format!("msg {}", i))).unwrap();
    }

    let errors = engine.query(0, u64::MAX, "E", 100).unwrap();
    assert!(!errors.is_empty());
}

#[test]
fn storage_more_tests_test_flush_empty_buffer() {
    let mut dir = Disk::new();
    let cfg = StorageConfig::default();
    let mut engine = Store::open(&mut dir, cfg).unwrap();

    engine.flush().unwrap();

    let stats = engine.stats();
    assert_eq!(stats.segment_count, 0);
}

#[test]
fn storage_more_tests_test_segment_file_corruption_graceful() {
    let mut dir = Disk::new();
    let cfg = StorageConfig {
        max_buffer_lines: 3,
        chunk_size: 3,
        ..Default::default()
    };
    let mut engine = Store::open(&mut dir, cfg).unwrap();

    engine.append(make_log(1000, "svc", "I", "msg1")).unwrap();
    engine.append(make_log(2000, "svc", "I", "msg2")).unwrap();
    engine.append(make_log(3000, "svc", "I", "msg3")).unwrap();

    assert_eq!(engine.disk.segments[0].0, "segment-00000001.mobs");
    engine.disk.segments[0].1 = b"CORRUPTED".to_vec();

    let result = engine.query(0, u64::MAX, "", 100);
    assert!(result.is_err() || result.unwrap().is_empty());
}

#[test]
fn test_end_to_end_write_query() {
    let mut dir = Disk::new();
    let cfg = StorageConfig {
        max_buffer_lines: 10,
        chunk_size: 5,
        ..Default::default()
    };
    let mut engine = Store::open(&mut dir, cfg).unwrap();

    for i in 0..50 {
        let lvl = match i % 4 {
            0 => "D",
            1 => "I",
            2 => "W",
            _ => "E",
        };
        let msg = if i % 5 == 0 {
            format!("ERROR: critical failure in module {}", i)
        } else {
            format!("Request {} processed successfully", i)
        };
        engine.append(make_log(1000 + i as u64 * 100, "app", lvl, &msg)).unwrap();
    }

    let all = engine.query(0, u64::MAX, "", 1000).unwrap();
    assert_eq!(all.len(), 50);

    let errors = engine.query(0, u64::MAX, "critical", 1000).unwrap();
    assert_eq!(errors.len(), 10);
    for log in &errors {
        assert!(log.message.contains("critical"));
    }

    let mid = engine.query(2000, 3000, "", 1000).unwrap();
    assert_eq!(mid.len(), 11);

    let limited = engine.query(0, u64::MAX, "", 5).unwrap();
    assert_eq!(limited.len(), 5);
}

#[test]
fn test_end_to_end_compression_ratio() {
    let mut dir = Disk::new();
    let cfg = StorageConfig {
        max_buffer_lines: 100,
        chunk_size: 50,
        compression_level: 3,
        ..Default::default()
    };
    let mut engine = Store::open(&mut dir, cfg).unwrap();

    for i in 0..1000 {
        let msg = format!(
            "User {} performed action LOGIN on resource {} at 2026-05-15T09:24:00Z from {}.{}.{}.{}",
            i,
            i % 100,
            192,
            168,
            i % 256,
            (i / 256) % 256
        );
        engine.append(make_log(1000 + i as u64 * 1000, "auth", "I", &msg)).unwrap();
    }

    let stats = engine.stats();
    let ratio = ratio_of(&stats);
    println!("End-to-end compression ratio: {:.2}x", ratio);
    assert!(ratio > 3.0, "Expected >3x compression, got {:.2}x", ratio);
}

#[test]
fn test_crash_recovery_integrity() {
    let mut dir = Disk::new();
    let cfg = StorageConfig {
        max_buffer_lines: 100,
        chunk_size: 50,
        ..Default::default()
    };

    {
        let mut engine = Store::open(&mut dir, cfg.clone()).unwrap();
        for i in 0..77 {
            engine.append(make_log(
                1000 + i as u64 * 100,
                "svc",
                if i % 7 == 0 { "E" } else { "I" },
                &format!("crash test message {}", i),
            )).unwrap();
        }
    }

    let engine = Store::open(&mut dir, cfg).unwrap();
    let stats = engine.stats();
    assert_eq!(stats.total_lines, 77);

    let all = engine.query(0, u64::MAX, "", 1000).unwrap();
    assert_eq!(all.len(), 77);

    for i in 0..77 {
        let expected_msg = format!("crash test message {}", i);
        assert!(all.iter().any(|l| l.message == expected_msg));
    }
}

#[test]
fn test_query_accuracy_with_multiple_segments() {
    let mut dir = Disk::new();
    let cfg = StorageConfig {
        max_buffer_lines: 10,
        chunk_size: 5,
        ..Default::default()
    };
    let mut engine = Store::open(&mut dir, cfg).unwrap();

    for batch in 0..5 {
        for i in 0..10 {
            let ts = batch * 10000 + i as u64 * 100;
            let msg = if i == 5 {
                format!("BATCH{} SPECIAL MARKER", batch)
            } else {
                format!("batch {} regular {}", batch, i)
            };
            engine.append(make_log(ts, "app", "I", &msg)).unwrap();
        }
    }

    let markers = engine.query(0, u64::MAX, "SPECIAL MARKER", 1000).unwrap();
    assert_eq!(markers.len(), 5);
    for (i, log) in markers.iter().enumerate() {
        assert!(log.message.contains(&format!("BATCH{} SPECIAL MARKER", 4 - i)));
    }

    let batch2 = engine.query(20000, 29999, "", 1000).unwrap();
    assert_eq!(batch2.len(), 10);
}

#[test]
fn test_index_rebuild_from_segments() {
    let mut dir = Disk::new();
    let cfg = StorageConfig {
        max_buffer_lines: 10,
        chunk_size: 10,
        ..Default::default()
    };

    {
        let mut engine = Store::open(&mut dir, cfg.clone()).unwrap();
        for i in 0..30 {
            engine.append(make_log(1000 + i as u64 * 100, "svc", "I", &format!("msg {}", i))).unwrap();
        }
    }

    assert!(dir.manifest.is_some());
    dir.manifest = None;

    let engine = Store::open(&mut dir, cfg).unwrap();
    let stats = engine.stats();
    assert_eq!(stats.total_lines, 30);
    assert_eq!(stats.segment_count, 3);

    let all = engine.query(0, u64::MAX, "", 1000).unwrap();
    assert_eq!(all.len(), 30);
}

#[test]
fn test_empty_query_no_panic() {
    let mut dir = Disk::new();
    let engine = Store::open(&mut dir, StorageConfig::default()).unwrap();

    let empty = engine.query(0, u64::MAX, "", 100).unwrap();
    assert!(empty.is_empty());

    let no_match = engine.query(0, u64::MAX, "impossible", 100).unwrap();
    assert!(no_match.is_empty());
}

#[test]
fn test_unicode_message_roundtrip() {
    let mut dir = Disk::new();
    let mut engine = Store::open(&mut dir, StorageConfig::default()).unwrap();

    let msgs = vec![
        "中文测试消息",
        "日本語テストメッセージ",
        "한국어 테스트 메시지",
        "🎉🎊🎁 Emoji party! 🌍🌎🌏",
        "Arabic: مرحبا بالعالم",
        "Russian: Привет мир",
    ];

    for (i, msg) in msgs.iter().enumerate() {
        engine.append(make_log(1000 + i as u64 * 100, "svc", "I", msg)).unwrap();
    }

    let all = engine.query(0, u64::MAX, "", 100).unwrap();
    assert_eq!(all.len(), 6);
    for (expected, actual) in msgs.iter().zip(all.iter().rev()) {
        assert_eq!(actual.message, *expected);
    }
}

#[test]
fn test_crash_recovery_simulation() {
    let mut dir = Disk::new();

    {
        let mut engine = Store::open(
            &mut dir,
            StorageConfig {
                max_buffer_lines: 10000,
                ..Default::default()
            },
        )
        .unwrap();
        for i in 0..42 {
            engine
                .append(LogLine {
                    ts: i as u64 * 100,
                    service: "svc".into(),
                    level: "I".into(),
                    message: format!("crash test {}", i),
                })
                .unwrap();
        }
    }

    let engine = Store::open(&mut dir, StorageConfig::default()).unwrap();
    let stats = engine.stats();
    assert_eq!(stats.total_lines, 42);
    assert_eq!(stats.buffered_lines, 0);

    let all = engine.query(0, u64::MAX, "crash", 100).unwrap();
    assert_eq!(all.len(), 42);
}

#[test]
fn segment_files_parse_as_segments() {
    let mut dir = Disk::new();
    {
        let mut store = Store::open(&mut dir, StorageConfig::default()).unwrap();
        store.append(make_log(30, "a", "E", "User 1 logged in")).unwrap();
        store.append(make_log(10, "b", "I", "User 2 logged in")).unwrap();
        store.flush().unwrap();
    }
    assert_eq!(dir.segments.len(), 1);
    assert_eq!(dir.segments[0].0, "segment-00000001.mobs");
    let data = &dir.segments[0].1;
    let seg = ParsedSegment::parse(data).unwrap();
    assert_eq!(seg.header.segment_id, 1);
    assert_eq!(seg.header.created_at, 1_700_000_000_000);
    assert_eq!(seg.chunks.len(), 1);
    assert_eq!(seg.chunks[0].line_count, 2);
    assert_eq!(seg.chunks[0].min_ts, 10);
    assert_eq!(seg.chunks[0].max_ts, 30);
    assert_eq!(seg.summaries[0].pattern_mask, 1);
    assert!(seg.summaries[0].may_contain_level("E"));
    assert!(seg.summaries[0].bloom_may_contain("User 2 logged in"));
    let (original, compressed) = read_segment_size_stats(data).unwrap();
    assert_eq!(original, seg.chunks[0].original_sz as u64);
    assert_eq!(compressed, seg.chunks[0].compressed_sz as u64);
}

#[test]
fn many_chunks_with_a_dictionary() {
    let mut dir = Disk::new();
    let config = StorageConfig {
        max_buffer_lines: 100_000,
        max_buffer_bytes: 100_000_000,
        chunk_size: 50,
        single_chunk_threshold_lines: 10,
        dict_training_min_chunks: 2,
        ..Default::default()
    };
    let mut store = Store::open(&mut dir, config).unwrap();
    for i in 0..2000u64 {
        store
            .append(make_log(
                i,
                "svc",
                "I",
                &format!("Request {} from node-{} took {} ms with status {}", i, i % 7, i % 90, i % 5),
            ))
            .unwrap();
    }
    store.flush().unwrap();
    let seg = ParsedSegment::parse(&store.disk.segments[0].1).unwrap();
    assert_eq!(seg.chunks.len(), 40);
    assert!(seg.header.dict_len() > 0);
    let all = store.query(0, u64::MAX, "", 10_000).unwrap();
    assert_eq!(all.len(), 2000);
    assert_eq!(all[0].ts, 1999);
    assert_eq!(all[0].message, "Request 1999 from node-4 took 19 ms with status 4");
    assert_eq!(all[1999].ts, 0);
    let some = store.query(100, 199, "node-3", 10_000).unwrap();
    assert_eq!(some.len(), (100..200).filter(|i| i % 7 == 3).count());
}

#[test]
fn buffered_and_written_lines_are_found_together() {
    let mut dir = Disk::new();
    let mut store = Store::open(&mut dir, StorageConfig::default()).unwrap();
    store.append(make_log(20, "svc", "I", "written x")).unwrap();
    store.flush().unwrap();
    store.append(make_log(10, "svc", "I", "buffered x")).unwrap();
    store.append(make_log(30, "svc", "I", "buffered x")).unwrap();
    let all = store.query(0, 100, "x", 10).unwrap();
    assert_eq!(all.iter().map(|l| l.ts).collect::<Vec<_>>(), vec![30, 20, 10]);
    let two = store.query(0, 100, "x", 2).unwrap();
    assert_eq!(two.iter().map(|l| l.ts).collect::<Vec<_>>(), vec![20, 10]);
    assert!(store.query(0, 100, "x", 0).unwrap().is_empty());
}

#[test]
fn levels_are_kept_as_their_codes() {
    let mut dir = Disk::new();
    let mut store = Store::open(&mut dir, StorageConfig::default()).unwrap();
    store.append(make_log(1, "svc", "D", "a")).unwrap();
    store.append(make_log(2, "svc", "X", "b")).unwrap();
    store.flush().unwrap();
    let all = store.query(0, 100, "", 10).unwrap();
    assert_eq!(all[1].level, "D");
    assert_eq!(all[0].level, "I");
}

#[test]
fn appended_bytes_and_full_buffers() {
    let mut dir = Disk::new();
    let config = StorageConfig { max_buffer_bytes: 100, ..Default::default() };
    let mut store = Store::open(&mut dir, config).unwrap();
    let a = store.engine.append(make_log(1, "s", "I", "m"));
    assert_eq!(a.wal, b"{\"t\":1,\"s\":\"s\",\"l\":\"I\",\"m\":\"m\"}\n");
    assert!(!a.full);
    assert_eq!(store.stats().buffered_bytes, a.wal.len());
    let b = store.engine.append(make_log(2, "s", "I", &"y".repeat(100)));
    assert!(b.full);
}

#[test]
fn missing_and_damaged_files_are_errors() {
    let mut dir = Disk::new();
    let mut store = Store::open(&mut dir, StorageConfig::default()).unwrap();
    store.append(make_log(1, "s", "I", "m")).unwrap();
    store.flush().unwrap();
    let saved = store.disk.segments[0].1.clone();
    let n = saved.len();
    store.disk.segments[0].1[n - 20] ^= 1;
    assert!(matches!(
        store.query(0, 9, "", 9).unwrap_err(),
        DataError::Format(FormatError::CrcMismatch { .. })
    ));
    store.disk.segments[0].1 = saved[..100].to_vec();
    assert_eq!(store.query(0, 9, "", 9).unwrap_err(), DataError::SegmentTooShort);
    store.disk.segments[0].1 = saved.clone();
    store.disk.segments[0].1[4] = 9;
    assert!(matches!(
        store.query(0, 9, "", 9).unwrap_err(),
        DataError::Format(FormatError::UnsupportedVersion { got: 9, .. })
    ));
    store.disk.segments.clear();
    assert_eq!(store.query(0, 9, "", 9).unwrap_err(), DataError::SegmentMissing);
    assert!(store.query(5, 9, "", 9).unwrap().is_empty());
    assert_eq!(read_segment_size_stats(&saved[..71]), Some((0, 0)));
    assert_eq!(read_segment_size_stats(&[0u8; 72]), None);
}

#[test]
fn engine_errors_name_their_cause() {
    let mut dir = Disk::new();
    let config = StorageConfig {
        chunk_size: 0,
        single_chunk_threshold_lines: 0,
        ..Default::default()
    };
    let mut store = Store::open(&mut dir, config).unwrap();
    store.append(make_log(1, "s", "I", "m")).unwrap();
    assert_eq!(store.flush().unwrap_err(), DataError::EmptyChunks);
    assert_eq!(store.stats().buffered_lines, 1);
    store.engine.index.next_id = u32::MAX;
    assert_eq!(store.flush().unwrap_err(), DataError::SegmentNumbersExhausted);
}

#[test]
fn damaged_chunks_are_errors() {
    let logs = vec![make_log(5, "a", "I", "User 1 in"), make_log(7, "b", "W", "User 2 in")];
    let batch = TemplateExtractor::extract(&logs);
    let params: Vec<(u16, Vec<String>)> = batch
        .records
        .iter()
        .map(|r| (r.pat_id, r.params.iter().map(|p| p.to_string()).collect()))
        .collect();
    let binary = write_chunk(&logs, &params);
    assert_eq!(read_chunk(&binary, &batch.templates).unwrap(), logs);
    let mut n = 0;
    while n < binary.len() {
        assert!(read_chunk(&binary[..n], &batch.templates).is_err() || n == 0);
        n += 1;
    }
    assert_eq!(
        read_chunk(&binary[..6], &batch.templates).unwrap_err(),
        DataError::ChunkTruncated
    );
}

#[test]
fn index_learns_templates_of_written_segments() {
    let mut dir = Disk::new();
    {
        let mut store = Store::open(&mut dir, StorageConfig::default()).unwrap();
        for i in 0..5u64 {
            store.append(make_log(i, "svc", "I", "Cache warmed up")).unwrap();
        }
        store.flush().unwrap();
        let idx = &store.engine.index;
        assert!(idx.may_exist(0, 100, "warmed"));
        assert!(idx.may_exist(0, 100, "Cache"));
        assert!(idx.may_exist(0, 100, "arm"));
        assert!(idx.may_exist(0, 100, "warmed up"));
        assert!(!idx.may_exist(0, 100, "cache"));
        assert!(!idx.may_exist(0, 100, "zebra"));
        assert!(!idx.may_exist(200, 300, "warmed"));
        assert_eq!(idx.keyword_to_patterns.table(1).unwrap().len(), 1);
        assert!(idx.keyword_to_patterns.table(2).is_none());
        assert_eq!(idx.count_at_least(0, 100, "warmed"), 5);
        assert_eq!(idx.count_at_least(0, 100, "arm"), 5);
        assert_eq!(idx.count_at_least(0, 100, "cache"), 0);
        assert_eq!(idx.count_at_least(0, 100, "INFO"), 1);
        assert_eq!(idx.count_at_least(2, 100, "warmed"), 0);
    }
    let files = dir.files();
    let (again, _) = Index::open("/data", dir.manifest.as_deref(), &files);
    assert!(again.may_exist(0, 100, "warmed"));
    assert!(!again.may_exist(0, 100, "zebra"));
    assert_eq!(again.count_at_least(0, 100, "warmed"), 5);
    let (rescanned, saved) = Index::open("/data", None, &files);
    assert!(rescanned.may_exist(0, 100, "warmed"));
    assert!(!rescanned.may_exist(0, 100, "zebra"));
    assert!(saved.is_some());
    assert_eq!(rescanned.stats().total_lines, 5);
    assert_eq!(rescanned.stats().max_ts, Some(4));
    let (unread, _) = Index::open("/data", dir.manifest.as_deref(), &[]);
    assert!(unread.may_exist(0, 100, "zebra"));
    assert_eq!(unread.count_at_least(0, 100, "warmed"), 0);
}

#[test]
fn parameters_and_parts_of_words_may_exist() {
    let mut dir = Disk::new();
    let mut store = Store::open(&mut dir, StorageConfig::default()).unwrap();
    for i in 0..5u64 {
        store.append(make_log(i, "svc", "I", &format!("User {} logged in", 4711 + i))).unwrap();
    }
    store.flush().unwrap();
    let idx = &store.engine.index;
    for keyword in ["User", "ser", "4713", "47", "13 log", "logged in", "User 4713 logged in"] {
        assert!(idx.may_exist(0, 100, keyword), "{}", keyword);
        assert!(!store.query(0, 100, keyword, 10).unwrap().is_empty(), "{}", keyword);
    }
    let summary = idx.segments[0].summary;
    assert!(summary.bloom_may_contain_param("4711"));
    assert!(summary.bloom_may_contain_param("4715"));
    assert!(summary.bloom_may_contain_param("User 4715 logged in"));
}

#[test]
fn counts_are_lower_bounds() {
    let mut dir = Disk::new();
    let mut store = Store::open(&mut dir, StorageConfig::default()).unwrap();
    store.append(make_log(1, "svc", "I", "ping ping")).unwrap();
    store.flush().unwrap();
    assert_eq!(store.engine.index.count_at_least(0, 100, "ping"), 1);
    store.append(make_log(10, "svc", "W", "queue is empty")).unwrap();
    store.append(make_log(20, "svc", "W", "ping")).unwrap();
    store.flush().unwrap();
    let idx = &store.engine.index;
    assert_eq!(idx.count_at_least(0, 100, "ping"), 2);
    assert_eq!(idx.count_at_least(0, 15, "ping"), 1);
    assert_eq!(idx.count_at_least(10, 20, "ping"), 1);
    assert_eq!(idx.count_at_least(0, 100, "queue"), 1);
    assert_eq!(idx.count_at_least(0, 100, "W"), 1);
    assert_eq!(idx.count_at_least(15, 100, "W"), 0);
    assert_eq!(idx.count_at_least(0, 100, "Ping"), 0);
}

#[test]
fn templates_that_are_not_kept_may_exist() {
    let mut dir = Disk::new();
    let mut store = Store::open(&mut dir, StorageConfig::default()).unwrap();
    for i in 0..80u64 {
        let mut message = String::new();
        for k in 0..(i + 1) {
            message.push_str(if k % 2 == 0 { "alpha " } else { "beta " });
        }
        message.push_str(&format!("{}end", (b'a' + (i % 26) as u8) as char));
        store.append(make_log(i, "svc", "I", &message)).unwrap();
    }
    store.flush().unwrap();
    let idx = &store.engine.index;
    assert_eq!(idx.keyword_to_patterns.table(1).unwrap().len(), 80);
    for i in 0..26u8 {
        assert!(idx.may_exist(0, 100, &format!("{}end", (b'a' + i) as char)));
    }
    assert!(idx.count_at_least(0, 100, "alpha") <= 80);
}

#[test]
fn no_appended_line_is_lost_or_counted_twice() {
    let mut dir = Disk::new();
    let cfg = StorageConfig { max_buffer_lines: 7, chunk_size: 3, ..Default::default() };
    let mut store = Store::open(&mut dir, cfg).unwrap();
    for k in 1..=40u64 {
        store.append(make_log(k, "svc", "I", &format!("line {}", k))).unwrap();
        let stats = store.stats();
        assert_eq!(stats.total_lines + stats.buffered_lines as u64, k);
        assert!(stats.buffered_lines < 7);
    }
    assert_eq!(store.stats().segment_count, 5);
}

#[test]
fn very_large_messages_come_back() {
    let mut dir = Disk::new();
    let cfg = StorageConfig { max_buffer_lines: 2, chunk_size: 2, ..Default::default() };
    let mut engine = Store::open(&mut dir, cfg).unwrap();
    let big = "X".repeat(5 * 1024 * 1024);
    engine.append(make_log(1000, "svc", "E", &big)).unwrap();
    engine.append(make_log(2000, "svc", "E", "small")).unwrap();
    let all = engine.query(0, u64::MAX, "", 100).unwrap();
    assert_eq!(all.len(), 2);
    assert_eq!(all[1].message.len(), 5 * 1024 * 1024);
    assert_eq!(all[0].message, "small");
}

#[test]
fn bulk_writes_are_all_counted() {
    let mut dir = Disk::new();
    let cfg = StorageConfig { max_buffer_lines: 10000, chunk_size: 5000, ..Default::default() };
    let mut engine = Store::open(&mut dir, cfg).unwrap();
    for i in 0..10000u64 {
        engine.append(make_log(
            1000 + i,
            "perf",
            "I",
            &format!("Performance test log entry number {} with some padding", i),
        )).unwrap();
    }
    let stats = engine.stats();
    assert_eq!(stats.total_lines + stats.buffered_lines as u64, 10000);
    engine.flush().unwrap();
    assert_eq!(engine.stats().total_lines, 10000);
}

#[test]
fn a_chunk_without_the_keyword_does_not_hide_the_others() {
    let mut dir = Disk::new();
    let cfg = StorageConfig {
        chunk_size: 2,
        single_chunk_threshold_lines: 0,
        single_chunk_threshold_bytes: 0,
        ..Default::default()
    };
    let mut store = Store::open(&mut dir, cfg).unwrap();
    store.append(make_log(1, "svc", "I", "all quiet")).unwrap();
    store.append(make_log(2, "svc", "I", "all quiet")).unwrap();
    store.append(make_log(3, "svc", "I", "needle found here")).unwrap();
    store.append(make_log(4, "svc", "I", "all quiet")).unwrap();
    store.flush().unwrap();
    let found = store.query(0, 100, "needle", 10).unwrap();
    assert_eq!(found.len(), 1);
    assert_eq!(found[0].ts, 3);
}

#[test]
fn sizes_are_counted_again_on_opening() {
    let mut dir = Disk::new();
    let before = {
        let mut store = Store::open(&mut dir, StorageConfig::default()).unwrap();
        store.append(make_log(1, "s", "I", "some message")).unwrap();
        store.flush().unwrap();
        store.stats()
    };
    let after = Store::open(&mut dir, StorageConfig::default()).unwrap().stats();
    assert_eq!(after.total_original_bytes, before.total_original_bytes);
    assert_eq!(after.total_compressed_bytes, before.total_compressed_bytes);
    assert_eq!(after.total_lines, 1);
}

#[test]
fn scanning_the_files_gives_the_index_again() {
    let mut dir = Disk::new();
    let cfg = StorageConfig { chunk_size: 4, ..Default::default() };
    {
        let mut store = Store::open(&mut dir, cfg).unwrap();
        for i in 0..10u64 {
            store.append(make_log(50 - i, "svc", "W", &format!("disk {} full", i))).unwrap();
        }
        store.flush().unwrap();
        store.append(make_log(7, "api", "E", "no answer")).unwrap();
        store.flush().unwrap();
    }
    let files = dir.files();
    let (kept, saved) = Index::open("/data", dir.manifest.as_deref(), &files);
    assert!(saved.is_none());
    let (scanned, written) = Index::open("/data", None, &files);
    assert_eq!(written, dir.manifest);
    assert_eq!(scanned.segments.len(), 2);
    for (a, b) in kept.segments.iter().zip(scanned.segments.iter()) {
        assert_eq!(a.id, b.id);
        assert_eq!((a.min_ts, a.max_ts, a.line_count), (b.min_ts, b.max_ts, b.line_count));
        assert_eq!(a.summary.pattern_mask, b.summary.pattern_mask);
        assert_eq!(a.summary.level_mask, b.summary.level_mask);
        assert_eq!(a.summary.param_bloom, b.summary.param_bloom);
    }
    assert_eq!((scanned.segments[0].min_ts, scanned.segments[0].max_ts), (41, 50));
    assert_eq!(scanned.segments[0].line_count, 10);
}

#[test]
fn a_rebuilt_index_denies_and_counts_as_before() {
    let mut dir = Disk::new();
    {
        let mut store = Store::open(&mut dir, StorageConfig::default()).unwrap();
        for i in 0..3u64 {
            store.append(make_log(i, "svc", "W", "Cache warmed up")).unwrap();
        }
        store.flush().unwrap();
    }
    let files = dir.files();
    let (mut idx, _) = Index::open("/data", None, &[]);
    idx.add_segment(9, 5, 6, 7);
    assert!(idx.may_exist(0, 100, "zebra"));
    assert_eq!(Some(idx.rebuild(&files)), dir.manifest);
    assert!(!idx.may_exist(0, 100, "zebra"));
    assert!(idx.may_exist(0, 100, "warm"));
    assert!(idx.may_exist(0, 100, "warn"));
    assert_eq!(idx.count_at_least(0, 100, "warm"), 3);
    assert_eq!(idx.next_id, 2);
}
