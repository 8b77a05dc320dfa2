//! The index of the segments.

use mini_obs::agent::index::Index;
use mini_obs::agent::index_scan::SegmentFile;
use mini_obs::agent::manifest_file::{read_manifest, write_manifest};
use mini_obs::shared::error::DataError;
use mini_obs::shared::format::{ManifestEntry, SegmentSummary};

#[test]
fn test_may_exist_level_exact() {
    let mut summary = SegmentSummary::default();
    summary.level_mask = 0b0100;
    summary.flags = SegmentSummary::HAS_SUMMARY;

    let (mut idx, _) = Index::open("/data", None, &[]);
    idx.add_segment_with_summary(1, 1000, 2000, 100, summary, None);

    assert!(idx.may_exist(0, u64::MAX, "WARN"));
    assert!(idx.may_exist(0, u64::MAX, "W"));
    assert!(!idx.may_exist(0, u64::MAX, "ERROR"));
    assert!(!idx.may_exist(0, u64::MAX, "E"));
}

#[test]
fn test_count_at_least_single_template() {
    let mut summary = SegmentSummary::default();
    summary.pattern_mask = 0b1;
    summary.flags = SegmentSummary::HAS_SUMMARY;

    let (mut idx, _) = Index::open("/data", None, &[]);
    idx.add_segment_with_summary(1, 1000, 2000, 256, summary, None);

    let count = idx.count_at_least(0, u64::MAX, "UNKNOWN");
    assert_eq!(count, 0);
}

#[test]
fn test_count_at_least_level_only() {
    let mut summary = SegmentSummary::default();
    summary.level_mask = 0b1000;
    summary.flags = SegmentSummary::HAS_SUMMARY;

    let (mut idx, _) = Index::open("/data", None, &[]);
    idx.add_segment_with_summary(1, 1000, 2000, 100, summary, None);

    let count = idx.count_at_least(0, u64::MAX, "ERROR");
    assert_eq!(count, 1);
}

#[test]
fn test_old_segment_compat() {
    let (mut idx, _) = Index::open("/data", None, &[]);
    idx.add_segment(1, 1000, 2000, 100);

    assert!(idx.may_exist(0, u64::MAX, "ANYTHING"));
    assert_eq!(idx.count_at_least(0, u64::MAX, "ANYTHING"), 0);
}

#[test]
fn index_test_query_range_empty() {
    let (idx, _) = Index::open("/data", None, &[]);
    let result = idx.query_range(0, u64::MAX);
    assert!(result.is_empty());
}

#[test]
fn index_test_query_range_single_segment() {
    let (mut idx, _) = Index::open("/data", None, &[]);
    idx.add_segment(1, 1000, 2000, 100);

    let all = idx.query_range(0, u64::MAX);
    assert_eq!(all.len(), 1);
    assert_eq!(all[0].segment_id, 1);

    let hit = idx.query_range(1500, 2500);
    assert_eq!(hit.len(), 1);

    let miss = idx.query_range(3000, 4000);
    assert!(miss.is_empty());
}

#[test]
fn index_test_query_range_multiple_segments_sorted() {
    let (mut idx, _) = Index::open("/data", None, &[]);
    idx.add_segment(1, 1000, 2000, 100);
    idx.add_segment(2, 1500, 2500, 200);
    idx.add_segment(3, 3000, 4000, 150);

    let result = idx.query_range(1200, 3500);
    assert_eq!(result.len(), 3);
    assert_eq!(result[0].segment_id, 3);
    assert_eq!(result[1].segment_id, 2);
    assert_eq!(result[2].segment_id, 1);
}

#[test]
fn index_test_query_by_id_found() {
    let (mut idx, _) = Index::open("/data", None, &[]);
    idx.add_segment(42, 1000, 2000, 100);

    let found = idx.query_by_id(42);
    assert!(found.is_some());
    assert_eq!(found.unwrap().segment_id, 42);
}

#[test]
fn index_test_query_by_id_not_found() {
    let (mut idx, _) = Index::open("/data", None, &[]);
    idx.add_segment(1, 1000, 2000, 100);

    assert!(idx.query_by_id(99).is_none());
}

#[test]
fn index_test_next_segment_id_monotonic() {
    let (mut idx, _) = Index::open("/data", None, &[]);
    let id1 = idx.next_segment_id();
    let id2 = idx.next_segment_id();
    let id3 = idx.next_segment_id();

    assert_eq!(id2, id1 + 1);
    assert_eq!(id3, id2 + 1);
}

#[test]
fn index_test_stats_calculation() {
    let (mut idx, _) = Index::open("/data", None, &[]);
    idx.add_segment(1, 1000, 2000, 100);
    idx.add_segment(2, 500, 1500, 200);
    idx.add_segment(3, 3000, 4000, 50);

    let stats = idx.stats();
    assert_eq!(stats.segment_count, 3);
    assert_eq!(stats.total_lines, 350);
    assert_eq!(stats.min_ts, Some(500));
    assert_eq!(stats.max_ts, Some(4000));
}

#[test]
fn index_test_may_exist_pattern_match() {
    let mut summary = SegmentSummary::default();
    summary.pattern_mask = 0b1;
    summary.flags = SegmentSummary::HAS_SUMMARY;

    let (mut idx, _) = Index::open("/data", None, &[]);
    idx.keyword_to_patterns.insert("logged".to_string(), vec![0]);
    idx.add_segment_with_summary(1, 1000, 2000, 100, summary, None);

    assert!(idx.may_exist(0, u64::MAX, "logged"));
}

#[test]
fn index_test_count_at_least_multi_template() {
    let mut summary = SegmentSummary::default();
    summary.pattern_mask = 0b11;
    summary.level_mask = 0b0010;
    summary.flags = SegmentSummary::HAS_SUMMARY;

    let (mut idx, _) = Index::open("/data", None, &[]);
    idx.keyword_to_patterns.insert("login".to_string(), vec![0]);
    idx.keyword_to_patterns.insert("query".to_string(), vec![1]);
    idx.add_segment_with_summary(1, 1000, 2000, 256, summary, None);

    let count_login = idx.count_at_least(0, u64::MAX, "login");
    let count_query = idx.count_at_least(0, u64::MAX, "query");
    assert_eq!(count_login, 1);
    assert_eq!(count_query, 1);
}

#[test]
fn index_test_rebuild_function() {
    let (mut idx, _) = Index::open("/data", None, &[]);
    idx.add_segment(1, 1000, 2000, 100);
    idx.add_segment(2, 3000, 4000, 200);

    idx.rebuild(&[]);

    let stats = idx.stats();
    assert_eq!(stats.segment_count, 0);
    assert_eq!(stats.total_lines, 0);
}

#[test]
fn index_test_manifest_entry_time_overlap_boundaries() {
    let e = ManifestEntry::new(1, 1000, 2000, 10, "path");
    assert!(e.overlaps(1000, 2000));
    assert!(e.overlaps(2000, 3000));
    assert!(e.overlaps(0, 1000));
}

#[test]
fn index_more_tests_test_query_range_empty() {
    let (idx, _) = Index::open("/data", None, &[]);
    let result = idx.query_range(0, u64::MAX);
    assert!(result.is_empty());
}

#[test]
fn index_more_tests_test_query_range_single_segment() {
    let (mut idx, _) = Index::open("/data", None, &[]);
    idx.add_segment(1, 1000, 2000, 100);

    let all = idx.query_range(0, u64::MAX);
    assert_eq!(all.len(), 1);
    assert_eq!(all[0].segment_id, 1);

    let hit = idx.query_range(1500, 2500);
    assert_eq!(hit.len(), 1);

    let miss = idx.query_range(3000, 4000);
    assert!(miss.is_empty());
}

#[test]
fn index_more_tests_test_query_range_multiple_segments_sorted() {
    let (mut idx, _) = Index::open("/data", None, &[]);
    idx.add_segment(1, 1000, 2000, 100);
    idx.add_segment(2, 1500, 2500, 200);
    idx.add_segment(3, 3000, 4000, 150);

    let result = idx.query_range(1200, 3500);
    assert_eq!(result.len(), 3);
    assert_eq!(result[0].segment_id, 3);
    assert_eq!(result[1].segment_id, 2);
    assert_eq!(result[2].segment_id, 1);
}

#[test]
fn index_more_tests_test_query_by_id_found() {
    let (mut idx, _) = Index::open("/data", None, &[]);
    idx.add_segment(42, 1000, 2000, 100);

    let found = idx.query_by_id(42);
    assert!(found.is_some());
    assert_eq!(found.unwrap().segment_id, 42);
}

#[test]
fn index_more_tests_test_query_by_id_not_found() {
    let (mut idx, _) = Index::open("/data", None, &[]);
    idx.add_segment(1, 1000, 2000, 100);

    assert!(idx.query_by_id(99).is_none());
}

#[test]
fn index_more_tests_test_next_segment_id_monotonic() {
    let (mut idx, _) = Index::open("/data", None, &[]);
    let id1 = idx.next_segment_id();
    let id2 = idx.next_segment_id();
    let id3 = idx.next_segment_id();

    assert_eq!(id2, id1 + 1);
    assert_eq!(id3, id2 + 1);
}

#[test]
fn index_more_tests_test_stats_calculation() {
    let (mut idx, _) = Index::open("/data", None, &[]);
    idx.add_segment(1, 1000, 2000, 100);
    idx.add_segment(2, 500, 1500, 200);
    idx.add_segment(3, 3000, 4000, 50);

    let stats = idx.stats();
    assert_eq!(stats.segment_count, 3);
    assert_eq!(stats.total_lines, 350);
    assert_eq!(stats.min_ts, Some(500));
    assert_eq!(stats.max_ts, Some(4000));
}

#[test]
fn index_more_tests_test_may_exist_pattern_match() {
    let mut summary = SegmentSummary::default();
    summary.pattern_mask = 0b1;
    summary.flags = SegmentSummary::HAS_SUMMARY;

    let (mut idx, _) = Index::open("/data", None, &[]);
    idx.keyword_to_patterns.insert("logged".to_string(), vec![0]);
    idx.add_segment_with_summary(1, 1000, 2000, 100, summary, None);

    assert!(idx.may_exist(0, u64::MAX, "logged"));
}

#[test]
fn index_more_tests_test_count_at_least_multi_template() {
    let mut summary = SegmentSummary::default();
    summary.pattern_mask = 0b11;
    summary.level_mask = 0b0010;
    summary.flags = SegmentSummary::HAS_SUMMARY;

    let (mut idx, _) = Index::open("/data", None, &[]);
    idx.keyword_to_patterns.insert("login".to_string(), vec![0]);
    idx.keyword_to_patterns.insert("query".to_string(), vec![1]);
    idx.add_segment_with_summary(1, 1000, 2000, 256, summary, None);

    let count_login = idx.count_at_least(0, u64::MAX, "login");
    let count_query = idx.count_at_least(0, u64::MAX, "query");
    assert_eq!(count_login, 1);
    assert_eq!(count_query, 1);
}

#[test]
fn index_more_tests_test_manifest_entry_time_overlap_boundaries() {
    let e = ManifestEntry::new(1, 1000, 2000, 10, "path");
    assert!(e.overlaps(1000, 2000));
    assert!(e.overlaps(2000, 3000));
    assert!(e.overlaps(0, 1000));
}

#[test]
fn index_test_manifest_persistence_roundtrip() {
    let (mut idx, _) = Index::open("/data", None, &[]);
    idx.add_segment(1, 1000, 2000, 100);
    let manifest = idx.add_segment(2, 2500, 3500, 200);

    let (idx2, _) = Index::open("/data", Some(&manifest), &[]);
    let stats = idx2.stats();
    assert_eq!(stats.segment_count, 2);
    assert_eq!(stats.total_lines, 300);

    let all = idx2.query_range(0, u64::MAX);
    assert_eq!(all.len(), 2);
}

#[test]
fn index_test_manifest_corruption_rebuild() {
    let (mut idx, _) = Index::open("/data", None, &[]);
    idx.add_segment(1, 1000, 2000, 100);

    let (idx, _) = Index::open("/data", Some(b"CORRUPTED DATA"), &[]);
    let stats = idx.stats();
    assert_eq!(stats.segment_count, 0);
}

#[test]
fn index_more_tests_test_manifest_persistence_roundtrip() {
    let (mut idx, _) = Index::open("/data", None, &[]);
    idx.add_segment(1, 1000, 2000, 100);
    let manifest = idx.add_segment(2, 2500, 3500, 200);

    let (idx2, _) = Index::open("/data", Some(&manifest), &[]);
    let stats = idx2.stats();
    assert_eq!(stats.segment_count, 2);
    assert_eq!(stats.total_lines, 300);

    let all = idx2.query_range(0, u64::MAX);
    assert_eq!(all.len(), 2);
}

#[test]
fn index_more_tests_test_manifest_corruption_rebuild() {
    let (mut idx, _) = Index::open("/data", None, &[]);
    idx.add_segment(1, 1000, 2000, 100);

    let (idx, _) = Index::open("/data", Some(b"CORRUPTED DATA"), &[]);
    let stats = idx.stats();
    assert_eq!(stats.segment_count, 0);
}

#[test]
fn reopened_index_goes_on_counting() {
    let (mut idx, saved) = Index::open("/data", None, &[]);
    assert!(saved.is_none());
    assert_eq!(idx.next_segment_id(), 1);
    idx.add_segment(9, 5, 6, 7);
    let manifest = idx.add_segment(3, 1, 2, 4);
    let (mut again, saved) = Index::open("/data", Some(&manifest), &[]);
    assert!(saved.is_none());
    assert_eq!(again.next_segment_id(), 10);
    assert_eq!(again.segments.len(), 2);
    assert_eq!(again.segments[0].id, 3);
    assert_eq!(again.segments[1].id, 9);
    assert_eq!(again.segments[1].path, "segments/segment-00000009.mobs");
    assert_eq!(again.save(), manifest_of(&again));
}

fn manifest_of(idx: &Index) -> Vec<u8> {
    let mut entries = Vec::new();
    let mut i = 0;
    while i < idx.segments.len() {
        let m = &idx.segments[i];
        entries.push(
            ManifestEntry::new(m.id, m.min_ts, m.max_ts, m.line_count, &m.path)
                .with_summary(&m.summary),
        );
        i += 1;
    }
    write_manifest(&entries)
}

#[test]
fn manifest_bytes_are_exact() {
    let bytes = write_manifest(&vec![ManifestEntry::new(7, 1, 2, 3, "p")]);
    assert_eq!(bytes.len(), 13 + 64);
    assert_eq!(&bytes[..13], b"MIDX\x01\x01\x00\x00\x00\x00\x00\x00\x00");
    assert_eq!(&bytes[13..17], &[7, 0, 0, 0]);
    let back = read_manifest(&bytes).unwrap();
    assert_eq!(back.len(), 1);
    assert_eq!(back[0].to_bytes()[..], bytes[13..]);
}

#[test]
fn manifest_errors_name_their_cause() {
    assert_eq!(read_manifest(b"MOBS\x01").unwrap_err(), DataError::BadManifestMagic);
    assert_eq!(read_manifest(b"MIDX").unwrap_err(), DataError::ManifestMalformed);
    let bytes = write_manifest(&vec![ManifestEntry::new(7, 1, 2, 3, "p")]);
    assert_eq!(
        read_manifest(&bytes[..bytes.len() - 1]).unwrap_err(),
        DataError::ManifestMalformed
    );
}

#[test]
fn files_that_are_no_segments_are_left_out() {
    let files = [
        SegmentFile { name: "notes.txt".to_string(), data: b"hello" },
        SegmentFile { name: "segment-00000001.mobs".to_string(), data: b"too short" },
    ];
    let (idx, saved) = Index::open("/data", None, &files);
    assert!(saved.is_none());
    assert_eq!(idx.stats().segment_count, 0);
    assert_eq!(idx.stats().min_ts, None);
}

#[test]
fn equal_last_times_keep_their_order() {
    let (mut idx, _) = Index::open("/data", None, &[]);
    idx.add_segment(2, 10, 50, 1);
    idx.add_segment(1, 20, 50, 1);
    idx.add_segment(3, 30, 60, 1);
    let r = idx.query_range(0, 100);
    assert_eq!(r[0].segment_id, 3);
    assert_eq!(r[1].segment_id, 1);
    assert_eq!(r[2].segment_id, 2);
    assert_eq!(idx.query_range(51, 100).len(), 1);
}

#[test]
fn small_letters_name_levels_too() {
    let (mut idx, _) = Index::open("/data", None, &[]);
    let mut summary = SegmentSummary::default();
    summary.level_mask = 0b0100;
    summary.flags = SegmentSummary::HAS_SUMMARY;
    idx.add_segment_with_summary(1, 1000, 2000, 100, summary, None);
    assert!(idx.may_exist(0, u64::MAX, "warning"));
    assert!(!idx.may_exist(0, u64::MAX, "error"));
    assert_eq!(idx.count_at_least(0, u64::MAX, "warn"), 1);
    assert!(idx.may_exist_as(0, u64::MAX, "x", "WARN"));
    assert_eq!(idx.count_at_least_as(3000, 4000, "x", "WARN"), 0);
    assert!(idx.may_exist(0, u64::MAX, ""));
}

#[test]
fn one_template_counts_all_lines() {
    let (mut idx, _) = Index::open("/data", None, &[]);
    idx.keyword_to_patterns.insert("login".to_string(), vec![0]);
    let mut summary = SegmentSummary::default();
    summary.pattern_mask = 1;
    summary.flags = SegmentSummary::HAS_SUMMARY;
    idx.add_segment_with_summary(1, 1000, 2000, 256, summary, None);
    assert_eq!(idx.count_at_least(0, u64::MAX, "login"), 256);
}
