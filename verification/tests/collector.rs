//! Making log lines of text lines.

use mini_obs::agent::collector::{
    infer_level, infer_level_as, normalize_level, normalize_level_as, parse_iso_timestamp,
    parse_line, parse_line_at, strip_level_prefix, strip_level_prefix_as,
};
use mini_obs::agent::handle::{AgentConfig, AgentHandle, SourceType};
use mini_obs::agent::json::log_json;
use mini_obs::agent::mock::{mock_due, mock_line, sample_line};
use mini_obs::agent::tail::{TailAction, TailState};
use mini_obs::cli::{count_arg, format_line, format_ts, query_args, ArgError};
use mini_obs::shared::format::LogLine;

#[test]
fn test_parse_standard_json() {
    let line = r#"{"timestamp":1715424000000,"service":"auth","level":"ERROR","message":"login failed"}"#;
    let log = parse_line(line, "default").unwrap();
    assert_eq!(log.ts, 1715424000000);
    assert_eq!(log.service, "auth");
    assert_eq!(log.level, "E");
    assert_eq!(log.message, "login failed");
}

#[test]
fn test_parse_compact_json() {
    let line = r#"{"t":1715424000000,"s":"pg","l":"W","m":"slow query"}"#;
    let log = parse_line(line, "default").unwrap();
    assert_eq!(log.ts, 1715424000000);
    assert_eq!(log.service, "pg");
    assert_eq!(log.level, "W");
    assert_eq!(log.message, "slow query");
}

#[test]
fn test_parse_plain_line() {
    let line = "2026-05-11 14:30:00 ERROR something went wrong";
    let log = parse_line(line, "app").unwrap();
    assert_eq!(log.level, "E");
    assert!(log.message.contains("something went wrong"));
    assert_eq!(log.service, "app");
}

#[test]
fn test_fallback_strips_level_prefix() {
    let line = "081109 203615 148 INFO PacketResponder 1 for block blk_38865049064139660 terminating";
    let log = parse_line(line, "hdfs").unwrap();
    assert_eq!(log.level, "I");
    assert_eq!(log.message, "PacketResponder 1 for block blk_38865049064139660 terminating");
    assert!(!log.message.contains("INFO"));
}

#[test]
fn test_fallback_strips_warn_prefix() {
    let line = "2026-05-11 14:30:00 WARN low memory";
    let log = parse_line(line, "app").unwrap();
    assert_eq!(log.level, "W");
    assert_eq!(log.message, "low memory");
}

#[test]
fn test_fallback_strips_case_insensitive() {
    let line = "server started info ready";
    let log = parse_line(line, "app").unwrap();
    assert_eq!(log.level, "I");
    assert_eq!(log.message, "ready");
}

#[test]
fn test_strip_level_prefix_no_match() {
    assert_eq!(strip_level_prefix("no level here"), "no level here");
}

#[test]
fn test_parse_nginx() {
    let line = r#"127.0.0.1 - - [11/May/2026:14:32:10 +0000] "GET /api HTTP/1.1" 500 42"#;
    let log = parse_line(line, "web").unwrap();
    assert_eq!(log.level, "E");
    assert_eq!(log.service, "ngx");
}

#[test]
fn test_infer_level_edge_cases() {
    assert_eq!(infer_level("CRITICAL: disk full"), "E");
    assert_eq!(infer_level("WARN: low memory"), "W");
    assert_eq!(infer_level("DEBUG info"), "I");
}

#[test]
fn test_normalize_level() {
    assert_eq!(normalize_level("DEBUG"), "D");
    assert_eq!(normalize_level("INFORMATION"), "I");
    assert_eq!(normalize_level("CRITICAL"), "E");
    assert_eq!(normalize_level("unknown"), "I");
}

#[test]
fn test_empty_and_whitespace() {
    assert!(parse_line("", "svc").is_none());
    assert!(parse_line("   ", "svc").is_none());
    assert!(parse_line("\n", "svc").is_none());
}

#[test]
fn test_parse_json_with_iso_timestamp() {
    let line = r#"{"timestamp":"1715424000000","service":"app","level":"INFO","message":"ok"}"#;
    let log = parse_line(line, "default").unwrap();
    assert_eq!(log.ts, 1715424000000);
    assert_eq!(log.level, "I");
}

#[test]
fn test_parse_json_fallback_on_malformed() {
    let line = "{this is not json";
    let log = parse_line(line, "app").unwrap();
    assert_eq!(log.service, "app");
    assert!(log.message.contains("this is not json"));
}

#[test]
fn test_parse_nginx_success_status() {
    let line = r#"127.0.0.1 - - [11/May/2026:14:32:10 +0000] "GET /api HTTP/1.1" 200 42"#;
    let log = parse_line(line, "web").unwrap();
    assert_eq!(log.level, "I");
    assert_eq!(log.service, "ngx");
}

#[test]
fn test_parse_nginx_4xx_status() {
    let line = r#"127.0.0.1 - - [11/May/2026:14:32:10 +0000] "GET /api HTTP/1.1" 404 42"#;
    let log = parse_line(line, "web").unwrap();
    assert_eq!(log.level, "E");
}

#[test]
fn test_infer_level_panic() {
    assert_eq!(infer_level("PANIC: something terrible"), "E");
    assert_eq!(infer_level("FATAL: cannot continue"), "E");
    assert_eq!(infer_level("CRITICAL: disk full"), "E");
}

#[test]
fn test_infer_level_case_insensitive() {
    assert_eq!(infer_level("error occurred"), "E");
    assert_eq!(infer_level("ERROR occurred"), "E");
    assert_eq!(infer_level("Error occurred"), "E");
}

#[test]
fn test_parse_line_with_null_bytes() {
    let line = "log message with \0 null";
    let log = parse_line(line, "svc").unwrap();
    assert!(log.message.contains("null"));
}

#[test]
fn test_parse_line_very_long() {
    let long_msg = "a".repeat(10000);
    let line = format!(r#"{{"t":1000,"s":"svc","l":"I","m":"{}"}}"#, long_msg);
    let log = parse_line(&line, "default").unwrap();
    assert_eq!(log.message.len(), 10000);
}

#[test]
fn test_parse_compact_json_with_extra_fields() {
    let line = r#"{"t":1000,"s":"svc","l":"I","m":"msg","extra":"ignored"}"#;
    let log = parse_line(line, "default").unwrap();
    assert_eq!(log.ts, 1000);
    assert_eq!(log.message, "msg");
}

#[test]
fn test_parse_json_array_rejected() {
    let line = r#"[{"t":1000,"s":"svc","l":"I","m":"msg"}]"#;
    let log = parse_line(line, "app").unwrap();
    assert_eq!(log.service, "app");
    assert!(log.message.contains("["));
}

#[test]
fn test_normalize_level_extended() {
    assert_eq!(normalize_level("debug"), "D");
    assert_eq!(normalize_level("DEBUG"), "D");
    assert_eq!(normalize_level("information"), "I");
    assert_eq!(normalize_level("warn"), "W");
    assert_eq!(normalize_level("warning"), "W");
    assert_eq!(normalize_level("err"), "E");
    assert_eq!(normalize_level("fatal"), "E");
    assert_eq!(normalize_level("critical"), "E");
}

#[test]
fn test_parse_iso_timestamp_seconds() {
    let line = r#"{"timestamp":"1715424000","service":"app","level":"INFO","message":"ok"}"#;
    let log = parse_line(line, "default").unwrap();
    assert_eq!(log.ts, 1715424000000);
}

#[test]
fn times_of_json_lines() {
    let l = parse_line_at("{\"ts\":5,\"m\":\"x\"}", "svc", 77).unwrap();
    assert_eq!(l.ts, 5);
    let l = parse_line_at("{\"time\":6,\"m\":\"x\"}", "svc", 77).unwrap();
    assert_eq!(l.ts, 6);
    let l = parse_line_at("{\"time\":\"1715424000\",\"m\":\"x\"}", "svc", 77).unwrap();
    assert_eq!(l.ts, 77);
    let l = parse_line_at("{\"timestamp\":true,\"t\":9,\"m\":\"x\"}", "svc", 77).unwrap();
    assert_eq!(l.ts, 77);
    let l = parse_line_at("{\"t\":-1,\"m\":\"x\"}", "svc", 77).unwrap();
    assert_eq!(l.ts, 77);
    assert_eq!(parse_iso_timestamp("1000000000"), None);
    assert_eq!(parse_iso_timestamp("1000000001"), Some(1000000001000));
    assert_eq!(parse_iso_timestamp("1000000000000"), Some(1000000000000000));
    assert_eq!(parse_iso_timestamp("1000000000001"), Some(1000000000001));
    assert_eq!(parse_iso_timestamp("18446744073709551616"), None);
    assert_eq!(parse_iso_timestamp("2026-05-11"), None);
}

#[test]
fn fields_of_json_lines() {
    let l = parse_line_at(
        " {\"app\":\"a\",\"source\":\"b\",\"severity\":\"err\",\"msg\":\"m\"} ",
        "svc",
        1,
    )
    .unwrap();
    assert_eq!(l.service, "a");
    assert_eq!(l.level, "E");
    assert_eq!(l.message, "m");
    let l = parse_line_at("{\"service\":5}", "svc", 1).unwrap();
    assert_eq!(l.service, "svc");
    assert_eq!(l.level, "I");
    assert_eq!(l.message, "{\"service\":5}");
}

#[test]
fn own_json_is_read_back() {
    let l = LogLine {
        ts: 12,
        service: "svc".to_string(),
        level: "W".to_string(),
        message: "a \"quoted\" text".to_string(),
    };
    let back = parse_line_at(&log_json(&l), "other", 99).unwrap();
    assert_eq!(back, l);
}

#[test]
fn plain_lines_use_the_given_time() {
    let l = parse_line_at("just text", "svc", 42).unwrap();
    assert_eq!(l.ts, 42);
    assert_eq!(l.level, "I");
    assert_eq!(l.message, "just text");
    assert!(parse_line("just text", "svc").unwrap().ts > 1_600_000_000_000);
}

#[test]
fn level_names_are_cut_off() {
    assert_eq!(strip_level_prefix("INFO ERROR x"), "x");
    assert_eq!(strip_level_prefix("INFO WARN x"), "x");
    assert_eq!(strip_level_prefix("fatal y info z"), "y info z");
    assert_eq!(strip_level_prefix("\u{6f22} info z"), "z");
    assert_eq!(strip_level_prefix_as("abc def gh", "ABC INFO "), "h");
    assert_eq!(strip_level_prefix("\u{149} info z"), "");
    assert_eq!(strip_level_prefix("\u{149}\u{149}\u{149} info z"), "\u{149}\u{149}\u{149} info z");
}

#[test]
fn levels_of_capital_texts() {
    assert_eq!(infer_level_as("X PANIC Y"), "E");
    assert_eq!(infer_level_as("warn"), "I");
    assert_eq!(normalize_level_as("ERR"), "E");
    assert_eq!(normalize_level_as("err"), "I");
}

#[test]
fn followed_files() {
    let mut s = TailState::new();
    assert_eq!(s.action(1, 100), TailAction::OpenAtEnd);
    s.done(1, 100);
    assert_eq!(s.action(1, 100), TailAction::Wait);
    assert_eq!(s.action(1, 150), TailAction::ReadAdded);
    s.done(1, 150);
    assert_eq!(s.action(1, 150), TailAction::Wait);
    assert_eq!(s.action(1, 10), TailAction::Rewind);
    s.done(1, 10);
    assert_eq!(s.action(1, 10), TailAction::ReadAdded);
    s.done(1, 10);
    assert_eq!(s.action(2, 5), TailAction::OpenAtStart);
    s.done(2, 5);
    assert_eq!(s.action(2, 5), TailAction::ReadAdded);
}

#[test]
fn mock_lines() {
    let l = mock_line(13, "svc", 8);
    assert_eq!(l.ts, 8);
    assert_eq!(l.service, "svc");
    assert_eq!(l.level, "W");
    assert_eq!(l.message, "Connection timeout after 3000ms [seq=13]");
    assert_eq!(mock_line(11, "svc", 8).message, "Config reloaded successfully [seq=11]");
    assert_eq!(mock_line(11, "svc", 8).level, "E");
    assert_eq!(mock_due(10, 4), 6);
    assert_eq!(mock_due(4, 10), 0);
}

#[test]
fn sample_lines() {
    assert_eq!(
        sample_line(6, "svc", 1000),
        "{\"t\":1600,\"s\":\"svc\",\"l\":\"E\",\"m\":\"ERROR: null pointer exception at line 42 [seq=6]\"}"
    );
    assert_eq!(
        sample_line(16, "a", 0),
        "{\"t\":1600,\"s\":\"a\",\"l\":\"W\",\"m\":\"WARN: retry attempt 3/3 [seq=16]\"}"
    );
    let l = parse_line_at(&sample_line(9, "svc", 5), "x", 1).unwrap();
    assert_eq!(l.message, "User login successful [seq=9]");
    assert_eq!(l.ts, 905);
}

#[test]
fn command_lines() {
    let a = query_args("1", "+20", None, None).unwrap();
    assert_eq!((a.start, a.end, a.limit), (1, 20, 100));
    assert_eq!(a.keyword, "");
    let a = query_args("1", "2", Some("ERROR"), Some("5")).unwrap();
    assert_eq!(a.keyword, "ERROR");
    assert_eq!(a.limit, 5);
    assert_eq!(query_args("x", "y", None, None).err(), Some(ArgError::Start));
    assert_eq!(query_args("1", "-1", None, Some("z")).err(), Some(ArgError::End));
    assert_eq!(query_args("1", "2", None, Some("")).err(), Some(ArgError::Limit));
    assert_eq!(count_arg("17"), Ok(17));
    assert_eq!(count_arg("1.5"), Err(ArgError::Count));
}

#[test]
fn shown_lines() {
    assert_eq!(format_ts(1234005), "1234.5");
    let l = LogLine {
        ts: 1500,
        service: "auth".to_string(),
        level: "E".to_string(),
        message: "no".to_string(),
    };
    assert_eq!(format_line(&l), "[1.500] [auth] E: no");
}

#[test]
fn agents() {
    let d = AgentConfig::default();
    assert_eq!(d.data_dir, "/var/lib/mini-obs");
    assert_eq!(d.service_name, "app");
    assert_eq!(d.collector_interval_ms, 100);
    assert_eq!(d.storage_config.chunk_size, 1024);
    let (h, saved) = AgentHandle::open("/data", "web", None, &[]);
    assert!(saved.is_none());
    assert_eq!(h.config.clone().data_dir, "/data");
    let c = h.create_collector(SourceType::File { path: "/x.log".to_string() });
    assert_eq!(c.service_name, "web");
    assert_eq!(c.poll_interval_ms, 100);
    assert!(matches!(c.source, SourceType::File { .. }));
    let comp = h.create_compressor(None);
    assert_eq!(comp.config.zstd_level, 3);
    assert!(comp.config.enable_template);
}
