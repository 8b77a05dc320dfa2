//! Compressing batches of log lines.

use mini_obs::agent::batch_text::{deserialize_template_v2, serialize_template_v2};
use mini_obs::agent::codec::{compress_with_dict, decompress_with_dict};
use mini_obs::agent::compressor::{Compressor, CompressorConfig};
use mini_obs::agent::json::{log_json, logs_json, read_logs};
use mini_obs::agent::json_line::{find_sole, read_log};
use mini_obs::agent::segment_build::{keep_dict, plan_dict, train_segment_dict};
use mini_obs::agent::template::TemplateExtractor;
use mini_obs::shared::error::DataError;
use mini_obs::shared::format::LogLine;

fn make_log(ts: u64, svc: &str, lvl: &str, msg: &str) -> LogLine {
    LogLine {
        ts,
        service: svc.to_string(),
        level: lvl.to_string(),
        message: msg.to_string(),
    }
}

#[test]
fn test_compressor_roundtrip_template() {
    let comp = Compressor::new(CompressorConfig::default());
    let logs = vec![
        make_log(1000, "svc", "I", "alpha"),
        make_log(2000, "svc", "W", "beta"),
        make_log(3000, "svc", "E", "gamma"),
    ];

    let compressed = comp.compress_batch(&logs).unwrap();
    let decompressed = comp.decompress_batch(&compressed).unwrap();

    assert_eq!(decompressed.len(), 3);
    for (a, b) in logs.iter().zip(decompressed.iter()) {
        assert_eq!(a.ts, b.ts, "ts mismatch");
        assert_eq!(a.level, b.level, "level mismatch");
        assert_eq!(a.message, b.message, "message mismatch");
    }
}

#[test]
fn test_compressor_template_with_reset() {
    let comp = Compressor::new(CompressorConfig {
        xor_ref_reset: 4,
        ..Default::default()
    });
    let logs: Vec<LogLine> = (0..20)
        .map(|i| make_log(1000 + i as u64 * 100, "svc", "I", &format!("msg-{}", i)))
        .collect();

    let compressed = comp.compress_batch(&logs).unwrap();
    let decompressed = comp.decompress_batch(&compressed).unwrap();

    assert_eq!(decompressed.len(), 20);
    for (a, b) in logs.iter().zip(decompressed.iter()) {
        assert_eq!(a.message, b.message, "message mismatch at idx");
    }
}

#[test]
fn compressor_test_compressor_empty_batch() {
    let comp = Compressor::new(CompressorConfig::default());
    let empty: Vec<LogLine> = vec![];
    let compressed = comp.compress_batch(&empty).unwrap();
    assert!(compressed.is_empty());
    let decompressed = comp.decompress_batch(&compressed).unwrap();
    assert!(decompressed.is_empty());
}

#[test]
fn compressor_test_compressor_json_fallback_roundtrip() {
    let comp = Compressor::new(CompressorConfig {
        enable_template: false,
        ..Default::default()
    });
    let logs = vec![
        make_log(1000, "svc", "I", "plain json fallback test"),
        make_log(2000, "svc", "W", "unicode 中文测试 🎉"),
    ];
    let compressed = comp.compress_batch(&logs).unwrap();
    let decompressed = comp.decompress_batch(&compressed).unwrap();
    assert_eq!(decompressed.len(), 2);
    assert_eq!(decompressed[0].message, "plain json fallback test");
    assert_eq!(decompressed[1].message, "unicode 中文测试 🎉");
}

#[test]
fn compressor_test_compressor_mixed_content() {
    let comp = Compressor::new(CompressorConfig::default());
    let logs = vec![
        make_log(1000, "svc", "I", "User 12345 logged in"),
        make_log(1100, "svc", "I", "User 67890 logged in"),
        make_log(1200, "svc", "E", "Completely unique and non-templatable error message xyz"),
        make_log(1300, "svc", "I", "User 11111 logged in"),
    ];
    let compressed = comp.compress_batch(&logs).unwrap();
    let decompressed = comp.decompress_batch(&compressed).unwrap();
    assert_eq!(decompressed.len(), 4);
    for (a, b) in logs.iter().zip(decompressed.iter()) {
        assert_eq!(a.ts, b.ts, "ts mismatch");
        assert_eq!(a.message, b.message, "message mismatch");
    }
}

#[test]
fn compressor_test_compressor_large_batch() {
    let comp = Compressor::new(CompressorConfig::default());
    let logs: Vec<LogLine> = (0..2000)
        .map(|i| make_log(
            1000 + i as u64 * 100,
            "svc",
            if i % 10 == 0 { "E" } else { "I" },
            &format!("Request {} processed in {}ms", i, i % 100),
        ))
        .collect();

    let compressed = comp.compress_batch(&logs).unwrap();
    let decompressed = comp.decompress_batch(&compressed).unwrap();
    assert_eq!(decompressed.len(), 2000);

    let original_size: usize = logs.iter()
        .map(|l| log_json(l).len())
        .sum();
    let ratio = original_size as f64 / compressed.len() as f64;
    println!("Large batch compression ratio: {:.2}x", ratio);
    assert!(ratio > 2.0, "Expected compression ratio > 2x, got {:.2}x", ratio);
}

#[test]
fn compressor_test_compressor_compression_ratio_target() {
    let comp = Compressor::new(CompressorConfig::default());
    let template_msg = "User {id} performed action {action} on resource {resource} at {time} from {ip}";
    let logs: Vec<LogLine> = (0..5000)
        .map(|i| make_log(
            1000 + i as u64 * 1000,
            "auth",
            "I",
            &template_msg
                .replace("{id}", &format!("user_{:05}", i))
                .replace("{action}", "LOGIN")
                .replace("{resource}", &format!("res_{:03}", i % 100))
                .replace("{time}", "2026-05-15T09:24:00Z")
                .replace("{ip}", &format!("192.168.{}.{}", i % 256, (i / 256) % 256)),
        ))
        .collect();

    let compressed = comp.compress_batch(&logs).unwrap();
    let original_size: usize = logs.iter()
        .map(|l| log_json(l).len())
        .sum();
    let ratio = original_size as f64 / compressed.len() as f64;
    println!("Template-heavy compression ratio: {:.2}x", ratio);
    assert!(ratio > 5.0, "Expected compression ratio > 5x for templated logs, got {:.2}x", ratio);
}

#[test]
fn compressor_test_compressor_corrupted_data() {
    let comp = Compressor::new(CompressorConfig::default());
    let corrupted = vec![0xFFu8; 100];
    let result = comp.decompress_batch(&corrupted);
    assert!(result.is_err());
}

#[test]
fn compressor_test_compressor_with_dictionary() {
    let samples: Vec<Vec<u8>> = (0..100)
        .map(|i| {
            let log = make_log(1000 + i as u64 * 100, "svc", "I", &format!("Template log entry number {}", i));
            log_json(&log).into_bytes()
        })
        .collect();

    let dict = zstd::dict::from_samples(&samples, 100_000).unwrap();
    let comp = Compressor::new(CompressorConfig {
        zstd_level: 3,
        dict: Some(dict),
        ..Default::default()
    });

    let test_logs = vec![
        make_log(5000, "svc", "I", "Template log entry number 9999"),
        make_log(5100, "svc", "I", "Template log entry number 10000"),
    ];

    let compressed = comp.compress_batch(&test_logs).unwrap();
    let decompressed = comp.decompress_batch(&compressed).unwrap();
    assert_eq!(decompressed.len(), 2);
    assert_eq!(decompressed[0].message, "Template log entry number 9999");
}

#[test]
fn compressor_test_compressor_single_log() {
    let comp = Compressor::new(CompressorConfig::default());
    let logs = vec![make_log(1000, "svc", "E", "single error")];
    let compressed = comp.compress_batch(&logs).unwrap();
    let decompressed = comp.decompress_batch(&compressed).unwrap();
    assert_eq!(decompressed.len(), 1);
    assert_eq!(decompressed[0].message, "single error");
}

#[test]
fn compressor_test_compressor_unicode_and_special_chars() {
    let comp = Compressor::new(CompressorConfig::default());
    let logs = vec![
        make_log(1000, "svc", "I", "Hello 世界 🌍"),
        make_log(1100, "svc", "I", "Path: C:\\Users\\Admin\\file.txt"),
        make_log(1200, "svc", "E", "JSON: {\"key\": \"value with \\\"quotes\\\"}"),
    ];
    let compressed = comp.compress_batch(&logs).unwrap();
    let decompressed = comp.decompress_batch(&compressed).unwrap();
    assert_eq!(decompressed.len(), 3);
    assert_eq!(decompressed[0].message, "Hello 世界 🌍");
    assert_eq!(decompressed[1].message, "Path: C:\\Users\\Admin\\file.txt");
    assert_eq!(decompressed[2].message, "JSON: {\"key\": \"value with \\\"quotes\\\"}");
}

#[test]
fn compressor_more_tests_test_compressor_empty_batch() {
    let comp = Compressor::new(CompressorConfig::default());
    let empty: Vec<LogLine> = vec![];
    let compressed = comp.compress_batch(&empty).unwrap();
    assert!(compressed.is_empty());
    let decompressed = comp.decompress_batch(&compressed).unwrap();
    assert!(decompressed.is_empty());
}

#[test]
fn compressor_more_tests_test_compressor_json_fallback_roundtrip() {
    let comp = Compressor::new(CompressorConfig {
        enable_template: false,
        ..Default::default()
    });
    let logs = vec![
        make_log(1000, "svc", "I", "plain json fallback test"),
        make_log(2000, "svc", "W", "unicode 中文测试 🎉"),
    ];
    let compressed = comp.compress_batch(&logs).unwrap();
    let decompressed = comp.decompress_batch(&compressed).unwrap();
    assert_eq!(decompressed.len(), 2);
    assert_eq!(decompressed[0].message, "plain json fallback test");
    assert_eq!(decompressed[1].message, "unicode 中文测试 🎉");
}

#[test]
fn compressor_more_tests_test_compressor_mixed_content() {
    let comp = Compressor::new(CompressorConfig::default());
    let logs = vec![
        make_log(1000, "svc", "I", "User 12345 logged in"),
        make_log(1100, "svc", "I", "User 67890 logged in"),
        make_log(1200, "svc", "E", "Completely unique and non-templatable error message xyz"),
        make_log(1300, "svc", "I", "User 11111 logged in"),
    ];
    let compressed = comp.compress_batch(&logs).unwrap();
    let decompressed = comp.decompress_batch(&compressed).unwrap();
    assert_eq!(decompressed.len(), 4);
    for (a, b) in logs.iter().zip(decompressed.iter()) {
        assert_eq!(a.ts, b.ts, "ts mismatch");
        assert_eq!(a.message, b.message, "message mismatch");
    }
}

#[test]
fn compressor_more_tests_test_compressor_large_batch() {
    let comp = Compressor::new(CompressorConfig::default());
    let logs: Vec<LogLine> = (0..2000)
        .map(|i| make_log(
            1000 + i as u64 * 100,
            "svc",
            if i % 10 == 0 { "E" } else { "I" },
            &format!("Request {} processed in {}ms", i, i % 100),
        ))
        .collect();

    let compressed = comp.compress_batch(&logs).unwrap();
    let decompressed = comp.decompress_batch(&compressed).unwrap();
    assert_eq!(decompressed.len(), 2000);

    let original_size: usize = logs.iter()
        .map(|l| log_json(l).len())
        .sum();
    let ratio = original_size as f64 / compressed.len() as f64;
    println!("Large batch compression ratio: {:.2}x", ratio);
    assert!(ratio > 2.0, "Expected compression ratio > 2x, got {:.2}x", ratio);
}

#[test]
fn compressor_more_tests_test_compressor_compression_ratio_target() {
    let comp = Compressor::new(CompressorConfig::default());
    let template_msg = "User {id} performed action {action} on resource {resource} at {time} from {ip}";
    let logs: Vec<LogLine> = (0..5000)
        .map(|i| make_log(
            1000 + i as u64 * 1000,
            "auth",
            "I",
            &template_msg
                .replace("{id}", &format!("user_{:05}", i))
                .replace("{action}", "LOGIN")
                .replace("{resource}", &format!("res_{:03}", i % 100))
                .replace("{time}", "2026-05-15T09:24:00Z")
                .replace("{ip}", &format!("192.168.{}.{}", i % 256, (i / 256) % 256)),
        ))
        .collect();

    let compressed = comp.compress_batch(&logs).unwrap();
    let original_size: usize = logs.iter()
        .map(|l| log_json(l).len())
        .sum();
    let ratio = original_size as f64 / compressed.len() as f64;
    println!("Template-heavy compression ratio: {:.2}x", ratio);
    assert!(ratio > 5.0, "Expected compression ratio > 5x for templated logs, got {:.2}x", ratio);
}

#[test]
fn compressor_more_tests_test_compressor_corrupted_data() {
    let comp = Compressor::new(CompressorConfig::default());
    let corrupted = vec![0xFFu8; 100];
    let result = comp.decompress_batch(&corrupted);
    assert!(result.is_err());
}

#[test]
fn compressor_more_tests_test_compressor_with_dictionary() {
    let samples: Vec<Vec<u8>> = (0..100)
        .map(|i| {
            let log = make_log(1000 + i as u64 * 100, "svc", "I", &format!("Template log entry number {}", i));
            log_json(&log).into_bytes()
        })
        .collect();

    let dict = zstd::dict::from_samples(&samples, 100_000).unwrap();
    let comp = Compressor::new(CompressorConfig {
        zstd_level: 3,
        dict: Some(dict),
        ..Default::default()
    });

    let test_logs = vec![
        make_log(5000, "svc", "I", "Template log entry number 9999"),
        make_log(5100, "svc", "I", "Template log entry number 10000"),
    ];

    let compressed = comp.compress_batch(&test_logs).unwrap();
    let decompressed = comp.decompress_batch(&compressed).unwrap();
    assert_eq!(decompressed.len(), 2);
    assert_eq!(decompressed[0].message, "Template log entry number 9999");
}

#[test]
fn compressor_more_tests_test_compressor_single_log() {
    let comp = Compressor::new(CompressorConfig::default());
    let logs = vec![make_log(1000, "svc", "E", "single error")];
    let compressed = comp.compress_batch(&logs).unwrap();
    let decompressed = comp.decompress_batch(&compressed).unwrap();
    assert_eq!(decompressed.len(), 1);
    assert_eq!(decompressed[0].message, "single error");
}

#[test]
fn compressor_more_tests_test_compressor_unicode_and_special_chars() {
    let comp = Compressor::new(CompressorConfig::default());
    let logs = vec![
        make_log(1000, "svc", "I", "Hello 世界 🌍"),
        make_log(1100, "svc", "I", "Path: C:\\Users\\Admin\\file.txt"),
        make_log(1200, "svc", "E", "JSON: {\"key\": \"value with \\\"quotes\\\"}"),
    ];
    let compressed = comp.compress_batch(&logs).unwrap();
    let decompressed = comp.decompress_batch(&compressed).unwrap();
    assert_eq!(decompressed.len(), 3);
    assert_eq!(decompressed[0].message, "Hello 世界 🌍");
    assert_eq!(decompressed[1].message, "Path: C:\\Users\\Admin\\file.txt");
    assert_eq!(decompressed[2].message, "JSON: {\"key\": \"value with \\\"quotes\\\"}");
}

#[test]
fn test_compressor_template_path_wins_on_templated_logs() {
    let template = "User {id} performed {action} on {resource} at {time} from {ip}";
    let logs: Vec<LogLine> = (0..2000)
        .map(|i| LogLine {
            ts: 1_000_000 + i as u64 * 1000,
            service: "auth".to_string(),
            level: if i % 10 == 0 { "E".to_string() } else { "I".to_string() },
            message: template
                .replace("{id}", &format!("user_{:05}", i))
                .replace("{action}", "LOGIN")
                .replace("{resource}", &format!("res_{:03}", i % 100))
                .replace("{time}", "2026-05-15T09:24:00Z")
                .replace("{ip}", &format!("192.168.{}.{}", i % 256, (i / 256) % 256)),
        })
        .collect();

    let compressor_template = Compressor::new(CompressorConfig::default());
    let compressed_template = compressor_template.compress_batch(&logs).unwrap();
    let decompressed_template = compressor_template.decompress_batch(&compressed_template).unwrap();

    let compressor_json = Compressor::new(CompressorConfig {
        enable_template: false,
        ..Default::default()
    });
    let compressed_json = compressor_json.compress_batch(&logs).unwrap();
    let decompressed_json = compressor_json.decompress_batch(&compressed_json).unwrap();

    assert_eq!(decompressed_template.len(), logs.len());
    assert_eq!(decompressed_json.len(), logs.len());

    for (a, b) in logs.iter().zip(decompressed_template.iter()) {
        assert_eq!(a.message, b.message);
    }

    assert!(
        compressed_template.len() < compressed_json.len(),
        "templates must do better than JSON here"
    );
}

#[test]
fn batch_bytes_start_with_their_mark() {
    let logs = [make_log(1000, "svc", "E", "single error")];
    let raw = serialize_template_v2(&TemplateExtractor::extract(&logs));
    let back = deserialize_template_v2(&raw).unwrap();
    assert_eq!(back.len(), 1);
    assert_eq!(back[0].ts, 1000);
    assert_eq!(back[0].level, "E");
    assert_eq!(back[0].message, "single error");
    assert!(deserialize_template_v2(&raw[..raw.len() / 2]).is_err());
    assert!(deserialize_template_v2(b"").is_err());
}

#[test]
fn compression_is_undone() {
    let data = b"aaaaaaaaaaaaaaaaaaaaaaaaaaaaaaaaaaaaaaaaaaaaaaaaaaaaaaaaaaaaaaaa";
    let packed = compress_with_dict(data, 3, None).unwrap();
    assert_ne!(&packed[..], &data[..]);
    assert!(packed.len() < data.len());
    assert_eq!(decompress_with_dict(&packed, None).unwrap(), data);
    assert_eq!(
        decompress_with_dict(b"no zstd frame", None).unwrap_err(),
        DataError::Compression
    );
}

#[test]
fn compression_with_a_dictionary_is_undone() {
    let samples: Vec<Vec<u8>> = (0..200)
        .map(|i| format!("request {} took {} ms on node-{}", i, i * 7 % 100, i % 5).into_bytes())
        .collect();
    let dict = zstd::dict::from_samples(&samples, 4096).unwrap();
    let data = b"request 77 took 12 ms on node-3";
    let packed = compress_with_dict(data, 3, Some(&dict)).unwrap();
    assert_ne!(&packed[..], &data[..]);
    assert_eq!(decompress_with_dict(&packed, Some(&dict)).unwrap(), data);
}

#[test]
fn json_lines_are_exact_and_read_back() {
    let logs = [
        make_log(7, "a\"b", "I", "back\\slash, tab\t, bell\u{7}"),
        make_log(u64::MAX, "", "", "\u{6f22}\u{1f389}"),
    ];
    assert_eq!(
        log_json(&logs[0]),
        "{\"t\":7,\"s\":\"a\\\"b\",\"l\":\"I\",\"m\":\"back\\\\slash, tab\\t, bell\\u0007\"}"
    );
    let bytes = logs_json(&logs);
    let back = read_logs(&bytes);
    assert_eq!(back.len(), 2);
    assert_eq!(back[0], logs[0]);
    assert_eq!(back[1], logs[1]);
    let with_noise = read_logs(b"\n  \nnot json\n{\"t\":1}\n{\"t\":1,\"s\":\"a\",\"l\":\"I\",\"m\":\"x\"}\r\n\xff\n");
    assert_eq!(with_noise.len(), 1);
    assert_eq!(with_noise[0].message, "x");
}

#[test]
fn template_batches_keep_lines_with_odd_characters() {
    let comp = Compressor::new(CompressorConfig::default());
    let logs = [
        make_log(5, "svc", "W", "pipe | comma , newline\\n colon :"),
        make_log(4, "svc", "D", ""),
        make_log(9, "svc", "E", "   "),
    ];
    let packed = comp.compress_batch(&logs).unwrap();
    let back = comp.decompress_batch(&packed).unwrap();
    assert_eq!(back.len(), 3);
    let mut i = 0;
    while i < 3 {
        assert_eq!(back[i].ts, logs[i].ts);
        assert_eq!(back[i].message, logs[i].message);
        i += 1;
    }
}

#[test]
fn dictionaries_are_kept_unless_empty() {
    assert_eq!(keep_dict(Ok(vec![1, 2, 3])), Some(vec![1, 2, 3]));
    assert_eq!(keep_dict(Ok(vec![])), None);
    assert_eq!(keep_dict(Err(std::io::Error::from(std::io::ErrorKind::Other))), None);
}

#[test]
fn dictionaries_are_made_of_the_first_chunks() {
    let chunks: Vec<Vec<u8>> = (0..40)
        .map(|i| format!("service=api level=I user {} logged in from 10.0.0.{}\n", i * 7919, i).repeat(8))
        .map(|s| s.into_bytes())
        .collect();
    let (m, max) = plan_dict(&chunks, 32).unwrap();
    assert_eq!((m, max), (32, 1024));
    let dict = train_segment_dict(&chunks, 32).unwrap();
    assert_eq!(dict, zstd::dict::from_samples(&chunks[..32], 1024).unwrap());
    let packed = compress_with_dict(&chunks[39], 3, Some(&dict)).unwrap();
    assert_eq!(decompress_with_dict(&packed, Some(&dict)).unwrap(), chunks[39]);
}

#[test]
fn no_dictionary_without_samples() {
    let chunk: Vec<u8> = vec![7; 100];
    assert_eq!(train_segment_dict(&vec![], 32), None);
    assert_eq!(train_segment_dict(&vec![chunk.clone()], 32), None);
    assert_eq!(train_segment_dict(&vec![chunk.clone(), chunk], 0), None);
}

#[test]
fn log_lines_may_be_json_arrays() {
    let logs = read_logs(b"[5,\"a\",\"W\",\"x y\"]\n[5,\"a\",\"W\"]\n[5,\"a\",\"W\",\"x\",1]\n[\"5\",\"a\",\"W\",\"x\"]\n");
    assert_eq!(logs, vec![make_log(5, "a", "W", "x y")]);
}

#[test]
fn fields_of_a_log_line_are_named_once() {
    let line = r#"{"t":1,"s":"a","l":"I","m":"x","t":2}"#;
    assert_eq!(read_log(line), None);
    assert_eq!(read_log(r#"{"t":1,"s":"a","l":"I","m":"x","m":"x"}"#), None);
    assert_eq!(read_log(r#"{"t":1,"s":"a","l":"I","\u006d":"x","m":"x"}"#), None);
    let ok = r#" { "m" : "x" , "l":"I","s":"a" ,"t": 1 } "#;
    assert_eq!(read_log(ok), Some(make_log(1, "a", "I", "x")));
    assert_eq!(read_log(r#"{"t":1,"s":"a","l":"I","\u006d":"x"}"#), Some(make_log(1, "a", "I", "x")));
    let two = format!("{}\n{}\n", line, ok);
    assert_eq!(read_logs(two.as_bytes()).len(), 1);
}

#[test]
fn other_fields_of_a_log_line_are_passed_over() {
    let want = Some(make_log(1, "a", "I", "x"));
    for other in [
        r#""n":1e999"#,
        r#""n":-123456789012345678901234567890"#,
        r#""n":"\ud800""#,
        r#""n":{"a":[1,{"b":null}],"c":"}"},"n":true"#,
        r#""n":[[],{}]"#,
    ] {
        assert_eq!(read_log(&format!("{{\"t\":1,{},\"s\":\"a\",\"l\":\"I\",\"m\":\"x\"}}", other)), want, "{}", other);
        assert_eq!(read_log(&format!("{{{},\"t\":1,\"s\":\"a\",\"l\":\"I\",\"m\":\"x\"}}", other)), want, "{}", other);
        assert_eq!(read_log(&format!("{{\"t\":1,\"s\":\"a\",\"l\":\"I\",\"m\":\"x\",{}}}", other)), want, "{}", other);
    }
}

#[test]
fn texts_that_are_no_log_lines() {
    for text in [
        "",
        "{}",
        "{ }",
        "7",
        "\"x\"",
        "null",
        r#"{"t":1,"s":"a","l":"I"}"#,
        r#"{"t":1,"s":"a","l":"I","m":"x",}"#,
        r#"{"t":1,"s":"a","l":"I","m":"x"} 7"#,
        r#"{"t":1,"s":"a","l":"I","m":"x""#,
        r#"{"t":1,,"s":"a","l":"I","m":"x"}"#,
        r#"{"t":1 "s":"a","l":"I","m":"x"}"#,
        r#"{"t" 1,"s":"a","l":"I","m":"x"}"#,
        r#"{t:1,"s":"a","l":"I","m":"x"}"#,
        r#"{7:1,"t":1,"s":"a","l":"I","m":"x"}"#,
        r#"{"\ud800":1,"t":1,"s":"a","l":"I","m":"x"}"#,
        r#"{"n":01,"t":1,"s":"a","l":"I","m":"x"}"#,
        r#"{"n":tru,"t":1,"s":"a","l":"I","m":"x"}"#,
        r#"{"t":1.0,"s":"a","l":"I","m":"x"}"#,
        r#"{"t":-1,"s":"a","l":"I","m":"x"}"#,
        r#"{"t":18446744073709551616,"s":"a","l":"I","m":"x"}"#,
        r#"{"t":"1","s":"a","l":"I","m":"x"}"#,
        r#"{"t":1,"s":null,"l":"I","m":"x"}"#,
        r#"{"t":1,"s":"a","l":"I","m":"\ud800"}"#,
    ] {
        assert_eq!(read_log(text), None, "{}", text);
    }
    assert_eq!(
        read_log(r#"{"t":18446744073709551615,"s":"","l":"I","m":"\u00e9\ud83d\ude00"}"#),
        Some(make_log(u64::MAX, "", "I", "\u{e9}\u{1f600}")),
    );
}

#[test]
fn only_members_have_one_value() {
    let ms = vec![
        ("a".to_string(), b"1".to_vec()),
        ("b".to_string(), b"2".to_vec()),
        ("a".to_string(), b"3".to_vec()),
    ];
    assert_eq!(find_sole(&ms, "a"), None);
    assert_eq!(find_sole(&ms, "b"), Some(&b"2"[..]));
    assert_eq!(find_sole(&ms, "c"), None);
}
