//! Templates, parameters and their encodings.

use mini_obs::agent::parts::{Template, TemplatePart};
use mini_obs::agent::records::{params_well_formed, TemplateBatch};
use mini_obs::agent::template::TemplateExtractor;
use mini_obs::agent::typed::{ParamType, TypedParam};
use mini_obs::agent::xor::xor_well_formed;
use mini_obs::shared::error::DataError;
use mini_obs::shared::format::LogLine;

fn make_log(idx: usize, msg: &str) -> LogLine {
    LogLine {
        ts: 1000 + idx as u64 * 100,
        service: "app".to_string(),
        level: "I".to_string(),
        message: msg.to_string(),
    }
}

#[test]
fn test_typed_param_integer() {
    let p = TypedParam::from_str("12345");
    assert_eq!(p.ty, ParamType::Integer);
    assert_eq!(p.to_string(), "12345");
    assert_eq!(p.bytes.len(), 8);
}

#[test]
fn test_typed_param_hex() {
    let p = TypedParam::from_str("0x80004005");
    assert_eq!(p.ty, ParamType::Hex);
    assert_eq!(p.to_string(), "0x80004005");
    assert_eq!(p.bytes.len(), 8);
}

#[test]
fn test_typed_param_ipv4() {
    let p = TypedParam::from_str("192.168.1.1");
    assert_eq!(p.ty, ParamType::IPv4);
    assert_eq!(p.to_string(), "192.168.1.1");
    assert_eq!(p.bytes.len(), 4);
}

#[test]
fn test_typed_param_string() {
    let p = TypedParam::from_str("hello-world");
    assert_eq!(p.ty, ParamType::String);
    assert_eq!(p.to_string(), "hello-world");
}

#[test]
fn test_typed_param_reject_leading_zeros() {
    let p = TypedParam::from_str("007");
    assert_eq!(p.ty, ParamType::String);
    assert_eq!(p.to_string(), "007");
}

#[test]
fn test_typed_param_block_id() {
    let p = TypedParam::from_str("blk_38865049064139660");
    assert_eq!(p.ty, ParamType::BlockId);
    assert_eq!(p.to_string(), "blk_38865049064139660");
    assert_eq!(p.bytes.len(), 9);

    let p2 = TypedParam::from_str("blk_-6952295868487656571");
    assert_eq!(p2.ty, ParamType::BlockId);
    assert_eq!(p2.to_string(), "blk_-6952295868487656571");
}

#[test]
fn test_typed_param_ipv4_port() {
    let p = TypedParam::from_str("10.251.73.220:50010");
    assert_eq!(p.ty, ParamType::IPv4Port);
    assert_eq!(p.to_string(), "10.251.73.220:50010");
    assert_eq!(p.bytes.len(), 6);
}

#[test]
fn test_typed_param_timestamp() {
    let p = TypedParam::from_str("081109");
    assert_eq!(p.ty, ParamType::Timestamp);
    assert_eq!(p.to_string(), "081109");

    let p2 = TypedParam::from_str("203615");
    assert_eq!(p2.ty, ParamType::Timestamp);
    assert_eq!(p2.to_string(), "203615");
}

#[test]
fn test_typed_param_path() {
    let p = TypedParam::from_str("/user/root/rand/_temporary/_task_200811092030_0001_m_000590_0/part-00590.");
    assert_eq!(p.ty, ParamType::Path);
    assert_eq!(p.to_string(), "/user/root/rand/_temporary/_task_200811092030_0001_m_000590_0/part-00590.");
}

#[test]
fn test_structural_grouping_prevents_cross_type_merge() {
    let logs = vec![
        make_log(0, "PacketResponder 1 for block blk_111 terminating"),
        make_log(1, "PacketResponder 2 for block blk_222 terminating"),
        make_log(2, "BLOCK* NameSystem.addStoredBlock: blockMap updated: 10.251.73.220:50010 is added to blk_333 size 67108864"),
        make_log(3, "BLOCK* NameSystem.addStoredBlock: blockMap updated: 10.251.73.221:50010 is added to blk_444 size 67108864"),
    ];
    let batch = TemplateExtractor::extract(&logs);

    assert_eq!(batch.templates.len(), 2, "two templates are expected");

    for t in &batch.templates {
        let param_count = t.parts.iter().filter(|p| matches!(p, TemplatePart::Param)).count();
        let literal_count = t.parts.len() - param_count;
        assert!(
            literal_count >= 2,
            "too little fixed text: {:?}",
            t
        );
    }
}

#[test]
fn test_xor_bytes_roundtrip() {
    let base = b"192.168.1.100";
    let curr = b"192.168.1.200";
    let encoded = TemplateExtractor::xor_param_bytes(curr, base);
    let (decoded, _) = TemplateExtractor::decode_xor_param_bytes(&encoded, base);
    assert_eq!(decoded, curr);
}

#[test]
fn test_template_extraction_basic() {
    let logs = vec![
        make_log(0, "User 12345 logged in from 192.168.1.1"),
        make_log(1, "User 67890 logged in from 192.168.1.2"),
        make_log(2, "User 11111 logged in from 192.168.1.3"),
        make_log(3, "Query SELECT * FROM users executed in 45ms"),
        make_log(4, "Query SELECT * FROM orders executed in 120ms"),
    ];

    let batch = TemplateExtractor::extract(&logs);

    assert_eq!(batch.templates.len(), 2);
    assert_eq!(batch.records.len(), 5);

    let user_rec = &batch.records[0];
    assert_eq!(user_rec.params.len(), 2);
    assert_eq!(user_rec.params[0].to_string(), "12345");
    assert_eq!(user_rec.params[1].to_string(), "192.168.1.1");

    let query_rec = &batch.records[3];
    assert!(query_rec.params.len() >= 1);
}

#[test]
fn test_new_template_fallback() {
    let logs = vec![
        make_log(0, "User 12345 logged in"),
        make_log(1, "Completely different format with no similarity at all"),
    ];

    let batch = TemplateExtractor::extract(&logs);

    assert_eq!(batch.templates.len(), 2);
    assert_eq!(batch.records.len(), 2);
    assert_eq!(batch.records[0].params.len(), 0);
    assert_eq!(batch.records[1].params.len(), 0);
}

#[test]
fn test_xor_roundtrip() {
    let base = "192.168.1.100";
    let curr = "192.168.1.200";

    let encoded = TemplateExtractor::xor_param_bytes(curr.as_bytes(), base.as_bytes());
    let (decoded, _) = TemplateExtractor::decode_xor_param_bytes(&encoded, base.as_bytes());

    assert_eq!(decoded, curr.as_bytes());
}

#[test]
fn test_xor_identical() {
    let s = "hello_world_12345";
    let encoded = TemplateExtractor::xor_param_bytes(s.as_bytes(), s.as_bytes());
    let (decoded, _) = TemplateExtractor::decode_xor_param_bytes(&encoded, s.as_bytes());
    assert_eq!(decoded, s.as_bytes());
}

#[test]
fn test_xor_encode_decode_batch() {
    let logs = vec![
        make_log(0, "User 12345 logged in from 192.168.1.1"),
        make_log(1, "User 67890 logged in from 192.168.1.2"),
        make_log(2, "User 11111 logged in from 192.168.1.3"),
    ];

    let batch = TemplateExtractor::extract(&logs);
    let encoded = TemplateExtractor::encode_xor(&batch, 16);

    assert_eq!(encoded.len(), 3);

    assert_eq!(encoded[0].param_encoding.ref_idx, 0);

    assert_eq!(encoded[1].param_encoding.ref_idx, 1);

    let ref_params = &batch.records[0].params;
    let decoded = TemplateExtractor::decode_xor(&encoded[1], ref_params);
    assert_eq!(decoded.len(), batch.records[1].params.len());
    for (a, b) in decoded.iter().zip(batch.records[1].params.iter()) {
        assert_eq!(a.to_string(), b.to_string());
    }
}

#[test]
fn test_xor_reset_interval() {
    let logs: Vec<LogLine> = (0..20)
        .map(|i| make_log(i, &format!("User {} logged in", i)))
        .collect();

    let batch = TemplateExtractor::extract(&logs);
    let encoded = TemplateExtractor::encode_xor(&batch, 5);

    assert_eq!(encoded[0].param_encoding.ref_idx, 0);
    assert_eq!(encoded[4].param_encoding.ref_idx, 4);
    assert_eq!(encoded[5].param_encoding.ref_idx, 0);
}

#[test]
fn test_64bit_alignment() {
    let short = b"12345";
    let long = b"1234567890123";

    let enc1 = TemplateExtractor::xor_param_bytes(short, short);
    let enc2 = TemplateExtractor::xor_param_bytes(long, long);

    let chunks1 = u16::from_le_bytes([enc1[0], enc1[1]]);
    let chunks2 = u16::from_le_bytes([enc2[0], enc2[1]]);
    assert_eq!(chunks1, 1);
    assert_eq!(chunks2, 2);

    let len1 = u16::from_le_bytes([enc1[2], enc1[3]]);
    let len2 = u16::from_le_bytes([enc2[2], enc2[3]]);
    assert_eq!(len1, 5);
    assert_eq!(len2, 13);
}

#[test]
fn template_test_extract_empty_batch() {
    let empty: Vec<LogLine> = vec![];
    let batch = TemplateExtractor::extract(&empty);
    assert!(batch.templates.is_empty());
    assert!(batch.records.is_empty());
}

#[test]
fn template_test_extract_single_log() {
    let logs = vec![make_log(0, "only one log message")];
    let batch = TemplateExtractor::extract(&logs);
    assert_eq!(batch.templates.len(), 1);
    assert_eq!(batch.records.len(), 1);
    assert_eq!(batch.records[0].params.len(), 0);
}

#[test]
fn template_test_extract_identical_messages() {
    let logs: Vec<LogLine> = (0..5)
        .map(|i| make_log(i, "Identical log message here"))
        .collect();
    let batch = TemplateExtractor::extract(&logs);
    assert_eq!(batch.templates.len(), 1);
    assert_eq!(batch.records.len(), 5);
    for rec in &batch.records {
        assert_eq!(rec.params.len(), 0);
    }
}

#[test]
fn template_test_extract_unicode_params() {
    let logs = vec![
        make_log(0, "用户 张三 登录成功"),
        make_log(1, "用户 李四 登录成功"),
        make_log(2, "用户 王五 登录成功"),
    ];
    let batch = TemplateExtractor::extract(&logs);
    assert_eq!(batch.templates.len(), 1);
    assert_eq!(batch.records.len(), 3);
    assert_eq!(batch.records[0].params.len(), 1);
    assert_eq!(batch.records[0].params[0].to_string(), "张三");
    assert_eq!(batch.records[1].params[0].to_string(), "李四");
}

#[test]
fn template_test_extract_emoji_and_special() {
    let logs = vec![
        make_log(0, "🎉 Party at 2026-05-15 with 🎂"),
        make_log(1, "🎉 Party at 2026-05-16 with 🎁"),
    ];
    let batch = TemplateExtractor::extract(&logs);
    assert_eq!(batch.templates.len(), 1);
    assert_eq!(batch.records.len(), 2);
    assert!(batch.records[0].params.len() >= 1);
}

#[test]
fn template_test_extract_very_long_message() {
    let long_base = "a".repeat(4096);
    let logs = vec![
        make_log(0, &format!("{} {}", long_base, "suffix1")),
        make_log(1, &format!("{} {}", long_base, "suffix2")),
    ];
    let batch = TemplateExtractor::extract(&logs);
    assert_eq!(batch.templates.len(), 1);
    assert_eq!(batch.records.len(), 2);
}

#[test]
fn template_test_extract_no_common_pattern() {
    let logs = vec![
        make_log(0, "Alpha beta gamma"),
        make_log(1, "One two three four"),
        make_log(2, "Xyzzy plugh plover"),
    ];
    let batch = TemplateExtractor::extract(&logs);
    assert!(batch.templates.len() >= 1);
    assert_eq!(batch.records.len(), 3);
}

#[test]
fn template_test_xor_param_length_mismatch() {
    let base = "short";
    let curr = "this is a much longer string with many characters";
    let encoded = TemplateExtractor::xor_param_bytes(curr.as_bytes(), base.as_bytes());
    let (decoded, _) = TemplateExtractor::decode_xor_param_bytes(&encoded, base.as_bytes());
    assert_eq!(decoded, curr.as_bytes());
}

#[test]
fn template_test_xor_param_base_longer_than_curr() {
    let base = "this is the long base string for testing";
    let curr = "tiny";
    let encoded = TemplateExtractor::xor_param_bytes(curr.as_bytes(), base.as_bytes());
    let (decoded, _) = TemplateExtractor::decode_xor_param_bytes(&encoded, base.as_bytes());
    assert_eq!(decoded, curr.as_bytes());
}

#[test]
fn template_test_xor_param_empty_string() {
    let base = "nonempty";
    let curr = "";
    let encoded = TemplateExtractor::xor_param_bytes(curr.as_bytes(), base.as_bytes());
    let (decoded, _) = TemplateExtractor::decode_xor_param_bytes(&encoded, base.as_bytes());
    assert_eq!(decoded, curr.as_bytes());
}

#[test]
fn template_test_xor_param_exactly_8_bytes() {
    let base = b"12345678";
    let curr = b"abcdefgh";
    let encoded = TemplateExtractor::xor_param_bytes(curr, base);
    let chunks = u16::from_le_bytes([encoded[0], encoded[1]]);
    assert_eq!(chunks, 1);
    let (decoded, _) = TemplateExtractor::decode_xor_param_bytes(&encoded, base);
    assert_eq!(decoded, curr);
}

#[test]
fn template_test_xor_param_exactly_16_bytes() {
    let base = b"1234567890123456";
    let curr = b"abcdefghijklmnop";
    let encoded = TemplateExtractor::xor_param_bytes(curr, base);
    let chunks = u16::from_le_bytes([encoded[0], encoded[1]]);
    assert_eq!(chunks, 2);
    let (decoded, _) = TemplateExtractor::decode_xor_param_bytes(&encoded, base);
    assert_eq!(decoded, curr);
}

#[test]
fn template_test_encode_xor_empty_params() {
    let logs = vec![
        make_log(0, "No params here"),
        make_log(1, "No params here"),
    ];
    let batch = TemplateExtractor::extract(&logs);
    let encoded = TemplateExtractor::encode_xor(&batch, 16);
    assert_eq!(encoded.len(), 2);
    assert_eq!(encoded[0].param_encoding.data.len(), 4);
}

#[test]
fn template_test_template_batch_pattern_table_roundtrip() {
    let logs = vec![
        make_log(0, "User 12345 logged in from 192.168.1.1"),
        make_log(1, "User 67890 logged in from 192.168.1.2"),
        make_log(2, "Query SELECT * FROM users executed in 45ms"),
        make_log(3, "Query SELECT * FROM orders executed in 120ms"),
    ];
    let batch = TemplateExtractor::extract(&logs);
    let table = batch.serialize_pattern_table();
    let templates = TemplateBatch::deserialize_pattern_table(&table).unwrap();

    assert_eq!(templates.len(), batch.templates.len());
    for (a, b) in batch.templates.iter().zip(templates.iter()) {
        assert_eq!(a.parts.len(), b.parts.len());
        for (pa, pb) in a.parts.iter().zip(b.parts.iter()) {
            assert_eq!(pa, pb);
        }
    }
}

#[test]
fn template_test_template_deserialize_error_truncated() {
    let bad_data = vec![0x01, 0x00];
    let result = Template::deserialize(&bad_data);
    assert!(result.is_err());
}

#[test]
fn template_test_template_deserialize_error_unknown_tag() {
    let mut buf = vec![0x01, 0x00];
    buf.push(0x99);
    let result = Template::deserialize(&buf);
    assert!(result.is_err());
}

#[test]
fn template_test_read_u64_le_bounds() {
    let bytes = b"hello";
    assert_eq!(TemplateExtractor::read_u64_le(bytes, 0, 5), 0x6f6c6c6568);
    assert_eq!(TemplateExtractor::read_u64_le(bytes, 10, 5), 0);
    assert_eq!(TemplateExtractor::read_u64_le(bytes, 3, 5), 0x6f6c);
}

#[test]
fn template_test_tokenize_various() {
    let cases = vec![
        ("simple", vec!["simple"]),
        ("two words", vec!["two", " ", "words"]),
        ("a,b.c", vec!["a", ",", "b.c"]),
        ("num123_456", vec!["num123_456"]),
    ];
    for (input, expected) in cases {
        let tokens = TemplateExtractor::tokenize(input);
        assert_eq!(tokens, expected.iter().map(|s| s.to_string()).collect::<Vec<_>>());
    }
}

#[test]
fn template_more_tests_test_extract_empty_batch() {
    let empty: Vec<LogLine> = vec![];
    let batch = TemplateExtractor::extract(&empty);
    assert!(batch.templates.is_empty());
    assert!(batch.records.is_empty());
}

#[test]
fn template_more_tests_test_extract_single_log() {
    let logs = vec![make_log(0, "only one log message")];
    let batch = TemplateExtractor::extract(&logs);
    assert_eq!(batch.templates.len(), 1);
    assert_eq!(batch.records.len(), 1);
    assert_eq!(batch.records[0].params.len(), 0);
}

#[test]
fn template_more_tests_test_extract_identical_messages() {
    let logs: Vec<LogLine> = (0..5)
        .map(|i| make_log(i, "Identical log message here"))
        .collect();
    let batch = TemplateExtractor::extract(&logs);
    assert_eq!(batch.templates.len(), 1);
    assert_eq!(batch.records.len(), 5);
    for rec in &batch.records {
        assert_eq!(rec.params.len(), 0);
    }
}

#[test]
fn template_more_tests_test_extract_unicode_params() {
    let logs = vec![
        make_log(0, "用户 张三 登录成功"),
        make_log(1, "用户 李四 登录成功"),
        make_log(2, "用户 王五 登录成功"),
    ];
    let batch = TemplateExtractor::extract(&logs);
    assert_eq!(batch.templates.len(), 1);
    assert_eq!(batch.records.len(), 3);
    assert_eq!(batch.records[0].params.len(), 1);
    assert_eq!(batch.records[0].params[0].to_string(), "张三");
    assert_eq!(batch.records[1].params[0].to_string(), "李四");
}

#[test]
fn template_more_tests_test_extract_emoji_and_special() {
    let logs = vec![
        make_log(0, "🎉 Party at 2026-05-15 with 🎂"),
        make_log(1, "🎉 Party at 2026-05-16 with 🎁"),
    ];
    let batch = TemplateExtractor::extract(&logs);
    assert_eq!(batch.templates.len(), 1);
    assert_eq!(batch.records.len(), 2);
    assert!(batch.records[0].params.len() >= 1);
}

#[test]
fn template_more_tests_test_extract_very_long_message() {
    let long_base = "a".repeat(4096);
    let logs = vec![
        make_log(0, &format!("{} {}", long_base, "suffix1")),
        make_log(1, &format!("{} {}", long_base, "suffix2")),
    ];
    let batch = TemplateExtractor::extract(&logs);
    assert_eq!(batch.templates.len(), 1);
    assert_eq!(batch.records.len(), 2);
}

#[test]
fn template_more_tests_test_extract_no_common_pattern() {
    let logs = vec![
        make_log(0, "Alpha beta gamma"),
        make_log(1, "One two three four"),
        make_log(2, "Xyzzy plugh plover"),
    ];
    let batch = TemplateExtractor::extract(&logs);
    assert!(batch.templates.len() >= 1);
    assert_eq!(batch.records.len(), 3);
}

#[test]
fn template_more_tests_test_xor_param_length_mismatch() {
    let base = "short";
    let curr = "this is a much longer string with many characters";
    let encoded = TemplateExtractor::xor_param_bytes(curr.as_bytes(), base.as_bytes());
    let (decoded, _) = TemplateExtractor::decode_xor_param_bytes(&encoded, base.as_bytes());
    assert_eq!(decoded, curr.as_bytes());
}

#[test]
fn template_more_tests_test_xor_param_base_longer_than_curr() {
    let base = "this is the long base string for testing";
    let curr = "tiny";
    let encoded = TemplateExtractor::xor_param_bytes(curr.as_bytes(), base.as_bytes());
    let (decoded, _) = TemplateExtractor::decode_xor_param_bytes(&encoded, base.as_bytes());
    assert_eq!(decoded, curr.as_bytes());
}

#[test]
fn template_more_tests_test_xor_param_empty_string() {
    let base = "nonempty";
    let curr = "";
    let encoded = TemplateExtractor::xor_param_bytes(curr.as_bytes(), base.as_bytes());
    let (decoded, _) = TemplateExtractor::decode_xor_param_bytes(&encoded, base.as_bytes());
    assert_eq!(decoded, "".as_bytes());
}

#[test]
fn template_more_tests_test_xor_param_exactly_8_bytes() {
    let base = "12345678";
    let curr = "abcdefgh";
    let encoded = TemplateExtractor::xor_param_bytes(curr.as_bytes(), base.as_bytes());
    let chunks = u16::from_le_bytes([encoded[0], encoded[1]]);
    assert_eq!(chunks, 1);
    let (decoded, _) = TemplateExtractor::decode_xor_param_bytes(&encoded, base.as_bytes());
    assert_eq!(decoded, curr.as_bytes());
}

#[test]
fn template_more_tests_test_xor_param_exactly_16_bytes() {
    let base = "1234567890123456";
    let curr = "abcdefghijklmnop";
    let encoded = TemplateExtractor::xor_param_bytes(curr.as_bytes(), base.as_bytes());
    let chunks = u16::from_le_bytes([encoded[0], encoded[1]]);
    assert_eq!(chunks, 2);
    let (decoded, _) = TemplateExtractor::decode_xor_param_bytes(&encoded, base.as_bytes());
    assert_eq!(decoded, curr.as_bytes());
}

#[test]
fn template_more_tests_test_template_batch_pattern_table_roundtrip() {
    let logs = vec![
        make_log(0, "User 12345 logged in from 192.168.1.1"),
        make_log(1, "User 67890 logged in from 192.168.1.2"),
        make_log(2, "Query SELECT * FROM users executed in 45ms"),
        make_log(3, "Query SELECT * FROM orders executed in 120ms"),
    ];
    let batch = TemplateExtractor::extract(&logs);
    let table = batch.serialize_pattern_table();
    let templates = TemplateBatch::deserialize_pattern_table(&table).unwrap();

    assert_eq!(templates.len(), batch.templates.len());
    for (a, b) in batch.templates.iter().zip(templates.iter()) {
        assert_eq!(a.parts.len(), b.parts.len());
        for (pa, pb) in a.parts.iter().zip(b.parts.iter()) {
            assert_eq!(pa, pb);
        }
    }
}

#[test]
fn template_more_tests_test_template_deserialize_error_truncated() {
    let bad_data = vec![0x01, 0x00];
    let result = Template::deserialize(&bad_data);
    assert!(result.is_err());
}

#[test]
fn template_more_tests_test_template_deserialize_error_unknown_tag() {
    let mut buf = vec![0x01, 0x00];
    buf.push(0x99);
    let result = Template::deserialize(&buf);
    assert!(result.is_err());
}

#[test]
fn parameter_kinds_keep_their_texts() {
    let texts = [
        "", "0", "-0", "+5", "-9223372036854775808", "9223372036854775808", "0x0", "0xFF", "0x00ff",
        "1.2.3.4", "01.2.3.4", "1.2.3.256", "1.2.3.4:0", "1.2.3.4:080", "blk_0", "blk_-1", "blk_+1",
        "000000", "123456", "/a/b", "\u{6f22}\u{5b57}",
    ];
    let mut i = 0;
    while i < texts.len() {
        assert_eq!(TypedParam::from_str(texts[i]).to_string(), texts[i]);
        i += 1;
    }
}

#[test]
fn parameter_kind_codes() {
    let mut code = 0u8;
    while code < 8 {
        assert_eq!(ParamType::from_u8(code).unwrap().to_u8(), code);
        code += 1;
    }
    assert!(ParamType::from_u8(8).is_none());
}

#[test]
fn integer_parameter_bytes() {
    assert_eq!(TypedParam::from_str("-2").bytes, vec![0xfe, 255, 255, 255, 255, 255, 255, 255]);
    assert_eq!(TypedParam::from_str("10.0.0.1").bytes, vec![10, 0, 0, 1]);
    assert_eq!(TypedParam::from_str("081109").bytes, vec![0, 8, 11, 9]);
}

#[test]
fn template_bytes_are_exact() {
    let t = Template {
        id: 0,
        parts: vec![TemplatePart::Literal("ab".to_string()), TemplatePart::Param],
    };
    assert_eq!(t.serialize(), vec![2, 0, 1, 2, 0, 0, 0, b'a', b'b', 2]);
}

#[test]
fn template_errors_name_their_cause() {
    assert_eq!(Template::deserialize(&[1]).unwrap_err(), DataError::TemplateTooShort);
    assert_eq!(Template::deserialize(&[1, 0]).unwrap_err(), DataError::PartTagMissing);
    assert_eq!(Template::deserialize(&[1, 0, 1, 5]).unwrap_err(), DataError::LiteralLenMissing);
    assert_eq!(
        Template::deserialize(&[1, 0, 1, 5, 0, 0, 0, b'a']).unwrap_err(),
        DataError::LiteralTruncated
    );
    assert_eq!(Template::deserialize(&[1, 0, 9]).unwrap_err(), DataError::UnknownPartTag);
}

#[test]
fn texts_that_are_no_utf8_are_replaced() {
    let p = TypedParam { ty: ParamType::String, bytes: vec![b'a', 0xff, b'b'] };
    assert_eq!(p.to_string(), "a\u{fffd}b");
    let (t, used) = Template::deserialize(&[1, 0, 1, 1, 0, 0, 0, 0xff, 7]).unwrap();
    assert_eq!(used, 8);
    assert_eq!(t.parts, vec![TemplatePart::Literal("\u{fffd}".to_string())]);
}

#[test]
fn damaged_parameters_are_noticed() {
    let encoded = TemplateExtractor::xor_param_bytes(b"hello world", b"hello");
    assert!(xor_well_formed(&encoded));
    assert!(!xor_well_formed(&encoded[..encoded.len() - 1]));
    let logs = [make_log(0, "User 1 logged in"), make_log(1, "User 2 logged in")];
    let batch = TemplateExtractor::extract(&logs);
    let records = TemplateExtractor::encode_xor(&batch, 16);
    let p = &records[1].param_encoding;
    assert!(params_well_formed(&p.data, p.ref_idx));
    assert!(!params_well_formed(&p.data[..p.data.len() - 1], p.ref_idx));
}

#[test]
fn extraction_loses_nothing() {
    let messages = [
        "GET /index.html 200 12ms from 10.0.0.1:80",
        "GET /other.html 404 7ms from 10.0.0.2:81",
        "  leading and trailing  ",
        "",
        "tabs\tand\nnewlines",
        "\u{1f389} Party",
    ];
    let mut logs = Vec::new();
    let mut i = 0;
    while i < messages.len() {
        logs.push(make_log(i, messages[i]));
        i += 1;
    }
    let batch = TemplateExtractor::extract(&logs);
    let mut i = 0;
    while i < logs.len() {
        let rec = &batch.records[i];
        let params = mini_obs::agent::typed::param_strings(&rec.params);
        let t = &batch.templates[rec.pat_id as usize];
        assert_eq!(
            mini_obs::agent::parts::render_template(&t.parts, &params, ""),
            messages[i]
        );
        i += 1;
    }
}
