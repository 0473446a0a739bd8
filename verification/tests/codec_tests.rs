use kafka_panel::codec::{encode_assignment, parse_assignment, DecodeError, KafkaGroupMemberAssignment};

fn entry(topic: &str, partitions: Vec<i32>) -> KafkaGroupMemberAssignment {
    KafkaGroupMemberAssignment { topic: topic.to_string(), partitions }
}

#[test]
fn round_trip_single_topic() {
    let assigns = vec![entry("orders", vec![0, 1, 2])];
    let bytes = encode_assignment(0, &assigns).unwrap();
    let decoded = parse_assignment(&bytes).unwrap();
    assert_eq!(decoded, assigns);
}

#[test]
fn round_trip_multiple_topics_and_versions() {
    let assigns = vec![
        entry("payments", vec![3]),
        entry("audit", vec![]),
        entry("logs", vec![7, 1, 7]),
    ];
    for version in [0u16, 1, 2, 0x7fff] {
        let bytes = encode_assignment(version, &assigns).unwrap();
        let decoded = parse_assignment(&bytes).unwrap();
        assert_eq!(decoded, assigns);
    }
}

#[test]
fn round_trip_non_ascii_topic_and_negative_partition() {
    let assigns = vec![entry("caf\u{e9}-t\u{f6}pic", vec![-1, i32::MIN, i32::MAX])];
    let bytes = encode_assignment(1, &assigns).unwrap();
    let decoded = parse_assignment(&bytes).unwrap();
    assert_eq!(decoded, assigns);
}

#[test]
fn empty_payload_decodes_to_empty_assignment() {
    assert_eq!(parse_assignment(&[]), Ok(vec![]));
}

#[test]
fn decode_known_bytes() {
    // version 0, one topic, name "ab", one partition with id 5
    let bytes = [0, 0, 0, 0, 0, 1, 0, 2, b'a', b'b', 0, 0, 0, 1, 0, 0, 0, 5];
    let decoded = parse_assignment(&bytes).unwrap();
    assert_eq!(decoded, vec![entry("ab", vec![5])]);
}

#[test]
fn every_nonempty_strict_prefix_is_truncated() {
    let assigns = vec![entry("alpha", vec![1, 2]), entry("b", vec![])];
    let bytes = encode_assignment(0, &assigns).unwrap();
    for cut in 1..bytes.len() {
        assert_eq!(parse_assignment(&bytes[..cut]), Err(DecodeError::Truncated));
    }
}

#[test]
fn invalid_utf8_topic_name_is_encoding_error() {
    // version 0, one topic, two name bytes that are not UTF-8
    let bytes = [0, 0, 0, 0, 0, 1, 0, 2, 0xff, 0xfe, 0, 0, 0, 0];
    assert_eq!(parse_assignment(&bytes), Err(DecodeError::Encoding));
}

#[test]
fn negative_topic_count_decodes_to_empty() {
    let bytes = [0, 0, 0xff, 0xff, 0xff, 0xff];
    assert_eq!(parse_assignment(&bytes), Ok(vec![]));
}

#[test]
fn negative_name_length_is_truncated() {
    let bytes = [0, 0, 0, 0, 0, 1, 0x80, 0x00, b'a', b'b'];
    assert_eq!(parse_assignment(&bytes), Err(DecodeError::Truncated));
}

#[test]
fn negative_partition_count_reads_no_partitions() {
    let bytes = [0, 0, 0, 0, 0, 1, 0, 1, b'x', 0xff, 0xff, 0xff, 0xff];
    let decoded = parse_assignment(&bytes).unwrap();
    assert_eq!(decoded, vec![entry("x", vec![])]);
}

#[test]
fn encode_rejects_oversized_topic_name() {
    let long_name: String = "a".repeat(0x8000);
    let assigns = vec![KafkaGroupMemberAssignment { topic: long_name, partitions: vec![] }];
    assert!(encode_assignment(0, &assigns).is_none());
}

#[test]
fn trailing_bytes_after_declared_topics_are_ignored() {
    let assigns = vec![entry("t", vec![2])];
    let mut bytes = encode_assignment(0, &assigns).unwrap();
    bytes.push(0xaa);
    let decoded = parse_assignment(&bytes).unwrap();
    assert_eq!(decoded, assigns);
}
