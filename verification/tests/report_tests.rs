use kafka_panel::activity::{observe, ActivityEvent, GroupState};
use kafka_panel::codec::KafkaGroupMemberAssignment;
use kafka_panel::connection::{connection_settings, SaslConfig};
use kafka_panel::groups::{
    get_groups_without_ours, group_is_assigned, group_response, qualifying_offsets,
    sort_groups_by_name, CatalogError, KafkaGroup, KafkaGroupMember, KafkaGroupResponse, RawGroup,
    RawGroupMember,
};
use kafka_panel::codec::DecodeError;
use kafka_panel::probe::{partition_universe, sum_watermarks, CommittedOffset, TopicPartitions};
use kafka_panel::topics::{
    get_topics, get_topics_state, get_topics_watermark, topic_state_of, GroupProbe, TopicResponse,
};
use kafka_panel::utils::{get_app_dir_with_env, Environment};

fn assignment(topic: &str, partitions: Vec<i32>) -> KafkaGroupMemberAssignment {
    KafkaGroupMemberAssignment { topic: topic.to_string(), partitions }
}

fn group(name: &str, assignments: Vec<KafkaGroupMemberAssignment>) -> KafkaGroup {
    KafkaGroup {
        name: name.to_string(),
        members: vec![KafkaGroupMember { assignment: assignments }],
    }
}

fn offset(topic: &str, partition: i32, committed: Option<i64>) -> CommittedOffset {
    CommittedOffset { topic: topic.to_string(), partition, offset: committed }
}

#[test]
fn precedence_positive_offset_alone_disconnects() {
    let mut state = GroupState::Unconnected;
    state = observe(state, &ActivityEvent::Offset(5));
    assert_eq!(state, GroupState::Disconnected);
}

#[test]
fn precedence_assignment_wins_in_either_order() {
    let mut a = GroupState::Unconnected;
    a = observe(a, &ActivityEvent::Offset(5));
    a = observe(a, &ActivityEvent::Assignment);
    assert_eq!(a, GroupState::Consuming);

    let mut b = GroupState::Unconnected;
    b = observe(b, &ActivityEvent::Assignment);
    b = observe(b, &ActivityEvent::Offset(5));
    assert_eq!(b, GroupState::Consuming);
}

#[test]
fn precedence_zero_offset_is_no_signal() {
    let mut state = GroupState::Unconnected;
    state = observe(state, &ActivityEvent::Offset(0));
    assert_eq!(state, GroupState::Unconnected);
}

#[test]
fn catalog_excludes_house_keeping_groups() {
    let raw = vec![
        RawGroup { name: "analytics".to_string(), members: vec![] },
        RawGroup { name: "ops-kafka-panel".to_string(), members: vec![] },
    ];
    let groups = get_groups_without_ours(&raw, "kafka-panel").unwrap();
    assert_eq!(groups.len(), 1);
    assert_eq!(groups[0].name, "analytics");
}

#[test]
fn catalog_decodes_member_assignments() {
    // version 0, one topic, name "t", partitions [0, 1]
    let payload = vec![0, 0, 0, 0, 0, 1, 0, 1, b't', 0, 0, 0, 2, 0, 0, 0, 0, 0, 0, 0, 1];
    let raw = vec![RawGroup {
        name: "g".to_string(),
        members: vec![
            RawGroupMember { assignment: Some(payload) },
            RawGroupMember { assignment: None },
        ],
    }];
    let groups = get_groups_without_ours(&raw, "kafka-panel").unwrap();
    assert_eq!(groups[0].members[0].assignment, vec![assignment("t", vec![0, 1])]);
    assert_eq!(groups[0].members[1].assignment, vec![]);
}

#[test]
fn catalog_names_first_failing_member() {
    let raw = vec![RawGroup {
        name: "g".to_string(),
        members: vec![
            RawGroupMember { assignment: None },
            RawGroupMember { assignment: Some(vec![0, 0, 0]) },
        ],
    }];
    let err = get_groups_without_ours(&raw, "kafka-panel").unwrap_err();
    assert_eq!(
        err,
        CatalogError::MemberAssignment {
            group: "g".to_string(),
            member: 1,
            cause: DecodeError::Truncated,
        }
    );
}

#[test]
fn qualifying_offsets_keeps_positive_rows_of_the_topic() {
    let offsets = vec![
        offset("t", 0, Some(10)),
        offset("t", 1, Some(0)),
        offset("t", 2, None),
        offset("other", 3, Some(9)),
        offset("t", 4, Some(2)),
    ];
    let quals = qualifying_offsets(&offsets, &"t".to_string());
    assert_eq!(quals, vec![(0, 10), (4, 2)]);
}

#[test]
fn group_response_disconnected_with_sums() {
    let quals = vec![(10i64, 100i64), (2, 50)];
    let row = group_response("g".to_string(), &quals, false).unwrap();
    assert_eq!(row.name, "g");
    assert_eq!(row.state, GroupState::Disconnected);
    assert_eq!(row.watermarks, (12, 150));
}

#[test]
fn group_response_consuming_overrides() {
    let quals = vec![(10i64, 100i64)];
    let row = group_response("g".to_string(), &quals, true).unwrap();
    assert_eq!(row.state, GroupState::Consuming);
    assert_eq!(row.watermarks, (10, 100));
}

#[test]
fn group_response_absent_without_signal() {
    assert!(group_response("g".to_string(), &vec![], false).is_none());
}

#[test]
fn group_report_rows_sort_by_name() {
    let rows = vec![
        KafkaGroupResponse { name: "bravo".to_string(), state: GroupState::Consuming, watermarks: (0, 0) },
        KafkaGroupResponse { name: "alpha".to_string(), state: GroupState::Disconnected, watermarks: (1, 2) },
        KafkaGroupResponse { name: "charlie".to_string(), state: GroupState::Unconnected, watermarks: (3, 4) },
    ];
    let sorted = sort_groups_by_name(rows);
    let names: Vec<&str> = sorted.iter().map(|r| r.name.as_str()).collect();
    assert_eq!(names, vec!["alpha", "bravo", "charlie"]);
}

#[test]
fn group_is_assigned_finds_topic() {
    let g = group("g", vec![assignment("a", vec![0]), assignment("b", vec![1])]);
    assert!(group_is_assigned(&g, &"b".to_string()));
    assert!(!group_is_assigned(&g, &"c".to_string()));
}

#[test]
fn topic_report_assignment_wins_over_disconnected_offset() {
    // one topic with two partitions; the group is assigned to partition 0
    // only, and has a committed offset of 10 on partition 1 only
    let probes = vec![GroupProbe {
        group: group("g", vec![assignment("t", vec![0])]),
        offsets: vec![offset("t", 0, None), offset("t", 1, Some(10))],
    }];
    let report = get_topics_state(&vec!["t".to_string()], &probes);
    assert_eq!(report.len(), 1);
    assert_eq!(report[0].0, "t");
    assert_eq!(report[0].1, GroupState::Consuming);
}

#[test]
fn topic_report_offset_alone_disconnects() {
    let probes = vec![GroupProbe {
        group: group("g", vec![]),
        offsets: vec![offset("t", 0, Some(3))],
    }];
    assert_eq!(topic_state_of(&probes, &"t".to_string()), GroupState::Disconnected);
}

#[test]
fn topic_report_no_signal_is_unconnected() {
    let probes = vec![GroupProbe {
        group: group("g", vec![assignment("other", vec![0])]),
        offsets: vec![offset("t", 0, Some(0)), offset("t", 1, None)],
    }];
    assert_eq!(topic_state_of(&probes, &"t".to_string()), GroupState::Unconnected);
}

#[test]
fn topic_catalog_filters_internal_topic_and_sorts() {
    let metadata = vec![
        TopicPartitions { name: "zeta".to_string(), partitions: vec![0, 1] },
        TopicPartitions { name: "__consumer_offsets".to_string(), partitions: vec![0] },
        TopicPartitions { name: "alpha".to_string(), partitions: vec![0] },
    ];
    let topics = get_topics(&metadata);
    assert_eq!(
        topics,
        vec![
            TopicResponse { name: "alpha".to_string(), partitions: 1 },
            TopicResponse { name: "zeta".to_string(), partitions: 2 },
        ]
    );
}

#[test]
fn partition_universe_flattens_metadata() {
    let metadata = vec![
        TopicPartitions { name: "a".to_string(), partitions: vec![0, 1] },
        TopicPartitions { name: "b".to_string(), partitions: vec![5] },
    ];
    let universe = partition_universe(&metadata);
    assert_eq!(
        universe,
        vec![("a".to_string(), 0), ("a".to_string(), 1), ("b".to_string(), 5)]
    );
}

#[test]
fn watermark_row_sums_partition_highs() {
    let row = get_topics_watermark("t".to_string(), &vec![3, 4, 5]);
    assert_eq!(row.topic, "t");
    assert_eq!(row.watermark, 12);
}

#[test]
fn watermark_sum_saturates_instead_of_overflowing() {
    assert_eq!(sum_watermarks(&vec![i64::MAX, 1]), i64::MAX);
    assert_eq!(sum_watermarks(&vec![i64::MIN, -1]), i64::MIN);
}

#[test]
fn connection_settings_plain_sasl() {
    let brokers = vec!["a:9092".to_string(), "b:9092".to_string()];
    let sasl = SaslConfig {
        mechanism: "PLAIN".to_string(),
        username: "user".to_string(),
        password: "pw".to_string(),
    };
    let settings = connection_settings(&brokers, "panel".to_string(), Some(sasl));
    assert_eq!(
        settings,
        vec![
            ("bootstrap.servers".to_string(), "a:9092,b:9092".to_string()),
            ("group.id".to_string(), "panel".to_string()),
            ("sasl.mechanism".to_string(), "PLAIN".to_string()),
            ("sasl.username".to_string(), "user".to_string()),
            ("sasl.password".to_string(), "pw".to_string()),
        ]
    );
}

#[test]
fn connection_settings_non_plain_sasl_uses_tls() {
    let brokers = vec!["broker:9093".to_string()];
    let sasl = SaslConfig {
        mechanism: "SCRAM-SHA-512".to_string(),
        username: "user".to_string(),
        password: "pw".to_string(),
    };
    let settings = connection_settings(&brokers, "panel".to_string(), Some(sasl));
    assert_eq!(settings[2], ("security.protocol".to_string(), "SASL_SSL".to_string()));
    assert_eq!(settings.len(), 6);
}

#[test]
fn connection_settings_without_sasl() {
    let brokers = vec!["broker:9092".to_string()];
    let settings = connection_settings(&brokers, "panel".to_string(), None);
    assert_eq!(
        settings,
        vec![
            ("bootstrap.servers".to_string(), "broker:9092".to_string()),
            ("group.id".to_string(), "panel".to_string()),
        ]
    );
}

#[test]
fn app_dir_follows_environment() {
    assert_eq!(get_app_dir_with_env("/home/u/.kafka_panel", &Environment::Release), "/home/u/.kafka_panel/release");
    assert_eq!(get_app_dir_with_env("/home/u/.kafka_panel", &Environment::Dev), "/home/u/.kafka_panel/dev");
    assert_eq!(get_app_dir_with_env("/home/u/.kafka_panel", &Environment::E2E), "/home/u/.kafka_panel/e2e");
}
