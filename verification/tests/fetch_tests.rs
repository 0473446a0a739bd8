use kafka_panel::fetch::{
    compute_seek, fetch_step, poll_timeout_ms, process_message, seek_step, select_recent,
    sort_messages, FetchError, FetchEvent, FetchMode, FetchPhase, KafkaMessageResponse,
    RawHeader, RawMessage, SeekOutcome, SeekStep, SeekTarget, SEEK_RETRY_CEILING,
};

fn msg(partition: i32, offset: i64, timestamp: i64) -> KafkaMessageResponse {
    KafkaMessageResponse {
        headers: None,
        value: Some(format!("m-{partition}-{offset}")),
        key: None,
        offset,
        partition,
        timestamp,
    }
}

fn raw(partition: i32, offset: i64) -> RawMessage {
    RawMessage {
        key: Some(b"key".to_vec()),
        payload: Some(b"value".to_vec()),
        headers: None,
        partition,
        offset,
        timestamp_ms: Some(1_700_000_000_000),
    }
}

#[test]
fn seek_inside_retained_range() {
    assert_eq!(compute_seek(100, 1000, 300), SeekTarget::At(700));
}

#[test]
fn seek_clamps_to_earliest() {
    assert_eq!(compute_seek(100, 250, 300), SeekTarget::Beginning);
}

#[test]
fn seek_window_zero_stays_at_high_only_if_past_low() {
    assert_eq!(compute_seek(0, 10, 0), SeekTarget::At(10));
    assert_eq!(compute_seek(10, 10, 0), SeekTarget::Beginning);
}

#[test]
fn transient_seek_retries_exactly_to_the_ceiling() {
    let mut attempts: u32 = 0;
    let result = loop {
        attempts += 1;
        match seek_step(attempts, &SeekOutcome::Transient) {
            SeekStep::Retry => continue,
            other => break other,
        }
    };
    assert_eq!(attempts, SEEK_RETRY_CEILING);
    assert_eq!(result, SeekStep::Fail);
}

#[test]
fn fatal_seek_error_fails_immediately() {
    assert_eq!(seek_step(1, &SeekOutcome::Fatal("broker gone".to_string())), SeekStep::Fail);
}

#[test]
fn accepted_seek_proceeds() {
    assert_eq!(seek_step(1, &SeekOutcome::Accepted), SeekStep::Proceed);
}

#[test]
fn phase_machine_bounded_flow() {
    let mode = FetchMode::Bounded;
    let mut p = FetchPhase::Unassigned;
    p = fetch_step(&p, &FetchEvent::AssignStarted, mode);
    assert_eq!(p, FetchPhase::Assigning);
    p = fetch_step(&p, &FetchEvent::Assigned, mode);
    assert_eq!(p, FetchPhase::Seeking { attempts: 0 });
    p = fetch_step(&p, &FetchEvent::SeekResult(SeekOutcome::Accepted), mode);
    assert_eq!(p, FetchPhase::Seeking { attempts: 0 });
    p = fetch_step(&p, &FetchEvent::SeeksDone, mode);
    assert_eq!(p, FetchPhase::Polling);
    p = fetch_step(&p, &FetchEvent::Message, mode);
    assert_eq!(p, FetchPhase::Draining);
    p = fetch_step(&p, &FetchEvent::IdleTimeout, mode);
    assert_eq!(p, FetchPhase::Unsubscribed);
}

#[test]
fn phase_machine_live_flow_cancels_to_unsubscribed() {
    let mode = FetchMode::Live;
    let mut p = FetchPhase::Polling;
    p = fetch_step(&p, &FetchEvent::Message, mode);
    assert_eq!(p, FetchPhase::Live);
    p = fetch_step(&p, &FetchEvent::Message, mode);
    assert_eq!(p, FetchPhase::Live);
    p = fetch_step(&p, &FetchEvent::Cancelled, mode);
    assert_eq!(p, FetchPhase::Unsubscribed);
}

#[test]
fn phase_machine_transient_seeks_end_failed_after_ceiling() {
    let mode = FetchMode::Bounded;
    let mut p = FetchPhase::Seeking { attempts: 0 };
    let mut seek_calls: u32 = 0;
    while matches!(p, FetchPhase::Seeking { .. }) {
        seek_calls += 1;
        p = fetch_step(&p, &FetchEvent::SeekResult(SeekOutcome::Transient), mode);
    }
    assert_eq!(seek_calls, SEEK_RETRY_CEILING);
    assert_eq!(p, FetchPhase::Failed);
    // the failed phase is terminal
    p = fetch_step(&p, &FetchEvent::SeekResult(SeekOutcome::Accepted), mode);
    assert_eq!(p, FetchPhase::Failed);
}

#[test]
fn poll_timeout_shortens_after_first_message() {
    assert_eq!(poll_timeout_ms(false), 30000);
    assert_eq!(poll_timeout_ms(true), 3000);
}

#[test]
fn process_message_decodes_all_parts() {
    let m = RawMessage {
        key: Some(b"k1".to_vec()),
        payload: Some("caf\u{e9}".as_bytes().to_vec()),
        headers: Some(vec![
            RawHeader { key: "trace".to_string(), value: Some(b"abc".to_vec()) },
            RawHeader { key: "empty".to_string(), value: None },
        ]),
        partition: 2,
        offset: 41,
        timestamp_ms: Some(123),
    };
    let out = process_message(&m).unwrap();
    assert_eq!(out.key, Some("k1".to_string()));
    assert_eq!(out.value, Some("caf\u{e9}".to_string()));
    assert_eq!(
        out.headers,
        Some(vec![
            ("trace".to_string(), Some("abc".to_string())),
            ("empty".to_string(), None),
        ])
    );
    assert_eq!(out.partition, 2);
    assert_eq!(out.offset, 41);
    assert_eq!(out.timestamp, 123);
}

#[test]
fn process_message_permits_absent_key_value_headers() {
    let m = RawMessage {
        key: None,
        payload: None,
        headers: None,
        partition: 0,
        offset: 7,
        timestamp_ms: Some(9),
    };
    let out = process_message(&m).unwrap();
    assert_eq!(out.key, None);
    assert_eq!(out.value, None);
    assert_eq!(out.headers, None);
}

#[test]
fn process_message_rejects_invalid_utf8() {
    let mut m = raw(1, 5);
    m.payload = Some(vec![0xff, 0xfe]);
    assert_eq!(process_message(&m), Err(FetchError::Decode { partition: 1, offset: 5 }));
}

#[test]
fn process_message_rejects_invalid_header_value() {
    let mut m = raw(3, 8);
    m.headers = Some(vec![RawHeader { key: "h".to_string(), value: Some(vec![0x80]) }]);
    assert_eq!(process_message(&m), Err(FetchError::Decode { partition: 3, offset: 8 }));
}

#[test]
fn process_message_rejects_missing_timestamp() {
    let mut m = raw(0, 3);
    m.timestamp_ms = None;
    assert_eq!(process_message(&m), Err(FetchError::Decode { partition: 0, offset: 3 }));
}

#[test]
fn bounded_fetch_keeps_the_greatest_window() {
    // two partitions, five qualifying messages each, window of six
    let mut records = Vec::new();
    for offset in 0..5 {
        records.push(msg(0, offset, 100 + offset));
        records.push(msg(1, offset, 200 + offset));
    }
    let window = select_recent(records, 6);
    assert_eq!(window.len(), 6);
    let picked: Vec<(i64, i64)> = window.iter().map(|m| (m.timestamp, m.offset)).collect();
    assert_eq!(picked, vec![(204, 4), (203, 3), (202, 2), (201, 1), (200, 0), (104, 4)]);
}

#[test]
fn window_sorts_ties_by_offset_descending() {
    let records = vec![msg(0, 1, 50), msg(1, 9, 50), msg(0, 4, 50)];
    let sorted = sort_messages(records);
    let offsets: Vec<i64> = sorted.iter().map(|m| m.offset).collect();
    assert_eq!(offsets, vec![9, 4, 1]);
}

#[test]
fn window_larger_than_input_returns_everything() {
    let records = vec![msg(0, 1, 10), msg(0, 2, 20)];
    let window = select_recent(records, 10);
    assert_eq!(window.len(), 2);
    assert_eq!(window[0].timestamp, 20);
}
