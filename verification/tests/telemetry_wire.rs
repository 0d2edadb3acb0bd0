use editor_server::error::ApiError;
use editor_server::telemetry::Channel;
use editor_server::telemetry::SensorSample;
use editor_server::telemetry::TelemetryStore;
use editor_server::wire;
use editor_server::wire::WireItem;

fn sample(dancer: &str, channel: Channel, timestamp: u64, data: &[u8]) -> SensorSample {
    SensorSample {
        dancer: dancer.as_bytes().to_vec(),
        channel,
        timestamp,
        data: data.to_vec(),
    }
}

#[test]
fn wire_round_trip() {
    let samples = vec![
        sample("D1", Channel::Fiber, 1, &[1, 2, 3]),
        sample("D1", Channel::Led, 2, &[]),
        sample("another dancer", Channel::Fiber, u64::MAX, &[255]),
    ];
    let bytes = wire::serialize(&samples);
    let items = wire::parse(&bytes).expect("parse");
    assert_eq!(items.len(), 3);
    for (item, s) in items.iter().zip(samples.iter()) {
        match item {
            WireItem::Good(g) => {
                assert_eq!(g.dancer, s.dancer);
                assert_eq!(g.channel, s.channel);
                assert_eq!(g.timestamp, s.timestamp);
                assert_eq!(g.data, s.data);
            }
            WireItem::Malformed => panic!("unexpected malformed record"),
        }
    }
}

#[test]
fn wire_exact_record_bytes() {
    // one record: tag 0, timestamp 1, dancer "D1", data [9]
    let bytes = wire::serialize(&vec![sample("D1", Channel::Fiber, 1, &[9])]);
    let expected: Vec<u8> = vec![
        14, 0, 0, 0, // frame length: 11 + 2 + 1
        0, // fiber tag
        1, 0, 0, 0, 0, 0, 0, 0, // timestamp 1, little endian
        2, 0, // dancer id length 2, little endian
        b'D', b'1', // dancer id
        9, // payload
    ];
    assert_eq!(bytes, expected);
}

#[test]
fn wire_truncated_payload_is_structural_error() {
    let bytes = vec![1, 2, 3];
    assert_eq!(wire::parse(&bytes), Err(ApiError::InvalidInput));
    // a length prefix promising more bytes than there are
    let bytes2 = vec![200, 0, 0, 0, 1, 2];
    assert_eq!(wire::parse(&bytes2), Err(ApiError::InvalidInput));
}

#[test]
fn wire_malformed_records_are_skipped_not_fatal() {
    // a frame whose body is too short for the record header
    let mut bytes = vec![2, 0, 0, 0, 7, 7];
    // a frame with an unknown channel tag
    let mut bad_tag = wire::serialize(&vec![sample("D1", Channel::Fiber, 1, &[])]);
    bad_tag[4] = 9;
    bytes.extend_from_slice(&bad_tag);
    // a frame with an empty dancer id
    let mut no_dancer = wire::serialize(&vec![sample("D", Channel::Fiber, 1, &[])]);
    no_dancer[13] = 0; // dancer length low byte
    bytes.extend_from_slice(&no_dancer);
    let items = wire::parse(&bytes).expect("parse");
    assert_eq!(items.len(), 3);
    for item in &items {
        assert!(matches!(item, WireItem::Malformed));
    }
}

#[test]
fn append_rejects_channel_mismatch() {
    let mut store = TelemetryStore::new();
    let batch = vec![sample("D1", Channel::Led, 1, &[1])];
    let r = store.append(&b"D1".to_vec(), Channel::Fiber, &batch);
    assert_eq!(r, Err(ApiError::InvalidInput));
    assert!(store.read_all(&b"D1".to_vec(), Channel::Fiber).is_empty());
}

#[test]
fn append_rejects_decreasing_timestamps() {
    let mut store = TelemetryStore::new();
    let batch = vec![
        sample("D1", Channel::Fiber, 2, &[1]),
        sample("D1", Channel::Fiber, 1, &[2]),
    ];
    let r = store.append(&b"D1".to_vec(), Channel::Fiber, &batch);
    assert_eq!(r, Err(ApiError::InvalidInput));
}

#[test]
fn append_rejects_empty_dancer_id() {
    let mut store = TelemetryStore::new();
    let batch = vec![sample("", Channel::Fiber, 1, &[1])];
    let r = store.append(&Vec::new(), Channel::Fiber, &batch);
    assert_eq!(r, Err(ApiError::InvalidInput));
}

#[test]
fn read_all_is_ordered_and_read_range_is_half_open() {
    let mut store = TelemetryStore::new();
    let batch = vec![
        sample("D1", Channel::Fiber, 1, &[1]),
        sample("D1", Channel::Fiber, 2, &[2]),
        sample("D1", Channel::Fiber, 5, &[5]),
    ];
    assert_eq!(store.append(&b"D1".to_vec(), Channel::Fiber, &batch), Ok(3));
    let all = store.read_all(&b"D1".to_vec(), Channel::Fiber);
    let ts: Vec<u64> = all.iter().map(|s| s.timestamp).collect();
    assert_eq!(ts, vec![1, 2, 5]);
    let ranged = store.read_range(&b"D1".to_vec(), Channel::Fiber, 2, 5);
    let ts2: Vec<u64> = ranged.iter().map(|s| s.timestamp).collect();
    assert_eq!(ts2, vec![2]);
    // an unknown key reads as empty, not as an error
    assert!(store.read_all(&b"D9".to_vec(), Channel::Fiber).is_empty());
}

#[test]
fn last_write_wins_within_one_append() {
    let mut store = TelemetryStore::new();
    let batch = vec![
        sample("D1", Channel::Fiber, 1, &[1]),
        sample("D1", Channel::Fiber, 1, &[2]),
    ];
    assert_eq!(store.append(&b"D1".to_vec(), Channel::Fiber, &batch), Ok(2));
    let all = store.read_all(&b"D1".to_vec(), Channel::Fiber);
    assert_eq!(all.len(), 1);
    assert_eq!(all[0].data, vec![2]);
}

#[test]
fn channels_are_independent_partitions() {
    let mut store = TelemetryStore::new();
    let fiber = vec![sample("D1", Channel::Fiber, 1, &[1])];
    let led = vec![sample("D1", Channel::Led, 9, &[9])];
    assert_eq!(store.append(&b"D1".to_vec(), Channel::Fiber, &fiber), Ok(1));
    assert_eq!(store.append(&b"D1".to_vec(), Channel::Led, &led), Ok(1));
    assert_eq!(store.read_all(&b"D1".to_vec(), Channel::Fiber).len(), 1);
    let led_read = store.read_all(&b"D1".to_vec(), Channel::Led);
    assert_eq!(led_read.len(), 1);
    assert_eq!(led_read[0].timestamp, 9);
}
