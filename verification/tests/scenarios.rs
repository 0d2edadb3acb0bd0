use editor_server::backend::Backend;
use editor_server::error::ApiError;
use editor_server::export::ExportQuery;
use editor_server::telemetry::Channel;
use editor_server::telemetry::SensorSample;
use editor_server::wire;
use editor_server::wire::WireItem;

fn sample(dancer: &str, channel: Channel, timestamp: u64, data: &[u8]) -> SensorSample {
    SensorSample {
        dancer: dancer.as_bytes().to_vec(),
        channel,
        timestamp,
        data: data.to_vec(),
    }
}

fn good_samples(items: Vec<WireItem>) -> Vec<SensorSample> {
    items
        .into_iter()
        .map(|it| match it {
            WireItem::Good(s) => s,
            WireItem::Malformed => panic!("unexpected malformed record"),
        })
        .collect()
}

#[test]
fn alice_uploads_exports_and_logs_out() {
    let mut b = Backend::new(1000);
    b.creds
        .create_user(&b"alice".to_vec(), &b"secret123".to_vec(), 42)
        .expect("create alice");
    let t1 = b
        .login(&b"alice".to_vec(), &b"secret123".to_vec(), 0, 10, 20)
        .expect("login");
    let payload = wire::serialize(&vec![
        sample("D1", Channel::Fiber, 1, &[1]),
        sample("D1", Channel::Fiber, 2, &[2]),
        sample("D1", Channel::Fiber, 3, &[3]),
    ]);
    let summary = b.upload(t1, 1, &payload).expect("upload");
    assert_eq!(summary.accepted, 3);
    assert_eq!(summary.rejected, 0);
    let query = ExportQuery {
        dancer: Some(b"D1".to_vec()),
        channel: Some(Channel::Fiber),
        range: None,
    };
    let exported = b.export(t1, 2, &query).expect("export");
    let records = good_samples(wire::parse(&exported).expect("parse export"));
    let ts: Vec<u64> = records.iter().map(|s| s.timestamp).collect();
    assert_eq!(ts, vec![1, 2, 3]);
    assert!(records.iter().all(|s| s.dancer == b"D1".to_vec() && s.channel == Channel::Fiber));
    assert_eq!(b.logout(t1), Ok(()));
    assert_eq!(b.check_token(t1, 3), Err(ApiError::Unauthenticated));
}

#[test]
fn malformed_record_is_rejected_sibling_is_stored() {
    let mut b = Backend::new(1000);
    b.creds
        .create_user(&b"alice".to_vec(), &b"secret123".to_vec(), 42)
        .expect("create alice");
    let t = b
        .login(&b"alice".to_vec(), &b"secret123".to_vec(), 0, 1, 2)
        .expect("login");
    // one well-formed LED record for D2, then one malformed record whose
    // body ends before the timestamp
    let mut payload = wire::serialize(&vec![sample("D2", Channel::Led, 7, &[3, 4])]);
    payload.extend_from_slice(&[5, 0, 0, 0, 1, 0, 0, 0, 0]);
    let summary = b.upload(t, 1, &payload).expect("upload");
    assert_eq!(summary.accepted, 1);
    assert_eq!(summary.rejected, 1);
    let query = ExportQuery {
        dancer: Some(b"D2".to_vec()),
        channel: Some(Channel::Led),
        range: None,
    };
    let exported = b.export(t, 2, &query).expect("export");
    let records = good_samples(wire::parse(&exported).expect("parse export"));
    assert_eq!(records.len(), 1);
    assert_eq!(records[0].timestamp, 7);
    assert_eq!(records[0].data, vec![3, 4]);
}

#[test]
fn overlapping_uploads_later_write_wins() {
    let mut b = Backend::new(1000);
    b.creds
        .create_user(&b"alice".to_vec(), &b"secret123".to_vec(), 42)
        .expect("create alice");
    let t = b
        .login(&b"alice".to_vec(), &b"secret123".to_vec(), 0, 1, 2)
        .expect("login");
    let first = wire::serialize(&vec![
        sample("D3", Channel::Fiber, 1, &[10]),
        sample("D3", Channel::Fiber, 2, &[20]),
        sample("D3", Channel::Fiber, 3, &[30]),
    ]);
    let second = wire::serialize(&vec![
        sample("D3", Channel::Fiber, 2, &[22]),
        sample("D3", Channel::Fiber, 3, &[33]),
        sample("D3", Channel::Fiber, 4, &[44]),
    ]);
    assert_eq!(b.upload(t, 1, &first).expect("first").accepted, 3);
    assert_eq!(b.upload(t, 2, &second).expect("second").accepted, 3);
    let all = b
        .get_dancer_fiber_data(t, 3, &b"D3".to_vec())
        .expect("read");
    // one sample per distinct timestamp, the later-accepted write winning
    let got: Vec<(u64, Vec<u8>)> = all.iter().map(|s| (s.timestamp, s.data.clone())).collect();
    assert_eq!(
        got,
        vec![
            (1, vec![10]),
            (2, vec![22]),
            (3, vec![33]),
            (4, vec![44]),
        ]
    );
}

#[test]
fn export_reingest_is_idempotent() {
    let mut b = Backend::new(1000);
    b.creds
        .create_user(&b"alice".to_vec(), &b"secret123".to_vec(), 42)
        .expect("create alice");
    let t = b
        .login(&b"alice".to_vec(), &b"secret123".to_vec(), 0, 1, 2)
        .expect("login");
    let payload = wire::serialize(&vec![
        sample("D1", Channel::Fiber, 1, &[1]),
        sample("D1", Channel::Fiber, 2, &[2]),
        sample("D2", Channel::Led, 5, &[5, 6]),
    ]);
    assert_eq!(b.upload(t, 1, &payload).expect("upload").accepted, 3);
    let everything = ExportQuery { dancer: None, channel: None, range: None };
    let exported = b.export(t, 2, &everything).expect("export");
    let summary = b.upload(t, 3, &exported).expect("re-ingest");
    assert_eq!(summary.rejected, 0);
    assert_eq!(summary.accepted, 3);
    let exported_again = b.export(t, 4, &everything).expect("export again");
    assert_eq!(exported, exported_again);
}

#[test]
fn ranged_export_matches_range_read() {
    let mut b = Backend::new(1000);
    b.creds
        .create_user(&b"alice".to_vec(), &b"secret123".to_vec(), 42)
        .expect("create alice");
    let t = b
        .login(&b"alice".to_vec(), &b"secret123".to_vec(), 0, 1, 2)
        .expect("login");
    let payload = wire::serialize(&vec![
        sample("D1", Channel::Fiber, 1, &[1]),
        sample("D1", Channel::Fiber, 2, &[2]),
        sample("D1", Channel::Fiber, 5, &[5]),
    ]);
    assert_eq!(b.upload(t, 1, &payload).expect("upload").accepted, 3);
    let query = ExportQuery {
        dancer: Some(b"D1".to_vec()),
        channel: Some(Channel::Fiber),
        range: Some((2, 5)),
    };
    let exported = b.export(t, 2, &query).expect("export");
    let records = good_samples(wire::parse(&exported).expect("parse"));
    let ts: Vec<u64> = records.iter().map(|s| s.timestamp).collect();
    assert_eq!(ts, vec![2]);
}

#[test]
fn unknown_dancer_is_not_found_and_empty_channel_is_not() {
    let mut b = Backend::new(1000);
    b.creds
        .create_user(&b"alice".to_vec(), &b"secret123".to_vec(), 42)
        .expect("create alice");
    let t = b
        .login(&b"alice".to_vec(), &b"secret123".to_vec(), 0, 1, 2)
        .expect("login");
    let payload = wire::serialize(&vec![sample("D1", Channel::Fiber, 1, &[1])]);
    assert_eq!(b.upload(t, 1, &payload).expect("upload").accepted, 1);
    assert_eq!(
        b.get_dancer_led_data(t, 2, &b"D9".to_vec()),
        Err(ApiError::NotFound)
    );
    // the dancer is known from the fiber stream; its LED stream is empty
    let led = b
        .get_dancer_led_data(t, 3, &b"D1".to_vec())
        .expect("led read");
    assert!(led.is_empty());
}

#[test]
fn structurally_broken_upload_rejects_whole_request() {
    let mut b = Backend::new(1000);
    b.creds
        .create_user(&b"alice".to_vec(), &b"secret123".to_vec(), 42)
        .expect("create alice");
    let t = b
        .login(&b"alice".to_vec(), &b"secret123".to_vec(), 0, 1, 2)
        .expect("login");
    let mut payload = wire::serialize(&vec![sample("D1", Channel::Fiber, 1, &[1])]);
    payload.extend_from_slice(&[9, 9]); // trailing garbage breaks framing
    assert_eq!(b.upload(t, 1, &payload), Err(ApiError::InvalidInput));
    // nothing was stored
    assert_eq!(
        b.get_dancer_fiber_data(t, 2, &b"D1".to_vec()),
        Err(ApiError::NotFound)
    );
}

#[test]
fn out_of_order_batch_is_rejected_sibling_batch_kept() {
    let mut b = Backend::new(1000);
    b.creds
        .create_user(&b"alice".to_vec(), &b"secret123".to_vec(), 42)
        .expect("create alice");
    let t = b
        .login(&b"alice".to_vec(), &b"secret123".to_vec(), 0, 1, 2)
        .expect("login");
    // D1's batch is out of order; D2's is fine
    let payload = wire::serialize(&vec![
        sample("D1", Channel::Fiber, 5, &[5]),
        sample("D2", Channel::Fiber, 1, &[1]),
        sample("D1", Channel::Fiber, 4, &[4]),
    ]);
    let summary = b.upload(t, 1, &payload).expect("upload");
    assert_eq!(summary.accepted, 1);
    assert_eq!(summary.rejected, 2);
    assert!(b.get_dancer_fiber_data(t, 2, &b"D1".to_vec()).is_err());
    let d2 = b
        .get_dancer_fiber_data(t, 3, &b"D2".to_vec())
        .expect("d2 read");
    assert_eq!(d2.len(), 1);
}
