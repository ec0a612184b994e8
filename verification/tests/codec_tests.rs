use cronos::codec::{decode_task, encode_task, TaskRecord};
use cronos::errors::Error;
use cronos::task::TaskStatus;

fn sample_record() -> TaskRecord {
    TaskRecord {
        owner: 42,
        daemon: 7,
        id: 3,
        status: TaskStatus::Pending,
        exec_at: -12345,
        stop_at: Some(99999),
        exec_count: 5,
        recurrence: "0 30 9 * * *".as_bytes().to_vec(),
        payload: vec![1, 2, 3, 4],
    }
}

#[test]
fn record_round_trip() {
    let rec = sample_record();
    let bytes = encode_task(&rec);
    let back = decode_task(&bytes).unwrap();
    assert_eq!(back.owner, 42);
    assert_eq!(back.daemon, 7);
    assert_eq!(back.id, 3);
    assert_eq!(back.status, TaskStatus::Pending);
    assert_eq!(back.exec_at, -12345);
    assert_eq!(back.stop_at, Some(99999));
    assert_eq!(back.exec_count, 5);
    assert_eq!(back.recurrence, "0 30 9 * * *".as_bytes().to_vec());
    assert_eq!(back.payload, vec![1, 2, 3, 4]);
}

#[test]
fn one_shot_record_round_trip() {
    let rec = TaskRecord {
        owner: u64::MAX,
        daemon: 0,
        id: u64::MAX,
        status: TaskStatus::Executed,
        exec_at: i64::MIN,
        stop_at: None,
        exec_count: u64::MAX,
        recurrence: Vec::new(),
        payload: Vec::new(),
    };
    let bytes = encode_task(&rec);
    let back = decode_task(&bytes).unwrap();
    assert_eq!(back.owner, u64::MAX);
    assert_eq!(back.status, TaskStatus::Executed);
    assert_eq!(back.exec_at, i64::MIN);
    assert_eq!(back.stop_at, None);
    assert_eq!(back.exec_count, u64::MAX);
    assert!(back.recurrence.is_empty());
    assert!(back.payload.is_empty());
}

#[test]
fn malformed_records_are_not_parsable() {
    // too short to hold a header
    assert_eq!(decode_task(&[]).unwrap_err(), Error::NotParsable);
    assert_eq!(decode_task(&[0u8; 59]).unwrap_err(), Error::NotParsable);

    let good = encode_task(&sample_record());

    // an unknown status byte
    let mut bad = good.clone();
    bad[24] = 9;
    assert_eq!(decode_task(&bad).unwrap_err(), Error::NotParsable);

    // an invalid sign byte on the due time
    let mut bad = good.clone();
    bad[25] = 7;
    assert_eq!(decode_task(&bad).unwrap_err(), Error::NotParsable);

    // a recurrence length running past the end of the record
    let mut bad = good.clone();
    bad[52] = 255;
    bad[53] = 255;
    assert_eq!(decode_task(&bad).unwrap_err(), Error::NotParsable);
}
